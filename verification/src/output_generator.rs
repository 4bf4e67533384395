//! The export generator: turns the final selection into one text artifact
//! holding a header, a pretty-printed directory tree of the selected
//! paths, and the files' contents.  Everything here is a pure function
//! from values to bytes; reading the files and writing the artifact belong
//! to the binary around the library, which hands contents in and bytes
//! out.  Only the header's timestamp comes from the clock, through one
//! trusted call.

use vstd::prelude::*;
use vstd::string::StringSliceAdditionalSpecFns;
use crate::bytes::{bytes_eq, bytes_le, clone_bytes, lex_le, push_bytes};
use crate::config::OutputFormat;
use crate::paths::{clone_path, path_eq};

verus! {

/// One selected file as handed to the generator: its path relative to the
/// base directory, and its contents, or the message of the error met
/// reading it.
#[derive(Debug)]
pub struct ExportFile {
    pub path: Vec<Vec<u8>>,
    pub content: Result<Vec<u8>, Vec<u8>>,
}

/// `n` levels of tree indentation, four spaces each.
pub open spec fn indent(n: nat) -> Seq<u8>
    decreases n,
{
    if n == 0 {
        Seq::empty()
    } else {
        indent((n - 1) as nat) + "    ".spec_bytes()
    }
}

/// `n` repetitions of a three-byte glyph.
pub open spec fn rep3(a: u8, b: u8, c: u8, n: nat) -> Seq<u8>
    decreases n,
{
    if n == 0 {
        Seq::empty()
    } else {
        rep3(a, b, c, (n - 1) as nat) + seq![a, b, c]
    }
}

/// The heavy section rule: eighty double-bar glyphs.
pub open spec fn heavy_sep() -> Seq<u8> {
    rep3(0xE2, 0x95, 0x90, 80)
}

/// The light per-file rule: sixty single-bar glyphs.
pub open spec fn light_sep() -> Seq<u8> {
    rep3(0xE2, 0x94, 0x80, 60)
}

/// The branch glyph that opens each tree line.
pub open spec fn branch_glyph() -> Seq<u8> {
    seq![0xE2, 0x94, 0x9C, 0xE2, 0x94, 0x80, 0xE2, 0x94, 0x80, 0x20]
}

/// The mark behind a selected file in the tree.
pub open spec fn check_suffix() -> Seq<u8> {
    seq![0x20, 0xE2, 0x9C, 0x93, 0x0A]
}

/// The suffix behind a directory in the tree.
pub open spec fn dir_suffix() -> Seq<u8> {
    seq![0x2F, 0x0A]
}

/// The decimal digits of `n`.
pub open spec fn dec_digits(n: nat) -> Seq<u8>
    decreases n,
{
    if n < 10 {
        seq![(48 + n) as u8]
    } else {
        dec_digits(n / 10).push((48 + n % 10) as u8)
    }
}

/// The export header: title, timestamp, base directory, file count, and
/// the opening of the directory-structure section.
pub open spec fn header_text(base_display: Seq<u8>, ts: Seq<u8>, nfiles: nat) -> Seq<u8> {
    "# Codebase Export\n".spec_bytes() + "Generated on: ".spec_bytes() + ts + "\n".spec_bytes()
        + "Base directory: ".spec_bytes() + base_display + "\n".spec_bytes()
        + "Total files: ".spec_bytes() + dec_digits(nfiles) + "\n\n".spec_bytes() + heavy_sep()
        + "\n".spec_bytes() + "## DIRECTORY STRUCTURE\n".spec_bytes() + heavy_sep()
        + "\n\n".spec_bytes()
}

/// Componentwise order on paths: a proper prefix sorts first, and
/// otherwise the first differing component decides, by byte order.
pub open spec fn path_le_c(a: Seq<Seq<u8>>, b: Seq<Seq<u8>>) -> bool
    decreases a.len(),
{
    if a.len() == 0 {
        true
    } else if b.len() == 0 {
        false
    } else if a[0] == b[0] {
        path_le_c(a.drop_first(), b.drop_first())
    } else {
        lex_le(a[0], b[0])
    }
}

/// Inserts a path into an ordered, duplicate-free path list, keeping it
/// ordered and duplicate-free.
pub open spec fn insert_path_sorted(p: Seq<Seq<u8>>, s: Seq<Seq<Seq<u8>>>) -> Seq<Seq<Seq<u8>>>
    decreases s.len(),
{
    if s.len() == 0 {
        seq![p]
    } else if p == s[0] {
        s
    } else if path_le_c(p, s[0]) {
        seq![p] + s
    } else {
        seq![s[0]] + insert_path_sorted(p, s.drop_first())
    }
}

/// Adds the prefixes of `p` of length `m` and longer — `p` itself and its
/// ancestor directories — to the ordered list.
pub open spec fn add_prefixes(p: Seq<Seq<u8>>, m: int, acc: Seq<Seq<Seq<u8>>>) -> Seq<
    Seq<Seq<u8>>,
>
    decreases p.len() + 1 - m,
{
    if m < 1 || m > p.len() {
        acc
    } else {
        add_prefixes(p, m + 1, insert_path_sorted(p.take(m), acc))
    }
}

/// The ordered, duplicate-free list of the first `i` selected paths and
/// all their ancestors.
pub open spec fn tree_paths_upto(sel: Seq<Seq<Seq<u8>>>, i: int) -> Seq<Seq<Seq<u8>>>
    decreases i,
{
    if i <= 0 {
        Seq::empty()
    } else {
        add_prefixes(sel[i - 1], 1, tree_paths_upto(sel, i - 1))
    }
}

/// All selected paths and their ancestors, ordered.
pub open spec fn tree_paths(sel: Seq<Seq<Seq<u8>>>) -> Seq<Seq<Seq<u8>>> {
    tree_paths_upto(sel, sel.len() as int)
}

/// One line of the tree: indentation by component count, the branch
/// glyph, the base name, and a selection mark for a selected file or a
/// slash for a directory.
pub open spec fn tree_line(q: Seq<Seq<u8>>, sel: Seq<Seq<Seq<u8>>>) -> Seq<u8> {
    let nm = if q.len() == 0 {
        Seq::<u8>::empty()
    } else {
        q[q.len() - 1]
    };
    indent(q.len()) + branch_glyph() + nm + (if sel.contains(q) {
        check_suffix()
    } else {
        dir_suffix()
    })
}

/// The first `i` tree lines.
pub open spec fn tree_lines_upto(qs: Seq<Seq<Seq<u8>>>, sel: Seq<Seq<Seq<u8>>>, i: int) -> Seq<
    u8,
>
    decreases i,
{
    if i <= 0 {
        Seq::empty()
    } else {
        tree_lines_upto(qs, sel, i - 1) + tree_line(qs[i - 1], sel)
    }
}

/// The directory-structure section: the base directory's name, then one
/// line per selected path or ancestor directory, in order.
pub open spec fn tree_text(base_name: Seq<u8>, sel: Seq<Seq<Seq<u8>>>) -> Seq<u8> {
    let qs = tree_paths(sel);
    base_name + "/\n".spec_bytes() + tree_lines_upto(qs, sel, qs.len() as int)
        + "\n".spec_bytes()
}

/// Appends the bytes of a literal.
fn push_str_bytes(out: &mut Vec<u8>, s: &str)
    ensures
        final(out)@ == old(out)@ + s.spec_bytes(),
{
    let b = s.as_bytes();
    let mut i: usize = 0;
    proof {
        assert(out@ =~= old(out)@ + b@.take(0));
    }
    while i < b.len()
        invariant
            i <= b@.len(),
            b@ == s.spec_bytes(),
            out@ == old(out)@ + b@.take(i as int),
        decreases b@.len() - i,
    {
        out.push(b[i]);
        assert(out@ =~= old(out)@ + b@.take(i as int + 1));
        i = i + 1;
    }
    proof {
        assert(out@ =~= old(out)@ + b@);
    }
}

/// Appends `n` repetitions of a three-byte glyph.
fn push_rep3(out: &mut Vec<u8>, a: u8, b: u8, c: u8, n: usize)
    ensures
        final(out)@ == old(out)@ + rep3(a, b, c, n as nat),
{
    let mut i: usize = 0;
    proof {
        assert(out@ =~= old(out)@ + rep3(a, b, c, 0));
    }
    while i < n
        invariant
            i <= n,
            out@ == old(out)@ + rep3(a, b, c, i as nat),
        decreases n - i,
    {
        out.push(a);
        out.push(b);
        out.push(c);
        assert(out@ =~= old(out)@ + rep3(a, b, c, (i + 1) as nat));
        i = i + 1;
    }
}

/// Appends `n` levels of indentation.
fn push_indent(out: &mut Vec<u8>, n: usize)
    ensures
        final(out)@ == old(out)@ + indent(n as nat),
{
    let mut i: usize = 0;
    proof {
        assert(out@ =~= old(out)@ + indent(0));
    }
    while i < n
        invariant
            i <= n,
            out@ == old(out)@ + indent(i as nat),
        decreases n - i,
    {
        push_str_bytes(out, "    ");
        assert(out@ =~= old(out)@ + indent((i + 1) as nat));
        i = i + 1;
    }
}

/// Appends the decimal digits of `n`.
fn push_decimal(out: &mut Vec<u8>, n: usize)
    ensures
        final(out)@ == old(out)@ + dec_digits(n as nat),
    decreases n,
{
    if n >= 10 {
        push_decimal(out, n / 10);
    }
    out.push(48 + (n % 10) as u8);
    proof {
        if n < 10 {
            assert(out@ =~= old(out)@ + dec_digits(n as nat));
        } else {
            assert(out@ =~= old(out)@ + dec_digits(n as nat));
        }
    }
}

/// Decides the componentwise path order.
pub fn path_le_exec(a: &Vec<Vec<u8>>, b: &Vec<Vec<u8>>) -> (r: bool)
    ensures
        r == path_le_c(a.deep_view(), b.deep_view()),
{
    let mut i: usize = 0;
    loop
        invariant
            i <= a.len(),
            i <= b.len(),
            forall|k: int| 0 <= k < i ==> a.deep_view()[k] == b.deep_view()[k],
        decreases a.len() - i,
    {
        proof {
            lemma_path_le_skip(a.deep_view(), b.deep_view(), i as int);
        }
        if i == a.len() {
            return true;
        }
        if i == b.len() {
            return false;
        }
        if !bytes_eq(&a[i], &b[i]) {
            proof {
                assert(a.deep_view()[i as int] =~= a@[i as int]@);
                assert(b.deep_view()[i as int] =~= b@[i as int]@);
                assert(a.deep_view().skip(i as int)[0] == a.deep_view()[i as int]);
                assert(b.deep_view().skip(i as int)[0] == b.deep_view()[i as int]);
            }
            return bytes_le(&a[i], &b[i]);
        }
        proof {
            assert(a.deep_view()[i as int] =~= a@[i as int]@);
            assert(b.deep_view()[i as int] =~= b@[i as int]@);
        }
        i = i + 1;
    }
}

/// Skipping a common prefix of components does not change how two paths
/// compare.
proof fn lemma_path_le_skip(a: Seq<Seq<u8>>, b: Seq<Seq<u8>>, i: int)
    requires
        0 <= i <= a.len(),
        i <= b.len(),
        forall|k: int| 0 <= k < i ==> a[k] == b[k],
    ensures
        path_le_c(a, b) == path_le_c(a.skip(i), b.skip(i)),
    decreases i,
{
    if i > 0 {
        lemma_path_le_skip(a.drop_first(), b.drop_first(), i - 1);
        assert(a.drop_first().skip(i - 1) =~= a.skip(i));
        assert(b.drop_first().skip(i - 1) =~= b.skip(i));
    } else {
        assert(a.skip(0) =~= a);
        assert(b.skip(0) =~= b);
    }
}

/// Characterizes where `insert_path_sorted` acts, by the scan position.
proof fn lemma_insert_path_at(p: Seq<Seq<u8>>, s: Seq<Seq<Seq<u8>>>, j: int)
    requires
        0 <= j <= s.len(),
        forall|t: int| 0 <= t < j ==> s[t] != p && !path_le_c(p, #[trigger] s[t]),
        j < s.len() ==> (p == s[j] || path_le_c(p, s[j])),
    ensures
        insert_path_sorted(p, s) == (if j < s.len() && p == s[j] {
            s
        } else {
            s.take(j).push(p) + s.skip(j)
        }),
    decreases j,
{
    if s.len() == 0 {
        assert(insert_path_sorted(p, s) =~= s.take(0).push(p) + s.skip(0));
    } else if j == 0 {
        if p == s[0] {
        } else {
            assert(path_le_c(p, s[0]));
            assert(insert_path_sorted(p, s) == seq![p] + s);
            assert(insert_path_sorted(p, s) =~= s.take(0).push(p) + s.skip(0));
        }
    } else {
        assert(s[0] != p && !path_le_c(p, s[0]));
        lemma_insert_path_at(p, s.drop_first(), j - 1);
        assert(insert_path_sorted(p, s) == seq![s[0]] + insert_path_sorted(p, s.drop_first()));
        if j < s.len() && p == s[j] {
            assert(s.drop_first()[j - 1] == s[j]);
            assert(insert_path_sorted(p, s) =~= s);
        } else {
            assert(insert_path_sorted(p, s) =~= s.take(j).push(p) + s.skip(j));
        }
    }
}

/// Splices a copy of `p` into the path vector at position `j`.
fn splice_path_at(qs: &mut Vec<Vec<Vec<u8>>>, j: usize, p: &Vec<Vec<u8>>)
    requires
        j <= old(qs).len(),
    ensures
        final(qs).deep_view() == old(qs).deep_view().take(j as int).push(p.deep_view()) + old(
            qs,
        ).deep_view().skip(j as int),
{
    let ghost oldv = qs@;
    let ghost oldd = qs.deep_view();
    let ghost gj = j as int;
    let c = clone_path(p);
    qs.insert(j, c);
    proof {
        let nd = qs.deep_view();
        let t = oldd.take(gj).push(p.deep_view()) + oldd.skip(gj);
        assert(nd.len() == t.len());
        assert forall|k: int| 0 <= k < nd.len() implies nd[k] == t[k] by {
            assert(nd[k] == qs@[k].deep_view());
            if k < gj {
                assert(qs@[k] == oldv[k]);
                assert(oldd[k] == oldv[k].deep_view());
            } else if k == gj {
                assert(qs@[k] == c);
            } else {
                assert(qs@[k] == oldv[k - 1]);
                assert(oldd[k - 1] == oldv[k - 1].deep_view());
            }
        }
        assert(nd =~= t);
    }
}

/// Inserts a copy of `p` into the ordered, duplicate-free path vector.
fn insert_path_exec(qs: &mut Vec<Vec<Vec<u8>>>, p: &Vec<Vec<u8>>)
    ensures
        final(qs).deep_view() == insert_path_sorted(p.deep_view(), old(qs).deep_view()),
{
    let mut j: usize = 0;
    loop
        invariant
            j <= qs.len(),
            qs == old(qs),
            forall|t: int|
                0 <= t < j ==> qs.deep_view()[t] != p.deep_view() && !path_le_c(
                    p.deep_view(),
                    #[trigger] qs.deep_view()[t],
                ),
        decreases qs.len() - j,
    {
        if j == qs.len() {
            splice_path_at(qs, j, p);
            proof {
                lemma_insert_path_at(p.deep_view(), old(qs).deep_view(), j as int);
            }
            return;
        }
        if path_eq(&qs[j], p) {
            proof {
                assert(qs.deep_view()[j as int] == p.deep_view());
                lemma_insert_path_at(p.deep_view(), old(qs).deep_view(), j as int);
            }
            return;
        }
        if path_le_exec(p, &qs[j]) {
            proof {
                assert(qs.deep_view()[j as int] == qs@[j as int].deep_view());
            }
            splice_path_at(qs, j, p);
            proof {
                lemma_insert_path_at(p.deep_view(), old(qs).deep_view(), j as int);
            }
            return;
        }
        proof {
            assert(qs.deep_view()[j as int] == qs@[j as int].deep_view());
        }
        j = j + 1;
    }
}

/// Appends the branch glyph that opens a tree line.
fn push_branch_glyph(out: &mut Vec<u8>)
    ensures
        final(out)@ == old(out)@ + branch_glyph(),
{
    out.push(0xE2);
    out.push(0x94);
    out.push(0x9C);
    out.push(0xE2);
    out.push(0x94);
    out.push(0x80);
    out.push(0xE2);
    out.push(0x94);
    out.push(0x80);
    out.push(0x20);
    proof {
        assert(out@ =~= old(out)@ + branch_glyph());
    }
}

/// Appends the mark behind a selected file.
fn push_check_suffix(out: &mut Vec<u8>)
    ensures
        final(out)@ == old(out)@ + check_suffix(),
{
    out.push(0x20);
    out.push(0xE2);
    out.push(0x9C);
    out.push(0x93);
    out.push(0x0A);
    proof {
        assert(out@ =~= old(out)@ + check_suffix());
    }
}

/// Appends the suffix behind a directory line.
fn push_dir_suffix(out: &mut Vec<u8>)
    ensures
        final(out)@ == old(out)@ + dir_suffix(),
{
    out.push(0x2F);
    out.push(0x0A);
    proof {
        assert(out@ =~= old(out)@ + dir_suffix());
    }
}

/// Does the path list hold this path?
fn list_contains_path(list: &Vec<Vec<Vec<u8>>>, q: &Vec<Vec<u8>>) -> (r: bool)
    ensures
        r == list.deep_view().contains(q.deep_view()),
{
    let mut i: usize = 0;
    while i < list.len()
        invariant
            i <= list.len(),
            forall|k: int| 0 <= k < i ==> list.deep_view()[k] != q.deep_view(),
        decreases list.len() - i,
    {
        if path_eq(&list[i], q) {
            proof {
                assert(list.deep_view()[i as int] == q.deep_view());
            }
            return true;
        }
        proof {
            assert(list.deep_view()[i as int] == list@[i as int].deep_view());
        }
        i = i + 1;
    }
    proof {
        assert(!list.deep_view().contains(q.deep_view()));
    }
    false
}

/// `n` spaces.
pub open spec fn spaces(n: nat) -> Seq<u8>
    decreases n,
{
    if n == 0 {
        Seq::empty()
    } else {
        spaces((n - 1) as nat).push(32u8)
    }
}

/// The decimal digits of `n`, space-padded on the left to four columns.
pub open spec fn pad4(n: nat) -> Seq<u8> {
    if dec_digits(n).len() >= 4 {
        dec_digits(n)
    } else {
        spaces((4 - dec_digits(n).len()) as nat) + dec_digits(n)
    }
}

/// How many digits a number prints with.
proof fn lemma_dec_len(n: nat)
    ensures
        n < 10 ==> dec_digits(n).len() == 1,
        10 <= n < 100 ==> dec_digits(n).len() == 2,
        100 <= n < 1000 ==> dec_digits(n).len() == 3,
        n >= 1000 ==> dec_digits(n).len() >= 4,
    decreases n,
{
    if n >= 10 {
        lemma_dec_len(n / 10);
    }
}

/// Order of two export files: by path.
pub open spec fn file_le(a: ExportFile, b: ExportFile) -> bool {
    path_le_c(a.path.deep_view(), b.path.deep_view())
}

/// Inserts an export file into an ordered list.
pub open spec fn insert_file(f: ExportFile, s: Seq<ExportFile>) -> Seq<ExportFile>
    decreases s.len(),
{
    if s.len() == 0 {
        seq![f]
    } else if file_le(f, s[0]) {
        seq![f] + s
    } else {
        seq![s[0]] + insert_file(f, s.drop_first())
    }
}

/// Insertion sort of export files by path.
pub open spec fn sort_files(s: Seq<ExportFile>) -> Seq<ExportFile>
    decreases s.len(),
{
    if s.len() == 0 {
        s
    } else {
        insert_file(s[0], sort_files(s.drop_first()))
    }
}

/// An ASCII whitespace byte.
pub open spec fn is_ws_byte(b: u8) -> bool {
    b == 32 || b == 9 || b == 10 || b == 13 || b == 11 || b == 12
}

/// Nothing but whitespace: what counts as an empty file.
pub open spec fn all_ws(s: Seq<u8>) -> bool {
    forall|i: int| 0 <= i < s.len() ==> is_ws_byte(#[trigger] s[i])
}

/// A line without its trailing carriage return.
pub open spec fn strip_cr(l: Seq<u8>) -> Seq<u8> {
    if l.len() > 0 && l[l.len() - 1] == 13 {
        l.drop_last()
    } else {
        l
    }
}

/// Position of the first line feed, or the length when there is none.
pub open spec fn first_nl(s: Seq<u8>) -> int
    decreases s.len(),
{
    if s.len() == 0 {
        0
    } else if s[0] == 10 {
        0
    } else {
        1 + first_nl(s.drop_first())
    }
}

proof fn lemma_first_nl_bounds(s: Seq<u8>)
    ensures
        0 <= first_nl(s) <= s.len(),
        first_nl(s) < s.len() ==> s[first_nl(s)] == 10,
        forall|k: int| 0 <= k < first_nl(s) ==> s[k] != 10,
    decreases s.len(),
{
    if s.len() > 0 && s[0] != 10 {
        lemma_first_nl_bounds(s.drop_first());
        assert forall|k: int| 0 <= k < first_nl(s) implies s[k] != 10 by {
            if k > 0 {
                assert(s.drop_first()[k - 1] != 10);
            }
        }
    }
}

/// Where the scan stops is where the first line feed sits.
proof fn lemma_first_nl_at(s: Seq<u8>, i: int)
    requires
        0 <= i <= s.len(),
        forall|k: int| 0 <= k < i ==> s[k] != 10,
        i < s.len() ==> s[i] == 10,
    ensures
        first_nl(s) == i,
    decreases i,
{
    if i > 0 {
        lemma_first_nl_at(s.drop_first(), i - 1);
    }
}

/// The lines of a text, split at line feeds, each without a trailing
/// carriage return; text after the last line feed forms a final line, and
/// nothing does when the text ends at one.
pub open spec fn lines_of(s: Seq<u8>) -> Seq<Seq<u8>>
    decreases s.len(),
    via lines_of_decreases
{
    if s.len() == 0 {
        Seq::empty()
    } else {
        let i = first_nl(s);
        if i == s.len() {
            seq![strip_cr(s)]
        } else {
            seq![strip_cr(s.take(i))] + lines_of(s.skip(i + 1))
        }
    }
}

#[via_fn]
proof fn lines_of_decreases(s: Seq<u8>) {
    lemma_first_nl_bounds(s);
}

/// The first `i` lines, numbered from one and padded to four columns.
pub open spec fn numbered_upto(ls: Seq<Seq<u8>>, i: int) -> Seq<u8>
    decreases i,
{
    if i <= 0 {
        Seq::empty()
    } else {
        numbered_upto(ls, i - 1) + pad4(i as nat) + " | ".spec_bytes() + ls[i - 1]
            + "\n".spec_bytes()
    }
}

/// The body printed for one file's contents: a placeholder for an
/// all-whitespace file, else the text, numbered when asked, and always
/// ending in a line feed; or the read error's message.
pub open spec fn content_body(c: Result<Vec<u8>, Vec<u8>>, ln: bool) -> Seq<u8> {
    match c {
        Ok(d) => if all_ws(d@) {
            "(empty file)\n".spec_bytes()
        } else if ln {
            numbered_upto(lines_of(d@), lines_of(d@).len() as int)
        } else {
            d@ + (if d@[d@.len() - 1] == 10 {
                Seq::<u8>::empty()
            } else {
                "\n".spec_bytes()
            })
        },
        Err(m) => "Error reading file: ".spec_bytes() + m@ + "\n".spec_bytes(),
    }
}

/// The first `i` components of a path joined with slashes.
pub open spec fn joined_upto(q: Seq<Seq<u8>>, i: int) -> Seq<u8>
    decreases i,
{
    if i <= 0 {
        Seq::empty()
    } else if i == 1 {
        q[0]
    } else {
        joined_upto(q, i - 1) + seq![47u8] + q[i - 1]
    }
}

/// One file's block in the contents section.
pub open spec fn file_block(f: ExportFile, first: bool, ln: bool) -> Seq<u8> {
    (if first {
        Seq::<u8>::empty()
    } else {
        "\n".spec_bytes()
    }) + light_sep() + "\n".spec_bytes() + "File: ".spec_bytes() + joined_upto(
        f.path.deep_view(),
        f.path.deep_view().len() as int,
    ) + "\n".spec_bytes() + light_sep() + "\n\n".spec_bytes() + content_body(f.content, ln)
}

/// The first `i` file blocks.
pub open spec fn blocks_upto(fs: Seq<ExportFile>, i: int, ln: bool) -> Seq<u8>
    decreases i,
{
    if i <= 0 {
        Seq::empty()
    } else {
        blocks_upto(fs, i - 1, ln) + file_block(fs[i - 1], i == 1, ln)
    }
}

/// The file-contents section: its rule-framed heading, then the blocks of
/// the files in path order.
pub open spec fn contents_text(fs_sorted: Seq<ExportFile>, ln: bool) -> Seq<u8> {
    heavy_sep() + "\n".spec_bytes() + "## FILE CONTENTS\n".spec_bytes() + heavy_sep()
        + "\n\n".spec_bytes() + blocks_upto(fs_sorted, fs_sorted.len() as int, ln)
}

/// The paths of the files handed in, in their given order.
pub open spec fn paths_of(fs: Seq<ExportFile>) -> Seq<Seq<Seq<u8>>> {
    Seq::new(fs.len(), |i: int| fs[i].path.deep_view())
}

/// The whole artifact: the header, then the tree and contents sections as
/// the configuration asks.
pub open spec fn output_text(
    base_display: Seq<u8>,
    base_name: Seq<u8>,
    files: Seq<ExportFile>,
    ts: Seq<u8>,
    with_tree: bool,
    with_contents: bool,
    ln: bool,
) -> Seq<u8> {
    header_text(base_display, ts, files.len()) + (if with_tree {
        tree_text(base_name, paths_of(files))
    } else {
        Seq::<u8>::empty()
    }) + (if with_contents {
        contents_text(sort_files(files), ln)
    } else {
        Seq::<u8>::empty()
    })
}

/// Appends `n` spaces.
fn push_spaces(out: &mut Vec<u8>, n: usize)
    ensures
        final(out)@ == old(out)@ + spaces(n as nat),
{
    let mut i: usize = 0;
    proof {
        assert(out@ =~= old(out)@ + spaces(0));
    }
    while i < n
        invariant
            i <= n,
            out@ == old(out)@ + spaces(i as nat),
        decreases n - i,
    {
        out.push(32);
        assert(out@ =~= old(out)@ + spaces((i + 1) as nat));
        i = i + 1;
    }
}

/// Appends the four-column line number.
fn push_pad4(out: &mut Vec<u8>, n: usize)
    ensures
        final(out)@ == old(out)@ + pad4(n as nat),
{
    proof {
        lemma_dec_len(n as nat);
    }
    if n < 10 {
        push_spaces(out, 3);
    } else if n < 100 {
        push_spaces(out, 2);
    } else if n < 1000 {
        push_spaces(out, 1);
    } else {
        push_spaces(out, 0);
    }
    push_decimal(out, n);
    proof {
        assert(out@ =~= old(out)@ + pad4(n as nat));
    }
}

/// Appends one line of a text vector to a vector of lines.
fn push_line(r: &mut Vec<Vec<u8>>, line: Vec<u8>)
    ensures
        final(r).deep_view() == old(r).deep_view().push(line@),
{
    let ghost prevv = r@;
    let ghost prevd = r.deep_view();
    let ghost ld = line@;
    r.push(line);
    proof {
        let nd = r.deep_view();
        let t = prevd.push(ld);
        assert(prevd.len() == prevv.len());
        assert(nd.len() == t.len());
        assert forall|k: int| 0 <= k < nd.len() implies nd[k] == t[k] by {
            assert(nd[k] == r@[k].deep_view());
            if k < prevv.len() {
                assert(r@[k] == prevv[k]);
                assert(prevd[k] == r@[k].deep_view());
            } else {
                assert(r@[k].deep_view() =~= ld);
            }
        }
        assert(nd =~= t);
    }
}

/// Splits a text into its lines, as `lines_of` says.
fn split_lines(d: &Vec<u8>) -> (r: Vec<Vec<u8>>)
    ensures
        r.deep_view() == lines_of(d@),
{
    let mut r: Vec<Vec<u8>> = Vec::new();
    let mut pos: usize = 0;
    proof {
        assert(d@.skip(0) =~= d@);
        assert(r.deep_view() =~= Seq::<Seq<u8>>::empty());
    }
    while pos < d.len()
        invariant
            pos <= d.len(),
            lines_of(d@) == r.deep_view() + lines_of(d@.skip(pos as int)),
        decreases d.len() - pos,
    {
        let ghost s = d@.skip(pos as int);
        let mut e: usize = pos;
        while e < d.len() && d[e] != 10
            invariant
                pos <= e <= d.len(),
                forall|k: int| pos <= k < e ==> d@[k] != 10,
            decreases d.len() - e,
        {
            e = e + 1;
        }
        proof {
            assert forall|k: int| 0 <= k < e - pos implies s[k] != 10 by {
                assert(s[k] == d@[pos + k]);
            }
            if e < d.len() {
                assert(s[e - pos] == d@[e as int]);
            }
            lemma_first_nl_at(s, e - pos as int);
        }
        let endx = if e > pos && d[e - 1] == 13 {
            e - 1
        } else {
            e
        };
        let mut line: Vec<u8> = Vec::new();
        let mut k: usize = pos;
        proof {
            assert(line@ =~= d@.subrange(pos as int, pos as int));
        }
        while k < endx
            invariant
                pos <= k <= endx,
                endx <= d.len(),
                line@ == d@.subrange(pos as int, k as int),
            decreases endx - k,
        {
            line.push(d[k]);
            assert(line@ =~= d@.subrange(pos as int, k as int + 1));
            k = k + 1;
        }
        proof {
            if e == d.len() {
                assert(s =~= d@.subrange(pos as int, e as int));
                assert(line@ =~= strip_cr(s));
                assert(lines_of(s) == seq![strip_cr(s)]);
            } else {
                assert(s.take(e - pos as int) =~= d@.subrange(pos as int, e as int));
                assert(line@ =~= strip_cr(s.take(e - pos as int)));
                assert(lines_of(s) == seq![strip_cr(s.take(e - pos as int))] + lines_of(
                    s.skip(e - pos as int + 1),
                ));
                assert(s.skip(e - pos as int + 1) =~= d@.skip(e as int + 1));
            }
        }
        let ghost prevlines = r.deep_view();
        push_line(&mut r, line);
        proof {
            if e == d.len() {
                assert(r.deep_view() =~= prevlines + lines_of(s));
                assert(d@.skip(d@.len() as int) =~= Seq::<u8>::empty());
                assert(lines_of(d@) =~= r.deep_view() + lines_of(d@.skip(d@.len() as int)));
            } else {
                assert(prevlines.push(line@) =~= prevlines + seq![strip_cr(
                    s.take(e - pos as int),
                )]);
                assert(lines_of(d@) =~= r.deep_view() + lines_of(d@.skip(e as int + 1)));
            }
        }
        pos = if e < d.len() {
            e + 1
        } else {
            e
        };
    }
    proof {
        assert(d@.skip(pos as int).len() == 0);
        assert(lines_of(d@.skip(pos as int)) == Seq::<Seq<u8>>::empty());
        assert(lines_of(d@) =~= r.deep_view());
    }
    r
}

/// Is the text nothing but whitespace?
fn all_ws_exec(d: &Vec<u8>) -> (r: bool)
    ensures
        r == all_ws(d@),
{
    let mut i: usize = 0;
    while i < d.len()
        invariant
            i <= d.len(),
            forall|k: int| 0 <= k < i ==> is_ws_byte(#[trigger] d@[k]),
        decreases d.len() - i,
    {
        let b = d[i];
        if !(b == 32 || b == 9 || b == 10 || b == 13 || b == 11 || b == 12) {
            assert(!is_ws_byte(d@[i as int]));
            return false;
        }
        i = i + 1;
    }
    true
}

/// Appends a path joined with slashes.
fn push_joined(out: &mut Vec<u8>, q: &Vec<Vec<u8>>)
    ensures
        final(out)@ == old(out)@ + joined_upto(q.deep_view(), q.deep_view().len() as int),
{
    let mut i: usize = 0;
    proof {
        assert(out@ =~= old(out)@ + joined_upto(q.deep_view(), 0));
    }
    while i < q.len()
        invariant
            i <= q.len(),
            out@ == old(out)@ + joined_upto(q.deep_view(), i as int),
        decreases q.len() - i,
    {
        if i > 0 {
            out.push(47);
        }
        push_bytes(out, &q[i]);
        proof {
            assert(q@[i as int]@ =~= q.deep_view()[i as int]);
            if i == 0 {
                assert(out@ =~= old(out)@ + joined_upto(q.deep_view(), 1));
            } else {
                assert(out@ =~= old(out)@ + joined_upto(q.deep_view(), i as int + 1));
            }
        }
        i = i + 1;
    }
}

/// Appends the body printed for one file's contents.
fn push_content_body(out: &mut Vec<u8>, content: &Result<Vec<u8>, Vec<u8>>, line_numbers: bool)
    ensures
        final(out)@ == old(out)@ + content_body(*content, line_numbers),
{
    match content {
        Ok(d) => {
            if all_ws_exec(d) {
                push_str_bytes(out, "(empty file)\n");
            } else if line_numbers {
                let ls = split_lines(d);
                let ghost lsd = lines_of(d@);
                let mut i: usize = 0;
                proof {
                    assert(out@ =~= old(out)@ + numbered_upto(lsd, 0));
                }
                while i < ls.len()
                    invariant
                        i <= ls.len(),
                        ls.deep_view() == lsd,
                        out@ == old(out)@ + numbered_upto(lsd, i as int),
                    decreases ls.len() - i,
                {
                    push_pad4(out, i + 1);
                    push_str_bytes(out, " | ");
                    push_bytes(out, &ls[i]);
                    push_str_bytes(out, "\n");
                    proof {
                        assert(ls@[i as int]@ =~= lsd[i as int]);
                        assert(out@ =~= old(out)@ + numbered_upto(lsd, i as int + 1));
                    }
                    i = i + 1;
                }
                proof {
                    assert(out@ =~= old(out)@ + content_body(*content, line_numbers));
                }
            } else {
                push_bytes(out, d);
                assert(d@.len() > 0) by {
                    if d@.len() == 0 {
                        assert(all_ws(d@));
                    }
                }
                if d[d.len() - 1] != 10 {
                    push_str_bytes(out, "\n");
                }
                proof {
                    assert(out@ =~= old(out)@ + content_body(*content, line_numbers));
                }
            }
        },
        Err(m) => {
            push_str_bytes(out, "Error reading file: ");
            push_bytes(out, m);
            push_str_bytes(out, "\n");
            proof {
                assert(out@ =~= old(out)@ + content_body(*content, line_numbers));
            }
        },
    }
}

/// Characterizes where `insert_file` places the new file.
proof fn lemma_insert_file_at(f: ExportFile, s: Seq<ExportFile>, j: int)
    requires
        0 <= j <= s.len(),
        forall|t: int| 0 <= t < j ==> !file_le(f, #[trigger] s[t]),
        j < s.len() ==> file_le(f, s[j]),
    ensures
        insert_file(f, s) == s.take(j).push(f) + s.skip(j),
    decreases j,
{
    if s.len() == 0 {
        assert(insert_file(f, s) =~= s.take(j).push(f) + s.skip(j));
    } else if j == 0 {
        assert(insert_file(f, s) == seq![f] + s);
        assert(insert_file(f, s) =~= s.take(0).push(f) + s.skip(0));
    } else {
        assert(!file_le(f, s[0]));
        lemma_insert_file_at(f, s.drop_first(), j - 1);
        assert(insert_file(f, s) == seq![s[0]] + insert_file(f, s.drop_first()));
        assert(insert_file(f, s) =~= s.take(j).push(f) + s.skip(j));
    }
}

/// Inserts an export file into an ordered vector, mirroring
/// `insert_file`.
fn insert_file_exec(acc: &mut Vec<ExportFile>, f: ExportFile)
    ensures
        final(acc)@ == insert_file(f, old(acc)@),
{
    let mut j: usize = 0;
    while j < acc.len() && !path_le_exec(&f.path, &acc[j].path)
        invariant
            j <= acc.len(),
            acc == old(acc),
            forall|t: int| 0 <= t < j ==> !file_le(f, #[trigger] acc@[t]),
        decreases acc.len() - j,
    {
        j = j + 1;
    }
    let ghost oldv = acc@;
    let ghost gj = j as int;
    acc.insert(j, f);
    proof {
        lemma_insert_file_at(f, oldv, gj);
        assert(acc@ =~= oldv.take(gj).push(f) + oldv.skip(gj));
    }
}

/// Sorts the export files by path, mirroring `sort_files`.
fn sort_files_exec(files: Vec<ExportFile>) -> (r: Vec<ExportFile>)
    ensures
        r@ == sort_files(files@),
{
    let ghost orig = files@;
    let mut files = files;
    let mut r: Vec<ExportFile> = Vec::new();
    proof {
        assert(files@.skip(files@.len() as int) =~= Seq::<ExportFile>::empty());
        assert(r@ =~= sort_files(orig.skip(orig.len() as int)));
    }
    while files.len() > 0
        invariant
            files@.len() <= orig.len(),
            files@ == orig.take(files@.len() as int),
            r@ == sort_files(orig.skip(files@.len() as int)),
        decreases files.len(),
    {
        let ghost n = files@.len() as int;
        let ghost k = n - 1;
        let f = files.pop().unwrap();
        proof {
            assert(orig.take(n)[k] == orig[k]);
            assert(f == orig[k]);
            assert(files@ =~= orig.take(k));
            let tail = orig.skip(k);
            assert(tail[0] == orig[k]);
            assert(tail.drop_first() =~= orig.skip(k + 1));
            assert(sort_files(tail) == insert_file(orig[k], sort_files(orig.skip(k + 1))));
        }
        insert_file_exec(&mut r, f);
    }
    proof {
        assert(orig.skip(0) =~= orig);
    }
    r
}

/// Relies on chrono's `Utc::now` and `DateTime::format` for the header
/// timestamp; nothing is assumed of the clock's value.
#[verifier::external_body]
fn current_timestamp() -> (r: Vec<u8>)
{
    chrono::Utc::now().format("%Y-%m-%d %H:%M:%S UTC").to_string().into_bytes()
}

/// The export generator.
pub struct OutputGenerator {}

impl OutputGenerator {
    /// A generator with the built-in formatting.
    pub fn new() -> (r: OutputGenerator) {
        OutputGenerator {}
    }

    /// Renders the directory-structure section for the selected paths:
    /// the base directory's name, then one ordered line for each selected
    /// file and each ancestor directory.
    pub fn generate_tree(&self, base_name: &Vec<u8>, selected: &Vec<Vec<Vec<u8>>>) -> (r: Vec<
        u8,
    >)
        ensures
            r@ == tree_text(base_name@, selected.deep_view()),
    {
        let ghost sel = selected.deep_view();
        // collect the selected paths and their ancestors, ordered
        let mut qs: Vec<Vec<Vec<u8>>> = Vec::new();
        proof {
            assert(qs.deep_view() =~= tree_paths_upto(sel, 0));
        }
        let mut i: usize = 0;
        while i < selected.len()
            invariant
                i <= selected.len(),
                sel == selected.deep_view(),
                qs.deep_view() == tree_paths_upto(sel, i as int),
            decreases selected.len() - i,
        {
            let p = &selected[i];
            proof {
                assert(p.deep_view() == sel[i as int]);
            }
            let mut prefix: Vec<Vec<u8>> = Vec::new();
            let mut m: usize = 0;
            proof {
                assert(prefix.deep_view() =~= sel[i as int].take(0));
            }
            while m < p.len()
                invariant
                    m <= p.len(),
                    sel == selected.deep_view(),
                    p == selected@[i as int],
                    i < selected.len(),
                    p.deep_view() == sel[i as int],
                    prefix.deep_view() == sel[i as int].take(m as int),
                    add_prefixes(sel[i as int], 1, tree_paths_upto(sel, i as int)) == add_prefixes(
                        sel[i as int],
                        m as int + 1,
                        qs.deep_view(),
                    ),
                decreases p.len() - m,
            {
                let c = clone_bytes(&p[m]);
                proof {
                    assert(c.deep_view() =~= p@[m as int].deep_view());
                }
                let ghost prevv = prefix@;
                let ghost prevd = prefix.deep_view();
                prefix.push(c);
                proof {
                    let nd = prefix.deep_view();
                    let t = sel[i as int].take(m as int + 1);
                    assert(prevd.len() == m as int);
                    assert(prevv.len() == m as int);
                    assert(nd.len() == t.len());
                    assert forall|k: int| 0 <= k < nd.len() implies nd[k] == t[k] by {
                        assert(nd[k] == prefix@[k].deep_view());
                        if k < m as int {
                            assert(prefix@[k] == prevv[k]);
                            assert(prevd[k] == prefix@[k].deep_view());
                            assert(prevd[k] == sel[i as int].take(m as int)[k]);
                        } else {
                            assert(prefix@[k] == c);
                            assert(nd[k] == c.deep_view());
                        }
                    }
                    assert(nd =~= t);
                }
                let ghost qprev = qs.deep_view();
                insert_path_exec(&mut qs, &prefix);
                proof {
                    assert(qs.deep_view() == insert_path_sorted(
                        sel[i as int].take(m as int + 1),
                        qprev,
                    ));
                    assert(add_prefixes(sel[i as int], m as int + 1, qprev) == add_prefixes(
                        sel[i as int],
                        m as int + 2,
                        insert_path_sorted(sel[i as int].take(m as int + 1), qprev),
                    ));
                }
                m = m + 1;
            }
            proof {
                assert(add_prefixes(sel[i as int], p.len() as int + 1, qs.deep_view())
                    == qs.deep_view());
                assert(tree_paths_upto(sel, i as int + 1) == add_prefixes(
                    sel[i as int],
                    1,
                    tree_paths_upto(sel, i as int),
                ));
            }
            i = i + 1;
        }
        proof {
            assert(qs.deep_view() == tree_paths(sel));
        }
        // render the lines
        let mut out: Vec<u8> = Vec::new();
        push_bytes(&mut out, base_name);
        push_str_bytes(&mut out, "/\n");
        let ghost head = base_name@ + "/\n".spec_bytes();
        let ghost qd = qs.deep_view();
        proof {
            assert(out@ =~= head + tree_lines_upto(qd, sel, 0));
        }
        let mut t: usize = 0;
        while t < qs.len()
            invariant
                t <= qs.len(),
                sel == selected.deep_view(),
                qd == qs.deep_view(),
                head == base_name@ + "/\n".spec_bytes(),
                out@ == head + tree_lines_upto(qd, sel, t as int),
            decreases qs.len() - t,
        {
            let q = &qs[t];
            proof {
                assert(q.deep_view() == qd[t as int]);
            }
            push_indent(&mut out, q.len());
            push_branch_glyph(&mut out);
            if q.len() > 0 {
                push_bytes(&mut out, &q[q.len() - 1]);
                proof {
                    assert(q@[q.len() - 1]@ =~= qd[t as int][qd[t as int].len() - 1]);
                }
            }
            if list_contains_path(selected, q) {
                push_check_suffix(&mut out);
            } else {
                push_dir_suffix(&mut out);
            }
            proof {
                assert(out@ =~= head + tree_lines_upto(qd, sel, t as int + 1));
            }
            t = t + 1;
        }
        push_str_bytes(&mut out, "\n");
        proof {
            assert(out@ =~= tree_text(base_name@, sel));
        }
        out
    }

    /// Renders the whole artifact for a given timestamp: deterministic in
    /// all of its inputs.
    #[verifier::rlimit(60)]
    pub fn render_output(
        &self,
        base_display: &Vec<u8>,
        base_name: &Vec<u8>,
        files: Vec<ExportFile>,
        timestamp: &Vec<u8>,
        config: &OutputFormat,
    ) -> (out: Vec<u8>)
        ensures
            out@ == output_text(
                base_display@,
                base_name@,
                files@,
                timestamp@,
                config.include_tree,
                config.include_file_contents,
                config.include_line_numbers,
            ),
    {
        let ghost fv = files@;
        let mut out: Vec<u8> = Vec::new();
        push_str_bytes(&mut out, "# Codebase Export\n");
        push_str_bytes(&mut out, "Generated on: ");
        push_bytes(&mut out, timestamp);
        push_str_bytes(&mut out, "\n");
        push_str_bytes(&mut out, "Base directory: ");
        push_bytes(&mut out, base_display);
        push_str_bytes(&mut out, "\n");
        push_str_bytes(&mut out, "Total files: ");
        push_decimal(&mut out, files.len());
        push_str_bytes(&mut out, "\n\n");
        push_rep3(&mut out, 0xE2, 0x95, 0x90, 80);
        push_str_bytes(&mut out, "\n");
        push_str_bytes(&mut out, "## DIRECTORY STRUCTURE\n");
        push_rep3(&mut out, 0xE2, 0x95, 0x90, 80);
        push_str_bytes(&mut out, "\n\n");
        proof {
            assert(out@ =~= header_text(base_display@, timestamp@, fv.len()));
        }
        let ghost hdr = out@;
        if config.include_tree {
            let mut sel_paths: Vec<Vec<Vec<u8>>> = Vec::new();
            let mut i: usize = 0;
            proof {
                assert(sel_paths.deep_view() =~= paths_of(fv).take(0));
            }
            while i < files.len()
                invariant
                    i <= files.len(),
                    fv == files@,
                    sel_paths.deep_view() == paths_of(fv).take(i as int),
                decreases files.len() - i,
            {
                let p = clone_path(&files[i].path);
                crate::fs_tree::push_path(&mut sel_paths, p);
                proof {
                    assert(sel_paths.deep_view() =~= paths_of(fv).take(i as int + 1));
                }
                i = i + 1;
            }
            proof {
                assert(paths_of(fv).take(fv.len() as int) =~= paths_of(fv));
            }
            let tree = self.generate_tree(base_name, &sel_paths);
            push_bytes(&mut out, &tree);
        }
        let ghost mid = out@;
        proof {
            if config.include_tree {
                assert(mid == hdr + tree_text(base_name@, paths_of(fv)));
            } else {
                assert(mid =~= hdr + Seq::<u8>::empty());
            }
        }
        if config.include_file_contents {
            let sorted = sort_files_exec(files);
            let ghost sd = sorted@;
            push_rep3(&mut out, 0xE2, 0x95, 0x90, 80);
            push_str_bytes(&mut out, "\n");
            push_str_bytes(&mut out, "## FILE CONTENTS\n");
            push_rep3(&mut out, 0xE2, 0x95, 0x90, 80);
            push_str_bytes(&mut out, "\n\n");
            let ghost chead = mid + heavy_sep() + "\n".spec_bytes()
                + "## FILE CONTENTS\n".spec_bytes() + heavy_sep() + "\n\n".spec_bytes();
            proof {
                assert(out@ =~= chead + blocks_upto(sd, 0, config.include_line_numbers));
            }
            let mut i: usize = 0;
            while i < sorted.len()
                invariant
                    i <= sorted.len(),
                    sd == sorted@,
                    out@ == chead + blocks_upto(sd, i as int, config.include_line_numbers),
                decreases sorted.len() - i,
            {
                if i > 0 {
                    push_str_bytes(&mut out, "\n");
                }
                push_rep3(&mut out, 0xE2, 0x94, 0x80, 60);
                push_str_bytes(&mut out, "\n");
                push_str_bytes(&mut out, "File: ");
                push_joined(&mut out, &sorted[i].path);
                push_str_bytes(&mut out, "\n");
                push_rep3(&mut out, 0xE2, 0x94, 0x80, 60);
                push_str_bytes(&mut out, "\n\n");
                push_content_body(&mut out, &sorted[i].content, config.include_line_numbers);
                proof {
                    assert(out@ =~= chead + blocks_upto(
                        sd,
                        i as int + 1,
                        config.include_line_numbers,
                    ));
                }
                i = i + 1;
            }
            proof {
                assert(out@ =~= output_text(
                    base_display@,
                    base_name@,
                    fv,
                    timestamp@,
                    config.include_tree,
                    config.include_file_contents,
                    config.include_line_numbers,
                ));
            }
        } else {
            proof {
                assert(out@ =~= output_text(
                    base_display@,
                    base_name@,
                    fv,
                    timestamp@,
                    config.include_tree,
                    config.include_file_contents,
                    config.include_line_numbers,
                ));
            }
        }
        out
    }

    /// Generates the artifact with the given configuration, stamping the
    /// header with the clock: for every timestamp the clock may give, the
    /// result is the rendering under that timestamp.
    pub fn generate_with_config(
        &self,
        base_display: &Vec<u8>,
        base_name: &Vec<u8>,
        files: Vec<ExportFile>,
        config: &OutputFormat,
    ) -> (out: Vec<u8>)
        ensures
            exists|ts: Seq<u8>|
                out@ == output_text(
                    base_display@,
                    base_name@,
                    files@,
                    ts,
                    config.include_tree,
                    config.include_file_contents,
                    config.include_line_numbers,
                ),
    {
        let ts = current_timestamp();
        let out = self.render_output(base_display, base_name, files, &ts, config);
        proof {
            assert(out@ == output_text(
                base_display@,
                base_name@,
                files@,
                ts@,
                config.include_tree,
                config.include_file_contents,
                config.include_line_numbers,
            ));
        }
        out
    }

    /// Generates the artifact with the built-in formatting: tree and
    /// contents included, no line numbers.
    pub fn generate(
        &self,
        base_display: &Vec<u8>,
        base_name: &Vec<u8>,
        files: Vec<ExportFile>,
    ) -> (out: Vec<u8>)
        ensures
            exists|ts: Seq<u8>|
                out@ == output_text(base_display@, base_name@, files@, ts, true, true, false),
    {
        let config = OutputFormat::default();
        self.generate_with_config(base_display, base_name, files, &config)
    }
}

impl Default for OutputGenerator {
    /// The same as a fresh generator.
    fn default() -> (r: OutputGenerator) {
        OutputGenerator::new()
    }
}

} // verus!
