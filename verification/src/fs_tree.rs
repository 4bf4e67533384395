//! The tree model: an in-memory snapshot of a directory tree and the pure
//! projection of that snapshot into the flattened list of visible rows.
//!
//! A snapshot is a vector of entries (the children of the base directory);
//! each entry carries its base name as bytes and, for a directory, its own
//! children.  Materialization walks the snapshot depth-first: per directory
//! the entries are filtered by the hidden-file flag, sorted directories-first
//! and then by name, and a row is emitted for each; the children of a
//! directory follow directly beneath it exactly when its path is in the
//! expanded set.

use vstd::prelude::*;
use crate::bytes::{bytes_le, bytes_eq, clone_bytes, lex_le};
use crate::paths::{PathSet, clone_path};

verus! {

/// One node of a snapshot: a plain file, or a directory with its children.
#[derive(Debug)]
pub enum FsNode {
    File,
    Dir { children: Vec<FsEntry> },
}

/// One named entry of a snapshot.
#[derive(Debug)]
pub struct FsEntry {
    /// Base name of the entry, as the bytes of the file name.
    pub name: Vec<u8>,
    /// What the entry is.
    pub node: FsNode,
}

/// Height of a forest of entries: zero for no entries or only files, and one
/// more than the tallest child forest otherwise.  Bounds the recursion of
/// every walk over a snapshot.
pub open spec fn children_height(cs: Seq<FsEntry>) -> nat
    decreases cs,
{
    if cs.len() == 0 {
        0
    } else {
        let h0 = match cs[0].node {
            FsNode::File => 0nat,
            FsNode::Dir { children } => 1nat + children_height(children@),
        };
        let hr = children_height(cs.drop_first());
        if h0 > hr {
            h0
        } else {
            hr
        }
    }
}

/// Height of a single entry.
pub open spec fn entry_height(e: FsEntry) -> nat {
    match e.node {
        FsNode::File => 0nat,
        FsNode::Dir { children } => 1nat + children_height(children@),
    }
}

/// An entry is hidden when its name starts with a dot.
pub open spec fn spec_hidden(name: Seq<u8>) -> bool {
    name.len() > 0 && name[0] == 46u8
}

/// Whether the entry is a directory.
pub open spec fn entry_is_dir(e: FsEntry) -> bool {
    e.node is Dir
}

/// Display order of two sibling entries: directories before files, and
/// within each group lexicographically by name.
pub open spec fn entry_le(a: FsEntry, b: FsEntry) -> bool {
    if entry_is_dir(a) != entry_is_dir(b) {
        entry_is_dir(a)
    } else {
        lex_le(a.name@, b.name@)
    }
}

/// The entries of `cs` that pass the hidden-file filter, in their original
/// order.
pub open spec fn visible_entries(cs: Seq<FsEntry>, show_hidden: bool) -> Seq<FsEntry>
    decreases cs.len(),
{
    if cs.len() == 0 {
        Seq::empty()
    } else {
        let rest = visible_entries(cs.drop_first(), show_hidden);
        if show_hidden || !spec_hidden(cs[0].name@) {
            seq![cs[0]] + rest
        } else {
            rest
        }
    }
}

/// Inserts `e` into `s` in front of the first element it sorts at or before.
pub open spec fn insert_sorted(e: FsEntry, s: Seq<FsEntry>) -> Seq<FsEntry>
    decreases s.len(),
{
    if s.len() == 0 {
        seq![e]
    } else if entry_le(e, s[0]) {
        seq![e] + s
    } else {
        seq![s[0]] + insert_sorted(e, s.drop_first())
    }
}

/// Insertion sort of sibling entries by `entry_le`.
pub open spec fn sort_entries(s: Seq<FsEntry>) -> Seq<FsEntry>
    decreases s.len(),
{
    if s.len() == 0 {
        s
    } else {
        insert_sorted(s[0], sort_entries(s.drop_first()))
    }
}

/// Everything in a filtered forest comes from the original forest.
proof fn lemma_visible_contains(cs: Seq<FsEntry>, show_hidden: bool)
    ensures
        forall|x: FsEntry| visible_entries(cs, show_hidden).contains(x) ==> cs.contains(x),
    decreases cs.len(),
{
    if cs.len() > 0 {
        lemma_visible_contains(cs.drop_first(), show_hidden);
        let v = visible_entries(cs, show_hidden);
        let rest = visible_entries(cs.drop_first(), show_hidden);
        assert forall|x: FsEntry| v.contains(x) implies cs.contains(x) by {
            let i = choose|i: int| 0 <= i < v.len() && v[i] == x;
            if show_hidden || !spec_hidden(cs[0].name@) {
                assert(v == seq![cs[0]] + rest);
                if i == 0 {
                    assert(v[0] == cs[0]);
                } else {
                    assert(v[i] == rest[i - 1]);
                    assert(rest.contains(x)) by {
                        assert(rest[i - 1] == x);
                    }
                }
            } else {
                assert(v == rest);
                assert(rest.contains(x)) by {
                    assert(rest[i] == x);
                }
            }
            if rest.contains(x) {
                assert(cs.drop_first().contains(x));
                let j = choose|j: int| 0 <= j < cs.drop_first().len() && cs.drop_first()[j] == x;
                assert(cs.drop_first()[j] == cs[j + 1]);
                assert(cs.contains(x)) by {
                    assert(cs[j + 1] == x);
                }
            }
        }
    }
}

/// Everything in `insert_sorted(e, s)` is `e` or comes from `s`.
proof fn lemma_insert_sorted_contains(e: FsEntry, s: Seq<FsEntry>)
    ensures
        forall|x: FsEntry| insert_sorted(e, s).contains(x) ==> x == e || s.contains(x),
        insert_sorted(e, s).len() == s.len() + 1,
    decreases s.len(),
{
    if s.len() == 0 {
    } else if entry_le(e, s[0]) {
        let r = insert_sorted(e, s);
        assert(r == seq![e] + s);
        assert forall|x: FsEntry| r.contains(x) implies x == e || s.contains(x) by {
            let i = choose|i: int| 0 <= i < r.len() && r[i] == x;
            if i == 0 {
                assert(r[0] == e);
            } else {
                assert(r[i] == s[i - 1]);
                assert(s.contains(x)) by {
                    assert(s[i - 1] == x);
                }
            }
        }
    } else {
        lemma_insert_sorted_contains(e, s.drop_first());
        let r = insert_sorted(e, s);
        let rr = insert_sorted(e, s.drop_first());
        assert(r == seq![s[0]] + rr);
        assert forall|x: FsEntry| r.contains(x) implies x == e || s.contains(x) by {
            let i = choose|i: int| 0 <= i < r.len() && r[i] == x;
            if i == 0 {
                assert(r[0] == s[0]);
                assert(s.contains(x)) by {
                    assert(s[0] == x);
                }
            } else {
                assert(r[i] == rr[i - 1]);
                assert(rr.contains(x)) by {
                    assert(rr[i - 1] == x);
                }
                if x != e {
                    assert(s.drop_first().contains(x));
                    let j = choose|j: int|
                        0 <= j < s.drop_first().len() && s.drop_first()[j] == x;
                    assert(s.contains(x)) by {
                        assert(s[j + 1] == x);
                    }
                }
            }
        }
    }
}

/// Everything in a sorted forest comes from the original forest, and sorting
/// keeps the number of entries.
proof fn lemma_sort_entries_contains(s: Seq<FsEntry>)
    ensures
        forall|x: FsEntry| sort_entries(s).contains(x) ==> s.contains(x),
        sort_entries(s).len() == s.len(),
    decreases s.len(),
{
    if s.len() > 0 {
        lemma_sort_entries_contains(s.drop_first());
        lemma_insert_sorted_contains(s[0], sort_entries(s.drop_first()));
        assert forall|x: FsEntry| sort_entries(s).contains(x) implies s.contains(x) by {
            if sort_entries(s).contains(x) {
                if x == s[0] {
                    assert(s.contains(x));
                } else {
                    assert(sort_entries(s.drop_first()).contains(x));
                    assert(s.drop_first().contains(x));
                    let j = choose|j: int| 0 <= j < s.drop_first().len() && s.drop_first()[j] == x;
                    assert(s[j + 1] == x);
                }
            }
        }
    }
}

/// The height of a forest bounds the height of each of its entries.
proof fn lemma_children_height_elem(cs: Seq<FsEntry>, i: int)
    requires
        0 <= i < cs.len(),
    ensures
        entry_height(cs[i]) <= children_height(cs),
    decreases cs.len(),
{
    if i == 0 {
    } else {
        lemma_children_height_elem(cs.drop_first(), i - 1);
        assert(cs.drop_first()[i - 1] == cs[i]);
    }
}

/// A forest of entries no taller than `b` is itself no taller than `b`.
proof fn lemma_children_height_bound(cs: Seq<FsEntry>, b: nat)
    requires
        forall|i: int| 0 <= i < cs.len() ==> entry_height(#[trigger] cs[i]) <= b,
    ensures
        children_height(cs) <= b,
    decreases cs.len(),
{
    if cs.len() > 0 {
        assert(entry_height(cs[0]) <= b);
        assert(forall|i: int|
            0 <= i < cs.drop_first().len() ==> entry_height(#[trigger] cs.drop_first()[i]) <= b);
        lemma_children_height_bound(cs.drop_first(), b);
    }
}

/// Dropping the first entry cannot increase the height of a forest.
proof fn lemma_children_height_drop_first(cs: Seq<FsEntry>)
    requires
        cs.len() > 0,
    ensures
        children_height(cs.drop_first()) <= children_height(cs),
{
}

/// Filtering and sorting the siblings of a directory cannot increase the
/// height of the forest.
proof fn lemma_sorted_visible_height(cs: Seq<FsEntry>, show_hidden: bool)
    ensures
        children_height(sort_entries(visible_entries(cs, show_hidden))) <= children_height(cs),
{
    let v = visible_entries(cs, show_hidden);
    let sv = sort_entries(v);
    lemma_visible_contains(cs, show_hidden);
    lemma_sort_entries_contains(v);
    assert forall|i: int| 0 <= i < sv.len() implies entry_height(#[trigger] sv[i])
        <= children_height(cs) by {
        assert(sv.contains(sv[i]));
        assert(cs.contains(sv[i]));
        let j = choose|j: int| 0 <= j < cs.len() && cs[j] == sv[i];
        lemma_children_height_elem(cs, j);
    }
    lemma_children_height_bound(sv, children_height(cs));
}

/// A directory entry's child forest is strictly lower than any forest the
/// entry belongs to.
proof fn lemma_dir_child_height(cs: Seq<FsEntry>, i: int, children: Seq<FsEntry>)
    requires
        0 <= i < cs.len(),
        cs[i].node matches FsNode::Dir { children: c } && c@ == children,
    ensures
        children_height(children) < children_height(cs),
{
    lemma_children_height_elem(cs, i);
}

/// One row of the flattened projection, at the specification level: the
/// path is the sequence of name components from the base directory down.
#[verifier::ext_equal]
pub struct FileItemV {
    pub path: Seq<Seq<u8>>,
    pub name: Seq<u8>,
    pub is_dir: bool,
    pub is_selected: bool,
    pub is_expanded: bool,
    pub depth: int,
}

/// The row emitted for entry `e` at `path`: expansion applies to directories
/// only, selection to files only.
pub open spec fn row_v(
    e: FsEntry,
    path: Seq<Seq<u8>>,
    depth: nat,
    exp: Set<Seq<Seq<u8>>>,
    sel: Set<Seq<Seq<u8>>>,
) -> FileItemV {
    FileItemV {
        path: path,
        name: e.name@,
        is_dir: entry_is_dir(e),
        is_selected: !entry_is_dir(e) && sel.contains(path),
        is_expanded: entry_is_dir(e) && exp.contains(path),
        depth: depth as int,
    }
}

/// The rows of one directory's contents: filter by the hidden flag, sort,
/// then walk the ordered siblings.
pub open spec fn rows_of_dir(
    cs: Seq<FsEntry>,
    prefix: Seq<Seq<u8>>,
    depth: nat,
    exp: Set<Seq<Seq<u8>>>,
    sel: Set<Seq<Seq<u8>>>,
    sh: bool,
) -> Seq<FileItemV>
    decreases children_height(cs), 1nat, 0nat,
        via rows_of_dir_decreases
{
    rows_of_list(sort_entries(visible_entries(cs, sh)), prefix, depth, exp, sel, sh)
}

/// The rows of an ordered sibling list: each sibling's row, followed
/// directly by the rows of its children when it is an expanded directory.
pub open spec fn rows_of_list(
    l: Seq<FsEntry>,
    prefix: Seq<Seq<u8>>,
    depth: nat,
    exp: Set<Seq<Seq<u8>>>,
    sel: Set<Seq<Seq<u8>>>,
    sh: bool,
) -> Seq<FileItemV>
    decreases children_height(l), 0nat, l.len(),
        via rows_of_list_decreases
{
    if l.len() == 0 {
        Seq::empty()
    } else {
        let e = l[0];
        let path = prefix.push(e.name@);
        let sub = match e.node {
            FsNode::File => Seq::<FileItemV>::empty(),
            FsNode::Dir { children } => if exp.contains(path) {
                rows_of_dir(children@, path, depth + 1, exp, sel, sh)
            } else {
                Seq::empty()
            },
        };
        seq![row_v(e, path, depth, exp, sel)] + sub
            + rows_of_list(l.drop_first(), prefix, depth, exp, sel, sh)
    }
}

#[via_fn]
proof fn rows_of_dir_decreases(
    cs: Seq<FsEntry>,
    prefix: Seq<Seq<u8>>,
    depth: nat,
    exp: Set<Seq<Seq<u8>>>,
    sel: Set<Seq<Seq<u8>>>,
    sh: bool,
) {
    lemma_sorted_visible_height(cs, sh);
}

#[via_fn]
proof fn rows_of_list_decreases(
    l: Seq<FsEntry>,
    prefix: Seq<Seq<u8>>,
    depth: nat,
    exp: Set<Seq<Seq<u8>>>,
    sel: Set<Seq<Seq<u8>>>,
    sh: bool,
) {
    if l.len() > 0 {
        lemma_children_height_drop_first(l);
        match l[0].node {
            FsNode::Dir { children } => {
                lemma_dir_child_height(l, 0, children@);
            },
            FsNode::File => {},
        }
    }
}

/// All paths of the files anywhere under a forest whose entries pass the
/// hidden filter, in depth-first order of the snapshot, each path prefixed
/// by `prefix`.  Expansion does not matter here: a directory toggle acts on
/// the true subtree, not only on the visible part.
pub open spec fn files_under(cs: Seq<FsEntry>, prefix: Seq<Seq<u8>>, sh: bool) -> Seq<
    Seq<Seq<u8>>,
>
    decreases children_height(cs), cs.len(),
        via files_under_decreases
{
    if cs.len() == 0 {
        Seq::empty()
    } else {
        let e = cs[0];
        let rest = files_under(cs.drop_first(), prefix, sh);
        if !sh && spec_hidden(e.name@) {
            rest
        } else {
            match e.node {
                FsNode::File => seq![prefix.push(e.name@)] + rest,
                FsNode::Dir { children } => files_under(children@, prefix.push(e.name@), sh)
                    + rest,
            }
        }
    }
}

#[via_fn]
proof fn files_under_decreases(cs: Seq<FsEntry>, prefix: Seq<Seq<u8>>, sh: bool) {
    if cs.len() > 0 {
        lemma_children_height_drop_first(cs);
        match cs[0].node {
            FsNode::Dir { children } => {
                lemma_dir_child_height(cs, 0, children@);
            },
            FsNode::File => {},
        }
    }
}

/// The children of the directory reached by walking `path` from the forest
/// `cs`, descending at each step into the first directory entry with the
/// matching name.
pub open spec fn find_dir(cs: Seq<FsEntry>, path: Seq<Seq<u8>>) -> Option<Seq<FsEntry>>
    decreases path.len(), cs.len(),
{
    if path.len() == 0 {
        Some(cs)
    } else if cs.len() == 0 {
        None
    } else {
        match cs[0].node {
            FsNode::Dir { children } => if cs[0].name@ == path[0] {
                find_dir(children@, path.drop_first())
            } else {
                find_dir(cs.drop_first(), path)
            },
            FsNode::File => find_dir(cs.drop_first(), path),
        }
    }
}

/// One row of the flattened projection, as built: the path is the name
/// components from the base directory down to the entry.
#[derive(Debug, Clone)]
pub struct FileItem {
    pub path: Vec<Vec<u8>>,
    pub name: Vec<u8>,
    pub is_dir: bool,
    pub is_selected: bool,
    pub is_expanded: bool,
    pub depth: usize,
}

/// The mathematical value of one row.
pub open spec fn item_view(it: FileItem) -> FileItemV {
    FileItemV {
        path: it.path.deep_view(),
        name: it.name@,
        is_dir: it.is_dir,
        is_selected: it.is_selected,
        is_expanded: it.is_expanded,
        depth: it.depth as int,
    }
}

/// The mathematical value of a row list.
pub open spec fn items_view(s: Seq<FileItem>) -> Seq<FileItemV> {
    s.map_values(|it: FileItem| item_view(it))
}

/// The entries behind a sequence of entry references.
pub open spec fn refs_view(s: Seq<&FsEntry>) -> Seq<FsEntry> {
    s.map_values(|e: &FsEntry| *e)
}

/// Decides the hidden-name test.
fn hidden_name(n: &Vec<u8>) -> (r: bool)
    ensures
        r == spec_hidden(n@),
{
    n.len() > 0 && n[0] == 46u8
}

/// Decides the sibling display order.
fn entry_le_exec(a: &FsEntry, b: &FsEntry) -> (r: bool)
    ensures
        r == entry_le(*a, *b),
{
    let a_dir = match &a.node {
        FsNode::Dir { .. } => true,
        FsNode::File => false,
    };
    let b_dir = match &b.node {
        FsNode::Dir { .. } => true,
        FsNode::File => false,
    };
    if a_dir != b_dir {
        a_dir
    } else {
        bytes_le(&a.name, &b.name)
    }
}

/// Characterizes where `insert_sorted` places the new entry: right before
/// the first element it sorts at or before.
proof fn lemma_insert_sorted_at(e: FsEntry, s: Seq<FsEntry>, j: int)
    requires
        0 <= j <= s.len(),
        forall|t: int| 0 <= t < j ==> !entry_le(e, s[t]),
        j < s.len() ==> entry_le(e, s[j]),
    ensures
        insert_sorted(e, s) == s.take(j).push(e) + s.skip(j),
    decreases j,
{
    if s.len() == 0 {
        assert(insert_sorted(e, s) =~= s.take(j).push(e) + s.skip(j));
    } else if j == 0 {
        assert(insert_sorted(e, s) == seq![e] + s);
        assert(insert_sorted(e, s) =~= s.take(0).push(e) + s.skip(0));
    } else {
        assert(!entry_le(e, s[0]));
        lemma_insert_sorted_at(e, s.drop_first(), j - 1);
        assert(insert_sorted(e, s) == seq![s[0]] + insert_sorted(e, s.drop_first()));
        assert(insert_sorted(e, s) =~= s.take(j).push(e) + s.skip(j));
    }
}

/// Inserts a reference into an ordered vector of references, mirroring
/// `insert_sorted`.
fn insert_entry_ref<'a>(r: &mut Vec<&'a FsEntry>, e: &'a FsEntry)
    ensures
        refs_view(final(r)@) == insert_sorted(*e, refs_view(old(r)@)),
{
    let mut j: usize = 0;
    while j < r.len() && !entry_le_exec(e, r[j])
        invariant
            j <= r.len(),
            r == old(r),
            forall|t: int| 0 <= t < j ==> !entry_le(*e, refs_view(r@)[t]),
        decreases r.len() - j,
    {
        j = j + 1;
    }
    let ghost oldr = refs_view(r@);
    let ghost gj = j as int;
    r.insert(j, e);
    proof {
        lemma_insert_sorted_at(*e, oldr, gj);
        assert(refs_view(r@) =~= oldr.take(gj).push(*e) + oldr.skip(gj));
    }
}

/// Builds the display order of one directory's entries: the visible ones,
/// sorted.
fn sorted_visible<'a>(cs: &'a Vec<FsEntry>, show_hidden: bool) -> (r: Vec<&'a FsEntry>)
    ensures
        refs_view(r@) == sort_entries(visible_entries(cs@, show_hidden)),
{
    let mut r: Vec<&'a FsEntry> = Vec::new();
    let mut k: usize = cs.len();
    proof {
        assert(cs@.skip(k as int) =~= Seq::<FsEntry>::empty());
        assert(refs_view(r@) =~= sort_entries(visible_entries(cs@.skip(k as int), show_hidden)));
    }
    while k > 0
        invariant
            k <= cs.len(),
            refs_view(r@) == sort_entries(visible_entries(cs@.skip(k as int), show_hidden)),
        decreases k,
    {
        k = k - 1;
        let e = &cs[k];
        proof {
            let tail = cs@.skip(k as int);
            assert(tail[0] == cs@[k as int]);
            assert(tail.drop_first() =~= cs@.skip(k as int + 1));
        }
        if show_hidden || !hidden_name(&e.name) {
            insert_entry_ref(&mut r, e);
            proof {
                let tail = cs@.skip(k as int);
                let vis = visible_entries(tail, show_hidden);
                assert(vis == seq![cs@[k as int]] + visible_entries(
                    cs@.skip(k as int + 1),
                    show_hidden,
                ));
                assert(vis[0] == cs@[k as int]);
                assert(vis.drop_first() =~= visible_entries(cs@.skip(k as int + 1), show_hidden));
                assert(sort_entries(vis) == insert_sorted(
                    cs@[k as int],
                    sort_entries(visible_entries(cs@.skip(k as int + 1), show_hidden)),
                ));
            }
        } else {
            proof {
                let tail = cs@.skip(k as int);
                assert(visible_entries(tail, show_hidden) == visible_entries(
                    cs@.skip(k as int + 1),
                    show_hidden,
                ));
            }
        }
    }
    proof {
        assert(cs@.skip(0) =~= cs@);
    }
    r
}

/// The rows of a concatenation of sibling lists are the concatenated rows.
proof fn lemma_rows_of_list_concat(
    a: Seq<FsEntry>,
    b: Seq<FsEntry>,
    prefix: Seq<Seq<u8>>,
    depth: nat,
    exp: Set<Seq<Seq<u8>>>,
    sel: Set<Seq<Seq<u8>>>,
    sh: bool,
)
    ensures
        rows_of_list(a + b, prefix, depth, exp, sel, sh) == rows_of_list(
            a,
            prefix,
            depth,
            exp,
            sel,
            sh,
        ) + rows_of_list(b, prefix, depth, exp, sel, sh),
    decreases a.len(),
{
    if a.len() == 0 {
        assert(a + b =~= b);
        assert(rows_of_list(a, prefix, depth, exp, sel, sh) == Seq::<FileItemV>::empty());
        assert(rows_of_list(a, prefix, depth, exp, sel, sh) + rows_of_list(
            b,
            prefix,
            depth,
            exp,
            sel,
            sh,
        ) =~= rows_of_list(b, prefix, depth, exp, sel, sh));
    } else {
        assert((a + b)[0] == a[0]);
        assert((a + b).drop_first() =~= a.drop_first() + b);
        lemma_rows_of_list_concat(a.drop_first(), b, prefix, depth, exp, sel, sh);
        assert(rows_of_list(a + b, prefix, depth, exp, sel, sh) =~= rows_of_list(
            a,
            prefix,
            depth,
            exp,
            sel,
            sh,
        ) + rows_of_list(b, prefix, depth, exp, sel, sh));
    }
}

/// The row list of a single entry: its own row, followed by the rows of its
/// children when it is an expanded directory.
proof fn lemma_rows_of_single(
    e: FsEntry,
    prefix: Seq<Seq<u8>>,
    depth: nat,
    exp: Set<Seq<Seq<u8>>>,
    sel: Set<Seq<Seq<u8>>>,
    sh: bool,
)
    ensures
        rows_of_list(seq![e], prefix, depth, exp, sel, sh) == seq![
            row_v(e, prefix.push(e.name@), depth, exp, sel),
        ] + (match e.node {
            FsNode::File => Seq::<FileItemV>::empty(),
            FsNode::Dir { children } => if exp.contains(prefix.push(e.name@)) {
                rows_of_dir(children@, prefix.push(e.name@), depth + 1, exp, sel, sh)
            } else {
                Seq::<FileItemV>::empty()
            },
        }),
{
    let l = seq![e];
    assert(l[0] == e);
    assert(l.drop_first() =~= Seq::<FsEntry>::empty());
    assert(rows_of_list(Seq::<FsEntry>::empty(), prefix, depth, exp, sel, sh)
        == Seq::<FileItemV>::empty());
    assert(rows_of_list(l, prefix, depth, exp, sel, sh) =~= seq![
        row_v(e, prefix.push(e.name@), depth, exp, sel),
    ] + (match e.node {
        FsNode::File => Seq::<FileItemV>::empty(),
        FsNode::Dir { children } => if exp.contains(prefix.push(e.name@)) {
            rows_of_dir(children@, prefix.push(e.name@), depth + 1, exp, sel, sh)
        } else {
            Seq::<FileItemV>::empty()
        },
    }));
}

/// Builds the path of a child entry: the parent's path with the child's
/// name appended.
pub fn child_path(prefix: &Vec<Vec<u8>>, name: &Vec<u8>) -> (r: Vec<Vec<u8>>)
    ensures
        r.deep_view() == prefix.deep_view().push(name@),
{
    let mut r = clone_path(prefix);
    let c = clone_bytes(name);
    proof {
        assert(c.deep_view() =~= name@);
    }
    let ghost prevv = r@;
    let ghost prevd = r.deep_view();
    r.push(c);
    proof {
        let rd = r.deep_view();
        let t = prefix.deep_view().push(name@);
        assert(prevd.len() == prevv.len());
        assert(rd.len() == t.len());
        assert forall|k: int| 0 <= k < rd.len() implies rd[k] == t[k] by {
            assert(rd[k] == r@[k].deep_view());
            if k < prevv.len() {
                assert(r@[k] == prevv[k]);
                assert(prevd[k] == r@[k].deep_view());
            } else {
                assert(r@[k] == c);
                assert(rd[k] == c.deep_view());
            }
        }
        assert(rd =~= t);
    }
    r
}

/// Appends one path to a vector of paths.
pub fn push_path(out: &mut Vec<Vec<Vec<u8>>>, p: Vec<Vec<u8>>)
    ensures
        final(out).deep_view() == old(out).deep_view().push(p.deep_view()),
{
    let ghost prevv = out@;
    let ghost prevd = out.deep_view();
    let ghost pd = p.deep_view();
    out.push(p);
    proof {
        let rd = out.deep_view();
        let t = prevd.push(pd);
        assert(prevd.len() == prevv.len());
        assert(rd.len() == t.len());
        assert forall|k: int| 0 <= k < rd.len() implies rd[k] == t[k] by {
            assert(rd[k] == out@[k].deep_view());
            if k < prevv.len() {
                assert(out@[k] == prevv[k]);
                assert(prevd[k] == out@[k].deep_view());
            }
        }
        assert(rd =~= t);
    }
}

/// Emits the rows of one directory's contents into `out`, depth-first.
fn build_rows(
    cs: &Vec<FsEntry>,
    prefix: &Vec<Vec<u8>>,
    depth: usize,
    expanded: &PathSet,
    selected: &PathSet,
    show_hidden: bool,
    out: &mut Vec<FileItem>,
)
    requires
        depth + children_height(cs@) <= usize::MAX,
    ensures
        items_view(final(out)@) == items_view(old(out)@) + rows_of_dir(
            cs@,
            prefix.deep_view(),
            depth as nat,
            expanded@,
            selected@,
            show_hidden,
        ),
    decreases children_height(cs@),
{
    let order = sorted_visible(cs, show_hidden);
    let ghost ord = refs_view(order@);
    let ghost pp = prefix.deep_view();
    let ghost exp = expanded@;
    let ghost sel = selected@;
    proof {
        assert(ord.take(0) =~= Seq::<FsEntry>::empty());
        assert(items_view(out@) =~= items_view(old(out)@) + rows_of_list(
            ord.take(0),
            pp,
            depth as nat,
            exp,
            sel,
            show_hidden,
        ));
    }
    let mut i: usize = 0;
    while i < order.len()
        invariant
            i <= order.len(),
            depth + children_height(cs@) <= usize::MAX,
            ord == refs_view(order@),
            ord == sort_entries(visible_entries(cs@, show_hidden)),
            pp == prefix.deep_view(),
            exp == expanded@,
            sel == selected@,
            items_view(out@) == items_view(old(out)@) + rows_of_list(
                ord.take(i as int),
                pp,
                depth as nat,
                exp,
                sel,
                show_hidden,
            ),
        decreases order.len() - i,
    {
        let e: &FsEntry = order[i];
        proof {
            assert(*e == ord[i as int]);
        }
        let path = child_path(prefix, &e.name);
        let ghost cpath = pp.push(ord[i as int].name@);
        proof {
            assert(path.deep_view() == cpath);
        }
        let is_dir = match &e.node {
            FsNode::Dir { .. } => true,
            FsNode::File => false,
        };
        let is_expanded = if is_dir {
            expanded.contains(&path)
        } else {
            false
        };
        let is_selected = if is_dir {
            false
        } else {
            selected.contains(&path)
        };
        let row = FileItem {
            path: clone_path(&path),
            name: clone_bytes(&e.name),
            is_dir: is_dir,
            is_selected: is_selected,
            is_expanded: is_expanded,
            depth: depth,
        };
        proof {
            assert(item_view(row) =~= row_v(ord[i as int], cpath, depth as nat, exp, sel));
        }
        let ghost prevout = out@;
        out.push(row);
        proof {
            assert(items_view(out@) =~= items_view(prevout).push(
                row_v(ord[i as int], cpath, depth as nat, exp, sel),
            ));
        }
        if is_dir && is_expanded {
            match &e.node {
                FsNode::Dir { children } => {
                    proof {
                        assert(ord.contains(ord[i as int]));
                        lemma_sort_entries_contains(visible_entries(cs@, show_hidden));
                        lemma_visible_contains(cs@, show_hidden);
                        assert(cs@.contains(ord[i as int]));
                        let j = choose|j: int| 0 <= j < cs@.len() && cs@[j] == ord[i as int];
                        lemma_children_height_elem(cs@, j);
                        assert(entry_height(ord[i as int]) == 1 + children_height(children@));
                        assert(children_height(children@) < children_height(cs@));
                    }
                    build_rows(children, &path, depth + 1, expanded, selected, show_hidden, out);
                },
                FsNode::File => {},
            }
        }
        proof {
            assert(ord.take(i as int + 1) =~= ord.take(i as int) + seq![ord[i as int]]);
            lemma_rows_of_list_concat(
                ord.take(i as int),
                seq![ord[i as int]],
                pp,
                depth as nat,
                exp,
                sel,
                show_hidden,
            );
            lemma_rows_of_single(ord[i as int], pp, depth as nat, exp, sel, show_hidden);
            assert(items_view(out@) =~= items_view(old(out)@) + rows_of_list(
                ord.take(i as int + 1),
                pp,
                depth as nat,
                exp,
                sel,
                show_hidden,
            ));
        }
        i = i + 1;
    }
    proof {
        assert(ord.take(ord.len() as int) =~= ord);
    }
}

/// Materializes the flattened row list of a whole snapshot: the contract of
/// the tree model.  The base directory itself is implicitly expanded; a
/// subdirectory's children appear exactly when its path is in `expanded`.
pub fn materialize(
    root: &Vec<FsEntry>,
    expanded: &PathSet,
    selected: &PathSet,
    show_hidden: bool,
) -> (items: Vec<FileItem>)
    requires
        children_height(root@) <= usize::MAX,
    ensures
        items_view(items@) == rows_of_dir(
            root@,
            Seq::empty(),
            0,
            expanded@,
            selected@,
            show_hidden,
        ),
{
    let mut out: Vec<FileItem> = Vec::new();
    let prefix: Vec<Vec<u8>> = Vec::new();
    proof {
        assert(prefix.deep_view() =~= Seq::<Seq<u8>>::empty());
        assert(items_view(Seq::<FileItem>::empty()) =~= Seq::<FileItemV>::empty());
    }
    build_rows(root, &prefix, 0, expanded, selected, show_hidden, &mut out);
    proof {
        assert(Seq::<FileItemV>::empty() + rows_of_dir(
            root@,
            Seq::empty(),
            0,
            expanded@,
            selected@,
            show_hidden,
        ) =~= rows_of_dir(root@, Seq::empty(), 0, expanded@, selected@, show_hidden));
    }
    out
}

/// The files under a concatenation of sibling lists are the concatenated
/// file lists.
proof fn lemma_files_under_concat(a: Seq<FsEntry>, b: Seq<FsEntry>, prefix: Seq<Seq<u8>>, sh: bool)
    ensures
        files_under(a + b, prefix, sh) == files_under(a, prefix, sh) + files_under(b, prefix, sh),
    decreases a.len(),
{
    if a.len() == 0 {
        assert(a + b =~= b);
        assert(files_under(a, prefix, sh) == Seq::<Seq<Seq<u8>>>::empty());
        assert(files_under(a, prefix, sh) + files_under(b, prefix, sh) =~= files_under(
            b,
            prefix,
            sh,
        ));
    } else {
        assert((a + b)[0] == a[0]);
        assert((a + b).drop_first() =~= a.drop_first() + b);
        lemma_files_under_concat(a.drop_first(), b, prefix, sh);
        assert(files_under(a + b, prefix, sh) =~= files_under(a, prefix, sh) + files_under(
            b,
            prefix,
            sh,
        ));
    }
}

/// The files under a single entry.
proof fn lemma_files_under_single(e: FsEntry, prefix: Seq<Seq<u8>>, sh: bool)
    ensures
        files_under(seq![e], prefix, sh) == (if !sh && spec_hidden(e.name@) {
            Seq::<Seq<Seq<u8>>>::empty()
        } else {
            match e.node {
                FsNode::File => seq![prefix.push(e.name@)],
                FsNode::Dir { children } => files_under(children@, prefix.push(e.name@), sh),
            }
        }),
{
    let l = seq![e];
    assert(l[0] == e);
    assert(l.drop_first() =~= Seq::<FsEntry>::empty());
    assert(files_under(Seq::<FsEntry>::empty(), prefix, sh) == Seq::<Seq<Seq<u8>>>::empty());
    assert(files_under(l, prefix, sh) =~= (if !sh && spec_hidden(e.name@) {
        Seq::<Seq<Seq<u8>>>::empty()
    } else {
        match e.node {
            FsNode::File => seq![prefix.push(e.name@)],
            FsNode::Dir { children } => files_under(children@, prefix.push(e.name@), sh),
        }
    }));
}

/// Collects the paths of every file anywhere under a forest, filtered by
/// the hidden flag, in the snapshot's own depth-first order.
pub fn collect_files_under(
    cs: &Vec<FsEntry>,
    prefix: &Vec<Vec<u8>>,
    show_hidden: bool,
    out: &mut Vec<Vec<Vec<u8>>>,
)
    ensures
        final(out).deep_view() == old(out).deep_view() + files_under(
            cs@,
            prefix.deep_view(),
            show_hidden,
        ),
    decreases children_height(cs@),
{
    let ghost pp = prefix.deep_view();
    proof {
        assert(cs@.take(0) =~= Seq::<FsEntry>::empty());
        assert(out.deep_view() =~= old(out).deep_view() + files_under(
            cs@.take(0),
            pp,
            show_hidden,
        ));
    }
    let mut i: usize = 0;
    while i < cs.len()
        invariant
            i <= cs.len(),
            pp == prefix.deep_view(),
            out.deep_view() == old(out).deep_view() + files_under(
                cs@.take(i as int),
                pp,
                show_hidden,
            ),
        decreases cs.len() - i,
    {
        let e = &cs[i];
        proof {
            assert(*e == cs@[i as int]);
        }
        if show_hidden || !hidden_name(&e.name) {
            match &e.node {
                FsNode::File => {
                    let path = child_path(prefix, &e.name);
                    push_path(out, path);
                },
                FsNode::Dir { children } => {
                    let path = child_path(prefix, &e.name);
                    proof {
                        lemma_children_height_elem(cs@, i as int);
                        assert(entry_height(cs@[i as int]) == 1 + children_height(children@));
                    }
                    collect_files_under(children, &path, show_hidden, out);
                },
            }
        }
        proof {
            assert(cs@.take(i as int + 1) =~= cs@.take(i as int) + seq![cs@[i as int]]);
            lemma_files_under_concat(
                cs@.take(i as int),
                seq![cs@[i as int]],
                pp,
                show_hidden,
            );
            lemma_files_under_single(cs@[i as int], pp, show_hidden);
            assert(out.deep_view() =~= old(out).deep_view() + files_under(
                cs@.take(i as int + 1),
                pp,
                show_hidden,
            ));
        }
        i = i + 1;
    }
    proof {
        assert(cs@.take(cs@.len() as int) =~= cs@);
    }
}

/// Walks `path` from component `from` on down the forest, returning the
/// children of the directory it names, as `find_dir` does.
fn find_dir_from<'a>(cs: &'a Vec<FsEntry>, path: &Vec<Vec<u8>>, from: usize) -> (r: Option<
    &'a Vec<FsEntry>,
>)
    requires
        from <= path.len(),
    ensures
        match r {
            Some(v) => find_dir(cs@, path.deep_view().skip(from as int)) == Some(v@),
            None => find_dir(cs@, path.deep_view().skip(from as int)) is None,
        },
    decreases path.len() - from,
{
    let ghost rest = path.deep_view().skip(from as int);
    if from == path.len() {
        proof {
            assert(rest.len() == 0);
        }
        return Some(cs);
    }
    let mut j: usize = 0;
    proof {
        assert(cs@.skip(0) =~= cs@);
    }
    while j < cs.len()
        invariant
            j <= cs.len(),
            from < path.len(),
            rest == path.deep_view().skip(from as int),
            find_dir(cs@, rest) == find_dir(cs@.skip(j as int), rest),
        decreases cs.len() - j,
    {
        let e = &cs[j];
        proof {
            assert(cs@.skip(j as int)[0] == cs@[j as int]);
            assert(cs@.skip(j as int).drop_first() =~= cs@.skip(j as int + 1));
        }
        match &e.node {
            FsNode::Dir { children } => {
                if bytes_eq(&e.name, &path[from]) {
                    proof {
                        assert(path.deep_view()[from as int] =~= path@[from as int]@);
                        assert(cs@[j as int].name@ == rest[0]);
                        assert(rest.drop_first() =~= path.deep_view().skip(from as int + 1));
                    }
                    return find_dir_from(children, path, from + 1);
                }
                proof {
                    assert(path.deep_view()[from as int] =~= path@[from as int]@);
                    assert(cs@[j as int].name@ != rest[0]);
                }
            },
            FsNode::File => {},
        }
        j = j + 1;
    }
    proof {
        assert(cs@.skip(cs@.len() as int) =~= Seq::<FsEntry>::empty());
    }
    None
}

/// The children of the directory named by `path`, walking from the base
/// directory's entries.
pub fn find_subdir<'a>(cs: &'a Vec<FsEntry>, path: &Vec<Vec<u8>>) -> (r: Option<&'a Vec<FsEntry>>)
    ensures
        match r {
            Some(v) => find_dir(cs@, path.deep_view()) == Some(v@),
            None => find_dir(cs@, path.deep_view()) is None,
        },
{
    let r = find_dir_from(cs, path, 0);
    proof {
        assert(path.deep_view().skip(0) =~= path.deep_view());
    }
    r
}

/// Everything in a filtered forest passes the hidden filter.
proof fn lemma_visible_hidden(cs: Seq<FsEntry>, show_hidden: bool)
    ensures
        forall|x: FsEntry|
            visible_entries(cs, show_hidden).contains(x) ==> (show_hidden || !spec_hidden(
                x.name@,
            )),
    decreases cs.len(),
{
    if cs.len() > 0 {
        lemma_visible_hidden(cs.drop_first(), show_hidden);
        let v = visible_entries(cs, show_hidden);
        let rest = visible_entries(cs.drop_first(), show_hidden);
        assert forall|x: FsEntry| v.contains(x) implies (show_hidden || !spec_hidden(
            x.name@,
        )) by {
            let i = choose|i: int| 0 <= i < v.len() && v[i] == x;
            if show_hidden || !spec_hidden(cs[0].name@) {
                assert(v == seq![cs[0]] + rest);
                if i > 0 {
                    assert(v[i] == rest[i - 1]);
                    assert(rest.contains(x)) by {
                        assert(rest[i - 1] == x);
                    }
                }
            } else {
                assert(v == rest);
                assert(rest.contains(x)) by {
                    assert(rest[i] == x);
                }
            }
        }
    }
}

/// How a row hangs off the walk that produced it: its path extends
/// `prefix`, its depth and name agree with its path, it passes the hidden
/// filter, and every ancestor directory below `prefix` is expanded.
pub open spec fn row_anchored(
    r: FileItemV,
    prefix: Seq<Seq<u8>>,
    exp: Set<Seq<Seq<u8>>>,
    sh: bool,
) -> bool {
    &&& r.depth + 1 == r.path.len()
    &&& prefix.len() <= r.depth
    &&& r.path.take(prefix.len() as int) == prefix
    &&& r.name == r.path[r.path.len() - 1]
    &&& (sh || !spec_hidden(r.name))
    &&& forall|m: int| prefix.len() < m < r.path.len() ==> exp.contains(#[trigger] r.path.take(m))
}

proof fn lemma_rows_structure_list(
    l: Seq<FsEntry>,
    prefix: Seq<Seq<u8>>,
    depth: nat,
    exp: Set<Seq<Seq<u8>>>,
    sel: Set<Seq<Seq<u8>>>,
    sh: bool,
)
    requires
        prefix.len() == depth,
        forall|k: int| 0 <= k < l.len() ==> (sh || !spec_hidden(#[trigger] l[k].name@)),
    ensures
        forall|i: int|
            0 <= i < rows_of_list(l, prefix, depth, exp, sel, sh).len() ==> row_anchored(
                #[trigger] rows_of_list(l, prefix, depth, exp, sel, sh)[i],
                prefix,
                exp,
                sh,
            ),
    decreases children_height(l), 0nat, l.len(),
{
    if l.len() == 0 {
    } else {
        let e = l[0];
        let path = prefix.push(e.name@);
        let head = row_v(e, path, depth, exp, sel);
        let sub = match e.node {
            FsNode::File => Seq::<FileItemV>::empty(),
            FsNode::Dir { children } => if exp.contains(path) {
                rows_of_dir(children@, path, depth + 1, exp, sel, sh)
            } else {
                Seq::<FileItemV>::empty()
            },
        };
        let tail = rows_of_list(l.drop_first(), prefix, depth, exp, sel, sh);
        let rows = rows_of_list(l, prefix, depth, exp, sel, sh);
        assert(rows == seq![head] + sub + tail);
        lemma_children_height_drop_first(l);
        assert(forall|k: int|
            0 <= k < l.drop_first().len() ==> (sh || !spec_hidden(
                #[trigger] l.drop_first()[k].name@,
            )));
        lemma_rows_structure_list(l.drop_first(), prefix, depth, exp, sel, sh);
        // the head row is anchored
        assert(sh || !spec_hidden(e.name@));
        assert(head.path.take(prefix.len() as int) =~= prefix);
        assert(head.name == head.path[head.path.len() - 1]);
        assert(row_anchored(head, prefix, exp, sh));
        // the sub-rows are anchored one level down, hence here too
        match e.node {
            FsNode::Dir { children } => {
                if exp.contains(path) {
                    lemma_dir_child_height(l, 0, children@);
                    lemma_rows_structure_dir(children@, path, depth + 1, exp, sel, sh);
                    assert forall|j: int| 0 <= j < sub.len() implies row_anchored(
                        sub[j],
                        prefix,
                        exp,
                        sh,
                    ) by {
                        let r = sub[j];
                        assert(row_anchored(r, path, exp, sh));
                        assert(r.path.take(path.len() as int) == path);
                        assert forall|t: int| 0 <= t < prefix.len() implies r.path[t]
                            == prefix[t] by {
                            assert(r.path.take(path.len() as int)[t] == path[t]);
                        }
                        assert(r.path.take(prefix.len() as int) =~= prefix);
                        assert forall|m: int| prefix.len() < m < r.path.len() implies exp.contains(
                            #[trigger] r.path.take(m),
                        ) by {
                            if m == path.len() {
                                assert(r.path.take(m) =~= path);
                            }
                        }
                    }
                }
            },
            FsNode::File => {},
        }
        // assemble over the concatenation
        assert forall|i: int| 0 <= i < rows.len() implies row_anchored(
            rows[i],
            prefix,
            exp,
            sh,
        ) by {
            if i == 0 {
                assert(rows[0] == head);
            } else if i < 1 + sub.len() {
                assert(rows[i] == sub[i - 1]);
            } else {
                assert(rows[i] == tail[i - 1 - sub.len()]);
            }
        }
    }
}

proof fn lemma_rows_structure_dir(
    cs: Seq<FsEntry>,
    prefix: Seq<Seq<u8>>,
    depth: nat,
    exp: Set<Seq<Seq<u8>>>,
    sel: Set<Seq<Seq<u8>>>,
    sh: bool,
)
    requires
        prefix.len() == depth,
    ensures
        forall|i: int|
            0 <= i < rows_of_dir(cs, prefix, depth, exp, sel, sh).len() ==> row_anchored(
                #[trigger] rows_of_dir(cs, prefix, depth, exp, sel, sh)[i],
                prefix,
                exp,
                sh,
            ),
    decreases children_height(cs), 1nat, 0nat,
{
    let l = sort_entries(visible_entries(cs, sh));
    lemma_sorted_visible_height(cs, sh);
    lemma_sort_entries_contains(visible_entries(cs, sh));
    lemma_visible_hidden(cs, sh);
    assert forall|k: int| 0 <= k < l.len() implies (sh || !spec_hidden(
        #[trigger] l[k].name@,
    )) by {
        assert(l.contains(l[k]));
        assert(visible_entries(cs, sh).contains(l[k]));
    }
    lemma_rows_structure_list(l, prefix, depth, exp, sel, sh);
    let rows = rows_of_dir(cs, prefix, depth, exp, sel, sh);
    assert(rows == rows_of_list(l, prefix, depth, exp, sel, sh));
    assert forall|i: int| 0 <= i < rows.len() implies row_anchored(rows[i], prefix, exp, sh) by {
        assert(rows[i] == rows_of_list(l, prefix, depth, exp, sel, sh)[i]);
    }
}

/// Law: a row appears exactly where its whole ancestor chain is expanded —
/// in particular no row whose parent directory is collapsed.  Every
/// materialized row's path extends the base directory, its depth is one
/// less than its component count, it passes the hidden filter, and every
/// proper ancestor path is in the expanded set.
pub proof fn lemma_rows_ancestors_expanded(
    snap: Seq<FsEntry>,
    exp: Set<Seq<Seq<u8>>>,
    sel: Set<Seq<Seq<u8>>>,
    sh: bool,
)
    ensures
        forall|i: int|
            0 <= i < rows_of_dir(snap, Seq::empty(), 0, exp, sel, sh).len() ==> row_anchored(
                #[trigger] rows_of_dir(snap, Seq::empty(), 0, exp, sel, sh)[i],
                Seq::empty(),
                exp,
                sh,
            ),
{
    lemma_rows_structure_dir(snap, Seq::empty(), 0, exp, sel, sh);
}

/// The child forest of a node: empty for a file.
pub open spec fn dir_children(n: FsNode) -> Seq<FsEntry> {
    match n {
        FsNode::Dir { children } => children@,
        FsNode::File => Seq::empty(),
    }
}

/// The entry reached by walking `path` from the forest `cs`: at each level
/// the first entry with the matching name (descending only through
/// directories), the last component matching an entry of either kind.
pub open spec fn find_entry(cs: Seq<FsEntry>, path: Seq<Seq<u8>>) -> Option<FsEntry>
    decreases path.len(), cs.len(),
{
    if path.len() == 0 || cs.len() == 0 {
        None
    } else if path.len() == 1 {
        if cs[0].name@ == path[0] {
            Some(cs[0])
        } else {
            find_entry(cs.drop_first(), path)
        }
    } else {
        match cs[0].node {
            FsNode::Dir { children } => if cs[0].name@ == path[0] {
                find_entry(children@, path.drop_first())
            } else {
                find_entry(cs.drop_first(), path)
            },
            FsNode::File => find_entry(cs.drop_first(), path),
        }
    }
}

/// A found entry has a witness position in the forest: an entry with the
/// first component's name through which the walk went on.
proof fn lemma_find_entry_witness(cs: Seq<FsEntry>, path: Seq<Seq<u8>>)
    requires
        path.len() >= 1,
        find_entry(cs, path) is Some,
    ensures
        exists|j: int|
            {
                &&& 0 <= j < cs.len()
                &&& (#[trigger] cs[j]).name@ == path[0]
                &&& (path.len() == 1 ==> find_entry(cs, path) == Some(cs[j]))
                &&& (path.len() > 1 ==> entry_is_dir(cs[j]) && find_entry(
                    dir_children(cs[j].node),
                    path.drop_first(),
                ) == find_entry(cs, path))
            },
    decreases cs.len(),
{
    if path.len() == 1 {
        if cs[0].name@ == path[0] {
            assert(cs[0].name@ == path[0]);
        } else {
            lemma_find_entry_witness(cs.drop_first(), path);
            let j = choose|j: int|
                {
                    &&& 0 <= j < cs.drop_first().len()
                    &&& (#[trigger] cs.drop_first()[j]).name@ == path[0]
                    &&& find_entry(cs.drop_first(), path) == Some(cs.drop_first()[j])
                };
            assert(cs[j + 1] == cs.drop_first()[j]);
        }
    } else {
        match cs[0].node {
            FsNode::Dir { children } => {
                if cs[0].name@ == path[0] {
                    assert(dir_children(cs[0].node) == children@);
                } else {
                    lemma_find_entry_witness(cs.drop_first(), path);
                    let j = choose|j: int|
                        {
                            &&& 0 <= j < cs.drop_first().len()
                            &&& (#[trigger] cs.drop_first()[j]).name@ == path[0]
                            &&& entry_is_dir(cs.drop_first()[j])
                            &&& find_entry(
                                dir_children(cs.drop_first()[j].node),
                                path.drop_first(),
                            ) == find_entry(cs.drop_first(), path)
                        };
                    assert(cs[j + 1] == cs.drop_first()[j]);
                }
            },
            FsNode::File => {
                lemma_find_entry_witness(cs.drop_first(), path);
                let j = choose|j: int|
                    {
                        &&& 0 <= j < cs.drop_first().len()
                        &&& (#[trigger] cs.drop_first()[j]).name@ == path[0]
                        &&& entry_is_dir(cs.drop_first()[j])
                        &&& find_entry(dir_children(cs.drop_first()[j].node), path.drop_first())
                            == find_entry(cs.drop_first(), path)
                    };
                assert(cs[j + 1] == cs.drop_first()[j]);
            },
        }
    }
}

/// An entry that passes the hidden filter is among the filtered entries.
proof fn lemma_visible_complete(cs: Seq<FsEntry>, sh: bool, x: FsEntry)
    requires
        cs.contains(x),
        sh || !spec_hidden(x.name@),
    ensures
        visible_entries(cs, sh).contains(x),
    decreases cs.len(),
{
    let j = choose|j: int| 0 <= j < cs.len() && cs[j] == x;
    let v = visible_entries(cs, sh);
    let rest = visible_entries(cs.drop_first(), sh);
    if j == 0 {
        assert(v == seq![cs[0]] + rest);
        assert(v[0] == x);
    } else {
        assert(cs.drop_first()[j - 1] == x);
        assert(cs.drop_first().contains(x));
        lemma_visible_complete(cs.drop_first(), sh, x);
        let k = choose|k: int| 0 <= k < rest.len() && rest[k] == x;
        if sh || !spec_hidden(cs[0].name@) {
            assert(v == seq![cs[0]] + rest);
            assert(v[k + 1] == x);
        } else {
            assert(v == rest);
        }
    }
}

/// Inserting keeps every element, and adds the inserted one.
proof fn lemma_insert_sorted_complete(e: FsEntry, s: Seq<FsEntry>)
    ensures
        insert_sorted(e, s).contains(e),
        forall|x: FsEntry| s.contains(x) ==> insert_sorted(e, s).contains(x),
    decreases s.len(),
{
    let r = insert_sorted(e, s);
    if s.len() == 0 {
        assert(r[0] == e);
    } else if entry_le(e, s[0]) {
        assert(r == seq![e] + s);
        assert(r[0] == e);
        assert forall|x: FsEntry| s.contains(x) implies r.contains(x) by {
            let j = choose|j: int| 0 <= j < s.len() && s[j] == x;
            assert(r[j + 1] == x);
        }
    } else {
        lemma_insert_sorted_complete(e, s.drop_first());
        let rr = insert_sorted(e, s.drop_first());
        assert(r == seq![s[0]] + rr);
        let ke = choose|ke: int| 0 <= ke < rr.len() && rr[ke] == e;
        assert(r[ke + 1] == e);
        assert forall|x: FsEntry| s.contains(x) implies r.contains(x) by {
            let j = choose|j: int| 0 <= j < s.len() && s[j] == x;
            if j == 0 {
                assert(r[0] == x);
            } else {
                assert(s.drop_first()[j - 1] == x);
                assert(s.drop_first().contains(x));
                assert(rr.contains(x));
                let k = choose|k: int| 0 <= k < rr.len() && rr[k] == x;
                assert(r[k + 1] == x);
            }
        }
    }
}

/// Sorting keeps every element.
proof fn lemma_sort_entries_complete(s: Seq<FsEntry>)
    ensures
        forall|x: FsEntry| s.contains(x) ==> sort_entries(s).contains(x),
    decreases s.len(),
{
    if s.len() > 0 {
        lemma_sort_entries_complete(s.drop_first());
        lemma_insert_sorted_complete(s[0], sort_entries(s.drop_first()));
        assert forall|x: FsEntry| s.contains(x) implies sort_entries(s).contains(x) by {
            let j = choose|j: int| 0 <= j < s.len() && s[j] == x;
            if j == 0 {
            } else {
                assert(s.drop_first()[j - 1] == x);
                assert(s.drop_first().contains(x));
            }
        }
    }
}

/// The row of the `k`-th list element stands somewhere in the row list.
proof fn lemma_rows_member_row(
    l: Seq<FsEntry>,
    prefix: Seq<Seq<u8>>,
    depth: nat,
    exp: Set<Seq<Seq<u8>>>,
    sel: Set<Seq<Seq<u8>>>,
    sh: bool,
    k: int,
)
    requires
        0 <= k < l.len(),
    ensures
        exists|i: int|
            {
                &&& 0 <= i < rows_of_list(l, prefix, depth, exp, sel, sh).len()
                &&& #[trigger] rows_of_list(l, prefix, depth, exp, sel, sh)[i] == row_v(
                    l[k],
                    prefix.push(l[k].name@),
                    depth,
                    exp,
                    sel,
                )
            },
    decreases l.len(),
{
    let rows = rows_of_list(l, prefix, depth, exp, sel, sh);
    let e = l[0];
    let path = prefix.push(e.name@);
    let head = row_v(e, path, depth, exp, sel);
    let sub = match e.node {
        FsNode::File => Seq::<FileItemV>::empty(),
        FsNode::Dir { children } => if exp.contains(path) {
            rows_of_dir(children@, path, depth + 1, exp, sel, sh)
        } else {
            Seq::<FileItemV>::empty()
        },
    };
    let tail = rows_of_list(l.drop_first(), prefix, depth, exp, sel, sh);
    assert(rows == seq![head] + sub + tail);
    if k == 0 {
        assert(rows[0] == head);
    } else {
        lemma_rows_member_row(l.drop_first(), prefix, depth, exp, sel, sh, k - 1);
        let i = choose|i: int|
            {
                &&& 0 <= i < tail.len()
                &&& #[trigger] tail[i] == row_v(
                    l.drop_first()[k - 1],
                    prefix.push(l.drop_first()[k - 1].name@),
                    depth,
                    exp,
                    sel,
                )
            };
        assert(l.drop_first()[k - 1] == l[k]);
        assert(rows[1 + sub.len() + i] == tail[i]);
    }
}

/// Every row of an expanded list element's subtree stands somewhere in the
/// row list.
proof fn lemma_rows_member_sub(
    l: Seq<FsEntry>,
    prefix: Seq<Seq<u8>>,
    depth: nat,
    exp: Set<Seq<Seq<u8>>>,
    sel: Set<Seq<Seq<u8>>>,
    sh: bool,
    k: int,
    idx: int,
)
    requires
        0 <= k < l.len(),
        entry_is_dir(l[k]),
        exp.contains(prefix.push(l[k].name@)),
        0 <= idx < rows_of_dir(
            dir_children(l[k].node),
            prefix.push(l[k].name@),
            depth + 1,
            exp,
            sel,
            sh,
        ).len(),
    ensures
        exists|i: int|
            {
                &&& 0 <= i < rows_of_list(l, prefix, depth, exp, sel, sh).len()
                &&& #[trigger] rows_of_list(l, prefix, depth, exp, sel, sh)[i] == rows_of_dir(
                    dir_children(l[k].node),
                    prefix.push(l[k].name@),
                    depth + 1,
                    exp,
                    sel,
                    sh,
                )[idx]
            },
    decreases l.len(),
{
    let rows = rows_of_list(l, prefix, depth, exp, sel, sh);
    let e = l[0];
    let path = prefix.push(e.name@);
    let head = row_v(e, path, depth, exp, sel);
    let sub = match e.node {
        FsNode::File => Seq::<FileItemV>::empty(),
        FsNode::Dir { children } => if exp.contains(path) {
            rows_of_dir(children@, path, depth + 1, exp, sel, sh)
        } else {
            Seq::<FileItemV>::empty()
        },
    };
    let tail = rows_of_list(l.drop_first(), prefix, depth, exp, sel, sh);
    assert(rows == seq![head] + sub + tail);
    if k == 0 {
        assert(sub == rows_of_dir(dir_children(e.node), path, depth + 1, exp, sel, sh));
        assert(rows[1 + idx] == sub[idx]);
    } else {
        lemma_rows_member_sub(l.drop_first(), prefix, depth, exp, sel, sh, k - 1, idx);
        let sr = rows_of_dir(
            dir_children(l[k].node),
            prefix.push(l[k].name@),
            depth + 1,
            exp,
            sel,
            sh,
        );
        assert(l.drop_first()[k - 1] == l[k]);
        let i = choose|i: int|
            {
                &&& 0 <= i < tail.len()
                &&& #[trigger] tail[i] == rows_of_dir(
                    dir_children(l.drop_first()[k - 1].node),
                    prefix.push(l.drop_first()[k - 1].name@),
                    depth + 1,
                    exp,
                    sel,
                    sh,
                )[idx]
            };
        assert(rows[1 + sub.len() + i] == tail[i]);
    }
}

proof fn lemma_rows_complete_dir(
    cs: Seq<FsEntry>,
    prefix: Seq<Seq<u8>>,
    depth: nat,
    exp: Set<Seq<Seq<u8>>>,
    sel: Set<Seq<Seq<u8>>>,
    sh: bool,
    rest: Seq<Seq<u8>>,
)
    requires
        prefix.len() == depth,
        rest.len() >= 1,
        find_entry(cs, rest) is Some,
        forall|k: int| 0 <= k < rest.len() ==> (sh || !spec_hidden(#[trigger] rest[k])),
        forall|m: int| 1 <= m < rest.len() ==> exp.contains(#[trigger] (prefix + rest.take(m))),
    ensures
        exists|i: int|
            {
                &&& 0 <= i < rows_of_dir(cs, prefix, depth, exp, sel, sh).len()
                &&& (#[trigger] rows_of_dir(cs, prefix, depth, exp, sel, sh)[i]).path == prefix
                    + rest
            },
    decreases children_height(cs), 1nat, 0nat,
{
    let rows = rows_of_dir(cs, prefix, depth, exp, sel, sh);
    let l = sort_entries(visible_entries(cs, sh));
    assert(rows == rows_of_list(l, prefix, depth, exp, sel, sh));
    lemma_find_entry_witness(cs, rest);
    let j = choose|j: int|
        {
            &&& 0 <= j < cs.len()
            &&& (#[trigger] cs[j]).name@ == rest[0]
            &&& (rest.len() == 1 ==> find_entry(cs, rest) == Some(cs[j]))
            &&& (rest.len() > 1 ==> entry_is_dir(cs[j]) && find_entry(
                dir_children(cs[j].node),
                rest.drop_first(),
            ) == find_entry(cs, rest))
        };
    let e = cs[j];
    assert(sh || !spec_hidden(e.name@)) by {
        assert(sh || !spec_hidden(rest[0]));
    }
    assert(cs.contains(e));
    lemma_visible_complete(cs, sh, e);
    lemma_sort_entries_complete(visible_entries(cs, sh));
    assert(l.contains(e));
    let k = choose|k: int| 0 <= k < l.len() && l[k] == e;
    let path = prefix.push(e.name@);
    if rest.len() == 1 {
        lemma_rows_member_row(l, prefix, depth, exp, sel, sh, k);
        let i = choose|i: int|
            {
                &&& 0 <= i < rows_of_list(l, prefix, depth, exp, sel, sh).len()
                &&& #[trigger] rows_of_list(l, prefix, depth, exp, sel, sh)[i] == row_v(
                    l[k],
                    prefix.push(l[k].name@),
                    depth,
                    exp,
                    sel,
                )
            };
        assert(rows[i] == rows_of_list(l, prefix, depth, exp, sel, sh)[i]);
        assert(path =~= prefix + rest);
    } else {
        assert(entry_is_dir(e));
        assert(exp.contains(path)) by {
            assert(exp.contains(prefix + rest.take(1)));
            assert(prefix + rest.take(1) =~= path);
        }
        let children = dir_children(e.node);
        assert(children_height(children) < children_height(cs)) by {
            lemma_children_height_elem(cs, j);
        }
        let prefix2 = path;
        assert forall|m: int| 1 <= m < rest.drop_first().len() implies exp.contains(
            #[trigger] (prefix2 + rest.drop_first().take(m)),
        ) by {
            assert(exp.contains(prefix + rest.take(m + 1)));
            assert(prefix + rest.take(m + 1) =~= prefix2 + rest.drop_first().take(m));
        }
        assert(forall|t: int|
            0 <= t < rest.drop_first().len() ==> (sh || !spec_hidden(
                #[trigger] rest.drop_first()[t],
            )));
        lemma_rows_complete_dir(children, prefix2, depth + 1, exp, sel, sh, rest.drop_first());
        let sr = rows_of_dir(children, prefix2, depth + 1, exp, sel, sh);
        let idx = choose|idx: int|
            {
                &&& 0 <= idx < sr.len()
                &&& (#[trigger] sr[idx]).path == prefix2 + rest.drop_first()
            };
        lemma_rows_member_sub(l, prefix, depth, exp, sel, sh, k, idx);
        let i = choose|i: int|
            {
                &&& 0 <= i < rows_of_list(l, prefix, depth, exp, sel, sh).len()
                &&& #[trigger] rows_of_list(l, prefix, depth, exp, sel, sh)[i] == rows_of_dir(
                    dir_children(l[k].node),
                    prefix.push(l[k].name@),
                    depth + 1,
                    exp,
                    sel,
                    sh,
                )[idx]
            };
        assert(rows[i] == sr[idx]);
        assert(prefix2 + rest.drop_first() =~= prefix + rest);
    }
}

/// Law, the other direction: every entry of the snapshot whose components
/// all pass the hidden filter and whose every proper ancestor is expanded
/// has a row in the projection.
pub proof fn lemma_rows_complete(
    snap: Seq<FsEntry>,
    exp: Set<Seq<Seq<u8>>>,
    sel: Set<Seq<Seq<u8>>>,
    sh: bool,
    p: Seq<Seq<u8>>,
)
    requires
        p.len() >= 1,
        find_entry(snap, p) is Some,
        forall|k: int| 0 <= k < p.len() ==> (sh || !spec_hidden(#[trigger] p[k])),
        forall|m: int| 1 <= m < p.len() ==> exp.contains(#[trigger] p.take(m)),
    ensures
        exists|i: int|
            {
                &&& 0 <= i < rows_of_dir(snap, Seq::empty(), 0, exp, sel, sh).len()
                &&& (#[trigger] rows_of_dir(snap, Seq::empty(), 0, exp, sel, sh)[i]).path == p
            },
{
    let prefix = Seq::<Seq<u8>>::empty();
    assert forall|m: int| 1 <= m < p.len() implies exp.contains(
        #[trigger] (prefix + p.take(m)),
    ) by {
        assert(prefix + p.take(m) =~= p.take(m));
    }
    lemma_rows_complete_dir(snap, prefix, 0, exp, sel, sh, p);
    let rows = rows_of_dir(snap, prefix, 0, exp, sel, sh);
    let i = choose|i: int|
        {
            &&& 0 <= i < rows.len()
            &&& (#[trigger] rows[i]).path == prefix + p
        };
    assert(prefix + p =~= p);
}

/// The same rows with their selection marks recomputed against another
/// selection set.
pub open spec fn reselect(rows: Seq<FileItemV>, sel: Set<Seq<Seq<u8>>>) -> Seq<FileItemV> {
    rows.map_values(
        |r: FileItemV| FileItemV { is_selected: !r.is_dir && sel.contains(r.path), ..r },
    )
}

/// Law: the selection set has no influence on which rows are shown, in
/// what order, or how they are expanded — it only paints the selection
/// marks.  Projecting under one selection and repainting under another is
/// the same as projecting under the other.
pub proof fn lemma_rows_reselect(
    cs: Seq<FsEntry>,
    prefix: Seq<Seq<u8>>,
    depth: nat,
    exp: Set<Seq<Seq<u8>>>,
    sel1: Set<Seq<Seq<u8>>>,
    sel2: Set<Seq<Seq<u8>>>,
    sh: bool,
)
    ensures
        rows_of_dir(cs, prefix, depth, exp, sel2, sh) == reselect(
            rows_of_dir(cs, prefix, depth, exp, sel1, sh),
            sel2,
        ),
    decreases children_height(cs), 1nat, 0nat,
{
    lemma_sorted_visible_height(cs, sh);
    lemma_rows_reselect_list(sort_entries(visible_entries(cs, sh)), prefix, depth, exp, sel1, sel2, sh);
}

/// Inserting one entry into a sibling list adds exactly that entry's rows.
proof fn lemma_rows_len_insert(
    e: FsEntry,
    s: Seq<FsEntry>,
    prefix: Seq<Seq<u8>>,
    depth: nat,
    exp: Set<Seq<Seq<u8>>>,
    sel: Set<Seq<Seq<u8>>>,
    sh: bool,
)
    ensures
        rows_of_list(insert_sorted(e, s), prefix, depth, exp, sel, sh).len() == rows_of_list(
            seq![e],
            prefix,
            depth,
            exp,
            sel,
            sh,
        ).len() + rows_of_list(s, prefix, depth, exp, sel, sh).len(),
    decreases s.len(),
{
    if s.len() == 0 {
        assert(insert_sorted(e, s) == seq![e]);
        assert(rows_of_list(s, prefix, depth, exp, sel, sh).len() == 0);
    } else if entry_le(e, s[0]) {
        assert(insert_sorted(e, s) == seq![e] + s);
        lemma_rows_of_list_concat(seq![e], s, prefix, depth, exp, sel, sh);
    } else {
        let rest = insert_sorted(e, s.drop_first());
        assert(insert_sorted(e, s) == seq![s[0]] + rest);
        lemma_rows_of_list_concat(seq![s[0]], rest, prefix, depth, exp, sel, sh);
        lemma_rows_len_insert(e, s.drop_first(), prefix, depth, exp, sel, sh);
        assert(s =~= seq![s[0]] + s.drop_first());
        lemma_rows_of_list_concat(seq![s[0]], s.drop_first(), prefix, depth, exp, sel, sh);
    }
}

/// Sorting a sibling list does not change how many rows it produces.
proof fn lemma_rows_len_sort(
    s: Seq<FsEntry>,
    prefix: Seq<Seq<u8>>,
    depth: nat,
    exp: Set<Seq<Seq<u8>>>,
    sel: Set<Seq<Seq<u8>>>,
    sh: bool,
)
    ensures
        rows_of_list(sort_entries(s), prefix, depth, exp, sel, sh).len() == rows_of_list(
            s,
            prefix,
            depth,
            exp,
            sel,
            sh,
        ).len(),
    decreases s.len(),
{
    if s.len() > 0 {
        lemma_rows_len_sort(s.drop_first(), prefix, depth, exp, sel, sh);
        lemma_rows_len_insert(s[0], sort_entries(s.drop_first()), prefix, depth, exp, sel, sh);
        assert(s =~= seq![s[0]] + s.drop_first());
        lemma_rows_of_list_concat(seq![s[0]], s.drop_first(), prefix, depth, exp, sel, sh);
    }
}

/// With the hidden flag on, the filter keeps everything.
proof fn lemma_visible_all(l: Seq<FsEntry>)
    ensures
        visible_entries(l, true) == l,
    decreases l.len(),
{
    if l.len() > 0 {
        lemma_visible_all(l.drop_first());
        assert(visible_entries(l, true) =~= l);
    }
}

/// Law: showing hidden entries can only grow the row list — every row
/// shown without the flag is still backed by one with it.
pub proof fn lemma_rows_hidden_monotone(
    cs: Seq<FsEntry>,
    prefix: Seq<Seq<u8>>,
    depth: nat,
    exp: Set<Seq<Seq<u8>>>,
    sel: Set<Seq<Seq<u8>>>,
)
    ensures
        rows_of_dir(cs, prefix, depth, exp, sel, false).len() <= rows_of_dir(
            cs,
            prefix,
            depth,
            exp,
            sel,
            true,
        ).len(),
    decreases children_height(cs), 1nat, 0nat,
{
    lemma_visible_all(cs);
    lemma_rows_len_sort(visible_entries(cs, false), prefix, depth, exp, sel, false);
    lemma_rows_len_sort(cs, prefix, depth, exp, sel, true);
    lemma_rows_hidden_monotone_list(cs, prefix, depth, exp, sel);
}

proof fn lemma_rows_hidden_monotone_list(
    l: Seq<FsEntry>,
    prefix: Seq<Seq<u8>>,
    depth: nat,
    exp: Set<Seq<Seq<u8>>>,
    sel: Set<Seq<Seq<u8>>>,
)
    ensures
        rows_of_list(visible_entries(l, false), prefix, depth, exp, sel, false).len()
            <= rows_of_list(l, prefix, depth, exp, sel, true).len(),
    decreases children_height(l), 0nat, l.len(),
{
    if l.len() == 0 {
    } else {
        let e = l[0];
        let path = prefix.push(e.name@);
        lemma_children_height_drop_first(l);
        lemma_rows_hidden_monotone_list(l.drop_first(), prefix, depth, exp, sel);
        if spec_hidden(e.name@) {
            assert(visible_entries(l, false) == visible_entries(l.drop_first(), false));
            assert(rows_of_list(l, prefix, depth, exp, sel, true).len() >= rows_of_list(
                l.drop_first(),
                prefix,
                depth,
                exp,
                sel,
                true,
            ).len());
        } else {
            assert(visible_entries(l, false) == seq![e] + visible_entries(l.drop_first(), false));
            lemma_rows_of_list_concat(
                seq![e],
                visible_entries(l.drop_first(), false),
                prefix,
                depth,
                exp,
                sel,
                false,
            );
            match e.node {
                FsNode::Dir { children } => {
                    lemma_dir_child_height(l, 0, children@);
                    if exp.contains(path) {
                        lemma_rows_hidden_monotone(children@, path, depth + 1, exp, sel);
                        lemma_visible_all(children@);
                        lemma_rows_len_sort(children@, path, (depth + 1) as nat, exp, sel, true);
                        lemma_rows_len_sort(
                            visible_entries(children@, false),
                            path,
                            (depth + 1) as nat,
                            exp,
                            sel,
                            false,
                        );
                    }
                },
                FsNode::File => {},
            }
            lemma_rows_of_single(e, prefix, depth, exp, sel, false);
            lemma_rows_of_single(e, prefix, depth, exp, sel, true);
        }
    }
}

proof fn lemma_rows_reselect_list(
    l: Seq<FsEntry>,
    prefix: Seq<Seq<u8>>,
    depth: nat,
    exp: Set<Seq<Seq<u8>>>,
    sel1: Set<Seq<Seq<u8>>>,
    sel2: Set<Seq<Seq<u8>>>,
    sh: bool,
)
    ensures
        rows_of_list(l, prefix, depth, exp, sel2, sh) == reselect(
            rows_of_list(l, prefix, depth, exp, sel1, sh),
            sel2,
        ),
    decreases children_height(l), 0nat, l.len(),
{
    if l.len() == 0 {
        assert(rows_of_list(l, prefix, depth, exp, sel2, sh) =~= reselect(
            rows_of_list(l, prefix, depth, exp, sel1, sh),
            sel2,
        ));
    } else {
        let e = l[0];
        let path = prefix.push(e.name@);
        lemma_children_height_drop_first(l);
        lemma_rows_reselect_list(l.drop_first(), prefix, depth, exp, sel1, sel2, sh);
        match e.node {
            FsNode::Dir { children } => {
                lemma_dir_child_height(l, 0, children@);
                if exp.contains(path) {
                    lemma_rows_reselect(children@, path, depth + 1, exp, sel1, sel2, sh);
                }
            },
            FsNode::File => {},
        }
        assert(rows_of_list(l, prefix, depth, exp, sel2, sh) =~= reselect(
            rows_of_list(l, prefix, depth, exp, sel1, sh),
            sel2,
        ));
    }
}

} // verus!
