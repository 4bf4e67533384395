//! The selector controller: an event-driven state machine over a snapshot
//! of the directory tree.  It owns the cursor, the hidden-file flag, the
//! expanded-directory set and the selected-file set, and it keeps the
//! flattened row list consistent with them.
//!
//! Every command takes the current snapshot as an argument: each refresh is
//! a fresh, authoritative read of the tree, handed in by the caller.  The
//! whole effect of a command on the state is the specification function
//! [`sel_step`].

use vstd::prelude::*;
use crate::fs_tree::{
    FsEntry, FileItem, FileItemV, children_height, collect_files_under, files_under, find_dir,
    find_subdir, item_view, items_view, lemma_rows_hidden_monotone, lemma_rows_reselect,
    materialize, reselect, rows_of_dir,
};
use crate::paths::{PathSet, clone_path};

verus! {

/// One user command, as the interaction loop decodes it.
#[derive(Debug, Clone, Copy)]
pub enum InputEvent {
    MoveUp,
    MoveDown,
    Expand,
    Collapse,
    ToggleSelect,
    SelectAll,
    DeselectAll,
    ToggleHidden,
    Confirm,
    Quit,
    Ignored,
}

/// What a dispatched command means for the interaction loop: keep going,
/// or stop with the final selection.
#[derive(Debug)]
pub enum SelectorOutcome {
    Continue,
    Confirmed(Vec<Vec<Vec<u8>>>),
    Cancelled(Vec<Vec<Vec<u8>>>),
}

/// The mathematical state of the selector.
#[verifier::ext_equal]
pub struct SelectorV {
    pub items: Seq<FileItemV>,
    pub cursor: int,
    pub show_hidden: bool,
    pub expanded: Set<Seq<Seq<u8>>>,
    pub selected: Set<Seq<Seq<u8>>>,
}

/// The cursor sits inside the row list: index zero on an empty list, and a
/// valid index otherwise.
pub open spec fn cursor_ok(v: SelectorV) -> bool {
    &&& v.items.len() == 0 ==> v.cursor == 0
    &&& v.items.len() > 0 ==> 0 <= v.cursor < v.items.len()
}

/// The row list is the projection of the snapshot under the state's own
/// sets and flag.
pub open spec fn in_sync(v: SelectorV, snap: Seq<FsEntry>) -> bool {
    v.items == rows_of_dir(snap, Seq::empty(), 0, v.expanded, v.selected, v.show_hidden)
}

/// Clamps a cursor into `[0, max(0, len-1)]`.
pub open spec fn clamp_cursor(c: int, len: int) -> int {
    if len == 0 {
        0
    } else if c < len {
        c
    } else {
        len - 1
    }
}

/// A refresh: re-materialize the rows from the snapshot and re-clamp the
/// cursor.
pub open spec fn refreshed(v: SelectorV, snap: Seq<FsEntry>) -> SelectorV {
    let items = rows_of_dir(snap, Seq::empty(), 0, v.expanded, v.selected, v.show_hidden);
    SelectorV { items: items, cursor: clamp_cursor(v.cursor, items.len() as int), ..v }
}

/// Toggling one file's membership in the selection.
pub open spec fn toggle_one(sel: Set<Seq<Seq<u8>>>, p: Seq<Seq<u8>>) -> Set<Seq<Seq<u8>>> {
    if sel.contains(p) {
        sel.remove(p)
    } else {
        sel.insert(p)
    }
}

/// The files under the directory at `dpath` in the snapshot, in the
/// snapshot's own depth-first order; empty when no such directory exists.
pub open spec fn dir_files_list(snap: Seq<FsEntry>, dpath: Seq<Seq<u8>>, sh: bool) -> Seq<
    Seq<Seq<u8>>,
> {
    match find_dir(snap, dpath) {
        Some(cc) => files_under(cc, dpath, sh),
        None => Seq::empty(),
    }
}

/// The same files as a set.
pub open spec fn dir_files_set(snap: Seq<FsEntry>, dpath: Seq<Seq<u8>>, sh: bool) -> Set<
    Seq<Seq<u8>>,
> {
    dir_files_list(snap, dpath, sh).to_set()
}

/// The directory toggle: when every file under the directory is already
/// selected, deselect exactly those files; otherwise select them all.
pub open spec fn toggle_dir_sel(
    snap: Seq<FsEntry>,
    dpath: Seq<Seq<u8>>,
    sh: bool,
    sel: Set<Seq<Seq<u8>>>,
) -> Set<Seq<Seq<u8>>> {
    let fs = dir_files_set(snap, dpath, sh);
    if fs.subset_of(sel) {
        sel.difference(fs)
    } else {
        sel.union(fs)
    }
}

/// The paths of the file rows of a row list.
pub open spec fn file_paths_of(rows: Seq<FileItemV>) -> Set<Seq<Seq<u8>>> {
    Set::new(
        |p: Seq<Seq<u8>>| exists|i: int| 0 <= i < rows.len() && !rows[i].is_dir && rows[i].path == p,
    )
}

/// The whole effect of one command on the selector state, given the
/// snapshot the command runs against.  Commands that change what is shown
/// end in a refresh; cursor moves and ignored input do not.
pub open spec fn sel_step(v: SelectorV, snap: Seq<FsEntry>, ev: InputEvent) -> SelectorV {
    match ev {
        InputEvent::MoveDown => SelectorV {
            cursor: if v.items.len() > 0 && v.cursor + 1 < v.items.len() {
                v.cursor + 1
            } else {
                v.cursor
            },
            ..v
        },
        InputEvent::MoveUp => SelectorV {
            cursor: if v.cursor > 0 {
                v.cursor - 1
            } else {
                v.cursor
            },
            ..v
        },
        InputEvent::Expand => if 0 <= v.cursor < v.items.len() && v.items[v.cursor].is_dir
            && !v.items[v.cursor].is_expanded {
            refreshed(SelectorV { expanded: v.expanded.insert(v.items[v.cursor].path), ..v }, snap)
        } else {
            v
        },
        InputEvent::Collapse => if 0 <= v.cursor < v.items.len() && v.items[v.cursor].is_dir
            && v.items[v.cursor].is_expanded {
            refreshed(SelectorV { expanded: v.expanded.remove(v.items[v.cursor].path), ..v }, snap)
        } else {
            v
        },
        InputEvent::ToggleSelect => if 0 <= v.cursor < v.items.len() {
            if v.items[v.cursor].is_dir {
                refreshed(
                    SelectorV {
                        selected: toggle_dir_sel(
                            snap,
                            v.items[v.cursor].path,
                            v.show_hidden,
                            v.selected,
                        ),
                        ..v
                    },
                    snap,
                )
            } else {
                refreshed(
                    SelectorV { selected: toggle_one(v.selected, v.items[v.cursor].path), ..v },
                    snap,
                )
            }
        } else {
            v
        },
        InputEvent::SelectAll => refreshed(
            SelectorV { selected: v.selected.union(file_paths_of(v.items)), ..v },
            snap,
        ),
        InputEvent::DeselectAll => refreshed(
            SelectorV { selected: Set::empty(), ..v },
            snap,
        ),
        InputEvent::ToggleHidden => refreshed(
            SelectorV { show_hidden: !v.show_hidden, ..v },
            snap,
        ),
        InputEvent::Confirm => v,
        InputEvent::Quit => v,
        InputEvent::Ignored => v,
    }
}

/// The interactive tree selector.
pub struct FileSelector {
    items: Vec<FileItem>,
    cursor: usize,
    selected_files: PathSet,
    show_hidden: bool,
    expanded_dirs: PathSet,
}

impl View for FileSelector {
    type V = SelectorV;

    closed spec fn view(&self) -> SelectorV {
        SelectorV {
            items: items_view(self.items@),
            cursor: self.cursor as int,
            show_hidden: self.show_hidden,
            expanded: self.expanded_dirs@,
            selected: self.selected_files@,
        }
    }
}

impl FileSelector {
    /// Internal validity: the path sets are duplicate-free and the cursor
    /// sits inside the row list.
    pub closed spec fn wf(&self) -> bool {
        &&& self.selected_files.wf()
        &&& self.expanded_dirs.wf()
        &&& cursor_ok(self@)
    }

    /// A well-formed selector has its cursor in range: zero with no rows,
    /// a valid row index otherwise.
    pub proof fn lemma_cursor_in_range(&self)
        requires
            self.wf(),
        ensures
            cursor_ok(self@),
    {
    }

    /// Re-materializes the rows and re-clamps the cursor.
    fn refresh(&mut self, snap: &Vec<FsEntry>)
        requires
            children_height(snap@) <= usize::MAX,
        ensures
            final(self)@ == refreshed(old(self)@, snap@),
            old(self).selected_files.wf() && old(self).expanded_dirs.wf() ==> final(self).wf(),
    {
        self.items = materialize(snap, &self.expanded_dirs, &self.selected_files, self.show_hidden);
        let len = self.items.len();
        if len == 0 {
            self.cursor = 0;
        } else if self.cursor >= len {
            self.cursor = len - 1;
        }
        proof {
            assert(self@ =~= refreshed(old(self)@, snap@));
        }
    }

    /// A fresh selector over the snapshot: nothing selected, only the base
    /// directory expanded (implicitly), hidden files not shown, cursor on
    /// the first row.
    pub fn new(snap: &Vec<FsEntry>) -> (r: FileSelector)
        requires
            children_height(snap@) <= usize::MAX,
        ensures
            r.wf(),
            r@.cursor == 0,
            r@.show_hidden == false,
            r@.expanded == Set::<Seq<Seq<u8>>>::empty(),
            r@.selected == Set::<Seq<Seq<u8>>>::empty(),
            in_sync(r@, snap@),
    {
        let selected_files = PathSet::new();
        let expanded_dirs = PathSet::new();
        let items = materialize(snap, &expanded_dirs, &selected_files, false);
        FileSelector { items: items, cursor: 0, selected_files: selected_files, show_hidden: false, expanded_dirs: expanded_dirs }
    }

    /// Replaces the selection with the given paths (a loaded prior
    /// selection), then refreshes.
    pub fn set_selections(&mut self, snap: &Vec<FsEntry>, selections: &Vec<Vec<Vec<u8>>>)
        requires
            children_height(snap@) <= usize::MAX,
            old(self).wf(),
        ensures
            final(self).wf(),
            final(self)@ == refreshed(
                SelectorV { selected: selections.deep_view().to_set(), ..old(self)@ },
                snap@,
            ),
    {
        self.selected_files = PathSet::from_vec(selections);
        self.refresh(snap);
        proof {
            assert(self@ =~= refreshed(
                SelectorV { selected: selections.deep_view().to_set(), ..old(self)@ },
                snap@,
            ));
        }
    }

    /// The current rows.
    pub fn items(&self) -> (r: &Vec<FileItem>)
        ensures
            items_view(r@) == self@.items,
    {
        &self.items
    }

    /// The current cursor index.
    pub fn cursor(&self) -> (r: usize)
        ensures
            r as int == self@.cursor,
    {
        self.cursor
    }

    /// Whether hidden entries are shown.
    pub fn show_hidden(&self) -> (r: bool)
        ensures
            r == self@.show_hidden,
    {
        self.show_hidden
    }

    /// How many files are selected.
    pub fn selected_count(&self) -> (r: usize)
        requires
            self.wf(),
        ensures
            r == self@.selected.len(),
    {
        self.selected_files.len()
    }

    /// The selected paths, each exactly once, for the caller to keep or
    /// hand on.
    pub fn selections(&self) -> (r: Vec<Vec<Vec<u8>>>)
        requires
            self.wf(),
        ensures
            r.deep_view().to_set() == self@.selected,
            r.deep_view().no_duplicates(),
    {
        self.selected_files.to_vec()
    }

    /// Moves the cursor one row down; no wrap.
    pub fn move_selection_down(&mut self)
        requires
            old(self).wf(),
        ensures
            final(self).wf(),
            final(self)@ == sel_step(old(self)@, Seq::empty(), InputEvent::MoveDown),
    {
        let len = self.items.len();
        if len > 0 && self.cursor < len - 1 {
            self.cursor = self.cursor + 1;
        }
        proof {
            assert(self@ =~= sel_step(old(self)@, Seq::empty(), InputEvent::MoveDown));
        }
    }

    /// Moves the cursor one row up; no wrap.
    pub fn move_selection_up(&mut self)
        requires
            old(self).wf(),
        ensures
            final(self).wf(),
            final(self)@ == sel_step(old(self)@, Seq::empty(), InputEvent::MoveUp),
    {
        if self.cursor > 0 {
            self.cursor = self.cursor - 1;
        }
        proof {
            assert(self@ =~= sel_step(old(self)@, Seq::empty(), InputEvent::MoveUp));
        }
    }

    /// Expands the directory under the cursor: no effect unless the cursor
    /// sits on a collapsed directory row.
    pub fn expand_current_directory(&mut self, snap: &Vec<FsEntry>)
        requires
            old(self).wf(),
            children_height(snap@) <= usize::MAX,
        ensures
            final(self).wf(),
            final(self)@ == sel_step(old(self)@, snap@, InputEvent::Expand),
    {
        if self.items.len() == 0 {
            proof {
                assert(self@ =~= sel_step(old(self)@, snap@, InputEvent::Expand));
            }
            return;
        }
        let is_dir = self.items[self.cursor].is_dir;
        let is_expanded = self.items[self.cursor].is_expanded;
        if is_dir && !is_expanded {
            let path = clone_path(&self.items[self.cursor].path);
            self.expanded_dirs.insert(path);
            self.refresh(snap);
            proof {
                assert(self@ =~= sel_step(old(self)@, snap@, InputEvent::Expand));
            }
        } else {
            proof {
                assert(self@ =~= sel_step(old(self)@, snap@, InputEvent::Expand));
            }
        }
    }

    /// Collapses the directory under the cursor: no effect unless the
    /// cursor sits on an expanded directory row.  Only the directory's own
    /// path leaves the expanded set; its descendants simply stop being
    /// materialized.
    pub fn collapse_current_directory(&mut self, snap: &Vec<FsEntry>)
        requires
            old(self).wf(),
            children_height(snap@) <= usize::MAX,
        ensures
            final(self).wf(),
            final(self)@ == sel_step(old(self)@, snap@, InputEvent::Collapse),
    {
        if self.items.len() == 0 {
            proof {
                assert(self@ =~= sel_step(old(self)@, snap@, InputEvent::Collapse));
            }
            return;
        }
        let is_dir = self.items[self.cursor].is_dir;
        let is_expanded = self.items[self.cursor].is_expanded;
        if is_dir && is_expanded {
            let path = clone_path(&self.items[self.cursor].path);
            self.expanded_dirs.remove(&path);
            self.refresh(snap);
            proof {
                assert(self@ =~= sel_step(old(self)@, snap@, InputEvent::Collapse));
            }
        } else {
            proof {
                assert(self@ =~= sel_step(old(self)@, snap@, InputEvent::Collapse));
            }
        }
    }

    /// All file paths under the given directory of the snapshot, hidden
    /// entries filtered by the current flag, whether or not the directory
    /// is expanded.
    pub fn get_all_files_in_directory(&self, snap: &Vec<FsEntry>, dir_path: &Vec<Vec<u8>>) -> (r:
        Vec<Vec<Vec<u8>>>)
        ensures
            r.deep_view() == dir_files_list(snap@, dir_path.deep_view(), self@.show_hidden),
    {
        match find_subdir(snap, dir_path) {
            Some(cc) => {
                let mut out: Vec<Vec<Vec<u8>>> = Vec::new();
                proof {
                    assert(out.deep_view() =~= Seq::<Seq<Seq<u8>>>::empty());
                }
                collect_files_under(cc, dir_path, self.show_hidden, &mut out);
                proof {
                    assert(out.deep_view() =~= dir_files_list(
                        snap@,
                        dir_path.deep_view(),
                        self@.show_hidden,
                    ));
                }
                out
            },
            None => {
                let out: Vec<Vec<Vec<u8>>> = Vec::new();
                proof {
                    assert(out.deep_view() =~= dir_files_list(
                        snap@,
                        dir_path.deep_view(),
                        self@.show_hidden,
                    ));
                }
                out
            },
        }
    }
}

/// A set made of a sequence's members contains exactly what some index
/// holds; when every member is in `sel`, the whole set is.
proof fn lemma_all_contained(fl: Seq<Seq<Seq<u8>>>, sel: Set<Seq<Seq<u8>>>)
    requires
        forall|k: int| 0 <= k < fl.len() ==> sel.contains(#[trigger] fl[k]),
    ensures
        fl.to_set().subset_of(sel),
{
    assert forall|p: Seq<Seq<u8>>| fl.to_set().contains(p) implies sel.contains(p) by {
        let k = choose|k: int| 0 <= k < fl.len() && fl[k] == p;
        assert(sel.contains(fl[k]));
    }
}

/// Extending a taken prefix by one element adds exactly that element to
/// the prefix's member set.
proof fn lemma_take_to_set_step(s: Seq<Seq<Seq<u8>>>, i: int)
    requires
        0 <= i < s.len(),
    ensures
        s.take(i + 1).to_set() == s.take(i).to_set().insert(s[i]),
{
    let a = s.take(i + 1).to_set();
    let b = s.take(i).to_set().insert(s[i]);
    let t1 = s.take(i + 1);
    assert forall|p: Seq<Seq<u8>>| a.contains(p) implies b.contains(p) by {
        let k = choose|k: int| 0 <= k < t1.len() && t1[k] == p;
        if k < i {
            assert(s.take(i)[k] == p);
            assert(s.take(i).contains(p));
        } else {
            assert(s[i] == p);
        }
    }
    assert forall|p: Seq<Seq<u8>>| b.contains(p) implies a.contains(p) by {
        if s.take(i).to_set().contains(p) {
            let t0 = s.take(i);
            let k = choose|k: int| 0 <= k < t0.len() && t0[k] == p;
            assert(s.take(i + 1)[k] == p);
        } else {
            assert(s.take(i + 1)[i] == p);
        }
    }
    assert(a =~= b);
}

impl FileSelector {
    /// The directory toggle: collects every file under the directory (the
    /// true subtree, not only the visible part), and either selects them
    /// all, or, when all of them were already selected, deselects exactly
    /// them.
    pub fn select_directory_files(&mut self, snap: &Vec<FsEntry>, dir_path: &Vec<Vec<u8>>)
        requires
            old(self).wf(),
            children_height(snap@) <= usize::MAX,
        ensures
            final(self).wf(),
            final(self)@ == refreshed(
                SelectorV {
                    selected: toggle_dir_sel(
                        snap@,
                        dir_path.deep_view(),
                        old(self)@.show_hidden,
                        old(self)@.selected,
                    ),
                    ..old(self)@
                },
                snap@,
            ),
    {
        let files = self.get_all_files_in_directory(snap, dir_path);
        let ghost fl = files.deep_view();
        let ghost fset = dir_files_set(snap@, dir_path.deep_view(), old(self)@.show_hidden);
        proof {
            assert(fset == fl.to_set());
        }
        let mut all_selected = true;
        let mut i: usize = 0;
        while i < files.len()
            invariant
                i <= files.len(),
                self == old(self),
                old(self).wf(),
                fl == files.deep_view(),
                all_selected == (forall|k: int|
                    0 <= k < i ==> old(self)@.selected.contains(#[trigger] fl[k])),
            decreases files.len() - i,
        {
            if !self.selected_files.contains(&files[i]) {
                proof {
                    assert(fl[i as int] == files@[i as int].deep_view());
                }
                all_selected = false;
            }
            proof {
                assert(fl[i as int] == files@[i as int].deep_view());
            }
            i = i + 1;
        }
        proof {
            if all_selected {
                lemma_all_contained(fl, old(self)@.selected);
            } else {
                let k = choose|k: int|
                    0 <= k < fl.len() && !old(self)@.selected.contains(#[trigger] fl[k]);
                assert(fl.to_set().contains(fl[k]));
                assert(!fset.subset_of(old(self)@.selected));
            }
        }
        if all_selected {
            let mut j: usize = 0;
            proof {
                assert(fl.take(0).to_set() =~= Set::<Seq<Seq<u8>>>::empty());
                assert(self.selected_files@ =~= old(self)@.selected.difference(
                    fl.take(0).to_set(),
                ));
            }
            while j < files.len()
                invariant
                    j <= files.len(),
                    fl == files.deep_view(),
                    self.items == old(self).items,
                    self.cursor == old(self).cursor,
                    self.show_hidden == old(self).show_hidden,
                    self.expanded_dirs == old(self).expanded_dirs,
                    self.selected_files.wf(),
                    old(self).wf(),
                    self.selected_files@ == old(self)@.selected.difference(
                        fl.take(j as int).to_set(),
                    ),
                decreases files.len() - j,
            {
                proof {
                    assert(fl[j as int] == files@[j as int].deep_view());
                }
                self.selected_files.remove(&files[j]);
                proof {
                    lemma_take_to_set_step(fl, j as int);
                    assert(self.selected_files@ =~= old(self)@.selected.difference(
                        fl.take(j as int + 1).to_set(),
                    ));
                }
                j = j + 1;
            }
            proof {
                assert(fl.take(fl.len() as int) =~= fl);
            }
        } else {
            let mut j: usize = 0;
            proof {
                assert(fl.take(0).to_set() =~= Set::<Seq<Seq<u8>>>::empty());
                assert(self.selected_files@ =~= old(self)@.selected.union(fl.take(0).to_set()));
            }
            while j < files.len()
                invariant
                    j <= files.len(),
                    fl == files.deep_view(),
                    self.items == old(self).items,
                    self.cursor == old(self).cursor,
                    self.show_hidden == old(self).show_hidden,
                    self.expanded_dirs == old(self).expanded_dirs,
                    self.selected_files.wf(),
                    old(self).wf(),
                    self.selected_files@ == old(self)@.selected.union(fl.take(j as int).to_set()),
                decreases files.len() - j,
            {
                let p = clone_path(&files[j]);
                proof {
                    assert(p.deep_view() == fl[j as int]);
                }
                self.selected_files.insert(p);
                proof {
                    lemma_take_to_set_step(fl, j as int);
                    assert(self.selected_files@ =~= old(self)@.selected.union(
                        fl.take(j as int + 1).to_set(),
                    ));
                }
                j = j + 1;
            }
            proof {
                assert(fl.take(fl.len() as int) =~= fl);
            }
        }
        self.refresh(snap);
        proof {
            assert(self@ =~= refreshed(
                SelectorV {
                    selected: toggle_dir_sel(
                        snap@,
                        dir_path.deep_view(),
                        old(self)@.show_hidden,
                        old(self)@.selected,
                    ),
                    ..old(self)@
                },
                snap@,
            ));
        }
    }

    /// Toggles the row under the cursor: a file's selection flips; a
    /// directory acts as the bulk toggle over its subtree.  No effect on an
    /// empty row list.
    pub fn toggle_selection(&mut self, snap: &Vec<FsEntry>)
        requires
            old(self).wf(),
            children_height(snap@) <= usize::MAX,
        ensures
            final(self).wf(),
            final(self)@ == sel_step(old(self)@, snap@, InputEvent::ToggleSelect),
    {
        if self.items.len() == 0 {
            proof {
                assert(self@ =~= sel_step(old(self)@, snap@, InputEvent::ToggleSelect));
            }
            return;
        }
        let is_dir = self.items[self.cursor].is_dir;
        let path = clone_path(&self.items[self.cursor].path);
        proof {
            assert(path.deep_view() == old(self)@.items[old(self)@.cursor].path);
        }
        if is_dir {
            self.select_directory_files(snap, &path);
            proof {
                assert(self@ =~= sel_step(old(self)@, snap@, InputEvent::ToggleSelect));
            }
        } else {
            if self.selected_files.contains(&path) {
                self.selected_files.remove(&path);
            } else {
                self.selected_files.insert(path);
            }
            self.refresh(snap);
            proof {
                assert(self@ =~= sel_step(old(self)@, snap@, InputEvent::ToggleSelect));
            }
        }
    }

    /// Selects every file currently visible in the row list (not the full
    /// tree).
    pub fn select_all_files(&mut self, snap: &Vec<FsEntry>)
        requires
            old(self).wf(),
            children_height(snap@) <= usize::MAX,
        ensures
            final(self).wf(),
            final(self)@ == sel_step(old(self)@, snap@, InputEvent::SelectAll),
    {
        let n = self.items.len();
        let mut i: usize = 0;
        proof {
            assert(self.selected_files@ =~= old(self)@.selected.union(
                file_paths_of(old(self)@.items.take(0)),
            ));
        }
        while i < n
            invariant
                i <= n,
                n == self.items.len(),
                self.items == old(self).items,
                self.cursor == old(self).cursor,
                self.show_hidden == old(self).show_hidden,
                self.expanded_dirs == old(self).expanded_dirs,
                self.selected_files.wf(),
                old(self).wf(),
                self.selected_files@ == old(self)@.selected.union(
                    file_paths_of(old(self)@.items.take(i as int)),
                ),
            decreases n - i,
        {
            let ghost rows = old(self)@.items;
            proof {
                assert(rows[i as int] == item_view(self.items@[i as int]));
            }
            if !self.items[i].is_dir {
                let p = clone_path(&self.items[i].path);
                proof {
                    assert(p.deep_view() == rows[i as int].path);
                }
                self.selected_files.insert(p);
            }
            proof {
                lemma_file_paths_take_step(rows, i as int);
                assert(self.selected_files@ =~= old(self)@.selected.union(
                    file_paths_of(rows.take(i as int + 1)),
                ));
            }
            i = i + 1;
        }
        proof {
            assert(old(self)@.items.take(n as int) =~= old(self)@.items);
        }
        self.refresh(snap);
        proof {
            assert(self@ =~= sel_step(old(self)@, snap@, InputEvent::SelectAll));
        }
    }

    /// Empties the selection.
    pub fn deselect_all(&mut self, snap: &Vec<FsEntry>)
        requires
            old(self).wf(),
            children_height(snap@) <= usize::MAX,
        ensures
            final(self).wf(),
            final(self)@ == sel_step(old(self)@, snap@, InputEvent::DeselectAll),
    {
        self.selected_files.clear();
        self.refresh(snap);
        proof {
            assert(self@ =~= sel_step(old(self)@, snap@, InputEvent::DeselectAll));
        }
    }

    /// Flips whether hidden entries are shown.
    pub fn toggle_show_hidden(&mut self, snap: &Vec<FsEntry>)
        requires
            old(self).wf(),
            children_height(snap@) <= usize::MAX,
        ensures
            final(self).wf(),
            final(self)@ == sel_step(old(self)@, snap@, InputEvent::ToggleHidden),
    {
        self.show_hidden = !self.show_hidden;
        self.refresh(snap);
        proof {
            assert(self@ =~= sel_step(old(self)@, snap@, InputEvent::ToggleHidden));
        }
    }

    /// Dispatches one command against the given snapshot.  The state
    /// changes exactly as `sel_step` says; `Confirm` and `Quit` end the
    /// session, handing out the selection as it stands.
    pub fn handle_event(&mut self, snap: &Vec<FsEntry>, ev: InputEvent) -> (r: SelectorOutcome)
        requires
            old(self).wf(),
            children_height(snap@) <= usize::MAX,
        ensures
            final(self).wf(),
            cursor_ok(final(self)@),
            final(self)@ == sel_step(old(self)@, snap@, ev),
            match r {
                SelectorOutcome::Continue => !(ev is Confirm) && !(ev is Quit),
                SelectorOutcome::Confirmed(s) => ev is Confirm && s.deep_view().to_set()
                    == final(self)@.selected && s.deep_view().no_duplicates(),
                SelectorOutcome::Cancelled(s) => ev is Quit && s.deep_view().to_set()
                    == final(self)@.selected && s.deep_view().no_duplicates(),
            },
    {
        match ev {
            InputEvent::MoveDown => {
                self.move_selection_down();
                SelectorOutcome::Continue
            },
            InputEvent::MoveUp => {
                self.move_selection_up();
                SelectorOutcome::Continue
            },
            InputEvent::Expand => {
                self.expand_current_directory(snap);
                SelectorOutcome::Continue
            },
            InputEvent::Collapse => {
                self.collapse_current_directory(snap);
                SelectorOutcome::Continue
            },
            InputEvent::ToggleSelect => {
                self.toggle_selection(snap);
                SelectorOutcome::Continue
            },
            InputEvent::SelectAll => {
                self.select_all_files(snap);
                SelectorOutcome::Continue
            },
            InputEvent::DeselectAll => {
                self.deselect_all(snap);
                SelectorOutcome::Continue
            },
            InputEvent::ToggleHidden => {
                self.toggle_show_hidden(snap);
                SelectorOutcome::Continue
            },
            InputEvent::Confirm => SelectorOutcome::Confirmed(self.selections()),
            InputEvent::Quit => SelectorOutcome::Cancelled(self.selections()),
            InputEvent::Ignored => SelectorOutcome::Continue,
        }
    }
}

/// Law: toggling a file row twice returns the selection set to its
/// original value — the double toggle is the identity on the selection.
pub proof fn lemma_toggle_file_twice(v: SelectorV, snap: Seq<FsEntry>)
    requires
        cursor_ok(v),
        in_sync(v, snap),
        v.items.len() > 0,
        !v.items[v.cursor].is_dir,
    ensures
        sel_step(sel_step(v, snap, InputEvent::ToggleSelect), snap, InputEvent::ToggleSelect)
            .selected == v.selected,
{
    let p = v.items[v.cursor].path;
    let sel1 = toggle_one(v.selected, p);
    let s1 = sel_step(v, snap, InputEvent::ToggleSelect);
    lemma_rows_reselect(snap, Seq::empty(), 0, v.expanded, v.selected, sel1, v.show_hidden);
    assert(s1.items == reselect(v.items, sel1));
    assert(s1.items.len() == v.items.len());
    assert(s1.cursor == v.cursor);
    assert(s1.items[s1.cursor].path == p && !s1.items[s1.cursor].is_dir);
    let s2 = sel_step(s1, snap, InputEvent::ToggleSelect);
    assert(s2.selected == toggle_one(sel1, p));
    if v.selected.contains(p) {
        assert(!sel1.contains(p));
        assert(toggle_one(sel1, p) =~= v.selected);
    } else {
        assert(sel1.contains(p));
        assert(toggle_one(sel1, p) =~= v.selected);
    }
}

/// Law: the directory toggle is symmetric.  Toggling the same directory
/// row twice deselects everything the first toggle selected; when the
/// first toggle was a bulk deselect, the second restores the selection
/// exactly, and when it was a bulk select, the second leaves the selection
/// without any of the directory's files.
pub proof fn lemma_toggle_dir_twice(v: SelectorV, snap: Seq<FsEntry>)
    requires
        cursor_ok(v),
        in_sync(v, snap),
        v.items.len() > 0,
        v.items[v.cursor].is_dir,
    ensures
        ({
            let p = v.items[v.cursor].path;
            let fs = dir_files_set(snap, p, v.show_hidden);
            let s1 = sel_step(v, snap, InputEvent::ToggleSelect);
            let s2 = sel_step(s1, snap, InputEvent::ToggleSelect);
            &&& s2.selected.disjoint(s1.selected.difference(v.selected))
            &&& (fs.subset_of(v.selected) ==> s2.selected == v.selected)
            &&& (!fs.subset_of(v.selected) ==> s2.selected == v.selected.difference(fs))
        }),
{
    let p = v.items[v.cursor].path;
    let fs = dir_files_set(snap, p, v.show_hidden);
    let sel1 = toggle_dir_sel(snap, p, v.show_hidden, v.selected);
    let s1 = sel_step(v, snap, InputEvent::ToggleSelect);
    lemma_rows_reselect(snap, Seq::empty(), 0, v.expanded, v.selected, sel1, v.show_hidden);
    assert(s1.items == reselect(v.items, sel1));
    assert(s1.items.len() == v.items.len());
    assert(s1.cursor == v.cursor);
    assert(s1.items[s1.cursor].path == p && s1.items[s1.cursor].is_dir);
    assert(s1.show_hidden == v.show_hidden);
    let s2 = sel_step(s1, snap, InputEvent::ToggleSelect);
    assert(s2.selected == toggle_dir_sel(snap, p, v.show_hidden, sel1));
    if fs.subset_of(v.selected) {
        assert(sel1 == v.selected.difference(fs));
        assert(s1.selected.difference(v.selected) =~= Set::<Seq<Seq<u8>>>::empty());
        if fs.subset_of(sel1) {
            // only possible when the directory holds no files at all
            assert forall|x: Seq<Seq<u8>>| fs.contains(x) implies false by {
                assert(sel1.contains(x));
            }
            assert(s2.selected == sel1.difference(fs));
            assert(s2.selected =~= v.selected);
        } else {
            assert(s2.selected == sel1.union(fs));
            assert(s2.selected =~= v.selected);
        }
    } else {
        assert(sel1 == v.selected.union(fs));
        assert(fs.subset_of(sel1));
        assert(s2.selected == sel1.difference(fs));
        assert(s2.selected =~= v.selected.difference(fs));
        assert(s2.selected.disjoint(s1.selected.difference(v.selected))) by {
            assert forall|x: Seq<Seq<u8>>|
                s2.selected.contains(x) && s1.selected.difference(v.selected).contains(
                    x,
                ) implies false by {
                assert(fs.contains(x));
            }
        }
    }
}

/// Law: hidden-file filtering is reversible and complete.  From a state in
/// sync with the snapshot and not showing hidden entries, toggling the
/// flag on and then off restores the rows, the cursor (hence the
/// cursor-addressed row), and every other part of the state.
pub proof fn lemma_toggle_hidden_twice(v: SelectorV, snap: Seq<FsEntry>)
    requires
        cursor_ok(v),
        in_sync(v, snap),
        v.show_hidden == false,
    ensures
        sel_step(sel_step(v, snap, InputEvent::ToggleHidden), snap, InputEvent::ToggleHidden)
            =~= v,
{
    let s1 = sel_step(v, snap, InputEvent::ToggleHidden);
    lemma_rows_hidden_monotone(snap, Seq::empty(), 0, v.expanded, v.selected);
    assert(s1.items.len() >= v.items.len());
    assert(s1.cursor == v.cursor);
    let s2 = sel_step(s1, snap, InputEvent::ToggleHidden);
    assert(s2.items == v.items);
    assert(s2.cursor == v.cursor);
}

/// Extending a row prefix by one row adds that row's path to the set of
/// file paths exactly when the row is a file row.
proof fn lemma_file_paths_take_step(rows: Seq<FileItemV>, i: int)
    requires
        0 <= i < rows.len(),
    ensures
        file_paths_of(rows.take(i + 1)) == (if !rows[i].is_dir {
            file_paths_of(rows.take(i)).insert(rows[i].path)
        } else {
            file_paths_of(rows.take(i))
        }),
{
    let a = file_paths_of(rows.take(i + 1));
    let b = if !rows[i].is_dir {
        file_paths_of(rows.take(i)).insert(rows[i].path)
    } else {
        file_paths_of(rows.take(i))
    };
    let t1 = rows.take(i + 1);
    assert forall|p: Seq<Seq<u8>>| a.contains(p) implies b.contains(p) by {
        let k = choose|k: int| 0 <= k < t1.len() && !t1[k].is_dir && t1[k].path == p;
        if k < i {
            assert(rows.take(i)[k] == rows[k]);
            assert(file_paths_of(rows.take(i)).contains(p));
        }
    }
    assert forall|p: Seq<Seq<u8>>| b.contains(p) implies a.contains(p) by {
        if file_paths_of(rows.take(i)).contains(p) {
            let t0 = rows.take(i);
            let k = choose|k: int| 0 <= k < t0.len() && !t0[k].is_dir && t0[k].path == p;
            assert(rows.take(i + 1)[k] == rows[k]);
        } else {
            assert(!rows[i].is_dir && rows[i].path == p);
            assert(rows.take(i + 1)[i] == rows[i]);
        }
    }
    assert(a =~= b);
}

} // verus!
