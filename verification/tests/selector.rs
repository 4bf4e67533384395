use tree_txt::{FileSelector, FsEntry, FsNode, InputEvent, SelectorOutcome};

fn file(name: &str) -> FsEntry {
    FsEntry { name: name.as_bytes().to_vec(), node: FsNode::File }
}

fn dir(name: &str, children: Vec<FsEntry>) -> FsEntry {
    FsEntry { name: name.as_bytes().to_vec(), node: FsNode::Dir { children } }
}

fn path(components: &[&str]) -> Vec<Vec<u8>> {
    components.iter().map(|c| c.as_bytes().to_vec()).collect()
}

/// The scenario snapshot: `a/` holding `x.txt` and `y.txt`, beside `b.txt`.
fn scenario_snapshot() -> Vec<FsEntry> {
    vec![dir("a", vec![file("x.txt"), file("y.txt")]), file("b.txt")]
}

fn row_names(sel: &FileSelector) -> Vec<String> {
    sel.items()
        .iter()
        .map(|it| String::from_utf8(it.name.clone()).unwrap())
        .collect()
}

fn sorted_selections(sel: &FileSelector) -> Vec<Vec<Vec<u8>>> {
    let mut s = sel.selections();
    s.sort();
    s
}

#[test]
fn initial_rows_root_expanded_only() {
    let snap = scenario_snapshot();
    let sel = FileSelector::new(&snap);
    assert_eq!(row_names(&sel), vec!["a", "b.txt"]);
    assert!(sel.items()[0].is_dir);
    assert!(!sel.items()[0].is_expanded);
    assert!(!sel.items()[1].is_dir);
    assert_eq!(sel.cursor(), 0);
    assert_eq!(sel.selected_count(), 0);
}

#[test]
fn expand_then_toggle_directory_selects_its_files() {
    let snap = scenario_snapshot();
    let mut sel = FileSelector::new(&snap);
    // cursor starts on `a`
    let r = sel.handle_event(&snap, InputEvent::Expand);
    assert!(matches!(r, SelectorOutcome::Continue));
    assert_eq!(row_names(&sel), vec!["a", "x.txt", "y.txt", "b.txt"]);
    assert!(sel.items()[0].is_expanded);
    // toggle-select on the directory row selects its two files
    sel.handle_event(&snap, InputEvent::ToggleSelect);
    assert_eq!(sel.selected_count(), 2);
    let got = sorted_selections(&sel);
    assert_eq!(got, vec![path(&["a", "x.txt"]), path(&["a", "y.txt"])]);
    // confirm hands out exactly that set
    match sel.handle_event(&snap, InputEvent::Confirm) {
        SelectorOutcome::Confirmed(mut s) => {
            s.sort();
            assert_eq!(s, vec![path(&["a", "x.txt"]), path(&["a", "y.txt"])]);
        }
        _ => panic!("expected Confirmed"),
    }
}

#[test]
fn deselect_all_then_confirm_returns_empty_set() {
    let snap = scenario_snapshot();
    let mut sel = FileSelector::new(&snap);
    // move to `b.txt` and select it
    sel.handle_event(&snap, InputEvent::MoveDown);
    sel.handle_event(&snap, InputEvent::ToggleSelect);
    assert_eq!(sel.selected_count(), 1);
    sel.handle_event(&snap, InputEvent::DeselectAll);
    assert_eq!(sel.selected_count(), 0);
    match sel.handle_event(&snap, InputEvent::Confirm) {
        SelectorOutcome::Confirmed(s) => assert!(s.is_empty()),
        _ => panic!("expected Confirmed"),
    }
}

#[test]
fn double_toggle_of_a_file_restores_the_selection() {
    let snap = scenario_snapshot();
    let mut sel = FileSelector::new(&snap);
    sel.handle_event(&snap, InputEvent::MoveDown);
    sel.handle_event(&snap, InputEvent::ToggleSelect);
    assert_eq!(sel.selected_count(), 1);
    assert!(sel.items()[1].is_selected);
    sel.handle_event(&snap, InputEvent::ToggleSelect);
    assert_eq!(sel.selected_count(), 0);
    assert!(!sel.items()[1].is_selected);
}

#[test]
fn double_toggle_of_a_directory_deselects_what_it_selected() {
    let snap = scenario_snapshot();
    let mut sel = FileSelector::new(&snap);
    sel.handle_event(&snap, InputEvent::ToggleSelect);
    assert_eq!(sel.selected_count(), 2);
    sel.handle_event(&snap, InputEvent::ToggleSelect);
    assert_eq!(sel.selected_count(), 0);
}

#[test]
fn directory_toggle_acts_on_the_whole_subtree_even_when_collapsed() {
    let snap = scenario_snapshot();
    let mut sel = FileSelector::new(&snap);
    // `a` stays collapsed; toggling it still selects both files under it
    sel.handle_event(&snap, InputEvent::ToggleSelect);
    let got = sorted_selections(&sel);
    assert_eq!(got, vec![path(&["a", "x.txt"]), path(&["a", "y.txt"])]);
}

#[test]
fn collapse_removes_child_rows() {
    let snap = scenario_snapshot();
    let mut sel = FileSelector::new(&snap);
    sel.handle_event(&snap, InputEvent::Expand);
    assert_eq!(row_names(&sel).len(), 4);
    sel.handle_event(&snap, InputEvent::Collapse);
    assert_eq!(row_names(&sel), vec!["a", "b.txt"]);
}

#[test]
fn cursor_is_clamped_and_never_wraps() {
    let snap = scenario_snapshot();
    let mut sel = FileSelector::new(&snap);
    sel.handle_event(&snap, InputEvent::MoveUp);
    assert_eq!(sel.cursor(), 0);
    sel.handle_event(&snap, InputEvent::MoveDown);
    sel.handle_event(&snap, InputEvent::MoveDown);
    sel.handle_event(&snap, InputEvent::MoveDown);
    assert_eq!(sel.cursor(), 1);
    // collapsing from the last row clamps back inside the shorter list
    let mut sel2 = FileSelector::new(&snap);
    sel2.handle_event(&snap, InputEvent::Expand);
    sel2.handle_event(&snap, InputEvent::MoveDown);
    sel2.handle_event(&snap, InputEvent::MoveDown);
    sel2.handle_event(&snap, InputEvent::MoveDown);
    assert_eq!(sel2.cursor(), 3);
    // move back up to `a` and collapse: only two rows remain
    sel2.handle_event(&snap, InputEvent::MoveUp);
    sel2.handle_event(&snap, InputEvent::MoveUp);
    sel2.handle_event(&snap, InputEvent::MoveUp);
    sel2.handle_event(&snap, InputEvent::Collapse);
    assert_eq!(row_names(&sel2).len(), 2);
    assert_eq!(sel2.cursor(), 0);
}

#[test]
fn empty_tree_has_cursor_zero_and_no_command_panics() {
    let snap: Vec<FsEntry> = Vec::new();
    let mut sel = FileSelector::new(&snap);
    assert_eq!(sel.items().len(), 0);
    assert_eq!(sel.cursor(), 0);
    for ev in [
        InputEvent::MoveUp,
        InputEvent::MoveDown,
        InputEvent::Expand,
        InputEvent::Collapse,
        InputEvent::ToggleSelect,
        InputEvent::SelectAll,
        InputEvent::DeselectAll,
        InputEvent::ToggleHidden,
        InputEvent::Ignored,
    ] {
        sel.handle_event(&snap, ev);
        assert_eq!(sel.cursor(), 0);
    }
    match sel.handle_event(&snap, InputEvent::Quit) {
        SelectorOutcome::Cancelled(s) => assert!(s.is_empty()),
        _ => panic!("expected Cancelled"),
    }
}

#[test]
fn rows_sort_directories_first_then_alphabetically() {
    let snap = vec![
        file("zzz.txt"),
        dir("zdir", vec![]),
        file("aaa.txt"),
        dir("adir", vec![]),
    ];
    let sel = FileSelector::new(&snap);
    assert_eq!(row_names(&sel), vec!["adir", "zdir", "aaa.txt", "zzz.txt"]);
}

#[test]
fn hidden_files_are_filtered_and_toggling_twice_restores_rows_and_cursor() {
    let snap = vec![file(".hidden"), file("shown.txt"), dir(".git", vec![file("cfg")])];
    let mut sel = FileSelector::new(&snap);
    assert_eq!(row_names(&sel), vec!["shown.txt"]);
    assert!(!sel.show_hidden());
    sel.handle_event(&snap, InputEvent::ToggleHidden);
    assert!(sel.show_hidden());
    assert_eq!(row_names(&sel), vec![".git", ".hidden", "shown.txt"]);
    sel.handle_event(&snap, InputEvent::ToggleHidden);
    assert_eq!(row_names(&sel), vec!["shown.txt"]);
    assert_eq!(sel.cursor(), 0);
}

#[test]
fn select_all_selects_only_visible_files() {
    let snap = scenario_snapshot();
    let mut sel = FileSelector::new(&snap);
    // `a` collapsed: only `b.txt` is a visible file
    sel.handle_event(&snap, InputEvent::SelectAll);
    assert_eq!(sorted_selections(&sel), vec![path(&["b.txt"])]);
    sel.handle_event(&snap, InputEvent::DeselectAll);
    sel.handle_event(&snap, InputEvent::Expand);
    sel.handle_event(&snap, InputEvent::SelectAll);
    assert_eq!(
        sorted_selections(&sel),
        vec![path(&["a", "x.txt"]), path(&["a", "y.txt"]), path(&["b.txt"])]
    );
}

#[test]
fn directory_toggle_respects_the_hidden_flag() {
    let snap = vec![dir("d", vec![file(".secret"), file("open.txt")])];
    let mut sel = FileSelector::new(&snap);
    sel.handle_event(&snap, InputEvent::ToggleSelect);
    assert_eq!(sorted_selections(&sel), vec![path(&["d", "open.txt"])]);
    sel.handle_event(&snap, InputEvent::DeselectAll);
    sel.handle_event(&snap, InputEvent::ToggleHidden);
    sel.handle_event(&snap, InputEvent::ToggleSelect);
    assert_eq!(
        sorted_selections(&sel),
        vec![path(&["d", ".secret"]), path(&["d", "open.txt"])]
    );
}

#[test]
fn set_selections_marks_the_loaded_rows() {
    let snap = scenario_snapshot();
    let mut sel = FileSelector::new(&snap);
    let loaded = vec![path(&["b.txt"]), path(&["b.txt"])];
    sel.set_selections(&snap, &loaded);
    // duplicates collapse into a set
    assert_eq!(sel.selected_count(), 1);
    assert!(sel.items()[1].is_selected);
    assert!(!sel.items()[0].is_selected);
}

#[test]
fn collapsing_a_parent_keeps_the_childs_expansion_for_later() {
    let snap = vec![dir("a", vec![dir("b", vec![file("c.txt")])])];
    let mut sel = FileSelector::new(&snap);
    sel.handle_event(&snap, InputEvent::Expand);
    sel.handle_event(&snap, InputEvent::MoveDown);
    sel.handle_event(&snap, InputEvent::Expand);
    assert_eq!(row_names(&sel), vec!["a", "b", "c.txt"]);
    sel.handle_event(&snap, InputEvent::MoveUp);
    sel.handle_event(&snap, InputEvent::Collapse);
    assert_eq!(row_names(&sel), vec!["a"]);
    // only `a` left the expanded set; `b` is still remembered as open
    sel.handle_event(&snap, InputEvent::Expand);
    assert_eq!(row_names(&sel), vec!["a", "b", "c.txt"]);
}

#[test]
fn toggling_an_empty_directory_changes_nothing() {
    let snap = vec![dir("empty", vec![]), file("f.txt")];
    let mut sel = FileSelector::new(&snap);
    sel.handle_event(&snap, InputEvent::MoveDown);
    sel.handle_event(&snap, InputEvent::ToggleSelect);
    sel.handle_event(&snap, InputEvent::MoveUp);
    sel.handle_event(&snap, InputEvent::ToggleSelect);
    // the empty directory contributed nothing, f.txt stays selected
    assert_eq!(sorted_selections(&sel), vec![path(&["f.txt"])]);
    sel.handle_event(&snap, InputEvent::ToggleSelect);
    assert_eq!(sorted_selections(&sel), vec![path(&["f.txt"])]);
}

#[test]
fn hidden_double_toggle_restores_the_cursor_addressed_row() {
    let snap = vec![file(".early"), file("mid.txt"), file("late.txt")];
    let mut sel = FileSelector::new(&snap);
    // move the cursor onto `mid.txt`
    sel.handle_event(&snap, InputEvent::MoveDown);
    let before = sel.items()[sel.cursor()].path.clone();
    assert_eq!(before, path(&["mid.txt"]));
    sel.handle_event(&snap, InputEvent::ToggleHidden);
    sel.handle_event(&snap, InputEvent::ToggleHidden);
    let after = sel.items()[sel.cursor()].path.clone();
    assert_eq!(after, before);
}

#[test]
fn deep_nesting_expands_level_by_level() {
    let snap = vec![dir("a", vec![dir("b", vec![file("c.txt")])])];
    let mut sel = FileSelector::new(&snap);
    sel.handle_event(&snap, InputEvent::Expand);
    assert_eq!(row_names(&sel), vec!["a", "b"]);
    assert_eq!(sel.items()[1].depth, 1);
    sel.handle_event(&snap, InputEvent::MoveDown);
    sel.handle_event(&snap, InputEvent::Expand);
    assert_eq!(row_names(&sel), vec!["a", "b", "c.txt"]);
    assert_eq!(sel.items()[2].depth, 2);
    assert_eq!(sel.items()[2].path, path(&["a", "b", "c.txt"]));
}
