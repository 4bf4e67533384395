use tree_txt::PathSet;

fn path(components: &[&str]) -> Vec<Vec<u8>> {
    components.iter().map(|c| c.as_bytes().to_vec()).collect()
}

#[test]
fn insert_contains_remove() {
    let mut s = PathSet::new();
    assert_eq!(s.len(), 0);
    assert!(!s.contains(&path(&["a", "x"])));
    s.insert(path(&["a", "x"]));
    s.insert(path(&["b"]));
    assert!(s.contains(&path(&["a", "x"])));
    assert!(s.contains(&path(&["b"])));
    assert!(!s.contains(&path(&["a"])));
    assert_eq!(s.len(), 2);
    s.remove(&path(&["a", "x"]));
    assert!(!s.contains(&path(&["a", "x"])));
    assert_eq!(s.len(), 1);
}

#[test]
fn inserting_twice_keeps_one_copy() {
    let mut s = PathSet::new();
    s.insert(path(&["a"]));
    s.insert(path(&["a"]));
    assert_eq!(s.len(), 1);
    let v = s.to_vec();
    assert_eq!(v, vec![path(&["a"])]);
}

#[test]
fn clear_empties_the_set() {
    let mut s = PathSet::new();
    s.insert(path(&["a"]));
    s.insert(path(&["b"]));
    s.clear();
    assert_eq!(s.len(), 0);
    assert!(s.to_vec().is_empty());
}

#[test]
fn removing_a_missing_path_changes_nothing() {
    let mut s = PathSet::new();
    s.insert(path(&["a"]));
    s.remove(&path(&["zz"]));
    assert_eq!(s.len(), 1);
    assert!(s.contains(&path(&["a"])));
}
