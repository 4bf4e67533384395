use tree_txt::{Config, GlobalState, OutputFormat, ProjectState};

fn entry(files: &[&str], when: u64) -> ProjectState {
    ProjectState {
        selected_files: files.iter().map(|f| f.to_string()).collect(),
        last_updated: when,
    }
}

#[test]
fn a_fresh_store_remembers_nothing() {
    let store = GlobalState::new();
    assert!(store.get_project(&"/home/p".to_string()).is_none());
}

#[test]
fn upsert_then_get_returns_the_saved_selection() {
    let mut store = GlobalState::new();
    store.upsert("/home/p".to_string(), entry(&["a.rs", "b.rs"], 7));
    let got = store.get_project(&"/home/p".to_string()).expect("entry");
    assert_eq!(got.selected_files, vec!["a.rs".to_string(), "b.rs".to_string()]);
    assert_eq!(got.last_updated, 7);
}

#[test]
fn upsert_replaces_only_its_own_key() {
    let mut store = GlobalState::new();
    store.upsert("/one".to_string(), entry(&["x"], 1));
    store.upsert("/two".to_string(), entry(&["y"], 2));
    store.upsert("/one".to_string(), entry(&["z"], 3));
    let one = store.get_project(&"/one".to_string()).expect("one");
    assert_eq!(one.selected_files, vec!["z".to_string()]);
    assert_eq!(one.last_updated, 3);
    let two = store.get_project(&"/two".to_string()).expect("two");
    assert_eq!(two.selected_files, vec!["y".to_string()]);
    assert_eq!(store.projects.len(), 2);
}

#[test]
fn output_format_default_switches() {
    let f = OutputFormat::default();
    assert!(f.include_tree);
    assert!(f.include_file_contents);
    assert!(!f.include_line_numbers);
    assert_eq!(f.file_separator, "\u{2550}".repeat(80));
}

#[test]
fn config_carries_its_file_list() {
    let c = Config {
        files: vec!["src/main.rs".to_string()],
        output_format: OutputFormat::default(),
    };
    assert_eq!(c.files.len(), 1);
    assert_eq!(c.files[0], "src/main.rs");
}

#[test]
fn config_defaults_helpers() {
    assert!(tree_txt::config::default_true());
    assert!(!tree_txt::config::default_false());
    assert_eq!(tree_txt::config::default_separator(), "\u{2550}".repeat(80));
}
