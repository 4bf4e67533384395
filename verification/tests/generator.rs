use tree_txt::{ExportFile, OutputFormat, OutputGenerator};

fn path(components: &[&str]) -> Vec<Vec<u8>> {
    components.iter().map(|c| c.as_bytes().to_vec()).collect()
}

fn ok_file(components: &[&str], content: &str) -> ExportFile {
    ExportFile { path: path(components), content: Ok(content.as_bytes().to_vec()) }
}

fn heavy_rule() -> String {
    "\u{2550}".repeat(80)
}

fn light_rule() -> String {
    "\u{2500}".repeat(60)
}

#[test]
fn tree_lists_selected_files_and_their_ancestors_in_order() {
    let gen = OutputGenerator::new();
    let selected = vec![path(&["a", "x.txt"]), path(&["b.txt"])];
    let out = gen.generate_tree(&b"proj".to_vec(), &selected);
    let expected = format!(
        "proj/\n    \u{251C}\u{2500}\u{2500} a/\n        \u{251C}\u{2500}\u{2500} x.txt \u{2713}\n    \u{251C}\u{2500}\u{2500} b.txt \u{2713}\n\n"
    );
    assert_eq!(String::from_utf8(out).unwrap(), expected);
}

#[test]
fn tree_deduplicates_shared_ancestors() {
    let gen = OutputGenerator::new();
    let selected = vec![path(&["a", "x.txt"]), path(&["a", "y.txt"])];
    let out = String::from_utf8(gen.generate_tree(&b"p".to_vec(), &selected)).unwrap();
    assert_eq!(out.matches("\u{251C}\u{2500}\u{2500} a/").count(), 1);
    assert!(out.contains("x.txt \u{2713}"));
    assert!(out.contains("y.txt \u{2713}"));
}

#[test]
fn full_render_with_fixed_timestamp() {
    let gen = OutputGenerator::new();
    let files = vec![ok_file(&["b.txt"], "hello\n")];
    let ts = b"2024-01-02 03:04:05 UTC".to_vec();
    let config = OutputFormat::default();
    let out = gen.render_output(&b"/work/proj".to_vec(), &b"proj".to_vec(), files, &ts, &config);
    let expected = format!(
        "# Codebase Export\nGenerated on: 2024-01-02 03:04:05 UTC\nBase directory: /work/proj\nTotal files: 1\n\n{h}\n## DIRECTORY STRUCTURE\n{h}\n\nproj/\n    \u{251C}\u{2500}\u{2500} b.txt \u{2713}\n\n{h}\n## FILE CONTENTS\n{h}\n\n{l}\nFile: b.txt\n{l}\n\nhello\n",
        h = heavy_rule(),
        l = light_rule(),
    );
    assert_eq!(String::from_utf8(out).unwrap(), expected);
}

#[test]
fn contents_are_sorted_by_path_and_separated() {
    let gen = OutputGenerator::new();
    let files = vec![ok_file(&["z.txt"], "zz"), ok_file(&["a.txt"], "aa")];
    let ts = b"T".to_vec();
    let config = OutputFormat {
        include_tree: false,
        include_file_contents: true,
        include_line_numbers: false,
        file_separator: String::new(),
    };
    let out = String::from_utf8(
        gen.render_output(&b"/p".to_vec(), &b"p".to_vec(), files, &ts, &config),
    )
    .unwrap();
    let a = out.find("File: a.txt").unwrap();
    let z = out.find("File: z.txt").unwrap();
    assert!(a < z);
    // a missing trailing newline is added
    assert!(out.contains("\n\naa\n"));
    assert!(out.ends_with("zz\n"));
    // no tree body was asked for: no branch lines between the banners
    assert!(!out.contains("\u{251C}"));
}

#[test]
fn line_numbers_are_padded_to_four_columns() {
    let gen = OutputGenerator::new();
    let body: String = (0..12).map(|_| "line\n").collect();
    let files = vec![ok_file(&["n.txt"], &body)];
    let ts = b"T".to_vec();
    let config = OutputFormat {
        include_tree: false,
        include_file_contents: true,
        include_line_numbers: true,
        file_separator: String::new(),
    };
    let out = String::from_utf8(
        gen.render_output(&b"/p".to_vec(), &b"p".to_vec(), files, &ts, &config),
    )
    .unwrap();
    assert!(out.contains("   1 | line\n"));
    assert!(out.contains("   9 | line\n"));
    assert!(out.contains("  10 | line\n"));
    assert!(out.contains("  12 | line\n"));
}

#[test]
fn carriage_returns_are_stripped_in_numbered_lines() {
    let gen = OutputGenerator::new();
    let files = vec![ok_file(&["w.txt"], "one\r\ntwo")];
    let ts = b"T".to_vec();
    let config = OutputFormat {
        include_tree: false,
        include_file_contents: true,
        include_line_numbers: true,
        file_separator: String::new(),
    };
    let out = String::from_utf8(
        gen.render_output(&b"/p".to_vec(), &b"p".to_vec(), files, &ts, &config),
    )
    .unwrap();
    assert!(out.contains("   1 | one\n"));
    assert!(out.contains("   2 | two\n"));
    assert!(!out.contains('\r'));
}

#[test]
fn whitespace_only_content_prints_the_empty_marker() {
    let gen = OutputGenerator::new();
    let files = vec![ok_file(&["e.txt"], " \t\n ")];
    let ts = b"T".to_vec();
    let config = OutputFormat {
        include_tree: false,
        include_file_contents: true,
        include_line_numbers: false,
        file_separator: String::new(),
    };
    let out = String::from_utf8(
        gen.render_output(&b"/p".to_vec(), &b"p".to_vec(), files, &ts, &config),
    )
    .unwrap();
    assert!(out.contains("(empty file)\n"));
}

#[test]
fn unreadable_content_prints_the_error_message() {
    let gen = OutputGenerator::new();
    let files = vec![ExportFile {
        path: path(&["locked.txt"]),
        content: Err(b"permission denied".to_vec()),
    }];
    let ts = b"T".to_vec();
    let config = OutputFormat {
        include_tree: false,
        include_file_contents: true,
        include_line_numbers: false,
        file_separator: String::new(),
    };
    let out = String::from_utf8(
        gen.render_output(&b"/p".to_vec(), &b"p".to_vec(), files, &ts, &config),
    )
    .unwrap();
    assert!(out.contains("Error reading file: permission denied\n"));
}

#[test]
fn nested_paths_join_with_slashes_in_file_headers() {
    let gen = OutputGenerator::new();
    let files = vec![ok_file(&["src", "deep", "mod.rs"], "x")];
    let ts = b"T".to_vec();
    let config = OutputFormat {
        include_tree: false,
        include_file_contents: true,
        include_line_numbers: false,
        file_separator: String::new(),
    };
    let out = String::from_utf8(
        gen.render_output(&b"/p".to_vec(), &b"p".to_vec(), files, &ts, &config),
    )
    .unwrap();
    assert!(out.contains("File: src/deep/mod.rs\n"));
}

#[test]
fn generate_stamps_a_header_and_keeps_the_rest_deterministic() {
    let gen = OutputGenerator::new();
    let files = vec![ok_file(&["b.txt"], "hi\n")];
    let out =
        String::from_utf8(gen.generate(&b"/p".to_vec(), &b"p".to_vec(), files)).unwrap();
    assert!(out.starts_with("# Codebase Export\nGenerated on: "));
    assert!(out.contains("Total files: 1\n"));
    assert!(out.contains("## DIRECTORY STRUCTURE"));
    assert!(out.contains("## FILE CONTENTS"));
    assert!(out.contains("File: b.txt\n"));
    assert!(out.ends_with("hi\n"));
}
