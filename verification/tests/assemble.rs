use git_plan::diff::{build_file_diff, DiffError, DiffLine, FileStatus, Hunk};

fn raw_hunk(header: &str, lines: Vec<(char, &str)>) -> Hunk {
    Hunk {
        header: header.to_string(),
        old_start: 4,
        old_lines: 2,
        new_start: 5,
        new_lines: 3,
        lines: lines
            .into_iter()
            .map(|(origin, content)| DiffLine { origin, content: content.to_string() })
            .collect(),
    }
}

#[test]
fn modified_file_paths_and_hunks() {
    let fd = build_file_diff(
        "src/x.rs",
        FileStatus::Other,
        Some("src/x.rs".to_string()),
        Some("src/x.rs".to_string()),
        vec![raw_hunk(
            "  @@ -4,2 +5,3 @@ fn f()\n",
            vec![(' ', "a\n"), ('+', "b\n"), ('=', "\n"), ('>', "\n"), ('-', "c")],
        )],
    )
    .unwrap();
    assert_eq!(fd.old_path, "a/src/x.rs");
    assert_eq!(fd.new_path, "b/src/x.rs");
    assert_eq!(fd.hunks.len(), 1);
    let h = &fd.hunks[0];
    assert_eq!(h.header, "@@ -4,2 +5,3 @@ fn f()");
    assert_eq!((h.old_start, h.old_lines, h.new_start, h.new_lines), (4, 2, 5, 3));
    let origins: Vec<char> = h.lines.iter().map(|l| l.origin).collect();
    assert_eq!(origins, vec![' ', '+', '-']);
    assert_eq!(h.lines[2].content, "c");
}

#[test]
fn added_and_deleted_files_use_dev_null() {
    let added = build_file_diff(
        "n",
        FileStatus::Added,
        Some("n".to_string()),
        Some("n".to_string()),
        vec![raw_hunk("@@ -0,0 +1 @@", vec![('+', "x\n")])],
    )
    .unwrap();
    assert_eq!(added.old_path, "/dev/null");
    assert_eq!(added.new_path, "b/n");
    let deleted = build_file_diff(
        "d",
        FileStatus::Deleted,
        Some("d".to_string()),
        None,
        vec![raw_hunk("@@ -1 +0,0 @@", vec![('-', "x\n")])],
    )
    .unwrap();
    assert_eq!(deleted.old_path, "a/d");
    assert_eq!(deleted.new_path, "/dev/null");
}

#[test]
fn missing_paths_are_empty() {
    let fd = build_file_diff(
        "p",
        FileStatus::Other,
        None,
        None,
        vec![raw_hunk("@@ @@", vec![])],
    )
    .unwrap();
    assert_eq!(fd.old_path, "a/");
    assert_eq!(fd.new_path, "b/");
}

#[test]
fn no_hunks_means_no_changes() {
    match build_file_diff("foo.rs", FileStatus::Other, None, None, vec![]) {
        Err(DiffError::NoChanges(p)) => assert_eq!(p, "foo.rs"),
        Ok(_) => panic!("expected an error"),
    }
}
