use git_plan::diff::{DiffLine, FileDiff, Hunk};
use git_plan::filter::{
    count_lines, filter_all, filter_by_hunks, filter_by_lines, hunk_offsets_in_range,
};

fn make_line(origin: char, content: &str) -> DiffLine {
    DiffLine {
        origin,
        content: format!("{content}\n"),
    }
}

fn make_test_diff() -> FileDiff {
    FileDiff {
        old_path: "a/foo.rs".to_string(),
        new_path: "b/foo.rs".to_string(),
        hunks: vec![
            Hunk {
                header: "@@ -1,3 +1,4 @@".to_string(),
                old_start: 1,
                old_lines: 3,
                new_start: 1,
                new_lines: 4,
                lines: vec![
                    make_line(' ', "fn hello() {"),
                    make_line('+', "    println!(\"world\");"),
                    make_line(' ', "}"),
                ],
            },
            Hunk {
                header: "@@ -5,3 +6,4 @@".to_string(),
                old_start: 5,
                old_lines: 3,
                new_start: 6,
                new_lines: 4,
                lines: vec![
                    make_line(' ', "fn bye() {"),
                    make_line('+', "    println!(\"bye\");"),
                    make_line(' ', "}"),
                ],
            },
        ],
    }
}

const HEADER: &str = "diff --git a/foo.rs b/foo.rs\n--- a/foo.rs\n+++ b/foo.rs\n";

#[test]
fn filter_by_hunks_selects_first_only() {
    let diff = make_test_diff();
    let patch = filter_by_hunks(&diff, &[0]);
    assert!(patch.contains("println!(\"world\")"));
    assert!(!patch.contains("println!(\"bye\")"));
}

#[test]
fn filter_by_hunks_selects_second_only() {
    let diff = make_test_diff();
    let patch = filter_by_hunks(&diff, &[1]);
    assert!(!patch.contains("println!(\"world\")"));
    assert!(patch.contains("println!(\"bye\")"));
    // new_start adjusted: original 6, hunk a added 1 line (skipped), so 6-1=5
    // old_lines=2, new_lines=3 (recalculated from actual line content)
    assert!(patch.contains("@@ -5,2 +5,3 @@"));
}

#[test]
fn filter_by_lines_selects_added_line() {
    let diff = make_test_diff();
    // line 2 is the '+' in hunk a
    let patch = filter_by_lines(&diff, &[(2, 2)]);
    assert!(patch.contains("println!(\"world\")"));
    // hunk b's '+' at line 5 should not be included
    assert!(!patch.contains("+    println!(\"bye\")"));
}

#[test]
fn filter_by_lines_unselected_minus_becomes_context() {
    let diff = FileDiff {
        old_path: "a/foo.rs".to_string(),
        new_path: "b/foo.rs".to_string(),
        hunks: vec![Hunk {
            header: "@@ -1,3 +1,2 @@".to_string(),
            old_start: 1,
            old_lines: 3,
            new_start: 1,
            new_lines: 2,
            lines: vec![
                make_line(' ', "keep"),
                make_line('-', "removed"),
                make_line(' ', "end"),
            ],
        }],
    };
    // Don't select line 2 (the '-' line) -> should become context
    let patch = filter_by_lines(&diff, &[(1, 1)]);
    assert!(patch.contains(" removed\n"));
    assert!(!patch.contains("-removed"));
}

#[test]
fn filter_all_includes_everything() {
    let diff = make_test_diff();
    let patch = filter_all(&diff);
    assert!(patch.contains("println!(\"world\")"));
    assert!(patch.contains("println!(\"bye\")"));
}

#[test]
fn filter_all_exact_text() {
    let diff = make_test_diff();
    let expected = format!(
        "{HEADER}@@ -1,2 +1,3 @@\n fn hello() {{\n+    println!(\"world\");\n }}\n\
         @@ -5,2 +6,3 @@\n fn bye() {{\n+    println!(\"bye\");\n }}\n"
    );
    assert_eq!(filter_all(&diff), expected);
}

#[test]
fn filter_by_hunks_none_selected_is_header_only() {
    let diff = make_test_diff();
    assert_eq!(filter_by_hunks(&diff, &[]), HEADER);
    // Indices past the last hunk select nothing either.
    assert_eq!(filter_by_hunks(&diff, &[2, 7]), HEADER);
}

#[test]
fn filter_by_hunks_all_selected_is_whole_file() {
    let diff = make_test_diff();
    assert_eq!(filter_by_hunks(&diff, &[1, 0]), filter_all(&diff));
}

#[test]
fn filter_by_hunks_repeats_do_not_matter() {
    let diff = make_test_diff();
    assert_eq!(filter_by_hunks(&diff, &[1, 1, 1]), filter_by_hunks(&diff, &[1]));
}

#[test]
fn filter_by_hunks_wraps_start_below_zero() {
    let diff = FileDiff {
        old_path: "a/f".to_string(),
        new_path: "b/f".to_string(),
        hunks: vec![
            Hunk {
                header: String::new(),
                old_start: 1,
                old_lines: 0,
                new_start: 1,
                new_lines: 5,
                lines: vec![make_line('+', "x")],
            },
            Hunk {
                header: String::new(),
                old_start: 2,
                old_lines: 1,
                new_start: 2,
                new_lines: 1,
                lines: vec![make_line(' ', "y")],
            },
        ],
    };
    // 2 - 5 = -3, which `as u32` turns into 2^32 - 3.
    let patch = filter_by_hunks(&diff, &[1]);
    assert!(patch.contains("@@ -2,1 +4294967293,1 @@\n y\n"));
}

#[test]
fn filter_by_lines_all_selected_is_whole_file() {
    let diff = make_test_diff();
    assert_eq!(filter_by_lines(&diff, &[(1, 6)]), filter_all(&diff));
    assert_eq!(filter_by_lines(&diff, &[(4, 100), (0, 3)]), filter_all(&diff));
}

#[test]
fn filter_by_lines_moves_later_hunks() {
    let diff = make_test_diff();
    // Only the '+' of hunk b: hunk a keeps its context, loses its addition,
    // and hunk b starts one line earlier.
    let patch = filter_by_lines(&diff, &[(5, 5)]);
    let expected = format!(
        "{HEADER}@@ -1,2 +1,2 @@\n fn hello() {{\n }}\n\
         @@ -5,2 +5,3 @@\n fn bye() {{\n+    println!(\"bye\");\n }}\n"
    );
    assert_eq!(patch, expected);
}

#[test]
fn filter_by_lines_unselected_minus_counts() {
    let diff = FileDiff {
        old_path: "a/foo.rs".to_string(),
        new_path: "b/foo.rs".to_string(),
        hunks: vec![Hunk {
            header: String::new(),
            old_start: 1,
            old_lines: 3,
            new_start: 1,
            new_lines: 2,
            lines: vec![
                make_line(' ', "keep"),
                make_line('-', "removed"),
                make_line(' ', "end"),
            ],
        }],
    };
    let patch = filter_by_lines(&diff, &[]);
    assert_eq!(
        patch,
        format!("{HEADER}@@ -1,3 +1,3 @@\n keep\n removed\n end\n")
    );
    let staged = filter_by_lines(&diff, &[(2, 2)]);
    assert_eq!(
        staged,
        format!("{HEADER}@@ -1,3 +1,2 @@\n keep\n-removed\n end\n")
    );
}

#[test]
fn hunk_without_lines_is_left_out() {
    let diff = FileDiff {
        old_path: "a/f".to_string(),
        new_path: "b/f".to_string(),
        hunks: vec![Hunk {
            header: String::new(),
            old_start: 3,
            old_lines: 1,
            new_start: 3,
            new_lines: 1,
            lines: vec![],
        }],
    };
    assert_eq!(filter_all(&diff), "diff --git a/f b/f\n--- a/f\n+++ b/f\n");
}

#[test]
fn line_without_newline_gets_marker_and_other_origin_is_context_mark() {
    let diff = FileDiff {
        old_path: "a/f".to_string(),
        new_path: "b/f".to_string(),
        hunks: vec![Hunk {
            header: String::new(),
            old_start: 10,
            old_lines: 1,
            new_start: 12,
            new_lines: 1,
            lines: vec![
                DiffLine { origin: '-', content: "old".to_string() },
                DiffLine { origin: '+', content: "new".to_string() },
                DiffLine { origin: '=', content: "marker\n".to_string() },
            ],
        }],
    };
    assert_eq!(
        filter_all(&diff),
        "diff --git a/f b/f\n--- a/f\n+++ b/f\n@@ -10,1 +12,1 @@\n-old\n\\ No newline at end of file\n+new\n\\ No newline at end of file\n marker\n"
    );
}

#[test]
fn limits_checks_on_ordinary_diff() {
    let diff = make_test_diff();
    assert!(hunk_offsets_in_range(&diff, &[0, 1]));
    assert!(hunk_offsets_in_range(&diff, &[]));
    assert_eq!(count_lines(&diff), Some(6));
}

#[test]
fn large_starts_are_written_in_full() {
    let diff = FileDiff {
        old_path: "a/f".to_string(),
        new_path: "b/f".to_string(),
        hunks: vec![Hunk {
            header: String::new(),
            old_start: u32::MAX,
            old_lines: 1,
            new_start: 1000000,
            new_lines: 1,
            lines: vec![make_line(' ', "z")],
        }],
    };
    assert_eq!(
        filter_all(&diff),
        "diff --git a/f b/f\n--- a/f\n+++ b/f\n@@ -4294967295,1 +1000000,1 @@\n z\n"
    );
}

#[test]
fn filter_by_lines_depends_only_on_selected_numbers() {
    let diff = make_test_diff();
    assert_eq!(
        filter_by_lines(&diff, &[(5, 5), (2, 2), (2, 2), (9, 4), (7, 100)]),
        filter_by_lines(&diff, &[(2, 2), (5, 5)])
    );
}
