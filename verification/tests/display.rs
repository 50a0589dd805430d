use git_plan::diff::{DiffLine, FileDiff, Hunk};
use git_plan::display::{display_rows, DisplayRow, RowKind};
use git_plan::filter::filter_by_lines;
use git_plan::selection::parse_hunk_selection;

fn make_line(origin: char, content: &str) -> DiffLine {
    DiffLine { origin, content: format!("{content}\n") }
}

fn sample() -> FileDiff {
    FileDiff {
        old_path: "a/foo.rs".to_string(),
        new_path: "b/foo.rs".to_string(),
        hunks: vec![
            Hunk {
                header: "@@ -1,3 +1,4 @@".to_string(),
                old_start: 1,
                old_lines: 3,
                new_start: 1,
                new_lines: 4,
                lines: vec![
                    make_line(' ', "fn hello() {"),
                    make_line('+', "    println!(\"world\");"),
                    make_line(' ', "}"),
                ],
            },
            Hunk {
                header: "@@ -5,3 +6,3 @@ fn bye".to_string(),
                old_start: 5,
                old_lines: 3,
                new_start: 6,
                new_lines: 3,
                lines: vec![
                    make_line('-', "old"),
                    DiffLine { origin: '+', content: "new\n\n".to_string() },
                ],
            },
        ],
    }
}

#[test]
fn rows_of_a_diff() {
    let rows = display_rows(&sample());
    let got: Vec<(RowKind, usize, String)> =
        rows.into_iter().map(|r| (r.kind, r.number, r.text)).collect();
    let expected = vec![
        (RowKind::OldPath, 0, "--- a/foo.rs".to_string()),
        (RowKind::NewPath, 0, "+++ b/foo.rs".to_string()),
        (RowKind::Blank, 0, String::new()),
        (RowKind::HunkTitle, 0, "[a] @@ -1,3 +1,4 @@".to_string()),
        (RowKind::Context, 1, " fn hello() {".to_string()),
        (RowKind::Added, 2, "+    println!(\"world\");".to_string()),
        (RowKind::Context, 3, " }".to_string()),
        (RowKind::Blank, 0, String::new()),
        (RowKind::HunkTitle, 0, "[b] @@ -5,3 +6,3 @@ fn bye".to_string()),
        (RowKind::Removed, 4, "-old".to_string()),
        (RowKind::Added, 5, "+new".to_string()),
    ];
    assert_eq!(got, expected);
}

#[test]
fn shown_label_selects_its_hunk() {
    let rows = display_rows(&sample());
    let title = &rows[8].text;
    let label = &title[1..2];
    assert_eq!(parse_hunk_selection(label), vec![1]);
}

#[test]
fn shown_number_selects_its_line() {
    let diff = sample();
    let rows = display_rows(&diff);
    // Row of the '-' line of hunk b shows number 4: selecting 4 stages it.
    assert_eq!(rows[9].number, 4);
    let patch = filter_by_lines(&diff, &[(4, 4)]);
    assert!(patch.contains("-old\n"));
    assert!(!patch.contains("+new"));
    assert!(!patch.contains("+    println"));
}

/// The row as printed, without colours.
fn printed(row: &DisplayRow) -> String {
    match row.kind {
        RowKind::Added | RowKind::Removed | RowKind::Context => {
            format!("{} | {}\n", row.number_text, row.text)
        }
        _ => format!("{}\n", row.text),
    }
}

#[test]
fn number_column_is_right_aligned() {
    let rows = display_rows(&sample());
    assert_eq!(rows[4].number_text, "  1");
    assert_eq!(rows[10].number_text, "  5");
    assert_eq!(rows[0].number_text, "");
}

#[test]
fn printed_view_of_test_diff() {
    let diff = FileDiff {
        old_path: "a/foo.rs".to_string(),
        new_path: "b/foo.rs".to_string(),
        hunks: vec![
            Hunk {
                header: "@@ -1,3 +1,4 @@".to_string(),
                old_start: 1,
                old_lines: 3,
                new_start: 1,
                new_lines: 4,
                lines: vec![
                    make_line(' ', "fn hello() {"),
                    make_line('+', "    println!(\"world\");"),
                    make_line(' ', "}"),
                ],
            },
            Hunk {
                header: "@@ -5,3 +6,4 @@".to_string(),
                old_start: 5,
                old_lines: 3,
                new_start: 6,
                new_lines: 4,
                lines: vec![
                    make_line(' ', "fn bye() {"),
                    make_line('+', "    println!(\"bye\");"),
                    make_line(' ', "}"),
                ],
            },
        ],
    };
    let out: String = display_rows(&diff).iter().map(printed).collect();
    assert_eq!(
        out,
        "--- a/foo.rs\n+++ b/foo.rs\n\n[a] @@ -1,3 +1,4 @@\n  1 |  fn hello() {\n  2 | +    println!(\"world\");\n  3 |  }\n\n[b] @@ -5,3 +6,4 @@\n  4 |  fn bye() {\n  5 | +    println!(\"bye\");\n  6 |  }\n"
    );
}

#[test]
fn printed_view_of_readme_example() {
    let diff = FileDiff {
        old_path: "a/foo.rs".to_string(),
        new_path: "b/foo.rs".to_string(),
        hunks: vec![
            Hunk {
                header: "@@ -1,5 +1,6 @@".to_string(),
                old_start: 1,
                old_lines: 5,
                new_start: 1,
                new_lines: 6,
                lines: vec![
                    make_line(' ', "fn hello() {"),
                    make_line(' ', "    println!(\"hello\");"),
                    make_line('+', "    println!(\"world\");"),
                    make_line(' ', "}"),
                    make_line(' ', ""),
                    make_line(' ', "fn world() {"),
                ],
            },
            Hunk {
                header: "@@ -8,4 +9,5 @@ fn world() {".to_string(),
                old_start: 8,
                old_lines: 4,
                new_start: 9,
                new_lines: 5,
                lines: vec![
                    make_line(' ', ""),
                    make_line(' ', "fn bye() {"),
                    make_line(' ', "    println!(\"see ya\");"),
                    make_line('+', "    println!(\"bye!\");"),
                    make_line(' ', "}"),
                ],
            },
        ],
    };
    let out: String = display_rows(&diff).iter().map(printed).collect();
    let expected = [
        "--- a/foo.rs",
        "+++ b/foo.rs",
        "",
        "[a] @@ -1,5 +1,6 @@",
        "  1 |  fn hello() {",
        "  2 |      println!(\"hello\");",
        "  3 | +    println!(\"world\");",
        "  4 |  }",
        "  5 |",
        "  6 |  fn world() {",
        "",
        "[b] @@ -8,4 +9,5 @@ fn world() {",
        "  7 |",
        "  8 |  fn bye() {",
        "  9 |      println!(\"see ya\");",
        " 10 | +    println!(\"bye!\");",
        " 11 |  }",
    ];
    let got: Vec<&str> = out.lines().map(|l| l.trim_end()).collect();
    assert_eq!(got, expected);
}

#[test]
fn wide_numbers_are_not_cut() {
    let lines: Vec<DiffLine> = (0..1000).map(|_| make_line(' ', "x")).collect();
    let diff = FileDiff {
        old_path: "a/f".to_string(),
        new_path: "b/f".to_string(),
        hunks: vec![Hunk {
            header: String::new(),
            old_start: 1,
            old_lines: 1000,
            new_start: 1,
            new_lines: 1000,
            lines,
        }],
    };
    let rows = display_rows(&diff);
    assert_eq!(rows[3 + 99].number_text, " 99");
    assert_eq!(rows[3 + 1000].number_text, "1000");
}
