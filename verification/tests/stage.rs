use git_plan::diff::{DiffLine, FileDiff, Hunk};
use git_plan::filter::filter_all;
use git_plan::stage::{parse_patch, PatchError};

#[test]
fn a_written_patch_parses() {
    let diff = FileDiff {
        old_path: "a/foo.rs".to_string(),
        new_path: "b/foo.rs".to_string(),
        hunks: vec![Hunk {
            header: "@@ -1,2 +1,3 @@".to_string(),
            old_start: 1,
            old_lines: 2,
            new_start: 1,
            new_lines: 3,
            lines: vec![
                DiffLine { origin: ' ', content: "a\n".to_string() },
                DiffLine { origin: '+', content: "b\n".to_string() },
                DiffLine { origin: ' ', content: "c\n".to_string() },
            ],
        }],
    };
    let parsed = parse_patch(&filter_all(&diff));
    match parsed {
        Ok(d) => assert_eq!(d.deltas().len(), 1),
        Err(PatchError::Unparsable(e)) => panic!("patch rejected: {e}"),
    }
}

#[test]
fn a_broken_patch_is_rejected() {
    let text = "diff --git a/f b/f\n--- a/f\n+++ b/f\n@@ -1,5 +1,5 @@\n x\n";
    assert!(matches!(parse_patch(text), Err(PatchError::Unparsable(_))));
}

#[test]
fn a_patch_without_final_newline_parses() {
    let diff = FileDiff {
        old_path: "a/f".to_string(),
        new_path: "b/f".to_string(),
        hunks: vec![Hunk {
            header: String::new(),
            old_start: 1,
            old_lines: 1,
            new_start: 1,
            new_lines: 1,
            lines: vec![
                DiffLine { origin: '-', content: "old".to_string() },
                DiffLine { origin: '+', content: "new".to_string() },
            ],
        }],
    };
    let text = filter_all(&diff);
    assert!(text.ends_with("+new\n\\ No newline at end of file\n"));
    match parse_patch(&text) {
        Ok(d) => assert_eq!(d.deltas().len(), 1),
        Err(PatchError::Unparsable(e)) => panic!("patch rejected: {e}"),
    }
}
