use git_plan::selection::{
    interpret_selection, parse_hunk_selection, parse_line_selection, Selection,
};

#[test]
fn hunk_letters_are_indices() {
    assert_eq!(parse_hunk_selection("a,c"), vec![0, 2]);
    assert_eq!(parse_hunk_selection("z"), vec![25]);
}

#[test]
fn hunk_pieces_that_are_not_one_letter_are_skipped() {
    assert_eq!(parse_hunk_selection(" b , z ,A,ab,,\u{e9},1"), vec![1, 25]);
    assert_eq!(parse_hunk_selection(""), Vec::<usize>::new());
}

#[test]
fn line_ranges_and_single_lines() {
    assert_eq!(parse_line_selection("3-8,15-20"), vec![(3, 8), (15, 20)]);
    assert_eq!(parse_line_selection("3"), vec![(3, 3)]);
    assert_eq!(parse_line_selection("5-3"), vec![(5, 3)]);
}

#[test]
fn line_pieces_are_trimmed_and_signed_plus_accepted() {
    assert_eq!(parse_line_selection(" 4 - 7 , x, 9-, +5,007"), vec![(4, 7), (5, 5), (7, 7)]);
}

#[test]
fn line_pieces_that_do_not_parse_are_skipped() {
    assert_eq!(parse_line_selection("-5"), Vec::<(usize, usize)>::new());
    assert_eq!(parse_line_selection("1-2-3"), Vec::<(usize, usize)>::new());
    assert_eq!(parse_line_selection("+"), Vec::<(usize, usize)>::new());
    assert_eq!(
        parse_line_selection("99999999999999999999999999,2"),
        vec![(2, 2)]
    );
    assert_eq!(parse_line_selection("1 2"), Vec::<(usize, usize)>::new());
}

#[test]
fn usize_max_parses() {
    let text = format!("{}", usize::MAX);
    assert_eq!(parse_line_selection(&text), vec![(usize::MAX, usize::MAX)]);
}

#[test]
fn prompt_input_kinds() {
    assert!(matches!(interpret_selection(""), Selection::Nothing));
    assert!(matches!(interpret_selection("  \n"), Selection::Nothing));
    match interpret_selection(" a, b\n") {
        Selection::Hunks(v) => assert_eq!(v, vec![0, 1]),
        _ => panic!("expected hunks"),
    }
    match interpret_selection("3-8,15") {
        Selection::Lines(v) => assert_eq!(v, vec![(3, 8), (15, 15)]),
        _ => panic!("expected lines"),
    }
    match interpret_selection("a-1") {
        Selection::Lines(v) => assert_eq!(v, Vec::<(usize, usize)>::new()),
        _ => panic!("expected lines"),
    }
}

#[test]
fn unicode_whitespace_is_trimmed() {
    assert_eq!(parse_hunk_selection("\u{3000}b\u{85},\t\u{a0}c\u{2009}"), vec![1, 2]);
    // A zero-width space is not whitespace.
    assert_eq!(parse_hunk_selection("\u{200b}b"), Vec::<usize>::new());
    assert_eq!(parse_line_selection("\u{2028}12\u{205f}-\u{1680}13 "), vec![(12, 13)]);
}

#[test]
fn label_lists_parse_back() {
    let idxs = vec![3usize, 0, 25, 3];
    let text = idxs
        .iter()
        .map(|&k| ((b'a' + k as u8) as char).to_string())
        .collect::<Vec<_>>()
        .join(",");
    assert_eq!(parse_hunk_selection(&text), idxs);
}

#[test]
fn written_ranges_parse_back() {
    let rs = vec![(3usize, 8usize), (15, 15), (9, 2), (0, usize::MAX)];
    let text = rs.iter().map(|(s, e)| format!("{s}-{e}")).collect::<Vec<_>>().join(",");
    assert_eq!(parse_line_selection(&text), rs);
    assert_eq!(parse_line_selection(""), Vec::<(usize, usize)>::new());
}
