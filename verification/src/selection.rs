//! What the user selects: hunks by letter (`a,c`), or lines by number and
//! inclusive range (`3-8,15`).
use vstd::prelude::*;

use crate::text::{
    chars_of, parse_usize, parse_usize_chars, split, split_chars, string_from_chars, sub_chars,
    trim, trim_chars,
};

verus! {

/// Whether `c` is an ASCII lowercase letter.
pub open spec fn is_lowercase(c: char) -> bool {
    'a' <= c && c <= 'z'
}

/// The hunk that one comma-separated piece names: a single lowercase
/// letter, once trimmed, names hunk `letter - 'a'`; anything else names none.
pub open spec fn hunk_of_piece(piece: Seq<char>) -> Option<usize> {
    let t = trim(piece);
    if t.len() == 1 && is_lowercase(t[0]) {
        Some((t[0] as int - 'a' as int) as usize)
    } else {
        None
    }
}

/// The hunks that the pieces name, in order, pieces that name none skipped.
pub open spec fn hunk_picks(pieces: Seq<Seq<char>>) -> Seq<usize>
    decreases pieces.len(),
{
    if pieces.len() == 0 {
        Seq::<usize>::empty()
    } else {
        hunk_picks(pieces.drop_last()) + match hunk_of_piece(pieces.last()) {
            Some(i) => seq![i],
            None => Seq::<usize>::empty(),
        }
    }
}

/// The hunk indices that a comma-separated list of letters selects.
pub open spec fn hunk_selection(input: Seq<char>) -> Seq<usize> {
    hunk_picks(split(input, ','))
}

/// The index of the first `c` in `s`, or -1.
pub open spec fn first_index_of(s: Seq<char>, c: char) -> int
    decreases s.len(),
{
    if s.len() == 0 {
        -1
    } else if s[0] == c {
        0
    } else {
        let r = first_index_of(s.drop_first(), c);
        if r < 0 {
            -1
        } else {
            r + 1
        }
    }
}

/// The line range that one comma-separated piece names: `start-end` (split
/// at the first `-`, each side trimmed) or a single number `n`, meaning
/// `n-n`; a piece that does not parse names none.
pub open spec fn range_of_piece(piece: Seq<char>) -> Option<(usize, usize)> {
    let t = trim(piece);
    let d = first_index_of(t, '-');
    if d >= 0 {
        match (parse_usize(trim(t.take(d))), parse_usize(trim(t.skip(d + 1)))) {
            (Some(a), Some(b)) => Some((a, b)),
            _ => None,
        }
    } else {
        match parse_usize(t) {
            Some(n) => Some((n, n)),
            None => None,
        }
    }
}

/// The ranges that the pieces name, in order, pieces that name none skipped.
pub open spec fn range_picks(pieces: Seq<Seq<char>>) -> Seq<(usize, usize)>
    decreases pieces.len(),
{
    if pieces.len() == 0 {
        Seq::<(usize, usize)>::empty()
    } else {
        range_picks(pieces.drop_last()) + match range_of_piece(pieces.last()) {
            Some(r) => seq![r],
            None => Seq::<(usize, usize)>::empty(),
        }
    }
}

/// The line ranges that a comma-separated list of numbers and ranges selects.
pub open spec fn line_selection(input: Seq<char>) -> Seq<(usize, usize)> {
    range_picks(split(input, ','))
}

/// The hunk that one piece names.
fn hunk_in_piece(piece: &[char]) -> (r: Option<usize>)
    ensures
        r == hunk_of_piece(piece@),
{
    let t = trim_chars(piece);
    if t.len() == 1 && 'a' <= t[0] && t[0] <= 'z' {
        Some((t[0] as u32 - 'a' as u32) as usize)
    } else {
        None
    }
}

/// Parses a hunk selection such as `a,c`: the comma-separated pieces that
/// are a single lowercase letter (surrounding whitespace ignored), each
/// giving the index of its hunk (`a` is 0); other pieces are skipped.
pub fn parse_hunk_selection(input: &str) -> (selected: Vec<usize>)
    ensures
        selected@ == hunk_selection(input@),
        forall|i: int| 0 <= i < selected@.len() ==> #[trigger] selected@[i] < 26,
{
    let chars = chars_of(input);
    let pieces = split_chars(chars.as_slice(), ',');
    let ghost all = split(input@, ',');
    let mut selected: Vec<usize> = Vec::new();
    let n = pieces.len();
    for k in 0..n
        invariant
            n == all.len(),
            n == pieces@.len(),
            all == split(input@, ','),
            forall|j: int| 0 <= j < n ==> #[trigger] pieces@[j]@ == all[j],
            selected@ == hunk_picks(all.take(k as int)),
            forall|i: int| 0 <= i < selected@.len() ==> #[trigger] selected@[i] < 26,
    {
        assert(all.take(k + 1).drop_last() =~= all.take(k as int));
        assert(all.take(k + 1).last() == pieces@[k as int]@);
        let ghost before = selected@;
        match hunk_in_piece(pieces[k].as_slice()) {
            Some(i) => {
                selected.push(i);
            },
            None => {},
        }
        assert(selected@ =~= hunk_picks(all.take(k + 1)));
    }
    assert(all.take(n as int) =~= all);
    selected
}

/// The index of the first `c` in `s`, or -1.
fn find_char(s: &[char], c: char) -> (r: Option<usize>)
    ensures
        match r {
            Some(i) => i < s@.len() && i == first_index_of(s@, c),
            None => first_index_of(s@, c) == -1,
        },
{
    let len = s.len();
    let mut i: usize = 0;
    while i < len
        invariant
            len == s@.len(),
            i <= len,
            forall|j: int| 0 <= j < i ==> s@[j] != c,
        decreases len - i,
    {
        if s[i] == c {
            proof {
                lemma_first_index_found(s@, c, i as int);
            }
            return Some(i);
        }
        i += 1;
    }
    proof {
        lemma_first_index_absent(s@, c);
    }
    None
}

proof fn lemma_first_index_found(s: Seq<char>, c: char, i: int)
    requires
        0 <= i < s.len(),
        s[i] == c,
        forall|j: int| 0 <= j < i ==> s[j] != c,
    ensures
        first_index_of(s, c) == i,
    decreases i,
{
    if i > 0 {
        lemma_first_index_found(s.drop_first(), c, i - 1);
    }
}

proof fn lemma_first_index_absent(s: Seq<char>, c: char)
    requires
        forall|j: int| 0 <= j < s.len() ==> s[j] != c,
    ensures
        first_index_of(s, c) == -1,
    decreases s.len(),
{
    if s.len() > 0 {
        lemma_first_index_absent(s.drop_first(), c);
    }
}

/// The line range that one piece names.
fn range_in_piece(piece: &[char]) -> (r: Option<(usize, usize)>)
    ensures
        r == range_of_piece(piece@),
{
    let t = trim_chars(piece);
    let tlen = t.len();
    if let Some(d) = find_char(t.as_slice(), '-') {
        assert(d < tlen);
        let before = sub_chars(t.as_slice(), 0, d);
        let after = sub_chars(t.as_slice(), d + 1, tlen);
        assert(before@ =~= t@.take(d as int));
        assert(after@ =~= t@.skip(d + 1));
        let b = trim_chars(before.as_slice());
        let a = trim_chars(after.as_slice());
        match (parse_usize_chars(b.as_slice()), parse_usize_chars(a.as_slice())) {
            (Some(start), Some(end)) => Some((start, end)),
            _ => None,
        }
    } else {
        match parse_usize_chars(t.as_slice()) {
            Some(n) => Some((n, n)),
            None => None,
        }
    }
}

/// Parses a line selection such as `3-8,15`: each comma-separated piece is
/// a range `start-end` or a single line `n` (taken as `n-n`), numbers being
/// what `usize` parses once surrounding whitespace is trimmed; pieces that
/// do not parse are skipped.
pub fn parse_line_selection(input: &str) -> (selected: Vec<(usize, usize)>)
    ensures
        selected@ == line_selection(input@),
{
    let chars = chars_of(input);
    let pieces = split_chars(chars.as_slice(), ',');
    let ghost all = split(input@, ',');
    let mut selected: Vec<(usize, usize)> = Vec::new();
    let n = pieces.len();
    for k in 0..n
        invariant
            n == all.len(),
            n == pieces@.len(),
            all == split(input@, ','),
            forall|j: int| 0 <= j < n ==> #[trigger] pieces@[j]@ == all[j],
            selected@ == range_picks(all.take(k as int)),
    {
        assert(all.take(k + 1).drop_last() =~= all.take(k as int));
        assert(all.take(k + 1).last() == pieces@[k as int]@);
        match range_in_piece(pieces[k].as_slice()) {
            Some(r) => {
                selected.push(r);
            },
            None => {},
        }
        assert(selected@ =~= range_picks(all.take(k + 1)));
    }
    assert(all.take(n as int) =~= all);
    selected
}

/// Whether every character of `s` is a lowercase letter, a comma or a
/// space: input that selects hunks rather than lines.
pub open spec fn is_hunk_input(s: Seq<char>) -> bool {
    forall|i: int| 0 <= i < s.len() ==> is_lowercase(#[trigger] s[i]) || s[i] == ',' || s[i] == ' '
}

/// What a line typed at the prompt selects.
pub enum Selection {
    /// Nothing was typed: nothing is staged.
    Nothing,
    /// Hunks, by index.
    Hunks(Vec<usize>),
    /// Lines, by inclusive ranges of line numbers.
    Lines(Vec<(usize, usize)>),
}

/// Reads a line typed at the prompt: once trimmed, an empty line selects
/// nothing; a line of lowercase letters, commas and spaces selects hunks;
/// any other line selects line ranges.
pub fn interpret_selection(input: &str) -> (r: Selection)
    ensures
        ({
            let t = trim(input@);
            if t.len() == 0 {
                r is Nothing
            } else if is_hunk_input(t) {
                r matches Selection::Hunks(v) && v@ == hunk_selection(t)
            } else {
                r matches Selection::Lines(v) && v@ == line_selection(t)
            }
        }),
{
    let chars = chars_of(input);
    let t = trim_chars(chars.as_slice());
    if t.len() == 0 {
        return Selection::Nothing;
    }
    let mut all_hunk_chars = true;
    let len = t.len();
    for i in 0..len
        invariant
            len == t@.len(),
            all_hunk_chars == (forall|j: int|
                0 <= j < i ==> is_lowercase(#[trigger] t@[j]) || t@[j] == ',' || t@[j] == ' '),
    {
        let c = t[i];
        if !(('a' <= c && c <= 'z') || c == ',' || c == ' ') {
            all_hunk_chars = false;
        }
    }
    let text = string_from_chars(t.as_slice());
    if all_hunk_chars {
        Selection::Hunks(parse_hunk_selection(text.as_str()))
    } else {
        Selection::Lines(parse_line_selection(text.as_str()))
    }
}

} // verus!
