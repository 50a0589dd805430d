//! The labelled view of a diff: hunks lettered `[a]`, `[b]`, ..., and lines
//! numbered from 1 continuously across hunks, the labels and numbers by
//! which hunks and lines are selected.
use vstd::prelude::*;

use crate::diff::{FileDiff, FileDiffView, HunkView, LineView};
use crate::filter::{first_line_number, lemma_lines_before_mono, lines_before, origin_mark};
use crate::text::{
    chars_of, decimal, push_char, push_chars, push_decimal, strip_newlines, strip_newlines_len,
};

verus! {

/// What a row of the view shows, which decides how it is coloured.
#[derive(Debug, Clone, Copy, PartialEq, Eq, Structural)]
pub enum RowKind {
    /// `--- <old path>`
    OldPath,
    /// `+++ <new path>`
    NewPath,
    /// The empty row before each hunk.
    Blank,
    /// `[<label>] <hunk header>`
    HunkTitle,
    /// An added line.
    Added,
    /// A removed line.
    Removed,
    /// A context line.
    Context,
}

/// One row of the view. For a line (`Added`, `Removed`, `Context`),
/// `number` is its line number, `number_text` that number right-aligned in
/// a column of width 3, and `text` is its mark (`+`, `-` or a space)
/// followed by its content without trailing newlines; the row is printed as
/// `number_text`, `" | "`, `text`. For the other rows `number` is 0,
/// `number_text` is empty and `text` is the whole row.
pub struct DisplayRow {
    pub kind: RowKind,
    pub number: usize,
    pub number_text: String,
    pub text: String,
}

/// The mathematical value of a [`DisplayRow`].
pub struct RowView {
    pub kind: RowKind,
    pub number: int,
    pub number_text: Seq<char>,
    pub text: Seq<char>,
}

impl View for DisplayRow {
    type V = RowView;

    open spec fn view(&self) -> RowView {
        RowView {
            kind: self.kind,
            number: self.number as int,
            number_text: self.number_text@,
            text: self.text@,
        }
    }
}

/// `s` right-aligned in a column of `width` characters: spaces before it
/// where it is shorter (what `format!("{:>3}", ..)` does for width 3).
pub open spec fn pad_left(s: Seq<char>, width: nat) -> Seq<char> {
    if s.len() >= width {
        s
    } else {
        Seq::new((width - s.len()) as nat, |i: int| ' ') + s
    }
}

/// The decimal digits of `n`, right-aligned in a column of width 3.
fn number_column(n: usize) -> (r: String)
    ensures
        r@ == pad_left(decimal(n as nat), 3),
{
    let mut digits = String::new();
    push_decimal(&mut digits, n as u64);
    let len = digits.as_str().unicode_len();
    let mut r = String::new();
    let mut k = len;
    while k < 3
        invariant
            len == decimal(n as nat).len(),
            len <= k <= 3 || (len > 3 && k == len),
            r@ == Seq::new((k - len) as nat, |i: int| ' '),
        decreases 3 - k,
    {
        push_char(&mut r, ' ');
        assert(r@ =~= Seq::new((k + 1 - len) as nat, |i: int| ' '));
        k += 1;
    }
    r.append(digits.as_str());
    assert(r@ =~= pad_left(decimal(n as nat), 3));
    r
}

/// The values of a sequence of rows.
pub open spec fn row_views(rows: Seq<DisplayRow>) -> Seq<RowView> {
    rows.map_values(|r: DisplayRow| r@)
}

/// The label of hunk `k` (from 0): `a`, `b`, ... for the first 26 hunks,
/// and the characters that follow `z` after them.
pub open spec fn hunk_label(k: nat) -> char {
    (97 + k) as char
}

/// The kind of row that shows a line of this origin.
pub open spec fn line_kind(origin: char) -> RowKind {
    if origin == '+' {
        RowKind::Added
    } else if origin == '-' {
        RowKind::Removed
    } else {
        RowKind::Context
    }
}

/// The row that shows line `l` under number `number`.
pub open spec fn line_row(l: LineView, number: int) -> RowView {
    RowView {
        kind: line_kind(l.origin),
        number,
        number_text: pad_left(decimal(number as nat), 3),
        text: seq![origin_mark(l.origin)] + strip_newlines(l.content),
    }
}

/// The rows that show hunk `k`, whose first line has number `first`: a
/// blank row, its title, and one row per line.
pub open spec fn hunk_rows(h: HunkView, k: nat, first: int) -> Seq<RowView> {
    seq![
        RowView {
            kind: RowKind::Blank,
            number: 0,
            number_text: Seq::<char>::empty(),
            text: Seq::<char>::empty(),
        },
        RowView {
            kind: RowKind::HunkTitle,
            number: 0,
            number_text: Seq::<char>::empty(),
            text: seq!['[', hunk_label(k), ']', ' '] + h.header,
        },
    ] + Seq::new(h.lines.len(), |j: int| line_row(h.lines[j], first + j))
}

/// The rows that show the first `k` hunks.
pub open spec fn hunks_rows(hunks: Seq<HunkView>, k: nat) -> Seq<RowView>
    decreases k,
{
    if k == 0 || k > hunks.len() {
        Seq::<RowView>::empty()
    } else {
        let i = (k - 1) as nat;
        hunks_rows(hunks, i) + hunk_rows(hunks[i as int], i, first_line_number(hunks, i))
    }
}

/// The whole view of a diff: its two path rows, then the rows of each hunk.
pub open spec fn view_rows(fd: FileDiffView) -> Seq<RowView> {
    seq![
        RowView {
            kind: RowKind::OldPath,
            number: 0,
            number_text: Seq::<char>::empty(),
            text: "--- "@ + fd.old_path,
        },
        RowView {
            kind: RowKind::NewPath,
            number: 0,
            number_text: Seq::<char>::empty(),
            text: "+++ "@ + fd.new_path,
        },
    ] + hunks_rows(fd.hunks, fd.hunks.len())
}

/// A row of the given kind that shows `text` in full.
fn plain_row(kind: RowKind, text: String) -> (r: DisplayRow)
    ensures
        r@ == (RowView { kind, number: 0, number_text: Seq::<char>::empty(), text: text@ }),
{
    DisplayRow { kind, number: 0, number_text: String::new(), text }
}

/// The view of a diff, row by row, as it is printed: the old and new path,
/// then for each hunk a blank row, `[label] header`, and its lines, each
/// with its number. Labels are `a` for the first hunk and count up from
/// there; line numbers start at 1 and run on across hunks.
pub fn display_rows(file_diff: &FileDiff) -> (rows: Vec<DisplayRow>)
    requires
        file_diff.hunks@.len() <= 159,
        lines_before(file_diff@.hunks, file_diff@.hunks.len()) < usize::MAX,
    ensures
        row_views(rows@) == view_rows(file_diff@),
{
    let ghost fd = file_diff@;
    let ghost hunks = fd.hunks;
    let mut rows: Vec<DisplayRow> = Vec::new();

    let mut old_title = String::new();
    old_title.append("--- ");
    old_title.append(file_diff.old_path.as_str());
    rows.push(plain_row(RowKind::OldPath, old_title));
    let mut new_title = String::new();
    new_title.append("+++ ");
    new_title.append(file_diff.new_path.as_str());
    rows.push(plain_row(RowKind::NewPath, new_title));
    let ghost head = row_views(rows@);
    assert(head =~= view_rows(fd).take(2));

    let mut line_num: usize = 1;
    let n = file_diff.hunks.len();
    for idx in 0..n
        invariant
            n == file_diff.hunks@.len(),
            n <= 159,
            fd == file_diff@,
            hunks == fd.hunks,
            lines_before(hunks, hunks.len()) < usize::MAX,
            head == view_rows(fd).take(2),
            line_num == first_line_number(hunks, idx as nat),
            row_views(rows@) == head + hunks_rows(hunks, idx as nat),
    {
        let hunk = &file_diff.hunks[idx];
        let ghost h = hunks[idx as int];
        assert(h == hunk@);
        let ghost first = line_num as int;
        proof {
            lemma_lines_before_mono(hunks, (idx + 1) as nat, n as nat);
        }
        let ghost before = row_views(rows@);
        rows.push(plain_row(RowKind::Blank, String::new()));
        let label = (97u8 + idx as u8) as char;
        let mut title = String::new();
        push_char(&mut title, '[');
        push_char(&mut title, label);
        push_char(&mut title, ']');
        push_char(&mut title, ' ');
        title.append(hunk.header.as_str());
        assert(label == hunk_label(idx as nat));
        assert(title@ =~= seq!['[', hunk_label(idx as nat), ']', ' '] + h.header);
        rows.push(plain_row(RowKind::HunkTitle, title));
        let ghost titled = row_views(rows@);
        assert(titled =~= before + hunk_rows(h, idx as nat, first).take(2));

        let len = hunk.lines.len();
        for j in 0..len
            invariant
                len == h.lines.len(),
                h == hunk@,
                first + len <= usize::MAX,
                line_num == first + j,
                rows@.len() == titled.len() + j,
                row_views(rows@) == titled + Seq::new(
                    j as nat,
                    |i: int| line_row(h.lines[i], first + i),
                ),
        {
            let diff_line = &hunk.lines[j];
            assert(h.lines[j as int] == diff_line@);
            let content = chars_of(diff_line.content.as_str());
            let keep = strip_newlines_len(content.as_slice());
            let mut text = String::new();
            let kind = if diff_line.origin == '+' {
                push_char(&mut text, '+');
                RowKind::Added
            } else if diff_line.origin == '-' {
                push_char(&mut text, '-');
                RowKind::Removed
            } else {
                push_char(&mut text, ' ');
                RowKind::Context
            };
            push_chars(&mut text, content.as_slice(), 0, keep);
            let ghost prev = row_views(rows@);
            let number_text = number_column(line_num);
            rows.push(DisplayRow { kind, number: line_num, number_text, text });
            assert(row_views(rows@) =~= prev.push(line_row(h.lines[j as int], first + j)));
            assert(row_views(rows@) =~= titled + Seq::new(
                (j + 1) as nat,
                |i: int| line_row(h.lines[i], first + i),
            ));
            line_num += 1;
        }
        assert(hunk_rows(h, idx as nat, first) =~= hunk_rows(h, idx as nat, first).take(2)
            + Seq::new(len as nat, |i: int| line_row(h.lines[i], first + i)));
        assert(row_views(rows@) =~= head + hunks_rows(hunks, (idx + 1) as nat));
    }
    assert(row_views(rows@) =~= view_rows(fd));
    rows
}

} // verus!
