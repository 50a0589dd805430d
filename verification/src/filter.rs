//! Unified-diff patches built from a [`FileDiff`]: of all its hunks, of
//! selected hunks, or of selected lines.
use vstd::prelude::*;

use crate::diff::{
    line_views, DiffLine, FileDiff, FileDiffView, HunkView, LineView,
};
use crate::text::{decimal, push_char, push_decimal};

verus! {

// ---------------------------------------------------------------------------
// What a patch holds
// ---------------------------------------------------------------------------

/// The three header lines of a patch.
pub open spec fn patch_header(old_path: Seq<char>, new_path: Seq<char>) -> Seq<char> {
    "diff --git "@ + old_path + " "@ + new_path + "\n"@ + "--- "@ + old_path + "\n"@ + "+++ "@
        + new_path + "\n"@
}

/// Whether a line of this origin belongs to the old side of a hunk.
pub open spec fn on_old_side(origin: char) -> bool {
    origin == '-' || origin == ' '
}

/// Whether a line of this origin belongs to the new side of a hunk.
pub open spec fn on_new_side(origin: char) -> bool {
    origin == '+' || origin == ' '
}

/// The number of lines on the old side (removed and context lines).
pub open spec fn count_old(lines: Seq<LineView>) -> nat
    decreases lines.len(),
{
    if lines.len() == 0 {
        0
    } else {
        count_old(lines.drop_last()) + if on_old_side(lines.last().origin) {
            1nat
        } else {
            0nat
        }
    }
}

/// The number of lines on the new side (added and context lines).
pub open spec fn count_new(lines: Seq<LineView>) -> nat
    decreases lines.len(),
{
    if lines.len() == 0 {
        0
    } else {
        count_new(lines.drop_last()) + if on_new_side(lines.last().origin) {
            1nat
        } else {
            0nat
        }
    }
}

/// `x` reduced to the range of `u32`, as `as u32` does.
pub open spec fn wrap_u32(x: int) -> int {
    x % 0x1_0000_0000
}

/// Whether `s` ends in a newline.
pub open spec fn ends_with_newline(s: Seq<char>) -> bool {
    s.len() > 0 && s.last() == '\n'
}

/// The character a line starts with in a patch: `+`, `-`, or a space for
/// every other origin.
pub open spec fn origin_mark(origin: char) -> char {
    if origin == '+' {
        '+'
    } else if origin == '-' {
        '-'
    } else {
        ' '
    }
}

/// The marker line that follows, in a patch, a line that has no newline
/// (the last line of a file that does not end in one).
pub open spec fn no_newline_marker() -> Seq<char> {
    "\n\\ No newline at end of file\n"@
}

/// A line as a patch writes it: its mark and its content; where the
/// content has no newline, the line is ended and followed by the marker
/// `\ No newline at end of file`, so that applying the patch keeps the
/// file's missing final newline.
pub open spec fn line_text(l: LineView) -> Seq<char> {
    seq![origin_mark(l.origin)] + l.content + if ends_with_newline(l.content) {
        Seq::<char>::empty()
    } else {
        no_newline_marker()
    }
}

/// The lines of a hunk as a patch writes them.
pub open spec fn lines_text(lines: Seq<LineView>) -> Seq<char>
    decreases lines.len(),
{
    if lines.len() == 0 {
        Seq::<char>::empty()
    } else {
        lines_text(lines.drop_last()) + line_text(lines.last())
    }
}

/// A hunk as a patch writes it: its `@@` line, with line counts taken from
/// the lines themselves, then its lines; nothing at all where the hunk has
/// no line on either side.
pub open spec fn hunk_text(old_start: u32, new_start: u32, lines: Seq<LineView>) -> Seq<char> {
    let o = wrap_u32(count_old(lines) as int) as nat;
    let n = wrap_u32(count_new(lines) as int) as nat;
    if o == 0 && n == 0 {
        Seq::<char>::empty()
    } else {
        "@@ -"@ + decimal(old_start as nat) + ","@ + decimal(o) + " +"@ + decimal(new_start as nat)
            + ","@ + decimal(n) + " @@\n"@ + lines_text(lines)
    }
}

/// Every hunk, each at its own start lines.
pub open spec fn all_hunks_text(hunks: Seq<HunkView>) -> Seq<char>
    decreases hunks.len(),
{
    if hunks.len() == 0 {
        Seq::<char>::empty()
    } else {
        all_hunks_text(hunks.drop_last()) + hunk_text(
            hunks.last().old_start,
            hunks.last().new_start,
            hunks.last().lines,
        )
    }
}

/// The patch of every change in the file.
pub open spec fn patch_all(fd: FileDiffView) -> Seq<char> {
    patch_header(fd.old_path, fd.new_path) + all_hunks_text(fd.hunks)
}

// --- by hunk ---

/// How many lines a hunk adds to the file, as its header states.
pub open spec fn hunk_delta(h: HunkView) -> int {
    h.new_lines - h.old_lines
}

/// The lines added by the hunks before hunk `k` that are not selected: the
/// amount by which later hunks start earlier in the new file.
pub open spec fn skipped_offset(hunks: Seq<HunkView>, selected: Seq<usize>, k: nat) -> int
    decreases k,
{
    if k == 0 {
        0
    } else {
        skipped_offset(hunks, selected, (k - 1) as nat) + if selected.contains((k - 1) as usize) {
            0
        } else {
            hunk_delta(hunks[k - 1])
        }
    }
}

/// The selected hunks among the first `k`, each moved up by the lines that
/// skipped hunks before it would have added.
pub open spec fn selected_hunks_text(hunks: Seq<HunkView>, selected: Seq<usize>, k: nat) -> Seq<
    char,
>
    decreases k,
{
    if k == 0 {
        Seq::<char>::empty()
    } else {
        let i = (k - 1) as nat;
        let h = hunks[i as int];
        selected_hunks_text(hunks, selected, i) + if selected.contains(i as usize) {
            hunk_text(
                h.old_start,
                wrap_u32(h.new_start - skipped_offset(hunks, selected, i)) as u32,
                h.lines,
            )
        } else {
            Seq::<char>::empty()
        }
    }
}

/// The patch of the hunks whose indices are in `selected`.
pub open spec fn patch_of_hunks(fd: FileDiffView, selected: Seq<usize>) -> Seq<char> {
    patch_header(fd.old_path, fd.new_path) + selected_hunks_text(
        fd.hunks,
        selected,
        fd.hunks.len(),
    )
}

/// The running offsets of `patch_of_hunks`, and the start lines they move,
/// fit in an `i64`.
pub open spec fn hunk_offsets_fit(hunks: Seq<HunkView>, selected: Seq<usize>) -> bool {
    &&& forall|k: nat|
        k <= hunks.len() ==> i64::MIN <= #[trigger] skipped_offset(hunks, selected, k) <= i64::MAX
    &&& forall|k: nat|
        k < hunks.len() && selected.contains(k as usize) ==> i64::MIN <= #[trigger] hunks[k as int].new_start
            - skipped_offset(hunks, selected, k) <= i64::MAX
}

// --- by line ---

/// The number of lines in the first `k` hunks.
pub open spec fn lines_before(hunks: Seq<HunkView>, k: nat) -> nat
    decreases k,
{
    if k == 0 || k > hunks.len() {
        0
    } else {
        lines_before(hunks, (k - 1) as nat) + hunks[k - 1].lines.len()
    }
}

/// The number of the first line of hunk `k`: lines are numbered from 1,
/// continuously across hunks.
pub open spec fn first_line_number(hunks: Seq<HunkView>, k: nat) -> int {
    1 + lines_before(hunks, k) as int
}

/// Whether line number `n` lies in one of the inclusive `ranges`.
pub open spec fn in_ranges(ranges: Seq<(usize, usize)>, n: int) -> bool {
    exists|i: int| 0 <= i < ranges.len() && #[trigger] ranges[i].0 <= n && n <= ranges[i].1
}

/// What a line becomes in a patch of selected lines: an added line stays
/// if selected and goes otherwise; a removed line stays if selected and
/// becomes context otherwise; a context line stays.
pub open spec fn kept_line(l: LineView, selected: bool) -> Seq<LineView> {
    if l.origin == '+' {
        if selected {
            seq![l]
        } else {
            Seq::<LineView>::empty()
        }
    } else if l.origin == '-' {
        if selected {
            seq![l]
        } else {
            seq![LineView { origin: ' ', content: l.content }]
        }
    } else {
        seq![l]
    }
}

/// The lines of a hunk whose first line has number `first`, once filtered
/// by `ranges`.
pub open spec fn kept_lines(lines: Seq<LineView>, first: int, ranges: Seq<(usize, usize)>) -> Seq<
    LineView,
>
    decreases lines.len(),
{
    if lines.len() == 0 {
        Seq::<LineView>::empty()
    } else {
        kept_lines(lines.drop_last(), first, ranges) + kept_line(
            lines.last(),
            in_ranges(ranges, first + lines.len() - 1),
        )
    }
}

/// How many lines the new file holds for a line that is left out of the
/// patch: one for an added line that is not staged, minus one for a removed
/// line that is not staged.
pub open spec fn unstaged_shift(l: LineView, selected: bool) -> int {
    if selected {
        0
    } else if l.origin == '+' {
        1
    } else if l.origin == '-' {
        -1
    } else {
        0
    }
}

/// The sum of `unstaged_shift` over the lines of a hunk.
pub open spec fn lines_shift(lines: Seq<LineView>, first: int, ranges: Seq<(usize, usize)>) -> int
    decreases lines.len(),
{
    if lines.len() == 0 {
        0
    } else {
        lines_shift(lines.drop_last(), first, ranges) + unstaged_shift(
            lines.last(),
            in_ranges(ranges, first + lines.len() - 1),
        )
    }
}

/// The sum of `lines_shift` over the first `k` hunks.
pub open spec fn line_offset(hunks: Seq<HunkView>, ranges: Seq<(usize, usize)>, k: nat) -> int
    decreases k,
{
    if k == 0 || k > hunks.len() {
        0
    } else {
        let i = (k - 1) as nat;
        line_offset(hunks, ranges, i) + lines_shift(
            hunks[i as int].lines,
            first_line_number(hunks, i),
            ranges,
        )
    }
}

/// The first `k` hunks with their lines filtered by `ranges`, each moved up
/// by the lines that unstaged changes before it would have added.
pub open spec fn selected_lines_text(
    hunks: Seq<HunkView>,
    ranges: Seq<(usize, usize)>,
    k: nat,
) -> Seq<char>
    decreases k,
{
    if k == 0 || k > hunks.len() {
        Seq::<char>::empty()
    } else {
        let i = (k - 1) as nat;
        let h = hunks[i as int];
        selected_lines_text(hunks, ranges, i) + hunk_text(
            h.old_start,
            wrap_u32(h.new_start - line_offset(hunks, ranges, i)) as u32,
            kept_lines(h.lines, first_line_number(hunks, i), ranges),
        )
    }
}

/// The patch of the lines whose numbers lie in `ranges`.
pub open spec fn patch_of_lines(fd: FileDiffView, ranges: Seq<(usize, usize)>) -> Seq<char> {
    patch_header(fd.old_path, fd.new_path) + selected_lines_text(fd.hunks, ranges, fd.hunks.len())
}

/// The line numbers and offsets of `patch_of_lines` fit the machine: the file
/// has fewer lines than `usize::MAX`, and few enough that an `i64` holds
/// every start line moved by them.
pub open spec fn line_count_fits(hunks: Seq<HunkView>) -> bool {
    &&& lines_before(hunks, hunks.len()) < usize::MAX
    &&& lines_before(hunks, hunks.len()) + 0x1_0000_0000 <= i64::MAX
}

// ---------------------------------------------------------------------------
// Writing a patch
// ---------------------------------------------------------------------------

fn write_patch_header(out: &mut String, file_diff: &FileDiff)
    ensures
        final(out)@ == old(out)@ + patch_header(file_diff.old_path@, file_diff.new_path@),
{
    let a_path = file_diff.old_path.as_str();
    let b_path = file_diff.new_path.as_str();
    out.append("diff --git ");
    out.append(a_path);
    out.append(" ");
    out.append(b_path);
    out.append("\n");
    out.append("--- ");
    out.append(a_path);
    out.append("\n");
    out.append("+++ ");
    out.append(b_path);
    out.append("\n");
    assert(out@ =~= old(out)@ + patch_header(file_diff.old_path@, file_diff.new_path@));
}

/// `x as u32`, for a count.
fn truncate_to_u32(x: usize) -> (r: u32)
    ensures
        r as int == wrap_u32(x as int),
{
    assert((x as u32) as int == (x as int) % 0x1_0000_0000) by (bit_vector);
    x as u32
}

/// `x as u32`, for a start line moved by an offset.
fn wrap_to_u32(x: i64) -> (r: u32)
    ensures
        r as int == wrap_u32(x as int),
{
    assert((x as u32) as int == (x as int) % 0x1_0000_0000) by (bit_vector);
    x as u32
}

/// Whether `s` ends in a newline.
fn has_trailing_newline(s: &String) -> (r: bool)
    ensures
        r == ends_with_newline(s@),
{
    let t = s.as_str();
    let n = t.unicode_len();
    n > 0 && t.get_char(n - 1) == '\n'
}

fn write_hunk_with_start(out: &mut String, old_start: u32, new_start: u32, lines: &[DiffLine])
    ensures
        final(out)@ == old(out)@ + hunk_text(old_start, new_start, line_views(lines@)),
{
    let ghost views = line_views(lines@);
    let len = lines.len();
    let mut old_count: usize = 0;
    let mut new_count: usize = 0;
    for i in 0..len
        invariant
            len == lines@.len(),
            views == line_views(lines@),
            old_count == count_old(views.take(i as int)),
            new_count == count_new(views.take(i as int)),
            old_count <= i,
            new_count <= i,
    {
        assert(views.take(i + 1).drop_last() =~= views.take(i as int));
        let origin = lines[i].origin;
        if origin == '-' || origin == ' ' {
            old_count += 1;
        }
        if origin == '+' || origin == ' ' {
            new_count += 1;
        }
    }
    assert(views.take(len as int) =~= views);
    let old_lines = truncate_to_u32(old_count);
    let new_lines = truncate_to_u32(new_count);
    if old_lines == 0 && new_lines == 0 {
        assert(out@ =~= old(out)@ + hunk_text(old_start, new_start, views));
        return;
    }
    out.append("@@ -");
    push_decimal(out, old_start as u64);
    out.append(",");
    push_decimal(out, old_lines as u64);
    out.append(" +");
    push_decimal(out, new_start as u64);
    out.append(",");
    push_decimal(out, new_lines as u64);
    out.append(" @@\n");
    let ghost before_lines = out@;
    for i in 0..len
        invariant
            len == lines@.len(),
            views == line_views(lines@),
            out@ == before_lines + lines_text(views.take(i as int)),
    {
        assert(views.take(i + 1).drop_last() =~= views.take(i as int));
        let line = &lines[i];
        let has_newline = has_trailing_newline(&line.content);
        if line.origin == '+' {
            push_char(out, '+');
        } else if line.origin == '-' {
            push_char(out, '-');
        } else {
            push_char(out, ' ');
        }
        out.append(line.content.as_str());
        if !has_newline {
            out.append("\n\\ No newline at end of file\n");
        }
        assert(out@ =~= before_lines + lines_text(views.take(i + 1)));
    }
    assert(views.take(len as int) =~= views);
    assert(out@ =~= old(out)@ + hunk_text(old_start, new_start, views));
}

// ---------------------------------------------------------------------------
// The three kinds of patch
// ---------------------------------------------------------------------------

/// The patch of every change in the file (what staging the whole file
/// applies).
pub fn filter_all(file_diff: &FileDiff) -> (patch: String)
    ensures
        patch@ == patch_all(file_diff@),
{
    let mut out = String::new();
    write_patch_header(&mut out, file_diff);
    let ghost fd = file_diff@;
    let ghost header = out@;
    let n = file_diff.hunks.len();
    for k in 0..n
        invariant
            n == file_diff.hunks@.len(),
            fd == file_diff@,
            header == patch_header(fd.old_path, fd.new_path),
            out@ == header + all_hunks_text(fd.hunks.take(k as int)),
    {
        let hunk = &file_diff.hunks[k];
        assert(fd.hunks.take(k + 1).drop_last() =~= fd.hunks.take(k as int));
        assert(fd.hunks[k as int] == hunk@);
        write_hunk_with_start(&mut out, hunk.old_start, hunk.new_start, hunk.lines.as_slice());
        assert(out@ =~= header + all_hunks_text(fd.hunks.take(k + 1)));
    }
    assert(fd.hunks.take(n as int) =~= fd.hunks);
    out
}

/// Whether `idx` occurs in `selected`.
fn contains_index(selected: &[usize], idx: usize) -> (r: bool)
    ensures
        r == selected@.contains(idx),
{
    let len = selected.len();
    for i in 0..len
        invariant
            len == selected@.len(),
            forall|j: int| 0 <= j < i ==> selected@[j] != idx,
    {
        if selected[i] == idx {
            assert(selected@[i as int] == idx);
            return true;
        }
    }
    false
}

/// The patch of the hunks whose indices (from 0) are in `selected`. Hunks
/// that are not selected are left out, and every selected hunk after them
/// starts earlier in the new file by the lines that they would have added.
pub fn filter_by_hunks(file_diff: &FileDiff, selected: &[usize]) -> (patch: String)
    requires
        hunk_offsets_fit(file_diff@.hunks, selected@),
    ensures
        patch@ == patch_of_hunks(file_diff@, selected@),
{
    let mut out = String::new();
    write_patch_header(&mut out, file_diff);
    let ghost fd = file_diff@;
    let ghost header = out@;

    // Track cumulative offset from skipped hunks
    let mut skipped: i64 = 0;

    let n = file_diff.hunks.len();
    for idx in 0..n
        invariant
            n == file_diff.hunks@.len(),
            fd == file_diff@,
            hunk_offsets_fit(fd.hunks, selected@),
            header == patch_header(fd.old_path, fd.new_path),
            skipped == skipped_offset(fd.hunks, selected@, idx as nat),
            out@ == header + selected_hunks_text(fd.hunks, selected@, idx as nat),
    {
        let hunk = &file_diff.hunks[idx];
        assert(fd.hunks[idx as int] == hunk@);
        assert(i64::MIN <= skipped_offset(fd.hunks, selected@, (idx + 1) as nat) <= i64::MAX);
        let hunk_delta = hunk.new_lines as i64 - hunk.old_lines as i64;
        if contains_index(selected, idx) {
            assert(i64::MIN <= fd.hunks[idx as int].new_start - skipped_offset(
                fd.hunks,
                selected@,
                idx as nat,
            ) <= i64::MAX);
            let adjusted_new_start = wrap_to_u32(hunk.new_start as i64 - skipped);
            write_hunk_with_start(
                &mut out,
                hunk.old_start,
                adjusted_new_start,
                hunk.lines.as_slice(),
            );
        } else {
            skipped = skipped + hunk_delta;
        }
        assert(out@ =~= header + selected_hunks_text(fd.hunks, selected@, (idx + 1) as nat));
    }
    out
}

/// Whether line number `line_num` lies in one of `ranges`.
fn is_selected(ranges: &[(usize, usize)], line_num: usize) -> (r: bool)
    ensures
        r == in_ranges(ranges@, line_num as int),
{
    let len = ranges.len();
    for i in 0..len
        invariant
            len == ranges@.len(),
            forall|j: int|
                0 <= j < i ==> !(#[trigger] ranges@[j].0 <= line_num && line_num <= ranges@[j].1),
    {
        let (start, end) = ranges[i];
        if line_num >= start && line_num <= end {
            assert(ranges@[i as int].0 <= line_num && line_num <= ranges@[i as int].1);
            return true;
        }
    }
    false
}

/// `lines_before` counts the lines of each hunk once more per hunk.
proof fn lemma_lines_before_step(hunks: Seq<HunkView>, k: nat)
    requires
        k < hunks.len(),
    ensures
        lines_before(hunks, k + 1) == lines_before(hunks, k) + hunks[k as int].lines.len(),
{
}

/// `lines_before` grows with the number of hunks.
pub proof fn lemma_lines_before_mono(hunks: Seq<HunkView>, j: nat, k: nat)
    requires
        j <= k <= hunks.len(),
    ensures
        lines_before(hunks, j) <= lines_before(hunks, k),
    decreases k - j,
{
    if j < k {
        lemma_lines_before_mono(hunks, j, (k - 1) as nat);
    }
}

/// A hunk's shift is bounded by its number of lines.
proof fn lemma_lines_shift_bound(lines: Seq<LineView>, first: int, ranges: Seq<(usize, usize)>)
    ensures
        -(lines.len() as int) <= lines_shift(lines, first, ranges) <= lines.len(),
    decreases lines.len(),
{
    if lines.len() > 0 {
        lemma_lines_shift_bound(lines.drop_last(), first, ranges);
    }
}

/// The offset before hunk `k` is bounded by the lines before it.
proof fn lemma_line_offset_bound(hunks: Seq<HunkView>, ranges: Seq<(usize, usize)>, k: nat)
    requires
        k <= hunks.len(),
    ensures
        -(lines_before(hunks, k) as int) <= line_offset(hunks, ranges, k) <= lines_before(hunks, k),
    decreases k,
{
    if k > 0 {
        let i = (k - 1) as nat;
        lemma_line_offset_bound(hunks, ranges, i);
        lemma_lines_shift_bound(hunks[i as int].lines, first_line_number(hunks, i), ranges);
    }
}

/// The patch of the lines whose numbers lie in one of the inclusive
/// `selected_ranges` (numbers from 1, continuous across hunks). Added lines
/// that are not selected are dropped, removed lines that are not selected
/// become context, and the `@@` counts are taken from the lines that remain;
/// each hunk starts earlier in the new file by the lines that unselected
/// changes before it would have added.
pub fn filter_by_lines(file_diff: &FileDiff, selected_ranges: &[(usize, usize)]) -> (patch: String)
    requires
        line_count_fits(file_diff@.hunks),
    ensures
        patch@ == patch_of_lines(file_diff@, selected_ranges@),
{
    let mut out = String::new();
    write_patch_header(&mut out, file_diff);
    let ghost fd = file_diff@;
    let ghost hunks = fd.hunks;
    let ghost ranges = selected_ranges@;
    let ghost header = out@;

    let mut global_line: usize = 1;
    let mut offset_adjustment: i64 = 0;

    let n = file_diff.hunks.len();
    for k in 0..n
        invariant
            n == file_diff.hunks@.len(),
            fd == file_diff@,
            hunks == fd.hunks,
            ranges == selected_ranges@,
            line_count_fits(hunks),
            header == patch_header(fd.old_path, fd.new_path),
            global_line == first_line_number(hunks, k as nat),
            offset_adjustment == line_offset(hunks, ranges, k as nat),
            out@ == header + selected_lines_text(hunks, ranges, k as nat),
    {
        let hunk = &file_diff.hunks[k];
        let ghost h = hunks[k as int];
        assert(h == hunk@);
        let ghost first = global_line as int;
        proof {
            lemma_lines_before_step(hunks, k as nat);
            lemma_lines_before_mono(hunks, (k + 1) as nat, n as nat);
            lemma_line_offset_bound(hunks, ranges, k as nat);
            lemma_line_offset_bound(hunks, ranges, (k + 1) as nat);
            lemma_lines_before_mono(hunks, k as nat, n as nat);
        }
        let mut filtered_lines: Vec<DiffLine> = Vec::new();
        let mut hunk_added: i64 = 0;
        let mut hunk_removed: i64 = 0;
        let mut hunk_selected_added: i64 = 0;
        let mut hunk_selected_removed: i64 = 0;
        let len = hunk.lines.len();
        for j in 0..len
            invariant
                len == h.lines.len(),
                h == hunk@,
                ranges == selected_ranges@,
                first == first_line_number(hunks, k as nat),
                first + len <= usize::MAX,
                len <= i64::MAX,
                global_line == first + j,
                line_views(filtered_lines@) == kept_lines(h.lines.take(j as int), first, ranges),
                0 <= hunk_selected_added <= hunk_added <= j,
                0 <= hunk_selected_removed <= hunk_removed <= j,
                (hunk_added - hunk_removed) - (hunk_selected_added - hunk_selected_removed)
                    == lines_shift(h.lines.take(j as int), first, ranges),
        {
            let line = &hunk.lines[j];
            let ghost lv = h.lines[j as int];
            assert(lv == line@);
            assert(h.lines.take(j + 1).drop_last() =~= h.lines.take(j as int));
            let selected = is_selected(selected_ranges, global_line);
            let ghost before = line_views(filtered_lines@);
            if line.origin == '+' {
                hunk_added += 1;
                if selected {
                    hunk_selected_added += 1;
                    filtered_lines.push(
                        DiffLine { origin: line.origin, content: line.content.clone() },
                    );
                }
            } else if line.origin == '-' {
                hunk_removed += 1;
                if selected {
                    hunk_selected_removed += 1;
                    filtered_lines.push(
                        DiffLine { origin: line.origin, content: line.content.clone() },
                    );
                } else {
                    filtered_lines.push(DiffLine { origin: ' ', content: line.content.clone() });
                }
            } else {
                filtered_lines.push(DiffLine { origin: line.origin, content: line.content.clone() });
            }
            assert(line_views(filtered_lines@) =~= before + kept_line(lv, selected));
            assert(h.lines.take(j + 1).last() == lv);
            assert(kept_lines(h.lines.take(j + 1), first, ranges) == kept_lines(
                h.lines.take(j as int),
                first,
                ranges,
            ) + kept_line(lv, selected));
            assert(lines_shift(h.lines.take(j + 1), first, ranges) == lines_shift(
                h.lines.take(j as int),
                first,
                ranges,
            ) + unstaged_shift(lv, selected));
            global_line += 1;
        }
        assert(h.lines.take(len as int) =~= h.lines);

        let adjusted_new_start = wrap_to_u32(hunk.new_start as i64 - offset_adjustment);
        write_hunk_with_start(&mut out, hunk.old_start, adjusted_new_start, filtered_lines.as_slice());

        // Original hunk delta vs what we actually applied
        let original_delta = hunk_added - hunk_removed;
        let applied_delta = hunk_selected_added - hunk_selected_removed;
        offset_adjustment = offset_adjustment + (original_delta - applied_delta);
        assert(out@ =~= header + selected_lines_text(hunks, ranges, (k + 1) as nat));
    }
    out
}

// ---------------------------------------------------------------------------
// Checking the machine limits
// ---------------------------------------------------------------------------

/// Whether the offsets that `filter_by_hunks` computes for this selection
/// fit in an `i64`, as its precondition asks.
pub fn hunk_offsets_in_range(file_diff: &FileDiff, selected: &[usize]) -> (r: bool)
    ensures
        r == hunk_offsets_fit(file_diff@.hunks, selected@),
{
    let ghost hunks = file_diff@.hunks;
    let mut skipped: i128 = 0;
    let n = file_diff.hunks.len();
    for idx in 0..n
        invariant
            n == file_diff.hunks@.len(),
            hunks == file_diff@.hunks,
            skipped == skipped_offset(hunks, selected@, idx as nat),
            -0x1_0000_0000 * (idx as int) <= skipped <= 0x1_0000_0000 * (idx as int),
            forall|k: nat|
                k <= idx ==> i64::MIN <= #[trigger] skipped_offset(hunks, selected@, k) <= i64::MAX,
            forall|k: nat|
                k < idx && selected@.contains(k as usize) ==> i64::MIN <= #[trigger] hunks[k as int].new_start
                    - skipped_offset(hunks, selected@, k) <= i64::MAX,
    {
        let hunk = &file_diff.hunks[idx];
        assert(hunks[idx as int] == hunk@);
        if contains_index(selected, idx) {
            let moved = hunk.new_start as i128 - skipped;
            if moved < i64::MIN as i128 || moved > i64::MAX as i128 {
                assert(selected@.contains(idx as usize));
                assert(!(i64::MIN <= hunks[idx as int].new_start - skipped_offset(
                    hunks,
                    selected@,
                    idx as nat,
                ) <= i64::MAX));
                return false;
            }
        } else {
            skipped = skipped + (hunk.new_lines as i128 - hunk.old_lines as i128);
        }
        if skipped < i64::MIN as i128 || skipped > i64::MAX as i128 {
            assert(skipped == skipped_offset(hunks, selected@, (idx + 1) as nat));
            return false;
        }
    }
    true
}

/// The number of lines in the diff, which `filter_by_lines` and
/// `display_rows` bound in their preconditions; `None` where it exceeds
/// `u64::MAX`.
pub fn count_lines(file_diff: &FileDiff) -> (r: Option<u64>)
    ensures
        match r {
            Some(total) => total == lines_before(file_diff@.hunks, file_diff@.hunks.len()),
            None => lines_before(file_diff@.hunks, file_diff@.hunks.len()) > u64::MAX,
        },
{
    let ghost hunks = file_diff@.hunks;
    let mut total: u64 = 0;
    let n = file_diff.hunks.len();
    for idx in 0..n
        invariant
            n == file_diff.hunks@.len(),
            hunks == file_diff@.hunks,
            total == lines_before(hunks, idx as nat),
    {
        let hunk = &file_diff.hunks[idx];
        assert(hunks[idx as int] == hunk@);
        let len = hunk.lines.len() as u64;
        match total.checked_add(len) {
            Some(t) => {
                total = t;
            },
            None => {
                proof {
                    lemma_lines_before_mono(hunks, (idx + 1) as nat, n as nat);
                }
                return None;
            },
        }
    }
    Some(total)
}

} // verus!
