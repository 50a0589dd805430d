//! Properties that tie the patches, the labelled view and the selection
//! parser together.
use vstd::prelude::*;

use crate::diff::{diff_lines_only, kept_hunk, FileDiffView, HunkView, LineView};
use crate::display::{hunk_label, hunk_rows, hunks_rows, line_row, view_rows, RowKind, RowView};
use crate::filter::{
    all_hunks_text, count_new, count_old, first_line_number, in_ranges, kept_line,
    kept_lines, lemma_lines_before_mono, line_offset, lines_before, lines_shift, patch_all,
    hunk_text, patch_header, patch_of_hunks, patch_of_lines, selected_hunks_text, selected_lines_text,
    skipped_offset, wrap_u32,
};
use crate::selection::{
    first_index_of, hunk_of_piece, hunk_picks, hunk_selection, line_selection, range_of_piece,
    range_picks,
};
use crate::text::{
    decimal, is_digit, joined, lacks, lemma_decimal_digits, lemma_first_index_after,
    lemma_parse_decimal, lemma_split_joined, lemma_trim_digit_ends, parse_usize, split, trim,
    strip_newlines, trim_end, trim_start,
};

verus! {

// ---------------------------------------------------------------------------
// Patches of hunks
// ---------------------------------------------------------------------------

proof fn lemma_every_hunk_selected(hunks: Seq<HunkView>, selected: Seq<usize>, k: nat)
    requires
        k <= hunks.len(),
        forall|i: usize| (i as int) < hunks.len() ==> selected.contains(i),
    ensures
        skipped_offset(hunks, selected, k) == 0,
        selected_hunks_text(hunks, selected, k) == all_hunks_text(hunks.take(k as int)),
    decreases k,
{
    if k > 0 {
        let i = (k - 1) as nat;
        lemma_every_hunk_selected(hunks, selected, i);
        assert(hunks.take(k as int).drop_last() =~= hunks.take(i as int));
        assert(selected.contains(i as usize));
        let h = hunks[i as int];
        assert(wrap_u32(h.new_start - 0) == h.new_start as int);
    } else {
        assert(hunks.take(0) =~= Seq::<HunkView>::empty());
    }
}

/// Selecting every hunk gives the same patch as staging the whole file.
pub proof fn law_all_hunks_is_whole_file(fd: FileDiffView, selected: Seq<usize>)
    requires
        forall|i: usize| (i as int) < fd.hunks.len() ==> selected.contains(i),
    ensures
        patch_of_hunks(fd, selected) == patch_all(fd),
{
    lemma_every_hunk_selected(fd.hunks, selected, fd.hunks.len());
    assert(fd.hunks.take(fd.hunks.len() as int) =~= fd.hunks);
}

proof fn lemma_no_hunk_selected(hunks: Seq<HunkView>, k: nat)
    ensures
        selected_hunks_text(hunks, Seq::<usize>::empty(), k) == Seq::<char>::empty(),
    decreases k,
{
    if k > 0 {
        lemma_no_hunk_selected(hunks, (k - 1) as nat);
        assert(!Seq::<usize>::empty().contains((k - 1) as usize));
        assert(Seq::<char>::empty() + Seq::<char>::empty() =~= Seq::<char>::empty());
    }
}

/// Selecting no hunk gives a patch of the header alone, which changes nothing.
pub proof fn law_no_hunk_is_header_only(fd: FileDiffView)
    ensures
        patch_of_hunks(fd, Seq::<usize>::empty()) == patch_header(fd.old_path, fd.new_path),
{
    lemma_no_hunk_selected(fd.hunks, fd.hunks.len());
    assert(patch_header(fd.old_path, fd.new_path) + Seq::<char>::empty() =~= patch_header(
        fd.old_path,
        fd.new_path,
    ));
}

proof fn lemma_same_selection(hunks: Seq<HunkView>, s1: Seq<usize>, s2: Seq<usize>, k: nat)
    requires
        k <= hunks.len(),
        forall|i: usize| (i as int) < hunks.len() ==> (s1.contains(i) <==> s2.contains(i)),
    ensures
        skipped_offset(hunks, s1, k) == skipped_offset(hunks, s2, k),
        selected_hunks_text(hunks, s1, k) == selected_hunks_text(hunks, s2, k),
    decreases k,
{
    if k > 0 {
        lemma_same_selection(hunks, s1, s2, (k - 1) as nat);
        assert(s1.contains((k - 1) as usize) == s2.contains((k - 1) as usize));
    }
}

/// The patch of selected hunks depends only on which of the file's hunks
/// are selected: not on the order in which they are listed, on
/// repetitions, nor on indices past the last hunk.
pub proof fn law_hunk_order_and_repeats_do_not_matter(
    fd: FileDiffView,
    s1: Seq<usize>,
    s2: Seq<usize>,
)
    requires
        forall|i: usize| (i as int) < fd.hunks.len() ==> (s1.contains(i) <==> s2.contains(i)),
    ensures
        patch_of_hunks(fd, s1) == patch_of_hunks(fd, s2),
{
    lemma_same_selection(fd.hunks, s1, s2, fd.hunks.len());
}

// ---------------------------------------------------------------------------
// Patches of lines
// ---------------------------------------------------------------------------

proof fn lemma_kept_lines_all(lines: Seq<LineView>, first: int, ranges: Seq<(usize, usize)>)
    requires
        forall|n: int| first <= n < first + lines.len() ==> in_ranges(ranges, n),
    ensures
        kept_lines(lines, first, ranges) == lines,
        lines_shift(lines, first, ranges) == 0,
    decreases lines.len(),
{
    if lines.len() > 0 {
        lemma_kept_lines_all(lines.drop_last(), first, ranges);
        assert(in_ranges(ranges, first + lines.len() - 1));
        let l = lines.last();
        assert(kept_line(l, true) == seq![l]);
        assert(lines.drop_last().push(l) =~= lines);
        assert(lines.drop_last() + seq![l] =~= lines);
    } else {
        assert(lines =~= Seq::<LineView>::empty());
    }
}

proof fn lemma_every_line_selected(hunks: Seq<HunkView>, ranges: Seq<(usize, usize)>, k: nat)
    requires
        k <= hunks.len(),
        forall|n: int| 1 <= n <= lines_before(hunks, hunks.len()) ==> in_ranges(ranges, n),
    ensures
        line_offset(hunks, ranges, k) == 0,
        selected_lines_text(hunks, ranges, k) == all_hunks_text(hunks.take(k as int)),
    decreases k,
{
    if k > 0 {
        let i = (k - 1) as nat;
        lemma_every_line_selected(hunks, ranges, i);
        assert(hunks.take(k as int).drop_last() =~= hunks.take(i as int));
        let h = hunks[i as int];
        let first = first_line_number(hunks, i);
        lemma_lines_before_mono(hunks, k, hunks.len());
        assert(lines_before(hunks, k) == lines_before(hunks, i) + h.lines.len());
        assert forall|n: int| first <= n < first + h.lines.len() implies in_ranges(ranges, n) by {
        }
        lemma_kept_lines_all(h.lines, first, ranges);
        assert(wrap_u32(h.new_start - 0) == h.new_start as int);
    } else {
        assert(hunks.take(0) =~= Seq::<HunkView>::empty());
    }
}

/// Selecting every line number of the file gives the same patch as staging
/// the whole file.
pub proof fn law_all_lines_is_whole_file(fd: FileDiffView, ranges: Seq<(usize, usize)>)
    requires
        forall|n: int| 1 <= n <= lines_before(fd.hunks, fd.hunks.len()) ==> in_ranges(ranges, n),
    ensures
        patch_of_lines(fd, ranges) == patch_all(fd),
{
    lemma_every_line_selected(fd.hunks, ranges, fd.hunks.len());
    assert(fd.hunks.take(fd.hunks.len() as int) =~= fd.hunks);
}

proof fn lemma_count_old_append(a: Seq<LineView>, b: Seq<LineView>)
    ensures
        count_old(a + b) == count_old(a) + count_old(b),
        count_new(a + b) == count_new(a) + count_new(b),
    decreases b.len(),
{
    if b.len() == 0 {
        assert(a + b =~= a);
    } else {
        lemma_count_old_append(a, b.drop_last());
        assert((a + b).drop_last() =~= a + b.drop_last());
        assert((a + b).last() == b.last());
    }
}

/// A hunk filtered by line keeps its old side: every removed and context
/// line is still there (an unselected removal as context), so the count of
/// old lines in its `@@` header is unchanged; its new side loses the lines
/// that the unselected changes would have added, so the count of new lines
/// is the original one less the hunk's shift.
pub proof fn law_line_filter_counts(lines: Seq<LineView>, first: int, ranges: Seq<(usize, usize)>)
    ensures
        count_old(kept_lines(lines, first, ranges)) == count_old(lines),
        count_new(kept_lines(lines, first, ranges)) == count_new(lines) - lines_shift(
            lines,
            first,
            ranges,
        ),
    decreases lines.len(),
{
    if lines.len() > 0 {
        let rest = lines.drop_last();
        let l = lines.last();
        let sel = in_ranges(ranges, first + lines.len() - 1);
        law_line_filter_counts(rest, first, ranges);
        lemma_count_old_append(kept_lines(rest, first, ranges), kept_line(l, sel));
        let k = kept_line(l, sel);
        lemma_count_single(l);
        lemma_count_single(LineView { origin: ' ', content: l.content });
        assert(count_old(Seq::<LineView>::empty()) == 0);
        assert(count_new(Seq::<LineView>::empty()) == 0);
    }
}

proof fn lemma_count_single(l: LineView)
    ensures
        count_old(seq![l]) == if l.origin == '-' || l.origin == ' ' {
            1int
        } else {
            0int
        },
        count_new(seq![l]) == if l.origin == '+' || l.origin == ' ' {
            1int
        } else {
            0int
        },
{
    assert(seq![l].drop_last() =~= Seq::<LineView>::empty());
    assert(count_old(Seq::<LineView>::empty()) == 0);
    assert(count_new(Seq::<LineView>::empty()) == 0);
    assert(seq![l].last() == l);
}

// ---------------------------------------------------------------------------
// The view and the selection
// ---------------------------------------------------------------------------

/// Line numbers are continuous across hunks and never shared: two lines
/// have the same number only if they are the same line.
pub proof fn law_line_numbers_are_distinct(
    hunks: Seq<HunkView>,
    k1: nat,
    j1: nat,
    k2: nat,
    j2: nat,
)
    requires
        k1 < hunks.len(),
        k2 < hunks.len(),
        j1 < hunks[k1 as int].lines.len(),
        j2 < hunks[k2 as int].lines.len(),
    ensures
        first_line_number(hunks, k1) + j1 == first_line_number(hunks, k2) + j2 <==> (k1 == k2
            && j1 == j2),
{
    if k1 < k2 {
        lemma_lines_before_mono(hunks, k1 + 1, k2);
        assert(lines_before(hunks, k1 + 1) == lines_before(hunks, k1) + hunks[k1 as int].lines.len());
    } else if k2 < k1 {
        lemma_lines_before_mono(hunks, k2 + 1, k1);
        assert(lines_before(hunks, k2 + 1) == lines_before(hunks, k2) + hunks[k2 as int].lines.len());
    }
}

/// The number that the view shows for a line is the number by which a line
/// selection picks it: selecting just that number selects that line and no
/// other line of the file.
pub proof fn law_shown_number_selects_its_line(
    fd: FileDiffView,
    k: nat,
    j: nat,
    k2: nat,
    j2: nat,
)
    requires
        k < fd.hunks.len(),
        j < fd.hunks[k as int].lines.len(),
        k2 < fd.hunks.len(),
        j2 < fd.hunks[k2 as int].lines.len(),
        lines_before(fd.hunks, fd.hunks.len()) < usize::MAX,
    ensures
        ({
            let n = hunk_rows(fd.hunks[k as int], k, first_line_number(fd.hunks, k))[j + 2int].number;
            &&& n == first_line_number(fd.hunks, k) + j
            &&& in_ranges(seq![(n as usize, n as usize)], first_line_number(fd.hunks, k2) + j2)
                <==> (k2 == k && j2 == j)
        }),
{
    let hunks = fd.hunks;
    let n = first_line_number(hunks, k) + j;
    lemma_lines_before_mono(hunks, k + 1, hunks.len());
    assert(lines_before(hunks, k + 1) == lines_before(hunks, k) + hunks[k as int].lines.len());
    let ranges = seq![(n as usize, n as usize)];
    law_line_numbers_are_distinct(hunks, k, j, k2, j2);
    if k2 == k && j2 == j {
        assert(ranges[0].0 <= n && n <= ranges[0].1);
    }
}

/// The label that the view shows for one of the first 26 hunks, typed
/// alone, selects that hunk.
pub proof fn law_label_selects_its_hunk(k: nat)
    requires
        k < 26,
    ensures
        hunk_selection(seq![hunk_label(k)]) == seq![k as usize],
{
    let c = hunk_label(k);
    assert(c as int == 97 + k);
    let s = seq![c];
    assert(s.drop_last() =~= Seq::<char>::empty());
    assert(split(Seq::<char>::empty(), ',') == seq![Seq::<char>::empty()]);
    assert(Seq::<char>::empty().push(c) =~= s);
    let pieces = split(s, ',');
    assert(pieces =~= seq![s]);
    assert(s.drop_first() =~= Seq::<char>::empty());
    assert(trim_start(s) == s);
    assert(trim_end(s) == s);
    assert(trim(s) == s);
    assert(hunk_of_piece(s) == Some(k as usize));
    assert(pieces.drop_last() =~= Seq::<Seq<char>>::empty());
    assert(pieces.last() == s);
    assert(hunk_picks(Seq::<Seq<char>>::empty()) == Seq::<usize>::empty());
    assert(hunk_picks(pieces) =~= seq![k as usize]);
}

// ---------------------------------------------------------------------------
// Which lines a line selection stages
// ---------------------------------------------------------------------------

proof fn lemma_kept_lines_same(
    lines: Seq<LineView>,
    first: int,
    r1: Seq<(usize, usize)>,
    r2: Seq<(usize, usize)>,
)
    requires
        forall|n: int| first <= n < first + lines.len() ==> in_ranges(r1, n) == in_ranges(r2, n),
    ensures
        kept_lines(lines, first, r1) == kept_lines(lines, first, r2),
        lines_shift(lines, first, r1) == lines_shift(lines, first, r2),
    decreases lines.len(),
{
    if lines.len() > 0 {
        lemma_kept_lines_same(lines.drop_last(), first, r1, r2);
        assert(in_ranges(r1, first + lines.len() - 1) == in_ranges(r2, first + lines.len() - 1));
    }
}

proof fn lemma_same_numbers(
    hunks: Seq<HunkView>,
    r1: Seq<(usize, usize)>,
    r2: Seq<(usize, usize)>,
    k: nat,
)
    requires
        k <= hunks.len(),
        forall|n: int|
            1 <= n <= lines_before(hunks, hunks.len()) ==> in_ranges(r1, n) == in_ranges(r2, n),
    ensures
        line_offset(hunks, r1, k) == line_offset(hunks, r2, k),
        selected_lines_text(hunks, r1, k) == selected_lines_text(hunks, r2, k),
    decreases k,
{
    if k > 0 {
        let i = (k - 1) as nat;
        lemma_same_numbers(hunks, r1, r2, i);
        let h = hunks[i as int];
        let first = first_line_number(hunks, i);
        lemma_lines_before_mono(hunks, k, hunks.len());
        assert(lines_before(hunks, k) == lines_before(hunks, i) + h.lines.len());
        assert forall|n: int| first <= n < first + h.lines.len() implies in_ranges(r1, n)
            == in_ranges(r2, n) by {}
        lemma_kept_lines_same(h.lines, first, r1, r2);
    }
}

/// The patch of selected lines depends only on which of the file's line
/// numbers (1 to the number of lines) are selected: not on the order of the
/// ranges, their overlaps or repetitions, nor on numbers past the last line
/// (a range whose start is after its end selects nothing).
pub proof fn law_lines_depend_on_selected_numbers(
    fd: FileDiffView,
    r1: Seq<(usize, usize)>,
    r2: Seq<(usize, usize)>,
)
    requires
        forall|n: int|
            1 <= n <= lines_before(fd.hunks, fd.hunks.len()) ==> in_ranges(r1, n) == in_ranges(
                r2,
                n,
            ),
    ensures
        patch_of_lines(fd, r1) == patch_of_lines(fd, r2),
{
    lemma_same_numbers(fd.hunks, r1, r2, fd.hunks.len());
}

/// Whether a line of this origin is a change: an addition or a removal.
pub open spec fn is_change(origin: char) -> bool {
    origin == '+' || origin == '-'
}

proof fn lemma_kept_changes(lines: Seq<LineView>, first: int, ranges: Seq<(usize, usize)>)
    ensures
        forall|i: int|
            0 <= i < kept_lines(lines, first, ranges).len() && is_change(
                #[trigger] kept_lines(lines, first, ranges)[i].origin,
            ) ==> exists|m: int|
                0 <= m < lines.len() && in_ranges(ranges, first + m) && kept_lines(
                    lines,
                    first,
                    ranges,
                )[i] == #[trigger] lines[m],
    decreases lines.len(),
{
    if lines.len() > 0 {
        let rest = lines.drop_last();
        let l = lines.last();
        let sel = in_ranges(ranges, first + lines.len() - 1);
        lemma_kept_changes(rest, first, ranges);
        let kept = kept_lines(lines, first, ranges);
        let before = kept_lines(rest, first, ranges);
        assert forall|i: int|
            0 <= i < kept.len() && is_change(#[trigger] kept[i].origin) implies exists|m: int|
            0 <= m < lines.len() && in_ranges(ranges, first + m) && kept[i] == #[trigger] lines[m] by {
            if i < before.len() {
                assert(kept[i] == before[i]);
                let m = choose|m: int|
                    0 <= m < rest.len() && in_ranges(ranges, first + m) && before[i]
                        == #[trigger] rest[m];
                assert(rest[m] == lines[m]);
            } else {
                assert(kept[i] == kept_line(l, sel)[i - before.len()]);
                assert(sel);
                assert(lines[lines.len() - 1] == l);
            }
        }
    }
}

proof fn lemma_kept_contains(lines: Seq<LineView>, first: int, ranges: Seq<(usize, usize)>, m: int)
    requires
        0 <= m < lines.len(),
        in_ranges(ranges, first + m),
        is_change(lines[m].origin),
    ensures
        kept_lines(lines, first, ranges).contains(lines[m]),
    decreases lines.len(),
{
    let rest = lines.drop_last();
    let kept = kept_lines(lines, first, ranges);
    let before = kept_lines(rest, first, ranges);
    if m == lines.len() - 1 {
        let l = lines.last();
        assert(kept_line(l, true) == seq![l]);
        assert(kept[before.len() as int] == l);
    } else {
        assert(rest[m] == lines[m]);
        lemma_kept_contains(rest, first, ranges, m);
        let i = choose|i: int| 0 <= i < before.len() && before[i] == lines[m];
        assert(kept[i] == before[i]);
    }
}

/// Selecting the single number that the view shows for a line stages that
/// line's change and nothing else: in the lines that the patch writes for
/// the hunks, the only addition or removal is that line, and it is there
/// when it is a change.
pub proof fn law_one_number_stages_one_line(fd: FileDiffView, k: nat, j: nat)
    requires
        k < fd.hunks.len(),
        j < fd.hunks[k as int].lines.len(),
        lines_before(fd.hunks, fd.hunks.len()) < usize::MAX,
    ensures
        ({
            let hunks = fd.hunks;
            let n = first_line_number(hunks, k) + j;
            let ranges = seq![(n as usize, n as usize)];
            &&& forall|k2: int, i: int|
                0 <= k2 < hunks.len() && 0 <= i < kept_lines(
                    hunks[k2].lines,
                    first_line_number(hunks, k2 as nat),
                    ranges,
                ).len() && is_change(
                    #[trigger] kept_lines(
                        hunks[k2].lines,
                        first_line_number(hunks, k2 as nat),
                        ranges,
                    )[i].origin,
                ) ==> k2 == k && kept_lines(
                    hunks[k2].lines,
                    first_line_number(hunks, k2 as nat),
                    ranges,
                )[i] == hunks[k as int].lines[j as int]
            &&& is_change(hunks[k as int].lines[j as int].origin) ==> kept_lines(
                hunks[k as int].lines,
                first_line_number(hunks, k),
                ranges,
            ).contains(hunks[k as int].lines[j as int])
        }),
{
    let hunks = fd.hunks;
    let n = first_line_number(hunks, k) + j;
    lemma_lines_before_mono(hunks, k + 1, hunks.len());
    assert(lines_before(hunks, k + 1) == lines_before(hunks, k) + hunks[k as int].lines.len());
    let ranges = seq![(n as usize, n as usize)];
    assert forall|k2: int, i: int|
        0 <= k2 < hunks.len() && 0 <= i < kept_lines(
            hunks[k2].lines,
            first_line_number(hunks, k2 as nat),
            ranges,
        ).len() && is_change(
            #[trigger] kept_lines(hunks[k2].lines, first_line_number(hunks, k2 as nat), ranges)[i].origin,
        ) implies k2 == k && kept_lines(
        hunks[k2].lines,
        first_line_number(hunks, k2 as nat),
        ranges,
    )[i] == hunks[k as int].lines[j as int] by {
        let first2 = first_line_number(hunks, k2 as nat);
        lemma_kept_changes(hunks[k2].lines, first2, ranges);
        let m = choose|m: int|
            0 <= m < hunks[k2].lines.len() && in_ranges(ranges, first2 + m) && kept_lines(
                hunks[k2].lines,
                first2,
                ranges,
            )[i] == #[trigger] hunks[k2].lines[m];
        let w = choose|w: int| 0 <= w < ranges.len() && #[trigger] ranges[w].0 <= first2 + m
            && first2 + m <= ranges[w].1;
        assert(w == 0);
        law_line_numbers_are_distinct(hunks, k, j, k2 as nat, m as nat);
    }
    if is_change(hunks[k as int].lines[j as int].origin) {
        assert(ranges[0].0 <= n && n <= ranges[0].1);
        lemma_kept_contains(hunks[k as int].lines, first_line_number(hunks, k), ranges, j as int);
    }
}

// ---------------------------------------------------------------------------
// Round trips of written selections
// ---------------------------------------------------------------------------

/// The text of a list of hunk labels joined by commas, as a user types it.
pub open spec fn labels_text(indices: Seq<usize>) -> Seq<char> {
    joined(indices.map_values(|k: usize| seq![hunk_label(k as nat)]))
}

proof fn lemma_label_picks(indices: Seq<usize>)
    requires
        forall|i: int| 0 <= i < indices.len() ==> #[trigger] indices[i] < 26,
    ensures
        hunk_picks(indices.map_values(|k: usize| seq![hunk_label(k as nat)])) == indices,
    decreases indices.len(),
{
    let pieces = indices.map_values(|k: usize| seq![hunk_label(k as nat)]);
    if indices.len() > 0 {
        let rest = indices.drop_last();
        assert(pieces.drop_last() =~= rest.map_values(|k: usize| seq![hunk_label(k as nat)]));
        assert forall|i: int| 0 <= i < rest.len() implies #[trigger] rest[i] < 26 by {
            assert(rest[i] == indices[i]);
        }
        lemma_label_picks(rest);
        let k = indices.last();
        assert(indices[indices.len() - 1] < 26);
        law_label_selects_its_hunk(k as nat);
        let s = seq![hunk_label(k as nat)];
        assert(s.drop_first() =~= Seq::<char>::empty());
        assert(trim_start(s) == s);
        assert(trim_end(s) == s);
        assert(hunk_of_piece(s) == Some(k));
        assert(rest.push(k) =~= indices);
    } else {
        assert(indices =~= Seq::<usize>::empty());
    }
}

/// Labels of the first 26 hunks typed as a comma-separated list select
/// those hunks, in the order and with the repetitions typed.
pub proof fn law_label_list_selects_its_hunks(indices: Seq<usize>)
    requires
        forall|i: int| 0 <= i < indices.len() ==> #[trigger] indices[i] < 26,
    ensures
        hunk_selection(labels_text(indices)) == indices,
{
    let pieces = indices.map_values(|k: usize| seq![hunk_label(k as nat)]);
    lemma_label_picks(indices);
    if indices.len() == 0 {
        assert(labels_text(indices) == Seq::<char>::empty());
        let e = Seq::<char>::empty();
        assert(split(e, ',') == seq![e]);
        assert(seq![e].drop_last() =~= Seq::<Seq<char>>::empty());
        assert(trim_start(e) == e);
        assert(trim_end(e) == e);
        assert(seq![e].last() == e);
        assert(hunk_of_piece(e) is None);
        assert(hunk_picks(Seq::<Seq<char>>::empty()) == Seq::<usize>::empty());
        assert(hunk_picks(seq![e]) =~= Seq::<usize>::empty());
        assert(indices =~= Seq::<usize>::empty());
    } else {
        assert forall|i: int| 0 <= i < pieces.len() implies lacks(#[trigger] pieces[i], ',') by {
            assert(indices[i] < 26);
            assert(hunk_label(indices[i] as nat) as int == 97 + indices[i]);
            assert(pieces[i][0] == hunk_label(indices[i] as nat));
        }
        lemma_split_joined(pieces);
    }
}

/// The text of one line range as `start-end`.
pub open spec fn range_text(r: (usize, usize)) -> Seq<char> {
    decimal(r.0 as nat) + seq!['-'] + decimal(r.1 as nat)
}

/// The text of a list of line ranges joined by commas, as a user types it.
pub open spec fn ranges_text(ranges: Seq<(usize, usize)>) -> Seq<char> {
    joined(ranges.map_values(|r: (usize, usize)| range_text(r)))
}

proof fn lemma_range_piece(r: (usize, usize))
    ensures
        range_of_piece(range_text(r)) == Some(r),
        lacks(range_text(r), ','),
{
    let a = decimal(r.0 as nat);
    let b = decimal(r.1 as nat);
    let p = range_text(r);
    lemma_decimal_digits(r.0 as nat);
    lemma_decimal_digits(r.1 as nat);
    assert(is_digit(a[0]));
    assert(is_digit(b[b.len() - 1]));
    assert(p[0] == a[0]);
    assert(p.last() == b.last());
    lemma_trim_digit_ends(p);
    assert(lacks(a, '-')) by {
        assert forall|i: int| 0 <= i < a.len() implies #[trigger] a[i] != '-' by {
            assert(is_digit(a[i]));
        }
    }
    lemma_first_index_after(a, '-', b);
    assert(p.take(a.len() as int) =~= a);
    assert(p.skip(a.len() + 1int) =~= b);
    lemma_trim_digit_ends(a);
    lemma_trim_digit_ends(b);
    lemma_parse_decimal(r.0);
    lemma_parse_decimal(r.1);
    assert forall|i: int| 0 <= i < p.len() implies #[trigger] p[i] != ',' by {
        if i < a.len() {
            assert(p[i] == a[i]);
            assert(is_digit(a[i]));
        } else if i > a.len() {
            assert(p[i] == b[i - a.len() - 1]);
            assert(is_digit(b[i - a.len() - 1]));
        }
    }
}

proof fn lemma_range_picks(ranges: Seq<(usize, usize)>)
    ensures
        range_picks(ranges.map_values(|r: (usize, usize)| range_text(r))) == ranges,
    decreases ranges.len(),
{
    let pieces = ranges.map_values(|r: (usize, usize)| range_text(r));
    if ranges.len() > 0 {
        let rest = ranges.drop_last();
        assert(pieces.drop_last() =~= rest.map_values(|r: (usize, usize)| range_text(r)));
        lemma_range_picks(rest);
        lemma_range_piece(ranges.last());
        assert(rest.push(ranges.last()) =~= ranges);
    } else {
        assert(ranges =~= Seq::<(usize, usize)>::empty());
    }
}

/// Line ranges written as `start-end` and joined by commas parse back to
/// the same ranges, in order.
pub proof fn law_written_ranges_parse_back(ranges: Seq<(usize, usize)>)
    ensures
        line_selection(ranges_text(ranges)) == ranges,
{
    let pieces = ranges.map_values(|r: (usize, usize)| range_text(r));
    lemma_range_picks(ranges);
    if ranges.len() == 0 {
        let e = Seq::<char>::empty();
        assert(ranges_text(ranges) == e);
        assert(split(e, ',') == seq![e]);
        assert(seq![e].drop_last() =~= Seq::<Seq<char>>::empty());
        assert(trim_start(e) == e);
        assert(trim_end(e) == e);
        assert(first_index_of(e, '-') == -1);
        assert(parse_usize(e) is None);
        assert(seq![e].last() == e);
        assert(range_of_piece(e) is None);
        assert(range_picks(Seq::<Seq<char>>::empty()) == Seq::<(usize, usize)>::empty());
        assert(range_picks(seq![e]) =~= Seq::<(usize, usize)>::empty());
        assert(ranges =~= Seq::<(usize, usize)>::empty());
    } else {
        assert forall|i: int| 0 <= i < pieces.len() implies lacks(#[trigger] pieces[i], ',') by {
            lemma_range_piece(ranges[i]);
        }
        lemma_split_joined(pieces);
    }
}

// ---------------------------------------------------------------------------
// Where the hunks of a selection land
// ---------------------------------------------------------------------------

/// The lines that the hunks before hunk `k` add to the file, by their
/// headers.
pub open spec fn delta_before(hunks: Seq<HunkView>, k: nat) -> int
    decreases k,
{
    if k == 0 || k > hunks.len() {
        0
    } else {
        delta_before(hunks, (k - 1) as nat) + (hunks[k - 1].new_lines - hunks[k - 1].old_lines)
    }
}

/// The lines that the selected hunks before hunk `k` add to the file.
pub open spec fn selected_delta_before(hunks: Seq<HunkView>, selected: Seq<usize>, k: nat) -> int
    decreases k,
{
    if k == 0 || k > hunks.len() {
        0
    } else {
        selected_delta_before(hunks, selected, (k - 1) as nat) + if selected.contains(
            (k - 1) as usize,
        ) {
            hunks[k - 1].new_lines - hunks[k - 1].old_lines
        } else {
            0
        }
    }
}

/// The selected hunks among the first `k`, in file order, hunk `i` written
/// with new start `start(i)`.
pub open spec fn written_hunks(
    hunks: Seq<HunkView>,
    selected: Seq<usize>,
    k: nat,
    start: spec_fn(nat) -> int,
) -> Seq<char>
    decreases k,
{
    if k == 0 || k > hunks.len() {
        Seq::<char>::empty()
    } else {
        let i = (k - 1) as nat;
        let h = hunks[i as int];
        written_hunks(hunks, selected, i, start) + if selected.contains(i as usize) {
            hunk_text(h.old_start, start(i) as u32, h.lines)
        } else {
            Seq::<char>::empty()
        }
    }
}

proof fn lemma_skipped_is_unselected_delta(hunks: Seq<HunkView>, selected: Seq<usize>, k: nat)
    requires
        k <= hunks.len(),
    ensures
        skipped_offset(hunks, selected, k) == delta_before(hunks, k) - selected_delta_before(
            hunks,
            selected,
            k,
        ),
    decreases k,
{
    if k > 0 {
        lemma_skipped_is_unselected_delta(hunks, selected, (k - 1) as nat);
    }
}

proof fn lemma_selected_text_is_written(
    hunks: Seq<HunkView>,
    selected: Seq<usize>,
    k: nat,
    start: spec_fn(nat) -> int,
)
    requires
        k <= hunks.len(),
        forall|i: nat|
            i < hunks.len() ==> #[trigger] start(i) == wrap_u32(
                hunks[i as int].new_start - (delta_before(hunks, i) - selected_delta_before(
                    hunks,
                    selected,
                    i,
                )),
            ),
    ensures
        selected_hunks_text(hunks, selected, k) == written_hunks(hunks, selected, k, start),
    decreases k,
{
    if k > 0 {
        let i = (k - 1) as nat;
        lemma_selected_text_is_written(hunks, selected, i, start);
        lemma_skipped_is_unselected_delta(hunks, selected, i);
        assert(start(i) == wrap_u32(hunks[i as int].new_start - skipped_offset(hunks, selected, i)));
    }
}

/// Each selected hunk is written, in file order, with its new start moved
/// up by the lines that all the skipped hunks before it add: the lines that
/// every hunk before it adds, less those that the selected ones add (as
/// `u32`).
pub proof fn law_selected_hunk_moves_by_all_skipped_hunks(fd: FileDiffView, selected: Seq<usize>)
    ensures
        patch_of_hunks(fd, selected) == patch_header(fd.old_path, fd.new_path) + written_hunks(
            fd.hunks,
            selected,
            fd.hunks.len(),
            |i: nat|
                wrap_u32(
                    fd.hunks[i as int].new_start - (delta_before(fd.hunks, i)
                        - selected_delta_before(fd.hunks, selected, i)),
                ),
        ),
{
    let start = |i: nat|
        wrap_u32(
            fd.hunks[i as int].new_start - (delta_before(fd.hunks, i) - selected_delta_before(
                fd.hunks,
                selected,
                i,
            )),
        );
    lemma_selected_text_is_written(fd.hunks, selected, fd.hunks.len(), start);
}

/// Whether every hunk's new start is its old start moved by the lines that
/// the hunks before it add, as in a diff of the whole file.
pub open spec fn starts_consistent(hunks: Seq<HunkView>) -> bool {
    forall|i: int|
        0 <= i < hunks.len() ==> #[trigger] hunks[i].new_start == hunks[i].old_start
            + delta_before(hunks, i as nat)
}

proof fn lemma_written_same_start(
    hunks: Seq<HunkView>,
    selected: Seq<usize>,
    k: nat,
    s1: spec_fn(nat) -> int,
    s2: spec_fn(nat) -> int,
)
    requires
        k <= hunks.len(),
        forall|i: nat| i < hunks.len() ==> #[trigger] s1(i) == s2(i),
    ensures
        written_hunks(hunks, selected, k, s1) == written_hunks(hunks, selected, k, s2),
    decreases k,
{
    if k > 0 {
        lemma_written_same_start(hunks, selected, (k - 1) as nat, s1, s2);
        assert(s1((k - 1) as nat) == s2((k - 1) as nat));
    }
}

/// In a diff of the whole file, each selected hunk is written to start
/// where it lands once only the selected hunks are applied: its old start
/// moved by the lines that the selected hunks before it add.
pub proof fn law_selected_hunk_lands_after_selected_ones(fd: FileDiffView, selected: Seq<usize>)
    requires
        starts_consistent(fd.hunks),
    ensures
        patch_of_hunks(fd, selected) == patch_header(fd.old_path, fd.new_path) + written_hunks(
            fd.hunks,
            selected,
            fd.hunks.len(),
            |i: nat| wrap_u32(fd.hunks[i as int].old_start + selected_delta_before(fd.hunks, selected, i)),
        ),
{
    law_selected_hunk_moves_by_all_skipped_hunks(fd, selected);
    let s1 = |i: nat|
        wrap_u32(
            fd.hunks[i as int].new_start - (delta_before(fd.hunks, i) - selected_delta_before(
                fd.hunks,
                selected,
                i,
            )),
        );
    let s2 = |i: nat|
        wrap_u32(fd.hunks[i as int].old_start + selected_delta_before(fd.hunks, selected, i));
    assert forall|i: nat| i < fd.hunks.len() implies #[trigger] s1(i) == s2(i) by {
        assert(fd.hunks[i as int].new_start == fd.hunks[i as int].old_start + delta_before(
            fd.hunks,
            i,
        ));
    }
    lemma_written_same_start(fd.hunks, selected, fd.hunks.len(), s1, s2);
}

// ---------------------------------------------------------------------------
// Where the hunks of a line selection land
// ---------------------------------------------------------------------------

/// The lines of the first `k` hunks, one after another.
pub open spec fn flat_lines(hunks: Seq<HunkView>, k: nat) -> Seq<LineView>
    decreases k,
{
    if k == 0 || k > hunks.len() {
        Seq::<LineView>::empty()
    } else {
        flat_lines(hunks, (k - 1) as nat) + hunks[k - 1].lines
    }
}

/// How many lines of `origin` in `lines`, numbered from `first`, are not
/// selected by `ranges`.
pub open spec fn unstaged_count(
    lines: Seq<LineView>,
    first: int,
    ranges: Seq<(usize, usize)>,
    origin: char,
) -> int
    decreases lines.len(),
{
    if lines.len() == 0 {
        0
    } else {
        unstaged_count(lines.drop_last(), first, ranges, origin) + if lines.last().origin == origin
            && !in_ranges(ranges, first + lines.len() - 1) {
            1int
        } else {
            0int
        }
    }
}

/// Every hunk of a line selection, in file order, hunk `i` written with new
/// start `start(i)` and its lines filtered by the ranges (its first line
/// numbered one past the lines before it).
pub open spec fn written_line_hunks(
    hunks: Seq<HunkView>,
    ranges: Seq<(usize, usize)>,
    k: nat,
    start: spec_fn(nat) -> int,
) -> Seq<char>
    decreases k,
{
    if k == 0 || k > hunks.len() {
        Seq::<char>::empty()
    } else {
        let i = (k - 1) as nat;
        let h = hunks[i as int];
        written_line_hunks(hunks, ranges, i, start) + hunk_text(
            h.old_start,
            start(i) as u32,
            kept_lines(h.lines, 1 + flat_lines(hunks, i).len() as int, ranges),
        )
    }
}

proof fn lemma_flat_len(hunks: Seq<HunkView>, k: nat)
    requires
        k <= hunks.len(),
    ensures
        flat_lines(hunks, k).len() == lines_before(hunks, k),
    decreases k,
{
    if k > 0 {
        lemma_flat_len(hunks, (k - 1) as nat);
    }
}

proof fn lemma_unstaged_append(
    a: Seq<LineView>,
    b: Seq<LineView>,
    first: int,
    ranges: Seq<(usize, usize)>,
    origin: char,
)
    ensures
        unstaged_count(a + b, first, ranges, origin) == unstaged_count(a, first, ranges, origin)
            + unstaged_count(b, first + a.len(), ranges, origin),
    decreases b.len(),
{
    if b.len() == 0 {
        assert(a + b =~= a);
    } else {
        lemma_unstaged_append(a, b.drop_last(), first, ranges, origin);
        assert((a + b).drop_last() =~= a + b.drop_last());
        assert((a + b).last() == b.last());
    }
}

proof fn lemma_shift_is_unstaged(lines: Seq<LineView>, first: int, ranges: Seq<(usize, usize)>)
    ensures
        lines_shift(lines, first, ranges) == unstaged_count(lines, first, ranges, '+')
            - unstaged_count(lines, first, ranges, '-'),
    decreases lines.len(),
{
    if lines.len() > 0 {
        lemma_shift_is_unstaged(lines.drop_last(), first, ranges);
    }
}

proof fn lemma_line_offset_is_unstaged(hunks: Seq<HunkView>, ranges: Seq<(usize, usize)>, k: nat)
    requires
        k <= hunks.len(),
    ensures
        line_offset(hunks, ranges, k) == unstaged_count(flat_lines(hunks, k), 1, ranges, '+')
            - unstaged_count(flat_lines(hunks, k), 1, ranges, '-'),
    decreases k,
{
    if k > 0 {
        let i = (k - 1) as nat;
        lemma_line_offset_is_unstaged(hunks, ranges, i);
        lemma_flat_len(hunks, i);
        let f = flat_lines(hunks, i);
        let l = hunks[i as int].lines;
        lemma_unstaged_append(f, l, 1, ranges, '+');
        lemma_unstaged_append(f, l, 1, ranges, '-');
        lemma_shift_is_unstaged(l, first_line_number(hunks, i), ranges);
    }
}

proof fn lemma_line_text_is_written(
    hunks: Seq<HunkView>,
    ranges: Seq<(usize, usize)>,
    k: nat,
    start: spec_fn(nat) -> int,
)
    requires
        k <= hunks.len(),
        forall|i: nat|
            i < hunks.len() ==> #[trigger] start(i) == wrap_u32(
                hunks[i as int].new_start - (unstaged_count(flat_lines(hunks, i), 1, ranges, '+')
                    - unstaged_count(flat_lines(hunks, i), 1, ranges, '-')),
            ),
    ensures
        selected_lines_text(hunks, ranges, k) == written_line_hunks(hunks, ranges, k, start),
    decreases k,
{
    if k > 0 {
        let i = (k - 1) as nat;
        lemma_line_text_is_written(hunks, ranges, i, start);
        lemma_line_offset_is_unstaged(hunks, ranges, i);
        lemma_flat_len(hunks, i);
        assert(start(i) == wrap_u32(hunks[i as int].new_start - line_offset(hunks, ranges, i)));
    }
}

/// Each hunk of a line selection is written, in file order, with its new
/// start moved up by the lines that the unstaged changes of all the lines
/// before it (in every earlier hunk) would have added: unselected added
/// lines less unselected removed lines, counted over the lines numbered
/// before it (as `u32`).
pub proof fn law_line_hunk_moves_by_all_unstaged_lines(
    fd: FileDiffView,
    ranges: Seq<(usize, usize)>,
)
    ensures
        patch_of_lines(fd, ranges) == patch_header(fd.old_path, fd.new_path) + written_line_hunks(
            fd.hunks,
            ranges,
            fd.hunks.len(),
            |i: nat|
                wrap_u32(
                    fd.hunks[i as int].new_start - (unstaged_count(
                        flat_lines(fd.hunks, i),
                        1,
                        ranges,
                        '+',
                    ) - unstaged_count(flat_lines(fd.hunks, i), 1, ranges, '-')),
                ),
        ),
{
    let start = |i: nat|
        wrap_u32(
            fd.hunks[i as int].new_start - (unstaged_count(flat_lines(fd.hunks, i), 1, ranges, '+')
                - unstaged_count(flat_lines(fd.hunks, i), 1, ranges, '-')),
        );
    lemma_line_text_is_written(fd.hunks, ranges, fd.hunks.len(), start);
}

// ---------------------------------------------------------------------------
// The numbers that the view shows
// ---------------------------------------------------------------------------

/// Whether a row of this kind shows a line of the diff.
pub open spec fn is_line_kind(kind: RowKind) -> bool {
    kind == RowKind::Added || kind == RowKind::Removed || kind == RowKind::Context
}

/// The rows that show lines, in order.
pub open spec fn line_rows_of(rows: Seq<RowView>) -> Seq<RowView>
    decreases rows.len(),
{
    if rows.len() == 0 {
        Seq::<RowView>::empty()
    } else {
        line_rows_of(rows.drop_last()) + if is_line_kind(rows.last().kind) {
            seq![rows.last()]
        } else {
            Seq::<RowView>::empty()
        }
    }
}

proof fn lemma_line_rows_append(a: Seq<RowView>, b: Seq<RowView>)
    ensures
        line_rows_of(a + b) == line_rows_of(a) + line_rows_of(b),
    decreases b.len(),
{
    if b.len() == 0 {
        assert(a + b =~= a);
        assert(line_rows_of(a) + line_rows_of(b) =~= line_rows_of(a));
    } else {
        lemma_line_rows_append(a, b.drop_last());
        assert((a + b).drop_last() =~= a + b.drop_last());
        assert((a + b).last() == b.last());
        assert(line_rows_of(a) + line_rows_of(b) =~= line_rows_of(a) + line_rows_of(b.drop_last())
            + if is_line_kind(b.last().kind) {
            seq![b.last()]
        } else {
            Seq::<RowView>::empty()
        });
    }
}

proof fn lemma_no_line_rows(head: Seq<RowView>)
    requires
        head.len() == 2,
        !is_line_kind(head[0].kind),
        !is_line_kind(head[1].kind),
    ensures
        line_rows_of(head) == Seq::<RowView>::empty(),
{
    let one = head.drop_last();
    assert(one.drop_last() =~= Seq::<RowView>::empty());
    assert(line_rows_of(Seq::<RowView>::empty()) == Seq::<RowView>::empty());
    assert(one.last() == head[0]);
    assert(line_rows_of(one) =~= Seq::<RowView>::empty());
    assert(line_rows_of(head) =~= Seq::<RowView>::empty());
}

proof fn lemma_line_rows_of_lines(lines: Seq<LineView>, first: int, n: nat)
    requires
        n <= lines.len(),
    ensures
        line_rows_of(Seq::new(n, |j: int| line_row(lines[j], first + j))) == Seq::new(
            n,
            |j: int| line_row(lines[j], first + j),
        ),
    decreases n,
{
    let rows = Seq::new(n, |j: int| line_row(lines[j], first + j));
    if n > 0 {
        lemma_line_rows_of_lines(lines, first, (n - 1) as nat);
        assert(rows.drop_last() =~= Seq::new((n - 1) as nat, |j: int| line_row(lines[j], first + j)));
        assert(is_line_kind(rows.last().kind));
        assert(rows.drop_last().push(rows.last()) =~= rows);
    } else {
        assert(rows =~= Seq::<RowView>::empty());
    }
}

proof fn lemma_hunks_rows_lines(hunks: Seq<HunkView>, k: nat)
    requires
        k <= hunks.len(),
    ensures
        line_rows_of(hunks_rows(hunks, k)) == Seq::new(
            flat_lines(hunks, k).len(),
            |i: int| line_row(flat_lines(hunks, k)[i], i + 1),
        ),
    decreases k,
{
    if k > 0 {
        let i = (k - 1) as nat;
        lemma_hunks_rows_lines(hunks, i);
        lemma_flat_len(hunks, i);
        let h = hunks[i as int];
        let first = first_line_number(hunks, i);
        let head = hunk_rows(h, i, first).take(2);
        let body = Seq::new(h.lines.len(), |j: int| line_row(h.lines[j], first + j));
        assert(hunk_rows(h, i, first) =~= head + body);
        lemma_line_rows_append(hunks_rows(hunks, i), hunk_rows(h, i, first));
        lemma_line_rows_append(head, body);
        lemma_no_line_rows(head);
        lemma_line_rows_of_lines(h.lines, first, h.lines.len());
        let f = flat_lines(hunks, i);
        let g = flat_lines(hunks, k);
        assert(g =~= f + h.lines);
        assert(line_rows_of(hunks_rows(hunks, k)) =~= Seq::new(
            g.len(),
            |n: int| line_row(g[n], n + 1),
        ));
    } else {
        assert(hunks_rows(hunks, 0) =~= Seq::<RowView>::empty());
    }
}

/// The view shows the lines of the diff, and only them, in order, numbered
/// 1, 2, 3, ... across all hunks: its `n`-th line row shows the `n`-th
/// line of the file's hunks under number `n`.
pub proof fn law_view_numbers_lines_in_order(fd: FileDiffView)
    ensures
        line_rows_of(view_rows(fd)) == Seq::new(
            flat_lines(fd.hunks, fd.hunks.len()).len(),
            |i: int| line_row(flat_lines(fd.hunks, fd.hunks.len())[i], i + 1),
        ),
        forall|i: int|
            0 <= i < line_rows_of(view_rows(fd)).len() ==> #[trigger] line_rows_of(
                view_rows(fd),
            )[i].number == i + 1,
{
    let head = view_rows(fd).take(2);
    let rest = hunks_rows(fd.hunks, fd.hunks.len());
    assert(view_rows(fd) =~= head + rest);
    lemma_line_rows_append(head, rest);
    lemma_no_line_rows(head);
    lemma_hunks_rows_lines(fd.hunks, fd.hunks.len());
    assert(line_rows_of(view_rows(fd)) =~= line_rows_of(rest));
}

// ---------------------------------------------------------------------------
// Which hunks a patch writes, and which lines a diff keeps
// ---------------------------------------------------------------------------

proof fn lemma_counts_bounded(lines: Seq<LineView>)
    ensures
        count_old(lines) <= lines.len(),
        count_new(lines) <= lines.len(),
        (exists|i: int|
            0 <= i < lines.len() && (#[trigger] lines[i].origin == '+' || lines[i].origin == '-'
                || lines[i].origin == ' ')) ==> count_old(lines) + count_new(lines) >= 1,
    decreases lines.len(),
{
    if lines.len() > 0 {
        let rest = lines.drop_last();
        lemma_counts_bounded(rest);
        if exists|i: int|
            0 <= i < lines.len() && (#[trigger] lines[i].origin == '+' || lines[i].origin == '-'
                || lines[i].origin == ' ') {
            let i = choose|i: int|
                0 <= i < lines.len() && (#[trigger] lines[i].origin == '+' || lines[i].origin == '-'
                    || lines[i].origin == ' ');
            if i < lines.len() - 1 {
                assert(rest[i] == lines[i]);
            }
        }
    }
}

/// A hunk with at least one added, removed or context line (and fewer lines
/// than `u32` counts) is written in full: an `@@` line, then all its lines;
/// a hunk with no line at all is not written.
pub proof fn law_hunk_with_a_line_is_written(old_start: u32, new_start: u32, lines: Seq<LineView>)
    ensures
        lines.len() == 0 ==> hunk_text(old_start, new_start, lines) == Seq::<char>::empty(),
        lines.len() < 0x1_0000_0000 && (exists|i: int|
            0 <= i < lines.len() && (#[trigger] lines[i].origin == '+' || lines[i].origin == '-'
                || lines[i].origin == ' ')) ==> exists|head: Seq<char>|
            #![auto]
            head.len() > 0 && hunk_text(old_start, new_start, lines) == head + crate::filter::lines_text(lines),
{
    lemma_counts_bounded(lines);
    if lines.len() < 0x1_0000_0000 && (exists|i: int|
        0 <= i < lines.len() && (#[trigger] lines[i].origin == '+' || lines[i].origin == '-'
            || lines[i].origin == ' ')) {
        let o = wrap_u32(count_old(lines) as int) as nat;
        let n = wrap_u32(count_new(lines) as int) as nat;
        assert(o == count_old(lines));
        assert(n == count_new(lines));
        let head = "@@ -"@ + decimal(old_start as nat) + ","@ + decimal(o) + " +"@ + decimal(
            new_start as nat,
        ) + ","@ + decimal(n) + " @@\n"@;
        crate::text::lemma_decimal_digits(old_start as nat);
        assert(head.len() > 0);
        assert(hunk_text(old_start, new_start, lines) == head + crate::filter::lines_text(lines));
    }
}

/// Whether a line of this origin is kept in a hunk: an addition, a removal
/// or context.
pub open spec fn keeps_origin(l: LineView) -> bool {
    l.origin == '+' || l.origin == '-' || l.origin == ' '
}

/// A diff keeps, of the lines that the repository reports for a hunk,
/// exactly the added, removed and context lines, in order; every line it
/// keeps is one of these.
pub proof fn law_diff_keeps_exactly_change_and_context_lines(h: HunkView)
    ensures
        kept_hunk(h).lines == h.lines.filter(|l: LineView| keeps_origin(l)),
        forall|i: int|
            0 <= i < kept_hunk(h).lines.len() ==> #[trigger] kept_hunk(h).lines[i].origin == '+'
                || kept_hunk(h).lines[i].origin == '-' || kept_hunk(h).lines[i].origin == ' ',
{
    lemma_diff_lines_is_filter(h.lines);
    let kept = h.lines.filter(|l: LineView| keeps_origin(l));
    assert forall|i: int| 0 <= i < kept.len() implies #[trigger] kept[i].origin == '+'
        || kept[i].origin == '-' || kept[i].origin == ' ' by {
        h.lines.lemma_filter_pred(|l: LineView| keeps_origin(l), i);
    }
}

proof fn lemma_diff_lines_is_filter(lines: Seq<LineView>)
    ensures
        diff_lines_only(lines) == lines.filter(|l: LineView| keeps_origin(l)),
    decreases lines.len(),
{
    reveal(Seq::filter);
    if lines.len() > 0 {
        lemma_diff_lines_is_filter(lines.drop_last());
        assert(diff_lines_only(lines) =~= lines.filter(|l: LineView| keeps_origin(l)));
    }
}

// ---------------------------------------------------------------------------
// What a line row and a hunk header show
// ---------------------------------------------------------------------------

/// `n` newline characters.
pub open spec fn newlines(n: nat) -> Seq<char> {
    Seq::new(n, |i: int| '\n')
}

proof fn lemma_strip_newlines(s: Seq<char>)
    ensures
        !(strip_newlines(s).len() > 0 && strip_newlines(s).last() == '\n'),
        exists|m: nat| #[trigger] newlines(m).len() == m && strip_newlines(s) + newlines(m) == s,
    decreases s.len(),
{
    if s.len() > 0 && s.last() == '\n' {
        lemma_strip_newlines(s.drop_last());
        let m = choose|m: nat|
            #[trigger] newlines(m).len() == m && strip_newlines(s.drop_last()) + newlines(m)
                == s.drop_last();
        assert(newlines(m + 1) =~= newlines(m).push('\n'));
        assert(s =~= s.drop_last().push('\n'));
        assert(strip_newlines(s) + newlines(m + 1) =~= (strip_newlines(s.drop_last()) + newlines(
            m,
        )).push('\n'));
        assert(newlines(m + 1).len() == m + 1);
    } else {
        assert(strip_newlines(s) + newlines(0) =~= s);
        assert(newlines(0).len() == 0);
    }
}

proof fn lemma_trim_start_spaces(n: nat, d: Seq<char>)
    ensures
        trim_start(Seq::new(n, |i: int| ' ') + d) == trim_start(d),
    decreases n,
{
    if n > 0 {
        let s = Seq::new(n, |i: int| ' ') + d;
        assert(s[0] == ' ');
        assert(s.drop_first() =~= Seq::new((n - 1) as nat, |i: int| ' ') + d);
        lemma_trim_start_spaces((n - 1) as nat, d);
    } else {
        assert(Seq::new(0, |i: int| ' ') + d =~= d);
    }
}

/// The row that shows a line gives its number right-aligned in a column of
/// at least 3 characters, which reads back as that number; then the line's
/// mark (`+`, `-`, or a space for context) and its content, less only its
/// trailing newlines.
pub proof fn law_line_row_shows_its_line(l: LineView, number: usize)
    ensures
        ({
            let r = line_row(l, number as int);
            &&& r.number == number
            &&& r.number_text.len() >= 3
            &&& parse_usize(trim(r.number_text)) == Some(number)
            &&& r.text.len() >= 1
            &&& r.text[0] == (if l.origin == '+' {
                '+'
            } else if l.origin == '-' {
                '-'
            } else {
                ' '
            })
            &&& !(r.text.len() > 1 && r.text.last() == '\n')
            &&& exists|m: nat| #[trigger] newlines(m).len() == m && r.text.drop_first() + newlines(m) == l.content
        }),
{
    let r = line_row(l, number as int);
    let d = decimal(number as nat);
    lemma_decimal_digits(number as nat);
    lemma_parse_decimal(number);
    assert(is_digit(d[0]));
    assert(is_digit(d[d.len() - 1]));
    if d.len() < 3 {
        let pad = Seq::new((3 - d.len()) as nat, |i: int| ' ');
        assert(r.number_text == pad + d);
        lemma_trim_start_spaces((3 - d.len()) as nat, d);
        lemma_trim_digit_ends(d);
        assert(trim_start(d) == d);
        assert(trim(r.number_text) == trim_end(d));
    } else {
        lemma_trim_digit_ends(d);
    }
    lemma_strip_newlines(l.content);
    assert(r.text.drop_first() =~= strip_newlines(l.content));
    let m = choose|m: nat|
        #[trigger] newlines(m).len() == m && strip_newlines(l.content) + newlines(m) == l.content;
    assert(r.text.drop_first() + newlines(m) == l.content);
    if r.text.len() > 1 {
        assert(r.text.last() == strip_newlines(l.content).last());
    }
}

/// The counts that a hunk's `@@` line gives are the numbers of its lines on
/// each side: removed and context lines for the old side, added and context
/// lines for the new side.
pub proof fn law_counts_are_side_lines(lines: Seq<LineView>)
    ensures
        count_old(lines) == lines.filter(|l: LineView| l.origin == '-' || l.origin == ' ').len(),
        count_new(lines) == lines.filter(|l: LineView| l.origin == '+' || l.origin == ' ').len(),
    decreases lines.len(),
{
    reveal(Seq::filter);
    if lines.len() > 0 {
        law_counts_are_side_lines(lines.drop_last());
    }
}

} // verus!
