//! The logic behind the comparison panes: rows that keep two texts side by
//! side, moving between differences and conflicts, resolving a conflict in
//! an edited merge result, and the directory table's filters and summary.
use vstd::prelude::*;
use std::ops::Range;
use crate::compare::{hunks_aligned, hunks_chained, lemma_chain_at, DiffHunk, TextDiff};
use crate::merge::{left_marker, middle_marker, right_marker, MergeChoice, MergeHunk, MergeHunkKind, MergeHunkSpec};
use crate::directory::{DirectoryEntry, DirectoryEntryState};
use crate::editing::{replace_lines_preserving_style, replaced_text};
use crate::error::{describe_of, path_view};
use crate::text::{chars_of, is_white, is_whitespace_char, join_lines, join_with, rust_lines_of, str_lines, string_of, strings_view};

verus! {

/// Which rows of a two-way comparison are shown.
#[derive(Clone, Copy, Debug, PartialEq, Eq, Structural)]
pub enum FileViewFilter {
    All,
    Differences,
    Same,
}

/// One row of the side-by-side view: the left and right line shown in it,
/// and the hunk it belongs to.
#[derive(Clone, Copy, Debug, PartialEq, Eq, Structural)]
pub struct AlignedRow {
    pub left: Option<usize>,
    pub right: Option<usize>,
    pub hunk: Option<usize>,
}

/// The number of positions in a range, as `Range::len` counts them.
pub open spec fn range_len(r: Range<usize>) -> int {
    if r.start < r.end {
        r.end - r.start
    } else {
        0
    }
}

/// How many equal lines pair up from `l` and `r` before `l_end` or `r_end`.
pub open spec fn gap(l: int, r: int, l_end: int, r_end: int) -> int {
    if l < l_end && r < r_end {
        if l_end - l <= r_end - r {
            l_end - l
        } else {
            r_end - r
        }
    } else {
        0
    }
}

/// `n` rows pairing the lines from `l` and from `r` one to one, in no hunk.
pub open spec fn paired_rows(l: int, r: int, n: int) -> Seq<AlignedRow> {
    Seq::new(
        n as nat,
        |k: int| AlignedRow { left: Some((l + k) as usize), right: Some((r + k) as usize), hunk: None },
    )
}

/// The rows of hunk `index`: as many as its longer side has lines, each
/// showing the next line of each side while that side has one.
pub open spec fn hunk_rows(h: DiffHunk, index: int) -> Seq<AlignedRow> {
    let nl = range_len(h.left_range);
    let nr = range_len(h.right_range);
    Seq::new(
        (if nl >= nr { nl } else { nr }) as nat,
        |k: int|
            AlignedRow {
                left: if k < nl { Some((h.left_range.start + k) as usize) } else { None },
                right: if k < nr { Some((h.right_range.start + k) as usize) } else { None },
                hunk: Some(index as usize),
            },
    )
}

/// The rows for the hunks in order, and the line on each side where the
/// last hunk ends: before each hunk the equal lines that pair up (unless
/// only differences are shown), then the hunk's rows (unless only equal
/// lines are shown).
pub open spec fn row_scan(hunks: Seq<DiffHunk>, filter: FileViewFilter) -> (Seq<AlignedRow>, int, int)
    decreases hunks.len(),
{
    if hunks.len() == 0 {
        (Seq::empty(), 0, 0)
    } else {
        let prev = row_scan(hunks.drop_last(), filter);
        let h = hunks.last();
        let same = if filter != FileViewFilter::Differences {
            paired_rows(prev.1, prev.2, gap(prev.1, prev.2, h.left_range.start as int, h.right_range.start as int))
        } else {
            Seq::empty()
        };
        let diff = if filter != FileViewFilter::Same {
            hunk_rows(h, hunks.len() - 1)
        } else {
            Seq::empty()
        };
        (prev.0 + same + diff, h.left_range.end as int, h.right_range.end as int)
    }
}

/// The rows of the side-by-side view: those of the hunks, then the equal
/// lines that pair up after the last hunk (unless only differences are
/// shown).
pub open spec fn aligned_rows_of(left_len: int, right_len: int, hunks: Seq<DiffHunk>, filter: FileViewFilter) -> Seq<AlignedRow> {
    let sc = row_scan(hunks, filter);
    sc.0 + if filter != FileViewFilter::Differences {
        paired_rows(sc.1, sc.2, gap(sc.1, sc.2, left_len, right_len))
    } else {
        Seq::empty()
    }
}

/// The rows outside every hunk.
pub open spec fn outside_hunks() -> spec_fn(AlignedRow) -> bool {
    |r: AlignedRow| r.hunk is None
}

/// The rows of some hunk.
pub open spec fn inside_hunks() -> spec_fn(AlignedRow) -> bool {
    |r: AlignedRow| r.hunk is Some
}

proof fn lemma_filter_all(s: Seq<AlignedRow>, p: spec_fn(AlignedRow) -> bool)
    requires
        forall|i: int| 0 <= i < s.len() ==> p(#[trigger] s[i]),
    ensures
        s.filter(p) == s,
    decreases s.len(),
{
    reveal(Seq::filter);
    if s.len() > 0 {
        lemma_filter_all(s.drop_last(), p);
        assert(s.drop_last().push(s.last()) =~= s);
    }
}

proof fn lemma_filter_none(s: Seq<AlignedRow>, p: spec_fn(AlignedRow) -> bool)
    requires
        forall|i: int| 0 <= i < s.len() ==> !p(#[trigger] s[i]),
    ensures
        s.filter(p) == Seq::<AlignedRow>::empty(),
    decreases s.len(),
{
    reveal(Seq::filter);
    if s.len() > 0 {
        lemma_filter_none(s.drop_last(), p);
    }
}

proof fn lemma_scan_positions(hunks: Seq<DiffHunk>, f: FileViewFilter, g: FileViewFilter)
    ensures
        row_scan(hunks, f).1 == row_scan(hunks, g).1,
        row_scan(hunks, f).2 == row_scan(hunks, g).2,
    decreases hunks.len(),
{
    if hunks.len() > 0 {
        lemma_scan_positions(hunks.drop_last(), f, g);
    }
}

proof fn lemma_pieces_filter(l: int, r: int, n: int, h: DiffHunk, index: int)
    ensures
        paired_rows(l, r, n).filter(outside_hunks()) == paired_rows(l, r, n),
        paired_rows(l, r, n).filter(inside_hunks()) == Seq::<AlignedRow>::empty(),
        hunk_rows(h, index).filter(inside_hunks()) == hunk_rows(h, index),
        hunk_rows(h, index).filter(outside_hunks()) == Seq::<AlignedRow>::empty(),
{
    lemma_filter_all(paired_rows(l, r, n), outside_hunks());
    lemma_filter_none(paired_rows(l, r, n), inside_hunks());
    lemma_filter_all(hunk_rows(h, index), inside_hunks());
    lemma_filter_none(hunk_rows(h, index), outside_hunks());
}

proof fn lemma_scan_split(hunks: Seq<DiffHunk>)
    ensures
        row_scan(hunks, FileViewFilter::All).0.filter(outside_hunks()) == row_scan(hunks, FileViewFilter::Same).0,
        row_scan(hunks, FileViewFilter::All).0.filter(inside_hunks()) == row_scan(hunks, FileViewFilter::Differences).0,
    decreases hunks.len(),
{
    broadcast use Seq::filter_distributes_over_add;

    if hunks.len() > 0 {
        let prev = hunks.drop_last();
        lemma_scan_split(prev);
        lemma_scan_positions(prev, FileViewFilter::All, FileViewFilter::Same);
        lemma_scan_positions(prev, FileViewFilter::All, FileViewFilter::Differences);
        let sc = row_scan(prev, FileViewFilter::All);
        let h = hunks.last();
        let n = gap(sc.1, sc.2, h.left_range.start as int, h.right_range.start as int);
        lemma_pieces_filter(sc.1, sc.2, n, h, hunks.len() - 1);
        let e = Seq::<AlignedRow>::empty();
        assert(row_scan(prev, FileViewFilter::Same).0 + paired_rows(sc.1, sc.2, n) + e
            =~= row_scan(prev, FileViewFilter::Same).0 + paired_rows(sc.1, sc.2, n));
        assert(row_scan(prev, FileViewFilter::Differences).0 + e + hunk_rows(h, hunks.len() - 1)
            =~= row_scan(prev, FileViewFilter::Differences).0 + hunk_rows(h, hunks.len() - 1));
    }
}

/// The view that shows only equal lines holds exactly the rows of the full
/// view that lie outside every hunk, and the view that shows only
/// differences exactly the rows that lie in a hunk, in the same order.
pub proof fn lemma_filters_split_rows(left_len: int, right_len: int, hunks: Seq<DiffHunk>)
    ensures
        aligned_rows_of(left_len, right_len, hunks, FileViewFilter::All).filter(outside_hunks())
            == aligned_rows_of(left_len, right_len, hunks, FileViewFilter::Same),
        aligned_rows_of(left_len, right_len, hunks, FileViewFilter::All).filter(inside_hunks())
            == aligned_rows_of(left_len, right_len, hunks, FileViewFilter::Differences),
{
    broadcast use Seq::filter_distributes_over_add;

    lemma_scan_split(hunks);
    lemma_scan_positions(hunks, FileViewFilter::All, FileViewFilter::Same);
    let sc = row_scan(hunks, FileViewFilter::All);
    let n = gap(sc.1, sc.2, left_len, right_len);
    lemma_pieces_filter(sc.1, sc.2, n, hunks[0], 0);
    assert(row_scan(hunks, FileViewFilter::Differences).0 + Seq::<AlignedRow>::empty()
        =~= row_scan(hunks, FileViewFilter::Differences).0);
}

/// The left lines that the rows show, in order.
pub open spec fn left_shown(rows: Seq<AlignedRow>) -> Seq<int>
    decreases rows.len(),
{
    if rows.len() == 0 {
        Seq::empty()
    } else {
        match rows.last().left {
            Some(i) => left_shown(rows.drop_last()).push(i as int),
            None => left_shown(rows.drop_last()),
        }
    }
}

/// The right lines that the rows show, in order.
pub open spec fn right_shown(rows: Seq<AlignedRow>) -> Seq<int>
    decreases rows.len(),
{
    if rows.len() == 0 {
        Seq::empty()
    } else {
        match rows.last().right {
            Some(i) => right_shown(rows.drop_last()).push(i as int),
            None => right_shown(rows.drop_last()),
        }
    }
}

/// The line numbers from `a` up to, not including, `b`.
pub open spec fn line_span(a: int, b: int) -> Seq<int> {
    Seq::new((b - a) as nat, |k: int| a + k)
}

proof fn lemma_shown_add(a: Seq<AlignedRow>, b: Seq<AlignedRow>)
    ensures
        left_shown(a + b) == left_shown(a) + left_shown(b),
        right_shown(a + b) == right_shown(a) + right_shown(b),
    decreases b.len(),
{
    if b.len() == 0 {
        assert(a + b =~= a);
        assert(left_shown(a) + left_shown(b) =~= left_shown(a));
        assert(right_shown(a) + right_shown(b) =~= right_shown(a));
    } else {
        lemma_shown_add(a, b.drop_last());
        assert((a + b).drop_last() =~= a + b.drop_last());
        assert((a + b).last() == b.last());
        assert(left_shown(a + b) =~= left_shown(a) + left_shown(b));
        assert(right_shown(a + b) =~= right_shown(a) + right_shown(b));
    }
}

proof fn lemma_span_join(a: int, b: int, c: int)
    requires
        a <= b <= c,
    ensures
        line_span(a, b) + line_span(b, c) == line_span(a, c),
{
    assert(line_span(a, b) + line_span(b, c) =~= line_span(a, c));
}

/// Rows whose `k`-th row shows left line `ls + k` while `k < nl` and no
/// left line after, and right line `rs + k` while `k < nr`.
proof fn lemma_rows_shown(s: Seq<AlignedRow>, ls: int, nl: int, rs: int, nr: int, m: int)
    requires
        0 <= m <= s.len(),
        0 <= nl <= s.len(),
        0 <= nr <= s.len(),
        0 <= ls,
        0 <= rs,
        ls + nl <= usize::MAX + 1,
        rs + nr <= usize::MAX + 1,
        forall|k: int|
            0 <= k < s.len() ==> (#[trigger] s[k]).left == (if k < nl { Some((ls + k) as usize) } else { None }),
        forall|k: int|
            0 <= k < s.len() ==> (#[trigger] s[k]).right == (if k < nr { Some((rs + k) as usize) } else { None }),
    ensures
        left_shown(s.take(m)) == line_span(ls, ls + if m <= nl { m } else { nl }),
        right_shown(s.take(m)) == line_span(rs, rs + if m <= nr { m } else { nr }),
    decreases m,
{
    if m == 0 {
        assert(left_shown(s.take(0)) =~= line_span(ls, ls));
        assert(right_shown(s.take(0)) =~= line_span(rs, rs));
    } else {
        lemma_rows_shown(s, ls, nl, rs, nr, m - 1);
        assert(s.take(m).drop_last() =~= s.take(m - 1));
        assert(s.take(m).last() == s[m - 1]);
        assert(left_shown(s.take(m)) =~= line_span(ls, ls + if m <= nl { m } else { nl }));
        assert(right_shown(s.take(m)) =~= line_span(rs, rs + if m <= nr { m } else { nr }));
    }
}

proof fn lemma_paired_shown(l: int, r: int, n: int)
    requires
        0 <= l,
        0 <= r,
        0 <= n,
        l + n <= usize::MAX + 1,
        r + n <= usize::MAX + 1,
    ensures
        left_shown(paired_rows(l, r, n)) == line_span(l, l + n),
        right_shown(paired_rows(l, r, n)) == line_span(r, r + n),
{
    let s = paired_rows(l, r, n);
    lemma_rows_shown(s, l, n, r, n, n);
    assert(s.take(n) =~= s);
}

proof fn lemma_hunk_shown(h: DiffHunk, index: int)
    requires
        h.left_range.start <= h.left_range.end,
        h.right_range.start <= h.right_range.end,
    ensures
        left_shown(hunk_rows(h, index)) == line_span(h.left_range.start as int, h.left_range.end as int),
        right_shown(hunk_rows(h, index)) == line_span(h.right_range.start as int, h.right_range.end as int),
{
    let s = hunk_rows(h, index);
    let nl = range_len(h.left_range);
    let nr = range_len(h.right_range);
    lemma_rows_shown(s, h.left_range.start as int, nl, h.right_range.start as int, nr, s.len() as int);
    assert(s.take(s.len() as int) =~= s);
}

proof fn lemma_scan_shown(hs: Seq<DiffHunk>, m: int)
    requires
        hunks_chained(hs),
        0 <= m <= hs.len(),
    ensures
        ({
            let sc = row_scan(hs.take(m), FileViewFilter::All);
            &&& sc.1 == if m > 0 { hs[m - 1].left_range.end as int } else { 0 }
            &&& sc.2 == if m > 0 { hs[m - 1].right_range.end as int } else { 0 }
            &&& left_shown(sc.0) == line_span(0, sc.1)
            &&& right_shown(sc.0) == line_span(0, sc.2)
        }),
    decreases m,
{
    if m == 0 {
        assert(left_shown(Seq::<AlignedRow>::empty()) =~= line_span(0, 0));
        assert(right_shown(Seq::<AlignedRow>::empty()) =~= line_span(0, 0));
    } else {
        let cur = hs.take(m);
        let h = hs[m - 1];
        assert(cur.drop_last() =~= hs.take(m - 1));
        assert(cur.last() == h);
        lemma_scan_shown(hs, m - 1);
        lemma_chain_at(hs, m - 1);
        if m > 1 {
            lemma_chain_at(hs, m - 2);
        } else {
            lemma_chain_at(hs, 0);
        }
        let sc = row_scan(hs.take(m - 1), FileViewFilter::All);
        let d = h.left_range.start - sc.1;
        assert(h.right_range.start - sc.2 == d && d >= 0);
        assert(gap(sc.1, sc.2, h.left_range.start as int, h.right_range.start as int) == d);
        lemma_paired_shown(sc.1, sc.2, d);
        lemma_hunk_shown(h, m - 1);
        let same = paired_rows(sc.1, sc.2, d);
        let diff = hunk_rows(h, m - 1);
        lemma_shown_add(sc.0, same);
        lemma_shown_add(sc.0 + same, diff);
        lemma_span_join(0, sc.1, h.left_range.start as int);
        lemma_span_join(0, h.left_range.start as int, h.left_range.end as int);
        lemma_span_join(0, sc.2, h.right_range.start as int);
        lemma_span_join(0, h.right_range.start as int, h.right_range.end as int);
    }
}

/// Every line of each side shows in exactly one row of the full view, in
/// order: where the hunks keep the two sides aligned, the left lines that
/// the rows show are those from the first to the last left line, once each,
/// and so are the right lines; a hunk shows all the lines of its longer
/// side.
pub proof fn lemma_rows_show_every_line(left_len: int, right_len: int, hunks: Seq<DiffHunk>)
    requires
        0 <= left_len <= usize::MAX,
        0 <= right_len <= usize::MAX,
        hunks_aligned(hunks, left_len, right_len),
    ensures
        left_shown(aligned_rows_of(left_len, right_len, hunks, FileViewFilter::All)) == line_span(0, left_len),
        right_shown(aligned_rows_of(left_len, right_len, hunks, FileViewFilter::All)) == line_span(0, right_len),
{
    lemma_scan_shown(hunks, hunks.len() as int);
    assert(hunks.take(hunks.len() as int) =~= hunks);
    let sc = row_scan(hunks, FileViewFilter::All);
    let d = left_len - sc.1;
    assert(right_len - sc.2 == d && d >= 0);
    assert(gap(sc.1, sc.2, left_len, right_len) == d);
    lemma_paired_shown(sc.1, sc.2, d);
    lemma_shown_add(sc.0, paired_rows(sc.1, sc.2, d));
    lemma_span_join(0, sc.1, left_len);
    lemma_span_join(0, sc.2, right_len);
}

/// Pairs lines from `left` and `right` up to `left_end` or `right_end`,
/// adding their rows where `keep` holds; gives the lines reached.
fn push_pairs(rows: &mut Vec<AlignedRow>, left: usize, right: usize, left_end: usize, right_end: usize, keep: bool) -> (reached: (usize, usize))
    ensures
        reached.0 == left + gap(left as int, right as int, left_end as int, right_end as int),
        reached.1 == right + gap(left as int, right as int, left_end as int, right_end as int),
        final(rows)@ == old(rows)@ + if keep {
            paired_rows(left as int, right as int, gap(left as int, right as int, left_end as int, right_end as int))
        } else {
            Seq::empty()
        },
{
    let ghost start = rows@;
    let mut l = left;
    let mut r = right;
    while l < left_end && r < right_end
        invariant
            left <= l,
            l - left == r - right,
            l - left <= gap(left as int, right as int, left_end as int, right_end as int),
            l < left_end && r < right_end ==> l - left < gap(left as int, right as int, left_end as int, right_end as int),
            !(l < left_end && r < right_end) ==> l - left == gap(left as int, right as int, left_end as int, right_end as int),
            rows@ == start + if keep { paired_rows(left as int, right as int, l - left) } else { Seq::empty() },
        decreases left_end - l,
    {
        if keep {
            rows.push(AlignedRow { left: Some(l), right: Some(r), hunk: None });
            assert(rows@ =~= start + paired_rows(left as int, right as int, l + 1 - left));
        } else {
            assert(rows@ =~= start + Seq::<AlignedRow>::empty());
        }
        l = l + 1;
        r = r + 1;
    }
    (l, r)
}

/// Adds the rows of hunk `index`.
fn push_hunk_rows(rows: &mut Vec<AlignedRow>, hunk: &DiffHunk, index: usize)
    ensures
        final(rows)@ == old(rows)@ + hunk_rows(*hunk, index as int),
{
    let ghost start = rows@;
    let nl: usize = if hunk.left_range.start < hunk.left_range.end {
        hunk.left_range.end - hunk.left_range.start
    } else {
        0
    };
    let nr: usize = if hunk.right_range.start < hunk.right_range.end {
        hunk.right_range.end - hunk.right_range.start
    } else {
        0
    };
    let count = if nl >= nr { nl } else { nr };
    let ghost want = hunk_rows(*hunk, index as int);
    let mut offset: usize = 0;
    while offset < count
        invariant
            offset <= count,
            count == want.len(),
            nl == range_len(hunk.left_range),
            nr == range_len(hunk.right_range),
            want == hunk_rows(*hunk, index as int),
            rows@ == start + want.take(offset as int),
        decreases count - offset,
    {
        let l = if offset < nl { Some(hunk.left_range.start + offset) } else { None };
        let r = if offset < nr { Some(hunk.right_range.start + offset) } else { None };
        rows.push(AlignedRow { left: l, right: r, hunk: Some(index) });
        assert(rows@ =~= start + want.take(offset + 1));
        offset = offset + 1;
    }
    assert(want.take(count as int) =~= want);
}

/// The rows of the side-by-side view of `diff` that `filter` shows: equal
/// lines pair up one to one, and each hunk shows its two sides next to each
/// other, the shorter side padded with empty cells.
pub fn aligned_rows(diff: &TextDiff, filter: FileViewFilter) -> (rows: Vec<AlignedRow>)
    ensures
        rows@ == aligned_rows_of(diff.left_lines.len() as int, diff.right_lines.len() as int, diff.hunks@, filter),
{
    let mut rows: Vec<AlignedRow> = Vec::new();
    let mut left: usize = 0;
    let mut right: usize = 0;
    let mut i: usize = 0;
    while i < diff.hunks.len()
        invariant
            i <= diff.hunks.len(),
            rows@ == row_scan(diff.hunks@.take(i as int), filter).0,
            left == row_scan(diff.hunks@.take(i as int), filter).1,
            right == row_scan(diff.hunks@.take(i as int), filter).2,
        decreases diff.hunks.len() - i,
    {
        let hunk = &diff.hunks[i];
        assert(diff.hunks@.take(i + 1).drop_last() =~= diff.hunks@.take(i as int));
        assert(diff.hunks@.take(i + 1).last() == *hunk);
        let keep = filter != FileViewFilter::Differences;
        let _ = push_pairs(&mut rows, left, right, hunk.left_range.start, hunk.right_range.start, keep);
        if filter != FileViewFilter::Same {
            push_hunk_rows(&mut rows, hunk, i);
        } else {
            assert(rows@ =~= rows@ + Seq::<AlignedRow>::empty());
        }
        left = hunk.left_range.end;
        right = hunk.right_range.end;
        i = i + 1;
    }
    assert(diff.hunks@.take(diff.hunks.len() as int) =~= diff.hunks@);
    let keep = filter != FileViewFilter::Differences;
    let _ = push_pairs(&mut rows, left, right, diff.left_lines.len(), diff.right_lines.len(), keep);
    rows
}

/// The text that marks a conflict in a merge result: the opening marker,
/// the left lines, the middle marker, the right lines and the closing
/// marker, each on a line of its own.
pub open spec fn conflict_marker_of(h: MergeHunkSpec) -> Seq<char> {
    left_marker() + "\n"@ + join_with(h.left, '\n') + "\n"@ + middle_marker() + "\n"@ + join_with(h.right, '\n')
        + "\n"@ + right_marker()
}

/// The text that a choice puts in place of a conflict: the chosen side's
/// lines joined by newlines.
pub open spec fn choice_text(h: MergeHunkSpec, choice: MergeChoice) -> Seq<char> {
    match choice {
        MergeChoice::Left => join_with(h.left, '\n'),
        MergeChoice::Right => join_with(h.right, '\n'),
    }
}

proof fn lemma_lines_view(v: Vec<String>)
    ensures
        v.deep_view() == v@.map_values(|l: String| l@),
        v.deep_view() == strings_view(v@),
{
    assert(v.deep_view() =~= v@.map_values(|l: String| l@));
}

/// The lines joined by newlines.
fn joined(lines: &Vec<String>) -> (s: String)
    ensures
        s@ == join_with(lines.deep_view(), '\n'),
{
    proof {
        lemma_lines_view(*lines);
    }
    join_lines(lines.as_slice(), '\n')
}

/// The text that marks `hunk` as a conflict in a merge result.
pub fn conflict_marker(hunk: &MergeHunk) -> (s: String)
    ensures
        s@ == conflict_marker_of(hunk@),
{
    let mut out = String::new();
    out.append("<<<<<<< LEFT");
    out.append("\n");
    let left = joined(&hunk.left);
    out.append(left.as_str());
    out.append("\n");
    out.append("=======");
    out.append("\n");
    let right = joined(&hunk.right);
    out.append(right.as_str());
    out.append("\n");
    out.append(">>>>>>> RIGHT");
    assert(out@ =~= conflict_marker_of(hunk@));
    out
}

/// `pat` stands in `s` at position `i`.
pub open spec fn matches_at(s: Seq<char>, pat: Seq<char>, i: int) -> bool {
    0 <= i && i + pat.len() <= s.len() && s.subrange(i, i + pat.len()) == pat
}

/// The first position from `start` on where `pat` stands in `s`, as
/// `str::find` on the rest of the text gives it.
pub open spec fn find_from(s: Seq<char>, pat: Seq<char>, start: int) -> Option<int>
    decreases s.len() + 1 - start,
{
    if start < 0 || start > s.len() {
        None
    } else if matches_at(s, pat, start) {
        Some(start)
    } else {
        find_from(s, pat, start + 1)
    }
}

/// Where the `k`-th occurrence of `pat` from `start` on stands, counting
/// from zero and going on after the end of each occurrence found.
pub open spec fn occurrence_from(s: Seq<char>, pat: Seq<char>, start: int, k: nat) -> Option<int>
    decreases k,
{
    match find_from(s, pat, start) {
        None => None,
        Some(p) => if k == 0 {
            Some(p)
        } else {
            occurrence_from(s, pat, p + pat.len(), (k - 1) as nat)
        },
    }
}

/// `current` with occurrence `occurrence` of `marker` replaced by
/// `replacement`, or unchanged where there are not that many occurrences.
pub open spec fn replaced_occurrence(current: Seq<char>, marker: Seq<char>, replacement: Seq<char>, occurrence: nat) -> Seq<char> {
    match occurrence_from(current, marker, 0, occurrence) {
        None => current,
        Some(p) => current.take(p) + replacement + current.skip(p + marker.len()),
    }
}

proof fn lemma_find_positions(s: Seq<char>, pat: Seq<char>, start: int)
    ensures
        find_from(s, pat, start) matches Some(p) ==> start <= p && matches_at(s, pat, p),
    decreases s.len() + 1 - start,
{
    if 0 <= start <= s.len() && !matches_at(s, pat, start) {
        lemma_find_positions(s, pat, start + 1);
    }
}

/// Whether `pat` stands in `s` at `i`.
fn matches_chars(s: &[char], pat: &[char], i: usize) -> (b: bool)
    requires
        i <= s.len(),
    ensures
        b == matches_at(s@, pat@, i as int),
{
    if pat.len() > s.len() - i {
        return false;
    }
    let mut j: usize = 0;
    while j < pat.len()
        invariant
            i + pat.len() <= s.len(),
            j <= pat.len(),
            forall|k: int| 0 <= k < j ==> s@[i + k] == pat@[k],
        decreases pat.len() - j,
    {
        if s[i + j] != pat[j] {
            assert(s@.subrange(i as int, i + pat.len())[j as int] != pat@[j as int]);
            return false;
        }
        j = j + 1;
    }
    assert(s@.subrange(i as int, i + pat.len()) =~= pat@);
    true
}

/// The first position from `start` on where `pat` stands in `s`.
fn find_chars(s: &[char], pat: &[char], start: usize) -> (r: Option<usize>)
    requires
        start <= s.len(),
    ensures
        r matches Some(p) ==> find_from(s@, pat@, start as int) == Some(p as int),
        r is None ==> find_from(s@, pat@, start as int) is None,
{
    let mut i = start;
    while i < s.len()
        invariant
            start <= i <= s.len(),
            find_from(s@, pat@, start as int) == find_from(s@, pat@, i as int),
        decreases s.len() - i,
    {
        if matches_chars(s, pat, i) {
            return Some(i);
        }
        i = i + 1;
    }
    if matches_chars(s, pat, i) {
        Some(i)
    } else {
        assert(find_from(s@, pat@, i + 1) is None);
        None
    }
}

/// `current` with occurrence `occurrence` of the marker of conflict `hunk`
/// (counting from zero, as non-overlapping occurrences from the start)
/// replaced by the lines of the chosen side; `current` unchanged where the
/// marker does not occur that often. Text edited around and between the
/// conflicts stays as it is.
pub fn resolve_current_conflict(current: &str, hunk: &MergeHunk, choice: MergeChoice, occurrence: usize) -> (s: String)
    ensures
        s@ == replaced_occurrence(current@, conflict_marker_of(hunk@), choice_text(hunk@, choice), occurrence as nat),
{
    let marker_text = conflict_marker(hunk);
    let replacement = match choice {
        MergeChoice::Left => joined(&hunk.left),
        MergeChoice::Right => joined(&hunk.right),
    };
    let text = chars_of(current);
    let marker = chars_of(marker_text.as_str());
    let mut search_start: usize = 0;
    let mut index: usize = 0;
    loop
        invariant
            index <= occurrence,
            search_start <= text.len(),
            text@ == current@,
            marker@ == conflict_marker_of(hunk@),
            replacement@ == choice_text(hunk@, choice),
            occurrence_from(text@, marker@, 0, occurrence as nat) == occurrence_from(
                text@,
                marker@,
                search_start as int,
                (occurrence - index) as nat,
            ),
        decreases occurrence - index,
    {
        match find_chars(text.as_slice(), marker.as_slice(), search_start) {
            None => {
                return current.to_owned();
            },
            Some(p) => {
                proof {
                    lemma_find_positions(text@, marker@, search_start as int);
                }
                if index == occurrence {
                    let mut out: Vec<char> = Vec::new();
                    let mut i: usize = 0;
                    while i < p
                        invariant
                            p + marker.len() <= text.len(),
                            i <= p,
                            out@ == text@.take(i as int),
                        decreases p - i,
                    {
                        out.push(text[i]);
                        assert(out@ =~= text@.take(i + 1));
                        i = i + 1;
                    }
                    let r = chars_of(replacement.as_str());
                    let mut j: usize = 0;
                    while j < r.len()
                        invariant
                            p + marker.len() <= text.len(),
                            j <= r.len(),
                            out@ == text@.take(p as int) + r@.take(j as int),
                        decreases r.len() - j,
                    {
                        out.push(r[j]);
                        assert(out@ =~= text@.take(p as int) + r@.take(j + 1));
                        j = j + 1;
                    }
                    let mut k: usize = p + marker.len();
                    let ghost rest = p + marker.len();
                    while k < text.len()
                        invariant
                            p + marker.len() <= text.len(),
                            rest == p + marker.len(),
                            rest <= k <= text.len(),
                            out@ == text@.take(p as int) + r@ + text@.subrange(rest, k as int),
                        decreases text.len() - k,
                    {
                        out.push(text[k]);
                        assert(out@ =~= text@.take(p as int) + r@ + text@.subrange(rest, k + 1));
                        k = k + 1;
                    }
                    assert(r@.take(r.len() as int) =~= r@);
                    assert(text@.subrange(rest, text.len() as int) =~= text@.skip(rest));
                    return string_of(out.as_slice());
                }
                search_start = p + marker.len();
                index = index + 1;
            },
        }
    }
}

/// Hunk `i` is a conflict that no choice has resolved yet; a hunk with no
/// resolved flag counts as unresolved.
pub open spec fn open_conflict(hs: Seq<MergeHunk>, resolved: Seq<bool>, i: int) -> bool {
    hs[i].kind == MergeHunkKind::Conflict && !(i < resolved.len() && resolved[i])
}

/// The indices below `n` of the open conflicts, in order.
pub open spec fn open_conflicts_upto(hs: Seq<MergeHunk>, resolved: Seq<bool>, n: int) -> Seq<usize>
    decreases n,
{
    if n <= 0 {
        Seq::empty()
    } else {
        let prev = open_conflicts_upto(hs, resolved, n - 1);
        if open_conflict(hs, resolved, n - 1) {
            prev.push((n - 1) as usize)
        } else {
            prev
        }
    }
}

/// The indices of the open conflicts, in order.
pub open spec fn open_conflicts(hs: Seq<MergeHunk>, resolved: Seq<bool>) -> Seq<usize> {
    open_conflicts_upto(hs, resolved, hs.len() as int)
}

/// The indices of the conflicts that are not resolved yet, in order.
pub fn unresolved_conflicts(hunks: &[MergeHunk], resolved: &[bool]) -> (cs: Vec<usize>)
    ensures
        cs@ == open_conflicts(hunks@, resolved@),
{
    let mut cs: Vec<usize> = Vec::new();
    let mut i: usize = 0;
    while i < hunks.len()
        invariant
            i <= hunks.len(),
            cs@ == open_conflicts_upto(hunks@, resolved@, i as int),
        decreases hunks.len() - i,
    {
        let done = i < resolved.len() && resolved[i];
        if hunks[i].kind == MergeHunkKind::Conflict && !done {
            cs.push(i);
        }
        i = i + 1;
    }
    cs
}

/// The last index in `cs` below `selected`.
pub open spec fn last_below(cs: Seq<usize>, selected: int) -> Option<usize>
    decreases cs.len(),
{
    if cs.len() == 0 {
        None
    } else if cs.last() < selected {
        Some(cs.last())
    } else {
        last_below(cs.drop_last(), selected)
    }
}

/// The first index in `cs` above `selected`.
pub open spec fn first_above(cs: Seq<usize>, selected: int) -> Option<usize>
    decreases cs.len(),
{
    if cs.len() == 0 {
        None
    } else if cs[0] > selected {
        Some(cs[0])
    } else {
        first_above(cs.skip(1), selected)
    }
}

/// The conflict before `selected`, wrapping round to the last one.
pub open spec fn previous_of(cs: Seq<usize>, selected: int) -> Option<usize> {
    match last_below(cs, selected) {
        Some(i) => Some(i),
        None => if cs.len() > 0 { Some(cs.last()) } else { None },
    }
}

/// The conflict after `selected`, wrapping round to the first one.
pub open spec fn next_of(cs: Seq<usize>, selected: int) -> Option<usize> {
    match first_above(cs, selected) {
        Some(i) => Some(i),
        None => if cs.len() > 0 { Some(cs[0]) } else { None },
    }
}

/// Of the open conflicts `conflicts`, the one before `selected`, or the
/// last one where none is before it; `None` where there is none at all.
pub fn previous_conflict(conflicts: &[usize], selected: usize) -> (r: Option<usize>)
    ensures
        r == previous_of(conflicts@, selected as int),
{
    let mut i = conflicts.len();
    assert(conflicts@.take(i as int) =~= conflicts@);
    while i > 0
        invariant
            i <= conflicts.len(),
            last_below(conflicts@, selected as int) == last_below(conflicts@.take(i as int), selected as int),
        decreases i,
    {
        assert(conflicts@.take(i as int).drop_last() =~= conflicts@.take(i - 1));
        if conflicts[i - 1] < selected {
            return Some(conflicts[i - 1]);
        }
        i = i - 1;
    }
    if conflicts.len() > 0 {
        Some(conflicts[conflicts.len() - 1])
    } else {
        None
    }
}

/// Of the open conflicts `conflicts`, the one after `selected`, or the
/// first one where none is after it; `None` where there is none at all.
pub fn next_conflict(conflicts: &[usize], selected: usize) -> (r: Option<usize>)
    ensures
        r == next_of(conflicts@, selected as int),
{
    let mut i: usize = 0;
    assert(conflicts@.skip(0) =~= conflicts@);
    while i < conflicts.len()
        invariant
            i <= conflicts.len(),
            first_above(conflicts@, selected as int) == first_above(conflicts@.skip(i as int), selected as int),
        decreases conflicts.len() - i,
    {
        assert(conflicts@.skip(i as int).skip(1) =~= conflicts@.skip(i + 1));
        if conflicts[i] > selected {
            return Some(conflicts[i]);
        }
        i = i + 1;
    }
    if conflicts.len() > 0 {
        Some(conflicts[0])
    } else {
        None
    }
}

/// How many open conflicts below `n` have the marker `marker`.
pub open spec fn same_marker_count(hs: Seq<MergeHunk>, resolved: Seq<bool>, n: int, marker: Seq<char>) -> nat
    decreases n,
{
    if n <= 0 {
        0
    } else {
        same_marker_count(hs, resolved, n - 1, marker) + if open_conflict(hs, resolved, n - 1)
            && conflict_marker_of(hs[n - 1]@) == marker {
            1nat
        } else {
            0nat
        }
    }
}

/// The resolved flags once hunk `i` is resolved, where it has a flag.
pub open spec fn mark_resolved(resolved: Seq<bool>, i: int) -> Seq<bool> {
    if 0 <= i < resolved.len() {
        resolved.update(i, true)
    } else {
        resolved
    }
}

/// Resolves the selected conflict in the merge result `merged` with the
/// lines of `choice`: where hunk `selected` is a conflict, the occurrence of
/// its marker that belongs to it (earlier open conflicts with the same
/// marker come first) gives way to the chosen lines, the hunk is marked
/// resolved, and the selection moves to the next open conflict after it,
/// wrapping round, or stays where none is left. Gives the new text and
/// selection; `None`, with nothing changed, where the selected hunk is not
/// a conflict.
pub fn apply_merge_choice(hunks: &[MergeHunk], resolved: &mut Vec<bool>, selected: usize, merged: &str, choice: MergeChoice) -> (r: Option<(String, usize)>)
    ensures
        !(selected < hunks.len() && hunks[selected as int].kind == MergeHunkKind::Conflict) ==> r is None
            && final(resolved)@ == old(resolved)@,
        selected < hunks.len() && hunks[selected as int].kind == MergeHunkKind::Conflict ==> {
            let marker = conflict_marker_of(hunks[selected as int]@);
            let after = mark_resolved(old(resolved)@, selected as int);
            &&& final(resolved)@ == after
            &&& r matches Some(o) && o.0@ == replaced_occurrence(
                merged@,
                marker,
                choice_text(hunks[selected as int]@, choice),
                same_marker_count(hunks@, old(resolved)@, selected as int, marker),
            ) && o.1 == match next_of(open_conflicts(hunks@, after), selected as int) {
                Some(i) => i,
                None => selected,
            }
        },
{
    if selected >= hunks.len() || hunks[selected].kind != MergeHunkKind::Conflict {
        return None;
    }
    let hunk = &hunks[selected];
    let marker = conflict_marker(hunk);
    let mut occurrence: usize = 0;
    let mut i: usize = 0;
    while i < selected
        invariant
            selected < hunks.len(),
            i <= selected,
            marker@ == conflict_marker_of(hunks[selected as int]@),
            occurrence == same_marker_count(hunks@, resolved@, i as int, marker@),
            occurrence <= i,
        decreases selected - i,
    {
        let done = i < resolved.len() && resolved[i];
        if hunks[i].kind == MergeHunkKind::Conflict && !done {
            let earlier = conflict_marker(&hunks[i]);
            if earlier == marker {
                occurrence = occurrence + 1;
            }
        }
        i = i + 1;
    }
    let text = resolve_current_conflict(merged, hunk, choice, occurrence);
    if selected < resolved.len() {
        resolved.set(selected, true);
    }
    let open = unresolved_conflicts(hunks, resolved.as_slice());
    let next = match next_conflict(open.as_slice(), selected) {
        Some(n) => n,
        None => selected,
    };
    Some((text, next))
}

/// The hunk before `selected` among `count` hunks, wrapping round.
pub fn previous_hunk(selected: usize, count: usize) -> (r: usize)
    requires
        count > 0,
        selected + count <= usize::MAX,
    ensures
        r == (selected + count - 1) % (count as int),
{
    (selected + count - 1) % count
}

/// The hunk after `selected` among `count` hunks, wrapping round.
pub fn next_hunk(selected: usize, count: usize) -> (r: usize)
    requires
        count > 0,
        selected < usize::MAX,
    ensures
        r == (selected + 1) % (count as int),
{
    (selected + 1) % count
}

/// The selection kept within `count` hunks: the last hunk where it is past
/// them, and zero where there are none.
pub fn clamp_selection(selected: usize, count: usize) -> (r: usize)
    ensures
        r == (if selected < count { selected as int } else if count == 0 { 0 } else { count - 1 }),
{
    let last = if count > 0 { count - 1 } else { 0 };
    if selected < last { selected } else { last }
}

/// The first row that belongs to hunk `hunk`, where one does.
pub fn first_row_of_hunk(rows: &[AlignedRow], hunk: usize) -> (r: Option<usize>)
    ensures
        r matches Some(i) ==> i < rows.len() && rows@[i as int].hunk == Some(hunk) && forall|j: int|
            0 <= j < i ==> rows@[j].hunk != Some(hunk),
        r is None ==> forall|j: int| 0 <= j < rows.len() ==> rows@[j].hunk != Some(hunk),
{
    let mut i: usize = 0;
    while i < rows.len()
        invariant
            i <= rows.len(),
            forall|j: int| 0 <= j < i ==> rows@[j].hunk != Some(hunk),
        decreases rows.len() - i,
    {
        if rows[i].hunk == Some(hunk) {
            return Some(i);
        }
        i = i + 1;
    }
    None
}

/// The hunk that a fresh merge selects: its first conflict, or the first
/// hunk where there is no conflict.
pub fn first_conflict(hunks: &[MergeHunk]) -> (r: usize)
    ensures
        (exists|i: int| 0 <= i < hunks.len() && hunks[i].kind == MergeHunkKind::Conflict) ==> {
            &&& r < hunks.len()
            &&& hunks[r as int].kind == MergeHunkKind::Conflict
            &&& forall|j: int| 0 <= j < r ==> hunks[j].kind != MergeHunkKind::Conflict
        },
        !(exists|i: int| 0 <= i < hunks.len() && hunks[i].kind == MergeHunkKind::Conflict) ==> r == 0,
{
    let mut i: usize = 0;
    while i < hunks.len()
        invariant
            i <= hunks.len(),
            forall|j: int| 0 <= j < i ==> hunks[j].kind != MergeHunkKind::Conflict,
        decreases hunks.len() - i,
    {
        if hunks[i].kind == MergeHunkKind::Conflict {
            return i;
        }
        i = i + 1;
    }
    0
}

/// The lines that copying lines `range` of `source` takes: those of its
/// lines (as `str::lines` gives them) that the range covers.
pub open spec fn copied_lines(source: Seq<char>, range: Range<usize>) -> Seq<Seq<char>> {
    let ls = rust_lines_of(source);
    let a = if range.start <= ls.len() { range.start as int } else { ls.len() as int };
    let b = if a + range_len(range) <= ls.len() { a + range_len(range) } else { ls.len() as int };
    ls.subrange(a, b)
}

/// The lines copied are the source's lines in the range, cut off where the
/// source ends: as many as the range is long or as there are source lines
/// from its start on, whichever is fewer, and the `k`-th of them is source
/// line `start + k`; a range within the source gives exactly its lines.
pub proof fn lemma_copied_lines(source: Seq<char>, range: Range<usize>)
    ensures
        ({
            let ls = rust_lines_of(source);
            let avail = if range.start <= ls.len() { ls.len() - range.start } else { 0 };
            &&& copied_lines(source, range).len() == if range_len(range) <= avail { range_len(range) } else { avail }
            &&& forall|k: int| 0 <= k < copied_lines(source, range).len() ==> #[trigger] copied_lines(source, range)[k]
                == ls[range.start + k]
            &&& range.start <= range.end <= ls.len() ==> copied_lines(source, range) == ls.subrange(
                range.start as int,
                range.end as int,
            )
        }),
{
}

/// Whether the copied block ends the target with a newline: where the block
/// runs to the end of both texts, as the source ends; otherwise as the
/// target ends.
pub open spec fn copy_ends_with_newline(source: Seq<char>, target: Seq<char>, source_range: Range<usize>, target_range: Range<usize>) -> bool {
    if source_range.end == rust_lines_of(source).len() && target_range.end == rust_lines_of(target).len() {
        source.len() > 0 && source.last() == '\n'
    } else {
        target.len() > 0 && target.last() == '\n'
    }
}

/// Copies lines `source_range` of `source` over lines `target_range` of
/// `target`, keeping the target's line ending; the block's last newline
/// follows the source where the block ends both texts.
pub fn copy_difference(source: &str, target: &str, source_range: Range<usize>, target_range: Range<usize>) -> (s: String)
    requires
        target_range.start <= target_range.end <= rust_lines_of(target@).len(),
    ensures
        s@ == replaced_text(
            target@,
            target_range,
            copied_lines(source@, source_range),
            copy_ends_with_newline(source@, target@, source_range, target_range),
        ),
{
    let lines = str_lines(source);
    let target_lines = str_lines(target);
    let n = lines.len();
    let a = if source_range.start <= n { source_range.start } else { n };
    let len: usize = if source_range.start < source_range.end {
        source_range.end - source_range.start
    } else {
        0
    };
    let b = if len <= n - a { a + len } else { n };
    let mut replacement: Vec<String> = Vec::new();
    let mut i = a;
    while i < b
        invariant
            a <= i <= b <= n,
            n == lines.len(),
            lines.deep_view() == rust_lines_of(source@),
            strings_view(replacement@) == rust_lines_of(source@).subrange(a as int, i as int),
        decreases b - i,
    {
        let line = lines[i].clone();
        let ghost before = strings_view(replacement@);
        replacement.push(line);
        assert(strings_view(replacement@) =~= before.push(lines@[i as int]@));
        assert(strings_view(replacement@) =~= rust_lines_of(source@).subrange(a as int, i + 1));
        i = i + 1;
    }
    let chars_s = chars_of(source);
    let chars_t = chars_of(target);
    let source_newline = chars_s.len() > 0 && chars_s[chars_s.len() - 1] == '\n';
    let target_newline = chars_t.len() > 0 && chars_t[chars_t.len() - 1] == '\n';
    let ends = if source_range.end == n && target_range.end == target_lines.len() {
        source_newline
    } else {
        target_newline
    };
    replace_lines_preserving_style(target, target_range, replacement, ends)
}

/// Which entries the directory table shows.
#[derive(Clone, Copy, Debug, PartialEq, Eq, Structural)]
pub enum DirectoryFilter {
    All,
    Different,
    Same,
    LeftOnly,
    RightOnly,
}

/// Whether `filter` shows an entry in `state`: the differences view shows
/// every entry that is not the same on both sides.
pub open spec fn shown(filter: DirectoryFilter, state: DirectoryEntryState) -> bool {
    match filter {
        DirectoryFilter::All => true,
        DirectoryFilter::Different => !(state is Same),
        DirectoryFilter::Same => state is Same,
        DirectoryFilter::LeftOnly => state is LeftOnly,
        DirectoryFilter::RightOnly => state is RightOnly,
    }
}

/// Whether `filter` shows an entry in `state`.
pub fn shows(filter: DirectoryFilter, state: &DirectoryEntryState) -> (b: bool)
    ensures
        b == shown(filter, *state),
{
    match filter {
        DirectoryFilter::All => true,
        DirectoryFilter::Different => !matches!(state, DirectoryEntryState::Same),
        DirectoryFilter::Same => matches!(state, DirectoryEntryState::Same),
        DirectoryFilter::LeftOnly => matches!(state, DirectoryEntryState::LeftOnly),
        DirectoryFilter::RightOnly => matches!(state, DirectoryEntryState::RightOnly),
    }
}

/// The indices below `n` of the entries that `filter` shows, in order.
pub open spec fn shown_upto(es: Seq<DirectoryEntry>, filter: DirectoryFilter, n: int) -> Seq<usize>
    decreases n,
{
    if n <= 0 {
        Seq::empty()
    } else if shown(filter, es[n - 1].state) {
        shown_upto(es, filter, n - 1).push((n - 1) as usize)
    } else {
        shown_upto(es, filter, n - 1)
    }
}

/// The indices of the entries that `filter` shows, in order.
pub fn shown_entries(entries: &[DirectoryEntry], filter: DirectoryFilter) -> (r: Vec<usize>)
    ensures
        r@ == shown_upto(entries@, filter, entries.len() as int),
{
    let mut r: Vec<usize> = Vec::new();
    let mut i: usize = 0;
    while i < entries.len()
        invariant
            i <= entries.len(),
            r@ == shown_upto(entries@, filter, i as int),
        decreases entries.len() - i,
    {
        if shows(filter, &entries[i].state) {
            r.push(i);
        }
        i = i + 1;
    }
    r
}

/// The groups of states that the directory summary counts.
pub enum StateGroup {
    Same,
    Different,
    LeftOnly,
    RightOnly,
    Issue,
}

/// Whether `state` falls in group `g`: type mismatches and errors are the
/// issues.
pub open spec fn in_group(g: StateGroup, state: DirectoryEntryState) -> bool {
    match g {
        StateGroup::Same => state is Same,
        StateGroup::Different => state is Different,
        StateGroup::LeftOnly => state is LeftOnly,
        StateGroup::RightOnly => state is RightOnly,
        StateGroup::Issue => state is TypeMismatch || state is Error,
    }
}

/// How many of the first `n` entries have a state in group `g`.
pub open spec fn count_states(es: Seq<DirectoryEntry>, n: int, g: StateGroup) -> nat
    decreases n,
{
    if n <= 0 {
        0
    } else {
        count_states(es, n - 1, g) + if in_group(g, es[n - 1].state) { 1nat } else { 0nat }
    }
}

/// The counts that the directory summary shows.
#[derive(Clone, Copy, Debug, PartialEq, Eq, Structural)]
pub struct DirectorySummary {
    pub same: usize,
    pub different: usize,
    pub left_only: usize,
    pub right_only: usize,
    pub issues: usize,
}

proof fn lemma_count_bound(es: Seq<DirectoryEntry>, n: int, g: StateGroup)
    requires
        n >= 0,
    ensures
        count_states(es, n, g) <= n,
    decreases n,
{
    if n > 0 {
        lemma_count_bound(es, n - 1, g);
    }
}

proof fn lemma_counts_total(es: Seq<DirectoryEntry>, n: int)
    requires
        n >= 0,
    ensures
        count_states(es, n, StateGroup::Same) + count_states(es, n, StateGroup::Different) + count_states(
            es,
            n,
            StateGroup::LeftOnly,
        ) + count_states(es, n, StateGroup::RightOnly) + count_states(es, n, StateGroup::Issue) == n,
    decreases n,
{
    if n > 0 {
        lemma_counts_total(es, n - 1);
    }
}

/// Counts the entries by state; every entry falls in exactly one count.
pub fn summarize(entries: &[DirectoryEntry]) -> (s: DirectorySummary)
    ensures
        s.same == count_states(entries@, entries.len() as int, StateGroup::Same),
        s.different == count_states(entries@, entries.len() as int, StateGroup::Different),
        s.left_only == count_states(entries@, entries.len() as int, StateGroup::LeftOnly),
        s.right_only == count_states(entries@, entries.len() as int, StateGroup::RightOnly),
        s.issues == count_states(entries@, entries.len() as int, StateGroup::Issue),
        s.same + s.different + s.left_only + s.right_only + s.issues == entries.len(),
{
    let mut s = DirectorySummary { same: 0, different: 0, left_only: 0, right_only: 0, issues: 0 };
    let mut i: usize = 0;
    while i < entries.len()
        invariant
            i <= entries.len(),
            s.same == count_states(entries@, i as int, StateGroup::Same),
            s.different == count_states(entries@, i as int, StateGroup::Different),
            s.left_only == count_states(entries@, i as int, StateGroup::LeftOnly),
            s.right_only == count_states(entries@, i as int, StateGroup::RightOnly),
            s.issues == count_states(entries@, i as int, StateGroup::Issue),
        decreases entries.len() - i,
    {
        proof {
            lemma_count_bound(entries@, i as int, StateGroup::Same);
            lemma_count_bound(entries@, i as int, StateGroup::Different);
            lemma_count_bound(entries@, i as int, StateGroup::LeftOnly);
            lemma_count_bound(entries@, i as int, StateGroup::RightOnly);
            lemma_count_bound(entries@, i as int, StateGroup::Issue);
        }
        match &entries[i].state {
            DirectoryEntryState::Same => s.same = s.same + 1,
            DirectoryEntryState::Different => s.different = s.different + 1,
            DirectoryEntryState::LeftOnly => s.left_only = s.left_only + 1,
            DirectoryEntryState::RightOnly => s.right_only = s.right_only + 1,
            DirectoryEntryState::TypeMismatch => s.issues = s.issues + 1,
            DirectoryEntryState::Error(_) => s.issues = s.issues + 1,
        }
        i = i + 1;
    }
    proof {
        lemma_counts_total(entries@, entries.len() as int);
    }
    s
}

/// The text that the directory table shows for a state.
pub open spec fn state_label_of(state: DirectoryEntryState) -> Seq<char> {
    match state {
        DirectoryEntryState::Same => "Same"@,
        DirectoryEntryState::Different => "Different"@,
        DirectoryEntryState::LeftOnly => "Left Only"@,
        DirectoryEntryState::RightOnly => "Right Only"@,
        DirectoryEntryState::TypeMismatch => "Type Mismatch"@,
        DirectoryEntryState::Error(e) => "Error: "@ + describe_of(path_view(e.path), e.message@),
    }
}

/// The text that the directory table shows for a state.
pub fn state_label(state: &DirectoryEntryState) -> (s: String)
    ensures
        s@ == state_label_of(*state),
{
    match state {
        DirectoryEntryState::Same => "Same".to_owned(),
        DirectoryEntryState::Different => "Different".to_owned(),
        DirectoryEntryState::LeftOnly => "Left Only".to_owned(),
        DirectoryEntryState::RightOnly => "Right Only".to_owned(),
        DirectoryEntryState::TypeMismatch => "Type Mismatch".to_owned(),
        DirectoryEntryState::Error(e) => {
            let mut s = "Error: ".to_owned();
            let d = e.describe();
            s.append(d.as_str());
            s
        },
    }
}

/// What the window is comparing.
#[derive(Clone, Copy, Debug, PartialEq, Eq, Structural)]
pub enum Mode {
    Directory,
    TwoWay,
    ThreeWay,
}

/// A path field of the window.
#[derive(Clone, Copy, Debug, PartialEq, Eq, Structural)]
pub enum PathField {
    DirectoryLeft,
    DirectoryRight,
    Base,
    Left,
    Right,
}

/// The field that a dropped path fills: the first empty one of the mode's
/// fields in order, or the last field where all are filled.
pub open spec fn drop_target_of(mode: Mode, directory_left_empty: bool, base_empty: bool, left_empty: bool) -> PathField {
    match mode {
        Mode::Directory => if directory_left_empty { PathField::DirectoryLeft } else { PathField::DirectoryRight },
        Mode::ThreeWay => if base_empty {
            PathField::Base
        } else if left_empty {
            PathField::Left
        } else {
            PathField::Right
        },
        Mode::TwoWay => if left_empty { PathField::Left } else { PathField::Right },
    }
}

/// The field that a dropped path fills.
pub fn drop_target(mode: Mode, directory_left_empty: bool, base_empty: bool, left_empty: bool) -> (f: PathField)
    ensures
        f == drop_target_of(mode, directory_left_empty, base_empty, left_empty),
{
    match mode {
        Mode::Directory => if directory_left_empty {
            PathField::DirectoryLeft
        } else {
            PathField::DirectoryRight
        },
        Mode::ThreeWay => if base_empty {
            PathField::Base
        } else if left_empty {
            PathField::Left
        } else {
            PathField::Right
        },
        Mode::TwoWay => if left_empty {
            PathField::Left
        } else {
            PathField::Right
        },
    }
}

/// What a request to save to a path leads to.
#[derive(Clone, Copy, Debug, PartialEq, Eq, Structural)]
pub enum SaveDecision {
    AskForPath,
    ConfirmOverwrite,
    Write { overwrite: bool },
}

/// A path that is empty once surrounding whitespace is trimmed.
pub open spec fn blank(s: Seq<char>) -> bool {
    forall|i: int| 0 <= i < s.len() ==> is_white(#[trigger] s[i])
}

/// Saving to `target`: a blank path asks for one; an existing target asks
/// for confirmation where overwriting is confirmed; otherwise the text is
/// written, replacing the target where it exists.
pub open spec fn save_decision_of(target: Seq<char>, target_exists: bool, confirm_overwrite: bool) -> SaveDecision {
    if blank(target) {
        SaveDecision::AskForPath
    } else if target_exists && confirm_overwrite {
        SaveDecision::ConfirmOverwrite
    } else {
        SaveDecision::Write { overwrite: target_exists }
    }
}

/// What a request to save to `target` leads to.
pub fn save_decision(target: &str, target_exists: bool, confirm_overwrite: bool) -> (d: SaveDecision)
    ensures
        d == save_decision_of(target@, target_exists, confirm_overwrite),
{
    let chars = chars_of(target);
    let mut i: usize = 0;
    let mut all_white = true;
    while i < chars.len()
        invariant
            i <= chars.len(),
            all_white == forall|j: int| 0 <= j < i ==> is_white(#[trigger] chars@[j]),
        decreases chars.len() - i,
    {
        if !is_whitespace_char(chars[i]) {
            all_white = false;
        }
        i = i + 1;
    }
    if all_white {
        SaveDecision::AskForPath
    } else if target_exists && confirm_overwrite {
        SaveDecision::ConfirmOverwrite
    } else {
        SaveDecision::Write { overwrite: target_exists }
    }
}

} // verus!
