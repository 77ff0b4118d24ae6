//! Two-way text comparison: line differences from the `similar` crate and
//! their grouping into hunks.
use vstd::prelude::*;
use crate::text::{
    compare_lines_of, display_lines, display_lines_of, normalized_lines, strings_view,
};
use core::ops::Range;

verus! {

/// The largest file, in bytes, that is compared as text.
pub const DEFAULT_TEXT_SIZE_LIMIT: u64 = 33554432;

/// The size of the buffers in which files are compared byte by byte.
pub const DEFAULT_BUFFER_SIZE: usize = 65536;

/// How two files are compared.
#[derive(Clone, Debug)]
pub struct FileCompareOptions {
    pub text_size_limit: u64,
    pub buffer_size: usize,
    pub ignore_line_endings: bool,
    pub ignore_whitespace: bool,
}

impl Default for FileCompareOptions {
    fn default() -> (o: Self)
        ensures
            o.text_size_limit == DEFAULT_TEXT_SIZE_LIMIT,
            o.buffer_size == DEFAULT_BUFFER_SIZE,
            o.ignore_line_endings,
            !o.ignore_whitespace,
    {
        FileCompareOptions {
            text_size_limit: DEFAULT_TEXT_SIZE_LIMIT,
            buffer_size: DEFAULT_BUFFER_SIZE,
            ignore_line_endings: true,
            ignore_whitespace: false,
        }
    }
}

/// What a file comparison could show.
#[derive(Clone, Copy, Debug, PartialEq, Eq, Structural)]
pub enum FileDiffKind {
    Text,
    Binary,
    TooLarge,
}

/// What a hunk does to the left lines to give the right ones.
#[derive(Clone, Copy, Debug, PartialEq, Eq, Structural)]
pub enum HunkKind {
    Added,
    Removed,
    Changed,
}

/// A run of differing lines: lines `left_range` of the left text against
/// lines `right_range` of the right text.
#[derive(Debug, PartialEq, Eq)]
pub struct DiffHunk {
    pub left_range: Range<usize>,
    pub right_range: Range<usize>,
    pub kind: HunkKind,
}

impl Clone for DiffHunk {
    fn clone(&self) -> (c: Self)
        ensures
            c == *self,
    {
        DiffHunk {
            left_range: Range { start: self.left_range.start, end: self.left_range.end },
            right_range: Range { start: self.right_range.start, end: self.right_range.end },
            kind: self.kind,
        }
    }
}

/// The lines of two texts as shown, and the hunks in which they differ.
#[derive(Clone, Debug, PartialEq, Eq)]
pub struct TextDiff {
    pub left_lines: Vec<String>,
    pub right_lines: Vec<String>,
    pub hunks: Vec<DiffHunk>,
}

/// The outcome of comparing two files.
#[derive(Clone, Debug, PartialEq, Eq)]
pub struct FileDiff {
    pub kind: FileDiffKind,
    pub equal: bool,
    pub text: Option<TextDiff>,
}

/// The role of one line in a line diff.
#[derive(Clone, Copy, Debug, PartialEq, Eq, Structural)]
pub enum ChangeTag {
    Equal,
    Delete,
    Insert,
}

/// One line of a line diff: its role, its index in the old and in the new
/// lines where it has one, and its text.
#[derive(Clone, Debug)]
pub struct LineChange {
    pub tag: ChangeTag,
    pub old_index: Option<usize>,
    pub new_index: Option<usize>,
    pub value: String,
}

/// A line change as plain values.
pub type ChangeView = (ChangeTag, Option<usize>, Option<usize>, Seq<char>);

impl View for LineChange {
    type V = ChangeView;

    open spec fn view(&self) -> ChangeView {
        (self.tag, self.old_index, self.new_index, self.value@)
    }
}

/// The views of a sequence of line changes.
pub open spec fn changes_view(cs: Seq<LineChange>) -> Seq<ChangeView> {
    cs.map_values(|c: LineChange| c@)
}

/// The line changes that `similar` gives for two sequences of lines, with its
/// default Myers algorithm and no deadline.
pub uninterp spec fn line_diff(old: Seq<Seq<char>>, new: Seq<Seq<char>>) -> Seq<ChangeView>;

/// The old lines that the changes keep or delete, in order.
pub open spec fn old_side(cs: Seq<ChangeView>) -> Seq<Seq<char>>
    decreases cs.len(),
{
    if cs.len() == 0 {
        Seq::empty()
    } else if cs.last().0 == ChangeTag::Insert {
        old_side(cs.drop_last())
    } else {
        old_side(cs.drop_last()).push(cs.last().3)
    }
}

/// The new lines that the changes keep or insert, in order.
pub open spec fn new_side(cs: Seq<ChangeView>) -> Seq<Seq<char>>
    decreases cs.len(),
{
    if cs.len() == 0 {
        Seq::empty()
    } else if cs.last().0 == ChangeTag::Delete {
        new_side(cs.drop_last())
    } else {
        new_side(cs.drop_last()).push(cs.last().3)
    }
}

/// The changes are an edit script from `old` to `new`: kept and deleted lines
/// spell the old lines, kept and inserted lines the new ones, and each change
/// carries the index of its line on each side that it belongs to.
pub open spec fn edit_script(old: Seq<Seq<char>>, new: Seq<Seq<char>>, cs: Seq<ChangeView>) -> bool {
    &&& old_side(cs) == old
    &&& new_side(cs) == new
    &&& forall|i: int|
        0 <= i < cs.len() ==> (#[trigger] cs[i]).1 == (if cs[i].0 == ChangeTag::Insert {
            None::<usize>
        } else {
            Some(old_side(cs.take(i)).len() as usize)
        })
    &&& forall|i: int|
        0 <= i < cs.len() ==> (#[trigger] cs[i]).2 == (if cs[i].0 == ChangeTag::Delete {
            None::<usize>
        } else {
            Some(new_side(cs.take(i)).len() as usize)
        })
}

/// Every change keeps its line.
pub open spec fn all_equal(cs: Seq<ChangeView>) -> bool {
    forall|i: int| 0 <= i < cs.len() ==> (#[trigger] cs[i]).0 == ChangeTag::Equal
}

/// The line diff of `old` against `new`, through `similar::TextDiff::from_slices`
/// and `iter_all_changes`. Its result is named [`line_diff`]; besides, the
/// changes form an edit script from `old` to `new` (the crate emits each
/// diff operation as consecutive changes over both sides), and equal inputs
/// give only kept lines (the Myers search first trims the common prefix).
/// Which edit script the search picks otherwise is not stated.
#[verifier::external_body]
pub(crate) fn diff_lines(old: &[String], new: &[String]) -> (changes: Vec<LineChange>)
    ensures
        changes_view(changes@) == line_diff(strings_view(old@), strings_view(new@)),
        edit_script(strings_view(old@), strings_view(new@), changes_view(changes@)),
        strings_view(old@) == strings_view(new@) ==> all_equal(changes_view(changes@)),
{
    let old_refs: Vec<&str> = old.iter().map(String::as_str).collect();
    let new_refs: Vec<&str> = new.iter().map(String::as_str).collect();
    let diff = similar::TextDiff::from_slices(&old_refs, &new_refs);
    diff.iter_all_changes().map(|c| LineChange {
        tag: match c.tag() {
            similar::ChangeTag::Equal => ChangeTag::Equal,
            similar::ChangeTag::Delete => ChangeTag::Delete,
            similar::ChangeTag::Insert => ChangeTag::Insert,
        },
        old_index: c.old_index(),
        new_index: c.new_index(),
        value: c.value().to_owned(),
    }).collect()
}

/// The state of the walk over the changes that groups them into hunks: the
/// number of lines of each side passed so far, where the open hunk starts on
/// each side, whether it deletes and inserts lines, whether a hunk is open,
/// and the hunks closed so far.
pub struct HunkScan {
    pub left_pos: usize,
    pub right_pos: usize,
    pub start_left: usize,
    pub start_right: usize,
    pub has_delete: bool,
    pub has_insert: bool,
    pub active: bool,
    pub hunks: Seq<DiffHunk>,
}

/// A hunk that deletes and inserts lines changes them; one that only deletes
/// removes them; one that only inserts adds them.
pub open spec fn hunk_kind_of(has_delete: bool, has_insert: bool) -> HunkKind {
    if has_delete && has_insert {
        HunkKind::Changed
    } else if has_delete {
        HunkKind::Removed
    } else {
        HunkKind::Added
    }
}

/// The hunk that the walk holds open: from its starts to the lines reached.
pub open spec fn open_hunk(st: HunkScan) -> DiffHunk {
    DiffHunk {
        left_range: Range { start: st.start_left, end: st.left_pos },
        right_range: Range { start: st.start_right, end: st.right_pos },
        kind: hunk_kind_of(st.has_delete, st.has_insert),
    }
}

/// The walk before any change.
pub open spec fn scan_start() -> HunkScan {
    HunkScan {
        left_pos: 0,
        right_pos: 0,
        start_left: 0,
        start_right: 0,
        has_delete: false,
        has_insert: false,
        active: false,
        hunks: Seq::empty(),
    }
}

/// One step of the walk. A kept line closes the open hunk and passes a line
/// on both sides. A deleted or inserted line opens a hunk where none is open,
/// starting it on both sides at the lines reached, and passes a line on its
/// own side.
pub open spec fn scan_step(st: HunkScan, c: ChangeView) -> HunkScan {
    match c.0 {
        ChangeTag::Equal => HunkScan {
            hunks: if st.active { st.hunks.push(open_hunk(st)) } else { st.hunks },
            active: false,
            has_delete: false,
            has_insert: false,
            left_pos: (st.left_pos + 1) as usize,
            right_pos: (st.right_pos + 1) as usize,
            ..st
        },
        ChangeTag::Delete => HunkScan {
            start_left: if st.active { st.start_left } else { st.left_pos },
            start_right: if st.active { st.start_right } else { st.right_pos },
            active: true,
            left_pos: (st.left_pos + 1) as usize,
            has_delete: true,
            ..st
        },
        ChangeTag::Insert => HunkScan {
            start_left: if st.active { st.start_left } else { st.left_pos },
            start_right: if st.active { st.start_right } else { st.right_pos },
            active: true,
            right_pos: (st.right_pos + 1) as usize,
            has_insert: true,
            ..st
        },
    }
}

/// The walk over all the changes.
pub open spec fn scan_changes(cs: Seq<ChangeView>) -> HunkScan
    decreases cs.len(),
{
    if cs.len() == 0 {
        scan_start()
    } else {
        scan_step(scan_changes(cs.drop_last()), cs.last())
    }
}

/// The hunks of a line diff: maximal runs of deleted and inserted lines.
pub open spec fn hunks_of(cs: Seq<ChangeView>) -> Seq<DiffHunk> {
    let st = scan_changes(cs);
    if st.active {
        st.hunks.push(open_hunk(st))
    } else {
        st.hunks
    }
}

/// A hunk's ranges run forwards, at least one is not empty, and its kind
/// says which are not.
pub open spec fn hunk_well_formed(h: DiffHunk) -> bool {
    &&& h.left_range.start <= h.left_range.end
    &&& h.right_range.start <= h.right_range.end
    &&& (h.left_range.start < h.left_range.end || h.right_range.start < h.right_range.end)
    &&& h.kind == hunk_kind_of(h.left_range.start < h.left_range.end, h.right_range.start < h.right_range.end)
}

/// The hunks follow each other along both sides: each is well formed, the
/// first starts at the same line on both sides, and the equal lines between
/// two hunks are as many on both sides, at least one.
#[verifier::opaque]
pub open spec fn hunks_chained(hs: Seq<DiffHunk>) -> bool {
    &&& forall|i: int| 0 <= i < hs.len() ==> hunk_well_formed(#[trigger] hs[i])
    &&& hs.len() > 0 ==> hs[0].left_range.start == hs[0].right_range.start
    &&& forall|i: int|
        0 <= i < hs.len() - 1 ==> {
            &&& hs[i + 1].left_range.start - (#[trigger] hs[i]).left_range.end == hs[i + 1].right_range.start
                - hs[i].right_range.end
            &&& hs[i + 1].left_range.start - hs[i].left_range.end >= 1
        }
}

/// The hunks keep the two sides aligned: they follow each other along both
/// sides, and the equal lines after the last hunk, which ends within each
/// side, are as many on both sides; with no hunk the sides are as long.
pub open spec fn hunks_aligned(hs: Seq<DiffHunk>, left_len: int, right_len: int) -> bool {
    &&& hunks_chained(hs)
    &&& hs.len() > 0 ==> {
        &&& hs.last().left_range.end <= left_len
        &&& hs.last().right_range.end <= right_len
        &&& left_len - hs.last().left_range.end == right_len - hs.last().right_range.end
    }
    &&& hs.len() == 0 ==> left_len == right_len
}

/// Where the next hunk may start on each side after `hs`: as far from the
/// last hunk on both sides, and past it.
pub open spec fn fits_after(hs: Seq<DiffHunk>, from_l: int, from_r: int) -> bool {
    let prev_l = if hs.len() > 0 { hs.last().left_range.end as int } else { 0 };
    let prev_r = if hs.len() > 0 { hs.last().right_range.end as int } else { 0 };
    &&& from_l - prev_l == from_r - prev_r
    &&& prev_l <= from_l
    &&& hs.len() > 0 ==> from_l - prev_l >= 1
}

proof fn lemma_chain_push(hs: Seq<DiffHunk>, h: DiffHunk)
    requires
        hunks_chained(hs),
        hunk_well_formed(h),
        fits_after(hs, h.left_range.start as int, h.right_range.start as int),
    ensures
        hunks_chained(hs.push(h)),
{
    reveal(hunks_chained);
    let nx = hs.push(h);
    assert forall|i: int| 0 <= i < nx.len() implies hunk_well_formed(#[trigger] nx[i]) by {
        if i < hs.len() {
            assert(nx[i] == hs[i]);
        }
    }
    assert forall|i: int| 0 <= i < nx.len() - 1 implies {
        &&& nx[i + 1].left_range.start - (#[trigger] nx[i]).left_range.end == nx[i + 1].right_range.start
            - nx[i].right_range.end
        &&& nx[i + 1].left_range.start - nx[i].left_range.end >= 1
    } by {
        assert(nx[i] == hs[i]);
        if i + 1 < hs.len() {
            assert(nx[i + 1] == hs[i + 1]);
        } else {
            assert(hs.last() == hs[i]);
        }
    }
}

/// What holds of the walk after changes that pass `lp` left and `rp` right
/// lines: the positions, the closed hunks chained, and the open hunk (or
/// the lines reached) placed after them.
#[verifier::opaque]
pub open spec fn scan_inv(st: HunkScan, lp: int, rp: int) -> bool {
    &&& st.left_pos == lp
    &&& st.right_pos == rp
    &&& hunks_chained(st.hunks)
    &&& if st.active {
        &&& fits_after(st.hunks, st.start_left as int, st.start_right as int)
        &&& st.start_left <= lp
        &&& st.start_right <= rp
        &&& st.has_delete == (st.start_left < lp)
        &&& st.has_insert == (st.start_right < rp)
        &&& (st.has_delete || st.has_insert)
    } else {
        &&& fits_after(st.hunks, lp, rp)
        &&& !st.has_delete
        &&& !st.has_insert
    }
}

proof fn lemma_scan_inv_step(st: HunkScan, c: ChangeView, lp: int, rp: int)
    requires
        scan_inv(st, lp, rp),
        lp < usize::MAX,
        rp < usize::MAX,
    ensures
        scan_inv(
            scan_step(st, c),
            lp + if c.0 == ChangeTag::Insert { 0int } else { 1int },
            rp + if c.0 == ChangeTag::Delete { 0int } else { 1int },
        ),
{
    reveal(scan_inv);
    let nx = scan_step(st, c);
    let lq = lp + if c.0 == ChangeTag::Insert { 0int } else { 1int };
    let rq = rp + if c.0 == ChangeTag::Delete { 0int } else { 1int };
    assert(nx.left_pos == lq && nx.right_pos == rq);
    if c.0 == ChangeTag::Equal {
        if st.active {
            let h = open_hunk(st);
            lemma_chain_push(st.hunks, h);
            assert(nx.hunks == st.hunks.push(h));
            assert(nx.hunks.last() == h);
            assert(fits_after(nx.hunks, lq, rq));
        } else {
            assert(nx.hunks == st.hunks);
            assert(fits_after(nx.hunks, lq, rq));
        }
    } else {
        assert(nx.hunks == st.hunks);
        assert(nx.active);
        assert(fits_after(nx.hunks, nx.start_left as int, nx.start_right as int));
        assert(nx.has_delete == (nx.start_left < lq));
        assert(nx.has_insert == (nx.start_right < rq));
    }
}

proof fn lemma_scan_inv(cs: Seq<ChangeView>)
    requires
        cs.len() <= usize::MAX,
    ensures
        scan_inv(scan_changes(cs), old_side(cs).len() as int, new_side(cs).len() as int),
        old_side(cs).len() <= cs.len(),
        new_side(cs).len() <= cs.len(),
    decreases cs.len(),
{
    if cs.len() == 0 {
        reveal(hunks_chained);
        reveal(scan_inv);
    } else {
        let p = cs.drop_last();
        lemma_scan_inv(p);
        lemma_scan_inv_step(scan_changes(p), cs.last(), old_side(p).len() as int, new_side(p).len() as int);
    }
}

/// The hunks of any line diff keep the sides that it keeps, deletes and
/// inserts aligned.
pub proof fn lemma_hunks_aligned(cs: Seq<ChangeView>)
    requires
        cs.len() <= usize::MAX,
    ensures
        hunks_aligned(hunks_of(cs), old_side(cs).len() as int, new_side(cs).len() as int),
{
    lemma_scan_inv(cs);
    reveal(scan_inv);
    let st = scan_changes(cs);
    if st.active {
        lemma_chain_push(st.hunks, open_hunk(st));
    }
}

/// Where the lines after the hunks start on the left: after the last hunk,
/// or at the first line.
pub open spec fn after_left(hs: Seq<DiffHunk>) -> int {
    if hs.len() > 0 { hs.last().left_range.end as int } else { 0 }
}

/// Where the lines after the hunks start on the right.
pub open spec fn after_right(hs: Seq<DiffHunk>) -> int {
    if hs.len() > 0 { hs.last().right_range.end as int } else { 0 }
}

/// The lines before the first hunk, and those between two hunks, are
/// equal on both sides, paired in order.
#[verifier::opaque]
pub open spec fn gaps_equal(hs: Seq<DiffHunk>, lo: Seq<Seq<char>>, ro: Seq<Seq<char>>) -> bool {
    &&& hs.len() > 0 ==> forall|p: int| 0 <= p < hs[0].left_range.start ==> #[trigger] lo[p] == ro[p]
    &&& forall|i: int, p: int|
        #![trigger hs[i], lo[p]]
        0 <= i < hs.len() - 1 && hs[i].left_range.end <= p < hs[i + 1].left_range.start ==> lo[p] == ro[p
            - hs[i].left_range.end + hs[i].right_range.end]
}

/// The left lines after the hunks, up to `upto`, equal the right lines
/// after them, paired in order.
#[verifier::opaque]
pub open spec fn tail_equal(hs: Seq<DiffHunk>, lo: Seq<Seq<char>>, ro: Seq<Seq<char>>, upto: int) -> bool {
    forall|p: int| after_left(hs) <= p < upto ==> #[trigger] lo[p] == ro[p - after_left(hs) + after_right(hs)]
}

/// Every line outside the hunks is equal on both sides: before the first
/// hunk, between two hunks and after the last one, the left and right lines
/// pair up in order and agree.
pub open spec fn outside_hunks_equal(hs: Seq<DiffHunk>, lo: Seq<Seq<char>>, ro: Seq<Seq<char>>) -> bool {
    gaps_equal(hs, lo, ro) && tail_equal(hs, lo, ro, lo.len() as int)
}

/// No hunk ends past the lines passed.
pub open spec fn ends_within(hs: Seq<DiffHunk>, ln: int, rn: int) -> bool {
    forall|i: int| 0 <= i < hs.len() ==> (#[trigger] hs[i]).left_range.end <= ln && hs[i].right_range.end <= rn
}

/// What the walk knows of the lines that it paired: the closed hunks end
/// within the lines passed, the lines outside them agree, and so do those
/// after them up to the open hunk or the lines reached.
#[verifier::opaque]
pub open spec fn scan_eq_inv(st: HunkScan, lo: Seq<Seq<char>>, ro: Seq<Seq<char>>) -> bool {
    &&& ends_within(st.hunks, lo.len() as int, ro.len() as int)
    &&& gaps_equal(st.hunks, lo, ro)
    &&& tail_equal(st.hunks, lo, ro, if st.active { st.start_left as int } else { lo.len() as int })
}

pub(crate) proof fn lemma_chain_at(hs: Seq<DiffHunk>, i: int)
    requires
        hunks_chained(hs),
        0 <= i < hs.len(),
    ensures
        hunk_well_formed(hs[i]),
        i < hs.len() - 1 ==> hs[i + 1].left_range.start - hs[i].left_range.end == hs[i + 1].right_range.start
            - hs[i].right_range.end,
        i < hs.len() - 1 ==> hs[i + 1].left_range.start - hs[i].left_range.end >= 1,
        i == 0 ==> hs[0].left_range.start == hs[0].right_range.start,
{
    reveal(hunks_chained);
}

proof fn lemma_tail_extend(
    hs: Seq<DiffHunk>,
    lo: Seq<Seq<char>>,
    ro: Seq<Seq<char>>,
    lo2: Seq<Seq<char>>,
    ro2: Seq<Seq<char>>,
    upto: int,
)
    requires
        tail_equal(hs, lo, ro, upto),
        upto <= lo.len(),
        upto - after_left(hs) + after_right(hs) <= ro.len(),
        forall|j: int| 0 <= j < lo.len() ==> lo2[j] == lo[j],
        forall|j: int| 0 <= j < ro.len() ==> ro2[j] == ro[j],
    ensures
        tail_equal(hs, lo2, ro2, upto),
{
    reveal(tail_equal);
    assert forall|p: int| after_left(hs) <= p < upto implies #[trigger] lo2[p] == ro2[p - after_left(hs)
        + after_right(hs)] by {
        assert(lo[p] == ro[p - after_left(hs) + after_right(hs)]);
    }
}

#[verifier::rlimit(40)]
proof fn lemma_equal_extend(
    hs: Seq<DiffHunk>,
    lo: Seq<Seq<char>>,
    ro: Seq<Seq<char>>,
    lo2: Seq<Seq<char>>,
    ro2: Seq<Seq<char>>,
    upto: int,
)
    requires
        hunks_chained(hs),
        ends_within(hs, lo.len() as int, ro.len() as int),
        gaps_equal(hs, lo, ro),
        tail_equal(hs, lo, ro, upto),
        after_left(hs) <= upto <= lo.len(),
        upto - after_left(hs) + after_right(hs) <= ro.len(),
        lo.len() <= lo2.len(),
        ro.len() <= ro2.len(),
        forall|j: int| 0 <= j < lo.len() ==> lo2[j] == lo[j],
        forall|j: int| 0 <= j < ro.len() ==> ro2[j] == ro[j],
    ensures
        gaps_equal(hs, lo2, ro2),
        tail_equal(hs, lo2, ro2, upto),
{
    lemma_tail_extend(hs, lo, ro, lo2, ro2, upto);
    reveal(gaps_equal);
    if hs.len() > 0 {
        assert forall|p: int| 0 <= p < hs[0].left_range.start implies #[trigger] lo2[p] == ro2[p] by {
            lemma_chain_at(hs, 0);
            assert(lo[p] == ro[p]);
        }
    }
    assert forall|i: int, p: int|
        #![trigger hs[i], lo2[p]]
        0 <= i < hs.len() - 1 && hs[i].left_range.end <= p < hs[i + 1].left_range.start implies lo2[p] == ro2[p
            - hs[i].left_range.end + hs[i].right_range.end] by {
        lemma_chain_at(hs, i);
        lemma_chain_at(hs, i + 1);
        assert(hs[i + 1].left_range.end <= lo.len());
        assert(hs[i + 1].right_range.end <= ro.len());
        assert(lo[p] == ro[p - hs[i].left_range.end + hs[i].right_range.end]);
    }
}

#[verifier::rlimit(40)]
proof fn lemma_close_gap(
    hs: Seq<DiffHunk>,
    h: DiffHunk,
    lo: Seq<Seq<char>>,
    ro: Seq<Seq<char>>,
)
    requires
        gaps_equal(hs, lo, ro),
        tail_equal(hs, lo, ro, h.left_range.start as int),
        fits_after(hs, h.left_range.start as int, h.right_range.start as int),
    ensures
        gaps_equal(hs.push(h), lo, ro),
{
    reveal(gaps_equal);
    reveal(tail_equal);
    let nx = hs.push(h);
    if hs.len() == 0 {
        assert forall|p: int| 0 <= p < nx[0].left_range.start implies #[trigger] lo[p] == ro[p] by {
            assert(lo[p] == ro[p - after_left(hs) + after_right(hs)]);
        }
    } else {
        assert(nx[0] == hs[0]);
    }
    assert forall|i: int, p: int|
        #![trigger nx[i], lo[p]]
        0 <= i < nx.len() - 1 && nx[i].left_range.end <= p < nx[i + 1].left_range.start implies lo[p] == ro[p
            - nx[i].left_range.end + nx[i].right_range.end] by {
        assert(nx[i] == hs[i]);
        if i + 1 < hs.len() {
            assert(nx[i + 1] == hs[i + 1]);
            assert(hs[i] == hs[i]);
        } else {
            assert(hs.last() == hs[i]);
            assert(lo[p] == ro[p - after_left(hs) + after_right(hs)]);
        }
    }
}

proof fn lemma_scan_eq_step(st: HunkScan, c: ChangeView, lo: Seq<Seq<char>>, ro: Seq<Seq<char>>)
    requires
        scan_inv(st, lo.len() as int, ro.len() as int),
        scan_eq_inv(st, lo, ro),
        lo.len() < usize::MAX,
        ro.len() < usize::MAX,
    ensures
        scan_eq_inv(
            scan_step(st, c),
            if c.0 == ChangeTag::Insert { lo } else { lo.push(c.3) },
            if c.0 == ChangeTag::Delete { ro } else { ro.push(c.3) },
        ),
{
    reveal(scan_inv);
    reveal(scan_eq_inv);
    let lo2 = if c.0 == ChangeTag::Insert { lo } else { lo.push(c.3) };
    let ro2 = if c.0 == ChangeTag::Delete { ro } else { ro.push(c.3) };
    let nx = scan_step(st, c);
    let lp = lo.len() as int;
    let rp = ro.len() as int;
    let upto = if st.active { st.start_left as int } else { lp };
    lemma_equal_extend(st.hunks, lo, ro, lo2, ro2, upto);
    if c.0 == ChangeTag::Equal {
        if st.active {
            let h = open_hunk(st);
            lemma_close_gap(st.hunks, h, lo2, ro2);
            assert(nx.hunks == st.hunks.push(h));
            reveal(tail_equal);
            assert(after_left(nx.hunks) == lp && after_right(nx.hunks) == rp);
            assert forall|p: int| after_left(nx.hunks) <= p < lo2.len() implies #[trigger] lo2[p] == ro2[p
                - after_left(nx.hunks) + after_right(nx.hunks)] by {
                assert(p == lp);
            }
            assert forall|i: int| 0 <= i < nx.hunks.len() implies (#[trigger] nx.hunks[i]).left_range.end
                <= lo2.len() && nx.hunks[i].right_range.end <= ro2.len() by {
                if i < st.hunks.len() {
                    assert(nx.hunks[i] == st.hunks[i]);
                }
            }
        } else {
            reveal(tail_equal);
            assert(nx.hunks == st.hunks);
            assert forall|p: int| after_left(nx.hunks) <= p < lo2.len() implies #[trigger] lo2[p] == ro2[p
                - after_left(nx.hunks) + after_right(nx.hunks)] by {
                if p < lp {
                    assert(lo2[p] == ro2[p - after_left(st.hunks) + after_right(st.hunks)]);
                }
            }
        }
    } else {
        assert(nx.hunks == st.hunks);
    }
}

proof fn lemma_scan_eq(cs: Seq<ChangeView>)
    requires
        cs.len() <= usize::MAX,
    ensures
        scan_eq_inv(scan_changes(cs), old_side(cs), new_side(cs)),
    decreases cs.len(),
{
    if cs.len() == 0 {
        reveal(scan_eq_inv);
        reveal(gaps_equal);
        reveal(tail_equal);
    } else {
        let p = cs.drop_last();
        lemma_scan_eq(p);
        lemma_scan_inv(p);
        lemma_scan_eq_step(scan_changes(p), cs.last(), old_side(p), new_side(p));
    }
}

/// In the hunks of any line diff, the lines outside the hunks are equal on
/// both sides.
pub proof fn lemma_outside_hunks_equal(cs: Seq<ChangeView>)
    requires
        cs.len() <= usize::MAX,
    ensures
        outside_hunks_equal(hunks_of(cs), old_side(cs), new_side(cs)),
{
    lemma_scan_eq(cs);
    lemma_scan_inv(cs);
    reveal(scan_eq_inv);
    reveal(scan_inv);
    let st = scan_changes(cs);
    let lo = old_side(cs);
    let ro = new_side(cs);
    if st.active {
        let h = open_hunk(st);
        lemma_close_gap(st.hunks, h, lo, ro);
        reveal(tail_equal);
        assert(after_left(st.hunks.push(h)) == lo.len());
    }
}

/// Groups a line diff into hunks.
pub fn hunks_from_changes(changes: &[LineChange]) -> (hunks: Vec<DiffHunk>)
    ensures
        hunks@ == hunks_of(changes_view(changes@)),
{
    let ghost cs = changes_view(changes@);
    let mut hunks: Vec<DiffHunk> = Vec::new();
    let mut left_pos: usize = 0;
    let mut right_pos: usize = 0;
    let mut start_left: usize = 0;
    let mut start_right: usize = 0;
    let mut has_delete = false;
    let mut has_insert = false;
    let mut active = false;
    let mut i: usize = 0;
    while i < changes.len()
        invariant
            i <= changes.len(),
            cs == changes_view(changes@),
            left_pos <= i,
            right_pos <= i,
            scan_changes(cs.take(i as int)) == (HunkScan {
                left_pos,
                right_pos,
                start_left,
                start_right,
                has_delete,
                has_insert,
                active,
                hunks: hunks@,
            }),
        decreases changes.len() - i,
    {
        let change = &changes[i];
        assert(cs.take(i + 1).drop_last() == cs.take(i as int));
        assert(cs[i as int] == change@);
        match change.tag {
            ChangeTag::Equal => {
                if active {
                    hunks.push(
                        DiffHunk {
                            left_range: Range { start: start_left, end: left_pos },
                            right_range: Range { start: start_right, end: right_pos },
                            kind: if has_delete && has_insert {
                                HunkKind::Changed
                            } else if has_delete {
                                HunkKind::Removed
                            } else {
                                HunkKind::Added
                            },
                        },
                    );
                }
                active = false;
                has_delete = false;
                has_insert = false;
                left_pos = left_pos + 1;
                right_pos = right_pos + 1;
            },
            ChangeTag::Delete => {
                if !active {
                    start_left = left_pos;
                    start_right = right_pos;
                    active = true;
                }
                left_pos = left_pos + 1;
                has_delete = true;
            },
            ChangeTag::Insert => {
                if !active {
                    start_left = left_pos;
                    start_right = right_pos;
                    active = true;
                }
                right_pos = right_pos + 1;
                has_insert = true;
            },
        }
        i = i + 1;
    }
    assert(cs.take(changes.len() as int) == cs);
    if active {
        hunks.push(
            DiffHunk {
                left_range: Range { start: start_left, end: left_pos },
                right_range: Range { start: start_right, end: right_pos },
                kind: if has_delete && has_insert {
                    HunkKind::Changed
                } else if has_delete {
                    HunkKind::Removed
                } else {
                    HunkKind::Added
                },
            },
        );
    }
    hunks
}

proof fn lemma_all_equal_scan(cs: Seq<ChangeView>)
    requires
        all_equal(cs),
    ensures
        !scan_changes(cs).active,
        scan_changes(cs).hunks.len() == 0,
    decreases cs.len(),
{
    if cs.len() > 0 {
        assert(all_equal(cs.drop_last())) by {
            assert forall|i: int| 0 <= i < cs.drop_last().len() implies (
            #[trigger] cs.drop_last()[i]).0 == ChangeTag::Equal by {
                assert(cs.drop_last()[i] == cs[i]);
            }
        }
        lemma_all_equal_scan(cs.drop_last());
        assert(cs.last() == cs[cs.len() - 1]);
    }
}

proof fn lemma_scan_hunks_grow(cs: Seq<ChangeView>, k: int)
    requires
        0 <= k <= cs.len(),
    ensures
        scan_changes(cs.take(k)).hunks.len() <= scan_changes(cs).hunks.len(),
        scan_changes(cs.take(k)).active ==> (scan_changes(cs).active
            || scan_changes(cs).hunks.len() > scan_changes(cs.take(k)).hunks.len()),
    decreases cs.len() - k,
{
    if k < cs.len() {
        lemma_scan_hunks_grow(cs.drop_last(), k);
        assert(cs.drop_last().take(k) == cs.take(k));
    } else {
        assert(cs.take(k) == cs);
    }
}

/// The hunks of a line diff are empty exactly when every change keeps its
/// line.
pub proof fn lemma_hunks_empty_iff_all_equal(cs: Seq<ChangeView>)
    ensures
        hunks_of(cs).len() == 0 <==> all_equal(cs),
{
    if all_equal(cs) {
        lemma_all_equal_scan(cs);
    } else {
        let i = choose|i: int| 0 <= i < cs.len() && (#[trigger] cs[i]).0 != ChangeTag::Equal;
        assert(cs.take(i + 1).drop_last() == cs.take(i));
        assert(scan_changes(cs.take(i + 1)).active);
        lemma_scan_hunks_grow(cs, i + 1);
    }
}

proof fn lemma_all_equal_sides(cs: Seq<ChangeView>)
    requires
        all_equal(cs),
    ensures
        old_side(cs) == new_side(cs),
    decreases cs.len(),
{
    if cs.len() > 0 {
        assert(all_equal(cs.drop_last())) by {
            assert forall|i: int| 0 <= i < cs.drop_last().len() implies (
            #[trigger] cs.drop_last()[i]).0 == ChangeTag::Equal by {
                assert(cs.drop_last()[i] == cs[i]);
            }
        }
        lemma_all_equal_sides(cs.drop_last());
        assert(cs.last() == cs[cs.len() - 1]);
    }
}

/// The hunks in which two sequences of lines differ.
pub fn build_hunks(left: &[String], right: &[String]) -> (hunks: Vec<DiffHunk>)
    ensures
        hunks@ == hunks_of(line_diff(strings_view(left@), strings_view(right@))),
        hunks@.len() == 0 <==> strings_view(left@) == strings_view(right@),
        hunks_aligned(hunks@, left.len() as int, right.len() as int),
        outside_hunks_equal(hunks@, strings_view(left@), strings_view(right@)),
{
    let changes = diff_lines(left, right);
    let ghost cs = changes_view(changes@);
    proof {
        assert(strings_view(left@).len() == left.len() && strings_view(right@).len() == right.len());
        lemma_hunks_aligned(cs);
        lemma_outside_hunks_equal(cs);
        lemma_hunks_empty_iff_all_equal(cs);
        if all_equal(cs) {
            lemma_all_equal_sides(cs);
        }
    }
    hunks_from_changes(changes.as_slice())
}

/// The lines of `text` that a comparison with these options compares.
pub fn normalized(text: &str, options: &FileCompareOptions) -> (lines: Vec<String>)
    ensures
        lines.deep_view() == compare_lines_of(
            text@,
            options.ignore_line_endings,
            options.ignore_whitespace,
        ),
{
    normalized_lines(text, options.ignore_line_endings, options.ignore_whitespace)
}

/// Compares two editable texts with the options of a file comparison: the
/// lines shown are those of each text; the hunks are those of the line diff
/// of the normalized lines, and there is none exactly when the normalized
/// lines agree.
pub fn compare_texts(left: &str, right: &str, options: &FileCompareOptions) -> (diff: TextDiff)
    ensures
        diff.left_lines.deep_view() == display_lines_of(left@),
        diff.right_lines.deep_view() == display_lines_of(right@),
        diff.hunks@ == hunks_of(
            line_diff(
                compare_lines_of(left@, options.ignore_line_endings, options.ignore_whitespace),
                compare_lines_of(right@, options.ignore_line_endings, options.ignore_whitespace),
            ),
        ),
        diff.hunks@.len() == 0 <==> compare_lines_of(
            left@,
            options.ignore_line_endings,
            options.ignore_whitespace,
        ) == compare_lines_of(right@, options.ignore_line_endings, options.ignore_whitespace),
        hunks_aligned(
            diff.hunks@,
            compare_lines_of(left@, options.ignore_line_endings, options.ignore_whitespace).len() as int,
            compare_lines_of(right@, options.ignore_line_endings, options.ignore_whitespace).len() as int,
        ),
        outside_hunks_equal(
            diff.hunks@,
            compare_lines_of(left@, options.ignore_line_endings, options.ignore_whitespace),
            compare_lines_of(right@, options.ignore_line_endings, options.ignore_whitespace),
        ),
{
    let left_lines = display_lines(left);
    let right_lines = display_lines(right);
    let left_compare = normalized(left, options);
    let right_compare = normalized(right, options);
    assert(strings_view(left_compare@) =~= left_compare.deep_view());
    assert(strings_view(right_compare@) =~= right_compare.deep_view());
    let hunks = build_hunks(left_compare.as_slice(), right_compare.as_slice());
    TextDiff { left_lines, right_lines, hunks }
}

} // verus!
