//! Three-way merge: the edits that each side makes to the base, their merge
//! into one result with conflict regions, and the rendering of choices.
use vstd::prelude::*;
use crate::compare::{
    all_equal, changes_view, diff_lines, edit_script, line_diff, new_side, old_side,
    ChangeTag, ChangeView, FileCompareOptions, LineChange,
};
use crate::error::CompareError;
use crate::save::crlf_to_lf;
use crate::text::{
    join_lines, join_with, lemma_join_split, merge_lines, merge_lines_of, strings_view, strip_bom,
    unify_newlines,
};
use core::ops::Range;

verus! {

/// How the two sides changed a region of the base.
#[derive(Clone, Copy, Debug, PartialEq, Eq, Structural)]
pub enum MergeHunkKind {
    LeftOnly,
    RightOnly,
    Identical,
    Conflict,
}

/// The side whose lines resolve a hunk.
#[derive(Clone, Copy, Debug, PartialEq, Eq, Structural)]
pub enum MergeChoice {
    Left,
    Right,
}

/// A region of the merge: the base lines it replaces, the merged lines that
/// stand for it, and what each side put there.
#[derive(Debug, PartialEq, Eq)]
pub struct MergeHunk {
    pub base_range: Range<usize>,
    pub merged_range: Range<usize>,
    pub left: Vec<String>,
    pub right: Vec<String>,
    pub kind: MergeHunkKind,
}

/// The lines of the three texts, the merge regions, and the merged text.
#[derive(Debug, PartialEq, Eq)]
pub struct ThreeWayDiff {
    pub base: Vec<String>,
    pub left: Vec<String>,
    pub right: Vec<String>,
    pub hunks: Vec<MergeHunk>,
    pub merged: String,
}

/// One side's replacement of base lines `range` by `replacement`.
#[derive(Debug)]
pub struct Edit {
    pub range: Range<usize>,
    pub replacement: Vec<String>,
}

/// An edit as plain values: start, end, replacement lines.
pub type EditSpec = (int, int, Seq<Seq<char>>);

impl View for Edit {
    type V = EditSpec;

    open spec fn view(&self) -> EditSpec {
        (self.range.start as int, self.range.end as int, self.replacement.deep_view())
    }
}

/// The views of a sequence of edits.
pub open spec fn edits_view(es: Seq<Edit>) -> Seq<EditSpec> {
    es.map_values(|e: Edit| e@)
}

/// A merge hunk as plain values.
pub struct MergeHunkSpec {
    pub base_start: int,
    pub base_end: int,
    pub merged_start: int,
    pub merged_end: int,
    pub left: Seq<Seq<char>>,
    pub right: Seq<Seq<char>>,
    pub kind: MergeHunkKind,
}

impl View for MergeHunk {
    type V = MergeHunkSpec;

    open spec fn view(&self) -> MergeHunkSpec {
        MergeHunkSpec {
            base_start: self.base_range.start as int,
            base_end: self.base_range.end as int,
            merged_start: self.merged_range.start as int,
            merged_end: self.merged_range.end as int,
            left: self.left.deep_view(),
            right: self.right.deep_view(),
            kind: self.kind,
        }
    }
}

/// The views of a sequence of merge hunks.
pub open spec fn hunks_view(hs: Seq<MergeHunk>) -> Seq<MergeHunkSpec> {
    hs.map_values(|h: MergeHunk| h@)
}

/// The state of the walk that gathers a line diff into edits: the edits
/// closed so far, the open one, and the number of base lines passed.
pub struct EditScan {
    pub done: Seq<EditSpec>,
    pub active: Option<EditSpec>,
    pub cursor: int,
}

/// One step of the edit walk. A kept line closes the open edit; a deleted
/// line extends it (opening it at the current base line) over that base
/// line; an inserted line appends to its replacement.
pub open spec fn edit_step(st: EditScan, c: ChangeView) -> EditScan {
    let opened = match st.active {
        Some(e) => e,
        None => (st.cursor, st.cursor, Seq::<Seq<char>>::empty()),
    };
    match c.0 {
        ChangeTag::Equal => EditScan {
            done: match st.active {
                Some(e) => st.done.push(e),
                None => st.done,
            },
            active: None,
            cursor: st.cursor + 1,
        },
        ChangeTag::Delete => EditScan {
            done: st.done,
            active: Some((opened.0, st.cursor + 1, opened.2)),
            cursor: st.cursor + 1,
        },
        ChangeTag::Insert => EditScan {
            done: st.done,
            active: Some((opened.0, opened.1, opened.2.push(c.3))),
            cursor: st.cursor,
        },
    }
}

/// The edit walk over all the changes.
pub open spec fn edit_scan(cs: Seq<ChangeView>) -> EditScan
    decreases cs.len(),
{
    if cs.len() == 0 {
        EditScan { done: Seq::empty(), active: None, cursor: 0 }
    } else {
        edit_step(edit_scan(cs.drop_last()), cs.last())
    }
}

/// The edits of a line diff: each maximal run of deleted and inserted lines
/// replaces the deleted base lines by the inserted lines.
pub open spec fn edits_of(cs: Seq<ChangeView>) -> Seq<EditSpec> {
    let st = edit_scan(cs);
    match st.active {
        Some(e) => st.done.push(e),
        None => st.done,
    }
}

/// A copy of the lines.
pub fn copy_lines(v: &[String]) -> (c: Vec<String>)
    ensures
        c.deep_view() == strings_view(v@),
{
    let mut c: Vec<String> = Vec::new();
    let mut i: usize = 0;
    while i < v.len()
        invariant
            i <= v.len(),
            c.deep_view() == strings_view(v@).take(i as int),
        decreases v.len() - i,
    {
        let s = v[i].clone();
        let ghost before = c.deep_view();
        c.push(s);
        assert(c.deep_view() =~= before.push(v@[i as int]@));
        assert(c.deep_view() =~= strings_view(v@).take(i + 1));
        i = i + 1;
    }
    assert(strings_view(v@).take(v.len() as int) =~= strings_view(v@));
    c
}

/// Whether two sequences of lines are equal.
pub fn same_lines(a: &[String], b: &[String]) -> (same: bool)
    ensures
        same == (strings_view(a@) == strings_view(b@)),
{
    if a.len() != b.len() {
        assert(strings_view(a@).len() != strings_view(b@).len());
        return false;
    }
    let mut i: usize = 0;
    while i < a.len()
        invariant
            i <= a.len() == b.len(),
            forall|j: int| 0 <= j < i ==> a@[j]@ == b@[j]@,
        decreases a.len() - i,
    {
        if a[i] != b[i] {
            assert(strings_view(a@)[i as int] != strings_view(b@)[i as int]);
            return false;
        }
        i = i + 1;
    }
    assert(strings_view(a@) =~= strings_view(b@));
    true
}

/// Gathers a line diff into edits.
pub fn edits_from_changes(changes: &[LineChange]) -> (edits: Vec<Edit>)
    ensures
        edits_view(edits@) == edits_of(changes_view(changes@)),
{
    let ghost cs = changes_view(changes@);
    let mut result: Vec<Edit> = Vec::new();
    let mut active = false;
    let mut a_start: usize = 0;
    let mut a_end: usize = 0;
    let mut a_repl: Vec<String> = Vec::new();
    let mut cursor: usize = 0;
    let mut i: usize = 0;
    assert(edits_view(result@) =~= Seq::<EditSpec>::empty());
    while i < changes.len()
        invariant
            i <= changes.len(),
            cursor <= i,
            cs == changes_view(changes@),
            edit_scan(cs.take(i as int)) == (EditScan {
                done: edits_view(result@),
                active: if active {
                    Some((a_start as int, a_end as int, a_repl.deep_view()))
                } else {
                    None
                },
                cursor: cursor as int,
            }),
        decreases changes.len() - i,
    {
        let change = &changes[i];
        assert(cs.take(i + 1).drop_last() == cs.take(i as int));
        assert(cs[i as int] == change@);
        match change.tag {
            ChangeTag::Equal => {
                if active {
                    let mut repl: Vec<String> = Vec::new();
                    core::mem::swap(&mut repl, &mut a_repl);
                    let ghost before = edits_view(result@);
                    result.push(Edit { range: Range { start: a_start, end: a_end }, replacement: repl });
                    assert(edits_view(result@) =~= before.push(result@.last()@));
                    active = false;
                }
                cursor = cursor + 1;
            },
            ChangeTag::Delete => {
                if !active {
                    a_start = cursor;
                    a_repl = Vec::new();
                    assert(a_repl.deep_view() =~= Seq::<Seq<char>>::empty());
                    active = true;
                }
                cursor = cursor + 1;
                a_end = cursor;
            },
            ChangeTag::Insert => {
                if !active {
                    a_start = cursor;
                    a_end = cursor;
                    a_repl = Vec::new();
                    assert(a_repl.deep_view() =~= Seq::<Seq<char>>::empty());
                    active = true;
                }
                let ghost before = a_repl.deep_view();
                a_repl.push(change.value.clone());
                assert(a_repl.deep_view() =~= before.push(change.value@));
            },
        }
        i = i + 1;
    }
    assert(cs.take(changes.len() as int) == cs);
    if active {
        let ghost before = edits_view(result@);
        result.push(Edit { range: Range { start: a_start, end: a_end }, replacement: a_repl });
        assert(edits_view(result@) =~= before.push(result@.last()@));
    }
    result
}

/// The edits that `side` makes to `base`.
pub fn edits(base: &[String], side: &[String]) -> (es: Vec<Edit>)
    ensures
        edits_view(es@) == edits_of(line_diff(strings_view(base@), strings_view(side@))),
        ordered_edits(edits_view(es@), base@.len() as int),
        separated_edits(edits_view(es@)),
        apply_edits(strings_view(base@), edits_view(es@)) == strings_view(side@),
        strings_view(base@) == strings_view(side@) ==> es@.len() == 0,
{
    let changes = diff_lines(base, side);
    proof {
        let cs = changes_view(changes@);
        lemma_edits_apply(strings_view(base@), strings_view(side@), cs);
        lemma_edits_separated(cs);
        if strings_view(base@) == strings_view(side@) {
            lemma_all_equal_no_edits(cs);
        }
    }
    edits_from_changes(changes.as_slice())
}

/// The state of the merge walk: the next left and right edits, the first
/// base line not yet handled, the merged lines so far and the hunks so far.
pub struct MergeState {
    pub l: int,
    pub r: int,
    pub index: int,
    pub output: Seq<Seq<char>>,
    pub hunks: Seq<MergeHunkSpec>,
}

/// The line that opens a conflict region.
pub open spec fn left_marker() -> Seq<char> {
    "<<<<<<< LEFT"@
}

/// The line between the two sides of a conflict region.
pub open spec fn middle_marker() -> Seq<char> {
    "======="@
}

/// The line that closes a conflict region.
pub open spec fn right_marker() -> Seq<char> {
    ">>>>>>> RIGHT"@
}

/// Two edits touch the same base region: both start at one line and one of
/// them only inserts, or their ranges overlap.
pub open spec fn concurrent(a: EditSpec, b: EditSpec) -> bool {
    (a.0 == b.0 && (a.0 >= a.1 || b.0 >= b.1)) || (a.0 < b.1 && b.0 < a.1)
}

/// The lines of a conflict region for two replacements.
pub open spec fn conflict_lines(a: Seq<Seq<char>>, b: Seq<Seq<char>>) -> Seq<Seq<char>> {
    seq![left_marker()] + a + seq![middle_marker()] + b + seq![right_marker()]
}

/// What a conflict region takes in after its first two edits: while the
/// next edit of either side (the left one first) starts before the region
/// ends, the region grows to cover it and its replacement lines join that
/// side's lines. Gives the next edit of each side, the region's end and the
/// lines of each side.
pub open spec fn absorb(
    le: Seq<EditSpec>,
    re: Seq<EditSpec>,
    l: int,
    r: int,
    end: int,
    lc: Seq<Seq<char>>,
    rc: Seq<Seq<char>>,
) -> (int, int, int, Seq<Seq<char>>, Seq<Seq<char>>)
    decreases (le.len() - l) + (re.len() - r),
    when 0 <= l <= le.len() && 0 <= r <= re.len()
{
    if l < le.len() && le[l].0 < end {
        absorb(le, re, l + 1, r, if le[l].1 > end { le[l].1 } else { end }, lc + le[l].2, rc)
    } else if r < re.len() && re[r].0 < end {
        absorb(le, re, l, r + 1, if re[r].1 > end { re[r].1 } else { end }, lc, rc + re[r].2)
    } else {
        (l, r, end, lc, rc)
    }
}

/// One step of the merge walk over base lines `b` and the edits `le` and
/// `re` of the two sides. It takes the base lines up to the first pending
/// edit; then two concurrent edits become one region, which also takes in
/// every further edit that starts before it ends; the region is identical
/// when it holds just two equal edits, a conflict region otherwise; a lone
/// edit is applied for its side. `None` where the base lines to take run
/// backwards or past the end.
pub open spec fn merge_step(
    b: Seq<Seq<char>>,
    le: Seq<EditSpec>,
    re: Seq<EditSpec>,
    st: MergeState,
) -> Option<MergeState> {
    let has_l = st.l < le.len();
    let has_r = st.r < re.len();
    let x = le[st.l];
    let y = re[st.r];
    let start = if has_l && has_r {
        if x.0 <= y.0 { x.0 } else { y.0 }
    } else if has_l {
        x.0
    } else {
        y.0
    };
    if start < st.index || start > b.len() {
        None
    } else {
        let out0 = st.output + b.subrange(st.index, start);
        if has_l && has_r && concurrent(x, y) {
            let end0 = if x.1 >= y.1 { x.1 } else { y.1 };
            let grown = absorb(le, re, st.l + 1, st.r + 1, end0, x.2, y.2);
            let widened = grown.0 > st.l + 1 || grown.1 > st.r + 1;
            let identical = !widened && x.0 == y.0 && x.1 == y.1 && x.2 == y.2;
            let out1 = if identical { out0 + x.2 } else { out0 + conflict_lines(grown.3, grown.4) };
            Some(MergeState {
                l: grown.0,
                r: grown.1,
                index: grown.2,
                output: out1,
                hunks: st.hunks.push(MergeHunkSpec {
                    base_start: start,
                    base_end: grown.2,
                    merged_start: out0.len() as int,
                    merged_end: out1.len() as int,
                    left: grown.3,
                    right: grown.4,
                    kind: if identical { MergeHunkKind::Identical } else { MergeHunkKind::Conflict },
                }),
            })
        } else if has_l && x.0 == start {
            let out1 = out0 + x.2;
            Some(MergeState {
                l: st.l + 1,
                r: st.r,
                index: x.1,
                output: out1,
                hunks: st.hunks.push(MergeHunkSpec {
                    base_start: x.0,
                    base_end: x.1,
                    merged_start: out0.len() as int,
                    merged_end: out1.len() as int,
                    left: x.2,
                    right: Seq::empty(),
                    kind: MergeHunkKind::LeftOnly,
                }),
            })
        } else {
            let out1 = out0 + y.2;
            Some(MergeState {
                l: st.l,
                r: st.r + 1,
                index: y.1,
                output: out1,
                hunks: st.hunks.push(MergeHunkSpec {
                    base_start: y.0,
                    base_end: y.1,
                    merged_start: out0.len() as int,
                    merged_end: out1.len() as int,
                    left: Seq::empty(),
                    right: y.2,
                    kind: MergeHunkKind::RightOnly,
                }),
            })
        }
    }
}

/// The region grows only forwards: the next edits stay within their
/// sides, and the end never shrinks.
pub proof fn lemma_absorb_bounds(
    le: Seq<EditSpec>,
    re: Seq<EditSpec>,
    l: int,
    r: int,
    end: int,
    lc: Seq<Seq<char>>,
    rc: Seq<Seq<char>>,
)
    requires
        0 <= l <= le.len(),
        0 <= r <= re.len(),
    ensures
        ({
            let g = absorb(le, re, l, r, end, lc, rc);
            &&& l <= g.0 <= le.len()
            &&& r <= g.1 <= re.len()
            &&& end <= g.2
            &&& g.0 < le.len() ==> le[g.0].0 >= g.2
            &&& g.1 < re.len() ==> re[g.1].0 >= g.2
            &&& (g.0 == l && g.1 == r) ==> g.2 == end && g.3 == lc && g.4 == rc
        }),
    decreases (le.len() - l) + (re.len() - r),
{
    if l < le.len() && le[l].0 < end {
        lemma_absorb_bounds(le, re, l + 1, r, if le[l].1 > end { le[l].1 } else { end }, lc + le[l].2, rc);
    } else if r < re.len() && re[r].0 < end {
        lemma_absorb_bounds(le, re, l, r + 1, if re[r].1 > end { re[r].1 } else { end }, lc, rc + re[r].2);
    }
}

/// A step of the walk uses up at least one edit and keeps within the edits.
pub proof fn lemma_step_bounds(b: Seq<Seq<char>>, le: Seq<EditSpec>, re: Seq<EditSpec>, st: MergeState)
    requires
        0 <= st.l <= le.len(),
        0 <= st.r <= re.len(),
        st.l < le.len() || st.r < re.len(),
    ensures
        merge_step(b, le, re, st) matches Some(n) ==> {
            &&& st.l <= n.l <= le.len()
            &&& st.r <= n.r <= re.len()
            &&& n.l + n.r > st.l + st.r
        },
{
    if st.l < le.len() && st.r < re.len() {
        let x = le[st.l];
        let y = re[st.r];
        let end0 = if x.1 >= y.1 { x.1 } else { y.1 };
        lemma_absorb_bounds(le, re, st.l + 1, st.r + 1, end0, x.2, y.2);
    }
}

/// The region never grows past the base when the edits stay within it.
proof fn lemma_absorb_within(
    le: Seq<EditSpec>,
    re: Seq<EditSpec>,
    l: int,
    r: int,
    end: int,
    lc: Seq<Seq<char>>,
    rc: Seq<Seq<char>>,
    n: int,
)
    requires
        0 <= l <= le.len(),
        0 <= r <= re.len(),
        ordered_edits(le, n),
        ordered_edits(re, n),
        end <= n,
    ensures
        absorb(le, re, l, r, end, lc, rc).2 <= n,
    decreases (le.len() - l) + (re.len() - r),
{
    if l < le.len() && le[l].0 < end {
        lemma_absorb_within(le, re, l + 1, r, if le[l].1 > end { le[l].1 } else { end }, lc + le[l].2, rc, n);
    } else if r < re.len() && re[r].0 < end {
        lemma_absorb_within(le, re, l, r + 1, if re[r].1 > end { re[r].1 } else { end }, lc, rc + re[r].2, n);
    }
}

/// The walk over edits that apply in order within the base never fails:
/// every pending edit starts at or after the first base line not yet
/// handled, which stays within the base.
pub proof fn lemma_merge_succeeds(b: Seq<Seq<char>>, le: Seq<EditSpec>, re: Seq<EditSpec>, st: MergeState)
    requires
        ordered_edits(le, b.len() as int),
        ordered_edits(re, b.len() as int),
        0 <= st.l <= le.len(),
        0 <= st.r <= re.len(),
        0 <= st.index <= b.len(),
        st.l < le.len() ==> le[st.l].0 >= st.index,
        st.r < re.len() ==> re[st.r].0 >= st.index,
    ensures
        merge_run(b, le, re, st) matches Some(fin) && fin.index <= b.len(),
    decreases (le.len() - st.l) + (re.len() - st.r),
{
    if !(st.l >= le.len() && st.r >= re.len()) {
        lemma_step_bounds(b, le, re, st);
        let has_l = st.l < le.len();
        let has_r = st.r < re.len();
        let x = le[st.l];
        let y = re[st.r];
        if has_l && has_r && concurrent(x, y) {
            let end0 = if x.1 >= y.1 { x.1 } else { y.1 };
            lemma_absorb_bounds(le, re, st.l + 1, st.r + 1, end0, x.2, y.2);
            lemma_absorb_within(le, re, st.l + 1, st.r + 1, end0, x.2, y.2, b.len() as int);
        } else if has_l && has_r {
            if st.l + 1 < le.len() {
                assert(x.1 <= le[st.l + 1].0);
            }
            if st.r + 1 < re.len() {
                assert(y.1 <= re[st.r + 1].0);
            }
        } else if has_l {
            if st.l + 1 < le.len() {
                assert(x.1 <= le[st.l + 1].0);
            }
        } else {
            if st.r + 1 < re.len() {
                assert(y.1 <= re[st.r + 1].0);
            }
        }
        let next = merge_step(b, le, re, st)->0;
        assert(merge_step(b, le, re, st) is Some);
        lemma_merge_succeeds(b, le, re, next);
    }
}

/// The merge walk from a state until both sides' edits are used up.
pub open spec fn merge_run(
    b: Seq<Seq<char>>,
    le: Seq<EditSpec>,
    re: Seq<EditSpec>,
    st: MergeState,
) -> Option<MergeState>
    decreases (le.len() - st.l) + (re.len() - st.r),
    when 0 <= st.l <= le.len() && 0 <= st.r <= re.len()
{
    if st.l >= le.len() && st.r >= re.len() {
        Some(st)
    } else {
        proof {
            lemma_step_bounds(b, le, re, st);
        }
        match merge_step(b, le, re, st) {
            None => None,
            Some(next) => merge_run(b, le, re, next),
        }
    }
}

/// The walk before any edit.
pub open spec fn merge_start() -> MergeState {
    MergeState { l: 0, r: 0, index: 0, output: Seq::empty(), hunks: Seq::empty() }
}

/// The merged lines and the hunks of merging the edits `le` and `re` into
/// the base lines `b`, the base lines after the last edit closing the merged
/// lines; `None` where a walk step fails or the last edit ends past the base.
pub open spec fn merge_result(
    b: Seq<Seq<char>>,
    le: Seq<EditSpec>,
    re: Seq<EditSpec>,
) -> Option<(Seq<Seq<char>>, Seq<MergeHunkSpec>)> {
    match merge_run(b, le, re, merge_start()) {
        None => None,
        Some(st) => if st.index <= b.len() {
            Some((st.output + b.subrange(st.index, b.len() as int), st.hunks))
        } else {
            None
        },
    }
}

/// The line of a conflict region's opening marker.
fn marker_line(which: u8) -> (s: String)
    requires
        which < 3,
    ensures
        which == 0 ==> s@ == left_marker(),
        which == 1 ==> s@ == middle_marker(),
        which == 2 ==> s@ == right_marker(),
{
    if which == 0 {
        "<<<<<<< LEFT".to_owned()
    } else if which == 1 {
        "=======".to_owned()
    } else {
        ">>>>>>> RIGHT".to_owned()
    }
}

/// Appends copies of `lines` to `out`.
fn push_lines(out: &mut Vec<String>, lines: &[String])
    ensures
        final(out).deep_view() == old(out).deep_view() + strings_view(lines@),
{
    let ghost start = out.deep_view();
    let mut i: usize = 0;
    while i < lines.len()
        invariant
            i <= lines.len(),
            out.deep_view() == start + strings_view(lines@).take(i as int),
        decreases lines.len() - i,
    {
        let ghost before = out.deep_view();
        out.push(lines[i].clone());
        assert(out.deep_view() =~= before.push(lines@[i as int]@));
        assert(out.deep_view() =~= start + strings_view(lines@).take(i + 1));
        i = i + 1;
    }
    assert(strings_view(lines@).take(lines.len() as int) =~= strings_view(lines@));
}

/// Merges the edits of both sides into the base lines: the merged lines and
/// the hunks, or `None` where the edits run backwards or past the base.
pub fn merge_edits(base: &[String], left: &[Edit], right: &[Edit]) -> (merged: Option<(Vec<String>, Vec<MergeHunk>)>)
    ensures
        merged is Some <==> merge_result(strings_view(base@), edits_view(left@), edits_view(right@)) is Some,
        merged matches Some((out, hunks)) ==> merge_result(
            strings_view(base@),
            edits_view(left@),
            edits_view(right@),
        ) == Some((out.deep_view(), hunks_view(hunks@))),
{
    let ghost b = strings_view(base@);
    let ghost le = edits_view(left@);
    let ghost re = edits_view(right@);
    let mut output: Vec<String> = Vec::new();
    let mut hunks: Vec<MergeHunk> = Vec::new();
    let mut index: usize = 0;
    let mut l: usize = 0;
    let mut r: usize = 0;
    assert(output.deep_view() =~= Seq::<Seq<char>>::empty());
    assert(hunks_view(hunks@) =~= Seq::<MergeHunkSpec>::empty());
    while l < left.len() || r < right.len()
        invariant
            l <= left.len(),
            r <= right.len(),
            b == strings_view(base@),
            le == edits_view(left@),
            re == edits_view(right@),
            merge_run(b, le, re, merge_start()) == merge_run(
                b,
                le,
                re,
                MergeState {
                    l: l as int,
                    r: r as int,
                    index: index as int,
                    output: output.deep_view(),
                    hunks: hunks_view(hunks@),
                },
            ),
        decreases (left.len() - l) + (right.len() - r),
    {
        let ghost st = MergeState {
            l: l as int,
            r: r as int,
            index: index as int,
            output: output.deep_view(),
            hunks: hunks_view(hunks@),
        };
        let has_l = l < left.len();
        let has_r = r < right.len();
        let start = if has_l && has_r {
            if left[l].range.start <= right[r].range.start {
                left[l].range.start
            } else {
                right[r].range.start
            }
        } else if has_l {
            left[l].range.start
        } else {
            right[r].range.start
        };
        if has_l {
            assert(le[l as int] == left@[l as int]@);
        }
        if has_r {
            assert(re[r as int] == right@[r as int]@);
        }
        if start < index || start > base.len() {
            assert(merge_step(b, le, re, st) is None);
            return None;
        }
        let mut k = index;
        let ghost out_start = output.deep_view();
        while k < start
            invariant
                index <= k <= start <= base.len(),
                b == strings_view(base@),
                output.deep_view() == out_start + b.subrange(index as int, k as int),
            decreases start - k,
        {
            let ghost before = output.deep_view();
            output.push(base[k].clone());
            assert(output.deep_view() =~= before.push(b[k as int]));
            assert(output.deep_view() =~= out_start + b.subrange(index as int, k + 1));
            k = k + 1;
        }
        let ghost out0 = output.deep_view();
        let is_concurrent = has_l && has_r && {
            let a = &left[l].range;
            let c = &right[r].range;
            (a.start == c.start && (a.start >= a.end || c.start >= c.end)) || (a.start < c.end
                && c.start < a.end)
        };
        if is_concurrent {
            let le_edit = &left[l];
            let re_edit = &right[r];
            let end0 = if le_edit.range.end >= re_edit.range.end {
                le_edit.range.end
            } else {
                re_edit.range.end
            };
            let ghost x = le[l as int];
            let ghost y = re[r as int];
            let ghost grown = absorb(le, re, l + 1, r + 1, end0 as int, x.2, y.2);
            let mut end = end0;
            let mut lc = copy_lines(le_edit.replacement.as_slice());
            let mut rc = copy_lines(re_edit.replacement.as_slice());
            proof {
                assert(strings_view(le_edit.replacement@) =~= le_edit.replacement.deep_view());
                assert(strings_view(re_edit.replacement@) =~= re_edit.replacement.deep_view());
            }
            let mut nl = l + 1;
            let mut nr = r + 1;
            loop
                invariant
                    l + 1 <= nl <= left.len(),
                    r + 1 <= nr <= right.len(),
                    le == edits_view(left@),
                    re == edits_view(right@),
                    grown == absorb(le, re, l + 1, r + 1, end0 as int, x.2, y.2),
                    grown == absorb(le, re, nl as int, nr as int, end as int, lc.deep_view(), rc.deep_view()),
                ensures
                    grown == (nl as int, nr as int, end as int, lc.deep_view(), rc.deep_view()),
                decreases (left.len() - nl) + (right.len() - nr),
            {
                if nl < left.len() && left[nl].range.start < end {
                    let e = &left[nl];
                    assert(le[nl as int] == e@);
                    if e.range.end > end {
                        end = e.range.end;
                    }
                    push_lines(&mut lc, e.replacement.as_slice());
                    assert(strings_view(e.replacement@) =~= e.replacement.deep_view());
                    nl = nl + 1;
                } else if nr < right.len() && right[nr].range.start < end {
                    let e = &right[nr];
                    assert(re[nr as int] == e@);
                    if e.range.end > end {
                        end = e.range.end;
                    }
                    push_lines(&mut rc, e.replacement.as_slice());
                    assert(strings_view(e.replacement@) =~= e.replacement.deep_view());
                    nr = nr + 1;
                } else {
                    if nl < left.len() {
                        assert(le[nl as int] == left@[nl as int]@);
                    }
                    if nr < right.len() {
                        assert(re[nr as int] == right@[nr as int]@);
                    }
                    break;
                }
            }
            let widened = nl > l + 1 || nr > r + 1;
            let identical = !widened && le_edit.range.start == re_edit.range.start && le_edit.range.end
                == re_edit.range.end && same_lines(
                le_edit.replacement.as_slice(),
                re_edit.replacement.as_slice(),
            );
            let merged_start = output.len();
            assert(output.deep_view().len() == output@.len());
            if identical {
                push_lines(&mut output, le_edit.replacement.as_slice());
            } else {
                let ghost before = output.deep_view();
                let ghost lv = lc.deep_view();
                let ghost rv = rc.deep_view();
                assert(strings_view(lc@) =~= lv);
                assert(strings_view(rc@) =~= rv);
                let m0 = marker_line(0);
                let ghost m0v = m0@;
                output.push(m0);
                assert(output.deep_view() =~= before.push(m0v));
                push_lines(&mut output, lc.as_slice());
                let m1 = marker_line(1);
                let ghost m1v = m1@;
                let ghost s1 = output.deep_view();
                output.push(m1);
                assert(output.deep_view() =~= s1.push(m1v));
                push_lines(&mut output, rc.as_slice());
                let m2 = marker_line(2);
                let ghost m2v = m2@;
                let ghost s2 = output.deep_view();
                output.push(m2);
                assert(output.deep_view() =~= s2.push(m2v));
                assert(output.deep_view() =~= before + conflict_lines(lv, rv));
            }
            assert(output.deep_view().len() == output@.len());
            let ghost before_hunks = hunks_view(hunks@);
            hunks.push(
                MergeHunk {
                    base_range: Range { start, end },
                    merged_range: Range { start: merged_start, end: output.len() },
                    left: lc,
                    right: rc,
                    kind: if identical {
                        MergeHunkKind::Identical
                    } else {
                        MergeHunkKind::Conflict
                    },
                },
            );
            assert(hunks_view(hunks@) =~= before_hunks.push(hunks@.last()@));
            index = end;
            l = nl;
            r = nr;
        } else if has_l && left[l].range.start == start {
            let e = &left[l];
            let merged_start = output.len();
            push_lines(&mut output, e.replacement.as_slice());
            assert(strings_view(e.replacement@) =~= e.replacement.deep_view());
            let left_copy = copy_lines(e.replacement.as_slice());
            let ghost before_hunks = hunks_view(hunks@);
            hunks.push(
                MergeHunk {
                    base_range: Range { start: e.range.start, end: e.range.end },
                    merged_range: Range { start: merged_start, end: output.len() },
                    left: left_copy,
                    right: Vec::new(),
                    kind: MergeHunkKind::LeftOnly,
                },
            );
            assert(hunks@.last().right.deep_view() =~= Seq::<Seq<char>>::empty());
            assert(hunks_view(hunks@) =~= before_hunks.push(hunks@.last()@));
            index = e.range.end;
            l = l + 1;
        } else {
            let e = &right[r];
            let merged_start = output.len();
            push_lines(&mut output, e.replacement.as_slice());
            assert(strings_view(e.replacement@) =~= e.replacement.deep_view());
            let right_copy = copy_lines(e.replacement.as_slice());
            let ghost before_hunks = hunks_view(hunks@);
            hunks.push(
                MergeHunk {
                    base_range: Range { start: e.range.start, end: e.range.end },
                    merged_range: Range { start: merged_start, end: output.len() },
                    left: Vec::new(),
                    right: right_copy,
                    kind: MergeHunkKind::RightOnly,
                },
            );
            assert(hunks@.last().left.deep_view() =~= Seq::<Seq<char>>::empty());
            assert(hunks_view(hunks@) =~= before_hunks.push(hunks@.last()@));
            index = e.range.end;
            r = r + 1;
        }
        assert(merge_step(b, le, re, st) == Some(
            MergeState {
                l: l as int,
                r: r as int,
                index: index as int,
                output: output.deep_view(),
                hunks: hunks_view(hunks@),
            },
        ));
    }
    if index > base.len() {
        return None;
    }
    let ghost out_start = output.deep_view();
    let mut k = index;
    while k < base.len()
        invariant
            index <= k <= base.len(),
            b == strings_view(base@),
            output.deep_view() == out_start + b.subrange(index as int, k as int),
        decreases base.len() - k,
    {
        let ghost before = output.deep_view();
        output.push(base[k].clone());
        assert(output.deep_view() =~= before.push(b[k as int]));
        assert(output.deep_view() =~= out_start + b.subrange(index as int, k + 1));
        k = k + 1;
    }
    Some((output, hunks))
}

/// The merged lines and hunks of a three-way merge of the texts `base`,
/// `left` and `right`: the merge of the edits that each side's merge lines
/// make to the base's merge lines. `None` where that merge fails.
pub open spec fn three_way_of(base: Seq<char>, left: Seq<char>, right: Seq<char>) -> Option<(Seq<Seq<char>>, Seq<MergeHunkSpec>)> {
    let b = merge_lines_of(base);
    merge_result(
        b,
        edits_of(line_diff(b, merge_lines_of(left))),
        edits_of(line_diff(b, merge_lines_of(right))),
    )
}

/// The three texts merge: the walk over the two sides' edits never has to
/// take base lines backwards or past the end. It never has to for the edits
/// of a line diff, so this holds of any three texts that
/// `compare_three_way_text` has merged.
pub open spec fn three_way_mergeable(base: Seq<char>, left: Seq<char>, right: Seq<char>) -> bool {
    three_way_of(base, left, right) is Some
}

/// The diff is the merge of the three texts: their merge lines, the merge
/// hunks, and the merged lines joined by LF.
pub open spec fn is_three_way_of(d: ThreeWayDiff, base: Seq<char>, left: Seq<char>, right: Seq<char>) -> bool {
    &&& d.base.deep_view() == merge_lines_of(base)
    &&& d.left.deep_view() == merge_lines_of(left)
    &&& d.right.deep_view() == merge_lines_of(right)
    &&& three_way_of(base, left, right) matches Some((out, hs))
    &&& d.merged@ == join_with(out, '\n')
    &&& hunks_view(d.hunks@) == hs
}

/// Merges three texts: each side's edits to the base, merged into one text
/// with conflict regions where the sides change the same base lines
/// differently. Every three texts merge.
pub fn compare_three_way_text(base: &str, left: &str, right: &str) -> (res: Result<ThreeWayDiff, CompareError>)
    ensures
        res matches Ok(d) && is_three_way_of(d, base@, left@, right@),
        merge_cases_hold(
            merge_lines_of(base@),
            merge_lines_of(left@),
            merge_lines_of(right@),
            edits_of(line_diff(merge_lines_of(base@), merge_lines_of(left@))),
            edits_of(line_diff(merge_lines_of(base@), merge_lines_of(right@))),
        ),
        merge_lines_of(right@) == merge_lines_of(base@) ==> (res matches Ok(d) && d.merged@ == unify_newlines(strip_bom(left@))),
        merge_lines_of(left@) == merge_lines_of(base@) ==> (res matches Ok(d) && d.merged@ == unify_newlines(strip_bom(right@))),
        merge_lines_of(left@) == merge_lines_of(right@) ==> (res matches Ok(d) && d.merged@ == unify_newlines(strip_bom(left@))),
        ({
            let b = merge_lines_of(base@);
            let le = edits_of(line_diff(b, merge_lines_of(left@)));
            let re = edits_of(line_diff(b, merge_lines_of(right@)));
            apart(le, re) ==> (res matches Ok(d) && d.merged@ == join_with(apply_edits(b, interleave(le, re, 0, 0)), '\n')
                && forall|j: int| 0 <= j < d.hunks@.len() ==> (#[trigger] d.hunks@[j]).kind != MergeHunkKind::Conflict)
        }),
{
    let base_lines = merge_lines(base);
    let left_lines = merge_lines(left);
    let right_lines = merge_lines(right);
    assert(strings_view(base_lines@) =~= base_lines.deep_view());
    assert(strings_view(left_lines@) =~= left_lines.deep_view());
    assert(strings_view(right_lines@) =~= right_lines.deep_view());
    let left_edits = edits(base_lines.as_slice(), left_lines.as_slice());
    let right_edits = edits(base_lines.as_slice(), right_lines.as_slice());
    proof {
        lemma_merge_cases(
            base_lines.deep_view(),
            left_lines.deep_view(),
            right_lines.deep_view(),
            edits_view(left_edits@),
            edits_view(right_edits@),
        );
        lemma_join_split(unify_newlines(strip_bom(left@)), '\n');
        lemma_join_split(unify_newlines(strip_bom(right@)), '\n');
        lemma_merge_succeeds(base_lines.deep_view(), edits_view(left_edits@), edits_view(right_edits@), merge_start());
        if apart(edits_view(left_edits@), edits_view(right_edits@)) {
            lemma_merge_applies_both_sides(base_lines.deep_view(), edits_view(left_edits@), edits_view(right_edits@));
        }
    }
    match merge_edits(base_lines.as_slice(), left_edits.as_slice(), right_edits.as_slice()) {
        None => {
            assert(false);
            Err(CompareError::invalid_text(base))
        },
        Some((output, hunks)) => {
            assert(strings_view(output@) =~= output.deep_view());
            let merged = join_lines(output.as_slice(), '\n');
            assert(output@.map_values(|l: String| l@) =~= output.deep_view());
            assert forall|j: int| 0 <= j < hunks@.len() implies hunks_view(hunks@)[j] == (#[trigger] hunks@[j])@ by {}
            Ok(
                ThreeWayDiff {
                    base: base_lines,
                    left: left_lines,
                    right: right_lines,
                    hunks,
                    merged,
                },
            )
        },
    }
}

/// Merges editable buffers. Merge lines always read CR LF and lone CR as LF;
/// the whitespace options only affect two-way display, since dropping
/// whitespace in a merge would lose source text.
pub fn compare_three_texts(base: &str, left: &str, right: &str, options: &FileCompareOptions) -> (res: Result<ThreeWayDiff, CompareError>)
    ensures
        res matches Ok(d) && is_three_way_of(d, base@, left@, right@),
{
    compare_three_way_text(base, left, right)
}

/// `lines` with lines `start..end` replaced by `repl`, as `Vec::splice` does.
pub open spec fn splice(lines: Seq<Seq<char>>, start: int, end: int, repl: Seq<Seq<char>>) -> Seq<Seq<char>> {
    lines.subrange(0, start) + repl + lines.subrange(end, lines.len() as int)
}

/// The range fits the lines: `Vec::splice` accepts it.
pub open spec fn range_fits(lines: Seq<Seq<char>>, start: int, end: int) -> bool {
    0 <= start <= end <= lines.len()
}

/// The lines that resolve a hunk for a choice.
pub open spec fn chosen_lines(h: MergeHunkSpec, use_left: bool) -> Seq<Seq<char>> {
    if use_left { h.left } else { h.right }
}

/// The merged text with hunk `i` resolved to one side: its merged lines
/// replaced by that side's lines. `None` where there is no such hunk.
pub open spec fn resolved_text(merged: Seq<char>, hs: Seq<MergeHunkSpec>, i: int, use_left: bool) -> Option<Seq<char>> {
    if 0 <= i < hs.len() {
        Some(join_with(
            splice(split_on_lf(merged), hs[i].merged_start, hs[i].merged_end, chosen_lines(hs[i], use_left)),
            '\n',
        ))
    } else {
        None
    }
}

/// The merged text split at every LF.
pub open spec fn split_on_lf(merged: Seq<char>) -> Seq<Seq<char>> {
    crate::text::split_on(merged, '\n')
}

/// The choice made for hunk `i`, where one is made.
pub open spec fn choice_at(choices: Seq<Option<MergeChoice>>, i: int) -> Option<MergeChoice> {
    if 0 <= i < choices.len() { choices[i] } else { None }
}

/// The merged lines after applying the choices for hunks `k - 1` down to
/// `0`, last hunk first; `None` where a chosen hunk's range does not fit
/// the lines at that point.
pub open spec fn render_lines(lines: Seq<Seq<char>>, hs: Seq<MergeHunkSpec>, choices: Seq<Option<MergeChoice>>, k: int) -> Option<Seq<Seq<char>>>
    decreases k,
{
    if k <= 0 {
        Some(lines)
    } else {
        let h = hs[k - 1];
        match choice_at(choices, k - 1) {
            None => render_lines(lines, hs, choices, k - 1),
            Some(c) => if range_fits(lines, h.merged_start, h.merged_end) {
                render_lines(
                    splice(lines, h.merged_start, h.merged_end, chosen_lines(h, c == MergeChoice::Left)),
                    hs,
                    choices,
                    k - 1,
                )
            } else {
                None
            },
        }
    }
}

/// The merged text rendered with the choices; `None` where a chosen hunk's
/// range does not fit.
pub open spec fn rendered_text(merged: Seq<char>, hs: Seq<MergeHunkSpec>, choices: Seq<Option<MergeChoice>>) -> Option<Seq<char>> {
    match render_lines(split_on_lf(merged), hs, choices, hs.len() as int) {
        Some(ls) => Some(join_with(ls, '\n')),
        None => None,
    }
}

/// `lines` with `start..end` replaced by `repl`.
pub(crate) fn splice_lines(lines: &Vec<String>, start: usize, end: usize, repl: &[String]) -> (out: Vec<String>)
    requires
        start <= end <= lines.len(),
    ensures
        out.deep_view() == splice(lines.deep_view(), start as int, end as int, strings_view(repl@)),
{
    let mut out: Vec<String> = Vec::new();
    let ghost lv = lines.deep_view();
    let mut i: usize = 0;
    while i < start
        invariant
            i <= start <= end <= lines.len(),
            lv == lines.deep_view(),
            out.deep_view() == lv.subrange(0, i as int),
        decreases start - i,
    {
        let ghost before = out.deep_view();
        out.push(lines[i].clone());
        assert(out.deep_view() =~= before.push(lv[i as int]));
        assert(out.deep_view() =~= lv.subrange(0, i + 1));
        i = i + 1;
    }
    push_lines(&mut out, repl);
    let ghost mid = out.deep_view();
    let mut j: usize = end;
    while j < lines.len()
        invariant
            end <= j <= lines.len(),
            lv == lines.deep_view(),
            out.deep_view() == mid + lv.subrange(end as int, j as int),
        decreases lines.len() - j,
    {
        let ghost before = out.deep_view();
        out.push(lines[j].clone());
        assert(out.deep_view() =~= before.push(lv[j as int]));
        assert(out.deep_view() =~= mid + lv.subrange(end as int, j + 1));
        j = j + 1;
    }
    out
}

/// The merged text split into its lines.
fn merged_lines(merged: &String) -> (lines: Vec<String>)
    ensures
        lines.deep_view() == split_on_lf(merged@),
{
    let chars = crate::text::chars_of(merged.as_str());
    crate::text::strings_of(crate::text::split_chars(chars.as_slice(), '\n'))
}

/// Returns a new merged text with one hunk resolved to one side; the hunk's
/// merged range is line based, so a caller can resolve a selected hunk
/// without reading conflict markers. `None` where there is no such hunk.
pub fn resolve_merge_hunk(diff: &ThreeWayDiff, hunk_index: usize, use_left: bool) -> (text: Option<String>)
    requires
        hunk_index < diff.hunks.len() ==> range_fits(
            split_on_lf(diff.merged@),
            diff.hunks@[hunk_index as int].merged_range.start as int,
            diff.hunks@[hunk_index as int].merged_range.end as int,
        ),
    ensures
        text matches Some(t) ==> resolved_text(diff.merged@, hunks_view(diff.hunks@), hunk_index as int, use_left) == Some(t@),
        text is None <==> resolved_text(diff.merged@, hunks_view(diff.hunks@), hunk_index as int, use_left) is None,
{
    if hunk_index >= diff.hunks.len() {
        return None;
    }
    let hunk = &diff.hunks[hunk_index];
    let lines = merged_lines(&diff.merged);
    let replacement = if use_left { &hunk.left } else { &hunk.right };
    assert(strings_view(replacement@) =~= replacement.deep_view());
    let spliced = splice_lines(&lines, hunk.merged_range.start, hunk.merged_range.end, replacement.as_slice());
    assert(spliced@.map_values(|l: String| l@) =~= spliced.deep_view());
    Some(join_lines(spliced.as_slice(), '\n'))
}

/// Renders a merge with a choice per hunk. A hunk without a choice keeps
/// its current rendering, conflict markers included, so a caller may
/// resolve step by step.
pub fn render_three_way(diff: &ThreeWayDiff, choices: &[Option<MergeChoice>]) -> (text: String)
    requires
        rendered_text(diff.merged@, hunks_view(diff.hunks@), choices@) is Some,
    ensures
        rendered_text(diff.merged@, hunks_view(diff.hunks@), choices@) == Some(text@),
{
    let ghost hs = hunks_view(diff.hunks@);
    let mut lines = merged_lines(&diff.merged);
    let mut k: usize = diff.hunks.len();
    while k > 0
        invariant
            k <= diff.hunks.len(),
            hs == hunks_view(diff.hunks@),
            render_lines(split_on_lf(diff.merged@), hs, choices@, hs.len() as int) == render_lines(
                lines.deep_view(),
                hs,
                choices@,
                k as int,
            ),
            render_lines(lines.deep_view(), hs, choices@, k as int) is Some,
        decreases k,
    {
        let index = k - 1;
        let hunk = &diff.hunks[index];
        assert(hs[index as int] == hunk@);
        if index < choices.len() {
            match choices[index] {
                Some(choice) => {
                    let replacement = match choice {
                        MergeChoice::Left => &hunk.left,
                        MergeChoice::Right => &hunk.right,
                    };
                    assert(strings_view(replacement@) =~= replacement.deep_view());
                    lines = splice_lines(&lines, hunk.merged_range.start, hunk.merged_range.end, replacement.as_slice());
                },
                None => {},
            }
        }
        k = index;
    }
    assert(lines@.map_values(|l: String| l@) =~= lines.deep_view());
    join_lines(lines.as_slice(), '\n')
}

/// The edits apply in order within `n` base lines: each range lies within
/// the base and ends no later than the next one starts.
pub open spec fn ordered_edits(es: Seq<EditSpec>, n: int) -> bool {
    &&& forall|k: int| 0 <= k < es.len() ==> 0 <= (#[trigger] es[k]).0 <= es[k].1 <= n
    &&& forall|k: int| 0 <= k < es.len() - 1 ==> (#[trigger] es[k]).1 <= es[k + 1].0
}

/// The base lines from `index` to `u` with the edits from the `k`-th on
/// applied.
pub open spec fn apply_from(b: Seq<Seq<char>>, es: Seq<EditSpec>, k: int, index: int, u: int) -> Seq<Seq<char>>
    decreases es.len() - k,
{
    if k >= es.len() || k < 0 {
        b.subrange(index, u)
    } else {
        b.subrange(index, es[k].0) + es[k].2 + apply_from(b, es, k + 1, es[k].1, u)
    }
}

/// The base lines with all the edits applied.
pub open spec fn apply_edits(b: Seq<Seq<char>>, es: Seq<EditSpec>) -> Seq<Seq<char>> {
    apply_from(b, es, 0, 0, b.len() as int)
}

/// The base lines up to `u` with the edits applied, built from the last edit.
spec fn apply_upto(b: Seq<Seq<char>>, es: Seq<EditSpec>, u: int) -> Seq<Seq<char>>
    decreases es.len(),
{
    if es.len() == 0 {
        b.subrange(0, u)
    } else {
        apply_upto(b, es.drop_last(), es.last().0) + es.last().2 + b.subrange(es.last().1, u)
    }
}

proof fn lemma_apply_from_last(b: Seq<Seq<char>>, es: Seq<EditSpec>, k: int, index: int, u: int)
    requires
        es.len() >= 1,
        0 <= k <= es.len() - 1,
    ensures
        apply_from(b, es, k, index, u) == apply_from(b, es.drop_last(), k, index, es.last().0)
            + es.last().2 + b.subrange(es.last().1, u),
    decreases es.len() - k,
{
    let d = es.drop_last();
    if k == es.len() - 1 {
        assert(apply_from(b, es, k + 1, es[k].1, u) == b.subrange(es[k].1, u));
        assert(apply_from(b, es, k, index, u) =~= apply_from(b, d, k, index, es.last().0) + es.last().2 + b.subrange(es.last().1, u));
    } else {
        lemma_apply_from_last(b, es, k + 1, es[k].1, u);
        assert(d[k] == es[k]);
        assert(apply_from(b, es, k, index, u) =~= apply_from(b, d, k, index, es.last().0) + es.last().2 + b.subrange(es.last().1, u));
    }
}

proof fn lemma_apply_upto_from(b: Seq<Seq<char>>, es: Seq<EditSpec>, u: int)
    ensures
        apply_upto(b, es, u) == apply_from(b, es, 0, 0, u),
    decreases es.len(),
{
    if es.len() > 0 {
        lemma_apply_upto_from(b, es.drop_last(), es.last().0);
        lemma_apply_from_last(b, es, 0, 0, u);
    }
}

proof fn lemma_apply_upto_extend(b: Seq<Seq<char>>, es: Seq<EditSpec>, u: int)
    requires
        0 <= u < b.len(),
        es.len() == 0 || (0 <= es.last().1 <= u),
    ensures
        apply_upto(b, es, u + 1) == apply_upto(b, es, u).push(b[u]),
{
    if es.len() == 0 {
        assert(b.subrange(0, u + 1) =~= b.subrange(0, u).push(b[u]));
    } else {
        assert(b.subrange(es.last().1, u + 1) =~= b.subrange(es.last().1, u).push(b[u]));
        assert(apply_upto(b, es, u + 1) =~= apply_upto(b, es, u).push(b[u]));
    }
}

proof fn lemma_old_side_prefix(cs: Seq<ChangeView>, j: int, k: int)
    requires
        0 <= j <= k <= cs.len(),
    ensures
        old_side(cs.take(j)).len() <= old_side(cs.take(k)).len(),
        old_side(cs.take(k)).take(old_side(cs.take(j)).len() as int) == old_side(cs.take(j)),
        new_side(cs.take(j)).len() <= new_side(cs.take(k)).len(),
        new_side(cs.take(k)).take(new_side(cs.take(j)).len() as int) == new_side(cs.take(j)),
    decreases k - j,
{
    if j == k {
        assert(old_side(cs.take(k)).take(old_side(cs.take(j)).len() as int) =~= old_side(cs.take(j)));
        assert(new_side(cs.take(k)).take(new_side(cs.take(j)).len() as int) =~= new_side(cs.take(j)));
    } else {
        lemma_old_side_prefix(cs, j, k - 1);
        assert(cs.take(k).drop_last() == cs.take(k - 1));
        assert(old_side(cs.take(k)).take(old_side(cs.take(j)).len() as int) =~= old_side(cs.take(j)));
        assert(new_side(cs.take(k)).take(new_side(cs.take(j)).len() as int) =~= new_side(cs.take(j)));
    }
}

/// The edit walk's invariant over a prefix of an edit script from `b` to `s`.
spec fn edit_scan_inv(b: Seq<Seq<char>>, p: Seq<ChangeView>) -> bool {
    let st = edit_scan(p);
    let x = match st.active { Some(a) => a.0, None => st.cursor };
    &&& st.cursor == old_side(p).len()
    &&& ordered_edits(st.done, x)
    &&& st.done.len() > 0 ==> st.done.last().1 < st.cursor || (st.active is Some && st.done.last().1 <= x)
    &&& st.active matches Some(a) ==> 0 <= a.0 <= a.1 == st.cursor
    &&& new_side(p) == apply_upto(b, st.done, x) + (match st.active { Some(a) => a.2, None => Seq::empty() })
}

proof fn lemma_edit_step(b: Seq<Seq<char>>, q: Seq<ChangeView>, c: ChangeView)
    requires
        edit_scan_inv(b, q),
        c.0 != ChangeTag::Insert ==> old_side(q).len() < b.len() && b[old_side(q).len() as int] == c.3,
    ensures
        edit_scan_inv(b, q.push(c)),
{
    let p = q.push(c);
    assert(p.drop_last() == q);
    assert(p.last() == c);
    let st = edit_scan(q);
    let x = match st.active { Some(a) => a.0, None => st.cursor };
    match c.0 {
        ChangeTag::Equal => {
            assert(new_side(p) == new_side(q).push(c.3));
            match st.active {
                Some(a) => {
                    let d = st.done.push(a);
                    assert(d.drop_last() == st.done);
                    lemma_apply_upto_extend(b, d, st.cursor);
                    assert(b.subrange(a.1, a.1) =~= Seq::<Seq<char>>::empty());
                    assert(apply_upto(b, d, st.cursor) =~= apply_upto(b, st.done, a.0) + a.2);
                    assert(ordered_edits(d, st.cursor + 1));
                },
                None => {
                    lemma_apply_upto_extend(b, st.done, st.cursor);
                    assert(ordered_edits(st.done, st.cursor + 1));
                },
            }
        },
        ChangeTag::Delete => {
            assert(new_side(p) == new_side(q));
            match st.active {
                Some(a) => {},
                None => {
                    assert(apply_upto(b, st.done, st.cursor) + Seq::<Seq<char>>::empty() =~= apply_upto(b, st.done, st.cursor));
                },
            }
        },
        ChangeTag::Insert => {
            assert(new_side(p) == new_side(q).push(c.3));
            assert(old_side(p) == old_side(q));
            match st.active {
                Some(a) => {
                    assert(new_side(p) =~= apply_upto(b, st.done, x) + a.2.push(c.3));
                },
                None => {
                    assert(new_side(p) =~= apply_upto(b, st.done, x) + seq![c.3]);
                    assert(Seq::<Seq<char>>::empty().push(c.3) =~= seq![c.3]);
                },
            }
        },
    }
}

proof fn lemma_edit_scan(b: Seq<Seq<char>>, s: Seq<Seq<char>>, cs: Seq<ChangeView>, i: int)
    requires
        edit_script(b, s, cs),
        0 <= i <= cs.len(),
    ensures
        edit_scan_inv(b, cs.take(i)),
    decreases i,
{
    let p = cs.take(i);
    if i == 0 {
        assert(p =~= Seq::<ChangeView>::empty());
        assert(apply_upto(b, Seq::<EditSpec>::empty(), 0) =~= Seq::<Seq<char>>::empty());
        assert(new_side(p) =~= Seq::<Seq<char>>::empty());
    } else {
        lemma_edit_scan(b, s, cs, i - 1);
        let q = cs.take(i - 1);
        let c = cs[i - 1];
        assert(p == q.push(c));
        lemma_old_side_prefix(cs, i, cs.len() as int);
        assert(cs.take(cs.len() as int) == cs);
        assert(p.drop_last() == q);
        if c.0 != ChangeTag::Insert {
            let n: int = old_side(q).len() as int;
            assert(old_side(p) == old_side(q).push(c.3));
            assert(old_side(p)[n as int] == c.3);
            assert(b.take(n + 1int) == old_side(p));
            assert(b.take(n + 1int)[n as int] == b[n as int]);
        }
        lemma_edit_step(b, q, c);
    }
}

/// The edits of an edit script from `b` to `s` apply in order within `b`,
/// and applying them to `b` gives `s`.
pub proof fn lemma_edits_apply(b: Seq<Seq<char>>, s: Seq<Seq<char>>, cs: Seq<ChangeView>)
    requires
        edit_script(b, s, cs),
    ensures
        ordered_edits(edits_of(cs), b.len() as int),
        apply_edits(b, edits_of(cs)) == s,
{
    lemma_edit_scan(b, s, cs, cs.len() as int);
    assert(cs.take(cs.len() as int) == cs);
    let st = edit_scan(cs);
    let es = edits_of(cs);
    match st.active {
        Some(a) => {
            assert(es.drop_last() == st.done);
            assert(b.subrange(a.1, b.len() as int) =~= Seq::<Seq<char>>::empty());
            assert(apply_upto(b, es, b.len() as int) =~= apply_upto(b, st.done, a.0) + a.2);
        },
        None => {},
    }
    lemma_apply_upto_from(b, es, b.len() as int);
}

/// At least one kept line separates two edits, and no edit is empty: each
/// replaces a base line or inserts one.
pub open spec fn separated_edits(es: Seq<EditSpec>) -> bool {
    &&& forall|k: int| 0 <= k < es.len() - 1 ==> (#[trigger] es[k]).1 < es[k + 1].0
    &&& forall|k: int| 0 <= k < es.len() ==> (#[trigger] es[k]).0 < es[k].1 || es[k].2.len() > 0
}

spec fn edit_sep_inv(st: EditScan) -> bool {
    &&& separated_edits(st.done)
    &&& st.done.len() > 0 ==> st.done.last().1 < (match st.active { Some(a) => a.0, None => st.cursor })
    &&& st.active matches Some(a) ==> a.0 <= a.1 == st.cursor && (a.0 < a.1 || a.2.len() > 0)
}

proof fn lemma_edit_sep(cs: Seq<ChangeView>)
    ensures
        edit_sep_inv(edit_scan(cs)),
    decreases cs.len(),
{
    if cs.len() > 0 {
        lemma_edit_sep(cs.drop_last());
        let st = edit_scan(cs.drop_last());
        let nx = edit_scan(cs);
        if cs.last().0 == ChangeTag::Equal {
            if let Some(a) = st.active {
                let d = st.done.push(a);
                assert(nx.done == d);
                assert forall|k: int| 0 <= k < d.len() - 1 implies (#[trigger] d[k]).1 < d[k + 1].0 by {
                    assert(d[k] == st.done[k]);
                    if k + 1 < st.done.len() {
                        assert(d[k + 1] == st.done[k + 1]);
                    } else {
                        assert(st.done.last() == st.done[k]);
                    }
                }
                assert forall|k: int| 0 <= k < d.len() implies (#[trigger] d[k]).0 < d[k].1 || d[k].2.len() > 0 by {
                    if k < st.done.len() {
                        assert(d[k] == st.done[k]);
                    }
                }
            }
        }
    }
}

/// The edits of any line diff are separated by kept lines, and none is
/// empty.
pub proof fn lemma_edits_separated(cs: Seq<ChangeView>)
    ensures
        separated_edits(edits_of(cs)),
{
    lemma_edit_sep(cs);
    let st = edit_scan(cs);
    if let Some(a) = st.active {
        let d = st.done.push(a);
        assert forall|k: int| 0 <= k < d.len() - 1 implies (#[trigger] d[k]).1 < d[k + 1].0 by {
            assert(d[k] == st.done[k]);
            if k + 1 < st.done.len() {
                assert(d[k + 1] == st.done[k + 1]);
            } else {
                assert(st.done.last() == st.done[k]);
            }
        }
        assert forall|k: int| 0 <= k < d.len() implies (#[trigger] d[k]).0 < d[k].1 || d[k].2.len() > 0 by {
            if k < st.done.len() {
                assert(d[k] == st.done[k]);
            }
        }
    }
}

/// A diff in which every line is kept has no edits.
pub proof fn lemma_all_equal_no_edits(cs: Seq<ChangeView>)
    requires
        all_equal(cs),
    ensures
        edits_of(cs).len() == 0,
    decreases cs.len(),
{
    if cs.len() > 0 {
        assert(all_equal(cs.drop_last())) by {
            assert forall|i: int| 0 <= i < cs.drop_last().len() implies (
            #[trigger] cs.drop_last()[i]).0 == ChangeTag::Equal by {
                assert(cs.drop_last()[i] == cs[i]);
            }
        }
        lemma_all_equal_no_edits(cs.drop_last());
        assert(cs.last() == cs[cs.len() - 1]);
    }
}

proof fn lemma_merge_run_left(b: Seq<Seq<char>>, es: Seq<EditSpec>, st: MergeState)
    requires
        ordered_edits(es, b.len() as int),
        0 <= st.l <= es.len(),
        st.r == 0,
        0 <= st.index,
        st.index <= (if st.l < es.len() { es[st.l].0 } else { b.len() as int }),
    ensures
        merge_run(b, es, Seq::<EditSpec>::empty(), st) matches Some(fin) && {
            &&& fin.index <= b.len()
            &&& fin.output + b.subrange(fin.index, b.len() as int) == st.output + apply_from(b, es, st.l, st.index, b.len() as int)
            &&& fin.hunks.len() >= st.hunks.len()
            &&& forall|j: int| 0 <= j < st.hunks.len() ==> fin.hunks[j] == st.hunks[j]
            &&& forall|j: int| st.hunks.len() <= j < fin.hunks.len() ==> (#[trigger] fin.hunks[j]).kind == MergeHunkKind::LeftOnly
        },
    decreases es.len() - st.l,
{
    if st.l < es.len() {
        let x = es[st.l];
        
        let next = merge_step(b, es, Seq::<EditSpec>::empty(), st)->0;
        assert(merge_step(b, es, Seq::<EditSpec>::empty(), st) is Some);
        assert(next.l == st.l + 1 && next.r == 0 && next.index == x.1);
        assert(next.output == st.output + b.subrange(st.index, x.0) + x.2);
        assert(next.hunks == st.hunks.push(next.hunks.last()));
        assert(next.hunks.last().kind == MergeHunkKind::LeftOnly);
        if st.l + 1 < es.len() {
            assert(x.1 <= es[st.l + 1].0);
        }
        lemma_merge_run_left(b, es, next);
        let fin = merge_run(b, es, Seq::<EditSpec>::empty(), next)->0;
        assert(st.output + apply_from(b, es, st.l, st.index, b.len() as int) =~= next.output + apply_from(b, es, st.l + 1, x.1, b.len() as int));
        assert forall|j: int| st.hunks.len() <= j < fin.hunks.len() implies (#[trigger] fin.hunks[j]).kind == MergeHunkKind::LeftOnly by {
            if j == st.hunks.len() {
                assert(fin.hunks[j] == next.hunks[j]);
            }
        }
        assert forall|j: int| 0 <= j < st.hunks.len() implies fin.hunks[j] == st.hunks[j] by {
            assert(fin.hunks[j] == next.hunks[j]);
        }
    }
}

proof fn lemma_merge_run_right(b: Seq<Seq<char>>, es: Seq<EditSpec>, st: MergeState)
    requires
        ordered_edits(es, b.len() as int),
        0 <= st.r <= es.len(),
        st.l == 0,
        0 <= st.index,
        st.index <= (if st.r < es.len() { es[st.r].0 } else { b.len() as int }),
    ensures
        merge_run(b, Seq::<EditSpec>::empty(), es, st) matches Some(fin) && {
            &&& fin.index <= b.len()
            &&& fin.output + b.subrange(fin.index, b.len() as int) == st.output + apply_from(b, es, st.r, st.index, b.len() as int)
            &&& fin.hunks.len() >= st.hunks.len()
            &&& forall|j: int| 0 <= j < st.hunks.len() ==> fin.hunks[j] == st.hunks[j]
            &&& forall|j: int| st.hunks.len() <= j < fin.hunks.len() ==> (#[trigger] fin.hunks[j]).kind == MergeHunkKind::RightOnly
        },
    decreases es.len() - st.r,
{
    if st.r < es.len() {
        let x = es[st.r];
        
        let next = merge_step(b, Seq::<EditSpec>::empty(), es, st)->0;
        assert(merge_step(b, Seq::<EditSpec>::empty(), es, st) is Some);
        assert(next.r == st.r + 1 && next.l == 0 && next.index == x.1);
        assert(next.output == st.output + b.subrange(st.index, x.0) + x.2);
        assert(next.hunks == st.hunks.push(next.hunks.last()));
        assert(next.hunks.last().kind == MergeHunkKind::RightOnly);
        if st.r + 1 < es.len() {
            assert(x.1 <= es[st.r + 1].0);
        }
        lemma_merge_run_right(b, es, next);
        let fin = merge_run(b, Seq::<EditSpec>::empty(), es, next)->0;
        assert(st.output + apply_from(b, es, st.r, st.index, b.len() as int) =~= next.output + apply_from(b, es, st.r + 1, x.1, b.len() as int));
        assert forall|j: int| st.hunks.len() <= j < fin.hunks.len() implies (#[trigger] fin.hunks[j]).kind == MergeHunkKind::RightOnly by {
            if j == st.hunks.len() {
                assert(fin.hunks[j] == next.hunks[j]);
            }
        }
        assert forall|j: int| 0 <= j < st.hunks.len() implies fin.hunks[j] == st.hunks[j] by {
            assert(fin.hunks[j] == next.hunks[j]);
        }
    }
}

proof fn lemma_merge_run_both(b: Seq<Seq<char>>, es: Seq<EditSpec>, st: MergeState)
    requires
        ordered_edits(es, b.len() as int),
        0 <= st.l <= es.len(),
        st.r == st.l,
        0 <= st.index,
        st.index <= (if st.l < es.len() { es[st.l].0 } else { b.len() as int }),
    ensures
        merge_run(b, es, es, st) matches Some(fin) && {
            &&& fin.index <= b.len()
            &&& fin.output + b.subrange(fin.index, b.len() as int) == st.output + apply_from(b, es, st.l, st.index, b.len() as int)
            &&& fin.hunks.len() >= st.hunks.len()
            &&& forall|j: int| 0 <= j < st.hunks.len() ==> fin.hunks[j] == st.hunks[j]
            &&& forall|j: int| st.hunks.len() <= j < fin.hunks.len() ==> (#[trigger] fin.hunks[j]).kind == MergeHunkKind::Identical
        },
    decreases es.len() - st.l,
{
    if st.l < es.len() {
        let x = es[st.l];
        assert(concurrent(x, x));
        let next = merge_step(b, es, es, st)->0;
        assert(merge_step(b, es, es, st) is Some);
        assert(next.l == st.l + 1 && next.r == next.l && next.index == x.1);
        assert(next.output == st.output + b.subrange(st.index, x.0) + x.2);
        assert(next.hunks == st.hunks.push(next.hunks.last()));
        assert(next.hunks.last().kind == MergeHunkKind::Identical);
        if st.l + 1 < es.len() {
            assert(x.1 <= es[st.l + 1].0);
        }
        lemma_merge_run_both(b, es, next);
        let fin = merge_run(b, es, es, next)->0;
        assert(st.output + apply_from(b, es, st.l, st.index, b.len() as int) =~= next.output + apply_from(b, es, st.l + 1, x.1, b.len() as int));
        assert forall|j: int| st.hunks.len() <= j < fin.hunks.len() implies (#[trigger] fin.hunks[j]).kind == MergeHunkKind::Identical by {
            if j == st.hunks.len() {
                assert(fin.hunks[j] == next.hunks[j]);
            }
        }
        assert forall|j: int| 0 <= j < st.hunks.len() implies fin.hunks[j] == st.hunks[j] by {
            assert(fin.hunks[j] == next.hunks[j]);
        }
    }
}

/// Merging edits that apply in order, made on the left side only, gives
/// the base with those edits applied, and every hunk is left-only.
pub proof fn lemma_merge_left_only(b: Seq<Seq<char>>, es: Seq<EditSpec>)
    requires
        ordered_edits(es, b.len() as int),
    ensures
        merge_result(b, es, Seq::empty()) matches Some((out, hs)) && out == apply_edits(b, es)
            && forall|j: int| 0 <= j < hs.len() ==> (#[trigger] hs[j]).kind == MergeHunkKind::LeftOnly,
{
    let st = merge_start();
    if es.len() > 0 {
        assert(0 <= es[0].0);
    }
    lemma_merge_run_left(b, es, st);
    assert(st.output + apply_edits(b, es) =~= apply_edits(b, es));
}

/// Merging edits that apply in order, made on the right side only, gives
/// the base with those edits applied, and every hunk is right-only.
pub proof fn lemma_merge_right_only(b: Seq<Seq<char>>, es: Seq<EditSpec>)
    requires
        ordered_edits(es, b.len() as int),
    ensures
        merge_result(b, Seq::empty(), es) matches Some((out, hs)) && out == apply_edits(b, es)
            && forall|j: int| 0 <= j < hs.len() ==> (#[trigger] hs[j]).kind == MergeHunkKind::RightOnly,
{
    let st = merge_start();
    if es.len() > 0 {
        assert(0 <= es[0].0);
    }
    lemma_merge_run_right(b, es, st);
    assert(st.output + apply_edits(b, es) =~= apply_edits(b, es));
}

/// Merging the same edits, applying in order, on both sides gives the base
/// with those edits applied, and every hunk is identical on both sides.
pub proof fn lemma_merge_both_same(b: Seq<Seq<char>>, es: Seq<EditSpec>)
    requires
        ordered_edits(es, b.len() as int),
    ensures
        merge_result(b, es, es) matches Some((out, hs)) && out == apply_edits(b, es)
            && forall|j: int| 0 <= j < hs.len() ==> (#[trigger] hs[j]).kind == MergeHunkKind::Identical,
{
    let st = merge_start();
    if es.len() > 0 {
        assert(0 <= es[0].0);
    }
    lemma_merge_run_both(b, es, st);
    assert(st.output + apply_edits(b, es) =~= apply_edits(b, es));
}

/// The edits of both sides in the order in which they start, from the
/// `l`-th left edit and the `r`-th right edit on; of two edits that start at
/// one base line the left one comes first.
pub open spec fn interleave(le: Seq<EditSpec>, re: Seq<EditSpec>, l: int, r: int) -> Seq<EditSpec>
    decreases (le.len() - l) + (re.len() - r),
    when 0 <= l <= le.len() && 0 <= r <= re.len()
{
    if l >= le.len() && r >= re.len() {
        Seq::empty()
    } else if r >= re.len() || (l < le.len() && le[l].0 <= re[r].0) {
        seq![le[l]] + interleave(le, re, l + 1, r)
    } else {
        seq![re[r]] + interleave(le, re, l, r + 1)
    }
}

/// No edit of one side touches the base region of an edit of the other.
pub open spec fn apart(le: Seq<EditSpec>, re: Seq<EditSpec>) -> bool {
    forall|i: int, j: int| 0 <= i < le.len() && 0 <= j < re.len() ==> !concurrent(#[trigger] le[i], #[trigger] re[j])
}

proof fn lemma_apply_from_cons(b: Seq<Seq<char>>, x: EditSpec, rest: Seq<EditSpec>, k: int, index: int, u: int)
    requires
        0 <= k,
    ensures
        apply_from(b, seq![x] + rest, k + 1, index, u) == apply_from(b, rest, k, index, u),
    decreases rest.len() - k,
{
    let s = seq![x] + rest;
    if k < rest.len() {
        assert(s[k + 1] == rest[k]);
        lemma_apply_from_cons(b, x, rest, k + 1, rest[k].1, u);
    }
}

proof fn lemma_merge_run_apart(b: Seq<Seq<char>>, le: Seq<EditSpec>, re: Seq<EditSpec>, st: MergeState)
    requires
        ordered_edits(le, b.len() as int),
        ordered_edits(re, b.len() as int),
        apart(le, re),
        0 <= st.l <= le.len(),
        0 <= st.r <= re.len(),
        0 <= st.index <= b.len(),
        st.l < le.len() ==> le[st.l].0 >= st.index,
        st.r < re.len() ==> re[st.r].0 >= st.index,
        forall|j: int| 0 <= j < st.hunks.len() ==> (#[trigger] st.hunks[j]).kind == MergeHunkKind::LeftOnly
            || st.hunks[j].kind == MergeHunkKind::RightOnly,
    ensures
        merge_run(b, le, re, st) matches Some(fin) && {
            &&& fin.index <= b.len()
            &&& fin.output + b.subrange(fin.index, b.len() as int) == st.output + apply_from(
                b,
                interleave(le, re, st.l, st.r),
                0,
                st.index,
                b.len() as int,
            )
            &&& forall|j: int| 0 <= j < fin.hunks.len() ==> (#[trigger] fin.hunks[j]).kind == MergeHunkKind::LeftOnly
                || fin.hunks[j].kind == MergeHunkKind::RightOnly
        },
    decreases (le.len() - st.l) + (re.len() - st.r),
{
    let n = b.len() as int;
    if st.l >= le.len() && st.r >= re.len() {
        assert(interleave(le, re, st.l, st.r) =~= Seq::<EditSpec>::empty());
        assert(st.output + b.subrange(st.index, n) == st.output + apply_from(b, interleave(le, re, st.l, st.r), 0, st.index, n));
    } else {
        lemma_step_bounds(b, le, re, st);
        let has_l = st.l < le.len();
        let has_r = st.r < re.len();
        let x = le[st.l];
        let y = re[st.r];
        let take_left = !has_r || (has_l && x.0 <= y.0);
        if has_l && has_r {
            assert(!concurrent(x, y));
            if x.0 <= y.0 {
                assert(x.0 < y.0 && x.1 <= y.0);
            } else {
                assert(y.1 <= x.0);
            }
        }
        let e = if take_left { x } else { y };
        let rest = if take_left { interleave(le, re, st.l + 1, st.r) } else { interleave(le, re, st.l, st.r + 1) };
        assert(interleave(le, re, st.l, st.r) == seq![e] + rest);
        let next = merge_step(b, le, re, st)->0;
        assert(merge_step(b, le, re, st) is Some);
        assert(next.index == e.1);
        assert(next.output == st.output + b.subrange(st.index, e.0) + e.2);
        assert(next.hunks == st.hunks.push(next.hunks.last()));
        assert(next.hunks.last().kind == MergeHunkKind::LeftOnly || next.hunks.last().kind == MergeHunkKind::RightOnly);
        if take_left {
            assert(next.l == st.l + 1 && next.r == st.r);
            if st.l + 1 < le.len() {
                assert(x.1 <= le[st.l + 1].0);
            }
        } else {
            assert(next.l == st.l && next.r == st.r + 1);
            if st.r + 1 < re.len() {
                assert(y.1 <= re[st.r + 1].0);
            }
        }
        assert forall|j: int| 0 <= j < next.hunks.len() implies (#[trigger] next.hunks[j]).kind == MergeHunkKind::LeftOnly
            || next.hunks[j].kind == MergeHunkKind::RightOnly by {
            if j < st.hunks.len() {
                assert(next.hunks[j] == st.hunks[j]);
            }
        }
        lemma_merge_run_apart(b, le, re, next);
        lemma_apply_from_cons(b, e, rest, 0, e.1, n);
        assert((seq![e] + rest)[0] == e);
        assert(apply_from(b, seq![e] + rest, 0, st.index, n) == b.subrange(st.index, e.0) + e.2 + apply_from(
            b,
            seq![e] + rest,
            1,
            e.1,
            n,
        ));
        assert(st.output + apply_from(b, seq![e] + rest, 0, st.index, n) =~= next.output + apply_from(b, rest, 0, e.1, n));
    }
}

/// Where no edit of one side touches the base region of an edit of the
/// other, the merge never conflicts: every hunk is one side's edit, and the
/// merged lines are the base with the edits of both sides applied, each base
/// line outside every edit taken once, in order.
pub proof fn lemma_merge_applies_both_sides(b: Seq<Seq<char>>, le: Seq<EditSpec>, re: Seq<EditSpec>)
    requires
        ordered_edits(le, b.len() as int),
        ordered_edits(re, b.len() as int),
        apart(le, re),
    ensures
        merge_result(b, le, re) matches Some((out, hs)) && {
            &&& out == apply_edits(b, interleave(le, re, 0, 0))
            &&& forall|j: int| 0 <= j < hs.len() ==> (#[trigger] hs[j]).kind == MergeHunkKind::LeftOnly
                || hs[j].kind == MergeHunkKind::RightOnly
        },
{
    let st = merge_start();
    if le.len() > 0 {
        assert(0 <= le[0].0);
    }
    if re.len() > 0 {
        assert(0 <= re[0].0);
    }
    lemma_merge_run_apart(b, le, re, st);
    assert(st.output + apply_edits(b, interleave(le, re, 0, 0)) =~= apply_edits(b, interleave(le, re, 0, 0)));
}

/// Merging the edits gives the lines `expected`, and every hunk has `kind`.
pub open spec fn merges_to(
    b: Seq<Seq<char>>,
    le: Seq<EditSpec>,
    re: Seq<EditSpec>,
    expected: Seq<Seq<char>>,
    kind: MergeHunkKind,
) -> bool {
    merge_result(b, le, re) matches Some((out, hs)) && out == expected && forall|j: int|
        0 <= j < hs.len() ==> (#[trigger] hs[j]).kind == kind
}

/// The three cases of a merge that no conflict can come from: only the left
/// side changed the base, only the right side did, or both made the same
/// change. Each merges to the changed lines.
pub open spec fn merge_cases_hold(
    b: Seq<Seq<char>>,
    lft: Seq<Seq<char>>,
    rgt: Seq<Seq<char>>,
    le: Seq<EditSpec>,
    re: Seq<EditSpec>,
) -> bool {
    &&& rgt == b ==> merges_to(b, le, re, lft, MergeHunkKind::LeftOnly)
    &&& lft == b ==> merges_to(b, le, re, rgt, MergeHunkKind::RightOnly)
    &&& lft == rgt ==> merges_to(b, le, re, lft, MergeHunkKind::Identical)
}

proof fn lemma_merge_cases(
    b: Seq<Seq<char>>,
    lft: Seq<Seq<char>>,
    rgt: Seq<Seq<char>>,
    le: Seq<EditSpec>,
    re: Seq<EditSpec>,
)
    requires
        ordered_edits(le, b.len() as int),
        ordered_edits(re, b.len() as int),
        apply_edits(b, le) == lft,
        apply_edits(b, re) == rgt,
        b == lft ==> le.len() == 0,
        b == rgt ==> re.len() == 0,
        lft == rgt ==> le == re,
    ensures
        merge_cases_hold(b, lft, rgt, le, re),
{
    if rgt == b {
        assert(re =~= Seq::<EditSpec>::empty());
        lemma_merge_left_only(b, le);
    }
    if lft == b {
        assert(le =~= Seq::<EditSpec>::empty());
        lemma_merge_right_only(b, re);
    }
    if lft == rgt {
        lemma_merge_both_same(b, le);
    }
}

proof fn lemma_render_skip(lines: Seq<Seq<char>>, hs: Seq<MergeHunkSpec>, choices: Seq<Option<MergeChoice>>, m: int, k: int)
    requires
        0 <= m <= k,
        forall|j: int| m <= j < k ==> choice_at(choices, j) is None,
    ensures
        render_lines(lines, hs, choices, k) == render_lines(lines, hs, choices, m),
    decreases k - m,
{
    if m < k {
        assert(choice_at(choices, k - 1) is None);
        lemma_render_skip(lines, hs, choices, m, k - 1);
    }
}

/// Rendering a merge without any choice gives the merged text back.
pub proof fn lemma_render_without_choices(merged: Seq<char>, hs: Seq<MergeHunkSpec>, choices: Seq<Option<MergeChoice>>)
    requires
        forall|i: int| 0 <= i < choices.len() ==> choices[i] is None,
    ensures
        rendered_text(merged, hs, choices) == Some(merged),
{
    lemma_render_skip(split_on_lf(merged), hs, choices, 0, hs.len() as int);
    crate::text::lemma_join_split(merged, '\n');
}

/// The choices that pick `choice` for hunk `i` of `n` and nothing else.
pub open spec fn only_choice(n: int, i: int, choice: MergeChoice) -> Seq<Option<MergeChoice>> {
    Seq::new(n as nat, |j: int| if j == i { Some(choice) } else { None })
}

/// Resolving one hunk to a side gives what rendering the merge with only
/// that choice gives.
pub proof fn lemma_resolve_is_render(merged: Seq<char>, hs: Seq<MergeHunkSpec>, i: int, use_left: bool)
    requires
        0 <= i < hs.len(),
        range_fits(split_on_lf(merged), hs[i].merged_start, hs[i].merged_end),
    ensures
        resolved_text(merged, hs, i, use_left) == rendered_text(
            merged,
            hs,
            only_choice(hs.len() as int, i, if use_left { MergeChoice::Left } else { MergeChoice::Right }),
        ),
{
    let c = if use_left { MergeChoice::Left } else { MergeChoice::Right };
    let ch = only_choice(hs.len() as int, i, c);
    let lines = split_on_lf(merged);
    lemma_render_skip(lines, hs, ch, i + 1, hs.len() as int);
    let spliced = splice(lines, hs[i].merged_start, hs[i].merged_end, chosen_lines(hs[i], c == MergeChoice::Left));
    lemma_render_skip(spliced, hs, ch, 0, i);
    assert(choice_at(ch, i) == Some(c));
}

/// The first `k` hunks' merged ranges lie in order within `n` lines and do
/// not overlap.
pub open spec fn tiled(hs: Seq<MergeHunkSpec>, k: int, n: int) -> bool {
    &&& forall|i: int| 0 <= i < k ==> 0 <= (#[trigger] hs[i]).merged_start <= hs[i].merged_end <= n
    &&& forall|i: int, j: int| 0 <= i < j < k ==> (#[trigger] hs[i]).merged_end <= (#[trigger] hs[j]).merged_start
}

proof fn lemma_step_tiled(b: Seq<Seq<char>>, le: Seq<EditSpec>, re: Seq<EditSpec>, st: MergeState)
    requires
        st.l < le.len() || st.r < re.len(),
        tiled(st.hunks, st.hunks.len() as int, st.output.len() as int),
        merge_step(b, le, re, st) is Some,
    ensures
        ({
            let next = merge_step(b, le, re, st)->0;
            &&& tiled(next.hunks, next.hunks.len() as int, next.output.len() as int)
            &&& next.hunks.len() == st.hunks.len() + 1
        }),
{
    let next = merge_step(b, le, re, st)->0;
    let n = st.output.len() as int;
    let h = next.hunks.last();
    assert(next.hunks == st.hunks.push(h));
    assert(n <= h.merged_start <= h.merged_end == next.output.len());
    assert forall|i: int| 0 <= i < next.hunks.len() implies 0 <= (#[trigger] next.hunks[i]).merged_start
        <= next.hunks[i].merged_end <= next.output.len() by {
        if i < st.hunks.len() {
            assert(next.hunks[i] == st.hunks[i]);
        }
    }
    assert forall|i: int, j: int| 0 <= i < j < next.hunks.len() implies (#[trigger] next.hunks[i]).merged_end
        <= (#[trigger] next.hunks[j]).merged_start by {
        assert(next.hunks[i] == st.hunks[i]);
        if j < st.hunks.len() {
            assert(next.hunks[j] == st.hunks[j]);
        }
    }
}

proof fn lemma_run_tiled(b: Seq<Seq<char>>, le: Seq<EditSpec>, re: Seq<EditSpec>, st: MergeState)
    requires
        0 <= st.l <= le.len(),
        0 <= st.r <= re.len(),
        tiled(st.hunks, st.hunks.len() as int, st.output.len() as int),
        merge_run(b, le, re, st) is Some,
    ensures
        tiled(
            merge_run(b, le, re, st)->0.hunks,
            merge_run(b, le, re, st)->0.hunks.len() as int,
            merge_run(b, le, re, st)->0.output.len() as int,
        ),
    decreases (le.len() - st.l) + (re.len() - st.r),
{
    if !(st.l >= le.len() && st.r >= re.len()) {
        lemma_step_tiled(b, le, re, st);
        lemma_step_bounds(b, le, re, st);
        let next = merge_step(b, le, re, st)->0;
        lemma_run_tiled(b, le, re, next);
    }
}

proof fn lemma_tiled_weaken(hs: Seq<MergeHunkSpec>, k: int, m: int, n: int)
    requires
        tiled(hs, k, m),
        m <= n,
    ensures
        tiled(hs, k, n),
{
}

proof fn lemma_render_tiled(lines: Seq<Seq<char>>, hs: Seq<MergeHunkSpec>, choices: Seq<Option<MergeChoice>>, k: int)
    requires
        0 <= k <= hs.len(),
        tiled(hs, k, lines.len() as int),
    ensures
        render_lines(lines, hs, choices, k) is Some,
    decreases k,
{
    if k > 0 {
        let h = hs[k - 1];
        assert(tiled(hs, k - 1, lines.len() as int));
        match choice_at(choices, k - 1) {
            None => {
                lemma_render_tiled(lines, hs, choices, k - 1);
            },
            Some(c) => {
                let spliced = splice(lines, h.merged_start, h.merged_end, chosen_lines(h, c == MergeChoice::Left));
                assert(spliced.len() >= h.merged_start);
                assert forall|i: int| 0 <= i < k - 1 implies 0 <= (#[trigger] hs[i]).merged_start
                    <= hs[i].merged_end <= spliced.len() by {
                    assert(hs[i].merged_end <= hs[k - 1].merged_start);
                }
                lemma_render_tiled(spliced, hs, choices, k - 1);
            },
        }
    }
}

/// Rendering a computed merge accepts every choice of sides, and every
/// hunk of it can be resolved alone: each hunk's merged lines are in place
/// in the merged text.
pub proof fn lemma_merge_renders(base: Seq<char>, left: Seq<char>, right: Seq<char>, choices: Seq<Option<MergeChoice>>)
    requires
        three_way_mergeable(base, left, right),
    ensures
        three_way_of(base, left, right) matches Some((out, hs)) && {
            &&& rendered_text(join_with(out, '\n'), hs, choices) is Some
            &&& forall|i: int| 0 <= i < hs.len() ==> range_fits(
                split_on_lf(join_with(out, '\n')),
                (#[trigger] hs[i]).merged_start,
                hs[i].merged_end,
            )
        },
{
    let b = merge_lines_of(base);
    let le = edits_of(line_diff(b, merge_lines_of(left)));
    let re = edits_of(line_diff(b, merge_lines_of(right)));
    lemma_run_tiled(b, le, re, merge_start());
    let fin = merge_run(b, le, re, merge_start())->0;
    let (out, hs) = three_way_of(base, left, right)->0;
    assert(out == fin.output + b.subrange(fin.index, b.len() as int));
    assert(hs == fin.hunks);
    crate::text::lemma_split_join_len(out, '\n');
    let lines = split_on_lf(join_with(out, '\n'));
    lemma_tiled_weaken(hs, hs.len() as int, fin.output.len() as int, lines.len() as int);
    lemma_render_tiled(lines, hs, choices, hs.len() as int);
    assert forall|i: int| 0 <= i < hs.len() implies range_fits(lines, (#[trigger] hs[i]).merged_start, hs[i].merged_end) by {
    }
}

/// No carriage return comes right before a CR LF pair: the texts for which
/// turning CR LF into LF first changes nothing about the merge lines.
pub open spec fn no_cr_before_crlf(s: Seq<char>) -> bool {
    forall|i: int| 0 <= i < s.len() - 2 ==> !(#[trigger] s[i] == '\r' && s[i + 1] == '\r' && s[i + 2] == '\n')
}

proof fn lemma_crlf_to_lf_first(s: Seq<char>)
    ensures
        crlf_to_lf(s).len() > 0 ==> (s.len() > 0 && (crlf_to_lf(s)[0] == s[0] || (s[0] == '\r' && s.len() > 1
            && s[1] == '\n' && crlf_to_lf(s)[0] == '\n'))),
{
}

proof fn lemma_unify_after_crlf(s: Seq<char>)
    requires
        no_cr_before_crlf(s),
    ensures
        unify_newlines(crlf_to_lf(s)) == unify_newlines(s),
    decreases s.len(),
{
    if s.len() > 0 {
        let t1 = s.skip(1);
        assert(no_cr_before_crlf(t1)) by {
            assert forall|i: int| 0 <= i < t1.len() - 2 implies !(#[trigger] t1[i] == '\r' && t1[i + 1] == '\r'
                && t1[i + 2] == '\n') by {
                assert(t1[i] == s[i + 1]);
            }
        }
        if s.len() > 1 && s[0] == '\r' && s[1] == '\n' {
            let t2 = s.skip(2);
            assert(no_cr_before_crlf(t2)) by {
                assert forall|i: int| 0 <= i < t2.len() - 2 implies !(#[trigger] t2[i] == '\r' && t2[i + 1] == '\r'
                    && t2[i + 2] == '\n') by {
                    assert(t2[i] == s[i + 2]);
                }
            }
            lemma_unify_after_crlf(t2);
            let u = seq!['\n'] + crlf_to_lf(t2);
            assert(u[0] == '\n');
            assert(u.skip(1) =~= crlf_to_lf(t2));
        } else {
            lemma_unify_after_crlf(t1);
            let t = crlf_to_lf(t1);
            let u = seq![s[0]] + t;
            assert(crlf_to_lf(s) == u);
            assert(u.skip(1) =~= t);
            if s[0] == '\r' && t.len() > 0 {
                lemma_crlf_to_lf_first(t1);
                if t[0] == '\n' {
                    assert(!(s[0] == '\r' && s[1] == '\r' && s[2] == '\n'));
                }
                assert(u[1] == t[0]);
            }
        }
    }
}

/// The merge lines of a text do not change when its CR LF pairs become LF
/// first, unless a CR comes right before a CR LF pair.
pub proof fn lemma_merge_lines_after_crlf(s: Seq<char>)
    requires
        no_cr_before_crlf(s),
    ensures
        merge_lines_of(crlf_to_lf(s)) == merge_lines_of(s),
{
    if s.len() > 0 && s[0] == crate::text::bom() {
        let t = s.skip(1);
        assert(no_cr_before_crlf(t)) by {
            assert forall|i: int| 0 <= i < t.len() - 2 implies !(#[trigger] t[i] == '\r' && t[i + 1] == '\r'
                && t[i + 2] == '\n') by {
                assert(t[i] == s[i + 1]);
            }
        }
        assert((seq![s[0]] + crlf_to_lf(t)).skip(1) =~= crlf_to_lf(t));
        lemma_unify_after_crlf(t);
    } else {
        lemma_crlf_to_lf_first(s);
        lemma_unify_after_crlf(s);
    }
}

/// A merge does not depend on how lines end: turning each CR LF of the
/// texts into LF first gives the same merge, for texts in which no CR comes
/// right before a CR LF pair (where one does, as in `"\r\r\n"`, the merge
/// reads two line ends and the turned text one).
pub proof fn lemma_merge_ignores_crlf(base: Seq<char>, left: Seq<char>, right: Seq<char>)
    requires
        no_cr_before_crlf(base),
        no_cr_before_crlf(left),
        no_cr_before_crlf(right),
    ensures
        three_way_of(crlf_to_lf(base), crlf_to_lf(left), crlf_to_lf(right)) == three_way_of(base, left, right),
{
    lemma_merge_lines_after_crlf(base);
    lemma_merge_lines_after_crlf(left);
    lemma_merge_lines_after_crlf(right);
}

proof fn lemma_render_same_choices(
    lines: Seq<Seq<char>>,
    hs: Seq<MergeHunkSpec>,
    c1: Seq<Option<MergeChoice>>,
    c2: Seq<Option<MergeChoice>>,
    k: int,
)
    requires
        forall|j: int| 0 <= j < k ==> choice_at(c1, j) == choice_at(c2, j),
    ensures
        render_lines(lines, hs, c1, k) == render_lines(lines, hs, c2, k),
    decreases k,
{
    if k > 0 {
        assert(choice_at(c1, k - 1) == choice_at(c2, k - 1));
        let h = hs[k - 1];
        match choice_at(c1, k - 1) {
            None => lemma_render_same_choices(lines, hs, c1, c2, k - 1),
            Some(c) => {
                let spliced = splice(lines, h.merged_start, h.merged_end, chosen_lines(h, c == MergeChoice::Left));
                lemma_render_same_choices(spliced, hs, c1, c2, k - 1);
            },
        }
    }
}

/// The choices that leave the first `i` hunks alone and pick `choice` for
/// hunk `i`, and say nothing of the hunks after it.
pub open spec fn choice_up_to(i: int, choice: MergeChoice) -> Seq<Option<MergeChoice>> {
    Seq::new((i + 1) as nat, |j: int| if j == i { Some(choice) } else { None })
}

/// Resolving hunk `i` to a side gives what rendering with the choices
/// `None` for each earlier hunk and that side for hunk `i` gives.
pub proof fn lemma_resolve_is_short_render(merged: Seq<char>, hs: Seq<MergeHunkSpec>, i: int, use_left: bool)
    requires
        0 <= i < hs.len(),
        range_fits(split_on_lf(merged), hs[i].merged_start, hs[i].merged_end),
    ensures
        resolved_text(merged, hs, i, use_left) == rendered_text(
            merged,
            hs,
            choice_up_to(i, if use_left { MergeChoice::Left } else { MergeChoice::Right }),
        ),
{
    let c = if use_left { MergeChoice::Left } else { MergeChoice::Right };
    lemma_resolve_is_render(merged, hs, i, use_left);
    let full = only_choice(hs.len() as int, i, c);
    let short = choice_up_to(i, c);
    assert forall|j: int| 0 <= j < hs.len() implies choice_at(full, j) == choice_at(short, j) by {
    }
    lemma_render_same_choices(split_on_lf(merged), hs, full, short, hs.len() as int);
}

/// Turning the CR LF pairs of any one of the three texts into LF gives the
/// same merge, where no CR comes right before a CR LF pair of that text.
pub proof fn lemma_merge_ignores_crlf_in_each(base: Seq<char>, left: Seq<char>, right: Seq<char>)
    ensures
        no_cr_before_crlf(base) ==> three_way_of(crlf_to_lf(base), left, right) == three_way_of(base, left, right),
        no_cr_before_crlf(left) ==> three_way_of(base, crlf_to_lf(left), right) == three_way_of(base, left, right),
        no_cr_before_crlf(right) ==> three_way_of(base, left, crlf_to_lf(right)) == three_way_of(base, left, right),
{
    if no_cr_before_crlf(base) {
        lemma_merge_lines_after_crlf(base);
    }
    if no_cr_before_crlf(left) {
        lemma_merge_lines_after_crlf(left);
    }
    if no_cr_before_crlf(right) {
        lemma_merge_lines_after_crlf(right);
    }
}

/// The merge of three texts is one: any two diffs that are merges of the
/// same texts agree in their lines, hunks and merged text, so the options
/// given to `compare_three_texts` change nothing.
pub proof fn lemma_merge_determined(d1: ThreeWayDiff, d2: ThreeWayDiff, base: Seq<char>, left: Seq<char>, right: Seq<char>)
    requires
        is_three_way_of(d1, base, left, right),
        is_three_way_of(d2, base, left, right),
    ensures
        d1.base.deep_view() == d2.base.deep_view(),
        d1.left.deep_view() == d2.left.deep_view(),
        d1.right.deep_view() == d2.right.deep_view(),
        d1.merged@ == d2.merged@,
        hunks_view(d1.hunks@) == hunks_view(d2.hunks@),
{
}

} // verus!
