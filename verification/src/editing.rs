//! Editing the two buffers of a text comparison: undo history, copying a
//! difference from one side to the other, and the line ending a text uses.
use vstd::prelude::*;
use crate::save::LineEnding;
use crate::text::{chars_of, rust_lines_of, str_lines, strings_view, strip_cr};
use core::ops::Range;

verus! {

/// The undo and redo history of one buffer: earlier contents, most recent
/// last.
#[derive(Debug, Default)]
pub struct TextUndo {
    pub undo: Vec<String>,
    pub redo: Vec<String>,
}

impl TextUndo {
    /// Records the contents before an edit; an edit clears what could be
    /// redone.
    pub fn changed(&mut self, before: String)
        ensures
            final(self).undo@ == old(self).undo@.push(before),
            final(self).redo@.len() == 0,
    {
        self.undo.push(before);
        self.redo.clear();
    }

    /// Goes back to the contents before the last edit, where there is one;
    /// the current contents can then be redone.
    pub fn undo(&mut self, value: &mut String)
        ensures
            old(self).undo@.len() == 0 ==> final(self).undo@ == old(self).undo@ && final(self).redo@
                == old(self).redo@ && *final(value) == *old(value),
            old(self).undo@.len() > 0 ==> final(self).undo@ == old(self).undo@.drop_last()
                && final(self).redo@ == old(self).redo@.push(*old(value)) && *final(value)
                == old(self).undo@.last(),
    {
        if let Some(previous) = self.undo.pop() {
            let mut current = previous;
            core::mem::swap(&mut current, value);
            self.redo.push(current);
        }
    }

    /// Goes forward to the contents that the last undo left, where there is
    /// one; the current contents can then be undone.
    pub fn redo(&mut self, value: &mut String)
        ensures
            old(self).redo@.len() == 0 ==> final(self).undo@ == old(self).undo@ && final(self).redo@
                == old(self).redo@ && *final(value) == *old(value),
            old(self).redo@.len() > 0 ==> final(self).redo@ == old(self).redo@.drop_last()
                && final(self).undo@ == old(self).undo@.push(*old(value)) && *final(value)
                == old(self).redo@.last(),
    {
        if let Some(next) = self.redo.pop() {
            let mut current = next;
            core::mem::swap(&mut current, value);
            self.undo.push(current);
        }
    }
}

/// Undoing an edit and redoing it gives back the contents and the history
/// after the edit.
pub proof fn lemma_undo_redo(undo: Seq<String>, redo: Seq<String>, value: String)
    requires
        undo.len() > 0,
    ensures
        ({
            let (u1, r1, v1) = (undo.drop_last(), redo.push(value), undo.last());
            let (u2, r2, v2) = (u1.push(v1), r1.drop_last(), r1.last());
            u2 == undo && r2 == redo && v2 == value
        }),
{
    assert(undo.drop_last().push(undo.last()) =~= undo);
    assert(redo.push(value).drop_last() =~= redo);
}

/// `s` holds CR LF somewhere.
pub open spec fn has_crlf(s: Seq<char>) -> bool {
    exists|i: int| 0 <= i < s.len() - 1 && #[trigger] s[i] == '\r' && s[i + 1] == '\n'
}

/// The line ending that replaced lines get in a target text: CR LF where the
/// target holds one, LF otherwise.
pub open spec fn ending_of(s: Seq<char>) -> Seq<char> {
    if has_crlf(s) { seq!['\r', '\n'] } else { seq!['\n'] }
}

/// `lines` with `range` replaced, as `Vec::splice` does.
pub open spec fn splice_lines(lines: Seq<Seq<char>>, range: Range<usize>, repl: Seq<Seq<char>>) -> Seq<Seq<char>> {
    lines.subrange(0, range.start as int) + repl + lines.subrange(range.end as int, lines.len() as int)
}

/// The lines joined by `ending`.
pub open spec fn join_by(lines: Seq<Seq<char>>, ending: Seq<char>) -> Seq<char>
    decreases lines.len(),
{
    if lines.len() == 0 {
        Seq::empty()
    } else if lines.len() == 1 {
        lines[0]
    } else {
        join_by(lines.drop_last(), ending) + ending + lines.last()
    }
}

/// The text that replacing lines `range` of `target` by `replacement` gives:
/// the target's lines (as `str::lines` gives them, each without one more
/// trailing CR) with the range replaced by the
/// replacement lines (each without one trailing CR), joined by the target's
/// line ending, and the ending once more where a terminal newline is wanted
/// and the joined text does not already end in LF.
pub open spec fn replaced_text(target: Seq<char>, range: Range<usize>, replacement: Seq<Seq<char>>, terminal_newline: bool) -> Seq<char> {
    let ending = ending_of(target);
    let lines = splice_lines(
        rust_lines_of(target).map_values(|l: Seq<char>| strip_cr(l)),
        range,
        replacement.map_values(|l: Seq<char>| strip_cr(l)),
    );
    let joined = join_by(lines, ending);
    if terminal_newline && !(joined.len() > 0 && joined.last() == '\n') {
        joined + ending
    } else {
        joined
    }
}

/// Whether `s` holds CR LF.
fn contains_crlf(s: &[char]) -> (b: bool)
    ensures
        b == has_crlf(s@),
{
    let mut i: usize = 0;
    while s.len() > 0 && i < s.len() - 1
        invariant
            forall|j: int| 0 <= j < i && j < s.len() - 1 ==> !(#[trigger] s@[j] == '\r' && s@[j + 1] == '\n'),
        decreases s.len() - i,
    {
        if s[i] == '\r' && s[i + 1] == '\n' {
            return true;
        }
        i = i + 1;
    }
    false
}

/// A line without one trailing carriage return.
fn without_cr(line: &String) -> (s: String)
    ensures
        s@ == strip_cr(line@),
{
    let chars = chars_of(line.as_str());
    let n = chars.len();
    if n > 0 && chars[n - 1] == '\r' {
        let prefix = crate::text::prefix_chars(chars.as_slice(), n - 1);
        crate::text::string_of(prefix.as_slice())
    } else {
        line.clone()
    }
}

/// The lines without one trailing carriage return each.
fn strip_crs(lines: &[String]) -> (out: Vec<String>)
    ensures
        out.deep_view() == strings_view(lines@).map_values(|l: Seq<char>| strip_cr(l)),
{
    let ghost target = strings_view(lines@).map_values(|l: Seq<char>| strip_cr(l));
    let mut out: Vec<String> = Vec::new();
    let mut i: usize = 0;
    while i < lines.len()
        invariant
            i <= lines.len(),
            target == strings_view(lines@).map_values(|l: Seq<char>| strip_cr(l)),
            out.deep_view() == target.take(i as int),
        decreases lines.len() - i,
    {
        let line = without_cr(&lines[i]);
        let ghost before = out.deep_view();
        out.push(line);
        assert(out.deep_view() =~= before.push(target[i as int]));
        assert(out.deep_view() =~= target.take(i + 1));
        i = i + 1;
    }
    assert(target.take(lines.len() as int) =~= target);
    out
}

/// The lines joined by LF, or by CR LF.
fn join_by_ending(lines: &[String], crlf: bool) -> (out: Vec<char>)
    ensures
        out@ == join_by(strings_view(lines@), if crlf { seq!['\r', '\n'] } else { seq!['\n'] }),
{
    let ghost ending = if crlf { seq!['\r', '\n'] } else { seq!['\n'] };
    let ghost views = strings_view(lines@);
    let mut result: Vec<char> = Vec::new();
    let mut x: usize = 0;
    while x < lines.len()
        invariant
            x <= lines.len(),
            ending == (if crlf { seq!['\r', '\n'] } else { seq!['\n'] }),
            views == strings_view(lines@),
            result@ == join_by(views.take(x as int), ending),
        decreases lines.len() - x,
    {
        assert(views.take(x + 1).drop_last() =~= views.take(x as int));
        let ghost start0 = result@;
        if x > 0 {
            if crlf {
                result.push('\r');
            }
            result.push('\n');
            assert(result@ =~= start0 + ending);
        }
        let piece = chars_of(lines[x].as_str());
        let mut y: usize = 0;
        let ghost start = result@;
        while y < piece.len()
            invariant
                y <= piece.len(),
                result@ == start + piece@.take(y as int),
            decreases piece.len() - y,
        {
            result.push(piece[y]);
            assert(result@ =~= start + piece@.take(y + 1));
            y = y + 1;
        }
        assert(piece@.take(piece@.len() as int) == piece@);
        assert(views[x as int] == piece@);
        if x == 0 {
            assert(result@ =~= join_by(views.take(1), ending));
        } else {
            assert(result@ =~= join_by(views.take(x + 1), ending));
        }
        x = x + 1;
    }
    assert(views.take(lines.len() as int) =~= views);
    result
}

/// Replaces lines `range` of `target` by `replacement`, keeping the
/// target's line ending; used to copy a difference into the other buffer.
pub fn replace_lines_preserving_style(target: &str, range: Range<usize>, replacement: Vec<String>, source_terminal_newline: bool) -> (s: String)
    requires
        range.start <= range.end <= rust_lines_of(target@).len(),
    ensures
        s@ == replaced_text(target@, range, strings_view(replacement@), source_terminal_newline),
{
    let chars = chars_of(target);
    let crlf = contains_crlf(chars.as_slice());
    let raw_lines = str_lines(target);
    assert(strings_view(raw_lines@) =~= raw_lines.deep_view());
    let lines = strip_crs(raw_lines.as_slice());
    let stripped = strip_crs(replacement.as_slice());
    assert(lines@.len() == lines.deep_view().len());
    assert(strings_view(stripped@) =~= stripped.deep_view());
    let spliced = crate::merge::splice_lines(&lines, range.start, range.end, stripped.as_slice());
    assert(strings_view(spliced@) =~= spliced.deep_view());
    let mut result = join_by_ending(spliced.as_slice(), crlf);
    let n = result.len();
    if source_terminal_newline && !(n > 0 && result[n - 1] == '\n') {
        if crlf {
            result.push('\r');
        }
        result.push('\n');
    }
    crate::text::string_of(result.as_slice())
}

/// The number of CR LF pairs in `s`.
pub open spec fn crlf_count(s: Seq<char>) -> nat
    decreases s.len(),
{
    if s.len() < 2 {
        0
    } else if s[s.len() - 2] == '\r' && s.last() == '\n' {
        crlf_count(s.drop_last()) + 1
    } else {
        crlf_count(s.drop_last())
    }
}

/// The number of LF characters in `s`.
pub open spec fn lf_count(s: Seq<char>) -> nat
    decreases s.len(),
{
    if s.len() == 0 {
        0
    } else if s.last() == '\n' {
        lf_count(s.drop_last()) + 1
    } else {
        lf_count(s.drop_last())
    }
}

proof fn lemma_crlf_at_most_lf(s: Seq<char>)
    ensures
        crlf_count(s) <= lf_count(s),
    decreases s.len(),
{
    if s.len() > 0 {
        lemma_crlf_at_most_lf(s.drop_last());
    }
}

/// The line ending a text mostly uses: CR LF where at least half of its
/// line feeds follow a carriage return.
pub fn detected_line_ending(text: &str) -> (e: LineEnding)
    ensures
        e == (if crlf_count(text@) * 2 >= lf_count(text@) { LineEnding::Crlf } else { LineEnding::Lf }),
{
    let chars = chars_of(text);
    let mut crlf: usize = 0;
    let mut lf: usize = 0;
    let mut i: usize = 0;
    while i < chars.len()
        invariant
            i <= chars.len(),
            crlf == crlf_count(chars@.take(i as int)),
            lf == lf_count(chars@.take(i as int)),
            crlf <= lf <= i,
        decreases chars.len() - i,
    {
        assert(chars@.take(i + 1).drop_last() =~= chars@.take(i as int));
        if chars[i] == '\n' {
            if i > 0 && chars[i - 1] == '\r' {
                crlf = crlf + 1;
            }
            lf = lf + 1;
        }
        assert(i > 0 ==> chars@.take(i + 1)[i - 1] == chars@[i - 1]);
        i = i + 1;
    }
    assert(chars@.take(chars.len() as int) =~= chars@);
    if crlf >= lf - crlf {
        LineEnding::Crlf
    } else {
        LineEnding::Lf
    }
}

} // verus!
