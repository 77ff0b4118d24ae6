//! Line handling for texts viewed as sequences of characters: splitting,
//! joining, newline and byte-order-mark normalization, whitespace removal.
use vstd::prelude::*;

verus! {

/// The byte order mark that may open a UTF-8 text.
pub open spec fn bom() -> char {
    '\u{feff}'
}

/// The pieces of `s` between occurrences of `sep`, as `str::split` yields
/// them: one more piece than there are separators, empty pieces included.
pub open spec fn split_on(s: Seq<char>, sep: char) -> Seq<Seq<char>>
    decreases s.len(),
{
    if s.len() == 0 {
        seq![Seq::<char>::empty()]
    } else {
        let prev = split_on(s.drop_last(), sep);
        if s.last() == sep {
            prev.push(Seq::<char>::empty())
        } else {
            prev.update(prev.len() - 1, prev.last().push(s.last()))
        }
    }
}

/// The pieces joined again, with `sep` between consecutive pieces.
pub open spec fn join_with(pieces: Seq<Seq<char>>, sep: char) -> Seq<char>
    decreases pieces.len(),
{
    if pieces.len() == 0 {
        Seq::<char>::empty()
    } else if pieces.len() == 1 {
        pieces[0]
    } else {
        join_with(pieces.drop_last(), sep).push(sep) + pieces.last()
    }
}

/// No piece holds the separator.
pub open spec fn free_of(pieces: Seq<Seq<char>>, sep: char) -> bool {
    forall|i: int, j: int|
        0 <= i < pieces.len() && 0 <= j < pieces[i].len() ==> #[trigger] pieces[i][j] != sep
}

/// The lines of `s` as `split_inclusive('\n')` yields them, each without its
/// terminating newline: a text ending in a newline has no empty last line,
/// and the empty text has no line at all.
pub open spec fn newline_pieces(s: Seq<char>) -> Seq<Seq<char>> {
    let pieces = split_on(s, '\n');
    if pieces.last().len() == 0 {
        pieces.drop_last()
    } else {
        pieces
    }
}

/// `line` without one trailing carriage return.
pub open spec fn strip_cr(line: Seq<char>) -> Seq<char> {
    if line.len() > 0 && line.last() == '\r' {
        line.drop_last()
    } else {
        line
    }
}

/// `s` without one leading byte order mark.
pub open spec fn strip_bom(s: Seq<char>) -> Seq<char> {
    if s.len() > 0 && s[0] == bom() {
        s.skip(1)
    } else {
        s
    }
}

/// `s` with every CR LF pair and every other lone CR turned into one LF.
pub open spec fn unify_newlines(s: Seq<char>) -> Seq<char>
    decreases s.len(),
{
    if s.len() == 0 {
        s
    } else if s[0] == '\r' {
        if s.len() > 1 && s[1] == '\n' {
            seq!['\n'] + unify_newlines(s.skip(2))
        } else {
            seq!['\n'] + unify_newlines(s.skip(1))
        }
    } else {
        seq![s[0]] + unify_newlines(s.skip(1))
    }
}

/// The characters that Unicode gives the White_Space property, which is what
/// `char::is_whitespace` tests.
pub open spec fn is_white(c: char) -> bool {
    ||| '\u{9}' <= c <= '\u{d}'
    ||| c == ' '
    ||| c == '\u{85}'
    ||| c == '\u{a0}'
    ||| c == '\u{1680}'
    ||| '\u{2000}' <= c <= '\u{200a}'
    ||| c == '\u{2028}'
    ||| c == '\u{2029}'
    ||| c == '\u{202f}'
    ||| c == '\u{205f}'
    ||| c == '\u{3000}'
}

/// `s` without its whitespace characters.
pub open spec fn drop_white(s: Seq<char>) -> Seq<char>
    decreases s.len(),
{
    if s.len() == 0 {
        s
    } else if is_white(s.last()) {
        drop_white(s.drop_last())
    } else {
        drop_white(s.drop_last()).push(s.last())
    }
}

proof fn lemma_drop_white_concat(a: Seq<char>, b: Seq<char>)
    ensures
        drop_white(a + b) == drop_white(a) + drop_white(b),
    decreases b.len(),
{
    if b.len() == 0 {
        assert(a + b =~= a);
        assert(drop_white(a) + drop_white(b) =~= drop_white(a));
    } else {
        lemma_drop_white_concat(a, b.drop_last());
        assert((a + b).drop_last() =~= a + b.drop_last());
        assert((a + b).last() == b.last());
        if !is_white(b.last()) {
            assert(drop_white(a) + drop_white(b.drop_last()).push(b.last()) =~= (drop_white(a) + drop_white(
                b.drop_last(),
            )).push(b.last()));
        }
    }
}

/// Whitespace never counts: the ASCII whitespace characters (space, tab,
/// LF, vertical tab, form feed, CR) and the other Unicode spaces are white,
/// letters and digits are not, and taking out the whitespace of a text with
/// one more whitespace character anywhere gives the same characters as of
/// the text without it; what is left holds no whitespace.
pub proof fn lemma_whitespace_ignored(a: Seq<char>, c: char, b: Seq<char>)
    requires
        c == ' ' || c == '\t' || c == '\n' || c == '\u{b}' || c == '\u{c}' || c == '\r' || c == '\u{a0}'
            || c == '\u{3000}',
    ensures
        drop_white(a + seq![c] + b) == drop_white(a + b),
        forall|d: char| ('a' <= d <= 'z' || 'A' <= d <= 'Z' || '0' <= d <= '9') ==> !is_white(d),
        forall|i: int| 0 <= i < drop_white(a + b).len() ==> !is_white(#[trigger] drop_white(a + b)[i]),
{
    lemma_drop_white_concat(a + seq![c], b);
    lemma_drop_white_concat(a, seq![c]);
    lemma_drop_white_concat(a, b);
    assert(seq![c].drop_last() =~= Seq::<char>::empty());
    assert(seq![c].last() == c);
    assert(drop_white(Seq::<char>::empty()) == Seq::<char>::empty());
    assert(drop_white(seq![c]) == drop_white(seq![c].drop_last()));
    assert(drop_white(a) + drop_white(seq![c]) =~= drop_white(a));
    lemma_drop_white_clean(a + b);
}

proof fn lemma_drop_white_clean(s: Seq<char>)
    ensures
        forall|i: int| 0 <= i < drop_white(s).len() ==> !is_white(#[trigger] drop_white(s)[i]),
    decreases s.len(),
{
    if s.len() > 0 {
        lemma_drop_white_clean(s.drop_last());
        let p = drop_white(s.drop_last());
        if !is_white(s.last()) {
            assert forall|i: int| 0 <= i < p.push(s.last()).len() implies !is_white(#[trigger] p.push(s.last())[i]) by {
                if i < p.len() {
                    assert(p.push(s.last())[i] == p[i]);
                }
            }
        }
    }
}

/// The views of a vector of strings.
pub open spec fn strings_view(v: Seq<String>) -> Seq<Seq<char>> {
    v.map_values(|s: String| s@)
}

/// Tests `char::is_whitespace`.
pub fn is_whitespace_char(c: char) -> (b: bool)
    ensures
        b == is_white(c),
{
    ('\u{9}' <= c && c <= '\u{d}') || c == ' ' || c == '\u{85}' || c == '\u{a0}' || c
        == '\u{1680}' || ('\u{2000}' <= c && c <= '\u{200a}') || c == '\u{2028}' || c
        == '\u{2029}' || c == '\u{202f}' || c == '\u{205f}' || c == '\u{3000}'
}

/// The characters of `s`, in order.
pub(crate) fn chars_of(s: &str) -> (v: Vec<char>)
    ensures
        v@ == s@,
{
    broadcast use vstd::string::axiom_spec_iter;

    let mut v: Vec<char> = Vec::new();
    for c in it: s.chars()
        invariant
            v@ == it.seq().take(it.index() as int),
    {
        v.push(c);
        assert(v@ =~= it.seq().take(it.index() + 1));
    }
    v
}

/// The string made of `chars`, through `FromIterator<&char>` for `String`.
#[verifier::external_body]
pub(crate) fn string_of(chars: &[char]) -> (s: String)
    ensures
        s@ == chars@,
{
    chars.iter().collect()
}

/// The views of a vector of character vectors.
pub open spec fn lists_view(v: Seq<Vec<char>>) -> Seq<Seq<char>> {
    v.map_values(|l: Vec<char>| l@)
}

/// Splits `s` at every occurrence of `sep`, as `str::split` does.
pub fn split_chars(s: &[char], sep: char) -> (pieces: Vec<Vec<char>>)
    ensures
        lists_view(pieces@) == split_on(s@, sep),
{
    let mut pieces: Vec<Vec<char>> = Vec::new();
    let mut current: Vec<char> = Vec::new();
    let mut i: usize = 0;
    while i < s.len()
        invariant
            i <= s.len(),
            lists_view(pieces@).push(current@) == split_on(s@.take(i as int), sep),
        decreases s.len() - i,
    {
        let c = s[i];
        proof {
            assert(s@.take(i + 1).drop_last() == s@.take(i as int));
        }
        let ghost before = lists_view(pieces@);
        if c == sep {
            pieces.push(current);
            current = Vec::new();
            assert(lists_view(pieces@) == before.push(lists_view(pieces@).last()));
        } else {
            current.push(c);
            assert(lists_view(pieces@) == before);
        }
        assert(lists_view(pieces@).push(current@) == split_on(s@.take(i + 1), sep));
        i = i + 1;
    }
    assert(s@.take(s.len() as int) == s@);
    pieces.push(current);
    assert(lists_view(pieces@) == split_on(s@, sep));
    pieces
}

/// The strings made of the character vectors.
pub fn strings_of(lists: Vec<Vec<char>>) -> (v: Vec<String>)
    ensures
        v.deep_view() == lists_view(lists@),
{
    let mut v: Vec<String> = Vec::new();
    let mut i: usize = 0;
    while i < lists.len()
        invariant
            i <= lists.len(),
            v.deep_view() == lists_view(lists@).take(i as int),
        decreases lists.len() - i,
    {
        let s = string_of(lists[i].as_slice());
        let ghost before = v.deep_view();
        v.push(s);
        assert(v.deep_view() =~= before.push(lists@[i as int]@));
        assert(v.deep_view() =~= lists_view(lists@).take(i + 1));
        i = i + 1;
    }
    assert(lists_view(lists@).take(lists.len() as int) == lists_view(lists@));
    v
}

/// `s` without a leading byte order mark.
pub fn strip_bom_chars(s: &[char]) -> (r: Vec<char>)
    ensures
        r@ == strip_bom(s@),
{
    let mut start: usize = 0;
    if s.len() > 0 && s[0] == '\u{feff}' {
        start = 1;
    }
    let mut r: Vec<char> = Vec::new();
    let mut i: usize = start;
    while i < s.len()
        invariant
            start <= i <= s.len(),
            r@ == s@.subrange(start as int, i as int),
            strip_bom(s@) == s@.skip(start as int),
        decreases s.len() - i,
    {
        r.push(s[i]);
        i = i + 1;
    }
    r
}

/// `s` with every CR LF and every lone CR replaced by LF, as
/// `s.replace("\r\n", "\n").replace('\r', "\n")` gives it.
pub fn unify_newline_chars(s: &[char]) -> (r: Vec<char>)
    ensures
        r@ == unify_newlines(s@),
{
    let mut r: Vec<char> = Vec::new();
    let mut i: usize = 0;
    assert(s@.skip(0) == s@);
    while i < s.len()
        invariant
            i <= s.len(),
            r@ + unify_newlines(s@.skip(i as int)) == unify_newlines(s@),
        decreases s.len() - i,
    {
        let ghost rest = s@.skip(i as int);
        if s[i] == '\r' {
            r.push('\n');
            if i + 1 < s.len() && s[i + 1] == '\n' {
                assert(rest.skip(2) == s@.skip(i + 2));
                i = i + 2;
            } else {
                assert(rest.skip(1) == s@.skip(i + 1));
                i = i + 1;
            }
        } else {
            r.push(s[i]);
            assert(rest.skip(1) == s@.skip(i + 1));
            i = i + 1;
        }
    }
    assert(s@.skip(s.len() as int) == Seq::<char>::empty());
    r
}

/// `s` without its whitespace characters, as
/// `s.chars().filter(|c| !c.is_whitespace())` gives it.
pub fn drop_white_chars(s: &[char]) -> (r: Vec<char>)
    ensures
        r@ == drop_white(s@),
{
    let mut r: Vec<char> = Vec::new();
    let mut i: usize = 0;
    while i < s.len()
        invariant
            i <= s.len(),
            r@ == drop_white(s@.take(i as int)),
        decreases s.len() - i,
    {
        assert(s@.take(i + 1).drop_last() == s@.take(i as int));
        if !is_whitespace_char(s[i]) {
            r.push(s[i]);
        }
        i = i + 1;
    }
    assert(s@.take(s.len() as int) == s@);
    r
}

/// The lines shown for a text: the `split_inclusive('\n')` pieces, each
/// without its newline and without one carriage return before it.
pub open spec fn display_lines_of(s: Seq<char>) -> Seq<Seq<char>> {
    newline_pieces(s).map_values(|l: Seq<char>| strip_cr(l))
}

/// The lines that a two-way comparison compares: the text without a leading
/// byte order mark, with CR LF and lone CR read as LF when line endings are
/// ignored, cut into its `split_inclusive('\n')` pieces without the newline,
/// and without whitespace characters when whitespace is ignored.
pub open spec fn compare_lines_of(s: Seq<char>, ignore_line_endings: bool, ignore_whitespace: bool) -> Seq<Seq<char>> {
    let t = strip_bom(s);
    let u = if ignore_line_endings { unify_newlines(t) } else { t };
    newline_pieces(u).map_values(|l: Seq<char>| if ignore_whitespace { drop_white(l) } else { l })
}

/// Two texts whose lines, compared without ignoring whitespace, pair up and
/// differ only in whitespace have the same lines when whitespace is ignored.
pub proof fn lemma_lines_equal_but_whitespace(left: Seq<char>, right: Seq<char>, ignore_line_endings: bool)
    requires
        compare_lines_of(left, ignore_line_endings, false).len() == compare_lines_of(right, ignore_line_endings, false).len(),
        forall|i: int| 0 <= i < compare_lines_of(left, ignore_line_endings, false).len() ==> drop_white(
            #[trigger] compare_lines_of(left, ignore_line_endings, false)[i],
        ) == drop_white(compare_lines_of(right, ignore_line_endings, false)[i]),
    ensures
        compare_lines_of(left, ignore_line_endings, true) == compare_lines_of(right, ignore_line_endings, true),
{
    let l = compare_lines_of(left, ignore_line_endings, true);
    let r = compare_lines_of(right, ignore_line_endings, true);
    assert forall|i: int| 0 <= i < l.len() implies l[i] == r[i] by {
        let lf = compare_lines_of(left, ignore_line_endings, false);
        assert(drop_white(lf[i]) == drop_white(compare_lines_of(right, ignore_line_endings, false)[i]));
    }
    assert(l =~= r);
}

/// The lines that a three-way merge works on: the text without a leading
/// byte order mark, with CR LF and lone CR read as LF, split at every LF
/// (a final newline gives a final empty line).
pub open spec fn merge_lines_of(s: Seq<char>) -> Seq<Seq<char>> {
    split_on(unify_newlines(strip_bom(s)), '\n')
}

/// The first `n` characters of `s`.
pub fn prefix_chars(s: &[char], n: usize) -> (r: Vec<char>)
    requires
        n <= s.len(),
    ensures
        r@ == s@.take(n as int),
{
    let mut r: Vec<char> = Vec::new();
    let mut i: usize = 0;
    while i < n
        invariant
            i <= n <= s.len(),
            r@ == s@.take(i as int),
        decreases n - i,
    {
        r.push(s[i]);
        assert(r@ == s@.take(i + 1));
        i = i + 1;
    }
    r
}

proof fn lemma_split_nonempty(s: Seq<char>, sep: char)
    ensures
        split_on(s, sep).len() >= 1,
    decreases s.len(),
{
    if s.len() > 0 {
        lemma_split_nonempty(s.drop_last(), sep);
    }
}

/// Drops the last piece when it is empty.
fn drop_empty_last(pieces: &mut Vec<Vec<char>>)
    requires
        old(pieces).len() >= 1,
    ensures
        lists_view(final(pieces)@) == (if old(pieces)@.last()@.len() == 0 {
            lists_view(old(pieces)@).drop_last()
        } else {
            lists_view(old(pieces)@)
        }),
{
    let n = pieces.len();
    if pieces[n - 1].len() == 0 {
        pieces.pop();
        assert(lists_view(pieces@) =~= lists_view(old(pieces)@).drop_last());
    }
}

/// The lines of a text as the two panes of a comparison show them.
pub fn display_lines(text: &str) -> (lines: Vec<String>)
    ensures
        lines.deep_view() == display_lines_of(text@),
{
    let chars = chars_of(text);
    let mut pieces = split_chars(chars.as_slice(), '\n');
    proof {
        lemma_split_nonempty(chars@, '\n');
    }
    drop_empty_last(&mut pieces);
    let ghost kept = lists_view(pieces@);
    assert(kept == newline_pieces(text@));
    let mut out: Vec<Vec<char>> = Vec::new();
    let mut i: usize = 0;
    while i < pieces.len()
        invariant
            i <= pieces.len(),
            kept == lists_view(pieces@),
            lists_view(out@) == kept.take(i as int).map_values(|l: Seq<char>| strip_cr(l)),
        decreases pieces.len() - i,
    {
        let piece = &pieces[i];
        let n = piece.len();
        let line = if n > 0 && piece[n - 1] == '\r' {
            prefix_chars(piece.as_slice(), n - 1)
        } else {
            prefix_chars(piece.as_slice(), n)
        };
        assert(piece@.take(n as int) == piece@);
        assert(line@ == strip_cr(kept[i as int]));
        let ghost before = lists_view(out@);
        out.push(line);
        assert(lists_view(out@) =~= before.push(line@));
        assert(kept.take(i + 1).map_values(|l: Seq<char>| strip_cr(l)) =~= kept.take(
            i as int,
        ).map_values(|l: Seq<char>| strip_cr(l)).push(strip_cr(kept[i as int])));
        i = i + 1;
    }
    assert(kept.take(pieces.len() as int) == kept);
    strings_of(out)
}

/// The lines that a two-way comparison compares, under the two options.
pub fn normalized_lines(text: &str, ignore_line_endings: bool, ignore_whitespace: bool) -> (lines: Vec<String>)
    ensures
        lines.deep_view() == compare_lines_of(text@, ignore_line_endings, ignore_whitespace),
{
    let chars = chars_of(text);
    let t = strip_bom_chars(chars.as_slice());
    let u = if ignore_line_endings {
        unify_newline_chars(t.as_slice())
    } else {
        t
    };
    let mut pieces = split_chars(u.as_slice(), '\n');
    proof {
        lemma_split_nonempty(u@, '\n');
    }
    drop_empty_last(&mut pieces);
    let ghost kept = lists_view(pieces@);
    assert(kept == newline_pieces(u@));
    let ghost f = |l: Seq<char>| if ignore_whitespace { drop_white(l) } else { l };
    let mut out: Vec<Vec<char>> = Vec::new();
    let mut i: usize = 0;
    while i < pieces.len()
        invariant
            i <= pieces.len(),
            kept == lists_view(pieces@),
            f == (|l: Seq<char>| if ignore_whitespace { drop_white(l) } else { l }),
            lists_view(out@) == kept.take(i as int).map_values(f),
        decreases pieces.len() - i,
    {
        let piece = &pieces[i];
        let line = if ignore_whitespace {
            drop_white_chars(piece.as_slice())
        } else {
            prefix_chars(piece.as_slice(), piece.len())
        };
        assert(piece@.take(piece@.len() as int) == piece@);
        assert(line@ == f(kept[i as int]));
        let ghost before = lists_view(out@);
        out.push(line);
        assert(lists_view(out@) =~= before.push(line@));
        assert(kept.take(i + 1).map_values(f) =~= kept.take(i as int).map_values(f).push(
            f(kept[i as int]),
        ));
        i = i + 1;
    }
    assert(kept.take(pieces.len() as int) == kept);
    strings_of(out)
}

/// The lines of `s` as `str::lines` yields them: the `split_inclusive('\n')`
/// pieces without the newline, a line that ended in LF also without one
/// carriage return before it; a last line without LF keeps its carriage
/// return.
pub open spec fn rust_lines_of(s: Seq<char>) -> Seq<Seq<char>> {
    let p = newline_pieces(s);
    let terminated = s.len() > 0 && s.last() == '\n';
    Seq::new(p.len(), |i: int| if i < p.len() - 1 || terminated { strip_cr(p[i]) } else { p[i] })
}

/// The text without one leading byte order mark.
pub fn without_bom(text: &str) -> (s: String)
    ensures
        s@ == strip_bom(text@),
{
    let chars = chars_of(text);
    let rest = strip_bom_chars(chars.as_slice());
    string_of(rest.as_slice())
}

/// The lines of a text, as `str::lines` yields them.
pub fn str_lines(text: &str) -> (lines: Vec<String>)
    ensures
        lines.deep_view() == rust_lines_of(text@),
{
    let chars = chars_of(text);
    let terminated = chars.len() > 0 && chars[chars.len() - 1] == '\n';
    let mut pieces = split_chars(chars.as_slice(), '\n');
    proof {
        lemma_split_nonempty(chars@, '\n');
    }
    drop_empty_last(&mut pieces);
    let ghost kept = lists_view(pieces@);
    assert(kept == newline_pieces(text@));
    let ghost want = rust_lines_of(text@);
    let mut out: Vec<Vec<char>> = Vec::new();
    let mut i: usize = 0;
    while i < pieces.len()
        invariant
            i <= pieces.len(),
            kept == lists_view(pieces@),
            want == rust_lines_of(text@),
            kept == newline_pieces(text@),
            want.len() == kept.len(),
            terminated == (text@.len() > 0 && text@.last() == '\n'),
            lists_view(out@) == want.take(i as int),
        decreases pieces.len() - i,
    {
        let piece = &pieces[i];
        let n = piece.len();
        let strip = i + 1 < pieces.len() || terminated;
        let line = if strip && n > 0 && piece[n - 1] == '\r' {
            prefix_chars(piece.as_slice(), n - 1)
        } else {
            prefix_chars(piece.as_slice(), n)
        };
        assert(piece@.take(n as int) == piece@);
        assert(piece@ == kept[i as int]);
        assert(strip == (i < kept.len() - 1 || terminated));
        assert(line@ == want[i as int]);
        let ghost before = lists_view(out@);
        out.push(line);
        assert(lists_view(out@) =~= before.push(line@));
        assert(lists_view(out@) =~= want.take(i + 1));
        i = i + 1;
    }
    assert(want.take(pieces.len() as int) == want);
    strings_of(out)
}

/// The lines that a three-way merge works on.
pub fn merge_lines(text: &str) -> (lines: Vec<String>)
    ensures
        lines.deep_view() == merge_lines_of(text@),
{
    let chars = chars_of(text);
    let t = strip_bom_chars(chars.as_slice());
    let u = unify_newline_chars(t.as_slice());
    strings_of(split_chars(u.as_slice(), '\n'))
}

/// Joins the lines with `sep` between consecutive lines, as `[String]::join`
/// does.
pub fn join_lines(lines: &[String], sep: char) -> (s: String)
    ensures
        s@ == join_with(lines@.map_values(|l: String| l@), sep),
{
    let ghost views = lines@.map_values(|l: String| l@);
    let mut out: Vec<char> = Vec::new();
    let mut i: usize = 0;
    while i < lines.len()
        invariant
            i <= lines.len(),
            views == lines@.map_values(|l: String| l@),
            out@ == join_with(views.take(i as int), sep),
        decreases lines.len() - i,
    {
        assert(views.take(i + 1).drop_last() =~= views.take(i as int));
        if i > 0 {
            out.push(sep);
        }
        let piece = chars_of(lines[i].as_str());
        let mut j: usize = 0;
        let ghost start = out@;
        while j < piece.len()
            invariant
                j <= piece.len(),
                out@ == start + piece@.take(j as int),
            decreases piece.len() - j,
        {
            out.push(piece[j]);
            assert(out@ =~= start + piece@.take(j + 1));
            j = j + 1;
        }
        assert(piece@.take(piece@.len() as int) == piece@);
        if i == 0 {
            assert(out@ =~= join_with(views.take(1), sep));
        }
        i = i + 1;
    }
    assert(views.take(lines.len() as int) =~= views);
    string_of(out.as_slice())
}

/// Extending the last piece extends the joined text by the same characters.
pub proof fn lemma_join_extend_last(ps: Seq<Seq<char>>, x: Seq<char>, sep: char)
    requires
        ps.len() >= 1,
    ensures
        join_with(ps.update(ps.len() - 1, ps.last() + x), sep) == join_with(ps, sep) + x,
{
    let qs = ps.update(ps.len() - 1, ps.last() + x);
    if ps.len() > 1 {
        assert(qs.drop_last() =~= ps.drop_last());
        assert(join_with(qs, sep) =~= join_with(ps, sep) + x);
    }
}

/// Joining the pieces of a split gives the text back.
pub proof fn lemma_join_split(s: Seq<char>, sep: char)
    ensures
        join_with(split_on(s, sep), sep) == s,
    decreases s.len(),
{
    if s.len() > 0 {
        let t = s.drop_last();
        lemma_join_split(t, sep);
        lemma_split_nonempty(t, sep);
        let prev = split_on(t, sep);
        if s.last() == sep {
            assert(prev.push(Seq::<char>::empty()).drop_last() =~= prev);
            assert(join_with(split_on(s, sep), sep) =~= s);
        } else {
            lemma_join_extend_last(prev, seq![s.last()], sep);
            assert(prev.last().push(s.last()) =~= prev.last() + seq![s.last()]);
            assert(join_with(split_on(s, sep), sep) =~= s);
        }
    }
}

/// Appending separator-free characters extends the last piece of a split.
pub proof fn lemma_split_append_free(t: Seq<char>, b: Seq<char>, sep: char)
    requires
        forall|j: int| 0 <= j < b.len() ==> b[j] != sep,
    ensures
        split_on(t + b, sep) == split_on(t, sep).update(
            split_on(t, sep).len() - 1,
            split_on(t, sep).last() + b,
        ),
    decreases b.len(),
{
    lemma_split_nonempty(t, sep);
    if b.len() == 0 {
        assert(t + b =~= t);
        assert(split_on(t, sep).last() + b =~= split_on(t, sep).last());
        assert(split_on(t, sep).update(split_on(t, sep).len() - 1, split_on(t, sep).last())
            =~= split_on(t, sep));
    } else {
        let b0 = b.drop_last();
        lemma_split_append_free(t, b0, sep);
        assert((t + b).drop_last() =~= t + b0);
        assert((t + b).last() == b.last());
        let p = split_on(t, sep);
        assert((p.last() + b0).push(b.last()) =~= p.last() + b);
        assert(split_on(t + b, sep) =~= p.update(p.len() - 1, p.last() + b));
    }
}

/// Splitting joined separator-free pieces gives the pieces back.
pub proof fn lemma_split_join(ps: Seq<Seq<char>>, sep: char)
    requires
        ps.len() >= 1,
        free_of(ps, sep),
    ensures
        split_on(join_with(ps, sep), sep) == ps,
    decreases ps.len(),
{
    let e = Seq::<char>::empty();
    assert(forall|j: int| 0 <= j < ps.last().len() ==> ps.last()[j] != sep) by {
        assert forall|j: int| 0 <= j < ps.last().len() implies ps.last()[j] != sep by {
            assert(ps[ps.len() - 1][j] != sep);
        }
    }
    if ps.len() == 1 {
        lemma_split_append_free(e, ps[0], sep);
        assert(e + ps[0] =~= ps[0]);
        assert(split_on(e, sep) =~= seq![e]);
        assert(split_on(join_with(ps, sep), sep) =~= ps);
    } else {
        let qs = ps.drop_last();
        assert(free_of(qs, sep)) by {
            assert forall|i: int, j: int| 0 <= i < qs.len() && 0 <= j < qs[i].len() implies #[trigger] qs[i][j] != sep by {
                assert(qs[i] == ps[i]);
            }
        }
        lemma_split_join(qs, sep);
        let a = join_with(qs, sep);
        lemma_split_append_free(a.push(sep), ps.last(), sep);
        assert(a.push(sep).drop_last() =~= a);
        assert(split_on(a.push(sep), sep) =~= qs.push(e));
        assert(e + ps.last() =~= ps.last());
        assert(split_on(join_with(ps, sep), sep) =~= ps);
    }
}

/// The pieces of a split hold no separator.
pub proof fn lemma_split_free(s: Seq<char>, sep: char)
    ensures
        free_of(split_on(s, sep), sep),
    decreases s.len(),
{
    if s.len() > 0 {
        lemma_split_free(s.drop_last(), sep);
        lemma_split_nonempty(s.drop_last(), sep);
        let p = split_on(s.drop_last(), sep);
        let q = split_on(s, sep);
        assert forall|i: int, j: int| 0 <= i < q.len() && 0 <= j < q[i].len() implies #[trigger] q[i][j] != sep by {
            if s.last() != sep && i == p.len() - 1 {
                if j < p[i].len() {
                    assert(q[i][j] == p[i][j]);
                }
            } else if i < p.len() {
                assert(q[i] == p[i]);
            }
        }
    }
}

/// Appending characters never removes a piece of a split.
proof fn lemma_split_append_len(s: Seq<char>, x: Seq<char>, sep: char)
    ensures
        split_on(s + x, sep).len() >= split_on(s, sep).len(),
    decreases x.len(),
{
    if x.len() == 0 {
        assert(s + x =~= s);
    } else {
        let x0 = x.drop_last();
        lemma_split_append_len(s, x0, sep);
        assert((s + x).drop_last() =~= s + x0);
        lemma_split_nonempty(s + x0, sep);
    }
}

/// Splitting joined pieces gives at least as many pieces.
pub proof fn lemma_split_join_len(ps: Seq<Seq<char>>, sep: char)
    ensures
        split_on(join_with(ps, sep), sep).len() >= ps.len(),
    decreases ps.len(),
{
    if ps.len() == 1 {
        lemma_split_nonempty(ps[0], sep);
    } else if ps.len() > 1 {
        let t = join_with(ps.drop_last(), sep);
        lemma_split_join_len(ps.drop_last(), sep);
        lemma_split_nonempty(t, sep);
        assert(t.push(sep).drop_last() =~= t);
        lemma_split_append_len(t.push(sep), ps.last(), sep);
    }
}

} // verus!
