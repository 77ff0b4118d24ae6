//! The program's settings and the small `key=value` file that keeps them.
use vstd::prelude::*;
use crate::text::{
    chars_of, free_of, lemma_join_split, join_with, lemma_split_join, newline_pieces, rust_lines_of, str_lines,
    strip_cr,
};

verus! {

/// The comparison and appearance settings.
#[derive(Clone, Copy, Debug, PartialEq, Eq, Structural)]
pub struct Settings {
    pub ignore_line_endings: bool,
    pub ignore_whitespace: bool,
    pub confirm_overwrite: bool,
    pub dark_mode: bool,
}

/// The settings before any are saved: line endings ignored, whitespace
/// compared, overwriting confirmed, light appearance.
pub open spec fn default_settings() -> Settings {
    Settings { ignore_line_endings: true, ignore_whitespace: false, confirm_overwrite: true, dark_mode: false }
}

impl Default for Settings {
    fn default() -> (s: Self)
        ensures
            s == default_settings(),
    {
        Settings { ignore_line_endings: true, ignore_whitespace: false, confirm_overwrite: true, dark_mode: false }
    }
}

/// The index of the first `c` in `s`, where there is one.
pub open spec fn first_index(s: Seq<char>, c: char) -> Option<int>
    decreases s.len(),
{
    if s.len() == 0 {
        None
    } else if s[0] == c {
        Some(0)
    } else {
        match first_index(s.skip(1), c) {
            Some(i) => Some(i + 1),
            None => None,
        }
    }
}

/// The settings after reading one line: a line `key=value` (split at its
/// first `=`) sets the known key to whether the value is `true`; other
/// lines change nothing.
pub open spec fn apply_line(st: Settings, line: Seq<char>) -> Settings {
    match first_index(line, '=') {
        None => st,
        Some(p) => {
            let key = line.take(p);
            let value = line.skip(p + 1) == "true"@;
            if key == "ignore_line_endings"@ {
                Settings { ignore_line_endings: value, ..st }
            } else if key == "ignore_whitespace"@ {
                Settings { ignore_whitespace: value, ..st }
            } else if key == "confirm_overwrite"@ {
                Settings { confirm_overwrite: value, ..st }
            } else if key == "dark_mode"@ {
                Settings { dark_mode: value, ..st }
            } else {
                st
            }
        },
    }
}

/// The settings after reading lines in order from `st`.
pub open spec fn apply_lines(st: Settings, lines: Seq<Seq<char>>) -> Settings
    decreases lines.len(),
{
    if lines.len() == 0 {
        st
    } else {
        apply_line(apply_lines(st, lines.drop_last()), lines.last())
    }
}

/// The settings that a settings file holds: the defaults, changed by its
/// lines in order.
pub open spec fn parsed_settings(contents: Seq<char>) -> Settings {
    apply_lines(default_settings(), rust_lines_of(contents))
}

fn first_equals(s: &[char]) -> (r: Option<usize>)
    ensures
        r matches Some(i) ==> i < s.len() && first_index(s@, '=') == Some(i as int),
        r is None ==> first_index(s@, '=') is None,
{
    let mut i: usize = 0;
    assert(s@.skip(0) == s@);
    while i < s.len()
        invariant
            i <= s.len(),
            forall|j: int| 0 <= j < i ==> s@[j] != '=',
            first_index(s@, '=') == match first_index(s@.skip(i as int), '=') {
                Some(k) => Some(k + i),
                None => None,
            },
        decreases s.len() - i,
    {
        if s[i] == '=' {
            return Some(i);
        }
        assert(s@.skip(i as int).skip(1) == s@.skip(i + 1));
        i = i + 1;
    }
    None
}

fn same_chars(a: &[char], b: &[char]) -> (same: bool)
    ensures
        same == (a@ == b@),
{
    if a.len() != b.len() {
        return false;
    }
    let mut i: usize = 0;
    while i < a.len()
        invariant
            i <= a.len() == b.len(),
            forall|j: int| 0 <= j < i ==> a@[j] == b@[j],
        decreases a.len() - i,
    {
        if a[i] != b[i] {
            return false;
        }
        i = i + 1;
    }
    assert(a@ =~= b@);
    true
}

fn slice_chars(s: &[char], start: usize, end: usize) -> (r: Vec<char>)
    requires
        start <= end <= s.len(),
    ensures
        r@ == s@.subrange(start as int, end as int),
{
    let mut r: Vec<char> = Vec::new();
    let mut i = start;
    while i < end
        invariant
            start <= i <= end <= s.len(),
            r@ == s@.subrange(start as int, i as int),
        decreases end - i,
    {
        r.push(s[i]);
        assert(r@ =~= s@.subrange(start as int, i + 1));
        i = i + 1;
    }
    r
}

/// Reads one line of a settings file into `st`.
fn read_line(st: Settings, line: &str) -> (r: Settings)
    ensures
        r == apply_line(st, line@),
{
    let chars = chars_of(line);
    match first_equals(chars.as_slice()) {
        None => st,
        Some(p) => {
            let key = slice_chars(chars.as_slice(), 0, p);
            let value_chars = slice_chars(chars.as_slice(), p + 1, chars.len());
            assert(key@ == line@.take(p as int));
            assert(value_chars@ == line@.skip(p + 1));
            let t = chars_of("true");
            let value = same_chars(value_chars.as_slice(), t.as_slice());
            let k1 = chars_of("ignore_line_endings");
            let k2 = chars_of("ignore_whitespace");
            let k3 = chars_of("confirm_overwrite");
            let k4 = chars_of("dark_mode");
            if same_chars(key.as_slice(), k1.as_slice()) {
                Settings { ignore_line_endings: value, ..st }
            } else if same_chars(key.as_slice(), k2.as_slice()) {
                Settings { ignore_whitespace: value, ..st }
            } else if same_chars(key.as_slice(), k3.as_slice()) {
                Settings { confirm_overwrite: value, ..st }
            } else if same_chars(key.as_slice(), k4.as_slice()) {
                Settings { dark_mode: value, ..st }
            } else {
                st
            }
        },
    }
}

/// The settings that a settings file holds.
pub fn parse_settings(contents: &str) -> (s: Settings)
    ensures
        s == parsed_settings(contents@),
{
    let lines = str_lines(contents);
    let ghost ls = rust_lines_of(contents@);
    let mut st = Settings::default();
    let mut i: usize = 0;
    while i < lines.len()
        invariant
            i <= lines.len(),
            ls == lines.deep_view(),
            st == apply_lines(default_settings(), ls.take(i as int)),
        decreases lines.len() - i,
    {
        assert(ls.take(i + 1).drop_last() =~= ls.take(i as int));
        assert(lines@[i as int]@ == ls[i as int]);
        st = read_line(st, lines[i].as_str());
        i = i + 1;
    }
    assert(ls.take(lines.len() as int) =~= ls);
    st
}

/// The text of a boolean in a settings file.
pub open spec fn bool_text(b: bool) -> Seq<char> {
    if b { "true"@ } else { "false"@ }
}

/// The settings file for the settings: one `key=value` line per setting,
/// each ended by a newline.
pub open spec fn settings_file(s: Settings) -> Seq<char> {
    setting_line("ignore_line_endings"@, s.ignore_line_endings) + "\n"@
        + setting_line("ignore_whitespace"@, s.ignore_whitespace) + "\n"@
        + setting_line("confirm_overwrite"@, s.confirm_overwrite) + "\n"@
        + setting_line("dark_mode"@, s.dark_mode) + "\n"@
}

fn push_line(out: &mut String, key: &str, b: bool)
    ensures
        final(out)@ == old(out)@ + setting_line(key@, b) + "\n"@,
{
    out.append(key);
    out.append("=");
    if b {
        out.append("true");
    } else {
        out.append("false");
    }
    out.append("\n");
}

/// The settings file that keeps the settings.
pub fn settings_text(s: Settings) -> (t: String)
    ensures
        t@ == settings_file(s),
{
    let mut out = String::new();
    push_line(&mut out, "ignore_line_endings", s.ignore_line_endings);
    push_line(&mut out, "ignore_whitespace", s.ignore_whitespace);
    push_line(&mut out, "confirm_overwrite", s.confirm_overwrite);
    push_line(&mut out, "dark_mode", s.dark_mode);
    out
}

/// The line that keeps one setting.
pub open spec fn setting_line(key: Seq<char>, b: bool) -> Seq<char> {
    key + "="@ + bool_text(b)
}

proof fn lemma_first_index_after(k: Seq<char>, v: Seq<char>)
    requires
        forall|j: int| 0 <= j < k.len() ==> k[j] != '=',
    ensures
        first_index(k + "="@ + v, '=') == Some(k.len() as int),
    decreases k.len(),
{
    reveal_strlit("=");
    let s = k + "="@ + v;
    if k.len() == 0 {
        assert(s[0] == '=');
    } else {
        let k1 = k.skip(1);
        lemma_first_index_after(k1, v);
        assert(s.skip(1) =~= k1 + "="@ + v);
        assert(s[0] == k[0]);
    }
}

proof fn lemma_setting_line(key: Seq<char>, b: bool)
    requires
        key.len() > 0,
        forall|j: int| 0 <= j < key.len() ==> key[j] != '=' && key[j] != '\n',
    ensures
        ({
            let line = setting_line(key, b);
            &&& first_index(line, '=') == Some(key.len() as int)
            &&& line.take(key.len() as int) == key
            &&& (line.skip(key.len() as int + 1) == "true"@) == b
            &&& forall|j: int| 0 <= j < line.len() ==> line[j] != '\n'
            &&& strip_cr(line) == line
        }),
{
    reveal_strlit("=");
    reveal_strlit("true");
    reveal_strlit("false");
    let line = setting_line(key, b);
    lemma_first_index_after(key, bool_text(b));
    assert(line.take(key.len() as int) =~= key);
    assert(line.skip(key.len() as int + 1) =~= bool_text(b));
    assert(line.last() == 'e');
}

/// The lines of the settings file, in order.
pub open spec fn settings_lines(s: Settings) -> Seq<Seq<char>> {
    seq![
        setting_line("ignore_line_endings"@, s.ignore_line_endings),
        setting_line("ignore_whitespace"@, s.ignore_whitespace),
        setting_line("confirm_overwrite"@, s.confirm_overwrite),
        setting_line("dark_mode"@, s.dark_mode),
    ]
}

proof fn lemma_file_lines(s: Settings)
    ensures
        settings_file(s) == join_with(settings_lines(s).push(Seq::<char>::empty()), '\n'),
{
    reveal_strlit("\n");
    let ls = settings_lines(s);
    let (l1, l2, l3, l4) = (ls[0], ls[1], ls[2], ls[3]);
    let e = Seq::<char>::empty();
    let ps = ls.push(e);
    assert(ps.take(1) =~= seq![l1]);
    assert(ps.take(2).drop_last() =~= ps.take(1));
    assert(ps.take(3).drop_last() =~= ps.take(2));
    assert(ps.take(4).drop_last() =~= ps.take(3));
    assert(ps.drop_last() =~= ps.take(4));
    let j1 = join_with(ps.take(1), '\n');
    let j2 = join_with(ps.take(2), '\n');
    let j3 = join_with(ps.take(3), '\n');
    let j4 = join_with(ps.take(4), '\n');
    assert(j1 == l1);
    assert(j2 == l1.push('\n') + l2);
    assert(j3 == j2.push('\n') + l3);
    assert(j4 == j3.push('\n') + l4);
    assert(join_with(ps, '\n') == j4.push('\n') + e);
    assert(settings_file(s) =~= join_with(ps, '\n'));
}

proof fn lemma_lines_plain(s: Settings)
    ensures
        free_of(settings_lines(s).push(Seq::<char>::empty()), '\n'),
        forall|i: int| 0 <= i < 4 ==> strip_cr(#[trigger] settings_lines(s)[i]) == settings_lines(s)[i],
{
    reveal_strlit("ignore_line_endings");
    reveal_strlit("ignore_whitespace");
    reveal_strlit("confirm_overwrite");
    reveal_strlit("dark_mode");
    let ls = settings_lines(s);
    lemma_setting_line("ignore_line_endings"@, s.ignore_line_endings);
    lemma_setting_line("ignore_whitespace"@, s.ignore_whitespace);
    lemma_setting_line("confirm_overwrite"@, s.confirm_overwrite);
    lemma_setting_line("dark_mode"@, s.dark_mode);
    let ps = ls.push(Seq::<char>::empty());
    assert forall|i: int, j: int| 0 <= i < ps.len() && 0 <= j < ps[i].len() implies #[trigger] ps[i][j] != '\n' by {
        if i < 4 {
            assert(ps[i] == ls[i]);
        }
    }
}

/// Reading the file that `settings_text` writes gives the same settings back.
pub proof fn lemma_settings_round_trip(s: Settings)
    ensures
        parsed_settings(settings_file(s)) == s,
{
    reveal_strlit("ignore_line_endings");
    reveal_strlit("ignore_whitespace");
    reveal_strlit("confirm_overwrite");
    reveal_strlit("dark_mode");
    let ls = settings_lines(s);
    let e = Seq::<char>::empty();
    let file = settings_file(s);
    lemma_file_lines(s);
    lemma_lines_plain(s);
    lemma_split_join(ls.push(e), '\n');
    assert(ls.push(e).drop_last() =~= ls);
    assert(newline_pieces(file) == ls);
    lemma_join_split(file, '\n');
    assert(file.len() > 0 && file.last() == '\n') by {
        reveal_strlit("\n");
    }
    let lines = rust_lines_of(file);
    assert(lines =~= ls);
    lemma_setting_line("ignore_line_endings"@, s.ignore_line_endings);
    lemma_setting_line("ignore_whitespace"@, s.ignore_whitespace);
    lemma_setting_line("confirm_overwrite"@, s.confirm_overwrite);
    lemma_setting_line("dark_mode"@, s.dark_mode);
    let k1 = "ignore_line_endings"@;
    let k2 = "ignore_whitespace"@;
    let k3 = "confirm_overwrite"@;
    let k4 = "dark_mode"@;
    assert(k1 != k2 && k1 != k3 && k1 != k4 && k2 != k3 && k2 != k4 && k3 != k4) by {
        assert(k1.len() != k2.len());
        assert(k2[0] != k3[0]);
        assert(k1.len() != k4.len());
        assert(k2.len() != k4.len());
        assert(k3.len() != k4.len());
        assert(k1.len() != k3.len());
    }
    let d = default_settings();
    assert(ls.take(1).drop_last() =~= Seq::<Seq<char>>::empty());
    assert(ls.take(2).drop_last() =~= ls.take(1));
    assert(ls.take(3).drop_last() =~= ls.take(2));
    assert(ls.drop_last() =~= ls.take(3));
    assert(apply_lines(d, Seq::<Seq<char>>::empty()) == d);
    assert(ls.take(1).last() == ls[0]);
    assert(ls.take(2).last() == ls[1]);
    assert(ls.take(3).last() == ls[2]);
    let a1 = apply_lines(d, ls.take(1));
    assert(a1 == apply_line(d, ls[0]));
    let a2 = apply_lines(d, ls.take(2));
    assert(a2 == apply_line(a1, ls[1]));
    let a3 = apply_lines(d, ls.take(3));
    assert(a3 == apply_line(a2, ls[2]));
    assert(apply_lines(d, ls) == apply_line(a3, ls[3]));
}

} // verus!
