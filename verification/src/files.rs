//! The decisions of a file comparison, given what reading the files gave:
//! which files are compared as text, how their bytes become text, and how
//! two files compare byte by byte.
use vstd::prelude::*;
use vstd::utf8::{decode_utf8, valid_utf8};
use crate::compare::{
    compare_texts, hunks_of, line_diff, FileCompareOptions, FileDiff, FileDiffKind, TextDiff,
};
use crate::error::{path_view, CompareError, CompareErrorKind};
use crate::merge::{compare_three_way_text, is_three_way_of, ThreeWayDiff};
use crate::text::{compare_lines_of, display_lines_of};

verus! {

/// `bytes` without a leading UTF-8 byte order mark.
pub open spec fn strip_utf8_bom(bytes: Seq<u8>) -> Seq<u8> {
    if bytes.len() >= 3 && bytes[0] == 0xefu8 && bytes[1] == 0xbbu8 && bytes[2] == 0xbfu8 {
        bytes.skip(3)
    } else {
        bytes
    }
}

/// The text that a file's bytes hold: none where they hold a zero byte or
/// are not UTF-8 once a leading byte order mark is dropped.
pub open spec fn decoded_text(bytes: Seq<u8>) -> Option<Seq<char>> {
    let b = strip_utf8_bom(bytes);
    if bytes.contains(0u8) || !valid_utf8(b) {
        None
    } else {
        Some(decode_utf8(b))
    }
}

/// The string that UTF-8 bytes encode, through `String::from_utf8`, which
/// accepts exactly the valid UTF-8 byte sequences and keeps their text.
#[verifier::external_body]
fn utf8_string(bytes: Vec<u8>) -> (s: Option<String>)
    ensures
        s is Some <==> valid_utf8(bytes@),
        s matches Some(t) ==> t@ == decode_utf8(bytes@),
{
    String::from_utf8(bytes).ok()
}

/// Whether `bytes` holds a zero byte.
fn has_zero(bytes: &[u8]) -> (z: bool)
    ensures
        z == bytes@.contains(0u8),
{
    let mut i: usize = 0;
    while i < bytes.len()
        invariant
            i <= bytes.len(),
            forall|j: int| 0 <= j < i ==> bytes@[j] != 0u8,
        decreases bytes.len() - i,
    {
        if bytes[i] == 0 {
            assert(bytes@[i as int] == 0u8);
            return true;
        }
        i = i + 1;
    }
    false
}

/// The text of a file's bytes, or the error that they are not text.
pub fn decode_text(path: &str, bytes: &[u8]) -> (r: Result<String, CompareError>)
    ensures
        decoded_text(bytes@) is Some <==> r is Ok,
        r matches Ok(s) ==> decoded_text(bytes@) == Some(s@),
        r matches Err(e) ==> (e.path matches Some(p) && p@ == path@ && e.kind == CompareErrorKind::InvalidText
            && e.message@ == "file is not valid UTF-8 text"@),
{
    if has_zero(bytes) {
        return Err(CompareError::invalid_text(path));
    }
    let start: usize = if bytes.len() >= 3 && bytes[0] == 0xef && bytes[1] == 0xbb && bytes[2] == 0xbf {
        3
    } else {
        0
    };
    let mut rest: Vec<u8> = Vec::new();
    let mut i: usize = start;
    while i < bytes.len()
        invariant
            start <= i <= bytes.len(),
            rest@ == bytes@.subrange(start as int, i as int),
        decreases bytes.len() - i,
    {
        rest.push(bytes[i]);
        assert(rest@ =~= bytes@.subrange(start as int, i + 1));
        i = i + 1;
    }
    assert(rest@ =~= strip_utf8_bom(bytes@));
    match utf8_string(rest) {
        Some(s) => Ok(s),
        None => Err(CompareError::invalid_text(path)),
    }
}

/// The decimal digits of `n`.
pub open spec fn decimal_of(n: nat) -> Seq<char>
    decreases n,
{
    if n < 10 {
        seq![digit_char(n)]
    } else {
        decimal_of(n / 10).push(digit_char(n % 10))
    }
}

/// The character of a digit.
pub open spec fn digit_char(d: nat) -> char {
    if d == 0 { '0' } else if d == 1 { '1' } else if d == 2 { '2' } else if d == 3 { '3' }
    else if d == 4 { '4' } else if d == 5 { '5' } else if d == 6 { '6' } else if d == 7 { '7' }
    else if d == 8 { '8' } else { '9' }
}

fn digit(d: u64) -> (c: char)
    requires
        d < 10,
    ensures
        c == digit_char(d as nat),
{
    if d == 0 { '0' } else if d == 1 { '1' } else if d == 2 { '2' } else if d == 3 { '3' }
    else if d == 4 { '4' } else if d == 5 { '5' } else if d == 6 { '6' } else if d == 7 { '7' }
    else if d == 8 { '8' } else { '9' }
}

/// `n` written in decimal.
pub fn decimal(n: u64) -> (s: String)
    ensures
        s@ == decimal_of(n as nat),
{
    let mut digits: Vec<char> = Vec::new();
    let mut m: u64 = n;
    while m >= 10
        invariant
            decimal_of(n as nat) == decimal_of(m as nat) + digits@,
        decreases m,
    {
        let ghost before = digits@;
        digits.insert(0, digit(m % 10));
        assert(digits@ =~= seq![digit_char((m % 10) as nat)] + before);
        assert(decimal_of(m as nat) == decimal_of((m / 10) as nat).push(digit_char((m % 10) as nat)));
        assert(decimal_of(m as nat) + before =~= decimal_of((m / 10) as nat) + digits@);
        m = m / 10;
    }
    let ghost before = digits@;
    digits.insert(0, digit(m));
    assert(digits@ =~= seq![digit_char(m as nat)] + before);
    crate::text::string_of(digits.as_slice())
}

/// Checks that a file of `len` bytes may be read as text under `limit`.
pub fn check_text_size(path: &str, len: u64, limit: u64) -> (r: Result<(), CompareError>)
    ensures
        r is Ok <==> len <= limit,
        r matches Err(e) ==> (e.path matches Some(p) && p@ == path@ && e.kind == CompareErrorKind::TooLarge
            && e.message@ == "file exceeds the text limit of "@ + decimal_of(limit as nat) + " bytes"@),
{
    if len > limit {
        let mut message = "file exceeds the text limit of ".to_owned();
        let number = decimal(limit);
        message.append(number.as_str());
        message.append(" bytes");
        Err(CompareError { path: Some(path.to_owned()), kind: CompareErrorKind::TooLarge, message })
    } else {
        Ok(())
    }
}

/// Checks that both compared paths are regular files.
pub fn check_regular_files(left_is_file: bool, right_is_file: bool) -> (r: Result<(), CompareError>)
    ensures
        r is Ok <==> left_is_file && right_is_file,
        r matches Err(e) ==> (e.kind == CompareErrorKind::InvalidPath && e.path is None
            && e.message@ == "file comparison requires two regular files"@),
{
    if left_is_file && right_is_file {
        Ok(())
    } else {
        Err(
            CompareError {
                path: None,
                kind: CompareErrorKind::InvalidPath,
                message: "file comparison requires two regular files".to_owned(),
            },
        )
    }
}

/// The outcome for files too large to compare as text: `Some` where either
/// is larger than the limit, with the byte comparison's verdict.
pub fn size_verdict(left_len: u64, right_len: u64, options: &FileCompareOptions, equal: bool) -> (d: Option<FileDiff>)
    ensures
        d is Some <==> left_len > options.text_size_limit || right_len > options.text_size_limit,
        d matches Some(f) ==> (f.kind == FileDiffKind::TooLarge && f.equal == equal && f.text is None),
{
    if left_len > options.text_size_limit || right_len > options.text_size_limit {
        Some(FileDiff { kind: FileDiffKind::TooLarge, equal, text: None })
    } else {
        None
    }
}

/// The outcome of comparing two files of a size to compare as text, from
/// their bytes: binary, with the byte comparison's verdict `equal`, where
/// either is not text; otherwise a text comparison of the decoded texts,
/// equal where it finds no hunk.
pub open spec fn bytes_file_diff(d: FileDiff, left: Seq<u8>, right: Seq<u8>, equal: bool, options: FileCompareOptions) -> bool {
    &&& decoded_text(left) is None || decoded_text(right) is None ==> (d.kind == FileDiffKind::Binary
        && d.equal == equal && d.text is None)
    &&& decoded_text(left) is Some && decoded_text(right) is Some ==> {
        let l = decoded_text(left)->0;
        let r = decoded_text(right)->0;
        &&& d.kind == FileDiffKind::Text
        &&& (d.text matches Some(t) && t.left_lines.deep_view() == display_lines_of(l)
            && t.right_lines.deep_view() == display_lines_of(r)
            && t.hunks@ == hunks_of(line_diff(
                compare_lines_of(l, options.ignore_line_endings, options.ignore_whitespace),
                compare_lines_of(r, options.ignore_line_endings, options.ignore_whitespace),
            ))
            && d.equal == (t.hunks@.len() == 0))
        &&& d.equal == (compare_lines_of(l, options.ignore_line_endings, options.ignore_whitespace)
            == compare_lines_of(r, options.ignore_line_endings, options.ignore_whitespace))
    }
}

/// The outcome for two files of a size to compare as text, from their
/// bytes: binary, with the byte comparison's verdict, where either is not
/// text; otherwise a text comparison, equal where it finds no hunk.
pub fn file_diff_from_bytes(
    left_path: &str,
    left: &[u8],
    right_path: &str,
    right: &[u8],
    equal: bool,
    options: &FileCompareOptions,
) -> (d: FileDiff)
    ensures
        bytes_file_diff(d, left@, right@, equal, *options),
{
    let left_text = match decode_text(left_path, left) {
        Ok(text) => text,
        Err(_) => {
            return FileDiff { kind: FileDiffKind::Binary, equal, text: None };
        },
    };
    let right_text = match decode_text(right_path, right) {
        Ok(text) => text,
        Err(_) => {
            return FileDiff { kind: FileDiffKind::Binary, equal, text: None };
        },
    };
    let text: TextDiff = compare_texts(left_text.as_str(), right_text.as_str(), options);
    let equal = text.hunks.len() == 0;
    FileDiff { kind: FileDiffKind::Text, equal, text: Some(text) }
}

/// The verdict on one pair of chunks read from two files.
#[derive(Clone, Copy, Debug, PartialEq, Eq, Structural)]
pub enum ChunkVerdict {
    /// The chunks differ: the files differ.
    Different,
    /// Both reads returned nothing: the files are equal.
    Same,
    /// The chunks agree: read on.
    More,
}

/// Compares the chunks that one read of each file returned.
pub fn chunk_verdict(left: &[u8], right: &[u8]) -> (v: ChunkVerdict)
    ensures
        v == ChunkVerdict::Different <==> left@ != right@,
        v == ChunkVerdict::Same <==> left@ == right@ && left@.len() == 0,
        v == ChunkVerdict::More <==> left@ == right@ && left@.len() > 0,
{
    if left.len() != right.len() {
        return ChunkVerdict::Different;
    }
    let mut i: usize = 0;
    while i < left.len()
        invariant
            i <= left.len() == right.len(),
            forall|j: int| 0 <= j < i ==> left@[j] == right@[j],
        decreases left.len() - i,
    {
        if left[i] != right[i] {
            return ChunkVerdict::Different;
        }
        i = i + 1;
    }
    assert(left@ =~= right@);
    if left.len() == 0 {
        ChunkVerdict::Same
    } else {
        ChunkVerdict::More
    }
}

/// The size of the read buffers: the requested size, at least one byte.
pub fn effective_buffer_size(buffer_size: usize) -> (size: usize)
    ensures
        size == (if buffer_size >= 1 { buffer_size } else { 1 }),
{
    if buffer_size >= 1 {
        buffer_size
    } else {
        1
    }
}

/// An error by its kind and message.
pub type ErrorView = (CompareErrorKind, Seq<char>);

/// The error concerns `path` and has the kind and message given.
pub open spec fn error_is(e: CompareError, path: Seq<char>, v: ErrorView) -> bool {
    &&& path_view(e.path) == Some(path)
    &&& e.kind == v.0
    &&& e.message@ == v.1
}

/// The text of a file from what reading it gave: the size that the file
/// system reports (or the message of the error that asking gave) and the
/// bytes read (or the message of the error that reading gave). The size
/// must be within `limit`; the bytes count only then, and must be text.
pub open spec fn file_text_result(size: Result<u64, String>, bytes: Result<Vec<u8>, String>, limit: u64) -> Result<Seq<char>, ErrorView> {
    match size {
        Err(m) => Err((CompareErrorKind::Io, m@)),
        Ok(n) => if n > limit {
            Err((CompareErrorKind::TooLarge, "file exceeds the text limit of "@ + decimal_of(limit as nat) + " bytes"@))
        } else {
            match bytes {
                Err(m) => Err((CompareErrorKind::Io, m@)),
                Ok(b) => match decoded_text(b@) {
                    Some(t) => Ok(t),
                    None => Err((CompareErrorKind::InvalidText, "file is not valid UTF-8 text"@)),
                },
            }
        },
    }
}

/// The text of the file at `path` from what reading it gave.
pub fn text_of_file(path: &str, size: Result<u64, String>, bytes: Result<Vec<u8>, String>, limit: u64) -> (r: Result<String, CompareError>)
    ensures
        match file_text_result(size, bytes, limit) {
            Ok(t) => r matches Ok(s) && s@ == t,
            Err(v) => r matches Err(e) && error_is(e, path@, v),
        },
{
    let n = match size {
        Err(m) => {
            return Err(CompareError::io(path, m.as_str()));
        },
        Ok(n) => n,
    };
    match check_text_size(path, n, limit) {
        Err(e) => {
            return Err(e);
        },
        Ok(()) => {},
    }
    match bytes {
        Err(m) => Err(CompareError::io(path, m.as_str())),
        Ok(b) => decode_text(path, b.as_slice()),
    }
}

/// Merges three files from what reading each gave, in the order base,
/// left, right: the first file that cannot be read as text under the limit
/// gives the error; otherwise the texts merge.
pub fn compare_three_way_files(
    base_path: &str,
    base_size: Result<u64, String>,
    base_bytes: Result<Vec<u8>, String>,
    left_path: &str,
    left_size: Result<u64, String>,
    left_bytes: Result<Vec<u8>, String>,
    right_path: &str,
    right_size: Result<u64, String>,
    right_bytes: Result<Vec<u8>, String>,
    limit: u64,
) -> (r: Result<ThreeWayDiff, CompareError>)
    ensures
        match (
            file_text_result(base_size, base_bytes, limit),
            file_text_result(left_size, left_bytes, limit),
            file_text_result(right_size, right_bytes, limit),
        ) {
            (Err(v), _, _) => r matches Err(e) && error_is(e, base_path@, v),
            (Ok(_), Err(v), _) => r matches Err(e) && error_is(e, left_path@, v),
            (Ok(_), Ok(_), Err(v)) => r matches Err(e) && error_is(e, right_path@, v),
            (Ok(b), Ok(l), Ok(rt)) => r matches Ok(d) && is_three_way_of(d, b, l, rt),
        },
{
    let base = text_of_file(base_path, base_size, base_bytes, limit)?;
    let left = text_of_file(left_path, left_size, left_bytes, limit)?;
    let right = text_of_file(right_path, right_size, right_bytes, limit)?;
    compare_three_way_text(base.as_str(), left.as_str(), right.as_str())
}

/// Compares two files from what asking for and reading them gave, in the
/// order that a file comparison takes: each file's kind and size (or the
/// message of the error that asking gave), whether both are regular files,
/// the verdict of comparing their bytes (or its error), whether either is
/// over the text size limit (then no text is compared), and the bytes of
/// each (or the message of the error that reading gave).
pub fn compare_file_contents(
    left_path: &str,
    left_meta: Result<(bool, u64), String>,
    right_path: &str,
    right_meta: Result<(bool, u64), String>,
    equal: Result<bool, CompareError>,
    left_bytes: Result<Vec<u8>, String>,
    right_bytes: Result<Vec<u8>, String>,
    options: &FileCompareOptions,
) -> (r: Result<FileDiff, CompareError>)
    ensures
        match (left_meta, right_meta) {
            (Err(m), _) => r matches Err(e) && error_is(e, left_path@, (CompareErrorKind::Io, m@)),
            (Ok(_), Err(m)) => r matches Err(e) && error_is(e, right_path@, (CompareErrorKind::Io, m@)),
            (Ok((lf, ln)), Ok((rf, rn))) => if !(lf && rf) {
                r matches Err(e) && e.kind == CompareErrorKind::InvalidPath && e.path is None
                    && e.message@ == "file comparison requires two regular files"@
            } else {
                match equal {
                    Err(e0) => r == Err::<FileDiff, CompareError>(e0),
                    Ok(eq) => if ln > options.text_size_limit || rn > options.text_size_limit {
                        r matches Ok(f) && f.kind == FileDiffKind::TooLarge && f.equal == eq && f.text is None
                    } else {
                        match (left_bytes, right_bytes) {
                            (Err(m), _) => r matches Err(e) && error_is(e, left_path@, (CompareErrorKind::Io, m@)),
                            (Ok(_), Err(m)) => r matches Err(e) && error_is(e, right_path@, (CompareErrorKind::Io, m@)),
                            (Ok(lb), Ok(rb)) => r matches Ok(f) && bytes_file_diff(f, lb@, rb@, eq, *options),
                        }
                    },
                }
            },
        },
{
    let (left_is_file, left_len) = match left_meta {
        Err(m) => {
            return Err(CompareError::io(left_path, m.as_str()));
        },
        Ok(v) => v,
    };
    let (right_is_file, right_len) = match right_meta {
        Err(m) => {
            return Err(CompareError::io(right_path, m.as_str()));
        },
        Ok(v) => v,
    };
    check_regular_files(left_is_file, right_is_file)?;
    let eq = equal?;
    match size_verdict(left_len, right_len, options, eq) {
        Some(d) => {
            return Ok(d);
        },
        None => {},
    }
    let lb = match left_bytes {
        Err(m) => {
            return Err(CompareError::io(left_path, m.as_str()));
        },
        Ok(b) => b,
    };
    let rb = match right_bytes {
        Err(m) => {
            return Err(CompareError::io(right_path, m.as_str()));
        },
        Ok(b) => b,
    };
    Ok(file_diff_from_bytes(left_path, lb.as_slice(), right_path, rb.as_slice(), eq, options))
}

} // verus!
