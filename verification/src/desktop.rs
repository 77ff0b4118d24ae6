//! The rules of the desktop shell around the comparison core: where its
//! window may navigate, the names under which results reach its page, and
//! which files its page may edit.
use vstd::prelude::*;
use vstd::utf8::{decode_utf8, valid_utf8};
use crate::compare::{FileCompareOptions, FileDiffKind, HunkKind, DEFAULT_BUFFER_SIZE, DEFAULT_TEXT_SIZE_LIMIT};
use crate::directory::{DirectoryEntryKind, DirectoryEntryState};
use crate::error::{describe_of, path_view};
use crate::files::strip_utf8_bom;
use crate::save::LineEnding;
use crate::text::chars_of;

verus! {

/// The parts of a URL that the navigation rule reads.
pub struct UrlParts {
    pub scheme: String,
    pub host: Option<String>,
    pub port: Option<u16>,
}

/// A URL's parts as plain values.
pub type UrlView = (Seq<char>, Option<Seq<char>>, Option<u16>);

impl View for UrlParts {
    type V = UrlView;

    open spec fn view(&self) -> UrlView {
        (self.scheme@, path_view(self.host), self.port)
    }
}

/// The scheme, host and port that `url::Url::parse` finds in a text, or
/// `None` where it refuses the text.
pub uninterp spec fn parsed_url(text: Seq<char>) -> Option<UrlView>;

/// Parses a URL with `url::Url::parse` and keeps its scheme, host and
/// explicit port. What the parser makes of a text (normalised case,
/// default ports dropped) is left to the name `parsed_url`.
#[verifier::external_body]
fn parse_url(text: &str) -> (r: Option<UrlParts>)
    ensures
        r matches Some(u) ==> parsed_url(text@) == Some(u@),
        r is None ==> parsed_url(text@) is None,
{
    match url::Url::parse(text) {
        Ok(u) => Some(UrlParts { scheme: u.scheme().to_owned(), host: u.host_str().map(str::to_owned), port: u.port() }),
        Err(_) => None,
    }
}

/// The window may show the app's own pages only: the `tauri://localhost`
/// origin and `tauri.localhost` over HTTP or HTTPS; a development build may
/// also show its dev server at `http://127.0.0.1:1420`.
pub open spec fn navigation_allowed(u: UrlView, dev_server: bool) -> bool {
    ||| u.0 == "tauri"@ && u.1 == Some("localhost"@)
    ||| (u.0 == "http"@ || u.0 == "https"@) && u.1 == Some("tauri.localhost"@)
    ||| dev_server && u.0 == "http"@ && u.1 == Some("127.0.0.1"@) && u.2 == Some(1420u16)
}

/// Whether two texts are equal.
fn same_text(a: &str, b: &str) -> (same: bool)
    ensures
        same == (a@ == b@),
{
    let x = chars_of(a);
    let y = chars_of(b);
    if x.len() != y.len() {
        return false;
    }
    let mut i: usize = 0;
    while i < x.len()
        invariant
            i <= x.len() == y.len(),
            x@ == a@,
            y@ == b@,
            forall|j: int| 0 <= j < i ==> x@[j] == y@[j],
        decreases x.len() - i,
    {
        if x[i] != y[i] {
            assert(x@[i as int] != y@[i as int]);
            return false;
        }
        i = i + 1;
    }
    assert(x@ =~= y@);
    true
}

/// Whether a host is present and equal to `name`.
fn host_is(host: &Option<String>, name: &str) -> (b: bool)
    ensures
        b == (path_view(*host) == Some(name@)),
{
    match host {
        Some(h) => same_text(h.as_str(), name),
        None => false,
    }
}

/// Whether the window may navigate to `url`; `dev_server` says whether this
/// is a development build, whose dev server is allowed too.
pub fn allows_offline_navigation(url: &UrlParts, dev_server: bool) -> (b: bool)
    ensures
        b == navigation_allowed(url@, dev_server),
{
    let scheme = url.scheme.as_str();
    if same_text(scheme, "tauri") && host_is(&url.host, "localhost") {
        return true;
    }
    if (same_text(scheme, "http") || same_text(scheme, "https")) && host_is(&url.host, "tauri.localhost") {
        return true;
    }
    dev_server && same_text(scheme, "http") && host_is(&url.host, "127.0.0.1") && url.port == Some(1420u16)
}

/// Whether the window may navigate to the URL written `text`: never where
/// the text is no URL.
pub fn allows_navigation_to(text: &str, dev_server: bool) -> (b: bool)
    ensures
        b == match parsed_url(text@) {
            Some(u) => navigation_allowed(u, dev_server),
            None => false,
        },
{
    match parse_url(text) {
        Some(u) => allows_offline_navigation(&u, dev_server),
        None => false,
    }
}

/// The line ending that the page names `name`: `Lf` or `CrLf`.
pub fn line_ending_named(name: &str) -> (r: Result<LineEnding, String>)
    ensures
        name@ == "Lf"@ ==> r == Ok::<LineEnding, String>(LineEnding::Lf),
        name@ == "CrLf"@ ==> r == Ok::<LineEnding, String>(LineEnding::Crlf),
        name@ != "Lf"@ && name@ != "CrLf"@ ==> (r matches Err(e) && e@ == "Unsupported line ending"@),
{
    proof {
        reveal_strlit("Lf");
        reveal_strlit("CrLf");
        assert("Lf"@.len() != "CrLf"@.len());
    }
    if same_text(name, "Lf") {
        Ok(LineEnding::Lf)
    } else if same_text(name, "CrLf") {
        Ok(LineEnding::Crlf)
    } else {
        Err("Unsupported line ending".to_owned())
    }
}

/// The comparison options that the page asks for; the rest default.
pub fn file_options(ignore_whitespace: bool, ignore_line_endings: bool) -> (o: FileCompareOptions)
    ensures
        o.ignore_whitespace == ignore_whitespace,
        o.ignore_line_endings == ignore_line_endings,
        o.text_size_limit == DEFAULT_TEXT_SIZE_LIMIT,
        o.buffer_size == DEFAULT_BUFFER_SIZE,
{
    FileCompareOptions {
        text_size_limit: DEFAULT_TEXT_SIZE_LIMIT,
        buffer_size: DEFAULT_BUFFER_SIZE,
        ignore_line_endings,
        ignore_whitespace,
    }
}

/// The name under which a hunk's kind reaches the page.
pub fn hunk_kind_name(kind: HunkKind) -> (s: &'static str)
    ensures
        s@ == match kind {
            HunkKind::Added => "Added"@,
            HunkKind::Removed => "Removed"@,
            HunkKind::Changed => "Changed"@,
        },
{
    match kind {
        HunkKind::Added => "Added",
        HunkKind::Removed => "Removed",
        HunkKind::Changed => "Changed",
    }
}

/// The name under which a file comparison's kind reaches the page.
pub fn file_kind_name(kind: FileDiffKind) -> (s: &'static str)
    ensures
        s@ == match kind {
            FileDiffKind::Text => "Text"@,
            FileDiffKind::Binary => "Binary"@,
            FileDiffKind::TooLarge => "TooLarge"@,
        },
{
    match kind {
        FileDiffKind::Text => "Text",
        FileDiffKind::Binary => "Binary",
        FileDiffKind::TooLarge => "TooLarge",
    }
}

/// The name under which a directory entry's kind reaches the page.
pub fn entry_kind_name(kind: DirectoryEntryKind) -> (s: &'static str)
    ensures
        s@ == match kind {
            DirectoryEntryKind::File => "File"@,
            DirectoryEntryKind::Directory => "Directory"@,
            DirectoryEntryKind::Symlink => "Symlink"@,
            DirectoryEntryKind::Other => "Other"@,
        },
{
    match kind {
        DirectoryEntryKind::File => "File",
        DirectoryEntryKind::Directory => "Directory",
        DirectoryEntryKind::Symlink => "Symlink",
        DirectoryEntryKind::Other => "Other",
    }
}

/// The name under which a directory entry's state reaches the page, and
/// the text of its error where it has one.
pub fn entry_state_name(state: &DirectoryEntryState) -> (r: (&'static str, Option<String>))
    ensures
        r.0@ == match *state {
            DirectoryEntryState::Same => "Same"@,
            DirectoryEntryState::Different => "Different"@,
            DirectoryEntryState::LeftOnly => "LeftOnly"@,
            DirectoryEntryState::RightOnly => "RightOnly"@,
            DirectoryEntryState::TypeMismatch => "TypeMismatch"@,
            DirectoryEntryState::Error(_) => "Error"@,
        },
        path_view(r.1) == match *state {
            DirectoryEntryState::Error(e) => Some(describe_of(path_view(e.path), e.message@)),
            _ => None,
        },
{
    match state {
        DirectoryEntryState::Same => ("Same", None),
        DirectoryEntryState::Different => ("Different", None),
        DirectoryEntryState::LeftOnly => ("LeftOnly", None),
        DirectoryEntryState::RightOnly => ("RightOnly", None),
        DirectoryEntryState::TypeMismatch => ("TypeMismatch", None),
        DirectoryEntryState::Error(e) => ("Error", Some(e.describe())),
    }
}

/// Why the page may not edit a file.
#[derive(Clone, Copy, Debug, PartialEq, Eq, Structural)]
pub enum EditRefusal {
    /// The file is larger than the text size limit.
    TooLarge,
    /// The file is over the limit as read, or holds a zero byte.
    NotEditable,
    /// The bytes after a leading byte order mark are not UTF-8.
    NotUtf8,
}

/// The text that the page may edit, from a file's size and bytes: refused
/// where the size is over the text limit, where the bytes are over it or
/// hold a zero byte, or where they are not UTF-8 once a leading byte order
/// mark is dropped.
pub open spec fn editable_text_of(size: u64, bytes: Seq<u8>) -> Result<Seq<char>, EditRefusal> {
    if size > DEFAULT_TEXT_SIZE_LIMIT {
        Err(EditRefusal::TooLarge)
    } else if bytes.len() > DEFAULT_TEXT_SIZE_LIMIT || bytes.contains(0u8) {
        Err(EditRefusal::NotEditable)
    } else if !valid_utf8(strip_utf8_bom(bytes)) {
        Err(EditRefusal::NotUtf8)
    } else {
        Ok(decode_utf8(strip_utf8_bom(bytes)))
    }
}

/// The text of a file that the page may edit, from the size that the file
/// system reports and the bytes that reading it gave.
pub fn editable_text(size: u64, bytes: &[u8]) -> (r: Result<String, EditRefusal>)
    ensures
        match editable_text_of(size, bytes@) {
            Ok(t) => r matches Ok(s) && s@ == t,
            Err(e) => r == Err::<String, EditRefusal>(e),
        },
{
    if size > DEFAULT_TEXT_SIZE_LIMIT {
        return Err(EditRefusal::TooLarge);
    }
    let mut i: usize = 0;
    let mut zero = false;
    while i < bytes.len()
        invariant
            i <= bytes.len(),
            zero == exists|j: int| 0 <= j < i && bytes@[j] == 0u8,
        decreases bytes.len() - i,
    {
        if bytes[i] == 0 {
            zero = true;
        }
        i = i + 1;
    }
    assert(zero == bytes@.contains(0u8));
    if bytes.len() as u64 > DEFAULT_TEXT_SIZE_LIMIT || zero {
        return Err(EditRefusal::NotEditable);
    }
    match crate::files::decode_text("", bytes) {
        Ok(s) => Ok(s),
        Err(_) => Err(EditRefusal::NotUtf8),
    }
}

} // verus!
