//! The error that comparison, merge and save operations report.
use vstd::prelude::*;

verus! {

/// What went wrong.
#[derive(Clone, Copy, Debug, PartialEq, Eq, Structural)]
pub enum CompareErrorKind {
    Io,
    InvalidPath,
    NotDirectory,
    InvalidText,
    TooLarge,
    Cancelled,
}

/// An error, with the path it concerns where there is one. Paths are held as
/// the text that the program displays for them.
#[derive(Debug, PartialEq, Eq)]
pub struct CompareError {
    pub path: Option<String>,
    pub kind: CompareErrorKind,
    pub message: String,
}

impl Clone for CompareError {
    fn clone(&self) -> (c: Self)
        ensures
            c == *self,
    {
        CompareError {
            path: match &self.path {
                Some(p) => Some(p.clone()),
                None => None,
            },
            kind: self.kind,
            message: self.message.clone(),
        }
    }
}

/// The text of an error as it is shown: the path, a colon and a space, then
/// the message; or the message alone where there is no path.
pub open spec fn describe_of(path: Option<Seq<char>>, message: Seq<char>) -> Seq<char> {
    match path {
        Some(p) => p + seq![':', ' '] + message,
        None => message,
    }
}

/// The path of an error, by its view.
pub open spec fn path_view(path: Option<String>) -> Option<Seq<char>> {
    match path {
        Some(p) => Some(p@),
        None => None,
    }
}

/// An input/output error on `path` with `message`.
pub open spec fn is_io_error(e: CompareError, path: Seq<char>, message: Seq<char>) -> bool {
    &&& e.kind == CompareErrorKind::Io
    &&& path_view(e.path) == Some(path)
    &&& e.message@ == message
}

impl CompareError {
    /// An input/output error on `path`, with the message that the system
    /// error gave.
    pub fn io(path: &str, message: &str) -> (e: CompareError)
        ensures
            e.kind == CompareErrorKind::Io,
            e.path matches Some(p) && p@ == path@,
            e.message@ == message@,
    {
        CompareError {
            path: Some(path.to_owned()),
            kind: CompareErrorKind::Io,
            message: message.to_owned(),
        }
    }

    /// The error for a file whose bytes are not UTF-8 text.
    pub fn invalid_text(path: &str) -> (e: CompareError)
        ensures
            e.kind == CompareErrorKind::InvalidText,
            e.path matches Some(p) && p@ == path@,
            e.message@ == "file is not valid UTF-8 text"@,
    {
        CompareError {
            path: Some(path.to_owned()),
            kind: CompareErrorKind::InvalidText,
            message: "file is not valid UTF-8 text".to_owned(),
        }
    }

    /// The text that displaying the error shows.
    pub fn describe(&self) -> (s: String)
        ensures
            s@ == describe_of(path_view(self.path), self.message@),
    {
        match &self.path {
            Some(p) => {
                let mut s = p.clone();
                s.append(": ");
                s.append(self.message.as_str());
                proof {
                    reveal_strlit(": ");
                }
                assert(s@ =~= p@ + seq![':', ' '] + self.message@);
                s
            },
            None => self.message.clone(),
        }
    }
}

} // verus!
