//! Saving text safely: the requested line endings, and the decisions of a
//! save that writes a temporary file, moves an existing destination aside,
//! puts the new file in place and restores the old one on failure.
use vstd::prelude::*;
use crate::error::{is_io_error, CompareError, CompareErrorKind};
use crate::text::{chars_of, string_of};

verus! {

/// The line ending that a saved text uses.
#[derive(Clone, Copy, Debug, PartialEq, Eq, Structural)]
pub enum LineEnding {
    Lf,
    Crlf,
}

/// How a text is saved: whether an existing file may be replaced, and the
/// line ending to write.
#[derive(Clone, Debug)]
pub struct SaveOptions {
    pub overwrite: bool,
    pub line_ending: LineEnding,
}

impl Default for SaveOptions {
    fn default() -> (o: Self)
        ensures
            !o.overwrite,
            o.line_ending == LineEnding::Lf,
    {
        SaveOptions { overwrite: false, line_ending: LineEnding::Lf }
    }
}

/// `s` with each CR LF pair, taken from left to right, turned into LF, as
/// `s.replace("\r\n", "\n")` gives it.
pub open spec fn crlf_to_lf(s: Seq<char>) -> Seq<char>
    decreases s.len(),
{
    if s.len() == 0 {
        s
    } else if s.len() > 1 && s[0] == '\r' && s[1] == '\n' {
        seq!['\n'] + crlf_to_lf(s.skip(2))
    } else {
        seq![s[0]] + crlf_to_lf(s.skip(1))
    }
}

/// `s` with each LF turned into CR LF, as `s.replace('\n', "\r\n")` gives it.
pub open spec fn lf_to_crlf(s: Seq<char>) -> Seq<char>
    decreases s.len(),
{
    if s.len() == 0 {
        s
    } else if s[0] == '\n' {
        seq!['\r', '\n'] + lf_to_crlf(s.skip(1))
    } else {
        seq![s[0]] + lf_to_crlf(s.skip(1))
    }
}

/// The text that saving `contents` with a line ending writes.
pub open spec fn rendered_for_save(contents: Seq<char>, ending: LineEnding) -> Seq<char> {
    match ending {
        LineEnding::Lf => crlf_to_lf(contents),
        LineEnding::Crlf => lf_to_crlf(crlf_to_lf(contents)),
    }
}

fn crlf_to_lf_chars(s: &[char]) -> (r: Vec<char>)
    ensures
        r@ == crlf_to_lf(s@),
{
    let mut r: Vec<char> = Vec::new();
    let mut i: usize = 0;
    assert(s@.skip(0) == s@);
    while i < s.len()
        invariant
            i <= s.len(),
            r@ + crlf_to_lf(s@.skip(i as int)) == crlf_to_lf(s@),
        decreases s.len() - i,
    {
        let ghost rest = s@.skip(i as int);
        if s[i] == '\r' && i + 1 < s.len() && s[i + 1] == '\n' {
            r.push('\n');
            assert(rest.skip(2) == s@.skip(i + 2));
            i = i + 2;
        } else {
            r.push(s[i]);
            assert(rest.skip(1) == s@.skip(i + 1));
            i = i + 1;
        }
    }
    assert(s@.skip(s.len() as int) == Seq::<char>::empty());
    r
}

fn lf_to_crlf_chars(s: &[char]) -> (r: Vec<char>)
    ensures
        r@ == lf_to_crlf(s@),
{
    let mut r: Vec<char> = Vec::new();
    let mut i: usize = 0;
    assert(s@.skip(0) == s@);
    while i < s.len()
        invariant
            i <= s.len(),
            r@ + lf_to_crlf(s@.skip(i as int)) == lf_to_crlf(s@),
        decreases s.len() - i,
    {
        let ghost rest = s@.skip(i as int);
        if s[i] == '\n' {
            r.push('\r');
            r.push('\n');
        } else {
            r.push(s[i]);
        }
        assert(rest.skip(1) == s@.skip(i + 1));
        i = i + 1;
    }
    assert(s@.skip(s.len() as int) == Seq::<char>::empty());
    r
}

/// The text that saving `contents` with a line ending writes: CR LF pairs
/// become LF, and for CR LF endings every LF then becomes CR LF.
pub fn render_for_save(contents: &str, ending: LineEnding) -> (r: String)
    ensures
        r@ == rendered_for_save(contents@, ending),
{
    let chars = chars_of(contents);
    let lf = crlf_to_lf_chars(chars.as_slice());
    match ending {
        LineEnding::Lf => string_of(lf.as_slice()),
        LineEnding::Crlf => {
            let crlf = lf_to_crlf_chars(lf.as_slice());
            string_of(crlf.as_slice())
        },
    }
}

/// Turning LF into CR LF and CR LF back into LF gives the text back.
pub proof fn lemma_crlf_round_trip(s: Seq<char>)
    ensures
        crlf_to_lf(lf_to_crlf(s)) == s,
    decreases s.len(),
{
    if s.len() > 0 {
        lemma_crlf_round_trip(s.skip(1));
        let t = lf_to_crlf(s);
        if s[0] == '\n' {
            assert(t.skip(2) =~= lf_to_crlf(s.skip(1)));
            assert(crlf_to_lf(t) =~= seq!['\n'] + s.skip(1));
        } else {
            assert(t.skip(1) =~= lf_to_crlf(s.skip(1)));
            if s[0] == '\r' && t.len() > 1 && t[1] == '\n' {
                // an inserted CR comes before every LF, so a CR of the text is
                // followed by a CR, never by an LF
                assert(t[1] == lf_to_crlf(s.skip(1))[0]);
                if s.skip(1)[0] == '\n' {
                    assert(lf_to_crlf(s.skip(1))[0] == '\r');
                } else {
                    assert(lf_to_crlf(s.skip(1))[0] == s.skip(1)[0]);
                }
            }
            assert(crlf_to_lf(t) =~= seq![s[0]] + s.skip(1));
        }
    }
}

/// Every LF that `lf_to_crlf` writes follows a CR, and its output never
/// starts with an LF.
proof fn lemma_lf_to_crlf_pairs(s: Seq<char>)
    ensures
        lf_to_crlf(s).len() > 0 ==> lf_to_crlf(s)[0] != '\n',
        forall|i: int| 0 <= i < lf_to_crlf(s).len() && #[trigger] lf_to_crlf(s)[i] == '\n' ==> i > 0 && lf_to_crlf(s)[i - 1] == '\r',
    decreases s.len(),
{
    if s.len() > 0 {
        let rest = s.skip(1);
        lemma_lf_to_crlf_pairs(rest);
        let head: Seq<char> = if s[0] == '\n' { seq!['\r', '\n'] } else { seq![s[0]] };
        let t = lf_to_crlf(s);
        assert(t == head + lf_to_crlf(rest));
        assert forall|i: int| 0 <= i < t.len() && #[trigger] t[i] == '\n' implies i > 0 && t[i - 1] == '\r' by {
            if i >= head.len() {
                let j = i - head.len();
                assert(lf_to_crlf(rest)[j] == '\n');
                if j > 0 {
                    assert(t[i - 1] == lf_to_crlf(rest)[j - 1]);
                }
            }
        }
    }
}

/// A text saved with CR LF endings has a CR before every LF.
pub proof fn lemma_crlf_rendering_pairs(contents: Seq<char>)
    ensures
        forall|i: int|
            0 <= i < rendered_for_save(contents, LineEnding::Crlf).len()
                && #[trigger] rendered_for_save(contents, LineEnding::Crlf)[i] == '\n' ==> i > 0
                && rendered_for_save(contents, LineEnding::Crlf)[i - 1] == '\r',
{
    lemma_lf_to_crlf_pairs(crlf_to_lf(contents));
}

/// Saving with CR LF endings twice writes what saving once writes, and
/// saving CR LF output with LF endings writes the LF rendering.
pub proof fn lemma_crlf_rendering_stable(contents: Seq<char>)
    ensures
        rendered_for_save(rendered_for_save(contents, LineEnding::Crlf), LineEnding::Crlf)
            == rendered_for_save(contents, LineEnding::Crlf),
        rendered_for_save(rendered_for_save(contents, LineEnding::Crlf), LineEnding::Lf)
            == rendered_for_save(contents, LineEnding::Lf),
{
    lemma_crlf_round_trip(crlf_to_lf(contents));
}

/// The decimal digits of `n`.
pub open spec fn decimal128_of(n: nat) -> Seq<char>
    decreases n,
{
    if n < 10 {
        seq![crate::files::digit_char(n)]
    } else {
        decimal128_of(n / 10).push(crate::files::digit_char(n % 10))
    }
}

fn digit128(d: u128) -> (c: char)
    requires
        d < 10,
    ensures
        c == crate::files::digit_char(d as nat),
{
    if d == 0 { '0' } else if d == 1 { '1' } else if d == 2 { '2' } else if d == 3 { '3' }
    else if d == 4 { '4' } else if d == 5 { '5' } else if d == 6 { '6' } else if d == 7 { '7' }
    else if d == 8 { '8' } else { '9' }
}

/// The name of the temporary file (`tmp`) or of the backup (`backup`) that
/// saving a file called `name` at time `stamp` uses: `.NAME.versus-STAMP.SUFFIX`.
pub open spec fn side_file_name(name: Seq<char>, stamp: nat, suffix: Seq<char>) -> Seq<char> {
    seq!['.'] + name + ".versus-"@ + decimal128_of(stamp) + seq!['.'] + suffix
}

/// The name of a side file of a save.
pub fn side_file(name: &str, stamp: u128, backup: bool) -> (s: String)
    ensures
        s@ == side_file_name(name@, stamp as nat, if backup { "backup"@ } else { "tmp"@ }),
{
    let mut digits: Vec<char> = Vec::new();
    let mut m: u128 = stamp;
    while m >= 10
        invariant
            decimal128_of(stamp as nat) == decimal128_of(m as nat) + digits@,
        decreases m,
    {
        let ghost before = digits@;
        digits.insert(0, digit128(m % 10));
        assert(digits@ =~= seq![crate::files::digit_char((m % 10) as nat)] + before);
        assert(decimal128_of(m as nat) + before =~= decimal128_of((m / 10) as nat) + digits@);
        m = m / 10;
    }
    let ghost before = digits@;
    digits.insert(0, digit128(m));
    assert(digits@ =~= seq![crate::files::digit_char(m as nat)] + before);
    let number = string_of(digits.as_slice());
    let mut s = ".".to_owned();
    s.append(name);
    s.append(".versus-");
    s.append(number.as_str());
    s.append(".");
    if backup {
        s.append("backup");
    } else {
        s.append("tmp");
    }
    proof {
        reveal_strlit(".");
    }
    assert(s@ =~= side_file_name(name@, stamp as nat, if backup { "backup"@ } else { "tmp"@ }));
    s
}

/// The checks before a save writes anything: the destination must be
/// checkable, must not exist unless overwriting is allowed, and must have a
/// parent directory. `exists` is whether the destination exists, without
/// following a link, or the message of the error that checking gave.
pub fn check_save_destination(path: &str, exists: Result<bool, String>, has_parent: bool, options: &SaveOptions) -> (r: Result<(), CompareError>)
    ensures
        r is Ok <==> (exists matches Ok(e) && (!e || options.overwrite) && has_parent),
        exists matches Err(m) ==> (r matches Err(e) && e.kind == CompareErrorKind::Io && e.message@ == m@),
        exists == Ok::<bool, String>(true) && !options.overwrite ==> (r matches Err(e) && e.kind == CompareErrorKind::Io
            && e.message@ == "destination already exists; explicit overwrite is required"@),
        exists matches Ok(e) && (!e || options.overwrite) && !has_parent ==> (r matches Err(e)
            && e.kind == CompareErrorKind::InvalidPath && e.message@ == "destination has no parent directory"@),
        r matches Err(e) ==> (e.path matches Some(p) && p@ == path@),
{
    match exists {
        Err(message) => Err(CompareError::io(path, message.as_str())),
        Ok(true) if !options.overwrite => Err(
            CompareError {
                path: Some(path.to_owned()),
                kind: CompareErrorKind::Io,
                message: "destination already exists; explicit overwrite is required".to_owned(),
            },
        ),
        Ok(_) => {
            if has_parent {
                Ok(())
            } else {
                Err(
                    CompareError {
                        path: Some(path.to_owned()),
                        kind: CompareErrorKind::InvalidPath,
                        message: "destination has no parent directory".to_owned(),
                    },
                )
            }
        },
    }
}

/// Where a save stands.
#[derive(Clone, Copy, Debug, PartialEq, Eq, Structural)]
pub enum SaveStage {
    Writing,
    Rechecking,
    BackingUp,
    Replacing,
    Restoring,
    Cleaning,
    Over,
}

/// What the program around the library does next for a save.
#[derive(Debug)]
pub enum SaveAction {
    /// Create the temporary file (failing if it exists), write the rendered
    /// text to it and sync it.
    WriteTemporary,
    /// Check whether the destination exists, without following a link.
    CheckDestination,
    /// Move the existing destination to the backup file.
    BackUpDestination,
    /// Move the temporary file to the destination.
    ReplaceDestination,
    /// Move the backup back to the destination.
    RestoreBackup,
    /// Remove the backup, ignoring a failure; the new file is in place.
    RemoveBackup,
    /// Remove the temporary file, ignoring a failure, and report the error.
    Abort(CompareError),
    /// The save is complete.
    Complete,
}

/// What performing an action gave.
#[derive(Debug)]
pub enum SaveEvent {
    /// The action succeeded.
    Done,
    /// The action failed with this message.
    Failed(String),
    /// The check found the destination present or not.
    Exists(bool),
}

/// A save under way.
#[derive(Debug)]
pub struct SaveProcess {
    pub path: String,
    pub temporary: String,
    pub backup: String,
    pub overwrite: bool,
    pub had_destination: bool,
    pub stage: SaveStage,
    pub replace_error: String,
}

/// The event fits the stage: a check answers with presence or failure, the
/// other stages with success or failure.
pub open spec fn event_fits(stage: SaveStage, event: SaveEvent) -> bool {
    match stage {
        SaveStage::Rechecking => event is Exists || event is Failed,
        SaveStage::Over => false,
        _ => event is Done || event is Failed,
    }
}

impl SaveProcess {
    /// Only a save that found a destination to replace backs it up, cleans
    /// its backup or restores it.
    pub open spec fn wf(self) -> bool {
        (self.stage == SaveStage::BackingUp || self.stage == SaveStage::Restoring || self.stage == SaveStage::Cleaning)
            ==> self.had_destination
    }

    /// Starts a save to `path` through the given temporary and backup files;
    /// the first action writes the temporary file.
    pub fn start(path: &str, temporary: &str, backup: &str, options: &SaveOptions) -> (r: (SaveProcess, SaveAction))
        ensures
            r.0.wf(),
            r.0.stage == SaveStage::Writing,
            r.0.path@ == path@,
            r.0.temporary@ == temporary@,
            r.0.backup@ == backup@,
            r.0.overwrite == options.overwrite,
            !r.0.had_destination,
            r.1 is WriteTemporary,
    {
        (
            SaveProcess {
                path: path.to_owned(),
                temporary: temporary.to_owned(),
                backup: backup.to_owned(),
                overwrite: options.overwrite,
                had_destination: false,
                stage: SaveStage::Writing,
                replace_error: String::new(),
            },
            SaveAction::WriteTemporary,
        )
    }

    fn abort(&mut self, error: CompareError) -> (a: SaveAction)
        ensures
            final(self).stage == SaveStage::Over,
            final(self).path == old(self).path,
            final(self).temporary == old(self).temporary,
            final(self).backup == old(self).backup,
            final(self).overwrite == old(self).overwrite,
            final(self).had_destination == old(self).had_destination,
            a == SaveAction::Abort(error),
    {
        self.stage = SaveStage::Over;
        SaveAction::Abort(error)
    }

    /// The next action after an event. A failure before the new file is in
    /// place removes the temporary file and reports the error; a destination
    /// that appeared while writing is replaced only with overwriting allowed;
    /// an existing destination is moved to the backup before the temporary
    /// file takes its place, and moved back if that fails.
    pub fn step(&mut self, event: SaveEvent) -> (a: SaveAction)
        requires
            old(self).wf(),
            event_fits(old(self).stage, event),
        ensures
            final(self).wf(),
            final(self).path == old(self).path,
            final(self).temporary == old(self).temporary,
            final(self).backup == old(self).backup,
            final(self).overwrite == old(self).overwrite,
            a is BackUpDestination ==> final(self).overwrite && final(self).had_destination,
            a is ReplaceDestination ==> (old(self).stage == SaveStage::Rechecking || old(self).stage == SaveStage::BackingUp)
                && (final(self).had_destination ==> old(self).stage == SaveStage::BackingUp),
            match (old(self).stage, event) {
                (SaveStage::Writing, SaveEvent::Done) => a is CheckDestination && final(self).stage == SaveStage::Rechecking,
                (SaveStage::Writing, SaveEvent::Failed(m)) => a matches SaveAction::Abort(e)
                    && is_io_error(e, old(self).temporary@, m@),
                (SaveStage::Rechecking, SaveEvent::Exists(true)) => if old(self).overwrite {
                    a is BackUpDestination && final(self).stage == SaveStage::BackingUp && final(self).had_destination
                } else {
                    a matches SaveAction::Abort(e) && is_io_error(e, old(self).path@,
                        "destination appeared while saving; explicit overwrite is required"@)
                },
                (SaveStage::Rechecking, SaveEvent::Exists(false)) => a is ReplaceDestination
                    && final(self).stage == SaveStage::Replacing && !final(self).had_destination,
                (SaveStage::Rechecking, SaveEvent::Failed(m)) => a matches SaveAction::Abort(e)
                    && is_io_error(e, old(self).path@, m@),
                (SaveStage::BackingUp, SaveEvent::Done) => a is ReplaceDestination && final(self).stage == SaveStage::Replacing
                    && final(self).had_destination,
                (SaveStage::BackingUp, SaveEvent::Failed(m)) => a matches SaveAction::Abort(e)
                    && is_io_error(e, old(self).path@, m@),
                (SaveStage::Replacing, SaveEvent::Done) => if old(self).had_destination {
                    a is RemoveBackup && final(self).stage == SaveStage::Cleaning
                } else {
                    a is Complete && final(self).stage == SaveStage::Over
                },
                (SaveStage::Replacing, SaveEvent::Failed(m)) => if old(self).had_destination {
                    a is RestoreBackup && final(self).stage == SaveStage::Restoring && final(self).replace_error@ == m@
                } else {
                    a matches SaveAction::Abort(e) && is_io_error(e, old(self).path@, m@)
                },
                (SaveStage::Restoring, SaveEvent::Done) => a matches SaveAction::Abort(e)
                    && is_io_error(e, old(self).path@, old(self).replace_error@),
                (SaveStage::Restoring, SaveEvent::Failed(m)) => a matches SaveAction::Abort(e)
                    && is_io_error(e, old(self).backup@, "failed to replace destination ("@ + old(self).replace_error@
                        + ") and restore backup ("@ + m@ + ")"@),
                (SaveStage::Cleaning, _) => a is Complete && final(self).stage == SaveStage::Over,
                _ => true,
            },
    {
        match (self.stage, event) {
            (SaveStage::Writing, SaveEvent::Done) => {
                self.stage = SaveStage::Rechecking;
                SaveAction::CheckDestination
            },
            (SaveStage::Writing, SaveEvent::Failed(m)) => {
                let e = CompareError::io(self.temporary.as_str(), m.as_str());
                self.abort(e)
            },
            (SaveStage::Rechecking, SaveEvent::Exists(exists)) => {
                if exists && !self.overwrite {
                    let e = CompareError {
                        path: Some(self.path.clone()),
                        kind: CompareErrorKind::Io,
                        message: "destination appeared while saving; explicit overwrite is required".to_owned(),
                    };
                    self.abort(e)
                } else if exists {
                    self.had_destination = true;
                    self.stage = SaveStage::BackingUp;
                    SaveAction::BackUpDestination
                } else {
                    self.had_destination = false;
                    self.stage = SaveStage::Replacing;
                    SaveAction::ReplaceDestination
                }
            },
            (SaveStage::Rechecking, SaveEvent::Failed(m)) => {
                let e = CompareError::io(self.path.as_str(), m.as_str());
                self.abort(e)
            },
            (SaveStage::BackingUp, SaveEvent::Done) => {
                self.stage = SaveStage::Replacing;
                SaveAction::ReplaceDestination
            },
            (SaveStage::BackingUp, SaveEvent::Failed(m)) => {
                let e = CompareError::io(self.path.as_str(), m.as_str());
                self.abort(e)
            },
            (SaveStage::Replacing, SaveEvent::Done) => {
                if self.had_destination {
                    self.stage = SaveStage::Cleaning;
                    SaveAction::RemoveBackup
                } else {
                    self.stage = SaveStage::Over;
                    SaveAction::Complete
                }
            },
            (SaveStage::Replacing, SaveEvent::Failed(m)) => {
                if self.had_destination {
                    self.replace_error = m;
                    self.stage = SaveStage::Restoring;
                    SaveAction::RestoreBackup
                } else {
                    let e = CompareError::io(self.path.as_str(), m.as_str());
                    self.abort(e)
                }
            },
            (SaveStage::Restoring, SaveEvent::Done) => {
                let e = CompareError::io(self.path.as_str(), self.replace_error.as_str());
                self.abort(e)
            },
            (SaveStage::Restoring, SaveEvent::Failed(m)) => {
                let mut message = "failed to replace destination (".to_owned();
                message.append(self.replace_error.as_str());
                message.append(") and restore backup (");
                message.append(m.as_str());
                message.append(")");
                let e = CompareError {
                    path: Some(self.backup.clone()),
                    kind: CompareErrorKind::Io,
                    message,
                };
                self.abort(e)
            },
            (SaveStage::Cleaning, _) => {
                self.stage = SaveStage::Over;
                SaveAction::Complete
            },
            (_, _) => {
                self.stage = SaveStage::Over;
                SaveAction::Complete
            },
        }
    }
}

} // verus!
