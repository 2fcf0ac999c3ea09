//! Where the database is first filled from when the application starts
//! with data files from before it, and what the user is told about it.
use vstd::prelude::*;
use vstd::string::{StrSliceExecFns, StringExecFns};
use crate::text::{nat_decimal, push_u128_decimal};

verus! {

/// The path of the backup kept beside a data file: the file's path with
/// `.bak` appended.
pub fn backup_path(path: &str) -> (r: String)
    ensures
        r@ == path@ + ".bak"@,
{
    let mut r = path.to_string();
    r.append(".bak");
    r
}

/// The path an unreadable data file is moved to: its path, `.corrupt-` and
/// the time in milliseconds.
pub fn quarantine_path(path: &str, timestamp: u128) -> (r: String)
    ensures
        r@ == path@ + ".corrupt-"@ + nat_decimal(timestamp as nat),
{
    let mut r = path.to_string();
    r.append(".corrupt-");
    push_u128_decimal(&mut r, timestamp);
    r
}

/// What became of an unreadable data file: moved to a path, or left where
/// it was because the move failed with the given error text.
pub enum QuarantineOutcome {
    Moved(String),
    NotMoved(String),
}

/// What the user is told of an unreadable data file called `name`, which
/// failed with `error`.
pub fn quarantine_message(name: &str, error: &str, outcome: &QuarantineOutcome) -> (r: String)
    ensures
        match outcome {
            QuarantineOutcome::Moved(to) => r@ == "The "@ + name@ + " data file was unreadable and was moved to "@
                + to@ + " ("@ + error@ + ")."@,
            QuarantineOutcome::NotMoved(why) => r@ == "The "@ + name@ + " data file was unreadable ("@ + error@
                + "), and could not be preserved: "@ + why@ + "."@,
        },
{
    let mut r = String::from_str("The ");
    r.append(name);
    match outcome {
        QuarantineOutcome::Moved(to) => {
            r.append(" data file was unreadable and was moved to ");
            r.append(to.as_str());
            r.append(" (");
            r.append(error);
            r.append(").");
        },
        QuarantineOutcome::NotMoved(why) => {
            r.append(" data file was unreadable (");
            r.append(error);
            r.append("), and could not be preserved: ");
            r.append(why.as_str());
            r.append(".");
        },
    }
    r
}

/// What reading a data document gave.
#[derive(Clone, Copy, Debug, PartialEq, Eq, Structural)]
pub enum DocumentRead {
    /// There was no such file.
    Missing,
    /// It was read.
    Loaded,
    /// It was there but could not be read.
    Unreadable,
}

/// The next step in choosing what the database is first filled from.
#[derive(Clone, Copy, Debug, PartialEq, Eq, Structural)]
pub enum RecoveryStep {
    /// Fill it from the current data file.
    UseCurrent,
    /// Read the backup of the current data file.
    ReadBackup,
    /// Fill it from the backup.
    UseBackup,
    /// Start empty: current data files existed but none could be read.
    StartEmpty,
    /// Fill it from the legacy data files.
    ReadLegacy,
}

/// The next step after reading the current data file (`current`), its
/// backup (`backup`, where it has been read), with `had_current_files`
/// telling whether either file existed: the current file wins, then the
/// backup; the legacy files are read only where neither file existed, so
/// that stale legacy data never replaces unreadable current data.
pub fn recovery_step(current: DocumentRead, backup: Option<DocumentRead>, had_current_files: bool) -> (r:
    RecoveryStep)
    ensures
        current == DocumentRead::Loaded ==> r == RecoveryStep::UseCurrent,
        current != DocumentRead::Loaded && backup is None ==> r == RecoveryStep::ReadBackup,
        current != DocumentRead::Loaded && backup == Some(DocumentRead::Loaded) ==> r == RecoveryStep::UseBackup,
        current != DocumentRead::Loaded && backup is Some && backup != Some(DocumentRead::Loaded) ==> r == (
        if had_current_files {
            RecoveryStep::StartEmpty
        } else {
            RecoveryStep::ReadLegacy
        }),
{
    match current {
        DocumentRead::Loaded => RecoveryStep::UseCurrent,
        _ => match backup {
            None => RecoveryStep::ReadBackup,
            Some(DocumentRead::Loaded) => RecoveryStep::UseBackup,
            Some(_) => if had_current_files {
                RecoveryStep::StartEmpty
            } else {
                RecoveryStep::ReadLegacy
            },
        },
    }
}

/// What the user is told when the database was filled from the backup at
/// `backup`.
pub fn backup_recovery_message(backup: &str) -> (r: String)
    ensures
        r@ == "The SQLite database was migrated from "@ + backup@
            + " because the primary JSON file was unavailable."@,
{
    let mut r = String::from_str("The SQLite database was migrated from ");
    r.append(backup);
    r.append(" because the primary JSON file was unavailable.");
    r
}

/// What the user is told when no current data could be recovered.
pub fn empty_recovery_message() -> (r: String)
    ensures
        r@ == "No valid current application data could be recovered; a new empty database was created."@,
{
    String::from_str("No valid current application data could be recovered; a new empty database was created.")
}

} // verus!
