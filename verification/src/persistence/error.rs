//! What can go wrong on disk.

use vstd::prelude::*;

use crate::number::{decimal, push_decimal};

verus! {

/// An error of the snapshot or the log. Paths and the causes of failed file operations are
/// held as text.
#[derive(Debug, Clone, PartialEq, Eq)]
pub enum PersistenceError {
    /// A file could not be created, read, written or synchronised.
    Io { action: &'static str, path: String, source: String },
    /// A file has a wrong format, sequence number or checksum.
    Corrupt { path: String, line: usize, offset: u64, reason: String },
    /// A command that only reads was to be logged.
    UnsupportedCommand,
    /// An earlier write to the log failed; to keep off an unreliable log, mutations are
    /// refused from there on.
    Unavailable { path: String },
}

/// A persistence error over character sequences.
pub ghost enum PersistenceErrorView {
    Io { action: Seq<char>, path: Seq<char>, source: Seq<char> },
    Corrupt { path: Seq<char>, line: nat, offset: nat, reason: Seq<char> },
    UnsupportedCommand,
    Unavailable { path: Seq<char> },
}

impl View for PersistenceError {
    type V = PersistenceErrorView;

    open spec fn view(&self) -> PersistenceErrorView {
        match self {
            PersistenceError::Io { action, path, source } => PersistenceErrorView::Io {
                action: action@,
                path: path@,
                source: source@,
            },
            PersistenceError::Corrupt { path, line, offset, reason } => {
                PersistenceErrorView::Corrupt {
                    path: path@,
                    line: *line as nat,
                    offset: *offset as nat,
                    reason: reason@,
                }
            },
            PersistenceError::UnsupportedCommand => PersistenceErrorView::UnsupportedCommand,
            PersistenceError::Unavailable { path } => PersistenceErrorView::Unavailable {
                path: path@,
            },
        }
    }
}

impl PersistenceErrorView {
    /// The text that describes the error.
    pub open spec fn text(self) -> Seq<char> {
        match self {
            PersistenceErrorView::Io { action, path, source } => action + " "@ + path
                + " failed: "@ + source,
            PersistenceErrorView::Corrupt { path, line, offset, reason } => "corrupt data file "@
                + path + " at line "@ + decimal(line) + ", byte "@ + decimal(offset) + ": "@
                + reason,
            PersistenceErrorView::UnsupportedCommand => "command cannot be stored in the WAL"@,
            PersistenceErrorView::Unavailable { path } => "WAL "@ + path
                + " is unavailable after an earlier write failure"@,
        }
    }
}

impl PersistenceError {
    /// The error for a file operation that failed.
    pub fn io(action: &'static str, path: String, source: String) -> (error: PersistenceError)
        ensures
            error@ == (PersistenceErrorView::Io {
                action: action@,
                path: path@,
                source: source@,
            }),
    {
        PersistenceError::Io { action, path, source }
    }

    /// The text that describes the error.
    #[must_use]
    pub fn message(&self) -> (text: String)
        ensures
            text@ == self@.text(),
    {
        match self {
            PersistenceError::Io { action, path, source } => {
                let mut text = (*action).to_owned();
                text.append(" ");
                text.append(path.as_str());
                text.append(" failed: ");
                text.append(source.as_str());
                text
            },
            PersistenceError::Corrupt { path, line, offset, reason } => {
                let mut text = "corrupt data file ".to_owned();
                text.append(path.as_str());
                text.append(" at line ");
                push_decimal(&mut text, *line as u128);
                text.append(", byte ");
                push_decimal(&mut text, *offset as u128);
                text.append(": ");
                text.append(reason.as_str());
                text
            },
            PersistenceError::UnsupportedCommand => "command cannot be stored in the WAL".to_owned(),
            PersistenceError::Unavailable { path } => {
                let mut text = "WAL ".to_owned();
                text.append(path.as_str());
                text.append(" is unavailable after an earlier write failure");
                text
            },
        }
    }
}

/// An error tells what was done, with which file, and the cause or the reason; a damaged file
/// with the line and the byte.
pub proof fn law_errors_tell_where_and_why(error: PersistenceErrorView)
    ensures
        error matches PersistenceErrorView::Io { action, path, source } ==> {
            let text = error.text();
            let at = action.len() + 1;
            &&& action.is_prefix_of(text)
            &&& text.subrange(at as int, at + path.len() as int) == path
            &&& source.is_suffix_of(text)
        },
        error matches PersistenceErrorView::Corrupt { path, line, offset, reason } ==> {
            let text = error.text();
            let first = 18int + path.len();
            let second = first + 9 + decimal(line).len();
            let third = second + 7 + decimal(offset).len();
            &&& text.subrange(18, first) == path
            &&& text.subrange(first, first + 9) == " at line "@
            &&& text.subrange(first + 9, second) == decimal(line)
            &&& text.subrange(second, second + 7) == ", byte "@
            &&& text.subrange(second + 7, third) == decimal(offset)
            &&& text.skip(third + 2) == reason
        },
        error matches PersistenceErrorView::Unavailable { path } ==> error.text().subrange(
            4,
            4int + path.len(),
        ) == path,
{
    let text = error.text();
    match error {
        PersistenceErrorView::Io { action, path, source } => {
            reveal_strlit(" ");
            let at = action.len() + 1;
            assert(text.take(action.len() as int) =~= action);
            assert(text.subrange(at as int, at + path.len() as int) =~= path);
            assert(text.skip(text.len() - source.len()) =~= source);
        },
        PersistenceErrorView::Corrupt { path, line, offset, reason } => {
            reveal_strlit("corrupt data file ");
            reveal_strlit(" at line ");
            reveal_strlit(", byte ");
            reveal_strlit(": ");
            let first = 18int + path.len();
            let second = first + 9 + decimal(line).len();
            let third = second + 7 + decimal(offset).len();
            assert(text.subrange(18, first) =~= path);
            assert(text.subrange(first, first + 9) =~= " at line "@);
            assert(text.subrange(first + 9, second) =~= decimal(line));
            assert(text.subrange(second, second + 7) =~= ", byte "@);
            assert(text.subrange(second + 7, third) =~= decimal(offset));
            assert(text.skip(third + 2) =~= reason);
        },
        PersistenceErrorView::Unavailable { path } => {
            reveal_strlit("WAL ");
            assert(text.subrange(4, 4int + path.len()) =~= path);
        },
        _ => {},
    }
}

} // verus!
