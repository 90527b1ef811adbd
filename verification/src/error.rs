//! The library's error type.

use vstd::prelude::*;
use crate::text::concat_str;

verus! {

/// The kind of an I/O failure, as far as the library distinguishes them.
#[derive(Clone, Copy, Debug, PartialEq, Eq, Structural)]
pub enum IoErrorKind {
    NotFound,
    PermissionDenied,
    BrokenPipe,
    Other,
}

/// An I/O failure: its kind and its message.
#[derive(Clone, Debug)]
pub struct IoError {
    pub kind: IoErrorKind,
    pub message: String,
}

/// Every failure the library reports.
#[derive(Debug)]
pub enum DfmError {
    Io(IoError),
    Unsupported(String),
    NotFound(String),
    InvalidData(String),
    InvalidInput(String),
    Other(String),
}

/// The text of an error, as the command line shows it.
pub open spec fn error_text(e: DfmError) -> Seq<char> {
    match e {
        DfmError::Io(io) => "I/O error: "@ + io.message@,
        DfmError::Unsupported(m) => "Unsupported: "@ + m@,
        DfmError::NotFound(m) => "Not found: "@ + m@,
        DfmError::InvalidData(m) => "Invalid data: "@ + m@,
        DfmError::InvalidInput(m) => "Invalid input: "@ + m@,
        DfmError::Other(m) => m@,
    }
}

impl DfmError {
    /// Shorthand for creating an `Other` variant.
    pub fn other(msg: &str) -> (e: DfmError)
        ensures
            e matches DfmError::Other(m) && m@ == msg@,
    {
        DfmError::Other(msg.to_owned())
    }

    /// Returns `true` when the error is an I/O permission-denied error.
    pub fn is_permission_denied(&self) -> (b: bool)
        ensures
            b == (self matches DfmError::Io(io) && io.kind == IoErrorKind::PermissionDenied),
    {
        match self {
            DfmError::Io(io) => match io.kind {
                IoErrorKind::PermissionDenied => true,
                _ => false,
            },
            _ => false,
        }
    }

    /// The message of the error, as the command line shows it.
    pub fn message(&self) -> (s: String)
        ensures
            s@ == error_text(*self),
    {
        proof {
            reveal_strlit("I/O error: ");
            reveal_strlit("Unsupported: ");
            reveal_strlit("Not found: ");
            reveal_strlit("Invalid data: ");
            reveal_strlit("Invalid input: ");
        }
        match self {
            DfmError::Io(io) => concat_str("I/O error: ", io.message.as_str()),
            DfmError::Unsupported(m) => concat_str("Unsupported: ", m.as_str()),
            DfmError::NotFound(m) => concat_str("Not found: ", m.as_str()),
            DfmError::InvalidData(m) => concat_str("Invalid data: ", m.as_str()),
            DfmError::InvalidInput(m) => concat_str("Invalid input: ", m.as_str()),
            DfmError::Other(m) => m.clone(),
        }
    }
}

/// Wrap an I/O error with the file path it occurred on, keeping its kind (so
/// `is_permission_denied` still answers the same) and its message.
pub fn io_err(path: &str, e: IoError) -> (r: DfmError)
    ensures
        r matches DfmError::Io(io) && io.kind == e.kind && io.message@ == path@ + ": "@ + e.message@,
{
    proof {
        reveal_strlit(": ");
    }
    let head = concat_str(path, ": ");
    let message = concat_str(head.as_str(), e.message.as_str());
    DfmError::Io(IoError { kind: e.kind, message })
}

/// Same as `io_err`, for a copy from one path to another.
pub fn io_copy_err(from: &str, to: &str, e: IoError) -> (r: DfmError)
    ensures
        r matches DfmError::Io(io) && io.kind == e.kind
            && io.message@ == from@ + " -> "@ + to@ + ": "@ + e.message@,
{
    proof {
        reveal_strlit(": ");
        reveal_strlit(" -> ");
    }
    let a = concat_str(from, " -> ");
    let b = concat_str(a.as_str(), to);
    let c = concat_str(b.as_str(), ": ");
    let message = concat_str(c.as_str(), e.message.as_str());
    DfmError::Io(IoError { kind: e.kind, message })
}

/// The warning shown when a path cannot be read and is skipped instead of
/// aborting the command.
pub fn warn_unreadable(path: &str, reason: &str) -> (s: String)
    ensures
        s@ == "skipping unreadable path "@ + path@ + ": "@ + reason@,
{
    proof {
        reveal_strlit(": ");
        reveal_strlit("skipping unreadable path ");
    }
    let a = concat_str("skipping unreadable path ", path);
    let b = concat_str(a.as_str(), ": ");
    concat_str(b.as_str(), reason)
}

} // verus!
