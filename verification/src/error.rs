//! Errors of the pairing tool and the process exit codes they map to.

use vstd::prelude::*;

verus! {

/// What went wrong, which decides the process exit code.
#[derive(Debug, Clone, Copy, PartialEq, Eq, Structural)]
pub enum ErrorKind {
    /// The host setup is not supported (for example, no `adb` was found).
    Unsupported,
    /// A device did not show up in time.
    Timeout,
    /// `adb` could not be run or reported a failure.
    Adb,
    /// Anything else.
    Internal,
}

/// The exit code of each error kind.
pub open spec fn kind_exit_code(kind: ErrorKind) -> i32 {
    match kind {
        ErrorKind::Unsupported => 4,
        ErrorKind::Timeout => 3,
        ErrorKind::Adb => 5,
        ErrorKind::Internal => 1,
    }
}

impl ErrorKind {
    /// The process exit code for this kind of error.
    pub fn exit_code(self) -> (code: i32)
        ensures
            code == kind_exit_code(self),
    {
        match self {
            ErrorKind::Unsupported => 4,
            ErrorKind::Timeout => 3,
            ErrorKind::Adb => 5,
            ErrorKind::Internal => 1,
        }
    }
}

/// An error with its kind and the message shown to the user.
#[derive(Debug, Clone)]
pub struct AppError {
    pub kind: ErrorKind,
    pub message: String,
}

impl AppError {
    pub fn new(kind: ErrorKind, message: String) -> (e: AppError)
        ensures
            e.kind == kind,
            e.message@ == message@,
    {
        AppError { kind, message }
    }

    pub fn unsupported(message: String) -> (e: AppError)
        ensures
            e.kind == ErrorKind::Unsupported,
            e.message@ == message@,
    {
        Self::new(ErrorKind::Unsupported, message)
    }

    pub fn timeout(message: String) -> (e: AppError)
        ensures
            e.kind == ErrorKind::Timeout,
            e.message@ == message@,
    {
        Self::new(ErrorKind::Timeout, message)
    }

    pub fn adb(message: String) -> (e: AppError)
        ensures
            e.kind == ErrorKind::Adb,
            e.message@ == message@,
    {
        Self::new(ErrorKind::Adb, message)
    }

    pub fn internal(message: String) -> (e: AppError)
        ensures
            e.kind == ErrorKind::Internal,
            e.message@ == message@,
    {
        Self::new(ErrorKind::Internal, message)
    }

    /// The process exit code for this error.
    pub fn exit_code(&self) -> (code: i32)
        ensures
            code == kind_exit_code(self.kind),
    {
        self.kind.exit_code()
    }
}

/// Every error ends the process with a failure status, and the status tells
/// the kinds apart.
pub proof fn lemma_error_exit_codes_are_failures_and_distinct(a: ErrorKind, b: ErrorKind)
    ensures
        kind_exit_code(a) != 0,
        kind_exit_code(a) == kind_exit_code(b) <==> a == b,
{
}

} // verus!
