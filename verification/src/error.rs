//! Failures of the file system, as far as a capture tells them apart.
use crate::entry::Reason;
use vstd::prelude::*;

verus! {

/// What kind of failure an operation ended in.
#[derive(Debug, Clone, Copy, PartialEq, Eq, Structural)]
pub enum ErrorKind {
    NotFound,
    PermissionDenied,
    AlreadyExists,
    WouldBlock,
    NotADirectory,
    IsADirectory,
    InvalidInput,
    InvalidData,
    TimedOut,
    Interrupted,
    Unsupported,
    UnexpectedEof,
    OutOfMemory,
    Other,
}

/// A failed operation: its kind, and the message that describes it.
#[derive(Debug, PartialEq, Eq)]
pub struct IoError {
    pub kind: ErrorKind,
    pub message: String,
}

/// What an [`IoError`] says.
pub struct IoErrorView {
    pub kind: ErrorKind,
    pub message: Seq<char>,
}

impl View for IoError {
    type V = IoErrorView;

    open spec fn view(&self) -> IoErrorView {
        IoErrorView { kind: self.kind, message: self.message@ }
    }
}

impl IoError {
    pub fn new(kind: ErrorKind, message: String) -> (error: Self)
        ensures
            error@ == (IoErrorView { kind, message: message@ }),
            error.kind == kind,
            error.message@ == message@,
    {
        IoError { kind, message }
    }
}

/// What `result` says, success and failure alike.
pub open spec fn view_result<T: View>(result: Result<T, IoError>) -> Result<T::V, IoErrorView> {
    match result {
        Ok(value) => Ok(value@),
        Err(error) => Err(error@),
    }
}

/// The reason that stands in a snapshot for a failure of kind `kind`.
pub open spec fn reason_of(kind: ErrorKind) -> Reason {
    match kind {
        ErrorKind::PermissionDenied => Reason::PermissionDenied,
        ErrorKind::NotFound => Reason::Vanished,
        ErrorKind::WouldBlock => Reason::WouldBlock,
        _ => Reason::IoError,
    }
}

/// Whether `reason` is the one that a failure of kind `kind` is given: a refused, a
/// vanished and a blocked path are told apart, each by a reason of its own, and every other
/// failure is one of input or output.
pub open spec fn is_reason_for(reason: Reason, kind: ErrorKind) -> bool {
    &&& reason == Reason::PermissionDenied <==> kind == ErrorKind::PermissionDenied
    &&& reason == Reason::Vanished <==> kind == ErrorKind::NotFound
    &&& reason == Reason::WouldBlock <==> kind == ErrorKind::WouldBlock
    &&& reason == Reason::IoError <==> kind != ErrorKind::PermissionDenied && kind
        != ErrorKind::NotFound && kind != ErrorKind::WouldBlock
}

/// For every kind of failure: it is given as refused exactly where it is a refusal, as
/// vanished exactly where nothing was found, as blocked exactly where it would have
/// blocked, and as a failure of input or output in every other case. No other reason is
/// given for a failure.
pub proof fn failures_are_told_apart(kind: ErrorKind)
    ensures
        reason_of(kind) == Reason::PermissionDenied <==> kind == ErrorKind::PermissionDenied,
        reason_of(kind) == Reason::Vanished <==> kind == ErrorKind::NotFound,
        reason_of(kind) == Reason::WouldBlock <==> kind == ErrorKind::WouldBlock,
        reason_of(kind) == Reason::IoError <==> kind != ErrorKind::PermissionDenied && kind
            != ErrorKind::NotFound && kind != ErrorKind::WouldBlock,
        reason_of(kind) != Reason::Binary,
        reason_of(kind) != Reason::SizeLimit,
        reason_of(kind) != Reason::TotalLimit,
        reason_of(kind) != Reason::SpecialFile,
{
}

/// An error says its kind and all of its message.
pub proof fn error_says_what_it_holds(error: IoError)
    ensures
        error@.kind == error.kind,
        error@.message == error.message@,
{
}

/// A success says its value and a failure its error.
pub proof fn result_says_what_it_holds<T: View>(result: Result<T, IoError>)
    ensures
        view_result(result) is Ok <==> result is Ok,
        result matches Ok(value) ==> view_result(result)->Ok_0 == value@,
        result matches Err(error) ==> view_result(result)->Err_0.kind == error.kind && view_result(
            result,
        )->Err_0.message == error.message@,
{
}

/// The reason that stands in a snapshot for `error`.
pub fn io_reason(error: &IoError) -> (reason: Reason)
    ensures
        reason == reason_of(error@.kind),
        is_reason_for(reason, error.kind),
{
    match error.kind {
        ErrorKind::PermissionDenied => Reason::PermissionDenied,
        ErrorKind::NotFound => Reason::Vanished,
        ErrorKind::WouldBlock => Reason::WouldBlock,
        _ => Reason::IoError,
    }
}

} // verus!
