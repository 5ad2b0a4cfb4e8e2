//! Failures of file operations, as plain values.
use vstd::prelude::*;

use crate::text::owned;

verus! {

/// The error number of a device I/O failure on Unix (`EIO`).
pub const EIO: i32 = 5;

/// What error numbers mean, by the kind of operating system that gave them.
#[derive(Clone, Copy, Debug, PartialEq, Eq, Structural)]
pub enum Platform {
    Unix,
    Other,
}

/// What kind of failure the operating system reported.
#[derive(Clone, Copy, Debug, PartialEq, Eq, Structural)]
pub enum IoErrorKind {
    NotFound,
    PermissionDenied,
    Interrupted,
    UnexpectedEof,
    WriteZero,
    InvalidInput,
    Other,
}

/// A failed file operation.
#[derive(Debug)]
pub struct IoError {
    pub kind: IoErrorKind,
    /// The error number, where the operating system gave one.
    pub errno: Option<i32>,
    pub message: String,
    /// Of each link of its chain of causes, from its own cause on, the error number where the
    /// link is a system error that has one.
    pub causes: Vec<Option<i32>>,
}

impl IoError {
    /// Whether the device failed: error numbers say so on Unix only.
    pub open spec fn device_failed(&self, platform: Platform) -> bool {
        platform == Platform::Unix && self.errno == Some(EIO)
    }

    /// A failure with the number of a device failure, and nothing behind it.
    pub open spec fn is_eio_number(&self) -> bool {
        self.kind == IoErrorKind::Other && self.errno == Some(EIO) && self.causes@.len() == 0
    }

    /// A failure of the given kind with a text, without an error number.
    pub open spec fn is_plain(&self, kind: IoErrorKind, message: Seq<char>) -> bool {
        &&& self.kind == kind
        &&& self.errno is None
        &&& self.message@ == message
        &&& self.causes@.len() == 0
    }

    /// Whether the other error reports the same failure, without what is behind it.
    pub open spec fn is_copy_of(&self, other: IoError) -> bool {
        &&& self.kind == other.kind
        &&& self.errno == other.errno
        &&& self.message@ == other.message@
        &&& self.causes@.len() == 0
    }

    /// A failure without an error number.
    pub fn new(kind: IoErrorKind, message: &str) -> (e: IoError)
        ensures
            e.is_plain(kind, message@),
    {
        IoError { kind, errno: None, message: owned(message), causes: Vec::new() }
    }

    /// A failure with the number of a device failure.
    pub fn eio() -> (e: IoError)
        ensures
            e.is_eio_number(),
    {
        IoError {
            kind: IoErrorKind::Other,
            errno: Some(EIO),
            message: owned("Input/output error"),
            causes: Vec::new(),
        }
    }

    /// Whether the device failed.
    pub fn is_eio(&self, platform: Platform) -> (b: bool)
        ensures
            b == self.device_failed(platform),
    {
        match self.errno {
            Some(n) => platform == Platform::Unix && n == EIO,
            None => false,
        }
    }
}

/// A second copy of an error, for reporting the same failure again. What is behind the error
/// stays with the first one.
pub fn copy_io_error(error: &IoError) -> (copy: IoError)
    ensures
        copy.is_copy_of(*error),
{
    IoError {
        kind: error.kind,
        errno: error.errno,
        message: error.message.clone(),
        causes: Vec::new(),
    }
}

/// A device failure is the fifth error number on Unix, and nothing elsewhere.
pub proof fn device_failures_have_a_number(error: IoError, platform: Platform)
    ensures
        error.device_failed(platform) <==> platform == Platform::Unix && error.errno is Some
            && error.errno->0 == 5,
        error.is_eio_number() ==> error.device_failed(Platform::Unix) && error.causes@.len() == 0
            && error.kind == IoErrorKind::Other,
{
}

/// A failure that is told in words has its kind and its words, and no number; a copy of a failure
/// has the kind, the number and the words of the first one, and nothing behind it.
pub proof fn failures_are_told_as_they_are(
    error: IoError,
    kind: IoErrorKind,
    message: Seq<char>,
    other: IoError,
)
    ensures
        error.is_plain(kind, message) <==> error.kind == kind && error.errno is None
            && error.message@ == message && error.causes@.len() == 0,
        error.is_copy_of(other) <==> error.kind == other.kind && error.errno == other.errno
            && error.message@ == other.message@ && error.causes@.len() == 0,
{
}

} // verus!
