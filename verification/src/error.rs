//! Errors of the engine, and how they are classified for retries and recovery.
use std::sync::Arc;

use vstd::prelude::*;

use crate::io_error::{IoError, IoErrorKind, Platform, EIO};
use crate::text::{
    decimal, hexadecimal, owned, push_decimal, push_hexadecimal, push_signed, signed_decimal,
};

verus! {

/// How many values of a Python exception chain are looked at.
pub const PYTHON_CHAIN_VALUES: u64 = 5;

/// How many causes of an error are looked at.
pub const CAUSE_LINKS: usize = 31;

/// A failed operation on a shuffle file. It is not a transient error: repeating it needs the
/// task's own budget.
#[derive(Debug, PartialEq, Eq)]
pub struct ShuffleIoError {
    pub operation: String,
    pub path: String,
    pub errno: i32,
    pub message: String,
}

/// Which physical map output is unavailable. This asks for its reconstruction: repeating the
/// consumer with the same inputs cannot help.
#[derive(Debug, PartialEq, Eq)]
pub struct ShuffleFetchFailure {
    pub shuffle_id: u64,
    pub input_id: u32,
    pub attempt: u64,
    pub partition_idx: u32,
    pub path: String,
    pub message: String,
}

/// An error of another library: its text, and of each link of its chain of causes, from the
/// error itself on, the error number where the link is a system error that has one.
#[derive(Debug)]
pub struct GenericError {
    pub message: String,
    pub errnos: Vec<Option<i32>>,
}

/// An exception that came out of Python.
#[derive(Debug)]
pub struct PyException {
    pub text: String,
    /// Whether it is an instance of the class of transient errors.
    pub is_transient: bool,
    /// Whether it is an instance of the class of shuffle file failures, and which one, where
    /// its attributes can be read.
    pub is_shuffle_io: bool,
    pub shuffle_io: Option<ShuffleIoError>,
    /// Whether it is an instance of the class of unavailable map outputs, and which one, where
    /// its attributes can be read.
    pub is_shuffle_fetch: bool,
    pub shuffle_fetch: Option<ShuffleFetchFailure>,
    /// The exception that a remote task raised.
    pub cause: Option<Box<PyException>>,
    /// The exception that this one was raised from.
    pub raised_from: Option<Box<PyException>>,
}

/// An error of the engine.
#[derive(Debug)]
pub enum DaftError {
    /// A failure of a pipeline, delivered to each input that did not finish.
    Shared(Arc<DaftError>),
    AmbiguousReference(String),
    FieldNotFound(String),
    SchemaMismatch(String),
    TypeError(String),
    ComputeError(String),
    ArrowRsError(GenericError),
    ParquetError(String),
    CorruptFile(String),
    ValueError(String),
    PyO3Error(PyException),
    IoError(IoError),
    FileNotFound { path: String, source: GenericError },
    InternalError(String),
    ConnectTimeout(GenericError),
    ReadTimeout(GenericError),
    ByteStreamError(GenericError),
    SocketError(GenericError),
    ThrottledIo(GenericError),
    MiscTransient(GenericError),
    External(GenericError),
    SerdeJsonError(GenericError),
    FmtError(GenericError),
    RegexError(GenericError),
    FromUtf8Error(GenericError),
    NotImplemented(String),
    CatalogError(String),
    JoinError(GenericError),
    InvalidArgumentError(String),
    ShuffleIo(Box<ShuffleIoError>),
    ShuffleFetchFailure(Box<ShuffleFetchFailure>),
}

impl Clone for ShuffleIoError {
    fn clone(&self) -> (c: Self)
        ensures
            c == *self,
    {
        ShuffleIoError {
            operation: self.operation.clone(),
            path: self.path.clone(),
            errno: self.errno,
            message: self.message.clone(),
        }
    }
}

impl ShuffleIoError {
    /// Whether the device failed: error numbers say so on Unix only.
    pub fn is_eio(&self, platform: Platform) -> (b: bool)
        ensures
            b == (platform == Platform::Unix && self.errno == EIO),
    {
        platform == Platform::Unix && self.errno == EIO
    }

    /// The text of the error.
    pub open spec fn text(self) -> Seq<char> {
        "Shuffle "@ + self.operation@ + " failed at "@ + self.path@ + " (errno "@ + signed_decimal(
            self.errno as int,
        ) + "): "@ + self.message@
    }

    /// The text of the error.
    pub fn to_text(&self) -> (s: String)
        ensures
            s@ == self.text(),
    {
        let mut s: String = owned("Shuffle ");
        s.append(self.operation.as_str());
        s.append(" failed at ");
        s.append(self.path.as_str());
        s.append(" (errno ");
        push_signed(&mut s, self.errno);
        s.append("): ");
        s.append(self.message.as_str());
        s
    }
}

impl Clone for ShuffleFetchFailure {
    fn clone(&self) -> (c: Self)
        ensures
            c == *self,
    {
        ShuffleFetchFailure {
            shuffle_id: self.shuffle_id,
            input_id: self.input_id,
            attempt: self.attempt,
            partition_idx: self.partition_idx,
            path: self.path.clone(),
            message: self.message.clone(),
        }
    }
}

impl ShuffleFetchFailure {
    /// The text of the error.
    pub open spec fn text(self) -> Seq<char> {
        "Shuffle "@ + decimal(self.shuffle_id as nat) + " map "@ + decimal(self.input_id as nat)
            + " attempt 0x"@ + hexadecimal(self.attempt as nat) + " partition "@ + decimal(
            self.partition_idx as nat,
        ) + ": "@ + self.message@ + " ("@ + self.path@ + ")"@
    }

    /// The text of the error.
    pub fn to_text(&self) -> (s: String)
        ensures
            s@ == self.text(),
    {
        let mut s: String = owned("Shuffle ");
        push_decimal(&mut s, self.shuffle_id);
        s.append(" map ");
        push_decimal(&mut s, self.input_id as u64);
        s.append(" attempt 0x");
        push_hexadecimal(&mut s, self.attempt);
        s.append(" partition ");
        push_decimal(&mut s, self.partition_idx as u64);
        s.append(": ");
        s.append(self.message.as_str());
        s.append(" (");
        s.append(self.path.as_str());
        s.append(")");
        s
    }

    /// The error for a map output that could not be opened. Only a missing file is missing
    /// output; other failures stay what they are and ask for no reconstruction.
    pub fn open_error(self, error: IoError) -> (e: DaftError)
        ensures
            error.kind == IoErrorKind::NotFound ==> e == DaftError::ShuffleFetchFailure(
                Box::new(ShuffleFetchFailure { message: error.message, ..self }),
            ),
            error.kind != IoErrorKind::NotFound ==> e == DaftError::IoError(error),
    {
        if error.kind == IoErrorKind::NotFound {
            let mut failure = self;
            failure.message = error.message;
            DaftError::ShuffleFetchFailure(Box::new(failure))
        } else {
            DaftError::IoError(error)
        }
    }
}

impl PyException {
    /// The exception behind this one: what a remote task raised, or else what this one was
    /// raised from.
    pub open spec fn next(&self) -> Option<Box<PyException>> {
        match self.cause {
            Some(cause) => Some(cause),
            None => self.raised_from,
        }
    }

    /// Whether one of the first `depth` exceptions of the chain is transient.
    pub open spec fn transient_within(&self, depth: nat) -> bool
        decreases depth,
    {
        if depth == 0 {
            false
        } else {
            self.is_transient || match self.next() {
                Some(next) => next.transient_within((depth - 1) as nat),
                None => false,
            }
        }
    }

    /// The failure that the first shuffle file failure among the first `depth` exceptions of
    /// the chain carries.
    pub open spec fn io_within(&self, depth: nat) -> Option<ShuffleIoError>
        decreases depth,
    {
        if depth == 0 {
            None
        } else if self.is_shuffle_io {
            self.shuffle_io
        } else {
            match self.next() {
                Some(next) => next.io_within((depth - 1) as nat),
                None => None,
            }
        }
    }

    /// The first readable unavailable map output among the first `depth` exceptions of the
    /// chain.
    pub open spec fn fetch_within(&self, depth: nat) -> Option<ShuffleFetchFailure>
        decreases depth,
    {
        if depth == 0 {
            None
        } else if self.is_shuffle_fetch && self.shuffle_fetch is Some {
            self.shuffle_fetch
        } else {
            match self.next() {
                Some(next) => next.fetch_within((depth - 1) as nat),
                None => None,
            }
        }
    }

    fn find_transient(&self, depth: u64) -> (b: bool)
        ensures
            b == self.transient_within(depth as nat),
        decreases depth,
    {
        if depth == 0 {
            return false;
        }
        if self.is_transient {
            return true;
        }
        match &self.cause {
            Some(next) => next.find_transient(depth - 1),
            None => match &self.raised_from {
                Some(next) => next.find_transient(depth - 1),
                None => false,
            },
        }
    }

    fn find_io(&self, depth: u64) -> (r: Option<ShuffleIoError>)
        ensures
            r == self.io_within(depth as nat),
        decreases depth,
    {
        if depth == 0 {
            return None;
        }
        if self.is_shuffle_io {
            return match &self.shuffle_io {
                Some(failure) => Some(failure.clone()),
                None => None,
            };
        }
        match &self.cause {
            Some(next) => next.find_io(depth - 1),
            None => match &self.raised_from {
                Some(next) => next.find_io(depth - 1),
                None => None,
            },
        }
    }

    fn find_fetch(&self, depth: u64) -> (r: Option<ShuffleFetchFailure>)
        ensures
            r == self.fetch_within(depth as nat),
        decreases depth,
    {
        if depth == 0 {
            return None;
        }
        if self.is_shuffle_fetch {
            match &self.shuffle_fetch {
                Some(failure) => {
                    return Some(failure.clone());
                },
                None => {},
            }
        }
        match &self.cause {
            Some(next) => next.find_fetch(depth - 1),
            None => match &self.raised_from {
                Some(next) => next.find_fetch(depth - 1),
                None => None,
            },
        }
    }
}

/// The first error number among the first `n` links of a chain of causes.
pub open spec fn first_errno(links: Seq<Option<i32>>, n: int) -> Option<i32>
    decreases n,
{
    if n <= 0 || links.len() == 0 {
        None
    } else if links[0] is Some {
        links[0]
    } else {
        first_errno(links.skip(1), n - 1)
    }
}

fn find_errno(links: &Vec<Option<i32>>, n: usize) -> (r: Option<i32>)
    ensures
        r == first_errno(links@, n as int),
{
    let mut i: usize = 0;
    assert(links@.skip(0) =~= links@);
    while i < links.len() && i < n
        invariant
            i <= links@.len(),
            i <= n,
            first_errno(links@, n as int) == first_errno(links@.skip(i as int), n - i),
        decreases links@.len() - i,
    {
        assert(links@.skip(i as int).skip(1) =~= links@.skip(i + 1));
        match links[i] {
            Some(errno) => {
                return Some(errno);
            },
            None => {},
        }
        i = i + 1;
    }
    None
}

impl DaftError {
    /// Whether the error is transient: a failed network or storage operation that may succeed
    /// when it is repeated. Errors in data never are.
    pub open spec fn transient(&self) -> bool
        decreases self,
    {
        match self {
            DaftError::Shared(error) => error.transient(),
            DaftError::ConnectTimeout(_) => true,
            DaftError::ReadTimeout(_) => true,
            DaftError::ByteStreamError(_) => true,
            DaftError::SocketError(_) => true,
            DaftError::ThrottledIo(_) => true,
            DaftError::MiscTransient(_) => true,
            DaftError::PyO3Error(exception) => exception.transient_within(PYTHON_CHAIN_VALUES as nat),
            _ => false,
        }
    }

    /// The shuffle file failure that the error is or carries.
    pub open spec fn shuffle_io(&self) -> Option<ShuffleIoError>
        decreases self,
    {
        match self {
            DaftError::Shared(error) => error.shuffle_io(),
            DaftError::ShuffleIo(failure) => Some(**failure),
            DaftError::PyO3Error(exception) => exception.io_within(PYTHON_CHAIN_VALUES as nat),
            _ => None,
        }
    }

    /// The unavailable map output that the error is or carries.
    pub open spec fn fetch_failure(&self) -> Option<ShuffleFetchFailure>
        decreases self,
    {
        match self {
            DaftError::Shared(error) => error.fetch_failure(),
            DaftError::ShuffleFetchFailure(failure) => Some(**failure),
            DaftError::PyO3Error(exception) => exception.fetch_within(PYTHON_CHAIN_VALUES as nat),
            _ => None,
        }
    }

    /// The error numbers of the causes behind the error.
    pub open spec fn cause_errnos(&self) -> Seq<Option<i32>>
        decreases self,
    {
        match self {
            DaftError::Shared(error) => error.cause_errnos(),
            DaftError::IoError(error) => seq![error.errno] + error.causes@,
            DaftError::ArrowRsError(source) => source.errnos@,
            DaftError::FileNotFound { path: _, source } => source.errnos@,
            DaftError::ConnectTimeout(source) => source.errnos@,
            DaftError::ReadTimeout(source) => source.errnos@,
            DaftError::ByteStreamError(source) => source.errnos@,
            DaftError::SocketError(source) => source.errnos@,
            DaftError::ThrottledIo(source) => source.errnos@,
            DaftError::MiscTransient(source) => source.errnos@,
            DaftError::External(source) => source.errnos@,
            DaftError::SerdeJsonError(source) => source.errnos@,
            DaftError::FmtError(source) => source.errnos@,
            DaftError::RegexError(source) => source.errnos@,
            DaftError::FromUtf8Error(source) => source.errnos@,
            DaftError::JoinError(source) => source.errnos@,
            _ => Seq::empty(),
        }
    }

    /// The text of the error.
    pub open spec fn text(&self) -> Seq<char>
        decreases self,
    {
        match self {
            DaftError::Shared(error) => error.text(),
            DaftError::AmbiguousReference(m) => "DaftError::AmbiguousReference "@ + m@,
            DaftError::FieldNotFound(m) => "DaftError::FieldNotFound "@ + m@,
            DaftError::SchemaMismatch(m) => "DaftError::SchemaMismatch "@ + m@,
            DaftError::TypeError(m) => "DaftError::TypeError "@ + m@,
            DaftError::ComputeError(m) => "DaftError::ComputeError "@ + m@,
            DaftError::ArrowRsError(e) => "DaftError::ArrowRsError "@ + e.message@,
            DaftError::ParquetError(m) => "DaftError::ParquetError "@ + m@,
            DaftError::CorruptFile(m) => "DaftError::CorruptFile "@ + m@,
            DaftError::ValueError(m) => "DaftError::ValueError "@ + m@,
            DaftError::PyO3Error(e) => "DaftError::PyO3Error "@ + e.text@,
            DaftError::IoError(e) => "DaftError::IoError "@ + e.message@,
            DaftError::FileNotFound { path, source } => "DaftError::FileNotFound "@ + path@
                + " not found: "@ + source.message@,
            DaftError::InternalError(m) => "DaftError::InternalError "@ + m@,
            DaftError::ConnectTimeout(e) => "ConnectTimeout "@ + e.message@,
            DaftError::ReadTimeout(e) => "ReadTimeout "@ + e.message@,
            DaftError::ByteStreamError(e) => "ByteStreamError "@ + e.message@,
            DaftError::SocketError(e) => "SocketError "@ + e.message@,
            DaftError::ThrottledIo(e) => "ThrottledIo "@ + e.message@,
            DaftError::MiscTransient(e) => "MiscTransient "@ + e.message@,
            DaftError::External(e) => "DaftError::External "@ + e.message@,
            DaftError::SerdeJsonError(e) => "DaftError::SerdeJsonError "@ + e.message@,
            DaftError::FmtError(e) => "DaftError::FmtError "@ + e.message@,
            DaftError::RegexError(e) => "DaftError::RegexError "@ + e.message@,
            DaftError::FromUtf8Error(e) => "DaftError::FromUtf8Error "@ + e.message@,
            DaftError::NotImplemented(m) => "Not Yet Implemented: "@ + m@,
            DaftError::CatalogError(m) => "DaftError::CatalogError "@ + m@,
            DaftError::JoinError(e) => "DaftError::JoinError "@ + e.message@,
            DaftError::InvalidArgumentError(m) => "DaftError::InvalidArgumentError "@ + m@,
            DaftError::ShuffleIo(e) => e.text(),
            DaftError::ShuffleFetchFailure(e) => e.text(),
        }
    }

    /// Whether this is a value error with the given text.
    pub open spec fn is_value_error(&self, text: Seq<char>) -> bool {
        self matches DaftError::ValueError(m) && m@ == text
    }

    /// Whether this is an internal error with the given text.
    pub open spec fn is_internal_error(&self, text: Seq<char>) -> bool {
        self matches DaftError::InternalError(m) && m@ == text
    }

    /// Whether this is a computation error with the given text.
    pub open spec fn is_compute_error(&self, text: Seq<char>) -> bool {
        self matches DaftError::ComputeError(m) && m@ == text
    }

    /// An error for something that is not implemented.
    pub fn not_implemented(message: &str) -> (e: DaftError)
        ensures
            e matches DaftError::NotImplemented(m) && m@ == message@,
    {
        DaftError::NotImplemented(owned(message))
    }

    /// An error for a type that does not fit.
    pub fn type_error(message: &str) -> (e: DaftError)
        ensures
            e matches DaftError::TypeError(m) && m@ == message@,
    {
        DaftError::TypeError(owned(message))
    }

    /// An error for a value that does not fit.
    pub fn value_error(message: &str) -> (e: DaftError)
        ensures
            e.is_value_error(message@),
    {
        DaftError::ValueError(owned(message))
    }

    /// An error for a broken expectation of the engine itself.
    pub fn internal_error(message: &str) -> (e: DaftError)
        ensures
            e.is_internal_error(message@),
    {
        DaftError::InternalError(owned(message))
    }

    /// Whether the failed operation should be repeated.
    pub fn is_transient(&self) -> (b: bool)
        ensures
            b == self.transient(),
        decreases self,
    {
        match self {
            DaftError::Shared(error) => error.is_transient(),
            DaftError::ConnectTimeout(_) => true,
            DaftError::ReadTimeout(_) => true,
            DaftError::ByteStreamError(_) => true,
            DaftError::SocketError(_) => true,
            DaftError::ThrottledIo(_) => true,
            DaftError::MiscTransient(_) => true,
            DaftError::PyO3Error(exception) => exception.find_transient(PYTHON_CHAIN_VALUES),
            _ => false,
        }
    }

    /// The shuffle file failure that the error is or carries.
    pub fn shuffle_io_error(&self) -> (r: Option<ShuffleIoError>)
        ensures
            r == self.shuffle_io(),
        decreases self,
    {
        match self {
            DaftError::Shared(error) => error.shuffle_io_error(),
            DaftError::ShuffleIo(failure) => Some((**failure).clone()),
            DaftError::PyO3Error(exception) => exception.find_io(PYTHON_CHAIN_VALUES),
            _ => None,
        }
    }

    /// The unavailable map output that the error is or carries.
    pub fn shuffle_fetch_failure(&self) -> (r: Option<ShuffleFetchFailure>)
        ensures
            r == self.fetch_failure(),
        decreases self,
    {
        match self {
            DaftError::Shared(error) => error.shuffle_fetch_failure(),
            DaftError::ShuffleFetchFailure(failure) => Some((**failure).clone()),
            DaftError::PyO3Error(exception) => exception.find_fetch(PYTHON_CHAIN_VALUES),
            _ => None,
        }
    }

    fn first_cause_errno(&self) -> (r: Option<i32>)
        ensures
            r == first_errno(self.cause_errnos(), CAUSE_LINKS as int),
        decreases self,
    {
        match self {
            DaftError::Shared(error) => error.first_cause_errno(),
            DaftError::IoError(error) => {
                let ghost links = seq![error.errno] + error.causes@;
                assert(links.skip(1) =~= error.causes@);
                assert(links[0] == error.errno);
                match error.errno {
                    Some(errno) => Some(errno),
                    None => find_errno(&error.causes, CAUSE_LINKS - 1),
                }
            },
            DaftError::ArrowRsError(source) => find_errno(&source.errnos, CAUSE_LINKS),
            DaftError::FileNotFound { path: _, source } => find_errno(&source.errnos, CAUSE_LINKS),
            DaftError::ConnectTimeout(source) => find_errno(&source.errnos, CAUSE_LINKS),
            DaftError::ReadTimeout(source) => find_errno(&source.errnos, CAUSE_LINKS),
            DaftError::ByteStreamError(source) => find_errno(&source.errnos, CAUSE_LINKS),
            DaftError::SocketError(source) => find_errno(&source.errnos, CAUSE_LINKS),
            DaftError::ThrottledIo(source) => find_errno(&source.errnos, CAUSE_LINKS),
            DaftError::MiscTransient(source) => find_errno(&source.errnos, CAUSE_LINKS),
            DaftError::External(source) => find_errno(&source.errnos, CAUSE_LINKS),
            DaftError::SerdeJsonError(source) => find_errno(&source.errnos, CAUSE_LINKS),
            DaftError::FmtError(source) => find_errno(&source.errnos, CAUSE_LINKS),
            DaftError::RegexError(source) => find_errno(&source.errnos, CAUSE_LINKS),
            DaftError::FromUtf8Error(source) => find_errno(&source.errnos, CAUSE_LINKS),
            DaftError::JoinError(source) => find_errno(&source.errnos, CAUSE_LINKS),
            _ => None,
        }
    }

    /// Which error number makes this a shuffle file failure: the first among its causes,
    /// unless the error is one already, or is transient for another reason than a device
    /// failure.
    pub open spec fn io_context_errno(&self) -> Option<i32> {
        if self.shuffle_io() is Some {
            None
        } else {
            match first_errno(self.cause_errnos(), CAUSE_LINKS as int) {
                Some(errno) => if errno != EIO && self.transient() { None } else { Some(errno) },
                None => None,
            }
        }
    }

    /// Whether `r` is this error at the boundary of a shuffle file: a shuffle file failure,
    /// where a system error caused it.
    pub open spec fn in_io_context(
        &self,
        operation: Seq<char>,
        path: Seq<char>,
        r: DaftError,
    ) -> bool {
        match self.io_context_errno() {
            None => r == *self,
            Some(errno) => {
                &&& r is ShuffleIo
                &&& r->ShuffleIo_0.operation@ == operation
                &&& r->ShuffleIo_0.path@ == path
                &&& r->ShuffleIo_0.errno == errno
                &&& r->ShuffleIo_0.message@ == self.text()
            },
        }
    }

    /// Makes an error at the boundary of a shuffle file a shuffle file failure, where a system
    /// error caused it.
    pub fn with_shuffle_io_context(self, operation: &str, path: &str) -> (r: DaftError)
        ensures
            self.in_io_context(operation@, path@, r),
    {
        if self.shuffle_io_error().is_some() {
            return self;
        }
        match self.first_cause_errno() {
            Some(errno) => {
                if errno != EIO && self.is_transient() {
                    return self;
                }
                DaftError::ShuffleIo(
                    Box::new(
                        ShuffleIoError {
                            operation: owned(operation),
                            path: owned(path),
                            errno,
                            message: self.to_text(),
                        },
                    ),
                )
            },
            None => self,
        }
    }

    /// The text of the error.
    pub fn to_text(&self) -> (s: String)
        ensures
            s@ == self.text(),
        decreases self,
    {
        match self {
            DaftError::Shared(error) => error.to_text(),
            DaftError::AmbiguousReference(m) => joined("DaftError::AmbiguousReference ", m),
            DaftError::FieldNotFound(m) => joined("DaftError::FieldNotFound ", m),
            DaftError::SchemaMismatch(m) => joined("DaftError::SchemaMismatch ", m),
            DaftError::TypeError(m) => joined("DaftError::TypeError ", m),
            DaftError::ComputeError(m) => joined("DaftError::ComputeError ", m),
            DaftError::ArrowRsError(e) => joined("DaftError::ArrowRsError ", &e.message),
            DaftError::ParquetError(m) => joined("DaftError::ParquetError ", m),
            DaftError::CorruptFile(m) => joined("DaftError::CorruptFile ", m),
            DaftError::ValueError(m) => joined("DaftError::ValueError ", m),
            DaftError::PyO3Error(e) => joined("DaftError::PyO3Error ", &e.text),
            DaftError::IoError(e) => joined("DaftError::IoError ", &e.message),
            DaftError::FileNotFound { path, source } => {
                let mut s: String = joined("DaftError::FileNotFound ", path);
                s.append(" not found: ");
                s.append(source.message.as_str());
                s
            },
            DaftError::InternalError(m) => joined("DaftError::InternalError ", m),
            DaftError::ConnectTimeout(e) => joined("ConnectTimeout ", &e.message),
            DaftError::ReadTimeout(e) => joined("ReadTimeout ", &e.message),
            DaftError::ByteStreamError(e) => joined("ByteStreamError ", &e.message),
            DaftError::SocketError(e) => joined("SocketError ", &e.message),
            DaftError::ThrottledIo(e) => joined("ThrottledIo ", &e.message),
            DaftError::MiscTransient(e) => joined("MiscTransient ", &e.message),
            DaftError::External(e) => joined("DaftError::External ", &e.message),
            DaftError::SerdeJsonError(e) => joined("DaftError::SerdeJsonError ", &e.message),
            DaftError::FmtError(e) => joined("DaftError::FmtError ", &e.message),
            DaftError::RegexError(e) => joined("DaftError::RegexError ", &e.message),
            DaftError::FromUtf8Error(e) => joined("DaftError::FromUtf8Error ", &e.message),
            DaftError::NotImplemented(m) => joined("Not Yet Implemented: ", m),
            DaftError::CatalogError(m) => joined("DaftError::CatalogError ", m),
            DaftError::JoinError(e) => joined("DaftError::JoinError ", &e.message),
            DaftError::InvalidArgumentError(m) => joined("DaftError::InvalidArgumentError ", m),
            DaftError::ShuffleIo(e) => e.to_text(),
            DaftError::ShuffleFetchFailure(e) => e.to_text(),
        }
    }
}

fn joined(prefix: &str, message: &String) -> (s: String)
    ensures
        s@ == prefix@ + message@,
{
    let mut s: String = owned(prefix);
    s.append(message.as_str());
    s
}

/// The Python exception class that stands for an error.
#[derive(Clone, Copy, Debug, PartialEq, Eq, Structural)]
pub enum PyErrClass {
    /// The exception for an unavailable map output, made of its identity.
    ShuffleFetch,
    /// The very exception that came out of Python.
    SameException,
    /// The exception for types, with the plain message.
    TypeError,
    FileNotFound,
    ConnectTimeout,
    ReadTimeout,
    ByteStream,
    Socket,
    Throttle,
    MiscTransient,
    Core,
}

impl PyErrClass {
    /// Whether the class is one of the transient errors.
    pub open spec fn is_transient_class(self) -> bool {
        ||| self == PyErrClass::ConnectTimeout
        ||| self == PyErrClass::ReadTimeout
        ||| self == PyErrClass::ByteStream
        ||| self == PyErrClass::Socket
        ||| self == PyErrClass::Throttle
        ||| self == PyErrClass::MiscTransient
    }
}

/// The error that a shared one shares.
pub open spec fn shared_error(error: DaftError) -> DaftError {
    match error {
        DaftError::Shared(inner) => *inner,
        _ => error,
    }
}

/// The error without the layers that share it.
pub open spec fn unshared(error: DaftError) -> DaftError
    decreases error,
{
    match error {
        DaftError::Shared(inner) => unshared(*inner),
        _ => error,
    }
}

/// The Python exception class for an error that is not shared.
pub open spec fn pyerr_class(error: DaftError) -> PyErrClass {
    match error {
        DaftError::ShuffleFetchFailure(_) => PyErrClass::ShuffleFetch,
        DaftError::PyO3Error(_) => PyErrClass::SameException,
        DaftError::TypeError(_) => PyErrClass::TypeError,
        DaftError::FileNotFound { path: _, source: _ } => PyErrClass::FileNotFound,
        DaftError::ConnectTimeout(_) => PyErrClass::ConnectTimeout,
        DaftError::ReadTimeout(_) => PyErrClass::ReadTimeout,
        DaftError::ByteStreamError(_) => PyErrClass::ByteStream,
        DaftError::SocketError(_) => PyErrClass::Socket,
        DaftError::ThrottledIo(_) => PyErrClass::Throttle,
        DaftError::MiscTransient(_) => PyErrClass::MiscTransient,
        _ => PyErrClass::Core,
    }
}

/// The Python exception class for an error, and the error that it is made of.
pub fn to_pyerr(error: &DaftError) -> (r: (PyErrClass, &DaftError))
    ensures
        *r.1 == unshared(*error),
        r.0 == pyerr_class(unshared(*error)),
    decreases error,
{
    match error {
        DaftError::Shared(inner) => to_pyerr(inner),
        DaftError::ShuffleFetchFailure(_) => (PyErrClass::ShuffleFetch, error),
        DaftError::PyO3Error(_) => (PyErrClass::SameException, error),
        DaftError::TypeError(_) => (PyErrClass::TypeError, error),
        DaftError::FileNotFound { path: _, source: _ } => (PyErrClass::FileNotFound, error),
        DaftError::ConnectTimeout(_) => (PyErrClass::ConnectTimeout, error),
        DaftError::ReadTimeout(_) => (PyErrClass::ReadTimeout, error),
        DaftError::ByteStreamError(_) => (PyErrClass::ByteStream, error),
        DaftError::SocketError(_) => (PyErrClass::Socket, error),
        DaftError::ThrottledIo(_) => (PyErrClass::Throttle, error),
        DaftError::MiscTransient(_) => (PyErrClass::MiscTransient, error),
        _ => (PyErrClass::Core, error),
    }
}

/// Sharing an error changes nothing of its classification.
pub proof fn sharing_keeps_classification(error: DaftError)
    ensures
        DaftError::Shared(Arc::new(error)).transient() == error.transient(),
        DaftError::Shared(Arc::new(error)).shuffle_io() == error.shuffle_io(),
        DaftError::Shared(Arc::new(error)).fetch_failure() == error.fetch_failure(),
        DaftError::Shared(Arc::new(error)).text() == error.text(),
{
}

/// The transient errors are the same on both sides of the boundary to Python: an error that
/// did not come out of Python is transient if and only if its class there is.
pub proof fn transient_classes_agree(error: DaftError)
    requires
        !(unshared(error) is PyO3Error),
    ensures
        error.transient() <==> pyerr_class(unshared(error)).is_transient_class(),
    decreases error,
{
    if error is Shared {
        transient_classes_agree(shared_error(error));
    }
}

/// A shuffle file failure, and an unavailable map output, is never transient: each has its own
/// way to be repeated.
pub proof fn shuffle_failures_are_not_transient(error: DaftError)
    requires
        unshared(error) is ShuffleIo || unshared(error) is ShuffleFetchFailure,
    ensures
        !error.transient(),
    decreases error,
{
    if error is Shared {
        shuffle_failures_are_not_transient(shared_error(error));
    }
}

/// The exception that stands `k` links behind another one: behind an exception stands what a
/// remote task raised, or else what it was raised from.
pub open spec fn behind(e: PyException, k: nat) -> Option<PyException>
    decreases k,
{
    if k == 0 {
        Some(e)
    } else {
        match e.cause {
            Some(cause) => behind(*cause, (k - 1) as nat),
            None => match e.raised_from {
                Some(from) => behind(*from, (k - 1) as nat),
                None => None,
            },
        }
    }
}

proof fn lemma_transient_within(e: PyException, depth: nat)
    ensures
        e.transient_within(depth) <==> exists|k: nat|
            k < depth && (#[trigger] behind(e, k)) is Some && behind(e, k)->0.is_transient,
    decreases depth,
{
    if depth > 0 {
        assert(behind(e, 0) == Some(e));
        match e.next() {
            Some(next) => {
                let rest = (depth - 1) as nat;
                lemma_transient_within(*next, rest);
                if next.transient_within(rest) {
                    let k = choose|k: nat|
                        k < rest && (#[trigger] behind(*next, k)) is Some && behind(
                            *next,
                            k,
                        )->0.is_transient;
                    assert(behind(e, k + 1) == behind(*next, k));
                }
                if exists|k: nat|
                    k < depth && (#[trigger] behind(e, k)) is Some && behind(e, k)->0.is_transient {
                    let k = choose|k: nat|
                        k < depth && (#[trigger] behind(e, k)) is Some && behind(
                            e,
                            k,
                        )->0.is_transient;
                    if k > 0 {
                        assert(behind(e, k) == behind(*next, (k - 1) as nat));
                    }
                }
            },
            None => {
                assert forall|k: nat| k > 0 implies (#[trigger] behind(e, k)) is None by {}
            },
        }
    }
}

/// An exception is transient exactly where it or one of the four behind it is of that class.
pub proof fn transient_exceptions_are_found_close_by(e: PyException)
    ensures
        DaftError::PyO3Error(e).transient() <==> exists|k: nat|
            k < 5 && (#[trigger] behind(e, k)) is Some && behind(e, k)->0.is_transient,
{
    lemma_transient_within(e, 5);
}

proof fn lemma_io_at(e: PyException, depth: nat, k: nat)
    requires
        k < depth,
        behind(e, k) is Some,
        behind(e, k)->0.is_shuffle_io,
        forall|j: nat| j < k ==> !(#[trigger] behind(e, j))->0.is_shuffle_io,
    ensures
        e.io_within(depth) == behind(e, k)->0.shuffle_io,
    decreases depth,
{
    if k > 0 {
        assert(!behind(e, 0)->0.is_shuffle_io);
        let next = *e.next()->0;
        let less = (k - 1) as nat;
        assert(behind(next, less) == behind(e, k));
        assert forall|j: nat| j < less implies !(#[trigger] behind(next, j))->0.is_shuffle_io by {
            assert(behind(next, j) == behind(e, j + 1));
        }
        lemma_io_at(next, (depth - 1) as nat, less);
    }
}

proof fn lemma_fetch_at(e: PyException, depth: nat, k: nat)
    requires
        k < depth,
        behind(e, k) is Some,
        behind(e, k)->0.is_shuffle_fetch,
        behind(e, k)->0.shuffle_fetch is Some,
        forall|j: nat|
            j < k ==> !((#[trigger] behind(e, j))->0.is_shuffle_fetch && behind(
                e,
                j,
            )->0.shuffle_fetch is Some),
    ensures
        e.fetch_within(depth) == behind(e, k)->0.shuffle_fetch,
    decreases depth,
{
    if k > 0 {
        assert(!(behind(e, 0)->0.is_shuffle_fetch && behind(e, 0)->0.shuffle_fetch is Some));
        let next = *e.next()->0;
        let less = (k - 1) as nat;
        assert(behind(next, less) == behind(e, k));
        assert forall|j: nat| j < less implies !((#[trigger] behind(next, j))->0.is_shuffle_fetch
            && behind(next, j)->0.shuffle_fetch is Some) by {
            assert(behind(next, j) == behind(e, j + 1));
        }
        lemma_fetch_at(next, (depth - 1) as nat, less);
    }
}

proof fn lemma_none_within(e: PyException, depth: nat)
    ensures
        (forall|j: nat|
            j < depth && (#[trigger] behind(e, j)) is Some ==> !behind(e, j)->0.is_shuffle_io)
            ==> e.io_within(depth) is None,
        (forall|j: nat|
            j < depth && (#[trigger] behind(e, j)) is Some ==> !(behind(e, j)->0.is_shuffle_fetch
                && behind(e, j)->0.shuffle_fetch is Some)) ==> e.fetch_within(depth) is None,
    decreases depth,
{
    if depth > 0 {
        assert(behind(e, 0) == Some(e));
        if let Some(next) = e.next() {
            let rest = (depth - 1) as nat;
            lemma_none_within(*next, rest);
            assert forall|j: nat| #[trigger] behind(*next, j) == behind(e, j + 1) by {}
        }
    }
}

/// The failure of a shuffle file that an exception carries is that of the first exception of
/// that class among it and the four behind it; where there is none, it carries none.
pub proof fn first_shuffle_failure_is_carried(e: PyException, k: nat)
    ensures
        k < 5 && behind(e, k) is Some && behind(e, k)->0.is_shuffle_io && (forall|j: nat|
            j < k ==> !(#[trigger] behind(e, j))->0.is_shuffle_io) ==> DaftError::PyO3Error(
            e,
        ).shuffle_io() == behind(e, k)->0.shuffle_io,
        (forall|j: nat|
            j < 5 && (#[trigger] behind(e, j)) is Some ==> !behind(e, j)->0.is_shuffle_io)
            ==> DaftError::PyO3Error(e).shuffle_io() is None,
{
    if k < 5 && behind(e, k) is Some && behind(e, k)->0.is_shuffle_io && (forall|j: nat|
        j < k ==> !(#[trigger] behind(e, j))->0.is_shuffle_io) {
        lemma_io_at(e, 5, k);
    }
    lemma_none_within(e, 5);
}

/// The lost output that an exception carries is the first that can be read among it and the four
/// behind it; where there is none, it carries none.
pub proof fn first_lost_output_is_carried(e: PyException, k: nat)
    ensures
        k < 5 && behind(e, k) is Some && behind(e, k)->0.is_shuffle_fetch && behind(
            e,
            k,
        )->0.shuffle_fetch is Some && (forall|j: nat|
            j < k ==> !((#[trigger] behind(e, j))->0.is_shuffle_fetch && behind(
                e,
                j,
            )->0.shuffle_fetch is Some)) ==> DaftError::PyO3Error(e).fetch_failure() == behind(
            e,
            k,
        )->0.shuffle_fetch,
        (forall|j: nat|
            j < 5 && (#[trigger] behind(e, j)) is Some ==> !(behind(e, j)->0.is_shuffle_fetch
                && behind(e, j)->0.shuffle_fetch is Some)) ==> DaftError::PyO3Error(
            e,
        ).fetch_failure() is None,
{
    if k < 5 && behind(e, k) is Some && behind(e, k)->0.is_shuffle_fetch && behind(
        e,
        k,
    )->0.shuffle_fetch is Some && (forall|j: nat|
        j < k ==> !((#[trigger] behind(e, j))->0.is_shuffle_fetch && behind(
            e,
            j,
        )->0.shuffle_fetch is Some)) {
        lemma_fetch_at(e, 5, k);
    }
    lemma_none_within(e, 5);
}

/// The error number of a chain of causes is that of the first link that has one, among as many
/// as are looked at.
pub proof fn first_error_number_counts(links: Seq<Option<i32>>, n: int, i: int)
    requires
        0 <= n,
    ensures
        0 <= i < n && i < links.len() && links[i] is Some && (forall|j: int|
            0 <= j < i ==> (#[trigger] links[j]) is None) ==> first_errno(links, n) == links[i],
        (forall|j: int| 0 <= j < n && j < links.len() ==> (#[trigger] links[j]) is None)
            ==> first_errno(links, n) is None,
    decreases n,
{
    if n > 0 && links.len() > 0 && links[0] is None {
        let rest = links.skip(1);
        first_error_number_counts(rest, n - 1, i - 1);
        if 0 <= i < n && i < links.len() && links[i] is Some && (forall|j: int|
            0 <= j < i ==> (#[trigger] links[j]) is None) {
            assert(i > 0);
            assert(rest[i - 1] == links[i]);
            assert forall|j: int| 0 <= j < i - 1 implies (#[trigger] rest[j]) is None by {
                assert(rest[j] == links[j + 1]);
            }
        }
        if forall|j: int| 0 <= j < n && j < links.len() ==> (#[trigger] links[j]) is None {
            assert forall|j: int| 0 <= j < n - 1 && j < rest.len() implies (
            #[trigger] rest[j]) is None by {
                assert(rest[j] == links[j + 1]);
            }
        }
    }
}

/// At the boundary of a shuffle file an error stays what it is where it carries such a failure
/// already, where no system error is among its first 31 causes, and where it is transient for
/// another reason than a device failure. Else it becomes such a failure, with the operation, the
/// file, the number and its own text.
pub proof fn system_errors_become_shuffle_failures(
    error: DaftError,
    operation: Seq<char>,
    path: Seq<char>,
    r: DaftError,
)
    requires
        error.in_io_context(operation, path, r),
    ensures
        ({
            let errno = first_errno(error.cause_errnos(), 31);
            if error.shuffle_io() is Some || errno is None || (errno->0 != 5 && error.transient()) {
                r == error
            } else {
                &&& r is ShuffleIo
                &&& r->ShuffleIo_0.operation@ == operation
                &&& r->ShuffleIo_0.path@ == path
                &&& r->ShuffleIo_0.errno == errno->0
                &&& r->ShuffleIo_0.message@ == error.text()
            }
        }),
{
}

/// An error of the engine keeps its class in Python: each class stands for one kind of error.
pub proof fn python_classes_stand_for_one_kind(error: DaftError)
    ensures
        pyerr_class(error) == PyErrClass::ShuffleFetch <==> error is ShuffleFetchFailure,
        pyerr_class(error) == PyErrClass::SameException <==> error is PyO3Error,
        pyerr_class(error) == PyErrClass::TypeError <==> error is TypeError,
        pyerr_class(error) == PyErrClass::FileNotFound <==> error is FileNotFound,
        pyerr_class(error) == PyErrClass::ConnectTimeout <==> error is ConnectTimeout,
        pyerr_class(error) == PyErrClass::ReadTimeout <==> error is ReadTimeout,
        pyerr_class(error) == PyErrClass::ByteStream <==> error is ByteStreamError,
        pyerr_class(error) == PyErrClass::Socket <==> error is SocketError,
        pyerr_class(error) == PyErrClass::Throttle <==> error is ThrottledIo,
        pyerr_class(error) == PyErrClass::MiscTransient <==> error is MiscTransient,
{
}

/// Errors that did not come out of Python are transient exactly where a connection, a read, a
/// stream or a socket failed, where the other side throttles, or where it says so itself.
pub proof fn only_network_failures_are_transient(error: DaftError)
    requires
        !(error is Shared),
        !(error is PyO3Error),
    ensures
        error.transient() <==> error is ConnectTimeout || error is ReadTimeout || error
            is ByteStreamError || error is SocketError || error is ThrottledIo || error
            is MiscTransient,
        error.shuffle_io() is Some <==> error is ShuffleIo,
        error.fetch_failure() is Some <==> error is ShuffleFetchFailure,
        error matches DaftError::ShuffleIo(failure) ==> error.shuffle_io() == Some(*failure),
        error matches DaftError::ShuffleFetchFailure(failure) ==> error.fetch_failure() == Some(
            *failure,
        ),
{
}

/// What is behind the layers that share an error is not shared itself, and has its text.
pub proof fn sharing_comes_off_whole(error: DaftError)
    ensures
        !(unshared(error) is Shared),
        unshared(error).text() == error.text(),
        unshared(error).transient() == error.transient(),
        !(error is Shared) ==> unshared(error) == error,
    decreases error,
{
    if error is Shared {
        sharing_comes_off_whole(shared_error(error));
    }
}

/// An error that is told to be of some kind with some text has that kind and that very text.
pub proof fn errors_have_their_text(error: DaftError, text: Seq<char>)
    ensures
        error.is_value_error(text) <==> error is ValueError && error->ValueError_0@ == text,
        error.is_internal_error(text) <==> error is InternalError && error->InternalError_0@
            == text,
        error.is_compute_error(text) <==> error is ComputeError && error->ComputeError_0@ == text,
        error.is_value_error(text) ==> error.text() == "DaftError::ValueError "@ + text,
        error.is_internal_error(text) ==> error.text() == "DaftError::InternalError "@ + text,
        error.is_compute_error(text) ==> error.text() == "DaftError::ComputeError "@ + text,
{
}

} // verus!
