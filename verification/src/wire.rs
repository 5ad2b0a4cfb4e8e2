//! Carrying the identity of a lost shuffle output through streams, local ones and remote ones.
use vstd::prelude::*;

use crate::error::{DaftError, GenericError, ShuffleFetchFailure};
use crate::text::owned;

verus! {

/// The name under which a status says that its details are a lost shuffle output. Its value is
/// then `1`.
pub const FAILURE_METADATA: &'static str = "daft-shuffle-failure";

/// What a status says.
#[derive(Clone, Copy, Debug, PartialEq, Eq, Structural)]
pub enum StatusCode {
    NotFound,
    Internal,
    Other,
}

/// A status as it travels.
#[derive(Debug)]
pub struct StatusParts {
    pub code: StatusCode,
    pub message: String,
    pub details: Vec<u8>,
    /// What it says under `FAILURE_METADATA`.
    pub failure_flag: Option<String>,
}

/// A failed stream, as it was met.
pub enum StreamFailure {
    /// On this node, with an error of the engine.
    Local(DaftError),
    /// On this node, with another error.
    LocalOther(GenericError),
    /// On another node: the status, the lost output where its details could be read as one, and
    /// the status as an error.
    Status { parts: StatusParts, decoded: Option<ShuffleFetchFailure>, error: GenericError },
    /// Anything else.
    Other(GenericError),
}

/// Whether `s` is the status of an error. One that is or carries a lost output says so, and has
/// the output in its details, where that could be written; `details` is what was written.
pub open spec fn is_status_of(
    error: DaftError,
    details: Option<Seq<u8>>,
    s: StatusParts,
) -> bool {
    &&& s.message@ == error.text()
    &&& if error.fetch_failure() is Some && details is Some {
        &&& s.code == StatusCode::NotFound
        &&& s.details@ == details->0
        &&& s.failure_flag is Some
        &&& s.failure_flag->0@ == "1"@
    } else {
        &&& s.code == StatusCode::Internal
        &&& s.details@.len() == 0
        &&& s.failure_flag is None
    }
}

/// The bytes that were written, if any were.
pub open spec fn written(details: Option<Vec<u8>>) -> Option<Seq<u8>> {
    match details {
        Some(details) => Some(details@),
        None => None,
    }
}

/// The status of an error; `details` is the lost output that it carries, as it was written.
pub fn to_status(error: &DaftError, details: Option<Vec<u8>>) -> (s: StatusParts)
    ensures
        is_status_of(*error, written(details), s),
{
    let message: String = error.to_text();
    if error.shuffle_fetch_failure().is_some() {
        match details {
            Some(details) => {
                return StatusParts {
                    code: StatusCode::NotFound,
                    message,
                    details,
                    failure_flag: Some(owned("1")),
                };
            },
            None => {},
        }
    }
    StatusParts { code: StatusCode::Internal, message, details: Vec::new(), failure_flag: None }
}

/// Whether the details of a status are to be read as a lost output.
pub open spec fn names_output(parts: StatusParts) -> bool {
    parts.code == StatusCode::NotFound && parts.failure_flag is Some && parts.failure_flag->0@
        == "1"@
}

/// Whether the details of a status are to be read as a lost output. Something else may be
/// missing too.
pub fn has_failure_details(parts: &StatusParts) -> (b: bool)
    ensures
        b == names_output(*parts),
{
    if parts.code != StatusCode::NotFound {
        return false;
    }
    match &parts.failure_flag {
        Some(flag) => {
            let one: String = owned("1");
            *flag == one
        },
        None => false,
    }
}

/// Whether `e` is the error of a failed stream.
pub open spec fn is_error_of(failure: StreamFailure, e: DaftError) -> bool {
    match failure {
        StreamFailure::Local(error) => e == error,
        StreamFailure::LocalOther(error) => e == DaftError::External(error),
        StreamFailure::Status { parts, decoded, error } => if names_output(parts)
            && decoded is Some {
            e matches DaftError::ShuffleFetchFailure(lost) && *lost == decoded->0
        } else {
            e == DaftError::External(error)
        },
        StreamFailure::Other(error) => e == DaftError::External(error),
    }
}

/// The error of a failed stream.
pub fn from_flight(failure: StreamFailure) -> (e: DaftError)
    ensures
        is_error_of(failure, e),
{
    match failure {
        StreamFailure::Local(error) => error,
        StreamFailure::LocalOther(error) => DaftError::External(error),
        StreamFailure::Status { parts, decoded, error } => {
            if has_failure_details(&parts) {
                match decoded {
                    Some(lost) => {
                        return DaftError::ShuffleFetchFailure(Box::new(lost));
                    },
                    None => {},
                }
            }
            DaftError::External(error)
        },
        StreamFailure::Other(error) => DaftError::External(error),
    }
}

/// Whether a status arrived as it was sent.
pub open spec fn arrived(sent: StatusParts, received: StatusParts) -> bool {
    &&& received.code == sent.code
    &&& received.details@ == sent.details@
    &&& received.failure_flag is Some <==> sent.failure_flag is Some
    &&& sent.failure_flag is Some ==> received.failure_flag->0@ == sent.failure_flag->0@
}

/// A lost output keeps its identity on its way through a status, in every way of writing it that
/// `read` undoes; and an error that carries none arrives as one that carries none, whatever its
/// details would be read as.
pub proof fn lost_outputs_keep_their_identity(
    error: DaftError,
    write: spec_fn(ShuffleFetchFailure) -> Seq<u8>,
    read: spec_fn(Seq<u8>) -> Option<ShuffleFetchFailure>,
    details: Option<Seq<u8>>,
    sent: StatusParts,
    received: StatusParts,
    status: GenericError,
    e: DaftError,
)
    requires
        error.fetch_failure() matches Some(lost) ==> {
            &&& details == Some(write(lost))
            &&& read(write(lost)) == Some(lost)
        },
        is_status_of(error, details, sent),
        arrived(sent, received),
        is_error_of(
            StreamFailure::Status {
                parts: received,
                decoded: read(received.details@),
                error: status,
            },
            e,
        ),
    ensures
        e.fetch_failure() == error.fetch_failure(),
        !e.transient(),
{
}

/// A status says that an output is lost exactly where the error carries a lost output and that
/// could be written; it has the error's text in any case, and no details otherwise.
pub proof fn only_lost_outputs_are_flagged(
    error: DaftError,
    details: Option<Seq<u8>>,
    s: StatusParts,
)
    requires
        is_status_of(error, details, s),
    ensures
        s.message@ == error.text(),
        s.code == StatusCode::NotFound <==> error.fetch_failure() is Some && details is Some,
        s.failure_flag is Some <==> error.fetch_failure() is Some && details is Some,
        names_output(s) <==> error.fetch_failure() is Some && details is Some,
        error.fetch_failure() is Some && details is Some ==> s.details@ == details->0,
        error.fetch_failure() is None || details is None ==> s.details@.len() == 0 && s.code
            == StatusCode::Internal,
{
}

/// An error of a stream is read as a lost output exactly where a status says so and its details
/// can be read; an error of this process stays what it is, and every other one is kept as an
/// error of another library.
pub proof fn only_readable_details_are_lost_outputs(failure: StreamFailure, e: DaftError)
    requires
        is_error_of(failure, e),
    ensures
        failure matches StreamFailure::Local(error) ==> e == error,
        failure matches StreamFailure::LocalOther(error) ==> e == DaftError::External(error),
        failure matches StreamFailure::Other(error) ==> e == DaftError::External(error),
        failure matches StreamFailure::Status { parts, decoded, error } ==> {
            let flagged = parts.code == StatusCode::NotFound && parts.failure_flag is Some
                && parts.failure_flag->0@ == "1"@ && decoded is Some;
            &&& flagged ==> e is ShuffleFetchFailure && *e->ShuffleFetchFailure_0 == decoded->0
            &&& !flagged ==> e == DaftError::External(error)
        },
{
}

} // verus!
