use std::sync::Arc;

use daft_flotilla::error::{
    to_pyerr, DaftError, GenericError, PyErrClass, PyException, ShuffleFetchFailure,
};
use daft_flotilla::io_error::{copy_io_error, IoError, IoErrorKind, Platform};
use daft_flotilla::wire::{
    from_flight, has_failure_details, to_status, StatusCode, StatusParts, StreamFailure,
    FAILURE_METADATA,
};
use serde_json::Value;
use tonic::{Code, Status};

fn cause(text: &str) -> GenericError {
    GenericError { message: text.to_string(), errnos: vec![None] }
}

fn os_cause(errno: i32) -> GenericError {
    GenericError { message: format!("os error {errno}"), errnos: vec![Some(errno)] }
}

fn os_error(errno: i32) -> IoError {
    IoError {
        kind: IoErrorKind::Other,
        errno: Some(errno),
        message: format!("os error {errno}"),
        causes: vec![],
    }
}

fn exception(text: &str) -> PyException {
    PyException {
        text: text.to_string(),
        is_transient: false,
        is_shuffle_io: false,
        shuffle_io: None,
        is_shuffle_fetch: false,
        shuffle_fetch: None,
        cause: None,
        raised_from: None,
    }
}

fn failure() -> ShuffleFetchFailure {
    ShuffleFetchFailure {
        shuffle_id: 17,
        input_id: 9,
        attempt: u64::MAX,
        partition_idx: 3,
        path: "/test/map.arrow".to_string(),
        message: "missing".to_string(),
    }
}

#[test]
fn native_transient_variants_are_retryable() {
    let transient: Vec<DaftError> = vec![
        DaftError::ConnectTimeout(cause("connect")),
        DaftError::ReadTimeout(cause("read")),
        DaftError::ByteStreamError(cause("stream")),
        DaftError::SocketError(cause("socket")),
        DaftError::ThrottledIo(cause("throttled")),
        DaftError::MiscTransient(cause("misc")),
    ];
    for error in transient {
        assert!(error.is_transient(), "{error:?} should be transient");
        let shared = DaftError::Shared(Arc::new(error));
        assert!(shared.is_transient(), "{shared:?} should stay transient");
    }
}

#[test]
fn data_and_logic_errors_are_not_retryable() {
    let permanent: Vec<DaftError> = vec![
        DaftError::ComputeError("compute".to_string()),
        DaftError::ValueError("value".to_string()),
        DaftError::InternalError("internal".to_string()),
        DaftError::TypeError("type".to_string()),
        DaftError::SchemaMismatch("schema".to_string()),
        DaftError::CorruptFile("corrupt".to_string()),
        DaftError::External(cause("external")),
    ];
    for error in permanent {
        assert!(!error.is_transient(), "{error:?} should not be transient");
        let shared = DaftError::Shared(Arc::new(error));
        assert!(!shared.is_transient(), "{shared:?} should stay permanent");
    }
}

#[test]
fn shuffle_io_preserves_typed_errno_through_arrow_and_shared_errors() {
    for errno in [5, 13, 28, 30] {
        let error = DaftError::ArrowRsError(GenericError {
            message: "Io error".to_string(),
            errnos: vec![None, Some(errno)],
        })
        .with_shuffle_io_context("write", "/shuffle/map.arrow");
        let failure = error.shuffle_io_error().unwrap();
        assert_eq!(failure.errno, errno);
        for platform in [Platform::Unix, Platform::Other] {
            let unix = platform == Platform::Unix;
            assert_eq!(failure.is_eio(platform), unix && errno == 5);
        }
        let shared = DaftError::Shared(Arc::new(error));
        assert_eq!(shared.shuffle_io_error(), Some(failure));
        assert!(!shared.is_transient(), "EIO uses its own task policy");
    }
}

#[test]
fn generic_io_and_error_text_do_not_enable_shuffle_retries() {
    let generic = DaftError::IoError(os_error(5));
    assert!(generic.shuffle_io_error().is_none());
    let text = DaftError::InternalError("Input/output error (os error 5)".to_string())
        .with_shuffle_io_context("read", "/shuffle/map.arrow");
    assert!(text.shuffle_io_error().is_none());
}

#[test]
fn explicit_transient_causes_keep_their_classification_except_for_eio() {
    for errno in [13, 28, 110] {
        let error = DaftError::MiscTransient(os_cause(errno))
            .with_shuffle_io_context("read", "/shuffle/map.arrow");
        assert!(error.is_transient());
        assert!(error.shuffle_io_error().is_none());
    }
    let error =
        DaftError::MiscTransient(os_cause(5)).with_shuffle_io_context("read", "/shuffle/map.arrow");
    assert!(error.shuffle_io_error().unwrap().is_eio(Platform::Unix));
    assert!(!error.is_transient());
}

#[test]
fn shuffle_io_text_names_operation_path_and_number() {
    let error = DaftError::IoError(os_error(28)).with_shuffle_io_context("write", "/s/map.arrow");
    let failure = error.shuffle_io_error().unwrap();
    assert_eq!(
        failure.to_text(),
        format!("Shuffle write failed at /s/map.arrow (errno 28): {}", failure.message)
    );
}

#[test]
fn context_is_added_once_only() {
    let first = DaftError::IoError(os_error(5)).with_shuffle_io_context("write", "/a");
    let second = first.with_shuffle_io_context("close", "/b");
    let failure = second.shuffle_io_error().unwrap();
    assert_eq!(failure.operation, "write");
    assert_eq!(failure.path, "/a");
}

#[test]
fn causes_are_followed_for_a_bounded_number_of_links() {
    let mut near = vec![None; 30];
    near.push(Some(28));
    let error = DaftError::External(GenericError { message: "x".to_string(), errnos: near })
        .with_shuffle_io_context("read", "/a");
    assert_eq!(error.shuffle_io_error().unwrap().errno, 28);
    let mut far = vec![None; 31];
    far.push(Some(28));
    let error = DaftError::External(GenericError { message: "x".to_string(), errnos: far })
        .with_shuffle_io_context("read", "/a");
    assert!(error.shuffle_io_error().is_none());
}

#[test]
fn causes_behind_a_system_error_are_followed_too() {
    let behind = |causes| {
        let mut error = IoError::new(IoErrorKind::Other, "wrapped");
        error.causes = causes;
        error
    };
    let error = DaftError::IoError(behind(vec![None, Some(28), Some(5)]))
        .with_shuffle_io_context("write", "/a");
    assert_eq!(error.shuffle_io_error().unwrap().errno, 28);
    let mut far = vec![None; 30];
    far.push(Some(28));
    let error = DaftError::IoError(behind(far)).with_shuffle_io_context("write", "/a");
    assert!(error.shuffle_io_error().is_none());
    // A copy reports the failure, not what is behind it.
    let copy = copy_io_error(&behind(vec![Some(28)]));
    assert!(copy.causes.is_empty());
    assert_eq!(copy.message, "wrapped");
}

#[test]
fn fetch_failure_text_shows_the_attempt_in_hexadecimal() {
    assert_eq!(
        failure().to_text(),
        "Shuffle 17 map 9 attempt 0xffffffffffffffff partition 3: missing (/test/map.arrow)"
    );
}

#[test]
fn python_exceptions_are_looked_through_for_their_causes() {
    let mut inner = exception("socket closed");
    inner.is_transient = true;
    let mut middle = exception("task failed");
    middle.cause = Some(Box::new(inner));
    let mut outer = exception("stage failed");
    outer.raised_from = Some(Box::new(middle));
    assert!(DaftError::PyO3Error(outer).is_transient());
    assert!(!DaftError::PyO3Error(exception("value error")).is_transient());

    let mut lost = exception("lost");
    lost.is_shuffle_fetch = true;
    lost.shuffle_fetch = Some(failure());
    let error = DaftError::Shared(Arc::new(DaftError::PyO3Error(lost)));
    assert_eq!(error.shuffle_fetch_failure(), Some(failure()));
    assert!(!error.is_transient());
}

#[test]
fn long_exception_chains_are_not_followed_to_the_end() {
    let mut chain = exception("root");
    chain.is_transient = true;
    for _ in 0..5 {
        let mut next = exception("wrapper");
        next.cause = Some(Box::new(chain));
        chain = next;
    }
    assert!(!DaftError::PyO3Error(chain).is_transient());
}

#[test]
fn python_classes_follow_the_error_behind_the_sharing() {
    let error = DaftError::Shared(Arc::new(DaftError::Shared(Arc::new(DaftError::SocketError(
        cause("reset"),
    )))));
    let (class, inner) = to_pyerr(&error);
    assert_eq!(class, PyErrClass::Socket);
    assert!(matches!(inner, DaftError::SocketError(_)));
    assert_eq!(to_pyerr(&DaftError::ValueError("v".to_string())).0, PyErrClass::Core);
    assert_eq!(
        to_pyerr(&DaftError::ShuffleFetchFailure(Box::new(failure()))).0,
        PyErrClass::ShuffleFetch
    );
    assert_eq!(to_pyerr(&DaftError::type_error("t")).0, PyErrClass::TypeError);
}

#[test]
fn copies_of_io_errors_are_equal() {
    let error = os_error(13);
    let copy = copy_io_error(&error);
    assert_eq!(copy.kind, error.kind);
    assert_eq!(copy.errno, Some(13));
    assert_eq!(copy.message, error.message);
    assert!(IoError::eio().is_eio(Platform::Unix));
    assert!(!IoError::eio().is_eio(Platform::Other));
    assert!(!copy.is_eio(Platform::Unix));
}

/// A lost output as it is written into a status.
fn details_of(lost: &ShuffleFetchFailure) -> Vec<u8> {
    let mut map = serde_json::Map::new();
    map.insert("shuffle_id".to_string(), Value::from(lost.shuffle_id));
    map.insert("input_id".to_string(), Value::from(lost.input_id));
    map.insert("attempt".to_string(), Value::from(lost.attempt));
    map.insert("partition_idx".to_string(), Value::from(lost.partition_idx));
    map.insert("path".to_string(), Value::from(lost.path.as_str()));
    map.insert("message".to_string(), Value::from(lost.message.as_str()));
    serde_json::to_vec(&Value::Object(map)).unwrap()
}

fn read_details(details: &[u8]) -> Option<ShuffleFetchFailure> {
    let value: Value = serde_json::from_slice(details).ok()?;
    let number = |name: &str| value.get(name).and_then(Value::as_u64);
    let text = |name: &str| value.get(name).and_then(Value::as_str).map(str::to_string);
    Some(ShuffleFetchFailure {
        shuffle_id: number("shuffle_id")?,
        input_id: u32::try_from(number("input_id")?).ok()?,
        attempt: number("attempt")?,
        partition_idx: u32::try_from(number("partition_idx")?).ok()?,
        path: text("path")?,
        message: text("message")?,
    })
}

/// Sends an error through the headers of a response.
fn over_the_wire(error: &DaftError) -> DaftError {
    let details = error.shuffle_fetch_failure().map(|lost| details_of(&lost));
    let parts = to_status(error, details);
    let code = match parts.code {
        StatusCode::NotFound => Code::NotFound,
        StatusCode::Internal => Code::Internal,
        StatusCode::Other => Code::Unknown,
    };
    let mut status = Status::with_details(code, parts.message, parts.details.into());
    if let Some(flag) = parts.failure_flag {
        status.metadata_mut().insert(FAILURE_METADATA, flag.parse().unwrap());
    }
    let received = Status::from_header_map(status.into_http::<()>().headers()).unwrap();
    let parts = StatusParts {
        code: match received.code() {
            Code::NotFound => StatusCode::NotFound,
            Code::Internal => StatusCode::Internal,
            _ => StatusCode::Other,
        },
        message: received.message().to_string(),
        details: received.details().to_vec(),
        failure_flag: received
            .metadata()
            .get(FAILURE_METADATA)
            .and_then(|flag| flag.to_str().ok())
            .map(str::to_string),
    };
    let decoded = read_details(received.details());
    from_flight(StreamFailure::Status { parts, decoded, error: cause("status") })
}

#[test]
fn local_and_rpc_errors_preserve_exact_output_identity() {
    let expected = failure();
    let local = from_flight(StreamFailure::Local(DaftError::ShuffleFetchFailure(Box::new(
        expected.clone(),
    ))));
    assert_eq!(local.shuffle_fetch_failure(), Some(expected.clone()));
    let shared = DaftError::Shared(Arc::new(local));
    assert_eq!(shared.shuffle_fetch_failure(), Some(expected.clone()));
    let remote = over_the_wire(&shared);
    assert_eq!(remote.shuffle_fetch_failure(), Some(expected));
    assert!(!remote.is_transient());
}

#[test]
fn other_errors_do_not_become_lost_outputs_on_their_way() {
    let other = DaftError::Shared(Arc::new(DaftError::ValueError("no output".to_string())));
    assert!(over_the_wire(&other).shuffle_fetch_failure().is_none());
    // Not even with details that would be read as one.
    let parts = to_status(&other, Some(details_of(&failure())));
    let received =
        from_flight(StreamFailure::Status { parts, decoded: Some(failure()), error: cause("s") });
    assert!(received.shuffle_fetch_failure().is_none());
}

#[test]
fn ordinary_not_found_and_permissions_do_not_request_reconstruction() {
    let ordinary = from_flight(StreamFailure::Status {
        parts: StatusParts {
            code: StatusCode::NotFound,
            message: "not a shuffle output".to_string(),
            details: vec![],
            failure_flag: None,
        },
        decoded: Some(failure()),
        error: cause("not a shuffle output"),
    });
    assert!(ordinary.shuffle_fetch_failure().is_none());
    let denied = failure().open_error(IoError::new(IoErrorKind::PermissionDenied, "denied"));
    assert!(denied.shuffle_fetch_failure().is_none());
}

#[test]
fn a_missing_file_is_a_lost_output() {
    let lost = failure().open_error(IoError::new(IoErrorKind::NotFound, "no such file"));
    let got = lost.shuffle_fetch_failure().unwrap();
    assert_eq!(got.message, "no such file");
    assert_eq!(got.attempt, u64::MAX);
}

#[test]
fn statuses_of_other_errors_carry_no_output() {
    let status = to_status(&DaftError::ValueError("bad".to_string()), Some(vec![1, 2]));
    assert_eq!(status.code, StatusCode::Internal);
    assert_eq!(status.message, DaftError::ValueError("bad".to_string()).to_text());
    assert!(status.details.is_empty());
    assert!(status.failure_flag.is_none());
    let unwritten = to_status(&DaftError::ShuffleFetchFailure(Box::new(failure())), None);
    assert_eq!(unwritten.code, StatusCode::Internal);
    let flagged = StatusParts {
        code: StatusCode::NotFound,
        message: String::new(),
        details: vec![],
        failure_flag: Some("2".to_string()),
    };
    assert!(!has_failure_details(&flagged));
    assert!(matches!(
        from_flight(StreamFailure::Other(cause("x"))),
        DaftError::External(_)
    ));
    assert!(matches!(
        from_flight(StreamFailure::LocalOther(cause("x"))),
        DaftError::External(_)
    ));
}
