use daft_flotilla::checksum::RecoveryChecksum;
use daft_flotilla::io_error::{IoError, IoErrorKind, Platform};
use daft_flotilla::shuffle_file::{
    active_shuffle_writes, active_shuffle_writes_for, ActiveShuffleWrite, ActiveWrites,
    EioRetryBudget, EioRetryPolicy, FinishPlan, PassStep, ReadAction, ReadEvent, ReadState, ReadStep, RetryReader, RetryWriter,
    RewriteAction, RunEvent, RunStep, SeekStep, SyncStep, WriteCancellation, WriteScopes,
    WriteStep,
};

fn os_error(errno: i32) -> IoError {
    IoError {
        kind: IoErrorKind::Other,
        errno: Some(errno),
        message: "os error".to_string(),
        causes: vec![],
    }
}

fn budget(policy: EioRetryPolicy) -> EioRetryBudget {
    EioRetryBudget::new(policy, "test", Platform::Unix)
}

fn no_scopes() -> WriteScopes {
    WriteScopes::new()
}

fn retries(max_retries: u32) -> EioRetryPolicy {
    EioRetryPolicy { max_retries, initial_backoff_ms: 0, max_backoff_ms: 0 }
}

/// A file whose reads deliver three bytes at a time and fail on some calls. A failed call leaves
/// its position uncertain.
struct FaultFile {
    data: Vec<u8>,
    pos: u64,
    calls: usize,
    fail_calls: Vec<usize>,
    errno: i32,
}

impl FaultFile {
    fn read(&mut self, buf: &mut [u8]) -> Result<usize, IoError> {
        self.calls += 1;
        if self.fail_calls.contains(&self.calls) {
            buf[0] = 255;
            self.pos += 2;
            return Err(os_error(self.errno));
        }
        let pos = self.pos as usize;
        let n = 3.min(buf.len()).min(self.data.len().saturating_sub(pos));
        buf[..n].copy_from_slice(&self.data[pos..pos + n]);
        self.pos += n as u64;
        Ok(n)
    }
}

fn reader(errno: i32, max_retries: u32) -> (RetryReader, FaultFile) {
    (
        RetryReader::new(budget(retries(max_retries))),
        FaultFile {
            data: (0..32).collect(),
            pos: 0,
            calls: 0,
            fail_calls: vec![2, 5],
            errno,
        },
    )
}

/// Reads up to `want` bytes, or to the end; without patience it gives up at the first wait.
fn read(
    reader: &mut RetryReader,
    file: &mut FaultFile,
    want: usize,
    patient: bool,
) -> Result<Option<Vec<u8>>, IoError> {
    let mut out = Vec::new();
    while out.len() < want {
        let mut buf = vec![0u8; want - out.len()];
        let step = match reader.next_action(buf.len()) {
            ReadAction::Finish => return Ok(Some(out)),
            ReadAction::Read => reader.poll_read(ReadEvent::Read(file.read(&mut buf))),
            ReadAction::SleepThenSeek(_, at) => {
                if !patient {
                    return Ok(None);
                }
                file.pos = at;
                reader.poll_read(ReadEvent::SeekStarted(Ok(())))
            }
            ReadAction::CompleteSeek => reader.poll_read(ReadEvent::SeekCompleted(Ok(file.pos))),
        };
        match step {
            ReadStep::Continue => {}
            ReadStep::Deliver(0) => return Ok(Some(out)),
            ReadStep::Deliver(n) => out.extend_from_slice(&buf[..n]),
            ReadStep::Fail(e) => return Err(e),
        }
    }
    Ok(Some(out))
}

#[test]
fn partial_reads_retry_without_repeating_or_dropping_bytes() {
    let (mut r, mut file) = reader(5, 2);
    let data = read(&mut r, &mut file, 1000, true).unwrap().unwrap();
    assert_eq!(data, (0..32).collect::<Vec<u8>>());
    assert_eq!(r.budget.used, 2);
    assert!(r.check_seek().is_ok());
    file.pos = 10;
    r.start_seek(Ok(())).unwrap();
    assert!(matches!(r.poll_complete(), SeekStep::Complete));
    let tail = read(&mut r, &mut file, 1000, true).unwrap().unwrap();
    assert_eq!(tail, (10..32).collect::<Vec<u8>>());
}

#[test]
fn read_budget_is_cumulative_and_permanent_errors_are_not_retried() {
    for (errno, max_retries, used) in [(5, 1, 1), (5, 0, 0), (13, 3, 0), (28, 3, 0)] {
        let (mut r, mut file) = reader(errno, max_retries);
        let error = read(&mut r, &mut file, 1000, true).unwrap_err();
        assert_eq!(error.errno, Some(errno));
        assert_eq!(r.budget.used, used);
    }
}

#[test]
fn cancelling_a_backoff_does_not_deliver_partial_bytes() {
    let (mut r, mut file) = reader(5, 2);
    r.budget.policy.initial_backoff_ms = 1000;
    r.budget.policy.max_backoff_ms = 1000;
    let data = read(&mut r, &mut file, 3, true).unwrap().unwrap();
    assert_eq!(data, [0, 1, 2]);
    assert!(read(&mut r, &mut file, 3, false).unwrap().is_none());
    assert_eq!(r.state, ReadState::Backoff(1000));
    assert_eq!(r.offset, 3);
    assert_eq!(r.budget.used, 1);
}

#[test]
fn backoff_is_bounded_and_zero_can_disable_waiting() {
    let policy = EioRetryPolicy {
        max_retries: 6,
        initial_backoff_ms: 1000,
        max_backoff_ms: 32000,
    };
    for (attempt, expected) in [
        (0, 1),
        (1, 2),
        (2, 4),
        (3, 8),
        (4, 16),
        (5, 32),
        (6, 32),
        (u32::MAX, 32),
    ] {
        assert_eq!(policy.backoff(attempt), expected * 1000);
    }
    assert_eq!(EioRetryPolicy::default().backoff(7), 0);
}

#[test]
fn interrupted_syscalls_do_not_poison_or_consume_the_eio_budget() {
    let mut budget = budget(EioRetryPolicy::default());
    let mut calls = 0;
    let mut event = RunEvent::Start;
    let result = loop {
        match budget.run(&no_scopes(), event) {
            RunStep::Return(r) => break r.unwrap(),
            RunStep::Wait(_) => panic!("an interruption is not waited for"),
            RunStep::Attempt => {
                calls += 1;
                event = RunEvent::Outcome(if calls == 1 {
                    Err(IoError::new(IoErrorKind::Interrupted, "interrupted"))
                } else {
                    Ok(7)
                });
            }
        }
    };
    assert_eq!(result, 7);
    assert_eq!(calls, 2);
    assert_eq!(budget.used, 0);
}

#[test]
fn cancellation_wakes_a_long_backoff_without_another_syscall() {
    let mut scopes = WriteScopes::new();
    let cancellation = WriteCancellation::new(&mut scopes);
    let mut guard = Some(cancellation.guard());
    let mut budget = budget(EioRetryPolicy {
        max_retries: 6,
        initial_backoff_ms: 32_000,
        max_backoff_ms: 32_000,
    })
    .with_cancellation(cancellation);
    let mut calls = 0;
    let mut event: RunEvent<()> = RunEvent::Start;
    let error = loop {
        event = match budget.run(&scopes, event) {
            RunStep::Return(result) => break result.unwrap_err(),
            RunStep::Attempt => {
                calls += 1;
                RunEvent::Outcome(Err(os_error(5)))
            }
            RunStep::Wait(delay) => {
                assert_eq!(delay, 32_000);
                assert!(cancellation.wait(&scopes, 0, delay).is_none());
                guard.take().unwrap().release(&mut scopes);
                assert!(cancellation.wait(&scopes, 1, delay).unwrap().is_err());
                RunEvent::Waited
            }
        };
    };
    assert_eq!(calls, 1);
    assert_ne!(error.kind, IoErrorKind::Interrupted);
}

#[test]
fn nothing_is_tried_in_a_scope_that_is_cancelled_already() {
    let mut scopes = WriteScopes::new();
    let other = WriteCancellation::new(&mut scopes);
    let cancellation = WriteCancellation::new(&mut scopes);
    let copy = cancellation;
    let second = copy.guard();
    assert!(cancellation.check(&scopes).is_ok());
    cancellation.guard().release(&mut scopes);
    let mut budget = budget(retries(3)).with_cancellation(copy);
    for event in [RunEvent::Start, RunEvent::Waited] {
        match budget.run::<u8>(&scopes, event) {
            RunStep::Return(Err(error)) => {
                assert_eq!(error.kind, IoErrorKind::Other);
                assert_eq!(error.message, "Shuffle write cancelled");
            }
            _ => panic!("an attempt in a cancelled scope"),
        }
    }
    assert_eq!(budget.used, 0);
    let interrupted = Err(IoError::new(IoErrorKind::Interrupted, "again"));
    assert!(matches!(
        budget.run::<u8>(&scopes, RunEvent::Outcome(interrupted)),
        RunStep::Return(Err(_))
    ));
    // An operation that has succeeded meanwhile has succeeded.
    assert!(matches!(budget.run(&scopes, RunEvent::Outcome(Ok(7))), RunStep::Return(Ok(7))));
    second.release(&mut scopes);
    assert!(copy.check(&scopes).is_err() && cancellation.check(&scopes).is_err());
    assert!(other.check(&scopes).is_ok());
    assert!(other.wait(&scopes, 9, 10).is_none());
    assert!(other.wait(&scopes, 10, 10).unwrap().is_ok());
}

#[test]
fn error_numbers_mean_device_failures_on_unix_only() {
    let policy = retries(3);
    let mut elsewhere = EioRetryBudget::new(policy, "test", Platform::Other);
    assert!(elsewhere.delay(&os_error(5)).is_none());
    assert_eq!(elsewhere.used, 0);
    assert_eq!(budget(policy).delay(&os_error(5)), Some(0));
}

#[test]
fn pending_external_seek_is_completed_before_read_recovery() {
    let (mut r, mut file) = reader(5, 1);
    file.fail_calls = vec![1];
    file.pos = 10;
    r.start_seek(Ok(())).unwrap();
    let tail = read(&mut r, &mut file, 1000, true).unwrap().unwrap();
    assert_eq!(tail, (10..32).collect::<Vec<u8>>());
}

#[test]
fn rejected_seek_does_not_change_a_cancelled_reads_recovery_offset() {
    let (mut r, mut file) = reader(5, 1);
    file.fail_calls = vec![2];
    r.budget.policy.initial_backoff_ms = 30;
    r.budget.policy.max_backoff_ms = 30;
    read(&mut r, &mut file, 3, true).unwrap();
    assert!(read(&mut r, &mut file, 3, false).unwrap().is_none());
    assert!(r.check_seek().is_err());
    assert!(matches!(r.poll_complete(), SeekStep::Fail(_)));
    assert_eq!(r.offset, 3);
    let tail = read(&mut r, &mut file, 1000, true).unwrap().unwrap();
    assert_eq!(tail, (3..32).collect::<Vec<u8>>());
}

fn write_all(writer: &mut RetryWriter, file: &mut Vec<u8>, bytes: &[u8]) {
    let mut rest = bytes;
    while !rest.is_empty() {
        let at = writer.begin_write(&no_scopes()).unwrap() as usize;
        let n = rest.len().min(7);
        file.resize(file.len().max(at + n), 0);
        file[at..at + n].copy_from_slice(&rest[..n]);
        assert!(matches!(writer.write(&no_scopes(), rest, Ok(n)), WriteStep::Done(m) if m == n));
        rest = &rest[n..];
    }
}

fn finish(writer: &mut RetryWriter, file: &mut Vec<u8>, wide: bool) -> Result<(), IoError> {
    match writer.finish(&no_scopes())? {
        FinishPlan::Seek(_) => Ok(()),
        FinishPlan::Recover(size) => {
            let mut buf = vec![0u8; size];
            let mut pass = writer.rewrite_region(&no_scopes(), size, wide)?;
            let outcome = loop {
                match pass.action(&writer.budget, &no_scopes())? {
                    RewriteAction::Read(at, len) => {
                        let at = at as usize;
                        let n = len.min(file.len().saturating_sub(at)).min(4);
                        buf[..n].copy_from_slice(&file[at..at + n]);
                        if let Err(e) = pass.on_read(&buf, Ok(n)) {
                            break Err(e);
                        }
                    }
                    RewriteAction::Write(from, to, at) => {
                        let at = at as usize;
                        let n = (to - from).min(3);
                        file[at..at + n].copy_from_slice(&buf[from..from + n]);
                        pass.on_write(Ok(n))?;
                    }
                    RewriteAction::Done(crc) => break Ok(crc),
                }
            };
            let crc = match writer.after_pass(outcome) {
                PassStep::Verify(crc) => crc,
                PassStep::Wait(_) => panic!("nothing to wait for"),
                PassStep::Fail(e) => return Err(e),
            };
            writer.verify(&no_scopes(), crc, Ok(file.len() as u64))?;
            match writer.after_sync(&no_scopes(), Ok(())) {
                SyncStep::Done => Ok(()),
                SyncStep::Again => panic!("nothing to repeat"),
                SyncStep::Fail(e) => Err(e),
            }
        }
    }
}

#[test]
fn write_recovery_preserves_reserved_prefix_and_detects_earlier_corruption() {
    for wide in [false, true] {
        for corrupt in [false, true] {
            let mut file = b"index".to_vec();
            let mut writer =
                RetryWriter::new(5, budget(retries(1)), wide);
            write_all(&mut writer, &mut file, b"first chunk, second chunk");
            writer.recovered_write = true;
            if corrupt {
                file[5] = b'!';
            }
            let result = finish(&mut writer, &mut file, wide);
            if corrupt {
                assert_eq!(result.unwrap_err().errno, Some(5));
            } else {
                result.unwrap();
                assert_eq!(file, b"indexfirst chunk, second chunk");
            }
        }
    }
}

#[test]
fn a_repeated_write_is_read_back_before_the_file_is_handed_over() {
    let mut file = Vec::new();
    let mut writer = RetryWriter::new(0, budget(retries(1)), true);
    assert!(matches!(writer.write(&no_scopes(), b"abc", Err(os_error(5))), WriteStep::Wait(0)));
    assert!(writer.recovered_write);
    write_all(&mut writer, &mut file, b"abcdef");
    finish(&mut writer, &mut file, false).unwrap();
    assert_eq!(file, b"abcdef");
    // A file that ends early has lost data.
    writer.recovered_write = true;
    file.truncate(4);
    assert_eq!(finish(&mut writer, &mut file, true).unwrap_err().errno, Some(5));
}

#[test]
fn a_failed_write_ends_the_file() {
    let mut writer = RetryWriter::new(0, budget(retries(0)), false);
    assert!(matches!(writer.write(&no_scopes(), b"abc", Err(os_error(5))), WriteStep::Fail(_)));
    assert_eq!(writer.begin_write(&no_scopes()).unwrap_err().errno, Some(5));
    assert_eq!(writer.flush().unwrap_err().errno, Some(5));
    assert!(writer.finish(&no_scopes()).is_err());
    // The error is handed over once.
    assert!(writer.flush().is_ok());
}

#[test]
fn cancelled_writers_write_nothing() {
    let mut scopes = WriteScopes::new();
    let scope = WriteCancellation::new(&mut scopes);
    let writer = || {
        let mut writer = RetryWriter::new(0, budget(retries(3)), false);
        writer.set_cancellation(scope);
        writer
    };
    let interrupted = || IoError::new(IoErrorKind::Interrupted, "again");
    let mut w = writer();
    assert!(matches!(w.write(&scopes, b"abc", Err(interrupted())), WriteStep::Again));
    assert!(matches!(w.write(&scopes, b"abc", Ok(3)), WriteStep::Done(3)));
    let mut pass = w.rewrite_region(&scopes, 3, false).unwrap();
    assert!(matches!(pass.action(&w.budget, &scopes), Ok(RewriteAction::Read(0, 3))));
    assert!(matches!(w.after_sync(&scopes, Err(interrupted())), SyncStep::Again));
    scope.guard().release(&mut scopes);
    assert!(pass.action(&w.budget, &scopes).is_err());
    assert!(w.rewrite_region(&scopes, 3, false).is_err());
    assert!(matches!(w.after_sync(&scopes, Ok(())), SyncStep::Fail(_)));
    assert!(matches!(w.after_sync(&scopes, Err(interrupted())), SyncStep::Fail(_)));
    // What was read and written back meanwhile counts.
    pass.on_read(b"abc", Ok(3)).unwrap();
    pass.on_write(Ok(3)).unwrap();
    assert!(matches!(pass.action(&w.budget, &scopes), Ok(RewriteAction::Done(_))));
    assert!(w.finish(&scopes).is_err());
    let mut w = writer();
    assert!(matches!(w.write(&scopes, b"abc", Err(interrupted())), WriteStep::Fail(_)));
    assert!(w.terminal_error.is_some());
    let mut w = writer();
    assert!(w.begin_write(&scopes).is_err());
    assert_eq!(w.flush().unwrap_err().message, "Shuffle write cancelled");
}

#[test]
fn active_writes_are_counted_until_they_are_released() {
    let mut writes = ActiveWrites { count: 0, owners: vec![] };
    let plain = ActiveShuffleWrite::track(&mut writes);
    let first = ActiveShuffleWrite::for_shuffle(&mut writes, Some(1));
    let second = ActiveShuffleWrite::for_shuffle(&mut writes, Some(2));
    let third = ActiveShuffleWrite::for_shuffle(&mut writes, Some(1));
    let owned = |writes: &ActiveWrites, ids: &[u64]| active_shuffle_writes_for(writes, &ids.to_vec());
    assert_eq!(active_shuffle_writes(&writes), 4);
    assert_eq!((owned(&writes, &[1]), owned(&writes, &[2]), owned(&writes, &[3])), (2, 1, 0));
    assert_eq!(owned(&writes, &[1, 2, 1]), 3);
    first.release(&mut writes);
    assert_eq!((owned(&writes, &[1]), owned(&writes, &[2])), (1, 1));
    plain.release(&mut writes);
    assert_eq!(active_shuffle_writes(&writes), 2);
    second.release(&mut writes);
    third.release(&mut writes);
    assert_eq!((active_shuffle_writes(&writes), owned(&writes, &[1, 2])), (0, 0));
}

#[test]
fn ieee_crc_matches_existing_partition_checksums_across_update_boundaries() {
    let bytes: Vec<u8> = (0..4 * 1024 * 1024 + 96)
        .map(|i: usize| (i.wrapping_mul(31) ^ (i >> 7) ^ (i >> 13)) as u8)
        .collect();
    let mut known = RecoveryChecksum::new(true);
    known.update(b"123456789");
    assert_eq!(known.finalize(), 0xcbf43926);

    for offset in [0, 1, 15, 31, 63] {
        for len in [
            0,
            1,
            63,
            64,
            127,
            128,
            4095,
            4096,
            8191,
            8192,
            8193,
            4 * 1024 * 1024 + 7,
        ] {
            let value = &bytes[offset..offset + len];
            let expected = crc32fast::hash(value);
            for chunk_size in [1, 63, 8192, 4 * 1024 * 1024] {
                if len > 8193 && chunk_size < 8192 {
                    continue;
                }
                for mut actual in [RecoveryChecksum::new(true), RecoveryChecksum::new(false)] {
                    actual.update(&[]);
                    for chunk in value.chunks(chunk_size) {
                        actual.update(chunk);
                    }
                    assert_eq!(actual.finalize(), expected, "{offset}/{len}/{chunk_size}");
                }
            }
        }
    }
}
