use daft_flotilla::client::{ticket_chunks, FlightClientManager, TicketRef};
use daft_flotilla::error::DaftError;
use daft_flotilla::io_error::{IoError, IoErrorKind};
use daft_flotilla::ipc::{CompressionType, IPCWriterFactory, WriteResult};
use daft_flotilla::local_io::{
    configure, forget, from_config, policy, LocalRetrySettings, ShufflePolicies,
};
use daft_flotilla::read_stats::{elapsed_us, ReadCounters, ReadStats};
use daft_flotilla::shuffle_cache::{
    check_dir, get_partition_dir, get_shuffle_dirs, next_group, partition_ref_id, write_closes,
    writer_task, CloseStep, InProgressShuffleCache, PartitionCache, ReadyPart, WriterStage,
    WriterTaskResult, READY_WRITE_GROUP_BYTES,
};
use daft_flotilla::shuffle_file::{
    active_shuffle_writes, active_shuffle_writes_for, ActiveShuffleWrite, ActiveWrites,
    EioRetryPolicy,
};

const SHUFFLE: u64 = 7;

/// When a writer fails.
#[derive(Clone, Copy, PartialEq)]
enum Fault {
    Never,
    OnWrite,
    OnClose,
}

/// A partition whose writer keeps its files in memory, and begins a new one where the last has
/// reached its size.
struct Partition {
    cache: InProgressShuffleCache,
    queue: Vec<Vec<u8>>,
    files: Vec<Vec<u8>>,
    file_size: usize,
    fault: Fault,
    failed: Option<DaftError>,
    closed: bool,
    writes: ActiveWrites,
    registration: Option<ActiveShuffleWrite>,
}

impl Partition {
    fn new(file_size: usize, fault: Fault) -> Partition {
        let mut writes = ActiveWrites { count: 0, owners: vec![] };
        let registration = Some(ActiveShuffleWrite::for_shuffle(&mut writes, Some(SHUFFLE)));
        Partition {
            cache: InProgressShuffleCache::new(0, "/dir".to_string()),
            queue: vec![],
            files: vec![],
            file_size,
            fault,
            failed: None,
            closed: false,
            writes,
            registration,
        }
    }

    fn write(&mut self, values: &[u8]) {
        for value in values {
            if self.files.last().map_or(true, |file| file.len() == self.file_size) {
                self.files.push(vec![]);
            }
            self.files.last_mut().unwrap().push(*value);
        }
    }

    /// Lets the writer write what is in the queue.
    fn drain(&mut self) {
        let parts: Vec<ReadyPart> = self
            .queue
            .iter()
            .map(|values| ReadyPart { bytes: values.len(), rows: values.len() })
            .collect();
        let mut from = 0;
        while from < parts.len() && self.failed.is_none() {
            let group = next_group(&parts, from);
            if self.fault == Fault::OnWrite {
                let text = "Intentional failure in FailingWriter::write";
                self.failed = Some(DaftError::ValueError(text.to_string()));
            } else {
                let values = self.queue[from..group.end].concat();
                assert_eq!((values.len(), values.len()), (group.bytes, group.rows));
                self.write(&values);
            }
            from = group.end;
        }
        self.queue.clear();
    }

    fn push(&mut self, values: Vec<u8>) -> Result<(), DaftError> {
        if self.failed.is_some() || self.closed {
            let closed = self.close();
            return Err(InProgressShuffleCache::push_failed(closed, "the writer is gone"));
        }
        let start = self.cache.push_partition_data(values.len());
        self.queue.push(values);
        if start || self.cache.stage == WriterStage::Running && self.queue.len() > 40 {
            self.drain();
        }
        Ok(())
    }

    fn close(&mut self) -> Result<PartitionCache<&'static str>, DaftError> {
        let outcome = match self.cache.begin_close()? {
            CloseStep::Nothing => Ok(None),
            CloseStep::RunWriter | CloseStep::AwaitWriter => {
                self.closed = true;
                self.drain();
                if self.fault == Fault::OnClose {
                    let text = "Intentional failure in FailingWriter::close";
                    self.failed = Some(DaftError::ValueError(text.to_string()));
                }
                match self.failed.take() {
                    Some(error) => Err(error),
                    None => {
                        let sizes: Vec<usize> = self.files.iter().map(|f| f.len()).collect();
                        Ok(Some(WriterTaskResult {
                            total_rows_written: sizes.iter().sum(),
                            total_bytes_written: sizes.iter().sum(),
                            file_paths: (0..sizes.len()).map(|i| format!("/dir/{i}")).collect(),
                            bytes_per_file: sizes,
                        }))
                    }
                }
            }
        };
        self.cache.close(outcome, "ints")
    }

    fn drop_tracking(&mut self) {
        self.registration.take().unwrap().release(&mut self.writes);
    }
}

fn values(size: usize) -> Vec<u8> {
    (0..size).map(|i| i as u8).collect()
}

#[test]
fn deferred_first_batch_and_concurrent_producers_preserve_all_values() {
    let mut partition = Partition::new(1024 * 1024, Fault::Never);
    partition.push(values(64)).unwrap();
    // The small first input waits, and counts as a write that is under way.
    assert!(partition.files.is_empty());
    assert_eq!(active_shuffle_writes_for(&partition.writes, &vec![SHUFFLE]), 1);
    let mut expected = values(64);
    for batch in 0..16 {
        for producer in 0..4 {
            partition.push(values(100 + producer * 16 + batch)).unwrap();
        }
    }
    for size in 100..164 {
        expected.extend(values(size));
    }
    let result = partition.close().unwrap();
    assert_eq!(result.num_rows, expected.len());
    let mut actual = partition.files.concat();
    actual.sort_unstable();
    expected.sort_unstable();
    assert_eq!(actual, expected);
    partition.drop_tracking();
    assert_eq!(active_shuffle_writes_for(&partition.writes, &vec![SHUFFLE]), 0);
}

#[test]
fn close_racing_a_deferred_push_does_not_deadlock_or_lose_accepted_input() {
    for push_first in [true, false] {
        let mut partition = Partition::new(1024 * 1024, Fault::Never);
        let (pushed, closed) = if push_first {
            let pushed = partition.push(values(64));
            (pushed, partition.close())
        } else {
            let closed = partition.close();
            (partition.push(values(64)), closed)
        };
        assert_eq!(closed.unwrap().num_rows, if pushed.is_ok() { 64 } else { 0 });
    }
}

#[test]
fn streaming_ready_batches_preserve_order_across_file_rotation() {
    let mut partition = Partition::new(8192, Fault::Never);
    let mut expected = Vec::new();
    for i in 0..97 {
        let size = [0, 257, 4096, 65][i % 4];
        expected.extend(values(size));
        partition.push(values(size)).unwrap();
    }
    let result = partition.close().unwrap();
    assert!(result.file_paths.len() > 1);
    assert_eq!(result.num_rows, expected.len());
    assert_eq!(result.size_bytes, expected.len());
    assert_eq!(partition.files.concat(), expected);
}

#[test]
fn streaming_write_tracking_covers_idle_queues_and_cancellation() {
    for close in [true, false] {
        let mut partition = Partition::new(1024, Fault::Never);
        let mut policies = ShufflePolicies::default();
        assert_eq!(active_shuffle_writes_for(&partition.writes, &vec![SHUFFLE]), 1);
        forget(&mut policies, SHUFFLE);
        assert_eq!(active_shuffle_writes_for(&partition.writes, &vec![SHUFFLE]), 1);
        partition.push(values(10)).unwrap();
        if close {
            assert_eq!(partition.close().unwrap().num_rows, 10);
        }
        partition.drop_tracking();
        assert_eq!(active_shuffle_writes_for(&partition.writes, &vec![SHUFFLE]), 0);
        assert_eq!(active_shuffle_writes(&partition.writes), 0);
    }
}

#[test]
fn test_shuffle_cache_basic() {
    let mut partition = Partition::new(100, Fault::Never);
    partition.push(values(100)).unwrap();
    partition.push(values(200)).unwrap();
    let result = partition.close().unwrap();
    assert_eq!(result.file_paths.len(), 3);
    let total_bytes: usize = result.bytes_per_file.iter().sum();
    assert!(total_bytes == 300);
}

#[test]
fn test_shuffle_cache_with_empty_partitions() {
    let mut partition = Partition::new(100, Fault::Never);
    for _ in 0..1000 {
        partition.push(vec![]).unwrap();
    }
    let result = partition.close().unwrap();
    assert_eq!(result.schema, "ints");
    assert_eq!(result.file_paths.len(), 0);
}

#[test]
fn test_shuffle_cache_with_failing_writer() {
    let mut partition = Partition::new(100, Fault::OnWrite);
    let mut found_failure = false;
    for _ in 0..100 {
        if let Err(error) = partition.push(values(100)) {
            assert!(error.to_text().contains("Intentional failure in FailingWriter::write"));
            found_failure = true;
            break;
        }
    }
    assert!(found_failure);
    let error = partition.push(values(100)).unwrap_err();
    assert!(error.to_text().contains("Intentional failure in FailingWriter::write"));
    let error = partition.close().err().unwrap();
    assert!(error.to_text().contains("Intentional failure in FailingWriter::write"));
}

#[test]
fn test_shuffle_cache_with_failing_writer_on_close() {
    let mut partition = Partition::new(100, Fault::OnClose);
    partition.push(values(100)).unwrap();
    partition.push(values(100)).unwrap();
    let error = partition.close().err().unwrap();
    assert!(error.to_text().contains("Intentional failure in FailingWriter::close"));
    let error = partition.push(values(100)).unwrap_err();
    assert!(error.to_text().contains("Intentional failure in FailingWriter::close"));
    let error = partition.close().err().unwrap();
    assert!(error.to_text().contains("Intentional failure in FailingWriter::close"));
}

#[test]
fn partitions_are_closed_once() {
    let mut cache = InProgressShuffleCache::new(9, "/dir".to_string());
    assert!(!cache.push_partition_data(8192));
    assert!(cache.push_partition_data(1));
    assert!(!cache.push_partition_data(1));
    assert_eq!(cache.begin_close().unwrap(), CloseStep::AwaitWriter);
    assert_eq!(cache.begin_close().unwrap(), CloseStep::Nothing);
    let error = cache.close(Ok(None), ()).err().unwrap();
    assert!(matches!(error, DaftError::InternalError(text) if text == "No writer result found"));
    let mut large = InProgressShuffleCache::new(9, "/dir".to_string());
    assert!(large.push_partition_data(8193));
    let failed = Err(DaftError::IoError(IoError {
        kind: IoErrorKind::Other,
        errno: Some(5),
        message: "os".to_string(),
        causes: vec![],
    }));
    let error = large.close(failed, ()).err().unwrap();
    let seen = error.shuffle_io_error().unwrap();
    assert_eq!((seen.operation.as_str(), seen.path.as_str()), ("write or close", "/dir"));
    assert!(large.begin_close().is_err());
    let reason = InProgressShuffleCache::push_failed(Err::<PartitionCache<()>, _>(error), "x");
    assert!(reason.shuffle_io_error().is_some());
}

#[test]
fn writes_take_what_is_there() {
    let part = |bytes| ReadyPart { bytes, rows: 2 };
    let many = vec![part(1); 70];
    let plan = writer_task(&many);
    assert_eq!(plan.ends, vec![32, 64, 70]);
    assert_eq!((plan.total_rows_written, plan.total_bytes_written), (140, 70));
    let large = vec![part(READY_WRITE_GROUP_BYTES - 1), part(9), part(1)];
    assert_eq!(writer_task(&large).ends, vec![2, 3]);
    assert!(writer_task(&vec![]).ends.is_empty());
    assert!(write_closes(true, true) && !write_closes(true, false) && !write_closes(false, true));
}

#[test]
fn every_attempt_has_its_directory() {
    let bases = vec!["/a".to_string(), "/b".to_string()];
    let dirs = get_shuffle_dirs(&bases, 12);
    assert_eq!(dirs, vec!["/a/daft_shuffle/12", "/b/daft_shuffle/12"]);
    let id = partition_ref_id(3, 5);
    assert_eq!(id, 3 * 4294967296 + 5);
    assert_eq!(
        get_partition_dir(&dirs, id, 255),
        "/b/daft_shuffle/12/partition_ref_12884901893_00000000000000ff"
    );
    assert!(check_dir("/a", true).is_ok());
    assert!(matches!(
        check_dir("s3://a", false),
        Err(DaftError::ValueError(text))
            if text == "ShuffleCache only supports file paths, got: s3://a"
    ));
}

#[test]
fn policies_live_as_long_as_their_shuffle() {
    let mut policies = ShufflePolicies::default();
    let settings = LocalRetrySettings {
        flight_shuffle_eio_local_max_retries: 3,
        flight_shuffle_eio_local_initial_backoff_ms: 10,
        flight_shuffle_eio_local_max_backoff_ms: 100,
    };
    configure(&mut policies, 1, from_config(&settings));
    assert_eq!(
        policy(&policies, 1),
        EioRetryPolicy { max_retries: 3, initial_backoff_ms: 10, max_backoff_ms: 100 }
    );
    assert_eq!(policy(&policies, 2), EioRetryPolicy::default());
    forget(&mut policies, 1);
    assert_eq!(policy(&policies, 1), EioRetryPolicy::default());
}

#[test]
fn disabled_statistics_count_nothing() {
    let stats = |enabled| ReadStats {
        enabled,
        shuffle_id: 1,
        map_files: 2,
        coalesced: false,
        started: None,
    };
    let mut counters = ReadCounters::default();
    stats(false).add(&mut counters.opens, 3);
    assert_eq!(counters.opens, 0);
    stats(true).add(&mut counters.completed_files, 1);
    assert!(!stats(true).is_complete(&counters));
    stats(true).add(&mut counters.completed_files, 1);
    assert!(stats(true).is_complete(&counters));
    assert_eq!(elapsed_us(Some(5), 12), 7);
    assert_eq!(elapsed_us(None, 12), 0);
}

#[test]
fn requests_are_cut_to_size() {
    let refs: Vec<TicketRef> =
        (0..5).map(|i| TicketRef { attempt: 1, partition_ref_id: i }).collect();
    let sizes: Vec<usize> = ticket_chunks(&refs, 2).iter().map(|c| c.len()).collect();
    assert_eq!(sizes, vec![2, 2, 1]);
    assert_eq!(ticket_chunks(&refs, 2).concat(), refs);
    let mut clients = FlightClientManager::new();
    let server = "grpc://a".to_string();
    let plan = clients.fetch_partition(&server, &refs, 5);
    assert!(plan.client.is_none());
    assert_eq!(plan.requests.len(), 1);
    clients.connect(server.clone(), 'c');
    let plan = clients.fetch_partition(&server, &refs, 3);
    assert_eq!(clients.clients[plan.client.unwrap()].client, 'c');
    assert_eq!(plan.requests.len(), 2);
}

#[test]
fn writers_number_their_files() {
    let retries = EioRetryPolicy { max_retries: 1, initial_backoff_ms: 2, max_backoff_ms: 3 };
    let factory = IPCWriterFactory::new("/dir".to_string(), Some(CompressionType::Zstd))
        .with_retry_policy(retries);
    let mut writer = factory.create_writer(4);
    assert_eq!(writer.file_path, "/dir/4.arrow");
    assert_eq!(writer.compression, Some(CompressionType::Zstd));
    assert_eq!(writer.retry_policy, retries);
    assert!(writer.get_or_create_writer());
    assert!(!writer.get_or_create_writer());
    assert_eq!(writer.write(10, 3), WriteResult { bytes_written: 10, rows_written: 3 });
    assert_eq!(writer.write(5, 1), WriteResult { bytes_written: 5, rows_written: 1 });
    assert_eq!(writer.bytes_written(), 15);
    assert_eq!(writer.bytes_per_file(), vec![15]);
    assert!(writer.close());
}

#[test]
fn a_failed_write_gives_the_file_up() {
    let factory = IPCWriterFactory::new("/dir".to_string(), None);
    let mut writer = factory.create_writer(0);
    assert!(writer.get_or_create_writer());
    writer.write(10, 3);
    assert!(!writer.get_or_create_writer());
    writer.write_failed();
    // The next write creates the file anew; what was counted stays counted.
    assert!(writer.get_or_create_writer());
    assert_eq!(writer.bytes_written(), 10);
    writer.write_failed();
    assert!(!writer.close());
}
