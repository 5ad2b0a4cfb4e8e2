use std::sync::Arc;

use daft_flotilla::backend::{
    DistributedShuffleBackend, FlightShuffleBackendConfig, LocalShuffleBackend, RefsRead,
    SharedShuffleSpec, ShuffleBackend, ShuffleWriteKind,
};
use daft_flotilla::error::DaftError;
use daft_flotilla::flight::{
    aqe_status, as_flight_ref, fold_outputs_from_stream, input_id_from_ref, is_flight_ref,
    partition_idx_from_ref, read_inputs_from_refs, FlightFold, FlightMapOutput,
    FlightPartitionRef, MapResult, PartitionRef, ServerInputs, ShuffleStatistics,
};

fn flight_ref(server: &str, input_id: u32, idx: u64, size_bytes: usize) -> FlightPartitionRef {
    FlightPartitionRef {
        shuffle_id: 7,
        server_address: server.to_string(),
        partition_ref_id: ((input_id as u64) << 32) | idx,
        attempt: 99,
        num_rows: usize::from(size_bytes > 0),
        size_bytes,
    }
}

fn output(input_id: u32, sizes: &[usize]) -> Vec<PartitionRef> {
    sizes
        .iter()
        .enumerate()
        .map(|(idx, &size_bytes)| {
            PartitionRef::Flight(flight_ref("worker", input_id, idx as u64, size_bytes))
        })
        .collect()
}

fn outputs_of<'a>(servers: &'a [ServerInputs], server: &str) -> &'a [FlightMapOutput] {
    &servers.iter().find(|s| s.server == server).unwrap().outputs
}

fn map_output(input_id: u32) -> FlightMapOutput {
    FlightMapOutput { input_id, attempt: 99 }
}

#[test]
fn fold_statistics_coalesce_only_when_allowed() {
    for reason in [None, Some("disabled"), Some("join_input"), Some("user_partition_contract")] {
        let stream = vec![Ok(output(0, &[64; 4])), Ok(output(1, &[64; 4]))];
        let groups =
            fold_outputs_from_stream(stream, 4, 7, Some("/shared"), reason, 256).unwrap();
        assert_eq!(groups.len(), if reason.is_none() { 2 } else { 4 });
        let refs: Vec<_> = groups.iter().flatten().collect();
        assert_eq!(refs.iter().map(|r| r.partition_idx).collect::<Vec<_>>(), vec![0, 1, 2, 3]);
        for r in &refs {
            assert_eq!(r.coalesce_ranges, reason.is_none());
            assert_eq!(
                outputs_of(&r.inputs_by_server, "worker"),
                [
                    FlightMapOutput { input_id: 0, attempt: 99 },
                    FlightMapOutput { input_id: 1, attempt: 99 }
                ]
            );
            assert!(Arc::ptr_eq(&refs[0].inputs_by_server, &r.inputs_by_server));
        }
    }
}

#[test]
fn fold_empty_buckets_and_reject_duplicate_attempts() {
    let groups =
        fold_outputs_from_stream(vec![Ok(output(0, &[0; 4]))], 4, 7, None, None, 256).unwrap();
    assert_eq!(groups.len(), 1);
    assert_eq!(groups[0].len(), 4);
    let result = fold_outputs_from_stream(
        vec![Ok(output(0, &[1; 4])), Ok(output(0, &[1; 4]))],
        4,
        7,
        None,
        None,
        256,
    );
    assert!(result.is_err());
    let result =
        fold_outputs_from_stream(vec![Ok(output(0, &[1; 3]))], 4, 7, None, None, 256);
    assert!(result.is_err());
}

fn fold_error(outputs: Vec<MapResult>) -> DaftError {
    fold_outputs_from_stream(outputs, 2, 7, None, None, 256).unwrap_err()
}

#[test]
fn fold_says_what_it_refuses() {
    let text = |e: DaftError| match e {
        DaftError::InternalError(text) => text,
        other => panic!("{other:?}"),
    };
    assert_eq!(
        text(fold_error(vec![Ok(output(3, &[1; 2])), Ok(output(3, &[1; 2]))])),
        "shuffle 7 received two outputs for map input 3 (second from worker attempt 0x63); \
         refusing to fold both, which would read that input twice"
    );
    assert_eq!(
        text(fold_error(vec![Ok(output(3, &[1; 3]))])),
        "Flight map output partition count mismatch"
    );
    let mut swapped = output(3, &[1; 2]);
    swapped.swap(0, 1);
    assert_eq!(
        text(fold_error(vec![Ok(swapped)])),
        "Inconsistent Flight map output identity or partition order"
    );
    let mixed = vec![
        PartitionRef::Flight(flight_ref("worker", 3, 0, 1)),
        PartitionRef::Flight(flight_ref("other", 3, 1, 1)),
    ];
    assert_eq!(
        text(fold_error(vec![Ok(mixed)])),
        "Inconsistent Flight map output identity or partition order"
    );
    let memory = vec![PartitionRef::InMemory { num_rows: 1, size_bytes: 1 }];
    assert_eq!(
        text(fold_error(vec![Ok(memory)])),
        "Flight shuffle read expected a flight partition ref, got a partition ref that did not \
         come from a flight write."
    );
    let upstream = fold_error(vec![
        Ok(output(3, &[1; 2])),
        Err(DaftError::ValueError("map failed".to_string())),
        Ok(output(3, &[1; 2])),
    ]);
    assert!(matches!(upstream, DaftError::ValueError(text) if text == "map failed"));
}

#[test]
fn outputs_without_partitions_are_passed_over() {
    let groups = fold_outputs_from_stream(
        vec![Ok(vec![]), Ok(output(3, &[1; 2]))],
        2,
        7,
        None,
        Some("disabled"),
        0,
    )
    .unwrap();
    assert_eq!(groups.len(), 2);
    assert_eq!(outputs_of(&groups[1][0].inputs_by_server, "worker"), [map_output(3)]);
    assert!(groups[1][0].shared_root.is_none());
}

#[test]
fn statistics_rank_the_buckets() {
    let fold = FlightFold::new(4, 7)
        .add(&output(0, &[100_000, 0, 5, 7]))
        .unwrap()
        .add(&output(1, &[1, 2, 0, 70_000]))
        .unwrap();
    assert_eq!(
        fold.statistics(3),
        ShuffleStatistics {
            map_tasks: 2,
            original_partitions: 4,
            reduce_tasks: 3,
            rows: 6,
            uncompressed_bytes: 170_015,
            nonempty_fragments: 6,
            small_fragments: 4,
            partition_p50_bytes: 5,
            partition_p95_bytes: 100_001,
            partition_max_bytes: 100_001,
        }
    );
    assert_eq!(FlightFold::new(0, 7).statistics(0).partition_max_bytes, 0);
    assert_eq!(aqe_status(None, 3, 4), "coalesced");
    assert_eq!(aqe_status(None, 4, 4), "no_small_partitions");
    assert_eq!(aqe_status(Some("disabled"), 3, 4), "disabled");
}

#[test]
fn references_name_their_input_and_partition() {
    let f = flight_ref("worker", 9, 0xFFFF_FFFF, 1);
    assert_eq!(input_id_from_ref(&f), 9);
    assert_eq!(partition_idx_from_ref(&f), 0xFFFF_FFFF);
    assert!(is_flight_ref(&PartitionRef::Flight(f)));
    let memory = PartitionRef::InMemory { num_rows: 0, size_bytes: 0 };
    assert!(!is_flight_ref(&memory));
    assert!(as_flight_ref(&memory).is_err());
}

#[test]
fn references_are_read_by_shuffle_and_partition() {
    let mut other = flight_ref("b", 4, 0, 1);
    other.shuffle_id = 5;
    let refs = vec![
        PartitionRef::Flight(flight_ref("b", 1, 1, 1)),
        PartitionRef::Flight(flight_ref("a", 2, 1, 1)),
        PartitionRef::Flight(flight_ref("b", 3, 0, 1)),
        PartitionRef::Flight(flight_ref("b", 0, 1, 1)),
        PartitionRef::Flight(other),
    ];
    let reads = read_inputs_from_refs(refs, Some("/shared")).unwrap();
    let keys: Vec<_> = reads.iter().map(|r| (r.shuffle_id, r.partition_idx)).collect();
    assert_eq!(keys, vec![(5, 0), (7, 0), (7, 1)]);
    let servers: Vec<_> = reads[2].inputs_by_server.iter().map(|s| s.server.as_str()).collect();
    assert_eq!(servers, vec!["a", "b"]);
    assert_eq!(
        outputs_of(&reads[2].inputs_by_server, "b"),
        [map_output(1), map_output(0)]
    );
    assert!(reads.iter().all(|r| !r.coalesce_ranges));
    assert!(reads.iter().all(|r| r.shared_root.as_deref().map(String::as_str) == Some("/shared")));
}

fn flight_backend() -> DistributedShuffleBackend {
    DistributedShuffleBackend::Flight(FlightShuffleBackendConfig {
        shuffle_id: 1,
        shuffle_dirs: vec!["/a".to_string(), "/b".to_string()],
        compression: Some("lz4".to_string()),
        shared: Some(SharedShuffleSpec {
            root: "/shared".to_string(),
            durability: "none".to_string(),
        }),
    })
}

#[test]
fn every_backend_gets_its_own_shuffle() {
    let id = |b: &ShuffleBackend| match b.backend() {
        DistributedShuffleBackend::Flight(config) => config.shuffle_id,
        DistributedShuffleBackend::Ray => 0,
    };
    let ids: Vec<u64> = (0..4)
        .map(|_| id(&ShuffleBackend::new(3, flight_backend(), ShuffleWriteKind::CombinedFile)))
        .collect();
    assert!(ids.iter().any(|i| *i != ids[0]));
    assert!(matches!(
        ShuffleBackend::new(3, DistributedShuffleBackend::Ray, ShuffleWriteKind::CombinedFile)
            .backend(),
        DistributedShuffleBackend::Ray
    ));
}

#[test]
fn shared_roots_are_for_combined_files() {
    let combined =
        ShuffleBackend::with_shuffle_id(3, flight_backend(), ShuffleWriteKind::CombinedFile, 42);
    assert_eq!(combined.node_id(), 3);
    assert_eq!(combined.backend().shared_root(), Some("/shared"));
    let cleanup = combined.register_cleanup().unwrap();
    assert_eq!(cleanup.shuffle_id, 42);
    assert_eq!(cleanup.shuffle_dirs, vec!["/a/daft_shuffle/42", "/b/daft_shuffle/42"]);
    assert_eq!(cleanup.shared_root.as_deref(), Some("/shared"));
    let apart =
        ShuffleBackend::with_shuffle_id(3, flight_backend(), ShuffleWriteKind::PerPartition, 42);
    assert_eq!(apart.backend().shared_root(), None);
    assert!(apart.register_cleanup().unwrap().shared_root.is_none());
    match apart.local_shuffle_backend() {
        LocalShuffleBackend::Flight { shuffle_id, shuffle_dirs, compression, shared } => {
            assert_eq!(shuffle_id, 42);
            assert_eq!(shuffle_dirs, vec!["/a", "/b"]);
            assert_eq!(compression.as_deref(), Some("lz4"));
            assert!(shared.is_none());
        }
        LocalShuffleBackend::Ray => unreachable!(),
    }
    let ray = ShuffleBackend::with_shuffle_id(
        3,
        DistributedShuffleBackend::Ray,
        ShuffleWriteKind::CombinedFile,
        42,
    );
    assert!(ray.register_cleanup().is_none());
    assert!(matches!(ray.local_shuffle_backend(), LocalShuffleBackend::Ray));
    assert_eq!(FlightShuffleBackendConfig::default().shuffle_id, 0);
}

#[test]
fn reads_take_references_of_one_kind() {
    let backend =
        ShuffleBackend::with_shuffle_id(3, flight_backend(), ShuffleWriteKind::CombinedFile, 42);
    let memory = |size_bytes| PartitionRef::InMemory { num_rows: 1, size_bytes };
    match backend.build_refs_task_builder(vec![memory(5), memory(6)]).unwrap() {
        RefsRead::InMemory { refs, total_size_bytes } => {
            assert_eq!((refs.len(), total_size_bytes), (2, 11));
        }
        RefsRead::Flight { .. } => unreachable!(),
    }
    let flight = |input| PartitionRef::Flight(flight_ref("a", input, 0, 1));
    match backend.build_refs_task_builder(vec![flight(1), flight(2)]).unwrap() {
        RefsRead::Flight { reads } => assert_eq!(reads.len(), 1),
        RefsRead::InMemory { .. } => unreachable!(),
    }
    let error = backend
        .build_refs_task_builder(vec![memory(5), flight(1), memory(6)])
        .err()
        .unwrap();
    assert!(matches!(error, DaftError::InternalError(text) if text
        == "Shuffle read for node 3 got a mix of flight and in-memory partition refs (1 of 3 \
            are flight refs); a stage's outputs must be all one or the other."));
}

#[test]
fn only_flight_shuffles_fold_their_outputs() {
    let flight =
        ShuffleBackend::with_shuffle_id(3, flight_backend(), ShuffleWriteKind::CombinedFile, 7);
    let reads = flight
        .emit_read_tasks_from_stream(vec![Ok(output(0, &[64; 4]))], 4, None, 128)
        .unwrap()
        .unwrap();
    assert_eq!(reads.len(), 2);
    assert_eq!(reads[0][0].shared_root.as_deref().map(String::as_str), Some("/shared"));
    let ray = ShuffleBackend::with_shuffle_id(
        3,
        DistributedShuffleBackend::Ray,
        ShuffleWriteKind::CombinedFile,
        7,
    );
    assert!(ray.emit_read_tasks_from_stream(vec![], 4, None, 128).is_none());
}
