use daft_flotilla::aqe::{coalesce_partitions, ShuffleOrigin};

#[test]
fn coalescing_preserves_coverage_and_large_buckets() {
    assert_eq!(
        coalesce_partitions(&[20, 30, 0, 80, 200, 10], 100),
        vec![0..3, 3..4, 4..5, 5..6]
    );
    assert_eq!(coalesce_partitions(&[0, 0, 0], 100), vec![0..3]);
    assert_eq!(coalesce_partitions(&[usize::MAX, 1], 100), vec![0..1, 1..2]);
    assert!(coalesce_partitions(&[], 100).is_empty());
    assert_eq!(
        coalesce_partitions(&[0; 130], 100),
        vec![0..64, 64..128, 128..130]
    );
}

#[test]
fn experimental_gate_and_partition_contracts() {
    for origin in [
        ShuffleOrigin::Aggregate,
        ShuffleOrigin::Distinct,
        ShuffleOrigin::HashJoin,
        ShuffleOrigin::UserRepartition,
        ShuffleOrigin::Window,
    ] {
        assert_eq!(origin.skip_reason(false, true, false), Some("disabled"));
        assert_eq!(origin.skip_reason(true, true, true), Some("join_input"));
    }
    assert_eq!(
        ShuffleOrigin::HashJoin.skip_reason(true, true, false),
        Some("join_input")
    );
    assert_eq!(
        ShuffleOrigin::UserRepartition.skip_reason(true, true, false),
        Some("user_partition_contract")
    );
    assert_eq!(
        ShuffleOrigin::Aggregate.skip_reason(true, false, false),
        Some("unsupported_backend")
    );
    assert_eq!(
        ShuffleOrigin::Aggregate.skip_reason(true, true, false),
        None
    );
    assert_eq!(ShuffleOrigin::Distinct.skip_reason(true, true, false), None);
}

#[test]
fn windows_keep_their_partitions() {
    assert_eq!(
        ShuffleOrigin::Window.skip_reason(true, true, false),
        Some("unsupported_operator")
    );
}

#[test]
fn groups_fill_up_to_the_target_exactly() {
    assert_eq!(coalesce_partitions(&[50, 50, 1], 100), vec![0..2, 2..3]);
    assert_eq!(coalesce_partitions(&[101, 0, 0, 1], 100), vec![0..3, 3..4]);
}
