use daft_flotilla::drain::{DrainBarrier, DrainState};

#[test]
fn output_holds_survive_idle_and_other_query_cleanup() {
    let mut barrier = DrainBarrier::default();
    barrier.data_queries.extend([1, 2]);
    barrier.prepare(1).unwrap();
    assert!(!barrier.can_retire(0));
    barrier.data_queries.remove(&1);
    assert!(!barrier.can_retire(0));
    barrier.data_queries.remove(&2);
    assert!(!barrier.can_retire(1));
    assert_eq!(barrier.status(0), DrainState::ReadyToRetire);
}

#[test]
fn epochs_and_unknown_are_fail_closed() {
    let mut barrier = DrainBarrier::default();
    barrier.prepare(4).unwrap();
    barrier.cancel(4).unwrap();
    assert!(barrier.prepare(4).is_err());
    barrier.prepare(5).unwrap();
    assert!(barrier.cancel(4).is_err());
    barrier.unknown = Some("cancel acknowledgement missing".into());
    assert!(barrier.commit(5, 0).is_err());
    barrier.unknown = None;
    barrier.commit(5, 0).unwrap();
    assert!(barrier.cancel(5).is_err());
    barrier.state = DrainState::Retired;
    assert!(barrier.prepare(6).is_err());
}

#[test]
fn preparing_twice_in_one_epoch_changes_nothing() {
    let mut barrier = DrainBarrier::default();
    barrier.prepare(3).unwrap();
    barrier.prepare(3).unwrap();
    assert_eq!(barrier.epoch, 3);
    assert_eq!(barrier.state, DrainState::Draining);
}

#[test]
fn refusals_say_why() {
    let mut barrier = DrainBarrier::default();
    assert_eq!(
        barrier.prepare(0).unwrap_err().to_text(),
        "DaftError::ValueError Stale drain epoch"
    );
    barrier.prepare(2).unwrap();
    assert_eq!(
        barrier.prepare(1).unwrap_err().to_text(),
        "DaftError::ValueError Stale drain epoch"
    );
    barrier.cancel(2).unwrap();
    assert_eq!(
        barrier.prepare(2).unwrap_err().to_text(),
        "DaftError::ValueError Drain epoch was cancelled"
    );
    assert_eq!(
        barrier.commit(2, 0).unwrap_err().to_text(),
        "DaftError::ValueError Worker is not ready to retire"
    );
    barrier.prepare(3).unwrap();
    assert_eq!(
        barrier.commit(3, 1).unwrap_err().to_text(),
        "DaftError::ValueError Worker is not ready to retire"
    );
    barrier.commit(3, 0).unwrap();
    assert_eq!(
        barrier.cancel(3).unwrap_err().to_text(),
        "DaftError::ValueError Worker retirement is committed"
    );
    assert_eq!(
        barrier.prepare(4).unwrap_err().to_text(),
        "DaftError::ValueError Worker retirement is committed"
    );
    assert!(barrier.check_epoch(3).is_ok());
    assert!(barrier.check_epoch(4).is_err());
}

#[test]
fn doubt_shows_in_the_status() {
    let mut barrier = DrainBarrier::default();
    assert_eq!(barrier.status(0), DrainState::Active);
    barrier.unknown = Some("lost".to_string());
    assert_eq!(barrier.status(0), DrainState::Unknown);
    barrier.unknown = None;
    barrier.prepare(1).unwrap();
    assert_eq!(barrier.status(2), DrainState::Draining);
}
