use daft_flotilla::dispatcher::{
    dispatch_tasks, match_handles, retry_backoff, retry_limit, CompletedTask, Dispatcher, Effect,
    TaskDisposition, TaskStatus, DEFAULT_MAX_INFRA_RETRIES, DEFAULT_MAX_TRANSIENT_RETRIES,
};
use daft_flotilla::drain::DrainState;
use daft_flotilla::error::{DaftError, GenericError};
use daft_flotilla::task::{
    PendingTask, ResourceRequest, ScheduledTask, SchedulingStrategy, TaskContext, TaskInfo,
    WorkerId,
};
use daft_flotilla::worker::RaySwordfishWorker;
use daft_flotilla::worker_manager::RayWorkerManager;

const WORKER: WorkerId = 1;

/// Rows and bytes of a partition.
type Partition = (usize, usize);

fn context(task_id: u32) -> TaskContext {
    TaskContext { query_idx: 0, last_node_id: 0, task_id }
}

fn info(task_id: u32) -> TaskInfo {
    TaskInfo {
        context: context(task_id),
        priority: 0,
        strategy: SchedulingStrategy::Spread,
        request: ResourceRequest { num_cpus: 1000, num_gpus: 0, memory_bytes: 0 },
        attempt: 0,
    }
}

fn manager(workers: &[WorkerId]) -> RayWorkerManager {
    let mut manager = RayWorkerManager::new(false, None);
    let found = workers
        .iter()
        .map(|id| {
            RaySwordfishWorker::new(
                *id,
                format!("instance-{id}"),
                1000,
                0,
                0,
                "127.0.0.1".to_string(),
                None,
                0,
            )
        })
        .collect();
    manager.install_refresh(found, 0);
    manager
}

fn dispatcher() -> Dispatcher {
    Dispatcher::with_retry_limits(DEFAULT_MAX_TRANSIENT_RETRIES, DEFAULT_MAX_INFRA_RETRIES)
}

fn scheduled(task_id: u32, worker_id: WorkerId) -> ScheduledTask<u32> {
    ScheduledTask::new(PendingTask::new(info(task_id), task_id), worker_id)
}

/// A task that has failed so often already.
fn scheduled_with_attempts(attempts: u32) -> ScheduledTask<u32> {
    ScheduledTask::new(PendingTask::retry(info(0), 0, false, attempts, 0, 0, 99), WORKER)
}

/// The outcomes for the submitters, and the tasks that are tried again. The workers that died
/// are taken out.
fn finish(
    dispatcher: &Dispatcher,
    manager: &mut RayWorkerManager,
    completed: Vec<(ScheduledTask<u32>, TaskStatus<Partition>)>,
) -> (Vec<Effect<u32, Partition>>, Vec<PendingTask<u32>>) {
    let completed = completed
        .into_iter()
        .map(|(task, status)| CompletedTask { task_result: Ok(status), task })
        .collect();
    let (effects, failed) = dispatcher.await_completed_tasks(completed, 0);
    for effect in &effects {
        manager.task_ended(effect.context, effect.worker_id, effect.confirmed, 0);
        if effect.worker_died {
            manager.mark_worker_died(effect.worker_id);
        }
    }
    (effects, failed)
}

fn outcome(effect: Effect<u32, Partition>) -> Result<Partition, DaftError> {
    effect.reply.unwrap().outcome
}

fn failed(text: &str) -> TaskStatus<Partition> {
    TaskStatus::Failed(DaftError::InternalError(text.to_string()))
}

fn transient(text: &str) -> TaskStatus<Partition> {
    TaskStatus::Failed(DaftError::MiscTransient(GenericError {
        message: text.to_string(),
        errnos: vec![],
    }))
}

fn snapshot_ids(manager: &RayWorkerManager) -> Vec<WorkerId> {
    manager.worker_snapshots().iter().map(|w| w.worker_id).collect()
}

#[test]
fn test_dispatcher_basic_task() {
    let mut manager = manager(&[WORKER]);
    let (mut effects, again) = finish(
        &dispatcher(),
        &mut manager,
        vec![(scheduled(0, WORKER), TaskStatus::Success((100, 100)))],
    );
    assert!(again.is_empty());
    assert_eq!(outcome(effects.remove(0)).unwrap(), (100, 100));
}

#[test]
fn test_dispatcher_multiple_tasks() {
    let mut manager = manager(&[WORKER]);
    let num_tasks = 100;
    let tasks: Vec<_> = (0..num_tasks as u32).map(|i| scheduled(i, WORKER)).collect();
    let batches = dispatch_tasks(&tasks);
    assert_eq!(batches.len(), 1);
    assert_eq!(batches[0].tasks.len(), num_tasks);
    let completed = tasks
        .into_iter()
        .enumerate()
        .map(|(i, task)| (task, TaskStatus::Success((100 + i, 1024 * (i + 1)))))
        .collect();
    let (effects, again) = finish(&dispatcher(), &mut manager, completed);
    assert!(again.is_empty());
    for (i, effect) in effects.into_iter().enumerate() {
        let reply = effect.reply.unwrap();
        assert_eq!(reply.payload as usize, i);
        let (num_rows, size_bytes) = reply.outcome.unwrap();
        assert_eq!(num_rows, 100 + i);
        assert_eq!(size_bytes, 1024 * (i + 1));
    }
}

#[test]
fn test_dispatcher_cancelled_task() {
    let mut manager = manager(&[WORKER]);
    let (effects, again) = finish(
        &dispatcher(),
        &mut manager,
        vec![(scheduled(0, WORKER), TaskStatus::Cancelled)],
    );
    assert!(again.is_empty());
    assert!(effects[0].reply.is_none());
    assert!(!effects[0].retryable);
}

#[test]
fn doubt_about_the_end_of_a_task_keeps_its_worker() {
    let broken = || {
        let error = GenericError { message: "panicked".to_string(), errnos: vec![] };
        Err(DaftError::JoinError(error))
    };
    for (result, confirmed) in [
        (Ok(TaskStatus::Success((1, 1))), true),
        (Ok(failed("test error")), true),
        (Ok(TaskStatus::Cancelled), false),
        (Ok(TaskStatus::WorkerUnavailable), false),
        (broken(), false),
    ] {
        let completed =
            CompletedTask::<u32, Partition> { task_result: result, task: scheduled(0, WORKER) };
        let (effect, _) = dispatcher().complete(completed, 0);
        assert_eq!(effect.confirmed, confirmed);
        // Only workers of a session are held back.
        for managed in [false, true] {
            let mut manager = manager(&[WORKER]);
            manager.managed = managed;
            manager.begin_submit(WORKER, &info(0), false);
            manager.task_ended(effect.context, WORKER, effect.confirmed, 5);
            let worker = &manager.ray_workers[0];
            assert!(worker.active.is_empty());
            assert_eq!(worker.can_retire(), confirmed || !managed);
            let state = if confirmed || !managed {
                DrainState::Active
            } else {
                DrainState::Unknown
            };
            assert_eq!(worker.drain_state(), state);
        }
    }
    let died = CompletedTask::<u32, Partition> {
        task_result: Ok(TaskStatus::WorkerDied),
        task: scheduled(0, WORKER),
    };
    let (effect, _) = dispatcher().complete(died, 0);
    assert!(effect.confirmed && effect.worker_died);
}

#[test]
fn test_task_error_basic() {
    let mut manager = manager(&[WORKER]);
    let (mut effects, again) =
        finish(&dispatcher(), &mut manager, vec![(scheduled(0, WORKER), failed("test error"))]);
    assert!(again.is_empty());
    assert_eq!(
        outcome(effects.remove(0)).unwrap_err().to_text(),
        "DaftError::InternalError test error"
    );
}

#[test]
fn test_task_panic_basic() {
    let completed = CompletedTask::<u32, Partition> {
        task_result: Err(DaftError::JoinError(GenericError {
            message: "task 1 panicked with message \"test panic\"".to_string(),
            errnos: vec![],
        })),
        task: scheduled(0, WORKER),
    };
    let (mut effects, again) = dispatcher().await_completed_tasks(vec![completed], 0);
    assert!(again.is_empty());
    let error = outcome(effects.remove(0)).unwrap_err();
    assert!(error.to_text().contains("test panic"));
}

#[test]
fn test_task_worker_died() {
    let mut manager = manager(&[WORKER]);
    assert_eq!(snapshot_ids(&manager), vec![WORKER]);
    let (_, again) = finish(
        &dispatcher(),
        &mut manager,
        vec![(scheduled(0, WORKER), TaskStatus::WorkerDied)],
    );
    assert_eq!(again.len(), 1);
    assert_eq!(again[0].task_context().task_id, 0);
    assert!(snapshot_ids(&manager).is_empty());
}

#[test]
fn test_task_worker_unavailable() {
    let mut manager = manager(&[WORKER]);
    assert_eq!(snapshot_ids(&manager), vec![WORKER]);
    let (_, again) = finish(
        &dispatcher(),
        &mut manager,
        vec![(scheduled(0, WORKER), TaskStatus::WorkerUnavailable)],
    );
    assert_eq!(again.len(), 1);
    assert_eq!(again[0].task_context().task_id, 0);
    assert_eq!(snapshot_ids(&manager), vec![WORKER]);
}

#[test]
fn test_multiple_failed_tasks() {
    let mut manager = manager(&[1, 2, 3]);
    let pinned = |task_id: u32, worker_id| {
        let strategy = SchedulingStrategy::WorkerAffinity { worker_id, soft: false };
        let task = TaskInfo { strategy, ..info(task_id) };
        ScheduledTask::new(PendingTask::new(task, task_id), worker_id)
    };
    let (_, again) = finish(
        &dispatcher(),
        &mut manager,
        vec![
            (pinned(1, 1), TaskStatus::WorkerDied),
            (pinned(2, 2), TaskStatus::WorkerUnavailable),
            (pinned(3, 3), TaskStatus::WorkerDied),
        ],
    );
    let mut ids: Vec<u32> = again.iter().map(|task| task.task_context().task_id).collect();
    ids.sort_unstable();
    assert_eq!(ids, vec![1, 2, 3]);
    assert_eq!(snapshot_ids(&manager), vec![2]);
}

#[test]
fn test_transient_error_is_retried() {
    let mut manager = manager(&[WORKER]);
    let (effects, again) = finish(
        &dispatcher(),
        &mut manager,
        vec![(scheduled_with_attempts(0), transient("connection reset"))],
    );
    assert_eq!(again.len(), 1);
    assert_eq!(again[0].attempts(), 1);
    assert!(!again[0].is_ready(0));
    assert_eq!(again[0].not_before, Some(1_000));
    assert_eq!(again[0].avoid_worker(), Some(WORKER));
    assert!(effects[0].reply.is_none() && effects[0].retryable);
}

#[test]
fn test_transient_error_gives_up_at_retry_limit() {
    let mut manager = manager(&[WORKER]);
    let (mut effects, again) = finish(
        &Dispatcher::with_retry_limits(2, 10),
        &mut manager,
        vec![(scheduled_with_attempts(2), transient("timeout"))],
    );
    assert!(again.is_empty());
    assert!(outcome(effects.remove(0)).unwrap_err().to_text().contains("timeout"));
}

#[test]
fn test_non_transient_error_is_not_retried() {
    let mut manager = manager(&[WORKER]);
    let (mut effects, again) = finish(
        &dispatcher(),
        &mut manager,
        vec![(scheduled_with_attempts(0), failed("data error"))],
    );
    assert!(again.is_empty());
    assert!(outcome(effects.remove(0)).is_err());
}

#[test]
fn test_worker_loss_preserves_attempt_count() {
    let mut manager = manager(&[WORKER]);
    let (_, again) = finish(
        &dispatcher(),
        &mut manager,
        vec![(scheduled_with_attempts(2), TaskStatus::WorkerDied)],
    );
    assert_eq!(again.len(), 1);
    assert_eq!(again[0].attempts(), 3);
}

#[test]
fn test_worker_loss_gives_up_at_infra_retry_limit() {
    let mut manager = manager(&[WORKER]);
    let (mut effects, again) = finish(
        &Dispatcher::with_retry_limits(3, 2),
        &mut manager,
        vec![(scheduled_with_attempts(2), TaskStatus::WorkerDied)],
    );
    assert!(again.is_empty());
    let error = outcome(effects.remove(0)).unwrap_err().to_text();
    assert!(error.contains("lost its worker on all 3 attempts"), "{error}");
    assert!(error.contains("DAFT_FLOTILLA_TASK_MAX_INFRA_RETRIES"), "{error}");
}

#[test]
fn waits_double_up_to_a_limit() {
    let waits: Vec<u64> = (0..8).map(retry_backoff).collect();
    assert_eq!(waits, vec![1, 2, 4, 8, 16, 30, 30, 30]);
    assert_eq!(retry_backoff(u32::MAX), 30);
}

#[test]
fn limits_are_read_from_settings() {
    assert_eq!(retry_limit(Some("5"), 3), 5);
    assert_eq!(retry_limit(Some("4294967296"), 3), 3);
    assert_eq!(retry_limit(Some("x"), 3), 3);
    assert_eq!(Dispatcher::new(None, Some("0")), Dispatcher::with_retry_limits(3, 0));
    assert_eq!(
        Dispatcher::new(Some("0"), None).disposition(&Ok(transient("x")), 0),
        TaskDisposition::Terminal
    );
}

#[test]
fn tasks_without_a_handle_are_deferred() {
    let tasks = vec![scheduled(1, 5), scheduled(2, 6), scheduled(3, 5)];
    let batches = dispatch_tasks(&tasks);
    let sizes: Vec<_> = batches.iter().map(|b| (b.worker_id, b.tasks.len())).collect();
    assert_eq!(sizes, vec![(5, 2), (6, 1)]);
    let (running, refused) = match_handles(tasks, &vec![context(3), context(2)]);
    let ids = |tasks: &[ScheduledTask<u32>]| {
        tasks.iter().map(|t| t.task().context.task_id).collect::<Vec<_>>()
    };
    assert_eq!(ids(&running), vec![2, 3]);
    assert_eq!(ids(&refused), vec![1]);
}
