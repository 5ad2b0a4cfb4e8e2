use daft_flotilla::default_scheduler::{DefaultScheduler, DEFAULT_AUTOSCALING_THRESHOLD};
use daft_flotilla::drain::DrainState;
use daft_flotilla::linear_scheduler::LinearScheduler;
use daft_flotilla::scheduler::{ActiveTask, WorkerSnapshot};
use daft_flotilla::task::{
    PendingTask, ResourceRequest, ScheduledTask, SchedulingStrategy, TaskContext, TaskInfo,
    WorkerId,
};

const WORKER_1: WorkerId = 1;
const WORKER_2: WorkerId = 2;
const WORKER_3: WorkerId = 3;
const MISSING_WORKER: WorkerId = 999;

fn request(num_cpus: u32) -> ResourceRequest {
    ResourceRequest { num_cpus: 1000 * num_cpus, num_gpus: 0, memory_bytes: 0 }
}

fn info(task_id: u32) -> TaskInfo {
    TaskInfo {
        context: TaskContext { query_idx: 0, last_node_id: 0, task_id },
        priority: 0,
        strategy: SchedulingStrategy::Spread,
        request: request(1),
        attempt: 0,
    }
}

fn create_spread_task(task_id: u32) -> PendingTask<()> {
    PendingTask::new(info(task_id), ())
}

fn create_worker_affinity_task(worker_id: WorkerId, soft: bool, task_id: u32) -> PendingTask<()> {
    let strategy = SchedulingStrategy::WorkerAffinity { worker_id, soft };
    PendingTask::new(TaskInfo { strategy, ..info(task_id) }, ())
}

fn create_retry_spread_task(task_id: u32, failed_on: WorkerId) -> PendingTask<()> {
    PendingTask::retry(info(task_id), (), false, 1, 0, 0, failed_on)
}

fn with_priority(task_id: u32, priority: u64) -> PendingTask<()> {
    PendingTask::new(TaskInfo { priority, ..info(task_id) }, ())
}

fn with_cpus(task_id: u32, priority: u64, num_cpus: u32) -> PendingTask<()> {
    PendingTask::new(TaskInfo { priority, request: request(num_cpus), ..info(task_id) }, ())
}

fn setup_workers(configs: &[(WorkerId, u32)]) -> Vec<WorkerSnapshot> {
    configs.iter().map(|(id, slots)| WorkerSnapshot::new(*id, 1000 * slots, 0, vec![])).collect()
}

fn default_scheduler(workers: &[(WorkerId, u32)]) -> DefaultScheduler<()> {
    let mut scheduler = DefaultScheduler::default();
    scheduler.update_worker_state(&setup_workers(workers));
    scheduler
}

fn linear_scheduler(workers: &[(WorkerId, u32)]) -> LinearScheduler<()> {
    let mut scheduler = LinearScheduler::default();
    scheduler.update_worker_state(&setup_workers(workers));
    scheduler
}

fn count(tasks: &[ScheduledTask<()>], worker: WorkerId) -> usize {
    tasks.iter().filter(|t| t.worker_id() == worker).count()
}

fn assert_on_preferred_worker(task: &ScheduledTask<()>) {
    if let SchedulingStrategy::WorkerAffinity { worker_id, .. } = task.task().strategy {
        assert_eq!(task.worker_id(), worker_id);
    } else {
        panic!("Task should have worker affinity strategy");
    }
}

#[test]
fn test_default_scheduler_spread_scheduling_homogeneous_workers() {
    let mut scheduler = default_scheduler(&[(WORKER_1, 3), (WORKER_2, 3), (WORKER_3, 3)]);
    scheduler.enqueue_tasks(vec![
        create_spread_task(1),
        create_spread_task(2),
        create_spread_task(3),
    ]);
    let (result, _) = scheduler.schedule_tasks(0);
    assert_eq!(result.len(), 3);
    assert_eq!(scheduler.num_pending_tasks(), 0);
    assert_eq!(count(&result, WORKER_3), 1);
    assert_eq!(count(&result, WORKER_2), 1);
    assert_eq!(count(&result, WORKER_1), 1);
}

#[test]
fn test_default_scheduler_spread_scheduling_heterogeneous_workers() {
    let mut scheduler = default_scheduler(&[(WORKER_1, 1), (WORKER_2, 2), (WORKER_3, 3)]);
    scheduler.enqueue_tasks(vec![
        create_spread_task(1),
        create_spread_task(2),
        create_spread_task(3),
    ]);
    let (result, _) = scheduler.schedule_tasks(0);
    assert_eq!(result.len(), 3);
    assert_eq!(scheduler.num_pending_tasks(), 0);
    assert_eq!(count(&result, WORKER_3), 2);
    assert_eq!(count(&result, WORKER_2), 1);
    assert_eq!(count(&result, WORKER_1), 0);
}

#[test]
fn test_default_scheduler_soft_node_affinity_scheduling() {
    let mut scheduler = default_scheduler(&[(WORKER_1, 1), (WORKER_2, 1), (WORKER_3, 2)]);
    scheduler.enqueue_tasks(vec![
        create_worker_affinity_task(WORKER_1, true, 1),
        create_worker_affinity_task(WORKER_2, true, 2),
    ]);
    let (result, _) = scheduler.schedule_tasks(0);
    assert_eq!(result.len(), 2);
    assert_eq!(scheduler.num_pending_tasks(), 0);
    for task in &result {
        assert_on_preferred_worker(task);
    }

    // The first two workers are full, so every task goes to the third.
    scheduler.enqueue_tasks(vec![
        create_worker_affinity_task(WORKER_1, true, 3),
        create_worker_affinity_task(WORKER_2, true, 4),
        create_worker_affinity_task(WORKER_3, true, 5),
    ]);
    let (result, _) = scheduler.schedule_tasks(0);
    assert_eq!(result.len(), 2);
    assert_eq!(scheduler.num_pending_tasks(), 1);
    for task in &result {
        assert_eq!(task.worker_id(), WORKER_3);
    }
}

#[test]
fn test_default_scheduler_hard_node_affinity_scheduling() {
    let mut scheduler = default_scheduler(&[(WORKER_1, 1), (WORKER_2, 2), (WORKER_3, 3)]);
    let tasks = || {
        vec![
            create_worker_affinity_task(WORKER_1, false, 1),
            create_worker_affinity_task(WORKER_2, false, 2),
            create_worker_affinity_task(WORKER_3, false, 3),
        ]
    };
    scheduler.enqueue_tasks(tasks());
    let (scheduled, _) = scheduler.schedule_tasks(0);
    assert_eq!(scheduled.len(), 3);
    assert_eq!(scheduler.num_pending_tasks(), 0);
    for task in &scheduled {
        assert_on_preferred_worker(task);
    }

    // The first worker is busy now.
    scheduler.enqueue_tasks(tasks());
    let (scheduled, _) = scheduler.schedule_tasks(0);
    assert_eq!(scheduled.len(), 2);
    assert_eq!(scheduler.num_pending_tasks(), 1);
    for task in &scheduled {
        assert_on_preferred_worker(task);
    }
}

#[test]
fn test_default_scheduler_with_priority_scheduling() {
    let mut scheduler = default_scheduler(&[(WORKER_1, 1), (WORKER_2, 1)]);
    scheduler.enqueue_tasks((0..100).map(|_| with_priority(0, 1)).collect());
    let (result, _) = scheduler.schedule_tasks(0);
    assert_eq!(result.len(), 2);
    assert_eq!(scheduler.num_pending_tasks(), 98);

    scheduler.enqueue_tasks(vec![with_priority(0, 100)]);
    let (result, _) = scheduler.schedule_tasks(0);
    assert_eq!(result.len(), 0);
    assert_eq!(scheduler.num_pending_tasks(), 99);

    scheduler.update_worker_state(&setup_workers(&[(WORKER_3, 1)]));
    let (result, _) = scheduler.schedule_tasks(0);
    assert_eq!(result.len(), 1);
    assert_eq!(scheduler.num_pending_tasks(), 98);
    assert_eq!(result[0].worker_id(), WORKER_3);
    assert_eq!(result[0].task().priority, 100);
}

#[test]
fn test_default_scheduler_with_resource_request_scheduling_big_tasks_first() {
    let mut scheduler = default_scheduler(&[(WORKER_1, 1), (WORKER_2, 2), (WORKER_3, 3)]);
    scheduler.enqueue_tasks(vec![with_cpus(3, 0, 3), with_cpus(2, 0, 2), with_cpus(1, 0, 1)]);
    let (result, _) = scheduler.schedule_tasks(0);
    assert_eq!(result.len(), 3);
    assert_eq!(scheduler.num_pending_tasks(), 0);
    for task in &result {
        if task.worker_id() == WORKER_1 {
            assert_eq!(task.task().context.task_id, 1);
        } else if task.worker_id() == WORKER_2 {
            assert_eq!(task.task().context.task_id, 2);
        } else if task.worker_id() == WORKER_3 {
            assert_eq!(task.task().context.task_id, 3);
        }
    }
}

#[test]
fn test_scheduling_with_empty_workers() {
    let mut scheduler = default_scheduler(&[]);
    scheduler.enqueue_tasks(vec![
        create_spread_task(1),
        create_worker_affinity_task(WORKER_1, true, 1),
    ]);
    let (result, _) = scheduler.schedule_tasks(0);
    assert_eq!(result.len(), 0);
    assert_eq!(scheduler.num_pending_tasks(), 2);
}

#[test]
fn test_scheduling_with_more_tasks_than_workers() {
    let mut scheduler = default_scheduler(&[(WORKER_1, 1), (WORKER_2, 1)]);
    scheduler.enqueue_tasks((1..=5).map(create_spread_task).collect());
    let (result, _) = scheduler.schedule_tasks(0);
    assert_eq!(result.len(), 2);
    assert_eq!(scheduler.num_pending_tasks(), 3);
    assert_eq!(count(&result, WORKER_1), 1);
    assert_eq!(count(&result, WORKER_2), 1);
}

#[test]
fn test_default_scheduler_with_no_workers_can_autoscale() {
    let mut scheduler = default_scheduler(&[]);
    scheduler.enqueue_tasks(vec![create_spread_task(1)]);
    let (result, _) = scheduler.schedule_tasks(0);
    assert_eq!(result.len(), 0);
    assert_eq!(scheduler.num_pending_tasks(), 1);
    assert_eq!(scheduler.get_autoscaling_request().unwrap().len(), 1);
}

#[test]
fn test_default_scheduler_with_insufficient_worker_capacity_can_autoscale() {
    let mut scheduler = default_scheduler(&[(WORKER_1, 1)]);
    scheduler.enqueue_tasks((1..=5).map(create_spread_task).collect());
    let (result, _) = scheduler.schedule_tasks(0);
    assert_eq!(result.len(), 1);
    assert_eq!(scheduler.num_pending_tasks(), 4);
    assert_eq!(scheduler.get_autoscaling_request().unwrap().len(), 4);
}

#[test]
fn test_default_scheduler_autoscaling_request_follows_priority_order() {
    let mut scheduler = default_scheduler(&[]);
    scheduler.enqueue_tasks(vec![with_cpus(0, 1, 1), with_cpus(0, 3, 3), with_cpus(0, 2, 2)]);
    let requested: Vec<u32> = scheduler
        .get_autoscaling_request()
        .unwrap()
        .iter()
        .map(|r| r.num_cpus)
        .collect();
    assert_eq!(requested, vec![3000, 2000, 1000]);
}

#[test]
fn test_default_scheduler_with_sufficient_worker_capacity_no_autoscale() {
    let mut scheduler = default_scheduler(&[(WORKER_1, 2), (WORKER_2, 3)]);
    scheduler.enqueue_tasks((1..=3).map(create_spread_task).collect());
    let (result, _) = scheduler.schedule_tasks(0);
    assert_eq!(result.len(), 3);
    assert_eq!(scheduler.num_pending_tasks(), 0);
    assert!(scheduler.get_autoscaling_request().is_none());
}

#[test]
fn test_hard_affinity_fallback_on_missing_worker() {
    let mut scheduler = default_scheduler(&[(WORKER_1, 4), (WORKER_2, 8)]);
    scheduler.enqueue_tasks(vec![create_worker_affinity_task(MISSING_WORKER, false, 1)]);
    let (scheduled, _) = scheduler.schedule_tasks(0);
    assert_eq!(scheduled.len(), 1);
    assert_eq!(scheduled[0].worker_id(), WORKER_2);
}

#[test]
fn test_hard_affinity_waits_when_worker_busy() {
    let mut scheduler = default_scheduler(&[(WORKER_1, 1), (WORKER_2, 4)]);
    scheduler.enqueue_tasks(vec![create_worker_affinity_task(WORKER_1, false, 1)]);
    let (scheduled, _) = scheduler.schedule_tasks(0);
    assert_eq!(scheduled.len(), 1);
    assert_eq!(scheduled[0].worker_id(), WORKER_1);

    scheduler.enqueue_tasks(vec![create_worker_affinity_task(WORKER_1, false, 2)]);
    let (scheduled, _) = scheduler.schedule_tasks(0);
    assert_eq!(scheduled.len(), 0);
    assert_eq!(scheduler.num_pending_tasks(), 1);

    // The pinned task must not wait for a worker that is gone.
    scheduler.update_worker_state(&setup_workers(&[(WORKER_2, 4)]));
    let (scheduled, _) = scheduler.schedule_tasks(0);
    assert_eq!(scheduled.len(), 1);
    assert_eq!(scheduled[0].worker_id(), WORKER_2);
    assert_eq!(scheduler.num_pending_tasks(), 0);
}

#[test]
fn test_soft_affinity_falls_back_on_missing_worker() {
    let mut scheduler = default_scheduler(&[(WORKER_1, 4)]);
    scheduler.enqueue_tasks(vec![create_worker_affinity_task(MISSING_WORKER, true, 1)]);
    let (scheduled, _) = scheduler.schedule_tasks(0);
    assert_eq!(scheduled.len(), 1);
    assert_eq!(scheduled[0].worker_id(), WORKER_1);
}

#[test]
fn test_retry_avoids_the_worker_it_failed_on() {
    let mut scheduler = default_scheduler(&[(WORKER_1, 8), (WORKER_2, 4)]);
    scheduler.enqueue_tasks(vec![create_spread_task(1)]);
    let (scheduled, _) = scheduler.schedule_tasks(0);
    assert_eq!(scheduled[0].worker_id(), WORKER_1);

    scheduler.update_worker_state(&setup_workers(&[(WORKER_1, 8), (WORKER_2, 4)]));
    scheduler.enqueue_tasks(vec![create_retry_spread_task(2, WORKER_1)]);
    let (scheduled, _) = scheduler.schedule_tasks(0);
    assert_eq!(scheduled.len(), 1);
    assert_eq!(scheduled[0].worker_id(), WORKER_2);
}

#[test]
fn test_retry_uses_failed_worker_when_it_is_the_only_option() {
    let mut scheduler = default_scheduler(&[(WORKER_1, 4)]);
    scheduler.enqueue_tasks(vec![create_retry_spread_task(1, WORKER_1)]);
    let (scheduled, _) = scheduler.schedule_tasks(0);
    assert_eq!(scheduled.len(), 1);
    assert_eq!(scheduled[0].worker_id(), WORKER_1);
}

#[test]
fn test_missing_affinity_target_warns_once_until_the_worker_returns() {
    let mut scheduler = default_scheduler(&[(WORKER_1, 4)]);
    for id in 1..=3 {
        scheduler.enqueue_tasks(vec![create_worker_affinity_task(MISSING_WORKER, false, id)]);
        scheduler.schedule_tasks(0);
    }
    assert_eq!(scheduler.warned_missing_affinity_targets.len(), 1);
    scheduler.update_worker_state(&setup_workers(&[(WORKER_1, 4), (MISSING_WORKER, 4)]));
    assert!(scheduler.warned_missing_affinity_targets.is_empty());
}

#[test]
fn test_linear_scheduler_spread_scheduling() {
    let workers = [(WORKER_1, 1), (WORKER_2, 2), (WORKER_3, 3)];
    let mut scheduler = linear_scheduler(&workers);
    scheduler.enqueue_tasks((1..=3).map(create_spread_task).collect());
    let (result, _) = scheduler.schedule_tasks(0);
    assert_eq!(result.len(), 1);
    assert_eq!(scheduler.num_pending_tasks(), 2);

    let (result, _) = scheduler.schedule_tasks(0);
    assert_eq!(result.len(), 0);
    assert_eq!(scheduler.num_pending_tasks(), 2);

    scheduler.update_worker_state(&setup_workers(&workers));
    let (result, _) = scheduler.schedule_tasks(0);
    assert_eq!(result.len(), 1);
    assert_eq!(scheduler.num_pending_tasks(), 1);
}

#[test]
fn test_linear_scheduler_soft_node_affinity_scheduling() {
    let workers = [(WORKER_1, 1), (WORKER_2, 1), (WORKER_3, 2)];
    let mut scheduler = linear_scheduler(&workers);
    scheduler.enqueue_tasks(vec![
        create_worker_affinity_task(WORKER_1, true, 1),
        create_worker_affinity_task(WORKER_2, true, 2),
    ]);
    let (result, _) = scheduler.schedule_tasks(0);
    assert_eq!(result.len(), 1);
    assert_eq!(scheduler.num_pending_tasks(), 1);
    assert_on_preferred_worker(&result[0]);

    let (result, _) = scheduler.schedule_tasks(0);
    assert_eq!(result.len(), 0);
    assert_eq!(scheduler.num_pending_tasks(), 1);

    scheduler.update_worker_state(&setup_workers(&workers));
    let (result, _) = scheduler.schedule_tasks(0);
    assert_eq!(result.len(), 1);
    assert_eq!(scheduler.num_pending_tasks(), 0);
    assert_on_preferred_worker(&result[0]);
}

#[test]
fn test_linear_scheduler_autoscaling_request_follows_priority_order() {
    let mut scheduler = linear_scheduler(&[]);
    scheduler.enqueue_tasks(vec![with_cpus(0, 1, 1), with_cpus(0, 3, 3), with_cpus(0, 2, 2)]);
    let request = scheduler.get_autoscaling_request().unwrap();
    assert_eq!(request.len(), 1);
    assert_eq!(request[0].num_cpus, 3000);
}

#[test]
fn test_linear_scheduler_hard_node_affinity_scheduling() {
    let workers = [(WORKER_1, 1), (WORKER_2, 2), (WORKER_3, 3)];
    let mut scheduler = linear_scheduler(&workers);
    scheduler.enqueue_tasks(vec![
        create_worker_affinity_task(WORKER_1, false, 1),
        create_worker_affinity_task(WORKER_2, false, 2),
        create_worker_affinity_task(WORKER_3, false, 3),
    ]);
    let (result, _) = scheduler.schedule_tasks(0);
    assert_eq!(result.len(), 1);
    assert_eq!(scheduler.num_pending_tasks(), 2);
    assert_on_preferred_worker(&result[0]);

    let (result, _) = scheduler.schedule_tasks(0);
    assert_eq!(result.len(), 0);
    assert_eq!(scheduler.num_pending_tasks(), 2);

    scheduler.update_worker_state(&setup_workers(&workers));
    let (result, _) = scheduler.schedule_tasks(0);
    assert_eq!(result.len(), 1);
    assert_eq!(scheduler.num_pending_tasks(), 1);
    assert_on_preferred_worker(&result[0]);
}

#[test]
fn test_linear_scheduler_with_priority_scheduling() {
    let mut scheduler = linear_scheduler(&[(WORKER_1, 1), (WORKER_2, 1)]);
    scheduler.enqueue_tasks(vec![with_priority(1, 1)]);
    scheduler.enqueue_tasks(vec![with_priority(2, 100)]);
    let (result, _) = scheduler.schedule_tasks(0);
    assert_eq!(result.len(), 1);
    assert_eq!(scheduler.num_pending_tasks(), 1);
    assert_eq!(result[0].task().context.task_id, 2);
}

#[test]
fn test_linear_scheduler_with_no_workers() {
    let mut scheduler = linear_scheduler(&[]);
    scheduler.enqueue_tasks(vec![
        create_spread_task(1),
        create_worker_affinity_task(WORKER_1, true, 2),
    ]);
    let (result, _) = scheduler.schedule_tasks(0);
    assert_eq!(result.len(), 0);
    assert_eq!(scheduler.num_pending_tasks(), 2);
}

#[test]
fn test_linear_hard_affinity_fallback_on_missing_worker() {
    let mut scheduler = linear_scheduler(&[(WORKER_1, 4), (WORKER_2, 8)]);
    scheduler.enqueue_tasks(vec![create_worker_affinity_task(MISSING_WORKER, false, 1)]);
    let (scheduled, _) = scheduler.schedule_tasks(0);
    assert_eq!(scheduled.len(), 1);
    assert_eq!(scheduled[0].worker_id(), WORKER_2);
}

#[test]
fn test_linear_hard_affinity_waits_when_worker_busy() {
    let mut scheduler = linear_scheduler(&[(WORKER_1, 1), (WORKER_2, 4)]);
    scheduler.enqueue_tasks(vec![create_worker_affinity_task(WORKER_1, false, 1)]);
    let (scheduled, _) = scheduler.schedule_tasks(0);
    assert_eq!(scheduled.len(), 1);
    assert_eq!(scheduled[0].worker_id(), WORKER_1);

    scheduler.enqueue_tasks(vec![create_worker_affinity_task(WORKER_1, false, 2)]);
    let (scheduled, _) = scheduler.schedule_tasks(0);
    assert_eq!(scheduled.len(), 0);
    assert_eq!(scheduler.num_pending_tasks(), 1);

    scheduler.update_worker_state(&setup_workers(&[(WORKER_2, 4)]));
    let (scheduled, _) = scheduler.schedule_tasks(0);
    assert_eq!(scheduled.len(), 1);
    assert_eq!(scheduled[0].worker_id(), WORKER_2);
    assert_eq!(scheduler.num_pending_tasks(), 0);
}

#[test]
fn test_linear_vanished_worker_is_dropped_from_snapshots() {
    let mut scheduler = linear_scheduler(&[(WORKER_1, 1), (WORKER_2, 4)]);
    scheduler.enqueue_tasks(vec![create_worker_affinity_task(WORKER_1, true, 1)]);
    let (scheduled, _) = scheduler.schedule_tasks(0);
    assert_eq!(scheduled.len(), 1);
    assert_eq!(scheduled[0].worker_id(), WORKER_1);

    scheduler.update_worker_state(&setup_workers(&[(WORKER_2, 4)]));
    scheduler.enqueue_tasks(vec![create_spread_task(2)]);
    let (scheduled, _) = scheduler.schedule_tasks(0);
    assert_eq!(scheduled.len(), 1);
    assert_eq!(scheduled[0].worker_id(), WORKER_2);
}

/// What the two schedulers have in common.
trait Scheduler: Default {
    fn update(&mut self, workers: &[WorkerSnapshot]);
    fn enqueue(&mut self, tasks: Vec<PendingTask<()>>);
    fn schedule(&mut self) -> Vec<ScheduledTask<()>>;
}

impl Scheduler for DefaultScheduler<()> {
    fn update(&mut self, workers: &[WorkerSnapshot]) {
        self.update_worker_state(workers);
    }
    fn enqueue(&mut self, tasks: Vec<PendingTask<()>>) {
        self.enqueue_tasks(tasks);
    }
    fn schedule(&mut self) -> Vec<ScheduledTask<()>> {
        self.schedule_tasks(0).0
    }
}

impl Scheduler for LinearScheduler<()> {
    fn update(&mut self, workers: &[WorkerSnapshot]) {
        self.update_worker_state(workers);
    }
    fn enqueue(&mut self, tasks: Vec<PendingTask<()>>) {
        self.enqueue_tasks(tasks);
    }
    fn schedule(&mut self) -> Vec<ScheduledTask<()>> {
        self.schedule_tasks(0).0
    }
}

fn check_drain_scheduling<S: Scheduler>() {
    let target = 1;
    let other = 2;
    let workers = |drain_state| {
        let mut draining = WorkerSnapshot::new(target, 4000, 0, vec![]);
        draining.drain_state = drain_state;
        [draining, WorkerSnapshot::new(other, 4000, 0, vec![])]
    };
    let mut scheduler = S::default();
    scheduler.update(&workers(DrainState::Draining));
    scheduler.enqueue(vec![
        create_spread_task(1),
        create_worker_affinity_task(target, false, 2),
    ]);
    let mut tasks = scheduler.schedule();
    if tasks.len() == 1 {
        // The linear scheduler runs one task at a time.
        scheduler.update(&workers(DrainState::Draining));
        tasks.extend(scheduler.schedule());
    }
    assert_eq!(tasks.len(), 2);
    for task in tasks {
        let expected = if task.task().context.task_id == 1 { other } else { target };
        assert_eq!(task.worker_id(), expected);
    }
    for state in [DrainState::ReadyToRetire, DrainState::Unknown] {
        scheduler.update(&workers(state));
        scheduler.enqueue(vec![create_worker_affinity_task(target, false, 3)]);
        let tasks = scheduler.schedule();
        assert_eq!(tasks.len(), 1);
        assert_eq!(tasks[0].worker_id(), other);
    }
}

#[test]
fn default_scheduler_drains_without_starving_affinity() {
    check_drain_scheduling::<DefaultScheduler<()>>();
}

#[test]
fn linear_scheduler_drains_without_starving_affinity() {
    check_drain_scheduling::<LinearScheduler<()>>();
}

#[test]
fn scheduled_task_context_preserves_attempt_through_deferral() {
    let scheduled = ScheduledTask::new(create_spread_task(1), WORKER_1);
    assert_eq!(scheduled.task().attempt, 0);
    let (_, task, payload, cancelled, _) = scheduled.into_inner();
    let pending = PendingTask::retry(task, payload, cancelled, 2, 0, 0, WORKER_1);
    let scheduled = ScheduledTask::new(pending, WORKER_2);
    assert_eq!(scheduled.task().attempt, 2);
    let deferred = scheduled.defer();
    assert_eq!(deferred.attempts(), 2);
    let rescheduled = ScheduledTask::new(deferred, WORKER_3);
    assert_eq!(rescheduled.task().attempt, 2);
}

#[test]
fn deferral_preserves_retry_backoff_and_worker_exclusion() {
    let bad_worker = 7;
    let now = 100;
    let mut pending = PendingTask::retry(info(1), (), false, 3, now, 30_000, bad_worker);
    let deadline = pending.not_before;
    assert_eq!(deadline, Some(30_100));
    for _ in 0..3 {
        pending = ScheduledTask::new(pending, 8).defer();
        assert_eq!(pending.not_before, deadline);
        assert_eq!(pending.avoid_worker(), Some(bad_worker));
        assert!(!pending.is_ready(now));
        assert!(pending.is_ready(30_100));
        assert_eq!(pending.attempts(), 3);
    }
}

#[test]
fn cancelled_and_waiting_tasks_are_told_apart() {
    let cancelled = PendingTask::retry(info(1), (), true, 0, 0, 0, 9);
    let waiting = PendingTask::retry(info(2), (), false, 1, 0, 50, 9);
    let mut scheduler = default_scheduler(&[(WORKER_1, 4)]);
    scheduler.enqueue_tasks(vec![cancelled, waiting, create_spread_task(3)]);
    let (scheduled, gone) = scheduler.schedule_tasks(49);
    assert_eq!(scheduled.len(), 1);
    assert_eq!(scheduled[0].task().context.task_id, 3);
    assert_eq!(gone.len(), 1);
    assert_eq!(gone[0].task_context().task_id, 1);
    assert!(gone[0].is_cancelled());
    let (scheduled, gone) = scheduler.schedule_tasks(50);
    assert_eq!((scheduled.len(), gone.len()), (1, 0));
    assert_eq!(scheduled[0].task().context.task_id, 2);
}

#[test]
fn autoscaling_starts_above_the_threshold() {
    assert_eq!(DEFAULT_AUTOSCALING_THRESHOLD, 1250);
    let mut scheduler: DefaultScheduler<()> = DefaultScheduler::with_autoscaling_threshold(1500);
    scheduler.update_worker_state(&[WorkerSnapshot::new(WORKER_1, 2000, 0, vec![])]);
    scheduler.enqueue_tasks((1..=3).map(create_spread_task).collect());
    assert!(!scheduler.needs_autoscaling());
    scheduler.enqueue_tasks(vec![create_spread_task(4)]);
    assert!(scheduler.needs_autoscaling());
}

#[test]
fn snapshots_count_what_is_in_use() {
    let active = ActiveTask { context: info(1).context, num_cpus: 1500, num_gpus: 500 };
    let mut worker = WorkerSnapshot::new(WORKER_1, 4000, 1000, vec![active]);
    assert_eq!((worker.active_num_cpus(), worker.active_num_gpus()), (1500, 500));
    assert_eq!((worker.available_num_cpus(), worker.available_num_gpus()), (2500, 500));
    assert!(worker.can_schedule_task(&info(2)));
    worker.start(&info(2));
    assert_eq!(worker.available_num_cpus(), 1500);
    worker.start(&info(2));
    assert_eq!(worker.available_num_cpus(), 1500);
    let big = TaskInfo { request: request(2), ..info(3) };
    assert!(!worker.can_schedule_task(&big));
}

#[test]
fn rounds_do_not_overload_workers() {
    let mut scheduler = default_scheduler(&[(WORKER_1, 2), (WORKER_2, 1)]);
    scheduler.enqueue_tasks((1..=5).map(create_spread_task).collect());
    let (result, _) = scheduler.schedule_tasks(0);
    assert_eq!((count(&result, WORKER_1), count(&result, WORKER_2)), (2, 1));
    assert_eq!(scheduler.num_pending_tasks(), 2);
    let (result, _) = scheduler.schedule_tasks(0);
    assert!(result.is_empty());
}
