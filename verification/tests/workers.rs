use daft_flotilla::drain::DrainState;
use daft_flotilla::error::DaftError;
use daft_flotilla::scaling::{idle_threshold, is_switched_on, DownscalePlan, ResourceBundle};
use daft_flotilla::task::{
    ResourceRequest, SchedulingStrategy, TaskContext, TaskInfo, WorkerId,
};
use daft_flotilla::worker::{ActorState, RaySwordfishWorker};
use daft_flotilla::worker_manager::{
    configured_number, next_refresh_action, shuffles_cleaned, Demand, RayWorkerManager,
    RefreshAction, RefreshEvent, Submission,
};

const OLD: WorkerId = 1;
const NEW: WorkerId = 2;

fn worker(worker_id: WorkerId, instance: &str) -> RaySwordfishWorker {
    RaySwordfishWorker::new(
        worker_id,
        instance.to_string(),
        4000,
        0,
        1024,
        "127.0.0.1".to_string(),
        Some("node".to_string()),
        0,
    )
}

fn on_node(worker_id: WorkerId, node: &str, now: u64) -> RaySwordfishWorker {
    RaySwordfishWorker::new(
        worker_id,
        format!("instance-{worker_id}"),
        4000,
        0,
        1024,
        "127.0.0.1".to_string(),
        Some(node.to_string()),
        now,
    )
}

fn manager(managed: bool) -> RayWorkerManager {
    RayWorkerManager::new(managed, None)
}

fn find(manager: &RayWorkerManager, id: WorkerId) -> &RaySwordfishWorker {
    &manager.ray_workers[manager.find_worker(id).unwrap()]
}

fn task(query_idx: u32, task_id: u32) -> TaskInfo {
    TaskInfo {
        context: TaskContext { query_idx, last_node_id: 0, task_id },
        priority: 0,
        strategy: SchedulingStrategy::Spread,
        request: ResourceRequest { num_cpus: 1000, num_gpus: 0, memory_bytes: 0 },
        attempt: 0,
    }
}

fn node() -> String {
    "node".to_string()
}

/// Retires a node: asks each of its workers, up to the first that does not answer.
fn retire(
    manager: &mut RayWorkerManager,
    epoch: u64,
    mut ask: impl FnMut(WorkerId) -> Result<(), &'static str>,
) -> Result<(), DaftError> {
    let ids = match manager.retire_node(&node(), epoch)? {
        None => return Ok(()),
        Some(ids) => ids,
    };
    for id in ids {
        match ask(id) {
            Ok(()) => manager.retirement_answered(id, None),
            Err(text) => {
                manager.retirement_answered(id, Some(text));
                return Err(DaftError::ValueError(text.to_string()));
            }
        }
    }
    manager.node_retired(&node());
    Ok(())
}

fn value_error(e: DaftError) -> String {
    match e {
        DaftError::ValueError(text) => text,
        other => panic!("{other:?}"),
    }
}

#[test]
fn confirmed_failure_allows_replacement_without_crossing_instance_lifetimes() {
    let mut manager = manager(true);
    manager.install_refresh(vec![worker(OLD, "old")], 0);
    manager.mark_worker_died(OLD);
    assert!(!manager.nodes_to_skip(0, None).contains(&node()));
    let mut replacement = worker(NEW, "new");
    replacement.drain.data_queries.insert(1);
    manager.install_refresh(vec![replacement], 0);
    manager.mark_worker_died(OLD);
    manager.mark_task_unknown(OLD);
    assert_eq!(find(&manager, OLD).drain_state(), DrainState::Failed);
    assert!(!find(&manager, NEW).can_retire());
    assert!(find(&manager, NEW).drain.data_queries.contains(&1));
}

#[test]
fn retirement_ack_can_be_retried_without_reopening_dispatch() {
    let mut manager = manager(false);
    let small = RaySwordfishWorker::new(
        OLD,
        "attempt".to_string(),
        1000,
        0,
        1024,
        "localhost".to_string(),
        Some(node()),
        0,
    );
    manager.install_refresh(vec![small], 0);
    manager.prepare_drain(node(), 4).unwrap();
    let mut calls = 0;
    let mut ask = |_| {
        calls += 1;
        if calls == 1 {
            Err("lost acknowledgement")
        } else {
            Ok(())
        }
    };
    assert!(retire(&mut manager, 4, &mut ask).is_err());
    assert!(manager.cancel_drain(node(), 4).is_err());
    assert_eq!(manager.ray_workers[0].drain_state(), DrainState::Unknown);
    assert_eq!(
        manager.ray_workers[0].drain.unknown.as_deref(),
        Some("Retirement acknowledgement failed: lost acknowledgement")
    );
    retire(&mut manager, 4, &mut ask).unwrap();
    retire(&mut manager, 4, &mut ask).unwrap();
    assert_eq!(manager.ray_workers[0].drain_state(), DrainState::Retired);
    assert_eq!(calls, 2);
}

#[test]
fn prepare_between_scheduling_and_dispatch_prevents_submission() {
    let submission = || Submission { task: task(0, 0), retains_local_data: true, payload: () };
    let mut manager = manager(false);
    manager.install_refresh(vec![worker(OLD, "attempt")], 0);
    manager.prepare_drain(node(), 1).unwrap();
    assert!(manager.submit_tasks_to_workers(OLD, vec![submission()]).is_empty());
    assert!(manager.ray_workers[0].can_retire());

    manager.cancel_drain(node(), 1).unwrap();
    let admitted = manager.submit_tasks_to_workers(OLD, vec![submission()]);
    assert_eq!(admitted.len(), 1);
    // What is about to be sent is noted before it is sent, whatever becomes of it.
    manager.begin_submit(OLD, &admitted[0].task, admitted[0].retains_local_data);
    let worker = &manager.ray_workers[0];
    assert_eq!(worker.active.len(), 1);
    assert!(worker.drain.data_queries.contains(&0));
    assert!(!worker.can_retire());
}

#[test]
fn refresh_preserves_drain_and_retired_tombstones() {
    let mut manager = manager(false);
    manager.prepare_drain(node(), 7).unwrap();
    manager.install_refresh(vec![worker(OLD, "attempt-1")], 0);
    assert_eq!(manager.ray_workers[0].drain.epoch, 7);
    assert_eq!(manager.ray_workers[0].drain_state(), DrainState::ReadyToRetire);
    assert!(manager.nodes_to_skip(0, None).contains(&node()));
    manager.cancel_drain(node(), 7).unwrap();
    assert!(manager.prepare_drain(node(), 7).is_err());
    manager.prepare_drain(node(), 8).unwrap();
    // Neither forgetting the workers nor scaling up clears a retired node.
    manager.node_drains[0].drain.state = DrainState::Retired;
    manager.ray_workers.clear();
    manager.pending_release.clear();
    assert!(manager.nodes_to_skip(0, Some("0")).contains(&node()));
}

#[test]
fn data_and_unknown_state_prevent_retirement_before_any_rpc() {
    let mut manager = manager(false);
    let mut w = worker(OLD, "attempt-1");
    w.drain.data_queries.insert(1);
    manager.install_refresh(vec![w], 0);
    manager.prepare_drain(node(), 1).unwrap();
    assert!(retire(&mut manager, 1, |_| unreachable!()).is_err());
    manager.ray_workers[0].drain.data_queries.clear();
    manager.ray_workers[0].drain.unknown = Some("cleanup failed".to_string());
    assert!(retire(&mut manager, 1, |_| unreachable!()).is_err());
    assert!(!manager.query_quiescent(1));
}

#[test]
fn refused_requests_say_why() {
    let mut manager = manager(false);
    assert_eq!(
        value_error(manager.retire_node(&node(), 1).unwrap_err()),
        "Unknown drain node"
    );
    manager.install_refresh(vec![worker(OLD, "a")], 0);
    manager.prepare_drain(node(), 2).unwrap();
    manager.begin_submit(OLD, &task(3, 1), false);
    assert_eq!(
        value_error(manager.retire_node(&node(), 2).unwrap_err()),
        "Node still has dependencies or unknown state"
    );
    manager.mark_task_finished(task(3, 1).context, OLD, 10);
    manager.cancel_drain(node(), 2).unwrap();
    assert_eq!(
        value_error(manager.retire_node(&node(), 2).unwrap_err()),
        "Node is not draining"
    );
    manager.refresh_started();
    assert_eq!(
        value_error(manager.retire_node(&node(), 2).unwrap_err()),
        "Worker discovery is still in progress"
    );
    assert!(manager.shutdown().is_ok());
    let managed = RayWorkerManager::new(true, None);
    assert_eq!(
        value_error(managed.shutdown().unwrap_err()),
        "Managed shutdown requires acknowledged node retirement"
    );
}

#[test]
fn draining_workers_finish_what_they_have() {
    let mut manager = manager(false);
    manager.install_refresh(vec![worker(OLD, "a")], 0);
    manager.begin_submit(OLD, &task(3, 1), true);
    manager.prepare_drain(node(), 1).unwrap();
    let pinned = TaskInfo {
        strategy: SchedulingStrategy::WorkerAffinity { worker_id: OLD, soft: false },
        ..task(3, 2)
    };
    let batch = vec![
        Submission { task: task(3, 3), retains_local_data: false, payload: 'a' },
        Submission { task: pinned, retains_local_data: false, payload: 'b' },
    ];
    let sent: Vec<char> =
        manager.submit_tasks_to_workers(OLD, batch).iter().map(|s| s.payload).collect();
    assert_eq!(sent, vec!['b']);
    assert!(!manager.query_quiescent(3));
    manager.mark_task_finished(task(3, 1).context, OLD, 5);
    assert!(manager.query_quiescent(3));
    let keepers = manager.finish_query(3).unwrap();
    assert_eq!(keepers, vec![OLD]);
    assert!(!manager.ray_workers[0].can_retire());
    manager.query_cleaned(3);
    assert!(manager.ray_workers[0].can_retire());
    let late = vec![Submission { task: pinned, retains_local_data: false, payload: 'c' }];
    assert!(manager.submit_tasks_to_workers(OLD, late).is_empty());
}

#[test]
fn unconfirmed_work_blocks_query_cleanup() {
    let mut manager = manager(false);
    manager.install_refresh(vec![worker(OLD, "a")], 0);
    manager.begin_submit(OLD, &task(3, 1), true);
    assert_eq!(
        value_error(manager.finish_query(3).unwrap_err()),
        "Query cleanup blocked by unconfirmed remote work"
    );
}

#[test]
fn refreshes_follow_one_another() {
    let mut manager = manager(false);
    assert_eq!(next_refresh_action(false, true, false), RefreshAction::RunSynchronously);
    assert_eq!(
        manager.drive_refresh(RefreshEvent::Running, 0).unwrap(),
        RefreshAction::RunSynchronously
    );
    manager.install_refresh(vec![worker(OLD, "a")], 0);
    assert_eq!(
        manager.drive_refresh(RefreshEvent::Running, 5_000).unwrap(),
        RefreshAction::Wait
    );
    assert_eq!(
        manager.drive_refresh(RefreshEvent::Running, 5_001).unwrap(),
        RefreshAction::Spawn
    );
    manager.refresh_started();
    assert_eq!(
        manager.drive_refresh(RefreshEvent::Running, 6_000).unwrap(),
        RefreshAction::Wait
    );
    let found = RefreshEvent::Finished(Ok(vec![on_node(NEW, "other", 6_000)]));
    assert_eq!(manager.drive_refresh(found, 7_000).unwrap(), RefreshAction::Wait);
    assert_eq!(manager.worker_snapshots().len(), 2);
    manager.refresh_started();
    let failed = RefreshEvent::Finished(Err(DaftError::ValueError("ray is down".to_string())));
    assert_eq!(value_error(manager.drive_refresh(failed, 8_000).unwrap_err()), "ray is down");
    manager.stop_execution();
    assert_eq!(
        manager.drive_refresh(RefreshEvent::Running, 90_000).unwrap(),
        RefreshAction::Wait
    );
}

#[test]
fn workers_know_their_node_and_their_load() {
    let mut lonely = RaySwordfishWorker::new(
        9,
        "instance".to_string(),
        2000,
        1000,
        64,
        "ip".to_string(),
        None,
        100,
    );
    assert_eq!(lonely.node_id(), "instance");
    assert_eq!((lonely.id(), lonely.total_num_cpus(), lonely.total_num_gpus()), (9, 2000, 1000));
    assert_eq!(lonely.idle_duration(350), 250);
    lonely.begin_submit(&task(1, 1), false);
    lonely.submitted();
    assert_eq!(lonely.state, ActorState::Busy);
    assert_eq!(lonely.active_num_cpus(), 1000);
    assert_eq!(lonely.usage().active_tasks, 1);
    assert_eq!(lonely.idle_duration(350), 0);
    lonely.mark_task_finished(task(1, 1).context, 400);
    assert!(lonely.is_idle());
    assert_eq!(lonely.idle_duration(450), 50);
    assert!(lonely.release());
}

#[test]
fn requests_grow_by_one_task() {
    let mut manager = RayWorkerManager::new(false, Some("7"));
    assert_eq!(manager.autoscale_interval_secs, 7);
    manager.install_refresh(vec![worker(OLD, "a")], 0);
    let need = |num_cpus, num_gpus, memory_bytes| ResourceRequest {
        num_cpus,
        num_gpus,
        memory_bytes,
    };
    let bundles = vec![need(1500, 0, 0), need(2500, 0, 0), need(500, 200, 10), need(1, 0, 0)];
    let request = manager.try_autoscale(&bundles, 1_000).unwrap();
    assert_eq!(
        request.bundles,
        vec![
            ResourceBundle { cpu: 2, gpu: None, memory: None },
            ResourceBundle { cpu: 3, gpu: None, memory: None },
            ResourceBundle { cpu: 1, gpu: Some(1), memory: Some(10) },
        ]
    );
    assert_eq!(
        request.demand,
        Demand { num_cpus: 4500, num_gpus: 200, memory_bytes: 10 }
    );
    manager.autoscale_sent(request.demand, 1_000);
    assert!(manager.try_autoscale(&bundles, 7_999).is_none());
    assert_eq!(manager.try_autoscale(&bundles, 8_000).unwrap().bundles.len(), 4);
    assert!(manager.try_autoscale(&vec![need(1500, 0, 0)], 8_000).is_none());
    assert!(RayWorkerManager::new(true, None).try_autoscale(&bundles, 0).is_none());
}

#[test]
fn idle_workers_are_given_back() {
    let mut manager = manager(false);
    manager.install_refresh(
        vec![
            on_node(1, "head", 0),
            on_node(2, "a", 5_000),
            on_node(3, "b", 0),
            on_node(4, "c", 100_000),
        ],
        100_000,
    );
    assert_eq!(
        manager.plan_downscale(Some("TRUE"), None, false, false),
        DownscalePlan { clear_demand: false, allowed: 3 }
    );
    assert_eq!(
        manager.plan_downscale(Some("1"), Some("9"), false, false).allowed,
        0
    );
    assert_eq!(manager.plan_downscale(Some("1"), None, true, false).allowed, 0);
    assert_eq!(
        manager.plan_downscale(Some("1"), None, true, true),
        DownscalePlan { clear_demand: true, allowed: 4 }
    );
    assert_eq!(manager.plan_downscale(Some("yes"), None, false, true).allowed, 0);
    let threshold = idle_threshold(false, None);
    assert_eq!(threshold, Some(60));
    let released = manager.retire_idle_workers(1, threshold, Some("head".to_string()), 100_000);
    let ids: Vec<WorkerId> = released.iter().map(|w| w.id()).collect();
    assert_eq!(ids, vec![3]);
    assert!(manager.nodes_to_skip(100_000, None).contains(&"b".to_string()));
    assert!(!manager.nodes_to_skip(100_000, None).contains(&"instance-3".to_string()));
    assert!(!manager.nodes_to_skip(220_000, None).contains(&"b".to_string()));
    let released = manager.retire_idle_workers(9, idle_threshold(true, None), None, 100_000);
    assert_eq!(released.len(), 3);
    assert!(manager.ray_workers.is_empty());
}

#[test]
fn nothing_changes_where_no_worker_may_go() {
    let demand = Demand { num_cpus: 4500, num_gpus: 200, memory_bytes: 10 };
    let mut manager = manager(false);
    manager.install_refresh(vec![on_node(1, "a", 0)], 100_000);
    manager.max_resources_requested = demand;
    let refreshed = manager.last_refresh;
    assert!(refreshed.is_some());
    assert!(manager.retire_idle_workers(0, None, None, 100_000).is_empty());
    assert_eq!(manager.ray_workers.len(), 1);
    assert_eq!(manager.max_resources_requested, demand);
    assert_eq!(manager.last_refresh, refreshed);
    assert!(manager.pending_release.is_empty());
    // Where some may go, what was asked for is forgotten though none is idle long enough.
    assert!(manager.retire_idle_workers(1, Some(200), None, 100_000).is_empty());
    assert_eq!(
        manager.max_resources_requested,
        Demand { num_cpus: 0, num_gpus: 0, memory_bytes: 0 }
    );
    assert_eq!(manager.last_refresh, None);
}

#[test]
fn a_node_is_noted_once_with_its_last_release() {
    let mut manager = manager(false);
    manager.install_refresh(vec![on_node(1, "a", 0)], 0);
    assert_eq!(manager.retire_idle_workers(1, None, None, 10_000).len(), 1);
    manager.install_refresh(vec![on_node(2, "a", 0), on_node(3, "b", 0)], 20_000);
    assert_eq!(manager.retire_idle_workers(2, None, None, 50_000).len(), 2);
    let mut noted: Vec<(String, u64)> =
        manager.pending_release.iter().map(|r| (r.node_id.clone(), r.since)).collect();
    noted.sort();
    assert_eq!(noted, vec![("a".to_string(), 50_000), ("b".to_string(), 50_000)]);
    let mut skipped = manager.nodes_to_skip(169_999, None);
    skipped.sort();
    assert_eq!(skipped, vec!["a".to_string(), "b".to_string()]);
    assert!(manager.nodes_to_skip(170_000, None).is_empty());
    manager.note_release("c".to_string(), 170_000);
    assert_eq!(manager.nodes_to_skip(170_001, None), vec!["c".to_string()]);
}

#[test]
fn settings_fall_back_to_their_defaults() {
    assert_eq!(configured_number(Some("17"), 5), 17);
    assert_eq!(configured_number(Some("+17"), 5), 17);
    assert_eq!(configured_number(Some("-1"), 5), 5);
    assert_eq!(configured_number(Some(""), 5), 5);
    assert_eq!(configured_number(None, 5), 5);
    assert!(is_switched_on(Some("1")) && is_switched_on(Some("tRuE")));
    assert!(!is_switched_on(Some("on")) && !is_switched_on(Some(" 1")) && !is_switched_on(None));
}

#[test]
fn usage_shows_what_every_worker_does() {
    let mut manager = manager(false);
    assert!(manager.usage_snapshot().discovery_pending);
    manager.install_refresh(vec![worker(OLD, "a"), on_node(NEW, "other", 0)], 0);
    manager.begin_submit(OLD, &task(3, 1), false);
    manager.prepare_drain(node(), 6).unwrap();
    let usage = manager.usage_snapshot();
    assert!(!usage.discovery_pending && !usage.closed);
    assert_eq!(usage.workers.len(), 2);
    let busy = usage.workers.iter().find(|w| w.worker_id == OLD).unwrap();
    assert_eq!((busy.instance_id.as_str(), busy.node_id.as_str()), ("a", "node"));
    assert_eq!((busy.state, busy.drain_epoch), (DrainState::Draining, 6));
    assert_eq!((busy.active_tasks, busy.logical_cpus), (1, 1000));
    assert!(busy.unknown.is_none() && !busy.failure_confirmed && !busy.can_retire);
    let idle = usage.workers.iter().find(|w| w.worker_id == NEW).unwrap();
    assert_eq!((idle.state, idle.active_tasks, idle.logical_cpus), (DrainState::Active, 0, 0));
    assert!(idle.can_retire);
}

#[test]
fn snapshots_take_in_workers_that_have_come_up() {
    let mut manager = manager(true);
    manager.initial_refresh_done = true;
    manager.refresh_started();
    assert_eq!(manager.collect_refresh(RefreshEvent::Running, 5).map_err(value_error), Ok(()));
    assert!(manager.usage_snapshot().discovery_pending);
    assert!(manager.retire_node(&node(), 1).is_err());
    let found = RefreshEvent::Finished(Ok(vec![worker(NEW, "new")]));
    assert_eq!(manager.collect_refresh(found, 7).map_err(value_error), Ok(()));
    let usage = manager.usage_snapshot();
    assert!(!usage.discovery_pending);
    assert_eq!(usage.workers.len(), 1);
    assert_eq!(manager.last_refresh, Some(7));
    // What nobody is waiting for is not taken in.
    let late = RefreshEvent::Finished(Ok(vec![worker(OLD, "old")]));
    assert_eq!(manager.collect_refresh(late, 9).map_err(value_error), Ok(()));
    assert_eq!(manager.ray_workers.len(), 1);
    manager.refresh_started();
    let failed = RefreshEvent::Finished(Err(DaftError::ValueError("no nodes".to_string())));
    assert_eq!(
        manager.collect_refresh(failed, 11).map_err(value_error),
        Err("no nodes".to_string())
    );
    assert!(!manager.refresh_pending);
}

#[test]
fn all_workers_forget_the_shuffles_of_a_query() {
    let mut manager = manager(true);
    manager.install_refresh(vec![worker(OLD, "old"), worker(NEW, "new")], 0);
    manager.mark_worker_died(OLD);
    assert!(manager.cleanup_shuffles(&vec![]).is_empty());
    let mut asked = manager.cleanup_shuffles(&vec![7]);
    asked.sort();
    assert_eq!(asked, vec![OLD, NEW]);
    let failed = |text: &str| Err(DaftError::ValueError(text.to_string()));
    assert!(shuffles_cleaned(Ok(()), Ok(())).is_ok());
    assert_eq!(value_error(shuffles_cleaned(failed("files"), Ok(())).unwrap_err()), "files");
    assert_eq!(
        value_error(shuffles_cleaned(failed("files"), failed("workers")).unwrap_err()),
        "workers"
    );
}
