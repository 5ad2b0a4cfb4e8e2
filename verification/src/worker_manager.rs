//! All workers of an execution: which ones there are, which ones take tasks, and how they are
//! added and retired.
use std::collections::HashSet;

use vstd::prelude::*;

use crate::drain::{DrainBarrier, DrainState, QueryIdx};
use crate::error::DaftError;
use crate::scheduler::{snapshots, with_task, ActiveTask, Snapshot, WorkerSnapshot};
use crate::sort::reversed;
use crate::task::{TaskContext, TaskInfo, WorkerId};
use crate::text::{owned, parse, parsed};
use crate::worker::{without_task, ActorState, RaySwordfishWorker, WorkerUsage};

verus! {

broadcast use vstd::std_specs::hash::group_hash_axioms;

/// How often workers are looked for, in milliseconds.
pub const REFRESH_INTERVAL_MILLIS: u64 = 5_000;

/// How often more resources are asked for, unless configured otherwise, in seconds.
pub const DEFAULT_AUTOSCALE_INTERVAL_SECS: u64 = 5;

/// How long a node is left alone after its worker was retired, unless configured otherwise, in
/// seconds.
pub const DEFAULT_RELEASE_EXCLUDE_SECS: u64 = 120;

/// How long a worker has nothing to do before it is retired, unless configured otherwise, in
/// seconds.
pub const DEFAULT_DOWNSCALE_IDLE_SECS: u64 = 60;

/// The retirement barrier of a node.
pub struct NodeDrain {
    pub node_id: String,
    pub drain: DrainBarrier,
}

/// A node whose worker was given back not long ago.
pub struct PendingRelease {
    pub node_id: String,
    /// When that was, in milliseconds.
    pub since: u64,
}

/// The nodes whose workers were given back, each with the time of that.
pub open spec fn release_times(releases: Seq<PendingRelease>) -> Seq<(Seq<char>, u64)> {
    releases.map_values(|r: PendingRelease| (r.node_id@, r.since))
}

/// Those of the first `n` releases that are of other nodes.
pub open spec fn other_releases(
    times: Seq<(Seq<char>, u64)>,
    node: Seq<char>,
    n: int,
) -> Seq<(Seq<char>, u64)>
    decreases n,
{
    if n <= 0 {
        Seq::empty()
    } else if times[n - 1].0 != node {
        other_releases(times, node, n - 1).push(times[n - 1])
    } else {
        other_releases(times, node, n - 1)
    }
}

/// The releases once one more is noted: it takes the place of what was noted of its node.
pub open spec fn noted(times: Seq<(Seq<char>, u64)>, node: Seq<char>, now: u64) -> Seq<
    (Seq<char>, u64),
> {
    other_releases(times, node, times.len() as int).push((node, now))
}

/// Whether no node is noted twice.
pub open spec fn nodes_noted_once(times: Seq<(Seq<char>, u64)>) -> bool {
    forall|i: int, j: int|
        #![trigger times[i], times[j]]
        0 <= i < j < times.len() ==> times[i].0 != times[j].0
}

pub proof fn lemma_other_releases(times: Seq<(Seq<char>, u64)>, node: Seq<char>, n: int)
    requires
        0 <= n <= times.len(),
    ensures
        forall|k: int|
            0 <= k < other_releases(times, node, n).len() ==> {
                let entry = #[trigger] other_releases(times, node, n)[k];
                entry.0 != node && exists|i: int| 0 <= i < n && #[trigger] times[i] == entry
            },
        forall|i: int|
            0 <= i < n && (#[trigger] times[i]).0 != node ==> other_releases(
                times,
                node,
                n,
            ).contains(times[i]),
        nodes_noted_once(times) ==> nodes_noted_once(other_releases(times, node, n)),
    decreases n,
{
    if n > 0 {
        lemma_other_releases(times, node, n - 1);
        let before = other_releases(times, node, n - 1);
        let all = other_releases(times, node, n);
        assert forall|i: int| 0 <= i < n && (#[trigger] times[i]).0 != node implies all.contains(
            times[i],
        ) by {
            if i < n - 1 {
                let k = choose|k: int| 0 <= k < before.len() && before[k] == times[i];
                assert(all[k] == times[i]);
            } else {
                assert(all[before.len() as int] == times[i]);
            }
        }
    }
}

pub proof fn lemma_pending_kept(releases: Seq<PendingRelease>, now: u64, ttl_secs: u64, n: int)
    requires
        0 <= n <= releases.len(),
    ensures
        forall|k: int|
            0 <= k < RayWorkerManager::pending_kept(releases, now, ttl_secs, n).len()
                ==> exists|i: int|
                0 <= i < n && #[trigger] releases[i] == #[trigger] RayWorkerManager::pending_kept(
                    releases,
                    now,
                    ttl_secs,
                    n,
                )[k],
        forall|i: int|
            0 <= i < n && RayWorkerManager::still_pending(
                #[trigger] releases[i],
                now,
                ttl_secs,
            ) ==> RayWorkerManager::pending_kept(releases, now, ttl_secs, n).contains(releases[i]),
        nodes_noted_once(release_times(releases)) ==> nodes_noted_once(
            release_times(RayWorkerManager::pending_kept(releases, now, ttl_secs, n)),
        ),
    decreases n,
{
    if n > 0 {
        lemma_pending_kept(releases, now, ttl_secs, n - 1);
        let before = RayWorkerManager::pending_kept(releases, now, ttl_secs, n - 1);
        let all = RayWorkerManager::pending_kept(releases, now, ttl_secs, n);
        assert forall|i: int|
            0 <= i < n && RayWorkerManager::still_pending(
                #[trigger] releases[i],
                now,
                ttl_secs,
            ) implies all.contains(releases[i]) by {
            if i < n - 1 {
                let k = choose|k: int| 0 <= k < before.len() && before[k] == releases[i];
                assert(all[k] == releases[i]);
            } else {
                assert(all[before.len() as int] == releases[i]);
            }
        }
        if nodes_noted_once(release_times(releases)) {
            let times = release_times(releases);
            assert forall|a: int, b: int|
                #![trigger release_times(all)[a], release_times(all)[b]]
                0 <= a < b < all.len() implies release_times(all)[a].0 != release_times(
                all,
            )[b].0 by {
                if b < before.len() {
                    assert(release_times(before)[a].0 != release_times(before)[b].0);
                } else {
                    let i = choose|i: int| 0 <= i < n - 1 && #[trigger] releases[i] == before[a];
                    assert(times[i].0 != times[n - 1].0);
                }
            }
        }
    }
}

/// Resources: processors and accelerators in thousandths, memory in bytes.
#[derive(Clone, Copy, Debug, PartialEq, Eq, Structural)]
pub struct Demand {
    pub num_cpus: u128,
    pub num_gpus: u128,
    pub memory_bytes: u128,
}

/// All workers of an execution. Times are in milliseconds.
pub struct RayWorkerManager {
    pub ray_workers: Vec<RaySwordfishWorker>,
    pub node_drains: Vec<NodeDrain>,
    /// Whether the execution takes no more tasks.
    pub closed: bool,
    pub closed_queries: HashSet<QueryIdx>,
    /// When workers were last looked for; `None` asks for that at the next opportunity.
    pub last_refresh: Option<u64>,
    /// Whether workers were ever looked for.
    pub initial_refresh_done: bool,
    /// Whether workers are being looked for.
    pub refresh_pending: bool,
    /// The most that was asked for.
    pub max_resources_requested: Demand,
    /// Each node once.
    pub pending_release: Vec<PendingRelease>,
    pub last_autoscale_request_time: Option<u64>,
    pub autoscale_interval_secs: u64,
    /// Whether a session owns the workers; it alone adds and retires them then.
    pub managed: bool,
}

/// A configured number, or the default where none can be read.
pub fn configured_number(text: Option<&str>, default: u64) -> (n: u64)
    ensures
        match text {
            Some(text) => match parsed(text@, u64::MAX as nat) {
                Some(m) => n == m,
                None => n == default,
            },
            None => n == default,
        },
{
    match text {
        Some(text) => match parse(text, u64::MAX) {
            Some(n) => n,
            None => default,
        },
        None => default,
    }
}

/// What `configured_number` reads.
pub open spec fn number(text: Option<&str>, default: u64) -> u64 {
    match text {
        Some(text) => match parsed(text@, u64::MAX as nat) {
            Some(m) => m as u64,
            None => default,
        },
        None => default,
    }
}

/// The milliseconds between two points in time; none where the second is earlier.
pub open spec fn elapsed(since: u64, now: u64) -> int {
    if now > since { now - since } else { 0 }
}

/// Whether no two workers have one number.
pub open spec fn distinct_workers(workers: Seq<RaySwordfishWorker>) -> bool {
    forall|i: int, j: int|
        #![trigger workers[i], workers[j]]
        0 <= i < j < workers.len() ==> workers[i].worker_id != workers[j].worker_id
}

/// Whether no two barriers belong to one node.
pub open spec fn distinct_nodes(drains: Seq<NodeDrain>) -> bool {
    forall|i: int, j: int|
        #![trigger drains[i], drains[j]]
        0 <= i < j < drains.len() ==> drains[i].node_id@ != drains[j].node_id@
}

/// Whether a node has a barrier.
pub open spec fn has_drain(drains: Seq<NodeDrain>, node: Seq<char>) -> bool {
    exists|d: int| 0 <= d < drains.len() && (#[trigger] drains[d]).node_id@ == node
}

/// Whether a worker is in step with the barrier of its node.
pub open spec fn in_step(worker: RaySwordfishWorker, barrier: DrainBarrier) -> bool {
    &&& worker.drain.epoch == barrier.epoch
    &&& barrier.state != DrainState::Active ==> worker.drain.state != DrainState::Active
    &&& worker.drain.committed() ==> barrier.committed()
}

impl RayWorkerManager {
    /// Workers and barriers are distinct, and every worker is in step with the barrier of its
    /// node; where there is none, it was never prepared for retirement.
    pub open spec fn wf(&self) -> bool {
        &&& distinct_workers(self.ray_workers@)
        &&& distinct_nodes(self.node_drains@)
        &&& nodes_noted_once(release_times(self.pending_release@))
        &&& forall|i: int, d: int|
            #![trigger self.ray_workers@[i], self.node_drains@[d]]
            0 <= i < self.ray_workers@.len() && 0 <= d < self.node_drains@.len()
                && self.ray_workers@[i].node_id@ == self.node_drains@[d].node_id@ ==> in_step(
                self.ray_workers@[i],
                self.node_drains@[d].drain,
            )
        &&& forall|i: int|
            0 <= i < self.ray_workers@.len() ==> {
                let worker = #[trigger] self.ray_workers@[i];
                has_drain(self.node_drains@, worker.node_id@) || (worker.drain.epoch == 0
                    && !worker.drain.committed())
            }
    }

    /// No workers yet.
    pub fn new(managed: bool, autoscale_interval: Option<&str>) -> (m: RayWorkerManager)
        ensures
            m.wf(),
            m.ray_workers@.len() == 0,
            m.node_drains@.len() == 0,
            !m.closed,
            m.closed_queries@ == Set::<QueryIdx>::empty(),
            m.last_refresh is None,
            !m.initial_refresh_done,
            !m.refresh_pending,
            m.max_resources_requested == (Demand { num_cpus: 0, num_gpus: 0, memory_bytes: 0 }),
            m.pending_release@.len() == 0,
            m.last_autoscale_request_time is None,
            m.autoscale_interval_secs == number(
                autoscale_interval,
                DEFAULT_AUTOSCALE_INTERVAL_SECS,
            ),
            m.managed == managed,
    {
        RayWorkerManager {
            ray_workers: Vec::new(),
            node_drains: Vec::new(),
            closed: false,
            closed_queries: HashSet::new(),
            last_refresh: None,
            initial_refresh_done: false,
            refresh_pending: false,
            max_resources_requested: Demand { num_cpus: 0, num_gpus: 0, memory_bytes: 0 },
            pending_release: Vec::new(),
            last_autoscale_request_time: None,
            autoscale_interval_secs: configured_number(
                autoscale_interval,
                DEFAULT_AUTOSCALE_INTERVAL_SECS,
            ),
            managed,
        }
    }

    /// Where a worker stands.
    pub fn find_worker(&self, worker_id: WorkerId) -> (r: Option<usize>)
        ensures
            match r {
                Some(i) => i < self.ray_workers@.len() && self.ray_workers@[i as int].worker_id
                    == worker_id,
                None => forall|i: int|
                    0 <= i < self.ray_workers@.len() ==> (#[trigger] self.ray_workers@[i]).worker_id
                        != worker_id,
            },
    {
        let mut i: usize = 0;
        while i < self.ray_workers.len()
            invariant
                i <= self.ray_workers@.len(),
                forall|k: int|
                    0 <= k < i ==> (#[trigger] self.ray_workers@[k]).worker_id != worker_id,
            decreases self.ray_workers@.len() - i,
        {
            if self.ray_workers[i].worker_id == worker_id {
                return Some(i);
            }
            i = i + 1;
        }
        None
    }

    /// Where the barrier of a node stands.
    fn find_drain(&self, node_id: &String) -> (r: Option<usize>)
        ensures
            match r {
                Some(d) => d < self.node_drains@.len() && self.node_drains@[d as int].node_id@
                    == node_id@,
                None => forall|d: int|
                    0 <= d < self.node_drains@.len() ==> (#[trigger] self.node_drains@[d]).node_id@
                        != node_id@,
            },
    {
        let mut d: usize = 0;
        while d < self.node_drains.len()
            invariant
                d <= self.node_drains@.len(),
                forall|k: int|
                    0 <= k < d ==> (#[trigger] self.node_drains@[k]).node_id@ != node_id@,
            decreases self.node_drains@.len() - d,
        {
            if self.node_drains[d].node_id == *node_id {
                return Some(d);
            }
            d = d + 1;
        }
        None
    }

    /// Whether workers are to be looked for.
    pub open spec fn refresh_due(&self, now: u64) -> bool {
        match self.last_refresh {
            None => true,
            Some(last) => elapsed(last, now) > REFRESH_INTERVAL_MILLIS,
        }
    }

    /// Whether workers are to be looked for.
    pub fn refresh_is_due(&self, now: u64) -> (b: bool)
        ensures
            b == self.refresh_due(now),
    {
        match self.last_refresh {
            None => true,
            Some(last) => now.saturating_sub(last) > REFRESH_INTERVAL_MILLIS,
        }
    }

    /// Ends the execution. Tasks that still run may or may not end with it.
    pub fn stop_execution(&mut self)
        requires
            old(self).wf(),
        ensures
            final(self).wf(),
            final(self).closed,
            *final(self) == (RayWorkerManager {
                closed: true,
                ray_workers: final(self).ray_workers,
                ..*old(self)
            }),
            final(self).ray_workers@.len() == old(self).ray_workers@.len(),
            forall|i: int|
                0 <= i < old(self).ray_workers@.len() ==> {
                    let before = old(self).ray_workers@[i];
                    let after = #[trigger] final(self).ray_workers@[i];
                    &&& after == RaySwordfishWorker {
                        drain: DrainBarrier { unknown: after.drain.unknown, ..before.drain },
                        ..before
                    }
                    &&& before.active@.len() == 0 ==> after.drain.unknown == before.drain.unknown
                    &&& before.active@.len() > 0 ==> after.drain.unknown is Some
                        && after.drain.unknown->0@
                        == "Execution cancelled; remote termination unconfirmed"@
                },
    {
        self.closed = true;
        let mut i: usize = 0;
        while i < self.ray_workers.len()
            invariant
                i <= self.ray_workers@.len(),
                *self == (RayWorkerManager {
                    closed: true,
                    ray_workers: self.ray_workers,
                    ..*old(self)
                }),
                self.ray_workers@.len() == old(self).ray_workers@.len(),
                forall|k: int|
                    i <= k < self.ray_workers@.len() ==> #[trigger] self.ray_workers@[k] == old(self).ray_workers@[k],
                forall|k: int|
                    0 <= k < i ==> {
                        let before = old(self).ray_workers@[k];
                        let after = #[trigger] self.ray_workers@[k];
                        &&& after == RaySwordfishWorker {
                            drain: DrainBarrier { unknown: after.drain.unknown, ..before.drain },
                            ..before
                        }
                        &&& before.active@.len() == 0 ==> after.drain.unknown
                            == before.drain.unknown
                        &&& before.active@.len() > 0 ==> after.drain.unknown is Some
                            && after.drain.unknown->0@
                            == "Execution cancelled; remote termination unconfirmed"@
                    },
            decreases self.ray_workers@.len() - i,
        {
            if self.ray_workers[i].active.len() > 0 {
                self.ray_workers[i].drain.unknown = Some(
                    owned("Execution cancelled; remote termination unconfirmed"),
                );
            }
            i = i + 1;
        }
        proof {
            old(self).lemma_workers_keep_step(*self);
        }
    }

    /// A change of workers that keeps their names, nodes and the stage of their barriers keeps
    /// everything in step.
    proof fn lemma_workers_keep_step(&self, after: RayWorkerManager)
        requires
            self.wf(),
            after.node_drains@ == self.node_drains@,
            after.pending_release@ == self.pending_release@,
            after.ray_workers@.len() == self.ray_workers@.len(),
            forall|i: int|
                0 <= i < self.ray_workers@.len() ==> {
                    let w = #[trigger] after.ray_workers@[i];
                    &&& w.worker_id == self.ray_workers@[i].worker_id
                    &&& w.node_id@ == self.ray_workers@[i].node_id@
                    &&& w.drain.epoch == self.ray_workers@[i].drain.epoch
                    &&& w.drain.state == self.ray_workers@[i].drain.state
                },
        ensures
            after.wf(),
    {
        assert forall|i: int, j: int|
            #![trigger after.ray_workers@[i], after.ray_workers@[j]]
            0 <= i < j < after.ray_workers@.len() implies after.ray_workers@[i].worker_id
            != after.ray_workers@[j].worker_id by {
            assert(self.ray_workers@[i].worker_id != self.ray_workers@[j].worker_id);
        }
        assert forall|i: int, d: int|
            #![trigger after.ray_workers@[i], after.node_drains@[d]]
            0 <= i < after.ray_workers@.len() && 0 <= d < after.node_drains@.len()
                && after.ray_workers@[i].node_id@ == after.node_drains@[d].node_id@ implies in_step(
            after.ray_workers@[i],
            after.node_drains@[d].drain,
        ) by {
            assert(in_step(self.ray_workers@[i], self.node_drains@[d].drain));
        }
        assert forall|i: int| 0 <= i < after.ray_workers@.len() implies {
            let worker = #[trigger] after.ray_workers@[i];
            has_drain(after.node_drains@, worker.node_id@) || (worker.drain.epoch == 0
                && !worker.drain.committed())
        } by {
            let worker = self.ray_workers@[i];
            assert(has_drain(self.node_drains@, worker.node_id@) || (worker.drain.epoch == 0
                && !worker.drain.committed()));
        }
    }
}

impl RayWorkerManager {
    /// The barrier of a node that has one.
    pub open spec fn barrier(&self, node: Seq<char>) -> DrainBarrier {
        let d = choose|d: int|
            0 <= d < self.node_drains@.len() && (#[trigger] self.node_drains@[d]).node_id@ == node;
        self.node_drains@[d].drain
    }

    /// Why a node cannot be prepared for retirement, if it cannot.
    pub open spec fn prepare_problem(&self, node: Seq<char>, epoch: u64) -> Option<Seq<char>> {
        if has_drain(self.node_drains@, node) {
            self.barrier(node).prepare_error(epoch)
        } else if epoch == 0 {
            Some("Stale drain epoch"@)
        } else {
            None
        }
    }

    /// Why the retirement of a node cannot be called off, if it cannot.
    pub open spec fn cancel_problem(&self, node: Seq<char>, epoch: u64) -> Option<Seq<char>> {
        if has_drain(self.node_drains@, node) {
            self.barrier(node).cancel_error(epoch)
        } else {
            Some("Unknown drain node"@)
        }
    }

    /// Whether nothing has changed.
    pub open spec fn unchanged(before: RayWorkerManager, after: RayWorkerManager) -> bool {
        &&& after == RayWorkerManager {
            ray_workers: after.ray_workers,
            node_drains: after.node_drains,
            ..before
        }
        &&& after.ray_workers@ == before.ray_workers@
        &&& after.node_drains@ == before.node_drains@
    }

    /// Whether `after` differs from `before` in the barriers of one node and its workers only,
    /// and those are in the given stage.
    pub open spec fn node_moved(
        before: RayWorkerManager,
        after: RayWorkerManager,
        node: Seq<char>,
        epoch: u64,
        state: DrainState,
    ) -> bool {
        &&& after == RayWorkerManager {
            ray_workers: after.ray_workers,
            node_drains: after.node_drains,
            ..before
        }
        &&& after.ray_workers@.len() == before.ray_workers@.len()
        &&& forall|i: int|
            0 <= i < before.ray_workers@.len() ==> #[trigger] after.ray_workers@[i] == (
            if before.ray_workers@[i].node_id@ == node {
                RaySwordfishWorker {
                    drain: DrainBarrier { epoch, state, ..before.ray_workers@[i].drain },
                    ..before.ray_workers@[i]
                }
            } else {
                before.ray_workers@[i]
            })
        &&& forall|d: int|
            0 <= d < before.node_drains@.len() ==> #[trigger] after.node_drains@[d] == (
            if before.node_drains@[d].node_id@ == node {
                NodeDrain {
                    drain: DrainBarrier { epoch, state, ..before.node_drains@[d].drain },
                    ..before.node_drains@[d]
                }
            } else {
                before.node_drains@[d]
            })
        &&& after.node_drains@.len() == before.node_drains@.len() + if has_drain(
            before.node_drains@,
            node,
        ) {
            0int
        } else {
            1int
        }
        &&& !has_drain(before.node_drains@, node) ==> {
            let added = after.node_drains@.last();
            &&& added.node_id@ == node
            &&& added.drain.epoch == epoch
            &&& added.drain.state == state
            &&& added.drain.data_queries@ == Set::<QueryIdx>::empty()
            &&& added.drain.unknown is None
        }
    }
}

impl RayWorkerManager {
    proof fn lemma_barrier(&self, d: int)
        requires
            self.wf(),
            0 <= d < self.node_drains@.len(),
        ensures
            has_drain(self.node_drains@, self.node_drains@[d].node_id@),
            self.barrier(self.node_drains@[d].node_id@) == self.node_drains@[d].drain,
    {
        let node = self.node_drains@[d].node_id@;
        let e = choose|e: int|
            0 <= e < self.node_drains@.len() && (#[trigger] self.node_drains@[e]).node_id@ == node;
        assert(self.node_drains@[e].node_id@ == node);
        if e < d {
            assert(self.node_drains@[e].node_id@ != self.node_drains@[d].node_id@);
        } else if d < e {
            assert(self.node_drains@[d].node_id@ != self.node_drains@[e].node_id@);
        }
    }

    proof fn lemma_moved_keeps_step(
        before: RayWorkerManager,
        after: RayWorkerManager,
        node: Seq<char>,
        epoch: u64,
        state: DrainState,
    )
        requires
            before.wf(),
            RayWorkerManager::node_moved(before, after, node, epoch, state),
        ensures
            after.wf(),
    {
        assert forall|i: int, j: int|
            #![trigger after.ray_workers@[i], after.ray_workers@[j]]
            0 <= i < j < after.ray_workers@.len() implies after.ray_workers@[i].worker_id
            != after.ray_workers@[j].worker_id by {
            assert(before.ray_workers@[i].worker_id != before.ray_workers@[j].worker_id);
        }
        let n = before.node_drains@.len() as int;
        assert forall|i: int, j: int|
            #![trigger after.node_drains@[i], after.node_drains@[j]]
            0 <= i < j < after.node_drains@.len() implies after.node_drains@[i].node_id@
            != after.node_drains@[j].node_id@ by {
            assert(after.node_drains@[i].node_id@ == before.node_drains@[i].node_id@);
            if j < n {
                assert(before.node_drains@[i].node_id@ != before.node_drains@[j].node_id@);
            } else {
                assert(after.node_drains@[j] == after.node_drains@.last());
                if before.node_drains@[i].node_id@ == node {
                    assert(has_drain(before.node_drains@, node));
                }
            }
        }
        assert forall|i: int, d: int|
            #![trigger after.ray_workers@[i], after.node_drains@[d]]
            0 <= i < after.ray_workers@.len() && 0 <= d < after.node_drains@.len()
                && after.ray_workers@[i].node_id@ == after.node_drains@[d].node_id@ implies in_step(
            after.ray_workers@[i],
            after.node_drains@[d].drain,
        ) by {
            if d < n {
                assert(in_step(before.ray_workers@[i], before.node_drains@[d].drain));
            } else {
                assert(after.node_drains@[d] == after.node_drains@.last());
            }
        }
        assert forall|i: int| 0 <= i < after.ray_workers@.len() implies {
            let worker = #[trigger] after.ray_workers@[i];
            has_drain(after.node_drains@, worker.node_id@) || (worker.drain.epoch == 0
                && !worker.drain.committed())
        } by {
            let worker = before.ray_workers@[i];
            assert(after.ray_workers@[i].node_id@ == worker.node_id@);
            if worker.node_id@ == node {
                if has_drain(before.node_drains@, node) {
                    let d = choose|d: int|
                        0 <= d < before.node_drains@.len()
                            && (#[trigger] before.node_drains@[d]).node_id@ == node;
                    assert(after.node_drains@[d].node_id@ == node);
                } else {
                    assert(after.node_drains@[after.node_drains@.len() - 1].node_id@ == node);
                }
            } else if has_drain(before.node_drains@, worker.node_id@) {
                let d = choose|d: int|
                    0 <= d < before.node_drains@.len()
                        && (#[trigger] before.node_drains@[d]).node_id@ == worker.node_id@;
                assert(after.node_drains@[d].node_id@ == worker.node_id@);
            }
        }
    }

    fn prepare_workers(&mut self, node_id: &String, epoch: u64) -> (r: Result<(), DaftError>)
        requires
            forall|i: int|
                0 <= i < old(self).ray_workers@.len() && (#[trigger] old(self).ray_workers@[i]).node_id@ == node_id@ ==> old(self).ray_workers@[i].drain.prepare_error(epoch) is None,
        ensures
            r is Ok,
            *final(self) == (RayWorkerManager {
                ray_workers: final(self).ray_workers,
                ..*old(self)
            }),
            final(self).ray_workers@.len() == old(self).ray_workers@.len(),
            forall|i: int|
                0 <= i < old(self).ray_workers@.len() ==> #[trigger] final(self).ray_workers@[i]
                    == (if old(self).ray_workers@[i].node_id@ == node_id@ {
                    RaySwordfishWorker {
                        drain: old(self).ray_workers@[i].drain.prepared(epoch),
                        ..old(self).ray_workers@[i]
                    }
                } else {
                    old(self).ray_workers@[i]
                }),
    {
        let mut i: usize = 0;
        while i < self.ray_workers.len()
            invariant
                i <= self.ray_workers@.len(),
                *self == (RayWorkerManager { ray_workers: self.ray_workers, ..*old(self) }),
                self.ray_workers@.len() == old(self).ray_workers@.len(),
                forall|k: int|
                    0 <= k < old(self).ray_workers@.len() && (#[trigger] old(self).ray_workers@[k]).node_id@ == node_id@ ==> old(self).ray_workers@[k].drain.prepare_error(epoch) is None,
                forall|k: int|
                    i <= k < self.ray_workers@.len() ==> #[trigger] self.ray_workers@[k] == old(self).ray_workers@[k],
                forall|k: int|
                    0 <= k < i ==> #[trigger] self.ray_workers@[k] == (if old(self).ray_workers@[k].node_id@ == node_id@ {
                        RaySwordfishWorker {
                            drain: old(self).ray_workers@[k].drain.prepared(epoch),
                            ..old(self).ray_workers@[k]
                        }
                    } else {
                        old(self).ray_workers@[k]
                    }),
            decreases self.ray_workers@.len() - i,
        {
            assert(self.ray_workers@[i as int] == old(self).ray_workers@[i as int]);
            if self.ray_workers[i].node_id == *node_id {
                match self.ray_workers[i].drain.prepare(epoch) {
                    Ok(_) => {},
                    Err(e) => {
                        return Err(e);
                    },
                }
            }
            i = i + 1;
        }
        Ok(())
    }

    /// Stops new work for a node that is to be retired. A second call in the same epoch changes
    /// nothing.
    pub fn prepare_drain(&mut self, node_id: String, epoch: u64) -> (r: Result<(), DaftError>)
        requires
            old(self).wf(),
        ensures
            final(self).wf(),
            match old(self).prepare_problem(node_id@, epoch) {
                Some(text) => {
                    &&& r matches Err(e) && e.is_value_error(text)
                    &&& RayWorkerManager::unchanged(*old(self), *final(self))
                },
                None => {
                    &&& r is Ok
                    &&& has_drain(old(self).node_drains@, node_id@) && old(self).barrier(
                        node_id@,
                    ).epoch == epoch ==> RayWorkerManager::unchanged(*old(self), *final(self))
                    &&& !(has_drain(old(self).node_drains@, node_id@) && old(self).barrier(
                        node_id@,
                    ).epoch == epoch) ==> RayWorkerManager::node_moved(
                        *old(self),
                        *final(self),
                        node_id@,
                        epoch,
                        DrainState::Draining,
                    )
                },
            },
    {
        match self.find_drain(&node_id) {
            Some(d) => {
                proof {
                    self.lemma_barrier(d as int);
                }
                let ghost barrier = self.node_drains@[d as int].drain;
                match self.node_drains[d].drain.prepare(epoch) {
                    Ok(_) => {},
                    Err(e) => {
                        assert(self.node_drains@ =~= old(self).node_drains@);
                        proof {
                            old(self).lemma_same_is_wf(*self);
                        }
                        return Err(e);
                    },
                }
                proof {
                    assert forall|i: int|
                        0 <= i < self.ray_workers@.len() && (
                        #[trigger] self.ray_workers@[i]).node_id@
                            == node_id@ implies self.ray_workers@[i].drain.prepare_error(
                        epoch,
                    ) is None by {
                        assert(in_step(
                            old(self).ray_workers@[i],
                            old(self).node_drains@[d as int].drain,
                        ));
                    }
                }
                let r: Result<(), DaftError> = self.prepare_workers(&node_id, epoch);
                proof {
                    if barrier.epoch == epoch {
                        assert(self.ray_workers@ =~= old(self).ray_workers@);
                        assert(self.node_drains@ =~= old(self).node_drains@);
                        old(self).lemma_same_is_wf(*self);
                    } else {
                        assert forall|i: int|
                            0 <= i < self.ray_workers@.len() && old(self).ray_workers@[i].node_id@
                                == node_id@ implies (#[trigger] self.ray_workers@[i]).drain.epoch
                            == epoch && self.ray_workers@[i].drain.state
                            == DrainState::Draining by {
                            assert(in_step(
                                old(self).ray_workers@[i],
                                old(self).node_drains@[d as int].drain,
                            ));
                        }
                        assert forall|k: int|
                            0 <= k < old(self).node_drains@.len() implies #[trigger] self.node_drains@[k]
                            == (if old(self).node_drains@[k].node_id@ == node_id@ {
                            NodeDrain {
                                drain: DrainBarrier {
                                    epoch,
                                    state: DrainState::Draining,
                                    ..old(self).node_drains@[k].drain
                                },
                                ..old(self).node_drains@[k]
                            }
                        } else {
                            old(self).node_drains@[k]
                        }) by {
                            if k < d {
                                assert(old(self).node_drains@[k].node_id@ != old(self).node_drains@[d as int].node_id@);
                            } else if d < k {
                                assert(old(self).node_drains@[d as int].node_id@ != old(self).node_drains@[k].node_id@);
                            }
                        }
                        assert(RayWorkerManager::node_moved(
                            *old(self),
                            *self,
                            node_id@,
                            epoch,
                            DrainState::Draining,
                        ));
                        RayWorkerManager::lemma_moved_keeps_step(
                            *old(self),
                            *self,
                            node_id@,
                            epoch,
                            DrainState::Draining,
                        );
                    }
                }
                r
            },
            None => {
                let mut barrier: DrainBarrier = DrainBarrier::default();
                match barrier.prepare(epoch) {
                    Ok(_) => {},
                    Err(e) => {
                        return Err(e);
                    },
                }
                proof {
                    assert forall|i: int|
                        0 <= i < self.ray_workers@.len() && (
                        #[trigger] self.ray_workers@[i]).node_id@
                            == node_id@ implies self.ray_workers@[i].drain.prepare_error(
                        epoch,
                    ) is None by {}
                }
                let r: Result<(), DaftError> = self.prepare_workers(&node_id, epoch);
                let ghost node = node_id@;
                self.node_drains.push(NodeDrain { node_id, drain: barrier });
                proof {
                    assert(RayWorkerManager::node_moved(
                        *old(self),
                        *self,
                        node,
                        epoch,
                        DrainState::Draining,
                    ));
                    RayWorkerManager::lemma_moved_keeps_step(
                        *old(self),
                        *self,
                        node,
                        epoch,
                        DrainState::Draining,
                    );
                }
                r
            },
        }
    }

    proof fn lemma_same_is_wf(&self, after: RayWorkerManager)
        requires
            self.wf(),
            after.ray_workers@ == self.ray_workers@,
            after.node_drains@ == self.node_drains@,
            after.pending_release@ == self.pending_release@,
        ensures
            after.wf(),
    {
    }
}

impl RayWorkerManager {
    fn cancel_workers(&mut self, node_id: &String, epoch: u64) -> (r: Result<(), DaftError>)
        requires
            forall|i: int|
                0 <= i < old(self).ray_workers@.len() && (#[trigger] old(self).ray_workers@[i]).node_id@ == node_id@ ==> old(self).ray_workers@[i].drain.cancel_error(epoch) is None,
        ensures
            r is Ok,
            *final(self) == (RayWorkerManager {
                ray_workers: final(self).ray_workers,
                ..*old(self)
            }),
            final(self).ray_workers@.len() == old(self).ray_workers@.len(),
            forall|i: int|
                0 <= i < old(self).ray_workers@.len() ==> #[trigger] final(self).ray_workers@[i]
                    == (if old(self).ray_workers@[i].node_id@ == node_id@ {
                    RaySwordfishWorker {
                        drain: old(self).ray_workers@[i].drain.in_state(DrainState::Active),
                        ..old(self).ray_workers@[i]
                    }
                } else {
                    old(self).ray_workers@[i]
                }),
    {
        let mut i: usize = 0;
        while i < self.ray_workers.len()
            invariant
                i <= self.ray_workers@.len(),
                *self == (RayWorkerManager { ray_workers: self.ray_workers, ..*old(self) }),
                self.ray_workers@.len() == old(self).ray_workers@.len(),
                forall|k: int|
                    0 <= k < old(self).ray_workers@.len() && (#[trigger] old(self).ray_workers@[k]).node_id@ == node_id@ ==> old(self).ray_workers@[k].drain.cancel_error(epoch) is None,
                forall|k: int|
                    i <= k < self.ray_workers@.len() ==> #[trigger] self.ray_workers@[k] == old(self).ray_workers@[k],
                forall|k: int|
                    0 <= k < i ==> #[trigger] self.ray_workers@[k] == (if old(self).ray_workers@[k].node_id@ == node_id@ {
                        RaySwordfishWorker {
                            drain: old(self).ray_workers@[k].drain.in_state(DrainState::Active),
                            ..old(self).ray_workers@[k]
                        }
                    } else {
                        old(self).ray_workers@[k]
                    }),
            decreases self.ray_workers@.len() - i,
        {
            assert(self.ray_workers@[i as int] == old(self).ray_workers@[i as int]);
            if self.ray_workers[i].node_id == *node_id {
                match self.ray_workers[i].drain.cancel(epoch) {
                    Ok(_) => {},
                    Err(e) => {
                        return Err(e);
                    },
                }
            }
            i = i + 1;
        }
        Ok(())
    }

    /// Calls the retirement of a node off.
    pub fn cancel_drain(&mut self, node_id: String, epoch: u64) -> (r: Result<(), DaftError>)
        requires
            old(self).wf(),
        ensures
            final(self).wf(),
            match old(self).cancel_problem(node_id@, epoch) {
                Some(text) => {
                    &&& r matches Err(e) && e.is_value_error(text)
                    &&& RayWorkerManager::unchanged(*old(self), *final(self))
                },
                None => r is Ok && RayWorkerManager::node_moved(
                    *old(self),
                    *final(self),
                    node_id@,
                    epoch,
                    DrainState::Active,
                ),
            },
    {
        let d: usize = match self.find_drain(&node_id) {
            Some(d) => d,
            None => {
                return Err(DaftError::value_error("Unknown drain node"));
            },
        };
        proof {
            self.lemma_barrier(d as int);
        }
        match self.node_drains[d].drain.cancel(epoch) {
            Ok(_) => {},
            Err(e) => {
                assert(self.node_drains@ =~= old(self).node_drains@);
                proof {
                    old(self).lemma_same_is_wf(*self);
                }
                return Err(e);
            },
        }
        proof {
            assert forall|i: int|
                0 <= i < self.ray_workers@.len() && (#[trigger] self.ray_workers@[i]).node_id@
                    == node_id@ implies self.ray_workers@[i].drain.cancel_error(epoch) is None by {
                assert(in_step(old(self).ray_workers@[i], old(self).node_drains@[d as int].drain));
            }
        }
        let r: Result<(), DaftError> = self.cancel_workers(&node_id, epoch);
        proof {
            assert forall|i: int|
                0 <= i < self.ray_workers@.len() && old(self).ray_workers@[i].node_id@
                    == node_id@ implies (#[trigger] self.ray_workers@[i]).drain.epoch == epoch by {
                assert(in_step(old(self).ray_workers@[i], old(self).node_drains@[d as int].drain));
            }
            old(self).lemma_one_drain_moved(*self, d as int);
            RayWorkerManager::lemma_moved_keeps_step(
                *old(self),
                *self,
                node_id@,
                epoch,
                DrainState::Active,
            );
        }
        r
    }

    proof fn lemma_one_drain_moved(&self, after: RayWorkerManager, d: int)
        requires
            self.wf(),
            0 <= d < self.node_drains@.len(),
            after.node_drains@ == self.node_drains@.update(d, after.node_drains@[d]),
        ensures
            after.node_drains@.len() == self.node_drains@.len(),
            has_drain(self.node_drains@, self.node_drains@[d].node_id@),
            forall|k: int|
                0 <= k < self.node_drains@.len() ==> (#[trigger] after.node_drains@[k]) == (
                if self.node_drains@[k].node_id@ == self.node_drains@[d].node_id@ {
                    after.node_drains@[d]
                } else {
                    self.node_drains@[k]
                }) && (self.node_drains@[k].node_id@ == self.node_drains@[d].node_id@ ==> k == d),
    {
        assert forall|k: int| 0 <= k < self.node_drains@.len() implies (
        #[trigger] after.node_drains@[k]) == (if self.node_drains@[k].node_id@
            == self.node_drains@[d].node_id@ {
            after.node_drains@[d]
        } else {
            self.node_drains@[k]
        }) && (self.node_drains@[k].node_id@ == self.node_drains@[d].node_id@ ==> k == d) by {
            if k < d {
                assert(self.node_drains@[k].node_id@ != self.node_drains@[d].node_id@);
            } else if d < k {
                assert(self.node_drains@[d].node_id@ != self.node_drains@[k].node_id@);
            }
        }
    }

    /// Whether a worker of a node is not ready to go.
    pub open spec fn node_is_held(&self, node: Seq<char>) -> bool {
        exists|i: int|
            0 <= i < self.ray_workers@.len() && {
                let w = #[trigger] self.ray_workers@[i];
                w.node_id@ == node && !w.known_dead && w.status() != DrainState::ReadyToRetire
            }
    }

    /// Why the retirement of a node is refused, if it is.
    pub open spec fn retire_problem(&self, node: Seq<char>, epoch: u64) -> Option<Seq<char>> {
        if self.refresh_pending {
            Some("Worker discovery is still in progress"@)
        } else if !has_drain(self.node_drains@, node) {
            Some("Unknown drain node"@)
        } else if self.barrier(node).epoch_error(epoch) is Some {
            self.barrier(node).epoch_error(epoch)
        } else if self.barrier(node).committed() {
            None
        } else if self.barrier(node).state != DrainState::Draining {
            Some("Node is not draining"@)
        } else if self.node_is_held(node) {
            Some("Node still has dependencies or unknown state"@)
        } else {
            None
        }
    }

    /// Whether a worker goes with its node.
    pub open spec fn goes(worker: RaySwordfishWorker, node: Seq<char>) -> bool {
        worker.node_id@ == node && !worker.known_dead && worker.drain.state != DrainState::Retired
    }

    /// The first `n` workers that go with a node, by number.
    pub open spec fn going(workers: Seq<RaySwordfishWorker>, node: Seq<char>, n: int) -> Seq<
        WorkerId,
    >
        decreases n,
    {
        if n <= 0 {
            Seq::empty()
        } else if RayWorkerManager::goes(workers[n - 1], node) {
            RayWorkerManager::going(workers, node, n - 1).push(workers[n - 1].worker_id)
        } else {
            RayWorkerManager::going(workers, node, n - 1)
        }
    }

    /// Commits the retirement of a node, and names the workers whose processes are to be ended;
    /// `None` where they have been. A retirement that was committed before is taken up again:
    /// an acknowledgement may have been lost.
    pub fn retire_node(&mut self, node_id: &String, epoch: u64) -> (r: Result<
        Option<Vec<WorkerId>>,
        DaftError,
    >)
        requires
            old(self).wf(),
        ensures
            final(self).wf(),
            match old(self).retire_problem(node_id@, epoch) {
                Some(text) => {
                    &&& r matches Err(e) && e.is_value_error(text)
                    &&& RayWorkerManager::unchanged(*old(self), *final(self))
                },
                None => {
                    let barrier = old(self).barrier(node_id@);
                    if barrier.state == DrainState::Retired {
                        &&& r matches Ok(ids) && ids is None
                        &&& RayWorkerManager::unchanged(*old(self), *final(self))
                    } else {
                        &&& r matches Ok(ids) && ids is Some && ids->0@ == RayWorkerManager::going(
                            old(self).ray_workers@,
                            node_id@,
                            old(self).ray_workers@.len() as int,
                        )
                        &&& *final(self) == (RayWorkerManager {
                            ray_workers: final(self).ray_workers,
                            node_drains: final(self).node_drains,
                            ..*old(self)
                        })
                        &&& final(self).ray_workers@.len() == old(self).ray_workers@.len()
                        &&& forall|i: int|
                            0 <= i < old(self).ray_workers@.len() ==> #[trigger] final(self).ray_workers@[i] == (if barrier.state == DrainState::Draining
                                && RayWorkerManager::goes(old(self).ray_workers@[i], node_id@) {
                                RaySwordfishWorker {
                                    drain: old(self).ray_workers@[i].drain.in_state(
                                        DrainState::Retiring,
                                    ),
                                    ..old(self).ray_workers@[i]
                                }
                            } else {
                                old(self).ray_workers@[i]
                            })
                        &&& final(self).node_drains@.len() == old(self).node_drains@.len()
                        &&& forall|d: int|
                            0 <= d < old(self).node_drains@.len() ==> #[trigger] final(self).node_drains@[d] == (if old(self).node_drains@[d].node_id@
                                == node_id@ {
                                NodeDrain {
                                    drain: old(self).node_drains@[d].drain.in_state(
                                        DrainState::Retiring,
                                    ),
                                    ..old(self).node_drains@[d]
                                }
                            } else {
                                old(self).node_drains@[d]
                            })
                    }
                },
            },
    {
        if self.refresh_pending {
            return Err(DaftError::value_error("Worker discovery is still in progress"));
        }
        let d: usize = match self.find_drain(node_id) {
            Some(d) => d,
            None => {
                return Err(DaftError::value_error("Unknown drain node"));
            },
        };
        proof {
            self.lemma_barrier(d as int);
        }
        match self.node_drains[d].drain.check_epoch(epoch) {
            Ok(_) => {},
            Err(e) => {
                return Err(e);
            },
        }
        let state: DrainState = self.node_drains[d].drain.state;
        if state == DrainState::Retired {
            return Ok(None);
        }
        let committed: bool = state == DrainState::Retiring;
        if state != DrainState::Draining && !committed {
            return Err(DaftError::value_error("Node is not draining"));
        }
        if !committed {
            let mut k: usize = 0;
            while k < self.ray_workers.len()
                invariant
                    k <= self.ray_workers@.len(),
                    *self == *old(self),
                    forall|i: int|
                        0 <= i < k ==> {
                            let w = #[trigger] self.ray_workers@[i];
                            w.node_id@ == node_id@ && !w.known_dead ==> w.status()
                                == DrainState::ReadyToRetire
                        },
                    old(self).wf(),
                    !self.refresh_pending,
                    has_drain(self.node_drains@, node_id@),
                    self.barrier(node_id@).epoch_error(epoch) is None,
                    self.barrier(node_id@).state == DrainState::Draining,
                decreases self.ray_workers@.len() - k,
            {
                if self.ray_workers[k].node_id == *node_id && !self.ray_workers[k].known_dead
                    && self.ray_workers[k].drain_state() != DrainState::ReadyToRetire {
                    assert(old(self).ray_workers@[k as int].status() != DrainState::ReadyToRetire);
                    assert(old(self).node_is_held(node_id@));
                    return Err(
                        DaftError::value_error("Node still has dependencies or unknown state"),
                    );
                }
                k = k + 1;
            }
        }
        self.node_drains[d].drain.state = DrainState::Retiring;
        let mut ids: Vec<WorkerId> = Vec::new();
        let mut i: usize = 0;
        while i < self.ray_workers.len()
            invariant
                i <= self.ray_workers@.len(),
                d < old(self).node_drains@.len(),
                old(self).wf(),
                old(self).node_drains@[d as int].node_id@ == node_id@,
                old(self).node_drains@[d as int].drain.epoch_error(epoch) is None,
                *self == (RayWorkerManager {
                    ray_workers: self.ray_workers,
                    node_drains: self.node_drains,
                    ..*old(self)
                }),
                self.node_drains@ == old(self).node_drains@.update(
                    d as int,
                    NodeDrain {
                        drain: old(self).node_drains@[d as int].drain.in_state(
                            DrainState::Retiring,
                        ),
                        ..old(self).node_drains@[d as int]
                    },
                ),
                self.ray_workers@.len() == old(self).ray_workers@.len(),
                committed == (old(self).node_drains@[d as int].drain.state == DrainState::Retiring),
                !committed ==> old(self).node_drains@[d as int].drain.state == DrainState::Draining,
                !committed ==> forall|k: int|
                    0 <= k < old(self).ray_workers@.len() ==> {
                        let w = #[trigger] old(self).ray_workers@[k];
                        w.node_id@ == node_id@ && !w.known_dead ==> w.status()
                            == DrainState::ReadyToRetire
                    },
                ids@ == RayWorkerManager::going(old(self).ray_workers@, node_id@, i as int),
                forall|k: int|
                    i <= k < self.ray_workers@.len() ==> #[trigger] self.ray_workers@[k] == old(self).ray_workers@[k],
                forall|k: int|
                    0 <= k < i ==> #[trigger] self.ray_workers@[k] == (if !committed
                        && RayWorkerManager::goes(old(self).ray_workers@[k], node_id@) {
                        RaySwordfishWorker {
                            drain: old(self).ray_workers@[k].drain.in_state(DrainState::Retiring),
                            ..old(self).ray_workers@[k]
                        }
                    } else {
                        old(self).ray_workers@[k]
                    }),
            decreases self.ray_workers@.len() - i,
        {
            assert(self.ray_workers@[i as int] == old(self).ray_workers@[i as int]);
            if self.ray_workers[i].node_id == *node_id && !self.ray_workers[i].known_dead
                && self.ray_workers[i].drain.state != DrainState::Retired {
                ids.push(self.ray_workers[i].worker_id);
                if !committed {
                    let active: usize = self.ray_workers[i].active.len();
                    proof {
                        assert(in_step(
                            old(self).ray_workers@[i as int],
                            old(self).node_drains@[d as int].drain,
                        ));
                    }
                    match self.ray_workers[i].drain.commit(epoch, active) {
                        Ok(_) => {},
                        Err(e) => {
                            return Err(e);
                        },
                    }
                }
            }
            i = i + 1;
        }
        proof {
            old(self).lemma_one_drain_moved(*self, d as int);
            assert forall|a: int, b: int|
                #![trigger self.ray_workers@[a], self.ray_workers@[b]]
                0 <= a < b < self.ray_workers@.len() implies self.ray_workers@[a].worker_id
                != self.ray_workers@[b].worker_id by {
                assert(old(self).ray_workers@[a].worker_id != old(self).ray_workers@[b].worker_id);
            }
            assert forall|a: int, b: int|
                #![trigger self.node_drains@[a], self.node_drains@[b]]
                0 <= a < b < self.node_drains@.len() implies self.node_drains@[a].node_id@
                != self.node_drains@[b].node_id@ by {
                assert(old(self).node_drains@[a].node_id@ != old(self).node_drains@[b].node_id@);
            }
            assert forall|a: int, b: int|
                #![trigger self.ray_workers@[a], self.node_drains@[b]]
                0 <= a < self.ray_workers@.len() && 0 <= b < self.node_drains@.len()
                    && self.ray_workers@[a].node_id@ == self.node_drains@[b].node_id@ implies in_step(
                self.ray_workers@[a],
                self.node_drains@[b].drain,
            ) by {
                assert(in_step(old(self).ray_workers@[a], old(self).node_drains@[b].drain));
            }
            assert forall|a: int| 0 <= a < self.ray_workers@.len() implies {
                let worker = #[trigger] self.ray_workers@[a];
                has_drain(self.node_drains@, worker.node_id@) || (worker.drain.epoch == 0
                    && !worker.drain.committed())
            } by {
                let worker = old(self).ray_workers@[a];
                if has_drain(old(self).node_drains@, worker.node_id@) {
                    let b = choose|b: int|
                        0 <= b < old(self).node_drains@.len() && (#[trigger] old(self).node_drains@[b]).node_id@ == worker.node_id@;
                    assert(self.node_drains@[b].node_id@ == worker.node_id@);
                } else if worker.node_id@ == node_id@ {
                    assert(has_drain(old(self).node_drains@, node_id@));
                }
            }
        }
        Ok(Some(ids))
    }
}

/// The worker of a number; the last one, where there are several.
pub open spec fn worker_of(workers: Seq<RaySwordfishWorker>, worker_id: WorkerId) -> Option<
    RaySwordfishWorker,
>
    decreases workers.len(),
{
    if workers.len() == 0 {
        None
    } else if workers.last().worker_id == worker_id {
        Some(workers.last())
    } else {
        worker_of(workers.drop_last(), worker_id)
    }
}

/// Where no two workers have one number, a number leads to its worker.
pub proof fn lemma_worker_of(workers: Seq<RaySwordfishWorker>, worker_id: WorkerId)
    requires
        distinct_workers(workers),
    ensures
        forall|i: int|
            0 <= i < workers.len() && (#[trigger] workers[i]).worker_id == worker_id ==> worker_of(
                workers,
                worker_id,
            ) == Some(workers[i]),
        (forall|i: int| 0 <= i < workers.len() ==> (#[trigger] workers[i]).worker_id != worker_id)
            ==> worker_of(workers, worker_id) is None,
    decreases workers.len(),
{
    if workers.len() > 0 {
        let before = workers.drop_last();
        let last = workers.len() - 1;
        assert forall|i: int, j: int|
            #![trigger before[i], before[j]]
            0 <= i < j < before.len() implies before[i].worker_id != before[j].worker_id by {
            assert(workers[i].worker_id != workers[j].worker_id);
        }
        lemma_worker_of(before, worker_id);
        assert(workers[last] == workers.last());
        assert forall|i: int|
            0 <= i < workers.len() && (#[trigger] workers[i]).worker_id
                == worker_id implies worker_of(workers, worker_id) == Some(workers[i]) by {
            if i < last {
                assert(before[i] == workers[i]);
            }
        }
        if forall|i: int| 0 <= i < workers.len() ==> (#[trigger] workers[i]).worker_id
            != worker_id {
            assert forall|i: int| 0 <= i < before.len() implies (#[trigger] before[i]).worker_id
                != worker_id by {
                assert(before[i] == workers[i]);
            }
        }
    }
}

impl RayWorkerManager {
    /// A worker that has come up, at the stage of its node: a node that is being retired, or an
    /// execution that is over, gives it no tasks.
    pub open spec fn adopted(&self, worker: RaySwordfishWorker) -> RaySwordfishWorker {
        let on_node = has_drain(self.node_drains@, worker.node_id@);
        let barrier = self.barrier(worker.node_id@);
        RaySwordfishWorker {
            drain: DrainBarrier {
                epoch: if on_node {
                    barrier.epoch
                } else {
                    worker.drain.epoch
                },
                state: if self.closed {
                    DrainState::Draining
                } else if on_node {
                    barrier.state
                } else {
                    worker.drain.state
                },
                ..worker.drain
            },
            ..worker
        }
    }

    fn install_worker(&mut self, worker: RaySwordfishWorker)
        requires
            old(self).wf(),
            worker.drain.epoch == 0,
            !worker.drain.committed(),
        ensures
            final(self).wf(),
            *final(self) == (RayWorkerManager {
                ray_workers: final(self).ray_workers,
                ..*old(self)
            }),
            forall|id: WorkerId| #[trigger]
                worker_of(final(self).ray_workers@, id) == (if id == worker.worker_id {
                    Some(old(self).adopted(worker))
                } else {
                    worker_of(old(self).ray_workers@, id)
                }),
    {
        let mut worker: RaySwordfishWorker = worker;
        let ghost given = worker;
        match self.find_drain(&worker.node_id) {
            Some(d) => {
                proof {
                    self.lemma_barrier(d as int);
                }
                worker.drain.epoch = self.node_drains[d].drain.epoch;
                worker.drain.state = self.node_drains[d].drain.state;
            },
            None => {},
        }
        if self.closed {
            worker.drain.state = DrainState::Draining;
        }
        let ghost taken = worker;
        assert(taken == self.adopted(given));
        let n: usize = self.ray_workers.len();
        let at: usize = match self.find_worker(worker.worker_id) {
            Some(i) => {
                self.ray_workers.set(i, worker);
                i
            },
            None => {
                self.ray_workers.push(worker);
                n
            },
        };
        proof {
            let before = old(self).ray_workers@;
            let after = self.ray_workers@;
            assert(after[at as int] == taken);
            assert forall|k: int| 0 <= k < after.len() && k != at implies #[trigger] after[k]
                == before[k] by {}
            assert forall|i: int, j: int|
                #![trigger after[i], after[j]]
                0 <= i < j < after.len() implies after[i].worker_id != after[j].worker_id by {
                if at < n {
                    assert(before[i].worker_id != before[j].worker_id);
                } else if j < n {
                    assert(before[i].worker_id != before[j].worker_id);
                }
            }
            assert forall|i: int, d: int|
                #![trigger after[i], self.node_drains@[d]]
                0 <= i < after.len() && 0 <= d < self.node_drains@.len() && after[i].node_id@
                    == self.node_drains@[d].node_id@ implies in_step(
                after[i],
                self.node_drains@[d].drain,
            ) by {
                if i != at {
                    assert(in_step(before[i], self.node_drains@[d].drain));
                } else {
                    old(self).lemma_barrier(d);
                }
            }
            assert forall|i: int| 0 <= i < after.len() implies {
                let worker = #[trigger] after[i];
                has_drain(self.node_drains@, worker.node_id@) || (worker.drain.epoch == 0
                    && !worker.drain.committed())
            } by {
                if i != at {
                    assert(after[i] == before[i]);
                }
            }
            assert forall|id: WorkerId| #[trigger] worker_of(after, id) == (if id
                == given.worker_id {
                Some(taken)
            } else {
                worker_of(before, id)
            }) by {
                lemma_worker_of(before, id);
                lemma_worker_of(after, id);
                if id == given.worker_id {
                    assert(after[at as int].worker_id == id);
                } else if exists|k: int| 0 <= k < before.len() && (#[trigger] before[k]).worker_id
                    == id {
                    let k = choose|k: int|
                        0 <= k < before.len() && (#[trigger] before[k]).worker_id == id;
                    assert(after[k] == before[k]);
                } else {
                    assert forall|k: int| 0 <= k < after.len() implies (
                    #[trigger] after[k]).worker_id != id by {
                        if k != at {
                            assert(after[k] == before[k]);
                        }
                    }
                }
            }
        }
    }

    /// Takes the workers that have come up. Draining and retired nodes stay what they are.
    pub fn install_refresh(&mut self, workers: Vec<RaySwordfishWorker>, now: u64)
        requires
            old(self).wf(),
            forall|i: int|
                0 <= i < workers@.len() ==> (#[trigger] workers@[i]).drain.epoch == 0
                    && !workers@[i].drain.committed(),
        ensures
            final(self).wf(),
            *final(self) == (RayWorkerManager {
                ray_workers: final(self).ray_workers,
                last_refresh: Some(now),
                initial_refresh_done: true,
                ..*old(self)
            }),
            forall|id: WorkerId| #[trigger]
                worker_of(final(self).ray_workers@, id) == (match worker_of(workers@, id) {
                    Some(worker) => Some(old(self).adopted(worker)),
                    None => worker_of(old(self).ray_workers@, id),
                }),
    {
        let ghost all = workers@;
        let mut rest: Vec<RaySwordfishWorker> = reversed(workers);
        let ghost mut n: int = 0;
        assert(all.take(0) =~= Seq::<RaySwordfishWorker>::empty());
        while rest.len() > 0
            invariant
                self.wf(),
                *self == (RayWorkerManager { ray_workers: self.ray_workers, ..*old(self) }),
                0 <= n <= all.len(),
                rest@.len() == all.len() - n,
                forall|i: int|
                    0 <= i < rest@.len() ==> #[trigger] rest@[i] == all[all.len() - 1 - i],
                forall|i: int|
                    0 <= i < all.len() ==> (#[trigger] all[i]).drain.epoch == 0
                        && !all[i].drain.committed(),
                forall|id: WorkerId| #[trigger]
                    worker_of(self.ray_workers@, id) == (match worker_of(all.take(n), id) {
                        Some(worker) => Some(old(self).adopted(worker)),
                        None => worker_of(old(self).ray_workers@, id),
                    }),
            decreases rest@.len(),
        {
            match rest.pop() {
                Some(worker) => {
                    assert(worker == all[n]);
                    self.install_worker(worker);
                },
                None => {},
            }
            proof {
                assert(all.take(n + 1).drop_last() =~= all.take(n));
                assert(all.take(n + 1).last() == all[n]);
                n = n + 1;
            }
        }
        assert(all.take(n) =~= all);
        self.last_refresh = Some(now);
        self.initial_refresh_done = true;
    }
}

/// What came of looking for workers.
pub enum RefreshEvent {
    /// Nothing yet.
    Running,
    /// Whoever was looking is gone.
    Lost,
    /// The workers that have come up, or why none could.
    Finished(Result<Vec<RaySwordfishWorker>, DaftError>),
}

/// What to do about looking for workers.
#[derive(Clone, Copy, Debug, PartialEq, Eq, Structural)]
pub enum RefreshAction {
    /// Nothing.
    Wait,
    /// Look for them now, and wait for the outcome.
    RunSynchronously,
    /// Look for them in the background.
    Spawn,
}

/// What to do about looking for workers. The first time is waited for: there is nobody to give
/// tasks to before, and a failure then has to reach the caller.
pub open spec fn refresh_action(initial_done: bool, due: bool, pending: bool) -> RefreshAction {
    if pending || !due {
        RefreshAction::Wait
    } else if initial_done {
        RefreshAction::Spawn
    } else {
        RefreshAction::RunSynchronously
    }
}

/// What to do about looking for workers.
pub fn next_refresh_action(initial_done: bool, due: bool, pending: bool) -> (a: RefreshAction)
    ensures
        a == refresh_action(initial_done, due, pending),
{
    if pending || !due {
        RefreshAction::Wait
    } else if initial_done {
        RefreshAction::Spawn
    } else {
        RefreshAction::RunSynchronously
    }
}

/// What is reported of an execution.
#[derive(Debug)]
pub struct UsageSnapshot {
    /// Whether workers are still being looked for.
    pub discovery_pending: bool,
    pub closed: bool,
    pub workers: Vec<WorkerUsage>,
}

/// A task that is about to be sent, with whatever is sent.
pub struct Submission<P> {
    pub task: TaskInfo,
    /// Whether the task leaves data on the worker.
    pub retains_local_data: bool,
    pub payload: P,
}

impl RayWorkerManager {
    /// Whether a task may still be sent to a worker.
    pub open spec fn admits(&self, worker_id: WorkerId, task: TaskInfo) -> bool {
        &&& !self.closed
        &&& !self.closed_queries@.contains(task.context.query_idx)
        &&& worker_of(self.ray_workers@, worker_id) matches Some(worker)
        &&& worker.seen().fits(task)
    }

    /// Those of the first `n` tasks that may still be sent to a worker.
    pub open spec fn admitted<P>(
        &self,
        worker_id: WorkerId,
        tasks: Seq<Submission<P>>,
        n: int,
    ) -> Seq<Submission<P>>
        decreases n,
    {
        if n <= 0 {
            Seq::empty()
        } else if self.admits(worker_id, tasks[n - 1].task) {
            self.admitted(worker_id, tasks, n - 1).push(tasks[n - 1])
        } else {
            self.admitted(worker_id, tasks, n - 1)
        }
    }

    /// Those of the tasks for a worker that may still be sent. Since they were placed, the
    /// worker may have begun to drain, or the query may be over.
    pub fn submit_tasks_to_workers<P>(
        &self,
        worker_id: WorkerId,
        tasks: Vec<Submission<P>>,
    ) -> (out: Vec<Submission<P>>)
        requires
            self.wf(),
        ensures
            out@ == self.admitted(worker_id, tasks@, tasks@.len() as int),
    {
        let ghost all = tasks@;
        let place: Option<usize> = self.find_worker(worker_id);
        proof {
            lemma_worker_of(self.ray_workers@, worker_id);
        }
        let mut rest: Vec<Submission<P>> = reversed(tasks);
        let mut out: Vec<Submission<P>> = Vec::new();
        let ghost mut n: int = 0;
        while rest.len() > 0
            invariant
                0 <= n <= all.len(),
                rest@.len() == all.len() - n,
                forall|i: int|
                    0 <= i < rest@.len() ==> #[trigger] rest@[i] == all[all.len() - 1 - i],
                match place {
                    Some(i) => i < self.ray_workers@.len() && worker_of(
                        self.ray_workers@,
                        worker_id,
                    ) == Some(self.ray_workers@[i as int]),
                    None => worker_of(self.ray_workers@, worker_id) is None,
                },
                out@ == self.admitted(worker_id, all, n),
            decreases rest@.len(),
        {
            match rest.pop() {
                Some(submission) => {
                    assert(submission == all[n]);
                    let open: bool = !self.closed && !self.closed_queries.contains(
                        &submission.task.context.query_idx,
                    );
                    let accepted: bool = match place {
                        Some(i) => open && self.ray_workers[i].accepts_task(&submission.task),
                        None => false,
                    };
                    if accepted {
                        out.push(submission);
                    }
                },
                None => {},
            }
            proof {
                n = n + 1;
            }
        }
        out
    }

    /// Records a task before it is sent to a worker.
    pub fn begin_submit(&mut self, worker_id: WorkerId, task: &TaskInfo, retains_local_data: bool)
        requires
            old(self).wf(),
        ensures
            final(self).wf(),
            *final(self) == (RayWorkerManager {
                ray_workers: final(self).ray_workers,
                ..*old(self)
            }),
            final(self).ray_workers@.len() == old(self).ray_workers@.len(),
            forall|i: int|
                0 <= i < old(self).ray_workers@.len() ==> {
                    let before = old(self).ray_workers@[i];
                    let after = #[trigger] final(self).ray_workers@[i];
                    &&& before.worker_id != worker_id ==> after == before
                    &&& before.worker_id == worker_id ==> {
                        &&& after.active@ == with_task(
                            before.active@,
                            ActiveTask {
                                context: task.context,
                                num_cpus: task.request.num_cpus,
                                num_gpus: task.request.num_gpus,
                            },
                        )
                        &&& after.drain.data_queries@ == (if retains_local_data {
                            before.drain.data_queries@.insert(task.context.query_idx)
                        } else {
                            before.drain.data_queries@
                        })
                        &&& after == RaySwordfishWorker {
                            active: after.active,
                            drain: DrainBarrier {
                                data_queries: after.drain.data_queries,
                                ..before.drain
                            },
                            ..before
                        }
                    }
                },
    {
        match self.find_worker(worker_id) {
            Some(at) => {
                self.ray_workers[at].begin_submit(task, retains_local_data);
                proof {
                    old(self).lemma_only_worker(at as int);
                    old(self).lemma_workers_keep_step(*self);
                }
            },
            None => {},
        }
    }

    proof fn lemma_only_worker(&self, at: int)
        requires
            self.wf(),
            0 <= at < self.ray_workers@.len(),
        ensures
            forall|i: int|
                0 <= i < self.ray_workers@.len() && (#[trigger] self.ray_workers@[i]).worker_id
                    == self.ray_workers@[at].worker_id ==> i == at,
    {
        assert forall|i: int|
            0 <= i < self.ray_workers@.len() && (#[trigger] self.ray_workers@[i]).worker_id
                == self.ray_workers@[at].worker_id implies i == at by {
            if i < at {
                assert(self.ray_workers@[i].worker_id != self.ray_workers@[at].worker_id);
            } else if at < i {
                assert(self.ray_workers@[at].worker_id != self.ray_workers@[i].worker_id);
            }
        }
    }

    /// Takes note that a task of a worker is over.
    pub fn mark_task_finished(&mut self, context: TaskContext, worker_id: WorkerId, now: u64)
        requires
            old(self).wf(),
        ensures
            final(self).wf(),
            *final(self) == (RayWorkerManager {
                ray_workers: final(self).ray_workers,
                ..*old(self)
            }),
            final(self).ray_workers@.len() == old(self).ray_workers@.len(),
            forall|i: int|
                0 <= i < old(self).ray_workers@.len() ==> {
                    let before = old(self).ray_workers@[i];
                    let after = #[trigger] final(self).ray_workers@[i];
                    &&& before.worker_id != worker_id ==> after == before
                    &&& before.worker_id == worker_id ==> {
                        &&& after.active@ == without_task(before.active@, context)
                        &&& after == RaySwordfishWorker {
                            active: after.active,
                            last_task_finished_at: now,
                            state: if after.active@.len() == 0 {
                                ActorState::Idle
                            } else {
                                before.state
                            },
                            ..before
                        }
                    }
                },
    {
        match self.find_worker(worker_id) {
            Some(at) => {
                self.ray_workers[at].mark_task_finished(context, now);
                proof {
                    old(self).lemma_only_worker(at as int);
                    old(self).lemma_workers_keep_step(*self);
                }
            },
            None => {},
        }
    }

    /// Takes note that it is not known whether a task on a worker still runs.
    pub fn mark_task_unknown(&mut self, worker_id: WorkerId)
        requires
            old(self).wf(),
        ensures
            final(self).wf(),
            *final(self) == (RayWorkerManager {
                ray_workers: final(self).ray_workers,
                ..*old(self)
            }),
            final(self).ray_workers@.len() == old(self).ray_workers@.len(),
            forall|i: int|
                0 <= i < old(self).ray_workers@.len() ==> {
                    let before = old(self).ray_workers@[i];
                    let after = #[trigger] final(self).ray_workers@[i];
                    &&& before.worker_id != worker_id || before.known_dead ==> after == before
                    &&& before.worker_id == worker_id && !before.known_dead ==> {
                        &&& after.drain.unknown is Some
                        &&& after.drain.unknown->0@ == "remote task termination is unconfirmed"@
                        &&& after == RaySwordfishWorker {
                            drain: DrainBarrier { unknown: after.drain.unknown, ..before.drain },
                            ..before
                        }
                    }
                },
    {
        match self.find_worker(worker_id) {
            Some(at) => {
                proof {
                    self.lemma_only_worker(at as int);
                }
                if !self.ray_workers[at].known_dead {
                    self.ray_workers[at].drain.unknown = Some(
                        owned("remote task termination is unconfirmed"),
                    );
                    proof {
                        old(self).lemma_workers_keep_step(*self);
                    }
                }
            },
            None => {},
        }
    }

    /// Takes note that a task has come back from a worker. In a session, where it is not certain
    /// that the task does not run any more, the worker is in doubt from then on, and stays.
    pub fn task_ended(
        &mut self,
        context: TaskContext,
        worker_id: WorkerId,
        confirmed: bool,
        now: u64,
    )
        requires
            old(self).wf(),
        ensures
            final(self).wf(),
            *final(self) == (RayWorkerManager {
                ray_workers: final(self).ray_workers,
                ..*old(self)
            }),
            final(self).ray_workers@.len() == old(self).ray_workers@.len(),
            forall|i: int|
                0 <= i < old(self).ray_workers@.len() ==> {
                    let before = old(self).ray_workers@[i];
                    let after = #[trigger] final(self).ray_workers@[i];
                    &&& before.worker_id != worker_id ==> after == before
                    &&& before.worker_id == worker_id ==> {
                        &&& after.active@ == without_task(before.active@, context)
                        &&& after == RaySwordfishWorker {
                            active: after.active,
                            last_task_finished_at: now,
                            state: if after.active@.len() == 0 {
                                ActorState::Idle
                            } else {
                                before.state
                            },
                            drain: DrainBarrier { unknown: after.drain.unknown, ..before.drain },
                            ..before
                        }
                        &&& if old(self).managed && !confirmed && !before.known_dead {
                            &&& after.drain.unknown is Some
                            &&& after.drain.unknown->0@ == "remote task termination is unconfirmed"@
                            &&& after.status() == DrainState::Unknown
                            &&& !after.free()
                        } else {
                            after.drain.unknown == before.drain.unknown
                        }
                    }
                },
    {
        self.mark_task_finished(context, worker_id, now);
        let ghost finished = *self;
        if self.managed && !confirmed {
            self.mark_task_unknown(worker_id);
            assert forall|i: int| 0 <= i < old(self).ray_workers@.len() implies (
            #[trigger] self.ray_workers@[i]).active == finished.ray_workers@[i].active by {
                let before = old(self).ray_workers@[i];
                assert(before.worker_id == finished.ray_workers@[i].worker_id);
            }
        }
    }

    /// Takes note that a worker is gone. A session keeps it in mind, so that a message about it
    /// that comes late does not touch the worker that has replaced it.
    pub fn mark_worker_died(&mut self, worker_id: WorkerId)
        requires
            old(self).wf(),
        ensures
            final(self).wf(),
            *final(self) == (RayWorkerManager {
                ray_workers: final(self).ray_workers,
                last_refresh: if old(self).managed {
                    None
                } else {
                    old(self).last_refresh
                },
                ..*old(self)
            }),
            forall|id: WorkerId|
                id != worker_id ==> #[trigger] worker_of(final(self).ray_workers@, id) == worker_of(
                    old(self).ray_workers@,
                    id,
                ),
            !old(self).managed ==> worker_of(final(self).ray_workers@, worker_id) is None,
            old(self).managed ==> match worker_of(old(self).ray_workers@, worker_id) {
                None => worker_of(final(self).ray_workers@, worker_id) is None,
                Some(before) => {
                    &&& worker_of(final(self).ray_workers@, worker_id) matches Some(after)
                    &&& after.active@.len() == 0
                    &&& after.drain.data_queries@ == Set::<QueryIdx>::empty()
                    &&& after == RaySwordfishWorker {
                        known_dead: true,
                        active: after.active,
                        drain: DrainBarrier {
                            data_queries: after.drain.data_queries,
                            unknown: None,
                            ..before.drain
                        },
                        ..before
                    }
                },
            },
    {
        let place: Option<usize> = self.find_worker(worker_id);
        if self.managed {
            match place {
                Some(at) => {
                    self.ray_workers[at].mark_died();
                },
                None => {},
            }
            self.last_refresh = None;
            proof {
                old(self).lemma_workers_keep_step(*self);
                let before = old(self).ray_workers@;
                let after = self.ray_workers@;
                lemma_worker_of(before, worker_id);
                lemma_worker_of(after, worker_id);
                if let Some(at) = place {
                    assert(after[at as int].worker_id == worker_id);
                }
                assert forall|id: WorkerId| id != worker_id implies #[trigger] worker_of(after, id)
                    == worker_of(before, id) by {
                    lemma_worker_of(before, id);
                    lemma_worker_of(after, id);
                    if exists|k: int| 0 <= k < before.len() && (#[trigger] before[k]).worker_id
                        == id {
                        let k = choose|k: int|
                            0 <= k < before.len() && (#[trigger] before[k]).worker_id == id;
                        assert(after[k] == before[k]);
                    } else {
                        assert forall|k: int| 0 <= k < after.len() implies (
                        #[trigger] after[k]).worker_id != id by {
                            assert(after[k].worker_id == before[k].worker_id);
                        }
                    }
                }
            }
        } else {
            match place {
                Some(at) => {
                    self.remove_worker(at);
                },
                None => {
                    proof {
                        lemma_worker_of(self.ray_workers@, worker_id);
                    }
                },
            }
        }
    }

    /// Takes a worker out.
    pub fn remove_worker(&mut self, at: usize) -> (removed: RaySwordfishWorker)
        requires
            old(self).wf(),
            at < old(self).ray_workers@.len(),
        ensures
            final(self).wf(),
            removed == old(self).ray_workers@[at as int],
            *final(self) == (RayWorkerManager {
                ray_workers: final(self).ray_workers,
                ..*old(self)
            }),
            final(self).ray_workers@ == old(self).ray_workers@.remove(at as int),
            forall|id: WorkerId| #[trigger]
                worker_of(final(self).ray_workers@, id) == (if id == removed.worker_id {
                    None
                } else {
                    worker_of(old(self).ray_workers@, id)
                }),
    {
        let removed: RaySwordfishWorker = self.ray_workers.remove(at);
        proof {
            let before = old(self).ray_workers@;
            let after = self.ray_workers@;
            assert forall|k: int| 0 <= k < after.len() implies #[trigger] after[k] == before[if k
                < at {
                k
            } else {
                k + 1
            }] by {}
            assert forall|i: int, j: int|
                #![trigger after[i], after[j]]
                0 <= i < j < after.len() implies after[i].worker_id != after[j].worker_id by {
                let x = if i < at { i } else { i + 1 };
                let y = if j < at { j } else { j + 1 };
                assert(before[x].worker_id != before[y].worker_id);
            }
            assert forall|i: int, d: int|
                #![trigger after[i], self.node_drains@[d]]
                0 <= i < after.len() && 0 <= d < self.node_drains@.len() && after[i].node_id@
                    == self.node_drains@[d].node_id@ implies in_step(
                after[i],
                self.node_drains@[d].drain,
            ) by {
                let x = if i < at { i } else { i + 1 };
                assert(in_step(before[x], self.node_drains@[d].drain));
            }
            assert forall|i: int| 0 <= i < after.len() implies {
                let worker = #[trigger] after[i];
                has_drain(self.node_drains@, worker.node_id@) || (worker.drain.epoch == 0
                    && !worker.drain.committed())
            } by {
                let x = if i < at { i } else { i + 1 };
                assert(after[i] == before[x]);
            }
            assert forall|id: WorkerId| #[trigger] worker_of(after, id) == (if id
                == removed.worker_id {
                None
            } else {
                worker_of(before, id)
            }) by {
                lemma_worker_of(before, id);
                lemma_worker_of(after, id);
                old(self).lemma_only_worker(at as int);
                if id == removed.worker_id {
                    assert forall|k: int| 0 <= k < after.len() implies (
                    #[trigger] after[k]).worker_id != id by {
                        let x = if k < at { k } else { k + 1 };
                        assert(after[k] == before[x]);
                    }
                } else if exists|k: int| 0 <= k < before.len() && (#[trigger] before[k]).worker_id
                    == id {
                    let k = choose|k: int|
                        0 <= k < before.len() && (#[trigger] before[k]).worker_id == id;
                    let x = if k < at { k } else { k - 1 };
                    assert(after[x] == before[k]);
                } else {
                    assert forall|k: int| 0 <= k < after.len() implies (
                    #[trigger] after[k]).worker_id != id by {
                        let x = if k < at { k } else { k + 1 };
                        assert(after[k] == before[x]);
                    }
                }
            }
        }
        removed
    }
}

impl RayWorkerManager {
    /// Takes the answer of a worker that was told to end. Without an acknowledgement it is not
    /// known whether it has, and the retirement of its node is taken up again later.
    pub fn retirement_answered(&mut self, worker_id: WorkerId, failure: Option<&str>)
        requires
            old(self).wf(),
            worker_of(old(self).ray_workers@, worker_id) matches Some(worker) ==> has_drain(
                old(self).node_drains@,
                worker.node_id@,
            ) && old(self).barrier(worker.node_id@).committed(),
        ensures
            final(self).wf(),
            *final(self) == (RayWorkerManager {
                ray_workers: final(self).ray_workers,
                ..*old(self)
            }),
            final(self).ray_workers@.len() == old(self).ray_workers@.len(),
            forall|i: int|
                0 <= i < old(self).ray_workers@.len() ==> {
                    let before = old(self).ray_workers@[i];
                    let after = #[trigger] final(self).ray_workers@[i];
                    &&& before.worker_id != worker_id ==> after == before
                    &&& before.worker_id == worker_id ==> match failure {
                        None => after == RaySwordfishWorker {
                            drain: DrainBarrier {
                                state: DrainState::Retired,
                                unknown: None,
                                ..before.drain
                            },
                            ..before
                        },
                        Some(text) => {
                            &&& after.drain.unknown is Some
                            &&& after.drain.unknown->0@ == "Retirement acknowledgement failed: "@
                                + text@
                            &&& after == RaySwordfishWorker {
                                drain: DrainBarrier {
                                    unknown: after.drain.unknown,
                                    ..before.drain
                                },
                                ..before
                            }
                        },
                    }
                },
    {
        let at: usize = match self.find_worker(worker_id) {
            Some(at) => at,
            None => {
                return;
            },
        };
        proof {
            self.lemma_only_worker(at as int);
            lemma_worker_of(self.ray_workers@, worker_id);
        }
        match failure {
            None => {
                self.ray_workers[at].drain.state = DrainState::Retired;
                self.ray_workers[at].drain.unknown = None;
            },
            Some(text) => {
                let mut reason: String = owned("Retirement acknowledgement failed: ");
                reason.append(text);
                self.ray_workers[at].drain.unknown = Some(reason);
            },
        }
        proof {
            let before = old(self).ray_workers@;
            let after = self.ray_workers@;
            assert forall|i: int, j: int|
                #![trigger after[i], after[j]]
                0 <= i < j < after.len() implies after[i].worker_id != after[j].worker_id by {
                assert(before[i].worker_id != before[j].worker_id);
            }
            assert forall|i: int, d: int|
                #![trigger after[i], self.node_drains@[d]]
                0 <= i < after.len() && 0 <= d < self.node_drains@.len() && after[i].node_id@
                    == self.node_drains@[d].node_id@ implies in_step(
                after[i],
                self.node_drains@[d].drain,
            ) by {
                assert(in_step(before[i], old(self).node_drains@[d].drain));
                old(self).lemma_barrier(d);
            }
            assert forall|i: int| 0 <= i < after.len() implies {
                let worker = #[trigger] after[i];
                has_drain(self.node_drains@, worker.node_id@) || (worker.drain.epoch == 0
                    && !worker.drain.committed())
            } by {
                assert(has_drain(self.node_drains@, before[i].node_id@) || (
                before[i].drain.epoch == 0 && !before[i].drain.committed()));
            }
        }
    }

    /// Takes note that all workers of a node have ended.
    pub fn node_retired(&mut self, node_id: &String)
        requires
            old(self).wf(),
            has_drain(old(self).node_drains@, node_id@),
            old(self).barrier(node_id@).committed(),
        ensures
            final(self).wf(),
            *final(self) == (RayWorkerManager {
                node_drains: final(self).node_drains,
                ..*old(self)
            }),
            final(self).node_drains@.len() == old(self).node_drains@.len(),
            forall|d: int|
                0 <= d < old(self).node_drains@.len() ==> #[trigger] final(self).node_drains@[d]
                    == (if old(self).node_drains@[d].node_id@ == node_id@ {
                    NodeDrain {
                        drain: old(self).node_drains@[d].drain.in_state(DrainState::Retired),
                        ..old(self).node_drains@[d]
                    }
                } else {
                    old(self).node_drains@[d]
                }),
    {
        let d: usize = match self.find_drain(node_id) {
            Some(d) => d,
            None => {
                return;
            },
        };
        proof {
            self.lemma_barrier(d as int);
        }
        self.node_drains[d].drain.state = DrainState::Retired;
        proof {
            old(self).lemma_one_drain_moved(*self, d as int);
            assert forall|a: int, b: int|
                #![trigger self.node_drains@[a], self.node_drains@[b]]
                0 <= a < b < self.node_drains@.len() implies self.node_drains@[a].node_id@
                != self.node_drains@[b].node_id@ by {
                assert(old(self).node_drains@[a].node_id@ != old(self).node_drains@[b].node_id@);
            }
            assert forall|a: int, b: int|
                #![trigger self.ray_workers@[a], self.node_drains@[b]]
                0 <= a < self.ray_workers@.len() && 0 <= b < self.node_drains@.len()
                    && self.ray_workers@[a].node_id@ == self.node_drains@[b].node_id@ implies in_step(
                self.ray_workers@[a],
                self.node_drains@[b].drain,
            ) by {
                assert(in_step(old(self).ray_workers@[a], old(self).node_drains@[b].drain));
            }
            assert forall|a: int| 0 <= a < self.ray_workers@.len() implies {
                let worker = #[trigger] self.ray_workers@[a];
                has_drain(self.node_drains@, worker.node_id@) || (worker.drain.epoch == 0
                    && !worker.drain.committed())
            } by {
                let worker = old(self).ray_workers@[a];
                if has_drain(old(self).node_drains@, worker.node_id@) {
                    let b = choose|b: int|
                        0 <= b < old(self).node_drains@.len() && (#[trigger] old(
                            self).node_drains@[b]).node_id@ == worker.node_id@;
                    assert(self.node_drains@[b].node_id@ == worker.node_id@);
                }
            }
        }
    }

    /// Whether a node whose worker was given back is still kept from getting another one.
    pub open spec fn still_pending(release: PendingRelease, now: u64, ttl_secs: u64) -> bool {
        elapsed(release.since, now) < ttl_secs * 1000
    }

    /// Those of the first `n` releases that still count.
    pub open spec fn pending_kept(
        releases: Seq<PendingRelease>,
        now: u64,
        ttl_secs: u64,
        n: int,
    ) -> Seq<PendingRelease>
        decreases n,
    {
        if n <= 0 {
            Seq::empty()
        } else if RayWorkerManager::still_pending(releases[n - 1], now, ttl_secs) {
            RayWorkerManager::pending_kept(releases, now, ttl_secs, n - 1).push(releases[n - 1])
        } else {
            RayWorkerManager::pending_kept(releases, now, ttl_secs, n - 1)
        }
    }

    /// The nodes of those of the first `n` workers that are not known to be dead.
    pub open spec fn live_nodes(workers: Seq<RaySwordfishWorker>, n: int) -> Seq<Seq<char>>
        decreases n,
    {
        if n <= 0 {
            Seq::empty()
        } else if !workers[n - 1].known_dead {
            RayWorkerManager::live_nodes(workers, n - 1).push(workers[n - 1].node_id@)
        } else {
            RayWorkerManager::live_nodes(workers, n - 1)
        }
    }

    /// Those of the first `n` nodes that are on their way out.
    pub open spec fn draining_nodes(drains: Seq<NodeDrain>, n: int) -> Seq<Seq<char>>
        decreases n,
    {
        if n <= 0 {
            Seq::empty()
        } else if drains[n - 1].drain.state != DrainState::Active {
            RayWorkerManager::draining_nodes(drains, n - 1).push(drains[n - 1].node_id@)
        } else {
            RayWorkerManager::draining_nodes(drains, n - 1)
        }
    }

    /// The nodes on which no worker is started: they have one, their worker was given
    /// back not long ago, or they are on their way out.
    pub open spec fn skip_list(&self) -> Seq<Seq<char>> {
        RayWorkerManager::live_nodes(self.ray_workers@, self.ray_workers@.len() as int)
            + self.pending_release@.map_values(|r: PendingRelease| r.node_id@)
            + RayWorkerManager::draining_nodes(self.node_drains@, self.node_drains@.len() as int)
    }

    /// Takes note that the worker of a node was given back. What was noted of the node before
    /// is replaced.
    pub fn note_release(&mut self, node_id: String, now: u64)
        requires
            old(self).wf(),
        ensures
            final(self).wf(),
            *final(self) == (RayWorkerManager {
                pending_release: final(self).pending_release,
                ..*old(self)
            }),
            release_times(final(self).pending_release@) == noted(
                release_times(old(self).pending_release@),
                node_id@,
                now,
            ),
    {
        let ghost releases = self.pending_release@;
        let ghost times = release_times(releases);
        let mut old_releases: Vec<PendingRelease> = Vec::new();
        std::mem::swap(&mut self.pending_release, &mut old_releases);
        let mut rest: Vec<PendingRelease> = reversed(old_releases);
        let mut kept: Vec<PendingRelease> = Vec::new();
        let ghost mut n: int = 0;
        while rest.len() > 0
            invariant
                0 <= n <= releases.len(),
                times == release_times(releases),
                rest@.len() == releases.len() - n,
                forall|i: int|
                    0 <= i < rest@.len() ==> #[trigger] rest@[i] == releases[releases.len() - 1
                        - i],
                release_times(kept@) == other_releases(times, node_id@, n),
            decreases rest@.len(),
        {
            match rest.pop() {
                Some(release) => {
                    assert(release == releases[n]);
                    assert(times[n] == (release.node_id@, release.since));
                    if !(release.node_id == node_id) {
                        let ghost before = kept@;
                        kept.push(release);
                        assert(release_times(kept@) =~= release_times(before).push(times[n]));
                    }
                },
                None => {},
            }
            proof {
                n = n + 1;
            }
        }
        proof {
            lemma_other_releases(times, node_id@, n);
        }
        let ghost others = kept@;
        kept.push(PendingRelease { node_id, since: now });
        assert(release_times(kept@) =~= release_times(others).push((node_id@, now)));
        self.pending_release = kept;
    }

    fn prune_releases(&mut self, now: u64, ttl_secs: u64)
        requires
            old(self).wf(),
        ensures
            final(self).wf(),
            *final(self) == (RayWorkerManager {
                pending_release: final(self).pending_release,
                ..*old(self)
            }),
            final(self).pending_release@ == RayWorkerManager::pending_kept(
                old(self).pending_release@,
                now,
                ttl_secs,
                old(self).pending_release@.len() as int,
            ),
    {
        let ghost releases = self.pending_release@;
        let mut old_releases: Vec<PendingRelease> = Vec::new();
        std::mem::swap(&mut self.pending_release, &mut old_releases);
        let mut rest: Vec<PendingRelease> = reversed(old_releases);
        let mut kept: Vec<PendingRelease> = Vec::new();
        let ghost mut n: int = 0;
        while rest.len() > 0
            invariant
                0 <= n <= releases.len(),
                rest@.len() == releases.len() - n,
                forall|i: int|
                    0 <= i < rest@.len() ==> #[trigger] rest@[i] == releases[releases.len() - 1
                        - i],
                kept@ == RayWorkerManager::pending_kept(releases, now, ttl_secs, n),
            decreases rest@.len(),
        {
            match rest.pop() {
                Some(release) => {
                    assert(release == releases[n]);
                    if (now.saturating_sub(release.since) as u128) < ttl_secs as u128 * 1000 {
                        kept.push(release);
                    }
                },
                None => {},
            }
            proof {
                n = n + 1;
            }
        }
        proof {
            lemma_pending_kept(releases, now, ttl_secs, n);
        }
        self.pending_release = kept;
    }

    /// The nodes on which no worker is started.
    pub fn nodes_to_skip(&mut self, now: u64, exclude_secs: Option<&str>) -> (ids: Vec<String>)
        requires
            old(self).wf(),
        ensures
            final(self).wf(),
            *final(self) == (RayWorkerManager {
                pending_release: final(self).pending_release,
                ..*old(self)
            }),
            final(self).pending_release@ == RayWorkerManager::pending_kept(
                old(self).pending_release@,
                now,
                number(exclude_secs, DEFAULT_RELEASE_EXCLUDE_SECS),
                old(self).pending_release@.len() as int,
            ),
            ids@.map_values(|s: String| s@) == final(self).skip_list(),
    {
        let ttl_secs: u64 = configured_number(exclude_secs, DEFAULT_RELEASE_EXCLUDE_SECS);
        self.prune_releases(now, ttl_secs);
        let mut ids: Vec<String> = Vec::new();
        let ghost mut texts: Seq<Seq<char>> = Seq::empty();
        let mut i: usize = 0;
        while i < self.ray_workers.len()
            invariant
                i <= self.ray_workers@.len(),
                texts == RayWorkerManager::live_nodes(self.ray_workers@, i as int),
                texts.len() == ids@.len(),
                forall|k: int| 0 <= k < ids@.len() ==> (#[trigger] ids@[k])@ == texts[k],
            decreases self.ray_workers@.len() - i,
        {
            if !self.ray_workers[i].known_dead {
                ids.push(self.ray_workers[i].node_id.clone());
                proof {
                    texts = texts.push(self.ray_workers@[i as int].node_id@);
                }
            }
            i = i + 1;
        }
        let ghost live = texts;
        let mut p: usize = 0;
        while p < self.pending_release.len()
            invariant
                p <= self.pending_release@.len(),
                texts == live + self.pending_release@.take(p as int).map_values(
                    |r: PendingRelease| r.node_id@,
                ),
                texts.len() == ids@.len(),
                forall|k: int| 0 <= k < ids@.len() ==> (#[trigger] ids@[k])@ == texts[k],
            decreases self.pending_release@.len() - p,
        {
            ids.push(self.pending_release[p].node_id.clone());
            proof {
                texts = texts.push(self.pending_release@[p as int].node_id@);
                assert(texts =~= live + self.pending_release@.take(p + 1).map_values(
                    |r: PendingRelease| r.node_id@,
                ));
            }
            p = p + 1;
        }
        assert(self.pending_release@.take(p as int) =~= self.pending_release@);
        let ghost recent = texts;
        let mut d: usize = 0;
        while d < self.node_drains.len()
            invariant
                d <= self.node_drains@.len(),
                texts == recent + RayWorkerManager::draining_nodes(self.node_drains@, d as int),
                texts.len() == ids@.len(),
                forall|k: int| 0 <= k < ids@.len() ==> (#[trigger] ids@[k])@ == texts[k],
            decreases self.node_drains@.len() - d,
        {
            if self.node_drains[d].drain.state != DrainState::Active {
                ids.push(self.node_drains[d].node_id.clone());
                proof {
                    texts = texts.push(self.node_drains@[d as int].node_id@);
                    assert(texts =~= recent + RayWorkerManager::draining_nodes(
                        self.node_drains@,
                        d + 1,
                    ));
                }
            }
            d = d + 1;
        }
        assert(ids@.map_values(|s: String| s@) =~= self.skip_list());
        ids
    }
}

proof fn lemma_draining_listed(drains: Seq<NodeDrain>, n: int, d: int)
    requires
        0 <= d < n <= drains.len(),
        drains[d].drain.state != DrainState::Active,
    ensures
        RayWorkerManager::draining_nodes(drains, n).contains(drains[d].node_id@),
    decreases n,
{
    let all = RayWorkerManager::draining_nodes(drains, n);
    let before = RayWorkerManager::draining_nodes(drains, n - 1);
    if d == n - 1 {
        assert(all[before.len() as int] == drains[d].node_id@);
    } else {
        lemma_draining_listed(drains, n - 1, d);
        let k = choose|k: int| 0 <= k < before.len() && before[k] == drains[d].node_id@;
        assert(all[k] == before[k]);
    }
}

/// A node that is draining, retiring or retired gets no new worker, however long ago its worker
/// was retired and whatever else is known of it.
pub proof fn retired_nodes_stay_empty(m: RayWorkerManager, d: int)
    requires
        0 <= d < m.node_drains@.len(),
        m.node_drains@[d].drain.state != DrainState::Active,
    ensures
        m.skip_list().contains(m.node_drains@[d].node_id@),
{
    lemma_draining_listed(m.node_drains@, m.node_drains@.len() as int, d);
    let drained = RayWorkerManager::draining_nodes(m.node_drains@, m.node_drains@.len() as int);
    let node = m.node_drains@[d].node_id@;
    let k = choose|k: int| 0 <= k < drained.len() && drained[k] == node;
    let offset = m.skip_list().len() - drained.len();
    assert(m.skip_list()[offset + k] == node);
}

impl RayWorkerManager {
    /// Whether workers are given tasks only once more is known of them.
    pub fn discovery_pending(&self) -> (b: bool)
        ensures
            b == (self.refresh_pending || (!self.initial_refresh_done && !self.closed)),
    {
        self.refresh_pending || (!self.initial_refresh_done && !self.closed)
    }

    /// Takes what came of looking for workers. Whoever asks what the workers are doing takes it
    /// as well as whoever places tasks.
    pub fn collect_refresh(&mut self, event: RefreshEvent, now: u64) -> (r: Result<(), DaftError>)
        requires
            old(self).wf(),
            event matches RefreshEvent::Finished(Ok(workers)) ==> forall|i: int|
                0 <= i < workers@.len() ==> (#[trigger] workers@[i]).drain.epoch == 0
                    && !workers@[i].drain.committed(),
        ensures
            final(self).wf(),
            r == (if old(self).refresh_pending && event is Finished && event->Finished_0 is Err {
                Err::<(), DaftError>(event->Finished_0->Err_0)
            } else {
                Ok(())
            }),
            !old(self).refresh_pending || event is Running ==> *final(self) == *old(self),
            old(self).refresh_pending && (event is Lost || event is Finished
                && event->Finished_0 is Err) ==> *final(self) == (RayWorkerManager {
                refresh_pending: false,
                ..*old(self)
            }),
            old(self).refresh_pending && event is Finished && event->Finished_0 is Ok ==> {
                &&& *final(self) == (RayWorkerManager {
                    ray_workers: final(self).ray_workers,
                    refresh_pending: false,
                    last_refresh: Some(now),
                    initial_refresh_done: true,
                    ..*old(self)
                })
                &&& forall|id: WorkerId| #[trigger]
                    worker_of(final(self).ray_workers@, id) == (match worker_of(
                        event->Finished_0->Ok_0@,
                        id,
                    ) {
                        Some(worker) => Some(old(self).adopted(worker)),
                        None => worker_of(old(self).ray_workers@, id),
                    })
            },
    {
        if !self.refresh_pending {
            return Ok(());
        }
        match event {
            RefreshEvent::Running => Ok(()),
            RefreshEvent::Lost => {
                self.refresh_pending = false;
                Ok(())
            },
            RefreshEvent::Finished(outcome) => {
                self.refresh_pending = false;
                match outcome {
                    Ok(workers) => {
                        self.install_refresh(workers, now);
                        Ok(())
                    },
                    Err(e) => Err(e),
                }
            },
        }
    }

    /// Takes what came of looking for workers, and says whether to look for them again. Only
    /// the very first time is waited for: tasks go on meanwhile.
    pub fn drive_refresh(&mut self, event: RefreshEvent, now: u64) -> (r: Result<
        RefreshAction,
        DaftError,
    >)
        requires
            old(self).wf(),
            event matches RefreshEvent::Finished(Ok(workers)) ==> forall|i: int|
                0 <= i < workers@.len() ==> (#[trigger] workers@[i]).drain.epoch == 0
                    && !workers@[i].drain.committed(),
        ensures
            final(self).wf(),
            old(self).refresh_pending && event is Finished && event->Finished_0 is Err ==> {
                &&& r is Err
                &&& r->Err_0 == event->Finished_0->Err_0
                &&& *final(self) == (RayWorkerManager { refresh_pending: false, ..*old(self) })
            },
            !(old(self).refresh_pending && event is Finished && event->Finished_0 is Err) ==> r
                == Ok::<RefreshAction, DaftError>(
                refresh_action(
                    final(self).initial_refresh_done,
                    !final(self).closed && final(self).refresh_due(now),
                    final(self).refresh_pending,
                ),
            ),
            !old(self).refresh_pending || event is Running ==> *final(self) == *old(self),
            old(self).refresh_pending && event is Lost ==> *final(self) == (RayWorkerManager {
                refresh_pending: false,
                ..*old(self)
            }),
            old(self).refresh_pending && event is Finished && event->Finished_0 is Ok ==> {
                &&& *final(self) == (RayWorkerManager {
                    ray_workers: final(self).ray_workers,
                    refresh_pending: false,
                    last_refresh: Some(now),
                    initial_refresh_done: true,
                    ..*old(self)
                })
                &&& forall|id: WorkerId| #[trigger]
                    worker_of(final(self).ray_workers@, id) == (match worker_of(
                        event->Finished_0->Ok_0@,
                        id,
                    ) {
                        Some(worker) => Some(old(self).adopted(worker)),
                        None => worker_of(old(self).ray_workers@, id),
                    })
            },
    {
        match self.collect_refresh(event, now) {
            Ok(()) => {},
            Err(e) => {
                return Err(e);
            },
        }
        let due: bool = !self.closed && self.refresh_is_due(now);
        Ok(next_refresh_action(self.initial_refresh_done, due, self.refresh_pending))
    }

    /// Takes note that workers are being looked for.
    pub fn refresh_started(&mut self)
        requires
            old(self).wf(),
        ensures
            final(self).wf(),
            *final(self) == (RayWorkerManager { refresh_pending: true, ..*old(self) }),
    {
        self.refresh_pending = true;
    }

    /// What the scheduler sees of the first `n` workers; those known to be dead are left out.
    pub open spec fn seen_workers(workers: Seq<RaySwordfishWorker>, n: int) -> Seq<Snapshot>
        decreases n,
    {
        if n <= 0 {
            Seq::empty()
        } else if !workers[n - 1].known_dead {
            RayWorkerManager::seen_workers(workers, n - 1).push(workers[n - 1].seen())
        } else {
            RayWorkerManager::seen_workers(workers, n - 1)
        }
    }

    /// What every worker is doing, and whether more of them may come.
    pub fn usage_snapshot(&self) -> (s: UsageSnapshot)
        ensures
            s.discovery_pending == (self.refresh_pending || (!self.initial_refresh_done
                && !self.closed)),
            s.closed == self.closed,
            s.workers@.len() == self.ray_workers@.len(),
            forall|i: int|
                0 <= i < self.ray_workers@.len() ==> self.ray_workers@[i].is_usage(
                    #[trigger] s.workers@[i],
                ),
    {
        let mut workers: Vec<WorkerUsage> = Vec::new();
        let mut i: usize = 0;
        while i < self.ray_workers.len()
            invariant
                i <= self.ray_workers@.len(),
                workers@.len() == i,
                forall|k: int|
                    0 <= k < i ==> self.ray_workers@[k].is_usage(#[trigger] workers@[k]),
            decreases self.ray_workers@.len() - i,
        {
            workers.push(self.ray_workers[i].usage());
            i = i + 1;
        }
        UsageSnapshot { discovery_pending: self.discovery_pending(), closed: self.closed, workers }
    }

    /// What the scheduler sees of the workers.
    pub fn worker_snapshots(&self) -> (out: Vec<WorkerSnapshot>)
        ensures
            snapshots(out@) == RayWorkerManager::seen_workers(
                self.ray_workers@,
                self.ray_workers@.len() as int,
            ),
    {
        let mut out: Vec<WorkerSnapshot> = Vec::new();
        let mut i: usize = 0;
        while i < self.ray_workers.len()
            invariant
                i <= self.ray_workers@.len(),
                snapshots(out@) == RayWorkerManager::seen_workers(self.ray_workers@, i as int),
            decreases self.ray_workers@.len() - i,
        {
            if !self.ray_workers[i].known_dead {
                let ghost before = out@;
                let snapshot: WorkerSnapshot = self.ray_workers[i].snapshot();
                out.push(snapshot);
                assert(snapshots(out@) =~= snapshots(before).push(snapshot@));
            }
            i = i + 1;
        }
        out
    }

    /// Whether nothing of a query runs any more, as far as is known, and that is known of all
    /// workers.
    pub open spec fn quiescent(&self, query_idx: QueryIdx) -> bool {
        forall|i: int|
            0 <= i < self.ray_workers@.len() ==> (#[trigger] self.ray_workers@[i]).drain.unknown
                is None && !runs_query(self.ray_workers@[i].active@, query_idx)
    }

    /// Whether nothing of a query runs any more, and that is known of all workers.
    pub fn query_quiescent(&self, query_idx: QueryIdx) -> (b: bool)
        ensures
            b == self.quiescent(query_idx),
    {
        let mut i: usize = 0;
        while i < self.ray_workers.len()
            invariant
                i <= self.ray_workers@.len(),
                forall|k: int|
                    0 <= k < i ==> (#[trigger] self.ray_workers@[k]).drain.unknown is None
                        && !runs_query(self.ray_workers@[k].active@, query_idx),
            decreases self.ray_workers@.len() - i,
        {
            if self.ray_workers[i].drain.unknown.is_some() {
                return false;
            }
            let active: &Vec<ActiveTask> = &self.ray_workers[i].active;
            let mut t: usize = 0;
            while t < active.len()
                invariant
                    t <= active@.len(),
                    i < self.ray_workers@.len(),
                    active@ == self.ray_workers@[i as int].active@,
                    forall|k: int|
                        0 <= k < t ==> (#[trigger] active@[k]).context.query_idx != query_idx,
                decreases active@.len() - t,
            {
                if active[t].context.query_idx == query_idx {
                    assert(runs_query(self.ray_workers@[i as int].active@, query_idx));
                    return false;
                }
                t = t + 1;
            }
            i = i + 1;
        }
        true
    }

    /// Those of the first `n` workers that keep data of a query, by number.
    pub open spec fn keepers(workers: Seq<RaySwordfishWorker>, query_idx: QueryIdx, n: int) -> Seq<
        WorkerId,
    >
        decreases n,
    {
        if n <= 0 {
            Seq::empty()
        } else if workers[n - 1].drain.data_queries@.contains(query_idx) {
            RayWorkerManager::keepers(workers, query_idx, n - 1).push(workers[n - 1].worker_id)
        } else {
            RayWorkerManager::keepers(workers, query_idx, n - 1)
        }
    }

    /// Ends a query: it gets no more tasks. Names the workers that are to remove its data. As
    /// long as something of it may still run, nothing is removed.
    pub fn finish_query(&mut self, query_idx: QueryIdx) -> (r: Result<Vec<WorkerId>, DaftError>)
        requires
            old(self).wf(),
        ensures
            final(self).wf(),
            final(self).closed_queries@ == old(self).closed_queries@.insert(query_idx),
            *final(self) == (RayWorkerManager {
                closed_queries: final(self).closed_queries,
                closed: old(self).closed || old(self).managed,
                ..*old(self)
            }),
            !old(self).quiescent(query_idx) ==> (r matches Err(e) && e.is_value_error(
                "Query cleanup blocked by unconfirmed remote work"@,
            )),
            old(self).quiescent(query_idx) ==> (r matches Ok(ids) && ids@
                == RayWorkerManager::keepers(
                old(self).ray_workers@,
                query_idx,
                old(self).ray_workers@.len() as int,
            )),
    {
        self.closed_queries.insert(query_idx);
        if self.managed {
            self.closed = true;
        }
        if !self.query_quiescent(query_idx) {
            return Err(DaftError::value_error("Query cleanup blocked by unconfirmed remote work"));
        }
        let mut ids: Vec<WorkerId> = Vec::new();
        let mut i: usize = 0;
        while i < self.ray_workers.len()
            invariant
                i <= self.ray_workers@.len(),
                ids@ == RayWorkerManager::keepers(self.ray_workers@, query_idx, i as int),
            decreases self.ray_workers@.len() - i,
        {
            if self.ray_workers[i].drain.data_queries.contains(&query_idx) {
                ids.push(self.ray_workers[i].worker_id);
            }
            i = i + 1;
        }
        Ok(ids)
    }

    /// Takes note that all data of a query has been removed. Until then every hold stays.
    pub fn query_cleaned(&mut self, query_idx: QueryIdx)
        requires
            old(self).wf(),
        ensures
            final(self).wf(),
            *final(self) == (RayWorkerManager {
                ray_workers: final(self).ray_workers,
                ..*old(self)
            }),
            final(self).ray_workers@.len() == old(self).ray_workers@.len(),
            forall|i: int|
                0 <= i < old(self).ray_workers@.len() ==> {
                    let before = old(self).ray_workers@[i];
                    let after = #[trigger] final(self).ray_workers@[i];
                    &&& after.drain.data_queries@ == before.drain.data_queries@.remove(query_idx)
                    &&& after == RaySwordfishWorker {
                        drain: DrainBarrier {
                            data_queries: after.drain.data_queries,
                            ..before.drain
                        },
                        ..before
                    }
                },
    {
        let mut i: usize = 0;
        while i < self.ray_workers.len()
            invariant
                i <= self.ray_workers@.len(),
                *self == (RayWorkerManager { ray_workers: self.ray_workers, ..*old(self) }),
                self.ray_workers@.len() == old(self).ray_workers@.len(),
                forall|k: int|
                    i <= k < self.ray_workers@.len() ==> #[trigger] self.ray_workers@[k] == old(
                        self).ray_workers@[k],
                forall|k: int|
                    0 <= k < i ==> {
                        let before = old(self).ray_workers@[k];
                        let after = #[trigger] self.ray_workers@[k];
                        &&& after.drain.data_queries@ == before.drain.data_queries@.remove(
                            query_idx,
                        )
                        &&& after == RaySwordfishWorker {
                            drain: DrainBarrier {
                                data_queries: after.drain.data_queries,
                                ..before.drain
                            },
                            ..before
                        }
                    },
            decreases self.ray_workers@.len() - i,
        {
            assert(self.ray_workers@[i as int] == old(self).ray_workers@[i as int]);
            self.ray_workers[i].drain.data_queries.remove(&query_idx);
            i = i + 1;
        }
        proof {
            old(self).lemma_workers_keep_step(*self);
        }
    }

    /// The workers that are to forget the given shuffles: all that there are now, since a later
    /// search may retire those that know of them. Where no shuffle is given, nobody is asked.
    pub fn cleanup_shuffles(&self, shuffle_ids: &Vec<u64>) -> (ids: Vec<WorkerId>)
        ensures
            shuffle_ids@.len() == 0 ==> ids@.len() == 0,
            shuffle_ids@.len() > 0 ==> ids@ == self.ray_workers@.map_values(
                |w: RaySwordfishWorker| w.worker_id,
            ),
    {
        let mut ids: Vec<WorkerId> = Vec::new();
        if shuffle_ids.len() == 0 {
            return ids;
        }
        let mut i: usize = 0;
        while i < self.ray_workers.len()
            invariant
                i <= self.ray_workers@.len(),
                ids@ == self.ray_workers@.take(i as int).map_values(
                    |w: RaySwordfishWorker| w.worker_id,
                ),
            decreases self.ray_workers@.len() - i,
        {
            ids.push(self.ray_workers[i].worker_id);
            i = i + 1;
            assert(ids@ =~= self.ray_workers@.take(i as int).map_values(
                |w: RaySwordfishWorker| w.worker_id,
            ));
        }
        assert(self.ray_workers@.take(i as int) =~= self.ray_workers@);
        ids
    }

    /// Whether all workers may be shut down at once. Those of a session are retired instead.
    pub fn shutdown(&self) -> (r: Result<(), DaftError>)
        ensures
            self.managed ==> (r matches Err(e) && e.is_value_error(
                "Managed shutdown requires acknowledged node retirement"@,
            )),
            !self.managed ==> r is Ok,
    {
        if self.managed {
            return Err(
                DaftError::value_error("Managed shutdown requires acknowledged node retirement"),
            );
        }
        Ok(())
    }
}

/// What the removal of shuffles comes to. The workers forget them even where the files could not
/// all be removed, and where they do not, that is what is told.
pub fn shuffles_cleaned(dirs: Result<(), DaftError>, forgotten: Result<(), DaftError>) -> (r: Result<
    (),
    DaftError,
>)
    ensures
        r == (if forgotten is Err {
            forgotten
        } else {
            dirs
        }),
{
    match forgotten {
        Err(e) => Err(e),
        Ok(()) => dirs,
    }
}

/// Whether one of the tasks belongs to a query.
pub open spec fn runs_query(active: Seq<ActiveTask>, query_idx: QueryIdx) -> bool {
    exists|t: int| 0 <= t < active.len() && (#[trigger] active[t]).context.query_idx == query_idx
}

/// Only tasks that may still be sent are sent: none of a query that is over, none once the
/// execution is over, none to a worker that is gone, and none that the worker cannot take.
pub proof fn only_admissible_tasks_are_sent<P>(
    m: RayWorkerManager,
    worker_id: WorkerId,
    tasks: Seq<Submission<P>>,
    n: int,
)
    requires
        0 <= n <= tasks.len(),
    ensures
        forall|k: int|
            0 <= k < m.admitted(worker_id, tasks, n).len() ==> m.admits(
                worker_id,
                (#[trigger] m.admitted(worker_id, tasks, n)[k]).task,
            ),
        m.closed ==> m.admitted(worker_id, tasks, n).len() == 0,
        worker_of(m.ray_workers@, worker_id) is None ==> m.admitted(worker_id, tasks, n).len()
            == 0,
    decreases n,
{
    if n > 0 {
        only_admissible_tasks_are_sent(m, worker_id, tasks, n - 1);
        let before = m.admitted(worker_id, tasks, n - 1);
        let all = m.admitted(worker_id, tasks, n);
        assert forall|k: int| 0 <= k < all.len() implies m.admits(
            worker_id,
            (#[trigger] all[k]).task,
        ) by {
            if k < before.len() {
                assert(all[k] == before[k]);
            }
        }
    }
}

/// A worker that comes up on a node that is being retired, or once the execution is over, takes
/// up no work; one that comes up otherwise is what it was.
pub proof fn late_workers_do_not_reopen_a_node(m: RayWorkerManager, worker: RaySwordfishWorker)
    requires
        m.wf(),
        worker.drain.state == DrainState::Active,
    ensures
        m.closed ==> m.adopted(worker).drain.state == DrainState::Draining,
        !m.closed && has_drain(m.node_drains@, worker.node_id@) ==> m.adopted(worker).drain.state
            == m.barrier(worker.node_id@).state && m.adopted(worker).drain.epoch == m.barrier(
            worker.node_id@,
        ).epoch,
        !m.closed && !has_drain(m.node_drains@, worker.node_id@) ==> m.adopted(worker) == worker,
{
}

/// Times pass forwards only, and workers are looked for again after five seconds.
pub proof fn workers_are_looked_for_every_five_seconds(m: RayWorkerManager, since: u64, now: u64)
    ensures
        now >= since ==> elapsed(since, now) == now - since,
        now < since ==> elapsed(since, now) == 0,
        m.refresh_due(now) <==> m.last_refresh is None || now > m.last_refresh->0 + 5_000,
{
}

/// Workers are looked for where that is due and nobody does so; the first time is waited for.
pub proof fn nobody_looks_twice(initial_done: bool, due: bool, pending: bool)
    ensures
        refresh_action(initial_done, due, pending) == RefreshAction::Wait <==> pending || !due,
        refresh_action(initial_done, due, pending) == RefreshAction::Spawn <==> due && !pending
            && initial_done,
        refresh_action(initial_done, due, pending) == RefreshAction::RunSynchronously <==> due
            && !pending && !initial_done,
{
}

/// A setting that can be read is what counts, and the default otherwise.
pub proof fn settings_have_defaults(text: &str, default: u64)
    ensures
        number(None, default) == default,
        parsed(text@, u64::MAX as nat) is None ==> number(Some(text), default) == default,
        parsed(text@, u64::MAX as nat) is Some && parsed(text@, u64::MAX as nat)->0 <= u64::MAX
            ==> number(Some(text), default) == parsed(text@, u64::MAX as nat)->0,
{
}

/// The later of two releases of a node counts, and what is noted of other nodes stays.
pub proof fn later_releases_replace_earlier_ones(
    times: Seq<(Seq<char>, u64)>,
    node: Seq<char>,
    now: u64,
)
    ensures
        noted(times, node, now) == times.filter(|t: (Seq<char>, u64)| t.0 != node).push(
            (node, now),
        ),
{
    let n = times.len() as int;
    assert(times.take(n) =~= times);
    lemma_others_filter(times, node, n, |t: (Seq<char>, u64)| t.0 != node);
}

proof fn lemma_others_filter(
    times: Seq<(Seq<char>, u64)>,
    node: Seq<char>,
    n: int,
    other: spec_fn((Seq<char>, u64)) -> bool,
)
    requires
        0 <= n <= times.len(),
        forall|t: (Seq<char>, u64)| #[trigger] other(t) == (t.0 != node),
    ensures
        other_releases(times, node, n) == times.take(n).filter(other),
    decreases n,
{
    reveal(Seq::filter);
    if n > 0 {
        lemma_others_filter(times, node, n - 1, other);
        assert(times.take(n).drop_last() =~= times.take(n - 1));
        assert(times.take(n).last() == times[n - 1]);
    }
}

/// A release counts for as many seconds as are set, and no longer.
pub proof fn releases_count_for_a_while(
    releases: Seq<PendingRelease>,
    now: u64,
    ttl_secs: u64,
)
    ensures
        RayWorkerManager::pending_kept(releases, now, ttl_secs, releases.len() as int)
            == releases.filter(
            |r: PendingRelease|
                (if now > r.since {
                    now - r.since
                } else {
                    0
                }) < ttl_secs * 1000,
        ),
{
    let n = releases.len() as int;
    assert(releases.take(n) =~= releases);
    lemma_kept_filter(
        releases,
        now,
        ttl_secs,
        n,
        |r: PendingRelease|
            (if now > r.since {
                now - r.since
            } else {
                0
            }) < ttl_secs * 1000,
    );
}

proof fn lemma_kept_filter(
    releases: Seq<PendingRelease>,
    now: u64,
    ttl_secs: u64,
    n: int,
    counts: spec_fn(PendingRelease) -> bool,
)
    requires
        0 <= n <= releases.len(),
        forall|r: PendingRelease| #[trigger]
            counts(r) == ((if now > r.since {
                now - r.since
            } else {
                0
            }) < ttl_secs * 1000),
    ensures
        RayWorkerManager::pending_kept(releases, now, ttl_secs, n) == releases.take(n).filter(
            counts,
        ),
    decreases n,
{
    reveal(Seq::filter);
    if n > 0 {
        lemma_kept_filter(releases, now, ttl_secs, n - 1, counts);
        assert(releases.take(n).drop_last() =~= releases.take(n - 1));
        assert(releases.take(n).last() == releases[n - 1]);
    }
}

/// A node gets no new worker exactly where it has one that is not known to be dead, where its
/// worker was given back not long ago, or where it is on its way out.
pub proof fn nodes_with_a_worker_are_skipped(m: RayWorkerManager, node: Seq<char>)
    ensures
        m.skip_list().contains(node) <==> {
            ||| exists|i: int|
                0 <= i < m.ray_workers@.len() && !(#[trigger] m.ray_workers@[i]).known_dead
                    && m.ray_workers@[i].node_id@ == node
            ||| exists|r: int|
                0 <= r < m.pending_release@.len() && (#[trigger] m.pending_release@[r]).node_id@
                    == node
            ||| exists|d: int|
                0 <= d < m.node_drains@.len() && (#[trigger] m.node_drains@[d]).drain.state
                    != DrainState::Active && m.node_drains@[d].node_id@ == node
        },
{
    let live = RayWorkerManager::live_nodes(m.ray_workers@, m.ray_workers@.len() as int);
    let released = m.pending_release@.map_values(|r: PendingRelease| r.node_id@);
    let draining = RayWorkerManager::draining_nodes(m.node_drains@, m.node_drains@.len() as int);
    let all = m.skip_list();
    lemma_live_listed(m.ray_workers@, m.ray_workers@.len() as int, node);
    lemma_on_their_way_out(m.node_drains@, m.node_drains@.len() as int, node);
    assert(all =~= live + released + draining);
    if all.contains(node) {
        let k = choose|k: int| 0 <= k < all.len() && all[k] == node;
        if k < live.len() {
            assert(live[k] == node);
        } else if k < live.len() + released.len() {
            assert(m.pending_release@[k - live.len()].node_id@ == node);
        } else {
            assert(draining[k - live.len() - released.len()] == node);
        }
    }
    if live.contains(node) {
        let k = choose|k: int| 0 <= k < live.len() && live[k] == node;
        assert(all[k] == node);
    }
    if draining.contains(node) {
        let k = choose|k: int| 0 <= k < draining.len() && draining[k] == node;
        assert(all[live.len() + released.len() + k] == node);
    }
    if exists|r: int|
        0 <= r < m.pending_release@.len() && (#[trigger] m.pending_release@[r]).node_id@ == node {
        let r = choose|r: int|
            0 <= r < m.pending_release@.len() && (#[trigger] m.pending_release@[r]).node_id@
                == node;
        assert(all[live.len() + r] == node);
    }
}

proof fn lemma_live_listed(workers: Seq<RaySwordfishWorker>, n: int, node: Seq<char>)
    requires
        0 <= n <= workers.len(),
    ensures
        RayWorkerManager::live_nodes(workers, n).contains(node) <==> exists|i: int|
            0 <= i < n && !(#[trigger] workers[i]).known_dead && workers[i].node_id@ == node,
    decreases n,
{
    if n > 0 {
        lemma_live_listed(workers, n - 1, node);
        let before = RayWorkerManager::live_nodes(workers, n - 1);
        let all = RayWorkerManager::live_nodes(workers, n);
        if !workers[n - 1].known_dead {
            assert(all[before.len() as int] == workers[n - 1].node_id@);
            if before.contains(node) {
                let k = choose|k: int| 0 <= k < before.len() && before[k] == node;
                assert(all[k] == node);
            }
            if all.contains(node) && workers[n - 1].node_id@ != node {
                let k = choose|k: int| 0 <= k < all.len() && all[k] == node;
                assert(before[k] == node);
            }
        }
    }
}

proof fn lemma_on_their_way_out(drains: Seq<NodeDrain>, n: int, node: Seq<char>)
    requires
        0 <= n <= drains.len(),
    ensures
        RayWorkerManager::draining_nodes(drains, n).contains(node) <==> exists|d: int|
            0 <= d < n && (#[trigger] drains[d]).drain.state != DrainState::Active
                && drains[d].node_id@ == node,
    decreases n,
{
    if n > 0 {
        lemma_on_their_way_out(drains, n - 1, node);
        let before = RayWorkerManager::draining_nodes(drains, n - 1);
        let all = RayWorkerManager::draining_nodes(drains, n);
        if drains[n - 1].drain.state != DrainState::Active {
            assert(all[before.len() as int] == drains[n - 1].node_id@);
            if before.contains(node) {
                let k = choose|k: int| 0 <= k < before.len() && before[k] == node;
                assert(all[k] == node);
            }
            if all.contains(node) && drains[n - 1].node_id@ != node {
                let k = choose|k: int| 0 <= k < all.len() && all[k] == node;
                assert(before[k] == node);
            }
        }
    }
}

/// A task is sent exactly where the execution and its query go on, the worker is there, and the
/// worker takes it.
pub proof fn admissible_tasks_are_sent<P>(
    m: RayWorkerManager,
    worker_id: WorkerId,
    tasks: Seq<Submission<P>>,
    i: int,
)
    requires
        distinct_workers(m.ray_workers@),
        0 <= i < m.ray_workers@.len(),
        m.ray_workers@[i].worker_id == worker_id,
    ensures
        m.admitted(worker_id, tasks, tasks.len() as int) == tasks.filter(
            |s: Submission<P>|
                !m.closed && !m.closed_queries@.contains(s.task.context.query_idx)
                    && m.ray_workers@[i].seen().fits(s.task),
        ),
{
    let n = tasks.len() as int;
    assert(tasks.take(n) =~= tasks);
    lemma_worker_of(m.ray_workers@, worker_id);
    lemma_admitted_filter(
        m,
        worker_id,
        tasks,
        n,
        i,
        |s: Submission<P>|
            !m.closed && !m.closed_queries@.contains(s.task.context.query_idx)
                && m.ray_workers@[i].seen().fits(s.task),
    );
}

proof fn lemma_admitted_filter<P>(
    m: RayWorkerManager,
    worker_id: WorkerId,
    tasks: Seq<Submission<P>>,
    n: int,
    i: int,
    goes: spec_fn(Submission<P>) -> bool,
)
    requires
        0 <= n <= tasks.len(),
        worker_of(m.ray_workers@, worker_id) == Some(m.ray_workers@[i]),
        forall|s: Submission<P>| #[trigger]
            goes(s) == (!m.closed && !m.closed_queries@.contains(s.task.context.query_idx)
                && m.ray_workers@[i].seen().fits(s.task)),
    ensures
        m.admitted(worker_id, tasks, n) == tasks.take(n).filter(goes),
    decreases n,
{
    reveal(Seq::filter);
    if n > 0 {
        lemma_admitted_filter(m, worker_id, tasks, n - 1, i, goes);
        assert(tasks.take(n).drop_last() =~= tasks.take(n - 1));
        assert(tasks.take(n).last() == tasks[n - 1]);
    }
}

/// The workers that go with a node are all of its workers that are neither dead nor retired.
pub proof fn whole_nodes_go(workers: Seq<RaySwordfishWorker>, node: Seq<char>)
    ensures
        RayWorkerManager::going(workers, node, workers.len() as int) == workers.filter(
            |w: RaySwordfishWorker|
                w.node_id@ == node && !w.known_dead && w.drain.state != DrainState::Retired,
        ).map_values(|w: RaySwordfishWorker| w.worker_id),
{
    let n = workers.len() as int;
    assert(workers.take(n) =~= workers);
    lemma_going_filter(
        workers,
        node,
        n,
        |w: RaySwordfishWorker|
            w.node_id@ == node && !w.known_dead && w.drain.state != DrainState::Retired,
        |w: RaySwordfishWorker| w.worker_id,
    );
}

proof fn lemma_going_filter(
    workers: Seq<RaySwordfishWorker>,
    node: Seq<char>,
    n: int,
    goes: spec_fn(RaySwordfishWorker) -> bool,
    id_of: spec_fn(RaySwordfishWorker) -> WorkerId,
)
    requires
        0 <= n <= workers.len(),
        forall|w: RaySwordfishWorker| #[trigger]
            goes(w) == (w.node_id@ == node && !w.known_dead && w.drain.state
                != DrainState::Retired),
        forall|w: RaySwordfishWorker| #[trigger] id_of(w) == w.worker_id,
    ensures
        RayWorkerManager::going(workers, node, n) == workers.take(n).filter(goes).map_values(id_of),
    decreases n,
{
    reveal(Seq::filter);
    let upto = workers.take(n);
    if n > 0 {
        lemma_going_filter(workers, node, n - 1, goes, id_of);
        assert(upto.drop_last() =~= workers.take(n - 1));
        assert(upto.last() == workers[n - 1]);
        if goes(workers[n - 1]) {
            assert(upto.filter(goes).map_values(id_of) =~= workers.take(n - 1).filter(
                goes,
            ).map_values(id_of).push(id_of(workers[n - 1])));
        }
    } else {
        assert(upto.filter(goes).map_values(id_of) =~= Seq::empty());
    }
}

/// The data of a query is removed by all workers that keep some.
pub proof fn all_keepers_remove_data(workers: Seq<RaySwordfishWorker>, query_idx: QueryIdx)
    ensures
        RayWorkerManager::keepers(workers, query_idx, workers.len() as int) == workers.filter(
            |w: RaySwordfishWorker| w.drain.data_queries@.contains(query_idx),
        ).map_values(|w: RaySwordfishWorker| w.worker_id),
{
    let n = workers.len() as int;
    assert(workers.take(n) =~= workers);
    lemma_keepers_filter(
        workers,
        query_idx,
        n,
        |w: RaySwordfishWorker| w.drain.data_queries@.contains(query_idx),
        |w: RaySwordfishWorker| w.worker_id,
    );
}

proof fn lemma_keepers_filter(
    workers: Seq<RaySwordfishWorker>,
    query_idx: QueryIdx,
    n: int,
    keeps: spec_fn(RaySwordfishWorker) -> bool,
    id_of: spec_fn(RaySwordfishWorker) -> WorkerId,
)
    requires
        0 <= n <= workers.len(),
        forall|w: RaySwordfishWorker| #[trigger]
            keeps(w) == w.drain.data_queries@.contains(query_idx),
        forall|w: RaySwordfishWorker| #[trigger] id_of(w) == w.worker_id,
    ensures
        RayWorkerManager::keepers(workers, query_idx, n) == workers.take(n).filter(
            keeps,
        ).map_values(id_of),
    decreases n,
{
    reveal(Seq::filter);
    let upto = workers.take(n);
    if n > 0 {
        lemma_keepers_filter(workers, query_idx, n - 1, keeps, id_of);
        assert(upto.drop_last() =~= workers.take(n - 1));
        assert(upto.last() == workers[n - 1]);
        if keeps(workers[n - 1]) {
            assert(upto.filter(keeps).map_values(id_of) =~= workers.take(n - 1).filter(
                keeps,
            ).map_values(id_of).push(id_of(workers[n - 1])));
        }
    } else {
        assert(upto.filter(keeps).map_values(id_of) =~= Seq::empty());
    }
}

/// The scheduler sees every worker that is not known to be dead.
pub proof fn live_workers_are_seen(workers: Seq<RaySwordfishWorker>)
    ensures
        RayWorkerManager::seen_workers(workers, workers.len() as int) == workers.filter(
            |w: RaySwordfishWorker| !w.known_dead,
        ).map_values(|w: RaySwordfishWorker| w.seen()),
{
    let n = workers.len() as int;
    assert(workers.take(n) =~= workers);
    lemma_seen_filter(
        workers,
        n,
        |w: RaySwordfishWorker| !w.known_dead,
        |w: RaySwordfishWorker| w.seen(),
    );
}

proof fn lemma_seen_filter(
    workers: Seq<RaySwordfishWorker>,
    n: int,
    lives: spec_fn(RaySwordfishWorker) -> bool,
    look: spec_fn(RaySwordfishWorker) -> Snapshot,
)
    requires
        0 <= n <= workers.len(),
        forall|w: RaySwordfishWorker| #[trigger] lives(w) == !w.known_dead,
        forall|w: RaySwordfishWorker| #[trigger] look(w) == w.seen(),
    ensures
        RayWorkerManager::seen_workers(workers, n) == workers.take(n).filter(lives).map_values(
            look,
        ),
    decreases n,
{
    reveal(Seq::filter);
    let upto = workers.take(n);
    if n > 0 {
        lemma_seen_filter(workers, n - 1, lives, look);
        assert(upto.drop_last() =~= workers.take(n - 1));
        assert(upto.last() == workers[n - 1]);
        if lives(workers[n - 1]) {
            assert(upto.filter(lives).map_values(look) =~= workers.take(n - 1).filter(
                lives,
            ).map_values(look).push(look(workers[n - 1])));
        }
    } else {
        assert(upto.filter(lives).map_values(look) =~= Seq::empty());
    }
}

/// Nothing of a query runs any more exactly where no worker has a task of it and none is in
/// doubt.
pub proof fn doubt_keeps_a_query_running(m: RayWorkerManager, query_idx: QueryIdx)
    ensures
        m.quiescent(query_idx) <==> {
            &&& forall|i: int|
                0 <= i < m.ray_workers@.len() ==> (#[trigger] m.ray_workers@[i]).drain.unknown
                    is None
            &&& forall|i: int, t: int|
                0 <= i < m.ray_workers@.len() && 0 <= t < m.ray_workers@[i].active@.len() ==> (
                #[trigger] m.ray_workers@[i].active@[t]).context.query_idx != query_idx
        },
{
    if !m.quiescent(query_idx) {
        let i = choose|i: int|
            0 <= i < m.ray_workers@.len() && !((
            #[trigger] m.ray_workers@[i]).drain.unknown is None && !runs_query(
                m.ray_workers@[i].active@,
                query_idx,
            ));
        if runs_query(m.ray_workers@[i].active@, query_idx) {
            let t = choose|t: int|
                0 <= t < m.ray_workers@[i].active@.len() && (
                #[trigger] m.ray_workers@[i].active@[t]).context.query_idx == query_idx;
            assert(m.ray_workers@[i].active@[t].context.query_idx == query_idx);
        }
    } else {
        assert forall|i: int, t: int|
            0 <= i < m.ray_workers@.len() && 0 <= t < m.ray_workers@[i].active@.len() implies (
        #[trigger] m.ray_workers@[i].active@[t]).context.query_idx != query_idx by {
            assert(!runs_query(m.ray_workers@[i].active@, query_idx));
        }
    }
}

/// A node can be prepared for retirement in any positive epoch at first, and then as its barrier
/// allows. Its retirement can be called off only as its barrier allows.
pub proof fn barriers_decide_for_their_node(m: RayWorkerManager, d: int, node: Seq<char>, epoch: u64)
    requires
        m.wf(),
    ensures
        0 <= d < m.node_drains@.len() && m.node_drains@[d].node_id@ == node ==> m.prepare_problem(
            node,
            epoch,
        ) == m.node_drains@[d].drain.prepare_error(epoch) && m.cancel_problem(node, epoch)
            == m.node_drains@[d].drain.cancel_error(epoch),
        (forall|e: int|
            0 <= e < m.node_drains@.len() ==> (#[trigger] m.node_drains@[e]).node_id@ != node)
            ==> {
            &&& epoch > 0 ==> m.prepare_problem(node, epoch) is None
            &&& epoch == 0 ==> m.prepare_problem(node, epoch) == Some("Stale drain epoch"@)
            &&& m.cancel_problem(node, epoch) == Some("Unknown drain node"@)
        },
{
    if 0 <= d < m.node_drains@.len() && m.node_drains@[d].node_id@ == node {
        m.lemma_barrier(d);
    }
}

/// A node goes exactly where workers are not being looked for, its barrier is in the given epoch,
/// and its retirement is committed already, or it drains and each of its workers is dead or
/// ready to go.
pub proof fn only_ready_nodes_go(m: RayWorkerManager, d: int, epoch: u64)
    requires
        m.wf(),
        0 <= d < m.node_drains@.len(),
    ensures
        ({
            let node = m.node_drains@[d].node_id@;
            let barrier = m.node_drains@[d].drain;
            let done = barrier.state == DrainState::Retiring || barrier.state
                == DrainState::Retired;
            let held = exists|i: int|
                0 <= i < m.ray_workers@.len() && (#[trigger] m.ray_workers@[i]).node_id@ == node
                    && !m.ray_workers@[i].known_dead && m.ray_workers@[i].status()
                    != DrainState::ReadyToRetire;
            let current = epoch > 0 && epoch == barrier.epoch;
            let problem = m.retire_problem(node, epoch);
            &&& problem is None <==> !m.refresh_pending && current && (done || (barrier.state
                == DrainState::Draining && !held))
            &&& m.refresh_pending ==> problem == Some("Worker discovery is still in progress"@)
            &&& !m.refresh_pending && !current ==> problem == Some("Stale drain epoch"@)
            &&& !m.refresh_pending && current && !done && barrier.state != DrainState::Draining
                ==> problem == Some("Node is not draining"@)
            &&& !m.refresh_pending && current && barrier.state == DrainState::Draining && held
                ==> problem == Some("Node still has dependencies or unknown state"@)
        }),
{
    m.lemma_barrier(d);
    let node = m.node_drains@[d].node_id@;
    if m.node_is_held(node) {
        let i = choose|i: int|
            0 <= i < m.ray_workers@.len() && {
                let w = #[trigger] m.ray_workers@[i];
                w.node_id@ == node && !w.known_dead && w.status() != DrainState::ReadyToRetire
            };
        assert(m.ray_workers@[i].node_id@ == node);
    }
}

/// A node without a barrier does not go.
pub proof fn unknown_nodes_do_not_go(m: RayWorkerManager, node: Seq<char>, epoch: u64)
    requires
        forall|d: int|
            0 <= d < m.node_drains@.len() ==> (#[trigger] m.node_drains@[d]).node_id@ != node,
    ensures
        m.retire_problem(node, epoch) is Some,
        !m.refresh_pending ==> m.retire_problem(node, epoch) == Some("Unknown drain node"@),
{
}

/// A node moves as a whole: each of its workers and its barrier get the epoch and the state, and
/// nothing else changes, on it or on other nodes.
pub proof fn nodes_move_as_a_whole(
    before: RayWorkerManager,
    after: RayWorkerManager,
    node: Seq<char>,
    epoch: u64,
    state: DrainState,
    i: int,
    d: int,
)
    requires
        RayWorkerManager::node_moved(before, after, node, epoch, state),
        0 <= i < before.ray_workers@.len(),
        0 <= d < before.node_drains@.len(),
    ensures
        ({
            let w = before.ray_workers@[i];
            let v = after.ray_workers@[i];
            let b = before.node_drains@[d];
            let c = after.node_drains@[d];
            &&& w.node_id@ != node ==> v == w
            &&& w.node_id@ == node ==> v.drain.epoch == epoch && v.drain.state == state
            &&& v == RaySwordfishWorker {
                drain: DrainBarrier {
                    epoch: v.drain.epoch,
                    state: v.drain.state,
                    ..w.drain
                },
                ..w
            }
            &&& b.node_id@ != node ==> c == b
            &&& b.node_id@ == node ==> c.drain.epoch == epoch && c.drain.state == state
            &&& c.node_id@ == b.node_id@
            &&& after.ray_workers@.len() == before.ray_workers@.len()
            &&& after.closed == before.closed
            &&& after.closed_queries == before.closed_queries
            &&& after.pending_release == before.pending_release
            &&& after.managed == before.managed
            &&& after.refresh_pending == before.refresh_pending
            &&& b.node_id@ == node ==> after.node_drains@.len() == before.node_drains@.len()
        }),
{
    if before.node_drains@[d].node_id@ == node {
        assert(has_drain(before.node_drains@, node));
    }
}

/// A new barrier is put up for a node that had none.
pub proof fn new_barriers_are_put_up(
    before: RayWorkerManager,
    after: RayWorkerManager,
    node: Seq<char>,
    epoch: u64,
    state: DrainState,
)
    requires
        RayWorkerManager::node_moved(before, after, node, epoch, state),
        forall|d: int|
            0 <= d < before.node_drains@.len() ==> (#[trigger] before.node_drains@[d]).node_id@
                != node,
    ensures
        after.node_drains@.len() == before.node_drains@.len() + 1,
        after.node_drains@.last().node_id@ == node,
        after.node_drains@.last().drain.epoch == epoch,
        after.node_drains@.last().drain.state == state,
        after.node_drains@.last().drain.data_queries@ == Set::<QueryIdx>::empty(),
        after.node_drains@.last().drain.unknown is None,
{
}

/// What is refused changes nothing.
pub proof fn refused_requests_change_nothing(before: RayWorkerManager, after: RayWorkerManager)
    requires
        RayWorkerManager::unchanged(before, after),
    ensures
        after.ray_workers@ == before.ray_workers@,
        after.node_drains@ == before.node_drains@,
        after.closed == before.closed,
        after.closed_queries == before.closed_queries,
        after.last_refresh == before.last_refresh,
        after.initial_refresh_done == before.initial_refresh_done,
        after.refresh_pending == before.refresh_pending,
        after.max_resources_requested == before.max_resources_requested,
        after.pending_release == before.pending_release,
        after.last_autoscale_request_time == before.last_autoscale_request_time,
        after.autoscale_interval_secs == before.autoscale_interval_secs,
        after.managed == before.managed,
{
}

/// A worker that comes up takes the epoch and the state of the barrier of its node, but drains
/// where the execution is over; all else is as it came.
pub proof fn new_workers_take_the_stage_of_their_node(
    m: RayWorkerManager,
    worker: RaySwordfishWorker,
    d: int,
)
    requires
        m.wf(),
        0 <= d < m.node_drains@.len(),
        m.node_drains@[d].node_id@ == worker.node_id@,
    ensures
        ({
            let w = m.adopted(worker);
            &&& w.drain.epoch == m.node_drains@[d].drain.epoch
            &&& w.drain.state == (if m.closed {
                DrainState::Draining
            } else {
                m.node_drains@[d].drain.state
            })
            &&& w.drain.data_queries == worker.drain.data_queries
            &&& w.drain.unknown == worker.drain.unknown
            &&& w == RaySwordfishWorker { drain: w.drain, ..worker }
        }),
{
    m.lemma_barrier(d);
}

} // verus!
