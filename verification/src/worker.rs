//! Workers, and what keeps them from being retired.
use std::collections::HashSet;

use vstd::prelude::*;

use crate::drain::{DrainBarrier, DrainState, QueryIdx};
use crate::scheduler::{
    add_active, sum_cpus, sum_gpus, with_task, ActiveTask, Snapshot, WorkerSnapshot,
};
use crate::task::{TaskContext, TaskInfo, WorkerId};

verus! {

broadcast use vstd::std_specs::hash::group_hash_axioms;

/// What a worker's actor is doing.
#[derive(Clone, Copy, Debug, PartialEq, Eq, Structural)]
pub enum ActorState {
    Ready,
    Busy,
    Idle,
    Releasing,
    Released,
}

/// One worker process. Processors and accelerators are in thousandths, times in milliseconds.
pub struct RaySwordfishWorker {
    pub worker_id: WorkerId,
    /// The name of this process; a later process on the same node has another one.
    pub instance_id: String,
    pub node_id: String,
    pub drain: DrainBarrier,
    pub known_dead: bool,
    pub num_cpus: u32,
    pub num_gpus: u32,
    pub total_memory_bytes: u64,
    pub active: Vec<ActiveTask>,
    pub ip_address: String,
    pub last_task_finished_at: u64,
    pub state: ActorState,
}

/// Tasks without one of them.
pub open spec fn without_task(active: Seq<ActiveTask>, context: TaskContext) -> Seq<ActiveTask>
    decreases active.len(),
{
    if active.len() == 0 {
        active
    } else if active.last().context == context {
        without_task(active.drop_last(), context)
    } else {
        without_task(active.drop_last(), context).push(active.last())
    }
}

/// Tasks without those of one query.
pub open spec fn without_query(active: Seq<ActiveTask>, query_idx: QueryIdx) -> Seq<ActiveTask>
    decreases active.len(),
{
    if active.len() == 0 {
        active
    } else if active.last().context.query_idx == query_idx {
        without_query(active.drop_last(), query_idx)
    } else {
        without_query(active.drop_last(), query_idx).push(active.last())
    }
}

/// What a worker reports of itself.
#[derive(Debug)]
pub struct WorkerUsage {
    pub worker_id: WorkerId,
    pub instance_id: String,
    pub node_id: String,
    pub state: DrainState,
    pub drain_epoch: u64,
    pub active_tasks: usize,
    /// In thousandths.
    pub logical_cpus: u128,
    pub unknown: Option<String>,
    pub failure_confirmed: bool,
    pub can_retire: bool,
}

impl RaySwordfishWorker {
    /// Whether nothing keeps the worker.
    pub open spec fn free(&self) -> bool {
        self.active@.len() == 0 && self.drain.data_queries@.is_empty() && self.drain.unknown is None
    }

    /// How far the worker is on its way out.
    pub open spec fn status(&self) -> DrainState {
        if self.known_dead {
            DrainState::Failed
        } else if self.drain.unknown is Some {
            DrainState::Unknown
        } else if self.drain.state == DrainState::Draining && self.free() {
            DrainState::ReadyToRetire
        } else {
            self.drain.state
        }
    }

    /// What the scheduler sees of the worker.
    pub open spec fn seen(&self) -> Snapshot {
        Snapshot {
            worker_id: self.worker_id,
            total_num_cpus: self.num_cpus,
            total_num_gpus: self.num_gpus,
            active: self.active@,
            drain_state: self.status(),
        }
    }

    /// How long the worker has had nothing to do, in milliseconds.
    pub open spec fn idle_millis(&self, now: u64) -> u64 {
        if self.active@.len() == 0 && now > self.last_task_finished_at {
            (now - self.last_task_finished_at) as u64
        } else {
            0
        }
    }

    /// A worker that has just come up. Without a node of its own it counts as its own node.
    pub fn new(
        worker_id: WorkerId,
        instance_id: String,
        num_cpus: u32,
        num_gpus: u32,
        total_memory_bytes: u64,
        ip_address: String,
        node_id: Option<String>,
        now: u64,
    ) -> (w: RaySwordfishWorker)
        ensures
            w.worker_id == worker_id,
            w.instance_id == instance_id,
            w.node_id@ == (match node_id {
                Some(id) => id@,
                None => instance_id@,
            }),
            w.drain.epoch == 0,
            w.drain.state == DrainState::Active,
            w.drain.data_queries@ == Set::<QueryIdx>::empty(),
            w.drain.unknown is None,
            !w.known_dead,
            w.num_cpus == num_cpus,
            w.num_gpus == num_gpus,
            w.total_memory_bytes == total_memory_bytes,
            w.active@.len() == 0,
            w.ip_address == ip_address,
            w.last_task_finished_at == now,
            w.state == ActorState::Ready,
    {
        let node_id: String = match node_id {
            Some(id) => id,
            None => instance_id.clone(),
        };
        RaySwordfishWorker {
            worker_id,
            instance_id,
            node_id,
            drain: DrainBarrier::default(),
            known_dead: false,
            num_cpus,
            num_gpus,
            total_memory_bytes,
            active: Vec::new(),
            ip_address,
            last_task_finished_at: now,
            state: ActorState::Ready,
        }
    }

    pub fn node_id(&self) -> (id: &str)
        ensures
            id@ == self.node_id@,
    {
        self.node_id.as_str()
    }

    pub fn id(&self) -> (id: WorkerId)
        ensures
            id == self.worker_id,
    {
        self.worker_id
    }

    pub fn total_num_cpus(&self) -> (n: u32)
        ensures
            n == self.num_cpus,
    {
        self.num_cpus
    }

    pub fn total_num_gpus(&self) -> (n: u32)
        ensures
            n == self.num_gpus,
    {
        self.num_gpus
    }

    pub fn total_memory_bytes(&self) -> (n: u64)
        ensures
            n == self.total_memory_bytes,
    {
        self.total_memory_bytes
    }

    pub fn set_state(&mut self, state: ActorState)
        ensures
            *final(self) == (RaySwordfishWorker { state, ..*old(self) }),
    {
        self.state = state;
    }

    /// Takes note that the process is gone. With it went its tasks, its data and all doubt.
    pub fn mark_died(&mut self)
        ensures
            final(self).active@.len() == 0,
            final(self).drain.data_queries@ == Set::<QueryIdx>::empty(),
            *final(self) == (RaySwordfishWorker {
                known_dead: true,
                active: final(self).active,
                drain: DrainBarrier {
                    data_queries: final(self).drain.data_queries,
                    unknown: None,
                    ..old(self).drain
                },
                ..*old(self)
            }),
    {
        self.known_dead = true;
        self.active = Vec::new();
        self.drain.data_queries = HashSet::new();
        self.drain.unknown = None;
    }

    /// Whether nothing keeps the worker.
    pub fn can_retire(&self) -> (b: bool)
        ensures
            b == self.free(),
    {
        self.drain.can_retire(self.active.len())
    }

    /// How far the worker is on its way out.
    pub fn drain_state(&self) -> (s: DrainState)
        ensures
            s == self.status(),
    {
        if self.known_dead {
            DrainState::Failed
        } else {
            self.drain.status(self.active.len())
        }
    }

    /// What the scheduler sees of the worker.
    pub fn snapshot(&self) -> (w: WorkerSnapshot)
        ensures
            w@ == self.seen(),
    {
        let mut active: Vec<ActiveTask> = Vec::new();
        let mut i: usize = 0;
        while i < self.active.len()
            invariant
                i <= self.active@.len(),
                active@ == self.active@.take(i as int),
            decreases self.active@.len() - i,
        {
            active.push(self.active[i]);
            assert(active@ =~= self.active@.take(i + 1));
            i = i + 1;
        }
        assert(active@ =~= self.active@);
        WorkerSnapshot {
            worker_id: self.worker_id,
            total_num_cpus: self.num_cpus,
            total_num_gpus: self.num_gpus,
            active,
            drain_state: self.drain_state(),
        }
    }

    /// Whether the worker can take the task now.
    pub fn accepts_task(&self, task: &TaskInfo) -> (b: bool)
        ensures
            b == self.seen().fits(*task),
    {
        self.snapshot().can_schedule_task(task)
    }

    /// Whether `u` says what the worker is doing.
    pub open spec fn is_usage(&self, u: WorkerUsage) -> bool {
        &&& u.worker_id == self.worker_id
        &&& u.instance_id@ == self.instance_id@
        &&& u.node_id@ == self.node_id@
        &&& u.state == self.status()
        &&& u.drain_epoch == self.drain.epoch
        &&& u.active_tasks == self.active@.len()
        &&& u.logical_cpus == sum_cpus(self.active@)
        &&& match self.drain.unknown {
            Some(reason) => u.unknown is Some && u.unknown->0@ == reason@,
            None => u.unknown is None,
        }
        &&& u.failure_confirmed == self.known_dead
        &&& u.can_retire == self.free()
    }

    /// What the worker reports of itself.
    pub fn usage(&self) -> (u: WorkerUsage)
        ensures
            self.is_usage(u),
    {
        let unknown: Option<String> = match &self.drain.unknown {
            Some(reason) => Some(reason.clone()),
            None => None,
        };
        WorkerUsage {
            worker_id: self.worker_id,
            instance_id: self.instance_id.clone(),
            node_id: self.node_id.clone(),
            state: self.drain_state(),
            drain_epoch: self.drain.epoch,
            active_tasks: self.active.len(),
            logical_cpus: self.active_num_cpus(),
            unknown,
            failure_confirmed: self.known_dead,
            can_retire: self.can_retire(),
        }
    }

    /// The processors that tasks take, in thousandths.
    pub fn active_num_cpus(&self) -> (n: u128)
        ensures
            n == sum_cpus(self.active@),
    {
        self.snapshot().active_num_cpus()
    }

    /// The accelerators that tasks take, in thousandths.
    pub fn active_num_gpus(&self) -> (n: u128)
        ensures
            n == sum_gpus(self.active@),
    {
        self.snapshot().active_num_gpus()
    }

    /// Whether no task runs here.
    pub fn is_idle(&self) -> (b: bool)
        ensures
            b == (self.active@.len() == 0),
    {
        self.active.len() == 0
    }

    /// How long the worker has had nothing to do, in milliseconds.
    pub fn idle_duration(&self, now: u64) -> (millis: u64)
        ensures
            millis == self.idle_millis(now),
    {
        if self.is_idle() {
            now.saturating_sub(self.last_task_finished_at)
        } else {
            0
        }
    }

    /// Takes note that a task is over.
    pub fn mark_task_finished(&mut self, context: TaskContext, now: u64)
        ensures
            final(self).active@ == without_task(old(self).active@, context),
            *final(self) == (RaySwordfishWorker {
                active: final(self).active,
                last_task_finished_at: now,
                state: if final(self).active@.len() == 0 {
                    ActorState::Idle
                } else {
                    old(self).state
                },
                ..*old(self)
            }),
    {
        let mut kept: Vec<ActiveTask> = Vec::new();
        let mut i: usize = 0;
        assert(self.active@.take(0) =~= Seq::<ActiveTask>::empty());
        while i < self.active.len()
            invariant
                i <= self.active@.len(),
                *self == *old(self),
                kept@ == without_task(self.active@.take(i as int), context),
            decreases self.active@.len() - i,
        {
            let task: ActiveTask = self.active[i];
            assert(self.active@.take(i + 1).drop_last() =~= self.active@.take(i as int));
            if task.context != context {
                kept.push(task);
            }
            i = i + 1;
        }
        assert(self.active@.take(i as int) =~= self.active@);
        self.active = kept;
        self.last_task_finished_at = now;
        if self.active.len() == 0 {
            self.set_state(ActorState::Idle);
        }
    }

    /// Forgets the tasks of a query.
    pub fn forget_query_tasks(&mut self, query_idx: QueryIdx)
        ensures
            final(self).active@ == without_query(old(self).active@, query_idx),
            *final(self) == (RaySwordfishWorker {
                active: final(self).active,
                state: if final(self).active@.len() == 0 {
                    ActorState::Idle
                } else {
                    old(self).state
                },
                ..*old(self)
            }),
    {
        let mut kept: Vec<ActiveTask> = Vec::new();
        let mut i: usize = 0;
        assert(self.active@.take(0) =~= Seq::<ActiveTask>::empty());
        while i < self.active.len()
            invariant
                i <= self.active@.len(),
                *self == *old(self),
                kept@ == without_query(self.active@.take(i as int), query_idx),
            decreases self.active@.len() - i,
        {
            let task: ActiveTask = self.active[i];
            assert(self.active@.take(i + 1).drop_last() =~= self.active@.take(i as int));
            if task.context.query_idx != query_idx {
                kept.push(task);
            }
            i = i + 1;
        }
        assert(self.active@.take(i as int) =~= self.active@);
        self.active = kept;
        if self.active.len() == 0 {
            self.set_state(ActorState::Idle);
        }
    }

    /// Records a task before it is sent. The call can fail after the other side has taken the
    /// task, so from now on the task keeps the worker, and so does the data that it leaves.
    pub fn begin_submit(&mut self, task: &TaskInfo, retains_local_data: bool)
        ensures
            final(self).active@ == with_task(
                old(self).active@,
                ActiveTask {
                    context: task.context,
                    num_cpus: task.request.num_cpus,
                    num_gpus: task.request.num_gpus,
                },
            ),
            final(self).drain.data_queries@ == (if retains_local_data {
                old(self).drain.data_queries@.insert(task.context.query_idx)
            } else {
                old(self).drain.data_queries@
            }),
            *final(self) == (RaySwordfishWorker {
                active: final(self).active,
                drain: DrainBarrier {
                    data_queries: final(self).drain.data_queries,
                    ..old(self).drain
                },
                ..*old(self)
            }),
    {
        if retains_local_data {
            self.drain.data_queries.insert(task.context.query_idx);
        }
        add_active(
            &mut self.active,
            ActiveTask {
                context: task.context,
                num_cpus: task.request.num_cpus,
                num_gpus: task.request.num_gpus,
            },
        );
    }

    /// Takes note that a recorded task has been sent.
    pub fn submitted(&mut self)
        ensures
            *final(self) == (RaySwordfishWorker {
                state: if old(self).active@.len() == 1 {
                    ActorState::Busy
                } else {
                    old(self).state
                },
                ..*old(self)
            }),
    {
        if self.active.len() == 1 {
            self.set_state(ActorState::Busy);
        }
    }

    /// Whether the process is to be shut down; where something keeps the worker, it is not. Until
    /// it is down the worker is being released, and then it is set to be released.
    pub fn release(&mut self) -> (b: bool)
        ensures
            b == old(self).free(),
            *final(self) == (RaySwordfishWorker {
                state: if b {
                    ActorState::Releasing
                } else {
                    old(self).state
                },
                ..*old(self)
            }),
    {
        if !self.can_retire() {
            return false;
        }
        self.set_state(ActorState::Releasing);
        true
    }
}

proof fn lemma_with_task_len(active: Seq<ActiveTask>, task: ActiveTask)
    ensures
        with_task(active, task).len() >= 1,
{
}

/// From the moment a task is recorded, it keeps the worker from being retired, whether or not
/// sending it succeeds.
pub proof fn recorded_tasks_prevent_retirement(
    before: RaySwordfishWorker,
    after: RaySwordfishWorker,
    task: ActiveTask,
)
    requires
        after.active@ == with_task(before.active@, task),
    ensures
        !after.free(),
        after.status() != DrainState::ReadyToRetire || after.drain.state
            == DrainState::ReadyToRetire,
{
    lemma_with_task_len(before.active@, task);
}

/// A worker that is on its way out takes no task, but for one that can run nowhere else while
/// the worker drains; and a worker that is ready, retiring, retired, in doubt or dead takes
/// none at all.
pub proof fn draining_workers_take_no_work(worker: RaySwordfishWorker, task: TaskInfo)
    ensures
        worker.seen().fits(task) ==> worker.status() == DrainState::Active || worker.status()
            == DrainState::Draining,
        worker.known_dead ==> !worker.seen().fits(task),
        worker.drain.unknown is Some ==> !worker.seen().fits(task),
        worker.drain.state == DrainState::Draining && worker.free() ==> !worker.seen().fits(task),
{
}

/// Nothing keeps a worker exactly where no task runs on it, no query has data on it, and nothing
/// is in doubt.
pub proof fn nothing_keeps_a_free_worker(worker: RaySwordfishWorker)
    ensures
        worker.free() <==> {
            &&& worker.active@.len() == 0
            &&& forall|q: QueryIdx| !worker.drain.data_queries@.contains(q)
            &&& worker.drain.unknown is None
        },
{
    if forall|q: QueryIdx| !worker.drain.data_queries@.contains(q) {
        assert(worker.drain.data_queries@ =~= Set::<QueryIdx>::empty());
    }
}

/// What is told of a worker: that it is dead before all else, then that it is in doubt; that it
/// is ready once it drains with no task and no data left; and else the stage that it is in.
pub proof fn death_is_told_first(worker: RaySwordfishWorker)
    ensures
        worker.known_dead ==> worker.status() == DrainState::Failed,
        !worker.known_dead && worker.drain.unknown is Some ==> worker.status()
            == DrainState::Unknown,
        !worker.known_dead && worker.drain.unknown is None && worker.drain.state
            != DrainState::Draining ==> worker.status() == worker.drain.state,
        !worker.known_dead && worker.drain.unknown is None && worker.drain.state
            == DrainState::Draining ==> worker.status() == (if worker.active@.len() == 0
            && worker.drain.data_queries@ == Set::<QueryIdx>::empty() {
            DrainState::ReadyToRetire
        } else {
            DrainState::Draining
        }),
{
}

/// The scheduler sees a worker with its number, all that it has, its tasks, and what is told of
/// it.
pub proof fn workers_are_seen_as_they_are(worker: RaySwordfishWorker)
    ensures
        worker.seen().worker_id == worker.worker_id,
        worker.seen().total_num_cpus == worker.num_cpus,
        worker.seen().total_num_gpus == worker.num_gpus,
        worker.seen().active == worker.active@,
        worker.seen().drain_state == worker.status(),
{
}

/// A worker takes a task exactly where it has the processors for it and some part of an
/// accelerator, if the task needs one, that no task takes; and where it is active, or is
/// draining and the task can run nowhere else.
pub proof fn tasks_are_taken_where_they_fit(worker: RaySwordfishWorker, task: TaskInfo)
    ensures
        worker.seen().fits(task) <==> {
            &&& worker.num_cpus - sum_cpus(worker.active@) >= task.request.num_cpus
            &&& task.request.num_gpus > 0 ==> worker.num_gpus - sum_gpus(worker.active@) != 0
            &&& {
                ||| worker.status() == DrainState::Active
                ||| worker.status() == DrainState::Draining && task.strategy
                    == (crate::task::SchedulingStrategy::WorkerAffinity {
                    worker_id: worker.worker_id,
                    soft: false,
                })
            }
        },
{
}

/// A task that is over is taken out, and no other; so are the tasks of a query that is over.
pub proof fn only_ended_tasks_are_taken_out(
    active: Seq<ActiveTask>,
    context: TaskContext,
    query_idx: QueryIdx,
)
    ensures
        without_task(active, context) == active.filter(|t: ActiveTask| t.context != context),
        without_query(active, query_idx) == active.filter(
            |t: ActiveTask| t.context.query_idx != query_idx,
        ),
    decreases active.len(),
{
    lemma_without(
        active,
        context,
        query_idx,
        |t: ActiveTask| t.context != context,
        |t: ActiveTask| t.context.query_idx != query_idx,
    );
}

proof fn lemma_without(
    active: Seq<ActiveTask>,
    context: TaskContext,
    query_idx: QueryIdx,
    other_task: spec_fn(ActiveTask) -> bool,
    other_query: spec_fn(ActiveTask) -> bool,
)
    requires
        forall|t: ActiveTask| #[trigger] other_task(t) == (t.context != context),
        forall|t: ActiveTask| #[trigger] other_query(t) == (t.context.query_idx != query_idx),
    ensures
        without_task(active, context) == active.filter(other_task),
        without_query(active, query_idx) == active.filter(other_query),
    decreases active.len(),
{
    reveal(Seq::filter);
    if active.len() > 0 {
        lemma_without(active.drop_last(), context, query_idx, other_task, other_query);
    }
}

/// What a worker reports of itself is what is so.
pub proof fn reports_are_true(worker: RaySwordfishWorker, usage: WorkerUsage)
    requires
        worker.is_usage(usage),
    ensures
        usage.worker_id == worker.worker_id,
        usage.instance_id@ == worker.instance_id@,
        usage.node_id@ == worker.node_id@,
        usage.state == worker.status(),
        usage.drain_epoch == worker.drain.epoch,
        usage.active_tasks == worker.active@.len(),
        usage.logical_cpus == sum_cpus(worker.active@),
        usage.unknown is Some <==> worker.drain.unknown is Some,
        usage.unknown is Some ==> usage.unknown->0@ == worker.drain.unknown->0@,
        usage.failure_confirmed <==> worker.known_dead,
        usage.can_retire <==> worker.active@.len() == 0 && worker.drain.data_queries@ == Set::<
            QueryIdx,
        >::empty() && worker.drain.unknown is None,
{
}

} // verus!
