//! Tasks on their way from the queue to a worker and back.
use vstd::prelude::*;

use crate::text::{decimal, push_decimal};

verus! {

/// The number of a worker.
pub type WorkerId = u64;

/// Thousandths of a processor or accelerator in a whole one.
pub const MILLIS: u32 = 1000;

/// Which task this is.
#[derive(Clone, Copy, Debug, PartialEq, Eq, Structural)]
pub struct TaskContext {
    pub query_idx: u32,
    pub last_node_id: u32,
    pub task_id: u32,
}

impl TaskContext {
    /// The task in messages.
    pub open spec fn text(self) -> Seq<char> {
        "TaskContext { query_idx: "@ + decimal(self.query_idx as nat) + ", last_node_id: "@
            + decimal(self.last_node_id as nat) + ", task_id: "@ + decimal(self.task_id as nat)
            + " }"@
    }

    /// Appends the task as messages show it.
    pub fn push_text(&self, s: &mut String)
        ensures
            final(s)@ == old(s)@ + self.text(),
    {
        let ghost before = s@;
        s.append("TaskContext { query_idx: ");
        push_decimal(s, self.query_idx as u64);
        s.append(", last_node_id: ");
        push_decimal(s, self.last_node_id as u64);
        s.append(", task_id: ");
        push_decimal(s, self.task_id as u64);
        s.append(" }");
        assert(s@ =~= before + self.text());
    }
}

/// What a task needs: processors and accelerators in thousandths, memory in bytes.
#[derive(Clone, Copy, Debug, PartialEq, Eq, Structural)]
pub struct ResourceRequest {
    pub num_cpus: u32,
    pub num_gpus: u32,
    pub memory_bytes: u64,
}

/// Where a task may run.
#[derive(Clone, Copy, Debug, PartialEq, Eq, Structural)]
pub enum SchedulingStrategy {
    /// On the worker with the most room.
    Spread,
    /// On one worker; a soft task may go elsewhere while that one is busy.
    WorkerAffinity { worker_id: WorkerId, soft: bool },
}

/// What the scheduler reads of a task.
#[derive(Clone, Copy, Debug, PartialEq, Eq, Structural)]
pub struct TaskInfo {
    pub context: TaskContext,
    pub priority: u64,
    pub strategy: SchedulingStrategy,
    pub request: ResourceRequest,
    /// How often the task had failed when it was last placed.
    pub attempt: u32,
}

/// A task in the queue, with whatever its submitter needs to get it back.
pub struct PendingTask<P> {
    pub task: TaskInfo,
    pub payload: P,
    pub cancelled: bool,
    /// How often the task has come back failed.
    pub attempts: u32,
    /// When the task may be dispatched again, in milliseconds.
    pub not_before: Option<u64>,
    /// Where the last attempt failed.
    pub avoid_worker: Option<WorkerId>,
}

impl<P> PendingTask<P> {
    /// A task that has never run.
    pub fn new(task: TaskInfo, payload: P) -> (t: PendingTask<P>)
        ensures
            t.task == task,
            t.payload == payload,
            !t.cancelled,
            t.attempts == 0,
            t.not_before is None,
            t.avoid_worker is None,
    {
        PendingTask {
            task,
            payload,
            cancelled: false,
            attempts: 0,
            not_before: None,
            avoid_worker: None,
        }
    }

    /// A task that failed and gets another attempt: not before `backoff` milliseconds have
    /// passed, and rather not where it failed.
    pub fn retry(
        task: TaskInfo,
        payload: P,
        cancelled: bool,
        attempts: u32,
        now: u64,
        backoff: u64,
        failed_on: WorkerId,
    ) -> (t: PendingTask<P>)
        requires
            now + backoff <= u64::MAX,
        ensures
            t.task == task,
            t.payload == payload,
            t.cancelled == cancelled,
            t.attempts == attempts,
            t.not_before == Some((now + backoff) as u64),
            t.avoid_worker == Some(failed_on),
    {
        PendingTask {
            task,
            payload,
            cancelled,
            attempts,
            not_before: Some(now + backoff),
            avoid_worker: Some(failed_on),
        }
    }

    /// How often the task has come back failed.
    pub fn attempts(&self) -> (n: u32)
        ensures
            n == self.attempts,
    {
        self.attempts
    }

    /// Whether the wait before the next attempt is over.
    pub open spec fn ready_at(&self, now: u64) -> bool {
        match self.not_before {
            Some(at) => now >= at,
            None => true,
        }
    }

    /// Whether the wait before the next attempt is over.
    pub fn is_ready(&self, now: u64) -> (b: bool)
        ensures
            b == self.ready_at(now),
    {
        match self.not_before {
            Some(at) => now >= at,
            None => true,
        }
    }

    /// Where the last attempt failed, if this is a retry.
    pub fn avoid_worker(&self) -> (w: Option<WorkerId>)
        ensures
            w == self.avoid_worker,
    {
        self.avoid_worker
    }

    /// Where the task may run.
    pub fn strategy(&self) -> (s: SchedulingStrategy)
        ensures
            s == self.task.strategy,
    {
        self.task.strategy
    }

    /// Which task this is.
    pub fn task_context(&self) -> (c: TaskContext)
        ensures
            c == self.task.context,
    {
        self.task.context
    }

    /// Whether nobody waits for the task any more.
    pub fn is_cancelled(&self) -> (b: bool)
        ensures
            b == self.cancelled,
    {
        self.cancelled
    }

    /// The task itself, and what its submitter needs.
    pub fn into_inner(self) -> (r: (TaskInfo, P, bool))
        ensures
            r == (self.task, self.payload, self.cancelled),
    {
        (self.task, self.payload, self.cancelled)
    }
}

/// A task with the worker that it goes to.
pub struct ScheduledTask<P> {
    pub task: TaskInfo,
    pub payload: P,
    pub cancelled: bool,
    pub worker_id: WorkerId,
    pub attempts: u32,
    pub not_before: Option<u64>,
    pub avoid_worker: Option<WorkerId>,
}

/// A placed task that goes back to the queue.
pub open spec fn deferred<P>(task: ScheduledTask<P>) -> PendingTask<P> {
    PendingTask {
        task: task.task,
        payload: task.payload,
        cancelled: task.cancelled,
        attempts: task.attempts,
        not_before: task.not_before,
        avoid_worker: task.avoid_worker,
    }
}

/// A pending task that is told itself how often it had failed.
pub open spec fn told<P>(pending: PendingTask<P>) -> PendingTask<P> {
    PendingTask { task: TaskInfo { attempt: pending.attempts, ..pending.task }, ..pending }
}

/// A pending task placed on a worker: the task itself is told how often it had failed.
pub open spec fn placed<P>(pending: PendingTask<P>, worker_id: WorkerId) -> ScheduledTask<P> {
    ScheduledTask {
        task: TaskInfo { attempt: pending.attempts, ..pending.task },
        payload: pending.payload,
        cancelled: pending.cancelled,
        worker_id,
        attempts: pending.attempts,
        not_before: pending.not_before,
        avoid_worker: pending.avoid_worker,
    }
}

impl<P> ScheduledTask<P> {
    /// Places a task on a worker.
    pub fn new(pending: PendingTask<P>, worker_id: WorkerId) -> (t: ScheduledTask<P>)
        ensures
            t == placed(pending, worker_id),
    {
        let mut task: TaskInfo = pending.task;
        task.attempt = pending.attempts;
        ScheduledTask {
            task,
            payload: pending.payload,
            cancelled: pending.cancelled,
            worker_id,
            attempts: pending.attempts,
            not_before: pending.not_before,
            avoid_worker: pending.avoid_worker,
        }
    }

    /// Puts the task back into the queue. This is no failure: its attempts, its wait and the
    /// worker to avoid stay as they were.
    pub fn defer(self) -> (t: PendingTask<P>)
        ensures
            t == deferred(self),
    {
        PendingTask {
            task: self.task,
            payload: self.payload,
            cancelled: self.cancelled,
            attempts: self.attempts,
            not_before: self.not_before,
            avoid_worker: self.avoid_worker,
        }
    }

    /// The worker that the task goes to.
    pub fn worker_id(&self) -> (w: WorkerId)
        ensures
            w == self.worker_id,
    {
        self.worker_id
    }

    /// The task itself.
    pub fn task_ref(&self) -> (t: &TaskInfo)
        ensures
            *t == self.task,
    {
        &self.task
    }

    /// The task itself.
    pub fn task(&self) -> (t: TaskInfo)
        ensures
            t == self.task,
    {
        self.task
    }

    /// The worker, the task, what its submitter needs, and the attempts.
    pub fn into_inner(self) -> (r: (WorkerId, TaskInfo, P, bool, u32))
        ensures
            r == (self.worker_id, self.task, self.payload, self.cancelled, self.attempts),
    {
        (self.worker_id, self.task, self.payload, self.cancelled, self.attempts)
    }
}

/// Placing a task and deferring it again, however often, costs it nothing: attempts, wait and
/// the worker to avoid are what they were, and the task is told the same number of attempts.
pub proof fn deferral_costs_nothing<P>(pending: PendingTask<P>, first: WorkerId, second: WorkerId)
    ensures
        ({
            let back = deferred(placed(pending, first));
            &&& back == told(pending)
            &&& back.attempts == pending.attempts
            &&& back.not_before == pending.not_before
            &&& back.avoid_worker == pending.avoid_worker
            &&& placed(back, second) == placed(pending, second)
        }),
{
}

/// A placed task goes to its worker with all that is known of it, and is told itself how often
/// it has failed; put back, it is what it was.
pub proof fn placing_keeps_what_is_known<P>(pending: PendingTask<P>, worker_id: WorkerId)
    ensures
        ({
            let t = placed(pending, worker_id);
            &&& t.worker_id == worker_id
            &&& t.task.context == pending.task.context
            &&& t.task.priority == pending.task.priority
            &&& t.task.strategy == pending.task.strategy
            &&& t.task.request == pending.task.request
            &&& t.task.attempt == pending.attempts
            &&& t.payload == pending.payload
            &&& t.cancelled == pending.cancelled
            &&& t.attempts == pending.attempts
            &&& t.not_before == pending.not_before
            &&& t.avoid_worker == pending.avoid_worker
            &&& deferred(t).task == t.task
            &&& deferred(t).payload == t.payload
            &&& deferred(t).cancelled == t.cancelled
            &&& deferred(t).attempts == t.attempts
            &&& deferred(t).not_before == t.not_before
            &&& deferred(t).avoid_worker == t.avoid_worker
        }),
{
}

/// A task waits exactly until its time has come, and once it has, the task stays ready.
pub proof fn tasks_wait_for_their_time<P>(pending: PendingTask<P>, now: u64, later: u64)
    ensures
        pending.ready_at(now) <==> pending.not_before is None || pending.not_before->0 <= now,
        pending.ready_at(now) && now <= later ==> pending.ready_at(later),
{
}

} // verus!
