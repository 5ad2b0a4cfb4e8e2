//! What happens to tasks that come back from their workers.
use vstd::arithmetic::power2::{lemma_pow2_pos, lemma_pow2_strictly_increases, pow2};
use vstd::prelude::*;

use crate::error::DaftError;
use crate::shuffle_file::min_int;
use crate::sort::reversed;
use crate::task::{PendingTask, ScheduledTask, TaskContext, TaskInfo, WorkerId};
use crate::text::{decimal, owned, parse, parsed, push_decimal};

verus! {

/// How often a task with a transient error is repeated. Few, because a dependency that is
/// down for good should fail the query soon.
pub const DEFAULT_MAX_TRANSIENT_RETRIES: u32 = 3;

/// How often a task is repeated that lost its worker. More, because that is not the task's
/// fault; but not without end, because a task may be what kills its workers.
pub const DEFAULT_MAX_INFRA_RETRIES: u32 = 10;

/// The longest wait before a task is repeated, in seconds.
pub const MAX_RETRY_BACKOFF_SECS: u64 = 30;

/// A retry limit: a configured number, or the default where none can be read.
pub fn retry_limit(configured: Option<&str>, default: u32) -> (limit: u32)
    ensures
        match configured {
            Some(text) => match parsed(text@, u32::MAX as nat) {
                Some(n) => limit == n,
                None => limit == default,
            },
            None => limit == default,
        },
{
    match configured {
        Some(text) => match parse(text, u32::MAX as u64) {
            Some(n) => n as u32,
            None => default,
        },
        None => default,
    }
}

/// The wait, in seconds, before the next attempt: it doubles from one second, up to the
/// longest wait.
pub open spec fn backoff_secs(attempts_made: nat) -> int {
    min_int(pow2(attempts_made) as int, MAX_RETRY_BACKOFF_SECS as int)
}

/// The wait, in seconds, before the next attempt.
pub fn retry_backoff(attempts_made: u32) -> (secs: u64)
    ensures
        secs == backoff_secs(attempts_made as nat),
        1 <= secs <= MAX_RETRY_BACKOFF_SECS,
{
    proof {
        vstd::arithmetic::power2::lemma2_to64();
        lemma_pow2_pos(attempts_made as nat);
        if attempts_made > 5 {
            lemma_pow2_strictly_increases(5, attempts_made as nat);
        }
    }
    if attempts_made == 0 {
        1
    } else if attempts_made == 1 {
        2
    } else if attempts_made == 2 {
        4
    } else if attempts_made == 3 {
        8
    } else if attempts_made == 4 {
        16
    } else {
        MAX_RETRY_BACKOFF_SECS
    }
}

/// How a task came back.
pub enum TaskStatus<R> {
    Success(R),
    Failed(DaftError),
    Cancelled,
    WorkerDied,
    WorkerUnavailable,
}

/// What is done with a task that came back. This is decided before anything is reported, so
/// that an attempt that will be repeated is not reported as the task's end.
#[derive(Clone, Copy, Debug, PartialEq, Eq, Structural)]
pub enum TaskDisposition {
    /// Repeat it.
    Retry,
    /// Report its outcome.
    Terminal,
}

/// A task that came back, with how it did; an error where the wait for it itself failed.
pub struct CompletedTask<P, R> {
    pub task_result: Result<TaskStatus<R>, DaftError>,
    pub task: ScheduledTask<P>,
}

/// The outcome for the one who submitted a task.
pub struct Reply<P, R> {
    pub payload: P,
    pub outcome: Result<R, DaftError>,
}

/// What is to be done for one task that came back: its end is recorded, the statistics get an
/// event, and what follows is in the fields.
pub struct Effect<P, R> {
    pub context: TaskContext,
    pub worker_id: WorkerId,
    /// Whether the event says that the task will be repeated.
    pub retryable: bool,
    /// Whether the worker is to be marked as dead.
    pub worker_died: bool,
    /// Whether it is certain that the task does not run any more.
    pub confirmed: bool,
    /// What the submitter gets now; nothing for a task that is repeated or was cancelled.
    pub reply: Option<Reply<P, R>>,
}

/// Retry limits.
#[derive(Clone, Copy, Debug, PartialEq, Eq, Structural)]
pub struct Dispatcher {
    pub max_transient_retries: u32,
    pub max_infra_retries: u32,
}

/// The text for a task that lost its worker on every attempt.
pub open spec fn lost_worker_text(context: TaskContext, attempts: u32) -> Seq<char> {
    "Task "@ + context.text() + " lost its worker on all "@ + decimal((attempts + 1) as nat)
        + " attempts; giving up. This usually means the task itself is killing the worker (e.g. running it out of memory). Set DAFT_FLOTILLA_TASK_MAX_INFRA_RETRIES to allow more attempts."@
}

fn lost_worker_error(context: TaskContext, attempts: u32) -> (e: DaftError)
    ensures
        e.is_internal_error(lost_worker_text(context, attempts)),
{
    let mut s: String = owned("Task ");
    context.push_text(&mut s);
    s.append(" lost its worker on all ");
    push_decimal(&mut s, attempts as u64 + 1);
    s.append(
        " attempts; giving up. This usually means the task itself is killing the worker (e.g. running it out of memory). Set DAFT_FLOTILLA_TASK_MAX_INFRA_RETRIES to allow more attempts.",
    );
    DaftError::InternalError(s)
}

/// Whether it is certain that a task that came back so does not run any more. It has returned,
/// or its worker is dead. A request to cancel it is no proof of that, nor is a worker that does
/// not answer, or a wait that failed.
pub open spec fn end_confirmed<R>(result: Result<TaskStatus<R>, DaftError>) -> bool {
    match result {
        Ok(TaskStatus::Success(_)) => true,
        Ok(TaskStatus::Failed(_)) => true,
        Ok(TaskStatus::WorkerDied) => true,
        Ok(TaskStatus::Cancelled) => false,
        Ok(TaskStatus::WorkerUnavailable) => false,
        Err(_) => false,
    }
}

fn is_end_confirmed<R>(result: &Result<TaskStatus<R>, DaftError>) -> (b: bool)
    ensures
        b == end_confirmed(*result),
{
    match result {
        Ok(TaskStatus::Success(_)) => true,
        Ok(TaskStatus::Failed(_)) => true,
        Ok(TaskStatus::WorkerDied) => true,
        Ok(TaskStatus::Cancelled) => false,
        Ok(TaskStatus::WorkerUnavailable) => false,
        Err(_) => false,
    }
}

impl Dispatcher {
    /// Whether a task that came back so is repeated.
    pub open spec fn repeats<R>(
        &self,
        result: Result<TaskStatus<R>, DaftError>,
        attempts: u32,
    ) -> bool {
        match result {
            Ok(TaskStatus::Failed(error)) => error.transient() && attempts
                < self.max_transient_retries,
            Ok(TaskStatus::WorkerDied) => attempts < self.max_infra_retries,
            Ok(TaskStatus::WorkerUnavailable) => attempts < self.max_infra_retries,
            _ => false,
        }
    }

    /// The task as it goes back to the queue: one more attempt, the wait, and rather not where
    /// it failed.
    pub open spec fn repeated<P>(task: ScheduledTask<P>, now: u64) -> PendingTask<P> {
        PendingTask {
            task: task.task,
            payload: task.payload,
            cancelled: task.cancelled,
            attempts: (task.attempts + 1) as u32,
            not_before: Some((now + backoff_secs(task.attempts as nat) * 1000) as u64),
            avoid_worker: Some(task.worker_id),
        }
    }

    /// The tasks that are repeated, in order.
    pub open spec fn all_repeated<P, R>(&self, completed: Seq<CompletedTask<P, R>>, now: u64) -> Seq<
        PendingTask<P>,
    >
        decreases completed.len(),
    {
        if completed.len() == 0 {
            Seq::empty()
        } else {
            let before = self.all_repeated(completed.drop_last(), now);
            let last = completed.last();
            if self.repeats(last.task_result, last.task.attempts) {
                before.push(Self::repeated(last.task, now))
            } else {
                before
            }
        }
    }

    /// Whether `effect` is what is to be done for a task that came back.
    pub open spec fn is_effect<P, R>(
        &self,
        completed: CompletedTask<P, R>,
        effect: Effect<P, R>,
    ) -> bool {
        let task = completed.task;
        &&& effect.context == task.task.context
        &&& effect.worker_id == task.worker_id
        &&& effect.retryable == self.repeats(completed.task_result, task.attempts)
        &&& effect.worker_died == (completed.task_result matches Ok(TaskStatus::WorkerDied))
        &&& effect.confirmed == end_confirmed(completed.task_result)
        &&& match completed.task_result {
            Ok(TaskStatus::Success(result)) => effect.reply == Some(
                Reply { payload: task.payload, outcome: Ok::<R, DaftError>(result) },
            ),
            Ok(TaskStatus::Cancelled) => effect.reply is None,
            Ok(TaskStatus::Failed(error)) => if effect.retryable {
                effect.reply is None
            } else {
                effect.reply == Some(
                    Reply { payload: task.payload, outcome: Err::<R, DaftError>(error) },
                )
            },
            Ok(TaskStatus::WorkerDied) => self.is_loss_reply(task, effect),
            Ok(TaskStatus::WorkerUnavailable) => self.is_loss_reply(task, effect),
            Err(error) => effect.reply == Some(
                Reply { payload: task.payload, outcome: Err::<R, DaftError>(error) },
            ),
        }
    }

    /// Whether the submitter of a task that lost its worker gets what it should: nothing yet
    /// if the task is repeated, else an error that says how often it was tried.
    pub open spec fn is_loss_reply<P, R>(
        &self,
        task: ScheduledTask<P>,
        effect: Effect<P, R>,
    ) -> bool {
        if effect.retryable {
            effect.reply is None
        } else {
            &&& effect.reply is Some
            &&& effect.reply->0.payload == task.payload
            &&& effect.reply->0.outcome is Err
            &&& effect.reply->0.outcome->Err_0.is_internal_error(
                lost_worker_text(task.task.context, task.attempts),
            )
        }
    }

    /// The default limits, or configured ones.
    pub fn new(transient: Option<&str>, infra: Option<&str>) -> (d: Dispatcher)
        ensures
            transient is None ==> d.max_transient_retries == DEFAULT_MAX_TRANSIENT_RETRIES,
            infra is None ==> d.max_infra_retries == DEFAULT_MAX_INFRA_RETRIES,
            transient matches Some(text) ==> d.max_transient_retries == (match parsed(
                text@,
                u32::MAX as nat,
            ) {
                Some(n) => n as u32,
                None => DEFAULT_MAX_TRANSIENT_RETRIES,
            }),
            infra matches Some(text) ==> d.max_infra_retries == (match parsed(
                text@,
                u32::MAX as nat,
            ) {
                Some(n) => n as u32,
                None => DEFAULT_MAX_INFRA_RETRIES,
            }),
    {
        Dispatcher {
            max_transient_retries: retry_limit(transient, DEFAULT_MAX_TRANSIENT_RETRIES),
            max_infra_retries: retry_limit(infra, DEFAULT_MAX_INFRA_RETRIES),
        }
    }

    /// Given limits.
    pub fn with_retry_limits(max_transient_retries: u32, max_infra_retries: u32) -> (d: Dispatcher)
        ensures
            d.max_transient_retries == max_transient_retries,
            d.max_infra_retries == max_infra_retries,
    {
        Dispatcher { max_transient_retries, max_infra_retries }
    }

    /// What is done with a task that came back so.
    pub fn disposition<R>(
        &self,
        result: &Result<TaskStatus<R>, DaftError>,
        attempts: u32,
    ) -> (d: TaskDisposition)
        ensures
            d == TaskDisposition::Retry <==> self.repeats(*result, attempts),
    {
        let retry: bool = match result {
            Ok(TaskStatus::Failed(error)) => error.is_transient() && attempts
                < self.max_transient_retries,
            Ok(TaskStatus::WorkerDied) => attempts < self.max_infra_retries,
            Ok(TaskStatus::WorkerUnavailable) => attempts < self.max_infra_retries,
            _ => false,
        };
        if retry {
            TaskDisposition::Retry
        } else {
            TaskDisposition::Terminal
        }
    }

    /// What is to be done for one task that came back, and the task again if it is repeated.
    pub fn complete<P, R>(&self, completed: CompletedTask<P, R>, now: u64) -> (r: (
        Effect<P, R>,
        Option<PendingTask<P>>,
    ))
        requires
            now + 30_000 <= u64::MAX,
        ensures
            self.is_effect(completed, r.0),
            r.1 == (if self.repeats(completed.task_result, completed.task.attempts) {
                Some(Self::repeated(completed.task, now))
            } else {
                None
            }),
    {
        let CompletedTask { task_result, task } = completed;
        let disposition: TaskDisposition = self.disposition(&task_result, task.attempts);
        let retryable: bool = match disposition {
            TaskDisposition::Retry => true,
            TaskDisposition::Terminal => false,
        };
        let (worker_id, info, payload, cancelled, attempts): (WorkerId, TaskInfo, P, bool, u32) =
            task.into_inner();
        let context: TaskContext = info.context;
        let worker_died: bool = match &task_result {
            Ok(TaskStatus::WorkerDied) => true,
            _ => false,
        };
        let confirmed: bool = is_end_confirmed(&task_result);
        if retryable {
            let backoff: u64 = retry_backoff(attempts);
            let again = PendingTask::retry(
                info,
                payload,
                cancelled,
                attempts + 1,
                now,
                backoff * 1000,
                worker_id,
            );
            return (
                Effect { context, worker_id, retryable, worker_died, confirmed, reply: None },
                Some(again),
            );
        }
        let reply: Option<Reply<P, R>> = match task_result {
            Ok(TaskStatus::Success(result)) => Some(Reply { payload, outcome: Ok(result) }),
            Ok(TaskStatus::Failed(error)) => Some(Reply { payload, outcome: Err(error) }),
            Ok(TaskStatus::Cancelled) => None,
            Ok(TaskStatus::WorkerDied) => Some(
                Reply { payload, outcome: Err(lost_worker_error(context, attempts)) },
            ),
            Ok(TaskStatus::WorkerUnavailable) => Some(
                Reply { payload, outcome: Err(lost_worker_error(context, attempts)) },
            ),
            Err(error) => Some(Reply { payload, outcome: Err(error) }),
        };
        (Effect { context, worker_id, retryable, worker_died, confirmed, reply }, None)
    }

    /// What is to be done for the tasks that came back, in order, and the tasks that go back
    /// to the queue.
    pub fn await_completed_tasks<P, R>(&self, completed: Vec<CompletedTask<P, R>>, now: u64) -> (r: (
        Vec<Effect<P, R>>,
        Vec<PendingTask<P>>,
    ))
        requires
            now + 30_000 <= u64::MAX,
        ensures
            r.0@.len() == completed@.len(),
            forall|i: int|
                0 <= i < completed@.len() ==> self.is_effect(completed@[i], #[trigger] r.0@[i]),
            r.1@ == self.all_repeated(completed@, now),
    {
        let ghost all = completed@;
        let mut rest: Vec<CompletedTask<P, R>> = crate::sort::reversed(completed);
        let mut effects: Vec<Effect<P, R>> = Vec::new();
        let mut failed: Vec<PendingTask<P>> = Vec::new();
        assert(all.take(0) =~= Seq::<CompletedTask<P, R>>::empty());
        while rest.len() > 0
            invariant
                now + 30_000 <= u64::MAX,
                rest@.len() <= all.len(),
                forall|i: int| 0 <= i < rest@.len() ==> #[trigger] rest@[i] == all[all.len() - 1 - i],
                effects@.len() == all.len() - rest@.len(),
                forall|i: int|
                    0 <= i < effects@.len() ==> self.is_effect(all[i], #[trigger] effects@[i]),
                failed@ == self.all_repeated(all.take(all.len() - rest@.len()), now),
            decreases rest@.len(),
        {
            let ghost n = all.len() - rest@.len();
            match rest.pop() {
                Some(one) => {
                    proof {
                        assert(all.take(n + 1).drop_last() =~= all.take(n));
                        assert(all.take(n + 1).last() == one);
                        assert(all[n] == one);
                    }
                    let (effect, again): (Effect<P, R>, Option<PendingTask<P>>) = self.complete(one, now);
                    effects.push(effect);
                    match again {
                        Some(task) => {
                            failed.push(task);
                        },
                        None => {},
                    }
                },
                None => {},
            }
        }
        assert(all.take(all.len() as int) =~= all);
        (effects, failed)
    }
}

/// The tasks for one worker, in order.
pub open spec fn tasks_for<P>(tasks: Seq<ScheduledTask<P>>, worker_id: WorkerId) -> Seq<TaskInfo>
    decreases tasks.len(),
{
    if tasks.len() == 0 {
        Seq::empty()
    } else if tasks.last().worker_id == worker_id {
        tasks_for(tasks.drop_last(), worker_id).push(tasks.last().task)
    } else {
        tasks_for(tasks.drop_last(), worker_id)
    }
}

/// The tasks for one worker.
pub struct WorkerBatch {
    pub worker_id: WorkerId,
    pub tasks: Vec<TaskInfo>,
}

/// Whether batches are the tasks by worker: one batch for each worker that gets any, with its
/// tasks in order.
pub open spec fn are_batches<P>(batches: Seq<WorkerBatch>, tasks: Seq<ScheduledTask<P>>) -> bool {
    &&& forall|i: int|
        0 <= i < batches.len() ==> (#[trigger] batches[i]).tasks@ == tasks_for(
            tasks,
            batches[i].worker_id,
        ) && batches[i].tasks@.len() > 0
    &&& forall|i: int, j: int|
        #![trigger batches[i], batches[j]]
        0 <= i < j < batches.len() ==> batches[i].worker_id != batches[j].worker_id
    &&& forall|k: int|
        0 <= k < tasks.len() ==> exists|i: int|
            0 <= i < batches.len() && (#[trigger] batches[i]).worker_id == (#[trigger] tasks[k]).worker_id
}

/// Puts tasks together by worker.
pub fn dispatch_tasks<P>(tasks: &Vec<ScheduledTask<P>>) -> (batches: Vec<WorkerBatch>)
    ensures
        are_batches(batches@, tasks@),
{
    let mut batches: Vec<WorkerBatch> = Vec::new();
    let mut k: usize = 0;
    assert(tasks@.take(0) =~= Seq::<ScheduledTask<P>>::empty());
    while k < tasks.len()
        invariant
            k <= tasks@.len(),
            are_batches(batches@, tasks@.take(k as int)),
        decreases tasks@.len() - k,
    {
        let worker_id: WorkerId = tasks[k].worker_id;
        let info: TaskInfo = tasks[k].task;
        let ghost before = batches@;
        let ghost was = tasks@.take(k as int);
        let ghost now = tasks@.take(k + 1);
        proof {
            assert(now.drop_last() =~= was);
            assert(now.last() == tasks@[k as int]);
        }
        let mut i: usize = 0;
        while i < batches.len() && batches[i].worker_id != worker_id
            invariant
                i <= batches@.len(),
                batches@ == before,
                forall|j: int| 0 <= j < i ==> (#[trigger] batches@[j]).worker_id != worker_id,
            decreases batches@.len() - i,
        {
            i = i + 1;
        }
        if i < batches.len() {
            let mut batch: WorkerBatch = batches.remove(i);
            batch.tasks.push(info);
            batches.insert(i, batch);
            proof {
                assert(batches@ =~= before.update(i as int, batches@[i as int]));
                assert forall|j: int| 0 <= j < batches@.len() implies (#[trigger] batches@[j]).tasks@
                    == tasks_for(now, batches@[j].worker_id) && batches@[j].tasks@.len() > 0 by {
                    if j != i {
                        assert(batches@[j] == before[j]);
                        assert(before[j].worker_id != before[i as int].worker_id);
                    } else {
                        assert(before[i as int].tasks@ == tasks_for(was, worker_id));
                    }
                }
                assert forall|a: int, b: int|
                    #![trigger batches@[a], batches@[b]]
                    0 <= a < b < batches@.len() implies batches@[a].worker_id
                    != batches@[b].worker_id by {
                    assert(before[a].worker_id != before[b].worker_id);
                }
                assert forall|t: int| 0 <= t < now.len() implies exists|i: int|
                    0 <= i < batches@.len() && (#[trigger] batches@[i]).worker_id == (
                    #[trigger] now[t]).worker_id by {
                    if t < was.len() {
                        assert(now[t] == was[t]);
                        let j = choose|j: int|
                            0 <= j < before.len() && (#[trigger] before[j]).worker_id
                                == was[t].worker_id;
                        assert(batches@[j].worker_id == now[t].worker_id);
                    } else {
                        assert(batches@[i as int].worker_id == now[t].worker_id);
                    }
                }
            }
        } else {
            let mut only: Vec<TaskInfo> = Vec::new();
            only.push(info);
            batches.push(WorkerBatch { worker_id, tasks: only });
            proof {
                lemma_no_tasks(before, was, worker_id);
                assert forall|j: int| 0 <= j < batches@.len() implies (#[trigger] batches@[j]).tasks@
                    == tasks_for(now, batches@[j].worker_id) && batches@[j].tasks@.len() > 0 by {
                    if j < before.len() {
                        assert(batches@[j] == before[j]);
                    } else {
                        assert(batches@[j].tasks@ =~= tasks_for(now, worker_id));
                    }
                }
                assert forall|t: int| 0 <= t < now.len() implies exists|i: int|
                    0 <= i < batches@.len() && (#[trigger] batches@[i]).worker_id == (
                    #[trigger] now[t]).worker_id by {
                    if t < was.len() {
                        assert(now[t] == was[t]);
                        let j = choose|j: int|
                            0 <= j < before.len() && (#[trigger] before[j]).worker_id
                                == was[t].worker_id;
                        assert(batches@[j].worker_id == now[t].worker_id);
                    } else {
                        assert(batches@[before.len() as int].worker_id == now[t].worker_id);
                    }
                }
            }
        }
        k = k + 1;
    }
    assert(tasks@.take(tasks@.len() as int) =~= tasks@);
    batches
}

proof fn lemma_no_tasks<P>(batches: Seq<WorkerBatch>, tasks: Seq<ScheduledTask<P>>, worker_id: WorkerId)
    requires
        are_batches(batches, tasks),
        forall|j: int| 0 <= j < batches.len() ==> (#[trigger] batches[j]).worker_id != worker_id,
    ensures
        tasks_for(tasks, worker_id) == Seq::<TaskInfo>::empty(),
{
    assert forall|k: int| 0 <= k < tasks.len() implies (#[trigger] tasks[k]).worker_id
        != worker_id by {
        let i = choose|i: int|
            0 <= i < batches.len() && (#[trigger] batches[i]).worker_id == tasks[k].worker_id;
    }
    lemma_no_tasks_for(tasks, worker_id);
}

proof fn lemma_no_tasks_for<P>(tasks: Seq<ScheduledTask<P>>, worker_id: WorkerId)
    requires
        forall|k: int| 0 <= k < tasks.len() ==> (#[trigger] tasks[k]).worker_id != worker_id,
    ensures
        tasks_for(tasks, worker_id) == Seq::<TaskInfo>::empty(),
    decreases tasks.len(),
{
    if tasks.len() > 0 {
        assert(tasks[tasks.len() - 1] == tasks.last());
        assert forall|k: int| 0 <= k < tasks.drop_last().len() implies (
        #[trigger] tasks.drop_last()[k]).worker_id != worker_id by {
            assert(tasks.drop_last()[k] == tasks[k]);
        }
        lemma_no_tasks_for(tasks.drop_last(), worker_id);
    }
}

/// Those of the first `n` tasks that were accepted, or those that were not.
pub open spec fn by_acceptance<P>(
    tasks: Seq<ScheduledTask<P>>,
    handles: Seq<TaskContext>,
    accepted: bool,
    n: int,
) -> Seq<ScheduledTask<P>>
    decreases n,
{
    if n <= 0 {
        Seq::empty()
    } else if handles.contains(tasks[n - 1].task.context) == accepted {
        by_acceptance(tasks, handles, accepted, n - 1).push(tasks[n - 1])
    } else {
        by_acceptance(tasks, handles, accepted, n - 1)
    }
}

/// Parts the tasks that the workers have accepted, by the handles that came back for them, from
/// those that they have not.
pub fn match_handles<P>(tasks: Vec<ScheduledTask<P>>, handles: &Vec<TaskContext>) -> (r: (
    Vec<ScheduledTask<P>>,
    Vec<ScheduledTask<P>>,
))
    ensures
        r.0@ == by_acceptance(tasks@, handles@, true, tasks@.len() as int),
        r.1@ == by_acceptance(tasks@, handles@, false, tasks@.len() as int),
{
    let ghost all = tasks@;
    let mut rest: Vec<ScheduledTask<P>> = reversed(tasks);
    let mut running: Vec<ScheduledTask<P>> = Vec::new();
    let mut refused: Vec<ScheduledTask<P>> = Vec::new();
    let ghost mut n: int = 0;
    while rest.len() > 0
        invariant
            0 <= n <= all.len(),
            rest@.len() == all.len() - n,
            forall|i: int| 0 <= i < rest@.len() ==> #[trigger] rest@[i] == all[all.len() - 1 - i],
            running@ == by_acceptance(all, handles@, true, n),
            refused@ == by_acceptance(all, handles@, false, n),
        decreases rest@.len(),
    {
        match rest.pop() {
            Some(task) => {
                assert(task == all[n]);
                let mut found: bool = false;
                let mut h: usize = 0;
                while h < handles.len() && !found
                    invariant
                        h <= handles@.len(),
                        found ==> handles@.contains(task.task.context),
                        !found ==> forall|k: int|
                            0 <= k < h ==> #[trigger] handles@[k] != task.task.context,
                    decreases handles@.len() - h,
                {
                    if handles[h] == task.task.context {
                        assert(handles@[h as int] == task.task.context);
                        found = true;
                    }
                    h = h + 1;
                }
                if found {
                    running.push(task);
                } else {
                    refused.push(task);
                }
            },
            None => {},
        }
        proof {
            n = n + 1;
        }
    }
    (running, refused)
}

/// Attempts are bounded: a task that is repeated had made fewer attempts than its limit, so no
/// chain of failures repeats a task more often than the larger of the two limits.
pub proof fn retries_are_bounded<R>(
    d: Dispatcher,
    result: Result<TaskStatus<R>, DaftError>,
    attempts: u32,
)
    requires
        d.repeats(result, attempts),
    ensures
        attempts < d.max_transient_retries || attempts < d.max_infra_retries,
        result is Ok,
        !(result matches Ok(TaskStatus::Success(_))),
        !(result matches Ok(TaskStatus::Cancelled)),
{
}

/// Errors in data are never repeated, whatever the limits are.
pub proof fn permanent_errors_are_not_repeated<R>(d: Dispatcher, error: DaftError, attempts: u32)
    requires
        !error.transient(),
    ensures
        !d.repeats(Ok::<TaskStatus<R>, DaftError>(TaskStatus::Failed(error)), attempts),
{
}

/// A task is repeated exactly where it failed for a reason that may pass, or lost its worker, and
/// has been repeated less often than that reason allows.
pub proof fn tasks_are_repeated_within_their_limits<R>(
    d: Dispatcher,
    result: Result<TaskStatus<R>, DaftError>,
    attempts: u32,
)
    ensures
        d.repeats(result, attempts) <==> {
            ||| result is Ok && result->Ok_0 is Failed && result->Ok_0->Failed_0.transient()
                && attempts < d.max_transient_retries
            ||| result is Ok && result->Ok_0 is WorkerDied && attempts < d.max_infra_retries
            ||| result is Ok && result->Ok_0 is WorkerUnavailable && attempts < d.max_infra_retries
        },
{
}

/// It is certain that a task does not run any more where it has returned or its worker is dead.
pub proof fn only_returned_tasks_are_certain_to_have_ended<R>(
    result: Result<TaskStatus<R>, DaftError>,
)
    ensures
        end_confirmed(result) <==> result is Ok && (result->Ok_0 is Success || result->Ok_0 is Failed
            || result->Ok_0 is WorkerDied),
{
}

/// The wait begins with one second and doubles with every attempt until it is half a minute.
pub proof fn waits_double(attempts: nat)
    ensures
        backoff_secs(0) == 1,
        2 * backoff_secs(attempts) <= 30 ==> backoff_secs(attempts + 1) == 2 * backoff_secs(
            attempts,
        ),
        2 * backoff_secs(attempts) > 30 ==> backoff_secs(attempts + 1) == 30,
{
    vstd::arithmetic::power2::lemma_pow2_unfold(attempts + 1);
    vstd::arithmetic::power2::lemma2_to64();
    lemma_pow2_pos(attempts);
}

/// A repeated task is the same task with one more attempt. It waits the seconds that its
/// attempts so far ask for, and rather not goes where it was.
pub proof fn repeated_tasks_wait_elsewhere<P>(task: ScheduledTask<P>, now: u64)
    requires
        now + 30_000 <= u64::MAX,
        task.attempts < u32::MAX,
    ensures
        ({
            let again = Dispatcher::repeated(task, now);
            &&& again.task == task.task
            &&& again.payload == task.payload
            &&& again.cancelled == task.cancelled
            &&& again.attempts == task.attempts + 1
            &&& again.not_before is Some
            &&& again.not_before->0 == now + backoff_secs(task.attempts as nat) * 1000
            &&& again.avoid_worker == Some(task.worker_id)
        }),
{
    lemma_pow2_pos(task.attempts as nat);
}

/// The tasks that go back to the queue are exactly those that are repeated, in the order in
/// which they came back.
pub proof fn repeated_tasks_go_back<P, R>(
    d: Dispatcher,
    completed: Seq<CompletedTask<P, R>>,
    now: u64,
)
    ensures
        d.all_repeated(completed, now) == completed.filter(
            |c: CompletedTask<P, R>| d.repeats(c.task_result, c.task.attempts),
        ).map_values(|c: CompletedTask<P, R>| Dispatcher::repeated(c.task, now)),
{
    lemma_all_repeated(
        d,
        completed,
        now,
        |c: CompletedTask<P, R>| d.repeats(c.task_result, c.task.attempts),
        |c: CompletedTask<P, R>| Dispatcher::repeated(c.task, now),
    );
}

proof fn lemma_all_repeated<P, R>(
    d: Dispatcher,
    completed: Seq<CompletedTask<P, R>>,
    now: u64,
    again: spec_fn(CompletedTask<P, R>) -> bool,
    task_of: spec_fn(CompletedTask<P, R>) -> PendingTask<P>,
)
    requires
        forall|c: CompletedTask<P, R>| #[trigger]
            again(c) == d.repeats(c.task_result, c.task.attempts),
        forall|c: CompletedTask<P, R>| #[trigger] task_of(c) == Dispatcher::repeated(c.task, now),
    ensures
        d.all_repeated(completed, now) == completed.filter(again).map_values(task_of),
    decreases completed.len(),
{
    reveal(Seq::filter);
    if completed.len() > 0 {
        let before = completed.drop_last();
        lemma_all_repeated(d, before, now, again, task_of);
        if again(completed.last()) {
            assert(completed.filter(again).map_values(task_of) =~= before.filter(
                again,
            ).map_values(task_of).push(task_of(completed.last())));
        }
    } else {
        assert(completed.filter(again).map_values(task_of) =~= Seq::empty());
    }
}

/// The submitter of a task hears of it once: nothing while the task is repeated and nothing once
/// it was cancelled, its result where it has one, its own error where it failed for good, and
/// else that it lost its worker every time.
pub proof fn submitters_hear_the_outcome<P, R>(
    d: Dispatcher,
    completed: CompletedTask<P, R>,
    effect: Effect<P, R>,
)
    requires
        d.is_effect(completed, effect),
    ensures
        ({
            let task = completed.task;
            let again = d.repeats(completed.task_result, task.attempts);
            let cancelled = completed.task_result is Ok && completed.task_result->Ok_0 is Cancelled;
            &&& effect.context == task.task.context
            &&& effect.worker_id == task.worker_id
            &&& effect.retryable == again
            &&& effect.worker_died <==> completed.task_result is Ok && completed.task_result->Ok_0
                is WorkerDied
            &&& effect.confirmed == end_confirmed(completed.task_result)
            &&& effect.reply is None <==> again || cancelled
            &&& effect.reply matches Some(reply) ==> {
                &&& reply.payload == task.payload
                &&& completed.task_result is Err ==> reply.outcome == Err::<R, DaftError>(
                    completed.task_result->Err_0,
                )
                &&& completed.task_result matches Ok(TaskStatus::Success(result)) ==> reply.outcome
                    == Ok::<R, DaftError>(result)
                &&& completed.task_result matches Ok(TaskStatus::Failed(error)) ==> reply.outcome
                    == Err::<R, DaftError>(error)
                &&& completed.task_result matches Ok(TaskStatus::WorkerDied) ==> reply.outcome is Err
                    && reply.outcome->Err_0.is_internal_error(
                    lost_worker_text(task.task.context, task.attempts),
                )
                &&& completed.task_result matches Ok(TaskStatus::WorkerUnavailable)
                    ==> reply.outcome is Err && reply.outcome->Err_0.is_internal_error(
                    lost_worker_text(task.task.context, task.attempts),
                )
            }
        }),
{
}

/// A worker is handed exactly the tasks that were placed on it, in their order.
pub proof fn workers_get_their_own_tasks<P>(tasks: Seq<ScheduledTask<P>>, worker_id: WorkerId)
    ensures
        tasks_for(tasks, worker_id) == tasks.filter(
            |t: ScheduledTask<P>| t.worker_id == worker_id,
        ).map_values(|t: ScheduledTask<P>| t.task),
{
    lemma_tasks_for(
        tasks,
        worker_id,
        |t: ScheduledTask<P>| t.worker_id == worker_id,
        |t: ScheduledTask<P>| t.task,
    );
}

proof fn lemma_tasks_for<P>(
    tasks: Seq<ScheduledTask<P>>,
    worker_id: WorkerId,
    here: spec_fn(ScheduledTask<P>) -> bool,
    task_of: spec_fn(ScheduledTask<P>) -> TaskInfo,
)
    requires
        forall|t: ScheduledTask<P>| #[trigger] here(t) == (t.worker_id == worker_id),
        forall|t: ScheduledTask<P>| #[trigger] task_of(t) == t.task,
    ensures
        tasks_for(tasks, worker_id) == tasks.filter(here).map_values(task_of),
    decreases tasks.len(),
{
    reveal(Seq::filter);
    if tasks.len() > 0 {
        let before = tasks.drop_last();
        lemma_tasks_for(before, worker_id, here, task_of);
        if here(tasks.last()) {
            assert(tasks.filter(here).map_values(task_of) =~= before.filter(here).map_values(
                task_of,
            ).push(task_of(tasks.last())));
        }
    } else {
        assert(tasks.filter(here).map_values(task_of) =~= Seq::empty());
    }
}

/// Every task that was sent is either accepted or not: accepted, where a handle came back for it.
pub proof fn tasks_without_a_handle_are_not_accepted<P>(
    tasks: Seq<ScheduledTask<P>>,
    handles: Seq<TaskContext>,
)
    ensures
        by_acceptance(tasks, handles, true, tasks.len() as int) == tasks.filter(
            |t: ScheduledTask<P>| handles.contains(t.task.context),
        ),
        by_acceptance(tasks, handles, false, tasks.len() as int) == tasks.filter(
            |t: ScheduledTask<P>| !handles.contains(t.task.context),
        ),
{
    let n = tasks.len() as int;
    assert(tasks.take(n) =~= tasks);
    lemma_by_acceptance(
        tasks,
        handles,
        true,
        n,
        |t: ScheduledTask<P>| handles.contains(t.task.context),
    );
    lemma_by_acceptance(
        tasks,
        handles,
        false,
        n,
        |t: ScheduledTask<P>| !handles.contains(t.task.context),
    );
}

proof fn lemma_by_acceptance<P>(
    tasks: Seq<ScheduledTask<P>>,
    handles: Seq<TaskContext>,
    accepted: bool,
    n: int,
    wanted: spec_fn(ScheduledTask<P>) -> bool,
)
    requires
        0 <= n <= tasks.len(),
        forall|t: ScheduledTask<P>| #[trigger]
            wanted(t) == (handles.contains(t.task.context) == accepted),
    ensures
        by_acceptance(tasks, handles, accepted, n) == tasks.take(n).filter(wanted),
    decreases n,
{
    reveal(Seq::filter);
    if n > 0 {
        lemma_by_acceptance(tasks, handles, accepted, n - 1, wanted);
        assert(tasks.take(n).drop_last() =~= tasks.take(n - 1));
        assert(tasks.take(n).last() == tasks[n - 1]);
    }
}

/// Batches hold every placed task: each task is in the batch of its worker.
pub proof fn every_placed_task_is_in_a_batch<P>(
    batches: Seq<WorkerBatch>,
    tasks: Seq<ScheduledTask<P>>,
    k: int,
) -> (i: int)
    requires
        are_batches(batches, tasks),
        0 <= k < tasks.len(),
    ensures
        0 <= i < batches.len(),
        batches[i].worker_id == tasks[k].worker_id,
        batches[i].tasks@.contains(tasks[k].task),
        forall|j: int|
            0 <= j < batches.len() && j != i ==> (#[trigger] batches[j]).worker_id
                != tasks[k].worker_id,
{
    let i = choose|i: int|
        0 <= i < batches.len() && (#[trigger] batches[i]).worker_id == tasks[k].worker_id;
    lemma_task_for(tasks, tasks[k].worker_id, k);
    i
}

proof fn lemma_task_for<P>(tasks: Seq<ScheduledTask<P>>, worker_id: WorkerId, k: int)
    requires
        0 <= k < tasks.len(),
        tasks[k].worker_id == worker_id,
    ensures
        tasks_for(tasks, worker_id).contains(tasks[k].task),
    decreases tasks.len(),
{
    let before = tasks_for(tasks.drop_last(), worker_id);
    let all = tasks_for(tasks, worker_id);
    if k < tasks.len() - 1 {
        assert(tasks.drop_last()[k] == tasks[k]);
        lemma_task_for(tasks.drop_last(), worker_id, k);
        let p = choose|p: int| 0 <= p < before.len() && before[p] == tasks[k].task;
        assert(all[p] == tasks[k].task);
    } else {
        assert(all[before.len() as int] == tasks[k].task);
    }
}

/// No worker is handed an empty batch, and no two batches are for one worker.
pub proof fn batches_are_not_empty<P>(
    batches: Seq<WorkerBatch>,
    tasks: Seq<ScheduledTask<P>>,
    i: int,
    j: int,
)
    requires
        are_batches(batches, tasks),
        0 <= i < batches.len(),
        0 <= j < batches.len(),
    ensures
        batches[i].tasks@.len() > 0,
        i != j ==> batches[i].worker_id != batches[j].worker_id,
        batches[i].tasks@ == tasks_for(tasks, batches[i].worker_id),
{
    if i < j {
        assert(batches[i].worker_id != batches[j].worker_id);
    } else if j < i {
        assert(batches[j].worker_id != batches[i].worker_id);
    }
}

/// A submitter whose task lost its worker every time is told how often it was tried: once more
/// than it was repeated.
pub proof fn all_attempts_are_told(context: TaskContext, attempts: u32) -> (rest: Seq<char>)
    ensures
        lost_worker_text(context, attempts) == "Task "@ + context.text()
            + " lost its worker on all "@ + decimal(attempts as nat + 1) + rest,
{
    let front = "Task "@ + context.text() + " lost its worker on all "@ + decimal(
        attempts as nat + 1,
    );
    let all = lost_worker_text(context, attempts);
    let rest = all.skip(front.len() as int);
    assert(all =~= front + rest);
    rest
}

} // verus!
