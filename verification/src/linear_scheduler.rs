//! The scheduler that runs one task at a time.
use vstd::prelude::*;

use crate::default_scheduler::Round;
use crate::scheduler::{
    by_id, collect_workers, pending_tasks_in_priority_order, place, requests_in_priority_order,
    snapshots, try_schedule_task, WorkerSnapshot,
};
use crate::sort::{reversed, sort, sorted};
use crate::task::{placed, PendingTask, ResourceRequest, ScheduledTask, WorkerId};

verus! {

/// One more task of the queue. Once a task has been placed, the rest stays as it is.
pub open spec fn linear_step<P>(r: Round<P>, task: PendingTask<P>, now: u64) -> Round<P> {
    if r.scheduled.len() > 0 {
        Round { unscheduled: r.unscheduled.push(task), ..r }
    } else if task.cancelled {
        Round { cancelled: r.cancelled.push(task), ..r }
    } else if !task.ready_at(now) {
        Round { unscheduled: r.unscheduled.push(task), ..r }
    } else {
        match place(r.workers, task.task, None) {
            Some(i) => Round {
                workers: r.workers.update(i, r.workers[i].running(task.task)),
                scheduled: r.scheduled.push(placed(task, r.workers[i].worker_id)),
                ..r
            },
            None => Round { unscheduled: r.unscheduled.push(task), ..r },
        }
    }
}

/// A pass over tasks, in their order.
pub open spec fn linear_round<P>(start: Round<P>, tasks: Seq<PendingTask<P>>, now: u64) -> Round<P>
    decreases tasks.len(),
{
    if tasks.len() == 0 {
        start
    } else {
        linear_step(linear_round(start, tasks.drop_last(), now), tasks.last(), now)
    }
}

/// The scheduler that runs one task at a time.
pub struct LinearScheduler<P> {
    pub worker_snapshots: Vec<WorkerSnapshot>,
    pub pending_tasks: Vec<PendingTask<P>>,
}

/// Where a pass over the queue of a scheduler begins.
pub open spec fn linear_start<P>(s: LinearScheduler<P>) -> Round<P> {
    Round {
        workers: snapshots(s.worker_snapshots@),
        warned: Seq::empty(),
        scheduled: Seq::empty(),
        unscheduled: Seq::empty(),
        cancelled: Seq::empty(),
    }
}

impl<P> LinearScheduler<P> {
    /// Whether a task runs somewhere.
    pub open spec fn busy(&self) -> bool {
        exists|i: int|
            0 <= i < self.worker_snapshots@.len() && (#[trigger] self.worker_snapshots@[i]).active@.len()
                > 0
    }

    /// A scheduler without tasks and workers.
    pub fn new() -> (s: LinearScheduler<P>)
        ensures
            s.pending_tasks@.len() == 0,
            s.worker_snapshots@.len() == 0,
    {
        LinearScheduler { worker_snapshots: Vec::new(), pending_tasks: Vec::new() }
    }

    /// Takes in what is known of the workers now.
    pub fn update_worker_state(&mut self, worker_snapshots: &[WorkerSnapshot])
        ensures
            snapshots(final(self).worker_snapshots@) == by_id(snapshots(worker_snapshots@)),
            final(self).pending_tasks == old(self).pending_tasks,
    {
        self.worker_snapshots = collect_workers(worker_snapshots);
    }

    /// Adds tasks to the queue.
    pub fn enqueue_tasks(&mut self, tasks: Vec<PendingTask<P>>)
        ensures
            final(self).pending_tasks@ == old(self).pending_tasks@ + tasks@,
            final(self).worker_snapshots == old(self).worker_snapshots,
    {
        let mut more: Vec<PendingTask<P>> = tasks;
        self.pending_tasks.append(&mut more);
    }

    fn has_active_tasks(&self) -> (b: bool)
        ensures
            b == self.busy(),
    {
        let mut i: usize = 0;
        while i < self.worker_snapshots.len()
            invariant
                i <= self.worker_snapshots@.len(),
                forall|k: int|
                    0 <= k < i ==> (#[trigger] self.worker_snapshots@[k]).active@.len() == 0,
            decreases self.worker_snapshots@.len() - i,
        {
            if self.worker_snapshots[i].active.len() > 0 {
                assert(self.worker_snapshots@[i as int].active@.len() > 0);
                return true;
            }
            i = i + 1;
        }
        false
    }

    /// Places one task at `now`, if none runs anywhere.
    pub fn schedule_tasks(&mut self, now: u64) -> (r: (Vec<ScheduledTask<P>>, Vec<PendingTask<P>>))
        ensures
            old(self).busy() ==> {
                &&& r.0@.len() == 0
                &&& r.1@.len() == 0
                &&& *final(self) == *old(self)
            },
            !old(self).busy() ==> {
                let done = linear_round(
                    linear_start(*old(self)),
                    sorted(old(self).pending_tasks@),
                    now,
                );
                &&& r.0@ == done.scheduled
                &&& r.1@ == done.cancelled
                &&& final(self).pending_tasks@ == done.unscheduled
                &&& snapshots(final(self).worker_snapshots@) == done.workers
            },
    {
        if self.has_active_tasks() {
            return (Vec::new(), Vec::new());
        }
        let ghost start = linear_start(*self);
        let ghost queue = self.pending_tasks@;
        let mut taken: Vec<PendingTask<P>> = Vec::new();
        taken.append(&mut self.pending_tasks);
        assert(taken@ =~= queue);
        let ordered: Vec<PendingTask<P>> = sort(taken);
        let ghost all = ordered@;
        let mut rest: Vec<PendingTask<P>> = reversed(ordered);
        let mut scheduled: Vec<ScheduledTask<P>> = Vec::new();
        let mut unscheduled: Vec<PendingTask<P>> = Vec::new();
        let mut cancelled: Vec<PendingTask<P>> = Vec::new();
        proof {
            assert(all.take(0) =~= Seq::<PendingTask<P>>::empty());
            assert(scheduled@ =~= start.scheduled);
            assert(unscheduled@ =~= start.unscheduled);
            assert(cancelled@ =~= start.cancelled);
        }
        while rest.len() > 0
            invariant
                rest@.len() <= all.len(),
                forall|i: int| 0 <= i < rest@.len() ==> #[trigger] rest@[i] == all[all.len() - 1 - i],
                self.pending_tasks@.len() == 0,
                ({
                    let sofar = linear_round(start, all.take(all.len() - rest@.len()), now);
                    &&& scheduled@ == sofar.scheduled
                    &&& unscheduled@ == sofar.unscheduled
                    &&& cancelled@ == sofar.cancelled
                    &&& snapshots(self.worker_snapshots@) == sofar.workers
                }),
            decreases rest@.len(),
        {
            let ghost n = all.len() - rest@.len();
            let ghost sofar = linear_round(start, all.take(n), now);
            match rest.pop() {
                Some(task) => {
                    proof {
                        assert(all.take(n + 1).drop_last() =~= all.take(n));
                        assert(all.take(n + 1).last() == task);
                        assert(linear_round(start, all.take(n + 1), now) == linear_step(
                            sofar,
                            task,
                            now,
                        ));
                    }
                    if scheduled.len() > 0 {
                        unscheduled.push(task);
                    } else if task.cancelled {
                        cancelled.push(task);
                    } else if !task.is_ready(now) {
                        unscheduled.push(task);
                    } else {
                        let (target, _): (Option<usize>, Option<WorkerId>) = try_schedule_task(
                            &self.worker_snapshots,
                            &task.task,
                            None,
                        );
                        match target {
                            Some(i) => {
                                let ghost workers = self.worker_snapshots@;
                                let worker_id: WorkerId = self.worker_snapshots[i].worker_id;
                                let mut worker: WorkerSnapshot = self.worker_snapshots[i].copy();
                                worker.start(&task.task);
                                let ghost shown = worker@;
                                self.worker_snapshots.set(i, worker);
                                proof {
                                    assert(snapshots(workers)[i as int] == workers[i as int]@);
                                    assert(snapshots(self.worker_snapshots@) =~= snapshots(
                                        workers,
                                    ).update(i as int, shown));
                                }
                                scheduled.push(ScheduledTask::new(task, worker_id));
                            },
                            None => {
                                unscheduled.push(task);
                            },
                        }
                    }
                },
                None => {},
            }
        }
        assert(all.take(all.len() as int) =~= all);
        self.pending_tasks.append(&mut unscheduled);
        (scheduled, cancelled)
    }

    /// How many tasks are in the queue.
    pub fn num_pending_tasks(&self) -> (n: usize)
        ensures
            n == self.pending_tasks@.len(),
    {
        self.pending_tasks.len()
    }

    /// Whether a worker is needed: tasks wait, and there is none.
    pub fn needs_autoscaling(&self) -> (b: bool)
        ensures
            b == (self.pending_tasks@.len() > 0 && self.worker_snapshots@.len() == 0),
    {
        self.pending_tasks.len() > 0 && self.worker_snapshots.len() == 0
    }

    /// What the first task to be placed needs, if a worker is needed; nothing, if every
    /// pending task is cancelled.
    pub fn get_autoscaling_request(&self) -> (r: Option<Vec<ResourceRequest>>)
        ensures
            r is Some <==> (self.pending_tasks@.len() > 0 && self.worker_snapshots@.len() == 0),
            r matches Some(v) ==> {
                let all = requests_in_priority_order(self.pending_tasks@);
                v@ == (if all.len() > 0 { seq![all[0]] } else { all })
            },
    {
        if !self.needs_autoscaling() {
            return None;
        }
        let all: Vec<ResourceRequest> = pending_tasks_in_priority_order(&self.pending_tasks);
        let mut out: Vec<ResourceRequest> = Vec::new();
        if all.len() > 0 {
            out.push(all[0]);
        }
        proof {
            if all@.len() > 0 {
                assert(out@ =~= seq![all@[0]]);
            } else {
                assert(out@ =~= all@);
            }
        }
        Some(out)
    }
}

impl<P> Default for LinearScheduler<P> {
    fn default() -> (s: Self)
        ensures
            s.pending_tasks@.len() == 0,
            s.worker_snapshots@.len() == 0,
    {
        Self::new()
    }
}

/// A pass places at most one task, and loses none.
pub proof fn at_most_one_task<P>(start: Round<P>, tasks: Seq<PendingTask<P>>, now: u64)
    requires
        start.scheduled.len() == 0,
    ensures
        ({
            let done = linear_round(start, tasks, now);
            &&& done.scheduled.len() <= 1
            &&& done.scheduled.len() + done.unscheduled.len() + done.cancelled.len()
                == start.unscheduled.len() + start.cancelled.len() + tasks.len()
        }),
    decreases tasks.len(),
{
    if tasks.len() > 0 {
        at_most_one_task(start, tasks.drop_last(), now);
    }
}

/// Whether a task can be placed now.
pub open spec fn can_go<P>(
    t: PendingTask<P>,
    now: u64,
    workers: Seq<crate::scheduler::Snapshot>,
) -> bool {
    &&& !t.cancelled
    &&& t.not_before is Some ==> now >= t.not_before->0
    &&& place(workers, t.task, None) is Some
}

proof fn lemma_none_goes<P>(
    start: Round<P>,
    tasks: Seq<PendingTask<P>>,
    now: u64,
    is_cancelled: spec_fn(PendingTask<P>) -> bool,
    is_not: spec_fn(PendingTask<P>) -> bool,
)
    requires
        start.scheduled.len() == 0,
        forall|i: int| 0 <= i < tasks.len() ==> !can_go(#[trigger] tasks[i], now, start.workers),
        forall|t: PendingTask<P>| #[trigger] is_cancelled(t) == t.cancelled,
        forall|t: PendingTask<P>| #[trigger] is_not(t) == !t.cancelled,
    ensures
        ({
            let done = linear_round(start, tasks, now);
            &&& done.scheduled == start.scheduled
            &&& done.workers == start.workers
            &&& done.cancelled == start.cancelled + tasks.filter(is_cancelled)
            &&& done.unscheduled == start.unscheduled + tasks.filter(is_not)
        }),
    decreases tasks.len(),
{
    reveal(Seq::filter);
    let done = linear_round(start, tasks, now);
    if tasks.len() > 0 {
        let before = tasks.drop_last();
        assert forall|i: int| 0 <= i < before.len() implies !can_go(
            #[trigger] before[i],
            now,
            start.workers,
        ) by {
            assert(before[i] == tasks[i]);
        }
        lemma_none_goes(start, before, now, is_cancelled, is_not);
        assert(!can_go(tasks[tasks.len() - 1], now, start.workers));
        assert(done.cancelled =~= start.cancelled + tasks.filter(is_cancelled));
        assert(done.unscheduled =~= start.unscheduled + tasks.filter(is_not));
    } else {
        assert(done.cancelled =~= start.cancelled + tasks.filter(is_cancelled));
        assert(done.unscheduled =~= start.unscheduled + tasks.filter(is_not));
    }
}

proof fn lemma_rest_stays<P>(start: Round<P>, tasks: Seq<PendingTask<P>>, now: u64)
    requires
        start.scheduled.len() > 0,
    ensures
        ({
            let done = linear_round(start, tasks, now);
            &&& done.scheduled == start.scheduled
            &&& done.workers == start.workers
            &&& done.cancelled == start.cancelled
            &&& done.unscheduled == start.unscheduled + tasks
        }),
    decreases tasks.len(),
{
    let done = linear_round(start, tasks, now);
    if tasks.len() > 0 {
        lemma_rest_stays(start, tasks.drop_last(), now);
    }
    assert(done.unscheduled =~= start.unscheduled + tasks);
}

proof fn lemma_rounds_join<P>(
    start: Round<P>,
    first: Seq<PendingTask<P>>,
    second: Seq<PendingTask<P>>,
    now: u64,
)
    ensures
        linear_round(start, first + second, now) == linear_round(
            linear_round(start, first, now),
            second,
            now,
        ),
    decreases second.len(),
{
    if second.len() == 0 {
        assert(first + second =~= first);
    } else {
        lemma_rounds_join(start, first, second.drop_last(), now);
        assert((first + second).drop_last() =~= first + second.drop_last());
        assert((first + second).last() == second.last());
    }
}

/// The first task that can be placed is, and it alone. Of those before it, the cancelled ones are
/// taken out and the others stay; all behind it stay as they are.
pub proof fn first_that_can_go_goes<P>(
    start: Round<P>,
    tasks: Seq<PendingTask<P>>,
    now: u64,
    i: int,
)
    requires
        start.scheduled.len() == 0,
        0 <= i < tasks.len(),
        can_go(tasks[i], now, start.workers),
        forall|j: int| 0 <= j < i ==> !can_go(#[trigger] tasks[j], now, start.workers),
    ensures
        ({
            let done = linear_round(start, tasks, now);
            let w = place(start.workers, tasks[i].task, None)->0;
            &&& done.scheduled == seq![placed(tasks[i], start.workers[w].worker_id)]
            &&& done.workers == start.workers.update(w, start.workers[w].running(tasks[i].task))
            &&& done.cancelled == start.cancelled + tasks.take(i).filter(
                |t: PendingTask<P>| t.cancelled,
            )
            &&& done.unscheduled == start.unscheduled + tasks.take(i).filter(
                |t: PendingTask<P>| !t.cancelled,
            ) + tasks.skip(i + 1)
        }),
{
    let is_cancelled = |t: PendingTask<P>| t.cancelled;
    let is_not = |t: PendingTask<P>| !t.cancelled;
    let before = tasks.take(i);
    assert forall|j: int| 0 <= j < before.len() implies !can_go(
        #[trigger] before[j],
        now,
        start.workers,
    ) by {
        assert(before[j] == tasks[j]);
    }
    lemma_none_goes(start, before, now, is_cancelled, is_not);
    let upto = tasks.take(i + 1);
    assert(upto.drop_last() =~= before);
    assert(upto.last() == tasks[i]);
    let mid = linear_round(start, upto, now);
    let w = place(start.workers, tasks[i].task, None)->0;
    assert(mid.scheduled =~= seq![placed(tasks[i], start.workers[w].worker_id)]);
    lemma_rounds_join(start, upto, tasks.skip(i + 1), now);
    assert(upto + tasks.skip(i + 1) =~= tasks);
    lemma_rest_stays(mid, tasks.skip(i + 1), now);
}

/// Where no task can be placed, none is: the cancelled ones are taken out and the others stay.
pub proof fn nothing_goes_where_nothing_can<P>(
    start: Round<P>,
    tasks: Seq<PendingTask<P>>,
    now: u64,
)
    requires
        start.scheduled.len() == 0,
        forall|i: int| 0 <= i < tasks.len() ==> !can_go(#[trigger] tasks[i], now, start.workers),
    ensures
        ({
            let done = linear_round(start, tasks, now);
            &&& done.scheduled.len() == 0
            &&& done.workers == start.workers
            &&& done.cancelled == start.cancelled + tasks.filter(|t: PendingTask<P>| t.cancelled)
            &&& done.unscheduled == start.unscheduled + tasks.filter(
                |t: PendingTask<P>| !t.cancelled,
            )
        }),
{
    lemma_none_goes(
        start,
        tasks,
        now,
        |t: PendingTask<P>| t.cancelled,
        |t: PendingTask<P>| !t.cancelled,
    );
}

/// Nothing runs exactly where no worker has an active task.
pub proof fn one_active_task_keeps_all_waiting<P>(s: LinearScheduler<P>)
    ensures
        !s.busy() <==> forall|i: int|
            0 <= i < s.worker_snapshots@.len() ==> (#[trigger] s.worker_snapshots@[i]).active@.len()
                == 0,
{
    if !s.busy() {
        assert forall|i: int| 0 <= i < s.worker_snapshots@.len() implies (
        #[trigger] s.worker_snapshots@[i]).active@.len() == 0 by {}
    }
}

/// A pass begins with the workers as they are known, and with nothing placed, left or taken out.
pub proof fn linear_passes_begin_empty<P>(s: LinearScheduler<P>, w: int)
    ensures
        linear_start(s).workers.len() == s.worker_snapshots@.len(),
        0 <= w < s.worker_snapshots@.len() ==> linear_start(s).workers[w]
            == s.worker_snapshots@[w]@,
        linear_start(s).scheduled.len() == 0,
        linear_start(s).unscheduled.len() == 0,
        linear_start(s).cancelled.len() == 0,
{
}

} // verus!
