//! The scheduler that fills every worker, highest priorities first.
use vstd::multiset::Multiset;
use vstd::prelude::*;

use crate::scheduler::{
    by_id, collect_workers, fitting_tasks_do_not_overload, missing_target,
    pending_tasks_in_priority_order, place, placement_fits, position, requests_in_priority_order,
    snapshots, try_schedule_task, Snapshot, WorkerSnapshot,
};
use crate::sort::{reversed, sort, sorted};
use crate::task::{
    deferred, placed, told, PendingTask, ResourceRequest, ScheduledTask, WorkerId,
};

verus! {

/// The autoscaling threshold that is used unless another is configured, in thousandths.
pub const DEFAULT_AUTOSCALING_THRESHOLD: u32 = 1250;

/// A pass over the queue, so far.
pub struct Round<P> {
    pub workers: Seq<Snapshot>,
    /// The missing workers that have been reported.
    pub warned: Seq<WorkerId>,
    pub scheduled: Seq<ScheduledTask<P>>,
    pub unscheduled: Seq<PendingTask<P>>,
    pub cancelled: Seq<PendingTask<P>>,
}

/// A reported worker added, once.
pub open spec fn with_warning(warned: Seq<WorkerId>, missing: Option<WorkerId>) -> Seq<WorkerId> {
    match missing {
        Some(id) => if warned.contains(id) { warned } else { warned.push(id) },
        None => warned,
    }
}

/// One more task of the queue: a cancelled one is taken out, one that still waits stays, any
/// other is placed if it can be and stays otherwise.
pub open spec fn round_step<P>(r: Round<P>, task: PendingTask<P>, now: u64) -> Round<P> {
    if task.cancelled {
        Round { cancelled: r.cancelled.push(task), ..r }
    } else if !task.ready_at(now) {
        Round { unscheduled: r.unscheduled.push(task), ..r }
    } else {
        let warned = with_warning(r.warned, missing_target(r.workers, task.task));
        match place(r.workers, task.task, task.avoid_worker) {
            Some(i) => Round {
                workers: r.workers.update(i, r.workers[i].running(task.task)),
                warned,
                scheduled: r.scheduled.push(placed(task, r.workers[i].worker_id)),
                ..r
            },
            None => Round { warned, unscheduled: r.unscheduled.push(task), ..r },
        }
    }
}

/// A pass over tasks, in their order.
pub open spec fn round<P>(start: Round<P>, tasks: Seq<PendingTask<P>>, now: u64) -> Round<P>
    decreases tasks.len(),
{
    if tasks.len() == 0 {
        start
    } else {
        round_step(round(start, tasks.drop_last(), now), tasks.last(), now)
    }
}

/// The whole processors of workers.
pub open spec fn capacity(workers: Seq<Snapshot>) -> nat
    decreases workers.len(),
{
    if workers.len() == 0 {
        0
    } else {
        capacity(workers.drop_last()) + workers.last().total_num_cpus as nat / 1000
    }
}

/// The scheduler that fills every worker.
pub struct DefaultScheduler<P> {
    pub pending_tasks: Vec<PendingTask<P>>,
    pub worker_snapshots: Vec<WorkerSnapshot>,
    /// How many tasks may be pending for each whole processor, in thousandths.
    pub autoscaling_threshold: u32,
    /// Missing workers that have been reported, so that each is reported once.
    pub warned_missing_affinity_targets: Vec<WorkerId>,
}

/// Where a pass over the queue of a scheduler begins.
pub open spec fn round_start<P>(s: DefaultScheduler<P>) -> Round<P> {
    Round {
        workers: snapshots(s.worker_snapshots@),
        warned: s.warned_missing_affinity_targets@,
        scheduled: Seq::empty(),
        unscheduled: Seq::empty(),
        cancelled: Seq::empty(),
    }
}

/// The reported workers that are still missing.
pub open spec fn still_missing(warned: Seq<WorkerId>, workers: Seq<Snapshot>) -> Seq<WorkerId>
    decreases warned.len(),
{
    if warned.len() == 0 {
        warned
    } else if position(workers, warned.last()) is None {
        still_missing(warned.drop_last(), workers).push(warned.last())
    } else {
        still_missing(warned.drop_last(), workers)
    }
}

fn contains_id(ids: &Vec<WorkerId>, id: WorkerId) -> (b: bool)
    ensures
        b == ids@.contains(id),
{
    let mut i: usize = 0;
    while i < ids.len()
        invariant
            i <= ids@.len(),
            forall|k: int| 0 <= k < i ==> #[trigger] ids@[k] != id,
        decreases ids@.len() - i,
    {
        if ids[i] == id {
            return true;
        }
        i = i + 1;
    }
    false
}

impl<P> DefaultScheduler<P> {
    /// A scheduler without tasks and workers, with the default threshold.
    pub fn new() -> (s: DefaultScheduler<P>)
        ensures
            s.pending_tasks@.len() == 0,
            s.worker_snapshots@.len() == 0,
            s.autoscaling_threshold == DEFAULT_AUTOSCALING_THRESHOLD,
            s.warned_missing_affinity_targets@.len() == 0,
    {
        Self::with_autoscaling_threshold(DEFAULT_AUTOSCALING_THRESHOLD)
    }

    /// A scheduler without tasks and workers. The threshold is at least one task for each
    /// processor.
    pub fn with_autoscaling_threshold(threshold: u32) -> (s: DefaultScheduler<P>)
        requires
            threshold >= 1000,
        ensures
            s.pending_tasks@.len() == 0,
            s.worker_snapshots@.len() == 0,
            s.autoscaling_threshold == threshold,
            s.warned_missing_affinity_targets@.len() == 0,
    {
        DefaultScheduler {
            pending_tasks: Vec::new(),
            worker_snapshots: Vec::new(),
            autoscaling_threshold: threshold,
            warned_missing_affinity_targets: Vec::new(),
        }
    }

    /// Adds tasks to the queue.
    pub fn enqueue_tasks(&mut self, tasks: Vec<PendingTask<P>>)
        ensures
            final(self).pending_tasks@ == old(self).pending_tasks@ + tasks@,
            final(self).worker_snapshots == old(self).worker_snapshots,
            final(self).autoscaling_threshold == old(self).autoscaling_threshold,
            final(self).warned_missing_affinity_targets
                == old(self).warned_missing_affinity_targets,
    {
        let mut more: Vec<PendingTask<P>> = tasks;
        self.pending_tasks.append(&mut more);
    }

    /// Places what can be placed at `now`, and takes cancelled tasks out of the queue.
    pub fn schedule_tasks(&mut self, now: u64) -> (r: (Vec<ScheduledTask<P>>, Vec<PendingTask<P>>))
        ensures
            ({
                let done = round(round_start(*old(self)), sorted(old(self).pending_tasks@), now);
                &&& r.0@ == done.scheduled
                &&& r.1@ == done.cancelled
                &&& final(self).pending_tasks@ == done.unscheduled
                &&& snapshots(final(self).worker_snapshots@) == done.workers
                &&& final(self).warned_missing_affinity_targets@ == done.warned
                &&& final(self).autoscaling_threshold == old(self).autoscaling_threshold
            }),
    {
        let ghost start = round_start(*self);
        let ghost queue = self.pending_tasks@;
        let ghost threshold = self.autoscaling_threshold;
        let mut taken: Vec<PendingTask<P>> = Vec::new();
        taken.append(&mut self.pending_tasks);
        assert(taken@ =~= queue);
        let ordered: Vec<PendingTask<P>> = sort(taken);
        let ghost all = ordered@;
        let mut rest: Vec<PendingTask<P>> = reversed(ordered);
        let mut scheduled: Vec<ScheduledTask<P>> = Vec::new();
        let mut unscheduled: Vec<PendingTask<P>> = Vec::new();
        let mut cancelled: Vec<PendingTask<P>> = Vec::new();
        proof {
            assert(all.take(0) =~= Seq::<PendingTask<P>>::empty());
            assert(scheduled@ =~= start.scheduled);
            assert(unscheduled@ =~= start.unscheduled);
            assert(cancelled@ =~= start.cancelled);
        }
        while rest.len() > 0
            invariant
                rest@.len() <= all.len(),
                forall|i: int| 0 <= i < rest@.len() ==> #[trigger] rest@[i] == all[all.len() - 1 - i],
                self.autoscaling_threshold == threshold,
                self.pending_tasks@.len() == 0,
                ({
                    let sofar = round(start, all.take(all.len() - rest@.len()), now);
                    &&& scheduled@ == sofar.scheduled
                    &&& unscheduled@ == sofar.unscheduled
                    &&& cancelled@ == sofar.cancelled
                    &&& snapshots(self.worker_snapshots@) == sofar.workers
                    &&& self.warned_missing_affinity_targets@ == sofar.warned
                }),
            decreases rest@.len(),
        {
            let ghost n = all.len() - rest@.len();
            let ghost sofar = round(start, all.take(n), now);
            match rest.pop() {
                Some(task) => {
                    proof {
                        assert(all.take(n + 1).drop_last() =~= all.take(n));
                        assert(all.take(n + 1).last() == task);
                        assert(round(start, all.take(n + 1), now) == round_step(sofar, task, now));
                    }
                    if task.cancelled {
                        cancelled.push(task);
                    } else if !task.is_ready(now) {
                        unscheduled.push(task);
                    } else {
                        let (target, missing): (Option<usize>, Option<WorkerId>) = try_schedule_task(
                            &self.worker_snapshots,
                            &task.task,
                            task.avoid_worker,
                        );
                        match missing {
                            Some(id) => {
                                if !contains_id(&self.warned_missing_affinity_targets, id) {
                                    self.warned_missing_affinity_targets.push(id);
                                }
                            },
                            None => {},
                        }
                        match target {
                            Some(i) => {
                                let ghost workers = self.worker_snapshots@;
                                let worker_id: WorkerId = self.worker_snapshots[i].worker_id;
                                let mut worker: WorkerSnapshot = self.worker_snapshots[i].copy();
                                worker.start(&task.task);
                                let ghost shown = worker@;
                                self.worker_snapshots.set(i, worker);
                                proof {
                                    assert(snapshots(workers)[i as int] == workers[i as int]@);
                                    assert(snapshots(self.worker_snapshots@) =~= snapshots(
                                        workers,
                                    ).update(i as int, shown));
                                }
                                scheduled.push(ScheduledTask::new(task, worker_id));
                            },
                            None => {
                                unscheduled.push(task);
                            },
                        }
                    }
                },
                None => {},
            }
        }
        assert(all.take(all.len() as int) =~= all);
        self.pending_tasks.append(&mut unscheduled);
        (scheduled, cancelled)
    }

    /// Takes in what is known of the workers now. A worker that is back can be reported as
    /// missing again.
    pub fn update_worker_state(&mut self, worker_snapshots: &[WorkerSnapshot])
        ensures
            snapshots(final(self).worker_snapshots@) == by_id(snapshots(worker_snapshots@)),
            final(self).warned_missing_affinity_targets@ == still_missing(
                old(self).warned_missing_affinity_targets@,
                by_id(snapshots(worker_snapshots@)),
            ),
            final(self).pending_tasks == old(self).pending_tasks,
            final(self).autoscaling_threshold == old(self).autoscaling_threshold,
    {
        let workers: Vec<WorkerSnapshot> = collect_workers(worker_snapshots);
        let ghost shown = snapshots(workers@);
        let mut kept: Vec<WorkerId> = Vec::new();
        let mut i: usize = 0;
        let ghost warned = self.warned_missing_affinity_targets@;
        assert(warned.take(0) =~= Seq::<WorkerId>::empty());
        assert(kept@ =~= still_missing(warned.take(0), shown));
        while i < self.warned_missing_affinity_targets.len()
            invariant
                i <= warned.len(),
                warned == self.warned_missing_affinity_targets@,
                shown == snapshots(workers@),
                kept@ == still_missing(warned.take(i as int), shown),
            decreases warned.len() - i,
        {
            let id: WorkerId = self.warned_missing_affinity_targets[i];
            proof {
                assert(warned.take(i + 1).drop_last() =~= warned.take(i as int));
                assert(warned.take(i + 1).last() == id);
            }
            if crate::scheduler::find_worker(&workers, id).is_none() {
                kept.push(id);
            }
            i = i + 1;
        }
        assert(warned.take(warned.len() as int) =~= warned);
        self.warned_missing_affinity_targets = kept;
        self.worker_snapshots = workers;
    }

    /// How many tasks are in the queue.
    pub fn num_pending_tasks(&self) -> (n: usize)
        ensures
            n == self.pending_tasks@.len(),
    {
        self.pending_tasks.len()
    }

    /// Whether more workers are needed: tasks wait, and there is no worker, or more tasks wait
    /// for each processor than the threshold allows.
    pub open spec fn wants_workers(&self) -> bool {
        &&& self.pending_tasks@.len() > 0
        &&& {
            ||| self.worker_snapshots@.len() == 0
            ||| self.pending_tasks@.len() * 1000 > self.autoscaling_threshold * capacity(
                snapshots(self.worker_snapshots@),
            )
        }
    }

    /// Whether more workers are needed.
    pub fn needs_autoscaling(&self) -> (b: bool)
        ensures
            b == self.wants_workers(),
    {
        if self.pending_tasks.len() == 0 {
            return false;
        }
        if self.worker_snapshots.len() == 0 {
            return true;
        }
        let ghost all = snapshots(self.worker_snapshots@);
        let mut total: u128 = 0;
        let mut i: usize = 0;
        assert(all.take(0) =~= Seq::<Snapshot>::empty());
        while i < self.worker_snapshots.len()
            invariant
                i <= self.worker_snapshots@.len(),
                all == snapshots(self.worker_snapshots@),
                total == capacity(all.take(i as int)),
                total <= i * 0xffff_ffff,
            decreases self.worker_snapshots@.len() - i,
        {
            proof {
                assert(all.take(i + 1).drop_last() =~= all.take(i as int));
                assert(all.take(i + 1).last() == self.worker_snapshots@[i as int]@);
            }
            total = total + (self.worker_snapshots[i].total_num_cpus / 1000) as u128;
            i = i + 1;
        }
        assert(all.take(all.len() as int) =~= all);
        let pending: u128 = self.pending_tasks.len() as u128;
        let threshold: u128 = self.autoscaling_threshold as u128;
        proof {
            assert(total <= 0xffff_ffff_ffff_ffff * 0xffff_ffff) by (nonlinear_arith)
                requires
                    total <= i * 0xffff_ffff,
                    i <= 0xffff_ffff_ffff_ffff,
            ;
            assert(threshold * total <= 0xffff_ffff * (0xffff_ffff_ffff_ffff * 0xffff_ffff))
                by (nonlinear_arith)
                requires
                    threshold <= 0xffff_ffff,
                    total <= 0xffff_ffff_ffff_ffff * 0xffff_ffff,
            ;
        }
        pending * 1000 > threshold * total
    }

    /// What the pending tasks need, highest priorities first, if more workers are needed.
    pub fn get_autoscaling_request(&self) -> (r: Option<Vec<ResourceRequest>>)
        ensures
            r is Some <==> self.wants_workers(),
            r matches Some(v) ==> v@ == requests_in_priority_order(self.pending_tasks@),
    {
        if self.needs_autoscaling() {
            Some(pending_tasks_in_priority_order(&self.pending_tasks))
        } else {
            None
        }
    }
}

impl<P> Default for DefaultScheduler<P> {
    fn default() -> (s: Self)
        ensures
            s.pending_tasks@.len() == 0,
            s.worker_snapshots@.len() == 0,
            s.autoscaling_threshold == DEFAULT_AUTOSCALING_THRESHOLD,
            s.warned_missing_affinity_targets@.len() == 0,
    {
        Self::new()
    }
}

/// The tasks of a pass, wherever they have got to.
pub open spec fn tasks_in<P>(r: Round<P>) -> Multiset<PendingTask<P>> {
    r.scheduled.map_values(|t: ScheduledTask<P>| deferred(t)).to_multiset().add(
        r.unscheduled.map_values(|t: PendingTask<P>| told(t)).to_multiset(),
    ).add(r.cancelled.map_values(|t: PendingTask<P>| told(t)).to_multiset())
}

/// A pass loses no task and doubles none: each ends up placed, still pending, or taken out, with
/// all that is known of it.
pub proof fn round_keeps_tasks<P>(start: Round<P>, tasks: Seq<PendingTask<P>>, now: u64)
    ensures
        tasks_in(round(start, tasks, now)) == tasks_in(start).add(
            tasks.map_values(|t: PendingTask<P>| told(t)).to_multiset(),
        ),
    decreases tasks.len(),
{
    broadcast use vstd::seq_lib::group_to_multiset_ensures;

    let as_told = |t: PendingTask<P>| told(t);
    let as_deferred = |t: ScheduledTask<P>| deferred(t);
    if tasks.len() > 0 {
        round_keeps_tasks(start, tasks.drop_last(), now);
        let before = round(start, tasks.drop_last(), now);
        let after = round(start, tasks, now);
        let task = tasks.last();
        assert(tasks.map_values(as_told) =~= tasks.drop_last().map_values(as_told).push(
            told(task),
        ));
        if after.scheduled.len() > before.scheduled.len() {
            assert(after.scheduled.map_values(as_deferred) =~= before.scheduled.map_values(
                as_deferred,
            ).push(told(task)));
        } else if after.unscheduled.len() > before.unscheduled.len() {
            assert(after.unscheduled.map_values(as_told) =~= before.unscheduled.map_values(
                as_told,
            ).push(told(task)));
        } else {
            assert(after.cancelled.map_values(as_told) =~= before.cancelled.map_values(
                as_told,
            ).push(told(task)));
        }
        assert(tasks_in(after) =~= tasks_in(before).insert(told(task)));
        assert(tasks_in(after) =~= tasks_in(start).add(tasks.map_values(as_told).to_multiset()));
    } else {
        assert(tasks.map_values(as_told).to_multiset() =~= Multiset::empty());
        assert(tasks_in(start) =~= tasks_in(start).add(tasks.map_values(as_told).to_multiset()));
    }
}

/// Workers never get more tasks than they have processors for.
pub proof fn workers_are_not_overloaded<P>(start: Round<P>, tasks: Seq<PendingTask<P>>, now: u64)
    requires
        forall|w: int|
            0 <= w < start.workers.len() ==> (#[trigger] start.workers[w]).free_cpus() >= 0,
    ensures
        forall|w: int|
            0 <= w < round(start, tasks, now).workers.len() ==> (#[trigger] round(
                start,
                tasks,
                now,
            ).workers[w]).free_cpus() >= 0,
    decreases tasks.len(),
{
    if tasks.len() > 0 {
        let before = round(start, tasks.drop_last(), now);
        let task = tasks.last();
        workers_are_not_overloaded(start, tasks.drop_last(), now);
        placement_fits(before.workers, task.task, task.avoid_worker);
        if let Some(i) = place(before.workers, task.task, task.avoid_worker) {
            fitting_tasks_do_not_overload(before.workers[i], task.task);
        }
    }
}

/// Whether a task was taken from among others and placed on one of the workers.
pub open spec fn placed_from<P>(
    t: ScheduledTask<P>,
    tasks: Seq<PendingTask<P>>,
    now: u64,
    workers: Seq<Snapshot>,
) -> bool {
    exists|i: int, w: int|
        0 <= i < tasks.len() && 0 <= w < workers.len() && t == placed(
            #[trigger] tasks[i],
            (#[trigger] workers[w]).worker_id,
        ) && !tasks[i].cancelled && tasks[i].ready_at(now)
}

/// A pass changes what runs on workers, never which workers there are. Every task that it
/// places is one of the queue that is neither cancelled nor waiting, on one of the workers.
pub proof fn round_places_from_queue<P>(start: Round<P>, tasks: Seq<PendingTask<P>>, now: u64)
    requires
        start.scheduled.len() == 0,
    ensures
        ({
            let done = round(start, tasks, now);
            &&& done.workers.len() == start.workers.len()
            &&& forall|w: int|
                0 <= w < start.workers.len() ==> (#[trigger] done.workers[w]).worker_id
                    == start.workers[w].worker_id
            &&& forall|k: int|
                0 <= k < done.scheduled.len() ==> placed_from(
                    #[trigger] done.scheduled[k],
                    tasks,
                    now,
                    start.workers,
                )
        }),
    decreases tasks.len(),
{
    if tasks.len() > 0 {
        let before = tasks.drop_last();
        round_places_from_queue(start, before, now);
        let r = round(start, before, now);
        let task = tasks.last();
        let done = round(start, tasks, now);
        assert(tasks[tasks.len() - 1] == task);
        if !task.cancelled && task.ready_at(now) {
            placement_fits(r.workers, task.task, task.avoid_worker);
        }
        assert forall|k: int| 0 <= k < done.scheduled.len() implies placed_from(
            #[trigger] done.scheduled[k],
            tasks,
            now,
            start.workers,
        ) by {
            if k < r.scheduled.len() {
                assert(done.scheduled[k] == r.scheduled[k]);
                let (i, w) = choose|i: int, w: int|
                    0 <= i < before.len() && 0 <= w < start.workers.len() && r.scheduled[k]
                        == placed(#[trigger] before[i], (#[trigger] start.workers[w]).worker_id)
                        && !before[i].cancelled && before[i].ready_at(now);
                assert(tasks[i] == before[i]);
            } else {
                let w = place(r.workers, task.task, task.avoid_worker)->0;
                assert(r.workers[w].worker_id == start.workers[w].worker_id);
            }
        }
    }
}

/// The queue is gone through with the highest priority first, and tasks of one priority in the
/// order in which they came; no task is left out and none comes twice.
pub proof fn higher_priorities_come_first<P>(pending: Seq<PendingTask<P>>, priority: u64)
    ensures
        sorted(pending).to_multiset() == pending.to_multiset(),
        forall|i: int, j: int|
            #![trigger sorted(pending)[i], sorted(pending)[j]]
            0 <= i <= j < sorted(pending).len() ==> sorted(pending)[i].task.priority >= sorted(
                pending,
            )[j].task.priority,
        sorted(pending).filter(|t: PendingTask<P>| t.task.priority == priority) == pending.filter(
            |t: PendingTask<P>| t.task.priority == priority,
        ),
{
    let all = sorted(pending);
    crate::sort::sorted_is_sorted(pending);
    assert forall|i: int, j: int|
        #![trigger all[i], all[j]]
        0 <= i <= j < all.len() implies all[i].task.priority >= all[j].task.priority by {
        assert(crate::sort::Keyed::spec_key(&all[i]) <= crate::sort::Keyed::spec_key(&all[j]));
    }
    crate::sort::sorting_is_stable(pending, -(priority as int));
    let by_key = |t: PendingTask<P>| crate::sort::Keyed::spec_key(&t) == -(priority as int);
    let by_priority = |t: PendingTask<P>| t.task.priority == priority;
    assert(by_key =~= by_priority);
}

/// Every task gets its turn, in order. A cancelled one is taken out and one that still waits
/// stays; any other goes where there is a place for it, and is counted there from then on, or
/// stays where there is none.
pub proof fn every_task_gets_its_turn<P>(
    start: Round<P>,
    tasks: Seq<PendingTask<P>>,
    now: u64,
    i: int,
)
    requires
        0 <= i < tasks.len(),
    ensures
        ({
            let before = round(start, tasks.take(i), now);
            let after = round(start, tasks.take(i + 1), now);
            let t = tasks[i];
            let waits = t.not_before is Some && now < t.not_before->0;
            &&& t.cancelled ==> {
                &&& after.cancelled == before.cancelled.push(t)
                &&& after.scheduled == before.scheduled
                &&& after.unscheduled == before.unscheduled
                &&& after.workers == before.workers
            }
            &&& !t.cancelled && waits ==> {
                &&& after.cancelled == before.cancelled
                &&& after.scheduled == before.scheduled
                &&& after.unscheduled == before.unscheduled.push(t)
                &&& after.workers == before.workers
            }
            &&& !t.cancelled && !waits ==> match place(before.workers, t.task, t.avoid_worker) {
                None => {
                    &&& after.cancelled == before.cancelled
                    &&& after.scheduled == before.scheduled
                    &&& after.unscheduled == before.unscheduled.push(t)
                    &&& after.workers == before.workers
                },
                Some(w) => {
                    &&& after.cancelled == before.cancelled
                    &&& after.scheduled == before.scheduled.push(
                        placed(t, before.workers[w].worker_id),
                    )
                    &&& after.unscheduled == before.unscheduled
                    &&& after.workers == before.workers.update(w, before.workers[w].running(t.task))
                },
            }
        }),
{
    assert(tasks.take(i + 1).drop_last() =~= tasks.take(i));
    assert(tasks.take(i + 1).last() == tasks[i]);
}

/// Exactly the cancelled tasks are taken out of the queue.
pub proof fn cancelled_tasks_are_taken_out<P>(
    start: Round<P>,
    tasks: Seq<PendingTask<P>>,
    now: u64,
)
    ensures
        round(start, tasks, now).cancelled == start.cancelled + tasks.filter(
            |t: PendingTask<P>| t.cancelled,
        ),
    decreases tasks.len(),
{
    lemma_cancelled(start, tasks, now, |t: PendingTask<P>| t.cancelled);
}

proof fn lemma_cancelled<P>(
    start: Round<P>,
    tasks: Seq<PendingTask<P>>,
    now: u64,
    is_cancelled: spec_fn(PendingTask<P>) -> bool,
)
    requires
        forall|t: PendingTask<P>| #[trigger] is_cancelled(t) == t.cancelled,
    ensures
        round(start, tasks, now).cancelled == start.cancelled + tasks.filter(is_cancelled),
    decreases tasks.len(),
{
    reveal(Seq::filter);
    if tasks.len() > 0 {
        lemma_cancelled(start, tasks.drop_last(), now, is_cancelled);
        assert(round(start, tasks, now).cancelled =~= start.cancelled + tasks.filter(is_cancelled));
    } else {
        assert(start.cancelled + tasks.filter(is_cancelled) =~= start.cancelled);
    }
}

proof fn lemma_ids_stay<P>(start: Round<P>, tasks: Seq<PendingTask<P>>, now: u64)
    ensures
        round(start, tasks, now).workers.len() == start.workers.len(),
        forall|w: int|
            0 <= w < start.workers.len() ==> (#[trigger] round(start, tasks, now).workers[w]).worker_id
                == start.workers[w].worker_id,
    decreases tasks.len(),
{
    if tasks.len() > 0 {
        lemma_ids_stay(start, tasks.drop_last(), now);
        let r = round(start, tasks.drop_last(), now);
        placement_fits(r.workers, tasks.last().task, tasks.last().avoid_worker);
    }
}

/// Whether a task is bound to a worker that is not there, and its turn has come.
pub open spec fn misses<P>(
    t: PendingTask<P>,
    now: u64,
    workers: Seq<Snapshot>,
    target: WorkerId,
) -> bool {
    &&& !t.cancelled
    &&& t.not_before is Some ==> now >= t.not_before->0
    &&& t.task.strategy is WorkerAffinity
    &&& t.task.strategy->worker_id == target
    &&& forall|w: int| 0 <= w < workers.len() ==> (#[trigger] workers[w]).worker_id != target
}

/// A missing worker is reported as soon as the turn of a task comes that is bound to it, and no
/// worker is reported for any other reason.
pub proof fn missing_workers_are_reported<P>(
    start: Round<P>,
    tasks: Seq<PendingTask<P>>,
    now: u64,
    target: WorkerId,
)
    ensures
        round(start, tasks, now).warned.contains(target) <==> start.warned.contains(target) || exists|
            i: int,
        |
            0 <= i < tasks.len() && misses(#[trigger] tasks[i], now, start.workers, target),
    decreases tasks.len(),
{
    if tasks.len() > 0 {
        let before = tasks.drop_last();
        let last = tasks.last();
        missing_workers_are_reported(start, before, now, target);
        lemma_ids_stay(start, before, now);
        let r = round(start, before, now);
        let after = round(start, tasks, now);
        crate::scheduler::missing_targets_are_absent(r.workers, last.task, target);
        assert(misses(last, now, r.workers, target) <==> misses(last, now, start.workers, target)) by {
            assert forall|w: int| 0 <= w < start.workers.len() implies (
            #[trigger] start.workers[w]).worker_id == r.workers[w].worker_id by {}
        }
        assert(after.warned.contains(target) <==> r.warned.contains(target) || misses(
            last,
            now,
            r.workers,
            target,
        )) by {
            let missing = missing_target(r.workers, last.task);
            if !last.cancelled && last.ready_at(now) && missing is Some {
                let id = missing->0;
                crate::scheduler::missing_targets_are_absent(r.workers, last.task, id);
                if !r.warned.contains(id) {
                    assert(after.warned =~= r.warned.push(id));
                    assert(after.warned[r.warned.len() as int] == id);
                    if r.warned.contains(target) {
                        let p = choose|p: int| 0 <= p < r.warned.len() && r.warned[p] == target;
                        assert(after.warned[p] == target);
                    }
                }
            }
        }
        if exists|i: int|
            0 <= i < before.len() && misses(#[trigger] before[i], now, start.workers, target) {
            let i = choose|i: int|
                0 <= i < before.len() && misses(#[trigger] before[i], now, start.workers, target);
            assert(tasks[i] == before[i]);
        }
        if misses(last, now, start.workers, target) {
            assert(tasks[tasks.len() - 1] == last);
        }
        if exists|i: int|
            0 <= i < tasks.len() && misses(#[trigger] tasks[i], now, start.workers, target) {
            let i = choose|i: int|
                0 <= i < tasks.len() && misses(#[trigger] tasks[i], now, start.workers, target);
            if i < before.len() {
                assert(before[i] == tasks[i]);
            }
        }
    }
}

/// Each missing worker is reported once.
pub proof fn missing_workers_are_reported_once<P>(
    start: Round<P>,
    tasks: Seq<PendingTask<P>>,
    now: u64,
)
    requires
        start.warned.no_duplicates(),
    ensures
        round(start, tasks, now).warned.no_duplicates(),
    decreases tasks.len(),
{
    if tasks.len() > 0 {
        missing_workers_are_reported_once(start, tasks.drop_last(), now);
    }
}

/// A worker that is back can be reported again; one that is still missing cannot.
pub proof fn returned_workers_can_be_reported_again(
    warned: Seq<WorkerId>,
    workers: Seq<Snapshot>,
    id: WorkerId,
)
    ensures
        still_missing(warned, workers).contains(id) <==> warned.contains(id) && forall|w: int|
            0 <= w < workers.len() ==> (#[trigger] workers[w]).worker_id != id,
    decreases warned.len(),
{
    if warned.len() > 0 {
        let before = warned.drop_last();
        let kept = still_missing(before, workers);
        let all = still_missing(warned, workers);
        returned_workers_can_be_reported_again(before, workers, id);
        lemma_position_of(workers, warned.last());
        assert(warned.contains(id) <==> before.contains(id) || warned.last() == id) by {
            if before.contains(id) {
                let k = choose|k: int| 0 <= k < before.len() && before[k] == id;
                assert(warned[k] == id);
            }
            if warned.contains(id) && warned.last() != id {
                let k = choose|k: int| 0 <= k < warned.len() && warned[k] == id;
                assert(before[k] == id);
            }
            assert(warned[warned.len() - 1] == warned.last());
        }
        if all.len() > kept.len() {
            assert(all.contains(id) <==> kept.contains(id) || warned.last() == id) by {
                assert(all[kept.len() as int] == warned.last());
                if kept.contains(id) {
                    let k = choose|k: int| 0 <= k < kept.len() && kept[k] == id;
                    assert(all[k] == id);
                }
                if all.contains(id) && warned.last() != id {
                    let k = choose|k: int| 0 <= k < all.len() && all[k] == id;
                    assert(kept[k] == id);
                }
            }
        }
    }
}

proof fn lemma_position_of(workers: Seq<Snapshot>, id: WorkerId)
    ensures
        position(workers, id) is None <==> forall|w: int|
            0 <= w < workers.len() ==> (#[trigger] workers[w]).worker_id != id,
    decreases workers.len(),
{
    if workers.len() > 0 {
        let before = workers.drop_last();
        lemma_position_of(before, id);
        if forall|w: int| 0 <= w < workers.len() ==> (#[trigger] workers[w]).worker_id != id {
            assert(workers[workers.len() - 1].worker_id != id);
            assert forall|w: int| 0 <= w < before.len() implies (#[trigger] before[w]).worker_id
                != id by {
                assert(workers[w].worker_id != id);
            }
        } else {
            let w = choose|w: int|
                0 <= w < workers.len() && (#[trigger] workers[w]).worker_id == id;
            if w < before.len() {
                assert(before[w].worker_id == id);
            }
        }
    }
}

/// Processors are counted worker by worker, and only whole ones.
pub proof fn whole_processors_add_up(workers: Seq<Snapshot>, w: Snapshot)
    ensures
        capacity(Seq::empty()) == 0,
        capacity(workers) * 1000 <= capacity(workers.push(w)) * 1000,
        capacity(workers.push(w)) - capacity(workers) <= w.total_num_cpus / 1000,
        (capacity(workers.push(w)) - capacity(workers) + 1) * 1000 > w.total_num_cpus,
{
    assert(workers.push(w).drop_last() =~= workers);
}

/// More workers are wanted exactly where tasks wait, and either there is no worker or more tasks
/// wait for each whole processor than the threshold, in thousandths, allows.
pub proof fn workers_are_wanted_above_the_threshold<P>(s: DefaultScheduler<P>)
    ensures
        ({
            let tasks = s.pending_tasks@.len();
            let processors = capacity(snapshots(s.worker_snapshots@));
            &&& tasks == 0 ==> !s.wants_workers()
            &&& tasks > 0 && s.worker_snapshots@.len() == 0 ==> s.wants_workers()
            &&& tasks > 0 && s.worker_snapshots@.len() > 0 ==> (s.wants_workers() <==> tasks * 1000
                > processors * s.autoscaling_threshold)
        }),
{
    assert(s.autoscaling_threshold * capacity(snapshots(s.worker_snapshots@)) == capacity(
        snapshots(s.worker_snapshots@),
    ) * s.autoscaling_threshold) by (nonlinear_arith);
}

/// A pass begins with the workers as they are known, with what has been reported, and with
/// nothing placed, left or taken out.
pub proof fn passes_begin_empty<P>(s: DefaultScheduler<P>, w: int)
    ensures
        round_start(s).workers.len() == s.worker_snapshots@.len(),
        0 <= w < s.worker_snapshots@.len() ==> round_start(s).workers[w]
            == s.worker_snapshots@[w]@,
        round_start(s).warned == s.warned_missing_affinity_targets@,
        round_start(s).scheduled.len() == 0,
        round_start(s).unscheduled.len() == 0,
        round_start(s).cancelled.len() == 0,
{
}

} // verus!
