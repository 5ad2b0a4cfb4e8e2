//! Placing tasks on workers.
use vstd::prelude::*;

use crate::drain::DrainState;
use crate::sort::{sort, sorted, Keyed};
use crate::task::{
    PendingTask, ResourceRequest, SchedulingStrategy, TaskContext, TaskInfo, WorkerId,
};

verus! {

/// What a task takes of a worker while it runs there.
#[derive(Clone, Copy, Debug, PartialEq, Eq, Structural)]
pub struct ActiveTask {
    pub context: TaskContext,
    pub num_cpus: u32,
    pub num_gpus: u32,
}

/// What the scheduler knows of a worker. Processors and accelerators are in thousandths.
pub struct WorkerSnapshot {
    pub worker_id: WorkerId,
    pub total_num_cpus: u32,
    pub total_num_gpus: u32,
    pub active: Vec<ActiveTask>,
    pub drain_state: DrainState,
}

/// A worker as a mathematical value.
pub struct Snapshot {
    pub worker_id: WorkerId,
    pub total_num_cpus: u32,
    pub total_num_gpus: u32,
    pub active: Seq<ActiveTask>,
    pub drain_state: DrainState,
}

impl View for WorkerSnapshot {
    type V = Snapshot;

    open spec fn view(&self) -> Snapshot {
        Snapshot {
            worker_id: self.worker_id,
            total_num_cpus: self.total_num_cpus,
            total_num_gpus: self.total_num_gpus,
            active: self.active@,
            drain_state: self.drain_state,
        }
    }
}

/// Workers as mathematical values.
pub open spec fn snapshots(workers: Seq<WorkerSnapshot>) -> Seq<Snapshot> {
    workers.map_values(|w: WorkerSnapshot| w@)
}

/// The processors that tasks take, in thousandths.
pub open spec fn sum_cpus(active: Seq<ActiveTask>) -> nat
    decreases active.len(),
{
    if active.len() == 0 {
        0
    } else {
        sum_cpus(active.drop_last()) + active.last().num_cpus as nat
    }
}

/// The accelerators that tasks take, in thousandths.
pub open spec fn sum_gpus(active: Seq<ActiveTask>) -> nat
    decreases active.len(),
{
    if active.len() == 0 {
        0
    } else {
        sum_gpus(active.drop_last()) + active.last().num_gpus as nat
    }
}

/// `active` with a task added; a task that is there already takes its old place.
pub open spec fn with_task(active: Seq<ActiveTask>, task: ActiveTask) -> Seq<ActiveTask>
    decreases active.len(),
{
    if active.len() == 0 {
        seq![task]
    } else if active[0].context == task.context {
        active.update(0, task)
    } else {
        seq![active[0]] + with_task(active.skip(1), task)
    }
}

impl Snapshot {
    /// Processors that no task takes, in thousandths; negative where tasks take too many.
    pub open spec fn free_cpus(self) -> int {
        self.total_num_cpus - sum_cpus(self.active)
    }

    /// Accelerators that no task takes, in thousandths.
    pub open spec fn free_gpus(self) -> int {
        self.total_num_gpus - sum_gpus(self.active)
    }

    /// Whether the worker's state lets the task in: an active worker takes every task, a
    /// draining one only tasks that can run nowhere else.
    pub open spec fn admits(self, task: TaskInfo) -> bool {
        match self.drain_state {
            DrainState::Active => true,
            DrainState::Draining => task.strategy == (SchedulingStrategy::WorkerAffinity {
                worker_id: self.worker_id,
                soft: false,
            }),
            _ => false,
        }
    }

    /// Whether the task can be placed here now.
    pub open spec fn fits(self, task: TaskInfo) -> bool {
        &&& self.admits(task)
        &&& !(task.request.num_gpus > 0 && self.free_gpus() == 0)
        &&& self.free_cpus() >= task.request.num_cpus
    }

    /// How much room the worker has, in whole processors and accelerators.
    pub open spec fn room(self) -> int {
        if self.free_cpus() + self.free_gpus() > 0 {
            (self.free_cpus() + self.free_gpus()) / 1000
        } else {
            0
        }
    }

    /// Whether a task that is bound to this worker has a reason to wait for it: as long as the
    /// worker is not on its way out for good.
    pub open spec fn worth_waiting(self) -> bool {
        self.drain_state == DrainState::Active || self.drain_state == DrainState::Draining
    }

    /// The worker with one more active task.
    pub open spec fn running(self, task: TaskInfo) -> Snapshot {
        Snapshot {
            active: with_task(
                self.active,
                ActiveTask {
                    context: task.context,
                    num_cpus: task.request.num_cpus,
                    num_gpus: task.request.num_gpus,
                },
            ),
            ..self
        }
    }
}

impl WorkerSnapshot {
    /// An active worker.
    pub fn new(
        worker_id: WorkerId,
        total_num_cpus: u32,
        total_num_gpus: u32,
        active: Vec<ActiveTask>,
    ) -> (w: WorkerSnapshot)
        ensures
            w@ == (Snapshot {
                worker_id,
                total_num_cpus,
                total_num_gpus,
                active: active@,
                drain_state: DrainState::Active,
            }),
    {
        WorkerSnapshot {
            worker_id,
            total_num_cpus,
            total_num_gpus,
            active,
            drain_state: DrainState::Active,
        }
    }

    /// A second copy.
    pub fn copy(&self) -> (w: WorkerSnapshot)
        ensures
            w@ == self@,
    {
        let mut active: Vec<ActiveTask> = Vec::new();
        let mut i: usize = 0;
        while i < self.active.len()
            invariant
                i <= self.active@.len(),
                active@ == self.active@.take(i as int),
            decreases self.active@.len() - i,
        {
            active.push(self.active[i]);
            assert(active@ =~= self.active@.take(i + 1));
            i = i + 1;
        }
        assert(active@ =~= self.active@);
        WorkerSnapshot {
            worker_id: self.worker_id,
            total_num_cpus: self.total_num_cpus,
            total_num_gpus: self.total_num_gpus,
            active,
            drain_state: self.drain_state,
        }
    }

    /// The processors that tasks take, in thousandths.
    pub fn active_num_cpus(&self) -> (n: u128)
        ensures
            n == sum_cpus(self.active@),
            n <= self.active@.len() * 0xffff_ffff,
    {
        let mut n: u128 = 0;
        let mut i: usize = 0;
        assert(self.active@.take(0) =~= Seq::<ActiveTask>::empty());
        while i < self.active.len()
            invariant
                i <= self.active@.len(),
                n == sum_cpus(self.active@.take(i as int)),
                n <= i * 0xffff_ffff,
            decreases self.active@.len() - i,
        {
            proof {
                assert(self.active@.take(i + 1).drop_last() =~= self.active@.take(i as int));
                assert(self.active@.take(i + 1).last() == self.active@[i as int]);
            }
            n = n + self.active[i].num_cpus as u128;
            i = i + 1;
        }
        assert(self.active@.take(self.active@.len() as int) =~= self.active@);
        n
    }

    /// The accelerators that tasks take, in thousandths.
    pub fn active_num_gpus(&self) -> (n: u128)
        ensures
            n == sum_gpus(self.active@),
            n <= self.active@.len() * 0xffff_ffff,
    {
        let mut n: u128 = 0;
        let mut i: usize = 0;
        assert(self.active@.take(0) =~= Seq::<ActiveTask>::empty());
        while i < self.active.len()
            invariant
                i <= self.active@.len(),
                n == sum_gpus(self.active@.take(i as int)),
                n <= i * 0xffff_ffff,
            decreases self.active@.len() - i,
        {
            proof {
                assert(self.active@.take(i + 1).drop_last() =~= self.active@.take(i as int));
                assert(self.active@.take(i + 1).last() == self.active@[i as int]);
            }
            n = n + self.active[i].num_gpus as u128;
            i = i + 1;
        }
        assert(self.active@.take(self.active@.len() as int) =~= self.active@);
        n
    }

    /// Processors that no task takes, in thousandths; negative where tasks take too many.
    pub fn available_num_cpus(&self) -> (n: i128)
        ensures
            n == self@.free_cpus(),
    {
        let taken: u128 = self.active_num_cpus();
        let count: usize = self.active.len();
        assert(taken <= 0xffff_ffff_ffff_ffff * 0xffff_ffff) by (nonlinear_arith)
            requires
                taken <= count * 0xffff_ffff,
                count <= 0xffff_ffff_ffff_ffff,
        ;
        self.total_num_cpus as i128 - taken as i128
    }

    /// Accelerators that no task takes, in thousandths.
    pub fn available_num_gpus(&self) -> (n: i128)
        ensures
            n == self@.free_gpus(),
    {
        let taken: u128 = self.active_num_gpus();
        let count: usize = self.active.len();
        assert(taken <= 0xffff_ffff_ffff_ffff * 0xffff_ffff) by (nonlinear_arith)
            requires
                taken <= count * 0xffff_ffff,
                count <= 0xffff_ffff_ffff_ffff,
        ;
        self.total_num_gpus as i128 - taken as i128
    }

    /// The number of the worker.
    pub fn worker_id(&self) -> (id: WorkerId)
        ensures
            id == self.worker_id,
    {
        self.worker_id
    }

    /// All processors of the worker, in thousandths.
    pub fn total_num_cpus(&self) -> (n: u32)
        ensures
            n == self.total_num_cpus,
    {
        self.total_num_cpus
    }

    /// All accelerators of the worker, in thousandths.
    pub fn total_num_gpus(&self) -> (n: u32)
        ensures
            n == self.total_num_gpus,
    {
        self.total_num_gpus
    }

    /// Whether the task can be placed here now.
    pub fn can_schedule_task(&self, task: &TaskInfo) -> (b: bool)
        ensures
            b == self@.fits(*task),
    {
        let admitted: bool = match self.drain_state {
            DrainState::Active => true,
            DrainState::Draining => match task.strategy {
                SchedulingStrategy::WorkerAffinity { worker_id, soft } => !soft && worker_id
                    == self.worker_id,
                SchedulingStrategy::Spread => false,
            },
            _ => false,
        };
        if !admitted {
            return false;
        }
        if task.request.num_gpus > 0 && self.available_num_gpus() == 0 {
            return false;
        }
        self.available_num_cpus() >= task.request.num_cpus as i128
    }

    /// How much room the worker has, in whole processors and accelerators.
    pub fn room(&self) -> (n: i128)
        ensures
            n == self@.room(),
    {
        let cpus: i128 = self.available_num_cpus();
        let gpus: i128 = self.available_num_gpus();
        let count: usize = self.active.len();
        proof {
            lemma_sums_bounded(self.active@);
            assert(count * 0xffff_ffff <= 0xffff_ffff_ffff_ffff * 0xffff_ffff) by (nonlinear_arith)
                requires
                    count <= 0xffff_ffff_ffff_ffff,
            ;
        }
        let total: i128 = cpus + gpus;
        if total > 0 {
            total / 1000
        } else {
            0
        }
    }

    /// Adds an active task.
    pub fn start(&mut self, task: &TaskInfo)
        ensures
            final(self)@ == old(self)@.running(*task),
    {
        add_active(
            &mut self.active,
            ActiveTask {
                context: task.context,
                num_cpus: task.request.num_cpus,
                num_gpus: task.request.num_gpus,
            },
        );
    }
}

/// Adds an active task; one that is there already takes its old place.
pub fn add_active(active: &mut Vec<ActiveTask>, entry: ActiveTask)
    ensures
        final(active)@ == with_task(old(active)@, entry),
{
    let ghost all = active@;
    let n: usize = active.len();
    let mut i: usize = 0;
    assert(all.skip(0) =~= all);
    assert(all.take(0) + with_task(all.skip(0), entry) =~= with_task(all, entry));
    while i < n
        invariant
            i <= n == all.len(),
            active@ == all,
            old(active)@ == all,
            with_task(all, entry) == all.take(i as int) + with_task(all.skip(i as int), entry),
        decreases n - i,
    {
        if active[i].context == entry.context {
            proof {
                assert(all.take(i as int) + all.skip(i as int).update(0, entry) =~= all.update(
                    i as int,
                    entry,
                ));
            }
            active.set(i, entry);
            return;
        }
        proof {
            let rest = all.skip(i as int);
            assert(rest[0] == all[i as int]);
            assert(rest.skip(1) =~= all.skip(i + 1));
            assert(with_task(rest, entry) == seq![rest[0]] + with_task(rest.skip(1), entry));
            assert(all.take(i as int) + (seq![rest[0]] + with_task(all.skip(i + 1), entry))
                =~= all.take(i + 1) + with_task(all.skip(i + 1), entry));
        }
        i = i + 1;
    }
    proof {
        assert(all.skip(n as int) =~= Seq::<ActiveTask>::empty());
        assert(all.take(n as int) + seq![entry] =~= all.push(entry));
    }
    active.push(entry);
}

proof fn lemma_sums_bounded(active: Seq<ActiveTask>)
    ensures
        sum_cpus(active) <= active.len() * 0xffff_ffff,
        sum_gpus(active) <= active.len() * 0xffff_ffff,
    decreases active.len(),
{
    if active.len() > 0 {
        lemma_sums_bounded(active.drop_last());
    }
}

proof fn lemma_sum_front(active: Seq<ActiveTask>)
    requires
        active.len() > 0,
    ensures
        sum_cpus(active) == active[0].num_cpus + sum_cpus(active.skip(1)),
    decreases active.len(),
{
    if active.len() == 1 {
        assert(active.skip(1) =~= Seq::<ActiveTask>::empty());
        assert(active.drop_last() =~= Seq::<ActiveTask>::empty());
    } else {
        lemma_sum_front(active.drop_last());
        assert(active.drop_last().skip(1) =~= active.skip(1).drop_last());
        assert(active.skip(1).last() == active.last());
    }
}

proof fn lemma_with_task_sum(active: Seq<ActiveTask>, task: ActiveTask)
    ensures
        sum_cpus(with_task(active, task)) <= sum_cpus(active) + task.num_cpus,
    decreases active.len(),
{
    let after = with_task(active, task);
    if active.len() == 0 {
        assert(after == seq![task]);
        assert(after.drop_last() =~= active);
        assert(after.last() == task);
    } else {
        lemma_sum_front(active);
        lemma_sum_front(after);
        if active[0].context == task.context {
            assert(after.skip(1) =~= active.skip(1));
        } else {
            assert(after.skip(1) =~= with_task(active.skip(1), task));
            lemma_with_task_sum(active.skip(1), task);
        }
    }
}

/// A worker that a task fits has no processor taken twice once the task runs there.
pub proof fn fitting_tasks_do_not_overload(worker: Snapshot, task: TaskInfo)
    requires
        worker.fits(task),
    ensures
        worker.running(task).free_cpus() >= 0,
{
    lemma_with_task_sum(
        worker.active,
        ActiveTask {
            context: task.context,
            num_cpus: task.request.num_cpus,
            num_gpus: task.request.num_gpus,
        },
    );
}

/// Where a worker stands in a list, from the front.
pub open spec fn position(workers: Seq<Snapshot>, worker_id: WorkerId) -> Option<int>
    decreases workers.len(),
{
    if workers.len() == 0 {
        None
    } else if workers.last().worker_id == worker_id {
        Some(workers.len() - 1)
    } else {
        position(workers.drop_last(), worker_id)
    }
}

/// Which of the first `n` workers has the most room, of those that the task fits and that are
/// not to be avoided; the last one of equals.
pub open spec fn best(
    workers: Seq<Snapshot>,
    task: TaskInfo,
    avoid: Option<WorkerId>,
    n: int,
) -> Option<int>
    decreases n,
{
    if n <= 0 {
        None
    } else {
        let before = best(workers, task, avoid, n - 1);
        let w = workers[n - 1];
        if w.fits(task) && avoid != Some(w.worker_id) && (before is None || workers[before->0].room()
            <= w.room()) {
            Some(n - 1)
        } else {
            before
        }
    }
}

/// Where a task goes that may go anywhere. Avoiding a worker is a wish, not a condition.
pub open spec fn spread(workers: Seq<Snapshot>, task: TaskInfo, avoid: Option<WorkerId>) -> Option<
    int,
> {
    match best(workers, task, avoid, workers.len() as int) {
        Some(i) => Some(i),
        None => best(workers, task, None, workers.len() as int),
    }
}

/// Where a task goes. A task that is bound to a worker goes there if it fits. While that worker
/// is worth waiting for, a hard task waits; in every other case the task may go anywhere.
pub open spec fn place(workers: Seq<Snapshot>, task: TaskInfo, avoid: Option<WorkerId>) -> Option<
    int,
> {
    match task.strategy {
        SchedulingStrategy::Spread => spread(workers, task, avoid),
        SchedulingStrategy::WorkerAffinity { worker_id, soft } => match position(
            workers,
            worker_id,
        ) {
            Some(i) => if workers[i].fits(task) {
                Some(i)
            } else if !soft && workers[i].worth_waiting() {
                None
            } else {
                spread(workers, task, avoid)
            },
            None => spread(workers, task, avoid),
        },
    }
}

/// The worker that a task is bound to, if it is not in the list.
pub open spec fn missing_target(workers: Seq<Snapshot>, task: TaskInfo) -> Option<WorkerId> {
    match task.strategy {
        SchedulingStrategy::Spread => None,
        SchedulingStrategy::WorkerAffinity { worker_id, soft: _ } => if position(workers, worker_id)
            is None {
            Some(worker_id)
        } else {
            None
        },
    }
}

proof fn lemma_position(workers: Seq<Snapshot>, worker_id: WorkerId)
    ensures
        match position(workers, worker_id) {
            Some(i) => 0 <= i < workers.len() && workers[i].worker_id == worker_id,
            None => forall|i: int| 0 <= i < workers.len() ==> (#[trigger] workers[i]).worker_id
                != worker_id,
        },
    decreases workers.len(),
{
    if workers.len() > 0 && workers.last().worker_id != worker_id {
        lemma_position(workers.drop_last(), worker_id);
        if position(workers, worker_id) is None {
            assert forall|i: int| 0 <= i < workers.len() implies (#[trigger] workers[i]).worker_id
                != worker_id by {
                if i < workers.len() - 1 {
                    assert(workers.drop_last()[i] == workers[i]);
                }
            }
        }
    }
}

proof fn lemma_best(workers: Seq<Snapshot>, task: TaskInfo, avoid: Option<WorkerId>, n: int)
    requires
        0 <= n <= workers.len(),
    ensures
        match best(workers, task, avoid, n) {
            Some(b) => {
                &&& 0 <= b < n
                &&& workers[b].fits(task)
                &&& avoid != Some(workers[b].worker_id)
                &&& forall|i: int|
                    0 <= i < n && (#[trigger] workers[i]).fits(task) && avoid != Some(
                        workers[i].worker_id,
                    ) ==> workers[i].room() <= workers[b].room()
            },
            None => forall|i: int|
                0 <= i < n ==> !((#[trigger] workers[i]).fits(task) && avoid != Some(
                    workers[i].worker_id,
                )),
        },
    decreases n,
{
    if n > 0 {
        lemma_best(workers, task, avoid, n - 1);
    }
}

/// A task is only ever placed where it fits; so a draining worker gets nothing but tasks that
/// are bound to it, and no worker that is on its way out for good gets anything.
pub proof fn placement_fits(workers: Seq<Snapshot>, task: TaskInfo, avoid: Option<WorkerId>)
    ensures
        place(workers, task, avoid) matches Some(i) ==> 0 <= i < workers.len() && workers[i].fits(
            task,
        ),
{
    let n = workers.len() as int;
    lemma_best(workers, task, avoid, n);
    lemma_best(workers, task, None, n);
    match task.strategy {
        SchedulingStrategy::Spread => {},
        SchedulingStrategy::WorkerAffinity { worker_id, soft } => {
            lemma_position(workers, worker_id);
        },
    }
}

/// Spreading picks a worker with the most room among those that the task fits and that are not
/// to be avoided; it falls back to the avoided worker only where no other fits.
pub proof fn spread_picks_most_room(
    workers: Seq<Snapshot>,
    task: TaskInfo,
    avoid: Option<WorkerId>,
    other: int,
)
    requires
        0 <= other < workers.len(),
        workers[other].fits(task),
        avoid != Some(workers[other].worker_id),
    ensures
        spread(workers, task, avoid) is Some,
        avoid != Some(workers[spread(workers, task, avoid)->0].worker_id),
        workers[other].room() <= workers[spread(workers, task, avoid)->0].room(),
{
    lemma_best(workers, task, avoid, workers.len() as int);
}

/// A task finds a place whenever it may go anywhere and fits somewhere, even if only where it
/// failed before.
pub proof fn spread_never_starves(
    workers: Seq<Snapshot>,
    task: TaskInfo,
    avoid: Option<WorkerId>,
    somewhere: int,
)
    requires
        0 <= somewhere < workers.len(),
        workers[somewhere].fits(task),
    ensures
        spread(workers, task, avoid) is Some,
{
    lemma_best(workers, task, avoid, workers.len() as int);
    lemma_best(workers, task, None, workers.len() as int);
}

/// A hard task runs nowhere but on its worker while that worker is worth waiting for.
pub proof fn hard_affinity_holds(
    workers: Seq<Snapshot>,
    task: TaskInfo,
    avoid: Option<WorkerId>,
    target: WorkerId,
)
    requires
        task.strategy == (SchedulingStrategy::WorkerAffinity { worker_id: target, soft: false }),
        position(workers, target) is Some,
        workers[position(workers, target)->0].worth_waiting(),
    ensures
        place(workers, task, avoid) matches Some(i) ==> workers[i].worker_id == target,
{
    lemma_position(workers, target);
}

/// Finds a worker.
pub fn find_worker(workers: &Vec<WorkerSnapshot>, worker_id: WorkerId) -> (r: Option<usize>)
    ensures
        match r {
            Some(i) => position(snapshots(workers@), worker_id) == Some(i as int) && i
                < workers@.len(),
            None => position(snapshots(workers@), worker_id) is None,
        },
{
    let ghost all = snapshots(workers@);
    let mut n: usize = workers.len();
    assert(all.take(n as int) =~= all);
    while n > 0
        invariant
            n <= workers@.len(),
            all == snapshots(workers@),
            position(all, worker_id) == position(all.take(n as int), worker_id),
        decreases n,
    {
        proof {
            assert(all.take(n as int).last() == workers@[n - 1]@);
            assert(all.take(n as int).drop_last() =~= all.take(n - 1));
        }
        if workers[n - 1].worker_id == worker_id {
            return Some(n - 1);
        }
        n = n - 1;
    }
    None
}

/// The worker with the most room, of those that the task fits and that are not to be avoided.
pub fn best_spread_candidate(
    workers: &Vec<WorkerSnapshot>,
    task: &TaskInfo,
    avoid: Option<WorkerId>,
) -> (r: Option<usize>)
    ensures
        match r {
            Some(i) => best(snapshots(workers@), *task, avoid, workers@.len() as int) == Some(
                i as int,
            ) && i < workers@.len(),
            None => best(snapshots(workers@), *task, avoid, workers@.len() as int) is None,
        },
{
    let ghost all = snapshots(workers@);
    let mut found: Option<usize> = None;
    let mut found_room: i128 = 0;
    let mut i: usize = 0;
    while i < workers.len()
        invariant
            i <= workers@.len(),
            all == snapshots(workers@),
            match found {
                Some(b) => best(all, *task, avoid, i as int) == Some(b as int) && b < i
                    && found_room == all[b as int].room(),
                None => best(all, *task, avoid, i as int) is None,
            },
        decreases workers@.len() - i,
    {
        let worker: &WorkerSnapshot = &workers[i];
        assert(all[i as int] == worker@);
        let avoided: bool = match avoid {
            Some(id) => id == worker.worker_id,
            None => false,
        };
        if !avoided && worker.can_schedule_task(task) {
            let room: i128 = worker.room();
            let better: bool = match found {
                Some(_) => found_room <= room,
                None => true,
            };
            if better {
                found = Some(i);
                found_room = room;
            }
        }
        i = i + 1;
    }
    found
}

/// Where a task goes that may go anywhere.
pub fn try_schedule_spread_task(
    workers: &Vec<WorkerSnapshot>,
    task: &TaskInfo,
    avoid: Option<WorkerId>,
) -> (r: Option<usize>)
    ensures
        match r {
            Some(i) => spread(snapshots(workers@), *task, avoid) == Some(i as int) && i
                < workers@.len(),
            None => spread(snapshots(workers@), *task, avoid) is None,
        },
{
    match best_spread_candidate(workers, task, avoid) {
        Some(i) => Some(i),
        None => best_spread_candidate(workers, task, None),
    }
}

/// Where a task goes.
pub fn try_schedule_task(
    workers: &Vec<WorkerSnapshot>,
    task: &TaskInfo,
    avoid: Option<WorkerId>,
) -> (r: (Option<usize>, Option<WorkerId>))
    ensures
        match r.0 {
            Some(i) => place(snapshots(workers@), *task, avoid) == Some(i as int) && i
                < workers@.len(),
            None => place(snapshots(workers@), *task, avoid) is None,
        },
        r.1 == missing_target(snapshots(workers@), *task),
{
    match task.strategy {
        SchedulingStrategy::Spread => (try_schedule_spread_task(workers, task, avoid), None),
        SchedulingStrategy::WorkerAffinity { worker_id, soft } => match find_worker(
            workers,
            worker_id,
        ) {
            Some(i) => {
                assert(snapshots(workers@)[i as int] == workers@[i as int]@);
                if workers[i].can_schedule_task(task) {
                    (Some(i), None)
                } else if !soft && (workers[i].drain_state == DrainState::Active
                    || workers[i].drain_state == DrainState::Draining) {
                    (None, None)
                } else {
                    (try_schedule_spread_task(workers, task, avoid), None)
                }
            },
            None => (try_schedule_spread_task(workers, task, avoid), Some(worker_id)),
        },
    }
}

impl<P> Keyed for PendingTask<P> {
    /// Higher priorities come first.
    open spec fn spec_key(&self) -> int {
        -(self.task.priority as int)
    }

    fn not_after(&self, other: &Self) -> (b: bool) {
        self.task.priority >= other.task.priority
    }
}

/// A worker put into a list: in the place of one with the same number, or at the end.
pub open spec fn upsert(workers: Seq<Snapshot>, w: Snapshot) -> Seq<Snapshot> {
    match position(workers, w.worker_id) {
        Some(i) => workers.update(i, w),
        None => workers.push(w),
    }
}

/// Workers by their number; of several with the same number the last counts.
pub open spec fn by_id(workers: Seq<Snapshot>) -> Seq<Snapshot>
    decreases workers.len(),
{
    if workers.len() == 0 {
        workers
    } else {
        upsert(by_id(workers.drop_last()), workers.last())
    }
}

/// Whether no number occurs twice.
pub open spec fn distinct_ids(workers: Seq<Snapshot>) -> bool {
    forall|i: int, j: int|
        #![trigger workers[i], workers[j]]
        0 <= i < j < workers.len() ==> workers[i].worker_id != workers[j].worker_id
}

/// By their number, no worker occurs twice.
pub proof fn by_id_is_distinct(workers: Seq<Snapshot>)
    ensures
        distinct_ids(by_id(workers)),
    decreases workers.len(),
{
    if workers.len() > 0 {
        by_id_is_distinct(workers.drop_last());
        lemma_position(by_id(workers.drop_last()), workers.last().worker_id);
    }
}

/// Copies workers, by their number.
pub fn collect_workers(given: &[WorkerSnapshot]) -> (out: Vec<WorkerSnapshot>)
    ensures
        snapshots(out@) == by_id(snapshots(given@)),
{
    let ghost all = snapshots(given@);
    let mut out: Vec<WorkerSnapshot> = Vec::new();
    let mut i: usize = 0;
    assert(all.take(0) =~= Seq::<Snapshot>::empty());
    assert(snapshots(out@) =~= by_id(all.take(0)));
    while i < given.len()
        invariant
            i <= given@.len(),
            all == snapshots(given@),
            snapshots(out@) == by_id(all.take(i as int)),
        decreases given@.len() - i,
    {
        let w: WorkerSnapshot = given[i].copy();
        let ghost before = out@;
        proof {
            assert(all.take(i + 1).drop_last() =~= all.take(i as int));
            assert(all.take(i + 1).last() == w@);
        }
        let ghost shown = w@;
        match find_worker(&out, w.worker_id) {
            Some(k) => {
                out.set(k, w);
                assert(snapshots(out@) =~= snapshots(before).update(k as int, shown));
            },
            None => {
                out.push(w);
                assert(snapshots(out@) =~= snapshots(before).push(shown));
            },
        }
        i = i + 1;
    }
    assert(all.take(given@.len() as int) =~= all);
    out
}

/// What a pending task needs, with its priority.
#[derive(Clone, Copy, Debug, PartialEq, Eq, Structural)]
pub struct RankedRequest {
    pub priority: u64,
    pub request: ResourceRequest,
}

impl Keyed for RankedRequest {
    /// Higher priorities come first.
    open spec fn spec_key(&self) -> int {
        -(self.priority as int)
    }

    fn not_after(&self, other: &Self) -> (b: bool) {
        self.priority >= other.priority
    }
}

/// What the tasks of a queue need that are not cancelled, in the order of the queue.
pub open spec fn ranked<P>(pending: Seq<PendingTask<P>>) -> Seq<RankedRequest>
    decreases pending.len(),
{
    if pending.len() == 0 {
        Seq::empty()
    } else if pending.last().cancelled {
        ranked(pending.drop_last())
    } else {
        ranked(pending.drop_last()).push(
            RankedRequest {
                priority: pending.last().task.priority,
                request: pending.last().task.request,
            },
        )
    }
}

/// What the tasks of a queue need that are not cancelled, in the order in which they would be
/// placed.
pub open spec fn requests_in_priority_order<P>(pending: Seq<PendingTask<P>>) -> Seq<ResourceRequest> {
    sorted(ranked(pending)).map_values(|r: RankedRequest| r.request)
}

/// What the tasks of a queue need that are not cancelled, in the order in which they would be
/// placed.
pub fn pending_tasks_in_priority_order<P>(pending: &Vec<PendingTask<P>>) -> (out: Vec<ResourceRequest>)
    ensures
        out@ == requests_in_priority_order(pending@),
{
    let mut all: Vec<RankedRequest> = Vec::new();
    let mut i: usize = 0;
    assert(pending@.take(0) =~= Seq::<PendingTask<P>>::empty());
    while i < pending.len()
        invariant
            i <= pending@.len(),
            all@ == ranked(pending@.take(i as int)),
        decreases pending@.len() - i,
    {
        proof {
            assert(pending@.take(i + 1).drop_last() =~= pending@.take(i as int));
            assert(pending@.take(i + 1).last() == pending@[i as int]);
        }
        if !pending[i].cancelled {
            all.push(
                RankedRequest {
                    priority: pending[i].task.priority,
                    request: pending[i].task.request,
                },
            );
        }
        i = i + 1;
    }
    assert(pending@.take(pending@.len() as int) =~= pending@);
    let ordered: Vec<RankedRequest> = sort(all);
    let mut out: Vec<ResourceRequest> = Vec::new();
    let mut k: usize = 0;
    while k < ordered.len()
        invariant
            k <= ordered@.len(),
            ordered@ == sorted(ranked(pending@)),
            out@.len() == k,
            forall|j: int| 0 <= j < k ==> #[trigger] out@[j] == ordered@[j].request,
        decreases ordered@.len() - k,
    {
        out.push(ordered[k].request);
        k = k + 1;
    }
    assert(out@ =~= requests_in_priority_order(pending@));
    out
}

/// What the active tasks of a worker take is counted task by task: nothing without tasks, and
/// with one task more, that much more.
pub proof fn active_needs_add_up(active: Seq<ActiveTask>, task: ActiveTask)
    ensures
        sum_cpus(Seq::empty()) == 0,
        sum_gpus(Seq::empty()) == 0,
        sum_cpus(active.push(task)) == sum_cpus(active) + task.num_cpus,
        sum_gpus(active.push(task)) == sum_gpus(active) + task.num_gpus,
{
    assert(active.push(task).drop_last() =~= active);
}

/// Where a task is placed, there are enough processors that no active task takes, and some part
/// of an accelerator if the task needs one. The worker is active, or it is draining and the task
/// can run nowhere else.
pub proof fn placed_tasks_find_what_they_need(
    workers: Seq<Snapshot>,
    task: TaskInfo,
    avoid: Option<WorkerId>,
)
    ensures
        place(workers, task, avoid) matches Some(i) ==> {
            let w = workers[i];
            &&& 0 <= i < workers.len()
            &&& w.total_num_cpus - sum_cpus(w.active) >= task.request.num_cpus
            &&& task.request.num_gpus > 0 ==> w.total_num_gpus - sum_gpus(w.active) != 0
            &&& w.drain_state == DrainState::Active || (w.drain_state == DrainState::Draining
                && task.strategy == (SchedulingStrategy::WorkerAffinity {
                worker_id: w.worker_id,
                soft: false,
            }))
        },
{
    placement_fits(workers, task, avoid);
}

/// A task that need not wait for one worker is placed as long as any active worker has what it
/// needs. A task need not wait if it may go anywhere, if it is bound only softly, and if no
/// worker with the number of its target is active or draining.
pub proof fn free_workers_are_used(
    workers: Seq<Snapshot>,
    task: TaskInfo,
    avoid: Option<WorkerId>,
    w: int,
)
    requires
        0 <= w < workers.len(),
        workers[w].drain_state == DrainState::Active,
        workers[w].total_num_cpus - sum_cpus(workers[w].active) >= task.request.num_cpus,
        task.request.num_gpus == 0 || workers[w].total_num_gpus - sum_gpus(workers[w].active) != 0,
        task.strategy matches SchedulingStrategy::WorkerAffinity { worker_id, soft } ==> soft || (
        forall|i: int|
            0 <= i < workers.len() && (#[trigger] workers[i]).worker_id == worker_id
                ==> workers[i].drain_state != DrainState::Active && workers[i].drain_state
                != DrainState::Draining),
    ensures
        place(workers, task, avoid) is Some,
{
    assert(workers[w].fits(task));
    spread_never_starves(workers, task, avoid, w);
    match task.strategy {
        SchedulingStrategy::Spread => {},
        SchedulingStrategy::WorkerAffinity { worker_id, soft } => {
            lemma_position(workers, worker_id);
        },
    }
}

proof fn lemma_best_is_last(
    workers: Seq<Snapshot>,
    task: TaskInfo,
    avoid: Option<WorkerId>,
    n: int,
    other: int,
)
    requires
        0 <= other < n <= workers.len(),
        workers[other].fits(task),
        avoid != Some(workers[other].worker_id),
    ensures
        best(workers, task, avoid, n) is Some,
        best(workers, task, avoid, n)->0 < other ==> workers[other].room() < workers[best(
            workers,
            task,
            avoid,
            n,
        )->0].room(),
    decreases n,
{
    lemma_best(workers, task, avoid, n);
    if other < n - 1 {
        lemma_best_is_last(workers, task, avoid, n - 1, other);
    } else {
        lemma_best(workers, task, avoid, n - 1);
    }
}

/// A task that may go anywhere goes to the worker with the most whole processors and
/// accelerators left, the last one of equals; and never to the worker to be avoided while
/// another one has what it needs.
pub proof fn tasks_go_where_most_is_left(
    workers: Seq<Snapshot>,
    task: TaskInfo,
    avoid: Option<WorkerId>,
    other: int,
)
    requires
        task.strategy == SchedulingStrategy::Spread,
        0 <= other < workers.len(),
        workers[other].drain_state == DrainState::Active,
        workers[other].total_num_cpus - sum_cpus(workers[other].active) >= task.request.num_cpus,
        task.request.num_gpus == 0 || workers[other].total_num_gpus - sum_gpus(
            workers[other].active,
        ) != 0,
        avoid != Some(workers[other].worker_id),
    ensures
        place(workers, task, avoid) matches Some(i) && {
            let here = workers[i].total_num_cpus - sum_cpus(workers[i].active)
                + workers[i].total_num_gpus - sum_gpus(workers[i].active);
            let there = workers[other].total_num_cpus - sum_cpus(workers[other].active)
                + workers[other].total_num_gpus - sum_gpus(workers[other].active);
            &&& 0 <= i < workers.len()
            &&& avoid != Some(workers[i].worker_id)
            &&& there >= 1000 ==> here / 1000 >= there / 1000
            &&& i < other ==> here >= 1000 && here / 1000 > there / 1000
        },
{
    assert(workers[other].fits(task));
    spread_picks_most_room(workers, task, avoid, other);
    lemma_best_is_last(workers, task, avoid, workers.len() as int, other);
    lemma_best(workers, task, avoid, workers.len() as int);
}

/// A task that is bound to a worker goes there whenever that worker has what it needs and takes
/// tasks, or is draining and the task can run nowhere else.
pub proof fn bound_tasks_go_to_their_worker(
    workers: Seq<Snapshot>,
    task: TaskInfo,
    avoid: Option<WorkerId>,
    target: int,
    soft: bool,
)
    requires
        0 <= target < workers.len(),
        forall|i: int|
            0 <= i < workers.len() && i != target ==> (#[trigger] workers[i]).worker_id
                != workers[target].worker_id,
        task.strategy == (SchedulingStrategy::WorkerAffinity {
            worker_id: workers[target].worker_id,
            soft,
        }),
        workers[target].drain_state == DrainState::Active || (workers[target].drain_state
            == DrainState::Draining && !soft),
        workers[target].total_num_cpus - sum_cpus(workers[target].active) >= task.request.num_cpus,
        task.request.num_gpus == 0 || workers[target].total_num_gpus - sum_gpus(
            workers[target].active,
        ) != 0,
    ensures
        place(workers, task, avoid) == Some(target),
{
    lemma_position(workers, workers[target].worker_id);
    assert(workers[target].fits(task));
}

/// A task that can run on one worker only waits while that worker is active or draining and has
/// too few processors left, or no accelerator where one is needed.
pub proof fn bound_tasks_wait_for_their_worker(
    workers: Seq<Snapshot>,
    task: TaskInfo,
    avoid: Option<WorkerId>,
    target: int,
)
    requires
        0 <= target < workers.len(),
        forall|i: int|
            0 <= i < workers.len() && i != target ==> (#[trigger] workers[i]).worker_id
                != workers[target].worker_id,
        task.strategy == (SchedulingStrategy::WorkerAffinity {
            worker_id: workers[target].worker_id,
            soft: false,
        }),
        workers[target].drain_state == DrainState::Active || workers[target].drain_state
            == DrainState::Draining,
        workers[target].total_num_cpus - sum_cpus(workers[target].active) < task.request.num_cpus
            || (task.request.num_gpus > 0 && workers[target].total_num_gpus - sum_gpus(
            workers[target].active,
        ) == 0),
    ensures
        place(workers, task, avoid) is None,
{
    lemma_position(workers, workers[target].worker_id);
}

/// A task that starts on a worker is counted there with what it needs: behind all others, or in
/// the place of the entry that it had. Nothing else changes.
pub proof fn started_tasks_are_counted_once(worker: Snapshot, task: TaskInfo, at: int)
    requires
        0 <= at <= worker.active.len(),
        at < worker.active.len() ==> worker.active[at].context == task.context,
        forall|i: int|
            0 <= i < at ==> (#[trigger] worker.active[i]).context != task.context,
    ensures
        ({
            let entry = ActiveTask {
                context: task.context,
                num_cpus: task.request.num_cpus,
                num_gpus: task.request.num_gpus,
            };
            let after = worker.running(task);
            &&& after.worker_id == worker.worker_id
            &&& after.total_num_cpus == worker.total_num_cpus
            &&& after.total_num_gpus == worker.total_num_gpus
            &&& after.drain_state == worker.drain_state
            &&& at < worker.active.len() ==> after.active == worker.active.update(at, entry)
            &&& at == worker.active.len() ==> after.active == worker.active.push(entry)
        }),
{
    lemma_with_task_at(
        worker.active,
        ActiveTask {
            context: task.context,
            num_cpus: task.request.num_cpus,
            num_gpus: task.request.num_gpus,
        },
        at,
    );
}

proof fn lemma_with_task_at(active: Seq<ActiveTask>, task: ActiveTask, at: int)
    requires
        0 <= at <= active.len(),
        at < active.len() ==> active[at].context == task.context,
        forall|i: int| 0 <= i < at ==> (#[trigger] active[i]).context != task.context,
    ensures
        with_task(active, task) == (if at < active.len() {
            active.update(at, task)
        } else {
            active.push(task)
        }),
    decreases active.len(),
{
    let after = with_task(active, task);
    if active.len() == 0 {
        assert(after =~= active.push(task));
    } else if at > 0 {
        let rest = active.skip(1);
        assert(active[0].context != task.context);
        assert forall|i: int| 0 <= i < at - 1 implies (#[trigger] rest[i]).context
            != task.context by {
            assert(rest[i] == active[i + 1]);
        }
        lemma_with_task_at(rest, task, at - 1);
        if at < active.len() {
            assert(after =~= active.update(at, task));
        } else {
            assert(after =~= active.push(task));
        }
    }
}

/// By their number, a worker counts if it is the last one given of its number.
pub proof fn last_given_worker_counts(workers: Seq<Snapshot>, i: int)
    requires
        0 <= i < workers.len(),
        forall|j: int|
            i < j < workers.len() ==> (#[trigger] workers[j]).worker_id != workers[i].worker_id,
    ensures
        by_id(workers).contains(workers[i]),
    decreases workers.len(),
{
    let before = workers.drop_last();
    let last = workers.last();
    let earlier = by_id(before);
    let all = by_id(workers);
    lemma_position(earlier, last.worker_id);
    if i == workers.len() - 1 {
        if position(earlier, last.worker_id) is Some {
            assert(all[position(earlier, last.worker_id)->0] == last);
        } else {
            assert(all[earlier.len() as int] == last);
        }
    } else {
        assert(before[i] == workers[i]);
        assert(workers[workers.len() - 1].worker_id != workers[i].worker_id);
        assert forall|j: int| i < j < before.len() implies (#[trigger] before[j]).worker_id
            != before[i].worker_id by {
            assert(before[j] == workers[j]);
        }
        last_given_worker_counts(before, i);
        let k = choose|k: int| 0 <= k < earlier.len() && earlier[k] == before[i];
        assert(all[k] == workers[i]);
    }
}

/// By their number, no worker counts that was not given, or that one given later replaces.
pub proof fn replaced_workers_do_not_count(workers: Seq<Snapshot>, k: int) -> (i: int)
    requires
        0 <= k < by_id(workers).len(),
    ensures
        0 <= i < workers.len(),
        workers[i] == by_id(workers)[k],
        forall|j: int|
            i < j < workers.len() ==> (#[trigger] workers[j]).worker_id != workers[i].worker_id,
    decreases workers.len(),
{
    let before = workers.drop_last();
    let last = workers.last();
    let earlier = by_id(before);
    let all = by_id(workers);
    lemma_position(earlier, last.worker_id);
    by_id_is_distinct(before);
    if k == earlier.len() || position(earlier, last.worker_id) == Some(k) {
        workers.len() - 1
    } else {
        assert(all[k] == earlier[k]);
        let i = replaced_workers_do_not_count(before, k);
        assert(workers[i] == before[i]);
        assert(earlier[k].worker_id != last.worker_id) by {
            if let Some(p) = position(earlier, last.worker_id) {
                assert(earlier[p].worker_id == last.worker_id);
                assert(p < k || k < p);
            }
        }
        assert forall|j: int| i < j < workers.len() implies (#[trigger] workers[j]).worker_id
            != workers[i].worker_id by {
            if j < before.len() {
                assert(before[j] == workers[j]);
            }
        }
        i
    }
}

/// A target is missing exactly where a task is bound to a worker and none has that number.
pub proof fn missing_targets_are_absent(workers: Seq<Snapshot>, task: TaskInfo, target: WorkerId)
    ensures
        missing_target(workers, task) == Some(target) <==> {
            &&& task.strategy matches SchedulingStrategy::WorkerAffinity { worker_id, soft: _ }
                && worker_id == target
            &&& forall|i: int|
                0 <= i < workers.len() ==> (#[trigger] workers[i]).worker_id != target
        },
{
    lemma_position(workers, target);
}

/// What the tasks of a queue need is listed with the highest priority first, once for each task
/// that is not cancelled.
pub proof fn requests_come_by_priority<P>(pending: Seq<PendingTask<P>>)
    ensures
        exists|order: Seq<RankedRequest>|
            {
                &&& order.len() == requests_in_priority_order(pending).len()
                &&& forall|i: int|
                    0 <= i < order.len() ==> (#[trigger] order[i]).request
                        == requests_in_priority_order(pending)[i]
                &&& forall|i: int, j: int|
                    #![trigger order[i], order[j]]
                    0 <= i <= j < order.len() ==> order[i].priority >= order[j].priority
                &&& #[trigger] order.to_multiset() == pending.filter(
                    |t: PendingTask<P>| !t.cancelled,
                ).map_values(
                    |t: PendingTask<P>|
                        RankedRequest { priority: t.task.priority, request: t.task.request },
                ).to_multiset()
            },
{
    let order = sorted(ranked(pending));
    crate::sort::sorted_is_sorted(ranked(pending));
    assert forall|i: int, j: int|
        #![trigger order[i], order[j]]
        0 <= i <= j < order.len() implies order[i].priority >= order[j].priority by {
        assert(order[i].spec_key() <= order[j].spec_key());
    }
    let waiting = |t: PendingTask<P>| !t.cancelled;
    let rank = |t: PendingTask<P>|
        RankedRequest { priority: t.task.priority, request: t.task.request };
    lemma_ranked(pending, waiting, rank);
}

proof fn lemma_ranked<P>(
    pending: Seq<PendingTask<P>>,
    waiting: spec_fn(PendingTask<P>) -> bool,
    rank: spec_fn(PendingTask<P>) -> RankedRequest,
)
    requires
        forall|t: PendingTask<P>| #[trigger] waiting(t) == !t.cancelled,
        forall|t: PendingTask<P>| #[trigger]
            rank(t) == (RankedRequest { priority: t.task.priority, request: t.task.request }),
    ensures
        ranked(pending) == pending.filter(waiting).map_values(rank),
    decreases pending.len(),
{
    reveal(Seq::filter);
    if pending.len() > 0 {
        lemma_ranked(pending.drop_last(), waiting, rank);
        if waiting(pending.last()) {
            assert(pending.filter(waiting).map_values(rank) =~= pending.drop_last().filter(
                waiting,
            ).map_values(rank).push(rank(pending.last())));
        }
    } else {
        assert(pending.filter(waiting).map_values(rank) =~= Seq::empty());
    }
}

} // verus!
