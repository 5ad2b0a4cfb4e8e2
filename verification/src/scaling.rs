//! Asking for more resources, and giving back workers that have nothing to do.
use vstd::prelude::*;

use crate::sort::{sort, sorted, sorted_contains, sorted_is_sorted, Keyed};
use crate::task::{ResourceRequest, WorkerId};
use crate::text::{parse, parsed, part_reads_true, reads_true};
use crate::worker::RaySwordfishWorker;
use crate::worker_manager::{
    configured_number, distinct_workers, elapsed, lemma_other_releases, lemma_pending_kept,
    lemma_worker_of, noted, number, other_releases, release_times, worker_of, Demand,
    RayWorkerManager, DEFAULT_DOWNSCALE_IDLE_SECS,
};

verus! {

/// One piece of a request for resources, in whole processors and accelerators. What is not
/// needed is left out: a demand for nothing of a kind would still ask for a node that has it.
#[derive(Clone, Copy, Debug, PartialEq, Eq, Structural)]
pub struct ResourceBundle {
    pub cpu: u32,
    pub gpu: Option<u32>,
    pub memory: Option<u64>,
}

/// A request for resources.
#[derive(Debug)]
pub struct AutoscaleRequest {
    pub bundles: Vec<ResourceBundle>,
    /// What it comes to.
    pub demand: Demand,
}

/// What some tasks need together.
pub struct Needs {
    pub num_cpus: nat,
    pub num_gpus: nat,
    pub memory_bytes: nat,
}

/// What the first `n` tasks need together.
pub open spec fn needs(bundles: Seq<ResourceRequest>, n: int) -> Needs
    decreases n,
{
    if n <= 0 {
        Needs { num_cpus: 0, num_gpus: 0, memory_bytes: 0 }
    } else {
        let before = needs(bundles, n - 1);
        Needs {
            num_cpus: before.num_cpus + bundles[n - 1].num_cpus as nat,
            num_gpus: before.num_gpus + bundles[n - 1].num_gpus as nat,
            memory_bytes: before.memory_bytes + bundles[n - 1].memory_bytes as nat,
        }
    }
}

/// What the first `n` workers have together.
pub open spec fn capacity(workers: Seq<RaySwordfishWorker>, n: int) -> Needs
    decreases n,
{
    if n <= 0 {
        Needs { num_cpus: 0, num_gpus: 0, memory_bytes: 0 }
    } else {
        let before = capacity(workers, n - 1);
        Needs {
            num_cpus: before.num_cpus + workers[n - 1].num_cpus as nat,
            num_gpus: before.num_gpus + workers[n - 1].num_gpus as nat,
            memory_bytes: before.memory_bytes + workers[n - 1].total_memory_bytes as nat,
        }
    }
}

/// The larger of two numbers.
pub open spec fn larger(a: nat, b: nat) -> nat {
    if a > b { a } else { b }
}

/// Whether more is needed of some kind.
pub open spec fn surpasses(a: Needs, mark: Needs) -> bool {
    a.num_cpus > mark.num_cpus || a.num_gpus > mark.num_gpus || a.memory_bytes > mark.memory_bytes
}

/// How many of the first `n` tasks need more than the mark, counted from the first, if all
/// together do: as few as that takes.
pub open spec fn enough(bundles: Seq<ResourceRequest>, mark: Needs, n: int) -> Option<int>
    decreases n,
{
    if n <= 0 {
        None
    } else if enough(bundles, mark, n - 1) is Some {
        enough(bundles, mark, n - 1)
    } else if surpasses(needs(bundles, n), mark) {
        Some(n)
    } else {
        None
    }
}

/// A task's need as a piece of a request.
pub open spec fn bundle(request: ResourceRequest) -> ResourceBundle {
    let gpu = (request.num_gpus + 999) / 1000;
    ResourceBundle {
        cpu: ((request.num_cpus + 999) / 1000) as u32,
        gpu: if gpu > 0 {
            Some(gpu as u32)
        } else {
            None
        },
        memory: if 0 < request.memory_bytes <= i64::MAX {
            Some(request.memory_bytes)
        } else {
            None
        },
    }
}

fn to_bundle(request: &ResourceRequest) -> (b: ResourceBundle)
    ensures
        b == bundle(*request),
{
    let cpu: u64 = (request.num_cpus as u64 + 999) / 1000;
    let gpu: u64 = (request.num_gpus as u64 + 999) / 1000;
    ResourceBundle {
        cpu: cpu as u32,
        gpu: if gpu > 0 {
            Some(gpu as u32)
        } else {
            None
        },
        memory: if request.memory_bytes > 0 && request.memory_bytes <= i64::MAX as u64 {
            Some(request.memory_bytes)
        } else {
            None
        },
    }
}

impl Demand {
    /// The same as unbounded numbers.
    pub open spec fn as_needs(self) -> Needs {
        Needs {
            num_cpus: self.num_cpus as nat,
            num_gpus: self.num_gpus as nat,
            memory_bytes: self.memory_bytes as nat,
        }
    }
}

impl RayWorkerManager {
    /// What a request must exceed to be of use: what was asked for before, and what there is.
    pub open spec fn high_water_mark(&self) -> Needs {
        let there = capacity(self.ray_workers@, self.ray_workers@.len() as int);
        let asked = self.max_resources_requested.as_needs();
        Needs {
            num_cpus: larger(asked.num_cpus, there.num_cpus),
            num_gpus: larger(asked.num_gpus, there.num_gpus),
            memory_bytes: larger(asked.memory_bytes, there.memory_bytes),
        }
    }

    /// Whether a request was sent so recently that another one would replace it unseen.
    pub open spec fn asked_recently(&self, now: u64) -> bool {
        self.last_autoscale_request_time matches Some(last) && elapsed(last, now)
            < self.autoscale_interval_secs * 1000
    }

    /// What is asked for, if anything is, given what waiting tasks need. How much can be had is
    /// not known, and a request for too much is not met at all; so each request asks for one
    /// task more than the last one. A session asks for nothing: its demand was fixed before.
    pub fn try_autoscale(&self, bundles: &Vec<ResourceRequest>, now: u64) -> (r: Option<
        AutoscaleRequest,
    >)
        ensures
            r is Some <==> {
                let wanted = needs(bundles@, bundles@.len() as int);
                let there = capacity(self.ray_workers@, self.ray_workers@.len() as int);
                let asked = self.max_resources_requested;
                &&& !self.managed
                &&& self.last_autoscale_request_time matches Some(last) ==> (if now > last {
                    now - last
                } else {
                    0
                }) >= self.autoscale_interval_secs * 1000
                &&& {
                    ||| wanted.num_cpus > asked.num_cpus && wanted.num_cpus > there.num_cpus
                    ||| wanted.num_gpus > asked.num_gpus && wanted.num_gpus > there.num_gpus
                    ||| wanted.memory_bytes > asked.memory_bytes && wanted.memory_bytes
                        > there.memory_bytes
                }
            },
            self.managed || self.asked_recently(now) ==> r is None,
            !self.managed && !self.asked_recently(now) ==> match enough(
                bundles@,
                self.high_water_mark(),
                bundles@.len() as int,
            ) {
                None => r is None,
                Some(k) => {
                    &&& r is Some
                    &&& r->0.demand.as_needs() == needs(bundles@, k)
                    &&& r->0.bundles@.len() == k
                    &&& forall|i: int|
                        0 <= i < k ==> #[trigger] r->0.bundles@[i] == bundle(bundles@[i])
                },
            },
    {
        proof {
            larger_needs_are_asked_for(*self, bundles@);
        }
        if self.managed {
            return None;
        }
        match self.last_autoscale_request_time {
            Some(last) => {
                if (now.saturating_sub(last) as u128) < self.autoscale_interval_secs as u128 * 1000 {
                    return None;
                }
            },
            None => {},
        }
        let mut mark = Demand { num_cpus: 0, num_gpus: 0, memory_bytes: 0 };
        let mut w: usize = 0;
        while w < self.ray_workers.len()
            invariant
                w <= self.ray_workers@.len(),
                mark.as_needs() == capacity(self.ray_workers@, w as int),
                mark.num_cpus <= w * 0xffff_ffff,
                mark.num_gpus <= w * 0xffff_ffff,
                mark.memory_bytes <= w * 0xffff_ffff_ffff_ffff,
            decreases self.ray_workers@.len() - w,
        {
            mark.num_cpus = mark.num_cpus + self.ray_workers[w].num_cpus as u128;
            mark.num_gpus = mark.num_gpus + self.ray_workers[w].num_gpus as u128;
            mark.memory_bytes = mark.memory_bytes + self.ray_workers[w].total_memory_bytes as u128;
            w = w + 1;
        }
        if self.max_resources_requested.num_cpus > mark.num_cpus {
            mark.num_cpus = self.max_resources_requested.num_cpus;
        }
        if self.max_resources_requested.num_gpus > mark.num_gpus {
            mark.num_gpus = self.max_resources_requested.num_gpus;
        }
        if self.max_resources_requested.memory_bytes > mark.memory_bytes {
            mark.memory_bytes = self.max_resources_requested.memory_bytes;
        }
        assert(mark.as_needs() == self.high_water_mark());
        let mut sum = Demand { num_cpus: 0, num_gpus: 0, memory_bytes: 0 };
        let mut selected: Vec<ResourceBundle> = Vec::new();
        let mut i: usize = 0;
        while i < bundles.len()
            invariant
                i <= bundles@.len(),
                mark.as_needs() == self.high_water_mark(),
                !self.managed,
                !self.asked_recently(now),
                sum.as_needs() == needs(bundles@, i as int),
                sum.num_cpus <= i * 0xffff_ffff,
                sum.num_gpus <= i * 0xffff_ffff,
                sum.memory_bytes <= i * 0xffff_ffff_ffff_ffff,
                selected@.len() == i,
                forall|k: int| 0 <= k < i ==> #[trigger] selected@[k] == bundle(bundles@[k]),
                enough(bundles@, self.high_water_mark(), i as int) is None,
            decreases bundles@.len() - i,
        {
            sum.num_cpus = sum.num_cpus + bundles[i].num_cpus as u128;
            sum.num_gpus = sum.num_gpus + bundles[i].num_gpus as u128;
            sum.memory_bytes = sum.memory_bytes + bundles[i].memory_bytes as u128;
            selected.push(to_bundle(&bundles[i]));
            i = i + 1;
            if sum.num_cpus > mark.num_cpus || sum.num_gpus > mark.num_gpus || sum.memory_bytes
                > mark.memory_bytes {
                proof {
                    larger_needs_are_asked_for(*self, bundles@);
                    lemma_enough_stays(
                        bundles@,
                        self.high_water_mark(),
                        i as int,
                        bundles@.len() as int,
                    );
                }
                return Some(AutoscaleRequest { bundles: selected, demand: sum });
            }
        }
        None
    }

    /// Takes note that a request was sent. Nodes whose workers were retired not long ago may
    /// get one again, and workers are looked for at once.
    pub fn autoscale_sent(&mut self, demand: Demand, now: u64)
        requires
            old(self).wf(),
        ensures
            final(self).wf(),
            final(self).pending_release@.len() == 0,
            *final(self) == (RayWorkerManager {
                pending_release: final(self).pending_release,
                last_refresh: None,
                max_resources_requested: demand,
                last_autoscale_request_time: Some(now),
                ..*old(self)
            }),
    {
        self.pending_release = Vec::new();
        self.last_refresh = None;
        self.max_resources_requested = demand;
        self.last_autoscale_request_time = Some(now);
    }
}

proof fn lemma_enough_stays(bundles: Seq<ResourceRequest>, mark: Needs, n: int, all: int)
    requires
        0 <= n <= all,
        enough(bundles, mark, n) is Some,
    ensures
        enough(bundles, mark, all) == enough(bundles, mark, n),
    decreases all - n,
{
    if n < all {
        lemma_enough_stays(bundles, mark, n + 1, all);
    }
}

/// A request exceeds, of some kind, all that was asked for before and all that there is; with
/// one task less it would not.
pub proof fn requests_grow_one_task_at_a_time(bundles: Seq<ResourceRequest>, mark: Needs, n: int)
    requires
        0 <= n <= bundles.len(),
        enough(bundles, mark, n) is Some,
    ensures
        1 <= enough(bundles, mark, n)->0 <= n,
        surpasses(needs(bundles, enough(bundles, mark, n)->0), mark),
        forall|k: int|
            0 <= k < enough(bundles, mark, n)->0 ==> !surpasses(#[trigger] needs(bundles, k), mark),
    decreases n,
{
    if n > 0 {
        if enough(bundles, mark, n - 1) is Some {
            requests_grow_one_task_at_a_time(bundles, mark, n - 1);
        } else {
            assert forall|k: int| 0 <= k < n implies !surpasses(#[trigger] needs(bundles, k), mark) by {
                lemma_not_enough(bundles, mark, n - 1, k);
            }
        }
    }
}

proof fn lemma_not_enough(bundles: Seq<ResourceRequest>, mark: Needs, n: int, k: int)
    requires
        enough(bundles, mark, n) is None,
        0 <= k <= n,
    ensures
        !surpasses(needs(bundles, k), mark),
    decreases n,
{
    if k < n {
        lemma_not_enough(bundles, mark, n - 1, k);
    }
}

/// An idle worker that may be given back.
#[derive(Clone, Copy, Debug)]
pub struct Candidate {
    pub worker_id: WorkerId,
    /// How long it has had nothing to do, in whole seconds.
    pub idle_secs: u64,
}

impl Keyed for Candidate {
    open spec fn spec_key(&self) -> int {
        -(self.idle_secs as int)
    }

    fn not_after(&self, other: &Self) -> (b: bool) {
        self.idle_secs >= other.idle_secs
    }
}

/// Whether a setting switches something on.
pub open spec fn switched_on(text: Option<&str>) -> bool {
    match text {
        None => false,
        Some(text) => reads_true(text@),
    }
}

/// Whether a setting switches something on.
pub fn is_switched_on(text: Option<&str>) -> (b: bool)
    ensures
        b == switched_on(text),
{
    match text {
        None => false,
        Some(text) => {
            assert(text@.subrange(0, text@.len() as int) =~= text@);
            part_reads_true(text, 0, text.unicode_len())
        },
    }
}

/// What is to be done about idle workers.
#[derive(Clone, Copy, Debug, PartialEq, Eq, Structural)]
pub struct DownscalePlan {
    /// Whether the request for resources is taken back first.
    pub clear_demand: bool,
    /// How many workers may be given back.
    pub allowed: usize,
}

/// How many workers are kept at least.
pub open spec fn min_survivors(text: Option<&str>) -> nat {
    match text {
        Some(text) => match parsed(text@, usize::MAX as nat) {
            Some(n) => n,
            None => 1,
        },
        None => 1,
    }
}

/// What is to be done about idle workers, given how many there are.
pub open spec fn downscale_plan(
    managed: bool,
    enabled: bool,
    scaling_up: bool,
    force_all: bool,
    workers: nat,
    survivors: nat,
) -> DownscalePlan {
    if managed || !enabled {
        DownscalePlan { clear_demand: false, allowed: 0 }
    } else {
        DownscalePlan {
            clear_demand: force_all,
            allowed: if force_all {
                workers as usize
            } else if scaling_up || workers <= survivors {
                0
            } else {
                (workers - survivors) as usize
            },
        }
    }
}

/// How long a worker must have had nothing to do before it is given back, in seconds; at the end
/// of all work, any worker may go.
pub fn idle_threshold(force_all: bool, configured: Option<&str>) -> (secs: Option<u64>)
    ensures
        force_all ==> secs is None,
        !force_all ==> secs == Some(number(configured, DEFAULT_DOWNSCALE_IDLE_SECS)),
{
    if force_all {
        None
    } else {
        Some(configured_number(configured, DEFAULT_DOWNSCALE_IDLE_SECS))
    }
}

impl RayWorkerManager {
    /// What is to be done about idle workers. While resources are being asked for, none is
    /// given back; at the end of all work, all may be.
    pub fn plan_downscale(
        &self,
        enabled: Option<&str>,
        survivors: Option<&str>,
        scaling_up: bool,
        force_all: bool,
    ) -> (p: DownscalePlan)
        ensures
            p == downscale_plan(
                self.managed,
                switched_on(enabled),
                scaling_up,
                force_all,
                self.ray_workers@.len(),
                min_survivors(survivors),
            ),
    {
        if self.managed || !is_switched_on(enabled) {
            return DownscalePlan { clear_demand: false, allowed: 0 };
        }
        let kept: usize = match survivors {
            Some(text) => match parse(text, usize::MAX as u64) {
                Some(n) => n as usize,
                None => 1,
            },
            None => 1,
        };
        let workers: usize = self.ray_workers.len();
        let allowed: usize = if force_all {
            workers
        } else if scaling_up {
            0
        } else {
            workers.saturating_sub(kept)
        };
        DownscalePlan { clear_demand: force_all, allowed }
    }

    /// Whether a worker may be given back: it is not on the head node, nothing keeps it, and
    /// it has had nothing to do for long enough.
    pub open spec fn may_go(
        worker: RaySwordfishWorker,
        head: Option<Seq<char>>,
        threshold_secs: Option<u64>,
        now: u64,
    ) -> bool {
        &&& head != Some(worker.node_id@)
        &&& worker.free()
        &&& threshold_secs matches Some(secs) ==> worker.idle_millis(now) / 1000 >= secs
    }

    /// Those of the first `n` workers that may be given back.
    pub open spec fn candidates(
        workers: Seq<RaySwordfishWorker>,
        head: Option<Seq<char>>,
        threshold_secs: Option<u64>,
        now: u64,
        n: int,
    ) -> Seq<Candidate>
        decreases n,
    {
        if n <= 0 {
            Seq::empty()
        } else {
            let before = RayWorkerManager::candidates(workers, head, threshold_secs, now, n - 1);
            if RayWorkerManager::may_go(workers[n - 1], head, threshold_secs, now) {
                before.push(
                    Candidate {
                        worker_id: workers[n - 1].worker_id,
                        idle_secs: workers[n - 1].idle_millis(now) / 1000,
                    },
                )
            } else {
                before
            }
        }
    }

    /// The workers that are given back: of those that may go, as many as allowed, those first
    /// that have had nothing to do for longest.
    pub open spec fn chosen(
        workers: Seq<RaySwordfishWorker>,
        head: Option<Seq<char>>,
        threshold_secs: Option<u64>,
        now: u64,
        allowed: int,
    ) -> Seq<Candidate> {
        let all = sorted(
            RayWorkerManager::candidates(
                workers,
                head,
                threshold_secs,
                now,
                workers.len() as int,
            ),
        );
        if allowed < all.len() {
            all.take(allowed)
        } else {
            all
        }
    }
}

proof fn lemma_candidates(
    workers: Seq<RaySwordfishWorker>,
    head: Option<Seq<char>>,
    threshold_secs: Option<u64>,
    now: u64,
    n: int,
)
    requires
        distinct_workers(workers),
        0 <= n <= workers.len(),
    ensures
        ({
            let all = RayWorkerManager::candidates(workers, head, threshold_secs, now, n);
            &&& all.len() <= n
            &&& all.no_duplicates()
            &&& forall|c: int|
                0 <= c < all.len() ==> exists|i: int|
                    0 <= i < n && is_candidate(
                        #[trigger] workers[i],
                        head,
                        threshold_secs,
                        now,
                        #[trigger] all[c],
                    )
        }),
    decreases n,
{
    if n > 0 {
        lemma_candidates(workers, head, threshold_secs, now, n - 1);
        let before = RayWorkerManager::candidates(workers, head, threshold_secs, now, n - 1);
        let all = RayWorkerManager::candidates(workers, head, threshold_secs, now, n);
        assert forall|c: int| 0 <= c < all.len() implies exists|i: int|
            0 <= i < n && is_candidate(
                #[trigger] workers[i],
                head,
                threshold_secs,
                now,
                #[trigger] all[c],
            ) by {
            if c < before.len() {
                assert(all[c] == before[c]);
                let i = choose|i: int|
                    0 <= i < n - 1 && is_candidate(
                        #[trigger] workers[i],
                        head,
                        threshold_secs,
                        now,
                        before[c],
                    );
                assert(is_candidate(workers[i], head, threshold_secs, now, all[c]));
            } else {
                assert(is_candidate(workers[n - 1], head, threshold_secs, now, all[c]));
            }
        }
        if RayWorkerManager::may_go(workers[n - 1], head, threshold_secs, now) {
            assert forall|a: int, b: int|
                0 <= a < all.len() && 0 <= b < all.len() && a != b implies all[a] != all[b] by {
                let old_one = if a < b { a } else { b };
                let new_one = if a < b { b } else { a };
                assert(all[old_one] == before[old_one]);
                if new_one < before.len() {
                    assert(all[new_one] == before[new_one]);
                } else {
                    let i = choose|i: int|
                        0 <= i < n - 1 && is_candidate(
                            #[trigger] workers[i],
                            head,
                            threshold_secs,
                            now,
                            before[old_one],
                        );
                    assert(workers[i].worker_id != workers[n - 1].worker_id);
                }
            }
        }
    }
}

/// Whether a worker may be given back, and how it is known then.
pub open spec fn is_candidate(
    worker: RaySwordfishWorker,
    head: Option<Seq<char>>,
    threshold_secs: Option<u64>,
    now: u64,
    candidate: Candidate,
) -> bool {
    &&& RayWorkerManager::may_go(worker, head, threshold_secs, now)
    &&& candidate.worker_id == worker.worker_id
    &&& candidate.idle_secs == worker.idle_millis(now) / 1000
}

/// Only workers that may go are given back, each once and no more than allowed, and none goes
/// before one that has had nothing to do for longer.
pub proof fn chosen_workers_may_go(
    workers: Seq<RaySwordfishWorker>,
    head: Option<Seq<char>>,
    threshold_secs: Option<u64>,
    now: u64,
    allowed: int,
)
    requires
        distinct_workers(workers),
        0 <= allowed,
    ensures
        ({
            let all = RayWorkerManager::chosen(workers, head, threshold_secs, now, allowed);
            &&& all.len() <= allowed
            &&& all.len() <= workers.len()
            &&& forall|c: int|
                0 <= c < all.len() ==> exists|i: int|
                    0 <= i < workers.len() && is_candidate(
                        #[trigger] workers[i],
                        head,
                        threshold_secs,
                        now,
                        #[trigger] all[c],
                    )
            &&& forall|a: int, b: int|
                #![trigger all[a], all[b]]
                0 <= a < b < all.len() ==> all[a].worker_id != all[b].worker_id
                    && all[a].idle_secs >= all[b].idle_secs
        }),
{
    let n = workers.len() as int;
    let found = RayWorkerManager::candidates(workers, head, threshold_secs, now, n);
    let ordered = sorted(found);
    let all = RayWorkerManager::chosen(workers, head, threshold_secs, now, allowed);
    lemma_candidates(workers, head, threshold_secs, now, n);
    sorted_is_sorted(found);
    sorted_contains(found);
    found.lemma_multiset_has_no_duplicates();
    assert forall|c: int| 0 <= c < all.len() implies exists|i: int|
        0 <= i < workers.len() && is_candidate(
            #[trigger] workers[i],
            head,
            threshold_secs,
            now,
            #[trigger] all[c],
        ) by {
        assert(all[c] == ordered[c]);
        assert(ordered.contains(ordered[c]));
        let k = choose|k: int| 0 <= k < found.len() && found[k] == ordered[c];
        let i = choose|i: int|
            0 <= i < n && is_candidate(
                #[trigger] workers[i],
                head,
                threshold_secs,
                now,
                found[k],
            );
        assert(is_candidate(workers[i], head, threshold_secs, now, all[c]));
    }
    assert forall|a: int, b: int|
        #![trigger all[a], all[b]]
        0 <= a < b < all.len() implies all[a].worker_id != all[b].worker_id && all[a].idle_secs
        >= all[b].idle_secs by {
        assert(all[a] == ordered[a] && all[b] == ordered[b]);
        assert(ordered[a].spec_key() <= ordered[b].spec_key());
        if all[a].worker_id == all[b].worker_id {
            let i = choose|i: int|
                0 <= i < workers.len() && is_candidate(
                    #[trigger] workers[i],
                    head,
                    threshold_secs,
                    now,
                    all[a],
                );
            let j = choose|j: int|
                0 <= j < workers.len() && is_candidate(
                    #[trigger] workers[j],
                    head,
                    threshold_secs,
                    now,
                    all[b],
                );
            if i < j {
                assert(workers[i].worker_id != workers[j].worker_id);
            } else if j < i {
                assert(workers[j].worker_id != workers[i].worker_id);
            }
            assert(ordered[a] == ordered[b]);
            lemma_twice_counts_twice(ordered, a, b);
            assert(found.to_multiset().contains(ordered[a]));
        }
    }
}

proof fn lemma_twice_counts_twice<T>(s: Seq<T>, a: int, b: int)
    requires
        0 <= a < b < s.len(),
        s[a] == s[b],
    ensures
        s.to_multiset().count(s[a]) >= 2,
    decreases s.len(),
{
    broadcast use vstd::seq_lib::group_to_multiset_ensures;

    let before = s.drop_last();
    assert(before.push(s.last()) =~= s);
    assert(s.to_multiset() =~= before.to_multiset().insert(s.last()));
    if b == s.len() - 1 {
        before.to_multiset_ensures();
        assert(before[a] == s[a]);
        assert(before.contains(s[a]));
    } else {
        assert(before[a] == s[a] && before[b] == s[b]);
        lemma_twice_counts_twice(before, a, b);
    }
}

impl RayWorkerManager {
    fn choose_idle(
        &self,
        allowed: usize,
        threshold_secs: Option<u64>,
        head: &Option<String>,
        now: u64,
    ) -> (out: Vec<Candidate>)
        ensures
            out@ == RayWorkerManager::chosen(
                self.ray_workers@,
                head_text(*head),
                threshold_secs,
                now,
                allowed as int,
            ),
    {
        let mut found: Vec<Candidate> = Vec::new();
        let mut i: usize = 0;
        while i < self.ray_workers.len()
            invariant
                i <= self.ray_workers@.len(),
                found@ == RayWorkerManager::candidates(
                    self.ray_workers@,
                    head_text(*head),
                    threshold_secs,
                    now,
                    i as int,
                ),
            decreases self.ray_workers@.len() - i,
        {
            let worker: &RaySwordfishWorker = &self.ray_workers[i];
            let on_head: bool = match head {
                Some(node) => worker.node_id == *node,
                None => false,
            };
            let idle_secs: u64 = worker.idle_duration(now) / 1000;
            let long_enough: bool = match threshold_secs {
                Some(secs) => idle_secs >= secs,
                None => true,
            };
            if !on_head && worker.can_retire() && long_enough {
                found.push(Candidate { worker_id: worker.worker_id, idle_secs });
            }
            i = i + 1;
        }
        let mut ordered: Vec<Candidate> = sort(found);
        if allowed < ordered.len() {
            ordered.truncate(allowed);
        }
        assert(ordered@ =~= RayWorkerManager::chosen(
            self.ray_workers@,
            head_text(*head),
            threshold_secs,
            now,
            allowed as int,
        ));
        ordered
    }

    /// Gives idle workers back. Their nodes get no worker for a while, what was asked for is
    /// forgotten, and workers are looked for at once. Where none may go, nothing changes.
    pub fn retire_idle_workers(
        &mut self,
        allowed: usize,
        threshold_secs: Option<u64>,
        head: Option<String>,
        now: u64,
    ) -> (released: Vec<RaySwordfishWorker>)
        requires
            old(self).wf(),
        ensures
            final(self).wf(),
            ({
                let chosen = RayWorkerManager::chosen(
                    old(self).ray_workers@,
                    head_text(head),
                    threshold_secs,
                    now,
                    allowed as int,
                );
                &&& released@.len() == chosen.len()
                &&& forall|c: int|
                    0 <= c < chosen.len() ==> Some(#[trigger] released@[c]) == worker_of(
                        old(self).ray_workers@,
                        chosen[c].worker_id,
                    )
                &&& forall|id: WorkerId| #[trigger]
                    worker_of(final(self).ray_workers@, id) == (if is_chosen(chosen, id) {
                        None
                    } else {
                        worker_of(old(self).ray_workers@, id)
                    })
                &&& final(self).ray_workers@.len() == old(self).ray_workers@.len() - chosen.len()
            }),
            allowed == 0 ==> *final(self) == *old(self),
            allowed > 0 ==> release_times(final(self).pending_release@) == noted_all(
                release_times(old(self).pending_release@),
                released@,
                now,
                released@.len() as int,
            ),
            allowed > 0 ==> *final(self) == (RayWorkerManager {
                ray_workers: final(self).ray_workers,
                pending_release: final(self).pending_release,
                max_resources_requested: Demand { num_cpus: 0, num_gpus: 0, memory_bytes: 0 },
                last_refresh: None,
                ..*old(self)
            }),
    {
        if allowed == 0 {
            return Vec::new();
        }
        let chosen: Vec<Candidate> = self.choose_idle(allowed, threshold_secs, &head, now);
        let ghost workers = self.ray_workers@;
        let ghost times = release_times(self.pending_release@);
        proof {
            chosen_workers_may_go(workers, head_text(head), threshold_secs, now, allowed as int);
        }
        let mut released: Vec<RaySwordfishWorker> = Vec::new();
        let mut c: usize = 0;
        while c < chosen.len()
            invariant
                c <= chosen@.len(),
                self.wf(),
                distinct_workers(workers),
                workers == old(self).ray_workers@,
                times == release_times(old(self).pending_release@),
                *self == (RayWorkerManager {
                    ray_workers: self.ray_workers,
                    pending_release: self.pending_release,
                    ..*old(self)
                }),
                forall|k: int|
                    0 <= k < chosen@.len() ==> exists|i: int|
                        0 <= i < workers.len() && is_candidate(
                            #[trigger] workers[i],
                            head_text(head),
                            threshold_secs,
                            now,
                            #[trigger] chosen@[k],
                        ),
                forall|a: int, b: int|
                    #![trigger chosen@[a], chosen@[b]]
                    0 <= a < b < chosen@.len() ==> chosen@[a].worker_id != chosen@[b].worker_id,
                released@.len() == c,
                forall|k: int|
                    0 <= k < c ==> Some(#[trigger] released@[k]) == worker_of(
                        workers,
                        chosen@[k].worker_id,
                    ),
                forall|id: WorkerId| #[trigger]
                    worker_of(self.ray_workers@, id) == (if is_chosen(
                        chosen@.take(c as int),
                        id,
                    ) {
                        None
                    } else {
                        worker_of(workers, id)
                    }),
                self.ray_workers@.len() == workers.len() - c,
                release_times(self.pending_release@) == noted_all(times, released@, now, c as int),
            decreases chosen@.len() - c,
        {
            let id: WorkerId = chosen[c].worker_id;
            let ghost before = self.ray_workers@;
            proof {
                lemma_worker_of(workers, id);
                let i = choose|i: int|
                    0 <= i < workers.len() && is_candidate(
                        #[trigger] workers[i],
                        head_text(head),
                        threshold_secs,
                        now,
                        chosen@[c as int],
                    );
                assert(workers[i].worker_id == id);
                assert(worker_of(workers, id) == Some(workers[i]));
                assert(!is_chosen(chosen@.take(c as int), id)) by {
                    if is_chosen(chosen@.take(c as int), id) {
                        let k = choose|k: int|
                            0 <= k < c && (#[trigger] chosen@.take(c as int)[k]).worker_id == id;
                        assert(chosen@[k].worker_id != chosen@[c as int].worker_id);
                    }
                }
                assert(worker_of(before, id) is Some);
                lemma_worker_of(before, id);
            }
            match self.find_worker(id) {
                Some(at) => {
                    let worker: RaySwordfishWorker = self.remove_worker(at);
                    self.note_release(worker.node_id.clone(), now);
                    let ghost earlier = released@;
                    released.push(worker);
                    proof {
                        lemma_noted_prefix(times, earlier, released@, now, c as int);
                    }
                },
                None => {
                    assert(false);
                },
            }
            proof {
                assert forall|other: WorkerId| #[trigger] worker_of(self.ray_workers@, other) == (
                if is_chosen(chosen@.take(c + 1), other) {
                    None
                } else {
                    worker_of(workers, other)
                }) by {
                    let shorter = chosen@.take(c as int);
                    let longer = chosen@.take(c + 1);
                    if is_chosen(shorter, other) {
                        let k = choose|k: int|
                            0 <= k < shorter.len() && (#[trigger] shorter[k]).worker_id == other;
                        assert(longer[k].worker_id == other);
                    } else if other == id {
                        assert(longer[c as int].worker_id == other);
                    } else if is_chosen(longer, other) {
                        let k = choose|k: int|
                            0 <= k < longer.len() && (#[trigger] longer[k]).worker_id == other;
                        assert(shorter[k].worker_id == other);
                    }
                }
            }
            c = c + 1;
        }
        assert(chosen@.take(c as int) =~= chosen@);
        self.max_resources_requested = Demand { num_cpus: 0, num_gpus: 0, memory_bytes: 0 };
        self.last_refresh = None;
        released
    }
}

/// The releases once the nodes of the first `n` workers are noted.
pub open spec fn noted_all(
    times: Seq<(Seq<char>, u64)>,
    released: Seq<RaySwordfishWorker>,
    now: u64,
    n: int,
) -> Seq<(Seq<char>, u64)>
    decreases n,
{
    if n <= 0 {
        times
    } else {
        noted(noted_all(times, released, now, n - 1), released[n - 1].node_id@, now)
    }
}

proof fn lemma_noted_prefix(
    times: Seq<(Seq<char>, u64)>,
    a: Seq<RaySwordfishWorker>,
    b: Seq<RaySwordfishWorker>,
    now: u64,
    n: int,
)
    requires
        n <= a.len(),
        n <= b.len(),
        forall|i: int| 0 <= i < n ==> #[trigger] a[i] == b[i],
    ensures
        noted_all(times, a, now, n) == noted_all(times, b, now, n),
    decreases n,
{
    if n > 0 {
        lemma_noted_prefix(times, a, b, now, n - 1);
        assert(a[n - 1] == b[n - 1]);
    }
}

proof fn lemma_noted(
    times: Seq<(Seq<char>, u64)>,
    released: Seq<RaySwordfishWorker>,
    now: u64,
    n: int,
)
    requires
        0 <= n <= released.len(),
    ensures
        forall|c: int|
            0 <= c < n ==> noted_all(times, released, now, n).contains(
                ((#[trigger] released[c]).node_id@, now),
            ),
    decreases n,
{
    if n > 0 {
        lemma_noted(times, released, now, n - 1);
        let before = noted_all(times, released, now, n - 1);
        let all = noted_all(times, released, now, n);
        let node = released[n - 1].node_id@;
        let others = other_releases(before, node, before.len() as int);
        lemma_other_releases(before, node, before.len() as int);
        assert forall|c: int| 0 <= c < n implies all.contains(
            ((#[trigger] released[c]).node_id@, now),
        ) by {
            let entry = (released[c].node_id@, now);
            if entry.0 == node {
                assert(all[others.len() as int] == entry);
            } else {
                let i = choose|i: int| 0 <= i < before.len() && before[i] == entry;
                assert(others.contains(before[i]));
                let k = choose|k: int| 0 <= k < others.len() && others[k] == entry;
                assert(all[k] == entry);
            }
        }
    }
}

/// A node whose worker was given back gets no other worker before the time that is set for that
/// has gone by.
pub proof fn released_nodes_wait(
    before: RayWorkerManager,
    after: RayWorkerManager,
    later: RayWorkerManager,
    released: Seq<RaySwordfishWorker>,
    c: int,
    at: u64,
    now: u64,
    ttl_secs: u64,
)
    requires
        0 <= c < released.len(),
        release_times(after.pending_release@) == noted_all(
            release_times(before.pending_release@),
            released,
            at,
            released.len() as int,
        ),
        later.pending_release@ == RayWorkerManager::pending_kept(
            after.pending_release@,
            now,
            ttl_secs,
            after.pending_release@.len() as int,
        ),
        elapsed(at, now) < ttl_secs * 1000,
    ensures
        later.skip_list().contains(released[c].node_id@),
{
    let node = released[c].node_id@;
    let releases = after.pending_release@;
    let times = release_times(releases);
    lemma_noted(release_times(before.pending_release@), released, at, released.len() as int);
    lemma_pending_kept(releases, now, ttl_secs, releases.len() as int);
    assert(times.contains((released[c].node_id@, at)));
    let i = choose|i: int| 0 <= i < times.len() && times[i] == (node, at);
    assert(times[i] == (releases[i].node_id@, releases[i].since));
    assert(RayWorkerManager::still_pending(releases[i], now, ttl_secs));
    let kept = later.pending_release@;
    let k = choose|k: int| 0 <= k < kept.len() && kept[k] == releases[i];
    let live = RayWorkerManager::live_nodes(later.ray_workers@, later.ray_workers@.len() as int);
    assert(later.skip_list()[live.len() + k] == node);
}

/// Whether a worker is among those that are given back.
pub open spec fn is_chosen(chosen: Seq<Candidate>, worker_id: WorkerId) -> bool {
    exists|k: int| 0 <= k < chosen.len() && (#[trigger] chosen[k]).worker_id == worker_id
}

/// The name of the head node, if it is known.
pub open spec fn head_text(head: Option<String>) -> Option<Seq<char>> {
    match head {
        Some(node) => Some(node@),
        None => None,
    }
}

/// Unless all work is over, giving workers back leaves as many as are to be kept, or all, where
/// there are no more than that.
pub proof fn survivors_remain(
    managed: bool,
    enabled: bool,
    scaling_up: bool,
    workers: Seq<RaySwordfishWorker>,
    survivors: nat,
    head: Option<Seq<char>>,
    threshold_secs: Option<u64>,
    now: u64,
)
    requires
        distinct_workers(workers),
        workers.len() <= usize::MAX,
    ensures
        ({
            let plan = downscale_plan(
                managed,
                enabled,
                scaling_up,
                false,
                workers.len(),
                survivors,
            );
            let gone = RayWorkerManager::chosen(
                workers,
                head,
                threshold_secs,
                now,
                plan.allowed as int,
            );
            &&& workers.len() - gone.len() >= survivors || gone.len() == 0
            &&& !plan.clear_demand
        }),
{
    let plan = downscale_plan(managed, enabled, scaling_up, false, workers.len(), survivors);
    chosen_workers_may_go(workers, head, threshold_secs, now, plan.allowed as int);
}

/// What tasks need and what workers have is counted one by one, of each kind.
pub proof fn needs_and_capacity_add_up(
    bundles: Seq<ResourceRequest>,
    workers: Seq<RaySwordfishWorker>,
    n: int,
)
    requires
        0 <= n,
    ensures
        needs(bundles, 0) == (Needs { num_cpus: 0, num_gpus: 0, memory_bytes: 0 }),
        capacity(workers, 0) == (Needs { num_cpus: 0, num_gpus: 0, memory_bytes: 0 }),
        needs(bundles, n + 1).num_cpus == needs(bundles, n).num_cpus + bundles[n].num_cpus,
        needs(bundles, n + 1).num_gpus == needs(bundles, n).num_gpus + bundles[n].num_gpus,
        needs(bundles, n + 1).memory_bytes == needs(bundles, n).memory_bytes
            + bundles[n].memory_bytes,
        capacity(workers, n + 1).num_cpus == capacity(workers, n).num_cpus + workers[n].num_cpus,
        capacity(workers, n + 1).num_gpus == capacity(workers, n).num_gpus + workers[n].num_gpus,
        capacity(workers, n + 1).memory_bytes == capacity(workers, n).memory_bytes
            + workers[n].total_memory_bytes,
{
}

proof fn lemma_needs_grow(bundles: Seq<ResourceRequest>, a: int, b: int)
    requires
        0 <= a <= b,
    ensures
        needs(bundles, a).num_cpus <= needs(bundles, b).num_cpus,
        needs(bundles, a).num_gpus <= needs(bundles, b).num_gpus,
        needs(bundles, a).memory_bytes <= needs(bundles, b).memory_bytes,
    decreases b - a,
{
    if a < b {
        lemma_needs_grow(bundles, a, b - 1);
    }
}

/// Something is asked for exactly where the waiting tasks together need more processors, or more
/// accelerators, or more memory than both what was asked for before and what the workers have.
pub proof fn larger_needs_are_asked_for(manager: RayWorkerManager, bundles: Seq<ResourceRequest>)
    ensures
        enough(bundles, manager.high_water_mark(), bundles.len() as int) is Some <==> {
            let wanted = needs(bundles, bundles.len() as int);
            let there = capacity(manager.ray_workers@, manager.ray_workers@.len() as int);
            let asked = manager.max_resources_requested;
            ||| wanted.num_cpus > asked.num_cpus && wanted.num_cpus > there.num_cpus
            ||| wanted.num_gpus > asked.num_gpus && wanted.num_gpus > there.num_gpus
            ||| wanted.memory_bytes > asked.memory_bytes && wanted.memory_bytes > there.memory_bytes
        },
{
    let n = bundles.len() as int;
    let mark = manager.high_water_mark();
    match enough(bundles, mark, n) {
        Some(k) => {
            requests_grow_one_task_at_a_time(bundles, mark, n);
            lemma_needs_grow(bundles, k, n);
        },
        None => {
            lemma_not_enough(bundles, mark, n, n);
        },
    }
}

/// A request covers the waiting tasks from the first one on, up to the one with which they need
/// more of some kind than was asked for before and than there is; before that one they need no
/// more of any kind.
pub proof fn requests_end_with_the_first_excess(
    manager: RayWorkerManager,
    bundles: Seq<ResourceRequest>,
    k: int,
)
    requires
        enough(bundles, manager.high_water_mark(), bundles.len() as int) == Some(k),
    ensures
        ({
            let there = capacity(manager.ray_workers@, manager.ray_workers@.len() as int);
            let asked = manager.max_resources_requested;
            let with = needs(bundles, k);
            let without = needs(bundles, k - 1);
            &&& 1 <= k <= bundles.len()
            &&& {
                ||| with.num_cpus > asked.num_cpus && with.num_cpus > there.num_cpus
                ||| with.num_gpus > asked.num_gpus && with.num_gpus > there.num_gpus
                ||| with.memory_bytes > asked.memory_bytes && with.memory_bytes > there.memory_bytes
            }
            &&& without.num_cpus <= asked.num_cpus || without.num_cpus <= there.num_cpus
            &&& without.num_gpus <= asked.num_gpus || without.num_gpus <= there.num_gpus
            &&& without.memory_bytes <= asked.memory_bytes || without.memory_bytes
                <= there.memory_bytes
        }),
{
    let mark = manager.high_water_mark();
    requests_grow_one_task_at_a_time(bundles, mark, bundles.len() as int);
    assert(!surpasses(needs(bundles, k - 1), mark));
}

/// A piece of a request covers the need of its task with no whole processor or accelerator to
/// spare, names an accelerator only where one is needed, and names memory only as far as it can
/// be written down.
pub proof fn bundles_cover_their_tasks(request: ResourceRequest)
    ensures
        ({
            let b = bundle(request);
            &&& (b.cpu - 1) * 1000 < request.num_cpus <= b.cpu * 1000
            &&& b.gpu is None <==> request.num_gpus == 0
            &&& b.gpu matches Some(gpu) ==> (gpu - 1) * 1000 < request.num_gpus <= gpu * 1000
            &&& b.memory is Some <==> 0 < request.memory_bytes <= 0x7fff_ffff_ffff_ffff
            &&& b.memory matches Some(memory) ==> memory == request.memory_bytes
        }),
{
}

/// How long a worker that runs no task has had nothing to do is what has gone by since its last
/// task was over.
pub proof fn idle_time_runs_from_the_last_task(worker: RaySwordfishWorker, now: u64)
    ensures
        worker.active@.len() > 0 ==> worker.idle_millis(now) == 0,
        worker.active@.len() == 0 && now >= worker.last_task_finished_at ==> worker.idle_millis(now)
            == now - worker.last_task_finished_at,
        now < worker.last_task_finished_at ==> worker.idle_millis(now) == 0,
{
}

/// Every worker that is given back runs no task, keeps no data of a query, is not in doubt, is
/// not on the head node, and has had nothing to do for as long as asked.
pub proof fn only_idle_workers_are_given_back(
    workers: Seq<RaySwordfishWorker>,
    head: Option<Seq<char>>,
    threshold_secs: Option<u64>,
    now: u64,
    allowed: int,
    c: int,
) -> (i: int)
    requires
        distinct_workers(workers),
        0 <= allowed,
        0 <= c < RayWorkerManager::chosen(workers, head, threshold_secs, now, allowed).len(),
    ensures
        ({
            let w = workers[i];
            let idle = if now > w.last_task_finished_at { now - w.last_task_finished_at } else { 0 };
            let gone = RayWorkerManager::chosen(workers, head, threshold_secs, now, allowed)[c];
            &&& 0 <= i < workers.len()
            &&& gone.worker_id == w.worker_id
            &&& gone.idle_secs * 1000 <= idle < (gone.idle_secs + 1) * 1000
            &&& head != Some(w.node_id@)
            &&& w.active@.len() == 0
            &&& w.drain.data_queries@ == Set::<crate::drain::QueryIdx>::empty()
            &&& w.drain.unknown is None
            &&& threshold_secs matches Some(secs) ==> idle >= secs * 1000
        }),
{
    chosen_workers_may_go(workers, head, threshold_secs, now, allowed);
    let gone = RayWorkerManager::chosen(workers, head, threshold_secs, now, allowed);
    let i = choose|i: int|
        0 <= i < workers.len() && is_candidate(
            #[trigger] workers[i],
            head,
            threshold_secs,
            now,
            gone[c],
        );
    assert(is_candidate(workers[i], head, threshold_secs, now, gone[c]));
    i
}

proof fn lemma_candidate_found(
    workers: Seq<RaySwordfishWorker>,
    head: Option<Seq<char>>,
    threshold_secs: Option<u64>,
    now: u64,
    n: int,
    i: int,
)
    requires
        0 <= i < n <= workers.len(),
        RayWorkerManager::may_go(workers[i], head, threshold_secs, now),
    ensures
        RayWorkerManager::candidates(workers, head, threshold_secs, now, n).contains(
            Candidate {
                worker_id: workers[i].worker_id,
                idle_secs: workers[i].idle_millis(now) / 1000,
            },
        ),
    decreases n,
{
    let c = Candidate {
        worker_id: workers[i].worker_id,
        idle_secs: workers[i].idle_millis(now) / 1000,
    };
    let before = RayWorkerManager::candidates(workers, head, threshold_secs, now, n - 1);
    let all = RayWorkerManager::candidates(workers, head, threshold_secs, now, n);
    if i == n - 1 {
        assert(all[before.len() as int] == c);
    } else {
        lemma_candidate_found(workers, head, threshold_secs, now, n - 1, i);
        let k = choose|k: int| 0 <= k < before.len() && before[k] == c;
        assert(all[k] == c);
    }
}

/// A worker that runs no task, keeps no data, is not in doubt, is not on the head node and has
/// had nothing to do for as long as asked is given back, unless as many as allowed are that have
/// had nothing to do for at least as long.
pub proof fn idle_workers_are_given_back(
    workers: Seq<RaySwordfishWorker>,
    head: Option<Seq<char>>,
    threshold_secs: Option<u64>,
    now: u64,
    allowed: int,
    i: int,
)
    requires
        0 <= allowed,
        0 <= i < workers.len(),
        head != Some(workers[i].node_id@),
        workers[i].active@.len() == 0,
        workers[i].drain.data_queries@ == Set::<crate::drain::QueryIdx>::empty(),
        workers[i].drain.unknown is None,
        threshold_secs matches Some(secs) ==> (if now > workers[i].last_task_finished_at {
            now - workers[i].last_task_finished_at
        } else {
            0
        }) >= secs * 1000,
    ensures
        ({
            let gone = RayWorkerManager::chosen(workers, head, threshold_secs, now, allowed);
            let idle = if now > workers[i].last_task_finished_at {
                now - workers[i].last_task_finished_at
            } else {
                0
            };
            ||| is_chosen(gone, workers[i].worker_id)
            ||| gone.len() == allowed && forall|c: int|
                0 <= c < gone.len() ==> ((#[trigger] gone[c]).idle_secs + 1) * 1000 > idle
        }),
{
    let n = workers.len() as int;
    let found = RayWorkerManager::candidates(workers, head, threshold_secs, now, n);
    let ordered = sorted(found);
    let gone = RayWorkerManager::chosen(workers, head, threshold_secs, now, allowed);
    let c = Candidate {
        worker_id: workers[i].worker_id,
        idle_secs: workers[i].idle_millis(now) / 1000,
    };
    assert(RayWorkerManager::may_go(workers[i], head, threshold_secs, now));
    lemma_candidate_found(workers, head, threshold_secs, now, n, i);
    sorted_is_sorted(found);
    sorted_contains(found);
    assert(ordered.contains(c));
    let k = choose|k: int| 0 <= k < ordered.len() && ordered[k] == c;
    if k < gone.len() {
        assert(gone[k].worker_id == workers[i].worker_id);
    } else {
        assert forall|d: int| 0 <= d < gone.len() implies ((#[trigger] gone[d]).idle_secs + 1)
            * 1000 > workers[i].idle_millis(now) by {
            assert(gone[d] == ordered[d]);
            assert(ordered[d].spec_key() <= ordered[k].spec_key());
        }
    }
}

/// Workers are given back only where no session owns them and that is switched on. At the end of
/// all work all may go, and what was asked for is taken back; until then none goes while
/// resources are asked for, and all but those to be kept otherwise.
pub proof fn downscaling_follows_its_settings(
    managed: bool,
    enabled: bool,
    scaling_up: bool,
    force_all: bool,
    workers: nat,
    survivors: nat,
)
    requires
        workers <= usize::MAX,
    ensures
        ({
            let plan = downscale_plan(
                managed,
                enabled,
                scaling_up,
                force_all,
                workers,
                survivors,
            );
            &&& plan.clear_demand <==> !managed && enabled && force_all
            &&& managed || !enabled ==> plan.allowed == 0
            &&& !managed && enabled && force_all ==> plan.allowed == workers
            &&& scaling_up && !force_all ==> plan.allowed == 0
            &&& !managed && enabled && !force_all && !scaling_up ==> if workers > survivors {
                plan.allowed + survivors == workers
            } else {
                plan.allowed == 0
            }
        }),
{
}

/// One worker is kept where nothing else is set, or what is set is no number.
pub proof fn one_worker_is_kept_by_default(text: &str)
    ensures
        min_survivors(None) == 1,
        parsed(text@, usize::MAX as nat) is None ==> min_survivors(Some(text)) == 1,
        parsed(text@, usize::MAX as nat) matches Some(n) ==> min_survivors(Some(text)) == n,
{
}

/// A release that is noted stays noted with its time, and takes the place of what was noted of
/// its node; what was noted of nodes that are not released stays as it was.
pub proof fn releases_are_noted(
    times: Seq<(Seq<char>, u64)>,
    released: Seq<RaySwordfishWorker>,
    now: u64,
    n: int,
    entry: (Seq<char>, u64),
)
    requires
        0 <= n <= released.len(),
    ensures
        noted_all(times, released, now, n).contains(entry) <==> if exists|c: int|
            0 <= c < n && (#[trigger] released[c]).node_id@ == entry.0 {
            entry.1 == now
        } else {
            times.contains(entry)
        },
    decreases n,
{
    if n > 0 {
        releases_are_noted(times, released, now, n - 1, entry);
        let before = noted_all(times, released, now, n - 1);
        let all = noted_all(times, released, now, n);
        let node = released[n - 1].node_id@;
        let others = other_releases(before, node, before.len() as int);
        lemma_other_releases(before, node, before.len() as int);
        if entry.0 == node {
            if entry.1 == now {
                assert(all[others.len() as int] == entry);
            } else if all.contains(entry) {
                let k = choose|k: int| 0 <= k < all.len() && all[k] == entry;
                assert(others[k] == entry);
            }
        } else {
            if before.contains(entry) {
                let i = choose|i: int| 0 <= i < before.len() && before[i] == entry;
                assert(others.contains(before[i]));
                let k = choose|k: int| 0 <= k < others.len() && others[k] == entry;
                assert(all[k] == entry);
            }
            if all.contains(entry) {
                let k = choose|k: int| 0 <= k < all.len() && all[k] == entry;
                assert(others[k] == entry);
                let i = choose|i: int| 0 <= i < before.len() && #[trigger] before[i] == others[k];
                assert(before.contains(entry));
            }
            if exists|c: int| 0 <= c < n && (#[trigger] released[c]).node_id@ == entry.0 {
                let c = choose|c: int| 0 <= c < n && (#[trigger] released[c]).node_id@ == entry.0;
                assert(0 <= c < n - 1);
            }
        }
    }
}

/// Nothing is switched on unless a setting says so.
pub proof fn settings_switch_on(text: &str)
    ensures
        !switched_on(None),
        switched_on(Some(text)) <==> reads_true(text@),
{
}

/// A request was sent recently exactly where one was sent and less time has passed since than is
/// to be between two of them.
pub proof fn requests_keep_their_distance(manager: RayWorkerManager, now: u64)
    ensures
        manager.asked_recently(now) <==> {
            &&& manager.last_autoscale_request_time is Some
            &&& (if now > manager.last_autoscale_request_time->0 {
                now - manager.last_autoscale_request_time->0
            } else {
                0
            }) < manager.autoscale_interval_secs * 1000
        },
{
}

} // verus!
