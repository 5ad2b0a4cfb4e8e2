//! In-process recovery from device I/O failures for shuffle reads and private writes.
//!
//! Every type here decides: it is told what a file operation returned and says what to do next.
//! The file operations themselves, and the waiting, are the caller's.
use vstd::arithmetic::power2::{lemma_pow2_pos, lemma_pow2_strictly_increases, pow2};
use vstd::prelude::*;

use crate::checksum::{ieee_crc32, RecoveryChecksum};
use crate::io_error::{copy_io_error, IoError, IoErrorKind, Platform};
use crate::text::owned;

verus! {

/// Bytes that a recovery pass reads at a time.
pub const WRITE_RECOVERY_BUFFER_BYTES: u64 = 4_194_304;

/// How often, and after which waits, a failed file operation is repeated.
#[derive(Clone, Copy, Debug, PartialEq, Eq, Structural)]
pub struct EioRetryPolicy {
    pub max_retries: u32,
    pub initial_backoff_ms: u64,
    pub max_backoff_ms: u64,
}

impl Default for EioRetryPolicy {
    /// No retries and no waits.
    fn default() -> (p: Self)
        ensures
            p.max_retries == 0,
            p.initial_backoff_ms == 0,
            p.max_backoff_ms == 0,
    {
        EioRetryPolicy { max_retries: 0, initial_backoff_ms: 0, max_backoff_ms: 0 }
    }
}

/// The smaller of two integers.
pub open spec fn min_int(a: int, b: int) -> int {
    if a <= b { a } else { b }
}

proof fn lemma_pow2_64()
    ensures
        pow2(64) == 0x1_0000_0000_0000_0000,
{
    vstd::arithmetic::power2::lemma2_to64();
}

impl EioRetryPolicy {
    /// The wait, in milliseconds, after `retries` earlier retries: the initial wait doubled
    /// once for each of them, up to the maximum.
    pub open spec fn backoff_spec(self, retries: nat) -> int {
        min_int(self.initial_backoff_ms * pow2(retries), self.max_backoff_ms as int)
    }

    /// The wait, in milliseconds, after `retries` earlier retries.
    pub fn backoff(self, retries: u32) -> (ms: u64)
        ensures
            ms == self.backoff_spec(retries as nat),
            ms <= self.max_backoff_ms,
    {
        let ghost factor = pow2(retries as nat) as int;
        proof {
            lemma_pow2_pos(retries as nat);
            lemma_pow2_64();
        }
        if self.initial_backoff_ms == 0 {
            assert(0 * factor == 0) by (nonlinear_arith);
            return 0;
        }
        if retries >= 64 {
            proof {
                if retries > 64 {
                    lemma_pow2_strictly_increases(64, retries as nat);
                }
                assert(self.initial_backoff_ms * factor >= factor) by (nonlinear_arith)
                    requires
                        self.initial_backoff_ms >= 1,
                        factor >= 0,
                ;
            }
            return self.max_backoff_ms;
        }
        proof {
            lemma_pow2_strictly_increases(retries as nat, 64);
            vstd::bits::lemma_u64_shl_is_mul(1, retries as u64);
        }
        let shifted: u64 = 1u64 << (retries as u64);
        assert(shifted == factor);
        match self.initial_backoff_ms.checked_mul(shifted) {
            Some(wait) => if wait <= self.max_backoff_ms {
                wait
            } else {
                self.max_backoff_ms
            },
            None => self.max_backoff_ms,
        }
    }
}

/// Waits never shrink from one retry to the next.
pub proof fn backoff_never_shrinks(policy: EioRetryPolicy, a: nat, b: nat)
    requires
        a <= b,
    ensures
        policy.backoff_spec(a) <= policy.backoff_spec(b),
{
    lemma_pow2_pos(a);
    if a < b {
        lemma_pow2_strictly_increases(a, b);
    }
    let x = pow2(a) as int;
    let y = pow2(b) as int;
    let i = policy.initial_backoff_ms as int;
    assert(i * x <= i * y) by (nonlinear_arith)
        requires
            i >= 0,
            x <= y,
    ;
}

/// The state of cancellation scopes. All that refers to a scope shares its state.
#[derive(Debug)]
pub struct WriteScopes {
    /// Of each scope, whether it is cancelled.
    pub cancelled: Vec<bool>,
}

/// Refers to a scope for the cancellation of synchronous file operations; a copy refers to the
/// same scope. An operation that is already running is not interrupted; its owner stays tracked
/// until it returns.
#[derive(Clone, Copy, Debug, PartialEq, Eq, Structural)]
pub struct WriteCancellation {
    pub scope: usize,
}

/// Cancels its scope when it is released.
pub struct CancelWriteOnDrop {
    pub scope: WriteCancellation,
}

/// The state of scopes once a guard of one of them is released.
pub open spec fn after_release(cancelled: Seq<bool>, c: WriteCancellation) -> Seq<bool> {
    if c.scope < cancelled.len() { cancelled.update(c.scope as int, true) } else { cancelled }
}

impl WriteScopes {
    /// Whether a scope is cancelled.
    pub open spec fn is_cancelled(&self, c: WriteCancellation) -> bool {
        c.scope < self.cancelled@.len() && self.cancelled@[c.scope as int]
    }

    /// No scopes.
    pub fn new() -> (s: WriteScopes)
        ensures
            s.cancelled@.len() == 0,
    {
        WriteScopes { cancelled: Vec::new() }
    }
}

impl CancelWriteOnDrop {
    /// Cancels the scope, for all that refers to it and for good.
    pub fn release(self, scopes: &mut WriteScopes)
        ensures
            final(scopes).cancelled@ == after_release(old(scopes).cancelled@, self.scope),
    {
        if self.scope.scope < scopes.cancelled.len() {
            scopes.cancelled.set(self.scope.scope, true);
        }
    }
}

/// The result of an operation in a scope: the cancellation error if and only if it is cancelled.
/// The error's kind is never `Interrupted`, which writers repeat without end.
pub open spec fn cancellation_result(cancelled: bool, r: Result<(), IoError>) -> bool {
    match r {
        Ok(_) => !cancelled,
        Err(e) => cancelled && is_cancellation(e),
    }
}

/// The error of an operation in a cancelled scope.
pub open spec fn is_cancellation(e: IoError) -> bool {
    e.is_plain(IoErrorKind::Other, "Shuffle write cancelled"@)
}

impl WriteCancellation {
    /// A new scope, which is not cancelled.
    pub fn new(scopes: &mut WriteScopes) -> (c: WriteCancellation)
        ensures
            c.scope == old(scopes).cancelled@.len(),
            final(scopes).cancelled@ == old(scopes).cancelled@.push(false),
            !final(scopes).is_cancelled(c),
    {
        let scope: usize = scopes.cancelled.len();
        scopes.cancelled.push(false);
        WriteCancellation { scope }
    }

    /// A guard that cancels this scope.
    pub fn guard(&self) -> (g: CancelWriteOnDrop)
        ensures
            g.scope == *self,
    {
        CancelWriteOnDrop { scope: *self }
    }

    /// Whether operations in this scope may go on.
    pub fn check(&self, scopes: &WriteScopes) -> (r: Result<(), IoError>)
        ensures
            cancellation_result(scopes.is_cancelled(*self), r),
    {
        if self.scope < scopes.cancelled.len() && scopes.cancelled[self.scope] {
            Err(IoError::new(IoErrorKind::Other, "Shuffle write cancelled"))
        } else {
            Ok(())
        }
    }

    /// How a wait ends, if it ends now, so many milliseconds after it began: early where the
    /// scope is cancelled, else when its time is over.
    pub fn wait(&self, scopes: &WriteScopes, elapsed_ms: u64, delay_ms: u64) -> (r: Option<
        Result<(), IoError>,
    >)
        ensures
            r is Some <==> scopes.is_cancelled(*self) || elapsed_ms >= delay_ms,
            r matches Some(end) ==> cancellation_result(scopes.is_cancelled(*self), end),
    {
        match self.check(scopes) {
            Err(error) => Some(Err(error)),
            Ok(_) => if elapsed_ms >= delay_ms {
                Some(Ok(()))
            } else {
                None
            },
        }
    }
}

/// What can happen to scopes.
pub enum ScopeEvent {
    /// A new scope.
    Opened,
    /// A reference to a scope is copied.
    Copied(WriteCancellation),
    /// A guard of a scope is taken.
    Guarded(WriteCancellation),
    /// A guard of a scope is released.
    Released(WriteCancellation),
}

/// The state of scopes after some events.
pub open spec fn scopes_after(cancelled: Seq<bool>, events: Seq<ScopeEvent>) -> Seq<bool>
    decreases events.len(),
{
    if events.len() == 0 {
        cancelled
    } else {
        let before = scopes_after(cancelled, events.drop_last());
        match events.last() {
            ScopeEvent::Opened => before.push(false),
            ScopeEvent::Copied(_) => before,
            ScopeEvent::Guarded(_) => before,
            ScopeEvent::Released(c) => after_release(before, c),
        }
    }
}

/// A scope is cancelled by the first release of one of its guards, for good; nothing else
/// cancels it, and taking a guard does not.
pub proof fn scopes_end_with_their_first_guard(
    before: WriteScopes,
    after: WriteScopes,
    events: Seq<ScopeEvent>,
    c: WriteCancellation,
)
    requires
        c.scope < before.cancelled@.len(),
        after.cancelled@ == scopes_after(before.cancelled@, events),
    ensures
        after.is_cancelled(c) <==> before.is_cancelled(c) || events.contains(
            ScopeEvent::Released(c),
        ),
{
    lemma_scope_events(before.cancelled@, events, c);
}

proof fn lemma_scope_events(cancelled: Seq<bool>, events: Seq<ScopeEvent>, c: WriteCancellation)
    requires
        c.scope < cancelled.len(),
    ensures
        scopes_after(cancelled, events).len() >= cancelled.len(),
        scopes_after(cancelled, events)[c.scope as int] <==> cancelled[c.scope as int]
            || events.contains(ScopeEvent::Released(c)),
    decreases events.len(),
{
    if events.len() > 0 {
        let earlier = events.drop_last();
        lemma_scope_events(cancelled, earlier, c);
        assert(earlier.push(events.last()) =~= events);
        if earlier.contains(ScopeEvent::Released(c)) {
            let k = choose|k: int| 0 <= k < earlier.len() && earlier[k] == ScopeEvent::Released(c);
            assert(events[k] == ScopeEvent::Released(c));
        }
        if events.last() == ScopeEvent::Released(c) {
            assert(events[events.len() - 1] == ScopeEvent::Released(c));
        } else if events.contains(ScopeEvent::Released(c)) {
            let k = choose|k: int| 0 <= k < events.len() && events[k] == ScopeEvent::Released(c);
            assert(earlier[k] == ScopeEvent::Released(c));
        }
    }
}

/// The writes that have not returned yet.
#[derive(Debug)]
pub struct ActiveWrites {
    /// How many there are.
    pub count: usize,
    /// The shuffles that own them, as often as each owns one.
    pub owners: Vec<u64>,
}

/// One write that has not returned yet. It moves into the blocking operation, so that a
/// cancelled caller cannot make an outstanding write look finished.
pub struct ActiveShuffleWrite {
    pub shuffle_id: Option<u64>,
}

/// Owners with one write less of a shuffle, where it has one.
pub open spec fn without_one(owners: Seq<u64>, shuffle_id: u64) -> Seq<u64>
    decreases owners.len(),
{
    if owners.len() == 0 {
        owners
    } else if owners.last() == shuffle_id {
        owners.drop_last()
    } else {
        without_one(owners.drop_last(), shuffle_id).push(owners.last())
    }
}

/// How many writes the given shuffles own.
pub open spec fn owned_by(owners: Seq<u64>, shuffle_ids: Seq<u64>) -> nat
    decreases owners.len(),
{
    if owners.len() == 0 {
        0
    } else {
        owned_by(owners.drop_last(), shuffle_ids) + if shuffle_ids.contains(owners.last()) {
            1nat
        } else {
            0nat
        }
    }
}

proof fn lemma_without_one(owners: Seq<u64>, shuffle_id: u64, at: int)
    requires
        -1 <= at < owners.len(),
        at >= 0 ==> owners[at] == shuffle_id,
        forall|k: int| at < k < owners.len() ==> #[trigger] owners[k] != shuffle_id,
    ensures
        at < 0 ==> without_one(owners, shuffle_id) == owners,
        at >= 0 ==> without_one(owners, shuffle_id) == owners.remove(at),
    decreases owners.len(),
{
    if owners.len() > 0 {
        let before = owners.drop_last();
        if at == owners.len() - 1 {
            assert(owners.remove(at) =~= before);
        } else {
            assert(owners[owners.len() - 1] != shuffle_id);
            lemma_without_one(before, shuffle_id, at);
            assert(before.push(owners.last()) =~= owners);
            if at >= 0 {
                assert(before.remove(at).push(owners.last()) =~= owners.remove(at));
            }
        }
    }
}

impl ActiveShuffleWrite {
    /// Counts one more outstanding write, which no shuffle owns.
    pub fn track(writes: &mut ActiveWrites) -> (w: ActiveShuffleWrite)
        ensures
            w.shuffle_id is None,
            final(writes).count == old(writes).count.wrapping_add(1),
            final(writes).owners@ == old(writes).owners@,
    {
        ActiveShuffleWrite::for_shuffle(writes, None)
    }

    /// Counts one more outstanding write, of a shuffle where one owns it.
    pub fn for_shuffle(writes: &mut ActiveWrites, shuffle_id: Option<u64>) -> (w:
        ActiveShuffleWrite)
        ensures
            w.shuffle_id == shuffle_id,
            final(writes).count == old(writes).count.wrapping_add(1),
            final(writes).owners@ == (match shuffle_id {
                Some(id) => old(writes).owners@.push(id),
                None => old(writes).owners@,
            }),
    {
        writes.count = writes.count.wrapping_add(1);
        match shuffle_id {
            Some(id) => {
                writes.owners.push(id);
            },
            None => {},
        }
        ActiveShuffleWrite { shuffle_id }
    }

    /// Counts one outstanding write less: this one has returned.
    pub fn release(self, writes: &mut ActiveWrites)
        ensures
            final(writes).count == old(writes).count.wrapping_sub(1),
            final(writes).owners@ == (match self.shuffle_id {
                Some(id) => without_one(old(writes).owners@, id),
                None => old(writes).owners@,
            }),
    {
        writes.count = writes.count.wrapping_sub(1);
        match self.shuffle_id {
            Some(id) => {
                let mut n: usize = writes.owners.len();
                while n > 0 && writes.owners[n - 1] != id
                    invariant
                        n <= writes.owners@.len(),
                        forall|k: int|
                            n <= k < writes.owners@.len() ==> #[trigger] writes.owners@[k] != id,
                    decreases n,
                {
                    n = n - 1;
                }
                proof {
                    lemma_without_one(writes.owners@, id, n - 1);
                }
                if n > 0 {
                    writes.owners.remove(n - 1);
                }
            },
            None => {},
        }
    }
}

/// The number of writes that have not returned yet.
pub fn active_shuffle_writes(writes: &ActiveWrites) -> (n: usize)
    ensures
        n == writes.count,
{
    writes.count
}

/// The number of writes of the given shuffles that have not returned yet.
pub fn active_shuffle_writes_for(writes: &ActiveWrites, shuffle_ids: &Vec<u64>) -> (n: usize)
    ensures
        n == owned_by(writes.owners@, shuffle_ids@),
{
    let mut n: usize = 0;
    let mut i: usize = 0;
    assert(writes.owners@.take(0) =~= Seq::<u64>::empty());
    while i < writes.owners.len()
        invariant
            i <= writes.owners@.len(),
            n <= i,
            n == owned_by(writes.owners@.take(i as int), shuffle_ids@),
        decreases writes.owners@.len() - i,
    {
        let owner: u64 = writes.owners[i];
        assert(writes.owners@.take(i + 1).drop_last() =~= writes.owners@.take(i as int));
        assert(writes.owners@.take(i + 1).last() == owner);
        let mut k: usize = 0;
        while k < shuffle_ids.len() && shuffle_ids[k] != owner
            invariant
                k <= shuffle_ids@.len(),
                forall|j: int| 0 <= j < k ==> #[trigger] shuffle_ids@[j] != owner,
            decreases shuffle_ids@.len() - k,
        {
            k = k + 1;
        }
        if k < shuffle_ids.len() {
            assert(shuffle_ids@[k as int] == owner);
            n = n + 1;
        }
        i = i + 1;
    }
    assert(writes.owners@.take(i as int) =~= writes.owners@);
    n
}

/// Releasing a write undoes tracking it.
pub proof fn release_undoes_track(before: usize, owners: Seq<u64>, shuffle_id: u64)
    ensures
        before.wrapping_add(1).wrapping_sub(1) == before,
        without_one(owners.push(shuffle_id), shuffle_id) == owners,
{
    assert(owners.push(shuffle_id).drop_last() =~= owners);
}

/// A write counts for its shuffle until it is released, whatever other writes are tracked and
/// released meanwhile: each counts for its own shuffle only.
pub proof fn writes_count_for_their_shuffle(
    owners: Seq<u64>,
    shuffle_id: u64,
    shuffle_ids: Seq<u64>,
)
    ensures
        owned_by(owners.push(shuffle_id), shuffle_ids) == owned_by(owners, shuffle_ids)
            + if shuffle_ids.contains(shuffle_id) { 1nat } else { 0nat },
        owned_by(without_one(owners, shuffle_id), shuffle_ids) == owned_by(owners, shuffle_ids)
            - if owners.contains(shuffle_id) && shuffle_ids.contains(shuffle_id) {
            1int
        } else {
            0int
        },
    decreases owners.len(),
{
    assert(owners.push(shuffle_id).drop_last() =~= owners);
    if owners.len() > 0 {
        let before = owners.drop_last();
        let last = owners.last();
        assert(before.push(last) =~= owners);
        if last == shuffle_id {
            assert(owners[owners.len() - 1] == shuffle_id);
        } else {
            writes_count_for_their_shuffle(before, shuffle_id, shuffle_ids);
            let rest = without_one(before, shuffle_id);
            assert(rest.push(last).drop_last() =~= rest);
            if owners.contains(shuffle_id) {
                let k = choose|k: int| 0 <= k < owners.len() && owners[k] == shuffle_id;
                assert(before[k] == shuffle_id);
            }
            if before.contains(shuffle_id) {
                let k = choose|k: int| 0 <= k < before.len() && before[k] == shuffle_id;
                assert(owners[k] == shuffle_id);
            }
        }
    }
}

/// The retries that one file has left. The budget is cumulative for the file: a success does
/// not renew it.
pub struct EioRetryBudget {
    pub policy: EioRetryPolicy,
    pub used: u32,
    pub path: String,
    pub platform: Platform,
    pub cancellation: Option<WriteCancellation>,
}

/// What has become of an operation that may be repeated.
pub enum RunEvent<T> {
    /// Nothing was tried yet.
    Start,
    /// An attempt returned this.
    Outcome(Result<T, IoError>),
    /// The wait before the next attempt is over, in time or because the scope was cancelled.
    Waited,
}

/// What comes next for an operation that may be repeated.
pub enum RunStep<T> {
    /// The operation is over, with this result.
    Return(Result<T, IoError>),
    /// An attempt is made.
    Attempt,
    /// There is a wait of so many milliseconds.
    Wait(u64),
}

impl EioRetryBudget {
    /// Never more retries than the policy allows.
    pub open spec fn wf(&self) -> bool {
        self.used <= self.policy.max_retries
    }

    /// Whether a failure is repeated: a device failure, while retries are left.
    pub open spec fn retries(&self, error: &IoError) -> bool {
        error.device_failed(self.platform) && self.used < self.policy.max_retries
    }

    /// The budget with one retry less.
    pub open spec fn spent(self) -> EioRetryBudget {
        EioRetryBudget { used: (self.used + 1) as u32, ..self }
    }

    /// Whether the scope that this budget belongs to is cancelled.
    pub open spec fn is_cancelled(&self, scopes: WriteScopes) -> bool {
        self.cancellation is Some && scopes.is_cancelled(self.cancellation->0)
    }

    /// Whether the next attempt is made: in a cancelled scope the operation ends with the
    /// cancellation error instead.
    pub open spec fn attempts_or_ends<T>(&self, scopes: WriteScopes, step: RunStep<T>) -> bool {
        if self.is_cancelled(scopes) {
            step matches RunStep::Return(Err(e)) && is_cancellation(e)
        } else {
            step == RunStep::<T>::Attempt
        }
    }

    /// A full budget, outside any cancellation scope.
    pub fn new(policy: EioRetryPolicy, path: &str, platform: Platform) -> (b: EioRetryBudget)
        ensures
            b.wf(),
            b.policy == policy,
            b.used == 0,
            b.path@ == path@,
            b.platform == platform,
            b.cancellation is None,
    {
        EioRetryBudget { policy, used: 0, path: owned(path), platform, cancellation: None }
    }

    /// The same budget within a cancellation scope.
    pub fn with_cancellation(self, cancellation: WriteCancellation) -> (b: EioRetryBudget)
        ensures
            b == (EioRetryBudget { cancellation: Some(cancellation), ..self }),
    {
        let mut budget = self;
        budget.cancellation = Some(cancellation);
        budget
    }

    /// Whether the next attempt may be made.
    pub fn check_cancelled(&self, scopes: &WriteScopes) -> (r: Result<(), IoError>)
        ensures
            cancellation_result(self.is_cancelled(*scopes), r),
    {
        match &self.cancellation {
            Some(cancellation) => cancellation.check(scopes),
            None => Ok(()),
        }
    }

    /// The wait before the failed operation is repeated, or `None` if it is not repeated.
    pub fn delay(&mut self, error: &IoError) -> (r: Option<u64>)
        ensures
            old(self).retries(error) ==> {
                &&& r == Some(r->0)
                &&& r->0 == old(self).policy.backoff_spec(old(self).used as nat)
                &&& *final(self) == old(self).spent()
            },
            !old(self).retries(error) ==> r is None && *final(self) == *old(self),
    {
        if !error.is_eio(self.platform) || self.used >= self.policy.max_retries {
            return None;
        }
        let delay: u64 = self.policy.backoff(self.used);
        self.used = self.used + 1;
        Some(delay)
    }

    /// The wait before the failed operation is repeated, or the error itself.
    pub fn retry(&mut self, error: IoError) -> (r: Result<u64, IoError>)
        ensures
            old(self).retries(&error) ==> {
                &&& r is Ok
                &&& r->Ok_0 == old(self).policy.backoff_spec(old(self).used as nat)
                &&& *final(self) == old(self).spent()
            },
            !old(self).retries(&error) ==> r == Err::<u64, IoError>(error) && *final(self) == *old(
                self,
            ),
    {
        match self.delay(&error) {
            Some(delay) => Ok(delay),
            None => Err(error),
        }
    }

    fn next_attempt<T>(&self, scopes: &WriteScopes) -> (step: RunStep<T>)
        ensures
            self.attempts_or_ends(*scopes, step),
    {
        match self.check_cancelled(scopes) {
            Ok(_) => RunStep::Attempt,
            Err(error) => RunStep::Return(Err(error)),
        }
    }

    /// What comes next for an operation that may be repeated. The scope is looked at before
    /// every attempt. Interruptions are repeated for free; other failures by the budget.
    pub fn run<T>(&mut self, scopes: &WriteScopes, event: RunEvent<T>) -> (step: RunStep<T>)
        ensures
            match event {
                RunEvent::Start => old(self).attempts_or_ends(*scopes, step) && *final(self) == *old(
                    self,
                ),
                RunEvent::Waited => old(self).attempts_or_ends(*scopes, step) && *final(self)
                    == *old(self),
                RunEvent::Outcome(Ok(value)) => step == RunStep::<T>::Return(Ok(value))
                    && *final(self) == *old(self),
                RunEvent::Outcome(Err(error)) => if error.kind == IoErrorKind::Interrupted {
                    old(self).attempts_or_ends(*scopes, step) && *final(self) == *old(self)
                } else if old(self).retries(&error) {
                    step == RunStep::<T>::Wait(
                        old(self).policy.backoff_spec(old(self).used as nat) as u64,
                    ) && *final(self) == old(self).spent()
                } else {
                    step == RunStep::<T>::Return(Err(error)) && *final(self) == *old(self)
                },
            },
    {
        match event {
            RunEvent::Start => self.next_attempt(scopes),
            RunEvent::Waited => self.next_attempt(scopes),
            RunEvent::Outcome(Ok(value)) => RunStep::Return(Ok(value)),
            RunEvent::Outcome(Err(error)) => if error.kind == IoErrorKind::Interrupted {
                self.next_attempt(scopes)
            } else {
                match self.retry(error) {
                    Ok(delay) => RunStep::Wait(delay),
                    Err(error) => RunStep::Return(Err(error)),
                }
            },
        }
    }
}

/// Once a guard of a scope is gone, no operation in the scope makes another attempt: what it
/// does next, it ends with the cancellation error.
pub proof fn nothing_is_tried_in_a_cancelled_scope<T>(
    before: WriteScopes,
    after: WriteScopes,
    c: WriteCancellation,
    budget: EioRetryBudget,
    step: RunStep<T>,
)
    requires
        c.scope < before.cancelled@.len(),
        after.cancelled@ == after_release(before.cancelled@, c),
        budget.cancellation == Some(c),
        budget.attempts_or_ends(after, step),
    ensures
        budget.is_cancelled(after),
        step matches RunStep::Return(Err(e)) && is_cancellation(e) && e.kind
            != IoErrorKind::Interrupted,
{
}

/// The retries used after a run of failures, where `failures[i]` says whether failure `i` was
/// a device failure.
pub open spec fn used_after(max: nat, used: nat, failures: Seq<bool>) -> nat
    decreases failures.len(),
{
    if failures.len() == 0 {
        used
    } else {
        let before = used_after(max, used, failures.drop_last());
        if failures.last() && before < max { before + 1 } else { before }
    }
}

/// The number of device failures in a run of failures.
pub open spec fn device_failures(failures: Seq<bool>) -> nat
    decreases failures.len(),
{
    if failures.len() == 0 {
        0
    } else {
        device_failures(failures.drop_last()) + if failures.last() { 1nat } else { 0nat }
    }
}

/// The budget of a file is cumulative and never exceeded: whatever happens in which order,
/// one retry is used for each device failure until the policy's maximum is reached.
pub proof fn budget_is_cumulative(max: nat, used: nat, failures: Seq<bool>)
    requires
        used <= max,
    ensures
        used_after(max, used, failures) == min_int((used + device_failures(failures)) as int, max as int),
    decreases failures.len(),
{
    if failures.len() > 0 {
        budget_is_cumulative(max, used, failures.drop_last());
    }
}

/// Where a reader stands between two operations.
#[derive(Clone, Copy, Debug, PartialEq, Eq, Structural)]
pub enum ReadState {
    Ready,
    /// Waiting so many milliseconds before the failed read is repeated.
    Backoff(u64),
    /// Returning to the position of the failed read.
    Seeking,
    /// Moving to a position that the caller asked for.
    ExternalSeeking,
}

/// Retries below the parser and the checksum. Only bytes that were delivered advance the
/// position; what a failed read left in the buffer never reaches a consumer.
pub struct RetryReader {
    pub offset: u64,
    pub budget: EioRetryBudget,
    pub state: ReadState,
}

/// The operation that a reader needs next.
#[derive(Clone, Copy, Debug, PartialEq, Eq, Structural)]
pub enum ReadAction {
    /// Nothing is wanted: the caller's buffer is full.
    Finish,
    /// Read into the caller's buffer.
    Read,
    /// Wait so many milliseconds, then start to seek to this position of the same file.
    SleepThenSeek(u64, u64),
    /// Wait until the seek that was started is complete.
    CompleteSeek,
}

/// What an operation of a reader returned.
pub enum ReadEvent {
    Read(Result<usize, IoError>),
    SeekStarted(Result<(), IoError>),
    SeekCompleted(Result<u64, IoError>),
}

/// What a reader answers to the result of an operation.
pub enum ReadStep {
    /// Go on with the next operation.
    Continue,
    /// So many bytes are delivered.
    Deliver(usize),
    Fail(IoError),
}

/// What a caller that asks where a seek ended is told.
pub enum SeekStep {
    /// The position is known.
    At(u64),
    /// The seek has to be completed first.
    Complete,
    Fail(IoError),
}

/// The error for a seek while a read is being repeated.
pub open spec fn is_unfinished_retry_error(e: IoError) -> bool {
    e.is_plain(IoErrorKind::Other, "Seek during an unfinished shuffle read retry"@)
}

impl RetryReader {
    /// Whether `event` can be the result of the operation that the reader needs.
    pub open spec fn accepts(&self, event: ReadEvent) -> bool {
        match event {
            ReadEvent::Read(r) => self.state == ReadState::Ready && (r matches Ok(n) ==> self.offset + n
                <= u64::MAX),
            ReadEvent::SeekStarted(_) => self.state is Backoff,
            ReadEvent::SeekCompleted(_) => self.state == ReadState::Seeking || self.state
                == ReadState::ExternalSeeking,
        }
    }

    /// A reader at the start of a file that has just been opened.
    pub fn new(budget: EioRetryBudget) -> (r: RetryReader)
        ensures
            r.offset == 0,
            r.budget == budget,
            r.state == ReadState::Ready,
    {
        RetryReader { offset: 0, budget, state: ReadState::Ready }
    }

    /// The operation that is needed next, for a buffer with room for `remaining` bytes.
    pub fn next_action(&self, remaining: usize) -> (a: ReadAction)
        ensures
            remaining == 0 ==> a == ReadAction::Finish,
            remaining > 0 ==> a == (match self.state {
                ReadState::Ready => ReadAction::Read,
                ReadState::Backoff(ms) => ReadAction::SleepThenSeek(ms, self.offset),
                ReadState::Seeking => ReadAction::CompleteSeek,
                ReadState::ExternalSeeking => ReadAction::CompleteSeek,
            }),
    {
        if remaining == 0 {
            return ReadAction::Finish;
        }
        match self.state {
            ReadState::Ready => ReadAction::Read,
            ReadState::Backoff(ms) => ReadAction::SleepThenSeek(ms, self.offset),
            ReadState::Seeking => ReadAction::CompleteSeek,
            ReadState::ExternalSeeking => ReadAction::CompleteSeek,
        }
    }

    /// Takes the result of the operation that was needed.
    pub fn poll_read(&mut self, event: ReadEvent) -> (step: ReadStep)
        requires
            old(self).accepts(event),
        ensures
            match event {
                ReadEvent::Read(Ok(n)) => {
                    &&& step == ReadStep::Deliver(n)
                    &&& final(self).offset == old(self).offset + n
                    &&& final(self).state == ReadState::Ready
                    &&& final(self).budget == old(self).budget
                },
                ReadEvent::Read(Err(e)) => {
                    &&& final(self).offset == old(self).offset
                    &&& if old(self).budget.retries(&e) {
                        &&& step == ReadStep::Continue
                        &&& final(self).budget == old(self).budget.spent()
                        &&& final(self).state == ReadState::Backoff(
                            old(self).budget.policy.backoff_spec(old(self).budget.used as nat) as u64,
                        )
                    } else {
                        &&& step == ReadStep::Fail(e)
                        &&& *final(self) == *old(self)
                    }
                },
                ReadEvent::SeekStarted(Ok(_)) => {
                    &&& step == ReadStep::Continue
                    &&& final(self).state == ReadState::Seeking
                    &&& final(self).offset == old(self).offset
                    &&& final(self).budget == old(self).budget
                },
                ReadEvent::SeekStarted(Err(e)) => step == ReadStep::Fail(e) && *final(self) == *old(
                    self,
                ),
                ReadEvent::SeekCompleted(Err(e)) => step == ReadStep::Fail(e) && *final(self)
                    == *old(self),
                ReadEvent::SeekCompleted(Ok(at)) => if old(self).state
                    == ReadState::ExternalSeeking {
                    &&& step == ReadStep::Continue
                    &&& final(self).offset == at
                    &&& final(self).state == ReadState::Ready
                    &&& final(self).budget == old(self).budget
                } else if at == old(self).offset {
                    &&& step == ReadStep::Continue
                    &&& final(self).offset == old(self).offset
                    &&& final(self).state == ReadState::Ready
                    &&& final(self).budget == old(self).budget
                } else {
                    &&& step matches ReadStep::Fail(e) && e.is_plain(
                        IoErrorKind::Other,
                        "Shuffle retry seek changed position"@,
                    )
                    &&& *final(self) == *old(self)
                },
            },
    {
        match event {
            ReadEvent::Read(Ok(n)) => {
                self.offset = self.offset + n as u64;
                ReadStep::Deliver(n)
            },
            ReadEvent::Read(Err(error)) => {
                match self.budget.retry(error) {
                    Ok(delay) => {
                        self.state = ReadState::Backoff(delay);
                        ReadStep::Continue
                    },
                    Err(error) => ReadStep::Fail(error),
                }
            },
            ReadEvent::SeekStarted(Ok(_)) => {
                self.state = ReadState::Seeking;
                ReadStep::Continue
            },
            ReadEvent::SeekStarted(Err(error)) => ReadStep::Fail(error),
            ReadEvent::SeekCompleted(Err(error)) => ReadStep::Fail(error),
            ReadEvent::SeekCompleted(Ok(at)) => {
                if self.state == ReadState::ExternalSeeking {
                    self.offset = at;
                    self.state = ReadState::Ready;
                    ReadStep::Continue
                } else if at == self.offset {
                    self.state = ReadState::Ready;
                    ReadStep::Continue
                } else {
                    ReadStep::Fail(
                        IoError::new(IoErrorKind::Other, "Shuffle retry seek changed position"),
                    )
                }
            },
        }
    }

    /// Whether the caller may move the position now. A caller that gave up a read may drop the
    /// retry, but not use the file's uncertain position.
    pub fn check_seek(&self) -> (r: Result<(), IoError>)
        ensures
            r is Ok <==> self.state == ReadState::Ready,
            r matches Err(e) ==> is_unfinished_retry_error(e),
    {
        if self.state == ReadState::Ready {
            Ok(())
        } else {
            Err(
                IoError::new(
                    IoErrorKind::Other,
                    "Seek during an unfinished shuffle read retry",
                ),
            )
        }
    }

    /// Takes the result of starting a seek that `check_seek` has allowed.
    pub fn start_seek(&mut self, started: Result<(), IoError>) -> (r: Result<(), IoError>)
        requires
            old(self).state == ReadState::Ready,
        ensures
            r == started,
            final(self).offset == old(self).offset,
            final(self).budget == old(self).budget,
            final(self).state == (if started is Ok { ReadState::ExternalSeeking } else {
                ReadState::Ready
            }),
    {
        if started.is_ok() {
            self.state = ReadState::ExternalSeeking;
        }
        started
    }

    /// What a caller that asks where its seek ended is told.
    pub fn poll_complete(&self) -> (step: SeekStep)
        ensures
            match self.state {
                ReadState::Ready => step == SeekStep::At(self.offset),
                ReadState::ExternalSeeking => step == SeekStep::Complete,
                _ => step matches SeekStep::Fail(e) && is_unfinished_retry_error(e),
            },
    {
        match self.state {
            ReadState::Ready => SeekStep::At(self.offset),
            ReadState::ExternalSeeking => SeekStep::Complete,
            _ => SeekStep::Fail(
                IoError::new(
                    IoErrorKind::Other,
                    "Seek during an unfinished shuffle read retry",
                ),
            ),
        }
    }
}

/// Sequential writer for an unpublished file that nobody else uses. It owns the file from its
/// first position to the end.
pub struct RetryWriter {
    pub start: u64,
    pub offset: u64,
    pub hasher: RecoveryChecksum,
    pub budget: EioRetryBudget,
    pub recovered_write: bool,
    pub terminal_error: Option<IoError>,
}

/// What follows one attempt to write.
pub enum WriteStep {
    /// So many bytes are written.
    Done(usize),
    Again,
    /// Try again after so many milliseconds.
    Wait(u64),
    Fail(IoError),
}

/// What is left to do before a file can be handed over.
#[derive(Clone, Copy, Debug, PartialEq, Eq, Structural)]
pub enum FinishPlan {
    /// Every write went well: go to this position.
    Seek(u64),
    /// A write was repeated: the region is read back with a buffer of so many bytes, checked,
    /// written again and synced.
    Recover(usize),
}

/// What follows a recovery pass.
pub enum PassStep {
    /// The pass ended: hold its checksum against the writer's.
    Verify(u32),
    /// Start another pass after so many milliseconds.
    Wait(u64),
    Fail(IoError),
}

/// What follows an attempt to sync.
pub enum SyncStep {
    Again,
    Done,
    Fail(IoError),
}

impl RetryWriter {
    pub open spec fn wf(&self) -> bool {
        self.start <= self.offset && self.budget.wf()
    }

    /// A writer that starts at `position`; `wide` says which checksum the processor has.
    pub fn new(position: u64, budget: EioRetryBudget, wide: bool) -> (w: RetryWriter)
        requires
            budget.wf(),
        ensures
            w.wf(),
            w.start == position,
            w.offset == position,
            w.hasher.covers(Seq::empty()),
            w.budget == budget,
            !w.recovered_write,
            w.terminal_error is None,
    {
        RetryWriter {
            start: position,
            offset: position,
            hasher: RecoveryChecksum::new(wide),
            budget,
            recovered_write: false,
            terminal_error: None,
        }
    }

    /// Moves the writer into another cancellation scope.
    pub fn set_cancellation(&mut self, cancellation: WriteCancellation)
        ensures
            *final(self) == (RetryWriter {
                budget: EioRetryBudget { cancellation: Some(cancellation), ..old(self).budget },
                ..*old(self)
            }),
    {
        self.budget.cancellation = Some(cancellation);
    }

    /// Whether the writer keeps a copy of an error as the one that ended its file.
    pub open spec fn ended_by(&self, error: IoError) -> bool {
        self.terminal_error is Some && self.terminal_error->0.is_copy_of(error)
    }

    /// Where the next attempt has to write, or the error that ended this file.
    pub fn begin_write(&mut self, scopes: &WriteScopes) -> (r: Result<u64, IoError>)
        ensures
            match old(self).terminal_error {
                Some(ended) => {
                    &&& r matches Err(e) && e.is_copy_of(ended)
                    &&& *final(self) == *old(self)
                },
                None => if old(self).budget.is_cancelled(*scopes) {
                    &&& r matches Err(e) && is_cancellation(e) && final(self).ended_by(e)
                    &&& *final(self) == (RetryWriter {
                        terminal_error: final(self).terminal_error,
                        ..*old(self)
                    })
                } else {
                    r == Ok::<u64, IoError>(old(self).offset) && *final(self) == *old(self)
                },
            },
    {
        match &self.terminal_error {
            Some(error) => {
                return Err(copy_io_error(error));
            },
            None => {},
        }
        match self.budget.check_cancelled(scopes) {
            Ok(_) => Ok(self.offset),
            Err(error) => {
                self.terminal_error = Some(copy_io_error(&error));
                Err(error)
            },
        }
    }

    /// Takes the result of writing `buf` at the position that `begin_write` gave. A failure
    /// that is not repeated ends the file: no later write is tried.
    pub fn write(
        &mut self,
        scopes: &WriteScopes,
        buf: &[u8],
        outcome: Result<usize, IoError>,
    ) -> (step: WriteStep)
        requires
            outcome matches Ok(n) ==> n <= buf@.len() && old(self).offset + n <= u64::MAX,
        ensures
            final(self).start == old(self).start,
            match outcome {
                Ok(n) => {
                    &&& step == WriteStep::Done(n)
                    &&& final(self).offset == old(self).offset + n
                    &&& final(self).budget == old(self).budget
                    &&& final(self).recovered_write == old(self).recovered_write
                    &&& final(self).terminal_error == old(self).terminal_error
                    &&& old(self).budget.policy.max_retries > 0 ==> forall|fed: Seq<u8>|
                        old(self).hasher.covers(fed) ==> final(self).hasher.covers(
                            #[trigger] (fed + buf@.take(n as int)),
                        )
                    &&& old(self).budget.policy.max_retries == 0 ==> final(self).hasher == old(
                        self,
                    ).hasher
                },
                Err(error) => {
                    &&& final(self).offset == old(self).offset
                    &&& final(self).hasher == old(self).hasher
                    &&& if error.kind == IoErrorKind::Interrupted && !old(self).budget.is_cancelled(
                        *scopes,
                    ) {
                        step == WriteStep::Again && *final(self) == *old(self)
                    } else if error.kind == IoErrorKind::Interrupted {
                        &&& step matches WriteStep::Fail(e) && is_cancellation(e)
                            && final(self).ended_by(e)
                        &&& final(self).budget == old(self).budget
                        &&& final(self).recovered_write == old(self).recovered_write
                    } else if old(self).budget.retries(&error) {
                        &&& step == WriteStep::Wait(
                            old(self).budget.policy.backoff_spec(old(self).budget.used as nat) as u64,
                        )
                        &&& final(self).budget == old(self).budget.spent()
                        &&& final(self).recovered_write
                        &&& final(self).terminal_error == old(self).terminal_error
                    } else {
                        &&& step == WriteStep::Fail(error)
                        &&& final(self).budget == old(self).budget
                        &&& final(self).recovered_write == old(self).recovered_write
                        &&& final(self).ended_by(error)
                    }
                },
            },
    {
        match self.budget.run(scopes, RunEvent::Outcome(outcome)) {
            RunStep::Return(Ok(n)) => {
                self.offset = self.offset + n as u64;
                if self.budget.policy.max_retries > 0 {
                    let written: &[u8] = vstd::slice::slice_subrange(buf, 0, n);
                    assert(written@ =~= buf@.take(n as int));
                    self.hasher.update(written);
                }
                WriteStep::Done(n)
            },
            RunStep::Return(Err(error)) => {
                self.terminal_error = Some(copy_io_error(&error));
                WriteStep::Fail(error)
            },
            RunStep::Attempt => WriteStep::Again,
            RunStep::Wait(delay) => {
                self.recovered_write = true;
                WriteStep::Wait(delay)
            },
        }
    }

    /// Whether a flush may be issued, or the error that ended this file.
    pub fn flush(&self) -> (r: Result<(), IoError>)
        ensures
            match self.terminal_error {
                Some(ended) => r matches Err(e) && e.is_copy_of(ended),
                None => r is Ok,
            },
    {
        match &self.terminal_error {
            Some(error) => Err(copy_io_error(error)),
            None => Ok(()),
        }
    }

    /// What is left to do before the file can be handed over.
    ///
    /// A failed write may report the loss of earlier data, so a file with a repeated write is
    /// read back and checked as a whole.
    pub fn finish(&mut self, scopes: &WriteScopes) -> (r: Result<FinishPlan, IoError>)
        requires
            old(self).wf(),
        ensures
            final(self).terminal_error is None,
            *final(self) == (RetryWriter { terminal_error: None, ..*old(self) }),
            match old(self).terminal_error {
                Some(e) => r == Err::<FinishPlan, IoError>(e),
                None => if old(self).budget.is_cancelled(*scopes) {
                    r matches Err(e) && is_cancellation(e)
                } else if old(self).recovered_write {
                    r matches Ok(FinishPlan::Recover(size)) && size == min_int(
                        old(self).offset - old(self).start,
                        WRITE_RECOVERY_BUFFER_BYTES as int,
                    )
                } else {
                    r matches Ok(FinishPlan::Seek(at)) && at == old(self).offset
                },
            },
    {
        match self.terminal_error.take() {
            Some(error) => {
                return Err(error);
            },
            None => {},
        }
        match self.budget.check_cancelled(scopes) {
            Ok(_) => {},
            Err(error) => {
                return Err(error);
            },
        }
        if self.recovered_write {
            let region: u64 = self.offset - self.start;
            if region <= WRITE_RECOVERY_BUFFER_BYTES {
                Ok(FinishPlan::Recover(region as usize))
            } else {
                Ok(FinishPlan::Recover(WRITE_RECOVERY_BUFFER_BYTES as usize))
            }
        } else {
            Ok(FinishPlan::Seek(self.offset))
        }
    }

    /// Starts a pass over the whole region that this writer owns.
    pub fn rewrite_region(&self, scopes: &WriteScopes, buffer: usize, wide: bool) -> (r: Result<
        RewritePass,
        IoError,
    >)
        requires
            self.wf(),
            buffer > 0 || self.start == self.offset,
        ensures
            match r {
                Ok(pass) => {
                    &&& !self.budget.is_cancelled(*scopes)
                    &&& pass.wf()
                    &&& pass.next == self.start
                    &&& pass.end == self.offset
                    &&& pass.buffer == buffer
                    &&& pass.pending == 0
                    &&& pass.hasher.covers(Seq::empty())
                },
                Err(e) => self.budget.is_cancelled(*scopes) && is_cancellation(e),
            },
    {
        match self.budget.check_cancelled(scopes) {
            Ok(_) => {},
            Err(error) => {
                return Err(error);
            },
        }
        Ok(
            RewritePass {
                next: self.start,
                end: self.offset,
                buffer,
                pending: 0,
                written: 0,
                hasher: RecoveryChecksum::new(wide),
            },
        )
    }

    /// Takes the result of a pass. A file that ended early has lost data: that is a device
    /// failure which no further pass can mend. Other failures start another pass, by the budget.
    pub fn after_pass(&mut self, outcome: Result<u32, IoError>) -> (step: PassStep)
        ensures
            match outcome {
                Ok(crc) => step == PassStep::Verify(crc) && *final(self) == *old(self),
                Err(error) => if error.kind == IoErrorKind::UnexpectedEof {
                    &&& step matches PassStep::Fail(e) && e.is_eio_number()
                    &&& *final(self) == *old(self)
                } else if old(self).budget.retries(&error) {
                    &&& step == PassStep::Wait(
                        old(self).budget.policy.backoff_spec(old(self).budget.used as nat) as u64,
                    )
                    &&& *final(self) == (RetryWriter {
                        budget: old(self).budget.spent(),
                        ..*old(self)
                    })
                } else {
                    step == PassStep::Fail(error) && *final(self) == *old(self)
                },
            },
    {
        match outcome {
            Ok(crc) => PassStep::Verify(crc),
            Err(error) => if error.kind == IoErrorKind::UnexpectedEof {
                PassStep::Fail(IoError::eio())
            } else {
                match self.budget.retry(error) {
                    Ok(delay) => PassStep::Wait(delay),
                    Err(error) => PassStep::Fail(error),
                }
            },
        }
    }

    /// Holds what a pass read back against what was written: the checksums must agree and the
    /// file must end where the writer stands.
    pub fn verify(
        &self,
        scopes: &WriteScopes,
        crc: u32,
        file_len: Result<u64, IoError>,
    ) -> (r: Result<(), IoError>)
        ensures
            forall|accepted: Seq<u8>| #[trigger]
                self.hasher.covers(accepted) ==> {
                    if crc != ieee_crc32(accepted) {
                        r matches Err(e) && e.is_eio_number()
                    } else {
                        match file_len {
                            Err(e) => r == Err::<(), IoError>(e),
                            Ok(len) => if len != self.offset {
                                r matches Err(e) && e.is_eio_number()
                            } else {
                                cancellation_result(self.budget.is_cancelled(*scopes), r)
                            },
                        }
                    }
                },
    {
        if crc != self.hasher.finalize() {
            return Err(IoError::eio());
        }
        match file_len {
            Err(error) => Err(error),
            Ok(len) => if len != self.offset {
                Err(IoError::eio())
            } else {
                self.budget.check_cancelled(scopes)
            },
        }
    }

    /// Takes the result of a sync. Only interruptions are repeated: a later sync that succeeds
    /// cannot mend data that an earlier one lost.
    pub fn after_sync(&self, scopes: &WriteScopes, outcome: Result<(), IoError>) -> (step: SyncStep)
        ensures
            match outcome {
                Err(error) if error.kind != IoErrorKind::Interrupted => step == SyncStep::Fail(
                    error,
                ),
                _ => if self.budget.is_cancelled(*scopes) {
                    step matches SyncStep::Fail(e) && is_cancellation(e)
                } else {
                    step == (if outcome is Ok {
                        SyncStep::Done
                    } else {
                        SyncStep::Again
                    })
                },
            },
    {
        let again: bool = match outcome {
            Ok(_) => false,
            Err(error) => {
                if error.kind != IoErrorKind::Interrupted {
                    return SyncStep::Fail(error);
                }
                true
            },
        };
        match self.budget.check_cancelled(scopes) {
            Err(error) => SyncStep::Fail(error),
            Ok(_) => if again {
                SyncStep::Again
            } else {
                SyncStep::Done
            },
        }
    }
}

/// One pass over the region of a writer: each piece is read, checksummed, and written back to
/// where it came from.
pub struct RewritePass {
    /// Where the piece at hand begins.
    pub next: u64,
    /// Where the region ends.
    pub end: u64,
    /// Bytes that are read at a time.
    pub buffer: usize,
    /// Bytes of the piece at hand, 0 before it is read.
    pub pending: usize,
    /// Bytes of the piece at hand that are written back.
    pub written: usize,
    pub hasher: RecoveryChecksum,
}

/// The operation that a pass needs next.
#[derive(Clone, Copy, Debug, PartialEq, Eq, Structural)]
pub enum RewriteAction {
    /// Read at most so many bytes at this position, into the front of the buffer.
    Read(u64, usize),
    /// Write the bytes of the buffer between these two indices at this position.
    Write(usize, usize, u64),
    /// The pass is over; this is the checksum of all that it read.
    Done(u32),
}

impl RewritePass {
    pub open spec fn wf(&self) -> bool {
        &&& self.next + self.pending <= self.end
        &&& self.pending <= self.buffer
        &&& self.written < self.pending || (self.written == 0 && self.pending == 0)
        &&& self.buffer > 0 || self.next == self.end
    }

    /// How many bytes of the region have not been read yet.
    pub open spec fn unread(&self) -> int {
        self.end - self.next - self.pending
    }

    /// The operation that is needed next. None is started in a cancelled scope.
    pub fn action(&self, budget: &EioRetryBudget, scopes: &WriteScopes) -> (r: Result<
        RewriteAction,
        IoError,
    >)
        requires
            self.wf(),
        ensures
            self.pending == 0 && self.next == self.end ==> r is Ok && r->Ok_0 is Done && forall|
                fed: Seq<u8>,
            | #[trigger]
                self.hasher.covers(fed) ==> r->Ok_0->Done_0 == ieee_crc32(fed),
            self.pending > 0 || self.next < self.end ==> if budget.is_cancelled(*scopes) {
                r matches Err(e) && is_cancellation(e)
            } else {
                &&& r is Ok
                &&& r->Ok_0 == (if self.pending > 0 {
                    RewriteAction::Write(
                        self.written,
                        self.pending,
                        (self.next + self.written) as u64,
                    )
                } else {
                    RewriteAction::Read(
                        self.next,
                        min_int(self.end - self.next, self.buffer as int) as usize,
                    )
                })
            },
    {
        if self.pending == 0 && self.next == self.end {
            return Ok(RewriteAction::Done(self.hasher.finalize()));
        }
        match budget.check_cancelled(scopes) {
            Ok(_) => {},
            Err(error) => {
                return Err(error);
            },
        }
        if self.pending > 0 {
            Ok(RewriteAction::Write(self.written, self.pending, self.next + self.written as u64))
        } else {
            let remaining: u64 = self.end - self.next;
            if remaining <= self.buffer as u64 {
                Ok(RewriteAction::Read(self.next, remaining as usize))
            } else {
                Ok(RewriteAction::Read(self.next, self.buffer))
            }
        }
    }

    /// Takes the result of a read into the front of `buf`.
    pub fn on_read(&mut self, buf: &[u8], outcome: Result<usize, IoError>) -> (r: Result<(), IoError>)
        requires
            old(self).wf(),
            old(self).pending == 0,
            outcome matches Ok(n) ==> n <= buf@.len() && n <= old(self).buffer && n <= old(
                self,
            ).unread(),
        ensures
            final(self).wf(),
            final(self).end == old(self).end,
            final(self).buffer == old(self).buffer,
            final(self).next == old(self).next,
            match outcome {
                Ok(n) => if n == 0 {
                    &&& r matches Err(e) && e.is_plain(
                        IoErrorKind::UnexpectedEof,
                        "Shuffle recovery read ended before the written data"@,
                    )
                    &&& *final(self) == *old(self)
                } else {
                    &&& r is Ok
                    &&& final(self).pending == n
                    &&& final(self).written == 0
                    &&& forall|fed: Seq<u8>|
                        old(self).hasher.covers(fed) ==> final(self).hasher.covers(
                            #[trigger] (fed + buf@.take(n as int)),
                        )
                },
                Err(error) => {
                    &&& *final(self) == *old(self)
                    &&& if error.kind == IoErrorKind::Interrupted {
                        r is Ok
                    } else {
                        r == Err::<(), IoError>(error)
                    }
                },
            },
    {
        match outcome {
            Ok(n) => {
                if n == 0 {
                    return Err(
                        IoError::new(
                            IoErrorKind::UnexpectedEof,
                            "Shuffle recovery read ended before the written data",
                        ),
                    );
                }
                let piece: &[u8] = vstd::slice::slice_subrange(buf, 0, n);
                assert(piece@ =~= buf@.take(n as int));
                self.hasher.update(piece);
                self.pending = n;
                self.written = 0;
                Ok(())
            },
            Err(error) => if error.kind == IoErrorKind::Interrupted {
                Ok(())
            } else {
                Err(error)
            },
        }
    }

    /// Takes the result of writing back a part of the piece at hand.
    pub fn on_write(&mut self, outcome: Result<usize, IoError>) -> (r: Result<(), IoError>)
        requires
            old(self).wf(),
            old(self).pending > 0,
            outcome matches Ok(n) ==> old(self).written + n <= old(self).pending,
        ensures
            final(self).wf(),
            final(self).end == old(self).end,
            final(self).buffer == old(self).buffer,
            final(self).hasher == old(self).hasher,
            final(self).unread() == old(self).unread(),
            match outcome {
                Ok(n) => if n == 0 {
                    &&& r matches Err(e) && e.is_plain(IoErrorKind::WriteZero, "write zero"@)
                    &&& *final(self) == *old(self)
                } else {
                    &&& r is Ok
                    &&& final(self).next + final(self).written == old(self).next + old(self).written
                        + n
                    &&& old(self).written + n == old(self).pending ==> final(self).pending == 0
                    &&& old(self).written + n < old(self).pending ==> final(self).pending == old(
                        self,
                    ).pending
                },
                Err(error) => {
                    &&& *final(self) == *old(self)
                    &&& if error.kind == IoErrorKind::Interrupted {
                        r is Ok
                    } else {
                        r == Err::<(), IoError>(error)
                    }
                },
            },
    {
        match outcome {
            Ok(n) => {
                if n == 0 {
                    return Err(IoError::new(IoErrorKind::WriteZero, "write zero"));
                }
                self.written = self.written + n;
                if self.written == self.pending {
                    self.next = self.next + self.pending as u64;
                    self.pending = 0;
                    self.written = 0;
                }
                Ok(())
            },
            Err(error) => if error.kind == IoErrorKind::Interrupted {
                Ok(())
            } else {
                Err(error)
            },
        }
    }
}

/// The wait is the initial one at first and doubles with every retry until it is the longest.
pub proof fn waits_double_up_to_the_longest(policy: EioRetryPolicy, retries: nat)
    ensures
        policy.backoff_spec(0) == (if policy.initial_backoff_ms <= policy.max_backoff_ms {
            policy.initial_backoff_ms
        } else {
            policy.max_backoff_ms
        }),
        2 * policy.backoff_spec(retries) <= policy.max_backoff_ms ==> policy.backoff_spec(retries + 1)
            == 2 * policy.backoff_spec(retries),
        2 * policy.backoff_spec(retries) > policy.max_backoff_ms ==> policy.backoff_spec(retries + 1)
            == policy.max_backoff_ms,
{
    vstd::arithmetic::power2::lemma_pow2_unfold(retries + 1);
    vstd::arithmetic::power2::lemma2_to64();
    lemma_pow2_pos(retries);
    let i = policy.initial_backoff_ms as int;
    let p = pow2(retries) as int;
    assert(i * (2 * p) == 2 * (i * p)) by (nonlinear_arith);
    assert(i * 1 == i) by (nonlinear_arith);
    assert(i * p >= 0) by (nonlinear_arith)
        requires
            i >= 0,
            p >= 0,
    ;
}

/// Only a device failure is repeated, as Unix numbers it, and only while retries are left; each
/// takes one retry and nothing else.
pub proof fn only_device_failures_are_repeated(budget: EioRetryBudget, error: IoError)
    ensures
        budget.retries(&error) <==> budget.platform == Platform::Unix && error.errno == Some(5i32)
            && budget.used < budget.policy.max_retries,
        budget.retries(&error) ==> budget.spent().used == budget.used + 1,
        budget.spent().policy == budget.policy,
        budget.spent().path == budget.path,
        budget.spent().platform == budget.platform,
        budget.spent().cancellation == budget.cancellation,
        budget.retries(&error) ==> budget.spent().wf(),
{
}

/// Releasing a guard cancels its scope and no other.
pub proof fn other_scopes_go_on(
    before: WriteScopes,
    after: WriteScopes,
    c: WriteCancellation,
    other: WriteCancellation,
)
    requires
        after.cancelled@ == after_release(before.cancelled@, c),
    ensures
        c.scope < before.cancelled@.len() ==> after.is_cancelled(c),
        other.scope != c.scope ==> after.is_cancelled(other) == before.is_cancelled(other),
        after.cancelled@.len() == before.cancelled@.len(),
{
}

/// An operation goes on exactly where its scope is not cancelled, and ends with an error of its
/// own where it is, which nobody takes for an interruption.
pub proof fn operations_end_with_their_scope<T>(
    budget: EioRetryBudget,
    scopes: WriteScopes,
    step: RunStep<T>,
    r: Result<(), IoError>,
)
    requires
        budget.attempts_or_ends(scopes, step),
        cancellation_result(budget.is_cancelled(scopes), r),
    ensures
        ({
            let cancelled = budget.cancellation is Some && budget.cancellation->0.scope
                < scopes.cancelled@.len() && scopes.cancelled@[budget.cancellation->0.scope as int];
            &&& step is Attempt <==> !cancelled
            &&& r is Ok <==> !cancelled
            &&& cancelled ==> {
                &&& step is Return
                &&& step->Return_0 is Err
                &&& step->Return_0->Err_0.kind == IoErrorKind::Other
                &&& step->Return_0->Err_0.errno is None
                &&& step->Return_0->Err_0.message@ == "Shuffle write cancelled"@
                &&& r->Err_0.kind == IoErrorKind::Other
                &&& r->Err_0.message@ == "Shuffle write cancelled"@
            }
        }),
{
}

/// Writes are counted owner by owner.
pub proof fn owners_add_up(owners: Seq<u64>, shuffle_ids: Seq<u64>, id: u64)
    ensures
        owned_by(Seq::empty(), shuffle_ids) == 0,
        shuffle_ids.contains(id) ==> owned_by(owners.push(id), shuffle_ids) == owned_by(
            owners,
            shuffle_ids,
        ) + 1,
        !shuffle_ids.contains(id) ==> owned_by(owners.push(id), shuffle_ids) == owned_by(
            owners,
            shuffle_ids,
        ),
{
    assert(owners.push(id).drop_last() =~= owners);
}

/// A file that has ended keeps the failure that ended it, as it was reported.
pub proof fn ended_files_keep_their_failure(writer: RetryWriter, error: IoError)
    requires
        writer.ended_by(error),
    ensures
        writer.terminal_error is Some,
        writer.terminal_error->0.kind == error.kind,
        writer.terminal_error->0.errno == error.errno,
        writer.terminal_error->0.message@ == error.message@,
{
}

} // verus!
