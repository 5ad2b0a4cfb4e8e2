//! The barrier that a worker passes before it is retired. Holds on its data belong to queries;
//! they are taken before a task is dispatched and released when the query has been cleaned up.
use std::collections::HashSet;

use vstd::prelude::*;

use crate::error::DaftError;

verus! {

broadcast use vstd::std_specs::hash::group_hash_axioms;

/// The number of a query.
pub type QueryIdx = u32;

/// How far a worker is on its way out.
#[derive(Clone, Copy, Debug, PartialEq, Eq, Structural)]
pub enum DrainState {
    Active,
    Draining,
    ReadyToRetire,
    Retiring,
    Retired,
    Unknown,
    Failed,
}

/// The retirement barrier of one worker.
pub struct DrainBarrier {
    pub epoch: u64,
    pub state: DrainState,
    pub data_queries: HashSet<QueryIdx>,
    pub unknown: Option<String>,
}

impl Default for DrainBarrier {
    /// A worker that nobody wants to retire.
    fn default() -> (b: Self)
        ensures
            b.epoch == 0,
            b.state == DrainState::Active,
            b.data_queries@ == Set::<QueryIdx>::empty(),
            b.unknown is None,
    {
        DrainBarrier {
            epoch: 0,
            state: DrainState::Active,
            data_queries: HashSet::new(),
            unknown: None,
        }
    }
}

impl DrainBarrier {
    /// Whether nothing keeps the worker: no task, no query's data, no doubt.
    pub open spec fn free(&self, active_tasks: usize) -> bool {
        active_tasks == 0 && self.data_queries@.is_empty() && self.unknown is None
    }

    /// What the worker's state is, given its active tasks.
    pub open spec fn status_spec(&self, active_tasks: usize) -> DrainState {
        if self.unknown is Some {
            DrainState::Unknown
        } else if self.state == DrainState::Draining && self.free(active_tasks) {
            DrainState::ReadyToRetire
        } else {
            self.state
        }
    }

    /// Whether the retirement can no longer be called off.
    pub open spec fn committed(&self) -> bool {
        self.state == DrainState::Retiring || self.state == DrainState::Retired
    }

    /// Why the worker cannot be prepared for retirement in `epoch`, if it cannot.
    pub open spec fn prepare_error(&self, epoch: u64) -> Option<Seq<char>> {
        if epoch < self.epoch || epoch == 0 {
            Some("Stale drain epoch"@)
        } else if epoch == self.epoch {
            if self.state == DrainState::Active { Some("Drain epoch was cancelled"@) } else { None }
        } else if self.committed() {
            Some("Worker retirement is committed"@)
        } else {
            None
        }
    }

    /// The worker prepared for retirement in `epoch`.
    pub open spec fn prepared(self, epoch: u64) -> DrainBarrier {
        if epoch == self.epoch {
            self
        } else {
            DrainBarrier { epoch, state: DrainState::Draining, ..self }
        }
    }

    /// Why `epoch` is not the current one, if it is not.
    pub open spec fn epoch_error(&self, epoch: u64) -> Option<Seq<char>> {
        if epoch == 0 || epoch != self.epoch { Some("Stale drain epoch"@) } else { None }
    }

    /// Why the retirement of `epoch` cannot be called off, if it cannot.
    pub open spec fn cancel_error(&self, epoch: u64) -> Option<Seq<char>> {
        if self.epoch_error(epoch) is Some {
            self.epoch_error(epoch)
        } else if self.committed() {
            Some("Worker retirement is committed"@)
        } else {
            None
        }
    }

    /// The worker in another state.
    pub open spec fn in_state(self, state: DrainState) -> DrainBarrier {
        DrainBarrier { state, ..self }
    }

    /// Why the retirement of `epoch` cannot be committed, if it cannot.
    pub open spec fn commit_error(&self, epoch: u64, active_tasks: usize) -> Option<Seq<char>> {
        if self.epoch_error(epoch) is Some {
            self.epoch_error(epoch)
        } else if self.status_spec(active_tasks) != DrainState::ReadyToRetire {
            Some("Worker is not ready to retire"@)
        } else {
            None
        }
    }

    /// Whether nothing keeps the worker.
    pub fn can_retire(&self, active_tasks: usize) -> (b: bool)
        ensures
            b == self.free(active_tasks),
    {
        active_tasks == 0 && self.data_queries.is_empty() && self.unknown.is_none()
    }

    /// What the worker's state is, given its active tasks.
    pub fn status(&self, active_tasks: usize) -> (s: DrainState)
        ensures
            s == self.status_spec(active_tasks),
    {
        if self.unknown.is_some() {
            DrainState::Unknown
        } else if self.state == DrainState::Draining && self.can_retire(active_tasks) {
            DrainState::ReadyToRetire
        } else {
            self.state
        }
    }

    /// Stops new work for a worker that is to be retired. Epochs are positive and ascend; a
    /// second call in the same epoch changes nothing.
    pub fn prepare(&mut self, epoch: u64) -> (r: Result<(), DaftError>)
        ensures
            match old(self).prepare_error(epoch) {
                None => r is Ok && *final(self) == old(self).prepared(epoch),
                Some(text) => (r matches Err(e) && e.is_value_error(text)) && *final(self) == *old(
                    self,
                ),
            },
    {
        if epoch < self.epoch || epoch == 0 {
            return Err(DaftError::value_error("Stale drain epoch"));
        }
        if epoch == self.epoch {
            return if self.state == DrainState::Active {
                Err(DaftError::value_error("Drain epoch was cancelled"))
            } else {
                Ok(())
            };
        }
        if self.state == DrainState::Retiring || self.state == DrainState::Retired {
            return Err(DaftError::value_error("Worker retirement is committed"));
        }
        self.epoch = epoch;
        self.state = DrainState::Draining;
        Ok(())
    }

    /// Calls the retirement off.
    pub fn cancel(&mut self, epoch: u64) -> (r: Result<(), DaftError>)
        ensures
            match old(self).cancel_error(epoch) {
                None => r is Ok && *final(self) == old(self).in_state(DrainState::Active),
                Some(text) => (r matches Err(e) && e.is_value_error(text)) && *final(self) == *old(
                    self,
                ),
            },
    {
        match self.check_epoch(epoch) {
            Ok(_) => {},
            Err(e) => {
                return Err(e);
            },
        }
        if self.state == DrainState::Retiring || self.state == DrainState::Retired {
            return Err(DaftError::value_error("Worker retirement is committed"));
        }
        self.state = DrainState::Active;
        Ok(())
    }

    /// Whether `epoch` is the current one.
    pub fn check_epoch(&self, epoch: u64) -> (r: Result<(), DaftError>)
        ensures
            match self.epoch_error(epoch) {
                None => r is Ok,
                Some(text) => r matches Err(e) && e.is_value_error(text),
            },
    {
        if epoch == 0 || epoch != self.epoch {
            Err(DaftError::value_error("Stale drain epoch"))
        } else {
            Ok(())
        }
    }

    /// Commits the retirement of a worker that nothing keeps.
    pub fn commit(&mut self, epoch: u64, active_tasks: usize) -> (r: Result<(), DaftError>)
        ensures
            match old(self).commit_error(epoch, active_tasks) {
                None => r is Ok && *final(self) == old(self).in_state(DrainState::Retiring),
                Some(text) => (r matches Err(e) && e.is_value_error(text)) && *final(self) == *old(
                    self,
                ),
            },
    {
        match self.check_epoch(epoch) {
            Ok(_) => {},
            Err(e) => {
                return Err(e);
            },
        }
        if self.status(active_tasks) != DrainState::ReadyToRetire {
            return Err(DaftError::value_error("Worker is not ready to retire"));
        }
        self.state = DrainState::Retiring;
        Ok(())
    }
}

/// Preparing twice in one epoch is preparing once.
pub proof fn prepare_is_idempotent(b: DrainBarrier, epoch: u64)
    requires
        b.prepare_error(epoch) is None,
    ensures
        b.prepared(epoch).prepare_error(epoch) is None,
        b.prepared(epoch).prepared(epoch) == b.prepared(epoch),
{
}

/// Epochs never fall: a prepared worker has the epoch that it was prepared in, and an earlier
/// one is refused from then on.
pub proof fn epochs_ascend(b: DrainBarrier, epoch: u64, earlier: u64)
    requires
        b.prepare_error(epoch) is None,
        earlier < epoch,
    ensures
        b.epoch <= b.prepared(epoch).epoch == epoch,
        b.prepared(epoch).prepare_error(earlier) == Some("Stale drain epoch"@),
        b.prepared(epoch).cancel_error(earlier) == Some("Stale drain epoch"@),
{
}

/// An epoch that was called off is spent: no later call of that epoch prepares the worker.
pub proof fn cancelled_epoch_is_spent(b: DrainBarrier, epoch: u64)
    requires
        b.cancel_error(epoch) is None,
    ensures
        b.in_state(DrainState::Active).prepare_error(epoch) == Some("Drain epoch was cancelled"@),
        b.in_state(DrainState::Active).commit_error(epoch, 0) is Some,
{
}

/// A committed retirement is final: it cannot be called off, and no other epoch begins. The
/// same holds of a worker that has been retired.
pub proof fn commit_is_final(b: DrainBarrier, epoch: u64, active_tasks: usize, later: u64)
    requires
        b.commit_error(epoch, active_tasks) is None,
        later > epoch,
    ensures
        b.in_state(DrainState::Retiring).cancel_error(epoch) is Some,
        b.in_state(DrainState::Retiring).prepare_error(later) is Some,
        b.in_state(DrainState::Retired).cancel_error(epoch) is Some,
        b.in_state(DrainState::Retired).prepare_error(later) is Some,
{
}

/// Doubt closes the barrier: while something about the worker is unknown, or a query holds its
/// data, or a task runs on it, its retirement is not committed.
pub proof fn holds_prevent_retirement(b: DrainBarrier, epoch: u64, active_tasks: usize)
    requires
        b.unknown is Some || !b.data_queries@.is_empty() || active_tasks > 0,
        b.state != DrainState::ReadyToRetire,
    ensures
        b.commit_error(epoch, active_tasks) is Some,
{
}

/// A worker is prepared for retirement in a positive epoch that is later than the ones before,
/// unless its retirement is committed; or once more in the epoch that it is prepared in. Nothing
/// changes then but the epoch and the state.
pub proof fn preparing_takes_a_later_epoch(b: DrainBarrier, epoch: u64)
    ensures
        b.prepare_error(epoch) is None <==> epoch > 0 && ((epoch > b.epoch && b.state
            != DrainState::Retiring && b.state != DrainState::Retired) || (epoch == b.epoch
            && b.state != DrainState::Active)),
        epoch == 0 || epoch < b.epoch ==> b.prepare_error(epoch) == Some("Stale drain epoch"@),
        epoch > 0 && epoch == b.epoch && b.state == DrainState::Active ==> b.prepare_error(epoch)
            == Some("Drain epoch was cancelled"@),
        epoch > b.epoch && (b.state == DrainState::Retiring || b.state == DrainState::Retired)
            ==> b.prepare_error(epoch) == Some("Worker retirement is committed"@),
        epoch > b.epoch ==> b.prepared(epoch).epoch == epoch && b.prepared(epoch).state
            == DrainState::Draining,
        b.prepared(epoch).data_queries == b.data_queries,
        b.prepared(epoch).unknown == b.unknown,
        epoch == b.epoch ==> b.prepared(epoch).state == b.state,
{
}

/// A retirement is called off in its own epoch, before it is committed; and nothing but the
/// state changes then.
pub proof fn only_the_current_epoch_is_called_off(b: DrainBarrier, epoch: u64, state: DrainState)
    ensures
        b.cancel_error(epoch) is None <==> epoch > 0 && epoch == b.epoch && b.state
            != DrainState::Retiring && b.state != DrainState::Retired,
        epoch == 0 || epoch != b.epoch ==> b.cancel_error(epoch) == Some("Stale drain epoch"@)
            && b.epoch_error(epoch) == Some("Stale drain epoch"@),
        epoch > 0 && epoch == b.epoch ==> b.epoch_error(epoch) is None,
        epoch > 0 && epoch == b.epoch && (b.state == DrainState::Retiring || b.state
            == DrainState::Retired) ==> b.cancel_error(epoch) == Some(
            "Worker retirement is committed"@,
        ),
        b.in_state(state).state == state,
        b.in_state(state).epoch == b.epoch,
        b.in_state(state).data_queries == b.data_queries,
        b.in_state(state).unknown == b.unknown,
{
}

/// A retirement is committed in its own epoch, where nothing is in doubt, and the worker drains
/// with no task and no data of a query left.
pub proof fn only_free_workers_are_committed(b: DrainBarrier, epoch: u64, active_tasks: usize)
    requires
        b.state != DrainState::ReadyToRetire,
    ensures
        b.commit_error(epoch, active_tasks) is None <==> {
            &&& epoch > 0
            &&& epoch == b.epoch
            &&& b.state == DrainState::Draining
            &&& b.unknown is None
            &&& active_tasks == 0
            &&& forall|q: QueryIdx| !b.data_queries@.contains(q)
        },
        epoch == 0 || epoch != b.epoch ==> b.commit_error(epoch, active_tasks) == Some(
            "Stale drain epoch"@,
        ),
        epoch > 0 && epoch == b.epoch && b.commit_error(epoch, active_tasks) is Some
            ==> b.commit_error(epoch, active_tasks) == Some("Worker is not ready to retire"@),
{
    if forall|q: QueryIdx| !b.data_queries@.contains(q) {
        assert(b.data_queries@ =~= Set::<QueryIdx>::empty());
    }
    assert(b.data_queries@.is_empty() ==> forall|q: QueryIdx| !b.data_queries@.contains(q));
}

/// What is told of a worker: doubt before everything else, that it is ready once it drains with
/// nothing left, and else the stage that it is in.
pub proof fn doubt_is_told_first(b: DrainBarrier, active_tasks: usize)
    ensures
        b.unknown is Some ==> b.status_spec(active_tasks) == DrainState::Unknown,
        b.unknown is None && b.state != DrainState::Draining ==> b.status_spec(active_tasks)
            == b.state,
        b.unknown is None && b.state == DrainState::Draining && active_tasks > 0 ==> b.status_spec(
            active_tasks,
        ) == DrainState::Draining,
        b.unknown is None && b.state == DrainState::Draining && (exists|q: QueryIdx|
            b.data_queries@.contains(q)) ==> b.status_spec(active_tasks) == DrainState::Draining,
        b.unknown is None && b.state == DrainState::Draining && active_tasks == 0
            && b.data_queries@ == Set::<QueryIdx>::empty() ==> b.status_spec(active_tasks)
            == DrainState::ReadyToRetire,
{
}

/// Nothing keeps a worker exactly where it has no task, no query has data on it, and nothing is
/// in doubt.
pub proof fn nothing_keeps_a_free_barrier(b: DrainBarrier, active_tasks: usize)
    ensures
        b.free(active_tasks) <==> {
            &&& active_tasks == 0
            &&& forall|q: QueryIdx| !b.data_queries@.contains(q)
            &&& b.unknown is None
        },
        b.committed() <==> b.state == DrainState::Retiring || b.state == DrainState::Retired,
{
    if forall|q: QueryIdx| !b.data_queries@.contains(q) {
        assert(b.data_queries@ =~= Set::<QueryIdx>::empty());
    }
}

} // verus!
