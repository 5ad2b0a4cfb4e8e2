//! How file operations of each shuffle are repeated. A policy lives as long as what else is kept
//! of its shuffle.
use std::collections::HashMap;

use vstd::prelude::*;

use crate::shuffle_file::EioRetryPolicy;

verus! {

broadcast use vstd::std_specs::hash::group_hash_axioms;

/// The settings that make up a policy.
#[derive(Clone, Copy, Debug, PartialEq, Eq, Structural)]
pub struct LocalRetrySettings {
    pub flight_shuffle_eio_local_max_retries: u32,
    pub flight_shuffle_eio_local_initial_backoff_ms: u64,
    pub flight_shuffle_eio_local_max_backoff_ms: u64,
}

/// The policy that settings make up.
pub fn from_config(config: &LocalRetrySettings) -> (p: EioRetryPolicy)
    ensures
        p.max_retries == config.flight_shuffle_eio_local_max_retries,
        p.initial_backoff_ms == config.flight_shuffle_eio_local_initial_backoff_ms,
        p.max_backoff_ms == config.flight_shuffle_eio_local_max_backoff_ms,
{
    EioRetryPolicy {
        max_retries: config.flight_shuffle_eio_local_max_retries,
        initial_backoff_ms: config.flight_shuffle_eio_local_initial_backoff_ms,
        max_backoff_ms: config.flight_shuffle_eio_local_max_backoff_ms,
    }
}

/// The policies of all shuffles, by number.
pub struct ShufflePolicies {
    pub policies: HashMap<u64, EioRetryPolicy>,
}

impl View for ShufflePolicies {
    type V = Map<u64, EioRetryPolicy>;

    open spec fn view(&self) -> Map<u64, EioRetryPolicy> {
        self.policies@
    }
}

/// The policy of a shuffle that has none of its own: nothing is repeated.
pub open spec fn no_retries() -> EioRetryPolicy {
    EioRetryPolicy { max_retries: 0, initial_backoff_ms: 0, max_backoff_ms: 0 }
}

/// The policy of a shuffle.
pub open spec fn policy_of(policies: Map<u64, EioRetryPolicy>, shuffle_id: u64) -> EioRetryPolicy {
    if policies.contains_key(shuffle_id) {
        policies[shuffle_id]
    } else {
        no_retries()
    }
}

impl Default for ShufflePolicies {
    /// No policies.
    fn default() -> (p: ShufflePolicies)
        ensures
            p@ == Map::<u64, EioRetryPolicy>::empty(),
    {
        ShufflePolicies { policies: HashMap::new() }
    }
}

/// Sets the policy of a shuffle.
pub fn configure(policies: &mut ShufflePolicies, shuffle_id: u64, policy: EioRetryPolicy)
    ensures
        final(policies)@ == old(policies)@.insert(shuffle_id, policy),
{
    policies.policies.insert(shuffle_id, policy);
}

/// The policy of a shuffle.
pub fn policy(policies: &ShufflePolicies, shuffle_id: u64) -> (p: EioRetryPolicy)
    ensures
        p == policy_of(policies@, shuffle_id),
{
    match policies.policies.get(&shuffle_id) {
        Some(policy) => *policy,
        None => EioRetryPolicy::default(),
    }
}

/// Forgets the policy of a shuffle.
pub fn forget(policies: &mut ShufflePolicies, shuffle_id: u64)
    ensures
        final(policies)@ == old(policies)@.remove(shuffle_id),
{
    policies.policies.remove(&shuffle_id);
}

/// A shuffle has the policy that was last set for it, and none once it is forgotten; other
/// shuffles keep theirs.
pub proof fn policies_are_kept_apart(
    policies: Map<u64, EioRetryPolicy>,
    shuffle_id: u64,
    policy: EioRetryPolicy,
    other: u64,
)
    ensures
        policy_of(policies.insert(shuffle_id, policy), shuffle_id) == policy,
        policy_of(policies.remove(shuffle_id), shuffle_id) == no_retries(),
        other != shuffle_id ==> policy_of(policies.insert(shuffle_id, policy), other) == policy_of(
            policies,
            other,
        ),
        other != shuffle_id ==> policy_of(policies.remove(shuffle_id), other) == policy_of(
            policies,
            other,
        ),
{
}

} // verus!
