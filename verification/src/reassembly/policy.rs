//! Resolving the overlap policy for a destination host.
//!
//! Overlap policy is **configured, never guessed**. OS fingerprinting to infer
//! a stack's reassembly behaviour is itself evadable — an attacker who can
//! influence the fingerprint can choose the policy the sensor uses, which is
//! worse than having no policy at all. An operator who knows their network
//! states what is on it, and a wrong entry is at least a wrong entry someone
//! can find and correct.
//!
//! Lookups are by **destination**: the host that will act on the bytes is the
//! one whose reassembly rules matter. For a TCP stream that means the receiver
//! of that direction, so the two halves of a connection can resolve overlaps
//! differently — which is correct, because they are two different stacks.

use vstd::prelude::*;
use crate::config::{HostPolicy, ReassemblyConfig};
use crate::net::IpAddr;
use super::OverlapPolicy;

verus! {

/// The override that decides for an address: of those whose network covers it,
/// the first with the longest prefix.
pub open spec fn deciding(overrides: Seq<HostPolicy>, address: IpAddr) -> Option<int>
    decreases overrides.len(),
{
    if overrides.len() == 0 {
        None
    } else {
        let before = deciding(overrides.drop_last(), address);
        let last = overrides.last().network;
        if last.covers(address) && (before is None || last.prefix()
            > overrides[before->0].network.prefix()) {
            Some(overrides.len() - 1)
        } else {
            before
        }
    }
}

/// The policy that a default and some overrides give an address.
pub open spec fn resolved_policy(
    default_policy: OverlapPolicy,
    overrides: Seq<HostPolicy>,
    address: IpAddr,
) -> OverlapPolicy {
    match deciding(overrides, address) {
        Some(i) => overrides[i].policy,
        None => default_policy,
    }
}

/// Longest prefix wins: the deciding override covers the address, and no other
/// that covers it has a longer prefix. There is one as soon as any covers it.
pub proof fn law_the_longest_prefix_wins(overrides: Seq<HostPolicy>, address: IpAddr)
    ensures
        deciding(overrides, address) matches Some(i) ==> 0 <= i < overrides.len()
            && overrides[i].network.covers(address),
        forall|j: int|
            0 <= j < overrides.len() && (#[trigger] overrides[j]).network.covers(address) ==> {
                &&& deciding(overrides, address) is Some
                &&& overrides[j].network.prefix() <= overrides[deciding(
                    overrides,
                    address,
                )->0].network.prefix()
            },
    decreases overrides.len(),
{
    if overrides.len() > 0 {
        let init = overrides.drop_last();
        law_the_longest_prefix_wins(init, address);
        assert forall|j: int|
            0 <= j < overrides.len() && (#[trigger] overrides[j]).network.covers(
                address,
            ) implies {
            &&& deciding(overrides, address) is Some
            &&& overrides[j].network.prefix() <= overrides[deciding(
                overrides,
                address,
            )->0].network.prefix()
        } by {
            if j < init.len() {
                assert(init[j] == overrides[j]);
            }
        }
    }
}

/// Resolves an overlap policy for a destination address.
///
/// Longest prefix wins, so a `/32` beats a `/24` however the file was ordered.
#[derive(Debug, Clone)]
pub struct PolicyResolver {
    default_policy: OverlapPolicy,
    entries: Vec<HostPolicy>,
}

impl Default for PolicyResolver {
    fn default() -> (resolver: Self)
        ensures
            resolver.fallback() == OverlapPolicy::First,
            resolver.overrides() == Seq::<HostPolicy>::empty(),
    {
        Self { default_policy: OverlapPolicy::First, entries: Vec::new() }
    }
}

impl PolicyResolver {
    /// The policy used where no override matches.
    pub closed spec fn fallback(&self) -> OverlapPolicy {
        self.default_policy
    }

    /// The configured overrides.
    pub closed spec fn overrides(&self) -> Seq<HostPolicy> {
        self.entries@
    }

    /// Build a resolver from the configured default and overrides.
    pub fn new(default_policy: OverlapPolicy, overrides: &[HostPolicy]) -> (resolver: Self)
        ensures
            resolver.fallback() == default_policy,
            resolver.overrides() == overrides@,
    {
        Self { default_policy, entries: vstd::slice::slice_to_vec(overrides) }
    }

    /// Build a resolver from a config section.
    pub fn from_config(config: &ReassemblyConfig) -> (resolver: Self)
        ensures
            resolver.fallback() == config.overlap_policy,
            resolver.overrides() == config.host_policies@,
    {
        Self::new(config.overlap_policy, config.host_policies.as_slice())
    }

    /// The policy for data destined for `address`.
    pub fn for_destination(&self, address: IpAddr) -> (policy: OverlapPolicy)
        ensures
            policy == resolved_policy(self.fallback(), self.overrides(), address),
    {
        let mut policy = self.default_policy;
        let mut longest: Option<u8> = None;
        let ghost all = self.entries@;
        let mut i: usize = 0;
        while i < self.entries.len()
            invariant
                i <= all.len(),
                all == self.entries@,
                longest is Some <==> deciding(all.take(i as int), address) is Some,
                deciding(all.take(i as int), address) matches Some(k) ==> 0 <= k < i && longest->0
                    == all[k].network.prefix() && policy == all[k].policy,
                longest is None ==> policy == self.default_policy,
            decreases all.len() - i,
        {
            assert(all.take(i + 1).drop_last() =~= all.take(i as int));
            assert(all.take(i + 1).last() == all[i as int]);
            assert(deciding(all.take(i as int), address) matches Some(k) ==> all.take(i + 1)[k]
                == all[k]);
            let entry = self.entries[i];
            if entry.network.contains(address) {
                let better = match longest {
                    Some(prefix) => entry.network.prefix_len() > prefix,
                    None => true,
                };
                if better {
                    longest = Some(entry.network.prefix_len());
                    policy = entry.policy;
                }
            }
            i = i + 1;
        }
        assert(all.take(i as int) =~= all);
        policy
    }

    /// The policy used where no override matches.
    pub fn default_policy(&self) -> (policy: OverlapPolicy)
        ensures
            policy == self.fallback(),
    {
        self.default_policy
    }

    /// How many overrides are configured.
    pub fn override_count(&self) -> (count: usize)
        ensures
            count == self.overrides().len(),
    {
        self.entries.len()
    }
}

/// Where no override covers an address, the default decides; where one does, it is an
/// override that covers it.
pub proof fn law_the_default_is_for_the_rest(
    default_policy: OverlapPolicy,
    overrides: Seq<HostPolicy>,
    address: IpAddr,
)
    ensures
        (forall|i: int|
            0 <= i < overrides.len() ==> !(#[trigger] overrides[i]).network.covers(address))
            ==> resolved_policy(default_policy, overrides, address) == default_policy,
        forall|i: int|
            0 <= i < overrides.len() && (#[trigger] overrides[i]).network.covers(address) && (
            forall|j: int|
                0 <= j < overrides.len() && j != i && (#[trigger] overrides[j]).network.covers(
                    address,
                ) ==> overrides[j].network.prefix() < overrides[i].network.prefix())
                ==> resolved_policy(default_policy, overrides, address) == overrides[i].policy,
{
    law_the_longest_prefix_wins(overrides, address);
}

} // verus!
