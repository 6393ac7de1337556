//! IP defragmentation, TCP stream reassembly, and normalization.
//!
//! Two properties decide whether the whole sensor works:
//!
//! * **Normalize before matching, with a target-based overlap policy.** An
//!   attacker who can make the sensor and the destination host disagree about
//!   what the byte stream contains can walk past every rule silently.
//! * **Bounded state.** Per-flow and global caps plus timeouts, so an attacker
//!   cannot exhaust memory by opening flows or sending fragments that never
//!   complete.

use vstd::prelude::*;
use crate::time::Duration;

pub mod defrag;
pub mod flags;
pub mod flow;
pub mod normalize;
pub mod policy;
pub mod range_buffer;
pub mod stream;

verus! {

/// How to resolve overlapping TCP segments or IP fragments that disagree.
///
/// The correct choice depends on the *destination* operating system, which is
/// why this is per-target policy rather than a global switch.
#[derive(Debug, Clone, Copy, PartialEq, Eq, Structural)]
#[non_exhaustive]
pub enum OverlapPolicy {
    /// First data received wins (Linux, most BSDs).
    First,
    /// Last data received wins (older Windows).
    Last,
}

impl Default for OverlapPolicy {
    fn default() -> (policy: Self)
        ensures
            policy == OverlapPolicy::First,
    {
        OverlapPolicy::First
    }
}

/// Hard caps on reassembly state.
#[derive(Debug, Clone, Copy, PartialEq, Eq, Structural)]
pub struct Limits {
    /// Maximum concurrently tracked flows.
    pub max_flows: usize,
    /// Maximum buffered bytes per flow direction.
    pub max_bytes_per_flow: usize,
    /// Maximum buffered bytes across all flows.
    pub max_bytes_total: usize,
    /// Maximum concurrent in-progress IP fragment reassemblies.
    pub max_fragment_sets: usize,
    /// Idle time after which a flow is evicted.
    pub flow_timeout: Duration,
    /// Time after which an incomplete fragment set is discarded.
    pub fragment_timeout: Duration,
}

impl Default for Limits {
    fn default() -> (limits: Self)
        ensures
            limits.max_flows == 65_536,
            limits.max_bytes_per_flow == 1_048_576,
            limits.max_bytes_total == 536_870_912,
            limits.max_fragment_sets == 4_096,
            limits.flow_timeout.nanos == 300_000_000_000,
            limits.fragment_timeout.nanos == 60_000_000_000,
    {
        Self {
            max_flows: 65_536,
            max_bytes_per_flow: 1_048_576,
            max_bytes_total: 536_870_912,
            max_fragment_sets: 4_096,
            flow_timeout: Duration::from_secs(300),
            fragment_timeout: Duration::from_secs(60),
        }
    }
}

} // verus!
