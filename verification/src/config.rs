//! Configuration sections, as plain values.

use vstd::prelude::*;
use crate::net::IpNetwork;
use crate::reassembly::OverlapPolicy;

verus! {

/// An overlap policy for the hosts of one network.
#[derive(Debug, Clone, Copy, PartialEq, Eq, Structural)]
pub struct HostPolicy {
    /// The hosts it covers.
    pub network: IpNetwork,
    /// How they resolve overlaps.
    pub policy: OverlapPolicy,
}

/// Reassembly limits and policies.
#[derive(Debug, Clone)]
pub struct ReassemblyConfig {
    /// The overlap policy of hosts no override covers.
    pub overlap_policy: OverlapPolicy,
    /// Overlap policies by network.
    pub host_policies: Vec<HostPolicy>,
    /// Most bytes buffered per flow direction.
    pub max_stream_bytes_per_flow: usize,
    /// Most bytes buffered across all flows.
    pub max_stream_bytes_total: usize,
    /// Contiguous bytes that are delivered without an acknowledgement.
    pub delivery_flush_bytes: usize,
    /// Most datagrams part-assembled at once.
    pub max_fragment_sets: usize,
    /// Most bytes held across part-assembled datagrams.
    pub max_fragment_bytes_total: usize,
    /// Seconds after which an incomplete datagram is dropped.
    pub fragment_timeout_secs: u64,
}

impl Default for ReassemblyConfig {
    fn default() -> (config: Self)
        ensures
            config.overlap_policy == OverlapPolicy::First,
            config.host_policies@ == Seq::<HostPolicy>::empty(),
            config.max_stream_bytes_per_flow == 1_048_576,
            config.max_stream_bytes_total == 536_870_912,
            config.delivery_flush_bytes == 65_536,
            config.max_fragment_sets == 4_096,
            config.max_fragment_bytes_total == 67_108_864,
            config.fragment_timeout_secs == 60,
    {
        Self {
            overlap_policy: OverlapPolicy::First,
            host_policies: Vec::new(),
            max_stream_bytes_per_flow: 1_048_576,
            max_stream_bytes_total: 536_870_912,
            delivery_flush_bytes: 65_536,
            max_fragment_sets: 4_096,
            max_fragment_bytes_total: 67_108_864,
            fragment_timeout_secs: 60,
        }
    }
}

impl ReassemblyConfig {
    /// The byte cap of a flow direction, never below one.
    pub open spec fn byte_limit(&self) -> int {
        if self.max_stream_bytes_per_flow == 0 {
            1
        } else {
            self.max_stream_bytes_per_flow as int
        }
    }

    /// The flush threshold, kept between one and the byte cap.
    pub open spec fn flush_limit(&self) -> int {
        if self.delivery_flush_bytes == 0 {
            1
        } else if self.delivery_flush_bytes > self.byte_limit() {
            self.byte_limit()
        } else {
            self.delivery_flush_bytes as int
        }
    }
}

/// Limits are what is configured, kept to where they make sense: a byte cap of at least
/// one, and a flush threshold between one and the cap.
pub proof fn law_limits_are_kept_in_range(config: ReassemblyConfig)
    ensures
        1 <= config.flush_limit() <= config.byte_limit(),
        config.max_stream_bytes_per_flow >= 1 ==> config.byte_limit()
            == config.max_stream_bytes_per_flow,
        config.max_stream_bytes_per_flow == 0 ==> config.byte_limit() == 1,
        1 <= config.delivery_flush_bytes <= config.max_stream_bytes_per_flow
            ==> config.flush_limit() == config.delivery_flush_bytes,
        config.delivery_flush_bytes > config.max_stream_bytes_per_flow ==> config.flush_limit()
            == config.byte_limit(),
        config.delivery_flush_bytes == 0 ==> config.flush_limit() == 1,
{
}

} // verus!
