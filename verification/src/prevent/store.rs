//! The verdict store and the per-packet decision.
//!
//! Everything here is pure: no sockets, no kernel, no clock of its own. The
//! decision that drops somebody's traffic is a function of what was recorded and
//! of the time it is given.

use vstd::prelude::*;
use crate::net::{
    endpoint_at_most, endpoint_le, law_endpoints_are_in_one_order, lemma_endpoint_order, Endpoint,
    IpAddr, IpNetwork, NetTuple,
};
use crate::text::owned;
use crate::time::{Duration, Timestamp};
use super::depth::QueueDepth;
use super::table::{after, Ranked, Table};

verus! {

/// Most flows carrying a block verdict at once.
pub const DEFAULT_MAX_BLOCKED_FLOWS: usize = 65_536;

/// Most sources blocked at once.
pub const DEFAULT_MAX_BLOCKED_SOURCES: usize = 16_384;

/// How long a source stays blocked by default, in seconds.
pub const DEFAULT_SOURCE_BLOCK_SECS: u64 = 600;

/// A verdict that takes longer than this many microseconds is slow.
pub const SLOW_MICROS: u64 = 1_000;

/// A verdict that takes longer than this many microseconds is far too slow.
pub const VERY_SLOW_MICROS: u64 = 10_000;

/// Whether the sensor is allowed to drop anything.
#[derive(Debug, Clone, Copy, PartialEq, Eq, Structural)]
pub enum Mode {
    /// Alert only. The verdict path returns `Accept` for everything, whatever
    /// the rules say. **The default, and the kill switch.**
    Detect,
    /// Enforce block verdicts.
    Prevent,
}

impl Default for Mode {
    fn default() -> (mode: Self)
        ensures
            mode == Mode::Detect,
    {
        Mode::Detect
    }
}

impl Mode {
    /// The wire string.
    pub open spec fn name(self) -> Seq<char> {
        match self {
            Mode::Detect => "detect"@,
            Mode::Prevent => "prevent"@,
        }
    }

    /// The wire string.
    pub fn as_str(self) -> (name: &'static str)
        ensures
            name@ == self.name(),
    {
        match self {
            Mode::Detect => "detect",
            Mode::Prevent => "prevent",
        }
    }
}

/// What happens to traffic when the sensor cannot answer.
///
/// Enforced by the **kernel**, through the queueing rule: if the process is dead,
/// none of this code runs. See [`super::nft::queue_rule`].
#[derive(Debug, Clone, Copy, PartialEq, Eq, Structural)]
pub enum FailMode {
    /// Traffic passes if the sensor is not there to judge it. Availability
    /// first, and the default: an IPS that takes the network down when it
    /// crashes has caused the outage it was bought to prevent.
    Open,
    /// Traffic stops if the sensor is not there to judge it. For deployments
    /// where unfiltered traffic is worse than no traffic.
    Closed,
}

impl Default for FailMode {
    fn default() -> (mode: Self)
        ensures
            mode == FailMode::Open,
    {
        FailMode::Open
    }
}

impl FailMode {
    /// The wire string.
    pub open spec fn name(self) -> Seq<char> {
        match self {
            FailMode::Open => "open"@,
            FailMode::Closed => "closed"@,
        }
    }

    /// The wire string.
    pub fn as_str(self) -> (name: &'static str)
        ensures
            name@ == self.name(),
    {
        match self {
            FailMode::Open => "open",
            FailMode::Closed => "closed",
        }
    }
}

/// What the verdict path decided.
#[derive(Debug, Clone, Copy, PartialEq, Eq, Structural)]
pub enum Decision {
    /// Let it through.
    Accept,
    /// Drop it, for this reason.
    Drop(DropReason),
}

impl Decision {
    /// Whether this decision drops the packet.
    pub fn is_drop(self) -> (drops: bool)
        ensures
            drops == (self is Drop),
    {
        match self {
            Decision::Accept => false,
            Decision::Drop(_) => true,
        }
    }
}

/// Why a packet was dropped. Carried so an operator can tell "this flow was
/// already condemned" from "this whole source is blocked".
#[derive(Debug, Clone, Copy, PartialEq, Eq, Structural)]
pub enum DropReason {
    /// A rule matched this flow earlier and asked for it to be blocked.
    FlowVerdict,
    /// The source is in the block set.
    BlockedSource,
}

impl DropReason {
    /// The wire string.
    pub open spec fn name(self) -> Seq<char> {
        match self {
            DropReason::FlowVerdict => "flow_verdict"@,
            DropReason::BlockedSource => "blocked_source"@,
        }
    }

    /// The wire string.
    pub fn as_str(self) -> (name: &'static str)
        ensures
            name@ == self.name(),
    {
        match self {
            DropReason::FlowVerdict => "flow_verdict",
            DropReason::BlockedSource => "blocked_source",
        }
    }
}

/// What came of asking for something to be blocked.
#[derive(Debug, Clone, Copy, PartialEq, Eq, Structural)]
pub enum BlockOutcome {
    /// The verdict was recorded and will be enforced.
    Blocked {
        /// The source now in the block set, if one was added.
        source: Option<IpAddr>,
    },
    /// The sensor is in detect mode. Nothing was recorded; the alert says
    /// `alerted`.
    NotArmed,
    /// An endpoint is on the allow-list. **Deliberately still an alert**: the
    /// detection was real and must be reported; only the enforcement is
    /// withheld.
    AllowListed {
        /// Which address matched the allow-list.
        address: IpAddr,
    },
    /// A bound was reached. A block that could not be recorded is a coverage
    /// hole, not a tuning statistic.
    Full,
}

/// Tuning.
#[derive(Debug, Clone)]
pub struct PreventionSettings {
    /// Whether the sensor may drop anything.
    pub mode: Mode,
    /// What the kernel does when the sensor is not answering.
    pub fail_mode: FailMode,
    /// Addresses and networks that must never be blocked, whatever matches.
    pub allow_list: Vec<IpNetwork>,
    /// How long a blocked source stays blocked.
    pub source_block: Duration,
    /// Most flows carrying a block verdict.
    pub max_blocked_flows: usize,
    /// Most sources blocked at once.
    pub max_blocked_sources: usize,
}

impl Default for PreventionSettings {
    fn default() -> (settings: Self)
        ensures
            settings.mode == Mode::Detect,
            settings.fail_mode == FailMode::Open,
            settings.allow_list@.len() == 0,
            settings.source_block.nanos == DEFAULT_SOURCE_BLOCK_SECS * crate::time::NANOS_PER_SEC,
            settings.max_blocked_flows == DEFAULT_MAX_BLOCKED_FLOWS,
            settings.max_blocked_sources == DEFAULT_MAX_BLOCKED_SOURCES,
    {
        Self {
            mode: Mode::Detect,
            fail_mode: FailMode::Open,
            allow_list: Vec::new(),
            source_block: Duration::from_secs(DEFAULT_SOURCE_BLOCK_SECS),
            max_blocked_flows: DEFAULT_MAX_BLOCKED_FLOWS,
            max_blocked_sources: DEFAULT_MAX_BLOCKED_SOURCES,
        }
    }
}

/// A conversation, as the verdict path identifies one.
///
/// **Not the detection path's flow id.** That id mixes in the flow's start time,
/// so it cannot be recomputed from a packet in isolation: the verdict path would
/// have to consult the flow table for every packet, on the one code path that must
/// not depend on anything it does not already hold.
///
/// The endpoints are ordered, so both directions of a conversation produce the
/// same key. Condemning a flow should stop the replies too.
#[derive(Debug, Clone, Copy, PartialEq, Eq, Hash, PartialOrd, Ord)]
pub struct FlowKey {
    /// The protocol, as a number.
    pub protocol: u8,
    /// The endpoint that sorts first.
    pub lower: Endpoint,
    /// The endpoint that sorts last.
    pub upper: Endpoint,
}

impl FlowKey {
    /// The key for a 5-tuple, in whichever direction it was seen.
    pub open spec fn of(tuple: NetTuple) -> FlowKey {
        if endpoint_at_most(tuple.source(), tuple.destination()) {
            FlowKey {
                protocol: tuple.proto.rank(),
                lower: tuple.source(),
                upper: tuple.destination(),
            }
        } else {
            FlowKey {
                protocol: tuple.proto.rank(),
                lower: tuple.destination(),
                upper: tuple.source(),
            }
        }
    }

    /// The key for a 5-tuple, in whichever direction it was seen.
    pub fn from_tuple(tuple: &NetTuple) -> (key: Self)
        ensures
            key == FlowKey::of(*tuple),
    {
        let first = (
            tuple.src_ip,
            match tuple.src_port {
                Some(port) => port,
                None => 0,
            },
        );
        let second = (
            tuple.dest_ip,
            match tuple.dest_port {
                Some(port) => port,
                None => 0,
            },
        );
        if endpoint_le(&first, &second) {
            Self { protocol: tuple.proto.number(), lower: first, upper: second }
        } else {
            Self { protocol: tuple.proto.number(), lower: second, upper: first }
        }
    }
}

impl Ranked for FlowKey {
    open spec fn below(self, other: Self) -> bool {
        ||| self.protocol < other.protocol
        ||| self.protocol == other.protocol && self.lower != other.lower && endpoint_at_most(
            self.lower,
            other.lower,
        )
        ||| self.protocol == other.protocol && self.lower == other.lower && self.upper
            != other.upper && endpoint_at_most(self.upper, other.upper)
    }

    proof fn lemma_order(a: Self, b: Self, c: Self) {
    }

    fn is_below(&self, other: &Self) -> (below: bool) {
        if self.protocol != other.protocol {
            self.protocol < other.protocol
        } else if !crate::net::same_endpoint(&self.lower, &other.lower) {
            endpoint_le(&self.lower, &other.lower)
        } else {
            !crate::net::same_endpoint(&self.upper, &other.upper) && endpoint_le(
                &self.upper,
                &other.upper,
            )
        }
    }
}

impl Ranked for IpAddr {
    open spec fn below(self, other: Self) -> bool {
        self.sorts_before(other)
    }

    proof fn lemma_order(a: Self, b: Self, c: Self) {
    }

    fn is_below(&self, other: &Self) -> (below: bool) {
        self.is_before(other)
    }
}

/// What the verdict store did, in numbers.
#[derive(Debug, Clone, Copy, PartialEq, Eq, Structural)]
pub struct PreventCounters {
    /// Packets judged.
    pub packets_judged: u64,
    /// Packets dropped.
    pub packets_dropped: u64,
    /// Packets passed because an endpoint is on the allow-list.
    pub allow_listed_passes: u64,
    /// Blocks refused because an endpoint is on the allow-list.
    pub allow_listed_blocks_refused: u64,
    /// Blocks that could not be recorded because a bound was reached.
    pub blocks_dropped_at_capacity: u64,
    /// Flow verdicts recorded.
    pub flows_blocked: u64,
    /// Sources added to the block set.
    pub sources_blocked: u64,
    /// Flow verdicts that lapsed.
    pub flow_verdicts_expired: u64,
    /// Source blocks that lapsed.
    pub source_blocks_expired: u64,
    /// All verdict latencies together, in microseconds.
    pub verdict_latency_us_total: u64,
    /// The longest verdict latency, in microseconds.
    pub verdict_latency_us_max: u64,
    /// Verdicts that took more than a millisecond.
    pub verdict_latency_over_1ms: u64,
    /// Verdicts that took more than ten milliseconds.
    pub verdict_latency_over_10ms: u64,
    /// Packets the kernel held when it was last asked.
    pub queue_depth: u64,
    /// The most packets the kernel held whenever it was asked.
    pub queue_depth_max: u64,
    /// Packets that never reached a verdict.
    pub queue_unjudged: u64,
    /// Packets the kernel applied the fail mode to.
    pub fail_mode_packets: u64,
}

impl PreventCounters {
    /// Nothing done yet.
    pub open spec fn zero() -> PreventCounters {
        PreventCounters {
            packets_judged: 0,
            packets_dropped: 0,
            allow_listed_passes: 0,
            allow_listed_blocks_refused: 0,
            blocks_dropped_at_capacity: 0,
            flows_blocked: 0,
            sources_blocked: 0,
            flow_verdicts_expired: 0,
            source_blocks_expired: 0,
            verdict_latency_us_total: 0,
            verdict_latency_us_max: 0,
            verdict_latency_over_1ms: 0,
            verdict_latency_over_10ms: 0,
            queue_depth: 0,
            queue_depth_max: 0,
            queue_unjudged: 0,
            fail_mode_packets: 0,
        }
    }

    /// Whether what a judgement counts can go up by one.
    pub open spec fn can_judge(self) -> bool {
        &&& self.packets_judged < u64::MAX
        &&& self.packets_dropped < u64::MAX
        &&& self.allow_listed_passes < u64::MAX
        &&& self.source_blocks_expired < u64::MAX
    }

    /// Whether what a block counts can go up by one.
    pub open spec fn can_block(self) -> bool {
        &&& self.allow_listed_blocks_refused < u64::MAX
        &&& self.blocks_dropped_at_capacity < u64::MAX
        &&& self.flows_blocked < u64::MAX
        &&& self.sources_blocked < u64::MAX
    }

    /// Whether what is counted one by one can go up by so much.
    pub open spec fn has_room(self, more: int) -> bool {
        &&& self.packets_judged + more <= u64::MAX
        &&& self.packets_dropped + more <= u64::MAX
        &&& self.allow_listed_passes + more <= u64::MAX
        &&& self.allow_listed_blocks_refused + more <= u64::MAX
        &&& self.blocks_dropped_at_capacity + more <= u64::MAX
        &&& self.flows_blocked + more <= u64::MAX
        &&& self.sources_blocked + more <= u64::MAX
        &&& self.flow_verdicts_expired + more <= u64::MAX
        &&& self.source_blocks_expired + more <= u64::MAX
        &&& self.verdict_latency_over_1ms + more <= u64::MAX
        &&& self.verdict_latency_over_10ms + more <= u64::MAX
    }
}

impl PreventCounters {
    /// Whether each of what is counted one by one is at most so much above what it
    /// was.
    pub open spec fn at_most(self, before: PreventCounters, more: int) -> bool {
        &&& self.packets_judged <= before.packets_judged + more
        &&& self.packets_dropped <= before.packets_dropped + more
        &&& self.allow_listed_passes <= before.allow_listed_passes + more
        &&& self.allow_listed_blocks_refused <= before.allow_listed_blocks_refused + more
        &&& self.blocks_dropped_at_capacity <= before.blocks_dropped_at_capacity + more
        &&& self.flows_blocked <= before.flows_blocked + more
        &&& self.sources_blocked <= before.sources_blocked + more
        &&& self.flow_verdicts_expired <= before.flow_verdicts_expired + more
        &&& self.source_blocks_expired <= before.source_blocks_expired + more
        &&& self.verdict_latency_over_1ms <= before.verdict_latency_over_1ms + more
        &&& self.verdict_latency_over_10ms <= before.verdict_latency_over_10ms + more
    }
}

impl Default for PreventCounters {
    fn default() -> (counters: Self)
        ensures
            counters == PreventCounters::zero(),
    {
        PreventCounters {
            packets_judged: 0,
            packets_dropped: 0,
            allow_listed_passes: 0,
            allow_listed_blocks_refused: 0,
            blocks_dropped_at_capacity: 0,
            flows_blocked: 0,
            sources_blocked: 0,
            flow_verdicts_expired: 0,
            source_blocks_expired: 0,
            verdict_latency_us_total: 0,
            verdict_latency_us_max: 0,
            verdict_latency_over_1ms: 0,
            verdict_latency_over_10ms: 0,
            queue_depth: 0,
            queue_depth_max: 0,
            queue_unjudged: 0,
            fail_mode_packets: 0,
        }
    }
}

/// What the verdict store reports of itself.
#[derive(Debug, Clone)]
pub struct PreventStats {
    /// Whether prevention is configured at all.
    pub enabled: bool,
    /// The mode, as its wire string.
    pub mode: String,
    /// The fail mode, as its wire string.
    pub fail_mode: String,
    /// Flow verdicts held now.
    pub blocked_flows_active: u64,
    /// Sources blocked now.
    pub blocked_sources_active: u64,
    /// What was done so far.
    pub counters: PreventCounters,
}

/// Whether one of some networks covers an address.
pub open spec fn any_covers(networks: Seq<IpNetwork>, address: IpAddr) -> bool {
    exists|i: int| 0 <= i < networks.len() && (#[trigger] networks[i]).covers(address)
}

/// What the verdict store knows.
pub struct PreventionModel {
    /// Whether anything may be dropped.
    pub mode: Mode,
    /// What the kernel does when nobody answers.
    pub fail_mode: FailMode,
    /// What must never be blocked.
    pub allow_list: Seq<IpNetwork>,
    /// How long a verdict lasts.
    pub source_block: Duration,
    /// Most flow verdicts.
    pub max_blocked_flows: nat,
    /// Most blocked sources.
    pub max_blocked_sources: nat,
    /// The condemned conversations, with when they were condemned.
    pub flows: Map<FlowKey, Timestamp>,
    /// The blocked sources, with when the block lapses.
    pub sources: Map<IpAddr, Timestamp>,
    /// What was done so far.
    pub counters: PreventCounters,
}

impl PreventionModel {
    /// Whether anything may be dropped.
    pub open spec fn armed(self) -> bool {
        self.mode == Mode::Prevent
    }

    /// Whether an address must never be blocked.
    pub open spec fn allows(self, address: IpAddr) -> bool {
        any_covers(self.allow_list, address)
    }

    /// Whether an endpoint of a packet must never be blocked.
    pub open spec fn protects(self, tuple: NetTuple) -> bool {
        self.allows(tuple.src_ip) || self.allows(tuple.dest_ip)
    }

    /// Whether a bound is reached.
    pub open spec fn full(self) -> bool {
        self.flows.dom().len() >= self.max_blocked_flows || self.sources.dom().len()
            >= self.max_blocked_sources
    }

    /// What is decided of a packet. The order of the checks is the whole safety
    /// argument: the kill switch, the allow-list for both endpoints, the verdict
    /// on the flow, the block of the source, and by default accept.
    pub open spec fn verdict(self, tuple: NetTuple, now: Timestamp) -> Decision {
        if !self.armed() || self.protects(tuple) {
            Decision::Accept
        } else if self.flows.contains_key(FlowKey::of(tuple)) {
            Decision::Drop(DropReason::FlowVerdict)
        } else if self.sources.contains_key(tuple.src_ip) && now.nanos
            < self.sources[tuple.src_ip].nanos {
            Decision::Drop(DropReason::BlockedSource)
        } else {
            Decision::Accept
        }
    }

    /// The store after a decision: the packet is counted, and a source block that
    /// the packet shows to have lapsed is forgotten.
    pub open spec fn judged(self, tuple: NetTuple, now: Timestamp) -> PreventionModel {
        let counters = PreventCounters {
            packets_judged: (self.counters.packets_judged + 1) as u64,
            ..self.counters
        };
        if !self.armed() {
            PreventionModel { counters, ..self }
        } else if self.protects(tuple) {
            PreventionModel {
                counters: PreventCounters {
                    allow_listed_passes: (counters.allow_listed_passes + 1) as u64,
                    ..counters
                },
                ..self
            }
        } else if self.verdict(tuple, now) is Drop {
            PreventionModel {
                counters: PreventCounters {
                    packets_dropped: (counters.packets_dropped + 1) as u64,
                    ..counters
                },
                ..self
            }
        } else if self.sources.contains_key(tuple.src_ip) {
            PreventionModel {
                sources: self.sources.remove(tuple.src_ip),
                counters: PreventCounters {
                    source_blocks_expired: (counters.source_blocks_expired + 1) as u64,
                    ..counters
                },
                ..self
            }
        } else {
            PreventionModel { counters, ..self }
        }
    }

    /// What comes of a request to block.
    pub open spec fn answer(self, tuple: NetTuple) -> BlockOutcome {
        if !self.armed() {
            BlockOutcome::NotArmed
        } else if self.allows(tuple.src_ip) {
            BlockOutcome::AllowListed { address: tuple.src_ip }
        } else if self.allows(tuple.dest_ip) {
            BlockOutcome::AllowListed { address: tuple.dest_ip }
        } else if self.full() {
            BlockOutcome::Full
        } else {
            BlockOutcome::Blocked { source: Some(tuple.src_ip) }
        }
    }

    /// The store after a request to block.
    pub open spec fn blocking(self, tuple: NetTuple, now: Timestamp) -> PreventionModel {
        match self.answer(tuple) {
            BlockOutcome::NotArmed => self,
            BlockOutcome::AllowListed { address: _ } => PreventionModel {
                counters: PreventCounters {
                    allow_listed_blocks_refused: (self.counters.allow_listed_blocks_refused + 1)
                        as u64,
                    ..self.counters
                },
                ..self
            },
            BlockOutcome::Full => PreventionModel {
                counters: PreventCounters {
                    blocks_dropped_at_capacity: (self.counters.blocks_dropped_at_capacity + 1)
                        as u64,
                    ..self.counters
                },
                ..self
            },
            BlockOutcome::Blocked { source: _ } => PreventionModel {
                flows: self.flows.insert(FlowKey::of(tuple), now),
                sources: self.sources.insert(tuple.src_ip, now.later(self.source_block)),
                counters: PreventCounters {
                    flows_blocked: (self.counters.flows_blocked + 1) as u64,
                    sources_blocked: if self.sources.contains_key(tuple.src_ip) {
                        self.counters.sources_blocked
                    } else {
                        (self.counters.sources_blocked + 1) as u64
                    },
                    ..self.counters
                },
                ..self
            },
        }
    }

    /// Whether a flow verdict has not lapsed. It is held for as long as a source
    /// block.
    pub open spec fn still_held(self, at: Timestamp, now: Timestamp) -> bool {
        (if at.nanos <= now.nanos {
            now.nanos - at.nanos
        } else {
            0
        }) < self.source_block.nanos
    }

    /// The flow verdicts that have not lapsed.
    pub open spec fn flows_held(self, now: Timestamp) -> Map<FlowKey, Timestamp> {
        Map::new(
            |key: FlowKey| self.flows.contains_key(key) && self.still_held(self.flows[key], now),
            |key: FlowKey| self.flows[key],
        )
    }

    /// The source blocks that have not lapsed.
    pub open spec fn sources_held(self, now: Timestamp) -> Map<IpAddr, Timestamp> {
        Map::new(
            |source: IpAddr|
                self.sources.contains_key(source) && now.nanos < self.sources[source].nanos,
            |source: IpAddr| self.sources[source],
        )
    }

    /// The store without what has lapsed.
    pub open spec fn expired(self, now: Timestamp) -> PreventionModel {
        PreventionModel {
            flows: self.flows_held(now),
            sources: self.sources_held(now),
            counters: PreventCounters {
                flow_verdicts_expired: (self.counters.flow_verdicts_expired
                    + self.flows.dom().len() - self.flows_held(now).dom().len()) as u64,
                source_blocks_expired: (self.counters.source_blocks_expired
                    + self.sources.dom().len() - self.sources_held(now).dom().len()) as u64,
                ..self.counters
            },
            ..self
        }
    }

    /// The store with a latency counted. The sum stays at its largest value
    /// rather than wrap.
    pub open spec fn timed(self, micros: u64) -> PreventionModel {
        let c = self.counters;
        PreventionModel {
            counters: PreventCounters {
                verdict_latency_us_total: if c.verdict_latency_us_total + micros <= u64::MAX {
                    (c.verdict_latency_us_total + micros) as u64
                } else {
                    u64::MAX
                },
                verdict_latency_us_max: if c.verdict_latency_us_max < micros {
                    micros
                } else {
                    c.verdict_latency_us_max
                },
                verdict_latency_over_1ms: if micros > SLOW_MICROS {
                    (c.verdict_latency_over_1ms + 1) as u64
                } else {
                    c.verdict_latency_over_1ms
                },
                verdict_latency_over_10ms: if micros > VERY_SLOW_MICROS {
                    (c.verdict_latency_over_10ms + 1) as u64
                } else {
                    c.verdict_latency_over_10ms
                },
                ..c
            },
            ..self
        }
    }
}

/// The verdict store: what to do with a packet, decided from state that already
/// exists.
#[derive(Debug)]
pub struct Prevention {
    settings: PreventionSettings,
    /// Conversations a rule has condemned.
    flows: Table<FlowKey>,
    /// Sources in the block set, with when the block lapses.
    sources: Table<IpAddr>,
    counters: PreventCounters,
}

impl View for Prevention {
    type V = PreventionModel;

    closed spec fn view(&self) -> PreventionModel {
        PreventionModel {
            mode: self.settings.mode,
            fail_mode: self.settings.fail_mode,
            allow_list: self.settings.allow_list@,
            source_block: self.settings.source_block,
            max_blocked_flows: self.settings.max_blocked_flows as nat,
            max_blocked_sources: self.settings.max_blocked_sources as nat,
            flows: self.flows@,
            sources: self.sources@,
            counters: self.counters,
        }
    }
}

impl Prevention {
    /// The tables are in order.
    pub closed spec fn well_formed(&self) -> bool {
        self.flows.well_formed() && self.sources.well_formed()
    }

    /// Build a store.
    pub fn new(settings: PreventionSettings) -> (prevention: Self)
        ensures
            prevention.well_formed(),
            prevention@ == (PreventionModel {
                mode: settings.mode,
                fail_mode: settings.fail_mode,
                allow_list: settings.allow_list@,
                source_block: settings.source_block,
                max_blocked_flows: settings.max_blocked_flows as nat,
                max_blocked_sources: settings.max_blocked_sources as nat,
                flows: Map::empty(),
                sources: Map::empty(),
                counters: PreventCounters::zero(),
            }),
    {
        Self {
            settings,
            flows: Table::new(),
            sources: Table::new(),
            counters: PreventCounters::default(),
        }
    }

    /// Whether the sensor may drop anything.
    pub fn armed(&self) -> (armed: bool)
        ensures
            armed == self@.armed(),
    {
        self.settings.mode == Mode::Prevent
    }

    /// How long a source block lasts, for the kernel-side set.
    pub fn source_block_timeout(&self) -> (timeout: Duration)
        ensures
            timeout == self@.source_block,
    {
        self.settings.source_block
    }

    /// The configured fail mode.
    pub fn fail_mode(&self) -> (mode: FailMode)
        ensures
            mode == self@.fail_mode,
    {
        self.settings.fail_mode
    }

    /// Arm or disarm at runtime. **The kill switch.**
    ///
    /// Disarming takes effect on the very next packet. Existing verdicts are kept
    /// rather than discarded, since re-arming should not require re-detecting
    /// everything, but they stop being enforced immediately.
    pub fn set_mode(&mut self, mode: Mode)
        requires
            old(self).well_formed(),
        ensures
            final(self).well_formed(),
            final(self)@ == (PreventionModel { mode, ..old(self)@ }),
    {
        self.settings.mode = mode;
    }

    /// Whether everything that is counted one by one can go up once more.
    pub fn can_count(&self) -> (room: bool)
        ensures
            room == self@.counters.has_room(1),
    {
        let c = self.counters;
        c.packets_judged < u64::MAX && c.packets_dropped < u64::MAX && c.allow_listed_passes
            < u64::MAX && c.allow_listed_blocks_refused < u64::MAX && c.blocks_dropped_at_capacity
            < u64::MAX && c.flows_blocked < u64::MAX && c.sources_blocked < u64::MAX
            && c.flow_verdicts_expired < u64::MAX && c.source_blocks_expired < u64::MAX
            && c.verdict_latency_over_1ms < u64::MAX && c.verdict_latency_over_10ms < u64::MAX
    }

    /// Whether an address is on the allow-list.
    pub fn is_allow_listed(&self, address: IpAddr) -> (listed: bool)
        ensures
            listed == self@.allows(address),
    {
        let mut i: usize = 0;
        while i < self.settings.allow_list.len()
            invariant
                i <= self.settings.allow_list@.len(),
                forall|j: int|
                    0 <= j < i ==> !(#[trigger] self.settings.allow_list@[j]).covers(address),
            decreases self.settings.allow_list@.len() - i,
        {
            if self.settings.allow_list[i].contains(address) {
                assert(self@.allow_list[i as int].covers(address));
                return true;
            }
            i = i + 1;
        }
        false
    }

    /// Decide what to do with one packet. **Never blocks, never allocates.**
    pub fn decide(&mut self, tuple: &NetTuple, now: Timestamp) -> (decision: Decision)
        requires
            old(self).well_formed(),
            old(self)@.counters.can_judge(),
        ensures
            final(self).well_formed(),
            decision == old(self)@.verdict(*tuple, now),
            final(self)@ == old(self)@.judged(*tuple, now),
    {
        self.counters.packets_judged = self.counters.packets_judged + 1;
        if !self.armed() {
            return Decision::Accept;
        }
        let protected = self.is_allow_listed(tuple.src_ip) || self.is_allow_listed(tuple.dest_ip);
        if protected {
            self.counters.allow_listed_passes = self.counters.allow_listed_passes + 1;
            return Decision::Accept;
        }
        let key = FlowKey::from_tuple(tuple);
        if self.flows.get(&key).is_some() {
            self.counters.packets_dropped = self.counters.packets_dropped + 1;
            return Decision::Drop(DropReason::FlowVerdict);
        }
        if let Some(until) = self.sources.get(&tuple.src_ip) {
            if now.nanos < until.nanos {
                self.counters.packets_dropped = self.counters.packets_dropped + 1;
                return Decision::Drop(DropReason::BlockedSource);
            }
            // Lapsed. Forget it here rather than sweeping: the packet that
            // notices is the cheapest place to clean up.
            self.sources.remove(&tuple.src_ip);
            self.counters.source_blocks_expired = self.counters.source_blocks_expired + 1;
        }
        Decision::Accept
    }

    /// Record that a flow, and its source, should be blocked.
    ///
    /// Called by the detection path when a rule with a block action matches.
    /// Returns what actually happened, because the alert has to say.
    pub fn block(&mut self, tuple: &NetTuple, now: Timestamp) -> (outcome: BlockOutcome)
        requires
            old(self).well_formed(),
            old(self)@.counters.can_block(),
        ensures
            final(self).well_formed(),
            outcome == old(self)@.answer(*tuple),
            final(self)@ == old(self)@.blocking(*tuple, now),
    {
        if !self.armed() {
            return BlockOutcome::NotArmed;
        }
        // The allow-list is checked here as well as when deciding, so an
        // allow-listed address never even enters the block set.
        if self.is_allow_listed(tuple.src_ip) {
            self.counters.allow_listed_blocks_refused = self.counters.allow_listed_blocks_refused
                + 1;
            return BlockOutcome::AllowListed { address: tuple.src_ip };
        }
        if self.is_allow_listed(tuple.dest_ip) {
            self.counters.allow_listed_blocks_refused = self.counters.allow_listed_blocks_refused
                + 1;
            return BlockOutcome::AllowListed { address: tuple.dest_ip };
        }
        let flows: usize = self.flows.len();
        let sources: usize = self.sources.len();
        if flows >= self.settings.max_blocked_flows || sources >= self.settings.max_blocked_sources {
            // Refusing to record is refusing to enforce. Counted as a hole.
            self.counters.blocks_dropped_at_capacity = self.counters.blocks_dropped_at_capacity + 1;
            return BlockOutcome::Full;
        }
        self.flows.insert(FlowKey::from_tuple(tuple), now);
        self.counters.flows_blocked = self.counters.flows_blocked + 1;
        let expiry = now.saturating_add(self.settings.source_block);
        let already = self.sources.insert(tuple.src_ip, expiry);
        if !already {
            self.counters.sources_blocked = self.counters.sources_blocked + 1;
        }
        BlockOutcome::Blocked { source: Some(tuple.src_ip) }
    }

    /// Forget verdicts that have lapsed.
    ///
    /// Flow verdicts are held for the source-block duration too: a flow whose
    /// source is no longer blocked has no reason to stay condemned, and nothing
    /// is held for ever.
    pub fn expire(&mut self, now: Timestamp)
        requires
            old(self).well_formed(),
            old(self)@.counters.flow_verdicts_expired + old(self)@.flows.dom().len() <= u64::MAX,
            old(self)@.counters.source_blocks_expired + old(self)@.sources.dom().len() <= u64::MAX,
        ensures
            final(self).well_formed(),
            final(self)@ == old(self)@.expired(now),
    {
        let ghost start = self@;
        let horizon: u128 = self.settings.source_block.nanos;
        let count: usize = self.flows.len();
        // What is older than the horizon goes; with none, everything does.
        let dropped: usize = if horizon == 0 {
            assert(after(self.flows@, Timestamp { nanos: u128::MAX }) =~= start.flows_held(now));
            self.flows.drop_up_to(Timestamp { nanos: u128::MAX })
        } else if horizon <= now.nanos {
            assert(after(self.flows@, Timestamp { nanos: (now.nanos - horizon) as u128 })
                =~= start.flows_held(now));
            self.flows.drop_up_to(Timestamp { nanos: now.nanos - horizon })
        } else {
            assert(self.flows@ =~= start.flows_held(now));
            0
        };
        self.counters.flow_verdicts_expired = self.counters.flow_verdicts_expired + dropped as u64;
        assert(after(self.sources@, now) =~= start.sources_held(now));
        let lapsed: usize = self.sources.drop_up_to(now);
        self.counters.source_blocks_expired = self.counters.source_blocks_expired + lapsed as u64;
    }

    /// Counters for `stats`.
    pub fn stats(&self) -> (stats: PreventStats)
        requires
            self.well_formed(),
        ensures
            stats.enabled,
            stats.mode@ == self@.mode.name(),
            stats.fail_mode@ == self@.fail_mode.name(),
            stats.blocked_flows_active == self@.flows.dom().len(),
            stats.blocked_sources_active == self@.sources.dom().len(),
            stats.counters == self@.counters,
    {
        PreventStats {
            enabled: true,
            mode: owned(self.settings.mode.as_str()),
            fail_mode: owned(self.settings.fail_mode.as_str()),
            blocked_flows_active: self.flows.len() as u64,
            blocked_sources_active: self.sources.len() as u64,
            counters: self.counters,
        }
    }

    /// Record how long a verdict took, in microseconds.
    ///
    /// Every microsecond here is added to every packet on the path. What is
    /// counted is the tail, not the median: a verdict path's median is a table
    /// lookup and stays flat right up until the queue backs up.
    pub fn record_latency(&mut self, micros: u64)
        requires
            old(self).well_formed(),
            old(self)@.counters.verdict_latency_over_1ms < u64::MAX,
            old(self)@.counters.verdict_latency_over_10ms < u64::MAX,
        ensures
            final(self).well_formed(),
            final(self)@ == old(self)@.timed(micros),
    {
        self.counters.verdict_latency_us_total = self.counters.verdict_latency_us_total.saturating_add(
            micros,
        );
        if self.counters.verdict_latency_us_max < micros {
            self.counters.verdict_latency_us_max = micros;
        }
        if micros > SLOW_MICROS {
            self.counters.verdict_latency_over_1ms = self.counters.verdict_latency_over_1ms + 1;
        }
        if micros > VERY_SLOW_MICROS {
            self.counters.verdict_latency_over_10ms = self.counters.verdict_latency_over_10ms + 1;
        }
    }

    /// Fold in what the kernel says about the queue.
    pub fn record_queue_depth(&mut self, depth: &QueueDepth)
        requires
            old(self).well_formed(),
        ensures
            final(self).well_formed(),
            final(self)@ == (PreventionModel {
                counters: PreventCounters {
                    queue_depth: depth.queued as u64,
                    queue_depth_max: if old(self)@.counters.queue_depth_max < depth.queued {
                        depth.queued as u64
                    } else {
                        old(self)@.counters.queue_depth_max
                    },
                    queue_unjudged: (depth.queue_dropped + depth.user_dropped) as u64,
                    ..old(self)@.counters
                },
                ..old(self)@
            }),
    {
        self.counters.queue_depth = depth.queued as u64;
        if self.counters.queue_depth_max < depth.queued as u64 {
            self.counters.queue_depth_max = depth.queued as u64;
        }
        self.counters.queue_unjudged = depth.unjudged();
    }

    /// Record that the kernel applied the fail mode rather than asking.
    pub fn record_fail_mode_applied(&mut self, packets: u64)
        requires
            old(self).well_formed(),
            old(self)@.counters.fail_mode_packets + packets <= u64::MAX,
        ensures
            final(self).well_formed(),
            final(self)@ == (PreventionModel {
                counters: PreventCounters {
                    fail_mode_packets: (old(self)@.counters.fail_mode_packets + packets) as u64,
                    ..old(self)@.counters
                },
                ..old(self)@
            }),
    {
        self.counters.fail_mode_packets = self.counters.fail_mode_packets + packets;
    }
}

/// The kill switch: unarmed, nothing is dropped and nothing is recorded, whatever
/// the store holds.
pub proof fn law_the_kill_switch_stops_everything(
    store: PreventionModel,
    tuple: NetTuple,
    now: Timestamp,
)
    requires
        !store.armed(),
    ensures
        store.verdict(tuple, now) == Decision::Accept,
        store.answer(tuple) == BlockOutcome::NotArmed,
        store.blocking(tuple, now) == store,
{
}

/// A packet is dropped only by an armed store and only where neither of its addresses is
/// allow-listed, a verdict on a conversation holds in both directions, and every packet
/// is counted once, as dropped exactly where it was.
pub proof fn law_every_judgement_is_counted(
    store: PreventionModel,
    tuple: NetTuple,
    now: Timestamp,
)
    requires
        store.counters.can_judge(),
    ensures
        store.verdict(tuple, now) is Drop ==> store.armed() && !store.allows(tuple.src_ip)
            && !store.allows(tuple.dest_ip),
        store.verdict(tuple, now) == Decision::Drop(DropReason::FlowVerdict) ==> store.verdict(
            tuple.reversed(),
            now,
        ) == Decision::Drop(DropReason::FlowVerdict),
        store.judged(tuple, now).counters.packets_judged == store.counters.packets_judged + 1,
        store.judged(tuple, now).counters.packets_dropped == store.counters.packets_dropped
            + if store.verdict(tuple, now) is Drop {
            1int
        } else {
            0
        },
{
    law_both_directions_are_one_conversation(tuple);
}

/// Disarming and arming again restores every verdict that was already known.
pub proof fn law_re_arming_restores_the_verdicts(store: PreventionModel)
    requires
        store.armed(),
    ensures
        (PreventionModel {
            mode: Mode::Prevent,
            ..PreventionModel { mode: Mode::Detect, ..store }
        }) == store,
{
}

/// No sequence of matches drops a packet to or from an allow-listed address: it is
/// accepted whatever the store holds, and a block of it is refused and records
/// nothing.
pub proof fn law_the_allow_list_comes_before_any_verdict(
    store: PreventionModel,
    tuple: NetTuple,
    now: Timestamp,
)
    requires
        store.protects(tuple),
    ensures
        store.verdict(tuple, now) == Decision::Accept,
        !(store.answer(tuple) is Blocked),
        store.blocking(tuple, now).flows == store.flows,
        store.blocking(tuple, now).sources == store.sources,
{
}

/// Both directions of a conversation have one key.
pub proof fn law_both_directions_are_one_conversation(tuple: NetTuple)
    ensures
        FlowKey::of(tuple.reversed()) == FlowKey::of(tuple),
{
    crate::net::lemma_endpoint_order(tuple.source(), tuple.destination());
}

/// A recorded block drops every later packet of the conversation, in both
/// directions.
pub proof fn law_a_block_stops_both_directions(
    store: PreventionModel,
    tuple: NetTuple,
    now: Timestamp,
    later: Timestamp,
)
    requires
        store.answer(tuple) is Blocked,
    ensures
        store.blocking(tuple, now).verdict(tuple, later) == Decision::Drop(DropReason::FlowVerdict),
        store.blocking(tuple, now).verdict(tuple.reversed(), later) == Decision::Drop(
            DropReason::FlowVerdict,
        ),
{
    law_both_directions_are_one_conversation(tuple);
    let after = store.blocking(tuple, now);
    assert(after.flows.contains_key(FlowKey::of(tuple)));
}

/// A recorded block drops whatever else the source sends until the block lapses,
/// except to an allow-listed address.
pub proof fn law_a_block_stops_the_next_connection(
    store: PreventionModel,
    tuple: NetTuple,
    now: Timestamp,
    next: NetTuple,
    later: Timestamp,
)
    requires
        store.answer(tuple) is Blocked,
        next.src_ip == tuple.src_ip,
        !store.protects(next),
        later.nanos < now.later(store.source_block).nanos,
    ensures
        store.blocking(tuple, now).verdict(next, later) is Drop,
{
    let after = store.blocking(tuple, now);
    assert(after.sources.contains_key(next.src_ip));
}

/// A block changes nothing for a packet of another conversation from another
/// source.
pub proof fn law_a_block_leaves_others_alone(
    store: PreventionModel,
    tuple: NetTuple,
    now: Timestamp,
    other: NetTuple,
    later: Timestamp,
)
    requires
        FlowKey::of(other) != FlowKey::of(tuple),
        other.src_ip != tuple.src_ip,
    ensures
        store.blocking(tuple, now).verdict(other, later) == store.verdict(other, later),
{
}

/// A store that is full refuses to record rather than forget: every verdict that
/// was enforced still is, and the refusal is counted.
pub proof fn law_a_full_store_forgets_nothing(
    store: PreventionModel,
    tuple: NetTuple,
    now: Timestamp,
)
    requires
        store.armed(),
        !store.protects(tuple),
        store.full(),
        store.counters.blocks_dropped_at_capacity < u64::MAX,
    ensures
        store.answer(tuple) == BlockOutcome::Full,
        store.blocking(tuple, now).flows == store.flows,
        store.blocking(tuple, now).sources == store.sources,
        store.blocking(tuple, now).counters.blocks_dropped_at_capacity
            == store.counters.blocks_dropped_at_capacity + 1,
{
}

/// Whether a store is within its bounds.
pub open spec fn within_bounds(store: PreventionModel) -> bool {
    &&& store.flows.dom().finite()
    &&& store.sources.dom().finite()
    &&& store.flows.dom().len() <= store.max_blocked_flows
    &&& store.sources.dom().len() <= store.max_blocked_sources
}

/// Whatever is asked of a store, it stays within its bounds.
pub proof fn law_the_store_stays_within_its_bounds(
    store: PreventionModel,
    tuple: NetTuple,
    now: Timestamp,
)
    requires
        within_bounds(store),
    ensures
        within_bounds(store.blocking(tuple, now)),
        within_bounds(store.judged(tuple, now)),
        within_bounds(store.expired(now)),
{
    let expired = store.expired(now);
    assert(expired.flows.dom().subset_of(store.flows.dom()));
    assert(expired.sources.dom().subset_of(store.sources.dom()));
    vstd::set_lib::lemma_len_subset(expired.flows.dom(), store.flows.dom());
    vstd::set_lib::lemma_len_subset(expired.sources.dom(), store.sources.dom());
    let judged = store.judged(tuple, now);
    assert(judged.sources.dom().subset_of(store.sources.dom()));
    vstd::set_lib::lemma_len_subset(judged.sources.dom(), store.sources.dom());
}

/// A source that is blocked again is still one source: its entry moves on, and no
/// other is added.
pub proof fn law_a_persistent_source_is_one_entry(
    store: PreventionModel,
    tuple: NetTuple,
    now: Timestamp,
)
    requires
        store.sources.contains_key(tuple.src_ip),
    ensures
        store.blocking(tuple, now).sources.dom() == store.sources.dom(),
        store.blocking(tuple, now).counters.sources_blocked == store.counters.sources_blocked,
{
    assert(store.blocking(tuple, now).sources.dom() =~= store.sources.dom());
}

/// Whether everything in a store was recorded at or before a point in time.
pub open spec fn recorded_by(store: PreventionModel, at: Timestamp) -> bool {
    &&& forall|key: FlowKey| #[trigger]
        store.flows.contains_key(key) ==> store.flows[key].nanos <= at.nanos
    &&& forall|source: IpAddr| #[trigger]
        store.sources.contains_key(source) ==> store.sources[source].nanos <= at.later(
            store.source_block,
        ).nanos
}

/// Nothing outlives its block: once the block duration has passed since the last
/// recording, expiry empties the store.
pub proof fn law_the_store_drains(store: PreventionModel, last: Timestamp, now: Timestamp)
    requires
        recorded_by(store, last),
        now.nanos >= last.nanos + store.source_block.nanos,
    ensures
        store.expired(now).flows == Map::<FlowKey, Timestamp>::empty(),
        store.expired(now).sources == Map::<IpAddr, Timestamp>::empty(),
{
    assert(store.expired(now).flows =~= Map::<FlowKey, Timestamp>::empty());
    assert(store.expired(now).sources =~= Map::<IpAddr, Timestamp>::empty());
}

/// What a store records is recorded at the time it is given, and deciding and
/// expiring record nothing.
pub proof fn law_recordings_carry_their_time(
    store: PreventionModel,
    tuple: NetTuple,
    last: Timestamp,
    now: Timestamp,
)
    requires
        recorded_by(store, last),
        last.nanos <= now.nanos,
    ensures
        recorded_by(store.blocking(tuple, now), now),
        recorded_by(store.judged(tuple, now), now),
        recorded_by(store.expired(now), now),
{
}

/// A block lasts as long as it is set up to: the source is dropped until then and no
/// longer, unless the flow itself is blocked.
pub proof fn law_a_source_block_lasts_its_time(
    store: PreventionModel,
    tuple: NetTuple,
    now: Timestamp,
    next: NetTuple,
    later: Timestamp,
)
    requires
        store.answer(tuple) is Blocked,
        next.src_ip == tuple.src_ip,
        !store.protects(next),
        FlowKey::of(next) != FlowKey::of(tuple),
        !store.flows.contains_key(FlowKey::of(next)),
        now.nanos + store.source_block.nanos <= u128::MAX,
    ensures
        later.nanos < now.nanos + store.source_block.nanos ==> store.blocking(tuple, now).verdict(
            next,
            later,
        ) == Decision::Drop(DropReason::BlockedSource),
        later.nanos >= now.nanos + store.source_block.nanos ==> store.blocking(tuple, now).verdict(
            next,
            later,
        ) == Decision::Accept,
        later.nanos >= now.nanos + store.source_block.nanos ==> !store.blocking(tuple, now).judged(
            next,
            later,
        ).sources.contains_key(next.src_ip),
{
}

/// A packet is blocked exactly where the store is armed, neither end is on the allow
/// list and there is room, and a refusal says why.
pub proof fn law_a_refusal_says_why(store: PreventionModel, tuple: NetTuple)
    ensures
        store.answer(tuple) is NotArmed <==> store.mode == Mode::Detect,
        store.answer(tuple) is Blocked <==> {
            &&& store.mode == Mode::Prevent
            &&& !any_covers(store.allow_list, tuple.src_ip)
            &&& !any_covers(store.allow_list, tuple.dest_ip)
            &&& store.flows.dom().len() < store.max_blocked_flows
            &&& store.sources.dom().len() < store.max_blocked_sources
        },
        store.answer(tuple) matches BlockOutcome::Blocked { source } ==> source == Some(
            tuple.src_ip,
        ),
        store.answer(tuple) matches BlockOutcome::AllowListed { address } ==> {
            &&& any_covers(store.allow_list, address)
            &&& address == tuple.src_ip || address == tuple.dest_ip
            &&& any_covers(store.allow_list, tuple.src_ip) ==> address == tuple.src_ip
        },
        store.answer(tuple) is Full ==> store.mode == Mode::Prevent && (store.flows.dom().len()
            >= store.max_blocked_flows || store.sources.dom().len() >= store.max_blocked_sources),
{
}

/// What nothing is recorded of passes: a packet whose flow and source are not in the
/// store is accepted, and judging it changes only the count.
pub proof fn law_the_default_is_to_accept(
    store: PreventionModel,
    tuple: NetTuple,
    now: Timestamp,
)
    requires
        !store.flows.contains_key(FlowKey::of(tuple)),
        !store.sources.contains_key(tuple.src_ip),
    ensures
        store.verdict(tuple, now) == Decision::Accept,
        store.judged(tuple, now).flows == store.flows,
        store.judged(tuple, now).sources == store.sources,
        store.judged(tuple, now).counters.packets_dropped == store.counters.packets_dropped,
{
}

/// Two packets are of one conversation exactly where they have the same protocol and the
/// same ends, either way round.
pub proof fn law_a_key_is_one_conversation(a: NetTuple, b: NetTuple)
    ensures
        FlowKey::of(a) == FlowKey::of(b) <==> a.proto == b.proto && ((a.source() == b.source()
            && a.destination() == b.destination()) || (a.source() == b.destination()
            && a.destination() == b.source())),
{
    lemma_endpoint_order(a.source(), a.destination());
    lemma_endpoint_order(b.source(), b.destination());
}

/// Expiry takes what has lapsed and nothing else, and counts it: a flow verdict as old
/// as a source block lasts, and a source block whose end has come.
pub proof fn law_expiry_takes_what_has_lapsed(
    store: PreventionModel,
    now: Timestamp,
    key: FlowKey,
    source: IpAddr,
)
    requires
        store.source_block.nanos > 0,
    ensures
        store.flows.contains_key(key) ==> (store.expired(now).flows.contains_key(key) <==> now.nanos
            < store.flows[key].nanos + store.source_block.nanos),
        store.sources.contains_key(source) ==> (store.expired(now).sources.contains_key(source)
            <==> now.nanos < store.sources[source].nanos),
        store.expired(now).flows.contains_key(key) ==> store.flows.contains_key(key)
            && store.expired(now).flows[key] == store.flows[key],
        store.expired(now).sources.contains_key(source) ==> store.sources.contains_key(source)
            && store.expired(now).sources[source] == store.sources[source],
        store.expired(now).mode == store.mode,
        store.expired(now).allow_list == store.allow_list,
{
}

/// What expires is counted one for one.
pub proof fn law_what_expires_is_counted(store: PreventionModel, now: Timestamp)
    requires
        store.flows.dom().finite(),
        store.sources.dom().finite(),
        store.counters.flow_verdicts_expired + store.flows.dom().len() <= u64::MAX,
        store.counters.source_blocks_expired + store.sources.dom().len() <= u64::MAX,
    ensures
        store.expired(now).counters.flow_verdicts_expired + store.expired(now).flows.dom().len()
            == store.counters.flow_verdicts_expired + store.flows.dom().len(),
        store.expired(now).counters.source_blocks_expired + store.expired(now).sources.dom().len()
            == store.counters.source_blocks_expired + store.sources.dom().len(),
        store.expired(now).counters.packets_judged == store.counters.packets_judged,
{
    let flows = store.flows_held(now).dom();
    let sources = store.sources_held(now).dom();
    assert(flows.subset_of(store.flows.dom()));
    assert(sources.subset_of(store.sources.dom()));
    vstd::set_lib::lemma_len_subset(flows, store.flows.dom());
    vstd::set_lib::lemma_len_subset(sources, store.sources.dom());
}

/// Latencies are summed and their largest is kept, and more than a millisecond, or ten,
/// is counted.
pub proof fn law_latencies_are_summed_and_ranked(store: PreventionModel, micros: u64)
    requires
        store.counters.verdict_latency_over_1ms < u64::MAX,
        store.counters.verdict_latency_over_10ms < u64::MAX,
    ensures
        ({
            let before = store.counters;
            let after = store.timed(micros).counters;
            &&& before.verdict_latency_us_total + micros <= u64::MAX
                ==> after.verdict_latency_us_total == before.verdict_latency_us_total + micros
            &&& after.verdict_latency_us_total >= before.verdict_latency_us_total
            &&& after.verdict_latency_us_max >= micros
            &&& after.verdict_latency_us_max >= before.verdict_latency_us_max
            &&& after.verdict_latency_us_max == micros || after.verdict_latency_us_max
                == before.verdict_latency_us_max
            &&& micros > 1_000 <==> after.verdict_latency_over_1ms
                == before.verdict_latency_over_1ms + 1
            &&& micros <= 1_000 <==> after.verdict_latency_over_1ms
                == before.verdict_latency_over_1ms
            &&& micros > 10_000 <==> after.verdict_latency_over_10ms
                == before.verdict_latency_over_10ms + 1
            &&& micros <= 10_000 <==> after.verdict_latency_over_10ms
                == before.verdict_latency_over_10ms
            &&& after.packets_judged == before.packets_judged
            &&& after.packets_dropped == before.packets_dropped
        }),
        store.timed(micros).flows == store.flows,
        store.timed(micros).sources == store.sources,
{
}

/// What each outcome of a request counts, and nothing else.
pub proof fn law_each_outcome_has_its_count(
    store: PreventionModel,
    tuple: NetTuple,
    now: Timestamp,
)
    requires
        store.counters.can_block(),
    ensures
        ({
            let before = store.counters;
            let after = store.blocking(tuple, now).counters;
            &&& after.flows_blocked - before.flows_blocked == if store.answer(tuple) is Blocked {
                1int
            } else {
                0int
            }
            &&& after.allow_listed_blocks_refused - before.allow_listed_blocks_refused
                == if store.answer(tuple) is AllowListed {
                1int
            } else {
                0int
            }
            &&& after.blocks_dropped_at_capacity - before.blocks_dropped_at_capacity
                == if store.answer(tuple) is Full {
                1int
            } else {
                0int
            }
            &&& after.sources_blocked - before.sources_blocked == if store.answer(tuple) is Blocked
                && !store.sources.contains_key(tuple.src_ip) {
                1int
            } else {
                0int
            }
            &&& after.packets_judged == before.packets_judged
        }),
{
}

/// The words for modes and reasons.
pub proof fn law_modes_and_reasons_have_their_words()
    ensures
        Mode::Detect.name() == "detect"@,
        Mode::Prevent.name() == "prevent"@,
        FailMode::Open.name() == "open"@,
        FailMode::Closed.name() == "closed"@,
        DropReason::FlowVerdict.name() == "flow_verdict"@,
        DropReason::BlockedSource.name() == "blocked_source"@,
{
}

/// Flow keys are in one order: of two that differ exactly one comes first.
pub proof fn law_flow_keys_are_in_one_order(a: FlowKey, b: FlowKey, c: FlowKey)
    ensures
        !a.below(a),
        a == b || a.below(b) || b.below(a),
        !(a.below(b) && b.below(a)),
        a.below(b) && b.below(c) ==> a.below(c),
        a.protocol < b.protocol ==> a.below(b),
{
    lemma_endpoint_order(a.lower, b.lower);
    lemma_endpoint_order(a.upper, b.upper);
    lemma_endpoint_order(b.lower, c.lower);
    lemma_endpoint_order(b.upper, c.upper);
    law_endpoints_are_in_one_order(a.lower, b.lower, c.lower);
    law_endpoints_are_in_one_order(a.upper, b.upper, c.upper);
}

/// Every network of the allow list counts, and nothing else does.
pub proof fn law_the_whole_allow_list_counts(
    store: PreventionModel,
    address: IpAddr,
    tuple: NetTuple,
    i: int,
)
    ensures
        0 <= i < store.allow_list.len() && store.allow_list[i].covers(address) ==> store.allows(
            address,
        ),
        (forall|k: int|
            0 <= k < store.allow_list.len() ==> !(#[trigger] store.allow_list[k]).covers(address))
            ==> !store.allows(address),
        store.allows(tuple.src_ip) || store.allows(tuple.dest_ip) <==> store.protects(tuple),
        store.armed() <==> store.mode == Mode::Prevent,
        store.flows.dom().len() >= store.max_blocked_flows || store.sources.dom().len()
            >= store.max_blocked_sources <==> store.full(),
{
}

} // verus!
