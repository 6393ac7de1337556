//! Flow tracking, the state that stream reassembly is built on.
//!
//! A flow is one conversation, keyed on the 5-tuple with the two endpoints in a
//! canonical order so both directions land on the same entry. Every packet is
//! attributed to a flow and a direction, which is what gives every event a
//! flow id and lets host and network events correlate later.
//!
//! # Bounded, because an attacker chooses how many flows exist
//!
//! Opening flows is free for an attacker and expensive for a sensor — a SYN
//! flood from spoofed sources creates a new entry per packet. So the table has
//! a hard cap ([`Limits::max_flows`]) and an idle timeout, and it can never grow
//! past the cap regardless of traffic.
//!
//! When the cap is hit, the least recently seen flows are evicted and
//! **reported as evictions**, not silently forgotten.
//!
//! The table is modelled by [`TableModel`]: the live flows in the order they
//! were opened, the flows that ended, and the totals.

use vstd::prelude::*;
use crate::config::ReassemblyConfig;
use crate::net::{be_bytes, big_endian, endpoint_at_most, endpoint_le, same_endpoint, Endpoint, IpAddr};
use crate::time::{Duration, Timestamp};
use super::flags;
use super::stream::{PairModel, StreamCounters, StreamModel, StreamPair, StreamReady, TcpSegment};
use super::{Limits, OverlapPolicy};

verus! {

/// The IP protocol number for TCP.
pub const TCP_PROTOCOL: u8 = 6;

/// Minimum capture time between timeout sweeps, in nanoseconds.
///
/// Sweeping is linear in the flows; doing it per packet would make a busy link
/// pay for the whole table on every frame.
pub const SWEEP_INTERVAL_NANOS: u128 = 10_000_000_000;

/// Fraction of the table evicted at once when the cap is reached.
///
/// Evicting a batch amortises the scan: one scan serves many subsequent
/// inserts, instead of a full scan per insert while the table sits full.
pub const EVICTION_BATCH_FRACTION: usize = 10;

/// A flow identifier.
///
/// Derived from the canonical key and the flow's start time, so it is stable
/// for the life of the flow, reproducible across replays of the same capture,
/// and unlikely to collide with a flow from a previous run of the sensor.
#[derive(Debug, Clone, Copy, PartialEq, Eq, PartialOrd, Ord, Hash, Structural)]
pub struct FlowId(u64);

impl FlowId {
    /// The identifier as a number.
    pub closed spec fn value(self) -> u64 {
        self.0
    }

    /// The identifier as it appears in event JSON.
    pub fn get(self) -> (id: u64)
        ensures
            id == self.value(),
    {
        self.0
    }
}

/// The canonical key for a conversation.
///
/// The two endpoints are stored in sorted order so a packet in either direction
/// produces the same key. Which endpoint *opened* the conversation is kept
/// separately, in [`Flow::initiator`].
#[derive(Debug, Clone, Copy, PartialEq, Eq, Hash)]
pub struct FlowKey {
    /// IP protocol number.
    pub protocol: u8,
    /// The lower-sorting endpoint.
    pub first: Endpoint,
    /// The higher-sorting endpoint.
    pub second: Endpoint,
}

impl FlowKey {
    /// The canonical key of a directional pair of endpoints.
    pub open spec fn of(protocol: u8, source: Endpoint, destination: Endpoint) -> FlowKey {
        if endpoint_at_most(source, destination) {
            FlowKey { protocol, first: source, second: destination }
        } else {
            FlowKey { protocol, first: destination, second: source }
        }
    }

    /// Build a canonical key from a directional pair of endpoints.
    pub fn new(protocol: u8, source: Endpoint, destination: Endpoint) -> (key: Self)
        ensures
            key == FlowKey::of(protocol, source, destination),
    {
        if endpoint_le(&source, &destination) {
            Self { protocol, first: source, second: destination }
        } else {
            Self { protocol, first: destination, second: source }
        }
    }

    /// Whether two keys are the same.
    fn same(&self, other: &FlowKey) -> (same: bool)
        ensures
            same == (*self == *other),
    {
        self.protocol == other.protocol && same_endpoint(&self.first, &other.first)
            && same_endpoint(&self.second, &other.second)
    }
}

/// Both directions of a conversation have one key.
pub proof fn law_both_directions_share_a_key(protocol: u8, source: Endpoint, destination: Endpoint)
    ensures
        FlowKey::of(protocol, source, destination) == FlowKey::of(protocol, destination, source),
{
    crate::net::lemma_endpoint_order(source, destination);
}

/// Conversations that differ in protocol or in their pair of endpoints differ
/// in their key.
pub proof fn law_a_key_identifies_its_conversation(
    one: (u8, Endpoint, Endpoint),
    other: (u8, Endpoint, Endpoint),
)
    ensures
        FlowKey::of(one.0, one.1, one.2) == FlowKey::of(other.0, other.1, other.2) <==> {
            &&& one.0 == other.0
            &&& (one.1 == other.1 && one.2 == other.2) || (one.1 == other.2 && one.2 == other.1)
        },
{
    crate::net::lemma_endpoint_order(one.1, one.2);
    crate::net::lemma_endpoint_order(other.1, other.2);
}

/// Per-direction counters.
#[derive(Debug, Clone, Copy, PartialEq, Eq, Structural)]
pub struct DirectionCounters {
    /// Packets seen.
    pub packets: u64,
    /// Bytes seen, counting whole frames.
    pub bytes: u64,
}

impl Default for DirectionCounters {
    fn default() -> (counters: Self)
        ensures
            counters == (DirectionCounters { packets: 0, bytes: 0 }),
    {
        Self { packets: 0, bytes: 0 }
    }
}

impl DirectionCounters {
    /// The counters after one more packet.
    pub open spec fn after(self, frame_len: int) -> DirectionCounters {
        DirectionCounters {
            packets: (self.packets + 1) as u64,
            bytes: (self.bytes + frame_len) as u64,
        }
    }

    /// Whether one more packet can be counted.
    pub open spec fn has_room(self, frame_len: int) -> bool {
        self.packets < u64::MAX && self.bytes + frame_len <= u64::MAX
    }
}

/// What a flow is.
pub struct FlowModel {
    /// Stable identifier.
    pub id: FlowId,
    /// Canonical key.
    pub key: FlowKey,
    /// The endpoint that sent the first packet.
    pub initiator: Endpoint,
    /// First packet seen.
    pub start: Timestamp,
    /// Most recent packet seen.
    pub last_seen: Timestamp,
    /// Counters in the direction the flow was opened in.
    pub to_server: DirectionCounters,
    /// Counters in the reverse direction.
    pub to_client: DirectionCounters,
    /// Union of every TCP flag byte seen.
    pub tcp_flags_seen: u8,
    /// Whether the initiator sent a FIN.
    pub fin_from_initiator: bool,
    /// Whether the responder sent a FIN.
    pub fin_from_responder: bool,
    /// Whether a reset was believed.
    pub saw_reset: bool,
    /// Reassembly state, for TCP.
    pub streams: Option<PairModel>,
}

impl FlowModel {
    /// The endpoint that did not open the conversation.
    pub open spec fn responder(self) -> Endpoint {
        if self.initiator == self.key.first {
            self.key.second
        } else {
            self.key.first
        }
    }

    /// Whether teardown was seen in both directions, or a reset.
    pub open spec fn closed(self) -> bool {
        self.saw_reset || (self.fin_from_initiator && self.fin_from_responder)
    }

    /// Bytes held awaiting reassembly.
    pub open spec fn buffered(self) -> int {
        match self.streams {
            Some(pair) => pair.buffered(),
            None => 0,
        }
    }

    /// How long the flow has been idle.
    pub open spec fn idle(self, now: Timestamp) -> int {
        if now.nanos >= self.last_seen.nanos {
            now.nanos - self.last_seen.nanos
        } else {
            0
        }
    }

    /// The flow that a packet opens.
    pub open spec fn opened(packet: PacketSummary, config: ReassemblyConfig) -> FlowModel {
        let key = FlowKey::of(packet.protocol, packet.source, packet.destination);
        FlowModel {
            id: FlowId::derived(key, packet.timestamp),
            key,
            initiator: packet.source,
            start: packet.timestamp,
            last_seen: packet.timestamp,
            to_server: DirectionCounters { packets: 0, bytes: 0 },
            to_client: DirectionCounters { packets: 0, bytes: 0 },
            tcp_flags_seen: 0,
            fin_from_initiator: false,
            fin_from_responder: false,
            saw_reset: false,
            streams: if packet.protocol == TCP_PROTOCOL {
                Some(
                    PairModel {
                        to_server: StreamModel::fresh(config.byte_limit(), config.flush_limit()),
                        to_client: StreamModel::fresh(config.byte_limit(), config.flush_limit()),
                    },
                )
            } else {
                None
            },
        }
    }

    /// The reassembly state once a segment was taken in, before delivery.
    pub open spec fn taken(
        self,
        packet: PacketSummary,
        policy_to_server: OverlapPolicy,
        policy_to_client: OverlapPolicy,
    ) -> PairModel {
        self.streams->0.taken(
            packet.source == self.initiator,
            packet.tcp->0,
            policy_to_server,
            policy_to_client,
        )
    }

    /// Whether a packet carries a reset that ends the flow. Of a reassembled
    /// flow only one the destination would act on does.
    pub open spec fn ends_with(
        self,
        packet: PacketSummary,
        policy_to_server: OverlapPolicy,
        policy_to_client: OverlapPolicy,
    ) -> bool {
        &&& packet.tcp is Some
        &&& packet.tcp->0.has_flag(flags::RST)
        &&& self.streams is Some ==> self.taken(
            packet,
            policy_to_server,
            policy_to_client,
        ).delivered(false).direction(packet.source == self.initiator).believes_reset(
            packet.tcp->0.sequence,
        )
    }

    /// The flow after one of its packets.
    pub open spec fn seen(
        self,
        packet: PacketSummary,
        policy_to_server: OverlapPolicy,
        policy_to_client: OverlapPolicy,
    ) -> FlowModel {
        let to_server = packet.source == self.initiator;
        let fin = packet.tcp is Some && packet.tcp->0.has_flag(flags::FIN);
        FlowModel {
            to_server: if to_server {
                self.to_server.after(packet.frame_len as int)
            } else {
                self.to_server
            },
            to_client: if to_server {
                self.to_client
            } else {
                self.to_client.after(packet.frame_len as int)
            },
            last_seen: if packet.timestamp.nanos > self.last_seen.nanos {
                packet.timestamp
            } else {
                self.last_seen
            },
            tcp_flags_seen: if packet.tcp is Some {
                self.tcp_flags_seen | packet.tcp->0.flags
            } else {
                self.tcp_flags_seen
            },
            fin_from_initiator: self.fin_from_initiator || (fin && to_server),
            fin_from_responder: self.fin_from_responder || (fin && !to_server),
            saw_reset: self.saw_reset || self.ends_with(packet, policy_to_server, policy_to_client),
            streams: if packet.tcp is Some && self.streams is Some {
                Some(self.taken(packet, policy_to_server, policy_to_client).delivered(false))
            } else {
                self.streams
            },
            ..self
        }
    }

    /// Whether nothing in the flow is close to the end of its type: it can take
    /// a packet of `len` payload bytes in a frame of `frame_len`, or end.
    pub open spec fn has_room(self, len: int, frame_len: int) -> bool {
        &&& self.to_server.has_room(frame_len)
        &&& self.to_client.has_room(frame_len)
        &&& self.streams matches Some(pair) ==> {
            &&& pair.to_server.has_room(len + 2 * pair.to_server.buffer.byte_cap)
            &&& pair.to_client.has_room(len + 2 * pair.to_client.buffer.byte_cap)
        }
    }
}

/// A tracked conversation.
///
/// Deliberately **not** `Clone`: a flow owns its reassembly buffers, and a
/// stray clone would duplicate up to the per-flow byte cap. Flows are moved out
/// of the table when they end, never copied out of it.
#[derive(Debug)]
pub struct Flow {
    /// Stable identifier.
    pub id: FlowId,
    /// Canonical key.
    pub key: FlowKey,
    /// The endpoint that sent the first packet. Defines "to server".
    pub initiator: Endpoint,
    /// First packet seen.
    pub start: Timestamp,
    /// Most recent packet seen.
    pub last_seen: Timestamp,
    /// Counters in the direction the flow was opened in.
    pub to_server: DirectionCounters,
    /// Counters in the reverse direction.
    pub to_client: DirectionCounters,
    /// Union of every TCP flag byte seen on the flow.
    pub tcp_flags_seen: u8,
    /// Whether a FIN has been seen from the initiator.
    fin_from_initiator: bool,
    /// Whether a FIN has been seen from the responder.
    fin_from_responder: bool,
    /// Whether a RST the destination would have acted on has been seen.
    saw_reset: bool,
    /// TCP reassembly state. `None` for anything that is not TCP.
    streams: Option<StreamPair>,
}

impl View for Flow {
    type V = FlowModel;

    closed spec fn view(&self) -> FlowModel {
        FlowModel {
            id: self.id,
            key: self.key,
            initiator: self.initiator,
            start: self.start,
            last_seen: self.last_seen,
            to_server: self.to_server,
            to_client: self.to_client,
            tcp_flags_seen: self.tcp_flags_seen,
            fin_from_initiator: self.fin_from_initiator,
            fin_from_responder: self.fin_from_responder,
            saw_reset: self.saw_reset,
            streams: match self.streams {
                Some(pair) => Some(pair@),
                None => None,
            },
        }
    }
}

/// The letter of a flag, where it is set.
pub open spec fn letter_if(set: bool, letter: char) -> Seq<char> {
    if set {
        seq![letter]
    } else {
        seq![]
    }
}

/// The letters of the TCP flags set in a flag byte, lowest bit first.
pub open spec fn flag_letters(seen: u8) -> Seq<char> {
    Seq::<char>::empty()
        + letter_if(seen & 1 != 0, 'F')
        + letter_if(seen & 2 != 0, 'S')
        + letter_if(seen & 4 != 0, 'R')
        + letter_if(seen & 8 != 0, 'P')
        + letter_if(seen & 16 != 0, 'A')
        + letter_if(seen & 32 != 0, 'U')
        + letter_if(seen & 64 != 0, 'E')
        + letter_if(seen & 128 != 0, 'C')
}

fn push_if(out: &mut Vec<char>, set: bool, letter: char)
    ensures
        final(out)@ == old(out)@ + letter_if(set, letter),
{
    if set {
        out.push(letter);
    }
    assert(out@ =~= old(out)@ + letter_if(set, letter));
}

impl Flow {
    /// The flow's invariant: its reassembly buffers keep theirs, and all of
    /// them use one byte cap.
    pub closed spec fn well_formed(&self) -> bool {
        self.streams matches Some(pair) ==> pair.well_formed()
    }

    /// The endpoint that did not open the conversation.
    pub fn responder(&self) -> (endpoint: Endpoint)
        ensures
            endpoint == self@.responder(),
    {
        if same_endpoint(&self.initiator, &self.key.first) {
            self.key.second
        } else {
            self.key.first
        }
    }

    /// The 5-tuple oriented from the initiator, as events report it.
    pub fn oriented_tuple(&self) -> (endpoints: (Endpoint, Endpoint))
        ensures
            endpoints == (self@.initiator, self@.responder()),
    {
        (self.initiator, self.responder())
    }

    /// How long the flow lasted.
    pub fn duration(&self) -> (duration: Duration)
        ensures
            duration.nanos == (if self@.start.nanos <= self@.last_seen.nanos {
                self@.last_seen.nanos - self@.start.nanos
            } else {
                0
            }),
    {
        match self.last_seen.duration_since(self.start) {
            Some(duration) => duration,
            None => Duration { nanos: 0 },
        }
    }

    /// Whether TCP teardown has been observed in both directions, or a reset.
    pub fn is_closed(&self) -> (closed: bool)
        ensures
            closed == self@.closed(),
    {
        self.saw_reset || (self.fin_from_initiator && self.fin_from_responder)
    }

    /// Reassembly counters for this flow, if it is TCP.
    pub fn stream_counters(&self) -> (counters: Option<StreamCounters>)
        requires
            self@.streams matches Some(pair) ==> pair.to_server.counters.addable(
                pair.to_client.counters,
            ),
        ensures
            counters == (match self@.streams {
                Some(pair) => Some(pair.to_server.counters.sum(pair.to_client.counters)),
                None => None,
            }),
    {
        match &self.streams {
            Some(pair) => Some(pair.counters()),
            None => None,
        }
    }

    /// Bytes this flow currently holds awaiting reassembly.
    pub fn buffered_bytes(&self) -> (held: usize)
        requires
            self.well_formed(),
            self@.buffered() <= usize::MAX,
        ensures
            held == self@.buffered(),
    {
        match &self.streams {
            Some(pair) => pair.buffered_bytes(),
            None => 0,
        }
    }

    /// The union of TCP flags, in the conventional short form.
    pub fn tcp_flags_string(&self) -> (letters: Option<String>)
        ensures
            letters is Some <==> self@.key.protocol == TCP_PROTOCOL,
            letters matches Some(letters) ==> letters@ == flag_letters(self@.tcp_flags_seen),
    {
        if self.key.protocol != TCP_PROTOCOL {
            return None;
        }
        let seen: u8 = self.tcp_flags_seen;
        let mut out: Vec<char> = Vec::new();
        push_if(&mut out, seen & 1 != 0, 'F');
        push_if(&mut out, seen & 2 != 0, 'S');
        push_if(&mut out, seen & 4 != 0, 'R');
        push_if(&mut out, seen & 8 != 0, 'P');
        push_if(&mut out, seen & 16 != 0, 'A');
        push_if(&mut out, seen & 32 != 0, 'U');
        push_if(&mut out, seen & 64 != 0, 'E');
        push_if(&mut out, seen & 128 != 0, 'C');
        Some(crate::text::string_of(out.as_slice()))
    }
}

/// Why a flow left the table.
#[derive(Debug, Clone, Copy, PartialEq, Eq, Structural)]
pub enum EndReason {
    /// TCP teardown was observed.
    Closed,
    /// The flow went idle past the timeout.
    TimedOut,
    /// Evicted to make room under the cap.
    Evicted,
    /// The sensor stopped, or the capture ended, while the flow was open.
    SensorStopped,
}

/// A flow that has left the table and is ready to be reported.
#[derive(Debug)]
pub struct EndedFlow {
    /// The flow as it was.
    pub flow: Flow,
    /// Why it ended.
    pub reason: EndReason,
    /// Stream bytes that became deliverable as the flow ended.
    ///
    /// The tail of a conversation still has to be matched against, so what was
    /// contiguous at the end is delivered rather than dropped with the flow.
    pub final_ready: StreamReady,
}

/// What a packet did to the table.
#[derive(Debug, Clone, Copy, PartialEq, Eq, Structural)]
pub struct Observed {
    /// The flow the packet belongs to.
    pub flow_id: FlowId,
    /// Whether the packet travelled in the direction the flow was opened in.
    pub to_server: bool,
    /// Whether this packet created the flow.
    pub is_new: bool,
}

/// Running totals for the table.
#[derive(Debug, Clone, Copy, PartialEq, Eq, Structural)]
pub struct FlowCounters {
    /// Flows created.
    pub created: u64,
    /// Flows ended by observed teardown.
    pub closed: u64,
    /// Flows ended by the idle timeout.
    pub timed_out: u64,
    /// Flows evicted under memory pressure. **A coverage signal.**
    pub evicted: u64,
    /// Resets ignored because the destination would not have acted on them.
    ///
    /// Non-zero means somebody sent a reset the sensor decided was forged —
    /// either a broken middlebox or an attempt to make the sensor stop watching
    /// a live connection.
    pub resets_ignored: u64,
}

impl Default for FlowCounters {
    fn default() -> (counters: Self)
        ensures
            counters == FlowCounters::zero(),
    {
        Self { created: 0, closed: 0, timed_out: 0, evicted: 0, resets_ignored: 0 }
    }
}

impl FlowCounters {
    /// Nothing counted yet.
    pub open spec fn zero() -> FlowCounters {
        FlowCounters { created: 0, closed: 0, timed_out: 0, evicted: 0, resets_ignored: 0 }
    }
}

/// Everything the flow table needs to know about one packet.
#[derive(Debug, Clone, Copy)]
pub struct PacketSummary<'a> {
    /// IP protocol number.
    pub protocol: u8,
    /// Source endpoint.
    pub source: Endpoint,
    /// Destination endpoint.
    pub destination: Endpoint,
    /// Capture timestamp.
    pub timestamp: Timestamp,
    /// Whole captured frame length, for flow byte counts.
    pub frame_len: usize,
    /// The TCP segment, for protocols that have one.
    pub tcp: Option<TcpSegment<'a>>,
}

impl PacketSummary<'_> {
    /// How many payload bytes the packet carries.
    pub open spec fn payload_len(self) -> int {
        match self.tcp {
            Some(segment) => segment.payload@.len() as int,
            None => 0,
        }
    }
}

/// The offset basis of the 64-bit FNV-1a hash.
pub const FNV_OFFSET_BASIS: u64 = 0xcbf2_9ce4_8422_2325;

/// The prime of the 64-bit FNV-1a hash.
pub const FNV_PRIME: u64 = 0x0000_0100_0000_01b3;

/// The FNV-1a hash of `bytes`, starting from `hash`.
pub open spec fn fnv1a(hash: u64, bytes: Seq<u8>) -> u64
    decreases bytes.len(),
{
    if bytes.len() == 0 {
        hash
    } else {
        (fnv1a(hash, bytes.drop_last()) ^ (bytes.last() as u64)).wrapping_mul(FNV_PRIME)
    }
}

/// The bytes a flow id is derived from: protocol, both endpoints, and the start
/// time in nanoseconds, modulo 2^64.
pub open spec fn flow_id_bytes(key: FlowKey, start: Timestamp) -> Seq<u8> {
    seq![key.protocol] + key.first.0.octets() + big_endian(key.first.1 as int, 2)
        + key.second.0.octets() + big_endian(key.second.1 as int, 2) + big_endian(
        start.nanos as int,
        8,
    )
}

impl FlowId {
    /// The identifier of a conversation: a hash with a fixed basis, so that
    /// replaying one capture twice yields the same ids, and never zero, which
    /// is reserved for "no flow".
    pub closed spec fn derived(key: FlowKey, start: Timestamp) -> FlowId {
        let hash = fnv1a(FNV_OFFSET_BASIS, flow_id_bytes(key, start));
        FlowId(
            if hash == 0 {
                1
            } else {
                hash
            },
        )
    }

    /// A flow's identifier is the hash of its key and its start, and never zero.
    pub proof fn law_an_identifier_is_never_zero(key: FlowKey, start: Timestamp)
        ensures
            FlowId::derived(key, start).value() == ({
                let hash = fnv1a(FNV_OFFSET_BASIS, flow_id_bytes(key, start));
                if hash == 0 {
                    1
                } else {
                    hash
                }
            }),
            FlowId::derived(key, start).value() != 0,
    {
    }
}

fn fnv1a_bytes(hash: u64, bytes: &[u8]) -> (mixed: u64)
    ensures
        mixed == fnv1a(hash, bytes@),
{
    let mut mixed: u64 = hash;
    let mut i: usize = 0;
    while i < bytes.len()
        invariant
            i <= bytes@.len(),
            mixed == fnv1a(hash, bytes@.take(i as int)),
        decreases bytes@.len() - i,
    {
        assert(bytes@.take(i + 1).drop_last() =~= bytes@.take(i as int));
        mixed = (mixed ^ (bytes[i] as u64)).wrapping_mul(FNV_PRIME);
        i = i + 1;
    }
    assert(bytes@.take(i as int) =~= bytes@);
    mixed
}

/// Derive a flow id from the canonical key and start time.
fn derive_flow_id(key: &FlowKey, start: Timestamp) -> (id: FlowId)
    ensures
        id == FlowId::derived(*key, start),
{
    let mut bytes: Vec<u8> = Vec::new();
    bytes.push(key.protocol);
    let mut first = key.first.0.to_octets();
    bytes.append(&mut first);
    let mut first_port = be_bytes(key.first.1 as u128, 2);
    bytes.append(&mut first_port);
    let mut second = key.second.0.to_octets();
    bytes.append(&mut second);
    let mut second_port = be_bytes(key.second.1 as u128, 2);
    bytes.append(&mut second_port);
    let mut nanos = be_bytes(start.nanos, 8);
    bytes.append(&mut nanos);
    assert(bytes@ =~= flow_id_bytes(*key, start));
    let hash: u64 = fnv1a_bytes(FNV_OFFSET_BASIS, bytes.as_slice());
    // Zero is reserved as "no flow" in the event schema.
    if hash == 0 {
        FlowId(1)
    } else {
        FlowId(hash)
    }
}

/// What is reported of a flow that ended.
pub struct EndedModel {
    /// The flow, with its buffers flushed.
    pub flow: FlowModel,
    /// Why it ended.
    pub reason: EndReason,
    /// Bytes towards the responder that its end made deliverable.
    pub to_server: Seq<u8>,
    /// Bytes towards the initiator that its end made deliverable.
    pub to_client: Seq<u8>,
}

impl View for EndedFlow {
    type V = EndedModel;

    open spec fn view(&self) -> EndedModel {
        EndedModel {
            flow: self.flow@,
            reason: self.reason,
            to_server: self.final_ready.to_server@,
            to_client: self.final_ready.to_client@,
        }
    }
}

impl FlowModel {
    /// Whether the totals of the flow's buffers leave room to flush them.
    pub open spec fn can_end(self) -> bool {
        self.streams matches Some(pair) ==> pair.to_server.can_end() && pair.to_client.can_end()
    }

    /// Whether the flow's buffers have the configured cap.
    pub open spec fn capped_at(self, byte_limit: int) -> bool {
        self.streams matches Some(pair) ==> pair.to_server.buffer.byte_cap == byte_limit
            && pair.to_client.buffer.byte_cap == byte_limit
    }

    /// What is reported of the flow when it ends: its contiguous bytes are
    /// handed over, the rest is dropped.
    pub open spec fn ended(self, reason: EndReason) -> EndedModel {
        EndedModel {
            flow: FlowModel {
                streams: match self.streams {
                    Some(pair) => Some(pair.flushed()),
                    None => None,
                },
                ..self
            },
            reason,
            to_server: match self.streams {
                Some(pair) => pair.to_server.delivery(true),
                None => Seq::empty(),
            },
            to_client: match self.streams {
                Some(pair) => pair.to_client.delivery(true),
                None => Seq::empty(),
            },
        }
    }
}

/// The models of some flows.
pub open spec fn flow_models(flows: Seq<Flow>) -> Seq<FlowModel> {
    flows.map_values(|flow: Flow| flow@)
}

/// The models of some ended flows.
pub open spec fn ended_models(flows: Seq<EndedFlow>) -> Seq<EndedModel> {
    flows.map_values(|flow: EndedFlow| flow@)
}

/// The reports of flows that all end for one reason.
pub open spec fn reports(flows: Seq<FlowModel>, reason: EndReason) -> Seq<EndedModel> {
    flows.map_values(|flow: FlowModel| flow.ended(reason))
}

/// The bytes that some flows buffer together.
pub open spec fn total_buffered(flows: Seq<FlowModel>) -> int
    decreases flows.len(),
{
    if flows.len() == 0 {
        0
    } else {
        total_buffered(flows.drop_last()) + flows.last().buffered()
    }
}

/// Whether some flow has a key.
pub open spec fn has_key(flows: Seq<FlowModel>, key: FlowKey) -> bool {
    exists|i: int| 0 <= i < flows.len() && (#[trigger] flows[i]).key == key
}

/// Where the flow with a key stands.
pub open spec fn index_of(flows: Seq<FlowModel>, key: FlowKey) -> int {
    choose|i: int| 0 <= i < flows.len() && (#[trigger] flows[i]).key == key
}

/// Whether no two flows share a key.
pub open spec fn distinct_keys(flows: Seq<FlowModel>) -> bool {
    forall|i: int, j: int|
        0 <= i < j < flows.len() ==> (#[trigger] flows[i]).key != (#[trigger] flows[j]).key
}

/// The first of the least recently seen flows.
pub open spec fn oldest(flows: Seq<FlowModel>) -> int
    decreases flows.len(),
{
    if flows.len() <= 1 {
        0
    } else {
        let before = oldest(flows.drop_last());
        if flows.last().last_seen.nanos < flows[before].last_seen.nanos {
            flows.len() - 1
        } else {
            before
        }
    }
}

/// The flows that go when the `count` least recently seen ones are evicted, in
/// that order.
pub open spec fn evicted(flows: Seq<FlowModel>, count: nat) -> Seq<FlowModel>
    decreases count,
{
    if count == 0 || flows.len() == 0 {
        Seq::empty()
    } else {
        seq![flows[oldest(flows)]] + evicted(flows.remove(oldest(flows)), (count - 1) as nat)
    }
}

/// The flows that stay when the `count` least recently seen ones are evicted.
pub open spec fn spared(flows: Seq<FlowModel>, count: nat) -> Seq<FlowModel>
    decreases count,
{
    if count == 0 || flows.len() == 0 {
        flows
    } else {
        spared(flows.remove(oldest(flows)), (count - 1) as nat)
    }
}

/// What a flow table is.
pub struct TableModel {
    /// The live flows, in the order they were opened.
    pub flows: Seq<FlowModel>,
    /// The caps and timeouts.
    pub limits: Limits,
    /// The reassembly limits.
    pub config: ReassemblyConfig,
    /// Running totals.
    pub counters: FlowCounters,
    /// Flows that have ended and not yet been reported.
    pub ended: Seq<EndedModel>,
    /// Capture time of the last timeout sweep.
    pub last_sweep: Option<Timestamp>,
}

impl TableModel {
    /// Whether a flow has been idle past the timeout.
    pub open spec fn expires(self, flow: FlowModel, now: Timestamp) -> bool {
        flow.idle(now) >= self.limits.flow_timeout.nanos
    }

    /// The flows idle past the timeout.
    pub open spec fn expired(self, now: Timestamp) -> Seq<FlowModel> {
        self.flows.filter(|flow: FlowModel| self.expires(flow, now))
    }

    /// The table after a timeout sweep.
    pub open spec fn swept(self, now: Timestamp) -> TableModel {
        TableModel {
            flows: self.flows.filter(|flow: FlowModel| !self.expires(flow, now)),
            counters: FlowCounters {
                timed_out: (self.counters.timed_out + self.expired(now).len()) as u64,
                ..self.counters
            },
            ended: self.ended + reports(self.expired(now), EndReason::TimedOut),
            last_sweep: Some(now),
            ..self
        }
    }

    /// Whether enough capture time has passed for another sweep.
    pub open spec fn sweep_due(self, now: Timestamp) -> bool {
        match self.last_sweep {
            None => true,
            Some(last) => last.nanos <= now.nanos && now.nanos - last.nanos >= SWEEP_INTERVAL_NANOS,
        }
    }

    /// The table after a sweep, where one is due.
    pub open spec fn maybe_swept(self, now: Timestamp) -> TableModel {
        if self.sweep_due(now) {
            self.swept(now)
        } else {
            self
        }
    }

    /// Whether the table is inside both its flow count and its byte budget.
    pub open spec fn within_limits(self) -> bool {
        &&& self.flows.len() < self.limits.max_flows
        &&& total_buffered(self.flows) < self.config.max_stream_bytes_total
    }

    /// How many flows are evicted at once.
    pub open spec fn batch(self) -> nat {
        if self.limits.max_flows < EVICTION_BATCH_FRACTION {
            1
        } else {
            (self.limits.max_flows / EVICTION_BATCH_FRACTION) as nat
        }
    }

    /// The table after a batch of the least recently seen flows was evicted.
    pub open spec fn relieved(self) -> TableModel {
        TableModel {
            flows: spared(self.flows, self.batch()),
            counters: FlowCounters {
                evicted: (self.counters.evicted + evicted(self.flows, self.batch()).len()) as u64,
                ..self.counters
            },
            ended: self.ended + reports(evicted(self.flows, self.batch()), EndReason::Evicted),
            ..self
        }
    }

    /// The table with space for one more flow: as it is where it has space,
    /// swept where that frees some, and otherwise relieved of a batch too.
    pub open spec fn with_room(self, now: Timestamp) -> TableModel {
        if self.within_limits() {
            self
        } else if self.swept(now).within_limits() {
            self.swept(now)
        } else {
            self.swept(now).relieved()
        }
    }

    /// The table with the flow that a packet belongs to in it.
    pub open spec fn admitting(self, packet: PacketSummary) -> TableModel {
        let key = FlowKey::of(packet.protocol, packet.source, packet.destination);
        let swept = self.maybe_swept(packet.timestamp);
        if has_key(swept.flows, key) {
            swept
        } else {
            let roomy = swept.with_room(packet.timestamp);
            TableModel {
                flows: roomy.flows.push(FlowModel::opened(packet, self.config)),
                counters: FlowCounters {
                    created: (roomy.counters.created + 1) as u64,
                    ..roomy.counters
                },
                ..roomy
            }
        }
    }

    /// Whether a packet opens a flow.
    pub open spec fn opens(self, packet: PacketSummary) -> bool {
        !has_key(
            self.maybe_swept(packet.timestamp).flows,
            FlowKey::of(packet.protocol, packet.source, packet.destination),
        )
    }

    /// Where the flow that a packet belongs to stands, once it is in the table.
    pub open spec fn place(self, packet: PacketSummary) -> int {
        index_of(
            self.admitting(packet).flows,
            FlowKey::of(packet.protocol, packet.source, packet.destination),
        )
    }

    /// The flow that a packet belongs to, before the packet.
    pub open spec fn target(self, packet: PacketSummary) -> FlowModel {
        self.admitting(packet).flows[self.place(packet)]
    }

    /// The table after a packet, given the overlap policies of the responder
    /// and of the initiator.
    pub open spec fn observed(
        self,
        packet: PacketSummary,
        policy_to_server: OverlapPolicy,
        policy_to_client: OverlapPolicy,
    ) -> TableModel {
        let table = self.admitting(packet);
        let place = self.place(packet);
        let flow = self.target(packet);
        let after = flow.seen(packet, policy_to_server, policy_to_client);
        let ignored = packet.tcp is Some && packet.tcp->0.has_flag(flags::RST) && !flow.ends_with(
            packet,
            policy_to_server,
            policy_to_client,
        );
        let counted = FlowCounters {
            resets_ignored: (table.counters.resets_ignored + if ignored {
                1int
            } else {
                0
            }) as u64,
            ..table.counters
        };
        if after.closed() {
            TableModel {
                flows: table.flows.remove(place),
                counters: FlowCounters { closed: (counted.closed + 1) as u64, ..counted },
                ended: table.ended.push(after.ended(EndReason::Closed)),
                ..table
            }
        } else {
            TableModel { flows: table.flows.update(place, after), counters: counted, ..table }
        }
    }

    /// The table once the sensor stopped.
    pub open spec fn stopped(self) -> TableModel {
        TableModel {
            flows: Seq::empty(),
            ended: self.ended + reports(self.flows, EndReason::SensorStopped),
            ..self
        }
    }

    /// Whether every flow can end.
    pub open spec fn can_end(self) -> bool {
        forall|i: int| 0 <= i < self.flows.len() ==> (#[trigger] self.flows[i]).can_end()
    }

    /// Whether no total of the table is close to the end of its type.
    pub open spec fn counts_have_room(self) -> bool {
        &&& self.counters.created < u64::MAX
        &&& self.counters.closed < u64::MAX
        &&& self.counters.timed_out + self.flows.len() <= u64::MAX
        &&& self.counters.evicted + self.flows.len() <= u64::MAX
        &&& self.counters.resets_ignored < u64::MAX
    }

    /// Whether the table, each of its flows and the flow that the packet may
    /// open can take a packet.
    pub open spec fn has_room(self, packet: PacketSummary) -> bool {
        let len = packet.payload_len();
        &&& self.counts_have_room()
        &&& total_buffered(self.flows) + 2 * self.config.byte_limit() <= usize::MAX
        &&& FlowModel::opened(packet, self.config).has_room(len, packet.frame_len as int)
        &&& forall|i: int|
            0 <= i < self.flows.len() ==> (#[trigger] self.flows[i]).has_room(
                len,
                packet.frame_len as int,
            )
    }
}

/// A bounded table of live flows.
#[derive(Debug)]
pub struct FlowTable {
    /// The live flows, no two with one key.
    flows: Vec<Flow>,
    limits: Limits,
    reassembly: ReassemblyConfig,
    /// Running total of bytes held in reassembly buffers, maintained
    /// incrementally so the global cap costs nothing per packet.
    stream_bytes: usize,
    counters: FlowCounters,
    /// Flows that have ended and not yet been reported.
    ended: Vec<EndedFlow>,
    /// Capture-time of the last timeout sweep.
    last_sweep: Option<Timestamp>,
}

impl View for FlowTable {
    type V = TableModel;

    closed spec fn view(&self) -> TableModel {
        TableModel {
            flows: flow_models(self.flows@),
            limits: self.limits,
            config: self.reassembly,
            counters: self.counters,
            ended: ended_models(self.ended@),
            last_sweep: self.last_sweep,
        }
    }
}

impl FlowTable {
    /// The table's invariant: no two flows share a key, every flow keeps its own
    /// invariant and cap, the running byte total is right, and the flow cap is
    /// kept (a cap of zero still lets one flow in).
    pub closed spec fn well_formed(&self) -> bool {
        &&& forall|i: int| 0 <= i < self.flows@.len() ==> (#[trigger] self.flows@[i]).well_formed()
        &&& forall|i: int|
            0 <= i < self@.flows.len() ==> (#[trigger] self@.flows[i]).capped_at(
                self.reassembly.byte_limit(),
            )
        &&& distinct_keys(self@.flows)
        &&& self.stream_bytes == total_buffered(self@.flows)
        &&& self@.flows.len() <= self.limits.max_flows || self@.flows.len() <= 1
    }

    /// There are never more flows than the cap allows, or than one where the cap is
    /// zero, and no two of them are the same conversation.
    pub proof fn law_the_table_stays_within_its_cap(&self)
        requires
            self.well_formed(),
        ensures
            distinct_keys(self@.flows),
            self@.flows.len() <= self@.limits.max_flows || self@.flows.len() <= 1,
            0 <= total_buffered(self@.flows) <= usize::MAX,
    {
    }

    /// What a table buffers is bounded whatever arrives: no flow holds more than two
    /// windows, one per direction, and the table no more than that for each flow.
    pub proof fn law_the_bytes_held_are_bounded(&self)
        requires
            self.well_formed(),
        ensures
            forall|i: int|
                0 <= i < self@.flows.len() ==> 0 <= (#[trigger] self@.flows[i]).buffered() <= 2
                    * self@.config.byte_limit(),
            total_buffered(self@.flows) <= self@.flows.len() * (2 * self@.config.byte_limit()),
    {
        let window = self@.config.byte_limit();
        assert forall|i: int| 0 <= i < self@.flows.len() implies 0 <= (
        #[trigger] self@.flows[i]).buffered() <= 2 * window by {
            assert(self@.flows[i] == self.flows@[i]@);
            assert(self.flows@[i].well_formed());
            lemma_capped_buffers(self.flows@[i], window);
        }
        lemma_total_bound(self@.flows, 2 * window);
    }

    /// Build a table under `limits`.
    pub fn new(limits: Limits) -> (table: Self)
        ensures
            table.well_formed(),
            table@.flows == Seq::<FlowModel>::empty(),
            table@.limits == limits,
            table@.counters == FlowCounters::zero(),
            table@.ended == Seq::<EndedModel>::empty(),
            table@.last_sweep is None,
            table@.config.max_stream_bytes_per_flow == 1_048_576,
            table@.config.max_stream_bytes_total == 536_870_912,
            table@.config.delivery_flush_bytes == 65_536,
    {
        Self::with_reassembly(limits, ReassemblyConfig::default())
    }

    /// Build a table with explicit reassembly limits.
    pub fn with_reassembly(limits: Limits, reassembly: ReassemblyConfig) -> (table: Self)
        ensures
            table.well_formed(),
            table@ == TableModel::fresh(limits, reassembly),
    {
        let table = Self {
            flows: Vec::new(),
            limits,
            reassembly,
            stream_bytes: 0,
            counters: FlowCounters::default(),
            ended: Vec::new(),
            last_sweep: None,
        };
        assert(table@.flows =~= Seq::<FlowModel>::empty());
        assert(table@.ended =~= Seq::<EndedModel>::empty());
        table
    }

    /// Flows currently tracked.
    pub fn len(&self) -> (count: usize)
        ensures
            count == self@.flows.len(),
    {
        self.flows.len()
    }

    /// Whether the table is empty.
    pub fn is_empty(&self) -> (empty: bool)
        ensures
            empty == (self@.flows.len() == 0),
    {
        self.flows.len() == 0
    }

    /// Maximum flows the table will hold.
    pub fn capacity(&self) -> (capacity: usize)
        ensures
            capacity == self@.limits.max_flows,
    {
        self.limits.max_flows
    }

    /// Running totals.
    pub fn counters(&self) -> (counters: FlowCounters)
        ensures
            counters == self@.counters,
    {
        self.counters
    }

    /// Flows that have ended and not yet been reported.
    ///
    /// The caller drains this after `observe`, `sweep`, or `flush` and emits an
    /// event for each.
    pub fn ended_mut(&mut self) -> (ended: &mut Vec<EndedFlow>)
        ensures
            ended_models(ended@) == old(self)@.ended,
            final(self)@ == (TableModel { ended: ended_models(final(ended)@), ..old(self)@ }),
            old(self).well_formed() ==> final(self).well_formed(),
    {
        &mut self.ended
    }

    /// Bytes held across every flow's reassembly buffers.
    pub fn buffered_bytes(&self) -> (held: usize)
        requires
            self.well_formed(),
        ensures
            held == total_buffered(self@.flows),
    {
        self.stream_bytes
    }

    /// Move a flow out of the table, flushing whatever it can still deliver.
    fn end_flow(&mut self, flow: Flow, reason: EndReason)
        requires
            flow.well_formed(),
            flow@.can_end(),
            0 <= flow@.buffered() <= old(self).stream_bytes,
        ensures
            final(self).flows == old(self).flows,
            final(self).limits == old(self).limits,
            final(self).reassembly == old(self).reassembly,
            final(self).counters == old(self).counters,
            final(self).last_sweep == old(self).last_sweep,
            final(self).stream_bytes == old(self).stream_bytes - flow@.buffered(),
            ended_models(final(self).ended@) == ended_models(old(self).ended@).push(
                flow@.ended(reason),
            ),
    {
        // Read the byte total *before* flushing: flushing empties the buffers,
        // so measuring afterwards would always subtract zero and the global
        // counter would ratchet upwards for ever.
        let ghost before = flow@;
        let mut flow = flow;
        let released: usize = flow.buffered_bytes();
        let mut final_ready = StreamReady::default();
        if let Some(streams) = &mut flow.streams {
            streams.flush(&mut final_ready);
        }
        self.stream_bytes = self.stream_bytes.saturating_sub(released);
        let ended = EndedFlow { flow, reason, final_ready };
        proof {
            assert(ended@.to_server =~= before.ended(reason).to_server);
            assert(ended@.to_client =~= before.ended(reason).to_client);
            assert(ended@ == before.ended(reason));
        }
        self.ended.push(ended);
        assert(ended_models(self.ended@) =~= ended_models(old(self).ended@).push(
            before.ended(reason),
        ));
    }
}

impl Flow {
    /// Open a flow for a packet.
    fn open(packet: &PacketSummary<'_>, reassembly: &ReassemblyConfig) -> (flow: Self)
        ensures
            flow.well_formed(),
            flow@ == FlowModel::opened(*packet, *reassembly),
    {
        let key = FlowKey::new(packet.protocol, packet.source, packet.destination);
        Flow {
            id: derive_flow_id(&key, packet.timestamp),
            key,
            initiator: packet.source,
            start: packet.timestamp,
            last_seen: packet.timestamp,
            to_server: DirectionCounters::default(),
            to_client: DirectionCounters::default(),
            tcp_flags_seen: 0,
            fin_from_initiator: false,
            fin_from_responder: false,
            saw_reset: false,
            streams: if packet.protocol == TCP_PROTOCOL {
                Some(StreamPair::new(reassembly))
            } else {
                None
            },
        }
    }

    /// Take in one of the flow's packets. Returns whether the packet carried a
    /// reset that the destination would not have acted on.
    fn note(
        &mut self,
        packet: &PacketSummary<'_>,
        policy_to_server: OverlapPolicy,
        policy_to_client: OverlapPolicy,
        ready: &mut StreamReady,
    ) -> (ignored: bool)
        requires
            old(self).well_formed(),
            old(self)@.has_room(packet.payload_len(), packet.frame_len as int),
        ensures
            final(self).well_formed(),
            final(self)@ == old(self)@.seen(*packet, policy_to_server, policy_to_client),
            final(self)@.can_end(),
            forall|byte_limit: int| #[trigger]
                old(self)@.capped_at(byte_limit) ==> final(self)@.capped_at(byte_limit),
            ignored == (packet.tcp is Some && packet.tcp->0.has_flag(flags::RST) && !old(
                self,
            )@.ends_with(*packet, policy_to_server, policy_to_client)),
            final(ready).to_server@ == old(ready).to_server@ + old(self)@.handed_over(
                *packet,
                policy_to_server,
                policy_to_client,
            ).0,
            final(ready).to_client@ == old(ready).to_client@ + old(self)@.handed_over(
                *packet,
                policy_to_server,
                policy_to_client,
            ).1,
    {
        let ghost before = *self;
        let to_server = same_endpoint(&packet.source, &self.initiator);
        if to_server {
            self.to_server.packets = self.to_server.packets + 1;
            self.to_server.bytes = self.to_server.bytes + packet.frame_len as u64;
        } else {
            self.to_client.packets = self.to_client.packets + 1;
            self.to_client.bytes = self.to_client.bytes + packet.frame_len as u64;
        }

        // Capture timestamps are not guaranteed monotonic (multiple queues, a
        // stepped clock), so never let `last_seen` go backwards — a flow that
        // appears to end before it started would produce nonsense durations.
        if packet.timestamp.nanos > self.last_seen.nanos {
            self.last_seen = packet.timestamp;
        }
        assert(old(ready).to_server@ + Seq::<u8>::empty() =~= old(ready).to_server@);
        assert(old(ready).to_client@ + Seq::<u8>::empty() =~= old(ready).to_client@);
        let mut ignored: bool = false;
        if let Some(segment) = &packet.tcp {
            self.tcp_flags_seen = self.tcp_flags_seen | segment.flags;
            if segment.has(flags::FIN) {
                if to_server {
                    self.fin_from_initiator = true;
                } else {
                    self.fin_from_responder = true;
                }
            }
            let reset = segment.has(flags::RST);
            let mut believed: bool = true;
            if let Some(streams) = &mut self.streams {
                proof {
                    streams.law_no_direction_exceeds_its_cap();
                }
                streams.push(to_server, segment, policy_to_server, policy_to_client, ready);

                // A reset only ends the connection if the destination would
                // have acted on it. Believing a forged one stops the sensor
                // watching a live conversation, which is the whole point of the
                // technique.
                if reset {
                    believed = streams.rst_should_close(to_server, segment.sequence);
                }
            }
            if reset {
                if believed {
                    self.saw_reset = true;
                } else {
                    ignored = true;
                }
            }
        }
        proof {
            if before.streams is Some {
                before.streams->0.law_no_direction_exceeds_its_cap();
            }
            assert(self@.streams == before@.seen(
                *packet,
                policy_to_server,
                policy_to_client,
            ).streams);
        }
        ignored
    }
}

impl FlowModel {
    /// The stream bytes that a packet of the flow hands over, per direction.
    pub open spec fn handed_over(
        self,
        packet: PacketSummary,
        policy_to_server: OverlapPolicy,
        policy_to_client: OverlapPolicy,
    ) -> (Seq<u8>, Seq<u8>) {
        if packet.tcp is Some && self.streams is Some {
            let taken = self.taken(packet, policy_to_server, policy_to_client);
            (taken.to_server.delivery(false), taken.to_client.delivery(false))
        } else {
            (Seq::empty(), Seq::empty())
        }
    }
}

proof fn lemma_total_take(flows: Seq<FlowModel>, k: int)
    requires
        0 <= k <= flows.len(),
    ensures
        0 <= total_buffered(flows.take(k)) <= total_buffered(flows),
    decreases flows.len(),
{
    if flows.len() == 0 {
        assert(flows.take(k) =~= flows);
    } else if k == flows.len() {
        assert(flows.take(k) =~= flows);
        lemma_total_take(flows.drop_last(), k - 1);
        assert(flows.drop_last().take(k - 1) =~= flows.drop_last());
    } else {
        lemma_total_take(flows.drop_last(), k);
        assert(flows.drop_last().take(k) =~= flows.take(k));
        assert(flows.drop_last().take(flows.len() - 1) =~= flows.drop_last());
    }
}

proof fn lemma_total_bound(flows: Seq<FlowModel>, each: int)
    requires
        forall|i: int| 0 <= i < flows.len() ==> (#[trigger] flows[i]).buffered() <= each,
    ensures
        total_buffered(flows) <= flows.len() * each,
    decreases flows.len(),
{
    if flows.len() > 0 {
        let rest = flows.drop_last();
        assert forall|i: int| 0 <= i < rest.len() implies (#[trigger] rest[i]).buffered()
            <= each by {
            assert(rest[i] == flows[i]);
        }
        lemma_total_bound(rest, each);
        assert(flows.last() == flows[flows.len() - 1]);
        assert(flows.len() * each == rest.len() * each + each) by (nonlinear_arith)
            requires
                flows.len() == rest.len() + 1,
        ;
    }
}

proof fn lemma_total_remove(flows: Seq<FlowModel>, k: int)
    requires
        0 <= k < flows.len(),
    ensures
        total_buffered(flows.remove(k)) == total_buffered(flows) - flows[k].buffered(),
        0 <= flows[k].buffered() <= total_buffered(flows),
    decreases flows.len(),
{
    if k == flows.len() - 1 {
        assert(flows.remove(k) =~= flows.drop_last());
        lemma_total_take(flows, k);
        assert(flows.take(k) =~= flows.drop_last());
    } else {
        lemma_total_remove(flows.drop_last(), k);
        assert(flows.remove(k).drop_last() =~= flows.drop_last().remove(k));
        assert(flows.remove(k).last() == flows.last());
    }
}

proof fn lemma_total_update(flows: Seq<FlowModel>, k: int, flow: FlowModel)
    requires
        0 <= k < flows.len(),
    ensures
        total_buffered(flows.update(k, flow)) == total_buffered(flows) - flows[k].buffered()
            + flow.buffered(),
    decreases flows.len(),
{
    if k == flows.len() - 1 {
        assert(flows.update(k, flow).drop_last() =~= flows.drop_last());
    } else {
        lemma_total_update(flows.drop_last(), k, flow);
        assert(flows.update(k, flow).drop_last() =~= flows.drop_last().update(k, flow));
    }
}

proof fn lemma_filter_step(
    flows: Seq<FlowModel>,
    k: int,
    p: spec_fn(FlowModel) -> bool,
)
    requires
        0 <= k < flows.len(),
    ensures
        flows.take(k + 1).filter(p) == (if p(flows[k]) {
            flows.take(k).filter(p).push(flows[k])
        } else {
            flows.take(k).filter(p)
        }),
{
    reveal(Seq::filter);
    assert(flows.take(k + 1).drop_last() =~= flows.take(k));
    assert(flows.take(k + 1).last() == flows[k]);
}

/// What a filter keeps: fewer flows, all of them from the unfiltered ones, with
/// fewer bytes and with distinct keys still.
proof fn lemma_filter_facts(flows: Seq<FlowModel>, p: spec_fn(FlowModel) -> bool)
    ensures
        flows.filter(p).len() <= flows.len(),
        forall|i: int|
            0 <= i < flows.filter(p).len() ==> flows.contains(#[trigger] flows.filter(p)[i]),
        forall|i: int| 0 <= i < flows.filter(p).len() ==> p(#[trigger] flows.filter(p)[i]),
        0 <= total_buffered(flows.filter(p)) <= total_buffered(flows),
        distinct_keys(flows) ==> distinct_keys(flows.filter(p)),
    decreases flows.len(),
{
    reveal(Seq::filter);
    if flows.len() > 0 {
        let init = flows.drop_last();
        lemma_filter_facts(init, p);
        assert forall|i: int| 0 <= i < flows.filter(p).len() implies flows.contains(
            #[trigger] flows.filter(p)[i],
        ) by {
            if i < init.filter(p).len() {
                assert(init.contains(init.filter(p)[i]));
                let j = choose|j: int| 0 <= j < init.len() && init[j] == init.filter(p)[i];
                assert(flows[j] == flows.filter(p)[i]);
            } else {
                assert(flows[flows.len() - 1] == flows.filter(p)[i]);
            }
        }
        if p(flows.last()) {
            assert(flows.filter(p).drop_last() =~= init.filter(p));
        }
        if distinct_keys(flows) {
            assert forall|i: int, j: int| 0 <= i < j < init.len() implies (#[trigger] init[i]).key
                != (#[trigger] init[j]).key by {
                assert(flows[i].key != flows[j].key);
            }
            assert forall|i: int, j: int| 0 <= i < j < flows.filter(p).len() implies (
            #[trigger] flows.filter(p)[i]).key != (#[trigger] flows.filter(p)[j]).key by {
                if j < init.filter(p).len() {
                    assert(init.filter(p)[i].key != init.filter(p)[j].key);
                } else {
                    assert(init.contains(init.filter(p)[i]));
                    let k = choose|k: int| 0 <= k < init.len() && init[k] == init.filter(p)[i];
                    assert(flows[k].key != flows[flows.len() - 1].key);
                }
            }
        }
    }
}

proof fn lemma_oldest(flows: Seq<FlowModel>)
    requires
        flows.len() > 0,
    ensures
        0 <= oldest(flows) < flows.len(),
        forall|i: int|
            0 <= i < flows.len() ==> flows[oldest(flows)].last_seen.nanos <= (
            #[trigger] flows[i]).last_seen.nanos,
        forall|i: int|
            0 <= i < oldest(flows) ==> flows[oldest(flows)].last_seen.nanos < (
            #[trigger] flows[i]).last_seen.nanos,
    decreases flows.len(),
{
    if flows.len() > 1 {
        let init = flows.drop_last();
        lemma_oldest(init);
        assert forall|i: int| 0 <= i < flows.len() implies flows[oldest(flows)].last_seen.nanos <= (
        #[trigger] flows[i]).last_seen.nanos by {
            if i < init.len() {
                assert(init[i] == flows[i]);
            }
        }
        assert forall|i: int| 0 <= i < oldest(flows) implies flows[oldest(flows)].last_seen.nanos
            < (#[trigger] flows[i]).last_seen.nanos by {
            if i < init.len() {
                assert(init[i] == flows[i]);
            }
        }
    }
}

proof fn lemma_distinct_remove(flows: Seq<FlowModel>, k: int)
    requires
        distinct_keys(flows),
        0 <= k < flows.len(),
    ensures
        distinct_keys(flows.remove(k)),
        !has_key(flows.remove(k), flows[k].key),
{
    let rest = flows.remove(k);
    assert forall|i: int, j: int| 0 <= i < j < rest.len() implies (#[trigger] rest[i]).key != (
    #[trigger] rest[j]).key by {
        let a = if i < k { i } else { i + 1 };
        let b = if j < k { j } else { j + 1 };
        assert(flows[a].key != flows[b].key);
    }
    if has_key(rest, flows[k].key) {
        let i = choose|i: int| 0 <= i < rest.len() && (#[trigger] rest[i]).key == flows[k].key;
        let a = if i < k { i } else { i + 1 };
        assert(flows[a] == rest[i]);
        if a < k {
            assert(flows[a].key != flows[k].key);
        } else {
            assert(flows[k].key != flows[a].key);
        }
    }
}

proof fn lemma_index(flows: Seq<FlowModel>, k: int)
    requires
        distinct_keys(flows),
        0 <= k < flows.len(),
    ensures
        has_key(flows, flows[k].key),
        index_of(flows, flows[k].key) == k,
{
    let i = index_of(flows, flows[k].key);
    assert(0 <= i < flows.len() && flows[i].key == flows[k].key);
    if i < k {
        assert(flows[i].key != flows[k].key);
    } else if k < i {
        assert(flows[k].key != flows[i].key);
    }
}

impl FlowTable {
    /// Expire flows idle past the timeout, if a sweep is due.
    fn maybe_sweep(&mut self, now: Timestamp)
        requires
            old(self).well_formed(),
            old(self)@.can_end(),
            old(self)@.counters.timed_out + old(self)@.flows.len() <= u64::MAX,
        ensures
            final(self).well_formed(),
            final(self)@ == old(self)@.maybe_swept(now),
    {
        let due = match self.last_sweep {
            None => true,
            Some(last) => match now.duration_since(last) {
                Some(elapsed) => elapsed.nanos >= SWEEP_INTERVAL_NANOS,
                None => false,
            },
        };
        if due {
            self.sweep(now);
        }
    }

    /// Expire every flow idle past [`Limits::flow_timeout`].
    pub fn sweep(&mut self, now: Timestamp)
        requires
            old(self).well_formed(),
            old(self)@.can_end(),
            old(self)@.counters.timed_out + old(self)@.flows.len() <= u64::MAX,
        ensures
            final(self).well_formed(),
            final(self)@ == old(self)@.swept(now),
    {
        let ghost before = *self;
        let ghost models = self@.flows;
        let ghost goes = |flow: FlowModel| before@.expires(flow, now);
        let ghost stays = |flow: FlowModel| !before@.expires(flow, now);
        self.last_sweep = Some(now);
        let timeout: u128 = self.limits.flow_timeout.nanos;
        let mut flows: Vec<Flow> = Vec::new();
        std::mem::swap(&mut flows, &mut self.flows);
        let ghost all = flows@;
        assert(flow_models(all) == models);
        proof {
            reveal(Seq::filter);
            assert(models.take(0) =~= Seq::<FlowModel>::empty());
            assert(flow_models(self.flows@) =~= Seq::<FlowModel>::empty());
            assert(ended_models(self.ended@) + reports(
                models.take(0).filter(goes),
                EndReason::TimedOut,
            ) =~= ended_models(self.ended@));
        }
        for flow in it: flows
            invariant
                it.seq() == all,
                before.well_formed(),
                before@.can_end(),
                before@.counters.timed_out + all.len() <= u64::MAX,
                models == before@.flows,
                models == flow_models(all),
                all == before.flows@,
                goes == (|flow: FlowModel| before@.expires(flow, now)),
                stays == (|flow: FlowModel| !before@.expires(flow, now)),
                timeout == before@.limits.flow_timeout.nanos,
                self.limits == before.limits,
                self.reassembly == before.reassembly,
                self.last_sweep == Some(now),
                self.counters == (FlowCounters {
                    timed_out: (before.counters.timed_out + models.take(it.index() as int).filter(
                        goes,
                    ).len()) as u64,
                    ..before.counters
                }),
                flow_models(self.flows@) == models.take(it.index() as int).filter(stays),
                ended_models(self.ended@) == ended_models(before.ended@) + reports(
                    models.take(it.index() as int).filter(goes),
                    EndReason::TimedOut,
                ),
                forall|i: int|
                    0 <= i < self.flows@.len() ==> (#[trigger] self.flows@[i]).well_formed(),
                self.stream_bytes == total_buffered(models) - total_buffered(
                    models.take(it.index() as int).filter(goes),
                ),
                total_buffered(models.take(it.index() as int)) == total_buffered(
                    models.take(it.index() as int).filter(goes),
                ) + total_buffered(models.take(it.index() as int).filter(stays)),
        {
            let ghost k = it.index() as int;
            let ghost gone = models.take(k).filter(goes);
            let ghost kept = models.take(k).filter(stays);
            proof {
                assert(flow == all[k]);
                assert(models[k] == flow@);
                assert(models[k].can_end());
                assert(before.flows@[k].well_formed());
                lemma_filter_step(models, k, goes);
                lemma_filter_step(models, k, stays);
                lemma_total_take(models, k + 1);
                assert(models.take(k + 1).drop_last() =~= models.take(k));
                assert(models.take(k + 1).last() == flow@);
                lemma_filter_facts(models.take(k), goes);
                lemma_filter_facts(models.take(k), stays);
                assert(gone.push(flow@).drop_last() =~= gone);
                assert(kept.push(flow@).drop_last() =~= kept);
            }
            let idle: u128 = match now.duration_since(flow.last_seen) {
                Some(elapsed) => elapsed.nanos,
                None => 0,
            };
            if idle >= timeout {
                assert(goes(flow@));
                self.counters.timed_out = self.counters.timed_out + 1;
                self.end_flow(flow, EndReason::TimedOut);
                assert(reports(gone, EndReason::TimedOut).push(flow@.ended(EndReason::TimedOut))
                    =~= reports(gone.push(flow@), EndReason::TimedOut));
                assert(ended_models(self.ended@) =~= ended_models(before.ended@) + reports(
                    gone.push(flow@),
                    EndReason::TimedOut,
                ));
            } else {
                assert(stays(flow@));
                self.flows.push(flow);
                assert(flow_models(self.flows@) =~= kept.push(flow@));
            }
        }
        proof {
            assert(models.take(models.len() as int) =~= models);
            lemma_filter_facts(models, stays);
            assert(self@.flows == before@.swept(now).flows);
            assert(self@.ended == before@.swept(now).ended);
            assert forall|i: int| 0 <= i < self@.flows.len() implies (
            #[trigger] self@.flows[i]).capped_at(self.reassembly.byte_limit()) by {
                assert(models.contains(models.filter(stays)[i]));
                let j = choose|j: int| 0 <= j < models.len() && models[j] == models.filter(stays)[i];
                assert(models[j].capped_at(self.reassembly.byte_limit()));
            }
        }
    }

    /// Whether the table is inside both its flow count and byte budgets.
    ///
    /// Two separate ceilings: an attacker can exhaust either a few flows each
    /// holding a lot, or many flows each holding a little.
    fn within_limits(&self) -> (within: bool)
        requires
            self.well_formed(),
        ensures
            within == self@.within_limits(),
    {
        self.flows.len() < self.limits.max_flows && self.stream_bytes
            < self.reassembly.max_stream_bytes_total
    }

    /// Find the first of the least recently seen flows.
    fn oldest_flow(&self) -> (place: usize)
        requires
            self.flows@.len() > 0,
        ensures
            place == oldest(self@.flows),
            place < self.flows@.len(),
    {
        let mut place: usize = 0;
        let mut i: usize = 1;
        let ghost models = self@.flows;
        assert(oldest(models.take(1)) == 0);
        while i < self.flows.len()
            invariant
                models == self@.flows,
                1 <= i <= models.len(),
                place < i,
                place == oldest(models.take(i as int)),
            decreases models.len() - i,
        {
            assert(models.take(i + 1).drop_last() =~= models.take(i as int));
            assert(models.take(i + 1).last() == models[i as int]);
            assert(models.take(i + 1)[place as int] == models[place as int]);
            assert(self.flows@[i as int]@ == models[i as int]);
            assert(self.flows@[place as int]@ == models[place as int]);
            if self.flows[i].last_seen.nanos < self.flows[place].last_seen.nanos {
                place = i;
            }
            i = i + 1;
        }
        assert(models.take(i as int) =~= models);
        place
    }

    /// Evict a batch of the least recently seen flows.
    fn relieve(&mut self)
        requires
            old(self).well_formed(),
            old(self)@.can_end(),
            old(self)@.counters.evicted + old(self)@.flows.len() <= u64::MAX,
        ensures
            final(self).well_formed(),
            final(self)@ == old(self)@.relieved(),
            final(self)@.flows.len() < old(self)@.flows.len() || final(self)@.flows.len() == 0,
            forall|i: int|
                0 <= i < final(self)@.flows.len() ==> old(self)@.flows.contains(
                    #[trigger] final(self)@.flows[i],
                ),
            total_buffered(final(self)@.flows) <= total_buffered(old(self)@.flows),
    {
        let ghost before = *self;
        let ghost models = self@.flows;
        let tenth: usize = self.limits.max_flows / EVICTION_BATCH_FRACTION;
        let batch: usize = if tenth == 0 {
            1
        } else {
            tenth
        };
        assert(batch == before@.batch());
        let ghost mut gone: Seq<FlowModel> = Seq::empty();
        let mut done: usize = 0;
        proof {
            assert(gone + evicted(models, batch as nat) =~= evicted(models, batch as nat));
            assert(ended_models(self.ended@) + reports(gone, EndReason::Evicted) =~= ended_models(
                self.ended@,
            ));
            assert forall|i: int| 0 <= i < models.len() implies models.contains(
                #[trigger] models[i],
            ) by {}
        }
        while done < batch && self.flows.len() > 0
            invariant
                self.well_formed(),
                self@.can_end(),
                batch == before@.batch(),
                1 <= batch,
                done <= batch,
                models == before@.flows,
                self@.limits == before@.limits,
                self@.config == before@.config,
                self@.last_sweep == before@.last_sweep,
                before@.counters.evicted + models.len() <= u64::MAX,
                gone.len() + self@.flows.len() == models.len(),
                self@.counters == (FlowCounters {
                    evicted: (before@.counters.evicted + gone.len()) as u64,
                    ..before@.counters
                }),
                self@.ended == before@.ended + reports(gone, EndReason::Evicted),
                gone + evicted(self@.flows, (batch - done) as nat) == evicted(models, batch as nat),
                spared(self@.flows, (batch - done) as nat) == spared(models, batch as nat),
                done > 0 ==> gone.len() > 0,
                forall|i: int|
                    0 <= i < self@.flows.len() ==> models.contains(#[trigger] self@.flows[i]),
                total_buffered(self@.flows) <= total_buffered(models),
            decreases batch - done,
        {
            let place: usize = self.oldest_flow();
            let ghost current = self@.flows;
            let ghost flows_before = self.flows@;
            proof {
                lemma_total_remove(current, place as int);
                lemma_distinct_remove(current, place as int);
                assert(self.flows@[place as int].well_formed());
                assert(current[place as int] == self.flows@[place as int]@);
                assert(current[place as int].can_end());
            }
            let flow = self.flows.remove(place);
            assert(flow_models(self.flows@) =~= current.remove(place as int));
            self.counters.evicted = self.counters.evicted + 1;
            self.end_flow(flow, EndReason::Evicted);
            proof {
                let next = gone.push(flow@);
                assert(reports(gone, EndReason::Evicted).push(flow@.ended(EndReason::Evicted))
                    =~= reports(next, EndReason::Evicted));
                assert(self@.ended =~= before@.ended + reports(next, EndReason::Evicted));
                let rest = current.remove(place as int);
                assert(gone + (seq![flow@] + evicted(rest, (batch - done - 1) as nat)) =~= next
                    + evicted(rest, (batch - done - 1) as nat));
                assert forall|i: int| 0 <= i < rest.len() implies models.contains(#[trigger] rest[i])
                    && rest[i].can_end() && rest[i].capped_at(self.reassembly.byte_limit()) by {
                    let j = if i < place { i } else { i + 1 };
                    assert(rest[i] == current[j]);
                    assert(current[j].can_end());
                    assert(current[j].capped_at(self.reassembly.byte_limit()));
                }
                assert forall|i: int| 0 <= i < self.flows@.len() implies (
                #[trigger] self.flows@[i]).well_formed() by {
                    let j = if i < place { i } else { i + 1 };
                    assert(self.flows@[i] == flows_before[j]);
                    assert(flows_before[j].well_formed());
                }
                gone = next;
            }
            done = done + 1;
        }
        proof {
            assert(gone + Seq::<FlowModel>::empty() =~= gone);
        }
    }

    /// Make space for one more flow, evicting a batch if the table is full.
    fn make_room(&mut self, now: Timestamp)
        requires
            old(self).well_formed(),
            old(self)@.can_end(),
            old(self)@.counts_have_room(),
        ensures
            final(self).well_formed(),
            final(self)@ == old(self)@.with_room(now),
            final(self)@.flows.len() < old(self)@.limits.max_flows || final(self)@.flows.len() == 0,
            forall|i: int|
                0 <= i < final(self)@.flows.len() ==> old(self)@.flows.contains(
                    #[trigger] final(self)@.flows[i],
                ),
            total_buffered(final(self)@.flows) <= total_buffered(old(self)@.flows),
    {
        let ghost models = self@.flows;
        if self.within_limits() {
            return;
        }

        // A timeout sweep may free everything needed without losing a live flow.
        let ghost stays = |flow: FlowModel| !old(self)@.expires(flow, now);
        proof {
            lemma_filter_facts(models, stays);
        }
        self.sweep(now);
        proof {
            assert(self@.flows == models.filter(stays));
            assert forall|i: int| 0 <= i < self@.flows.len() implies (
            #[trigger] self@.flows[i]).can_end() by {
                assert(models.contains(models.filter(stays)[i]));
                let j = choose|j: int| 0 <= j < models.len() && models[j] == self@.flows[i];
                assert(models[j].can_end());
            }
        }
        if self.within_limits() {
            return;
        }

        // Still full: evict the least recently seen. This is where the sensor
        // starts losing visibility, so it is counted and surfaced.
        let ghost middle = self@.flows;
        self.relieve();
        proof {
            assert forall|i: int| 0 <= i < self@.flows.len() implies models.contains(
                #[trigger] self@.flows[i],
            ) by {
                assert(middle.contains(self@.flows[i]));
                let j = choose|j: int| 0 <= j < middle.len() && middle[j] == self@.flows[i];
                assert(models.contains(models.filter(stays)[j]));
            }
        }
    }

    /// End every remaining flow, for shutdown or end of capture.
    pub fn flush(&mut self)
        requires
            old(self).well_formed(),
            old(self)@.can_end(),
        ensures
            final(self).well_formed(),
            final(self)@ == old(self)@.stopped(),
    {
        let ghost before = *self;
        let ghost models = self@.flows;
        let mut flows: Vec<Flow> = Vec::new();
        std::mem::swap(&mut flows, &mut self.flows);
        let ghost all = flows@;
        proof {
            assert(models.take(0) =~= Seq::<FlowModel>::empty());
            assert(ended_models(self.ended@) + reports(models.take(0), EndReason::SensorStopped)
                =~= ended_models(self.ended@));
        }
        for flow in it: flows
            invariant
                it.seq() == all,
                before.well_formed(),
                before@.can_end(),
                all == before.flows@,
                models == before@.flows,
                models == flow_models(all),
                self.flows@ == Seq::<Flow>::empty(),
                self.limits == before.limits,
                self.reassembly == before.reassembly,
                self.last_sweep == before.last_sweep,
                self.counters == before.counters,
                ended_models(self.ended@) == ended_models(before.ended@) + reports(
                    models.take(it.index() as int),
                    EndReason::SensorStopped,
                ),
                self.stream_bytes == total_buffered(models) - total_buffered(
                    models.take(it.index() as int),
                ),
        {
            let ghost k = it.index() as int;
            proof {
                assert(flow == all[k]);
                assert(models[k] == flow@);
                assert(models[k].can_end());
                assert(before.flows@[k].well_formed());
                lemma_total_take(models, k + 1);
                lemma_total_take(models, k);
                assert(models.take(k + 1).drop_last() =~= models.take(k));
                assert(models.take(k + 1).last() == flow@);
            }
            self.end_flow(flow, EndReason::SensorStopped);
            proof {
                assert(models.take(k + 1) =~= models.take(k).push(flow@));
                assert(reports(models.take(k), EndReason::SensorStopped).push(
                    flow@.ended(EndReason::SensorStopped),
                ) =~= reports(models.take(k + 1), EndReason::SensorStopped));
                assert(ended_models(self.ended@) =~= ended_models(before.ended@) + reports(
                    models.take(k + 1),
                    EndReason::SensorStopped,
                ));
            }
        }
        proof {
            assert(models.take(models.len() as int) =~= models);
            assert(self@.flows =~= Seq::<FlowModel>::empty());
        }
    }
}

/// Whether two overlap policies are what a policy source may answer for the
/// responder and the initiator of a flow. Only a packet with a TCP segment
/// makes the table ask.
pub open spec fn answers<F: Fn(IpAddr) -> OverlapPolicy>(
    policy: F,
    packet: PacketSummary,
    flow: FlowModel,
    policy_to_server: OverlapPolicy,
    policy_to_client: OverlapPolicy,
) -> bool {
    packet.tcp is Some ==> {
        &&& call_ensures(policy, (flow.responder().0,), policy_to_server)
        &&& call_ensures(policy, (flow.initiator.0,), policy_to_client)
    }
}

impl FlowTable {
    /// Find the flow with a key.
    fn find(&self, key: &FlowKey) -> (place: Option<usize>)
        requires
            self.well_formed(),
        ensures
            place is Some <==> has_key(self@.flows, *key),
            place matches Some(i) ==> i < self.flows@.len() && self@.flows[i as int].key == *key
                && i == index_of(self@.flows, *key),
    {
        let ghost models = self@.flows;
        let mut i: usize = 0;
        while i < self.flows.len()
            invariant
                self.well_formed(),
                models == self@.flows,
                i <= models.len(),
                forall|j: int| 0 <= j < i ==> (#[trigger] models[j]).key != *key,
            decreases models.len() - i,
        {
            assert(self.flows@[i as int]@ == models[i as int]);
            if self.flows[i].key.same(key) {
                proof {
                    lemma_index(models, i as int);
                }
                return Some(i);
            }
            i = i + 1;
        }
        None
    }

    /// Put the flow that a packet belongs to into the table, and say where it
    /// stands and whether it is new.
    fn enter(&mut self, packet: &PacketSummary<'_>) -> (admitted: (usize, bool))
        requires
            old(self).well_formed(),
            old(self)@.has_room(*packet),
        ensures
            final(self).well_formed(),
            final(self)@ == old(self)@.admitting(*packet),
            admitted.0 == old(self)@.place(*packet),
            admitted.1 == old(self)@.opens(*packet),
            admitted.0 < final(self).flows@.len(),
            final(self)@.flows[admitted.0 as int].has_room(
                packet.payload_len(),
                packet.frame_len as int,
            ),
            total_buffered(final(self)@.flows) + 2 * final(self)@.config.byte_limit() <= usize::MAX,
            final(self)@.counters.closed < u64::MAX,
            final(self)@.counters.resets_ignored < u64::MAX,
    {
        let ghost start = self@;
        let ghost models = self@.flows;
        let ghost now = packet.timestamp;
        let ghost stays = |flow: FlowModel| !start.expires(flow, now);
        let ghost len = packet.payload_len();
        proof {
            assert forall|i: int| 0 <= i < models.len() implies (#[trigger] models[i]).can_end() by {
                assert(models[i].has_room(len, packet.frame_len as int));
                if self.flows@[i].streams is Some {
                    self.flows@[i].streams->0.law_no_direction_exceeds_its_cap();
                    assert(self.flows@[i].well_formed());
                    assert(self.flows@[i]@ == models[i]);
                }
            }
            lemma_filter_facts(models, stays);
            lemma_expired_and_kept(start, now);
        }
        self.maybe_sweep(packet.timestamp);
        let ghost swept = self@.flows;
        proof {
            assert forall|i: int| 0 <= i < swept.len() implies models.contains(#[trigger] swept[i])
                && swept[i].can_end() by {
                if start.sweep_due(now) {
                    assert(models.contains(models.filter(stays)[i]));
                }
                let j = choose|j: int| 0 <= j < models.len() && models[j] == swept[i];
                assert(models[j].can_end());
            }
            assert(total_buffered(swept) <= total_buffered(models));
        }
        let key = FlowKey::new(packet.protocol, packet.source, packet.destination);
        match self.find(&key) {
            Some(place) => {
                proof {
                    assert(models.contains(swept[place as int]));
                    let j = choose|j: int|
                        0 <= j < models.len() && models[j] == swept[place as int];
                    assert(models[j].has_room(len, packet.frame_len as int));
                }
                (place, false)
            },
            None => {
                self.make_room(packet.timestamp);
                let ghost roomy = self@.flows;
                let flow = Flow::open(packet, &self.reassembly);
                let place: usize = self.flows.len();
                self.counters.created = self.counters.created + 1;
                self.flows.push(flow);
                proof {
                    let flows = self@.flows;
                    assert(flows =~= roomy.push(flow@));
                    assert(flows.drop_last() =~= roomy);
                    assert forall|i: int, j: int| 0 <= i < j < flows.len() implies (
                    #[trigger] flows[i]).key != (#[trigger] flows[j]).key by {
                        if j < roomy.len() {
                            assert(roomy[i].key != roomy[j].key);
                        } else {
                            assert(swept.contains(roomy[i]));
                            let k = choose|k: int| 0 <= k < swept.len() && swept[k] == roomy[i];
                            assert(swept[k].key != key);
                        }
                    }
                    assert(flow@.buffered() == 0) by {
                        lemma_fresh_is_empty(*packet, self.reassembly);
                    }
                    assert(flow@.capped_at(self.reassembly.byte_limit()));
                    lemma_index(flows, place as int);
                }
                (place, true)
            },
        }
    }

    /// Take a packet into the flow it belongs to. Returns whether that closed
    /// the flow.
    fn advance(
        &mut self,
        place: usize,
        packet: &PacketSummary<'_>,
        policy_to_server: OverlapPolicy,
        policy_to_client: OverlapPolicy,
        ready: &mut StreamReady,
    ) -> (closed: bool)
        requires
            old(self).well_formed(),
            place < old(self)@.flows.len(),
            old(self)@.flows[place as int].has_room(packet.payload_len(), packet.frame_len as int),
            total_buffered(old(self)@.flows) + 2 * old(self)@.config.byte_limit() <= usize::MAX,
            old(self)@.counters.resets_ignored < u64::MAX,
        ensures
            final(self).well_formed(),
            ({
                let flow = old(self)@.flows[place as int];
                let after = flow.seen(*packet, policy_to_server, policy_to_client);
                let ignored = packet.tcp is Some && packet.tcp->0.has_flag(flags::RST)
                    && !flow.ends_with(*packet, policy_to_server, policy_to_client);
                &&& closed == after.closed()
                &&& after.can_end()
                &&& final(self)@ == (TableModel {
                    flows: old(self)@.flows.update(place as int, after),
                    counters: FlowCounters {
                        resets_ignored: (old(self)@.counters.resets_ignored + if ignored {
                            1int
                        } else {
                            0
                        }) as u64,
                        ..old(self)@.counters
                    },
                    ..old(self)@
                })
                &&& final(ready).to_server@ == old(ready).to_server@ + flow.handed_over(
                    *packet,
                    policy_to_server,
                    policy_to_client,
                ).0
                &&& final(ready).to_client@ == old(ready).to_client@ + flow.handed_over(
                    *packet,
                    policy_to_server,
                    policy_to_client,
                ).1
            }),
    {
        let ghost before = *self;
        let ghost flows = self@.flows;
        let ghost target = flows[place as int];
        let ghost after = target.seen(*packet, policy_to_server, policy_to_client);
        proof {
            assert(target == self.flows@[place as int]@);
            assert(self.flows@[place as int].well_formed());
            assert(target.capped_at(self.reassembly.byte_limit()));
            lemma_total_remove(flows, place as int);
            lemma_total_update(flows, place as int, after);
            lemma_capped_buffers(self.flows@[place as int], self.reassembly.byte_limit());
        }
        let buffered_before: usize = self.flows[place].buffered_bytes();
        let flow = &mut self.flows[place];
        let ignored = flow.note(packet, policy_to_server, policy_to_client, ready);
        let closed = flow.is_closed();
        proof {
            assert(self.flows@[place as int]@ == after);
            lemma_capped_buffers(self.flows@[place as int], self.reassembly.byte_limit());
            assert(self@.flows =~= flows.update(place as int, after));
        }
        let buffered_after: usize = self.flows[place].buffered_bytes();
        if ignored {
            self.counters.resets_ignored = self.counters.resets_ignored + 1;
        }
        self.stream_bytes = self.stream_bytes + buffered_after - buffered_before;
        proof {
            assert forall|i: int| 0 <= i < self.flows@.len() implies (
            #[trigger] self.flows@[i]).well_formed() by {
                if i != place {
                    assert(self.flows@[i] == before.flows@[i]);
                    assert(before.flows@[i].well_formed());
                }
            }
            assert forall|i: int, j: int| 0 <= i < j < self@.flows.len() implies (
            #[trigger] self@.flows[i]).key != (#[trigger] self@.flows[j]).key by {
                assert(flows[i].key != flows[j].key);
            }
            assert forall|i: int| 0 <= i < self@.flows.len() implies (
            #[trigger] self@.flows[i]).capped_at(self.reassembly.byte_limit()) by {
                if i != place {
                    assert(self@.flows[i] == flows[i]);
                    assert(flows[i].capped_at(self.reassembly.byte_limit()));
                }
            }
        }
        closed
    }

    /// Move a flow whose teardown was observed out of the table.
    fn close(&mut self, place: usize)
        requires
            old(self).well_formed(),
            place < old(self)@.flows.len(),
            old(self)@.flows[place as int].can_end(),
            old(self)@.counters.closed < u64::MAX,
        ensures
            final(self).well_formed(),
            final(self)@ == (TableModel {
                flows: old(self)@.flows.remove(place as int),
                counters: FlowCounters {
                    closed: (old(self)@.counters.closed + 1) as u64,
                    ..old(self)@.counters
                },
                ended: old(self)@.ended.push(
                    old(self)@.flows[place as int].ended(EndReason::Closed),
                ),
                ..old(self)@
            }),
    {
        let ghost before = *self;
        proof {
            lemma_total_remove(before@.flows, place as int);
            lemma_distinct_remove(before@.flows, place as int);
            assert(before@.flows[place as int] == before.flows@[place as int]@);
            assert(before.flows@[place as int].well_formed());
        }
        let flow = self.flows.remove(place);
        self.counters.closed = self.counters.closed + 1;
        self.end_flow(flow, EndReason::Closed);
        proof {
            assert(self@.flows =~= before@.flows.remove(place as int));
            assert forall|i: int| 0 <= i < self.flows@.len() implies (
            #[trigger] self.flows@[i]).well_formed() by {
                let j = if i < place { i } else { i + 1 };
                assert(self.flows@[i] == before.flows@[j]);
                assert(before.flows@[j].well_formed());
            }
            assert forall|i: int| 0 <= i < self@.flows.len() implies (
            #[trigger] self@.flows[i]).capped_at(self.reassembly.byte_limit()) by {
                let j = if i < place { i } else { i + 1 };
                assert(self@.flows[i] == before@.flows[j]);
                assert(before@.flows[j].capped_at(self.reassembly.byte_limit()));
            }
        }
    }

    /// Attribute a packet to a flow.
    ///
    /// `frame_len` is the whole captured frame, so flow byte counts describe
    /// link-layer volume. Each direction of a TCP flow is resolved by the policy
    /// of the host *receiving* it — two stacks, two answers.
    pub fn observe<F: Fn(IpAddr) -> OverlapPolicy>(
        &mut self,
        packet: &PacketSummary<'_>,
        policy: F,
        ready: &mut StreamReady,
    ) -> (observed: Observed)
        requires
            old(self).well_formed(),
            old(self)@.has_room(*packet),
            forall|address: IpAddr| #[trigger] call_requires(policy, (address,)),
        ensures
            final(self).well_formed(),
            observed == (Observed {
                flow_id: old(self)@.target(*packet).id,
                to_server: packet.source == old(self)@.target(*packet).initiator,
                is_new: old(self)@.opens(*packet),
            }),
            exists|policy_to_server: OverlapPolicy, policy_to_client: OverlapPolicy|
                {
                    &&& #[trigger] answers(
                        policy,
                        *packet,
                        old(self)@.target(*packet),
                        policy_to_server,
                        policy_to_client,
                    )
                    &&& final(self)@ == old(self)@.observed(
                        *packet,
                        policy_to_server,
                        policy_to_client,
                    )
                    &&& final(ready).to_server@ == old(ready).to_server@ + old(self)@.target(
                        *packet,
                    ).handed_over(*packet, policy_to_server, policy_to_client).0
                    &&& final(ready).to_client@ == old(ready).to_client@ + old(self)@.target(
                        *packet,
                    ).handed_over(*packet, policy_to_server, policy_to_client).1
                },
    {
        let (place, is_new) = self.enter(packet);
        let ghost flows = self@.flows;
        let ghost target = flows[place as int];
        assert(target == self.flows@[place as int]@);
        let responder = self.flows[place].responder();
        let initiator = self.flows[place].initiator;
        let flow_id = self.flows[place].id;
        let to_server = same_endpoint(&packet.source, &initiator);
        let mut policy_to_server = OverlapPolicy::First;
        let mut policy_to_client = OverlapPolicy::First;
        if packet.tcp.is_some() {
            policy_to_server = policy(responder.0);
            policy_to_client = policy(initiator.0);
        }
        assert(answers(policy, *packet, target, policy_to_server, policy_to_client));
        let closed = self.advance(place, packet, policy_to_server, policy_to_client, ready);
        if closed {
            self.close(place);
        }
        proof {
            let after = target.seen(*packet, policy_to_server, policy_to_client);
            assert(flows.update(place as int, after).remove(place as int) =~= flows.remove(
                place as int,
            ));
        }
        Observed { flow_id, to_server, is_new }
    }
}

proof fn lemma_capped_buffers(flow: Flow, byte_limit: int)
    requires
        flow.well_formed(),
        flow@.capped_at(byte_limit),
    ensures
        0 <= flow@.buffered() <= 2 * byte_limit || flow@.streams is None,
        flow@.streams is None ==> flow@.buffered() == 0,
{
    if flow.streams is Some {
        flow.streams->0.law_no_direction_exceeds_its_cap();
    }
}

proof fn lemma_fresh_is_empty(packet: PacketSummary, config: ReassemblyConfig)
    ensures
        FlowModel::opened(packet, config).buffered() == 0,
{
    let held = StreamModel::fresh(config.byte_limit(), config.flush_limit()).buffer;
    crate::counting::lemma_count_none(
        held.start,
        held.window_end(),
        |at: int| held.bytes.contains_key(at),
    );
}

proof fn lemma_expired_and_kept(table: TableModel, now: Timestamp)
    ensures
        table.expired(now).len() + table.swept(now).flows.len() == table.flows.len(),
    decreases table.flows.len(),
{
    reveal(Seq::filter);
    let goes = |flow: FlowModel| table.expires(flow, now);
    let stays = |flow: FlowModel| !table.expires(flow, now);
    lemma_partition(table.flows, goes, stays);
}

proof fn lemma_partition(
    flows: Seq<FlowModel>,
    goes: spec_fn(FlowModel) -> bool,
    stays: spec_fn(FlowModel) -> bool,
)
    requires
        forall|flow: FlowModel| #[trigger] goes(flow) == !stays(flow),
    ensures
        flows.filter(goes).len() + flows.filter(stays).len() == flows.len(),
    decreases flows.len(),
{
    reveal(Seq::filter);
    if flows.len() > 0 {
        lemma_partition(flows.drop_last(), goes, stays);
    }
}

/// Of an eviction, whoever goes was seen no more recently than whoever stays.
pub proof fn law_eviction_takes_the_least_recently_seen(flows: Seq<FlowModel>, count: nat)
    ensures
        forall|i: int, j: int|
            0 <= i < evicted(flows, count).len() && 0 <= j < spared(flows, count).len() ==> (
            #[trigger] evicted(flows, count)[i]).last_seen.nanos <= (#[trigger] spared(
                flows,
                count,
            )[j]).last_seen.nanos,
    decreases count,
{
    if count > 0 && flows.len() > 0 {
        let rest = flows.remove(oldest(flows));
        let first = flows[oldest(flows)];
        lemma_oldest(flows);
        law_eviction_takes_the_least_recently_seen(rest, (count - 1) as nat);
        lemma_evicted_and_spared(rest, (count - 1) as nat);
        assert forall|i: int, j: int|
            0 <= i < evicted(flows, count).len() && 0 <= j < spared(flows, count).len() implies (
        #[trigger] evicted(flows, count)[i]).last_seen.nanos <= (#[trigger] spared(
            flows,
            count,
        )[j]).last_seen.nanos by {
            let stays = spared(rest, (count - 1) as nat);
            if i == 0 {
                assert(rest.contains(stays[j]));
                let k = choose|k: int| 0 <= k < rest.len() && rest[k] == stays[j];
                let a = if k < oldest(flows) { k } else { k + 1 };
                assert(flows[a] == stays[j]);
            } else {
                assert(evicted(flows, count)[i] == evicted(rest, (count - 1) as nat)[i - 1]);
            }
        }
    }
}

proof fn lemma_evicted_and_spared(flows: Seq<FlowModel>, count: nat)
    ensures
        evicted(flows, count).len() + spared(flows, count).len() == flows.len(),
        forall|i: int|
            0 <= i < spared(flows, count).len() ==> flows.contains(
                #[trigger] spared(flows, count)[i],
            ),
    decreases count,
{
    if count > 0 && flows.len() > 0 {
        lemma_oldest(flows);
        let rest = flows.remove(oldest(flows));
        lemma_evicted_and_spared(rest, (count - 1) as nat);
        assert forall|i: int| 0 <= i < spared(flows, count).len() implies flows.contains(
            #[trigger] spared(flows, count)[i],
        ) by {
            let stays = spared(rest, (count - 1) as nat);
            assert(rest.contains(stays[i]));
            let k = choose|k: int| 0 <= k < rest.len() && rest[k] == stays[i];
            let a = if k < oldest(flows) { k } else { k + 1 };
            assert(flows[a] == stays[i]);
        }
    } else {
        assert forall|i: int| 0 <= i < flows.len() implies flows.contains(#[trigger] flows[i]) by {}
    }
}

/// The flows created that no total accounts for: neither live nor counted as
/// closed, timed out or evicted.
pub open spec fn unaccounted(table: TableModel) -> int {
    table.counters.created - table.counters.closed - table.counters.timed_out
        - table.counters.evicted - table.flows.len()
}

/// A sweep loses no flow: every flow ever created is live after it or counted under
/// the reason it ended for, and whichever it ended is reported as timed out.
pub proof fn law_a_sweep_loses_no_flow(table: TableModel, now: Timestamp)
    requires
        table.counters.timed_out + table.flows.len() <= u64::MAX,
    ensures
        unaccounted(table.swept(now)) == unaccounted(table),
        table.swept(now).ended.len() + table.swept(now).flows.len() == table.ended.len()
            + table.flows.len(),
{
    lemma_expired_and_kept(table, now);
}

/// No flow is lost: a packet leaves every flow ever created either live or
/// counted under the reason it ended for.
pub proof fn law_every_flow_is_accounted_for(
    table: FlowTable,
    packet: PacketSummary,
    policy_to_server: OverlapPolicy,
    policy_to_client: OverlapPolicy,
)
    requires
        table.well_formed(),
        table@.has_room(packet),
    ensures
        unaccounted(table@.observed(packet, policy_to_server, policy_to_client)) == unaccounted(
            table@,
        ),
{
    lemma_packet_loses_no_flow(table@, packet, policy_to_server, policy_to_client);
}

proof fn lemma_packet_loses_no_flow(
    start: TableModel,
    packet: PacketSummary,
    policy_to_server: OverlapPolicy,
    policy_to_client: OverlapPolicy,
)
    requires
        start.counts_have_room(),
    ensures
        unaccounted(start.observed(packet, policy_to_server, policy_to_client)) == unaccounted(
            start,
        ),
{
    let now = packet.timestamp;
    let key = FlowKey::of(packet.protocol, packet.source, packet.destination);
    let swept = start.maybe_swept(now);
    lemma_expired_and_kept(start, now);
    lemma_expired_and_kept(swept, now);
    lemma_filter_facts(start.flows, |flow: FlowModel| !start.expires(flow, now));
    lemma_evicted_and_spared(swept.swept(now).flows, swept.batch());
    let admitted = start.admitting(packet);
    if has_key(swept.flows, key) {
        let k = choose|k: int| 0 <= k < swept.flows.len() && (#[trigger] swept.flows[k]).key == key;
        assert(0 <= start.place(packet) < admitted.flows.len());
    } else {
        assert(admitted.flows.last().key == key);
        assert(admitted.flows[admitted.flows.len() - 1].key == key);
        assert(0 <= start.place(packet) < admitted.flows.len());
    }
}

/// Whether a table holds no more flows than its cap, or than one where the cap is zero,
/// and no two of one conversation.
pub open spec fn in_bounds(table: TableModel) -> bool {
    &&& distinct_keys(table.flows)
    &&& table.flows.len() <= table.limits.max_flows || table.flows.len() <= 1
}

proof fn lemma_spared_distinct(flows: Seq<FlowModel>, count: nat)
    requires
        distinct_keys(flows),
    ensures
        distinct_keys(spared(flows, count)),
    decreases count,
{
    if count > 0 && flows.len() > 0 {
        lemma_oldest(flows);
        lemma_distinct_remove(flows, oldest(flows));
        lemma_spared_distinct(flows.remove(oldest(flows)), (count - 1) as nat);
    }
}

/// Some flows of those without a key are without it.
proof fn lemma_still_without(flows: Seq<FlowModel>, some: Seq<FlowModel>, key: FlowKey)
    requires
        !has_key(flows, key),
        forall|i: int| 0 <= i < some.len() ==> flows.contains(#[trigger] some[i]),
    ensures
        !has_key(some, key),
{
    if has_key(some, key) {
        let i = choose|i: int| 0 <= i < some.len() && (#[trigger] some[i]).key == key;
        assert(flows.contains(some[i]));
        let k = choose|k: int| 0 <= k < flows.len() && flows[k] == some[i];
        assert(flows[k].key == key);
    }
}

/// A table in bounds stays in bounds with the flow of a packet in it, and has that flow.
proof fn lemma_admitting(table: TableModel, packet: PacketSummary)
    requires
        in_bounds(table),
    ensures
        in_bounds(table.admitting(packet)),
        0 <= table.place(packet) < table.admitting(packet).flows.len(),
        table.target(packet).key == FlowKey::of(
            packet.protocol,
            packet.source,
            packet.destination,
        ),
        table.opens(packet) ==> table.target(packet) == FlowModel::opened(packet, table.config),
{
    let now = packet.timestamp;
    let key = FlowKey::of(packet.protocol, packet.source, packet.destination);
    let first = table.maybe_swept(now);
    lemma_filter_facts(table.flows, |flow: FlowModel| !table.expires(flow, now));
    let admitted = table.admitting(packet);
    if !has_key(first.flows, key) {
        lemma_filter_facts(first.flows, |flow: FlowModel| !first.expires(flow, now));
        let swept = first.swept(now);
        lemma_still_without(first.flows, swept.flows, key);
        lemma_spared_distinct(swept.flows, swept.batch());
        lemma_evicted_and_spared(swept.flows, swept.batch());
        lemma_still_without(swept.flows, swept.relieved().flows, key);
        let roomy = first.with_room(now);
        assert(distinct_keys(roomy.flows) && !has_key(roomy.flows, key));
        let n = roomy.flows.len() as int;
        assert(admitted.flows[n] == FlowModel::opened(packet, table.config));
        assert(admitted.flows[n].key == key);
        assert forall|i: int, j: int| 0 <= i < j < admitted.flows.len() implies (
        #[trigger] admitted.flows[i]).key != (#[trigger] admitted.flows[j]).key by {
            if j < n {
                assert(roomy.flows[i].key != roomy.flows[j].key);
            } else {
                assert(roomy.flows[i].key != key);
            }
        }
        lemma_index(admitted.flows, n);
    } else {
        let k = choose|k: int| 0 <= k < first.flows.len() && (#[trigger] first.flows[k]).key == key;
        lemma_index(admitted.flows, k);
    }
}

/// A table in bounds stays in bounds after a packet.
proof fn lemma_observed(
    table: TableModel,
    packet: PacketSummary,
    policy_to_server: OverlapPolicy,
    policy_to_client: OverlapPolicy,
)
    requires
        in_bounds(table),
    ensures
        in_bounds(table.observed(packet, policy_to_server, policy_to_client)),
        forall|i: int|
            0 <= i < table.observed(packet, policy_to_server, policy_to_client).flows.len()
                && (#[trigger] table.observed(
                packet,
                policy_to_server,
                policy_to_client,
            ).flows[i]).key == table.target(packet).key ==> {
                let flow = table.observed(packet, policy_to_server, policy_to_client).flows[i];
                flow.id == table.target(packet).id && flow.initiator == table.target(
                    packet,
                ).initiator
            },
{
    lemma_admitting(table, packet);
    let admitted = table.admitting(packet);
    let place = table.place(packet);
    let after = table.observed(packet, policy_to_server, policy_to_client);
    lemma_distinct_remove(admitted.flows, place);
    if after.flows.len() == admitted.flows.len() {
        assert forall|i: int, j: int| 0 <= i < j < after.flows.len() implies (
        #[trigger] after.flows[i]).key != (#[trigger] after.flows[j]).key by {
            assert(admitted.flows[i].key != admitted.flows[j].key);
        }
        assert forall|i: int|
            0 <= i < after.flows.len() && (#[trigger] after.flows[i]).key == table.target(
                packet,
            ).key implies after.flows[i].id == table.target(packet).id
            && after.flows[i].initiator == table.target(packet).initiator by {
            if i < place {
                assert(admitted.flows[i].key != admitted.flows[place].key);
            } else if place < i {
                assert(admitted.flows[place].key != admitted.flows[i].key);
            }
        }
    } else {
        assert(!has_key(after.flows, table.target(packet).key));
    }
}

/// What can happen to a table.
pub enum TableCall<'a> {
    /// A packet comes.
    Packet {
        /// The packet.
        packet: PacketSummary<'a>,
        /// How the responder resolves an overlap.
        policy_to_server: OverlapPolicy,
        /// How the initiator resolves an overlap.
        policy_to_client: OverlapPolicy,
    },
    /// Idle flows are swept.
    Sweep(Timestamp),
}

impl TableModel {
    /// A table that has seen nothing.
    pub open spec fn fresh(limits: Limits, config: ReassemblyConfig) -> TableModel {
        TableModel {
            flows: Seq::empty(),
            limits,
            config,
            counters: FlowCounters::zero(),
            ended: Seq::empty(),
            last_sweep: None,
        }
    }

    /// The table after a call.
    pub open spec fn after(self, call: TableCall) -> TableModel {
        match call {
            TableCall::Packet { packet, policy_to_server, policy_to_client } => self.observed(
                packet,
                policy_to_server,
                policy_to_client,
            ),
            TableCall::Sweep(now) => self.swept(now),
        }
    }
}

/// A table after calls, one after the other.
pub open spec fn after_calls(table: TableModel, calls: Seq<TableCall>) -> TableModel
    decreases calls.len(),
{
    if calls.len() == 0 {
        table
    } else {
        after_calls(table, calls.drop_last()).after(calls.last())
    }
}

/// Whether the totals of a table have room for every call when it comes.
pub open spec fn all_counted(table: TableModel, calls: Seq<TableCall>) -> bool
    decreases calls.len(),
{
    calls.len() == 0 || (all_counted(table, calls.drop_last()) && after_calls(
        table,
        calls.drop_last(),
    ).counts_have_room())
}

/// Whatever a table is shown, it stays within its cap, holds no conversation twice, and
/// every flow that it ever created is live or counted under the reason it ended for.
pub proof fn law_a_table_adds_up(
    limits: Limits,
    config: ReassemblyConfig,
    calls: Seq<TableCall>,
)
    requires
        all_counted(TableModel::fresh(limits, config), calls),
    ensures
        ({
            let after = after_calls(TableModel::fresh(limits, config), calls);
            &&& after.limits == limits
            &&& after.counters.created == after.counters.closed + after.counters.timed_out
                + after.counters.evicted + after.flows.len()
            &&& in_bounds(after)
        }),
    decreases calls.len(),
{
    if calls.len() > 0 {
        law_a_table_adds_up(limits, config, calls.drop_last());
        let before = after_calls(TableModel::fresh(limits, config), calls.drop_last());
        match calls.last() {
            TableCall::Packet { packet, policy_to_server, policy_to_client } => {
                lemma_observed(before, packet, policy_to_server, policy_to_client);
                lemma_packet_loses_no_flow(before, packet, policy_to_server, policy_to_client);
            },
            TableCall::Sweep(now) => {
                lemma_filter_facts(before.flows, |flow: FlowModel| !before.expires(flow, now));
                law_a_sweep_loses_no_flow(before, now);
            },
        }
    }
}

/// A packet opens a flow exactly where no flow that is still live has its protocol and
/// its two endpoints, in either order. A reply, for as long as the flow is live, belongs
/// to the same flow as the packet that it answers, and has the same opener.
pub proof fn law_a_reply_belongs_to_its_flow(
    table: TableModel,
    packet: PacketSummary,
    reply: PacketSummary,
    policy_to_server: OverlapPolicy,
    policy_to_client: OverlapPolicy,
)
    requires
        in_bounds(table),
        reply.protocol == packet.protocol,
        reply.source == packet.destination,
        reply.destination == packet.source,
    ensures
        table.opens(packet) == table.opens(
            PacketSummary {
                source: packet.destination,
                destination: packet.source,
                ..packet
            },
        ),
        table.opens(packet) ==> table.target(packet).initiator == packet.source,
        ({
            let after = table.observed(packet, policy_to_server, policy_to_client);
            !after.opens(reply) ==> {
                &&& after.target(reply).id == table.target(packet).id
                &&& after.target(reply).initiator == table.target(packet).initiator
            }
        }),
{
    law_both_directions_share_a_key(packet.protocol, packet.source, packet.destination);
    lemma_admitting(table, packet);
    lemma_observed(table, packet, policy_to_server, policy_to_client);
    let after = table.observed(packet, policy_to_server, policy_to_client);
    lemma_admitting(after, reply);
    if !after.opens(reply) {
        let now = reply.timestamp;
        lemma_filter_facts(after.flows, |flow: FlowModel| !after.expires(flow, now));
        let flow = after.target(reply);
        let kept = after.maybe_swept(now).flows;
        assert(kept[after.place(reply)] == flow);
        assert(after.flows.contains(flow));
    }
}

/// A packet of a flow, whichever way it travels, makes the flow as fresh as the packet:
/// the flow is last seen at the latest of its packets. It is counted once, with its
/// whole frame, in the direction that it travels, and what identifies the flow stays.
pub proof fn law_every_packet_refreshes_its_flow(
    flow: FlowModel,
    packet: PacketSummary,
    policy_to_server: OverlapPolicy,
    policy_to_client: OverlapPolicy,
)
    requires
        flow.to_server.has_room(packet.frame_len as int),
        flow.to_client.has_room(packet.frame_len as int),
    ensures
        ({
            let after = flow.seen(packet, policy_to_server, policy_to_client);
            &&& after.last_seen.nanos >= packet.timestamp.nanos
            &&& after.last_seen.nanos >= flow.last_seen.nanos
            &&& after.last_seen == packet.timestamp || after.last_seen == flow.last_seen
            &&& after.id == flow.id && after.key == flow.key && after.initiator == flow.initiator
                && after.start == flow.start
            &&& after.to_server.packets + after.to_client.packets == flow.to_server.packets
                + flow.to_client.packets + 1
            &&& after.to_server.bytes + after.to_client.bytes == flow.to_server.bytes
                + flow.to_client.bytes + packet.frame_len
            &&& packet.source == flow.initiator ==> after.to_client == flow.to_client
            &&& packet.source != flow.initiator ==> after.to_server == flow.to_server
        }),
{
}

/// What a packet tells of a teardown: a FIN counts for the side that sent it, and a flow
/// is over when both sides have sent theirs or a reset was believed, and stays so. Flags
/// that were seen stay seen, and those of the packet are among them.
pub proof fn law_a_teardown_takes_both_sides(
    flow: FlowModel,
    packet: PacketSummary,
    policy_to_server: OverlapPolicy,
    policy_to_client: OverlapPolicy,
)
    ensures
        ({
            let after = flow.seen(packet, policy_to_server, policy_to_client);
            let fin = packet.tcp is Some && packet.tcp->0.has_flag(flags::FIN);
            let reset = packet.tcp is Some && packet.tcp->0.has_flag(flags::RST);
            &&& fin && packet.source == flow.initiator ==> after.fin_from_initiator
                && after.fin_from_responder == flow.fin_from_responder
            &&& fin && packet.source != flow.initiator ==> after.fin_from_responder
                && after.fin_from_initiator == flow.fin_from_initiator
            &&& !fin ==> after.fin_from_initiator == flow.fin_from_initiator
                && after.fin_from_responder == flow.fin_from_responder
            &&& !reset ==> after.saw_reset == flow.saw_reset
            &&& flow.saw_reset ==> after.saw_reset
            &&& reset && flow.streams is None ==> after.closed()
            &&& flow.fin_from_initiator && fin && packet.source != flow.initiator ==> after.closed()
            &&& !flow.saw_reset && !reset && !after.fin_from_responder ==> !after.closed()
            &&& flow.closed() ==> after.closed()
            &&& packet.tcp is Some ==> forall|bit: u8|
                #[trigger] (after.tcp_flags_seen & bit) != 0 <==> (flow.tcp_flags_seen & bit != 0
                    || packet.tcp->0.flags & bit != 0)
        }),
{
    let after = flow.seen(packet, policy_to_server, policy_to_client);
    if packet.tcp is Some {
        let one = flow.tcp_flags_seen;
        let other = packet.tcp->0.flags;
        assert forall|bit: u8|
            #[trigger] (after.tcp_flags_seen & bit) != 0 <==> (one & bit != 0 || other & bit
                != 0) by {
            assert(((one | other) & bit != 0) <==> (one & bit != 0 || other & bit != 0))
                by (bit_vector);
        }
    }
}

/// The bits of the TCP flags are those of the TCP header.
pub proof fn law_flags_stand_where_tcp_puts_them(segment: TcpSegment)
    ensures
        segment.has_flag(flags::FIN) <==> segment.flags & 1 != 0,
        segment.has_flag(flags::SYN) <==> segment.flags & 2 != 0,
        segment.has_flag(flags::RST) <==> segment.flags & 4 != 0,
        segment.has_flag(flags::ACK) <==> segment.flags & 16 != 0,
{
}

/// A flow opens with its first packet: it starts and is last seen with it, its sender is
/// the initiator and its receiver the responder, nothing is counted yet, and only TCP is
/// reassembled.
pub proof fn law_a_flow_opens_with_its_first_packet(
    packet: PacketSummary,
    config: ReassemblyConfig,
)
    ensures
        ({
            let flow = FlowModel::opened(packet, config);
            &&& flow.start == packet.timestamp
            &&& flow.last_seen == packet.timestamp
            &&& flow.initiator == packet.source
            &&& flow.responder() == packet.destination
            &&& flow.key.protocol == packet.protocol
            &&& flow.to_server.packets == 0 && flow.to_client.packets == 0
            &&& flow.to_server.bytes == 0 && flow.to_client.bytes == 0
            &&& flow.tcp_flags_seen == 0
            &&& !flow.closed()
            &&& flow.streams is Some <==> packet.protocol == 6
        }),
{
}

/// A sweep ends exactly the flows that have been idle for the timeout: whoever sent or
/// received a packet less than the timeout ago stays, and everybody else is reported as
/// timed out.
pub proof fn law_only_idle_flows_time_out(table: TableModel, now: Timestamp, flow: FlowModel)
    requires
        table.flows.contains(flow),
        table.limits.flow_timeout.nanos > 0,
    ensures
        now.nanos < flow.last_seen.nanos + table.limits.flow_timeout.nanos <==> table.swept(
            now,
        ).flows.contains(flow),
        now.nanos < flow.last_seen.nanos + table.limits.flow_timeout.nanos ==> !table.expired(
            now,
        ).contains(flow),
        now.nanos >= flow.last_seen.nanos + table.limits.flow_timeout.nanos ==> {
            &&& table.expired(now).contains(flow)
            &&& exists|i: int|
                table.ended.len() <= i < table.swept(now).ended.len() && #[trigger] table.swept(
                    now,
                ).ended[i] == flow.ended(EndReason::TimedOut)
        },
        flow.ended(EndReason::TimedOut).reason == EndReason::TimedOut,
        flow.ended(EndReason::TimedOut).flow.last_seen == flow.last_seen,
        flow.ended(EndReason::TimedOut).flow.start == flow.start,
        flow.ended(EndReason::TimedOut).flow.id == flow.id,
        table.swept(now).limits == table.limits,
{
    let goes = |f: FlowModel| table.expires(f, now);
    let stays = |f: FlowModel| !table.expires(f, now);
    let k = choose|k: int| 0 <= k < table.flows.len() && table.flows[k] == flow;
    lemma_filter_facts(table.flows, goes);
    lemma_filter_facts(table.flows, stays);
    if goes(flow) {
        assert(goes(table.flows[k]));
        table.flows.lemma_filter_contains(goes, k);
        let gone = table.expired(now);
        assert(gone.contains(flow));
        let i = choose|i: int| 0 <= i < gone.len() && gone[i] == flow;
        let at = table.ended.len() + i;
        assert(table.swept(now).ended[at] == flow.ended(EndReason::TimedOut));
        if table.swept(now).flows.contains(flow) {
            let j = choose|j: int|
                0 <= j < table.swept(now).flows.len() && table.swept(now).flows[j] == flow;
            assert(stays(table.swept(now).flows[j]));
        }
    } else {
        assert(stays(table.flows[k]));
        table.flows.lemma_filter_contains(stays, k);
        if table.expired(now).contains(flow) {
            let j = choose|j: int|
                0 <= j < table.expired(now).len() && table.expired(now)[j] == flow;
            assert(goes(table.expired(now)[j]));
        }
    }
}

/// A flow that had a packet, in either direction, less than the timeout ago outlives a
/// sweep: after the packet it is in the table unless the packet closed it, as fresh as
/// the packet, and no sweep before the timeout has passed ends it.
pub proof fn law_a_busy_flow_is_never_timed_out(
    table: TableModel,
    packet: PacketSummary,
    policy_to_server: OverlapPolicy,
    policy_to_client: OverlapPolicy,
    now: Timestamp,
)
    requires
        in_bounds(table),
        table.limits.flow_timeout.nanos > 0,
        table.target(packet).to_server.has_room(packet.frame_len as int),
        table.target(packet).to_client.has_room(packet.frame_len as int),
    ensures
        ({
            let after = table.observed(packet, policy_to_server, policy_to_client);
            let flow = table.target(packet).seen(packet, policy_to_server, policy_to_client);
            &&& flow.closed() || after.flows.contains(flow)
            &&& flow.last_seen.nanos >= packet.timestamp.nanos
            &&& !flow.closed() && now.nanos < packet.timestamp.nanos
                + table.limits.flow_timeout.nanos ==> after.swept(now).flows.contains(flow)
                && !after.expired(now).contains(flow)
        }),
{
    lemma_admitting(table, packet);
    let after = table.observed(packet, policy_to_server, policy_to_client);
    let flow = table.target(packet).seen(packet, policy_to_server, policy_to_client);
    law_every_packet_refreshes_its_flow(
        table.target(packet),
        packet,
        policy_to_server,
        policy_to_client,
    );
    if !flow.closed() {
        assert(after.flows[table.place(packet)] == flow);
        assert(after.flows.contains(flow));
        law_only_idle_flows_time_out(after, now, flow);
    }
}

/// A packet that closes its flow ends it: the flow leaves the table and is reported as
/// closed. One that does not close it ends no flow.
pub proof fn law_a_closed_flow_is_reported(
    table: TableModel,
    packet: PacketSummary,
    policy_to_server: OverlapPolicy,
    policy_to_client: OverlapPolicy,
)
    requires
        in_bounds(table),
    ensures
        ({
            let entered = table.admitting(packet);
            let after = table.observed(packet, policy_to_server, policy_to_client);
            let flow = table.target(packet).seen(packet, policy_to_server, policy_to_client);
            &&& flow.closed() ==> {
                &&& !has_key(after.flows, flow.key)
                &&& after.ended == entered.ended.push(flow.ended(EndReason::Closed))
                &&& flow.ended(EndReason::Closed).reason == EndReason::Closed
            }
            &&& !flow.closed() ==> after.ended == entered.ended && after.flows.len()
                == entered.flows.len()
        }),
{
    lemma_admitting(table, packet);
    lemma_distinct_remove(table.admitting(packet).flows, table.place(packet));
}

/// Nobody is evicted while there is space: a packet for a table below its cap and its
/// byte budget leaves every flow that did not time out in it.
pub proof fn law_no_eviction_with_space(table: TableModel, packet: PacketSummary)
    requires
        table.maybe_swept(packet.timestamp).flows.len() < table.limits.max_flows,
        total_buffered(table.maybe_swept(packet.timestamp).flows)
            < table.config.max_stream_bytes_total,
    ensures
        table.admitting(packet).counters.evicted == table.counters.evicted,
        forall|i: int|
            0 <= i < table.maybe_swept(packet.timestamp).flows.len() ==> table.admitting(
                packet,
            ).flows[i] == #[trigger] table.maybe_swept(packet.timestamp).flows[i],
{
}

/// A table at its cap makes room by evicting, not by refusing: the packet's flow is let
/// in, and where the sweep does not help a flow is reported as evicted.
pub proof fn law_a_full_table_evicts(table: TableModel, packet: PacketSummary)
    requires
        in_bounds(table),
        table.opens(packet),
        table.maybe_swept(packet.timestamp).swept(packet.timestamp).flows.len()
            >= table.limits.max_flows,
        table.maybe_swept(packet.timestamp).swept(packet.timestamp).flows.len() > 0,
        table.counts_have_room(),
    ensures
        table.admitting(packet).counters.evicted > table.counters.evicted,
        table.admitting(packet).flows.last() == FlowModel::opened(packet, table.config),
        table.admitting(packet).ended.last().reason == EndReason::Evicted,
{
    let now = packet.timestamp;
    let first = table.maybe_swept(now);
    let swept = first.swept(now);
    lemma_filter_facts(table.flows, |flow: FlowModel| !table.expires(flow, now));
    lemma_filter_facts(first.flows, |flow: FlowModel| !first.expires(flow, now));
    lemma_evicted_and_spared(swept.flows, swept.batch());
    let gone = evicted(swept.flows, swept.batch());
    assert(swept.batch() >= 1);
    assert(gone.len() >= 1);
    let told = swept.relieved().ended;
    assert(told.last() == gone.last().ended(EndReason::Evicted));
}

/// When the sensor stops, every live flow is reported as such and none is left.
pub proof fn law_stopping_reports_every_flow(table: TableModel, i: int)
    requires
        0 <= i < table.flows.len(),
    ensures
        table.stopped().flows.len() == 0,
        table.stopped().ended.len() == table.ended.len() + table.flows.len(),
        table.stopped().ended[table.ended.len() + i] == table.flows[i].ended(
            EndReason::SensorStopped,
        ),
        table.flows[i].ended(EndReason::SensorStopped).reason == EndReason::SensorStopped,
        table.stopped().counters == table.counters,
{
}

/// A flow that ends hands over what its buffers had in sequence.
pub proof fn law_an_ended_flow_hands_over_what_it_held(flow: FlowModel, reason: EndReason)
    ensures
        flow.streams matches Some(pair) ==> {
            &&& flow.ended(reason).to_server == pair.to_server.delivery(true)
            &&& flow.ended(reason).to_client == pair.to_client.delivery(true)
            &&& flow.ended(reason).flow.streams == Some(pair.flushed())
        },
        flow.streams is None ==> flow.ended(reason).to_server.len() == 0 && flow.ended(
            reason,
        ).to_client.len() == 0,
        flow.ended(reason).flow.to_server == flow.to_server,
        flow.ended(reason).flow.to_client == flow.to_client,
        flow.ended(reason).flow.initiator == flow.initiator,
{
}

/// The letters of flags: each of the eight bits has its letter, lowest first, and no bit
/// that is not set has one.
#[verifier::spinoff_prover]
#[verifier::rlimit(80)]
pub proof fn law_flags_have_their_letters(seen: u8)
    ensures
        flag_letters(seen).contains('F') <==> seen & 1 != 0,
        flag_letters(seen).contains('S') <==> seen & 2 != 0,
        flag_letters(seen).contains('R') <==> seen & 4 != 0,
        flag_letters(seen).contains('P') <==> seen & 8 != 0,
        flag_letters(seen).contains('A') <==> seen & 16 != 0,
        flag_letters(seen).contains('U') <==> seen & 32 != 0,
        flag_letters(seen).contains('E') <==> seen & 64 != 0,
        flag_letters(seen).contains('C') <==> seen & 128 != 0,
        seen == 0x12 ==> flag_letters(seen) == seq!['S', 'A'],
{
    lemma_letters(seen, 'F');
    lemma_letters(seen, 'S');
    lemma_letters(seen, 'R');
    lemma_letters(seen, 'P');
    lemma_letters(seen, 'A');
    lemma_letters(seen, 'U');
    lemma_letters(seen, 'E');
    lemma_letters(seen, 'C');
    if seen == 0x12 {
        assert(0x12u8 & 1 == 0 && 0x12u8 & 2 == 2 && 0x12u8 & 4 == 0 && 0x12u8 & 8 == 0 && 0x12u8
            & 16 == 16 && 0x12u8 & 32 == 0 && 0x12u8 & 64 == 0 && 0x12u8 & 128 == 0)
            by (bit_vector);
        assert(flag_letters(seen) =~= seq!['S', 'A']);
    }
}

proof fn lemma_letters(seen: u8, c: char)
    ensures
        flag_letters(seen).contains(c) <==> {
            ||| seen & 1 != 0 && c == 'F'
            ||| seen & 2 != 0 && c == 'S'
            ||| seen & 4 != 0 && c == 'R'
            ||| seen & 8 != 0 && c == 'P'
            ||| seen & 16 != 0 && c == 'A'
            ||| seen & 32 != 0 && c == 'U'
            ||| seen & 64 != 0 && c == 'E'
            ||| seen & 128 != 0 && c == 'C'
        },
{
    let a = Seq::<char>::empty() + letter_if(seen & 1 != 0, 'F');
    let b = a + letter_if(seen & 2 != 0, 'S');
    let d = b + letter_if(seen & 4 != 0, 'R');
    let e = d + letter_if(seen & 8 != 0, 'P');
    let f = e + letter_if(seen & 16 != 0, 'A');
    let g = f + letter_if(seen & 32 != 0, 'U');
    let h = g + letter_if(seen & 64 != 0, 'E');
    lemma_one_more_letter(Seq::empty(), seen & 1 != 0, 'F', c);
    lemma_one_more_letter(a, seen & 2 != 0, 'S', c);
    lemma_one_more_letter(b, seen & 4 != 0, 'R', c);
    lemma_one_more_letter(d, seen & 8 != 0, 'P', c);
    lemma_one_more_letter(e, seen & 16 != 0, 'A', c);
    lemma_one_more_letter(f, seen & 32 != 0, 'U', c);
    lemma_one_more_letter(g, seen & 64 != 0, 'E', c);
    lemma_one_more_letter(h, seen & 128 != 0, 'C', c);
}

proof fn lemma_one_more_letter(before: Seq<char>, set: bool, letter: char, c: char)
    ensures
        (before + letter_if(set, letter)).contains(c) <==> before.contains(c) || (set && c
            == letter),
{
    let after = before + letter_if(set, letter);
    if before.contains(c) {
        let i = choose|i: int| 0 <= i < before.len() && before[i] == c;
        assert(after[i] == c);
    }
    if set {
        assert(after[before.len() as int] == letter);
    }
    if after.contains(c) {
        let i = choose|i: int| 0 <= i < after.len() && after[i] == c;
        assert(i < before.len() ==> before[i] == c);
    }
}

/// Flows are swept the first time and then every ten seconds, and a full table makes room
/// by a tenth of its flows, or one.
pub proof fn law_flows_are_swept_every_ten_seconds(table: TableModel, now: Timestamp)
    ensures
        table.last_sweep is None ==> table.sweep_due(now),
        table.last_sweep matches Some(last) ==> (table.sweep_due(now) <==> now.nanos >= last.nanos
            + 10_000_000_000),
        !table.sweep_due(now) ==> table.maybe_swept(now) == table,
        table.sweep_due(now) ==> table.maybe_swept(now) == table.swept(now),
        table.limits.max_flows >= 10 ==> table.batch() == table.limits.max_flows / 10,
        table.limits.max_flows < 10 ==> table.batch() == 1,
{
}

/// A flow is known from both of its ends, and its responder is the end that did not open
/// it.
pub proof fn law_the_responder_is_the_other_end(
    protocol: u8,
    source: Endpoint,
    destination: Endpoint,
    flow: FlowModel,
)
    requires
        flow.key == FlowKey::of(protocol, source, destination),
        flow.initiator == source,
    ensures
        flow.responder() == destination,
        flow.key.protocol == protocol,
        (flow.key.first == source && flow.key.second == destination) || (flow.key.first
            == destination && flow.key.second == source),
{
}

/// A flow that opens has seen no teardown, and a TCP flow is reassembled under the limits
/// that are configured, with nothing buffered.
pub proof fn law_a_flow_opens_with_nothing_seen(packet: PacketSummary, config: ReassemblyConfig)
    ensures
        ({
            let flow = FlowModel::opened(packet, config);
            &&& !flow.fin_from_initiator && !flow.fin_from_responder && !flow.saw_reset
            &&& flow.streams matches Some(pair) ==> {
                &&& pair.to_server.buffer.byte_cap == config.byte_limit()
                &&& pair.to_client.buffer.byte_cap == config.byte_limit()
                &&& pair.to_server.flush_bytes == config.flush_limit()
                &&& pair.to_client.flush_bytes == config.flush_limit()
                &&& pair.to_server.buffer.range_cap == 256
                &&& !pair.to_server.established && !pair.to_client.established
                &&& pair.to_server.fin_at is None && pair.to_client.fin_at is None
                &&& pair.to_server.acknowledged_upto == 0 && pair.to_client.acknowledged_upto == 0
            }
        }),
{
}

/// A reset is judged by the direction that it travels along: it ends a reassembled flow
/// exactly where that direction, after the packet, believes it.
pub proof fn law_a_reset_is_judged_by_its_direction(
    flow: FlowModel,
    packet: PacketSummary,
    policy_to_server: OverlapPolicy,
    policy_to_client: OverlapPolicy,
)
    requires
        packet.tcp is Some,
        packet.tcp->0.flags & 4 != 0,
        flow.streams is Some,
        !flow.saw_reset,
    ensures
        ({
            let after = flow.seen(packet, policy_to_server, policy_to_client);
            let pair = after.streams->0;
            let sequence = packet.tcp->0.sequence;
            &&& after.streams is Some
            &&& packet.source == flow.initiator ==> (after.saw_reset
                <==> pair.to_server.believes_reset(sequence))
            &&& packet.source != flow.initiator ==> (after.saw_reset
                <==> pair.to_client.believes_reset(sequence))
        }),
{
}

/// The identifier of a flow is a hash of everything that tells it from others: the
/// protocol, both ends with their ports, and when it started.
pub proof fn law_identifiers_hash_the_whole_conversation(
    key: FlowKey,
    start: Timestamp,
    hash: u64,
    bytes: Seq<u8>,
    byte: u8,
)
    ensures
        flow_id_bytes(key, start) == seq![key.protocol] + key.first.0.octets() + big_endian(
            key.first.1 as int,
            2,
        ) + key.second.0.octets() + big_endian(key.second.1 as int, 2) + big_endian(
            start.nanos as int,
            8,
        ),
        fnv1a(hash, bytes.push(byte)) == (fnv1a(hash, bytes) ^ (byte as u64)).wrapping_mul(
            0x100_0000_01b3,
        ),
        fnv1a(hash, Seq::<u8>::empty()) == hash,
        FNV_OFFSET_BASIS == 0xcbf2_9ce4_8422_2325,
{
    assert(bytes.push(byte).drop_last() =~= bytes);
}

/// A flow of the table is found by its key, at its place.
pub proof fn law_a_flow_is_found_by_its_key(flows: Seq<FlowModel>, i: int, key: FlowKey)
    requires
        distinct_keys(flows),
    ensures
        0 <= i < flows.len() ==> has_key(flows, flows[i].key) && index_of(flows, flows[i].key) == i,
        has_key(flows, key) ==> 0 <= index_of(flows, key) < flows.len() && flows[index_of(
            flows,
            key,
        )].key == key,
        (forall|k: int| 0 <= k < flows.len() ==> (#[trigger] flows[k]).key != key) ==> !has_key(
            flows,
            key,
        ),
{
    if 0 <= i < flows.len() {
        assert(flows[i].key == flows[i].key);
        assert(has_key(flows, flows[i].key));
        let k = index_of(flows, flows[i].key);
        assert(0 <= k < flows.len() && flows[k].key == flows[i].key);
        if k < i {
            assert(flows[k].key != flows[i].key);
        } else if i < k {
            assert(flows[i].key != flows[k].key);
        }
    }
}

/// What is buffered in a table is what its flows buffer.
pub proof fn law_what_flows_buffer_adds_up(flows: Seq<FlowModel>, flow: FlowModel)
    ensures
        total_buffered(flows.push(flow)) == total_buffered(flows) + flow.buffered(),
        total_buffered(Seq::<FlowModel>::empty()) == 0,
        flow.streams is None ==> flow.buffered() == 0,
        flow.streams matches Some(pair) ==> flow.buffered() == pair.to_server.buffer.stored()
            + pair.to_client.buffer.stored(),
{
    assert(flows.push(flow).drop_last() =~= flows);
}

} // verus!
