//! The driver: packets in, verdicts out.
//!
//! Deliberately thin. Everything that decides anything lives in
//! [`super::store`]; this module gets packets from somewhere and hands back an
//! answer.

use vstd::prelude::*;
use crate::bytes::{network_number_at, network_order, read_network_number};
use crate::net::{big_endian, IpAddr, NetTuple, Protocol};
use crate::time::{Clock, Timestamp};
use super::store::{Decision, Prevention, PreventionModel};

verus! {

/// A packet the kernel is holding while the decision is made.
#[derive(Debug, Clone, Copy, PartialEq, Eq, Structural)]
pub struct QueuedPacket {
    /// The kernel's handle for this packet, echoed back with the verdict.
    pub id: u32,
    /// Its 5-tuple. The verdict path derives everything it needs from this.
    pub tuple: NetTuple,
}

/// A source of packets awaiting a verdict.
///
/// The verdict path cannot tell a kernel queue from one that replays packets from
/// memory: the logic is the same.
pub trait VerdictSource {
    /// The packets it is known to hand out next. A source that learns of a packet
    /// only when it arrives knows of none.
    open spec fn backlog(&self) -> Seq<QueuedPacket> {
        seq![]
    }

    /// Whether nothing comes after the backlog.
    open spec fn closed(&self) -> bool {
        false
    }

    /// Whether it remembers the answers handed back.
    open spec fn remembers(&self) -> bool {
        false
    }

    /// The answers it remembers.
    open spec fn answers(&self) -> Seq<(u32, Decision)> {
        seq![]
    }

    /// Wait for the next packet. `None` means the source is finished.
    fn next_packet(&mut self) -> (packet: Option<QueuedPacket>)
        ensures
            final(self).remembers() == old(self).remembers(),
            final(self).answers() == old(self).answers(),
            final(self).closed() == old(self).closed(),
            old(self).backlog().len() > 0 ==> {
                &&& packet == Some(old(self).backlog()[0])
                &&& final(self).backlog() == old(self).backlog().skip(1)
            },
            old(self).backlog().len() == 0 ==> {
                &&& final(self).backlog() == old(self).backlog()
                &&& old(self).closed() ==> packet is None
            },
    ;

    /// Hand back the answer.
    fn resolve(&mut self, packet: QueuedPacket, decision: Decision)
        ensures
            final(self).remembers() == old(self).remembers(),
            old(self).remembers() ==> final(self).answers() == old(self).answers().push(
                (packet.id, decision),
            ),
            final(self).closed() == old(self).closed(),
            final(self).backlog() == old(self).backlog(),
    ;
}

/// A packet, when it was judged, and how many microseconds that took.
pub struct Judgement {
    /// The packet.
    pub packet: QueuedPacket,
    /// When it was judged.
    pub now: Timestamp,
    /// How long that took.
    pub micros: u64,
}

/// A store after judgements, one after the other.
pub open spec fn after_judgements(store: PreventionModel, log: Seq<Judgement>) -> PreventionModel
    decreases log.len(),
{
    if log.len() == 0 {
        store
    } else {
        let before = after_judgements(store, log.drop_last());
        before.judged(log.last().packet.tuple, log.last().now).timed(log.last().micros)
    }
}

/// The answers that judgements give: each packet's own handle, and what the store
/// says of it.
pub open spec fn answers_of(store: PreventionModel, log: Seq<Judgement>) -> Seq<(u32, Decision)>
    decreases log.len(),
{
    if log.len() == 0 {
        seq![]
    } else {
        let before = after_judgements(store, log.drop_last());
        answers_of(store, log.drop_last()).push(
            (
                log.last().packet.id,
                before.verdict(log.last().packet.tuple, log.last().now),
            ),
        )
    }
}

/// How many answers drop their packet.
pub open spec fn drops_in(answers: Seq<(u32, Decision)>) -> nat
    decreases answers.len(),
{
    if answers.len() == 0 {
        0
    } else {
        drops_in(answers.drop_last()) + if answers.last().1 is Drop {
            1nat
        } else {
            0nat
        }
    }
}

/// The packets of judgements.
pub open spec fn packets_of(log: Seq<Judgement>) -> Seq<QueuedPacket> {
    log.map_values(|judgement: Judgement| judgement.packet)
}

/// Judge one packet. The entire hot path.
///
/// How long it took depends on the machine: whatever the clock said is what is
/// counted.
pub fn judge(prevention: &mut Prevention, packet: &QueuedPacket, now: Timestamp) -> (decision:
    Decision)
    requires
        old(prevention).well_formed(),
        old(prevention)@.counters.can_judge(),
        old(prevention)@.counters.verdict_latency_over_1ms < u64::MAX,
        old(prevention)@.counters.verdict_latency_over_10ms < u64::MAX,
    ensures
        final(prevention).well_formed(),
        decision == old(prevention)@.verdict(packet.tuple, now),
        exists|micros: u64|
            final(prevention)@ == #[trigger] old(prevention)@.judged(packet.tuple, now).timed(micros),
{
    let started = Clock::start();
    let decision = prevention.decide(&packet.tuple, now);
    let micros: u64 = started.micros();
    prevention.record_latency(micros);
    decision
}

/// What a run did.
#[derive(Debug, Clone, Copy, PartialEq, Eq, Structural)]
pub struct RunSummary {
    /// Packets passed.
    pub accepted: u64,
    /// Packets dropped.
    pub dropped: u64,
}

impl Default for RunSummary {
    fn default() -> (summary: Self)
        ensures
            summary == (RunSummary { accepted: 0, dropped: 0 }),
    {
        RunSummary { accepted: 0, dropped: 0 }
    }
}

/// Every packet that is judged is answered, in order and under its own handle.
pub proof fn law_every_packet_is_answered(store: PreventionModel, log: Seq<Judgement>)
    ensures
        answers_of(store, log).len() == log.len(),
        forall|i: int|
            0 <= i < log.len() ==> (#[trigger] answers_of(store, log)[i]).0 == log[i].packet.id,
        drops_in(answers_of(store, log)) <= log.len(),
    decreases log.len(),
{
    if log.len() > 0 {
        law_every_packet_is_answered(store, log.drop_last());
        assert(answers_of(store, log).drop_last() =~= answers_of(store, log.drop_last()));
        assert forall|i: int| 0 <= i < log.len() implies (#[trigger] answers_of(store, log)[i]).0
            == log[i].packet.id by {
            if i < log.len() - 1 {
                assert(answers_of(store, log)[i] == answers_of(store, log.drop_last())[i]);
                assert(log.drop_last()[i] == log[i]);
            }
        }
    }
}

/// Run a source to completion, judging everything it produces.
///
/// Which packets come and when depends on the source and the machine. Whatever
/// they are, each is judged against the store as the packets before it left it,
/// and answered under its own handle. The run ends when the source is finished, or
/// when a count of the store has no room left.
pub fn run<S: VerdictSource>(source: &mut S, prevention: &mut Prevention, clock: &Clock) -> (summary:
    RunSummary)
    requires
        old(prevention).well_formed(),
    ensures
        final(prevention).well_formed(),
        exists|log: Seq<Judgement>|
            {
                &&& final(prevention)@ == #[trigger] after_judgements(old(prevention)@, log)
                &&& old(source).remembers() ==> final(source).answers() == old(source).answers()
                    + answers_of(old(prevention)@, log)
                &&& summary.accepted + summary.dropped == log.len()
                &&& summary.dropped == drops_in(answers_of(old(prevention)@, log))
                &&& old(source).closed() && old(prevention)@.counters.has_room(
                    old(source).backlog().len() as int + 1,
                ) ==> packets_of(log) == old(source).backlog()
            },
{
    let mut accepted: u64 = 0;
    let mut dropped: u64 = 0;
    let ghost start = prevention@;
    let ghost given = source.answers();
    let ghost kept = source.remembers();
    let ghost waiting = source.backlog();
    let ghost shut = source.closed();
    let ghost mut log: Seq<Judgement> = seq![];
    assert(given + answers_of(start, log) =~= given);
    assert(packets_of(log) + waiting =~= waiting);
    let mut running = prevention.can_count();
    while running
        invariant
            prevention.well_formed(),
            running ==> prevention@.counters.has_room(1),
            prevention@ == after_judgements(start, log),
            source.remembers() == kept,
            kept ==> source.answers() == given + answers_of(start, log),
            source.closed() == shut,
            accepted + dropped == log.len(),
            dropped == drops_in(answers_of(start, log)),
            log.len() <= prevention@.counters.packets_judged,
            prevention@.counters.packets_judged == start.counters.packets_judged + log.len(),
            prevention@.counters.at_most(start.counters, log.len() as int),
            shut ==> packets_of(log) + source.backlog() == waiting,
            !running && shut && start.counters.has_room(waiting.len() as int + 1)
                ==> source.backlog().len() == 0,
        decreases u64::MAX - prevention@.counters.packets_judged, (if running {
            1int
        } else {
            0
        }),
    {
        let ghost ahead = source.backlog();
        match source.next_packet() {
            None => {
                running = false;
            },
            Some(packet) => {
                let now = clock.now();
                let ghost before = prevention@;
                let decision = judge(prevention, &packet, now);
                proof {
                    let micros = choose|micros: u64|
                        prevention@ == #[trigger] before.judged(packet.tuple, now).timed(micros);
                    let earlier = log;
                    let entry = Judgement { packet, now, micros };
                    log = log.push(entry);
                    assert(log.drop_last() =~= earlier);
                    law_every_packet_is_answered(start, earlier);
                    assert(answers_of(start, log).drop_last() =~= answers_of(start, earlier));
                    assert(packets_of(log) =~= packets_of(earlier).push(packet));
                    if shut {
                        assert(packets_of(log) + ahead.skip(1) =~= packets_of(earlier) + ahead);
                    }
                }
                match decision {
                    Decision::Accept => {
                        accepted = accepted + 1;
                    },
                    Decision::Drop(_) => {
                        dropped = dropped + 1;
                    },
                }
                source.resolve(packet, decision);
                assert(kept ==> source.answers() =~= given + answers_of(start, log));
                running = prevention.can_count();
            },
        }
    }
    proof {
        if shut && start.counters.has_room(waiting.len() as int + 1) {
            assert(packets_of(log) =~= waiting);
        }
    }
    RunSummary { accepted, dropped }
}

// ---------------------------------------------------------------------------
// offline
// ---------------------------------------------------------------------------

/// A queue with no kernel behind it.
///
/// The verdict path is the one part that can take a network down, so it has to be
/// possible to run it without root, nftables and a spare interface. This replays
/// packets from memory and records the verdicts.
#[derive(Debug)]
pub struct OfflineQueue {
    /// The packets not handed out yet, the next one last.
    pending: Vec<QueuedPacket>,
    /// What was decided, in order.
    pub verdicts: Vec<(u32, Decision)>,
}

impl Default for OfflineQueue {
    /// A queue holding nothing.
    fn default() -> (queue: Self)
        ensures
            queue.backlog() == Seq::<QueuedPacket>::empty(),
            queue.closed(),
            queue.answers() == Seq::<(u32, Decision)>::empty(),
    {
        Self::new(Vec::new())
    }
}

impl OfflineQueue {
    /// A queue holding these packets.
    pub fn new(packets: Vec<QueuedPacket>) -> (queue: Self)
        ensures
            queue.backlog() == packets@,
            queue.closed(),
            queue.answers() == Seq::<(u32, Decision)>::empty(),
    {
        let mut pending: Vec<QueuedPacket> = Vec::new();
        let mut left: usize = packets.len();
        while left > 0
            invariant
                left <= packets@.len(),
                pending@ == packets@.skip(left as int).reverse(),
            decreases left,
        {
            left = left - 1;
            assert(packets@.skip(left as int).reverse() =~= packets@.skip(left + 1).reverse().push(
                packets@[left as int],
            ));
            pending.push(packets[left]);
        }
        let queue = Self { pending, verdicts: Vec::new() };
        assert(packets@.skip(0) =~= packets@);
        assert(queue.backlog() =~= packets@);
        queue
    }

    /// What was decided, in order.
    pub open spec fn decided(&self) -> Seq<Decision> {
        self.answers().map_values(|verdict: (u32, Decision)| verdict.1)
    }

    /// Whether every packet was accepted.
    pub fn all_accepted(&self) -> (all: bool)
        ensures
            all == (forall|i: int|
                0 <= i < self.decided().len() ==> self.decided()[i] == Decision::Accept),
    {
        let mut i: usize = 0;
        while i < self.verdicts.len()
            invariant
                i <= self.verdicts@.len(),
                forall|j: int| 0 <= j < i ==> self.decided()[j] == Decision::Accept,
            decreases self.verdicts@.len() - i,
        {
            if self.verdicts[i].1.is_drop() {
                assert(self.decided()[i as int] is Drop);
                return false;
            }
            i = i + 1;
        }
        true
    }

    /// The decisions, without the ids.
    pub fn decisions(&self) -> (decisions: Vec<Decision>)
        ensures
            decisions@ == self.decided(),
    {
        let mut decisions: Vec<Decision> = Vec::new();
        let mut i: usize = 0;
        while i < self.verdicts.len()
            invariant
                i <= self.verdicts@.len(),
                decisions@ == self.decided().take(i as int),
            decreases self.verdicts@.len() - i,
        {
            decisions.push(self.verdicts[i].1);
            assert(decisions@ =~= self.decided().take(i + 1));
            i = i + 1;
        }
        assert(decisions@ =~= self.decided());
        decisions
    }
}

impl VerdictSource for OfflineQueue {
    closed spec fn backlog(&self) -> Seq<QueuedPacket> {
        self.pending@.reverse()
    }

    open spec fn closed(&self) -> bool {
        true
    }

    open spec fn remembers(&self) -> bool {
        true
    }

    closed spec fn answers(&self) -> Seq<(u32, Decision)> {
        self.verdicts@
    }

    fn next_packet(&mut self) -> (packet: Option<QueuedPacket>) {
        let ghost before = self.pending@;
        let packet = self.pending.pop();
        proof {
            if before.len() > 0 {
                assert(self.pending@.reverse() =~= before.reverse().skip(1));
            }
        }
        packet
    }

    fn resolve(&mut self, packet: QueuedPacket, decision: Decision) {
        self.verdicts.push((packet.id, decision));
    }
}

// ---------------------------------------------------------------------------
// the 5-tuple, from a bare IP packet
// ---------------------------------------------------------------------------

/// The protocol that an IP header names.
pub open spec fn protocol_of(number: u8) -> Protocol {
    if number == 6 {
        Protocol::Tcp
    } else if number == 17 {
        Protocol::Udp
    } else if number == 1 || number == 58 {
        Protocol::Icmp
    } else {
        Protocol::Ip
    }
}

/// The tuple of a packet with these addresses and this protocol, whose transport
/// header begins at `transport` where it has one. Ports are those of a TCP or UDP
/// header that is there.
pub open spec fn with_ports(
    bytes: Seq<u8>,
    source: IpAddr,
    destination: IpAddr,
    protocol: u8,
    transport: Option<int>,
) -> NetTuple {
    let proto = protocol_of(protocol);
    let readable = (proto == Protocol::Tcp || proto == Protocol::Udp) && match transport {
        Some(at) => at + 4 <= bytes.len(),
        None => false,
    };
    NetTuple {
        src_ip: source,
        src_port: if readable {
            Some(network_number_at(bytes, transport->0, 2) as u16)
        } else {
            None
        },
        dest_ip: destination,
        dest_port: if readable {
            Some(network_number_at(bytes, transport->0 + 2, 2) as u16)
        } else {
            None
        },
        proto,
    }
}

/// The tuple of an IP packet. The words of an IPv4 header are counted in its first
/// byte, and a fragment that is not the first has no transport header.
pub open spec fn tuple_of(bytes: Seq<u8>) -> Option<NetTuple> {
    if bytes.len() == 0 {
        None
    } else if bytes[0] / 16 == 4 {
        let header = (bytes[0] % 16) * 4;
        if header < 20 || bytes.len() < header {
            None
        } else {
            Some(
                with_ports(
                    bytes,
                    IpAddr::V4(network_number_at(bytes, 12, 4) as u32),
                    IpAddr::V4(network_number_at(bytes, 16, 4) as u32),
                    bytes[9],
                    if bytes[6] % 32 == 0 && bytes[7] == 0 {
                        Some(header)
                    } else {
                        None
                    },
                ),
            )
        }
    } else if bytes[0] / 16 == 6 {
        if bytes.len() < 40 {
            None
        } else {
            Some(
                with_ports(
                    bytes,
                    IpAddr::V6(network_number_at(bytes, 8, 16) as u128),
                    IpAddr::V6(network_number_at(bytes, 24, 16) as u128),
                    bytes[6],
                    Some(40),
                ),
            )
        }
    } else {
        None
    }
}

fn read_protocol(number: u8) -> (protocol: Protocol)
    ensures
        protocol == protocol_of(number),
{
    match number {
        6 => Protocol::Tcp,
        17 => Protocol::Udp,
        1 => Protocol::Icmp,
        58 => Protocol::Icmp,
        _ => Protocol::Ip,
    }
}

fn read_ports(
    bytes: &[u8],
    source: IpAddr,
    destination: IpAddr,
    protocol: u8,
    transport: Option<usize>,
) -> (tuple: NetTuple)
    requires
        transport matches Some(at) ==> at <= bytes@.len(),
    ensures
        tuple == with_ports(
            bytes@,
            source,
            destination,
            protocol,
            match transport {
                Some(at) => Some(at as int),
                None => None,
            },
        ),
{
    let proto = read_protocol(protocol);
    let wants_ports = proto == Protocol::Tcp || proto == Protocol::Udp;
    match transport {
        Some(at) => {
            if wants_ports && bytes.len() - at >= 4 {
                return NetTuple {
                    src_ip: source,
                    src_port: Some(read_network_number(bytes, at, 2) as u16),
                    dest_ip: destination,
                    dest_port: Some(read_network_number(bytes, at + 2, 2) as u16),
                    proto,
                };
            }
        },
        None => {},
    }
    NetTuple { src_ip: source, src_port: None, dest_ip: destination, dest_port: None, proto }
}

/// Read the 5-tuple out of an IP packet.
///
/// A kernel queue hands over the packet from the IP header on, so this is a
/// deliberately small, bounded read of just the fields the verdict path needs. It
/// is not a decoder: anything it does not fully understand yields `None`, and a
/// packet with no tuple is accepted rather than guessed at.
///
/// A later fragment carries no ports, and inventing them from the payload would
/// attribute the packet to a port nobody used. IPv6 extension headers are not
/// walked: a packet carrying them is still identified by address, which is what
/// source blocking needs.
pub fn tuple_from_ip_packet(bytes: &[u8]) -> (tuple: Option<NetTuple>)
    ensures
        tuple == tuple_of(bytes@),
{
    if bytes.len() == 0 {
        return None;
    }
    let version: u8 = bytes[0] / 16;
    if version == 4 {
        let header: usize = (bytes[0] % 16) as usize * 4;
        if header < 20 || bytes.len() < header {
            return None;
        }
        let source = IpAddr::V4(read_network_number(bytes, 12, 4) as u32);
        let destination = IpAddr::V4(read_network_number(bytes, 16, 4) as u32);
        let transport: Option<usize> = if bytes[6] % 32 == 0 && bytes[7] == 0 {
            Some(header)
        } else {
            None
        };
        Some(read_ports(bytes, source, destination, bytes[9], transport))
    } else if version == 6 {
        if bytes.len() < 40 {
            return None;
        }
        let source = IpAddr::V6(read_network_number(bytes, 8, 16));
        let destination = IpAddr::V6(read_network_number(bytes, 24, 16));
        Some(read_ports(bytes, source, destination, bytes[6], Some(40)))
    } else {
        None
    }
}

proof fn lemma_spelled_back(bytes: Seq<u8>)
    ensures
        big_endian(network_order(bytes) as int, bytes.len()) == bytes,
    decreases bytes.len(),
{
    if bytes.len() > 0 {
        let front = network_order(bytes.drop_last()) as int;
        lemma_spelled_back(bytes.drop_last());
        assert((256 * front + bytes.last()) / 256 == front);
        assert((256 * front + bytes.last()) % 256 == bytes.last());
        assert(big_endian(network_order(bytes) as int, bytes.len()) =~= bytes);
    }
}

proof fn lemma_network_bound(bytes: Seq<u8>)
    ensures
        bytes.len() == 4 ==> network_order(bytes) <= u32::MAX,
        bytes.len() == 16 ==> network_order(bytes) <= u128::MAX,
{
    reveal_with_fuel(network_order, 17);
}

/// The addresses of a tuple are the packet's own bytes, as they stand.
pub proof fn law_addresses_are_read_as_they_stand(bytes: Seq<u8>)
    requires
        tuple_of(bytes) is Some,
    ensures
        bytes[0] / 16 == 4 ==> {
            &&& tuple_of(bytes)->0.src_ip.octets() == bytes.subrange(12, 16)
            &&& tuple_of(bytes)->0.dest_ip.octets() == bytes.subrange(16, 20)
        },
        bytes[0] / 16 == 6 ==> {
            &&& tuple_of(bytes)->0.src_ip.octets() == bytes.subrange(8, 24)
            &&& tuple_of(bytes)->0.dest_ip.octets() == bytes.subrange(24, 40)
        },
{
    if bytes[0] / 16 == 4 {
        lemma_spelled_back(bytes.subrange(12, 16));
        lemma_spelled_back(bytes.subrange(16, 20));
        lemma_network_bound(bytes.subrange(12, 16));
        lemma_network_bound(bytes.subrange(16, 20));
    } else {
        lemma_spelled_back(bytes.subrange(8, 24));
        lemma_spelled_back(bytes.subrange(24, 40));
        lemma_network_bound(bytes.subrange(8, 24));
        lemma_network_bound(bytes.subrange(24, 40));
    }
}

/// Ports are never invented: a fragment that is not the first has none, and
/// neither has a packet that is not TCP or UDP.
pub proof fn law_ports_are_never_invented(bytes: Seq<u8>)
    requires
        tuple_of(bytes) is Some,
        ({
            ||| bytes[0] / 16 == 4 && (bytes[6] % 32 != 0 || bytes[7] != 0)
            ||| tuple_of(bytes)->0.proto != Protocol::Tcp && tuple_of(bytes)->0.proto
                != Protocol::Udp
        }),
    ensures
        tuple_of(bytes)->0.src_port is None,
        tuple_of(bytes)->0.dest_port is None,
{
}

proof fn lemma_two_bytes(bytes: Seq<u8>, at: int)
    requires
        0 <= at,
        at + 2 <= bytes.len(),
    ensures
        network_number_at(bytes, at, 2) == bytes[at] as int * 256 + bytes[at + 1] as int,
        network_number_at(bytes, at, 2) <= u16::MAX,
{
    let pair = bytes.subrange(at, at + 2);
    assert(pair.drop_last() =~= seq![bytes[at]]);
    assert(pair.drop_last().drop_last() =~= seq![]);
    reveal_with_fuel(network_order, 3);
}

/// The big-endian number of the two bytes at a place.
pub open spec fn two_bytes(bytes: Seq<u8>, at: int) -> int {
    bytes[at] as int * 256 + bytes[at + 1] as int
}

/// Ports are read wherever they are: of a TCP or UDP packet over IPv4 that is whole or a
/// first fragment, whatever its flag bits say, they are the two big-endian numbers at
/// the start of the transport header, and likewise at byte 40 of an IPv6 packet.
pub proof fn law_ports_are_read_where_they_stand(bytes: Seq<u8>)
    requires
        bytes.len() > 0,
    ensures
        ({
            let header = (bytes[0] as int % 16) * 4;
            let offset = (bytes[6] as int % 32) * 256 + bytes[7] as int;
            bytes[0] as int / 16 == 4 && header >= 20 && bytes.len() >= header + 4 && offset == 0
                && (bytes[9] == 6 || bytes[9] == 17) ==> {
                &&& tuple_of(bytes) matches Some(tuple)
                &&& tuple.src_port matches Some(source)
                &&& tuple.dest_port matches Some(destination)
                &&& source == two_bytes(bytes, header)
                &&& destination == two_bytes(bytes, header + 2)
            }
        }),
        bytes[0] as int / 16 == 6 && bytes.len() >= 44 && (bytes[6] == 6 || bytes[6] == 17) ==> {
            &&& tuple_of(bytes) matches Some(tuple)
            &&& tuple.src_port matches Some(source)
            &&& tuple.dest_port matches Some(destination)
            &&& source == two_bytes(bytes, 40)
            &&& destination == two_bytes(bytes, 42)
        },
{
    let header = (bytes[0] as int % 16) * 4;
    if bytes.len() >= header + 4 {
        lemma_two_bytes(bytes, header);
        lemma_two_bytes(bytes, header + 2);
    }
    if bytes.len() >= 44 {
        lemma_two_bytes(bytes, 40);
        lemma_two_bytes(bytes, 42);
    }
}

/// A packet is understood exactly where its header is whole, and its protocol is the
/// one that its header numbers. One that ends before its ports has none.
pub proof fn law_a_whole_header_is_understood(bytes: Seq<u8>)
    requires
        bytes.len() > 0,
    ensures
        ({
            let version = bytes[0] / 16;
            let header = (bytes[0] % 16) * 4;
            let number = if version == 4 {
                bytes[9]
            } else {
                bytes[6]
            };
            &&& tuple_of(bytes) is Some <==> {
                ||| version == 4 && header >= 20 && bytes.len() >= header
                ||| version == 6 && bytes.len() >= 40
            }
            &&& tuple_of(bytes) matches Some(tuple) ==> {
                &&& number == 6 <==> tuple.proto == Protocol::Tcp
                &&& number == 17 <==> tuple.proto == Protocol::Udp
                &&& number == 1 || number == 58 <==> tuple.proto == Protocol::Icmp
                &&& tuple.src_port is Some <==> tuple.dest_port is Some
                &&& version == 4 && bytes.len() < header + 4 ==> tuple.src_port is None
                &&& version == 6 && bytes.len() < 44 ==> tuple.src_port is None
                &&& version == 4 ==> tuple.src_ip is V4 && tuple.dest_ip is V4
                &&& version == 6 ==> tuple.src_ip is V6 && tuple.dest_ip is V6
            }
        }),
        tuple_of(Seq::<u8>::empty()) is None,
{
}

/// Every answer is the verdict of the store as the packets before left it, and those
/// that drop are counted as drops.
pub proof fn law_answers_are_verdicts(store: PreventionModel, log: Seq<Judgement>, i: int)
    requires
        0 <= i < log.len(),
    ensures
        answers_of(store, log)[i].1 == after_judgements(store, log.take(i)).verdict(
            log[i].packet.tuple,
            log[i].now,
        ),
        answers_of(store, log)[i].0 == log[i].packet.id,
    decreases log.len(),
{
    law_every_packet_is_answered(store, log.drop_last());
    if i < log.len() - 1 {
        law_answers_are_verdicts(store, log.drop_last(), i);
        assert(log.drop_last().take(i) =~= log.take(i));
        assert(answers_of(store, log)[i] == answers_of(store, log.drop_last())[i]);
    } else {
        assert(log.take(i) =~= log.drop_last());
    }
}

/// Drops are counted one for one.
pub proof fn law_drops_are_counted_one_for_one(answers: Seq<(u32, Decision)>, id: u32)
    ensures
        drops_in(answers.push((id, Decision::Accept))) == drops_in(answers),
        forall|reason: super::store::DropReason| #[trigger]
            drops_in(answers.push((id, Decision::Drop(reason)))) == drops_in(answers) + 1,
        drops_in(Seq::<(u32, Decision)>::empty()) == 0,
{
    assert(answers.push((id, Decision::Accept)).drop_last() =~= answers);
    assert forall|reason: super::store::DropReason| #[trigger]
        drops_in(answers.push((id, Decision::Drop(reason)))) == drops_in(answers) + 1 by {
        assert(answers.push((id, Decision::Drop(reason))).drop_last() =~= answers);
    }
}

} // verus!
