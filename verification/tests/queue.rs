use cybersentinel::net::{IpAddr, NetTuple, Protocol};
use cybersentinel::prevent::queue::{
    judge, run, tuple_from_ip_packet, OfflineQueue, QueuedPacket, RunSummary, VerdictSource,
};
use cybersentinel::prevent::{Decision, DropReason, Mode, Prevention, PreventionSettings};
use cybersentinel::time::Clock;

fn ip(text: &str) -> IpAddr {
    IpAddr::parse(text).expect("an address")
}

fn packet(id: u32, src: &str) -> QueuedPacket {
    QueuedPacket {
        id,
        tuple: NetTuple {
            src_ip: ip(src),
            src_port: Some(4_000),
            dest_ip: ip("10.0.0.1"),
            dest_port: Some(80),
            proto: Protocol::Tcp,
        },
    }
}

fn armed() -> Prevention {
    Prevention::new(PreventionSettings {
        mode: Mode::Prevent,
        ..PreventionSettings::default()
    })
}

#[test]
fn an_offline_run_accepts_everything_by_default() {
    let mut queue = OfflineQueue::new(vec![packet(1, "203.0.113.7"), packet(2, "203.0.113.7")]);
    let mut prevention = armed();

    let summary = run(&mut queue, &mut prevention, &Clock::start());
    assert_eq!(summary.accepted, 2);
    assert_eq!(summary.dropped, 0);
    assert!(queue.all_accepted());
}

/// The shape of a real block: the flow is condemned partway through, and
/// everything after it is dropped. The packets before it have already
/// passed — which is the honest limit stated in the crate docs.
#[test]
fn packets_after_a_block_verdict_are_dropped_and_earlier_ones_were_not() {
    let mut prevention = armed();

    let early = packet(1, "203.0.113.7");
    assert_eq!(
        judge(&mut prevention, &early, Clock::start().now()),
        Decision::Accept
    );

    // Detection catches up and condemns the flow.
    prevention.block(&early.tuple, Clock::start().now());

    for id in 2..5 {
        assert_eq!(
            judge(&mut prevention, &packet(id, "203.0.113.7"), Clock::start().now()),
            Decision::Drop(DropReason::FlowVerdict),
            "the rest of the flow is what inline prevention actually stops"
        );
    }
}

#[test]
fn a_run_records_a_verdict_for_every_packet() {
    let packets: Vec<_> = (0..50).map(|id| packet(id, "203.0.113.7")).collect();
    let mut queue = OfflineQueue::new(packets);
    let mut prevention = armed();

    let summary = run(&mut queue, &mut prevention, &Clock::start());
    assert_eq!(
        queue.verdicts.len(),
        50,
        "a queued packet must never be left unanswered"
    );
    assert_eq!(summary.accepted + summary.dropped, 50);
}

#[test]
fn latency_is_measured_for_every_judged_packet() {
    let mut prevention = armed();
    for id in 0..10 {
        judge(&mut prevention, &packet(id, "203.0.113.7"), Clock::start().now());
    }
    let stats = prevention.stats();
    assert_eq!(stats.counters.packets_judged, 10);
    // The verdict path is table lookups; anything approaching a
    // millisecond would mean something is very wrong.
    assert!(
        stats.counters.verdict_latency_us_max < 1_000,
        "verdict took {}us, which is not a table lookup",
        stats.counters.verdict_latency_us_max
    );
}

#[test]
fn detect_mode_accepts_a_condemned_flow() {
    let mut prevention = Prevention::new(PreventionSettings::default());
    let first = packet(1, "203.0.113.7");
    prevention.block(&first.tuple, Clock::start().now());

    let mut queue = OfflineQueue::new(vec![packet(2, "203.0.113.7")]);
    run(&mut queue, &mut prevention, &Clock::start());
    assert!(queue.all_accepted());
}

/// Blocking a conversation has to stop the replies too. A server still
/// answering an attacker whose requests are being dropped is a half-closed
/// session, not a blocked one.
#[test]
fn a_block_stops_both_directions_of_the_conversation() {
    let mut prevention = armed();
    let now = Clock::start().now();

    let request = packet(1, "203.0.113.7").tuple;
    prevention.block(&request, now);

    let reply = NetTuple {
        src_ip: request.dest_ip,
        src_port: request.dest_port,
        dest_ip: request.src_ip,
        dest_port: request.src_port,
        proto: request.proto,
    };
    assert!(
        prevention.decide(&reply, now).is_drop(),
        "the reply direction must be dropped by the same verdict"
    );
}

// -----------------------------------------------------------------------
// reading the tuple out of a packet
// -----------------------------------------------------------------------

/// A minimal IPv4 TCP packet.
fn ipv4_tcp(src: [u8; 4], dest: [u8; 4], sport: u16, dport: u16) -> Vec<u8> {
    let mut packet = vec![0_u8; 40];
    packet[0] = 0x45; // version 4, 5-word header
    packet[9] = 6; // TCP
    packet[12..16].copy_from_slice(&src);
    packet[16..20].copy_from_slice(&dest);
    packet[20..22].copy_from_slice(&sport.to_be_bytes());
    packet[22..24].copy_from_slice(&dport.to_be_bytes());
    packet
}

#[test]
fn reads_an_ipv4_tcp_tuple() {
    let bytes = ipv4_tcp([203, 0, 113, 7], [10, 0, 0, 1], 4_000, 80);
    let tuple = tuple_from_ip_packet(&bytes).expect("a tuple");
    assert_eq!(tuple.src_ip.to_text(), "203.0.113.7");
    assert_eq!(tuple.dest_ip.to_text(), "10.0.0.1");
    assert_eq!(tuple.src_port, Some(4_000));
    assert_eq!(tuple.dest_port, Some(80));
}

#[test]
fn reads_an_ipv6_tuple() {
    let mut packet = vec![0_u8; 48];
    packet[0] = 0x60;
    packet[6] = 17; // UDP
    packet[8..24]
        .copy_from_slice(&[0x20, 0x01, 0x0d, 0xb8, 0, 0, 0, 0, 0, 0, 0, 0, 0, 0, 0, 1]);
    packet[24..40]
        .copy_from_slice(&[0x20, 0x01, 0x0d, 0xb8, 0, 0, 0, 0, 0, 0, 0, 0, 0, 0, 0, 2]);
    packet[40..42].copy_from_slice(&53_u16.to_be_bytes());
    packet[42..44].copy_from_slice(&5_353_u16.to_be_bytes());

    let tuple = tuple_from_ip_packet(&packet).expect("a tuple");
    assert_eq!(tuple.src_ip.to_text(), "2001:db8::1");
    assert_eq!(tuple.src_port, Some(53));
}

/// A later fragment carries no ports. Reading them out of the payload
/// would attribute the packet to a port nobody used.
#[test]
fn a_non_initial_fragment_has_no_ports() {
    let mut bytes = ipv4_tcp([203, 0, 113, 7], [10, 0, 0, 1], 4_000, 80);
    bytes[6] = 0x00;
    bytes[7] = 0x25; // a non-zero fragment offset
    let tuple = tuple_from_ip_packet(&bytes).expect("a tuple");
    assert_eq!(tuple.src_port, None);
    assert_eq!(
        tuple.src_ip.to_text(),
        "203.0.113.7",
        "the addresses are still readable, which is what source blocking needs"
    );
}

#[test]
fn icmp_has_no_ports_and_is_still_identified() {
    let mut bytes = ipv4_tcp([203, 0, 113, 7], [10, 0, 0, 1], 0, 0);
    bytes[9] = 1; // ICMP
    let tuple = tuple_from_ip_packet(&bytes).expect("a tuple");
    assert_eq!(tuple.src_port, None);
    assert_eq!(tuple.proto, Protocol::Icmp);
}

#[test]
fn a_truncated_or_nonsense_packet_yields_no_tuple() {
    for bytes in [
        vec![],
        vec![0x45],
        vec![0x45; 10],
        vec![0x60; 20],
        vec![0xf0; 40],
        vec![0x40; 40],
    ] {
        let _ = tuple_from_ip_packet(&bytes);
    }
    assert!(tuple_from_ip_packet(&[]).is_none());
    assert!(
        tuple_from_ip_packet(&[0x45; 10]).is_none(),
        "too short for a v4 header"
    );
    assert!(
        tuple_from_ip_packet(&[0xf0; 40]).is_none(),
        "not a known IP version"
    );
}

#[test]
fn an_empty_queue_is_a_valid_run() {
    let mut queue = OfflineQueue::new(Vec::new());
    let mut prevention = armed();
    assert_eq!(run(&mut queue, &mut prevention, &Clock::start()), RunSummary::default());
}

#[test]
fn a_default_queue_holds_nothing() {
    let mut queue = OfflineQueue::default();
    assert!(queue.next_packet().is_none());
    assert!(queue.verdicts.is_empty());
    assert!(queue.all_accepted());
}
