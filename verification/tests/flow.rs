use cybersentinel::config::ReassemblyConfig;
use cybersentinel::net::{Endpoint, IpAddr};
use cybersentinel::reassembly::flow::{EndReason, FlowTable, Observed, PacketSummary};
use cybersentinel::reassembly::stream::{StreamReady, TcpSegment};
use cybersentinel::reassembly::{Limits, OverlapPolicy};
use cybersentinel::time::{Duration, Timestamp};

/// A control packet with no payload.
fn observe(
    table: &mut FlowTable,
    protocol: u8,
    source: Endpoint,
    destination: Endpoint,
    timestamp: Timestamp,
    frame_len: usize,
    tcp_flags: Option<u8>,
) -> Observed {
    observe_segment(
        table,
        protocol,
        source,
        destination,
        timestamp,
        frame_len,
        tcp_flags.map(|flags| TcpSegment {
            sequence: 0,
            acknowledgment: 0,
            flags,
            payload: b"",
        }),
    )
}

fn observe_segment(
    table: &mut FlowTable,
    protocol: u8,
    source: Endpoint,
    destination: Endpoint,
    timestamp: Timestamp,
    frame_len: usize,
    tcp: Option<TcpSegment<'_>>,
) -> Observed {
    let mut ready = StreamReady::default();
    table.observe(
        &PacketSummary {
            protocol,
            source,
            destination,
            timestamp,
            frame_len,
            tcp,
        },
        |_| OverlapPolicy::First,
        &mut ready,
    )
}

const TCP: u8 = 6;
const UDP: u8 = 17;
const SYN: u8 = 0b0000_0010;
const FIN: u8 = 0b0000_0001;
const ACK: u8 = 0b0001_0000;
const RST: u8 = 0b0000_0100;

fn endpoint(last_octet: u8, port: u16) -> Endpoint {
    (IpAddr::v4(192, 0, 2, last_octet), port)
}

fn at(seconds: u64) -> Timestamp {
    Timestamp::from_secs(seconds)
}

fn table(max_flows: usize, timeout_secs: u64) -> FlowTable {
    FlowTable::new(Limits {
        max_flows,
        flow_timeout: Duration::from_secs(timeout_secs),
        ..Limits::default()
    })
}

#[test]
fn both_directions_map_to_one_flow() {
    let mut table = table(100, 300);
    let client = endpoint(1, 51_000);
    let server = endpoint(2, 80);

    let first = observe(&mut table, TCP, client, server, at(0), 74, Some(SYN));
    let reply = observe(&mut table, TCP, server, client, at(1), 74, Some(SYN | ACK));

    assert_eq!(
        first.flow_id, reply.flow_id,
        "a reply belongs to the same flow"
    );
    assert!(first.is_new);
    assert!(!reply.is_new);
    assert!(
        first.to_server,
        "the opener defines the to-server direction"
    );
    assert!(!reply.to_server);
    assert_eq!(table.len(), 1);
    assert_eq!(table.counters().created, 1);
}

#[test]
fn a_different_port_is_a_different_flow() {
    let mut table = table(100, 300);
    let a = observe(
        &mut table,
        TCP,
        endpoint(1, 51_000),
        endpoint(2, 80),
        at(0),
        74,
        None,
    );
    let b = observe(
        &mut table,
        TCP,
        endpoint(1, 51_001),
        endpoint(2, 80),
        at(0),
        74,
        None,
    );
    assert_ne!(a.flow_id, b.flow_id);
    assert_eq!(table.len(), 2);
}

#[test]
fn the_same_ports_on_a_different_protocol_are_different_flows() {
    let mut table = table(100, 300);
    let tcp = observe(
        &mut table,
        TCP,
        endpoint(1, 5_000),
        endpoint(2, 53),
        at(0),
        74,
        None,
    );
    let udp = observe(
        &mut table,
        UDP,
        endpoint(1, 5_000),
        endpoint(2, 53),
        at(0),
        74,
        None,
    );
    assert_ne!(tcp.flow_id, udp.flow_id);
}

#[test]
fn counters_are_kept_per_direction() {
    let mut table = table(100, 300);
    let client = endpoint(1, 51_000);
    let server = endpoint(2, 80);

    observe(&mut table, TCP, client, server, at(0), 100, None);
    observe(&mut table, TCP, client, server, at(1), 200, None);
    observe(&mut table, TCP, server, client, at(2), 1_500, None);
    table.flush();

    let ended = &table.ended_mut()[0];
    assert_eq!(ended.flow.to_server.packets, 2);
    assert_eq!(ended.flow.to_server.bytes, 300);
    assert_eq!(ended.flow.to_client.packets, 1);
    assert_eq!(ended.flow.to_client.bytes, 1_500);
    assert_eq!(ended.reason, EndReason::SensorStopped);
}

#[test]
fn a_tcp_teardown_closes_the_flow() {
    let mut table = table(100, 300);
    let client = endpoint(1, 51_000);
    let server = endpoint(2, 80);

    observe(&mut table, TCP, client, server, at(0), 74, Some(SYN));
    observe(&mut table, TCP, server, client, at(1), 74, Some(SYN | ACK));
    observe(&mut table, TCP, client, server, at(2), 74, Some(FIN | ACK));
    assert_eq!(table.len(), 1, "one FIN is not a teardown");

    observe(&mut table, TCP, server, client, at(3), 74, Some(FIN | ACK));
    assert_eq!(table.len(), 0, "FIN in both directions ends the flow");

    let ended = table.ended_mut();
    assert_eq!(ended.len(), 1);
    assert_eq!(ended[0].reason, EndReason::Closed);
    assert_eq!(ended[0].flow.tcp_flags_string().as_deref(), Some("FSA"));
    assert_eq!(table.counters().closed, 1);
}

#[test]
fn an_in_window_reset_closes_the_flow() {
    let mut table = table(100, 300);
    let client = endpoint(1, 51_000);
    let server = endpoint(2, 80);

    // A full handshake, so both sequence spaces are anchored and a reset
    // can be judged against them.
    observe_segment(
        &mut table,
        TCP,
        client,
        server,
        at(0),
        74,
        Some(TcpSegment {
            sequence: 1_000,
            acknowledgment: 0,
            flags: SYN,
            payload: b"",
        }),
    );
    observe_segment(
        &mut table,
        TCP,
        server,
        client,
        at(1),
        74,
        Some(TcpSegment {
            sequence: 5_000,
            acknowledgment: 1_001,
            flags: SYN | ACK,
            payload: b"",
        }),
    );
    observe_segment(
        &mut table,
        TCP,
        server,
        client,
        at(2),
        74,
        Some(TcpSegment {
            sequence: 5_001,
            acknowledgment: 1_001,
            flags: RST,
            payload: b"",
        }),
    );

    assert_eq!(
        table.len(),
        0,
        "a reset the host would act on ends the flow"
    );
    assert_eq!(table.ended_mut()[0].reason, EndReason::Closed);
}

/// The RST-evasion case: a blind reset with a guessed sequence number must
/// not make the sensor stop watching a connection the host keeps serving.
#[test]
fn an_out_of_window_reset_does_not_close_the_flow() {
    let mut table = table(100, 300);
    let client = endpoint(1, 51_000);
    let server = endpoint(2, 80);

    observe_segment(
        &mut table,
        TCP,
        client,
        server,
        at(0),
        74,
        Some(TcpSegment {
            sequence: 1_000,
            acknowledgment: 0,
            flags: SYN,
            payload: b"",
        }),
    );
    observe_segment(
        &mut table,
        TCP,
        server,
        client,
        at(1),
        74,
        Some(TcpSegment {
            sequence: 5_000,
            acknowledgment: 1_001,
            flags: SYN | ACK,
            payload: b"",
        }),
    );
    observe_segment(
        &mut table,
        TCP,
        server,
        client,
        at(2),
        74,
        Some(TcpSegment {
            sequence: 5_000_000,
            acknowledgment: 0,
            flags: RST,
            payload: b"",
        }),
    );

    assert_eq!(table.len(), 1, "the flow is still live and still watched");
    assert_eq!(table.counters().resets_ignored, 1);
}

#[test]
fn udp_flows_report_no_tcp_flags() {
    let mut table = table(100, 300);
    observe(
        &mut table,
        UDP,
        endpoint(1, 5_000),
        endpoint(2, 53),
        at(0),
        74,
        None,
    );
    table.flush();
    assert!(table.ended_mut()[0].flow.tcp_flags_string().is_none());
}

#[test]
fn idle_flows_time_out() {
    let mut table = table(100, 60);
    observe(
        &mut table,
        TCP,
        endpoint(1, 1),
        endpoint(2, 2),
        at(0),
        74,
        None,
    );

    table.sweep(at(30));
    assert_eq!(table.len(), 1, "still within the timeout");

    table.sweep(at(61));
    assert_eq!(table.len(), 0);
    assert_eq!(table.ended_mut()[0].reason, EndReason::TimedOut);
    assert_eq!(table.counters().timed_out, 1);
}

#[test]
fn a_busy_flow_is_not_timed_out() {
    let mut table = table(100, 60);
    for second in 0..200 {
        observe(
            &mut table,
            TCP,
            endpoint(1, 1),
            endpoint(2, 2),
            at(second),
            74,
            None,
        );
    }
    assert_eq!(table.len(), 1, "traffic keeps the flow alive across sweeps");
    assert_eq!(table.counters().timed_out, 0);
}

/// The DoS property: an attacker who opens flows without limit must not be
/// able to grow the table without limit.
#[test]
fn the_table_never_exceeds_its_cap() {
    const CAP: usize = 64;
    let mut table = table(CAP, 3_600);

    for i in 0..10_000u32 {
        let source = (IpAddr::V4(i), 1_234);
        observe(
            &mut table,
            TCP,
            source,
            endpoint(2, 80),
            at(0),
            74,
            Some(SYN),
        );
        assert!(
            table.len() <= CAP,
            "table grew to {} past the cap",
            table.len()
        );
        table.ended_mut().clear();
    }

    assert!(
        table.counters().evicted > 0,
        "evictions must be counted, not silent"
    );
}

#[test]
fn eviction_takes_the_least_recently_seen_flow_first() {
    let mut table = table(10, 3_600);

    // Ten flows, each last seen at a distinct time.
    for i in 0..10u8 {
        observe(
            &mut table,
            TCP,
            endpoint(i, 1_000),
            endpoint(200, 80),
            at(u64::from(i)),
            74,
            None,
        );
    }
    table.ended_mut().clear();

    // Refresh the oldest so it is no longer the eviction candidate.
    observe(
        &mut table,
        TCP,
        endpoint(0, 1_000),
        endpoint(200, 80),
        at(100),
        74,
        None,
    );
    table.ended_mut().clear();

    // One more flow forces an eviction batch.
    observe(
        &mut table,
        TCP,
        endpoint(99, 1_000),
        endpoint(200, 80),
        at(101),
        74,
        None,
    );

    let evicted: Vec<Endpoint> = table
        .ended_mut()
        .iter()
        .filter(|ended| ended.reason == EndReason::Evicted)
        .map(|ended| ended.flow.initiator)
        .collect();
    assert!(!evicted.is_empty());
    assert!(
        !evicted.contains(&endpoint(0, 1_000)),
        "the recently refreshed flow should not be the one evicted: {evicted:?}"
    );
    assert!(evicted.contains(&endpoint(1, 1_000)), "{evicted:?}");
}

#[test]
fn timeouts_are_preferred_over_evicting_live_flows() {
    let mut table = table(4, 60);
    for i in 0..4u8 {
        observe(
            &mut table,
            TCP,
            endpoint(i, 1_000),
            endpoint(200, 80),
            at(0),
            74,
            None,
        );
    }
    table.ended_mut().clear();

    // Long after the timeout, a new flow arrives. The four idle flows
    // should be swept, not evicted: eviction is the lossy path.
    observe(
        &mut table,
        TCP,
        endpoint(50, 1_000),
        endpoint(200, 80),
        at(1_000),
        74,
        None,
    );

    assert_eq!(table.counters().timed_out, 4);
    assert_eq!(
        table.counters().evicted,
        0,
        "sweeping should have freed enough room"
    );
}

#[test]
fn flush_ends_every_remaining_flow() {
    let mut table = table(100, 300);
    for i in 0..5u8 {
        observe(
            &mut table,
            TCP,
            endpoint(i, 1_000),
            endpoint(200, 80),
            at(0),
            74,
            None,
        );
    }
    table.flush();

    assert!(table.is_empty());
    assert_eq!(table.ended_mut().len(), 5);
    assert!(table
        .ended_mut()
        .iter()
        .all(|ended| ended.reason == EndReason::SensorStopped));
}

#[test]
fn flow_ids_are_reproducible_across_runs() {
    // Two independent tables fed the same capture must agree, or replaying
    // the same file twice would produce incomparable events.
    let mut first = table(100, 300);
    let mut second = table(100, 300);
    let a = observe(
        &mut first,
        TCP,
        endpoint(1, 51_000),
        endpoint(2, 80),
        at(1_700),
        74,
        None,
    );
    let b = observe(
        &mut second,
        TCP,
        endpoint(1, 51_000),
        endpoint(2, 80),
        at(1_700),
        74,
        None,
    );
    assert_eq!(a.flow_id, b.flow_id);
    assert_ne!(a.flow_id.get(), 0, "zero is reserved for 'no flow'");
}

#[test]
fn flows_starting_at_different_times_get_different_ids() {
    let mut table = table(100, 300);
    let a = observe(
        &mut table,
        TCP,
        endpoint(1, 51_000),
        endpoint(2, 80),
        at(1_000),
        74,
        Some(RST),
    );
    table.ended_mut().clear();
    let b = observe(
        &mut table,
        TCP,
        endpoint(1, 51_000),
        endpoint(2, 80),
        at(2_000),
        74,
        None,
    );
    assert_ne!(
        a.flow_id, b.flow_id,
        "a reused 5-tuple is a new conversation"
    );
}

#[test]
fn the_oriented_tuple_puts_the_initiator_first() {
    let mut table = table(100, 300);
    // Deliberately open from the higher-sorting endpoint, so the canonical
    // key order and the initiator disagree.
    observe(
        &mut table,
        TCP,
        endpoint(9, 51_000),
        endpoint(1, 80),
        at(0),
        74,
        None,
    );
    table.flush();

    let (initiator, responder) = table.ended_mut()[0].flow.oriented_tuple();
    assert_eq!(initiator, endpoint(9, 51_000));
    assert_eq!(responder, endpoint(1, 80));
}

/// Reassembly reaching the caller through the table, which is how the
/// pipeline will consume it.
#[test]
fn stream_bytes_surface_through_the_flow_table() {
    let mut table = table(100, 300);
    let client = endpoint(1, 51_000);
    let server = endpoint(2, 80);
    let mut ready = StreamReady::default();
    let mut delivered = Vec::new();

    let send = |table: &mut FlowTable,
                source,
                destination,
                segment,
                ready: &mut StreamReady,
                delivered: &mut Vec<u8>| {
        ready.clear();
        table.observe(
            &PacketSummary {
                protocol: TCP,
                source,
                destination,
                timestamp: at(0),
                frame_len: 74,
                tcp: Some(segment),
            },
            |_| OverlapPolicy::First,
            ready,
        );
        delivered.extend_from_slice(&ready.to_server);
    };

    send(
        &mut table,
        client,
        server,
        TcpSegment {
            sequence: 1_000,
            acknowledgment: 0,
            flags: SYN,
            payload: b"",
        },
        &mut ready,
        &mut delivered,
    );
    send(
        &mut table,
        server,
        client,
        TcpSegment {
            sequence: 5_000,
            acknowledgment: 1_001,
            flags: SYN | ACK,
            payload: b"",
        },
        &mut ready,
        &mut delivered,
    );
    send(
        &mut table,
        client,
        server,
        TcpSegment {
            sequence: 1_001,
            acknowledgment: 5_001,
            flags: ACK,
            payload: b"GET /etc",
        },
        &mut ready,
        &mut delivered,
    );
    send(
        &mut table,
        client,
        server,
        TcpSegment {
            sequence: 1_009,
            acknowledgment: 5_001,
            flags: ACK,
            payload: b"/passwd",
        },
        &mut ready,
        &mut delivered,
    );
    // The server acknowledges, settling the request.
    send(
        &mut table,
        server,
        client,
        TcpSegment {
            sequence: 5_001,
            acknowledgment: 1_016,
            flags: ACK,
            payload: b"",
        },
        &mut ready,
        &mut delivered,
    );

    assert_eq!(delivered, b"GET /etc/passwd");
}

#[test]
fn a_flow_ending_delivers_whatever_was_still_contiguous() {
    let mut table = table(100, 300);
    let client = endpoint(1, 51_000);
    let server = endpoint(2, 80);
    let mut ready = StreamReady::default();

    for segment in [
        TcpSegment {
            sequence: 1_000,
            acknowledgment: 0,
            flags: SYN,
            payload: b"",
        },
        TcpSegment {
            sequence: 1_001,
            acknowledgment: 0,
            flags: ACK,
            payload: b"unacked tail",
        },
    ] {
        table.observe(
            &PacketSummary {
                protocol: TCP,
                source: client,
                destination: server,
                timestamp: at(0),
                frame_len: 74,
                tcp: Some(segment),
            },
            |_| OverlapPolicy::First,
            &mut ready,
        );
    }
    assert!(ready.is_empty(), "nothing has acknowledged it yet");

    table.flush();
    assert_eq!(
        table.ended_mut()[0].final_ready.to_server,
        b"unacked tail",
        "the tail of a conversation still has to be matched against"
    );
}

/// The second ceiling: many flows each holding a little.
#[test]
fn the_global_stream_byte_cap_forces_eviction() {
    let mut table = FlowTable::with_reassembly(
        Limits {
            max_flows: 10_000,
            flow_timeout: Duration::from_secs(3_600),
            ..Limits::default()
        },
        ReassemblyConfig {
            max_stream_bytes_per_flow: 4_096,
            max_stream_bytes_total: 32_768,
            delivery_flush_bytes: 4_096,
            ..ReassemblyConfig::default()
        },
    );
    let mut ready = StreamReady::default();
    let payload = [b'A'; 1_024];

    for index in 0..200u16 {
        let client = (
            IpAddr::v4(10, 0, (index >> 8) as u8, index as u8),
            4_000,
        );
        let server = endpoint(200, 80);
        for segment in [
            TcpSegment {
                sequence: 1_000,
                acknowledgment: 0,
                flags: SYN,
                payload: b"",
            },
            // Offset 1 leaves a hole at the front, so nothing can ever be
            // delivered and the bytes just accumulate.
            TcpSegment {
                sequence: 1_002,
                acknowledgment: 0,
                flags: ACK,
                payload: &payload,
            },
        ] {
            table.observe(
                &PacketSummary {
                    protocol: TCP,
                    source: client,
                    destination: server,
                    timestamp: at(0),
                    frame_len: 1_100,
                    tcp: Some(segment),
                },
                |_| OverlapPolicy::First,
                &mut ready,
            );
        }
        table.ended_mut().clear();
        assert!(
            table.buffered_bytes() <= 32_768 + 1_024,
            "held {} bytes against a 32768 cap",
            table.buffered_bytes()
        );
    }
    assert!(table.counters().evicted > 0, "evictions must be counted");
}

#[test]
fn a_backwards_timestamp_does_not_produce_a_negative_duration() {
    let mut table = table(100, 300);
    observe(
        &mut table,
        TCP,
        endpoint(1, 1),
        endpoint(2, 2),
        at(100),
        74,
        None,
    );
    observe(
        &mut table,
        TCP,
        endpoint(1, 1),
        endpoint(2, 2),
        at(50),
        74,
        None,
    );
    table.flush();
    assert_eq!(table.ended_mut()[0].flow.duration(), Duration { nanos: 0 });
}

#[test]
fn every_flow_that_a_sweep_removes_is_reported() {
    let mut table = table(100, 60);
    for n in 1..=6u16 {
        observe(
            &mut table,
            TCP,
            endpoint(1, n),
            endpoint(2, 80),
            at(10 * u64::from(n)),
            74,
            None,
        );
    }
    table.sweep(at(95));

    let ended = table.ended_mut().len();
    assert_eq!(ended, 3);
    assert_eq!(table.len(), 3);
    assert!(table
        .ended_mut()
        .iter()
        .all(|flow| flow.reason == EndReason::TimedOut));
    let counters = table.counters();
    assert_eq!(counters.created, 6);
    assert_eq!(
        counters.created,
        table.len() as u64 + counters.closed + counters.timed_out + counters.evicted
    );
}

#[test]
fn a_table_adds_up_whatever_it_is_shown() {
    let mut table = table(4, 60);
    for n in 0..40u64 {
        let client = endpoint(1, (n % 7) as u16 + 1);
        let server = endpoint(2, 80);
        let flags = if n % 5 == 0 { Some(FIN | ACK) } else { None };
        let first = observe(&mut table, TCP, client, server, at(n * 9), 74, flags);
        assert!(table.len() <= table.capacity());
        let reply = observe(&mut table, TCP, server, client, at(n * 9 + 1), 74, flags);
        assert!(table.len() <= table.capacity());
        if !reply.is_new {
            assert_eq!(reply.flow_id, first.flow_id);
            assert_ne!(reply.to_server, first.to_server);
        }
        if n % 8 == 0 {
            table.sweep(at(n * 9 + 70));
        }
        let counters = table.counters();
        assert_eq!(
            counters.created,
            counters.closed + counters.timed_out + counters.evicted + table.len() as u64
        );
    }
}
