use cybersentinel::config::ReassemblyConfig;
use cybersentinel::reassembly::flags::{ACK, FIN, RST, SYN};
use cybersentinel::reassembly::stream::{StreamPair, StreamReady, TcpSegment};
use cybersentinel::reassembly::OverlapPolicy;
use cybersentinel::reassembly::OverlapPolicy::{First, Last};

const CLIENT_ISN: u32 = 1_000;
const SERVER_ISN: u32 = 5_000;

fn config() -> ReassemblyConfig {
    ReassemblyConfig {
        max_stream_bytes_per_flow: 4_096,
        max_stream_bytes_total: 1 << 20,
        delivery_flush_bytes: 4_096,
        ..ReassemblyConfig::default()
    }
}

/// A harness that drives one conversation and accumulates what was
/// delivered in each direction.
struct Conversation {
    pair: StreamPair,
    ready: StreamReady,
    server_stream: Vec<u8>,
    client_stream: Vec<u8>,
    policy: OverlapPolicy,
}

impl Conversation {
    fn new(policy: OverlapPolicy) -> Self {
        Self::with_config(policy, &config())
    }

    fn with_config(policy: OverlapPolicy, config: &ReassemblyConfig) -> Self {
        Self {
            pair: StreamPair::new(config),
            ready: StreamReady::default(),
            server_stream: Vec::new(),
            client_stream: Vec::new(),
            policy,
        }
    }

    fn send(&mut self, to_server: bool, segment: TcpSegment<'_>) {
        self.ready.clear();
        self.pair.push(
            to_server,
            &segment,
            self.policy,
            self.policy,
            &mut self.ready,
        );
        self.server_stream.extend_from_slice(&self.ready.to_server);
        self.client_stream.extend_from_slice(&self.ready.to_client);
    }

    /// Client data at `offset` bytes into the client's stream.
    fn client(&mut self, offset: u32, payload: &[u8]) {
        self.send(
            true,
            TcpSegment {
                sequence: CLIENT_ISN.wrapping_add(1).wrapping_add(offset),
                acknowledgment: SERVER_ISN.wrapping_add(1),
                flags: ACK,
                payload,
            },
        );
    }

    /// Server data at `offset` bytes into the server's stream.
    fn server(&mut self, offset: u32, payload: &[u8]) {
        self.send(
            false,
            TcpSegment {
                sequence: SERVER_ISN.wrapping_add(1).wrapping_add(offset),
                acknowledgment: CLIENT_ISN.wrapping_add(1),
                flags: ACK,
                payload,
            },
        );
    }

    /// The client acknowledges `bytes` of server data.
    fn client_acks(&mut self, bytes: u32) {
        self.send(
            true,
            TcpSegment {
                sequence: CLIENT_ISN.wrapping_add(1),
                acknowledgment: SERVER_ISN.wrapping_add(1).wrapping_add(bytes),
                flags: ACK,
                payload: b"",
            },
        );
    }

    /// The server acknowledges `bytes` of client data.
    fn server_acks(&mut self, bytes: u32) {
        self.send(
            false,
            TcpSegment {
                sequence: SERVER_ISN.wrapping_add(1),
                acknowledgment: CLIENT_ISN.wrapping_add(1).wrapping_add(bytes),
                flags: ACK,
                payload: b"",
            },
        );
    }

    fn handshake(&mut self) {
        self.send(
            true,
            TcpSegment {
                sequence: CLIENT_ISN,
                acknowledgment: 0,
                flags: SYN,
                payload: b"",
            },
        );
        self.send(
            false,
            TcpSegment {
                sequence: SERVER_ISN,
                acknowledgment: CLIENT_ISN.wrapping_add(1),
                flags: SYN | ACK,
                payload: b"",
            },
        );
    }

    fn flush(&mut self) {
        self.ready.clear();
        self.pair.flush(&mut self.ready);
        self.server_stream.extend_from_slice(&self.ready.to_server);
        self.client_stream.extend_from_slice(&self.ready.to_client);
    }
}

// -----------------------------------------------------------------------
// the core property: an attack split across segments comes back whole
// -----------------------------------------------------------------------

#[test]
fn a_string_split_across_segments_reassembles_contiguously() {
    let mut conversation = Conversation::new(First);
    conversation.handshake();
    conversation.client(0, b"GET /cgi-bin/");
    conversation.client(13, b"phf?Qalias=x%");
    conversation.client(26, b"0a/bin/cat%20/etc/passwd");
    conversation.server_acks(50);

    assert_eq!(
        conversation.server_stream,
        b"GET /cgi-bin/phf?Qalias=x%0a/bin/cat%20/etc/passwd"
    );
}

#[test]
fn segments_arriving_out_of_order_still_reassemble_in_order() {
    let mut conversation = Conversation::new(First);
    conversation.handshake();
    conversation.client(26, b"0a/bin/cat%20/etc/passwd");
    conversation.client(0, b"GET /cgi-bin/");
    assert!(
        conversation.server_stream.is_empty(),
        "a hole in the middle must block delivery"
    );

    conversation.client(13, b"phf?Qalias=x%");
    conversation.server_acks(50);
    assert_eq!(
        conversation.server_stream,
        b"GET /cgi-bin/phf?Qalias=x%0a/bin/cat%20/etc/passwd"
    );
}

#[test]
fn both_directions_are_reassembled_independently() {
    let mut conversation = Conversation::new(First);
    conversation.handshake();
    conversation.client(0, b"GET / HTTP/1.1\r\n\r\n");
    conversation.server(0, b"HTTP/1.1 200 OK\r\n");
    conversation.server(17, b"\r\nbody");
    // Each side acknowledges the other, settling both streams.
    conversation.server_acks(18);
    conversation.client_acks(23);

    assert_eq!(conversation.server_stream, b"GET / HTTP/1.1\r\n\r\n");
    assert_eq!(conversation.client_stream, b"HTTP/1.1 200 OK\r\n\r\nbody");
}

#[test]
fn a_stream_joined_mid_conversation_still_reassembles() {
    // No handshake: the sensor started after the connection did.
    let mut conversation = Conversation::new(First);
    conversation.client(0, b"continuing ");
    conversation.client(11, b"mid-stream");
    conversation.server_acks(21);
    assert_eq!(conversation.server_stream, b"continuing mid-stream");
}

// -----------------------------------------------------------------------
// acknowledgement gating — what makes overlap policy possible
// -----------------------------------------------------------------------

#[test]
fn data_is_held_until_the_peer_acknowledges_it() {
    let mut conversation = Conversation::new(First);
    conversation.handshake();
    conversation.client(0, b"unacknowledged");
    assert!(
        conversation.server_stream.is_empty(),
        "un-acknowledged data must stay revisable"
    );

    conversation.server_acks(14);
    assert_eq!(conversation.server_stream, b"unacknowledged");
}

#[test]
fn a_partial_acknowledgement_delivers_only_what_was_acknowledged() {
    let mut conversation = Conversation::new(First);
    conversation.handshake();
    conversation.client(0, b"ABCDEFGHIJ");
    conversation.server_acks(4);
    assert_eq!(conversation.server_stream, b"ABCD");

    conversation.server_acks(10);
    assert_eq!(conversation.server_stream, b"ABCDEFGHIJ");
}

#[test]
fn un_acknowledged_data_is_flushed_once_it_piles_up() {
    // A one-way tap never sees ACKs. Matching must not stall for ever.
    let config = ReassemblyConfig {
        delivery_flush_bytes: 16,
        max_stream_bytes_per_flow: 4_096,
        ..config()
    };
    let mut conversation = Conversation::with_config(First, &config);
    conversation.client(0, b"0123456789");
    assert!(conversation.server_stream.is_empty(), "below the threshold");

    conversation.client(10, b"abcdef");
    assert_eq!(
        conversation.server_stream, b"0123456789abcdef",
        "at the threshold, deliver rather than stall"
    );
    assert!(conversation.pair.counters().flushed_unacked > 0);
}

// -----------------------------------------------------------------------
// overlap policy
// -----------------------------------------------------------------------

#[test]
fn a_contradicting_retransmission_resolves_by_policy() {
    for (policy, expected) in [(First, &b"AAAAA"[..]), (Last, &b"BBBBB"[..])] {
        let mut conversation = Conversation::new(policy);
        conversation.handshake();
        // Both copies arrive before the ACK, so the policy still has both.
        conversation.client(0, b"AAAAA");
        conversation.client(0, b"BBBBB");
        conversation.server_acks(5);

        assert_eq!(conversation.server_stream, expected, "policy {policy:?}");
        assert!(
            conversation.pair.counters().conflicting_overlaps > 0,
            "the disagreement must be counted"
        );
    }
}

#[test]
fn a_partially_overlapping_segment_resolves_by_policy() {
    for (policy, expected) in [(First, &b"AAAAAAAAyyyy"[..]), (Last, &b"AAAAxxxxyyyy"[..])] {
        let mut conversation = Conversation::new(policy);
        conversation.handshake();
        conversation.client(0, b"AAAAAAAA");
        conversation.client(4, b"xxxxyyyy");
        conversation.server_acks(12);
        assert_eq!(conversation.server_stream, expected, "policy {policy:?}");
    }
}

#[test]
fn an_identical_retransmission_is_not_a_conflict() {
    let mut conversation = Conversation::new(First);
    conversation.handshake();
    conversation.client(0, b"HELLO");
    conversation.client(0, b"HELLO");
    conversation.server_acks(5);

    assert_eq!(conversation.server_stream, b"HELLO");
    assert_eq!(conversation.pair.counters().conflicting_overlaps, 0);
    assert!(conversation.pair.counters().overlaps > 0);
}

#[test]
fn data_already_delivered_cannot_be_rewritten() {
    // The honest limit of the design, pinned so it cannot regress silently.
    let mut conversation = Conversation::new(Last);
    conversation.handshake();
    conversation.client(0, b"AAAAA");
    conversation.server_acks(5);
    assert_eq!(conversation.server_stream, b"AAAAA");

    conversation.client(0, b"BBBBB");
    assert_eq!(
        conversation.server_stream, b"AAAAA",
        "delivered bytes are gone; the retransmission is counted, not applied"
    );
    assert!(conversation.pair.counters().before_window >= 5);
}

// -----------------------------------------------------------------------
// window edges
// -----------------------------------------------------------------------

#[test]
fn data_far_beyond_the_window_is_refused() {
    let mut conversation = Conversation::new(First);
    conversation.handshake();
    conversation.send(
        true,
        TcpSegment {
            sequence: CLIENT_ISN.wrapping_add(1).wrapping_add(1_000_000),
            acknowledgment: SERVER_ISN.wrapping_add(1),
            flags: ACK,
            payload: b"far future",
        },
    );
    assert!(conversation.pair.counters().out_of_window > 0);
    assert_eq!(conversation.pair.buffered_bytes(), 0);
}

#[test]
fn data_before_the_window_is_counted_and_dropped() {
    let mut conversation = Conversation::new(First);
    conversation.handshake();
    conversation.client(0, b"delivered");
    conversation.server_acks(9);

    // Re-send the same range, now behind the delivery point.
    conversation.client(0, b"delivered");
    assert_eq!(conversation.server_stream, b"delivered");
    assert!(conversation.pair.counters().before_window > 0);
}

#[test]
fn a_sequence_number_wrap_is_handled() {
    // Start just below the 32-bit boundary so the stream wraps mid-flight.
    let mut pair = StreamPair::new(&config());
    let mut ready = StreamReady::default();
    let isn = u32::MAX - 4;

    pair.push(
        true,
        &TcpSegment {
            sequence: isn,
            acknowledgment: 0,
            flags: SYN,
            payload: b"",
        },
        First,
        First,
        &mut ready,
    );
    // Data spans the wrap: first four bytes before it, four after.
    pair.push(
        true,
        &TcpSegment {
            sequence: isn.wrapping_add(1),
            acknowledgment: 0,
            flags: ACK,
            payload: b"WRAPPING",
        },
        First,
        First,
        &mut ready,
    );
    ready.clear();
    pair.push(
        false,
        &TcpSegment {
            sequence: 1,
            acknowledgment: isn.wrapping_add(9),
            flags: ACK,
            payload: b"",
        },
        First,
        First,
        &mut ready,
    );
    assert_eq!(
        ready.to_server, b"WRAPPING",
        "the 32-bit wrap must not lose data"
    );
}

// -----------------------------------------------------------------------
// SYN, FIN, RST
// -----------------------------------------------------------------------

#[test]
fn data_on_the_syn_is_accepted_and_counted() {
    let mut conversation = Conversation::new(First);
    conversation.send(
        true,
        TcpSegment {
            sequence: CLIENT_ISN,
            acknowledgment: 0,
            flags: SYN,
            payload: b"fastopen",
        },
    );
    conversation.server_acks(8);
    assert_eq!(conversation.server_stream, b"fastopen");
    assert_eq!(conversation.pair.counters().syn_data, 8);
}

#[test]
fn data_past_the_fin_is_rejected() {
    let mut conversation = Conversation::new(First);
    conversation.handshake();
    conversation.client(0, b"request");
    conversation.send(
        true,
        TcpSegment {
            sequence: CLIENT_ISN.wrapping_add(1).wrapping_add(7),
            acknowledgment: SERVER_ISN.wrapping_add(1),
            flags: FIN | ACK,
            payload: b"",
        },
    );
    // The host has closed this direction; it will never read these bytes.
    conversation.client(7, b"INJECTED");
    conversation.server_acks(7);

    assert_eq!(conversation.server_stream, b"request");
    assert_eq!(conversation.pair.counters().after_fin, 8);
}

#[test]
fn data_filling_a_gap_before_the_fin_is_still_accepted() {
    // A retransmission of something genuinely missing is not an injection.
    let mut conversation = Conversation::new(First);
    conversation.handshake();
    conversation.client(4, b"DEF");
    conversation.send(
        true,
        TcpSegment {
            sequence: CLIENT_ISN.wrapping_add(1).wrapping_add(7),
            acknowledgment: SERVER_ISN.wrapping_add(1),
            flags: FIN | ACK,
            payload: b"",
        },
    );
    conversation.client(0, b"ABCD");
    conversation.server_acks(7);

    assert_eq!(conversation.server_stream, b"ABCDDEF");
    assert_eq!(conversation.pair.counters().after_fin, 0);
}

#[test]
fn an_in_window_reset_tears_the_connection_down() {
    let mut conversation = Conversation::new(First);
    conversation.handshake();
    conversation.client(0, b"data");

    let sequence = CLIENT_ISN.wrapping_add(1).wrapping_add(4);
    assert!(
        conversation.pair.rst_should_close(true, sequence),
        "a reset at the expected sequence is real"
    );
}

#[test]
fn an_out_of_window_reset_does_not_tear_the_connection_down() {
    // The RST-evasion case. A blind attacker guesses a sequence number; if
    // the sensor believes it, the sensor stops watching a live connection
    // while the host carries on.
    let mut conversation = Conversation::new(First);
    conversation.handshake();
    conversation.client(0, b"data");

    let forged = CLIENT_ISN.wrapping_add(500_000);
    assert!(
        !conversation.pair.rst_should_close(true, forged),
        "a reset far outside the window must be ignored"
    );
}

#[test]
fn a_reset_on_an_unestablished_stream_is_ignored() {
    let pair = StreamPair::new(&config());
    assert!(!pair.rst_should_close(true, 12_345));
}

#[test]
fn the_reset_flag_itself_is_not_what_decides() {
    // Sanity: the decision is about the sequence number, not the flag.
    let mut conversation = Conversation::new(First);
    conversation.handshake();
    conversation.client(0, b"data");
    conversation.send(
        true,
        TcpSegment {
            sequence: CLIENT_ISN.wrapping_add(500_000),
            acknowledgment: 0,
            flags: RST,
            payload: b"",
        },
    );
    assert!(!conversation
        .pair
        .rst_should_close(true, CLIENT_ISN.wrapping_add(500_000)));
}

// -----------------------------------------------------------------------
// bounds
// -----------------------------------------------------------------------

/// The DoS property: out-of-order segments that never complete must not
/// grow the buffer without limit.
#[test]
fn an_out_of_order_flood_cannot_exceed_the_per_flow_cap() {
    let config = ReassemblyConfig {
        max_stream_bytes_per_flow: 2_048,
        delivery_flush_bytes: 2_048,
        ..config()
    };
    let mut conversation = Conversation::with_config(First, &config);
    conversation.handshake();

    // Never send offset 0, so nothing is ever contiguous and nothing can be
    // delivered — the worst case for a reassembler.
    for index in 1..10_000u32 {
        conversation.client(index * 4, b"AAAA");
        assert!(
            conversation.pair.buffered_bytes() <= 2_048,
            "buffered {} bytes against a 2048 cap",
            conversation.pair.buffered_bytes()
        );
    }
    assert!(
        conversation.pair.counters().refused_bytes > 0
            || conversation.pair.counters().out_of_window > 0,
        "the cap must be visible in the counters"
    );
    assert!(conversation.server_stream.is_empty());
}

#[test]
fn a_flood_of_one_byte_holes_stays_bounded() {
    let mut conversation = Conversation::new(First);
    conversation.handshake();
    for index in 1..5_000u32 {
        conversation.client(index * 2, b"A");
    }
    assert!(conversation.pair.buffered_bytes() <= 4_096);
}

#[test]
fn flushing_delivers_what_is_contiguous_and_drops_the_rest() {
    let mut conversation = Conversation::new(First);
    conversation.handshake();
    conversation.client(0, b"delivered");
    conversation.client(100, b"orphaned");

    conversation.flush();
    assert_eq!(
        conversation.server_stream, b"delivered",
        "the contiguous prefix is still worth having"
    );
    assert!(conversation.pair.counters().dropped_incomplete > 0);
    assert_eq!(conversation.pair.buffered_bytes(), 0);
}

#[test]
fn an_empty_segment_carries_no_data_and_breaks_nothing() {
    let mut conversation = Conversation::new(First);
    conversation.handshake();
    conversation.client(0, b"");
    conversation.server_acks(0);
    assert!(conversation.server_stream.is_empty());
    assert_eq!(conversation.pair.counters().segments, 0);
}

#[test]
fn a_segment_that_runs_past_the_fin_is_cut_at_it() {
    let mut conversation = Conversation::new(First);
    conversation.handshake();
    conversation.client(0, b"requ");
    conversation.send(
        true,
        TcpSegment {
            sequence: CLIENT_ISN.wrapping_add(1).wrapping_add(7),
            acknowledgment: SERVER_ISN.wrapping_add(1),
            flags: FIN | ACK,
            payload: b"",
        },
    );
    // Begins in the gap before the FIN and runs five bytes past it.
    conversation.client(4, b"estEXTRA");
    conversation.server_acks(7);

    assert_eq!(conversation.server_stream, b"request");
    assert_eq!(conversation.pair.counters().after_fin, 5);
    assert_eq!(conversation.pair.buffered_bytes(), 0);
}

#[test]
fn data_that_was_acknowledged_first_does_not_count_as_flushed() {
    let config = ReassemblyConfig {
        delivery_flush_bytes: 8,
        ..config()
    };
    let mut conversation = Conversation::with_config(First, &config);
    conversation.handshake();
    // The peer has acknowledged what is only now retransmitted to the sensor.
    conversation.server_acks(16);
    conversation.client(0, b"0123456789abcdef");

    assert_eq!(conversation.server_stream, b"0123456789abcdef");
    assert_eq!(conversation.pair.counters().flushed_unacked, 0);
    assert_eq!(conversation.pair.counters().bytes_delivered, 16);
}

#[test]
fn a_forced_flush_counts_the_bytes_it_delivered() {
    let config = ReassemblyConfig {
        delivery_flush_bytes: 16,
        ..config()
    };
    let mut conversation = Conversation::with_config(First, &config);
    conversation.client(0, b"0123456789abcdefgh");
    assert_eq!(conversation.pair.counters().flushed_unacked, 18);
}

fn missing(conversation: &Conversation) -> i64 {
    let totals = conversation.pair.counters();
    totals.bytes_accepted as i64
        - totals.bytes_delivered as i64
        - totals.dropped_incomplete as i64
        - conversation.pair.buffered_bytes() as i64
}

#[test]
fn stream_bytes_are_conserved() {
    for policy in [First, Last] {
        let mut conversation = Conversation::new(policy);
        assert_eq!(missing(&conversation), 0);
        conversation.handshake();
        conversation.client(0, b"first");
        conversation.client(3, b"OVERLAP");
        conversation.client(100, b"beyond a hole");
        conversation.server(0, b"reply");
        assert_eq!(missing(&conversation), 0);
        conversation.server_acks(7);
        assert_eq!(missing(&conversation), 0);
        conversation.client(2, b"too late");
        conversation.client(1 << 20, b"far away");
        assert_eq!(missing(&conversation), 0);
        conversation.flush();
        assert_eq!(missing(&conversation), 0);

        let totals = conversation.pair.counters();
        assert_eq!(conversation.pair.buffered_bytes(), 0);
        assert_eq!(totals.bytes_accepted, 28);
        assert_eq!(totals.bytes_delivered, 15);
        assert_eq!(totals.dropped_incomplete, 13);
    }
}

#[test]
fn a_split_message_is_delivered_whole_across_acknowledgements() {
    let message = b"POST /login HTTP/1.1 user=root";
    for policy in [First, Last] {
        let mut conversation = Conversation::new(policy);
        conversation.handshake();
        conversation.client(12, &message[12..20]);
        conversation.client(0, &message[0..6]);
        conversation.server_acks(4);
        conversation.client(4, &message[4..14]);
        conversation.client(0, &message[0..10]);
        conversation.server_acks(17);
        conversation.client(18, &message[18..30]);
        conversation.flush();
        assert_eq!(conversation.server_stream, message);
    }
}

#[test]
fn totals_say_what_was_handed_over_and_dropped() {
    for policy in [First, Last] {
        let mut conversation = Conversation::new(policy);
        conversation.handshake();
        conversation.client(0, b"abcdef");
        conversation.client(2, b"XYef");
        conversation.client(50, b"lost");
        conversation.server(0, b"reply");
        conversation.server_acks(3);
        let handed = conversation.server_stream.len() + conversation.client_stream.len();
        let before = conversation.pair.counters();
        assert_eq!(before.bytes_delivered, handed as u64);
        assert_eq!(before.overlaps, 4);
        assert_eq!(before.conflicting_overlaps, 2);

        let held = conversation.pair.buffered_bytes() as u64;
        conversation.flush();
        let after = conversation.pair.counters();
        let gained =
            (conversation.server_stream.len() + conversation.client_stream.len() - handed) as u64;
        assert_eq!(after.bytes_delivered, before.bytes_delivered + gained);
        assert_eq!(after.dropped_incomplete, held - gained);
        assert_eq!(after.dropped_incomplete, 4);
        assert!(after.conflicting_overlaps <= after.overlaps);
        assert_eq!(conversation.pair.buffered_bytes(), 0);
    }
}
