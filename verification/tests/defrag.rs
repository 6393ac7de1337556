use cybersentinel::config::ReassemblyConfig;
use cybersentinel::net::IpAddr;
use cybersentinel::reassembly::defrag::{Defragmenter, FragmentView, MAX_DATAGRAM_LEN};
use cybersentinel::reassembly::OverlapPolicy::{First, Last};
use cybersentinel::time::Timestamp;

fn ip(text: &str) -> IpAddr {
    IpAddr::parse(text).unwrap()
}

fn at(seconds: u64) -> Timestamp {
    Timestamp::from_secs(seconds)
}

fn config() -> ReassemblyConfig {
    ReassemblyConfig {
        max_fragment_sets: 16,
        max_fragment_bytes_total: 1 << 20,
        fragment_timeout_secs: 30,
        ..ReassemblyConfig::default()
    }
}

fn fragment<'a>(
    identification: u32,
    offset: u16,
    more: bool,
    payload: &'a [u8],
) -> FragmentView<'a> {
    FragmentView {
        source: ip("192.0.2.1"),
        destination: ip("198.51.100.1"),
        identification,
        protocol: 17,
        offset,
        more_fragments: more,
        payload,
    }
}

#[test]
fn reassembles_fragments_arriving_in_order() {
    let mut defrag = Defragmenter::new(&config());
    assert!(defrag
        .push(&fragment(1, 0, true, b"ATTACK--"), at(0), First)
        .is_none());
    let done = defrag
        .push(&fragment(1, 1, false, b"STRING"), at(0), First)
        .expect("the last fragment completes the datagram");

    assert_eq!(done.data, b"ATTACK--STRING");
    assert_eq!(done.fragments, 2);
    assert_eq!(defrag.active_sets(), 0, "a completed set is released");
    assert_eq!(defrag.counters().completed, 1);
}

#[test]
fn reassembles_fragments_arriving_out_of_order() {
    // Offsets are in 8-byte units, so every fragment but the last carries a
    // multiple of 8 bytes — as the wire format requires.
    let mut defrag = Defragmenter::new(&config());
    // The final fragment first: the length is known before the middle.
    assert!(defrag
        .push(&fragment(2, 2, false, b"G"), at(0), First)
        .is_none());
    assert!(defrag
        .push(&fragment(2, 1, true, b"RT-STRIN"), at(0), First)
        .is_none());
    let done = defrag
        .push(&fragment(2, 0, true, b"ATTACKPA"), at(0), First)
        .expect("the datagram completes when the hole fills");

    assert_eq!(done.data, b"ATTACKPART-STRING");
}

#[test]
fn a_string_split_across_many_fragments_reassembles_whole() {
    let message: Vec<u8> = (0..64u8).flat_map(|i| [b'A' + (i % 26), b'-']).collect();
    let mut defrag = Defragmenter::new(&config());

    let chunk = 8;
    let chunks: Vec<&[u8]> = message.chunks(chunk).collect();
    let mut done = None;
    // Reverse order, to prove ordering is irrelevant.
    for (index, piece) in chunks.iter().enumerate().rev() {
        let last = index == chunks.len() - 1;
        let result = defrag.push(
            &fragment(3, (index * chunk / 8) as u16, !last, piece),
            at(0),
            First,
        );
        if result.is_some() {
            done = result;
        }
    }
    assert_eq!(done.expect("completed").data, message);
}

#[test]
fn different_identifications_are_different_datagrams() {
    let mut defrag = Defragmenter::new(&config());
    defrag.push(&fragment(10, 0, true, b"AAAAAAAA"), at(0), First);
    defrag.push(&fragment(11, 0, true, b"BBBBBBBB"), at(0), First);
    assert_eq!(defrag.active_sets(), 2);

    let first = defrag
        .push(&fragment(10, 1, false, b"aaa"), at(0), First)
        .unwrap();
    assert_eq!(first.data, b"AAAAAAAAaaa");
    assert_eq!(defrag.active_sets(), 1);
}

// -----------------------------------------------------------------------
// overlap policy
// -----------------------------------------------------------------------

#[test]
fn overlapping_fragments_that_disagree_resolve_by_policy() {
    for (policy, expected) in [(First, &b"AAAAAAAAxx"[..]), (Last, &b"AAAAAAAABB"[..])] {
        let mut defrag = Defragmenter::new(&config());
        defrag.push(&fragment(1, 0, true, b"AAAAAAAA"), at(0), policy);
        defrag.push(&fragment(1, 1, true, b"xxxxxxxx"), at(0), policy);
        // Re-sends offset 8 with different content, then completes.
        defrag.push(&fragment(1, 1, true, b"BBxxxxxx"), at(0), policy);
        let done = defrag
            .push(&fragment(1, 2, false, b""), at(0), policy)
            .expect("completed");

        assert_eq!(&done.data[..10], expected, "policy {policy:?}");
        assert!(
            done.conflicting_bytes > 0,
            "the disagreement must be visible"
        );
    }
}

#[test]
fn an_identical_retransmitted_fragment_is_not_a_conflict() {
    let mut defrag = Defragmenter::new(&config());
    defrag.push(&fragment(1, 0, true, b"AAAAAAAA"), at(0), First);
    defrag.push(&fragment(1, 0, true, b"AAAAAAAA"), at(0), First);
    let done = defrag
        .push(&fragment(1, 1, false, b"end"), at(0), First)
        .unwrap();

    assert_eq!(done.data, b"AAAAAAAAend");
    assert_eq!(done.conflicting_bytes, 0);
    assert!(
        defrag.counters().overlaps > 0,
        "the overlap is still counted"
    );
}

#[test]
fn a_second_contradicting_final_fragment_does_not_rewrite_the_length() {
    let mut defrag = Defragmenter::new(&config());
    defrag.push(&fragment(1, 0, true, b"AAAAAAAA"), at(0), First);
    // Claims the datagram ends at 11 bytes.
    let done = defrag.push(&fragment(1, 1, false, b"end"), at(0), First);
    assert_eq!(done.expect("completed").data, b"AAAAAAAAend");
}

// -----------------------------------------------------------------------
// malformed and hostile input
// -----------------------------------------------------------------------

#[test]
fn an_oversized_datagram_is_refused_not_allocated() {
    let mut defrag = Defragmenter::new(&config());
    // Offset 8190 * 8 = 65520, plus 64 bytes, is past the 65535 limit.
    let result = defrag.push(&fragment(1, 8_190, false, &[0u8; 64]), at(0), First);
    assert!(result.is_none());
    assert_eq!(defrag.counters().oversized, 1);
    assert_eq!(
        defrag.active_sets(),
        0,
        "nothing should have been allocated"
    );
}

#[test]
fn a_misaligned_non_final_fragment_is_counted() {
    let mut defrag = Defragmenter::new(&config());
    // 5 bytes with more-fragments set violates the 8-byte rule.
    defrag.push(&fragment(1, 0, true, b"AAAAA"), at(0), First);
    assert_eq!(defrag.counters().misaligned, 1);
}

#[test]
fn a_datagram_that_never_completes_is_dropped_on_timeout() {
    let mut defrag = Defragmenter::new(&config());
    defrag.push(&fragment(1, 0, true, b"AAAAAAAA"), at(0), First);
    assert_eq!(defrag.active_sets(), 1);

    defrag.sweep(at(10));
    assert_eq!(defrag.active_sets(), 1, "still inside the timeout");

    defrag.sweep(at(31));
    assert_eq!(defrag.active_sets(), 0);
    assert_eq!(defrag.counters().timed_out, 1);
}

/// The DoS property: an attacker sending first-fragments that never
/// complete must not grow sensor memory without limit.
#[test]
fn a_fragment_flood_cannot_exceed_the_set_cap() {
    let mut defrag = Defragmenter::new(&ReassemblyConfig {
        max_fragment_sets: 32,
        fragment_timeout_secs: 3_600,
        ..config()
    });

    for identification in 0..10_000u32 {
        defrag.push(
            &fragment(identification, 0, true, &[0u8; 512]),
            at(0),
            First,
        );
        assert!(
            defrag.active_sets() <= 32,
            "grew to {} sets",
            defrag.active_sets()
        );
    }
    assert!(defrag.counters().evicted > 0, "evictions must be counted");
}

#[test]
fn a_flood_of_holes_within_one_datagram_stays_bounded() {
    // One identification, fragments at scattered offsets that never
    // complete: bounded by the per-datagram hole cap.
    let mut defrag = Defragmenter::new(&config());
    for offset in (0..8_000u16).step_by(2) {
        defrag.push(&fragment(1, offset, true, b"AAAAAAAA"), at(0), First);
    }
    assert_eq!(defrag.active_sets(), 1);
    assert!(
        defrag.buffered_bytes() <= MAX_DATAGRAM_LEN as usize,
        "one datagram held {} bytes",
        defrag.buffered_bytes()
    );
    assert!(defrag.counters().refused_bytes > 0);
}

#[test]
fn the_total_byte_cap_forces_eviction() {
    let mut defrag = Defragmenter::new(&ReassemblyConfig {
        max_fragment_sets: 10_000,
        max_fragment_bytes_total: 8_192,
        fragment_timeout_secs: 3_600,
        ..config()
    });
    for identification in 0..64u32 {
        defrag.push(
            &fragment(identification, 0, true, &[0u8; 1_024]),
            at(0),
            First,
        );
    }
    assert!(
        defrag.buffered_bytes() <= 8_192 * 2,
        "held {} bytes against an 8192 cap",
        defrag.buffered_bytes()
    );
    assert!(defrag.counters().evicted > 0);
}

#[test]
fn an_empty_fragment_does_not_break_anything() {
    let mut defrag = Defragmenter::new(&config());
    assert!(defrag
        .push(&fragment(1, 0, true, b""), at(0), First)
        .is_none());
    let done = defrag.push(&fragment(1, 0, false, b"only"), at(0), First);
    assert_eq!(done.expect("completed").data, b"only");
}

#[test]
fn a_single_unfragmented_looking_piece_completes_immediately() {
    let mut defrag = Defragmenter::new(&config());
    let done = defrag
        .push(&fragment(1, 0, false, b"whole datagram"), at(0), First)
        .expect("a lone final fragment is a complete datagram");
    assert_eq!(done.data, b"whole datagram");
    assert_eq!(done.fragments, 1);
}

#[test]
fn a_datagram_comes_back_whole_in_any_order_under_either_policy() {
    let datagram = b"the whole datagram, in four fragments";
    let pieces: [(usize, usize); 4] = [(0, 8), (8, 16), (16, 32), (32, 37)];
    let orders: [[usize; 4]; 4] = [[0, 1, 2, 3], [3, 2, 1, 0], [2, 0, 3, 1], [1, 3, 0, 2]];
    for policy in [First, Last] {
        for order in orders {
            let mut defrag = Defragmenter::new(&config());
            for (place, index) in order.into_iter().enumerate() {
                let (from, to) = pieces[index];
                let more = to < datagram.len();
                let done = defrag.push(
                    &fragment(7, (from / 8) as u16, more, &datagram[from..to]),
                    at(place as u64),
                    policy,
                );
                match done {
                    None => assert!(place < 3, "the last fragment completes the datagram"),
                    Some(done) => {
                        assert_eq!(place, 3, "nothing comes back before the last fragment");
                        assert_eq!(done.data, datagram);
                        assert_eq!(done.fragments, 4);
                        assert_eq!(done.conflicting_bytes, 0);
                    }
                }
            }
            assert_eq!(defrag.counters().completed, 1);
            assert_eq!(defrag.counters().conflicting_overlaps, 0);
            assert_eq!(defrag.active_sets(), 0);
        }
    }
}
