use cybersentinel::reassembly::range_buffer::{RangeBuffer, WriteOutcome};
use cybersentinel::reassembly::OverlapPolicy::{First, Last};

fn buffer() -> RangeBuffer {
    RangeBuffer::new(0, 4_096, 64)
}

fn drained(buffer: &mut RangeBuffer) -> Vec<u8> {
    let mut out = Vec::new();
    buffer.drain_contiguous(&mut out);
    out
}

#[test]
fn writes_in_order_and_delivers_contiguously() {
    let mut buffer = buffer();
    buffer.write(0, b"ATTACK", First);
    buffer.write(6, b"STRING", First);
    assert_eq!(buffer.contiguous_end(), 12);
    assert_eq!(drained(&mut buffer), b"ATTACKSTRING");
    assert!(buffer.is_empty());
    assert_eq!(buffer.base(), 12);
}

#[test]
fn out_of_order_writes_are_held_until_the_gap_fills() {
    let mut buffer = buffer();
    buffer.write(6, b"STRING", First);
    assert_eq!(buffer.contiguous_end(), 0, "a leading hole blocks delivery");
    assert_eq!(drained(&mut buffer), b"");

    buffer.write(0, b"ATTACK", First);
    assert_eq!(drained(&mut buffer), b"ATTACKSTRING");
}

#[test]
fn a_write_spanning_a_hole_fills_it() {
    let mut buffer = buffer();
    buffer.write(0, b"AAAA", First);
    buffer.write(8, b"CCCC", First);
    assert_eq!(buffer.range_count(), 2);

    let outcome = buffer.write(4, b"BBBB", First);
    assert_eq!(outcome.accepted, 4);
    assert_eq!(buffer.range_count(), 1, "the ranges should merge");
    assert_eq!(drained(&mut buffer), b"AAAABBBBCCCC");
}

// -----------------------------------------------------------------------
// overlap policy — the evasion surface
// -----------------------------------------------------------------------

#[test]
fn first_policy_keeps_the_original_bytes() {
    let mut buffer = buffer();
    buffer.write(0, b"AAAA", First);
    let outcome = buffer.write(0, b"BBBB", First);

    assert_eq!(outcome.overlapped, 4);
    assert_eq!(outcome.conflicting, 4);
    assert_eq!(outcome.replaced, 0);
    assert_eq!(outcome.accepted, 0);
    assert_eq!(drained(&mut buffer), b"AAAA");
}

#[test]
fn last_policy_takes_the_new_bytes() {
    let mut buffer = buffer();
    buffer.write(0, b"AAAA", Last);
    let outcome = buffer.write(0, b"BBBB", Last);

    assert_eq!(outcome.overlapped, 4);
    assert_eq!(outcome.conflicting, 4);
    assert_eq!(outcome.replaced, 4);
    assert_eq!(drained(&mut buffer), b"BBBB");
}

#[test]
fn an_identical_retransmission_is_overlap_but_not_conflict() {
    // Ordinary retransmission must not look like an evasion attempt.
    let mut buffer = buffer();
    buffer.write(0, b"HELLO", First);
    let outcome = buffer.write(0, b"HELLO", First);

    assert_eq!(outcome.overlapped, 5);
    assert_eq!(outcome.conflicting, 0, "same bytes twice is not a conflict");
}

#[test]
fn a_partial_overlap_splits_into_kept_and_new() {
    let mut buffer = buffer();
    buffer.write(0, b"AAAA", First);
    // Covers 2..8: two bytes overlap, four are new.
    let outcome = buffer.write(2, b"XXBBBB", First);

    assert_eq!(outcome.overlapped, 2);
    assert_eq!(outcome.conflicting, 2);
    assert_eq!(outcome.accepted, 4);
    assert_eq!(drained(&mut buffer), b"AAAABBBB");
}

#[test]
fn a_partial_overlap_under_last_replaces_only_the_overlap() {
    let mut buffer = buffer();
    buffer.write(0, b"AAAA", Last);
    buffer.write(2, b"XXBBBB", Last);
    assert_eq!(drained(&mut buffer), b"AAXXBBBB");
}

#[test]
fn a_write_covering_several_existing_ranges_resolves_each() {
    let mut buffer = buffer();
    buffer.write(0, b"AA", Last);
    buffer.write(4, b"CC", Last);
    // Spans covered, gap, covered.
    let outcome = buffer.write(0, b"111111", Last);

    assert_eq!(outcome.overlapped, 4);
    assert_eq!(outcome.accepted, 2, "only the gap was new");
    assert_eq!(drained(&mut buffer), b"111111");
}

#[test]
fn the_same_write_under_first_keeps_every_original_stretch() {
    let mut buffer = buffer();
    buffer.write(0, b"AA", First);
    buffer.write(4, b"CC", First);
    buffer.write(0, b"111111", First);
    assert_eq!(drained(&mut buffer), b"AA11CC");
}

// -----------------------------------------------------------------------
// window edges
// -----------------------------------------------------------------------

#[test]
fn data_behind_the_window_is_counted_and_dropped() {
    let mut buffer = buffer();
    buffer.write(0, b"AAAA", First);
    drained(&mut buffer);
    assert_eq!(buffer.base(), 4);

    let outcome = buffer.write(0, b"BBBB", Last);
    assert_eq!(outcome.before_window, 4);
    assert_eq!(outcome.accepted, 0);
    assert!(buffer.is_empty(), "delivered bytes cannot be revised");
}

#[test]
fn a_write_straddling_the_window_edge_keeps_only_the_new_part() {
    let mut buffer = buffer();
    buffer.write(0, b"AAAA", First);
    drained(&mut buffer);

    let outcome = buffer.write(2, b"XXBBBB", First);
    assert_eq!(outcome.before_window, 2);
    assert_eq!(outcome.accepted, 4);
    assert_eq!(drained(&mut buffer), b"BBBB");
}

#[test]
fn delivery_can_be_limited_to_settled_data() {
    // The caller decides how far to deliver; the rest stays revisable.
    let mut buffer = buffer();
    buffer.write(0, b"ATTACKSTRING", First);

    let mut out = Vec::new();
    assert_eq!(buffer.drain_contiguous_upto(6, &mut out), 6);
    assert_eq!(out, b"ATTACK");
    assert_eq!(buffer.base(), 6);

    // The undelivered remainder can still be overwritten.
    buffer.write(6, b"ZZZZZZ", Last);
    assert_eq!(drained(&mut buffer), b"ZZZZZZ");
}

// -----------------------------------------------------------------------
// bounds — an attacker chooses the offsets
// -----------------------------------------------------------------------

#[test]
fn the_byte_cap_refuses_rather_than_grows() {
    let mut buffer = RangeBuffer::new(0, 16, 64);
    let outcome = buffer.write(0, &[b'x'; 64], First);
    assert_eq!(outcome.accepted, 16);
    assert_eq!(outcome.refused, 48);
    assert!(outcome.lost_data());
    assert_eq!(buffer.buffered_bytes(), 16);
}

#[test]
fn a_write_entirely_past_the_byte_cap_is_refused_whole() {
    let mut buffer = RangeBuffer::new(0, 16, 64);
    let outcome = buffer.write(1_000_000, b"far away", First);
    assert_eq!(outcome.refused, 8);
    assert!(buffer.is_empty());
}

#[test]
fn a_flood_of_scattered_writes_cannot_grow_the_range_list() {
    // Few bytes, unbounded holes: the byte cap alone would not stop this.
    let mut buffer = RangeBuffer::new(0, 1 << 20, 32);
    let mut refused = 0;
    for i in 0..10_000u64 {
        let outcome = buffer.write(i * 4, b"x", First);
        refused += outcome.refused;
        assert!(
            buffer.range_count() <= 32,
            "range list grew to {}",
            buffer.range_count()
        );
    }
    assert!(refused > 0, "the cap must be visible to the caller");
}

#[test]
fn filling_holes_frees_range_descriptors_again() {
    let mut buffer = RangeBuffer::new(0, 1 << 20, 4);
    for i in 0..4u64 {
        buffer.write(i * 2, b"a", First);
    }
    assert_eq!(buffer.range_count(), 4);
    assert_eq!(buffer.write(9, b"b", First).refused, 1, "at the cap");

    // Filling the gaps merges the ranges and makes room again.
    for i in 0..4u64 {
        buffer.write(i * 2 + 1, b"b", First);
    }
    assert_eq!(buffer.range_count(), 1);
    assert_eq!(buffer.write(9, b"c", First).accepted, 1);
}

#[test]
fn offsets_near_the_integer_limit_do_not_overflow() {
    let mut buffer = RangeBuffer::new(u64::MAX - 8, 4_096, 64);
    let outcome = buffer.write(u64::MAX - 4, b"abcdefgh", First);
    // Whatever it decides, it must not panic and must stay consistent.
    assert!(outcome.accepted + outcome.refused + outcome.before_window <= 8);
    assert!(buffer.covered_end() >= buffer.base());
}

#[test]
fn an_empty_write_does_nothing() {
    let mut buffer = buffer();
    assert_eq!(buffer.write(0, b"", First), WriteOutcome::default());
    assert!(buffer.is_empty());
}

#[test]
fn reset_clears_everything() {
    let mut buffer = buffer();
    buffer.write(0, b"data", First);
    buffer.reset(100);
    assert!(buffer.is_empty());
    assert_eq!(buffer.base(), 100);
    assert_eq!(buffer.contiguous_end(), 100);
}

#[test]
fn peek_does_not_consume() {
    let mut buffer = buffer();
    buffer.write(0, b"peek", First);
    assert_eq!(buffer.peek_contiguous(), b"peek");
    assert_eq!(buffer.peek_contiguous(), b"peek");
    assert_eq!(drained(&mut buffer), b"peek");
}

/// Whatever order the pieces arrive in, the delivered stream is the same.
#[test]
fn delivery_is_independent_of_arrival_order() {
    const CHUNK: usize = 8;
    let message = b"the quick brown fox jumps over the lazy dog";
    let chunks = message.len().div_ceil(CHUNK);
    let orders: [&[usize]; 4] = [
        &[0, 1, 2, 3, 4, 5],
        &[5, 4, 3, 2, 1, 0],
        &[2, 0, 4, 1, 5, 3],
        &[1, 3, 0, 5, 2, 4],
    ];
    for order in orders {
        assert_eq!(
            order.len(),
            chunks,
            "the order must cover the whole message"
        );
        let mut buffer = buffer();
        for &index in order {
            let start = index * CHUNK;
            let end = (start + CHUNK).min(message.len());
            buffer.write(start as u64, &message[start..end], First);
        }
        assert_eq!(drained(&mut buffer), message, "order {order:?}");
    }
}

#[test]
fn overlapping_pieces_of_one_message_come_back_whole() {
    let message = b"GET /etc/passwd HTTP/1.1";
    let pieces: [(usize, usize); 6] = [(16, 24), (0, 4), (2, 12), (3, 9), (10, 18), (0, 24)];
    let orders: [[usize; 6]; 3] = [[0, 1, 2, 3, 4, 5], [5, 4, 3, 2, 1, 0], [3, 0, 5, 1, 4, 2]];
    for policy in [First, Last] {
        for order in orders {
            let mut buffer = buffer();
            let mut accepted = 0;
            for index in order {
                let (from, to) = pieces[index];
                let outcome = buffer.write(from as u64, &message[from..to], policy);
                assert_eq!(outcome.refused, 0);
                assert_eq!(outcome.conflicting, 0);
                accepted += outcome.accepted;
            }
            assert_eq!(accepted, message.len() as u64);
            assert_eq!(buffer.buffered_bytes(), message.len());
            assert_eq!(buffer.contiguous_end(), message.len() as u64);
            assert_eq!(drained(&mut buffer), message);
        }
    }
}
