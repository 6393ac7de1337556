//! TCP stream reassembly.
//!
//! Turning segments back into the byte stream the receiving application will
//! see. Everything here exists because the sensor and the destination host must
//! agree about what that stream contains; wherever they can be made to
//! disagree, an attack passes unseen.
//!
//! # Delivery is gated on acknowledgement
//!
//! Reassembled bytes are held until the **peer acknowledges them**, and only
//! then handed downstream. A retransmission carrying different data always
//! arrives before the ACK for that range, so at the moment the sensor must
//! choose, it still holds both copies and can apply the destination's policy.
//!
//! On a path where the reverse direction is not visible no ACK ever arrives, so
//! data is flushed once the configured number of bytes has accumulated.
//!
//! # Where the ambiguities are resolved, and why each way round
//!
//! | Case | Behaviour | Why |
//! |---|---|---|
//! | Data on the SYN | Accepted, counted | TCP Fast Open makes it real traffic |
//! | Data past the FIN | Rejected, counted | The host has closed that direction and will not act on it |
//! | Data filling a gap *before* the FIN | Accepted | An ordinary retransmission of something missing |
//! | Out-of-window RST | **Ignored**, counted | Honouring a forged RST stops the sensor watching a live connection |
//! | In-window RST | Tears down | What the host will do |
//! | Retransmission of already-delivered data | Dropped, counted | It cannot be un-delivered |
//!
//! A direction is modelled by [`StreamModel`]; each step of the reassembler is
//! a function from one such state to the next.

use vstd::prelude::*;
use vstd::slice::slice_subrange;
use crate::config::ReassemblyConfig;
use super::flags;
use super::range_buffer::{
    holds_part_of, law_a_buffer_is_sound, law_a_drain_keeps_a_buffer_sound,
    law_a_drain_takes_what_it_hands_over, law_a_filled_buffer_is_contiguous,
    law_a_write_keeps_a_buffer_sound, law_a_write_stores_what_it_accepts,
    law_an_empty_buffer_is_sound, law_conflicts_are_told_from_overlaps, law_pieces_of_a_message_fit,
    law_what_is_contiguous_is_the_message, Held, Piece,
    RangeBuffer,
};
use super::OverlapPolicy;

verus! {

/// Maximum holes tracked per direction.
pub const MAX_HOLES_PER_STREAM: usize = 256;

/// How far past what we have seen a reset's sequence number may be and still be
/// believed.
///
/// One un-scaled TCP receive window. The point is to tolerate the sensor having
/// missed up to a window of data while refusing a blind guess: an attacker who
/// cannot see the connection has to hit a 64 KiB target in a 4 GiB space.
pub const RST_SEQUENCE_SLACK: u64 = 65_535;

/// One TCP segment offered to the reassembler.
#[derive(Debug, Clone, Copy)]
pub struct TcpSegment<'a> {
    /// Sequence number of the first payload byte.
    pub sequence: u32,
    /// Acknowledgement number; meaningful only with [`flags::ACK`] set.
    pub acknowledgment: u32,
    /// Control flags.
    pub flags: u8,
    /// Segment payload.
    pub payload: &'a [u8],
}

impl TcpSegment<'_> {
    /// Whether a flag is set.
    pub open spec fn has_flag(self, flag: u8) -> bool {
        self.flags & flag != 0
    }

    /// Whether a flag is set.
    pub fn has(&self, flag: u8) -> (set: bool)
        ensures
            set == self.has_flag(flag),
    {
        self.flags & flag != 0
    }
}

/// Bytes that became deliverable, per direction.
#[derive(Debug)]
pub struct StreamReady {
    /// Newly delivered bytes travelling towards the responder.
    pub to_server: Vec<u8>,
    /// Newly delivered bytes travelling towards the initiator.
    pub to_client: Vec<u8>,
}

impl Default for StreamReady {
    fn default() -> (ready: Self)
        ensures
            ready.to_server@ == Seq::<u8>::empty(),
            ready.to_client@ == Seq::<u8>::empty(),
    {
        Self { to_server: Vec::new(), to_client: Vec::new() }
    }
}

impl StreamReady {
    /// Forget the previous packet's output, keeping the allocations.
    pub fn clear(&mut self)
        ensures
            final(self).to_server@ == Seq::<u8>::empty(),
            final(self).to_client@ == Seq::<u8>::empty(),
    {
        self.to_server.clear();
        self.to_client.clear();
    }

    /// Whether anything was delivered.
    pub fn is_empty(&self) -> (empty: bool)
        ensures
            empty == (self.to_server@.len() == 0 && self.to_client@.len() == 0),
    {
        self.to_server.len() == 0 && self.to_client.len() == 0
    }

    /// Total bytes delivered.
    pub fn len(&self) -> (total: usize)
        requires
            self.to_server@.len() + self.to_client@.len() <= usize::MAX,
        ensures
            total == self.to_server@.len() + self.to_client@.len(),
    {
        self.to_server.len() + self.to_client.len()
    }
}

/// Running totals for one direction.
#[derive(Debug, Clone, Copy, PartialEq, Eq, Structural)]
pub struct StreamCounters {
    /// Segments carrying payload.
    pub segments: u64,
    /// Payload bytes stored.
    pub bytes_accepted: u64,
    /// Payload bytes handed downstream.
    pub bytes_delivered: u64,
    /// Bytes landing on already-buffered offsets.
    pub overlaps: u64,
    /// Of those, bytes that **disagreed**. The evasion signal.
    pub conflicting_overlaps: u64,
    /// Bytes refused by the per-direction byte or hole cap.
    pub refused_bytes: u64,
    /// Bytes addressed far beyond the buffer — outside any plausible window.
    pub out_of_window: u64,
    /// Bytes retransmitting data already delivered, which cannot be revised.
    pub before_window: u64,
    /// Bytes offered after the FIN, which the host will not act on.
    pub after_fin: u64,
    /// Bytes carried on a SYN.
    pub syn_data: u64,
    /// Bytes of deliveries forced by the flush threshold rather than by an ACK.
    pub flushed_unacked: u64,
    /// Buffered bytes discarded because the flow ended with a hole in it.
    pub dropped_incomplete: u64,
}

impl Default for StreamCounters {
    fn default() -> (counters: Self)
        ensures
            counters == StreamCounters::zero(),
    {
        Self {
            segments: 0,
            bytes_accepted: 0,
            bytes_delivered: 0,
            overlaps: 0,
            conflicting_overlaps: 0,
            refused_bytes: 0,
            out_of_window: 0,
            before_window: 0,
            after_fin: 0,
            syn_data: 0,
            flushed_unacked: 0,
            dropped_incomplete: 0,
        }
    }
}

impl StreamCounters {
    /// Nothing counted yet.
    pub open spec fn zero() -> StreamCounters {
        StreamCounters {
            segments: 0,
            bytes_accepted: 0,
            bytes_delivered: 0,
            overlaps: 0,
            conflicting_overlaps: 0,
            refused_bytes: 0,
            out_of_window: 0,
            before_window: 0,
            after_fin: 0,
            syn_data: 0,
            flushed_unacked: 0,
            dropped_incomplete: 0,
        }
    }

    /// Whether every total is at most `bound`.
    pub open spec fn at_most(self, bound: int) -> bool {
        &&& self.segments <= bound
        &&& self.bytes_accepted <= bound
        &&& self.bytes_delivered <= bound
        &&& self.overlaps <= bound
        &&& self.conflicting_overlaps <= bound
        &&& self.refused_bytes <= bound
        &&& self.out_of_window <= bound
        &&& self.before_window <= bound
        &&& self.after_fin <= bound
        &&& self.syn_data <= bound
        &&& self.flushed_unacked <= bound
        &&& self.dropped_incomplete <= bound
    }

    /// Whether two sets of totals can be added without leaving `u64`.
    pub open spec fn addable(self, other: StreamCounters) -> bool {
        &&& self.segments + other.segments <= u64::MAX
        &&& self.bytes_accepted + other.bytes_accepted <= u64::MAX
        &&& self.bytes_delivered + other.bytes_delivered <= u64::MAX
        &&& self.overlaps + other.overlaps <= u64::MAX
        &&& self.conflicting_overlaps + other.conflicting_overlaps <= u64::MAX
        &&& self.refused_bytes + other.refused_bytes <= u64::MAX
        &&& self.out_of_window + other.out_of_window <= u64::MAX
        &&& self.before_window + other.before_window <= u64::MAX
        &&& self.after_fin + other.after_fin <= u64::MAX
        &&& self.syn_data + other.syn_data <= u64::MAX
        &&& self.flushed_unacked + other.flushed_unacked <= u64::MAX
        &&& self.dropped_incomplete + other.dropped_incomplete <= u64::MAX
    }

    /// The totals of both.
    pub open spec fn sum(self, other: StreamCounters) -> StreamCounters {
        StreamCounters {
            segments: (self.segments + other.segments) as u64,
            bytes_accepted: (self.bytes_accepted + other.bytes_accepted) as u64,
            bytes_delivered: (self.bytes_delivered + other.bytes_delivered) as u64,
            overlaps: (self.overlaps + other.overlaps) as u64,
            conflicting_overlaps: (self.conflicting_overlaps + other.conflicting_overlaps) as u64,
            refused_bytes: (self.refused_bytes + other.refused_bytes) as u64,
            out_of_window: (self.out_of_window + other.out_of_window) as u64,
            before_window: (self.before_window + other.before_window) as u64,
            after_fin: (self.after_fin + other.after_fin) as u64,
            syn_data: (self.syn_data + other.syn_data) as u64,
            flushed_unacked: (self.flushed_unacked + other.flushed_unacked) as u64,
            dropped_incomplete: (self.dropped_incomplete + other.dropped_incomplete) as u64,
        }
    }

    /// Fold another set of counters into this one.
    pub fn merge(&mut self, other: Self)
        requires
            old(self).addable(other),
        ensures
            *final(self) == old(self).sum(other),
    {
        self.segments = self.segments + other.segments;
        self.bytes_accepted = self.bytes_accepted + other.bytes_accepted;
        self.bytes_delivered = self.bytes_delivered + other.bytes_delivered;
        self.overlaps = self.overlaps + other.overlaps;
        self.conflicting_overlaps = self.conflicting_overlaps + other.conflicting_overlaps;
        self.refused_bytes = self.refused_bytes + other.refused_bytes;
        self.out_of_window = self.out_of_window + other.out_of_window;
        self.before_window = self.before_window + other.before_window;
        self.after_fin = self.after_fin + other.after_fin;
        self.syn_data = self.syn_data + other.syn_data;
        self.flushed_unacked = self.flushed_unacked + other.flushed_unacked;
        self.dropped_incomplete = self.dropped_incomplete + other.dropped_incomplete;
    }
}

/// The signed distance from one wire sequence number to another.
///
/// The representative of their difference modulo 2^32 that lies in
/// `[-2^31, 2^31)`, which is how TCP compares sequence numbers: it stays correct
/// across the 32-bit wrap, and a sequence behind the origin yields a negative
/// distance rather than an enormous positive one.
pub open spec fn signed_distance(from: u32, to: u32) -> int {
    let difference = to - from;
    if difference >= 0x8000_0000 {
        difference - 0x1_0000_0000
    } else if difference < -0x8000_0000 {
        difference + 0x1_0000_0000
    } else {
        difference
    }
}

/// The wire sequence number `by` bytes after `sequence`.
pub open spec fn sequence_after(sequence: u32, by: int) -> u32 {
    ((sequence + by) % 0x1_0000_0000) as u32
}

/// The state of one direction of a conversation.
pub struct StreamModel {
    /// Wire sequence number corresponding to the buffer's window start.
    pub base_sequence: u32,
    /// Whether the sequence space has been anchored yet.
    pub established: bool,
    /// What is buffered, by absolute stream offset.
    pub buffer: Held,
    /// Highest absolute offset the peer has acknowledged.
    pub acknowledged_upto: int,
    /// Absolute offset one past the last byte, once a FIN has been seen.
    pub fin_at: Option<int>,
    /// How many contiguous bytes are delivered without an acknowledgement.
    pub flush_bytes: int,
    /// Running totals.
    pub counters: StreamCounters,
}

impl StreamModel {
    /// A direction that has seen nothing.
    pub open spec fn fresh(byte_limit: int, flush_bytes: int) -> StreamModel {
        StreamModel {
            base_sequence: 0,
            established: false,
            buffer: Held {
                start: 0,
                bytes: Map::empty(),
                byte_cap: byte_limit,
                range_cap: MAX_HOLES_PER_STREAM as int,
            },
            acknowledged_upto: 0,
            fin_at: None,
            flush_bytes,
            counters: StreamCounters::zero(),
        }
    }

    /// Whether offsets and totals are far enough from the ends of their types
    /// to take a segment of `len` bytes.
    pub open spec fn has_room(self, len: int) -> bool {
        &&& self.buffer.start + self.buffer.byte_cap + len + 0x1_0000_0000 <= i64::MAX
        &&& self.counters.at_most(u64::MAX - self.buffer.byte_cap - 2 * len - 1)
    }

    /// Whether the totals are far enough from the end of their type for the
    /// direction to be flushed.
    pub open spec fn can_end(self) -> bool {
        self.counters.at_most(u64::MAX - 2 * self.buffer.byte_cap)
    }

    /// What is buffered is sound and stays in its window.
    pub open spec fn sound(self) -> bool {
        self.buffer.sound() && self.buffer.keeps_its_window()
    }

    /// A wire sequence number as an absolute stream offset.
    pub open spec fn absolute(self, sequence: u32) -> int {
        self.buffer.start + signed_distance(self.base_sequence, sequence)
    }

    /// The direction once a segment has anchored its sequence space, if it can:
    /// a SYN does, one before the data it announces, and so does the first data
    /// of a conversation joined midway.
    pub open spec fn anchored(self, segment: TcpSegment) -> StreamModel {
        if self.established {
            self
        } else if segment.has_flag(flags::SYN) {
            StreamModel {
                base_sequence: sequence_after(segment.sequence, 1),
                established: true,
                ..self
            }
        } else if segment.payload@.len() > 0 {
            StreamModel { base_sequence: segment.sequence, established: true, ..self }
        } else {
            self
        }
    }

    /// How many of `len` bytes offered at an absolute offset lie before the FIN.
    pub open spec fn open_part(self, at: int, len: int) -> int {
        if self.fin_at is Some && self.fin_at->0 < at + len {
            if self.fin_at->0 < at {
                0
            } else {
                self.fin_at->0 - at
            }
        } else {
            len
        }
    }

    /// The direction once payload was offered at a wire sequence number. What
    /// lies at or past a FIN that was seen is counted and not stored.
    #[verifier::opaque]
    pub open spec fn stored(self, sequence: u32, payload: Seq<u8>, policy: OverlapPolicy) -> StreamModel {
        let at = self.absolute(sequence);
        let len = payload.len() as int;
        let counted = self.counters;
        if at + len <= self.buffer.start {
            StreamModel {
                counters: StreamCounters {
                    before_window: (counted.before_window + len) as u64,
                    ..counted
                },
                ..self
            }
        } else if at < 0 || at >= self.buffer.start + self.buffer.byte_cap {
            StreamModel {
                counters: StreamCounters {
                    out_of_window: (counted.out_of_window + len) as u64,
                    ..counted
                },
                ..self
            }
        } else if self.fin_at is Some && at >= self.fin_at->0 {
            StreamModel {
                counters: StreamCounters { after_fin: (counted.after_fin + len) as u64, ..counted },
                ..self
            }
        } else {
            let open = payload.take(self.open_part(at, len));
            let outcome = self.buffer.outcome(at, open, policy);
            StreamModel {
                buffer: self.buffer.written(at, open, policy),
                counters: StreamCounters {
                    after_fin: (counted.after_fin + (len - self.open_part(at, len))) as u64,
                    bytes_accepted: (counted.bytes_accepted + outcome.accepted) as u64,
                    overlaps: (counted.overlaps + outcome.overlapped) as u64,
                    conflicting_overlaps: (counted.conflicting_overlaps + outcome.conflicting) as u64,
                    refused_bytes: (counted.refused_bytes + outcome.refused) as u64,
                    before_window: (counted.before_window + outcome.before_window) as u64,
                    ..counted
                },
                ..self
            }
        }
    }

    /// The direction once a FIN was seen behind `len` bytes at `sequence`. The
    /// earliest FIN stands.
    pub open spec fn finished(self, sequence: u32, len: int) -> StreamModel {
        let at = self.absolute(sequence);
        let fin = (if at < 0 {
            0
        } else {
            at
        }) + len;
        let earliest = if self.fin_at is Some && self.fin_at->0 < fin {
            self.fin_at->0
        } else {
            fin
        };
        StreamModel { fin_at: Some(earliest), ..self }
    }

    /// The direction once a segment travelling along it has been taken in.
    #[verifier::opaque]
    pub open spec fn pushed(self, segment: TcpSegment, policy: OverlapPolicy) -> StreamModel {
        let anchored = self.anchored(segment);
        let len = segment.payload@.len() as int;
        let syn = segment.has_flag(flags::SYN);
        let sequence = if syn {
            sequence_after(segment.sequence, 1)
        } else {
            segment.sequence
        };
        let counted = StreamModel {
            counters: StreamCounters {
                segments: (anchored.counters.segments + 1) as u64,
                syn_data: (anchored.counters.syn_data + if syn {
                    len
                } else {
                    0
                }) as u64,
                ..anchored.counters
            },
            ..anchored
        };
        let stored = if len > 0 {
            counted.stored(sequence, segment.payload@, policy)
        } else {
            anchored
        };
        if !anchored.established {
            anchored
        } else if segment.has_flag(flags::FIN) {
            stored.finished(sequence, len)
        } else {
            stored
        }
    }

    /// The direction once its receiver acknowledged everything below a wire
    /// sequence number.
    pub open spec fn acknowledged(self, acknowledgment: u32) -> StreamModel {
        let at = self.absolute(acknowledgment);
        if self.established && at > self.acknowledged_upto {
            StreamModel { acknowledged_upto: at, ..self }
        } else {
            self
        }
    }

    /// How many bytes are ready in sequence.
    pub open spec fn available(self) -> int {
        self.buffer.contiguous_to() - self.buffer.start
    }

    /// Whether so much is ready that it is delivered without an acknowledgement.
    pub open spec fn overfull(self) -> bool {
        self.available() >= self.flush_bytes
    }

    /// How far delivery goes: as far as the data is contiguous, and, unless
    /// forced or overfull, no further than what was acknowledged.
    pub open spec fn delivery_to(self, force: bool) -> int {
        self.buffer.drained_to(
            if force || self.overfull() {
                self.buffer.contiguous_to()
            } else {
                self.acknowledged_upto
            },
        )
    }

    /// The bytes that delivery hands over.
    pub open spec fn delivery(self, force: bool) -> Seq<u8> {
        self.buffer.prefix_to(self.delivery_to(force))
    }

    /// The direction once its settled bytes were handed over.
    #[verifier::opaque]
    pub open spec fn delivered(self, force: bool) -> StreamModel {
        let to = self.delivery_to(force);
        let moved = to - self.buffer.start;
        StreamModel {
            base_sequence: sequence_after(self.base_sequence, moved),
            buffer: self.buffer.advanced(to),
            counters: StreamCounters {
                bytes_delivered: (self.counters.bytes_delivered + moved) as u64,
                flushed_unacked: (self.counters.flushed_unacked + if !force && self.overfull()
                    && self.acknowledged_upto < self.buffer.contiguous_to() {
                    self.available()
                } else {
                    0
                }) as u64,
                ..self.counters
            },
            ..self
        }
    }

    /// The direction once whatever it still buffers was dropped.
    pub open spec fn discarded(self) -> StreamModel {
        StreamModel {
            buffer: Held { bytes: Map::empty(), ..self.buffer },
            counters: StreamCounters {
                dropped_incomplete: (self.counters.dropped_incomplete + self.buffer.stored()) as u64,
                ..self.counters
            },
            ..self
        }
    }

    /// Whether a reset at this sequence is one the host would act on.
    pub open spec fn believes_reset(self, sequence: u32) -> bool {
        let at = self.absolute(sequence);
        self.established && 0 <= at <= self.buffer.covered_to() + RST_SEQUENCE_SLACK
    }
}

/// One direction of a TCP conversation.
#[derive(Debug)]
struct Stream {
    /// Wire sequence number corresponding to `buffer.base()`.
    base_sequence: u32,
    /// Whether the sequence space has been anchored yet.
    established: bool,
    buffer: RangeBuffer,
    /// Highest absolute offset the peer has acknowledged.
    acknowledged_upto: u64,
    /// Absolute offset one past the last byte, once a FIN has been seen.
    fin_at: Option<u64>,
    byte_limit: usize,
    flush_bytes: usize,
    counters: StreamCounters,
}

impl View for Stream {
    type V = StreamModel;

    closed spec fn view(&self) -> StreamModel {
        StreamModel {
            base_sequence: self.base_sequence,
            established: self.established,
            buffer: self.buffer@,
            acknowledged_upto: self.acknowledged_upto as int,
            fin_at: match self.fin_at {
                Some(at) => Some(at as int),
                None => None,
            },
            flush_bytes: self.flush_bytes as int,
            counters: self.counters,
        }
    }
}

impl Stream {
    spec fn well_formed(&self) -> bool {
        &&& self.buffer.well_formed()
        &&& self.byte_limit == self.buffer@.byte_cap
        &&& self.flush_bytes >= 1
    }

    fn new(byte_limit: usize, flush_bytes: usize) -> (stream: Self)
        requires
            byte_limit >= 1,
            flush_bytes >= 1,
        ensures
            stream.well_formed(),
            stream@ == StreamModel::fresh(byte_limit as int, flush_bytes as int),
    {
        Self {
            base_sequence: 0,
            established: false,
            buffer: RangeBuffer::new(0, byte_limit, MAX_HOLES_PER_STREAM),
            acknowledged_upto: 0,
            fin_at: None,
            byte_limit,
            flush_bytes,
            counters: StreamCounters::default(),
        }
    }

    /// Map a wire sequence number onto this stream's absolute offset space.
    fn absolute(&self, sequence: u32) -> (offset: i64)
        requires
            self.buffer.well_formed(),
            self.buffer@.start + 0x1_0000_0000 <= i64::MAX,
        ensures
            offset == self@.absolute(sequence),
    {
        proof {
            self.buffer.lemma_well_formed();
        }
        let delta: u32 = sequence.wrapping_sub(self.base_sequence);
        let signed: i64 = if delta < 0x8000_0000 {
            delta as i64
        } else {
            delta as i64 - 0x1_0000_0000
        };
        self.buffer.base() as i64 + signed
    }

    /// Anchor the sequence space, if this segment can.
    fn establish(&mut self, segment: &TcpSegment<'_>)
        requires
            old(self).well_formed(),
        ensures
            final(self).well_formed(),
            final(self)@ == old(self)@.anchored(*segment),
    {
        if self.established {
            return;
        }
        if segment.has(flags::SYN) {
            // The SYN itself consumes one sequence number, so data starts one
            // past it.
            self.base_sequence = segment.sequence.wrapping_add(1);
            self.established = true;
        } else if segment.payload.len() > 0 {
            // Joined mid-conversation: take the first data we see as the start.
            self.base_sequence = segment.sequence;
            self.established = true;
        }
    }

    fn push(&mut self, segment: &TcpSegment<'_>, policy: OverlapPolicy)
        requires
            old(self).well_formed(),
            old(self)@.has_room(segment.payload@.len() as int),
        ensures
            final(self).well_formed(),
            final(self)@ == old(self)@.pushed(*segment, policy),
    {
        proof {
            self.buffer.lemma_well_formed();
            reveal(StreamModel::pushed);
        }
        self.establish(segment);
        if !self.established {
            return;
        }
        let len: usize = segment.payload.len();
        if len > 0 {
            self.counters.segments = self.counters.segments + 1;
        }

        // Data riding on a SYN starts after the SYN's own sequence number.
        let sequence: u32 = if segment.has(flags::SYN) {
            if len > 0 {
                self.counters.syn_data = self.counters.syn_data + len as u64;
            }
            segment.sequence.wrapping_add(1)
        } else {
            segment.sequence
        };
        if len > 0 {
            self.store(sequence, segment.payload, policy);
        }
        if segment.has(flags::FIN) {
            let offset: i64 = self.absolute(sequence);
            let start: i64 = if offset < 0 {
                0
            } else {
                offset
            };
            let fin_at: u64 = (start + len as i64) as u64;
            // Keep the earliest FIN: a later, higher one would let an attacker
            // reopen a direction the host has already closed.
            let earliest: u64 = match self.fin_at {
                Some(existing) => if existing < fin_at {
                    existing
                } else {
                    fin_at
                },
                None => fin_at,
            };
            self.fin_at = Some(earliest);
        }
    }

    fn store(&mut self, sequence: u32, payload: &[u8], policy: OverlapPolicy)
        requires
            old(self).well_formed(),
            payload@.len() > 0,
            old(self)@.buffer.start + old(self)@.buffer.byte_cap + payload@.len() + 0x1_0000_0000
                <= i64::MAX,
            old(self)@.counters.at_most(u64::MAX - payload@.len()),
        ensures
            final(self).well_formed(),
            final(self)@ == old(self)@.stored(sequence, payload@, policy),
            final(self)@.buffer.start == old(self)@.buffer.start,
            final(self)@.buffer.byte_cap == old(self)@.buffer.byte_cap,
    {
        proof {
            self.buffer.lemma_well_formed();
            reveal(StreamModel::stored);
        }
        let offset: i64 = self.absolute(sequence);
        let len: usize = payload.len();
        let base: u64 = self.buffer.base();

        // Entirely behind the delivery point: already handed downstream and
        // beyond revision.
        if offset + len as i64 <= base as i64 {
            self.counters.before_window = self.counters.before_window + len as u64;
            return;
        }

        // Absurdly far ahead: outside any window the receiver could have
        // advertised, so the host will drop it too.
        let window_end: u64 = base + self.byte_limit as u64;
        if offset < 0 || offset as u64 >= window_end {
            self.counters.out_of_window = self.counters.out_of_window + len as u64;
            return;
        }
        let at: u64 = offset as u64;

        // At or past a FIN this direction already sent. The host has closed and will
        // not act on these bytes; accepting them would let an attacker write
        // into the sensor's view of a stream the host has stopped reading.
        let mut open: usize = len;
        if let Some(fin_at) = self.fin_at {
            if at >= fin_at {
                self.counters.after_fin = self.counters.after_fin + len as u64;
                return;
            }
            if fin_at - at < len as u64 {
                open = (fin_at - at) as usize;
                self.counters.after_fin = self.counters.after_fin + (len - open) as u64;
            }
        }
        let part: &[u8] = slice_subrange(payload, 0, open);
        proof {
            assert(part@ =~= payload@.take(open as int));
            law_a_buffer_is_sound(self.buffer);
            lemma_outcome_bounds(self.buffer@, at as int, part@, policy);
        }
        let outcome = self.buffer.write(at, part, policy);
        self.counters.bytes_accepted = self.counters.bytes_accepted + outcome.accepted;
        self.counters.overlaps = self.counters.overlaps + outcome.overlapped;
        self.counters.conflicting_overlaps = self.counters.conflicting_overlaps
            + outcome.conflicting;
        self.counters.refused_bytes = self.counters.refused_bytes + outcome.refused;
        self.counters.before_window = self.counters.before_window + outcome.before_window;
    }

    /// Note that the peer has acknowledged everything below `acknowledgment`.
    fn acknowledge(&mut self, acknowledgment: u32)
        requires
            old(self).well_formed(),
            old(self)@.buffer.start + 0x1_0000_0000 <= i64::MAX,
        ensures
            final(self).well_formed(),
            final(self)@ == old(self)@.acknowledged(acknowledgment),
    {
        if !self.established {
            return;
        }
        let offset: i64 = self.absolute(acknowledgment);
        if offset > 0 && offset as u64 > self.acknowledged_upto {
            self.acknowledged_upto = offset as u64;
        }
    }

    /// Move settled bytes into `out`.
    fn deliver(&mut self, out: &mut Vec<u8>, force: bool)
        requires
            old(self).well_formed(),
            old(self)@.counters.at_most(u64::MAX - old(self)@.buffer.byte_cap),
        ensures
            final(self).well_formed(),
            final(self)@ == old(self)@.delivered(force),
            final(self)@.buffer.byte_cap == old(self)@.buffer.byte_cap,
            final(out)@ == old(out)@ + old(self)@.delivery(force),
            old(self)@.buffer.start <= final(self)@.buffer.start <= old(self)@.buffer.start + old(
                self,
            )@.buffer.byte_cap,
            forall|bound: int| #[trigger]
                old(self)@.counters.at_most(bound) ==> final(self)@.counters.at_most(
                    bound + old(self)@.buffer.byte_cap,
                ),
    {
        proof {
            self.buffer.lemma_well_formed();
            self.buffer.lemma_contiguous();
            reveal(StreamModel::delivered);
        }
        let contiguous: u64 = self.buffer.contiguous_end();
        let available: u64 = contiguous - self.buffer.base();
        let limit: u64 = if force {
            contiguous
        } else if available >= self.flush_bytes as u64 {
            // The buffer is filling. Deliver rather than stall matching on a
            // one-way path.
            if self.acknowledged_upto < contiguous {
                self.counters.flushed_unacked = self.counters.flushed_unacked + available;
            }
            contiguous
        } else {
            self.acknowledged_upto
        };
        let moved: usize = self.buffer.drain_contiguous_upto(limit, out);
        self.counters.bytes_delivered = self.counters.bytes_delivered + moved as u64;

        // Advance the sequence anchor with the window so the signed mapping
        // stays centred and keeps working across the 32-bit wrap.
        let moved_wide: u64 = moved as u64;
        let step: u32 = (moved_wide % 0x1_0000_0000) as u32;
        proof {
            lemma_sequence_after(self.base_sequence, moved_wide as int);
        }
        self.base_sequence = self.base_sequence.wrapping_add(step);
    }

    /// Whether a RST at this sequence is one the host would act on.
    ///
    /// Deliberately generous about what counts as in-window and strict about
    /// what does not: ignoring a genuine RST costs a flow entry until its
    /// timeout, while honouring a forged one stops the sensor watching a live
    /// connection.
    fn rst_is_in_window(&self, sequence: u32) -> (believed: bool)
        requires
            self.well_formed(),
            self@.has_room(0),
        ensures
            believed == self@.believes_reset(sequence),
    {
        if !self.established {
            return false;
        }
        proof {
            self.buffer.lemma_contiguous();
            self.buffer.lemma_well_formed();
        }
        let offset: i64 = self.absolute(sequence);
        offset >= 0 && offset as u64 <= self.buffer.covered_end() + RST_SEQUENCE_SLACK
    }

    fn discard(&mut self)
        requires
            old(self).well_formed(),
            old(self)@.counters.at_most(u64::MAX - old(self)@.buffer.byte_cap),
        ensures
            final(self).well_formed(),
            final(self)@ == old(self)@.discarded(),
    {
        let held: usize = self.buffer.buffered_bytes();
        self.counters.dropped_incomplete = self.counters.dropped_incomplete + held as u64;
        let base: u64 = self.buffer.base();
        self.buffer.reset(base);
    }

    fn buffered_bytes(&self) -> (held: usize)
        requires
            self.well_formed(),
        ensures
            held == self@.buffer.stored(),
            held <= self@.buffer.byte_cap,
    {
        self.buffer.buffered_bytes()
    }
}

/// A write reports no more bytes than it was offered, in any of its counts.
pub proof fn lemma_outcome_bounds(
    held: Held,
    offset: int,
    bytes: Seq<u8>,
    policy: OverlapPolicy,
)
    requires
        held.keeps_its_window(),
        0 <= offset,
        bytes.len() <= u64::MAX,
    ensures
        ({
            let outcome = held.outcome(offset, bytes, policy);
            &&& outcome.accepted + outcome.overlapped <= bytes.len()
            &&& outcome.conflicting <= outcome.overlapped
            &&& outcome.replaced <= outcome.overlapped
            &&& outcome.refused <= bytes.len()
            &&& outcome.before_window <= bytes.len()
        }),
{
    let len = bytes.len() as int;
    let (from, to) = held.part_of(offset, len);
    if held.takes(offset, len) {
        crate::counting::lemma_count_le(
            from,
            to,
            |at: int|
                held.bytes.contains_key(at) && held.bytes[at]
                    != super::range_buffer::incoming(offset, bytes, at),
            |at: int| held.bytes.contains_key(at),
        );
    }
}

proof fn lemma_sequence_after(sequence: u32, by: int)
    requires
        0 <= by,
    ensures
        sequence_after(sequence, by) == (if sequence + by % 0x1_0000_0000 > u32::MAX {
            sequence + by % 0x1_0000_0000 - 0x1_0000_0000
        } else {
            sequence + by % 0x1_0000_0000
        }),
{
    assert((sequence + by) % 0x1_0000_0000 == (sequence + by % 0x1_0000_0000) % 0x1_0000_0000)
        by (nonlinear_arith);
}

/// The state of both directions of a conversation.
pub struct PairModel {
    /// Data towards the responder.
    pub to_server: StreamModel,
    /// Data towards the initiator.
    pub to_client: StreamModel,
}

impl PairModel {
    /// Whether both directions can take a segment of `len` bytes.
    pub open spec fn has_room(self, len: int) -> bool {
        self.to_server.has_room(len) && self.to_client.has_room(len)
    }

    /// Both directions once a segment was taken in, before delivery. The
    /// direction it travels along stores it; its acknowledgement settles data
    /// of the other.
    pub open spec fn taken(
        self,
        to_server: bool,
        segment: TcpSegment,
        policy_to_server: OverlapPolicy,
        policy_to_client: OverlapPolicy,
    ) -> PairModel {
        let acks = segment.has_flag(flags::ACK);
        if to_server {
            PairModel {
                to_server: self.to_server.pushed(segment, policy_to_server),
                to_client: if acks {
                    self.to_client.acknowledged(segment.acknowledgment)
                } else {
                    self.to_client
                },
            }
        } else {
            PairModel {
                to_server: if acks {
                    self.to_server.acknowledged(segment.acknowledgment)
                } else {
                    self.to_server
                },
                to_client: self.to_client.pushed(segment, policy_to_client),
            }
        }
    }

    /// Both directions once their settled bytes were handed over.
    pub open spec fn delivered(self, force: bool) -> PairModel {
        PairModel {
            to_server: self.to_server.delivered(force),
            to_client: self.to_client.delivered(force),
        }
    }

    /// Both directions at the end of the conversation: what was contiguous is
    /// delivered, the rest dropped.
    pub open spec fn flushed(self) -> PairModel {
        PairModel {
            to_server: self.to_server.delivered(true).discarded(),
            to_client: self.to_client.delivered(true).discarded(),
        }
    }

    /// Bytes buffered in both directions.
    pub open spec fn buffered(self) -> int {
        (self.to_server.buffer.stored() + self.to_client.buffer.stored()) as int
    }

    /// The direction that data travels along.
    pub open spec fn direction(self, to_server: bool) -> StreamModel {
        if to_server {
            self.to_server
        } else {
            self.to_client
        }
    }
}

/// Whether a direction that had room to spare for a segment has room left after
/// it: it can take an empty one, and it can end. Its cap does not change and its
/// window moves by no more than the cap.
pub open spec fn keeps_room(before: StreamModel, after: StreamModel, len: int) -> bool {
    &&& after.buffer.byte_cap == before.buffer.byte_cap
    &&& before.buffer.start <= after.buffer.start <= before.buffer.start + before.buffer.byte_cap
    &&& before.has_room(len + 2 * before.buffer.byte_cap) ==> after.has_room(0) && after.can_end()
}

/// Both directions of one TCP conversation.
#[derive(Debug)]
pub struct StreamPair {
    to_server: Stream,
    to_client: Stream,
}

impl View for StreamPair {
    type V = PairModel;

    closed spec fn view(&self) -> PairModel {
        PairModel { to_server: self.to_server@, to_client: self.to_client@ }
    }
}

impl StreamPair {
    /// The pair's invariant.
    pub closed spec fn well_formed(&self) -> bool {
        self.to_server.well_formed() && self.to_client.well_formed()
    }

    /// Each direction is held in a sound buffer that keeps its window and its caps.
    pub proof fn law_each_direction_is_sound(&self)
        requires
            self.well_formed(),
        ensures
            self@.to_server.buffer.sound(),
            self@.to_client.buffer.sound(),
            self@.to_server.buffer.keeps_its_window(),
            self@.to_client.buffer.keeps_its_window(),
            self@.to_server.buffer.runs().len() <= self@.to_server.buffer.range_cap,
            self@.to_client.buffer.runs().len() <= self@.to_client.buffer.range_cap,
    {
        law_a_buffer_is_sound(self.to_server.buffer);
        law_a_buffer_is_sound(self.to_client.buffer);
    }

    /// No direction holds more than its byte cap.
    pub proof fn law_no_direction_exceeds_its_cap(&self)
        requires
            self.well_formed(),
        ensures
            0 <= self@.to_server.buffer.stored() <= self@.to_server.buffer.byte_cap,
            0 <= self@.to_client.buffer.stored() <= self@.to_client.buffer.byte_cap,
            1 <= self@.to_server.buffer.byte_cap <= usize::MAX,
            1 <= self@.to_client.buffer.byte_cap <= usize::MAX,
    {
        self.to_server.buffer.lemma_stored_bound();
        self.to_client.buffer.lemma_stored_bound();
        self.to_server.buffer.lemma_well_formed();
        self.to_client.buffer.lemma_well_formed();
    }

    /// Build a pair sized by the configured per-flow limits.
    pub fn new(config: &ReassemblyConfig) -> (pair: Self)
        ensures
            pair.well_formed(),
            pair@ == (PairModel {
                to_server: StreamModel::fresh(config.byte_limit(), config.flush_limit()),
                to_client: StreamModel::fresh(config.byte_limit(), config.flush_limit()),
            }),
    {
        let byte_limit: usize = if config.max_stream_bytes_per_flow == 0 {
            1
        } else {
            config.max_stream_bytes_per_flow
        };
        let flush: usize = if config.delivery_flush_bytes == 0 {
            1
        } else if config.delivery_flush_bytes > byte_limit {
            byte_limit
        } else {
            config.delivery_flush_bytes
        };
        Self {
            to_server: Stream::new(byte_limit, flush),
            to_client: Stream::new(byte_limit, flush),
        }
    }

    /// Offer a segment.
    ///
    /// `policy_to_server` is the policy of the *responder* — the host receiving
    /// data sent towards the server — and `policy_to_client` that of the
    /// initiator. Two stacks, two policies.
    ///
    /// Newly settled bytes are appended to `ready`, which may gain data in
    /// **either** direction: an ACK travelling one way is what settles data
    /// travelling the other.
    pub fn push(
        &mut self,
        to_server: bool,
        segment: &TcpSegment<'_>,
        policy_to_server: OverlapPolicy,
        policy_to_client: OverlapPolicy,
        ready: &mut StreamReady,
    )
        requires
            old(self).well_formed(),
            old(self)@.has_room(segment.payload@.len() as int),
        ensures
            final(self).well_formed(),
            ({
                let taken = old(self)@.taken(
                    to_server,
                    *segment,
                    policy_to_server,
                    policy_to_client,
                );
                &&& final(self)@ == taken.delivered(false)
                &&& final(ready).to_server@ == old(ready).to_server@ + taken.to_server.delivery(
                    false,
                )
                &&& final(ready).to_client@ == old(ready).to_client@ + taken.to_client.delivery(
                    false,
                )
            }),
            keeps_room(old(self)@.to_server, final(self)@.to_server, segment.payload@.len() as int),
            keeps_room(old(self)@.to_client, final(self)@.to_client, segment.payload@.len() as int),
    {
        let ghost len = segment.payload@.len() as int;
        proof {
            self.to_server.buffer.lemma_well_formed();
            self.to_client.buffer.lemma_well_formed();
            self.law_each_direction_is_sound();
            lemma_pushed_totals(self@.to_server, *segment, policy_to_server);
            lemma_pushed_totals(self@.to_client, *segment, policy_to_client);
        }
        if to_server {
            self.to_server.push(segment, policy_to_server);
            if segment.has(flags::ACK) {
                self.to_client.acknowledge(segment.acknowledgment);
            }
        } else {
            self.to_client.push(segment, policy_to_client);
            if segment.has(flags::ACK) {
                self.to_server.acknowledge(segment.acknowledgment);
            }
        }
        let ghost server_bound = u64::MAX - 4 * self.to_server@.buffer.byte_cap;
        let ghost client_bound = u64::MAX - 4 * self.to_client@.buffer.byte_cap;
        assert(old(self)@.to_server.has_room(len + 2 * old(self)@.to_server.buffer.byte_cap)
            ==> self.to_server@.counters.at_most(server_bound));
        assert(old(self)@.to_client.has_room(len + 2 * old(self)@.to_client.buffer.byte_cap)
            ==> self.to_client@.counters.at_most(client_bound));
        self.to_server.deliver(&mut ready.to_server, false);
        self.to_client.deliver(&mut ready.to_client, false);
    }

    /// Whether a RST in the given direction should tear the connection down.
    pub fn rst_should_close(&self, to_server: bool, sequence: u32) -> (believed: bool)
        requires
            self.well_formed(),
            self@.direction(to_server).has_room(0),
        ensures
            believed == self@.direction(to_server).believes_reset(sequence),
    {
        if to_server {
            self.to_server.rst_is_in_window(sequence)
        } else {
            self.to_client.rst_is_in_window(sequence)
        }
    }

    /// Deliver everything still contiguous, for a flow that is ending.
    pub fn flush(&mut self, ready: &mut StreamReady)
        requires
            old(self).well_formed(),
            old(self)@.to_server.can_end(),
            old(self)@.to_client.can_end(),
        ensures
            final(self).well_formed(),
            final(self)@ == old(self)@.flushed(),
            final(ready).to_server@ == old(ready).to_server@ + old(self)@.to_server.delivery(true),
            final(ready).to_client@ == old(ready).to_client@ + old(self)@.to_client.delivery(true),
    {
        proof {
            self.to_server.buffer.lemma_well_formed();
            self.to_client.buffer.lemma_well_formed();
            self.to_server.buffer.lemma_contiguous();
            self.to_client.buffer.lemma_contiguous();
            let server_bound = u64::MAX - 2 * self.to_server@.buffer.byte_cap;
            let client_bound = u64::MAX - 2 * self.to_client@.buffer.byte_cap;
            assert(self.to_server@.counters.at_most(server_bound));
            assert(self.to_client@.counters.at_most(client_bound));
        }
        self.to_server.deliver(&mut ready.to_server, true);
        self.to_client.deliver(&mut ready.to_client, true);
        self.to_server.discard();
        self.to_client.discard();
    }

    /// Bytes currently buffered across both directions.
    pub fn buffered_bytes(&self) -> (held: usize)
        requires
            self.well_formed(),
            self@.buffered() <= usize::MAX,
        ensures
            held == self@.buffered(),
    {
        self.to_server.buffered_bytes() + self.to_client.buffered_bytes()
    }

    /// Combined counters for both directions.
    pub fn counters(&self) -> (combined: StreamCounters)
        requires
            self@.to_server.counters.addable(self@.to_client.counters),
        ensures
            combined == self@.to_server.counters.sum(self@.to_client.counters),
    {
        let mut combined = self.to_server.counters;
        combined.merge(self.to_client.counters);
        combined
    }

    /// Counters for one direction.
    pub fn direction_counters(&self, to_server: bool) -> (counters: StreamCounters)
        ensures
            counters == self@.direction(to_server).counters,
    {
        if to_server {
            self.to_server.counters
        } else {
            self.to_client.counters
        }
    }
}

/// Storing payload leaves the window and its cap alone and raises no total by
/// more than the payload's length.
proof fn lemma_stored_totals(
    model: StreamModel,
    sequence: u32,
    payload: Seq<u8>,
    policy: OverlapPolicy,
    bound: int,
)
    requires
        model.buffer.keeps_its_window(),
        model.counters.at_most(bound),
        bound + payload.len() <= u64::MAX,
        payload.len() > 0,
    ensures
        ({
            let after = model.stored(sequence, payload, policy);
            &&& after.buffer.start == model.buffer.start
            &&& after.buffer.byte_cap == model.buffer.byte_cap
            &&& after.counters.at_most(bound + payload.len())
        }),
{
    reveal(StreamModel::stored);
    let at = model.absolute(sequence);
    if at >= 0 {
        let open = payload.take(model.open_part(at, payload.len() as int));
        lemma_outcome_bounds(model.buffer, at, open, policy);
    }
}

/// Taking in a segment leaves the window and its cap alone and keeps every
/// total a window's length away from the end of its type.
proof fn lemma_pushed_totals(stream: StreamModel, segment: TcpSegment, policy: OverlapPolicy)
    requires
        stream.buffer.keeps_its_window(),
        stream.has_room(segment.payload@.len() as int),
    ensures
        ({
            let after = stream.pushed(segment, policy);
            &&& after.buffer.start == stream.buffer.start
            &&& after.buffer.byte_cap == stream.buffer.byte_cap
            &&& after.counters.at_most(u64::MAX - stream.buffer.byte_cap)
            &&& stream.has_room(segment.payload@.len() as int + 2 * stream.buffer.byte_cap)
                ==> after.counters.at_most(u64::MAX - 4 * stream.buffer.byte_cap)
        }),
{
    reveal(StreamModel::pushed);
    let anchored = stream.anchored(segment);
    let len = segment.payload@.len() as int;
    let syn = segment.has_flag(flags::SYN);
    let sequence = if syn {
        sequence_after(segment.sequence, 1)
    } else {
        segment.sequence
    };
    let counted = StreamModel {
        counters: StreamCounters {
            segments: (anchored.counters.segments + 1) as u64,
            syn_data: (anchored.counters.syn_data + if syn {
                len
            } else {
                0
            }) as u64,
            ..anchored.counters
        },
        ..anchored
    };
    let cap = stream.buffer.byte_cap;
    if len > 0 {
        lemma_stored_totals(
            counted,
            sequence,
            segment.payload@,
            policy,
            u64::MAX - cap - len,
        );
        if stream.has_room(len + 2 * cap) {
            lemma_stored_totals(
                counted,
                sequence,
                segment.payload@,
                policy,
                u64::MAX - 4 * cap - len,
            );
        }
    }
}

/// Sequence arithmetic survives the 32-bit wrap: the distance to the sequence
/// number `by` bytes away is `by`, for every distance TCP can express.
pub proof fn law_distances_survive_the_wrap(sequence: u32, by: int)
    requires
        -0x8000_0000 <= by < 0x8000_0000,
    ensures
        signed_distance(sequence, sequence_after(sequence, by)) == by,
{
}

/// Data is not handed over before the peer acknowledged it, unless so much is
/// ready that the flush threshold is met.
pub proof fn law_delivery_waits_for_acknowledgement(stream: StreamModel)
    requires
        !stream.overfull(),
    ensures
        stream.delivery_to(false) <= stream.acknowledged_upto || stream.delivery_to(false)
            == stream.buffer.start,
{
}

/// Delivery moves the sequence anchor with the window: a wire sequence number
/// keeps its absolute offset, as long as the new anchor can still express it.
pub proof fn law_delivery_keeps_offsets(stream: StreamModel, sequence: u32, force: bool)
    requires
        stream.delivery_to(force) >= stream.buffer.start,
        stream.delivery_to(force) - stream.buffer.start < 0x8000_0000,
        -0x8000_0000 <= signed_distance(stream.base_sequence, sequence) - (stream.delivery_to(force)
            - stream.buffer.start),
    ensures
        stream.delivered(force).absolute(sequence) == stream.absolute(sequence),
{
    reveal(StreamModel::delivered);
}

/// What was handed over stays handed over: taking in a segment never moves a
/// window back, and no byte below a window is ever stored.
pub proof fn law_delivered_bytes_are_final(
    pair: StreamPair,
    to_server: bool,
    segment: TcpSegment,
    policy_to_server: OverlapPolicy,
    policy_to_client: OverlapPolicy,
)
    requires
        pair.well_formed(),
        pair@.has_room(segment.payload@.len() as int),
    ensures
        ({
            let after = pair@.taken(to_server, segment, policy_to_server, policy_to_client).delivered(
                false,
            );
            &&& after.to_server.buffer.start >= pair@.to_server.buffer.start
            &&& after.to_client.buffer.start >= pair@.to_client.buffer.start
            &&& forall|at: int| #[trigger]
                after.to_server.buffer.bytes.contains_key(at) ==> at >= after.to_server.buffer.start
            &&& forall|at: int| #[trigger]
                after.to_client.buffer.bytes.contains_key(at) ==> at >= after.to_client.buffer.start
        }),
{
    pair.law_each_direction_is_sound();
    lemma_pushed_totals(pair@.to_server, segment, policy_to_server);
    lemma_pushed_totals(pair@.to_client, segment, policy_to_client);
    reveal(StreamModel::delivered);
}

/// Nothing enters a direction at or past the FIN it has seen, not even with a
/// segment that begins before it.
pub proof fn law_nothing_enters_past_the_fin(
    stream: StreamModel,
    sequence: u32,
    payload: Seq<u8>,
    policy: OverlapPolicy,
    at: int,
)
    requires
        stream.fin_at is Some,
        at >= stream.fin_at->0,
    ensures
        ({
            let after = stream.stored(sequence, payload, policy).buffer.bytes;
            &&& after.contains_key(at) == stream.buffer.bytes.contains_key(at)
            &&& after.contains_key(at) ==> after[at] == stream.buffer.bytes[at]
        }),
{
    reveal(StreamModel::stored);
}

/// The payload bytes that a direction has stored and that no total or buffer accounts
/// for: neither handed over, nor dropped at the end, nor held.
pub open spec fn missing_bytes(stream: StreamModel) -> int {
    stream.counters.bytes_accepted - stream.counters.bytes_delivered
        - stream.counters.dropped_incomplete - stream.buffer.stored()
}

/// Whether the payload bytes that a direction has stored are those it has handed over,
/// those it dropped at the end, and those it holds.
pub open spec fn conserves_bytes(stream: StreamModel) -> bool {
    stream.counters.bytes_accepted == stream.counters.bytes_delivered
        + stream.counters.dropped_incomplete + stream.buffer.stored()
}

/// Whether every byte that a direction counts as contradicting is one that it counts as
/// overlapping.
pub open spec fn conflicts_are_overlaps(stream: StreamModel) -> bool {
    stream.counters.conflicting_overlaps <= stream.counters.overlaps
}

/// Stream bytes are conserved: with a segment as without it, every byte that was ever
/// stored has been handed over, has been dropped at the end, or is still held. The
/// difference, which is zero in a new pair, stays what it is in both directions. The
/// bytes delivered grow by what was handed over, and conflicts stay among the overlaps.
pub proof fn law_stream_bytes_are_conserved(
    pair: StreamPair,
    to_server: bool,
    segment: TcpSegment,
    policy_to_server: OverlapPolicy,
    policy_to_client: OverlapPolicy,
)
    requires
        pair.well_formed(),
        pair@.has_room(segment.payload@.len() as int),
    ensures
        ({
            let taken = pair@.taken(to_server, segment, policy_to_server, policy_to_client);
            let after = taken.delivered(false);
            &&& missing_bytes(after.to_server) == missing_bytes(pair@.to_server)
            &&& missing_bytes(after.to_client) == missing_bytes(pair@.to_client)
            &&& conserves_bytes(pair@.to_server) ==> conserves_bytes(after.to_server)
            &&& conserves_bytes(pair@.to_client) ==> conserves_bytes(after.to_client)
            &&& after.to_server.counters.bytes_delivered
                == pair@.to_server.counters.bytes_delivered + taken.to_server.delivery(false).len()
            &&& after.to_client.counters.bytes_delivered
                == pair@.to_client.counters.bytes_delivered + taken.to_client.delivery(false).len()
            &&& conflicts_are_overlaps(pair@.to_server) ==> conflicts_are_overlaps(after.to_server)
            &&& conflicts_are_overlaps(pair@.to_client) ==> conflicts_are_overlaps(after.to_client)
        }),
{
    pair.law_each_direction_is_sound();
    lemma_taken_adds_up(pair@, to_server, segment, policy_to_server, policy_to_client);
    let taken = pair@.taken(to_server, segment, policy_to_server, policy_to_client);
    lemma_delivery_conserves(taken.to_server, false);
    lemma_delivery_conserves(taken.to_client, false);
}

/// Stream bytes are conserved at the end of a conversation: the contiguous bytes that
/// were held are handed over and counted as delivered, the others are counted as
/// dropped, and nothing is held.
pub proof fn law_the_end_conserves_stream_bytes(pair: StreamPair)
    requires
        pair.well_formed(),
        pair@.to_server.can_end(),
        pair@.to_client.can_end(),
    ensures
        missing_bytes(pair@.flushed().to_server) == missing_bytes(pair@.to_server),
        missing_bytes(pair@.flushed().to_client) == missing_bytes(pair@.to_client),
        conserves_bytes(pair@.to_server) ==> conserves_bytes(pair@.flushed().to_server),
        conserves_bytes(pair@.to_client) ==> conserves_bytes(pair@.flushed().to_client),
        pair@.flushed().buffered() == 0,
        ends_as_counted(pair@.to_server, pair@.flushed().to_server),
        ends_as_counted(pair@.to_client, pair@.flushed().to_client),
{
    pair.law_each_direction_is_sound();
    lemma_end_conserves(pair@.to_server);
    lemma_end_conserves(pair@.to_client);
}

/// Whether a direction that ended counts what it handed over as delivered and the rest
/// of what it held as dropped, and conflicts stay among the overlaps.
pub open spec fn ends_as_counted(before: StreamModel, after: StreamModel) -> bool {
    let handed_over = before.delivery(true).len();
    &&& handed_over == before.available() <= before.buffer.stored()
    &&& after.counters.bytes_delivered == before.counters.bytes_delivered + handed_over
    &&& after.counters.dropped_incomplete == before.counters.dropped_incomplete
        + before.buffer.stored() - handed_over
    &&& conflicts_are_overlaps(before) ==> conflicts_are_overlaps(after)
}

/// A new pair is missing nothing, and has counted nothing.
pub proof fn law_a_new_pair_is_missing_nothing(byte_limit: int, flush_bytes: int)
    ensures
        missing_bytes(StreamModel::fresh(byte_limit, flush_bytes)) == 0,
        conserves_bytes(StreamModel::fresh(byte_limit, flush_bytes)),
        conflicts_are_overlaps(StreamModel::fresh(byte_limit, flush_bytes)),
        StreamModel::fresh(byte_limit, flush_bytes).counters.bytes_delivered == 0,
{
    lemma_nothing_stored(StreamModel::fresh(byte_limit, flush_bytes).buffer);
}

/// What can happen to a conversation.
pub enum Call<'a> {
    /// A segment comes.
    Segment {
        /// Whether it travels towards the server.
        to_server: bool,
        /// The segment.
        segment: TcpSegment<'a>,
        /// How the responder resolves an overlap.
        policy_to_server: OverlapPolicy,
        /// How the initiator resolves an overlap.
        policy_to_client: OverlapPolicy,
    },
    /// The conversation ends.
    End,
}

/// A conversation and all that it has handed over.
pub struct Life {
    /// Both directions.
    pub pair: PairModel,
    /// What was handed over towards the server.
    pub to_server: Seq<u8>,
    /// What was handed over towards the client.
    pub to_client: Seq<u8>,
}

impl Life {
    /// A conversation to which nothing has happened.
    pub open spec fn new(byte_limit: int, flush_bytes: int) -> Life {
        Life {
            pair: PairModel {
                to_server: StreamModel::fresh(byte_limit, flush_bytes),
                to_client: StreamModel::fresh(byte_limit, flush_bytes),
            },
            to_server: seq![],
            to_client: seq![],
        }
    }

    /// Whether the totals have room for a call.
    pub open spec fn can_take(self, call: Call) -> bool {
        match call {
            Call::Segment { segment, .. } => self.pair.has_room(segment.payload@.len() as int),
            Call::End => self.pair.to_server.can_end() && self.pair.to_client.can_end(),
        }
    }

    /// The conversation after a call.
    pub open spec fn after(self, call: Call) -> Life {
        match call {
            Call::Segment { to_server, segment, policy_to_server, policy_to_client } => {
                let taken = self.pair.taken(
                    to_server,
                    segment,
                    policy_to_server,
                    policy_to_client,
                );
                Life {
                    pair: taken.delivered(false),
                    to_server: self.to_server + taken.to_server.delivery(false),
                    to_client: self.to_client + taken.to_client.delivery(false),
                }
            },
            Call::End => Life {
                pair: self.pair.flushed(),
                to_server: self.to_server + self.pair.to_server.delivery(true),
                to_client: self.to_client + self.pair.to_client.delivery(true),
            },
        }
    }

    /// Whether the totals of each direction say what became of its bytes.
    pub open spec fn adds_up(self) -> bool {
        &&& conserves_bytes(self.pair.to_server)
        &&& conserves_bytes(self.pair.to_client)
        &&& conflicts_are_overlaps(self.pair.to_server)
        &&& conflicts_are_overlaps(self.pair.to_client)
        &&& self.pair.to_server.counters.bytes_delivered == self.to_server.len()
        &&& self.pair.to_client.counters.bytes_delivered == self.to_client.len()
    }
}

/// A conversation after calls, one after the other.
pub open spec fn lived(life: Life, calls: Seq<Call>) -> Life
    decreases calls.len(),
{
    if calls.len() == 0 {
        life
    } else {
        lived(life, calls.drop_last()).after(calls.last())
    }
}

/// Whether the totals have room for every call when it comes.
pub open spec fn all_taken(life: Life, calls: Seq<Call>) -> bool
    decreases calls.len(),
{
    calls.len() == 0 || (all_taken(life, calls.drop_last()) && lived(
        life,
        calls.drop_last(),
    ).can_take(calls.last()))
}

/// Whatever happens to a conversation, its totals add up: what each direction stored is
/// what it delivered, dropped and holds, what it delivered is what it ever handed over,
/// and conflicts are among the overlaps. So do the totals of both directions together.
pub proof fn law_a_conversation_adds_up(byte_limit: int, flush_bytes: int, calls: Seq<Call>)
    requires
        1 <= byte_limit,
        all_taken(Life::new(byte_limit, flush_bytes), calls),
    ensures
        ({
            let after = lived(Life::new(byte_limit, flush_bytes), calls);
            let (server, client) = (after.pair.to_server.counters, after.pair.to_client.counters);
            let both = server.sum(client);
            &&& after.adds_up()
            &&& server.addable(client) ==> {
                &&& both.bytes_accepted == both.bytes_delivered + both.dropped_incomplete
                    + after.pair.buffered()
                &&& both.bytes_delivered == after.to_server.len() + after.to_client.len()
                &&& both.conflicting_overlaps <= both.overlaps
            }
        }),
{
    lemma_lived(byte_limit, flush_bytes, calls);
}

proof fn lemma_lived(byte_limit: int, flush_bytes: int, calls: Seq<Call>)
    requires
        1 <= byte_limit,
        all_taken(Life::new(byte_limit, flush_bytes), calls),
    ensures
        ({
            let after = lived(Life::new(byte_limit, flush_bytes), calls);
            &&& after.adds_up()
            &&& after.pair.to_server.sound()
            &&& after.pair.to_client.sound()
        }),
    decreases calls.len(),
{
    let new = Life::new(byte_limit, flush_bytes);
    if calls.len() == 0 {
        law_a_new_pair_is_missing_nothing(byte_limit, flush_bytes);
        law_an_empty_buffer_is_sound(new.pair.to_server.buffer);
    } else {
        lemma_lived(byte_limit, flush_bytes, calls.drop_last());
        lemma_call_adds_up(lived(new, calls.drop_last()), calls.last());
    }
}

proof fn lemma_call_adds_up(life: Life, call: Call)
    requires
        life.adds_up(),
        life.pair.to_server.sound(),
        life.pair.to_client.sound(),
        life.can_take(call),
    ensures
        life.after(call).adds_up(),
        life.after(call).pair.to_server.sound(),
        life.after(call).pair.to_client.sound(),
{
    match call {
        Call::Segment { to_server, segment, policy_to_server, policy_to_client } => {
            lemma_taken_adds_up(life.pair, to_server, segment, policy_to_server, policy_to_client);
            let taken = life.pair.taken(to_server, segment, policy_to_server, policy_to_client);
            lemma_delivery_conserves(taken.to_server, false);
            lemma_delivery_conserves(taken.to_client, false);
        },
        Call::End => {
            lemma_end_conserves(life.pair.to_server);
            lemma_end_conserves(life.pair.to_client);
        },
    }
}

/// What taking in a segment leaves of the totals, before delivery.
proof fn lemma_taken_adds_up(
    pair: PairModel,
    to_server: bool,
    segment: TcpSegment,
    policy_to_server: OverlapPolicy,
    policy_to_client: OverlapPolicy,
)
    requires
        pair.to_server.sound(),
        pair.to_client.sound(),
        pair.has_room(segment.payload@.len() as int),
    ensures
        ({
            let taken = pair.taken(to_server, segment, policy_to_server, policy_to_client);
            &&& taken_in(pair.to_server, taken.to_server)
            &&& taken_in(pair.to_client, taken.to_client)
        }),
{
    lemma_push_conserves(pair.to_server, segment, policy_to_server);
    lemma_push_conserves(pair.to_client, segment, policy_to_client);
}

/// Whether a direction that took something in is as sound as before, accounts for its
/// bytes as before, and has handed nothing over.
spec fn taken_in(before: StreamModel, after: StreamModel) -> bool {
    &&& after.sound()
    &&& missing_bytes(after) == missing_bytes(before)
    &&& after.counters.bytes_delivered == before.counters.bytes_delivered
    &&& after.counters.overlaps - after.counters.conflicting_overlaps >= before.counters.overlaps
        - before.counters.conflicting_overlaps
    &&& after.counters.at_most(u64::MAX - after.buffer.byte_cap)
}

proof fn lemma_nothing_stored(held: Held)
    requires
        held.bytes == Map::<int, u8>::empty(),
    ensures
        held.stored() == 0,
{
    crate::counting::lemma_count_none(
        held.start,
        held.window_end(),
        |at: int| held.bytes.contains_key(at),
    );
}

proof fn lemma_end_conserves(stream: StreamModel)
    requires
        stream.sound(),
        stream.can_end(),
    ensures
        ({
            let after = stream.delivered(true).discarded();
            &&& after.sound()
            &&& missing_bytes(after) == missing_bytes(stream)
            &&& after.buffer.stored() == 0
            &&& ends_as_counted(stream, after)
        }),
{
    lemma_delivery_conserves(stream, true);
    lemma_stored_within(stream.buffer);
    let rest = stream.delivered(true);
    lemma_nothing_stored(rest.discarded().buffer);
    law_an_empty_buffer_is_sound(rest.discarded().buffer);
}

proof fn lemma_delivery_conserves(stream: StreamModel, force: bool)
    requires
        stream.sound(),
        stream.counters.at_most(u64::MAX - stream.buffer.byte_cap),
    ensures
        ({
            let after = stream.delivered(force);
            let moved = stream.delivery(force).len();
            &&& after.sound()
            &&& missing_bytes(after) == missing_bytes(stream)
            &&& moved <= stream.available()
            &&& force ==> moved == stream.available()
            &&& after.buffer.stored() + moved == stream.buffer.stored()
            &&& after.counters.bytes_delivered == stream.counters.bytes_delivered + moved
            &&& after.counters.dropped_incomplete == stream.counters.dropped_incomplete
            &&& after.counters.overlaps == stream.counters.overlaps
            &&& after.counters.conflicting_overlaps == stream.counters.conflicting_overlaps
            &&& after.buffer.byte_cap == stream.buffer.byte_cap
        }),
{
    reveal(StreamModel::delivered);
    let to = stream.delivery_to(force);
    assert(stream.buffer.contiguous_to() >= stream.buffer.start) by {
        if stream.buffer.runs().len() > 0 {
            assert(stream.buffer.runs()[0].start < stream.buffer.runs()[0].end);
        }
    }
    law_a_drain_takes_what_it_hands_over(stream.buffer, to);
    law_a_drain_keeps_a_buffer_sound(stream.buffer, to);
    lemma_stored_within(stream.buffer);
}

proof fn lemma_store_conserves(
    model: StreamModel,
    sequence: u32,
    payload: Seq<u8>,
    policy: OverlapPolicy,
)
    requires
        model.sound(),
        model.counters.at_most(u64::MAX - payload.len()),
        payload.len() > 0,
    ensures
        ({
            let after = model.stored(sequence, payload, policy);
            &&& after.sound()
            &&& missing_bytes(after) == missing_bytes(model)
            &&& after.counters.bytes_delivered == model.counters.bytes_delivered
            &&& after.counters.overlaps - after.counters.conflicting_overlaps
                >= model.counters.overlaps - model.counters.conflicting_overlaps
        }),
{
    reveal(StreamModel::stored);
    let at = model.absolute(sequence);
    let open = payload.take(model.open_part(at, payload.len() as int));
    if at >= 0 {
        lemma_outcome_bounds(model.buffer, at, open, policy);
        law_a_write_stores_what_it_accepts(model.buffer, at, open, policy);
    }
}

proof fn lemma_push_conserves(stream: StreamModel, segment: TcpSegment, policy: OverlapPolicy)
    requires
        stream.sound(),
        stream.has_room(segment.payload@.len() as int),
    ensures
        taken_in(stream, stream.pushed(segment, policy)),
        taken_in(stream, stream),
{
    lemma_pushed_totals(stream, segment, policy);
    reveal(StreamModel::pushed);
    let anchored = stream.anchored(segment);
    let len = segment.payload@.len() as int;
    let syn = segment.has_flag(flags::SYN);
    let sequence = if syn {
        sequence_after(segment.sequence, 1)
    } else {
        segment.sequence
    };
    let counted = StreamModel {
        counters: StreamCounters {
            segments: (anchored.counters.segments + 1) as u64,
            syn_data: (anchored.counters.syn_data + if syn {
                len
            } else {
                0
            }) as u64,
            ..anchored.counters
        },
        ..anchored
    };
    if len > 0 {
        lemma_store_conserves(counted, sequence, segment.payload@, policy);
    }
}

/// A buffer that keeps its window stores no more than its cap.
proof fn lemma_stored_within(held: Held)
    requires
        held.keeps_its_window(),
    ensures
        held.stored() <= held.byte_cap,
{
    crate::counting::lemma_count_le(
        held.start,
        held.window_end(),
        |at: int| held.bytes.contains_key(at),
        |at: int| held.bytes.contains_key(at),
    );
}

/// Whether a direction is carrying a message: what it holds is what the message has
/// there, and what it handed over was the message's start.
pub open spec fn carries(stream: StreamModel, message: Seq<u8>) -> bool {
    &&& holds_part_of(stream.buffer.bytes, message)
    &&& 0 <= stream.buffer.start <= message.len()
}

/// A segment that brings a piece of a message where it belongs leaves the direction
/// carrying the message, in whatever order the pieces come and however often.
pub proof fn law_segments_of_a_message_fit(
    stream: StreamModel,
    message: Seq<u8>,
    sequence: u32,
    len: int,
    policy: OverlapPolicy,
)
    requires
        carries(stream, message),
        0 <= stream.absolute(sequence),
        0 <= len,
        stream.absolute(sequence) + len <= message.len(),
    ensures
        carries(
            stream.stored(
                sequence,
                message.subrange(stream.absolute(sequence), stream.absolute(sequence) + len),
                policy,
            ),
            message,
        ),
{
    reveal(StreamModel::stored);
    let at = stream.absolute(sequence);
    let open = stream.open_part(at, len);
    assert(message.subrange(at, at + len).take(open) =~= message.subrange(at, at + open));
    law_pieces_of_a_message_fit(stream.buffer, message, at, open, policy);
}

/// What a direction that carries a message hands over is the next stretch of the
/// message, and it carries the rest.
pub proof fn law_a_stream_delivers_the_message(stream: StreamModel, message: Seq<u8>, force: bool)
    requires
        carries(stream, message),
        stream.buffer.sound(),
    ensures
        stream.buffer.start <= stream.delivery_to(force) <= message.len(),
        stream.delivery(force) == message.subrange(
            stream.buffer.start,
            stream.delivery_to(force),
        ),
        carries(stream.delivered(force), message),
        stream.delivered(force).buffer.start == stream.delivery_to(force),
{
    reveal(StreamModel::delivered);
    let to = stream.delivery_to(force);
    if stream.buffer.contiguous_to() > stream.buffer.start {
        assert(to <= stream.buffer.contiguous_to());
    } else {
        assert(to == stream.buffer.start);
        assert(stream.buffer.contiguous_to() >= stream.buffer.start) by {
            if stream.buffer.runs().len() > 0 {
                assert(stream.buffer.runs()[0].start < stream.buffer.runs()[0].end);
            }
        }
    }
    law_what_is_contiguous_is_the_message(stream.buffer, message, to);
}

/// What happens to a direction that carries a message.
pub enum Step {
    /// A segment brings a piece of the message, under a wire sequence number.
    Segment(u32, Piece),
    /// The receiver acknowledges everything below a wire sequence number.
    Acknowledgement(u32),
    /// What has settled is handed over, or, where forced, all that is contiguous.
    Delivery(bool),
}

/// A direction and what it has handed over, after a step.
pub open spec fn stepped(
    stream: StreamModel,
    out: Seq<u8>,
    message: Seq<u8>,
    step: Step,
) -> (StreamModel, Seq<u8>) {
    match step {
        Step::Segment(sequence, piece) => (
            stream.stored(sequence, piece.of(message), piece.policy),
            out,
        ),
        Step::Acknowledgement(sequence) => (stream.acknowledged(sequence), out),
        Step::Delivery(force) => (stream.delivered(force), out + stream.delivery(force)),
    }
}

/// A direction and what it has handed over, after steps.
pub open spec fn after_steps(stream: StreamModel, message: Seq<u8>, steps: Seq<Step>) -> (
    StreamModel,
    Seq<u8>,
)
    decreases steps.len(),
{
    if steps.len() == 0 {
        (stream, Seq::empty())
    } else {
        let (before, out) = after_steps(stream, message, steps.drop_last());
        stepped(before, out, message, steps.last())
    }
}

/// Whether a segment brings its piece where it belongs and loses nothing of it: its
/// sequence number stands for the piece's place, no FIN came before its end, and no
/// byte of it falls outside the window or is refused by a cap.
pub open spec fn segment_fits(
    stream: StreamModel,
    message: Seq<u8>,
    sequence: u32,
    piece: Piece,
) -> bool {
    &&& piece.within(message)
    &&& stream.absolute(sequence) == piece.offset
    &&& stream.fin_at is None || piece.offset + piece.len <= stream.fin_at->0
    &&& piece.offset + piece.len <= stream.buffer.start || (piece.offset < stream.buffer.start
        + stream.buffer.byte_cap && stream.buffer.refused_len(piece.offset, piece.len) == 0)
}

/// Whether every segment of some steps fits where it comes.
pub open spec fn all_fit(stream: StreamModel, message: Seq<u8>, steps: Seq<Step>) -> bool
    decreases steps.len(),
{
    steps.len() == 0 || {
        &&& all_fit(stream, message, steps.drop_last())
        &&& steps.last() matches Step::Segment(sequence, piece) ==> segment_fits(
            after_steps(stream, message, steps.drop_last()).0,
            message,
            sequence,
            piece,
        )
    }
}

/// Whether a segment of some steps brings the byte at an offset.
pub open spec fn segments_bring(steps: Seq<Step>, at: int) -> bool {
    exists|i: int| 0 <= i < steps.len() && step_brings(#[trigger] steps[i], at)
}

/// Whether a step is a segment that brings the byte at an offset.
pub open spec fn step_brings(step: Step, at: int) -> bool {
    step matches Step::Segment(_, piece) && piece.brings(at)
}

/// What a direction has handed over is at every time the message as far as its window
/// has moved, whatever the order of segments, acknowledgements and deliveries, and it
/// holds every byte of the rest that it held or that a segment brought.
pub proof fn law_a_direction_keeps_what_segments_bring(
    stream: StreamModel,
    message: Seq<u8>,
    steps: Seq<Step>,
)
    requires
        stream.buffer.sound(),
        carries(stream, message),
        message.len() <= u64::MAX,
        all_fit(stream, message, steps),
    ensures
        ({
            let (after, out) = after_steps(stream, message, steps);
            &&& after.buffer.sound()
            &&& carries(after, message)
            &&& stream.buffer.start <= after.buffer.start
            &&& out == message.subrange(stream.buffer.start, after.buffer.start)
            &&& forall|at: int|
                after.buffer.start <= at < message.len() ==> (
                #[trigger] after.buffer.bytes.contains_key(at) <==> stream.buffer.bytes.contains_key(
                    at,
                ) || segments_bring(steps, at))
        }),
    decreases steps.len(),
{
    if steps.len() == 0 {
        assert(after_steps(stream, message, steps).1 =~= message.subrange(
            stream.buffer.start,
            stream.buffer.start,
        ));
    } else {
        let init = steps.drop_last();
        let last = steps.last();
        let (before, out) = after_steps(stream, message, init);
        let (after, all) = after_steps(stream, message, steps);
        law_a_direction_keeps_what_segments_bring(stream, message, init);
        assert forall|at: int| #[trigger] segments_bring(steps, at) == (segments_bring(init, at)
            || step_brings(last, at)) by {
            lemma_segments_bring(steps, at);
        }
        match last {
            Step::Segment(sequence, piece) => {
                lemma_segment_is_kept(before, message, sequence, piece);
            },
            Step::Acknowledgement(_) => {},
            Step::Delivery(force) => {
                law_a_stream_delivers_the_message(before, message, force);
                lemma_delivery_is_contiguous(before, force);
                law_a_drain_keeps_a_buffer_sound(before.buffer, before.delivery_to(force));
                reveal(StreamModel::delivered);
                assert(all =~= message.subrange(stream.buffer.start, after.buffer.start));
            },
        }
        assert forall|at: int|
            after.buffer.start <= at < message.len() implies (
        #[trigger] after.buffer.bytes.contains_key(at) <==> stream.buffer.bytes.contains_key(at)
            || segments_bring(steps, at)) by {
            assert(before.buffer.bytes.contains_key(at) <==> stream.buffer.bytes.contains_key(at)
                || segments_bring(init, at));
            assert(segments_bring(steps, at) == (segments_bring(init, at) || step_brings(
                last,
                at,
            )));
        }
    }
}

proof fn lemma_segments_bring(steps: Seq<Step>, at: int)
    requires
        steps.len() > 0,
    ensures
        segments_bring(steps, at) == (segments_bring(steps.drop_last(), at) || step_brings(
            steps.last(),
            at,
        )),
{
    let init = steps.drop_last();
    if segments_bring(init, at) {
        let i = choose|i: int| 0 <= i < init.len() && step_brings(#[trigger] init[i], at);
        assert(step_brings(steps[i], at));
    }
    if step_brings(steps.last(), at) {
        assert(step_brings(steps[steps.len() - 1], at));
    }
    if segments_bring(steps, at) && !step_brings(steps.last(), at) {
        let i = choose|i: int| 0 <= i < steps.len() && step_brings(#[trigger] steps[i], at);
        assert(step_brings(init[i], at));
    }
}

proof fn lemma_segment_is_kept(stream: StreamModel, message: Seq<u8>, sequence: u32, piece: Piece)
    requires
        stream.buffer.sound(),
        carries(stream, message),
        message.len() <= u64::MAX,
        segment_fits(stream, message, sequence, piece),
    ensures
        ({
            let after = stream.stored(sequence, piece.of(message), piece.policy);
            &&& after.buffer.sound()
            &&& carries(after, message)
            &&& after.buffer.start == stream.buffer.start
            &&& forall|at: int|
                stream.buffer.start <= at ==> (#[trigger] after.buffer.bytes.contains_key(at)
                    <==> stream.buffer.bytes.contains_key(at) || piece.brings(at))
        }),
{
    reveal(StreamModel::stored);
    let bytes = piece.of(message);
    assert(bytes.len() == piece.len);
    assert(bytes.take(piece.len) =~= bytes);
    law_a_write_keeps_a_buffer_sound(stream.buffer, piece.offset, bytes, piece.policy);
    law_pieces_of_a_message_fit(stream.buffer, message, piece.offset, piece.len, piece.policy);
}

proof fn lemma_delivery_is_contiguous(stream: StreamModel, force: bool)
    requires
        stream.buffer.sound(),
    ensures
        stream.buffer.start <= stream.delivery_to(force) <= stream.buffer.contiguous_to(),
{
    if stream.buffer.runs().len() > 0 {
        assert(stream.buffer.runs()[0].start < stream.buffer.runs()[0].end);
    }
}

/// A message split over any segments, arriving in any order and however often, between
/// any acknowledgements and deliveries, comes back whole: once every byte of it has
/// come, and none fell outside the window or was refused by a cap, handing over what is
/// contiguous completes the message.
pub proof fn law_a_split_message_is_delivered_whole(
    stream: StreamModel,
    message: Seq<u8>,
    steps: Seq<Step>,
)
    requires
        stream.buffer.sound(),
        carries(stream, message),
        message.len() <= u64::MAX,
        all_fit(stream, message, steps),
        forall|at: int|
            stream.buffer.start <= at < message.len() ==> stream.buffer.bytes.contains_key(at)
                || #[trigger] segments_bring(steps, at),
    ensures
        ({
            let (after, out) = after_steps(stream, message, steps);
            &&& after.buffer.contiguous_to() == message.len()
            &&& out + after.delivery(true) == message.subrange(
                stream.buffer.start,
                message.len() as int,
            )
        }),
{
    let (after, out) = after_steps(stream, message, steps);
    law_a_direction_keeps_what_segments_bring(stream, message, steps);
    assert forall|at: int| #[trigger] after.buffer.bytes.contains_key(at) <==> after.buffer.start
        <= at < message.len() by {
        if after.buffer.start <= at < message.len() {
            assert(stream.buffer.bytes.contains_key(at) || segments_bring(steps, at));
        }
    }
    law_a_filled_buffer_is_contiguous(after.buffer, message.len() as int);
    law_a_stream_delivers_the_message(after, message, true);
    assert(out + after.delivery(true) =~= message.subrange(
        stream.buffer.start,
        message.len() as int,
    ));
}

/// Where a direction starts: a SYN stands one before the first byte, data without one is
/// itself the first, and an empty segment says nothing. Once it has started it stays.
pub proof fn law_what_starts_a_direction(stream: StreamModel, segment: TcpSegment)
    ensures
        ({
            let after = stream.anchored(segment);
            let syn = segment.flags & 2 != 0;
            let data = segment.payload@.len() > 0;
            &&& stream.established ==> after == stream
            &&& !stream.established ==> (after.established <==> syn || data)
            &&& !stream.established && syn ==> after.base_sequence == if segment.sequence
                == u32::MAX {
                0
            } else {
                segment.sequence + 1
            }
            &&& !stream.established && !syn && data ==> after.base_sequence == segment.sequence
            &&& after.buffer == stream.buffer
        }),
{
}

/// A direction ends at the earliest FIN, which stands behind the data of its segment.
pub proof fn law_the_earliest_fin_stands(stream: StreamModel, sequence: u32, len: int)
    requires
        0 <= len,
    ensures
        ({
            let at = stream.absolute(sequence);
            let after = stream.finished(sequence, len);
            &&& after.fin_at is Some
            &&& at >= 0 ==> after.fin_at->0 <= at + len
            &&& stream.fin_at matches Some(before) ==> after.fin_at->0 <= before
            &&& at >= 0 ==> after.fin_at == Some(at + len) || after.fin_at == stream.fin_at
            &&& after.buffer == stream.buffer && after.counters == stream.counters
        }),
{
}

/// An acknowledgement settles everything before it, and never unsettles anything.
pub proof fn law_acknowledgements_only_grow(stream: StreamModel, acknowledgment: u32)
    ensures
        ({
            let after = stream.acknowledged(acknowledgment);
            &&& after.acknowledged_upto >= stream.acknowledged_upto
            &&& stream.established ==> after.acknowledged_upto >= stream.absolute(acknowledgment)
            &&& stream.established ==> after.acknowledged_upto == stream.absolute(acknowledgment)
                || after.acknowledged_upto == stream.acknowledged_upto
            &&& !stream.established ==> after == stream
            &&& after.buffer == stream.buffer && after.fin_at == stream.fin_at
        }),
{
}

/// What is delivered: everything in sequence where it is forced or where the flush
/// threshold is met, and otherwise what is both in sequence and acknowledged.
pub proof fn law_what_is_delivered(stream: StreamModel)
    requires
        stream.buffer.contiguous_to() >= stream.buffer.start,
    ensures
        stream.delivery_to(true) == stream.buffer.contiguous_to(),
        stream.available() >= stream.flush_bytes ==> stream.delivery_to(false)
            == stream.buffer.contiguous_to(),
        stream.available() < stream.flush_bytes ==> {
            let to = stream.delivery_to(false);
            &&& stream.buffer.start <= to <= stream.buffer.contiguous_to()
            &&& stream.acknowledged_upto >= stream.buffer.contiguous_to() ==> to
                == stream.buffer.contiguous_to()
            &&& stream.buffer.start <= stream.acknowledged_upto < stream.buffer.contiguous_to()
                ==> to == stream.acknowledged_upto
            &&& stream.acknowledged_upto < stream.buffer.start ==> to == stream.buffer.start
        },
{
}

/// What delivery counts: the bytes that were handed over, and as unacknowledged those
/// that went out because so much was waiting.
pub proof fn law_deliveries_are_counted(stream: StreamModel, force: bool)
    requires
        stream.buffer.contiguous_to() >= stream.buffer.start,
        stream.counters.bytes_delivered + stream.available() <= u64::MAX,
        stream.counters.flushed_unacked + stream.available() <= u64::MAX,
    ensures
        ({
            let after = stream.delivered(force);
            let moved = stream.delivery_to(force) - stream.buffer.start;
            let early = !force && stream.available() >= stream.flush_bytes
                && stream.acknowledged_upto < stream.buffer.contiguous_to();
            &&& stream.delivery(force).len() == moved
            &&& after.counters.bytes_delivered == stream.counters.bytes_delivered + moved
            &&& after.counters.flushed_unacked == stream.counters.flushed_unacked + if early {
                stream.available()
            } else {
                0
            }
            &&& after.buffer.start == stream.buffer.start + moved
            &&& after.fin_at == stream.fin_at && after.acknowledged_upto
                == stream.acknowledged_upto
        }),
{
    reveal(StreamModel::delivered);
}

/// Every payload byte is counted once: as already delivered, as outside the window, as
/// behind the FIN, as stored, as overlapping or as refused.
pub proof fn law_every_payload_byte_is_counted(
    stream: StreamModel,
    sequence: u32,
    payload: Seq<u8>,
    policy: OverlapPolicy,
)
    requires
        stream.buffer.keeps_its_window(),
        stream.has_room(payload.len() as int),
    ensures
        ({
            let before = stream.counters;
            let after = stream.stored(sequence, payload, policy).counters;
            &&& (after.before_window - before.before_window) + (after.out_of_window
                - before.out_of_window) + (after.after_fin - before.after_fin) + (
            after.bytes_accepted - before.bytes_accepted) + (after.overlaps - before.overlaps) + (
            after.refused_bytes - before.refused_bytes) == payload.len()
            &&& after.conflicting_overlaps - before.conflicting_overlaps <= after.overlaps
                - before.overlaps
            &&& after.segments == before.segments
            &&& after.bytes_delivered == before.bytes_delivered
        }),
{
    reveal(StreamModel::stored);
    let at = stream.absolute(sequence);
    let len = payload.len() as int;
    if at + len > stream.buffer.start && 0 <= at < stream.buffer.start + stream.buffer.byte_cap && !(
    stream.fin_at is Some && at >= stream.fin_at->0) {
        let open = payload.take(stream.open_part(at, len));
        law_conflicts_are_told_from_overlaps(stream.buffer, at, open, policy);
    }
}

/// Which of the counts a payload falls under: what ends before the window was seen, what
/// starts past it is out of the window, and what starts at or past the FIN comes after it.
pub proof fn law_where_a_payload_falls(
    stream: StreamModel,
    sequence: u32,
    payload: Seq<u8>,
    policy: OverlapPolicy,
)
    requires
        stream.has_room(payload.len() as int),
        0 <= stream.buffer.byte_cap,
    ensures
        ({
            let at = stream.absolute(sequence);
            let len = payload.len() as int;
            let after = stream.stored(sequence, payload, policy);
            let before = stream.counters;
            let seen = at + len <= stream.buffer.start;
            let beyond = at >= stream.buffer.start + stream.buffer.byte_cap || at < 0;
            &&& seen ==> after.counters.before_window == before.before_window + len && after.buffer
                == stream.buffer
            &&& !seen && beyond ==> after.counters.out_of_window == before.out_of_window + len
                && after.buffer == stream.buffer
            &&& !seen && !beyond && stream.fin_at is Some && at >= stream.fin_at->0
                ==> after.counters.after_fin == before.after_fin + len && after.buffer
                == stream.buffer
            &&& !seen && !beyond && stream.fin_at is None ==> after.buffer == stream.buffer.written(
                at,
                payload,
                policy,
            ) && after.counters.after_fin == before.after_fin
        }),
{
    reveal(StreamModel::stored);
    assert(payload.take(payload.len() as int) =~= payload);
}

/// A segment along a direction that has started is counted where it has data, a SYN moves
/// its data by one, and its FIN stands behind its data.
pub proof fn law_what_a_segment_does(
    stream: StreamModel,
    segment: TcpSegment,
    policy: OverlapPolicy,
)
    requires
        stream.counters.segments < u64::MAX,
        stream.counters.syn_data + segment.payload@.len() <= u64::MAX,
    ensures
        ({
            let after = stream.pushed(segment, policy);
            let start = stream.anchored(segment);
            let data = segment.payload@.len() > 0;
            let syn = segment.flags & 2 != 0;
            let fin = segment.flags & 1 != 0;
            &&& !stream.established && !syn && !data ==> after == stream
            &&& start.established && data ==> after.counters.segments == stream.counters.segments
                + 1 && after.counters.syn_data == stream.counters.syn_data + if syn {
                segment.payload@.len() as int
            } else {
                0
            }
            &&& start.established && !data && !fin ==> after == start
            &&& start.established && fin ==> after.fin_at is Some
            &&& start.established && !fin ==> after.fin_at == stream.fin_at
        }),
{
    reveal(StreamModel::pushed);
    let start = stream.anchored(segment);
    let syn = segment.has_flag(flags::SYN);
    let counted = StreamModel {
        counters: StreamCounters {
            segments: (start.counters.segments + 1) as u64,
            syn_data: (start.counters.syn_data + if syn {
                segment.payload@.len() as int
            } else {
                0
            }) as u64,
            ..start.counters
        },
        ..start
    };
    let sequence = if syn {
        sequence_after(segment.sequence, 1)
    } else {
        segment.sequence
    };
    lemma_storing_keeps(counted, sequence, segment.payload@, policy);
}

proof fn lemma_storing_keeps(
    stream: StreamModel,
    sequence: u32,
    payload: Seq<u8>,
    policy: OverlapPolicy,
)
    ensures
        ({
            let after = stream.stored(sequence, payload, policy);
            &&& after.counters.segments == stream.counters.segments
            &&& after.counters.syn_data == stream.counters.syn_data
            &&& after.fin_at == stream.fin_at
        }),
{
    reveal(StreamModel::stored);
}

/// A reset is believed exactly where the direction has started and the reset lies between
/// its start and 65535 bytes past what has arrived.
pub proof fn law_which_resets_are_believed(stream: StreamModel, sequence: u32)
    ensures
        stream.believes_reset(sequence) <==> stream.established && 0 <= stream.absolute(sequence)
            && stream.absolute(sequence) - stream.buffer.covered_to() <= 65_535,
{
}

/// A segment is stored along the direction that it travels, and its acknowledgement, if it
/// has one, settles the other; nothing else changes.
pub proof fn law_a_segment_stores_one_way_and_settles_the_other(
    pair: PairModel,
    segment: TcpSegment,
    policy_to_server: OverlapPolicy,
    policy_to_client: OverlapPolicy,
)
    ensures
        ({
            let out = pair.taken(true, segment, policy_to_server, policy_to_client);
            let back = pair.taken(false, segment, policy_to_server, policy_to_client);
            let acks = segment.flags & 16 != 0;
            &&& out.to_server == pair.to_server.pushed(segment, policy_to_server)
            &&& back.to_client == pair.to_client.pushed(segment, policy_to_client)
            &&& acks ==> out.to_client == pair.to_client.acknowledged(segment.acknowledgment)
            &&& acks ==> back.to_server == pair.to_server.acknowledged(segment.acknowledgment)
            &&& !acks ==> out.to_client == pair.to_client && back.to_server == pair.to_server
        }),
{
}

/// Adding totals adds each of them.
pub proof fn law_totals_are_added_one_by_one(a: StreamCounters, b: StreamCounters)
    requires
        a.addable(b),
    ensures
        a.sum(b) == b.sum(a),
        a.sum(StreamCounters::zero()) == a,
        a.sum(b).segments - a.segments == b.segments,
        a.sum(b).bytes_accepted - a.bytes_accepted == b.bytes_accepted,
        a.sum(b).bytes_delivered - a.bytes_delivered == b.bytes_delivered,
        a.sum(b).overlaps - a.overlaps == b.overlaps,
        a.sum(b).conflicting_overlaps - a.conflicting_overlaps == b.conflicting_overlaps,
        a.sum(b).refused_bytes - a.refused_bytes == b.refused_bytes,
        a.sum(b).out_of_window - a.out_of_window == b.out_of_window,
        a.sum(b).before_window - a.before_window == b.before_window,
        a.sum(b).after_fin - a.after_fin == b.after_fin,
        a.sum(b).syn_data - a.syn_data == b.syn_data,
        a.sum(b).flushed_unacked - a.flushed_unacked == b.flushed_unacked,
        a.sum(b).dropped_incomplete - a.dropped_incomplete == b.dropped_incomplete,
{
}

} // verus!
