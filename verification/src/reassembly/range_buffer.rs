//! A bounded byte buffer addressed by absolute offset, with overlap policy.
//!
//! Both halves of reassembly need the same thing: accept byte ranges that
//! arrive out of order, possibly overlapping and possibly *disagreeing*, decide
//! which copy wins, and hand back the contiguous prefix once it is complete.
//! IP defragmentation addresses it by fragment offset; TCP stream reassembly
//! addresses it by sequence number. One implementation serves both.
//!
//! The model of a buffer is a partial map from absolute offsets to bytes,
//! [`RangeBuffer::bytes`], above a window start, [`RangeBuffer::base`]. A write
//! is described offset by offset: where nothing is stored the byte is taken,
//! where something is stored the policy decides.
//!
//! # Bounded twice over
//!
//! An attacker chooses the offsets, so both the bytes held and the number of
//! holes are capped. The byte cap alone is not enough: a flood of one-byte
//! segments at alternating offsets would hold few bytes but an unbounded number
//! of gap descriptors.

use vstd::prelude::*;
use crate::counting::{
    count_in, lemma_count_all, lemma_count_le, lemma_count_none, lemma_count_same, lemma_count_split,
};
use super::OverlapPolicy;
use vstd::slice::slice_subrange;

verus! {

/// What a write did.
#[derive(Debug, Clone, Copy, PartialEq, Eq, Structural)]
pub struct WriteOutcome {
    /// Bytes written into space that was not covered before.
    pub accepted: u64,
    /// Bytes that landed on already-covered space, agreeing or not.
    pub overlapped: u64,
    /// Of the overlapping bytes, how many **disagreed** with what was there.
    ///
    /// Non-zero means two copies of the same offset carried different data.
    /// That is either a badly broken stack or somebody trying to show the
    /// sensor and the host different things.
    pub conflicting: u64,
    /// Bytes that overwrote existing data because the policy is
    /// [`OverlapPolicy::Last`].
    pub replaced: u64,
    /// Bytes refused because the buffer is at its byte or range cap.
    pub refused: u64,
    /// Bytes addressed below the window, i.e. already delivered and gone.
    pub before_window: u64,
}

impl Default for WriteOutcome {
    fn default() -> (outcome: Self)
        ensures
            outcome == nothing_written(),
    {
        Self {
            accepted: 0,
            overlapped: 0,
            conflicting: 0,
            replaced: 0,
            refused: 0,
            before_window: 0,
        }
    }
}

impl WriteOutcome {
    /// Whether anything was refused or dropped rather than stored.
    pub fn lost_data(&self) -> (lost: bool)
        ensures
            lost == (self.refused > 0),
    {
        self.refused > 0
    }
}

/// The outcome of a write that touched nothing.
pub open spec fn nothing_written() -> WriteOutcome {
    WriteOutcome {
        accepted: 0,
        overlapped: 0,
        conflicting: 0,
        replaced: 0,
        refused: 0,
        before_window: 0,
    }
}

/// A stretch `[start, end)` of absolute offsets.
#[derive(Debug, Clone, Copy, PartialEq, Eq, Structural)]
pub struct Span {
    /// First offset of the stretch.
    pub start: u64,
    /// One past its last offset.
    pub end: u64,
}

impl Span {
    /// Whether an offset lies in the stretch.
    pub open spec fn has(self, at: int) -> bool {
        self.start <= at < self.end
    }
}

/// Whether an offset lies in one of the stretches.
pub open spec fn covers(spans: Seq<Span>, at: int) -> bool {
    exists|i: int| 0 <= i < spans.len() && (#[trigger] spans[i]).has(at)
}

/// Whether stretches are non-empty, in order, and apart from each other, which
/// makes each of them a maximal run.
pub open spec fn are_runs(spans: Seq<Span>) -> bool {
    &&& forall|i: int| 0 <= i < spans.len() ==> (#[trigger] spans[i]).start < spans[i].end
    &&& forall|i: int, j: int|
        0 <= i < j < spans.len() ==> (#[trigger] spans[i]).end < (#[trigger] spans[j]).start
}

/// Whether `[start, end)` touches or overlaps one of the stretches.
pub open spec fn touches(spans: Seq<Span>, start: int, end: int) -> bool {
    exists|i: int|
        0 <= i < spans.len() && (#[trigger] spans[i]).end >= start && spans[i].start <= end
}

/// The total length of the stretches.
pub open spec fn total_len(spans: Seq<Span>) -> int
    decreases spans.len(),
{
    if spans.len() == 0 {
        0
    } else {
        total_len(spans.drop_last()) + (spans.last().end - spans.last().start)
    }
}

/// The sum of two offsets, clamped to the largest one.
pub open spec fn clamped_sum(a: int, b: int) -> int {
    if a + b > u64::MAX {
        u64::MAX as int
    } else {
        a + b
    }
}

/// The byte that a write of `bytes` at `offset` puts at `at`.
pub open spec fn incoming(offset: int, bytes: Seq<u8>, at: int) -> u8 {
    bytes[at - offset]
}

/// How many offsets of `[from, to)` hold a byte.
pub open spec fn stored_in(held: Map<int, u8>, from: int, to: int) -> nat {
    count_in(from, to, |at: int| held.contains_key(at))
}

/// How many offsets of `[from, to)` hold a byte that a write contradicts.
pub open spec fn contradicted_in(
    held: Map<int, u8>,
    from: int,
    to: int,
    offset: int,
    bytes: Seq<u8>,
) -> nat {
    count_in(from, to, |at: int| held.contains_key(at) && held[at] != incoming(offset, bytes, at))
}

/// What is held after a write of `bytes` at `offset` was taken on `[from, to)`.
pub open spec fn resolved(
    held: Map<int, u8>,
    from: int,
    to: int,
    offset: int,
    bytes: Seq<u8>,
    policy: OverlapPolicy,
) -> Map<int, u8> {
    Map::new(
        |at: int| held.contains_key(at) || from <= at < to,
        |at: int|
            if from <= at < to && (!held.contains_key(at) || policy == OverlapPolicy::Last) {
                incoming(offset, bytes, at)
            } else {
                held[at]
            },
    )
}

/// How many bytes of a write lie before the window.
pub open spec fn before_window_len(base: int, offset: int, len: int) -> int {
    if clamped_sum(offset, len) <= base {
        len
    } else if offset < base {
        base - offset
    } else {
        0
    }
}

/// The stretch of offsets on which a non-empty write is taken, were there no
/// cap on ranges: from the window start or the write's own start, up to the
/// window's end or the write's own end. Empty where nothing can be taken.
pub open spec fn window_part(base: int, window_end: int, offset: int, len: int) -> (int, int) {
    let from = if offset < base {
        base
    } else {
        offset
    };
    let end = clamped_sum(offset, len);
    let to = if end > window_end {
        window_end
    } else {
        end
    };
    (from, to)
}

/// What a buffer holds: the model that its contracts speak of.
pub struct Held {
    /// Absolute offset of the start of the window.
    pub start: int,
    /// The stored bytes by absolute offset.
    pub bytes: Map<int, u8>,
    /// The most bytes the buffer holds.
    pub byte_cap: int,
    /// The most disjoint ranges the buffer holds.
    pub range_cap: int,
}

/// The maximal runs of stored offsets, in order.
pub open spec fn runs_of(bytes: Map<int, u8>) -> Seq<Span> {
    choose|runs: Seq<Span>| #[trigger]
        are_runs(runs) && forall|at: int| #[trigger]
            covers(runs, at) <==> bytes.contains_key(at)
}

impl Held {
    /// The stored bytes lie in the window, and fall into runs.
    pub open spec fn sound(self) -> bool {
        &&& are_runs(self.runs())
        &&& forall|at: int| #[trigger] self.bytes.contains_key(at) <==> covers(self.runs(), at)
        &&& forall|at: int| #[trigger] self.bytes.contains_key(at) ==> self.start <= at
    }

    /// Nothing is stored outside the window, and the window starts at an offset.
    pub open spec fn keeps_its_window(self) -> bool {
        &&& 0 <= self.start <= u64::MAX
        &&& 0 <= self.byte_cap
        &&& forall|at: int| #[trigger]
            self.bytes.contains_key(at) ==> self.start <= at < self.window_end()
    }

    /// The maximal runs of stored bytes, in order.
    pub open spec fn runs(self) -> Seq<Span> {
        runs_of(self.bytes)
    }

    /// One past the highest offset the window can ever take.
    pub open spec fn window_end(self) -> int {
        clamped_sum(self.start, self.byte_cap)
    }

    /// One past the end of the run that starts at the window start.
    pub open spec fn contiguous_to(self) -> int {
        if self.runs().len() > 0 && self.runs()[0].start == self.start {
            self.runs()[0].end as int
        } else {
            self.start
        }
    }

    /// One past the highest stored offset.
    pub open spec fn covered_to(self) -> int {
        if self.runs().len() > 0 {
            self.runs().last().end as int
        } else {
            self.start
        }
    }

    /// The bytes from the window start up to `to`.
    pub open spec fn prefix_to(self, to: int) -> Seq<u8> {
        Seq::new((to - self.start) as nat, |i: int| self.bytes[self.start + i])
    }

    /// How many bytes are stored, counted offset by offset.
    pub open spec fn stored(self) -> nat {
        stored_in(self.bytes, self.start, self.window_end())
    }

    /// How far the window advances when the contiguous prefix is taken up to
    /// `limit`.
    pub open spec fn drained_to(self, limit: int) -> int {
        let end = if self.contiguous_to() < limit {
            self.contiguous_to()
        } else {
            limit
        };
        if end <= self.start {
            self.start
        } else {
            end
        }
    }

    /// What is left once everything below `to` has been taken.
    pub open spec fn advanced(self, to: int) -> Held {
        Held { start: to, bytes: self.bytes.remove_keys(Set::new(|at: int| at < to)), ..self }
    }

    /// The stretch that a write of `len` bytes at `offset` would take.
    pub open spec fn part_of(self, offset: int, len: int) -> (int, int) {
        window_part(self.start, self.window_end(), offset, len)
    }

    /// Whether a write of `len` bytes at `offset` is stored at all: it reaches
    /// into the window, and it merges with something or leaves room for one
    /// more range.
    pub open spec fn takes(self, offset: int, len: int) -> bool {
        let (from, to) = self.part_of(offset, len);
        &&& from < to
        &&& self.runs().len() < self.range_cap || touches(self.runs(), from, to)
    }

    /// How many bytes of a write are refused: those past the window's end, or
    /// all that reach the window where the range cap is met. A write that runs
    /// past the largest offset simply ends there.
    pub open spec fn refused_len(self, offset: int, len: int) -> int {
        let rest = len - before_window_len(self.start, offset, len);
        let (from, to) = self.part_of(offset, len);
        if clamped_sum(offset, len) <= self.start {
            0
        } else if !self.takes(offset, len) {
            rest
        } else if clamped_sum(from, rest) > self.window_end() {
            rest - (to - from)
        } else {
            0
        }
    }

    /// What is held after a write.
    pub open spec fn written(self, offset: int, bytes: Seq<u8>, policy: OverlapPolicy) -> Held {
        if self.takes(offset, bytes.len() as int) {
            let (from, to) = self.part_of(offset, bytes.len() as int);
            Held { bytes: resolved(self.bytes, from, to, offset, bytes, policy), ..self }
        } else {
            self
        }
    }

    /// What a write reports.
    pub open spec fn outcome(self, offset: int, bytes: Seq<u8>, policy: OverlapPolicy) -> WriteOutcome {
        let len = bytes.len() as int;
        let (from, to) = self.part_of(offset, len);
        let (stored, contradicted) = if self.takes(offset, len) {
            (
                stored_in(self.bytes, from, to),
                contradicted_in(self.bytes, from, to, offset, bytes),
            )
        } else {
            (0nat, 0nat)
        };
        WriteOutcome {
            accepted: if self.takes(offset, len) {
                (to - from - stored) as u64
            } else {
                0
            },
            overlapped: stored as u64,
            conflicting: contradicted as u64,
            replaced: if policy == OverlapPolicy::Last {
                contradicted as u64
            } else {
                0
            },
            refused: self.refused_len(offset, len) as u64,
            before_window: before_window_len(self.start, offset, len) as u64,
        }
    }
}

/// A bounded buffer of byte ranges at absolute offsets.
#[derive(Debug)]
pub struct RangeBuffer {
    /// Absolute offset of `data[0]`. Everything below this has been consumed.
    base: u64,
    data: Vec<u8>,
    /// Sorted, disjoint, non-touching absolute ranges that hold real data.
    covered: Vec<Span>,
    byte_limit: usize,
    range_limit: usize,
}

impl View for RangeBuffer {
    type V = Held;

    closed spec fn view(&self) -> Held {
        Held {
            start: self.base as int,
            bytes: Map::new(
                |at: int| covers(self.covered@, at),
                |at: int| self.data@[at - self.base],
            ),
            byte_cap: self.byte_limit as int,
            range_cap: self.range_limit as int,
        }
    }
}

impl RangeBuffer {
    /// The buffer's invariant: the runs are maximal, lie in the window, are
    /// exactly the stored offsets, and both caps are kept.
    pub closed spec fn well_formed(&self) -> bool {
        &&& self.byte_limit >= 1
        &&& self.range_limit >= 1
        &&& are_runs(self.covered@)
        &&& self.covered@.len() <= self.range_limit
        &&& self.data@.len() <= self.byte_limit
        &&& self.base + self.data@.len() <= u64::MAX
        &&& forall|i: int|
            0 <= i < self.covered@.len() ==> self.base <= (#[trigger] self.covered@[i]).start
                && self.covered@[i].end <= self.base + self.data@.len()
    }

    /// The coverage list is the list of maximal runs.
    proof fn lemma_runs(&self)
        requires
            are_runs(self.covered@),
        ensures
            self@.runs() == self.covered@,
    {
        let runs = self@.runs();
        assert(are_runs(self.covered@) && forall|at: int| #[trigger]
            covers(self.covered@, at) <==> self@.bytes.contains_key(at));
        assert forall|at: int| covers(runs, at) == #[trigger] covers(self.covered@, at) by {
            assert(covers(runs, at) <==> self@.bytes.contains_key(at));
        }
        lemma_runs_unique(runs, self.covered@);
    }

    /// What the invariant says of the model.
    pub proof fn lemma_well_formed(&self)
        requires
            self.well_formed(),
        ensures
            0 <= self@.start <= u64::MAX,
            1 <= self@.byte_cap <= usize::MAX,
            1 <= self@.range_cap,
            self@.runs().len() <= self@.range_cap,
            are_runs(self@.runs()),
            forall|at: int| #[trigger] self@.bytes.contains_key(at) <==> covers(self@.runs(), at),
            forall|at: int| #[trigger]
                self@.bytes.contains_key(at) ==> self@.start <= at < self@.window_end(),
            forall|i: int|
                0 <= i < self@.runs().len() ==> self@.start <= (
                #[trigger] self@.runs()[i]).start && self@.runs()[i].end <= self@.window_end(),
    {
        self.lemma_runs();
        assert forall|at: int| #[trigger] self@.bytes.contains_key(at) implies self@.start
            <= at < self@.window_end() by {
            let i = choose|i: int|
                0 <= i < self.covered@.len() && (#[trigger] self.covered@[i]).has(at);
            assert(self.covered@[i].has(at));
        }
    }

    /// The contiguous prefix is stored, the offset after it is not.
    pub proof fn lemma_contiguous(&self)
        requires
            self.well_formed(),
        ensures
            self@.start <= self@.contiguous_to() <= self@.window_end(),
            self@.contiguous_to() <= self@.covered_to() <= self@.window_end(),
            forall|at: int|
                self@.start <= at < self@.contiguous_to()
                    ==> #[trigger] self@.bytes.contains_key(at),
            !self@.bytes.contains_key(self@.contiguous_to()),
            forall|at: int| #[trigger] self@.bytes.contains_key(at) ==> at < self@.covered_to(),
    {
        self.lemma_well_formed();
        self.lemma_runs();
        let spans = self.covered@;
        if spans.len() > 0 {
            assert(spans[0].start < spans[0].end);
            assert(self.base <= spans[0].start);
            assert(spans[spans.len() - 1].end <= self.base + self.data@.len());
            if spans.len() > 1 {
                assert(spans[0].end < spans[spans.len() - 1].start);
                assert(spans[spans.len() - 1].start < spans[spans.len() - 1].end);
            }
        }
        assert forall|at: int|
            self@.start <= at < self@.contiguous_to() implies #[trigger] self@.bytes.contains_key(
            at,
        ) by {
            assert(spans[0].has(at));
        }
        assert(!covers(spans, self@.contiguous_to())) by {
            if covers(spans, self@.contiguous_to()) {
                let i = choose|i: int|
                    0 <= i < spans.len() && (#[trigger] spans[i]).has(self@.contiguous_to());
                if i > 0 {
                    assert(spans[0].end < spans[i].start);
                }
            }
        }
        assert forall|at: int| #[trigger] self@.bytes.contains_key(at) implies at
            < self@.covered_to() by {
            let i = choose|i: int| 0 <= i < spans.len() && (#[trigger] spans[i]).has(at);
            if i < spans.len() - 1 {
                assert(spans[i].end < spans[spans.len() - 1].start);
                assert(spans[spans.len() - 1].start < spans[spans.len() - 1].end);
            }
        }
    }

    /// Create a buffer whose window starts at `base`.
    ///
    /// `byte_limit` caps stored bytes; `range_limit` caps the number of
    /// disjoint covered ranges, which is what stops a flood of scattered
    /// one-byte writes from costing unbounded bookkeeping. Neither cap is
    /// below one.
    pub fn new(base: u64, byte_limit: usize, range_limit: usize) -> (buffer: Self)
        ensures
            buffer.well_formed(),
            buffer@.start == base,
            buffer@.byte_cap == (if byte_limit == 0 { 1 } else { byte_limit as int }),
            buffer@.range_cap == (if range_limit == 0 { 1 } else { range_limit as int }),
            buffer@.runs() == Seq::<Span>::empty(),
            buffer@.bytes == Map::<int, u8>::empty(),
    {
        let buffer = Self {
            base,
            data: Vec::new(),
            covered: Vec::new(),
            byte_limit: if byte_limit == 0 { 1 } else { byte_limit },
            range_limit: if range_limit == 0 { 1 } else { range_limit },
        };
        assert(buffer@.bytes =~= Map::<int, u8>::empty());
        proof {
            buffer.lemma_runs();
        }
        buffer
    }

    /// Absolute offset of the start of the window.
    pub fn base(&self) -> (base: u64)
        ensures
            base == self@.start,
    {
        self.base
    }

    /// Number of disjoint covered ranges — one more than the number of holes.
    pub fn range_count(&self) -> (count: usize)
        requires
            self.well_formed(),
        ensures
            count == self@.runs().len(),
    {
        proof {
            self.lemma_runs();
        }
        self.covered.len()
    }

    /// Whether nothing is buffered.
    pub fn is_empty(&self) -> (empty: bool)
        requires
            self.well_formed(),
        ensures
            empty == (self@.runs().len() == 0),
            empty == (self@.bytes == Map::<int, u8>::empty()),
    {
        proof {
            self.lemma_runs();
            if self.covered@.len() == 0 {
                assert(self@.bytes =~= Map::<int, u8>::empty());
            } else {
                assert(self.covered@[0].has(self.covered@[0].start as int));
                assert(self@.bytes.contains_key(self.covered@[0].start as int));
            }
        }
        self.covered.len() == 0
    }

    /// The end of the contiguous run starting at [`RangeBuffer::base`].
    ///
    /// Equal to `base` when the very next byte is missing.
    pub fn contiguous_end(&self) -> (end: u64)
        requires
            self.well_formed(),
        ensures
            end == self@.contiguous_to(),
            self@.start <= end,
    {
        proof {
            self.lemma_contiguous();
            self.lemma_runs();
        }
        if self.covered.len() > 0 && self.covered[0].start == self.base {
            self.covered[0].end
        } else {
            self.base
        }
    }

    /// Highest offset any stored byte reaches.
    pub fn covered_end(&self) -> (end: u64)
        requires
            self.well_formed(),
        ensures
            end == self@.covered_to(),
    {
        proof {
            self.lemma_runs();
        }
        let count: usize = self.covered.len();
        if count > 0 {
            self.covered[count - 1].end
        } else {
            self.base
        }
    }

    /// Insert `[start, end)` into the coverage list, merging neighbours.
    fn mark_covered(&mut self, start: u64, end: u64)
        requires
            start < end,
            are_runs(old(self).covered@),
        ensures
            final(self).base == old(self).base,
            final(self).data == old(self).data,
            final(self).byte_limit == old(self).byte_limit,
            final(self).range_limit == old(self).range_limit,
            are_runs(final(self).covered@),
            forall|at: int| #[trigger]
                covers(final(self).covered@, at) <==> covers(old(self).covered@, at) || start <= at
                    < end,
            final(self).covered@.len() <= old(self).covered@.len() + 1,
            touches(old(self).covered@, start as int, end as int) ==> final(self).covered@.len()
                <= old(self).covered@.len(),
            forall|lo: int, hi: int|
                #![trigger spans_within(old(self).covered@, lo, hi)]
                spans_within(old(self).covered@, lo, hi) && lo <= start && end <= hi
                    ==> spans_within(final(self).covered@, lo, hi),
    {
        let ghost spans = self.covered@;
        let mut merged = Span { start, end };
        let mut out: Vec<Span> = Vec::new();
        let mut inserted: bool = false;
        let ghost mut absorbed: int = 0;
        let mut i: usize = 0;
        while i < self.covered.len()
            invariant
                self.covered@ == spans,
                self.base == old(self).base,
                self.data == old(self).data,
                self.byte_limit == old(self).byte_limit,
                self.range_limit == old(self).range_limit,
                are_runs(spans),
                i <= spans.len(),
                merged.start <= start < end <= merged.end,
                are_runs(out@),
                absorbed >= 0,
                out@.len() + (if inserted { 0int } else { 1int }) + absorbed == i + 1,
                !inserted ==> forall|j: int|
                    0 <= j < out@.len() ==> (#[trigger] out@[j]).end < merged.start,
                i < spans.len() ==> forall|j: int|
                    0 <= j < out@.len() ==> (#[trigger] out@[j]).end < spans[i as int].start,
                inserted ==> forall|k: int|
                    i <= k < spans.len() ==> (#[trigger] spans[k]).start > merged.end,
                forall|k: int|
                    0 <= k < i && (#[trigger] spans[k]).end >= start && spans[k].start <= end
                        ==> absorbed >= 1,
                forall|at: int|
                    (covers(out@, at) || (!inserted && merged.has(at))) <==> (#[trigger] covers(
                        spans.take(i as int),
                        at,
                    ) || start <= at < end),
                forall|lo: int, hi: int|
                    #![trigger spans_within(spans, lo, hi)]
                    spans_within(spans, lo, hi) && lo <= start && end <= hi ==> lo <= merged.start
                        && merged.end <= hi && spans_within(out@, lo, hi),
            decreases spans.len() - i,
        {
            let range = self.covered[i];
            let ghost before = out@;
            let ghost merged_before = merged;
            let ghost was_inserted = inserted;
            assert(spans[i as int] == range);
            assert(spans.take(i + 1) =~= spans.take(i as int).push(range));
            if range.end < merged.start {
                out.push(range);
            } else if range.start > merged.end {
                if !inserted {
                    out.push(merged);
                    inserted = true;
                }
                out.push(range);
            } else {
                // Touching or overlapping: absorb.
                if range.start < merged.start {
                    merged.start = range.start;
                }
                if range.end > merged.end {
                    merged.end = range.end;
                }
                proof {
                    absorbed = absorbed + 1;
                }
            }
            assert forall|at: int|
                (covers(out@, at) || (!inserted && merged.has(at))) <==> (#[trigger] covers(
                    spans.take(i + 1),
                    at,
                ) || start <= at < end) by {
                lemma_covers_push(spans.take(i as int), range, at);
                assert(covers(spans.take(i as int), at) || start <= at < end <==> covers(before, at)
                    || (!was_inserted && merged_before.has(at)));
                if out@.len() == before.len() + 1 {
                    lemma_covers_push(before, out@.last(), at);
                    assert(out@ =~= before.push(out@.last()));
                } else if out@.len() == before.len() + 2 {
                    lemma_covers_push(before, merged, at);
                    lemma_covers_push(before.push(merged), range, at);
                    assert(out@ =~= before.push(merged).push(range));
                } else {
                    assert(out@ == before);
                }
            }
            assert forall|lo: int, hi: int|
                #![trigger spans_within(spans, lo, hi)]
                spans_within(spans, lo, hi) && lo <= start && end <= hi implies lo <= merged.start
                && merged.end <= hi && spans_within(out@, lo, hi) by {
                assert(lo <= spans[i as int].start && spans[i as int].end <= hi);
            }
            i = i + 1;
        }
        let ghost before = out@;
        if !inserted {
            out.push(merged);
        }
        proof {
            assert(spans.take(i as int) =~= spans);
            assert forall|at: int| #[trigger]
                covers(out@, at) <==> covers(spans, at) || start <= at < end by {
                assert(covers(spans.take(i as int), at) <==> covers(spans, at));
                lemma_covers_push(before, merged, at);
                if !inserted {
                    assert(out@ =~= before.push(merged));
                }
            }
        }
        self.covered = out;
    }
}

/// Whether every stretch lies in `[lo, hi)`.
pub open spec fn spans_within(spans: Seq<Span>, lo: int, hi: int) -> bool {
    forall|i: int|
        0 <= i < spans.len() ==> lo <= (#[trigger] spans[i]).start && spans[i].end <= hi
}

proof fn lemma_covers_push(spans: Seq<Span>, span: Span, at: int)
    ensures
        covers(spans.push(span), at) <==> covers(spans, at) || span.has(at),
{
    let longer = spans.push(span);
    if covers(spans, at) {
        let i = choose|i: int| 0 <= i < spans.len() && (#[trigger] spans[i]).has(at);
        assert(longer[i].has(at));
    }
    if span.has(at) {
        assert(longer[spans.len() as int].has(at));
    }
}

impl RangeBuffer {
    /// Copy `[from, to)` of the write into the buffer.
    fn copy_in(&mut self, from: u64, to: u64, write_offset: u64, bytes: &[u8])
        requires
            old(self).base <= from <= to,
            to - old(self).base <= old(self).data@.len(),
            write_offset <= from,
            to - write_offset <= bytes@.len(),
        ensures
            final(self).base == old(self).base,
            final(self).covered == old(self).covered,
            final(self).byte_limit == old(self).byte_limit,
            final(self).range_limit == old(self).range_limit,
            final(self).data@.len() == old(self).data@.len(),
            forall|i: int|
                0 <= i < final(self).data@.len() ==> #[trigger] final(self).data@[i] == (if from <= old(
                    self,
                ).base + i < to {
                    incoming(write_offset as int, bytes@, old(self).base + i)
                } else {
                    old(self).data@[i]
                }),
    {
        let mut at: u64 = from;
        while at < to
            invariant
                self.base == old(self).base,
                self.covered == old(self).covered,
                self.byte_limit == old(self).byte_limit,
                self.range_limit == old(self).range_limit,
                self.data@.len() == old(self).data@.len(),
                self.base <= from <= at <= to,
                to - self.base <= self.data@.len(),
                write_offset <= from,
                to - write_offset <= bytes@.len(),
                forall|i: int|
                    0 <= i < self.data@.len() ==> #[trigger] self.data@[i] == (if from <= self.base
                        + i < at {
                        incoming(write_offset as int, bytes@, self.base + i)
                    } else {
                        old(self).data@[i]
                    }),
            decreases to - at,
        {
            assert(self.data@.len() == self.data.len() && bytes@.len() == bytes.len());
            let target: usize = (at - self.base) as usize;
            let source: usize = (at - write_offset) as usize;
            self.data[target] = bytes[source];
            at = at + 1;
        }
    }

    /// How many bytes of `[from, to)` differ between the buffer and the write.
    fn count_differing(&self, from: u64, to: u64, write_offset: u64, bytes: &[u8]) -> (differing:
        u64)
        requires
            self.base <= from <= to,
            to - self.base <= self.data@.len(),
            write_offset <= from,
            to - write_offset <= bytes@.len(),
        ensures
            differing == count_in(
                from as int,
                to as int,
                |at: int|
                    self.data@[at - self.base] != incoming(write_offset as int, bytes@, at),
            ),
            differing <= to - from,
    {
        let ghost differs = |at: int|
            self.data@[at - self.base] != incoming(write_offset as int, bytes@, at);
        let mut differing: u64 = 0;
        let mut at: u64 = from;
        while at < to
            invariant
                self.base <= from <= at <= to,
                to - self.base <= self.data@.len(),
                write_offset <= from,
                to - write_offset <= bytes@.len(),
                differs == (|at: int|
                    self.data@[at - self.base] != incoming(write_offset as int, bytes@, at)),
                differing == count_in(from as int, at as int, differs),
                differing <= at - from,
            decreases to - at,
        {
            assert(self.data@.len() == self.data.len() && bytes@.len() == bytes.len());
            let target: usize = (at - self.base) as usize;
            let source: usize = (at - write_offset) as usize;
            if self.data[target] != bytes[source] {
                differing = differing + 1;
            }
            at = at + 1;
        }
        differing
    }

    /// Whether `[start, end)` touches or overlaps any covered range.
    fn touches_existing(&self, start: u64, end: u64) -> (touching: bool)
        ensures
            touching == touches(self.covered@, start as int, end as int),
    {
        let mut i: usize = 0;
        while i < self.covered.len()
            invariant
                i <= self.covered@.len(),
                forall|k: int|
                    0 <= k < i ==> !((#[trigger] self.covered@[k]).end >= start
                        && self.covered@[k].start <= end),
            decreases self.covered@.len() - i,
        {
            let range = self.covered[i];
            if range.end >= start && range.start <= end {
                assert(self.covered@[i as int].end >= start);
                return true;
            }
            i = i + 1;
        }
        false
    }

    /// Take the part `[from, to)` of a write, resolving overlaps by `policy`.
    fn resolve(&mut self, from: u64, to: u64, offset: u64, bytes: &[u8], policy: OverlapPolicy) -> (outcome:
        WriteOutcome)
        requires
            old(self).well_formed(),
            old(self).base <= from < to,
            to - old(self).base <= old(self).byte_limit,
            offset <= from,
            to - offset <= bytes@.len(),
            old(self).covered@.len() < old(self).range_limit || touches(
                old(self).covered@,
                from as int,
                to as int,
            ),
        ensures
            final(self).well_formed(),
            final(self)@.start == old(self)@.start,
            final(self)@.byte_cap == old(self)@.byte_cap,
            final(self)@.range_cap == old(self)@.range_cap,
            final(self)@.bytes == resolved(
                old(self)@.bytes,
                from as int,
                to as int,
                offset as int,
                bytes@,
                policy,
            ),
            outcome.accepted == to - from - stored_in(old(self)@.bytes, from as int, to as int),
            outcome.overlapped == stored_in(old(self)@.bytes, from as int, to as int),
            outcome.conflicting == contradicted_in(
                old(self)@.bytes,
                from as int,
                to as int,
                offset as int,
                bytes@,
            ),
            outcome.replaced == (if policy == OverlapPolicy::Last {
                outcome.conflicting
            } else {
                0
            }),
            outcome.refused == 0,
            outcome.before_window == 0,
    {
        let mut outcome = WriteOutcome::default();
        let ghost before = *self;
        let ghost held = self@.bytes;
        let ghost spans = self.covered@;
        let needed: usize = (to - self.base) as usize;
        if self.data.len() < needed {
            self.data.resize(needed, 0);
        }
        let ghost start_data = self.data@;
        assert(forall|i: int|
            0 <= i < before.data@.len() ==> #[trigger] start_data[i] == before.data@[i]);
        let ghost stored = |at: int| held.contains_key(at);
        let ghost contradicted = |at: int|
            held.contains_key(at) && held[at] != incoming(offset as int, bytes@, at);
        let ghost after = resolved(held, from as int, to as int, offset as int, bytes@, policy);

        // Walk the write range, alternating between covered and uncovered
        // stretches, so policy is applied exactly where data already exists.
        let mut cursor: u64 = from;
        let mut i: usize = 0;
        while i < self.covered.len() && self.covered[i].start < to
            invariant
                before.well_formed(),
                held == before@.bytes,
                spans == before.covered@,
                self.covered@ == spans,
                self.base == before.base,
                self.byte_limit == before.byte_limit,
                self.range_limit == before.range_limit,
                i <= spans.len(),
                self.base <= from <= cursor <= to,
                offset <= from,
                to - offset <= bytes@.len(),
                to - self.base <= start_data.len(),
                before.data@.len() <= start_data.len(),
                self.data@.len() == start_data.len(),
                forall|k: int|
                    0 <= k < before.data@.len() ==> #[trigger] start_data[k] == before.data@[k],
                cursor < to ==> forall|k: int|
                    0 <= k < i ==> (#[trigger] spans[k]).end <= cursor,
                after == resolved(held, from as int, to as int, offset as int, bytes@, policy),
                forall|k: int|
                    0 <= k < start_data.len() ==> #[trigger] self.data@[k] == (if from <= self.base
                        + k < cursor {
                        after[self.base + k]
                    } else {
                        start_data[k]
                    }),
                stored == (|at: int| held.contains_key(at)),
                contradicted == (|at: int|
                    held.contains_key(at) && held[at] != incoming(offset as int, bytes@, at)),
                outcome.overlapped == count_in(from as int, cursor as int, stored),
                outcome.accepted == cursor - from - outcome.overlapped,
                outcome.conflicting == count_in(from as int, cursor as int, contradicted),
                outcome.conflicting <= outcome.overlapped <= cursor - from,
                outcome.replaced == (if policy == OverlapPolicy::Last {
                    outcome.conflicting
                } else {
                    0
                }),
                outcome.before_window == 0,
                outcome.refused == 0,
            decreases spans.len() - i,
        {
            let existing = self.covered[i];
            assert(existing == spans[i as int]);
            if existing.end > cursor {
                // Uncovered gap before this range.
                if cursor < existing.start {
                    let gap_end: u64 = existing.start;
                    proof {
                        lemma_gap(spans, i as int, cursor as int, gap_end as int);
                        lemma_count_split(from as int, cursor as int, gap_end as int, stored);
                        lemma_count_split(from as int, cursor as int, gap_end as int, contradicted);
                        lemma_count_none(cursor as int, gap_end as int, stored);
                        lemma_count_none(cursor as int, gap_end as int, contradicted);
                    }
                    self.copy_in(cursor, gap_end, offset, bytes);
                    outcome.accepted = outcome.accepted + (gap_end - cursor);
                    cursor = gap_end;
                }

                // Overlapping stretch.
                let overlap_end: u64 = if existing.end < to {
                    existing.end
                } else {
                    to
                };
                if cursor < overlap_end {
                    let differing: u64 = self.count_differing(cursor, overlap_end, offset, bytes);
                    proof {
                        assert forall|at: int| cursor <= at < overlap_end implies #[trigger] covers(
                            spans,
                            at,
                        ) by {
                            assert(spans[i as int].has(at));
                        }
                        lemma_count_split(from as int, cursor as int, overlap_end as int, stored);
                        lemma_count_split(
                            from as int,
                            cursor as int,
                            overlap_end as int,
                            contradicted,
                        );
                        lemma_count_all(cursor as int, overlap_end as int, stored);
                        let differs = |at: int|
                            self.data@[at - self.base] != incoming(offset as int, bytes@, at);
                        assert forall|at: int| cursor <= at < overlap_end implies #[trigger] differs(
                            at,
                        ) == contradicted(at) by {
                            assert(covers(spans, at));
                            let k = at - self.base;
                            assert(self.data@[k] == start_data[k]);
                            assert(spans[i as int].end <= before.base + before.data@.len());
                            assert(start_data[k] == before.data@[k]);
                            assert(held[at] == before.data@[k]);
                        }
                        lemma_count_same(
                            cursor as int,
                            overlap_end as int,
                            differs,
                            contradicted,
                        );
                    }
                    outcome.overlapped = outcome.overlapped + (overlap_end - cursor);
                    outcome.conflicting = outcome.conflicting + differing;
                    if policy == OverlapPolicy::Last {
                        self.copy_in(cursor, overlap_end, offset, bytes);
                        outcome.replaced = outcome.replaced + differing;
                    } else {
                        assert forall|k: int| cursor <= self.base + k < overlap_end implies #[trigger] self.data@[k]
                            == after[self.base + k] by {
                            assert(spans[i as int].has(self.base + k));
                            assert(covers(spans, self.base + k));
                        }
                    }
                    cursor = overlap_end;
                }
            }
            i = i + 1;
        }
        if cursor < to {
            proof {
                assert forall|at: int| cursor <= at < to implies !#[trigger] covers(spans, at) by {
                    if covers(spans, at) {
                        let k = choose|k: int| 0 <= k < spans.len() && (#[trigger] spans[k]).has(at);
                        if k > i {
                            assert(spans[i as int].end < spans[k].start);
                        }
                    }
                }
                lemma_count_split(from as int, cursor as int, to as int, stored);
                lemma_count_split(from as int, cursor as int, to as int, contradicted);
                lemma_count_none(cursor as int, to as int, stored);
                lemma_count_none(cursor as int, to as int, contradicted);
            }
            self.copy_in(cursor, to, offset, bytes);
            outcome.accepted = outcome.accepted + (to - cursor);
        }
        let ghost end_data = self.data@;
        assert(forall|k: int|
            0 <= k < start_data.len() ==> #[trigger] end_data[k] == (if from <= self.base + k < to {
                after[self.base + k]
            } else {
                start_data[k]
            }));
        assert(spans_within(spans, self.base as int, self.base + start_data.len()));
        self.mark_covered(from, to);
        assert(spans_within(self.covered@, self.base as int, self.base + start_data.len()));
        assert(self@.bytes =~= after) by {
            assert forall|at: int| #[trigger] self@.bytes.contains_key(at) implies self@.bytes[at]
                == after[at] by {
                assert(covers(self.covered@, at));
                let k = at - self.base;
                assert(self.base <= at < self.base + start_data.len()) by {
                    let j = choose|j: int|
                        0 <= j < self.covered@.len() && (#[trigger] self.covered@[j]).has(at);
                }
                assert(self.data@[k] == end_data[k]);
                if !(from <= at < to) {
                    assert(covers(spans, at));
                    let j = choose|j: int| 0 <= j < spans.len() && (#[trigger] spans[j]).has(at);
                    assert(spans[j].end <= before.base + before.data@.len());
                    assert(start_data[k] == before.data@[k]);
                }
            }
        }
        outcome
    }

    /// Write `bytes` at absolute `offset`, resolving overlaps by `policy`.
    pub fn write(&mut self, offset: u64, bytes: &[u8], policy: OverlapPolicy) -> (outcome:
        WriteOutcome)
        requires
            old(self).well_formed(),
        ensures
            final(self).well_formed(),
            final(self)@ == old(self)@.written(offset as int, bytes@, policy),
            outcome == old(self)@.outcome(offset as int, bytes@, policy),
    {
        proof {
            self.lemma_runs();
        }
        assert(bytes@.len() == bytes.len());
        let mut outcome = WriteOutcome::default();
        let len: u64 = bytes.len() as u64;
        if len == 0 {
            return outcome;
        }
        let write_end: u64 = offset.saturating_add(len);

        // Entirely behind the window: these bytes have already been delivered
        // and cannot be revised. Counted, not stored.
        if write_end <= self.base {
            outcome.before_window = len;
            return outcome;
        }

        // Partially behind: leave out the consumed prefix.
        let from: u64 = if offset < self.base {
            self.base
        } else {
            offset
        };
        outcome.before_window = from - offset;
        let rest: u64 = len - (from - offset);

        // Past the byte cap: refuse the tail rather than growing. Saturating
        // throughout: the offset comes off the wire, so a sequence number near
        // the top of the range must clamp rather than wrap into a small number
        // and land somewhere it was never addressed to.
        let window_end: u64 = self.base.saturating_add(self.byte_limit as u64);
        if from >= window_end {
            outcome.refused = rest;
            return outcome;
        }
        let rest_end: u64 = from.saturating_add(rest);
        let to: u64 = if rest_end > window_end {
            outcome.refused = rest - (window_end - from);
            window_end
        } else {
            rest_end
        };

        // Range cap: a write that cannot merge with anything would add a new
        // descriptor. Refuse it rather than track unbounded holes.
        if self.covered.len() >= self.range_limit && !self.touches_existing(from, to) {
            outcome.refused = rest;
            return outcome;
        }
        let stored = self.resolve(from, to, offset, bytes, policy);
        outcome.accepted = stored.accepted;
        outcome.overlapped = stored.overlapped;
        outcome.conflicting = stored.conflicting;
        outcome.replaced = stored.replaced;
        outcome
    }
}

proof fn lemma_gap(spans: Seq<Span>, i: int, cursor: int, gap_end: int)
    requires
        are_runs(spans),
        0 <= i < spans.len(),
        gap_end <= spans[i].start,
        forall|k: int| 0 <= k < i ==> (#[trigger] spans[k]).end <= cursor,
    ensures
        forall|at: int| cursor <= at < gap_end ==> !#[trigger] covers(spans, at),
{
    assert forall|at: int| cursor <= at < gap_end implies !#[trigger] covers(spans, at) by {
        if covers(spans, at) {
            let k = choose|k: int| 0 <= k < spans.len() && (#[trigger] spans[k]).has(at);
            if k > i {
                assert(spans[i].end < spans[k].start);
            }
        }
    }
}

impl RangeBuffer {
    /// The stored bytes never exceed the byte cap.
    pub proof fn lemma_stored_bound(&self)
        requires
            self.well_formed(),
        ensures
            self@.stored() == total_len(self@.runs()),
            self@.stored() <= self@.byte_cap,
    {
        self.lemma_runs();
        let lo = self.base as int;
        let hi = self@.window_end();
        let held = |at: int| self@.bytes.contains_key(at);
        let covering = |at: int| covers(self.covered@, at);
        assert(spans_within(self.covered@, lo, hi));
        lemma_total_is_count(self.covered@, lo, hi);
        assert forall|at: int| lo <= at < hi implies #[trigger] covering(at) == held(at) by {}
        lemma_count_same(lo, hi, covering, held);
        lemma_count_le(lo, hi, held, held);
    }

    /// Bytes currently held.
    pub fn buffered_bytes(&self) -> (held: usize)
        requires
            self.well_formed(),
        ensures
            held == self@.stored(),
            held <= self@.byte_cap,
    {
        proof {
            self.lemma_stored_bound();
            self.lemma_runs();
        }
        let mut total: usize = 0;
        let mut i: usize = 0;
        while i < self.covered.len()
            invariant
                self.well_formed(),
                i <= self.covered@.len(),
                total == total_len(self.covered@.take(i as int)),
                total_len(self.covered@) <= usize::MAX,
            decreases self.covered@.len() - i,
        {
            let range = self.covered[i];
            proof {
                assert(self.covered@.take(i + 1).drop_last() =~= self.covered@.take(i as int));
                assert(self.covered@.take(i + 1).last() == range);
                lemma_total_take(self.covered@, i + 1);
            }
            total = total + (range.end - range.start) as usize;
            i = i + 1;
        }
        assert(self.covered@.take(i as int) =~= self.covered@);
        total
    }

    /// Move the contiguous prefix, up to `limit`, into `out`.
    ///
    /// Returns how many bytes moved. The window advances past them, so they can
    /// never be revised afterwards — which is exactly why the caller decides
    /// *when* data is settled enough to take.
    pub fn drain_contiguous_upto(&mut self, limit: u64, out: &mut Vec<u8>) -> (moved: usize)
        requires
            old(self).well_formed(),
        ensures
            final(self).well_formed(),
            final(self)@ == old(self)@.advanced(old(self)@.drained_to(limit as int)),
            final(out)@ == old(out)@ + old(self)@.prefix_to(old(self)@.drained_to(limit as int)),
            moved == old(self)@.drained_to(limit as int) - old(self)@.start,
    {
        let contiguous: u64 = self.contiguous_end();
        let end: u64 = if contiguous < limit {
            contiguous
        } else {
            limit
        };
        proof {
            self.lemma_contiguous();
            self.lemma_well_formed();
            self.lemma_runs();
        }
        if end <= self.base {
            proof {
                assert(self@.prefix_to(self@.start) =~= Seq::<u8>::empty());
                assert(out@ + self@.prefix_to(self@.start) =~= out@);
                assert(self@.bytes =~= self@.advanced(self@.start).bytes);
            }
            return 0;
        }
        assert(self.covered@[0].end <= self.base + self.data@.len());
        assert(self.data@.len() == self.data.len());
        let count: usize = (end - self.base) as usize;
        let prefix = slice_subrange(self.data.as_slice(), 0, count);
        let ghost expected = self@.prefix_to(end as int);
        assert(prefix@ =~= expected) by {
            assert forall|i: int| 0 <= i < count implies #[trigger] prefix@[i] == expected[i] by {
                assert(self@.bytes.contains_key(self.base + i));
            }
        }
        out.extend_from_slice(prefix);
        assert(out@ =~= old(out)@ + expected);
        self.consume(count);
        count
    }

    /// Move the whole contiguous prefix into `out`.
    pub fn drain_contiguous(&mut self, out: &mut Vec<u8>) -> (moved: usize)
        requires
            old(self).well_formed(),
        ensures
            final(self).well_formed(),
            final(self)@ == old(self)@.advanced(old(self)@.contiguous_to()),
            final(out)@ == old(out)@ + old(self)@.prefix_to(old(self)@.contiguous_to()),
            moved == old(self)@.contiguous_to() - old(self)@.start,
    {
        proof {
            self.lemma_contiguous();
            self.lemma_well_formed();
        }
        self.drain_contiguous_upto(u64::MAX, out)
    }

    /// Drop `count` bytes from the front of the window.
    fn consume(&mut self, count: usize)
        requires
            old(self).well_formed(),
            count <= old(self).data@.len(),
        ensures
            final(self).well_formed(),
            final(self)@ == old(self)@.advanced(old(self)@.start + count),
    {
        let ghost before = *self;
        let ghost spans = self.covered@;
        let rest = self.data.split_off(count);
        self.data = rest;
        let base: u64 = self.base + count as u64;
        self.base = base;
        let mut kept: Vec<Span> = Vec::new();
        let mut i: usize = 0;
        while i < self.covered.len()
            invariant
                before.well_formed(),
                spans == before.covered@,
                self.covered@ == spans,
                self.base == base == before.base + count,
                count <= before.data@.len(),
                self.data@ == before.data@.subrange(count as int, before.data@.len() as int),
                self.byte_limit == before.byte_limit,
                self.range_limit == before.range_limit,
                i <= spans.len(),
                are_runs(kept@),
                kept@.len() <= i,
                spans_within(kept@, base as int, base + self.data@.len()),
                i < spans.len() ==> forall|j: int|
                    0 <= j < kept@.len() ==> (#[trigger] kept@[j]).end < spans[i as int].start,
                forall|at: int| #[trigger]
                    covers(kept@, at) <==> covers(spans.take(i as int), at) && at >= base,
            decreases spans.len() - i,
        {
            let range = self.covered[i];
            let ghost so_far = kept@;
            assert(spans[i as int] == range);
            assert(spans.take(i + 1) =~= spans.take(i as int).push(range));
            assert(spans.take(i + 1).drop_last() =~= spans.take(i as int));
            if range.end > base {
                let start: u64 = if range.start < base {
                    base
                } else {
                    range.start
                };
                kept.push(Span { start, end: range.end });
            }
            assert forall|at: int| #[trigger] covers(kept@, at) <==> covers(spans.take(i + 1), at)
                && at >= base by {
                lemma_covers_push(spans.take(i as int), range, at);
                assert(covers(so_far, at) <==> covers(spans.take(i as int), at) && at >= base);
                if range.end > base {
                    assert(kept@ =~= so_far.push(kept@.last()));
                    lemma_covers_push(so_far, kept@.last(), at);
                }
            }
            i = i + 1;
        }
        self.covered = kept;
        proof {
            assert(spans.take(i as int) =~= spans);
            let gone = before@.bytes.remove_keys(Set::new(|at: int| at < base));
            assert forall|at: int| self@.bytes.contains_key(at) == gone.contains_key(at) by {
                assert(covers(self.covered@, at) <==> covers(spans, at) && at >= base);
            }
            assert forall|at: int| #[trigger] self@.bytes.contains_key(at) implies self@.bytes[at]
                == gone[at] by {
                assert(covers(self.covered@, at));
                let j = choose|j: int|
                    0 <= j < self.covered@.len() && (#[trigger] self.covered@[j]).has(at);
                assert(self.covered@[j].end <= base + self.data@.len());
            }
            assert(self@.bytes =~= gone);
        }
    }

    /// Discard everything and restart the window at `base`.
    pub fn reset(&mut self, base: u64)
        requires
            old(self).well_formed(),
        ensures
            final(self).well_formed(),
            final(self)@ == (Held { start: base as int, bytes: Map::empty(), ..old(self)@ }),
    {
        self.data.clear();
        self.covered.clear();
        self.base = base;
        assert(self@.bytes =~= Map::<int, u8>::empty());
    }

    /// A view of the contiguous prefix without consuming it.
    pub fn peek_contiguous(&self) -> (prefix: &[u8])
        requires
            self.well_formed(),
        ensures
            prefix@ == self@.prefix_to(self@.contiguous_to()),
    {
        proof {
            self.lemma_contiguous();
            self.lemma_well_formed();
            self.lemma_runs();
        }
        let end: u64 = self.contiguous_end();
        assert(end == self.base || self.covered@[0].end <= self.base + self.data@.len());
        assert(self.data@.len() == self.data.len());
        let count: usize = (end - self.base) as usize;
        let prefix = slice_subrange(self.data.as_slice(), 0, count);
        let ghost expected = self@.prefix_to(end as int);
        assert(prefix@ =~= expected) by {
            assert forall|i: int| 0 <= i < count implies #[trigger] prefix@[i] == expected[i] by {
                assert(self@.bytes.contains_key(self.base + i));
            }
        }
        prefix
    }
}

proof fn lemma_total_take(spans: Seq<Span>, k: int)
    requires
        are_runs(spans),
        0 <= k <= spans.len(),
    ensures
        0 <= total_len(spans.take(k)) <= total_len(spans),
    decreases spans.len(),
{
    if spans.len() == 0 {
        assert(spans.take(k) =~= spans);
    } else {
        let init = spans.drop_last();
        let n = spans.len() - 1;
        assert(spans[n].start < spans[n].end);
        assert forall|i: int| 0 <= i < init.len() implies (#[trigger] init[i]).start
            < init[i].end by {
            assert(spans[i].start < spans[i].end);
        }
        assert forall|i: int, j: int| 0 <= i < j < init.len() implies (#[trigger] init[i]).end < (
        #[trigger] init[j]).start by {
            assert(spans[i].end < spans[j].start);
        }
        if k == spans.len() {
            assert(spans.take(k) =~= spans);
            lemma_total_take(init, n);
            assert(init.take(n) =~= init);
        } else {
            lemma_total_take(init, k);
            assert(init.take(k) =~= spans.take(k));
        }
    }
}

proof fn lemma_total_is_count(spans: Seq<Span>, lo: int, hi: int)
    requires
        are_runs(spans),
        spans_within(spans, lo, hi),
        lo <= hi,
    ensures
        total_len(spans) == count_in(lo, hi, |at: int| covers(spans, at)),
    decreases spans.len(),
{
    let covering = |at: int| covers(spans, at);
    if spans.len() == 0 {
        lemma_count_none(lo, hi, covering);
    } else {
        let init = spans.drop_last();
        let n = spans.len() - 1;
        let last = spans[n];
        let covering_init = |at: int| covers(init, at);
        assert(lo <= last.start < last.end <= hi);
        assert forall|i: int| 0 <= i < init.len() implies (#[trigger] init[i]).start < init[i].end
            && lo <= init[i].start && init[i].end <= last.start by {
            assert(spans[i].start < spans[i].end);
            assert(spans[i].end < spans[n].start);
        }
        assert forall|i: int, j: int| 0 <= i < j < init.len() implies (#[trigger] init[i]).end < (
        #[trigger] init[j]).start by {
            assert(spans[i].end < spans[j].start);
        }
        lemma_total_is_count(init, lo, last.start as int);
        lemma_count_split(lo, last.start as int, hi, covering);
        lemma_count_split(last.start as int, last.end as int, hi, covering);
        assert(spans =~= init.push(last));
        assert forall|at: int| lo <= at < last.start implies #[trigger] covering(at)
            == covering_init(at) by {
            lemma_covers_push(init, last, at);
        }
        lemma_count_same(lo, last.start as int, covering, covering_init);
        assert forall|at: int| last.start <= at < last.end implies #[trigger] covering(at) by {
            assert(spans[n].has(at));
        }
        lemma_count_all(last.start as int, last.end as int, covering);
        assert forall|at: int| last.end <= at < hi implies !#[trigger] covering(at) by {
            lemma_covers_push(init, last, at);
            if covers(init, at) {
                let i = choose|i: int| 0 <= i < init.len() && (#[trigger] init[i]).has(at);
                assert(init[i].end <= last.start);
            }
        }
        lemma_count_none(last.end as int, hi, covering);
    }
}

/// Every byte of a write is accounted for exactly once: it lay before the
/// window, it was refused, or it was taken. Holds of every write that ends at
/// or before the largest offset; what a longer one has beyond that is dropped
/// without a count.
pub proof fn law_every_byte_is_accounted_for(buffer: RangeBuffer, offset: int, len: int)
    requires
        buffer.well_formed(),
        0 <= offset,
        0 <= len,
        offset + len <= u64::MAX,
    ensures
        ({
            let (from, to) = buffer@.part_of(offset, len);
            let taken = if buffer@.takes(offset, len) {
                to - from
            } else {
                0
            };
            before_window_len(buffer@.start, offset, len) + buffer@.refused_len(offset, len)
                + taken == len
        }),
{
    buffer.lemma_well_formed();
}

/// Under [`OverlapPolicy::First`] no write changes a byte that is held, and
/// under [`OverlapPolicy::Last`] every byte of the taken stretch is the write's.
pub proof fn law_policy_decides_overlaps(
    held: Map<int, u8>,
    from: int,
    to: int,
    offset: int,
    bytes: Seq<u8>,
)
    ensures
        forall|at: int|
            held.contains_key(at) ==> #[trigger] resolved(
                held,
                from,
                to,
                offset,
                bytes,
                OverlapPolicy::First,
            )[at] == held[at],
        forall|at: int|
            from <= at < to ==> #[trigger] resolved(
                held,
                from,
                to,
                offset,
                bytes,
                OverlapPolicy::Last,
            )[at] == incoming(offset, bytes, at),
{
}

/// Two writes that agree wherever both reach leave the same bytes in either
/// order, under either policy.
pub proof fn law_agreeing_writes_commute(
    held: Map<int, u8>,
    first: (int, int, int, Seq<u8>),
    second: (int, int, int, Seq<u8>),
    policy: OverlapPolicy,
)
    requires
        forall|at: int|
            first.0 <= at < first.1 && second.0 <= at < second.1 ==> #[trigger] incoming(
                first.2,
                first.3,
                at,
            ) == incoming(second.2, second.3, at),
    ensures
        resolved(
            resolved(held, first.0, first.1, first.2, first.3, policy),
            second.0,
            second.1,
            second.2,
            second.3,
            policy,
        ) == resolved(
            resolved(held, second.0, second.1, second.2, second.3, policy),
            first.0,
            first.1,
            first.2,
            first.3,
            policy,
        ),
{
    let one = resolved(held, first.0, first.1, first.2, first.3, policy);
    let other = resolved(held, second.0, second.1, second.2, second.3, policy);
    let left = resolved(one, second.0, second.1, second.2, second.3, policy);
    let right = resolved(other, first.0, first.1, first.2, first.3, policy);
    assert forall|at: int| left.contains_key(at) implies left[at] == right[at] by {
        if first.0 <= at < first.1 && second.0 <= at < second.1 {
            assert(incoming(first.2, first.3, at) == incoming(second.2, second.3, at));
        }
    }
    assert(left =~= right);
}

/// Whether whatever is stored is what a message has there. The message's first byte
/// stands at offset zero.
pub open spec fn holds_part_of(bytes: Map<int, u8>, message: Seq<u8>) -> bool {
    forall|at: int| #[trigger]
        bytes.contains_key(at) ==> 0 <= at < message.len() && bytes[at] == message[at]
}

/// A piece of a message, written where it belongs, leaves a buffer that holds
/// parts of the message holding parts of it, whatever arrived before and whatever
/// the policy, and contradicts nothing.
pub proof fn law_pieces_of_a_message_fit(
    held: Held,
    message: Seq<u8>,
    offset: int,
    len: int,
    policy: OverlapPolicy,
)
    requires
        holds_part_of(held.bytes, message),
        0 <= offset,
        0 <= len,
        offset + len <= message.len(),
    ensures
        holds_part_of(
            held.written(offset, message.subrange(offset, offset + len), policy).bytes,
            message,
        ),
        held.outcome(offset, message.subrange(offset, offset + len), policy).conflicting == 0,
{
    let bytes = message.subrange(offset, offset + len);
    let after = held.written(offset, bytes, policy);
    let (from, to) = held.part_of(offset, len);
    lemma_count_none(
        from,
        to,
        |at: int|
            held.bytes.contains_key(at) && held.bytes[at] != incoming(offset, bytes, at),
    );
    assert forall|at: int| #[trigger] after.bytes.contains_key(at) implies 0 <= at < message.len()
        && after.bytes[at] == message[at] by {
        if from <= at < to {
            assert(at < offset + len);
            assert(incoming(offset, bytes, at) == message[at]);
        }
    }
}

/// What is contiguous in a buffer that holds parts of a message is the message
/// itself, in order and without a hole.
pub proof fn law_what_is_contiguous_is_the_message(held: Held, message: Seq<u8>, to: int)
    requires
        held.sound(),
        holds_part_of(held.bytes, message),
        0 <= held.start <= to <= held.contiguous_to(),
        held.start <= message.len(),
    ensures
        to <= message.len(),
        held.prefix_to(to) == message.subrange(held.start, to),
{
    assert forall|at: int| held.start <= at < to implies #[trigger] held.bytes.contains_key(
        at,
    ) by {
        assert(held.runs()[0].has(at));
        assert(covers(held.runs(), at));
    }
    if to > held.start {
        assert(held.bytes.contains_key(to - 1));
    }
    let prefix = held.prefix_to(to);
    assert forall|i: int| 0 <= i < to - held.start implies #[trigger] prefix[i]
        == message[held.start + i] by {
        assert(held.bytes.contains_key(held.start + i));
    }
    assert(prefix =~= message.subrange(held.start, to));
}

/// Runs with one more stretch among them: it absorbs every run that it touches.
spec fn merged(runs: Seq<Span>, span: Span) -> Seq<Span>
    decreases runs.len(),
{
    if runs.len() == 0 {
        seq![span]
    } else {
        let last = runs.last();
        if last.end < span.start {
            runs.push(span)
        } else if span.end < last.start {
            merged(runs.drop_last(), span).push(last)
        } else {
            merged(
                runs.drop_last(),
                Span {
                    start: if last.start < span.start {
                        last.start
                    } else {
                        span.start
                    },
                    end: if last.end > span.end {
                        last.end
                    } else {
                        span.end
                    },
                },
            )
        }
    }
}

proof fn lemma_merged(runs: Seq<Span>, span: Span)
    requires
        are_runs(runs),
        span.start < span.end,
    ensures
        are_runs(merged(runs, span)),
        merged(runs, span).len() <= runs.len() + 1,
        forall|at: int| #[trigger]
            covers(merged(runs, span), at) <==> covers(runs, at) || span.has(at),
        forall|bound: int|
            (forall|i: int| 0 <= i < runs.len() ==> (#[trigger] runs[i]).end < bound) && span.end
                < bound ==> #[trigger] all_end_before(merged(runs, span), bound),
    decreases runs.len(),
{
    let after = merged(runs, span);
    if runs.len() == 0 {
        assert forall|at: int| #[trigger] covers(after, at) <==> covers(runs, at) || span.has(
            at,
        ) by {
            assert(after[0] == span);
        }
    } else {
        let init = runs.drop_last();
        let last = runs.last();
        let n = runs.len() - 1;
        assert(runs =~= init.push(last));
        lemma_runs_init(runs);
        assert forall|at: int| covers(runs, at) == (#[trigger] covers(init, at) || last.has(
            at,
        )) by {
            lemma_covers_push(init, last, at);
        }
        assert(runs[n].start < runs[n].end);
        assert forall|i: int| 0 <= i < init.len() implies (#[trigger] init[i]).end
            < last.start by {
            assert(runs[i].end < runs[n].start);
        }
        if last.end < span.start {
            assert forall|at: int| #[trigger] covers(after, at) <==> covers(runs, at)
                || span.has(at) by {
                lemma_covers_push(runs, span, at);
            }
            assert forall|i: int, j: int| 0 <= i < j < after.len() implies (
            #[trigger] after[i]).end < (#[trigger] after[j]).start by {
                if j < runs.len() {
                    assert(runs[i].end < runs[j].start);
                } else if i < n {
                    assert(runs[i].end < runs[n].start);
                }
            }
            assert forall|i: int| 0 <= i < after.len() implies (#[trigger] after[i]).start
                < after[i].end by {
                if i < runs.len() {
                    assert(runs[i].start < runs[i].end);
                }
            }
            assert forall|bound: int|
                (forall|i: int| 0 <= i < runs.len() ==> (#[trigger] runs[i]).end < bound)
                    && span.end < bound implies #[trigger] all_end_before(after, bound) by {
                assert forall|i: int| 0 <= i < after.len() implies (#[trigger] after[i]).end
                    < bound by {
                    if i < runs.len() {
                        assert(after[i] == runs[i]);
                    }
                }
            }
        } else if span.end < last.start {
            let before = merged(init, span);
            lemma_merged(init, span);
            assert(all_end_before(before, last.start as int));
            assert forall|at: int| #[trigger] covers(after, at) <==> covers(runs, at)
                || span.has(at) by {
                lemma_covers_push(before, last, at);
                assert(covers(before, at) <==> covers(init, at) || span.has(at));
                assert(covers(runs, at) == (covers(init, at) || last.has(at)));
            }
            assert forall|i: int| 0 <= i < after.len() implies (#[trigger] after[i]).start
                < after[i].end by {
                if i < before.len() {
                    assert(after[i] == before[i]);
                }
            }
            assert forall|i: int, j: int| 0 <= i < j < after.len() implies (
            #[trigger] after[i]).end < (#[trigger] after[j]).start by {
                assert(after[i] == before[i]);
                if j < before.len() {
                    assert(before[i].end < before[j].start);
                } else {
                    assert(before[i].end < last.start);
                }
            }
            assert forall|bound: int|
                (forall|i: int| 0 <= i < runs.len() ==> (#[trigger] runs[i]).end < bound)
                    && span.end < bound implies #[trigger] all_end_before(after, bound) by {
                assert forall|i: int| 0 <= i < init.len() implies (#[trigger] init[i]).end
                    < bound by {
                    assert(runs[i].end < bound);
                }
                assert(all_end_before(before, bound));
                assert(runs[n].end < bound);
                assert forall|i: int| 0 <= i < after.len() implies (#[trigger] after[i]).end
                    < bound by {
                    if i < before.len() {
                        assert(after[i] == before[i]);
                    }
                }
            }
        } else {
            let wider = Span {
                start: if last.start < span.start {
                    last.start
                } else {
                    span.start
                },
                end: if last.end > span.end {
                    last.end
                } else {
                    span.end
                },
            };
            lemma_merged(init, wider);
            assert forall|at: int| #[trigger] covers(after, at) <==> covers(runs, at)
                || span.has(at) by {
                assert(covers(after, at) <==> covers(init, at) || wider.has(at));
                assert(covers(runs, at) == (covers(init, at) || last.has(at)));
            }
            assert forall|bound: int|
                (forall|i: int| 0 <= i < runs.len() ==> (#[trigger] runs[i]).end < bound)
                    && span.end < bound implies #[trigger] all_end_before(after, bound) by {
                assert forall|i: int| 0 <= i < init.len() implies (#[trigger] init[i]).end
                    < bound by {
                    assert(runs[i].end < bound);
                }
                assert(runs[n].end < bound);
            }
        }
    }
}

/// Whether every stretch ends before an offset.
spec fn all_end_before(spans: Seq<Span>, bound: int) -> bool {
    forall|i: int| 0 <= i < spans.len() ==> (#[trigger] spans[i]).end < bound
}

/// A write leaves a sound buffer sound, and adds at most one run.
pub proof fn law_a_write_keeps_a_buffer_sound(
    held: Held,
    offset: int,
    bytes: Seq<u8>,
    policy: OverlapPolicy,
)
    requires
        held.sound(),
        0 <= held.start,
    ensures
        held.written(offset, bytes, policy).sound(),
        held.written(offset, bytes, policy).runs().len() <= held.runs().len() + 1,
{
    let len = bytes.len() as int;
    if held.takes(offset, len) {
        let (from, to) = held.part_of(offset, len);
        let after = held.written(offset, bytes, policy);
        let span = Span { start: from as u64, end: to as u64 };
        let runs = merged(held.runs(), span);
        lemma_merged(held.runs(), span);
        assert forall|at: int| #[trigger] covers(runs, at) <==> after.bytes.contains_key(at) by {
            assert(held.bytes.contains_key(at) <==> covers(held.runs(), at));
        }
        assert(are_runs(runs) && forall|at: int| #[trigger]
            covers(runs, at) <==> after.bytes.contains_key(at));
        assert forall|at: int| covers(after.runs(), at) == #[trigger] covers(runs, at) by {
            assert(covers(after.runs(), at) <==> after.bytes.contains_key(at));
        }
        lemma_runs_unique(after.runs(), runs);
        assert forall|at: int| #[trigger] after.bytes.contains_key(at) implies after.start
            <= at by {
            if held.bytes.contains_key(at) {
            }
        }
    }
}

/// What a write accepts is what the buffer holds more of after it: nothing that was
/// held is lost, and nothing is counted twice.
pub proof fn law_a_write_stores_what_it_accepts(
    held: Held,
    offset: int,
    bytes: Seq<u8>,
    policy: OverlapPolicy,
)
    requires
        held.sound(),
        held.keeps_its_window(),
        0 <= offset,
    ensures
        held.written(offset, bytes, policy).sound(),
        held.written(offset, bytes, policy).keeps_its_window(),
        held.written(offset, bytes, policy).stored() == held.stored() + held.outcome(
            offset,
            bytes,
            policy,
        ).accepted,
{
    let len = bytes.len() as int;
    law_a_write_keeps_a_buffer_sound(held, offset, bytes, policy);
    if held.takes(offset, len) {
        let (from, to) = held.part_of(offset, len);
        let after = held.written(offset, bytes, policy);
        let (lo, hi) = (held.start, held.window_end());
        let was = |at: int| held.bytes.contains_key(at);
        let is = |at: int| after.bytes.contains_key(at);
        lemma_count_split(lo, from, hi, was);
        lemma_count_split(from, to, hi, was);
        lemma_count_split(lo, from, hi, is);
        lemma_count_split(from, to, hi, is);
        lemma_count_same(lo, from, was, is);
        lemma_count_same(to, hi, was, is);
        lemma_count_all(from, to, is);
        lemma_count_le(from, to, was, was);
    }
}

/// What is drained is what the buffer holds less of after it.
pub proof fn law_a_drain_takes_what_it_hands_over(held: Held, to: int)
    requires
        held.sound(),
        held.keeps_its_window(),
        held.start <= to <= held.contiguous_to(),
    ensures
        held.advanced(to).stored() + (to - held.start) == held.stored(),
{
    let after = held.advanced(to);
    let hi = held.window_end();
    assert forall|at: int| held.start <= at < to implies #[trigger] held.bytes.contains_key(at) by {
        assert(held.runs()[0].has(at));
        assert(covers(held.runs(), at));
    }
    if held.start < to {
        assert(held.bytes.contains_key(to - 1));
    }
    let was = |at: int| held.bytes.contains_key(at);
    let is = |at: int| after.bytes.contains_key(at);
    lemma_count_split(held.start, to, hi, was);
    lemma_count_all(held.start, to, was);
    lemma_count_same(to, hi, was, is);
    lemma_count_split(to, hi, after.window_end(), is);
    lemma_count_none(hi, after.window_end(), is);
}

/// Draining leaves a sound buffer sound.
pub proof fn law_a_drain_keeps_a_buffer_sound(held: Held, to: int)
    requires
        held.sound(),
        0 <= held.start <= to <= held.contiguous_to(),
    ensures
        held.advanced(to).sound(),
        forall|at: int| #[trigger]
            held.advanced(to).bytes.contains_key(at) <==> held.bytes.contains_key(at) && to <= at,
{
    let after = held.advanced(to);
    let old_runs = held.runs();
    assert forall|at: int| #[trigger] after.bytes.contains_key(at) <==> held.bytes.contains_key(at)
        && to <= at by {}
    if to == held.start {
        assert(after.bytes =~= held.bytes);
    } else {
        let first = old_runs[0];
        let runs = if to == first.end {
            old_runs.skip(1)
        } else {
            old_runs.update(0, Span { start: to as u64, end: first.end })
        };
        assert(are_runs(runs)) by {
            assert forall|i: int| 0 <= i < runs.len() implies (#[trigger] runs[i]).start
                < runs[i].end by {
                let k = if to == first.end { i + 1 } else { i };
                assert(old_runs[k].start < old_runs[k].end);
            }
            assert forall|i: int, j: int| 0 <= i < j < runs.len() implies (#[trigger] runs[i]).end
                < (#[trigger] runs[j]).start by {
                let (a, b) = if to == first.end { (i + 1, j + 1) } else { (i, j) };
                assert(old_runs[a].end < old_runs[b].start);
            }
        }
        assert forall|at: int| #[trigger] covers(runs, at) <==> after.bytes.contains_key(at) by {
            assert(held.bytes.contains_key(at) <==> covers(old_runs, at));
            if covers(runs, at) {
                let i = choose|i: int| 0 <= i < runs.len() && (#[trigger] runs[i]).has(at);
                let k = if to == first.end { i + 1 } else { i };
                assert(old_runs[k].has(at));
                if k > 0 {
                    assert(old_runs[0].end < old_runs[k].start);
                }
            }
            if after.bytes.contains_key(at) {
                let k = choose|k: int| 0 <= k < old_runs.len() && (#[trigger] old_runs[k]).has(at);
                let i = if to == first.end { k - 1 } else { k };
                assert(runs[i].has(at));
            }
        }
        assert(are_runs(runs) && forall|at: int| #[trigger]
            covers(runs, at) <==> after.bytes.contains_key(at));
        assert forall|at: int| #[trigger] after.bytes.contains_key(at) implies covers(
            after.runs(),
            at,
        ) by {
            assert(covers(after.runs(), at) <==> after.bytes.contains_key(at));
        }
    }
}

/// A piece of a message: where it starts, how long it is, and the policy under which
/// it is written.
pub struct Piece {
    /// Where it starts in the message.
    pub offset: int,
    /// How long it is.
    pub len: int,
    /// How an overlap with what is there is resolved.
    pub policy: OverlapPolicy,
}

impl Piece {
    /// Whether a piece lies in a message.
    pub open spec fn within(self, message: Seq<u8>) -> bool {
        0 <= self.offset && 0 <= self.len && self.offset + self.len <= message.len()
    }

    /// Whether a piece brings the byte at an offset.
    pub open spec fn brings(self, at: int) -> bool {
        self.offset <= at < self.offset + self.len
    }

    /// The bytes of a piece.
    pub open spec fn of(self, message: Seq<u8>) -> Seq<u8> {
        message.subrange(self.offset, self.offset + self.len)
    }
}

/// What is held after pieces of a message were written, one after the other.
pub open spec fn after_pieces(held: Held, message: Seq<u8>, pieces: Seq<Piece>) -> Held
    decreases pieces.len(),
{
    if pieces.len() == 0 {
        held
    } else {
        let last = pieces.last();
        after_pieces(held, message, pieces.drop_last()).written(
            last.offset,
            last.of(message),
            last.policy,
        )
    }
}

/// Whether no byte of any piece is refused by a cap.
pub open spec fn none_refused(held: Held, message: Seq<u8>, pieces: Seq<Piece>) -> bool
    decreases pieces.len(),
{
    pieces.len() == 0 || {
        let last = pieces.last();
        &&& none_refused(held, message, pieces.drop_last())
        &&& after_pieces(held, message, pieces.drop_last()).refused_len(last.offset, last.len) == 0
    }
}

/// Whether some piece brings the byte at an offset.
pub open spec fn brought(pieces: Seq<Piece>, at: int) -> bool {
    exists|i: int| 0 <= i < pieces.len() && (#[trigger] pieces[i]).brings(at)
}

/// Whether all pieces lie in a message.
pub open spec fn all_within(pieces: Seq<Piece>, message: Seq<u8>) -> bool {
    forall|i: int| 0 <= i < pieces.len() ==> (#[trigger] pieces[i]).within(message)
}

/// What pieces of a message leave behind, where none is refused: the bytes of the
/// message at every offset of the window that was held or that some piece brought,
/// and nothing else. Neither the order of the pieces nor their policies matter.
pub proof fn law_pieces_are_kept_in_any_order(held: Held, message: Seq<u8>, pieces: Seq<Piece>)
    requires
        held.sound(),
        0 <= held.start,
        holds_part_of(held.bytes, message),
        message.len() <= held.window_end(),
        all_within(pieces, message),
        none_refused(held, message, pieces),
    ensures
        ({
            let after = after_pieces(held, message, pieces);
            &&& after.sound()
            &&& after.start == held.start
            &&& after.byte_cap == held.byte_cap
            &&& after.range_cap == held.range_cap
            &&& after.runs().len() <= held.runs().len() + pieces.len()
            &&& holds_part_of(after.bytes, message)
            &&& forall|at: int| #[trigger]
                after.bytes.contains_key(at) <==> held.bytes.contains_key(at) || (held.start <= at
                    && brought(pieces, at))
        }),
    decreases pieces.len(),
{
    if pieces.len() > 0 {
        let init = pieces.drop_last();
        let last = pieces.last();
        let before = after_pieces(held, message, init);
        let after = after_pieces(held, message, pieces);
        assert forall|i: int| 0 <= i < init.len() implies (#[trigger] init[i]).within(
            message,
        ) by {
            assert(pieces[i].within(message));
        }
        assert(pieces[pieces.len() - 1].within(message));
        law_pieces_are_kept_in_any_order(held, message, init);
        law_a_write_keeps_a_buffer_sound(before, last.offset, last.of(message), last.policy);
        law_pieces_of_a_message_fit(before, message, last.offset, last.len, last.policy);
        assert(last.of(message).len() == last.len);
        assert forall|at: int| #[trigger]
            after.bytes.contains_key(at) <==> held.bytes.contains_key(at) || (held.start <= at
                && brought(pieces, at)) by {
            lemma_brought_push(init, last, at);
            assert(pieces =~= init.push(last));
            assert(before.bytes.contains_key(at) <==> held.bytes.contains_key(at) || (held.start
                <= at && brought(init, at)));
        }
    }
}

proof fn lemma_brought_push(pieces: Seq<Piece>, last: Piece, at: int)
    ensures
        brought(pieces.push(last), at) == (brought(pieces, at) || last.brings(at)),
{
    let all = pieces.push(last);
    if brought(pieces, at) {
        let i = choose|i: int| 0 <= i < pieces.len() && (#[trigger] pieces[i]).brings(at);
        assert(all[i].brings(at));
    }
    if last.brings(at) {
        assert(all[pieces.len() as int].brings(at));
    }
    if brought(all, at) && !last.brings(at) {
        let i = choose|i: int| 0 <= i < all.len() && (#[trigger] all[i]).brings(at);
        assert(pieces[i].brings(at));
    }
}

/// A message split over any pieces, written in any order and however often, under any
/// policies, comes back whole: once every byte of it has been brought, and none was
/// refused by a cap, all that is left of it in the window is contiguous and is the
/// message.
pub proof fn law_a_message_comes_back_whole(
    held: Held,
    message: Seq<u8>,
    pieces: Seq<Piece>,
)
    requires
        held.sound(),
        0 <= held.start <= message.len(),
        holds_part_of(held.bytes, message),
        message.len() <= held.window_end(),
        all_within(pieces, message),
        forall|at: int|
            held.start <= at < message.len() ==> held.bytes.contains_key(at) || #[trigger] brought(
                pieces,
                at,
            ),
        none_refused(held, message, pieces),
    ensures
        after_pieces(held, message, pieces).contiguous_to() == message.len(),
        after_pieces(held, message, pieces).prefix_to(message.len() as int) == message.subrange(
            held.start,
            message.len() as int,
        ),
{
    let after = after_pieces(held, message, pieces);
    law_pieces_are_kept_in_any_order(held, message, pieces);
    assert forall|at: int| held.start <= at < message.len() implies #[trigger]
        after.bytes.contains_key(at) by {
        assert(held.bytes.contains_key(at) || brought(pieces, at));
    }
    law_a_filled_buffer_is_contiguous(after, message.len() as int);
    law_what_is_contiguous_is_the_message(after, message, message.len() as int);
}

/// Where every offset up to `to` is stored and none beyond, the contiguous run ends
/// there.
pub proof fn law_a_filled_buffer_is_contiguous(held: Held, to: int)
    requires
        held.sound(),
        held.start <= to,
        forall|at: int| #[trigger] held.bytes.contains_key(at) <==> held.start <= at < to,
    ensures
        held.contiguous_to() == to,
{
    let runs = held.runs();
    if held.start < to {
        assert(held.bytes.contains_key(held.start));
        let i = choose|i: int| 0 <= i < runs.len() && (#[trigger] runs[i]).has(held.start);
        let first = runs[0];
        assert(first.start < first.end);
        assert(first.has(first.start as int));
        assert(covers(runs, first.start as int));
        assert(held.bytes.contains_key(first.start as int));
        if i > 0 {
            assert(runs[0].end < runs[i].start);
        }
        assert(first.start == held.start);
        assert(first.has(first.end - 1));
        assert(covers(runs, first.end - 1));
        assert(held.bytes.contains_key(first.end - 1));
        if first.end < to {
            assert(held.bytes.contains_key(first.end as int));
            let j = choose|j: int| 0 <= j < runs.len() && (#[trigger] runs[j]).has(
                first.end as int,
            );
            if j > 0 {
                assert(runs[0].end < runs[j].start);
            }
        }
    } else if runs.len() > 0 {
        assert(runs[0].start < runs[0].end);
        assert(runs[0].has(runs[0].start as int));
        assert(covers(runs, runs[0].start as int));
        assert(held.bytes.contains_key(runs[0].start as int));
    }
}

/// Within the caps nothing is refused: as many pieces as there is room for runs, of a
/// message that ends in the window, are all taken, whatever their order.
pub proof fn law_nothing_is_refused_within_the_caps(
    held: Held,
    message: Seq<u8>,
    pieces: Seq<Piece>,
)
    requires
        held.sound(),
        0 <= held.start,
        holds_part_of(held.bytes, message),
        message.len() <= held.window_end(),
        all_within(pieces, message),
        held.runs().len() + pieces.len() <= held.range_cap,
    ensures
        none_refused(held, message, pieces),
    decreases pieces.len(),
{
    if pieces.len() > 0 {
        let init = pieces.drop_last();
        assert forall|i: int| 0 <= i < init.len() implies (#[trigger] init[i]).within(
            message,
        ) by {
            assert(pieces[i].within(message));
        }
        assert(pieces[pieces.len() - 1].within(message));
        law_nothing_is_refused_within_the_caps(held, message, init);
        law_pieces_are_kept_in_any_order(held, message, init);
    }
}

/// A buffer that holds nothing is sound.
pub proof fn law_an_empty_buffer_is_sound(held: Held)
    requires
        held.bytes == Map::<int, u8>::empty(),
    ensures
        held.sound(),
        held.runs().len() == 0,
{
    let none = Seq::<Span>::empty();
    assert(are_runs(none) && forall|at: int| #[trigger]
        covers(none, at) <==> held.bytes.contains_key(at));
    let runs = held.runs();
    if runs.len() > 0 {
        assert(runs[0].start < runs[0].end);
        assert(runs[0].has(runs[0].start as int));
        assert(covers(runs, runs[0].start as int));
    }
}

/// A buffer that is well formed is sound.
pub proof fn law_a_buffer_is_sound(buffer: RangeBuffer)
    requires
        buffer.well_formed(),
    ensures
        buffer@.sound(),
        buffer@.keeps_its_window(),
        buffer@.runs().len() <= buffer@.range_cap,
        buffer@.stored() <= buffer@.byte_cap,
{
    buffer.lemma_well_formed();
    buffer.lemma_stored_bound();
}

/// The runs are determined by what is stored: two buffers that hold bytes at
/// the same offsets count the same ranges.
pub proof fn law_runs_follow_the_bytes(one: RangeBuffer, other: RangeBuffer)
    requires
        one.well_formed(),
        other.well_formed(),
        one@.bytes.dom() == other@.bytes.dom(),
    ensures
        one@.runs() == other@.runs(),
{
    one.lemma_well_formed();
    other.lemma_well_formed();
    assert forall|at: int| covers(one@.runs(), at) == #[trigger] covers(other@.runs(), at) by {
        assert(one@.bytes.contains_key(at) == one@.bytes.dom().contains(at));
        assert(other@.bytes.contains_key(at) == other@.bytes.dom().contains(at));
        assert(one@.bytes.contains_key(at) <==> covers(one@.runs(), at));
        assert(other@.bytes.contains_key(at) <==> covers(other@.runs(), at));
    }
    lemma_runs_unique(one@.runs(), other@.runs());
}

proof fn lemma_runs_unique(a: Seq<Span>, b: Seq<Span>)
    requires
        are_runs(a),
        are_runs(b),
        forall|at: int| covers(a, at) == #[trigger] covers(b, at),
    ensures
        a == b,
    decreases a.len(),
{
    if a.len() == 0 || b.len() == 0 {
        if a.len() > 0 {
            assert(a[0].has(a[0].start as int));
            assert(covers(b, a[0].start as int));
        }
        if b.len() > 0 {
            assert(b[0].has(b[0].start as int));
            assert(covers(b, b[0].start as int));
        }
        assert(a =~= b);
    } else {
        let (x, y) = (a.last(), b.last());
        lemma_last_run(a);
        lemma_last_run(b);
        assert(covers(b, x.end - 1) && covers(b, y.end - 1));
        assert(x.end == y.end);
        assert(!covers(b, x.start - 1) && !covers(b, y.start - 1));
        assert(x.start == y.start) by {
            if x.start < y.start {
                assert(a[a.len() - 1].has(y.start - 1));
                assert(covers(a, y.start - 1));
            }
            if y.start < x.start {
                assert(b[b.len() - 1].has(x.start - 1));
                assert(covers(b, x.start - 1));
            }
        }
        let (c, d) = (a.drop_last(), b.drop_last());
        lemma_runs_init(a);
        lemma_runs_init(b);
        assert forall|at: int| covers(c, at) == #[trigger] covers(d, at) by {
            assert(a =~= c.push(x));
            assert(b =~= d.push(y));
            lemma_covers_push(c, x, at);
            lemma_covers_push(d, y, at);
            assert(covers(a, at) == covers(b, at));
        }
        lemma_runs_unique(c, d);
        assert(a =~= c.push(x));
        assert(b =~= d.push(y));
    }
}

proof fn lemma_last_run(spans: Seq<Span>)
    requires
        are_runs(spans),
        spans.len() > 0,
    ensures
        spans.last().start < spans.last().end,
        covers(spans, spans.last().end - 1),
        !covers(spans, spans.last().start - 1),
        forall|at: int| #[trigger] covers(spans, at) ==> at < spans.last().end,
{
    let n = spans.len() - 1;
    assert(spans[n].start < spans[n].end);
    assert(spans[n].has(spans[n].end - 1));
    if covers(spans, spans[n].start - 1) {
        let i = choose|i: int|
            0 <= i < spans.len() && (#[trigger] spans[i]).has(spans[n].start - 1);
        if i < n {
            assert(spans[i].end < spans[n].start);
        }
    }
    assert forall|at: int| #[trigger] covers(spans, at) implies at < spans.last().end by {
        let i = choose|i: int| 0 <= i < spans.len() && (#[trigger] spans[i]).has(at);
        if i < n {
            assert(spans[i].end < spans[n].start);
        }
    }
}

proof fn lemma_runs_init(spans: Seq<Span>)
    requires
        are_runs(spans),
        spans.len() > 0,
    ensures
        are_runs(spans.drop_last()),
        forall|at: int| #[trigger]
            covers(spans.drop_last(), at) ==> !spans.last().has(at),
{
    let init = spans.drop_last();
    let n = spans.len() - 1;
    assert forall|i: int| 0 <= i < init.len() implies (#[trigger] init[i]).start < init[i].end by {
        assert(spans[i].start < spans[i].end);
    }
    assert forall|i: int, j: int| 0 <= i < j < init.len() implies (#[trigger] init[i]).end < (
    #[trigger] init[j]).start by {
        assert(spans[i].end < spans[j].start);
    }
    assert forall|at: int| #[trigger] covers(init, at) implies !spans.last().has(at) by {
        let i = choose|i: int| 0 <= i < init.len() && (#[trigger] init[i]).has(at);
        assert(spans[i].end < spans[n].start);
    }
}

/// Byte by byte: a write that is taken leaves a byte wherever there was one and wherever
/// it reaches the window. Where there was none, and where the later byte wins, it is the
/// write's; elsewhere it is what was there.
pub proof fn law_a_write_lands_where_it_says(
    held: Held,
    offset: int,
    bytes: Seq<u8>,
    policy: OverlapPolicy,
    at: int,
)
    requires
        held.keeps_its_window(),
        held.takes(offset, bytes.len() as int),
        0 <= offset,
        offset + bytes.len() <= u64::MAX,
    ensures
        ({
            let after = held.written(offset, bytes, policy).bytes;
            let reached = offset <= at < offset + bytes.len() && held.start <= at < held.start
                + held.byte_cap;
            &&& held.bytes.contains_key(at) || reached ==> after.contains_key(at)
            &&& after.contains_key(at) ==> held.bytes.contains_key(at) || reached
            &&& reached && (!held.bytes.contains_key(at) || policy == OverlapPolicy::Last)
                ==> after[at] == bytes[at - offset]
            &&& held.bytes.contains_key(at) && (!reached || policy == OverlapPolicy::First)
                ==> after[at] == held.bytes[at]
        }),
        held.written(offset, bytes, policy).start == held.start,
{
}

/// What a write reports of overlaps: a byte that contradicts one is among those that meet
/// one, only the later byte replaces, and a write that agrees with what is there
/// contradicts nothing.
pub proof fn law_conflicts_are_told_from_overlaps(
    held: Held,
    offset: int,
    bytes: Seq<u8>,
    policy: OverlapPolicy,
)
    requires
        held.keeps_its_window(),
        0 <= offset,
        offset + bytes.len() <= u64::MAX,
    ensures
        ({
            let outcome = held.outcome(offset, bytes, policy);
            &&& outcome.conflicting <= outcome.overlapped
            &&& policy == OverlapPolicy::Last ==> outcome.replaced == outcome.conflicting
            &&& policy == OverlapPolicy::First ==> outcome.replaced == 0
            &&& (forall|at: int|
                offset <= at < offset + bytes.len() && #[trigger] held.bytes.contains_key(at)
                    ==> held.bytes[at] == bytes[at - offset]) ==> outcome.conflicting == 0
            &&& (forall|at: int|
                offset <= at < offset + bytes.len() ==> !#[trigger] held.bytes.contains_key(at))
                ==> outcome.overlapped == 0
            &&& outcome.accepted + outcome.overlapped + outcome.refused + outcome.before_window
                == bytes.len()
        }),
{
    let len = bytes.len() as int;
    let (from, to) = held.part_of(offset, len);
    let stored = |at: int| held.bytes.contains_key(at);
    let against = |at: int|
        held.bytes.contains_key(at) && held.bytes[at] != incoming(offset, bytes, at);
    if held.takes(offset, len) {
        crate::counting::lemma_count_le(from, to, against, stored);
        if forall|at: int|
            offset <= at < offset + bytes.len() && #[trigger] held.bytes.contains_key(at)
                ==> held.bytes[at] == bytes[at - offset] {
            assert forall|at: int| from <= at < to implies !#[trigger] against(at) by {}
            crate::counting::lemma_count_none(from, to, against);
        }
        if forall|at: int|
            offset <= at < offset + bytes.len() ==> !#[trigger] held.bytes.contains_key(at) {
            assert forall|at: int| from <= at < to implies !#[trigger] stored(at) by {}
            crate::counting::lemma_count_none(from, to, stored);
        }
        assert(stored_in(held.bytes, from, to) <= to - from);
    }
    let rest = len - before_window_len(held.start, offset, len);
    assert(held.refused_len(offset, len) + before_window_len(held.start, offset, len) + if held.takes(
        offset,
        len,
    ) {
        to - from
    } else {
        0
    } == len);
}

/// A stretch meets the runs that it overlaps and those that it lies directly next to, and
/// a write that meets one is taken even where no further run is allowed.
pub proof fn law_a_write_next_to_a_run_merges(held: Held, offset: int, len: int, i: int)
    requires
        held.sound(),
        held.keeps_its_window(),
        0 <= i < held.runs().len(),
        held.start <= offset,
        0 < len,
        offset + len <= held.window_end(),
        offset + len <= u64::MAX,
    ensures
        held.runs()[i].end == offset || held.runs()[i].start == offset + len ==> held.takes(
            offset,
            len,
        ),
        held.runs()[i].start <= offset < held.runs()[i].end ==> held.takes(offset, len),
        held.runs().len() < held.range_cap ==> held.takes(offset, len),
{
    let run = held.runs()[i];
    assert(run.start < run.end);
    if run.end >= offset && run.start <= offset + len {
        assert(touches(held.runs(), offset, offset + len));
    }
}

} // verus!
