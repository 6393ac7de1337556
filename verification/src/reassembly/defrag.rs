//! IP defragmentation.
//!
//! Fragmentation is the oldest evasion technique there is: split an attack
//! across fragments and a sensor that does not reassemble sees only harmless
//! pieces. Send the pieces out of order, overlapping, or with contradictory
//! contents and a sensor that reassembles *differently from the destination*
//! sees something the destination never will.
//!
//! So this does three things, and all three matter:
//!
//! * reassemble out-of-order fragments into the original datagram;
//! * resolve overlapping fragments by the destination's configured
//!   [`OverlapPolicy`], and **count the ones that disagreed**;
//! * hold no more state than it is allowed to, because the attacker chooses how
//!   many incomplete datagrams exist and how long they stay incomplete.
//!
//! A datagram whose fragments never all arrive is discarded on timeout. That is
//! not a failure — it is the only correct outcome, and the alternative is
//! pinning memory on the attacker's say-so.

use vstd::prelude::*;
use crate::config::ReassemblyConfig;
use crate::net::IpAddr;
use crate::time::{Duration, Timestamp};
use super::range_buffer::{
    after_pieces, brought, covers, holds_part_of, law_a_buffer_is_sound,
    law_a_message_comes_back_whole, law_an_empty_buffer_is_sound,
    law_nothing_is_refused_within_the_caps, law_pieces_are_kept_in_any_order,
    law_pieces_of_a_message_fit, law_what_is_contiguous_is_the_message, none_refused, Held, Piece,
    RangeBuffer,
};
use super::OverlapPolicy;

verus! {

/// Largest datagram that can be reassembled.
///
/// IPv4's total-length field is 16 bits, so nothing legitimate exceeds this.
/// A fragment claiming to extend past it is the "oversized datagram" attack and
/// is refused rather than allocated for.
pub const MAX_DATAGRAM_LEN: u64 = 65_535;

/// Maximum holes tracked per datagram, so a scatter of tiny fragments cannot
/// cost unbounded bookkeeping.
pub const MAX_HOLES_PER_DATAGRAM: usize = 128;

/// How often, in nanoseconds of capture time, to sweep for expired fragment
/// sets.
pub const SWEEP_INTERVAL_NANOS: u128 = 5_000_000_000;

/// Fraction of the sets evicted at once when the cap is reached.
pub const EVICTION_BATCH_FRACTION: usize = 10;

/// One fragment handed to the defragmenter.
#[derive(Debug, Clone, Copy)]
pub struct FragmentView<'a> {
    /// Source address.
    pub source: IpAddr,
    /// Destination address — whose policy decides overlaps.
    pub destination: IpAddr,
    /// Fragment identification from the IP header.
    pub identification: u32,
    /// Protocol carried by the reassembled datagram.
    pub protocol: u8,
    /// Fragment offset, in 8-byte units as it appears on the wire.
    pub offset: u16,
    /// Whether more fragments follow.
    pub more_fragments: bool,
    /// This fragment's payload.
    pub payload: &'a [u8],
}

impl FragmentView<'_> {
    /// Where the fragment's payload starts in the datagram.
    pub open spec fn start(self) -> int {
        self.offset * 8
    }

    /// One past where the fragment's payload ends in the datagram.
    pub open spec fn end(self) -> int {
        self.start() + self.payload@.len()
    }

    /// The datagram the fragment is a piece of.
    pub open spec fn key(self) -> FragmentKey {
        FragmentKey {
            source: self.source,
            destination: self.destination,
            identification: self.identification,
            protocol: self.protocol,
        }
    }

    /// Whether a fragment that is not the last breaks the rule that its length
    /// is a multiple of eight.
    pub open spec fn misaligned(self) -> bool {
        self.more_fragments && self.payload@.len() % 8 != 0
    }
}

/// Identifies one datagram being reassembled.
#[derive(Debug, Clone, Copy, PartialEq, Eq, Hash, Structural)]
pub struct FragmentKey {
    /// Source address.
    pub source: IpAddr,
    /// Destination address.
    pub destination: IpAddr,
    /// Fragment identification from the IP header.
    pub identification: u32,
    /// Protocol carried by the reassembled datagram.
    pub protocol: u8,
}

/// A completed datagram.
#[derive(Debug, Clone)]
pub struct Reassembled {
    /// Source address.
    pub source: IpAddr,
    /// Destination address.
    pub destination: IpAddr,
    /// Protocol of the transport header now at offset zero of `data`.
    pub protocol: u8,
    /// The reassembled payload: everything after the IP header.
    pub data: Vec<u8>,
    /// How many fragments went into it.
    pub fragments: u32,
    /// Bytes where two fragments disagreed. Non-zero means the reassembly was
    /// ambiguous and the configured policy had to break the tie.
    pub conflicting_bytes: u64,
}

/// Running totals.
#[derive(Debug, Clone, Copy, PartialEq, Eq, Structural)]
pub struct DefragCounters {
    /// Fragments seen.
    pub fragments: u64,
    /// Datagrams fully reassembled.
    pub completed: u64,
    /// Reassemblies started.
    pub started: u64,
    /// Incomplete datagrams discarded on timeout.
    pub timed_out: u64,
    /// Incomplete datagrams evicted under memory pressure. **A coverage
    /// signal**: an attack may have been in one of them.
    pub evicted: u64,
    /// Fragment bytes that landed on already-covered offsets.
    pub overlaps: u64,
    /// Of those, bytes that **disagreed** with what was already there.
    pub conflicting_overlaps: u64,
    /// Fragments refused for claiming to extend past the maximum datagram size.
    pub oversized: u64,
    /// Fragment bytes refused by a per-datagram cap.
    pub refused_bytes: u64,
    /// Fragments that broke the 8-byte alignment rule for non-final fragments.
    pub misaligned: u64,
}

impl DefragCounters {
    /// Nothing counted yet.
    pub open spec fn zero() -> DefragCounters {
        DefragCounters {
            fragments: 0,
            completed: 0,
            started: 0,
            timed_out: 0,
            evicted: 0,
            overlaps: 0,
            conflicting_overlaps: 0,
            oversized: 0,
            refused_bytes: 0,
            misaligned: 0,
        }
    }

    /// Whether every total is at most `bound`.
    pub open spec fn at_most(self, bound: int) -> bool {
        &&& self.fragments <= bound
        &&& self.completed <= bound
        &&& self.started <= bound
        &&& self.timed_out <= bound
        &&& self.evicted <= bound
        &&& self.overlaps <= bound
        &&& self.conflicting_overlaps <= bound
        &&& self.oversized <= bound
        &&& self.refused_bytes <= bound
        &&& self.misaligned <= bound
    }
}

impl Default for DefragCounters {
    fn default() -> (counters: Self)
        ensures
            counters == DefragCounters::zero(),
    {
        Self {
            fragments: 0,
            completed: 0,
            started: 0,
            timed_out: 0,
            evicted: 0,
            overlaps: 0,
            conflicting_overlaps: 0,
            oversized: 0,
            refused_bytes: 0,
            misaligned: 0,
        }
    }
}

/// The state of one part-assembled datagram.
pub struct SetModel {
    /// Which datagram it is.
    pub key: FragmentKey,
    /// What has arrived, by offset.
    pub buffer: Held,
    /// When its first fragment arrived.
    pub first_seen: Timestamp,
    /// When its latest fragment arrived.
    pub last_seen: Timestamp,
    /// Its length, once a final fragment fixed it.
    pub total_len: Option<int>,
    /// How many fragments arrived.
    pub fragments: int,
    /// How many bytes contradicted earlier ones.
    pub conflicting_bytes: int,
}

impl SetModel {
    /// A datagram of which nothing has arrived yet.
    pub open spec fn fresh(key: FragmentKey, now: Timestamp) -> SetModel {
        SetModel {
            key,
            buffer: Held {
                start: 0,
                bytes: Map::empty(),
                byte_cap: MAX_DATAGRAM_LEN as int,
                range_cap: MAX_HOLES_PER_DATAGRAM as int,
            },
            first_seen: now,
            last_seen: now,
            total_len: None,
            fragments: 0,
            conflicting_bytes: 0,
        }
    }

    /// The datagram after a fragment. The first final fragment fixes its
    /// length; a later, contradicting one does not.
    pub open spec fn after(
        self,
        fragment: FragmentView,
        now: Timestamp,
        policy: OverlapPolicy,
    ) -> SetModel {
        SetModel {
            buffer: self.buffer.written(fragment.start(), fragment.payload@, policy),
            last_seen: if now.nanos > self.last_seen.nanos {
                now
            } else {
                self.last_seen
            },
            total_len: if self.total_len is None && !fragment.more_fragments {
                Some(fragment.end())
            } else {
                self.total_len
            },
            fragments: self.fragments + 1,
            conflicting_bytes: self.conflicting_bytes + self.buffer.outcome(
                fragment.start(),
                fragment.payload@,
                policy,
            ).conflicting,
            ..self
        }
    }

    /// Whether every byte up to the datagram's length has arrived.
    pub open spec fn complete(self) -> bool {
        self.total_len is Some && self.buffer.contiguous_to() >= self.total_len->0
    }

    /// How long the datagram has been idle.
    pub open spec fn idle(self, now: Timestamp) -> int {
        if now.nanos >= self.last_seen.nanos {
            now.nanos - self.last_seen.nanos
        } else {
            0
        }
    }

    /// The datagram's payload.
    pub open spec fn data(self) -> Seq<u8> {
        self.buffer.prefix_to(self.buffer.drained_to(self.total_len->0))
    }
}

/// A part-assembled datagram.
#[derive(Debug)]
struct FragmentSet {
    key: FragmentKey,
    buffer: RangeBuffer,
    first_seen: Timestamp,
    last_seen: Timestamp,
    /// Known once the final fragment (more-fragments clear) arrives.
    total_len: Option<u64>,
    fragments: u32,
    conflicting_bytes: u64,
}

impl View for FragmentSet {
    type V = SetModel;

    closed spec fn view(&self) -> SetModel {
        SetModel {
            key: self.key,
            buffer: self.buffer@,
            first_seen: self.first_seen,
            last_seen: self.last_seen,
            total_len: match self.total_len {
                Some(total) => Some(total as int),
                None => None,
            },
            fragments: self.fragments as int,
            conflicting_bytes: self.conflicting_bytes as int,
        }
    }
}

spec fn set_models(sets: Seq<FragmentSet>) -> Seq<SetModel> {
    sets.map_values(|set: FragmentSet| set@)
}

/// The bytes that some part-assembled datagrams hold together.
pub open spec fn total_stored(sets: Seq<SetModel>) -> int
    decreases sets.len(),
{
    if sets.len() == 0 {
        0
    } else {
        total_stored(sets.drop_last()) + sets.last().buffer.stored()
    }
}

proof fn lemma_total_bound(sets: Seq<SetModel>)
    requires
        forall|i: int|
            0 <= i < sets.len() ==> (#[trigger] sets[i]).buffer.stored() <= MAX_DATAGRAM_LEN,
    ensures
        total_stored(sets) <= sets.len() * MAX_DATAGRAM_LEN,
    decreases sets.len(),
{
    if sets.len() > 0 {
        let rest = sets.drop_last();
        assert forall|i: int| 0 <= i < rest.len() implies (#[trigger] rest[i]).buffer.stored()
            <= MAX_DATAGRAM_LEN by {
            assert(rest[i] == sets[i]);
        }
        lemma_total_bound(rest);
        assert(sets.last() == sets[sets.len() - 1]);
    }
}

/// Whether a datagram is being assembled.
pub open spec fn has_set(sets: Seq<SetModel>, key: FragmentKey) -> bool {
    exists|i: int| 0 <= i < sets.len() && (#[trigger] sets[i]).key == key
}

/// Where a datagram's set stands.
pub open spec fn set_index(sets: Seq<SetModel>, key: FragmentKey) -> int {
    choose|i: int| 0 <= i < sets.len() && (#[trigger] sets[i]).key == key
}

/// Whether no two sets are of one datagram.
pub open spec fn distinct_sets(sets: Seq<SetModel>) -> bool {
    forall|i: int, j: int|
        0 <= i < j < sets.len() ==> (#[trigger] sets[i]).key != (#[trigger] sets[j]).key
}

/// The first of the sets that were started earliest.
pub open spec fn earliest(sets: Seq<SetModel>) -> int
    decreases sets.len(),
{
    if sets.len() <= 1 {
        0
    } else {
        let before = earliest(sets.drop_last());
        if sets.last().first_seen.nanos < sets[before].first_seen.nanos {
            sets.len() - 1
        } else {
            before
        }
    }
}

/// The sets that stay when the `count` that were started earliest are evicted.
pub open spec fn spared(sets: Seq<SetModel>, count: nat) -> Seq<SetModel>
    decreases count,
{
    if count == 0 || sets.len() == 0 {
        sets
    } else {
        spared(sets.remove(earliest(sets)), (count - 1) as nat)
    }
}

/// What a defragmenter is.
pub struct DefragModel {
    /// The part-assembled datagrams, in the order they were started.
    pub sets: Seq<SetModel>,
    /// The most of them at once.
    pub max_sets: int,
    /// The most bytes they hold before room is made.
    pub max_bytes_total: int,
    /// How long one may stay idle.
    pub timeout: Duration,
    /// Running totals.
    pub counters: DefragCounters,
    /// Capture time of the last sweep.
    pub last_sweep: Option<Timestamp>,
}

impl DefragModel {
    /// The defragmenter after a timeout sweep.
    pub open spec fn swept(self, now: Timestamp) -> DefragModel {
        let kept = self.sets.filter(|set: SetModel| set.idle(now) < self.timeout.nanos);
        DefragModel {
            sets: kept,
            counters: DefragCounters {
                timed_out: (self.counters.timed_out + (self.sets.len() - kept.len())) as u64,
                ..self.counters
            },
            last_sweep: Some(now),
            ..self
        }
    }

    /// Whether enough capture time has passed for another sweep.
    pub open spec fn sweep_due(self, now: Timestamp) -> bool {
        match self.last_sweep {
            None => true,
            Some(last) => last.nanos <= now.nanos && now.nanos - last.nanos >= SWEEP_INTERVAL_NANOS,
        }
    }

    /// The defragmenter after a sweep, where one is due.
    pub open spec fn maybe_swept(self, now: Timestamp) -> DefragModel {
        if self.sweep_due(now) {
            self.swept(now)
        } else {
            self
        }
    }

    /// Whether there is room for one more datagram.
    pub open spec fn within_limits(self) -> bool {
        self.sets.len() < self.max_sets && total_stored(self.sets) < self.max_bytes_total
    }

    /// How many sets are evicted at once.
    pub open spec fn batch(self) -> nat {
        if self.max_sets < EVICTION_BATCH_FRACTION {
            1
        } else {
            (self.max_sets / EVICTION_BATCH_FRACTION as int) as nat
        }
    }

    /// The defragmenter after a batch of the earliest sets was evicted.
    pub open spec fn relieved(self) -> DefragModel {
        let stays = spared(self.sets, self.batch());
        DefragModel {
            sets: stays,
            counters: DefragCounters {
                evicted: (self.counters.evicted + (self.sets.len() - stays.len())) as u64,
                ..self.counters
            },
            ..self
        }
    }

    /// The defragmenter with room for one more datagram: as it is where it has
    /// room, swept where that makes some, and otherwise relieved of a batch too.
    pub open spec fn with_room(self, now: Timestamp) -> DefragModel {
        if self.within_limits() {
            self
        } else if self.swept(now).within_limits() {
            self.swept(now)
        } else {
            self.swept(now).relieved()
        }
    }

    /// The defragmenter with the datagram of a fragment among its sets.
    pub open spec fn holding(self, key: FragmentKey, now: Timestamp) -> DefragModel {
        if has_set(self.sets, key) {
            self
        } else {
            let roomy = self.with_room(now);
            DefragModel {
                sets: roomy.sets.push(SetModel::fresh(key, now)),
                counters: DefragCounters {
                    started: (roomy.counters.started + 1) as u64,
                    ..roomy.counters
                },
                ..roomy
            }
        }
    }

    /// The defragmenter once a fragment was counted and a due sweep was made.
    pub open spec fn counted(self, now: Timestamp) -> DefragModel {
        DefragModel {
            counters: DefragCounters {
                fragments: (self.counters.fragments + 1) as u64,
                ..self.counters
            },
            ..self
        }.maybe_swept(now)
    }

    /// The defragmenter once the datagram of an acceptable fragment is among
    /// its sets.
    pub open spec fn accepting(self, fragment: FragmentView, now: Timestamp) -> DefragModel {
        let counted = self.counted(now);
        let aligned = DefragModel {
            counters: DefragCounters {
                misaligned: (counted.counters.misaligned + if fragment.misaligned() {
                    1int
                } else {
                    0
                }) as u64,
                ..counted.counters
            },
            ..counted
        };
        aligned.holding(fragment.key(), now)
    }

    /// The set that an acceptable fragment goes to, after it.
    pub open spec fn advanced(
        self,
        fragment: FragmentView,
        now: Timestamp,
        policy: OverlapPolicy,
    ) -> SetModel {
        let ready = self.accepting(fragment, now);
        ready.sets[set_index(ready.sets, fragment.key())].after(fragment, now, policy)
    }

    /// Whether a fragment completes its datagram.
    pub open spec fn completes(
        self,
        fragment: FragmentView,
        now: Timestamp,
        policy: OverlapPolicy,
    ) -> bool {
        fragment.end() <= MAX_DATAGRAM_LEN && self.advanced(fragment, now, policy).complete()
    }

    /// The defragmenter after a fragment.
    pub open spec fn pushed(
        self,
        fragment: FragmentView,
        now: Timestamp,
        policy: OverlapPolicy,
    ) -> DefragModel {
        let counted = self.counted(now);
        let ready = self.accepting(fragment, now);
        let place = set_index(ready.sets, fragment.key());
        let outcome = ready.sets[place].buffer.outcome(
            fragment.start(),
            fragment.payload@,
            policy,
        );
        let after = self.advanced(fragment, now, policy);
        let totals = DefragCounters {
            overlaps: (ready.counters.overlaps + outcome.overlapped) as u64,
            conflicting_overlaps: (ready.counters.conflicting_overlaps + outcome.conflicting) as u64,
            refused_bytes: (ready.counters.refused_bytes + outcome.refused) as u64,
            ..ready.counters
        };
        if fragment.end() > MAX_DATAGRAM_LEN {
            DefragModel {
                counters: DefragCounters {
                    oversized: (counted.counters.oversized + 1) as u64,
                    ..counted.counters
                },
                ..counted
            }
        } else if after.complete() {
            DefragModel {
                sets: ready.sets.remove(place),
                counters: DefragCounters { completed: (totals.completed + 1) as u64, ..totals },
                ..ready
            }
        } else {
            DefragModel { sets: ready.sets.update(place, after), counters: totals, ..ready }
        }
    }

    /// Whether no total is so close to the end of its type that a fragment
    /// could not be counted.
    pub open spec fn has_room(self) -> bool {
        &&& self.counters.at_most(u64::MAX - self.sets.len() - MAX_DATAGRAM_LEN - 1)
        &&& total_stored(self.sets) + MAX_DATAGRAM_LEN <= usize::MAX
        &&& forall|i: int|
            0 <= i < self.sets.len() ==> (#[trigger] self.sets[i]).fragments < u32::MAX
                && self.sets[i].conflicting_bytes + MAX_DATAGRAM_LEN <= u64::MAX
    }
}

/// Reassembles IP fragments, under a hard bound.
#[derive(Debug)]
pub struct Defragmenter {
    /// The part-assembled datagrams, no two sets of one datagram.
    sets: Vec<FragmentSet>,
    max_sets: usize,
    max_bytes_total: usize,
    timeout: Duration,
    counters: DefragCounters,
    last_sweep: Option<Timestamp>,
}

impl View for Defragmenter {
    type V = DefragModel;

    closed spec fn view(&self) -> DefragModel {
        DefragModel {
            sets: set_models(self.sets@),
            max_sets: self.max_sets as int,
            max_bytes_total: self.max_bytes_total as int,
            timeout: self.timeout,
            counters: self.counters,
            last_sweep: self.last_sweep,
        }
    }
}

impl Defragmenter {
    /// The defragmenter's invariant: no two sets are of one datagram, every
    /// buffer keeps its own invariant, and the cap on sets is kept.
    pub closed spec fn well_formed(&self) -> bool {
        &&& forall|i: int|
            0 <= i < self.sets@.len() ==> (#[trigger] self.sets@[i]).buffer.well_formed()
                && self.sets@[i].buffer@.start == 0 && self.sets@[i].buffer@.byte_cap
                == MAX_DATAGRAM_LEN
        &&& distinct_sets(self@.sets)
        &&& 1 <= self.max_sets
        &&& self@.sets.len() <= self.max_sets
    }

    /// There are never more part-assembled datagrams than the cap allows, and no two
    /// of them are the same datagram, however many fragments arrive.
    pub proof fn law_the_sets_stay_within_their_cap(&self)
        requires
            self.well_formed(),
        ensures
            distinct_sets(self@.sets),
            1 <= self@.max_sets,
            self@.sets.len() <= self@.max_sets,
    {
    }

    /// Every part-assembled datagram is held in a sound buffer that starts where the
    /// datagram does and keeps its caps.
    pub proof fn law_every_set_is_sound(&self)
        requires
            self.well_formed(),
        ensures
            forall|i: int|
                0 <= i < self@.sets.len() ==> {
                    let buffer = (#[trigger] self@.sets[i]).buffer;
                    &&& buffer.sound()
                    &&& buffer.start == 0
                    &&& buffer.byte_cap == MAX_DATAGRAM_LEN
                    &&& buffer.runs().len() <= buffer.range_cap
                },
    {
        assert forall|i: int| 0 <= i < self@.sets.len() implies {
            let buffer = (#[trigger] self@.sets[i]).buffer;
            &&& buffer.sound()
            &&& buffer.start == 0
            &&& buffer.byte_cap == MAX_DATAGRAM_LEN
            &&& buffer.runs().len() <= buffer.range_cap
        } by {
            assert(self@.sets[i] == self.sets@[i]@);
            law_a_buffer_is_sound(self.sets@[i].buffer);
        }
    }

    /// What is held is bounded whatever arrives: no part-assembled datagram holds more
    /// than the largest datagram, and all of them no more than that for each the cap
    /// allows.
    pub proof fn law_the_bytes_held_are_bounded(&self)
        requires
            self.well_formed(),
        ensures
            forall|i: int|
                0 <= i < self@.sets.len() ==> (#[trigger] self@.sets[i]).buffer.stored()
                    <= MAX_DATAGRAM_LEN,
            total_stored(self@.sets) <= self@.max_sets * MAX_DATAGRAM_LEN,
    {
        assert forall|i: int| 0 <= i < self@.sets.len() implies (
        #[trigger] self@.sets[i]).buffer.stored() <= MAX_DATAGRAM_LEN by {
            assert(self@.sets[i] == self.sets@[i]@);
            self.sets@[i].buffer.lemma_stored_bound();
        }
        lemma_total_bound(self@.sets);
    }

    /// Build a defragmenter from a config section. No limit is below one.
    pub fn new(config: &ReassemblyConfig) -> (defragmenter: Self)
        ensures
            defragmenter.well_formed(),
            defragmenter@ == (DefragModel {
                sets: Seq::empty(),
                max_sets: if config.max_fragment_sets == 0 {
                    1
                } else {
                    config.max_fragment_sets as int
                },
                max_bytes_total: if config.max_fragment_bytes_total == 0 {
                    1
                } else {
                    config.max_fragment_bytes_total as int
                },
                timeout: defragmenter@.timeout,
                counters: DefragCounters::zero(),
                last_sweep: None,
            }),
            defragmenter@.timeout.nanos == 1_000_000_000 * (if config.fragment_timeout_secs == 0 {
                1
            } else {
                config.fragment_timeout_secs as int
            }),
    {
        let defragmenter = Self {
            sets: Vec::new(),
            max_sets: if config.max_fragment_sets == 0 {
                1
            } else {
                config.max_fragment_sets
            },
            max_bytes_total: if config.max_fragment_bytes_total == 0 {
                1
            } else {
                config.max_fragment_bytes_total
            },
            timeout: Duration::from_secs(
                if config.fragment_timeout_secs == 0 {
                    1
                } else {
                    config.fragment_timeout_secs
                },
            ),
            counters: DefragCounters::default(),
            last_sweep: None,
        };
        assert(defragmenter@.sets =~= Seq::<SetModel>::empty());
        defragmenter
    }

    /// Running totals.
    pub fn counters(&self) -> (counters: DefragCounters)
        ensures
            counters == self@.counters,
    {
        self.counters
    }

    /// Datagrams currently part-assembled.
    pub fn active_sets(&self) -> (count: usize)
        ensures
            count == self@.sets.len(),
    {
        self.sets.len()
    }

    /// Maximum datagrams that can be part-assembled at once.
    pub fn capacity(&self) -> (capacity: usize)
        ensures
            capacity == self@.max_sets,
    {
        self.max_sets
    }

    /// Bytes currently held across all part-assembled datagrams.
    pub fn buffered_bytes(&self) -> (held: usize)
        requires
            self.well_formed(),
            total_stored(self@.sets) <= usize::MAX,
        ensures
            held == total_stored(self@.sets),
    {
        let ghost models = self@.sets;
        let mut total: usize = 0;
        let mut i: usize = 0;
        while i < self.sets.len()
            invariant
                self.well_formed(),
                models == self@.sets,
                total_stored(models) <= usize::MAX,
                i <= models.len(),
                total == total_stored(models.take(i as int)),
            decreases models.len() - i,
        {
            proof {
                assert(models.take(i + 1).drop_last() =~= models.take(i as int));
                assert(models.take(i + 1).last() == models[i as int]);
                assert(models[i as int] == self.sets@[i as int]@);
                lemma_stored_take(models, i + 1);
            }
            total = total + self.sets[i].buffer.buffered_bytes();
            i = i + 1;
        }
        assert(models.take(i as int) =~= models);
        total
    }

    fn maybe_sweep(&mut self, now: Timestamp)
        requires
            old(self).well_formed(),
            old(self)@.counters.timed_out + old(self)@.sets.len() <= u64::MAX,
        ensures
            final(self).well_formed(),
            final(self)@ == old(self)@.maybe_swept(now),
    {
        let due = match self.last_sweep {
            None => true,
            Some(last) => match now.duration_since(last) {
                Some(elapsed) => elapsed.nanos >= SWEEP_INTERVAL_NANOS,
                None => false,
            },
        };
        if due {
            self.sweep(now);
        }
    }

    /// Discard fragment sets that have been incomplete for too long.
    pub fn sweep(&mut self, now: Timestamp)
        requires
            old(self).well_formed(),
            old(self)@.counters.timed_out + old(self)@.sets.len() <= u64::MAX,
        ensures
            final(self).well_formed(),
            final(self)@ == old(self)@.swept(now),
    {
        let ghost before = *self;
        let ghost models = self@.sets;
        let ghost stays = |set: SetModel| set.idle(now) < before@.timeout.nanos;
        self.last_sweep = Some(now);
        let timeout: u128 = self.timeout.nanos;
        let count: usize = self.sets.len();
        let mut sets: Vec<FragmentSet> = Vec::new();
        std::mem::swap(&mut sets, &mut self.sets);
        let ghost all = sets@;
        proof {
            reveal(Seq::filter);
            assert(models.take(0) =~= Seq::<SetModel>::empty());
            assert(set_models(self.sets@) =~= Seq::<SetModel>::empty());
        }
        for set in it: sets
            invariant
                it.seq() == all,
                before.well_formed(),
                models == before@.sets,
                models == set_models(all),
                all == before.sets@,
                stays == (|set: SetModel| set.idle(now) < before@.timeout.nanos),
                timeout == before@.timeout.nanos,
                self.max_sets == before.max_sets,
                self.max_bytes_total == before.max_bytes_total,
                self.timeout == before.timeout,
                self.counters == before.counters,
                self.last_sweep == Some(now),
                set_models(self.sets@) == models.take(it.index() as int).filter(stays),
                forall|i: int|
                    0 <= i < self.sets@.len() ==> (#[trigger] self.sets@[i]).buffer.well_formed()
                        && self.sets@[i].buffer@.start == 0 && self.sets@[i].buffer@.byte_cap
                        == MAX_DATAGRAM_LEN,
        {
            let ghost k = it.index() as int;
            let ghost kept = models.take(k).filter(stays);
            proof {
                assert(set == all[k]);
                assert(models[k] == set@);
                assert(before.sets@[k].buffer.well_formed());
                reveal(Seq::filter);
                assert(models.take(k + 1).drop_last() =~= models.take(k));
                assert(models.take(k + 1).last() == set@);
            }
            let idle: u128 = match now.duration_since(set.last_seen) {
                Some(elapsed) => elapsed.nanos,
                None => 0,
            };
            if idle < timeout {
                assert(stays(set@));
                self.sets.push(set);
                assert(set_models(self.sets@) =~= kept.push(set@));
            }
        }
        proof {
            assert(models.take(models.len() as int) =~= models);
            lemma_set_filter(models, stays);
        }
        self.counters.timed_out = self.counters.timed_out + (count - self.sets.len()) as u64;
    }

    /// Find the first of the sets that were started earliest.
    fn earliest_set(&self) -> (place: usize)
        requires
            self.sets@.len() > 0,
        ensures
            place == earliest(self@.sets),
            place < self.sets@.len(),
    {
        let mut place: usize = 0;
        let mut i: usize = 1;
        let ghost models = self@.sets;
        assert(earliest(models.take(1)) == 0);
        while i < self.sets.len()
            invariant
                models == self@.sets,
                1 <= i <= models.len(),
                place < i,
                place == earliest(models.take(i as int)),
            decreases models.len() - i,
        {
            assert(models.take(i + 1).drop_last() =~= models.take(i as int));
            assert(models.take(i + 1).last() == models[i as int]);
            assert(models.take(i + 1)[place as int] == models[place as int]);
            assert(self.sets@[i as int]@ == models[i as int]);
            assert(self.sets@[place as int]@ == models[place as int]);
            if self.sets[i].first_seen.nanos < self.sets[place].first_seen.nanos {
                place = i;
            }
            i = i + 1;
        }
        assert(models.take(i as int) =~= models);
        place
    }

    /// Evict a batch of the sets that were started earliest.
    fn relieve(&mut self)
        requires
            old(self).well_formed(),
            old(self)@.counters.evicted + old(self)@.sets.len() <= u64::MAX,
        ensures
            final(self).well_formed(),
            final(self)@ == old(self)@.relieved(),
            final(self)@.sets.len() < old(self)@.sets.len() || final(self)@.sets.len() == 0,
            final(self)@.sets.len() <= old(self)@.sets.len(),
            forall|i: int|
                0 <= i < final(self)@.sets.len() ==> old(self)@.sets.contains(
                    #[trigger] final(self)@.sets[i],
                ),
            total_stored(final(self)@.sets) <= total_stored(old(self)@.sets),
    {
        let ghost before = *self;
        let ghost models = self@.sets;
        let tenth: usize = self.max_sets / EVICTION_BATCH_FRACTION;
        let batch: usize = if tenth == 0 {
            1
        } else {
            tenth
        };
        assert(batch == before@.batch());
        let mut done: usize = 0;
        proof {
            assert forall|i: int| 0 <= i < models.len() implies models.contains(
                #[trigger] models[i],
            ) by {}
        }
        while done < batch && self.sets.len() > 0
            invariant
                self.well_formed(),
                batch == before@.batch(),
                1 <= batch,
                done <= batch,
                models == before@.sets,
                self@.max_sets == before@.max_sets,
                self@.max_bytes_total == before@.max_bytes_total,
                self@.timeout == before@.timeout,
                self@.last_sweep == before@.last_sweep,
                before@.counters.evicted + models.len() <= u64::MAX,
                self@.sets.len() <= models.len(),
                self@.counters == (DefragCounters {
                    evicted: (before@.counters.evicted + (models.len() - self@.sets.len())) as u64,
                    ..before@.counters
                }),
                spared(self@.sets, (batch - done) as nat) == spared(models, batch as nat),
                done > 0 ==> self@.sets.len() < models.len(),
                forall|i: int|
                    0 <= i < self@.sets.len() ==> models.contains(#[trigger] self@.sets[i]),
                total_stored(self@.sets) <= total_stored(models),
            decreases batch - done,
        {
            let place: usize = self.earliest_set();
            let ghost current = self@.sets;
            let ghost sets_before = self.sets@;
            proof {
                lemma_stored_remove(current, place as int);
                lemma_distinct_remove(current, place as int);
            }
            let _evicted = self.sets.remove(place);
            assert(set_models(self.sets@) =~= current.remove(place as int));
            self.counters.evicted = self.counters.evicted + 1;
            proof {
                let rest = current.remove(place as int);
                assert forall|i: int| 0 <= i < rest.len() implies models.contains(
                    #[trigger] rest[i],
                ) by {
                    let j = if i < place { i } else { i + 1 };
                    assert(rest[i] == current[j]);
                }
                assert forall|i: int| 0 <= i < self.sets@.len() implies (
                #[trigger] self.sets@[i]).buffer.well_formed() && self.sets@[i].buffer@.start == 0
                    && self.sets@[i].buffer@.byte_cap == MAX_DATAGRAM_LEN by {
                    let j = if i < place { i } else { i + 1 };
                    assert(self.sets@[i] == sets_before[j]);
                    assert(sets_before[j].buffer.well_formed());
                }
            }
            done = done + 1;
        }
    }

    /// Make room for one more datagram.
    fn make_room(&mut self, now: Timestamp)
        requires
            old(self).well_formed(),
            total_stored(old(self)@.sets) <= usize::MAX,
            old(self)@.counters.timed_out + old(self)@.sets.len() <= u64::MAX,
            old(self)@.counters.evicted + old(self)@.sets.len() <= u64::MAX,
        ensures
            final(self).well_formed(),
            final(self)@ == old(self)@.with_room(now),
            final(self)@.sets.len() < old(self)@.max_sets,
            forall|i: int|
                0 <= i < final(self)@.sets.len() ==> old(self)@.sets.contains(
                    #[trigger] final(self)@.sets[i],
                ),
            total_stored(final(self)@.sets) <= total_stored(old(self)@.sets),
    {
        let ghost models = self@.sets;
        if self.sets.len() < self.max_sets && self.buffered_bytes() < self.max_bytes_total {
            return;
        }

        // Timeouts first: dropping something already dead costs no visibility.
        let ghost stays = |set: SetModel| set.idle(now) < old(self)@.timeout.nanos;
        proof {
            lemma_set_filter(models, stays);
        }
        self.sweep(now);
        assert(self@.sets == models.filter(stays));
        if self.sets.len() < self.max_sets && self.buffered_bytes() < self.max_bytes_total {
            return;
        }

        // Still over: evict the oldest. This is where a fragment flood starts
        // costing coverage, so it is counted rather than absorbed quietly.
        let ghost middle = self@.sets;
        self.relieve();
        proof {
            assert forall|i: int| 0 <= i < self@.sets.len() implies models.contains(
                #[trigger] self@.sets[i],
            ) by {
                assert(middle.contains(self@.sets[i]));
                let j = choose|j: int| 0 <= j < middle.len() && middle[j] == self@.sets[i];
                assert(models.contains(models.filter(stays)[j]));
            }
        }
    }
}

proof fn lemma_stored_take(sets: Seq<SetModel>, k: int)
    requires
        0 <= k <= sets.len(),
    ensures
        0 <= total_stored(sets.take(k)) <= total_stored(sets),
    decreases sets.len(),
{
    if sets.len() == 0 {
        assert(sets.take(k) =~= sets);
    } else if k == sets.len() {
        assert(sets.take(k) =~= sets);
        lemma_stored_take(sets.drop_last(), k - 1);
        assert(sets.drop_last().take(k - 1) =~= sets.drop_last());
    } else {
        lemma_stored_take(sets.drop_last(), k);
        assert(sets.drop_last().take(k) =~= sets.take(k));
        assert(sets.drop_last().take(sets.len() - 1) =~= sets.drop_last());
    }
}

proof fn lemma_stored_remove(sets: Seq<SetModel>, k: int)
    requires
        0 <= k < sets.len(),
    ensures
        total_stored(sets.remove(k)) == total_stored(sets) - sets[k].buffer.stored(),
    decreases sets.len(),
{
    if k == sets.len() - 1 {
        assert(sets.remove(k) =~= sets.drop_last());
    } else {
        lemma_stored_remove(sets.drop_last(), k);
        assert(sets.remove(k).drop_last() =~= sets.drop_last().remove(k));
        assert(sets.remove(k).last() == sets.last());
    }
}

proof fn lemma_set_filter(sets: Seq<SetModel>, p: spec_fn(SetModel) -> bool)
    ensures
        sets.filter(p).len() <= sets.len(),
        forall|i: int|
            0 <= i < sets.filter(p).len() ==> sets.contains(#[trigger] sets.filter(p)[i]),
        0 <= total_stored(sets.filter(p)) <= total_stored(sets),
        distinct_sets(sets) ==> distinct_sets(sets.filter(p)),
    decreases sets.len(),
{
    reveal(Seq::filter);
    if sets.len() > 0 {
        let init = sets.drop_last();
        lemma_set_filter(init, p);
        assert forall|i: int| 0 <= i < sets.filter(p).len() implies sets.contains(
            #[trigger] sets.filter(p)[i],
        ) by {
            if i < init.filter(p).len() {
                assert(init.contains(init.filter(p)[i]));
                let j = choose|j: int| 0 <= j < init.len() && init[j] == init.filter(p)[i];
                assert(sets[j] == sets.filter(p)[i]);
            } else {
                assert(sets[sets.len() - 1] == sets.filter(p)[i]);
            }
        }
        if p(sets.last()) {
            assert(sets.filter(p).drop_last() =~= init.filter(p));
        }
        if distinct_sets(sets) {
            assert forall|i: int, j: int| 0 <= i < j < init.len() implies (#[trigger] init[i]).key
                != (#[trigger] init[j]).key by {
                assert(sets[i].key != sets[j].key);
            }
            assert forall|i: int, j: int| 0 <= i < j < sets.filter(p).len() implies (
            #[trigger] sets.filter(p)[i]).key != (#[trigger] sets.filter(p)[j]).key by {
                if j < init.filter(p).len() {
                    assert(init.filter(p)[i].key != init.filter(p)[j].key);
                } else {
                    assert(init.contains(init.filter(p)[i]));
                    let k = choose|k: int| 0 <= k < init.len() && init[k] == init.filter(p)[i];
                    assert(sets[k].key != sets[sets.len() - 1].key);
                }
            }
        }
    }
}

proof fn lemma_distinct_remove(sets: Seq<SetModel>, k: int)
    requires
        distinct_sets(sets),
        0 <= k < sets.len(),
    ensures
        distinct_sets(sets.remove(k)),
{
    let rest = sets.remove(k);
    assert forall|i: int, j: int| 0 <= i < j < rest.len() implies (#[trigger] rest[i]).key != (
    #[trigger] rest[j]).key by {
        let a = if i < k { i } else { i + 1 };
        let b = if j < k { j } else { j + 1 };
        assert(sets[a].key != sets[b].key);
    }
}

proof fn lemma_set_index(sets: Seq<SetModel>, k: int)
    requires
        distinct_sets(sets),
        0 <= k < sets.len(),
    ensures
        has_set(sets, sets[k].key),
        set_index(sets, sets[k].key) == k,
{
    let i = set_index(sets, sets[k].key);
    assert(0 <= i < sets.len() && sets[i].key == sets[k].key);
    if i < k {
        assert(sets[i].key != sets[k].key);
    } else if k < i {
        assert(sets[k].key != sets[i].key);
    }
}

impl FragmentSet {
    /// Start assembling a datagram.
    fn start(key: FragmentKey, now: Timestamp) -> (set: Self)
        ensures
            set.buffer.well_formed(),
            set@ == SetModel::fresh(key, now),
    {
        Self {
            key,
            buffer: RangeBuffer::new(0, MAX_DATAGRAM_LEN as usize, MAX_HOLES_PER_DATAGRAM),
            first_seen: now,
            last_seen: now,
            total_len: None,
            fragments: 0,
            conflicting_bytes: 0,
        }
    }

    /// Take in a fragment of the datagram.
    fn take_in(&mut self, fragment: &FragmentView<'_>, now: Timestamp, policy: OverlapPolicy) -> (outcome:
        super::range_buffer::WriteOutcome)
        requires
            old(self).buffer.well_formed(),
            old(self)@.fragments < u32::MAX,
            old(self)@.conflicting_bytes + MAX_DATAGRAM_LEN <= u64::MAX,
            fragment.end() <= MAX_DATAGRAM_LEN,
        ensures
            final(self).buffer.well_formed(),
            final(self)@ == old(self)@.after(*fragment, now, policy),
            outcome == old(self)@.buffer.outcome(fragment.start(), fragment.payload@, policy),
            outcome.overlapped <= MAX_DATAGRAM_LEN,
            outcome.conflicting <= MAX_DATAGRAM_LEN,
            outcome.refused <= MAX_DATAGRAM_LEN,
    {
        self.fragments = self.fragments + 1;
        if now.nanos > self.last_seen.nanos {
            self.last_seen = now;
        }
        let offset: u64 = fragment.offset as u64 * 8;
        proof {
            law_a_buffer_is_sound(self.buffer);
            super::stream::lemma_outcome_bounds(
                self.buffer@,
                offset as int,
                fragment.payload@,
                policy,
            );
        }
        let outcome = self.buffer.write(offset, fragment.payload, policy);
        self.conflicting_bytes = self.conflicting_bytes + outcome.conflicting;
        if !fragment.more_fragments && self.total_len.is_none() {
            // The final fragment fixes the datagram's length. A second,
            // contradicting "final" fragment is an evasion attempt; the first
            // claim is kept.
            self.total_len = Some(offset + fragment.payload.len() as u64);
        }
        outcome
    }

    /// Whether every byte up to the datagram's length has arrived.
    fn is_complete(&self) -> (complete: bool)
        requires
            self.buffer.well_formed(),
        ensures
            complete == self@.complete(),
    {
        match self.total_len {
            Some(total) => self.buffer.contiguous_end() >= total,
            None => false,
        }
    }
}

impl Defragmenter {
    /// Find the set of a datagram.
    fn find(&self, key: &FragmentKey) -> (place: Option<usize>)
        requires
            self.well_formed(),
        ensures
            place is Some <==> has_set(self@.sets, *key),
            place matches Some(i) ==> i < self.sets@.len() && self@.sets[i as int].key == *key
                && i == set_index(self@.sets, *key),
    {
        let ghost models = self@.sets;
        let mut i: usize = 0;
        while i < self.sets.len()
            invariant
                self.well_formed(),
                models == self@.sets,
                i <= models.len(),
                forall|j: int| 0 <= j < i ==> (#[trigger] models[j]).key != *key,
            decreases models.len() - i,
        {
            assert(self.sets@[i as int]@ == models[i as int]);
            if self.sets[i].key == *key {
                proof {
                    lemma_set_index(models, i as int);
                }
                return Some(i);
            }
            i = i + 1;
        }
        None
    }

    /// Put the set of a datagram among the sets, and say where it stands.
    fn hold(&mut self, key: FragmentKey, now: Timestamp) -> (place: usize)
        requires
            old(self).well_formed(),
            old(self)@.counters.at_most(u64::MAX - old(self)@.sets.len() - 1),
            total_stored(old(self)@.sets) <= usize::MAX,
            forall|i: int|
                0 <= i < old(self)@.sets.len() ==> (#[trigger] old(self)@.sets[i]).fragments
                    < u32::MAX && old(self)@.sets[i].conflicting_bytes + MAX_DATAGRAM_LEN
                    <= u64::MAX,
        ensures
            final(self).well_formed(),
            final(self)@ == old(self)@.holding(key, now),
            place < final(self)@.sets.len(),
            place == set_index(final(self)@.sets, key),
            final(self)@.sets[place as int].key == key,
            final(self)@.sets[place as int].fragments < u32::MAX,
            final(self)@.sets[place as int].conflicting_bytes + MAX_DATAGRAM_LEN <= u64::MAX,
    {
        let ghost models = self@.sets;
        match self.find(&key) {
            Some(place) => place,
            None => {
                self.make_room(now);
                let ghost roomy = self@.sets;
                let set = FragmentSet::start(key, now);
                let place: usize = self.sets.len();
                self.counters.started = self.counters.started + 1;
                self.sets.push(set);
                proof {
                    let sets = self@.sets;
                    assert(sets =~= roomy.push(set@));
                    assert forall|i: int, j: int| 0 <= i < j < sets.len() implies (
                    #[trigger] sets[i]).key != (#[trigger] sets[j]).key by {
                        if j < roomy.len() {
                            assert(roomy[i].key != roomy[j].key);
                        } else {
                            assert(models.contains(roomy[i]));
                            let k = choose|k: int| 0 <= k < models.len() && models[k] == roomy[i];
                            assert(models[k].key != key);
                        }
                    }
                    lemma_set_index(sets, place as int);
                }
                place
            },
        }
    }

    /// Take a fragment into the set at `place`. Returns whether that completed
    /// the datagram.
    fn advance(
        &mut self,
        place: usize,
        fragment: &FragmentView<'_>,
        now: Timestamp,
        policy: OverlapPolicy,
    ) -> (complete: bool)
        requires
            old(self).well_formed(),
            place < old(self)@.sets.len(),
            old(self)@.sets[place as int].fragments < u32::MAX,
            old(self)@.sets[place as int].conflicting_bytes + MAX_DATAGRAM_LEN <= u64::MAX,
            old(self)@.counters.overlaps + MAX_DATAGRAM_LEN <= u64::MAX,
            old(self)@.counters.conflicting_overlaps + MAX_DATAGRAM_LEN <= u64::MAX,
            old(self)@.counters.refused_bytes + MAX_DATAGRAM_LEN <= u64::MAX,
            fragment.end() <= MAX_DATAGRAM_LEN,
        ensures
            final(self).well_formed(),
            ({
                let set = old(self)@.sets[place as int];
                let outcome = set.buffer.outcome(fragment.start(), fragment.payload@, policy);
                let after = set.after(*fragment, now, policy);
                &&& complete == after.complete()
                &&& final(self)@ == (DefragModel {
                    sets: old(self)@.sets.update(place as int, after),
                    counters: DefragCounters {
                        overlaps: (old(self)@.counters.overlaps + outcome.overlapped) as u64,
                        conflicting_overlaps: (old(self)@.counters.conflicting_overlaps
                            + outcome.conflicting) as u64,
                        refused_bytes: (old(self)@.counters.refused_bytes + outcome.refused) as u64,
                        ..old(self)@.counters
                    },
                    ..old(self)@
                })
            }),
    {
        let ghost before = *self;
        let ghost sets = self@.sets;
        proof {
            assert(sets[place as int] == self.sets@[place as int]@);
            assert(self.sets@[place as int].buffer.well_formed());
        }
        let set = &mut self.sets[place];
        let outcome = set.take_in(fragment, now, policy);
        let complete = set.is_complete();
        self.counters.overlaps = self.counters.overlaps + outcome.overlapped;
        self.counters.conflicting_overlaps = self.counters.conflicting_overlaps
            + outcome.conflicting;
        self.counters.refused_bytes = self.counters.refused_bytes + outcome.refused;
        proof {
            let after = sets[place as int].after(*fragment, now, policy);
            assert(self@.sets =~= sets.update(place as int, after));
            assert forall|i: int| 0 <= i < self.sets@.len() implies (
            #[trigger] self.sets@[i]).buffer.well_formed() && self.sets@[i].buffer@.start == 0
                && self.sets@[i].buffer@.byte_cap == MAX_DATAGRAM_LEN by {
                assert(before.sets@[i].buffer.well_formed());
                if i != place {
                    assert(self.sets@[i] == before.sets@[i]);
                }
            }
            assert forall|i: int, j: int| 0 <= i < j < self@.sets.len() implies (
            #[trigger] self@.sets[i]).key != (#[trigger] self@.sets[j]).key by {
                assert(sets[i].key != sets[j].key);
            }
        }
        complete
    }

    /// Move a completed datagram out.
    fn finish(&mut self, place: usize) -> (datagram: Reassembled)
        requires
            old(self).well_formed(),
            place < old(self)@.sets.len(),
            old(self)@.sets[place as int].complete(),
            old(self)@.counters.completed < u64::MAX,
        ensures
            final(self).well_formed(),
            final(self)@ == (DefragModel {
                sets: old(self)@.sets.remove(place as int),
                counters: DefragCounters {
                    completed: (old(self)@.counters.completed + 1) as u64,
                    ..old(self)@.counters
                },
                ..old(self)@
            }),
            ({
                let set = old(self)@.sets[place as int];
                &&& datagram.source == set.key.source
                &&& datagram.destination == set.key.destination
                &&& datagram.protocol == set.key.protocol
                &&& datagram.data@ == set.data()
                &&& datagram.data@.len() == set.total_len->0
                &&& datagram.fragments == set.fragments
                &&& datagram.conflicting_bytes == set.conflicting_bytes
            }),
    {
        let ghost before = *self;
        proof {
            lemma_distinct_remove(before@.sets, place as int);
            assert(before@.sets[place as int] == before.sets@[place as int]@);
            assert(before.sets@[place as int].buffer.well_formed());
        }
        let mut set = self.sets.remove(place);
        let total: u64 = match set.total_len {
            Some(total) => total,
            None => 0,
        };
        let mut data: Vec<u8> = Vec::new();
        set.buffer.drain_contiguous_upto(total, &mut data);
        self.counters.completed = self.counters.completed + 1;
        proof {
            assert(data@ =~= before@.sets[place as int].data());
            assert(self@.sets =~= before@.sets.remove(place as int));
            assert forall|i: int| 0 <= i < self.sets@.len() implies (
            #[trigger] self.sets@[i]).buffer.well_formed() && self.sets@[i].buffer@.start == 0
                && self.sets@[i].buffer@.byte_cap == MAX_DATAGRAM_LEN by {
                let j = if i < place { i } else { i + 1 };
                assert(self.sets@[i] == before.sets@[j]);
                assert(before.sets@[j].buffer.well_formed());
            }
        }
        Reassembled {
            source: set.key.source,
            destination: set.key.destination,
            protocol: set.key.protocol,
            data,
            fragments: set.fragments,
            conflicting_bytes: set.conflicting_bytes,
        }
    }

    /// Offer a fragment. Returns the datagram once the last piece arrives.
    pub fn push(&mut self, fragment: &FragmentView<'_>, now: Timestamp, policy: OverlapPolicy) -> (datagram:
        Option<Reassembled>)
        requires
            old(self).well_formed(),
            old(self)@.has_room(),
        ensures
            final(self).well_formed(),
            final(self)@ == old(self)@.pushed(*fragment, now, policy),
            datagram is Some <==> old(self)@.completes(*fragment, now, policy),
            datagram matches Some(datagram) ==> {
                let set = old(self)@.advanced(*fragment, now, policy);
                &&& datagram.source == fragment.source
                &&& datagram.destination == fragment.destination
                &&& datagram.protocol == fragment.protocol
                &&& datagram.data@ == set.data()
                &&& datagram.data@.len() == set.total_len->0
                &&& datagram.fragments == set.fragments
                &&& datagram.conflicting_bytes == set.conflicting_bytes
            },
    {
        let ghost models = self@.sets;
        let ghost start = self@;
        let ghost stays = |set: SetModel| set.idle(now) < start.timeout.nanos;
        self.counters.fragments = self.counters.fragments + 1;
        proof {
            lemma_set_filter(models, stays);
        }
        self.maybe_sweep(now);
        proof {
            assert(self@ == start.counted(now));
            assert forall|i: int| 0 <= i < self@.sets.len() implies (
            #[trigger] self@.sets[i]).fragments < u32::MAX && self@.sets[i].conflicting_bytes
                + MAX_DATAGRAM_LEN <= u64::MAX by {
                if start.sweep_due(now) {
                    assert(models.contains(models.filter(stays)[i]));
                    let j = choose|j: int|
                        0 <= j < models.len() && models[j] == models.filter(stays)[i];
                    assert(models[j].fragments < u32::MAX);
                } else {
                    assert(models[i].fragments < u32::MAX);
                }
            }
        }
        let offset: u64 = fragment.offset as u64 * 8;
        let end: u64 = offset.saturating_add(fragment.payload.len() as u64);

        // A datagram cannot exceed 65535 bytes. A fragment claiming otherwise
        // is not a real datagram being split, it is an attempt to make the
        // sensor allocate for one.
        if end > MAX_DATAGRAM_LEN {
            self.counters.oversized = self.counters.oversized + 1;
            return None;
        }

        // Every fragment but the last must be a multiple of 8 bytes. Stacks
        // disagree about what to do with one that is not, which makes it an
        // ambiguity worth counting.
        if fragment.more_fragments && fragment.payload.len() % 8 != 0 {
            self.counters.misaligned = self.counters.misaligned + 1;
        }
        let key = FragmentKey {
            source: fragment.source,
            destination: fragment.destination,
            identification: fragment.identification,
            protocol: fragment.protocol,
        };
        let place: usize = self.hold(key, now);
        assert(self@ == start.accepting(*fragment, now));
        let ghost sets = self@.sets;
        let complete = self.advance(place, fragment, now, policy);
        if !complete {
            return None;
        }
        proof {
            let after = sets[place as int].after(*fragment, now, policy);
            assert(sets.update(place as int, after).remove(place as int) =~= sets.remove(
                place as int,
            ));
        }
        Some(self.finish(place))
    }
}

/// A second, contradicting final fragment does not rewrite a datagram's length.
pub proof fn law_the_first_final_fragment_fixes_the_length(
    set: SetModel,
    fragment: FragmentView,
    now: Timestamp,
    policy: OverlapPolicy,
)
    requires
        set.total_len is Some,
    ensures
        set.after(fragment, now, policy).total_len == set.total_len,
{
}

/// Of an eviction, whoever goes was started no later than whoever stays.
pub proof fn law_eviction_takes_the_earliest(sets: Seq<SetModel>)
    requires
        sets.len() > 0,
    ensures
        0 <= earliest(sets) < sets.len(),
        forall|i: int|
            0 <= i < sets.len() ==> sets[earliest(sets)].first_seen.nanos <= (
            #[trigger] sets[i]).first_seen.nanos,
    decreases sets.len(),
{
    if sets.len() > 1 {
        let init = sets.drop_last();
        law_eviction_takes_the_earliest(init);
        assert forall|i: int| 0 <= i < sets.len() implies sets[earliest(sets)].first_seen.nanos <= (
        #[trigger] sets[i]).first_seen.nanos by {
            if i < init.len() {
                assert(init[i] == sets[i]);
            }
        }
    }
}

/// A fragment that brings a piece of a datagram where it belongs leaves a set that
/// holds parts of the datagram holding parts of it, in whatever order the pieces
/// come.
pub proof fn law_fragments_of_a_datagram_fit(
    set: SetModel,
    datagram: Seq<u8>,
    fragment: FragmentView,
    now: Timestamp,
    policy: OverlapPolicy,
)
    requires
        holds_part_of(set.buffer.bytes, datagram),
        fragment.end() <= datagram.len(),
        fragment.payload@ == datagram.subrange(fragment.start(), fragment.end()),
    ensures
        holds_part_of(set.after(fragment, now, policy).buffer.bytes, datagram),
{
    law_pieces_of_a_message_fit(
        set.buffer,
        datagram,
        fragment.start(),
        fragment.payload@.len() as int,
        policy,
    );
}

/// A fragment as it arrives: with the time, and the policy of its destination.
pub struct Arrival<'a> {
    /// The fragment.
    pub fragment: FragmentView<'a>,
    /// When it arrives.
    pub now: Timestamp,
    /// How an overlap with what is there is resolved.
    pub policy: OverlapPolicy,
}

/// The defragmenter after fragments, one after the other.
pub open spec fn after_arrivals(defrag: DefragModel, arrivals: Seq<Arrival>) -> DefragModel
    decreases arrivals.len(),
{
    if arrivals.len() == 0 {
        defrag
    } else {
        let last = arrivals.last();
        after_arrivals(defrag, arrivals.drop_last()).pushed(last.fragment, last.now, last.policy)
    }
}

/// A part-assembled datagram after fragments of it, one after the other.
pub open spec fn set_after(set: SetModel, arrivals: Seq<Arrival>) -> SetModel
    decreases arrivals.len(),
{
    if arrivals.len() == 0 {
        set
    } else {
        let last = arrivals.last();
        set_after(set, arrivals.drop_last()).after(last.fragment, last.now, last.policy)
    }
}

/// The part of a datagram that a fragment brings.
pub open spec fn piece_of(arrival: Arrival) -> Piece {
    Piece {
        offset: arrival.fragment.start(),
        len: arrival.fragment.payload@.len() as int,
        policy: arrival.policy,
    }
}

/// The parts of a datagram that fragments bring.
pub open spec fn pieces_of(arrivals: Seq<Arrival>) -> Seq<Piece> {
    arrivals.map_values(|arrival: Arrival| piece_of(arrival))
}

/// Whether a fragment is one of a datagram: it is addressed to it, it brings what the
/// datagram has there, and it is marked as the last exactly where the datagram ends.
pub open spec fn is_fragment_of(
    fragment: FragmentView,
    key: FragmentKey,
    datagram: Seq<u8>,
) -> bool {
    &&& fragment.key() == key
    &&& fragment.end() <= datagram.len()
    &&& fragment.payload@ == datagram.subrange(fragment.start(), fragment.end())
    &&& !fragment.more_fragments ==> fragment.end() == datagram.len()
}

/// Whether fragments are all of a datagram, and no two further apart in time than an
/// incomplete datagram may stay idle.
pub open spec fn are_fragments_of(
    arrivals: Seq<Arrival>,
    key: FragmentKey,
    datagram: Seq<u8>,
    timeout: Duration,
) -> bool {
    &&& forall|i: int|
        0 <= i < arrivals.len() ==> is_fragment_of(
            (#[trigger] arrivals[i]).fragment,
            key,
            datagram,
        )
    &&& forall|i: int, j: int|
        0 <= i < arrivals.len() && 0 <= j < arrivals.len() ==> (#[trigger] arrivals[j]).now.nanos < (
        #[trigger] arrivals[i]).now.nanos + timeout.nanos
}

/// Whether fragments bring all of a datagram: every byte of it, and its end.
pub open spec fn bring_all(arrivals: Seq<Arrival>, datagram: Seq<u8>) -> bool {
    &&& exists|i: int| 0 <= i < arrivals.len() && !(#[trigger] arrivals[i]).fragment.more_fragments
    &&& forall|at: int| 0 <= at < datagram.len() ==> #[trigger] brought(pieces_of(arrivals), at)
}

/// What fragments of a datagram leave of it: it knows its length as soon as its end
/// came, it holds what came, and it is complete exactly when all of it came.
proof fn lemma_set_after(
    key: FragmentKey,
    start: Timestamp,
    datagram: Seq<u8>,
    arrivals: Seq<Arrival>,
)
    requires
        datagram.len() <= MAX_DATAGRAM_LEN,
        forall|i: int|
            0 <= i < arrivals.len() ==> is_fragment_of(
                (#[trigger] arrivals[i]).fragment,
                key,
                datagram,
            ),
        none_refused(SetModel::fresh(key, start).buffer, datagram, pieces_of(arrivals)),
    ensures
        ({
            let set = set_after(SetModel::fresh(key, start), arrivals);
            let ended = exists|i: int|
                0 <= i < arrivals.len() && !(#[trigger] arrivals[i]).fragment.more_fragments;
            &&& set.key == key
            &&& set.buffer == after_pieces(
                SetModel::fresh(key, start).buffer,
                datagram,
                pieces_of(arrivals),
            )
            &&& set.total_len == if ended {
                Some(datagram.len() as int)
            } else {
                None
            }
            &&& set.fragments == arrivals.len()
            &&& set.conflicting_bytes == 0
            &&& arrivals.len() > 0 ==> set.complete() == bring_all(arrivals, datagram)
            &&& arrivals.len() > 0 && set.complete() ==> set.data() == datagram
        }),
    decreases arrivals.len(),
{
    let fresh = SetModel::fresh(key, start);
    let set = set_after(fresh, arrivals);
    let pieces = pieces_of(arrivals);
    law_an_empty_buffer_is_sound(fresh.buffer);
    if arrivals.len() > 0 {
        let init = arrivals.drop_last();
        let last = arrivals.last();
        let before = set_after(fresh, init);
        assert(pieces.drop_last() =~= pieces_of(init));
        assert(pieces.last() == piece_of(arrivals[arrivals.len() - 1]));
        assert forall|i: int| 0 <= i < init.len() implies is_fragment_of(
            (#[trigger] init[i]).fragment,
            key,
            datagram,
        ) by {
            assert(init[i] == arrivals[i]);
        }
        lemma_set_after(key, start, datagram, init);
        assert(is_fragment_of(arrivals[arrivals.len() - 1].fragment, key, datagram));
        assert(last.fragment.payload@ =~= piece_of(last).of(datagram));
        let ended = exists|i: int|
            0 <= i < arrivals.len() && !(#[trigger] arrivals[i]).fragment.more_fragments;
        let ended_before = exists|i: int|
            0 <= i < init.len() && !(#[trigger] init[i]).fragment.more_fragments;
        if ended_before {
            let i = choose|i: int|
                0 <= i < init.len() && !(#[trigger] init[i]).fragment.more_fragments;
            assert(!arrivals[i].fragment.more_fragments);
        }
        if !last.fragment.more_fragments {
            assert(!arrivals[arrivals.len() - 1].fragment.more_fragments);
        }
        if ended && last.fragment.more_fragments {
            let i = choose|i: int|
                0 <= i < arrivals.len() && !(#[trigger] arrivals[i]).fragment.more_fragments;
            assert(!init[i].fragment.more_fragments);
        }
        assert forall|i: int| 0 <= i < pieces.len() implies (#[trigger] pieces[i]).within(
            datagram,
        ) by {
            assert(is_fragment_of(arrivals[i].fragment, key, datagram));
            assert(pieces[i] == piece_of(arrivals[i]));
        }
        lemma_no_conflict(key, start, datagram, arrivals);
        law_pieces_are_kept_in_any_order(fresh.buffer, datagram, pieces);
        if bring_all(arrivals, datagram) {
            law_a_message_comes_back_whole(fresh.buffer, datagram, pieces);
        }
        if set.complete() {
            lemma_up_to_is_stored(set.buffer, datagram.len() as int);
            assert forall|at: int| 0 <= at < datagram.len() implies #[trigger] brought(
                pieces,
                at,
            ) by {
                assert(set.buffer.bytes.contains_key(at));
            }
            law_what_is_contiguous_is_the_message(set.buffer, datagram, datagram.len() as int);
            assert(datagram.subrange(0, datagram.len() as int) =~= datagram);
        }
    } else {
        assert(pieces =~= seq![]);
    }
}

/// No fragment of a datagram contradicts those before it.
proof fn lemma_no_conflict(
    key: FragmentKey,
    start: Timestamp,
    datagram: Seq<u8>,
    arrivals: Seq<Arrival>,
)
    requires
        forall|i: int|
            0 <= i < arrivals.len() ==> is_fragment_of(
                (#[trigger] arrivals[i]).fragment,
                key,
                datagram,
            ),
    ensures
        holds_part_of(set_after(SetModel::fresh(key, start), arrivals).buffer.bytes, datagram),
        arrivals.len() > 0 ==> set_after(
            SetModel::fresh(key, start),
            arrivals.drop_last(),
        ).buffer.outcome(
            arrivals.last().fragment.start(),
            arrivals.last().fragment.payload@,
            arrivals.last().policy,
        ).conflicting == 0,
    decreases arrivals.len(),
{
    if arrivals.len() > 0 {
        let init = arrivals.drop_last();
        let last = arrivals[arrivals.len() - 1];
        assert forall|i: int| 0 <= i < init.len() implies is_fragment_of(
            (#[trigger] init[i]).fragment,
            key,
            datagram,
        ) by {
            assert(init[i] == arrivals[i]);
        }
        lemma_no_conflict(key, start, datagram, init);
        assert(is_fragment_of(last.fragment, key, datagram));
        law_pieces_of_a_message_fit(
            set_after(SetModel::fresh(key, start), init).buffer,
            datagram,
            last.fragment.start(),
            last.fragment.payload@.len() as int,
            last.policy,
        );
    }
}

/// What is contiguous up to an offset is stored up to it.
proof fn lemma_up_to_is_stored(held: Held, to: int)
    requires
        held.sound(),
        to <= held.contiguous_to(),
    ensures
        forall|at: int| held.start <= at < to ==> #[trigger] held.bytes.contains_key(at),
{
    assert forall|at: int| held.start <= at < to implies #[trigger] held.bytes.contains_key(at) by {
        assert(held.runs()[0].has(at));
        assert(covers(held.runs(), at));
    }
}

proof fn lemma_spared_facts(sets: Seq<SetModel>, count: nat)
    ensures
        forall|i: int|
            0 <= i < spared(sets, count).len() ==> sets.contains(#[trigger] spared(sets, count)[i]),
        distinct_sets(sets) ==> distinct_sets(spared(sets, count)),
    decreases count,
{
    if count > 0 && sets.len() > 0 {
        law_eviction_takes_the_earliest(sets);
        let rest = sets.remove(earliest(sets));
        lemma_spared_facts(rest, (count - 1) as nat);
        if distinct_sets(sets) {
            lemma_distinct_remove(sets, earliest(sets));
        }
        assert forall|i: int| 0 <= i < spared(sets, count).len() implies sets.contains(
            #[trigger] spared(sets, count)[i],
        ) by {
            let set = spared(rest, (count - 1) as nat)[i];
            assert(rest.contains(set));
            let k = choose|k: int| 0 <= k < rest.len() && rest[k] == set;
            let a = if k < earliest(sets) { k } else { k + 1 };
            assert(sets[a] == set);
        }
    } else {
        assert forall|i: int| 0 <= i < sets.len() implies sets.contains(#[trigger] sets[i]) by {}
    }
}

/// Sweeping keeps the sets that are not idle, and distinct ones distinct.
proof fn lemma_swept_facts(defrag: DefragModel, now: Timestamp)
    ensures
        distinct_sets(defrag.sets) ==> distinct_sets(defrag.swept(now).sets),
        forall|i: int|
            0 <= i < defrag.swept(now).sets.len() ==> defrag.sets.contains(
                #[trigger] defrag.swept(now).sets[i],
            ),
        forall|set: SetModel|
            defrag.sets.contains(set) && set.idle(now) < defrag.timeout.nanos
                ==> #[trigger] defrag.swept(now).sets.contains(set),
{
    let stays = |set: SetModel| set.idle(now) < defrag.timeout.nanos;
    lemma_set_filter(defrag.sets, stays);
    assert forall|set: SetModel|
        defrag.sets.contains(set) && set.idle(now) < defrag.timeout.nanos implies #[trigger]
        defrag.swept(now).sets.contains(set) by {
        let k = choose|k: int| 0 <= k < defrag.sets.len() && defrag.sets[k] == set;
        assert(stays(defrag.sets[k]));
        defrag.sets.lemma_filter_contains(stays, k);
    }
}

/// The first fragment of a datagram that is not being assembled goes to a fresh set.
proof fn lemma_first_arrival(defrag: DefragModel, fragment: FragmentView, now: Timestamp)
    requires
        distinct_sets(defrag.sets),
        !has_set(defrag.sets, fragment.key()),
    ensures
        ({
            let ready = defrag.accepting(fragment, now);
            &&& distinct_sets(ready.sets)
            &&& ready.sets.contains(SetModel::fresh(fragment.key(), now))
            &&& ready.timeout == defrag.timeout
        }),
{
    let key = fragment.key();
    let counted = defrag.counted(now);
    let plain = DefragModel {
        counters: DefragCounters {
            fragments: (defrag.counters.fragments + 1) as u64,
            ..defrag.counters
        },
        ..defrag
    };
    lemma_swept_facts(plain, now);
    lemma_no_key(plain.sets, plain.swept(now).sets, key);
    let aligned = DefragModel {
        counters: DefragCounters {
            misaligned: (counted.counters.misaligned + if fragment.misaligned() {
                1int
            } else {
                0
            }) as u64,
            ..counted.counters
        },
        ..counted
    };
    assert(distinct_sets(aligned.sets) && !has_set(aligned.sets, key));
    lemma_swept_facts(aligned, now);
    lemma_no_key(aligned.sets, aligned.swept(now).sets, key);
    let swept = aligned.swept(now);
    lemma_spared_facts(swept.sets, swept.batch());
    lemma_no_key(swept.sets, swept.relieved().sets, key);
    let roomy = aligned.with_room(now);
    assert(distinct_sets(roomy.sets) && !has_set(roomy.sets, key));
    let ready = aligned.holding(key, now);
    assert(ready.sets == roomy.sets.push(SetModel::fresh(key, now)));
    assert(ready.sets[roomy.sets.len() as int] == SetModel::fresh(key, now));
    assert forall|i: int, j: int| 0 <= i < j < ready.sets.len() implies (
    #[trigger] ready.sets[i]).key != (#[trigger] ready.sets[j]).key by {
        if j < roomy.sets.len() {
            assert(roomy.sets[i].key != roomy.sets[j].key);
        } else {
            assert(roomy.sets[i].key != key);
        }
    }
}

proof fn lemma_no_key(sets: Seq<SetModel>, some: Seq<SetModel>, key: FragmentKey)
    requires
        !has_set(sets, key),
        forall|i: int| 0 <= i < some.len() ==> sets.contains(#[trigger] some[i]),
    ensures
        !has_set(some, key),
{
    if has_set(some, key) {
        let i = choose|i: int| 0 <= i < some.len() && (#[trigger] some[i]).key == key;
        assert(sets.contains(some[i]));
        let k = choose|k: int| 0 <= k < sets.len() && sets[k] == some[i];
        assert(sets[k].key == key);
    }
}

/// A later fragment of a datagram goes to the set that is there, unless it was idle
/// for too long.
proof fn lemma_later_arrival(
    defrag: DefragModel,
    set: SetModel,
    fragment: FragmentView,
    now: Timestamp,
)
    requires
        distinct_sets(defrag.sets),
        defrag.sets.contains(set),
        set.key == fragment.key(),
        set.idle(now) < defrag.timeout.nanos,
    ensures
        ({
            let ready = defrag.accepting(fragment, now);
            &&& distinct_sets(ready.sets)
            &&& ready.sets.contains(set)
            &&& ready.timeout == defrag.timeout
        }),
{
    let plain = DefragModel {
        counters: DefragCounters {
            fragments: (defrag.counters.fragments + 1) as u64,
            ..defrag.counters
        },
        ..defrag
    };
    lemma_swept_facts(plain, now);
    let counted = defrag.counted(now);
    assert(counted.sets.contains(set));
    let k = choose|k: int| 0 <= k < counted.sets.len() && counted.sets[k] == set;
    assert(counted.sets[k].key == fragment.key());
    assert(has_set(counted.sets, fragment.key()));
}

/// What a fragment that does not complete its datagram leaves of the sets.
proof fn lemma_incomplete_push(
    defrag: DefragModel,
    set: SetModel,
    fragment: FragmentView,
    now: Timestamp,
    policy: OverlapPolicy,
)
    requires
        distinct_sets(defrag.accepting(fragment, now).sets),
        defrag.accepting(fragment, now).sets.contains(set),
        set.key == fragment.key(),
        fragment.end() <= MAX_DATAGRAM_LEN,
    ensures
        defrag.advanced(fragment, now, policy) == set.after(fragment, now, policy),
        defrag.completes(fragment, now, policy) == set.after(fragment, now, policy).complete(),
        !defrag.completes(fragment, now, policy) ==> {
            let after = defrag.pushed(fragment, now, policy);
            &&& distinct_sets(after.sets)
            &&& after.sets.contains(set.after(fragment, now, policy))
            &&& after.timeout == defrag.accepting(fragment, now).timeout
        },
        defrag.completes(fragment, now, policy) ==> !has_set(
            defrag.pushed(fragment, now, policy).sets,
            fragment.key(),
        ),
        defrag.pushed(fragment, now, policy).counters.completed == (defrag.counters.completed
            + if defrag.completes(fragment, now, policy) {
            1int
        } else {
            0
        }) as u64,
        defrag.pushed(fragment, now, policy).counters.conflicting_overlaps == (
        defrag.counters.conflicting_overlaps + set.buffer.outcome(
            fragment.start(),
            fragment.payload@,
            policy,
        ).conflicting) as u64,
{
    let ready = defrag.accepting(fragment, now);
    let k = choose|k: int| 0 <= k < ready.sets.len() && ready.sets[k] == set;
    lemma_set_index(ready.sets, k);
    let next = set.after(fragment, now, policy);
    let after = defrag.pushed(fragment, now, policy);
    if next.complete() {
        let rest = ready.sets.remove(k);
        if has_set(rest, fragment.key()) {
            let i = choose|i: int| 0 <= i < rest.len() && (#[trigger] rest[i]).key
                == fragment.key();
            let a = if i < k { i } else { i + 1 };
            assert(rest[i] == ready.sets[a]);
            if a < k {
                assert(ready.sets[a].key != ready.sets[k].key);
            } else {
                assert(ready.sets[k].key != ready.sets[a].key);
            }
        }
    } else {
        assert(after.sets[k] == next);
        assert forall|i: int, j: int| 0 <= i < j < after.sets.len() implies (
        #[trigger] after.sets[i]).key != (#[trigger] after.sets[j]).key by {
            assert(ready.sets[i].key != ready.sets[j].key);
        }
    }
}

proof fn lemma_last_seen(set: SetModel, arrivals: Seq<Arrival>)
    requires
        arrivals.len() > 0,
        set.last_seen == arrivals[0].now,
    ensures
        exists|i: int|
            0 <= i < arrivals.len() && set_after(set, arrivals).last_seen == (
            #[trigger] arrivals[i]).now,
    decreases arrivals.len(),
{
    let init = arrivals.drop_last();
    let n = arrivals.len() - 1;
    if n > 0 {
        assert(init[0] == arrivals[0]);
        lemma_last_seen(set, init);
        let i = choose|i: int|
            0 <= i < init.len() && set_after(set, init).last_seen == (#[trigger] init[i]).now;
        assert(init[i] == arrivals[i]);
        assert(set_after(set, arrivals).last_seen == arrivals[i].now || set_after(
            set,
            arrivals,
        ).last_seen == arrivals[n].now);
    } else {
        assert(set_after(set, init) == set);
        assert(set_after(set, arrivals).last_seen == arrivals[0].now);
    }
}

/// The set that fragments of a datagram lead to, as long as they do not bring all of
/// it.
proof fn lemma_arrivals_gather(
    defrag: DefragModel,
    key: FragmentKey,
    datagram: Seq<u8>,
    arrivals: Seq<Arrival>,
)
    requires
        distinct_sets(defrag.sets),
        !has_set(defrag.sets, key),
        datagram.len() <= MAX_DATAGRAM_LEN,
        arrivals.len() > 0,
        are_fragments_of(arrivals, key, datagram, defrag.timeout),
        none_refused(
            SetModel::fresh(key, arrivals[0].now).buffer,
            datagram,
            pieces_of(arrivals),
        ),
        !bring_all(arrivals.drop_last(), datagram),
    ensures
        ({
            let init = after_arrivals(defrag, arrivals.drop_last());
            let set = set_after(SetModel::fresh(key, arrivals[0].now), arrivals.drop_last());
            let last = arrivals.last();
            &&& distinct_sets(init.accepting(last.fragment, last.now).sets)
            &&& init.accepting(last.fragment, last.now).sets.contains(set)
            &&& init.accepting(last.fragment, last.now).timeout == defrag.timeout
            &&& set.key == key
            &&& last.fragment.key() == key
            &&& last.fragment.end() <= MAX_DATAGRAM_LEN
            &&& init.counters.completed == defrag.counters.completed
            &&& init.counters.conflicting_overlaps == defrag.counters.conflicting_overlaps
        }),
    decreases arrivals.len(),
{
    let fresh = SetModel::fresh(key, arrivals[0].now);
    let init = arrivals.drop_last();
    let last = arrivals.last();
    let n = arrivals.len() - 1;
    assert(is_fragment_of(arrivals[n].fragment, key, datagram));
    if n == 0 {
        lemma_first_arrival(defrag, last.fragment, last.now);
    } else {
        let pieces = pieces_of(arrivals);
        assert(pieces.drop_last() =~= pieces_of(init));
        assert(init[0] == arrivals[0]);
        assert(are_fragments_of(init, key, datagram, defrag.timeout)) by {
            assert forall|i: int| 0 <= i < init.len() implies is_fragment_of(
                (#[trigger] init[i]).fragment,
                key,
                datagram,
            ) by {
                assert(init[i] == arrivals[i]);
            }
            assert forall|i: int, j: int|
                0 <= i < init.len() && 0 <= j < init.len() implies (#[trigger] init[j]).now.nanos
                < (#[trigger] init[i]).now.nanos + defrag.timeout.nanos by {
                assert(init[i] == arrivals[i] && init[j] == arrivals[j]);
            }
        }
        if bring_all(init.drop_last(), datagram) {
            lemma_bring_all_grows(init, datagram);
        }
        lemma_arrivals_gather(defrag, key, datagram, init);
        let before = after_arrivals(defrag, init.drop_last());
        let newest = init.last();
        let earlier = set_after(fresh, init.drop_last());
        let set = set_after(fresh, init);
        lemma_set_after(key, arrivals[0].now, datagram, init);
        lemma_no_conflict(key, arrivals[0].now, datagram, init);
        lemma_incomplete_push(
            before,
            earlier,
            newest.fragment,
            newest.now,
            newest.policy,
        );
        lemma_last_seen(fresh, init);
        let i = choose|i: int|
            0 <= i < init.len() && set.last_seen == (#[trigger] init[i]).now;
        assert(init[i] == arrivals[i]);
        assert(arrivals[n].now.nanos < arrivals[i].now.nanos + defrag.timeout.nanos);
        lemma_later_arrival(after_arrivals(defrag, init), set, last.fragment, last.now);
    }
}

/// Once fragments bring all of a datagram, more of them still do.
proof fn lemma_bring_all_grows(arrivals: Seq<Arrival>, datagram: Seq<u8>)
    requires
        arrivals.len() > 0,
        bring_all(arrivals.drop_last(), datagram),
    ensures
        bring_all(arrivals, datagram),
{
    let init = arrivals.drop_last();
    let i = choose|i: int| 0 <= i < init.len() && !(#[trigger] init[i]).fragment.more_fragments;
    assert(!arrivals[i].fragment.more_fragments);
    assert forall|at: int| 0 <= at < datagram.len() implies #[trigger] brought(
        pieces_of(arrivals),
        at,
    ) by {
        assert(brought(pieces_of(init), at));
        let k = choose|k: int|
            0 <= k < pieces_of(init).len() && (#[trigger] pieces_of(init)[k]).brings(at);
        assert(pieces_of(init)[k] == pieces_of(arrivals)[k]);
    }
}

/// A datagram split over any fragments, arriving in any order and however often, under
/// any policies, comes back whole with the fragment that brings the last of it, and
/// not before: every earlier one gives nothing. No byte of it conflicted, and one more
/// datagram is counted as completed. Where nothing else was being assembled, nothing is
/// left. Holds where no cap refuses a byte, the
/// datagram was not being assembled before, and no two of its fragments are further
/// apart than the timeout.
pub proof fn law_a_datagram_comes_back_whole(
    defrag: DefragModel,
    key: FragmentKey,
    datagram: Seq<u8>,
    arrivals: Seq<Arrival>,
)
    requires
        distinct_sets(defrag.sets),
        !has_set(defrag.sets, key),
        datagram.len() <= MAX_DATAGRAM_LEN,
        arrivals.len() > 0,
        are_fragments_of(arrivals, key, datagram, defrag.timeout),
        none_refused(
            SetModel::fresh(key, arrivals[0].now).buffer,
            datagram,
            pieces_of(arrivals),
        ),
        !bring_all(arrivals.drop_last(), datagram),
    ensures
        ({
            let before = after_arrivals(defrag, arrivals.drop_last());
            let last = arrivals.last();
            let set = before.advanced(last.fragment, last.now, last.policy);
            &&& before.completes(last.fragment, last.now, last.policy) == bring_all(
                arrivals,
                datagram,
            )
            &&& bring_all(arrivals, datagram) ==> set.data() == datagram
            &&& bring_all(arrivals, datagram) ==> set.total_len == Some(datagram.len() as int)
            &&& bring_all(arrivals, datagram) ==> set.fragments == arrivals.len()
            &&& bring_all(arrivals, datagram) ==> !has_set(
                after_arrivals(defrag, arrivals).sets,
                key,
            )
            &&& set.conflicting_bytes == 0
            &&& after_arrivals(defrag, arrivals).counters.conflicting_overlaps
                == defrag.counters.conflicting_overlaps
            &&& bring_all(arrivals, datagram) && defrag.counters.completed < u64::MAX
                ==> after_arrivals(defrag, arrivals).counters.completed
                == defrag.counters.completed + 1
            &&& bring_all(arrivals, datagram) && defrag.sets.len() == 0 ==> after_arrivals(
                defrag,
                arrivals,
            ).sets.len() == 0
        }),
        forall|k: int|
            0 <= k < arrivals.len() - 1 ==> !after_arrivals(defrag, arrivals.take(k)).completes(
                (#[trigger] arrivals[k]).fragment,
                arrivals[k].now,
                arrivals[k].policy,
            ),
{
    let fresh = SetModel::fresh(key, arrivals[0].now);
    let last = arrivals.last();
    lemma_arrivals_gather(defrag, key, datagram, arrivals);
    lemma_set_after(key, arrivals[0].now, datagram, arrivals);
    lemma_no_conflict(key, arrivals[0].now, datagram, arrivals);
    lemma_incomplete_push(
        after_arrivals(defrag, arrivals.drop_last()),
        set_after(fresh, arrivals.drop_last()),
        last.fragment,
        last.now,
        last.policy,
    );
    if bring_all(arrivals, datagram) && defrag.sets.len() == 0 {
        lemma_all_of_one(defrag, key, arrivals);
        let left = after_arrivals(defrag, arrivals).sets;
        if left.len() > 0 {
            assert(left[0].key == key);
        }
    }
    assert forall|k: int| 0 <= k < arrivals.len() - 1 implies !after_arrivals(
        defrag,
        arrivals.take(k),
    ).completes((#[trigger] arrivals[k]).fragment, arrivals[k].now, arrivals[k].policy) by {
        lemma_earlier_gives_nothing(defrag, key, datagram, arrivals, k);
    }
}

/// Whether all sets are of one datagram.
spec fn all_of(sets: Seq<SetModel>, key: FragmentKey) -> bool {
    forall|i: int| 0 <= i < sets.len() ==> (#[trigger] sets[i]).key == key
}

proof fn lemma_some_of(sets: Seq<SetModel>, some: Seq<SetModel>, key: FragmentKey)
    requires
        all_of(sets, key),
        forall|i: int| 0 <= i < some.len() ==> sets.contains(#[trigger] some[i]),
    ensures
        all_of(some, key),
{
    assert forall|i: int| 0 <= i < some.len() implies (#[trigger] some[i]).key == key by {
        assert(sets.contains(some[i]));
    }
}

/// Fragments of one datagram start no set of another.
proof fn lemma_all_of_one(defrag: DefragModel, key: FragmentKey, arrivals: Seq<Arrival>)
    requires
        defrag.sets.len() == 0,
        forall|i: int| 0 <= i < arrivals.len() ==> (#[trigger] arrivals[i]).fragment.key() == key,
    ensures
        all_of(after_arrivals(defrag, arrivals).sets, key),
    decreases arrivals.len(),
{
    if arrivals.len() > 0 {
        let init = arrivals.drop_last();
        let last = arrivals[arrivals.len() - 1];
        assert forall|i: int| 0 <= i < init.len() implies (#[trigger] init[i]).fragment.key()
            == key by {
            assert(init[i] == arrivals[i]);
        }
        lemma_all_of_one(defrag, key, init);
        let before = after_arrivals(defrag, init);
        let plain = DefragModel {
            counters: DefragCounters {
                fragments: (before.counters.fragments + 1) as u64,
                ..before.counters
            },
            ..before
        };
        lemma_swept_facts(plain, last.now);
        lemma_some_of(plain.sets, plain.swept(last.now).sets, key);
        let counted = before.counted(last.now);
        let aligned = DefragModel {
            counters: DefragCounters {
                misaligned: (counted.counters.misaligned + if last.fragment.misaligned() {
                    1int
                } else {
                    0
                }) as u64,
                ..counted.counters
            },
            ..counted
        };
        lemma_swept_facts(aligned, last.now);
        let swept = aligned.swept(last.now);
        lemma_some_of(aligned.sets, swept.sets, key);
        lemma_spared_facts(swept.sets, swept.batch());
        lemma_some_of(swept.sets, swept.relieved().sets, key);
        let ready = before.accepting(last.fragment, last.now);
        assert(all_of(ready.sets, key));
        let place = set_index(ready.sets, key);
        assert(has_set(ready.sets, key)) by {
            if !has_set(aligned.sets, key) {
                let roomy = aligned.with_room(last.now);
                assert(ready.sets[roomy.sets.len() as int].key == key);
            }
        }
        assert(ready.sets[place].key == key);
    }
}

proof fn lemma_earlier_gives_nothing(
    defrag: DefragModel,
    key: FragmentKey,
    datagram: Seq<u8>,
    arrivals: Seq<Arrival>,
    k: int,
)
    requires
        distinct_sets(defrag.sets),
        !has_set(defrag.sets, key),
        datagram.len() <= MAX_DATAGRAM_LEN,
        are_fragments_of(arrivals, key, datagram, defrag.timeout),
        0 <= k < arrivals.len() - 1,
        none_refused(
            SetModel::fresh(key, arrivals[0].now).buffer,
            datagram,
            pieces_of(arrivals),
        ),
        !bring_all(arrivals.drop_last(), datagram),
    ensures
        !after_arrivals(defrag, arrivals.take(k)).completes(
            arrivals[k].fragment,
            arrivals[k].now,
            arrivals[k].policy,
        ),
    decreases arrivals.len(),
{
    let init = arrivals.drop_last();
    let fresh = SetModel::fresh(key, arrivals[0].now);
    assert(pieces_of(arrivals).drop_last() =~= pieces_of(init));
    assert(init[0] == arrivals[0]);
    assert(are_fragments_of(init, key, datagram, defrag.timeout)) by {
        assert forall|i: int| 0 <= i < init.len() implies is_fragment_of(
            (#[trigger] init[i]).fragment,
            key,
            datagram,
        ) by {
            assert(init[i] == arrivals[i]);
        }
        assert forall|i: int, j: int|
            0 <= i < init.len() && 0 <= j < init.len() implies (#[trigger] init[j]).now.nanos < (
        #[trigger] init[i]).now.nanos + defrag.timeout.nanos by {
            assert(init[i] == arrivals[i] && init[j] == arrivals[j]);
        }
    }
    if bring_all(init.drop_last(), datagram) {
        lemma_bring_all_grows(init, datagram);
    }
    if k < init.len() - 1 {
        lemma_earlier_gives_nothing(defrag, key, datagram, init, k);
        assert(init.take(k) =~= arrivals.take(k));
    } else {
        lemma_arrivals_gather(defrag, key, datagram, init);
        lemma_set_after(key, arrivals[0].now, datagram, init);
        lemma_incomplete_push(
            after_arrivals(defrag, init.drop_last()),
            set_after(fresh, init.drop_last()),
            init.last().fragment,
            init.last().now,
            init.last().policy,
        );
        assert(init.drop_last() =~= arrivals.take(k));
    }
}

/// A datagram of which no more fragments come than there is room for ranges has none
/// of them refused.
pub proof fn law_few_fragments_are_never_refused(
    key: FragmentKey,
    start: Timestamp,
    datagram: Seq<u8>,
    arrivals: Seq<Arrival>,
)
    requires
        datagram.len() <= MAX_DATAGRAM_LEN,
        arrivals.len() <= MAX_HOLES_PER_DATAGRAM,
        forall|i: int|
            0 <= i < arrivals.len() ==> is_fragment_of(
                (#[trigger] arrivals[i]).fragment,
                key,
                datagram,
            ),
    ensures
        none_refused(SetModel::fresh(key, start).buffer, datagram, pieces_of(arrivals)),
{
    let fresh = SetModel::fresh(key, start);
    let pieces = pieces_of(arrivals);
    law_an_empty_buffer_is_sound(fresh.buffer);
    assert forall|i: int| 0 <= i < pieces.len() implies (#[trigger] pieces[i]).within(
        datagram,
    ) by {
        assert(is_fragment_of(arrivals[i].fragment, key, datagram));
        assert(pieces[i] == piece_of(arrivals[i]));
    }
    law_nothing_is_refused_within_the_caps(fresh.buffer, datagram, pieces);
}

/// Whether fragments are cut apart: none is empty, and no two bring the same byte.
pub open spec fn are_cut_apart(arrivals: Seq<Arrival>) -> bool {
    &&& forall|i: int|
        0 <= i < arrivals.len() ==> (#[trigger] arrivals[i]).fragment.payload@.len() > 0
    &&& forall|i: int, j: int, at: int|
        0 <= i < j < arrivals.len() ==> !(#[trigger] piece_of(arrivals[i]).brings(at)
            && #[trigger] piece_of(arrivals[j]).brings(at))
}

/// A datagram cut into no more fragments than there is room for ranges, each sent once
/// in any order to a defragmenter that is assembling nothing, comes back with the last
/// of them: whole, from that many fragments, without a conflict. The earlier ones give
/// nothing, one completion is counted, and nothing is left.
pub proof fn law_a_cut_datagram_comes_back_once(
    defrag: DefragModel,
    key: FragmentKey,
    datagram: Seq<u8>,
    arrivals: Seq<Arrival>,
)
    requires
        defrag.sets.len() == 0,
        datagram.len() <= MAX_DATAGRAM_LEN,
        0 < arrivals.len() <= MAX_HOLES_PER_DATAGRAM,
        are_fragments_of(arrivals, key, datagram, defrag.timeout),
        are_cut_apart(arrivals),
        bring_all(arrivals, datagram),
    ensures
        ({
            let before = after_arrivals(defrag, arrivals.drop_last());
            let last = arrivals.last();
            let set = before.advanced(last.fragment, last.now, last.policy);
            let after = after_arrivals(defrag, arrivals);
            &&& before.completes(last.fragment, last.now, last.policy)
            &&& set.data() == datagram
            &&& set.fragments == arrivals.len()
            &&& set.conflicting_bytes == 0
            &&& after.sets.len() == 0
            &&& defrag.counters.completed < u64::MAX ==> after.counters.completed
                == defrag.counters.completed + 1
        }),
        forall|k: int|
            0 <= k < arrivals.len() - 1 ==> !after_arrivals(defrag, arrivals.take(k)).completes(
                (#[trigger] arrivals[k]).fragment,
                arrivals[k].now,
                arrivals[k].policy,
            ),
{
    let init = arrivals.drop_last();
    let n = arrivals.len() - 1;
    law_few_fragments_are_never_refused(key, arrivals[0].now, datagram, arrivals);
    assert(!bring_all(init, datagram)) by {
        let piece = piece_of(arrivals[n]);
        let at = piece.offset;
        assert(arrivals[n].fragment.payload@.len() > 0);
        assert(is_fragment_of(arrivals[n].fragment, key, datagram));
        assert(piece.brings(at));
        if brought(pieces_of(init), at) {
            let i = choose|i: int|
                0 <= i < pieces_of(init).len() && (#[trigger] pieces_of(init)[i]).brings(at);
            assert(pieces_of(init)[i] == piece_of(arrivals[i]));
            assert(piece_of(arrivals[i]).brings(at));
        }
    }
    law_a_datagram_comes_back_whole(defrag, key, datagram, arrivals);
}

/// What a complete datagram gives is the datagram, where all that it holds is.
pub proof fn law_what_is_complete_is_the_datagram(set: SetModel, datagram: Seq<u8>)
    requires
        set.buffer.sound(),
        set.buffer.start == 0,
        holds_part_of(set.buffer.bytes, datagram),
        set.complete(),
        set.total_len == Some(datagram.len() as int),
    ensures
        set.data() == datagram,
{
    law_what_is_contiguous_is_the_message(set.buffer, datagram, datagram.len() as int);
    assert(datagram.subrange(0, datagram.len() as int) =~= datagram);
}

/// A fragment makes its datagram as fresh as itself and is counted once; it starts at eight
/// times its offset, and the first one without more behind it fixes the length.
pub proof fn law_a_fragment_refreshes_its_datagram(
    set: SetModel,
    fragment: FragmentView,
    now: Timestamp,
    policy: OverlapPolicy,
)
    ensures
        ({
            let after = set.after(fragment, now, policy);
            &&& after.last_seen.nanos >= now.nanos
            &&& after.last_seen.nanos >= set.last_seen.nanos
            &&& after.last_seen == now || after.last_seen == set.last_seen
            &&& after.first_seen == set.first_seen
            &&& after.key == set.key
            &&& after.fragments == set.fragments + 1
            &&& set.total_len is None && !fragment.more_fragments ==> after.total_len == Some(
                8 * fragment.offset + fragment.payload@.len(),
            )
            &&& set.total_len is None && fragment.more_fragments ==> after.total_len is None
            &&& after.buffer == set.buffer.written(
                8 * fragment.offset,
                fragment.payload@,
                policy,
            )
        }),
{
}

/// A sweep drops exactly the datagrams that have been idle for the timeout, and counts them.
pub proof fn law_only_idle_datagrams_time_out(defrag: DefragModel, now: Timestamp, set: SetModel)
    requires
        defrag.sets.contains(set),
        defrag.timeout.nanos > 0,
        defrag.counters.timed_out + defrag.sets.len() <= u64::MAX,
    ensures
        now.nanos < set.last_seen.nanos + defrag.timeout.nanos <==> defrag.swept(now).sets.contains(
            set,
        ),
        defrag.swept(now).counters.timed_out + defrag.swept(now).sets.len()
            == defrag.counters.timed_out + defrag.sets.len(),
        defrag.swept(now).counters.evicted == defrag.counters.evicted,
{
    let stays = |set: SetModel| set.idle(now) < defrag.timeout.nanos;
    let kept = defrag.sets.filter(stays);
    let k = choose|k: int| 0 <= k < defrag.sets.len() && defrag.sets[k] == set;
    defrag.sets.lemma_filter_len(stays);
    if stays(set) {
        assert(stays(defrag.sets[k]));
        defrag.sets.lemma_filter_contains(stays, k);
    } else if kept.contains(set) {
        let j = choose|j: int| 0 <= j < kept.len() && kept[j] == set;
        defrag.sets.lemma_filter_pred(stays, j);
        assert(stays(kept[j]));
    }
}

/// Every fragment is counted; one that would reach past the longest datagram is refused and
/// counted as such, and leaves every datagram as it is; one that is not the last and not a
/// multiple of eight long is counted as misaligned.
pub proof fn law_oversized_and_misaligned_fragments_are_counted(
    defrag: DefragModel,
    fragment: FragmentView,
    now: Timestamp,
    policy: OverlapPolicy,
)
    requires
        defrag.counters.at_most(u64::MAX - defrag.sets.len() - 70_000),
    ensures
        defrag.counted(now).counters.fragments == defrag.counters.fragments + 1,
        8 * fragment.offset + fragment.payload@.len() > 65_535 ==> {
            let after = defrag.pushed(fragment, now, policy);
            &&& after.counters.oversized == defrag.counters.oversized + 1
            &&& after.sets == defrag.counted(now).sets
            &&& after.counters.fragments == defrag.counters.fragments + 1
            &&& !defrag.completes(fragment, now, policy)
        },
        fragment.misaligned() <==> fragment.more_fragments && fragment.payload@.len() % 8 != 0,
        has_set(defrag.counted(now).sets, fragment.key()) ==> defrag.accepting(
            fragment,
            now,
        ).counters.misaligned == defrag.counters.misaligned + if fragment.misaligned() {
            1int
        } else {
            0int
        },
{
    defrag.sets.lemma_filter_len(|set: SetModel| set.idle(now) < defrag.timeout.nanos);
}

/// A sweep is due the first time, and then every five seconds.
pub proof fn law_fragments_are_swept_every_five_seconds(defrag: DefragModel, now: Timestamp)
    ensures
        defrag.last_sweep is None ==> defrag.sweep_due(now),
        defrag.last_sweep matches Some(last) ==> (defrag.sweep_due(now) <==> now.nanos >= last.nanos
            + 5_000_000_000),
        defrag.swept(now).last_sweep == Some(now),
        !defrag.sweep_due(now) ==> defrag.maybe_swept(now) == defrag,
        defrag.sweep_due(now) ==> defrag.maybe_swept(now) == defrag.swept(now),
{
}

/// Nothing is evicted while there is room, and a table that is full makes room by evicting
/// a tenth of its sets, or one.
pub proof fn law_room_is_made_by_the_tenth(defrag: DefragModel, now: Timestamp)
    requires
        defrag.max_sets > 0,
    ensures
        defrag.sets.len() < defrag.max_sets && total_stored(defrag.sets) < defrag.max_bytes_total
            ==> defrag.with_room(now) == defrag,
        defrag.max_sets >= 10 ==> defrag.batch() == defrag.max_sets / 10,
        defrag.max_sets < 10 ==> defrag.batch() == 1,
        defrag.batch() >= 1,
{
}

/// A datagram starts out empty, with the time of its first fragment, and as its own.
pub proof fn law_a_new_datagram_is_empty(
    defrag: DefragModel,
    key: FragmentKey,
    now: Timestamp,
)
    requires
        defrag.counters.started < u64::MAX,
    ensures
        SetModel::fresh(key, now).first_seen == now,
        SetModel::fresh(key, now).last_seen == now,
        SetModel::fresh(key, now).total_len is None,
        SetModel::fresh(key, now).fragments == 0,
        SetModel::fresh(key, now).buffer.byte_cap == 65_535,
        has_set(defrag.sets, key) ==> defrag.holding(key, now) == defrag,
        !has_set(defrag.sets, key) && defrag.within_limits() ==> {
            let after = defrag.holding(key, now);
            &&& after.sets == defrag.sets.push(SetModel::fresh(key, now))
            &&& after.counters.started == defrag.counters.started + 1
        },
{
}

/// What an accepted fragment counts: the bytes that overlap, contradict or are refused, and
/// a datagram that it completes, which then leaves the sets. One that does not complete
/// its datagram leaves it among them as it is after the fragment.
pub proof fn law_what_a_fragment_counts(
    defrag: DefragModel,
    fragment: FragmentView,
    now: Timestamp,
    policy: OverlapPolicy,
)
    requires
        8 * fragment.offset + fragment.payload@.len() <= 65_535,
        defrag.accepting(fragment, now).counters.at_most(u64::MAX - 70_000),
    ensures
        ({
            let ready = defrag.accepting(fragment, now);
            let place = set_index(ready.sets, fragment.key());
            let outcome = ready.sets[place].buffer.outcome(
                fragment.start(),
                fragment.payload@,
                policy,
            );
            let after = defrag.pushed(fragment, now, policy);
            let set = ready.sets[place].after(fragment, now, policy);
            let met = outcome.overlapped + outcome.conflicting + outcome.refused <= 70_000;
            &&& met ==> after.counters.overlaps - ready.counters.overlaps == outcome.overlapped
            &&& met ==> after.counters.conflicting_overlaps - ready.counters.conflicting_overlaps
                == outcome.conflicting
            &&& met ==> after.counters.refused_bytes - ready.counters.refused_bytes
                == outcome.refused
            &&& set.complete() <==> defrag.completes(fragment, now, policy)
            &&& set.complete() ==> after.counters.completed == ready.counters.completed + 1
                && after.sets == ready.sets.remove(place)
            &&& !set.complete() ==> after.counters.completed == ready.counters.completed
                && after.sets == ready.sets.update(place, set)
            &&& after.counters.fragments == ready.counters.fragments
            &&& after.counters.oversized == ready.counters.oversized
        }),
{
}

/// A datagram that is being assembled is found by its key, at its place.
pub proof fn law_a_datagram_is_found_by_its_key(sets: Seq<SetModel>, i: int, key: FragmentKey)
    requires
        distinct_sets(sets),
    ensures
        0 <= i < sets.len() ==> has_set(sets, sets[i].key) && set_index(sets, sets[i].key) == i,
        (forall|k: int| 0 <= k < sets.len() ==> (#[trigger] sets[k]).key != key) ==> !has_set(
            sets,
            key,
        ),
{
    if 0 <= i < sets.len() {
        assert(has_set(sets, sets[i].key));
        let k = set_index(sets, sets[i].key);
        assert(0 <= k < sets.len() && sets[k].key == sets[i].key);
        if k < i {
            assert(sets[k].key != sets[i].key);
        } else if i < k {
            assert(sets[i].key != sets[k].key);
        }
    }
}

/// A fragment belongs to the datagram of its addresses, identification and protocol.
pub proof fn law_a_fragment_belongs_to_its_datagram(a: FragmentView, b: FragmentView)
    ensures
        a.key() == b.key() <==> a.source == b.source && a.destination == b.destination
            && a.identification == b.identification && a.protocol == b.protocol,
{
}

} // verus!
