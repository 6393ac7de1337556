//! Following a log file across reads, restarts, and rotation.
//!
//! A [`Tailer`] decides what to read and what the bytes that were read say; the
//! caller looks at the file and reads it.

use vstd::prelude::*;
use crate::bytes::{decode_utf8, utf8_text};
use crate::text::{
    byte_len, chars_of, fit, head, law_bytes_are_counted_by_character,
    law_pieces_stand_between_separators, pieces, split_at_char, string_of, texts, views,
};
use super::logs::MAX_LINE;

verus! {

/// How much is read at once: a log that grew by a gigabyte between polls must
/// not become a gigabyte of resident memory.
pub const MAX_READ: u64 = 1_024 * 1_024;

/// What a look at a file found.
#[derive(Debug, Clone, Copy)]
pub struct FileSeen {
    /// The file's length.
    pub len: u64,
    /// Device and inode, where the platform exposes them.
    pub identity: Option<(u64, u64)>,
}

/// What to read of a file.
#[derive(Debug, Clone, Copy, PartialEq, Eq, Structural)]
pub struct ReadPlan {
    /// Where to start.
    pub offset: u64,
    /// How many bytes to read at most.
    pub want: usize,
}

/// Where a tailer stands.
pub struct TailModel {
    /// The file being followed.
    pub path: Seq<char>,
    /// How far it has been read.
    pub offset: nat,
    /// Which file it is.
    pub identity: Option<(u64, u64)>,
    /// The start of a line whose end has not been read yet.
    pub pending: Seq<char>,
    /// Whether the line being read is one that was dropped, so that the rest of it
    /// is dropped too.
    pub skipping: bool,
    /// Lines dropped because they were too long.
    pub oversized: nat,
    /// Rotations noticed.
    pub rotations: nat,
}

/// Whether a look at a file shows another file than the one that was followed:
/// one that is shorter than what has been read, or has another identity.
pub open spec fn is_rotated(tail: TailModel, seen: FileSeen) -> bool {
    seen.len < tail.offset || (seen.identity is Some && seen.identity != tail.identity)
}

/// A tailer after a look at the file. Reading resumes from the start of a new
/// file; a partial line of the old one is forgotten.
pub open spec fn looked(tail: TailModel, seen: FileSeen) -> TailModel {
    if is_rotated(tail, seen) {
        TailModel {
            offset: 0,
            identity: seen.identity,
            pending: seq![],
            skipping: false,
            rotations: tail.rotations + 1,
            ..tail
        }
    } else {
        TailModel { identity: seen.identity, ..tail }
    }
}

/// A line without the carriage return at its end.
pub open spec fn without_return(line: Seq<char>) -> Seq<char> {
    if line.len() > 0 && line.last() == '\r' {
        line.drop_last()
    } else {
        line
    }
}

/// What reading gives and leaves.
pub struct Taken {
    /// The complete lines.
    pub lines: Seq<Seq<char>>,
    /// The start of a line whose end has not been read yet.
    pub pending: Seq<char>,
    /// Whether the line being read was dropped.
    pub skipping: bool,
    /// How many lines were too long.
    pub dropped: nat,
}

/// What has been read once the end of a line was: the line, unless it is too long.
/// The rest of a line that was dropped is no line.
pub open spec fn with_line(so_far: Taken, part: Seq<char>) -> Taken {
    let line = so_far.pending + without_return(part);
    if so_far.skipping {
        Taken { pending: seq![], skipping: false, ..so_far }
    } else if byte_len(line) > MAX_LINE {
        Taken { pending: seq![], dropped: so_far.dropped + 1, ..so_far }
    } else {
        Taken { lines: so_far.lines.push(line), pending: seq![], ..so_far }
    }
}

/// What has been read once the start of a line was: it is held until its line break
/// arrives, but not without limit.
pub open spec fn with_start(so_far: Taken, part: Seq<char>) -> Taken {
    let held = so_far.pending + part;
    if so_far.skipping {
        so_far
    } else if byte_len(held) > MAX_LINE {
        Taken { pending: seq![], skipping: true, dropped: so_far.dropped + 1, ..so_far }
    } else {
        Taken { pending: held, ..so_far }
    }
}

/// What the parts between line breaks give, from a place on. Every part but the
/// last ends a line.
pub open spec fn taken_from(so_far: Taken, parts: Seq<Seq<char>>, i: int) -> Taken
    decreases parts.len() - i,
{
    if i < 0 || i >= parts.len() {
        so_far
    } else if i == parts.len() - 1 {
        with_start(so_far, parts[i])
    } else {
        taken_from(with_line(so_far, parts[i]), parts, i + 1)
    }
}

/// What a text gives behind the start of a line.
pub open spec fn taken(pending: Seq<char>, skipping: bool, text: Seq<char>) -> Taken {
    taken_from(Taken { lines: seq![], pending, skipping, dropped: 0 }, pieces(text, '\n'), 0)
}

/// The offset behind bytes that were read.
pub open spec fn advanced(offset: nat, read: nat) -> nat {
    if offset + read > u64::MAX {
        u64::MAX as nat
    } else {
        offset + read
    }
}

/// Follows an append-only log file across reads, restarts, and rotation.
///
/// Rotation is detected by the file shrinking or its identity changing, at which
/// point reading resumes from the start of the new file. Getting this wrong is a
/// detection gap: a sensor that keeps reading from a stale offset sees nothing
/// again until the file grows past where the old one ended.
#[derive(Debug)]
pub struct Tailer {
    path: String,
    offset: u64,
    identity: Option<(u64, u64)>,
    pending: Vec<char>,
    /// Whether the line being read was dropped for its length.
    skipping: bool,
    /// Lines dropped because they exceeded [`MAX_LINE`].
    pub oversized: u64,
    /// Rotations noticed.
    pub rotations: u64,
}

impl View for Tailer {
    type V = TailModel;

    closed spec fn view(&self) -> TailModel {
        TailModel {
            path: self.path@,
            offset: self.offset as nat,
            identity: self.identity,
            pending: self.pending@,
            skipping: self.skipping,
            oversized: self.oversized as nat,
            rotations: self.rotations as nat,
        }
    }
}

fn same_identity(a: Option<(u64, u64)>, b: Option<(u64, u64)>) -> (yes: bool)
    ensures
        yes == (a == b),
{
    match (a, b) {
        (Some(a), Some(b)) => a.0 == b.0 && a.1 == b.1,
        (None, None) => true,
        _ => false,
    }
}

impl Tailer {
    /// No partial line is longer than the longest line, and nothing is held of one
    /// that was dropped.
    pub open spec fn well_formed(&self) -> bool {
        &&& byte_len(self@.pending) <= MAX_LINE
        &&& self@.skipping ==> self@.pending.len() == 0
    }

    /// Follow `path`, starting from its current end.
    ///
    /// Starting at the end rather than the beginning is deliberate: replaying
    /// months of history on every restart would bury the present.
    pub fn new(path: String, found: Option<FileSeen>) -> (tailer: Self)
        ensures
            tailer.well_formed(),
            tailer@ == (TailModel {
                path: path@,
                offset: match found {
                    Some(found) => found.len as nat,
                    None => 0,
                },
                identity: match found {
                    Some(found) => found.identity,
                    None => None,
                },
                pending: seq![],
                skipping: false,
                oversized: 0,
                rotations: 0,
            }),
    {
        let (offset, identity): (u64, Option<(u64, u64)>) = match found {
            Some(found) => (found.len, found.identity),
            None => (0, None),
        };
        let tailer = Tailer {
            path,
            offset,
            identity,
            pending: Vec::new(),
            skipping: false,
            oversized: 0,
            rotations: 0,
        };
        assert(tailer@.pending =~= seq![]);
        tailer
    }

    /// Follow `path` from the beginning.
    pub fn from_start(path: String, found: Option<FileSeen>) -> (tailer: Self)
        ensures
            tailer.well_formed(),
            tailer@ == (TailModel {
                path: path@,
                offset: 0,
                identity: match found {
                    Some(found) => found.identity,
                    None => None,
                },
                pending: seq![],
                skipping: false,
                oversized: 0,
                rotations: 0,
            }),
    {
        let mut tailer = Self::new(path, found);
        tailer.offset = 0;
        tailer
    }

    /// The file being followed.
    pub fn path(&self) -> (path: &str)
        ensures
            path@ == self@.path,
    {
        self.path.as_str()
    }

    /// How many bytes of a partial line are held.
    pub fn pending_bytes(&self) -> (bytes: usize)
        requires
            self.well_formed(),
        ensures
            bytes == byte_len(self@.pending),
    {
        let mut bytes: usize = 0;
        let mut i: usize = 0;
        let ghost held = self.pending@;
        while i < self.pending.len()
            invariant
                held == self.pending@,
                i <= held.len(),
                bytes == byte_len(held.take(i as int)),
                byte_len(held) <= MAX_LINE,
            decreases held.len() - i,
        {
            proof {
                assert(held.take(i + 1).drop_last() =~= held.take(i as int));
                lemma_start_takes_less(held, i + 1);
            }
            bytes = bytes + crate::text::utf8_width(self.pending[i]);
            i = i + 1;
        }
        assert(held.take(i as int) =~= held);
        bytes
    }

    /// Take note of the file as it is now, and say what to read of it. There is
    /// nothing to read where the file has not grown.
    pub fn look(&mut self, seen: FileSeen) -> (plan: Option<ReadPlan>)
        requires
            old(self).well_formed(),
            old(self)@.rotations < u64::MAX,
        ensures
            final(self).well_formed(),
            final(self)@ == looked(old(self)@, seen),
            plan is None <==> seen.len == final(self)@.offset,
            plan matches Some(plan) ==> {
                let available = seen.len - final(self)@.offset;
                &&& plan.offset == final(self)@.offset
                &&& plan.want == if available <= MAX_READ {
                    available
                } else {
                    MAX_READ as int
                }
            },
    {
        if seen.len < self.offset || (seen.identity.is_some() && !same_identity(
            seen.identity,
            self.identity,
        )) {
            // Truncated or rotated: start over on the new file.
            self.offset = 0;
            self.pending = Vec::new();
            self.skipping = false;
            self.rotations = self.rotations + 1;
            assert(self.pending@ =~= seq![]);
        }
        self.identity = seen.identity;
        if seen.len == self.offset {
            return None;
        }
        let available: u64 = seen.len - self.offset;
        let want: u64 = if available <= MAX_READ {
            available
        } else {
            MAX_READ
        };
        Some(ReadPlan { offset: self.offset, want: want as usize })
    }

    /// Take in the bytes that were read.
    ///
    /// Returns complete lines only; a partial trailing line is held until its
    /// newline arrives, so a record that straddles two reads is never parsed as
    /// two truncated ones. Of a line that is too long nothing is returned, however
    /// many reads bring it.
    pub fn take(&mut self, bytes: &[u8]) -> (lines: Vec<String>)
        requires
            old(self).well_formed(),
            old(self)@.oversized + bytes@.len() <= u64::MAX,
        ensures
            final(self).well_formed(),
            final(self)@.oversized <= old(self)@.oversized + bytes@.len(),
            ({
                let result = taken(old(self)@.pending, old(self)@.skipping, utf8_text(bytes@));
                &&& texts(lines@) == result.lines
                &&& final(self)@ == (TailModel {
                    offset: advanced(old(self)@.offset, bytes@.len()),
                    pending: result.pending,
                    skipping: result.skipping,
                    oversized: old(self)@.oversized + result.dropped,
                    ..old(self)@
                })
            }),
    {
        let text = decode_utf8(bytes);
        self.offset = self.offset.saturating_add(bytes.len() as u64);
        self.take_text(text.as_str())
    }

    /// Take in text that was read.
    pub fn take_text(&mut self, text: &str) -> (lines: Vec<String>)
        requires
            old(self).well_formed(),
            old(self)@.oversized + text@.len() <= u64::MAX,
        ensures
            final(self).well_formed(),
            final(self)@.oversized <= old(self)@.oversized + text@.len(),
            ({
                let result = taken(old(self)@.pending, old(self)@.skipping, text@);
                &&& texts(lines@) == result.lines
                &&& final(self)@ == (TailModel {
                    pending: result.pending,
                    skipping: result.skipping,
                    oversized: old(self)@.oversized + result.dropped,
                    ..old(self)@
                })
            }),
    {
        let ghost start = self@;
        let ghost result = taken(start.pending, start.skipping, text@);
        let chars = chars_of(text);
        let parts = split_at_char(chars.as_slice(), '\n');
        let ghost all = views(parts@);
        let mut lines: Vec<String> = Vec::new();
        let mut dropped: u64 = 0;
        let mut i: usize = 0;
        assert(texts(lines@) =~= seq![]);
        proof {
            lemma_filled(text@, '\n');
            assert(all.take(all.len() as int) =~= all);
            assert(all.take(0) =~= seq![]);
        }
        while i < parts.len()
            invariant
                all == views(parts@),
                filled(all) <= text@.len(),
                all.take(all.len() as int) == all,
                start.oversized + text@.len() <= u64::MAX,
                i <= all.len(),
                dropped <= filled(all.take(i as int)),
                self.well_formed(),
                self@ == (TailModel {
                    pending: self@.pending,
                    skipping: self@.skipping,
                    ..start
                }),
                taken_from(
                    Taken {
                        lines: texts(lines@),
                        pending: self@.pending,
                        skipping: self@.skipping,
                        dropped: dropped as nat,
                    },
                    all,
                    i as int,
                ) == result,
            decreases all.len() - i,
        {
            assert(all[i as int] == parts@[i as int]@);
            let ghost pending = self@.pending;
            proof {
                assert(all.take(i + 1).drop_last() =~= all.take(i as int));
                lemma_filled_prefix(all, i + 1);
                assert(pending + Seq::<char>::empty() =~= pending);
                if parts@[i as int]@.len() == 0 {
                    assert(parts@[i as int]@ =~= Seq::<char>::empty());
                }
            }
            if i == parts.len() - 1 {
                // No newline yet. Hold it, but not without limit: an appender
                // that never writes a newline must not grow the sensor forever.
                if !self.skipping {
                    self.pending.extend_from_slice(parts[i]);
                    assert(self.pending@ =~= pending + all[i as int]);
                    if fit(self.pending.as_slice(), MAX_LINE).len() < self.pending.len() {
                        self.pending = Vec::new();
                        assert(self.pending@ =~= seq![]);
                        self.skipping = true;
                        dropped = dropped + 1;
                    }
                }
            } else {
                let part = parts[i];
                let line = if part.len() > 0 && part[part.len() - 1] == '\r' {
                    let bare = head(part, part.len() - 1);
                    assert(bare@ =~= part@.drop_last());
                    bare
                } else {
                    part
                };
                self.pending.extend_from_slice(line);
                assert(self.pending@ =~= pending + without_return(all[i as int]));
                if self.skipping {
                    // The end of a line that was dropped.
                    self.skipping = false;
                } else if fit(self.pending.as_slice(), MAX_LINE).len() < self.pending.len() {
                    dropped = dropped + 1;
                } else {
                    let ghost before = lines@;
                    lines.push(string_of(self.pending.as_slice()));
                    assert(texts(lines@) =~= texts(before).push(self.pending@));
                }
                self.pending = Vec::new();
                assert(self.pending@ =~= seq![]);
            }
            i = i + 1;
        }
        self.oversized = self.oversized + dropped;
        lines
    }
}

proof fn lemma_start_takes_less(text: Seq<char>, k: int)
    requires
        0 <= k <= text.len(),
    ensures
        byte_len(text.take(k)) <= byte_len(text),
    decreases text.len(),
{
    if k == text.len() {
        assert(text.take(k) =~= text);
    } else {
        lemma_start_takes_less(text.drop_last(), k);
        assert(text.drop_last().take(k) =~= text.take(k));
    }
}

// ---------------------------------------------------------------------------
// laws
// ---------------------------------------------------------------------------

/// How many parts are not empty.
spec fn filled(parts: Seq<Seq<char>>) -> nat
    decreases parts.len(),
{
    if parts.len() == 0 {
        0
    } else {
        filled(parts.drop_last()) + if parts.last().len() > 0 {
            1nat
        } else {
            0
        }
    }
}

proof fn lemma_filled(text: Seq<char>, separator: char)
    ensures
        filled(pieces(text, separator)) <= text.len(),
    decreases text.len(),
{
    reveal_with_fuel(filled, 2);
    if text.len() > 0 {
        let before = pieces(text.drop_last(), separator);
        lemma_filled(text.drop_last(), separator);
        crate::text::lemma_pieces_len(text.drop_last(), separator);
        if text.last() == separator {
            assert(before.push(Seq::empty()).drop_last() =~= before);
        } else {
            let grown = before.update(before.len() - 1, before.last().push(text.last()));
            assert(grown.drop_last() =~= before.drop_last());
        }
    }
}

proof fn lemma_filled_prefix(parts: Seq<Seq<char>>, k: int)
    requires
        0 <= k <= parts.len(),
    ensures
        filled(parts.take(k)) <= filled(parts),
    decreases parts.len(),
{
    if k == parts.len() {
        assert(parts.take(k) =~= parts);
    } else {
        lemma_filled_prefix(parts.drop_last(), k);
        assert(parts.drop_last().take(k) =~= parts.take(k));
    }
}

/// What is read behind lines that were read before.
pub open spec fn behind(before: Taken, rest: Taken) -> Taken {
    Taken { lines: before.lines + rest.lines, dropped: before.dropped + rest.dropped, ..rest }
}

/// Where reading stands behind what was read, with nothing read yet.
pub open spec fn resumed(so_far: Taken) -> Taken {
    Taken { lines: seq![], dropped: 0, ..so_far }
}

/// The parts of two texts in a row: the last part of the first runs into the
/// first part of the second.
spec fn joined(first: Seq<Seq<char>>, second: Seq<Seq<char>>) -> Seq<Seq<char>> {
    first.drop_last().push(first.last() + second[0]) + second.skip(1)
}

proof fn lemma_pieces_join(a: Seq<char>, b: Seq<char>, separator: char)
    ensures
        pieces(a + b, separator) == joined(pieces(a, separator), pieces(b, separator)),
    decreases b.len(),
{
    let pa = pieces(a, separator);
    let pb = pieces(b, separator);
    crate::text::lemma_pieces_len(a, separator);
    crate::text::lemma_pieces_len(b, separator);
    if b.len() == 0 {
        assert(a + b =~= a);
        assert(pa.last() + pb[0] =~= pa.last());
        assert(joined(pa, pb) =~= pa);
    } else {
        let shorter = b.drop_last();
        lemma_pieces_join(a, shorter, separator);
        crate::text::lemma_pieces_len(shorter, separator);
        assert((a + b).drop_last() =~= a + shorter);
        assert((a + b).last() == b.last());
        let ps = pieces(shorter, separator);
        let before = joined(pa, ps);
        if b.last() == separator {
            assert(before.push(Seq::empty()) =~= joined(pa, pb));
        } else {
            let grown = before.update(before.len() - 1, before.last().push(b.last()));
            if ps.len() == 1 {
                assert(before.last() == pa.last() + ps[0]);
                assert((pa.last() + ps[0]).push(b.last()) =~= pa.last() + ps[0].push(b.last()));
            }
            assert(grown =~= joined(pa, pb));
        }
    }
}

/// What is read behind lines that were read before does not depend on them.
proof fn lemma_same_rest(
    before: Taken,
    so_far: Taken,
    whole: Seq<Seq<char>>,
    second: Seq<Seq<char>>,
    i: int,
    j: int,
)
    requires
        1 <= j <= second.len(),
        i >= 0,
        whole.len() - i == second.len() - j,
        forall|k: int| j <= k < second.len() ==> #[trigger] second[k] == whole[i + k - j],
    ensures
        taken_from(behind(before, so_far), whole, i) == behind(
            before,
            taken_from(so_far, second, j),
        ),
    decreases second.len() - j,
{
    if j < second.len() {
        assert(second[j] == whole[i]);
        if j < second.len() - 1 {
            let line = so_far.pending + without_return(second[j]);
            assert forall|k: int| j + 1 <= k < second.len() implies #[trigger] second[k] == whole[i
                + 1 + k - (j + 1)] by {
                assert(second[k] == whole[i + k - j]);
            }
            lemma_same_rest(before, with_line(so_far, second[j]), whole, second, i + 1, j + 1);
            assert((before.lines + so_far.lines).push(line) =~= before.lines + so_far.lines.push(
                line,
            ));
            assert(with_line(behind(before, so_far), second[j]) == behind(
                before,
                with_line(so_far, second[j]),
            ));
        }
    }
}

/// Reading the parts of two texts in a row gives what reading the first and then the
/// second gives.
proof fn lemma_same_start(
    so_far: Taken,
    first: Seq<Seq<char>>,
    whole: Seq<Seq<char>>,
    second: Seq<Seq<char>>,
    i: int,
)
    requires
        first.len() >= 1,
        second.len() >= 1,
        whole == joined(first, second),
        0 <= i < first.len(),
        second[0].len() > 0 || first.last().len() == 0 || first.last().last() != '\r' || second.len()
            == 1,
        so_far.skipping ==> so_far.pending.len() == 0,
    ensures
        ({
            let begun = taken_from(so_far, first, i);
            taken_from(so_far, whole, i) == behind(
                begun,
                taken_from(resumed(begun), second, 0),
            )
        }),
    decreases first.len() - i,
{
    if i < first.len() - 1 {
        assert(whole[i] == first[i]);
        lemma_same_start(with_line(so_far, first[i]), first, whole, second, i + 1);
    } else {
        let tail = first.last();
        let begun = with_start(so_far, tail);
        let held = so_far.pending + tail;
        assert(begun == taken_from(so_far, first, i));
        assert(whole[i] == tail + second[0]);
        if second.len() == 1 {
            let full = so_far.pending + (tail + second[0]);
            assert(full =~= held + second[0]);
            assert(full.take(held.len() as int) =~= held);
            lemma_start_takes_less(full, held.len() as int);
            assert(begun.lines + Seq::<Seq<char>>::empty() =~= begun.lines);
        } else {
            let line = so_far.pending + without_return(tail + second[0]);
            let alone = held + without_return(second[0]);
            if second[0].len() > 0 {
                assert((tail + second[0]).last() == second[0].last());
                assert((tail + second[0]).drop_last() =~= tail + second[0].drop_last());
            } else {
                assert(tail + second[0] =~= tail);
            }
            assert(line =~= alone);
            assert(alone.take(held.len() as int) =~= held);
            lemma_start_takes_less(alone, held.len() as int);
            let fresh = with_line(resumed(begun), second[0]);
            let next = with_line(so_far, tail + second[0]);
            assert(so_far.lines.push(line) =~= so_far.lines + Seq::<Seq<char>>::empty().push(line));
            assert(so_far.lines + Seq::<Seq<char>>::empty() =~= so_far.lines);
            assert(next == behind(begun, fresh));
            lemma_same_rest(begun, fresh, whole, second, i + 1, 1);
        }
    }
}

/// How a log is cut into reads does not matter: what two reads give, one after the
/// other, is what one read of both gives, line by line, as long as no line break is
/// cut between its carriage return and its line feed. A record that straddles two
/// reads is one record, and one that is too long is none.
pub proof fn law_a_split_record_is_one_record(
    pending: Seq<char>,
    skipping: bool,
    a: Seq<char>,
    b: Seq<char>,
)
    requires
        !(a.len() > 0 && a.last() == '\r' && b.len() > 0 && b[0] == '\n'),
        skipping ==> pending.len() == 0,
    ensures
        ({
            let first = taken(pending, skipping, a);
            let second = taken(first.pending, first.skipping, b);
            let whole = taken(pending, skipping, a + b);
            &&& whole.lines == first.lines + second.lines
            &&& whole.dropped == first.dropped + second.dropped
            &&& whole.pending == second.pending
            &&& whole.skipping == second.skipping
        }),
{
    let pa = pieces(a, '\n');
    let pb = pieces(b, '\n');
    lemma_pieces_join(a, b, '\n');
    crate::text::lemma_pieces_len(a, '\n');
    crate::text::lemma_pieces_len(b, '\n');
    lemma_last_piece(a, '\n');
    lemma_first_piece(b, '\n');
    lemma_same_start(
        Taken { lines: seq![], pending, skipping, dropped: 0 },
        pa,
        joined(pa, pb),
        pb,
        0,
    );
}

proof fn lemma_last_piece(text: Seq<char>, separator: char)
    ensures
        pieces(text, separator).len() >= 1,
        pieces(text, separator).last().len() > 0 ==> text.len() > 0 && pieces(
            text,
            separator,
        ).last().last() == text.last(),
    decreases text.len(),
{
    if text.len() > 0 {
        lemma_last_piece(text.drop_last(), separator);
    }
}

proof fn lemma_first_piece(text: Seq<char>, separator: char)
    ensures
        pieces(text, separator).len() >= 1,
        pieces(text, separator)[0].len() == 0 && pieces(text, separator).len() > 1 ==> text.len() > 0
            && text[0] == separator,
        text.len() > 0 && pieces(text, separator).len() == 1 ==> pieces(text, separator)[0] == text,
        text.len() == 0 ==> pieces(text, separator)[0].len() == 0,
        pieces(text, separator)[0].len() > 0 ==> text.len() > 0 && text[0] == pieces(
            text,
            separator,
        )[0][0],
    decreases text.len(),
{
    if text.len() > 0 {
        let shorter = text.drop_last();
        lemma_first_piece(shorter, separator);
        if shorter.len() > 0 {
            assert(shorter[0] == text[0]);
        }
        if pieces(text, separator).len() == 1 {
            assert(pieces(text, separator)[0] =~= text);
        }
    }
}

/// A file that is shorter than what was read, or that is another one, is a rotation: it
/// is read from its start, and what was held of the old one is forgotten. Any other look
/// loses nothing.
pub proof fn law_a_rotation_starts_over(tail: TailModel, seen: FileSeen)
    ensures
        ({
            let after = looked(tail, seen);
            let rotated = seen.len < tail.offset || (seen.identity is Some && seen.identity
                != tail.identity);
            &&& rotated ==> after.offset == 0 && after.pending.len() == 0 && !after.skipping
                && after.rotations == tail.rotations + 1
            &&& !rotated ==> after.offset == tail.offset && after.pending == tail.pending
                && after.skipping == tail.skipping && after.rotations == tail.rotations
            &&& after.identity == seen.identity
            &&& after.oversized == tail.oversized
            &&& after.path == tail.path
        }),
{
}

/// A line break ends a line: with what was held in front of it, and without the carriage
/// return at its end, it is handed over, unless it is too long, when it is dropped and
/// counted. Without a line break the text is held.
pub proof fn law_a_line_break_ends_a_line(pending: Seq<char>, line: Seq<char>)
    requires
        forall|i: int| 0 <= i < line.len() ==> #[trigger] line[i] != '\n',
    ensures
        ({
            let whole = pending + if line.len() > 0 && line.last() == '\r' {
                line.drop_last()
            } else {
                line
            };
            let got = taken(pending, false, line.push('\n'));
            &&& byte_len(whole) <= 16_384 ==> got.lines == seq![whole] && got.dropped == 0
            &&& byte_len(whole) > 16_384 ==> got.lines.len() == 0 && got.dropped == 1
            &&& got.pending.len() == 0 && !got.skipping
        }),
        ({
            let got = taken(pending, false, line);
            &&& got.lines.len() == 0
            &&& byte_len(pending + line) <= 16_384 ==> got.pending == pending + line
                && !got.skipping && got.dropped == 0
            &&& byte_len(pending + line) > 16_384 ==> got.pending.len() == 0 && got.skipping
                && got.dropped == 1
        }),
        ({
            let got = taken(seq![], true, line.push('\n'));
            got.lines.len() == 0 && got.dropped == 0 && !got.skipping && got.pending.len() == 0
        }),
        taken(seq![], true, line).lines.len() == 0 && taken(seq![], true, line).skipping,
{
    let none = Seq::<char>::empty();
    law_pieces_stand_between_separators(line, '\n', none);
    law_pieces_stand_between_separators(none, '\n', none);
    assert(line.push('\n') + none =~= line.push('\n'));
    assert(pieces(none, '\n') =~= seq![none]);
    assert(pieces(line, '\n') =~= seq![line]);
    assert(pieces(line.push('\n'), '\n') =~= seq![line, none]);
    reveal_with_fuel(taken_from, 3);
    law_bytes_are_counted_by_character(none, ' ');
    assert(none + none =~= none);
}

/// Reading moves on by what was read, and stops at the last place that can be named.
pub proof fn law_reading_moves_on(offset: nat, read: nat)
    requires
        offset <= u64::MAX,
    ensures
        offset <= advanced(offset, read) <= u64::MAX,
        offset + read <= u64::MAX ==> advanced(offset, read) == offset + read,
        offset + read > u64::MAX ==> advanced(offset, read) == u64::MAX,
{
}

} // verus!
