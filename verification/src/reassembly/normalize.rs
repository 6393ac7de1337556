//! URL path normalization.
//!
//! Percent-decode first, then resolve path segments, in that order, because an
//! encoded separator or dot is a separator or dot to the server that decodes it.
//!
//! # Nothing here can grow its input
//!
//! Decoding turns three bytes into one and collapsing only ever removes
//! segments, so output length is bounded by input length. There is no expansion
//! step an attacker could use to amplify a small packet into a large
//! allocation — the one thing a normalizer must never have.

use vstd::prelude::*;

verus! {

/// What normalization had to do, and what it found.
///
/// These are **detection signal in their own right**. A request that arrives
/// double-encoded, or that walks above the document root, is unusual in a way
/// worth alerting on even when the resolved path turns out to be harmless.
#[derive(Debug, Clone, Copy, PartialEq, Eq, Structural)]
pub struct NormalizationFlags {
    /// The input contained at least one valid `%XX` escape.
    pub percent_encoded: bool,
    /// A second decoding pass changed the result: the input was **double
    /// encoded**, e.g. `%252e` for `.`.
    pub double_encoded: bool,
    /// A `%` was present that did not begin a valid escape.
    pub invalid_escape: bool,
    /// Decoding produced a NUL byte.
    pub null_byte: bool,
    /// A `..` segment was resolved.
    pub traversal: bool,
    /// A `..` segment tried to walk above the root.
    pub above_root: bool,
    /// A `.` segment was dropped.
    pub self_reference: bool,
    /// An empty segment (`//`) was collapsed.
    pub empty_segment: bool,
    /// A backslash was treated as a separator.
    pub backslash: bool,
    /// Decoding stopped at the round limit with escapes still present.
    pub decode_limit_reached: bool,
}

impl Default for NormalizationFlags {
    fn default() -> (flags: Self)
        ensures
            flags == NormalizationFlags::none(),
    {
        Self {
            percent_encoded: false,
            double_encoded: false,
            invalid_escape: false,
            null_byte: false,
            traversal: false,
            above_root: false,
            self_reference: false,
            empty_segment: false,
            backslash: false,
            decode_limit_reached: false,
        }
    }
}

impl NormalizationFlags {
    /// Nothing found.
    pub open spec fn none() -> NormalizationFlags {
        NormalizationFlags {
            percent_encoded: false,
            double_encoded: false,
            invalid_escape: false,
            null_byte: false,
            traversal: false,
            above_root: false,
            self_reference: false,
            empty_segment: false,
            backslash: false,
            decode_limit_reached: false,
        }
    }

    /// What either found.
    #[verifier::opaque]
    pub open spec fn union(self, other: NormalizationFlags) -> NormalizationFlags {
        NormalizationFlags {
            percent_encoded: self.percent_encoded || other.percent_encoded,
            double_encoded: self.double_encoded || other.double_encoded,
            invalid_escape: self.invalid_escape || other.invalid_escape,
            null_byte: self.null_byte || other.null_byte,
            traversal: self.traversal || other.traversal,
            above_root: self.above_root || other.above_root,
            self_reference: self.self_reference || other.self_reference,
            empty_segment: self.empty_segment || other.empty_segment,
            backslash: self.backslash || other.backslash,
            decode_limit_reached: self.decode_limit_reached || other.decode_limit_reached,
        }
    }

    /// Whether anything at all had to be normalized.
    pub fn any(&self) -> (any: bool)
        ensures
            any == (*self != NormalizationFlags::none()),
    {
        *self != Self::default()
    }

    fn merge(&mut self, other: Self)
        ensures
            *final(self) == old(self).union(other),
    {
        proof {
            reveal(NormalizationFlags::union);
        }
        self.percent_encoded = self.percent_encoded || other.percent_encoded;
        self.double_encoded = self.double_encoded || other.double_encoded;
        self.invalid_escape = self.invalid_escape || other.invalid_escape;
        self.null_byte = self.null_byte || other.null_byte;
        self.traversal = self.traversal || other.traversal;
        self.above_root = self.above_root || other.above_root;
        self.self_reference = self.self_reference || other.self_reference;
        self.empty_segment = self.empty_segment || other.empty_segment;
        self.backslash = self.backslash || other.backslash;
        self.decode_limit_reached = self.decode_limit_reached || other.decode_limit_reached;
    }
}

/// How to normalize.
#[derive(Debug, Clone, Copy, PartialEq, Eq, Structural)]
pub struct NormalizeOptions {
    /// Maximum percent-decoding passes.
    ///
    /// Two catches ordinary double encoding. It is capped rather than repeated
    /// to a fixed point because an input can always be encoded one level deeper
    /// than any limit, and unbounded work per packet is a denial of service.
    /// When the limit is hit with escapes still present,
    /// [`NormalizationFlags::decode_limit_reached`] says so.
    pub decode_rounds: usize,
    /// Resolve `.` and `..` segments.
    pub collapse_path: bool,
    /// Treat `\` as a path separator, as Windows-hosted servers do.
    pub backslash_is_separator: bool,
}

impl Default for NormalizeOptions {
    fn default() -> (options: Self)
        ensures
            options == (NormalizeOptions {
                decode_rounds: 2,
                collapse_path: true,
                backslash_is_separator: false,
            }),
    {
        Self { decode_rounds: 2, collapse_path: true, backslash_is_separator: false }
    }
}

/// The result of normalizing.
#[derive(Debug, Clone, PartialEq, Eq)]
pub struct Normalized {
    /// The canonical bytes.
    pub bytes: Vec<u8>,
    /// How many decoding passes actually changed something.
    pub rounds_applied: usize,
    /// What was found on the way.
    pub flags: NormalizationFlags,
}

/// The value of a hexadecimal digit.
pub open spec fn hex_digit(byte: u8) -> Option<u8> {
    if 0x30 <= byte <= 0x39 {
        Some((byte - 0x30) as u8)
    } else if 0x61 <= byte <= 0x66 {
        Some((byte - 0x61 + 10) as u8)
    } else if 0x41 <= byte <= 0x46 {
        Some((byte - 0x41 + 10) as u8)
    } else {
        None
    }
}

/// The byte that the escape at the start of `input` stands for, if there is one:
/// a percent sign and two hexadecimal digits.
pub open spec fn escape(input: Seq<u8>) -> Option<u8> {
    if input.len() >= 3 && input[0] == 0x25 && hex_digit(input[1]) is Some && hex_digit(
        input[2],
    ) is Some {
        Some((hex_digit(input[1])->0 * 16 + hex_digit(input[2])->0) as u8)
    } else {
        None
    }
}

/// The input with every escape decoded once, left to right. A percent sign that
/// begins no escape stays as it is.
#[verifier::opaque]
pub open spec fn decoded(input: Seq<u8>) -> Seq<u8>
    decreases input.len(),
{
    if input.len() == 0 {
        Seq::empty()
    } else {
        match escape(input) {
            Some(byte) => seq![byte] + decoded(input.skip(3)),
            None => seq![input[0]] + decoded(input.skip(1)),
        }
    }
}

/// What one decoding pass finds.
#[verifier::opaque]
pub open spec fn decode_flags(input: Seq<u8>) -> NormalizationFlags
    decreases input.len(),
{
    if input.len() == 0 {
        NormalizationFlags::none()
    } else {
        match escape(input) {
            Some(byte) => NormalizationFlags {
                percent_encoded: true,
                null_byte: byte == 0,
                ..NormalizationFlags::none()
            }.union(decode_flags(input.skip(3))),
            None => NormalizationFlags {
                invalid_escape: input[0] == 0x25,
                ..NormalizationFlags::none()
            }.union(decode_flags(input.skip(1))),
        }
    }
}

fn hex_value(byte: u8) -> (value: Option<u8>)
    ensures
        value == hex_digit(byte),
        value matches Some(digit) ==> digit < 16,
{
    if 0x30 <= byte && byte <= 0x39 {
        Some(byte - 0x30)
    } else if 0x61 <= byte && byte <= 0x66 {
        Some(byte - 0x61 + 10)
    } else if 0x41 <= byte && byte <= 0x46 {
        Some(byte - 0x41 + 10)
    } else {
        None
    }
}

/// The byte that an escape at `index` stands for, if there is one.
fn escape_at(input: &[u8], index: usize) -> (byte: Option<u8>)
    requires
        index < input@.len(),
    ensures
        byte == escape(input@.skip(index as int)),
        byte is Some ==> index + 3 <= input@.len(),
{
    let ghost rest = input@.skip(index as int);
    if input[index] != 0x25 || input.len() - index < 3 {
        return None;
    }
    assert(rest[1] == input@[index + 1] && rest[2] == input@[index + 2]);
    match (hex_value(input[index + 1]), hex_value(input[index + 2])) {
        (Some(high), Some(low)) => Some(high * 16 + low),
        _ => None,
    }
}

proof fn lemma_union(a: NormalizationFlags, b: NormalizationFlags, c: NormalizationFlags)
    ensures
        a.union(b).union(c) == a.union(b.union(c)),
        a.union(NormalizationFlags::none()) == a,
        NormalizationFlags::none().union(a) == a,
{
    reveal(NormalizationFlags::union);
}

proof fn lemma_decode_step(input: Seq<u8>, index: int)
    requires
        0 <= index < input.len(),
    ensures
        ({
            let rest = input.skip(index);
            match escape(rest) {
                Some(byte) => {
                    &&& decoded(rest) == seq![byte] + decoded(input.skip(index + 3))
                    &&& decode_flags(rest) == NormalizationFlags {
                        percent_encoded: true,
                        null_byte: byte == 0,
                        ..NormalizationFlags::none()
                    }.union(decode_flags(input.skip(index + 3)))
                },
                None => {
                    &&& decoded(rest) == seq![input[index]] + decoded(input.skip(index + 1))
                    &&& decode_flags(rest) == NormalizationFlags {
                        invalid_escape: input[index] == 0x25,
                        ..NormalizationFlags::none()
                    }.union(decode_flags(input.skip(index + 1)))
                },
            }
        }),
{
    reveal(decoded);
    reveal(decode_flags);
    let rest = input.skip(index);
    assert(rest.skip(1) =~= input.skip(index + 1));
    if rest.len() >= 3 {
        assert(rest.skip(3) =~= input.skip(index + 3));
    }
}

/// Decode `%XX` escapes once.
///
/// An escape that is not two hex digits is **left exactly as written** rather
/// than guessed at or dropped: a sensor that silently rewrites malformed input
/// is inventing a request nobody sent.
pub fn percent_decode(input: &[u8]) -> (result: (Vec<u8>, NormalizationFlags))
    ensures
        result.0@ == decoded(input@),
        result.1 == decode_flags(input@),
{
    let mut out: Vec<u8> = Vec::new();
    let mut flags = NormalizationFlags::default();
    let mut index: usize = 0;
    proof {
        assert(input@.skip(0) =~= input@);
        assert(out@ + decoded(input@) =~= decoded(input@));
        lemma_union(decode_flags(input@), flags, flags);
    }
    while index < input.len()
        invariant
            index <= input@.len(),
            out@ + decoded(input@.skip(index as int)) == decoded(input@),
            flags.union(decode_flags(input@.skip(index as int))) == decode_flags(input@),
        decreases input@.len() - index,
    {
        let ghost before = out@;
        proof {
            lemma_decode_step(input@, index as int);
        }
        match escape_at(input, index) {
            Some(byte) => {
                let mut found = NormalizationFlags::default();
                found.percent_encoded = true;
                found.null_byte = byte == 0;
                proof {
                    lemma_union(flags, found, decode_flags(input@.skip(index + 3)));
                }
                flags.merge(found);
                out.push(byte);
                assert(out@ + decoded(input@.skip(index + 3)) =~= before + (seq![byte] + decoded(
                    input@.skip(index + 3),
                )));
                index = index + 3;
            },
            None => {
                let byte: u8 = input[index];
                let mut found = NormalizationFlags::default();
                found.invalid_escape = byte == 0x25;
                proof {
                    lemma_union(flags, found, decode_flags(input@.skip(index + 1)));
                }
                flags.merge(found);
                out.push(byte);
                assert(out@ + decoded(input@.skip(index + 1)) =~= before + (seq![byte] + decoded(
                    input@.skip(index + 1),
                )));
                index = index + 1;
            },
        }
    }
    proof {
        reveal(decoded);
        reveal(decode_flags);
        lemma_union(flags, flags, flags);
        assert(out@ + decoded(input@.skip(index as int)) =~= out@);
    }
    (out, flags)
}

/// The input after `rounds` decoding passes.
pub open spec fn decoded_times(input: Seq<u8>, rounds: nat) -> Seq<u8>
    decreases rounds,
{
    if rounds == 0 {
        input
    } else {
        decoded(decoded_times(input, (rounds - 1) as nat))
    }
}

/// How many of at most `rounds` passes change something. Passes stop at the
/// first that changes nothing.
pub open spec fn rounds_applied(input: Seq<u8>, rounds: nat) -> nat
    decreases rounds,
{
    if rounds == 0 || decoded(input) == input {
        0
    } else {
        1 + rounds_applied(decoded(input), (rounds - 1) as nat)
    }
}

/// What the first `rounds` passes find.
pub open spec fn rounds_flags(input: Seq<u8>, rounds: nat) -> NormalizationFlags
    decreases rounds,
{
    if rounds == 0 {
        NormalizationFlags::none()
    } else {
        NormalizationFlags {
            double_encoded: rounds > 1,
            ..rounds_flags(input, (rounds - 1) as nat).union(
                decode_flags(decoded_times(input, (rounds - 1) as nat)),
            )
        }
    }
}

/// What repeated decoding finds: what the first pass and each further one that
/// changed something found, that more than one pass changed something, and that
/// the last permitted one left escapes behind. A first pass that changes nothing
/// can still have met a `%` that begins no escape.
pub open spec fn repeated_flags(input: Seq<u8>, rounds: nat) -> NormalizationFlags {
    let applied = rounds_applied(input, rounds);
    let last = decoded_times(input, applied);
    NormalizationFlags {
        decode_limit_reached: applied == rounds && rounds > 0 && decoded(last) != last,
        invalid_escape: rounds_flags(input, applied).invalid_escape || (rounds > 0
            && decode_flags(input).invalid_escape),
        ..rounds_flags(input, applied)
    }
}

proof fn lemma_rounds_applied(input: Seq<u8>, rounds: nat, k: nat)
    requires
        k <= rounds,
        forall|j: nat| j < k ==> #[trigger] decoded_times(input, j + 1) != decoded_times(input, j),
        k == rounds || decoded_times(input, k + 1) == decoded_times(input, k),
    ensures
        rounds_applied(input, rounds) == k,
    decreases rounds,
{
    if k > 0 {
        assert(decoded_times(input, 0 + 1) != decoded_times(input, 0));
        assert(decoded_times(input, 1) == decoded(decoded_times(input, 0)));
        let next = decoded(input);
        assert forall|j: nat| j < k - 1 implies #[trigger] decoded_times(next, j + 1)
            != decoded_times(next, j) by {
            lemma_decoded_times(input, j);
            lemma_decoded_times(input, j + 1);
            assert(decoded_times(input, (j + 1) + 1) != decoded_times(input, j + 1));
        }
        lemma_decoded_times(input, (k - 1) as nat);
        lemma_decoded_times(input, k);
        lemma_rounds_applied(next, (rounds - 1) as nat, (k - 1) as nat);
    } else if rounds > 0 {
        assert(decoded_times(input, 1) == decoded(decoded_times(input, 0)));
    }
}

proof fn lemma_decoded_times(input: Seq<u8>, rounds: nat)
    ensures
        decoded_times(decoded(input), rounds) == decoded_times(input, rounds + 1),
    decreases rounds,
{
    if rounds > 0 {
        lemma_decoded_times(input, (rounds - 1) as nat);
    } else {
        assert(decoded_times(input, 1) == decoded(decoded_times(input, 0)));
    }
}

/// Whether two byte strings are the same.
pub fn same_bytes(a: &[u8], b: &[u8]) -> (same: bool)
    ensures
        same == (a@ == b@),
{
    if a.len() != b.len() {
        return false;
    }
    let mut i: usize = 0;
    while i < a.len()
        invariant
            a@.len() == b@.len(),
            i <= a@.len(),
            forall|j: int| 0 <= j < i ==> a@[j] == b@[j],
        decreases a@.len() - i,
    {
        if a[i] != b[i] {
            return false;
        }
        i = i + 1;
    }
    assert(a@ =~= b@);
    true
}

/// Decode `%XX` escapes repeatedly, up to `rounds` passes.
///
/// Stops early once a pass changes nothing.
pub fn percent_decode_repeatedly(input: &[u8], rounds: usize) -> (result: Normalized)
    ensures
        result.rounds_applied == rounds_applied(input@, rounds as nat),
        result.bytes@ == decoded_times(input@, rounds_applied(input@, rounds as nat)),
        result.flags == repeated_flags(input@, rounds as nat),
{
    let mut flags = NormalizationFlags::default();
    let mut current: Vec<u8> = vstd::slice::slice_to_vec(input);
    let mut applied: usize = 0;
    let mut settled: bool = false;
    let mut stray: bool = false;
    while applied < rounds && !settled
        invariant
            applied <= rounds,
            current@ == decoded_times(input@, applied as nat),
            flags == rounds_flags(input@, applied as nat),
            stray == ((applied > 0 || settled) && decode_flags(input@).invalid_escape),
            forall|j: nat|
                j < applied ==> #[trigger] decoded_times(input@, j + 1) != decoded_times(input@, j),
            settled ==> applied < rounds,
            settled ==> decoded_times(input@, (applied + 1) as nat) == decoded_times(
                input@,
                applied as nat,
            ),
        decreases rounds - applied, if settled { 0int } else { 1int },
    {
        let (next, round_flags) = percent_decode(current.as_slice());
        assert(next@ == decoded_times(input@, (applied + 1) as nat));
        if applied == 0 {
            stray = round_flags.invalid_escape;
        }
        if same_bytes(next.as_slice(), current.as_slice()) {
            settled = true;
        } else {
            flags.merge(round_flags);
            // A pass after the first changed something, so at least one escape
            // was itself encoded.
            flags.double_encoded = applied > 0;
            current = next;
            applied = applied + 1;
        }
    }
    proof {
        lemma_rounds_applied(input@, rounds as nat, applied as nat);
    }

    // Escapes still present after the last permitted pass: an attacker can
    // always add one more layer, so say we stopped rather than pretend we
    // finished.
    let mut limited: bool = false;
    if applied == rounds && rounds > 0 {
        let (probe, _) = percent_decode(current.as_slice());
        limited = !same_bytes(probe.as_slice(), current.as_slice());
    }
    flags.decode_limit_reached = limited;
    flags.invalid_escape = flags.invalid_escape || stray;
    Normalized { bytes: current, rounds_applied: applied, flags }
}

/// The pieces of some bytes between occurrences of a separator.
pub open spec fn split(bytes: Seq<u8>, separator: u8) -> Seq<Seq<u8>>
    decreases bytes.len(),
{
    if bytes.len() == 0 {
        seq![Seq::empty()]
    } else {
        let before = split(bytes.drop_last(), separator);
        if bytes.last() == separator {
            before.push(Seq::empty())
        } else {
            before.update(before.len() - 1, before.last().push(bytes.last()))
        }
    }
}

/// Whether a path part is `.`.
pub open spec fn is_dot(part: Seq<u8>) -> bool {
    part == seq![0x2eu8]
}

/// Whether a path part is `..`.
pub open spec fn is_dot_dot(part: Seq<u8>) -> bool {
    part == seq![0x2eu8, 0x2eu8]
}

/// The segments that path parts resolve to: empty parts and `.` drop out, and
/// `..` takes the segment before it along, if there is one.
pub open spec fn segments(parts: Seq<Seq<u8>>) -> Seq<Seq<u8>>
    decreases parts.len(),
{
    if parts.len() == 0 {
        Seq::empty()
    } else {
        let before = segments(parts.drop_last());
        let last = parts.last();
        if last.len() == 0 || is_dot(last) {
            before
        } else if is_dot_dot(last) {
            if before.len() == 0 {
                before
            } else {
                before.drop_last()
            }
        } else {
            before.push(last)
        }
    }
}

/// Whether some `..` has no segment before it to take along.
pub open spec fn walks_above_root(parts: Seq<Seq<u8>>) -> bool {
    exists|i: int|
        0 <= i < parts.len() && is_dot_dot(#[trigger] parts[i]) && segments(parts.take(i)).len()
            == 0
}

/// Segments with a `/` between each two.
pub open spec fn joined(segments: Seq<Seq<u8>>) -> Seq<u8>
    decreases segments.len(),
{
    if segments.len() == 0 {
        Seq::empty()
    } else if segments.len() == 1 {
        segments[0]
    } else {
        joined(segments.drop_last()).push(0x2f) + segments.last()
    }
}

/// The input with backslashes read as separators, where they are.
pub open spec fn with_separators(input: Seq<u8>, backslash_is_separator: bool) -> Seq<u8> {
    input.map_values(
        |byte: u8|
            if backslash_is_separator && byte == 0x5c {
                0x2fu8
            } else {
                byte
            },
    )
}

/// The parts of a path.
pub open spec fn path_parts(input: Seq<u8>, backslash_is_separator: bool) -> Seq<Seq<u8>> {
    split(with_separators(input, backslash_is_separator), 0x2f)
}

/// Whether a path names a directory: its last part is empty, `.` or `..`.
pub open spec fn names_directory(parts: Seq<Seq<u8>>) -> bool {
    parts.last().len() == 0 || is_dot(parts.last()) || is_dot_dot(parts.last())
}

/// A path with its `.`, `..` and empty parts resolved. Absolute-ness and a
/// trailing separator are kept, but a relative path that resolves to nothing
/// stays nothing.
pub open spec fn collapsed(input: Seq<u8>, backslash_is_separator: bool) -> Seq<u8> {
    if input.len() == 0 {
        Seq::empty()
    } else {
        let parts = path_parts(input, backslash_is_separator);
        let absolute = with_separators(input, backslash_is_separator)[0] == 0x2f;
        let body = (if absolute {
            seq![0x2fu8]
        } else {
            Seq::<u8>::empty()
        }) + joined(segments(parts));
        if names_directory(parts) && body.len() > 0 && body.last() != 0x2f {
            body.push(0x2f)
        } else {
            body
        }
    }
}

/// What collapsing finds.
pub open spec fn collapse_flags(input: Seq<u8>, backslash_is_separator: bool) -> NormalizationFlags {
    let parts = path_parts(input, backslash_is_separator);
    NormalizationFlags {
        backslash: backslash_is_separator && exists|i: int|
            0 <= i < input.len() && #[trigger] input[i] == 0x5c,
        empty_segment: exists|i: int|
            0 < i < parts.len() - 1 && (#[trigger] parts[i]).len() == 0,
        self_reference: exists|i: int| 0 <= i < parts.len() && is_dot(#[trigger] parts[i]),
        traversal: exists|i: int| 0 <= i < parts.len() && is_dot_dot(#[trigger] parts[i]),
        above_root: walks_above_root(parts),
        ..NormalizationFlags::none()
    }
}

/// The contents of some byte strings.
pub open spec fn contents(strings: Seq<Vec<u8>>) -> Seq<Seq<u8>> {
    strings.map_values(|string: Vec<u8>| string@)
}

/// Split bytes at a separator.
fn split_bytes(bytes: &[u8], separator: u8) -> (parts: Vec<Vec<u8>>)
    ensures
        contents(parts@) == split(bytes@, separator),
        parts@.len() >= 1,
{
    let mut parts: Vec<Vec<u8>> = Vec::new();
    let mut current: Vec<u8> = Vec::new();
    let mut i: usize = 0;
    assert(contents(parts@).push(current@) =~= split(bytes@.take(0), separator));
    while i < bytes.len()
        invariant
            i <= bytes@.len(),
            contents(parts@).push(current@) == split(bytes@.take(i as int), separator),
        decreases bytes@.len() - i,
    {
        let byte: u8 = bytes[i];
        let ghost done = contents(parts@);
        let ghost part = current@;
        assert(bytes@.take(i + 1).drop_last() =~= bytes@.take(i as int));
        assert(done.push(part).last() == part);
        if byte == separator {
            parts.push(current);
            current = Vec::new();
            assert(contents(parts@).push(current@) =~= done.push(part).push(Seq::empty()));
        } else {
            current.push(byte);
            assert(done.push(part).update(done.len() as int, part.push(byte)) =~= contents(
                parts@,
            ).push(current@));
        }
        i = i + 1;
    }
    assert(bytes@.take(i as int) =~= bytes@);
    let ghost done = contents(parts@);
    let ghost part = current@;
    parts.push(current);
    assert(contents(parts@) =~= done.push(part));
    parts
}

/// Read backslashes as separators, where they are. Also says whether there was
/// one.
fn read_separators(input: &[u8], backslash_is_separator: bool) -> (result: (Vec<u8>, bool))
    ensures
        result.0@ == with_separators(input@, backslash_is_separator),
        result.1 == (backslash_is_separator && exists|i: int|
            0 <= i < input@.len() && #[trigger] input@[i] == 0x5c),
{
    let mut out: Vec<u8> = Vec::new();
    let mut seen: bool = false;
    let mut i: usize = 0;
    let ghost all = with_separators(input@, backslash_is_separator);
    while i < input.len()
        invariant
            i <= input@.len(),
            all == with_separators(input@, backslash_is_separator),
            out@ == all.take(i as int),
            seen == (backslash_is_separator && exists|j: int|
                0 <= j < i && #[trigger] input@[j] == 0x5c),
        decreases input@.len() - i,
    {
        let byte: u8 = input[i];
        if backslash_is_separator && byte == 0x5c {
            assert(input@[i as int] == 0x5c);
            seen = true;
            out.push(0x2f);
        } else {
            out.push(byte);
        }
        assert(out@ =~= all.take(i + 1));
        i = i + 1;
    }
    assert(all.take(i as int) =~= all);
    (out, seen)
}

/// The parts that a list of places picks out.
spec fn picked(parts: Seq<Seq<u8>>, places: Seq<usize>) -> Seq<Seq<u8>> {
    places.map_values(|place: usize| parts[place as int])
}

/// Resolve path parts to the places of the segments that remain, and note what
/// was found.
fn resolve_parts(parts: &Vec<Vec<u8>>, flags: &mut NormalizationFlags) -> (places: Vec<usize>)
    requires
        parts@.len() >= 1,
    ensures
        forall|i: int| 0 <= i < places@.len() ==> (#[trigger] places@[i]) < parts@.len(),
        picked(contents(parts@), places@) == segments(contents(parts@)),
        ({
            let all = contents(parts@);
            *final(flags) == NormalizationFlags {
                empty_segment: old(flags).empty_segment || exists|i: int|
                    0 < i < all.len() - 1 && (#[trigger] all[i]).len() == 0,
                self_reference: old(flags).self_reference || exists|i: int|
                    0 <= i < all.len() && is_dot(#[trigger] all[i]),
                traversal: old(flags).traversal || exists|i: int|
                    0 <= i < all.len() && is_dot_dot(#[trigger] all[i]),
                above_root: old(flags).above_root || walks_above_root(all),
                ..*old(flags)
            }
        }),
{
    let ghost all = contents(parts@);
    let mut places: Vec<usize> = Vec::new();
    let mut empty_segment: bool = flags.empty_segment;
    let mut self_reference: bool = flags.self_reference;
    let mut traversal: bool = flags.traversal;
    let mut above_root: bool = flags.above_root;
    let mut i: usize = 0;
    assert(picked(all, places@) =~= segments(all.take(0)));
    while i < parts.len()
        invariant
            all == contents(parts@),
            i <= all.len(),
            forall|j: int| 0 <= j < places@.len() ==> (#[trigger] places@[j]) < i,
            picked(all, places@) == segments(all.take(i as int)),
            empty_segment == (old(flags).empty_segment || exists|j: int|
                0 < j < all.len() - 1 && j < i && (#[trigger] all[j]).len() == 0),
            self_reference == (old(flags).self_reference || exists|j: int|
                0 <= j < i && is_dot(#[trigger] all[j])),
            traversal == (old(flags).traversal || exists|j: int|
                0 <= j < i && is_dot_dot(#[trigger] all[j])),
            above_root == (old(flags).above_root || exists|j: int|
                0 <= j < i && is_dot_dot(#[trigger] all[j]) && segments(all.take(j)).len() == 0),
        decreases all.len() - i,
    {
        let part: &Vec<u8> = &parts[i];
        let ghost before = places@;
        assert(all.take(i + 1).drop_last() =~= all.take(i as int));
        assert(all.take(i + 1).last() == all[i as int]);
        assert(part@ == all[i as int]);
        if part.len() == 0 {
            assert(!is_dot(part@) && !is_dot_dot(part@));
            // A `//` shows up as an empty part that is neither the leading nor
            // the trailing one — those two are just the separators at each end.
            if i != 0 && i != parts.len() - 1 {
                empty_segment = true;
            }
        } else if part.len() == 1 && part[0] == 0x2e {
            assert(part@ =~= seq![0x2eu8]);
            assert(!is_dot_dot(part@));
            self_reference = true;
        } else if part.len() == 2 && part[0] == 0x2e && part[1] == 0x2e {
            assert(part@ =~= seq![0x2eu8, 0x2eu8]);
            assert(!is_dot(part@));
            traversal = true;
            if places.len() == 0 {
                // Walked above the root. Servers clamp here; so do we, and we
                // remember that it was tried.
                above_root = true;
            } else {
                let _removed = places.pop();
                assert(picked(all, places@) =~= picked(all, before).drop_last());
            }
        } else {
            assert(!is_dot(part@) && !is_dot_dot(part@));
            places.push(i);
            assert(picked(all, places@) =~= picked(all, before).push(part@));
        }
        i = i + 1;
    }
    assert(all.take(i as int) =~= all);
    flags.empty_segment = empty_segment;
    flags.self_reference = self_reference;
    flags.traversal = traversal;
    flags.above_root = above_root;
    places
}

/// Join the parts at some places, behind `prefix`.
fn join_parts(prefix: Vec<u8>, parts: &Vec<Vec<u8>>, places: &Vec<usize>) -> (out: Vec<u8>)
    requires
        forall|i: int| 0 <= i < places@.len() ==> (#[trigger] places@[i]) < parts@.len(),
    ensures
        out@ == prefix@ + joined(picked(contents(parts@), places@)),
{
    let ghost all = picked(contents(parts@), places@);
    let mut out: Vec<u8> = prefix;
    let mut i: usize = 0;
    assert(out@ =~= prefix@ + joined(all.take(0)));
    while i < places.len()
        invariant
            forall|j: int| 0 <= j < places@.len() ==> (#[trigger] places@[j]) < parts@.len(),
            all == picked(contents(parts@), places@),
            i <= all.len(),
            out@ == prefix@ + joined(all.take(i as int)),
        decreases all.len() - i,
    {
        let ghost before = joined(all.take(i as int));
        assert(all.take(i + 1).drop_last() =~= all.take(i as int));
        assert(all.take(i + 1).last() == all[i as int]);
        let part: &Vec<u8> = &parts[places[i]];
        assert(part@ == all[i as int]);
        if i > 0 {
            out.push(0x2f);
        }
        out.extend_from_slice(part.as_slice());
        proof {
            if i > 0 {
                assert(out@ =~= prefix@ + (before.push(0x2f) + part@));
            } else {
                assert(out@ =~= prefix@ + part@);
                assert(all.take(1)[0] == part@);
            }
        }
        i = i + 1;
    }
    assert(all.take(i as int) =~= all);
    out
}

/// Resolve `.`, `..`, and empty segments in a path.
///
/// Absolute-ness and any trailing separator are preserved, because `/a/b` and
/// `/a/b/` are different requests to most servers.
pub fn collapse_path(input: &[u8], backslash_is_separator: bool) -> (result: (
    Vec<u8>,
    NormalizationFlags,
))
    ensures
        result.0@ == collapsed(input@, backslash_is_separator),
        result.1 == collapse_flags(input@, backslash_is_separator),
{
    let mut flags = NormalizationFlags::default();
    let (separated, backslash) = read_separators(input, backslash_is_separator);
    flags.backslash = backslash;
    let parts = split_bytes(separated.as_slice(), 0x2f);
    let ghost all = contents(parts@);
    assert(all == path_parts(input@, backslash_is_separator));
    let places = resolve_parts(&parts, &mut flags);
    if separated.len() == 0 {
        proof {
            assert(with_separators(input@, backslash_is_separator).len() == 0);
            assert(flags == collapse_flags(input@, backslash_is_separator));
        }
        return (Vec::new(), flags);
    }
    let mut prefix: Vec<u8> = Vec::new();
    if separated[0] == 0x2f {
        prefix.push(0x2f);
        assert(prefix@ =~= seq![0x2fu8]);
    } else {
        assert(prefix@ =~= Seq::<u8>::empty());
    }
    let mut out = join_parts(prefix, &parts, &places);

    // The result names a directory — and so keeps a trailing separator — when
    // the *last* part is a separator, `.`, or `..`. Anything earlier in the path
    // says nothing about how it ends.
    let last: &Vec<u8> = &parts[parts.len() - 1];
    let trailing = last.len() == 0 || (last.len() == 1 && last[0] == 0x2e) || (last.len() == 2
        && last[0] == 0x2e && last[1] == 0x2e);
    proof {
        assert(last@ == all.last());
        if last@.len() == 1 && last@[0] == 0x2e {
            assert(last@ =~= seq![0x2eu8]);
        }
        if last@.len() == 2 && last@[0] == 0x2e && last@[1] == 0x2e {
            assert(last@ =~= seq![0x2eu8, 0x2eu8]);
        }
        assert(trailing == names_directory(all));
    }
    // Never invent a leading separator for a relative path that resolved away
    // to nothing: `..` must not become `/`.
    if trailing && out.len() > 0 && out[out.len() - 1] != 0x2f {
        out.push(0x2f);
    }
    (out, flags)
}

/// The canonical form of a path under some options.
pub open spec fn normal_form(input: Seq<u8>, options: NormalizeOptions) -> Seq<u8> {
    let rounds = options.decode_rounds as nat;
    let plain = decoded_times(input, rounds_applied(input, rounds));
    if options.collapse_path {
        collapsed(plain, options.backslash_is_separator)
    } else {
        plain
    }
}

/// Decode and then collapse — the canonical form a rule should match against.
pub fn normalize_path(input: &[u8], options: &NormalizeOptions) -> (result: Normalized)
    ensures
        result.bytes@ == normal_form(input@, *options),
        result.rounds_applied == rounds_applied(input@, options.decode_rounds as nat),
        result.flags == (if options.collapse_path {
            repeated_flags(input@, options.decode_rounds as nat).union(
                collapse_flags(
                    decoded_times(input@, rounds_applied(input@, options.decode_rounds as nat)),
                    options.backslash_is_separator,
                ),
            )
        } else {
            repeated_flags(input@, options.decode_rounds as nat)
        }),
{
    let mut decoded_path = percent_decode_repeatedly(input, options.decode_rounds);
    if !options.collapse_path {
        return decoded_path;
    }
    let (bytes, flags) = collapse_path(
        decoded_path.bytes.as_slice(),
        options.backslash_is_separator,
    );
    decoded_path.flags.merge(flags);
    decoded_path.bytes = bytes;
    decoded_path
}

/// Normalization never grows its input, whatever the options.
pub proof fn law_normalization_never_grows_its_input(input: Seq<u8>, options: NormalizeOptions)
    ensures
        normal_form(input, options).len() <= input.len(),
{
    let applied = rounds_applied(input, options.decode_rounds as nat);
    lemma_decoded_times_len(input, applied);
    lemma_collapsed_len(decoded_times(input, applied), options.backslash_is_separator);
}

/// No segment of a collapsed path is empty, `.` or `..`.
pub proof fn law_no_dot_segment_survives(parts: Seq<Seq<u8>>)
    ensures
        forall|i: int|
            0 <= i < segments(parts).len() ==> (#[trigger] segments(parts)[i]).len() > 0 && !is_dot(
                segments(parts)[i],
            ) && !is_dot_dot(segments(parts)[i]),
    decreases parts.len(),
{
    if parts.len() > 0 {
        let before = segments(parts.drop_last());
        law_no_dot_segment_survives(parts.drop_last());
        assert forall|i: int| 0 <= i < segments(parts).len() implies (
        #[trigger] segments(parts)[i]).len() > 0 && !is_dot(segments(parts)[i]) && !is_dot_dot(
            segments(parts)[i],
        ) by {
            if i < before.len() {
                assert(segments(parts)[i] == before[i]);
            }
        }
    }
}

/// Bytes without a percent sign decode to themselves and raise no flag.
pub proof fn law_plain_bytes_decode_to_themselves(input: Seq<u8>)
    requires
        forall|i: int| 0 <= i < input.len() ==> #[trigger] input[i] != 0x25,
    ensures
        decoded(input) == input,
        decode_flags(input) == NormalizationFlags::none(),
    decreases input.len(),
{
    reveal(decoded);
    reveal(decode_flags);
    if input.len() > 0 {
        law_plain_bytes_decode_to_themselves(input.skip(1));
        assert(seq![input[0]] + input.skip(1) =~= input);
        lemma_union(NormalizationFlags::none(), NormalizationFlags::none(), decode_flags(input));
    }
}

proof fn lemma_decoded_len(input: Seq<u8>)
    ensures
        decoded(input).len() <= input.len(),
    decreases input.len(),
{
    reveal(decoded);
    if input.len() > 0 {
        match escape(input) {
            Some(_) => {
                lemma_decoded_len(input.skip(3));
            },
            None => {
                lemma_decoded_len(input.skip(1));
            },
        }
    }
}

proof fn lemma_decoded_times_len(input: Seq<u8>, rounds: nat)
    ensures
        decoded_times(input, rounds).len() <= input.len(),
    decreases rounds,
{
    if rounds > 0 {
        lemma_decoded_times_len(input, (rounds - 1) as nat);
        lemma_decoded_len(decoded_times(input, (rounds - 1) as nat));
    }
}

/// The length of some parts, each with a separator behind it.
spec fn spread(parts: Seq<Seq<u8>>) -> int
    decreases parts.len(),
{
    if parts.len() == 0 {
        0
    } else {
        spread(parts.drop_last()) + parts.last().len() + 1
    }
}

proof fn lemma_split_spread(bytes: Seq<u8>, separator: u8)
    ensures
        split(bytes, separator).len() >= 1,
        spread(split(bytes, separator)) == bytes.len() + 1,
        bytes.len() > 0 && bytes[0] == separator ==> split(bytes, separator).len() >= 2 && split(
            bytes,
            separator,
        )[0].len() == 0,
    decreases bytes.len(),
{
    let parts = split(bytes, separator);
    if bytes.len() == 0 {
        assert(parts.drop_last() =~= Seq::<Seq<u8>>::empty());
        assert(spread(parts.drop_last()) == 0);
    } else {
        let before = split(bytes.drop_last(), separator);
        lemma_split_spread(bytes.drop_last(), separator);
        if bytes.last() == separator {
            assert(parts.drop_last() =~= before);
            if bytes.len() == 1 {
                assert(before.len() == 1 && before[0].len() == 0);
            }
        } else {
            assert(parts.drop_last() =~= before.drop_last());
        }
    }
}

proof fn lemma_segments_spread(parts: Seq<Seq<u8>>)
    ensures
        0 <= spread(segments(parts)) <= spread(parts),
        parts.len() > 0 && parts[0].len() == 0 ==> spread(segments(parts)) <= spread(parts) - 1,
    decreases parts.len(),
{
    if parts.len() > 0 {
        let init = parts.drop_last();
        let before = segments(init);
        lemma_segments_spread(init);
        lemma_spread_nonnegative(before);
        if before.len() > 0 {
            lemma_spread_nonnegative(before.drop_last());
        }
        if parts.last().len() > 0 && !is_dot(parts.last()) && !is_dot_dot(parts.last()) {
            assert(before.push(parts.last()).drop_last() =~= before);
        }
        if init.len() > 0 {
            assert(init[0] == parts[0]);
        }
    }
}

proof fn lemma_spread_nonnegative(parts: Seq<Seq<u8>>)
    ensures
        spread(parts) >= 0,
    decreases parts.len(),
{
    if parts.len() > 0 {
        lemma_spread_nonnegative(parts.drop_last());
    }
}

proof fn lemma_joined_len(segments: Seq<Seq<u8>>)
    ensures
        segments.len() > 0 ==> joined(segments).len() == spread(segments) - 1,
        segments.len() == 0 ==> joined(segments).len() == 0,
    decreases segments.len(),
{
    if segments.len() == 1 {
        assert(segments.drop_last() =~= Seq::<Seq<u8>>::empty());
        assert(spread(segments.drop_last()) == 0);
    } else if segments.len() > 1 {
        lemma_joined_len(segments.drop_last());
    }
}

proof fn lemma_collapsed_len(input: Seq<u8>, backslash_is_separator: bool)
    ensures
        collapsed(input, backslash_is_separator).len() <= input.len(),
{
    if input.len() > 0 {
        let separated = with_separators(input, backslash_is_separator);
        let parts = path_parts(input, backslash_is_separator);
        let kept = segments(parts);
        lemma_split_spread(separated, 0x2f);
        lemma_segments_spread(parts);
        lemma_joined_len(kept);
        if names_directory(parts) {
            let init = parts.drop_last();
            lemma_segments_spread(init);
            lemma_spread_nonnegative(segments(init));
            if segments(init).len() > 0 {
                lemma_spread_nonnegative(segments(init).drop_last());
            }
            assert(spread(kept) <= spread(segments(init)));
            if init.len() > 0 {
                assert(init[0] == parts[0]);
            }
        }
    }
}

/// Whether a byte does not occur in some bytes.
pub open spec fn free_of(bytes: Seq<u8>, byte: u8) -> bool {
    forall|i: int| 0 <= i < bytes.len() ==> #[trigger] bytes[i] != byte
}

/// Whether a segment is one that a collapsed path can have.
spec fn plain(segment: Seq<u8>) -> bool {
    &&& segment.len() > 0
    &&& !is_dot(segment)
    &&& !is_dot_dot(segment)
    &&& free_of(segment, 0x2f)
}

spec fn all_plain(segments: Seq<Seq<u8>>) -> bool {
    forall|i: int| 0 <= i < segments.len() ==> plain(#[trigger] segments[i])
}

/// A separator and more bytes without one add one part.
proof fn lemma_split_one_more(bytes: Seq<u8>, more: Seq<u8>, separator: u8)
    requires
        free_of(more, separator),
    ensures
        split(bytes.push(separator) + more, separator) == split(bytes, separator).push(more),
    decreases more.len(),
{
    let whole = bytes.push(separator) + more;
    if more.len() == 0 {
        assert(whole =~= bytes.push(separator));
        assert(whole.drop_last() =~= bytes);
        assert(more =~= Seq::<u8>::empty());
    } else {
        let shorter = more.drop_last();
        assert(free_of(shorter, separator)) by {
            assert forall|i: int| 0 <= i < shorter.len() implies #[trigger] shorter[i]
                != separator by {
                assert(shorter[i] == more[i]);
            }
        }
        lemma_split_one_more(bytes, shorter, separator);
        assert(whole.drop_last() =~= bytes.push(separator) + shorter);
        assert(more[more.len() - 1] == whole.last());
        assert(shorter.push(more.last()) =~= more);
        assert(split(whole, separator) =~= split(bytes, separator).push(more));
    }
}

/// Bytes without a separator are one part.
proof fn lemma_split_none(bytes: Seq<u8>, separator: u8)
    requires
        free_of(bytes, separator),
    ensures
        split(bytes, separator) == seq![bytes],
    decreases bytes.len(),
{
    if bytes.len() == 0 {
        assert(bytes =~= Seq::<u8>::empty());
    } else {
        let shorter = bytes.drop_last();
        assert forall|i: int| 0 <= i < shorter.len() implies #[trigger] shorter[i]
            != separator by {
            assert(shorter[i] == bytes[i]);
        }
        lemma_split_none(shorter, separator);
        assert(bytes[bytes.len() - 1] != separator);
        assert(shorter.push(bytes.last()) =~= bytes);
        assert(split(bytes, separator) =~= seq![bytes]);
    }
}

/// The parts of bytes hold no separator and nothing that the bytes do not.
proof fn lemma_split_parts(bytes: Seq<u8>, separator: u8, other: u8)
    ensures
        forall|i: int|
            0 <= i < split(bytes, separator).len() ==> free_of(
                #[trigger] split(bytes, separator)[i],
                separator,
            ),
        free_of(bytes, other) ==> forall|i: int|
            0 <= i < split(bytes, separator).len() ==> free_of(
                #[trigger] split(bytes, separator)[i],
                other,
            ),
        split(bytes, separator).len() >= 1,
    decreases bytes.len(),
{
    if bytes.len() > 0 {
        let shorter = bytes.drop_last();
        lemma_split_parts(shorter, separator, other);
        if free_of(bytes, other) {
            assert forall|i: int| 0 <= i < shorter.len() implies #[trigger] shorter[i] != other by {
                assert(shorter[i] == bytes[i]);
            }
            assert(bytes[bytes.len() - 1] != other);
        }
    }
}

/// The segments of parts are among the parts.
proof fn lemma_segments_are_parts(parts: Seq<Seq<u8>>)
    ensures
        forall|i: int|
            0 <= i < segments(parts).len() ==> parts.contains(#[trigger] segments(parts)[i]),
    decreases parts.len(),
{
    if parts.len() > 0 {
        let init = parts.drop_last();
        let before = segments(init);
        lemma_segments_are_parts(init);
        assert forall|i: int| 0 <= i < segments(parts).len() implies parts.contains(
            #[trigger] segments(parts)[i],
        ) by {
            if i < before.len() {
                assert(segments(parts)[i] == before[i]);
                let k = choose|k: int| 0 <= k < init.len() && init[k] == before[i];
                assert(parts[k] == before[i]);
            } else {
                assert(parts[parts.len() - 1] == segments(parts)[i]);
            }
        }
    }
}

/// Plain segments stay behind whatever parts come before them.
proof fn lemma_segments_of_plain(parts: Seq<Seq<u8>>, plain_ones: Seq<Seq<u8>>)
    requires
        all_plain(plain_ones),
    ensures
        segments(parts + plain_ones) == segments(parts) + plain_ones,
    decreases plain_ones.len(),
{
    if plain_ones.len() == 0 {
        assert(parts + plain_ones =~= parts);
        assert(segments(parts) + plain_ones =~= segments(parts));
    } else {
        let init = plain_ones.drop_last();
        assert forall|i: int| 0 <= i < init.len() implies plain(#[trigger] init[i]) by {
            assert(init[i] == plain_ones[i]);
        }
        lemma_segments_of_plain(parts, init);
        assert((parts + plain_ones).drop_last() =~= parts + init);
        assert((parts + plain_ones).last() == plain_ones[plain_ones.len() - 1]);
        assert((segments(parts) + init).push(plain_ones.last()) =~= segments(parts) + plain_ones);
    }
}

/// Joined segments split into themselves, behind whatever led up to them.
proof fn lemma_split_joined(lead: bool, plain_ones: Seq<Seq<u8>>)
    requires
        all_plain(plain_ones),
        plain_ones.len() > 0,
    ensures
        ({
            let front = if lead {
                seq![0x2fu8]
            } else {
                Seq::<u8>::empty()
            };
            let parts = if lead {
                seq![Seq::<u8>::empty()]
            } else {
                Seq::<Seq<u8>>::empty()
            };
            &&& split(front + joined(plain_ones), 0x2f) == parts + plain_ones
            &&& joined(plain_ones).len() > 0
            &&& joined(plain_ones)[0] != 0x2f
            &&& joined(plain_ones).last() != 0x2f
        }),
    decreases plain_ones.len(),
{
    let front = if lead {
        seq![0x2fu8]
    } else {
        Seq::<u8>::empty()
    };
    let parts = if lead {
        seq![Seq::<u8>::empty()]
    } else {
        Seq::<Seq<u8>>::empty()
    };
    let last = plain_ones[plain_ones.len() - 1];
    assert(plain(last));
    assert(last[last.len() - 1] != 0x2f && last[0] != 0x2f);
    if plain_ones.len() == 1 {
        assert(plain_ones =~= seq![last]);
        if lead {
            assert(front + last =~= Seq::<u8>::empty().push(0x2f) + last);
            lemma_split_one_more(Seq::empty(), last, 0x2f);
            assert(split(Seq::<u8>::empty(), 0x2f).push(last) =~= parts + plain_ones);
        } else {
            assert(front + last =~= last);
            lemma_split_none(last, 0x2f);
            assert(parts + plain_ones =~= seq![last]);
        }
    } else {
        let init = plain_ones.drop_last();
        assert forall|i: int| 0 <= i < init.len() implies plain(#[trigger] init[i]) by {
            assert(init[i] == plain_ones[i]);
        }
        lemma_split_joined(lead, init);
        assert(front + joined(plain_ones) =~= (front + joined(init)).push(0x2f) + last);
        lemma_split_one_more(front + joined(init), last, 0x2f);
        assert((parts + init).push(last) =~= parts + plain_ones);
        assert(joined(plain_ones)[0] == joined(init)[0]);
    }
}

/// Whatever stands in joined segments stands in one of them, or is a separator.
proof fn lemma_joined_free(plain_ones: Seq<Seq<u8>>, byte: u8)
    requires
        byte != 0x2f,
        forall|i: int| 0 <= i < plain_ones.len() ==> free_of(#[trigger] plain_ones[i], byte),
    ensures
        free_of(joined(plain_ones), byte),
    decreases plain_ones.len(),
{
    if plain_ones.len() == 1 {
        assert(free_of(plain_ones[0], byte));
    } else if plain_ones.len() > 1 {
        let init = plain_ones.drop_last();
        assert forall|i: int| 0 <= i < init.len() implies free_of(#[trigger] init[i], byte) by {
            assert(init[i] == plain_ones[i]);
        }
        lemma_joined_free(init, byte);
        assert(free_of(plain_ones[plain_ones.len() - 1], byte));
        let whole = joined(plain_ones);
        let front = joined(init).push(0x2f);
        assert forall|i: int| 0 <= i < whole.len() implies #[trigger] whole[i] != byte by {
            if i < joined(init).len() {
                assert(whole[i] == joined(init)[i]);
            } else if i >= front.len() {
                assert(whole[i] == plain_ones.last()[i - front.len()]);
            }
        }
    }
}

/// A collapsed path is canonical: collapsing it once more changes nothing, and finds
/// neither a `.` nor a `..` nor an empty segment in it.
pub proof fn law_a_collapsed_path_is_canonical(input: Seq<u8>, backslash_is_separator: bool)
    ensures
        ({
            let once = collapsed(input, backslash_is_separator);
            &&& collapsed(once, backslash_is_separator) == once
            &&& collapse_flags(once, backslash_is_separator) == NormalizationFlags::none()
        }),
{
    let once = collapsed(input, backslash_is_separator);
    let separated = with_separators(input, backslash_is_separator);
    let parts = split(separated, 0x2f);
    let kept = segments(parts);
    if once.len() == 0 {
        assert(once =~= Seq::<u8>::empty());
        assert(with_separators(once, backslash_is_separator) =~= once);
        assert(split(once, 0x2f) =~= seq![Seq::<u8>::empty()]);
        lemma_no_flags(once, backslash_is_separator, split(once, 0x2f));
    } else {
        let lead = separated[0] == 0x2f;
        let front = if lead {
            seq![0x2fu8]
        } else {
            Seq::<u8>::empty()
        };
        let first = if lead {
            seq![Seq::<u8>::empty()]
        } else {
            Seq::<Seq<u8>>::empty()
        };
        let body = front + joined(kept);
        // What is kept is plain and, where a backslash separates, holds none.
        lemma_split_parts(separated, 0x2f, 0x5c);
        lemma_segments_are_parts(parts);
        law_no_dot_segment_survives(parts);
        assert forall|i: int| 0 <= i < kept.len() implies plain(#[trigger] kept[i]) by {
            let k = choose|k: int| 0 <= k < parts.len() && parts[k] == kept[i];
            assert(free_of(parts[k], 0x2f));
        }
        if backslash_is_separator {
            assert(free_of(separated, 0x5c));
            assert forall|i: int| 0 <= i < kept.len() implies free_of(#[trigger] kept[i], 0x5c) by {
                let k = choose|k: int| 0 <= k < parts.len() && parts[k] == kept[i];
                assert(free_of(parts[k], 0x5c));
            }
            lemma_joined_free(kept, 0x5c);
            assert forall|i: int| 0 <= i < once.len() implies #[trigger] once[i] != 0x5c by {
                if front.len() <= i < body.len() {
                    assert(once[i] == joined(kept)[i - front.len()]);
                }
            }
        }
        assert(with_separators(once, backslash_is_separator) =~= once);
        // So it splits into what was kept, and what led up to it and came after it.
        let again = split(once, 0x2f);
        lemma_segments_of_plain(first, kept);
        assert(segments(first) == Seq::<Seq<u8>>::empty()) by {
            if lead {
                assert(first.drop_last() =~= Seq::<Seq<u8>>::empty());
                assert(segments(first.drop_last()) =~= Seq::<Seq<u8>>::empty());
            }
        }
        assert(segments(first) + kept =~= kept);
        if kept.len() == 0 {
            assert(joined(kept) =~= Seq::<u8>::empty());
            assert(lead);
            assert(body =~= seq![0x2fu8]);
            assert(once =~= seq![0x2fu8]);
            assert(once.drop_last() =~= Seq::<u8>::empty());
            assert(split(once.drop_last(), 0x2f) =~= seq![Seq::<u8>::empty()]);
            assert(again =~= seq![Seq::<u8>::empty(), Seq::<u8>::empty()]);
            assert(again.drop_last() =~= first);
            assert(segments(again) == Seq::<Seq<u8>>::empty());
        } else {
            lemma_split_joined(lead, kept);
            assert(split(body, 0x2f) == first + kept);
            assert(body.last() == joined(kept).last());
            assert(plain(kept[kept.len() - 1]));
            if names_directory(parts) {
                assert(once.drop_last() =~= body);
                assert(again == (first + kept).push(Seq::empty()));
                assert(again.drop_last() =~= first + kept);
            } else {
                assert(again == first + kept);
                assert(again.last() == kept[kept.len() - 1]);
            }
            assert(segments(again) == kept);
            assert(once[0] == body[0]);
        }
        assert(collapsed(once, backslash_is_separator) =~= once);
        assert forall|i: int| 0 <= i < again.len() implies !is_dot(#[trigger] again[i])
            && !is_dot_dot(again[i]) && (again[i].len() > 0 || i == 0 || i == again.len() - 1) by {
            if first.len() <= i < first.len() + kept.len() {
                assert(again[i] == kept[i - first.len()]);
                assert(plain(kept[i - first.len()]));
            }
        }
        lemma_no_flags(once, backslash_is_separator, again);
    }
}

/// A path whose parts are neither `.` nor `..`, and empty only at the ends, raises no
/// flag.
proof fn lemma_no_flags(path: Seq<u8>, backslash_is_separator: bool, parts: Seq<Seq<u8>>)
    requires
        parts == path_parts(path, backslash_is_separator),
        backslash_is_separator ==> free_of(path, 0x5c),
        forall|i: int|
            0 <= i < parts.len() ==> !is_dot(#[trigger] parts[i]) && !is_dot_dot(parts[i]) && (
            parts[i].len() > 0 || i == 0 || i == parts.len() - 1),
    ensures
        collapse_flags(path, backslash_is_separator) == NormalizationFlags::none(),
{
}

/// Whether a byte is a hexadecimal digit of a value, in either case.
pub open spec fn is_digit_for(byte: u8, value: int) -> bool {
    ||| 0 <= value < 10 && byte == 0x30 + value
    ||| 10 <= value < 16 && (byte == 0x61 + value - 10 || byte == 0x41 + value - 10)
}

/// An escape is the byte that its two digits spell, wherever it stands. One that spells
/// zero is flagged, and so is decoding itself.
pub proof fn law_an_escape_is_the_byte_it_spells(
    first: u8,
    second: u8,
    high: int,
    low: int,
    rest: Seq<u8>,
)
    requires
        is_digit_for(first, high),
        is_digit_for(second, low),
    ensures
        ({
            let input = seq![0x25u8, first, second] + rest;
            &&& decoded(input) == seq![(16 * high + low) as u8] + decoded(rest)
            &&& decode_flags(input).percent_encoded
            &&& decode_flags(input).null_byte <==> 16 * high + low == 0 || decode_flags(
                rest,
            ).null_byte
            &&& decode_flags(input).invalid_escape <==> decode_flags(rest).invalid_escape
        }),
{
    reveal(decoded);
    reveal(decode_flags);
    reveal(NormalizationFlags::union);
    let input = seq![0x25u8, first, second] + rest;
    assert(input.skip(3) =~= rest);
    assert(hex_digit(first) is Some && hex_digit(first)->0 == high);
    assert(hex_digit(second) is Some && hex_digit(second)->0 == low);
    assert(escape(input) is Some && escape(input)->0 == (16 * high + low) as u8);
}

/// Any other byte stays as it is. A percent sign that begins no escape is flagged.
pub proof fn law_other_bytes_stay(byte: u8, rest: Seq<u8>)
    requires
        byte != 0x25 || rest.len() < 2 || !exists|high: int, low: int|
            #[trigger] is_digit_for(rest[0], high) && #[trigger] is_digit_for(rest[1], low),
    ensures
        ({
            let input = seq![byte] + rest;
            &&& decoded(input) == seq![byte] + decoded(rest)
            &&& decode_flags(input).percent_encoded <==> decode_flags(rest).percent_encoded
            &&& decode_flags(input).null_byte <==> decode_flags(rest).null_byte
            &&& decode_flags(input).invalid_escape <==> byte == 0x25 || decode_flags(
                rest,
            ).invalid_escape
        }),
        decoded(Seq::<u8>::empty()) == Seq::<u8>::empty(),
        decode_flags(Seq::<u8>::empty()) == NormalizationFlags::none(),
{
    reveal(decoded);
    reveal(decode_flags);
    reveal(NormalizationFlags::union);
    let input = seq![byte] + rest;
    assert(input.skip(1) =~= rest);
    if escape(input) is Some {
        let high = hex_digit(rest[0])->0 as int;
        let low = hex_digit(rest[1])->0 as int;
        assert(input[1] == rest[0] && input[2] == rest[1]);
        assert(is_digit_for(rest[0], high) && is_digit_for(rest[1], low));
    }
}

/// Decoding goes on until nothing is left to decode or the last permitted pass is done:
/// unless the limit is said to be reached, decoding the result once more changes nothing.
/// More than one pass that changed something is double encoding.
pub proof fn law_decoding_goes_on_until_nothing_is_left(input: Seq<u8>, rounds: nat)
    ensures
        ({
            let applied = rounds_applied(input, rounds);
            let last = decoded_times(input, applied);
            &&& applied <= rounds
            &&& applied < rounds ==> decoded(last) == last
            &&& rounds > 0 ==> (repeated_flags(input, rounds).decode_limit_reached <==> decoded(
                last,
            ) != last)
            &&& rounds == 0 ==> last == input && repeated_flags(input, rounds)
                == NormalizationFlags::none()
            &&& repeated_flags(input, rounds).double_encoded <==> applied > 1
            &&& applied == 0 <==> rounds == 0 || decoded(input) == input
        }),
    decreases rounds,
{
    reveal(decode_flags);
    reveal(NormalizationFlags::union);
    let applied = rounds_applied(input, rounds);
    if rounds > 0 && decoded(input) != input {
        law_decoding_goes_on_until_nothing_is_left(decoded(input), (rounds - 1) as nat);
        lemma_decoded_times(input, (applied - 1) as nat);
    }
    lemma_no_double(input, applied);
}

proof fn lemma_no_double(input: Seq<u8>, rounds: nat)
    ensures
        rounds_flags(input, rounds).double_encoded <==> rounds > 1,
{
}

/// Splitting at a separator: bytes on both sides of one give the pieces of both.
pub proof fn law_parts_stand_between_separators(a: Seq<u8>, separator: u8, b: Seq<u8>)
    ensures
        split(a.push(separator) + b, separator) == split(a, separator) + split(b, separator),
        split(b, separator).len() > 0,
        free_of(b, separator) ==> split(b, separator) == seq![b],
    decreases b.len(),
{
    let whole = a.push(separator) + b;
    if b.len() == 0 {
        assert(whole =~= a.push(separator));
        assert(whole.drop_last() =~= a);
        assert(b =~= Seq::<u8>::empty());
        assert(split(whole, separator) =~= split(a, separator) + split(b, separator));
    } else {
        let init = b.drop_last();
        law_parts_stand_between_separators(a, separator, init);
        assert(whole.drop_last() =~= a.push(separator) + init);
        assert(split(whole, separator) =~= split(a, separator) + split(b, separator));
        if free_of(b, separator) {
            assert forall|i: int| 0 <= i < init.len() implies #[trigger] init[i] != separator by {
                assert(init[i] == b[i]);
            }
            assert(b[b.len() - 1] != separator);
            assert(init.push(b.last()) =~= b);
            assert(split(b, separator) =~= seq![b]);
        }
    }
}

/// How parts resolve: a name adds itself, an empty part and a dot add nothing, and two
/// dots take back what came before, if anything did.
pub proof fn law_two_dots_take_back_a_name(parts: Seq<Seq<u8>>, name: Seq<u8>)
    requires
        name.len() > 0,
        name != seq![0x2eu8],
        name != seq![0x2eu8, 0x2eu8],
    ensures
        segments(parts.push(name)) == segments(parts).push(name),
        segments(parts.push(Seq::empty())) == segments(parts),
        segments(parts.push(seq![0x2eu8])) == segments(parts),
        segments(parts.push(name).push(seq![0x2eu8, 0x2eu8])) == segments(parts),
        segments(parts).len() == 0 ==> segments(parts.push(seq![0x2eu8, 0x2eu8])).len() == 0
            && walks_above_root(parts.push(seq![0x2eu8, 0x2eu8])),
{
    let dot = seq![0x2eu8];
    let up = seq![0x2eu8, 0x2eu8];
    let none = Seq::<u8>::empty();
    assert(up.len() == 2 && dot.len() == 1);
    assert(parts.push(name).drop_last() =~= parts);
    assert(parts.push(none).drop_last() =~= parts);
    assert(parts.push(dot).drop_last() =~= parts);
    assert(parts.push(up).drop_last() =~= parts);
    assert(parts.push(name).push(up).drop_last() =~= parts.push(name));
    assert(up != dot);
    let back = parts.push(name).push(up);
    assert(is_dot_dot(back.last()) && !is_dot(back.last()));
    assert(segments(parts.push(name)) == segments(parts).push(name));
    assert(segments(back) == segments(parts.push(name)).drop_last());
    assert(segments(parts).push(name).drop_last() =~= segments(parts));
    let all = parts.push(up);
    assert(all.take(parts.len() as int) =~= parts);
    assert(is_dot_dot(all[parts.len() as int]));
}

/// Segments are written with a slash between each two.
pub proof fn law_segments_are_joined_by_slashes(some: Seq<Seq<u8>>, last: Seq<u8>)
    ensures
        joined(seq![last]) == last,
        some.len() > 0 ==> joined(some.push(last)) == joined(some).push(0x2f) + last,
        joined(Seq::<Seq<u8>>::empty()).len() == 0,
{
    assert(some.push(last).drop_last() =~= some);
}

/// A collapsed path starts with a slash exactly where the path did, and one that names a
/// directory ends with one; between them stand its segments. A backslash is a slash where
/// it separates.
pub proof fn law_a_collapsed_path_keeps_its_ends(input: Seq<u8>, backslash_is_separator: bool)
    requires
        input.len() > 0,
    ensures
        ({
            let once = collapsed(input, backslash_is_separator);
            let parts = path_parts(input, backslash_is_separator);
            let absolute = input[0] == 0x2f || (backslash_is_separator && input[0] == 0x5c);
            let last = input.last();
            let open = last == 0x2f || (backslash_is_separator && last == 0x5c);
            &&& absolute ==> once.len() > 0 && once[0] == 0x2f
            &&& open && once.len() > 0 ==> once.last() == 0x2f
            &&& absolute ==> once == seq![0x2fu8] + joined(segments(parts)) || once == (
            seq![0x2fu8] + joined(segments(parts))).push(0x2f)
            &&& !absolute ==> once == joined(segments(parts)) || once == joined(
                segments(parts),
            ).push(0x2f)
        }),
{
    let parts = path_parts(input, backslash_is_separator);
    let plain = with_separators(input, backslash_is_separator);
    assert(plain.len() == input.len());
    assert(plain[0] == if backslash_is_separator && input[0] == 0x5c {
        0x2fu8
    } else {
        input[0]
    });
    let end = input.len() - 1;
    assert(plain[end] == if backslash_is_separator && input[end] == 0x5c {
        0x2fu8
    } else {
        input[end]
    });
    assert(Seq::<u8>::empty() + joined(segments(parts)) =~= joined(segments(parts)));
}

/// What collapsing flags: backslashes that separate, empty parts inside, dots, two dots,
/// and two dots with nothing before them.
pub proof fn law_what_collapsing_flags(input: Seq<u8>, separates: bool, i: int)
    ensures
        ({
            let flags = collapse_flags(input, separates);
            let parts = path_parts(input, separates);
            &&& separates && 0 <= i < input.len() && input[i] == 0x5c ==> flags.backslash
            &&& !separates ==> !flags.backslash
            &&& 0 < i < parts.len() - 1 && parts[i].len() == 0 ==> flags.empty_segment
            &&& flags.self_reference <==> parts.contains(seq![0x2eu8])
            &&& flags.traversal <==> parts.contains(seq![0x2eu8, 0x2eu8])
            &&& flags.above_root ==> flags.traversal
            &&& !flags.percent_encoded && !flags.double_encoded && !flags.invalid_escape
                && !flags.null_byte && !flags.decode_limit_reached
        }),
{
    let flags = collapse_flags(input, separates);
    let parts = path_parts(input, separates);
    if parts.contains(seq![0x2eu8]) {
        let k = choose|k: int| 0 <= k < parts.len() && parts[k] == seq![0x2eu8];
        assert(is_dot(parts[k]));
    }
    if parts.contains(seq![0x2eu8, 0x2eu8]) {
        let k = choose|k: int| 0 <= k < parts.len() && parts[k] == seq![0x2eu8, 0x2eu8];
        assert(is_dot_dot(parts[k]));
    }
}

/// Without collapsing, normalizing is decoding; with it, what was decoded is collapsed.
pub proof fn law_normalizing_decodes_first(input: Seq<u8>, options: NormalizeOptions)
    ensures
        options.decode_rounds == 0 && !options.collapse_path ==> normal_form(input, options)
            == input,
        options.decode_rounds == 0 && options.collapse_path ==> normal_form(input, options)
            == collapsed(input, options.backslash_is_separator),
        options.decode_rounds == 1 && !options.collapse_path ==> normal_form(input, options)
            == decoded(input),
        options.decode_rounds == 1 && options.collapse_path ==> normal_form(input, options)
            == collapsed(decoded(input), options.backslash_is_separator),
{
    reveal_with_fuel(rounds_applied, 2);
    reveal_with_fuel(decoded_times, 2);
}

} // verus!
