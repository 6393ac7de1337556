//! Numbers and text in byte buffers.

use vstd::prelude::*;

verus! {

/// `char::from_u32` gives the character of a number, where there is one: every
/// number up to 0x10ffff but the surrogates has one.
pub assume_specification[ char::from_u32 ](n: u32) -> (c: Option<char>)
    ensures
        c == (if n < 0xd800 || 0xe000 <= n <= 0x10_ffff {
            Some(n as char)
        } else {
            None
        }),
;

/// The text that bytes hold as UTF-8, with the replacement character for what is
/// not UTF-8.
pub uninterp spec fn utf8_text(bytes: Seq<u8>) -> Seq<char>;

/// `String::from_utf8_lossy`: the text that bytes hold as UTF-8, with U+FFFD in
/// place of what is not UTF-8. Of bytes below 128 it is these characters
/// themselves, and each character stands for one byte or more; how many
/// replacement characters a broken sequence gives is left to the name.
#[verifier::external_body]
pub(crate) fn decode_utf8(bytes: &[u8]) -> (text: String)
    ensures
        text@ == utf8_text(bytes@),
        text@.len() <= bytes@.len(),
        (forall|i: int| 0 <= i < bytes@.len() ==> #[trigger] bytes@[i] < 128) ==> text@
            == bytes@.map_values(|byte: u8| byte as char),
{
    String::from_utf8_lossy(bytes).into_owned()
}

/// The number that bytes spell, lowest first.
pub open spec fn little_endian(bytes: Seq<u8>) -> nat
    decreases bytes.len(),
{
    if bytes.len() == 0 {
        0
    } else {
        bytes[0] as nat + 256 * little_endian(bytes.skip(1))
    }
}

/// The number of `count` bytes at a place of a buffer, lowest first.
pub open spec fn number_at(bytes: Seq<u8>, at: int, count: int) -> nat {
    little_endian(bytes.subrange(at, at + count))
}

/// A 64-bit number read as a signed one.
pub open spec fn as_signed(n: nat) -> int {
    if n <= i64::MAX {
        n as int
    } else {
        n - 0x1_0000_0000_0000_0000
    }
}

/// One more than the largest number of so many bytes.
spec fn room(count: nat) -> nat
    decreases count,
{
    if count == 0 {
        1
    } else {
        256 * room((count - 1) as nat)
    }
}

proof fn lemma_room(low: nat, high: nat)
    requires
        low <= high,
    ensures
        room(low) <= room(high),
    decreases high,
{
    if low < high {
        lemma_room(low, (high - 1) as nat);
    }
}

/// Read a number of at most 16 bytes, lowest first.
pub fn read_number(bytes: &[u8], at: usize, count: usize) -> (value: u128)
    requires
        at + count <= bytes@.len(),
        count <= 16,
    ensures
        value == number_at(bytes@, at as int, count as int),
        count <= 8 ==> value <= u64::MAX,
        count <= 4 ==> value <= u32::MAX,
        count <= 2 ==> value <= u16::MAX,
{
    let ghost field = bytes@.subrange(at as int, at + count);
    let mut value: u128 = 0;
    let mut left: usize = count;
    assert(field.skip(count as int) =~= seq![]);
    proof {
        reveal_with_fuel(room, 17);
        assert(room(16) == 0x1_0000_0000_0000_0000_0000_0000_0000_0000);
        assert(room(8) == 0x1_0000_0000_0000_0000);
        assert(room(4) == 0x1_0000_0000);
        assert(room(2) == 0x1_0000);
        assert(room(0) == 1);
    }
    while left > 0
        invariant
            left <= count <= 16,
            at + count <= bytes@.len(),
            field == bytes@.subrange(at as int, at + count),
            value == little_endian(field.skip(left as int)),
            value < room((count - left) as nat),
            room(16) == 0x1_0000_0000_0000_0000_0000_0000_0000_0000,
        decreases left,
    {
        left = left - 1;
        proof {
            let rest = field.skip(left as int);
            assert(rest[0] == bytes@[at + left]);
            assert(rest.skip(1) =~= field.skip(left + 1));
            lemma_room((count - left) as nat, 16);
        }
        assert(at + left < bytes.len());
        value = value * 256 + bytes[at + left] as u128;
    }
    assert(field.skip(0) =~= field);
    proof {
        if count <= 8 {
            lemma_room(count as nat, 8);
        }
        if count <= 4 {
            lemma_room(count as nat, 4);
        }
        if count <= 2 {
            lemma_room(count as nat, 2);
        }
    }
    value
}

/// The number that bytes spell, highest first.
pub open spec fn network_order(bytes: Seq<u8>) -> nat
    decreases bytes.len(),
{
    if bytes.len() == 0 {
        0
    } else {
        256 * network_order(bytes.drop_last()) + bytes.last() as nat
    }
}

/// The number of `count` bytes at a place of a buffer, highest first.
pub open spec fn network_number_at(bytes: Seq<u8>, at: int, count: int) -> nat {
    network_order(bytes.subrange(at, at + count))
}

/// Read a number of at most 16 bytes, highest first.
pub fn read_network_number(bytes: &[u8], at: usize, count: usize) -> (value: u128)
    requires
        at + count <= bytes@.len(),
        count <= 16,
    ensures
        value == network_number_at(bytes@, at as int, count as int),
        count <= 4 ==> value <= u32::MAX,
        count <= 2 ==> value <= u16::MAX,
{
    let ghost field = bytes@.subrange(at as int, at + count);
    let mut value: u128 = 0;
    let mut done: usize = 0;
    assert(field.take(0) =~= seq![]);
    proof {
        reveal_with_fuel(room, 17);
        assert(room(16) == 0x1_0000_0000_0000_0000_0000_0000_0000_0000);
        assert(room(4) == 0x1_0000_0000);
        assert(room(2) == 0x1_0000);
    }
    while done < count
        invariant
            done <= count <= 16,
            at + count <= bytes@.len(),
            field == bytes@.subrange(at as int, at + count),
            value == network_order(field.take(done as int)),
            value < room(done as nat),
            room(16) == 0x1_0000_0000_0000_0000_0000_0000_0000_0000,
        decreases count - done,
    {
        proof {
            assert(field.take(done + 1).drop_last() =~= field.take(done as int));
            assert(field.take(done + 1).last() == bytes@[at + done]);
            lemma_room((done + 1) as nat, 16);
        }
        assert(at + done < bytes.len());
        value = value * 256 + bytes[at + done] as u128;
        done = done + 1;
    }
    assert(field.take(count as int) =~= field);
    proof {
        if count <= 4 {
            lemma_room(count as nat, 4);
        }
        if count <= 2 {
            lemma_room(count as nat, 2);
        }
    }
    value
}

/// Read a signed 64-bit number, lowest byte first.
pub fn read_i64(bytes: &[u8], at: usize) -> (value: i64)
    requires
        at + 8 <= bytes@.len(),
    ensures
        value == as_signed(number_at(bytes@, at as int, 8)),
{
    let n: u64 = read_number(bytes, at, 8) as u64;
    if n <= i64::MAX as u64 {
        n as i64
    } else {
        -((u64::MAX - n) as i64) - 1
    }
}

/// Read an unsigned 16-bit number, lowest byte first.
pub fn read_u16(bytes: &[u8], at: usize) -> (value: u16)
    requires
        at + 2 <= bytes@.len(),
    ensures
        value == number_at(bytes@, at as int, 2),
{
    read_number(bytes, at, 2) as u16
}

/// Read an unsigned 32-bit number, lowest byte first.
pub fn read_u32(bytes: &[u8], at: usize) -> (value: u32)
    requires
        at + 4 <= bytes@.len(),
    ensures
        value == number_at(bytes@, at as int, 4),
{
    read_number(bytes, at, 4) as u32
}

/// The code units of a text in UTF-16, lowest byte first.
pub open spec fn units_of(bytes: Seq<u8>) -> Seq<nat>
    decreases bytes.len(),
{
    if bytes.len() < 2 {
        seq![]
    } else {
        seq![bytes[0] as nat + 256 * bytes[1] as nat] + units_of(bytes.skip(2))
    }
}

/// The first half of a pair of code units.
pub open spec fn is_high(unit: nat) -> bool {
    0xd800 <= unit < 0xdc00
}

/// The second half of a pair of code units.
pub open spec fn is_low(unit: nat) -> bool {
    0xdc00 <= unit < 0xe000
}

/// The character of a pair of code units.
pub open spec fn paired(high: nat, low: nat) -> char {
    (0x1_0000 + (high - 0xd800) * 0x400 + (low - 0xdc00)) as char
}

/// The characters of code units; a half without its other half becomes the
/// replacement character.
pub open spec fn decoded(units: Seq<nat>) -> Seq<char>
    decreases units.len(),
{
    if units.len() == 0 {
        seq![]
    } else if is_high(units[0]) && units.len() > 1 && is_low(units[1]) {
        seq![paired(units[0], units[1])] + decoded(units.skip(2))
    } else if is_high(units[0]) || is_low(units[0]) {
        seq!['\u{fffd}'] + decoded(units.skip(1))
    } else {
        seq![units[0] as char] + decoded(units.skip(1))
    }
}

fn read_units(bytes: &[u8]) -> (units: Vec<u16>)
    ensures
        units@.map_values(|unit: u16| unit as nat) == units_of(bytes@),
{
    let ghost number = |unit: u16| unit as nat;
    let mut units: Vec<u16> = Vec::new();
    let mut i: usize = 0;
    assert(bytes@.skip(0) =~= bytes@);
    assert(units@.map_values(number) + units_of(bytes@) =~= units_of(bytes@));
    while bytes.len() - i >= 2
        invariant
            i <= bytes@.len(),
            number == (|unit: u16| unit as nat),
            units@.map_values(number) + units_of(bytes@.skip(i as int)) == units_of(bytes@),
        decreases bytes@.len() - i,
    {
        let ghost rest = bytes@.skip(i as int);
        let ghost before = units@;
        assert(rest[0] == bytes@[i as int] && rest[1] == bytes@[i + 1]);
        assert(rest.skip(2) =~= bytes@.skip(i + 2));
        assert(i + 2 <= bytes.len());
        let unit: u16 = bytes[i] as u16 + 256 * bytes[i + 1] as u16;
        units.push(unit);
        proof {
            let more = units_of(rest.skip(2));
            assert(units@.map_values(number) =~= before.map_values(number).push(unit as nat));
            assert(units@.map_values(number) + more =~= before.map_values(number) + (seq![
                unit as nat,
            ] + more));
        }
        i = i + 2;
    }
    assert(bytes@.skip(i as int).len() < 2);
    assert(units_of(bytes@.skip(i as int)) =~= seq![]);
    assert(units@.map_values(number) + Seq::<nat>::empty() =~= units@.map_values(number));
    units
}

/// Decode UTF-16, lowest byte first. An unpaired surrogate becomes the
/// replacement character.
pub fn decode_utf16(bytes: &[u8]) -> (text: Vec<char>)
    ensures
        text@ == decoded(units_of(bytes@)),
{
    let units = read_units(bytes);
    let ghost all = units_of(bytes@);
    let mut text: Vec<char> = Vec::new();
    let mut i: usize = 0;
    assert(all.skip(0) =~= all);
    assert(text@ + decoded(all) =~= decoded(all));
    while i < units.len()
        invariant
            i <= all.len(),
            all == units@.map_values(|unit: u16| unit as nat),
            text@ + decoded(all.skip(i as int)) == decoded(all),
        decreases all.len() - i,
    {
        let ghost rest = all.skip(i as int);
        let ghost before = text@;
        assert(rest[0] == units@[i as int] as nat);
        let unit: u32 = units[i] as u32;
        let high = 0xd800 <= unit && unit < 0xdc00;
        let low = 0xdc00 <= unit && unit < 0xe000;
        let mut next: u32 = 0;
        if i + 1 < units.len() {
            next = units[i + 1] as u32;
            assert(rest[1] == units@[i + 1] as nat);
        }
        if high && 0xdc00 <= next && next < 0xe000 {
            let n: u32 = 0x1_0000 + (unit - 0xd800) * 0x400 + (next - 0xdc00);
            let c = char::from_u32(n);
            if let Some(c) = c {
                text.push(c);
                proof {
                    assert(c == paired(rest[0], rest[1]));
                    let more = decoded(rest.skip(2));
                    assert(text@ + more =~= before + (seq![c] + more));
                    assert(rest.skip(2) =~= all.skip(i + 2));
                }
            }
            i = i + 2;
        } else {
            let c = if high || low {
                None
            } else {
                char::from_u32(unit)
            };
            let shown = match c {
                Some(c) => c,
                None => '\u{fffd}',
            };
            text.push(shown);
            proof {
                let more = decoded(rest.skip(1));
                assert(text@ + more =~= before + (seq![shown] + more));
                assert(rest.skip(1) =~= all.skip(i + 1));
            }
            i = i + 1;
        }
    }
    assert(all.skip(i as int) =~= seq![]);
    assert(text@ + Seq::<char>::empty() =~= text@);
    text
}

/// Numbers of a buffer stand lowest byte first: each byte counts 256 times the one before.
pub proof fn law_numbers_stand_lowest_byte_first(bytes: Seq<u8>, at: int)
    requires
        0 <= at,
    ensures
        at + 1 <= bytes.len() ==> number_at(bytes, at, 1) == bytes[at],
        at + 2 <= bytes.len() ==> number_at(bytes, at, 2) == bytes[at] + 256 * bytes[at + 1],
        at + 4 <= bytes.len() ==> number_at(bytes, at, 4) == bytes[at] + 0x100 * bytes[at + 1]
            + 0x1_0000 * bytes[at + 2] + 0x100_0000 * bytes[at + 3],
        at + 8 <= bytes.len() ==> number_at(bytes, at, 8) == number_at(bytes, at, 4)
            + 0x1_0000_0000 * number_at(bytes, at + 4, 4),
{
    if at + 1 <= bytes.len() {
        assert(bytes.subrange(at, at + 1) =~= seq![bytes[at]]);
        assert(seq![bytes[at]].skip(1) =~= seq![]);
        reveal_with_fuel(little_endian, 2);
    }
    if at + 2 <= bytes.len() {
        lemma_first_byte(bytes, at, 2);
        lemma_first_byte(bytes, at + 1, 1);
        lemma_first_byte(bytes, at + 2, 0);
    }
    if at + 4 <= bytes.len() {
        lemma_first_byte(bytes, at, 4);
        lemma_first_byte(bytes, at + 1, 3);
        lemma_first_byte(bytes, at + 2, 2);
        lemma_first_byte(bytes, at + 3, 1);
        lemma_first_byte(bytes, at + 4, 0);
    }
    if at + 8 <= bytes.len() {
        lemma_first_byte(bytes, at, 8);
        lemma_first_byte(bytes, at + 1, 7);
        lemma_first_byte(bytes, at + 2, 6);
        lemma_first_byte(bytes, at + 3, 5);
    }
}

proof fn lemma_first_byte(bytes: Seq<u8>, at: int, count: int)
    requires
        0 <= at,
        0 <= count,
        at + count <= bytes.len(),
    ensures
        count == 0 ==> number_at(bytes, at, count) == 0,
        count > 0 ==> number_at(bytes, at, count) == bytes[at] + 256 * number_at(
            bytes,
            at + 1,
            count - 1,
        ),
{
    if count > 0 {
        assert(bytes.subrange(at, at + count).skip(1) =~= bytes.subrange(at + 1, at + count));
    }
}

/// Network order is the other order: what bytes spell highest first is what they spell
/// lowest first when they are turned around.
pub proof fn law_network_order_is_the_other_order(bytes: Seq<u8>)
    ensures
        network_order(bytes) == little_endian(bytes.reverse()),
    decreases bytes.len(),
{
    if bytes.len() > 0 {
        law_network_order_is_the_other_order(bytes.drop_last());
        assert(bytes.reverse().skip(1) =~= bytes.drop_last().reverse());
    }
}

/// A signed number keeps its 64 bits: it is in range and differs from the unsigned one by
/// nothing or by the whole range.
pub proof fn law_signs_keep_the_bits(n: nat)
    requires
        n <= u64::MAX,
    ensures
        i64::MIN <= as_signed(n) <= i64::MAX,
        as_signed(n) == n || as_signed(n) == n - 0x1_0000_0000_0000_0000,
{
}

/// Code units stand lowest byte first, and a last odd byte is none.
pub proof fn law_code_units_stand_lowest_byte_first(low: u8, high: u8, rest: Seq<u8>)
    ensures
        units_of(seq![low, high] + rest) == seq![(low + 256 * high) as nat] + units_of(rest),
        units_of(seq![low]) == Seq::<nat>::empty(),
{
    assert((seq![low, high] + rest).skip(2) =~= rest);
}

/// The code units of a character.
pub open spec fn units_for(c: char) -> Seq<nat> {
    let n = c as nat;
    if n < 0x1_0000 {
        seq![n]
    } else {
        seq![
            (0xd800 + (n - 0x1_0000) / 0x400) as nat,
            (0xdc00 + (n - 0x1_0000) % 0x400) as nat,
        ]
    }
}

/// Every character comes back from its code units, wherever they stand.
pub proof fn law_characters_come_back_from_their_units(c: char, rest: Seq<nat>)
    ensures
        decoded(units_for(c) + rest) == seq![c] + decoded(rest),
{
    let n = c as nat;
    let all = units_for(c) + rest;
    assert(n <= 0x10_ffff && !(0xd800 <= n < 0xe000));
    if n < 0x1_0000 {
        assert(all.skip(1) =~= rest);
        assert(all[0] == n);
    } else {
        assert(all.skip(2) =~= rest);
        assert(is_high(all[0]));
        assert(is_low(all[1]));
        assert(0x1_0000 + (all[0] - 0xd800) * 0x400 + (all[1] - 0xdc00) == n);
        assert(paired(all[0], all[1]) == c);
    }
}

/// Half a pair stands for nothing: where its other half is not behind it, it becomes the
/// replacement character.
pub proof fn law_half_a_pair_is_replaced(unit: nat, rest: Seq<nat>)
    requires
        0xd800 <= unit < 0xe000,
        unit >= 0xdc00 || rest.len() == 0 || !(0xdc00 <= rest[0] < 0xe000),
    ensures
        decoded(seq![unit] + rest) == seq!['\u{fffd}'] + decoded(rest),
{
    let all = seq![unit] + rest;
    assert(all.skip(1) =~= rest);
    assert(rest.len() > 0 ==> all[1] == rest[0]);
}

} // verus!
