//! Reading addresses from text and writing them.

use vstd::prelude::*;
use crate::net::{Endpoint, IpAddr};
use crate::text::{
    append, append_chars, append_number, chars_of, decimal, find_text, first_text, head,
    law_a_number_reads_back, law_a_text_is_found_where_it_first_stands,
    law_only_digits_make_a_number, law_pieces_stand_between_separators, parse_plain, pieces,
    plain_number, spell, spelled, split_at_char, tail, views,
};

verus! {

// ---------------------------------------------------------------------------
// reading
// ---------------------------------------------------------------------------

/// The value of one decimal part of an IPv4 address: one to three digits without
/// a leading zero, at most 255.
pub open spec fn octet_value(text: Seq<char>) -> Option<int> {
    if text.len() > 3 || (text.len() > 1 && text[0] == '0') {
        None
    } else {
        plain_number(text, 10, 255)
    }
}

/// The IPv4 address that a text spells: four octets with dots between them.
pub open spec fn ipv4_value(text: Seq<char>) -> Option<int> {
    let parts = pieces(text, '.');
    if parts.len() == 4 && octet_value(parts[0]) is Some && octet_value(parts[1]) is Some
        && octet_value(parts[2]) is Some && octet_value(parts[3]) is Some {
        Some(
            octet_value(parts[0])->0 * 0x100_0000 + octet_value(parts[1])->0 * 0x1_0000
                + octet_value(parts[2])->0 * 0x100 + octet_value(parts[3])->0,
        )
    } else {
        None
    }
}

/// The value of one hexadecimal group of an IPv6 address: one to four digits.
pub open spec fn group_value(text: Seq<char>) -> Option<int> {
    if text.len() > 4 {
        None
    } else {
        plain_number(text, 16, 0xffff)
    }
}

/// The values of some hexadecimal groups.
pub open spec fn plain_groups(parts: Seq<Seq<char>>) -> Option<Seq<int>>
    decreases parts.len(),
{
    if parts.len() == 0 {
        Some(Seq::empty())
    } else {
        match (plain_groups(parts.drop_last()), group_value(parts.last())) {
            (Some(before), Some(last)) => Some(before.push(last)),
            _ => None,
        }
    }
}

/// The values of some groups, the last of which may be an IPv4 address that
/// stands for two.
pub open spec fn groups(parts: Seq<Seq<char>>) -> Option<Seq<int>> {
    if plain_groups(parts) is Some {
        plain_groups(parts)
    } else if parts.len() == 0 {
        None
    } else {
        match (plain_groups(parts.drop_last()), ipv4_value(parts.last())) {
            (Some(before), Some(v4)) => Some(before.push(v4 / 0x1_0000).push(v4 % 0x1_0000)),
            _ => None,
        }
    }
}

/// The groups of a text between colons; none where the text is empty.
pub open spec fn groups_of(text: Seq<char>, v4_tail: bool) -> Option<Seq<int>> {
    if text.len() == 0 {
        Some(Seq::empty())
    } else if v4_tail {
        groups(pieces(text, ':'))
    } else {
        plain_groups(pieces(text, ':'))
    }
}

/// The number that eight groups spell.
pub open spec fn number_of(g: Seq<int>) -> int {
    g[0] * 0x1_0000_0000_0000_0000_0000_0000_0000 + g[1] * 0x1_0000_0000_0000_0000_0000_0000 + g[2]
        * 0x1_0000_0000_0000_0000_0000 + g[3] * 0x1_0000_0000_0000_0000 + g[4] * 0x1_0000_0000_0000
        + g[5] * 0x1_0000_0000 + g[6] * 0x1_0000 + g[7]
}

/// Some zero groups.
pub open spec fn zeroes(count: int) -> Seq<int> {
    Seq::new(count as nat, |i: int| 0)
}

/// The IPv6 address that a text spells: eight groups, or fewer with one `::` that
/// stands for at least one zero group. The last two may be written as an IPv4
/// address.
pub open spec fn ipv6_value(text: Seq<char>) -> Option<int> {
    match first_text(text, "::"@) {
        None => match groups_of(text, true) {
            Some(all) => if all.len() == 8 {
                Some(number_of(all))
            } else {
                None
            },
            None => None,
        },
        Some(i) => match (groups_of(text.take(i), false), groups_of(text.skip(i + 2), true)) {
            (Some(front), Some(back)) => if front.len() + back.len() <= 7 {
                Some(number_of(front + zeroes(8 - front.len() - back.len()) + back))
            } else {
                None
            },
            _ => None,
        },
    }
}

/// The address that a text spells.
pub open spec fn address_value(text: Seq<char>) -> Option<IpAddr> {
    if ipv4_value(text) is Some {
        Some(IpAddr::V4(ipv4_value(text)->0 as u32))
    } else if ipv6_value(text) is Some {
        Some(IpAddr::V6(ipv6_value(text)->0 as u128))
    } else {
        None
    }
}

fn parse_octet(text: &[char]) -> (value: Option<u32>)
    ensures
        value is Some <==> octet_value(text@) is Some,
        value matches Some(v) ==> octet_value(text@) == Some(v as int) && v <= 255,
{
    if text.len() > 3 || (text.len() > 1 && text[0] == '0') {
        return None;
    }
    match parse_plain(text, 10, 255) {
        Some(value) => Some(value as u32),
        None => None,
    }
}

/// Read an IPv4 address.
pub fn parse_ipv4(text: &[char]) -> (value: Option<u32>)
    ensures
        value is Some <==> ipv4_value(text@) is Some,
        value matches Some(v) ==> ipv4_value(text@) == Some(v as int),
{
    let parts = split_at_char(text, '.');
    let ghost all = pieces(text@, '.');
    assert(parts@.len() == all.len());
    if parts.len() != 4 {
        return None;
    }
    assert(parts@[0]@ == all[0] && parts@[1]@ == all[1] && parts@[2]@ == all[2] && parts@[3]@
        == all[3]);
    match (parse_octet(parts[0]), parse_octet(parts[1]), parse_octet(parts[2]), parse_octet(parts[3])) {
        (Some(a), Some(b), Some(c), Some(d)) => Some(
            a * 0x100_0000 + b * 0x1_0000 + c * 0x100 + d,
        ),
        _ => None,
    }
}

/// The values of some groups, as integers.
pub open spec fn group_ints(values: Seq<u16>) -> Seq<int> {
    values.map_values(|value: u16| value as int)
}

fn parse_plain_groups(parts: &Vec<&[char]>, count: usize) -> (values: Option<Vec<u16>>)
    requires
        count <= parts@.len(),
    ensures
        values is Some <==> plain_groups(views(parts@).take(count as int)) is Some,
        values matches Some(v) ==> plain_groups(views(parts@).take(count as int)) == Some(
            group_ints(v@),
        ),
{
    let ghost all = views(parts@);
    let mut values: Vec<u16> = Vec::new();
    let mut i: usize = 0;
    assert(all.take(0) =~= Seq::<Seq<char>>::empty());
    assert(group_ints(values@) =~= Seq::<int>::empty());
    while i < count
        invariant
            all == views(parts@),
            i <= count <= all.len(),
            plain_groups(all.take(i as int)) == Some(group_ints(values@)),
        decreases count - i,
    {
        let ghost before = group_ints(values@);
        assert(all.take(i + 1).drop_last() =~= all.take(i as int));
        assert(all.take(i + 1).last() == parts@[i as int]@);
        let part = parts[i];
        let value: Option<u64> = if part.len() > 4 {
            None
        } else {
            parse_plain(part, 16, 0xffff)
        };
        match value {
            Some(value) => {
                values.push(value as u16);
                assert(group_ints(values@) =~= before.push(value as int));
            },
            None => {
                proof {
                    lemma_groups_need_prefix(all.take(count as int), i + 1);
                    assert(all.take(count as int).take(i + 1) =~= all.take(i + 1));
                }
                return None;
            },
        }
        i = i + 1;
    }
    Some(values)
}

proof fn lemma_groups_need_prefix(parts: Seq<Seq<char>>, k: int)
    requires
        0 <= k <= parts.len(),
        plain_groups(parts.take(k)) is None,
    ensures
        plain_groups(parts) is None,
    decreases parts.len(),
{
    if k < parts.len() {
        assert(parts.drop_last().take(k) =~= parts.take(k));
        lemma_groups_need_prefix(parts.drop_last(), k);
    } else {
        assert(parts.take(k) =~= parts);
    }
}

fn parse_groups(text: &[char], v4_tail: bool) -> (values: Option<Vec<u16>>)
    ensures
        values is Some <==> groups_of(text@, v4_tail) is Some,
        values matches Some(v) ==> groups_of(text@, v4_tail) == Some(group_ints(v@)),
{
    if text.len() == 0 {
        let values: Vec<u16> = Vec::new();
        assert(group_ints(values@) =~= Seq::<int>::empty());
        return Some(values);
    }
    let parts = split_at_char(text, ':');
    let ghost all = views(parts@);
    let count: usize = parts.len();
    proof {
        assert(all == pieces(text@, ':'));
        assert(all.take(count as int) =~= all);
        assert(all.take(count - 1) =~= all.drop_last());
        assert(all.last() == parts@[count - 1]@);
    }
    match parse_plain_groups(&parts, count) {
        Some(values) => Some(values),
        None => {
            if !v4_tail {
                return None;
            }
            match (parse_plain_groups(&parts, count - 1), parse_ipv4(parts[count - 1])) {
                (Some(values), Some(v4)) => {
                    let mut values = values;
                    let ghost before = group_ints(values@);
                    values.push((v4 / 0x1_0000) as u16);
                    values.push((v4 % 0x1_0000) as u16);
                    assert(group_ints(values@) =~= before.push(v4 as int / 0x1_0000).push(
                        v4 as int % 0x1_0000,
                    ));
                    Some(values)
                },
                _ => None,
            }
        },
    }
}

fn combine(values: &Vec<u16>) -> (number: u128)
    requires
        values@.len() == 8,
    ensures
        number == number_of(group_ints(values@)),
{
    values[0] as u128 * 0x1_0000_0000_0000_0000_0000_0000_0000 + values[1] as u128
        * 0x1_0000_0000_0000_0000_0000_0000 + values[2] as u128 * 0x1_0000_0000_0000_0000_0000
        + values[3] as u128 * 0x1_0000_0000_0000_0000 + values[4] as u128 * 0x1_0000_0000_0000
        + values[5] as u128 * 0x1_0000_0000 + values[6] as u128 * 0x1_0000 + values[7] as u128
}

/// Read an IPv6 address.
pub fn parse_ipv6(text: &[char]) -> (value: Option<u128>)
    ensures
        value is Some <==> ipv6_value(text@) is Some,
        value matches Some(v) ==> ipv6_value(text@) == Some(v as int),
{
    let gap = chars_of("::");
    proof {
        reveal_strlit("::");
        assert(text@.len() == text.len());
    }
    match find_text(text, gap.as_slice(), 0) {
        None => match parse_groups(text, true) {
            Some(values) => if values.len() == 8 {
                Some(combine(&values))
            } else {
                None
            },
            None => None,
        },
        Some(i) => match (parse_groups(head(text, i), false), parse_groups(tail(text, i + 2), true)) {
            (Some(front), Some(back)) => {
                let (mut front, mut back) = (front, back);
                let ghost first = group_ints(front@);
                let ghost last = group_ints(back@);
                if front.len() > 7 || back.len() > 7 - front.len() {
                    return None;
                }
                let missing: usize = 8 - front.len() - back.len();
                let mut added: usize = 0;
                assert(first + zeroes(0) =~= first);
                while added < missing
                    invariant
                        added <= missing,
                        group_ints(front@) == first + zeroes(added as int),
                    decreases missing - added,
                {
                    let ghost before = group_ints(front@);
                    front.push(0);
                    added = added + 1;
                    assert(group_ints(front@) =~= before.push(0));
                    assert(zeroes(added as int) =~= zeroes(added - 1).push(0));
                    assert(group_ints(front@) =~= first + zeroes(added as int));
                }
                let ghost before = group_ints(front@);
                front.append(&mut back);
                assert(group_ints(front@) =~= before + last);
                Some(combine(&front))
            },
            _ => None,
        },
    }
}

impl IpAddr {
    /// Read an address.
    pub fn from_chars(text: &[char]) -> (address: Option<IpAddr>)
        ensures
            address == address_value(text@),
    {
        match parse_ipv4(text) {
            Some(value) => Some(IpAddr::V4(value)),
            None => match parse_ipv6(text) {
                Some(value) => Some(IpAddr::V6(value)),
                None => None,
            },
        }
    }

    /// Read an address.
    pub fn parse(text: &str) -> (address: Option<IpAddr>)
        ensures
            address == address_value(text@),
    {
        let chars = chars_of(text);
        Self::from_chars(chars.as_slice())
    }
}

// ---------------------------------------------------------------------------
// writing
// ---------------------------------------------------------------------------

/// An IPv4 address in dotted decimal.
pub open spec fn ipv4_text(value: int) -> Seq<char> {
    decimal((value / 0x100_0000 % 0x100) as nat) + seq!['.'] + decimal(
        (value / 0x1_0000 % 0x100) as nat,
    ) + seq!['.'] + decimal((value / 0x100 % 0x100) as nat) + seq!['.'] + decimal(
        (value % 0x100) as nat,
    )
}

/// The eight groups of an IPv6 address.
pub open spec fn groups_in(value: int) -> Seq<int> {
    seq![
        value / 0x1_0000_0000_0000_0000_0000_0000_0000 % 0x1_0000,
        value / 0x1_0000_0000_0000_0000_0000_0000 % 0x1_0000,
        value / 0x1_0000_0000_0000_0000_0000 % 0x1_0000,
        value / 0x1_0000_0000_0000_0000 % 0x1_0000,
        value / 0x1_0000_0000_0000 % 0x1_0000,
        value / 0x1_0000_0000 % 0x1_0000,
        value / 0x1_0000 % 0x1_0000,
        value % 0x1_0000,
    ]
}

/// How many zero groups stand in a row from a place on.
pub open spec fn zero_run(g: Seq<int>, from: int) -> int
    decreases g.len() - from,
{
    if 0 <= from < g.len() && g[from] == 0 {
        1 + zero_run(g, from + 1)
    } else {
        0
    }
}

/// The first of the longest runs of zero groups that start before `to`: where it
/// starts and how long it is.
pub open spec fn longest_zero_run(g: Seq<int>, to: int) -> (int, int)
    decreases to,
{
    if to <= 0 {
        (0, 0)
    } else {
        let before = longest_zero_run(g, to - 1);
        if zero_run(g, to - 1) > before.1 {
            (to - 1, zero_run(g, to - 1))
        } else {
            before
        }
    }
}

/// The groups from `from` up to `to` in hexadecimal, with colons between them.
pub open spec fn groups_text(g: Seq<int>, from: int, to: int) -> Seq<char>
    decreases to - from,
{
    if from >= to {
        Seq::empty()
    } else if from + 1 == to {
        spelled(g[from] as nat, 16)
    } else {
        groups_text(g, from, to - 1) + seq![':'] + spelled(g[to - 1] as nat, 16)
    }
}

/// An IPv6 address: eight groups, with the first of the longest runs of two or
/// more zero groups as `::`, and an IPv4-mapped address with its IPv4 part in
/// dotted decimal.
pub open spec fn ipv6_text(value: int) -> Seq<char> {
    let g = groups_in(value);
    let (start, len) = longest_zero_run(g, 8);
    if value / 0x1_0000_0000 == 0xffff {
        "::ffff:"@ + ipv4_text(value % 0x1_0000_0000)
    } else if len > 1 {
        groups_text(g, 0, start) + "::"@ + groups_text(g, start + len, 8)
    } else {
        groups_text(g, 0, 8)
    }
}

/// An address as text.
pub open spec fn address_text(address: IpAddr) -> Seq<char> {
    match address {
        IpAddr::V4(value) => ipv4_text(value as int),
        IpAddr::V6(value) => ipv6_text(value as int),
    }
}

/// An endpoint as text: address and port with a colon between them, and an IPv6
/// address in brackets.
pub open spec fn endpoint_text(endpoint: Endpoint) -> Seq<char> {
    match endpoint.0 {
        IpAddr::V4(value) => ipv4_text(value as int) + seq![':'] + decimal(endpoint.1 as nat),
        IpAddr::V6(value) => seq!['['] + ipv6_text(value as int) + "]:"@ + decimal(
            endpoint.1 as nat,
        ),
    }
}

fn append_ipv4(text: &mut String, value: u32)
    ensures
        final(text)@ == old(text)@ + ipv4_text(value as int),
{
    let ghost before = text@;
    append_number(text, (value / 0x100_0000 % 0x100) as u64);
    text.push('.');
    append_number(text, (value / 0x1_0000 % 0x100) as u64);
    text.push('.');
    append_number(text, (value / 0x100 % 0x100) as u64);
    text.push('.');
    append_number(text, (value % 0x100) as u64);
    assert(text@ =~= before + ipv4_text(value as int));
}

fn split_groups(value: u128) -> (values: Vec<u16>)
    ensures
        group_ints(values@) == groups_in(value as int),
        values@.len() == 8,
{
    let mut values: Vec<u16> = Vec::new();
    values.push((value / 0x1_0000_0000_0000_0000_0000_0000_0000 % 0x1_0000) as u16);
    values.push((value / 0x1_0000_0000_0000_0000_0000_0000 % 0x1_0000) as u16);
    values.push((value / 0x1_0000_0000_0000_0000_0000 % 0x1_0000) as u16);
    values.push((value / 0x1_0000_0000_0000_0000 % 0x1_0000) as u16);
    values.push((value / 0x1_0000_0000_0000 % 0x1_0000) as u16);
    values.push((value / 0x1_0000_0000 % 0x1_0000) as u16);
    values.push((value / 0x1_0000 % 0x1_0000) as u16);
    values.push((value % 0x1_0000) as u16);
    assert(group_ints(values@) =~= groups_in(value as int));
    values
}

fn append_groups(text: &mut String, values: &Vec<u16>, from: usize, to: usize)
    requires
        from <= to <= values@.len(),
    ensures
        final(text)@ == old(text)@ + groups_text(group_ints(values@), from as int, to as int),
{
    let ghost g = group_ints(values@);
    let ghost before = text@;
    let mut i: usize = from;
    assert(before + groups_text(g, from as int, from as int) =~= before);
    while i < to
        invariant
            from <= i <= to <= values@.len(),
            g == group_ints(values@),
            text@ == before + groups_text(g, from as int, i as int),
        decreases to - i,
    {
        let ghost so_far = text@;
        if i > from {
            text.push(':');
        }
        let digits = spell(values[i] as u64, 16);
        append_chars(text, digits.as_slice());
        assert(text@ =~= before + groups_text(g, from as int, i + 1));
        i = i + 1;
    }
}

fn run_of_zeroes(values: &Vec<u16>, from: usize) -> (len: usize)
    requires
        from <= values@.len(),
    ensures
        len == zero_run(group_ints(values@), from as int),
        from + len <= values@.len(),
    decreases values@.len() - from,
{
    if from < values.len() && values[from] == 0 {
        1 + run_of_zeroes(values, from + 1)
    } else {
        0
    }
}

fn append_ipv6(text: &mut String, value: u128)
    ensures
        final(text)@ == old(text)@ + ipv6_text(value as int),
{
    let ghost before = text@;
    if value / 0x1_0000_0000 == 0xffff {
        append(text, "::ffff:");
        append_ipv4(text, (value % 0x1_0000_0000) as u32);
        assert(text@ =~= before + ("::ffff:"@ + ipv4_text(value as int % 0x1_0000_0000)));
        return;
    }
    let values = split_groups(value);
    let ghost g = group_ints(values@);
    let mut start: usize = 0;
    let mut len: usize = 0;
    let mut i: usize = 0;
    while i < 8
        invariant
            i <= 8,
            values@.len() == 8,
            g == group_ints(values@),
            (start as int, len as int) == longest_zero_run(g, i as int),
            start + len <= 8,
        decreases 8 - i,
    {
        let run: usize = run_of_zeroes(&values, i);
        if run > len {
            start = i;
            len = run;
        }
        i = i + 1;
    }
    if len > 1 {
        append_groups(text, &values, 0, start);
        append(text, "::");
        append_groups(text, &values, start + len, 8);
        assert(text@ =~= before + (groups_text(g, 0, start as int) + "::"@ + groups_text(
            g,
            start + len,
            8,
        )));
    } else {
        append_groups(text, &values, 0, 8);
    }
}

/// Append an address to a text.
pub fn append_address(text: &mut String, address: IpAddr)
    ensures
        final(text)@ == old(text)@ + address_text(address),
{
    match address {
        IpAddr::V4(value) => append_ipv4(text, value),
        IpAddr::V6(value) => append_ipv6(text, value),
    }
}

impl IpAddr {
    /// The address as text.
    pub fn to_text(&self) -> (text: String)
        ensures
            text@ == address_text(*self),
    {
        let mut text = String::new();
        append_address(&mut text, *self);
        assert(text@ =~= address_text(*self));
        text
    }
}

/// Append an endpoint to a text.
pub fn append_endpoint(text: &mut String, endpoint: Endpoint)
    ensures
        final(text)@ == old(text)@ + endpoint_text(endpoint),
{
    let ghost before = text@;
    match endpoint.0 {
        IpAddr::V4(value) => {
            append_ipv4(text, value);
            text.push(':');
        },
        IpAddr::V6(value) => {
            text.push('[');
            append_ipv6(text, value);
            append(text, "]:");
        },
    }
    append_number(text, endpoint.1 as u64);
    assert(text@ =~= before + endpoint_text(endpoint));
}

proof fn lemma_number_text(value: nat, radix: nat, max: int)
    requires
        radix == 10 || radix == 16,
        value <= max,
    ensures
        plain_number(spelled(value, radix), radix as int, max) == Some(value as int),
        spelled(value, radix).len() > 0,
        forall|i: int|
            0 <= i < spelled(value, radix).len() ==> #[trigger] spelled(value, radix)[i] != '.'
                && spelled(value, radix)[i] != ':' && spelled(value, radix)[i] != '+',
{
    law_a_number_reads_back(value, radix, max);
    lemma_digits_only(value, radix);
}

proof fn lemma_digits_only(value: nat, radix: nat)
    requires
        radix == 10 || radix == 16,
    ensures
        spelled(value, radix).len() > 0,
        forall|i: int|
            0 <= i < spelled(value, radix).len() ==> #[trigger] spelled(value, radix)[i] != '.'
                && spelled(value, radix)[i] != ':' && spelled(value, radix)[i] != '+',
        value < radix * radix ==> spelled(value, radix).len() <= 2,
        value < radix ==> spelled(value, radix).len() == 1,
        value > 0 ==> spelled(value, radix)[0] != '0',
    decreases value,
{
    if value >= radix {
        assert(value / radix < value) by (nonlinear_arith)
            requires
                radix >= 2,
                value >= radix,
        ;
        assert(value / radix > 0) by (nonlinear_arith)
            requires
                radix >= 2,
                value >= radix,
        ;
        lemma_digits_only(value / radix, radix);
        let front = spelled(value / radix, radix);
        let whole = spelled(value, radix);
        assert forall|i: int| 0 <= i < whole.len() implies #[trigger] whole[i] != '.' && whole[i]
            != ':' && whole[i] != '+' by {
            if i < front.len() {
                assert(whole[i] == front[i]);
            }
        }
        assert(whole[0] == front[0]);
        if value < radix * radix {
            assert(value / radix < radix) by (nonlinear_arith)
                requires
                    radix >= 2,
                    value < radix * radix,
            ;
        }
    }
}

proof fn lemma_octet(value: nat)
    requires
        value < 256,
    ensures
        octet_value(decimal(value)) == Some(value as int),
        forall|i: int| 0 <= i < decimal(value).len() ==> #[trigger] decimal(value)[i] != '.'
            && decimal(value)[i] != ':',
        decimal(value).len() > 0,
{
    lemma_number_text(value, 10, 255);
    lemma_digits_only(value, 10);
    lemma_digits_only(value / 10, 10);
}

proof fn lemma_group(value: nat)
    requires
        value <= 0xffff,
    ensures
        group_value(spelled(value, 16)) == Some(value as int),
        spelled(value, 16).len() > 0,
        forall|i: int| 0 <= i < spelled(value, 16).len() ==> #[trigger] spelled(value, 16)[i] != '.'
            && spelled(value, 16)[i] != ':',
{
    lemma_number_text(value, 16, 0xffff);
    lemma_digits_only(value, 16);
    lemma_digits_only(value / 16, 16);
    lemma_digits_only(value / 16 / 16, 16);
}

/// Four numbers below 256 with dots between them are an IPv4 address, the first one
/// highest.
pub proof fn law_four_octets_are_an_address(a: u8, b: u8, c: u8, d: u8)
    ensures
        ({
            let text = decimal(a as nat) + seq!['.'] + decimal(b as nat) + seq!['.'] + decimal(
                c as nat,
            ) + seq!['.'] + decimal(d as nat);
            &&& ipv4_value(text) == Some(a * 0x100_0000 + b * 0x1_0000 + c * 0x100 + d)
            &&& address_value(text) == Some(
                IpAddr::V4((a * 0x100_0000 + b * 0x1_0000 + c * 0x100 + d) as u32),
            )
            &&& forall|i: int| 0 <= i < text.len() ==> #[trigger] text[i] != ':'
        }),
{
    let w = decimal(a as nat);
    let x = decimal(b as nat);
    let y = decimal(c as nat);
    let z = decimal(d as nat);
    lemma_octet(a as nat);
    lemma_octet(b as nat);
    lemma_octet(c as nat);
    lemma_octet(d as nat);
    let text = w + seq!['.'] + x + seq!['.'] + y + seq!['.'] + z;
    let last = y.push('.') + z;
    let rest = x.push('.') + last;
    assert(text =~= w.push('.') + rest);
    law_pieces_stand_between_separators(w, '.', rest);
    law_pieces_stand_between_separators(x, '.', last);
    law_pieces_stand_between_separators(y, '.', z);
    law_pieces_stand_between_separators(z, '.', z);
    assert(pieces(text, '.') =~= seq![w, x, y, z]);
    assert forall|i: int| 0 <= i < text.len() implies #[trigger] text[i] != ':' by {
        if i < w.len() {
            assert(text[i] == w[i]);
        } else if w.len() < i < w.len() + 1 + x.len() {
            assert(text[i] == x[i - w.len() - 1]);
        } else if w.len() + 1 + x.len() < i < w.len() + x.len() + 2 + y.len() {
            assert(text[i] == y[i - w.len() - x.len() - 2]);
        } else if w.len() + x.len() + y.len() + 2 < i {
            assert(text[i] == z[i - w.len() - x.len() - y.len() - 3]);
        }
    }
}

/// What is no IPv4 address: fewer or more than four parts, a part above 255, and one with
/// a zero in front.
pub proof fn law_what_is_no_ipv4_address(text: Seq<char>, digits: Seq<char>, value: nat)
    ensures
        pieces(text, '.').len() != 4 ==> ipv4_value(text) is None,
        digits.len() > 0 ==> octet_value(seq!['0'] + digits) is None,
        value > 255 ==> octet_value(decimal(value)) is None,
{
    let padded = seq!['0'] + digits;
    assert(padded[0] == '0');
    law_a_number_reads_back(value, 10, 255);
    lemma_digits_only(value, 10);
}

/// An IPv4 address reads back from its text.
#[verifier::spinoff_prover]
#[verifier::rlimit(80)]
pub proof fn law_an_ipv4_address_reads_back(value: u32)
    ensures
        address_value(address_text(IpAddr::V4(value))) == Some(IpAddr::V4(value)),
        ipv4_value(ipv4_text(value as int)) == Some(value as int),
        forall|i: int|
            0 <= i < ipv4_text(value as int).len() ==> #[trigger] ipv4_text(value as int)[i] != ':',
{
    let n = value as int;
    let a = n / 0x100_0000 % 0x100;
    let b = n / 0x1_0000 % 0x100;
    let c = n / 0x100 % 0x100;
    let d = n % 0x100;
    assert(n / 0x100 / 0x100 == n / 0x1_0000);
    assert(n / 0x1_0000 / 0x100 == n / 0x100_0000);
    assert(n == a * 0x100_0000 + b * 0x1_0000 + c * 0x100 + d);
    law_four_octets_are_an_address(a as u8, b as u8, c as u8, d as u8);
}

/// Whether a colon stands at a place and another behind it.
spec fn is_double(text: Seq<char>, i: int) -> bool {
    text[i] == ':' && text[i + 1] == ':'
}

/// Whether no two colons stand next to each other, and none at either end.
spec fn apart(text: Seq<char>) -> bool {
    &&& forall|i: int| 0 <= i < text.len() - 1 ==> !#[trigger] is_double(text, i)
    &&& text.len() > 0 ==> text[0] != ':' && text.last() != ':'
}

spec fn are_groups(g: Seq<int>) -> bool {
    forall|i: int| 0 <= i < g.len() ==> 0 <= #[trigger] g[i] <= 0xffff
}

proof fn lemma_groups_text(g: Seq<int>, from: int, to: int)
    requires
        are_groups(g),
        0 <= from <= to <= g.len(),
    ensures
        apart(groups_text(g, from, to)),
        from < to ==> groups_text(g, from, to).len() > 0,
        groups_of(groups_text(g, from, to), false) == Some(g.subrange(from, to)),
        from < to ==> plain_groups(pieces(groups_text(g, from, to), ':')) == Some(
            g.subrange(from, to),
        ),
        forall|i: int|
            0 <= i < groups_text(g, from, to).len() ==> #[trigger] groups_text(g, from, to)[i]
                != '.',
    decreases to - from,
{
    let text = groups_text(g, from, to);
    if from == to {
        assert(g.subrange(from, to) =~= Seq::<int>::empty());
    } else {
        let last = spelled(g[to - 1] as nat, 16);
        lemma_group(g[to - 1] as nat);
        law_pieces_stand_between_separators(last, ':', last);
        if from + 1 == to {
            assert(pieces(text, ':') =~= seq![text]);
            let parts = seq![text];
            assert(parts.drop_last() =~= Seq::<Seq<char>>::empty());
            reveal_with_fuel(plain_groups, 2);
            assert(g.subrange(from, to) =~= Seq::<int>::empty().push(g[from]));
        } else {
            lemma_groups_text(g, from, to - 1);
            let front = groups_text(g, from, to - 1);
            assert(text =~= front.push(':') + last);
            law_pieces_stand_between_separators(front, ':', last);
            let parts = pieces(front, ':').push(last);
            assert(pieces(text, ':') =~= parts);
            assert(parts.drop_last() =~= pieces(front, ':'));
            assert(g.subrange(from, to) =~= g.subrange(from, to - 1).push(g[to - 1]));
            assert(text[0] == front[0]);
            assert(text.last() == last[last.len() - 1]);
            assert forall|i: int| 0 <= i < text.len() - 1 implies !#[trigger] is_double(
                text,
                i,
            ) by {
                if i < front.len() - 1 {
                    assert(!is_double(front, i));
                    assert(text[i] == front[i] && text[i + 1] == front[i + 1]);
                } else if i == front.len() - 1 {
                    assert(text[i] == front[i]);
                } else if i == front.len() {
                    assert(text[i + 1] == last[0]);
                } else {
                    assert(text[i] == last[i - front.len() - 1]);
                }
            }
            assert forall|i: int| 0 <= i < text.len() implies #[trigger] text[i] != '.' by {
                if i < front.len() {
                    assert(text[i] == front[i]);
                } else if i > front.len() {
                    assert(text[i] == last[i - front.len() - 1]);
                }
            }
        }
    }
}

proof fn lemma_no_ipv4(text: Seq<char>)
    requires
        forall|i: int| 0 <= i < text.len() ==> #[trigger] text[i] != '.',
    ensures
        ipv4_value(text) is None,
{
    law_pieces_stand_between_separators(text, '.', text);
}

proof fn lemma_gap(front: Seq<char>, back: Seq<char>)
    requires
        apart(front),
    ensures
        first_text(front + "::"@ + back, "::"@) == Some(front.len() as int),
{
    reveal_strlit("::");
    let gap = "::"@;
    assert(gap =~= seq![':', ':']);
    let text = front + gap + back;
    let at = front.len() as int;
    lemma_stands_by(front, gap, back);
    let i = first_text(text, gap)->0;
    if i < at {
        assert(text[i] == front[i]);
        if i < at - 1 {
            assert(text[i + 1] == front[i + 1]);
            assert(is_double(front, i));
        }
    }
}

proof fn lemma_stands_by(front: Seq<char>, wanted: Seq<char>, back: Seq<char>)
    requires
        wanted.len() == 2,
    ensures
        ({
            let text = front + wanted + back;
            &&& first_text(text, wanted) matches Some(i)
            &&& 0 <= i <= front.len()
            &&& text[i] == wanted[0]
            &&& text[i + 1] == wanted[1]
        }),
{
    let text = front + wanted + back;
    let at = front.len() as int;
    assert(first_text(text, wanted) is Some && first_text(text, wanted)->0 <= at) by {
        assert(text.subrange(at, at + wanted.len()) =~= wanted);
        law_a_text_is_found_where_it_first_stands(text, wanted);
    }
    let i = first_text(text, wanted)->0;
    assert(0 <= i && text.subrange(i, i + wanted.len()) == wanted) by {
        law_a_text_is_found_where_it_first_stands(text, wanted);
    }
    let part = text.subrange(i, i + wanted.len());
    assert(part[0] == text[i] && part[1] == text[i + 1]);
}

proof fn lemma_no_gap(text: Seq<char>)
    requires
        apart(text),
    ensures
        first_text(text, "::"@) is None,
{
    reveal_strlit("::");
    let gap = "::"@;
    assert(gap =~= seq![':', ':']);
    law_a_text_is_found_where_it_first_stands(text, gap);
    if let Some(i) = first_text(text, gap) {
        let part = text.subrange(i, i + gap.len());
        assert(part[0] == text[i] && part[1] == text[i + 1]);
        assert(is_double(text, i));
    }
}

/// Eight groups with colons between them are an IPv6 address, the first one highest; and
/// two colons stand for as many zero groups as are missing.
pub proof fn law_eight_groups_are_an_address(g: Seq<int>, from: int, to: int)
    requires
        g.len() == 8,
        forall|i: int| 0 <= i < 8 ==> 0 <= #[trigger] g[i] <= 0xffff,
        0 <= from < to <= 8,
    ensures
        ipv6_value(groups_text(g, 0, 8)) == Some(number_of(g)),
        ipv4_value(groups_text(g, 0, 8)) is None,
        (forall|i: int| from <= i < to ==> #[trigger] g[i] == 0) ==> ipv6_value(
            groups_text(g, 0, from) + "::"@ + groups_text(g, to, 8),
        ) == Some(number_of(g)),
        ipv4_value(groups_text(g, 0, from) + "::"@ + groups_text(g, to, 8)) is None,
{
    reveal_strlit("::");
    assert("::"@ =~= seq![':', ':']);
    assert(are_groups(g));
    lemma_groups_text(g, 0, 8);
    let whole = groups_text(g, 0, 8);
    lemma_no_gap(whole);
    lemma_no_ipv4(whole);
    assert(g.subrange(0, 8) =~= g);
    lemma_groups_text(g, 0, from);
    lemma_groups_text(g, to, 8);
    let front = groups_text(g, 0, from);
    let back = groups_text(g, to, 8);
    let short = front + "::"@ + back;
    lemma_gap(front, back);
    assert(short.take(front.len() as int) =~= front);
    assert(short.skip(front.len() as int + 2) =~= back);
    assert forall|i: int| 0 <= i < short.len() implies #[trigger] short[i] != '.' by {
        if i < front.len() {
            assert(short[i] == front[i]);
        } else if i >= front.len() + 2 {
            assert(short[i] == back[i - front.len() - 2]);
        }
    }
    lemma_no_ipv4(short);
    assert(groups_of(back, true) == Some(g.subrange(to, 8)));
    if forall|i: int| from <= i < to ==> #[trigger] g[i] == 0 {
        let filled = g.subrange(0, from) + zeroes(to - from) + g.subrange(to, 8);
        assert(filled =~= g) by {
            assert forall|i: int| 0 <= i < 8 implies #[trigger] filled[i] == g[i] by {
                if from <= i < to {
                    assert(g[i] == 0);
                }
            }
        }
    }
}

proof fn lemma_groups_in(value: u128)
    ensures
        groups_in(value as int).len() == 8,
        forall|i: int| 0 <= i < 8 ==> 0 <= #[trigger] groups_in(value as int)[i] <= 0xffff,
        number_of(groups_in(value as int)) == value,
{
    let a = value as int;
    let b = a / 0x1_0000;
    let c = b / 0x1_0000;
    let d = c / 0x1_0000;
    let e = d / 0x1_0000;
    let f = e / 0x1_0000;
    let h = f / 0x1_0000;
    let k = h / 0x1_0000;
    assert(a / 0x1_0000_0000 == c);
    assert(a / 0x1_0000_0000_0000 == d);
    assert(a / 0x1_0000_0000_0000_0000 == e);
    assert(a / 0x1_0000_0000_0000_0000_0000 == f);
    assert(a / 0x1_0000_0000_0000_0000_0000_0000 == h);
    assert(a / 0x1_0000_0000_0000_0000_0000_0000_0000 == k);
    assert(k < 0x1_0000);
}

proof fn lemma_zero_run(g: Seq<int>, from: int)
    requires
        0 <= from <= g.len(),
    ensures
        0 <= zero_run(g, from) <= g.len() - from,
        forall|i: int| from <= i < from + zero_run(g, from) ==> #[trigger] g[i] == 0,
    decreases g.len() - from,
{
    if from < g.len() && g[from] == 0 {
        lemma_zero_run(g, from + 1);
    }
}

proof fn lemma_longest_run(g: Seq<int>, to: int)
    requires
        0 <= to <= g.len(),
    ensures
        ({
            let (start, len) = longest_zero_run(g, to);
            &&& 0 <= start
            &&& start < to || start == 0
            &&& 0 <= len
            &&& start + len <= g.len()
            &&& forall|i: int| start <= i < start + len ==> #[trigger] g[i] == 0
        }),
    decreases to,
{
    if to > 0 {
        lemma_longest_run(g, to - 1);
        lemma_zero_run(g, to - 1);
    }
}

/// The longest run of zero groups is one of zero groups, none is longer, and it is the
/// first that is as long.
pub proof fn law_the_longest_run_is_shortened(g: Seq<int>, to: int, other: int)
    requires
        0 <= to <= g.len(),
        0 <= other < to,
    ensures
        ({
            let (start, len) = longest_zero_run(g, to);
            &&& forall|i: int| start <= i < start + len ==> #[trigger] g[i] == 0
            &&& zero_run(g, other) <= len
            &&& other < start ==> zero_run(g, other) < len
        }),
    decreases to,
{
    lemma_longest_run(g, to);
    lemma_longest_run(g, to - 1);
    lemma_zero_run(g, to - 1);
    lemma_zero_run(g, other);
    if other < to - 1 {
        law_the_longest_run_is_shortened(g, to - 1, other);
    }
}

/// An address reads back from its text, of either family and in every form in which it is
/// written.
pub proof fn law_an_address_reads_back(address: IpAddr)
    ensures
        address_value(address_text(address)) == Some(address),
{
    match address {
        IpAddr::V4(value) => {
            law_an_ipv4_address_reads_back(value);
        },
        IpAddr::V6(value) => {
            let g = groups_in(value as int);
            lemma_groups_in(value);
            lemma_longest_run(g, 8);
            let (start, len) = longest_zero_run(g, 8);
            if value as int / 0x1_0000_0000 == 0xffff {
                lemma_mapped(value);
            } else if len > 1 {
                law_eight_groups_are_an_address(g, start, start + len);
            } else {
                law_eight_groups_are_an_address(g, 0, 1);
            }
        },
    }
}

proof fn lemma_mapped(value: u128)
    requires
        value as int / 0x1_0000_0000 == 0xffff,
    ensures
        ipv4_value(ipv6_text(value as int)) is None,
        ipv6_value(ipv6_text(value as int)) == Some(value as int),
{
    reveal_strlit("::");
    reveal_strlit("::ffff:");
    let low = value as int % 0x1_0000_0000;
    let dotted = ipv4_text(low);
    let text = "::ffff:"@ + dotted;
    let none = Seq::<char>::empty();
    let back = seq!['f', 'f', 'f', 'f', ':'] + dotted;
    assert("::"@ =~= seq![':', ':']);
    assert("::ffff:"@ =~= seq![':', ':', 'f', 'f', 'f', 'f', ':']);
    assert(text =~= none + "::"@ + back);
    lemma_gap(none, back);
    assert(text.take(0) =~= none);
    assert(text.skip(2) =~= back);
    lemma_mapped_groups(low as u32);
    let found = seq![0xffff, low / 0x1_0000, low % 0x1_0000];
    let all = Seq::<int>::empty() + zeroes(5) + found;
    assert(all =~= seq![0, 0, 0, 0, 0, 0xffff, low / 0x1_0000, low % 0x1_0000]);
    assert(number_of(all) == 0xffff * 0x1_0000_0000 + low);
    assert(text[0] == ':');
    lemma_colon_is_no_ipv4(text);
}

proof fn lemma_mapped_groups(low: u32)
    ensures
        groups_of(seq!['f', 'f', 'f', 'f', ':'] + ipv4_text(low as int), true) == Some(
            seq![0xffff, low as int / 0x1_0000, low as int % 0x1_0000],
        ),
{
    let dotted = ipv4_text(low as int);
    let ffff = seq!['f', 'f', 'f', 'f'];
    let back = ffff.push(':') + dotted;
    assert(seq!['f', 'f', 'f', 'f', ':'] + dotted =~= back);
    law_an_ipv4_address_reads_back(low);
    law_pieces_stand_between_separators(ffff, ':', dotted);
    law_pieces_stand_between_separators(dotted, ':', dotted);
    let parts = seq![ffff, dotted];
    assert(pieces(back, ':') =~= parts);
    assert(parts.drop_last() =~= seq![ffff]);
    assert(seq![ffff].drop_last() =~= Seq::<Seq<char>>::empty());
    lemma_spelled_ffff();
    lemma_group(0xffff);
    lemma_dotted_is_no_group(low);
    let none = Seq::<int>::empty();
    assert(plain_groups(Seq::<Seq<char>>::empty()) == Some(none));
    assert(plain_groups(seq![ffff]) == Some(none.push(0xffff)));
    assert(plain_groups(parts) is None);
    let found = none.push(0xffff).push(low as int / 0x1_0000).push(low as int % 0x1_0000);
    assert(found =~= seq![0xffff, low as int / 0x1_0000, low as int % 0x1_0000]);
}

proof fn lemma_spelled_ffff()
    ensures
        spelled(0xffff, 16) == seq!['f', 'f', 'f', 'f'],
{
    reveal_with_fuel(spelled, 5);
    assert(spelled(0xffff, 16) =~= seq!['f', 'f', 'f', 'f']);
}

proof fn lemma_dotted_is_no_group(value: u32)
    ensures
        group_value(ipv4_text(value as int)) is None,
{
    let n = value as int;
    let a = decimal((n / 0x100_0000 % 0x100) as nat);
    let text = ipv4_text(n);
    lemma_octet((n / 0x100_0000 % 0x100) as nat);
    lemma_digits_only((n / 0x100_0000 % 0x100) as nat, 10);
    assert(text[a.len() as int] == '.');
    assert(text[0] == a[0]);
    law_only_digits_make_a_number(text, 16, 0xffff, a.len() as int);
}

proof fn lemma_colon_is_no_ipv4(text: Seq<char>)
    requires
        text.len() > 0,
        text[0] == ':',
    ensures
        ipv4_value(text) is None,
{
    lemma_first_piece(text, '.');
    let first = pieces(text, '.')[0];
    if octet_value(first) is Some {
        law_only_digits_make_a_number(first, 10, 255, 0);
    }
}

proof fn lemma_first_piece(text: Seq<char>, separator: char)
    requires
        text.len() > 0,
        text[0] != separator,
    ensures
        pieces(text, separator).len() > 0,
        pieces(text, separator)[0].len() > 0,
        pieces(text, separator)[0][0] == text[0],
    decreases text.len(),
{
    let init = text.drop_last();
    if init.len() > 0 {
        lemma_first_piece(init, separator);
    } else {
        assert(init =~= Seq::<char>::empty());
        reveal_with_fuel(pieces, 2);
    }
}

/// An endpoint is written as address and port, with brackets round an IPv6 address.
pub proof fn law_endpoints_are_written_with_their_port(endpoint: Endpoint)
    ensures
        endpoint.0 is V4 ==> endpoint_text(endpoint) == address_text(endpoint.0) + seq![':']
            + decimal(endpoint.1 as nat),
        endpoint.0 is V6 ==> endpoint_text(endpoint) == seq!['['] + address_text(endpoint.0)
            + seq![']', ':'] + decimal(endpoint.1 as nat),
{
    reveal_strlit("]:");
    assert("]:"@ =~= seq![']', ':']);
}

} // verus!
