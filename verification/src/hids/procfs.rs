//! Parsing of `/proc` files.

use vstd::prelude::*;
use crate::net::{Endpoint, IpAddr};
use crate::text::{
    begins, chars_of, decimal, find, first_of, head, last_of, law_a_number_reads_back,
    lemma_first_of, lemma_last_of, lines_of, lower, lowercase, lowered, number, parse_number, rfind,
    spelled, spells, split_lines, split_words, starts_with, string_of, tail, views, words,
};
use super::clean::{sanitise, sanitised};

verus! {

/// Longest process name kept, in characters.
pub const MAX_NAME: usize = 128;

/// What a `stat` file says: the name, the parent and the start time.
pub open spec fn stat_of(stat: Seq<char>) -> Option<(Seq<char>, Option<u32>, u64)> {
    match (first_of(stat, '('), last_of(stat, ')')) {
        (Some(open), Some(close)) => if close < open {
            None
        } else {
            let rest = words(stat.skip(close + 1));
            if rest.len() < 20 {
                None
            } else {
                match number(rest[19], 10, u64::MAX as int) {
                    None => None,
                    Some(start) => Some(
                        (
                            sanitised(stat.subrange(open + 1, close), MAX_NAME as nat),
                            match number(rest[1], 10, u32::MAX as int) {
                                Some(parent) => Some(parent as u32),
                                None => None,
                            },
                            start as u64,
                        ),
                    ),
                }
            }
        },
        _ => None,
    }
}

fn read_u32(field: &[char]) -> (value: Option<u32>)
    ensures
        value == (match number(field@, 10, u32::MAX as int) {
            Some(n) => Some(n as u32),
            None => None,
        }),
{
    match parse_number(field, 10, u32::MAX as u64) {
        Some(n) => Some(n as u32),
        None => None,
    }
}

/// Parse `/proc/<pid>/stat` into `(comm, ppid, starttime)`.
///
/// The `comm` field is parenthesised **and may itself contain spaces and
/// parentheses**: a process can call itself `foo) R 1 1 1`. Splitting on
/// whitespace from the left is therefore wrong, and is a real way for a process
/// to misreport its own parent. Fields are located from the **last** `)`, which
/// is unambiguous.
pub fn parse_stat(stat: &str) -> (parsed: Option<(String, Option<u32>, u64)>)
    ensures
        match parsed {
            Some((name, parent, start)) => stat_of(stat@) == Some((name@, parent, start)),
            None => stat_of(stat@) is None,
        },
{
    let chars = chars_of(stat);
    let text = chars.as_slice();
    let open: usize = match find(text, '(') {
        Some(open) => open,
        None => return None,
    };
    let close: usize = match rfind(text, ')') {
        Some(close) => close,
        None => return None,
    };
    if close < open {
        return None;
    }
    proof {
        crate::text::lemma_first_of(text@, '(');
        crate::text::lemma_last_of(text@, ')');
        assert(open < close);
        assert(close < text.len());
    }
    let inside = tail(head(text, close), open + 1);
    assert(inside@ =~= text@.subrange(open + 1, close as int));
    let (name, _) = sanitise(inside, MAX_NAME);
    // After `) ` come state, ppid, pgrp, session, ... with starttime the 22nd
    // field overall, that is index 19 in this remainder.
    let rest = split_words(tail(text, close + 1));
    let ghost all = words(text@.skip(close + 1));
    assert(all.len() == rest@.len());
    if rest.len() < 20 {
        return None;
    }
    assert(all[1] == rest@[1]@ && all[19] == rest@[19]@);
    let parent = read_u32(rest[1]);
    match parse_number(rest[19], 10, u64::MAX) {
        Some(start) => Some((string_of(name.as_slice()), parent, start)),
        None => None,
    }
}

/// The second word of a line as a number.
pub open spec fn second_number(line: Seq<char>) -> Option<u32> {
    if words(line).len() < 2 {
        None
    } else {
        match number(words(line)[1], 10, u32::MAX as int) {
            Some(n) => Some(n as u32),
            None => None,
        }
    }
}

/// The real user of the first `Uid:` line, from a place on.
pub open spec fn uid_from(lines: Seq<Seq<char>>, i: int) -> Option<u32>
    decreases lines.len() - i,
{
    if i < 0 || i >= lines.len() {
        None
    } else if begins(lines[i], "Uid:"@) {
        second_number(lines[i])
    } else {
        uid_from(lines, i + 1)
    }
}

/// The real user that a `status` file names.
pub open spec fn uid_of(status: Seq<char>) -> Option<u32> {
    uid_from(lines_of(status), 0)
}

/// Pull the real uid out of `/proc/<pid>/status`.
pub fn parse_status_uid(status: &str) -> (uid: Option<u32>)
    ensures
        uid == uid_of(status@),
{
    let chars = chars_of(status);
    let lines = split_lines(chars.as_slice());
    let ghost all = lines_of(status@);
    let mut i: usize = 0;
    while i < lines.len()
        invariant
            all == views(lines@),
            all == lines_of(status@),
            i <= all.len(),
            uid_from(all, i as int) == uid_of(status@),
        decreases all.len() - i,
    {
        assert(all[i as int] == lines@[i as int]@);
        if starts_with(lines[i], "Uid:") {
            let fields = split_words(lines[i]);
            let ghost found = words(all[i as int]);
            assert(found.len() == fields@.len());
            if fields.len() < 2 {
                return None;
            }
            assert(found[1] == fields@[1]@);
            return read_u32(fields[1]);
        }
        i = i + 1;
    }
    None
}

/// A 32-bit number with its bytes in the other order.
pub open spec fn swapped(word: int) -> int {
    (word % 0x100) * 0x100_0000 + (word / 0x100 % 0x100) * 0x1_0000 + (word / 0x1_0000 % 0x100)
        * 0x100 + word / 0x100_0000
}

fn swap(word: u32) -> (other: u32)
    ensures
        other == swapped(word as int),
{
    (word % 0x100) * 0x100_0000 + (word / 0x100 % 0x100) * 0x1_0000 + (word / 0x1_0000 % 0x100)
        * 0x100 + word / 0x100_0000
}

/// The part of an IPv6 address that eight hex digits give: the kernel writes an
/// address in host byte order per 32-bit word.
pub open spec fn word_of(digits: Seq<char>) -> Option<int> {
    match number(digits, 16, u32::MAX as int) {
        Some(word) => Some(swapped(word)),
        None => None,
    }
}

/// The address that hex digits give.
pub open spec fn hex_address(digits: Seq<char>, v6: bool) -> Option<IpAddr> {
    if v6 {
        if digits.len() != 32 {
            None
        } else {
            match (
                word_of(digits.subrange(0, 8)),
                word_of(digits.subrange(8, 16)),
                word_of(digits.subrange(16, 24)),
                word_of(digits.subrange(24, 32)),
            ) {
                (Some(a), Some(b), Some(c), Some(d)) => Some(
                    IpAddr::V6(
                        (((a * 0x1_0000_0000 + b) * 0x1_0000_0000 + c) * 0x1_0000_0000 + d) as u128,
                    ),
                ),
                _ => None,
            }
        }
    } else if digits.len() != 8 {
        None
    } else {
        match word_of(digits) {
            Some(word) => Some(IpAddr::V4(word as u32)),
            None => None,
        }
    }
}

/// The endpoint that a `HEXADDR:HEXPORT` field gives.
pub open spec fn endpoint_of(field: Seq<char>, v6: bool) -> Option<Endpoint> {
    match first_of(field, ':') {
        None => None,
        Some(i) => match (hex_address(field.take(i), v6), number(field.skip(i + 1), 16, 65_535)) {
            (Some(address), Some(port)) => Some((address, port as u16)),
            _ => None,
        },
    }
}

fn read_word(digits: &[char]) -> (word: Option<u32>)
    ensures
        match word {
            Some(word) => word_of(digits@) == Some(word as int),
            None => word_of(digits@) is None,
        },
{
    match parse_number(digits, 16, u32::MAX as u64) {
        Some(word) => Some(swap(word as u32)),
        None => None,
    }
}

fn read_address(digits: &[char], v6: bool) -> (address: Option<IpAddr>)
    ensures
        address == hex_address(digits@, v6),
{
    if v6 {
        if digits.len() != 32 {
            return None;
        }
        let first = head(digits, 8);
        let second = head(tail(digits, 8), 8);
        let third = head(tail(digits, 16), 8);
        let fourth = tail(digits, 24);
        assert(first@ =~= digits@.subrange(0, 8));
        assert(second@ =~= digits@.subrange(8, 16));
        assert(third@ =~= digits@.subrange(16, 24));
        assert(fourth@ =~= digits@.subrange(24, 32));
        let a = read_word(first);
        let b = read_word(second);
        let c = read_word(third);
        let d = read_word(fourth);
        match (a, b, c, d) {
            (Some(a), Some(b), Some(c), Some(d)) => Some(
                IpAddr::V6(
                    ((a as u128 * 0x1_0000_0000 + b as u128) * 0x1_0000_0000 + c as u128)
                        * 0x1_0000_0000 + d as u128,
                ),
            ),
            _ => None,
        }
    } else {
        if digits.len() != 8 {
            return None;
        }
        match read_word(digits) {
            Some(word) => Some(IpAddr::V4(word)),
            None => None,
        }
    }
}

/// Decode a `HEXADDR:HEXPORT` field.
fn parse_hex_address(field: &[char], v6: bool) -> (endpoint: Option<Endpoint>)
    ensures
        endpoint == endpoint_of(field@, v6),
{
    let colon: usize = match find(field, ':') {
        Some(colon) => colon,
        None => return None,
    };
    assert(colon < field.len());
    let port: u16 = match parse_number(tail(field, colon + 1), 16, 65_535) {
        Some(port) => port as u16,
        None => return None,
    };
    match read_address(head(field, colon), v6) {
        Some(address) => Some((address, port)),
        None => None,
    }
}

/// A socket in `LISTEN` state.
#[derive(Debug, Clone, Copy, PartialEq, Eq)]
pub struct ListeningSocket {
    /// Where it is listening.
    pub address: Endpoint,
    /// Owning socket inode, used to attribute it to a process.
    pub inode: u64,
}

/// The listening socket of a table line.
pub open spec fn socket_of(line: Seq<char>, v6: bool) -> Option<ListeningSocket> {
    let fields = words(line);
    if fields.len() < 4 || lowered(fields[3]) != "0a"@ {
        None
    } else {
        match endpoint_of(fields[1], v6) {
            None => None,
            Some(address) => Some(
                ListeningSocket {
                    address,
                    inode: if fields.len() < 10 {
                        0
                    } else {
                        match number(fields[9], 10, u64::MAX as int) {
                            Some(inode) => inode as u64,
                            None => 0,
                        }
                    },
                },
            ),
        }
    }
}

/// The listening sockets of table lines up to a place; the first line is the
/// header.
pub open spec fn sockets_of(lines: Seq<Seq<char>>, v6: bool) -> Seq<ListeningSocket>
    decreases lines.len(),
{
    if lines.len() <= 1 {
        seq![]
    } else {
        let before = sockets_of(lines.drop_last(), v6);
        match socket_of(lines.last(), v6) {
            Some(socket) => before.push(socket),
            None => before,
        }
    }
}

/// The listening sockets of a table.
pub open spec fn table_of(text: Seq<char>, v6: bool) -> Seq<ListeningSocket> {
    sockets_of(lines_of(text), v6)
}

fn parse_net_line(line: &[char], v6: bool) -> (socket: Option<ListeningSocket>)
    ensures
        socket == socket_of(line@, v6),
{
    let fields = split_words(line);
    let ghost all = words(line@);
    assert(all.len() == fields@.len());
    assert(forall|j: int| 0 <= j < all.len() ==> #[trigger] all[j] == fields@[j]@);
    if fields.len() < 4 {
        return None;
    }
    let state = lowercase(fields[3]);
    if !spells(state.as_slice(), "0a") {
        return None;
    }
    let address = match parse_hex_address(fields[1], v6) {
        Some(address) => address,
        None => return None,
    };
    let inode: u64 = if fields.len() < 10 {
        0
    } else {
        match parse_number(fields[9], 10, u64::MAX) {
            Some(inode) => inode,
            None => 0,
        }
    };
    Some(ListeningSocket { address, inode })
}

/// Parse `/proc/net/tcp` or `/proc/net/tcp6`, returning only `LISTEN` entries.
///
/// The format is whitespace-separated hex fields:
/// `sl local rem st tx:rx tr:when retrnsmt uid timeout inode`.
/// State `0A` is `TCP_LISTEN`.
pub fn parse_net_table(text: &str, is_v6: bool) -> (sockets: Vec<ListeningSocket>)
    ensures
        sockets@ == table_of(text@, is_v6),
{
    let chars = chars_of(text);
    let lines = split_lines(chars.as_slice());
    let ghost all = lines_of(text@);
    let mut sockets: Vec<ListeningSocket> = Vec::new();
    if lines.len() == 0 {
        return sockets;
    }
    let mut i: usize = 1;
    while i < lines.len()
        invariant
            all == views(lines@),
            1 <= i <= all.len(),
            sockets@ == sockets_of(all.take(i as int), is_v6),
        decreases all.len() - i,
    {
        assert(all[i as int] == lines@[i as int]@);
        assert(all.take(i + 1).drop_last() =~= all.take(i as int));
        if let Some(socket) = parse_net_line(lines[i], is_v6) {
            sockets.push(socket);
        }
        i = i + 1;
    }
    assert(all.take(i as int) =~= all);
    sockets
}

/// A process cannot forge its parent through its name: the parent and the start
/// time are read behind the last bracket of the line, wherever the name ends.
pub proof fn law_a_name_cannot_forge_fields(stat: Seq<char>, name: Seq<char>)
    requires
        stat_of(stat) is Some,
    ensures
        ({
            let open = first_of(stat, '(')->0;
            let close = last_of(stat, ')')->0;
            let forged = stat.take(open + 1) + name + stat.skip(close);
            match (stat_of(forged), stat_of(stat)) {
                (Some(told), Some(honest)) => {
                    &&& told.1 == honest.1
                    &&& told.2 == honest.2
                    &&& told.0 == sanitised(name, MAX_NAME as nat)
                },
                _ => false,
            }
        }),
{
    let open = first_of(stat, '(')->0;
    let close = last_of(stat, ')')->0;
    let forged = stat.take(open + 1) + name + stat.skip(close);
    crate::text::lemma_first_of(stat, '(');
    crate::text::lemma_last_of(stat, ')');
    let new_close = open + 1 + name.len();
    assert(forged[open] == '(');
    assert(forged[new_close] == stat[close]);
    assert forall|j: int| 0 <= j < open implies #[trigger] forged[j] != '(' by {
        assert(forged[j] == stat[j]);
    }
    assert forall|j: int| new_close < j < forged.len() implies #[trigger] forged[j] != ')' by {
        assert(forged[j] == stat[close + (j - new_close)]);
    }
    crate::text::lemma_first_of(forged, '(');
    crate::text::lemma_last_of(forged, ')');
    let first = first_of(forged, '(')->0;
    assert(first == open) by {
        if first < open {
            assert(forged[first] != '(');
        }
        if first > open {
            assert(forged[open] != '(');
        }
    }
    let last = last_of(forged, ')')->0;
    assert(last == new_close) by {
        if last > new_close {
            assert(forged[last] != ')');
        }
        if last < new_close {
            assert(forged[new_close] != ')');
        }
    }
    assert(forged.skip(new_close + 1) =~= stat.skip(close + 1));
    assert(forged.subrange(open + 1, new_close) =~= name);
}

/// A `stat` line is read by place: the name is what stands between the brackets, whatever
/// it holds, and behind them the second field is the parent and the twentieth the start
/// time.
pub proof fn law_a_stat_line_is_read_by_place(
    front: Seq<char>,
    name: Seq<char>,
    rest: Seq<char>,
    parent: u32,
    start: u64,
)
    requires
        forall|i: int| 0 <= i < front.len() ==> #[trigger] front[i] != '(',
        forall|i: int| 0 <= i < rest.len() ==> #[trigger] rest[i] != ')',
    ensures
        ({
            let stat = front.push('(') + name + seq![')'] + rest;
            let fields = words(rest);
            &&& fields.len() >= 20 && fields[1] == decimal(parent as nat) && fields[19] == decimal(
                start as nat,
            ) ==> stat_of(stat) == Some((sanitised(name, 128), Some(parent), start))
            &&& fields.len() < 20 ==> stat_of(stat) is None
        }),
{
    let stat = front.push('(') + name + seq![')'] + rest;
    let open = front.len() as int;
    let close = open + 1 + name.len();
    lemma_first_of(stat, '(');
    lemma_last_of(stat, ')');
    assert(stat[open] == '(');
    assert(stat[close] == ')');
    assert forall|j: int| 0 <= j < open implies #[trigger] stat[j] != '(' by {
        assert(stat[j] == front[j]);
    }
    assert forall|j: int| close < j < stat.len() implies #[trigger] stat[j] != ')' by {
        assert(stat[j] == rest[j - close - 1]);
    }
    assert(stat.subrange(open + 1, close) =~= name);
    assert(stat.skip(close + 1) =~= rest);
    law_a_number_reads_back(parent as nat, 10, u32::MAX as int);
    law_a_number_reads_back(start as nat, 10, u64::MAX as int);
}

/// The user is the second word of the first line that starts with `Uid:`, and unknown
/// where there is no such line.
pub proof fn law_the_first_uid_line_names_the_user(lines: Seq<Seq<char>>, i: int, k: int, uid: u32)
    requires
        0 <= i <= k <= lines.len(),
        forall|j: int| i <= j < k ==> !begins(#[trigger] lines[j], "Uid:"@),
    ensures
        k == lines.len() ==> uid_from(lines, i) is None,
        k < lines.len() && begins(lines[k], "Uid:"@) && words(lines[k]).len() >= 2 && words(
            lines[k],
        )[1] == decimal(uid as nat) ==> uid_from(lines, i) == Some(uid),
    decreases k - i,
{
    law_a_number_reads_back(uid as nat, 10, u32::MAX as int);
    if i < k {
        law_the_first_uid_line_names_the_user(lines, i + 1, k, uid);
    }
}

/// The kernel writes each 32-bit word of an address with its bytes turned around: the
/// number that the digits spell has the first octet lowest.
pub proof fn law_address_words_are_turned_around(digits: Seq<char>, a: u8, b: u8, c: u8, d: u8)
    requires
        digits.len() == 8,
        number(digits, 16, u32::MAX as int) == Some(
            a + 0x100 * b + 0x1_0000 * c + 0x100_0000 * d,
        ),
    ensures
        hex_address(digits, false) matches Some(IpAddr::V4(value)) && value == a * 0x100_0000 + b
            * 0x1_0000 + c * 0x100 + d,
        hex_address(digits, true) is None,
{
    lemma_swapped(a as int, b as int, c as int, d as int);
}

proof fn lemma_swapped(a: int, b: int, c: int, d: int)
    requires
        0 <= a < 0x100,
        0 <= b < 0x100,
        0 <= c < 0x100,
        0 <= d < 0x100,
    ensures
        swapped(a + 0x100 * b + 0x1_0000 * c + 0x100_0000 * d) == a * 0x100_0000 + b * 0x1_0000 + c
            * 0x100 + d,
{
    let word = a + 0x100 * b + 0x1_0000 * c + 0x100_0000 * d;
    let third = c + 0x100 * d;
    let second = b + 0x100 * third;
    vstd::arithmetic::div_mod::lemma_fundamental_div_mod_converse(word, 0x100, second, a);
    vstd::arithmetic::div_mod::lemma_fundamental_div_mod_converse(second, 0x100, third, b);
    vstd::arithmetic::div_mod::lemma_fundamental_div_mod_converse(third, 0x100, d, c);
    vstd::arithmetic::div_mod::lemma_fundamental_div_mod_converse(
        word,
        0x1_0000,
        third,
        a + 0x100 * b,
    );
    vstd::arithmetic::div_mod::lemma_fundamental_div_mod_converse(
        word,
        0x100_0000,
        d,
        a + 0x100 * b + 0x1_0000 * c,
    );
}

/// An IPv6 address is four such words, the first one highest.
pub proof fn law_the_first_word_of_an_address_is_highest(
    digits: Seq<char>,
    a: u32,
    b: u32,
    c: u32,
    d: u32,
)
    requires
        digits.len() == 32,
        number(digits.subrange(0, 8), 16, u32::MAX as int) == Some(swapped(a as int)),
        number(digits.subrange(8, 16), 16, u32::MAX as int) == Some(swapped(b as int)),
        number(digits.subrange(16, 24), 16, u32::MAX as int) == Some(swapped(c as int)),
        number(digits.subrange(24, 32), 16, u32::MAX as int) == Some(swapped(d as int)),
    ensures
        hex_address(digits, true) matches Some(IpAddr::V6(value)) && value == a
            * 0x1_0000_0000_0000_0000_0000_0000 + b * 0x1_0000_0000_0000_0000 + c * 0x1_0000_0000
            + d,
        hex_address(digits, false) is None,
{
    law_swapping_twice_changes_nothing(a);
    law_swapping_twice_changes_nothing(b);
    law_swapping_twice_changes_nothing(c);
    law_swapping_twice_changes_nothing(d);
}

/// Turning the bytes of a word around twice changes nothing.
pub proof fn law_swapping_twice_changes_nothing(word: u32)
    ensures
        swapped(swapped(word as int)) == word,
        0 <= swapped(word as int) <= u32::MAX,
{
    let n = word as int;
    let a = n % 0x100;
    let b = n / 0x100 % 0x100;
    let c = n / 0x1_0000 % 0x100;
    let d = n / 0x100_0000;
    let other = a * 0x100_0000 + b * 0x1_0000 + c * 0x100 + d;
    assert(n / 0x100 / 0x100 == n / 0x1_0000);
    assert(n / 0x1_0000 / 0x100 == n / 0x100_0000);
    assert(n == a + 0x100 * b + 0x1_0000 * c + 0x100_0000 * d);
    assert(d < 0x100);
    assert(other % 0x100 == d);
    assert(other / 0x100 == c + 0x100 * b + 0x1_0000 * a);
    assert(other / 0x100 % 0x100 == c);
    assert(other / 0x1_0000 == b + 0x100 * a);
    assert(other / 0x1_0000 % 0x100 == b);
    assert(other / 0x100_0000 == a);
}

/// An endpoint is its address and, behind the colon, its port, both in hexadecimal.
pub proof fn law_an_endpoint_is_an_address_and_a_port(digits: Seq<char>, port: u16, v6: bool)
    requires
        forall|i: int| 0 <= i < digits.len() ==> #[trigger] digits[i] != ':',
    ensures
        ({
            let field = digits.push(':') + spelled(port as nat, 16);
            match hex_address(digits, v6) {
                Some(address) => endpoint_of(field, v6) == Some((address, port)),
                None => endpoint_of(field, v6) is None,
            }
        }),
{
    let field = digits.push(':') + spelled(port as nat, 16);
    let at = digits.len() as int;
    lemma_first_of(field, ':');
    assert(field[at] == ':');
    assert forall|i: int| 0 <= i < at implies #[trigger] field[i] != ':' by {
        assert(field[i] == digits[i]);
    }
    assert(field.take(at) =~= digits);
    assert(field.skip(at + 1) =~= spelled(port as nat, 16));
    law_a_number_reads_back(port as nat, 16, 65_535);
}

/// A line of the table is a listening socket exactly where its state is `0A`, in
/// whatever case, and its local address can be read; its inode is the tenth field, and
/// unknown where there is none.
pub proof fn law_only_listening_sockets_are_read(line: Seq<char>, v6: bool, inode: u64)
    ensures
        ({
            let fields = words(line);
            let listens = fields.len() >= 4 && (fields[3] == "0A"@ || fields[3] == "0a"@);
            &&& socket_of(line, v6) is Some <==> listens && endpoint_of(fields[1], v6) is Some
            &&& socket_of(line, v6) matches Some(socket) ==> {
                &&& endpoint_of(fields[1], v6) == Some(socket.address)
                &&& fields.len() < 10 ==> socket.inode == 0
                &&& fields.len() >= 10 && fields[9] == decimal(inode as nat) ==> socket.inode
                    == inode
            }
        }),
{
    law_a_number_reads_back(inode as nat, 10, u64::MAX as int);
    reveal_strlit("0A");
    reveal_strlit("0a");
    let fields = words(line);
    if fields.len() >= 4 {
        let state = fields[3];
        assert("0a"@ =~= seq!['0', 'a']);
        assert("0A"@ =~= seq!['0', 'A']);
        if lowered(state) == "0a"@ {
            assert(state.len() == 2);
            assert(lowered(state)[0] == lower(state[0]));
            assert(lowered(state)[1] == lower(state[1]));
            lemma_state(state[0], state[1]);
            assert(state =~= seq![state[0], state[1]]);
        }
        if state == "0A"@ || state == "0a"@ {
            lemma_state(state[0], state[1]);
            assert(lowered(state) =~= "0a"@);
        }
    }
}

proof fn lemma_state(zero: char, letter: char)
    ensures
        lower(zero) == '0' <==> zero == '0',
        lower(letter) == 'a' <==> letter == 'a' || letter == 'A',
{
}

/// The sockets of a table are those of its lines behind the header, in order.
pub proof fn law_the_table_starts_behind_its_header(
    lines: Seq<Seq<char>>,
    line: Seq<char>,
    v6: bool,
)
    ensures
        sockets_of(seq![line], v6).len() == 0,
        lines.len() > 0 ==> match socket_of(line, v6) {
            Some(socket) => sockets_of(lines.push(line), v6) == sockets_of(lines, v6).push(socket),
            None => sockets_of(lines.push(line), v6) == sockets_of(lines, v6),
        },
{
    assert(lines.push(line).drop_last() =~= lines);
}

} // verus!
