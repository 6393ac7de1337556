//! The values of the match options: what each text means, and why one is
//! refused.
//!
//! A parser here gives the value or the reason for refusing it; the caller names
//! the option that the value belongs to.

use vstd::prelude::*;
use crate::text::{
    append, append_chars, decimal, digit, digit_char, digit_value, find, find_digit, find_space,
    find_text, first_of, first_text, first_where, head, is_digit, is_space, last_of,
    law_a_number_reads_back, law_a_text_is_found_where_it_first_stands, law_decimals_are_digits,
    law_pieces_stand_between_separators, lemma_first_of, lemma_first_where, lemma_is_first_where,
    lemma_last_of, lemma_numbers_are_in_range, lemma_one_word, lemma_trimmed_already, number, owned,
    parse_number, parse_signed, pieces, plain_number, quote, quote_char, quoted, quoted_char, rfind, signed_number,
    spells, split_at_char, split_words, string_of, tail, texts, trim, trimmed, words,
};
use super::model::{entries, MetadataEntry};
use super::options::{
    op_named, Buffer, ByteJump, ByteTest, DsizeMatch, Endian, FlowBitsModel, FlowBitsOp, FlowMatch,
    NumericOp, PcreMatch, PcreModel, Threshold, ThresholdKind, Track,
};

verus! {

// ---------------------------------------------------------------------------
// content
// ---------------------------------------------------------------------------

/// A blank between the digits of a hex section.
pub open spec fn is_blank(c: char) -> bool {
    c == ' ' || c == '\t' || c == '\n' || c == '\r' || c as u32 == 0x0c
}

/// A byte in front of the bytes of the rest.
pub open spec fn byte_then(byte: u8, rest: Result<Seq<u8>, Seq<char>>) -> Result<
    Seq<u8>,
    Seq<char>,
> {
    match rest {
        Ok(bytes) => Ok(seq![byte] + bytes),
        Err(reason) => Err(reason),
    }
}

/// The bytes of a content pattern from a point on: `hex` says whether the point
/// lies between bars, `half` is the first digit of a byte that is half read.
pub open spec fn content_from(text: Seq<char>, hex: bool, half: Option<int>) -> Result<
    Seq<u8>,
    Seq<char>,
>
    decreases text.len(),
{
    if text.len() == 0 {
        if hex {
            Err("unterminated hex section"@)
        } else {
            Ok(seq![])
        }
    } else if text[0] == '|' {
        if hex && half is Some {
            Err("a hex section ended mid-byte"@)
        } else {
            content_from(text.skip(1), !hex, None)
        }
    } else if !hex {
        if text[0] as u32 >= 128 {
            Err(
                "non-ASCII character "@ + quoted_char(text[0])
                    + " in a pattern; use a |hex| section"@,
            )
        } else {
            byte_then(text[0] as u8, content_from(text.skip(1), false, None))
        }
    } else if is_blank(text[0]) {
        content_from(text.skip(1), true, half)
    } else {
        match digit_value(text[0], 16) {
            None => Err(quoted_char(text[0]) + " is not a hex digit"@),
            Some(low) => match half {
                None => content_from(text.skip(1), true, Some(low)),
                Some(high) => byte_then(
                    (high * 16 + low) as u8,
                    content_from(text.skip(1), true, None),
                ),
            },
        }
    }
}

/// The bytes of a content pattern, with its `|48 54 54 50|` sections resolved.
pub open spec fn content_of(text: Seq<char>) -> Result<Seq<u8>, Seq<char>> {
    content_from(text, false, None)
}

/// Bytes already read, in front of those of the rest.
spec fn bytes_then(done: Seq<u8>, rest: Result<Seq<u8>, Seq<char>>) -> Result<Seq<u8>, Seq<char>> {
    match rest {
        Ok(bytes) => Ok(done + bytes),
        Err(reason) => Err(reason),
    }
}

proof fn lemma_byte_read(done: Seq<u8>, byte: u8, rest: Result<Seq<u8>, Seq<char>>)
    ensures
        bytes_then(done.push(byte), rest) == bytes_then(done, byte_then(byte, rest)),
{
    if let Ok(bytes) = rest {
        assert(done.push(byte) + bytes =~= done + (seq![byte] + bytes));
    }
}

/// Parse a content pattern, resolving `|48 54 54 50|` hex sections.
///
/// Binary protocols need bytes that cannot be written literally, and a rule
/// author writing `|0d 0a|` means CRLF rather than those six characters.
pub fn parse_content_pattern(text: &[char]) -> (result: Result<Vec<u8>, String>)
    ensures
        match result {
            Ok(bytes) => content_of(text@) == Ok::<Seq<u8>, Seq<char>>(bytes@),
            Err(reason) => content_of(text@) == Err::<Seq<u8>, Seq<char>>(reason@),
        },
{
    let mut out: Vec<u8> = Vec::new();
    let mut hex: bool = false;
    let mut half: Option<u8> = None;
    let mut i: usize = 0;
    let ghost mut pending: Option<int> = None;
    assert(text@.skip(0) =~= text@);
    assert(bytes_then(out@, content_of(text@)) == content_of(text@)) by {
        if let Ok(bytes) = content_of(text@) {
            assert(out@ + bytes =~= bytes);
        }
    }
    while i < text.len()
        invariant
            i <= text@.len(),
            match half {
                Some(high) => pending == Some(high as int) && high < 16 && hex,
                None => pending is None,
            },
            bytes_then(out@, content_from(text@.skip(i as int), hex, pending)) == content_of(text@),
        decreases text@.len() - i,
    {
        let ghost rest = text@.skip(i as int);
        let c = text[i];
        assert(rest[0] == c);
        assert(rest.skip(1) =~= text@.skip(i + 1));
        if c == '|' {
            if hex && half.is_some() {
                return Err(owned("a hex section ended mid-byte"));
            }
            hex = !hex;
        } else if !hex {
            // Non-ASCII in a content pattern is almost always a mistake, such as
            // a smart quote pasted from a document, and silently encoding it as
            // UTF-8 would produce a pattern that never matches.
            if c as u32 >= 128 {
                let mut reason = owned("non-ASCII character ");
                let form = quote_char(c);
                append(&mut reason, form.as_str());
                append(&mut reason, " in a pattern; use a |hex| section");
                return Err(reason);
            }
            proof {
                lemma_byte_read(out@, c as u8, content_from(rest.skip(1), false, None));
            }
            out.push(c as u8);
        } else if c == ' ' || c == '\t' || c == '\n' || c == '\r' || c as u32 == 0x0c {
            assert(is_blank(c));
        } else {
            match digit(c, 16) {
                None => {
                    let mut reason = quote_char(c);
                    append(&mut reason, " is not a hex digit");
                    return Err(reason);
                },
                Some(low) => match half {
                    None => {
                        half = Some(low as u8);
                        proof {
                            pending = Some(low as int);
                        }
                    },
                    Some(high) => {
                        let byte: u8 = high * 16 + low as u8;
                        proof {
                            lemma_byte_read(out@, byte, content_from(rest.skip(1), true, None));
                            pending = None;
                        }
                        out.push(byte);
                        half = None;
                    },
                },
            }
        }
        i = i + 1;
    }
    assert(text@.skip(i as int).len() == 0);
    if hex {
        return Err(owned("unterminated hex section"));
    }
    assert(out@ + Seq::<u8>::empty() =~= out@);
    Ok(out)
}

// ---------------------------------------------------------------------------
// pcre
// ---------------------------------------------------------------------------

/// An expression with the flags from a place on applied to it.
pub open spec fn flagged(pcre: PcreModel, flags: Seq<char>, i: int) -> Result<PcreModel, Seq<char>>
    decreases flags.len() - i,
{
    if i < 0 || i >= flags.len() {
        Ok(pcre)
    } else if flags[i] == 'i' {
        flagged(PcreModel { case_insensitive: true, ..pcre }, flags, i + 1)
    } else if flags[i] == 's' {
        flagged(PcreModel { dot_matches_newline: true, ..pcre }, flags, i + 1)
    } else if flags[i] == 'm' {
        flagged(PcreModel { multi_line: true, ..pcre }, flags, i + 1)
    } else if flags[i] == 'R' {
        flagged(PcreModel { relative: true, ..pcre }, flags, i + 1)
    } else {
        Err("unknown pcre flag "@ + quoted_char(flags[i]))
    }
}

/// The expression `/source/flags`, on the payload and not negated.
pub open spec fn pcre_of(text: Seq<char>) -> Result<PcreModel, Seq<char>> {
    let body = trimmed(text);
    if body.len() == 0 || body[0] != '/' {
        Err("a pcre must be delimited with /"@)
    } else {
        match last_of(body.skip(1), '/') {
            None => Err("a pcre must be delimited with /"@),
            Some(close) => if close == 0 {
                Err("empty expression"@)
            } else {
                flagged(
                    PcreModel {
                        source: body.skip(1).take(close),
                        buffer: Buffer::Payload,
                        negated: false,
                        case_insensitive: false,
                        dot_matches_newline: false,
                        multi_line: false,
                        relative: false,
                    },
                    body.skip(1).skip(close + 1),
                    0,
                )
            },
        }
    }
}

/// Parse `/expression/flags`.
pub fn parse_pcre(text: &[char]) -> (result: Result<PcreMatch, String>)
    ensures
        match result {
            Ok(pcre) => pcre_of(text@) == Ok::<PcreModel, Seq<char>>(pcre@),
            Err(reason) => pcre_of(text@) == Err::<PcreModel, Seq<char>>(reason@),
        },
{
    let whole = trim(text);
    if whole.len() == 0 || whole[0] != '/' {
        return Err(owned("a pcre must be delimited with /"));
    }
    let body = tail(whole, 1);
    let close: usize = match rfind(body, '/') {
        Some(close) => close,
        None => return Err(owned("a pcre must be delimited with /")),
    };
    if close == 0 {
        return Err(owned("empty expression"));
    }
    assert(close < body.len());
    let flags = tail(body, close + 1);
    let mut pcre = PcreMatch {
        source: string_of(head(body, close)),
        buffer: Buffer::Payload,
        negated: false,
        case_insensitive: false,
        dot_matches_newline: false,
        multi_line: false,
        relative: false,
    };
    let mut i: usize = 0;
    while i < flags.len()
        invariant
            i <= flags@.len(),
            flagged(pcre@, flags@, i as int) == pcre_of(text@),
        decreases flags@.len() - i,
    {
        let flag = flags[i];
        if flag == 'i' {
            pcre.case_insensitive = true;
        } else if flag == 's' {
            pcre.dot_matches_newline = true;
        } else if flag == 'm' {
            pcre.multi_line = true;
        } else if flag == 'R' {
            pcre.relative = true;
        } else {
            let mut reason = owned("unknown pcre flag ");
            let form = quote_char(flag);
            append(&mut reason, form.as_str());
            return Err(reason);
        }
        i = i + 1;
    }
    Ok(pcre)
}

// ---------------------------------------------------------------------------
// flow and flowbits
// ---------------------------------------------------------------------------

/// A flow condition with the parts from a place on applied to it.
pub open spec fn flow_from(flow: FlowMatch, parts: Seq<Seq<char>>, i: int) -> Result<
    FlowMatch,
    Seq<char>,
>
    decreases parts.len() - i,
{
    if i < 0 || i >= parts.len() {
        Ok(flow)
    } else {
        let part = trimmed(parts[i]);
        if part == "established"@ {
            flow_from(FlowMatch { established: Some(true), ..flow }, parts, i + 1)
        } else if part == "not_established"@ || part == "stateless"@ {
            flow_from(FlowMatch { established: Some(false), ..flow }, parts, i + 1)
        } else if part == "to_server"@ || part == "from_client"@ {
            flow_from(FlowMatch { to_server: Some(true), ..flow }, parts, i + 1)
        } else if part == "to_client"@ || part == "from_server"@ {
            flow_from(FlowMatch { to_server: Some(false), ..flow }, parts, i + 1)
        } else {
            Err("unknown flow option "@ + quoted(part))
        }
    }
}

/// The flow condition that a text names.
pub open spec fn flow_of(text: Seq<char>) -> Result<FlowMatch, Seq<char>> {
    flow_from(FlowMatch { established: None, to_server: None }, pieces(text, ','), 0)
}

/// A reason made of a text and a quoted one.
fn with_quoted(before: &str, text: &[char]) -> (reason: String)
    ensures
        reason@ == before@ + quoted(text@),
{
    let mut reason = owned(before);
    let plain = string_of(text);
    let form = quote(plain.as_str());
    append(&mut reason, form.as_str());
    reason
}

/// Parse `established,to_server` and the like.
pub fn parse_flow(text: &[char]) -> (result: Result<FlowMatch, String>)
    ensures
        match result {
            Ok(flow) => flow_of(text@) == Ok::<FlowMatch, Seq<char>>(flow),
            Err(reason) => flow_of(text@) == Err::<FlowMatch, Seq<char>>(reason@),
        },
{
    let parts = split_at_char(text, ',');
    let ghost all = pieces(text@, ',');
    let mut flow = FlowMatch { established: None, to_server: None };
    let mut i: usize = 0;
    while i < parts.len()
        invariant
            all == crate::text::views(parts@),
            i <= all.len(),
            flow_from(flow, all, i as int) == flow_of(text@),
        decreases all.len() - i,
    {
        assert(all[i as int] == parts@[i as int]@);
        let part = trim(parts[i]);
        if spells(part, "established") {
            flow.established = Some(true);
        } else if spells(part, "not_established") || spells(part, "stateless") {
            flow.established = Some(false);
        } else if spells(part, "to_server") || spells(part, "from_client") {
            flow.to_server = Some(true);
        } else if spells(part, "to_client") || spells(part, "from_server") {
            flow.to_server = Some(false);
        } else {
            return Err(with_quoted("unknown flow option ", part));
        }
        i = i + 1;
    }
    Ok(flow)
}

/// The text before the first comma, and that behind it.
pub open spec fn at_comma(text: Seq<char>) -> (Seq<char>, Seq<char>) {
    match first_of(text, ',') {
        Some(i) => (trimmed(text.take(i)), trimmed(text.skip(i + 1))),
        None => (trimmed(text), seq![]),
    }
}

/// The flow-bit operation that a text names.
pub open spec fn flowbits_of(text: Seq<char>) -> Result<FlowBitsModel, Seq<char>> {
    let (command, name) = at_comma(text);
    let unnamed = Err("flowbits:"@ + command + " needs a bit name"@);
    if command == "set"@ {
        if name.len() == 0 {
            unnamed
        } else {
            Ok(FlowBitsModel::SetBit(name))
        }
    } else if command == "unset"@ {
        if name.len() == 0 {
            unnamed
        } else {
            Ok(FlowBitsModel::Unset(name))
        }
    } else if command == "toggle"@ {
        if name.len() == 0 {
            unnamed
        } else {
            Ok(FlowBitsModel::Toggle(name))
        }
    } else if command == "isset"@ {
        if name.len() == 0 {
            unnamed
        } else {
            Ok(FlowBitsModel::IsSet(name))
        }
    } else if command == "isnotset"@ {
        if name.len() == 0 {
            unnamed
        } else {
            Ok(FlowBitsModel::IsNotSet(name))
        }
    } else if command == "noalert"@ {
        Ok(FlowBitsModel::NoAlert)
    } else {
        Err("unknown flowbits command "@ + quoted(command))
    }
}

fn split_at_comma(text: &[char]) -> (parts: (&[char], &[char]))
    ensures
        (parts.0@, parts.1@) == at_comma(text@),
{
    match find(text, ',') {
        Some(i) => {
            assert(i < text.len());
            (trim(head(text, i)), trim(tail(text, i + 1)))
        },
        None => {
            let end = tail(text, text.len());
            assert(end@ =~= seq![]);
            (trim(text), end)
        },
    }
}

/// Parse `set,name` and the like.
pub fn parse_flowbits(text: &[char]) -> (result: Result<FlowBitsOp, String>)
    ensures
        match result {
            Ok(op) => flowbits_of(text@) == Ok::<FlowBitsModel, Seq<char>>(op@),
            Err(reason) => flowbits_of(text@) == Err::<FlowBitsModel, Seq<char>>(reason@),
        },
{
    let (command, name) = split_at_comma(text);
    if spells(command, "noalert") {
        proof {
            reveal_strlit("noalert");
            reveal_strlit("set");
            reveal_strlit("unset");
            reveal_strlit("toggle");
            reveal_strlit("isset");
            reveal_strlit("isnotset");
            assert("noalert"@.len() == 7 && "set"@.len() == 3 && "unset"@.len() == 5
                && "toggle"@.len() == 6 && "isset"@.len() == 5 && "isnotset"@.len() == 8);
        }
        return Ok(FlowBitsOp::NoAlert);
    }
    let set = spells(command, "set");
    let unset = spells(command, "unset");
    let toggle = spells(command, "toggle");
    let isset = spells(command, "isset");
    let isnotset = spells(command, "isnotset");
    if !set && !unset && !toggle && !isset && !isnotset {
        return Err(with_quoted("unknown flowbits command ", command));
    }
    if name.len() == 0 {
        let mut reason = owned("flowbits:");
        append_chars(&mut reason, command);
        append(&mut reason, " needs a bit name");
        return Err(reason);
    }
    let bit = string_of(name);
    if set {
        Ok(FlowBitsOp::SetBit(bit))
    } else if unset {
        Ok(FlowBitsOp::Unset(bit))
    } else if toggle {
        Ok(FlowBitsOp::Toggle(bit))
    } else if isset {
        Ok(FlowBitsOp::IsSet(bit))
    } else {
        Ok(FlowBitsOp::IsNotSet(bit))
    }
}

// ---------------------------------------------------------------------------
// byte_test and byte_jump
// ---------------------------------------------------------------------------

/// The texts between the commas, trimmed.
pub open spec fn comma_parts(text: Seq<char>) -> Seq<Seq<char>> {
    pieces(text, ',').map_values(|part: Seq<char>| trimmed(part))
}

fn split_commas(text: &[char]) -> (parts: Vec<&[char]>)
    ensures
        crate::text::views(parts@) == comma_parts(text@),
{
    let pieces = split_at_char(text, ',');
    let ghost all = crate::text::views(pieces@);
    let mut parts: Vec<&[char]> = Vec::new();
    let mut i: usize = 0;
    while i < pieces.len()
        invariant
            all == crate::text::views(pieces@),
            all == crate::text::pieces(text@, ','),
            i <= all.len(),
            parts@.len() == i,
            forall|j: int| 0 <= j < i ==> (#[trigger] parts@[j])@ == trimmed(all[j]),
        decreases all.len() - i,
    {
        assert(all[i as int] == pieces@[i as int]@);
        parts.push(trim(pieces[i]));
        i = i + 1;
    }
    assert(crate::text::views(parts@) =~= comma_parts(text@));
    parts
}

/// The width that a text gives to a byte operation.
pub open spec fn width_of(text: Seq<char>, refused: Seq<char>) -> Result<int, Seq<char>> {
    match number(text, 10, 255) {
        None => Err("bytes must be a number"@),
        Some(bytes) => if 1 <= bytes <= 8 {
            Ok(bytes)
        } else {
            Err(refused)
        },
    }
}

fn parse_width(text: &[char], refused: &str) -> (result: Result<u8, String>)
    ensures
        match result {
            Ok(bytes) => width_of(text@, refused@) == Ok::<int, Seq<char>>(bytes as int),
            Err(reason) => width_of(text@, refused@) == Err::<int, Seq<char>>(reason@),
        },
{
    match parse_number(text, 10, 255) {
        None => Err(owned("bytes must be a number")),
        Some(bytes) => if 1 <= bytes && bytes <= 8 {
            Ok(bytes as u8)
        } else {
            Err(owned(refused))
        },
    }
}

/// A byte test with the modifiers from a place on applied to it.
pub open spec fn tested_from(test: ByteTest, parts: Seq<Seq<char>>, i: int) -> Result<
    ByteTest,
    Seq<char>,
>
    decreases parts.len() - i,
{
    if i < 0 || i >= parts.len() {
        Ok(test)
    } else if parts[i] == "relative"@ {
        tested_from(ByteTest { relative: true, ..test }, parts, i + 1)
    } else if parts[i] == "big"@ {
        tested_from(ByteTest { endian: Endian::Big, ..test }, parts, i + 1)
    } else if parts[i] == "little"@ {
        tested_from(ByteTest { endian: Endian::Little, ..test }, parts, i + 1)
    } else if parts[i].len() == 0 {
        tested_from(test, parts, i + 1)
    } else {
        Err("unsupported byte_test modifier "@ + quoted(parts[i]))
    }
}

/// An operator without the `!` in front of it.
pub open spec fn plain_operator(text: Seq<char>) -> Seq<char> {
    if text.len() > 0 && text[0] == '!' {
        trimmed(text.skip(1))
    } else {
        text
    }
}

/// The test that `bytes, operator, value, offset` and modifiers give.
pub open spec fn byte_test_of(text: Seq<char>) -> Result<ByteTest, Seq<char>> {
    let parts = comma_parts(text);
    if parts.len() < 4 {
        Err("byte_test needs at least bytes, operator, value, offset"@)
    } else {
        match width_of(parts[0], "byte_test can read between 1 and 8 bytes"@) {
            Err(reason) => Err(reason),
            Ok(bytes) => match op_named(plain_operator(parts[1])) {
                None => Err("unknown operator "@ + quoted(plain_operator(parts[1]))),
                Some(op) => match number(parts[2], 10, u64::MAX as int) {
                    None => Err("value must be a number"@),
                    Some(value) => match signed_number(parts[3], i32::MIN as int, i32::MAX as int) {
                        None => Err("offset must be a number"@),
                        Some(offset) => tested_from(
                            ByteTest {
                                bytes: bytes as u8,
                                op,
                                value: value as u64,
                                offset: offset as i32,
                                relative: false,
                                endian: Endian::Big,
                                negated: parts[1].len() > 0 && parts[1][0] == '!',
                            },
                            parts,
                            4,
                        ),
                    },
                },
            },
        }
    }
}

fn parse_byte_test_fields(parts: &Vec<&[char]>) -> (result: Result<ByteTest, String>)
    requires
        parts@.len() >= 4,
    ensures
        ({
            let all = crate::text::views(parts@);
            forall|text: Seq<char>| #[trigger]
                comma_parts(text) == all ==> match result {
                    Ok(test) => byte_test_of(text) == tested_from(test, all, 4),
                    Err(reason) => byte_test_of(text) == Err::<ByteTest, Seq<char>>(reason@),
                }
        }),
{
    let ghost all = crate::text::views(parts@);
    assert(all.len() == parts@.len() && all[0] == parts@[0]@ && all[1] == parts@[1]@ && all[2]
        == parts@[2]@ && all[3] == parts@[3]@);
    let bytes: u8 = match parse_width(parts[0], "byte_test can read between 1 and 8 bytes") {
        Ok(bytes) => bytes,
        Err(reason) => return Err(reason),
    };
    let negated = parts[1].len() > 0 && parts[1][0] == '!';
    let operator = if negated {
        trim(tail(parts[1], 1))
    } else {
        parts[1]
    };
    let op = match NumericOp::from_chars(operator) {
        Some(op) => op,
        None => return Err(with_quoted("unknown operator ", operator)),
    };
    let value: u64 = match parse_number(parts[2], 10, u64::MAX) {
        Some(value) => value,
        None => return Err(owned("value must be a number")),
    };
    let offset: i32 = match parse_signed(parts[3], i32::MIN as i64, i32::MAX as i64) {
        Some(offset) => offset as i32,
        None => return Err(owned("offset must be a number")),
    };
    Ok(ByteTest { bytes, op, value, offset, relative: false, endian: Endian::Big, negated })
}

/// Parse `bytes, operator, value, offset[, modifiers]`.
pub fn parse_byte_test(text: &[char]) -> (result: Result<ByteTest, String>)
    ensures
        match result {
            Ok(test) => byte_test_of(text@) == Ok::<ByteTest, Seq<char>>(test),
            Err(reason) => byte_test_of(text@) == Err::<ByteTest, Seq<char>>(reason@),
        },
{
    let parts = split_commas(text);
    let ghost all = crate::text::views(parts@);
    assert(all == comma_parts(text@));
    if parts.len() < 4 {
        return Err(owned("byte_test needs at least bytes, operator, value, offset"));
    }
    let mut test = match parse_byte_test_fields(&parts) {
        Ok(test) => test,
        Err(reason) => return Err(reason),
    };
    let mut i: usize = 4;
    while i < parts.len()
        invariant
            all == crate::text::views(parts@),
            i <= all.len(),
            tested_from(test, all, i as int) == byte_test_of(text@),
        decreases all.len() - i,
    {
        assert(all[i as int] == parts@[i as int]@);
        let modifier = parts[i];
        if spells(modifier, "relative") {
            test.relative = true;
        } else if spells(modifier, "big") {
            test.endian = Endian::Big;
        } else if spells(modifier, "little") {
            test.endian = Endian::Little;
        } else if modifier.len() > 0 {
            return Err(with_quoted("unsupported byte_test modifier ", modifier));
        }
        i = i + 1;
    }
    Ok(test)
}

/// A byte jump with the modifiers from a place on applied to it.
pub open spec fn jumped_from(jump: ByteJump, parts: Seq<Seq<char>>, i: int) -> Result<
    ByteJump,
    Seq<char>,
>
    decreases parts.len() - i,
{
    if i < 0 || i >= parts.len() {
        Ok(jump)
    } else if parts[i] == "relative"@ {
        jumped_from(ByteJump { relative: true, ..jump }, parts, i + 1)
    } else if parts[i] == "big"@ {
        jumped_from(ByteJump { endian: Endian::Big, ..jump }, parts, i + 1)
    } else if parts[i] == "little"@ {
        jumped_from(ByteJump { endian: Endian::Little, ..jump }, parts, i + 1)
    } else if parts[i].len() == 0 {
        jumped_from(jump, parts, i + 1)
    } else if words(parts[i]).len() >= 2 && words(parts[i])[0] == "multiplier"@ {
        match number(words(parts[i])[1], 10, u32::MAX as int) {
            None => Err("multiplier must be a number"@),
            Some(value) => jumped_from(
                ByteJump { multiplier: value as u32, ..jump },
                parts,
                i + 1,
            ),
        }
    } else if words(parts[i]).len() >= 2 && words(parts[i])[0] == "post_offset"@ {
        match signed_number(words(parts[i])[1], i32::MIN as int, i32::MAX as int) {
            None => Err("post_offset must be a number"@),
            Some(value) => jumped_from(
                ByteJump { post_offset: value as i32, ..jump },
                parts,
                i + 1,
            ),
        }
    } else {
        Err("unsupported byte_jump modifier "@ + quoted(parts[i]))
    }
}

/// The jump that `bytes, offset` and modifiers give.
pub open spec fn byte_jump_of(text: Seq<char>) -> Result<ByteJump, Seq<char>> {
    let parts = comma_parts(text);
    if parts.len() < 2 {
        Err("byte_jump needs at least bytes and offset"@)
    } else {
        match width_of(parts[0], "byte_jump can read between 1 and 8 bytes"@) {
            Err(reason) => Err(reason),
            Ok(bytes) => match signed_number(parts[1], i32::MIN as int, i32::MAX as int) {
                None => Err("offset must be a number"@),
                Some(offset) => jumped_from(
                    ByteJump {
                        bytes: bytes as u8,
                        offset: offset as i32,
                        relative: false,
                        multiplier: 1,
                        endian: Endian::Big,
                        post_offset: 0,
                    },
                    parts,
                    2,
                ),
            },
        }
    }
}

/// Apply one modifier to a byte jump.
fn modify_jump(jump: &mut ByteJump, modifier: &[char]) -> (result: Result<(), String>)
    ensures
        forall|parts: Seq<Seq<char>>, i: int|
            0 <= i < parts.len() && #[trigger] parts[i] == modifier@ ==> match result {
                Ok(_) => jumped_from(*old(jump), parts, i) == jumped_from(
                    *final(jump),
                    parts,
                    i + 1,
                ),
                Err(reason) => jumped_from(*old(jump), parts, i) == Err::<ByteJump, Seq<char>>(
                    reason@,
                ),
            },
{
    if spells(modifier, "relative") {
        jump.relative = true;
    } else if spells(modifier, "big") {
        jump.endian = Endian::Big;
    } else if spells(modifier, "little") {
        jump.endian = Endian::Little;
    } else if modifier.len() > 0 {
        let parts = split_words(modifier);
        let ghost all = words(modifier@);
        assert(all.len() == parts@.len());
        assert(forall|j: int| 0 <= j < all.len() ==> #[trigger] all[j] == parts@[j]@);
        if parts.len() >= 2 && spells(parts[0], "multiplier") {
            match parse_number(parts[1], 10, u32::MAX as u64) {
                Some(value) => jump.multiplier = value as u32,
                None => return Err(owned("multiplier must be a number")),
            }
        } else if parts.len() >= 2 && spells(parts[0], "post_offset") {
            match parse_signed(parts[1], i32::MIN as i64, i32::MAX as i64) {
                Some(value) => jump.post_offset = value as i32,
                None => return Err(owned("post_offset must be a number")),
            }
        } else {
            return Err(with_quoted("unsupported byte_jump modifier ", modifier));
        }
    }
    Ok(())
}

/// Parse `bytes, offset[, modifiers]`.
pub fn parse_byte_jump(text: &[char]) -> (result: Result<ByteJump, String>)
    ensures
        match result {
            Ok(jump) => byte_jump_of(text@) == Ok::<ByteJump, Seq<char>>(jump),
            Err(reason) => byte_jump_of(text@) == Err::<ByteJump, Seq<char>>(reason@),
        },
{
    let parts = split_commas(text);
    let ghost all = crate::text::views(parts@);
    assert(all == comma_parts(text@));
    if parts.len() < 2 {
        return Err(owned("byte_jump needs at least bytes and offset"));
    }
    assert(all[0] == parts@[0]@ && all[1] == parts@[1]@);
    let bytes: u8 = match parse_width(parts[0], "byte_jump can read between 1 and 8 bytes") {
        Ok(bytes) => bytes,
        Err(reason) => return Err(reason),
    };
    let offset: i32 = match parse_signed(parts[1], i32::MIN as i64, i32::MAX as i64) {
        Some(offset) => offset as i32,
        None => return Err(owned("offset must be a number")),
    };
    let mut jump = ByteJump {
        bytes,
        offset,
        relative: false,
        multiplier: 1,
        endian: Endian::Big,
        post_offset: 0,
    };
    let mut i: usize = 2;
    while i < parts.len()
        invariant
            all == crate::text::views(parts@),
            i <= all.len(),
            jumped_from(jump, all, i as int) == byte_jump_of(text@),
        decreases all.len() - i,
    {
        assert(all[i as int] == parts@[i as int]@);
        match modify_jump(&mut jump, parts[i]) {
            Ok(_) => (),
            Err(reason) => return Err(reason),
        }
        i = i + 1;
    }
    Ok(jump)
}

// ---------------------------------------------------------------------------
// dsize
// ---------------------------------------------------------------------------

/// The payload-size condition that a text names: a number, an operator and a
/// number, or `low<>high`.
pub open spec fn dsize_of(text: Seq<char>) -> Result<DsizeMatch, Seq<char>> {
    let body = trimmed(text);
    match first_text(body, "<>"@) {
        Some(i) => match (
            number(trimmed(body.take(i)), 10, u32::MAX as int),
            number(trimmed(body.skip(i + 2)), 10, u32::MAX as int),
        ) {
            (Some(low), Some(high)) => Ok(
                DsizeMatch {
                    op: NumericOp::Greater,
                    value: low as u32,
                    upper: Some(high as u32),
                },
            ),
            _ => Err("dsize bounds must be numbers"@),
        },
        None => match first_where(body, |d: char| is_digit(d)) {
            None => Err("dsize needs a number"@),
            Some(i) => {
                let operator = body.take(i);
                let op = if trimmed(operator).len() == 0 {
                    Some(NumericOp::Equal)
                } else {
                    op_named(operator)
                };
                match op {
                    None => Err("unknown operator "@ + quoted(operator)),
                    Some(op) => match number(trimmed(body.skip(i)), 10, u32::MAX as int) {
                        None => Err("dsize must be a number"@),
                        Some(value) => Ok(DsizeMatch { op, value: value as u32, upper: None }),
                    },
                }
            },
        },
    }
}

/// Parse a payload-size condition.
pub fn parse_dsize(text: &[char]) -> (result: Result<DsizeMatch, String>)
    ensures
        match result {
            Ok(dsize) => dsize_of(text@) == Ok::<DsizeMatch, Seq<char>>(dsize),
            Err(reason) => dsize_of(text@) == Err::<DsizeMatch, Seq<char>>(reason@),
        },
{
    let body = trim(text);
    let between: [char; 2] = ['<', '>'];
    proof {
        reveal_strlit("<>");
        assert(between@ =~= "<>"@);
    }
    if let Some(i) = find_text(body, between.as_slice(), 0) {
        assert(i + 2 <= body.len());
        let low = parse_number(trim(head(body, i)), 10, u32::MAX as u64);
        let high = parse_number(trim(tail(body, i + 2)), 10, u32::MAX as u64);
        return match (low, high) {
            (Some(low), Some(high)) => Ok(
                DsizeMatch {
                    op: NumericOp::Greater,
                    value: low as u32,
                    upper: Some(high as u32),
                },
            ),
            _ => Err(owned("dsize bounds must be numbers")),
        };
    }
    match find_digit(body) {
        None => Err(owned("dsize needs a number")),
        Some(i) => {
            let operator = head(body, i);
            let op = if trim(operator).len() == 0 {
                NumericOp::Equal
            } else {
                match NumericOp::from_chars(operator) {
                    Some(op) => op,
                    None => return Err(with_quoted("unknown operator ", operator)),
                }
            };
            match parse_number(trim(tail(body, i)), 10, u32::MAX as u64) {
                None => Err(owned("dsize must be a number")),
                Some(value) => Ok(DsizeMatch { op, value: value as u32, upper: None }),
            }
        },
    }
}

// ---------------------------------------------------------------------------
// threshold
// ---------------------------------------------------------------------------

/// The fields of a threshold that have been given so far.
#[derive(Clone, Copy)]
pub struct ThresholdFields {
    /// What crossing the count does.
    pub kind: Option<ThresholdKind>,
    /// What is counted.
    pub track: Option<Track>,
    /// How many.
    pub count: Option<u32>,
    /// Within how many seconds.
    pub seconds: Option<u32>,
}

/// The fields after one more `name value` pair.
pub open spec fn with_field(fields: ThresholdFields, part: Seq<char>) -> Result<
    ThresholdFields,
    Seq<char>,
> {
    let pair = words(part);
    if pair.len() == 0 {
        Ok(fields)
    } else if pair.len() >= 2 && pair[0] == "type"@ {
        if pair[1] == "threshold"@ {
            Ok(ThresholdFields { kind: Some(ThresholdKind::Threshold), ..fields })
        } else if pair[1] == "limit"@ {
            Ok(ThresholdFields { kind: Some(ThresholdKind::Limit), ..fields })
        } else if pair[1] == "both"@ {
            Ok(ThresholdFields { kind: Some(ThresholdKind::Both), ..fields })
        } else {
            Err("unknown threshold type "@ + quoted(pair[1]))
        }
    } else if pair.len() >= 2 && pair[0] == "track"@ {
        if pair[1] == "by_src"@ {
            Ok(ThresholdFields { track: Some(Track::BySource), ..fields })
        } else if pair[1] == "by_dst"@ {
            Ok(ThresholdFields { track: Some(Track::ByDestination), ..fields })
        } else if pair[1] == "by_rule"@ {
            Ok(ThresholdFields { track: Some(Track::ByRule), ..fields })
        } else {
            Err("unknown threshold track "@ + quoted(pair[1]))
        }
    } else if pair.len() >= 2 && pair[0] == "count"@ {
        match number(pair[1], 10, u32::MAX as int) {
            Some(count) => Ok(ThresholdFields { count: Some(count as u32), ..fields }),
            None => Err("count must be a number"@),
        }
    } else if pair.len() >= 2 && pair[0] == "seconds"@ {
        match number(pair[1], 10, u32::MAX as int) {
            Some(seconds) => Ok(ThresholdFields { seconds: Some(seconds as u32), ..fields }),
            None => Err("seconds must be a number"@),
        }
    } else {
        Err("unknown threshold field "@ + quoted(pair[0]))
    }
}

/// The fields after the parts from a place on.
pub open spec fn fields_from(fields: ThresholdFields, parts: Seq<Seq<char>>, i: int) -> Result<
    ThresholdFields,
    Seq<char>,
>
    decreases parts.len() - i,
{
    if i < 0 || i >= parts.len() {
        Ok(fields)
    } else {
        match with_field(fields, parts[i]) {
            Err(reason) => Err(reason),
            Ok(more) => fields_from(more, parts, i + 1),
        }
    }
}

/// The threshold that fields give when all are there.
pub open spec fn completed(fields: ThresholdFields) -> Result<Threshold, Seq<char>> {
    match fields.count {
        None => Err("threshold needs a count"@),
        Some(count) => if count == 0 {
            Err("threshold count must be at least 1"@)
        } else {
            match (fields.kind, fields.track, fields.seconds) {
                (None, _, _) => Err("threshold needs a type"@),
                (Some(_), None, _) => Err("threshold needs a track"@),
                (Some(_), Some(_), None) => Err("threshold needs a seconds window"@),
                (Some(kind), Some(track), Some(seconds)) => Ok(
                    Threshold { kind, track, count, seconds },
                ),
            }
        },
    }
}

/// No field given yet.
pub open spec fn no_fields() -> ThresholdFields {
    ThresholdFields { kind: None, track: None, count: None, seconds: None }
}

/// The threshold that a text names.
pub open spec fn threshold_of(text: Seq<char>) -> Result<Threshold, Seq<char>> {
    match fields_from(no_fields(), pieces(text, ','), 0) {
        Err(reason) => Err(reason),
        Ok(fields) => completed(fields),
    }
}

fn add_field(fields: ThresholdFields, part: &[char]) -> (result: Result<ThresholdFields, String>)
    ensures
        match result {
            Ok(more) => with_field(fields, part@) == Ok::<ThresholdFields, Seq<char>>(more),
            Err(reason) => with_field(fields, part@) == Err::<ThresholdFields, Seq<char>>(reason@),
        },
{
    let pair = split_words(part);
    let ghost all = words(part@);
    assert(all.len() == pair@.len());
    assert(forall|j: int| 0 <= j < all.len() ==> #[trigger] all[j] == pair@[j]@);
    let mut more = fields;
    if pair.len() == 0 {
        return Ok(more);
    }
    if pair.len() >= 2 && spells(pair[0], "type") {
        if spells(pair[1], "threshold") {
            more.kind = Some(ThresholdKind::Threshold);
        } else if spells(pair[1], "limit") {
            more.kind = Some(ThresholdKind::Limit);
        } else if spells(pair[1], "both") {
            more.kind = Some(ThresholdKind::Both);
        } else {
            return Err(with_quoted("unknown threshold type ", pair[1]));
        }
    } else if pair.len() >= 2 && spells(pair[0], "track") {
        if spells(pair[1], "by_src") {
            more.track = Some(Track::BySource);
        } else if spells(pair[1], "by_dst") {
            more.track = Some(Track::ByDestination);
        } else if spells(pair[1], "by_rule") {
            more.track = Some(Track::ByRule);
        } else {
            return Err(with_quoted("unknown threshold track ", pair[1]));
        }
    } else if pair.len() >= 2 && spells(pair[0], "count") {
        match parse_number(pair[1], 10, u32::MAX as u64) {
            Some(count) => more.count = Some(count as u32),
            None => return Err(owned("count must be a number")),
        }
    } else if pair.len() >= 2 && spells(pair[0], "seconds") {
        match parse_number(pair[1], 10, u32::MAX as u64) {
            Some(seconds) => more.seconds = Some(seconds as u32),
            None => return Err(owned("seconds must be a number")),
        }
    } else {
        return Err(with_quoted("unknown threshold field ", pair[0]));
    }
    Ok(more)
}

fn complete(fields: ThresholdFields) -> (result: Result<Threshold, String>)
    ensures
        match result {
            Ok(threshold) => completed(fields) == Ok::<Threshold, Seq<char>>(threshold),
            Err(reason) => completed(fields) == Err::<Threshold, Seq<char>>(reason@),
        },
{
    let count: u32 = match fields.count {
        Some(count) => count,
        None => return Err(owned("threshold needs a count")),
    };
    if count == 0 {
        return Err(owned("threshold count must be at least 1"));
    }
    let kind = match fields.kind {
        Some(kind) => kind,
        None => return Err(owned("threshold needs a type")),
    };
    let track = match fields.track {
        Some(track) => track,
        None => return Err(owned("threshold needs a track")),
    };
    let seconds: u32 = match fields.seconds {
        Some(seconds) => seconds,
        None => return Err(owned("threshold needs a seconds window")),
    };
    Ok(Threshold { kind, track, count, seconds })
}

/// Parse `type limit, track by_src, count 1, seconds 60`.
pub fn parse_threshold(text: &[char]) -> (result: Result<Threshold, String>)
    ensures
        match result {
            Ok(threshold) => threshold_of(text@) == Ok::<Threshold, Seq<char>>(threshold),
            Err(reason) => threshold_of(text@) == Err::<Threshold, Seq<char>>(reason@),
        },
{
    let parts = split_at_char(text, ',');
    let ghost all = pieces(text@, ',');
    let mut fields = ThresholdFields { kind: None, track: None, count: None, seconds: None };
    let mut i: usize = 0;
    while i < parts.len()
        invariant
            all == pieces(text@, ','),
            all == crate::text::views(parts@),
            i <= all.len(),
            fields_from(fields, all, i as int) == fields_from(no_fields(), all, 0),
        decreases all.len() - i,
    {
        assert(all[i as int] == parts@[i as int]@);
        match add_field(fields, parts[i]) {
            Ok(more) => fields = more,
            Err(reason) => return Err(reason),
        }
        i = i + 1;
    }
    complete(fields)
}

// ---------------------------------------------------------------------------
// metadata and host values
// ---------------------------------------------------------------------------

/// A trimmed `key value` entry, split at its first white space.
pub open spec fn entry_of(entry: Seq<char>) -> (Seq<char>, Seq<char>) {
    match first_where(entry, |d: char| is_space(d)) {
        Some(i) => (entry.take(i), trimmed(entry.skip(i + 1))),
        None => (entry, seq![]),
    }
}

/// The entries of a list of texts; blank ones give none.
pub open spec fn entries_of(parts: Seq<Seq<char>>) -> Seq<(Seq<char>, Seq<char>)>
    decreases parts.len(),
{
    if parts.len() == 0 {
        seq![]
    } else {
        let before = entries_of(parts.drop_last());
        let entry = trimmed(parts.last());
        if entry.len() == 0 {
            before
        } else {
            before.push(entry_of(entry))
        }
    }
}

/// The entries of `key value, key2 value2`.
pub open spec fn metadata_of(text: Seq<char>) -> Seq<(Seq<char>, Seq<char>)> {
    entries_of(pieces(text, ','))
}

fn parse_entry(entry: &[char]) -> (result: MetadataEntry)
    ensures
        result@ == entry_of(entry@),
{
    match find_space(entry) {
        Some(i) => {
            assert(i < entry.len());
            MetadataEntry {
                key: string_of(head(entry, i)),
                value: string_of(trim(tail(entry, i + 1))),
            }
        },
        None => {
            let value = String::new();
            assert(value@ =~= seq![]);
            MetadataEntry { key: string_of(entry), value }
        },
    }
}

/// Parse `metadata:key value, key2 value2` onto the entries there are.
pub fn parse_metadata(text: &[char], metadata: &mut Vec<MetadataEntry>)
    ensures
        entries(final(metadata)@) == entries(old(metadata)@) + metadata_of(text@),
{
    let parts = split_at_char(text, ',');
    let ghost all = pieces(text@, ',');
    let ghost start = entries(metadata@);
    let mut i: usize = 0;
    assert(entries_of(all.take(0)) =~= seq![]);
    assert(start + Seq::<(Seq<char>, Seq<char>)>::empty() =~= start);
    while i < parts.len()
        invariant
            all == pieces(text@, ','),
            all == crate::text::views(parts@),
            i <= all.len(),
            entries(metadata@) == start + entries_of(all.take(i as int)),
        decreases all.len() - i,
    {
        assert(all[i as int] == parts@[i as int]@);
        assert(all.take(i + 1).drop_last() =~= all.take(i as int));
        let entry = trim(parts[i]);
        if entry.len() > 0 {
            let ghost before = metadata@;
            let parsed = parse_entry(entry);
            metadata.push(parsed);
            assert(entries(metadata@) =~= entries(before).push(parsed@));
            assert(entries(metadata@) =~= start + entries_of(all.take(i + 1)));
        }
        i = i + 1;
    }
    assert(all.take(i as int) =~= all);
}

/// The texts that are not blank, trimmed.
pub open spec fn not_blank(parts: Seq<Seq<char>>) -> Seq<Seq<char>>
    decreases parts.len(),
{
    if parts.len() == 0 {
        seq![]
    } else {
        let before = not_blank(parts.drop_last());
        let value = trimmed(parts.last());
        if value.len() == 0 {
            before
        } else {
            before.push(value)
        }
    }
}

/// The alternatives of a host keyword.
pub open spec fn host_values_of(text: Seq<char>) -> Result<Seq<Seq<char>>, Seq<char>> {
    let values = not_blank(pieces(text, ','));
    if values.len() == 0 {
        Err("needs at least one value"@)
    } else {
        Ok(values)
    }
}

/// Split a host keyword's comma-separated alternatives.
///
/// Whitespace around each is trimmed and empties dropped, so
/// `file.path:"/etc/passwd, /etc/shadow"` reads the way it looks.
pub fn parse_host_values(text: &[char]) -> (result: Result<Vec<String>, String>)
    ensures
        match result {
            Ok(values) => host_values_of(text@) == Ok::<Seq<Seq<char>>, Seq<char>>(texts(values@)),
            Err(reason) => host_values_of(text@) == Err::<Seq<Seq<char>>, Seq<char>>(reason@),
        },
{
    let parts = split_at_char(text, ',');
    let ghost all = pieces(text@, ',');
    let mut values: Vec<String> = Vec::new();
    let mut i: usize = 0;
    assert(texts(values@) =~= not_blank(all.take(0)));
    while i < parts.len()
        invariant
            all == pieces(text@, ','),
            all == crate::text::views(parts@),
            i <= all.len(),
            texts(values@) == not_blank(all.take(i as int)),
        decreases all.len() - i,
    {
        assert(all[i as int] == parts@[i as int]@);
        assert(all.take(i + 1).drop_last() =~= all.take(i as int));
        let value = trim(parts[i]);
        if value.len() > 0 {
            let ghost before = values@;
            values.push(string_of(value));
            assert(texts(values@) =~= texts(before).push(value@));
        }
        i = i + 1;
    }
    assert(all.take(i as int) =~= all);
    assert(texts(values@).len() == values@.len());
    if values.len() == 0 {
        return Err(owned("needs at least one value"));
    }
    Ok(values)
}

// ---------------------------------------------------------------------------
// laws
// ---------------------------------------------------------------------------

/// Whether a text is free of commas.
pub open spec fn no_comma(text: Seq<char>) -> bool {
    forall|i: int| 0 <= i < text.len() ==> #[trigger] text[i] != ','
}

proof fn lemma_flow_step(flow: FlowMatch, parts: Seq<Seq<char>>, i: int, last: Seq<char>)
    requires
        0 <= i <= parts.len(),
    ensures
        flow_from(flow, parts.push(last), i) == (match flow_from(flow, parts, i) {
            Ok(before) => flow_from(before, seq![last], 0),
            Err(reason) => Err(reason),
        }),
    decreases parts.len() - i,
{
    let more = parts.push(last);
    if i < parts.len() {
        assert(more[i] == parts[i]);
        let part = trimmed(parts[i]);
        if part == "established"@ {
            lemma_flow_step(FlowMatch { established: Some(true), ..flow }, parts, i + 1, last);
        } else if part == "not_established"@ || part == "stateless"@ {
            lemma_flow_step(FlowMatch { established: Some(false), ..flow }, parts, i + 1, last);
        } else if part == "to_server"@ || part == "from_client"@ {
            lemma_flow_step(FlowMatch { to_server: Some(true), ..flow }, parts, i + 1, last);
        } else if part == "to_client"@ || part == "from_server"@ {
            lemma_flow_step(FlowMatch { to_server: Some(false), ..flow }, parts, i + 1, last);
        }
    } else {
        reveal_with_fuel(flow_from, 3);
        assert(more[i] == last);
        assert(seq![last][0] == last);
    }
}

proof fn lemma_flow_words_differ()
    ensures
        "established"@.len() == 11,
        "not_established"@.len() == 15,
        "stateless"@.len() == 9 && "stateless"@[0] == 's',
        "to_server"@.len() == 9 && "to_server"@[0] == 't' && "to_server"@[3] == 's',
        "to_client"@.len() == 9 && "to_client"@[0] == 't' && "to_client"@[3] == 'c',
        "from_client"@.len() == 11 && "from_client"@[0] == 'f' && "from_client"@[5] == 'c',
        "from_server"@.len() == 11 && "from_server"@[0] == 'f' && "from_server"@[5] == 's',
        "established"@[0] == 'e',
{
    reveal_strlit("established");
    reveal_strlit("not_established");
    reveal_strlit("stateless");
    reveal_strlit("to_server");
    reveal_strlit("to_client");
    reveal_strlit("from_client");
    reveal_strlit("from_server");
}

/// Each word of a `flow` option says one thing, on its own and behind any others: which
/// way the packet goes, or whether the conversation is established. A word that says
/// neither is refused.
pub proof fn law_flow_words_mean_what_they_say(front: Seq<char>, word: Seq<char>)
    requires
        no_comma(word),
    ensures
        ({
            let said = trimmed(word);
            let alone = flow_of(word);
            let behind = flow_of(front.push(',') + word);
            &&& said == "to_server"@ || said == "from_client"@ ==> {
                &&& alone == Ok::<FlowMatch, Seq<char>>(
                    FlowMatch { established: None, to_server: Some(true) },
                )
                &&& flow_of(front) matches Ok(flow) ==> behind == Ok::<FlowMatch, Seq<char>>(
                    FlowMatch { established: flow.established, to_server: Some(true) },
                )
            }
            &&& said == "to_client"@ || said == "from_server"@ ==> {
                &&& alone == Ok::<FlowMatch, Seq<char>>(
                    FlowMatch { established: None, to_server: Some(false) },
                )
                &&& flow_of(front) matches Ok(flow) ==> behind == Ok::<FlowMatch, Seq<char>>(
                    FlowMatch { established: flow.established, to_server: Some(false) },
                )
            }
            &&& said == "established"@ ==> {
                &&& alone == Ok::<FlowMatch, Seq<char>>(
                    FlowMatch { established: Some(true), to_server: None },
                )
                &&& flow_of(front) matches Ok(flow) ==> behind == Ok::<FlowMatch, Seq<char>>(
                    FlowMatch { established: Some(true), to_server: flow.to_server },
                )
            }
            &&& said == "not_established"@ || said == "stateless"@ ==> {
                &&& alone == Ok::<FlowMatch, Seq<char>>(
                    FlowMatch { established: Some(false), to_server: None },
                )
                &&& flow_of(front) matches Ok(flow) ==> behind == Ok::<FlowMatch, Seq<char>>(
                    FlowMatch { established: Some(false), to_server: flow.to_server },
                )
            }
            &&& said != "to_server"@ && said != "from_client"@ && said != "to_client"@ && said
                != "from_server"@ && said != "established"@ && said != "not_established"@ && said
                != "stateless"@ ==> alone is Err && behind is Err
            &&& flow_of(front) is Err ==> behind is Err
        }),
{
    law_pieces_stand_between_separators(front, ',', word);
    law_pieces_stand_between_separators(word, ',', front);
    let parts = pieces(front, ',');
    let none = FlowMatch { established: None, to_server: None };
    assert(parts + seq![word] =~= parts.push(word));
    lemma_flow_step(none, parts, 0, word);
    lemma_flow_words_differ();
    assert(seq![word][0] == word);
    reveal_with_fuel(flow_from, 3);
}

/// The operators of rules compare as their signs say, for all numbers.
pub proof fn law_operators_compare_as_written(left: u64, right: u64)
    ensures
        op_named("="@) matches Some(op) && op.holds(left, right) == (left == right),
        op_named("=="@) matches Some(op) && op.holds(left, right) == (left == right),
        op_named("!="@) matches Some(op) && op.holds(left, right) == (left != right),
        op_named("!"@) matches Some(op) && op.holds(left, right) == (left != right),
        op_named("<"@) matches Some(op) && op.holds(left, right) == (left < right),
        op_named("<="@) matches Some(op) && op.holds(left, right) == (left <= right),
        op_named(">"@) matches Some(op) && op.holds(left, right) == (left > right),
        op_named(">="@) matches Some(op) && op.holds(left, right) == (left >= right),
        op_named("&"@) matches Some(op) && op.holds(left, right) == (left & right != 0),
        op_named("^"@) matches Some(op) && op.holds(left, right) == (left != right),
{
    reveal_strlit("=");
    reveal_strlit("==");
    reveal_strlit("!=");
    reveal_strlit("!");
    reveal_strlit("<");
    reveal_strlit("<=");
    reveal_strlit(">");
    reveal_strlit(">=");
    reveal_strlit("&");
    reveal_strlit("^");
    assert("="@[0] == '=' && "=="@[0] == '=' && "!="@[0] == '!' && "!"@[0] == '!');
    assert("<"@[0] == '<' && "<="@[0] == '<' && ">"@[0] == '>' && ">="@[0] == '>');
    assert("&"@[0] == '&' && "^"@[0] == '^');
    assert("="@.len() == 1 && "=="@.len() == 2 && "!="@.len() == 2 && "!"@.len() == 1);
    assert("<"@.len() == 1 && "<="@.len() == 2 && ">"@.len() == 1 && ">="@.len() == 2);
    assert("=="@.last() == '=' && "!="@.last() == '=' && "<="@.last() == '=' && ">="@.last()
        == '=');
    lemma_trimmed_already("="@);
    lemma_trimmed_already("=="@);
    lemma_trimmed_already("!="@);
    lemma_trimmed_already("!"@);
    lemma_trimmed_already("<"@);
    lemma_trimmed_already("<="@);
    lemma_trimmed_already(">"@);
    lemma_trimmed_already(">="@);
    lemma_trimmed_already("&"@);
    lemma_trimmed_already("^"@);
    assert((left ^ right != 0) == (left != right)) by (bit_vector);
}

proof fn lemma_bound(number: u32)
    ensures
        decimal(number as nat).len() > 0,
        forall|i: int|
            0 <= i < decimal(number as nat).len() ==> '0' <= #[trigger] decimal(number as nat)[i]
                <= '9',
        trimmed(decimal(number as nat)) == decimal(number as nat),
        crate::text::number(decimal(number as nat), 10, u32::MAX as int) == Some(number as int),
{
    law_decimals_are_digits(number as nat);
    law_a_number_reads_back(number as nat, 10, u32::MAX as int);
    let text = decimal(number as nat);
    assert('0' <= text[0] <= '9' && '0' <= text[text.len() - 1] <= '9');
    lemma_trimmed_already(text);
}

/// A payload-size condition accepts what it says: one number that length, an operator
/// and a number the lengths that compare so, and two numbers the lengths between them.
pub proof fn law_sizes_are_accepted_as_written(bound: u32, upper: u32, length: usize)
    ensures
        dsize_of(decimal(bound as nat)) matches Ok(size) && size.accepts(length) == (length
            == bound),
        dsize_of(seq!['>'] + decimal(bound as nat)) matches Ok(size) && size.accepts(length) == (
        length > bound),
        dsize_of(seq!['<'] + decimal(bound as nat)) matches Ok(size) && size.accepts(length) == (
        length < bound),
        dsize_of(seq!['>', '='] + decimal(bound as nat)) matches Ok(size) && size.accepts(length)
            == (length >= bound),
        dsize_of(seq!['<', '='] + decimal(bound as nat)) matches Ok(size) && size.accepts(length)
            == (length <= bound),
        dsize_of(decimal(bound as nat) + seq!['<', '>'] + decimal(upper as nat)) matches Ok(size)
            && size.accepts(length) == (bound < length < upper),
{
    lemma_bound(bound);
    lemma_bound(upper);
    law_operators_compare_as_written(length as u64, bound as u64);
    reveal_strlit(">");
    reveal_strlit("<");
    reveal_strlit(">=");
    reveal_strlit("<=");
    assert(">"@ =~= seq!['>'] && "<"@ =~= seq!['<']);
    assert(">="@ =~= seq!['>', '='] && "<="@ =~= seq!['<', '=']);
    lemma_size_with(seq![], bound);
    lemma_size_with(seq!['>'], bound);
    lemma_size_with(seq!['<'], bound);
    lemma_size_with(seq!['>', '='], bound);
    lemma_size_with(seq!['<', '='], bound);
    assert(seq![] + decimal(bound as nat) =~= decimal(bound as nat));
    lemma_size_between(bound, upper);
}

proof fn lemma_size_with(operator: Seq<char>, bound: u32)
    requires
        operator == Seq::<char>::empty() || operator == seq!['>'] || operator == seq!['<']
            || operator == seq!['>', '='] || operator == seq!['<', '='],
    ensures
        ({
            let op = if operator.len() == 0 {
                Some(NumericOp::Equal)
            } else {
                op_named(operator)
            };
            op is Some ==> dsize_of(operator + decimal(bound as nat)) == Ok::<
                DsizeMatch,
                Seq<char>,
            >(DsizeMatch { op: op->0, value: bound, upper: None })
        }),
{
    lemma_bound(bound);
    let digits = decimal(bound as nat);
    let body = operator + digits;
    let n = operator.len() as int;
    assert(body[n] == digits[0]);
    assert(body.last() == digits[digits.len() - 1]);
    assert('0' <= digits[0] <= '9' && '0' <= digits[digits.len() - 1] <= '9');
    assert(!is_space(body[0])) by {
        if n > 0 {
            assert(body[0] == operator[0]);
        }
    }
    lemma_trimmed_already(body);
    reveal_strlit("<>");
    law_a_text_is_found_where_it_first_stands(body, "<>"@);
    if let Some(i) = first_text(body, "<>"@) {
        assert(body.subrange(i, i + 2)[1] == '>');
        assert(body[i + 1] == '>');
        if i + 1 >= n {
            assert(body[i + 1] == digits[i + 1 - n]);
        }
    }
    let p = |d: char| is_digit(d);
    assert(p(body[n]));
    assert forall|j: int| 0 <= j < n implies !p(#[trigger] body[j]) by {
        assert(body[j] == operator[j]);
    }
    lemma_is_first_where(body, p, n);
    assert(body.take(n) =~= operator);
    assert(body.skip(n) =~= digits);
    if n == 0 {
        assert(trimmed(operator).len() == 0);
    } else {
        assert(!is_space(operator[0]) && !is_space(operator.last()));
        lemma_trimmed_already(operator);
    }
}

proof fn lemma_size_between(low: u32, high: u32)
    ensures
        dsize_of(decimal(low as nat) + seq!['<', '>'] + decimal(high as nat)) == Ok::<
            DsizeMatch,
            Seq<char>,
        >(DsizeMatch { op: NumericOp::Greater, value: low, upper: Some(high) }),
{
    lemma_bound(low);
    lemma_bound(high);
    let a = decimal(low as nat);
    let b = decimal(high as nat);
    let body = a + seq!['<', '>'] + b;
    let n = a.len() as int;
    assert(body[0] == a[0] && body.last() == b[b.len() - 1]);
    assert('0' <= a[0] <= '9' && '0' <= b[b.len() - 1] <= '9');
    lemma_trimmed_already(body);
    reveal_strlit("<>");
    law_a_text_is_found_where_it_first_stands(body, "<>"@);
    assert(body.subrange(n, n + 2) =~= "<>"@);
    let i = first_text(body, "<>"@)->0;
    if i < n {
        assert(body.subrange(i, i + 2)[0] == '<');
        assert(body[i] == a[i]);
    }
    assert(body.take(n) =~= a);
    assert(body.skip(n + 2) =~= b);
}

proof fn lemma_tested(test: ByteTest, parts: Seq<Seq<char>>, i: int)
    requires
        0 <= i,
    ensures
        tested_from(test, parts, i) matches Ok(after) ==> {
            &&& after.bytes == test.bytes && after.op == test.op && after.value == test.value
            &&& after.offset == test.offset && after.negated == test.negated
            &&& after.relative == (test.relative || says(parts, "relative"@, i))
            &&& (!says(parts, "little"@, i) && !says(parts, "big"@, i)) ==> after.endian
                == test.endian
            &&& says(parts, "little"@, i) && !says(parts, "big"@, i) ==> after.endian
                == Endian::Little
            &&& says(parts, "big"@, i) && !says(parts, "little"@, i) ==> after.endian == Endian::Big
        },
        (forall|j: int|
            i <= j < parts.len() ==> #[trigger] parts[j] == "relative"@ || parts[j] == "big"@
                || parts[j] == "little"@ || parts[j].len() == 0) <==> tested_from(
            test,
            parts,
            i,
        ) is Ok,
    decreases parts.len() - i,
{
    lemma_modifier_words();
    if i < parts.len() {
        lemma_says(parts, "relative"@, i);
        lemma_says(parts, "big"@, i);
        lemma_says(parts, "little"@, i);
        lemma_tested(ByteTest { relative: true, ..test }, parts, i + 1);
        lemma_tested(ByteTest { endian: Endian::Big, ..test }, parts, i + 1);
        lemma_tested(ByteTest { endian: Endian::Little, ..test }, parts, i + 1);
        lemma_tested(test, parts, i + 1);
    }
}

proof fn lemma_modifier_words()
    ensures
        "relative"@.len() == 8 && "relative"@[0] == 'r',
        "big"@.len() == 3,
        "little"@.len() == 6,
        "multiplier"@.len() == 10,
        "post_offset"@.len() == 11,
{
    reveal_strlit("relative");
    reveal_strlit("big");
    reveal_strlit("little");
    reveal_strlit("multiplier");
    reveal_strlit("post_offset");
}

/// Whether a word is among parts from a place on.
pub open spec fn says(parts: Seq<Seq<char>>, word: Seq<char>, from: int) -> bool {
    exists|j: int| from <= j < parts.len() && #[trigger] parts[j] == word
}

proof fn lemma_says(parts: Seq<Seq<char>>, word: Seq<char>, i: int)
    requires
        0 <= i < parts.len(),
    ensures
        says(parts, word, i) == (parts[i] == word || says(parts, word, i + 1)),
{
    if says(parts, word, i) {
        let j = choose|j: int| i <= j < parts.len() && #[trigger] parts[j] == word;
        assert(j == i || says(parts, word, i + 1));
    }
    if says(parts, word, i + 1) {
        let j = choose|j: int| i + 1 <= j < parts.len() && #[trigger] parts[j] == word;
        assert(parts[j] == word);
    }
}

/// A byte test is read field by field: the width, the operator with a `!` that negates
/// it, the value, the offset, and behind them the words that make it relative or say in
/// which order the bytes stand, which is the network's unless `little` says otherwise.
pub proof fn law_byte_tests_are_read_by_field(text: Seq<char>)
    ensures
        ({
            let parts = comma_parts(text);
            let negated = parts.len() > 1 && parts[1].len() > 0 && parts[1][0] == '!';
            let operator = if negated {
                trimmed(parts[1].skip(1))
            } else {
                parts[1]
            };
            let readable = {
                &&& parts.len() >= 4
                &&& number(parts[0], 10, 255) is Some
                &&& 1 <= number(parts[0], 10, 255)->0 <= 8
                &&& op_named(operator) is Some
                &&& number(parts[2], 10, u64::MAX as int) is Some
                &&& signed_number(parts[3], i32::MIN as int, i32::MAX as int) is Some
                &&& forall|j: int|
                    4 <= j < parts.len() ==> #[trigger] parts[j] == "relative"@ || parts[j]
                        == "big"@ || parts[j] == "little"@ || parts[j].len() == 0
            };
            &&& byte_test_of(text) is Ok <==> readable
            &&& byte_test_of(text) matches Ok(test) ==> {
                &&& test.bytes == number(parts[0], 10, 255)->0
                &&& Some(test.op) == op_named(operator)
                &&& test.value == number(parts[2], 10, u64::MAX as int)->0
                &&& test.offset == signed_number(parts[3], i32::MIN as int, i32::MAX as int)->0
                &&& test.negated == negated
                &&& test.relative == says(parts, "relative"@, 4)
                &&& !says(parts, "little"@, 4) ==> test.endian == Endian::Big
                &&& says(parts, "little"@, 4) && !says(parts, "big"@, 4) ==> test.endian
                    == Endian::Little
            }
        }),
{
    let parts = comma_parts(text);
    if parts.len() >= 4 {
        lemma_numbers_are_in_range(parts[0], 10, 255);
        lemma_numbers_are_in_range(parts[2], 10, u64::MAX as int);
        lemma_signed_in_range(parts[3]);
        if let Some(bytes) = number(parts[0], 10, 255) {
            if let Some(op) = op_named(plain_operator(parts[1])) {
                if let Some(value) = number(parts[2], 10, u64::MAX as int) {
                    if let Some(offset) = signed_number(
                        parts[3],
                        i32::MIN as int,
                        i32::MAX as int,
                    ) {
                        lemma_tested(
                            ByteTest {
                                bytes: bytes as u8,
                                op,
                                value: value as u64,
                                offset: offset as i32,
                                relative: false,
                                endian: Endian::Big,
                                negated: parts[1].len() > 0 && parts[1][0] == '!',
                            },
                            parts,
                            4,
                        );
                    }
                }
            }
        }
    }
}

proof fn lemma_signed_in_range(text: Seq<char>)
    ensures
        signed_number(text, i32::MIN as int, i32::MAX as int) matches Some(value) ==> i32::MIN
            <= value <= i32::MAX,
{
    lemma_numbers_are_in_range(text, 10, i32::MAX as int);
    if text.len() > 0 && text[0] == '-' {
        let rest = text.skip(1);
        if plain_number(rest, 10, -(i32::MIN as int)) is Some {
            assert(rest[0] != '+') by {
                assert(digit_value(rest[0], 10) is Some);
                assert(digit_value('+', 10) is None);
            }
            lemma_numbers_are_in_range(rest, 10, -(i32::MIN as int));
        }
    }
}

proof fn lemma_jumped(jump: ByteJump, parts: Seq<Seq<char>>, i: int)
    requires
        0 <= i,
    ensures
        jumped_from(jump, parts, i) matches Ok(after) ==> {
            &&& after.bytes == jump.bytes && after.offset == jump.offset
            &&& after.relative == (jump.relative || says(parts, "relative"@, i))
            &&& (!says(parts, "little"@, i) && !says(parts, "big"@, i)) ==> after.endian
                == jump.endian
            &&& says(parts, "little"@, i) && !says(parts, "big"@, i) ==> after.endian
                == Endian::Little
            &&& says(parts, "big"@, i) && !says(parts, "little"@, i) ==> after.endian == Endian::Big
            &&& (forall|j: int|
                i <= j < parts.len() ==> words(#[trigger] parts[j]).len() < 2) ==> after.multiplier
                == jump.multiplier && after.post_offset == jump.post_offset
        },
    decreases parts.len() - i,
{
    lemma_modifier_words();
    if i < parts.len() {
        lemma_says(parts, "relative"@, i);
        lemma_says(parts, "big"@, i);
        lemma_says(parts, "little"@, i);
        lemma_jumped(ByteJump { relative: true, ..jump }, parts, i + 1);
        lemma_jumped(ByteJump { endian: Endian::Big, ..jump }, parts, i + 1);
        lemma_jumped(ByteJump { endian: Endian::Little, ..jump }, parts, i + 1);
        lemma_jumped(jump, parts, i + 1);
        if words(parts[i]).len() >= 2 {
            lemma_jumped(
                ByteJump {
                    multiplier: number(words(parts[i])[1], 10, u32::MAX as int)->0 as u32,
                    ..jump
                },
                parts,
                i + 1,
            );
            lemma_jumped(
                ByteJump {
                    post_offset: signed_number(
                        words(parts[i])[1],
                        i32::MIN as int,
                        i32::MAX as int,
                    )->0 as i32,
                    ..jump
                },
                parts,
                i + 1,
            );
        }
    }
}

/// A byte jump is read field by field: the width, the offset, and behind them the words
/// that make it relative, say in which order the bytes stand, and scale or move it.
/// Without such words it is neither scaled nor moved.
pub proof fn law_byte_jumps_are_read_by_field(text: Seq<char>)
    ensures
        ({
            let parts = comma_parts(text);
            &&& byte_jump_of(text) matches Ok(jump) ==> {
                &&& parts.len() >= 2
                &&& Some(jump.bytes as int) == number(parts[0], 10, 255)
                &&& 1 <= jump.bytes <= 8
                &&& Some(jump.offset as int) == signed_number(
                    parts[1],
                    i32::MIN as int,
                    i32::MAX as int,
                )
                &&& jump.relative == says(parts, "relative"@, 2)
                &&& !says(parts, "little"@, 2) ==> jump.endian == Endian::Big
                &&& says(parts, "little"@, 2) && !says(parts, "big"@, 2) ==> jump.endian
                    == Endian::Little
                &&& (forall|j: int| 2 <= j < parts.len() ==> words(#[trigger] parts[j]).len() < 2)
                    ==> jump.multiplier == 1 && jump.post_offset == 0
            }
            &&& parts.len() == 3 && words(parts[2]).len() == 2 && words(parts[2])[0]
                == "multiplier"@ ==> (byte_jump_of(text) matches Ok(jump) ==> Some(
                jump.multiplier as int,
            ) == number(words(parts[2])[1], 10, u32::MAX as int) && jump.post_offset == 0)
            &&& parts.len() == 3 && words(parts[2]).len() == 2 && words(parts[2])[0]
                == "post_offset"@ ==> (byte_jump_of(text) matches Ok(jump) ==> Some(
                jump.post_offset as int,
            ) == signed_number(words(parts[2])[1], i32::MIN as int, i32::MAX as int)
                && jump.multiplier == 1)
        }),
{
    let parts = comma_parts(text);
    if parts.len() >= 2 {
        lemma_numbers_are_in_range(parts[0], 10, 255);
        lemma_signed_in_range(parts[1]);
        lemma_modifier_words();
        if let Some(bytes) = number(parts[0], 10, 255) {
            if let Some(offset) = signed_number(parts[1], i32::MIN as int, i32::MAX as int) {
                let jump = ByteJump {
                    bytes: bytes as u8,
                    offset: offset as i32,
                    relative: false,
                    multiplier: 1,
                    endian: Endian::Big,
                    post_offset: 0,
                };
                lemma_jumped(jump, parts, 2);
                if parts.len() == 3 && words(parts[2]).len() == 2 {
                    lemma_numbers_are_in_range(words(parts[2])[1], 10, u32::MAX as int);
                    lemma_signed_in_range(words(parts[2])[1]);
                    lemma_not_two_words(parts[2]);
                    reveal_with_fuel(jumped_from, 3);
                }
            }
        }
    }
}

/// A part of two words is none of the single words.
proof fn lemma_not_two_words(part: Seq<char>)
    requires
        words(part).len() == 2,
    ensures
        part != "relative"@ && part != "big"@ && part != "little"@ && part.len() > 0,
{
    reveal_strlit("relative");
    reveal_strlit("big");
    reveal_strlit("little");
    assert forall|i: int| 0 <= i < "relative"@.len() implies !is_space(
        #[trigger] "relative"@[i],
    ) by {}
    assert forall|i: int| 0 <= i < "big"@.len() implies !is_space(#[trigger] "big"@[i]) by {}
    assert forall|i: int| 0 <= i < "little"@.len() implies !is_space(#[trigger] "little"@[i]) by {}
    lemma_one_word("relative"@);
    lemma_one_word("big"@);
    lemma_one_word("little"@);
}

/// What each field of a threshold says, by its two words.
pub proof fn law_threshold_fields_mean_what_they_say(
    fields: ThresholdFields,
    part: Seq<char>,
    n: u32,
)
    requires
        words(part).len() == 2,
    ensures
        ({
            let pair = words(part);
            let after = with_field(fields, part);
            &&& pair[0] == "type"@ && pair[1] == "limit"@ ==> after == Ok::<
                ThresholdFields,
                Seq<char>,
            >(ThresholdFields { kind: Some(ThresholdKind::Limit), ..fields })
            &&& pair[0] == "type"@ && pair[1] == "threshold"@ ==> after == Ok::<
                ThresholdFields,
                Seq<char>,
            >(ThresholdFields { kind: Some(ThresholdKind::Threshold), ..fields })
            &&& pair[0] == "type"@ && pair[1] == "both"@ ==> after == Ok::<
                ThresholdFields,
                Seq<char>,
            >(ThresholdFields { kind: Some(ThresholdKind::Both), ..fields })
            &&& pair[0] == "track"@ && pair[1] == "by_src"@ ==> after == Ok::<
                ThresholdFields,
                Seq<char>,
            >(ThresholdFields { track: Some(Track::BySource), ..fields })
            &&& pair[0] == "track"@ && pair[1] == "by_dst"@ ==> after == Ok::<
                ThresholdFields,
                Seq<char>,
            >(ThresholdFields { track: Some(Track::ByDestination), ..fields })
            &&& pair[0] == "track"@ && pair[1] == "by_rule"@ ==> after == Ok::<
                ThresholdFields,
                Seq<char>,
            >(ThresholdFields { track: Some(Track::ByRule), ..fields })
            &&& pair[0] == "count"@ && pair[1] == decimal(n as nat) ==> after == Ok::<
                ThresholdFields,
                Seq<char>,
            >(ThresholdFields { count: Some(n), ..fields })
            &&& pair[0] == "seconds"@ && pair[1] == decimal(n as nat) ==> after == Ok::<
                ThresholdFields,
                Seq<char>,
            >(ThresholdFields { seconds: Some(n), ..fields })
            &&& pair[0] != "type"@ && pair[0] != "track"@ && pair[0] != "count"@ && pair[0]
                != "seconds"@ ==> after is Err
        }),
{
    law_a_number_reads_back(n as nat, 10, u32::MAX as int);
    reveal_strlit("type");
    reveal_strlit("track");
    reveal_strlit("count");
    reveal_strlit("seconds");
    reveal_strlit("limit");
    reveal_strlit("threshold");
    reveal_strlit("both");
    reveal_strlit("by_src");
    reveal_strlit("by_dst");
    reveal_strlit("by_rule");
    assert("type"@.len() == 4 && "track"@.len() == 5 && "count"@.len() == 5 && "seconds"@.len()
        == 7);
    assert("track"@[0] == 't' && "count"@[0] == 'c');
    assert("limit"@.len() == 5 && "threshold"@.len() == 9 && "both"@.len() == 4);
    assert("by_src"@.len() == 6 && "by_dst"@.len() == 6 && "by_rule"@.len() == 7);
    assert("by_src"@[3] == 's' && "by_dst"@[3] == 'd');
}

proof fn lemma_fields_step(
    fields: ThresholdFields,
    parts: Seq<Seq<char>>,
    i: int,
    last: Seq<char>,
)
    requires
        0 <= i <= parts.len(),
    ensures
        fields_from(fields, parts.push(last), i) == (match fields_from(fields, parts, i) {
            Ok(before) => with_field(before, last),
            Err(reason) => Err(reason),
        }),
    decreases parts.len() - i,
{
    let more = parts.push(last);
    if i < parts.len() {
        assert(more[i] == parts[i]);
        if let Ok(next) = with_field(fields, parts[i]) {
            lemma_fields_step(next, parts, i + 1, last);
        }
    } else {
        assert(more[i] == last);
        reveal_with_fuel(fields_from, 2);
    }
}

/// A threshold is what its four fields say, each once and in any order: it takes all
/// four and no count of zero.
pub proof fn law_a_threshold_has_its_four_fields(text: Seq<char>, front: Seq<char>, part: Seq<char>)
    requires
        no_comma(part),
    ensures
        fields_from(no_fields(), pieces(front.push(',') + part, ','), 0) == (match fields_from(
            no_fields(),
            pieces(front, ','),
            0,
        ) {
            Ok(before) => with_field(before, part),
            Err(reason) => Err(reason),
        }),
        threshold_of(text) matches Ok(threshold) ==> {
            &&& threshold.count >= 1
            &&& fields_from(no_fields(), pieces(text, ','), 0) == Ok::<ThresholdFields, Seq<char>>(
                ThresholdFields {
                    kind: Some(threshold.kind),
                    track: Some(threshold.track),
                    count: Some(threshold.count),
                    seconds: Some(threshold.seconds),
                },
            )
        },
        fields_from(no_fields(), pieces(text, ','), 0) matches Ok(fields) ==> {
            fields.kind is Some && fields.track is Some && fields.seconds is Some
                && fields.count is Some && fields.count->0 >= 1 ==> threshold_of(text) is Ok
        },
{
    law_pieces_stand_between_separators(front, ',', part);
    law_pieces_stand_between_separators(part, ',', front);
    let parts = pieces(front, ',');
    assert(parts + seq![part] =~= parts.push(part));
    lemma_fields_step(no_fields(), parts, 0, part);
}

/// A flow-bit option does what its command says to the bit it names.
pub proof fn law_flow_bit_commands_mean_what_they_say(command: Seq<char>, name: Seq<char>)
    requires
        no_comma(command),
    ensures
        ({
            let text = command.push(',') + name;
            let said = trimmed(command);
            let bit = trimmed(name);
            let op = flowbits_of(text);
            &&& bit.len() > 0 ==> {
                &&& said == "set"@ ==> op == Ok::<FlowBitsModel, Seq<char>>(
                    FlowBitsModel::SetBit(bit),
                )
                &&& said == "unset"@ ==> op == Ok::<FlowBitsModel, Seq<char>>(
                    FlowBitsModel::Unset(bit),
                )
                &&& said == "toggle"@ ==> op == Ok::<FlowBitsModel, Seq<char>>(
                    FlowBitsModel::Toggle(bit),
                )
                &&& said == "isset"@ ==> op == Ok::<FlowBitsModel, Seq<char>>(
                    FlowBitsModel::IsSet(bit),
                )
                &&& said == "isnotset"@ ==> op == Ok::<FlowBitsModel, Seq<char>>(
                    FlowBitsModel::IsNotSet(bit),
                )
            }
            &&& said == "set"@ || said == "unset"@ || said == "toggle"@ || said == "isset"@ || said
                == "isnotset"@ ==> (op is Ok <==> bit.len() > 0) && flowbits_of(command) is Err
            &&& said == "noalert"@ ==> op == Ok::<FlowBitsModel, Seq<char>>(FlowBitsModel::NoAlert)
                && flowbits_of(command) == op
            &&& op is Ok ==> said == "set"@ || said == "unset"@ || said == "toggle"@ || said
                == "isset"@ || said == "isnotset"@ || said == "noalert"@
        }),
{
    let text = command.push(',') + name;
    let n = command.len() as int;
    lemma_first_of(text, ',');
    lemma_first_of(command, ',');
    assert(text[n] == ',');
    assert forall|j: int| 0 <= j < n implies text[j] != ',' by {
        assert(text[j] == command[j]);
    }
    assert(first_of(text, ',') == Some(n));
    assert(text.take(n) =~= command);
    assert(text.skip(n + 1) =~= name);
    reveal_strlit("set");
    reveal_strlit("unset");
    reveal_strlit("toggle");
    reveal_strlit("isset");
    reveal_strlit("isnotset");
    reveal_strlit("noalert");
    assert("set"@.len() == 3 && "unset"@.len() == 5 && "toggle"@.len() == 6 && "isset"@.len() == 5
        && "isnotset"@.len() == 8 && "noalert"@.len() == 7);
    assert("unset"@[0] == 'u' && "isset"@[0] == 'i');
}

proof fn lemma_flagged(pcre: PcreModel, flags: Seq<char>, i: int)
    requires
        0 <= i,
    ensures
        flagged(pcre, flags, i) matches Ok(after) ==> {
            &&& after.source == pcre.source && after.buffer == pcre.buffer && after.negated
                == pcre.negated
            &&& after.case_insensitive == (pcre.case_insensitive || has_flag(flags, 'i', i))
            &&& after.dot_matches_newline == (pcre.dot_matches_newline || has_flag(flags, 's', i))
            &&& after.multi_line == (pcre.multi_line || has_flag(flags, 'm', i))
            &&& after.relative == (pcre.relative || has_flag(flags, 'R', i))
        },
        flagged(pcre, flags, i) is Ok <==> forall|j: int|
            i <= j < flags.len() ==> #[trigger] flags[j] == 'i' || flags[j] == 's' || flags[j]
                == 'm' || flags[j] == 'R',
    decreases flags.len() - i,
{
    if i < flags.len() {
        lemma_has_flag(flags, 'i', i);
        lemma_has_flag(flags, 's', i);
        lemma_has_flag(flags, 'm', i);
        lemma_has_flag(flags, 'R', i);
        lemma_flagged(PcreModel { case_insensitive: true, ..pcre }, flags, i + 1);
        lemma_flagged(PcreModel { dot_matches_newline: true, ..pcre }, flags, i + 1);
        lemma_flagged(PcreModel { multi_line: true, ..pcre }, flags, i + 1);
        lemma_flagged(PcreModel { relative: true, ..pcre }, flags, i + 1);
    }
}

/// Whether a flag is among the flags from a place on.
pub open spec fn has_flag(flags: Seq<char>, flag: char, from: int) -> bool {
    exists|j: int| from <= j < flags.len() && #[trigger] flags[j] == flag
}

proof fn lemma_has_flag(flags: Seq<char>, flag: char, i: int)
    requires
        0 <= i < flags.len(),
    ensures
        has_flag(flags, flag, i) == (flags[i] == flag || has_flag(flags, flag, i + 1)),
{
    if has_flag(flags, flag, i) {
        let j = choose|j: int| i <= j < flags.len() && #[trigger] flags[j] == flag;
        assert(j == i || has_flag(flags, flag, i + 1));
    }
    if has_flag(flags, flag, i + 1) {
        let j = choose|j: int| i + 1 <= j < flags.len() && #[trigger] flags[j] == flag;
        assert(flags[j] == flag);
    }
}

/// An expression is what stands between the first slash and the last, and each flag
/// behind it switches on its one property. Nothing else is switched on.
pub proof fn law_expressions_are_read_as_written(source: Seq<char>, flags: Seq<char>)
    requires
        source.len() > 0,
        forall|i: int|
            0 <= i < flags.len() ==> #[trigger] flags[i] == 'i' || flags[i] == 's' || flags[i]
                == 'm' || flags[i] == 'R',
    ensures
        pcre_of(seq!['/'] + source + seq!['/'] + flags) == Ok::<PcreModel, Seq<char>>(
            PcreModel {
                source,
                buffer: Buffer::Payload,
                negated: false,
                case_insensitive: has_flag(flags, 'i', 0),
                dot_matches_newline: has_flag(flags, 's', 0),
                multi_line: has_flag(flags, 'm', 0),
                relative: has_flag(flags, 'R', 0),
            },
        ),
{
    let text = seq!['/'] + source + seq!['/'] + flags;
    assert(!is_space(text[0]));
    assert(!is_space(text.last())) by {
        if flags.len() > 0 {
            assert(text.last() == flags[flags.len() - 1]);
        }
    }
    lemma_trimmed_already(text);
    let body = text.skip(1);
    let n = source.len() as int;
    lemma_last_of(body, '/');
    assert(body[n] == '/');
    assert forall|j: int| n < j < body.len() implies body[j] != '/' by {
        assert(body[j] == flags[j - n - 1]);
    }
    assert(last_of(body, '/') == Some(n));
    assert(body.take(n) =~= source);
    assert(body.skip(n + 1) =~= flags);
    lemma_flagged(
        PcreModel {
            source,
            buffer: Buffer::Payload,
            negated: false,
            case_insensitive: false,
            dot_matches_newline: false,
            multi_line: false,
            relative: false,
        },
        flags,
        0,
    );
}

proof fn lemma_ascii(c: char)
    requires
        (c as int) < 128,
    ensures
        (c as u32) < 128,
{
}

proof fn lemma_content_after(front: Seq<char>, rest: Seq<char>)
    requires
        forall|i: int|
            0 <= i < front.len() ==> #[trigger] front[i] != '|' && (front[i] as int) < 128,
    ensures
        content_from(front + rest, false, None) == (match content_from(rest, false, None) {
            Ok(bytes) => Ok(front.map_values(|c: char| c as u8) + bytes),
            Err(reason) => Err(reason),
        }),
    decreases front.len(),
{
    let plain = front.map_values(|c: char| c as u8);
    if front.len() == 0 {
        assert(front + rest =~= rest);
        if let Ok(bytes) = content_from(rest, false, None) {
            assert(plain + bytes =~= bytes);
        }
    } else {
        let less = front.skip(1);
        assert forall|i: int| 0 <= i < less.len() implies #[trigger] less[i] != '|' && (
        less[i] as int) < 128 by {
            assert(less[i] == front[i + 1]);
        }
        lemma_content_after(less, rest);
        let whole = front + rest;
        assert(whole[0] == front[0]);
        lemma_ascii(front[0]);
        assert(whole.skip(1) =~= less + rest);
        let low = less.map_values(|c: char| c as u8);
        if let Ok(bytes) = content_from(rest, false, None) {
            assert(seq![front[0] as u8] + (low + bytes) =~= plain + bytes);
        }
    }
}

/// A pattern of plain ASCII is its own bytes, in front of anything else, and a byte
/// written as two hex digits between bars is that byte.
pub proof fn law_patterns_are_the_bytes_they_spell(front: Seq<char>, byte: u8, rest: Seq<char>)
    requires
        forall|i: int|
            0 <= i < front.len() ==> #[trigger] front[i] != '|' && (front[i] as int) < 128,
    ensures
        content_of(front) == Ok::<Seq<u8>, Seq<char>>(front.map_values(|c: char| c as u8)),
        content_of(rest) matches Ok(bytes) ==> content_of(
            front + (seq!['|', digit_char(byte as int / 16), digit_char(byte as int % 16), '|']
                + rest),
        ) == Ok::<Seq<u8>, Seq<char>>(
            front.map_values(|c: char| c as u8) + (seq![byte] + bytes),
        ),
        content_of(front.push('|')) is Err,
        content_of(front + seq!['|', digit_char(byte as int / 16), '|']) is Err,
{
    let plain = front.map_values(|c: char| c as u8);
    lemma_content_after(front, seq![]);
    assert(front + Seq::<char>::empty() =~= front);
    assert(plain + Seq::<u8>::empty() =~= plain);
    let high = digit_char(byte as int / 16);
    let low = digit_char(byte as int % 16);
    lemma_hex(byte);
    let s0 = seq!['|', high, low, '|'] + rest;
    let s1 = seq![high, low, '|'] + rest;
    let s2 = seq![low, '|'] + rest;
    let s3 = seq!['|'] + rest;
    assert(s0.skip(1) =~= s1 && s1.skip(1) =~= s2 && s2.skip(1) =~= s3 && s3.skip(1) =~= rest);
    lemma_content_after(front, s0);
    assert(content_from(s3, true, None) == content_of(rest));
    assert(content_from(s2, true, Some(byte as int / 16)) == byte_then(byte, content_of(rest)));
    assert(content_from(s1, true, None) == content_from(s2, true, Some(byte as int / 16)));
    assert(content_from(s0, false, None) == content_from(s1, true, None));
    lemma_content_after(front, seq!['|']);
    assert(front + seq!['|'] =~= front.push('|'));
    assert(seq!['|'].skip(1) =~= Seq::<char>::empty());
    assert(content_from(Seq::<char>::empty(), true, None) is Err);
    assert(content_from(seq!['|'], false, None) is Err);
    let h0 = seq!['|', high, '|'];
    let h1 = seq![high, '|'];
    let h2 = seq!['|'];
    assert(h0.skip(1) =~= h1 && h1.skip(1) =~= h2);
    lemma_content_after(front, h0);
    assert(content_from(h2, true, Some(byte as int / 16)) is Err);
    assert(content_from(h1, true, None) is Err);
}

proof fn lemma_hex(byte: u8)
    ensures
        ({
            let high = digit_char(byte as int / 16);
            let low = digit_char(byte as int % 16);
            &&& digit_value(high, 16) == Some(byte as int / 16)
            &&& digit_value(low, 16) == Some(byte as int % 16)
            &&& high != '|' && low != '|' && !is_blank(high) && !is_blank(low)
            &&& (byte as int / 16 * 16 + byte as int % 16) as u8 == byte
        }),
{
}

/// Metadata is read entry by entry: what stands before the first blank of an entry is
/// its key, what stands behind is its value, and blank entries are left out.
pub proof fn law_metadata_is_read_by_entry(front: Seq<char>, key: Seq<char>, value: Seq<char>)
    requires
        key.len() > 0,
        forall|i: int| 0 <= i < key.len() ==> !is_space(#[trigger] key[i]) && key[i] != ',',
        value.len() > 0,
        !is_space(value[0]),
        !is_space(value.last()),
        no_comma(value),
    ensures
        metadata_of(key.push(' ') + value) == seq![(key, value)],
        metadata_of(key) == seq![(key, Seq::<char>::empty())],
        metadata_of(front.push(',') + (key.push(' ') + value)) == metadata_of(front).push(
            (key, value),
        ),
        metadata_of(front.push(',')) == metadata_of(front),
{
    let entry = key.push(' ') + value;
    assert(entry[0] == key[0] && entry.last() == value.last());
    lemma_trimmed_already(entry);
    lemma_trimmed_already(key);
    lemma_trimmed_already(value);
    let n = key.len() as int;
    let p = |d: char| is_space(d);
    assert(p(entry[n]));
    assert forall|j: int| 0 <= j < n implies !p(#[trigger] entry[j]) by {
        assert(entry[j] == key[j]);
    }
    lemma_is_first_where(entry, p, n);
    lemma_first_where(key, p);
    if let Some(j) = first_where(key, p) {
        assert(p(key[j]));
    }
    assert(entry.take(n) =~= key);
    assert(entry.skip(n + 1) =~= value);
    assert(no_comma(entry)) by {
        assert forall|i: int| 0 <= i < entry.len() implies #[trigger] entry[i] != ',' by {
            if i > n {
                assert(entry[i] == value[i - n - 1]);
            } else if i < n {
                assert(entry[i] == key[i]);
            }
        }
    }
    law_pieces_stand_between_separators(entry, ',', front);
    law_pieces_stand_between_separators(key, ',', front);
    law_pieces_stand_between_separators(front, ',', entry);
    law_pieces_stand_between_separators(front, ',', seq![]);
    let parts = pieces(front, ',');
    assert(parts + seq![entry] =~= parts.push(entry));
    assert(parts.push(entry).drop_last() =~= parts);
    let none = Seq::<char>::empty();
    assert(front.push(',') + none =~= front.push(','));
    law_pieces_stand_between_separators(none, ',', none);
    assert(pieces(none, ',') =~= seq![none]);
    assert(parts + seq![none] =~= parts.push(none));
    assert(parts.push(none).drop_last() =~= parts);
    assert(trimmed(none).len() == 0);
    let single = seq![entry];
    assert(single.drop_last() =~= seq![]);
    assert(seq![key].drop_last() =~= seq![]);
    reveal_with_fuel(entries_of, 2);
    assert(metadata_of(entry) =~= seq![(key, value)]);
    assert(metadata_of(key) =~= seq![(key, Seq::<char>::empty())]);
}

/// The alternatives of a host keyword are its comma-separated values, trimmed, without
/// the blank ones, in order.
pub proof fn law_host_values_are_listed_in_order(front: Seq<char>, value: Seq<char>)
    requires
        no_comma(value),
        trimmed(value).len() > 0,
    ensures
        host_values_of(value) == Ok::<Seq<Seq<char>>, Seq<char>>(seq![trimmed(value)]),
        host_values_of(front) matches Ok(values) ==> host_values_of(front.push(',') + value)
            == Ok::<Seq<Seq<char>>, Seq<char>>(values.push(trimmed(value))),
        host_values_of(Seq::<char>::empty()) is Err,
{
    law_pieces_stand_between_separators(value, ',', front);
    law_pieces_stand_between_separators(front, ',', value);
    let parts = pieces(front, ',');
    assert(parts + seq![value] =~= parts.push(value));
    assert(parts.push(value).drop_last() =~= parts);
    assert(seq![value].drop_last() =~= seq![]);
    reveal_with_fuel(not_blank, 2);
    assert(not_blank(seq![value]) =~= seq![trimmed(value)]);
    let none = Seq::<char>::empty();
    law_pieces_stand_between_separators(none, ',', none);
    assert(pieces(none, ',') =~= seq![none]);
    assert(seq![none].drop_last() =~= seq![]);
    assert(trimmed(none).len() == 0);
    assert(not_blank(seq![none]).len() == 0);
}

/// Blanks are the white space of ASCII: space, tab, line feed, carriage return and form
/// feed.
pub proof fn law_what_blanks_are(c: char)
    ensures
        is_blank(c) <==> c as int == 0x20 || c as int == 0x09 || c as int == 0x0a || c as int == 0x0d
            || c as int == 0x0c,
{
}

} // verus!
