//! The header of a rule: action, protocol, addresses, ports and direction.

use vstd::prelude::*;
use crate::address::address_value;
use crate::net::IpAddr;
use crate::text::{
    alphanumeric, append, append_number, decimal, find, first_of, head, is_alphanumeric, is_space,
    law_a_number_reads_back, law_decimals_are_digits,
    law_what_separates_words, lemma_first_of, lemma_one_word, lemma_trimmed_already,
    lemma_words_apart, lower, lowercase, lowered, number, owned, parse_number, quote,
    quoted, spells, split_words, string_of, tail, trim, trim_start, trimmed, trimmed_start, words,
};
use super::error::{ErrorModel, ParseError};
use super::model::{
    Action, AddressModel, AddressSpec, AddressValue, Direction, HeaderModel, PortModel, PortSpec,
    PortValue, Protocol, RuleHeader,
};

verus! {

/// The action that a header field names.
pub open spec fn action_of(text: Seq<char>) -> Result<Action, ErrorModel> {
    let word = lowered(text);
    if word == "alert"@ {
        Ok(Action::Alert)
    } else if word == "pass"@ {
        Ok(Action::Pass)
    } else if word == "drop"@ || word == "reject"@ || word == "rejectsrc"@ || word == "rejectdst"@
        || word == "rejectboth"@ {
        Err(ErrorModel::PreventionAction(text))
    } else {
        Err(ErrorModel::UnknownAction(text))
    }
}

/// The protocol that a header field names.
pub open spec fn protocol_of(text: Seq<char>) -> Result<Protocol, ErrorModel> {
    let word = lowered(text);
    if word == "ip"@ {
        Ok(Protocol::Ip)
    } else if word == "tcp"@ {
        Ok(Protocol::Tcp)
    } else if word == "udp"@ {
        Ok(Protocol::Udp)
    } else if word == "icmp"@ {
        Ok(Protocol::Icmp)
    } else if word == "http"@ {
        Ok(Protocol::Http)
    } else if word == "dns"@ {
        Ok(Protocol::Dns)
    } else if word == "tls"@ {
        Ok(Protocol::Tls)
    } else {
        Err(ErrorModel::UnknownProtocol(text))
    }
}

/// The direction that a header field names.
pub open spec fn direction_of(text: Seq<char>) -> Result<Direction, ErrorModel> {
    if text == "->"@ {
        Ok(Direction::ToDestination)
    } else if text == "<>"@ {
        Ok(Direction::Bidirectional)
    } else {
        Err(ErrorModel::InvalidDirection(text))
    }
}

/// A header field without a leading `!`, and whether it had one.
pub open spec fn without_negation(text: Seq<char>) -> (bool, Seq<char>) {
    if text.len() > 0 && text[0] == '!' {
        (true, trimmed_start(text.skip(1)))
    } else {
        (false, text)
    }
}

/// What is wrong with a variable name.
pub open spec fn name_fault(name: Seq<char>) -> Option<Seq<char>> {
    if name.len() == 0 {
        Some("'$' must be followed by a variable name"@)
    } else if exists|i: int|
        0 <= i < name.len() && !is_alphanumeric(#[trigger] name[i]) && name[i] != '_' {
        Some("variable name "@ + quoted(name) + " must be alphanumeric or underscore"@)
    } else {
        None
    }
}

/// What is wrong with a prefix length of an address.
pub open spec fn prefix_fault(prefix: Seq<char>, address: IpAddr) -> Option<Seq<char>> {
    let widest: nat = if address is V4 {
        32
    } else {
        128
    };
    match number(prefix, 10, 255) {
        None => Some(quoted(prefix) + " is not a prefix length"@),
        Some(bits) => if bits > widest {
            Some(
                "prefix length "@ + decimal(bits as nat) + " exceeds "@ + decimal(widest)
                    + " for this address family"@,
            )
        } else {
            None
        },
    }
}

/// What is wrong with an address or CIDR.
pub open spec fn literal_fault(text: Seq<char>) -> Option<Seq<char>> {
    let address = match first_of(text, '/') {
        Some(i) => text.take(i),
        None => text,
    };
    match address_value(address) {
        None => Some(quoted(address) + " is not an IP address"@),
        Some(value) => match first_of(text, '/') {
            Some(i) => prefix_fault(text.skip(i + 1), value),
            None => None,
        },
    }
}

/// The address expression of a header field.
pub open spec fn address_of(text: Seq<char>) -> Result<(bool, AddressModel), ErrorModel> {
    let (negated, body) = without_negation(text);
    if body.len() == 0 {
        Err(ErrorModel::InvalidAddress(text, "empty address"@))
    } else if lowered(body) == "any"@ {
        Ok((negated, AddressModel::Any))
    } else if body[0] == '$' {
        match name_fault(body.skip(1)) {
            Some(reason) => Err(ErrorModel::InvalidAddress(text, reason)),
            None => Ok((negated, AddressModel::Var(body.skip(1)))),
        }
    } else if body[0] == '[' {
        if body.last() != ']' {
            Err(ErrorModel::InvalidAddress(text, "address list is missing its closing ']'"@))
        } else if body.len() == 2 {
            Err(ErrorModel::InvalidAddress(text, "empty address list"@))
        } else {
            Ok((negated, AddressModel::List(body)))
        }
    } else {
        match literal_fault(body) {
            Some(reason) => Err(ErrorModel::InvalidAddress(text, reason)),
            None => Ok((negated, AddressModel::Literal(body))),
        }
    }
}

/// One bound of a port range; nothing where the text is blank.
pub open spec fn port_bound(text: Seq<char>) -> Result<Option<int>, Seq<char>> {
    let body = trimmed(text);
    if body.len() == 0 {
        Ok(None)
    } else {
        match number(body, 10, 65_535) {
            Some(port) => Ok(Some(port)),
            None => Err(quoted(body) + " is not a port number in 0..=65535"@),
        }
    }
}

/// The port expression of a header field.
pub open spec fn port_of(text: Seq<char>) -> Result<(bool, PortModel), ErrorModel> {
    let (negated, body) = without_negation(text);
    if body.len() == 0 {
        Err(ErrorModel::InvalidPort(text, "empty port"@))
    } else if lowered(body) == "any"@ {
        Ok((negated, PortModel::Any))
    } else if body[0] == '$' {
        match name_fault(body.skip(1)) {
            Some(reason) => Err(ErrorModel::InvalidPort(text, reason)),
            None => Ok((negated, PortModel::Var(body.skip(1)))),
        }
    } else if body[0] == '[' {
        if body.last() != ']' {
            Err(ErrorModel::InvalidPort(text, "port list is missing its closing ']'"@))
        } else if body.len() == 2 {
            Err(ErrorModel::InvalidPort(text, "empty port list"@))
        } else {
            Ok((negated, PortModel::List(body)))
        }
    } else {
        match first_of(body, ':') {
            Some(i) => match port_bound(body.take(i)) {
                Err(reason) => Err(ErrorModel::InvalidPort(text, reason)),
                Ok(low) => match port_bound(body.skip(i + 1)) {
                    Err(reason) => Err(ErrorModel::InvalidPort(text, reason)),
                    Ok(high) => if low is Some && high is Some && low->0 > high->0 {
                        Err(
                            ErrorModel::InvalidPort(
                                text,
                                "range start is greater than range end"@,
                            ),
                        )
                    } else {
                        Ok((negated, PortModel::Range(low, high)))
                    },
                },
            },
            None => match number(body, 10, 65_535) {
                Some(port) => Ok((negated, PortModel::Single(port))),
                None => Err(
                    ErrorModel::InvalidPort(text, "not a port number in 0..=65535"@),
                ),
            },
        }
    }
}

/// The header that seven fields give, or the first thing wrong with them.
pub open spec fn header_of(text: Seq<char>) -> Result<HeaderModel, ErrorModel> {
    let fields = words(text);
    if fields.len() != 7 {
        Err(ErrorModel::HeaderFieldCount(fields.len() as int))
    } else {
        match action_of(fields[0]) {
            Err(error) => Err(error),
            Ok(action) => match protocol_of(fields[1]) {
                Err(error) => Err(error),
                Ok(protocol) => match address_of(fields[2]) {
                    Err(error) => Err(error),
                    Ok(source) => match port_of(fields[3]) {
                        Err(error) => Err(error),
                        Ok(source_port) => match direction_of(fields[4]) {
                            Err(error) => Err(error),
                            Ok(direction) => match address_of(fields[5]) {
                                Err(error) => Err(error),
                                Ok(destination) => match port_of(fields[6]) {
                                    Err(error) => Err(error),
                                    Ok(destination_port) => Ok(
                                        HeaderModel {
                                            action,
                                            protocol,
                                            source,
                                            source_port,
                                            direction,
                                            destination,
                                            destination_port,
                                        },
                                    ),
                                },
                            },
                        },
                    },
                },
            },
        }
    }
}

fn parse_action(text: &[char]) -> (result: Result<Action, ParseError>)
    ensures
        match result {
            Ok(action) => action_of(text@) == Ok::<Action, ErrorModel>(action),
            Err(error) => action_of(text@) == Err::<Action, ErrorModel>(error@),
        },
{
    let lower = lowercase(text);
    let word = lower.as_slice();
    if spells(word, "alert") {
        Ok(Action::Alert)
    } else if spells(word, "pass") {
        Ok(Action::Pass)
    } else if spells(word, "drop") || spells(word, "reject") || spells(word, "rejectsrc")
        || spells(word, "rejectdst") || spells(word, "rejectboth") {
        Err(ParseError::PreventionAction(string_of(text)))
    } else {
        Err(ParseError::UnknownAction(string_of(text)))
    }
}

fn parse_protocol(text: &[char]) -> (result: Result<Protocol, ParseError>)
    ensures
        match result {
            Ok(protocol) => protocol_of(text@) == Ok::<Protocol, ErrorModel>(protocol),
            Err(error) => protocol_of(text@) == Err::<Protocol, ErrorModel>(error@),
        },
{
    let lower = lowercase(text);
    let word = lower.as_slice();
    if spells(word, "ip") {
        Ok(Protocol::Ip)
    } else if spells(word, "tcp") {
        Ok(Protocol::Tcp)
    } else if spells(word, "udp") {
        Ok(Protocol::Udp)
    } else if spells(word, "icmp") {
        Ok(Protocol::Icmp)
    } else if spells(word, "http") {
        Ok(Protocol::Http)
    } else if spells(word, "dns") {
        Ok(Protocol::Dns)
    } else if spells(word, "tls") {
        Ok(Protocol::Tls)
    } else {
        Err(ParseError::UnknownProtocol(string_of(text)))
    }
}

fn parse_direction(text: &[char]) -> (result: Result<Direction, ParseError>)
    ensures
        match result {
            Ok(direction) => direction_of(text@) == Ok::<Direction, ErrorModel>(direction),
            Err(error) => direction_of(text@) == Err::<Direction, ErrorModel>(error@),
        },
{
    if spells(text, "->") {
        Ok(Direction::ToDestination)
    } else if spells(text, "<>") {
        Ok(Direction::Bidirectional)
    } else {
        // `<-` is deliberately rejected: a reversed arrow reads as a valid rule
        // but would silently invert the header's meaning.
        Err(ParseError::InvalidDirection(string_of(text)))
    }
}

/// Split a leading `!` off a header field.
fn split_negation(text: &[char]) -> (result: (bool, &[char]))
    ensures
        (result.0, result.1@) == without_negation(text@),
{
    if text.len() > 0 && text[0] == '!' {
        (true, trim_start(tail(text, 1)))
    } else {
        (false, text)
    }
}

fn validate_var_name(name: &[char]) -> (result: Result<(), String>)
    ensures
        match result {
            Ok(_) => name_fault(name@) is None,
            Err(reason) => name_fault(name@) == Some(reason@),
        },
{
    if name.len() == 0 {
        return Err(owned("'$' must be followed by a variable name"));
    }
    let mut i: usize = 0;
    while i < name.len()
        invariant
            0 < name@.len(),
            i <= name@.len(),
            forall|j: int| 0 <= j < i ==> is_alphanumeric(#[trigger] name@[j]) || name@[j] == '_',
        decreases name@.len() - i,
    {
        if !alphanumeric(name[i]) && name[i] != '_' {
            assert(!is_alphanumeric(name@[i as int]));
            let mut reason = owned("variable name ");
            let text = string_of(name);
            let form = quote(text.as_str());
            append(&mut reason, form.as_str());
            append(&mut reason, " must be alphanumeric or underscore");
            return Err(reason);
        }
        i = i + 1;
    }
    Ok(())
}

fn validate_prefix(prefix: &[char], address: IpAddr) -> (result: Result<(), String>)
    ensures
        match result {
            Ok(_) => prefix_fault(prefix@, address) is None,
            Err(reason) => prefix_fault(prefix@, address) == Some(reason@),
        },
{
    match parse_number(prefix, 10, 255) {
        None => {
            let text = string_of(prefix);
            let mut reason = quote(text.as_str());
            append(&mut reason, " is not a prefix length");
            Err(reason)
        },
        Some(bits) => {
            let widest: u64 = match address {
                IpAddr::V4(_) => 32,
                IpAddr::V6(_) => 128,
            };
            if bits > widest {
                let mut reason = owned("prefix length ");
                append_number(&mut reason, bits);
                append(&mut reason, " exceeds ");
                append_number(&mut reason, widest);
                append(&mut reason, " for this address family");
                Err(reason)
            } else {
                Ok(())
            }
        },
    }
}

fn validate_address_literal(text: &[char]) -> (result: Result<(), String>)
    ensures
        match result {
            Ok(_) => literal_fault(text@) is None,
            Err(reason) => literal_fault(text@) == Some(reason@),
        },
{
    let slash = find(text, '/');
    let address = match slash {
        Some(i) => head(text, i),
        None => text,
    };
    match IpAddr::from_chars(address) {
        None => {
            let owned_address = string_of(address);
            let mut reason = quote(owned_address.as_str());
            append(&mut reason, " is not an IP address");
            Err(reason)
        },
        Some(value) => match slash {
            Some(i) => {
                assert(i < text.len());
                validate_prefix(tail(text, i + 1), value)
            },
            None => Ok(()),
        },
    }
}

fn parse_address(text: &[char]) -> (result: Result<AddressSpec, ParseError>)
    ensures
        match result {
            Ok(spec) => address_of(text@) == Ok::<(bool, AddressModel), ErrorModel>(spec@),
            Err(error) => address_of(text@) == Err::<(bool, AddressModel), ErrorModel>(error@),
        },
{
    let (negated, body) = split_negation(text);
    if body.len() == 0 {
        return Err(
            ParseError::InvalidAddress { value: string_of(text), reason: owned("empty address") },
        );
    }
    let lower = lowercase(body);
    if spells(lower.as_slice(), "any") {
        Ok(AddressSpec { negated, value: AddressValue::Any })
    } else if body[0] == '$' {
        match validate_var_name(tail(body, 1)) {
            Err(reason) => Err(ParseError::InvalidAddress { value: string_of(text), reason }),
            Ok(_) => Ok(
                AddressSpec { negated, value: AddressValue::Var(string_of(tail(body, 1))) },
            ),
        }
    } else if body[0] == '[' {
        if body[body.len() - 1] != ']' {
            Err(
                ParseError::InvalidAddress {
                    value: string_of(text),
                    reason: owned("address list is missing its closing ']'"),
                },
            )
        } else if body.len() == 2 {
            Err(
                ParseError::InvalidAddress {
                    value: string_of(text),
                    reason: owned("empty address list"),
                },
            )
        } else {
            Ok(AddressSpec { negated, value: AddressValue::List(string_of(body)) })
        }
    } else {
        match validate_address_literal(body) {
            Err(reason) => Err(ParseError::InvalidAddress { value: string_of(text), reason }),
            Ok(_) => Ok(AddressSpec { negated, value: AddressValue::Literal(string_of(body)) }),
        }
    }
}

fn parse_optional_port(text: &[char]) -> (result: Result<Option<u16>, String>)
    ensures
        match result {
            Ok(port) => port_bound(text@) == Ok::<Option<int>, Seq<char>>(
                super::model::bound(port),
            ),
            Err(reason) => port_bound(text@) == Err::<Option<int>, Seq<char>>(reason@),
        },
{
    let body = trim(text);
    if body.len() == 0 {
        return Ok(None);
    }
    match parse_number(body, 10, 65_535) {
        Some(port) => Ok(Some(port as u16)),
        None => {
            let owned_body = string_of(body);
            let mut reason = quote(owned_body.as_str());
            append(&mut reason, " is not a port number in 0..=65535");
            Err(reason)
        },
    }
}

fn invalid_port(text: &[char], reason: String) -> (error: ParseError)
    ensures
        error@ == ErrorModel::InvalidPort(text@, reason@),
{
    ParseError::InvalidPort { value: string_of(text), reason }
}

fn parse_port_numbers(text: &[char], negated: bool, body: &[char]) -> (result: Result<
    PortSpec,
    ParseError,
>)
    requires
        (negated, body@) == without_negation(text@),
        body@.len() > 0,
        lowered(body@) != "any"@,
        body@[0] != '$',
        body@[0] != '[',
    ensures
        match result {
            Ok(spec) => port_of(text@) == Ok::<(bool, PortModel), ErrorModel>(spec@),
            Err(error) => port_of(text@) == Err::<(bool, PortModel), ErrorModel>(error@),
        },
{
    let colon = find(body, ':');
    assert(colon matches Some(i) ==> i < body.len());
    match colon {
        Some(i) => match parse_optional_port(head(body, i)) {
            Err(reason) => Err(invalid_port(text, reason)),
            Ok(low) => match parse_optional_port(tail(body, i + 1)) {
                Err(reason) => Err(invalid_port(text, reason)),
                Ok(high) => {
                    if let (Some(from), Some(to)) = (low, high) {
                        if from > to {
                            return Err(
                                invalid_port(text, owned("range start is greater than range end")),
                            );
                        }
                    }
                    Ok(PortSpec { negated, value: PortValue::Range(low, high) })
                },
            },
        },
        None => match parse_number(body, 10, 65_535) {
            Some(port) => Ok(PortSpec { negated, value: PortValue::Single(port as u16) }),
            None => Err(invalid_port(text, owned("not a port number in 0..=65535"))),
        },
    }
}

fn parse_port(text: &[char]) -> (result: Result<PortSpec, ParseError>)
    ensures
        match result {
            Ok(spec) => port_of(text@) == Ok::<(bool, PortModel), ErrorModel>(spec@),
            Err(error) => port_of(text@) == Err::<(bool, PortModel), ErrorModel>(error@),
        },
{
    let (negated, body) = split_negation(text);
    if body.len() == 0 {
        return Err(invalid_port(text, owned("empty port")));
    }
    let lower = lowercase(body);
    if spells(lower.as_slice(), "any") {
        Ok(PortSpec { negated, value: PortValue::Any })
    } else if body[0] == '$' {
        match validate_var_name(tail(body, 1)) {
            Err(reason) => Err(invalid_port(text, reason)),
            Ok(_) => Ok(PortSpec { negated, value: PortValue::Var(string_of(tail(body, 1))) }),
        }
    } else if body[0] == '[' {
        if body[body.len() - 1] != ']' {
            Err(invalid_port(text, owned("port list is missing its closing ']'")))
        } else if body.len() == 2 {
            Err(invalid_port(text, owned("empty port list")))
        } else {
            Ok(PortSpec { negated, value: PortValue::List(string_of(body)) })
        }
    } else {
        parse_port_numbers(text, negated, body)
    }
}

/// Parse the header of a rule.
pub fn parse_header(text: &[char]) -> (result: Result<RuleHeader, ParseError>)
    ensures
        match result {
            Ok(header) => header_of(text@) == Ok::<HeaderModel, ErrorModel>(header@),
            Err(error) => header_of(text@) == Err::<HeaderModel, ErrorModel>(error@),
        },
{
    let fields = split_words(text);
    let ghost all = words(text@);
    assert(fields@.len() == all.len());
    if fields.len() != 7 {
        return Err(ParseError::HeaderFieldCount { found: fields.len() });
    }
    assert(fields@[0]@ == all[0] && fields@[1]@ == all[1] && fields@[2]@ == all[2] && fields@[3]@
        == all[3] && fields@[4]@ == all[4] && fields@[5]@ == all[5] && fields@[6]@ == all[6]);
    let action = match parse_action(fields[0]) {
        Ok(action) => action,
        Err(error) => return Err(error),
    };
    let protocol = match parse_protocol(fields[1]) {
        Ok(protocol) => protocol,
        Err(error) => return Err(error),
    };
    let source = match parse_address(fields[2]) {
        Ok(source) => source,
        Err(error) => return Err(error),
    };
    let source_port = match parse_port(fields[3]) {
        Ok(port) => port,
        Err(error) => return Err(error),
    };
    let direction = match parse_direction(fields[4]) {
        Ok(direction) => direction,
        Err(error) => return Err(error),
    };
    let destination = match parse_address(fields[5]) {
        Ok(destination) => destination,
        Err(error) => return Err(error),
    };
    let destination_port = match parse_port(fields[6]) {
        Ok(port) => port,
        Err(error) => return Err(error),
    };
    Ok(
        RuleHeader {
            action,
            protocol,
            source,
            source_port,
            direction,
            destination,
            destination_port,
        },
    )
}

/// No two protocols have the same keyword.
proof fn lemma_keywords_differ(one: Protocol, other: Protocol)
    requires
        one.keyword() == other.keyword(),
    ensures
        one == other,
{
    reveal_strlit("ip");
    reveal_strlit("tcp");
    reveal_strlit("udp");
    reveal_strlit("icmp");
    reveal_strlit("http");
    reveal_strlit("dns");
    reveal_strlit("tls");
    assert("ip"@.len() == 2 && "icmp"@.len() == 4 && "http"@.len() == 4);
    assert("icmp"@[0] == 'i' && "http"@[0] == 'h');
    assert("tcp"@.len() == 3 && "tls"@.len() == 3 && "udp"@.len() == 3 && "dns"@.len() == 3);
    assert("tcp"@[0] == 't' && "tls"@[0] == 't' && "udp"@[0] == 'u' && "dns"@[0] == 'd');
    assert("tcp"@[1] == 'c' && "tls"@[1] == 'l');
}

/// The words of the shortest header are what they say.
proof fn lemma_any_matches_all()
    ensures
        action_of("alert"@) == Ok::<Action, ErrorModel>(Action::Alert),
        address_of("any"@) == Ok::<(bool, AddressModel), ErrorModel>((false, AddressModel::Any)),
        port_of("any"@) == Ok::<(bool, PortModel), ErrorModel>((false, PortModel::Any)),
{
    reveal_strlit("alert");
    reveal_strlit("any");
    assert(lowered("alert"@) =~= "alert"@);
    assert(lowered("any"@) =~= "any"@);
    assert("any"@[0] == 'a');
}

/// A keyword in whatever case names its protocol and no other, and a header that holds
/// it is one for that protocol.
#[verifier::spinoff_prover]
#[verifier::rlimit(80)]
pub proof fn law_a_keyword_names_its_protocol(protocol: Protocol, spelled: Seq<char>)
    requires
        lowered(spelled) == protocol.keyword(),
    ensures
        protocol_of(spelled) == Ok::<Protocol, ErrorModel>(protocol),
        forall|other: Protocol| #[trigger]
            other.keyword() == protocol.keyword() ==> other == protocol,
        header_of("alert "@ + spelled + " any any -> any any "@) == Ok::<HeaderModel, ErrorModel>(
            HeaderModel {
                action: Action::Alert,
                protocol,
                source: (false, AddressModel::Any),
                source_port: (false, PortModel::Any),
                direction: Direction::ToDestination,
                destination: (false, AddressModel::Any),
                destination_port: (false, PortModel::Any),
            },
        ),
{
    assert forall|other: Protocol| #[trigger]
        other.keyword() == protocol.keyword() implies other == protocol by {
        lemma_keywords_differ(other, protocol);
    }
    assert(Protocol::Ip.keyword() == "ip"@ && Protocol::Tcp.keyword() == "tcp"@
        && Protocol::Udp.keyword() == "udp"@ && Protocol::Icmp.keyword() == "icmp"@
        && Protocol::Http.keyword() == "http"@ && Protocol::Dns.keyword() == "dns"@
        && Protocol::Tls.keyword() == "tls"@);
    lemma_header_words(protocol, spelled);
    lemma_any_matches_all();
}

/// A keyword in whatever case holds nothing that could end a word or a header.
pub proof fn lemma_a_keyword_is_letters(protocol: Protocol, spelled: Seq<char>)
    requires
        lowered(spelled) == protocol.keyword(),
    ensures
        spelled.len() > 0,
        forall|i: int|
            0 <= i < spelled.len() ==> !is_space(#[trigger] spelled[i]) && spelled[i] != '(',
{
    reveal_strlit("ip");
    reveal_strlit("tcp");
    reveal_strlit("udp");
    reveal_strlit("icmp");
    reveal_strlit("http");
    reveal_strlit("dns");
    reveal_strlit("tls");
    assert(spelled.len() == lowered(spelled).len());
    assert forall|i: int| 0 <= i < spelled.len() implies !is_space(#[trigger] spelled[i])
        && spelled[i] != '(' by {
        assert(lowered(spelled)[i] == lower(spelled[i]));
        assert('a' <= lowered(spelled)[i] <= 'z');
    }
}

proof fn lemma_header_words(protocol: Protocol, spelled: Seq<char>)
    requires
        lowered(spelled) == protocol.keyword(),
    ensures
        words("alert "@ + spelled + " any any -> any any "@) == seq![
            "alert"@,
            spelled,
            "any"@,
            "any"@,
            "->"@,
            "any"@,
            "any"@,
        ],
{
    reveal_strlit("alert");
    reveal_strlit("alert ");
    reveal_strlit("any");
    reveal_strlit("->");
    reveal_strlit(" any any -> any any ");
    lemma_a_keyword_is_letters(protocol, spelled);
    lemma_one_word("alert"@);
    lemma_one_word(spelled);
    lemma_one_word("any"@);
    lemma_one_word("->"@);
    let none = Seq::<char>::empty();
    let t5 = "any"@.push(' ') + none;
    let t4 = "any"@.push(' ') + t5;
    let t3 = "->"@.push(' ') + t4;
    let t2 = "any"@.push(' ') + t3;
    let t1 = "any"@.push(' ') + t2;
    let t0 = spelled.push(' ') + t1;
    lemma_words_apart("any"@, ' ', none);
    lemma_words_apart("any"@, ' ', t5);
    lemma_words_apart("->"@, ' ', t4);
    lemma_words_apart("any"@, ' ', t3);
    lemma_words_apart("any"@, ' ', t2);
    lemma_words_apart(spelled, ' ', t1);
    lemma_words_apart("alert"@, ' ', t0);
    assert(" any any -> any any "@ =~= seq![' '] + t1);
    assert("alert "@ =~= "alert"@.push(' '));
    assert("alert "@ + spelled + " any any -> any any "@ =~= "alert"@.push(' ') + t0);
    assert(words(none) =~= Seq::<Seq<char>>::empty());
    assert(words("alert"@.push(' ') + t0) =~= seq![
        "alert"@,
        spelled,
        "any"@,
        "any"@,
        "->"@,
        "any"@,
        "any"@,
    ]);
}

/// The words for actions: `alert` and `pass` are carried out, in whatever case, those that
/// would stop traffic are refused as such, and every other word is unknown.
pub proof fn law_actions_mean_what_they_say(text: Seq<char>)
    ensures
        ({
            let word = lowered(text);
            let stops = word == "drop"@ || word == "reject"@ || word == "rejectsrc"@ || word
                == "rejectdst"@ || word == "rejectboth"@;
            &&& word == "alert"@ <==> action_of(text) == Ok::<Action, ErrorModel>(Action::Alert)
            &&& word == "pass"@ <==> action_of(text) == Ok::<Action, ErrorModel>(Action::Pass)
            &&& stops <==> action_of(text) == Err::<Action, ErrorModel>(
                ErrorModel::PreventionAction(text),
            )
            &&& word != "alert"@ && word != "pass"@ && !stops ==> action_of(text) == Err::<
                Action,
                ErrorModel,
            >(ErrorModel::UnknownAction(text))
        }),
{
    reveal_strlit("alert");
    reveal_strlit("pass");
    reveal_strlit("drop");
    reveal_strlit("reject");
    reveal_strlit("rejectsrc");
    reveal_strlit("rejectdst");
    reveal_strlit("rejectboth");
    assert("alert"@.len() == 5 && "pass"@.len() == 4 && "drop"@.len() == 4);
    assert("reject"@.len() == 6 && "rejectsrc"@.len() == 9 && "rejectdst"@.len() == 9);
    assert("rejectboth"@.len() == 10);
    assert("pass"@[0] == 'p' && "drop"@[0] == 'd');
}

/// An arrow to the right goes one way, a double arrow both ways, and nothing else is a
/// direction.
pub proof fn law_arrows_are_directions(text: Seq<char>)
    ensures
        direction_of(text) == Ok::<Direction, ErrorModel>(Direction::ToDestination) <==> text
            == seq!['-', '>'],
        direction_of(text) == Ok::<Direction, ErrorModel>(Direction::Bidirectional) <==> text
            == seq!['<', '>'],
        direction_of(text) is Err <==> text != seq!['-', '>'] && text != seq!['<', '>'],
{
    reveal_strlit("->");
    reveal_strlit("<>");
    assert("->"@ =~= seq!['-', '>']);
    assert("<>"@ =~= seq!['<', '>']);
    assert(seq!['-', '>'][0] != seq!['<', '>'][0]);
}

/// An exclamation mark in front of an address or a port negates it and changes nothing
/// else; without one nothing is negated.
pub proof fn law_an_exclamation_mark_negates(text: Seq<char>)
    requires
        text.len() > 0,
        text[0] != '!',
        !is_space(text[0]),
    ensures
        address_of(text) matches Ok(found) ==> !found.0 && address_of(seq!['!'] + text) == Ok::<
            (bool, AddressModel),
            ErrorModel,
        >((true, found.1)),
        address_of(text) is Err ==> address_of(seq!['!'] + text) is Err,
        port_of(text) matches Ok(found) ==> !found.0 && port_of(seq!['!'] + text) == Ok::<
            (bool, PortModel),
            ErrorModel,
        >((true, found.1)),
        port_of(text) is Err ==> port_of(seq!['!'] + text) is Err,
{
    let negated = seq!['!'] + text;
    assert(negated.skip(1) =~= text);
    assert(trimmed_start(text) == text);
}

/// Addresses and ports by their first character: a dollar sign names a variable of
/// letters, digits and underscores, brackets hold a list that is not empty, and `any` is
/// any, in whatever case.
pub proof fn law_variables_lists_and_any(name: Seq<char>, inside: Seq<char>, any: Seq<char>)
    requires
        lowered(any) == "any"@,
    ensures
        ({
            let variable = seq!['$'] + name;
            let named = name.len() > 0 && forall|i: int|
                0 <= i < name.len() ==> is_alphanumeric(#[trigger] name[i]) || name[i] == '_';
            &&& named <==> address_of(variable) == Ok::<(bool, AddressModel), ErrorModel>(
                (false, AddressModel::Var(name)),
            )
            &&& named <==> port_of(variable) == Ok::<(bool, PortModel), ErrorModel>(
                (false, PortModel::Var(name)),
            )
            &&& !named ==> address_of(variable) is Err && port_of(variable) is Err
        }),
        ({
            let list = seq!['['] + inside + seq![']'];
            &&& inside.len() > 0 ==> address_of(list) == Ok::<(bool, AddressModel), ErrorModel>(
                (false, AddressModel::List(list)),
            )
            &&& inside.len() > 0 ==> port_of(list) == Ok::<(bool, PortModel), ErrorModel>(
                (false, PortModel::List(list)),
            )
            &&& inside.len() == 0 ==> address_of(list) is Err && port_of(list) is Err
        }),
        address_of(any) == Ok::<(bool, AddressModel), ErrorModel>((false, AddressModel::Any)),
        port_of(any) == Ok::<(bool, PortModel), ErrorModel>((false, PortModel::Any)),
{
    reveal_strlit("any");
    let variable = seq!['$'] + name;
    assert(variable.skip(1) =~= name);
    assert("any"@.len() == 3 && "any"@[0] == 'a');
    assert(lowered(variable)[0] == lower(variable[0]));
    let list = seq!['['] + inside + seq![']'];
    assert(lowered(list)[0] == lower(list[0]));
    assert(list.last() == ']');
    assert(any.len() == lowered(any).len());
    assert(lowered(any)[0] == lower(any[0]));
    if any[0] == '!' {
        assert(false);
    }
    assert forall|i: int| 0 <= i < name.len() implies name[i] == #[trigger] variable[i + 1] by {}
}

/// An address stands for itself, and with a slash and a number for its network, as long as
/// the address has so many bits.
pub proof fn law_addresses_and_networks_are_literals(address: Seq<char>, bits: nat)
    requires
        address_value(address) is Some,
        address.len() > 0,
        forall|i: int| 0 <= i < address.len() ==> #[trigger] address[i] != '/',
        address[0] != '!' && address[0] != '$' && address[0] != '[',
        lowered(address) != "any"@,
    ensures
        address_of(address) == Ok::<(bool, AddressModel), ErrorModel>(
            (false, AddressModel::Literal(address)),
        ),
        ({
            let network = address.push('/') + decimal(bits);
            let fits = bits <= match address_value(address)->0 {
                IpAddr::V4(_) => 32nat,
                IpAddr::V6(_) => 128nat,
            };
            &&& fits ==> address_of(network) == Ok::<(bool, AddressModel), ErrorModel>(
                (false, AddressModel::Literal(network)),
            )
            &&& !fits ==> address_of(network) is Err
        }),
{
    let network = address.push('/') + decimal(bits);
    lemma_first_of(address, '/');
    lemma_first_of(network, '/');
    assert(network[address.len() as int] == '/');
    assert forall|i: int| 0 <= i < address.len() implies #[trigger] network[i] != '/' by {
        assert(network[i] == address[i]);
    }
    assert(first_of(network, '/') == Some(address.len() as int));
    assert(network.take(address.len() as int) =~= address);
    assert(network.skip(address.len() as int + 1) =~= decimal(bits));
    law_a_number_reads_back(bits, 10, 255);
    reveal_strlit("any");
    law_decimals_are_digits(bits);
    let at = address.len() as int;
    assert(lowered(network)[at] == lower(network[at]));
    assert("any"@[0] == 'a' && "any"@[1] == 'n' && "any"@[2] == 'y' && "any"@.len() == 3);
    assert(network[0] == address[0]);
}

proof fn lemma_port_text(port: nat)
    ensures
        decimal(port).len() > 0,
        trimmed(decimal(port)) == decimal(port),
        '0' <= decimal(port)[0] <= '9',
        forall|i: int| 0 <= i < decimal(port).len() ==> #[trigger] decimal(port)[i] != ':',
        lower(decimal(port)[0]) == decimal(port)[0],
{
    law_decimals_are_digits(port);
    let text = decimal(port);
    assert('0' <= text[0] <= '9');
    assert('0' <= text[text.len() - 1] <= '9');
    lemma_digit(text[0]);
    lemma_digit(text[text.len() - 1]);
    lemma_trimmed_already(text);
}

proof fn lemma_digit(c: char)
    requires
        '0' <= c <= '9',
    ensures
        !is_space(c),
        lower(c) == c,
{
    law_what_separates_words(c);
}

/// A port is the number that it spells, and two numbers with a colon between them are all
/// ports from the one to the other; either may be left out. A number that is no port,
/// and a range that runs backwards, are refused.
pub proof fn law_ports_and_ranges_are_numbers(low: nat, high: nat)
    ensures
        low <= 65_535 ==> port_of(decimal(low)) == Ok::<(bool, PortModel), ErrorModel>(
            (false, PortModel::Single(low as int)),
        ),
        low > 65_535 ==> port_of(decimal(low)) is Err,
        low <= high <= 65_535 ==> port_of(decimal(low).push(':') + decimal(high)) == Ok::<
            (bool, PortModel),
            ErrorModel,
        >((false, PortModel::Range(Some(low as int), Some(high as int)))),
        low > high || high > 65_535 ==> port_of(decimal(low).push(':') + decimal(high)) is Err,
        low <= 65_535 ==> port_of(decimal(low).push(':')) == Ok::<(bool, PortModel), ErrorModel>(
            (false, PortModel::Range(Some(low as int), None)),
        ),
        high <= 65_535 ==> port_of(seq![':'] + decimal(high)) == Ok::<(bool, PortModel), ErrorModel>(
            (false, PortModel::Range(None, Some(high as int))),
        ),
{
    lemma_port_text(low);
    lemma_port_text(high);
    law_a_number_reads_back(low, 10, 65_535);
    law_a_number_reads_back(high, 10, 65_535);
    reveal_strlit("any");
    assert("any"@[0] == 'a');
    let one = decimal(low);
    let both = one.push(':') + decimal(high);
    let from = one.push(':');
    let to = seq![':'] + decimal(high);
    let at = one.len() as int;
    assert(lowered(one)[0] == lower(one[0]));
    assert(lowered(both)[0] == lower(both[0]));
    assert(lowered(from)[0] == lower(from[0]));
    assert(lowered(to)[0] == lower(to[0]));
    lemma_first_of(one, ':');
    lemma_first_of(both, ':');
    lemma_first_of(from, ':');
    lemma_first_of(to, ':');
    assert(both[at] == ':' && from[at] == ':' && to[0] == ':');
    assert forall|i: int| 0 <= i < at implies #[trigger] both[i] != ':' by {
        assert(both[i] == one[i]);
    }
    assert forall|i: int| 0 <= i < at implies #[trigger] from[i] != ':' by {
        assert(from[i] == one[i]);
    }
    assert(both.take(at) =~= one && both.skip(at + 1) =~= decimal(high));
    assert(from.take(at) =~= one && from.skip(at + 1) =~= Seq::<char>::empty());
    assert(to.take(0) =~= Seq::<char>::empty() && to.skip(1) =~= decimal(high));
    assert(trimmed(Seq::<char>::empty()).len() == 0);
}

/// A header has seven fields, each read on its own and in its place.
pub proof fn law_a_header_is_its_seven_fields(text: Seq<char>)
    ensures
        header_of(text) matches Ok(header) ==> {
            let fields = words(text);
            &&& fields.len() == 7
            &&& action_of(fields[0]) == Ok::<Action, ErrorModel>(header.action)
            &&& protocol_of(fields[1]) == Ok::<Protocol, ErrorModel>(header.protocol)
            &&& address_of(fields[2]) == Ok::<(bool, AddressModel), ErrorModel>(header.source)
            &&& port_of(fields[3]) == Ok::<(bool, PortModel), ErrorModel>(header.source_port)
            &&& direction_of(fields[4]) == Ok::<Direction, ErrorModel>(header.direction)
            &&& address_of(fields[5]) == Ok::<(bool, AddressModel), ErrorModel>(header.destination)
            &&& port_of(fields[6]) == Ok::<(bool, PortModel), ErrorModel>(header.destination_port)
        },
        words(text).len() != 7 ==> header_of(text) == Err::<HeaderModel, ErrorModel>(
            ErrorModel::HeaderFieldCount(words(text).len() as int),
        ),
        header_of(text) is Err ==> {
            let fields = words(text);
            ||| fields.len() != 7
            ||| action_of(fields[0]) is Err
            ||| protocol_of(fields[1]) is Err
            ||| address_of(fields[2]) is Err
            ||| port_of(fields[3]) is Err
            ||| direction_of(fields[4]) is Err
            ||| address_of(fields[5]) is Err
            ||| port_of(fields[6]) is Err
        },
{
}

/// A negation of nothing, like nothing, is an empty address and an empty port.
pub proof fn law_a_negation_needs_something_to_negate(blanks: Seq<char>)
    requires
        trimmed_start(blanks).len() == 0,
    ensures
        ({
            let text = seq!['!'] + blanks;
            &&& address_of(text) == Err::<(bool, AddressModel), ErrorModel>(
                ErrorModel::InvalidAddress(text, "empty address"@),
            )
            &&& port_of(text) == Err::<(bool, PortModel), ErrorModel>(
                ErrorModel::InvalidPort(text, "empty port"@),
            )
        }),
        address_of(Seq::<char>::empty()) is Err,
        port_of(Seq::<char>::empty()) is Err,
{
    assert((seq!['!'] + blanks).skip(1) =~= blanks);
}

} // verus!
