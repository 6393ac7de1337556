//! Windows Security log logon events (4624 / 4625) as [`AuthEvent`]s.
//!
//! `EvtRender` hands back an XML rendering of an event. This module parses that
//! rendering. The account is a **field** here, so there is nothing to
//! disambiguate, but its contents are still whatever somebody typed at a logon
//! prompt: the value reaches an event log that gets read in a terminal, has no
//! length limit of its own, and could carry markup that looks like more fields
//! if the renderer ever failed to escape it. So:
//!
//! * a value that still contains markup after entity decoding is **flagged**,
//!   because a correctly rendered event cannot produce one;
//! * a field that appears **more than once** is refused outright, not resolved.
//!   A second occurrence is either a renderer bug or an injection, and because
//!   `TargetUserName` is rendered *before* `IpAddress`, taking the first would
//!   hand out a forged source address. No field beats a forged one.

use vstd::prelude::*;
use crate::address::address_value;
use crate::net::IpAddr;
use crate::text::{
    append, append_number, begins, byte_len, chars_of, decimal, equal, find, find_str, first_of,
    first_text, fit, head, is_control, is_space, law_a_number_reads_back,
    law_a_text_is_found_where_it_first_stands, law_decimals_are_digits,
    law_replacing_changes_occurrences_only, law_what_separates_words, lemma_first_of,
    lemma_first_text_from, lemma_trimmed_already, number, optional_text, owned, parse_number, quote,
    quoted, replace, replaced, string_of, tail, texts, trim, trimmed,
};
use super::clean::{sanitise, sanitised};
use super::event::{AuthEvent, AuthModel, AuthOutcome};

verus! {

/// Successful logon.
pub const EVENT_ID_LOGON_SUCCESS: u32 = 4_624;

/// Failed logon.
pub const EVENT_ID_LOGON_FAILURE: u32 = 4_625;

/// Explicit-credential logon (`runas`, lateral movement).
pub const EVENT_ID_EXPLICIT_CREDENTIALS: u32 = 4_648;

/// Longest field value kept, in characters.
pub const MAX_FIELD_CHARS: usize = 256;

/// Longest rendered event considered at all.
pub const MAX_EVENT_BYTES: usize = 64 * 1_024;

/// How much of a claimed address a note quotes, in characters.
pub const MAX_QUOTED_CHARS: usize = 48;

/// How the logon was attempted.
///
/// Worth carrying because it changes what an event means: a network or RDP
/// failure from a routable address is somebody trying the door, while a service
/// failure is usually a service account with a stale password.
#[derive(Debug, Clone, Copy, PartialEq, Eq, Structural)]
#[non_exhaustive]
pub enum LogonType {
    /// 2: at the keyboard.
    Interactive,
    /// 3: from the network, e.g. SMB.
    Network,
    /// 4: a scheduled task.
    Batch,
    /// 5: a service starting.
    Service,
    /// 7: a workstation unlock.
    Unlock,
    /// 8: network logon with a cleartext password.
    NetworkCleartext,
    /// 9: `runas /netonly`.
    NewCredentials,
    /// 10: RDP.
    RemoteInteractive,
    /// 11: cached credentials.
    CachedInteractive,
    /// Anything else, kept as its number rather than dropped.
    Other(u32),
}

impl LogonType {
    /// The type that a number stands for.
    pub open spec fn of_code(code: u32) -> LogonType {
        if code == 2 {
            LogonType::Interactive
        } else if code == 3 {
            LogonType::Network
        } else if code == 4 {
            LogonType::Batch
        } else if code == 5 {
            LogonType::Service
        } else if code == 7 {
            LogonType::Unlock
        } else if code == 8 {
            LogonType::NetworkCleartext
        } else if code == 9 {
            LogonType::NewCredentials
        } else if code == 10 {
            LogonType::RemoteInteractive
        } else if code == 11 {
            LogonType::CachedInteractive
        } else {
            LogonType::Other(code)
        }
    }

    /// Map the numeric field.
    pub fn from_code(code: u32) -> (kind: Self)
        ensures
            kind == LogonType::of_code(code),
    {
        match code {
            2 => LogonType::Interactive,
            3 => LogonType::Network,
            4 => LogonType::Batch,
            5 => LogonType::Service,
            7 => LogonType::Unlock,
            8 => LogonType::NetworkCleartext,
            9 => LogonType::NewCredentials,
            10 => LogonType::RemoteInteractive,
            11 => LogonType::CachedInteractive,
            other => LogonType::Other(other),
        }
    }

    /// The type's short name.
    pub open spec fn name(self) -> Seq<char> {
        match self {
            LogonType::Interactive => "interactive"@,
            LogonType::Network => "network"@,
            LogonType::Batch => "batch"@,
            LogonType::Service => "service"@,
            LogonType::Unlock => "unlock"@,
            LogonType::NetworkCleartext => "network-cleartext"@,
            LogonType::NewCredentials => "new-credentials"@,
            LogonType::RemoteInteractive => "remote-interactive"@,
            LogonType::CachedInteractive => "cached-interactive"@,
            LogonType::Other(_) => "other"@,
        }
    }

    /// A short name for the event message.
    pub fn as_str(self) -> (name: &'static str)
        ensures
            name@ == self.name(),
    {
        match self {
            LogonType::Interactive => "interactive",
            LogonType::Network => "network",
            LogonType::Batch => "batch",
            LogonType::Service => "service",
            LogonType::Unlock => "unlock",
            LogonType::NetworkCleartext => "network-cleartext",
            LogonType::NewCredentials => "new-credentials",
            LogonType::RemoteInteractive => "remote-interactive",
            LogonType::CachedInteractive => "cached-interactive",
            LogonType::Other(_) => "other",
        }
    }

    /// Whether the logon came over the network rather than from the console.
    ///
    /// This is the distinction that makes a failed-logon burst interesting: a
    /// thousand console failures is somebody at the keyboard, a thousand network
    /// failures is somebody with a password list.
    pub fn is_remote(self) -> (remote: bool)
        ensures
            remote == (self == LogonType::Network || self == LogonType::NetworkCleartext || self
                == LogonType::RemoteInteractive),
    {
        match self {
            LogonType::Network => true,
            LogonType::NetworkCleartext => true,
            LogonType::RemoteInteractive => true,
            _ => false,
        }
    }
}

/// What a parsed logon says.
pub struct LogonModel {
    /// The normalized event.
    pub event: AuthModel,
    /// How the logon was attempted.
    pub logon_type: Option<LogonType>,
    /// The Windows event id it came from.
    pub event_id: u32,
}

/// A parsed logon event, before the sensor stamps it.
#[derive(Debug, Clone, PartialEq, Eq)]
pub struct ParsedLogon {
    /// The normalized event.
    pub event: AuthEvent,
    /// How the logon was attempted.
    pub logon_type: Option<LogonType>,
    /// The Windows event id it came from.
    pub event_id: u32,
}

impl View for ParsedLogon {
    type V = LogonModel;

    open spec fn view(&self) -> LogonModel {
        LogonModel {
            event: self.event@,
            logon_type: self.logon_type,
            event_id: self.event_id,
        }
    }
}

// ---------------------------------------------------------------------------
// fields
// ---------------------------------------------------------------------------

/// A text with the five XML entities that the renderer produces decoded. The
/// ampersand comes last: doing it first would let `&amp;lt;` become `<`.
pub open spec fn entities_decoded(text: Seq<char>) -> Seq<char> {
    replaced(
        replaced(
            replaced(
                replaced(replaced(text, "&lt;"@, "<"@), "&gt;"@, ">"@),
                "&quot;"@,
                "\""@,
            ),
            "&apos;"@,
            "'"@,
        ),
        "&amp;"@,
        "&"@,
    )
}

/// The opening tag of a named field.
pub open spec fn opening_of(name: Seq<char>) -> Seq<char> {
    "<Data Name=\""@ + name + "\">"@
}

/// The values between an opening tag and the closing tags, in document order. A
/// field that is not closed is not a value, and ends the search.
pub open spec fn values_of(xml: Seq<char>, opening: Seq<char>) -> Seq<Seq<char>>
    decreases xml.len(),
{
    if opening.len() == 0 {
        seq![]
    } else {
        match first_text(xml, opening) {
            None => seq![],
            Some(start) => {
                proof {
                    lemma_first_text_from(xml, opening, 0);
                }
                let after = xml.skip(start + opening.len());
                match first_text(after, "</Data>"@) {
                    None => seq![],
                    Some(end) => {
                        proof {
                            lemma_first_text_from(after, "</Data>"@, 0);
                        }
                        seq![after.take(end)] + values_of(after.skip(end), opening)
                    },
                }
            },
        }
    }
}

/// Every value of a named field.
pub open spec fn data_of(xml: Seq<char>, name: Seq<char>) -> Seq<Seq<char>> {
    values_of(xml, opening_of(name))
}

/// The value of a field: none where it is absent, empty or given more than once.
pub open spec fn field_value(xml: Seq<char>, name: Seq<char>) -> Option<Seq<char>> {
    let values = data_of(xml, name);
    if values.len() != 1 {
        None
    } else {
        let clean = sanitised(entities_decoded(values[0]), MAX_FIELD_CHARS as nat);
        if clean.len() == 0 {
            None
        } else {
            Some(clean)
        }
    }
}

/// What should not be there in a field.
pub open spec fn field_notes(xml: Seq<char>, name: Seq<char>) -> Seq<Seq<char>> {
    let values = data_of(xml, name);
    if values.len() == 0 {
        seq![]
    } else if values.len() > 1 {
        seq![
            "field "@ + name + " appears "@ + decimal(values.len())
                + " times; refusing it rather than choosing one"@,
        ]
    } else {
        let plain = entities_decoded(values[0]);
        let markup = if plain.contains('<') || plain.contains('>') {
            seq!["field "@ + name + " contains markup after decoding"@]
        } else {
            seq![]
        };
        if sanitised(plain, MAX_FIELD_CHARS as nat) != plain {
            markup + seq!["field "@ + name + " was truncated or held control characters"@]
        } else {
            markup
        }
    }
}

/// A field's value, where it is not the `-` that Windows writes for none.
pub open spec fn meaning(xml: Seq<char>, name: Seq<char>) -> Option<Seq<char>> {
    match field_value(xml, name) {
        Some(value) => if value == "-"@ {
            None
        } else {
            Some(value)
        },
        None => None,
    }
}

/// Decode the five XML entities `EvtRender` produces.
///
/// Deliberately not a general entity decoder: numeric character references are
/// left alone rather than expanded, because expanding them is how a decoder
/// turns `&#60;` into markup that a later stage then trusts.
fn decode_entities(text: &[char]) -> (plain: Vec<char>)
    ensures
        plain@ == entities_decoded(text@),
{
    proof {
        reveal_strlit("&lt;");
        reveal_strlit("&gt;");
        reveal_strlit("&quot;");
        reveal_strlit("&apos;");
        reveal_strlit("&amp;");
    }
    let less = replace(text, "&lt;", "<");
    let greater = replace(less.as_slice(), "&gt;", ">");
    let quotes = replace(greater.as_slice(), "&quot;", "\"");
    let apostrophes = replace(quotes.as_slice(), "&apos;", "'");
    replace(apostrophes.as_slice(), "&amp;", "&")
}

/// Every `<Data Name="...">...</Data>` value for one name, in document order.
///
/// Returns all occurrences rather than the first, so the caller can notice a
/// duplicate. A correctly rendered event has exactly one of each.
fn data_fields<'a>(xml: &'a [char], name: &str) -> (values: Vec<&'a [char]>)
    ensures
        crate::text::views(values@) == data_of(xml@, name@),
{
    let mut opening = owned("<Data Name=\"");
    append(&mut opening, name);
    append(&mut opening, "\">");
    proof {
        reveal_strlit("\">");
        assert(opening@ == opening_of(name@));
        assert(opening@.len() > 0);
    }
    let mut values: Vec<&'a [char]> = Vec::new();
    let mut rest = xml;
    let ghost all = values_of(xml@, opening@);
    assert(crate::text::views(values@) + all =~= all);
    loop
        invariant
            all == values_of(xml@, opening@),
            opening@ == opening_of(name@),
            opening@.len() > 0,
            crate::text::views(values@) + values_of(rest@, opening@) == all,
        decreases rest@.len(),
    {
        let start: usize = match find_str(rest, opening.as_str()) {
            Some(start) => start,
            None => {
                assert(crate::text::views(values@) + Seq::<Seq<char>>::empty()
                    =~= crate::text::views(values@));
                return values;
            },
        };
        let tag = chars_of(opening.as_str());
        assert(start + tag.len() <= rest.len());
        let after = tail(rest, start + tag.len());
        let end: usize = match find_str(after, "</Data>") {
            Some(end) => end,
            // An unterminated field is not a value. Stop rather than guess where
            // it ended.
            None => {
                assert(crate::text::views(values@) + Seq::<Seq<char>>::empty()
                    =~= crate::text::views(values@));
                return values;
            },
        };
        let ghost before = values@;
        let value = head(after, end);
        values.push(value);
        let next = tail(after, end);
        proof {
            let more = values_of(next@, opening@);
            assert(crate::text::views(values@) =~= crate::text::views(before).push(value@));
            assert(crate::text::views(values@) + more =~= crate::text::views(before) + (seq![
                value@,
            ] + more));
        }
        rest = next;
    }
}

/// The event id in the `System` section.
pub open spec fn id_of(xml: Seq<char>) -> Option<u32> {
    match first_text(xml, "<EventID"@) {
        None => None,
        Some(start) => {
            let after = xml.skip(start);
            match (first_of(after, '>'), first_text(after, "</EventID>"@)) {
                (Some(open), Some(close)) => if close <= open + 1 {
                    None
                } else {
                    match number(trimmed(after.subrange(open + 1, close)), 10, u32::MAX as int) {
                        Some(id) => Some(id as u32),
                        None => None,
                    }
                },
                _ => None,
            }
        },
    }
}

fn find_id(xml: &[char]) -> (id: Option<u32>)
    ensures
        id == id_of(xml@),
{
    let start: usize = match find_str(xml, "<EventID") {
        Some(start) => start,
        None => return None,
    };
    let after = tail(xml, start);
    let open: usize = match find(after, '>') {
        Some(open) => open,
        None => return None,
    };
    let close: usize = match find_str(after, "</EventID>") {
        Some(close) => close,
        None => return None,
    };
    assert(open < after.len());
    if close <= open + 1 {
        return None;
    }
    let body = tail(head(after, close), open + 1);
    assert(body@ =~= after@.subrange(open + 1, close as int));
    match parse_number(trim(body), 10, u32::MAX as u64) {
        Some(id) => Some(id as u32),
        None => None,
    }
}

/// Read the event id out of the `System` section.
pub fn event_id(xml: &str) -> (id: Option<u32>)
    ensures
        id == id_of(xml@),
{
    let chars = chars_of(xml);
    find_id(chars.as_slice())
}

fn note(suspicious: &mut Vec<String>, text: String)
    ensures
        texts(final(suspicious)@) == texts(old(suspicious)@).push(text@),
{
    let ghost before = suspicious@;
    suspicious.push(text);
    assert(texts(suspicious@) =~= texts(before).push(text@));
}

/// A note on a field.
fn about_field(name: &str, rest: &str) -> (text: String)
    ensures
        text@ == "field "@ + name@ + rest@,
{
    let mut text = owned("field ");
    append(&mut text, name);
    append(&mut text, rest);
    text
}

fn has(text: &[char], c: char) -> (yes: bool)
    ensures
        yes == text@.contains(c),
{
    proof {
        crate::text::lemma_first_of(text@, c);
    }
    match find(text, c) {
        Some(_) => true,
        None => false,
    }
}

/// Pull one field, decode it, and note anything that should not be there.
///
/// **A field that appears more than once is not used at all.** A correctly
/// rendered event has exactly one of each, so a duplicate means either the
/// renderer is broken or an unescaped value has injected markup. The cost is a
/// missing field on a suspicious event, which is much cheaper than a forged one:
/// a rule matching on the source address simply does not match, instead of
/// matching a value that somebody picked.
fn field(xml: &[char], name: &str, suspicious: &mut Vec<String>) -> (value: Option<String>)
    ensures
        optional_text(value) == field_value(xml@, name@),
        texts(final(suspicious)@) == texts(old(suspicious)@) + field_notes(xml@, name@),
{
    let ghost start = texts(suspicious@);
    let occurrences = data_fields(xml, name);
    let ghost values = data_of(xml@, name@);
    assert(values.len() == occurrences@.len());
    if occurrences.len() > 1 {
        let mut text = about_field(name, " appears ");
        append_number(&mut text, occurrences.len() as u64);
        append(&mut text, " times; refusing it rather than choosing one");
        note(suspicious, text);
        assert(texts(suspicious@) =~= start + field_notes(xml@, name@));
        return None;
    }
    if occurrences.len() == 0 {
        assert(texts(suspicious@) =~= start + field_notes(xml@, name@));
        return None;
    }
    assert(values[0] == occurrences@[0]@);
    let plain = decode_entities(occurrences[0]);
    if has(plain.as_slice(), '<') || has(plain.as_slice(), '>') {
        // A correctly rendered event cannot produce this: the renderer escapes
        // markup. Recorded anyway, since hiding the attempt would be worse, but
        // marked so nothing downstream treats it as an ordinary value.
        note(suspicious, about_field(name, " contains markup after decoding"));
    }
    let (clean, changed) = sanitise(plain.as_slice(), MAX_FIELD_CHARS);
    if changed {
        note(suspicious, about_field(name, " was truncated or held control characters"));
    }
    assert(texts(suspicious@) =~= start + field_notes(xml@, name@));
    if clean.len() == 0 {
        return None;
    }
    Some(string_of(clean.as_slice()))
}

/// A field's value, where it is not the `-` that Windows writes for none.
fn meaningful(xml: &[char], name: &str, suspicious: &mut Vec<String>) -> (value: Option<String>)
    ensures
        optional_text(value) == meaning(xml@, name@),
        texts(final(suspicious)@) == texts(old(suspicious)@) + field_notes(xml@, name@),
{
    match field(xml, name, suspicious) {
        Some(value) => if equal(value.as_str(), "-") {
            None
        } else {
            Some(value)
        },
        None => None,
    }
}

// ---------------------------------------------------------------------------
// logons
// ---------------------------------------------------------------------------

/// How the logon of an event ended; none where the event is no logon decision.
pub open spec fn outcome_of(id: u32) -> Option<AuthOutcome> {
    if id == EVENT_ID_LOGON_SUCCESS || id == EVENT_ID_EXPLICIT_CREDENTIALS {
        Some(AuthOutcome::Success)
    } else if id == EVENT_ID_LOGON_FAILURE {
        Some(AuthOutcome::Failure)
    } else {
        None
    }
}

/// How a logon was attempted.
pub open spec fn logon_type_of(xml: Seq<char>) -> Option<LogonType> {
    match meaning(xml, "LogonType"@) {
        None => None,
        Some(code) => match number(code, 10, u32::MAX as int) {
            None => None,
            Some(code) => Some(LogonType::of_code(code as u32)),
        },
    }
}

/// The address that a field gives; a claim that does not parse gives none.
pub open spec fn claimed_address(claim: Option<Seq<char>>) -> Option<IpAddr> {
    match claim {
        None => None,
        Some(text) => address_value(text),
    }
}

/// What is suspicious about a claimed address. `LOCAL` is ordinary for console
/// logons; anything else that does not parse is worth flagging.
pub open spec fn address_notes(claim: Option<Seq<char>>) -> Seq<Seq<char>> {
    match claim {
        None => seq![],
        Some(text) => if address_value(text) is Some || text == "LOCAL"@ || text == "127.0.0.1"@
            || text == "::1"@ {
            seq![]
        } else {
            seq![
                "IpAddress "@ + quoted(
                    if text.len() <= MAX_QUOTED_CHARS {
                        text
                    } else {
                        text.take(MAX_QUOTED_CHARS as int)
                    },
                ) + " is not an address"@,
            ]
        },
    }
}

/// The port that a field gives; 0 is none.
pub open spec fn claimed_port(claim: Option<Seq<char>>) -> Option<u16> {
    match claim {
        None => None,
        Some(text) => match number(text, 10, 65_535) {
            None => None,
            Some(port) => if port == 0 {
                None
            } else {
                Some(port as u16)
            },
        },
    }
}

/// A labelled part of the message, where there is something to say.
pub open spec fn labelled(label: Seq<char>, value: Option<Seq<char>>) -> Seq<char> {
    match value {
        Some(value) => label + value,
        None => seq![],
    }
}

/// The account with its domain.
pub open spec fn account_of(domain: Option<Seq<char>>, user: Option<Seq<char>>) -> Option<
    Seq<char>,
> {
    match (domain, user) {
        (_, None) => None,
        (None, Some(user)) => Some(user),
        (Some(domain), Some(user)) => Some(domain + "\\"@ + user),
    }
}

/// The one-line summary of a logon, built from the parsed fields rather than
/// from the event's own rendered message, which is localised.
pub open spec fn message_of(xml: Seq<char>, id: u32, outcome: AuthOutcome) -> Seq<char> {
    (match outcome {
        AuthOutcome::Success => "successful"@,
        AuthOutcome::Failure => "failed"@,
    }) + " logon (event "@ + decimal(id as nat) + ")"@ + labelled(
        ", type "@,
        match logon_type_of(xml) {
            Some(kind) => Some(kind.name()),
            None => None,
        },
    ) + labelled(
        ", account "@,
        account_of(meaning(xml, "TargetDomainName"@), meaning(xml, "TargetUserName"@)),
    ) + labelled(", from workstation "@, meaning(xml, "WorkstationName"@)) + labelled(
        ", status "@,
        if id == EVENT_ID_LOGON_FAILURE {
            meaning(xml, "Status"@)
        } else {
            None
        },
    )
}

/// Everything suspicious about the fields of a logon.
pub open spec fn notes_of(xml: Seq<char>, id: u32) -> Seq<Seq<char>> {
    field_notes(xml, "TargetUserName"@) + field_notes(xml, "TargetDomainName"@) + field_notes(
        xml,
        "WorkstationName"@,
    ) + field_notes(xml, "LogonType"@) + field_notes(xml, "IpAddress"@) + address_notes(
        meaning(xml, "IpAddress"@),
    ) + field_notes(xml, "IpPort"@) + (if id == EVENT_ID_LOGON_FAILURE {
        field_notes(xml, "Status"@)
    } else {
        seq![]
    }) + field_notes(xml, "LogonProcessName"@)
}

/// The logon that a rendered event reports.
pub open spec fn logon_of(xml: Seq<char>) -> Option<LogonModel> {
    if byte_len(xml) > MAX_EVENT_BYTES {
        None
    } else {
        match id_of(xml) {
            None => None,
            Some(id) => match outcome_of(id) {
                None => None,
                Some(outcome) => Some(
                    LogonModel {
                        event: AuthModel {
                            outcome,
                            user: meaning(xml, "TargetUserName"@),
                            service: match meaning(xml, "LogonProcessName"@) {
                                Some(service) => Some(service),
                                None => Some("Security"@),
                            },
                            source_address: claimed_address(meaning(xml, "IpAddress"@)),
                            source_port: claimed_port(meaning(xml, "IpPort"@)),
                            message: message_of(xml, id, outcome),
                            log_source: "windows-security"@,
                            suspicious: notes_of(xml, id),
                        },
                        logon_type: logon_type_of(xml),
                        event_id: id,
                    },
                ),
            },
        }
    }
}

fn read_logon_type(value: &Option<String>) -> (kind: Option<LogonType>)
    ensures
        kind == (match optional_text(*value) {
            None => None,
            Some(code) => match number(code, 10, u32::MAX as int) {
                None => None,
                Some(code) => Some(LogonType::of_code(code as u32)),
            },
        }),
{
    match value {
        None => None,
        Some(text) => {
            let chars = chars_of(text.as_str());
            match parse_number(chars.as_slice(), 10, u32::MAX as u64) {
                None => None,
                Some(code) => Some(LogonType::from_code(code as u32)),
            }
        },
    }
}

fn read_address(claim: &Option<String>, suspicious: &mut Vec<String>) -> (address: Option<IpAddr>)
    ensures
        address == claimed_address(optional_text(*claim)),
        texts(final(suspicious)@) == texts(old(suspicious)@) + address_notes(optional_text(*claim)),
{
    let ghost start = texts(suspicious@);
    assert(start + Seq::<Seq<char>>::empty() =~= start);
    match claim {
        None => None,
        Some(text) => match IpAddr::parse(text.as_str()) {
            Some(address) => Some(address),
            None => {
                if !equal(text.as_str(), "LOCAL") && !equal(text.as_str(), "127.0.0.1") && !equal(
                    text.as_str(),
                    "::1",
                ) {
                    let chars = chars_of(text.as_str());
                    let shown = if chars.len() <= MAX_QUOTED_CHARS {
                        chars.as_slice()
                    } else {
                        head(chars.as_slice(), MAX_QUOTED_CHARS)
                    };
                    let plain = string_of(shown);
                    let mut line = owned("IpAddress ");
                    let form = quote(plain.as_str());
                    append(&mut line, form.as_str());
                    append(&mut line, " is not an address");
                    note(suspicious, line);
                    assert(texts(suspicious@) =~= start + address_notes(optional_text(*claim)));
                }
                None
            },
        },
    }
}

fn read_port(claim: &Option<String>) -> (port: Option<u16>)
    ensures
        port == claimed_port(optional_text(*claim)),
{
    match claim {
        None => None,
        Some(text) => {
            let chars = chars_of(text.as_str());
            match parse_number(chars.as_slice(), 10, 65_535) {
                None => None,
                Some(port) => if port == 0 {
                    None
                } else {
                    Some(port as u16)
                },
            }
        },
    }
}

fn append_labelled(message: &mut String, label: &str, value: Option<&str>)
    ensures
        final(message)@ == old(message)@ + labelled(
            label@,
            match value {
                Some(value) => Some(value@),
                None => None,
            },
        ),
{
    match value {
        Some(value) => {
            append(message, label);
            append(message, value);
            assert(message@ =~= old(message)@ + (label@ + value@));
        },
        None => {
            assert(message@ =~= old(message)@ + Seq::<char>::empty());
        },
    }
}

fn qualified(domain: &Option<String>, user: &Option<String>) -> (account: Option<String>)
    ensures
        optional_text(account) == account_of(optional_text(*domain), optional_text(*user)),
{
    match user {
        None => None,
        Some(user) => match domain {
            None => Some(user.clone()),
            Some(domain) => {
                let mut account = domain.clone();
                append(&mut account, "\\");
                append(&mut account, user.as_str());
                Some(account)
            },
        },
    }
}

fn lent(text: &Option<String>) -> (lent: Option<&str>)
    ensures
        match lent {
            Some(lent) => optional_text(*text) == Some(lent@),
            None => optional_text(*text) is None,
        },
{
    match text {
        Some(text) => Some(text.as_str()),
        None => None,
    }
}

/// Parse a rendered Security-log event into an [`AuthEvent`].
///
/// Returns `None` for events that are not logon decisions. Inventing an
/// authentication event from an unrelated record would be worse than ignoring
/// it.
pub fn parse_logon_event(xml: &str) -> (logon: Option<ParsedLogon>)
    ensures
        match logon {
            Some(logon) => logon_of(xml@) == Some(logon@),
            None => logon_of(xml@) is None,
        },
{
    let chars = chars_of(xml);
    let body = chars.as_slice();
    if fit(body, MAX_EVENT_BYTES).len() < body.len() {
        return None;
    }
    let id: u32 = match find_id(body) {
        Some(id) => id,
        None => return None,
    };
    let outcome = if id == EVENT_ID_LOGON_SUCCESS || id == EVENT_ID_EXPLICIT_CREDENTIALS {
        AuthOutcome::Success
    } else if id == EVENT_ID_LOGON_FAILURE {
        AuthOutcome::Failure
    } else {
        return None;
    };
    let mut suspicious: Vec<String> = Vec::new();
    // `TargetUserName` is the account somebody tried to log in *as*. Where the
    // event has both, `SubjectUserName` is the account that initiated the
    // attempt: a different question, and not the one this event answers.
    let user = meaningful(body, "TargetUserName", &mut suspicious);
    let domain = meaningful(body, "TargetDomainName", &mut suspicious);
    let workstation = meaningful(body, "WorkstationName", &mut suspicious);
    let kind = meaningful(body, "LogonType", &mut suspicious);
    let logon_type = read_logon_type(&kind);
    let claim = meaningful(body, "IpAddress", &mut suspicious);
    let source_address = read_address(&claim, &mut suspicious);
    let port = meaningful(body, "IpPort", &mut suspicious);
    let source_port = read_port(&port);
    let mut message = owned(
        match outcome {
            AuthOutcome::Success => "successful",
            AuthOutcome::Failure => "failed",
        },
    );
    append(&mut message, " logon (event ");
    append_number(&mut message, id as u64);
    append(&mut message, ")");
    append_labelled(
        &mut message,
        ", type ",
        match logon_type {
            Some(kind) => Some(kind.as_str()),
            None => None,
        },
    );
    let account = qualified(&domain, &user);
    append_labelled(&mut message, ", account ", lent(&account));
    append_labelled(&mut message, ", from workstation ", lent(&workstation));
    let ghost before = texts(suspicious@);
    let status = if id == EVENT_ID_LOGON_FAILURE {
        meaningful(body, "Status", &mut suspicious)
    } else {
        assert(before + Seq::<Seq<char>>::empty() =~= before);
        None
    };
    append_labelled(&mut message, ", status ", lent(&status));
    let service = match meaningful(body, "LogonProcessName", &mut suspicious) {
        Some(service) => service,
        None => owned("Security"),
    };
    assert(texts(suspicious@) =~= notes_of(xml@, id));
    Some(
        ParsedLogon {
            event: AuthEvent {
                outcome,
                user,
                // The logon process is the closest analogue to sshd or sudo.
                service: Some(service),
                source_address,
                source_port,
                message,
                log_source: owned("windows-security"),
                suspicious,
            },
            logon_type,
            event_id: id,
        },
    )
}

// ---------------------------------------------------------------------------
// laws
// ---------------------------------------------------------------------------

/// No control character reaches an event through a field, and no field is longer
/// than the longest value that is kept.
pub proof fn law_field_values_are_bounded_and_clean(xml: Seq<char>, name: Seq<char>)
    ensures
        field_value(xml, name) matches Some(value) ==> {
            &&& 0 < value.len() <= MAX_FIELD_CHARS
            &&& forall|i: int| 0 <= i < value.len() ==> !is_control(#[trigger] value[i])
        },
{
    if let Some(value) = field_value(xml, name) {
        let plain = entities_decoded(data_of(xml, name)[0]);
        assert forall|i: int| 0 <= i < value.len() implies !is_control(#[trigger] value[i]) by {
            assert(value[i] == if is_control(plain[i]) {
                '.'
            } else {
                plain[i]
            });
            assert(!is_control('.'));
        }
    }
}

/// A field that is given more than once is refused and flagged, whichever of its
/// values comes first: nothing that was injected becomes a field.
pub proof fn law_a_repeated_field_is_refused(xml: Seq<char>, name: Seq<char>)
    requires
        data_of(xml, name).len() > 1,
    ensures
        field_value(xml, name) is None,
        field_notes(xml, name).len() == 1,
{
}

/// A source address is only ever one that its field spells as an address, and
/// that field is given once.
pub proof fn law_a_source_address_is_never_invented(xml: Seq<char>)
    ensures
        logon_of(xml) matches Some(logon) ==> logon.event.source_address is Some ==> {
            &&& data_of(xml, "IpAddress"@).len() == 1
            &&& logon.event.source_address == address_value(
                field_value(xml, "IpAddress"@)->0,
            )
        },
{
}

/// What the numbers of logon types and of logon events stand for.
pub proof fn law_event_numbers_mean_what_they_say(code: u32)
    ensures
        code == 2 <==> LogonType::of_code(code) == LogonType::Interactive,
        code == 3 <==> LogonType::of_code(code) == LogonType::Network,
        code == 4 <==> LogonType::of_code(code) == LogonType::Batch,
        code == 5 <==> LogonType::of_code(code) == LogonType::Service,
        code == 7 <==> LogonType::of_code(code) == LogonType::Unlock,
        code == 8 <==> LogonType::of_code(code) == LogonType::NetworkCleartext,
        code == 9 <==> LogonType::of_code(code) == LogonType::NewCredentials,
        code == 10 <==> LogonType::of_code(code) == LogonType::RemoteInteractive,
        code == 11 <==> LogonType::of_code(code) == LogonType::CachedInteractive,
        LogonType::of_code(code) matches LogonType::Other(other) ==> other == code,
        code == 4_624 || code == 4_648 <==> outcome_of(code) == Some(AuthOutcome::Success),
        code == 4_625 <==> outcome_of(code) == Some(AuthOutcome::Failure),
        code != 4_624 && code != 4_625 && code != 4_648 ==> outcome_of(code) is None,
        LogonType::Interactive.name() == "interactive"@,
        LogonType::Network.name() == "network"@,
        LogonType::Batch.name() == "batch"@,
        LogonType::Service.name() == "service"@,
        LogonType::Unlock.name() == "unlock"@,
        LogonType::NetworkCleartext.name() == "network-cleartext"@,
        LogonType::NewCredentials.name() == "new-credentials"@,
        LogonType::RemoteInteractive.name() == "remote-interactive"@,
        LogonType::CachedInteractive.name() == "cached-interactive"@,
{
}

/// Whether a character is not in a text.
pub open spec fn lacks(text: Seq<char>, c: char) -> bool {
    forall|i: int| 0 <= i < text.len() ==> #[trigger] text[i] != c
}

proof fn lemma_nothing_to_replace(text: Seq<char>, from: Seq<char>, to: Seq<char>)
    requires
        from.len() > 0,
        lacks(text, from[0]),
    ensures
        replaced(text, from, to) == text,
{
    law_a_text_is_found_where_it_first_stands(text, from);
    if let Some(i) = first_text(text, from) {
        assert(text.subrange(i, i + from.len())[0] == text[i]);
    }
    law_replacing_changes_occurrences_only(text, from, to, seq![]);
}

proof fn lemma_other_entity(
    a: Seq<char>,
    word: Seq<char>,
    b: Seq<char>,
    from: Seq<char>,
    to: Seq<char>,
    k: int,
)
    requires
        lacks(a, '&'),
        lacks(b, '&'),
        word.len() > 0,
        from.len() > 0,
        from[0] == '&',
        forall|i: int| 0 < i < word.len() ==> #[trigger] word[i] != '&',
        0 < k < from.len(),
        k < word.len(),
        from[k] != word[k],
    ensures
        replaced(a + word + b, from, to) == a + word + b,
{
    let whole = a + word + b;
    law_a_text_is_found_where_it_first_stands(whole, from);
    if let Some(i) = first_text(whole, from) {
        let part = whole.subrange(i, i + from.len());
        assert(part[0] == whole[i]);
        assert(part[k] == whole[i + k]);
        if i < a.len() {
            assert(whole[i] == a[i]);
        } else if i >= a.len() + word.len() {
            assert(whole[i] == b[i - a.len() - word.len()]);
        } else {
            assert(whole[i] == word[i - a.len()]);
            assert(whole[i + k] == word[i + k - a.len()]);
        }
    }
    law_replacing_changes_occurrences_only(whole, from, to, seq![]);
}

proof fn lemma_this_entity(a: Seq<char>, word: Seq<char>, b: Seq<char>, to: Seq<char>)
    requires
        lacks(a, '&'),
        lacks(b, '&'),
        word.len() > 0,
        word[0] == '&',
    ensures
        replaced(a + word + b, word, to) == a + to + b,
{
    let whole = a + word + b;
    assert forall|i: int| 0 <= i < a.len() implies !begins(#[trigger] whole.skip(i), word) by {
        if begins(whole.skip(i), word) {
            assert(whole.skip(i).take(word.len() as int)[0] == whole[i]);
            assert(whole[i] == a[i]);
        }
    }
    law_replacing_changes_occurrences_only(a, word, to, b);
    lemma_nothing_to_replace(b, word, to);
}

proof fn lemma_plain(text: Seq<char>)
    requires
        lacks(text, '&'),
    ensures
        entities_decoded(text) == text,
{
    reveal_strlit("&lt;");
    reveal_strlit("&gt;");
    reveal_strlit("&quot;");
    reveal_strlit("&apos;");
    reveal_strlit("&amp;");
    lemma_nothing_to_replace(text, "&lt;"@, "<"@);
    lemma_nothing_to_replace(text, "&gt;"@, ">"@);
    lemma_nothing_to_replace(text, "&quot;"@, "\""@);
    lemma_nothing_to_replace(text, "&apos;"@, "'"@);
    lemma_nothing_to_replace(text, "&amp;"@, "&"@);
}

/// Each entity stands for its character, and a text without one for itself. What an
/// ampersand that was an entity gives is not decoded again.
pub proof fn law_entities_stand_for_their_characters(a: Seq<char>, b: Seq<char>)
    requires
        lacks(a, '&'),
        lacks(b, '&'),
    ensures
        entities_decoded(a) == a,
        entities_decoded(a + "&lt;"@ + b) == a + seq!['<'] + b,
        entities_decoded(a + "&gt;"@ + b) == a + seq!['>'] + b,
        entities_decoded(a + "&quot;"@ + b) == a + seq!['"'] + b,
        entities_decoded(a + "&apos;"@ + b) == a + seq!['\''] + b,
        entities_decoded(a + "&amp;"@ + b) == a + seq!['&'] + b,
{
    reveal_strlit("&lt;");
    reveal_strlit("&gt;");
    reveal_strlit("&quot;");
    reveal_strlit("&apos;");
    reveal_strlit("&amp;");
    reveal_strlit("<");
    reveal_strlit(">");
    reveal_strlit("\"");
    reveal_strlit("'");
    reveal_strlit("&");
    let lt = "&lt;"@;
    let gt = "&gt;"@;
    let quot = "&quot;"@;
    let apos = "&apos;"@;
    let amp = "&amp;"@;
    assert(lt =~= seq!['&', 'l', 't', ';']);
    assert(gt =~= seq!['&', 'g', 't', ';']);
    assert(quot =~= seq!['&', 'q', 'u', 'o', 't', ';']);
    assert(apos =~= seq!['&', 'a', 'p', 'o', 's', ';']);
    assert(amp =~= seq!['&', 'a', 'm', 'p', ';']);
    assert("<"@ =~= seq!['<']);
    assert(">"@ =~= seq!['>']);
    assert("\""@ =~= seq!['"']);
    assert("'"@ =~= seq!['\'']);
    assert("&"@ =~= seq!['&']);
    lemma_plain(a);
    lemma_this_entity(a, lt, b, "<"@);
    lemma_rest_untouched(a + "<"@ + b);
    lemma_other_entity(a, gt, b, lt, "<"@, 1);
    lemma_this_entity(a, gt, b, ">"@);
    lemma_rest_untouched(a + ">"@ + b);
    lemma_other_entity(a, quot, b, lt, "<"@, 1);
    lemma_other_entity(a, quot, b, gt, ">"@, 1);
    lemma_this_entity(a, quot, b, "\""@);
    lemma_rest_untouched(a + "\""@ + b);
    lemma_other_entity(a, apos, b, lt, "<"@, 1);
    lemma_other_entity(a, apos, b, gt, ">"@, 1);
    lemma_other_entity(a, apos, b, quot, "\""@, 1);
    lemma_this_entity(a, apos, b, "'"@);
    lemma_rest_untouched(a + "'"@ + b);
    lemma_other_entity(a, amp, b, lt, "<"@, 1);
    lemma_other_entity(a, amp, b, gt, ">"@, 1);
    lemma_other_entity(a, amp, b, quot, "\""@, 1);
    lemma_other_entity(a, amp, b, apos, "'"@, 2);
    lemma_this_entity(a, amp, b, "&"@);
}

proof fn lemma_rest_untouched(text: Seq<char>)
    requires
        lacks(text, '&'),
    ensures
        replaced(text, "&gt;"@, ">"@) == text,
        replaced(text, "&quot;"@, "\""@) == text,
        replaced(text, "&apos;"@, "'"@) == text,
        replaced(text, "&amp;"@, "&"@) == text,
{
    reveal_strlit("&gt;");
    reveal_strlit("&quot;");
    reveal_strlit("&apos;");
    reveal_strlit("&amp;");
    lemma_nothing_to_replace(text, "&gt;"@, ">"@);
    lemma_nothing_to_replace(text, "&quot;"@, "\""@);
    lemma_nothing_to_replace(text, "&apos;"@, "'"@);
    lemma_nothing_to_replace(text, "&amp;"@, "&"@);
}

proof fn lemma_found_behind(front: Seq<char>, wanted: Seq<char>, rest: Seq<char>)
    requires
        wanted.len() > 0,
        lacks(front, wanted[0]),
    ensures
        first_text(front + wanted + rest, wanted) == Some(front.len() as int),
{
    let whole = front + wanted + rest;
    let at = front.len() as int;
    assert(first_text(whole, wanted) is Some && first_text(whole, wanted)->0 <= at) by {
        assert(whole.subrange(at, at + wanted.len()) =~= wanted);
        law_a_text_is_found_where_it_first_stands(whole, wanted);
    }
    let i = first_text(whole, wanted)->0;
    assert(0 <= i && whole.subrange(i, i + wanted.len()) == wanted) by {
        law_a_text_is_found_where_it_first_stands(whole, wanted);
    }
    if i < at {
        assert(whole.subrange(i, i + wanted.len())[0] == whole[i]);
        assert(whole[i] == front[i]);
    }
}

/// The value of a field stands between its opening tag, which names it, and the next
/// closing tag; a document without tags has none.
pub proof fn law_a_field_stands_between_its_tags(
    front: Seq<char>,
    name: Seq<char>,
    value: Seq<char>,
    rest: Seq<char>,
)
    requires
        lacks(front, '<'),
        lacks(value, '<'),
    ensures
        data_of(front, name).len() == 0,
        data_of(front + opening_of(name) + value + "</Data>"@ + rest, name) == seq![value]
            + data_of("</Data>"@ + rest, name),
        opening_of(name) == "<Data Name=\""@ + name + "\">"@,
        lacks(rest, '<') ==> data_of(
            front + opening_of(name) + value + "</Data>"@ + rest,
            name,
        ) == seq![value],
{
    let opening = opening_of(name);
    let closing = "</Data>"@;
    reveal_strlit("<Data Name=\"");
    reveal_strlit("</Data>");
    assert("<Data Name=\""@[0] == '<' && "<Data Name=\""@[1] == 'D');
    assert(opening[0] == '<' && opening[1] == 'D');
    assert(closing[0] == '<' && closing[1] == '/');
    assert(closing.len() == 7);
    law_a_text_is_found_where_it_first_stands(front, opening);
    if let Some(i) = first_text(front, opening) {
        assert(front.subrange(i, i + opening.len())[0] == front[i]);
    }
    let behind = value + closing + rest;
    let xml = front + opening + value + closing + rest;
    assert(xml =~= front + opening + behind);
    lemma_found_behind(front, opening, behind);
    assert(xml.skip(front.len() as int + opening.len()) =~= behind);
    lemma_found_behind(value, closing, rest);
    assert(behind.take(value.len() as int) =~= value);
    assert(behind.skip(value.len() as int) =~= closing + rest);
    if lacks(rest, '<') {
        let tail = closing + rest;
        law_a_text_is_found_where_it_first_stands(tail, opening);
        if let Some(i) = first_text(tail, opening) {
            let part = tail.subrange(i, i + opening.len());
            assert(part[0] == tail[i]);
            assert(part[1] == tail[i + 1]);
            if i >= 7 {
                assert(tail[i] == rest[i - 7]);
            } else {
                assert(tail[i] == closing[i]);
                assert(closing =~= seq!['<', '/', 'D', 'a', 't', 'a', '>']);
            }
        }
        assert(seq![value] + Seq::<Seq<char>>::empty() =~= seq![value]);
    }
}

/// A field that is given once has the value that is written, decoded and cut clean; a
/// dash, like nothing, means none.
pub proof fn law_a_field_given_once_is_read(xml: Seq<char>, name: Seq<char>, value: Seq<char>)
    requires
        data_of(xml, name) == seq![value],
    ensures
        ({
            let clean = sanitised(entities_decoded(value), 256);
            &&& clean.len() == 0 || clean == seq!['-'] ==> meaning(xml, name) is None
            &&& clean.len() > 0 && clean != seq!['-'] ==> meaning(xml, name) == Some(clean)
        }),
{
    reveal_strlit("-");
    assert("-"@ =~= seq!['-']);
}

/// The event id is the number between the tags of its element.
#[verifier::spinoff_prover]
#[verifier::rlimit(80)]
pub proof fn law_the_event_id_stands_between_its_tags(front: Seq<char>, id: u32, rest: Seq<char>)
    requires
        lacks(front, '<'),
    ensures
        id_of(front) is None,
        id_of(front + "<EventID>"@ + decimal(id as nat) + "</EventID>"@ + rest) == Some(id),
{
    reveal_strlit("<EventID");
    reveal_strlit("<EventID>");
    reveal_strlit("</EventID>");
    let tag = "<EventID"@;
    let whole = "<EventID>"@;
    let closing = "</EventID>"@;
    let digits = decimal(id as nat);
    assert(whole =~= tag.push('>'));
    assert(tag =~= seq!['<', 'E', 'v', 'e', 'n', 't', 'I', 'D']);
    law_a_text_is_found_where_it_first_stands(front, tag);
    if let Some(i) = first_text(front, tag) {
        assert(front.subrange(i, i + tag.len())[0] == front[i]);
    }
    let xml = front + whole + digits + closing + rest;
    let behind = seq!['>'] + digits + closing + rest;
    assert(xml =~= front + tag + behind);
    lemma_found_behind(front, tag, behind);
    let after = xml.skip(front.len() as int);
    assert(after =~= tag + behind);
    lemma_first_of(after, '>');
    assert(after[8] == '>');
    assert forall|i: int| 0 <= i < 8 implies #[trigger] after[i] != '>' by {
        assert(after[i] == tag[i]);
    }
    assert(first_of(after, '>') == Some(8int));
    law_decimals_are_digits(id as nat);
    law_a_text_is_found_where_it_first_stands(after, closing);
    let close = 9 + digits.len() as int;
    assert(after.subrange(close, close + closing.len()) =~= closing);
    let found = first_text(after, closing)->0;
    assert(closing[0] == '<' && closing[1] == '/');
    if found < close {
        let part = after.subrange(found, found + closing.len());
        assert(part[0] == after[found] && part[1] == after[found + 1]);
        if found < 8 {
            assert(after[found] == tag[found]);
        } else if found > 8 {
            assert(after[found] == digits[found - 9]);
        }
    }
    assert(after.subrange(9, close) =~= digits);
    assert('0' <= digits[0] <= '9');
    assert('0' <= digits[digits.len() - 1] <= '9');
    lemma_solid(digits[0]);
    lemma_solid(digits[digits.len() - 1]);
    lemma_trimmed_already(digits);
    law_a_number_reads_back(id as nat, 10, u32::MAX as int);
}

proof fn lemma_solid(c: char)
    requires
        '0' <= c <= '9',
    ensures
        !is_space(c),
{
    law_what_separates_words(c);
}

/// A port is the number that is given, and zero is none. An account is named with its
/// domain, where there is one.
pub proof fn law_ports_and_accounts(port: u16, domain: Seq<char>, user: Seq<char>)
    ensures
        port > 0 ==> claimed_port(Some(decimal(port as nat))) == Some(port),
        claimed_port(Some(decimal(0))) is None,
        claimed_port(None) is None,
        account_of(Some(domain), Some(user)) == Some(domain + seq!['\\'] + user),
        account_of(None, Some(user)) == Some(user),
        account_of(Some(domain), None) is None,
{
    reveal_strlit("\\");
    assert("\\"@ =~= seq!['\\']);
    law_a_number_reads_back(port as nat, 10, 65_535);
    law_a_number_reads_back(0, 10, 65_535);
}

/// A logon is read field by field, and only from a decision on a logon that is not too
/// large: the account is that of the target, not of the caller.
pub proof fn law_a_logon_is_read_by_field(xml: Seq<char>)
    ensures
        logon_of(xml) is Some <==> byte_len(xml) <= 65_536 && id_of(xml) is Some && outcome_of(
            id_of(xml)->0,
        ) is Some,
        logon_of(xml) matches Some(logon) ==> {
            &&& id_of(xml) == Some(logon.event_id)
            &&& outcome_of(logon.event_id) == Some(logon.event.outcome)
            &&& logon.event.user == meaning(xml, "TargetUserName"@)
            &&& logon.event.service == if meaning(xml, "LogonProcessName"@) is Some {
                meaning(xml, "LogonProcessName"@)
            } else {
                Some("Security"@)
            }
            &&& logon.event.source_address == claimed_address(meaning(xml, "IpAddress"@))
            &&& logon.event.source_port == claimed_port(meaning(xml, "IpPort"@))
            &&& logon.event.log_source == "windows-security"@
        },
{
}

/// The type of a logon is the number in its field.
pub proof fn law_the_logon_type_is_a_number(xml: Seq<char>, code: u32)
    ensures
        meaning(xml, "LogonType"@) == Some(decimal(code as nat)) ==> logon_type_of(xml) == Some(
            LogonType::of_code(code),
        ),
        meaning(xml, "LogonType"@) is None ==> logon_type_of(xml) is None,
{
    law_a_number_reads_back(code as nat, 10, u32::MAX as int);
}

/// A claimed address that does not parse is flagged, unless it is what Windows writes for
/// a local logon; nothing else about it is.
pub proof fn law_claims_that_are_no_addresses_are_flagged(claim: Seq<char>)
    ensures
        address_notes(None).len() == 0,
        address_notes(Some(claim)).len() == 0 <==> address_value(claim) is Some || claim
            == "LOCAL"@ || claim == "127.0.0.1"@ || claim == "::1"@,
        address_notes(Some(claim)).len() <= 1,
{
}

} // verus!
