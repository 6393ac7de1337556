//! Authentication log parsing.
//!
//! Two sources, one output. journald is preferred because its records are
//! **structured**: the service name and pid are fields the kernel and systemd
//! put there, not text a login prompt can influence. A plain syslog file is
//! supported too, because plenty of systems still have one.
//!
//! A username is whatever somebody typed at a login prompt, and it lands in the
//! log verbatim, so any part of a message may be hostile:
//!
//! * **Fields are extracted positionally and validated, never scavenged.** A
//!   username is one whitespace-delimited token. Somebody logging in as
//!   `admin from 10.0.0.1 port 22` does not get to choose the `source_address`
//!   of the event they generate.
//! * **What cannot be a real value is flagged, not dropped.** A username holding
//!   control characters is recorded, marked in [`AuthEvent::suspicious`], and
//!   truncated. Dropping it would hide the attempt; trusting it would launder a
//!   forgery.
//! * **Control characters are stripped from the message.** Event logs get shown
//!   in terminals.
//! * **Lengths are bounded.** A megabyte-long username must not become a
//!   megabyte-long event.
//!
//! One ambiguity is **not** solvable at this layer: sshd writes
//! `for invalid user bob` for an account that does not exist and `for bob` for
//! one that does, so somebody who logs in as the literal string
//! `invalid user root` produces a line indistinguishable from a failed attempt
//! against `root`. journald carries the account as a field, which is why it is
//! the preferred source.

use serde_json::Value;
use vstd::prelude::*;
use crate::address::address_value;
use crate::bytes::{decode_utf8, utf8_text};
use crate::net::IpAddr;
use crate::text::{
    append, begins, byte_len, chars_of, control, first_of, first_text, find, find_str, fit, fitting,
    head, is_alphanumeric, is_control, law_a_text_is_found_where_it_first_stands, lemma_first_of,
    lowercase, lowered, number, optional_text, owned, parse_number,
    quote, quoted, spells, split_words, starts_with, string_of, tail, texts,
    views, words,
};
use super::event::{AuthEvent, AuthModel, AuthOutcome};
use super::json::{json_held, json_of, member, read_json, Json};

verus! {

/// Longest field value kept.
pub const MAX_FIELD: usize = 256;

/// Longest message kept.
pub const MAX_MESSAGE: usize = 2_048;

/// Longest log line considered at all.
pub const MAX_LINE: usize = 16 * 1_024;

/// Longest account name that is plausible, and longest one kept.
pub const MAX_USER: usize = 64;

// ---------------------------------------------------------------------------
// cleaning
// ---------------------------------------------------------------------------

/// A text without control characters.
pub open spec fn dotted(text: Seq<char>) -> Seq<char> {
    text.map_values(
        |c: char|
            if is_control(c) {
                '.'
            } else {
                c
            },
    )
}

/// A text that is safe to put in an event: without control characters, and cut
/// off before the character that would pass the limit in bytes.
pub open spec fn cleaned(text: Seq<char>, limit: nat) -> Seq<char> {
    fitting(dotted(text), limit)
}

/// Turn a text into something safe to put in an event, and say whether anything
/// changed.
///
/// Control characters become `.`, so a crafted log line cannot smuggle escape
/// sequences, newlines, or NULs into the event stream.
fn sanitise(text: &[char], limit: usize) -> (result: (Vec<char>, bool))
    ensures
        result.0@ == cleaned(text@, limit as nat),
        result.1 == (cleaned(text@, limit as nat) != text@),
{
    let mut clean: Vec<char> = Vec::new();
    let mut changed: bool = false;
    let mut i: usize = 0;
    while i < text.len()
        invariant
            i <= text@.len(),
            clean@ == dotted(text@).take(i as int),
            changed == exists|j: int| 0 <= j < i && is_control(#[trigger] text@[j]),
        decreases text@.len() - i,
    {
        let c = if control(text[i]) {
            changed = true;
            assert(is_control(text@[i as int]));
            '.'
        } else {
            text[i]
        };
        clean.push(c);
        i = i + 1;
        assert(clean@ =~= dotted(text@).take(i as int));
    }
    assert(clean@ =~= dotted(text@));
    let kept: usize = fit(clean.as_slice(), limit).len();
    proof {
        lemma_fitting_start(clean@, limit as nat);
        if kept == text@.len() {
            assert(!is_control('.'));
            if changed {
                let j = choose|j: int| 0 <= j < text@.len() && is_control(#[trigger] text@[j]);
                assert(cleaned(text@, limit as nat)[j] == '.');
            } else {
                assert(cleaned(text@, limit as nat) =~= text@);
            }
        }
    }
    if kept < text.len() {
        changed = true;
    }
    clean.truncate(kept);
    assert(clean@ =~= cleaned(text@, limit as nat));
    (clean, changed)
}

/// At most so many characters of a text.
pub open spec fn clipped(text: Seq<char>, limit: nat) -> Seq<char> {
    if text.len() <= limit {
        text
    } else {
        text.take(limit as int)
    }
}

/// Take at most `limit` **characters**.
///
/// A byte offset might fall inside a character, and the strings here come from
/// outside.
fn clip(text: &[char], limit: usize) -> (short: String)
    ensures
        short@ == clipped(text@, limit as nat),
{
    if text.len() <= limit {
        string_of(text)
    } else {
        string_of(head(text, limit))
    }
}

/// A character of a plausible account name.
pub open spec fn is_name_char(c: char) -> bool {
    is_alphanumeric(c) || c == '.' || c == '_' || c == '-' || c == '$' || c == '@' || c == '\\' || c
        == '/'
}

/// Whether a token could be a real account name: deliberately generous, since
/// local conventions vary, but without the white space and control characters
/// that a forged extra field needs.
pub open spec fn is_plausible(token: Seq<char>) -> bool {
    0 < token.len() <= MAX_USER && forall|i: int|
        0 <= i < token.len() ==> is_name_char(#[trigger] token[i])
}

fn plausible_username(token: &[char]) -> (yes: bool)
    ensures
        yes == is_plausible(token@),
{
    if token.len() == 0 || token.len() > MAX_USER {
        return false;
    }
    let mut i: usize = 0;
    while i < token.len()
        invariant
            0 < token@.len() <= MAX_USER,
            i <= token@.len(),
            forall|j: int| 0 <= j < i ==> is_name_char(#[trigger] token@[j]),
        decreases token@.len() - i,
    {
        let c = token[i];
        if !crate::text::alphanumeric(c) && c != '.' && c != '_' && c != '-' && c != '$' && c != '@'
            && c != '\\' && c != '/' {
            assert(!is_name_char(token@[i as int]));
            return false;
        }
        i = i + 1;
    }
    true
}

// ---------------------------------------------------------------------------
// messages
// ---------------------------------------------------------------------------

/// How the attempt that a message reports ended; none where the message is not
/// about an authentication decision.
pub open spec fn outcome_of(clean: Seq<char>) -> Option<AuthOutcome> {
    let lower = lowered(clean);
    if begins(lower, "failed password"@) || begins(lower, "failed publickey"@) || first_text(
        lower,
        "authentication failure"@,
    ) is Some || begins(lower, "invalid user"@) || begins(lower, "failed none"@) {
        Some(AuthOutcome::Failure)
    } else if begins(lower, "accepted password"@) || begins(lower, "accepted publickey"@) || begins(
        lower,
        "session opened for user"@,
    ) {
        Some(AuthOutcome::Success)
    } else {
        None
    }
}

fn read_outcome(clean: &[char]) -> (outcome: Option<AuthOutcome>)
    ensures
        outcome == outcome_of(clean@),
{
    let lower_chars = lowercase(clean);
    let lower = lower_chars.as_slice();
    if starts_with(lower, "failed password") || starts_with(lower, "failed publickey") || find_str(
        lower,
        "authentication failure",
    ).is_some() || starts_with(lower, "invalid user") || starts_with(lower, "failed none") {
        Some(AuthOutcome::Failure)
    } else if starts_with(lower, "accepted password") || starts_with(lower, "accepted publickey")
        || starts_with(lower, "session opened for user") {
        Some(AuthOutcome::Success)
    } else {
        None
    }
}

/// Where a word stands first among tokens, from a place on.
pub open spec fn place_from(tokens: Seq<Seq<char>>, word: Seq<char>, i: int) -> Option<int>
    decreases tokens.len() - i,
{
    if i < 0 || i >= tokens.len() {
        None
    } else if tokens[i] == word {
        Some(i)
    } else {
        place_from(tokens, word, i + 1)
    }
}

/// Where a word stands first among tokens.
pub open spec fn place_of(tokens: Seq<Seq<char>>, word: Seq<char>) -> Option<int> {
    place_from(tokens, word, 0)
}

fn find_word(tokens: &Vec<&[char]>, word: &str) -> (place: Option<usize>)
    ensures
        place is Some <==> place_of(views(tokens@), word@) is Some,
        place matches Some(i) ==> place_of(views(tokens@), word@) == Some(i as int) && i
            < tokens@.len(),
{
    let ghost all = views(tokens@);
    let mut i: usize = 0;
    while i < tokens.len()
        invariant
            all == views(tokens@),
            i <= all.len(),
            place_from(all, word@, i as int) == place_of(all, word@),
        decreases all.len() - i,
    {
        assert(all[i as int] == tokens@[i as int]@);
        if spells(tokens[i], word) {
            return Some(i);
        }
        i = i + 1;
    }
    None
}

/// What stands behind `user=` in the first token that has it, from a place on.
pub open spec fn assigned_from(tokens: Seq<Seq<char>>, i: int) -> Option<Seq<char>>
    decreases tokens.len() - i,
{
    if i < 0 || i >= tokens.len() {
        None
    } else if begins(tokens[i], "user="@) {
        Some(tokens[i].skip("user="@.len() as int))
    } else {
        assigned_from(tokens, i + 1)
    }
}

/// The place behind the words `invalid` and `user`, from a place on.
pub open spec fn behind_from(tokens: Seq<Seq<char>>, i: int) -> int
    decreases tokens.len() - i,
{
    if 0 <= i < tokens.len() && (tokens[i] == "invalid"@ || tokens[i] == "user"@) {
        behind_from(tokens, i + 1)
    } else {
        i
    }
}

/// The token behind `for`, with `invalid` and `user` skipped.
pub open spec fn behind_for(tokens: Seq<Seq<char>>) -> Option<Seq<char>> {
    match place_of(tokens, "for"@) {
        None => None,
        Some(i) => {
            let j = behind_from(tokens, i + 1);
            if 0 <= j < tokens.len() {
                Some(tokens[j])
            } else {
                None
            }
        },
    }
}

/// The token behind `user`.
pub open spec fn behind_user(tokens: Seq<Seq<char>>) -> Option<Seq<char>> {
    match place_of(tokens, "user"@) {
        None => None,
        Some(i) => if i + 1 < tokens.len() {
            Some(tokens[i + 1])
        } else {
            None
        },
    }
}

/// The token that stands where an account name does. Three shapes are
/// recognised, most specific first:
///
/// * `user=root`, the `key=value` form, which is unambiguous;
/// * `for [invalid] [user] NAME`, with the optional words skipped;
/// * `user NAME`, anything else that names the field.
pub open spec fn candidate_of(tokens: Seq<Seq<char>>) -> Option<Seq<char>> {
    match assigned_from(tokens, 0) {
        Some(token) => Some(token),
        None => match behind_for(tokens) {
            Some(token) => Some(token),
            None => behind_user(tokens),
        },
    }
}

/// The account name of a message.
pub open spec fn user_of(tokens: Seq<Seq<char>>) -> Option<Seq<char>> {
    match candidate_of(tokens) {
        None => None,
        Some(token) => Some(
            if is_plausible(token) {
                token
            } else {
                cleaned(token, MAX_USER as nat)
            },
        ),
    }
}

/// What is suspicious about the account name of a message.
pub open spec fn user_notes(tokens: Seq<Seq<char>>) -> Seq<Seq<char>> {
    match candidate_of(tokens) {
        Some(token) => if is_plausible(token) {
            seq![]
        } else {
            seq![
                "user token "@ + quoted(clipped(token, 32))
                    + " is not a plausible account name"@,
            ]
        },
        None => seq![],
    }
}

fn find_assigned<'a>(tokens: &Vec<&'a [char]>) -> (token: Option<&'a [char]>)
    ensures
        match token {
            Some(token) => assigned_from(views(tokens@), 0) == Some(token@),
            None => assigned_from(views(tokens@), 0) is None,
        },
{
    let ghost all = views(tokens@);
    proof {
        reveal_strlit("user=");
        assert("user="@.len() == 5);
    }
    let mut i: usize = 0;
    while i < tokens.len()
        invariant
            all == views(tokens@),
            "user="@.len() == 5,
            i <= all.len(),
            assigned_from(all, i as int) == assigned_from(all, 0),
        decreases all.len() - i,
    {
        assert(all[i as int] == tokens@[i as int]@);
        if starts_with(tokens[i], "user=") {
            return Some(tail(tokens[i], 5));
        }
        i = i + 1;
    }
    None
}

fn find_candidate<'a>(tokens: &Vec<&'a [char]>) -> (token: Option<&'a [char]>)
    ensures
        match token {
            Some(token) => candidate_of(views(tokens@)) == Some(token@),
            None => candidate_of(views(tokens@)) is None,
        },
{
    let ghost all = views(tokens@);
    assert(forall|j: int| 0 <= j < all.len() ==> #[trigger] all[j] == tokens@[j]@);
    if let Some(token) = find_assigned(tokens) {
        return Some(token);
    }
    if let Some(place) = find_word(tokens, "for") {
        assert(place < tokens.len());
        let mut i: usize = place + 1;
        while i < tokens.len() && (spells(tokens[i], "invalid") || spells(tokens[i], "user"))
            invariant
                all == views(tokens@),
                forall|j: int| 0 <= j < all.len() ==> #[trigger] all[j] == tokens@[j]@,
                place < i <= all.len(),
                behind_from(all, i as int) == behind_from(all, place + 1),
            decreases all.len() - i,
        {
            assert(all[i as int] == tokens@[i as int]@);
            i = i + 1;
        }
        if i < tokens.len() {
            assert(all[i as int] == tokens@[i as int]@);
            return Some(tokens[i]);
        }
    }
    match find_word(tokens, "user") {
        Some(place) => if tokens.len() - place > 1 {
            Some(tokens[place + 1])
        } else {
            None
        },
        None => None,
    }
}

fn note(suspicious: &mut Vec<String>, text: String)
    ensures
        texts(final(suspicious)@) == texts(old(suspicious)@).push(text@),
{
    let ghost before = suspicious@;
    suspicious.push(text);
    assert(texts(suspicious@) =~= texts(before).push(text@));
}

/// Pull the account name out of a tokenised message.
///
/// Only ever takes **one** token, and only from the position the format puts it
/// in. That is what stops a login as `admin from 10.0.0.1` from rewriting the
/// rest of the event.
fn extract_user(tokens: &Vec<&[char]>, suspicious: &mut Vec<String>) -> (user: Option<String>)
    ensures
        optional_text(user) == user_of(views(tokens@)),
        texts(final(suspicious)@) == texts(old(suspicious)@) + user_notes(views(tokens@)),
{
    let ghost start = texts(suspicious@);
    assert(start + Seq::<Seq<char>>::empty() =~= start);
    let candidate = match find_candidate(tokens) {
        Some(candidate) => candidate,
        None => return None,
    };
    if plausible_username(candidate) {
        return Some(string_of(candidate));
    }
    // Not a name any account could have. Recorded anyway, since hiding the
    // attempt would be worse, but marked, so nothing downstream treats it as
    // real.
    let short = clip(candidate, 32);
    let form = quote(short.as_str());
    let mut line = owned("user token ");
    append(&mut line, form.as_str());
    append(&mut line, " is not a plausible account name");
    note(suspicious, line);
    assert(texts(suspicious@) =~= start + user_notes(views(tokens@)));
    let (clean, _) = sanitise(candidate, MAX_USER);
    Some(string_of(clean.as_slice()))
}

/// Whether the token at a place is a `from` with an address behind it.
pub open spec fn gives_source(tokens: Seq<Seq<char>>, i: int) -> bool {
    &&& 0 <= i < tokens.len() - 1
    &&& tokens[i] == "from"@
    &&& address_value(tokens[i + 1]) is Some
}

/// The last of the first so many places at which a `from` has an address behind it.
pub open spec fn source_place_in(tokens: Seq<Seq<char>>, places: int) -> Option<int>
    decreases places,
{
    if places <= 0 {
        None
    } else if gives_source(tokens, places - 1) {
        Some(places - 1)
    } else {
        source_place_in(tokens, places - 1)
    }
}

/// Where a message gives its source: at the last `from` with an address behind it. A
/// service puts the source behind whatever somebody typed, so what was typed before
/// it cannot stand there.
pub open spec fn source_place(tokens: Seq<Seq<char>>) -> Option<int> {
    source_place_in(tokens, tokens.len() as int)
}

fn find_source(tokens: &Vec<&[char]>) -> (found: Option<(usize, IpAddr)>)
    ensures
        match found {
            Some((i, address)) => source_place(views(tokens@)) == Some(i as int) && i + 1
                < tokens@.len() && address_value(tokens@[i + 1]@) == Some(address),
            None => source_place(views(tokens@)) is None,
        },
{
    let ghost all = views(tokens@);
    let mut left: usize = tokens.len();
    assert(forall|j: int| 0 <= j < all.len() ==> #[trigger] all[j] == tokens@[j]@);
    while left > 0
        invariant
            all == views(tokens@),
            forall|j: int| 0 <= j < all.len() ==> #[trigger] all[j] == tokens@[j]@,
            left <= all.len(),
            source_place_in(all, left as int) == source_place(all),
        decreases left,
    {
        let i: usize = left - 1;
        assert(all[i as int] == tokens@[i as int]@);
        if tokens.len() - i > 1 && spells(tokens[i], "from") {
            assert(all[i + 1] == tokens@[i + 1]@);
            if let Some(address) = IpAddr::from_chars(tokens[i + 1]) {
                return Some((i, address));
            }
        }
        left = i;
    }
    None
}

/// The token that a message offers as its source: the one behind its first `from`.
pub open spec fn source_token(tokens: Seq<Seq<char>>) -> Option<Seq<char>> {
    match place_of(tokens, "from"@) {
        None => None,
        Some(i) => if i + 1 < tokens.len() {
            Some(tokens[i + 1])
        } else {
            None
        },
    }
}

/// The source address of a message.
pub open spec fn source_of(tokens: Seq<Seq<char>>) -> Option<IpAddr> {
    match source_place(tokens) {
        None => None,
        Some(i) => address_value(tokens[i + 1]),
    }
}

/// The source port of a message: what stands behind `port` behind the address.
pub open spec fn port_of(tokens: Seq<Seq<char>>) -> Option<u16> {
    match source_place(tokens) {
        None => None,
        Some(i) => if i + 3 < tokens.len() && tokens[i + 2] == "port"@ {
            match number(tokens[i + 3], 10, 65_535) {
                Some(port) => Some(port as u16),
                None => None,
            }
        } else {
            None
        },
    }
}

/// What is suspicious about the source of a message: that it offers one, and none
/// that is an address.
pub open spec fn source_notes(tokens: Seq<Seq<char>>) -> Seq<Seq<char>> {
    match source_token(tokens) {
        None => seq![],
        Some(token) => if source_place(tokens) is Some {
            seq![]
        } else {
            seq!["source token "@ + quoted(clipped(token, 48)) + " is not an address"@]
        },
    }
}

/// Pull the source address and port out of a tokenised message.
///
/// Both must parse as what they claim to be. A message saying
/// `from somewhere-else` yields no address rather than a made-up one.
fn extract_source(tokens: &Vec<&[char]>, suspicious: &mut Vec<String>) -> (source: (
    Option<IpAddr>,
    Option<u16>,
))
    ensures
        source.0 == source_of(views(tokens@)),
        source.1 == port_of(views(tokens@)),
        texts(final(suspicious)@) == texts(old(suspicious)@) + source_notes(views(tokens@)),
{
    let ghost all = views(tokens@);
    let ghost start = texts(suspicious@);
    assert(start + Seq::<Seq<char>>::empty() =~= start);
    assert(forall|j: int| 0 <= j < all.len() ==> #[trigger] all[j] == tokens@[j]@);
    if let Some((place, address)) = find_source(tokens) {
        let port = if tokens.len() - place > 3 && spells(tokens[place + 2], "port") {
            match parse_number(tokens[place + 3], 10, 65_535) {
                Some(port) => Some(port as u16),
                None => None,
            }
        } else {
            None
        };
        return (Some(address), port);
    }
    if let Some(place) = find_word(tokens, "from") {
        if tokens.len() - place > 1 {
            let short = clip(tokens[place + 1], 48);
            let form = quote(short.as_str());
            let mut line = owned("source token ");
            append(&mut line, form.as_str());
            append(&mut line, " is not an address");
            note(suspicious, line);
            assert(texts(suspicious@) =~= start + source_notes(views(tokens@)));
        }
    }
    (None, None)
}

/// The event that a message reports.
pub open spec fn auth_of(
    message: Seq<char>,
    service: Option<Seq<char>>,
    log_source: Seq<char>,
) -> Option<AuthModel> {
    let clean = cleaned(message, MAX_MESSAGE as nat);
    let tokens = words(clean);
    match outcome_of(clean) {
        None => None,
        Some(outcome) => Some(
            AuthModel {
                outcome,
                user: user_of(tokens),
                service: match service {
                    Some(service) => Some(cleaned(service, MAX_FIELD as nat)),
                    None => None,
                },
                source_address: source_of(tokens),
                source_port: port_of(tokens),
                message: clean,
                log_source,
                suspicious: (if clean != message {
                    seq!["message contained control characters or was truncated"@]
                } else {
                    seq![]
                }) + user_notes(tokens) + source_notes(tokens),
            },
        ),
    }
}

/// A parsed authentication record, before the sensor stamps it.
#[derive(Debug, Clone, PartialEq, Eq)]
pub struct ParsedAuth {
    /// The normalized event.
    pub event: AuthEvent,
}

/// What a parsed record says.
pub open spec fn parsed_model(parsed: Option<ParsedAuth>) -> Option<AuthModel> {
    match parsed {
        Some(parsed) => Some(parsed.event@),
        None => None,
    }
}

/// What lent text holds.
pub open spec fn lent_text(text: Option<&str>) -> Option<Seq<char>> {
    match text {
        Some(text) => Some(text@),
        None => None,
    }
}

/// Parse the message body of an authentication log record.
///
/// The service and log source are supplied by the caller, because for journald
/// they are structured fields rather than anything the message can claim.
pub fn parse_auth_message(message: &str, service: Option<&str>, log_source: &str) -> (parsed:
    Option<ParsedAuth>)
    ensures
        parsed_model(parsed) == auth_of(message@, lent_text(service), log_source@),
{
    let chars = chars_of(message);
    let (clean, changed) = sanitise(chars.as_slice(), MAX_MESSAGE);
    // Outcome first: a record that is not about an authentication decision is not
    // an authentication event, and inventing one would be worse than ignoring it.
    let outcome = match read_outcome(clean.as_slice()) {
        Some(outcome) => outcome,
        None => return None,
    };
    let mut suspicious: Vec<String> = Vec::new();
    let ghost none = texts(suspicious@);
    assert(none =~= seq![]);
    if changed {
        note(&mut suspicious, owned("message contained control characters or was truncated"));
    }
    assert(texts(suspicious@) =~= if changed {
        seq!["message contained control characters or was truncated"@]
    } else {
        seq![]
    });
    let tokens = split_words(clean.as_slice());
    let user = extract_user(&tokens, &mut suspicious);
    let (source_address, source_port) = extract_source(&tokens, &mut suspicious);
    let service = match service {
        Some(service) => {
            let chars = chars_of(service);
            let (clean, _) = sanitise(chars.as_slice(), MAX_FIELD);
            Some(string_of(clean.as_slice()))
        },
        None => None,
    };
    Some(
        ParsedAuth {
            event: AuthEvent {
                outcome,
                user,
                service,
                source_address,
                source_port,
                message: string_of(clean.as_slice()),
                log_source: owned(log_source),
                suspicious,
            },
        },
    )
}

// ---------------------------------------------------------------------------
// syslog lines
// ---------------------------------------------------------------------------

/// A space or a tab.
pub open spec fn is_gap(c: char) -> bool {
    c == ' ' || c == '\t'
}

/// A text without the spaces and tabs at its start.
pub open spec fn without_gap(text: Seq<char>) -> Seq<char>
    decreases text.len(),
{
    if text.len() > 0 && is_gap(text[0]) {
        without_gap(text.skip(1))
    } else {
        text
    }
}

/// How long the token at the start of a text is.
pub open spec fn token_len(text: Seq<char>) -> nat
    decreases text.len(),
{
    if text.len() == 0 || is_gap(text[0]) {
        0
    } else {
        1 + token_len(text.skip(1))
    }
}

/// The next token of a text, and what stands behind it and the gap after it.
pub open spec fn token_of(text: Seq<char>) -> Option<(Seq<char>, Seq<char>)> {
    let body = without_gap(text);
    if body.len() == 0 {
        None
    } else {
        Some(
            (
                body.take(token_len(body) as int),
                without_gap(body.skip(token_len(body) as int)),
            ),
        )
    }
}

/// A text without the colons at its end.
pub open spec fn without_colons(text: Seq<char>) -> Seq<char>
    decreases text.len(),
{
    if text.len() > 0 && text.last() == ':' {
        without_colons(text.drop_last())
    } else {
        text
    }
}

/// The service that a tag names: what comes before the bracket or colon.
pub open spec fn service_of(tag: Seq<char>) -> Seq<char> {
    let bare = without_colons(tag);
    match first_of(bare, '[') {
        Some(i) => bare.take(i),
        None => bare,
    }
}

/// Whether a text has characters, all of them visible ASCII.
pub open spec fn is_graphic(text: Seq<char>) -> bool {
    text.len() > 0 && forall|i: int|
        0 <= i < text.len() ==> 0x21 <= (#[trigger] text[i]) as u32 <= 0x7e
}

/// What is behind so many tokens of a line.
pub open spec fn behind_tokens(line: Seq<char>, count: nat) -> Option<Seq<char>>
    decreases count,
{
    if count == 0 {
        Some(line)
    } else {
        match behind_tokens(line, (count - 1) as nat) {
            None => None,
            Some(rest) => match token_of(rest) {
                None => None,
                Some((_, after)) => Some(after),
            },
        }
    }
}

/// The event of a line `MMM DD HH:MM:SS host service[pid]: message`.
pub open spec fn syslog_of(line: Seq<char>, log_source: Seq<char>) -> Option<AuthModel> {
    if byte_len(line) > MAX_LINE {
        None
    } else {
        match behind_tokens(line, 4) {
            None => None,
            Some(rest) => match token_of(rest) {
                None => None,
                Some((tag, message)) => if is_graphic(service_of(tag)) {
                    auth_of(message, Some(service_of(tag)), log_source)
                } else {
                    None
                },
            },
        }
    }
}

fn skip_gap(text: &[char]) -> (rest: &[char])
    ensures
        rest@ == without_gap(text@),
{
    let mut rest = text;
    while rest.len() > 0 && (rest[0] == ' ' || rest[0] == '\t')
        invariant
            without_gap(rest@) == without_gap(text@),
        decreases rest@.len(),
    {
        rest = tail(rest, 1);
    }
    rest
}

/// Split off the next whitespace-delimited token, returning it and the rest.
fn next_token(text: &[char]) -> (result: Option<(&[char], &[char])>)
    ensures
        match result {
            Some((token, rest)) => token_of(text@) == Some((token@, rest@)),
            None => token_of(text@) is None,
        },
{
    let body = skip_gap(text);
    if body.len() == 0 {
        return None;
    }
    let mut i: usize = 0;
    assert(body@.skip(0) =~= body@);
    while i < body.len() && body[i] != ' ' && body[i] != '\t'
        invariant
            i <= body@.len(),
            i + token_len(body@.skip(i as int)) == token_len(body@),
        decreases body@.len() - i,
    {
        assert(body@.skip(i as int)[0] == body@[i as int]);
        assert(body@.skip(i as int).skip(1) =~= body@.skip(i + 1));
        i = i + 1;
    }
    proof {
        if i < body@.len() {
            assert(body@.skip(i as int)[0] == body@[i as int]);
        }
        assert(token_len(body@.skip(i as int)) == 0);
    }
    Some((head(body, i), skip_gap(tail(body, i))))
}

fn read_service(tag: &[char]) -> (service: &[char])
    ensures
        service@ == service_of(tag@),
{
    let mut bare = tag;
    while bare.len() > 0 && bare[bare.len() - 1] == ':'
        invariant
            without_colons(bare@) == without_colons(tag@),
        decreases bare@.len(),
    {
        let shorter = head(bare, bare.len() - 1);
        assert(shorter@ =~= bare@.drop_last());
        bare = shorter;
    }
    match find(bare, '[') {
        Some(i) => head(bare, i),
        None => bare,
    }
}

fn graphic(text: &[char]) -> (yes: bool)
    ensures
        yes == is_graphic(text@),
{
    if text.len() == 0 {
        return false;
    }
    let mut i: usize = 0;
    while i < text.len()
        invariant
            0 < text@.len(),
            i <= text@.len(),
            forall|j: int| 0 <= j < i ==> 0x21 <= (#[trigger] text@[j]) as u32 <= 0x7e,
        decreases text@.len() - i,
    {
        if (text[i] as u32) < 0x21 || text[i] as u32 > 0x7e {
            assert(!(0x21 <= text@[i as int] as u32 <= 0x7e));
            return false;
        }
        i = i + 1;
    }
    true
}

/// Parse one line of a syslog-format authentication file.
///
/// Expects `MMM DD HH:MM:SS host service[pid]: message`. A line that does not
/// have that shape is not a record; it is text, and it is ignored. The day is
/// space-padded, so fields are taken by skipping runs of whitespace rather than
/// by splitting on a single space.
pub fn parse_syslog_line(line: &str, log_source: &str) -> (parsed: Option<ParsedAuth>)
    ensures
        parsed_model(parsed) == syslog_of(line@, log_source@),
{
    let chars = chars_of(line);
    let mut rest = chars.as_slice();
    if fit(rest, MAX_LINE).len() < rest.len() {
        return None;
    }
    let mut skipped: usize = 0;
    proof {
        reveal_with_fuel(behind_tokens, 5);
    }
    while skipped < 4
        invariant
            skipped <= 4,
            byte_len(line@) <= MAX_LINE,
            behind_tokens(line@, skipped as nat) == Some(rest@),
        decreases 4 - skipped,
    {
        match next_token(rest) {
            Some((_, after)) => rest = after,
            None => {
                assert(behind_tokens(line@, (skipped + 1) as nat) is None);
                proof {
                    lemma_tokens_run_out(line@, (skipped + 1) as nat, 4);
                }
                return None;
            },
        }
        skipped = skipped + 1;
    }
    let (tag, message) = match next_token(rest) {
        Some(parts) => parts,
        None => return None,
    };
    let service = read_service(tag);
    if !graphic(service) {
        return None;
    }
    let body = string_of(message);
    let name = string_of(service);
    parse_auth_message(body.as_str(), Some(name.as_str()), log_source)
}

proof fn lemma_tokens_run_out(line: Seq<char>, some: nat, more: nat)
    requires
        some <= more,
        behind_tokens(line, some) is None,
    ensures
        behind_tokens(line, more) is None,
    decreases more,
{
    if some < more {
        lemma_tokens_run_out(line, some, (more - 1) as nat);
    }
}

// ---------------------------------------------------------------------------
// journal records
// ---------------------------------------------------------------------------

/// The byte that a number of an array stands for; numbers that are no byte
/// become a dot.
pub open spec fn byte_of(number: u64) -> u8 {
    if number <= 255 {
        number as u8
    } else {
        0x2e
    }
}

/// The bytes that an array of numbers stands for; what is no whole number gives
/// none.
pub open spec fn bytes_of(items: Seq<Json>) -> Seq<u8>
    decreases items.len(),
{
    if items.len() == 0 {
        seq![]
    } else {
        match items.last() {
            Json::Number(Some(number)) => bytes_of(items.drop_last()).push(byte_of(number)),
            _ => bytes_of(items.drop_last()),
        }
    }
}

/// The text of a journal field, which may be a string or an array of bytes.
pub open spec fn field_text(field: Json) -> Option<Seq<char>> {
    match field {
        Json::Text(text) => Some(text),
        Json::Items(items) => Some(utf8_text(bytes_of(items))),
        _ => None,
    }
}

/// A member of an object.
pub open spec fn member_of(value: Json, name: Seq<char>) -> Option<Json> {
    if value is Members && value->Members_0.contains_key(name) {
        Some(value->Members_0[name])
    } else {
        None
    }
}

/// The service of a journal record: its identifier where it has one, else the
/// name of its command.
pub open spec fn journal_service(value: Json) -> Option<Seq<char>> {
    let field = match member_of(value, "SYSLOG_IDENTIFIER"@) {
        Some(field) => Some(field),
        None => member_of(value, "_COMM"@),
    };
    match field {
        Some(field) => field_text(field),
        None => None,
    }
}

/// The event of a journal record that was read.
pub open spec fn record_event(value: Json, log_source: Seq<char>) -> Option<AuthModel> {
    match member_of(value, "MESSAGE"@) {
        None => None,
        Some(field) => match field_text(field) {
            None => None,
            Some(message) => auth_of(message, journal_service(value), log_source),
        },
    }
}

/// The event of a journal record.
pub open spec fn journal_of(json: Seq<char>, log_source: Seq<char>) -> Option<AuthModel> {
    if byte_len(json) > MAX_LINE {
        None
    } else {
        match json_of(json) {
            None => None,
            Some(value) => record_event(value, log_source),
        }
    }
}

fn read_bytes(items: &Vec<Value>) -> (bytes: Vec<u8>)
    ensures
        bytes@ == bytes_of(items@.map_values(|item: Value| json_held(item))),
{
    let ghost held = items@.map_values(|item: Value| json_held(item));
    let mut bytes: Vec<u8> = Vec::new();
    let mut i: usize = 0;
    assert(held.take(0) =~= seq![]);
    while i < items.len()
        invariant
            held == items@.map_values(|item: Value| json_held(item)),
            i <= held.len(),
            bytes@ == bytes_of(held.take(i as int)),
        decreases held.len() - i,
    {
        assert(held.take(i + 1).drop_last() =~= held.take(i as int));
        assert(held.take(i + 1).last() == json_held(items@[i as int]));
        if let Some(number) = items[i].as_u64() {
            bytes.push(
                if number <= 255 {
                    number as u8
                } else {
                    0x2e
                },
            );
        }
        i = i + 1;
    }
    assert(held.take(i as int) =~= held);
    bytes
}

/// Read a journal field, which may be a string or an array of byte values.
///
/// journald encodes fields that are not valid UTF-8 as an array of numbers.
/// Refusing to look at those would let a record hide behind one stray byte.
fn journal_string(value: &Value) -> (text: Option<String>)
    ensures
        optional_text(text) == field_text(json_held(*value)),
{
    if let Some(text) = value.as_str() {
        return Some(owned(text));
    }
    if let Some(items) = value.as_array() {
        let bytes = read_bytes(items);
        return Some(decode_utf8(bytes.as_slice()));
    }
    None
}

/// Parse one journal record that has been read.
///
/// The service comes from a structured field, which is the whole reason journald
/// is preferred: a message cannot claim to have come from `sshd`.
pub fn parse_journal_value(value: &Value, log_source: &str) -> (parsed: Option<ParsedAuth>)
    ensures
        parsed_model(parsed) == record_event(json_held(*value), log_source@),
{
    let message = match member(value, "MESSAGE") {
        Some(field) => match journal_string(field) {
            Some(message) => message,
            None => return None,
        },
        None => return None,
    };
    let field = match member(value, "SYSLOG_IDENTIFIER") {
        Some(field) => Some(field),
        None => member(value, "_COMM"),
    };
    let service = match field {
        Some(field) => journal_string(field),
        None => None,
    };
    match &service {
        Some(service) => parse_auth_message(message.as_str(), Some(service.as_str()), log_source),
        None => parse_auth_message(message.as_str(), None, log_source),
    }
}

/// Parse one `journalctl -o json` record.
pub fn parse_journal_record(json: &str, log_source: &str) -> (parsed: Option<ParsedAuth>)
    ensures
        parsed_model(parsed) == journal_of(json@, log_source@),
{
    let chars = chars_of(json);
    if fit(chars.as_slice(), MAX_LINE).len() < chars.len() {
        return None;
    }
    match read_json(json) {
        Some(value) => parse_journal_value(&value, log_source),
        None => None,
    }
}

// ---------------------------------------------------------------------------
// laws
// ---------------------------------------------------------------------------

proof fn lemma_fitting_start(text: Seq<char>, limit: nat)
    ensures
        byte_len(fitting(text, limit)) <= limit,
        fitting(text, limit).len() <= text.len(),
        fitting(text, limit) == text.take(fitting(text, limit).len() as int),
    decreases text.len(),
{
    if byte_len(text) <= limit {
        assert(text.take(text.len() as int) =~= text);
    } else {
        let shorter = text.drop_last();
        lemma_fitting_start(shorter, limit);
        let kept = fitting(shorter, limit).len() as int;
        assert(shorter.take(kept) =~= text.take(kept));
    }
}

/// Nothing that was cleaned holds a control character or takes more bytes than the
/// limit.
pub proof fn law_cleaned_text_is_bounded_and_clean(text: Seq<char>, limit: nat)
    ensures
        byte_len(cleaned(text, limit)) <= limit,
        forall|i: int|
            0 <= i < cleaned(text, limit).len() ==> !is_control(#[trigger] cleaned(text, limit)[i]),
{
    lemma_fitting_start(dotted(text), limit);
    assert forall|i: int| 0 <= i < cleaned(text, limit).len() implies !is_control(
        #[trigger] cleaned(text, limit)[i],
    ) by {
        assert(cleaned(text, limit)[i] == dotted(text)[i]);
        assert(!is_control('.'));
    }
}

/// What stands before the last `from` with an address behind it has no say in the
/// source of a message: somebody who logs in under a name that reads like a source
/// does not choose the source of the event.
pub proof fn law_a_login_name_cannot_choose_the_source(
    before: Seq<Seq<char>>,
    other: Seq<Seq<char>>,
    behind: Seq<Seq<char>>,
)
    requires
        source_place(behind) is Some,
    ensures
        source_of(before + behind) == source_of(other + behind),
        port_of(before + behind) == port_of(other + behind),
        source_of(before + behind) == source_of(behind),
        source_of(behind) is Some,
{
    lemma_source_behind(before, behind, behind.len() as int);
    lemma_source_behind(other, behind, behind.len() as int);
}

/// A `from` without an address behind it, at the end of a message, takes no source
/// away.
pub proof fn law_a_later_from_takes_no_source_away(
    message: Seq<Seq<char>>,
    more: Seq<Seq<char>>,
)
    requires
        source_place(message) is Some,
        forall|i: int| #[trigger] gives_source(message + more, i) ==> i < message.len() - 1,
    ensures
        source_of(message + more) == source_of(message),
{
    let whole = message + more;
    lemma_no_source_above(whole, message.len() - 1, whole.len() as int);
    lemma_no_source_above(message, message.len() - 1, message.len() as int);
    lemma_source_in_start(message, more, message.len() - 1);
}

proof fn lemma_no_source_above(tokens: Seq<Seq<char>>, from: int, to: int)
    requires
        0 <= from <= to,
        forall|i: int| from <= i < to ==> !#[trigger] gives_source(tokens, i),
    ensures
        source_place_in(tokens, to) == source_place_in(tokens, from),
    decreases to,
{
    if from < to {
        assert(!gives_source(tokens, to - 1));
        lemma_no_source_above(tokens, from, to - 1);
    }
}

proof fn lemma_source_in_start(message: Seq<Seq<char>>, more: Seq<Seq<char>>, places: int)
    requires
        places < message.len(),
    ensures
        source_place_in(message + more, places) == source_place_in(message, places),
        source_place_in(message, places) matches Some(i) ==> 0 <= i < places,
    decreases places,
{
    if places > 0 {
        assert((message + more)[places - 1] == message[places - 1]);
        assert((message + more)[places] == message[places]);
        assert(gives_source(message + more, places - 1) == gives_source(message, places - 1));
        lemma_source_in_start(message, more, places - 1);
    }
}

proof fn lemma_source_behind(before: Seq<Seq<char>>, behind: Seq<Seq<char>>, places: int)
    requires
        0 <= places <= behind.len(),
        source_place_in(behind, places) is Some,
    ensures
        0 <= source_place_in(behind, places)->0 < behind.len() - 1,
        gives_source(behind, source_place_in(behind, places)->0),
        source_place_in(before + behind, before.len() + places) == Some(
            before.len() + source_place_in(behind, places)->0,
        ),
    decreases places,
{
    let at = before.len() + places - 1;
    if places < behind.len() {
        assert((before + behind)[at + 1] == behind[places]);
    }
    if places > 0 {
        assert((before + behind)[at] == behind[places - 1]);
        assert(gives_source(before + behind, at) == gives_source(behind, places - 1));
        if !gives_source(behind, places - 1) {
            lemma_source_behind(before, behind, places - 1);
        }
    }
}

/// Every event is marked that holds an account no real one could have or a source
/// that is no address, and no account and no message takes more bytes than it may.
pub proof fn law_what_cannot_be_real_is_flagged(
    message: Seq<char>,
    service: Option<Seq<char>>,
    log_source: Seq<char>,
)
    ensures
        auth_of(message, service, log_source) matches Some(event) ==> {
            &&& event.user matches Some(user) ==> byte_len(user) <= MAX_USER
            &&& byte_len(event.message) <= MAX_MESSAGE
            &&& event.user matches Some(user) ==> is_plausible(user) || event.suspicious.len() > 0
            &&& source_token(words(event.message)) is Some && event.source_address is None
                ==> event.suspicious.len() > 0
            &&& event.message != message ==> event.suspicious.len() > 0
        },
{
    if let Some(event) = auth_of(message, service, log_source) {
        let tokens = words(event.message);
        lemma_fitting_start(dotted(message), MAX_MESSAGE as nat);
        if source_place(tokens) is Some {
            lemma_source_behind(seq![], tokens, tokens.len() as int);
        }
        if let Some(token) = candidate_of(tokens) {
            lemma_fitting_start(dotted(token), MAX_USER as nat);
            if is_plausible(token) {
                lemma_plain_text_len(token);
            }
        }
    }
}

proof fn lemma_plain_text_len(token: Seq<char>)
    requires
        forall|i: int| 0 <= i < token.len() ==> is_name_char(#[trigger] token[i]),
    ensures
        byte_len(token) == token.len(),
    decreases token.len(),
{
    if token.len() > 0 {
        let shorter = token.drop_last();
        assert forall|i: int| 0 <= i < shorter.len() implies is_name_char(#[trigger] shorter[i]) by {
            assert(shorter[i] == token[i]);
        }
        lemma_plain_text_len(shorter);
        assert(is_name_char(token[token.len() - 1]));
    }
}

/// Whether a message begins with some words, in whatever case.
pub open spec fn opens_with(message: Seq<char>, start: Seq<char>) -> bool {
    start.len() <= message.len() && lowered(message.take(start.len() as int)) == start
}

/// Whether a message reports a failure: by the words it begins with, or by
/// `authentication failure` anywhere in it.
pub open spec fn reads_as_failure(message: Seq<char>) -> bool {
    ||| opens_with(message, "failed password"@)
    ||| opens_with(message, "failed publickey"@)
    ||| opens_with(message, "failed none"@)
    ||| opens_with(message, "invalid user"@)
    ||| exists|j: int|
        0 <= j <= message.len() - "authentication failure"@.len() && #[trigger] lowered(
            message,
        ).subrange(j, j + "authentication failure"@.len()) == "authentication failure"@
}

proof fn lemma_opens(message: Seq<char>, start: Seq<char>)
    ensures
        opens_with(message, start) == begins(lowered(message), start),
{
    let n = start.len() as int;
    if n <= message.len() {
        assert(lowered(message.take(n)) =~= lowered(message).take(n));
    }
}

/// What a message says decides the outcome of its event: a success is one that begins
/// with `accepted password`, `accepted publickey` or `session opened for user` and says
/// nowhere that it failed, a failure is one that reads as such, and anything else is no
/// authentication event.
pub proof fn law_a_message_means_what_it_says(
    message: Seq<char>,
    service: Option<Seq<char>>,
    log_source: Seq<char>,
)
    ensures
        ({
            let clean = cleaned(message, MAX_MESSAGE as nat);
            let event = auth_of(message, service, log_source);
            let accepted = opens_with(clean, "accepted password"@) || opens_with(
                clean,
                "accepted publickey"@,
            ) || opens_with(clean, "session opened for user"@);
            &&& reads_as_failure(clean) ==> event is Some && event->0.outcome
                == AuthOutcome::Failure
            &&& accepted && !reads_as_failure(clean) ==> event is Some && event->0.outcome
                == AuthOutcome::Success
            &&& !accepted && !reads_as_failure(clean) ==> event is None
            &&& event is Some ==> event->0.message == clean && event->0.log_source == log_source
        }),
{
    let clean = cleaned(message, MAX_MESSAGE as nat);
    let lower = lowered(clean);
    let failure = "authentication failure"@;
    lemma_opens(clean, "failed password"@);
    lemma_opens(clean, "failed publickey"@);
    lemma_opens(clean, "failed none"@);
    lemma_opens(clean, "invalid user"@);
    lemma_opens(clean, "accepted password"@);
    lemma_opens(clean, "accepted publickey"@);
    lemma_opens(clean, "session opened for user"@);
    law_a_text_is_found_where_it_first_stands(lower, failure);
    if let Some(i) = first_text(lower, failure) {
        assert(lower.subrange(i, i + failure.len()) == failure);
    }
}

/// An account is the one token that the message puts where accounts stand, as long as it
/// could be one: behind `user=`, else behind `for` and an optional `invalid user`, else
/// behind `user`.
pub proof fn law_an_account_stands_where_the_format_puts_it(tokens: Seq<Seq<char>>, i: int)
    requires
        0 <= i < tokens.len(),
    ensures
        begins(tokens[i], "user="@) && is_plausible(tokens[i].skip(5)) && (forall|j: int|
            0 <= j < i ==> !begins(#[trigger] tokens[j], "user="@)) ==> user_of(tokens) == Some(
            tokens[i].skip(5),
        ),
        tokens[i] == "for"@ && i + 1 < tokens.len() && tokens[i + 1] != "invalid"@ && tokens[i + 1]
            != "user"@ && is_plausible(tokens[i + 1]) && (forall|j: int|
            0 <= j < i ==> #[trigger] tokens[j] != "for"@) && (forall|j: int|
            0 <= j < tokens.len() ==> !begins(#[trigger] tokens[j], "user="@)) ==> user_of(tokens)
            == Some(tokens[i + 1]),
        tokens[i] == "for"@ && i + 3 < tokens.len() && tokens[i + 1] == "invalid"@ && tokens[i + 2]
            == "user"@ && tokens[i + 3] != "invalid"@ && tokens[i + 3] != "user"@ && is_plausible(
            tokens[i + 3],
        ) && (forall|j: int| 0 <= j < i ==> #[trigger] tokens[j] != "for"@) && (forall|j: int|
            0 <= j < tokens.len() ==> !begins(#[trigger] tokens[j], "user="@)) ==> user_of(tokens)
            == Some(tokens[i + 3]),
        tokens[i] == "user"@ && i + 1 < tokens.len() && is_plausible(tokens[i + 1]) && (forall|
            j: int,
        |
            0 <= j < i ==> #[trigger] tokens[j] != "user"@) && (forall|j: int|
            0 <= j < tokens.len() ==> #[trigger] tokens[j] != "for"@ && !begins(
                tokens[j],
                "user="@,
            )) ==> user_of(tokens) == Some(tokens[i + 1]),
        (forall|j: int|
            0 <= j < tokens.len() ==> #[trigger] tokens[j] != "for"@ && tokens[j] != "user"@
                && !begins(tokens[j], "user="@)) ==> user_of(tokens) is None,
{
    reveal_strlit("user=");
    reveal_strlit("for");
    reveal_strlit("user");
    reveal_strlit("invalid");
    assert("user="@.len() == 5);
    lemma_assigned(tokens, 0, i);
    lemma_placed(tokens, "for"@, 0, i);
    lemma_placed(tokens, "user"@, 0, i);
    reveal_with_fuel(behind_from, 4);
}

proof fn lemma_assigned(tokens: Seq<Seq<char>>, from: int, i: int)
    requires
        0 <= from,
        i < tokens.len(),
    ensures
        (forall|j: int| from <= j < tokens.len() ==> !begins(#[trigger] tokens[j], "user="@))
            ==> assigned_from(tokens, from) is None,
        from <= i && begins(tokens[i], "user="@) && (forall|j: int|
            from <= j < i ==> !begins(#[trigger] tokens[j], "user="@)) ==> assigned_from(
            tokens,
            from,
        ) == Some(tokens[i].skip("user="@.len() as int)),
    decreases tokens.len() - from,
{
    if from < tokens.len() {
        lemma_assigned(tokens, from + 1, i);
    }
}

proof fn lemma_placed(tokens: Seq<Seq<char>>, word: Seq<char>, from: int, i: int)
    requires
        0 <= from,
        i < tokens.len(),
    ensures
        (forall|j: int| from <= j < tokens.len() ==> #[trigger] tokens[j] != word) ==> place_from(
            tokens,
            word,
            from,
        ) is None,
        from <= i && tokens[i] == word && (forall|j: int|
            from <= j < i ==> #[trigger] tokens[j] != word) ==> place_from(tokens, word, from)
            == Some(i),
    decreases tokens.len() - from,
{
    if from < tokens.len() {
        lemma_placed(tokens, word, from + 1, i);
    }
}

/// The source of a message is the address behind its last `from` that has one, and its
/// port the number behind the word `port` there.
pub proof fn law_a_source_stands_behind_from(tokens: Seq<Seq<char>>, i: int)
    requires
        0 <= i,
        i + 1 < tokens.len(),
        tokens[i] == "from"@,
        address_value(tokens[i + 1]) is Some,
        forall|j: int|
            i < j && j + 1 < tokens.len() && #[trigger] tokens[j] == "from"@ ==> address_value(
                tokens[j + 1],
            ) is None,
    ensures
        source_of(tokens) == address_value(tokens[i + 1]),
        i + 3 < tokens.len() && tokens[i + 2] == "port"@ ==> (match number(
            tokens[i + 3],
            10,
            65_535,
        ) {
            Some(port) => port_of(tokens) == Some(port as u16),
            None => port_of(tokens) is None,
        }),
        i + 2 >= tokens.len() || tokens[i + 2] != "port"@ ==> port_of(tokens) is None,
        source_notes(tokens).len() == 0,
{
    assert forall|j: int| i + 1 <= j < tokens.len() implies !#[trigger] gives_source(tokens, j) by {
        assert(tokens[j] == "from"@ || tokens[j] != "from"@);
    }
    lemma_no_source_above(tokens, i + 1, tokens.len() as int);
    assert(gives_source(tokens, i));
}

/// Without a `from` that has an address behind it a message has neither source nor port,
/// and it is flagged where it offers something else.
pub proof fn law_no_address_no_source(tokens: Seq<Seq<char>>)
    requires
        forall|j: int|
            0 <= j && j + 1 < tokens.len() && #[trigger] tokens[j] == "from"@ ==> address_value(
                tokens[j + 1],
            ) is None,
    ensures
        source_of(tokens) is None,
        port_of(tokens) is None,
        (exists|j: int| 0 <= j && j + 1 < tokens.len() && #[trigger] tokens[j] == "from"@)
            ==> source_notes(tokens).len() == 1,
{
    assert forall|j: int| 0 <= j < tokens.len() implies !#[trigger] gives_source(tokens, j) by {
        assert(tokens[j] == "from"@ || tokens[j] != "from"@);
    }
    lemma_no_source_above(tokens, 0, tokens.len() as int);
    if exists|j: int| 0 <= j && j + 1 < tokens.len() && #[trigger] tokens[j] == "from"@ {
        let j = choose|j: int| 0 <= j && j + 1 < tokens.len() && #[trigger] tokens[j] == "from"@;
        lemma_first_place(tokens, "from"@, 0, j);
    }
}

proof fn lemma_first_place(tokens: Seq<Seq<char>>, word: Seq<char>, from: int, j: int)
    requires
        0 <= from <= j < tokens.len(),
        tokens[j] == word,
    ensures
        place_from(tokens, word, from) is Some,
        from <= place_from(tokens, word, from)->0 <= j,
        tokens[place_from(tokens, word, from)->0] == word,
    decreases tokens.len() - from,
{
    if tokens[from] != word {
        lemma_first_place(tokens, word, from + 1, j);
    }
}

/// A name is plausible only where it is short and made of letters, digits and the few
/// signs that accounts have: white space, control characters, quotes, colons and
/// brackets make it implausible.
pub proof fn law_implausible_names(token: Seq<char>, i: int)
    requires
        0 <= i < token.len(),
    ensures
        is_plausible(token) ==> token.len() <= 64 && !is_control(token[i]) && token[i] != ' '
            && token[i] != '\t' && token[i] != '"' && token[i] != '=' && token[i] != ':' && token[i]
            != '[' && token[i] != ';' && (token[i] as int) < 0x80,
        !is_plausible(seq![]),
        forall|c: char|
            ('a' <= c <= 'z' || 'A' <= c <= 'Z' || '0' <= c <= '9' || c == '.' || c == '_' || c
                == '-' || c == '@' || c == '$' || c == '\\' || c == '/') ==> #[trigger]
            is_plausible(seq![c]),
{
    if is_plausible(token) {
        assert(is_name_char(token[i]));
        lemma_name_char(token[i]);
    }
}

proof fn lemma_name_char(c: char)
    requires
        is_name_char(c),
    ensures
        !is_control(c),
        c != ' ' && c != '\t' && c != '"' && c != '=' && c != ':' && c != '[' && c != ';',
        (c as int) < 0x80,
{
}

/// A syslog line is read by its fields: behind the month, the day, the time and the host
/// comes the tag, and what is behind the tag is the message. The service is the tag up
/// to its bracket, or up to its colon.
pub proof fn law_a_syslog_line_is_read_by_its_fields(
    month: Seq<char>,
    day: Seq<char>,
    time: Seq<char>,
    host: Seq<char>,
    service: Seq<char>,
    pid: Seq<char>,
    message: Seq<char>,
    log_source: Seq<char>,
)
    requires
        is_solid(month),
        is_solid(day),
        is_solid(time),
        is_solid(host),
        is_graphic(service),
        first_of(service, '[') is None,
        service.last() != ':',
        is_solid(pid),
        first_of(pid, ':') is None,
        message.len() == 0 || !is_gap(message[0]),
        byte_len(
            month.push(' ') + (day.push(' ') + (time.push(' ') + (host.push(' ') + (service + seq![
                '[',
            ] + pid + seq![']', ':', ' '] + message)))),
        ) <= MAX_LINE,
    ensures
        syslog_of(
            month.push(' ') + (day.push(' ') + (time.push(' ') + (host.push(' ') + (service + seq![
                '[',
            ] + pid + seq![']', ':', ' '] + message)))),
            log_source,
        ) == auth_of(message, Some(service), log_source),
{
    let tag = service + seq!['['] + pid + seq![']', ':'];
    let last = service + seq!['['] + pid + seq![']', ':', ' '] + message;
    assert(last =~= tag.push(' ') + message);
    let l3 = host.push(' ') + last;
    let l2 = time.push(' ') + l3;
    let l1 = day.push(' ') + l2;
    let line = month.push(' ') + l1;
    assert(is_solid(tag)) by {
        assert forall|i: int| 0 <= i < tag.len() implies !is_gap(#[trigger] tag[i]) by {
            if i < service.len() {
                assert(tag[i] == service[i]);
            } else if service.len() < i < service.len() + 1 + pid.len() {
                assert(tag[i] == pid[i - service.len() - 1]);
            }
        }
    }
    assert(!is_gap(last[0])) by {
        assert(last[0] == service[0]);
    }
    assert(!is_gap(l3[0]) && !is_gap(l2[0]) && !is_gap(l1[0])) by {
        assert(l3[0] == host[0] && l2[0] == time[0] && l1[0] == day[0]);
    }
    lemma_token(month, l1);
    lemma_token(day, l2);
    lemma_token(time, l3);
    lemma_token(host, last);
    lemma_token(tag, message);
    reveal_with_fuel(behind_tokens, 5);
    assert(behind_tokens(line, 4) == Some(last));
    assert(without_colons(tag) == tag.drop_last()) by {
        assert(tag.last() == ':');
        assert(tag.drop_last().last() == ']');
        reveal_with_fuel(without_colons, 2);
    }
    let bare = tag.drop_last();
    lemma_first_of(bare, '[');
    lemma_first_of(service, '[');
    assert(bare[service.len() as int] == '[');
    assert forall|j: int| 0 <= j < service.len() implies bare[j] != '[' by {
        assert(bare[j] == service[j]);
    }
    assert(first_of(bare, '[') == Some(service.len() as int));
    assert(bare.take(service.len() as int) =~= service);
}

/// Whether a text has characters and neither a space nor a tab among them.
pub open spec fn is_solid(text: Seq<char>) -> bool {
    text.len() > 0 && forall|i: int| 0 <= i < text.len() ==> !is_gap(#[trigger] text[i])
}

proof fn lemma_token(token: Seq<char>, rest: Seq<char>)
    requires
        is_solid(token),
        rest.len() == 0 || !is_gap(rest[0]),
    ensures
        token_of(token.push(' ') + rest) == Some((token, rest)),
{
    let text = token.push(' ') + rest;
    assert(text[0] == token[0]);
    lemma_token_len(token, rest);
    assert(text.take(token.len() as int) =~= token);
    let behind = text.skip(token.len() as int);
    assert(behind[0] == ' ');
    assert(behind.skip(1) =~= rest);
    reveal_with_fuel(without_gap, 2);
}

proof fn lemma_token_len(token: Seq<char>, rest: Seq<char>)
    requires
        forall|i: int| 0 <= i < token.len() ==> !is_gap(#[trigger] token[i]),
    ensures
        token_len(token.push(' ') + rest) == token.len(),
    decreases token.len(),
{
    let text = token.push(' ') + rest;
    if token.len() > 0 {
        let shorter = token.skip(1);
        assert forall|i: int| 0 <= i < shorter.len() implies !is_gap(#[trigger] shorter[i]) by {
            assert(shorter[i] == token[i + 1]);
        }
        lemma_token_len(shorter, rest);
        assert(text.skip(1) =~= shorter.push(' ') + rest);
        assert(text[0] == token[0]);
    } else {
        assert(text[0] == ' ');
    }
}

/// The service of a journal record comes from its identifier, and from its command only
/// where it has none. A record without a message is no event.
pub proof fn law_a_journal_record_names_its_service(
    members: Map<Seq<char>, Json>,
    message: Seq<char>,
    service: Seq<char>,
    log_source: Seq<char>,
)
    ensures
        members.contains_key("MESSAGE"@) && members["MESSAGE"@] == Json::Text(message) ==> {
            &&& members.contains_key("SYSLOG_IDENTIFIER"@) && members["SYSLOG_IDENTIFIER"@]
                == Json::Text(service) ==> record_event(Json::Members(members), log_source)
                == auth_of(message, Some(service), log_source)
            &&& !members.contains_key("SYSLOG_IDENTIFIER"@) && members.contains_key("_COMM"@)
                && members["_COMM"@] == Json::Text(service) ==> record_event(
                Json::Members(members),
                log_source,
            ) == auth_of(message, Some(service), log_source)
            &&& !members.contains_key("SYSLOG_IDENTIFIER"@) && !members.contains_key("_COMM"@)
                ==> record_event(Json::Members(members), log_source) == auth_of(
                message,
                None,
                log_source,
            )
        },
        !members.contains_key("MESSAGE"@) ==> record_event(
            Json::Members(members),
            log_source,
        ) is None,
        record_event(Json::Text(message), log_source) is None,
        record_event(Json::Other, log_source) is None,
{
}

/// A field given as an array of numbers is read as the bytes that they are, one for
/// each number.
pub proof fn law_number_arrays_are_bytes(numbers: Seq<u8>)
    ensures
        field_text(
            Json::Items(numbers.map_values(|byte: u8| Json::Number(Some(byte as u64)))),
        ) == Some(utf8_text(numbers)),
{
    lemma_bytes_of(numbers);
}

proof fn lemma_bytes_of(numbers: Seq<u8>)
    ensures
        bytes_of(numbers.map_values(|byte: u8| Json::Number(Some(byte as u64)))) == numbers,
    decreases numbers.len(),
{
    let items = numbers.map_values(|byte: u8| Json::Number(Some(byte as u64)));
    if numbers.len() > 0 {
        let shorter = numbers.drop_last();
        lemma_bytes_of(shorter);
        assert(items.drop_last() =~= shorter.map_values(
            |byte: u8| Json::Number(Some(byte as u64)),
        ));
        assert(shorter.push(numbers.last()) =~= numbers);
    } else {
        assert(numbers =~= seq![]);
    }
}

/// Cleaning changes nothing of a text that is clean and short enough, and puts a dot
/// for each control character of one that is not.
pub proof fn law_cleaning_changes_what_it_must(text: Seq<char>, limit: nat)
    requires
        byte_len(dotted(text)) <= limit,
    ensures
        cleaned(text, limit).len() == text.len(),
        forall|i: int|
            0 <= i < text.len() ==> cleaned(text, limit)[i] == if is_control(#[trigger] text[i]) {
                '.'
            } else {
                text[i]
            },
{
}

} // verus!
