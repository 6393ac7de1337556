//! Why a rule could not be parsed.

use vstd::prelude::*;
use crate::text::{append, append_number, decimal, owned, quote, quoted, string_of};

verus! {

/// What a parse error is.
pub enum ErrorModel {
    /// The line held no rule text.
    Empty,
    /// No `(` was found after the header.
    MissingOptionBlock,
    /// The option block was not closed.
    UnterminatedOptionBlock,
    /// A quoted value ran to the end of the rule.
    UnterminatedString,
    /// The header did not have seven fields.
    HeaderFieldCount(int),
    /// The action was not a recognised keyword.
    UnknownAction(Seq<char>),
    /// The action is a prevention action.
    PreventionAction(Seq<char>),
    /// The protocol was not recognised.
    UnknownProtocol(Seq<char>),
    /// The direction token was neither `->` nor `<>`.
    InvalidDirection(Seq<char>),
    /// An address field was malformed: the text and the reason.
    InvalidAddress(Seq<char>, Seq<char>),
    /// A port field was malformed: the text and the reason.
    InvalidPort(Seq<char>, Seq<char>),
    /// An option that needs a value had none.
    MissingOptionValue(Seq<char>),
    /// An option's value was not of the expected form: the option and the reason.
    InvalidOptionValue(Seq<char>, Seq<char>),
    /// An option keyword is not part of the format.
    UnknownOption(Seq<char>),
    /// An option that may appear at most once appeared twice.
    DuplicateOption(Seq<char>),
    /// `sid` is missing.
    MissingSid,
    /// `msg` is missing.
    MissingMsg,
}

/// Why a rule could not be parsed.
#[derive(Debug, Clone, PartialEq, Eq)]
#[non_exhaustive]
pub enum ParseError {
    /// The line held no rule text.
    Empty,
    /// No `(` was found after the header.
    MissingOptionBlock,
    /// The option block was not closed.
    UnterminatedOptionBlock,
    /// A quoted value ran to the end of the rule.
    UnterminatedString,
    /// The header did not have exactly seven whitespace-separated fields.
    HeaderFieldCount {
        /// How many fields were present.
        found: usize,
    },
    /// The action was not a recognised keyword.
    UnknownAction(String),
    /// The action was recognised but is a prevention action.
    PreventionAction(String),
    /// The protocol was not recognised.
    UnknownProtocol(String),
    /// The direction token was neither `->` nor `<>`.
    InvalidDirection(String),
    /// An address field was malformed.
    InvalidAddress {
        /// The offending text.
        value: String,
        /// What was wrong with it.
        reason: String,
    },
    /// A port field was malformed.
    InvalidPort {
        /// The offending text.
        value: String,
        /// What was wrong with it.
        reason: String,
    },
    /// An option that needs a value had none.
    MissingOptionValue(String),
    /// An option's value was not of the expected form.
    InvalidOptionValue {
        /// The option keyword.
        option: String,
        /// What was wrong with the value.
        reason: String,
    },
    /// An option keyword is not part of the rule format.
    UnknownOption(String),
    /// An option that may appear at most once appeared twice.
    DuplicateOption(String),
    /// `sid` is mandatory: without it an alert cannot be attributed to a rule.
    MissingSid,
    /// `msg` is mandatory: an alert with no description is not actionable.
    MissingMsg,
}

impl View for ParseError {
    type V = ErrorModel;

    open spec fn view(&self) -> ErrorModel {
        match self {
            ParseError::Empty => ErrorModel::Empty,
            ParseError::MissingOptionBlock => ErrorModel::MissingOptionBlock,
            ParseError::UnterminatedOptionBlock => ErrorModel::UnterminatedOptionBlock,
            ParseError::UnterminatedString => ErrorModel::UnterminatedString,
            ParseError::HeaderFieldCount { found } => ErrorModel::HeaderFieldCount(*found as int),
            ParseError::UnknownAction(text) => ErrorModel::UnknownAction(text@),
            ParseError::PreventionAction(text) => ErrorModel::PreventionAction(text@),
            ParseError::UnknownProtocol(text) => ErrorModel::UnknownProtocol(text@),
            ParseError::InvalidDirection(text) => ErrorModel::InvalidDirection(text@),
            ParseError::InvalidAddress { value, reason } => ErrorModel::InvalidAddress(
                value@,
                reason@,
            ),
            ParseError::InvalidPort { value, reason } => ErrorModel::InvalidPort(value@, reason@),
            ParseError::MissingOptionValue(option) => ErrorModel::MissingOptionValue(option@),
            ParseError::InvalidOptionValue { option, reason } => ErrorModel::InvalidOptionValue(
                option@,
                reason@,
            ),
            ParseError::UnknownOption(option) => ErrorModel::UnknownOption(option@),
            ParseError::DuplicateOption(option) => ErrorModel::DuplicateOption(option@),
            ParseError::MissingSid => ErrorModel::MissingSid,
            ParseError::MissingMsg => ErrorModel::MissingMsg,
        }
    }
}

/// The text of an error.
pub open spec fn error_text(error: ErrorModel) -> Seq<char> {
    match error {
        ErrorModel::Empty => "empty rule"@,
        ErrorModel::MissingOptionBlock =>
            "missing option block: expected '(' after the rule header"@,
        ErrorModel::UnterminatedOptionBlock =>
            "unterminated option block: expected a closing ')'"@,
        ErrorModel::UnterminatedString => "unterminated quoted string"@,
        ErrorModel::HeaderFieldCount(found) =>
            "rule header must have 7 fields (action protocol src-addr src-port direction dst-addr dst-port), found "@
            + decimal(found as nat),
        ErrorModel::UnknownAction(text) => "unknown action "@ + quoted(text)
            + ": expected alert, pass, drop, or reject"@,
        ErrorModel::PreventionAction(text) => "action "@ + quoted(text)
            + " is not supported: CyberSentinel v1 is detection-only (IDS)"@,
        ErrorModel::UnknownProtocol(text) => "unknown protocol "@ + quoted(text)
            + ": expected ip, tcp, udp, icmp, http, dns, or tls"@,
        ErrorModel::InvalidDirection(text) => "invalid direction "@ + quoted(text)
            + ": expected '->' or '<>'"@,
        ErrorModel::InvalidAddress(value, reason) => "invalid address "@ + quoted(value) + ": "@
            + reason,
        ErrorModel::InvalidPort(value, reason) => "invalid port "@ + quoted(value) + ": "@
            + reason,
        ErrorModel::MissingOptionValue(option) => "option "@ + quoted(option)
            + " requires a value"@,
        ErrorModel::InvalidOptionValue(option, reason) => "invalid value for option "@ + quoted(
            option,
        ) + ": "@ + reason,
        ErrorModel::UnknownOption(option) => "unknown option "@ + quoted(option),
        ErrorModel::DuplicateOption(option) => "duplicate option "@ + quoted(option),
        ErrorModel::MissingSid => "missing required option 'sid'"@,
        ErrorModel::MissingMsg => "missing required option 'msg'"@,
    }
}

/// Every error has a text.
pub proof fn lemma_every_error_says_why(error: ErrorModel)
    ensures
        error_text(error).len() > 0,
{
    reveal_strlit("empty rule");
    reveal_strlit("missing option block: expected '(' after the rule header");
    reveal_strlit("unterminated option block: expected a closing ')'");
    reveal_strlit("unterminated quoted string");
    reveal_strlit(
        "rule header must have 7 fields (action protocol src-addr src-port direction dst-addr dst-port), found ",
    );
    reveal_strlit("unknown action ");
    reveal_strlit("action ");
    reveal_strlit("unknown protocol ");
    reveal_strlit("invalid direction ");
    reveal_strlit("invalid address ");
    reveal_strlit("invalid port ");
    reveal_strlit("option ");
    reveal_strlit("invalid value for option ");
    reveal_strlit("unknown option ");
    reveal_strlit("duplicate option ");
    reveal_strlit("missing required option 'sid'");
    reveal_strlit("missing required option 'msg'");
}

/// A text around a quoted one.
fn around(before: &str, text: &str, after: &str) -> (whole: String)
    ensures
        whole@ == before@ + quoted(text@) + after@,
{
    let mut whole = owned(before);
    let form = quote(text);
    append(&mut whole, form.as_str());
    append(&mut whole, after);
    whole
}

/// A text around a quoted one, with a reason behind.
fn around_reason(before: &str, text: &str, reason: &str) -> (whole: String)
    ensures
        whole@ == before@ + quoted(text@) + ": "@ + reason@,
{
    let mut whole = around(before, text, ": ");
    append(&mut whole, reason);
    whole
}

impl ParseError {
    /// The error as text.
    pub fn to_text(&self) -> (text: String)
        ensures
            text@ == error_text(self@),
    {
        match self {
            ParseError::Empty => owned("empty rule"),
            ParseError::MissingOptionBlock => owned(
                "missing option block: expected '(' after the rule header",
            ),
            ParseError::UnterminatedOptionBlock => owned(
                "unterminated option block: expected a closing ')'",
            ),
            ParseError::UnterminatedString => owned("unterminated quoted string"),
            ParseError::HeaderFieldCount { found } => {
                let mut text = owned(
                    "rule header must have 7 fields (action protocol src-addr src-port direction dst-addr dst-port), found ",
                );
                append_number(&mut text, *found as u64);
                text
            },
            ParseError::UnknownAction(text) => around(
                "unknown action ",
                text.as_str(),
                ": expected alert, pass, drop, or reject",
            ),
            ParseError::PreventionAction(text) => around(
                "action ",
                text.as_str(),
                " is not supported: CyberSentinel v1 is detection-only (IDS)",
            ),
            ParseError::UnknownProtocol(text) => around(
                "unknown protocol ",
                text.as_str(),
                ": expected ip, tcp, udp, icmp, http, dns, or tls",
            ),
            ParseError::InvalidDirection(text) => around(
                "invalid direction ",
                text.as_str(),
                ": expected '->' or '<>'",
            ),
            ParseError::InvalidAddress { value, reason } => around_reason(
                "invalid address ",
                value.as_str(),
                reason.as_str(),
            ),
            ParseError::InvalidPort { value, reason } => around_reason(
                "invalid port ",
                value.as_str(),
                reason.as_str(),
            ),
            ParseError::MissingOptionValue(option) => around(
                "option ",
                option.as_str(),
                " requires a value",
            ),
            ParseError::InvalidOptionValue { option, reason } => around_reason(
                "invalid value for option ",
                option.as_str(),
                reason.as_str(),
            ),
            ParseError::UnknownOption(option) => {
                let mut text = owned("unknown option ");
                let form = quote(option.as_str());
                append(&mut text, form.as_str());
                text
            },
            ParseError::DuplicateOption(option) => {
                let mut text = owned("duplicate option ");
                let form = quote(option.as_str());
                append(&mut text, form.as_str());
                text
            },
            ParseError::MissingSid => owned("missing required option 'sid'"),
            ParseError::MissingMsg => owned("missing required option 'msg'"),
        }
    }

    /// An option whose value was not of the expected form.
    pub fn invalid(option: &[char], reason: String) -> (error: ParseError)
        ensures
            error@ == ErrorModel::InvalidOptionValue(option@, reason@),
    {
        ParseError::InvalidOptionValue { option: string_of(option), reason }
    }
}

} // verus!
