//! Parser for the Suricata/Snort-like rule format.
//!
//! A rule is a header of seven fields and an option block in brackets. Parsing
//! is strict: an option that is not part of the format, a value of the wrong
//! form or an option given twice refuses the rule, because a rule that was half
//! understood would quietly match something else than its author wrote. Options
//! that the format has but this build does not evaluate are kept by name, so
//! that the rule can be reported as one that is not evaluated.

use vstd::prelude::*;
use crate::text::{
    append, chars_of, decimal, ends, ends_with, equal, find, first_of, head, last_of,
    law_a_number_reads_back, law_decimals_are_digits, lemma_first_of, lemma_last_of,
    lemma_numbers_are_in_range, lemma_trimmed_already, lowered, number, optional_text, owned, parse_number, parse_signed,
    quote, quoted, rfind, signed_number, spells, string_of, tail, texts, trim, trimmed, words,
};
use super::block::{
    law_a_least_block_gives_its_options, least_block, parse_options, raw_models, raws_of, RawModel,
    RawOption,
};
use super::error::{ErrorModel, ParseError};
use super::header::{
    header_of, law_a_keyword_names_its_protocol, lemma_a_keyword_is_letters, parse_header,
};
use super::model::{
    entries, option_models, Action, HeaderModel, MetadataEntry, PortModel, Protocol, Rule,
    RuleHeader, RuleModel,
};
use super::options::{
    buffer_named, condition_named, field_named, op_named, Buffer, ByteJump, ByteTest, ContentMatch,
    ContentModel, Endian, FlowBitsOp, HostField, HostFieldMatch, HostFieldModel, HostMatchKind,
    HostMatcher, HostMatcherModel,
    NormalizationCondition, OptionModel, PcreModel, RuleOption, Threshold,
};
use super::values::{
    byte_jump_of, byte_test_of, comma_parts, content_of, dsize_of, flow_of, flowbits_of,
    host_values_of, jumped_from, metadata_of, parse_byte_jump, parse_byte_test,
    parse_content_pattern, parse_dsize, parse_flow, parse_flowbits, parse_host_values,
    parse_metadata, parse_pcre, parse_threshold, pcre_of, plain_operator, tested_from, threshold_of,
    width_of,
};

verus! {

/// What the options of a rule have said so far.
pub struct BuildState {
    /// The rule's identifier.
    pub sid: Option<u32>,
    /// The rule's revision.
    pub rev: Option<u32>,
    /// The rule's group.
    pub gid: Option<u32>,
    /// The rule's priority.
    pub priority: Option<u8>,
    /// The rule's description.
    pub msg: Option<Seq<char>>,
    /// The rule's class.
    pub classtype: Option<Seq<char>>,
    /// How often the rule may alert.
    pub threshold: Option<Threshold>,
    /// The rule's metadata.
    pub metadata: Seq<(Seq<char>, Seq<char>)>,
    /// The rule's references.
    pub references: Seq<Seq<char>>,
    /// The rule's match conditions.
    pub matches: Seq<OptionModel>,
    /// The options that are part of the format but not evaluated.
    pub unsupported: Seq<Seq<char>>,
    /// The rule does not alert.
    pub no_alert: bool,
    /// The buffer that the next content or expression looks at.
    pub buffer: Buffer,
}

impl BuildState {
    /// No option read yet.
    pub open spec fn initial() -> BuildState {
        BuildState {
            sid: None,
            rev: None,
            gid: None,
            priority: None,
            msg: None,
            classtype: None,
            threshold: None,
            metadata: seq![],
            references: seq![],
            matches: seq![],
            unsupported: seq![],
            no_alert: false,
            buffer: Buffer::Payload,
        }
    }
}

/// Option keywords this format defines but this build cannot yet evaluate.
///
/// A rule using one of these still loads, flagged, and is reported as one that
/// is not evaluated. Anything else that is not handled is treated as a typo and
/// the rule is refused.
pub const RECOGNISED_UNIMPLEMENTED_OPTIONS: [&'static str; 3] = [
    "endswith",
    "detection_filter",
    "target",
];

/// An option that is part of the format but that this build does not evaluate.
pub open spec fn is_unimplemented(name: Seq<char>) -> bool {
    exists|i: int| 0 <= i < 3 && #[trigger] RECOGNISED_UNIMPLEMENTED_OPTIONS[i]@ == name
}

/// Whether an option is part of the format but not evaluated.
fn unimplemented(name: &[char]) -> (yes: bool)
    ensures
        yes == is_unimplemented(name@),
{
    let known = RECOGNISED_UNIMPLEMENTED_OPTIONS;
    let mut i: usize = 0;
    while i < 3
        invariant
            i <= 3,
            known == RECOGNISED_UNIMPLEMENTED_OPTIONS,
            forall|j: int| 0 <= j < i ==> #[trigger] RECOGNISED_UNIMPLEMENTED_OPTIONS[j]@ != name@,
        decreases 3 - i,
    {
        if spells(name, known[i]) {
            assert(RECOGNISED_UNIMPLEMENTED_OPTIONS[i as int]@ == name@);
            return true;
        }
        i = i + 1;
    }
    false
}

/// An option that describes the rule rather than what it matches.
pub open spec fn is_descriptive(name: Seq<char>) -> bool {
    name == "sid"@ || name == "rev"@ || name == "gid"@ || name == "priority"@ || name == "msg"@
        || name == "classtype"@ || name == "metadata"@ || name == "reference"@
}

/// An option that changes the content in front of it.
pub open spec fn is_modifier(name: Seq<char>) -> bool {
    name == "nocase"@ || name == "fast_pattern"@ || name == "startswith"@ || name == "offset"@
        || name == "depth"@ || name == "distance"@ || name == "within"@
}

/// An option whose value becomes one match condition.
pub open spec fn is_condition(name: Seq<char>) -> bool {
    name == "pcre"@ || name == "flow"@ || name == "byte_test"@ || name == "byte_jump"@ || name
        == "dsize"@ || name == "normalized"@
}

/// The value of an option that takes a number.
pub open spec fn u32_value(option: RawModel) -> Result<u32, ErrorModel> {
    match option.value {
        None => Err(ErrorModel::MissingOptionValue(option.name)),
        Some(value) => match number(trimmed(value), 10, u32::MAX as int) {
            Some(n) => Ok(n as u32),
            None => Err(
                ErrorModel::InvalidOptionValue(
                    option.name,
                    quoted(trimmed(value)) + " is not a number"@,
                ),
            ),
        },
    }
}

/// The value of an option that takes a text.
pub open spec fn text_value(option: RawModel) -> Result<Seq<char>, ErrorModel> {
    match option.value {
        None => Err(ErrorModel::MissingOptionValue(option.name)),
        Some(value) => Ok(value),
    }
}

/// The state after an option that describes the rule.
pub open spec fn described(state: BuildState, option: RawModel) -> Result<BuildState, ErrorModel> {
    if option.name == "sid"@ {
        if state.sid is Some {
            Err(ErrorModel::DuplicateOption("sid"@))
        } else {
            match u32_value(option) {
                Err(error) => Err(error),
                Ok(n) => Ok(BuildState { sid: Some(n), ..state }),
            }
        }
    } else if option.name == "rev"@ {
        if state.rev is Some {
            Err(ErrorModel::DuplicateOption("rev"@))
        } else {
            match u32_value(option) {
                Err(error) => Err(error),
                Ok(n) => Ok(BuildState { rev: Some(n), ..state }),
            }
        }
    } else if option.name == "gid"@ {
        if state.gid is Some {
            Err(ErrorModel::DuplicateOption("gid"@))
        } else {
            match u32_value(option) {
                Err(error) => Err(error),
                Ok(n) => Ok(BuildState { gid: Some(n), ..state }),
            }
        }
    } else if option.name == "priority"@ {
        if state.priority is Some {
            Err(ErrorModel::DuplicateOption("priority"@))
        } else {
            match u32_value(option) {
                Err(error) => Err(error),
                Ok(n) => if 1 <= n <= 255 {
                    Ok(BuildState { priority: Some(n as u8), ..state })
                } else {
                    Err(
                        ErrorModel::InvalidOptionValue(
                            option.name,
                            "priority must be between 1 and 255"@,
                        ),
                    )
                },
            }
        }
    } else if option.name == "msg"@ {
        if state.msg is Some {
            Err(ErrorModel::DuplicateOption("msg"@))
        } else {
            match text_value(option) {
                Err(error) => Err(error),
                Ok(text) => if trimmed(text).len() == 0 {
                    Err(ErrorModel::InvalidOptionValue(option.name, "msg must not be empty"@))
                } else {
                    Ok(BuildState { msg: Some(text), ..state })
                },
            }
        }
    } else if option.name == "classtype"@ {
        if state.classtype is Some {
            Err(ErrorModel::DuplicateOption("classtype"@))
        } else {
            match text_value(option) {
                Err(error) => Err(error),
                Ok(text) => Ok(BuildState { classtype: Some(text), ..state }),
            }
        }
    } else if option.name == "metadata"@ {
        match text_value(option) {
            Err(error) => Err(error),
            Ok(text) => Ok(
                BuildState { metadata: state.metadata + metadata_of(text), ..state },
            ),
        }
    } else {
        match text_value(option) {
            Err(error) => Err(error),
            Ok(text) => Ok(BuildState { references: state.references.push(text), ..state }),
        }
    }
}

/// The number that a content modifier takes.
pub open spec fn modifier_number(option: RawModel) -> Result<int, ErrorModel> {
    match option.value {
        None => Err(ErrorModel::MissingOptionValue(option.name)),
        Some(value) => match signed_number(trimmed(value), i64::MIN as int, i64::MAX as int) {
            Some(n) => Ok(n),
            None => Err(
                ErrorModel::InvalidOptionValue(option.name, option.name + " must be a number"@),
            ),
        },
    }
}

/// A number as an unsigned one; 0 where it does not fit.
pub open spec fn unsigned(n: int) -> u32 {
    if 0 <= n <= u32::MAX {
        n as u32
    } else {
        0
    }
}

/// A number as a signed one; 0 where it does not fit.
pub open spec fn signed(n: int) -> i32 {
    if i32::MIN <= n <= i32::MAX {
        n as i32
    } else {
        0
    }
}

/// A content after a modifier.
pub open spec fn modified(content: ContentModel, option: RawModel) -> Result<
    ContentModel,
    ErrorModel,
> {
    if option.name == "nocase"@ {
        Ok(ContentModel { nocase: true, ..content })
    } else if option.name == "fast_pattern"@ {
        Ok(ContentModel { fast_pattern: true, ..content })
    } else if option.name == "startswith"@ {
        Ok(
            ContentModel {
                offset: Some(0),
                depth: Some(
                    if content.pattern.len() <= u32::MAX {
                        content.pattern.len() as u32
                    } else {
                        u32::MAX
                    },
                ),
                ..content
            },
        )
    } else {
        match modifier_number(option) {
            Err(error) => Err(error),
            Ok(n) => if option.name == "offset"@ {
                Ok(ContentModel { offset: Some(unsigned(n)), ..content })
            } else if option.name == "depth"@ {
                Ok(ContentModel { depth: Some(unsigned(n)), ..content })
            } else if option.name == "distance"@ {
                Ok(ContentModel { distance: Some(signed(n)), ..content })
            } else {
                Ok(ContentModel { within: Some(unsigned(n)), ..content })
            },
        }
    }
}

/// The state after a content modifier.
pub open spec fn adjusted(state: BuildState, option: RawModel) -> Result<BuildState, ErrorModel> {
    if state.matches.len() > 0 && state.matches.last() is Content {
        match modified(state.matches.last()->Content_0, option) {
            Err(error) => Err(error),
            Ok(content) => Ok(
                BuildState {
                    matches: state.matches.drop_last().push(OptionModel::Content(content)),
                    ..state
                },
            ),
        }
    } else {
        Err(
            ErrorModel::InvalidOptionValue(
                option.name,
                "no preceding content for this modifier"@,
            ),
        )
    }
}

/// The condition that an option's value gives, or why it gives none.
pub open spec fn condition_of(
    name: Seq<char>,
    text: Seq<char>,
    negated: bool,
    buffer: Buffer,
) -> Result<OptionModel, Seq<char>> {
    if name == "pcre"@ {
        match pcre_of(text) {
            Err(reason) => Err(reason),
            Ok(pcre) => Ok(OptionModel::Pcre(PcreModel { buffer, negated, ..pcre })),
        }
    } else if name == "flow"@ {
        match flow_of(text) {
            Err(reason) => Err(reason),
            Ok(flow) => Ok(OptionModel::Flow(flow)),
        }
    } else if name == "byte_test"@ {
        match byte_test_of(text) {
            Err(reason) => Err(reason),
            Ok(test) => Ok(OptionModel::ByteTest(test)),
        }
    } else if name == "byte_jump"@ {
        match byte_jump_of(text) {
            Err(reason) => Err(reason),
            Ok(jump) => Ok(OptionModel::ByteJump(jump)),
        }
    } else if name == "dsize"@ {
        match dsize_of(text) {
            Err(reason) => Err(reason),
            Ok(dsize) => Ok(OptionModel::Dsize(dsize)),
        }
    } else {
        match condition_named(text) {
            None => Err("unknown condition "@ + quoted(text)),
            Some(condition) => Ok(OptionModel::Normalized(condition)),
        }
    }
}

/// The host condition that alternatives give.
pub open spec fn host_condition(
    field: HostField,
    matcher: HostMatcherModel,
    negated: bool,
) -> OptionModel {
    OptionModel::Host(HostFieldModel { field, matcher, negated })
}

/// The host field whose `.pcre` form a keyword is.
pub open spec fn pcre_field(name: Seq<char>) -> Option<HostField> {
    if ends(name, ".pcre"@) {
        field_named(name.take(name.len() - ".pcre"@.len()))
    } else {
        None
    }
}

/// The state after an option that adds to the match conditions.
pub open spec fn extended(state: BuildState, option: RawModel) -> Result<BuildState, ErrorModel> {
    match text_value(option) {
        Err(error) => Err(error),
        Ok(text) => if option.name == "content"@ {
            match content_of(text) {
                Err(reason) => Err(ErrorModel::InvalidOptionValue(option.name, reason)),
                Ok(pattern) => if pattern.len() == 0 {
                    Err(ErrorModel::InvalidOptionValue(option.name, "content must not be empty"@))
                } else {
                    Ok(
                        BuildState {
                            matches: state.matches.push(
                                OptionModel::Content(
                                    ContentModel::bare(pattern, state.buffer, option.negated),
                                ),
                            ),
                            ..state
                        },
                    )
                },
            }
        } else if option.name == "flowbits"@ {
            match flowbits_of(text) {
                Err(reason) => Err(ErrorModel::InvalidOptionValue(option.name, reason)),
                Ok(op) => if op is NoAlert {
                    Ok(BuildState { no_alert: true, ..state })
                } else {
                    Ok(
                        BuildState { matches: state.matches.push(OptionModel::FlowBits(op)), ..state },
                    )
                },
            }
        } else {
            match condition_of(option.name, text, option.negated, state.buffer) {
                Err(reason) => Err(ErrorModel::InvalidOptionValue(option.name, reason)),
                Ok(condition) => Ok(
                    BuildState { matches: state.matches.push(condition), ..state },
                ),
            }
        },
    }
}

/// The state after a threshold.
pub open spec fn limited(state: BuildState, option: RawModel) -> Result<BuildState, ErrorModel> {
    if state.threshold is Some {
        Err(ErrorModel::DuplicateOption("threshold"@))
    } else {
        match text_value(option) {
            Err(error) => Err(error),
            Ok(text) => match threshold_of(text) {
                Err(reason) => Err(ErrorModel::InvalidOptionValue(option.name, reason)),
                Ok(threshold) => Ok(BuildState { threshold: Some(threshold), ..state }),
            },
        }
    }
}

/// The state after an option that looks at a host event.
pub open spec fn hosted(state: BuildState, option: RawModel) -> Result<BuildState, ErrorModel> {
    match text_value(option) {
        Err(error) => Err(error),
        Ok(text) => match field_named(option.name) {
            Some(field) => match host_values_of(text) {
                Err(reason) => Err(ErrorModel::InvalidOptionValue(option.name, reason)),
                Ok(values) => Ok(
                    BuildState {
                        matches: state.matches.push(
                            host_condition(
                                field,
                                HostMatcherModel::AnyOf {
                                    values,
                                    kind: field.match_kind(),
                                    nocase: false,
                                },
                                option.negated,
                            ),
                        ),
                        ..state
                    },
                ),
            },
            None => if trimmed(text).len() == 0 {
                Err(ErrorModel::InvalidOptionValue(option.name, "empty expression"@))
            } else {
                Ok(
                    BuildState {
                        matches: state.matches.push(
                            host_condition(
                                pcre_field(option.name)->0,
                                HostMatcherModel::Regex(text),
                                option.negated,
                            ),
                        ),
                        ..state
                    },
                )
            },
        },
    }
}

/// The state after one more option.
pub open spec fn step(state: BuildState, option: RawModel) -> Result<BuildState, ErrorModel> {
    if is_descriptive(option.name) {
        described(state, option)
    } else if buffer_named(option.name) is Some {
        if option.value is Some {
            Err(
                ErrorModel::InvalidOptionValue(
                    option.name,
                    "a sticky-buffer keyword takes no value"@,
                ),
            )
        } else {
            Ok(BuildState { buffer: buffer_named(option.name)->0, ..state })
        }
    } else if is_modifier(option.name) {
        adjusted(state, option)
    } else if option.name == "content"@ || option.name == "flowbits"@ || is_condition(option.name) {
        extended(state, option)
    } else if option.name == "threshold"@ {
        limited(state, option)
    } else if field_named(option.name) is Some || pcre_field(option.name) is Some {
        hosted(state, option)
    } else if is_unimplemented(option.name) {
        if state.unsupported.contains(option.name) {
            Ok(state)
        } else {
            Ok(BuildState { unsupported: state.unsupported.push(option.name), ..state })
        }
    } else {
        Err(ErrorModel::UnknownOption(option.name))
    }
}

/// The state after the options from a place on.
pub open spec fn built_from(state: BuildState, options: Seq<RawModel>, i: int) -> Result<
    BuildState,
    ErrorModel,
>
    decreases options.len() - i,
{
    if i < 0 || i >= options.len() {
        Ok(state)
    } else {
        match step(state, options[i]) {
            Err(error) => Err(error),
            Ok(next) => built_from(next, options, i + 1),
        }
    }
}

/// The rule that a header and the state of its options make.
pub open spec fn assembled(header: HeaderModel, state: BuildState, raw: Seq<char>) -> Result<
    RuleModel,
    ErrorModel,
> {
    match (state.sid, state.msg) {
        (None, _) => Err(ErrorModel::MissingSid),
        (Some(_), None) => Err(ErrorModel::MissingMsg),
        (Some(sid), Some(msg)) => Ok(
            RuleModel {
                header,
                sid,
                rev: match state.rev {
                    Some(rev) => rev,
                    None => 1,
                },
                gid: state.gid,
                priority: state.priority,
                msg,
                classtype: state.classtype,
                metadata: state.metadata,
                references: state.references,
                options: state.matches,
                threshold: state.threshold,
                no_alert: state.no_alert,
                unsupported_options: state.unsupported,
                raw,
                origin: None,
            },
        ),
    }
}

/// The rule that a text holds, or the first thing wrong with it.
pub open spec fn rule_of(text: Seq<char>) -> Result<RuleModel, ErrorModel> {
    let raw = trimmed(text);
    if raw.len() == 0 {
        Err(ErrorModel::Empty)
    } else {
        match (first_of(raw, '('), last_of(raw, ')')) {
            (None, _) => Err(ErrorModel::MissingOptionBlock),
            (Some(_), None) => Err(ErrorModel::UnterminatedOptionBlock),
            (Some(open), Some(close)) => if close < open {
                Err(ErrorModel::UnterminatedOptionBlock)
            } else {
                match header_of(raw.take(open)) {
                    Err(error) => Err(error),
                    Ok(header) => match raws_of(raw.subrange(open + 1, close)) {
                        Err(error) => Err(error),
                        Ok(options) => match built_from(BuildState::initial(), options, 0) {
                            Err(error) => Err(error),
                            Ok(state) => assembled(header, state, raw),
                        },
                    },
                }
            },
        }
    }
}

/// What the options of a rule have said so far.
struct Builder {
    sid: Option<u32>,
    rev: Option<u32>,
    gid: Option<u32>,
    priority: Option<u8>,
    msg: Option<String>,
    classtype: Option<String>,
    threshold: Option<Threshold>,
    metadata: Vec<MetadataEntry>,
    references: Vec<String>,
    matches: Vec<RuleOption>,
    unsupported: Vec<String>,
    no_alert: bool,
    buffer: Buffer,
}

impl View for Builder {
    type V = BuildState;

    closed spec fn view(&self) -> BuildState {
        BuildState {
            sid: self.sid,
            rev: self.rev,
            gid: self.gid,
            priority: self.priority,
            msg: optional_text(self.msg),
            classtype: optional_text(self.classtype),
            threshold: self.threshold,
            metadata: entries(self.metadata@),
            references: texts(self.references@),
            matches: option_models(self.matches@),
            unsupported: texts(self.unsupported@),
            no_alert: self.no_alert,
            buffer: self.buffer,
        }
    }
}

fn duplicate(name: &str) -> (error: ParseError)
    ensures
        error@ == ErrorModel::DuplicateOption(name@),
{
    ParseError::DuplicateOption(owned(name))
}

fn require_value(option: &RawOption) -> (result: Result<&[char], ParseError>)
    ensures
        match result {
            Ok(value) => text_value(option@) == Ok::<Seq<char>, ErrorModel>(value@),
            Err(error) => text_value(option@) == Err::<Seq<char>, ErrorModel>(error@),
        },
{
    match &option.value {
        Some(value) => Ok(value.as_slice()),
        None => Err(ParseError::MissingOptionValue(string_of(option.name.as_slice()))),
    }
}

fn parse_u32_option(option: &RawOption) -> (result: Result<u32, ParseError>)
    ensures
        match result {
            Ok(n) => u32_value(option@) == Ok::<u32, ErrorModel>(n),
            Err(error) => u32_value(option@) == Err::<u32, ErrorModel>(error@),
        },
{
    match require_value(option) {
        Err(error) => Err(error),
        Ok(value) => {
            let body = trim(value);
            match parse_number(body, 10, u32::MAX as u64) {
                Some(n) => Ok(n as u32),
                None => {
                    let plain = string_of(body);
                    let mut reason = quote(plain.as_str());
                    append(&mut reason, " is not a number");
                    Err(ParseError::invalid(option.name.as_slice(), reason))
                },
            }
        },
    }
}

fn parse_modifier_number(option: &RawOption) -> (result: Result<i64, ParseError>)
    ensures
        match result {
            Ok(n) => modifier_number(option@) == Ok::<int, ErrorModel>(n as int),
            Err(error) => modifier_number(option@) == Err::<int, ErrorModel>(error@),
        },
{
    match require_value(option) {
        Err(error) => Err(error),
        Ok(value) => match parse_signed(trim(value), i64::MIN, i64::MAX) {
            Some(n) => Ok(n),
            None => {
                let mut reason = string_of(option.name.as_slice());
                append(&mut reason, " must be a number");
                Err(ParseError::invalid(option.name.as_slice(), reason))
            },
        },
    }
}

fn to_unsigned(n: i64) -> (value: u32)
    ensures
        value == unsigned(n as int),
{
    if 0 <= n && n <= u32::MAX as i64 {
        n as u32
    } else {
        0
    }
}

fn to_signed(n: i64) -> (value: i32)
    ensures
        value == signed(n as int),
{
    if i32::MIN as i64 <= n && n <= i32::MAX as i64 {
        n as i32
    } else {
        0
    }
}

/// Apply a modifier to a content.
fn modify(content: &mut ContentMatch, option: &RawOption) -> (result: Result<(), ParseError>)
    ensures
        match result {
            Ok(_) => modified(old(content)@, option@) == Ok::<ContentModel, ErrorModel>(
                final(content)@,
            ),
            Err(error) => modified(old(content)@, option@) == Err::<ContentModel, ErrorModel>(
                error@,
            ),
        },
{
    let name = option.name.as_slice();
    if spells(name, "nocase") {
        content.nocase = true;
    } else if spells(name, "fast_pattern") {
        content.fast_pattern = true;
    } else if spells(name, "startswith") {
        // Exactly "at the very start": offset 0, and no further than the
        // pattern's own length.
        content.offset = Some(0);
        let length: u64 = content.pattern.len() as u64;
        content.depth = Some(
            if length <= u32::MAX as u64 {
                length as u32
            } else {
                u32::MAX
            },
        );
    } else {
        let n: i64 = match parse_modifier_number(option) {
            Ok(n) => n,
            Err(error) => return Err(error),
        };
        if spells(name, "offset") {
            content.offset = Some(to_unsigned(n));
        } else if spells(name, "depth") {
            content.depth = Some(to_unsigned(n));
        } else if spells(name, "distance") {
            content.distance = Some(to_signed(n));
        } else {
            content.within = Some(to_unsigned(n));
        }
    }
    Ok(())
}

/// Parse the value of an option that becomes one match condition.
fn parse_condition(name: &[char], text: &[char], negated: bool, buffer: Buffer) -> (result: Result<
    RuleOption,
    String,
>)
    ensures
        match result {
            Ok(condition) => condition_of(name@, text@, negated, buffer) == Ok::<
                OptionModel,
                Seq<char>,
            >(condition@),
            Err(reason) => condition_of(name@, text@, negated, buffer) == Err::<
                OptionModel,
                Seq<char>,
            >(reason@),
        },
{
    if spells(name, "pcre") {
        match parse_pcre(text) {
            Err(reason) => Err(reason),
            Ok(found) => {
                let mut pcre = found;
                pcre.buffer = buffer;
                pcre.negated = negated;
                Ok(RuleOption::Pcre(pcre))
            },
        }
    } else if spells(name, "flow") {
        match parse_flow(text) {
            Err(reason) => Err(reason),
            Ok(flow) => Ok(RuleOption::Flow(flow)),
        }
    } else if spells(name, "byte_test") {
        match parse_byte_test(text) {
            Err(reason) => Err(reason),
            Ok(test) => Ok(RuleOption::ByteTest(test)),
        }
    } else if spells(name, "byte_jump") {
        match parse_byte_jump(text) {
            Err(reason) => Err(reason),
            Ok(jump) => Ok(RuleOption::ByteJump(jump)),
        }
    } else if spells(name, "dsize") {
        match parse_dsize(text) {
            Err(reason) => Err(reason),
            Ok(dsize) => Ok(RuleOption::Dsize(dsize)),
        }
    } else {
        let plain = string_of(text);
        match NormalizationCondition::parse(plain.as_str()) {
            None => {
                let mut reason = owned("unknown condition ");
                let form = quote(plain.as_str());
                append(&mut reason, form.as_str());
                Err(reason)
            },
            Some(condition) => Ok(RuleOption::Normalized(condition)),
        }
    }
}

impl Builder {
    fn new() -> (builder: Self)
        ensures
            builder@ == BuildState::initial(),
    {
        let builder = Builder {
            sid: None,
            rev: None,
            gid: None,
            priority: None,
            msg: None,
            classtype: None,
            threshold: None,
            metadata: Vec::new(),
            references: Vec::new(),
            matches: Vec::new(),
            unsupported: Vec::new(),
            no_alert: false,
            // A sticky-buffer keyword applies to everything after it until the
            // next one, which is what lets a single rule look at the URI and
            // then the headers.
            buffer: Buffer::Payload,
        };
        assert(builder@.metadata =~= seq![]);
        assert(builder@.references =~= seq![]);
        assert(builder@.matches =~= seq![]);
        assert(builder@.unsupported =~= seq![]);
        builder
    }

    fn push_match(&mut self, condition: RuleOption)
        ensures
            final(self)@ == (BuildState {
                matches: old(self)@.matches.push(condition@),
                ..old(self)@
            }),
    {
        let ghost before = self.matches@;
        self.matches.push(condition);
        assert(option_models(self.matches@) =~= option_models(before).push(condition@));
    }

    fn describe_number(&mut self, option: &RawOption) -> (result: Result<(), ParseError>)
        requires
            option@.name == "sid"@ || option@.name == "rev"@ || option@.name == "gid"@
                || option@.name == "priority"@,
        ensures
            match result {
                Ok(_) => described(old(self)@, option@) == Ok::<BuildState, ErrorModel>(
                    final(self)@,
                ),
                Err(error) => described(old(self)@, option@) == Err::<BuildState, ErrorModel>(
                    error@,
                ),
            },
    {
        let name = option.name.as_slice();
        if spells(name, "sid") {
            if self.sid.is_some() {
                return Err(duplicate("sid"));
            }
            match parse_u32_option(option) {
                Ok(n) => self.sid = Some(n),
                Err(error) => return Err(error),
            }
        } else if spells(name, "rev") {
            if self.rev.is_some() {
                return Err(duplicate("rev"));
            }
            match parse_u32_option(option) {
                Ok(n) => self.rev = Some(n),
                Err(error) => return Err(error),
            }
        } else if spells(name, "gid") {
            if self.gid.is_some() {
                return Err(duplicate("gid"));
            }
            match parse_u32_option(option) {
                Ok(n) => self.gid = Some(n),
                Err(error) => return Err(error),
            }
        } else {
            if self.priority.is_some() {
                return Err(duplicate("priority"));
            }
            match parse_u32_option(option) {
                Ok(n) => {
                    if n < 1 || n > 255 {
                        return Err(
                            ParseError::invalid(name, owned("priority must be between 1 and 255")),
                        );
                    }
                    self.priority = Some(n as u8);
                },
                Err(error) => return Err(error),
            }
        }
        Ok(())
    }

    fn describe(&mut self, option: &RawOption) -> (result: Result<(), ParseError>)
        requires
            is_descriptive(option@.name),
        ensures
            match result {
                Ok(_) => described(old(self)@, option@) == Ok::<BuildState, ErrorModel>(
                    final(self)@,
                ),
                Err(error) => described(old(self)@, option@) == Err::<BuildState, ErrorModel>(
                    error@,
                ),
            },
    {
        let name = option.name.as_slice();
        if spells(name, "sid") || spells(name, "rev") || spells(name, "gid") || spells(
            name,
            "priority",
        ) {
            return self.describe_number(option);
        }
        if spells(name, "msg") {
            if self.msg.is_some() {
                return Err(duplicate("msg"));
            }
        } else if spells(name, "classtype") {
            if self.classtype.is_some() {
                return Err(duplicate("classtype"));
            }
        }
        let text = match require_value(option) {
            Ok(text) => text,
            Err(error) => return Err(error),
        };
        if spells(name, "msg") {
            if trim(text).len() == 0 {
                return Err(ParseError::invalid(name, owned("msg must not be empty")));
            }
            self.msg = Some(string_of(text));
        } else if spells(name, "classtype") {
            self.classtype = Some(string_of(text));
        } else if spells(name, "metadata") {
            parse_metadata(text, &mut self.metadata);
        } else {
            let ghost before = self.references@;
            self.references.push(string_of(text));
            assert(texts(self.references@) =~= texts(before).push(text@));
        }
        Ok(())
    }

    /// Apply a modifier to the most recent `content`.
    ///
    /// Modifiers are separate options that attach backwards, so one arriving
    /// with no content in front of it is a rule that does not mean what its
    /// author thought: an error, not something to ignore.
    fn apply_content_modifier(&mut self, option: &RawOption) -> (result: Result<(), ParseError>)
        ensures
            match result {
                Ok(_) => adjusted(old(self)@, option@) == Ok::<BuildState, ErrorModel>(
                    final(self)@,
                ),
                Err(error) => adjusted(old(self)@, option@) == Err::<BuildState, ErrorModel>(
                    error@,
                ),
            },
    {
        let ghost before = self.matches@;
        let ghost models = option_models(before);
        match self.matches.pop() {
            Some(RuleOption::Content(found)) => {
                assert(models.last() == before.last()@);
                let mut content = found;
                match modify(&mut content, option) {
                    Err(error) => Err(error),
                    Ok(_) => {
                        self.matches.push(RuleOption::Content(content));
                        assert(option_models(self.matches@) =~= models.drop_last().push(
                            OptionModel::Content(content@),
                        ));
                        Ok(())
                    },
                }
            },
            other => {
                assert(before.len() > 0 ==> models.last() == before.last()@);
                Err(
                    ParseError::invalid(
                        option.name.as_slice(),
                        owned("no preceding content for this modifier"),
                    ),
                )
            },
        }
    }

    fn extend(&mut self, option: &RawOption) -> (result: Result<(), ParseError>)
        ensures
            match result {
                Ok(_) => extended(old(self)@, option@) == Ok::<BuildState, ErrorModel>(
                    final(self)@,
                ),
                Err(error) => extended(old(self)@, option@) == Err::<BuildState, ErrorModel>(
                    error@,
                ),
            },
    {
        let name = option.name.as_slice();
        let text = match require_value(option) {
            Ok(text) => text,
            Err(error) => return Err(error),
        };
        if spells(name, "content") {
            match parse_content_pattern(text) {
                Err(reason) => Err(ParseError::invalid(name, reason)),
                Ok(pattern) => {
                    if pattern.len() == 0 {
                        return Err(ParseError::invalid(name, owned("content must not be empty")));
                    }
                    let mut content = ContentMatch::new(pattern);
                    content.buffer = self.buffer;
                    content.negated = option.negated;
                    self.push_match(RuleOption::Content(content));
                    Ok(())
                },
            }
        } else if spells(name, "flowbits") {
            match parse_flowbits(text) {
                Err(reason) => Err(ParseError::invalid(name, reason)),
                Ok(op) => {
                    if matches!(op, FlowBitsOp::NoAlert) {
                        self.no_alert = true;
                    } else {
                        self.push_match(RuleOption::FlowBits(op));
                    }
                    Ok(())
                },
            }
        } else {
            match parse_condition(name, text, option.negated, self.buffer) {
                Err(reason) => Err(ParseError::invalid(name, reason)),
                Ok(condition) => {
                    self.push_match(condition);
                    Ok(())
                },
            }
        }
    }

    fn limit(&mut self, option: &RawOption) -> (result: Result<(), ParseError>)
        ensures
            match result {
                Ok(_) => limited(old(self)@, option@) == Ok::<BuildState, ErrorModel>(
                    final(self)@,
                ),
                Err(error) => limited(old(self)@, option@) == Err::<BuildState, ErrorModel>(
                    error@,
                ),
            },
    {
        if self.threshold.is_some() {
            return Err(duplicate("threshold"));
        }
        match require_value(option) {
            Err(error) => Err(error),
            Ok(text) => match parse_threshold(text) {
                Err(reason) => Err(ParseError::invalid(option.name.as_slice(), reason)),
                Ok(threshold) => {
                    self.threshold = Some(threshold);
                    Ok(())
                },
            },
        }
    }

    fn host(&mut self, option: &RawOption, field: HostField, expression: bool) -> (result: Result<
        (),
        ParseError,
    >)
        requires
            expression ==> field_named(option@.name) is None && pcre_field(option@.name) == Some(
                field,
            ),
            !expression ==> field_named(option@.name) == Some(field),
        ensures
            match result {
                Ok(_) => hosted(old(self)@, option@) == Ok::<BuildState, ErrorModel>(final(self)@),
                Err(error) => hosted(old(self)@, option@) == Err::<BuildState, ErrorModel>(error@),
            },
    {
        let name = option.name.as_slice();
        let text = match require_value(option) {
            Ok(text) => text,
            Err(error) => return Err(error),
        };
        let matcher = if expression {
            if trim(text).len() == 0 {
                return Err(ParseError::invalid(name, owned("empty expression")));
            }
            HostMatcher::Regex(string_of(text))
        } else {
            match parse_host_values(text) {
                Err(reason) => return Err(ParseError::invalid(name, reason)),
                Ok(values) => HostMatcher::AnyOf {
                    values,
                    kind: field.default_match_kind(),
                    nocase: false,
                },
            }
        };
        self.push_match(
            RuleOption::Host(HostFieldMatch { field, matcher, negated: option.negated }),
        );
        Ok(())
    }

    /// Note an option that is recognised but not evaluated, once.
    fn note_unsupported(&mut self, name: &[char])
        ensures
            final(self)@ == (if old(self)@.unsupported.contains(name@) {
                old(self)@
            } else {
                BuildState { unsupported: old(self)@.unsupported.push(name@), ..old(self)@ }
            }),
    {
        let ghost names = texts(self.unsupported@);
        let keyword = string_of(name);
        let mut i: usize = 0;
        while i < self.unsupported.len()
            invariant
                names == texts(self.unsupported@),
                i <= names.len(),
                keyword@ == name@,
                self@ == old(self)@,
                forall|j: int| 0 <= j < i ==> #[trigger] names[j] != name@,
            decreases names.len() - i,
        {
            assert(names[i as int] == self.unsupported@[i as int]@);
            if equal(self.unsupported[i].as_str(), keyword.as_str()) {
                assert(names.contains(name@));
                return;
            }
            i = i + 1;
        }
        let ghost before = self.unsupported@;
        self.unsupported.push(keyword);
        assert(texts(self.unsupported@) =~= texts(before).push(name@));
    }

    fn apply_host(&mut self, option: &RawOption) -> (result: Option<Result<(), ParseError>>)
        ensures
            result is Some <==> field_named(option@.name) is Some || pcre_field(option@.name)
                is Some,
            match result {
                Some(Ok(_)) => hosted(old(self)@, option@) == Ok::<BuildState, ErrorModel>(
                    final(self)@,
                ),
                Some(Err(error)) => hosted(old(self)@, option@) == Err::<BuildState, ErrorModel>(
                    error@,
                ),
                None => final(self)@ == old(self)@,
            },
    {
        let name = option.name.as_slice();
        let keyword = string_of(name);
        if let Some(field) = HostField::from_keyword(keyword.as_str()) {
            return Some(self.host(option, field, false));
        }
        proof {
            reveal_strlit(".pcre");
            assert(".pcre"@.len() == 5);
        }
        if ends_with(name, ".pcre") {
            assert(name@.len() == name.len());
            let stem = string_of(head(name, name.len() - 5));
            if let Some(field) = HostField::from_keyword(stem.as_str()) {
                return Some(self.host(option, field, true));
            }
        }
        None
    }

    fn apply(&mut self, option: &RawOption) -> (result: Result<(), ParseError>)
        ensures
            match result {
                Ok(_) => step(old(self)@, option@) == Ok::<BuildState, ErrorModel>(final(self)@),
                Err(error) => step(old(self)@, option@) == Err::<BuildState, ErrorModel>(error@),
            },
    {
        let name = option.name.as_slice();
        if spells(name, "sid") || spells(name, "rev") || spells(name, "gid") || spells(
            name,
            "priority",
        ) || spells(name, "msg") || spells(name, "classtype") || spells(name, "metadata")
            || spells(name, "reference") {
            return self.describe(option);
        }
        let keyword = string_of(name);
        if let Some(buffer) = Buffer::from_keyword(keyword.as_str()) {
            if option.value.is_some() {
                return Err(
                    ParseError::invalid(name, owned("a sticky-buffer keyword takes no value")),
                );
            }
            self.buffer = buffer;
            return Ok(());
        }
        if spells(name, "nocase") || spells(name, "fast_pattern") || spells(name, "startswith")
            || spells(name, "offset") || spells(name, "depth") || spells(name, "distance")
            || spells(name, "within") {
            return self.apply_content_modifier(option);
        }
        if spells(name, "content") || spells(name, "flowbits") || spells(name, "pcre") || spells(
            name,
            "flow",
        ) || spells(name, "byte_test") || spells(name, "byte_jump") || spells(name, "dsize")
            || spells(name, "normalized") {
            return self.extend(option);
        }
        if spells(name, "threshold") {
            return self.limit(option);
        }
        if let Some(result) = self.apply_host(option) {
            return result;
        }
        if unimplemented(name) {
            self.note_unsupported(name);
            return Ok(());
        }
        Err(ParseError::UnknownOption(keyword))
    }

    fn finish(self, header: RuleHeader, raw: &[char]) -> (result: Result<Rule, ParseError>)
        ensures
            match result {
                Ok(rule) => assembled(header@, self@, raw@) == Ok::<RuleModel, ErrorModel>(rule@),
                Err(error) => assembled(header@, self@, raw@) == Err::<RuleModel, ErrorModel>(
                    error@,
                ),
            },
    {
        let sid: u32 = match self.sid {
            Some(sid) => sid,
            None => return Err(ParseError::MissingSid),
        };
        let msg = match self.msg {
            Some(msg) => msg,
            None => return Err(ParseError::MissingMsg),
        };
        Ok(
            Rule {
                header,
                sid,
                rev: match self.rev {
                    Some(rev) => rev,
                    None => 1,
                },
                gid: self.gid,
                priority: self.priority,
                msg,
                classtype: self.classtype,
                metadata: self.metadata,
                references: self.references,
                options: self.matches,
                threshold: self.threshold,
                no_alert: self.no_alert,
                unsupported_options: self.unsupported,
                raw: string_of(raw),
                origin: None,
            },
        )
    }
}

/// Fold the parsed options into a [`Rule`], separating the ones this build
/// interprets from the ones it only recognises.
fn build_rule(header: RuleHeader, options: Vec<RawOption>, raw: &[char]) -> (result: Result<
    Rule,
    ParseError,
>)
    ensures
        ({
            let built = match built_from(BuildState::initial(), raw_models(options@), 0) {
                Err(error) => Err(error),
                Ok(state) => assembled(header@, state, raw@),
            };
            match result {
                Ok(rule) => built == Ok::<RuleModel, ErrorModel>(rule@),
                Err(error) => built == Err::<RuleModel, ErrorModel>(error@),
            }
        }),
{
    let ghost models = raw_models(options@);
    let mut builder = Builder::new();
    let mut i: usize = 0;
    while i < options.len()
        invariant
            models == raw_models(options@),
            i <= models.len(),
            built_from(builder@, models, i as int) == built_from(BuildState::initial(), models, 0),
        decreases models.len() - i,
    {
        assert(models[i as int] == options@[i as int]@);
        match builder.apply(&options[i]) {
            Ok(_) => (),
            Err(error) => return Err(error),
        }
        i = i + 1;
    }
    builder.finish(header, raw)
}

/// Parse one rule.
///
/// `text` must be a single rule with any line continuations already joined; see
/// [`super::loader`] for reading whole files.
pub fn parse_rule(text: &str) -> (result: Result<Rule, ParseError>)
    ensures
        match result {
            Ok(rule) => rule_of(text@) == Ok::<RuleModel, ErrorModel>(rule@),
            Err(error) => rule_of(text@) == Err::<RuleModel, ErrorModel>(error@),
        },
{
    let chars = chars_of(text);
    let raw = trim(chars.as_slice());
    if raw.len() == 0 {
        return Err(ParseError::Empty);
    }
    let open: usize = match find(raw, '(') {
        Some(open) => open,
        None => return Err(ParseError::MissingOptionBlock),
    };
    let close: usize = match rfind(raw, ')') {
        Some(close) => close,
        None => return Err(ParseError::UnterminatedOptionBlock),
    };
    if close < open {
        return Err(ParseError::UnterminatedOptionBlock);
    }
    proof {
        crate::text::lemma_first_of(raw@, '(');
        crate::text::lemma_last_of(raw@, ')');
        assert(open < close);
    }
    let header = match parse_header(head(raw, open)) {
        Ok(header) => header,
        Err(error) => return Err(error),
    };
    assert(open < raw.len());
    let block = tail(head(raw, close), open + 1);
    assert(block@ =~= raw@.subrange(open + 1, close as int));
    let options = match parse_options(block) {
        Ok(options) => options,
        Err(error) => return Err(error),
    };
    build_rule(header, options, raw)
}

// ---------------------------------------------------------------------------
// laws
// ---------------------------------------------------------------------------

/// A match condition that means something: its pattern is not empty, it reads a
/// number of bytes that fits in 64 bits, and it is not the mark that a rule does not
/// alert, which is no condition.
pub open spec fn meaningful(option: OptionModel) -> bool {
    match option {
        OptionModel::Content(content) => content.pattern.len() > 0,
        OptionModel::ByteTest(test) => 1 <= test.bytes <= 8,
        OptionModel::ByteJump(jump) => 1 <= jump.bytes <= 8,
        OptionModel::FlowBits(op) => !(op is NoAlert),
        _ => true,
    }
}

/// Whether a port expression can be met: a range with both ends is in order.
pub open spec fn in_order(port: PortModel) -> bool {
    port matches PortModel::Range(Some(low), Some(high)) ==> low <= high
}

/// What holds of the options of a rule after each of them.
spec fn sound(state: BuildState) -> bool {
    &&& state.msg matches Some(msg) ==> trimmed(msg).len() > 0
    &&& state.priority matches Some(priority) ==> priority >= 1
    &&& state.threshold matches Some(threshold) ==> threshold.count >= 1
    &&& forall|i: int| 0 <= i < state.matches.len() ==> meaningful(#[trigger] state.matches[i])
}

proof fn lemma_test_keeps_its_width(test: ByteTest, parts: Seq<Seq<char>>, i: int)
    ensures
        tested_from(test, parts, i) matches Ok(after) ==> after.bytes == test.bytes,
    decreases parts.len() - i,
{
    if 0 <= i < parts.len() {
        lemma_test_keeps_its_width(ByteTest { relative: true, ..test }, parts, i + 1);
        lemma_test_keeps_its_width(ByteTest { endian: Endian::Big, ..test }, parts, i + 1);
        lemma_test_keeps_its_width(ByteTest { endian: Endian::Little, ..test }, parts, i + 1);
        lemma_test_keeps_its_width(test, parts, i + 1);
    }
}

proof fn lemma_jump_keeps_its_width(jump: ByteJump, parts: Seq<Seq<char>>, i: int)
    ensures
        jumped_from(jump, parts, i) matches Ok(after) ==> after.bytes == jump.bytes,
    decreases parts.len() - i,
{
    if 0 <= i < parts.len() {
        lemma_jump_keeps_its_width(ByteJump { relative: true, ..jump }, parts, i + 1);
        lemma_jump_keeps_its_width(ByteJump { endian: Endian::Big, ..jump }, parts, i + 1);
        lemma_jump_keeps_its_width(ByteJump { endian: Endian::Little, ..jump }, parts, i + 1);
        lemma_jump_keeps_its_width(jump, parts, i + 1);
        let pair = words(parts[i]);
        if pair.len() >= 2 {
            if let Some(value) = number(pair[1], 10, u32::MAX as int) {
                lemma_jump_keeps_its_width(
                    ByteJump { multiplier: value as u32, ..jump },
                    parts,
                    i + 1,
                );
            }
            if let Some(value) = signed_number(pair[1], i32::MIN as int, i32::MAX as int) {
                lemma_jump_keeps_its_width(
                    ByteJump { post_offset: value as i32, ..jump },
                    parts,
                    i + 1,
                );
            }
        }
    }
}

proof fn lemma_conditions_are_meaningful(
    name: Seq<char>,
    text: Seq<char>,
    negated: bool,
    buffer: Buffer,
)
    ensures
        condition_of(name, text, negated, buffer) matches Ok(condition) ==> meaningful(condition),
{
    if name == "byte_test"@ && byte_test_of(text) is Ok {
        let parts = comma_parts(text);
        let test = ByteTest {
            bytes: width_of(parts[0], "byte_test can read between 1 and 8 bytes"@)->Ok_0 as u8,
            op: op_named(plain_operator(parts[1]))->0,
            value: number(parts[2], 10, u64::MAX as int)->0 as u64,
            offset: signed_number(parts[3], i32::MIN as int, i32::MAX as int)->0 as i32,
            relative: false,
            endian: Endian::Big,
            negated: parts[1].len() > 0 && parts[1][0] == '!',
        };
        lemma_test_keeps_its_width(test, parts, 4);
    }
    if name == "byte_jump"@ && byte_jump_of(text) is Ok {
        let parts = comma_parts(text);
        let jump = ByteJump {
            bytes: width_of(parts[0], "byte_jump can read between 1 and 8 bytes"@)->Ok_0 as u8,
            offset: signed_number(parts[1], i32::MIN as int, i32::MAX as int)->0 as i32,
            relative: false,
            multiplier: 1,
            endian: Endian::Big,
            post_offset: 0,
        };
        lemma_jump_keeps_its_width(jump, parts, 2);
    }
}

proof fn lemma_step_is_sound(state: BuildState, option: RawModel)
    requires
        sound(state),
    ensures
        step(state, option) matches Ok(next) ==> sound(next),
{
    if option.value is Some {
        lemma_conditions_are_meaningful(
            option.name,
            option.value->0,
            option.negated,
            state.buffer,
        );
    }
}

proof fn lemma_built_is_sound(state: BuildState, options: Seq<RawModel>, i: int)
    requires
        sound(state),
    ensures
        built_from(state, options, i) matches Ok(after) ==> sound(after),
    decreases options.len() - i,
{
    if 0 <= i < options.len() {
        lemma_step_is_sound(state, options[i]);
        if let Ok(next) = step(state, options[i]) {
            lemma_built_is_sound(next, options, i + 1);
        }
    }
}

/// Every rule that parses says what it is about and can be acted on: its message
/// is not blank, its priority is not 0, its threshold counts at least one event,
/// no content is empty, no byte operation reads more than 8 bytes or none, the mark
/// that it does not alert is not among its options, its port ranges are in order, and
/// it keeps its own text. Where it came from is left to the loader.
pub proof fn law_a_parsed_rule_is_sound(text: Seq<char>)
    ensures
        rule_of(text) matches Ok(rule) ==> {
            &&& trimmed(rule.msg).len() > 0
            &&& rule.raw == trimmed(text)
            &&& rule.origin is None
            &&& in_order(rule.header.source_port.1)
            &&& in_order(rule.header.destination_port.1)
            &&& rule.priority matches Some(priority) ==> priority >= 1
            &&& rule.threshold matches Some(threshold) ==> threshold.count >= 1
            &&& forall|i: int|
                0 <= i < rule.options.len() ==> meaningful(#[trigger] rule.options[i])
        },
{
    let raw = trimmed(text);
    if let (Some(open), Some(close)) = (first_of(raw, '('), last_of(raw, ')')) {
        if let Ok(options) = raws_of(raw.subrange(open + 1, close)) {
            lemma_built_is_sound(BuildState::initial(), options, 0);
        }
    }
}

proof fn lemma_unimplemented_is_nothing_else(name: Seq<char>)
    requires
        is_unimplemented(name),
    ensures
        !is_descriptive(name),
        buffer_named(name) is None,
        !is_modifier(name),
        !is_condition(name),
        name != "content"@,
        name != "flowbits"@,
        name != "threshold"@,
        field_named(name) is None,
        pcre_field(name) is None,
{
    reveal_strlit("endswith");
    reveal_strlit("detection_filter");
    reveal_strlit("target");
    reveal_strlit("sid");
    reveal_strlit("rev");
    reveal_strlit("gid");
    reveal_strlit("priority");
    reveal_strlit("msg");
    reveal_strlit("classtype");
    reveal_strlit("metadata");
    reveal_strlit("reference");
    reveal_strlit("http.uri");
    reveal_strlit("http.header");
    reveal_strlit("http.user_agent");
    reveal_strlit("http.method");
    reveal_strlit("http.host");
    reveal_strlit("nocase");
    reveal_strlit("fast_pattern");
    reveal_strlit("startswith");
    reveal_strlit("offset");
    reveal_strlit("depth");
    reveal_strlit("distance");
    reveal_strlit("within");
    reveal_strlit("pcre");
    reveal_strlit("flow");
    reveal_strlit("byte_test");
    reveal_strlit("byte_jump");
    reveal_strlit("dsize");
    reveal_strlit("normalized");
    reveal_strlit("content");
    reveal_strlit("flowbits");
    reveal_strlit("threshold");
    reveal_strlit("file.path");
    reveal_strlit(".pcre");
    let first = name[0];
    let last = name.last();
    let i = choose|i: int| 0 <= i < 3 && #[trigger] RECOGNISED_UNIMPLEMENTED_OPTIONS[i]@ == name;
    assert(i == 0 || i == 1 || i == 2);
    assert(RECOGNISED_UNIMPLEMENTED_OPTIONS[0]@ == "endswith"@
        && RECOGNISED_UNIMPLEMENTED_OPTIONS[1]@ == "detection_filter"@
        && RECOGNISED_UNIMPLEMENTED_OPTIONS[2]@ == "target"@);
    assert((name.len() == 8 && first == 'e' && last == 'h') || (name.len() == 16 && first == 'd'
        && last == 'r') || (name.len() == 6 && first == 't' && last == 't'));
    assert("priority"@[0] == 'p' && "metadata"@[0] == 'm' && "http.uri"@[0] == 'h' && "nocase"@[0]
        == 'n' && "offset"@[0] == 'o' && "distance"@[0] == 'd' && "within"@[0] == 'w'
        && "flowbits"@[0] == 'f');
    if ends(name, ".pcre"@) {
        assert(name.skip(name.len() - 5).last() == last);
        assert(".pcre"@.last() == 'e');
    }
}

proof fn lemma_what_is_unsupported(state: BuildState, options: Seq<RawModel>, i: int)
    requires
        0 <= i <= options.len(),
    ensures
        built_from(state, options, i) matches Ok(after) ==> (after.unsupported.len() == 0 <==> {
            &&& state.unsupported.len() == 0
            &&& forall|j: int|
                i <= j < options.len() ==> !is_unimplemented((#[trigger] options[j]).name)
        }),
    decreases options.len() - i,
{
    if i < options.len() {
        let option = options[i];
        if is_unimplemented(option.name) {
            lemma_unimplemented_is_nothing_else(option.name);
        }
        if let Ok(next) = step(state, option) {
            lemma_what_is_unsupported(next, options, i + 1);
            if is_unimplemented(option.name) {
                assert(next.unsupported.len() > 0);
            } else {
                assert(next.unsupported == state.unsupported);
            }
        }
    }
}

/// A rule is evaluable exactly when none of its options is one that this build
/// recognises without evaluating it.
pub proof fn law_unevaluated_options_are_never_ignored(text: Seq<char>)
    ensures
        rule_of(text) matches Ok(rule) ==> (rule.evaluable() <==> {
            let raw = trimmed(text);
            let options = raws_of(
                raw.subrange(first_of(raw, '(')->0 + 1, last_of(raw, ')')->0),
            )->Ok_0;
            forall|j: int|
                0 <= j < options.len() ==> !is_unimplemented((#[trigger] options[j]).name)
        }),
{
    let raw = trimmed(text);
    if let (Some(open), Some(close)) = (first_of(raw, '('), last_of(raw, ')')) {
        if let Ok(options) = raws_of(raw.subrange(open + 1, close)) {
            lemma_what_is_unsupported(BuildState::initial(), options, 0);
        }
    }
}

proof fn lemma_named_once(state: BuildState, options: Seq<RawModel>, i: int)
    requires
        state.unsupported.no_duplicates(),
    ensures
        built_from(state, options, i) matches Ok(after) ==> after.unsupported.no_duplicates(),
    decreases options.len() - i,
{
    if 0 <= i < options.len() {
        if let Ok(next) = step(state, options[i]) {
            assert(next.unsupported.no_duplicates()) by {
                if next.unsupported != state.unsupported {
                    assert(next.unsupported == state.unsupported.push(options[i].name));
                    assert(!state.unsupported.contains(options[i].name));
                }
            }
            lemma_named_once(next, options, i + 1);
        }
    }
}

/// A rule names each option that it uses and that is not evaluated once, however
/// often it uses it.
pub proof fn law_unsupported_options_are_named_once(text: Seq<char>)
    ensures
        rule_of(text) matches Ok(rule) ==> rule.unsupported_options.no_duplicates(),
{
    let raw = trimmed(text);
    if let (Some(open), Some(close)) = (first_of(raw, '('), last_of(raw, ')')) {
        if let Ok(options) = raws_of(raw.subrange(open + 1, close)) {
            lemma_named_once(BuildState::initial(), options, 0);
        }
    }
}

/// A rule for everything under a protocol, with a message and an identifier.
pub open spec fn least_rule(
    spelled: Seq<char>,
    message: Seq<char>,
    digits: Seq<char>,
) -> Seq<char> {
    "alert "@ + spelled + " any any -> any any "@ + "("@ + least_block(message, digits) + ")"@
}

/// Where the header of such a rule ends and its block stands.
proof fn lemma_least_rule_parts(
    protocol: Protocol,
    spelled: Seq<char>,
    message: Seq<char>,
    digits: Seq<char>,
)
    requires
        lowered(spelled) == protocol.keyword(),
    ensures
        ({
            let text = least_rule(spelled, message, digits);
            let header = "alert "@ + spelled + " any any -> any any "@;
            let block = least_block(message, digits);
            &&& trimmed(text) == text
            &&& text.len() > 0
            &&& first_of(text, '(') == Some(header.len() as int)
            &&& last_of(text, ')') == Some(text.len() - 1)
            &&& text.take(header.len() as int) == header
            &&& text.subrange(header.len() as int + 1, text.len() - 1) == block
        }),
{
    let text = least_rule(spelled, message, digits);
    let header = "alert "@ + spelled + " any any -> any any "@;
    let block = least_block(message, digits);
    reveal_strlit("alert ");
    reveal_strlit(" any any -> any any ");
    reveal_strlit("(");
    reveal_strlit(")");
    lemma_a_keyword_is_letters(protocol, spelled);
    assert(text[0] == 'a' && text.last() == ')');
    assert(text[header.len() as int] == '(');
    assert forall|i: int| 0 <= i < header.len() implies #[trigger] text[i] != '(' by {
        assert(text[i] == header[i]);
        if 6 <= i < 6 + spelled.len() {
            assert(header[i] == spelled[i - 6]);
        }
    }
    lemma_first_of(text, '(');
    assert(text.take(header.len() as int) =~= header);
    assert(text.subrange(header.len() as int + 1, text.len() - 1) =~= block);
}

/// What a message and an identifier make of the empty state.
proof fn lemma_least_state(message: Seq<char>, digits: Seq<char>)
    requires
        trimmed(message).len() > 0,
        forall|i: int| 0 <= i < digits.len() ==> '0' <= #[trigger] digits[i] <= '9',
        number(digits, 10, u32::MAX as int) is Some,
    ensures
        digits.len() > 0,
        built_from(
            BuildState::initial(),
            seq![
                RawModel { name: "msg"@, value: Some(message), negated: false },
                RawModel { name: "sid"@, value: Some(digits), negated: false },
            ],
            0,
        ) == Ok::<BuildState, ErrorModel>(
            BuildState {
                msg: Some(message),
                sid: Some(number(digits, 10, u32::MAX as int)->0 as u32),
                ..BuildState::initial()
            },
        ),
{
    let msg = RawModel { name: "msg"@, value: Some(message), negated: false };
    let sid = RawModel { name: "sid"@, value: Some(digits), negated: false };
    let first = BuildState { msg: Some(message), ..BuildState::initial() };
    let second = BuildState { sid: Some(number(digits, 10, u32::MAX as int)->0 as u32), ..first };
    assert(described(BuildState::initial(), msg) == Ok::<BuildState, ErrorModel>(first)) by {
        reveal_strlit("msg");
        reveal_strlit("sid");
        reveal_strlit("rev");
        reveal_strlit("gid");
        reveal_strlit("priority");
        assert("msg"@[0] == 'm' && "sid"@[0] == 's' && "rev"@[0] == 'r' && "gid"@[0] == 'g'
            && "priority"@[0] == 'p');
    }
    assert(trimmed(digits) == digits) by {
        assert('0' <= digits[0] <= '9' && '0' <= digits[digits.len() - 1] <= '9');
    }
    assert(described(first, sid) == Ok::<BuildState, ErrorModel>(second));
    let options = seq![msg, sid];
    reveal_with_fuel(built_from, 3);
    assert(step(BuildState::initial(), options[0]) == Ok::<BuildState, ErrorModel>(first));
    assert(step(first, options[1]) == Ok::<BuildState, ErrorModel>(second));
}

/// A rule names its protocol by keyword, in whatever case, and what it says of itself is
/// read as it is written: any message without quotes and escapes, and any identifier.
pub proof fn law_a_least_rule_reads_back(
    protocol: Protocol,
    spelled: Seq<char>,
    message: Seq<char>,
    digits: Seq<char>,
)
    requires
        lowered(spelled) == protocol.keyword(),
        trimmed(message).len() > 0,
        forall|i: int|
            0 <= i < message.len() ==> #[trigger] message[i] != '\\' && message[i] != '"',
        forall|i: int| 0 <= i < digits.len() ==> '0' <= #[trigger] digits[i] <= '9',
        number(digits, 10, u32::MAX as int) is Some,
    ensures
        ({
            let text = least_rule(spelled, message, digits);
            &&& rule_of(text) matches Ok(rule)
            &&& rule.header.protocol == protocol
            &&& rule.header.action == Action::Alert
            &&& rule.msg == message
            &&& rule.sid as int == number(digits, 10, u32::MAX as int)->0
            &&& rule.options.len() == 0
            &&& rule.unsupported_options.len() == 0
            &&& rule.raw == text
        }),
{
    let text = least_rule(spelled, message, digits);
    lemma_least_rule_parts(protocol, spelled, message, digits);
    law_a_keyword_names_its_protocol(protocol, spelled);
    lemma_least_state(message, digits);
    law_a_least_block_gives_its_options(message, digits);
    lemma_numbers_are_in_range(digits, 10, u32::MAX as int);
}

/// Option names are told apart by their letters.
proof fn lemma_option_names()
    ensures
        "sid"@.len() == 3 && "sid"@[0] == 's',
        "rev"@.len() == 3 && "rev"@[0] == 'r',
        "gid"@.len() == 3 && "gid"@[0] == 'g',
        "msg"@.len() == 3 && "msg"@[0] == 'm',
        "priority"@.len() == 8 && "priority"@[0] == 'p',
        "metadata"@.len() == 8 && "metadata"@[0] == 'm',
        "distance"@.len() == 8 && "distance"@[0] == 'd',
        "flowbits"@.len() == 8 && "flowbits"@[0] == 'f',
        "endswith"@.len() == 8 && "endswith"@[0] == 'e',
        "classtype"@.len() == 9 && "classtype"@[0] == 'c',
        "reference"@.len() == 9 && "reference"@[0] == 'r',
        "byte_test"@.len() == 9 && "byte_test"@[0] == 'b' && "byte_test"@[5] == 't',
        "byte_jump"@.len() == 9 && "byte_jump"@[0] == 'b' && "byte_jump"@[5] == 'j',
        "threshold"@.len() == 9 && "threshold"@[0] == 't',
        "file.path"@.len() == 9 && "file.path"@[0] == 'f' && "file.path"@[8] == 'h',
        "http.uri"@.len() == 8 && "http.uri"@[0] == 'h',
        "http.header"@.len() == 11 && "http.header"@[0] == 'h' && "http.header"@[5] == 'h',
        "http.user_agent"@.len() == 15 && "http.user_agent"@[0] == 'h',
        "http.method"@.len() == 11 && "http.method"@[0] == 'h' && "http.method"@[5] == 'm',
        "http.host"@.len() == 9 && "http.host"@[0] == 'h',
        "nocase"@.len() == 6 && "nocase"@[0] == 'n',
        "offset"@.len() == 6 && "offset"@[0] == 'o',
        "within"@.len() == 6 && "within"@[0] == 'w',
        "target"@.len() == 6 && "target"@[0] == 't',
        "fast_pattern"@.len() == 12 && "fast_pattern"@[0] == 'f',
        "startswith"@.len() == 10 && "startswith"@[0] == 's',
        "normalized"@.len() == 10 && "normalized"@[0] == 'n',
        "depth"@.len() == 5 && "depth"@[0] == 'd' && "depth"@[1] == 'e',
        "dsize"@.len() == 5 && "dsize"@[0] == 'd' && "dsize"@[1] == 's',
        "pcre"@.len() == 4 && "pcre"@[0] == 'p',
        "flow"@.len() == 4 && "flow"@[0] == 'f',
        "content"@.len() == 7 && "content"@[0] == 'c',
        "detection_filter"@.len() == 16 && "detection_filter"@[0] == 'd',
{
    reveal_strlit("sid");
    reveal_strlit("rev");
    reveal_strlit("gid");
    reveal_strlit("msg");
    reveal_strlit("priority");
    reveal_strlit("metadata");
    reveal_strlit("distance");
    reveal_strlit("flowbits");
    reveal_strlit("endswith");
    reveal_strlit("classtype");
    reveal_strlit("reference");
    reveal_strlit("byte_test");
    reveal_strlit("byte_jump");
    reveal_strlit("threshold");
    reveal_strlit("file.path");
    reveal_strlit("http.uri");
    reveal_strlit("http.header");
    reveal_strlit("http.user_agent");
    reveal_strlit("http.method");
    reveal_strlit("http.host");
    reveal_strlit("nocase");
    reveal_strlit("offset");
    reveal_strlit("within");
    reveal_strlit("target");
    reveal_strlit("fast_pattern");
    reveal_strlit("startswith");
    reveal_strlit("normalized");
    reveal_strlit("depth");
    reveal_strlit("dsize");
    reveal_strlit("pcre");
    reveal_strlit("flow");
    reveal_strlit("content");
    reveal_strlit("detection_filter");
}

/// An option with a value.
pub open spec fn option_with(name: Seq<char>, value: Seq<char>, negated: bool) -> RawModel {
    RawModel { name, value: Some(value), negated }
}

/// What describes a rule is kept as it is written, each in its own place, and what may
/// be said once is refused the second time.
pub proof fn law_descriptions_are_kept_as_written(
    state: BuildState,
    text: Seq<char>,
    n: u32,
    negated: bool,
)
    requires
        trimmed(text).len() > 0,
    ensures
        ({
            let number = decimal(n as nat);
            &&& step(state, option_with("sid"@, number, negated)) == (if state.sid is None {
                Ok::<BuildState, ErrorModel>(BuildState { sid: Some(n), ..state })
            } else {
                Err(ErrorModel::DuplicateOption("sid"@))
            })
            &&& step(state, option_with("rev"@, number, negated)) == (if state.rev is None {
                Ok::<BuildState, ErrorModel>(BuildState { rev: Some(n), ..state })
            } else {
                Err(ErrorModel::DuplicateOption("rev"@))
            })
            &&& step(state, option_with("gid"@, number, negated)) == (if state.gid is None {
                Ok::<BuildState, ErrorModel>(BuildState { gid: Some(n), ..state })
            } else {
                Err(ErrorModel::DuplicateOption("gid"@))
            })
            &&& state.priority is None && 1 <= n <= 255 ==> step(
                state,
                option_with("priority"@, number, negated),
            ) == Ok::<BuildState, ErrorModel>(BuildState { priority: Some(n as u8), ..state })
            &&& state.priority is Some || n == 0 || n > 255 ==> step(
                state,
                option_with("priority"@, number, negated),
            ) is Err
            &&& step(state, option_with("msg"@, text, negated)) == (if state.msg is None {
                Ok::<BuildState, ErrorModel>(BuildState { msg: Some(text), ..state })
            } else {
                Err(ErrorModel::DuplicateOption("msg"@))
            })
            &&& step(state, option_with("classtype"@, text, negated)) == (
            if state.classtype is None {
                Ok::<BuildState, ErrorModel>(BuildState { classtype: Some(text), ..state })
            } else {
                Err(ErrorModel::DuplicateOption("classtype"@))
            })
            &&& step(state, option_with("metadata"@, text, negated)) == Ok::<
                BuildState,
                ErrorModel,
            >(BuildState { metadata: state.metadata + metadata_of(text), ..state })
            &&& step(state, option_with("reference"@, text, negated)) == Ok::<
                BuildState,
                ErrorModel,
            >(BuildState { references: state.references.push(text), ..state })
        }),
{
    lemma_option_names();
    lemma_number_text(n);
}

proof fn lemma_number_text(n: u32)
    ensures
        trimmed(decimal(n as nat)) == decimal(n as nat),
        number(decimal(n as nat), 10, u32::MAX as int) == Some(n as int),
        signed_number(decimal(n as nat), i64::MIN as int, i64::MAX as int) == Some(n as int),
{
    let text = decimal(n as nat);
    law_decimals_are_digits(n as nat);
    law_a_number_reads_back(n as nat, 10, u32::MAX as int);
    law_a_number_reads_back(n as nat, 10, i64::MAX as int);
    assert('0' <= text[0] <= '9' && '0' <= text[text.len() - 1] <= '9');
    lemma_trimmed_already(text);
}

/// A modifier changes the one property of the content in front of it that it names, and
/// is refused where there is no content in front of it.
#[verifier::spinoff_prover]
#[verifier::rlimit(80)]
pub proof fn law_modifiers_change_what_they_name(
    state: BuildState,
    content: ContentModel,
    n: u32,
    back: u32,
)
    requires
        state.matches.len() > 0,
        state.matches.last() == OptionModel::Content(content),
        n <= i32::MAX,
        back <= i32::MAX,
    ensures
        ({
            let number = decimal(n as nat);
            let alone = |name: Seq<char>| RawModel { name, value: None, negated: false };
            let now = |content: ContentModel|
                Ok::<BuildState, ErrorModel>(
                    BuildState {
                        matches: state.matches.drop_last().push(OptionModel::Content(content)),
                        ..state
                    },
                );
            &&& step(state, alone("nocase"@)) == now(ContentModel { nocase: true, ..content })
            &&& step(state, alone("fast_pattern"@)) == now(
                ContentModel { fast_pattern: true, ..content },
            )
            &&& content.pattern.len() <= u32::MAX ==> step(state, alone("startswith"@)) == now(
                ContentModel {
                    offset: Some(0),
                    depth: Some(content.pattern.len() as u32),
                    ..content
                },
            )
            &&& step(state, option_with("offset"@, number, false)) == now(
                ContentModel { offset: Some(n), ..content },
            )
            &&& step(state, option_with("depth"@, number, false)) == now(
                ContentModel { depth: Some(n), ..content },
            )
            &&& step(state, option_with("within"@, number, false)) == now(
                ContentModel { within: Some(n), ..content },
            )
            &&& step(state, option_with("distance"@, number, false)) == now(
                ContentModel { distance: Some(n as i32), ..content },
            )
            &&& step(state, option_with("distance"@, seq!['-'] + decimal(back as nat), false))
                == now(ContentModel { distance: Some(-(back as int) as i32), ..content })
            &&& step(state, alone("offset"@)) is Err
        }),
        ({
            let alone = |name: Seq<char>| RawModel { name, value: None, negated: false };
            let bare = BuildState { matches: seq![], ..state };
            &&& step(bare, alone("nocase"@)) is Err
            &&& step(bare, alone("startswith"@)) is Err
            &&& step(bare, option_with("offset"@, decimal(n as nat), false)) is Err
            &&& step(bare, option_with("within"@, decimal(n as nat), false)) is Err
        }),
{
    lemma_option_names();
    lemma_number_text(n);
    let less = seq!['-'] + decimal(back as nat);
    law_decimals_are_digits(back as nat);
    law_a_number_reads_back(back as nat, 10, -(i64::MIN as int));
    let digits = decimal(back as nat);
    assert('0' <= digits[digits.len() - 1] <= '9');
    assert(less.last() == digits[digits.len() - 1]);
    lemma_trimmed_already(less);
    assert(less.skip(1) =~= digits);
    assert(signed_number(less, i64::MIN as int, i64::MAX as int) == Some(-(back as int))) by {
        assert(digits[0] != '+') by {
            assert('0' <= digits[0] <= '9');
        }
    }
}

/// Each match option adds one condition of its own kind, read from its value, at the
/// end of the conditions, and leaves everything else as it was.
pub proof fn law_match_options_add_their_condition(
    state: BuildState,
    text: Seq<char>,
    negated: bool,
)
    ensures
        ({
            let with = |option: OptionModel|
                Ok::<BuildState, ErrorModel>(
                    BuildState { matches: state.matches.push(option), ..state },
                );
            let said = |name: Seq<char>| step(state, option_with(name, text, negated));
            &&& content_of(text) matches Ok(pattern) ==> pattern.len() > 0 ==> said("content"@)
                == with(
                OptionModel::Content(
                    ContentModel {
                        pattern,
                        buffer: state.buffer,
                        negated,
                        nocase: false,
                        offset: None,
                        depth: None,
                        distance: None,
                        within: None,
                        fast_pattern: false,
                    },
                ),
            )
            &&& content_of(text) is Err || content_of(text)->Ok_0.len() == 0 ==> said(
                "content"@,
            ) is Err
            &&& pcre_of(text) matches Ok(pcre) ==> said("pcre"@) == with(
                OptionModel::Pcre(PcreModel { buffer: state.buffer, negated, ..pcre }),
            )
            &&& flow_of(text) matches Ok(flow) ==> said("flow"@) == with(OptionModel::Flow(flow))
            &&& byte_test_of(text) matches Ok(test) ==> said("byte_test"@) == with(
                OptionModel::ByteTest(test),
            )
            &&& byte_jump_of(text) matches Ok(jump) ==> said("byte_jump"@) == with(
                OptionModel::ByteJump(jump),
            )
            &&& dsize_of(text) matches Ok(size) ==> said("dsize"@) == with(
                OptionModel::Dsize(size),
            )
            &&& condition_named(text) matches Some(condition) ==> said("normalized"@) == with(
                OptionModel::Normalized(condition),
            )
            &&& pcre_of(text) is Err ==> said("pcre"@) is Err
            &&& flow_of(text) is Err ==> said("flow"@) is Err
            &&& byte_test_of(text) is Err ==> said("byte_test"@) is Err
            &&& byte_jump_of(text) is Err ==> said("byte_jump"@) is Err
            &&& dsize_of(text) is Err ==> said("dsize"@) is Err
            &&& condition_named(text) is None ==> said("normalized"@) is Err
            &&& flowbits_of(text) matches Ok(op) ==> said("flowbits"@) == (if op is NoAlert {
                Ok::<BuildState, ErrorModel>(BuildState { no_alert: true, ..state })
            } else {
                with(OptionModel::FlowBits(op))
            })
            &&& flowbits_of(text) is Err ==> said("flowbits"@) is Err
            &&& host_values_of(text) matches Ok(values) ==> said("file.path"@) == with(
                OptionModel::Host(
                    HostFieldModel {
                        field: HostField::FilePath,
                        matcher: HostMatcherModel::AnyOf {
                            values,
                            kind: HostMatchKind::Exact,
                            nocase: false,
                        },
                        negated,
                    },
                ),
            )
        }),
{
    lemma_option_names();
}

/// A sticky-buffer keyword selects the buffer of the contents behind it, and nothing
/// else.
pub proof fn law_sticky_buffers_select_what_they_name(state: BuildState, value: Seq<char>)
    ensures
        ({
            let alone = |name: Seq<char>| RawModel { name, value: None, negated: false };
            let on = |buffer: Buffer|
                Ok::<BuildState, ErrorModel>(BuildState { buffer, ..state });
            &&& step(state, alone("http.uri"@)) == on(Buffer::HttpUri)
            &&& step(state, alone("http.header"@)) == on(Buffer::HttpHeader)
            &&& step(state, alone("http.user_agent"@)) == on(Buffer::HttpUserAgent)
            &&& step(state, alone("http.method"@)) == on(Buffer::HttpMethod)
            &&& step(state, alone("http.host"@)) == on(Buffer::HttpHost)
            &&& step(state, option_with("http.uri"@, value, false)) is Err
        }),
        BuildState::initial().buffer == Buffer::Payload,
{
    lemma_option_names();
}

/// A threshold is said once.
pub proof fn law_a_threshold_is_said_once(state: BuildState, text: Seq<char>, negated: bool)
    ensures
        state.threshold is None ==> (threshold_of(text) matches Ok(threshold) ==> step(
            state,
            option_with("threshold"@, text, negated),
        ) == Ok::<BuildState, ErrorModel>(BuildState { threshold: Some(threshold), ..state })),
        state.threshold is None && threshold_of(text) is Err ==> step(
            state,
            option_with("threshold"@, text, negated),
        ) is Err,
        state.threshold is Some ==> step(state, option_with("threshold"@, text, negated)) is Err,
{
    lemma_option_names();
}

/// Options that are recognised and not evaluated change nothing but the list of their
/// names, and an option that the format does not have is refused.
pub proof fn law_unknown_options_are_refused(state: BuildState, option: RawModel)
    ensures
        option.name == "endswith"@ || option.name == "detection_filter"@ || option.name
            == "target"@ ==> {
            &&& step(state, option) matches Ok(after)
            &&& after == (BuildState { unsupported: after.unsupported, ..state })
            &&& after.unsupported.contains(option.name)
        },
        step(state, option) is Ok ==> {
            ||| option.name == "sid"@ || option.name == "rev"@ || option.name == "gid"@
                || option.name == "msg"@ || option.name == "priority"@ || option.name == "metadata"@
                || option.name == "classtype"@ || option.name == "reference"@
            ||| option.name == "http.uri"@ || option.name == "http.header"@ || option.name
                == "http.user_agent"@ || option.name == "http.method"@ || option.name
                == "http.host"@
            ||| option.name == "nocase"@ || option.name == "fast_pattern"@ || option.name
                == "startswith"@ || option.name == "offset"@ || option.name == "depth"@
                || option.name == "distance"@ || option.name == "within"@
            ||| option.name == "content"@ || option.name == "flowbits"@ || option.name == "pcre"@
                || option.name == "flow"@ || option.name == "byte_test"@ || option.name
                == "byte_jump"@ || option.name == "dsize"@ || option.name == "normalized"@
                || option.name == "threshold"@
            ||| option.name == "file.path"@ || ends(option.name, ".pcre"@)
            ||| option.name == "endswith"@ || option.name == "detection_filter"@ || option.name
                == "target"@
        },
{
    lemma_option_names();
    reveal_strlit(".pcre");
    let n = option.name.len();
    if option.name == "endswith"@ || option.name == "detection_filter"@ || option.name
        == "target"@ {
        assert("endswith"@.last() == 'h' && "target"@.last() == 't' && "detection_filter"@.last()
            == 'r') by {
            reveal_strlit("endswith");
            reveal_strlit("target");
            reveal_strlit("detection_filter");
        }
        assert(".pcre"@.len() == 5 && ".pcre"@[4] == 'e');
        assert(!ends(option.name, ".pcre"@)) by {
            if ends(option.name, ".pcre"@) {
                assert(option.name.skip(n - 5)[4] == option.name.last());
            }
        }
        assert(RECOGNISED_UNIMPLEMENTED_OPTIONS[0]@ == "endswith"@);
        assert(RECOGNISED_UNIMPLEMENTED_OPTIONS[1]@ == "detection_filter"@);
        assert(RECOGNISED_UNIMPLEMENTED_OPTIONS[2]@ == "target"@);
        assert(is_unimplemented(option.name));
        let after = step(state, option)->Ok_0;
        if !state.unsupported.contains(option.name) {
            assert(after.unsupported.last() == option.name);
            assert(after.unsupported[after.unsupported.len() - 1] == option.name);
        }
    }
    if is_unimplemented(option.name) {
        let i = choose|i: int|
            0 <= i < 3 && #[trigger] RECOGNISED_UNIMPLEMENTED_OPTIONS[i]@ == option.name;
        assert(i == 0 || i == 1 || i == 2);
        assert(RECOGNISED_UNIMPLEMENTED_OPTIONS[0]@ == "endswith"@);
        assert(RECOGNISED_UNIMPLEMENTED_OPTIONS[1]@ == "detection_filter"@);
        assert(RECOGNISED_UNIMPLEMENTED_OPTIONS[2]@ == "target"@);
    }
}

/// Options take effect in the order they stand in: the state after some and one more is
/// the state after the one more.
pub proof fn law_options_take_effect_in_order(
    state: BuildState,
    options: Seq<RawModel>,
    more: RawModel,
    i: int,
)
    requires
        0 <= i <= options.len(),
    ensures
        built_from(state, options.push(more), i) == (match built_from(state, options, i) {
            Ok(before) => step(before, more),
            Err(error) => Err(error),
        }),
    decreases options.len() - i,
{
    let all = options.push(more);
    if i < options.len() {
        assert(all[i] == options[i]);
        if let Ok(next) = step(state, options[i]) {
            law_options_take_effect_in_order(next, options, more, i + 1);
        }
    } else {
        assert(all[i] == more);
        reveal_with_fuel(built_from, 2);
    }
}

/// A rule is made of its header and of what its options said: it takes an identifier
/// and a message, its revision is one unless it says otherwise, and the rest is as the
/// options left it.
pub proof fn law_a_rule_is_its_header_and_its_options(text: Seq<char>)
    ensures
        rule_of(text) matches Ok(rule) ==> {
            let raw = trimmed(text);
            let open = first_of(raw, '(')->0;
            let close = last_of(raw, ')')->0;
            let options = raws_of(raw.subrange(open + 1, close))->Ok_0;
            let state = built_from(BuildState::initial(), options, 0)->Ok_0;
            &&& 0 <= open < close < raw.len()
            &&& Ok::<HeaderModel, ErrorModel>(rule.header) == header_of(raw.take(open))
            &&& Some(rule.sid) == state.sid
            &&& Some(rule.msg) == state.msg
            &&& rule.rev == (if state.rev is Some {
                state.rev->0
            } else {
                1
            })
            &&& rule.gid == state.gid && rule.priority == state.priority && rule.classtype
                == state.classtype && rule.metadata == state.metadata && rule.references
                == state.references && rule.options == state.matches && rule.threshold
                == state.threshold && rule.no_alert == state.no_alert && rule.unsupported_options
                == state.unsupported && rule.raw == raw
        },
{
    let raw = trimmed(text);
    lemma_first_of(raw, '(');
    lemma_last_of(raw, ')');
}

} // verus!
