//! The match conditions a rule can carry.
//!
//! Options are kept **in the order they were written**, because several of them
//! are positional: `distance` and `within` are measured from where the previous
//! `content` matched, and `byte_jump` moves the cursor the options after it
//! read from. A set would lose the rule's meaning.
//!
//! A type that holds text or bytes has a model of the same shape over sequences,
//! its view.

use vstd::prelude::*;
use crate::text::{chars_of, equal, spells, texts, trim, trimmed};

verus! {

/// Which buffer a match applies to.
///
/// A sticky-buffer keyword (`http.uri`) sets the buffer for every match option
/// that follows it, until another one changes it. That is what lets one rule
/// look at the URI and the headers in turn.
#[derive(Debug, Clone, Copy, PartialEq, Eq, PartialOrd, Ord, Hash, Structural)]
pub enum Buffer {
    /// The packet payload, or the reassembled stream for TCP.
    Payload,
    /// The normalized request URI.
    HttpUri,
    /// The raw header block.
    HttpHeader,
    /// The `User-Agent` header value.
    HttpUserAgent,
    /// The request method.
    HttpMethod,
    /// The `Host` header value.
    HttpHost,
}

impl Default for Buffer {
    fn default() -> (buffer: Self)
        ensures
            buffer == Buffer::Payload,
    {
        Buffer::Payload
    }
}

/// The buffer that a sticky-buffer keyword selects.
pub open spec fn buffer_named(keyword: Seq<char>) -> Option<Buffer> {
    if keyword == "http.uri"@ {
        Some(Buffer::HttpUri)
    } else if keyword == "http.header"@ {
        Some(Buffer::HttpHeader)
    } else if keyword == "http.user_agent"@ {
        Some(Buffer::HttpUserAgent)
    } else if keyword == "http.method"@ {
        Some(Buffer::HttpMethod)
    } else if keyword == "http.host"@ {
        Some(Buffer::HttpHost)
    } else {
        None
    }
}

impl Buffer {
    /// The keyword that selects this buffer.
    pub open spec fn keyword(self) -> Seq<char> {
        match self {
            Buffer::Payload => "payload"@,
            Buffer::HttpUri => "http.uri"@,
            Buffer::HttpHeader => "http.header"@,
            Buffer::HttpUserAgent => "http.user_agent"@,
            Buffer::HttpMethod => "http.method"@,
            Buffer::HttpHost => "http.host"@,
        }
    }

    /// The keyword that selects this buffer.
    pub fn as_str(self) -> (keyword: &'static str)
        ensures
            keyword@ == self.keyword(),
    {
        match self {
            Buffer::Payload => "payload",
            Buffer::HttpUri => "http.uri",
            Buffer::HttpHeader => "http.header",
            Buffer::HttpUserAgent => "http.user_agent",
            Buffer::HttpMethod => "http.method",
            Buffer::HttpHost => "http.host",
        }
    }

    /// Parse a sticky-buffer keyword.
    pub fn from_keyword(keyword: &str) -> (buffer: Option<Self>)
        ensures
            buffer == buffer_named(keyword@),
    {
        if equal(keyword, "http.uri") {
            Some(Buffer::HttpUri)
        } else if equal(keyword, "http.header") {
            Some(Buffer::HttpHeader)
        } else if equal(keyword, "http.user_agent") {
            Some(Buffer::HttpUserAgent)
        } else if equal(keyword, "http.method") {
            Some(Buffer::HttpMethod)
        } else if equal(keyword, "http.host") {
            Some(Buffer::HttpHost)
        } else {
            None
        }
    }

    /// Whether matching this buffer needs the HTTP parser.
    pub fn is_http(self) -> (http: bool)
        ensures
            http == (self != Buffer::Payload),
    {
        self != Buffer::Payload
    }
}

/// Every sticky-buffer keyword names the buffer that has it.
pub proof fn law_sticky_buffers_round_trip(buffer: Buffer)
    requires
        buffer != Buffer::Payload,
    ensures
        buffer_named(buffer.keyword()) == Some(buffer),
{
    reveal_strlit("http.uri");
    reveal_strlit("http.header");
    reveal_strlit("http.user_agent");
    reveal_strlit("http.method");
    reveal_strlit("http.host");
    assert("http.uri"@.len() == 8 && "http.header"@.len() == 11 && "http.user_agent"@.len() == 15
        && "http.method"@.len() == 11 && "http.host"@.len() == 9);
    assert("http.header"@[5] != "http.method"@[5]);
}

/// What a `content` match is.
pub struct ContentModel {
    /// The bytes to look for.
    pub pattern: Seq<u8>,
    /// Buffer to search.
    pub buffer: Buffer,
    /// Match must not be present.
    pub negated: bool,
    /// Case-insensitive.
    pub nocase: bool,
    /// Start searching this many bytes in.
    pub offset: Option<u32>,
    /// Search no further than this many bytes from the start.
    pub depth: Option<u32>,
    /// Start this many bytes past the end of the previous match.
    pub distance: Option<i32>,
    /// Match within this many bytes of the previous match's end.
    pub within: Option<u32>,
    /// Use this pattern for the multi-pattern pre-filter.
    pub fast_pattern: bool,
}

impl ContentModel {
    /// A match without modifiers.
    pub open spec fn bare(pattern: Seq<u8>, buffer: Buffer, negated: bool) -> ContentModel {
        ContentModel {
            pattern,
            buffer,
            negated,
            nocase: false,
            offset: None,
            depth: None,
            distance: None,
            within: None,
            fast_pattern: false,
        }
    }
}

/// A `content` match and its modifiers.
#[derive(Debug, Clone, PartialEq, Eq)]
pub struct ContentMatch {
    /// The bytes to look for.
    pub pattern: Vec<u8>,
    /// Buffer to search.
    pub buffer: Buffer,
    /// Match must **not** be present.
    pub negated: bool,
    /// Case-insensitive.
    pub nocase: bool,
    /// Absolute: start searching this many bytes in.
    pub offset: Option<u32>,
    /// Absolute: search no further than this many bytes from the start.
    pub depth: Option<u32>,
    /// Relative: start this many bytes past the end of the previous match.
    pub distance: Option<i32>,
    /// Relative: match within this many bytes of the previous match's end.
    pub within: Option<u32>,
    /// Use this pattern for the multi-pattern pre-filter.
    pub fast_pattern: bool,
}

impl View for ContentMatch {
    type V = ContentModel;

    open spec fn view(&self) -> ContentModel {
        ContentModel {
            pattern: self.pattern@,
            buffer: self.buffer,
            negated: self.negated,
            nocase: self.nocase,
            offset: self.offset,
            depth: self.depth,
            distance: self.distance,
            within: self.within,
            fast_pattern: self.fast_pattern,
        }
    }
}

impl ContentMatch {
    /// A bare content match on the payload.
    pub fn new(pattern: Vec<u8>) -> (content: Self)
        ensures
            content@ == ContentModel::bare(pattern@, Buffer::Payload, false),
    {
        Self {
            pattern,
            buffer: Buffer::Payload,
            negated: false,
            nocase: false,
            offset: None,
            depth: None,
            distance: None,
            within: None,
            fast_pattern: false,
        }
    }

    /// Whether this match is positioned relative to the previous one.
    pub fn is_relative(&self) -> (relative: bool)
        ensures
            relative == (self.distance is Some || self.within is Some),
    {
        self.distance.is_some() || self.within.is_some()
    }

    /// Whether this pattern may be used as a pre-filter.
    ///
    /// A negated match cannot: the pre-filter finds packets that *contain* the
    /// pattern, and a rule requiring its absence would then never be
    /// considered for the packets it should fire on.
    pub fn usable_as_fast_pattern(&self) -> (usable: bool)
        ensures
            usable == (!self.negated && self.pattern@.len() > 0),
    {
        !self.negated && self.pattern.len() > 0
    }
}

/// What a `pcre` match is.
pub struct PcreModel {
    /// The expression source, without delimiters.
    pub source: Seq<char>,
    /// Buffer to search.
    pub buffer: Buffer,
    /// Match must not be present.
    pub negated: bool,
    /// Case-insensitive.
    pub case_insensitive: bool,
    /// `.` matches newline.
    pub dot_matches_newline: bool,
    /// `^`/`$` match at line boundaries.
    pub multi_line: bool,
    /// Start from the end of the previous match.
    pub relative: bool,
}

/// A `pcre` match.
#[derive(Debug, Clone, PartialEq, Eq)]
pub struct PcreMatch {
    /// The expression source, without delimiters.
    pub source: String,
    /// Buffer to search.
    pub buffer: Buffer,
    /// Match must **not** be present.
    pub negated: bool,
    /// `i` — case-insensitive.
    pub case_insensitive: bool,
    /// `s` — `.` matches newline.
    pub dot_matches_newline: bool,
    /// `m` — `^`/`$` match at line boundaries.
    pub multi_line: bool,
    /// `R` — start from the end of the previous match.
    pub relative: bool,
}

impl View for PcreMatch {
    type V = PcreModel;

    open spec fn view(&self) -> PcreModel {
        PcreModel {
            source: self.source@,
            buffer: self.buffer,
            negated: self.negated,
            case_insensitive: self.case_insensitive,
            dot_matches_newline: self.dot_matches_newline,
            multi_line: self.multi_line,
            relative: self.relative,
        }
    }
}

/// Which direction and connection state a rule applies to.
#[derive(Debug, Clone, Copy, PartialEq, Eq)]
pub struct FlowMatch {
    /// `established` / `not_established`.
    pub established: Option<bool>,
    /// `to_server` / `to_client`.
    pub to_server: Option<bool>,
}

impl Default for FlowMatch {
    fn default() -> (flow: Self)
        ensures
            flow == (FlowMatch { established: None, to_server: None }),
    {
        Self { established: None, to_server: None }
    }
}

/// What a `flowbits` operation is.
pub enum FlowBitsModel {
    /// Set a bit on the flow.
    SetBit(Seq<char>),
    /// Clear a bit.
    Unset(Seq<char>),
    /// Flip a bit.
    Toggle(Seq<char>),
    /// Match only if the bit is set.
    IsSet(Seq<char>),
    /// Match only if the bit is clear.
    IsNotSet(Seq<char>),
    /// Track state without alerting.
    NoAlert,
}

/// A `flowbits` operation.
#[derive(Debug, Clone, PartialEq, Eq)]
pub enum FlowBitsOp {
    /// Set a bit on the flow.
    SetBit(String),
    /// Clear a bit.
    Unset(String),
    /// Flip a bit.
    Toggle(String),
    /// Match only if the bit is set.
    IsSet(String),
    /// Match only if the bit is clear.
    IsNotSet(String),
    /// Track state without alerting. Used by rules that only set bits.
    NoAlert,
}

impl View for FlowBitsOp {
    type V = FlowBitsModel;

    open spec fn view(&self) -> FlowBitsModel {
        match self {
            FlowBitsOp::SetBit(name) => FlowBitsModel::SetBit(name@),
            FlowBitsOp::Unset(name) => FlowBitsModel::Unset(name@),
            FlowBitsOp::Toggle(name) => FlowBitsModel::Toggle(name@),
            FlowBitsOp::IsSet(name) => FlowBitsModel::IsSet(name@),
            FlowBitsOp::IsNotSet(name) => FlowBitsModel::IsNotSet(name@),
            FlowBitsOp::NoAlert => FlowBitsModel::NoAlert,
        }
    }
}

impl FlowBitsOp {
    /// Whether this operation is a condition rather than a side effect.
    pub fn is_condition(&self) -> (condition: bool)
        ensures
            condition == (self@ is IsSet || self@ is IsNotSet),
    {
        match self {
            FlowBitsOp::IsSet(_) => true,
            FlowBitsOp::IsNotSet(_) => true,
            _ => false,
        }
    }
}

/// A numeric comparison.
#[derive(Debug, Clone, Copy, PartialEq, Eq, Structural)]
pub enum NumericOp {
    /// `=`
    Equal,
    /// `!=`
    NotEqual,
    /// `<`
    Less,
    /// `<=`
    LessOrEqual,
    /// `>`
    Greater,
    /// `>=`
    GreaterOrEqual,
    /// `&` — bitwise AND is non-zero.
    BitAnd,
    /// `^` — bitwise XOR is non-zero.
    BitXor,
}

/// The comparison that an operator token names.
pub open spec fn op_named(text: Seq<char>) -> Option<NumericOp> {
    let token = trimmed(text);
    if token == "="@ || token == "=="@ {
        Some(NumericOp::Equal)
    } else if token == "!="@ || token == "!"@ {
        Some(NumericOp::NotEqual)
    } else if token == "<"@ {
        Some(NumericOp::Less)
    } else if token == "<="@ {
        Some(NumericOp::LessOrEqual)
    } else if token == ">"@ {
        Some(NumericOp::Greater)
    } else if token == ">="@ {
        Some(NumericOp::GreaterOrEqual)
    } else if token == "&"@ {
        Some(NumericOp::BitAnd)
    } else if token == "^"@ {
        Some(NumericOp::BitXor)
    } else {
        None
    }
}

impl NumericOp {
    /// Whether the comparison holds.
    pub open spec fn holds(self, left: u64, right: u64) -> bool {
        match self {
            NumericOp::Equal => left == right,
            NumericOp::NotEqual => left != right,
            NumericOp::Less => left < right,
            NumericOp::LessOrEqual => left <= right,
            NumericOp::Greater => left > right,
            NumericOp::GreaterOrEqual => left >= right,
            NumericOp::BitAnd => left & right != 0,
            NumericOp::BitXor => left ^ right != 0,
        }
    }

    /// Apply the comparison.
    pub fn apply(self, left: u64, right: u64) -> (holds: bool)
        ensures
            holds == self.holds(left, right),
    {
        match self {
            NumericOp::Equal => left == right,
            NumericOp::NotEqual => left != right,
            NumericOp::Less => left < right,
            NumericOp::LessOrEqual => left <= right,
            NumericOp::Greater => left > right,
            NumericOp::GreaterOrEqual => left >= right,
            NumericOp::BitAnd => left & right != 0,
            NumericOp::BitXor => left ^ right != 0,
        }
    }

    /// Parse an operator token.
    pub fn from_chars(text: &[char]) -> (op: Option<Self>)
        ensures
            op == op_named(text@),
    {
        let token = trim(text);
        if spells(token, "=") || spells(token, "==") {
            Some(NumericOp::Equal)
        } else if spells(token, "!=") || spells(token, "!") {
            Some(NumericOp::NotEqual)
        } else if spells(token, "<") {
            Some(NumericOp::Less)
        } else if spells(token, "<=") {
            Some(NumericOp::LessOrEqual)
        } else if spells(token, ">") {
            Some(NumericOp::Greater)
        } else if spells(token, ">=") {
            Some(NumericOp::GreaterOrEqual)
        } else if spells(token, "&") {
            Some(NumericOp::BitAnd)
        } else if spells(token, "^") {
            Some(NumericOp::BitXor)
        } else {
            None
        }
    }

    /// Parse an operator token.
    pub fn parse(text: &str) -> (op: Option<Self>)
        ensures
            op == op_named(text@),
    {
        let chars = chars_of(text);
        Self::from_chars(chars.as_slice())
    }
}

/// Byte order for `byte_test` and `byte_jump`.
#[derive(Debug, Clone, Copy, PartialEq, Eq, Structural)]
pub enum Endian {
    /// Network byte order.
    Big,
    /// Host-of-some-other-machine byte order.
    Little,
}

impl Default for Endian {
    fn default() -> (endian: Self)
        ensures
            endian == Endian::Big,
    {
        Endian::Big
    }
}

/// A `byte_test`: read N bytes and compare them.
#[derive(Debug, Clone, Copy, PartialEq, Eq, Structural)]
pub struct ByteTest {
    /// How many bytes to read, 1 to 8.
    pub bytes: u8,
    /// Comparison to apply.
    pub op: NumericOp,
    /// Value to compare against.
    pub value: u64,
    /// Where to read from.
    pub offset: i32,
    /// Whether `offset` is relative to the previous match.
    pub relative: bool,
    /// Byte order.
    pub endian: Endian,
    /// Invert the result.
    pub negated: bool,
}

/// A `byte_jump`: read N bytes and move the match cursor by that much.
#[derive(Debug, Clone, Copy, PartialEq, Eq, Structural)]
pub struct ByteJump {
    /// How many bytes to read, 1 to 8.
    pub bytes: u8,
    /// Where to read from.
    pub offset: i32,
    /// Whether `offset` is relative to the previous match.
    pub relative: bool,
    /// Multiply the value read by this.
    pub multiplier: u32,
    /// Byte order.
    pub endian: Endian,
    /// Added to the destination after jumping.
    pub post_offset: i32,
}

/// A `dsize` match on the inspected buffer's length.
#[derive(Debug, Clone, Copy, PartialEq, Eq)]
pub struct DsizeMatch {
    /// Comparison, or the lower bound of a range.
    pub op: NumericOp,
    /// Value, or the lower bound of a range.
    pub value: u32,
    /// Upper bound, for `dsize:100<>200`.
    pub upper: Option<u32>,
}

impl DsizeMatch {
    /// Whether a length satisfies this: strictly between the bounds of a range,
    /// or as the comparison says.
    pub open spec fn accepts(self, length: usize) -> bool {
        match self.upper {
            Some(upper) => self.value < length < upper,
            None => self.op.holds(length as u64, self.value as u64),
        }
    }

    /// Whether a buffer of `length` bytes satisfies this.
    pub fn matches(&self, length: usize) -> (satisfied: bool)
        ensures
            satisfied == self.accepts(length),
    {
        let wide: u64 = length as u64;
        match self.upper {
            Some(upper) => wide > self.value as u64 && wide < upper as u64,
            None => self.op.apply(wide, self.value as u64),
        }
    }
}

/// What a `threshold` counts.
#[derive(Debug, Clone, Copy, PartialEq, Eq, Structural)]
pub enum ThresholdKind {
    /// Alert once per `count` events in the window.
    Threshold,
    /// Alert at most `count` times in the window.
    Limit,
    /// Both: alert on the `count`th, then not again in the window.
    Both,
}

/// What a `threshold` counts against.
#[derive(Debug, Clone, Copy, PartialEq, Eq, Structural)]
pub enum Track {
    /// One counter per source address.
    BySource,
    /// One counter per destination address.
    ByDestination,
    /// One counter for the whole rule.
    ByRule,
}

/// A `threshold` clause.
#[derive(Debug, Clone, Copy, PartialEq, Eq, Structural)]
pub struct Threshold {
    /// How the count is applied.
    pub kind: ThresholdKind,
    /// What the count is kept per.
    pub track: Track,
    /// Event count.
    pub count: u32,
    /// Window length in seconds.
    pub seconds: u32,
}

/// A condition on what normalization had to do.
///
/// These are computed anyway while canonicalising a URI, and each of them is
/// unusual enough to be worth matching on directly: a request that arrives
/// double-encoded is suspicious whatever it decodes to.
#[derive(Debug, Clone, Copy, PartialEq, Eq, Structural)]
#[non_exhaustive]
pub enum NormalizationCondition {
    /// The input was percent-encoded.
    PercentEncoded,
    /// A second decoding pass changed the result.
    DoubleEncoded,
    /// A `%` did not begin a valid escape.
    InvalidEscape,
    /// Decoding produced a NUL byte.
    NullByte,
    /// A `..` segment was resolved.
    Traversal,
    /// A `..` tried to walk above the root.
    AboveRoot,
    /// A `.` segment was dropped.
    SelfReference,
    /// A `//` was collapsed.
    EmptySegment,
    /// A backslash was treated as a separator.
    Backslash,
    /// Decoding stopped at the round limit with escapes still present.
    DecodeLimitReached,
}

/// The condition that the value of a `normalized:` option names.
pub open spec fn condition_named(text: Seq<char>) -> Option<NormalizationCondition> {
    let name = trimmed(text);
    if name == "percent_encoded"@ {
        Some(NormalizationCondition::PercentEncoded)
    } else if name == "double_encoded"@ {
        Some(NormalizationCondition::DoubleEncoded)
    } else if name == "invalid_escape"@ {
        Some(NormalizationCondition::InvalidEscape)
    } else if name == "null_byte"@ {
        Some(NormalizationCondition::NullByte)
    } else if name == "traversal"@ {
        Some(NormalizationCondition::Traversal)
    } else if name == "above_root"@ {
        Some(NormalizationCondition::AboveRoot)
    } else if name == "self_reference"@ {
        Some(NormalizationCondition::SelfReference)
    } else if name == "empty_segment"@ {
        Some(NormalizationCondition::EmptySegment)
    } else if name == "backslash"@ {
        Some(NormalizationCondition::Backslash)
    } else if name == "decode_limit_reached"@ {
        Some(NormalizationCondition::DecodeLimitReached)
    } else {
        None
    }
}

impl NormalizationCondition {
    /// The keyword that selects this condition.
    pub open spec fn keyword(self) -> Seq<char> {
        match self {
            NormalizationCondition::PercentEncoded => "percent_encoded"@,
            NormalizationCondition::DoubleEncoded => "double_encoded"@,
            NormalizationCondition::InvalidEscape => "invalid_escape"@,
            NormalizationCondition::NullByte => "null_byte"@,
            NormalizationCondition::Traversal => "traversal"@,
            NormalizationCondition::AboveRoot => "above_root"@,
            NormalizationCondition::SelfReference => "self_reference"@,
            NormalizationCondition::EmptySegment => "empty_segment"@,
            NormalizationCondition::Backslash => "backslash"@,
            NormalizationCondition::DecodeLimitReached => "decode_limit_reached"@,
        }
    }

    /// The keyword that selects this condition.
    pub fn as_str(self) -> (keyword: &'static str)
        ensures
            keyword@ == self.keyword(),
    {
        match self {
            NormalizationCondition::PercentEncoded => "percent_encoded",
            NormalizationCondition::DoubleEncoded => "double_encoded",
            NormalizationCondition::InvalidEscape => "invalid_escape",
            NormalizationCondition::NullByte => "null_byte",
            NormalizationCondition::Traversal => "traversal",
            NormalizationCondition::AboveRoot => "above_root",
            NormalizationCondition::SelfReference => "self_reference",
            NormalizationCondition::EmptySegment => "empty_segment",
            NormalizationCondition::Backslash => "backslash",
            NormalizationCondition::DecodeLimitReached => "decode_limit_reached",
        }
    }

    /// Parse the value of a `normalized:` option.
    pub fn parse(text: &str) -> (condition: Option<Self>)
        ensures
            condition == condition_named(text@),
    {
        let chars = chars_of(text);
        let name = trim(chars.as_slice());
        if spells(name, "percent_encoded") {
            Some(NormalizationCondition::PercentEncoded)
        } else if spells(name, "double_encoded") {
            Some(NormalizationCondition::DoubleEncoded)
        } else if spells(name, "invalid_escape") {
            Some(NormalizationCondition::InvalidEscape)
        } else if spells(name, "null_byte") {
            Some(NormalizationCondition::NullByte)
        } else if spells(name, "traversal") {
            Some(NormalizationCondition::Traversal)
        } else if spells(name, "above_root") {
            Some(NormalizationCondition::AboveRoot)
        } else if spells(name, "self_reference") {
            Some(NormalizationCondition::SelfReference)
        } else if spells(name, "empty_segment") {
            Some(NormalizationCondition::EmptySegment)
        } else if spells(name, "backslash") {
            Some(NormalizationCondition::Backslash)
        } else if spells(name, "decode_limit_reached") {
            Some(NormalizationCondition::DecodeLimitReached)
        } else {
            None
        }
    }
}

/// Every condition's keyword names that condition.
pub proof fn law_normalization_conditions_round_trip(condition: NormalizationCondition)
    ensures
        condition_named(condition.keyword()) == Some(condition),
{
    reveal_strlit("percent_encoded");
    reveal_strlit("double_encoded");
    reveal_strlit("invalid_escape");
    reveal_strlit("null_byte");
    reveal_strlit("traversal");
    reveal_strlit("above_root");
    reveal_strlit("self_reference");
    reveal_strlit("empty_segment");
    reveal_strlit("backslash");
    reveal_strlit("decode_limit_reached");
    let keyword = condition.keyword();
    assert(keyword.len() > 0 && !crate::text::is_space(keyword[0]) && !crate::text::is_space(
        keyword.last(),
    ));
    assert(trimmed(keyword) == keyword);
    assert("percent_encoded"@[0] == 'p' && "double_encoded"@[1] == 'o' && "invalid_escape"@[0]
        == 'i' && "null_byte"@[0] == 'n' && "traversal"@[0] == 't' && "above_root"@[0] == 'a'
        && "self_reference"@[0] == 's' && "empty_segment"@[0] == 'e' && "backslash"@[0] == 'b'
        && "decode_limit_reached"@[1] == 'e');
    assert("double_encoded"@[0] == 'd' && "decode_limit_reached"@[0] == 'd');
}

/// Which kind of host event a host field belongs to.
#[derive(Debug, Clone, Copy, PartialEq, Eq, Structural)]
pub enum HostEventKind {
    /// A file change.
    File,
    /// An authentication record.
    Auth,
    /// A process start or a new listening socket.
    Process,
}

/// A field of a host event that a rule can match on.
#[derive(Debug, Clone, Copy, PartialEq, Eq, Structural)]
pub enum HostField {
    /// The path of a changed file.
    FilePath,
}

/// How the value of a host field is compared.
#[derive(Debug, Clone, Copy, PartialEq, Eq, Structural)]
pub enum HostMatchKind {
    /// The whole value, character by character.
    Exact,
}

/// The host field that a keyword names.
pub open spec fn field_named(keyword: Seq<char>) -> Option<HostField> {
    if keyword == "file.path"@ {
        Some(HostField::FilePath)
    } else {
        None
    }
}

impl HostField {
    /// Parse a host-field keyword.
    pub fn from_keyword(keyword: &str) -> (field: Option<Self>)
        ensures
            field == field_named(keyword@),
    {
        if equal(keyword, "file.path") {
            Some(HostField::FilePath)
        } else {
            None
        }
    }

    /// How the field is compared unless a rule says otherwise.
    pub open spec fn match_kind(self) -> HostMatchKind {
        HostMatchKind::Exact
    }

    /// How the field is compared unless a rule says otherwise.
    pub fn default_match_kind(self) -> (kind: HostMatchKind)
        ensures
            kind == self.match_kind(),
    {
        HostMatchKind::Exact
    }

    /// The kind of host event that has the field.
    pub open spec fn kind(self) -> HostEventKind {
        match self {
            HostField::FilePath => HostEventKind::File,
        }
    }

    /// The kind of host event that has the field.
    pub fn event_kind(self) -> (kind: HostEventKind)
        ensures
            kind == self.kind(),
    {
        match self {
            HostField::FilePath => HostEventKind::File,
        }
    }
}

/// What a host field is compared with.
pub enum HostMatcherModel {
    /// One of some values.
    AnyOf {
        /// The values.
        values: Seq<Seq<char>>,
        /// How they are compared.
        kind: HostMatchKind,
        /// Whether case is ignored.
        nocase: bool,
    },
    /// A regular expression.
    Regex(Seq<char>),
}

/// What a host field is compared with.
#[derive(Debug, Clone, PartialEq, Eq)]
pub enum HostMatcher {
    /// One of some values.
    AnyOf {
        /// The values.
        values: Vec<String>,
        /// How they are compared.
        kind: HostMatchKind,
        /// Whether case is ignored.
        nocase: bool,
    },
    /// A regular expression.
    Regex(String),
}

impl View for HostMatcher {
    type V = HostMatcherModel;

    open spec fn view(&self) -> HostMatcherModel {
        match self {
            HostMatcher::AnyOf { values, kind, nocase } => HostMatcherModel::AnyOf {
                values: texts(values@),
                kind: *kind,
                nocase: *nocase,
            },
            HostMatcher::Regex(source) => HostMatcherModel::Regex(source@),
        }
    }
}

/// What a condition on a host field is.
pub struct HostFieldModel {
    /// The field.
    pub field: HostField,
    /// What it is compared with.
    pub matcher: HostMatcherModel,
    /// Invert the result.
    pub negated: bool,
}

/// A condition on a field of a host event.
#[derive(Debug, Clone, PartialEq, Eq)]
pub struct HostFieldMatch {
    /// The field.
    pub field: HostField,
    /// What it is compared with.
    pub matcher: HostMatcher,
    /// Invert the result.
    pub negated: bool,
}

impl View for HostFieldMatch {
    type V = HostFieldModel;

    open spec fn view(&self) -> HostFieldModel {
        HostFieldModel { field: self.field, matcher: self.matcher@, negated: self.negated }
    }
}

/// What a match condition is.
pub enum OptionModel {
    /// A byte pattern.
    Content(ContentModel),
    /// A regular expression.
    Pcre(PcreModel),
    /// A flow-state requirement.
    Flow(FlowMatch),
    /// A flowbit condition or side effect.
    FlowBits(FlowBitsModel),
    /// A numeric test on bytes in the buffer.
    ByteTest(ByteTest),
    /// A cursor move driven by bytes in the buffer.
    ByteJump(ByteJump),
    /// A length test on the buffer.
    Dsize(DsizeMatch),
    /// A condition on what normalization found.
    Normalized(NormalizationCondition),
    /// A condition on a host event.
    Host(HostFieldModel),
}

impl OptionModel {
    /// The buffer the option inspects, where that is meaningful.
    pub open spec fn inspects(self) -> Option<Buffer> {
        match self {
            OptionModel::Content(content) => Some(content.buffer),
            OptionModel::Pcre(pcre) => Some(pcre.buffer),
            _ => None,
        }
    }

    /// The kind of host event the option is about, if it is about one.
    pub open spec fn host_kind(self) -> Option<HostEventKind> {
        match self {
            OptionModel::Host(host) => Some(host.field.kind()),
            _ => None,
        }
    }

    /// Whether the option only has an effect and cannot fail to match.
    pub open spec fn only_acts(self) -> bool {
        match self {
            OptionModel::FlowBits(op) => !(op is IsSet || op is IsNotSet),
            OptionModel::ByteJump(_) => true,
            _ => false,
        }
    }
}

/// One match condition from a rule, in the order it was written.
#[derive(Debug, Clone, PartialEq, Eq)]
#[non_exhaustive]
pub enum RuleOption {
    /// A byte pattern.
    Content(ContentMatch),
    /// A regular expression.
    Pcre(PcreMatch),
    /// A flow-state requirement.
    Flow(FlowMatch),
    /// A flowbit condition or side effect.
    FlowBits(FlowBitsOp),
    /// A numeric test on bytes in the buffer.
    ByteTest(ByteTest),
    /// A cursor move driven by bytes in the buffer.
    ByteJump(ByteJump),
    /// A length test on the buffer.
    Dsize(DsizeMatch),
    /// A condition on what normalization found.
    Normalized(NormalizationCondition),
    /// A condition on a host event.
    Host(HostFieldMatch),
}

impl View for RuleOption {
    type V = OptionModel;

    open spec fn view(&self) -> OptionModel {
        match self {
            RuleOption::Content(content) => OptionModel::Content(content@),
            RuleOption::Pcre(pcre) => OptionModel::Pcre(pcre@),
            RuleOption::Flow(flow) => OptionModel::Flow(*flow),
            RuleOption::FlowBits(op) => OptionModel::FlowBits(op@),
            RuleOption::ByteTest(test) => OptionModel::ByteTest(*test),
            RuleOption::ByteJump(jump) => OptionModel::ByteJump(*jump),
            RuleOption::Dsize(dsize) => OptionModel::Dsize(*dsize),
            RuleOption::Normalized(condition) => OptionModel::Normalized(*condition),
            RuleOption::Host(host) => OptionModel::Host(host@),
        }
    }
}

impl RuleOption {
    /// The buffer this option inspects, where that is meaningful.
    pub fn buffer(&self) -> (buffer: Option<Buffer>)
        ensures
            buffer == self@.inspects(),
    {
        match self {
            RuleOption::Content(content) => Some(content.buffer),
            RuleOption::Pcre(pcre) => Some(pcre.buffer),
            _ => None,
        }
    }

    /// The kind of host event this option is about, if it is about one.
    pub fn host_event_kind(&self) -> (kind: Option<HostEventKind>)
        ensures
            kind == self@.host_kind(),
    {
        match self {
            RuleOption::Host(host) => Some(host.field.event_kind()),
            _ => None,
        }
    }

    /// Whether this option only has an effect and cannot fail to match.
    pub fn is_side_effect(&self) -> (acts: bool)
        ensures
            acts == self@.only_acts(),
    {
        match self {
            RuleOption::FlowBits(op) => !op.is_condition(),
            RuleOption::ByteJump(_) => true,
            _ => false,
        }
    }
}

/// What the options are for: contents and expressions inspect their buffer, and nothing
/// else inspects one; host options are about the event that has their field; and only
/// what sets or moves something, and cannot fail to match, merely acts.
pub proof fn law_what_options_are_for(option: OptionModel)
    ensures
        option matches OptionModel::Content(content) ==> option.inspects() == Some(content.buffer),
        option matches OptionModel::Pcre(pcre) ==> option.inspects() == Some(pcre.buffer),
        !(option is Content || option is Pcre) ==> option.inspects() is None,
        option is Host <==> option.host_kind() is Some,
        option matches OptionModel::Host(host) ==> (host.field == HostField::FilePath
            ==> option.host_kind() == Some(HostEventKind::File)),
        option.only_acts() <==> option is ByteJump || (option matches OptionModel::FlowBits(op) && (
        op is SetBit || op is Unset || op is Toggle || op is NoAlert)),
{
}

/// The words for buffers and for what normalization found.
pub proof fn law_buffers_and_conditions_have_their_words()
    ensures
        Buffer::Payload.keyword() == "payload"@,
        Buffer::HttpUri.keyword() == "http.uri"@,
        Buffer::HttpHeader.keyword() == "http.header"@,
        Buffer::HttpUserAgent.keyword() == "http.user_agent"@,
        Buffer::HttpMethod.keyword() == "http.method"@,
        Buffer::HttpHost.keyword() == "http.host"@,
        NormalizationCondition::PercentEncoded.keyword() == "percent_encoded"@,
        NormalizationCondition::DoubleEncoded.keyword() == "double_encoded"@,
        NormalizationCondition::InvalidEscape.keyword() == "invalid_escape"@,
        NormalizationCondition::NullByte.keyword() == "null_byte"@,
        NormalizationCondition::Traversal.keyword() == "traversal"@,
        NormalizationCondition::AboveRoot.keyword() == "above_root"@,
        NormalizationCondition::SelfReference.keyword() == "self_reference"@,
        NormalizationCondition::EmptySegment.keyword() == "empty_segment"@,
        NormalizationCondition::Backslash.keyword() == "backslash"@,
        NormalizationCondition::DecodeLimitReached.keyword() == "decode_limit_reached"@,
        field_named("file.path"@) == Some(HostField::FilePath),
{
}

/// Comparisons are those of numbers: exactly one of less, equal and greater holds, the
/// others follow from these, and the two bit tests ask for a common and for a differing
/// bit.
pub proof fn law_comparisons_are_those_of_numbers(left: u64, right: u64)
    ensures
        NumericOp::Equal.holds(left, right) <==> left == right,
        NumericOp::Less.holds(left, right) <==> right > left,
        NumericOp::Greater.holds(left, right) <==> NumericOp::Less.holds(right, left),
        NumericOp::NotEqual.holds(left, right) <==> !NumericOp::Equal.holds(left, right),
        NumericOp::LessOrEqual.holds(left, right) <==> !NumericOp::Greater.holds(left, right),
        NumericOp::GreaterOrEqual.holds(left, right) <==> !NumericOp::Less.holds(left, right),
        forall|bit: u64|
            bit < 64 && #[trigger] (left >> bit) & 1 == 1 && (right >> bit) & 1 == 1
                ==> NumericOp::BitAnd.holds(left, right),
        left & right == 0 ==> !NumericOp::BitAnd.holds(left, right),
        NumericOp::BitXor.holds(left, right) <==> left != right,
{
    assert(left ^ right != 0 <==> left != right) by (bit_vector);
    assert forall|bit: u64|
        bit < 64 && #[trigger] (left >> bit) & 1 == 1 && (right >> bit) & 1
            == 1 implies NumericOp::BitAnd.holds(left, right) by {
        assert(left & right != 0) by (bit_vector)
            requires
                bit < 64,
                (left >> bit) & 1 == 1,
                (right >> bit) & 1 == 1,
        ;
    }
}

/// A match without modifiers looks for its pattern anywhere in its buffer and as it is
/// written.
pub proof fn law_a_bare_match_has_no_modifiers(pattern: Seq<u8>, buffer: Buffer, negated: bool)
    ensures
        ({
            let bare = ContentModel::bare(pattern, buffer, negated);
            &&& bare.pattern == pattern && bare.buffer == buffer && bare.negated == negated
            &&& !bare.nocase && !bare.fast_pattern
            &&& bare.offset is None && bare.depth is None && bare.distance is None
                && bare.within is None
        }),
{
}

} // verus!
