//! The rule model produced by the parser.

use vstd::prelude::*;
use crate::text::{append, append_number, decimal, optional_text, owned, texts};
use super::options::{Buffer, HostEventKind, OptionModel, RuleOption, Threshold};

verus! {

/// What a rule does when it matches.
///
/// The format is detection-only, so `drop` and `reject` are rejected at parse
/// time rather than silently downgraded to an alert — an operator who writes a
/// blocking rule must be told it will not block.
#[derive(Debug, Clone, Copy, PartialEq, Eq, Structural)]
pub enum Action {
    /// Emit an `alert` event.
    Alert,
    /// Stop evaluating this input; emit nothing.
    Pass,
}

impl Action {
    /// Stable identifier used in rule text and event JSON.
    pub open spec fn keyword(self) -> Seq<char> {
        match self {
            Action::Alert => "alert"@,
            Action::Pass => "pass"@,
        }
    }

    /// Stable identifier used in rule text and event JSON.
    pub fn as_str(self) -> (keyword: &'static str)
        ensures
            keyword@ == self.keyword(),
    {
        match self {
            Action::Alert => "alert",
            Action::Pass => "pass",
        }
    }
}

/// The protocol a rule header selects on.
#[derive(Debug, Clone, Copy, PartialEq, Eq, Structural)]
pub enum Protocol {
    /// TCP.
    Tcp,
    /// UDP.
    Udp,
    /// ICMP (v4 or v6).
    Icmp,
    /// Any IP protocol.
    Ip,
    /// HTTP, via the app-layer parser.
    Http,
    /// DNS, via the app-layer parser.
    Dns,
    /// TLS, via the app-layer parser.
    Tls,
}

impl Protocol {
    /// Stable identifier used in rule text.
    pub open spec fn keyword(self) -> Seq<char> {
        match self {
            Protocol::Tcp => "tcp"@,
            Protocol::Udp => "udp"@,
            Protocol::Icmp => "icmp"@,
            Protocol::Ip => "ip"@,
            Protocol::Http => "http"@,
            Protocol::Dns => "dns"@,
            Protocol::Tls => "tls"@,
        }
    }

    /// Stable identifier used in rule text.
    pub fn as_str(self) -> (keyword: &'static str)
        ensures
            keyword@ == self.keyword(),
    {
        match self {
            Protocol::Tcp => "tcp",
            Protocol::Udp => "udp",
            Protocol::Icmp => "icmp",
            Protocol::Ip => "ip",
            Protocol::Http => "http",
            Protocol::Dns => "dns",
            Protocol::Tls => "tls",
        }
    }

    /// Whether matching this protocol needs an app-layer parser.
    pub open spec fn app_layer(self) -> bool {
        self is Http || self is Dns || self is Tls
    }

    /// Whether matching this protocol needs an app-layer parser.
    pub fn is_app_layer(self) -> (app_layer: bool)
        ensures
            app_layer == self.app_layer(),
    {
        match self {
            Protocol::Http => true,
            Protocol::Dns => true,
            Protocol::Tls => true,
            _ => false,
        }
    }
}

/// Which way traffic must flow for the header to match.
#[derive(Debug, Clone, Copy, PartialEq, Eq, Structural)]
pub enum Direction {
    /// `->`: source to destination only.
    ToDestination,
    /// `<>`: either direction.
    Bidirectional,
}

impl Direction {
    /// Stable identifier used in rule text.
    pub open spec fn keyword(self) -> Seq<char> {
        match self {
            Direction::ToDestination => "->"@,
            Direction::Bidirectional => "<>"@,
        }
    }

    /// Stable identifier used in rule text.
    pub fn as_str(self) -> (keyword: &'static str)
        ensures
            keyword@ == self.keyword(),
    {
        match self {
            Direction::ToDestination => "->",
            Direction::Bidirectional => "<>",
        }
    }
}

/// What an address expression is.
pub enum AddressModel {
    /// `any`.
    Any,
    /// `$NAME`.
    Var(Seq<char>),
    /// A bracketed list.
    List(Seq<char>),
    /// A single address or CIDR.
    Literal(Seq<char>),
}

/// The address half of a header field, with its negation flag.
#[derive(Debug, Clone, PartialEq, Eq)]
pub struct AddressSpec {
    /// Whether the field was prefixed with `!`.
    pub negated: bool,
    /// The address expression.
    pub value: AddressValue,
}

/// An address expression.
///
/// Lists and variables are kept as written; only their syntax is validated.
#[derive(Debug, Clone, PartialEq, Eq)]
pub enum AddressValue {
    /// `any`.
    Any,
    /// `$NAME`, resolved from the configured address groups.
    Var(String),
    /// A bracketed list, e.g. `[10.0.0.0/8,!10.1.0.0/16]`, kept verbatim.
    List(String),
    /// A single address or CIDR, validated at parse time.
    Literal(String),
}

impl View for AddressValue {
    type V = AddressModel;

    open spec fn view(&self) -> AddressModel {
        match self {
            AddressValue::Any => AddressModel::Any,
            AddressValue::Var(name) => AddressModel::Var(name@),
            AddressValue::List(list) => AddressModel::List(list@),
            AddressValue::Literal(literal) => AddressModel::Literal(literal@),
        }
    }
}

impl View for AddressSpec {
    type V = (bool, AddressModel);

    open spec fn view(&self) -> (bool, AddressModel) {
        (self.negated, self.value@)
    }
}

/// What a port expression is.
pub enum PortModel {
    /// `any`.
    Any,
    /// `$NAME`.
    Var(Seq<char>),
    /// A bracketed list.
    List(Seq<char>),
    /// A single port.
    Single(int),
    /// An inclusive range, open-ended where a bound is missing.
    Range(Option<int>, Option<int>),
}

/// The port half of a header field, with its negation flag.
#[derive(Debug, Clone, PartialEq, Eq)]
pub struct PortSpec {
    /// Whether the field was prefixed with `!`.
    pub negated: bool,
    /// The port expression.
    pub value: PortValue,
}

/// A port expression.
#[derive(Debug, Clone, PartialEq, Eq)]
pub enum PortValue {
    /// `any`.
    Any,
    /// `$NAME`, resolved from the configured port groups.
    Var(String),
    /// A bracketed list, e.g. `[80,443]`, kept verbatim.
    List(String),
    /// A single port.
    Single(u16),
    /// An inclusive range. `None` on either side means open-ended: `:1024` is
    /// `0..=1024` and `1024:` is `1024..=65535`.
    Range(Option<u16>, Option<u16>),
}

/// A bound of a range, as an integer.
pub open spec fn bound(port: Option<u16>) -> Option<int> {
    match port {
        Some(port) => Some(port as int),
        None => None,
    }
}

impl View for PortValue {
    type V = PortModel;

    open spec fn view(&self) -> PortModel {
        match self {
            PortValue::Any => PortModel::Any,
            PortValue::Var(name) => PortModel::Var(name@),
            PortValue::List(list) => PortModel::List(list@),
            PortValue::Single(port) => PortModel::Single(*port as int),
            PortValue::Range(low, high) => PortModel::Range(bound(*low), bound(*high)),
        }
    }
}

impl View for PortSpec {
    type V = (bool, PortModel);

    open spec fn view(&self) -> (bool, PortModel) {
        (self.negated, self.value@)
    }
}

/// What a rule header is.
pub struct HeaderModel {
    /// Action taken on a match.
    pub action: Action,
    /// Protocol selector.
    pub protocol: Protocol,
    /// Source addresses.
    pub source: (bool, AddressModel),
    /// Source ports.
    pub source_port: (bool, PortModel),
    /// Direction.
    pub direction: Direction,
    /// Destination addresses.
    pub destination: (bool, AddressModel),
    /// Destination ports.
    pub destination_port: (bool, PortModel),
}

/// The parsed rule header.
#[derive(Debug, Clone, PartialEq, Eq)]
pub struct RuleHeader {
    /// Action taken on a match.
    pub action: Action,
    /// Protocol selector.
    pub protocol: Protocol,
    /// Source addresses.
    pub source: AddressSpec,
    /// Source ports.
    pub source_port: PortSpec,
    /// Direction.
    pub direction: Direction,
    /// Destination addresses.
    pub destination: AddressSpec,
    /// Destination ports.
    pub destination_port: PortSpec,
}

impl View for RuleHeader {
    type V = HeaderModel;

    open spec fn view(&self) -> HeaderModel {
        HeaderModel {
            action: self.action,
            protocol: self.protocol,
            source: self.source@,
            source_port: self.source_port@,
            direction: self.direction,
            destination: self.destination@,
            destination_port: self.destination_port@,
        }
    }
}

/// One `metadata:` key/value pair.
#[derive(Debug, Clone, PartialEq, Eq)]
pub struct MetadataEntry {
    /// Key — the first whitespace-separated token.
    pub key: String,
    /// Value — everything after the key, or empty if there was nothing.
    pub value: String,
}

impl View for MetadataEntry {
    type V = (Seq<char>, Seq<char>);

    open spec fn view(&self) -> (Seq<char>, Seq<char>) {
        (self.key@, self.value@)
    }
}

/// The pairs of some metadata entries.
pub open spec fn entries(metadata: Seq<MetadataEntry>) -> Seq<(Seq<char>, Seq<char>)> {
    metadata.map_values(|entry: MetadataEntry| entry@)
}

/// Where a rule came from.
#[derive(Debug, Clone, PartialEq, Eq)]
pub struct RuleOrigin {
    /// File the rule was read from.
    pub file: String,
    /// 1-based line number the rule started on.
    pub line: usize,
}

impl View for RuleOrigin {
    type V = (Seq<char>, int);

    open spec fn view(&self) -> (Seq<char>, int) {
        (self.file@, self.line as int)
    }
}

/// An origin as `file:line`.
pub open spec fn origin_text(origin: (Seq<char>, int)) -> Seq<char> {
    origin.0 + ":"@ + decimal(origin.1 as nat)
}

impl RuleOrigin {
    /// Build an origin.
    pub fn new(file: &str, line: usize) -> (origin: Self)
        ensures
            origin@ == (file@, line as int),
    {
        Self { file: owned(file), line }
    }

    /// The origin as `file:line`.
    pub fn to_text(&self) -> (text: String)
        ensures
            text@ == origin_text(self@),
    {
        let mut text = self.file.clone();
        append(&mut text, ":");
        append_number(&mut text, self.line as u64);
        text
    }
}

/// What a rule is.
pub struct RuleModel {
    /// The header.
    pub header: HeaderModel,
    /// Signature id.
    pub sid: u32,
    /// Revision.
    pub rev: u32,
    /// Generator id.
    pub gid: Option<u32>,
    /// Priority.
    pub priority: Option<u8>,
    /// Human-readable description.
    pub msg: Seq<char>,
    /// Classification.
    pub classtype: Option<Seq<char>>,
    /// Metadata, in order.
    pub metadata: Seq<(Seq<char>, Seq<char>)>,
    /// References, in order.
    pub references: Seq<Seq<char>>,
    /// Match conditions, in order.
    pub options: Seq<OptionModel>,
    /// Rate limiting.
    pub threshold: Option<Threshold>,
    /// Whether the rule tracks state without alerting.
    pub no_alert: bool,
    /// Keywords that are recognised but not implemented, in order.
    pub unsupported_options: Seq<Seq<char>>,
    /// The rule text.
    pub raw: Seq<char>,
    /// Where the rule came from.
    pub origin: Option<(Seq<char>, int)>,
}

/// A successfully parsed rule.
#[derive(Debug, Clone, PartialEq, Eq)]
pub struct Rule {
    /// The header.
    pub header: RuleHeader,
    /// Signature id. Unique across the loaded ruleset.
    pub sid: u32,
    /// Revision. Defaults to 1 when the rule omits `rev`.
    pub rev: u32,
    /// Generator id, if the rule declared one.
    pub gid: Option<u32>,
    /// Priority, 1 (most urgent) to 255. Becomes the alert's severity.
    pub priority: Option<u8>,
    /// Human-readable description from `msg`.
    pub msg: String,
    /// `classtype`, if declared.
    pub classtype: Option<String>,
    /// `metadata` entries, in the order they appeared.
    pub metadata: Vec<MetadataEntry>,
    /// `reference` entries, for the analyst rather than the engine.
    pub references: Vec<String>,
    /// Match conditions, in the order they were written.
    ///
    /// Order is load-bearing: `distance` and `within` are measured from the
    /// previous match, and `byte_jump` moves the cursor the options after it
    /// read from.
    pub options: Vec<RuleOption>,
    /// Rate limiting, if the rule declared any.
    pub threshold: Option<Threshold>,
    /// The rule tracks state without alerting (`flowbits:noalert`).
    pub no_alert: bool,
    /// Option keywords this build recognises but cannot yet evaluate, in the
    /// order they appeared and without duplicates.
    ///
    /// A non-empty list means the rule is inert — see [`Rule::is_evaluable`].
    pub unsupported_options: Vec<String>,
    /// The rule text as written, with line continuations joined.
    pub raw: String,
    /// Where the rule came from. Set by the loader.
    pub origin: Option<RuleOrigin>,
}

/// What some match conditions are.
pub open spec fn option_models(options: Seq<RuleOption>) -> Seq<OptionModel> {
    options.map_values(|option: RuleOption| option@)
}

impl View for Rule {
    type V = RuleModel;

    open spec fn view(&self) -> RuleModel {
        RuleModel {
            header: self.header@,
            sid: self.sid,
            rev: self.rev,
            gid: self.gid,
            priority: self.priority,
            msg: self.msg@,
            classtype: optional_text(self.classtype),
            metadata: entries(self.metadata@),
            references: texts(self.references@),
            options: option_models(self.options@),
            threshold: self.threshold,
            no_alert: self.no_alert,
            unsupported_options: texts(self.unsupported_options@),
            raw: self.raw@,
            origin: match self.origin {
                Some(origin) => Some(origin@),
                None => None,
            },
        }
    }
}

/// Whether some option inspects a buffer.
pub open spec fn inspected(options: Seq<OptionModel>, buffer: Buffer) -> bool {
    exists|i: int| 0 <= i < options.len() && (#[trigger] options[i]).inspects() == Some(buffer)
}

/// A buffer, where some option inspects it.
pub open spec fn buffer_if(options: Seq<OptionModel>, buffer: Buffer) -> Seq<Buffer> {
    if inspected(options, buffer) {
        seq![buffer]
    } else {
        seq![]
    }
}

/// The buffers that some options inspect, each once, in the order of their
/// declaration.
pub open spec fn buffers_of(options: Seq<OptionModel>) -> Seq<Buffer> {
    Seq::<Buffer>::empty() + buffer_if(options, Buffer::Payload) + buffer_if(
        options,
        Buffer::HttpUri,
    ) + buffer_if(options, Buffer::HttpHeader) + buffer_if(options, Buffer::HttpUserAgent)
        + buffer_if(options, Buffer::HttpMethod) + buffer_if(options, Buffer::HttpHost)
}

/// The kind of host event that some options are about: none, one that all of
/// them that are about one share, or the first two that differ.
pub open spec fn kind_of(options: Seq<OptionModel>) -> Result<
    Option<HostEventKind>,
    (HostEventKind, HostEventKind),
>
    decreases options.len(),
{
    if options.len() == 0 {
        Ok(None)
    } else {
        match (kind_of(options.drop_last()), options.last().host_kind()) {
            (Ok(Some(existing)), Some(kind)) => if existing != kind {
                Err((existing, kind))
            } else {
                Ok(Some(kind))
            },
            (Ok(None), Some(kind)) => Ok(Some(kind)),
            (before, _) => before,
        }
    }
}

impl RuleModel {
    /// Whether every match condition is implemented.
    pub open spec fn evaluable(self) -> bool {
        self.unsupported_options.len() == 0
    }

    /// Whether some match condition is about a host event.
    pub open spec fn about_host(self) -> bool {
        exists|i: int|
            0 <= i < self.options.len() && (#[trigger] self.options[i]).host_kind() is Some
    }

    /// `file:line`, where the origin is known.
    pub open spec fn location_text(self) -> Seq<char> {
        match self.origin {
            Some(origin) => origin_text(origin),
            None => "<inline>"@,
        }
    }
}

fn push_if_inspected(buffers: &mut Vec<Buffer>, options: &Vec<RuleOption>, buffer: Buffer)
    ensures
        final(buffers)@ == old(buffers)@ + buffer_if(option_models(options@), buffer),
{
    let ghost models = option_models(options@);
    let ghost before = buffers@;
    let mut found: bool = false;
    let mut i: usize = 0;
    while i < options.len()
        invariant
            models == option_models(options@),
            i <= models.len(),
            found == exists|j: int| 0 <= j < i && (#[trigger] models[j]).inspects() == Some(buffer),
        decreases models.len() - i,
    {
        assert(models[i as int] == options@[i as int]@);
        if let Some(other) = options[i].buffer() {
            if other == buffer {
                found = true;
            }
        }
        i = i + 1;
    }
    if found {
        buffers.push(buffer);
    }
    assert(buffers@ =~= before + buffer_if(models, buffer));
}

impl Rule {
    /// Whether this build can evaluate the rule in full.
    ///
    /// `false` means at least one match condition is unimplemented, so an
    /// engine must not evaluate the rule at all: honouring the header while
    /// ignoring the conditions would broaden the signature rather than narrow
    /// it.
    pub fn is_evaluable(&self) -> (evaluable: bool)
        ensures
            evaluable == self@.evaluable(),
    {
        self.unsupported_options.len() == 0
    }

    /// Severity for the alert this rule raises.
    ///
    /// Defaults to 3 — "worth looking at" — when the rule says nothing, so an
    /// author who does not think about priority does not get the loudest one.
    pub fn severity(&self) -> (severity: u8)
        ensures
            severity == (match self.priority {
                Some(priority) => priority,
                None => 3,
            }),
    {
        match self.priority {
            Some(priority) => priority,
            None => 3,
        }
    }

    /// Every buffer this rule inspects.
    pub fn buffers(&self) -> (buffers: Vec<Buffer>)
        ensures
            buffers@ == buffers_of(self@.options),
    {
        let mut buffers: Vec<Buffer> = Vec::new();
        push_if_inspected(&mut buffers, &self.options, Buffer::Payload);
        push_if_inspected(&mut buffers, &self.options, Buffer::HttpUri);
        push_if_inspected(&mut buffers, &self.options, Buffer::HttpHeader);
        push_if_inspected(&mut buffers, &self.options, Buffer::HttpUserAgent);
        push_if_inspected(&mut buffers, &self.options, Buffer::HttpMethod);
        push_if_inspected(&mut buffers, &self.options, Buffer::HttpHost);
        buffers
    }

    /// The host event kind this rule matches, if it is a host rule.
    ///
    /// `None` means it is a network rule. A rule naming fields from two
    /// different kinds could never match a single record, so that is an error
    /// rather than an armed rule that never fires.
    ///
    /// # Errors
    /// The two kinds that conflicted.
    pub fn host_event_kind(&self) -> (kind: Result<
        Option<HostEventKind>,
        (HostEventKind, HostEventKind),
    >)
        ensures
            kind == kind_of(self@.options),
    {
        let ghost models = self@.options;
        let mut found: Option<HostEventKind> = None;
        let mut i: usize = 0;
        while i < self.options.len()
            invariant
                models == self@.options,
                i <= models.len(),
                kind_of(models.take(i as int)) == Ok::<
                    Option<HostEventKind>,
                    (HostEventKind, HostEventKind),
                >(found),
            decreases models.len() - i,
        {
            proof {
                assert(models.take(i + 1).drop_last() =~= models.take(i as int));
                assert(models.take(i + 1).last() == self.options@[i as int]@);
            }
            if let Some(kind) = self.options[i].host_event_kind() {
                if let Some(existing) = found {
                    if existing != kind {
                        proof {
                            lemma_conflict_stays(models, i + 1);
                        }
                        return Err((existing, kind));
                    }
                }
                found = Some(kind);
            }
            i = i + 1;
        }
        assert(models.take(i as int) =~= models);
        Ok(found)
    }

    /// Whether this rule matches host events rather than network traffic.
    pub fn is_host_rule_by_options(&self) -> (host: bool)
        ensures
            host == self@.about_host(),
    {
        let ghost models = self@.options;
        let mut i: usize = 0;
        while i < self.options.len()
            invariant
                models == self@.options,
                i <= models.len(),
                forall|j: int| 0 <= j < i ==> (#[trigger] models[j]).host_kind() is None,
            decreases models.len() - i,
        {
            assert(models[i as int] == self.options@[i as int]@);
            if self.options[i].host_event_kind().is_some() {
                return true;
            }
            i = i + 1;
        }
        false
    }

    /// Whether matching this rule needs the HTTP parser.
    pub fn needs_http(&self) -> (needs: bool)
        ensures
            needs == (self@.header.protocol is Http || exists|i: int|
                0 <= i < self@.options.len() && (#[trigger] self@.options[i]).inspects() is Some
                    && self@.options[i].inspects() != Some(Buffer::Payload)),
    {
        if matches!(self.header.protocol, Protocol::Http) {
            return true;
        }
        let ghost models = self@.options;
        let mut i: usize = 0;
        while i < self.options.len()
            invariant
                models == self@.options,
                i <= models.len(),
                forall|j: int|
                    0 <= j < i ==> (#[trigger] models[j]).inspects() is None || models[j].inspects()
                        == Some(Buffer::Payload),
            decreases models.len() - i,
        {
            assert(models[i as int] == self.options@[i as int]@);
            if let Some(buffer) = self.options[i].buffer() {
                if buffer.is_http() {
                    return true;
                }
            }
            i = i + 1;
        }
        false
    }

    /// Whether this is a host rule, by the SID convention.
    pub fn is_host_rule(&self) -> (host: bool)
        ensures
            host == (self.sid >= 1_000_000),
    {
        self.sid >= 1_000_000
    }

    /// `file:line` if the origin is known, otherwise `<inline>`.
    pub fn location(&self) -> (text: String)
        ensures
            text@ == self@.location_text(),
    {
        match &self.origin {
            Some(origin) => origin.to_text(),
            None => owned("<inline>"),
        }
    }
}

proof fn lemma_conflict_stays(options: Seq<OptionModel>, k: int)
    requires
        0 <= k <= options.len(),
        kind_of(options.take(k)) is Err,
    ensures
        kind_of(options) == kind_of(options.take(k)),
    decreases options.len(),
{
    if k < options.len() {
        assert(options.drop_last().take(k) =~= options.take(k));
        lemma_conflict_stays(options.drop_last(), k);
    } else {
        assert(options.take(k) =~= options);
    }
}

spec fn place(buffer: Buffer) -> int {
    match buffer {
        Buffer::Payload => 0,
        Buffer::HttpUri => 1,
        Buffer::HttpHeader => 2,
        Buffer::HttpUserAgent => 3,
        Buffer::HttpMethod => 4,
        Buffer::HttpHost => 5,
    }
}

spec fn ascending(buffers: Seq<Buffer>, below: int) -> bool {
    &&& forall|i: int, j: int|
        0 <= i < j < buffers.len() ==> place(#[trigger] buffers[i]) < place(#[trigger] buffers[j])
    &&& forall|i: int| 0 <= i < buffers.len() ==> place(#[trigger] buffers[i]) < below
}

proof fn lemma_one_more(
    options: Seq<OptionModel>,
    before: Seq<Buffer>,
    next: Buffer,
    buffer: Buffer,
)
    requires
        ascending(before, place(next)),
    ensures
        ascending(before + buffer_if(options, next), place(next) + 1),
        (before + buffer_if(options, next)).contains(buffer) <==> before.contains(buffer) || (buffer
            == next && inspected(options, next)),
{
    let after = before + buffer_if(options, next);
    if inspected(options, next) {
        assert(after[before.len() as int] == next);
    }
    if before.contains(buffer) {
        let i = choose|i: int| 0 <= i < before.len() && before[i] == buffer;
        assert(after[i] == buffer);
    }
    if after.contains(buffer) {
        let i = choose|i: int| 0 <= i < after.len() && after[i] == buffer;
        assert(i < before.len() ==> before[i] == buffer);
    }
    assert forall|i: int, j: int| 0 <= i < j < after.len() implies place(#[trigger] after[i])
        < place(#[trigger] after[j]) by {
        assert(after[i] == before[i]);
        if j < before.len() {
            assert(after[j] == before[j]);
        }
    }
}

/// A rule inspects the buffers that its options inspect, and names each of them once.
pub proof fn law_buffers_are_those_inspected(options: Seq<OptionModel>, buffer: Buffer)
    ensures
        buffers_of(options).contains(buffer) <==> exists|i: int|
            0 <= i < options.len() && (#[trigger] options[i]).inspects() == Some(buffer),
        buffers_of(options).no_duplicates(),
{
    let a = Seq::<Buffer>::empty() + buffer_if(options, Buffer::Payload);
    let b = a + buffer_if(options, Buffer::HttpUri);
    let c = b + buffer_if(options, Buffer::HttpHeader);
    let d = c + buffer_if(options, Buffer::HttpUserAgent);
    let e = d + buffer_if(options, Buffer::HttpMethod);
    lemma_one_more(options, Seq::empty(), Buffer::Payload, buffer);
    lemma_one_more(options, a, Buffer::HttpUri, buffer);
    lemma_one_more(options, b, Buffer::HttpHeader, buffer);
    lemma_one_more(options, c, Buffer::HttpUserAgent, buffer);
    lemma_one_more(options, d, Buffer::HttpMethod, buffer);
    lemma_one_more(options, e, Buffer::HttpHost, buffer);
    let all = buffers_of(options);
    assert forall|i: int, j: int| 0 <= i < all.len() && 0 <= j < all.len() && i != j implies all[i]
        != all[j] by {
        if i < j {
            assert(place(all[i]) < place(all[j]));
        } else {
            assert(place(all[j]) < place(all[i]));
        }
    }
}

/// The kind of host event that a rule is about is the kind that every option about one
/// is about: none where there is no such option, and a conflict where two differ.
pub proof fn law_a_rule_is_about_one_kind(options: Seq<OptionModel>)
    ensures
        match kind_of(options) {
            Ok(None) => forall|i: int|
                0 <= i < options.len() ==> (#[trigger] options[i]).host_kind() is None,
            Ok(Some(kind)) => {
                &&& forall|i: int|
                    0 <= i < options.len() && (#[trigger] options[i]).host_kind() is Some
                        ==> options[i].host_kind() == Some(kind)
                &&& exists|i: int|
                    0 <= i < options.len() && (#[trigger] options[i]).host_kind() == Some(kind)
            },
            Err((one, other)) => {
                &&& one != other
                &&& exists|i: int|
                    0 <= i < options.len() && (#[trigger] options[i]).host_kind() == Some(one)
                &&& exists|i: int|
                    0 <= i < options.len() && (#[trigger] options[i]).host_kind() == Some(other)
            },
        },
    decreases options.len(),
{
    if options.len() > 0 {
        let init = options.drop_last();
        law_a_rule_is_about_one_kind(init);
        assert forall|i: int| 0 <= i < init.len() implies #[trigger] init[i] == options[i] by {}
        let last = options[options.len() - 1];
        match kind_of(init) {
            Ok(Some(kind)) => {
                let i = choose|i: int|
                    0 <= i < init.len() && (#[trigger] init[i]).host_kind() == Some(kind);
                assert(options[i].host_kind() == Some(kind));
                assert forall|k: int|
                    0 <= k < options.len() && (#[trigger] options[k]).host_kind() is Some
                        && kind_of(options) is Ok implies options[k].host_kind() == Some(kind) by {
                    if k < init.len() {
                        assert(init[k].host_kind() is Some);
                    }
                }
            },
            Ok(None) => {
                assert forall|k: int| 0 <= k < init.len() implies (
                #[trigger] options[k]).host_kind() is None by {
                    assert(init[k].host_kind() is None);
                }
            },
            Err((one, other)) => {
                let i = choose|i: int|
                    0 <= i < init.len() && (#[trigger] init[i]).host_kind() == Some(one);
                let j = choose|j: int|
                    0 <= j < init.len() && (#[trigger] init[j]).host_kind() == Some(other);
                assert(options[i].host_kind() == Some(one));
                assert(options[j].host_kind() == Some(other));
            },
        }
        assert(last.host_kind() is Some ==> options[options.len() - 1].host_kind() is Some);
    }
}

/// The words of a rule header, and which protocols need an application parser.
pub proof fn law_header_words()
    ensures
        Action::Alert.keyword() == "alert"@,
        Action::Pass.keyword() == "pass"@,
        Protocol::Tcp.keyword() == "tcp"@,
        Protocol::Udp.keyword() == "udp"@,
        Protocol::Icmp.keyword() == "icmp"@,
        Protocol::Ip.keyword() == "ip"@,
        Protocol::Http.keyword() == "http"@,
        Protocol::Dns.keyword() == "dns"@,
        Protocol::Tls.keyword() == "tls"@,
        Direction::ToDestination.keyword() == "->"@,
        Direction::Bidirectional.keyword() == "<>"@,
        Protocol::Http.app_layer() && Protocol::Dns.app_layer() && Protocol::Tls.app_layer(),
        !Protocol::Tcp.app_layer() && !Protocol::Udp.app_layer() && !Protocol::Icmp.app_layer()
            && !Protocol::Ip.app_layer(),
{
}

/// A rule can be evaluated exactly where nothing in it is unsupported, is about a host
/// where one of its options is, and is located by its file and line.
pub proof fn law_what_a_rule_is(rule: RuleModel, file: Seq<char>, line: nat)
    ensures
        rule.evaluable() <==> rule.unsupported_options =~= seq![],
        rule.about_host() <==> exists|i: int|
            0 <= i < rule.options.len() && (#[trigger] rule.options[i]) is Host,
        rule.origin == Some((file, line as int)) ==> rule.location_text() == file + seq![':']
            + decimal(line),
        rule.origin is None ==> rule.location_text() == "<inline>"@,
{
    reveal_strlit(":");
    assert(":"@ =~= seq![':']);
    if rule.about_host() {
        let i = choose|i: int|
            0 <= i < rule.options.len() && (#[trigger] rule.options[i]).host_kind() is Some;
        assert(rule.options[i] is Host);
    }
    if exists|i: int| 0 <= i < rule.options.len() && (#[trigger] rule.options[i]) is Host {
        let i = choose|i: int| 0 <= i < rule.options.len() && (#[trigger] rule.options[i]) is Host;
        assert(rule.options[i].host_kind() is Some);
    }
}

} // verus!
