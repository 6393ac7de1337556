//! The `.rules` format: model, parser, and loader.
//!
//! # Format
//!
//! One rule per line — a header, then a parenthesised, semicolon-separated
//! option list:
//!
//! ```text
//! alert tcp $EXTERNAL_NET any -> $HOME_NET $HTTP_PORTS ( \
//!     msg:"CYBERSENTINEL WEB traversal attempt in URI"; \
//!     flow:established,to_server; http.uri; content:"../"; nocase; \
//!     classtype:web-application-attack; \
//!     metadata:phase 3, confidence medium; \
//!     sid:2000101; rev:1;)
//! ```
//!
//! Blank lines and `#` comments are ignored, and a trailing `\` continues a
//! rule onto the next line.
//!
//! # Two failure modes, deliberately distinguished
//!
//! * **Unparseable** — a malformed header, a missing `sid`, an unknown option
//!   keyword. The rule is *skipped* with a file, line, and reason. An unknown
//!   keyword counts here on purpose: a typo like `contnet:"x"` would otherwise
//!   silently produce a rule that matches far more traffic than its author
//!   intended.
//!
//! * **Parseable but not yet evaluable** — every option is a keyword this
//!   format defines, but at least one is not implemented in this build. The
//!   rule loads, is counted, and reports [`model::Rule::is_evaluable`] as
//!   `false`.
//!
//! **An engine must only ever evaluate rules where
//! [`model::Rule::is_evaluable`] is `true`.** Evaluating a rule while ignoring
//! the conditions it cannot handle would turn a narrow signature into a broad
//! one.

pub mod block;
pub mod error;
pub mod header;
pub mod lines;
pub mod loader;
pub mod model;
pub mod options;
pub mod parser;
pub mod values;

pub use error::ParseError;
pub use loader::{LoadReport, RuleFile, RuleSet, SkippedRule};
pub use model::{
    Action, AddressSpec, AddressValue, Direction, MetadataEntry, PortSpec, PortValue, Protocol,
    Rule, RuleHeader, RuleOrigin,
};
pub use options::{
    Buffer, ByteJump, ByteTest, ContentMatch, DsizeMatch, Endian, FlowBitsOp, FlowMatch,
    NormalizationCondition, NumericOp, PcreMatch, RuleOption, Threshold, ThresholdKind, Track,
};
pub use parser::parse_rule;
