use cybersentinel::rules::model::{Action, AddressValue, Direction, PortValue, Protocol};
use cybersentinel::rules::options::{
    Buffer, ByteJump, Endian, FlowBitsOp, FlowMatch, NumericOp, RuleOption,
};
use cybersentinel::rules::{parse_rule, ParseError};

fn with_options(options: &str) -> String {
    format!("alert tcp any any -> any any (msg:\"m\"; {options} sid:1;)")
}

fn error(text: &str) -> ParseError {
    parse_rule(text).expect_err(text)
}

#[test]
fn each_way_to_fail_has_its_own_text() {
    let cases = [
        ("", "empty rule"),
        (
            "alert tcp any any -> any any",
            "missing option block: expected '(' after the rule header",
        ),
        (
            "alert tcp any any -> any any (msg:\"m\"; sid:1;",
            "unterminated option block: expected a closing ')'",
        ),
        (
            "alert tcp any any -> any any (msg:\"m; sid:1;)",
            "unterminated quoted string",
        ),
        (
            "alert tcp any any -> any (msg:\"m\"; sid:1;)",
            "rule header must have 7 fields (action protocol src-addr src-port direction dst-addr dst-port), found 6",
        ),
        (
            "allow tcp any any -> any any (msg:\"m\"; sid:1;)",
            "unknown action \"allow\": expected alert, pass, drop, or reject",
        ),
        (
            "Drop tcp any any -> any any (msg:\"m\"; sid:1;)",
            "action \"Drop\" is not supported: CyberSentinel v1 is detection-only (IDS)",
        ),
        (
            "alert sctp any any -> any any (msg:\"m\"; sid:1;)",
            "unknown protocol \"sctp\": expected ip, tcp, udp, icmp, http, dns, or tls",
        ),
        (
            "alert tcp any any <- any any (msg:\"m\"; sid:1;)",
            "invalid direction \"<-\": expected '->' or '<>'",
        ),
        (
            "alert tcp 10.0.0.0/33 any -> any any (msg:\"m\"; sid:1;)",
            "invalid address \"10.0.0.0/33\": prefix length 33 exceeds 32 for this address family",
        ),
        (
            "alert tcp any 9:8 -> any any (msg:\"m\"; sid:1;)",
            "invalid port \"9:8\": range start is greater than range end",
        ),
        (
            "alert tcp any any -> any any (msg; sid:1;)",
            "option \"msg\" requires a value",
        ),
        (
            "alert tcp any any -> any any (msg:\"m\"; sid:x;)",
            "invalid value for option \"sid\": \"x\" is not a number",
        ),
        (
            "alert tcp any any -> any any (msg:\"m\"; contnet:\"x\"; sid:1;)",
            "unknown option \"contnet\"",
        ),
        (
            "alert tcp any any -> any any (msg:\"m\"; sid:1; sid:2;)",
            "duplicate option \"sid\"",
        ),
        (
            "alert tcp any any -> any any (msg:\"m\";)",
            "missing required option 'sid'",
        ),
        (
            "alert tcp any any -> any any (sid:1;)",
            "missing required option 'msg'",
        ),
    ];
    for (text, expected) in cases {
        assert_eq!(error(text).to_text(), expected, "{text}");
    }
}

#[test]
fn malformed_addresses_and_ports_say_why() {
    let addresses = [
        ("!", "empty address"),
        ("$", "'$' must be followed by a variable name"),
        (
            "$A-B",
            "variable name \"A-B\" must be alphanumeric or underscore",
        ),
        ("[10.0.0.1", "address list is missing its closing ']'"),
        ("[]", "empty address list"),
        ("10.0.0", "\"10.0.0\" is not an IP address"),
        ("10.0.0.1/x", "\"x\" is not a prefix length"),
        (
            "::1/129",
            "prefix length 129 exceeds 128 for this address family",
        ),
    ];
    for (field, reason) in addresses {
        let text = format!("alert tcp {field} any -> any any (msg:\"m\"; sid:1;)");
        assert_eq!(
            error(&text),
            ParseError::InvalidAddress {
                value: field.to_string(),
                reason: reason.to_string(),
            }
        );
    }
    let ports = [
        ("!", "empty port"),
        ("$", "'$' must be followed by a variable name"),
        ("[80", "port list is missing its closing ']'"),
        ("[]", "empty port list"),
        ("65536", "not a port number in 0..=65535"),
        ("1:65536", "\"65536\" is not a port number in 0..=65535"),
    ];
    for (field, reason) in ports {
        let text = format!("alert tcp any {field} -> any any (msg:\"m\"; sid:1;)");
        assert_eq!(
            error(&text),
            ParseError::InvalidPort {
                value: field.to_string(),
                reason: reason.to_string(),
            }
        );
    }
}

#[test]
fn malformed_option_values_say_why() {
    let cases = [
        ("priority:0;", "priority", "priority must be between 1 and 255"),
        ("priority:256;", "priority", "priority must be between 1 and 255"),
        ("http.uri:x;", "http.uri", "a sticky-buffer keyword takes no value"),
        ("content:\"\";", "content", "content must not be empty"),
        ("content:\"|4|\";", "content", "a hex section ended mid-byte"),
        ("content:\"|41\";", "content", "unterminated hex section"),
        ("content:\"|zz|\";", "content", "'z' is not a hex digit"),
        (
            "content:\"\u{201c}\";",
            "content",
            "non-ASCII character '\u{201c}' in a pattern; use a |hex| section",
        ),
        (
            "depth:3;",
            "depth",
            "no preceding content for this modifier",
        ),
        (
            "content:\"a\"; depth:x;",
            "depth",
            "depth must be a number",
        ),
        ("pcre:\"a\";", "pcre", "a pcre must be delimited with /"),
        ("pcre:\"//\";", "pcre", "empty expression"),
        ("pcre:\"/a/x\";", "pcre", "unknown pcre flag 'x'"),
        ("flow:sideways;", "flow", "unknown flow option \"sideways\""),
        ("flowbits:set;", "flowbits", "flowbits:set needs a bit name"),
        (
            "flowbits:flip,x;",
            "flowbits",
            "unknown flowbits command \"flip\"",
        ),
        (
            "byte_test:1,>,2;",
            "byte_test",
            "byte_test needs at least bytes, operator, value, offset",
        ),
        ("byte_test:x,>,2,0;", "byte_test", "bytes must be a number"),
        (
            "byte_test:9,>,2,0;",
            "byte_test",
            "byte_test can read between 1 and 8 bytes",
        ),
        ("byte_test:1,~,2,0;", "byte_test", "unknown operator \"~\""),
        ("byte_test:1,>,x,0;", "byte_test", "value must be a number"),
        ("byte_test:1,>,2,x;", "byte_test", "offset must be a number"),
        (
            "byte_test:1,>,2,0,odd;",
            "byte_test",
            "unsupported byte_test modifier \"odd\"",
        ),
        (
            "byte_jump:1;",
            "byte_jump",
            "byte_jump needs at least bytes and offset",
        ),
        (
            "byte_jump:0,1;",
            "byte_jump",
            "byte_jump can read between 1 and 8 bytes",
        ),
        (
            "byte_jump:1,0,multiplier x;",
            "byte_jump",
            "multiplier must be a number",
        ),
        (
            "byte_jump:1,0,post_offset x;",
            "byte_jump",
            "post_offset must be a number",
        ),
        (
            "byte_jump:1,0,odd;",
            "byte_jump",
            "unsupported byte_jump modifier \"odd\"",
        ),
        ("dsize:x;", "dsize", "dsize needs a number"),
        ("dsize:~5;", "dsize", "unknown operator \"~\""),
        ("dsize:5x;", "dsize", "dsize must be a number"),
        ("dsize:a<>5;", "dsize", "dsize bounds must be numbers"),
        (
            "normalized:odd;",
            "normalized",
            "unknown condition \"odd\"",
        ),
        (
            "threshold:type limit, track by_src, seconds 1;",
            "threshold",
            "threshold needs a count",
        ),
        (
            "threshold:type limit, track by_src, count 0, seconds 1;",
            "threshold",
            "threshold count must be at least 1",
        ),
        (
            "threshold:track by_src, count 1, seconds 1;",
            "threshold",
            "threshold needs a type",
        ),
        (
            "threshold:type limit, count 1, seconds 1;",
            "threshold",
            "threshold needs a track",
        ),
        (
            "threshold:type limit, track by_src, count 1;",
            "threshold",
            "threshold needs a seconds window",
        ),
        (
            "threshold:type odd;",
            "threshold",
            "unknown threshold type \"odd\"",
        ),
        (
            "threshold:track odd;",
            "threshold",
            "unknown threshold track \"odd\"",
        ),
        (
            "threshold:odd 1;",
            "threshold",
            "unknown threshold field \"odd\"",
        ),
        (
            "file.path:\" , \";",
            "file.path",
            "needs at least one value",
        ),
        ("file.path.pcre:\" \";", "file.path.pcre", "empty expression"),
    ];
    for (options, option, reason) in cases {
        assert_eq!(
            error(&with_options(options)),
            ParseError::InvalidOptionValue {
                option: option.to_string(),
                reason: reason.to_string(),
            },
            "{options}"
        );
    }
    assert_eq!(
        error("alert tcp any any -> any any (msg:\" \"; sid:1;)"),
        ParseError::InvalidOptionValue {
            option: "msg".to_string(),
            reason: "msg must not be empty".to_string(),
        }
    );
}

#[test]
fn header_fields_take_every_form() {
    let rule = parse_rule(
        "PASS Icmp !$HOME_NET :1024 <> [10.0.0.0/8,!10.1.0.0/16] 1024: (msg:\"m\"; sid:4294967295;)",
    )
    .expect("parses");
    assert_eq!(rule.header.action, Action::Pass);
    assert_eq!(rule.header.protocol, Protocol::Icmp);
    assert_eq!(rule.header.direction, Direction::Bidirectional);
    assert!(rule.header.source.negated);
    assert_eq!(
        rule.header.source.value,
        AddressValue::Var("HOME_NET".to_string())
    );
    assert_eq!(
        rule.header.source_port.value,
        PortValue::Range(None, Some(1_024))
    );
    assert_eq!(
        rule.header.destination.value,
        AddressValue::List("[10.0.0.0/8,!10.1.0.0/16]".to_string())
    );
    assert_eq!(
        rule.header.destination_port.value,
        PortValue::Range(Some(1_024), None)
    );
    assert_eq!(rule.sid, u32::MAX);
}

#[test]
fn a_jump_keeps_its_modifiers() {
    let rule = parse_rule(&with_options(
        "byte_jump:4, -2, relative, little, multiplier 3, post_offset -5;",
    ))
    .expect("parses");
    assert_eq!(
        rule.options,
        vec![RuleOption::ByteJump(ByteJump {
            bytes: 4,
            offset: -2,
            relative: true,
            multiplier: 3,
            endian: Endian::Little,
            post_offset: -5,
        })]
    );
    assert!(rule.options[0].is_side_effect());
}

#[test]
fn a_negated_test_keeps_its_operator() {
    let rule = parse_rule(&with_options("byte_test:2,!&,128,6;")).expect("parses");
    let Some(RuleOption::ByteTest(test)) = rule.options.first() else {
        panic!("expected a byte_test");
    };
    assert_eq!(test.op, NumericOp::BitAnd);
    assert!(test.negated);
    assert_eq!(test.value, 128);
    assert_eq!(test.offset, 6);
}

#[test]
fn flowbits_either_test_or_act() {
    for (op, condition) in [
        (FlowBitsOp::SetBit("a".to_string()), false),
        (FlowBitsOp::Unset("a".to_string()), false),
        (FlowBitsOp::Toggle("a".to_string()), false),
        (FlowBitsOp::IsSet("a".to_string()), true),
        (FlowBitsOp::IsNotSet("a".to_string()), true),
        (FlowBitsOp::NoAlert, false),
    ] {
        assert_eq!(op.is_condition(), condition);
        assert_eq!(RuleOption::FlowBits(op).is_side_effect(), !condition);
    }
    assert!(!RuleOption::Flow(FlowMatch {
        established: None,
        to_server: None,
    })
    .is_side_effect());
}

#[test]
fn only_http_needs_the_http_parser() {
    for (protocol, needed) in [("http", true), ("dns", false), ("tls", false), ("tcp", false)] {
        let rule = parse_rule(&format!(
            "alert {protocol} any any -> any any (msg:\"m\"; content:\"a\"; sid:1;)"
        ))
        .expect("parses");
        assert_eq!(rule.needs_http(), needed, "{protocol}");
    }
    let by_buffer = parse_rule(&with_options("http.host; content:\"a\";")).expect("parses");
    assert!(by_buffer.needs_http());
    assert_eq!(by_buffer.buffers(), vec![Buffer::HttpHost]);
}

#[test]
fn an_inline_rule_says_so() {
    let rule = parse_rule(&with_options("rev:7; gid:3; priority:255;")).expect("parses");
    assert_eq!(rule.location(), "<inline>");
    assert_eq!(rule.rev, 7);
    assert_eq!(rule.gid, Some(3));
    assert_eq!(rule.severity(), 255);
    assert!(!rule.is_host_rule());
}
