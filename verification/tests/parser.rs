use cybersentinel::rules::model::{
    Action, AddressValue, Direction, MetadataEntry, PortValue, Protocol,
};
use cybersentinel::rules::options::{
    Buffer, DsizeMatch, Endian, FlowBitsOp, FlowMatch, NormalizationCondition, NumericOp,
    RuleOption, ThresholdKind, Track,
};
use cybersentinel::rules::{parse_rule, ParseError};

const MINIMAL: &str = r#"alert tcp any any -> any any (msg:"minimal"; sid:1;)"#;

#[test]
fn parses_a_minimal_rule() {
    let rule = parse_rule(MINIMAL).unwrap();
    assert_eq!(rule.header.action, Action::Alert);
    assert_eq!(rule.header.protocol, Protocol::Tcp);
    assert_eq!(rule.header.direction, Direction::ToDestination);
    assert_eq!(rule.sid, 1);
    assert_eq!(rule.rev, 1, "rev defaults to 1");
    assert_eq!(rule.msg, "minimal");
    assert!(rule.classtype.is_none());
    assert!(rule.is_evaluable());
}

#[test]
fn parses_a_full_header() {
    let rule = parse_rule(
        r#"alert http !$EXTERNAL_NET [80,8080] <> 192.0.2.0/24 !1024: (msg:"m"; sid:2;)"#,
    )
    .unwrap();
    let header = rule.header;
    assert_eq!(header.protocol, Protocol::Http);
    assert!(header.source.negated);
    assert_eq!(
        header.source.value,
        AddressValue::Var("EXTERNAL_NET".into())
    );
    assert_eq!(
        header.source_port.value,
        PortValue::List("[80,8080]".into())
    );
    assert_eq!(header.direction, Direction::Bidirectional);
    assert_eq!(
        header.destination.value,
        AddressValue::Literal("192.0.2.0/24".into())
    );
    assert!(header.destination_port.negated);
    assert_eq!(
        header.destination_port.value,
        PortValue::Range(Some(1024), None)
    );
}

#[test]
fn parses_metadata_classtype_and_rev() {
    let rule = parse_rule(
        r#"alert tcp any any -> any any (msg:"m"; classtype:trojan-activity; metadata:phase 3, confidence medium, flag; sid:3; rev:7;)"#,
    )
    .unwrap();
    assert_eq!(rule.rev, 7);
    assert_eq!(rule.classtype.as_deref(), Some("trojan-activity"));
    assert_eq!(
        rule.metadata,
        vec![
            MetadataEntry {
                key: "phase".into(),
                value: "3".into()
            },
            MetadataEntry {
                key: "confidence".into(),
                value: "medium".into()
            },
            MetadataEntry {
                key: "flag".into(),
                value: String::new()
            },
        ]
    );
}

#[test]
fn a_semicolon_inside_a_quoted_value_does_not_end_the_option() {
    let rule = parse_rule(r#"alert tcp any any -> any any (msg:"a; b; c"; sid:4;)"#).unwrap();
    assert_eq!(rule.msg, "a; b; c");
}

#[test]
fn escapes_are_resolved_in_values() {
    let rule =
        parse_rule(r#"alert tcp any any -> any any (msg:"quote \" semi \; slash \\"; sid:5;)"#)
            .unwrap();
    assert_eq!(rule.msg, r#"quote " semi ; slash \"#);
}

#[test]
fn regex_escapes_reach_the_expression_unchanged() {
    let rule =
        parse_rule(r#"alert tcp any any -> any any (msg:"m"; pcre:"/\d+/i"; sid:6;)"#).unwrap();
    let Some(RuleOption::Pcre(pcre)) = rule.options.first() else {
        panic!("expected a pcre option, got {:?}", rule.options);
    };
    assert_eq!(pcre.source, r"\d+");
    assert!(pcre.case_insensitive);
    assert!(rule.is_evaluable());
}

#[test]
fn a_sticky_buffer_applies_to_the_matches_that_follow_it() {
    let rule = parse_rule(
        r#"alert http any any -> any any (msg:"m"; http.uri; content:"x"; nocase; content:"y"; http.header; content:"z"; sid:7;)"#,
    )
    .unwrap();
    assert!(rule.is_evaluable());

    let buffers: Vec<Buffer> = rule.options.iter().filter_map(RuleOption::buffer).collect();
    assert_eq!(
        buffers,
        vec![Buffer::HttpUri, Buffer::HttpUri, Buffer::HttpHeader],
        "the buffer persists until another keyword changes it"
    );

    let Some(RuleOption::Content(first)) = rule.options.first() else {
        panic!("expected content");
    };
    assert!(first.nocase, "nocase attaches to the content before it");
    assert!(rule.needs_http());
}

#[test]
fn repeated_unsupported_options_are_listed_once() {
    let rule = parse_rule(
        r#"alert tcp any any -> any any (msg:"m"; content:"a"; endswith; content:"b"; endswith; sid:8;)"#,
    )
    .unwrap();
    assert_eq!(rule.unsupported_options, vec!["endswith".to_string()]);
    assert!(!rule.is_evaluable());
}

// -----------------------------------------------------------------------
// match conditions
// -----------------------------------------------------------------------

#[test]
fn parses_content_with_its_modifiers() {
    let rule = parse_rule(
        r#"alert tcp any any -> any any (msg:"m"; content:"GET"; offset:0; depth:3; content:"HTTP"; distance:1; within:20; fast_pattern; sid:1;)"#,
    )
    .unwrap();

    let Some(RuleOption::Content(first)) = rule.options.first() else {
        panic!("expected content");
    };
    assert_eq!(first.pattern, b"GET");
    assert_eq!(first.offset, Some(0));
    assert_eq!(first.depth, Some(3));
    assert!(!first.is_relative());

    let Some(RuleOption::Content(second)) = rule.options.get(1) else {
        panic!("expected a second content");
    };
    assert_eq!(second.distance, Some(1));
    assert_eq!(second.within, Some(20));
    assert!(second.is_relative());
    assert!(second.fast_pattern);
}

#[test]
fn parses_hex_sections_in_content() {
    let rule = parse_rule(
        r#"alert tcp any any -> any any (msg:"m"; content:"GET|20 2f|HTTP|0d0a|"; sid:1;)"#,
    )
    .unwrap();
    let Some(RuleOption::Content(content)) = rule.options.first() else {
        panic!("expected content");
    };
    assert_eq!(content.pattern, b"GET /HTTP\r\n");
}

#[test]
fn rejects_malformed_hex_sections() {
    for text in [
        r#"alert tcp any any -> any any (msg:"m"; content:"|41"; sid:1;)"#,
        r#"alert tcp any any -> any any (msg:"m"; content:"|4|"; sid:1;)"#,
        r#"alert tcp any any -> any any (msg:"m"; content:"|zz|"; sid:1;)"#,
    ] {
        assert!(
            parse_rule(text).is_err(),
            "should have been rejected: {text}"
        );
    }
}

#[test]
fn a_negated_content_is_recognised_as_such() {
    let rule =
        parse_rule(r#"alert tcp any any -> any any (msg:"m"; content:!"benign"; sid:1;)"#)
            .unwrap();
    let Some(RuleOption::Content(content)) = rule.options.first() else {
        panic!("expected content");
    };
    assert!(content.negated);
    assert_eq!(content.pattern, b"benign");
    assert!(!content.usable_as_fast_pattern());
}

#[test]
fn startswith_anchors_the_pattern_to_the_start() {
    let rule = parse_rule(
        r#"alert tcp any any -> any any (msg:"m"; content:"GET"; startswith; sid:1;)"#,
    )
    .unwrap();
    let Some(RuleOption::Content(content)) = rule.options.first() else {
        panic!("expected content");
    };
    assert_eq!(content.offset, Some(0));
    assert_eq!(content.depth, Some(3));
}

#[test]
fn a_modifier_with_no_content_before_it_is_an_error() {
    // Silently ignoring it would leave a rule that does not mean what its
    // author wrote.
    let error =
        parse_rule(r#"alert tcp any any -> any any (msg:"m"; nocase; sid:1;)"#).unwrap_err();
    assert!(
        error.to_text().contains("no preceding content"),
        "{error:?}"
    );
}

#[test]
fn parses_flow_and_flowbits() {
    let rule = parse_rule(
        r#"alert tcp any any -> any any (msg:"m"; flow:established,to_server; flowbits:isset,logged_in; flowbits:set,seen; sid:1;)"#,
    )
    .unwrap();
    assert!(matches!(
        rule.options.first(),
        Some(RuleOption::Flow(FlowMatch {
            established: Some(true),
            to_server: Some(true)
        }))
    ));
    assert!(matches!(
        rule.options.get(1),
        Some(RuleOption::FlowBits(FlowBitsOp::IsSet(_)))
    ));
}

#[test]
fn flowbits_noalert_marks_the_rule_rather_than_adding_a_condition() {
    let rule = parse_rule(
        r#"alert tcp any any -> any any (msg:"m"; flowbits:set,seen; flowbits:noalert; sid:1;)"#,
    )
    .unwrap();
    assert!(rule.no_alert);
    assert_eq!(rule.options.len(), 1, "noalert is not a match condition");
}

#[test]
fn parses_byte_test_and_byte_jump() {
    let rule = parse_rule(
        r#"alert tcp any any -> any any (msg:"m"; byte_test:2,>,1000,0,relative,little; byte_jump:4,0,relative,multiplier 2,post_offset -4; sid:1;)"#,
    )
    .unwrap();

    let Some(RuleOption::ByteTest(test)) = rule.options.first() else {
        panic!("expected byte_test");
    };
    assert_eq!(test.bytes, 2);
    assert_eq!(test.op, NumericOp::Greater);
    assert_eq!(test.value, 1_000);
    assert!(test.relative);
    assert_eq!(test.endian, Endian::Little);

    let Some(RuleOption::ByteJump(jump)) = rule.options.get(1) else {
        panic!("expected byte_jump");
    };
    assert_eq!(jump.multiplier, 2);
    assert_eq!(jump.post_offset, -4);
    assert!(jump.relative);
}

#[test]
fn parses_dsize_comparisons_and_ranges() {
    let single =
        parse_rule(r#"alert udp any any -> any any (msg:"m"; dsize:>200; sid:1;)"#).unwrap();
    assert!(matches!(
        single.options.first(),
        Some(RuleOption::Dsize(DsizeMatch {
            op: NumericOp::Greater,
            value: 200,
            upper: None
        }))
    ));

    let range = parse_rule(r#"alert udp any any -> any any (msg:"m"; dsize:100<>200; sid:1;)"#)
        .unwrap();
    let Some(RuleOption::Dsize(dsize)) = range.options.first() else {
        panic!("expected dsize");
    };
    assert_eq!(dsize.upper, Some(200));
}

#[test]
fn parses_threshold() {
    let rule = parse_rule(
        r#"alert tcp any any -> any any (msg:"m"; threshold:type threshold, track by_src, count 20, seconds 60; sid:1;)"#,
    )
    .unwrap();
    let threshold = rule.threshold.expect("a threshold");
    assert_eq!(threshold.kind, ThresholdKind::Threshold);
    assert_eq!(threshold.track, Track::BySource);
    assert_eq!(threshold.count, 20);
    assert_eq!(threshold.seconds, 60);
}

#[test]
fn an_incomplete_threshold_is_rejected() {
    // Half a threshold would silently rate-limit differently from what the
    // author wrote.
    for text in [
        r#"alert tcp any any -> any any (msg:"m"; threshold:type threshold, count 5; sid:1;)"#,
        r#"alert tcp any any -> any any (msg:"m"; threshold:track by_src, count 5, seconds 60; sid:1;)"#,
        r#"alert tcp any any -> any any (msg:"m"; threshold:type threshold, track by_src, count 0, seconds 60; sid:1;)"#,
    ] {
        assert!(
            parse_rule(text).is_err(),
            "should have been rejected: {text}"
        );
    }
}

#[test]
fn parses_normalization_conditions() {
    let rule = parse_rule(
        r#"alert http any any -> any any (msg:"m"; http.uri; normalized:double_encoded; sid:1;)"#,
    )
    .unwrap();
    assert!(matches!(
        rule.options.last(),
        Some(RuleOption::Normalized(
            NormalizationCondition::DoubleEncoded
        ))
    ));
}

#[test]
fn priority_becomes_the_alert_severity() {
    let rule =
        parse_rule(r#"alert tcp any any -> any any (msg:"m"; priority:1; sid:1;)"#).unwrap();
    assert_eq!(rule.severity(), 1);

    let default = parse_rule(r#"alert tcp any any -> any any (msg:"m"; sid:1;)"#).unwrap();
    assert_eq!(
        default.severity(),
        3,
        "an author who says nothing gets the middle"
    );
}

#[test]
fn malformed_option_values_are_rejected_with_a_reason() {
    for text in [
        r#"alert tcp any any -> any any (msg:"m"; flow:sideways; sid:1;)"#,
        r#"alert tcp any any -> any any (msg:"m"; flowbits:frobnicate,x; sid:1;)"#,
        r#"alert tcp any any -> any any (msg:"m"; flowbits:set; sid:1;)"#,
        r#"alert tcp any any -> any any (msg:"m"; pcre:"no-delimiters"; sid:1;)"#,
        r#"alert tcp any any -> any any (msg:"m"; pcre:"/x/q"; sid:1;)"#,
        r#"alert tcp any any -> any any (msg:"m"; byte_test:99,>,1,0; sid:1;)"#,
        r#"alert tcp any any -> any any (msg:"m"; byte_test:2,nonsense,1,0; sid:1;)"#,
        r#"alert tcp any any -> any any (msg:"m"; dsize:abc; sid:1;)"#,
        r#"alert http any any -> any any (msg:"m"; normalized:nonsense; sid:1;)"#,
        r#"alert tcp any any -> any any (msg:"m"; http.uri:value; sid:1;)"#,
    ] {
        assert!(
            parse_rule(text).is_err(),
            "should have been rejected: {text}"
        );
    }
}

#[test]
fn a_missing_final_semicolon_is_tolerated() {
    let rule = parse_rule(r#"alert tcp any any -> any any (msg:"m"; sid:9)"#).unwrap();
    assert_eq!(rule.sid, 9);
}

#[test]
fn prevention_actions_are_rejected_not_downgraded() {
    for action in ["drop", "reject"] {
        let text = MINIMAL.replace("alert", action);
        assert!(
            matches!(parse_rule(&text), Err(ParseError::PreventionAction(_))),
            "{action} must be rejected: v1 cannot block"
        );
    }
}

#[test]
fn a_reversed_arrow_is_rejected() {
    let text = MINIMAL.replace("->", "<-");
    assert!(matches!(
        parse_rule(&text),
        Err(ParseError::InvalidDirection(_))
    ));
}

#[test]
fn a_typo_in_an_option_keyword_is_an_error() {
    // Loading this while ignoring `contnet` would leave a header-only rule
    // matching every packet on the port.
    let text = r#"alert tcp any any -> any any (msg:"m"; contnet:"evil"; sid:10;)"#;
    assert_eq!(
        parse_rule(text),
        Err(ParseError::UnknownOption("contnet".into()))
    );
}

#[test]
fn sid_and_msg_are_required() {
    assert_eq!(
        parse_rule(r#"alert tcp any any -> any any (msg:"m";)"#),
        Err(ParseError::MissingSid)
    );
    assert_eq!(
        parse_rule(r#"alert tcp any any -> any any (sid:1;)"#),
        Err(ParseError::MissingMsg)
    );
}

#[test]
fn duplicate_single_valued_options_are_rejected() {
    let text = r#"alert tcp any any -> any any (msg:"a"; msg:"b"; sid:1;)"#;
    assert_eq!(
        parse_rule(text),
        Err(ParseError::DuplicateOption("msg".into()))
    );
}

#[test]
fn malformed_structure_is_reported_precisely() {
    assert_eq!(parse_rule(""), Err(ParseError::Empty));
    assert_eq!(
        parse_rule("alert tcp any any -> any any"),
        Err(ParseError::MissingOptionBlock)
    );
    assert_eq!(
        parse_rule(r#"alert tcp any any -> any any (msg:"m"; sid:1;"#),
        Err(ParseError::UnterminatedOptionBlock)
    );
    assert_eq!(
        parse_rule(r#"alert tcp any any -> any any (msg:"unterminated; sid:1;)"#),
        Err(ParseError::UnterminatedString)
    );
    assert_eq!(
        parse_rule(r#"alert tcp any -> any any (msg:"m"; sid:1;)"#),
        Err(ParseError::HeaderFieldCount { found: 6 })
    );
}

#[test]
fn malformed_addresses_and_ports_are_rejected() {
    let cases = [
        r#"alert tcp 999.1.1.1 any -> any any (msg:"m"; sid:1;)"#,
        r#"alert tcp 10.0.0.0/33 any -> any any (msg:"m"; sid:1;)"#,
        r#"alert tcp [10.0.0.1,10.0.0.2 any -> any any (msg:"m"; sid:1;)"#,
        r#"alert tcp $ any -> any any (msg:"m"; sid:1;)"#,
        r#"alert tcp any 70000 -> any any (msg:"m"; sid:1;)"#,
        r#"alert tcp any 200:100 -> any any (msg:"m"; sid:1;)"#,
        r#"alert tcp any http -> any any (msg:"m"; sid:1;)"#,
    ];
    for case in cases {
        assert!(
            parse_rule(case).is_err(),
            "should have been rejected: {case}"
        );
    }
}

#[test]
fn ipv6_literals_and_prefixes_work() {
    let rule =
        parse_rule(r#"alert tcp 2001:db8::/32 any -> ::1 any (msg:"m"; sid:1;)"#).unwrap();
    assert_eq!(
        rule.header.source.value,
        AddressValue::Literal("2001:db8::/32".into())
    );
    assert_eq!(
        rule.header.destination.value,
        AddressValue::Literal("::1".into())
    );
}

#[test]
fn keywords_are_case_insensitive_but_values_are_not() {
    let rule = parse_rule(r#"ALERT TCP any any -> any any (MSG:"KeepCase"; SID:1;)"#).unwrap();
    assert_eq!(rule.header.action, Action::Alert);
    assert_eq!(rule.msg, "KeepCase");
}

#[test]
fn host_rules_are_recognised_by_sid_range() {
    let network = parse_rule(MINIMAL).unwrap();
    assert!(!network.is_host_rule());
    let host = parse_rule(r#"alert ip any any -> any any (msg:"m"; sid:1000001;)"#).unwrap();
    assert!(host.is_host_rule());
}

/// The parser sees operator-supplied and, over time, third-party rule
/// content. It must be total on every input, not just well-formed ones.
#[test]
fn never_panics_on_hostile_input() {
    let cases = [
        "(",
        ")",
        "()",
        ")(",
        "\\",
        "alert",
        "alert tcp any any -> any any (",
        "alert tcp any any -> any any ()",
        r#"alert tcp any any -> any any (";)"#,
        r#"alert tcp any any -> any any (msg:")"#,
        "alert tcp any any -> any any (:::;;;)",
        "alert tcp any any -> any any (sid:99999999999999999999;)",
        "\u{0}\u{1}\u{2}",
        "alert tcp any any -> any any (msg:\"\u{1F600}\"; sid:1;)",
        "alert tcp any any -> any any (msg:\"m\"; sid:1;)\u{0}",
        "→ ← ↔",
    ];
    for case in cases {
        let _ = parse_rule(case);
    }
    // Deeply nested and very long inputs must stay linear, not recursive.
    let _ = parse_rule(&"(".repeat(10_000));
    let _ = parse_rule(&format!(
        r#"alert tcp any any -> any any (msg:"{}"; sid:1;)"#,
        "a".repeat(100_000)
    ));
}

#[test]
fn a_multibyte_value_is_not_split_mid_character() {
    let rule =
        parse_rule("alert tcp any any -> any any (msg:\"héllo → wörld\"; sid:1;)").unwrap();
    assert_eq!(rule.msg, "héllo → wörld");
}

#[test]
fn each_protocol_keyword_reads_back_in_either_case() {
    let protocols = [
        (Protocol::Tcp, "tcp"),
        (Protocol::Udp, "udp"),
        (Protocol::Icmp, "icmp"),
        (Protocol::Ip, "ip"),
        (Protocol::Http, "http"),
        (Protocol::Dns, "dns"),
        (Protocol::Tls, "tls"),
    ];
    for (i, (protocol, keyword)) in protocols.into_iter().enumerate() {
        assert_eq!(protocol.as_str(), keyword);
        for spelled in [keyword.to_string(), keyword.to_uppercase()] {
            let text = format!("alert {spelled} any any -> any any (msg:\"m\"; sid:1;)");
            assert_eq!(parse_rule(&text).unwrap().header.protocol, protocol);
        }
        for (_, other) in protocols.iter().skip(i + 1) {
            assert_ne!(keyword, *other);
        }
    }
}

#[test]
fn a_message_and_an_identifier_read_back() {
    let rule = parse_rule(
        "alert Udp any any -> any any (msg:\"(a; b) it's a test)\"; sid:4294967295;)",
    )
    .unwrap();
    assert_eq!(rule.msg, "(a; b) it's a test)");
    assert_eq!(rule.sid, 4_294_967_295);
    assert_eq!(rule.header.protocol, Protocol::Udp);
    assert!(rule.options.is_empty());
    assert!(rule.origin.is_none());
}

#[test]
fn a_port_range_is_never_backwards() {
    let rule = parse_rule(r#"alert tcp any 80:80 -> any 1:2 (msg:"m"; sid:1;)"#).unwrap();
    assert_eq!(
        rule.header.source_port.value,
        PortValue::Range(Some(80), Some(80))
    );
    assert!(matches!(
        parse_rule(r#"alert tcp any 81:80 -> any any (msg:"m"; sid:1;)"#),
        Err(ParseError::InvalidPort { .. })
    ));
}
