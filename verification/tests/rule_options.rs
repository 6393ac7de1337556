use cybersentinel::rules::options::{
    Buffer, ContentMatch, DsizeMatch, NormalizationCondition, NumericOp,
};

#[test]
fn numeric_operators_apply_as_written() {
    assert!(NumericOp::Greater.apply(5, 3));
    assert!(!NumericOp::Greater.apply(3, 5));
    assert!(NumericOp::BitAnd.apply(0b1010, 0b0010));
    assert!(!NumericOp::BitAnd.apply(0b1010, 0b0101));
    assert_eq!(NumericOp::parse(">="), Some(NumericOp::GreaterOrEqual));
    assert_eq!(NumericOp::parse("nonsense"), None);
}

#[test]
fn dsize_handles_both_comparisons_and_ranges() {
    let greater = DsizeMatch {
        op: NumericOp::Greater,
        value: 200,
        upper: None,
    };
    assert!(greater.matches(201));
    assert!(!greater.matches(200));

    let range = DsizeMatch {
        op: NumericOp::Greater,
        value: 100,
        upper: Some(200),
    };
    assert!(range.matches(150));
    assert!(!range.matches(100));
    assert!(!range.matches(200));
}

#[test]
fn sticky_buffer_keywords_round_trip() {
    for buffer in [
        Buffer::HttpUri,
        Buffer::HttpHeader,
        Buffer::HttpUserAgent,
        Buffer::HttpMethod,
        Buffer::HttpHost,
    ] {
        assert_eq!(Buffer::from_keyword(buffer.as_str()), Some(buffer));
        assert!(buffer.is_http());
    }
    assert!(!Buffer::Payload.is_http());
    assert_eq!(Buffer::from_keyword("http.nonsense"), None);
}

#[test]
fn a_negated_content_cannot_be_a_fast_pattern() {
    // The pre-filter selects packets that CONTAIN the pattern. A rule that
    // requires its absence would never be considered for the packets it is
    // supposed to fire on.
    let mut content = ContentMatch::new(b"evil".to_vec());
    assert!(content.usable_as_fast_pattern());
    content.negated = true;
    assert!(!content.usable_as_fast_pattern());
}

#[test]
fn normalization_conditions_round_trip() {
    assert_eq!(
        NormalizationCondition::parse("double_encoded"),
        Some(NormalizationCondition::DoubleEncoded)
    );
    assert_eq!(NormalizationCondition::parse("nope"), None);
}
