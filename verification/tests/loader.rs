use cybersentinel::rules::{LoadReport, RuleFile, RuleSet};

fn load(text: &str) -> (RuleSet, LoadReport) {
    let mut set = RuleSet::new();
    let mut report = LoadReport::default();
    set.load_text(text, "test.rules", &mut report);
    report.files.push("test.rules".to_string());
    (set, report)
}

#[test]
fn loads_rules_and_skips_comments_and_blanks() {
    let (set, report) = load(
        r#"
# a comment

alert tcp any any -> any any (msg:"one"; sid:1;)

  # indented comment
alert udp any any -> any any (msg:"two"; sid:2;)
"#,
    );
    assert_eq!(set.len(), 2);
    assert_eq!(report.loaded, 2);
    assert_eq!(report.evaluable, 2);
    assert!(report.skipped.is_empty());
}

#[test]
fn records_the_origin_line_of_each_rule() {
    let (set, _) = load("\n\nalert tcp any any -> any any (msg:\"m\"; sid:1;)\n");
    let origin = set.get(1).unwrap().origin.as_ref().unwrap();
    assert_eq!(origin.line, 3);
    assert_eq!(origin.file, "test.rules");
}

#[test]
fn joins_continuation_lines_and_reports_the_first_line() {
    let (set, report) =
        load("alert tcp any any -> any any ( \\\n    msg:\"joined\"; \\\n    sid:42;)\n");
    assert_eq!(report.loaded, 1);
    let rule = set.get(42).unwrap();
    assert_eq!(rule.msg, "joined");
    assert_eq!(rule.origin.as_ref().unwrap().line, 1);
}

#[test]
fn one_bad_rule_does_not_stop_the_load() {
    let (set, report) = load(
        r#"alert tcp any any -> any any (msg:"good one"; sid:1;)
this is not a rule at all
alert tcp any any -> any any (msg:"no sid";)
alert tcp any any -> any any (msg:"good two"; sid:2;)
"#,
    );
    assert_eq!(set.len(), 2, "the good rules must still load");
    assert_eq!(report.skipped.len(), 2);
    assert_eq!(report.skipped[0].line, 2);
    assert_eq!(report.skipped[1].line, 3);
    assert!(report.skipped[1].reason.contains("sid"));
    assert!(report.skipped[0].raw.contains("not a rule"));
}

#[test]
fn duplicate_sids_are_skipped_with_a_pointer_to_the_original() {
    let (set, report) = load(
        r#"alert tcp any any -> any any (msg:"first"; sid:7;)
alert udp any any -> any any (msg:"second"; sid:7;)
"#,
    );
    assert_eq!(set.len(), 1);
    assert_eq!(set.get(7).unwrap().msg, "first");
    assert_eq!(report.skipped.len(), 1);
    assert!(report.skipped[0].reason.contains("duplicate sid 7"));
    assert!(report.skipped[0].reason.contains("test.rules:1"));
}

#[test]
fn counts_unsupported_options_per_keyword() {
    let (_, report) = load(
        r#"alert tcp any any -> any any (msg:"a"; content:"x"; endswith; sid:1;)
alert tcp any any -> any any (msg:"b"; content:"y"; endswith; detection_filter:x; sid:2;)
alert tcp any any -> any any (msg:"c"; content:"z"; sid:3;)
"#,
    );
    assert_eq!(report.loaded, 3);
    assert_eq!(report.evaluable, 1);
    assert_eq!(report.non_evaluable(), 2);
    assert_eq!(report.unsupported_options.get("endswith"), 2);
    assert_eq!(report.unsupported_options.get("detection_filter"), 1);
}

#[test]
fn evaluable_iterator_excludes_inert_rules() {
    let (set, _) = load(
        r#"alert tcp any any -> any any (msg:"inert"; content:"x"; endswith; sid:1;)
alert tcp any any -> any any (msg:"live"; content:"y"; sid:2;)
"#,
    );
    let live: Vec<u32> = set.evaluable().iter().map(|rule| rule.sid).collect();
    assert_eq!(
        live,
        vec![2],
        "a rule with unevaluated conditions must never be evaluated"
    );
}

#[test]
fn a_missing_file_is_reported_not_ignored() {
    let missing = RuleFile {
        path: "/tmp/cybersentinel-definitely-absent.rules".to_string(),
        text: Err("No such file or directory (os error 2)".to_string()),
    };
    let (set, report) = RuleSet::load_files(&[missing]);
    assert!(set.is_empty());
    assert!(report.files.is_empty());
    assert_eq!(report.skipped.len(), 1);
    assert_eq!(report.skipped[0].line, 0);
    assert!(report.skipped[0].reason.contains("could not read"));
}

#[test]
fn a_trailing_continuation_is_surfaced_as_a_parse_error() {
    let (set, report) = load("alert tcp any any -> any any (msg:\"m\"; sid:1;) \\\n");
    assert!(set.is_empty() || set.len() == 1);
    // Either way it must be accounted for, never silently dropped.
    assert_eq!(report.loaded + report.skipped.len(), 1);
}

#[test]
fn a_leading_byte_order_mark_is_stripped() {
    let (set, report) = load("\u{feff}alert tcp any any -> any any (msg:\"m\"; sid:1;)\n");
    assert!(
        report.skipped.is_empty(),
        "BOM should not break the first rule"
    );
    assert_eq!(set.len(), 1);
}

#[test]
fn oversized_rule_text_is_truncated_in_the_report() {
    let long = format!(
        "alert tcp any any -> any any (msg:\"{}\";)",
        "x".repeat(5_000)
    );
    let (_, report) = load(&long);
    assert_eq!(report.skipped.len(), 1);
    assert!(report.skipped[0].raw.chars().count() <= 257);
}

#[test]
fn summary_reports_every_bucket() {
    let (_, report) = load(
        r#"alert tcp any any -> any any (msg:"a"; sid:1;)
alert tcp any any -> any any (msg:"b"; content:"x"; endswith; sid:2;)
garbage
"#,
    );
    let summary = report.summary();
    assert!(summary.contains("2 rule(s) loaded"), "{summary}");
    assert!(summary.contains("1 evaluable"), "{summary}");
    assert!(summary.contains("1 awaiting engine support"), "{summary}");
    assert!(summary.contains("1 skipped"), "{summary}");
}

#[test]
fn a_second_load_keeps_the_skips_of_the_first() {
    let (mut set, mut report) = load("nonsense\nalert tcp any any -> any any (msg:\"m\"; sid:1;)\n");
    let first = report.skipped.clone();
    assert_eq!(first.len(), 1);
    set.load_text(
        "# comment\n\nalert tcp any any -> any any (msg:\"again\"; sid:1;)\nalert tcp any any -> any any (sid:3;)\n",
        "more.rules",
        &mut report,
    );
    assert_eq!(set.len(), 1);
    assert_eq!(report.loaded, 1);
    assert_eq!(report.skipped[..1], first[..]);
    let places: Vec<(&str, usize)> = report.skipped[1..]
        .iter()
        .map(|skip| (skip.file.as_str(), skip.line))
        .collect();
    assert_eq!(places, [("more.rules", 3), ("more.rules", 4)]);
    assert!(report.skipped.iter().all(|skip| !skip.reason.is_empty()));
}
