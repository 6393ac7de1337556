use cybersentinel::hids::event::AuthOutcome;
use cybersentinel::hids::evtx::{
    event_id, parse_logon_event, LogonType, MAX_EVENT_BYTES, MAX_FIELD_CHARS,
};

/// A rendered 4625 the way `EvtRender` produces one, trimmed to the fields
/// this module reads.
fn failure_event(user: &str, address: &str, logon_type: u32) -> String {
    format!(
        r#"<Event xmlns="http://schemas.microsoft.com/win/2004/08/events/event">
  <System>
<Provider Name="Microsoft-Windows-Security-Auditing"/>
<EventID>4625</EventID>
<Computer>WEB01</Computer>
  </System>
  <EventData>
<Data Name="SubjectUserName">-</Data>
<Data Name="TargetUserName">{user}</Data>
<Data Name="TargetDomainName">CORP</Data>
<Data Name="Status">0xc000006d</Data>
<Data Name="SubStatus">0xc0000064</Data>
<Data Name="LogonType">{logon_type}</Data>
<Data Name="LogonProcessName">NtLmSsp</Data>
<Data Name="WorkstationName">ATTACKER-PC</Data>
<Data Name="IpAddress">{address}</Data>
<Data Name="IpPort">50331</Data>
  </EventData>
</Event>"#
    )
}

fn success_event(user: &str, address: &str) -> String {
    format!(
        r#"<Event><System><EventID>4624</EventID></System>
  <EventData>
<Data Name="TargetUserName">{user}</Data>
<Data Name="TargetDomainName">CORP</Data>
<Data Name="LogonType">10</Data>
<Data Name="LogonProcessName">User32</Data>
<Data Name="IpAddress">{address}</Data>
<Data Name="IpPort">3389</Data>
  </EventData></Event>"#
    )
}

#[test]
fn parses_a_failed_logon() {
    let parsed =
        parse_logon_event(&failure_event("admin", "203.0.113.7", 3)).expect("a record");

    assert_eq!(parsed.event_id, 4_625);
    assert_eq!(parsed.event.outcome, AuthOutcome::Failure);
    assert_eq!(parsed.event.user.as_deref(), Some("admin"));
    assert_eq!(
        parsed
            .event
            .source_address
            .map(|a| a.to_text())
            .as_deref(),
        Some("203.0.113.7")
    );
    assert_eq!(parsed.event.source_port, Some(50_331));
    assert_eq!(parsed.logon_type, Some(LogonType::Network));
    assert_eq!(parsed.event.log_source, "windows-security");
    assert!(parsed.event.suspicious.is_empty());
}

#[test]
fn parses_a_successful_rdp_logon() {
    let parsed = parse_logon_event(&success_event("deploy", "10.0.0.5")).expect("a record");
    assert_eq!(parsed.event.outcome, AuthOutcome::Success);
    assert_eq!(parsed.logon_type, Some(LogonType::RemoteInteractive));
    assert!(parsed.logon_type.expect("a type").is_remote());
}

/// The whole point of preferring the Event Log over syslog: the account is
/// a field, so the `for invalid user bob` ambiguity cannot arise.
#[test]
fn a_username_that_reads_like_syslog_text_is_still_just_the_username() {
    let parsed = parse_logon_event(&failure_event("invalid user root", "203.0.113.7", 3))
        .expect("a record");
    assert_eq!(
        parsed.event.user.as_deref(),
        Some("invalid user root"),
        "the field says what the account was; there is nothing to disambiguate"
    );
    assert_eq!(
        parsed
            .event
            .source_address
            .map(|a| a.to_text())
            .as_deref(),
        Some("203.0.113.7")
    );
}

#[test]
fn an_event_that_is_not_a_logon_decision_is_ignored() {
    let xml = r#"<Event><System><EventID>4634</EventID></System>
        <EventData><Data Name="TargetUserName">bob</Data></EventData></Event>"#;
    assert!(
        parse_logon_event(xml).is_none(),
        "inventing an auth event from a logoff would be worse than ignoring it"
    );
}

#[test]
fn events_without_an_id_are_ignored() {
    for xml in [
        "",
        "<Event/>",
        "<Event><System></System></Event>",
        "<EventID>",
    ] {
        assert!(parse_logon_event(xml).is_none(), "{xml:?}");
    }
}

// -----------------------------------------------------------------------
// the field is structured; its contents are still hostile
// -----------------------------------------------------------------------

/// The Windows analogue of the syslog injection test, and the one that
/// shaped the design. If the renderer ever failed to escape a username, a
/// crafted one would look like more fields — and because `TargetUserName`
/// is rendered *before* `IpAddress`, the forged address comes first. Taking
/// the first occurrence would hand the attacker the field. The parser
/// refuses a duplicated field outright instead.
#[test]
fn a_username_containing_markup_cannot_fabricate_a_source_address() {
    let hostile = r#"bob</Data><Data Name="IpAddress">198.51.100.9</Data><Data Name="X">"#;
    let parsed =
        parse_logon_event(&failure_event(hostile, "203.0.113.7", 3)).expect("a record");

    assert_eq!(
        parsed.event.source_address, None,
        "an ambiguous field must not be used at all: no address beats a forged one"
    );
    assert!(
        parsed
            .event
            .suspicious
            .iter()
            .any(|note| note.contains("refusing it")),
        "and the attempt must be flagged: {:?}",
        parsed.event.suspicious
    );
    assert_eq!(
        parsed.event.outcome,
        AuthOutcome::Failure,
        "the logon attempt itself is still recorded"
    );
}

/// The same injection aimed at a field rendered *after* the username: the
/// answer must not depend on which way round they happen to be.
#[test]
fn injection_is_refused_whichever_order_the_fields_are_in() {
    let hostile = r#"x</Data><Data Name="TargetUserName">administrator</Data><Data Name="Y">"#;
    let parsed =
        parse_logon_event(&failure_event(hostile, "203.0.113.7", 3)).expect("a record");
    assert_eq!(
        parsed.event.user, None,
        "a duplicated account field is refused, not resolved"
    );
    assert!(parsed
        .event
        .suspicious
        .iter()
        .any(|note| note.contains("refusing it")));
}

#[test]
fn escaped_markup_in_a_username_is_decoded_and_flagged() {
    // What a correctly-behaving renderer produces for the same input.
    let escaped = "bob&lt;script&gt;";
    let parsed =
        parse_logon_event(&failure_event(escaped, "203.0.113.7", 3)).expect("a record");

    assert_eq!(parsed.event.user.as_deref(), Some("bob<script>"));
    assert!(
        parsed
            .event
            .suspicious
            .iter()
            .any(|note| note.contains("markup")),
        "a decoded value containing markup is not something a real account produces"
    );
}

#[test]
fn double_escaped_entities_are_not_over_decoded() {
    // `&amp;lt;` is the literal text `&lt;`, not `<`. Decoding ampersands
    // first would turn it into markup.
    let parsed =
        parse_logon_event(&failure_event("a&amp;lt;b", "203.0.113.7", 3)).expect("a record");
    assert_eq!(parsed.event.user.as_deref(), Some("a&lt;b"));
}

#[test]
fn control_characters_never_reach_an_event() {
    let parsed = parse_logon_event(&failure_event("ro\u{1b}[31mot", "203.0.113.7", 3))
        .expect("a record");
    assert!(!parsed
        .event
        .user
        .as_deref()
        .unwrap_or_default()
        .contains('\u{1b}'));
    assert!(!parsed.event.message.contains('\u{1b}'));
    assert!(!parsed.event.suspicious.is_empty());
}

#[test]
fn field_values_are_bounded_in_characters_not_bytes() {
    // A long name ending in a multi-byte character: byte-slicing would
    // panic on the boundary.
    let name = format!("{}é", "a".repeat(MAX_FIELD_CHARS));
    let parsed = parse_logon_event(&failure_event(&name, "203.0.113.7", 3)).expect("a record");
    assert!(
        parsed
            .event
            .user
            .as_deref()
            .unwrap_or_default()
            .chars()
            .count()
            <= MAX_FIELD_CHARS
    );
}

#[test]
fn an_absurdly_long_event_is_refused_outright() {
    let huge = failure_event(&"x".repeat(MAX_EVENT_BYTES), "10.0.0.1", 3);
    assert!(parse_logon_event(&huge).is_none());
}

#[test]
fn a_non_address_in_the_address_field_yields_no_address() {
    let parsed =
        parse_logon_event(&failure_event("bob", "not-an-address", 3)).expect("a record");
    assert!(
        parsed.event.source_address.is_none(),
        "a claim is not an address"
    );
    assert!(parsed
        .event
        .suspicious
        .iter()
        .any(|note| note.contains("not an address")));
}

/// Console logons legitimately have no address. Flagging those would train
/// an operator to ignore the flag.
#[test]
fn a_console_logon_without_an_address_is_not_suspicious() {
    for placeholder in ["-", "LOCAL", "127.0.0.1", "::1"] {
        let parsed =
            parse_logon_event(&failure_event("bob", placeholder, 2)).expect("a record");
        assert!(
            parsed.event.suspicious.is_empty(),
            "{placeholder:?} produced {:?}",
            parsed.event.suspicious
        );
    }
}

#[test]
fn an_unterminated_field_is_not_a_value() {
    let xml = r#"<Event><System><EventID>4625</EventID></System>
        <EventData><Data Name="TargetUserName">bob"#;
    let parsed = parse_logon_event(xml).expect("a record");
    assert!(
        parsed.event.user.is_none(),
        "guessing where an unterminated field ended is guessing"
    );
}

#[test]
fn logon_types_map_and_remote_ones_are_distinguished() {
    assert_eq!(LogonType::from_code(2), LogonType::Interactive);
    assert_eq!(LogonType::from_code(10), LogonType::RemoteInteractive);
    assert_eq!(LogonType::from_code(99), LogonType::Other(99));

    assert!(LogonType::from_code(3).is_remote());
    assert!(LogonType::from_code(10).is_remote());
    assert!(
        !LogonType::from_code(5).is_remote(),
        "a service logon failure is a stale password, not somebody at the door"
    );
    assert!(!LogonType::from_code(2).is_remote());
}

#[test]
fn evtx_arbitrary_input_never_panics() {
    let inputs = [
        "",
        "<",
        "<Event",
        "<EventID></EventID>",
        "<EventID>4625</EventID>",
        "<Data Name=\"TargetUserName\">",
        &"<Data Name=\"a\">b</Data>".repeat(1_000),
        &"&amp;".repeat(10_000),
    ];
    for input in inputs {
        let _ = parse_logon_event(input);
        let _ = event_id(input);
    }
}
