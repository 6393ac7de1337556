use cybersentinel::hids::event::{AuthEvent, AuthOutcome};
use cybersentinel::hids::logs::{
    parse_auth_message, parse_journal_record, parse_syslog_line, MAX_LINE, MAX_MESSAGE,
};
use cybersentinel::hids::tailer::{FileSeen, Tailer};

fn syslog(line: &str) -> Option<AuthEvent> {
    parse_syslog_line(line, "file:/var/log/auth.log").map(|parsed| parsed.event)
}

#[test]
fn parses_a_failed_password() {
    let event = syslog(
        "Jan  2 03:04:05 web01 sshd[1234]: Failed password for invalid user admin from 203.0.113.7 port 51000 ssh2",
    )
    .expect("a record");
    assert_eq!(event.outcome, AuthOutcome::Failure);
    assert_eq!(event.user.as_deref(), Some("admin"));
    assert_eq!(event.service.as_deref(), Some("sshd"));
    assert_eq!(
        event.source_address.map(|a| a.to_text()).as_deref(),
        Some("203.0.113.7")
    );
    assert_eq!(event.source_port, Some(51_000));
    assert!(event.suspicious.is_empty());
}

#[test]
fn parses_a_successful_login() {
    let event = syslog(
        "Jan  2 03:04:05 web01 sshd[1234]: Accepted password for deploy from 10.0.0.5 port 4022 ssh2",
    )
    .expect("a record");
    assert_eq!(event.outcome, AuthOutcome::Success);
    assert_eq!(event.user.as_deref(), Some("deploy"));
}

#[test]
fn a_line_that_is_not_about_authentication_is_not_a_record() {
    // Inventing an auth event from an unrelated line would be worse than
    // ignoring it.
    assert!(
        syslog("Jan  2 03:04:05 web01 cron[9]: pam_unix(cron:session): starting").is_none()
    );
    assert!(syslog("Jan  2 03:04:05 web01 kernel: eth0 link up").is_none());
}

#[test]
fn a_line_without_a_syslog_shape_is_ignored() {
    assert!(syslog("Failed password for root from 10.0.0.1").is_none());
    assert!(syslog("").is_none());
    assert!(syslog("short line").is_none());
}

// -----------------------------------------------------------------------
// log injection
// -----------------------------------------------------------------------

/// The headline adversarial case: somebody logs in with a username chosen
/// to forge the rest of the record.
#[test]
fn a_username_cannot_fabricate_a_source_address() {
    let event = syslog(
        "Jan  2 03:04:05 web01 sshd[1234]: Failed password for invalid user attacker from 198.51.100.1 port 22 ssh2",
    )
    .expect("a record");
    // The real source is the one the daemon reported, not one embedded in
    // the account name.
    assert_eq!(event.user.as_deref(), Some("attacker"));
    assert_eq!(
        event.source_address.map(|a| a.to_text()).as_deref(),
        Some("198.51.100.1")
    );
}

#[test]
fn a_username_containing_spaces_is_flagged_not_believed() {
    // `user` followed by a token containing a fabricated field. Only one
    // token is ever taken, so the fabrication lands nowhere.
    let event = syslog(
        "Jan  2 03:04:05 web01 sshd[1234]: Failed password for invalid user root@evil from 203.0.113.7 port 1 ssh2",
    )
    .expect("a record");
    assert_eq!(event.user.as_deref(), Some("root@evil"));
    assert_eq!(
        event.source_address.map(|a| a.to_text()).as_deref(),
        Some("203.0.113.7")
    );
}

#[test]
fn a_username_with_control_characters_is_sanitised_and_flagged() {
    let line =
        "Jan  2 03:04:05 web01 sshd[1234]: Failed password for user ro\u{1b}[31mot from 10.0.0.1 port 1 ssh2";
    let event = syslog(line).expect("a record");
    assert!(
        !event.user.as_deref().unwrap_or_default().contains('\u{1b}'),
        "an escape sequence must not survive into an event"
    );
    assert!(!event.suspicious.is_empty(), "and it must be flagged");
}

#[test]
fn escape_sequences_are_stripped_from_the_message() {
    // Event logs get cat-ed into terminals.
    let line = "Jan  2 03:04:05 web01 sshd[1]: Failed password for user bob from 10.0.0.1 port 1 \u{1b}]0;pwned\u{7}";
    let event = syslog(line).expect("a record");
    assert!(!event.message.contains('\u{1b}'));
    assert!(!event.suspicious.is_empty());
}

/// Byte-slicing an attacker-chosen string is a crash waiting to happen. A
/// username that is exactly long enough and ends in a multi-byte character
/// used to be all it took.
#[test]
fn a_multibyte_username_does_not_split_a_character() {
    let name = format!("{}é", "a".repeat(31));
    let line = format!(
        "Jan  2 03:04:05 web01 sshd[1]: Failed password for user {name} from 10.0.0.1 port 1"
    );
    let event = syslog(&line).expect("a record");
    assert!(!event.suspicious.is_empty());
}

#[test]
fn a_made_up_source_token_yields_no_address() {
    let event = syslog(
        "Jan  2 03:04:05 web01 sshd[1]: Failed password for user bob from not-an-address port 1 ssh2",
    )
    .expect("a record");
    assert!(event.source_address.is_none(), "a claim is not an address");
    assert!(event
        .suspicious
        .iter()
        .any(|s| s.contains("not an address")));
}

#[test]
fn field_lengths_are_bounded() {
    let huge = "A".repeat(1_000);
    let line = format!(
        "Jan  2 03:04:05 web01 sshd[1]: Failed password for user {huge} from 10.0.0.1 port 1"
    );
    let event = syslog(&line).expect("a record");
    assert!(event.user.as_deref().unwrap_or_default().len() <= 64);
    assert!(event.message.len() <= MAX_MESSAGE);
}

#[test]
fn an_absurdly_long_line_is_refused_outright() {
    let line = format!(
        "Jan  2 03:04:05 web01 sshd[1]: Failed password for user bob {}",
        "x".repeat(MAX_LINE)
    );
    assert!(syslog(&line).is_none());
}

// -----------------------------------------------------------------------
// journald
// -----------------------------------------------------------------------

#[test]
fn parses_a_journal_record() {
    let json = r#"{"MESSAGE":"Failed password for invalid user admin from 203.0.113.7 port 1 ssh2","SYSLOG_IDENTIFIER":"sshd","_PID":"1234"}"#;
    let parsed = parse_journal_record(json, "journald").expect("a record");
    assert_eq!(parsed.event.outcome, AuthOutcome::Failure);
    assert_eq!(parsed.event.service.as_deref(), Some("sshd"));
    assert_eq!(parsed.event.log_source, "journald");
}

#[test]
fn a_journal_message_cannot_claim_a_different_service() {
    // The identifier is a structured field. This is why journald is first.
    let json = r#"{"MESSAGE":"Failed password for user root from 10.0.0.1 port 1","SYSLOG_IDENTIFIER":"myapp"}"#;
    let parsed = parse_journal_record(json, "journald").expect("a record");
    assert_eq!(
        parsed.event.service.as_deref(),
        Some("myapp"),
        "the service comes from the field, not the text"
    );
}

#[test]
fn a_binary_journal_field_is_still_read() {
    // journald encodes non-UTF-8 fields as byte arrays. Ignoring those
    // would let a record hide behind one stray byte.
    let json = r#"{"MESSAGE":[70,97,105,108,101,100,32,112,97,115,115,119,111,114,100,32,102,111,114,32,117,115,101,114,32,98,111,98],"SYSLOG_IDENTIFIER":"sshd"}"#;
    let parsed = parse_journal_record(json, "journald").expect("a record");
    assert_eq!(parsed.event.user.as_deref(), Some("bob"));
}

#[test]
fn malformed_journal_input_is_ignored_not_fatal() {
    for json in [
        "",
        "{",
        "null",
        "[]",
        r#"{"MESSAGE":42}"#,
        r#"{"other":"x"}"#,
    ] {
        assert!(parse_journal_record(json, "journald").is_none(), "{json}");
    }
}

// -----------------------------------------------------------------------
// tailing
// -----------------------------------------------------------------------

/// A log file, as far as a tailer can tell: what it holds and which file it is.
struct LogFile {
    bytes: Vec<u8>,
    inode: u64,
}

impl LogFile {
    fn new(inode: u64) -> Self {
        Self {
            bytes: Vec::new(),
            inode,
        }
    }

    fn append(&mut self, text: &str) {
        self.bytes.extend_from_slice(text.as_bytes());
    }

    fn seen(&self) -> FileSeen {
        FileSeen {
            len: self.bytes.len() as u64,
            identity: Some((1, self.inode)),
        }
    }

    fn read_new_lines(&self, tailer: &mut Tailer) -> Vec<String> {
        match tailer.look(self.seen()) {
            None => Vec::new(),
            Some(plan) => {
                let start = plan.offset as usize;
                let end = (start + plan.want).min(self.bytes.len());
                tailer.take(&self.bytes[start..end])
            }
        }
    }
}

#[test]
fn a_tailer_reads_only_what_was_appended() {
    let mut log = LogFile::new(1);
    log.append("first\n");

    let mut tailer = Tailer::new("auth.log".to_string(), Some(log.seen()));
    assert!(
        log.read_new_lines(&mut tailer).is_empty(),
        "history is not news"
    );

    log.append("second\nthird\n");
    assert_eq!(log.read_new_lines(&mut tailer), ["second", "third"]);
    assert!(log.read_new_lines(&mut tailer).is_empty());
}

#[test]
fn a_record_split_across_two_reads_is_not_two_records() {
    let mut log = LogFile::new(1);
    let mut tailer = Tailer::from_start("auth.log".to_string(), None);

    log.append("Failed password for ");
    assert!(log.read_new_lines(&mut tailer).is_empty());
    log.append("user bob\n");
    assert_eq!(
        log.read_new_lines(&mut tailer),
        ["Failed password for user bob"]
    );
}

#[test]
fn rotation_resumes_from_the_start_of_the_new_file() {
    let mut log = LogFile::new(1);
    log.append("old line one\nold line two\n");

    let mut tailer = Tailer::new("auth.log".to_string(), Some(log.seen()));
    let mut rotated = LogFile::new(2);
    rotated.append("after rotation\n");

    assert_eq!(rotated.read_new_lines(&mut tailer), ["after rotation"]);
    assert_eq!(tailer.rotations, 1);
}

#[test]
fn truncation_in_place_is_also_a_rotation() {
    let mut log = LogFile::new(1);
    log.append("a long first line\n");
    let mut tailer = Tailer::new("auth.log".to_string(), Some(log.seen()));

    log.bytes.clear();
    log.append("short\n");
    assert_eq!(log.read_new_lines(&mut tailer), ["short"]);
}

/// A file that is not there has nothing to look at, and following it starts at its
/// beginning once it is.
#[test]
fn a_log_file_that_does_not_exist_is_not_an_error() {
    let mut tailer = Tailer::new("never-created.log".to_string(), None);
    assert_eq!(tailer.pending_bytes(), 0);
    assert_eq!(tailer.path(), "never-created.log");

    let mut log = LogFile::new(1);
    assert!(log.read_new_lines(&mut tailer).is_empty());
    log.append("at last\n");
    assert_eq!(log.read_new_lines(&mut tailer), ["at last"]);
    assert_eq!(tailer.rotations, 1, "a file that was not there before is a new one");
}

/// An appender that never writes a newline must not grow the sensor without
/// bound: that is a memory exhaustion an attacker can trigger from a login
/// prompt.
#[test]
fn an_endless_line_is_dropped_rather_than_buffered_forever() {
    let mut log = LogFile::new(1);
    let mut tailer = Tailer::from_start("auth.log".to_string(), None);

    for _ in 0..8 {
        log.append(&"x".repeat(4_096));
        log.read_new_lines(&mut tailer);
    }
    assert!(tailer.oversized > 0);
    assert!(tailer.pending_bytes() <= MAX_LINE);
}

#[test]
fn an_incomplete_character_at_the_end_of_a_read_is_replaced() {
    let mut tailer = Tailer::from_start("auth.log".to_string(), None);
    assert!(tailer.take(&[b'a', 0xc3]).is_empty());
    assert_eq!(tailer.take(b"b\n"), ["a\u{fffd}b"]);
}

#[test]
fn a_carriage_return_belongs_to_the_line_end() {
    let mut tailer = Tailer::from_start("auth.log".to_string(), None);
    assert_eq!(tailer.take_text("one\r\ntwo\n"), ["one", "two"]);
}

#[test]
fn logs_arbitrary_input_never_panics() {
    let inputs = [
        "",
        "\u{0}\u{0}\u{0}",
        "Jan",
        "Jan  2 03:04:05 h s: ",
        &"a ".repeat(10_000),
        "Jan  2 03:04:05 web01 sshd[1]: Failed password for user",
        "Jan  2 03:04:05 web01 sshd[1]: Failed password for user  from",
    ];
    for input in inputs {
        let _ = parse_syslog_line(input, "test");
        let _ = parse_journal_record(input, "test");
        let _ = parse_auth_message(input, None, "test");
    }
}

/// Somebody may log in under a name that reads like a source.
#[test]
fn a_username_that_reads_like_a_source_does_not_choose_it() {
    let event = syslog(
        "Jan  2 03:04:05 web01 sshd[1]: Failed password for invalid user admin from 10.0.0.1 port 22 from 203.0.113.7 port 51000 ssh2",
    )
    .expect("a record");
    assert_eq!(event.user.as_deref(), Some("admin"));
    assert_eq!(
        event.source_address.map(|a| a.to_text()).as_deref(),
        Some("203.0.113.7")
    );
    assert_eq!(event.source_port, Some(51_000));
}

#[test]
fn a_later_from_without_an_address_takes_no_source_away() {
    let event = syslog(
        "Jan  2 03:04:05 web01 sshd[1]: Failed password for root from 10.0.0.5 port 4022 ssh2 from tty1",
    )
    .expect("a record");
    assert_eq!(
        event.source_address.map(|a| a.to_text()).as_deref(),
        Some("10.0.0.5")
    );
    assert_eq!(event.source_port, Some(4_022));
    assert!(event.suspicious.is_empty());

    let nowhere = syslog(
        "Jan  2 03:04:05 web01 sshd[1]: Failed password for root from somewhere from tty1",
    )
    .expect("a record");
    assert_eq!(nowhere.source_address, None);
    assert_eq!(
        nowhere.suspicious,
        ["source token \"somewhere\" is not an address"]
    );

    let cut = syslog("Jan  2 03:04:05 web01 sshd[1]: Failed password for root from")
        .expect("a record");
    assert_eq!(cut.source_address, None);
    assert!(cut.suspicious.is_empty());
}

#[test]
fn a_cleaned_value_never_takes_more_bytes_than_its_limit() {
    let line = format!(
        "Jan  2 03:04:05 web01 sshd[1]: Failed password for user {} from 10.0.0.1 port 1",
        "é!".repeat(60)
    );
    let event = syslog(&line).expect("a record");
    let user = event.user.expect("a user");
    assert!(user.len() <= 64);
    assert_eq!(user, "é!".repeat(21));
    assert!(!event.suspicious.is_empty());
}

#[test]
fn the_rest_of_a_dropped_line_is_not_a_line() {
    let mut tailer = Tailer::from_start("auth.log".to_string(), None);
    assert!(tailer.take_text(&"x".repeat(MAX_LINE + 1)).is_empty());
    assert!(tailer.take_text(&"y".repeat(MAX_LINE)).is_empty());
    assert_eq!(tailer.oversized, 1);
    assert_eq!(tailer.pending_bytes(), 0);
    // The line ends here; what follows is whole again.
    assert_eq!(tailer.take_text("tail\nwhole\n"), ["whole"]);
    assert_eq!(tailer.oversized, 1);
}

#[test]
fn how_a_log_is_cut_into_reads_does_not_matter() {
    let text = format!("one\n\ntwo\r\n{}\nthree", "z".repeat(MAX_LINE + 5));
    let mut whole = Tailer::from_start("auth.log".to_string(), None);
    let expected = whole.take_text(&text);
    assert_eq!(expected, ["one", "", "two"]);
    for at in [0, 1, 3, 4, 5, 6, 8, 10, 11, 100, MAX_LINE + 10, text.len()] {
        if text.as_bytes().get(at) == Some(&b'\n') && at > 0 && text.as_bytes()[at - 1] == b'\r' {
            continue;
        }
        let mut cut = Tailer::from_start("auth.log".to_string(), None);
        let mut lines = cut.take_text(&text[..at]);
        lines.extend(cut.take_text(&text[at..]));
        assert_eq!(lines, expected, "cut at {at}");
        assert_eq!(cut.oversized, whole.oversized);
        assert_eq!(cut.pending_bytes(), whole.pending_bytes());
    }
}
