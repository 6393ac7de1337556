use cybersentinel::address::append_endpoint;
use cybersentinel::hids::event::ProcessChange;
use cybersentinel::hids::process::{
    snapshot, FdLinks, ProcEntry, ProcessFiles, ScanLimits, Snapshot, SweepOutcome, Watcher,
};
use cybersentinel::hids::procfs::{parse_net_table, parse_stat};
use cybersentinel::net::{Endpoint, IpAddr};

/// A `/proc`, as a sweep finds it.
struct FakeProc {
    processes: Vec<(u32, String, String)>,
    tcp: Option<String>,
    links: Vec<FdLinks>,
}

impl FakeProc {
    fn new() -> Self {
        Self {
            processes: Vec::new(),
            tcp: None,
            links: Vec::new(),
        }
    }

    /// Lay down a fake `/proc/<pid>` with the fields the reader needs.
    fn process(&mut self, pid: u32, name: &str, ppid: u32, start: u64, cmdline: &str) {
        let mut stat = format!("{pid} ({name}) S {ppid}");
        // pgrp, session, tty, tpgid, flags, fault and time counters, up to
        // starttime at index 19 of the post-`)` remainder.
        for _ in 2..19 {
            stat.push_str(" 0");
        }
        stat.push_str(&format!(" {start} 0 0"));
        self.processes
            .push((pid, stat, cmdline.replace(' ', "\0")));
    }

    fn remove(&mut self, pid: u32) {
        self.processes.retain(|process| process.0 != pid);
    }

    fn table(&mut self, text: &str) {
        self.tcp = Some(text.to_string());
    }

    fn sweep(&self, watcher: &mut Watcher) -> SweepOutcome {
        let entries = self
            .processes
            .iter()
            .map(|(pid, stat, cmdline)| ProcEntry {
                name: pid.to_string(),
                files: ProcessFiles {
                    stat: Some(stat.clone()),
                    executable: None,
                    command_line: Some(cmdline.clone().into_bytes()),
                    status: Some("Name:\tx\nUid:\t1000\t1000\t1000\t1000\n".to_string()),
                },
            })
            .collect();
        let seen = snapshot(Some(entries), self.tcp.as_deref(), None, watcher.limits());
        watcher.sweep(&seen, &self.links)
    }
}

fn watcher_of(proc_root: &str) -> Watcher {
    Watcher::new(proc_root.to_string(), ScanLimits::default())
}

fn endpoint_text(endpoint: Endpoint) -> String {
    let mut text = String::new();
    append_endpoint(&mut text, endpoint);
    text
}

#[test]
fn parses_a_stat_line() {
    let (name, ppid, start) =
        parse_stat("42 (nginx) S 1 42 42 0 -1 0 0 0 0 0 0 0 0 0 20 0 1 0 987654 0 0")
            .expect("parsed");
    assert_eq!(name, "nginx");
    assert_eq!(ppid, Some(1));
    assert_eq!(start, 987_654);
}

/// A process can name itself anything, including something that looks like
/// the rest of the line. Locating fields from the last `)` is what stops a
/// process from misreporting its own parent.
#[test]
fn a_process_cannot_forge_its_parent_through_its_name() {
    let honest = "42 (nginx) S 1 42 42 0 -1 0 0 0 0 0 0 0 0 0 20 0 1 0 500 0 0";
    let lying =
        "42 (evil) S 9999 0 0 0 0 0 0 0) S 1 42 42 0 -1 0 0 0 0 0 0 0 0 0 20 0 1 0 500 0 0";

    let (_, honest_ppid, _) = parse_stat(honest).expect("parsed");
    let (name, lying_ppid, start) = parse_stat(lying).expect("parsed");

    assert_eq!(honest_ppid, Some(1));
    assert_eq!(
        name, "evil) S 9999 0 0 0 0 0 0 0",
        "everything up to the last paren is the name, not a field"
    );
    assert_eq!(lying_ppid, Some(1), "the real ppid, not the embedded 9999");
    assert_eq!(start, 500);
}

#[test]
fn control_characters_in_a_process_name_are_stripped() {
    let (name, _, _) =
        parse_stat("1 (ni\u{1b}[31mgx) S 1 0 0 0 0 0 0 0 0 0 0 0 0 0 0 0 0 0 0 7 0 0")
            .expect("parsed");
    assert!(!name.contains('\u{1b}'));
}

#[test]
fn malformed_stat_lines_are_refused_not_fatal() {
    for line in ["", "1", "1 (x", "1 x) S 1", "1 (x) S", "()", ")("] {
        let _ = parse_stat(line);
    }
    assert!(
        parse_stat("1 (x) S 1").is_none(),
        "no starttime, no identity"
    );
}

#[test]
fn parses_a_listening_tcp_entry() {
    let table = "  sl  local_address rem_address   st tx_queue rx_queue tr tm->when retrnsmt   uid  timeout inode\n   \
                 0: 0100007F:1F90 00000000:0000 0A 00000000:00000000 00:00000000 00000000  1000    0 45678 1 0000 100 0\n   \
                 1: 0100007F:0016 0200007F:C1B4 01 00000000:00000000 00:00000000 00000000     0    0 45679 1 0000 100 0\n";
    let sockets = parse_net_table(table, false);
    assert_eq!(sockets.len(), 1, "only LISTEN entries");
    assert_eq!(endpoint_text(sockets[0].address), "127.0.0.1:8080");
    assert_eq!(sockets[0].inode, 45_678);
}

#[test]
fn parses_a_listening_tcp6_entry() {
    let table = "  sl  local_address remote_address st\n   \
                 0: 00000000000000000000000000000000:115C 00000000000000000000000000000000:0000 0A 00000000:00000000 00:00000000 00000000 0 0 90210 1 0 100 0\n";
    let sockets = parse_net_table(table, true);
    assert_eq!(sockets.len(), 1);
    assert_eq!(sockets[0].address.1, 4_444);
    assert_eq!(sockets[0].address.0, IpAddr::V6(0));
}

#[test]
fn garbage_net_tables_yield_nothing_rather_than_panicking() {
    for table in ["", "header only", "x y z\n:::: 0A", "0: ZZZZ:ZZ x 0A", "0:"] {
        assert!(parse_net_table(table, false).is_empty());
        assert!(parse_net_table(table, true).is_empty());
    }
}

// -----------------------------------------------------------------------
// sweeps
// -----------------------------------------------------------------------

#[test]
fn the_first_sweep_establishes_and_reports_nothing() {
    let mut host = FakeProc::new();
    host.process(1, "systemd", 0, 10, "/sbin/init");
    host.process(2, "sshd", 1, 20, "/usr/sbin/sshd -D");

    let mut watcher = watcher_of("/proc");
    assert!(
        host.sweep(&mut watcher).events.is_empty(),
        "everything already running at startup is not a detection"
    );
}

#[test]
fn a_new_process_is_reported() {
    let mut host = FakeProc::new();
    host.process(1, "systemd", 0, 10, "/sbin/init");
    let mut watcher = watcher_of("/proc");
    host.sweep(&mut watcher);

    host.process(1337, "nc", 1, 99, "nc -lvnp 4444 -e /bin/sh");
    let outcome = host.sweep(&mut watcher);

    assert_eq!(outcome.events.len(), 1);
    let event = &outcome.events[0];
    assert_eq!(event.change, ProcessChange::Started);
    assert_eq!(event.pid, 1_337);
    assert_eq!(event.name, "nc");
    assert_eq!(
        event.command_line.as_deref(),
        Some("nc -lvnp 4444 -e /bin/sh")
    );
    assert_eq!(event.uid, Some(1_000));
    assert_eq!(event.parent_pid, Some(1));
}

#[test]
fn an_unchanged_process_list_produces_nothing() {
    let mut host = FakeProc::new();
    host.process(1, "systemd", 0, 10, "/sbin/init");
    let mut watcher = watcher_of("/proc");
    host.sweep(&mut watcher);
    for _ in 0..3 {
        assert!(host.sweep(&mut watcher).events.is_empty());
    }
}

/// pids are recycled. Identity is `(pid, start-time)` so the reuse reads as
/// a new process rather than as the old one quietly continuing.
#[test]
fn a_recycled_pid_is_a_new_process() {
    let mut host = FakeProc::new();
    host.process(500, "sleep", 1, 100, "sleep 1");
    let mut watcher = watcher_of("/proc");
    host.sweep(&mut watcher);

    host.remove(500);
    host.process(500, "bash", 1, 200, "bash -i");
    let outcome = host.sweep(&mut watcher);

    assert_eq!(outcome.events.len(), 1);
    assert_eq!(outcome.events[0].name, "bash");
}

#[test]
fn a_new_listening_socket_is_reported() {
    let mut host = FakeProc::new();
    host.process(1, "systemd", 0, 10, "/sbin/init");
    host.table("  sl  local_address\n");

    let mut watcher = watcher_of("/proc");
    host.sweep(&mut watcher);

    host.table(
        "  sl  local_address rem_address st\n   \
         0: 00000000:115C 00000000:0000 0A 00000000:00000000 00:00000000 00000000 0 0 4242 1 0 100 0\n",
    );
    let outcome = host.sweep(&mut watcher);

    assert_eq!(outcome.events.len(), 1);
    let event = &outcome.events[0];
    assert_eq!(event.change, ProcessChange::Listening);
    assert_eq!(
        event.command_line.as_deref(),
        Some("listening on 0.0.0.0:4444")
    );
}

#[test]
fn a_socket_that_was_already_listening_is_not_reported_again() {
    let mut host = FakeProc::new();
    host.table(
        "  sl  local_address rem_address st\n   \
         0: 00000000:0016 00000000:0000 0A 0 0 0 0 0 7 1 0 100 0\n",
    );
    let mut watcher = watcher_of("/proc");
    host.sweep(&mut watcher);
    assert!(
        host.sweep(&mut watcher).events.is_empty(),
        "sshd already listening is not a finding every sweep"
    );
}

#[test]
fn a_listening_socket_is_attributed_to_its_process_when_fd_is_readable() {
    let mut host = FakeProc::new();
    host.process(77, "backdoor", 1, 5, "./backdoor");
    host.table("  sl\n");
    let mut watcher = watcher_of("/proc");
    host.sweep(&mut watcher);

    host.links.push(FdLinks {
        pid: 77,
        targets: vec!["socket:[4242]".to_string()],
    });
    host.table(
        "  sl  local_address rem_address st\n   \
         0: 00000000:115C 00000000:0000 0A 0 0 0 0 0 4242 1 0 100 0\n",
    );

    let outcome = host.sweep(&mut watcher);
    assert_eq!(outcome.events.len(), 1);
    assert_eq!(outcome.events[0].name, "backdoor");
    assert_eq!(outcome.events[0].pid, 77);
}

#[test]
fn an_unattributable_socket_is_still_reported() {
    let mut host = FakeProc::new();
    host.table("  sl\n");
    let mut watcher = watcher_of("/proc");
    host.sweep(&mut watcher);
    host.table(
        "  sl  local_address rem_address st\n   \
         0: 00000000:115C 00000000:0000 0A 0 0 0 0 0 999999 1 0 100 0\n",
    );

    let outcome = host.sweep(&mut watcher);
    assert_eq!(outcome.events.len(), 1);
    assert_eq!(
        outcome.events[0].name, "unknown",
        "not knowing the owner is no reason to hide the socket"
    );
}

#[test]
fn the_process_limit_is_enforced_and_counted() {
    let mut host = FakeProc::new();
    for pid in 1..=20 {
        host.process(pid, "x", 1, u64::from(pid), "x");
    }
    let mut watcher = Watcher::new(
        "/proc".to_string(),
        ScanLimits {
            max_processes: 5,
            ..ScanLimits::default()
        },
    );
    assert!(
        host.sweep(&mut watcher).truncated > 0,
        "a fork bomb must not be unbounded"
    );
}

#[test]
fn a_missing_proc_tree_is_survivable() {
    let mut watcher = watcher_of("/nonexistent/proc");
    let seen = snapshot(None, None, None, watcher.limits());
    assert!(watcher.sweep(&seen, &[]).events.is_empty());
}

#[test]
fn a_watcher_keeps_its_tree_and_its_bounds() {
    let limits = ScanLimits {
        max_processes: 7,
        max_sockets: 9,
    };
    let mut watcher = Watcher::new("/mnt/proc".to_string(), limits);
    let seen = snapshot(None, None, None, watcher.limits());
    watcher.sweep(&seen, &[]);
    assert_eq!(watcher.proc_root(), "/mnt/proc");
    assert_eq!(watcher.limits().max_processes, 7);
    assert_eq!(watcher.limits().max_sockets, 9);
}

#[test]
fn only_the_files_of_processes_in_the_bound_are_looked_at() {
    let limits = ScanLimits {
        max_processes: 1,
        ..ScanLimits::default()
    };
    let mut seen = Snapshot::default();
    assert!(!seen.reads("self", limits));
    assert!(seen.reads("1", limits));
    let mut stat = "1 (init) S 0".to_string();
    stat.push_str(&" 0".repeat(17));
    stat.push_str(" 77 0 0");
    seen.add_entry(
        ProcEntry {
            name: "1".to_string(),
            files: ProcessFiles {
                stat: Some(stat),
                executable: None,
                command_line: None,
                status: None,
            },
        },
        limits,
    );
    assert_eq!(seen.processes.len(), 1);
    assert!(!seen.reads("2", limits));
    seen.add_entry(
        ProcEntry {
            name: "2".to_string(),
            files: ProcessFiles {
                stat: None,
                executable: None,
                command_line: None,
                status: None,
            },
        },
        limits,
    );
    assert_eq!(seen.processes.len(), 1);
    assert_eq!(seen.truncated, 1);
    assert_eq!(seen.unreadable, 0);
}
