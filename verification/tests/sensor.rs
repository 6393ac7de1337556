use std::collections::BTreeMap;

use cybersentinel::hids::baseline::{Baseline, FileRecord};
use cybersentinel::hids::digest::FileHasher;
use cybersentinel::hids::event::{FileChange, FimDetection};
use cybersentinel::hids::fim::{
    is_hashed, resolve_roots, FimSettings, Inspected, RescanOutcome, WalkedFile,
};
use cybersentinel::hids::names;
use cybersentinel::hids::process::{
    snapshot, ProcEntry, ProcessFiles, ScanLimits, Watcher,
};
use cybersentinel::hids::sensor::{
    FimCounters, FimUpdate, FimWorker, HostBatch, HostSensor, HostSettings, Notification, Polled,
    Walked, MAX_LOG_LINES_PER_POLL,
};
use cybersentinel::hids::sources::{SourceState, SourceStatus};
use cybersentinel::hids::walk::{EntryKind, WalkLimits, Walker};
use cybersentinel::hids::HostError;
use cybersentinel::time::{Duration, Timestamp};

/// A file tree in memory.
#[derive(Default)]
struct Tree {
    files: BTreeMap<String, (String, u32)>,
    links: Vec<String>,
    directories: Vec<String>,
}

impl Tree {
    fn write(&mut self, path: &str, contents: &str) {
        let mode = self.files.get(path).map_or(0o644, |file| file.1);
        self.files
            .insert(path.to_string(), (contents.to_string(), mode));
    }

    fn all(&self) -> Vec<String> {
        let mut all: Vec<String> = self.files.keys().cloned().collect();
        all.extend(self.links.iter().cloned());
        all.extend(self.directories.iter().cloned());
        all
    }

    fn kind(&self, path: &str) -> EntryKind {
        let inside = format!("{path}/");
        if self.links.iter().any(|link| link == path) {
            EntryKind::Symlink
        } else if self.files.contains_key(path) {
            EntryKind::File
        } else if self.directories.iter().any(|directory| directory == path)
            || self.all().iter().any(|other| other.starts_with(&inside))
        {
            EntryKind::Directory
        } else {
            EntryKind::Unreadable
        }
    }

    fn entries(&self, path: &str) -> Vec<Option<String>> {
        let inside = format!("{path}/");
        let mut names: Vec<String> = self
            .all()
            .iter()
            .filter_map(|other| other.strip_prefix(&inside))
            .map(|rest| rest.split('/').next().unwrap_or(rest).to_string())
            .collect();
        names.sort();
        names.dedup();
        names
            .into_iter()
            .map(|name| Some(format!("{inside}{name}")))
            .collect()
    }

    fn walk(&self, settings: &FimSettings) -> (Vec<String>, WalkLimits) {
        let mut walker = Walker::new(&settings.paths, settings.max_depth, settings.max_entries);
        while let Some(path) = walker.next_path() {
            if walker.visit(self.kind(&path)) {
                walker.list(Some(self.entries(&path)));
            }
        }
        walker.finish()
    }

    fn inspect(&self, path: &str, settings: &FimSettings) -> Inspected {
        match self.files.get(path) {
            None => Inspected::NotAFile,
            Some((contents, mode)) => {
                let size = contents.len() as u64;
                let sha256 = if is_hashed(size, settings.max_file_bytes) {
                    let mut hasher = FileHasher::new();
                    hasher.update(contents.as_bytes());
                    Some(hasher.finish())
                } else {
                    None
                };
                Inspected::File(FileRecord {
                    sha256,
                    size,
                    mode: *mode,
                    uid: 1_000,
                    gid: 1_000,
                })
            }
        }
    }

    fn inspected(&self, paths: &[String], settings: &FimSettings) -> Vec<WalkedFile> {
        paths
            .iter()
            .map(|path| WalkedFile {
                path: path.clone(),
                found: self.inspect(path, settings),
            })
            .collect()
    }
}

fn settings(root: &str) -> FimSettings {
    FimSettings {
        paths: vec![root.to_string()],
        ..FimSettings::default()
    }
}

/// A worker over an in-memory tree, as the thread that owns one drives it.
struct Driven {
    worker: FimWorker,
    settings: FimSettings,
}

impl Driven {
    fn start(tree: &Tree, settings: FimSettings, baseline: Baseline) -> Self {
        let resolved = vec![None; settings.paths.len()];
        let mut worker = FimWorker::start(settings.clone(), &resolved, baseline);
        for path in &settings.paths {
            let there = !matches!(tree.kind(path), EntryKind::Unreadable);
            worker.note_watch(there);
        }
        Self { worker, settings }
    }

    fn tick(&mut self, tree: &Tree, now: Timestamp) -> FimUpdate {
        if self.worker.needs_rescan(now) {
            let (paths, limits) = tree.walk(&self.settings);
            let walked = Walked {
                files: tree.inspected(&paths, &self.settings),
                limits,
                abandoned: false,
            };
            self.worker.tick(now, Vec::new(), Some(&walked))
        } else {
            self.worker.tick(now, Vec::new(), None)
        }
    }

    fn stored(&self) -> Baseline {
        let held = self.worker.monitor().baseline();
        let mut copy = Baseline::new();
        for index in 0..held.len() {
            let (path, record) = held.entry(index);
            copy.put(path, record);
        }
        copy
    }
}

fn at(seconds: u64) -> Timestamp {
    Timestamp::from_secs(seconds)
}

fn started(settings: &HostSettings) -> HostSensor {
    HostSensor::start(settings, "linux", at(0))
}

fn status(sensor: &HostSensor, name: &str) -> SourceStatus {
    sensor
        .stats()
        .sources
        .into_iter()
        .find(|source| source.name == name)
        .expect("listed")
}

fn entry(pid: u32, name: &str) -> ProcEntry {
    ProcEntry {
        name: pid.to_string(),
        files: ProcessFiles {
            stat: Some(format!(
                "{pid} ({name}) S 0 0 0 0 0 0 0 0 0 0 0 0 0 0 0 0 0 0 0 5 0 0"
            )),
            executable: None,
            command_line: None,
            status: None,
        },
    }
}

fn watcher() -> Watcher {
    Watcher::new("/proc".to_string(), ScanLimits::default())
}

fn sweep(
    sensor: &mut HostSensor,
    watcher: &mut Watcher,
    now: Timestamp,
    processes: &[(u32, &str)],
    tcp: Option<&str>,
) -> HostBatch {
    let mut batch = HostBatch::default();
    if sensor.sweep_due(now) {
        let entries = processes
            .iter()
            .map(|(pid, name)| entry(*pid, name))
            .collect();
        let seen = snapshot(Some(entries), tcp, None, watcher.limits());
        let outcome = watcher.sweep(&seen, &[]);
        sensor.take_sweep(now, outcome, tcp.is_some(), &mut batch);
    }
    batch
}

fn process_settings() -> HostSettings {
    HostSettings {
        process_monitoring: true,
        process_interval: Duration::from_secs(60),
        ..HostSettings::default()
    }
}

// -----------------------------------------------------------------------
// the overflow contract
// -----------------------------------------------------------------------

/// The kernel dropped events. The sensor must not carry on as though the
/// filesystem were unchanged: it rescans, it reports, and it counts.
#[test]
fn a_queue_overflow_forces_a_rescan_and_is_reported() {
    let mut tree = Tree::default();
    let target = "/etc/passwd";
    tree.write(target, "root:x:0:0");

    let mut driven = Driven::start(&tree, settings("/etc"), Baseline::new());
    driven.tick(&tree, at(0)); // establishes the baseline

    // A change the watcher never told of, because the queue overflowed and the
    // kernel dropped the notification.
    tree.write(target, "root:x:0:0\nbackdoor:x:0:0");

    let (events, forced) = driven.worker.handle_notification(&Notification::Overflowed);
    assert!(events.is_empty(), "the overflow itself carries no paths");
    assert!(forced, "and it must force a rescan");
    assert_eq!(
        driven.worker.counters().overflows,
        1,
        "a dropped-event window must be counted, not swallowed"
    );

    // The next tick runs the forced rescan, which finds what was dropped and
    // reports the overflow alongside it.
    let update = driven.tick(&tree, at(0));
    assert_eq!(
        update.overflows, 1,
        "the gap must be reported, not just recovered from"
    );
    assert!(
        update
            .events
            .iter()
            .any(|event| event.change == FileChange::Modified && event.path == target),
        "the change the overflow hid must still surface"
    );
    assert!(!driven.worker.needs_rescan(at(0)), "and the gap is settled");
}

/// A watcher error is treated as a possible gap too, rather than being logged and
/// forgotten.
#[test]
fn a_watcher_error_also_forces_a_rescan() {
    let mut tree = Tree::default();
    tree.write("/etc/a", "x");
    let mut driven = Driven::start(&tree, settings("/etc"), Baseline::new());

    let (_, forced) = driven.worker.handle_notification(&Notification::Failed);
    assert!(forced);
    assert_eq!(driven.worker.counters().watch_failures, 1);
}

#[test]
fn losing_the_watcher_forces_a_rescan() {
    let mut tree = Tree::default();
    tree.write("/etc/a", "x");
    let mut driven = Driven::start(&tree, settings("/etc"), Baseline::new());
    driven.tick(&tree, at(0));
    assert!(!driven.worker.needs_rescan(at(1)));

    driven.worker.lose_watcher();
    assert_eq!(driven.worker.counters().watch_failures, 1);
    assert!(driven.worker.needs_rescan(at(1)));
}

#[test]
fn a_change_made_while_the_sensor_was_down_is_found_on_the_first_tick() {
    let mut tree = Tree::default();
    let target = "/etc/sudoers";
    tree.write(target, "root ALL=(ALL) ALL");

    // First run establishes the baseline, then goes away.
    let stored = {
        let mut driven = Driven::start(&tree, settings("/etc"), Baseline::new());
        assert!(
            driven.tick(&tree, at(0)).events.is_empty(),
            "establishing a baseline is not a wall of alerts"
        );
        driven.stored()
    };

    // Nothing is watching.
    tree.write(
        target,
        "root ALL=(ALL) ALL\nattacker ALL=(ALL) NOPASSWD: ALL",
    );

    let mut driven = Driven::start(&tree, settings("/etc"), stored);
    let update = driven.tick(&tree, at(0));

    assert_eq!(update.events.len(), 1, "the offline change must surface");
    assert_eq!(update.events[0].change, FileChange::Modified);
    assert_eq!(
        update.events[0].detected_by,
        FimDetection::BaselineRescan,
        "and it must be labelled as found by rescan, not claimed as real-time"
    );
}

#[test]
fn the_first_tick_does_not_rescan_again_immediately() {
    let mut tree = Tree::default();
    tree.write("/etc/a", "x");
    let mut driven = Driven::start(
        &tree,
        FimSettings {
            rescan_interval: Duration::from_secs(3_600),
            ..settings("/etc")
        },
        Baseline::new(),
    );

    driven.tick(&tree, at(0));
    driven.tick(&tree, at(0));
    assert_eq!(
        driven.worker.counters().rescans,
        1,
        "the rescan interval must be honoured after the first scan"
    );
    driven.tick(&tree, at(3_600));
    assert_eq!(driven.worker.counters().rescans, 2);
}

#[test]
fn an_unwatchable_path_is_counted_not_fatal() {
    let tree = Tree::default();
    let driven = Driven::start(&tree, settings("/does-not-exist"), Baseline::new());
    assert_eq!(driven.worker.counters().watch_failures, 1);
    assert_eq!(driven.worker.counters().watched_paths, 0);
}

#[test]
fn a_notification_is_checked_against_the_baseline() {
    let mut tree = Tree::default();
    tree.write("/etc/a", "x");
    tree.write("/etc/b", "x");
    let mut driven = Driven::start(&tree, settings("/etc"), Baseline::new());
    driven.tick(&tree, at(0));

    tree.write("/etc/a", "y");
    let paths = ["/etc/a".to_string(), "/etc/b".to_string()];
    let changed = Notification::Changed(tree.inspected(&paths, &driven.settings));
    let (events, forced) = driven.worker.handle_notification(&changed);
    assert!(!forced);
    assert_eq!(events.len(), 1, "only one of the two really changed");
    assert_eq!(events[0].detected_by, FimDetection::RealTime);
    assert_eq!(driven.worker.counters().realtime, 1);
}

// -----------------------------------------------------------------------
// the sensor
// -----------------------------------------------------------------------

/// What is reported right after the start has to be true by then: a zero would
/// read as watching nothing.
#[test]
fn starting_reports_the_watches_it_established() {
    let mut tree = Tree::default();
    tree.write("/etc/passwd", "root:x:0:0");
    let driven = Driven::start(&tree, settings("/etc"), Baseline::new());

    let mut sensor = started(&HostSettings {
        fim: Some(settings("/etc")),
        ..HostSettings::default()
    });
    sensor.note_fim(driven.worker.counters());

    assert_eq!(
        sensor.stats().watched_paths,
        1,
        "one configured path was watched; it must be said before any poll"
    );
    assert_eq!(sensor.stats().watch_failures, 0);
}

#[test]
fn findings_of_the_worker_reach_the_batch() {
    let mut tree = Tree::default();
    tree.write("/etc/passwd", "root:x:0:0");
    let mut driven = Driven::start(&tree, settings("/etc"), Baseline::new());
    let mut sensor = started(&HostSettings {
        fim: Some(settings("/etc")),
        ..HostSettings::default()
    });
    let first = driven.tick(&tree, at(0));
    tree.write("/etc/passwd", "root:x:0:0\nbackdoor:x:0:0");
    driven.worker.handle_notification(&Notification::Overflowed);
    let second = driven.tick(&tree, at(1));

    let mut batch = HostBatch::default();
    sensor.drain_fim(vec![first, second], &mut batch);
    assert!(batch
        .fim
        .iter()
        .any(|event| event.change == FileChange::Modified));
    assert_eq!(batch.overflows, 1);
    assert!(!batch.is_empty());
    assert_eq!(sensor.stats().rescans, 2);
    assert_eq!(sensor.stats().inotify_overflows, 1);
    assert_eq!(status(&sensor, names::FIM_REALTIME).state, SourceState::Active);
    assert_eq!(status(&sensor, names::FIM_BASELINE).state, SourceState::Active);
}

#[test]
fn authentication_lines_are_read_from_a_followed_file() {
    let mut sensor = started(&HostSettings {
        auth_files: vec!["auth.log".to_string()],
        ..HostSettings::default()
    });
    let lines = vec![
        "Jan  2 03:04:05 web01 sshd[1]: Failed password for invalid user admin from 203.0.113.7 port 1 ssh2".to_string(),
        "Jan  2 03:04:06 web01 cron[9]: unrelated chatter".to_string(),
    ];
    let mut batch = HostBatch::default();
    sensor.poll_logs(
        &vec![("auth.log".to_string(), lines)],
        &Vec::new(),
        &mut batch,
    );

    assert_eq!(batch.auth.len(), 1);
    assert_eq!(batch.auth[0].user.as_deref(), Some("admin"));
    assert_eq!(batch.auth[0].log_source, "file:auth.log");
    assert_eq!(sensor.stats().auth_records, 2);
    assert_eq!(
        sensor.stats().auth_unparsed,
        1,
        "lines we did not understand are counted, so a broken parser is visible"
    );
}

#[test]
fn a_poll_takes_no_more_lines_than_its_budget() {
    let mut sensor = started(&HostSettings::default());
    let most = vec!["noise".to_string(); MAX_LOG_LINES_PER_POLL - 1];
    let some = vec!["noise".to_string(); 3];
    let mut batch = HostBatch::default();
    sensor.poll_logs(
        &vec![
            ("auth.log".to_string(), most),
            ("secure".to_string(), some.clone()),
        ],
        &some,
        &mut batch,
    );
    assert_eq!(
        sensor.stats().auth_records,
        MAX_LOG_LINES_PER_POLL as u64
    );
}

#[test]
fn one_poll_serves_every_sensor() {
    let mut tree = Tree::default();
    tree.write("/etc/passwd", "root:x:0:0");
    let mut driven = Driven::start(&tree, settings("/etc"), Baseline::new());
    let mut sensor = started(&HostSettings {
        fim: Some(settings("/etc")),
        ..process_settings()
    });
    let mut watcher = watcher();
    watcher.sweep(
        &snapshot(Some(vec![entry(1, "init")]), None, None, ScanLimits::default()),
        &[],
    );
    let seen = snapshot(
        Some(vec![entry(1, "init"), entry(2, "nc")]),
        None,
        None,
        ScanLimits::default(),
    );

    assert!(sensor.sweep_due(at(0)));
    let batch = sensor.poll_at(
        at(0),
        Polled {
            updates: vec![driven.tick(&tree, at(0))],
            files: vec![(
                "auth.log".to_string(),
                vec!["Jan  2 03:04:05 web01 sshd[1]: Accepted password for deploy from 10.0.0.5 port 4022 ssh2".to_string()],
            )],
            journal: vec!["not json".to_string()],
            sweep: Some((watcher.sweep(&seen, &[]), true)),
        },
    );
    assert!(batch.fim.is_empty());
    assert_eq!(batch.auth.len(), 1);
    assert_eq!(batch.process.len(), 1);
    assert_eq!(sensor.stats().auth_records, 2);
    assert_eq!(sensor.stats().baseline_entries, 1);
    assert!(!sensor.sweep_due(at(59)));
    assert!(sensor.sweep_due(at(60)));
}

#[test]
fn journal_records_are_taken_in_and_suspicious_ones_counted() {
    let mut sensor = started(&HostSettings::default());
    let lines = vec![
        r#"{"MESSAGE":"Failed password for user bob from not-an-address port 1","SYSLOG_IDENTIFIER":"sshd"}"#.to_string(),
        "not json".to_string(),
    ];
    let mut batch = HostBatch::default();
    sensor.poll_logs(&Vec::new(), &lines, &mut batch);
    assert_eq!(batch.auth.len(), 1);
    assert_eq!(batch.auth[0].log_source, "journald");
    assert_eq!(sensor.stats().auth_suspicious, 1);
    assert_eq!(sensor.stats().auth_unparsed, 1);
}

#[test]
fn a_journal_that_cannot_be_followed_is_a_hole() {
    let mut sensor = started(&HostSettings::default());
    sensor.note_journal(Err("No such file or directory".to_string()));
    let journal = status(&sensor, names::AUTH_STRUCTURED);
    assert_eq!(journal.state, SourceState::Unavailable);
    assert_eq!(journal.detail, "journalctl: No such file or directory");
    assert_eq!(sensor.holes().len(), 1);

    sensor.note_journal(Ok(()));
    assert!(sensor.holes().is_empty());
}

#[test]
fn process_sweeps_respect_their_interval() {
    let mut sensor = started(&process_settings());
    let mut watcher = watcher();

    sweep(&mut sensor, &mut watcher, at(0), &[(1, "init")], None); // establishes
    let both = [(1, "init"), (999, "nc")];
    assert!(
        sweep(&mut sensor, &mut watcher, at(0), &both, None)
            .process
            .is_empty(),
        "the interval has not elapsed"
    );
    let batch = sweep(&mut sensor, &mut watcher, at(61), &both, None);
    assert_eq!(batch.process.len(), 1);
    assert_eq!(batch.process[0].name, "nc");
    assert_eq!(sensor.stats().process_events, 1);
}

#[test]
fn processes_are_not_swept_where_there_is_no_proc() {
    let sensor = HostSensor::start(&process_settings(), "windows", at(0));
    assert!(!sensor.sweep_due(at(1_000)));
    assert!(!sensor.holes().is_empty(), "and it says so");
}

// -----------------------------------------------------------------------
// silence that is provably wrong
// -----------------------------------------------------------------------

/// A process table always contains the sensor's own process, so seeing one entry
/// is proof the view is restricted rather than the host being quiet.
#[test]
fn a_process_sweep_that_can_only_see_itself_reports_a_hole() {
    let mut sensor = started(&process_settings());
    let mut watcher = watcher();
    sweep(
        &mut sensor,
        &mut watcher,
        at(0),
        &[(1, "cybersentinel")],
        Some("  sl  local_address\n"),
    );

    let status = status(&sensor, names::PROCESS_TABLE);
    assert_eq!(
        status.state,
        SourceState::Unavailable,
        "one visible process is a blinded sensor, not a quiet host"
    );
    assert!(
        status.detail.contains("restricted"),
        "the report must say what is wrong: {:?}",
        status.detail
    );
}

#[test]
fn a_process_sweep_that_sees_a_real_table_is_active() {
    let mut sensor = started(&process_settings());
    let mut watcher = watcher();
    let five = [(1, "a"), (2, "b"), (3, "c"), (4, "d"), (5, "e")];
    sweep(
        &mut sensor,
        &mut watcher,
        at(0),
        &five,
        Some("  sl  local_address\n"),
    );
    assert_eq!(
        status(&sensor, names::PROCESS_TABLE).state,
        SourceState::Active
    );
}

/// The process table is readable, the socket table is not, and listening-socket
/// detection would stop with nothing to show.
#[test]
fn a_missing_socket_table_reports_a_hole_of_its_own() {
    let mut sensor = started(&process_settings());
    let mut watcher = watcher();
    let four = [(1, "a"), (2, "b"), (3, "c"), (4, "d")];
    sweep(&mut sensor, &mut watcher, at(0), &four, None);

    assert_eq!(
        status(&sensor, names::PROCESS_TABLE).state,
        SourceState::Active,
        "the process table is fine; only the socket half broke"
    );
    let sockets = status(&sensor, names::PROCESS_SOCKETS);
    assert_eq!(
        sockets.state,
        SourceState::Unavailable,
        "an unreadable socket table is a hole, not zero sockets"
    );
    assert_eq!(
        sockets.detail,
        "no socket table under /proc: listening sockets are invisible (ProcSubset=pid?)"
    );
}

#[test]
fn auth_files_that_do_not_exist_are_a_reported_hole() {
    let mut sensor = started(&HostSettings::default());
    sensor.declare_auth_files(&[
        ("nope.log".to_string(), false),
        ("also-nope.log".to_string(), false),
    ]);

    let status = status(&sensor, names::AUTH_FILES);
    assert_eq!(
        status.state,
        SourceState::Unavailable,
        "a source that can never produce anything must say so"
    );
    assert_eq!(
        status.detail,
        "none of the configured files exist: nope.log, also-nope.log"
    );
}

#[test]
fn some_auth_files_missing_is_degraded_not_dead() {
    let mut sensor = started(&HostSettings::default());
    sensor.declare_auth_files(&[("auth.log".to_string(), true), ("secure".to_string(), false)]);

    let status = status(&sensor, names::AUTH_FILES);
    assert_eq!(status.state, SourceState::Degraded);
    assert_eq!(status.detail, "1 of 2 configured files exist");
}

/// Watching a path set that matches nothing would report zero for ever and look
/// like a filesystem nobody touched.
#[test]
fn a_baseline_that_matched_no_files_is_a_reported_hole() {
    let mut tree = Tree::default();
    tree.directories.push("/empty".to_string());
    let mut driven = Driven::start(&tree, settings("/empty"), Baseline::new());
    let mut sensor = started(&HostSettings {
        fim: Some(settings("/empty")),
        ..HostSettings::default()
    });
    let update = driven.tick(&tree, at(0));
    let mut batch = HostBatch::default();
    sensor.drain_fim(vec![update], &mut batch);

    assert_eq!(
        status(&sensor, names::FIM_BASELINE).state,
        SourceState::Unavailable,
        "a completed scan with an empty baseline means the paths matched nothing"
    );
}

#[test]
fn a_path_that_cannot_be_watched_degrades_or_blinds_the_real_time_source() {
    let mut sensor = started(&HostSettings {
        fim: Some(settings("/etc")),
        ..HostSettings::default()
    });
    let mut batch = HostBatch::default();
    let mut update = FimUpdate {
        events: Vec::new(),
        overflows: 0,
        counters: FimCounters::default(),
    };
    update.counters.watch_failures = 2;
    update.counters.watched_paths = 1;
    sensor.drain_fim(vec![update], &mut batch);
    let realtime = status(&sensor, names::FIM_REALTIME);
    assert_eq!(realtime.state, SourceState::Degraded);
    assert_eq!(
        realtime.detail,
        "2 path(s) could not be watched; those are covered by the rescan only"
    );

    let mut update = FimUpdate {
        events: Vec::new(),
        overflows: 0,
        counters: FimCounters::default(),
    };
    update.counters.watch_failures = 1;
    sensor.drain_fim(vec![update], &mut batch);
    assert_eq!(
        status(&sensor, names::FIM_REALTIME).state,
        SourceState::Unavailable
    );
}

#[test]
fn a_sensor_with_nothing_enabled_is_valid_and_quiet() {
    let mut sensor = started(&HostSettings::default());
    let mut batch = HostBatch::default();
    sensor.drain_fim(Vec::new(), &mut batch);
    assert!(batch.is_empty());
    assert!(!sensor.sweep_due(at(1_000)));
    assert_eq!(sensor.stats().watched_paths, 0);
    assert!(sensor.stats().enabled);
}

#[test]
fn a_host_error_says_what_failed() {
    let error = HostError::Baseline {
        detail: "disk full".to_string(),
    };
    assert_eq!(error.to_text(), "file integrity baseline: disk full");
    let error = HostError::Watcher {
        detail: "too many watches".to_string(),
    };
    assert_eq!(error.to_text(), "file watcher: too many watches");
}

#[test]
fn a_directory_that_two_paths_name_is_monitored_once() {
    let asked = ["/etc", "/var/link", "/gone", "/etc/", "/var/link"].map(String::from);
    let resolved = [
        Some("/etc".to_string()),
        Some("/srv/data".to_string()),
        None,
        Some("/etc".to_string()),
        Some("/srv/data".to_string()),
    ];
    let (kept, collapsed) = resolve_roots(&asked, &resolved);
    assert_eq!(kept, ["/etc", "/srv/data", "/gone"]);
    assert_eq!(
        collapsed,
        [
            ("/etc/".to_string(), "/etc".to_string()),
            ("/var/link".to_string(), "/srv/data".to_string()),
        ]
    );

    let worker = FimWorker::start(
        FimSettings {
            paths: asked.to_vec(),
            max_depth: 3,
            ..FimSettings::default()
        },
        &resolved,
        Baseline::new(),
    );
    let settings = worker.monitor().settings();
    assert_eq!(settings.paths, kept);
    assert_eq!(settings.max_depth, 3);
    assert!(worker.monitor().is_watched("/srv/data/file"));
    assert!(!worker.monitor().is_watched("/var/link/file"));
}

#[test]
fn an_empty_rescan_outcome_reports_nothing() {
    let outcome = RescanOutcome::default();
    assert!(outcome.events.is_empty());
    assert_eq!(outcome.files_seen, 0);
    assert!(!outcome.limits.truncated());
}

#[test]
fn a_worker_keeps_every_setting_it_was_given() {
    let worker = FimWorker::start(
        FimSettings {
            paths: vec!["/etc".to_string()],
            baseline_path: Some("/var/lib/base.db".to_string()),
            rescan_interval: cybersentinel::time::Duration::from_secs(17),
            max_file_bytes: 4_096,
            max_depth: 5,
            max_entries: 99,
        },
        &[None],
        Baseline::new(),
    );
    let settings = worker.monitor().settings();
    assert_eq!(settings.paths, ["/etc"]);
    assert_eq!(settings.baseline_path.as_deref(), Some("/var/lib/base.db"));
    assert_eq!(
        settings.rescan_interval,
        cybersentinel::time::Duration::from_secs(17)
    );
    assert_eq!(settings.max_file_bytes, 4_096);
    assert_eq!(settings.max_depth, 5);
    assert_eq!(settings.max_entries, 99);
}
