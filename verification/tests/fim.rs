use std::collections::BTreeMap;

use cybersentinel::hids::baseline::{Baseline, FileRecord};
use cybersentinel::hids::digest::FileHasher;
use cybersentinel::hids::event::{FileChange, FimDetection, FimEvent};
use cybersentinel::hids::fim::{
    is_hashed, FimSettings, Inspected, Monitor, RescanOutcome, WalkedFile,
};
use cybersentinel::hids::path::under;
use cybersentinel::hids::walk::{EntryKind, WalkLimits, Walker};

/// A file tree in memory.
#[derive(Default)]
struct Tree {
    files: BTreeMap<String, (String, u32)>,
    links: Vec<String>,
    directories: Vec<String>,
}

impl Tree {
    fn write(&mut self, path: &str, contents: &str) {
        let mode = self.files.get(path).map_or(0o644, |file| file.1);
        self.files
            .insert(path.to_string(), (contents.to_string(), mode));
    }

    fn chmod(&mut self, path: &str, mode: u32) {
        self.files.get_mut(path).expect("the file").1 = mode;
    }

    fn remove(&mut self, path: &str) {
        self.files.remove(path);
    }

    fn all(&self) -> Vec<String> {
        let mut all: Vec<String> = self.files.keys().cloned().collect();
        all.extend(self.links.iter().cloned());
        all.extend(self.directories.iter().cloned());
        all
    }

    fn kind(&self, path: &str) -> EntryKind {
        let inside = format!("{path}/");
        if self.links.iter().any(|link| link == path) {
            EntryKind::Symlink
        } else if self.files.contains_key(path) {
            EntryKind::File
        } else if self.directories.iter().any(|directory| directory == path)
            || self.all().iter().any(|other| other.starts_with(&inside))
        {
            EntryKind::Directory
        } else {
            EntryKind::Unreadable
        }
    }

    fn entries(&self, path: &str) -> Vec<Option<String>> {
        let inside = format!("{path}/");
        let mut names: Vec<String> = self
            .all()
            .iter()
            .filter_map(|other| other.strip_prefix(&inside))
            .map(|rest| rest.split('/').next().unwrap_or(rest).to_string())
            .collect();
        names.sort();
        names.dedup();
        names
            .into_iter()
            .map(|name| Some(format!("{inside}{name}")))
            .collect()
    }

    fn walk(&self, settings: &FimSettings) -> (Vec<String>, WalkLimits) {
        let mut walker = Walker::new(&settings.paths, settings.max_depth, settings.max_entries);
        while let Some(path) = walker.next_path() {
            if walker.visit(self.kind(&path)) {
                walker.list(Some(self.entries(&path)));
            }
        }
        walker.finish()
    }

    fn inspect(&self, path: &str, settings: &FimSettings) -> Inspected {
        match self.files.get(path) {
            None => Inspected::NotAFile,
            Some((contents, mode)) => {
                let size = contents.len() as u64;
                let sha256 = if is_hashed(size, settings.max_file_bytes) {
                    let mut hasher = FileHasher::new();
                    hasher.update(contents.as_bytes());
                    Some(hasher.finish())
                } else {
                    None
                };
                Inspected::File(FileRecord {
                    sha256,
                    size,
                    mode: *mode,
                    uid: 1_000,
                    gid: 1_000,
                })
            }
        }
    }

    fn inspected(&self, paths: &[String], settings: &FimSettings) -> Vec<WalkedFile> {
        paths
            .iter()
            .map(|path| WalkedFile {
                path: path.clone(),
                found: self.inspect(path, settings),
            })
            .collect()
    }

    fn rescan(&self, monitor: &mut Monitor) -> RescanOutcome {
        let settings = monitor.settings().clone();
        let (paths, limits) = self.walk(&settings);
        let files = self.inspected(&paths, &settings);
        monitor.rescan(&files, limits, FimDetection::BaselineRescan)
    }

    /// A rescan that is asked to stop after so many files.
    fn rescan_until(&self, monitor: &mut Monitor, files: usize) -> RescanOutcome {
        let settings = monitor.settings().clone();
        let (paths, limits) = self.walk(&settings);
        let files = self.inspected(&paths[..files], &settings);
        monitor.rescan_until(&files, limits, FimDetection::BaselineRescan, true)
    }

    fn recheck(&self, monitor: &mut Monitor, path: &str) -> Option<FimEvent> {
        let found = self.inspect(path, &monitor.settings().clone());
        monitor.recheck(path, &found)
    }
}

fn settings(root: &str) -> FimSettings {
    FimSettings {
        paths: vec![root.to_string()],
        ..FimSettings::default()
    }
}

fn monitor(root: &str) -> Monitor {
    Monitor::new(settings(root), Baseline::new())
}

/// A baseline that holds what another one does, as a store would bring it back.
fn reopened(baseline: &Baseline) -> Baseline {
    let mut copy = Baseline::new();
    for index in 0..baseline.len() {
        let (path, record) = baseline.entry(index);
        copy.put(path, record);
    }
    copy
}

#[test]
fn the_first_scan_establishes_rather_than_alerts() {
    let mut tree = Tree::default();
    tree.write("/etc/passwd", "root:x:0:0");
    tree.write("/etc/shadow", "root:!:0");

    let mut monitor = monitor("/etc");
    let outcome = tree.rescan(&mut monitor);

    assert!(
        outcome.events.is_empty(),
        "establishing the baseline is not two thousand alerts"
    );
    assert_eq!(outcome.files_seen, 2);
    assert_eq!(monitor.baseline().len(), 2);
}

#[test]
fn a_content_change_is_a_modification_with_both_hashes() {
    let mut tree = Tree::default();
    let target = "/etc/sudoers";
    tree.write(target, "root ALL=(ALL) ALL");

    let mut monitor = monitor("/etc");
    tree.rescan(&mut monitor);
    let before = monitor
        .baseline()
        .get(target)
        .and_then(|record| record.sha256.clone());

    tree.write(
        target,
        "root ALL=(ALL) ALL\nattacker ALL=(ALL) NOPASSWD: ALL",
    );
    let outcome = tree.rescan(&mut monitor);

    assert_eq!(outcome.events.len(), 1);
    let event = &outcome.events[0];
    assert_eq!(event.change, FileChange::Modified);
    assert_eq!(event.previous_sha256, before);
    assert_ne!(event.sha256, before);
    assert!(event.sha256.is_some());
}

#[test]
fn a_new_file_is_a_creation_and_a_removed_one_a_deletion() {
    let mut tree = Tree::default();
    tree.write("/etc/keep", "a");
    tree.write("/etc/goes", "b");

    let mut monitor = monitor("/etc");
    tree.rescan(&mut monitor);

    tree.remove("/etc/goes");
    tree.write("/etc/appears", "c");
    let outcome = tree.rescan(&mut monitor);

    let changes: Vec<_> = outcome
        .events
        .iter()
        .map(|event| (event.change, event.path.clone()))
        .collect();
    assert!(changes.contains(&(FileChange::Created, "/etc/appears".to_string())));
    assert!(changes.contains(&(FileChange::Deleted, "/etc/goes".to_string())));
    assert_eq!(changes.len(), 2, "the untouched file is not an event");
}

#[test]
fn a_deletion_carries_the_hash_of_what_was_lost() {
    let mut tree = Tree::default();
    tree.directories.push("/etc".to_string());
    let target = "/etc/audit.rules";
    tree.write(target, "-w /etc/passwd -p wa");

    let mut monitor = monitor("/etc");
    tree.rescan(&mut monitor);
    tree.remove(target);
    let outcome = tree.rescan(&mut monitor);

    assert_eq!(outcome.events.len(), 1);
    assert_eq!(outcome.events[0].change, FileChange::Deleted);
    assert!(
        outcome.events[0].previous_sha256.is_some(),
        "what the file used to be is the only evidence left"
    );
}

#[test]
fn a_mode_change_alone_is_an_attribute_change() {
    let mut tree = Tree::default();
    let target = "/etc/script.sh";
    tree.write(target, "#!/bin/sh\n");

    let mut monitor = monitor("/etc");
    tree.rescan(&mut monitor);

    tree.chmod(target, 0o4_755);
    let outcome = tree.rescan(&mut monitor);

    assert_eq!(outcome.events.len(), 1);
    let event = &outcome.events[0];
    assert_eq!(event.change, FileChange::AttributesChanged);
    assert_eq!(
        event.sha256, event.previous_sha256,
        "same bytes: the hashes prove the content did not move"
    );
    assert_eq!(event.mode.map(|mode| mode & 0o7_777), Some(0o4_755));
}

#[test]
fn an_unchanged_tree_produces_nothing() {
    let mut tree = Tree::default();
    tree.write("/etc/a", "x");
    let mut monitor = monitor("/etc");
    tree.rescan(&mut monitor);
    for _ in 0..3 {
        let outcome = tree.rescan(&mut monitor);
        assert!(outcome.events.is_empty());
    }
}

// -----------------------------------------------------------------------
// the adversarial cases
// -----------------------------------------------------------------------

/// The whole reason the baseline exists. A change made with no watcher running is
/// still found, and the event says so.
#[test]
fn a_change_made_while_nothing_was_watching_is_caught_by_the_rescan() {
    let mut tree = Tree::default();
    tree.write("/etc/passwd", "root:x:0:0:root:/root:/bin/bash");

    // First run: the sensor establishes the baseline, then stops.
    let stored = {
        let mut monitor = monitor("/etc");
        tree.rescan(&mut monitor);
        reopened(monitor.baseline())
    };

    // Sensor is down. Nobody is watching. The file changes.
    tree.write(
        "/etc/passwd",
        "root:x:0:0:root:/root:/bin/bash\nbackdoor:x:0:0::/root:/bin/sh",
    );

    // Second run: a fresh process, a fresh watcher that saw nothing.
    let mut monitor = Monitor::new(settings("/etc"), stored);
    let outcome = tree.rescan(&mut monitor);

    assert_eq!(outcome.events.len(), 1, "the offline change must surface");
    let event = &outcome.events[0];
    assert_eq!(event.change, FileChange::Modified);
    assert_eq!(
        event.detected_by,
        FimDetection::BaselineRescan,
        "and it must be labelled as found by rescan, not claimed as real-time"
    );
    assert!(event.previous_sha256.is_some() && event.sha256 != event.previous_sha256);
}

#[test]
fn the_baseline_survives_a_restart() {
    let mut tree = Tree::default();
    tree.write("/watched/a", "one");
    let mut monitor = monitor("/watched");
    tree.rescan(&mut monitor);

    let reopened = reopened(monitor.baseline());
    assert_eq!(reopened.len(), 1);
    assert_eq!(reopened.get("/watched/a"), monitor.baseline().get("/watched/a"));
}

#[test]
fn a_symlink_is_not_followed_out_of_the_watched_set() {
    let mut tree = Tree::default();
    tree.write("/outside/secret", "not ours to watch");
    tree.links.push("/watched/link".to_string());

    let (paths, limits) = tree.walk(&settings("/watched"));
    assert!(paths.is_empty(), "a symlink must not widen the scope");
    assert_eq!(limits.symlinks_skipped, 1);
}

#[test]
fn the_entry_limit_is_enforced_and_counted() {
    let mut tree = Tree::default();
    for index in 0..20 {
        tree.write(&format!("/etc/file{index}"), "x");
    }
    let config = FimSettings {
        max_entries: 5,
        ..settings("/etc")
    };
    let (paths, limits) = tree.walk(&config);
    assert_eq!(paths.len(), 5);
    assert!(limits.over_entry_limit > 0, "truncation must be visible");
    assert!(limits.truncated());
}

#[test]
fn the_depth_limit_is_enforced_and_counted() {
    let mut tree = Tree::default();
    tree.write("/etc/a/b/c/d/deep", "x");
    let config = FimSettings {
        max_depth: 2,
        ..settings("/etc")
    };
    let (paths, limits) = tree.walk(&config);
    assert!(paths.is_empty());
    assert!(limits.over_depth_limit > 0);
}

/// Shutdown must not have to wait for a scan of `/usr/bin` to finish.
#[test]
fn a_scan_can_be_abandoned_partway_and_says_so() {
    let mut tree = Tree::default();
    for index in 0..50 {
        tree.write(&format!("/etc/file{index}"), "x");
    }
    let mut monitor = monitor("/etc");
    let outcome = tree.rescan_until(&mut monitor, 4);

    assert!(outcome.limits.abandoned);
    assert!(outcome.limits.truncated());
    assert!(outcome.files_seen < 50, "it stopped early, as asked");
    assert!(
        monitor.baseline().len() > 0,
        "what it did record still counts: the next run starts further along"
    );
}

/// An abandoned scan must not read as mass deletion, for the same reason a
/// bounded one must not: nobody looked, the files did not vanish.
#[test]
fn an_abandoned_scan_does_not_report_deletions() {
    let mut tree = Tree::default();
    for index in 0..20 {
        tree.write(&format!("/etc/file{index}"), "x");
    }
    let mut monitor = monitor("/etc");
    tree.rescan(&mut monitor);

    let outcome = tree.rescan_until(&mut monitor, 2);
    assert!(outcome
        .events
        .iter()
        .all(|event| event.change != FileChange::Deleted));
}

/// A truncated walk must not be read as mass deletion. Otherwise an attacker who
/// can make the walk hit its bound gets to bury a real change under thousands of
/// fabricated ones.
#[test]
fn a_truncated_walk_does_not_report_deletions() {
    let mut tree = Tree::default();
    for index in 0..10 {
        tree.write(&format!("/etc/file{index}"), "x");
    }
    let mut monitor = monitor("/etc");
    tree.rescan(&mut monitor);

    let mut bounded = Monitor::new(
        FimSettings {
            max_entries: 3,
            ..settings("/etc")
        },
        reopened(monitor.baseline()),
    );
    let outcome = tree.rescan(&mut bounded);

    assert!(
        !outcome
            .events
            .iter()
            .any(|event| event.change == FileChange::Deleted),
        "hitting a bound means we did not look, not that the files are gone"
    );
    assert!(outcome.limits.truncated());
}

#[test]
fn an_oversized_file_is_tracked_by_size_without_hashing() {
    let mut tree = Tree::default();
    let target = "/etc/big";
    tree.write(target, "aaaaaaaaaa");

    let config = FimSettings {
        max_file_bytes: 4,
        ..settings("/etc")
    };
    let mut monitor = Monitor::new(config, Baseline::new());
    tree.rescan(&mut monitor);

    // Unhashable files fall back to size, so a same-length edit is genuinely
    // missed: the absent hash on the event is what says so.
    tree.write(target, "bbbbbbbbbbbb");
    let outcome = tree.rescan(&mut monitor);
    assert_eq!(outcome.events.len(), 1);
    assert_eq!(outcome.events[0].change, FileChange::Modified);
    assert!(outcome.events[0].sha256.is_none());
}

#[test]
fn a_path_that_does_not_exist_is_not_an_error() {
    let tree = Tree::default();
    let config = FimSettings {
        paths: vec!["/nope".to_string(), "/also/nope".to_string()],
        ..FimSettings::default()
    };
    let mut monitor = Monitor::new(config, Baseline::new());
    let outcome = tree.rescan(&mut monitor);
    assert!(outcome.events.is_empty());
    assert!(outcome.limits.unreadable > 0);
}

#[test]
fn a_prefix_lookup_does_not_treat_configured_paths_as_wildcards() {
    let mut baseline = Baseline::new();
    let record = FileRecord {
        sha256: None,
        size: 0,
        mode: 0,
        uid: 0,
        gid: 0,
    };
    baseline.put("/etc/my_app/conf", &record);
    baseline.put("/etc/myXapp/conf", &record);

    let found = baseline.paths_under("/etc/my_app");
    assert_eq!(
        found,
        vec!["/etc/my_app/conf".to_string()],
        "`_` in a configured path is a literal, not a LIKE wildcard"
    );
}

// -----------------------------------------------------------------------
// real-time recheck
// -----------------------------------------------------------------------

#[test]
fn a_recheck_outside_the_watched_set_is_ignored() {
    let mut tree = Tree::default();
    tree.directories.push("/watched".to_string());
    let mut monitor = monitor("/watched");
    tree.write("/elsewhere", "x");
    assert!(tree.recheck(&mut monitor, "/elsewhere").is_none());
}

#[test]
fn a_recheck_of_an_unchanged_file_produces_nothing() {
    let mut tree = Tree::default();
    tree.write("/etc/a", "x");
    let mut monitor = monitor("/etc");
    tree.rescan(&mut monitor);
    assert!(tree.recheck(&mut monitor, "/etc/a").is_none());
}

#[test]
fn a_recheck_reports_a_change_as_real_time() {
    let mut tree = Tree::default();
    tree.write("/etc/a", "x");
    let mut monitor = monitor("/etc");
    tree.rescan(&mut monitor);

    tree.write("/etc/a", "y");
    let event = tree
        .recheck(&mut monitor, "/etc/a")
        .expect("an event");
    assert_eq!(event.change, FileChange::Modified);
    assert_eq!(event.detected_by, FimDetection::RealTime);
}

#[test]
fn a_recheck_after_deletion_reports_a_deletion_once() {
    let mut tree = Tree::default();
    tree.write("/etc/a", "x");
    let mut monitor = monitor("/etc");
    tree.rescan(&mut monitor);

    tree.remove("/etc/a");
    let event = tree
        .recheck(&mut monitor, "/etc/a")
        .expect("an event");
    assert_eq!(event.change, FileChange::Deleted);
    assert!(
        tree.recheck(&mut monitor, "/etc/a").is_none(),
        "a second notification for the same deletion is not a second deletion"
    );
}

// -----------------------------------------------------------------------
// hashing and paths
// -----------------------------------------------------------------------

#[test]
fn a_hash_is_the_sha_256_of_the_content() {
    let mut hasher = FileHasher::new();
    hasher.update(b"abc");
    assert_eq!(
        hasher.finish(),
        "ba7816bf8f01cfea414140de5dae2223b00361a396177a9cb410ff61f20015ad"
    );
    assert_eq!(
        FileHasher::new().finish(),
        "e3b0c44298fc1c149afbf4c8996fb92427ae41e4649b934ca495991b7852b855"
    );
}

#[test]
fn a_hash_does_not_depend_on_the_chunks() {
    let mut whole = FileHasher::new();
    whole.update(b"hello world");
    let mut parts = FileHasher::new();
    parts.update(b"hello");
    parts.update(b"");
    parts.update(b" world");
    assert_eq!(whole.finish(), parts.finish());
}

#[test]
fn a_root_covers_what_is_under_it_by_components() {
    assert!(under("/etc/passwd", "/etc"));
    assert!(under("/etc", "/etc"));
    assert!(under("/etc/./passwd", "/etc/"));
    assert!(!under("/etcetera/passwd", "/etc"));
}

#[test]
fn files_come_out_in_the_order_of_their_components() {
    let mut tree = Tree::default();
    for path in ["/etc/a/x", "/etc/a.b", "/etc/a-b"] {
        tree.write(path, "x");
    }
    let (paths, _) = tree.walk(&settings("/etc"));
    assert_eq!(paths, ["/etc/a/x", "/etc/a-b", "/etc/a.b"]);
}

#[test]
fn a_size_that_a_store_cannot_hold_is_clipped() {
    let mut baseline = Baseline::new();
    let record = FileRecord {
        sha256: None,
        size: u64::MAX,
        mode: 0,
        uid: 0,
        gid: 0,
    };
    baseline.put("/etc/huge", &record);
    assert_eq!(
        baseline.get("/etc/huge").map(|record| record.size),
        Some(i64::MAX as u64)
    );
    baseline.remove("/etc/huge");
    assert!(baseline.is_empty());
}

#[test]
fn hashes_are_the_known_ones() {
    let mut whole = FileHasher::new();
    whole.update(b"abc");
    assert_eq!(
        whole.finish(),
        "ba7816bf8f01cfea414140de5dae2223b00361a396177a9cb410ff61f20015ad"
    );

    let mut chunked = FileHasher::new();
    chunked.update(b"a");
    chunked.update(b"");
    chunked.update(b"bc");
    assert_eq!(
        chunked.finish(),
        "ba7816bf8f01cfea414140de5dae2223b00361a396177a9cb410ff61f20015ad"
    );

    assert_eq!(
        FileHasher::new().finish(),
        "e3b0c44298fc1c149afbf4c8996fb92427ae41e4649b934ca495991b7852b855"
    );
}
