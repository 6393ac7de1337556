//! File integrity monitoring.
//!
//! # Two detectors, because one is not enough
//!
//! Real-time watching reports changes as they happen, but it has three failure
//! modes that all look identical from the outside, like a filesystem nobody
//! touched: the sensor was not running, the queue overflowed, or the watch was
//! never established.
//!
//! So real-time watching is paired with a **periodic baseline rescan**: hashes of
//! every watched file are remembered, and on a timer the tree is walked and
//! compared. The rescan is the backstop that makes the three failures above
//! recoverable rather than silent.
//!
//! # Bounded on purpose
//!
//! Monitoring is scoped to a configured set of critical paths, and within that:
//! bounded depth, bounded entry count, bounded file size for hashing, and no
//! symlink traversal. Every bound that bites is *counted and reported*, because
//! unreported truncation is the same bug as a silently dropped event.
//!
//! The caller looks at the files; everything that is concluded from what was
//! seen is here.

use vstd::prelude::*;
use crate::sorted::{holds_text, is_sorted, put_text, with_text};
use crate::text::{begins, equal, optional_text, owned, precedes, texts};
use crate::time::Duration;
use super::baseline::{
    law_a_baseline_remembers, starting, stored, Baseline, BaselineModel, FileRecord, RecordModel,
};
use super::event::{FileChange, FimDetection, FimEvent, FimModel};
use super::path::{is_under, under};
use super::walk::WalkLimits;

verus! {

/// Files larger than this are recorded by metadata only, never hashed.
///
/// Hashing an arbitrarily large file inside the monitoring loop is a
/// denial-of-service whose size somebody else chooses.
pub const DEFAULT_MAX_FILE_BYTES: u64 = 64 * 1_024 * 1_024;

/// Deepest directory nesting walked below a configured root.
pub const DEFAULT_MAX_DEPTH: usize = 16;

/// Most files tracked across all configured roots.
pub const DEFAULT_MAX_ENTRIES: usize = 50_000;

/// Default gap between baseline rescans, in seconds.
pub const DEFAULT_RESCAN_INTERVAL_SECS: u64 = 3_600;

/// What to watch and how hard to try.
#[derive(Debug, Clone)]
pub struct FimSettings {
    /// Roots to monitor. Files are watched directly; directories recursively.
    pub paths: Vec<String>,
    /// Where the baseline lives. `None` keeps it in memory: a rescan still works,
    /// just without surviving a restart.
    pub baseline_path: Option<String>,
    /// Gap between periodic rescans.
    pub rescan_interval: Duration,
    /// Largest file hashed.
    pub max_file_bytes: u64,
    /// Deepest nesting walked.
    pub max_depth: usize,
    /// Most files tracked.
    pub max_entries: usize,
}

/// What the settings say.
pub struct SettingsModel {
    /// The roots to monitor.
    pub paths: Seq<Seq<char>>,
    /// Where the baseline lives.
    pub baseline_path: Option<Seq<char>>,
    /// The gap between periodic rescans.
    pub rescan_interval: Duration,
    /// The largest file hashed.
    pub max_file_bytes: u64,
    /// The deepest nesting walked.
    pub max_depth: usize,
    /// The most files tracked.
    pub max_entries: usize,
}

impl View for FimSettings {
    type V = SettingsModel;

    open spec fn view(&self) -> SettingsModel {
        SettingsModel {
            paths: texts(self.paths@),
            baseline_path: optional_text(self.baseline_path),
            rescan_interval: self.rescan_interval,
            max_file_bytes: self.max_file_bytes,
            max_depth: self.max_depth,
            max_entries: self.max_entries,
        }
    }
}

impl Default for FimSettings {
    fn default() -> (settings: Self)
        ensures
            settings.paths@.len() == 0,
            settings.baseline_path is None,
            settings.rescan_interval.nanos == DEFAULT_RESCAN_INTERVAL_SECS
                * crate::time::NANOS_PER_SEC,
            settings.max_file_bytes == DEFAULT_MAX_FILE_BYTES,
            settings.max_depth == DEFAULT_MAX_DEPTH,
            settings.max_entries == DEFAULT_MAX_ENTRIES,
    {
        Self {
            paths: Vec::new(),
            baseline_path: None,
            rescan_interval: Duration::from_secs(DEFAULT_RESCAN_INTERVAL_SECS),
            max_file_bytes: DEFAULT_MAX_FILE_BYTES,
            max_depth: DEFAULT_MAX_DEPTH,
            max_entries: DEFAULT_MAX_ENTRIES,
        }
    }
}

/// What each of some optional strings holds.
pub open spec fn optional_texts(strings: Seq<Option<String>>) -> Seq<Option<Seq<char>>> {
    strings.map_values(|string: Option<String>| optional_text(string))
}

/// The path that a configured root names: what it resolves to, where it does.
pub open spec fn root_of(asked: Seq<char>, resolved: Option<Seq<char>>) -> Seq<char> {
    match resolved {
        Some(resolved) => resolved,
        None => asked,
    }
}

/// The roots that configured paths name, each once and in the order in which they
/// were first named.
pub open spec fn kept_roots(
    asked: Seq<Seq<char>>,
    resolved: Seq<Option<Seq<char>>>,
) -> Seq<Seq<char>>
    recommends
        asked.len() == resolved.len(),
    decreases asked.len(),
{
    if asked.len() == 0 {
        seq![]
    } else {
        let kept = kept_roots(asked.drop_last(), resolved.drop_last());
        let root = root_of(asked.last(), resolved.last());
        if kept.contains(root) {
            kept
        } else {
            kept.push(root)
        }
    }
}

/// The configured paths that name a root which an earlier one names, each with that
/// root.
pub open spec fn collapsed_roots(
    asked: Seq<Seq<char>>,
    resolved: Seq<Option<Seq<char>>>,
) -> Seq<(Seq<char>, Seq<char>)>
    recommends
        asked.len() == resolved.len(),
    decreases asked.len(),
{
    if asked.len() == 0 {
        seq![]
    } else {
        let before = collapsed_roots(asked.drop_last(), resolved.drop_last());
        let root = root_of(asked.last(), resolved.last());
        if kept_roots(asked.drop_last(), resolved.drop_last()).contains(root) {
            before.push((asked.last(), root))
        } else {
            before
        }
    }
}

/// The contents of pairs of strings.
pub open spec fn text_pairs(pairs: Seq<(String, String)>) -> Seq<(Seq<char>, Seq<char>)> {
    pairs.map_values(|pair: (String, String)| (pair.0@, pair.1@))
}

fn holds_root(roots: &Vec<String>, root: &str) -> (held: bool)
    ensures
        held == texts(roots@).contains(root@),
{
    let ghost all = texts(roots@);
    let mut i: usize = 0;
    while i < roots.len()
        invariant
            all == texts(roots@),
            i <= all.len(),
            forall|j: int| 0 <= j < i ==> #[trigger] all[j] != root@,
        decreases all.len() - i,
    {
        assert(all[i as int] == roots@[i as int]@);
        if equal(roots[i].as_str(), root) {
            return true;
        }
        i = i + 1;
    }
    false
}

/// Settle which roots are monitored, given what each configured path resolves to;
/// one that does not resolve is taken as it was asked for.
///
/// Two configured paths may name the same directory, one of them through a symlink.
/// It is monitored once. The walk does not follow a symlinked root and a watcher
/// does, so both have to go by the roots that come out here: otherwise every file
/// under such a root would flip between created and deleted for ever.
///
/// Gives the roots to monitor, and each path that was asked for and named one of
/// them again.
pub fn resolve_roots(asked: &[String], resolved: &[Option<String>]) -> (result: (
    Vec<String>,
    Vec<(String, String)>,
))
    requires
        asked@.len() == resolved@.len(),
    ensures
        texts(result.0@) == kept_roots(texts(asked@), optional_texts(resolved@)),
        text_pairs(result.1@) == collapsed_roots(texts(asked@), optional_texts(resolved@)),
{
    let ghost paths = texts(asked@);
    let ghost found = optional_texts(resolved@);
    let mut kept: Vec<String> = Vec::new();
    let mut collapsed: Vec<(String, String)> = Vec::new();
    let mut i: usize = 0;
    assert(paths.take(0) =~= seq![]);
    assert(texts(kept@) =~= seq![]);
    assert(text_pairs(collapsed@) =~= seq![]);
    while i < asked.len()
        invariant
            asked@.len() == resolved@.len(),
            paths == texts(asked@),
            found == optional_texts(resolved@),
            i <= paths.len(),
            texts(kept@) == kept_roots(paths.take(i as int), found.take(i as int)),
            text_pairs(collapsed@) == collapsed_roots(paths.take(i as int), found.take(i as int)),
        decreases paths.len() - i,
    {
        assert(paths[i as int] == asked@[i as int]@);
        assert(found[i as int] == optional_text(resolved@[i as int]));
        assert(paths.take(i + 1).drop_last() =~= paths.take(i as int));
        assert(found.take(i + 1).drop_last() =~= found.take(i as int));
        let root = match &resolved[i] {
            Some(path) => path.clone(),
            None => asked[i].clone(),
        };
        assert(root@ == root_of(paths[i as int], found[i as int]));
        if holds_root(&kept, root.as_str()) {
            let ghost before = collapsed@;
            collapsed.push((asked[i].clone(), root));
            assert(text_pairs(collapsed@) =~= text_pairs(before).push((paths[i as int], root@)));
        } else {
            let ghost before = kept@;
            kept.push(root);
            assert(texts(kept@) =~= texts(before).push(root@));
        }
        i = i + 1;
    }
    assert(paths.take(i as int) =~= paths);
    assert(found.take(i as int) =~= found);
    (kept, collapsed)
}

/// Each configured path names a root that is monitored, none is monitored twice, and
/// each path either brought its root in or is reported as collapsed.
pub proof fn law_each_root_is_monitored_once(
    asked: Seq<Seq<char>>,
    resolved: Seq<Option<Seq<char>>>,
)
    requires
        asked.len() == resolved.len(),
    ensures
        kept_roots(asked, resolved).no_duplicates(),
        forall|i: int|
            0 <= i < asked.len() ==> kept_roots(asked, resolved).contains(
                root_of(#[trigger] asked[i], resolved[i]),
            ),
        kept_roots(asked, resolved).len() + collapsed_roots(asked, resolved).len() == asked.len(),
    decreases asked.len(),
{
    if asked.len() > 0 {
        let before = kept_roots(asked.drop_last(), resolved.drop_last());
        let after = kept_roots(asked, resolved);
        law_each_root_is_monitored_once(asked.drop_last(), resolved.drop_last());
        assert forall|i: int| 0 <= i < asked.len() implies after.contains(
            root_of(#[trigger] asked[i], resolved[i]),
        ) by {
            let root = root_of(asked[i], resolved[i]);
            if i < asked.len() - 1 {
                assert(asked.drop_last()[i] == asked[i]);
                let k = choose|k: int| 0 <= k < before.len() && before[k] == root;
                assert(after[k] == root);
            } else if !before.contains(root) {
                assert(after.last() == root);
            }
        }
    }
}

/// What a look at a path found.
#[derive(Debug)]
pub enum Inspected {
    /// A regular file in this state.
    File(FileRecord),
    /// No regular file to track: gone, a directory, a symlink, a device node.
    /// Symlinks are deliberately not followed: a symlink swapped under a watched
    /// path must not lead to reports on something outside the monitored set.
    NotAFile,
    /// It could not be looked at.
    Unreadable,
}

/// What a look at a path found.
pub enum InspectedModel {
    /// A regular file in this state.
    File(RecordModel),
    /// No regular file to track.
    NotAFile,
    /// It could not be looked at.
    Unreadable,
}

impl View for Inspected {
    type V = InspectedModel;

    open spec fn view(&self) -> InspectedModel {
        match self {
            Inspected::File(record) => InspectedModel::File(record@),
            Inspected::NotAFile => InspectedModel::NotAFile,
            Inspected::Unreadable => InspectedModel::Unreadable,
        }
    }
}

/// Whether a file is small enough to be hashed.
pub fn is_hashed(size: u64, max_file_bytes: u64) -> (yes: bool)
    ensures
        yes == (size <= max_file_bytes),
{
    size <= max_file_bytes
}

/// The event of a change to a file that is there.
pub open spec fn changed(
    path: Seq<char>,
    change: FileChange,
    previous_sha256: Option<Seq<char>>,
    current: RecordModel,
    detected_by: FimDetection,
) -> FimModel {
    FimModel {
        path,
        change,
        detected_by,
        size: Some(current.size),
        sha256: current.sha256,
        previous_sha256,
        mode: Some(current.mode),
        uid: Some(current.uid),
        gid: Some(current.gid),
    }
}

/// The event of a file that is gone. What it used to be is the only evidence
/// left.
pub open spec fn deleted(
    path: Seq<char>,
    previous_sha256: Option<Seq<char>>,
    detected_by: FimDetection,
) -> FimModel {
    FimModel {
        path,
        change: FileChange::Deleted,
        detected_by,
        size: None,
        sha256: None,
        previous_sha256,
        mode: None,
        uid: None,
        gid: None,
    }
}

/// Whether the contents of a file changed: by their hashes, and by the size where
/// one of them is missing.
pub open spec fn content_changed(previous: RecordModel, current: RecordModel) -> bool {
    match (previous.sha256, current.sha256) {
        (Some(before), Some(after)) => before != after,
        _ => previous.size != current.size,
    }
}

/// How a file differs from what was known of it. Content changes outrank
/// attribute changes: if the bytes moved, that is the finding.
pub open spec fn difference_of(
    path: Seq<char>,
    previous: Option<RecordModel>,
    current: RecordModel,
    detected_by: FimDetection,
) -> Option<FimModel> {
    match previous {
        None => Some(changed(path, FileChange::Created, None, current, detected_by)),
        Some(previous) => if content_changed(previous, current) {
            Some(changed(path, FileChange::Modified, previous.sha256, current, detected_by))
        } else if previous.mode != current.mode || previous.uid != current.uid || previous.gid
            != current.gid {
            Some(
                changed(path, FileChange::AttributesChanged, previous.sha256, current, detected_by),
            )
        } else {
            None
        },
    }
}

fn copied(text: &Option<String>) -> (copy: Option<String>)
    ensures
        optional_text(copy) == optional_text(*text),
{
    match text {
        Some(text) => Some(text.clone()),
        None => None,
    }
}

fn change_event(
    path: &str,
    change: FileChange,
    previous_sha256: Option<String>,
    current: &FileRecord,
    detected_by: FimDetection,
) -> (event: FimEvent)
    ensures
        event@ == changed(path@, change, optional_text(previous_sha256), current@, detected_by),
{
    FimEvent {
        path: owned(path),
        change,
        detected_by,
        size: Some(current.size),
        sha256: copied(&current.sha256),
        previous_sha256,
        mode: Some(current.mode),
        uid: Some(current.uid),
        gid: Some(current.gid),
    }
}

fn deletion_event(path: &str, previous_sha256: Option<String>, detected_by: FimDetection) -> (event:
    FimEvent)
    ensures
        event@ == deleted(path@, optional_text(previous_sha256), detected_by),
{
    FimEvent {
        path: owned(path),
        change: FileChange::Deleted,
        detected_by,
        size: None,
        sha256: None,
        previous_sha256,
        mode: None,
        uid: None,
        gid: None,
    }
}

/// What an optional record says.
pub open spec fn optional_record(record: Option<&FileRecord>) -> Option<RecordModel> {
    match record {
        Some(record) => Some(record@),
        None => None,
    }
}

/// What an optional event says.
pub open spec fn optional_event(event: Option<FimEvent>) -> Option<FimModel> {
    match event {
        Some(event) => Some(event@),
        None => None,
    }
}

/// Compare a file against its baseline entry.
///
/// Both hashes are carried on the event so an analyst can tell a real edit from a
/// `touch`. An unhashable file falls back to size: a coarse signal, but better
/// than none, and the absent hash says which it was.
pub fn difference(
    path: &str,
    previous: Option<&FileRecord>,
    current: &FileRecord,
    detected_by: FimDetection,
) -> (event: Option<FimEvent>)
    ensures
        optional_event(event) == difference_of(
            path@,
            optional_record(previous),
            current@,
            detected_by,
        ),
{
    let previous = match previous {
        Some(previous) => previous,
        None => return Some(change_event(path, FileChange::Created, None, current, detected_by)),
    };
    let moved = match (&previous.sha256, &current.sha256) {
        (Some(before), Some(after)) => !equal(before.as_str(), after.as_str()),
        _ => previous.size != current.size,
    };
    if moved {
        return Some(
            change_event(
                path,
                FileChange::Modified,
                copied(&previous.sha256),
                current,
                detected_by,
            ),
        );
    }
    if previous.mode != current.mode || previous.uid != current.uid || previous.gid != current.gid {
        return Some(
            change_event(
                path,
                FileChange::AttributesChanged,
                copied(&previous.sha256),
                current,
                detected_by,
            ),
        );
    }
    None
}

/// The models of events.
pub open spec fn event_models(events: Seq<FimEvent>) -> Seq<FimModel> {
    events.map_values(|event: FimEvent| event@)
}

/// A rescan as far as it has got.
pub struct ScanModel {
    /// How its findings are marked.
    pub detected_by: FimDetection,
    /// It is the first one: it establishes the baseline and reports nothing.
    pub establishing: bool,
    /// The files it came to, in order.
    pub seen: Seq<Seq<char>>,
    /// The differences found.
    pub events: Seq<FimModel>,
    /// Files compared.
    pub files_seen: nat,
    /// What had to be left out.
    pub limits: WalkLimits,
}

/// A rescan as far as it has got.
#[derive(Debug)]
pub struct Scan {
    detected_by: FimDetection,
    establishing: bool,
    seen: Vec<String>,
    events: Vec<FimEvent>,
    files_seen: u64,
    limits: WalkLimits,
}

impl View for Scan {
    type V = ScanModel;

    closed spec fn view(&self) -> ScanModel {
        ScanModel {
            detected_by: self.detected_by,
            establishing: self.establishing,
            seen: texts(self.seen@),
            events: event_models(self.events@),
            files_seen: self.files_seen as nat,
            limits: self.limits,
        }
    }
}

/// A rescan that begins.
pub open spec fn begun(
    baseline: BaselineModel,
    limits: WalkLimits,
    detected_by: FimDetection,
) -> ScanModel {
    ScanModel {
        detected_by,
        establishing: baseline.paths.len() == 0,
        seen: seq![],
        events: seq![],
        files_seen: 0,
        limits,
    }
}

/// A rescan and its baseline after one more file.
pub open spec fn observed(
    baseline: BaselineModel,
    scan: ScanModel,
    path: Seq<char>,
    found: InspectedModel,
) -> (BaselineModel, ScanModel) {
    let reached = ScanModel {
        seen: with_text(scan.seen, path),
        files_seen: scan.files_seen + 1,
        ..scan
    };
    match found {
        InspectedModel::NotAFile => (baseline, reached),
        InspectedModel::Unreadable => (
            baseline,
            ScanModel {
                limits: WalkLimits {
                    unreadable: (scan.limits.unreadable + 1) as u64,
                    ..scan.limits
                },
                ..reached
            },
        ),
        InspectedModel::File(current) => (
            baseline.recording(path, stored(current)),
            if scan.establishing {
                reached
            } else {
                match difference_of(path, baseline.known(path), current, scan.detected_by) {
                    Some(event) => ScanModel { events: scan.events.push(event), ..reached },
                    None => reached,
                }
            },
        ),
    }
}

/// A rescan and its baseline after files that the baseline knows, from a place
/// on: those that the rescan did not come to are gone.
pub open spec fn swept(
    baseline: BaselineModel,
    scan: ScanModel,
    known: Seq<Seq<char>>,
    i: int,
) -> (BaselineModel, ScanModel)
    decreases known.len() - i,
{
    if i < 0 || i >= known.len() {
        (baseline, scan)
    } else if scan.seen.contains(known[i]) {
        swept(baseline, scan, known, i + 1)
    } else {
        let lost = match baseline.known(known[i]) {
            Some(record) => record.sha256,
            None => None,
        };
        swept(
            baseline.forgetting(known[i]),
            ScanModel {
                events: scan.events.push(deleted(known[i], lost, scan.detected_by)),
                ..scan
            },
            known,
            i + 1,
        )
    }
}

/// A rescan and its baseline after the roots from a place on were searched for
/// deletions.
pub open spec fn swept_roots(
    baseline: BaselineModel,
    scan: ScanModel,
    roots: Seq<Seq<char>>,
    i: int,
) -> (BaselineModel, ScanModel)
    decreases roots.len() - i,
{
    if i < 0 || i >= roots.len() {
        (baseline, scan)
    } else {
        let (after, told) = swept(baseline, scan, baseline.starting(roots[i]), 0);
        swept_roots(after, told, roots, i + 1)
    }
}

/// A rescan and its baseline at the end. Anything the baseline knows under a
/// watched root that the walk did not reach has been deleted, unless something
/// was left out: that means "not looked at", not "gone".
pub open spec fn finished(
    baseline: BaselineModel,
    scan: ScanModel,
    roots: Seq<Seq<char>>,
    abandoned: bool,
) -> (BaselineModel, ScanModel) {
    if abandoned {
        (baseline, ScanModel { limits: WalkLimits { abandoned: true, ..scan.limits }, ..scan })
    } else if !scan.establishing && !scan.limits.left_out() {
        swept_roots(baseline, scan, roots, 0)
    } else {
        (baseline, scan)
    }
}

/// A rescan and its baseline after files.
pub open spec fn observed_all(
    baseline: BaselineModel,
    scan: ScanModel,
    files: Seq<(Seq<char>, InspectedModel)>,
) -> (BaselineModel, ScanModel)
    decreases files.len(),
{
    if files.len() == 0 {
        (baseline, scan)
    } else {
        let (before, so_far) = observed_all(baseline, scan, files.drop_last());
        observed(before, so_far, files.last().0, files.last().1)
    }
}

/// A whole rescan.
pub open spec fn rescanned(
    baseline: BaselineModel,
    roots: Seq<Seq<char>>,
    files: Seq<(Seq<char>, InspectedModel)>,
    limits: WalkLimits,
    detected_by: FimDetection,
    abandoned: bool,
) -> (BaselineModel, ScanModel) {
    let (after, scan) = observed_all(baseline, begun(baseline, limits, detected_by), files);
    finished(after, scan, roots, abandoned)
}

/// What a rescan produced.
#[derive(Debug)]
pub struct RescanOutcome {
    /// The differences found, ready to emit.
    pub events: Vec<FimEvent>,
    /// Files compared.
    pub files_seen: u64,
    /// What the walk had to leave out.
    pub limits: WalkLimits,
}

impl Default for RescanOutcome {
    fn default() -> (outcome: Self)
        ensures
            event_models(outcome.events@) == Seq::<FimModel>::empty(),
            outcome.files_seen == 0,
            outcome.limits == WalkLimits::none(),
    {
        let outcome = Self { events: Vec::new(), files_seen: 0, limits: WalkLimits::default() };
        assert(event_models(outcome.events@) =~= Seq::<FimModel>::empty());
        outcome
    }
}

/// What a rescan produced, as a rescan reports it.
pub open spec fn reports(outcome: RescanOutcome, scan: ScanModel) -> bool {
    &&& event_models(outcome.events@) == scan.events
    &&& outcome.files_seen == scan.files_seen
    &&& outcome.limits == scan.limits
}

/// A file that a walk came to, and what was found there.
#[derive(Debug)]
pub struct WalkedFile {
    /// The file.
    pub path: String,
    /// What was found there.
    pub found: Inspected,
}

/// The models of walked files.
pub open spec fn walked_models(files: Seq<WalkedFile>) -> Seq<(Seq<char>, InspectedModel)> {
    files.map_values(|file: WalkedFile| (file.path@, file.found@))
}

/// What a real-time notification of a path leads to, once it has been looked at.
/// A notification says that *something happened here*; comparing with the
/// baseline says *what changed*.
pub open spec fn rechecked(
    baseline: BaselineModel,
    roots: Seq<Seq<char>>,
    path: Seq<char>,
    found: InspectedModel,
) -> (BaselineModel, Option<FimModel>) {
    if !watches(roots, path) {
        (baseline, None)
    } else {
        match found {
            InspectedModel::File(current) => (
                baseline.recording(path, stored(current)),
                difference_of(path, baseline.known(path), current, FimDetection::RealTime),
            ),
            InspectedModel::NotAFile => match baseline.known(path) {
                Some(previous) => (
                    baseline.forgetting(path),
                    Some(deleted(path, previous.sha256, FimDetection::RealTime)),
                ),
                None => (baseline, None),
            },
            InspectedModel::Unreadable => (baseline, None),
        }
    }
}

/// Whether a path falls under a configured root.
pub open spec fn watches(roots: Seq<Seq<char>>, path: Seq<char>) -> bool {
    exists|i: int| 0 <= i < roots.len() && is_under(path, #[trigger] roots[i])
}

/// The baseline comparator.
///
/// Deliberately separate from the watcher: this half needs no kernel support,
/// which is what lets it run on a machine where real-time watching failed
/// entirely.
#[derive(Debug)]
pub struct Monitor {
    settings: FimSettings,
    baseline: Baseline,
}

impl Monitor {
    /// The configured roots.
    pub open spec fn roots(self) -> Seq<Seq<char>> {
        self.set_to()@.paths
    }

    /// What the baseline holds.
    pub closed spec fn held(self) -> BaselineModel {
        self.baseline@
    }

    /// The configuration in force.
    pub closed spec fn set_to(self) -> FimSettings {
        self.settings
    }

    /// Build a monitor over an open baseline.
    pub fn new(settings: FimSettings, baseline: Baseline) -> (monitor: Self)
        ensures
            monitor.held() == baseline@,
            monitor.set_to() == settings,
    {
        Self { settings, baseline }
    }

    /// The configuration in force.
    pub fn settings(&self) -> (settings: &FimSettings)
        ensures
            *settings == self.set_to(),
    {
        &self.settings
    }

    /// The baseline.
    pub fn baseline(&self) -> (baseline: &Baseline)
        ensures
            baseline@ == self.held(),
    {
        &self.baseline
    }

    /// Whether a path falls under a configured root.
    ///
    /// A watcher is set on directories, so it reports paths that nobody asked
    /// about; this keeps the monitored set to what was configured.
    pub fn is_watched(&self, path: &str) -> (watched: bool)
        ensures
            watched == watches(self.roots(), path@),
    {
        let ghost roots = self.roots();
        let mut i: usize = 0;
        while i < self.settings.paths.len()
            invariant
                roots == self.roots(),
                i <= roots.len(),
                forall|j: int| 0 <= j < i ==> !is_under(path@, #[trigger] roots[j]),
            decreases roots.len() - i,
        {
            assert(roots[i as int] == self.settings.paths@[i as int]@);
            if under(path, self.settings.paths[i].as_str()) {
                assert(is_under(path@, roots[i as int]));
                return true;
            }
            i = i + 1;
        }
        false
    }

    /// Begin a rescan behind a walk that left out what `limits` says.
    ///
    /// The **first** rescan of an empty baseline establishes it and reports
    /// nothing. Every file on the box is not a thousand alerts; it is the
    /// starting position.
    pub fn begin(&self, limits: WalkLimits, detected_by: FimDetection) -> (scan: Scan)
        ensures
            scan@ == begun(self.held(), limits, detected_by),
            is_sorted(scan@.seen),
    {
        let scan = Scan {
            detected_by,
            establishing: self.baseline.is_empty(),
            seen: Vec::new(),
            events: Vec::new(),
            files_seen: 0,
            limits,
        };
        assert(scan@.seen =~= seq![]);
        assert(scan@.events =~= seq![]);
        scan
    }

    /// Take in what was found at one path of the walk.
    pub fn observe(&mut self, scan: &mut Scan, path: &str, found: &Inspected)
        requires
            old(self).held().well_formed(),
            is_sorted(old(scan)@.seen),
            old(scan)@.files_seen < u64::MAX,
            old(scan)@.limits.unreadable < u64::MAX,
        ensures
            (final(self).held(), final(scan)@) == observed(
                old(self).held(),
                old(scan)@,
                path@,
                found@,
            ),
            final(self).set_to() == old(self).set_to(),
            final(self).roots() == old(self).roots(),
            final(self).held().well_formed(),
            is_sorted(final(scan)@.seen),
    {
        put_text(&mut scan.seen, owned(path));
        scan.files_seen = scan.files_seen + 1;
        match found {
            Inspected::NotAFile => {},
            Inspected::Unreadable => {
                scan.limits.unreadable = scan.limits.unreadable + 1;
            },
            Inspected::File(current) => {
                if !scan.establishing {
                    let event = difference(
                        path,
                        self.baseline.get(path),
                        current,
                        scan.detected_by,
                    );
                    if let Some(event) = event {
                        let ghost before = scan.events@;
                        let ghost model = event@;
                        scan.events.push(event);
                        assert(event_models(scan.events@) =~= event_models(before).push(model));
                    }
                }
                self.baseline.put(path, current);
            },
        }
    }

    fn sweep_known(&mut self, scan: &mut Scan, known: &Vec<String>)
        requires
            old(self).held().well_formed(),
            is_sorted(old(scan)@.seen),
        ensures
            (final(self).held(), final(scan)@) == swept(
                old(self).held(),
                old(scan)@,
                texts(known@),
                0,
            ),
            final(self).set_to() == old(self).set_to(),
            final(self).roots() == old(self).roots(),
            final(self).held().well_formed(),
            is_sorted(final(scan)@.seen),
    {
        let ghost all = texts(known@);
        let ghost goal = swept(self.held(), scan@, all, 0);
        let mut i: usize = 0;
        while i < known.len()
            invariant
                all == texts(known@),
                i <= all.len(),
                self.held().well_formed(),
                is_sorted(scan@.seen),
                self.set_to() == old(self).set_to(),
                self.roots() == old(self).roots(),
                swept(self.held(), scan@, all, i as int) == goal,
            decreases all.len() - i,
        {
            assert(all[i as int] == known@[i as int]@);
            let path = known[i].as_str();
            if !holds_text(&scan.seen, path) {
                let lost = match self.baseline.get(path) {
                    Some(record) => copied(&record.sha256),
                    None => None,
                };
                let event = deletion_event(path, lost, scan.detected_by);
                let ghost before = scan.events@;
                let ghost model = event@;
                self.baseline.remove(path);
                scan.events.push(event);
                assert(event_models(scan.events@) =~= event_models(before).push(model));
            }
            i = i + 1;
        }
    }

    /// End a rescan: find what is gone, unless it was abandoned or left anything
    /// out.
    ///
    /// An abandoned rescan is treated exactly like one that hit a bound: partial
    /// results, and therefore no deletions inferred. What was recorded still
    /// counts, so the next run starts from a better point.
    pub fn finish(&mut self, scan: Scan, abandoned: bool) -> (outcome: RescanOutcome)
        requires
            old(self).held().well_formed(),
            is_sorted(scan@.seen),
        ensures
            ({
                let (baseline, told) = finished(
                    old(self).held(),
                    scan@,
                    old(self).roots(),
                    abandoned,
                );
                &&& final(self).held() == baseline
                &&& reports(outcome, told)
            }),
            final(self).set_to() == old(self).set_to(),
            final(self).roots() == old(self).roots(),
            final(self).held().well_formed(),
    {
        let mut scan = scan;
        if abandoned {
            // Abandoned, not finished. Saying so is what stops "stopped looking"
            // from being read as "everything else is gone".
            scan.limits.abandoned = true;
        } else if !scan.establishing && !scan.limits.truncated() {
            let ghost roots = self.roots();
            let ghost goal = swept_roots(self.held(), scan@, roots, 0);
            let mut i: usize = 0;
            while i < self.settings.paths.len()
                invariant
                    roots == self.roots(),
                    i <= roots.len(),
                    self.held().well_formed(),
                    is_sorted(scan@.seen),
                    self.set_to() == old(self).set_to(),
                    self.roots() == old(self).roots(),
                    swept_roots(self.held(), scan@, roots, i as int) == goal,
                decreases roots.len() - i,
            {
                assert(roots[i as int] == self.settings.paths@[i as int]@);
                let known = self.baseline.paths_under(self.settings.paths[i].as_str());
                self.sweep_known(&mut scan, &known);
                i = i + 1;
            }
        }
        RescanOutcome { events: scan.events, files_seen: scan.files_seen, limits: scan.limits }
    }

    /// Compare the files that a walk came to with the baseline and report every
    /// difference.
    pub fn rescan(
        &mut self,
        files: &Vec<WalkedFile>,
        limits: WalkLimits,
        detected_by: FimDetection,
    ) -> (outcome: RescanOutcome)
        requires
            old(self).held().well_formed(),
            limits.unreadable + files@.len() <= u64::MAX,
        ensures
            ({
                let (baseline, told) = rescanned(
                    old(self).held(),
                    old(self).roots(),
                    walked_models(files@),
                    limits,
                    detected_by,
                    false,
                );
                &&& final(self).held() == baseline
                &&& reports(outcome, told)
            }),
            final(self).set_to() == old(self).set_to(),
            final(self).roots() == old(self).roots(),
            final(self).held().well_formed(),
    {
        self.rescan_until(files, limits, detected_by, false)
    }

    /// [`Self::rescan`] over the files that were reached before the walk was
    /// asked to stop, where it was.
    pub fn rescan_until(
        &mut self,
        files: &Vec<WalkedFile>,
        limits: WalkLimits,
        detected_by: FimDetection,
        abandoned: bool,
    ) -> (outcome: RescanOutcome)
        requires
            old(self).held().well_formed(),
            limits.unreadable + files@.len() <= u64::MAX,
        ensures
            ({
                let (baseline, told) = rescanned(
                    old(self).held(),
                    old(self).roots(),
                    walked_models(files@),
                    limits,
                    detected_by,
                    abandoned,
                );
                &&& final(self).held() == baseline
                &&& reports(outcome, told)
            }),
            final(self).set_to() == old(self).set_to(),
            final(self).roots() == old(self).roots(),
            final(self).held().well_formed(),
    {
        let ghost all = walked_models(files@);
        let ghost start = self.held();
        let mut scan = self.begin(limits, detected_by);
        let ghost first = scan@;
        let mut i: usize = 0;
        assert(all.take(0) =~= seq![]);
        while i < files.len()
            invariant
                all == walked_models(files@),
                i <= all.len(),
                limits.unreadable + all.len() <= u64::MAX,
                self.held().well_formed(),
                is_sorted(scan@.seen),
                self.set_to() == old(self).set_to(),
                self.roots() == old(self).roots(),
                scan@.files_seen == i,
                scan@.limits.unreadable <= limits.unreadable + i,
                (self.held(), scan@) == observed_all(start, first, all.take(i as int)),
            decreases all.len() - i,
        {
            assert(all[i as int] == (files@[i as int].path@, files@[i as int].found@));
            assert(all.take(i + 1).drop_last() =~= all.take(i as int));
            self.observe(&mut scan, files[i].path.as_str(), &files[i].found);
            i = i + 1;
        }
        assert(all.take(i as int) =~= all);
        self.finish(scan, abandoned)
    }

    /// Re-check a single path, as a real-time notification asks.
    ///
    /// A rename that produced identical bytes is not a modification, and a
    /// notification for an unchanged file produces no event at all.
    pub fn recheck(&mut self, path: &str, found: &Inspected) -> (event: Option<FimEvent>)
        requires
            old(self).held().well_formed(),
        ensures
            (final(self).held(), optional_event(event)) == rechecked(
                old(self).held(),
                old(self).roots(),
                path@,
                found@,
            ),
            final(self).set_to() == old(self).set_to(),
            final(self).roots() == old(self).roots(),
            final(self).held().well_formed(),
    {
        if !self.is_watched(path) {
            return None;
        }
        match found {
            Inspected::File(current) => {
                let event = difference(
                    path,
                    self.baseline.get(path),
                    current,
                    FimDetection::RealTime,
                );
                self.baseline.put(path, current);
                event
            },
            Inspected::NotAFile => {
                // Gone, or never a regular file. Only the former is an event, and
                // only if it was known.
                let lost = match self.baseline.get(path) {
                    Some(previous) => copied(&previous.sha256),
                    None => return None,
                };
                self.baseline.remove(path);
                Some(deletion_event(path, lost, FimDetection::RealTime))
            },
            Inspected::Unreadable => None,
        }
    }
}

// ---------------------------------------------------------------------------
// laws
// ---------------------------------------------------------------------------

proof fn lemma_establishing_reports_nothing(
    baseline: BaselineModel,
    scan: ScanModel,
    files: Seq<(Seq<char>, InspectedModel)>,
)
    requires
        scan.establishing,
    ensures
        observed_all(baseline, scan, files).1.events == scan.events,
        observed_all(baseline, scan, files).1.establishing,
    decreases files.len(),
{
    if files.len() > 0 {
        lemma_establishing_reports_nothing(baseline, scan, files.drop_last());
    }
}

/// The first rescan establishes the baseline and reports nothing, whatever it
/// comes to.
pub proof fn law_the_first_scan_reports_nothing(
    baseline: BaselineModel,
    roots: Seq<Seq<char>>,
    files: Seq<(Seq<char>, InspectedModel)>,
    limits: WalkLimits,
    detected_by: FimDetection,
    abandoned: bool,
)
    requires
        baseline.paths.len() == 0,
    ensures
        rescanned(baseline, roots, files, limits, detected_by, abandoned).1.events.len() == 0,
{
    lemma_establishing_reports_nothing(baseline, begun(baseline, limits, detected_by), files);
}

/// Whether events hold no deletion and all carry a mark.
pub open spec fn no_deletion(events: Seq<FimModel>, detected_by: FimDetection) -> bool {
    forall|i: int|
        0 <= i < events.len() ==> (#[trigger] events[i]).change != FileChange::Deleted
            && events[i].detected_by == detected_by
}

proof fn lemma_observing_deletes_nothing(
    baseline: BaselineModel,
    scan: ScanModel,
    files: Seq<(Seq<char>, InspectedModel)>,
)
    requires
        no_deletion(scan.events, scan.detected_by),
        scan.limits.unreadable + files.len() <= u64::MAX,
    ensures
        ({
            let after = observed_all(baseline, scan, files).1;
            &&& no_deletion(after.events, scan.detected_by)
            &&& after.detected_by == scan.detected_by
            &&& scan.limits.left_out() ==> after.limits.left_out()
            &&& after.limits.unreadable <= scan.limits.unreadable + files.len()
            &&& after.limits.unreadable >= scan.limits.unreadable
            &&& (exists|i: int| 0 <= i < files.len() && (#[trigger] files[i]).1 is Unreadable)
                ==> after.limits.left_out()
        }),
    decreases files.len(),
{
    if files.len() > 0 {
        lemma_observing_deletes_nothing(baseline, scan, files.drop_last());
        let (before, so_far) = observed_all(baseline, scan, files.drop_last());
        if exists|i: int| 0 <= i < files.len() && (#[trigger] files[i]).1 is Unreadable {
            let i = choose|i: int| 0 <= i < files.len() && (#[trigger] files[i]).1 is Unreadable;
            if i < files.len() - 1 {
                assert(files.drop_last()[i].1 is Unreadable);
            }
        }
    }
}

/// A rescan that was abandoned, hit a bound or could not read something infers
/// no deletion: it did not look, the files did not vanish. And every finding
/// says how it was found.
pub proof fn law_a_truncated_scan_reports_no_deletion(
    baseline: BaselineModel,
    roots: Seq<Seq<char>>,
    files: Seq<(Seq<char>, InspectedModel)>,
    limits: WalkLimits,
    detected_by: FimDetection,
    abandoned: bool,
)
    requires
        limits.unreadable + files.len() <= u64::MAX,
        abandoned || limits.left_out() || exists|i: int|
            0 <= i < files.len() && (#[trigger] files[i]).1 is Unreadable,
    ensures
        ({
            let told = rescanned(baseline, roots, files, limits, detected_by, abandoned).1;
            &&& no_deletion(told.events, detected_by)
            &&& told.limits.left_out()
        }),
{
    lemma_observing_deletes_nothing(baseline, begun(baseline, limits, detected_by), files);
}

/// A second notification for the same deletion is not a second deletion.
pub proof fn law_a_deletion_is_reported_once(
    baseline: BaselineModel,
    roots: Seq<Seq<char>>,
    path: Seq<char>,
)
    requires
        baseline.well_formed(),
    ensures
        ({
            let after = rechecked(baseline, roots, path, InspectedModel::NotAFile).0;
            rechecked(after, roots, path, InspectedModel::NotAFile).1 is None
        }),
{
    law_a_baseline_remembers(baseline, path, baseline.records[0], path);
}

/// Regular files in a given state.
pub open spec fn as_found(files: Seq<(Seq<char>, RecordModel)>) -> Seq<
    (Seq<char>, InspectedModel),
> {
    files.map_values(
        |file: (Seq<char>, RecordModel)| (file.0, InspectedModel::File(file.1)),
    )
}

/// Whether a path is among the first so many files.
spec fn among(files: Seq<(Seq<char>, RecordModel)>, n: int, path: Seq<char>) -> bool {
    exists|i: int| 0 <= i < n && (#[trigger] files[i]).0 == path
}

/// Whether files have different paths, and sizes that the store can hold.
pub open spec fn distinct_files(files: Seq<(Seq<char>, RecordModel)>) -> bool {
    &&& forall|i: int, j: int|
        0 <= i < j < files.len() ==> (#[trigger] files[i]).0 != (#[trigger] files[j]).0
    &&& forall|i: int| 0 <= i < files.len() ==> (#[trigger] files[i]).1.size <= i64::MAX
}

proof fn lemma_with_text(list: Seq<Seq<char>>, text: Seq<char>, other: Seq<char>)
    requires
        is_sorted(list),
    ensures
        is_sorted(with_text(list, text)),
        with_text(list, text).contains(other) <==> list.contains(other) || other == text,
{
    if !list.contains(text) {
        crate::sorted::lemma_insert_keeps_order(list, text);
        crate::sorted::lemma_found_at_rank(list, text);
        let k = crate::sorted::rank(list, text) as int;
        let after = list.insert(k, text);
        assert(after[k] == text);
        if list.contains(other) {
            let i = choose|i: int| 0 <= i < list.len() && list[i] == other;
            if i < k {
                assert(after[i] == other);
            } else {
                assert(after[i + 1] == other);
            }
        }
        if after.contains(other) && other != text {
            let i = choose|i: int| 0 <= i < after.len() && after[i] == other;
            if i < k {
                assert(list[i] == other);
            } else {
                assert(list[i - 1] == other);
            }
        }
    }
}

/// What a rescan of regular files leaves behind.
proof fn lemma_observed_files(
    baseline: BaselineModel,
    scan: ScanModel,
    files: Seq<(Seq<char>, RecordModel)>,
    n: int,
    path: Seq<char>,
)
    requires
        0 <= n <= files.len(),
        baseline.well_formed(),
        is_sorted(scan.seen),
        distinct_files(files),
    ensures
        ({
            let (after, told) = observed_all(baseline, scan, as_found(files).take(n));
            &&& after.well_formed()
            &&& is_sorted(told.seen)
            &&& told.limits == scan.limits
            &&& told.establishing == scan.establishing
            &&& told.detected_by == scan.detected_by
            &&& told.seen.contains(path) <==> scan.seen.contains(path) || among(files, n, path)
            &&& !among(files, n, path) ==> after.known(path) == baseline.known(path)
            &&& forall|i: int|
                0 <= i < n && (#[trigger] files[i]).0 == path ==> after.known(path) == Some(
                    files[i].1,
                )
        }),
    decreases n,
{
    let found = as_found(files);
    if n == 0 {
        assert(found.take(0) =~= seq![]);
    } else {
        lemma_observed_files(baseline, scan, files, n - 1, path);
        lemma_observed_files(baseline, scan, files, n - 1, files[n - 1].0);
        assert(found.take(n).drop_last() =~= found.take(n - 1));
        assert(found.take(n).last() == (files[n - 1].0, InspectedModel::File(files[n - 1].1)));
        let (before, so_far) = observed_all(baseline, scan, found.take(n - 1));
        let last = files[n - 1];
        assert(stored(last.1) == last.1);
        law_a_baseline_remembers(before, last.0, last.1, path);
        lemma_with_text(so_far.seen, last.0, path);
        if path == last.0 {
            assert(files[n - 1].0 == path);
        } else {
            if among(files, n, path) {
                let i = choose|i: int| 0 <= i < n && (#[trigger] files[i]).0 == path;
                assert(i < n - 1);
                assert(files[i].0 == path);
            }
            if among(files, n - 1, path) {
                let i = choose|i: int| 0 <= i < n - 1 && (#[trigger] files[i]).0 == path;
                assert(files[i].0 == path);
            }
        }
    }
}

proof fn lemma_starting(paths: Seq<Seq<char>>, prefix: Seq<char>, path: Seq<char>)
    ensures
        starting(paths, prefix).contains(path) <==> paths.contains(path) && begins(path, prefix),
    decreases paths.len(),
{
    if paths.len() > 0 {
        let shorter = paths.drop_last();
        let before = starting(shorter, prefix);
        let after = starting(paths, prefix);
        lemma_starting(shorter, prefix, path);
        if paths.contains(path) && begins(path, prefix) {
            let i = choose|i: int| 0 <= i < paths.len() && paths[i] == path;
            if i < paths.len() - 1 {
                assert(shorter[i] == path);
                let j = choose|j: int| 0 <= j < before.len() && before[j] == path;
                assert(after[j] == path);
            } else {
                assert(after.last() == path);
            }
        }
        if after.contains(path) {
            let j = choose|j: int| 0 <= j < after.len() && after[j] == path;
            if begins(paths.last(), prefix) && j == after.len() - 1 {
                assert(paths[paths.len() - 1] == path);
            } else {
                assert(before[j] == path);
                assert(shorter.contains(path));
                let i = choose|i: int| 0 <= i < shorter.len() && shorter[i] == path;
                assert(paths[i] == path);
            }
        }
    }
}

proof fn lemma_swept(
    baseline: BaselineModel,
    scan: ScanModel,
    known: Seq<Seq<char>>,
    i: int,
    path: Seq<char>,
)
    requires
        0 <= i <= known.len(),
        baseline.well_formed(),
    ensures
        ({
            let (after, told) = swept(baseline, scan, known, i);
            &&& after.well_formed()
            &&& told.seen == scan.seen
            &&& told.detected_by == scan.detected_by
            &&& scan.seen.contains(path) ==> after.known(path) == baseline.known(path)
            &&& baseline.known(path) is None ==> after.known(path) is None
            &&& !scan.seen.contains(path) && known.skip(i).contains(path) ==> after.known(path)
                is None
            &&& (forall|k: int| i <= k < known.len() ==> scan.seen.contains(#[trigger] known[k]))
                ==> (after, told) == (baseline, scan)
        }),
    decreases known.len() - i,
{
    if i < known.len() {
        let rest = known.skip(i);
        if rest.contains(path) {
            let k = choose|k: int| 0 <= k < rest.len() && rest[k] == path;
            if k > 0 {
                assert(known.skip(i + 1)[k - 1] == path);
            } else {
                assert(known[i] == path);
            }
        }
        if scan.seen.contains(known[i]) {
            lemma_swept(baseline, scan, known, i + 1, path);
        } else {
            let lost = match baseline.known(known[i]) {
                Some(record) => record.sha256,
                None => None,
            };
            let told = ScanModel {
                events: scan.events.push(deleted(known[i], lost, scan.detected_by)),
                ..scan
            };
            law_a_baseline_remembers(baseline, known[i], baseline.records[0], path);
            lemma_swept(baseline.forgetting(known[i]), told, known, i + 1, path);
        }
    } else {
        assert(known.skip(i) =~= seq![]);
    }
}

proof fn lemma_swept_roots(
    baseline: BaselineModel,
    scan: ScanModel,
    roots: Seq<Seq<char>>,
    i: int,
    path: Seq<char>,
)
    requires
        0 <= i <= roots.len(),
        baseline.well_formed(),
    ensures
        ({
            let (after, told) = swept_roots(baseline, scan, roots, i);
            &&& after.well_formed()
            &&& told.seen == scan.seen
            &&& scan.seen.contains(path) ==> after.known(path) == baseline.known(path)
            &&& baseline.known(path) is None ==> after.known(path) is None
            &&& !scan.seen.contains(path) && (exists|j: int|
                i <= j < roots.len() && begins(path, #[trigger] roots[j])) ==> after.known(path)
                is None
        }),
    decreases roots.len() - i,
{
    if i < roots.len() {
        let known = baseline.starting(roots[i]);
        let (next, told) = swept(baseline, scan, known, 0);
        lemma_swept(baseline, scan, known, 0, path);
        lemma_starting(baseline.paths, roots[i], path);
        assert(known.skip(0) =~= known);
        lemma_swept_roots(next, told, roots, i + 1, path);
        if exists|j: int| i <= j < roots.len() && begins(path, #[trigger] roots[j]) {
            let j = choose|j: int| i <= j < roots.len() && begins(path, #[trigger] roots[j]);
            if j > i {
                assert(begins(path, roots[j]));
            }
        }
    }
}

/// What the second rescan of the same files sees: nothing that differs.
proof fn lemma_observed_again(
    baseline: BaselineModel,
    scan: ScanModel,
    files: Seq<(Seq<char>, RecordModel)>,
    n: int,
    path: Seq<char>,
)
    requires
        0 <= n <= files.len(),
        baseline.well_formed(),
        is_sorted(scan.seen),
        distinct_files(files),
        forall|i: int|
            0 <= i < files.len() ==> baseline.known((#[trigger] files[i]).0) == Some(files[i].1),
    ensures
        ({
            let (after, told) = observed_all(baseline, scan, as_found(files).take(n));
            &&& told.events == scan.events
            &&& after.known(path) == baseline.known(path)
        }),
    decreases n,
{
    let found = as_found(files);
    if n == 0 {
        assert(found.take(0) =~= seq![]);
    } else {
        let last = files[n - 1];
        lemma_observed_again(baseline, scan, files, n - 1, path);
        lemma_observed_again(baseline, scan, files, n - 1, last.0);
        lemma_observed_files(baseline, scan, files, n - 1, path);
        assert(found.take(n).drop_last() =~= found.take(n - 1));
        assert(found.take(n).last() == (last.0, InspectedModel::File(last.1)));
        let (before, so_far) = observed_all(baseline, scan, found.take(n - 1));
        assert(stored(last.1) == last.1);
        law_a_baseline_remembers(before, last.0, last.1, path);
    }
}

proof fn lemma_nothing_to_sweep(
    baseline: BaselineModel,
    scan: ScanModel,
    roots: Seq<Seq<char>>,
    i: int,
)
    requires
        0 <= i <= roots.len(),
        baseline.well_formed(),
        forall|path: Seq<char>, j: int|
            i <= j < roots.len() && #[trigger] baseline.paths.contains(path) && begins(
                path,
                #[trigger] roots[j],
            ) ==> scan.seen.contains(path),
    ensures
        swept_roots(baseline, scan, roots, i) == (baseline, scan),
    decreases roots.len() - i,
{
    if i < roots.len() {
        let known = baseline.starting(roots[i]);
        assert forall|k: int| 0 <= k < known.len() implies scan.seen.contains(
            #[trigger] known[k],
        ) by {
            assert(known.contains(known[k]));
            lemma_starting(baseline.paths, roots[i], known[k]);
            assert(baseline.paths.contains(known[k]) && begins(known[k], roots[i]));
        }
        lemma_swept(baseline, scan, known, 0, roots[i]);
        lemma_nothing_to_sweep(baseline, scan, roots, i + 1);
    }
}

proof fn lemma_starting_is_sorted(paths: Seq<Seq<char>>, prefix: Seq<char>)
    requires
        is_sorted(paths),
    ensures
        is_sorted(starting(paths, prefix)),
    decreases paths.len(),
{
    if paths.len() > 0 {
        let shorter = paths.drop_last();
        assert(is_sorted(shorter));
        lemma_starting_is_sorted(shorter, prefix);
        let before = starting(shorter, prefix);
        let after = starting(paths, prefix);
        if begins(paths.last(), prefix) {
            assert forall|i: int, j: int| 0 <= i < j < after.len() implies precedes(
                #[trigger] after[i],
                #[trigger] after[j],
            ) by {
                assert(after[i] == before[i]);
                if j < before.len() {
                    assert(after[j] == before[j]);
                } else {
                    assert(before.contains(before[i]));
                    lemma_starting(shorter, prefix, before[i]);
                    let k = choose|k: int| 0 <= k < shorter.len() && shorter[k] == before[i];
                    assert(paths[k] == before[i]);
                    assert(precedes(paths[k], paths[paths.len() - 1]));
                }
            }
        }
    }
}

proof fn lemma_swept_count(
    baseline: BaselineModel,
    scan: ScanModel,
    known: Seq<Seq<char>>,
    i: int,
)
    requires
        0 <= i <= known.len(),
        baseline.well_formed(),
        is_sorted(known),
        forall|k: int| i <= k < known.len() ==> baseline.paths.contains(#[trigger] known[k]),
    ensures
        ({
            let (after, told) = swept(baseline, scan, known, i);
            &&& told.events.len() + after.paths.len() <= scan.events.len() + baseline.paths.len()
            &&& after.well_formed()
        }),
    decreases known.len() - i,
{
    if i < known.len() {
        if scan.seen.contains(known[i]) {
            lemma_swept_count(baseline, scan, known, i + 1);
        } else {
            let lost = match baseline.known(known[i]) {
                Some(record) => record.sha256,
                None => None,
            };
            let told = ScanModel {
                events: scan.events.push(deleted(known[i], lost, scan.detected_by)),
                ..scan
            };
            let next = baseline.forgetting(known[i]);
            crate::sorted::lemma_found_at_rank(baseline.paths, known[i]);
            law_a_baseline_remembers(baseline, known[i], baseline.records[0], known[i]);
            assert forall|k: int| i + 1 <= k < known.len() implies next.paths.contains(
                #[trigger] known[k],
            ) by {
                assert(precedes(known[i], known[k]));
                crate::text::lemma_precedes(known[i], known[i], known[i]);
                law_a_baseline_remembers(baseline, known[i], baseline.records[0], known[k]);
                assert(baseline.known(known[k]) is Some);
            }
            lemma_swept_count(next, told, known, i + 1);
        }
    }
}

proof fn lemma_swept_roots_count(
    baseline: BaselineModel,
    scan: ScanModel,
    roots: Seq<Seq<char>>,
    i: int,
)
    requires
        0 <= i <= roots.len(),
        baseline.well_formed(),
    ensures
        ({
            let (after, told) = swept_roots(baseline, scan, roots, i);
            told.events.len() + after.paths.len() <= scan.events.len() + baseline.paths.len()
        }),
    decreases roots.len() - i,
{
    if i < roots.len() {
        let known = baseline.starting(roots[i]);
        lemma_starting_is_sorted(baseline.paths, roots[i]);
        assert forall|k: int| 0 <= k < known.len() implies baseline.paths.contains(
            #[trigger] known[k],
        ) by {
            assert(known.contains(known[k]));
            lemma_starting(baseline.paths, roots[i], known[k]);
        }
        lemma_swept_count(baseline, scan, known, 0);
        let (after, told) = swept(baseline, scan, known, 0);
        lemma_swept_roots_count(after, told, roots, i + 1);
    }
}

proof fn lemma_observed_count(
    baseline: BaselineModel,
    scan: ScanModel,
    files: Seq<(Seq<char>, InspectedModel)>,
)
    requires
        baseline.well_formed(),
    ensures
        ({
            let (after, told) = observed_all(baseline, scan, files);
            &&& told.events.len() <= scan.events.len() + files.len()
            &&& after.paths.len() <= baseline.paths.len() + files.len()
            &&& after.well_formed()
        }),
    decreases files.len(),
{
    if files.len() > 0 {
        lemma_observed_count(baseline, scan, files.drop_last());
        let (before, so_far) = observed_all(baseline, scan, files.drop_last());
        if let InspectedModel::File(current) = files.last().1 {
            crate::sorted::lemma_found_at_rank(before.paths, files.last().0);
            law_a_baseline_remembers(before, files.last().0, stored(current), files.last().0);
        }
    }
}

/// A rescan reports no more events than twice the files it comes to and once the
/// files that were known.
pub proof fn lemma_events_bounded(
    baseline: BaselineModel,
    roots: Seq<Seq<char>>,
    files: Seq<(Seq<char>, InspectedModel)>,
    limits: WalkLimits,
    detected_by: FimDetection,
    abandoned: bool,
)
    requires
        baseline.well_formed(),
    ensures
        rescanned(baseline, roots, files, limits, detected_by, abandoned).1.events.len() <= 2
            * files.len() + baseline.paths.len(),
{
    let first = begun(baseline, limits, detected_by);
    lemma_observed_count(baseline, first, files);
    let (after, scan) = observed_all(baseline, first, files);
    lemma_swept_roots_count(after, scan, roots, 0);
}

/// An unchanged tree produces nothing: once a rescan of some files has been
/// completed, another one of the same files reports no change.
pub proof fn law_an_unchanged_tree_reports_nothing(
    baseline: BaselineModel,
    roots: Seq<Seq<char>>,
    files: Seq<(Seq<char>, RecordModel)>,
    limits: WalkLimits,
    detected_by: FimDetection,
)
    requires
        baseline.well_formed(),
        distinct_files(files),
        !limits.left_out(),
    ensures
        ({
            let after = rescanned(
                baseline,
                roots,
                as_found(files),
                limits,
                detected_by,
                false,
            ).0;
            rescanned(after, roots, as_found(files), limits, detected_by, false).1.events.len() == 0
        }),
{
    let n = files.len() as int;
    let found = as_found(files);
    assert(found.take(n) =~= found);
    let first = begun(baseline, limits, detected_by);
    let (between, scan) = observed_all(baseline, first, found);
    let (after, _) = finished(between, scan, roots, false);
    assert(first.seen =~= seq![]);
    lemma_observed_files(baseline, first, files, n, files[0].0);
    if !scan.establishing {
        lemma_swept_roots(between, scan, roots, 0, files[0].0);
    }
    assert forall|i: int| 0 <= i < n implies after.known((#[trigger] files[i]).0) == Some(
        files[i].1,
    ) by {
        lemma_observed_files(baseline, first, files, n, files[i].0);
        assert(among(files, n, files[i].0));
        if !scan.establishing {
            lemma_swept_roots(between, scan, roots, 0, files[i].0);
        }
    }
    let second = begun(after, limits, detected_by);
    let (later, again) = observed_all(after, second, found);
    assert(second.seen =~= seq![]);
    lemma_observed_again(after, second, files, n, files[0].0);
    lemma_observed_files(after, second, files, n, files[0].0);
    assert(again.events.len() == 0);
    if !again.establishing {
        assert forall|path: Seq<char>, j: int|
            0 <= j < roots.len() && #[trigger] later.paths.contains(path) && begins(
                path,
                #[trigger] roots[j],
            ) implies again.seen.contains(path) by {
            lemma_observed_again(after, second, files, n, path);
            lemma_observed_files(after, second, files, n, path);
            lemma_observed_files(baseline, first, files, n, path);
            assert(after.known(path) is Some);
            if scan.establishing {
                assert(baseline.known(path) is None) by {
                    assert(!baseline.paths.contains(path));
                }
            } else {
                lemma_swept_roots(between, scan, roots, 0, path);
                assert(begins(path, roots[j]));
            }
            assert(among(files, n, path));
        }
        lemma_nothing_to_sweep(later, again, roots, 0);
    }
}

/// Whether two looks at a file found the same contents, as far as can be told: the same
/// hash where both have one, else the same size.
pub open spec fn same_contents(previous: RecordModel, current: RecordModel) -> bool {
    if previous.sha256 is Some && current.sha256 is Some {
        previous.sha256->0 == current.sha256->0
    } else {
        previous.size == current.size
    }
}

/// No change goes unreported, and nothing else is reported: a file that was not known is
/// created, one whose contents differ is modified, and one with the same contents whose
/// mode, owner or group differs has its attributes changed. Only where all of them are
/// the same is there no event. The event says what the file is now and what it hashed
/// to before.
pub proof fn law_every_change_is_reported(
    path: Seq<char>,
    previous: RecordModel,
    current: RecordModel,
    detected_by: FimDetection,
)
    ensures
        ({
            let event = difference_of(path, Some(previous), current, detected_by);
            let same = same_contents(previous, current);
            let owned_alike = previous.mode == current.mode && previous.uid == current.uid
                && previous.gid == current.gid;
            &&& event is None <==> same && owned_alike
            &&& !same ==> event is Some && event->0.change == FileChange::Modified
            &&& same && !owned_alike ==> event is Some && event->0.change
                == FileChange::AttributesChanged
            &&& event matches Some(event) ==> event.previous_sha256 == previous.sha256
                && tells_of(event, path, current, detected_by)
        }),
        difference_of(path, None, current, detected_by) matches Some(event) && event.change
            == FileChange::Created && event.previous_sha256 is None && tells_of(
            event,
            path,
            current,
            detected_by,
        ),
{
}

/// Whether an event says of a path what was found there, and how.
pub open spec fn tells_of(
    event: FimModel,
    path: Seq<char>,
    current: RecordModel,
    detected_by: FimDetection,
) -> bool {
    &&& event.path == path
    &&& event.detected_by == detected_by
    &&& event.size == Some(current.size)
    &&& event.sha256 == current.sha256
    &&& event.mode == Some(current.mode)
    &&& event.uid == Some(current.uid)
    &&& event.gid == Some(current.gid)
}

/// A file that a rescan comes to is remembered as it was found, and reported where it
/// differs, unless this is the scan that establishes the baseline. What is no file or
/// could not be read leaves the baseline alone.
pub proof fn law_a_rescan_remembers_and_reports(
    baseline: BaselineModel,
    scan: ScanModel,
    path: Seq<char>,
    current: RecordModel,
)
    requires
        baseline.well_formed(),
        current.size <= i64::MAX,
        is_sorted(scan.seen),
        scan.limits.unreadable < u64::MAX,
    ensures
        ({
            let (after, told) = observed(baseline, scan, path, InspectedModel::File(current));
            let found = difference_of(path, baseline.known(path), current, scan.detected_by);
            &&& after.known(path) == Some(current)
            &&& scan.establishing ==> told.events == scan.events
            &&& !scan.establishing && found is Some ==> told.events == scan.events.push(found->0)
            &&& !scan.establishing && found is None ==> told.events == scan.events
            &&& told.files_seen == scan.files_seen + 1
            &&& told.seen.contains(path)
        }),
        ({
            let (after, told) = observed(baseline, scan, path, InspectedModel::NotAFile);
            &&& after == baseline
            &&& told.events == scan.events
            &&& told.limits == scan.limits
        }),
        ({
            let (after, told) = observed(baseline, scan, path, InspectedModel::Unreadable);
            &&& after == baseline
            &&& told.events == scan.events
            &&& told.limits.unreadable == scan.limits.unreadable + 1
            &&& told.limits.left_out()
            &&& told.seen.contains(path)
        }),
        observed(baseline, scan, path, InspectedModel::NotAFile).1.seen.contains(path),
{
    law_a_baseline_remembers(baseline, path, stored(current), path);
    lemma_with_text(scan.seen, path, path);
}

/// The scan of an empty baseline establishes it, and any other one reports.
pub proof fn law_only_an_empty_baseline_is_established(
    baseline: BaselineModel,
    limits: WalkLimits,
    detected_by: FimDetection,
)
    ensures
        begun(baseline, limits, detected_by).establishing <==> baseline.paths.len() == 0,
        begun(baseline, limits, detected_by).events.len() == 0,
        begun(baseline, limits, detected_by).files_seen == 0,
        begun(baseline, limits, detected_by).detected_by == detected_by,
        begun(baseline, limits, detected_by).limits == limits,
{
}

/// Whether an event says that a path is gone.
pub open spec fn says_gone(event: FimModel, path: Seq<char>) -> bool {
    &&& event.path == path
    &&& event.change == FileChange::Deleted
    &&& event.size is None
    &&& event.sha256 is None
}

/// Whether some event says that a path is gone.
pub open spec fn reports_gone(events: Seq<FimModel>, path: Seq<char>) -> bool {
    exists|k: int| 0 <= k < events.len() && says_gone(#[trigger] events[k], path)
}

proof fn lemma_gone(
    baseline: BaselineModel,
    scan: ScanModel,
    known: Seq<Seq<char>>,
    i: int,
    path: Seq<char>,
)
    requires
        0 <= i,
        baseline.well_formed(),
    ensures
        swept(baseline, scan, known, i).0.well_formed(),
        swept(baseline, scan, known, i).1.seen == scan.seen,
        swept(baseline, scan, known, i).1.detected_by == scan.detected_by,
        reports_gone(scan.events, path) ==> reports_gone(
            swept(baseline, scan, known, i).1.events,
            path,
        ),
        baseline.known(path) is None ==> swept(baseline, scan, known, i).0.known(path) is None,
        (exists|j: int| i <= j < known.len() && #[trigger] known[j] == path)
            && !scan.seen.contains(path) ==> {
            &&& reports_gone(swept(baseline, scan, known, i).1.events, path)
            &&& swept(baseline, scan, known, i).0.known(path) is None
        },
        scan.seen.contains(path) ==> swept(baseline, scan, known, i).0.known(path)
            == baseline.known(path),
        !(exists|j: int| i <= j < known.len() && #[trigger] known[j] == path) ==> swept(
            baseline,
            scan,
            known,
            i,
        ).0.known(path) == baseline.known(path),
    decreases known.len() - i,
{
    if i < known.len() {
        if scan.seen.contains(known[i]) {
            lemma_gone(baseline, scan, known, i + 1, path);
        } else {
            let lost = match baseline.known(known[i]) {
                Some(record) => record.sha256,
                None => None,
            };
            let event = deleted(known[i], lost, scan.detected_by);
            let told = ScanModel { events: scan.events.push(event), ..scan };
            law_a_baseline_remembers(baseline, known[i], baseline.records[0], path);
            lemma_gone(baseline.forgetting(known[i]), told, known, i + 1, path);
            if reports_gone(scan.events, path) {
                let k = choose|k: int|
                    0 <= k < scan.events.len() && says_gone(#[trigger] scan.events[k], path);
                assert(told.events[k] == scan.events[k]);
            }
            if known[i] == path {
                assert(told.events[scan.events.len() as int] == event);
                assert(says_gone(told.events[scan.events.len() as int], path));
            }
        }
    }
}

proof fn lemma_gone_roots(
    baseline: BaselineModel,
    scan: ScanModel,
    roots: Seq<Seq<char>>,
    i: int,
    path: Seq<char>,
)
    requires
        0 <= i,
        baseline.well_formed(),
    ensures
        ({
            let (after, told) = swept_roots(baseline, scan, roots, i);
            &&& reports_gone(scan.events, path) ==> reports_gone(told.events, path)
            &&& baseline.known(path) is None ==> after.known(path) is None
            &&& scan.seen.contains(path) ==> after.known(path) == baseline.known(path)
            &&& baseline.known(path) is Some && !scan.seen.contains(path) && (exists|r: int|
                i <= r < roots.len() && begins(path, #[trigger] roots[r])) ==> reports_gone(
                told.events,
                path,
            ) && after.known(path) is None
        }),
    decreases roots.len() - i,
{
    if i < roots.len() {
        let known = baseline.starting(roots[i]);
        lemma_gone(baseline, scan, known, 0, path);
        let (after, told) = swept(baseline, scan, known, 0);
        lemma_starting_has(baseline.paths, roots[i], path);
        lemma_gone_roots(after, told, roots, i + 1, path);
        if baseline.known(path) is Some && begins(path, roots[i]) && !scan.seen.contains(path) {
            let j = choose|j: int| 0 <= j < known.len() && known[j] == path;
            assert(0 <= j < known.len() && known[j] == path);
        }
    }
}

proof fn lemma_starting_has(paths: Seq<Seq<char>>, prefix: Seq<char>, path: Seq<char>)
    ensures
        paths.contains(path) && begins(path, prefix) ==> exists|j: int|
            0 <= j < starting(paths, prefix).len() && starting(paths, prefix)[j] == path,
    decreases paths.len(),
{
    if paths.len() > 0 && paths.contains(path) && begins(path, prefix) {
        let init = paths.drop_last();
        lemma_starting_has(init, prefix, path);
        let all = starting(paths, prefix);
        if paths.last() == path {
            assert(all[all.len() - 1] == path);
        } else {
            let k = choose|k: int| 0 <= k < paths.len() && paths[k] == path;
            assert(init[k] == path);
            let j = choose|j: int|
                0 <= j < starting(init, prefix).len() && starting(init, prefix)[j] == path;
            assert(all[j] == path);
        }
    }
}

/// A file that the baseline knew under a root and that a complete rescan did not come to
/// is reported as gone and forgotten, and one that it came to is neither.
pub proof fn law_what_a_complete_rescan_misses_is_gone(
    baseline: BaselineModel,
    scan: ScanModel,
    roots: Seq<Seq<char>>,
    path: Seq<char>,
)
    requires
        baseline.well_formed(),
        !scan.establishing,
        !scan.limits.left_out(),
        baseline.known(path) is Some,
    ensures
        ({
            let (after, told) = finished(baseline, scan, roots, false);
            &&& !scan.seen.contains(path) && (exists|r: int|
                0 <= r < roots.len() && begins(path, #[trigger] roots[r])) ==> reports_gone(
                told.events,
                path,
            ) && after.known(path) is None
            &&& scan.seen.contains(path) ==> after.known(path) == baseline.known(path)
        }),
{
    lemma_gone_roots(baseline, scan, roots, 0, path);
}

/// A notification of a path under a root leads to what a look at it says: a file is
/// compared and remembered, a known one that is no longer there is gone and forgotten,
/// and anything else is left alone. A path under no root is not looked at.
pub proof fn law_a_notification_leads_to_what_is_there(
    baseline: BaselineModel,
    roots: Seq<Seq<char>>,
    path: Seq<char>,
    current: RecordModel,
)
    requires
        baseline.well_formed(),
        current.size <= i64::MAX,
    ensures
        watches(roots, path) ==> {
            let (after, event) = rechecked(baseline, roots, path, InspectedModel::File(current));
            &&& after.known(path) == Some(current)
            &&& event == difference_of(
                path,
                baseline.known(path),
                current,
                FimDetection::RealTime,
            )
        },
        watches(roots, path) ==> {
            let (after, event) = rechecked(baseline, roots, path, InspectedModel::NotAFile);
            &&& after.known(path) is None
            &&& event is Some <==> baseline.known(path) is Some
            &&& event matches Some(event) ==> says_gone(event, path) && event.previous_sha256
                == baseline.known(path)->0.sha256 && event.detected_by == FimDetection::RealTime
        },
        rechecked(baseline, roots, path, InspectedModel::Unreadable) == (
            baseline,
            None::<FimModel>,
        ),
        !watches(roots, path) ==> rechecked(baseline, roots, path, InspectedModel::File(current))
            == (baseline, None::<FimModel>) && rechecked(
            baseline,
            roots,
            path,
            InspectedModel::NotAFile,
        ) == (baseline, None::<FimModel>),
        forall|i: int| 0 <= i < roots.len() ==> watches(roots, #[trigger] roots[i]),
{
    law_a_baseline_remembers(baseline, path, stored(current), path);
    assert forall|i: int| 0 <= i < roots.len() implies watches(roots, #[trigger] roots[i]) by {
        super::path::law_being_under_is_nested(roots[i], roots[i], roots[i]);
        assert(is_under(roots[i], roots[i]));
    }
}

/// A root is monitored under the path it resolves to, and under the path that was asked
/// for only where it resolves to none.
pub proof fn law_roots_are_what_they_resolve_to(asked: Seq<char>, resolved: Seq<char>)
    ensures
        kept_roots(seq![asked], seq![Some(resolved)]) == seq![resolved],
        kept_roots(seq![asked], seq![None]) == seq![asked],
        kept_roots(seq![asked, asked], seq![Some(resolved), Some(resolved)]) == seq![resolved],
        collapsed_roots(seq![asked, asked], seq![Some(resolved), Some(resolved)]) == seq![
            (asked, resolved),
        ],
{
    reveal_with_fuel(kept_roots, 3);
    reveal_with_fuel(collapsed_roots, 3);
    let one = seq![asked];
    let found = seq![Some(resolved)];
    let two = seq![asked, asked];
    let both = seq![Some(resolved), Some(resolved)];
    assert(two.drop_last() =~= one && both.drop_last() =~= found);
    assert(one.drop_last() =~= seq![] && found.drop_last() =~= seq![]);
    let none = seq![None::<Seq<char>>];
    assert(none.drop_last() =~= seq![]);
    assert(kept_roots(one, found) =~= seq![resolved]);
    assert(kept_roots(one, none) =~= seq![asked]);
    assert(kept_roots(one, found)[0] == resolved);
    assert(collapsed_roots(two, both) =~= seq![(asked, resolved)]);
}

/// A path is watched where it lies under one of the roots, whichever that is.
pub proof fn law_every_root_is_watched(roots: Seq<Seq<char>>, path: Seq<char>, i: int)
    ensures
        0 <= i < roots.len() && is_under(path, roots[i]) ==> watches(roots, path),
        (forall|k: int| 0 <= k < roots.len() ==> !is_under(path, #[trigger] roots[k])) ==> !watches(
            roots,
            path,
        ),
{
}

/// What is told of a rescan is what it found: all its events, how many files it came to,
/// and what it hit.
pub proof fn law_a_rescan_tells_what_it_found(outcome: RescanOutcome, scan: ScanModel)
    requires
        reports(outcome, scan),
    ensures
        outcome.events@.len() == scan.events.len(),
        forall|i: int|
            0 <= i < scan.events.len() ==> (#[trigger] outcome.events@[i])@ == scan.events[i],
        outcome.files_seen == scan.files_seen,
        outcome.limits == scan.limits,
{
    assert forall|i: int| 0 <= i < scan.events.len() implies (#[trigger] outcome.events@[i])@
        == scan.events[i] by {
        assert(event_models(outcome.events@)[i] == outcome.events@[i]@);
    }
}

} // verus!
