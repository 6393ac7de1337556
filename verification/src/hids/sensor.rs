//! What the host sensor runtime decides: what to do with file notifications, when
//! to rescan and to sweep, and what each source is doing.
//!
//! The host side has no clock of its own: file changes arrive on a channel, log
//! lines arrive when a service writes one, and process monitoring is a sweep on a
//! timer. The caller owns the threads, the watcher and the files; a
//! [`FimWorker`] and a [`HostSensor`] take in what came and say what follows.
//!
//! # A queue overflow is a first-class event, not an error
//!
//! The kernel's queue of file notifications is bounded. Fill it faster than it is
//! drained and it drops events, so somebody who wants a file change to go
//! unnoticed only has to touch enough other files first. So an overflow **forces
//! an immediate rescan**, it is **reported**, and it is **counted**. A silently
//! missed change must never be indistinguishable from an unchanged filesystem.

use vstd::prelude::*;
use crate::text::{append, append_number, decimal, owned, texts};
use crate::time::{Duration, Timestamp};
use super::baseline::{Baseline, BaselineModel};
use super::event::{AuthEvent, AuthModel, FimDetection, FimEvent, FimModel, ProcessEvent, ProcessModel};
use super::fim::{
    event_models, kept_roots, optional_texts, rechecked, rescanned, resolve_roots, walked_models,
    FimSettings, InspectedModel, Monitor, SettingsModel, WalkedFile,
};
use super::logs::{
    journal_of, lent_text, parse_journal_record, parse_syslog_line, parsed_model, syslog_of,
};
use super::names;
use super::process::{ScanLimits, SweepOutcome};
use super::sources::{
    law_record_counts_survive_a_state_change, lemma_with_status, RegistryModel, SourceRegistry, SourceState,
    SourceStatus,
};
use super::walk::WalkLimits;

verus! {

/// Most real-time notifications turned into events in one worker tick.
///
/// Keeps a burst of file activity from monopolising the worker; the rest is
/// picked up on the next tick, or by the rescan.
pub const MAX_NOTIFICATIONS_PER_TICK: usize = 512;

/// Most log lines parsed in one poll.
pub const MAX_LOG_LINES_PER_POLL: usize = 1_024;

/// Default gap between `/proc` sweeps, in seconds.
pub const DEFAULT_PROCESS_INTERVAL_SECS: u64 = 5;

/// What the host sensors should do.
#[derive(Debug, Clone)]
pub struct HostSettings {
    /// File integrity monitoring, or `None` to leave it off.
    pub fim: Option<FimSettings>,
    /// Authentication log files to follow.
    pub auth_files: Vec<String>,
    /// Whether to read journald, via `journalctl`.
    pub journald: bool,
    /// Where `/proc` is.
    pub proc_root: String,
    /// Whether to sweep processes at all.
    pub process_monitoring: bool,
    /// Gap between `/proc` sweeps.
    pub process_interval: Duration,
    /// Bounds on a `/proc` sweep.
    pub process_limits: ScanLimits,
}

impl Default for HostSettings {
    fn default() -> (settings: Self)
        ensures
            settings.fim is None,
            settings.auth_files@.len() == 0,
            !settings.journald,
            settings.proc_root@ == "/proc"@,
            !settings.process_monitoring,
            settings.process_interval.nanos == DEFAULT_PROCESS_INTERVAL_SECS
                * crate::time::NANOS_PER_SEC,
            settings.process_limits.max_processes == super::process::DEFAULT_MAX_PROCESSES,
            settings.process_limits.max_sockets == super::process::DEFAULT_MAX_SOCKETS,
    {
        Self {
            fim: None,
            auth_files: Vec::new(),
            journald: false,
            proc_root: owned("/proc"),
            process_monitoring: false,
            process_interval: Duration::from_secs(DEFAULT_PROCESS_INTERVAL_SECS),
            process_limits: ScanLimits::default(),
        }
    }
}

// ---------------------------------------------------------------------------
// the file integrity worker
// ---------------------------------------------------------------------------

/// What file integrity monitoring has done so far.
#[derive(Debug, Clone, Copy, PartialEq, Eq, Structural)]
pub struct FimCounters {
    /// Paths successfully watched in real time.
    pub watched_paths: u64,
    /// Watches that could not be established, or that were lost.
    pub watch_failures: u64,
    /// Changes the kernel reported as they happened.
    pub realtime: u64,
    /// Changes found by the baseline comparison.
    pub rescan: u64,
    /// Queue overflows seen.
    pub overflows: u64,
    /// Rescans completed.
    pub rescans: u64,
    /// Files in the baseline.
    pub baseline_entries: u64,
}

impl Default for FimCounters {
    fn default() -> (counters: Self)
        ensures
            counters == FimCounters::zero(),
    {
        FimCounters {
            watched_paths: 0,
            watch_failures: 0,
            realtime: 0,
            rescan: 0,
            overflows: 0,
            rescans: 0,
            baseline_entries: 0,
        }
    }
}

impl FimCounters {
    /// Nothing done yet.
    pub open spec fn zero() -> FimCounters {
        FimCounters {
            watched_paths: 0,
            watch_failures: 0,
            realtime: 0,
            rescan: 0,
            overflows: 0,
            rescans: 0,
            baseline_entries: 0,
        }
    }
}

/// One tick's worth of findings.
#[derive(Debug)]
pub struct FimUpdate {
    /// The changes found.
    pub events: Vec<FimEvent>,
    /// Overflows seen this tick.
    pub overflows: u64,
    /// Counters as of this tick.
    pub counters: FimCounters,
}

/// What a file watcher reported.
#[derive(Debug)]
pub enum Notification {
    /// The watcher failed. Some backends report a queue overflow so.
    Failed,
    /// The queue overflowed: changes were dropped.
    Overflowed,
    /// Something happened at these paths. Each comes with what a look at it
    /// found: a notification is a hint about *where* to look, never about *what*
    /// changed.
    Changed(Vec<WalkedFile>),
}

/// What a file watcher reported.
pub enum NotificationModel {
    /// The watcher failed.
    Failed,
    /// The queue overflowed.
    Overflowed,
    /// Something happened at these paths.
    Changed(Seq<(Seq<char>, InspectedModel)>),
}

impl View for Notification {
    type V = NotificationModel;

    open spec fn view(&self) -> NotificationModel {
        match self {
            Notification::Failed => NotificationModel::Failed,
            Notification::Overflowed => NotificationModel::Overflowed,
            Notification::Changed(paths) => NotificationModel::Changed(walked_models(paths@)),
        }
    }
}

/// Where a worker stands.
pub struct WorkerModel {
    /// What is watched and how hard.
    pub settings: SettingsModel,
    /// What the baseline holds.
    pub baseline: BaselineModel,
    /// When the next rescan is due; nothing means at the first tick.
    pub next_rescan: Option<Timestamp>,
    /// A gap was detected and no rescan has run since.
    pub overflow_pending: bool,
    /// What was done so far.
    pub counters: FimCounters,
}

/// The baseline and the events after paths were rechecked.
pub open spec fn rechecked_all(
    baseline: BaselineModel,
    roots: Seq<Seq<char>>,
    paths: Seq<(Seq<char>, InspectedModel)>,
) -> (BaselineModel, Seq<FimModel>)
    decreases paths.len(),
{
    if paths.len() == 0 {
        (baseline, seq![])
    } else {
        let (before, events) = rechecked_all(baseline, roots, paths.drop_last());
        let (after, event) = rechecked(before, roots, paths.last().0, paths.last().1);
        (
            after,
            match event {
                Some(event) => events.push(event),
                None => events,
            },
        )
    }
}

/// A worker and its events after a notification. Failure and overflow reach the
/// same end, or the platform would decide whether a gap is noticed.
pub open spec fn notified(worker: WorkerModel, notification: NotificationModel) -> (
    WorkerModel,
    Seq<FimModel>,
) {
    match notification {
        NotificationModel::Failed => (
            WorkerModel {
                overflow_pending: true,
                counters: FimCounters {
                    watch_failures: (worker.counters.watch_failures + 1) as u64,
                    ..worker.counters
                },
                ..worker
            },
            seq![],
        ),
        NotificationModel::Overflowed => (
            WorkerModel {
                overflow_pending: true,
                counters: FimCounters {
                    overflows: (worker.counters.overflows + 1) as u64,
                    ..worker.counters
                },
                ..worker
            },
            seq![],
        ),
        NotificationModel::Changed(paths) => {
            let (baseline, events) = rechecked_all(worker.baseline, worker.settings.paths, paths);
            (
                WorkerModel {
                    baseline,
                    counters: FimCounters {
                        realtime: (worker.counters.realtime + events.len()) as u64,
                        ..worker.counters
                    },
                    ..worker
                },
                events,
            )
        },
    }
}

/// Whether a worker has to rescan now: after a gap, at the first tick, or when the
/// interval has passed.
pub open spec fn is_due(worker: WorkerModel, now: Timestamp) -> bool {
    worker.overflow_pending || (match worker.next_rescan {
        Some(next) => now.nanos >= next.nanos,
        None => true,
    })
}

/// A worker and its events after a rescan.
pub open spec fn rescanned_worker(
    worker: WorkerModel,
    files: Seq<(Seq<char>, InspectedModel)>,
    limits: WalkLimits,
    abandoned: bool,
) -> (WorkerModel, Seq<FimModel>) {
    let (baseline, told) = rescanned(
        worker.baseline,
        worker.settings.paths,
        files,
        limits,
        FimDetection::BaselineRescan,
        abandoned,
    );
    (
        WorkerModel {
            baseline,
            counters: FimCounters {
                rescans: (worker.counters.rescans + 1) as u64,
                rescan: (worker.counters.rescan + told.events.len()) as u64,
                baseline_entries: baseline.paths.len() as u64,
                ..worker.counters
            },
            ..worker
        },
        told.events,
    )
}

/// A worker and its events after a tick that rescanned.
pub open spec fn ticked(
    worker: WorkerModel,
    now: Timestamp,
    files: Seq<(Seq<char>, InspectedModel)>,
    limits: WalkLimits,
    abandoned: bool,
) -> (WorkerModel, Seq<FimModel>) {
    let (after, events) = rescanned_worker(worker, files, limits, abandoned);
    (
        WorkerModel {
            next_rescan: Some(now.later(worker.settings.rescan_interval)),
            overflow_pending: false,
            ..after
        },
        events,
    )
}

/// A gap in the notifications makes a rescan due at once, whatever the interval
/// says, and no later notification takes that back: only a rescan does.
pub proof fn law_a_gap_forces_a_rescan(
    worker: WorkerModel,
    gap: NotificationModel,
    later: NotificationModel,
    now: Timestamp,
)
    requires
        !(gap is Changed),
    ensures
        is_due(notified(worker, gap).0, now),
        notified(worker, gap).1.len() == 0,
        is_due(notified(notified(worker, gap).0, later).0, now),
{
}

/// A rescan settles a gap: the next one is due when the interval has passed, and
/// not before.
pub proof fn law_a_rescan_settles_a_gap(
    worker: WorkerModel,
    now: Timestamp,
    files: Seq<(Seq<char>, InspectedModel)>,
    limits: WalkLimits,
    abandoned: bool,
    then: Timestamp,
)
    ensures
        is_due(ticked(worker, now, files, limits, abandoned).0, then) == (then.nanos >= now.later(
            worker.settings.rescan_interval,
        ).nanos),
{
}

/// Owns the baseline and what is known of the real-time watcher.
#[derive(Debug)]
pub struct FimWorker {
    monitor: Monitor,
    next_rescan: Option<Timestamp>,
    overflow_pending: bool,
    counters: FimCounters,
}

impl View for FimWorker {
    type V = WorkerModel;

    closed spec fn view(&self) -> WorkerModel {
        WorkerModel {
            settings: self.monitor.set_to()@,
            baseline: self.monitor.held(),
            next_rescan: self.next_rescan,
            overflow_pending: self.overflow_pending,
            counters: self.counters,
        }
    }
}

/// A walk over the monitored files, as far as it got.
#[derive(Debug)]
pub struct Walked {
    /// The files it came to, and what was found there.
    pub files: Vec<WalkedFile>,
    /// What it left out.
    pub limits: WalkLimits,
    /// Whether it was asked to stop before it finished.
    pub abandoned: bool,
}

impl FimWorker {
    /// Start over a baseline, given what each configured path resolves to. The roots
    /// are settled once, here, so that the baseline and the watcher go by the same.
    ///
    /// Deliberately does **no** scanning: the first tick does that. That first
    /// scan is what catches changes made while the sensor was down, by comparing
    /// against what was stored last time rather than against whatever the
    /// watcher happens to see from now on.
    pub fn start(settings: FimSettings, resolved: &[Option<String>], baseline: Baseline) -> (worker:
        Self)
        requires
            resolved@.len() == settings.paths@.len(),
        ensures
            worker@ == (WorkerModel {
                settings: SettingsModel {
                    paths: kept_roots(settings@.paths, optional_texts(resolved@)),
                    ..settings@
                },
                baseline: baseline@,
                next_rescan: None,
                overflow_pending: false,
                counters: FimCounters::zero(),
            }),
    {
        let (paths, _) = resolve_roots(settings.paths.as_slice(), resolved);
        Self {
            monitor: Monitor::new(FimSettings { paths, ..settings }, baseline),
            next_rescan: None,
            overflow_pending: false,
            counters: FimCounters::default(),
        }
    }

    /// The counters so far.
    pub fn counters(&self) -> (counters: FimCounters)
        ensures
            counters == self@.counters,
    {
        self.counters
    }

    /// The comparator.
    pub fn monitor(&self) -> (monitor: &Monitor)
        ensures
            monitor.set_to()@ == self@.settings,
            monitor.held() == self@.baseline,
    {
        &self.monitor
    }

    /// Take note of whether a path could be watched. The usual causes of a
    /// failure are a missing path or an exhausted number of watches. Neither is
    /// fatal, and both must be visible: an unwatched path is a coverage gap, not
    /// a clean bill of health.
    pub fn note_watch(&mut self, established: bool)
        requires
            established ==> old(self)@.counters.watched_paths < u64::MAX,
            !established ==> old(self)@.counters.watch_failures < u64::MAX,
        ensures
            final(self)@ == (WorkerModel {
                counters: if established {
                    FimCounters {
                        watched_paths: (old(self)@.counters.watched_paths + 1) as u64,
                        ..old(self)@.counters
                    }
                } else {
                    FimCounters {
                        watch_failures: (old(self)@.counters.watch_failures + 1) as u64,
                        ..old(self)@.counters
                    }
                },
                ..old(self)@
            }),
    {
        if established {
            self.counters.watched_paths = self.counters.watched_paths + 1;
        } else {
            self.counters.watch_failures = self.counters.watch_failures + 1;
        }
    }

    /// Turn one notification into events, and say whether it was a gap.
    pub fn handle_notification(&mut self, notification: &Notification) -> (result: (
        Vec<FimEvent>,
        bool,
    ))
        requires
            old(self)@.baseline.well_formed(),
            match *notification {
                Notification::Failed => old(self)@.counters.watch_failures < u64::MAX,
                Notification::Overflowed => old(self)@.counters.overflows < u64::MAX,
                Notification::Changed(paths) => old(self)@.counters.realtime + paths@.len()
                    <= u64::MAX,
            },
        ensures
            (final(self)@, event_models(result.0@)) == notified(old(self)@, notification@),
            final(self)@.baseline.well_formed(),
            result.1 == !(notification is Changed),
    {
        let mut events: Vec<FimEvent> = Vec::new();
        assert(event_models(events@) =~= seq![]);
        let paths = match notification {
            Notification::Failed => {
                self.counters.watch_failures = self.counters.watch_failures + 1;
                self.overflow_pending = true;
                return (events, true);
            },
            Notification::Overflowed => {
                self.counters.overflows = self.counters.overflows + 1;
                self.overflow_pending = true;
                return (events, true);
            },
            Notification::Changed(paths) => paths,
        };
        // Whatever the notification claims happened, the baseline decides.
        let ghost all = walked_models(paths@);
        let ghost start = self@;
        let mut i: usize = 0;
        assert(all.take(0) =~= seq![]);
        while i < paths.len()
            invariant
                all == walked_models(paths@),
                i <= all.len(),
                self@.baseline.well_formed(),
                events@.len() <= i,
                self@ == (WorkerModel { baseline: self@.baseline, ..start }),
                (self@.baseline, event_models(events@)) == rechecked_all(
                    start.baseline,
                    start.settings.paths,
                    all.take(i as int),
                ),
            decreases all.len() - i,
        {
            assert(all[i as int] == (paths@[i as int].path@, paths@[i as int].found@));
            assert(all.take(i + 1).drop_last() =~= all.take(i as int));
            let event = self.monitor.recheck(paths[i].path.as_str(), &paths[i].found);
            if let Some(event) = event {
                let ghost before = events@;
                let ghost model = event@;
                events.push(event);
                assert(event_models(events@) =~= event_models(before).push(model));
            }
            i = i + 1;
        }
        assert(all.take(i as int) =~= all);
        self.counters.realtime = self.counters.realtime + events.len() as u64;
        (events, false)
    }

    /// Take note that the watcher is gone. Rescans continue, but losing the
    /// watcher is losing real-time coverage, so it gets the same treatment as an
    /// overflow: rescan now.
    pub fn lose_watcher(&mut self)
        requires
            old(self)@.counters.watch_failures < u64::MAX,
        ensures
            (final(self)@, Seq::<FimModel>::empty()) == notified(
                old(self)@,
                NotificationModel::Failed,
            ),
    {
        self.counters.watch_failures = self.counters.watch_failures + 1;
        self.overflow_pending = true;
    }

    /// Whether a rescan has to run in this tick.
    pub fn needs_rescan(&self, now: Timestamp) -> (due: bool)
        ensures
            due == is_due(self@, now),
    {
        if self.overflow_pending {
            return true;
        }
        match self.next_rescan {
            Some(next) => now.nanos >= next.nanos,
            None => true,
        }
    }

    /// Compare a walk with the baseline.
    pub fn rescan(&mut self, walked: &Walked) -> (events: Vec<FimEvent>)
        requires
            old(self)@.baseline.well_formed(),
            walked.limits.unreadable + walked.files@.len() <= u64::MAX,
            old(self)@.counters.rescans < u64::MAX,
            old(self)@.counters.rescan + 2 * walked.files@.len() + old(self)@.baseline.paths.len()
                <= u64::MAX,
        ensures
            (final(self)@, event_models(events@)) == rescanned_worker(
                old(self)@,
                walked_models(walked.files@),
                walked.limits,
                walked.abandoned,
            ),
            final(self)@.baseline.well_formed(),
    {
        let ghost start = self@;
        let outcome = self.monitor.rescan_until(
            &walked.files,
            walked.limits,
            FimDetection::BaselineRescan,
            walked.abandoned,
        );
        proof {
            super::fim::lemma_events_bounded(
                start.baseline,
                start.settings.paths,
                walked_models(walked.files@),
                walked.limits,
                FimDetection::BaselineRescan,
                walked.abandoned,
            );
        }
        self.counters.rescans = self.counters.rescans + 1;
        self.counters.rescan = self.counters.rescan + outcome.events.len() as u64;
        self.counters.baseline_entries = self.monitor.baseline().len() as u64;
        outcome.events
    }

    /// End a tick: rescan where one was due, and put the tick's findings
    /// together.
    pub fn tick(&mut self, now: Timestamp, found: Vec<FimEvent>, walked: Option<&Walked>) -> (
        update: FimUpdate)
        requires
            old(self)@.baseline.well_formed(),
            walked is Some <==> is_due(old(self)@, now),
            walked matches Some(walked) ==> {
                &&& walked.limits.unreadable + walked.files@.len() <= u64::MAX
                &&& old(self)@.counters.rescans < u64::MAX
                &&& old(self)@.counters.rescan + 2 * walked.files@.len()
                    + old(self)@.baseline.paths.len() <= u64::MAX
            },
        ensures
            final(self)@.baseline.well_formed(),
            update.counters == final(self)@.counters,
            update.overflows == (if old(self)@.overflow_pending {
                1int
            } else {
                0
            }),
            match walked {
                None => final(self)@ == old(self)@ && event_models(update.events@) == event_models(
                    found@,
                ),
                Some(walked) => {
                    let (after, events) = ticked(
                        old(self)@,
                        now,
                        walked_models(walked.files@),
                        walked.limits,
                        walked.abandoned,
                    );
                    &&& final(self)@ == after
                    &&& event_models(update.events@) == event_models(found@) + events
                },
            },
    {
        let forced = self.overflow_pending;
        let mut events = found;
        if let Some(walked) = walked {
            self.overflow_pending = false;
            let ghost before = events@;
            let mut more = self.rescan(walked);
            let ghost added = more@;
            events.append(&mut more);
            assert(event_models(events@) =~= event_models(before) + event_models(added));
            self.next_rescan = Some(now.saturating_add(self.monitor.settings().rescan_interval));
        }
        FimUpdate {
            events,
            overflows: if forced {
                1
            } else {
                0
            },
            counters: self.counters,
        }
    }
}

// ---------------------------------------------------------------------------
// the sensor
// ---------------------------------------------------------------------------

/// What a poll produced.
pub struct BatchModel {
    /// File changes.
    pub fim: Seq<FimModel>,
    /// Authentication records.
    pub auth: Seq<AuthModel>,
    /// Process starts and new listening sockets.
    pub process: Seq<ProcessModel>,
    /// Queue overflows.
    pub overflows: nat,
}

/// The models of authentication events.
pub open spec fn auth_models(events: Seq<AuthEvent>) -> Seq<AuthModel> {
    events.map_values(|event: AuthEvent| event@)
}

/// Everything one poll produced.
#[derive(Debug)]
pub struct HostBatch {
    /// File changes, real-time and rescan alike.
    pub fim: Vec<FimEvent>,
    /// Authentication records.
    pub auth: Vec<AuthEvent>,
    /// Process starts and new listening sockets.
    pub process: Vec<ProcessEvent>,
    /// Queue overflows seen this poll, each of which forced a rescan.
    ///
    /// Reported separately from the events it produced, because "events were
    /// lost here" is itself the finding.
    pub overflows: u64,
}

impl View for HostBatch {
    type V = BatchModel;

    open spec fn view(&self) -> BatchModel {
        BatchModel {
            fim: event_models(self.fim@),
            auth: auth_models(self.auth@),
            process: super::process::event_models(self.process@),
            overflows: self.overflows as nat,
        }
    }
}

impl Default for HostBatch {
    fn default() -> (batch: Self)
        ensures
            batch@ == (BatchModel { fim: seq![], auth: seq![], process: seq![], overflows: 0 }),
    {
        let batch = HostBatch {
            fim: Vec::new(),
            auth: Vec::new(),
            process: Vec::new(),
            overflows: 0,
        };
        assert(batch@.fim =~= seq![]);
        assert(batch@.auth =~= seq![]);
        assert(batch@.process =~= seq![]);
        batch
    }
}

impl HostBatch {
    /// Whether the poll found anything at all.
    pub fn is_empty(&self) -> (empty: bool)
        ensures
            empty == (self@.fim.len() == 0 && self@.auth.len() == 0 && self@.process.len() == 0),
    {
        self.fim.len() == 0 && self.auth.len() == 0 && self.process.len() == 0
    }
}

/// What the host sensors did, in numbers.
#[derive(Debug, Clone, Copy, PartialEq, Eq, Structural)]
pub struct HostCounters {
    /// Authentication records read.
    pub auth_records: u64,
    /// Of those, the ones with something suspicious in them.
    pub auth_suspicious: u64,
    /// Of those, the ones that are no authentication record or were not
    /// understood.
    pub auth_unparsed: u64,
    /// Process events reported.
    pub process_events: u64,
}

impl HostCounters {
    /// Nothing done yet.
    pub open spec fn zero() -> HostCounters {
        HostCounters { auth_records: 0, auth_suspicious: 0, auth_unparsed: 0, process_events: 0 }
    }

    /// Whether what is counted of log lines can go up by so much.
    pub open spec fn has_room(self, more: int) -> bool {
        &&& self.auth_records + more <= u64::MAX
        &&& self.auth_suspicious + more <= u64::MAX
        &&& self.auth_unparsed + more <= u64::MAX
    }
}

/// What the host sensors report of themselves.
#[derive(Debug, Clone)]
pub struct HidsStats {
    /// Whether host monitoring is on.
    pub enabled: bool,
    /// Paths successfully watched in real time.
    pub watched_paths: u64,
    /// Watches that could not be established, or that were lost.
    pub watch_failures: u64,
    /// File changes reported as they happened.
    pub fim_realtime: u64,
    /// File changes found by the baseline comparison.
    pub fim_rescan: u64,
    /// Queue overflows seen.
    pub inotify_overflows: u64,
    /// Rescans completed.
    pub rescans: u64,
    /// Files in the baseline.
    pub baseline_entries: u64,
    /// Authentication records read.
    pub auth_records: u64,
    /// Authentication records with something suspicious in them.
    pub auth_suspicious: u64,
    /// Log lines that are no authentication record or were not understood.
    pub auth_unparsed: u64,
    /// Process events reported.
    pub process_events: u64,
    /// What each source is doing.
    pub sources: Vec<SourceStatus>,
}

/// Where a sensor stands.
pub struct SensorModel {
    /// Whether file integrity monitoring is on.
    pub fim: bool,
    /// Whether processes are swept.
    pub sweeping: bool,
    /// Where `/proc` is.
    pub proc_root: Seq<char>,
    /// The gap between sweeps.
    pub interval: Duration,
    /// When the next sweep is due.
    pub next_sweep: Timestamp,
    /// What file integrity monitoring did.
    pub fim_counters: FimCounters,
    /// What the other sensors did.
    pub counters: HostCounters,
    /// What each source is doing.
    pub sources: RegistryModel,
}

/// Texts joined by a comma and a space.
pub open spec fn listed(names: Seq<Seq<char>>) -> Seq<char>
    decreases names.len(),
{
    if names.len() == 0 {
        seq![]
    } else if names.len() == 1 {
        names[0]
    } else {
        listed(names.drop_last()) + ", "@ + names.last()
    }
}

/// How many of some files exist.
pub open spec fn existing(files: Seq<(Seq<char>, bool)>) -> nat
    decreases files.len(),
{
    if files.len() == 0 {
        0
    } else {
        existing(files.drop_last()) + if files.last().1 {
            1nat
        } else {
            0nat
        }
    }
}

/// What the configured authentication log files say of their source. A file that
/// is not there is not an error, since a service may simply not have logged yet,
/// but *none* of them being there means this source will never produce anything.
pub open spec fn with_auth_files(registry: RegistryModel, files: Seq<(Seq<char>, bool)>) -> RegistryModel {
    if files.len() == 0 {
        registry
    } else if existing(files) == 0 {
        registry.declaring(
            names::AUTH_FILES@,
            SourceState::Unavailable,
            "none of the configured files exist: "@ + listed(
                files.map_values(|file: (Seq<char>, bool)| file.0),
            ),
        )
    } else if existing(files) < files.len() {
        registry.declaring(
            names::AUTH_FILES@,
            SourceState::Degraded,
            decimal(existing(files)) + " of "@ + decimal(files.len()) + " configured files exist"@,
        )
    } else {
        registry.declaring(names::AUTH_FILES@, SourceState::Active, seq![])
    }
}

/// What the counters of file integrity monitoring say of real-time watching. Its
/// two detectors are two sources, and they fail independently.
pub open spec fn with_realtime(registry: RegistryModel, counters: FimCounters) -> RegistryModel {
    if counters.watched_paths == 0 && counters.watch_failures > 0 {
        registry.declaring(
            names::FIM_REALTIME@,
            SourceState::Unavailable,
            "no path could be watched in real time; only the periodic rescan sees changes"@,
        )
    } else if counters.watch_failures > 0 {
        registry.declaring(
            names::FIM_REALTIME@,
            SourceState::Degraded,
            decimal(counters.watch_failures as nat)
                + " path(s) could not be watched; those are covered by the rescan only"@,
        )
    } else if counters.watched_paths > 0 {
        registry.declaring(names::FIM_REALTIME@, SourceState::Active, seq![])
    } else {
        registry
    }
}

/// What the counters of file integrity monitoring say of the baseline. A
/// completed scan that hashed nothing means that the sensor is watching an empty
/// set and would report nothing for ever.
pub open spec fn with_baseline(registry: RegistryModel, counters: FimCounters) -> RegistryModel {
    if counters.rescans > 0 && counters.baseline_entries == 0 {
        registry.declaring(
            names::FIM_BASELINE@,
            SourceState::Unavailable,
            "a scan completed but the baseline is empty: hids.fim.paths matched no files"@,
        )
    } else if counters.rescans > 0 {
        registry.declaring(names::FIM_BASELINE@, SourceState::Active, seq![])
    } else {
        registry
    }
}

/// What the counters of file integrity monitoring say of its sources.
pub open spec fn with_fim(registry: RegistryModel, counters: FimCounters) -> RegistryModel {
    with_baseline(with_realtime(registry, counters), counters).counting(names::FIM_REALTIME@, 0)
}

/// A batch and the counters after updates of the worker.
pub open spec fn with_updates(batch: BatchModel, counters: FimCounters, updates: Seq<FimUpdate>) -> (
    BatchModel,
    FimCounters,
)
    decreases updates.len(),
{
    if updates.len() == 0 {
        (batch, counters)
    } else {
        let (before, _) = with_updates(batch, counters, updates.drop_last());
        (
            BatchModel {
                fim: before.fim + event_models(updates.last().events@),
                overflows: before.overflows + updates.last().overflows as nat,
                ..before
            },
            updates.last().counters,
        )
    }
}

/// What the overflows of updates add up to.
pub open spec fn overflows_of(updates: Seq<FimUpdate>) -> nat
    decreases updates.len(),
{
    if updates.len() == 0 {
        0
    } else {
        overflows_of(updates.drop_last()) + updates.last().overflows as nat
    }
}

/// The counters and the events after one more log line: what it says, or nothing.
/// Most log lines are not about authentication; counting them is how a parser
/// that has stopped understanding a format becomes visible instead of just
/// quiet.
pub open spec fn with_line(
    counters: HostCounters,
    events: Seq<AuthModel>,
    event: Option<AuthModel>,
) -> (HostCounters, Seq<AuthModel>) {
    let read = HostCounters { auth_records: (counters.auth_records + 1) as u64, ..counters };
    match event {
        None => (
            HostCounters { auth_unparsed: (counters.auth_unparsed + 1) as u64, ..read },
            events,
        ),
        Some(event) => (
            if event.suspicious.len() > 0 {
                HostCounters { auth_suspicious: (counters.auth_suspicious + 1) as u64, ..read }
            } else {
                read
            },
            events.push(event),
        ),
    }
}

/// The event of a line of a source: a file, or the journal.
pub open spec fn line_event(line: Seq<char>, file: Option<Seq<char>>) -> Option<AuthModel> {
    match file {
        Some(file) => syslog_of(line, "file:"@ + file),
        None => journal_of(line, "journald"@),
    }
}

/// The counters and the events after lines of a source.
pub open spec fn with_lines(
    counters: HostCounters,
    events: Seq<AuthModel>,
    lines: Seq<Seq<char>>,
    file: Option<Seq<char>>,
) -> (HostCounters, Seq<AuthModel>)
    decreases lines.len(),
{
    if lines.len() == 0 {
        (counters, events)
    } else {
        let (before, so_far) = with_lines(counters, events, lines.drop_last(), file);
        with_line(before, so_far, line_event(lines.last(), file))
    }
}

/// The first so many of some lines.
pub open spec fn budgeted(lines: Seq<Seq<char>>, budget: nat) -> Seq<Seq<char>> {
    if lines.len() <= budget {
        lines
    } else {
        lines.take(budget as int)
    }
}

/// The counters, the events and what is left of the budget after the lines of log
/// files, in order.
pub open spec fn with_files(
    counters: HostCounters,
    events: Seq<AuthModel>,
    files: Seq<(Seq<char>, Seq<Seq<char>>)>,
) -> (HostCounters, Seq<AuthModel>, nat)
    decreases files.len(),
{
    if files.len() == 0 {
        (counters, events, MAX_LOG_LINES_PER_POLL as nat)
    } else {
        let (before, so_far, budget) = with_files(counters, events, files.drop_last());
        let some = budgeted(files.last().1, budget);
        let (after, told) = with_lines(before, so_far, some, Some(files.last().0));
        (after, told, (budget - some.len()) as nat)
    }
}

/// The counters and the events after what the log sources produced: the files in
/// order, then the journal, within the budget of a poll.
pub open spec fn with_logs(
    counters: HostCounters,
    events: Seq<AuthModel>,
    files: Seq<(Seq<char>, Seq<Seq<char>>)>,
    journal: Seq<Seq<char>>,
) -> (HostCounters, Seq<AuthModel>) {
    let (after, told, budget) = with_files(counters, events, files);
    with_lines(after, told, budgeted(journal, budget), None)
}

/// The models of log files with the lines they produced.
pub open spec fn log_models(files: Seq<(String, Vec<String>)>) -> Seq<(Seq<char>, Seq<Seq<char>>)> {
    files.map_values(|file: (String, Vec<String>)| (file.0@, texts(file.1@)))
}

/// What a sweep says of the process table. A process table always contains at
/// least this process, so a sweep seeing one entry or none is not watching a
/// quiet machine: its view has been restricted.
pub open spec fn with_table_seen(registry: RegistryModel, proc_root: Seq<char>, seen: nat) -> RegistryModel {
    if seen <= 1 {
        registry.declaring(
            names::PROCESS_TABLE@,
            SourceState::Unavailable,
            "a sweep of "@ + proc_root + " saw "@ + decimal(seen)
                + " process(es); a process table always contains this one, so the view is restricted (ProtectProc/hidepid?), not quiet"@,
        )
    } else {
        registry.declaring(names::PROCESS_TABLE@, SourceState::Active, seq![])
    }
}

/// What a sweep says of the socket tables. They are read from different files
/// with different permissions, so they can fail while the process table works.
/// That there are no listening sockets is possible on a real host, so only
/// tables that cannot be read are a hole.
pub open spec fn with_sockets_seen(
    registry: RegistryModel,
    proc_root: Seq<char>,
    readable: bool,
) -> RegistryModel {
    if readable {
        registry.declaring(names::PROCESS_SOCKETS@, SourceState::Active, seq![])
    } else {
        registry.declaring(
            names::PROCESS_SOCKETS@,
            SourceState::Unavailable,
            "no socket table under "@ + proc_root
                + ": listening sockets are invisible (ProcSubset=pid?)"@,
        )
    }
}

/// What a sweep says of its sources.
pub open spec fn with_sweep(
    registry: RegistryModel,
    proc_root: Seq<char>,
    seen: nat,
    readable: bool,
    events: nat,
) -> RegistryModel {
    with_sockets_seen(with_table_seen(registry, proc_root, seen), proc_root, readable).counting(
        names::PROCESS_TABLE@,
        events,
    )
}

/// What there was to take in when the sensors were polled.
#[derive(Debug)]
pub struct Polled {
    /// What the file integrity worker has finished.
    pub updates: Vec<FimUpdate>,
    /// The new lines of each authentication log file.
    pub files: Vec<(String, Vec<String>)>,
    /// The new records of the journal.
    pub journal: Vec<String>,
    /// What a sweep of the processes concluded, and whether the socket tables
    /// could be read, where a sweep was due.
    pub sweep: Option<(SweepOutcome, bool)>,
}

/// The sensor after the updates of the worker.
pub open spec fn after_updates(sensor: SensorModel, batch: BatchModel, updates: Seq<FimUpdate>) -> (
    SensorModel,
    BatchModel,
) {
    let (told, counters) = with_updates(batch, sensor.fim_counters, updates);
    (
        SensorModel {
            fim_counters: counters,
            sources: if sensor.fim {
                with_fim(sensor.sources, counters)
            } else {
                sensor.sources
            },
            ..sensor
        },
        told,
    )
}

/// The sensor after what the log sources produced.
pub open spec fn after_logs(
    sensor: SensorModel,
    batch: BatchModel,
    files: Seq<(Seq<char>, Seq<Seq<char>>)>,
    journal: Seq<Seq<char>>,
) -> (SensorModel, BatchModel) {
    let (counters, auth) = with_logs(sensor.counters, batch.auth, files, journal);
    (SensorModel { counters, ..sensor }, BatchModel { auth, ..batch })
}

/// The sensor after a sweep.
pub open spec fn after_sweep(
    sensor: SensorModel,
    batch: BatchModel,
    now: Timestamp,
    outcome: SweepOutcome,
    readable: bool,
) -> (SensorModel, BatchModel) {
    (
        SensorModel {
            next_sweep: now.later(sensor.interval),
            counters: HostCounters {
                process_events: (sensor.counters.process_events + outcome.events@.len()) as u64,
                ..sensor.counters
            },
            sources: with_sweep(
                sensor.sources,
                sensor.proc_root,
                outcome.processes_seen as nat,
                readable,
                outcome.events@.len(),
            ),
            ..sensor
        },
        BatchModel {
            process: batch.process + super::process::event_models(outcome.events@),
            ..batch
        },
    )
}

/// The sensor and the batch after a poll.
pub open spec fn after_poll(sensor: SensorModel, now: Timestamp, polled: Polled) -> (
    SensorModel,
    BatchModel,
) {
    let empty = BatchModel { fim: seq![], auth: seq![], process: seq![], overflows: 0 };
    let (drained, first) = after_updates(sensor, empty, polled.updates@);
    let (read, second) = after_logs(
        drained,
        first,
        log_models(polled.files@),
        texts(polled.journal@),
    );
    match polled.sweep {
        Some((outcome, readable)) => after_sweep(read, second, now, outcome, readable),
        None => (read, second),
    }
}

/// What the polled host runtime knows.
#[derive(Debug)]
pub struct HostSensor {
    fim: bool,
    sweeping: bool,
    proc_root: String,
    process_interval: Duration,
    next_sweep: Timestamp,
    fim_counters: FimCounters,
    counters: HostCounters,
    sources: SourceRegistry,
}

impl View for HostSensor {
    type V = SensorModel;

    closed spec fn view(&self) -> SensorModel {
        SensorModel {
            fim: self.fim,
            sweeping: self.sweeping,
            proc_root: self.proc_root@,
            interval: self.process_interval,
            next_sweep: self.next_sweep,
            fim_counters: self.fim_counters,
            counters: self.counters,
            sources: self.sources@,
        }
    }
}

/// The models of files with whether they exist.
pub open spec fn file_models(files: Seq<(String, bool)>) -> Seq<(Seq<char>, bool)> {
    files.map_values(|file: (String, bool)| (file.0@, file.1))
}

fn count_existing(files: &[(String, bool)]) -> (count: usize)
    ensures
        count == existing(file_models(files@)),
        count <= files@.len(),
{
    let ghost all = file_models(files@);
    let mut count: usize = 0;
    let mut i: usize = 0;
    assert(all.take(0) =~= seq![]);
    while i < files.len()
        invariant
            all == file_models(files@),
            i <= all.len(),
            count <= i,
            count == existing(all.take(i as int)),
        decreases all.len() - i,
    {
        assert(all.take(i + 1).drop_last() =~= all.take(i as int));
        assert(all[i as int] == (files@[i as int].0@, files@[i as int].1));
        if files[i].1 {
            count = count + 1;
        }
        i = i + 1;
    }
    assert(all.take(i as int) =~= all);
    count
}

fn list_files(files: &[(String, bool)]) -> (text: String)
    ensures
        text@ == listed(file_models(files@).map_values(|file: (Seq<char>, bool)| file.0)),
{
    let ghost all = file_models(files@).map_values(|file: (Seq<char>, bool)| file.0);
    let mut text = String::new();
    let mut i: usize = 0;
    assert(text@ =~= listed(all.take(0)));
    while i < files.len()
        invariant
            all == file_models(files@).map_values(|file: (Seq<char>, bool)| file.0),
            i <= all.len(),
            text@ == listed(all.take(i as int)),
        decreases all.len() - i,
    {
        assert(all.take(i + 1).drop_last() =~= all.take(i as int));
        assert(all[i as int] == files@[i as int].0@);
        assert(all.take(i + 1).last() == files@[i as int].0@);
        let ghost before = text@;
        if i > 0 {
            append(&mut text, ", ");
        }
        append(&mut text, files[i].0.as_str());
        proof {
            if i == 0 {
                assert(text@ =~= all[0]);
                assert(all.take(1)[0] == all[0]);
            }
        }
        i = i + 1;
    }
    assert(all.take(i as int) =~= all);
    text
}

impl HostSensor {
    /// The sources stand in order.
    pub open spec fn well_formed(&self) -> bool {
        self@.sources.well_formed()
    }

    /// Start the host sensors on an operating system.
    ///
    /// The platform's gaps are declared first, so that a backend that exists can
    /// overwrite its entry. Whatever is left saying `unsupported` is genuinely
    /// unsupported, and says so rather than reporting zeroes. Sweeping `/proc` is
    /// for Linux only, and gated rather than left to fail quietly: elsewhere it
    /// would find nothing and report zero events while the source said
    /// "unsupported".
    pub fn start(settings: &HostSettings, os: &str, now: Timestamp) -> (sensor: Self)
        ensures
            sensor.well_formed(),
            sensor@ == (SensorModel {
                fim: settings.fim is Some,
                sweeping: os@ == "linux"@ && settings.process_monitoring,
                proc_root: settings.proc_root@,
                interval: settings.process_interval,
                next_sweep: now,
                fim_counters: FimCounters::zero(),
                counters: HostCounters::zero(),
                sources: super::sources::with_gaps(
                    RegistryModel { names: seq![], entries: seq![] },
                    super::sources::gaps_of(os@),
                ),
            }),
    {
        let mut sources = SourceRegistry::new();
        super::sources::declare_platform_gaps(&mut sources, os);
        HostSensor {
            fim: settings.fim.is_some(),
            sweeping: crate::text::equal(os, "linux") && settings.process_monitoring,
            proc_root: settings.proc_root.clone(),
            process_interval: settings.process_interval,
            next_sweep: now,
            fim_counters: FimCounters::default(),
            counters: HostCounters {
                auth_records: 0,
                auth_suspicious: 0,
                auth_unparsed: 0,
                process_events: 0,
            },
            sources,
        }
    }

    /// The counters so far, and what each source is doing.
    pub fn stats(&self) -> (stats: HidsStats)
        ensures
            stats.enabled,
            stats.watched_paths == self@.fim_counters.watched_paths,
            stats.watch_failures == self@.fim_counters.watch_failures,
            stats.fim_realtime == self@.fim_counters.realtime,
            stats.fim_rescan == self@.fim_counters.rescan,
            stats.inotify_overflows == self@.fim_counters.overflows,
            stats.rescans == self@.fim_counters.rescans,
            stats.baseline_entries == self@.fim_counters.baseline_entries,
            stats.auth_records == self@.counters.auth_records,
            stats.auth_suspicious == self@.counters.auth_suspicious,
            stats.auth_unparsed == self@.counters.auth_unparsed,
            stats.process_events == self@.counters.process_events,
            super::sources::status_models(stats.sources@) == self@.sources.entries,
    {
        HidsStats {
            enabled: true,
            watched_paths: self.fim_counters.watched_paths,
            watch_failures: self.fim_counters.watch_failures,
            fim_realtime: self.fim_counters.realtime,
            fim_rescan: self.fim_counters.rescan,
            inotify_overflows: self.fim_counters.overflows,
            rescans: self.fim_counters.rescans,
            baseline_entries: self.fim_counters.baseline_entries,
            auth_records: self.counters.auth_records,
            auth_suspicious: self.counters.auth_suspicious,
            auth_unparsed: self.counters.auth_unparsed,
            process_events: self.counters.process_events,
            sources: self.sources.snapshot(),
        }
    }

    /// The sources that are not fully working.
    pub fn holes(&self) -> (holes: Vec<&SourceStatus>)
        ensures
            super::sources::lent_models(holes@) == self@.sources.entries.filter(
                |status: super::sources::StatusModel| status.state.leaves_hole(),
            ),
    {
        self.sources.holes()
    }

    /// Take over the counters of a worker that has just been started. Its watches
    /// are already established, so the numbers are true from the start: a zero
    /// there would misreport a working sensor as a blind one.
    pub fn note_fim(&mut self, counters: FimCounters)
        ensures
            final(self)@ == (SensorModel { fim_counters: counters, ..old(self)@ }),
    {
        self.fim_counters = counters;
    }

    /// Take note of whether the journal can be followed. That it cannot is a
    /// hole: authentication activity on this host is now only as visible as the
    /// configured log files make it.
    pub fn note_journal(&mut self, started: Result<(), String>)
        requires
            old(self).well_formed(),
        ensures
            final(self).well_formed(),
            final(self)@ == (SensorModel {
                sources: match started {
                    Ok(_) => old(self)@.sources.declaring(
                        names::AUTH_STRUCTURED@,
                        SourceState::Active,
                        seq![],
                    ),
                    Err(detail) => old(self)@.sources.declaring(
                        names::AUTH_STRUCTURED@,
                        SourceState::Unavailable,
                        "journalctl: "@ + detail@,
                    ),
                },
                ..old(self)@
            }),
    {
        match started {
            Ok(_) => self.sources.active(names::AUTH_STRUCTURED),
            Err(detail) => {
                let mut text = owned("journalctl: ");
                append(&mut text, detail.as_str());
                self.sources.unavailable(names::AUTH_STRUCTURED, text);
            },
        }
    }

    /// Say whether the configured authentication log files exist.
    pub fn declare_auth_files(&mut self, files: &[(String, bool)])
        requires
            old(self).well_formed(),
        ensures
            final(self).well_formed(),
            final(self)@ == (SensorModel {
                sources: with_auth_files(old(self)@.sources, file_models(files@)),
                ..old(self)@
            }),
    {
        if files.len() == 0 {
            return;
        }
        let present: usize = count_existing(files);
        if present == 0 {
            let mut text = owned("none of the configured files exist: ");
            let list = list_files(files);
            append(&mut text, list.as_str());
            self.sources.unavailable(names::AUTH_FILES, text);
        } else if present < files.len() {
            let mut text = String::new();
            assert(text@ + decimal(present as nat) =~= decimal(present as nat));
            append_number(&mut text, present as u64);
            append(&mut text, " of ");
            append_number(&mut text, files.len() as u64);
            append(&mut text, " configured files exist");
            self.sources.degraded(names::AUTH_FILES, text);
        } else {
            self.sources.active(names::AUTH_FILES);
        }
    }

    fn declare_fim(&mut self)
        requires
            old(self).well_formed(),
        ensures
            final(self).well_formed(),
            final(self)@ == (SensorModel {
                sources: with_fim(old(self)@.sources, old(self)@.fim_counters),
                ..old(self)@
            }),
    {
        let counters = self.fim_counters;
        let ghost start = self@.sources;
        if counters.watched_paths == 0 && counters.watch_failures > 0 {
            self.sources.unavailable(
                names::FIM_REALTIME,
                owned("no path could be watched in real time; only the periodic rescan sees changes"),
            );
        } else if counters.watch_failures > 0 {
            let mut text = String::new();
            assert(text@ + decimal(counters.watch_failures as nat) =~= decimal(
                counters.watch_failures as nat,
            ));
            append_number(&mut text, counters.watch_failures);
            append(
                &mut text,
                " path(s) could not be watched; those are covered by the rescan only",
            );
            self.sources.degraded(names::FIM_REALTIME, text);
        } else if counters.watched_paths > 0 {
            self.sources.active(names::FIM_REALTIME);
        }
        assert(self.sources@ == with_realtime(start, counters));
        if counters.rescans > 0 && counters.baseline_entries == 0 {
            self.sources.unavailable(
                names::FIM_BASELINE,
                owned("a scan completed but the baseline is empty: hids.fim.paths matched no files"),
            );
        } else if counters.rescans > 0 {
            self.sources.active(names::FIM_BASELINE);
        }
        self.sources.produced(names::FIM_REALTIME, 0);
    }

    /// Take in whatever the worker has finished.
    pub fn drain_fim(&mut self, updates: Vec<FimUpdate>, batch: &mut HostBatch)
        requires
            old(self).well_formed(),
            old(batch)@.overflows + overflows_of(updates@) <= u64::MAX,
        ensures
            final(self).well_formed(),
            (final(self)@, final(batch)@) == after_updates(old(self)@, old(batch)@, updates@),
    {
        let ghost all = updates@;
        let ghost first = batch@;
        let ghost start = self@;
        assert(all.take(0) =~= seq![]);
        for update in it: updates
            invariant
                it.seq() == all,
                first.overflows + overflows_of(all) <= u64::MAX,
                batch@.overflows == first.overflows + overflows_of(all.take(it.index() as int)),
                self@ == (SensorModel { fim_counters: self@.fim_counters, ..start }),
                (batch@, self@.fim_counters) == with_updates(
                    first,
                    start.fim_counters,
                    all.take(it.index() as int),
                ),
        {
            proof {
                assert(all.take(it.index() + 1).drop_last() =~= all.take(it.index() as int));
                assert(all.take(it.index() + 1).last() == update);
                lemma_overflows_grow(all, it.index() + 1);
            }
            let ghost before = batch@;
            let ghost added = update.events@;
            let FimUpdate { events, overflows, counters } = update;
            let mut more = events;
            let ghost held = batch.fim@;
            batch.fim.append(&mut more);
            batch.overflows = batch.overflows + overflows;
            assert(event_models(batch.fim@) =~= event_models(held) + event_models(added));
            self.fim_counters = counters;
        }
        assert(all.take(all.len() as int) =~= all);
        if self.fim {
            self.declare_fim();
        }
    }

    fn take_line(&mut self, parsed: Option<super::logs::ParsedAuth>, batch: &mut HostBatch)
        requires
            old(self)@.counters.has_room(1),
        ensures
            (final(self)@.counters, final(batch)@.auth) == with_line(
                old(self)@.counters,
                old(batch)@.auth,
                parsed_model(parsed),
            ),
            final(self)@ == (SensorModel { counters: final(self)@.counters, ..old(self)@ }),
            final(batch)@ == (BatchModel { auth: final(batch)@.auth, ..old(batch)@ }),
    {
        self.counters.auth_records = self.counters.auth_records + 1;
        match parsed {
            Some(parsed) => {
                assert(texts(parsed.event.suspicious@).len() == parsed.event.suspicious@.len());
                if parsed.event.suspicious.len() > 0 {
                    self.counters.auth_suspicious = self.counters.auth_suspicious + 1;
                }
                let ghost before = batch.auth@;
                let ghost model = parsed.event@;
                batch.auth.push(parsed.event);
                assert(auth_models(batch.auth@) =~= auth_models(before).push(model));
            },
            None => self.counters.auth_unparsed = self.counters.auth_unparsed + 1,
        }
    }

    /// Take in the lines that a source produced, up to a budget, and say how much
    /// of the budget is left.
    fn take_lines(
        &mut self,
        lines: &Vec<String>,
        file: Option<&str>,
        budget: usize,
        batch: &mut HostBatch,
    ) -> (left: usize)
        requires
            old(self)@.counters.has_room(budget as int),
        ensures
            ({
                let some = budgeted(texts(lines@), budget as nat);
                &&& (final(self)@.counters, final(batch)@.auth) == with_lines(
                    old(self)@.counters,
                    old(batch)@.auth,
                    some,
                    lent_text(file),
                )
                &&& left == budget - some.len()
                &&& counted_up(old(self)@.counters, final(self)@.counters, some.len() as int)
            }),
            final(self)@ == (SensorModel { counters: final(self)@.counters, ..old(self)@ }),
            final(batch)@ == (BatchModel { auth: final(batch)@.auth, ..old(batch)@ }),
    {
        let source = match file {
            Some(file) => {
                let mut source = owned("file:");
                append(&mut source, file);
                source
            },
            None => owned("journald"),
        };
        let count: usize = if lines.len() <= budget {
            lines.len()
        } else {
            budget
        };
        let ghost some = budgeted(texts(lines@), budget as nat);
        let mut i: usize = 0;
        assert(some.take(0) =~= seq![]);
        while i < count
            invariant
                some == budgeted(texts(lines@), budget as nat),
                count == some.len(),
                count <= lines@.len(),
                count <= budget,
                i <= count,
                source@ == (match file {
                    Some(file) => "file:"@ + file@,
                    None => "journald"@,
                }),
                old(self)@.counters.has_room(budget as int),
                counted_up(old(self)@.counters, self@.counters, i as int),
                (self@.counters, batch@.auth) == with_lines(
                    old(self)@.counters,
                    old(batch)@.auth,
                    some.take(i as int),
                    lent_text(file),
                ),
                self@ == (SensorModel { counters: self@.counters, ..old(self)@ }),
                batch@ == (BatchModel { auth: batch@.auth, ..old(batch)@ }),
            decreases count - i,
        {
            assert(some[i as int] == lines@[i as int]@);
            assert(some.take(i + 1).drop_last() =~= some.take(i as int));
            let parsed = match file {
                Some(_) => parse_syslog_line(lines[i].as_str(), source.as_str()),
                None => parse_journal_record(lines[i].as_str(), source.as_str()),
            };
            self.take_line(parsed, batch);
            i = i + 1;
        }
        assert(some.take(i as int) =~= some);
        budget - count
    }

    /// Take in whatever the log sources have produced: the files in order, then
    /// the journal, and no more lines than one poll parses.
    pub fn poll_logs(
        &mut self,
        files: &Vec<(String, Vec<String>)>,
        journal: &Vec<String>,
        batch: &mut HostBatch,
    )
        requires
            old(self)@.counters.has_room(MAX_LOG_LINES_PER_POLL as int),
        ensures
            (final(self)@.counters, final(batch)@.auth) == with_logs(
                old(self)@.counters,
                old(batch)@.auth,
                log_models(files@),
                texts(journal@),
            ),
            final(self)@.counters.auth_records <= old(self)@.counters.auth_records
                + MAX_LOG_LINES_PER_POLL,
            final(self)@.counters.process_events == old(self)@.counters.process_events,
            final(self)@ == (SensorModel { counters: final(self)@.counters, ..old(self)@ }),
            final(batch)@ == (BatchModel { auth: final(batch)@.auth, ..old(batch)@ }),
    {
        let ghost all = log_models(files@);
        let mut budget: usize = MAX_LOG_LINES_PER_POLL;
        let mut i: usize = 0;
        assert(all.take(0) =~= seq![]);
        while i < files.len()
            invariant
                all == log_models(files@),
                i <= all.len(),
                budget <= MAX_LOG_LINES_PER_POLL,
                old(self)@.counters.has_room(MAX_LOG_LINES_PER_POLL as int),
                counted_up(
                    old(self)@.counters,
                    self@.counters,
                    MAX_LOG_LINES_PER_POLL - budget,
                ),
                (self@.counters, batch@.auth, budget as nat) == with_files(
                    old(self)@.counters,
                    old(batch)@.auth,
                    all.take(i as int),
                ),
                self@ == (SensorModel { counters: self@.counters, ..old(self)@ }),
                batch@ == (BatchModel { auth: batch@.auth, ..old(batch)@ }),
            decreases all.len() - i,
        {
            assert(all[i as int] == (files@[i as int].0@, texts(files@[i as int].1@)));
            assert(all.take(i + 1).drop_last() =~= all.take(i as int));
            let (file, lines) = &files[i];
            budget = self.take_lines(lines, Some(file.as_str()), budget, batch);
            i = i + 1;
        }
        assert(all.take(i as int) =~= all);
        self.take_lines(journal, None, budget, batch);
    }

    /// Whether a sweep is due.
    pub fn sweep_due(&self, now: Timestamp) -> (due: bool)
        ensures
            due == (self@.sweeping && now.nanos >= self@.next_sweep.nanos),
    {
        self.sweeping && now.nanos >= self.next_sweep.nanos
    }

    /// Take in what a sweep concluded.
    pub fn take_sweep(
        &mut self,
        now: Timestamp,
        outcome: SweepOutcome,
        sockets_readable: bool,
        batch: &mut HostBatch,
    )
        requires
            old(self).well_formed(),
            old(self)@.counters.process_events + outcome.events@.len() <= u64::MAX,
            old(self)@.sources.records_of(names::PROCESS_TABLE@) + outcome.events@.len()
                <= u64::MAX,
        ensures
            final(self).well_formed(),
            (final(self)@, final(batch)@) == after_sweep(
                old(self)@,
                old(batch)@,
                now,
                outcome,
                sockets_readable,
            ),
    {
        let ghost start = self@.sources;
        proof {
            lemma_sweep_keeps_records(
                start,
                self@.proc_root,
                outcome.processes_seen as nat,
                sockets_readable,
            );
        }
        if outcome.processes_seen <= 1 {
            let mut text = owned("a sweep of ");
            append(&mut text, self.proc_root.as_str());
            append(&mut text, " saw ");
            append_number(&mut text, outcome.processes_seen as u64);
            append(
                &mut text,
                " process(es); a process table always contains this one, so the view is restricted (ProtectProc/hidepid?), not quiet",
            );
            self.sources.unavailable(names::PROCESS_TABLE, text);
        } else {
            self.sources.active(names::PROCESS_TABLE);
        }
        if sockets_readable {
            self.sources.active(names::PROCESS_SOCKETS);
        } else {
            let mut text = owned("no socket table under ");
            append(&mut text, self.proc_root.as_str());
            append(&mut text, ": listening sockets are invisible (ProcSubset=pid?)");
            self.sources.unavailable(names::PROCESS_SOCKETS, text);
        }
        let count: u64 = outcome.events.len() as u64;
        self.sources.produced(names::PROCESS_TABLE, count);
        self.counters.process_events = self.counters.process_events + count;
        let ghost held = batch.process@;
        let ghost added = outcome.events@;
        let mut more = outcome.events;
        batch.process.append(&mut more);
        assert(super::process::event_models(batch.process@) =~= super::process::event_models(held)
            + super::process::event_models(added));
        self.next_sweep = now.saturating_add(self.process_interval);
    }

    /// Service every sensor once, with what there was to take in. A sweep is made
    /// only when one is due.
    pub fn poll_at(&mut self, now: Timestamp, polled: Polled) -> (batch: HostBatch)
        requires
            old(self).well_formed(),
            polled.sweep is Some ==> old(self)@.sweeping && now.nanos >= old(self)@.next_sweep.nanos,
            overflows_of(polled.updates@) <= u64::MAX,
            old(self)@.counters.has_room(MAX_LOG_LINES_PER_POLL as int),
            polled.sweep matches Some((outcome, _)) ==> {
                &&& old(self)@.counters.process_events + outcome.events@.len() <= u64::MAX
                &&& old(self)@.sources.records_of(names::PROCESS_TABLE@) + outcome.events@.len()
                    <= u64::MAX
            },
        ensures
            final(self).well_formed(),
            (final(self)@, batch@) == after_poll(old(self)@, now, polled),
    {
        let mut batch = HostBatch::default();
        let Polled { updates, files, journal, sweep } = polled;
        let ghost start = self@;
        self.drain_fim(updates, &mut batch);
        self.poll_logs(&files, &journal, &mut batch);
        if let Some((outcome, sockets_readable)) = sweep {
            proof {
                lemma_fim_keeps_process_records(start.sources, self@.fim_counters);
            }
            self.take_sweep(now, outcome, sockets_readable, &mut batch);
        }
        batch
    }
}

/// Whether the counts of log lines have gone up by no more than so much.
spec fn counted_up(before: HostCounters, after: HostCounters, by: int) -> bool {
    &&& after.auth_records <= before.auth_records + by
    &&& after.auth_suspicious <= before.auth_suspicious + by
    &&& after.auth_unparsed <= before.auth_unparsed + by
    &&& after.process_events == before.process_events
}

proof fn lemma_overflows_grow(updates: Seq<FimUpdate>, n: int)
    requires
        0 <= n <= updates.len(),
    ensures
        overflows_of(updates.take(n)) <= overflows_of(updates),
    decreases updates.len(),
{
    if n == updates.len() {
        assert(updates.take(n) =~= updates);
    } else {
        lemma_overflows_grow(updates.drop_last(), n);
        assert(updates.drop_last().take(n) =~= updates.take(n));
    }
}

/// Declaring states produces no records.
proof fn lemma_sweep_keeps_records(
    registry: RegistryModel,
    proc_root: Seq<char>,
    seen: nat,
    readable: bool,
)
    requires
        registry.well_formed(),
    ensures
        with_sockets_seen(
            with_table_seen(registry, proc_root, seen),
            proc_root,
            readable,
        ).records_of(names::PROCESS_TABLE@) == registry.records_of(names::PROCESS_TABLE@),
{
    let between = with_table_seen(registry, proc_root, seen);
    let detail = "a sweep of "@ + proc_root + " saw "@ + decimal(seen)
        + " process(es); a process table always contains this one, so the view is restricted (ProtectProc/hidepid?), not quiet"@;
    law_record_counts_survive_a_state_change(
        registry,
        names::PROCESS_TABLE@,
        SourceState::Unavailable,
        detail,
        names::PROCESS_TABLE@,
    );
    law_record_counts_survive_a_state_change(
        registry,
        names::PROCESS_TABLE@,
        SourceState::Active,
        seq![],
        names::PROCESS_TABLE@,
    );
    assert(names::PROCESS_TABLE@ != names::PROCESS_SOCKETS@) by {
        reveal_strlit("process.table");
        reveal_strlit("process.sockets");
        assert("process.table"@.len() != "process.sockets"@.len());
    }
    law_record_counts_survive_a_state_change(
        between,
        names::PROCESS_SOCKETS@,
        SourceState::Active,
        seq![],
        names::PROCESS_TABLE@,
    );
    law_record_counts_survive_a_state_change(
        between,
        names::PROCESS_SOCKETS@,
        SourceState::Unavailable,
        "no socket table under "@ + proc_root
            + ": listening sockets are invisible (ProcSubset=pid?)"@,
        names::PROCESS_TABLE@,
    );
}

proof fn lemma_fim_keeps_process_records(registry: RegistryModel, counters: FimCounters)
    requires
        registry.well_formed(),
    ensures
        with_fim(registry, counters).records_of(names::PROCESS_TABLE@) == registry.records_of(
            names::PROCESS_TABLE@,
        ),
{
    let table = names::PROCESS_TABLE@;
    assert(table != names::FIM_REALTIME@ && table != names::FIM_BASELINE@) by {
        reveal_strlit("process.table");
        reveal_strlit("fim.realtime");
        reveal_strlit("fim.baseline");
        assert("process.table"@[0] != "fim.realtime"@[0]);
        assert("process.table"@[0] != "fim.baseline"@[0]);
    }
    law_record_counts_survive_a_state_change(
        registry,
        names::FIM_REALTIME@,
        SourceState::Unavailable,
        "no path could be watched in real time; only the periodic rescan sees changes"@,
        table,
    );
    law_record_counts_survive_a_state_change(
        registry,
        names::FIM_REALTIME@,
        SourceState::Degraded,
        decimal(counters.watch_failures as nat)
            + " path(s) could not be watched; those are covered by the rescan only"@,
        table,
    );
    law_record_counts_survive_a_state_change(
        registry,
        names::FIM_REALTIME@,
        SourceState::Active,
        seq![],
        table,
    );
    let between = with_realtime(registry, counters);
    law_record_counts_survive_a_state_change(
        between,
        names::FIM_BASELINE@,
        SourceState::Unavailable,
        "a scan completed but the baseline is empty: hids.fim.paths matched no files"@,
        table,
    );
    law_record_counts_survive_a_state_change(
        between,
        names::FIM_BASELINE@,
        SourceState::Active,
        seq![],
        table,
    );
    let last = with_baseline(between, counters);
    lemma_with_status(
        last,
        match last.known(names::FIM_REALTIME@) {
            Some(status) => super::sources::StatusModel { name: names::FIM_REALTIME@, ..status },
            None => super::sources::StatusModel {
                name: names::FIM_REALTIME@,
                state: SourceState::Active,
                detail: seq![],
                records: 0,
            },
        },
        table,
    );
}

/// What a notification counts: a failure and an overflow one each, and both ask for a
/// rescan; changes one for each event, and nothing else.
pub proof fn law_notifications_are_counted(
    worker: WorkerModel,
    paths: Seq<(Seq<char>, InspectedModel)>,
)
    requires
        worker.counters.watch_failures < u64::MAX,
        worker.counters.overflows < u64::MAX,
    ensures
        ({
            let after = notified(worker, NotificationModel::Failed).0;
            &&& after.overflow_pending
            &&& after.counters.watch_failures == worker.counters.watch_failures + 1
            &&& after.counters.overflows == worker.counters.overflows
            &&& after.baseline == worker.baseline
        }),
        ({
            let after = notified(worker, NotificationModel::Overflowed).0;
            &&& after.overflow_pending
            &&& after.counters.overflows == worker.counters.overflows + 1
            &&& after.counters.watch_failures == worker.counters.watch_failures
            &&& after.baseline == worker.baseline
        }),
        ({
            let (after, events) = notified(worker, NotificationModel::Changed(paths));
            &&& after.overflow_pending == worker.overflow_pending
            &&& worker.counters.realtime + events.len() <= u64::MAX ==> after.counters.realtime
                == worker.counters.realtime + events.len()
            &&& after.counters.overflows == worker.counters.overflows
            &&& after.counters.watch_failures == worker.counters.watch_failures
        }),
{
}

/// Paths that changed are looked at one after another, each against what the ones before
/// left of the baseline.
pub proof fn law_changes_are_looked_at_in_order(
    baseline: BaselineModel,
    roots: Seq<Seq<char>>,
    paths: Seq<(Seq<char>, InspectedModel)>,
    last: (Seq<char>, InspectedModel),
)
    ensures
        ({
            let before = rechecked_all(baseline, roots, paths);
            let after = rechecked_all(baseline, roots, paths.push(last));
            let (then, event) = rechecked(before.0, roots, last.0, last.1);
            &&& after.0 == then
            &&& event matches Some(told) ==> after.1 == before.1.push(told)
            &&& event is None ==> after.1 == before.1
        }),
        rechecked_all(baseline, roots, seq![]) == (baseline, Seq::<FimModel>::empty()),
{
    assert(paths.push(last).drop_last() =~= paths);
}

/// A rescan is due after a gap, at the first tick and when its time has come, and not
/// otherwise; and it is counted with its events and the size of the baseline.
pub proof fn law_rescans_are_due_and_counted(
    worker: WorkerModel,
    now: Timestamp,
    files: Seq<(Seq<char>, InspectedModel)>,
    limits: WalkLimits,
    abandoned: bool,
)
    requires
        worker.counters.rescans < u64::MAX,
    ensures
        worker.overflow_pending || worker.next_rescan is None ==> is_due(worker, now),
        !worker.overflow_pending && worker.next_rescan is Some ==> (is_due(worker, now)
            <==> now.nanos >= worker.next_rescan->0.nanos),
        ({
            let (after, events) = ticked(worker, now, files, limits, abandoned);
            &&& after.counters.rescans == worker.counters.rescans + 1
            &&& worker.counters.rescan + events.len() <= u64::MAX ==> after.counters.rescan
                == worker.counters.rescan + events.len()
            &&& after.baseline.paths.len() <= u64::MAX ==> after.counters.baseline_entries
                == after.baseline.paths.len()
            &&& after.counters.realtime == worker.counters.realtime
            &&& !after.overflow_pending
            &&& now.nanos + worker.settings.rescan_interval.nanos <= u128::MAX
                ==> after.next_rescan is Some && after.next_rescan->0.nanos == now.nanos
                + worker.settings.rescan_interval.nanos
        }),
{
}

/// What a log line counts: itself, as not understood where it gives no event, and as
/// suspicious where its event has something to note; an event is handed over.
pub proof fn law_log_lines_are_counted(
    counters: HostCounters,
    events: Seq<AuthModel>,
    event: AuthModel,
)
    requires
        counters.has_room(1),
    ensures
        ({
            let (after, told) = with_line(counters, events, None);
            &&& after.auth_records == counters.auth_records + 1
            &&& after.auth_unparsed == counters.auth_unparsed + 1
            &&& after.auth_suspicious == counters.auth_suspicious
            &&& told == events
        }),
        ({
            let (after, told) = with_line(counters, events, Some(event));
            &&& after.auth_records == counters.auth_records + 1
            &&& after.auth_unparsed == counters.auth_unparsed
            &&& after.auth_suspicious == counters.auth_suspicious + if event.suspicious.len() == 0 {
                0int
            } else {
                1int
            }
            &&& told == events.push(event)
        }),
{
}

/// Every line of a source is read: each is counted once, and is either an event or not
/// understood.
pub proof fn law_every_line_is_an_event_or_unparsed(
    counters: HostCounters,
    events: Seq<AuthModel>,
    lines: Seq<Seq<char>>,
    file: Option<Seq<char>>,
)
    requires
        counters.has_room(lines.len() as int),
    ensures
        ({
            let (after, told) = with_lines(counters, events, lines, file);
            &&& after.auth_records == counters.auth_records + lines.len()
            &&& told.len() + after.auth_unparsed == events.len() + counters.auth_unparsed
                + lines.len()
            &&& told.len() >= events.len()
            &&& told.take(events.len() as int) == events
            &&& after.auth_unparsed <= counters.auth_unparsed + lines.len()
            &&& after.auth_suspicious <= counters.auth_suspicious + lines.len()
        }),
    decreases lines.len(),
{
    if lines.len() > 0 {
        let init = lines.drop_last();
        law_every_line_is_an_event_or_unparsed(counters, events, init, file);
        let (before, so_far) = with_lines(counters, events, init, file);
        let (after, told) = with_lines(counters, events, lines, file);
        assert(told.take(events.len() as int) =~= so_far.take(events.len() as int));
    } else {
        assert(events.take(events.len() as int) =~= events);
    }
}

/// A line of a file is a line of syslog under that file, and one of the journal a record
/// of the journal.
pub proof fn law_lines_are_read_by_their_source(line: Seq<char>, file: Seq<char>)
    ensures
        line_event(line, Some(file)) == syslog_of(line, "file:"@ + file),
        line_event(line, None) == journal_of(line, "journald"@),
{
}

/// A poll reads at most 1024 lines: the files in order, each as far as the budget goes, and
/// then the journal. What fits is read whole.
pub proof fn law_a_poll_keeps_to_its_budget(
    counters: HostCounters,
    events: Seq<AuthModel>,
    files: Seq<(Seq<char>, Seq<Seq<char>>)>,
    journal: Seq<Seq<char>>,
    lines: Seq<Seq<char>>,
    budget: nat,
)
    requires
        counters.has_room(1_024),
    ensures
        lines.len() <= budget ==> budgeted(lines, budget) == lines,
        lines.len() > budget ==> budgeted(lines, budget) == lines.take(budget as int),
        ({
            let (after, told, left) = with_files(counters, events, files);
            &&& left <= 1_024
            &&& after.auth_records + left == counters.auth_records + 1_024
            &&& after.auth_unparsed + left <= counters.auth_unparsed + 1_024
            &&& after.auth_suspicious + left <= counters.auth_suspicious + 1_024
        }),
        ({
            let left = with_files(counters, events, files).2;
            with_logs(counters, events, files, journal).0.auth_records == counters.auth_records
                + 1_024 - left + budgeted(journal, left).len()
        }),
        with_logs(counters, events, files, journal).0.auth_records <= counters.auth_records + 1_024,
    decreases files.len(),
{
    if files.len() > 0 {
        let init = files.drop_last();
        law_a_poll_keeps_to_its_budget(counters, events, init, journal, lines, budget);
        let (before, so_far, left) = with_files(counters, events, init);
        let some = budgeted(files.last().1, left);
        law_every_line_is_an_event_or_unparsed(before, so_far, some, Some(files.last().0));
    }
    let (after, told, left) = with_files(counters, events, files);
    law_every_line_is_an_event_or_unparsed(after, told, budgeted(journal, left), None);
}

/// What exists of the configured files decides the state of their source: all of them
/// make it active, some degraded, none unavailable. Without any nothing is said.
pub proof fn law_log_files_decide_their_state(
    registry: RegistryModel,
    files: Seq<(Seq<char>, bool)>,
    there: Seq<char>,
    missing: Seq<char>,
)
    requires
        registry.well_formed(),
    ensures
        existing(files) <= files.len(),
        existing(files.push((there, true))) == existing(files) + 1,
        existing(files.push((missing, false))) == existing(files),
        files.len() == 0 ==> with_auth_files(registry, files) == registry,
        files.len() > 0 ==> (with_auth_files(registry, files).known("auth.files"@) matches Some(
            status,
        ) && {
            &&& existing(files) == files.len() <==> status.state == SourceState::Active
            &&& existing(files) == 0 <==> status.state == SourceState::Unavailable
            &&& 0 < existing(files) < files.len() <==> status.state == SourceState::Degraded
        }),
    decreases files.len(),
{
    assert(files.push((there, true)).drop_last() =~= files);
    assert(files.push((missing, false)).drop_last() =~= files);
    if files.len() > 0 {
        law_log_files_decide_their_state(registry, files.drop_last(), there, missing);
        let name = "auth.files"@;
        law_record_counts_survive_a_state_change(registry, name, SourceState::Active, seq![], name);
        law_record_counts_survive_a_state_change(
            registry,
            name,
            SourceState::Degraded,
            decimal(existing(files)) + " of "@ + decimal(files.len()) + " configured files exist"@,
            name,
        );
        law_record_counts_survive_a_state_change(
            registry,
            name,
            SourceState::Unavailable,
            "none of the configured files exist: "@ + listed(
                files.map_values(|file: (Seq<char>, bool)| file.0),
            ),
            name,
        );
    }
}

/// What the counters say of the two detectors of file changes: watching is active without
/// failures, degraded with some and unavailable where nothing could be watched; and a
/// scan that found nothing makes the baseline unavailable, any other active.
pub proof fn law_counters_decide_the_detectors(registry: RegistryModel, counters: FimCounters)
    requires
        registry.well_formed(),
    ensures
        ({
            let watching = with_realtime(registry, counters).known("fim.realtime"@);
            &&& counters.watch_failures == 0 && counters.watched_paths > 0 ==> watching is Some
                && watching->0.state == SourceState::Active
            &&& counters.watch_failures > 0 && counters.watched_paths > 0 ==> watching is Some
                && watching->0.state == SourceState::Degraded
            &&& counters.watch_failures > 0 && counters.watched_paths == 0 ==> watching is Some
                && watching->0.state == SourceState::Unavailable
            &&& counters.watch_failures == 0 && counters.watched_paths == 0 ==> with_realtime(
                registry,
                counters,
            ) == registry
        }),
        ({
            let scanning = with_baseline(registry, counters).known("fim.baseline"@);
            &&& counters.rescans > 0 && counters.baseline_entries > 0 ==> scanning is Some
                && scanning->0.state == SourceState::Active
            &&& counters.rescans > 0 && counters.baseline_entries == 0 ==> scanning is Some
                && scanning->0.state == SourceState::Unavailable
            &&& counters.rescans == 0 ==> with_baseline(registry, counters) == registry
        }),
{
    let watching = "fim.realtime"@;
    let scanning = "fim.baseline"@;
    law_record_counts_survive_a_state_change(registry, watching, SourceState::Active, seq![], watching);
    law_record_counts_survive_a_state_change(registry, scanning, SourceState::Active, seq![], scanning);
    law_record_counts_survive_a_state_change(
        registry,
        watching,
        SourceState::Degraded,
        decimal(counters.watch_failures as nat)
            + " path(s) could not be watched; those are covered by the rescan only"@,
        watching,
    );
    law_record_counts_survive_a_state_change(
        registry,
        watching,
        SourceState::Unavailable,
        "no path could be watched in real time; only the periodic rescan sees changes"@,
        watching,
    );
    law_record_counts_survive_a_state_change(
        registry,
        scanning,
        SourceState::Unavailable,
        "a scan completed but the baseline is empty: hids.fim.paths matched no files"@,
        scanning,
    );
}

/// A sweep that saw at most itself has a restricted view, and so has one that could read
/// no socket table; otherwise the sources are active.
pub proof fn law_a_sweep_decides_its_sources(
    registry: RegistryModel,
    proc_root: Seq<char>,
    seen: nat,
    readable: bool,
)
    requires
        registry.well_formed(),
    ensures
        ({
            let table = with_table_seen(registry, proc_root, seen).known("process.table"@);
            &&& table is Some
            &&& seen >= 2 <==> table->0.state == SourceState::Active
            &&& seen <= 1 <==> table->0.state == SourceState::Unavailable
        }),
        ({
            let sockets = with_sockets_seen(registry, proc_root, readable).known(
                "process.sockets"@,
            );
            &&& sockets is Some
            &&& readable <==> sockets->0.state == SourceState::Active
            &&& !readable <==> sockets->0.state == SourceState::Unavailable
        }),
{
    let table = "process.table"@;
    let sockets = "process.sockets"@;
    law_record_counts_survive_a_state_change(registry, table, SourceState::Active, seq![], table);
    law_record_counts_survive_a_state_change(registry, sockets, SourceState::Active, seq![], sockets);
    law_record_counts_survive_a_state_change(
        registry,
        table,
        SourceState::Unavailable,
        "a sweep of "@ + proc_root + " saw "@ + decimal(seen)
            + " process(es); a process table always contains this one, so the view is restricted (ProtectProc/hidepid?), not quiet"@,
        table,
    );
    law_record_counts_survive_a_state_change(
        registry,
        sockets,
        SourceState::Unavailable,
        "no socket table under "@ + proc_root
            + ": listening sockets are invisible (ProcSubset=pid?)"@,
        sockets,
    );
}

/// A sweep hands over its events, counts them, and sets the time of the next one.
pub proof fn law_a_sweep_hands_over_its_events(
    sensor: SensorModel,
    batch: BatchModel,
    now: Timestamp,
    outcome: SweepOutcome,
    readable: bool,
)
    ensures
        ({
            let (after, told) = after_sweep(sensor, batch, now, outcome, readable);
            &&& told.process.len() == batch.process.len() + outcome.events@.len()
            &&& told.process.take(batch.process.len() as int) == batch.process
            &&& told.fim == batch.fim && told.auth == batch.auth
            &&& sensor.counters.process_events + outcome.events@.len() <= u64::MAX
                ==> after.counters.process_events == sensor.counters.process_events
                + outcome.events@.len()
            &&& now.nanos + sensor.interval.nanos <= u128::MAX ==> after.next_sweep.nanos
                == now.nanos + sensor.interval.nanos
            &&& after.fim_counters == sensor.fim_counters
        }),
{
    let (after, told) = after_sweep(sensor, batch, now, outcome, readable);
    assert(told.process.take(batch.process.len() as int) =~= batch.process);
}

/// Updates of the worker are taken in order: all their events are handed over, their
/// overflows add up, and the counters are those of the last.
pub proof fn law_updates_are_taken_in_order(
    batch: BatchModel,
    counters: FimCounters,
    updates: Seq<FimUpdate>,
    last: FimUpdate,
)
    ensures
        with_updates(batch, counters, seq![]) == (batch, counters),
        ({
            let before = with_updates(batch, counters, updates);
            let after = with_updates(batch, counters, updates.push(last));
            &&& after.0.fim == before.0.fim + event_models(last.events@)
            &&& after.0.overflows == before.0.overflows + last.overflows
            &&& after.0.auth == before.0.auth && after.0.process == before.0.process
            &&& after.1 == last.counters
        }),
        overflows_of(updates.push(last)) == overflows_of(updates) + last.overflows,
{
    assert(updates.push(last).drop_last() =~= updates);
}

/// Names are listed with a comma and a space between them.
pub proof fn law_names_are_listed_with_commas(names: Seq<Seq<char>>, name: Seq<char>)
    ensures
        listed(seq![name]) == name,
        names.len() > 0 ==> listed(names.push(name)) == listed(names) + seq![',', ' '] + name,
{
    reveal_strlit(", ");
    assert(", "@ =~= seq![',', ' ']);
    assert(names.push(name).drop_last() =~= names);
}

} // verus!
