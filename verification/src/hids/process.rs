//! Process and listening-socket monitoring.
//!
//! Reads `/proc` rather than hooking anything. That is a deliberate trade: a
//! poller misses processes that start and exit between sweeps. In exchange it
//! needs no kernel module and no audit configuration, and it cannot wedge the
//! machine.
//!
//! Two things are reported, both from the same sweep:
//!
//! * **New processes**: a pid appearing that the previous sweep did not have.
//!   Compared by `(pid, start-time)`, not pid alone, so a recycled pid reads as
//!   a new process rather than the old one continuing.
//! * **New listening sockets**: a `LISTEN`-state entry whose local address the
//!   previous sweep did not have. That is the signal that matters for a
//!   backdoor: something on this host is now accepting connections that was not
//!   before.
//!
//! The caller reads the files; everything that is concluded from them is here.

use vstd::prelude::*;
use crate::address::{append_endpoint, endpoint_text};
use crate::bytes::{decode_utf8, utf8_text};
use crate::net::{
    endpoint_at_most, endpoint_le, law_endpoints_are_in_one_order, lemma_endpoint_order,
    same_endpoint, Endpoint,
};
use crate::text::{
    append_number, append, chars_of, decimal, equal, law_a_number_reads_back,
    law_pieces_stand_between_separators, number, optional_text, owned, parse_number, pieces,
    split_at_char, string_of, texts, views,
};
use super::clean::{sanitise, sanitised};
use super::event::{ProcessChange, ProcessEvent, ProcessModel};
use super::procfs::{
    parse_net_table, parse_stat, parse_status_uid, stat_of, table_of, uid_of, ListeningSocket,
};

verus! {

/// Most processes tracked. Beyond this the sweep stops and reports truncation
/// rather than growing without bound on a fork-bombed host.
pub const DEFAULT_MAX_PROCESSES: usize = 16_384;

/// Most listening sockets tracked.
pub const DEFAULT_MAX_SOCKETS: usize = 8_192;

/// Longest command line kept on an event.
pub const MAX_COMMAND_LINE: usize = 4_096;

/// Identity of a running process.
///
/// The start time is part of the identity because pids are recycled. Without it,
/// a short-lived process exiting and its pid being reused looks like nothing
/// happened at all.
#[derive(Debug, Clone, Copy, PartialEq, Eq, Structural)]
pub struct ProcessKey {
    /// Process id.
    pub pid: u32,
    /// Start time in kernel clock ticks since boot, from `/proc/<pid>/stat`.
    pub start_time: u64,
}

impl ProcessKey {
    /// The order of processes: by pid, then by start time.
    pub open spec fn before(self, other: ProcessKey) -> bool {
        self.pid < other.pid || (self.pid == other.pid && self.start_time < other.start_time)
    }
}

/// What is known of one process.
pub struct InfoModel {
    /// Identity.
    pub key: ProcessKey,
    /// Executable name.
    pub name: Seq<char>,
    /// Path to the executable.
    pub executable: Option<Seq<char>>,
    /// Command line.
    pub command_line: Option<Seq<char>>,
    /// Real user id.
    pub uid: Option<u32>,
    /// Parent pid.
    pub parent_pid: Option<u32>,
}

/// What a sweep found about one process.
#[derive(Debug, Clone, PartialEq, Eq)]
pub struct ProcessInfo {
    /// Identity.
    pub key: ProcessKey,
    /// Executable name.
    pub name: String,
    /// Resolved path to the executable, where the link could be read.
    pub executable: Option<String>,
    /// Command line, NUL-separated in `/proc`, joined and truncated here.
    pub command_line: Option<String>,
    /// Real user id.
    pub uid: Option<u32>,
    /// Parent pid.
    pub parent_pid: Option<u32>,
}

impl View for ProcessInfo {
    type V = InfoModel;

    open spec fn view(&self) -> InfoModel {
        InfoModel {
            key: self.key,
            name: self.name@,
            executable: optional_text(self.executable),
            command_line: optional_text(self.command_line),
            uid: self.uid,
            parent_pid: self.parent_pid,
        }
    }
}

/// What the files of one `/proc/<pid>` directory held, each where it could be
/// read.
pub struct ProcessFiles {
    /// `stat`, the one file readable for another user's process, which carries
    /// the start time that the identity needs.
    pub stat: Option<String>,
    /// The target of `exe`.
    pub executable: Option<String>,
    /// `cmdline`.
    pub command_line: Option<Vec<u8>>,
    /// `status`.
    pub status: Option<String>,
}

/// The parts of a text that are not empty, joined by spaces.
pub open spec fn spaced(parts: Seq<Seq<char>>) -> Seq<char>
    decreases parts.len(),
{
    if parts.len() == 0 {
        seq![]
    } else {
        let before = spaced(parts.drop_last());
        if parts.last().len() == 0 {
            before
        } else if before.len() == 0 {
            parts.last()
        } else {
            before.push(' ') + parts.last()
        }
    }
}

/// The command line that NUL-separated text gives; none where it is empty.
pub open spec fn command_of(text: Seq<char>) -> Option<Seq<char>> {
    let joined = spaced(pieces(text, '\0'));
    if joined.len() == 0 {
        None
    } else {
        Some(sanitised(joined, MAX_COMMAND_LINE as nat))
    }
}

/// What the files of a process say; nothing where `stat` could not be read or
/// does not parse.
pub open spec fn info_of(pid: u32, files: ProcessFiles) -> Option<InfoModel> {
    match files.stat {
        None => None,
        Some(stat) => match stat_of(stat@) {
            None => None,
            Some((name, parent_pid, start_time)) => Some(
                InfoModel {
                    key: ProcessKey { pid, start_time },
                    name,
                    executable: optional_text(files.executable),
                    command_line: match files.command_line {
                        Some(bytes) => command_of(utf8_text(bytes@)),
                        None => None,
                    },
                    uid: match files.status {
                        Some(status) => uid_of(status@),
                        None => None,
                    },
                    parent_pid,
                },
            ),
        },
    }
}

/// Join a NUL-separated command line.
pub fn join_command_line(text: &str) -> (command: Option<String>)
    ensures
        optional_text(command) == command_of(text@),
{
    let chars = chars_of(text);
    let parts = split_at_char(chars.as_slice(), '\0');
    let ghost all = pieces(text@, '\0');
    let mut joined: Vec<char> = Vec::new();
    let mut i: usize = 0;
    assert(joined@ =~= spaced(all.take(0)));
    while i < parts.len()
        invariant
            all == views(parts@),
            i <= all.len(),
            joined@ == spaced(all.take(i as int)),
        decreases all.len() - i,
    {
        assert(all[i as int] == parts@[i as int]@);
        assert(all.take(i + 1).drop_last() =~= all.take(i as int));
        let ghost before = joined@;
        if parts[i].len() > 0 {
            if joined.len() > 0 {
                joined.push(' ');
            }
            joined.extend_from_slice(parts[i]);
            assert(joined@ =~= if before.len() == 0 {
                all[i as int]
            } else {
                before.push(' ') + all[i as int]
            });
        }
        i = i + 1;
    }
    assert(all.take(i as int) =~= all);
    if joined.len() == 0 {
        return None;
    }
    let (clean, _) = sanitise(joined.as_slice(), MAX_COMMAND_LINE);
    Some(string_of(clean.as_slice()))
}

/// Read what the files of one `/proc/<pid>` directory say.
fn read_process(pid: u32, files: ProcessFiles) -> (info: Option<ProcessInfo>)
    ensures
        match info {
            Some(info) => info_of(pid, files) == Some(info@),
            None => info_of(pid, files) is None,
        },
{
    let (name, parent_pid, start_time) = match &files.stat {
        Some(stat) => match parse_stat(stat.as_str()) {
            Some(fields) => fields,
            None => return None,
        },
        None => return None,
    };
    let command_line = match &files.command_line {
        Some(bytes) => {
            let text = decode_utf8(bytes.as_slice());
            join_command_line(text.as_str())
        },
        None => None,
    };
    let uid = match &files.status {
        Some(status) => parse_status_uid(status.as_str()),
        None => None,
    };
    Some(
        ProcessInfo {
            key: ProcessKey { pid, start_time },
            name,
            executable: files.executable,
            command_line,
            uid,
            parent_pid,
        },
    )
}

/// The models of processes.
pub open spec fn info_models(infos: Seq<ProcessInfo>) -> Seq<InfoModel> {
    infos.map_values(|info: ProcessInfo| info@)
}

/// Processes with one put in its place, in place of one with the same identity.
pub open spec fn with_process(infos: Seq<InfoModel>, info: InfoModel) -> Seq<InfoModel>
    decreases infos.len(),
{
    if infos.len() == 0 {
        seq![info]
    } else if infos[0].key == info.key {
        infos.update(0, info)
    } else if info.key.before(infos[0].key) {
        seq![info] + infos
    } else {
        seq![infos[0]] + with_process(infos.skip(1), info)
    }
}

/// Sockets with one put in its place, in place of one with the same address.
pub open spec fn with_socket(sockets: Seq<ListeningSocket>, socket: ListeningSocket) -> Seq<
    ListeningSocket,
>
    decreases sockets.len(),
{
    if sockets.len() == 0 {
        seq![socket]
    } else if sockets[0].address == socket.address {
        sockets.update(0, socket)
    } else if endpoint_at_most(socket.address, sockets[0].address) {
        seq![socket] + sockets
    } else {
        seq![sockets[0]] + with_socket(sockets.skip(1), socket)
    }
}

/// What a sweep holds.
pub struct SnapshotModel {
    /// Live processes, in the order of their identities.
    pub processes: Seq<InfoModel>,
    /// Listening sockets, in the order of their addresses.
    pub listening: Seq<ListeningSocket>,
    /// Entries dropped because a bound was reached.
    pub truncated: nat,
    /// Entries that could not be read.
    pub unreadable: nat,
}

/// One sweep of `/proc`.
#[derive(Debug)]
pub struct Snapshot {
    /// Live processes, in the order of their identities.
    pub processes: Vec<ProcessInfo>,
    /// Listening sockets, in the order of their addresses.
    pub listening: Vec<ListeningSocket>,
    /// Entries dropped because a bound was reached.
    pub truncated: u64,
    /// Entries that could not be read: usually a process that exited mid-sweep,
    /// which is normal and not an error.
    pub unreadable: u64,
}

impl View for Snapshot {
    type V = SnapshotModel;

    open spec fn view(&self) -> SnapshotModel {
        SnapshotModel {
            processes: info_models(self.processes@),
            listening: self.listening@,
            truncated: self.truncated as nat,
            unreadable: self.unreadable as nat,
        }
    }
}

/// A sweep that has seen nothing yet.
pub open spec fn empty_snapshot() -> SnapshotModel {
    SnapshotModel { processes: seq![], listening: seq![], truncated: 0, unreadable: 0 }
}

impl Default for Snapshot {
    fn default() -> (snapshot: Self)
        ensures
            snapshot@ == empty_snapshot(),
    {
        let snapshot = Snapshot {
            processes: Vec::new(),
            listening: Vec::new(),
            truncated: 0,
            unreadable: 0,
        };
        assert(snapshot@.processes =~= seq![]);
        assert(snapshot@.listening =~= seq![]);
        snapshot
    }
}

/// Bounds for a sweep.
#[derive(Debug, Clone, Copy)]
pub struct ScanLimits {
    /// Most processes tracked.
    pub max_processes: usize,
    /// Most sockets tracked.
    pub max_sockets: usize,
}

impl Default for ScanLimits {
    fn default() -> (limits: Self)
        ensures
            limits == (ScanLimits {
                max_processes: DEFAULT_MAX_PROCESSES,
                max_sockets: DEFAULT_MAX_SOCKETS,
            }),
    {
        Self { max_processes: DEFAULT_MAX_PROCESSES, max_sockets: DEFAULT_MAX_SOCKETS }
    }
}

/// The process id that a directory name is.
pub open spec fn pid_of(name: Seq<char>) -> Option<u32> {
    match number(name, 10, u32::MAX as int) {
        Some(pid) => Some(pid as u32),
        None => None,
    }
}

/// One entry of the `/proc` directory.
pub struct ProcEntry {
    /// The entry's name.
    pub name: String,
    /// What the files in it held.
    pub files: ProcessFiles,
}

/// A sweep after one more entry of the directory.
pub open spec fn with_entry(
    snapshot: SnapshotModel,
    name: Seq<char>,
    files: ProcessFiles,
    limits: ScanLimits,
) -> SnapshotModel {
    match pid_of(name) {
        None => snapshot,
        Some(pid) => if snapshot.processes.len() >= limits.max_processes {
            SnapshotModel { truncated: snapshot.truncated + 1, ..snapshot }
        } else {
            match info_of(pid, files) {
                Some(info) => SnapshotModel {
                    processes: with_process(snapshot.processes, info),
                    ..snapshot
                },
                None => SnapshotModel { unreadable: snapshot.unreadable + 1, ..snapshot },
            }
        },
    }
}

/// A sweep after the first so many entries of the directory.
pub open spec fn with_entries(
    snapshot: SnapshotModel,
    entries: Seq<ProcEntry>,
    limits: ScanLimits,
) -> SnapshotModel
    decreases entries.len(),
{
    if entries.len() == 0 {
        snapshot
    } else {
        with_entry(
            with_entries(snapshot, entries.drop_last(), limits),
            entries.last().name@,
            entries.last().files,
            limits,
        )
    }
}

/// A sweep after the sockets of a table from a place on. The walk stops at the
/// first socket that finds no room.
pub open spec fn with_sockets(
    snapshot: SnapshotModel,
    sockets: Seq<ListeningSocket>,
    i: int,
    limits: ScanLimits,
) -> SnapshotModel
    decreases sockets.len() - i,
{
    if i < 0 || i >= sockets.len() {
        snapshot
    } else if snapshot.listening.len() >= limits.max_sockets {
        SnapshotModel { truncated: snapshot.truncated + 1, ..snapshot }
    } else {
        with_sockets(
            SnapshotModel { listening: with_socket(snapshot.listening, sockets[i]), ..snapshot },
            sockets,
            i + 1,
            limits,
        )
    }
}

/// A sweep after a table, where it could be read.
pub open spec fn with_table(
    snapshot: SnapshotModel,
    table: Option<Seq<char>>,
    v6: bool,
    limits: ScanLimits,
) -> SnapshotModel {
    match table {
        Some(text) => with_sockets(snapshot, table_of(text, v6), 0, limits),
        None => snapshot,
    }
}

fn key_before(a: ProcessKey, b: ProcessKey) -> (yes: bool)
    ensures
        yes == a.before(b),
{
    a.pid < b.pid || (a.pid == b.pid && a.start_time < b.start_time)
}

impl Snapshot {
    fn put_process(&mut self, info: ProcessInfo)
        ensures
            final(self)@ == (SnapshotModel {
                processes: with_process(old(self)@.processes, info@),
                ..old(self)@
            }),
    {
        let ghost infos = self@.processes;
        let ghost rest_of = *self;
        let mut i: usize = 0;
        assert(infos.skip(0) =~= infos);
        assert(infos.take(0) + with_process(infos, info@) =~= with_process(infos, info@));
        while i < self.processes.len()
            invariant
                *self == *old(self),
                infos == self@.processes,
                i <= infos.len(),
                infos.take(i as int) + with_process(infos.skip(i as int), info@) == with_process(
                    infos,
                    info@,
                ),
            decreases infos.len() - i,
        {
            let ghost rest = infos.skip(i as int);
            assert(rest[0] == infos[i as int]);
            assert(rest.skip(1) =~= infos.skip(i + 1));
            assert(infos[i as int] == self.processes@[i as int]@);
            if self.processes[i].key == info.key {
                let ghost model = info@;
                self.processes.set(i, info);
                assert(self@.processes =~= infos.take(i as int) + rest.update(0, model));
                return;
            }
            if key_before(info.key, self.processes[i].key) {
                let ghost model = info@;
                self.processes.insert(i, info);
                assert(self@.processes =~= infos.take(i as int) + (seq![model] + rest));
                return;
            }
            proof {
                let more = with_process(infos.skip(i + 1), info@);
                assert(infos.take(i + 1) + more =~= infos.take(i as int) + (seq![infos[i as int]]
                    + more));
            }
            i = i + 1;
        }
        proof {
            assert(infos.skip(i as int) =~= seq![]);
            assert(infos.take(i as int) =~= infos);
        }
        let ghost model = info@;
        self.processes.push(info);
        assert(self@.processes =~= infos + seq![model]);
    }

    fn put_socket(&mut self, socket: ListeningSocket)
        ensures
            final(self)@ == (SnapshotModel {
                listening: with_socket(old(self)@.listening, socket),
                ..old(self)@
            }),
    {
        let ghost sockets = self@.listening;
        let mut i: usize = 0;
        assert(sockets.skip(0) =~= sockets);
        assert(sockets.take(0) + with_socket(sockets, socket) =~= with_socket(sockets, socket));
        while i < self.listening.len()
            invariant
                *self == *old(self),
                sockets == self@.listening,
                i <= sockets.len(),
                sockets.take(i as int) + with_socket(sockets.skip(i as int), socket) == with_socket(
                    sockets,
                    socket,
                ),
            decreases sockets.len() - i,
        {
            let ghost rest = sockets.skip(i as int);
            assert(rest[0] == sockets[i as int]);
            assert(rest.skip(1) =~= sockets.skip(i + 1));
            if same_endpoint(&self.listening[i].address, &socket.address) {
                self.listening.set(i, socket);
                assert(self@.listening =~= sockets.take(i as int) + rest.update(0, socket));
                return;
            }
            if endpoint_le(&socket.address, &self.listening[i].address) {
                self.listening.insert(i, socket);
                assert(self@.listening =~= sockets.take(i as int) + (seq![socket] + rest));
                return;
            }
            proof {
                let more = with_socket(sockets.skip(i + 1), socket);
                assert(sockets.take(i + 1) + more =~= sockets.take(i as int) + (seq![
                    sockets[i as int],
                ] + more));
            }
            i = i + 1;
        }
        proof {
            assert(sockets.skip(i as int) =~= seq![]);
            assert(sockets.take(i as int) =~= sockets);
        }
        self.listening.push(socket);
        assert(self@.listening =~= sockets + seq![socket]);
    }

    /// Whether taking in an entry of the directory looks at its files. Where it does
    /// not, they need not be read.
    pub fn reads(&self, name: &str, limits: ScanLimits) -> (reads: bool)
        ensures
            reads == (pid_of(name@) is Some && self@.processes.len() < limits.max_processes),
            !reads ==> forall|one: ProcessFiles, other: ProcessFiles| #[trigger]
                with_entry(self@, name@, one, limits) == #[trigger] with_entry(
                    self@,
                    name@,
                    other,
                    limits,
                ),
    {
        let chars = chars_of(name);
        parse_number(chars.as_slice(), 10, u32::MAX as u64).is_some() && self.processes.len()
            < limits.max_processes
    }

    /// Take in one entry of the directory. Names that are no pid are passed over;
    /// what finds no room is counted.
    pub fn add_entry(&mut self, entry: ProcEntry, limits: ScanLimits)
        requires
            old(self).truncated < u64::MAX,
            old(self).unreadable < u64::MAX,
        ensures
            final(self)@ == with_entry(old(self)@, entry.name@, entry.files, limits),
    {
        let ProcEntry { name, files } = entry;
        let chars = chars_of(name.as_str());
        let pid: u32 = match parse_number(chars.as_slice(), 10, u32::MAX as u64) {
            Some(pid) => pid as u32,
            None => return,
        };
        if self.processes.len() >= limits.max_processes {
            self.truncated = self.truncated + 1;
            return;
        }
        match read_process(pid, files) {
            Some(info) => self.put_process(info),
            None => self.unreadable = self.unreadable + 1,
        }
    }

    /// Take in a socket table.
    pub fn add_table(&mut self, text: &str, is_v6: bool, limits: ScanLimits)
        requires
            old(self).truncated < u64::MAX,
        ensures
            final(self)@ == with_sockets(old(self)@, table_of(text@, is_v6), 0, limits),
    {
        let sockets = parse_net_table(text, is_v6);
        let ghost goal = with_sockets(self@, sockets@, 0, limits);
        let mut i: usize = 0;
        while i < sockets.len()
            invariant
                i <= sockets@.len(),
                self.truncated < u64::MAX,
                goal == with_sockets(old(self)@, table_of(text@, is_v6), 0, limits),
                with_sockets(self@, sockets@, i as int, limits) == goal,
            decreases sockets@.len() - i,
        {
            if self.listening.len() >= limits.max_sockets {
                self.truncated = self.truncated + 1;
                return;
            }
            self.put_socket(sockets[i]);
            i = i + 1;
        }
    }
}

/// A whole sweep. Only TCP `LISTEN` is reported: UDP has no listen state, and a
/// bound UDP socket is far more often ordinary than interesting.
pub open spec fn swept(
    entries: Option<Seq<ProcEntry>>,
    tcp: Option<Seq<char>>,
    tcp6: Option<Seq<char>>,
    limits: ScanLimits,
) -> SnapshotModel {
    match entries {
        None => SnapshotModel { unreadable: 1, ..empty_snapshot() },
        Some(entries) => with_table(
            with_table(with_entries(empty_snapshot(), entries, limits), tcp, false, limits),
            tcp6,
            true,
            limits,
        ),
    }
}

proof fn lemma_entries_counted(entries: Seq<ProcEntry>, limits: ScanLimits)
    ensures
        with_entries(empty_snapshot(), entries, limits).truncated + with_entries(
            empty_snapshot(),
            entries,
            limits,
        ).unreadable <= entries.len(),
    decreases entries.len(),
{
    if entries.len() > 0 {
        lemma_entries_counted(entries.drop_last(), limits);
    }
}

/// Take one sweep of a `/proc` tree: its entries, and its two socket tables where
/// they could be read.
pub fn snapshot(
    entries: Option<Vec<ProcEntry>>,
    tcp: Option<&str>,
    tcp6: Option<&str>,
    limits: ScanLimits,
) -> (snapshot: Snapshot)
    requires
        entries matches Some(entries) ==> entries@.len() + 2 < u64::MAX,
    ensures
        snapshot@ == swept(
            match entries {
                Some(entries) => Some(entries@),
                None => None,
            },
            super::logs::lent_text(tcp),
            super::logs::lent_text(tcp6),
            limits,
        ),
{
    let mut snapshot = Snapshot::default();
    let entries = match entries {
        Some(entries) => entries,
        None => {
            snapshot.unreadable = 1;
            return snapshot;
        },
    };
    let ghost all = entries@;
    assert(all.take(0) =~= seq![]);
    for entry in it: entries
        invariant
            it.seq() == all,
            all.len() + 2 < u64::MAX,
            snapshot@ == with_entries(empty_snapshot(), all.take(it.index() as int), limits),
    {
        proof {
            lemma_entries_counted(all.take(it.index() as int), limits);
            assert(all.take(it.index() + 1).drop_last() =~= all.take(it.index() as int));
            assert(all.take(it.index() + 1).last() == entry);
        }
        snapshot.add_entry(entry, limits);
    }
    proof {
        assert(all.take(all.len() as int) =~= all);
        lemma_entries_counted(all, limits);
    }
    if let Some(text) = tcp {
        let ghost before = snapshot@;
        snapshot.add_table(text, false, limits);
        proof {
            lemma_table_counted(before, table_of(text@, false), 0, limits);
        }
    }
    if let Some(text) = tcp6 {
        snapshot.add_table(text, true, limits);
    }
    snapshot
}

proof fn lemma_table_counted(
    snapshot: SnapshotModel,
    sockets: Seq<ListeningSocket>,
    i: int,
    limits: ScanLimits,
)
    ensures
        with_sockets(snapshot, sockets, i, limits).truncated <= snapshot.truncated + 1,
    decreases sockets.len() - i,
{
    if 0 <= i < sockets.len() && snapshot.listening.len() < limits.max_sockets {
        lemma_table_counted(
            SnapshotModel { listening: with_socket(snapshot.listening, sockets[i]), ..snapshot },
            sockets,
            i + 1,
            limits,
        );
    }
}

// ---------------------------------------------------------------------------
// comparing sweeps
// ---------------------------------------------------------------------------

/// The links in a process's `fd` directory that could be read.
pub struct FdLinks {
    /// The process.
    pub pid: u32,
    /// The targets of the links.
    pub targets: Vec<String>,
}

/// The target that a link to a socket has.
pub open spec fn socket_link(inode: u64) -> Seq<char> {
    "socket:["@ + decimal(inode as nat) + "]"@
}

/// Whether a process holds a socket.
pub open spec fn holds(links: Seq<FdLinks>, pid: u32, inode: u64) -> bool {
    exists|i: int|
        0 <= i < links.len() && (#[trigger] links[i]).pid == pid && texts(
            links[i].targets@,
        ).contains(socket_link(inode))
}

/// The first process that holds a socket, from a place on.
pub open spec fn owner_from(infos: Seq<InfoModel>, links: Seq<FdLinks>, inode: u64, i: int) -> Option<
    InfoModel,
>
    decreases infos.len() - i,
{
    if i < 0 || i >= infos.len() {
        None
    } else if holds(links, infos[i].key.pid, inode) {
        Some(infos[i])
    } else {
        owner_from(infos, links, inode, i + 1)
    }
}

/// The process that holds a socket; none where the inode is not known.
pub open spec fn owner_of(infos: Seq<InfoModel>, links: Seq<FdLinks>, inode: u64) -> Option<
    InfoModel,
> {
    if inode == 0 {
        None
    } else {
        owner_from(infos, links, inode, 0)
    }
}

/// The event of a new process.
pub open spec fn started(info: InfoModel) -> ProcessModel {
    ProcessModel {
        change: ProcessChange::Started,
        pid: info.key.pid,
        name: info.name,
        executable: info.executable,
        command_line: info.command_line,
        uid: info.uid,
        parent_pid: info.parent_pid,
    }
}

/// The event of a newly listening socket. Not knowing the owner is no reason to
/// hide the socket.
pub open spec fn now_listening(address: Endpoint, owner: Option<InfoModel>) -> ProcessModel {
    let line = Some("listening on "@ + endpoint_text(address));
    match owner {
        Some(info) => ProcessModel {
            change: ProcessChange::Listening,
            pid: info.key.pid,
            name: info.name,
            executable: info.executable,
            command_line: line,
            uid: info.uid,
            parent_pid: info.parent_pid,
        },
        None => ProcessModel {
            change: ProcessChange::Listening,
            pid: 0,
            name: "unknown"@,
            executable: None,
            command_line: line,
            uid: None,
            parent_pid: None,
        },
    }
}

/// The events of the processes that were not known.
pub open spec fn new_processes(infos: Seq<InfoModel>, known: Seq<ProcessKey>) -> Seq<ProcessModel>
    decreases infos.len(),
{
    if infos.len() == 0 {
        seq![]
    } else {
        let before = new_processes(infos.drop_last(), known);
        if known.contains(infos.last().key) {
            before
        } else {
            before.push(started(infos.last()))
        }
    }
}

/// The events of the sockets that were not known.
pub open spec fn new_sockets(
    sockets: Seq<ListeningSocket>,
    known: Seq<Endpoint>,
    infos: Seq<InfoModel>,
    links: Seq<FdLinks>,
) -> Seq<ProcessModel>
    decreases sockets.len(),
{
    if sockets.len() == 0 {
        seq![]
    } else {
        let before = new_sockets(sockets.drop_last(), known, infos, links);
        let socket = sockets.last();
        if known.contains(socket.address) {
            before
        } else {
            before.push(now_listening(socket.address, owner_of(infos, links, socket.inode)))
        }
    }
}

/// The identities of processes.
pub open spec fn keys_of(infos: Seq<InfoModel>) -> Seq<ProcessKey> {
    infos.map_values(|info: InfoModel| info.key)
}

/// The addresses of sockets.
pub open spec fn addresses_of(sockets: Seq<ListeningSocket>) -> Seq<Endpoint> {
    sockets.map_values(|socket: ListeningSocket| socket.address)
}

/// What a watcher watches and what it knows.
pub struct WatchModel {
    /// Where the `/proc` tree is.
    pub proc_root: Seq<char>,
    /// Bounds on a sweep of it.
    pub limits: ScanLimits,
    /// The processes of the last sweep.
    pub processes: Seq<ProcessKey>,
    /// The sockets of the last sweep.
    pub listening: Seq<Endpoint>,
    /// Whether there was a sweep.
    pub established: bool,
}

/// The events of a sweep. The first sweep establishes the picture and reports
/// nothing: every process already running at startup is not a detection.
pub open spec fn sweep_events(
    watch: WatchModel,
    snapshot: SnapshotModel,
    links: Seq<FdLinks>,
) -> Seq<ProcessModel> {
    if watch.established {
        new_processes(snapshot.processes, watch.processes) + new_sockets(
            snapshot.listening,
            watch.listening,
            snapshot.processes,
            links,
        )
    } else {
        seq![]
    }
}

/// The models of events.
pub open spec fn event_models(events: Seq<ProcessEvent>) -> Seq<ProcessModel> {
    events.map_values(|event: ProcessEvent| event@)
}

/// What a sweep concluded.
#[derive(Debug)]
pub struct SweepOutcome {
    /// New processes and newly listening sockets.
    pub events: Vec<ProcessEvent>,
    /// Entries dropped because a bound was reached.
    pub truncated: u64,
    /// How many processes the sweep could see at all.
    ///
    /// Not a statistic: it is how the caller tells "quiet host" from "blinded
    /// sensor". A process table always contains at least this process, so a
    /// sweep that sees one or none is not watching a machine where nothing
    /// happened: something has restricted its view of `/proc`.
    pub processes_seen: usize,
    /// How many listening sockets the sweep could see.
    pub sockets_seen: usize,
}

/// Compares consecutive sweeps and reports what is new.
#[derive(Debug)]
pub struct Watcher {
    proc_root: String,
    limits: ScanLimits,
    known_processes: Vec<ProcessKey>,
    known_listening: Vec<Endpoint>,
    established: bool,
}

impl View for Watcher {
    type V = WatchModel;

    closed spec fn view(&self) -> WatchModel {
        WatchModel {
            proc_root: self.proc_root@,
            limits: self.limits,
            processes: self.known_processes@,
            listening: self.known_listening@,
            established: self.established,
        }
    }
}

fn knows_process(known: &Vec<ProcessKey>, key: ProcessKey) -> (yes: bool)
    ensures
        yes == known@.contains(key),
{
    let mut i: usize = 0;
    while i < known.len()
        invariant
            i <= known@.len(),
            forall|j: int| 0 <= j < i ==> #[trigger] known@[j] != key,
        decreases known@.len() - i,
    {
        if known[i] == key {
            assert(known@[i as int] == key);
            return true;
        }
        i = i + 1;
    }
    false
}

fn knows_address(known: &Vec<Endpoint>, address: &Endpoint) -> (yes: bool)
    ensures
        yes == known@.contains(*address),
{
    let mut i: usize = 0;
    while i < known.len()
        invariant
            i <= known@.len(),
            forall|j: int| 0 <= j < i ==> #[trigger] known@[j] != *address,
        decreases known@.len() - i,
    {
        if same_endpoint(&known[i], address) {
            assert(known@[i as int] == *address);
            return true;
        }
        i = i + 1;
    }
    false
}

fn has_target(targets: &Vec<String>, wanted: &str) -> (yes: bool)
    ensures
        yes == texts(targets@).contains(wanted@),
{
    let ghost all = texts(targets@);
    let mut i: usize = 0;
    while i < targets.len()
        invariant
            all == texts(targets@),
            i <= all.len(),
            forall|j: int| 0 <= j < i ==> #[trigger] all[j] != wanted@,
        decreases all.len() - i,
    {
        assert(all[i as int] == targets@[i as int]@);
        if equal(targets[i].as_str(), wanted) {
            assert(all.contains(wanted@));
            return true;
        }
        i = i + 1;
    }
    false
}

fn holds_socket(links: &[FdLinks], pid: u32, inode: u64, wanted: &str) -> (yes: bool)
    requires
        wanted@ == socket_link(inode),
    ensures
        yes == holds(links@, pid, inode),
{
    let mut i: usize = 0;
    while i < links.len()
        invariant
            wanted@ == socket_link(inode),
            i <= links@.len(),
            forall|j: int|
                0 <= j < i ==> !((#[trigger] links@[j]).pid == pid && texts(
                    links@[j].targets@,
                ).contains(socket_link(inode))),
        decreases links@.len() - i,
    {
        if links[i].pid == pid && has_target(&links[i].targets, wanted) {
            assert(links@[i as int].pid == pid);
            return true;
        }
        i = i + 1;
    }
    false
}

/// Find the process holding a socket inode, by the links of its `fd` directory.
fn find_owner<'a>(infos: &'a Vec<ProcessInfo>, links: &[FdLinks], inode: u64) -> (owner: Option<
    &'a ProcessInfo,
>)
    ensures
        match owner {
            Some(info) => owner_of(info_models(infos@), links@, inode) == Some(info@),
            None => owner_of(info_models(infos@), links@, inode) is None,
        },
{
    if inode == 0 {
        return None;
    }
    let ghost all = info_models(infos@);
    let mut wanted = owned("socket:[");
    append_number(&mut wanted, inode);
    append(&mut wanted, "]");
    let mut i: usize = 0;
    while i < infos.len()
        invariant
            all == info_models(infos@),
            i <= all.len(),
            inode != 0,
            wanted@ == socket_link(inode),
            owner_from(all, links@, inode, i as int) == owner_from(all, links@, inode, 0),
        decreases all.len() - i,
    {
        assert(all[i as int] == infos@[i as int]@);
        if holds_socket(links, infos[i].key.pid, inode, wanted.as_str()) {
            return Some(&infos[i]);
        }
        i = i + 1;
    }
    None
}

fn copied(text: &Option<String>) -> (copy: Option<String>)
    ensures
        optional_text(copy) == optional_text(*text),
{
    match text {
        Some(text) => Some(text.clone()),
        None => None,
    }
}

fn report_process(info: &ProcessInfo) -> (event: ProcessEvent)
    ensures
        event@ == started(info@),
{
    ProcessEvent {
        change: ProcessChange::Started,
        pid: info.key.pid,
        name: info.name.clone(),
        executable: copied(&info.executable),
        command_line: copied(&info.command_line),
        uid: info.uid,
        parent_pid: info.parent_pid,
    }
}

fn report_socket(address: Endpoint, owner: Option<&ProcessInfo>) -> (event: ProcessEvent)
    ensures
        event@ == now_listening(
            address,
            match owner {
                Some(info) => Some(info@),
                None => None,
            },
        ),
{
    let mut line = owned("listening on ");
    append_endpoint(&mut line, address);
    match owner {
        Some(info) => ProcessEvent {
            change: ProcessChange::Listening,
            pid: info.key.pid,
            name: info.name.clone(),
            executable: copied(&info.executable),
            command_line: Some(line),
            uid: info.uid,
            parent_pid: info.parent_pid,
        },
        None => ProcessEvent {
            change: ProcessChange::Listening,
            pid: 0,
            name: owned("unknown"),
            executable: None,
            command_line: Some(line),
            uid: None,
            parent_pid: None,
        },
    }
}

impl Watcher {
    /// Watch a `/proc` tree.
    pub fn new(proc_root: String, limits: ScanLimits) -> (watcher: Self)
        ensures
            watcher@ == (WatchModel {
                proc_root: proc_root@,
                limits,
                processes: seq![],
                listening: seq![],
                established: false,
            }),
    {
        let watcher = Watcher {
            proc_root,
            limits,
            known_processes: Vec::new(),
            known_listening: Vec::new(),
            established: false,
        };
        assert(watcher@.processes =~= seq![]);
        assert(watcher@.listening =~= seq![]);
        watcher
    }

    /// Where the `/proc` tree is.
    pub fn proc_root(&self) -> (proc_root: &str)
        ensures
            proc_root@ == self@.proc_root,
    {
        self.proc_root.as_str()
    }

    /// Bounds on a sweep.
    pub fn limits(&self) -> (limits: ScanLimits)
        ensures
            limits == self@.limits,
    {
        self.limits
    }

    /// Whether a sweep shows a new socket that could be attributed to a process,
    /// so that the links of the `fd` directories are worth reading. Those need
    /// privileges, and are many.
    pub fn needs_links(&self, snapshot: &Snapshot) -> (needed: bool)
        ensures
            needed == (self@.established && exists|i: int|
                0 <= i < snapshot.listening@.len() && (#[trigger] snapshot.listening@[i]).inode != 0
                    && !self@.listening.contains(snapshot.listening@[i].address)),
    {
        if !self.established {
            return false;
        }
        let mut i: usize = 0;
        while i < snapshot.listening.len()
            invariant
                self.established,
                i <= snapshot.listening@.len(),
                forall|j: int|
                    0 <= j < i ==> (#[trigger] snapshot.listening@[j]).inode == 0
                        || self@.listening.contains(snapshot.listening@[j].address),
            decreases snapshot.listening@.len() - i,
        {
            if snapshot.listening[i].inode != 0 && !knows_address(
                &self.known_listening,
                &snapshot.listening[i].address,
            ) {
                assert(snapshot.listening@[i as int].inode != 0);
                return true;
            }
            i = i + 1;
        }
        false
    }

    fn report_new_processes(&self, snapshot: &Snapshot, events: &mut Vec<ProcessEvent>)
        ensures
            event_models(final(events)@) == event_models(old(events)@) + new_processes(
                snapshot@.processes,
                self@.processes,
            ),
    {
        let ghost infos = snapshot@.processes;
        let ghost start = event_models(events@);
        let mut i: usize = 0;
        assert(start + new_processes(infos.take(0), self@.processes) =~= start);
        while i < snapshot.processes.len()
            invariant
                infos == snapshot@.processes,
                i <= infos.len(),
                event_models(events@) == start + new_processes(
                    infos.take(i as int),
                    self@.processes,
                ),
            decreases infos.len() - i,
        {
            let info = &snapshot.processes[i];
            assert(infos[i as int] == info@);
            assert(infos.take(i + 1).drop_last() =~= infos.take(i as int));
            if !knows_process(&self.known_processes, info.key) {
                let ghost before = events@;
                let event = report_process(info);
                events.push(event);
                assert(event_models(events@) =~= event_models(before).push(event@));
                assert(event_models(events@) =~= start + new_processes(
                    infos.take(i + 1),
                    self@.processes,
                ));
            }
            i = i + 1;
        }
        assert(infos.take(i as int) =~= infos);
    }

    fn report_new_sockets(
        &self,
        snapshot: &Snapshot,
        links: &[FdLinks],
        events: &mut Vec<ProcessEvent>,
    )
        ensures
            event_models(final(events)@) == event_models(old(events)@) + new_sockets(
                snapshot@.listening,
                self@.listening,
                snapshot@.processes,
                links@,
            ),
    {
        let ghost infos = snapshot@.processes;
        let ghost sockets = snapshot@.listening;
        let ghost start = event_models(events@);
        let mut i: usize = 0;
        assert(start + new_sockets(sockets.take(0), self@.listening, infos, links@) =~= start);
        while i < snapshot.listening.len()
            invariant
                infos == snapshot@.processes,
                sockets == snapshot@.listening,
                i <= sockets.len(),
                event_models(events@) == start + new_sockets(
                    sockets.take(i as int),
                    self@.listening,
                    infos,
                    links@,
                ),
            decreases sockets.len() - i,
        {
            let socket = snapshot.listening[i];
            assert(sockets.take(i + 1).drop_last() =~= sockets.take(i as int));
            if !knows_address(&self.known_listening, &socket.address) {
                // Attribute the socket to a process where possible. When that is
                // unavailable the event still reports the socket, because "this
                // host started listening on 4444" is the finding and "which
                // process" is a detail.
                let ghost before = events@;
                let owner = find_owner(&snapshot.processes, links, socket.inode);
                let event = report_socket(socket.address, owner);
                events.push(event);
                assert(event_models(events@) =~= event_models(before).push(event@));
                assert(event_models(events@) =~= start + new_sockets(
                    sockets.take(i + 1),
                    self@.listening,
                    infos,
                    links@,
                ));
            }
            i = i + 1;
        }
        assert(sockets.take(i as int) =~= sockets);
    }

    fn remember(&mut self, snapshot: &Snapshot)
        ensures
            final(self)@ == (WatchModel {
                processes: keys_of(snapshot@.processes),
                listening: addresses_of(snapshot@.listening),
                established: true,
                ..old(self)@
            }),
    {
        let ghost infos = snapshot@.processes;
        let mut keys: Vec<ProcessKey> = Vec::new();
        let mut i: usize = 0;
        while i < snapshot.processes.len()
            invariant
                infos == snapshot@.processes,
                i <= infos.len(),
                keys@.len() == i,
                forall|j: int| 0 <= j < i ==> #[trigger] keys@[j] == infos[j].key,
            decreases infos.len() - i,
        {
            assert(infos[i as int] == snapshot.processes@[i as int]@);
            keys.push(snapshot.processes[i].key);
            i = i + 1;
        }
        let mut addresses: Vec<Endpoint> = Vec::new();
        let mut k: usize = 0;
        while k < snapshot.listening.len()
            invariant
                k <= snapshot.listening@.len(),
                addresses@.len() == k,
                forall|j: int|
                    0 <= j < k ==> #[trigger] addresses@[j] == snapshot.listening@[j].address,
            decreases snapshot.listening@.len() - k,
        {
            addresses.push(snapshot.listening[k].address);
            k = k + 1;
        }
        assert(keys@ =~= keys_of(infos));
        assert(addresses@ =~= addresses_of(snapshot@.listening));
        self.known_processes = keys;
        self.known_listening = addresses;
        self.established = true;
    }

    /// Compare a sweep with the last one and report what changed.
    pub fn sweep(&mut self, snapshot: &Snapshot, links: &[FdLinks]) -> (outcome: SweepOutcome)
        ensures
            event_models(outcome.events@) == sweep_events(old(self)@, snapshot@, links@),
            outcome.truncated == snapshot.truncated,
            outcome.processes_seen == snapshot@.processes.len(),
            outcome.sockets_seen == snapshot@.listening.len(),
            final(self)@ == (WatchModel {
                processes: keys_of(snapshot@.processes),
                listening: addresses_of(snapshot@.listening),
                established: true,
                ..old(self)@
            }),
    {
        let mut events: Vec<ProcessEvent> = Vec::new();
        assert(event_models(events@) =~= seq![]);
        if self.established {
            self.report_new_processes(snapshot, &mut events);
            assert(event_models(events@) =~= new_processes(
                snapshot@.processes,
                self@.processes,
            ));
            self.report_new_sockets(snapshot, links, &mut events);
        }
        self.remember(snapshot);
        SweepOutcome {
            events,
            truncated: snapshot.truncated,
            processes_seen: snapshot.processes.len(),
            sockets_seen: snapshot.listening.len(),
        }
    }
}

// ---------------------------------------------------------------------------
// laws
// ---------------------------------------------------------------------------

/// A process is reported exactly when the last sweep did not have its identity:
/// every process with an unknown identity is, and nothing else is. One with a known
/// pid and another start time is a new process.
pub proof fn law_new_identities_are_reported(
    infos: Seq<InfoModel>,
    known: Seq<ProcessKey>,
    info: InfoModel,
)
    requires
        infos.contains(info),
    ensures
        !known.contains(info.key) ==> new_processes(infos, known).contains(started(info)),
        forall|i: int|
            0 <= i < new_processes(infos, known).len() ==> is_start_of_unknown(
                #[trigger] new_processes(infos, known)[i],
                infos,
                known,
            ),
        new_processes(infos, known).len() <= infos.len(),
        known.len() == 0 ==> new_processes(infos, known).len() == infos.len(),
    decreases infos.len(),
{
    let before = new_processes(infos.drop_last(), known);
    let after = new_processes(infos, known);
    let k = choose|k: int| 0 <= k < infos.len() && infos[k] == info;
    if infos.len() > 1 {
        law_new_identities_are_reported(
            infos.drop_last(),
            known,
            if k < infos.len() - 1 {
                info
            } else {
                infos.drop_last()[0]
            },
        );
    }
    if k < infos.len() - 1 {
        assert(infos.drop_last()[k] == info);
        if !known.contains(info.key) {
            let j = choose|j: int| 0 <= j < before.len() && before[j] == started(info);
            assert(after[j] == started(info));
        }
    } else if !known.contains(info.key) {
        assert(after.last() == started(info));
    }
    lemma_only_unknown_are_reported(infos, known);
}

/// Whether an event reports the start of one of some processes, of unknown identity.
pub open spec fn is_start_of_unknown(
    event: ProcessModel,
    infos: Seq<InfoModel>,
    known: Seq<ProcessKey>,
) -> bool {
    exists|k: int|
        0 <= k < infos.len() && !known.contains((#[trigger] infos[k]).key) && event == started(
            infos[k],
        )
}

proof fn lemma_only_unknown_are_reported(infos: Seq<InfoModel>, known: Seq<ProcessKey>)
    ensures
        forall|i: int|
            0 <= i < new_processes(infos, known).len() ==> is_start_of_unknown(
                #[trigger] new_processes(infos, known)[i],
                infos,
                known,
            ),
    decreases infos.len(),
{
    if infos.len() > 0 {
        let init = infos.drop_last();
        let before = new_processes(init, known);
        let after = new_processes(infos, known);
        lemma_only_unknown_are_reported(init, known);
        assert forall|i: int| 0 <= i < after.len() implies is_start_of_unknown(
            #[trigger] after[i],
            infos,
            known,
        ) by {
            if i < before.len() {
                assert(after[i] == before[i]);
                assert(is_start_of_unknown(before[i], init, known));
                let k = choose|k: int|
                    0 <= k < init.len() && !known.contains((#[trigger] init[k]).key) && before[i]
                        == started(init[k]);
                assert(infos[k] == init[k]);
            } else {
                assert(after[i] == started(infos[infos.len() - 1]));
            }
        }
    }
}

proof fn lemma_nothing_new(
    infos: Seq<InfoModel>,
    sockets: Seq<ListeningSocket>,
    known: WatchModel,
    all: Seq<InfoModel>,
    links: Seq<FdLinks>,
)
    requires
        forall|i: int| 0 <= i < infos.len() ==> known.processes.contains((#[trigger] infos[i]).key),
        forall|i: int|
            0 <= i < sockets.len() ==> known.listening.contains((#[trigger] sockets[i]).address),
    ensures
        new_processes(infos, known.processes).len() == 0,
        new_sockets(sockets, known.listening, all, links).len() == 0,
    decreases infos.len() + sockets.len(),
{
    if infos.len() > 0 {
        assert(infos.last() == infos[infos.len() - 1]);
        assert forall|i: int| 0 <= i < infos.drop_last().len() implies known.processes.contains(
            (#[trigger] infos.drop_last()[i]).key,
        ) by {
            assert(infos.drop_last()[i] == infos[i]);
        }
        lemma_nothing_new(infos.drop_last(), sockets, known, all, links);
    } else if sockets.len() > 0 {
        assert(sockets.last() == sockets[sockets.len() - 1]);
        assert forall|i: int| 0 <= i < sockets.drop_last().len() implies known.listening.contains(
            (#[trigger] sockets.drop_last()[i]).address,
        ) by {
            assert(sockets.drop_last()[i] == sockets[i]);
        }
        lemma_nothing_new(infos, sockets.drop_last(), known, all, links);
    }
}

/// A host on which nothing changed reports nothing, sweep after sweep.
pub proof fn law_an_unchanged_host_reports_nothing(
    watch: WatchModel,
    snapshot: SnapshotModel,
    links: Seq<FdLinks>,
)
    ensures
        sweep_events(
            WatchModel {
                processes: keys_of(snapshot.processes),
                listening: addresses_of(snapshot.listening),
                established: true,
                ..watch
            },
            snapshot,
            links,
        ).len() == 0,
{
    let known = WatchModel {
        processes: keys_of(snapshot.processes),
        listening: addresses_of(snapshot.listening),
        established: true,
        ..watch
    };
    assert forall|i: int| 0 <= i < snapshot.processes.len() implies known.processes.contains(
        (#[trigger] snapshot.processes[i]).key,
    ) by {
        assert(known.processes[i] == snapshot.processes[i].key);
    }
    assert forall|i: int| 0 <= i < snapshot.listening.len() implies known.listening.contains(
        (#[trigger] snapshot.listening[i]).address,
    ) by {
        assert(known.listening[i] == snapshot.listening[i].address);
    }
    lemma_nothing_new(snapshot.processes, snapshot.listening, known, snapshot.processes, links);
}

proof fn lemma_put_adds_one(
    infos: Seq<InfoModel>,
    info: InfoModel,
    sockets: Seq<ListeningSocket>,
    socket: ListeningSocket,
)
    ensures
        with_process(infos, info).len() <= infos.len() + 1,
        with_socket(sockets, socket).len() <= sockets.len() + 1,
    decreases infos.len() + sockets.len(),
{
    if infos.len() > 0 {
        lemma_put_adds_one(infos.skip(1), info, sockets, socket);
    } else if sockets.len() > 0 {
        lemma_put_adds_one(infos, info, sockets.skip(1), socket);
    }
}

proof fn lemma_entries_bounded(entries: Seq<ProcEntry>, limits: ScanLimits)
    ensures
        with_entries(empty_snapshot(), entries, limits).processes.len() <= limits.max_processes,
        with_entries(empty_snapshot(), entries, limits).listening.len() == 0,
    decreases entries.len(),
{
    if entries.len() > 0 {
        lemma_entries_bounded(entries.drop_last(), limits);
        let before = with_entries(empty_snapshot(), entries.drop_last(), limits);
        if let Some(pid) = pid_of(entries.last().name@) {
            if let Some(info) = info_of(pid, entries.last().files) {
                lemma_put_adds_one(
                    before.processes,
                    info,
                    seq![],
                    ListeningSocket { address: (crate::net::IpAddr::V4(0), 0), inode: 0 },
                );
            }
        }
    }
}

proof fn lemma_sockets_bounded(
    snapshot: SnapshotModel,
    sockets: Seq<ListeningSocket>,
    i: int,
    limits: ScanLimits,
)
    requires
        snapshot.listening.len() <= limits.max_sockets,
    ensures
        with_sockets(snapshot, sockets, i, limits).listening.len() <= limits.max_sockets,
        with_sockets(snapshot, sockets, i, limits).processes == snapshot.processes,
    decreases sockets.len() - i,
{
    if 0 <= i < sockets.len() && snapshot.listening.len() < limits.max_sockets {
        lemma_put_adds_one(seq![], snapshot.processes[0], snapshot.listening, sockets[i]);
        lemma_sockets_bounded(
            SnapshotModel { listening: with_socket(snapshot.listening, sockets[i]), ..snapshot },
            sockets,
            i + 1,
            limits,
        );
    }
}

/// A sweep holds no more processes and sockets than its bounds allow, however
/// many there are.
pub proof fn law_a_sweep_is_bounded(
    entries: Option<Seq<ProcEntry>>,
    tcp: Option<Seq<char>>,
    tcp6: Option<Seq<char>>,
    limits: ScanLimits,
)
    ensures
        swept(entries, tcp, tcp6, limits).processes.len() <= limits.max_processes,
        swept(entries, tcp, tcp6, limits).listening.len() <= limits.max_sockets,
{
    if let Some(entries) = entries {
        lemma_entries_bounded(entries, limits);
        let seen = with_entries(empty_snapshot(), entries, limits);
        if let Some(text) = tcp {
            lemma_sockets_bounded(seen, table_of(text, false), 0, limits);
        }
        let more = with_table(seen, tcp, false, limits);
        if let Some(text) = tcp6 {
            lemma_sockets_bounded(more, table_of(text, true), 0, limits);
        }
    }
}

/// Processes are in one order, by pid and then by start time: a pid that is used again is
/// another process.
pub proof fn law_processes_are_in_one_order(a: ProcessKey, b: ProcessKey, c: ProcessKey)
    ensures
        a == b || a.before(b) || b.before(a),
        !(a.before(b) && b.before(a)),
        !a.before(a),
        a.before(b) && b.before(c) ==> a.before(c),
        a.pid < b.pid ==> a.before(b),
        a.pid == b.pid && a.start_time < b.start_time ==> a.before(b),
{
}

/// Whether processes stand in order, each identity once.
pub open spec fn in_process_order(infos: Seq<InfoModel>) -> bool {
    forall|i: int, j: int|
        0 <= i < j < infos.len() ==> (#[trigger] infos[i]).key.before((#[trigger] infos[j]).key)
}

/// A process that is put among others is there, the others stay, and one with the same
/// identity is replaced. The order is kept.
pub proof fn law_a_process_is_put_in_its_place(
    infos: Seq<InfoModel>,
    info: InfoModel,
    other: InfoModel,
)
    requires
        in_process_order(infos),
    ensures
        with_process(infos, info).contains(other) <==> other == info || (infos.contains(other)
            && other.key != info.key),
        in_process_order(with_process(infos, info)),
        forall|i: int|
            0 <= i < with_process(infos, info).len() ==> (#[trigger] with_process(
                infos,
                info,
            )[i]).key == info.key || (infos.len() > 0 && !with_process(
                infos,
                info,
            )[i].key.before(infos[0].key)),
    decreases infos.len(),
{
    let after = with_process(infos, info);
    if infos.len() == 0 {
        assert(after[0] == info);
    } else {
        let first = infos[0];
        let rest = infos.skip(1);
        assert(in_process_order(rest)) by {
            assert forall|i: int, j: int| 0 <= i < j < rest.len() implies (
            #[trigger] rest[i]).key.before((#[trigger] rest[j]).key) by {
                assert(infos[i + 1].key.before(infos[j + 1].key));
            }
        }
        assert forall|i: int| 0 <= i < rest.len() implies first.key.before(
            (#[trigger] rest[i]).key,
        ) by {
            assert(infos[0].key.before(infos[i + 1].key));
        }
        if infos.contains(other) && other != first {
            let i = choose|i: int| 0 <= i < infos.len() && infos[i] == other;
            assert(rest[i - 1] == other);
        }
        if rest.contains(other) {
            let i = choose|i: int| 0 <= i < rest.len() && rest[i] == other;
            assert(infos[i + 1] == other);
        }
        assert(infos.contains(first));
        if first.key == info.key {
            assert(after[0] == info);
            assert forall|i: int| 0 < i < after.len() implies #[trigger] after[i] == rest[
                i - 1
            ] by {}
            if rest.contains(other) {
                let i = choose|i: int| 0 <= i < rest.len() && rest[i] == other;
                assert(after[i + 1] == other);
            }
            if after.contains(other) && other != info {
                let i = choose|i: int| 0 <= i < after.len() && after[i] == other;
                assert(rest[i - 1] == other);
            }
        } else if info.key.before(first.key) {
            assert(after[0] == info);
            assert forall|i: int| 0 < i < after.len() implies #[trigger] after[i] == infos[
                i - 1
            ] by {}
            if infos.contains(other) {
                let i = choose|i: int| 0 <= i < infos.len() && infos[i] == other;
                assert(after[i + 1] == other);
                assert(other == first || first.key.before(other.key));
            }
            if after.contains(other) && other != info {
                let i = choose|i: int| 0 <= i < after.len() && after[i] == other;
                assert(infos[i - 1] == other);
            }
            assert forall|i: int| 0 <= i < infos.len() implies info.key.before(
                (#[trigger] infos[i]).key,
            ) by {
                if i > 0 {
                    assert(first.key.before(rest[i - 1].key));
                }
            }
        } else {
            law_a_process_is_put_in_its_place(rest, info, other);
            let tail = with_process(rest, info);
            assert(after[0] == first);
            assert forall|i: int| 0 < i < after.len() implies #[trigger] after[i] == tail[
                i - 1
            ] by {}
            if tail.contains(other) {
                let i = choose|i: int| 0 <= i < tail.len() && tail[i] == other;
                assert(after[i + 1] == other);
            }
            if after.contains(other) && other != first {
                let i = choose|i: int| 0 <= i < after.len() && after[i] == other;
                assert(tail[i - 1] == other);
            }
            assert(after.contains(first));
            assert forall|i: int| 0 <= i < tail.len() implies first.key.before(
                (#[trigger] tail[i]).key,
            ) by {
                if tail[i].key != info.key {
                    assert(rest.len() > 0);
                    assert(first.key.before(rest[0].key));
                }
            }
        }
    }
}

/// A command line is its arguments with a space between them; empty ones are left out,
/// and without any there is none.
pub proof fn law_arguments_are_joined_by_spaces(one: Seq<char>, two: Seq<char>)
    requires
        one.len() > 0,
        two.len() > 0,
        forall|i: int| 0 <= i < one.len() ==> #[trigger] one[i] != '\0',
        forall|i: int| 0 <= i < two.len() ==> #[trigger] two[i] != '\0',
    ensures
        command_of(one) == Some(sanitised(one, 4_096)),
        command_of(one.push('\0')) == Some(sanitised(one, 4_096)),
        command_of(one.push('\0') + two) == Some(sanitised(one + seq![' '] + two, 4_096)),
        command_of(one.push('\0') + two.push('\0')) == Some(
            sanitised(one + seq![' '] + two, 4_096),
        ),
        command_of(one.push('\0') + seq!['\0'] + two) == Some(
            sanitised(one + seq![' '] + two, 4_096),
        ),
        command_of(Seq::<char>::empty()) is None,
        command_of(seq!['\0']) is None,
{
    let none = Seq::<char>::empty();
    law_pieces_stand_between_separators(one, '\0', none);
    law_pieces_stand_between_separators(two, '\0', none);
    law_pieces_stand_between_separators(none, '\0', none);
    law_pieces_stand_between_separators(one, '\0', two);
    law_pieces_stand_between_separators(one, '\0', two.push('\0'));
    law_pieces_stand_between_separators(none, '\0', two);
    law_pieces_stand_between_separators(one, '\0', none.push('\0') + two);
    assert(one.push('\0') + none =~= one.push('\0'));
    assert(two.push('\0') + none =~= two.push('\0'));
    assert(none.push('\0') + none =~= seq!['\0']);
    assert(one.push('\0') + seq!['\0'] + two =~= one.push('\0') + (none.push('\0') + two));
    assert(pieces(one, '\0') =~= seq![one]);
    assert(pieces(none, '\0') =~= seq![none]);
    assert(pieces(one.push('\0'), '\0') =~= seq![one, none]);
    assert(pieces(one.push('\0') + two, '\0') =~= seq![one, two]);
    assert(pieces(one.push('\0') + two.push('\0'), '\0') =~= seq![one, two, none]);
    assert(pieces(one.push('\0') + (none.push('\0') + two), '\0') =~= seq![one, none, two]);
    assert(pieces(seq!['\0'], '\0') =~= seq![none, none]);
    assert(seq![one].drop_last() =~= seq![]);
    assert(seq![none].drop_last() =~= seq![]);
    assert(seq![one, none].drop_last() =~= seq![one]);
    assert(seq![one, two].drop_last() =~= seq![one]);
    assert(seq![none, none].drop_last() =~= seq![none]);
    assert(seq![one, two, none].drop_last() =~= seq![one, two]);
    assert(seq![one, none, two].drop_last() =~= seq![one, none]);
    reveal_with_fuel(spaced, 4);
    assert(one.push(' ') + two =~= one + seq![' '] + two);
}

/// A process is what its own files say: the pid is that of its directory, and what could
/// not be read is unknown. Without a `stat` that parses there is no process.
pub proof fn law_a_process_is_what_its_files_say(pid: u32, files: ProcessFiles)
    ensures
        info_of(pid, files) is Some <==> files.stat is Some && stat_of(files.stat->0@) is Some,
        info_of(pid, files) matches Some(info) ==> {
            &&& info.key.pid == pid
            &&& stat_of(files.stat->0@) == Some((info.name, info.parent_pid, info.key.start_time))
            &&& info.executable == optional_text(files.executable)
            &&& files.command_line is None ==> info.command_line is None
            &&& files.command_line matches Some(bytes) ==> info.command_line == command_of(
                utf8_text(bytes@),
            )
            &&& files.status is None ==> info.uid is None
            &&& files.status matches Some(status) ==> info.uid == uid_of(status@)
        },
{
}

/// A directory named by a number is a process: it is read while there is room, counted
/// as left out when there is none and as unreadable where it says nothing. Any other
/// name is passed over.
pub proof fn law_a_number_names_a_process(
    snapshot: SnapshotModel,
    pid: u32,
    name: Seq<char>,
    files: ProcessFiles,
    limits: ScanLimits,
)
    ensures
        pid_of(decimal(pid as nat)) == Some(pid),
        pid_of(name) is None ==> with_entry(snapshot, name, files, limits) == snapshot,
        ({
            let after = with_entry(snapshot, decimal(pid as nat), files, limits);
            let full = snapshot.processes.len() >= limits.max_processes;
            &&& full ==> after.truncated == snapshot.truncated + 1 && after.processes
                == snapshot.processes && after.unreadable == snapshot.unreadable
            &&& !full && info_of(pid, files) is None ==> after.unreadable == snapshot.unreadable + 1
                && after.processes == snapshot.processes && after.truncated == snapshot.truncated
            &&& !full && info_of(pid, files) is Some ==> after.processes == with_process(
                snapshot.processes,
                info_of(pid, files)->0,
            ) && after.truncated == snapshot.truncated && after.unreadable == snapshot.unreadable
            &&& after.listening == snapshot.listening
        }),
{
    law_a_number_reads_back(pid as nat, 10, u32::MAX as int);
}

/// The owner of a socket is the first process that holds a link to it, and unknown where
/// none does or the socket has no inode.
pub proof fn law_the_owner_holds_the_socket(
    infos: Seq<InfoModel>,
    links: Seq<FdLinks>,
    inode: u64,
    i: int,
)
    requires
        0 <= i,
    ensures
        owner_of(infos, links, 0) is None,
        inode != 0 ==> owner_of(infos, links, inode) == owner_from(infos, links, inode, 0),
        owner_from(infos, links, inode, i) matches Some(info) ==> holds(links, info.key.pid, inode)
            && infos.contains(info),
        owner_from(infos, links, inode, i) is None <==> forall|k: int|
            i <= k < infos.len() ==> !holds(links, (#[trigger] infos[k]).key.pid, inode),
        forall|k: int|
            i <= k < infos.len() && holds(links, (#[trigger] infos[k]).key.pid, inode) && (forall|
                j: int,
            | i <= j < k ==> !holds(links, (#[trigger] infos[j]).key.pid, inode)) ==> owner_from(
                infos,
                links,
                inode,
                i,
            ) == Some(infos[k]),
    decreases infos.len() - i,
{
    if i < infos.len() {
        law_the_owner_holds_the_socket(infos, links, inode, i + 1);
        assert(infos.contains(infos[i]));
    }
}

/// A link to a socket names its inode.
pub proof fn law_a_socket_link_names_its_inode(links: Seq<FdLinks>, i: int, k: int, inode: u64)
    requires
        0 <= i < links.len(),
        0 <= k < texts(links[i].targets@).len(),
        texts(links[i].targets@)[k] == "socket:["@ + decimal(inode as nat) + "]"@,
    ensures
        holds(links, links[i].pid, inode),
{
    assert(texts(links[i].targets@).contains(socket_link(inode)));
}

/// A new process is reported as started and a new socket as listening, with what is known
/// of the process that holds it. A socket without a known owner is reported all the same.
pub proof fn law_reports_say_what_was_seen(info: InfoModel, address: Endpoint)
    ensures
        ({
            let event = started(info);
            &&& event.change == ProcessChange::Started
            &&& event.pid == info.key.pid
            &&& event.name == info.name
            &&& event.executable == info.executable
            &&& event.command_line == info.command_line
            &&& event.uid == info.uid
            &&& event.parent_pid == info.parent_pid
        }),
        ({
            let event = now_listening(address, Some(info));
            &&& event.change == ProcessChange::Listening
            &&& event.pid == info.key.pid
            &&& event.name == info.name
            &&& event.executable == info.executable
            &&& event.uid == info.uid
            &&& event.parent_pid == info.parent_pid
            &&& event.command_line == Some("listening on "@ + endpoint_text(address))
        }),
        ({
            let event = now_listening(address, None);
            &&& event.change == ProcessChange::Listening
            &&& event.pid == 0
            &&& event.name == "unknown"@
            &&& event.executable is None && event.uid is None && event.parent_pid is None
            &&& event.command_line == Some("listening on "@ + endpoint_text(address))
        }),
{
}

/// Every socket whose address was not known is reported, under the process that holds it.
pub proof fn law_new_sockets_are_reported(
    sockets: Seq<ListeningSocket>,
    known: Seq<Endpoint>,
    infos: Seq<InfoModel>,
    links: Seq<FdLinks>,
    socket: ListeningSocket,
)
    ensures
        sockets.contains(socket) && !known.contains(socket.address) ==> new_sockets(
            sockets,
            known,
            infos,
            links,
        ).contains(now_listening(socket.address, owner_of(infos, links, socket.inode))),
        new_sockets(sockets, known, infos, links).len() <= sockets.len(),
        (forall|i: int| 0 <= i < sockets.len() ==> known.contains((#[trigger] sockets[i]).address))
            ==> new_sockets(sockets, known, infos, links).len() == 0,
    decreases sockets.len(),
{
    if sockets.len() > 0 {
        let init = sockets.drop_last();
        let last = sockets[sockets.len() - 1];
        law_new_sockets_are_reported(init, known, infos, links, socket);
        let before = new_sockets(init, known, infos, links);
        let after = new_sockets(sockets, known, infos, links);
        let event = now_listening(socket.address, owner_of(infos, links, socket.inode));
        if sockets.contains(socket) && !known.contains(socket.address) {
            if socket == last {
                assert(after[before.len() as int] == event);
            } else {
                let i = choose|i: int| 0 <= i < sockets.len() && sockets[i] == socket;
                assert(init[i] == socket);
                let k = choose|k: int| 0 <= k < before.len() && before[k] == event;
                assert(after[k] == event);
            }
        }
        assert forall|i: int| 0 <= i < init.len() implies #[trigger] init[i] == sockets[i] by {}
        if forall|i: int|
            0 <= i < sockets.len() ==> known.contains((#[trigger] sockets[i]).address) {
            assert(known.contains(last.address));
            assert forall|i: int| 0 <= i < init.len() implies known.contains(
                (#[trigger] init[i]).address,
            ) by {
                assert(known.contains(sockets[i].address));
            }
        }
    }
}

/// The first sweep reports nothing; every later one reports what is new.
pub proof fn law_the_first_sweep_reports_nothing(
    watch: WatchModel,
    snapshot: SnapshotModel,
    links: Seq<FdLinks>,
)
    ensures
        !watch.established ==> sweep_events(watch, snapshot, links).len() == 0,
        watch.established ==> sweep_events(watch, snapshot, links) == new_processes(
            snapshot.processes,
            watch.processes,
        ) + new_sockets(snapshot.listening, watch.listening, snapshot.processes, links),
{
}

/// Without the process table a sweep saw nothing and says so; a table that could not be
/// read adds no socket.
pub proof fn law_an_unreadable_host_is_said_to_be(
    tcp: Option<Seq<char>>,
    tcp6: Option<Seq<char>>,
    snapshot: SnapshotModel,
    limits: ScanLimits,
    v6: bool,
)
    ensures
        swept(None, tcp, tcp6, limits).unreadable == 1,
        swept(None, tcp, tcp6, limits).processes.len() == 0,
        swept(None, tcp, tcp6, limits).listening.len() == 0,
        with_table(snapshot, None, v6, limits) == snapshot,
        snapshot.listening.len() >= limits.max_sockets ==> forall|text: Seq<char>|
            table_of(text, v6).len() > 0 ==> (#[trigger] with_table(
                snapshot,
                Some(text),
                v6,
                limits,
            )).truncated == snapshot.truncated + 1,
{
}

/// Whether sockets stand in order, each address once.
pub open spec fn in_socket_order(sockets: Seq<ListeningSocket>) -> bool {
    forall|i: int, j: int|
        0 <= i < j < sockets.len() ==> endpoint_at_most(
            (#[trigger] sockets[i]).address,
            (#[trigger] sockets[j]).address,
        ) && sockets[i].address != sockets[j].address
}

/// A socket that is put among others is there, the others stay, and one with the same
/// address is replaced. The order is kept.
pub proof fn law_a_socket_is_put_in_its_place(
    sockets: Seq<ListeningSocket>,
    socket: ListeningSocket,
    other: ListeningSocket,
)
    requires
        in_socket_order(sockets),
    ensures
        with_socket(sockets, socket).contains(other) <==> other == socket || (sockets.contains(
            other,
        ) && other.address != socket.address),
        in_socket_order(with_socket(sockets, socket)),
        forall|i: int|
            0 <= i < with_socket(sockets, socket).len() ==> (#[trigger] with_socket(
                sockets,
                socket,
            )[i]).address == socket.address || (sockets.len() > 0 && endpoint_at_most(
                sockets[0].address,
                with_socket(sockets, socket)[i].address,
            )),
    decreases sockets.len(),
{
    let after = with_socket(sockets, socket);
    if sockets.len() == 0 {
        assert(after[0] == socket);
    } else {
        let first = sockets[0];
        let rest = sockets.skip(1);
        assert forall|i: int| 0 <= i < rest.len() implies #[trigger] rest[i] == sockets[
            i + 1
        ] by {}
        assert(in_socket_order(rest)) by {
            assert forall|i: int, j: int| 0 <= i < j < rest.len() implies endpoint_at_most(
                (#[trigger] rest[i]).address,
                (#[trigger] rest[j]).address,
            ) && rest[i].address != rest[j].address by {
                assert(endpoint_at_most(sockets[i + 1].address, sockets[j + 1].address));
            }
        }
        assert forall|i: int| 0 <= i < rest.len() implies endpoint_at_most(
            first.address,
            (#[trigger] rest[i]).address,
        ) && first.address != rest[i].address by {
            assert(endpoint_at_most(sockets[0].address, sockets[i + 1].address));
        }
        if sockets.contains(other) && other != first {
            let i = choose|i: int| 0 <= i < sockets.len() && sockets[i] == other;
            assert(rest[i - 1] == other);
        }
        if rest.contains(other) {
            let i = choose|i: int| 0 <= i < rest.len() && rest[i] == other;
            assert(sockets[i + 1] == other);
        }
        assert(sockets.contains(first));
        if first.address == socket.address {
            assert(after[0] == socket);
            assert forall|i: int| 0 < i < after.len() implies #[trigger] after[i] == rest[
                i - 1
            ] by {}
            if rest.contains(other) {
                let i = choose|i: int| 0 <= i < rest.len() && rest[i] == other;
                assert(after[i + 1] == other);
            }
            if after.contains(other) && other != socket {
                let i = choose|i: int| 0 <= i < after.len() && after[i] == other;
                assert(rest[i - 1] == other);
            }
        } else if endpoint_at_most(socket.address, first.address) {
            assert(after[0] == socket);
            assert forall|i: int| 0 < i < after.len() implies #[trigger] after[i] == sockets[
                i - 1
            ] by {}
            assert forall|i: int| 0 <= i < sockets.len() implies endpoint_at_most(
                socket.address,
                (#[trigger] sockets[i]).address,
            ) && socket.address != sockets[i].address by {
                if i > 0 {
                    assert(sockets[i] == rest[i - 1]);
                    law_endpoints_are_in_one_order(
                        socket.address,
                        first.address,
                        sockets[i].address,
                    );
                    law_endpoints_are_in_one_order(
                        first.address,
                        sockets[i].address,
                        first.address,
                    );
                }
            }
            if sockets.contains(other) {
                let i = choose|i: int| 0 <= i < sockets.len() && sockets[i] == other;
                assert(after[i + 1] == other);
                assert(socket.address != sockets[i].address);
            }
            if after.contains(other) && other != socket {
                let i = choose|i: int| 0 <= i < after.len() && after[i] == other;
                assert(sockets[i - 1] == other);
                assert(socket.address != sockets[i - 1].address);
            }
        } else {
            law_a_socket_is_put_in_its_place(rest, socket, other);
            lemma_endpoint_order(socket.address, first.address);
            let tail = with_socket(rest, socket);
            assert(after[0] == first);
            assert forall|i: int| 0 < i < after.len() implies #[trigger] after[i] == tail[
                i - 1
            ] by {}
            if tail.contains(other) {
                let i = choose|i: int| 0 <= i < tail.len() && tail[i] == other;
                assert(after[i + 1] == other);
            }
            if after.contains(other) && other != first {
                let i = choose|i: int| 0 <= i < after.len() && after[i] == other;
                assert(tail[i - 1] == other);
            }
            assert(after.contains(first));
            assert forall|i: int| 0 <= i < tail.len() implies endpoint_at_most(
                first.address,
                (#[trigger] tail[i]).address,
            ) && first.address != tail[i].address by {
                if tail[i].address != socket.address {
                    assert(rest.len() > 0);
                    assert(endpoint_at_most(first.address, rest[0].address));
                    law_endpoints_are_in_one_order(
                        first.address,
                        rest[0].address,
                        tail[i].address,
                    );
                    law_endpoints_are_in_one_order(
                        rest[0].address,
                        tail[i].address,
                        first.address,
                    );
                }
            }
        }
    }
}

/// The sockets of a table are taken one after another while there is room; the first that
/// finds none is counted and ends the walk.
pub proof fn law_sockets_are_taken_while_there_is_room(
    snapshot: SnapshotModel,
    sockets: Seq<ListeningSocket>,
    i: int,
    limits: ScanLimits,
)
    requires
        0 <= i <= sockets.len(),
    ensures
        i == sockets.len() ==> with_sockets(snapshot, sockets, i, limits) == snapshot,
        i < sockets.len() && snapshot.listening.len() >= limits.max_sockets ==> with_sockets(
            snapshot,
            sockets,
            i,
            limits,
        ).truncated == snapshot.truncated + 1,
        snapshot.listening.len() + (sockets.len() - i) <= limits.max_sockets ==> with_sockets(
            snapshot,
            sockets,
            i,
            limits,
        ).truncated == snapshot.truncated,
        with_sockets(snapshot, sockets, i, limits).processes == snapshot.processes,
        with_sockets(snapshot, sockets, i, limits).unreadable == snapshot.unreadable,
    decreases sockets.len() - i,
{
    if i < sockets.len() && snapshot.listening.len() < limits.max_sockets {
        let next = SnapshotModel {
            listening: with_socket(snapshot.listening, sockets[i]),
            ..snapshot
        };
        lemma_socket_adds_one(snapshot.listening, sockets[i]);
        law_sockets_are_taken_while_there_is_room(next, sockets, i + 1, limits);
    }
}

proof fn lemma_socket_adds_one(sockets: Seq<ListeningSocket>, socket: ListeningSocket)
    ensures
        with_socket(sockets, socket).len() <= sockets.len() + 1,
    decreases sockets.len(),
{
    if sockets.len() > 0 {
        lemma_socket_adds_one(sockets.skip(1), socket);
    }
}

} // verus!
