//! What the host sensors report.

use vstd::prelude::*;
use crate::net::IpAddr;
use crate::text::{optional_text, texts};

verus! {

/// What happened to a file.
#[derive(Debug, Clone, Copy, PartialEq, Eq, Structural)]
pub enum FileChange {
    /// The file appeared.
    Created,
    /// The file's contents changed.
    Modified,
    /// The file is gone.
    Deleted,
    /// The file has another name.
    Renamed,
    /// What surrounds the contents changed: mode or owner.
    AttributesChanged,
}

/// How an attempt to log in ended.
#[derive(Debug, Clone, Copy, PartialEq, Eq, Structural)]
pub enum AuthOutcome {
    /// The attempt was let in.
    Success,
    /// The attempt was turned away.
    Failure,
}

/// What an authentication event says.
pub struct AuthModel {
    /// How the attempt ended.
    pub outcome: AuthOutcome,
    /// The account.
    pub user: Option<Seq<char>>,
    /// The service that reported it.
    pub service: Option<Seq<char>>,
    /// Where the attempt came from.
    pub source_address: Option<IpAddr>,
    /// The port it came from.
    pub source_port: Option<u16>,
    /// The log's own text.
    pub message: Seq<char>,
    /// The log it was read from.
    pub log_source: Seq<char>,
    /// What should not have been there.
    pub suspicious: Seq<Seq<char>>,
}

/// An attempt to log in.
#[derive(Debug, Clone, PartialEq, Eq)]
pub struct AuthEvent {
    /// How the attempt ended.
    pub outcome: AuthOutcome,
    /// The account somebody tried to log in as.
    pub user: Option<String>,
    /// The service that reported it.
    pub service: Option<String>,
    /// Where the attempt came from.
    pub source_address: Option<IpAddr>,
    /// The port it came from.
    pub source_port: Option<u16>,
    /// The log's own text, made safe to show.
    pub message: String,
    /// The log it was read from.
    pub log_source: String,
    /// What should not have been there.
    pub suspicious: Vec<String>,
}

impl View for AuthEvent {
    type V = AuthModel;

    open spec fn view(&self) -> AuthModel {
        AuthModel {
            outcome: self.outcome,
            user: optional_text(self.user),
            service: optional_text(self.service),
            source_address: self.source_address,
            source_port: self.source_port,
            message: self.message@,
            log_source: self.log_source@,
            suspicious: texts(self.suspicious@),
        }
    }
}

/// What happened to a process.
#[derive(Debug, Clone, Copy, PartialEq, Eq, Structural)]
pub enum ProcessChange {
    /// The process appeared.
    Started,
    /// A socket began to listen.
    Listening,
}

/// What a process event says.
pub struct ProcessModel {
    /// What happened.
    pub change: ProcessChange,
    /// Process id; 0 where it is not known.
    pub pid: u32,
    /// Executable name.
    pub name: Seq<char>,
    /// Path to the executable.
    pub executable: Option<Seq<char>>,
    /// Command line.
    pub command_line: Option<Seq<char>>,
    /// Real user id.
    pub uid: Option<u32>,
    /// Parent pid.
    pub parent_pid: Option<u32>,
}

/// A new process or a newly listening socket.
#[derive(Debug, Clone, PartialEq, Eq)]
pub struct ProcessEvent {
    /// What happened.
    pub change: ProcessChange,
    /// Process id; 0 where it is not known.
    pub pid: u32,
    /// Executable name.
    pub name: String,
    /// Resolved path to the executable.
    pub executable: Option<String>,
    /// Command line.
    pub command_line: Option<String>,
    /// Real user id.
    pub uid: Option<u32>,
    /// Parent pid.
    pub parent_pid: Option<u32>,
}

impl View for ProcessEvent {
    type V = ProcessModel;

    open spec fn view(&self) -> ProcessModel {
        ProcessModel {
            change: self.change,
            pid: self.pid,
            name: self.name@,
            executable: optional_text(self.executable),
            command_line: optional_text(self.command_line),
            uid: self.uid,
            parent_pid: self.parent_pid,
        }
    }
}

/// How a change to a file was found.
#[derive(Debug, Clone, Copy, PartialEq, Eq, Structural)]
pub enum FimDetection {
    /// As it happened.
    RealTime,
    /// By comparing with the baseline.
    BaselineRescan,
}

/// What a file event says.
pub struct FimModel {
    /// The file.
    pub path: Seq<char>,
    /// What happened.
    pub change: FileChange,
    /// How it was found.
    pub detected_by: FimDetection,
    /// Size in bytes.
    pub size: Option<u64>,
    /// Content hash.
    pub sha256: Option<Seq<char>>,
    /// Content hash before.
    pub previous_sha256: Option<Seq<char>>,
    /// Unix mode.
    pub mode: Option<u32>,
    /// Owning user.
    pub uid: Option<u32>,
    /// Owning group.
    pub gid: Option<u32>,
}

/// A change to a watched file.
#[derive(Debug, Clone, PartialEq, Eq)]
pub struct FimEvent {
    /// The file.
    pub path: String,
    /// What happened.
    pub change: FileChange,
    /// How it was found. An analyst reading a change found by rescan needs to
    /// know that real-time watching missed it.
    pub detected_by: FimDetection,
    /// Size in bytes.
    pub size: Option<u64>,
    /// Content hash, where there is one.
    pub sha256: Option<String>,
    /// Content hash before, where there was one.
    pub previous_sha256: Option<String>,
    /// Unix mode.
    pub mode: Option<u32>,
    /// Owning user.
    pub uid: Option<u32>,
    /// Owning group.
    pub gid: Option<u32>,
}

impl View for FimEvent {
    type V = FimModel;

    open spec fn view(&self) -> FimModel {
        FimModel {
            path: self.path@,
            change: self.change,
            detected_by: self.detected_by,
            size: self.size,
            sha256: optional_text(self.sha256),
            previous_sha256: optional_text(self.previous_sha256),
            mode: self.mode,
            uid: self.uid,
            gid: self.gid,
        }
    }
}

} // verus!
