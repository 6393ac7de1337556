//! Host-based detection: file integrity, authentication logs and processes.
//!
//! * [`fim`], [`baseline`], [`walk`], [`digest`], [`path`]: file integrity
//!   monitoring.
//! * [`logs`], [`tailer`], [`json`]: authentication records from log files and the
//!   journal. [`evtx`]: the same from rendered Windows events.
//! * [`process`], [`procfs`]: new processes and listening sockets.
//! * [`usn`]: the NTFS change journal.
//! * [`sensor`], [`sources`], [`names`]: what the runtime decides, and what each
//!   source is doing.
//!
//! Everything a host produces, a log line, a process name, a path, is chosen by
//! whoever is being watched. Every parser here is total and every list bounded.

pub mod baseline;
pub mod clean;
pub mod digest;
pub mod error;
pub mod event;
pub mod evtx;
pub mod fim;
pub mod json;
pub mod logs;
pub mod names;
pub mod path;
pub mod process;
pub mod procfs;
pub mod sensor;
pub mod sources;
pub mod tailer;
pub mod usn;
pub mod walk;

pub use error::{HostError, HOST_RULE_SID_BASE};
