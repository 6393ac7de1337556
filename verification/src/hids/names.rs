//! The names of the host event sources. They are stable: a consumer alarms on
//! them.

use vstd::prelude::*;

verus! {

/// Real-time file change notification.
pub const FIM_REALTIME: &'static str = "fim.realtime";

/// The periodic baseline comparison.
pub const FIM_BASELINE: &'static str = "fim.baseline";

/// Structured authentication records.
pub const AUTH_STRUCTURED: &'static str = "auth.structured";

/// Authentication records from text log files.
pub const AUTH_FILES: &'static str = "auth.files";

/// Process creation and exit.
pub const PROCESS_TABLE: &'static str = "process.table";

/// Listening sockets.
pub const PROCESS_SOCKETS: &'static str = "process.sockets";

} // verus!
