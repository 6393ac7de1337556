//! What leaves a whole host sensor unable to work.

use vstd::prelude::*;
use crate::text::{append, owned};

verus! {

/// Host rules occupy SIDs at or above this value, keeping them out of the network
/// rule space.
pub const HOST_RULE_SID_BASE: u32 = 1_000_000;

/// Something a host sensor could not do.
///
/// Deliberately small. Nearly everything that goes wrong while monitoring a host,
/// an unreadable file or a process that exited mid-read, is *ordinary*, and is
/// counted rather than raised. What reaches this type is a failure that leaves a
/// whole sensor unable to work.
#[derive(Debug, Clone, PartialEq, Eq)]
pub enum HostError {
    /// The baseline store could not be opened or used.
    Baseline {
        /// What failed.
        detail: String,
    },
    /// The real-time watcher could not be established.
    ///
    /// Not fatal to file integrity monitoring as a whole: the periodic rescan
    /// still runs, which is precisely the case the baseline exists for.
    Watcher {
        /// What failed.
        detail: String,
    },
}

impl HostError {
    /// The message for an operator.
    pub fn to_text(&self) -> (text: String)
        ensures
            text@ == (match *self {
                HostError::Baseline { detail } => "file integrity baseline: "@ + detail@,
                HostError::Watcher { detail } => "file watcher: "@ + detail@,
            }),
    {
        match self {
            HostError::Baseline { detail } => {
                let mut text = owned("file integrity baseline: ");
                append(&mut text, detail.as_str());
                text
            },
            HostError::Watcher { detail } => {
                let mut text = owned("file watcher: ");
                append(&mut text, detail.as_str());
                text
            },
        }
    }
}

} // verus!
