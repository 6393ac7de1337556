//! The logic of a host and network intrusion sensor, verified.
//!
//! * [`reassembly`]: IP defragmentation, TCP stream reassembly, the flow table
//!   and URL path normalization.
//! * [`rules`]: the `.rules` format, its model, its parser and its loader.
//! * [`hids`]: file integrity, authentication logs and processes.
//! * [`prevent`]: the verdict store and the per-packet decision.
//! * [`address`], [`bytes`], [`config`], [`counting`], [`net`], [`sorted`],
//!   [`tally`], [`text`], [`time`]: the vocabulary they share.

pub mod address;
pub mod bytes;
pub mod config;
pub mod counting;
pub mod hids;
pub mod net;
pub mod prevent;
pub mod reassembly;
pub mod rules;
pub mod sorted;
pub mod tally;
pub mod text;
pub mod time;
