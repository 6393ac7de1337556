//! Inline prevention: turning detection into dropped packets.
//!
//! # The verdict path and the detection path are two different jobs
//!
//! Detection is **acknowledgement-gated**: reassembly holds bytes until the peer
//! acknowledges them, which costs about a round trip. Inline, a round trip is not
//! available: the kernel hands over a packet and waits. So the two jobs are kept
//! apart:
//!
//! * The **verdict path**, these modules, answers immediately, per packet, from
//!   state that already exists. It never reassembles, never matches, never waits.
//!   Default `Accept`.
//! * The **detection path** runs on its own timeline. When a rule with a block
//!   action matches, it *records a verdict*, which the verdict path then enforces
//!   on every later packet.
//!
//! # What that honestly buys, and what it does not
//!
//! Because matching needs reassembly, **the first packets carrying a brand-new
//! signature may pass before the match completes.** What is reliably dropped is
//! the *rest of that flow* and every *subsequent connection from the flagged
//! source*. So `blocked` in an alert means "the flow was terminated and the source
//! blocked from this point", not "no byte of this attack reached the target".
//!
//! # Fail-open is not a code path
//!
//! If the sensor process dies, no code here runs at all: the **kernel** decides,
//! based on how the queueing rule was written. See [`nft::queue_rule`].

pub mod depth;
pub mod nft;
pub mod queue;
pub mod store;
pub mod table;

pub use store::{
    BlockOutcome, Decision, DropReason, FailMode, Mode, Prevention, PreventionSettings,
};
