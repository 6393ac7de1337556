//! TCP flag bits, in wire order.

use vstd::prelude::*;

verus! {

/// FIN.
pub const FIN: u8 = 0b0000_0001;

/// SYN.
pub const SYN: u8 = 0b0000_0010;

/// RST.
pub const RST: u8 = 0b0000_0100;

/// ACK.
pub const ACK: u8 = 0b0001_0000;

} // verus!
