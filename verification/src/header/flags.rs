//! The flags of an NHIP header.
use vstd::prelude::*;

verus! {

/// Bit 3.
pub const MULTICAST: u8 = 0b1000;

/// Bit 2.
pub const BROADCAST: u8 = 0b0100;

/// Bits 0 and 1.
pub const RESERVERD: u8 = 0b0011;

} // verus!
