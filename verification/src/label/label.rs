//! Link labels with a meaning of their own.
use vstd::prelude::*;

verus! {

/// No label yet: the packet takes the slow path.
pub const UNKNOWN: u64 = 0;

/// The packet has reached its destination network.
pub const EGRESS: u64 = 0xFF_FF_FF_FF_FF_FF_FF_FF;

/// The smallest label that is free for use.
pub const MIN_USER: u64 = 32;

} // verus!
