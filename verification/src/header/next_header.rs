//! What follows an NHIP header.
use vstd::prelude::*;

verus! {

pub const NHIPPING: u8 = 0x01;

pub const NHIPPONG: u8 = 0x02;

pub const TCP: u8 = 0x06;

pub const UDP: u8 = 0x11;

} // verus!
