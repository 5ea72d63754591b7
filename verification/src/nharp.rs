//! NHARP: resolution of NodeIDs to hardware addresses.
use vstd::prelude::*;

pub mod laws;
pub mod packet;

verus! {

/// What a header in front of an NHARP packet names as next.
pub const NHARP_NEXT_HEADER: u8 = 0x3A;

/// What an NHARP packet does.
#[derive(Clone, Copy, Debug, PartialEq, Eq, Structural)]
pub enum Operation {
    Request,
    Reply,
}

/// The number of an operation.
pub open spec fn operation_code(op: Operation) -> u8 {
    match op {
        Operation::Request => 1,
        Operation::Reply => 2,
    }
}

impl Operation {
    /// The operation with the number `v`.
    pub fn from_u8(v: u8) -> (res: Option<Self>)
        ensures
            match res {
                Some(op) => operation_code(op) == v,
                None => v != operation_code(Operation::Request) && v != operation_code(
                    Operation::Reply,
                ),
            },
    {
        match v {
            1 => Some(Operation::Request),
            2 => Some(Operation::Reply),
            _ => None,
        }
    }

    /// The number of the operation.
    pub fn to_u8(self) -> (res: u8)
        ensures
            res == operation_code(self),
    {
        match self {
            Operation::Request => 1,
            Operation::Reply => 2,
        }
    }
}

} // verus!
