//! The raw socket.
use vstd::prelude::*;

verus! {

/// The length of a buffer of `size_mb` megabytes.
pub fn buffer_size(size_mb: u8) -> (res: i32)
    ensures
        res == 1_048_576 * size_mb,
{
    1_048_576 * size_mb as i32
}

} // verus!
