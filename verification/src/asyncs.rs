//! Batching of the earlier, fixed-size ticket fetch.

use std::ops::Range;
use vstd::prelude::*;

verus! {

/// The fixed batch size of the fetch.
pub const BATCH_SIZE: u32 = 10;

/// The batch numbers of a fetch of `total` tickets: none below
/// `BATCH_SIZE` tickets, else `1..ceil(total / (BATCH_SIZE - 1))`.
pub fn batch_range(total: u32) -> (range: Range<u32>)
    ensures
        range.start == 1,
        range.end == if total < BATCH_SIZE {
            1
        } else {
            (total + BATCH_SIZE - 2) / (BATCH_SIZE - 1) as int
        },
{
    if total < BATCH_SIZE {
        1..1
    } else {
        let b = BATCH_SIZE - 1;
        let r = if total % b > 0 {
            1
        } else {
            0
        };
        1..(total / b) + r
    }
}

} // verus!
