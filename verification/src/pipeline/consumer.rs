//! The count that a consumer reports after draining its channel.

use vstd::prelude::*;

verus! {

/// The number a consumer reports once its channel is closed: the number of
/// items whose document was stored; items that failed are not counted.
pub struct PullTally {
    count: usize,
}

impl View for PullTally {
    type V = nat;

    closed spec fn view(&self) -> nat {
        self.count as nat
    }
}

impl PullTally {
    /// A tally of no items.
    pub fn new() -> (tally: Self)
        ensures
            tally@ == 0,
    {
        PullTally { count: 0 }
    }

    /// Records one received item; `saved` tells whether its document was stored.
    pub fn record(&mut self, saved: bool)
        requires
            old(self)@ + 1 <= usize::MAX,
        ensures
            final(self)@ == old(self)@ + if saved { 1nat } else { 0nat },
    {
        if saved {
            self.count += 1;
        }
    }

    /// The reported count.
    pub fn count(&self) -> (count: usize)
        ensures
            count == self@,
    {
        self.count
    }
}

} // verus!
