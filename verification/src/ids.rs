//! Identities for obstacles: each one is handed out once, in rising order.

use crate::geometry::ObstacleId;
use vstd::prelude::*;

verus! {

/// Hands out the identities of obstacles. The host owns one allocator and
/// asks it for an identity whenever it makes an obstacle.
#[derive(Debug)]
pub struct IdAllocator {
    next: u64,
}

impl IdAllocator {
    /// How many identities have been handed out. It is also the value of
    /// the identity that comes next.
    pub closed spec fn issued(&self) -> nat {
        self.next as nat
    }

    /// An allocator that has handed out nothing.
    pub fn new() -> (allocator: IdAllocator)
        ensures
            allocator.issued() == 0,
    {
        IdAllocator { next: 0 }
    }

    /// Tells whether the allocator has an identity left to hand out.
    pub fn has_next(&self) -> (left: bool)
        ensures
            left == (self.issued() < u64::MAX),
    {
        self.next < u64::MAX
    }

    /// Hands out the next identity. Its value is the number of identities
    /// handed out before, so it is above every earlier one and differs from
    /// each.
    pub fn next_obstacle_id(&mut self) -> (id: ObstacleId)
        requires
            old(self).issued() < u64::MAX,
        ensures
            id.0 == old(self).issued(),
            final(self).issued() == old(self).issued() + 1,
    {
        let value: u64 = self.next;
        self.next = value + 1;
        ObstacleId(value)
    }
}

} // verus!
