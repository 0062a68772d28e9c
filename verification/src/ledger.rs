//! Room Ledger: one occupancy count per room, each in [0, 2].
//! A seat is claimed by incrementing under exclusive access; cleanup of a
//! room's match resets the count to 0 in one step.

use vstd::prelude::*;
use crate::{ROOM_CAPACITY, ROOM_COUNT};

verus! {

/// The fixed-cardinality registry of room occupancy counts.
pub struct Ledger {
    counts: Vec<u8>,
}

impl View for Ledger {
    type V = Seq<u8>;

    closed spec fn view(&self) -> Seq<u8> {
        self.counts@
    }
}

impl Ledger {
    /// Every count is a seat number's upper bound away from overflow:
    /// exactly `ROOM_COUNT` rooms, each occupancy in [0, `ROOM_CAPACITY`].
    pub open spec fn wf(self) -> bool {
        &&& self@.len() == ROOM_COUNT
        &&& forall|i: int| 0 <= i < self@.len() ==> self@[i] <= ROOM_CAPACITY
    }

    /// A fresh ledger: every room empty.
    pub fn new() -> (r: Ledger)
        ensures
            r.wf(),
            r@ =~= seq![0u8, 0u8, 0u8, 0u8],
    {
        let mut counts: Vec<u8> = Vec::new();
        counts.push(0);
        counts.push(0);
        counts.push(0);
        counts.push(0);
        Ledger { counts }
    }

    /// Claims a seat in `room` if it is not full: the occupancy is
    /// incremented and returned as the seat number (1 or 2); a full room is
    /// left untouched and the claim is refused.
    pub fn try_claim(&mut self, room: usize) -> (seat: Option<u8>)
        requires
            old(self).wf(),
            room < ROOM_COUNT,
        ensures
            final(self).wf(),
            old(self)@[room as int] < ROOM_CAPACITY ==> {
                &&& seat == Some((old(self)@[room as int] + 1) as u8)
                &&& final(self)@ == old(self)@.update(
                    room as int,
                    (old(self)@[room as int] + 1) as u8,
                )
            },
            old(self)@[room as int] >= ROOM_CAPACITY ==> {
                &&& seat is None
                &&& final(self)@ == old(self)@
            },
    {
        let c = self.counts[room];
        if c < ROOM_CAPACITY {
            self.counts.set(room, c + 1);
            Some(c + 1)
        } else {
            None
        }
    }

    /// Frees `room` unconditionally: its occupancy returns to 0 and a
    /// brand-new pairing may claim it at once.
    pub fn release(&mut self, room: usize)
        requires
            old(self).wf(),
            room < ROOM_COUNT,
        ensures
            final(self).wf(),
            final(self)@ == old(self)@.update(room as int, 0u8),
    {
        self.counts.set(room, 0);
    }

    /// The occupancy counts of all rooms, in room order.
    pub fn snapshot(&self) -> (r: Vec<u8>)
        requires
            self.wf(),
        ensures
            r@ == self@,
    {
        let mut v: Vec<u8> = Vec::new();
        let mut i: usize = 0;
        while i < self.counts.len()
            invariant
                i <= self@.len(),
                v@ == self@.subrange(0, i as int),
            decreases self@.len() - i,
        {
            v.push(self.counts[i]);
            i = i + 1;
            proof {
                assert(self@.subrange(0, i as int)
                    =~= self@.subrange(0, i - 1).push(self@[i - 1]));
            }
        }
        proof {
            assert(self@.subrange(0, self@.len() as int) =~= self@);
        }
        v
    }
}

} // verus!
