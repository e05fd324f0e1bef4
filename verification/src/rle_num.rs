//! A collector of Lamport stamps kept in insertion order, the in-memory
//! side of a delta-run-length number column. Byte framing lives outside the
//! verified core.

use vstd::prelude::*;

use crate::id::Lamport;

verus! {

/// Numbers collected in order.
#[derive(Debug)]
pub struct DeltaRleEncodedNums {
    pub nums: Vec<Lamport>,
}

impl DeltaRleEncodedNums {
    pub fn new() -> (r: Self)
        ensures
            r.nums@ == Seq::<Lamport>::empty(),
    {
        let r = DeltaRleEncodedNums { nums: Vec::new() };
        proof {
            assert(r.nums@ =~= Seq::<Lamport>::empty());
        }
        r
    }

    pub fn push(&mut self, n: Lamport)
        ensures
            final(self).nums@ == old(self).nums@.push(n),
    {
        self.nums.push(n);
    }

    /// The collected numbers, in order.
    pub fn iter(&self) -> (r: Vec<Lamport>)
        ensures
            r@ == self.nums@,
    {
        crate::op::copy_vec(&self.nums)
    }
}

} // verus!
