//! The buffer recycling pool.
//!
//! Every datagram lives in a fixed-size buffer of `MESSAGE_LENGTH`
//! bytes.  Buffers are acquired for ingress, travel inside messages
//! from inbox to queue to the next hop, and return to the pool when a
//! frame is delivered or dropped.  The pool is a LIFO stack; when it is
//! empty a fresh zeroed buffer is allocated and counted, so that at any
//! quiescent moment the free buffers plus the buffers in transit equal
//! everything ever allocated.

use vstd::prelude::*;

use crate::MESSAGE_LENGTH;

verus! {

/// A LIFO stack of reusable fixed-size buffers, together with the count
/// of buffers ever allocated through it.
pub struct Pool {
    /// The stack of free buffers, each of the fixed capacity.
    pub free: Vec<Vec<u8>>,
    /// How many buffers were ever allocated through this pool.
    pub allocated: usize,
}

impl Pool {
    /// Every free buffer has the fixed capacity, and no more buffers
    /// are free than were ever allocated.
    pub open spec fn wf(self) -> bool {
        &&& self.free@.len() <= self.allocated
        &&& forall|i: int| 0 <= i < self.free@.len() ==> (#[trigger] self.free@[i])@.len()
            == MESSAGE_LENGTH
    }

    /// How many allocated buffers are out of the pool, held by a
    /// message in transit or by the caller of an `acquire`.
    pub open spec fn outstanding(self) -> int {
        self.allocated - self.free@.len()
    }

    /// How many buffers sit in the pool.
    pub open spec fn spec_size(self) -> nat {
        self.free@.len()
    }

    /// How many buffers were ever allocated through this pool.
    pub open spec fn spec_allocated(self) -> nat {
        self.allocated as nat
    }

    /// An empty pool: nothing free, nothing allocated.
    pub fn new() -> (r: Pool)
        ensures
            r.wf(),
            r.spec_size() == 0,
            r.spec_allocated() == 0,
    {
        Pool { free: Vec::new(), allocated: 0 }
    }

    /// How many buffers sit in the pool.
    pub fn size(&self) -> (r: usize)
        ensures
            r == self.spec_size(),
    {
        self.free.len()
    }

    /// How many buffers were ever allocated through this pool.
    pub fn allocated(&self) -> (r: usize)
        ensures
            r == self.spec_allocated(),
    {
        self.allocated
    }

    /// Take a buffer out of the pool — the most recently released one —
    /// or allocate and count a zeroed one when the pool is empty.
    /// Exactly one more buffer is outstanding after the call, and the
    /// caller owes the pool exactly one `release`.
    pub fn acquire(&mut self) -> (b: Vec<u8>)
        requires
            old(self).wf(),
            old(self).spec_allocated() < usize::MAX,
        ensures
            final(self).wf(),
            b@.len() == MESSAGE_LENGTH,
            final(self).outstanding() == old(self).outstanding() + 1,
            old(self).spec_size() > 0 ==> {
                &&& b == old(self).free@.last()
                &&& final(self).free@ == old(self).free@.drop_last()
                &&& final(self).spec_allocated() == old(self).spec_allocated()
            },
            old(self).spec_size() == 0 ==> {
                &&& (forall|i: int| 0 <= i < MESSAGE_LENGTH ==> b@[i] == 0)
                &&& final(self).free@ == old(self).free@
                &&& final(self).spec_allocated() == old(self).spec_allocated() + 1
            },
    {
        match self.free.pop() {
            Some(b) => b,
            None => {
                self.allocated = self.allocated + 1;
                vec![0u8; MESSAGE_LENGTH]
            },
        }
    }

    /// Return a buffer to the pool.  The buffer must be one the pool
    /// handed out: it has the fixed capacity and is released exactly
    /// once, so at least one buffer is outstanding.
    pub fn release(&mut self, b: Vec<u8>)
        requires
            old(self).wf(),
            b@.len() == MESSAGE_LENGTH,
            old(self).outstanding() >= 1,
        ensures
            final(self).wf(),
            final(self).outstanding() == old(self).outstanding() - 1,
            final(self).spec_allocated() == old(self).spec_allocated(),
            final(self).free@ == old(self).free@.push(b),
    {
        self.free.push(b);
    }
}

/// Buffer conservation at quiescence: whenever no buffer is
/// outstanding, the pool holds exactly as many free buffers as were
/// ever allocated.  Together with the `outstanding` deltas of `acquire`
/// and `release`, and of the emulator operations that move whole
/// messages, this pins `size + in_transit == allocated` at every
/// quiescent moment.
pub proof fn lemma_buffer_conservation(pool: Pool)
    requires
        pool.wf(),
        pool.outstanding() == 0,
    ensures
        pool.spec_size() == pool.spec_allocated(),
{
}

} // verus!
