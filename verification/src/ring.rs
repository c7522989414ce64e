//! Single-producer/single-consumer descriptor ring.
//!
//! Each of the four rings of the datapath — RX, Fill, TX, Completion —
//! is a power-of-two-sized circular buffer of descriptors with monotonic
//! producer and consumer counters. The producer never trails the
//! consumer and never leads it by more than the capacity. This module
//! models the logical ring state; publishing indices to the kernel and
//! the wakeup syscall are I/O and live outside the library.

use vstd::prelude::*;

verus! {

/// One ring descriptor: a frame's byte offset within the UMEM, the
/// packet length, and option flags.
#[derive(Clone, Copy, Debug, PartialEq, Eq, Structural)]
pub struct RingDesc {
    pub addr: u64,
    pub len: u32,
    pub options: u32,
}

/// The error of writing to a full ring.
#[derive(Clone, Copy, Debug, PartialEq, Eq, Structural)]
pub struct RingFull;

/// A single-producer/single-consumer descriptor ring.
pub struct Ring {
    /// The descriptor slots; length equals the capacity.
    buf: Vec<RingDesc>,
    /// Slot of the oldest pending descriptor.
    head: usize,
    /// Number of pending descriptors.
    len: usize,
    /// Monotonic producer counter: total descriptors ever written.
    producer: Ghost<int>,
    /// Monotonic consumer counter: total descriptors ever read.
    consumer: Ghost<int>,
}

impl Ring {
    /// The ring's capacity: the number of descriptor slots.
    pub closed spec fn spec_capacity(self) -> int {
        self.buf@.len() as int
    }

    /// The monotonic producer index.
    pub closed spec fn producer_index(self) -> int {
        self.producer@
    }

    /// The monotonic consumer index.
    pub closed spec fn consumer_index(self) -> int {
        self.consumer@
    }

    /// The pending descriptors, oldest first: what the consumer has not
    /// read yet.
    pub closed spec fn pending(self) -> Seq<RingDesc> {
        if self.head + self.len <= self.buf@.len() {
            self.buf@.subrange(self.head as int, self.head + self.len)
        } else {
            self.buf@.subrange(self.head as int, self.buf@.len() as int) + self.buf@.subrange(
                0,
                self.head + self.len - self.buf@.len(),
            )
        }
    }

    /// Well-formedness: a power-of-two capacity, in-range head and
    /// length, and consumer and producer counters that differ by exactly
    /// the pending count — hence producer at least consumer, and at most
    /// consumer plus capacity.
    pub closed spec fn wf(self) -> bool {
        &&& 0 < self.buf@.len() <= usize::MAX / 2
        &&& (self.buf@.len() as usize) & ((self.buf@.len() - 1) as usize) == 0
        &&& self.head < self.buf@.len()
        &&& self.len <= self.buf@.len()
        &&& 0 <= self.consumer@
        &&& self.producer@ - self.consumer@ == self.len
    }

    /// Ring index invariant: the producer index is at least the consumer
    /// index, and their difference — the pending count — is at most the
    /// capacity.
    pub proof fn lemma_ring_indices(self)
        requires
            self.wf(),
        ensures
            self.consumer_index() <= self.producer_index(),
            self.producer_index() - self.consumer_index() == self.pending().len(),
            self.producer_index() <= self.consumer_index() + self.spec_capacity(),
    {
    }

    /// An empty ring of `capacity` slots. The capacity must be a power
    /// of two, and small enough that slot arithmetic cannot overflow.
    pub fn new(capacity: usize) -> (r: Ring)
        requires
            0 < capacity <= usize::MAX / 2,
            capacity & ((capacity - 1) as usize) == 0,
        ensures
            r.wf(),
            r.spec_capacity() == capacity,
            r.pending() == Seq::<RingDesc>::empty(),
            r.producer_index() == 0,
            r.consumer_index() == 0,
    {
        let mut buf: Vec<RingDesc> = Vec::new();
        let mut i: usize = 0;
        while i < capacity
            invariant
                i <= capacity,
                buf@.len() == i,
            decreases capacity - i,
        {
            buf.push(RingDesc { addr: 0, len: 0, options: 0 });
            i = i + 1;
        }
        let r = Ring { buf, head: 0, len: 0, producer: Ghost(0), consumer: Ghost(0) };
        proof {
            assert(r.pending() =~= Seq::<RingDesc>::empty());
        }
        r
    }

    /// The ring's capacity.
    pub fn capacity(&self) -> (r: usize)
        ensures
            r == self.spec_capacity(),
    {
        self.buf.len()
    }

    /// Space left for the producer: capacity minus the pending count.
    pub fn available(&self) -> (r: usize)
        requires
            self.wf(),
        ensures
            r == self.spec_capacity() - self.pending().len(),
    {
        self.buf.len() - self.len
    }

    /// Number of pending descriptors for the consumer.
    pub fn readable(&self) -> (r: usize)
        requires
            self.wf(),
        ensures
            r == self.pending().len(),
    {
        self.len
    }

    /// Producer push: appends a descriptor, or fails with `RingFull` and
    /// leaves the ring unchanged when the pending count has reached the
    /// capacity.
    pub fn write(&mut self, desc: RingDesc) -> (r: Result<(), RingFull>)
        requires
            old(self).wf(),
        ensures
            final(self).wf(),
            final(self).spec_capacity() == old(self).spec_capacity(),
            final(self).consumer_index() == old(self).consumer_index(),
            old(self).pending().len() < old(self).spec_capacity() ==> {
                &&& r is Ok
                &&& final(self).pending() == old(self).pending().push(desc)
                &&& final(self).producer_index() == old(self).producer_index() + 1
            },
            old(self).pending().len() == old(self).spec_capacity() ==> {
                &&& r is Err
                &&& *final(self) == *old(self)
            },
    {
        if self.len == self.buf.len() {
            return Err(RingFull);
        }
        let cap = self.buf.len();
        let mut idx = self.head + self.len;
        if idx >= cap {
            idx = idx - cap;
        }
        self.buf.set(idx, desc);
        self.len = self.len + 1;
        proof {
            self.producer@ = self.producer@ + 1;
        }
        proof {
            assert(self.pending() =~= old(self).pending().push(desc));
        }
        Ok(())
    }

    /// Consumer pop: removes and returns the oldest pending descriptor,
    /// or returns nothing and leaves the ring unchanged when it is
    /// empty.
    pub fn read(&mut self) -> (r: Option<RingDesc>)
        requires
            old(self).wf(),
        ensures
            final(self).wf(),
            final(self).spec_capacity() == old(self).spec_capacity(),
            final(self).producer_index() == old(self).producer_index(),
            old(self).pending().len() > 0 ==> {
                &&& r == Some(old(self).pending()[0])
                &&& final(self).pending() == old(self).pending().drop_first()
                &&& final(self).consumer_index() == old(self).consumer_index() + 1
            },
            old(self).pending().len() == 0 ==> {
                &&& r is None
                &&& *final(self) == *old(self)
            },
    {
        if self.len == 0 {
            return None;
        }
        let desc = self.buf[self.head];
        let cap = self.buf.len();
        if self.head + 1 == cap {
            self.head = 0;
        } else {
            self.head = self.head + 1;
        }
        self.len = self.len - 1;
        proof {
            self.consumer@ = self.consumer@ + 1;
        }
        proof {
            assert(self.pending() =~= old(self).pending().drop_first());
        }
        Some(desc)
    }
}

} // verus!
