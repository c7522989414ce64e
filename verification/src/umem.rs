//! UMEM frame arena.
//!
//! The UMEM is a contiguous byte region shared with the kernel,
//! partitioned into fixed-size frames addressed by byte offset. The
//! arena tracks which frames are free: offsets are handed out from a
//! stack (most recently released first, for cache warmth) and returned
//! when a frame leaves the rings. Mapping the region itself is I/O and
//! lives outside the library; the arena models the free pool.

use vstd::prelude::*;

verus! {

/// The free pool of UMEM frames.
pub struct UmemArena {
    /// Bytes per frame.
    frame_size: u32,
    /// Total number of frames the region is divided into.
    frame_count: usize,
    /// Byte offsets of the free frames; a stack, top last.
    free: Vec<u64>,
}

impl UmemArena {
    /// Bytes per frame.
    pub closed spec fn spec_frame_size(self) -> int {
        self.frame_size as int
    }

    /// Total number of frames.
    pub closed spec fn spec_frame_count(self) -> int {
        self.frame_count as int
    }

    /// The free offsets, in stack order (top last).
    pub closed spec fn free_list(self) -> Seq<u64> {
        self.free@
    }

    /// Whether `offset` addresses a frame of this arena: a multiple of
    /// the frame size, within the region.
    pub open spec fn is_frame_offset(self, offset: u64) -> bool {
        &&& offset % (self.spec_frame_size() as u64) == 0
        &&& offset < self.spec_frame_count() * self.spec_frame_size()
    }

    /// Well-formedness: a positive frame size, a region whose byte size
    /// fits the offset type, and a free list of distinct, valid frame
    /// offsets.
    pub closed spec fn wf(self) -> bool {
        &&& self.frame_size >= 1
        &&& self.spec_frame_count() * self.spec_frame_size() <= u64::MAX
        &&& forall|j: int|
            0 <= j < self.free@.len() ==> self.is_frame_offset(#[trigger] self.free@[j])
        &&& forall|j: int, k: int| 0 <= j < k < self.free@.len() ==> self.free@[j] != self.free@[k]
    }

    /// What well-formedness guarantees: positive frame size, a region
    /// that fits the offset type, and a free list of distinct, valid
    /// frame offsets.
    pub proof fn lemma_wf_facts(self)
        requires
            self.wf(),
        ensures
            1 <= self.spec_frame_size() <= u32::MAX,
            0 <= self.spec_frame_count() <= usize::MAX,
            self.spec_frame_count() * self.spec_frame_size() <= u64::MAX,
            forall|j: int|
                0 <= j < self.free_list().len() ==> self.is_frame_offset(
                    #[trigger] self.free_list()[j],
                ),
            forall|j: int, k: int|
                0 <= j < k < self.free_list().len() ==> self.free_list()[j]
                    != self.free_list()[k],
    {
    }

    /// A fresh arena over `frame_count` frames of `frame_size` bytes
    /// each: every frame is free.
    pub fn new(frame_size: u32, frame_count: usize) -> (r: UmemArena)
        requires
            frame_size >= 1,
            frame_count * frame_size <= u64::MAX,
        ensures
            r.wf(),
            r.spec_frame_size() == frame_size,
            r.spec_frame_count() == frame_count,
            r.free_list().len() == frame_count,
            forall|j: int|
                0 <= j < frame_count ==> #[trigger] r.free_list()[j] == j * frame_size,
    {
        let mut free: Vec<u64> = Vec::new();
        let mut k: usize = 0;
        let mut offset: u64 = 0;
        while k < frame_count
            invariant
                frame_size >= 1,
                frame_count * frame_size <= u64::MAX,
                k <= frame_count,
                free@.len() == k,
                offset == k * frame_size,
                forall|j: int| 0 <= j < k ==> #[trigger] free@[j] == j * frame_size,
            decreases frame_count - k,
        {
            proof {
                assert((k + 1) * frame_size == k * frame_size + frame_size) by (nonlinear_arith);
                assert((k + 1) * frame_size <= frame_count * frame_size) by (nonlinear_arith)
                    requires
                        k + 1 <= frame_count,
                        frame_size >= 1,
                ;
            }
            free.push(offset);
            offset = offset + frame_size as u64;
            k = k + 1;
        }
        let r = UmemArena { frame_size, frame_count, free };
        proof {
            assert forall|j: int|
                0 <= j < r.free@.len() implies r.is_frame_offset(#[trigger] r.free@[j]) by {
                assert(r.free@[j] == j * frame_size);
                assert((j * frame_size) % (frame_size as int) == 0) by (nonlinear_arith)
                    requires
                        frame_size >= 1,
                        j >= 0,
                ;
                assert(j * frame_size < frame_count * frame_size) by (nonlinear_arith)
                    requires
                        0 <= j < frame_count,
                        frame_size >= 1,
                ;
                assert(r.free@[j] % (frame_size as u64) == 0);
            }
            assert forall|j: int, k2: int|
                0 <= j < k2 < r.free@.len() implies r.free@[j] != r.free@[k2] by {
                assert(r.free@[j] == j * frame_size);
                assert(r.free@[k2] == k2 * frame_size);
                assert(j * frame_size < k2 * frame_size) by (nonlinear_arith)
                    requires
                        0 <= j < k2,
                        frame_size >= 1,
                ;
            }
        }
        r
    }

    /// Number of free frames.
    pub fn available(&self) -> (r: usize)
        ensures
            r == self.free_list().len(),
    {
        self.free.len()
    }

    /// Bytes per frame.
    pub fn frame_size(&self) -> (r: u32)
        ensures
            r == self.spec_frame_size(),
    {
        self.frame_size
    }

    /// Total number of frames.
    pub fn frame_count(&self) -> (r: usize)
        ensures
            r == self.spec_frame_count(),
    {
        self.frame_count
    }

    /// Takes a free frame off the stack: the most recently released
    /// offset. Returns nothing exactly when the pool is empty.
    pub fn reserve(&mut self) -> (r: Option<u64>)
        requires
            old(self).wf(),
        ensures
            final(self).wf(),
            final(self).spec_frame_size() == old(self).spec_frame_size(),
            final(self).spec_frame_count() == old(self).spec_frame_count(),
            old(self).free_list().len() > 0 ==> {
                &&& r == Some(old(self).free_list().last())
                &&& final(self).free_list() == old(self).free_list().drop_last()
                &&& old(self).is_frame_offset(r->0)
            },
            old(self).free_list().len() == 0 ==> {
                &&& r is None
                &&& final(self).free_list() == old(self).free_list()
            },
    {
        let r = self.free.pop();
        proof {
            if old(self).free@.len() > 0 {
                assert(self.free@ =~= old(self).free@.drop_last());
            }
        }
        r
    }

    /// Returns a frame to the pool. The offset must address a frame and
    /// must not already be free — a frame is owned by exactly one place
    /// at a time.
    pub fn release(&mut self, offset: u64)
        requires
            old(self).wf(),
            old(self).is_frame_offset(offset),
            !old(self).free_list().contains(offset),
        ensures
            final(self).wf(),
            final(self).spec_frame_size() == old(self).spec_frame_size(),
            final(self).spec_frame_count() == old(self).spec_frame_count(),
            final(self).free_list() == old(self).free_list().push(offset),
    {
        self.free.push(offset);
        proof {
            assert forall|j: int, k: int|
                0 <= j < k < self.free@.len() implies self.free@[j] != self.free@[k] by {
                if k == self.free@.len() - 1 {
                    assert(self.free@[j] == old(self).free@[j]);
                    assert(old(self).free@.contains(old(self).free@[j]));
                    assert(self.free@[k] == offset);
                }
            }
        }
    }
}

} // verus!
