//! The relay datapath: UMEM frame pool, the four rings, and the
//! per-packet decisions of the relay loop.
//!
//! Frames circulate among five owners: the free pool, the Fill ring
//! (empty frames donated to the kernel), the RX ring (received
//! packets), the TX ring (outgoing packets) and the Completion ring
//! (transmitted frames on their way back). Every operation moves a
//! frame from one owner to another, and the conservation invariant
//! holds at every step: each frame belongs to exactly one owner. (A
//! frame popped from RX is user-held only within a single call; at the
//! boundaries between operations no frame is in flight.)
//!
//! The kernel's half of the cycle — consuming Fill into RX on packet
//! arrival, and moving TX to Completion on transmission — is modeled by
//! `kernel_deliver` and `kernel_transmit`, so the whole frame lifecycle
//! can be driven and checked in memory.

use vstd::prelude::*;

use vstd::multiset::Multiset;

use crate::packet::classify;
use crate::packet::rewrite_packet;
use crate::packet::rewritten;
use crate::packet::spec_classify;
use crate::packet::Ipv4Addr;
use crate::packet::MacAddress;
use crate::packet::PacketClass;
use crate::ring::Ring;
use crate::ring::RingDesc;
use crate::umem::UmemArena;
use crate::ETH_HEADER_SIZE;

verus! {

broadcast use vstd::seq_lib::group_to_multiset_ensures, vstd::multiset::group_multiset_axioms;

/// Statistics of the receive-only loop: monotonic counters of packets
/// and bytes seen on the RX ring.
pub struct RxStats {
    pub rx_packets: u64,
    pub rx_bytes: u64,
}

impl RxStats {
    /// Zeroed counters.
    pub fn new() -> (r: RxStats)
        ensures
            r.rx_packets == 0,
            r.rx_bytes == 0,
    {
        RxStats { rx_packets: 0, rx_bytes: 0 }
    }
}

/// Where to forward matching traffic: rewritten destination addressing.
#[derive(Clone, Copy)]
pub struct ForwardConfig {
    pub dest_mac: MacAddress,
    pub dest_ip: Ipv4Addr,
    pub dest_port: u16,
}

/// What the relay did with one received packet.
#[derive(Clone, Copy, Debug, PartialEq, Eq, Structural)]
pub enum RxAction {
    /// The frame was rewritten and queued on the TX ring.
    Forwarded,
    /// The frame was returned to the Fill ring.
    ReturnedToFill,
    /// The Fill ring was full; the frame went back to the free pool.
    ReleasedToPool,
}

/// The source port written into forwarded packets.
pub const FORWARD_SRC_PORT: u16 = 12345;

/// The frame indices a run of descriptors refers to.
pub open spec fn desc_frame_seq(s: Seq<RingDesc>, fs: int) -> Seq<int> {
    s.map_values(|d: RingDesc| d.addr as int / fs)
}

/// The frame indices a run of free offsets refers to.
pub open spec fn offset_frame_seq(s: Seq<u64>, fs: int) -> Seq<int> {
    s.map_values(|o: u64| o as int / fs)
}

/// The relay datapath state: the frame pool and contents, the four
/// rings, the forwarding configuration, and the packet counter.
pub struct Datapath {
    /// Free-frame pool and region geometry.
    umem: UmemArena,
    /// The frame contents, by frame index; each entry is one frame of
    /// `frame_size` bytes.
    frames: Vec<Vec<u8>>,
    /// Empty frames donated to the kernel for reception.
    fill: Ring,
    /// Received packets, kernel to user.
    rx: Ring,
    /// Outgoing packets, user to kernel.
    tx: Ring,
    /// Transmitted frames returned by the kernel.
    completion: Ring,
    /// The relay's own L2 address, written as source when forwarding.
    pub src_mac: MacAddress,
    /// The relay's own L3 address, written as source when forwarding.
    pub src_ip: Ipv4Addr,
    /// Where to forward UDP traffic; without it every frame returns to
    /// the Fill ring.
    pub forward: Option<ForwardConfig>,
    /// Total packets taken off the RX ring, saturating.
    pub packets_received: u64,
}

impl Datapath {
    /// Bytes per frame.
    pub closed spec fn frame_size(self) -> int {
        self.umem.spec_frame_size()
    }

    /// Total number of frames.
    pub closed spec fn frame_count(self) -> int {
        self.umem.spec_frame_count()
    }

    /// The free pool, as the arena holds it.
    pub closed spec fn free_list(self) -> Seq<u64> {
        self.umem.free_list()
    }

    /// The pending descriptors of the Fill ring.
    pub closed spec fn fill_pending(self) -> Seq<RingDesc> {
        self.fill.pending()
    }

    /// The pending descriptors of the RX ring.
    pub closed spec fn rx_pending(self) -> Seq<RingDesc> {
        self.rx.pending()
    }

    /// The pending descriptors of the TX ring.
    pub closed spec fn tx_pending(self) -> Seq<RingDesc> {
        self.tx.pending()
    }

    /// The pending descriptors of the Completion ring.
    pub closed spec fn completion_pending(self) -> Seq<RingDesc> {
        self.completion.pending()
    }

    /// The bytes of frame `i`.
    pub closed spec fn frame_bytes(self, i: int) -> Seq<u8> {
        self.frames@[i]@
    }

    /// The whole frame store: one buffer per frame index.
    pub closed spec fn frame_store(self) -> Seq<Vec<u8>> {
        self.frames@
    }

    /// The Fill ring's capacity.
    pub closed spec fn fill_capacity(self) -> int {
        self.fill.spec_capacity()
    }

    /// The RX ring's capacity.
    pub closed spec fn rx_capacity(self) -> int {
        self.rx.spec_capacity()
    }

    /// The TX ring's capacity.
    pub closed spec fn tx_capacity(self) -> int {
        self.tx.spec_capacity()
    }

    /// The Completion ring's capacity.
    pub closed spec fn completion_capacity(self) -> int {
        self.completion.spec_capacity()
    }

    /// The relay's own L2 address, as the contracts speak of it.
    pub closed spec fn spec_src_mac(self) -> MacAddress {
        self.src_mac
    }

    /// The relay's own L3 address, as the contracts speak of it.
    pub closed spec fn spec_src_ip(self) -> Ipv4Addr {
        self.src_ip
    }

    /// The forwarding configuration, as the contracts speak of it.
    pub closed spec fn spec_forward(self) -> Option<ForwardConfig> {
        self.forward
    }

    /// The packet counter, as the contracts speak of it.
    pub closed spec fn spec_packets_received(self) -> u64 {
        self.packets_received
    }

    /// Every owner's frames, with multiplicity: the free pool and the
    /// four rings together.
    pub open spec fn owned(self) -> Multiset<int> {
        offset_frame_seq(self.free_list(), self.frame_size()).to_multiset().add(
            desc_frame_seq(self.fill_pending(), self.frame_size()).to_multiset(),
        ).add(desc_frame_seq(self.rx_pending(), self.frame_size()).to_multiset()).add(
            desc_frame_seq(self.tx_pending(), self.frame_size()).to_multiset(),
        ).add(desc_frame_seq(self.completion_pending(), self.frame_size()).to_multiset())
    }

    /// A descriptor the datapath may hold: it addresses a frame, and its
    /// length fits in that frame.
    pub closed spec fn valid_desc(self, d: RingDesc) -> bool {
        &&& self.umem.is_frame_offset(d.addr)
        &&& d.len <= self.frame_size()
    }

    /// All pending descriptors of a ring are valid.
    pub open spec fn valid_descs(self, s: Seq<RingDesc>) -> bool {
        forall|j: int| 0 <= j < s.len() ==> self.valid_desc(#[trigger] s[j])
    }

    /// Frame conservation: every frame is owned exactly once.
    pub open spec fn conserved(self) -> bool {
        forall|i: int| 0 <= i < self.frame_count() ==> self.owned().count(i) == 1
    }

    /// Well-formedness: the arena and rings are intact, the frame store
    /// matches the region geometry, every pending descriptor is valid,
    /// frames are small enough that a packet length fits the header
    /// arithmetic, and conservation holds.
    pub closed spec fn wf(self) -> bool {
        &&& self.umem.wf()
        &&& self.fill.wf()
        &&& self.rx.wf()
        &&& self.tx.wf()
        &&& self.completion.wf()
        &&& self.frames@.len() == self.frame_count()
        &&& forall|i: int|
            0 <= i < self.frame_count() ==> (#[trigger] self.frames@[i])@.len()
                == self.frame_size()
        &&& self.frame_size() <= ETH_HEADER_SIZE + u16::MAX
        &&& self.valid_descs(self.fill_pending())
        &&& self.valid_descs(self.rx_pending())
        &&& self.valid_descs(self.tx_pending())
        &&& self.valid_descs(self.completion_pending())
        &&& self.conserved()
    }

    /// Frame conservation, as a statement of its own: in a well-formed
    /// datapath the sum of frames over the free pool and the four rings
    /// covers every frame exactly once — no frame has two owners, and
    /// none is lost.
    pub proof fn lemma_frame_conservation(self)
        requires
            self.wf(),
        ensures
            forall|i: int| 0 <= i < self.frame_count() ==> self.owned().count(i) == 1,
            self.free_list().len() + self.fill_pending().len() + self.rx_pending().len()
                + self.tx_pending().len() + self.completion_pending().len() == self.frame_count(),
    {
        let fs = self.frame_size();
        let ms = self.owned();
        let all = Seq::new(self.frame_count() as nat, |k: int| k);
        assert forall|i: int| !(0 <= i < self.frame_count()) implies ms.count(i) == 0 by {
            if ms.count(i) > 0 {
                lemma_owner_in_range(self, i);
            }
        }
        assert(ms =~= all.to_multiset()) by {
            assert forall|i: int| ms.count(i) == all.to_multiset().count(i) by {
                lemma_seq_new_count(self.frame_count() as nat, i);
                if 0 <= i < self.frame_count() {
                    assert(ms.count(i) == 1);
                } else {
                    if ms.count(i) > 0 {
                        lemma_owner_in_range(self, i);
                    }
                }
            }
        }
        assert(ms.len() == all.to_multiset().len());
        assert(all.to_multiset().len() == all.len());
        assert(ms.len() == offset_frame_seq(self.free_list(), fs).to_multiset().len()
            + desc_frame_seq(self.fill_pending(), fs).to_multiset().len() + desc_frame_seq(
            self.rx_pending(),
            fs,
        ).to_multiset().len() + desc_frame_seq(self.tx_pending(), fs).to_multiset().len()
            + desc_frame_seq(self.completion_pending(), fs).to_multiset().len());
    }
}

/// The geometry and addressing configuration of two datapath states
/// agree; only the pool, the rings, the frame bytes and the counters
/// may differ. Open, so a caller that chains operations keeps the
/// configuration facts it needs for the next precondition.
pub open spec fn same_config(a: Datapath, b: Datapath) -> bool {
    &&& a.frame_size() == b.frame_size()
    &&& a.frame_count() == b.frame_count()
    &&& a.fill_capacity() == b.fill_capacity()
    &&& a.rx_capacity() == b.rx_capacity()
    &&& a.tx_capacity() == b.tx_capacity()
    &&& a.completion_capacity() == b.completion_capacity()
    &&& a.spec_src_mac() == b.spec_src_mac()
    &&& a.spec_src_ip() == b.spec_src_ip()
    &&& a.spec_forward() == b.spec_forward()
}

impl Datapath {
    /// A fresh datapath: a UMEM of `(rx_cap + tx_cap) * 2` zeroed
    /// frames, all free, and four empty rings. Ring capacities must be
    /// powers of two; the frame size must be positive, small enough
    /// that a packet length fits the header length fields, and the
    /// whole region must fit the offset type.
    pub fn new(
        frame_size: u32,
        fill_cap: usize,
        rx_cap: usize,
        tx_cap: usize,
        comp_cap: usize,
        src_mac: MacAddress,
        src_ip: Ipv4Addr,
        forward: Option<ForwardConfig>,
    ) -> (r: Datapath)
        requires
            1 <= frame_size <= ETH_HEADER_SIZE + u16::MAX,
            0 < fill_cap <= usize::MAX / 2,
            fill_cap & ((fill_cap - 1) as usize) == 0,
            0 < rx_cap <= usize::MAX / 2,
            rx_cap & ((rx_cap - 1) as usize) == 0,
            0 < tx_cap <= usize::MAX / 2,
            tx_cap & ((tx_cap - 1) as usize) == 0,
            0 < comp_cap <= usize::MAX / 2,
            comp_cap & ((comp_cap - 1) as usize) == 0,
            rx_cap + tx_cap <= usize::MAX / 2,
            (rx_cap + tx_cap) * 2 * frame_size <= u64::MAX,
        ensures
            r.wf(),
            r.frame_size() == frame_size,
            r.frame_count() == (rx_cap + tx_cap) * 2,
            r.free_list().len() == r.frame_count(),
            r.fill_pending() == Seq::<RingDesc>::empty(),
            r.rx_pending() == Seq::<RingDesc>::empty(),
            r.tx_pending() == Seq::<RingDesc>::empty(),
            r.completion_pending() == Seq::<RingDesc>::empty(),
            r.fill_capacity() == fill_cap,
            r.rx_capacity() == rx_cap,
            r.tx_capacity() == tx_cap,
            r.completion_capacity() == comp_cap,
            r.spec_src_mac() == src_mac,
            r.spec_src_ip() == src_ip,
            r.spec_forward() == forward,
            r.spec_packets_received() == 0,
    {
        let frame_count = (rx_cap + tx_cap) * 2;
        let umem = UmemArena::new(frame_size, frame_count);
        let mut frames: Vec<Vec<u8>> = Vec::new();
        let mut i: usize = 0;
        while i < frame_count
            invariant
                i <= frame_count,
                frames@.len() == i,
                forall|j: int| 0 <= j < i ==> (#[trigger] frames@[j])@.len() == frame_size,
            decreases frame_count - i,
        {
            let frame = alloc_frame(frame_size as usize);
            frames.push(frame);
            i = i + 1;
        }
        let r = Datapath {
            umem,
            frames,
            fill: Ring::new(fill_cap),
            rx: Ring::new(rx_cap),
            tx: Ring::new(tx_cap),
            completion: Ring::new(comp_cap),
            src_mac,
            src_ip,
            forward,
            packets_received: 0,
        };
        proof {
            let fs = frame_size as int;
            let free_idx = offset_frame_seq(r.free_list(), fs);
            assert forall|j: int| 0 <= j < frame_count implies free_idx[j] == j by {
                assert(r.free_list()[j] == j * frame_size);
                let o = j * fs;
                vstd::arithmetic::div_mod::lemma_mod_multiples_basic(j, fs);
                assert(o % fs == 0);
                assert(o < frame_count * fs) by (nonlinear_arith)
                    requires
                        0 <= j < frame_count,
                        fs >= 1,
                        o == j * fs,
                ;
                lemma_offset_index_range(o, fs, frame_count as int);
                assert(o / fs == j) by (nonlinear_arith)
                    requires
                        fs >= 1,
                        (o / fs) * fs == o,
                        o == j * fs,
                ;
            }
            assert(free_idx =~= Seq::new(frame_count as nat, |k: int| k));
            assert forall|i2: int| 0 <= i2 < frame_count implies r.owned().count(i2) == 1 by {
                lemma_seq_new_count(frame_count as nat, i2);
                assert(desc_frame_seq(r.fill_pending(), fs) =~= Seq::<int>::empty());
                assert(desc_frame_seq(r.rx_pending(), fs) =~= Seq::<int>::empty());
                assert(desc_frame_seq(r.tx_pending(), fs) =~= Seq::<int>::empty());
                assert(desc_frame_seq(r.completion_pending(), fs) =~= Seq::<int>::empty());
            }
        }
        r
    }

    /// Drains the Completion ring: every transmitted frame the kernel
    /// has returned goes back to the free pool, in ring order.
    pub fn process_completions(&mut self)
        requires
            old(self).wf(),
        ensures
            final(self).wf(),
            completions_drained(*old(self), *final(self)),
    {
        let ghost orig = *old(self);
        while self.completion.readable() > 0
            invariant
                self.wf(),
                orig.wf(),
                same_config(*self, orig),
                self.fill == orig.fill,
                self.rx == orig.rx,
                self.tx == orig.tx,
                self.completion.spec_capacity() == orig.completion.spec_capacity(),
                self.frames@ == orig.frames@,
                self.packets_received == orig.packets_received,
                self.umem.spec_frame_size() == orig.umem.spec_frame_size(),
                self.umem.spec_frame_count() == orig.umem.spec_frame_count(),
                self.completion_pending().len() <= orig.completion_pending().len(),
                self.completion_pending() == orig.completion_pending().skip(
                    orig.completion_pending().len() - self.completion_pending().len(),
                ),
                self.free_list() == orig.free_list() + orig.completion_pending().map_values(
                    |d: RingDesc| d.addr,
                ).take(orig.completion_pending().len() - self.completion_pending().len()),
            decreases self.completion_pending().len(),
        {
            let ghost pre = *self;
            let r = self.completion.read();
            match r {
                Some(d) => {
                    proof {
                        lemma_head_not_free(pre);
                        assert(pre.valid_desc(d));
                    }
                    self.umem.release(d.addr);
                    proof {
                        lemma_move_head_to_free(pre, *self, d);
                        let all = orig.completion_pending();
                        let mapped = all.map_values(|d2: RingDesc| d2.addr);
                        let done = all.len() - pre.completion_pending().len();
                        assert(pre.completion_pending() == all.skip(done));
                        assert(self.completion_pending() == pre.completion_pending(
                        ).drop_first());
                        assert(all.skip(done).drop_first() =~= all.skip(done + 1));
                        assert(self.completion_pending() == all.skip(done + 1));
                        assert(done + 1 == all.len() - self.completion_pending().len());
                        assert(pre.completion_pending()[0] == all[done]);
                        assert(d.addr == mapped[done]);
                        assert(self.free_list() == pre.free_list().push(d.addr));
                        assert(pre.free_list() == orig.free_list() + mapped.take(done));
                        assert(orig.free_list() + mapped.take(done) + seq![mapped[done]]
                            =~= orig.free_list() + mapped.take(done + 1));
                        assert(self.free_list() =~= orig.free_list() + mapped.take(done + 1));
                    }
                },
                None => {
                    proof {
                        assert(false);
                    }
                },
            }
        }
        proof {
            assert(self.completion_pending() =~= Seq::<RingDesc>::empty());
            assert(orig.completion_pending().map_values(|d: RingDesc| d.addr).take(
                orig.completion_pending().len() as int,
            ) =~= orig.completion_pending().map_values(|d: RingDesc| d.addr));
        }
    }
}

impl Datapath {
    /// Bytes per frame, as a value a caller can hold the next packet
    /// against.
    pub fn frame_size_bytes(&self) -> (r: u32)
        requires
            self.wf(),
        ensures
            r == self.frame_size(),
    {
        self.umem.frame_size()
    }

    /// Number of frames in the free pool.
    pub fn free_frames(&self) -> (r: usize)
        ensures
            r == self.free_list().len(),
    {
        self.umem.available()
    }

    /// Number of frames pending on the Fill ring.
    pub fn fill_len(&self) -> (r: usize)
        requires
            self.wf(),
        ensures
            r == self.fill_pending().len(),
    {
        self.fill.readable()
    }

    /// Number of packets pending on the RX ring.
    pub fn rx_len(&self) -> (r: usize)
        requires
            self.wf(),
        ensures
            r == self.rx_pending().len(),
    {
        self.rx.readable()
    }

    /// Number of packets pending on the TX ring.
    pub fn tx_len(&self) -> (r: usize)
        requires
            self.wf(),
        ensures
            r == self.tx_pending().len(),
    {
        self.tx.readable()
    }

    /// Number of frames pending on the Completion ring.
    pub fn completion_len(&self) -> (r: usize)
        requires
            self.wf(),
        ensures
            r == self.completion_pending().len(),
    {
        self.completion.readable()
    }

    /// Donates free frames to the kernel: moves frames from the free
    /// pool onto the Fill ring, newest first, until the ring is full or
    /// the pool is empty.
    pub fn refill(&mut self)
        requires
            old(self).wf(),
        ensures
            final(self).wf(),
            refilled(*old(self), *final(self)),
    {
        let ghost orig = *old(self);
        while self.fill.available() > 0 && self.umem.available() > 0
            invariant
                self.wf(),
                orig.wf(),
                same_config(*self, orig),
                self.rx == orig.rx,
                self.tx == orig.tx,
                self.completion == orig.completion,
                self.frames@ == orig.frames@,
                self.packets_received == orig.packets_received,
                self.free_list().len() <= orig.free_list().len(),
                self.free_list() == orig.free_list().take(self.free_list().len() as int),
                self.fill_pending().len() == orig.fill_pending().len() + (
                orig.free_list().len() - self.free_list().len()),
                forall|k: int|
                    0 <= k < orig.fill_pending().len() ==> self.fill_pending()[k]
                        == orig.fill_pending()[k],
                forall|k: int|
                    orig.fill_pending().len() <= k < self.fill_pending().len()
                        ==> (#[trigger] self.fill_pending()[k]) == (RingDesc {
                        addr: orig.free_list()[orig.free_list().len() - 1 - (k
                            - orig.fill_pending().len())],
                        len: 0,
                        options: 0,
                    }),
            decreases self.free_list().len(),
        {
            let ghost pre = *self;
            let offset = match self.umem.reserve() {
                Some(o) => o,
                None => {
                    proof {
                        assert(false);
                    }
                    0
                },
            };
            let desc = RingDesc { addr: offset, len: 0, options: 0 };
            let w = self.fill.write(desc);
            proof {
                assert(w is Ok);
                pre.umem.lemma_wf_facts();
                let fs = pre.frame_size();
                let idx = offset as int / fs;
                assert(pre.umem.is_frame_offset(offset));
                lemma_offset_index_range(offset as int, fs, pre.frame_count());
                lemma_valid_descs_push(pre, *self, pre.fill_pending(), desc);
                let pre_free = offset_frame_seq(pre.free_list(), fs);
                let post_free = offset_frame_seq(self.free_list(), fs);
                let pre_fill = desc_frame_seq(pre.fill_pending(), fs);
                let post_fill = desc_frame_seq(self.fill_pending(), fs);
                assert(post_free =~= pre_free.drop_last());
                assert(pre_free.remove(pre_free.len() - 1) =~= pre_free.drop_last());
                assert(post_free.to_multiset() == pre_free.to_multiset().remove(
                    pre_free[pre_free.len() - 1],
                ));
                assert(pre_free[pre_free.len() - 1] == idx);
                assert(pre_free.contains(idx));
                assert(post_fill =~= pre_fill.push(idx));
                assert forall|i: int|
                    0 <= i < self.frame_count() implies self.owned().count(i) == 1 by {
                    assert(pre.owned().count(i) == 1);
                    assert(pre_free.to_multiset().count(pre_free[pre_free.len() - 1]) >= 1);
                }
                assert(self.free_list() =~= orig.free_list().take(
                    self.free_list().len() as int,
                ));
            }
        }
    }

    /// The kernel's receive side: on packet arrival it takes the oldest
    /// Fill frame, writes the packet into it, and queues a descriptor
    /// on the RX ring. Returns false — changing nothing — when no Fill
    /// frame is available or the RX ring is full.
    pub fn kernel_deliver(&mut self, packet: &[u8]) -> (r: bool)
        requires
            old(self).wf(),
            1 <= packet@.len() <= old(self).frame_size(),
        ensures
            final(self).wf(),
            same_config(*final(self), *old(self)),
            final(self).tx_pending() == old(self).tx_pending(),
            final(self).completion_pending() == old(self).completion_pending(),
            final(self).free_list() == old(self).free_list(),
            final(self).spec_packets_received() == old(self).spec_packets_received(),
            r == (old(self).fill_pending().len() > 0 && old(self).rx_pending().len() < old(self).rx_capacity()),
            !r ==> final(self).fill_pending() == old(self).fill_pending() && final(self).rx_pending() == old(self).rx_pending() && final(self).frame_store() == old(self).frame_store(),
            r ==> ({
                let d0 = old(self).fill_pending()[0];
                let idx = d0.addr as int / old(self).frame_size();
                &&& final(self).fill_pending() == old(self).fill_pending().drop_first()
                &&& final(self).rx_pending() == old(self).rx_pending().push(
                    (RingDesc { addr: d0.addr, len: packet@.len() as u32, options: 0 }),
                )
                &&& final(self).frame_bytes(idx) == packet@ + old(self).frame_bytes(idx).skip(
                    packet@.len() as int,
                )
                &&& forall|j: int|
                    0 <= j < old(self).frame_count() && j != idx ==> final(self).frame_bytes(j)
                        == old(self).frame_bytes(j)
            }),
    {
        if self.fill.readable() == 0 {
            return false;
        }
        if self.rx.available() == 0 {
            return false;
        }
        let d0 = match self.fill.read() {
            Some(d) => d,
            None => {
                proof {
                    assert(false);
                }
                RingDesc { addr: 0, len: 0, options: 0 }
            },
        };
        let ghost mid = *self;
        proof {
            assert(old(self).valid_desc(d0));
            old(self).umem.lemma_wf_facts();
            lemma_offset_index_range(
                d0.addr as int,
                old(self).frame_size(),
                old(self).frame_count(),
            );
        }
        let fs = self.umem.frame_size();
        proof {
            assert(fs as int == old(self).frame_size());
            assert(0 <= d0.addr as int / (fs as int) < old(self).frame_count());
        }
        let idx = (d0.addr / (fs as u64)) as usize;
        proof {
            assert(idx as int == d0.addr as int / self.frame_size());
        }
        let mut new_frame: Vec<u8> = vstd::slice::slice_to_vec(packet);
        let mut k: usize = packet.len();
        proof {
            assert(self.frames@[idx as int]@.len() == self.frame_size());
        }
        let old_frame_len = self.frames[idx].len();
        while k < old_frame_len
            invariant
                *self == mid,
                0 <= idx < self.frames@.len(),
                old_frame_len == self.frames@[idx as int]@.len(),
                packet@.len() <= k <= old_frame_len,
                new_frame@ == packet@ + self.frames@[idx as int]@.subrange(
                    packet@.len() as int,
                    k as int,
                ),
            decreases old_frame_len - k,
        {
            let b = self.frames[idx][k];
            new_frame.push(b);
            proof {
                assert(packet@ + self.frames@[idx as int]@.subrange(
                    packet@.len() as int,
                    k as int,
                ) + seq![b] =~= packet@ + self.frames@[idx as int]@.subrange(
                    packet@.len() as int,
                    k + 1,
                ));
            }
            k = k + 1;
        }
        proof {
            assert(self.frames@[idx as int]@.subrange(
                packet@.len() as int,
                old_frame_len as int,
            ) =~= self.frames@[idx as int]@.skip(packet@.len() as int));
        }
        self.frames.set(idx, new_frame);
        let w = self.rx.write(RingDesc { addr: d0.addr, len: packet.len() as u32, options: 0 });
        proof {
            assert(w is Ok);
            let fs_i = old(self).frame_size();
            let pre = *old(self);
            let i0 = d0.addr as int / fs_i;
            lemma_valid_descs_drop_first(pre, *self, pre.fill_pending());
            lemma_valid_descs_push(
                pre,
                *self,
                pre.rx_pending(),
                RingDesc { addr: d0.addr, len: packet@.len() as u32, options: 0 },
            );
            let pre_fill = desc_frame_seq(pre.fill_pending(), fs_i);
            let post_fill = desc_frame_seq(self.fill_pending(), fs_i);
            let pre_rx = desc_frame_seq(pre.rx_pending(), fs_i);
            let post_rx = desc_frame_seq(self.rx_pending(), fs_i);
            assert(post_fill =~= pre_fill.drop_first());
            assert(pre_fill.remove(0) =~= pre_fill.drop_first());
            assert(post_fill.to_multiset() == pre_fill.to_multiset().remove(pre_fill[0]));
            assert(pre_fill[0] == i0);
            assert(post_rx =~= pre_rx.push(i0));
            assert forall|i: int|
                0 <= i < self.frame_count() implies self.owned().count(i) == 1 by {
                assert(pre.owned().count(i) == 1);
                assert(pre_fill.to_multiset().count(pre_fill[0]) >= 1) by {
                    assert(pre_fill.contains(pre_fill[0]));
                }
            }
            assert forall|i: int|
                0 <= i < self.frame_count() implies (#[trigger] self.frames@[i])@.len()
                == self.frame_size() by {
                if i != i0 {
                    assert(self.frames@[i] == pre.frames@[i]);
                }
            }
        }
        true
    }

    /// The kernel's transmit side: it takes the oldest TX descriptor,
    /// transmits the packet — returned here as a byte copy — and hands
    /// the frame back on the Completion ring. Returns nothing, changing
    /// nothing, when no TX descriptor is pending or the Completion ring
    /// is full.
    pub fn kernel_transmit(&mut self) -> (r: Option<Vec<u8>>)
        requires
            old(self).wf(),
        ensures
            final(self).wf(),
            same_config(*final(self), *old(self)),
            final(self).fill_pending() == old(self).fill_pending(),
            final(self).rx_pending() == old(self).rx_pending(),
            final(self).free_list() == old(self).free_list(),
            final(self).frame_store() == old(self).frame_store(),
            final(self).spec_packets_received() == old(self).spec_packets_received(),
            (r is Some) == (old(self).tx_pending().len() > 0 && old(self).completion_pending().len() < old(self).completion_capacity()),
            r is None ==> final(self).tx_pending() == old(self).tx_pending() && final(self).completion_pending() == old(self).completion_pending(),
            r is Some ==> ({
                let d0 = old(self).tx_pending()[0];
                let idx = d0.addr as int / old(self).frame_size();
                &&& final(self).tx_pending() == old(self).tx_pending().drop_first()
                &&& final(self).completion_pending() == old(self).completion_pending().push(
                    (RingDesc { addr: d0.addr, len: 0, options: 0 }),
                )
                &&& r->0@ == old(self).frame_bytes(idx).take(d0.len as int)
            }),
    {
        if self.tx.readable() == 0 {
            return None;
        }
        if self.completion.available() == 0 {
            return None;
        }
        let d0 = match self.tx.read() {
            Some(d) => d,
            None => {
                proof {
                    assert(false);
                }
                RingDesc { addr: 0, len: 0, options: 0 }
            },
        };
        proof {
            assert(old(self).valid_desc(d0));
            old(self).umem.lemma_wf_facts();
            lemma_offset_index_range(
                d0.addr as int,
                old(self).frame_size(),
                old(self).frame_count(),
            );
        }
        let fs = self.umem.frame_size();
        proof {
            assert(fs as int == old(self).frame_size());
            assert(0 <= d0.addr as int / (fs as int) < old(self).frame_count());
        }
        let idx = (d0.addr / (fs as u64)) as usize;
        proof {
            assert(idx as int == d0.addr as int / self.frame_size());
            assert(self.frames@[idx as int]@.len() == self.frame_size());
        }
        let frame = &self.frames[idx];
        let packet = vstd::slice::slice_to_vec(
            vstd::slice::slice_subrange(frame.as_slice(), 0, d0.len as usize),
        );
        let w = self.completion.write(RingDesc { addr: d0.addr, len: 0, options: 0 });
        proof {
            assert(w is Ok);
            let fs_i = old(self).frame_size();
            let pre = *old(self);
            let i0 = d0.addr as int / fs_i;
            lemma_valid_descs_drop_first(pre, *self, pre.tx_pending());
            lemma_valid_descs_push(
                pre,
                *self,
                pre.completion_pending(),
                RingDesc { addr: d0.addr, len: 0, options: 0 },
            );
            let pre_tx = desc_frame_seq(pre.tx_pending(), fs_i);
            let post_tx = desc_frame_seq(self.tx_pending(), fs_i);
            let pre_comp = desc_frame_seq(pre.completion_pending(), fs_i);
            let post_comp = desc_frame_seq(self.completion_pending(), fs_i);
            assert(post_tx =~= pre_tx.drop_first());
            assert(pre_tx.remove(0) =~= pre_tx.drop_first());
            assert(post_tx.to_multiset() == pre_tx.to_multiset().remove(pre_tx[0]));
            assert(pre_tx[0] == i0);
            assert(post_comp =~= pre_comp.push(i0));
            assert forall|i: int|
                0 <= i < self.frame_count() implies self.owned().count(i) == 1 by {
                assert(pre.owned().count(i) == 1);
                assert(pre_tx.to_multiset().count(pre_tx[0]) >= 1) by {
                    assert(pre_tx.contains(pre_tx[0]));
                }
            }
        }
        Some(packet)
    }
}

/// How a frame that is not forwarded leaves the relay's hands: back to
/// the Fill ring when there is room, else to the free pool.
pub open spec fn fill_return(pre: Datapath, post: Datapath, addr: u64, action: RxAction) -> bool {
    if pre.fill_pending().len() < pre.fill_capacity() {
        &&& action == RxAction::ReturnedToFill
        &&& post.fill_pending() == pre.fill_pending().push(
            (RingDesc { addr, len: 0, options: 0 }),
        )
        &&& post.free_list() == pre.free_list()
    } else {
        &&& action == RxAction::ReleasedToPool
        &&& post.fill_pending() == pre.fill_pending()
        &&& post.free_list() == pre.free_list().push(addr)
    }
}

/// What handling one received packet does to the datapath: exactly the
/// transition `handle_rx_packet` pins when a packet was pending. The
/// packet — the head of the RX ring — is counted and consumed; a short
/// or non-UDP packet, or any packet while forwarding is off, goes back
/// to the Fill ring or the pool with nothing else changed; an eligible
/// UDP packet has its frame rewritten for the forward destination and
/// queued on TX, falling back to the Fill ring or the pool when TX is
/// full.
pub open spec fn rx_step(
    pre: Datapath,
    post: Datapath,
    class: PacketClass,
    action: RxAction,
) -> bool {
    let d0 = pre.rx_pending()[0];
    let idx = d0.addr as int / pre.frame_size();
    let pkt = pre.frame_bytes(idx).take(d0.len as int);
    &&& pre.rx_pending().len() > 0
    &&& same_config(post, pre)
    &&& post.completion_pending() == pre.completion_pending()
    &&& class == spec_classify(pkt)
    &&& post.rx_pending() == pre.rx_pending().drop_first()
    &&& post.spec_packets_received() == pre.spec_packets_received().saturating_add(1)
    &&& ((class != PacketClass::Udp || pre.spec_forward() is None) ==> {
        &&& post.frame_store() == pre.frame_store()
        &&& post.tx_pending() == pre.tx_pending()
        &&& fill_return(pre, post, d0.addr, action)
    })
    &&& ((class == PacketClass::Udp && pre.spec_forward() is Some) ==> ({
        let fwd = pre.spec_forward()->0;
        &&& rewritten(
            post.frame_bytes(idx),
            pre.frame_bytes(idx),
            d0.len as int,
            pre.spec_src_mac(),
            fwd.dest_mac,
            pre.spec_src_ip(),
            fwd.dest_ip,
            FORWARD_SRC_PORT,
            fwd.dest_port,
        )
        &&& forall|j: int|
            0 <= j < pre.frame_count() && j != idx ==> post.frame_bytes(j) == pre.frame_bytes(j)
        &&& if pre.tx_pending().len() < pre.tx_capacity() {
            &&& action == RxAction::Forwarded
            &&& post.tx_pending() == pre.tx_pending().push(
                (RingDesc { addr: d0.addr, len: d0.len, options: 0 }),
            )
            &&& post.fill_pending() == pre.fill_pending()
            &&& post.free_list() == pre.free_list()
        } else {
            &&& post.tx_pending() == pre.tx_pending()
            &&& fill_return(pre, post, d0.addr, action)
        }
    }))
}

/// A chain of `n` handled packets: the batch of one relay iteration,
/// each step the exact per-packet transition.
pub open spec fn rx_batch(pre: Datapath, post: Datapath, n: int) -> bool
    decreases n,
{
    if n <= 0 {
        post == pre
    } else {
        exists|mid: Datapath, class: PacketClass, action: RxAction|
            #[trigger] rx_step(pre, mid, class, action) && rx_batch(mid, post, n - 1)
    }
}

/// A chain extends on the right by one more handled packet.
proof fn lemma_rx_batch_snoc(
    pre: Datapath,
    mid: Datapath,
    post: Datapath,
    n: int,
    class: PacketClass,
    action: RxAction,
)
    requires
        n >= 0,
        rx_batch(pre, mid, n),
        rx_step(mid, post, class, action),
    ensures
        rx_batch(pre, post, n + 1),
    decreases n,
{
    if n <= 0 {
        assert(mid == pre);
        assert(rx_step(pre, post, class, action) && rx_batch(post, post, 0));
    } else {
        let (m1, c1, a1) = choose|m1: Datapath, c1: PacketClass, a1: RxAction|
            #[trigger] rx_step(pre, m1, c1, a1) && rx_batch(m1, mid, n - 1);
        lemma_rx_batch_snoc(m1, mid, post, n - 1, class, action);
        assert(rx_step(pre, m1, c1, a1) && rx_batch(m1, post, n));
    }
}

/// What draining the Completion ring does: every returned frame moves
/// to the free pool in ring order, and nothing else changes.
pub open spec fn completions_drained(pre: Datapath, post: Datapath) -> bool {
    &&& same_config(post, pre)
    &&& post.completion_pending() == Seq::<RingDesc>::empty()
    &&& post.free_list() == pre.free_list() + pre.completion_pending().map_values(
        |d: RingDesc| d.addr,
    )
    &&& post.fill_pending() == pre.fill_pending()
    &&& post.rx_pending() == pre.rx_pending()
    &&& post.tx_pending() == pre.tx_pending()
    &&& post.frame_store() == pre.frame_store()
    &&& post.spec_packets_received() == pre.spec_packets_received()
}

/// What refilling the Fill ring does: frames move from the top of the
/// free stack onto the Fill ring, newest first, until the ring is full
/// or the pool is empty, and nothing else changes.
pub open spec fn refilled(pre: Datapath, post: Datapath) -> bool {
    let space = pre.fill_capacity() - pre.fill_pending().len();
    let moved = if pre.free_list().len() < space {
        pre.free_list().len() as int
    } else {
        space
    };
    &&& same_config(post, pre)
    &&& post.rx_pending() == pre.rx_pending()
    &&& post.tx_pending() == pre.tx_pending()
    &&& post.completion_pending() == pre.completion_pending()
    &&& post.frame_store() == pre.frame_store()
    &&& post.spec_packets_received() == pre.spec_packets_received()
    &&& post.free_list() == pre.free_list().take(pre.free_list().len() - moved)
    &&& post.fill_pending().len() == pre.fill_pending().len() + moved
    &&& forall|k: int|
        0 <= k < pre.fill_pending().len() ==> post.fill_pending()[k] == pre.fill_pending()[k]
    &&& forall|k: int|
        pre.fill_pending().len() <= k < post.fill_pending().len()
            ==> (#[trigger] post.fill_pending()[k]) == (RingDesc {
            addr: pre.free_list()[pre.free_list().len() - 1 - (k - pre.fill_pending().len())],
            len: 0,
            options: 0,
        })
}

impl Datapath {
    /// Takes the oldest RX descriptor and handles it as the relay loop
    /// does: count it; drop short packets and non-UDP packets back to
    /// the Fill ring; rewrite and queue eligible UDP packets on the TX
    /// ring when forwarding is configured, falling back to the Fill
    /// ring when TX is full; and return everything to the Fill ring
    /// when it is not. A frame that cannot go to a full Fill ring is
    /// released to the free pool. Returns the packet's class and the
    /// frame's fate, or nothing when no packet is pending.
    pub fn handle_rx_packet(&mut self) -> (r: Option<(PacketClass, RxAction)>)
        requires
            old(self).wf(),
        ensures
            final(self).wf(),
            same_config(*final(self), *old(self)),
            final(self).completion_pending() == old(self).completion_pending(),
            (r is None) == (old(self).rx_pending().len() == 0),
            r is None ==> final(self).fill_pending() == old(self).fill_pending() && final(self).rx_pending() == old(self).rx_pending() && final(self).tx_pending() == old(self).tx_pending() && final(self).free_list() == old(self).free_list() && final(self).frame_store() == old(self).frame_store() && final(self).spec_packets_received()
                == old(self).spec_packets_received(),
            r is Some ==> rx_step(*old(self), *final(self), (r->0).0, (r->0).1),
    {
        let d0 = match self.rx.read() {
            Some(d) => d,
            None => {
                return None;
            },
        };
        proof {
            assert(old(self).valid_desc(d0));
            old(self).umem.lemma_wf_facts();
            lemma_offset_index_range(
                d0.addr as int,
                old(self).frame_size(),
                old(self).frame_count(),
            );
            lemma_rx_head_not_free(*old(self));
        }
        let fs = self.umem.frame_size();
        proof {
            assert(fs as int == old(self).frame_size());
            assert(0 <= d0.addr as int / (fs as int) < old(self).frame_count());
        }
        let idx = (d0.addr / (fs as u64)) as usize;
        proof {
            assert(idx as int == d0.addr as int / old(self).frame_size());
            assert(self.frames@[idx as int]@.len() == self.frame_size());
        }
        self.packets_received = self.packets_received.saturating_add(1);
        let packet_len = d0.len as usize;
        let class = {
            let frame = &self.frames[idx];
            classify(vstd::slice::slice_subrange(frame.as_slice(), 0, packet_len))
        };
        let forward_cfg = self.forward;
        let ghost pre = *old(self);
        match (class, forward_cfg) {
            (PacketClass::Udp, Some(cfg)) => {
                let src_mac = self.src_mac;
                let src_ip = self.src_ip;
                let frame_ref = vstd::std_specs::vec::vec_index_mut(&mut self.frames, idx);
                rewrite_packet(
                    frame_ref,
                    packet_len,
                    &src_mac,
                    &cfg.dest_mac,
                    &src_ip,
                    &cfg.dest_ip,
                    FORWARD_SRC_PORT,
                    cfg.dest_port,
                );
                proof {
                    assert(self.frames@ == pre.frames@.update(idx as int, self.frames@[
                        idx as int]));
                    assert(self.frames@[idx as int]@.len() == pre.frames@[idx as int]@.len());
                }
                if self.tx.available() > 0 {
                    let w = self.tx.write(RingDesc { addr: d0.addr, len: d0.len, options: 0 });
                    proof {
                        assert(w is Ok);
                        lemma_rx_move_conserved(
                            pre,
                            *self,
                            d0,
                            RingDesc { addr: d0.addr, len: d0.len, options: 0 },
                        );
                    }
                    Some((class, RxAction::Forwarded))
                } else {
                    let action = self.dispose_frame(d0.addr);
                    proof {
                        let desc2 = RingDesc { addr: d0.addr, len: 0, options: 0 };
                        if pre.fill_pending().len() < pre.fill_capacity() {
                            lemma_rx_move_conserved(pre, *self, d0, desc2);
                        } else {
                            lemma_rx_release_conserved(pre, *self, d0);
                        }
                    }
                    Some((class, action))
                }
            },
            _ => {
                let action = self.dispose_frame(d0.addr);
                proof {
                    let desc2 = RingDesc { addr: d0.addr, len: 0, options: 0 };
                    if pre.fill_pending().len() < pre.fill_capacity() {
                        lemma_rx_move_conserved(pre, *self, d0, desc2);
                    } else {
                        lemma_rx_release_conserved(pre, *self, d0);
                    }
                }
                Some((class, action))
            },
        }
    }

    /// Puts a frame that is done with processing back into circulation:
    /// onto the Fill ring when there is room, else into the free pool.
    fn dispose_frame(&mut self, addr: u64) -> (action: RxAction)
        requires
            old(self).umem.wf(),
            old(self).fill.wf(),
            old(self).umem.is_frame_offset(addr),
            !old(self).umem.free_list().contains(addr),
        ensures
            final(self).umem.wf(),
            final(self).fill.wf(),
            final(self).umem.spec_frame_size() == old(self).umem.spec_frame_size(),
            final(self).umem.spec_frame_count() == old(self).umem.spec_frame_count(),
            final(self).fill.spec_capacity() == old(self).fill.spec_capacity(),
            final(self).rx == old(self).rx,
            final(self).tx == old(self).tx,
            final(self).completion == old(self).completion,
            final(self).frames == old(self).frames,
            final(self).src_mac == old(self).src_mac,
            final(self).src_ip == old(self).src_ip,
            final(self).forward == old(self).forward,
            final(self).packets_received == old(self).packets_received,
            fill_return(*old(self), *final(self), addr, action),
    {
        if self.fill.available() > 0 {
            let w = self.fill.write(RingDesc { addr, len: 0, options: 0 });
            proof {
                assert(w is Ok);
            }
            RxAction::ReturnedToFill
        } else {
            self.umem.release(addr);
            RxAction::ReleasedToPool
        }
    }
}

/// Saturating addition of a non-negative amount to a counter.
pub open spec fn sat_add64(a: u64, b: int) -> u64 {
    if a + b > u64::MAX {
        u64::MAX
    } else {
        (a + b) as u64
    }
}

/// Total packet bytes across a run of descriptors.
pub open spec fn total_len(s: Seq<RingDesc>) -> int
    decreases s.len(),
{
    if s.len() == 0 {
        0
    } else {
        s[0].len + total_len(s.drop_first())
    }
}

proof fn lemma_total_len_push(s: Seq<RingDesc>, d: RingDesc)
    ensures
        total_len(s.push(d)) == total_len(s) + d.len,
    decreases s.len(),
{
    if s.len() == 0 {
        assert(s.push(d)[0] == d);
        assert(s.push(d).drop_first() =~= s);
    } else {
        assert(s.push(d)[0] == s[0]);
        assert(s.push(d).drop_first() =~= s.drop_first().push(d));
        lemma_total_len_push(s.drop_first(), d);
    }
}

proof fn lemma_total_len_nonneg(s: Seq<RingDesc>)
    ensures
        total_len(s) >= 0,
    decreases s.len(),
{
    if s.len() > 0 {
        lemma_total_len_nonneg(s.drop_first());
    }
}

impl Datapath {
    /// One iteration of the relay loop: drain the Completion ring back
    /// into the free pool, handle up to `batch` received packets, and
    /// refill the Fill ring from the pool. Returns how many packets
    /// were handled: the whole batch, or fewer when RX ran dry.
    pub fn relay_iteration(&mut self, batch: usize) -> (processed: usize)
        requires
            old(self).wf(),
        ensures
            final(self).wf(),
            same_config(*final(self), *old(self)),
            final(self).completion_pending() == Seq::<RingDesc>::empty(),
            processed == if old(self).rx_pending().len() < batch {
                old(self).rx_pending().len() as int
            } else {
                batch as int
            },
            final(self).rx_pending() == old(self).rx_pending().skip(processed as int),
            exists|after_completions: Datapath, after_batch: Datapath|
                {
                    &&& #[trigger] completions_drained(*old(self), after_completions)
                    &&& rx_batch(after_completions, after_batch, processed as int)
                    &&& #[trigger] refilled(after_batch, *final(self))
                },
    {
        self.process_completions();
        let ghost after_completions = *self;
        let ghost orig_rx = old(self).rx_pending();
        let mut n: usize = 0;
        while n < batch && self.rx.readable() > 0
            invariant
                self.wf(),
                same_config(*self, *old(self)),
                self.completion_pending() == Seq::<RingDesc>::empty(),
                n <= batch,
                n <= orig_rx.len(),
                rx_batch(after_completions, *self, n as int),
                self.rx_pending() == orig_rx.skip(n as int),
                n < batch ==> (self.rx_pending().len() > 0 <==> n < orig_rx.len()),
            decreases batch - n,
        {
            let ghost pre = *self;
            let r = self.handle_rx_packet();
            proof {
                assert(r is Some);
                assert(rx_step(pre, *self, (r->0).0, (r->0).1));
                lemma_rx_batch_snoc(after_completions, pre, *self, n as int, (r->0).0, (r->0).1);
                assert(orig_rx.skip(n as int).drop_first() =~= orig_rx.skip(n + 1));
            }
            n = n + 1;
        }
        let ghost after_batch = *self;
        self.refill();
        proof {
            assert(completions_drained(*old(self), after_completions) && rx_batch(
                after_completions,
                after_batch,
                n as int,
            ) && refilled(after_batch, *self));
        }
        n
    }

    /// The receive-only loop's drain: counts every pending RX packet
    /// and its bytes into the statistics and releases each frame back
    /// to the free pool, in ring order.
    pub fn rx_drain(&mut self, stats: &mut RxStats)
        requires
            old(self).wf(),
        ensures
            final(self).wf(),
            same_config(*final(self), *old(self)),
            final(self).rx_pending() == Seq::<RingDesc>::empty(),
            final(self).fill_pending() == old(self).fill_pending(),
            final(self).tx_pending() == old(self).tx_pending(),
            final(self).completion_pending() == old(self).completion_pending(),
            final(self).frame_store() == old(self).frame_store(),
            final(self).spec_packets_received() == old(self).spec_packets_received(),
            final(self).free_list() == old(self).free_list() + old(self).rx_pending().map_values(
                |d: RingDesc| d.addr,
            ),
            final(stats).rx_packets == sat_add64(
                old(stats).rx_packets,
                old(self).rx_pending().len() as int,
            ),
            final(stats).rx_bytes == sat_add64(
                old(stats).rx_bytes,
                total_len(old(self).rx_pending()),
            ),
    {
        let ghost orig = *old(self);
        let ghost orig_stats = *old(stats);
        while self.rx.readable() > 0
            invariant
                self.wf(),
                orig.wf(),
                same_config(*self, orig),
                self.fill_pending() == orig.fill_pending(),
                self.tx_pending() == orig.tx_pending(),
                self.completion_pending() == orig.completion_pending(),
                self.frame_store() == orig.frame_store(),
                self.spec_packets_received() == orig.spec_packets_received(),
                self.rx_pending().len() <= orig.rx_pending().len(),
                self.rx_pending() == orig.rx_pending().skip(
                    orig.rx_pending().len() - self.rx_pending().len(),
                ),
                self.free_list() == orig.free_list() + orig.rx_pending().map_values(
                    |d: RingDesc| d.addr,
                ).take(orig.rx_pending().len() - self.rx_pending().len()),
                stats.rx_packets == sat_add64(
                    orig_stats.rx_packets,
                    orig.rx_pending().len() - self.rx_pending().len(),
                ),
                stats.rx_bytes == sat_add64(
                    orig_stats.rx_bytes,
                    total_len(
                        orig.rx_pending().take(
                            orig.rx_pending().len() - self.rx_pending().len(),
                        ),
                    ),
                ),
            decreases self.rx_pending().len(),
        {
            let ghost pre = *self;
            let d0 = match self.rx.read() {
                Some(d) => d,
                None => {
                    proof {
                        assert(false);
                    }
                    RingDesc { addr: 0, len: 0, options: 0 }
                },
            };
            proof {
                assert(pre.valid_desc(d0));
                pre.umem.lemma_wf_facts();
                lemma_offset_index_range(d0.addr as int, pre.frame_size(), pre.frame_count());
                lemma_rx_head_not_free(pre);
            }
            stats.rx_packets = stats.rx_packets.saturating_add(1);
            stats.rx_bytes = stats.rx_bytes.saturating_add(d0.len as u64);
            self.umem.release(d0.addr);
            proof {
                lemma_rx_release_conserved(pre, *self, d0);
                let all = orig.rx_pending();
                let mapped = all.map_values(|d: RingDesc| d.addr);
                let done = all.len() - pre.rx_pending().len();
                assert(pre.rx_pending() == all.skip(done));
                assert(all.skip(done).drop_first() =~= all.skip(done + 1));
                assert(self.rx_pending() == all.skip(done + 1));
                assert(pre.rx_pending()[0] == all[done]);
                assert(d0.addr == mapped[done]);
                assert(orig.free_list() + mapped.take(done) + seq![mapped[done]] =~= orig.free_list()
                    + mapped.take(done + 1));
                assert(self.free_list() =~= orig.free_list() + mapped.take(done + 1));
                assert(all.take(done).push(all[done]) =~= all.take(done + 1));
                lemma_total_len_push(all.take(done), all[done]);
                lemma_total_len_nonneg(all.take(done));
                assert(total_len(all.take(done + 1)) == total_len(all.take(done))
                    + d0.len);
            }
        }
        proof {
            assert(self.rx_pending() =~= Seq::<RingDesc>::empty());
            let all = orig.rx_pending();
            let mapped = all.map_values(|d: RingDesc| d.addr);
            assert(mapped.take(all.len() as int) =~= mapped);
            assert(all.take(all.len() as int) =~= all);
        }
    }
}

/// The head of the RX ring addresses a frame that is not in the free
/// pool: it has exactly one owner, and the RX ring is it.
proof fn lemma_rx_head_not_free(d: Datapath)
    requires
        d.wf(),
        d.rx_pending().len() > 0,
    ensures
        !d.free_list().contains(d.rx_pending()[0].addr),
{
    let fs = d.frame_size();
    d.umem.lemma_wf_facts();
    let addr = d.rx_pending()[0].addr;
    assert(d.valid_desc(d.rx_pending()[0]));
    let idx = addr as int / fs;
    lemma_offset_index_range(addr as int, fs, d.frame_count());
    let rx_idx = desc_frame_seq(d.rx_pending(), fs);
    assert(rx_idx[0] == idx);
    assert(rx_idx.contains(idx));
    assert(rx_idx.to_multiset().count(idx) >= 1);
    if d.free_list().contains(addr) {
        let j = choose|j: int| 0 <= j < d.free_list().len() && d.free_list()[j] == addr;
        let free_idx = offset_frame_seq(d.free_list(), fs);
        assert(free_idx[j] == idx);
        assert(free_idx.contains(idx));
        assert(free_idx.to_multiset().count(idx) >= 1);
        assert(d.owned().count(idx) >= 2);
        assert(d.owned().count(idx) == 1);
    }
}

/// Moving the RX head onto another ring — Fill or TX — keeps every
/// frame owned exactly once and the datapath well-formed. `moved` is
/// the descriptor as it lands on its new ring.
proof fn lemma_rx_move_conserved(pre: Datapath, post: Datapath, d: RingDesc, moved: RingDesc)
    requires
        pre.wf(),
        pre.rx_pending().len() > 0,
        d == pre.rx_pending()[0],
        moved.addr == d.addr,
        moved.len <= d.len,
        post.umem.wf(),
        post.free_list() == pre.free_list(),
        post.rx.wf(),
        post.fill.wf(),
        post.tx.wf(),
        post.completion.wf(),
        post.completion_pending() == pre.completion_pending(),
        post.frame_size() == pre.frame_size(),
        post.frame_count() == pre.frame_count(),
        post.rx_pending() == pre.rx_pending().drop_first(),
        (post.fill_pending() == pre.fill_pending().push(moved) && post.tx_pending()
            == pre.tx_pending()) || (post.tx_pending() == pre.tx_pending().push(moved)
            && post.fill_pending() == pre.fill_pending()),
        post.frames@.len() == pre.frames@.len(),
        forall|i: int|
            0 <= i < post.frame_count() ==> (#[trigger] post.frames@[i])@.len()
                == pre.frames@[i]@.len(),
    ensures
        post.wf(),
{
    let fs = pre.frame_size();
    let i0 = d.addr as int / fs;
    assert(pre.valid_desc(d));
    lemma_valid_descs_drop_first(pre, post, pre.rx_pending());
    lemma_valid_desc_transfer(pre, post, d);
    assert(post.valid_desc(moved));
    lemma_valid_descs_push(pre, post, pre.fill_pending(), moved);
    lemma_valid_descs_push(pre, post, pre.tx_pending(), moved);
    assert forall|j: int|
        0 <= j < post.completion_pending().len() implies post.valid_desc(
        #[trigger] post.completion_pending()[j],
    ) by {
        assert(pre.valid_desc(pre.completion_pending()[j]));
        lemma_valid_desc_transfer(pre, post, pre.completion_pending()[j]);
    }
    let pre_rx = desc_frame_seq(pre.rx_pending(), fs);
    let post_rx = desc_frame_seq(post.rx_pending(), fs);
    assert(post_rx =~= pre_rx.drop_first());
    assert(pre_rx.remove(0) =~= pre_rx.drop_first());
    assert(post_rx.to_multiset() == pre_rx.to_multiset().remove(pre_rx[0]));
    assert(pre_rx[0] == i0);
    if post.fill_pending() == pre.fill_pending().push(moved) {
        assert(desc_frame_seq(post.fill_pending(), fs) =~= desc_frame_seq(
            pre.fill_pending(),
            fs,
        ).push(i0));
    } else {
        assert(desc_frame_seq(post.tx_pending(), fs) =~= desc_frame_seq(
            pre.tx_pending(),
            fs,
        ).push(i0));
    }
    assert forall|i: int| 0 <= i < post.frame_count() implies post.owned().count(i) == 1 by {
        assert(pre.owned().count(i) == 1);
        assert(pre_rx.to_multiset().count(pre_rx[0]) >= 1) by {
            assert(pre_rx.contains(pre_rx[0]));
        }
    }
    assert forall|i: int|
        0 <= i < post.frame_count() implies (#[trigger] post.frames@[i])@.len()
        == post.frame_size() by {
        assert(pre.frames@[i]@.len() == pre.frame_size());
    }
}

/// Moving the RX head into the free pool keeps every frame owned
/// exactly once and the datapath well-formed.
proof fn lemma_rx_release_conserved(pre: Datapath, post: Datapath, d: RingDesc)
    requires
        pre.wf(),
        pre.rx_pending().len() > 0,
        d == pre.rx_pending()[0],
        post.umem.wf(),
        post.fill.wf(),
        post.fill_pending() == pre.fill_pending(),
        post.tx.wf(),
        post.tx_pending() == pre.tx_pending(),
        post.completion.wf(),
        post.completion_pending() == pre.completion_pending(),
        post.rx.wf(),
        post.frame_size() == pre.frame_size(),
        post.frame_count() == pre.frame_count(),
        post.rx_pending() == pre.rx_pending().drop_first(),
        post.free_list() == pre.free_list().push(d.addr),
        post.frames@.len() == pre.frames@.len(),
        forall|i: int|
            0 <= i < post.frame_count() ==> (#[trigger] post.frames@[i])@.len()
                == pre.frames@[i]@.len(),
    ensures
        post.wf(),
{
    let fs = pre.frame_size();
    let i0 = d.addr as int / fs;
    assert(pre.valid_desc(d));
    lemma_valid_descs_drop_first(pre, post, pre.rx_pending());
    assert forall|j: int|
        0 <= j < post.fill_pending().len() implies post.valid_desc(
        #[trigger] post.fill_pending()[j],
    ) by {
        assert(pre.valid_desc(pre.fill_pending()[j]));
        lemma_valid_desc_transfer(pre, post, pre.fill_pending()[j]);
    }
    assert forall|j: int|
        0 <= j < post.tx_pending().len() implies post.valid_desc(
        #[trigger] post.tx_pending()[j],
    ) by {
        assert(pre.valid_desc(pre.tx_pending()[j]));
        lemma_valid_desc_transfer(pre, post, pre.tx_pending()[j]);
    }
    assert forall|j: int|
        0 <= j < post.completion_pending().len() implies post.valid_desc(
        #[trigger] post.completion_pending()[j],
    ) by {
        assert(pre.valid_desc(pre.completion_pending()[j]));
        lemma_valid_desc_transfer(pre, post, pre.completion_pending()[j]);
    }
    let pre_rx = desc_frame_seq(pre.rx_pending(), fs);
    let post_rx = desc_frame_seq(post.rx_pending(), fs);
    assert(post_rx =~= pre_rx.drop_first());
    assert(pre_rx.remove(0) =~= pre_rx.drop_first());
    assert(post_rx.to_multiset() == pre_rx.to_multiset().remove(pre_rx[0]));
    assert(pre_rx[0] == i0);
    assert(offset_frame_seq(post.free_list(), fs) =~= offset_frame_seq(
        pre.free_list(),
        fs,
    ).push(i0));
    assert forall|i: int| 0 <= i < post.frame_count() implies post.owned().count(i) == 1 by {
        assert(pre.owned().count(i) == 1);
        assert(pre_rx.to_multiset().count(pre_rx[0]) >= 1) by {
            assert(pre_rx.contains(pre_rx[0]));
        }
    }
    assert forall|i: int|
        0 <= i < post.frame_count() implies (#[trigger] post.frames@[i])@.len()
        == post.frame_size() by {
        assert(pre.frames@[i]@.len() == pre.frame_size());
    }
}

/// Validity of a run of descriptors carries over to a state with the
/// same geometry, with one descriptor dropped from the front.
proof fn lemma_valid_descs_drop_first(pre: Datapath, post: Datapath, s: Seq<RingDesc>)
    requires
        pre.frame_size() == post.frame_size(),
        pre.frame_count() == post.frame_count(),
        pre.valid_descs(s),
        s.len() > 0,
    ensures
        post.valid_descs(s.drop_first()),
{
    assert forall|j: int|
        0 <= j < s.drop_first().len() implies post.valid_desc(#[trigger] s.drop_first()[j]) by {
        assert(s.drop_first()[j] == s[j + 1]);
        assert(pre.valid_desc(s[j + 1]));
        lemma_valid_desc_transfer(pre, post, s[j + 1]);
    }
}

/// Validity of a run of descriptors carries over to a state with the
/// same geometry, with one valid descriptor appended.
proof fn lemma_valid_descs_push(pre: Datapath, post: Datapath, s: Seq<RingDesc>, d: RingDesc)
    requires
        pre.frame_size() == post.frame_size(),
        pre.frame_count() == post.frame_count(),
        pre.valid_descs(s),
        pre.valid_desc(d),
    ensures
        post.valid_descs(s.push(d)),
{
    assert forall|j: int|
        0 <= j < s.push(d).len() implies post.valid_desc(#[trigger] s.push(d)[j]) by {
        if j < s.len() {
            assert(s.push(d)[j] == s[j]);
            assert(pre.valid_desc(s[j]));
            lemma_valid_desc_transfer(pre, post, s[j]);
        } else {
            assert(s.push(d)[j] == d);
            lemma_valid_desc_transfer(pre, post, d);
        }
    }
}

/// One descriptor's validity depends only on the geometry.
proof fn lemma_valid_desc_transfer(pre: Datapath, post: Datapath, d: RingDesc)
    requires
        pre.frame_size() == post.frame_size(),
        pre.frame_count() == post.frame_count(),
        pre.valid_desc(d),
    ensures
        post.valid_desc(d),
{
}

/// A zeroed frame buffer of `n` bytes.
fn alloc_frame(n: usize) -> (r: Vec<u8>)
    ensures
        r@.len() == n,
        forall|j: int| 0 <= j < n ==> r@[j] == 0u8,
{
    let mut v: Vec<u8> = Vec::new();
    let mut i: usize = 0;
    while i < n
        invariant
            i <= n,
            v@.len() == i,
            forall|j: int| 0 <= j < i ==> v@[j] == 0u8,
        decreases n - i,
    {
        v.push(0u8);
        i = i + 1;
    }
    v
}

/// The head of the Completion ring is not already free: it has exactly
/// one owner, and the ring is it.
proof fn lemma_head_not_free(d: Datapath)
    requires
        d.wf(),
        d.completion_pending().len() > 0,
    ensures
        !d.free_list().contains(d.completion_pending()[0].addr),
{
    let fs = d.frame_size();
    d.umem.lemma_wf_facts();
    let addr = d.completion_pending()[0].addr;
    assert(d.valid_desc(d.completion_pending()[0]));
    let idx = addr as int / fs;
    lemma_offset_index_range(addr as int, fs, d.frame_count());
    let comp_idx = desc_frame_seq(d.completion_pending(), fs);
    assert(comp_idx[0] == idx);
    assert(comp_idx.contains(idx));
    assert(comp_idx.to_multiset().count(idx) >= 1);
    if d.free_list().contains(addr) {
        let j = choose|j: int| 0 <= j < d.free_list().len() && d.free_list()[j] == addr;
        let free_idx = offset_frame_seq(d.free_list(), fs);
        assert(free_idx[j] == idx);
        assert(free_idx.contains(idx));
        assert(free_idx.to_multiset().count(idx) >= 1);
        assert(d.owned().count(idx) >= 2);
        assert(d.owned().count(idx) == 1);
    }
}

/// Moving the Completion head into the free pool keeps every frame
/// owned exactly once, and the descriptors elsewhere valid.
proof fn lemma_move_head_to_free(pre: Datapath, post: Datapath, d: RingDesc)
    requires
        pre.wf(),
        pre.completion_pending().len() > 0,
        d == pre.completion_pending()[0],
        post.umem.wf(),
        post.fill == pre.fill,
        post.rx == pre.rx,
        post.tx == pre.tx,
        post.frames == pre.frames,
        post.frame_size() == pre.frame_size(),
        post.frame_count() == pre.frame_count(),
        post.completion.wf(),
        post.completion_pending() == pre.completion_pending().drop_first(),
        post.free_list() == pre.free_list().push(d.addr),
    ensures
        post.wf(),
{
    let fs = pre.frame_size();
    let idx = d.addr as int / fs;
    assert(pre.valid_desc(d));
    assert forall|j: int|
        0 <= j < post.completion_pending().len() implies post.valid_desc(
        #[trigger] post.completion_pending()[j],
    ) by {
        assert(post.completion_pending()[j] == pre.completion_pending()[j + 1]);
        assert(pre.valid_desc(pre.completion_pending()[j + 1]));
    }
    assert forall|j: int|
        0 <= j < post.fill_pending().len() implies post.valid_desc(
        #[trigger] post.fill_pending()[j],
    ) by {
        assert(pre.valid_desc(pre.fill_pending()[j]));
    }
    assert forall|j: int|
        0 <= j < post.rx_pending().len() implies post.valid_desc(
        #[trigger] post.rx_pending()[j],
    ) by {
        assert(pre.valid_desc(pre.rx_pending()[j]));
    }
    assert forall|j: int|
        0 <= j < post.tx_pending().len() implies post.valid_desc(
        #[trigger] post.tx_pending()[j],
    ) by {
        assert(pre.valid_desc(pre.tx_pending()[j]));
    }
    let pre_comp = desc_frame_seq(pre.completion_pending(), fs);
    let post_comp = desc_frame_seq(post.completion_pending(), fs);
    let pre_free = offset_frame_seq(pre.free_list(), fs);
    let post_free = offset_frame_seq(post.free_list(), fs);
    assert(post_comp =~= pre_comp.drop_first());
    assert(pre_comp.remove(0) =~= pre_comp.drop_first());
    assert(post_comp.to_multiset() == pre_comp.to_multiset().remove(pre_comp[0]));
    assert(pre_comp[0] == idx);
    assert(post_free =~= pre_free.push(idx));
    assert(post_free.to_multiset() == pre_free.to_multiset().insert(idx));
    assert forall|i: int| 0 <= i < post.frame_count() implies post.owned().count(i) == 1 by {
        assert(pre.owned().count(i) == 1);
        assert(pre_comp.to_multiset().count(pre_comp[0]) >= 1) by {
            assert(pre_comp.contains(pre_comp[0]));
        }
    }
}
proof fn lemma_owner_in_range(d: Datapath, i: int)
    requires
        d.wf(),
        d.owned().count(i) > 0,
    ensures
        0 <= i < d.frame_count(),
{
    let fs = d.frame_size();
    d.umem.lemma_wf_facts();
    let free_ms = offset_frame_seq(d.free_list(), fs).to_multiset();
    let fill_ms = desc_frame_seq(d.fill_pending(), fs).to_multiset();
    let rx_ms = desc_frame_seq(d.rx_pending(), fs).to_multiset();
    let tx_ms = desc_frame_seq(d.tx_pending(), fs).to_multiset();
    let comp_ms = desc_frame_seq(d.completion_pending(), fs).to_multiset();
    if free_ms.count(i) > 0 {
        let s = offset_frame_seq(d.free_list(), fs);
        assert(s.contains(i));
        let j = choose|j: int| 0 <= j < s.len() && s[j] == i;
        assert(d.umem.is_frame_offset(d.free_list()[j]));
        lemma_offset_index_range(d.free_list()[j] as int, fs, d.frame_count());
    } else if fill_ms.count(i) > 0 {
        lemma_desc_seq_in_range(d, d.fill_pending(), i);
    } else if rx_ms.count(i) > 0 {
        lemma_desc_seq_in_range(d, d.rx_pending(), i);
    } else if tx_ms.count(i) > 0 {
        lemma_desc_seq_in_range(d, d.tx_pending(), i);
    } else {
        assert(comp_ms.count(i) > 0);
        lemma_desc_seq_in_range(d, d.completion_pending(), i);
    }
}

proof fn lemma_desc_seq_in_range(d: Datapath, s: Seq<RingDesc>, i: int)
    requires
        d.wf(),
        d.valid_descs(s),
        desc_frame_seq(s, d.frame_size()).to_multiset().count(i) > 0,
    ensures
        0 <= i < d.frame_count(),
{
    d.umem.lemma_wf_facts();
    let m = desc_frame_seq(s, d.frame_size());
    assert(m.contains(i));
    let j = choose|j: int| 0 <= j < m.len() && m[j] == i;
    assert(d.valid_desc(s[j]));
    lemma_offset_index_range(s[j].addr as int, d.frame_size(), d.frame_count());
}

/// A valid frame offset divides to an index within the region.
proof fn lemma_offset_index_range(o: int, fs: int, count: int)
    requires
        fs >= 1,
        o >= 0,
        o % fs == 0,
        o < count * fs,
    ensures
        0 <= o / fs < count,
        (o / fs) * fs == o,
{
    vstd::arithmetic::div_mod::lemma_fundamental_div_mod(o, fs);
    assert((o / fs) * fs == o) by (nonlinear_arith)
        requires
            fs >= 1,
            o == fs * (o / fs) + o % fs,
            o % fs == 0,
    ;
    assert(o / fs >= 0) by (nonlinear_arith)
        requires
            fs >= 1,
            o >= 0,
            (o / fs) * fs == o,
    ;
    assert(o / fs < count) by (nonlinear_arith)
        requires
            fs >= 1,
            (o / fs) * fs == o,
            o < count * fs,
    ;
}

/// The sequence of the first `n` naturals counts each of them once.
proof fn lemma_seq_new_count(n: nat, i: int)
    ensures
        Seq::new(n, |k: int| k).to_multiset().count(i) == if 0 <= i < n {
            1int
        } else {
            0int
        },
    decreases n,
{
    broadcast use vstd::seq_lib::group_to_multiset_ensures;

    let s = Seq::new(n, |k: int| k);
    if n == 0 {
        assert(s =~= Seq::<int>::empty());
        assert(s.to_multiset().count(i) == 0);
    } else {
        let t = Seq::new((n - 1) as nat, |k: int| k);
        lemma_seq_new_count((n - 1) as nat, i);
        assert(s =~= t.push(n - 1));
        assert(s.to_multiset() =~= t.to_multiset().insert(n - 1));
    }
}

} // verus!
