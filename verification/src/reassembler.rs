//! Per-slot shred reassembly.
//!
//! A `SlotState` tracks the shreds received for one slot. Data shreds go
//! through the segment machinery: a bitmap of received indices, a sparse
//! table of stored payloads, the indices of segment terminators in
//! arrival order, and the exclusive upper bound of the last emitted
//! segment. When every index from `last_processed` up to the first
//! recorded terminator has arrived, the payloads of that range can be
//! deshredded: concatenated in index order into one contiguous buffer.
//! Code shreds follow a separate append-only path, deduplicated by
//! index and retained for erasure recovery; they never enter the bitmap
//! or the emitted payload.
//!
//! The capacity of the data tracking is per state: the compact design
//! uses `MAX_SHREDS_PER_SLOT` bits, the unbounded reference design
//! `MAX_DATA_SHREDS_PER_SLOT`.
//!
//! The mathematical model is `SlotStateView`: the bitmap as a set of
//! indices, the tables as maps from index to payload bytes, and the two
//! transition functions `sv_add` and `sv_deshred`. Every operation's
//! contract pins the new state as one of these functions of the old.

use vstd::prelude::*;

use crate::shred::Shred;
use crate::shred::ShredView;
use crate::shred::ShredType;

verus! {

/// Data-shred capacity of the compact design: a bitmap of this many
/// bits per slot.
pub const MAX_SHREDS_PER_SLOT: usize = 512;

/// Data-shred capacity of the unbounded reference design.
pub const MAX_DATA_SHREDS_PER_SLOT: usize = 32768;

/// What `add_shred` says about one arrival.
#[derive(Clone, Copy, Debug, PartialEq, Eq, Structural)]
pub enum AddShredResult {
    /// A data shred's index is at or beyond the state's capacity;
    /// nothing was recorded.
    IndexOutOfRange,
    /// A shred with this index was already recorded; nothing changed.
    Duplicate,
    /// The shred was recorded.
    NewlyInserted,
}

/// Whether bit `i` is set in a bitmap of 64-bit words, least significant
/// bit first within each word.
pub open spec fn mask_bit(mask: Seq<u64>, i: int) -> bool
    recommends
        0 <= i < mask.len() * 64,
{
    mask[i / 64] & (1u64 << ((i % 64) as u64)) != 0
}

/// The code-shred table as a map: one payload per index, the first
/// arrival winning, as the append-only path deduplicates by index.
pub open spec fn code_map(entries: Seq<(u32, Seq<u8>)>) -> Map<int, Seq<u8>>
    decreases entries.len(),
{
    if entries.len() == 0 {
        Map::empty()
    } else {
        let prefix = code_map(entries.drop_last());
        let last = entries.last();
        if prefix.dom().contains(last.0 as int) {
            prefix
        } else {
            prefix.insert(last.0 as int, last.1)
        }
    }
}

/// The code map holds exactly the indices that occur among the entries.
proof fn lemma_code_map_dom(entries: Seq<(u32, Seq<u8>)>, idx: int)
    ensures
        code_map(entries).dom().contains(idx) <==> exists|k: int|
            0 <= k < entries.len() && (#[trigger] entries[k]).0 == idx,
    decreases entries.len(),
{
    if entries.len() > 0 {
        let prefix = entries.drop_last();
        lemma_code_map_dom(prefix, idx);
        if code_map(entries).dom().contains(idx) {
            if entries.last().0 == idx {
                assert(entries[entries.len() - 1].0 == idx);
            } else {
                assert(code_map(prefix).dom().contains(idx));
                let k = choose|k: int| 0 <= k < prefix.len() && (#[trigger] prefix[k]).0 == idx;
                assert(entries[k].0 == idx);
            }
        }
        if exists|k: int| 0 <= k < entries.len() && (#[trigger] entries[k]).0 == idx {
            let k = choose|k: int| 0 <= k < entries.len() && (#[trigger] entries[k]).0 == idx;
            if k == entries.len() - 1 {
                assert(entries.last().0 == idx);
            } else {
                assert(prefix[k].0 == idx);
                assert(code_map(prefix).dom().contains(idx));
            }
        }
    }
}

/// The mathematical state of one slot's reassembly.
pub ghost struct SlotStateView {
    /// The slot this state tracks.
    pub slot: u64,
    /// Data-shred capacity: indices at or beyond it are rejected.
    pub capacity: int,
    /// Indices whose data shred has been seen. Bits are never cleared,
    /// so duplicates are detected even after their segment was emitted.
    pub received: Set<int>,
    /// Data payloads stored and not yet consumed by an emitted segment.
    pub stored: Map<int, Seq<u8>>,
    /// Indices of segment terminators, in arrival order.
    pub ends: Seq<int>,
    /// Exclusive upper bound of the most recently emitted segment.
    pub last_processed: int,
    /// Code-shred payloads by index, kept for erasure recovery.
    pub code: Map<int, Seq<u8>>,
}

/// The state of a slot that has seen nothing yet.
pub open spec fn sv_new(slot: u64, capacity: int) -> SlotStateView {
    SlotStateView {
        slot,
        capacity,
        received: Set::empty(),
        stored: Map::empty(),
        ends: Seq::empty(),
        last_processed: 0,
        code: Map::empty(),
    }
}

/// Well-formedness of a slot view: data indices stay below the
/// capacity, every index below `last_processed` was received (emitted
/// segments were gap-free), and a payload is stored for exactly the
/// received indices that no emitted segment has consumed.
pub open spec fn sv_wf(v: SlotStateView) -> bool {
    &&& 0 <= v.last_processed <= v.capacity
    &&& forall|i: int| #[trigger] v.received.contains(i) ==> 0 <= i < v.capacity
    &&& forall|i: int| 0 <= i < v.last_processed ==> #[trigger] v.received.contains(i)
    &&& forall|i: int|
        #![trigger v.stored.dom().contains(i)]
        #![trigger v.received.contains(i)]
        v.stored.dom().contains(i) <==> (v.last_processed <= i && v.received.contains(i))
    &&& forall|k: int| 0 <= k < v.ends.len() ==> 0 <= #[trigger] v.ends[k] < v.capacity
}

/// The transition one arrival makes. A code shred takes the separate
/// append-only path: recorded under its index unless that index is
/// already present. A data shred is rejected at or beyond the capacity,
/// reported as a duplicate by the bitmap, and otherwise marked
/// received, stored, and — for a terminator — recorded as a segment
/// end.
pub open spec fn sv_add(v: SlotStateView, s: ShredView) -> (SlotStateView, AddShredResult) {
    if s.shred_type == ShredType::Code {
        if v.code.dom().contains(s.index as int) {
            (v, AddShredResult::Duplicate)
        } else {
            (
                SlotStateView { code: v.code.insert(s.index as int, s.payload), ..v },
                AddShredResult::NewlyInserted,
            )
        }
    } else if s.index >= v.capacity {
        (v, AddShredResult::IndexOutOfRange)
    } else if v.received.contains(s.index as int) {
        (v, AddShredResult::Duplicate)
    } else {
        (
            SlotStateView {
                received: v.received.insert(s.index as int),
                stored: v.stored.insert(s.index as int, s.payload),
                ends: if s.is_terminator() {
                    v.ends.push(s.index as int)
                } else {
                    v.ends
                },
                ..v
            },
            AddShredResult::NewlyInserted,
        )
    }
}

/// Whether the next segment is complete: there is a recorded terminator,
/// it lies at or beyond `last_processed`, and every index from
/// `last_processed` through it has been received.
pub open spec fn sv_segment_complete(v: SlotStateView) -> bool {
    &&& v.ends.len() > 0
    &&& v.ends[0] >= v.last_processed
    &&& forall|i: int| v.last_processed <= i <= v.ends[0] ==> v.received.contains(i)
}

/// The payloads stored for indices `lo` through `hi`, concatenated in
/// index order.
pub open spec fn concat_stored(stored: Map<int, Seq<u8>>, lo: int, hi: int) -> Seq<u8>
    decreases hi + 1 - lo,
{
    if lo > hi {
        Seq::empty()
    } else {
        stored[lo] + concat_stored(stored, lo + 1, hi)
    }
}

/// The transition one deshred attempt makes. With no recorded terminator,
/// or a gap before the first one, nothing changes. A stale terminator —
/// one below `last_processed`, recorded out of index order before the
/// segment containing it was emitted — is discarded without emitting.
/// Otherwise the segment from `last_processed` through the first
/// terminator is emitted: its concatenated payload is returned, the
/// terminator is consumed, `last_processed` moves past the segment, and
/// the stored payloads of the segment are cleared (the received bits
/// stay, so duplicates are still detected).
pub open spec fn sv_deshred(v: SlotStateView) -> (SlotStateView, Option<Seq<u8>>) {
    if v.ends.len() == 0 {
        (v, None)
    } else if v.ends[0] < v.last_processed {
        (SlotStateView { ends: v.ends.drop_first(), ..v }, None)
    } else if !sv_segment_complete(v) {
        (v, None)
    } else {
        let start = v.last_processed;
        let end = v.ends[0];
        (
            SlotStateView {
                stored: v.stored.remove_keys(Set::new(|i: int| start <= i <= end)),
                ends: v.ends.drop_first(),
                last_processed: end + 1,
                ..v
            },
            Some(concat_stored(v.stored, start, end)),
        )
    }
}

/// Number of indices below `n` whose received bit is set.
pub open spec fn count_received_below(v: SlotStateView, n: int) -> int
    decreases n,
{
    if n <= 0 {
        0
    } else {
        count_received_below(v, n - 1) + if v.received.contains(n - 1) {
            1int
        } else {
            0int
        }
    }
}

/// Number of indices below `n` with a stored payload.
pub open spec fn count_stored_below(v: SlotStateView, n: int) -> int
    decreases n,
{
    if n <= 0 {
        0
    } else {
        count_stored_below(v, n - 1) + if v.stored.dom().contains(n - 1) {
            1int
        } else {
            0int
        }
    }
}

/// Per-slot tracking of received shreds; the bitmap's size sets the
/// data-shred capacity.
pub struct SlotState {
    /// The slot this state tracks.
    pub slot: u64,
    /// Bitmap of received data indices; its length times 64 is the
    /// capacity.
    received_mask: Vec<u64>,
    /// Sparse table of stored data payloads, indexed by shred index;
    /// grown on demand.
    shreds: Vec<Option<Vec<u8>>>,
    /// Indices of segment terminators, in arrival order.
    segment_ends: Vec<u32>,
    /// Exclusive upper bound of the most recently emitted segment.
    last_processed: u32,
    /// Code shreds in arrival order, deduplicated by index.
    code_shreds: Vec<(u32, Vec<u8>)>,
}

impl View for SlotState {
    type V = SlotStateView;

    closed spec fn view(&self) -> SlotStateView {
        SlotStateView {
            slot: self.slot,
            capacity: self.received_mask@.len() * 64 as int,
            received: Set::new(
                |i: int|
                    0 <= i < self.received_mask@.len() * 64 && mask_bit(self.received_mask@, i),
            ),
            stored: Map::new(
                |i: int| 0 <= i < self.shreds@.len() && self.shreds@[i] is Some,
                |i: int| self.shreds@[i]->0@,
            ),
            ends: self.segment_ends@.map_values(|e: u32| e as int),
            last_processed: self.last_processed as int,
            code: code_map(self.code_shreds@.map_values(|e: (u32, Vec<u8>)| (e.0, e.1@))),
        }
    }
}

impl SlotState {
    /// Structural constraints the mathematical view does not carry.
    pub closed spec fn inv(&self) -> bool {
        &&& 1 <= self.received_mask@.len()
        &&& self.received_mask@.len() * 64 <= u32::MAX
        &&& self.shreds@.len() <= self.received_mask@.len() * 64
    }

    /// Well-formedness: the representation is intact and the view
    /// satisfies the slot invariants.
    pub open spec fn wf(&self) -> bool {
        &&& self.inv()
        &&& sv_wf(self@)
    }

    /// A fresh state for `slot` with the compact design's capacity.
    pub fn new(slot: u64) -> (r: Self)
        ensures
            r.wf(),
            r@ == sv_new(slot, MAX_SHREDS_PER_SLOT as int),
    {
        Self::new_with_capacity(slot, MAX_SHREDS_PER_SLOT)
    }

    /// A fresh state for `slot` tracking up to `capacity` data shreds:
    /// nothing received, nothing stored, no terminators, nothing
    /// processed. The capacity must be a positive multiple of the
    /// bitmap word size, small enough that an index fits the index
    /// type.
    pub fn new_with_capacity(slot: u64, capacity: usize) -> (r: Self)
        requires
            64 <= capacity <= u32::MAX,
            capacity % 64 == 0,
        ensures
            r.wf(),
            r@ == sv_new(slot, capacity as int),
    {
        let words = capacity / 64;
        let mut mask: Vec<u64> = Vec::new();
        let mut w: usize = 0;
        while w < words
            invariant
                w <= words,
                mask@.len() == w,
                forall|k: int| 0 <= k < w ==> mask@[k] == 0u64,
            decreases words - w,
        {
            mask.push(0u64);
            w = w + 1;
        }
        let r = SlotState {
            slot,
            received_mask: mask,
            shreds: Vec::new(),
            segment_ends: Vec::new(),
            last_processed: 0,
            code_shreds: Vec::new(),
        };
        proof {
            assert(words * 64 == capacity);
            assert forall|i: int|
                0 <= i < r.received_mask@.len() * 64 implies !mask_bit(r.received_mask@, i) by {
                let sh = (i % 64) as u64;
                assert(0u64 & (1u64 << sh) == 0) by (bit_vector);
            }
            assert(r@.received =~= Set::empty());
            assert(r@.stored =~= Map::empty());
            assert(r@.ends =~= Seq::empty());
            assert(r.code_shreds@.map_values(|e: (u32, Vec<u8>)| (e.0, e.1@)) =~= Seq::<(
                u32,
                Seq<u8>,
            )>::empty());
            assert(r@.code =~= Map::<int, Seq<u8>>::empty());
        }
        r
    }

    /// The data-shred capacity of this state.
    pub fn capacity(&self) -> (r: usize)
        requires
            self.wf(),
        ensures
            r as int == self@.capacity,
    {
        self.received_mask.len() * 64
    }

    /// Records one shred. A code shred goes to the append-only side
    /// table, deduplicated by index. A data shred is rejected at or
    /// beyond the capacity, detected as a duplicate by the bitmap
    /// alone, and otherwise stored — with its index appended to the
    /// segment ends when it is a terminator.
    pub fn add_shred(&mut self, shred: Shred) -> (r: AddShredResult)
        requires
            old(self).wf(),
        ensures
            final(self).wf(),
            (final(self)@, r) == sv_add(old(self)@, shred@),
    {
        match shred.shred_type {
            ShredType::Code => {
                return self.add_code_shred(shred);
            },
            ShredType::Data => {},
        }
        let ghost capacity = old(self)@.capacity;
        let index = shred.index as usize;
        if index >= self.received_mask.len() * 64 {
            return AddShredResult::IndexOutOfRange;
        }
        let word_idx = index / 64;
        let shift = (index % 64) as u64;
        let bit: u64 = 1u64 << shift;
        let word = self.received_mask[word_idx];
        if word & bit != 0 {
            proof {
                assert(mask_bit(self.received_mask@, index as int));
                assert(old(self)@.received.contains(index as int));
            }
            return AddShredResult::Duplicate;
        }
        proof {
            assert(!old(self)@.received.contains(index as int));
        }
        self.received_mask.set(word_idx, word | bit);
        proof {
            assert forall|i: int| 0 <= i < capacity implies mask_bit(self.received_mask@, i) == (
            mask_bit(old(self).received_mask@, i) || i == index) by {
                let j = shift;
                let k = (i % 64) as u64;
                if i / 64 == word_idx {
                    assert(j < 64 && k < 64 ==> (((word | (1u64 << j)) & (1u64 << k) != 0) <==> (
                    (word & (1u64 << k) != 0) || j == k))) by (bit_vector);
                    assert(i == index <==> (i / 64 == index / 64 && (i % 64) as u64 == shift));
                }
            }
            assert(self@.received =~= old(self)@.received.insert(index as int));
        }
        if shred.data_complete || shred.last_in_slot {
            self.segment_ends.push(shred.index);
            proof {
                assert(self@.ends =~= old(self)@.ends.push(index as int));
            }
        } else {
            proof {
                assert(self@.ends =~= old(self)@.ends);
            }
        }
        let ghost pre = *self;
        while self.shreds.len() <= index
            invariant
                index < pre.received_mask@.len() * 64,
                pre.shreds@.len() <= pre.received_mask@.len() * 64,
                self.shreds@.len() <= pre.shreds@.len() || self.shreds@.len() <= index + 1,
                self.shreds@.len() >= pre.shreds@.len(),
                forall|k: int| 0 <= k < pre.shreds@.len() ==> self.shreds@[k] == pre.shreds@[k],
                forall|k: int|
                    pre.shreds@.len() <= k < self.shreds@.len() ==> self.shreds@[k] is None,
                self.slot == pre.slot,
                self.received_mask == pre.received_mask,
                self.segment_ends == pre.segment_ends,
                self.last_processed == pre.last_processed,
                self.code_shreds == pre.code_shreds,
            decreases index + 1 - self.shreds@.len(),
        {
            self.shreds.push(None);
        }
        self.shreds.set(index, Some(shred.payload));
        proof {
            assert(self@.received =~= pre@.received);
            assert(self@.ends =~= pre@.ends);
            assert(self@.stored =~= old(self)@.stored.insert(index as int, shred@.payload));
            let v2 = sv_add(old(self)@, shred@).0;
            assert(self@.received == v2.received);
            assert(self@.ends == v2.ends);
            assert(self@.code == v2.code);
            assert(self@ == v2);
            assert(old(self)@.last_processed <= index as int) by {
                if (index as int) < old(self)@.last_processed {
                    assert(old(self)@.received.contains(index as int));
                }
            }
            assert forall|i: int| v2.received.contains(i) implies 0 <= i < capacity by {
                if i != index as int {
                    assert(old(self)@.received.contains(i));
                }
            }
            assert forall|i: int| 0 <= i < v2.last_processed implies v2.received.contains(i) by {
                assert(old(self)@.received.contains(i));
            }
            assert forall|i: int|
                v2.stored.dom().contains(i) <==> (v2.last_processed <= i
                    && v2.received.contains(i)) by {
                if i != index as int {
                    assert(old(self)@.stored.dom().contains(i) <==> (old(self)@.last_processed <= i
                        && old(self)@.received.contains(i)));
                }
            }
            assert(sv_wf(v2));
        }
        AddShredResult::NewlyInserted
    }

    /// The append-only code path: record the payload under its index
    /// unless a code shred of that index was already recorded.
    fn add_code_shred(&mut self, shred: Shred) -> (r: AddShredResult)
        requires
            old(self).wf(),
            shred@.shred_type == ShredType::Code,
        ensures
            final(self).wf(),
            (final(self)@, r) == sv_add(old(self)@, shred@),
    {
        let ghost entries = self.code_shreds@.map_values(|e: (u32, Vec<u8>)| (e.0, e.1@));
        let idx = shred.index;
        let mut k: usize = 0;
        while k < self.code_shreds.len()
            invariant
                *self == *old(self),
                old(self).wf(),
                shred@.shred_type == ShredType::Code,
                idx == shred@.index,
                entries == self.code_shreds@.map_values(|e: (u32, Vec<u8>)| (e.0, e.1@)),
                k <= self.code_shreds@.len(),
                forall|j: int| 0 <= j < k ==> (#[trigger] entries[j]).0 != idx,
            decreases self.code_shreds@.len() - k,
        {
            if self.code_shreds[k].0 == idx {
                proof {
                    assert(entries[k as int].0 == idx);
                    lemma_code_map_dom(entries, idx as int);
                    assert(old(self)@.code.dom().contains(idx as int));
                }
                return AddShredResult::Duplicate;
            }
            k = k + 1;
        }
        proof {
            lemma_code_map_dom(entries, idx as int);
            assert(!old(self)@.code.dom().contains(idx as int));
        }
        self.code_shreds.push((idx, shred.payload));
        proof {
            let new_entries = self.code_shreds@.map_values(|e: (u32, Vec<u8>)| (e.0, e.1@));
            assert(new_entries =~= entries.push((idx, shred@.payload)));
            assert(new_entries.drop_last() =~= entries);
            assert(self@.code == old(self)@.code.insert(idx as int, shred@.payload));
            assert(self@.received =~= old(self)@.received);
            assert(self@.stored =~= old(self)@.stored);
            assert(self@.ends =~= old(self)@.ends);
            assert(self@ == sv_add(old(self)@, shred@).0);
        }
        AddShredResult::NewlyInserted
    }

    /// Walks the range from `last_processed` through the first recorded
    /// terminator and, when every index of it has been received,
    /// returns the stored payloads concatenated in index order. Reads
    /// only; the shared core of peeking and consuming a segment.
    fn gather_segment(&self) -> (r: Option<Vec<u8>>)
        requires
            self.wf(),
            self@.ends.len() > 0,
            self@.ends[0] >= self@.last_processed,
        ensures
            r is Some <==> sv_segment_complete(self@),
            r is Some ==> r->0@ == concat_stored(
                self@.stored,
                self@.last_processed,
                self@.ends[0],
            ),
    {
        let end = self.segment_ends[0];
        let start = self.last_processed;
        proof {
            assert(end as int == self@.ends[0]);
        }
        let mut i = start;
        while i <= end
            invariant
                self.wf(),
                self@.ends.len() > 0,
                start == self.last_processed,
                end as int == self@.ends[0],
                start <= end < self@.capacity,
                self@.capacity <= u32::MAX,
                start <= i <= end + 1,
                forall|j: int| start <= j < i ==> self@.received.contains(j),
            decreases end + 1 - i,
        {
            let word = self.received_mask[(i as usize) / 64];
            let shift = ((i as usize) % 64) as u64;
            if word & (1u64 << shift) == 0 {
                proof {
                    assert(!mask_bit(self.received_mask@, i as int));
                    assert(!self@.received.contains(i as int));
                    assert(!sv_segment_complete(self@));
                }
                return None;
            }
            proof {
                assert(mask_bit(self.received_mask@, i as int));
                assert(self@.received.contains(i as int));
            }
            i = i + 1;
        }
        proof {
            assert(sv_segment_complete(self@));
        }
        let ghost stored = self@.stored;
        let mut out: Vec<u8> = Vec::new();
        let mut i = start;
        proof {
            assert(concat_stored(stored, start as int, end as int) =~= Seq::<u8>::empty()
                + concat_stored(stored, start as int, end as int));
        }
        while i <= end
            invariant
                self.wf(),
                stored == self@.stored,
                sv_segment_complete(self@),
                start == self.last_processed,
                end as int == self@.ends[0],
                start <= end < self@.capacity,
                self@.capacity <= u32::MAX,
                start <= i <= end + 1,
                out@ + concat_stored(stored, i as int, end as int) == concat_stored(
                    stored,
                    start as int,
                    end as int,
                ),
            decreases end + 1 - i,
        {
            proof {
                assert(self@.received.contains(i as int));
                assert(stored.dom().contains(i as int));
                assert(self.shreds@[i as int] is Some);
            }
            let entry = &self.shreds[i as usize];
            match entry {
                Some(p) => {
                    let ghost out_before = out@;
                    let mut k: usize = 0;
                    while k < p.len()
                        invariant
                            k <= p@.len(),
                            out@ == out_before + p@.take(k as int),
                        decreases p@.len() - k,
                    {
                        out.push(p[k]);
                        proof {
                            assert(out_before + p@.take(k as int) + seq![p@[k as int]]
                                =~= out_before + p@.take(k + 1));
                        }
                        k = k + 1;
                    }
                    proof {
                        assert(p@.take(p@.len() as int) =~= p@);
                        assert(p@ == stored[i as int]);
                        assert(concat_stored(stored, i as int, end as int) == stored[i as int]
                            + concat_stored(stored, i + 1, end as int));
                        assert(out_before + p@ + concat_stored(stored, i + 1, end as int)
                            =~= out_before + (p@ + concat_stored(stored, i + 1, end as int)));
                    }
                },
                None => {
                    proof {
                        assert(false);
                    }
                    return None;
                },
            }
            i = i + 1;
        }
        proof {
            assert(concat_stored(stored, end + 1, end as int) =~= Seq::<u8>::empty());
            assert(out@ + Seq::<u8>::empty() =~= out@);
        }
        Some(out)
    }

    /// Attempts to emit the next segment: the payloads from
    /// `last_processed` through the first recorded terminator,
    /// concatenated in index order. Returns nothing — leaving the state
    /// unchanged — when no terminator is recorded or the range has a gap;
    /// discards a stale terminator without emitting. On success the
    /// segment is consumed: the terminator is popped, `last_processed`
    /// moves past the segment and the stored payloads of the segment are
    /// cleared, while their received bits stay set for duplicate
    /// detection.
    pub fn try_deshred(&mut self) -> (r: Option<Vec<u8>>)
        requires
            old(self).wf(),
        ensures
            final(self).wf(),
            final(self)@ == sv_deshred(old(self)@).0,
            r is Some <==> sv_deshred(old(self)@).1 is Some,
            r is Some ==> r->0@ == sv_deshred(old(self)@).1->0,
    {
        if self.segment_ends.len() == 0 {
            return None;
        }
        let end = self.segment_ends[0];
        proof {
            assert(end as int == self@.ends[0]);
        }
        if end < self.last_processed {
            self.segment_ends.remove(0);
            proof {
                assert(self@.ends =~= old(self)@.ends.drop_first());
                assert(self@.received =~= old(self)@.received);
                assert(self@.stored =~= old(self)@.stored);
                assert(self@ == sv_deshred(old(self)@).0);
                assert forall|k: int|
                    0 <= k < self@.ends.len() implies 0 <= #[trigger] self@.ends[k]
                    < self@.capacity by {
                    assert(self@.ends[k] == old(self)@.ends[k + 1]);
                }
            }
            return None;
        }
        let out = match self.gather_segment() {
            Some(out) => out,
            None => {
                proof {
                    assert(!sv_segment_complete(old(self)@));
                }
                return None;
            },
        };
        let start = self.last_processed;
        self.segment_ends.remove(0);
        self.last_processed = end + 1;
        let ghost mid = *self;
        let mut i = start;
        while i <= end
            invariant
                old(self).wf(),
                sv_segment_complete(old(self)@),
                start == old(self).last_processed,
                end as int == old(self)@.ends[0],
                start <= end < old(self)@.capacity,
                old(self)@.capacity <= u32::MAX,
                start <= i <= end + 1,
                self.slot == mid.slot,
                self.received_mask == mid.received_mask,
                self.segment_ends == mid.segment_ends,
                self.last_processed == mid.last_processed,
                self.code_shreds == mid.code_shreds,
                self.shreds@.len() == mid.shreds@.len(),
                mid.shreds@ == old(self).shreds@,
                forall|j: int|
                    0 <= j < self.shreds@.len() && !(start <= j < i) ==> self.shreds@[j]
                        == old(self).shreds@[j],
                forall|j: int| start <= j < i && j < self.shreds@.len() ==> self.shreds@[j] is None,
            decreases end + 1 - i,
        {
            proof {
                assert(old(self)@.received.contains(i as int));
                assert(old(self)@.stored.dom().contains(i as int));
                assert(old(self).shreds@[i as int] is Some);
            }
            self.shreds.set(i as usize, None);
            i = i + 1;
        }
        proof {
            let vold = old(self)@;
            let range = Set::new(|j: int| start <= j <= end);
            assert(self@.received =~= vold.received);
            assert(self@.ends =~= vold.ends.drop_first());
            assert(self@.stored =~= vold.stored.remove_keys(range));
            assert(self@.code == vold.code);
            assert(self@ == sv_deshred(vold).0);
            let v2 = sv_deshred(vold).0;
            assert forall|j: int| 0 <= j < v2.last_processed implies v2.received.contains(j) by {
                if j < start {
                    assert(vold.received.contains(j));
                }
            }
            assert forall|j: int|
                v2.stored.dom().contains(j) <==> (v2.last_processed <= j
                    && v2.received.contains(j)) by {
                assert(vold.stored.dom().contains(j) <==> (vold.last_processed <= j
                    && vold.received.contains(j)));
            }
            assert forall|k: int|
                0 <= k < v2.ends.len() implies 0 <= #[trigger] v2.ends[k] < v2.capacity by {
                assert(v2.ends[k] == vold.ends[k + 1]);
            }
            assert(sv_wf(v2));
        }
        Some(out)
    }

    /// What the next deshred attempt would emit, without touching the
    /// state. A caller that must decode the emitted bytes with an
    /// outside decoder peeks first, decodes, and only then consumes the
    /// segment with `try_deshred`; if decoding fails, nothing has
    /// advanced and the attempt can be retried on the next arrival.
    pub fn peek_segment(&self) -> (r: Option<Vec<u8>>)
        requires
            self.wf(),
        ensures
            r is Some <==> sv_deshred(self@).1 is Some,
            r is Some ==> r->0@ == sv_deshred(self@).1->0,
    {
        if self.segment_ends.len() == 0 {
            return None;
        }
        let end = self.segment_ends[0];
        proof {
            assert(end as int == self@.ends[0]);
        }
        if end < self.last_processed {
            return None;
        }
        self.gather_segment()
    }

    /// The slot this state tracks.
    pub fn slot_number(&self) -> (r: u64)
        ensures
            r == self@.slot,
    {
        self.slot
    }

    /// Counts the set bits of the received bitmap: how many distinct
    /// data-shred indices have been seen for this slot.
    pub fn count_ones(&self) -> (r: u32)
        requires
            self.wf(),
        ensures
            r as int == count_received_below(self@, self@.capacity),
    {
        let capacity = self.received_mask.len() * 64;
        let mut count: u32 = 0;
        let mut i: usize = 0;
        while i < capacity
            invariant
                self.wf(),
                capacity == self@.capacity,
                i <= capacity,
                count <= i,
                count as int == count_received_below(self@, i as int),
            decreases capacity - i,
        {
            let word = self.received_mask[i / 64];
            if word & (1u64 << ((i % 64) as u64)) != 0 {
                proof {
                    assert(self@.received.contains(i as int));
                }
                count = count + 1;
            } else {
                proof {
                    assert(!self@.received.contains(i as int));
                }
            }
            i = i + 1;
        }
        count
    }

    /// Counts the entries present in the sparse payload table: the data
    /// shreds stored and not yet consumed by an emitted segment.
    pub fn stored_count(&self) -> (r: u32)
        requires
            self.wf(),
        ensures
            r as int == count_stored_below(self@, self@.capacity),
    {
        let capacity = self.received_mask.len() * 64;
        let mut count: u32 = 0;
        let mut i: usize = 0;
        while i < capacity
            invariant
                self.wf(),
                capacity == self@.capacity,
                i <= capacity,
                count <= i,
                count as int == count_stored_below(self@, i as int),
            decreases capacity - i,
        {
            let present = if i < self.shreds.len() {
                match &self.shreds[i] {
                    Some(_) => true,
                    None => false,
                }
            } else {
                false
            };
            if present {
                proof {
                    assert(self@.stored.dom().contains(i as int));
                }
                count = count + 1;
            } else {
                proof {
                    assert(!self@.stored.dom().contains(i as int));
                }
            }
            i = i + 1;
        }
        count
    }

    /// The exclusive upper bound of the most recently emitted segment.
    pub fn last_processed(&self) -> (r: u32)
        ensures
            r as int == self@.last_processed,
    {
        self.last_processed
    }

    /// How many segment terminators are recorded and not yet consumed.
    pub fn pending_segments(&self) -> (r: usize)
        ensures
            r as int == self@.ends.len(),
    {
        self.segment_ends.len()
    }
}

} // verus!
