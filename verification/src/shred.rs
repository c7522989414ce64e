//! Shred header layout and the lightweight prescan.
//!
//! A shred is an opaque bytestring of at least 83 bytes. The common header
//! is bit-exact: a 64-byte signature, one variant byte, a little-endian
//! u64 slot, a little-endian u32 index, a little-endian u16 version and a
//! little-endian u32 FEC set index. The prescan classifies a payload as a
//! data or code shred from the variant byte alone, without validating the
//! whole shred.

use vstd::prelude::*;

verus! {

broadcast use vstd::seq_lib::group_seq_properties;

/// Length in bytes of the common shred header; no valid shred is shorter.
pub const SHRED_HEADER_LEN: usize = 83;

/// Byte offset of the variant byte (right after the 64-byte signature).
pub const SHRED_VARIANT_OFFSET: usize = 64;

/// Byte offset of the little-endian u64 slot number.
pub const SHRED_SLOT_OFFSET: usize = 65;

/// Byte offset of the little-endian u32 shred index.
pub const SHRED_INDEX_OFFSET: usize = 73;

/// The class of a shred: a data fragment of the ledger, or an
/// erasure-coding fragment kept for recovery.
#[derive(Clone, Copy, Debug, PartialEq, Eq, Structural)]
pub enum ShredType {
    Data,
    Code,
}

/// Classification of a variant byte by its upper nibble: data shreds use
/// 0x80, 0x90 or 0xB0, code shreds 0x40, 0x60 or 0x70; every other value
/// (legacy or invalid) is rejected.
pub open spec fn spec_shred_type(variant: u8) -> Option<ShredType> {
    let nibble = variant & 0xF0;
    if nibble == 0x80 || nibble == 0x90 || nibble == 0xB0 {
        Some(ShredType::Data)
    } else if nibble == 0x40 || nibble == 0x60 || nibble == 0x70 {
        Some(ShredType::Code)
    } else {
        None
    }
}

/// What the prescan answers for a whole payload: too short means no
/// shred, otherwise the variant byte decides.
pub open spec fn spec_parse_shred_type(data: Seq<u8>) -> Option<ShredType> {
    if data.len() < SHRED_HEADER_LEN {
        None
    } else {
        spec_shred_type(data[SHRED_VARIANT_OFFSET as int])
    }
}

/// Shred type detection without full deserialization: peeks the variant
/// byte. Input shorter than the common header is rejected.
pub fn parse_shred_type(data: &[u8]) -> (r: Option<ShredType>)
    ensures
        r == spec_parse_shred_type(data@),
{
    if data.len() < SHRED_HEADER_LEN {
        return None;
    }
    let variant = data[SHRED_VARIANT_OFFSET];
    let nibble = variant & 0xF0;
    if nibble == 0x80 || nibble == 0x90 || nibble == 0xB0 {
        Some(ShredType::Data)
    } else if nibble == 0x40 || nibble == 0x60 || nibble == 0x70 {
        Some(ShredType::Code)
    } else {
        None
    }
}

/// The slot number carried by a shred payload: the little-endian u64
/// right after the variant byte. Absent when the payload is too short to
/// reach past that field.
pub open spec fn spec_extract_slot(payload: Seq<u8>) -> Option<u64> {
    if payload.len() < SHRED_SLOT_OFFSET + 8 {
        None
    } else {
        Some(
            vstd::bytes::spec_u64_from_le_bytes(
                payload.subrange(SHRED_SLOT_OFFSET as int, SHRED_SLOT_OFFSET + 8),
            ),
        )
    }
}

/// Extracts the slot number from raw shred bytes: a plain 8-byte
/// little-endian read, no parsing, so future slots can be filtered before
/// any validation.
pub fn extract_slot_fast(payload: &[u8]) -> (r: Option<u64>)
    ensures
        r == spec_extract_slot(payload@),
{
    if payload.len() < SHRED_SLOT_OFFSET + 8 {
        return None;
    }
    let raw = vstd::slice::slice_subrange(payload, SHRED_SLOT_OFFSET, SHRED_SLOT_OFFSET + 8);
    Some(vstd::bytes::u64_from_le_bytes(raw))
}

/// The shred index carried by a payload: the little-endian u32 after the
/// slot field. Absent when the payload is too short to reach past it.
pub open spec fn spec_extract_index(payload: Seq<u8>) -> Option<u32> {
    if payload.len() < SHRED_INDEX_OFFSET + 4 {
        None
    } else {
        Some(
            vstd::bytes::spec_u32_from_le_bytes(
                payload.subrange(SHRED_INDEX_OFFSET as int, SHRED_INDEX_OFFSET + 4),
            ),
        )
    }
}

/// Extracts the shred index within its slot: a 4-byte little-endian read.
pub fn extract_index(payload: &[u8]) -> (r: Option<u32>)
    ensures
        r == spec_extract_index(payload@),
{
    if payload.len() < SHRED_INDEX_OFFSET + 4 {
        return None;
    }
    let raw = vstd::slice::slice_subrange(payload, SHRED_INDEX_OFFSET, SHRED_INDEX_OFFSET + 4);
    Some(vstd::bytes::u32_from_le_bytes(raw))
}

/// Byte offset of the little-endian u16 shred version.
pub const SHRED_VERSION_OFFSET: usize = 77;

/// Byte offset of the little-endian u32 FEC set index.
pub const SHRED_FEC_SET_OFFSET: usize = 79;

/// The shred version carried by a payload: the little-endian u16 after
/// the index field. Absent when the payload is too short to reach past
/// it.
pub open spec fn spec_extract_version(payload: Seq<u8>) -> Option<u16> {
    if payload.len() < SHRED_VERSION_OFFSET + 2 {
        None
    } else {
        Some(
            vstd::bytes::spec_u16_from_le_bytes(
                payload.subrange(SHRED_VERSION_OFFSET as int, SHRED_VERSION_OFFSET + 2),
            ),
        )
    }
}

/// Extracts the shred version: a 2-byte little-endian read.
pub fn extract_version(payload: &[u8]) -> (r: Option<u16>)
    ensures
        r == spec_extract_version(payload@),
{
    if payload.len() < SHRED_VERSION_OFFSET + 2 {
        return None;
    }
    let raw = vstd::slice::slice_subrange(
        payload,
        SHRED_VERSION_OFFSET,
        SHRED_VERSION_OFFSET + 2,
    );
    Some(vstd::bytes::u16_from_le_bytes(raw))
}

/// The FEC set index carried by a payload: the little-endian u32 that
/// closes the common header. Absent when the payload is shorter than
/// the header.
pub open spec fn spec_extract_fec_set_index(payload: Seq<u8>) -> Option<u32> {
    if payload.len() < SHRED_FEC_SET_OFFSET + 4 {
        None
    } else {
        Some(
            vstd::bytes::spec_u32_from_le_bytes(
                payload.subrange(SHRED_FEC_SET_OFFSET as int, SHRED_FEC_SET_OFFSET + 4),
            ),
        )
    }
}

/// Extracts the FEC set index: a 4-byte little-endian read.
pub fn extract_fec_set_index(payload: &[u8]) -> (r: Option<u32>)
    ensures
        r == spec_extract_fec_set_index(payload@),
{
    if payload.len() < SHRED_FEC_SET_OFFSET + 4 {
        return None;
    }
    let raw = vstd::slice::slice_subrange(
        payload,
        SHRED_FEC_SET_OFFSET,
        SHRED_FEC_SET_OFFSET + 4,
    );
    Some(vstd::bytes::u32_from_le_bytes(raw))
}

/// A decoded shred, as the reassembler consumes it: the header fields the
/// core reads, held as plain values, and the payload bytes that
/// deshredding concatenates. The completeness flags are the two bits the
/// full decoder exposes.
#[derive(Clone)]
pub struct Shred {
    pub slot: u64,
    pub index: u32,
    pub shred_type: ShredType,
    pub data_complete: bool,
    pub last_in_slot: bool,
    pub payload: Vec<u8>,
}

/// The mathematical image of a shred: the same fields with the payload as
/// a byte sequence.
pub ghost struct ShredView {
    pub slot: u64,
    pub index: u32,
    pub shred_type: ShredType,
    pub data_complete: bool,
    pub last_in_slot: bool,
    pub payload: Seq<u8>,
}

impl View for Shred {
    type V = ShredView;

    open spec fn view(&self) -> ShredView {
        ShredView {
            slot: self.slot,
            index: self.index,
            shred_type: self.shred_type,
            data_complete: self.data_complete,
            last_in_slot: self.last_in_slot,
            payload: self.payload@,
        }
    }
}

impl ShredView {
    /// A terminator closes a segment: a data shred marked complete or
    /// last in its slot.
    pub open spec fn is_terminator(self) -> bool {
        self.shred_type == ShredType::Data && (self.data_complete || self.last_in_slot)
    }
}

/// Monotonic counters of shred processing: packets received, shreds
/// decoded, errors, per-class counts, and code shreds dropped on
/// overflow. All counters saturate instead of wrapping.
pub struct ShredStats {
    pub received: u64,
    pub decoded: u64,
    pub errors: u64,
    pub data_shreds: u64,
    pub code_shreds: u64,
    pub code_drops: u64,
}

impl ShredStats {
    /// Zeroed counters.
    pub fn new() -> (r: ShredStats)
        ensures
            r.received == 0,
            r.decoded == 0,
            r.errors == 0,
            r.data_shreds == 0,
            r.code_shreds == 0,
            r.code_drops == 0,
    {
        ShredStats { received: 0, decoded: 0, errors: 0, data_shreds: 0, code_shreds: 0, code_drops: 0 }
    }

    /// Counts one successfully decoded shred under its class.
    pub fn record_decoded(&mut self, shred_type: ShredType)
        ensures
            final(self).decoded == old(self).decoded.saturating_add(1),
            final(self).data_shreds == if shred_type == ShredType::Data {
                old(self).data_shreds.saturating_add(1)
            } else {
                old(self).data_shreds
            },
            final(self).code_shreds == if shred_type == ShredType::Code {
                old(self).code_shreds.saturating_add(1)
            } else {
                old(self).code_shreds
            },
            final(self).received == old(self).received,
            final(self).errors == old(self).errors,
            final(self).code_drops == old(self).code_drops,
    {
        self.decoded = self.decoded.saturating_add(1);
        match shred_type {
            ShredType::Data => {
                self.data_shreds = self.data_shreds.saturating_add(1);
            },
            ShredType::Code => {
                self.code_shreds = self.code_shreds.saturating_add(1);
            },
        }
    }

    /// Counts one failed full decode.
    pub fn record_decode_error(&mut self)
        ensures
            final(self).errors == old(self).errors.saturating_add(1),
            final(self).received == old(self).received,
            final(self).decoded == old(self).decoded,
            final(self).data_shreds == old(self).data_shreds,
            final(self).code_shreds == old(self).code_shreds,
            final(self).code_drops == old(self).code_drops,
    {
        self.errors = self.errors.saturating_add(1);
    }

    /// Counts one code shred dropped on the way to the decoder: the
    /// caller's transport — a bounded hand-off between threads —
    /// reports its overflow here.
    pub fn record_code_drop(&mut self)
        ensures
            final(self).code_drops == old(self).code_drops.saturating_add(1),
            final(self).received == old(self).received,
            final(self).decoded == old(self).decoded,
            final(self).errors == old(self).errors,
            final(self).data_shreds == old(self).data_shreds,
            final(self).code_shreds == old(self).code_shreds,
    {
        self.code_drops = self.code_drops.saturating_add(1);
    }
}

/// Prescans one UDP payload and counts it: every packet counts as
/// received, and one the prescan rejects — too short, or a legacy or
/// invalid variant — counts as an error, since the full decoder would
/// reject it too. Returns the prescanned class so the full decode is
/// not attempted on rejected packets.
pub fn prescan_packet(stats: &mut ShredStats, payload: &[u8]) -> (t: Option<ShredType>)
    ensures
        t == spec_parse_shred_type(payload@),
        final(stats).received == old(stats).received.saturating_add(1),
        final(stats).errors == if t is None {
            old(stats).errors.saturating_add(1)
        } else {
            old(stats).errors
        },
        final(stats).decoded == old(stats).decoded,
        final(stats).data_shreds == old(stats).data_shreds,
        final(stats).code_shreds == old(stats).code_shreds,
        final(stats).code_drops == old(stats).code_drops,
{
    stats.received = stats.received.saturating_add(1);
    let t = parse_shred_type(payload);
    if t.is_none() {
        stats.errors = stats.errors.saturating_add(1);
    }
    t
}

/// The payload split into consecutive chunks of `chunk` bytes, the last
/// one possibly shorter. Concatenating the chunks in order gives the
/// payload back.
pub open spec fn chunks_of(data: Seq<u8>, chunk: nat) -> Seq<Seq<u8>>
    recommends
        chunk >= 1,
    decreases data.len(),
    when chunk >= 1
{
    if data.len() == 0 {
        Seq::empty()
    } else if data.len() <= chunk {
        seq![data]
    } else {
        seq![data.take(chunk as int)] + chunks_of(data.skip(chunk as int), chunk)
    }
}

/// Splits entry data into a run of data shreds for one slot: shred `k`
/// carries the `k`-th chunk under index `first_index + k`, and exactly
/// the last shred is marked `data_complete`. This is the inverse of
/// deshredding: concatenating the payloads in index order yields `data`.
pub fn shred_data(slot: u64, first_index: u32, data: &[u8], chunk_size: usize) -> (r: Vec<Shred>)
    requires
        chunk_size >= 1,
        data@.len() >= 1,
        first_index + chunks_of(data@, chunk_size as nat).len() <= u32::MAX,
    ensures
        r@.map(|k: int, s: Shred| s@.payload) == chunks_of(data@, chunk_size as nat),
        forall|k: int|
            0 <= k < r@.len() ==> {
                &&& (#[trigger] r@[k])@.slot == slot
                &&& r@[k]@.index == first_index + k
                &&& r@[k]@.shred_type == ShredType::Data
                &&& (r@[k]@.data_complete <==> k == r@.len() - 1)
                &&& !r@[k]@.last_in_slot
            },
{
    let ghost all_chunks = chunks_of(data@, chunk_size as nat);
    let mut r: Vec<Shred> = Vec::new();
    let mut pos: usize = 0;
    while pos < data.len()
        invariant
            chunk_size >= 1,
            data@.len() >= 1,
            first_index + all_chunks.len() <= u32::MAX,
            all_chunks == chunks_of(data@, chunk_size as nat),
            pos <= data@.len(),
            pos < data@.len() ==> r@.len() < all_chunks.len(),
            pos == data@.len() ==> r@.len() == all_chunks.len(),
            r@.map(|k: int, s: Shred| s@.payload) + chunks_of(
                data@.skip(pos as int),
                chunk_size as nat,
            ) == all_chunks,
            forall|k: int|
                0 <= k < r@.len() ==> {
                    &&& (#[trigger] r@[k])@.slot == slot
                    &&& r@[k]@.index == first_index + k
                    &&& r@[k]@.shred_type == ShredType::Data
                    &&& (r@[k]@.data_complete <==> pos == data@.len() && k == r@.len() - 1)
                    &&& !r@[k]@.last_in_slot
                },
        decreases data@.len() - pos,
    {
        let remaining = data.len() - pos;
        let this_chunk = if remaining <= chunk_size {
            remaining
        } else {
            chunk_size
        };
        let chunk_bytes = vstd::slice::slice_to_vec(
            vstd::slice::slice_subrange(data, pos, pos + this_chunk),
        );
        let is_last = remaining <= chunk_size;
        proof {
            let rest = data@.skip(pos as int);
            assert(rest.len() == remaining);
            if remaining <= chunk_size {
                assert(chunks_of(rest, chunk_size as nat) == seq![rest]);
                assert(chunk_bytes@ == rest);
            } else {
                assert(chunks_of(rest, chunk_size as nat) == seq![rest.take(chunk_size as int)]
                    + chunks_of(rest.skip(chunk_size as int), chunk_size as nat));
                assert(chunk_bytes@ == rest.take(chunk_size as int));
                assert(rest.skip(chunk_size as int) == data@.skip(pos + this_chunk));
            }
        }
        let shred = Shred {
            slot,
            index: first_index + (r.len() as u32),
            shred_type: ShredType::Data,
            data_complete: is_last,
            last_in_slot: false,
            payload: chunk_bytes,
        };
        r.push(shred);
        pos = pos + this_chunk;
        proof {
            assert(r@.map(|k: int, s: Shred| s@.payload) == r@.drop_last().map(
                |k: int, s: Shred| s@.payload,
            ).push(r@.last()@.payload));
        }
    }
    proof {
        assert(chunks_of(data@.skip(pos as int), chunk_size as nat) == Seq::<Seq<u8>>::empty());
        assert(r@.map(|k: int, s: Shred| s@.payload) + Seq::<Seq<u8>>::empty() == r@.map(
            |k: int, s: Shred| s@.payload,
        ));
    }
    r
}

} // verus!
