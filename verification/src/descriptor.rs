//! The transient per-packet descriptor handed from the datapath to the
//! decoder thread: the packet's place in the UMEM plus its parsed
//! addressing, small enough for one cache line, so the packet bytes
//! themselves are never copied.

use vstd::prelude::*;

use crate::packet::Ipv4Addr;
use crate::shred::ShredType;
use crate::ETH_HEADER_SIZE;
use crate::IP_HEADER_SIZE;
use crate::UDP_HEADER_SIZE;

verus! {

/// A packet's metadata, without its bytes: where the packet lives in
/// the UMEM, where its UDP payload starts, the addresses and ports read
/// from its headers, the receive time, and the prescanned shred class,
/// kept so the decoder does not parse the variant byte twice.
pub struct PacketDescriptor {
    /// Byte offset of the frame within the UMEM.
    pub umem_offset: u64,
    /// Offset of the UDP payload within the packet.
    pub payload_offset: u32,
    /// Length of the UDP payload alone.
    pub payload_len: u32,
    /// Total packet length, headers included.
    pub packet_len: u32,
    pub src_ip: Ipv4Addr,
    pub src_port: u16,
    pub dst_ip: Ipv4Addr,
    pub dst_port: u16,
    /// Receive time, in nanoseconds since an epoch the caller picks.
    pub recv_timestamp_nanos: u64,
    /// The prescanned shred class, absent for non-shred traffic.
    pub shred_type: Option<ShredType>,
    /// Whether this entry carries a packet; reusable ring entries start
    /// and end invalid.
    pub valid: bool,
}

/// The addressing of an IPv4/UDP packet: source and destination address
/// and port, read big-endian from their fixed header offsets. Absent
/// when the packet is too short to carry the UDP header.
pub open spec fn spec_parse_addressing(p: Seq<u8>) -> Option<(Ipv4Addr, u16, Ipv4Addr, u16)> {
    if p.len() < ETH_HEADER_SIZE + IP_HEADER_SIZE + UDP_HEADER_SIZE {
        None
    } else {
        Some(
            (
                Ipv4Addr([p[26], p[27], p[28], p[29]]),
                (p[34] * 256 + p[35]) as u16,
                Ipv4Addr([p[30], p[31], p[32], p[33]]),
                (p[36] * 256 + p[37]) as u16,
            ),
        )
    }
}

/// Reads the source and destination IPv4 address and UDP port out of a
/// packet's headers.
pub fn parse_addressing(p: &[u8]) -> (r: Option<(Ipv4Addr, u16, Ipv4Addr, u16)>)
    ensures
        r == spec_parse_addressing(p@),
{
    if p.len() < ETH_HEADER_SIZE + IP_HEADER_SIZE + UDP_HEADER_SIZE {
        return None;
    }
    let src_ip = Ipv4Addr([p[26], p[27], p[28], p[29]]);
    let dst_ip = Ipv4Addr([p[30], p[31], p[32], p[33]]);
    let src_port = (p[34] as u16) * 256 + (p[35] as u16);
    let dst_port = (p[36] as u16) * 256 + (p[37] as u16);
    Some((src_ip, src_port, dst_ip, dst_port))
}

impl PacketDescriptor {
    /// An empty, invalid entry, as ring buffers are initialized.
    pub fn factory() -> (r: PacketDescriptor)
        ensures
            !r.valid,
            r.shred_type is None,
            r.umem_offset == 0,
            r.payload_offset == 0,
            r.payload_len == 0,
            r.packet_len == 0,
            r.recv_timestamp_nanos == 0,
    {
        PacketDescriptor {
            umem_offset: 0,
            payload_offset: 0,
            payload_len: 0,
            packet_len: 0,
            src_ip: Ipv4Addr([0, 0, 0, 0]),
            src_port: 0,
            dst_ip: Ipv4Addr([0, 0, 0, 0]),
            dst_port: 0,
            recv_timestamp_nanos: 0,
            shred_type: None,
            valid: false,
        }
    }

    /// Marks a reusable entry empty again; the stale numeric fields are
    /// left behind, as the validity flag guards them.
    pub fn reset(&mut self)
        ensures
            !final(self).valid,
            final(self).shred_type is None,
            final(self).umem_offset == old(self).umem_offset,
            final(self).payload_offset == old(self).payload_offset,
            final(self).payload_len == old(self).payload_len,
            final(self).packet_len == old(self).packet_len,
            final(self).src_ip == old(self).src_ip,
            final(self).src_port == old(self).src_port,
            final(self).dst_ip == old(self).dst_ip,
            final(self).dst_port == old(self).dst_port,
            final(self).recv_timestamp_nanos == old(self).recv_timestamp_nanos,
    {
        self.valid = false;
        self.shred_type = None;
    }

    /// Fills an entry for a packet sitting in the UMEM: its position,
    /// the addressing parsed from its headers, the receive time and the
    /// prescanned class. The payload is everything after the three
    /// headers. Fails — leaving the entry unchanged — when the packet
    /// is too short to carry a UDP payload.
    pub fn set_from_umem(
        &mut self,
        umem_offset: u64,
        packet: &[u8],
        recv_timestamp_nanos: u64,
        shred_type: Option<ShredType>,
    ) -> (r: bool)
        requires
            packet@.len() <= u32::MAX,
        ensures
            r == (packet@.len() > ETH_HEADER_SIZE + IP_HEADER_SIZE + UDP_HEADER_SIZE),
            !r ==> *final(self) == *old(self),
            r ==> {
                &&& final(self).valid
                &&& final(self).umem_offset == umem_offset
                &&& final(self).packet_len == packet@.len()
                &&& final(self).payload_offset == ETH_HEADER_SIZE + IP_HEADER_SIZE
                    + UDP_HEADER_SIZE
                &&& final(self).payload_len == packet@.len() - (ETH_HEADER_SIZE + IP_HEADER_SIZE
                    + UDP_HEADER_SIZE)
                &&& Some(
                    (
                        final(self).src_ip,
                        final(self).src_port,
                        final(self).dst_ip,
                        final(self).dst_port,
                    ),
                ) == spec_parse_addressing(packet@)
                &&& final(self).recv_timestamp_nanos == recv_timestamp_nanos
                &&& final(self).shred_type == shred_type
            },
    {
        let header_size = ETH_HEADER_SIZE + IP_HEADER_SIZE + UDP_HEADER_SIZE;
        if packet.len() <= header_size {
            return false;
        }
        let (src_ip, src_port, dst_ip, dst_port) = match parse_addressing(packet) {
            Some(a) => a,
            None => {
                proof {
                    assert(false);
                }
                return false;
            },
        };
        self.umem_offset = umem_offset;
        self.payload_offset = header_size as u32;
        self.payload_len = (packet.len() - header_size) as u32;
        self.packet_len = packet.len() as u32;
        self.src_ip = src_ip;
        self.src_port = src_port;
        self.dst_ip = dst_ip;
        self.dst_port = dst_port;
        self.recv_timestamp_nanos = recv_timestamp_nanos;
        self.shred_type = shred_type;
        self.valid = true;
        true
    }
}

} // verus!
