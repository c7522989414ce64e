//! Ethernet/IPv4/UDP wire format.
//!
//! The relay rewrites packet headers in place when forwarding: L2
//! destination and source MAC, L3 addresses, length and header checksum,
//! L4 ports and length. The UDP checksum is written as zero, which IPv4
//! permits. This module pins the exact bytes written and the IPv4 header
//! checksum — the one's complement of the one's complement sum of the
//! header's 16-bit words — and classifies incoming packets the way the
//! relay loop filters them.

use vstd::prelude::*;

use crate::ETH_HEADER_SIZE;
use crate::IP_HEADER_SIZE;
use crate::UDP_HEADER_SIZE;

verus! {

/// Packets shorter than the headers plus this threshold are dropped
/// without parsing: shreds of interest are larger, and smaller UDP
/// traffic (votes and the like) is not worth forwarding.
pub const VOTE_SIZE_THRESHOLD: usize = 400;

/// Byte offset of the IPv4 protocol field within a packet: nine bytes
/// into the IP header.
pub const IP_PROTOCOL_OFFSET: usize = 23;

/// The IPv4 protocol number of UDP.
pub const IPPROTO_UDP: u8 = 17;

/// An Ethernet MAC address.
#[derive(Clone, Copy, Debug, PartialEq, Eq)]
pub struct MacAddress(pub [u8; 6]);

/// An IPv4 address, network byte order.
#[derive(Clone, Copy, Debug, PartialEq, Eq)]
pub struct Ipv4Addr(pub [u8; 4]);

/// How the relay classifies one received packet.
#[derive(Clone, Copy, Debug, PartialEq, Eq, Structural)]
pub enum PacketClass {
    /// Shorter than Ethernet + IPv4 + UDP headers plus the size
    /// threshold: returned to the fill ring unread.
    TooShort,
    /// The IPv4 protocol field is not UDP: returned to the fill ring.
    NotUdp,
    /// A UDP packet long enough to be of interest.
    Udp,
}

/// The relay's packet filter: reject short packets, then anything that
/// is not UDP.
pub open spec fn spec_classify(p: Seq<u8>) -> PacketClass {
    if p.len() < ETH_HEADER_SIZE + IP_HEADER_SIZE + UDP_HEADER_SIZE + VOTE_SIZE_THRESHOLD {
        PacketClass::TooShort
    } else if p[IP_PROTOCOL_OFFSET as int] != IPPROTO_UDP {
        PacketClass::NotUdp
    } else {
        PacketClass::Udp
    }
}

/// Classifies a received packet as the relay loop filters it.
pub fn classify(p: &[u8]) -> (r: PacketClass)
    ensures
        r == spec_classify(p@),
{
    if p.len() < ETH_HEADER_SIZE + IP_HEADER_SIZE + UDP_HEADER_SIZE + VOTE_SIZE_THRESHOLD {
        PacketClass::TooShort
    } else if p[IP_PROTOCOL_OFFSET] != IPPROTO_UDP {
        PacketClass::NotUdp
    } else {
        PacketClass::Udp
    }
}

/// A 16-bit big-endian word from two bytes.
pub open spec fn be16(hi: u8, lo: u8) -> int {
    hi * 256 + lo
}

/// Sum of the first `n` 16-bit words of an IPv4 header, with the
/// checksum field (the sixth word, bytes 10 and 11) counted as zero.
pub open spec fn header_word_sum(h: Seq<u8>, n: int) -> int
    decreases n,
{
    if n <= 0 {
        0
    } else {
        header_word_sum(h, n - 1) + if n - 1 == 5 {
            0
        } else {
            be16(h[2 * (n - 1)], h[2 * (n - 1) + 1])
        }
    }
}

/// One step of end-around carry folding: the low 16 bits plus the
/// carries above them.
pub open spec fn fold16(s: int) -> int {
    s % 0x10000 + s / 0x10000
}

/// The IPv4 header checksum of a 20-byte header: the one's complement
/// of the one's complement sum of its ten 16-bit words, the checksum
/// field itself counted as zero.
pub open spec fn spec_ipv4_checksum(h: Seq<u8>) -> int {
    0xFFFF - fold16(fold16(header_word_sum(h, 10)))
}

/// The word sum ignores the checksum field, so two headers that agree
/// everywhere but there have the same sum.
proof fn lemma_word_sum_ignores_checksum_field(h1: Seq<u8>, h2: Seq<u8>, n: int)
    requires
        forall|i: int| 0 <= i < 2 * n && i != 10 && i != 11 ==> h1[i] == h2[i],
    ensures
        header_word_sum(h1, n) == header_word_sum(h2, n),
    decreases n,
{
    if n > 0 {
        lemma_word_sum_ignores_checksum_field(h1, h2, n - 1);
    }
}

/// Computes the IPv4 header checksum over a 20-byte header. The value
/// already present in the checksum field is ignored.
pub fn ipv4_checksum(header: &[u8]) -> (r: u16)
    requires
        header@.len() >= IP_HEADER_SIZE,
    ensures
        r == spec_ipv4_checksum(header@),
{
    let mut sum: u32 = 0;
    let mut w: usize = 0;
    while w < 10
        invariant
            header@.len() >= IP_HEADER_SIZE,
            w <= 10,
            sum == header_word_sum(header@, w as int),
            sum <= w * 0xFFFF,
        decreases 10 - w,
    {
        if w != 5 {
            let hi = header[2 * w];
            let lo = header[2 * w + 1];
            sum = sum + (hi as u32) * 256 + (lo as u32);
        }
        w = w + 1;
    }
    let s1 = sum % 0x10000 + sum / 0x10000;
    let s2 = s1 % 0x10000 + s1 / 0x10000;
    proof {
        assert(s2 <= 0xFFFF);
    }
    0xFFFF - (s2 as u16)
}

/// Writes the Ethernet header at the start of the frame: destination
/// MAC, source MAC, and the IPv4 ethertype. Bytes past the header are
/// untouched.
pub fn write_eth_header(frame: &mut Vec<u8>, src_mac: &MacAddress, dst_mac: &MacAddress)
    requires
        old(frame)@.len() >= ETH_HEADER_SIZE,
    ensures
        final(frame)@.len() == old(frame)@.len(),
        forall|i: int| 0 <= i < 6 ==> final(frame)@[i] == dst_mac.0@[i],
        forall|i: int| 6 <= i < 12 ==> final(frame)@[i] == src_mac.0@[i - 6],
        final(frame)@[12] == 0x08u8,
        final(frame)@[13] == 0x00u8,
        forall|i: int| ETH_HEADER_SIZE <= i < old(frame)@.len() ==> final(frame)@[i] == old(frame)@[i],
{
    let mut i: usize = 0;
    while i < 6
        invariant
            frame@.len() == old(frame)@.len() >= ETH_HEADER_SIZE,
            i <= 6,
            forall|j: int| 0 <= j < i ==> frame@[j] == dst_mac.0@[j],
            forall|j: int| i <= j < old(frame)@.len() ==> frame@[j] == old(frame)@[j],
        decreases 6 - i,
    {
        frame.set(i, dst_mac.0[i]);
        i = i + 1;
    }
    let mut i: usize = 0;
    while i < 6
        invariant
            frame@.len() == old(frame)@.len() >= ETH_HEADER_SIZE,
            i <= 6,
            forall|j: int| 0 <= j < 6 ==> frame@[j] == dst_mac.0@[j],
            forall|j: int| 6 <= j < 6 + i ==> frame@[j] == src_mac.0@[j - 6],
            forall|j: int| 6 + i <= j < old(frame)@.len() ==> frame@[j] == old(frame)@[j],
        decreases 6 - i,
    {
        frame.set(6 + i, src_mac.0[i]);
        i = i + 1;
    }
    frame.set(12, 0x08);
    frame.set(13, 0x00);
}

/// Writes the IPv4 header at its place in the frame (after the Ethernet
/// header): version and header length, zero DSCP, the total length for
/// an `l4_len`-byte payload, zero identification and fragmentation, a
/// fixed time-to-live, the UDP protocol number, the header checksum,
/// and the source and destination addresses. Bytes outside the IP
/// header are untouched.
pub fn write_ip_header(frame: &mut Vec<u8>, l4_len: u16, src_ip: &Ipv4Addr, dst_ip: &Ipv4Addr)
    requires
        old(frame)@.len() >= ETH_HEADER_SIZE + IP_HEADER_SIZE,
        l4_len + IP_HEADER_SIZE <= u16::MAX,
    ensures
        final(frame)@.len() == old(frame)@.len(),
        forall|i: int| 0 <= i < ETH_HEADER_SIZE ==> final(frame)@[i] == old(frame)@[i],
        final(frame)@[14] == 0x45u8,
        final(frame)@[15] == 0x00u8,
        be16(final(frame)@[16], final(frame)@[17]) == IP_HEADER_SIZE + l4_len,
        final(frame)@[18] == 0x00u8,
        final(frame)@[19] == 0x00u8,
        final(frame)@[20] == 0x00u8,
        final(frame)@[21] == 0x00u8,
        final(frame)@[22] == 64u8,
        final(frame)@[23] == IPPROTO_UDP,
        be16(final(frame)@[24], final(frame)@[25]) == spec_ipv4_checksum(
            final(frame)@.subrange(ETH_HEADER_SIZE as int, (ETH_HEADER_SIZE + IP_HEADER_SIZE) as int),
        ),
        forall|i: int| 26 <= i < 30 ==> final(frame)@[i] == src_ip.0@[i - 26],
        forall|i: int| 30 <= i < 34 ==> final(frame)@[i] == dst_ip.0@[i - 30],
        forall|i: int| ETH_HEADER_SIZE + IP_HEADER_SIZE <= i < old(frame)@.len() ==> final(frame)@[i] == old(frame)@[i],
{
    let total_len: u16 = IP_HEADER_SIZE as u16 + l4_len;
    frame.set(14, 0x45);
    frame.set(15, 0x00);
    frame.set(16, (total_len / 256) as u8);
    frame.set(17, (total_len % 256) as u8);
    frame.set(18, 0x00);
    frame.set(19, 0x00);
    frame.set(20, 0x00);
    frame.set(21, 0x00);
    frame.set(22, 64);
    frame.set(23, IPPROTO_UDP);
    frame.set(24, 0x00);
    frame.set(25, 0x00);
    frame.set(26, src_ip.0[0]);
    frame.set(27, src_ip.0[1]);
    frame.set(28, src_ip.0[2]);
    frame.set(29, src_ip.0[3]);
    frame.set(30, dst_ip.0[0]);
    frame.set(31, dst_ip.0[1]);
    frame.set(32, dst_ip.0[2]);
    frame.set(33, dst_ip.0[3]);
    let ghost before = frame@;
    let checksum = ipv4_checksum(vstd::slice::slice_subrange(
        frame.as_slice(),
        ETH_HEADER_SIZE,
        ETH_HEADER_SIZE + IP_HEADER_SIZE,
    ));
    frame.set(24, (checksum / 256) as u8);
    frame.set(25, (checksum % 256) as u8);
    proof {
        let eth = ETH_HEADER_SIZE as int;
        let sub_before = before.subrange(eth, eth + IP_HEADER_SIZE);
        let sub_after = frame@.subrange(eth, eth + IP_HEADER_SIZE);
        lemma_word_sum_ignores_checksum_field(sub_after, sub_before, 10);
        assert(spec_ipv4_checksum(sub_after) == spec_ipv4_checksum(sub_before));
        assert(be16(frame@[24], frame@[25]) == checksum);
    }
}

/// Writes the UDP header at its place in the frame (after the Ethernet
/// and IPv4 headers): source and destination port, the length of header
/// plus payload, and a zero checksum, which IPv4 permits. Bytes outside
/// the UDP header are untouched.
pub fn write_udp_header(frame: &mut Vec<u8>, src_port: u16, dst_port: u16, payload_len: u16)
    requires
        old(frame)@.len() >= ETH_HEADER_SIZE + IP_HEADER_SIZE + UDP_HEADER_SIZE,
        payload_len + UDP_HEADER_SIZE <= u16::MAX,
    ensures
        final(frame)@.len() == old(frame)@.len(),
        forall|i: int|
            0 <= i < ETH_HEADER_SIZE + IP_HEADER_SIZE ==> final(frame)@[i] == old(frame)@[i],
        be16(final(frame)@[34], final(frame)@[35]) == src_port,
        be16(final(frame)@[36], final(frame)@[37]) == dst_port,
        be16(final(frame)@[38], final(frame)@[39]) == UDP_HEADER_SIZE + payload_len,
        final(frame)@[40] == 0x00u8,
        final(frame)@[41] == 0x00u8,
        forall|i: int|
            ETH_HEADER_SIZE + IP_HEADER_SIZE + UDP_HEADER_SIZE <= i < old(frame)@.len()
                ==> final(frame)@[i] == old(frame)@[i],
{
    let udp_len: u16 = UDP_HEADER_SIZE as u16 + payload_len;
    frame.set(34, (src_port / 256) as u8);
    frame.set(35, (src_port % 256) as u8);
    frame.set(36, (dst_port / 256) as u8);
    frame.set(37, (dst_port % 256) as u8);
    frame.set(38, (udp_len / 256) as u8);
    frame.set(39, (udp_len % 256) as u8);
    frame.set(40, 0x00);
    frame.set(41, 0x00);
}

/// What a frame must look like after the relay rewrote it for
/// forwarding a packet of `packet_len` bytes: the three headers carry
/// the relay's addresses and the derived lengths, the checksum matches
/// the IPv4 header, and every byte from the UDP payload on — the
/// payload itself included — is as it was.
pub open spec fn rewritten(
    f: Seq<u8>,
    orig: Seq<u8>,
    packet_len: int,
    src_mac: MacAddress,
    dst_mac: MacAddress,
    src_ip: Ipv4Addr,
    dst_ip: Ipv4Addr,
    src_port: u16,
    dst_port: u16,
) -> bool {
    &&& f.len() == orig.len()
    &&& forall|i: int| 0 <= i < 6 ==> f[i] == dst_mac.0@[i]
    &&& forall|i: int| 6 <= i < 12 ==> f[i] == src_mac.0@[i - 6]
    &&& f[12] == 0x08u8
    &&& f[13] == 0x00u8
    &&& f[14] == 0x45u8
    &&& be16(f[16], f[17]) == packet_len - ETH_HEADER_SIZE
    &&& f[22] == 64u8
    &&& f[23] == IPPROTO_UDP
    &&& be16(f[24], f[25]) == spec_ipv4_checksum(
        f.subrange(ETH_HEADER_SIZE as int, (ETH_HEADER_SIZE + IP_HEADER_SIZE) as int),
    )
    &&& forall|i: int| 26 <= i < 30 ==> f[i] == src_ip.0@[i - 26]
    &&& forall|i: int| 30 <= i < 34 ==> f[i] == dst_ip.0@[i - 30]
    &&& be16(f[34], f[35]) == src_port
    &&& be16(f[36], f[37]) == dst_port
    &&& be16(f[38], f[39]) == packet_len - ETH_HEADER_SIZE - IP_HEADER_SIZE
    &&& f[40] == 0x00u8
    &&& f[41] == 0x00u8
    &&& forall|i: int|
        ETH_HEADER_SIZE + IP_HEADER_SIZE + UDP_HEADER_SIZE <= i < orig.len() ==> f[i] == orig[i]
}

/// Rewrites a received packet in place for zero-copy forwarding: new L2
/// addresses, new L3 addresses with recomputed length and checksum, new
/// L4 ports and length with a zero UDP checksum. The UDP payload bytes
/// are not touched.
pub fn rewrite_packet(
    frame: &mut Vec<u8>,
    packet_len: usize,
    src_mac: &MacAddress,
    dst_mac: &MacAddress,
    src_ip: &Ipv4Addr,
    dst_ip: &Ipv4Addr,
    src_port: u16,
    dst_port: u16,
)
    requires
        ETH_HEADER_SIZE + IP_HEADER_SIZE + UDP_HEADER_SIZE <= packet_len <= old(frame)@.len(),
        packet_len - ETH_HEADER_SIZE <= u16::MAX,
    ensures
        rewritten(
            final(frame)@,
            old(frame)@,
            packet_len as int,
            *src_mac,
            *dst_mac,
            *src_ip,
            *dst_ip,
            src_port,
            dst_port,
        ),
{
    let payload_len: u16 = (packet_len - (ETH_HEADER_SIZE + IP_HEADER_SIZE + UDP_HEADER_SIZE))
        as u16;
    write_eth_header(frame, src_mac, dst_mac);
    write_ip_header(frame, UDP_HEADER_SIZE as u16 + payload_len, src_ip, dst_ip);
    let ghost after_ip = frame@;
    write_udp_header(frame, src_port, dst_port, payload_len);
    proof {
        let eth = ETH_HEADER_SIZE as int;
        assert(frame@.subrange(eth, eth + IP_HEADER_SIZE) =~= after_ip.subrange(
            eth,
            eth + IP_HEADER_SIZE,
        ));
    }
}

} // verus!
