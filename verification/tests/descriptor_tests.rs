use xdp_relay::descriptor::parse_addressing;
use xdp_relay::descriptor::PacketDescriptor;
use xdp_relay::packet::Ipv4Addr;
use xdp_relay::shred::ShredType;

fn udp_packet(len: usize) -> Vec<u8> {
    let mut p = vec![0u8; len];
    p[23] = 17;
    p[26..30].copy_from_slice(&[10, 0, 0, 1]);
    p[30..34].copy_from_slice(&[10, 0, 0, 2]);
    p[34..36].copy_from_slice(&1000u16.to_be_bytes());
    p[36..38].copy_from_slice(&8001u16.to_be_bytes());
    p
}

#[test]
fn parse_addressing_reads_headers() {
    let p = udp_packet(100);
    let (src_ip, src_port, dst_ip, dst_port) = parse_addressing(&p).expect("long enough");
    assert_eq!(src_ip, Ipv4Addr([10, 0, 0, 1]));
    assert_eq!(src_port, 1000);
    assert_eq!(dst_ip, Ipv4Addr([10, 0, 0, 2]));
    assert_eq!(dst_port, 8001);
    // one byte short of the UDP header end
    assert!(parse_addressing(&p[..41]).is_none());
}

#[test]
fn descriptor_set_and_reset() {
    let p = udp_packet(100);
    let mut d = PacketDescriptor::factory();
    assert!(!d.valid);
    assert!(d.set_from_umem(4096, &p, 7_000_000, Some(ShredType::Data)));
    assert!(d.valid);
    assert_eq!(d.umem_offset, 4096);
    assert_eq!(d.packet_len, 100);
    assert_eq!(d.payload_offset, 42);
    assert_eq!(d.payload_len, 58);
    assert_eq!(d.src_port, 1000);
    assert_eq!(d.dst_port, 8001);
    assert_eq!(d.shred_type, Some(ShredType::Data));
    d.reset();
    assert!(!d.valid);
    assert_eq!(d.shred_type, None);
    // too short to carry a payload: rejected, entry untouched
    let mut e = PacketDescriptor::factory();
    assert!(!e.set_from_umem(0, &p[..42], 0, None));
    assert!(!e.valid);
}
