use xdp_relay::packet::classify;
use xdp_relay::packet::ipv4_checksum;
use xdp_relay::packet::rewrite_packet;
use xdp_relay::packet::write_eth_header;
use xdp_relay::packet::write_ip_header;
use xdp_relay::packet::write_udp_header;
use xdp_relay::packet::Ipv4Addr;
use xdp_relay::packet::MacAddress;
use xdp_relay::packet::PacketClass;

#[test]
fn ipv4_checksum_known_value() {
    // a 20-byte header whose checksum is 0xB861; the checksum field
    // itself is ignored by the computation
    let header: [u8; 20] = [
        0x45, 0x00, 0x00, 0x73, 0x00, 0x00, 0x40, 0x00, 0x40, 0x11, 0x00, 0x00, 0xc0, 0xa8,
        0x00, 0x01, 0xc0, 0xa8, 0x00, 0xc7,
    ];
    assert_eq!(ipv4_checksum(&header), 0xB861);
    // with some value already in the checksum field the result is the same
    let mut with_cksum = header;
    with_cksum[10] = 0xb8;
    with_cksum[11] = 0x61;
    assert_eq!(ipv4_checksum(&with_cksum), 0xB861);
}

#[test]
fn classify_short_packet() {
    let p = vec![0u8; 60];
    assert_eq!(classify(&p), PacketClass::TooShort);
    // exactly one byte below the threshold of 14 + 20 + 8 + 400
    let p = vec![17u8; 441];
    assert_eq!(classify(&p), PacketClass::TooShort);
}

#[test]
fn classify_non_udp() {
    let mut p = vec![0u8; 1500];
    p[23] = 6;  // TCP
    assert_eq!(classify(&p), PacketClass::NotUdp);
}

#[test]
fn classify_udp() {
    let mut p = vec![0u8; 442];
    p[23] = 17;
    assert_eq!(classify(&p), PacketClass::Udp);
}

#[test]
fn eth_header_bytes() {
    let mut frame = vec![0xEEu8; 20];
    let src = MacAddress([1, 2, 3, 4, 5, 6]);
    let dst = MacAddress([0xaa, 0xbb, 0xcc, 0xdd, 0xee, 0x01]);
    write_eth_header(&mut frame, &src, &dst);
    assert_eq!(&frame[0..6], &[0xaa, 0xbb, 0xcc, 0xdd, 0xee, 0x01]);
    assert_eq!(&frame[6..12], &[1, 2, 3, 4, 5, 6]);
    assert_eq!(&frame[12..14], &[0x08, 0x00]);
    assert_eq!(&frame[14..20], &[0xEE; 6]);
}

#[test]
fn ip_header_bytes_and_checksum() {
    let mut frame = vec![0u8; 60];
    let src = Ipv4Addr([10, 0, 0, 1]);
    let dst = Ipv4Addr([10, 0, 0, 9]);
    write_ip_header(&mut frame, 100, &src, &dst);
    assert_eq!(frame[14], 0x45);
    assert_eq!(frame[15], 0x00);
    // total length 20 + 100 = 120, big-endian
    assert_eq!(&frame[16..18], &[0x00, 120]);
    assert_eq!(frame[22], 64);
    assert_eq!(frame[23], 17);
    assert_eq!(&frame[26..30], &[10, 0, 0, 1]);
    assert_eq!(&frame[30..34], &[10, 0, 0, 9]);
    // the written checksum is the checksum of the written header
    let written = u16::from_be_bytes([frame[24], frame[25]]);
    assert_eq!(written, ipv4_checksum(&frame[14..34]));
}

#[test]
fn udp_header_bytes() {
    let mut frame = vec![0u8; 60];
    write_udp_header(&mut frame, 12345, 9000, 1458);
    assert_eq!(&frame[34..36], &12345u16.to_be_bytes());
    assert_eq!(&frame[36..38], &9000u16.to_be_bytes());
    // length = 8 + 1458 = 1466
    assert_eq!(&frame[38..40], &1466u16.to_be_bytes());
    assert_eq!(&frame[40..42], &[0, 0]);
}

#[test]
fn rewrite_preserves_payload() {
    let mut frame: Vec<u8> = (0..=255u8).cycle().take(1500).collect();
    let original = frame.clone();
    let src_mac = MacAddress([2, 2, 2, 2, 2, 2]);
    let dst_mac = MacAddress([0xaa, 0xbb, 0xcc, 0xdd, 0xee, 0x01]);
    let src_ip = Ipv4Addr([10, 0, 0, 2]);
    let dst_ip = Ipv4Addr([10, 0, 0, 9]);
    rewrite_packet(&mut frame, 1500, &src_mac, &dst_mac, &src_ip, &dst_ip, 12345, 9000);
    assert_eq!(frame.len(), 1500);
    assert_eq!(&frame[0..6], &dst_mac.0);
    assert_eq!(&frame[6..12], &src_mac.0);
    // IP total length 1500 - 14 = 1486
    assert_eq!(&frame[16..18], &1486u16.to_be_bytes());
    // UDP length 1500 - 34 = 1466
    assert_eq!(&frame[38..40], &1466u16.to_be_bytes());
    // payload bytes untouched
    assert_eq!(&frame[42..], &original[42..]);
}
