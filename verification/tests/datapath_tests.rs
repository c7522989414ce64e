use xdp_relay::datapath::Datapath;
use xdp_relay::datapath::ForwardConfig;
use xdp_relay::datapath::RxAction;
use xdp_relay::datapath::RxStats;
use xdp_relay::packet::Ipv4Addr;
use xdp_relay::packet::MacAddress;
use xdp_relay::packet::PacketClass;
use xdp_relay::ring::Ring;
use xdp_relay::ring::RingDesc;
use xdp_relay::umem::UmemArena;

const SRC_MAC: MacAddress = MacAddress([2, 0, 0, 0, 0, 1]);
const SRC_IP: Ipv4Addr = Ipv4Addr([10, 0, 0, 2]);

fn forwarding_datapath() -> Datapath {
    let forward = ForwardConfig {
        dest_mac: MacAddress([0xaa, 0xbb, 0xcc, 0xdd, 0xee, 0x01]),
        dest_ip: Ipv4Addr([10, 0, 0, 9]),
        dest_port: 9000,
    };
    let mut d = Datapath::new(2048, 8, 4, 4, 8, SRC_MAC, SRC_IP, Some(forward));
    d.refill();
    d
}

fn udp_packet_1500() -> Vec<u8> {
    let mut p: Vec<u8> = (0..=255u8).cycle().take(1500).collect();
    // ethernet: source 10.0.0.1 -> destination 10.0.0.2
    p[12] = 0x08;
    p[13] = 0x00;
    p[14] = 0x45;
    p[23] = 17;
    p[26..30].copy_from_slice(&[10, 0, 0, 1]);
    p[30..34].copy_from_slice(&[10, 0, 0, 2]);
    p[34..36].copy_from_slice(&1000u16.to_be_bytes());
    p[36..38].copy_from_slice(&8001u16.to_be_bytes());
    p
}

fn total_frames(d: &Datapath) -> usize {
    d.free_frames() + d.fill_len() + d.rx_len() + d.tx_len() + d.completion_len()
}

#[test]
fn happy_forward() {
    let mut d = forwarding_datapath();
    let p = udp_packet_1500();
    assert!(d.kernel_deliver(&p));
    let r = d.handle_rx_packet();
    assert_eq!(r, Some((PacketClass::Udp, RxAction::Forwarded)));
    assert_eq!(d.packets_received, 1);
    assert_eq!(d.tx_len(), 1);
    let sent = d.kernel_transmit().expect("one TX descriptor");
    assert_eq!(sent.len(), 1500);
    // rewritten L2: destination and source MAC
    assert_eq!(&sent[0..6], &[0xaa, 0xbb, 0xcc, 0xdd, 0xee, 0x01]);
    assert_eq!(&sent[6..12], &SRC_MAC.0);
    // rewritten L3: source and destination address
    assert_eq!(&sent[26..30], &SRC_IP.0);
    assert_eq!(&sent[30..34], &[10, 0, 0, 9]);
    // rewritten L4: ports
    assert_eq!(&sent[34..36], &12345u16.to_be_bytes());
    assert_eq!(&sent[36..38], &9000u16.to_be_bytes());
    // UDP payload bytes unchanged
    assert_eq!(&sent[42..], &p[42..]);
    // frame now waits on the completion ring; a completions pass frees it
    assert_eq!(d.completion_len(), 1);
    d.process_completions();
    assert_eq!(d.completion_len(), 0);
    assert_eq!(total_frames(&d), 16);
}

#[test]
fn short_packet_drop() {
    let mut d = forwarding_datapath();
    let fill_before = d.fill_len();
    let p = vec![0u8; 60];
    assert!(d.kernel_deliver(&p));
    assert_eq!(d.fill_len(), fill_before - 1);
    let r = d.handle_rx_packet();
    assert_eq!(r, Some((PacketClass::TooShort, RxAction::ReturnedToFill)));
    // no TX; frame returned to the fill ring
    assert_eq!(d.tx_len(), 0);
    assert_eq!(d.fill_len(), fill_before);
    assert_eq!(d.kernel_transmit(), None);
}

#[test]
fn non_udp_packet_goes_back_to_fill() {
    let mut d = forwarding_datapath();
    let mut p = udp_packet_1500();
    p[23] = 6;  // TCP
    assert!(d.kernel_deliver(&p));
    let r = d.handle_rx_packet();
    assert_eq!(r, Some((PacketClass::NotUdp, RxAction::ReturnedToFill)));
    assert_eq!(d.tx_len(), 0);
    assert_eq!(d.kernel_transmit(), None);
}

#[test]
fn no_forward_config_returns_to_fill() {
    let mut d = Datapath::new(2048, 8, 4, 4, 8, SRC_MAC, SRC_IP, None);
    d.refill();
    let p = udp_packet_1500();
    assert!(d.kernel_deliver(&p));
    let r = d.handle_rx_packet();
    assert_eq!(r, Some((PacketClass::Udp, RxAction::ReturnedToFill)));
    assert_eq!(d.tx_len(), 0);
}

#[test]
fn frame_conservation_through_a_cycle() {
    let mut d = forwarding_datapath();
    assert_eq!(total_frames(&d), 16);
    let p = udp_packet_1500();
    assert!(d.kernel_deliver(&p));
    assert_eq!(total_frames(&d), 16);
    d.handle_rx_packet();
    assert_eq!(total_frames(&d), 16);
    d.kernel_transmit();
    assert_eq!(total_frames(&d), 16);
    d.process_completions();
    assert_eq!(total_frames(&d), 16);
    d.refill();
    assert_eq!(total_frames(&d), 16);
}

#[test]
fn relay_iteration_handles_batch() {
    let mut d = forwarding_datapath();
    let p = udp_packet_1500();
    assert!(d.kernel_deliver(&p));
    assert!(d.kernel_deliver(&p));
    let processed = d.relay_iteration(32);
    assert_eq!(processed, 2);
    assert_eq!(d.rx_len(), 0);
    assert_eq!(d.tx_len(), 2);
    // the fill ring was replenished from the pool
    assert_eq!(d.fill_len(), 8);
}

#[test]
fn handle_rx_on_empty_ring_returns_none() {
    let mut d = forwarding_datapath();
    assert_eq!(d.handle_rx_packet(), None);
    assert_eq!(d.packets_received, 0);
}

#[test]
fn rx_drain_counts_packets_and_bytes() {
    let mut d = Datapath::new(2048, 8, 4, 4, 8, SRC_MAC, SRC_IP, None);
    d.refill();
    let p1 = vec![1u8; 100];
    let p2 = vec![2u8; 250];
    assert!(d.kernel_deliver(&p1));
    assert!(d.kernel_deliver(&p2));
    let mut stats = RxStats::new();
    d.rx_drain(&mut stats);
    assert_eq!(stats.rx_packets, 2);
    assert_eq!(stats.rx_bytes, 350);
    assert_eq!(d.rx_len(), 0);
}

#[test]
fn ring_fifo_and_capacity() {
    let mut r = Ring::new(4);
    assert_eq!(r.capacity(), 4);
    assert_eq!(r.readable(), 0);
    assert_eq!(r.read(), None);
    for k in 0..4u64 {
        assert!(r.write(RingDesc { addr: k, len: k as u32, options: 0 }).is_ok());
    }
    assert_eq!(r.available(), 0);
    assert!(r.write(RingDesc { addr: 9, len: 9, options: 0 }).is_err());
    for k in 0..4u64 {
        let d = r.read().expect("pending descriptor");
        assert_eq!(d.addr, k);
        assert_eq!(d.len, k as u32);
    }
    assert_eq!(r.read(), None);
    // wraps around: reusable after draining
    assert!(r.write(RingDesc { addr: 7, len: 7, options: 0 }).is_ok());
    assert_eq!(r.read().unwrap().addr, 7);
}

#[test]
fn umem_reserve_release_lifo() {
    let mut u = UmemArena::new(4096, 4);
    assert_eq!(u.available(), 4);
    assert_eq!(u.frame_size(), 4096);
    assert_eq!(u.frame_count(), 4);
    // a stack: the last frame pushed at creation comes out first
    let first = u.reserve().expect("a free frame");
    assert_eq!(first, 3 * 4096);
    assert_eq!(u.available(), 3);
    u.release(first);
    assert_eq!(u.available(), 4);
    assert_eq!(u.reserve(), Some(first));
    let mut seen = vec![];
    while let Some(o) = u.reserve() {
        seen.push(o);
    }
    assert_eq!(seen, vec![2 * 4096, 4096, 0]);
    assert_eq!(u.available(), 0);
    assert_eq!(u.reserve(), None);
}
