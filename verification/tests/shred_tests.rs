use xdp_relay::shred::extract_fec_set_index;
use xdp_relay::shred::extract_index;
use xdp_relay::shred::extract_slot_fast;
use xdp_relay::shred::extract_version;
use xdp_relay::shred::parse_shred_type;
use xdp_relay::shred::prescan_packet;
use xdp_relay::shred::shred_data;
use xdp_relay::shred::ShredStats;
use xdp_relay::shred::ShredType;
use xdp_relay::shred::SHRED_HEADER_LEN;

fn shred_bytes(variant: u8, slot: u64, index: u32) -> Vec<u8> {
    let mut b = vec![0u8; SHRED_HEADER_LEN];
    b[64] = variant;
    b[65..73].copy_from_slice(&slot.to_le_bytes());
    b[73..77].copy_from_slice(&index.to_le_bytes());
    b
}

#[test]
fn parse_shred_type_data_variants() {
    for v in [0x80u8, 0x84, 0x90, 0x9f, 0xB0, 0xBF] {
        let b = shred_bytes(v, 1, 0);
        assert_eq!(parse_shred_type(&b), Some(ShredType::Data), "variant {v:#x}");
    }
}

#[test]
fn parse_shred_type_code_variants() {
    for v in [0x40u8, 0x4a, 0x60, 0x6f, 0x70, 0x7f] {
        let b = shred_bytes(v, 1, 0);
        assert_eq!(parse_shred_type(&b), Some(ShredType::Code), "variant {v:#x}");
    }
}

#[test]
fn parse_shred_type_rejects_legacy_and_invalid() {
    for v in [0x00u8, 0x10, 0x20, 0x30, 0x50, 0x5a, 0xa5, 0xA0, 0xC0, 0xD0, 0xE0, 0xF0] {
        let b = shred_bytes(v, 1, 0);
        assert_eq!(parse_shred_type(&b), None, "variant {v:#x}");
    }
}

#[test]
fn parse_shred_type_rejects_short_input() {
    let b = vec![0x80u8; SHRED_HEADER_LEN - 1];
    assert_eq!(parse_shred_type(&b), None);
    assert_eq!(parse_shred_type(&[]), None);
}

#[test]
fn extract_slot_reads_little_endian_u64() {
    let b = shred_bytes(0x80, 0x1122334455667788, 7);
    assert_eq!(extract_slot_fast(&b), Some(0x1122334455667788));
    let short = vec![0u8; 72];
    assert_eq!(extract_slot_fast(&short), None);
    // exactly 73 bytes is enough for the slot field
    let mut just = vec![0u8; 73];
    just[65..73].copy_from_slice(&12345u64.to_le_bytes());
    assert_eq!(extract_slot_fast(&just), Some(12345));
}

#[test]
fn extract_index_reads_little_endian_u32() {
    let b = shred_bytes(0x80, 5, 0xDEADBEEF);
    assert_eq!(extract_index(&b), Some(0xDEADBEEF));
    let short = vec![0u8; 76];
    assert_eq!(extract_index(&short), None);
}

#[test]
fn extract_version_and_fec_set_index() {
    let mut b = shred_bytes(0x80, 5, 7);
    b[77..79].copy_from_slice(&0xBEEFu16.to_le_bytes());
    b[79..83].copy_from_slice(&0xCAFE1234u32.to_le_bytes());
    assert_eq!(extract_version(&b), Some(0xBEEF));
    assert_eq!(extract_fec_set_index(&b), Some(0xCAFE1234));
    assert_eq!(extract_version(&b[..78]), None);
    assert_eq!(extract_fec_set_index(&b[..82]), None);
}

#[test]
fn prescan_counts_received_and_errors() {
    let mut stats = ShredStats::new();
    let data = shred_bytes(0x80, 1, 0);
    let code = shred_bytes(0x40, 1, 0);
    let junk = vec![0u8; 10];
    assert_eq!(prescan_packet(&mut stats, &data), Some(ShredType::Data));
    assert_eq!(prescan_packet(&mut stats, &code), Some(ShredType::Code));
    assert_eq!(prescan_packet(&mut stats, &junk), None);
    assert_eq!(stats.received, 3);
    assert_eq!(stats.errors, 1);
    assert_eq!(stats.decoded, 0);
}

#[test]
fn stats_record_decoded_by_class() {
    let mut stats = ShredStats::new();
    stats.record_decoded(ShredType::Data);
    stats.record_decoded(ShredType::Data);
    stats.record_decoded(ShredType::Code);
    stats.record_decode_error();
    stats.record_code_drop();
    assert_eq!(stats.decoded, 3);
    assert_eq!(stats.data_shreds, 2);
    assert_eq!(stats.code_shreds, 1);
    assert_eq!(stats.errors, 1);
    assert_eq!(stats.code_drops, 1);
}

#[test]
fn shred_data_splits_into_chunks() {
    let data: Vec<u8> = (0u8..=9).collect();
    let shreds = shred_data(42, 0, &data, 4);
    assert_eq!(shreds.len(), 3);
    assert_eq!(shreds[0].payload, vec![0, 1, 2, 3]);
    assert_eq!(shreds[1].payload, vec![4, 5, 6, 7]);
    assert_eq!(shreds[2].payload, vec![8, 9]);
    for (k, s) in shreds.iter().enumerate() {
        assert_eq!(s.slot, 42);
        assert_eq!(s.index, k as u32);
        assert_eq!(s.shred_type, ShredType::Data);
        assert_eq!(s.data_complete, k == 2);
        assert!(!s.last_in_slot);
    }
}
