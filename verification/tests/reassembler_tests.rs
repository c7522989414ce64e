use xdp_relay::reassembler::AddShredResult;
use xdp_relay::reassembler::SlotState;
use xdp_relay::reassembler::MAX_DATA_SHREDS_PER_SLOT;
use xdp_relay::shred::shred_data;
use xdp_relay::shred::Shred;
use xdp_relay::shred::ShredType;

fn data_shred(slot: u64, index: u32, terminator: bool, payload: Vec<u8>) -> Shred {
    Shred {
        slot,
        index,
        shred_type: ShredType::Data,
        data_complete: terminator,
        last_in_slot: false,
        payload,
    }
}

fn four_shreds(slot: u64) -> Vec<Shred> {
    vec![
        data_shred(slot, 0, false, vec![10, 11]),
        data_shred(slot, 1, false, vec![20]),
        data_shred(slot, 2, false, vec![30, 31, 32]),
        data_shred(slot, 3, true, vec![40]),
    ]
}

const EXPECTED: &[u8] = &[10, 11, 20, 30, 31, 32, 40];

#[test]
fn single_segment_reassemble() {
    let mut st = SlotState::new(100);
    for (k, s) in four_shreds(100).into_iter().enumerate() {
        assert_eq!(st.add_shred(s), AddShredResult::NewlyInserted);
        if k < 3 {
            assert_eq!(st.try_deshred(), None);
        }
    }
    assert_eq!(st.try_deshred(), Some(EXPECTED.to_vec()));
    assert_eq!(st.try_deshred(), None);
}

#[test]
fn out_of_order_identical_emission() {
    let mut st = SlotState::new(100);
    let shreds = four_shreds(100);
    for k in [2usize, 0, 3] {
        assert_eq!(st.add_shred(shreds[k].clone()), AddShredResult::NewlyInserted);
        assert_eq!(st.try_deshred(), None);
    }
    assert_eq!(st.add_shred(shreds[1].clone()), AddShredResult::NewlyInserted);
    assert_eq!(st.try_deshred(), Some(EXPECTED.to_vec()));
}

#[test]
fn gap_blocks_emission_until_filled() {
    let mut st = SlotState::new(7);
    let shreds = four_shreds(7);
    for k in [0usize, 1, 3] {
        st.add_shred(shreds[k].clone());
    }
    assert_eq!(st.try_deshred(), None);
    st.add_shred(shreds[2].clone());
    assert_eq!(st.try_deshred(), Some(EXPECTED.to_vec()));
}

#[test]
fn duplicate_is_reported_and_mask_unchanged() {
    let mut st = SlotState::new(5);
    let s = data_shred(5, 0, false, vec![1, 2, 3]);
    assert_eq!(st.add_shred(s.clone()), AddShredResult::NewlyInserted);
    assert_eq!(st.count_ones(), 1);
    assert_eq!(st.add_shred(s), AddShredResult::Duplicate);
    assert_eq!(st.count_ones(), 1);
    assert_eq!(st.stored_count(), 1);
}

#[test]
fn index_out_of_range_is_rejected() {
    let mut st = SlotState::new(5);
    let s = data_shred(5, 512, false, vec![1]);
    assert_eq!(st.add_shred(s), AddShredResult::IndexOutOfRange);
    assert_eq!(st.count_ones(), 0);
}

fn code_shred(slot: u64, index: u32, payload: Vec<u8>) -> Shred {
    Shred {
        slot,
        index,
        shred_type: ShredType::Code,
        data_complete: false,
        last_in_slot: false,
        payload,
    }
}

#[test]
fn unbounded_capacity_accepts_high_indices() {
    let mut st = SlotState::new_with_capacity(5, MAX_DATA_SHREDS_PER_SLOT);
    assert_eq!(st.capacity(), 32768);
    // indices the compact design rejects are legal here
    assert_eq!(st.add_shred(data_shred(5, 512, false, vec![1])), AddShredResult::NewlyInserted);
    assert_eq!(
        st.add_shred(data_shred(5, 32767, false, vec![2])),
        AddShredResult::NewlyInserted
    );
    assert_eq!(st.add_shred(data_shred(5, 32768, false, vec![3])), AddShredResult::IndexOutOfRange);
    assert_eq!(st.count_ones(), 2);
    // a segment crossing the compact boundary completes
    let mut st2 = SlotState::new_with_capacity(7, MAX_DATA_SHREDS_PER_SLOT);
    for i in 510..=513u32 {
        assert_eq!(
            st2.add_shred(data_shred(7, i, i == 513, vec![i as u8])),
            AddShredResult::NewlyInserted
        );
    }
    // indices 0..510 are still missing: no emission
    assert_eq!(st2.try_deshred(), None);
    for i in 0..510u32 {
        st2.add_shred(data_shred(7, i, false, vec![0]));
    }
    let emitted = st2.try_deshred().expect("segment through index 513");
    assert_eq!(emitted.len(), 510 + 4);
    assert_eq!(&emitted[510..], &[254, 255, 0, 1]);
}

#[test]
fn compact_capacity_is_the_default() {
    let st = SlotState::new(9);
    assert_eq!(st.capacity(), 512);
}

#[test]
fn code_shreds_take_the_separate_path() {
    let mut st = SlotState::new(11);
    // a code shred is recorded, deduplicated by index, and leaves the
    // data bitmap and table untouched
    assert_eq!(st.add_shred(code_shred(11, 0, vec![9, 9])), AddShredResult::NewlyInserted);
    assert_eq!(st.add_shred(code_shred(11, 0, vec![8, 8])), AddShredResult::Duplicate);
    assert_eq!(st.count_ones(), 0);
    assert_eq!(st.stored_count(), 0);
    // a data shred of the same index is not a duplicate of the code shred
    assert_eq!(st.add_shred(data_shred(11, 0, false, vec![1])), AddShredResult::NewlyInserted);
    assert_eq!(st.add_shred(data_shred(11, 1, true, vec![2])), AddShredResult::NewlyInserted);
    // the emitted segment holds only the data payloads
    assert_eq!(st.try_deshred(), Some(vec![1, 2]));
}

#[test]
fn code_shred_index_not_capacity_bounded() {
    let mut st = SlotState::new(11);
    // the append-only code path has no capacity check
    assert_eq!(st.add_shred(code_shred(11, 40000, vec![7])), AddShredResult::NewlyInserted);
    assert_eq!(st.add_shred(code_shred(11, 40000, vec![7])), AddShredResult::Duplicate);
}

#[test]
fn mask_count_matches_stored_entries() {
    let mut st = SlotState::new(9);
    for s in four_shreds(9) {
        st.add_shred(s);
        assert_eq!(st.count_ones(), st.stored_count());
    }
}

#[test]
fn emission_keeps_bits_clears_entries() {
    let mut st = SlotState::new(9);
    for s in four_shreds(9) {
        st.add_shred(s);
    }
    assert!(st.try_deshred().is_some());
    // bits stay set for duplicate detection; entries are consumed
    assert_eq!(st.count_ones(), 4);
    assert_eq!(st.stored_count(), 0);
    assert_eq!(
        st.add_shred(data_shred(9, 0, false, vec![10, 11])),
        AddShredResult::Duplicate
    );
}

#[test]
fn last_processed_advances_past_segment() {
    let mut st = SlotState::new(9);
    assert_eq!(st.last_processed(), 0);
    for s in four_shreds(9) {
        st.add_shred(s);
    }
    assert!(st.try_deshred().is_some());
    assert_eq!(st.last_processed(), 4);
}

#[test]
fn two_segments_emit_in_order() {
    let mut st = SlotState::new(3);
    st.add_shred(data_shred(3, 0, false, vec![1]));
    st.add_shred(data_shred(3, 1, true, vec![2]));
    st.add_shred(data_shred(3, 2, false, vec![3]));
    st.add_shred(data_shred(3, 3, true, vec![4]));
    assert_eq!(st.try_deshred(), Some(vec![1, 2]));
    assert_eq!(st.try_deshred(), Some(vec![3, 4]));
    assert_eq!(st.try_deshred(), None);
}

#[test]
fn stale_terminator_is_discarded_without_emission() {
    let mut st = SlotState::new(3);
    // terminators recorded out of index order: 3 first, then 1
    st.add_shred(data_shred(3, 3, true, vec![4]));
    st.add_shred(data_shred(3, 1, true, vec![2]));
    st.add_shred(data_shred(3, 0, false, vec![1]));
    st.add_shred(data_shred(3, 2, false, vec![3]));
    // first terminator seen is 3: the whole range emits
    assert_eq!(st.try_deshred(), Some(vec![1, 2, 3, 4]));
    // the terminator at 1 is now stale: discarded, nothing emitted
    assert_eq!(st.try_deshred(), None);
    assert_eq!(st.try_deshred(), None);
    assert_eq!(st.last_processed(), 4);
}

#[test]
fn peek_does_not_consume_the_segment() {
    let mut st = SlotState::new(100);
    for s in four_shreds(100) {
        st.add_shred(s);
    }
    // peeking shows the segment without consuming it
    assert_eq!(st.peek_segment(), Some(EXPECTED.to_vec()));
    assert_eq!(st.peek_segment(), Some(EXPECTED.to_vec()));
    assert_eq!(st.stored_count(), 4);
    // consuming emits the same bytes; afterwards nothing is pending
    assert_eq!(st.try_deshred(), Some(EXPECTED.to_vec()));
    assert_eq!(st.peek_segment(), None);
}

#[test]
fn peek_on_gap_returns_nothing() {
    let mut st = SlotState::new(100);
    let shreds = four_shreds(100);
    for k in [0usize, 1, 3] {
        st.add_shred(shreds[k].clone());
    }
    assert_eq!(st.peek_segment(), None);
}

#[test]
fn round_trip_from_reference_data() {
    let data: Vec<u8> = (0u8..200).collect();
    let shreds = shred_data(77, 0, &data, 17);
    let mut st = SlotState::new(77);
    let n = shreds.len();
    for (k, s) in shreds.into_iter().enumerate() {
        assert_eq!(st.add_shred(s), AddShredResult::NewlyInserted);
        if k + 1 < n {
            assert_eq!(st.try_deshred(), None);
        }
    }
    assert_eq!(st.try_deshred(), Some(data));
}

#[test]
fn round_trip_in_scrambled_order() {
    let data: Vec<u8> = (0u8..100).rev().collect();
    let shreds = shred_data(78, 0, &data, 9);
    let mut st = SlotState::new(78);
    let n = shreds.len();
    // feed even indices first, then odd, terminator somewhere in between
    let mut order: Vec<usize> = (0..n).step_by(2).collect();
    order.extend((1..n).step_by(2));
    let mut emitted = None;
    for k in order {
        st.add_shred(shreds[k].clone());
        if let Some(p) = st.try_deshred() {
            emitted = Some(p);
        }
    }
    assert_eq!(emitted, Some(data));
}
