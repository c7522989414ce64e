use xdp_relay::shred::Shred;
use xdp_relay::shred::ShredType;
use xdp_relay::window::DeshredManager;
use xdp_relay::window::DeshredManagerLocal;
use xdp_relay::window::DeshredManagerSharded;

fn data_shred(slot: u64, index: u32, terminator: bool, payload: Vec<u8>) -> Shred {
    Shred {
        slot,
        index,
        shred_type: ShredType::Data,
        data_complete: terminator,
        last_in_slot: false,
        payload,
    }
}

#[test]
fn window_emits_complete_segment() {
    let mut m = DeshredManagerLocal::new();
    assert_eq!(m.add_shred(data_shred(100, 0, false, vec![1, 2])), None);
    assert_eq!(m.add_shred(data_shred(100, 1, true, vec![3])), Some((100, vec![1, 2, 3])));
    // the segment was consumed; the same arrivals are now duplicates
    assert_eq!(m.add_shred(data_shred(100, 0, false, vec![1, 2])), None);
}

#[test]
fn slot_window_eviction_on_collision() {
    let mut m = DeshredManagerLocal::new();
    assert_eq!(m.collision_evictions(), 0);
    // slot 5 and slot 133 collide: 133 = 5 + 128
    assert_eq!(m.add_shred(data_shred(5, 0, true, vec![5])), Some((5, vec![5])));
    // feeding slot 5's shred again is a duplicate: the state is retained
    assert_eq!(m.add_shred(data_shred(5, 0, true, vec![5])), None);
    assert_eq!(m.collision_evictions(), 0);
    // slot 133 lands on the same entry and evicts slot 5
    assert_eq!(m.add_shred(data_shred(133, 0, true, vec![7])), Some((133, vec![7])));
    assert_eq!(m.collision_evictions(), 1);
    // slot 5's state is gone: the same shred reassembles from scratch
    assert_eq!(m.add_shred(data_shred(5, 0, true, vec![5])), Some((5, vec![5])));
    assert_eq!(m.collision_evictions(), 2);
}

#[test]
fn unbounded_manager_accepts_high_indices() {
    let mut m = DeshredManager::new();
    // the reference design's capacity: an index past the compact limit
    // is tracked, and its segment completes
    assert_eq!(m.add_shred(data_shred(3, 512, false, vec![1])), None);
    let mut last = None;
    for i in 0..512u32 {
        last = m.add_shred(data_shred(3, i, false, vec![0]));
    }
    assert_eq!(last, None);
    let (slot, payload) = m
        .add_shred(data_shred(3, 513, true, vec![2]))
        .expect("segment through index 513");
    assert_eq!(slot, 3);
    assert_eq!(payload.len(), 512 + 2);
}

#[test]
fn distinct_residues_do_not_collide() {
    let mut m = DeshredManagerLocal::new();
    assert_eq!(m.add_shred(data_shred(5, 0, false, vec![1])), None);
    assert_eq!(m.add_shred(data_shred(6, 0, false, vec![2])), None);
    assert_eq!(m.add_shred(data_shred(5, 1, true, vec![3])), Some((5, vec![1, 3])));
    assert_eq!(m.add_shred(data_shred(6, 1, true, vec![4])), Some((6, vec![2, 4])));
}

#[test]
fn window_cleanup_clears_old_slots() {
    let mut m = DeshredManagerLocal::new();
    assert_eq!(m.add_shred(data_shred(5, 0, false, vec![1])), None);
    // slot 5 is older than 300 - 128: its state is dropped
    m.cleanup_old_slots(300);
    // no duplicate: the slot starts fresh, and the segment completes anew
    assert_eq!(m.add_shred(data_shred(5, 0, false, vec![1])), None);
    assert_eq!(m.add_shred(data_shred(5, 1, true, vec![2])), Some((5, vec![1, 2])));
}

#[test]
fn unbounded_manager_never_evicts() {
    let mut m = DeshredManager::new();
    assert_eq!(m.add_shred(data_shred(5, 0, false, vec![1])), None);
    // slot 133 would collide in the window; here both survive
    assert_eq!(m.add_shred(data_shred(133, 0, false, vec![9])), None);
    assert_eq!(m.add_shred(data_shred(5, 1, true, vec![2])), Some((5, vec![1, 2])));
    assert_eq!(m.add_shred(data_shred(133, 1, true, vec![10])), Some((133, vec![9, 10])));
    // duplicates are still detected per slot
    assert_eq!(m.add_shred(data_shred(5, 0, false, vec![1])), None);
}

#[test]
fn unbounded_manager_cleanup_by_lookback() {
    let mut m = DeshredManager::new();
    assert_eq!(m.add_shred(data_shred(5, 0, true, vec![5])), Some((5, vec![5])));
    assert_eq!(m.add_shred(data_shred(200, 0, true, vec![8])), Some((200, vec![8])));
    m.cleanup_old_slots(210, 50);
    // slot 5 < 210 - 50 was forgotten: its shred reassembles from scratch
    assert_eq!(m.add_shred(data_shred(5, 0, true, vec![5])), Some((5, vec![5])));
    // slot 200 was kept: the same shred is a duplicate
    assert_eq!(m.add_shred(data_shred(200, 0, true, vec![8])), None);
}

#[test]
fn managers_agree_without_eviction() {
    let shreds = vec![
        data_shred(40, 2, false, vec![30]),
        data_shred(40, 0, false, vec![10]),
        data_shred(40, 3, true, vec![40]),
        data_shred(40, 1, false, vec![20]),
        data_shred(41, 0, true, vec![50]),
    ];
    let mut windowed = DeshredManagerLocal::new();
    let mut unbounded = DeshredManager::new();
    for s in shreds {
        let a = windowed.add_shred(s.clone());
        let b = unbounded.add_shred(s);
        assert_eq!(a, b);
    }
}

#[test]
fn sharded_front_keeps_workers_separate() {
    let mut sharded = DeshredManagerSharded::new(2);
    {
        let w0 = sharded.get_local(0);
        assert_eq!(w0.add_shred(data_shred(9, 0, false, vec![1])), None);
    }
    {
        let w1 = sharded.get_local(1);
        // worker 1 has no state for slot 9: the terminator alone is a gap
        assert_eq!(w1.add_shred(data_shred(9, 1, true, vec![2])), None);
    }
    {
        let w0 = sharded.get_local(0);
        // worker 0 holds index 0; its terminator completes the segment
        assert_eq!(w0.add_shred(data_shred(9, 1, true, vec![2])), Some((9, vec![1, 2])));
    }
}
