//! Per-worker slot window and the sharded front.
//!
//! A worker tracks a fixed window of slots, addressed by `slot` modulo
//! the window size. A new slot landing on an occupied entry of a
//! different slot evicts it — reassembly state in flight there is
//! discarded, by design, to bound memory. The sharded front is one such
//! window per worker; the dispatcher upstream must route all shreds of
//! one slot to the same worker, or no segment ever completes.

use vstd::prelude::*;

use crate::reassembler::sv_add;
use crate::reassembler::sv_deshred;
use crate::reassembler::sv_new;
use crate::reassembler::AddShredResult;
use crate::reassembler::SlotState;
use crate::reassembler::SlotStateView;
use crate::reassembler::MAX_DATA_SHREDS_PER_SLOT;
use crate::reassembler::MAX_SHREDS_PER_SLOT;
use crate::shred::Shred;

verus! {

/// How many slots one worker tracks at a time.
pub const SLOT_WINDOW_SIZE: usize = 128;

/// What one arrival does to a slot's state, as every manager front does
/// it: record the shred, and exactly when it is new, attempt to emit a
/// segment. Both the windowed and the unbounded manager pin their
/// behavior to this one transition; that is why they produce identical
/// outputs on identical inputs as long as no eviction replaces a
/// window entry.
pub open spec fn manager_step(prior: SlotStateView, s: crate::shred::ShredView) -> (
    SlotStateView,
    Option<Seq<u8>>,
) {
    let after_add = sv_add(prior, s);
    if after_add.1 == AddShredResult::NewlyInserted {
        sv_deshred(after_add.0)
    } else {
        (after_add.0, None)
    }
}

/// One worker's reassembly state: a fixed window of per-slot states,
/// addressed by slot number modulo the window size.
pub struct DeshredManagerLocal {
    /// The window; entry `i` holds a state whose slot is congruent to
    /// `i`.
    slots: Vec<Option<SlotState>>,
    /// The most recently seen slot.
    current_slot: u64,
    /// How many occupied entries a colliding slot has evicted,
    /// reassembly state in flight included; saturating.
    collision_evictions: u64,
}

impl DeshredManagerLocal {
    /// The window, as per-slot mathematical states.
    pub closed spec fn view_slots(self) -> Seq<Option<SlotStateView>> {
        self.slots@.map_values(
            |o: Option<SlotState>|
                if o is Some {
                    Some((o->0)@)
                } else {
                    None
                },
        )
    }

    /// The most recently seen slot.
    pub closed spec fn spec_current_slot(self) -> u64 {
        self.current_slot
    }

    /// How many occupied entries a colliding slot has evicted.
    pub closed spec fn spec_collision_evictions(self) -> u64 {
        self.collision_evictions
    }

    /// The collision-eviction counter: how often a new slot displaced
    /// an older one still in its window entry.
    pub fn collision_evictions(&self) -> (r: u64)
        ensures
            r == self.spec_collision_evictions(),
    {
        self.collision_evictions
    }

    /// Well-formedness: a full-size window whose occupied entries hold
    /// well-formed states filed under their slot's residue.
    pub closed spec fn wf(self) -> bool {
        &&& self.slots@.len() == SLOT_WINDOW_SIZE
        &&& forall|i: int|
            0 <= i < self.slots@.len() && (#[trigger] self.slots@[i]) is Some ==> (
            self.slots@[i]->0).wf() && (self.slots@[i]->0)@.slot % (SLOT_WINDOW_SIZE as u64)
                == i && (self.slots@[i]->0)@.capacity == MAX_SHREDS_PER_SLOT
    }

    /// An empty window: no slot has state.
    pub fn new() -> (r: DeshredManagerLocal)
        ensures
            r.wf(),
            r.view_slots() =~= Seq::new(SLOT_WINDOW_SIZE as nat, |i: int| None::<SlotStateView>),
            r.spec_current_slot() == 0,
            r.spec_collision_evictions() == 0,
    {
        let mut slots: Vec<Option<SlotState>> = Vec::new();
        let mut i: usize = 0;
        while i < SLOT_WINDOW_SIZE
            invariant
                i <= SLOT_WINDOW_SIZE,
                slots@.len() == i,
                forall|j: int| 0 <= j < i ==> (#[trigger] slots@[j]) is None,
            decreases SLOT_WINDOW_SIZE - i,
        {
            slots.push(None);
            i = i + 1;
        }
        let r = DeshredManagerLocal { slots, current_slot: 0, collision_evictions: 0 };
        proof {
            assert(r.view_slots() =~= Seq::new(
                SLOT_WINDOW_SIZE as nat,
                |i: int| None::<SlotStateView>,
            ));
        }
        r
    }

    /// Feeds one shred to its slot's state — reusing the entry when it
    /// tracks the same slot, otherwise evicting whatever occupied it and
    /// starting fresh — then attempts to deshred. Returns the slot and
    /// the emitted segment payload when one completed.
    pub fn add_shred(&mut self, shred: Shred) -> (r: Option<(u64, Vec<u8>)>)
        requires
            old(self).wf(),
        ensures
            final(self).wf(),
            final(self).spec_current_slot() == shred@.slot,
            final(self).spec_collision_evictions() == if old(self).view_slots()[(shred@.slot % (
            SLOT_WINDOW_SIZE as u64)) as int] is Some && (old(self).view_slots()[(shred@.slot % (
            SLOT_WINDOW_SIZE as u64)) as int]->0).slot != shred@.slot {
                old(self).spec_collision_evictions().saturating_add(1)
            } else {
                old(self).spec_collision_evictions()
            },
            ({
                let slot = shred@.slot;
                let idx = (slot % (SLOT_WINDOW_SIZE as u64)) as int;
                let entry = old(self).view_slots()[idx];
                let prior = if entry is Some && entry->0.slot == slot {
                    entry->0
                } else {
                    sv_new(slot, MAX_SHREDS_PER_SLOT as int)
                };
                let st = manager_step(prior, shred@);
                &&& forall|j: int|
                    0 <= j < SLOT_WINDOW_SIZE && j != idx ==> final(self).view_slots()[j] == old(
                        self,
                    ).view_slots()[j]
                &&& final(self).view_slots()[idx] == Some(st.0)
                &&& (r is Some <==> st.1 is Some)
                &&& r is Some ==> (r->0).0 == slot && ((r->0).1)@ == st.1->0
            }),
    {
        let slot = shred.slot;
        let idx = (slot % (SLOT_WINDOW_SIZE as u64)) as usize;
        self.current_slot = slot;
        let (need_new, evicts) = match &self.slots[idx] {
            Some(s) => (s.slot_number() != slot, s.slot_number() != slot),
            None => (true, false),
        };
        if evicts {
            self.collision_evictions = self.collision_evictions.saturating_add(1);
        }
        if need_new {
            self.slots.set(idx, Some(SlotState::new(slot)));
        }
        let entry = vstd::std_specs::vec::vec_index_mut(&mut self.slots, idx);
        let out = match entry {
            Some(state) => {
                let res = state.add_shred(shred);
                if res == AddShredResult::NewlyInserted {
                    match state.try_deshred() {
                        Some(payload) => Some((slot, payload)),
                        None => None,
                    }
                } else {
                    None
                }
            },
            None => {
                proof {
                    assert(false);
                }
                None
            },
        };
        proof {
            assert forall|j: int|
                0 <= j < SLOT_WINDOW_SIZE && j != idx as int implies final(self).view_slots()[j]
                == old(self).view_slots()[j] by {
                assert(self.slots@[j] == old(self).slots@[j]);
            }
        }
        out
    }

    /// Clears window entries whose slot has fallen out of the lookback
    /// range: everything older than the window size below `current`.
    pub fn cleanup_old_slots(&mut self, current: u64)
        requires
            old(self).wf(),
        ensures
            final(self).wf(),
            final(self).spec_current_slot() == old(self).spec_current_slot(),
            final(self).spec_collision_evictions() == old(self).spec_collision_evictions(),
            ({
                let threshold = if current >= SLOT_WINDOW_SIZE as u64 {
                    (current - SLOT_WINDOW_SIZE as u64) as u64
                } else {
                    0u64
                };
                forall|j: int|
                    0 <= j < SLOT_WINDOW_SIZE ==> final(self).view_slots()[j] == (
                    if old(self).view_slots()[j] is Some && (old(self).view_slots()[j]->0).slot
                        < threshold {
                        None
                    } else {
                        old(self).view_slots()[j]
                    })
            }),
    {
        let threshold = if current >= SLOT_WINDOW_SIZE as u64 {
            current - SLOT_WINDOW_SIZE as u64
        } else {
            0
        };
        let mut i: usize = 0;
        while i < SLOT_WINDOW_SIZE
            invariant
                old(self).wf(),
                self.slots@.len() == SLOT_WINDOW_SIZE,
                self.current_slot == old(self).current_slot,
                self.collision_evictions == old(self).collision_evictions,
                i <= SLOT_WINDOW_SIZE,
                threshold == (if current >= SLOT_WINDOW_SIZE as u64 {
                    current - SLOT_WINDOW_SIZE as u64
                } else {
                    0int
                }),
                forall|j: int|
                    i <= j < SLOT_WINDOW_SIZE ==> self.slots@[j] == old(self).slots@[j],
                forall|j: int|
                    0 <= j < i ==> self.slots@[j] == (
                    if old(self).slots@[j] is Some && (old(self).slots@[j]->0)@.slot < threshold {
                        None::<SlotState>
                    } else {
                        old(self).slots@[j]
                    }),
            decreases SLOT_WINDOW_SIZE - i,
        {
            let evict = match &self.slots[i] {
                Some(s) => s.slot_number() < threshold,
                None => false,
            };
            if evict {
                self.slots.set(i, None);
            }
            i = i + 1;
        }
        proof {
            assert forall|j: int|
                0 <= j < SLOT_WINDOW_SIZE implies final(self).view_slots()[j] == (
            if old(self).view_slots()[j] is Some && (old(self).view_slots()[j]->0).slot
                < threshold {
                None::<SlotStateView>
            } else {
                old(self).view_slots()[j]
            }) by {
                assert(old(self).view_slots()[j] is Some <==> old(self).slots@[j] is Some);
            }
        }
    }
}

/// The unbounded manager: per-slot states in a table keyed by slot,
/// with no eviction on collision — the reference semantics. It pins its
/// behavior to the same `manager_step` transition as the windowed
/// manager, so the two produce identical outputs on identical inputs
/// as long as the window evicts nothing.
pub struct DeshredManager {
    /// Per-slot state, keyed by slot number.
    slots: std::collections::HashMap<u64, SlotState>,
    /// The tracked slots, each once, in insertion order.
    keys: Vec<u64>,
}

impl DeshredManager {
    /// The table, as per-slot mathematical states.
    pub closed spec fn view_slots(self) -> Map<u64, SlotStateView> {
        self.slots@.map_values(|s: SlotState| s@)
    }

    /// Well-formedness: every tracked state is well-formed and filed
    /// under its own slot, and the key list names exactly the tracked
    /// slots, each once.
    pub closed spec fn wf(self) -> bool {
        &&& forall|k: u64|
            self.slots@.dom().contains(k) ==> (#[trigger] self.slots@[k]).wf()
                && self.slots@[k]@.slot == k && self.slots@[k]@.capacity
                == MAX_DATA_SHREDS_PER_SLOT
        &&& forall|k: u64| #[trigger] self.keys@.contains(k) <==> self.slots@.dom().contains(k)
        &&& forall|i: int, j: int|
            0 <= i < j < self.keys@.len() ==> self.keys@[i] != self.keys@[j]
    }

    /// An empty manager: no slot has state.
    pub fn new() -> (r: DeshredManager)
        ensures
            r.wf(),
            r.view_slots() =~= Map::<u64, SlotStateView>::empty(),
    {
        let r = DeshredManager { slots: std::collections::HashMap::new(), keys: Vec::new() };
        proof {
            assert(r.view_slots() =~= Map::<u64, SlotStateView>::empty());
        }
        r
    }

    /// Feeds one shred to its slot's state — creating the state on the
    /// slot's first shred, never evicting another — then attempts to
    /// deshred. Returns the slot and the emitted segment payload when
    /// one completed.
    pub fn add_shred(&mut self, shred: Shred) -> (r: Option<(u64, Vec<u8>)>)
        requires
            old(self).wf(),
        ensures
            final(self).wf(),
            ({
                let slot = shred@.slot;
                let prior = if old(self).view_slots().dom().contains(slot) {
                    old(self).view_slots()[slot]
                } else {
                    sv_new(slot, MAX_DATA_SHREDS_PER_SLOT as int)
                };
                let st = manager_step(prior, shred@);
                &&& final(self).view_slots() == old(self).view_slots().insert(slot, st.0)
                &&& (r is Some <==> st.1 is Some)
                &&& r is Some ==> (r->0).0 == slot && ((r->0).1)@ == st.1->0
            }),
    {
        broadcast use vstd::std_specs::hash::group_hash_axioms;

        let slot = shred.slot;
        let mut state = match self.slots.remove(&slot) {
            Some(s) => s,
            None => {
                self.keys.push(slot);
                SlotState::new_with_capacity(slot, MAX_DATA_SHREDS_PER_SLOT)
            },
        };
        let res = state.add_shred(shred);
        let out = if res == AddShredResult::NewlyInserted {
            match state.try_deshred() {
                Some(payload) => Some((slot, payload)),
                None => None,
            }
        } else {
            None
        };
        self.slots.insert(slot, state);
        proof {
            assert(self.slots@ =~= old(self).slots@.insert(slot, self.slots@[slot]));
            assert(self.view_slots() =~= old(self).view_slots().insert(
                slot,
                self.slots@[slot]@,
            ));
            if old(self).slots@.dom().contains(slot) {
                assert(self.keys@ == old(self).keys@);
                assert forall|k: u64| #[trigger] self.keys@.contains(k)
                    <==> self.slots@.dom().contains(k) by {
                    assert(old(self).keys@.contains(k) <==> old(self).slots@.dom().contains(k));
                }
            } else {
                assert(self.keys@ == old(self).keys@.push(slot));
                assert forall|k: u64| #[trigger] self.keys@.contains(k)
                    <==> self.slots@.dom().contains(k) by {
                    assert(old(self).keys@.contains(k) <==> old(self).slots@.dom().contains(k));
                    if k != slot {
                        assert(self.keys@.contains(k) <==> old(self).keys@.contains(k)) by {
                            if old(self).keys@.contains(k) {
                                let j = choose|j: int|
                                    0 <= j < old(self).keys@.len() && old(self).keys@[j] == k;
                                assert(self.keys@[j] == k);
                            } else {
                                if self.keys@.contains(k) {
                                    let j = choose|j: int|
                                        0 <= j < self.keys@.len() && self.keys@[j] == k;
                                    assert(j < old(self).keys@.len());
                                    assert(old(self).keys@[j] == k);
                                }
                            }
                        }
                    } else {
                        assert(self.keys@[self.keys@.len() - 1] == slot);
                    }
                }
                assert forall|i: int, j: int|
                    0 <= i < j < self.keys@.len() implies self.keys@[i] != self.keys@[j] by {
                    if j < self.keys@.len() - 1 {
                        assert(old(self).keys@[i] != old(self).keys@[j]);
                    } else {
                        assert(self.keys@[j] == slot);
                        assert(self.keys@[i] == old(self).keys@[i]);
                        assert(old(self).keys@.contains(old(self).keys@[i]));
                    }
                }
            }
        }
        out
    }

    /// Forgets slots older than the lookback below `current`.
    pub fn cleanup_old_slots(&mut self, current: u64, lookback: u64)
        requires
            old(self).wf(),
        ensures
            final(self).wf(),
            ({
                let threshold = if current >= lookback {
                    (current - lookback) as u64
                } else {
                    0u64
                };
                final(self).view_slots() =~= old(self).view_slots().restrict(
                    Set::new(|k: u64| k >= threshold),
                )
            }),
    {
        broadcast use vstd::std_specs::hash::group_hash_axioms;

        let threshold = if current >= lookback {
            current - lookback
        } else {
            0
        };
        let ghost orig = *old(self);
        let mut new_keys: Vec<u64> = Vec::new();
        let mut i: usize = 0;
        while i < self.keys.len()
            invariant
                orig.wf(),
                self.keys == orig.keys,
                i <= self.keys@.len(),
                self.slots@ =~= orig.slots@.remove_keys(
                    Set::new(|k: u64| orig.keys@.take(i as int).contains(k) && k < threshold),
                ),
                new_keys@ == orig.keys@.take(i as int).filter(|k: u64| k >= threshold),
            decreases self.keys@.len() - i,
        {
            broadcast use vstd::std_specs::hash::group_hash_axioms;
            broadcast use vstd::seq_lib::group_filter_ensures;

            let k = self.keys[i];
            if k < threshold {
                self.slots.remove(&k);
            } else {
                new_keys.push(k);
            }
            proof {
                reveal(Seq::filter);
                assert(orig.keys@.take(i + 1) =~= orig.keys@.take(i as int).push(k));
                assert(orig.keys@.take(i as int).push(k).drop_last() =~= orig.keys@.take(
                    i as int,
                ));
                assert(orig.keys@.take(i as int).push(k).filter(|k2: u64| k2 >= threshold)
                    == if k >= threshold {
                    orig.keys@.take(i as int).filter(|k2: u64| k2 >= threshold).push(k)
                } else {
                    orig.keys@.take(i as int).filter(|k2: u64| k2 >= threshold)
                });
                assert forall|k2: u64|
                    orig.keys@.take(i + 1).contains(k2) && k2 < threshold
                        implies !self.slots@.dom().contains(k2) by {
                    if k2 != k {
                        assert(orig.keys@.take(i as int).contains(k2)) by {
                            let j = choose|j: int|
                                0 <= j < i + 1 && #[trigger] orig.keys@.take(i + 1)[j] == k2;
                            assert(orig.keys@.take(i as int)[j] == k2);
                        }
                    }
                }
                assert(self.slots@ =~= orig.slots@.remove_keys(
                    Set::new(
                        |k2: u64| orig.keys@.take(i + 1).contains(k2) && k2 < threshold,
                    ),
                ));
            }
            i = i + 1;
        }
        self.keys = new_keys;
        proof {
            broadcast use vstd::seq_lib::group_filter_ensures;

            reveal(Seq::filter);
            assert(orig.keys@.take(orig.keys@.len() as int) =~= orig.keys@);
            let f = |k2: u64| k2 >= threshold;
            assert(self.keys@ == orig.keys@.filter(f));
            assert forall|k: u64| #[trigger] self.keys@.contains(k)
                <==> self.slots@.dom().contains(k) by {
                assert(orig.keys@.contains(k) <==> orig.slots@.dom().contains(k));
                if self.keys@.contains(k) {
                    lemma_filter_membership(orig.keys@, f, k);
                }
                if self.slots@.dom().contains(k) {
                    assert(orig.slots@.dom().contains(k));
                    assert(orig.keys@.contains(k));
                    assert(k >= threshold);
                    let a = choose|a: int| 0 <= a < orig.keys@.len() && orig.keys@[a] == k;
                    assert(orig.keys@.filter(f).contains(orig.keys@[a]));
                }
            }
            assert forall|i2: int, j2: int|
                0 <= i2 < j2 < self.keys@.len() implies self.keys@[i2] != self.keys@[j2] by {
                lemma_filter_distinct(orig.keys@, threshold, i2, j2);
            }
            assert(self.view_slots() =~= orig.view_slots().restrict(
                Set::new(|k: u64| k >= threshold),
            ));
        }
    }
}

/// A filtered run of distinct keys stays distinct.
proof fn lemma_filter_distinct(s: Seq<u64>, threshold: u64, i: int, j: int)
    requires
        forall|a: int, b: int| 0 <= a < b < s.len() ==> s[a] != s[b],
        0 <= i < j < s.filter(|k: u64| k >= threshold).len(),
    ensures
        s.filter(|k: u64| k >= threshold)[i] != s.filter(|k: u64| k >= threshold)[j],
    decreases s.len(),
{
    broadcast use vstd::seq_lib::group_filter_ensures;

    reveal(Seq::filter);
    let f = |k: u64| k >= threshold;
    let t = s.filter(f);
    if s.len() > 0 {
        let init = s.drop_last();
        assert(s =~= init.push(s.last()));
        assert(t == if f(s.last()) {
            init.filter(f).push(s.last())
        } else {
            init.filter(f)
        });
        if j < init.filter(f).len() {
            lemma_filter_distinct(init, threshold, i, j);
        } else {
            assert(f(s.last()) && t[j] == s.last());
            assert(t[i] == init.filter(f)[i]);
            assert(init.filter(f).contains(t[i]));
            lemma_filter_membership(init, f, t[i]);
            let a = choose|a: int| 0 <= a < init.len() && init[a] == t[i];
            assert(s[a] == t[i]);
            assert(s[s.len() - 1] == s.last());
            assert(s[a] != s[s.len() - 1]);
        }
    }
}

/// An element of a filtered run comes from the run and satisfies the
/// predicate.
proof fn lemma_filter_membership(s: Seq<u64>, f: spec_fn(u64) -> bool, x: u64)
    requires
        s.filter(f).contains(x),
    ensures
        s.contains(x),
        f(x),
    decreases s.len(),
{
    reveal(Seq::filter);
    if s.len() > 0 {
        let init = s.drop_last();
        if f(s.last()) && x == s.last() {
            assert(s[s.len() - 1] == x);
        } else {
            assert(init.filter(f).contains(x)) by {
                if f(s.last()) {
                    let j = choose|j: int|
                        0 <= j < s.filter(f).len() && s.filter(f)[j] == x;
                    assert(j < s.filter(f).len() - 1);
                    assert(init.filter(f)[j] == x);
                }
            }
            lemma_filter_membership(init, f, x);
            let a = choose|a: int| 0 <= a < init.len() && init[a] == x;
            assert(s[a] == x);
        }
    }
}

/// The sharded front: one window per worker, nothing shared.
pub struct DeshredManagerSharded {
    managers: Vec<DeshredManagerLocal>,
}

impl DeshredManagerSharded {
    /// The workers' windows.
    pub closed spec fn view_managers(self) -> Seq<DeshredManagerLocal> {
        self.managers@
    }

    /// Well-formedness: every worker's window is well-formed.
    pub closed spec fn wf(self) -> bool {
        forall|i: int|
            0 <= i < self.managers@.len() ==> (#[trigger] self.managers@[i]).wf()
    }

    /// One empty window per worker.
    pub fn new(num_threads: usize) -> (r: DeshredManagerSharded)
        ensures
            r.wf(),
            r.view_managers().len() == num_threads,
    {
        let mut managers: Vec<DeshredManagerLocal> = Vec::new();
        let mut i: usize = 0;
        while i < num_threads
            invariant
                i <= num_threads,
                managers@.len() == i,
                forall|j: int| 0 <= j < i ==> (#[trigger] managers@[j]).wf(),
            decreases num_threads - i,
        {
            managers.push(DeshredManagerLocal::new());
            i = i + 1;
        }
        DeshredManagerSharded { managers }
    }

    /// The window of one worker, for that worker alone to drive — no
    /// locking, no sharing.
    pub fn get_local(&mut self, thread_id: usize) -> (m: &mut DeshredManagerLocal)
        requires
            thread_id < old(self).view_managers().len(),
        ensures
            *m == old(self).view_managers()[thread_id as int],
            final(self).view_managers() == old(self).view_managers().update(
                thread_id as int,
                *final(m),
            ),
    {
        vstd::std_specs::vec::vec_index_mut(&mut self.managers, thread_id)
    }
}

} // verus!
