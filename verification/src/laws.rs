//! Laws of the reassembler, stated and proved over the mathematical
//! model. Each law speaks of the transition functions `sv_add` and
//! `sv_deshred` that the contracts of `SlotState::add_shred` and
//! `SlotState::try_deshred` pin their results to, so it carries over to
//! the executable state unchanged.

use vstd::prelude::*;

use crate::reassembler::concat_stored;
use crate::reassembler::count_received_below;
use crate::reassembler::count_stored_below;
use crate::reassembler::sv_add;
use crate::reassembler::sv_deshred;
use crate::reassembler::sv_new;
use crate::reassembler::sv_segment_complete;
use crate::reassembler::sv_wf;
use crate::reassembler::AddShredResult;
use crate::reassembler::SlotStateView;
use crate::shred::ShredType;
use crate::shred::ShredView;

verus! {

/// While no segment has been emitted yet, the received bitmap and the
/// payload table agree in number: there is a stored entry for exactly the
/// set bits. (After an emission this no longer holds by design: the
/// emitted segment's entries are cleared while their bits stay set for
/// duplicate detection.)
pub proof fn lemma_count_ones_matches_stored(v: SlotStateView)
    requires
        sv_wf(v),
        v.last_processed == 0,
    ensures
        count_received_below(v, v.capacity) == count_stored_below(v, v.capacity),
{
    lemma_counts_agree_below(v, v.capacity);
}

proof fn lemma_counts_agree_below(v: SlotStateView, n: int)
    requires
        sv_wf(v),
        v.last_processed == 0,
    ensures
        count_received_below(v, n) == count_stored_below(v, n),
    decreases n,
{
    if n > 0 {
        lemma_counts_agree_below(v, n - 1);
        assert(v.stored.dom().contains(n - 1) <==> (v.last_processed <= n - 1
            && v.received.contains(n - 1)));
    }
}

/// `last_processed` is monotonically non-decreasing: an arrival leaves it
/// unchanged, and a deshred attempt either leaves it unchanged or moves
/// it past the emitted segment.
pub proof fn lemma_last_processed_monotone(v: SlotStateView, s: ShredView)
    ensures
        sv_add(v, s).0.last_processed == v.last_processed,
        sv_deshred(v).0.last_processed >= v.last_processed,
{
}

/// What an emitted segment satisfied: its end was the first recorded
/// terminator, at or past `last_processed`; every index of the segment
/// had its received bit set at emission time; and the bits remain set
/// afterwards, so re-sent shreds of the segment are still detected as
/// duplicates.
pub proof fn lemma_emitted_segment(v: SlotStateView)
    requires
        sv_deshred(v).1 is Some,
    ensures
        v.ends.len() > 0,
        v.ends[0] >= v.last_processed,
        forall|i: int|
            v.last_processed <= i <= v.ends[0] ==> #[trigger] v.received.contains(i)
                && sv_deshred(v).0.received.contains(i),
        sv_deshred(v).0.last_processed == v.ends[0] + 1,
{
}

/// Idempotence: feeding the same shred twice leaves the state unchanged
/// after the second call — the second arrival is a duplicate (or out of
/// range, like the first).
pub proof fn lemma_add_idempotent(v: SlotStateView, s: ShredView)
    ensures
        sv_add(sv_add(v, s).0, s).0 == sv_add(v, s).0,
        s.shred_type == ShredType::Data && s.index < v.capacity ==> sv_add(sv_add(v, s).0, s).1
            == AddShredResult::Duplicate,
        s.shred_type == ShredType::Code ==> sv_add(sv_add(v, s).0, s).1
            == AddShredResult::Duplicate,
{
}

/// The state after feeding a run of arrivals, first element first.
pub open spec fn sv_feed(v: SlotStateView, arrivals: Seq<ShredView>) -> SlotStateView
    decreases arrivals.len(),
{
    if arrivals.len() == 0 {
        v
    } else {
        sv_feed(sv_add(v, arrivals[0]).0, arrivals.drop_first())
    }
}

/// The arrivals of one segment: pairwise distinct indices, and at most
/// one terminator among them.
pub open spec fn compatible_arrivals(s: Seq<ShredView>) -> bool {
    forall|j: int, k: int|
        0 <= j < k < s.len() ==> ((#[trigger] s[j]).index != (#[trigger] s[k]).index && !(
        s[j].is_terminator() && s[k].is_terminator()))
}

/// Two arrivals with distinct indices, not both terminators, can be fed
/// in either order: the resulting state is the same.
pub proof fn lemma_add_commutes(v: SlotStateView, a: ShredView, b: ShredView)
    requires
        a.index != b.index,
        !(a.is_terminator() && b.is_terminator()),
    ensures
        sv_add(sv_add(v, a).0, b).0 == sv_add(sv_add(v, b).0, a).0,
{
    let ab = sv_add(sv_add(v, a).0, b).0;
    let ba = sv_add(sv_add(v, b).0, a).0;
    assert(ab.received =~= ba.received);
    assert(ab.stored =~= ba.stored);
    assert(ab.ends =~= ba.ends);
    assert(ab.code =~= ba.code);
}

proof fn lemma_compat_drop_first(s: Seq<ShredView>)
    requires
        compatible_arrivals(s),
        s.len() > 0,
    ensures
        compatible_arrivals(s.drop_first()),
{
    let t = s.drop_first();
    assert forall|j: int, k: int| 0 <= j < k < t.len() implies ((#[trigger] t[j]).index != (
    #[trigger] t[k]).index && !(t[j].is_terminator() && t[k].is_terminator())) by {
        assert(t[j] == s[j + 1]);
        assert(t[k] == s[k + 1]);
        assert(s[j + 1].index != s[k + 1].index && !(s[j + 1].is_terminator() && s[k
            + 1].is_terminator()));
    }
}

proof fn lemma_feed_pull_front(v: SlotStateView, s: Seq<ShredView>, m: int)
    requires
        compatible_arrivals(s),
        0 <= m < s.len(),
    ensures
        sv_feed(v, s) == sv_feed(sv_add(v, s[m]).0, s.remove(m)),
    decreases m,
{
    if m == 0 {
        assert(s.remove(0) =~= s.drop_first());
    } else {
        let s0 = s[0];
        let rest = s.drop_first();
        lemma_compat_drop_first(s);
        assert(rest[m - 1] == s[m]);
        lemma_feed_pull_front(sv_add(v, s0).0, rest, m - 1);
        assert(s0.index != s[m].index && !(s0.is_terminator() && s[m].is_terminator()));
        lemma_add_commutes(v, s0, s[m]);
        let w = sv_add(v, s[m]).0;
        let t = s.remove(m);
        assert(t[0] == s0);
        assert(t.drop_first() =~= rest.remove(m - 1));
        assert(sv_feed(w, t) == sv_feed(sv_add(w, s0).0, t.drop_first()));
    }
}

proof fn lemma_compat_permutation(s1: Seq<ShredView>, s2: Seq<ShredView>)
    requires
        compatible_arrivals(s1),
        s1.to_multiset() == s2.to_multiset(),
    ensures
        compatible_arrivals(s2),
{
    broadcast use vstd::seq_lib::group_to_multiset_ensures;

    assert forall|j: int, k: int| 0 <= j < k < s2.len() implies ((#[trigger] s2[j]).index != (
    #[trigger] s2[k]).index && !(s2[j].is_terminator() && s2[k].is_terminator())) by {
        let x = s2[j];
        let y = s2[k];
        if x == y {
            assert(s2.remove(j).to_multiset() =~= s2.to_multiset().remove(x));
            assert(s2.remove(j)[k - 1] == s2[k]);
            assert(s2.remove(j).contains(x));
            assert(s2.remove(j).to_multiset().count(x) > 0);
            assert(s2.to_multiset().remove(x).count(x) == s2.to_multiset().count(x) - 1);
            assert(s2.to_multiset().count(x) >= 2);
            assert(s1.to_multiset().count(x) >= 2);
            assert(s1.contains(x));
            let p = choose|p: int| 0 <= p < s1.len() && s1[p] == x;
            assert(s1.remove(p).to_multiset() =~= s1.to_multiset().remove(x));
            assert(s1.to_multiset().remove(x).count(x) == s1.to_multiset().count(x) - 1);
            assert(s1.remove(p).to_multiset().count(x) >= 1);
            assert(s1.remove(p).contains(x));
            let q = choose|q: int| 0 <= q < s1.remove(p).len() && s1.remove(p)[q] == x;
            if q < p {
                assert(s1.remove(p)[q] == s1[q]);
                assert(s1[q].index != s1[p].index);
            } else {
                assert(s1.remove(p)[q] == s1[q + 1]);
                assert(s1[p].index != s1[q + 1].index);
            }
            assert(false);
        } else {
            assert(s2.contains(x));
            assert(s2.contains(y));
            assert(s2.to_multiset().count(x) > 0);
            assert(s2.to_multiset().count(y) > 0);
            assert(s1.to_multiset().count(x) > 0);
            assert(s1.to_multiset().count(y) > 0);
            assert(s1.contains(x));
            assert(s1.contains(y));
            let p = choose|p: int| 0 <= p < s1.len() && s1[p] == x;
            let q = choose|q: int| 0 <= q < s1.len() && s1[q] == y;
            if p < q {
                assert(s1[p].index != s1[q].index && !(s1[p].is_terminator()
                    && s1[q].is_terminator()));
            } else {
                assert(s1[q].index != s1[p].index && !(s1[q].is_terminator()
                    && s1[p].is_terminator()));
            }
        }
    }
}

/// Order insensitivity of arrivals within a segment: feeding the same
/// shreds in any order — pairwise distinct indices, at most one
/// terminator among them — from the same starting state leads to the
/// same state, and hence to the same emitted segment.
pub proof fn lemma_feed_order_insensitive(
    v: SlotStateView,
    s1: Seq<ShredView>,
    s2: Seq<ShredView>,
)
    requires
        s1.to_multiset() == s2.to_multiset(),
        compatible_arrivals(s1),
    ensures
        sv_feed(v, s1) == sv_feed(v, s2),
        sv_deshred(sv_feed(v, s1)).1 == sv_deshred(sv_feed(v, s2)).1,
    decreases s1.len(),
{
    broadcast use vstd::seq_lib::group_to_multiset_ensures;

    lemma_compat_permutation(s1, s2);
    if s1.len() == 0 {
        assert(s2.to_multiset().len() == 0);
        assert(s2.len() == 0);
    } else {
        let a = s1[0];
        assert(s1.contains(a));
        assert(s2.to_multiset().count(a) > 0);
        assert(s2.contains(a));
        let m = choose|m: int| 0 <= m < s2.len() && s2[m] == a;
        lemma_feed_pull_front(v, s2, m);
        assert(s1.drop_first() =~= s1.remove(0));
        assert(s1.remove(0).to_multiset() =~= s1.to_multiset().remove(a));
        assert(s2.remove(m).to_multiset() =~= s2.to_multiset().remove(a));
        lemma_compat_drop_first(s1);
        lemma_feed_order_insensitive(sv_add(v, a).0, s1.drop_first(), s2.remove(m));
    }
}

/// The payloads of a run of arrivals, concatenated in order.
pub open spec fn concat_payloads(s: Seq<ShredView>) -> Seq<u8>
    decreases s.len(),
{
    if s.len() == 0 {
        Seq::empty()
    } else {
        s[0].payload + concat_payloads(s.drop_first())
    }
}

proof fn lemma_feed_snoc(v: SlotStateView, s: Seq<ShredView>, a: ShredView)
    ensures
        sv_feed(v, s.push(a)) == sv_add(sv_feed(v, s), a).0,
    decreases s.len(),
{
    if s.len() == 0 {
        assert(s.push(a)[0] == a);
        assert(s.push(a).drop_first() =~= s);
        assert(sv_feed(v, s.push(a)) == sv_feed(sv_add(v, a).0, s));
        assert(sv_feed(sv_add(v, a).0, s) == sv_add(v, a).0);
        assert(sv_feed(v, s) == v);
    } else {
        assert(s.push(a)[0] == s[0]);
        assert(s.push(a).drop_first() =~= s.drop_first().push(a));
        assert(sv_feed(v, s.push(a)) == sv_feed(sv_add(v, s[0]).0, s.drop_first().push(a)));
        lemma_feed_snoc(sv_add(v, s[0]).0, s.drop_first(), a);
        assert(sv_feed(v, s) == sv_feed(sv_add(v, s[0]).0, s.drop_first()));
    }
}

proof fn lemma_in_order_feed(slot: u64, capacity: int, s: Seq<ShredView>)
    requires
        s.len() <= capacity,
        forall|k: int| 0 <= k < s.len() ==> (#[trigger] s[k]).shred_type == ShredType::Data,
        forall|k: int| 0 <= k < s.len() ==> (#[trigger] s[k]).index == k,
        forall|k: int|
            0 <= k < s.len() ==> (!(#[trigger] s[k]).is_terminator() || k == s.len() - 1),
    ensures
        ({
            let st = sv_feed(sv_new(slot, capacity), s);
            &&& st.slot == slot
            &&& st.capacity == capacity
            &&& st.last_processed == 0
            &&& forall|i: int| #[trigger] st.received.contains(i) <==> 0 <= i < s.len()
            &&& forall|i: int|
                0 <= i < s.len() ==> #[trigger] st.stored.dom().contains(i) && st.stored[i]
                    == s[i].payload
            &&& forall|i: int| #[trigger] st.stored.dom().contains(i) ==> 0 <= i < s.len()
            &&& st.ends == if s.len() > 0 && s[s.len() - 1].is_terminator() {
                seq![s.len() - 1]
            } else {
                Seq::<int>::empty()
            }
        }),
    decreases s.len(),
{
    if s.len() == 0 {
        assert(sv_feed(sv_new(slot, capacity), s) == sv_new(slot, capacity));
    } else {
        let t = s.drop_last();
        let a = s.last();
        assert forall|k: int| 0 <= k < t.len() implies (#[trigger] t[k]).index == k by {
            assert(t[k] == s[k]);
        }
        assert forall|k: int|
            0 <= k < t.len() implies (#[trigger] t[k]).shred_type == ShredType::Data by {
            assert(t[k] == s[k]);
        }
        assert forall|k: int| 0 <= k < t.len() implies !(#[trigger] t[k]).is_terminator() by {
            assert(t[k] == s[k]);
        }
        lemma_in_order_feed(slot, capacity, t);
        assert(t.push(a) =~= s);
        lemma_feed_snoc(sv_new(slot, capacity), t, a);
        let st0 = sv_feed(sv_new(slot, capacity), t);
        let st = sv_feed(sv_new(slot, capacity), s);
        let n = s.len() as int;
        assert(a == s[n - 1]);
        assert(a.index == n - 1);
        assert(st0.capacity == capacity);
        assert(a.index < capacity);
        assert(a.shred_type == ShredType::Data);
        assert(!st0.received.contains(a.index as int));
        assert(st == sv_add(st0, a).0);
        assert(st.received == st0.received.insert(n - 1));
        assert(st.stored == st0.stored.insert(n - 1, a.payload));
        assert forall|i: int| #[trigger] st.received.contains(i) <==> 0 <= i < n by {
            assert(st0.received.contains(i) <==> 0 <= i < n - 1);
        }
        assert forall|i: int|
            0 <= i < n implies #[trigger] st.stored.dom().contains(i) && st.stored[i]
            == s[i].payload by {
            if i < n - 1 {
                assert(t[i] == s[i]);
                assert(st0.stored.dom().contains(i) && st0.stored[i] == t[i].payload);
            }
        }
        assert forall|i: int| #[trigger] st.stored.dom().contains(i) implies 0 <= i < n by {
            if i != n - 1 {
                assert(st0.stored.dom().contains(i));
            }
        }
        if a.is_terminator() {
            assert(st.ends == st0.ends.push(n - 1));
            assert(st0.ends == Seq::<int>::empty());
            assert(st.ends =~= seq![n - 1]);
        } else {
            assert(st.ends == st0.ends);
        }
    }
}

proof fn lemma_concat_stored_matches(stored: Map<int, Seq<u8>>, s: Seq<ShredView>, lo: int)
    requires
        0 <= lo <= s.len(),
        forall|i: int|
            #![trigger stored.dom().contains(i)]
            #![trigger stored[i]]
            lo <= i < s.len() ==> (stored.dom().contains(i) && stored[i] == s[i].payload),
    ensures
        concat_stored(stored, lo, s.len() - 1) == concat_payloads(s.skip(lo)),
    decreases s.len() - lo,
{
    if lo < s.len() {
        assert(stored.dom().contains(lo) && stored[lo] == s[lo].payload);
        assert forall|i: int|
            lo + 1 <= i < s.len() implies #[trigger] stored.dom().contains(i) && stored[i]
            == s[i].payload by {
            assert(lo <= i < s.len());
        }
        lemma_concat_stored_matches(stored, s, lo + 1);
        assert(s.skip(lo)[0] == s[lo]);
        assert(s.skip(lo).drop_first() =~= s.skip(lo + 1));
        assert(concat_stored(stored, lo, s.len() - 1) == stored[lo] + concat_stored(
            stored,
            lo + 1,
            s.len() - 1,
        ));
        assert(concat_payloads(s.skip(lo)) == s.skip(lo)[0].payload + concat_payloads(
            s.skip(lo).drop_first(),
        ));
    } else {
        assert(s.skip(lo).len() == 0);
    }
}

/// Round trip: data shreds carrying consecutive chunks of one payload,
/// indexed from zero with exactly the last one terminating the segment,
/// reassemble to that payload — and by order insensitivity, in whatever
/// order they arrive.
pub proof fn lemma_round_trip(slot: u64, capacity: int, s: Seq<ShredView>)
    requires
        1 <= s.len() <= capacity,
        forall|k: int| 0 <= k < s.len() ==> (#[trigger] s[k]).shred_type == ShredType::Data,
        forall|k: int| 0 <= k < s.len() ==> (#[trigger] s[k]).index == k,
        forall|k: int|
            0 <= k < s.len() ==> ((#[trigger] s[k]).is_terminator() <==> k == s.len() - 1),
    ensures
        sv_deshred(sv_feed(sv_new(slot, capacity), s)).1 == Some(concat_payloads(s)),
{
    lemma_in_order_feed(slot, capacity, s);
    let st = sv_feed(sv_new(slot, capacity), s);
    let n = s.len() as int;
    assert(st.ends == seq![n - 1]);
    assert(st.ends[0] == n - 1);
    assert(sv_segment_complete(st));
    lemma_concat_stored_matches(st.stored, s, 0);
    assert(s.skip(0) =~= s);
    assert(sv_deshred(st).1 == Some(concat_stored(st.stored, 0, n - 1)));
}

} // verus!
