//! The slot model shared by both tables: a fixed-length sequence of slots,
//! each empty or holding one (key, value) pair, with the occupancy count
//! and the facts the capacity-bound laws rest on.

use vstd::prelude::*;

verus! {

/// One table slot: at most one (key, value) pair.
pub type TableSlot<V> = Option<(i64, V)>;

/// Number of occupied slots in a table view.
pub open spec fn count_occupied<V>(t: Seq<TableSlot<V>>) -> nat
    decreases t.len(),
{
    if t.len() == 0 {
        0
    } else {
        count_occupied(t.drop_last()) + (if t.last() is Some {
            1nat
        } else {
            0nat
        })
    }
}

/// The occupancy count never exceeds the capacity.
pub proof fn lemma_count_le_len<V>(t: Seq<TableSlot<V>>)
    ensures
        count_occupied(t) <= t.len(),
    decreases t.len(),
{
    if t.len() > 0 {
        lemma_count_le_len(t.drop_last());
    }
}

/// A table with fewer occupied slots than capacity has an empty slot.
pub proof fn lemma_count_lt_exists_free<V>(t: Seq<TableSlot<V>>)
    requires
        count_occupied(t) < t.len(),
    ensures
        exists|i: int| 0 <= i < t.len() && t[i] is None,
    decreases t.len(),
{
    if t.last() is None {
        assert(t[t.len() - 1] is None);
    } else {
        lemma_count_lt_exists_free(t.drop_last());
        let i = choose|i: int| 0 <= i < t.drop_last().len() && t.drop_last()[i] is None;
        assert(t[i] is None);
    }
}

/// A table whose occupancy count equals its capacity has no empty slot.
pub proof fn lemma_count_full_all_occupied<V>(t: Seq<TableSlot<V>>)
    requires
        count_occupied(t) == t.len(),
    ensures
        forall|i: int| 0 <= i < t.len() ==> t[i] is Some,
    decreases t.len(),
{
    if t.len() > 0 {
        lemma_count_le_len(t.drop_last());
        lemma_count_full_all_occupied(t.drop_last());
        assert forall|i: int| 0 <= i < t.len() implies t[i] is Some by {
            if i < t.len() - 1 {
                assert(t.drop_last()[i] is Some);
            }
        }
    }
}

/// Advancing one step along a ring of `cap` positions: if the current
/// position is `(ideal + i) % cap`, the next is one higher, wrapping to zero
/// at the capacity.
pub proof fn lemma_ring_step(ideal: int, i: int, cap: int, idx: int)
    requires
        0 < cap,
        0 <= i,
        idx == (ideal + i) % cap,
    ensures
        0 <= idx < cap,
        (ideal + i + 1) % cap == if idx + 1 == cap {
            0int
        } else {
            idx + 1
        },
{
    vstd::arithmetic::div_mod::lemma_mod_bound(ideal + i, cap);
    vstd::arithmetic::div_mod::lemma_add_mod_noop(ideal + i, 1, cap);
    if cap == 1 {
        vstd::arithmetic::div_mod::lemma_mod_self_0(cap);
        vstd::arithmetic::div_mod::lemma_small_mod(0nat, 1nat);
    } else {
        vstd::arithmetic::div_mod::lemma_small_mod(1nat, cap as nat);
        if idx + 1 == cap {
            vstd::arithmetic::div_mod::lemma_mod_self_0(cap);
        } else {
            vstd::arithmetic::div_mod::lemma_small_mod((idx + 1) as nat, cap as nat);
        }
    }
}

/// Filling one empty slot raises the occupancy count by exactly one.
pub proof fn lemma_count_fill_one<V>(t: Seq<TableSlot<V>>, i: int, kv: (i64, V))
    requires
        0 <= i < t.len(),
        t[i] is None,
    ensures
        count_occupied(t.update(i, Some(kv))) == count_occupied(t) + 1,
    decreases t.len(),
{
    let t2 = t.update(i, Some(kv));
    if i == t.len() - 1 {
        assert(t2.drop_last() =~= t.drop_last());
    } else {
        assert(t2.drop_last() =~= t.drop_last().update(i, Some(kv)));
        lemma_count_fill_one(t.drop_last(), i, kv);
        assert(t2.last() == t.last());
    }
}

} // verus!
