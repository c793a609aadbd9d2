//! Grouping slot occupancy into contiguous runs — the compute side of
//! cluster rendering. Collaborators that draw a table color each slot by
//! the length of the occupied (or empty) run it belongs to; this module
//! produces those runs from the slot sequence.

use crate::slots::TableSlot;
use vstd::prelude::*;

verus! {

/// Whether each slot is occupied, in table order.
pub open spec fn occupancy_of<V>(t: Seq<TableSlot<V>>) -> Seq<bool> {
    t.map_values(|s: TableSlot<V>| s is Some)
}

/// Maximal runs of equal occupancy, in order: each run is its occupancy
/// flag paired with its length. Built left to right: a new element either
/// extends the last run (same flag) or starts a new run of length 1.
pub open spec fn runs_of(s: Seq<bool>) -> Seq<(bool, nat)>
    decreases s.len(),
{
    if s.len() == 0 {
        Seq::empty()
    } else {
        let rest = runs_of(s.drop_last());
        if rest.len() > 0 && rest.last().0 == s.last() {
            rest.update(rest.len() - 1, (s.last(), (rest.last().1 + 1) as nat))
        } else {
            rest.push((s.last(), 1nat))
        }
    }
}

/// A run never outgrows the sequence it groups.
proof fn lemma_runs_last_le(s: Seq<bool>)
    ensures
        runs_of(s).len() > 0 ==> runs_of(s).last().1 <= s.len(),
    decreases s.len(),
{
    if s.len() > 0 {
        lemma_runs_last_le(s.drop_last());
    }
}

/// Flags each slot of a table with its occupancy, in order.
pub fn occupancy<V>(slots: &Vec<TableSlot<V>>) -> (r: Vec<bool>)
    ensures
        r@ == occupancy_of(slots@),
{
    let mut r: Vec<bool> = Vec::new();
    let mut i: usize = 0;
    while i < slots.len()
        invariant
            i <= slots@.len(),
            r@.len() == i,
            forall|j: int| 0 <= j < i ==> r@[j] == (slots@[j] is Some),
        decreases slots@.len() - i,
    {
        r.push(slots[i].is_some());
        i = i + 1;
    }
    proof {
        assert(r@ =~= occupancy_of(slots@));
    }
    r
}

/// Groups an occupancy sequence into its maximal runs of equal flags, so
/// that a renderer can draw contiguous occupied clusters as bands.
pub fn occupancy_runs(occ: &Vec<bool>) -> (r: Vec<(bool, usize)>)
    ensures
        r@.len() == runs_of(occ@).len(),
        forall|j: int|
            0 <= j < r@.len() ==> (#[trigger] r@[j]).0 == runs_of(occ@)[j].0 && r@[j].1 as nat
                == runs_of(occ@)[j].1,
{
    let mut r: Vec<(bool, usize)> = Vec::new();
    let mut i: usize = 0;
    proof {
        assert(occ@.take(0) =~= Seq::<bool>::empty());
    }
    while i < occ.len()
        invariant
            i <= occ@.len(),
            r@.len() == runs_of(occ@.take(i as int)).len(),
            forall|j: int|
                0 <= j < r@.len() ==> (#[trigger] r@[j]).0 == runs_of(occ@.take(i as int))[j].0
                    && r@[j].1 as nat == runs_of(occ@.take(i as int))[j].1,
        decreases occ@.len() - i,
    {
        let ghost prev = occ@.take(i as int);
        proof {
            assert(occ@.take(i as int + 1).drop_last() =~= prev);
            assert(occ@.take(i as int + 1).last() == occ@[i as int]);
            lemma_runs_last_le(prev);
        }
        let flag = occ[i];
        let n = r.len();
        if n > 0 {
            let (last_flag, last_count) = r[n - 1];
            if last_flag == flag {
                r[n - 1] = (flag, last_count + 1);
            } else {
                r.push((flag, 1));
            }
        } else {
            r.push((flag, 1));
        }
        i = i + 1;
    }
    proof {
        assert(occ@.take(occ@.len() as int) =~= occ@);
    }
    r
}

} // verus!
