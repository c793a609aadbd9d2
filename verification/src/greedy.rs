//! The flat greedy table: a single fixed-length slot sequence, inserting by
//! linear probing from the key's ideal index and taking the first opening.
//!
//! Probe-count convention: the first slot check counts as probe 0, so an
//! insertion that finds its ideal slot empty reports 0 probes, and the
//! i-th colliding insertion under a constant hash reports i probes.

use crate::hashing::{default_hash, default_hash_spec};
use crate::slots::{
    count_occupied, lemma_count_fill_one, lemma_count_full_all_occupied, lemma_count_le_len,
    lemma_count_lt_exists_free, TableSlot,
};
use crate::HashTableError;
use vstd::prelude::*;

verus! {

/// Hashing strategy for the flat greedy table.
#[derive(Clone, Copy, Debug, PartialEq, Eq, Structural)]
pub enum HashStrategy {
    /// General-purpose dispersion hash (std's `DefaultHasher`), approximating
    /// uniform random placement.
    Default,
    /// `key mod n`: deliberately low-entropy, collapsing many keys to the
    /// same hash to force visible clustering.
    Modulo(usize),
}

impl HashStrategy {
    /// A usable strategy: a modulo base of zero would leave the hash undefined.
    pub open spec fn wf(&self) -> bool {
        match *self {
            HashStrategy::Default => true,
            HashStrategy::Modulo(n) => n > 0,
        }
    }

    /// Whether the strategy can hash this key: the modulo strategy needs the
    /// key to be representable as a non-negative machine integer.
    pub open spec fn hash_ok(&self, key: i64) -> bool {
        match *self {
            HashStrategy::Default => true,
            HashStrategy::Modulo(_) => 0 <= key && key as int <= usize::MAX as int,
        }
    }

    /// The hash the strategy assigns to a key.
    pub open spec fn spec_hash(&self, key: i64) -> u64
        recommends
            self.wf(),
            self.hash_ok(key),
    {
        match *self {
            HashStrategy::Default => default_hash_spec(key),
            HashStrategy::Modulo(n) => ((key as int) % (n as int)) as u64,
        }
    }
}

/// Offset of the first empty slot at or after probe offset `i`, scanning
/// `(ideal + i) mod len, (ideal + i + 1) mod len, ...`; `None` if every
/// offset up to the capacity is occupied.
pub open spec fn first_free_from<V>(t: Seq<TableSlot<V>>, ideal: int, i: nat) -> Option<nat>
    recommends
        t.len() > 0,
    decreases t.len() - i,
{
    if i >= t.len() {
        None
    } else if t[(ideal + i) % (t.len() as int)] is None {
        Some(i)
    } else {
        first_free_from(t, ideal, i + 1)
    }
}

/// What one greedy insertion does, as a function of the table view, the
/// strategy, and the key: either the probe count together with the updated
/// view, or the error, with the table unchanged. Insertion is total on
/// non-full tables: it fails only when the key cannot be hashed or every
/// slot is occupied.
pub open spec fn greedy_insert_spec<V>(
    t: Seq<TableSlot<V>>,
    s: HashStrategy,
    key: i64,
    value: V,
) -> Result<(nat, Seq<TableSlot<V>>), HashTableError> {
    if t.len() == 0 {
        Err(HashTableError::TableFull)
    } else if !s.hash_ok(key) {
        Err(HashTableError::KeyConversion)
    } else {
        let ideal = (s.spec_hash(key) as int) % (t.len() as int);
        match first_free_from(t, ideal, 0) {
            Some(p) => Ok(
                (p, t.update((ideal + p) % (t.len() as int), Some((key, value)))),
            ),
            None => Err(HashTableError::TableFull),
        }
    }
}

/// A flat open-addressing table with greedy linear-probe insertion.
///
/// Capacity is fixed at construction; slots are never cleared or resized,
/// so an insertion into a full table fails rather than grow the table.
pub struct HashTable<V> {
    /// The ordered slot sequence, exposed so collaborators can render
    /// occupancy.
    pub table: Vec<TableSlot<V>>,
    /// The active hashing strategy; replaced only through
    /// [`HashTable::set_hash_strategy`].
    pub hash_strategy: HashStrategy,
}

impl<V> View for HashTable<V> {
    type V = Seq<TableSlot<V>>;

    open spec fn view(&self) -> Seq<TableSlot<V>> {
        self.table@
    }
}

impl<V> HashTable<V> {
    /// The active hashing strategy.
    pub open spec fn strategy(&self) -> HashStrategy {
        self.hash_strategy
    }

    /// Well-formed table: its strategy is usable.
    pub open spec fn wf(&self) -> bool {
        self.hash_strategy.wf()
    }

    /// Allocates `size` empty slots, hashing with the default strategy.
    pub fn new(size: usize) -> (r: Self)
        ensures
            r.wf(),
            r@.len() == size,
            forall|i: int| 0 <= i < size ==> r@[i] is None,
            r.strategy() == HashStrategy::Default,
    {
        let mut table: Vec<TableSlot<V>> = Vec::new();
        let mut i: usize = 0;
        while i < size
            invariant
                i <= size,
                table@.len() == i,
                forall|j: int| 0 <= j < i ==> table@[j] is None,
            decreases size - i,
        {
            table.push(None);
            i = i + 1;
        }
        HashTable { table, hash_strategy: HashStrategy::Default }
    }

    /// Replaces the hashing strategy for subsequent insertions; the slots
    /// are untouched.
    pub fn set_hash_strategy(&mut self, strategy: HashStrategy)
        requires
            strategy.wf(),
        ensures
            final(self).wf(),
            final(self)@ == old(self)@,
            final(self).strategy() == strategy,
    {
        self.hash_strategy = strategy;
    }

    /// Hashes a key with the active strategy. Fails exactly when the modulo
    /// strategy is active and the key is not a non-negative machine integer.
    pub fn hash(&self, key: &i64) -> (r: Result<u64, HashTableError>)
        requires
            self.wf(),
        ensures
            match r {
                Ok(h) => self.strategy().hash_ok(*key) && h == self.strategy().spec_hash(*key),
                Err(e) => e == HashTableError::KeyConversion && !self.strategy().hash_ok(*key),
            },
    {
        match self.hash_strategy {
            HashStrategy::Default => Ok(default_hash(*key)),
            HashStrategy::Modulo(n) => {
                if *key < 0 {
                    Err(HashTableError::KeyConversion)
                } else {
                    let k: u64 = *key as u64;
                    if k > usize::MAX as u64 {
                        Err(HashTableError::KeyConversion)
                    } else {
                        let numeric: usize = k as usize;
                        Ok((numeric % n) as u64)
                    }
                }
            },
        }
    }

    /// Inserts by linear probing: scans `(ideal + i) mod capacity` for
    /// `i = 0, 1, 2, ...` and places the entry in the first empty slot,
    /// returning `i` (the probe count, first check counting as 0).
    ///
    /// Exactly one slot changes on success; nothing changes on failure.
    /// The insertion succeeds if and only if the key hashes and some slot
    /// is empty; a full table reports `TableFull` rather than resize.
    pub fn insert_greedy(&mut self, key: i64, value: V) -> (r: Result<usize, HashTableError>)
        requires
            old(self).wf(),
        ensures
            final(self).wf(),
            final(self).strategy() == old(self).strategy(),
            match greedy_insert_spec(old(self)@, old(self).strategy(), key, value) {
                Ok((p, t2)) => r == Ok::<usize, HashTableError>(p as usize) && final(self)@
                    == t2,
                Err(e) => r == Err::<usize, HashTableError>(e) && final(self)@ == old(self)@,
            },
    {
        let cap = self.table.len();
        if cap == 0 {
            return Err(HashTableError::TableFull);
        }
        let h = match self.hash(&key) {
            Ok(h) => h,
            Err(e) => {
                return Err(e);
            },
        };
        let ideal: usize = (h % (cap as u64)) as usize;
        let mut idx: usize = ideal;
        let mut i: usize = 0;
        proof {
            vstd::arithmetic::div_mod::lemma_small_mod(ideal as nat, cap as nat);
        }
        while i < cap
            invariant
                self == old(self),
                self.wf(),
                cap == self@.len(),
                0 < cap,
                old(self).strategy().hash_ok(key),
                ideal == (old(self).strategy().spec_hash(key) as int) % (cap as int),
                i <= cap,
                idx == (ideal + i) % (cap as int),
                forall|j: int|
                    0 <= j < i ==> (#[trigger] self@[(ideal + j) % (cap as int)]) is Some,
            decreases cap - i,
        {
            if self.table[idx].is_none() {
                self.table[idx] = Some((key, value));
                proof {
                    lemma_first_free_skip(old(self)@, ideal as int, i as nat);
                }
                return Ok(i);
            }
            proof {
                crate::slots::lemma_ring_step(ideal as int, i as int, cap as int, idx as int);
            }
            idx = if idx + 1 == cap {
                0
            } else {
                idx + 1
            };
            i = i + 1;
        }
        proof {
            lemma_first_free_skip(self@, ideal as int, cap as nat);
        }
        Err(HashTableError::TableFull)
    }
}

/// The probe counts and final table of a run of greedy insertions of
/// `keys`, each paired with `value`, applied left to right; the first
/// error aborts the run.
#[verifier::opaque]
pub open spec fn greedy_run_spec<V>(
    t: Seq<TableSlot<V>>,
    s: HashStrategy,
    keys: Seq<i64>,
    value: V,
) -> Result<(Seq<nat>, Seq<TableSlot<V>>), HashTableError>
    decreases keys.len(),
{
    if keys.len() == 0 {
        Ok((Seq::empty(), t))
    } else {
        match greedy_insert_spec(t, s, keys[0], value) {
            Ok((p, t2)) => match greedy_run_spec(t2, s, keys.drop_first(), value) {
                Ok((ps, t3)) => Ok((seq![p] + ps, t3)),
                Err(e) => Err(e),
            },
            Err(e) => Err(e),
        }
    }
}

/// Determinism: the outcome of a greedy run — every probe count and the
/// final table — is a function of the starting table, the strategy, and
/// the key sequence alone, so repeated runs from fresh, equal tables
/// produce identical probe-count sequences; there is no hidden randomness.
pub proof fn lemma_greedy_run_deterministic<V>(
    t1: Seq<TableSlot<V>>,
    t2: Seq<TableSlot<V>>,
    s1: HashStrategy,
    s2: HashStrategy,
    keys1: Seq<i64>,
    keys2: Seq<i64>,
    value1: V,
    value2: V,
)
    requires
        t1 == t2,
        s1 == s2,
        keys1 == keys2,
        value1 == value2,
    ensures
        greedy_run_spec(t1, s1, keys1, value1) == greedy_run_spec(t2, s2, keys2, value2),
{
}

/// The first `m` slots occupied, the rest empty: the cluster shape that
/// the all-keys-collide strategy builds from an empty table.
pub open spec fn prefix_occupied<V>(t: Seq<TableSlot<V>>, m: int) -> bool {
    &&& forall|i: int| 0 <= i < m ==> t[i] is Some
    &&& forall|i: int| m <= i < t.len() ==> t[i] is None
}

/// One step of monotonic clustering: under `Modulo(1)` every key hashes to
/// 0, so inserting into a table whose first `m` slots are occupied costs
/// exactly `m` probes and extends the occupied prefix by one.
pub proof fn lemma_modulo_one_step<V>(t: Seq<TableSlot<V>>, m: int, key: i64, value: V)
    requires
        0 <= m < t.len(),
        prefix_occupied(t, m),
        HashStrategy::Modulo(1).hash_ok(key),
    ensures
        greedy_insert_spec(t, HashStrategy::Modulo(1), key, value) == Ok::<
            (nat, Seq<TableSlot<V>>),
            HashTableError,
        >((m as nat, t.update(m, Some((key, value))))),
        prefix_occupied(t.update(m, Some((key, value))), m + 1),
{
    let s = HashStrategy::Modulo(1);
    let len = t.len() as int;
    assert(s.spec_hash(key) == 0) by {
        vstd::arithmetic::div_mod::lemma_mod_bound(key as int, 1);
    }
    vstd::arithmetic::div_mod::lemma_small_mod(0nat, len as nat);
    assert forall|j: int| 0 <= j < m implies (#[trigger] t[(0 + j) % len]) is Some by {
        vstd::arithmetic::div_mod::lemma_small_mod(j as nat, len as nat);
    }
    lemma_first_free_skip(t, 0, m as nat);
    vstd::arithmetic::div_mod::lemma_small_mod(m as nat, len as nat);
    assert(first_free_from(t, 0, m as nat) == Some(m as nat));
}

/// Monotonic clustering cost: under `Modulo(1)` (all keys hash to 0), a
/// run of `n` hashable keys into a table whose first `m` slots are occupied
/// succeeds with probe counts `m, m+1, ..., m+n-1`; from an empty table
/// (`m == 0`) that is `0, 1, ..., n-1`, the i-th colliding insertion
/// costing exactly i probes.
pub proof fn lemma_modulo_one_clustering<V>(
    t: Seq<TableSlot<V>>,
    m: int,
    keys: Seq<i64>,
    value: V,
)
    requires
        0 <= m,
        m + keys.len() <= t.len(),
        prefix_occupied(t, m),
        forall|i: int| 0 <= i < keys.len() ==> HashStrategy::Modulo(1).hash_ok(#[trigger] keys[i]),
    ensures
        ({
            let r = greedy_run_spec(t, HashStrategy::Modulo(1), keys, value);
            &&& r is Ok
            &&& r->Ok_0.0 == Seq::new(keys.len(), |i: int| (m + i) as nat)
            &&& r->Ok_0.1.len() == t.len()
            &&& prefix_occupied(r->Ok_0.1, m + keys.len())
        }),
    decreases keys.len(),
{
    reveal(greedy_run_spec);
    let s = HashStrategy::Modulo(1);
    if keys.len() == 0 {
        assert(Seq::new(0, |i: int| (m + i) as nat) =~= Seq::<nat>::empty());
    } else {
        lemma_modulo_one_step(t, m, keys[0], value);
        let t2 = t.update(m, Some((keys[0], value)));
        assert forall|i: int|
            0 <= i < keys.drop_first().len() implies s.hash_ok(
            #[trigger] keys.drop_first()[i],
        ) by {
            assert(keys.drop_first()[i] == keys[i + 1]);
        }
        lemma_modulo_one_clustering(t2, m + 1, keys.drop_first(), value);
        let rest = greedy_run_spec(t2, s, keys.drop_first(), value);
        assert(seq![m as nat] + rest->Ok_0.0 =~= Seq::new(keys.len(), |i: int| (m + i) as nat));
    }
}

impl<V: Copy> HashTable<V> {
    /// Inserts each key in order, all with the same value, returning every
    /// insertion's probe count — the probe-versus-load stream that
    /// measurement drivers record. The first failure aborts the run with
    /// its error.
    #[verifier::rlimit(50)]
    pub fn insert_keys(&mut self, keys: &Vec<i64>, value: V) -> (r: Result<
        Vec<usize>,
        HashTableError,
    >)
        requires
            old(self).wf(),
        ensures
            final(self).wf(),
            final(self).strategy() == old(self).strategy(),
            match greedy_run_spec(old(self)@, old(self).strategy(), keys@, value) {
                Ok((counts, t2)) => {
                    &&& r is Ok
                    &&& r->Ok_0@.len() == counts.len()
                    &&& forall|i: int|
                        0 <= i < counts.len() ==> (#[trigger] r->Ok_0@[i]) as nat == counts[i]
                    &&& final(self)@ == t2
                },
                Err(e) => r == Err::<Vec<usize>, HashTableError>(e),
            },
    {
        let ghost t0 = self@;
        let ghost s = self.strategy();
        let mut counts: Vec<usize> = Vec::new();
        let ghost mut cmap: Seq<nat> = Seq::empty();
        let mut idx: usize = 0;
        proof {
            assert(keys@.skip(0) =~= keys@);
            match greedy_run_spec(t0, s, keys@, value) {
                Ok((rest, t2)) => {
                    assert(Seq::<nat>::empty() + rest =~= rest);
                },
                Err(e) => {},
            }
        }
        while idx < keys.len()
            invariant
                self.wf(),
                self.strategy() == s,
                s == old(self).strategy(),
                t0 == old(self)@,
                idx <= keys@.len(),
                counts@.len() == idx,
                cmap.len() == idx,
                forall|i: int| 0 <= i < idx ==> (#[trigger] counts@[i]) as nat == cmap[i],
                match greedy_run_spec(self@, s, keys@.skip(idx as int), value) {
                    Ok((rest, t2)) => greedy_run_spec(t0, s, keys@, value) == Ok::<
                        (Seq<nat>, Seq<TableSlot<V>>),
                        HashTableError,
                    >((cmap + rest, t2)),
                    Err(e) => greedy_run_spec(t0, s, keys@, value) == Err::<
                        (Seq<nat>, Seq<TableSlot<V>>),
                        HashTableError,
                    >(e),
                },
            decreases keys@.len() - idx,
        {
            let ghost pre = self@;
            let key = keys[idx];
            proof {
                lemma_greedy_run_step(t0, s, keys@, value, idx as int, pre, cmap);
            }
            match self.insert_greedy(key, value) {
                Ok(p) => {
                    counts.push(p);
                    proof {
                        vstd::std_specs::vec::axiom_spec_len(&self.table);
                        let (p0, t2) = greedy_insert_spec(pre, s, key, value)->Ok_0;
                        assert(p as nat == p0);
                        cmap = cmap.push(p as nat);
                    }
                },
                Err(e) => {
                    return Err(e);
                },
            }
            idx = idx + 1;
        }
        proof {
            reveal(greedy_run_spec);
            assert(keys@.skip(keys@.len() as int) =~= Seq::<i64>::empty());
            assert(cmap + Seq::<nat>::empty() =~= cmap);
        }
        Ok(counts)
    }
}

/// One step of a greedy run: how the run over `keys` starting at position
/// `idx` decomposes into the insertion of `keys[idx]` followed by the run
/// over the remaining keys.
proof fn lemma_greedy_run_step<V>(
    t0: Seq<TableSlot<V>>,
    s: HashStrategy,
    keys: Seq<i64>,
    value: V,
    idx: int,
    pre: Seq<TableSlot<V>>,
    cmap: Seq<nat>,
)
    requires
        0 <= idx < keys.len(),
        match greedy_run_spec(pre, s, keys.skip(idx), value) {
            Ok((rest, t2)) => greedy_run_spec(t0, s, keys, value) == Ok::<
                (Seq<nat>, Seq<TableSlot<V>>),
                HashTableError,
            >((cmap + rest, t2)),
            Err(e) => greedy_run_spec(t0, s, keys, value) == Err::<
                (Seq<nat>, Seq<TableSlot<V>>),
                HashTableError,
            >(e),
        },
    ensures
        match greedy_insert_spec(pre, s, keys[idx], value) {
            Ok((p0, t2)) => p0 < pre.len() && match greedy_run_spec(
                t2,
                s,
                keys.skip(idx + 1),
                value,
            ) {
                Ok((rest2, t3)) => greedy_run_spec(t0, s, keys, value) == Ok::<
                    (Seq<nat>, Seq<TableSlot<V>>),
                    HashTableError,
                >((cmap.push(p0) + rest2, t3)),
                Err(e) => greedy_run_spec(t0, s, keys, value) == Err::<
                    (Seq<nat>, Seq<TableSlot<V>>),
                    HashTableError,
                >(e),
            },
            Err(e) => greedy_run_spec(t0, s, keys, value) == Err::<
                (Seq<nat>, Seq<TableSlot<V>>),
                HashTableError,
            >(e),
        },
{
    reveal(greedy_run_spec);
    let tail = keys.skip(idx);
    assert(tail[0] == keys[idx]);
    assert(tail.drop_first() =~= keys.skip(idx + 1));
    match greedy_insert_spec(pre, s, keys[idx], value) {
        Ok((p0, t2)) => {
            let ideal = (s.spec_hash(keys[idx]) as int) % (pre.len() as int);
            lemma_first_free_is_free(pre, ideal, 0);
            match greedy_run_spec(t2, s, keys.skip(idx + 1), value) {
                Ok((rest2, t3)) => {
                    assert(cmap + (seq![p0] + rest2) =~= cmap.push(p0) + rest2);
                },
                Err(e) => {},
            }
        },
        Err(e) => {},
    }
}

/// If every probe offset before `i` hits an occupied slot, the first free
/// offset overall is the first free offset at or after `i`.
pub proof fn lemma_first_free_skip<V>(t: Seq<TableSlot<V>>, ideal: int, i: nat)
    requires
        t.len() > 0,
        forall|j: int| 0 <= j < i ==> (#[trigger] t[(ideal + j) % (t.len() as int)]) is Some,
    ensures
        first_free_from(t, ideal, 0) == first_free_from(t, ideal, i),
    decreases i,
{
    if i > 0 {
        lemma_first_free_skip(t, ideal, (i - 1) as nat);
        assert(t[(ideal + (i - 1)) % (t.len() as int)] is Some);
    }
}

/// Capacity bound: while the occupancy count is below the capacity, a
/// greedy insertion of any hashable key succeeds and raises the count by
/// one; once the count equals the capacity, it fails with `TableFull`.
pub proof fn lemma_greedy_capacity_bound<V>(
    t: Seq<TableSlot<V>>,
    s: HashStrategy,
    key: i64,
    value: V,
)
    requires
        t.len() > 0,
        s.hash_ok(key),
    ensures
        count_occupied(t) < t.len() ==> matches!(
            greedy_insert_spec(t, s, key, value), Ok(_)),
        count_occupied(t) < t.len() ==> count_occupied(
            greedy_insert_spec(t, s, key, value)->Ok_0.1,
        ) == count_occupied(t) + 1,
        count_occupied(t) == t.len() ==> greedy_insert_spec(t, s, key, value) == Err::<
            (nat, Seq<TableSlot<V>>),
            HashTableError,
        >(HashTableError::TableFull),
{
    let ideal = (s.spec_hash(key) as int) % (t.len() as int);
    if count_occupied(t) < t.len() {
        lemma_count_lt_exists_free(t);
        let free = choose|i: int| 0 <= i < t.len() && t[i] is None;
        lemma_first_free_finds_free(t, ideal, 0, free);
        let p = first_free_from(t, ideal, 0)->Some_0;
        lemma_first_free_is_free(t, ideal, 0);
        lemma_count_fill_one(t, (ideal + p) % (t.len() as int), (key, value));
    } else {
        lemma_count_le_len(t);
        lemma_count_full_all_occupied(t);
        lemma_first_free_none_when_full(t, ideal, 0);
    }
}

/// Capacity bound over a whole run: a table with spare capacity for all of
/// `keys` accepts every one of them — `C` sequential inserts of hashable
/// keys into an empty table of capacity `C` all succeed, and fill it, so
/// that the next insertion fails with `TableFull` (previous lemma).
pub proof fn lemma_greedy_capacity_bound_run<V>(
    t: Seq<TableSlot<V>>,
    s: HashStrategy,
    keys: Seq<i64>,
    value: V,
)
    requires
        t.len() > 0,
        forall|i: int| 0 <= i < keys.len() ==> s.hash_ok(#[trigger] keys[i]),
        count_occupied(t) + keys.len() <= t.len(),
    ensures
        ({
            let r = greedy_run_spec(t, s, keys, value);
            &&& r is Ok
            &&& r->Ok_0.1.len() == t.len()
            &&& count_occupied(r->Ok_0.1) == count_occupied(t) + keys.len()
        }),
    decreases keys.len(),
{
    reveal(greedy_run_spec);
    if keys.len() > 0 {
        lemma_greedy_capacity_bound(t, s, keys[0], value);
        let t2 = greedy_insert_spec(t, s, keys[0], value)->Ok_0.1;
        assert forall|i: int|
            0 <= i < keys.drop_first().len() implies s.hash_ok(
            #[trigger] keys.drop_first()[i],
        ) by {
            assert(keys.drop_first()[i] == keys[i + 1]);
        }
        lemma_greedy_capacity_bound_run(t2, s, keys.drop_first(), value);
    }
}

/// If some slot is empty, the probe scan finds a free offset.
proof fn lemma_first_free_finds_free<V>(t: Seq<TableSlot<V>>, ideal: int, i: nat, free: int)
    requires
        t.len() > 0,
        i <= t.len(),
        0 <= free < t.len(),
        t[free] is None,
        forall|j: int| 0 <= j < i ==> (#[trigger] t[(ideal + j) % (t.len() as int)]) is Some,
    ensures
        first_free_from(t, ideal, i) is Some,
    decreases t.len() - i,
{
    let len = t.len() as int;
    if i < t.len() {
        if !(t[(ideal + i) % len] is None) {
            lemma_first_free_finds_free(t, ideal, i + 1, free);
        }
    } else {
        // every probe offset is occupied, yet offset (free - ideal) mod len
        // reaches the free slot: contradiction.
        let j = (free - ideal) % len;
        assert(0 <= j < len) by {
            vstd::arithmetic::div_mod::lemma_mod_bound(free - ideal, len);
        }
        assert((ideal + j) % len == free) by {
            vstd::arithmetic::div_mod::lemma_add_mod_noop_right(ideal, free - ideal, len);
            vstd::arithmetic::div_mod::lemma_small_mod(free as nat, len as nat);
        }
        assert(t[(ideal + j) % len] is Some);
        assert(false);
    }
}

/// The offset the probe scan reports does land on an empty slot.
proof fn lemma_first_free_is_free<V>(t: Seq<TableSlot<V>>, ideal: int, i: nat)
    requires
        t.len() > 0,
        first_free_from(t, ideal, i) is Some,
    ensures
        first_free_from(t, ideal, i)->Some_0 < t.len(),
        t[(ideal + first_free_from(t, ideal, i)->Some_0) % (t.len() as int)] is None,
    decreases t.len() - i,
{
    if i < t.len() && !(t[(ideal + i) % (t.len() as int)] is None) {
        lemma_first_free_is_free(t, ideal, i + 1);
    }
}

/// With every slot occupied, the probe scan finds nothing.
proof fn lemma_first_free_none_when_full<V>(t: Seq<TableSlot<V>>, ideal: int, i: nat)
    requires
        t.len() > 0,
        forall|k: int| 0 <= k < t.len() ==> t[k] is Some,
    ensures
        first_free_from(t, ideal, i) is None,
    decreases t.len() - i,
{
    if i < t.len() {
        assert(0 <= (ideal + i) % (t.len() as int) < t.len()) by {
            vstd::arithmetic::div_mod::lemma_mod_bound(ideal + i, t.len() as int);
        }
        lemma_first_free_none_when_full(t, ideal, i + 1);
    }
}

} // verus!
