//! The elastic table: slots partitioned into fixed-size subarrays, inserting
//! with a two-phase probe sequence and an optional decorrelation ("balanced")
//! mode.
//!
//! Phase 1 visits each subarray's single ideal slot, starting from the key's
//! base subarray; phase 2 falls back to a linear scan inside each subarray,
//! skipping the ideal slot already checked. Probe-count convention: every
//! slot check costs one probe and the cumulative count is returned, so an
//! insertion that succeeds on its very first check reports 1.

use crate::hashing::{default_hash, default_hash_spec, rotate_right64, rotr64};
use crate::slots::{
    count_occupied, lemma_count_fill_one, lemma_count_full_all_occupied, lemma_count_le_len,
    lemma_count_lt_exists_free, TableSlot,
};
use crate::HashTableError;
use vstd::prelude::*;

verus! {

/// Maps keys to 64-bit hashes: a pure, deterministic function of the key.
pub trait HashingStrategy: Sized {
    /// A usable strategy (e.g. a non-zero modulo base).
    spec fn wf(&self) -> bool;

    /// Whether the strategy can hash this key.
    spec fn hash_ok(&self, key: i64) -> bool;

    /// The hash the strategy assigns to a key.
    spec fn spec_hash(&self, key: i64) -> u64;

    /// Hashes a key; fails exactly on the keys the strategy cannot
    /// interpret as a non-negative machine integer.
    fn hash(&self, key: &i64) -> (r: Result<u64, HashTableError>)
        requires
            self.wf(),
        ensures
            match r {
                Ok(h) => self.hash_ok(*key) && h == self.spec_hash(*key),
                Err(e) => e == HashTableError::KeyConversion && !self.hash_ok(*key),
            },
    ;
}

/// General-purpose dispersion hash (std's `DefaultHasher`), approximating
/// uniform random placement.
#[derive(Clone, Copy, Debug)]
pub struct DefaultHashStrategy;

impl HashingStrategy for DefaultHashStrategy {
    open spec fn wf(&self) -> bool {
        true
    }

    open spec fn hash_ok(&self, key: i64) -> bool {
        true
    }

    open spec fn spec_hash(&self, key: i64) -> u64 {
        default_hash_spec(key)
    }

    fn hash(&self, key: &i64) -> (r: Result<u64, HashTableError>) {
        Ok(default_hash(*key))
    }
}

/// `key mod n`: deliberately low-entropy, collapsing many keys to the same
/// hash to force visible clustering.
#[derive(Clone, Copy, Debug)]
pub struct ModuloHashStrategy(pub usize);

impl HashingStrategy for ModuloHashStrategy {
    open spec fn wf(&self) -> bool {
        self.0 > 0
    }

    open spec fn hash_ok(&self, key: i64) -> bool {
        0 <= key && key as int <= usize::MAX as int
    }

    open spec fn spec_hash(&self, key: i64) -> u64 {
        ((key as int) % (self.0 as int)) as u64
    }

    fn hash(&self, key: &i64) -> (r: Result<u64, HashTableError>) {
        if *key < 0 {
            Err(HashTableError::KeyConversion)
        } else {
            let k: u64 = *key as u64;
            if k > usize::MAX as u64 {
                Err(HashTableError::KeyConversion)
            } else {
                let numeric: usize = k as usize;
                Ok((numeric % self.0) as u64)
            }
        }
    }
}

/// Closed sum of the two strategies, selected at construction time.
#[derive(Clone, Copy, Debug)]
pub enum HashStrategy {
    /// The general-purpose dispersion hash.
    Default(DefaultHashStrategy),
    /// The clustering-prone modulo hash.
    Modulo(ModuloHashStrategy),
}

impl HashingStrategy for HashStrategy {
    open spec fn wf(&self) -> bool {
        match *self {
            HashStrategy::Default(inner) => inner.wf(),
            HashStrategy::Modulo(inner) => inner.wf(),
        }
    }

    open spec fn hash_ok(&self, key: i64) -> bool {
        match *self {
            HashStrategy::Default(inner) => inner.hash_ok(key),
            HashStrategy::Modulo(inner) => inner.hash_ok(key),
        }
    }

    open spec fn spec_hash(&self, key: i64) -> u64 {
        match *self {
            HashStrategy::Default(inner) => inner.spec_hash(key),
            HashStrategy::Modulo(inner) => inner.spec_hash(key),
        }
    }

    fn hash(&self, key: &i64) -> (r: Result<u64, HashTableError>) {
        match self {
            HashStrategy::Default(inner) => inner.hash(key),
            HashStrategy::Modulo(inner) => inner.hash(key),
        }
    }
}

/// An open-addressing table partitioned into `subarray_count` subarrays of
/// `slots_per_subarray` slots each, stored flat; insertion probes one ideal
/// slot per subarray before falling back to per-subarray linear scans.
///
/// Capacity is fixed at construction; slots are never cleared or resized,
/// so an insertion into a full table fails rather than grow the table.
pub struct ElasticHashTable<V, H: HashingStrategy> {
    /// The flat slot sequence: subarray `s` owns slots
    /// `s * slots_per_subarray .. (s + 1) * slots_per_subarray`.
    pub slots: Vec<TableSlot<V>>,
    /// Number of subarrays; fixed at construction.
    pub subarray_count: usize,
    /// Slots in each subarray; fixed at construction.
    pub slots_per_subarray: usize,
    /// The hashing strategy; fixed at construction.
    pub hasher: H,
    /// Decorrelation mode: when set, the ideal relative slot differs per
    /// subarray (the hash is bit-rotated by the subarray index).
    pub balanced: bool,
}

impl<V, H: HashingStrategy> View for ElasticHashTable<V, H> {
    type V = Seq<TableSlot<V>>;

    open spec fn view(&self) -> Seq<TableSlot<V>> {
        self.slots@
    }
}

impl<V, H: HashingStrategy> ElasticHashTable<V, H> {
    /// Total capacity: all subarrays share the same length.
    pub open spec fn total_slots(&self) -> int {
        self.subarray_count * self.slots_per_subarray
    }

    /// Well-formed table: at least one subarray of at least one slot, the
    /// flat storage holding exactly the fixed capacity, a usable strategy.
    pub open spec fn wf(&self) -> bool {
        &&& self.slots@.len() == self.total_slots()
        &&& self.subarray_count >= 1
        &&& self.slots_per_subarray >= 1
        &&& self.hasher.wf()
    }

    /// The configuration (everything but the slot contents), unchanged by
    /// insertion.
    pub open spec fn config(&self) -> (usize, usize, H, bool) {
        (self.subarray_count, self.slots_per_subarray, self.hasher, self.balanced)
    }

    /// The subarray a hash maps to first.
    pub open spec fn spec_base(&self, hash: u64) -> int {
        (hash as int) % (self.subarray_count as int)
    }

    /// The ideal relative slot of a hash within one subarray: in balanced
    /// mode the hash is bit-rotated by the subarray index first, so that a
    /// key unlucky in one subarray's ideal slot is not equally unlucky in
    /// every subarray.
    pub open spec fn spec_slot_index(&self, hash: u64, subarray_idx: int) -> int {
        if self.balanced {
            (rotr64(hash, subarray_idx as nat) as int) % (self.slots_per_subarray as int)
        } else {
            (hash as int) % (self.slots_per_subarray as int)
        }
    }

    /// The slot examined by the j-th probe when inserting a key with this
    /// hash. Phase 1 (`j < subarray_count`) visits each subarray's ideal
    /// slot, starting from the base subarray; phase 2 scans the remaining
    /// slots of each subarray in the same visiting order, starting just
    /// after the ideal slot and wrapping, so no slot is checked twice.
    pub open spec fn probe_slot(&self, hash: u64, j: int) -> int
        recommends
            self.wf(),
            0 <= j < self.total_slots(),
    {
        let s = self.subarray_count as int;
        let k = self.slots_per_subarray as int;
        if j < s {
            let sub = (self.spec_base(hash) + j) % s;
            sub * k + self.spec_slot_index(hash, sub)
        } else {
            let i = (j - s) / (k - 1);
            let d = (j - s) % (k - 1) + 1;
            let sub = (self.spec_base(hash) + i) % s;
            sub * k + (self.spec_slot_index(hash, sub) + d) % k
        }
    }

    /// Position in the probe order of the first probe at or after `j` that
    /// lands on an empty slot; `None` if every remaining probe is occupied.
    pub open spec fn first_free_probe(&self, t: Seq<TableSlot<V>>, hash: u64, j: nat) -> Option<
        nat,
    >
        recommends
            self.wf(),
            t.len() == self.total_slots(),
        decreases self.total_slots() - j,
    {
        if j >= self.total_slots() {
            None
        } else if t[self.probe_slot(hash, j as int)] is None {
            Some(j)
        } else {
            self.first_free_probe(t, hash, j + 1)
        }
    }

    /// What one elastic insertion does to the slot view `t`, under this
    /// table's configuration: either the probe count (one per slot check,
    /// cumulative over both phases) with the updated view, or the error,
    /// with the view unchanged. It fails only when the key cannot be hashed
    /// or every slot is occupied.
    pub open spec fn insert_spec_at(&self, t: Seq<TableSlot<V>>, key: i64, value: V) -> Result<
        (nat, Seq<TableSlot<V>>),
        HashTableError,
    >
        recommends
            self.wf(),
            t.len() == self.total_slots(),
    {
        if !self.hasher.hash_ok(key) {
            Err(HashTableError::KeyConversion)
        } else {
            let hash = self.hasher.spec_hash(key);
            match self.first_free_probe(t, hash, 0) {
                Some(p) => Ok(
                    (
                        (p + 1) as nat,
                        t.update(self.probe_slot(hash, p as int), Some((key, value))),
                    ),
                ),
                None => Err(HashTableError::TableFull),
            }
        }
    }

    /// What one elastic insertion does to this table's own slots.
    pub open spec fn insert_spec(&self, key: i64, value: V) -> Result<
        (nat, Seq<TableSlot<V>>),
        HashTableError,
    >
        recommends
            self.wf(),
    {
        self.insert_spec_at(self@, key, value)
    }

    /// Allocates `subarray_count` subarrays of `slots_per_subarray` empty
    /// slots each.
    pub fn new(
        subarray_count: usize,
        slots_per_subarray: usize,
        balanced: bool,
        hasher: H,
    ) -> (r: Self)
        requires
            subarray_count >= 1,
            slots_per_subarray >= 1,
            subarray_count * slots_per_subarray <= usize::MAX,
            hasher.wf(),
        ensures
            r.wf(),
            r.subarray_count == subarray_count,
            r.slots_per_subarray == slots_per_subarray,
            r.balanced == balanced,
            r.hasher == hasher,
            r@.len() == subarray_count * slots_per_subarray,
            forall|i: int| 0 <= i < r@.len() ==> r@[i] is None,
    {
        let total_slots: usize = subarray_count * slots_per_subarray;
        let mut slots: Vec<TableSlot<V>> = Vec::new();
        let mut i: usize = 0;
        while i < total_slots
            invariant
                i <= total_slots,
                slots@.len() == i,
                forall|j: int| 0 <= j < i ==> slots@[j] is None,
            decreases total_slots - i,
        {
            slots.push(None);
            i = i + 1;
        }
        ElasticHashTable { slots, subarray_count, slots_per_subarray, hasher, balanced }
    }

    /// The full ordered slot sequence, flattened across subarrays, for
    /// collaborators that render occupancy.
    pub fn slots(&self) -> (r: &Vec<TableSlot<V>>)
        ensures
            r@ == self@,
    {
        &self.slots
    }

    /// Computes the ideal relative slot of a hash within the given subarray.
    pub fn slot_index(&self, hash: u64, subarray_idx: usize) -> (r: usize)
        requires
            self.slots_per_subarray >= 1,
        ensures
            r == self.spec_slot_index(hash, subarray_idx as int),
            r < self.slots_per_subarray,
    {
        let h: u64 = if self.balanced {
            rotate_right64(hash, subarray_idx)
        } else {
            hash
        };
        (h % (self.slots_per_subarray as u64)) as usize
    }

    /// Every probe lands inside the table.
    pub proof fn lemma_probe_slot_in_range(&self, hash: u64, j: int)
        requires
            self.wf(),
            0 <= j < self.total_slots(),
        ensures
            0 <= self.probe_slot(hash, j) < self.total_slots(),
    {
        let s = self.subarray_count as int;
        let k = self.slots_per_subarray as int;
        if j < s {
            let sub = (self.spec_base(hash) + j) % s;
            vstd::arithmetic::div_mod::lemma_mod_bound(self.spec_base(hash) + j, s);
            vstd::arithmetic::div_mod::lemma_mod_bound(
                if self.balanced {
                    rotr64(hash, sub as nat) as int
                } else {
                    hash as int
                },
                k,
            );
            lemma_subarray_offset_in_range(s, k, sub, self.spec_slot_index(hash, sub));
        } else {
            assert(k >= 2) by (nonlinear_arith)
                requires
                    s >= 1,
                    k >= 1,
                    s <= j,
                    j < s * k,
            ;
            let i = (j - s) / (k - 1);
            let d = (j - s) % (k - 1) + 1;
            assert(0 <= i < s) by (nonlinear_arith)
                requires
                    s >= 1,
                    k >= 2,
                    s <= j,
                    j < s * k,
                    i == (j - s) / (k - 1),
            ;
            vstd::arithmetic::div_mod::lemma_mod_bound(j - s, k - 1);
            let sub = (self.spec_base(hash) + i) % s;
            vstd::arithmetic::div_mod::lemma_mod_bound(self.spec_base(hash) + i, s);
            vstd::arithmetic::div_mod::lemma_mod_bound(self.spec_slot_index(hash, sub) + d, k);
            lemma_subarray_offset_in_range(
                s,
                k,
                sub,
                (self.spec_slot_index(hash, sub) + d) % k,
            );
        }
    }

    /// If every probe before `j` hits an occupied slot, the first free probe
    /// overall is the first free probe at or after `j`.
    pub proof fn lemma_ffp_skip(&self, t: Seq<TableSlot<V>>, hash: u64, j: nat)
        requires
            self.wf(),
            t.len() == self.total_slots(),
            forall|j2: int| 0 <= j2 < j ==> t[#[trigger] self.probe_slot(hash, j2)] is Some,
        ensures
            self.first_free_probe(t, hash, 0) == self.first_free_probe(t, hash, j),
        decreases j,
    {
        if j > 0 {
            self.lemma_ffp_skip(t, hash, (j - 1) as nat);
            assert(t[self.probe_slot(hash, j - 1)] is Some);
        }
    }

    /// The probe position the scan reports does land on an empty slot.
    pub proof fn lemma_ffp_is_free(&self, t: Seq<TableSlot<V>>, hash: u64, j: nat)
        requires
            self.wf(),
            t.len() == self.total_slots(),
            self.first_free_probe(t, hash, j) is Some,
        ensures
            j <= self.first_free_probe(t, hash, j)->Some_0 < self.total_slots(),
            t[self.probe_slot(
                hash,
                self.first_free_probe(t, hash, j)->Some_0 as int,
            )] is None,
        decreases self.total_slots() - j,
    {
        if j < self.total_slots() && !(t[self.probe_slot(hash, j as int)] is None) {
            self.lemma_ffp_is_free(t, hash, j + 1);
        }
    }

    /// If some probe at or after `j` lands on an empty slot, the scan finds
    /// one.
    pub proof fn lemma_ffp_finds(&self, t: Seq<TableSlot<V>>, hash: u64, j: nat, j_free: nat)
        requires
            self.wf(),
            t.len() == self.total_slots(),
            j <= j_free < self.total_slots(),
            t[self.probe_slot(hash, j_free as int)] is None,
        ensures
            self.first_free_probe(t, hash, j) is Some,
        decreases j_free - j,
    {
        if !(t[self.probe_slot(hash, j as int)] is None) {
            self.lemma_ffp_finds(t, hash, j + 1, j_free);
        }
    }

    /// With every probe occupied, the scan finds nothing.
    pub proof fn lemma_ffp_none(&self, t: Seq<TableSlot<V>>, hash: u64, j: nat)
        requires
            self.wf(),
            t.len() == self.total_slots(),
            forall|j2: int|
                0 <= j2 < self.total_slots() ==> t[#[trigger] self.probe_slot(
                    hash,
                    j2,
                )] is Some,
        ensures
            self.first_free_probe(t, hash, j) is None,
        decreases self.total_slots() - j,
    {
        if j < self.total_slots() {
            self.lemma_ffp_none(t, hash, j + 1);
        }
    }

    /// Inserts with the two-phase probe algorithm: phase 1 tries the ideal
    /// slot of each subarray in visiting order; phase 2, reached only when
    /// every ideal slot is occupied, linearly scans the rest of each
    /// subarray with wraparound. Returns the cumulative probe count (each
    /// slot check costs one probe).
    ///
    /// Exactly one slot changes on success; nothing changes on failure.
    /// The insertion succeeds if and only if the key hashes and some slot
    /// is empty; a full table reports `TableFull` rather than resize.
    #[verifier::loop_isolation(false)]
    pub fn insert(&mut self, key: i64, value: V) -> (r: Result<usize, HashTableError>)
        requires
            old(self).wf(),
        ensures
            final(self).wf(),
            final(self).config() == old(self).config(),
            match old(self).insert_spec(key, value) {
                Ok((p, t2)) => r == Ok::<usize, HashTableError>(p as usize) && final(self)@
                    == t2,
                Err(e) => r == Err::<usize, HashTableError>(e) && final(self)@ == old(self)@,
            },
    {
        let hash = match self.hasher.hash(&key) {
            Ok(h) => h,
            Err(e) => {
                return Err(e);
            },
        };
        let s = self.subarray_count;
        let k = self.slots_per_subarray;
        let total: usize = self.slots.len();
        let base: usize = (hash % (s as u64)) as usize;
        let mut probe_count: usize = 0;

        // Phase 1: try the ideal slot in each subarray, in visiting order.
        let mut i: usize = 0;
        let mut sub: usize = base;
        proof {
            vstd::arithmetic::div_mod::lemma_small_mod(base as nat, s as nat);
        }
        while i < s
            invariant
                self == old(self),
                i <= s,
                sub == (base + i) % (s as int),
                probe_count == i,
                forall|j: int|
                    0 <= j < i ==> self@[#[trigger] self.probe_slot(hash, j)] is Some,
            decreases s - i,
        {
            let slot_idx = self.slot_index(hash, sub);
            proof {
                vstd::arithmetic::div_mod::lemma_mod_bound(base + i, s as int);
                lemma_subarray_offset_in_range(s as int, k as int, sub as int, slot_idx as int);
            }
            let offset = sub * k + slot_idx;
            probe_count = probe_count + 1;
            if self.slots[offset].is_none() {
                self.slots[offset] = Some((key, value));
                proof {
                    assert(i < s * k) by (nonlinear_arith)
                        requires
                            0 <= i < s,
                            1 <= k,
                    ;
                    assert(old(self).probe_slot(hash, i as int) == offset);
                    old(self).lemma_ffp_skip(old(self)@, hash, i as nat);
                }
                return Ok(probe_count);
            }
            proof {
                crate::slots::lemma_ring_step(base as int, i as int, s as int, sub as int);
            }
            sub = if sub + 1 == s {
                0
            } else {
                sub + 1
            };
            i = i + 1;
        }

        // Phase 2: fall back to a linear scan inside each subarray, in the
        // same visiting order, skipping the ideal slot already probed.
        let mut i: usize = 0;
        let mut sub: usize = base;
        proof {
            vstd::arithmetic::div_mod::lemma_small_mod(base as nat, s as nat);
            assert(s <= s * k) by (nonlinear_arith)
                requires
                    1 <= k,
                    0 <= s,
            ;
        }
        while i < s
            invariant
                self == old(self),
                i <= s,
                sub == (base + i) % (s as int),
                probe_count == s + i * (k - 1),
                probe_count <= s * k,
                forall|j: int|
                    0 <= j < probe_count ==> self@[#[trigger] self.probe_slot(
                        hash,
                        j,
                    )] is Some,
            decreases s - i,
        {
            let start = self.slot_index(hash, sub);
            let mut d: usize = 1;
            proof {
                vstd::arithmetic::div_mod::lemma_small_mod(start as nat, k as nat);
                crate::slots::lemma_ring_step(start as int, 0, k as int, start as int);
            }
            let mut pos: usize = if start + 1 == k {
                0
            } else {
                start + 1
            };
            proof {
                vstd::arithmetic::div_mod::lemma_mod_bound(base + i, s as int);
                assert(s + i * (k - 1) + (k - 1) <= s * k) by (nonlinear_arith)
                    requires
                        1 <= s,
                        1 <= k,
                        0 <= i < s,
                ;
            }
            while d < k
                invariant
                    self == old(self),
                    1 <= d <= k,
                    i < s,
                    sub == (base + i) % (s as int),
                    start == self.spec_slot_index(hash, sub as int),
                    pos == (start + d) % (k as int),
                    probe_count == s + i * (k - 1) + (d - 1),
                    probe_count + (k - d) <= s * k,
                    forall|j: int|
                        0 <= j < probe_count ==> self@[#[trigger] self.probe_slot(
                            hash,
                            j,
                        )] is Some,
                decreases k - d,
            {
                proof {
                    vstd::arithmetic::div_mod::lemma_mod_bound(base + i, s as int);
                    vstd::arithmetic::div_mod::lemma_mod_bound(start + d, k as int);
                    lemma_subarray_offset_in_range(s as int, k as int, sub as int, pos as int);
                    assert(sub * k + pos < self@.len());
                    vstd::arithmetic::div_mod::lemma_fundamental_div_mod_converse(
                        probe_count - s,
                        k - 1,
                        i as int,
                        d - 1,
                    );
                }
                let offset = sub * k + pos;
                probe_count = probe_count + 1;
                if self.slots[offset].is_none() {
                    self.slots[offset] = Some((key, value));
                    proof {
                        vstd::arithmetic::mul::lemma_mul_nonnegative(i as int, k - 1);
                        assert(old(self).probe_slot(hash, probe_count - 1) == offset);
                        old(self).lemma_ffp_skip(old(self)@, hash, (probe_count - 1) as nat);
                    }
                    return Ok(probe_count);
                }
                proof {
                    crate::slots::lemma_ring_step(start as int, d as int, k as int, pos as int);
                }
                pos = if pos + 1 == k {
                    0
                } else {
                    pos + 1
                };
                d = d + 1;
            }
            proof {
                assert(s + i * (k - 1) + (k - 1) == s + (i + 1) * (k - 1)) by (nonlinear_arith);
                crate::slots::lemma_ring_step(base as int, i as int, s as int, sub as int);
            }
            sub = if sub + 1 == s {
                0
            } else {
                sub + 1
            };
            i = i + 1;
        }
        proof {
            assert(s + s * (k - 1) == s * k) by (nonlinear_arith);
            self.lemma_ffp_none(self@, hash, 0);
        }
        Err(HashTableError::TableFull)
    }
}

impl<V: Copy, H: HashingStrategy> ElasticHashTable<V, H> {
    /// Inserts each key in order, all with the same value, returning every
    /// insertion's probe count — the probe-versus-load stream that
    /// measurement drivers record. The first failure aborts the run with
    /// its error.
    #[verifier::rlimit(50)]
    pub fn insert_keys(&mut self, keys: &Vec<i64>, value: V) -> (r: Result<
        Vec<usize>,
        HashTableError,
    >)
        requires
            old(self).wf(),
        ensures
            final(self).wf(),
            final(self).config() == old(self).config(),
            match elastic_run_spec(*old(self), old(self)@, keys@, value) {
                Ok((counts, t2)) => {
                    &&& r is Ok
                    &&& r->Ok_0@.len() == counts.len()
                    &&& forall|i: int|
                        0 <= i < counts.len() ==> (#[trigger] r->Ok_0@[i]) as nat == counts[i]
                    &&& final(self)@ == t2
                },
                Err(e) => r == Err::<Vec<usize>, HashTableError>(e),
            },
    {
        let ghost t0 = self@;
        let mut counts: Vec<usize> = Vec::new();
        let ghost mut cmap: Seq<nat> = Seq::empty();
        let mut idx: usize = 0;
        proof {
            assert(keys@.skip(0) =~= keys@);
            match elastic_run_spec(*old(self), t0, keys@, value) {
                Ok((rest, t2)) => {
                    assert(Seq::<nat>::empty() + rest =~= rest);
                },
                Err(e) => {},
            }
        }
        while idx < keys.len()
            invariant
                self.wf(),
                old(self).wf(),
                self.config() == old(self).config(),
                t0 == old(self)@,
                idx <= keys@.len(),
                counts@.len() == idx,
                cmap.len() == idx,
                forall|i: int| 0 <= i < idx ==> (#[trigger] counts@[i]) as nat == cmap[i],
                match elastic_run_spec(*old(self), self@, keys@.skip(idx as int), value) {
                    Ok((rest, t2)) => elastic_run_spec(*old(self), t0, keys@, value) == Ok::<
                        (Seq<nat>, Seq<TableSlot<V>>),
                        HashTableError,
                    >((cmap + rest, t2)),
                    Err(e) => elastic_run_spec(*old(self), t0, keys@, value) == Err::<
                        (Seq<nat>, Seq<TableSlot<V>>),
                        HashTableError,
                    >(e),
                },
            decreases keys@.len() - idx,
        {
            let ghost pre = self@;
            let ghost cur = *self;
            let key = keys[idx];
            proof {
                lemma_elastic_run_step(*old(self), t0, keys@, value, idx as int, pre, cmap);
            }
            match self.insert(key, value) {
                Ok(p) => {
                    counts.push(p);
                    proof {
                        vstd::std_specs::vec::axiom_spec_len(&self.slots);
                        lemma_insert_spec_congruent(&cur, old(self), pre, key, value);
                        let (p0, t2) = old(self).insert_spec_at(pre, key, value)->Ok_0;
                        assert(p as nat == p0);
                        cmap = cmap.push(p as nat);
                    }
                },
                Err(e) => {
                    proof {
                        lemma_insert_spec_congruent(&cur, old(self), pre, key, value);
                    }
                    return Err(e);
                },
            }
            idx = idx + 1;
        }
        proof {
            reveal(elastic_run_spec);
            assert(keys@.skip(keys@.len() as int) =~= Seq::<i64>::empty());
            assert(cmap + Seq::<nat>::empty() =~= cmap);
        }
        Ok(counts)
    }
}

/// The probe counts and final slot view of a run of elastic insertions of
/// `keys`, each paired with `value`, applied left to right under `tbl`'s
/// configuration, starting from the slot view `t`; the first error aborts
/// the run.
#[verifier::opaque]
pub open spec fn elastic_run_spec<V, H: HashingStrategy>(
    tbl: ElasticHashTable<V, H>,
    t: Seq<TableSlot<V>>,
    keys: Seq<i64>,
    value: V,
) -> Result<(Seq<nat>, Seq<TableSlot<V>>), HashTableError>
    decreases keys.len(),
{
    if keys.len() == 0 {
        Ok((Seq::empty(), t))
    } else {
        match tbl.insert_spec_at(t, keys[0], value) {
            Ok((p, t2)) => match elastic_run_spec(tbl, t2, keys.drop_first(), value) {
                Ok((ps, t3)) => Ok((seq![p] + ps, t3)),
                Err(e) => Err(e),
            },
            Err(e) => Err(e),
        }
    }
}

/// Tables with the same configuration probe in the same order.
pub proof fn lemma_probe_slot_congruent<V, H: HashingStrategy>(
    tbl1: &ElasticHashTable<V, H>,
    tbl2: &ElasticHashTable<V, H>,
    hash: u64,
    j: int,
)
    requires
        tbl1.config() == tbl2.config(),
    ensures
        tbl1.probe_slot(hash, j) == tbl2.probe_slot(hash, j),
{
}

/// Tables with the same configuration find their first free probe at the
/// same position in any shared slot view.
proof fn lemma_ffp_congruent<V, H: HashingStrategy>(
    tbl1: &ElasticHashTable<V, H>,
    tbl2: &ElasticHashTable<V, H>,
    t: Seq<TableSlot<V>>,
    hash: u64,
    j: nat,
)
    requires
        tbl1.config() == tbl2.config(),
    ensures
        tbl1.first_free_probe(t, hash, j) == tbl2.first_free_probe(t, hash, j),
    decreases tbl1.total_slots() - j,
{
    if j < tbl1.total_slots() {
        lemma_probe_slot_congruent(tbl1, tbl2, hash, j as int);
        lemma_ffp_congruent(tbl1, tbl2, t, hash, j + 1);
    }
}

/// Tables with the same configuration insert identically into any shared
/// slot view.
pub proof fn lemma_insert_spec_congruent<V, H: HashingStrategy>(
    tbl1: &ElasticHashTable<V, H>,
    tbl2: &ElasticHashTable<V, H>,
    t: Seq<TableSlot<V>>,
    key: i64,
    value: V,
)
    requires
        tbl1.config() == tbl2.config(),
    ensures
        tbl1.insert_spec_at(t, key, value) == tbl2.insert_spec_at(t, key, value),
{
    if tbl1.hasher.hash_ok(key) {
        let hash = tbl1.hasher.spec_hash(key);
        lemma_ffp_congruent(tbl1, tbl2, t, hash, 0);
        match tbl1.first_free_probe(t, hash, 0) {
            Some(p) => {
                lemma_probe_slot_congruent(tbl1, tbl2, hash, p as int);
            },
            None => {},
        }
    }
}

/// Determinism: tables with the same configuration — subarray geometry,
/// hashing strategy, decorrelation flag — behave identically: a run over
/// the same starting slots and the same keys yields the same probe counts
/// and the same final slots, so repeated runs from fresh tables produce
/// identical probe-count sequences; there is no hidden randomness.
pub proof fn lemma_elastic_run_deterministic<V, H: HashingStrategy>(
    tbl1: &ElasticHashTable<V, H>,
    tbl2: &ElasticHashTable<V, H>,
    t: Seq<TableSlot<V>>,
    keys: Seq<i64>,
    value: V,
)
    requires
        tbl1.config() == tbl2.config(),
    ensures
        elastic_run_spec(*tbl1, t, keys, value) == elastic_run_spec(*tbl2, t, keys, value),
    decreases keys.len(),
{
    reveal(elastic_run_spec);
    if keys.len() > 0 {
        lemma_insert_spec_congruent(tbl1, tbl2, t, keys[0], value);
        match tbl1.insert_spec_at(t, keys[0], value) {
            Ok((p, t2)) => {
                lemma_elastic_run_deterministic(tbl1, tbl2, t2, keys.drop_first(), value);
            },
            Err(e) => {},
        }
    }
}

/// One step of an elastic run: how the run over `keys` starting at
/// position `idx` decomposes into the insertion of `keys[idx]` followed by
/// the run over the remaining keys.
proof fn lemma_elastic_run_step<V, H: HashingStrategy>(
    tbl: ElasticHashTable<V, H>,
    t0: Seq<TableSlot<V>>,
    keys: Seq<i64>,
    value: V,
    idx: int,
    pre: Seq<TableSlot<V>>,
    cmap: Seq<nat>,
)
    requires
        tbl.wf(),
        pre.len() == tbl.total_slots(),
        0 <= idx < keys.len(),
        match elastic_run_spec(tbl, pre, keys.skip(idx), value) {
            Ok((rest, t2)) => elastic_run_spec(tbl, t0, keys, value) == Ok::<
                (Seq<nat>, Seq<TableSlot<V>>),
                HashTableError,
            >((cmap + rest, t2)),
            Err(e) => elastic_run_spec(tbl, t0, keys, value) == Err::<
                (Seq<nat>, Seq<TableSlot<V>>),
                HashTableError,
            >(e),
        },
    ensures
        match tbl.insert_spec_at(pre, keys[idx], value) {
            Ok((p0, t2)) => p0 <= pre.len() && match elastic_run_spec(
                tbl,
                t2,
                keys.skip(idx + 1),
                value,
            ) {
                Ok((rest2, t3)) => elastic_run_spec(tbl, t0, keys, value) == Ok::<
                    (Seq<nat>, Seq<TableSlot<V>>),
                    HashTableError,
                >((cmap.push(p0) + rest2, t3)),
                Err(e) => elastic_run_spec(tbl, t0, keys, value) == Err::<
                    (Seq<nat>, Seq<TableSlot<V>>),
                    HashTableError,
                >(e),
            },
            Err(e) => elastic_run_spec(tbl, t0, keys, value) == Err::<
                (Seq<nat>, Seq<TableSlot<V>>),
                HashTableError,
            >(e),
        },
{
    reveal(elastic_run_spec);
    let tail = keys.skip(idx);
    assert(tail[0] == keys[idx]);
    assert(tail.drop_first() =~= keys.skip(idx + 1));
    match tbl.insert_spec_at(pre, keys[idx], value) {
        Ok((p0, t2)) => {
            let hash = tbl.hasher.spec_hash(keys[idx]);
            tbl.lemma_ffp_is_free(pre, hash, 0);
            match elastic_run_spec(tbl, t2, keys.skip(idx + 1), value) {
                Ok((rest2, t3)) => {
                    assert(cmap + (seq![p0] + rest2) =~= cmap.push(p0) + rest2);
                },
                Err(e) => {},
            }
        },
        Err(e) => {},
    }
}

/// The premise of decorrelation: without it, a key's ideal relative slot is
/// the same in every subarray, so a key unlucky in one subarray's ideal
/// slot is unlucky in all of them at once; with it, the ideal slot of the
/// zeroth subarray still agrees with the undecorrelated rule (the rotation
/// by zero changes nothing), only the other subarrays' ideals move.
pub proof fn lemma_unbalanced_ideals_correlated<V, H: HashingStrategy>(
    tbl: &ElasticHashTable<V, H>,
    hash: u64,
    sub1: int,
    sub2: int,
)
    ensures
        !tbl.balanced ==> tbl.spec_slot_index(hash, sub1) == tbl.spec_slot_index(hash, sub2),
        tbl.balanced && sub1 == 0 ==> tbl.spec_slot_index(hash, sub1) == (hash as int) % (
        tbl.slots_per_subarray as int),
{
}

/// Every slot of the table is reached by some probe: the two-phase probe
/// order is a permutation of the slot indices, so a scan that exhausts it
/// has examined the whole table.
pub proof fn lemma_probe_covers<V, H: HashingStrategy>(
    tbl: &ElasticHashTable<V, H>,
    hash: u64,
    idx: int,
)
    requires
        tbl.wf(),
        0 <= idx < tbl.total_slots(),
    ensures
        exists|j: int| 0 <= j < tbl.total_slots() && #[trigger] tbl.probe_slot(hash, j) == idx,
{
    let s = tbl.subarray_count as int;
    let k = tbl.slots_per_subarray as int;
    let base = tbl.spec_base(hash);
    let sub = idx / k;
    let slot = idx % k;
    vstd::arithmetic::div_mod::lemma_fundamental_div_mod(idx, k);
    vstd::arithmetic::div_mod::lemma_mod_bound(idx, k);
    assert(0 <= sub < s) by {
        vstd::arithmetic::div_mod::lemma_div_pos_is_pos(idx, k);
        vstd::arithmetic::div_mod::lemma_multiply_divide_lt(idx, k, s);
        assert(k * s == s * k) by (nonlinear_arith);
    }
    let start = tbl.spec_slot_index(hash, sub);
    vstd::arithmetic::div_mod::lemma_mod_bound(
        if tbl.balanced {
            rotr64(hash, sub as nat) as int
        } else {
            hash as int
        },
        k,
    );
    vstd::arithmetic::div_mod::lemma_mod_bound(base, s);
    let i = (sub - base) % s;
    vstd::arithmetic::div_mod::lemma_mod_bound(sub - base, s);
    assert((base + i) % s == sub) by {
        vstd::arithmetic::div_mod::lemma_add_mod_noop_right(base, sub - base, s);
        vstd::arithmetic::div_mod::lemma_small_mod(sub as nat, s as nat);
    }
    if slot == start {
        let j = i;
        assert(i < s * k) by (nonlinear_arith)
            requires
                0 <= i < s,
                1 <= k,
        ;
        assert(sub * k == k * sub) by (nonlinear_arith);
        assert(tbl.probe_slot(hash, j) == idx);
    } else {
        assert(k >= 2);
        let d = (slot - start) % k;
        vstd::arithmetic::div_mod::lemma_mod_bound(slot - start, k);
        assert((start + d) % k == slot) by {
            vstd::arithmetic::div_mod::lemma_add_mod_noop_right(start, slot - start, k);
            vstd::arithmetic::div_mod::lemma_small_mod(slot as nat, k as nat);
        }
        if d == 0 {
            vstd::arithmetic::div_mod::lemma_small_mod(start as nat, k as nat);
            assert(false);
        }
        let j = s + i * (k - 1) + (d - 1);
        vstd::arithmetic::mul::lemma_mul_nonnegative(i, k - 1);
        assert(j < s * k) by (nonlinear_arith)
            requires
                0 <= i < s,
                1 <= d < k,
                2 <= k,
                j == s + i * (k - 1) + (d - 1),
        ;
        vstd::arithmetic::div_mod::lemma_fundamental_div_mod_converse(j - s, k - 1, i, d - 1);
        assert(sub * k == k * sub) by (nonlinear_arith);
        assert(tbl.probe_slot(hash, j) == idx);
    }
}

/// Capacity bound: while the occupancy count is below the total capacity,
/// an elastic insertion of any hashable key succeeds and raises the count
/// by one; once the count equals the capacity, it fails with `TableFull`.
pub proof fn lemma_elastic_capacity_bound<V, H: HashingStrategy>(
    tbl: &ElasticHashTable<V, H>,
    t: Seq<TableSlot<V>>,
    key: i64,
    value: V,
)
    requires
        tbl.wf(),
        t.len() == tbl.total_slots(),
        tbl.hasher.hash_ok(key),
    ensures
        count_occupied(t) < t.len() ==> matches!(tbl.insert_spec_at(t, key, value), Ok(_)),
        count_occupied(t) < t.len() ==> count_occupied(
            tbl.insert_spec_at(t, key, value)->Ok_0.1,
        ) == count_occupied(t) + 1,
        count_occupied(t) == t.len() ==> tbl.insert_spec_at(t, key, value) == Err::<
            (nat, Seq<TableSlot<V>>),
            HashTableError,
        >(HashTableError::TableFull),
{
    let hash = tbl.hasher.spec_hash(key);
    if count_occupied(t) < t.len() {
        lemma_count_lt_exists_free(t);
        let free = choose|i: int| 0 <= i < t.len() && t[i] is None;
        lemma_probe_covers(tbl, hash, free);
        let j_free = choose|j: int|
            0 <= j < tbl.total_slots() && #[trigger] tbl.probe_slot(hash, j) == free;
        tbl.lemma_ffp_finds(t, hash, 0, j_free as nat);
        let p = tbl.first_free_probe(t, hash, 0)->Some_0;
        tbl.lemma_ffp_is_free(t, hash, 0);
        tbl.lemma_probe_slot_in_range(hash, p as int);
        lemma_count_fill_one(t, tbl.probe_slot(hash, p as int), (key, value));
    } else {
        lemma_count_le_len(t);
        lemma_count_full_all_occupied(t);
        assert forall|j: int|
            0 <= j < tbl.total_slots() implies t[#[trigger] tbl.probe_slot(hash, j)] is Some by {
            tbl.lemma_probe_slot_in_range(hash, j);
        }
        tbl.lemma_ffp_none(t, hash, 0);
    }
}

/// Capacity bound over a whole run: a table with spare capacity for all of
/// `keys` accepts every one of them — `S x K` sequential inserts of
/// hashable keys into an empty table of `S` subarrays of `K` slots all
/// succeed, and fill it, so that the next insertion fails with `TableFull`
/// (previous lemma).
pub proof fn lemma_elastic_capacity_bound_run<V, H: HashingStrategy>(
    tbl: &ElasticHashTable<V, H>,
    t: Seq<TableSlot<V>>,
    keys: Seq<i64>,
    value: V,
)
    requires
        tbl.wf(),
        t.len() == tbl.total_slots(),
        forall|i: int| 0 <= i < keys.len() ==> tbl.hasher.hash_ok(#[trigger] keys[i]),
        count_occupied(t) + keys.len() <= t.len(),
    ensures
        ({
            let r = elastic_run_spec(*tbl, t, keys, value);
            &&& r is Ok
            &&& r->Ok_0.1.len() == t.len()
            &&& count_occupied(r->Ok_0.1) == count_occupied(t) + keys.len()
        }),
    decreases keys.len(),
{
    reveal(elastic_run_spec);
    if keys.len() > 0 {
        assert(tbl.hasher.hash_ok(keys[0]));
        lemma_elastic_capacity_bound(tbl, t, keys[0], value);
        let t2 = tbl.insert_spec_at(t, keys[0], value)->Ok_0.1;
        let hash = tbl.hasher.spec_hash(keys[0]);
        let p = tbl.first_free_probe(t, hash, 0)->Some_0;
        tbl.lemma_ffp_is_free(t, hash, 0);
        tbl.lemma_probe_slot_in_range(hash, p as int);
        assert(t2.len() == t.len());
        assert forall|i: int|
            0 <= i < keys.drop_first().len() implies tbl.hasher.hash_ok(
            #[trigger] keys.drop_first()[i],
        ) by {
            assert(keys.drop_first()[i] == keys[i + 1]);
        }
        lemma_elastic_capacity_bound_run(tbl, t2, keys.drop_first(), value);
    }
}

/// A subarray-relative slot, offset into the flat storage, stays inside the
/// table.
pub proof fn lemma_subarray_offset_in_range(s: int, k: int, sub: int, slot: int)
    requires
        1 <= s,
        1 <= k,
        0 <= sub < s,
        0 <= slot < k,
    ensures
        0 <= sub * k + slot < s * k,
{
    assert(0 <= sub * k + slot < s * k) by (nonlinear_arith)
        requires
            1 <= s,
            1 <= k,
            0 <= sub < s,
            0 <= slot < k,
    ;
}

} // verus!
