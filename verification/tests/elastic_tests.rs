use probewall::elastic::{
    DefaultHashStrategy, ElasticHashTable, HashStrategy, ModuloHashStrategy,
};
use probewall::HashTableError;

#[test]
fn phase_transition_scenario() {
    // 4 subarrays x 5 slots, Modulo(4): every key with the same residue maps
    // to base subarray 0 and ideal slot 0. The first four inserts succeed in
    // phase 1 (counts 1..4, one per subarray visited); once every ideal slot
    // is taken, phase 2 fallback scans push the counts past the subarray
    // count.
    let mut table =
        ElasticHashTable::<&str, ModuloHashStrategy>::new(4, 5, false, ModuloHashStrategy(4));
    let mut counts: Vec<usize> = Vec::new();
    for i in 0..8i64 {
        counts.push(table.insert(4 * i, "val").unwrap());
    }
    assert_eq!(counts, vec![1, 2, 3, 4, 5, 6, 7, 8]);
}

#[test]
fn elastic_capacity_bound() {
    // 2 subarrays x 2 slots: exactly 4 inserts succeed, the fifth fails.
    let mut table =
        ElasticHashTable::<&str, ModuloHashStrategy>::new(2, 2, false, ModuloHashStrategy(1));
    assert_eq!(table.insert(0, "val"), Ok(1));
    assert_eq!(table.insert(1, "val"), Ok(2));
    assert_eq!(table.insert(2, "val"), Ok(3));
    assert_eq!(table.insert(3, "val"), Ok(4));
    assert_eq!(table.insert(4, "val"), Err(HashTableError::TableFull));
}

#[test]
fn elastic_capacity_bound_balanced() {
    // The capacity bound holds in decorrelation mode too: 3 x 3 slots take
    // exactly 9 inserts, whatever the probe order.
    let mut table =
        ElasticHashTable::<&str, DefaultHashStrategy>::new(3, 3, true, DefaultHashStrategy);
    for key in 0..9i64 {
        assert!(table.insert(key, "val").is_ok());
    }
    assert_eq!(table.insert(100, "val"), Err(HashTableError::TableFull));
}

#[test]
fn elastic_determinism_across_fresh_tables() {
    // Identical key sequence, strategy, and decorrelation flag give
    // identical probe counts on repeated runs from fresh tables.
    let keys: Vec<i64> = (0..20).map(|i| i * 3 + 1).collect();
    let mut first: Vec<usize> = Vec::new();
    let mut second: Vec<usize> = Vec::new();
    for out in [&mut first, &mut second] {
        let mut table =
            ElasticHashTable::<&str, DefaultHashStrategy>::new(4, 8, true, DefaultHashStrategy);
        for &key in &keys {
            out.push(table.insert(key, "val").unwrap());
        }
    }
    assert_eq!(first, second);
}

#[test]
fn decorrelation_improves_adversarial_worst_case() {
    // Adversarial key set: all keys share the ideal relative slot 2 under
    // the non-decorrelated rule (hash = 2 mod 5) while their base subarrays
    // vary (hash mod 4 cycles). Balanced mode rotates the ideal slot per
    // subarray, spreading the correlated collisions: its total probe count
    // never exceeds the unbalanced total on the same keys and table shape.
    let keys: Vec<i64> = (0..20).map(|i| 2 + 5 * i).collect();

    let mut plain =
        ElasticHashTable::<&str, ModuloHashStrategy>::new(4, 5, false, ModuloHashStrategy(20));
    let plain_total: usize = plain.insert_keys(&keys, "val").unwrap().iter().sum();

    let mut balanced =
        ElasticHashTable::<&str, ModuloHashStrategy>::new(4, 5, true, ModuloHashStrategy(20));
    let balanced_total: usize = balanced.insert_keys(&keys, "val").unwrap().iter().sum();

    assert!(balanced_total <= plain_total);
}

#[test]
fn elastic_key_conversion_error() {
    let mut table =
        ElasticHashTable::<&str, ModuloHashStrategy>::new(2, 2, false, ModuloHashStrategy(2));
    assert_eq!(table.insert(-5, "val"), Err(HashTableError::KeyConversion));
    assert!(table.slots().iter().all(|slot| slot.is_none()));
}

#[test]
fn mixed_strategy_dispatch() {
    // The closed strategy sum dispatches to whichever variant it holds.
    let mut modulo = ElasticHashTable::<&str, HashStrategy>::new(
        2,
        3,
        false,
        HashStrategy::Modulo(ModuloHashStrategy(2)),
    );
    assert_eq!(modulo.insert(1, "val"), Ok(1));
    assert_eq!(modulo.slots()[1 * 3 + 1], Some((1, "val")));

    let mut default = ElasticHashTable::<&str, HashStrategy>::new(
        2,
        3,
        false,
        HashStrategy::Default(DefaultHashStrategy),
    );
    assert!(default.insert(-7, "val").is_ok());
}

#[test]
fn elastic_insert_keys_matches_single_inserts() {
    let keys: Vec<i64> = vec![0, 4, 8, 12, 16, 20];
    let mut batch =
        ElasticHashTable::<&str, ModuloHashStrategy>::new(4, 5, false, ModuloHashStrategy(4));
    let counts = batch.insert_keys(&keys, "val").unwrap();

    let mut single =
        ElasticHashTable::<&str, ModuloHashStrategy>::new(4, 5, false, ModuloHashStrategy(4));
    let mut expected: Vec<usize> = Vec::new();
    for &key in &keys {
        expected.push(single.insert(key, "val").unwrap());
    }
    assert_eq!(counts, expected);
}

#[test]
fn slot_index_decorrelates_only_when_balanced() {
    let plain =
        ElasticHashTable::<&str, ModuloHashStrategy>::new(4, 8, false, ModuloHashStrategy(64));
    // Without decorrelation the ideal relative slot is hash mod
    // slots_per_subarray, the same in every subarray.
    for sub in 0..4 {
        assert_eq!(plain.slot_index(13, sub), 13 % 8);
    }

    let balanced =
        ElasticHashTable::<&str, ModuloHashStrategy>::new(4, 8, true, ModuloHashStrategy(64));
    // Rotating by zero changes nothing; rotating an odd hash right by one
    // moves its low bit to the top, changing the ideal slot.
    assert_eq!(balanced.slot_index(13, 0), 13 % 8);
    assert_ne!(balanced.slot_index(13, 1), 13 % 8);
}

#[test]
fn placement_follows_two_phase_order() {
    // Modulo(2) on 2 x 2 slots: keys 0 and 2 hash to 0 (base subarray 0,
    // ideal slot 0); the second lands in subarray 1's ideal slot during
    // phase 1, not beside the first.
    let mut table =
        ElasticHashTable::<&str, ModuloHashStrategy>::new(2, 2, false, ModuloHashStrategy(2));
    assert_eq!(table.insert(0, "a"), Ok(1));
    assert_eq!(table.insert(2, "b"), Ok(2));
    assert_eq!(table.slots()[0], Some((0, "a")));
    assert_eq!(table.slots()[2], Some((2, "b")));
    assert_eq!(table.slots()[1], None);
    assert_eq!(table.slots()[3], None);
}
