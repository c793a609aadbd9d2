use probewall::greedy::{HashStrategy, HashTable};
use probewall::HashTableError;

#[test]
fn modulo_concrete_scenario() {
    // Capacity 10, Modulo(10): keys 0, 1, 2 land in distinct slots with no
    // collision; key 10 collides with slot 0 and is displaced to slot 3.
    let mut table = HashTable::<&str>::new(10);
    table.set_hash_strategy(HashStrategy::Modulo(10));
    assert_eq!(table.insert_greedy(0, "val"), Ok(0));
    assert_eq!(table.insert_greedy(1, "val"), Ok(0));
    assert_eq!(table.insert_greedy(2, "val"), Ok(0));
    assert_eq!(table.insert_greedy(10, "val"), Ok(3));
    assert_eq!(table.table[3], Some((10, "val")));
}

#[test]
fn monotonic_clustering_costs() {
    // Modulo(1): every key hashes to 0, so the i-th insertion costs i probes.
    let mut table = HashTable::<&str>::new(8);
    table.set_hash_strategy(HashStrategy::Modulo(1));
    for i in 0..5i64 {
        assert_eq!(table.insert_greedy(i, "val"), Ok(i as usize));
    }
}

#[test]
fn capacity_bound() {
    // Five well-distributed keys fill capacity 5; the sixth insert fails.
    let mut table = HashTable::<&str>::new(5);
    table.set_hash_strategy(HashStrategy::Modulo(5));
    for key in 0..5i64 {
        assert!(table.insert_greedy(key, "val").is_ok());
    }
    assert_eq!(table.insert_greedy(5, "val"), Err(HashTableError::TableFull));
}

#[test]
fn capacity_bound_default_strategy() {
    // The capacity bound does not depend on the hashing strategy: any 4
    // inserts into capacity 4 succeed, the fifth fails.
    let mut table = HashTable::<&str>::new(4);
    for key in [7i64, -3, 1_000_000_007, 42] {
        assert!(table.insert_greedy(key, "val").is_ok());
    }
    assert_eq!(
        table.insert_greedy(99, "val"),
        Err(HashTableError::TableFull)
    );
}

#[test]
fn determinism_across_fresh_tables() {
    // Identical key sequence, strategy, and capacity give identical probe
    // counts on repeated runs from fresh tables.
    let keys: Vec<i64> = vec![3, 18, 7, 23, 8, 13, 28, 2];
    let mut first: Vec<usize> = Vec::new();
    let mut second: Vec<usize> = Vec::new();
    for out in [&mut first, &mut second] {
        let mut table = HashTable::<&str>::new(16);
        for &key in &keys {
            out.push(table.insert_greedy(key, "val").unwrap());
        }
    }
    assert_eq!(first, second);
}

#[test]
fn key_conversion_error() {
    // The modulo strategy cannot interpret a negative key.
    let mut table = HashTable::<&str>::new(4);
    table.set_hash_strategy(HashStrategy::Modulo(4));
    assert_eq!(
        table.insert_greedy(-1, "val"),
        Err(HashTableError::KeyConversion)
    );
    // The failed insert left the table untouched.
    assert!(table.table.iter().all(|slot| slot.is_none()));
    assert_eq!(table.insert_greedy(2, "val"), Ok(0));
}

#[test]
fn insert_keys_matches_single_inserts() {
    let keys: Vec<i64> = vec![0, 5, 10, 1, 6];
    let mut batch = HashTable::<&str>::new(5);
    batch.set_hash_strategy(HashStrategy::Modulo(5));
    let counts = batch.insert_keys(&keys, "val").unwrap();

    let mut single = HashTable::<&str>::new(5);
    single.set_hash_strategy(HashStrategy::Modulo(5));
    let mut expected: Vec<usize> = Vec::new();
    for &key in &keys {
        expected.push(single.insert_greedy(key, "val").unwrap());
    }
    assert_eq!(counts, expected);
    assert_eq!(counts, vec![0, 1, 2, 2, 3]);
}

#[test]
fn insert_keys_stops_at_first_error() {
    let mut table = HashTable::<&str>::new(2);
    table.set_hash_strategy(HashStrategy::Modulo(2));
    let keys: Vec<i64> = vec![0, 1, 2];
    assert_eq!(
        table.insert_keys(&keys, "val"),
        Err(HashTableError::TableFull)
    );
}

#[test]
fn hash_follows_active_strategy() {
    let mut table = HashTable::<&str>::new(4);
    table.set_hash_strategy(HashStrategy::Modulo(7));
    assert_eq!(table.hash(&10), Ok(3));
    assert_eq!(table.hash(&-1), Err(HashTableError::KeyConversion));
    // The default strategy hashes every key, including negative ones, and
    // is a pure function of the key.
    table.set_hash_strategy(HashStrategy::Default);
    assert_eq!(table.hash(&-1).unwrap(), table.hash(&-1).unwrap());
}

#[test]
fn zero_capacity_is_always_full() {
    let mut table = HashTable::<&str>::new(0);
    assert_eq!(table.insert_greedy(1, "val"), Err(HashTableError::TableFull));
}
