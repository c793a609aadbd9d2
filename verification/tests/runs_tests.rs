use probewall::greedy::{HashStrategy, HashTable};
use probewall::runs::{occupancy, occupancy_runs};

#[test]
fn occupancy_flags_slots_in_order() {
    let mut table = HashTable::<&str>::new(4);
    table.set_hash_strategy(HashStrategy::Modulo(4));
    table.insert_greedy(1, "val").unwrap();
    table.insert_greedy(3, "val").unwrap();
    assert_eq!(occupancy(&table.table), vec![false, true, false, true]);
}

#[test]
fn runs_group_contiguous_occupancy() {
    let occ = vec![true, true, false, true];
    assert_eq!(
        occupancy_runs(&occ),
        vec![(true, 2), (false, 1), (true, 1)]
    );
}

#[test]
fn runs_of_empty_and_uniform_sequences() {
    assert_eq!(occupancy_runs(&Vec::new()), Vec::new());
    let occ = vec![false, false, false];
    assert_eq!(occupancy_runs(&occ), vec![(false, 3)]);
}

#[test]
fn cluster_band_from_greedy_collisions() {
    // Modulo(1) clusters every insert at the front: one occupied band, then
    // one empty band.
    let mut table = HashTable::<&str>::new(6);
    table.set_hash_strategy(HashStrategy::Modulo(1));
    for key in 0..4i64 {
        table.insert_greedy(key, "val").unwrap();
    }
    let runs = occupancy_runs(&occupancy(&table.table));
    assert_eq!(runs, vec![(true, 4), (false, 2)]);
}
