//! Open-addressing hash tables instrumented for probe-count measurement.
//!
//! Tables here are insert-only and never resize: they exist to characterize
//! how the number of probes per insertion grows as the load factor rises,
//! all the way up to saturation. Two tables are provided: a flat table with
//! greedy linear probing, and an "elastic" table partitioned into fixed-size
//! subarrays with a two-phase probe sequence and an optional decorrelation
//! ("balanced") mode.

use vstd::prelude::*;

pub mod elastic;
pub mod greedy;
pub mod hashing;
pub mod runs;
pub mod slots;

verus! {

/// Errors raised by table insertion.
///
/// Both are fatal for the current run: a full table is never resized
/// (measuring behavior up to saturation is the point), and a key the
/// modulo strategy cannot interpret as a non-negative machine integer
/// cannot be hashed.
#[derive(Clone, Copy, Debug, PartialEq, Eq, Structural)]
pub enum HashTableError {
    /// Every reachable slot was examined and none was empty.
    TableFull,
    /// The key is not representable as a non-negative machine integer.
    KeyConversion,
}

} // verus!
