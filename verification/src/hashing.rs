//! The dispersion hash shared by both tables, and the bit rotation used by
//! the elastic table's decorrelation mode.
//!
//! The general-purpose hash feeds the key's bytes to std's `DefaultHasher`
//! (a non-cryptographic SipHash), whose behavior vstd models with an
//! uninterpreted `spec_finish` over the sequence of written byte blocks:
//! the hash is a pure function of the key, which is all the tables rely on.

use std::collections::hash_map::DefaultHasher;
use std::hash::Hasher;
use vstd::prelude::*;

verus! {

use vstd::std_specs::hash::DefaultHasherAdditionalSpecFns;

/// The key's bits as fed to the dispersion hash: the key shifted into the
/// non-negative range, so that distinct keys give distinct bit patterns.
pub open spec fn key_bits(key: i64) -> u64 {
    (key - i64::MIN) as u64
}

/// Little-endian byte sequence of a 64-bit value.
pub open spec fn le_bytes(u: u64) -> Seq<u8> {
    seq![
        (u % 256) as u8,
        ((u / 0x100) % 256) as u8,
        ((u / 0x10000) % 256) as u8,
        ((u / 0x1000000) % 256) as u8,
        ((u / 0x100000000) % 256) as u8,
        ((u / 0x10000000000) % 256) as u8,
        ((u / 0x1000000000000) % 256) as u8,
        ((u / 0x100000000000000) % 256) as u8,
    ]
}

/// What the general-purpose strategy hashes a key to: std's `DefaultHasher`
/// run over the key's eight little-endian bytes.
pub open spec fn default_hash_spec(key: i64) -> u64 {
    DefaultHasher::spec_finish(seq![le_bytes(key_bits(key))])
}

/// General-purpose dispersion hash of a key (std's `DefaultHasher`).
pub fn default_hash(key: i64) -> (r: u64)
    ensures
        r == default_hash_spec(key),
{
    let d: i128 = (key as i128) - (i64::MIN as i128);
    let u: u64 = d as u64;
    let mut bytes: Vec<u8> = Vec::new();
    bytes.push((u % 256) as u8);
    bytes.push(((u / 0x100) % 256) as u8);
    bytes.push(((u / 0x10000) % 256) as u8);
    bytes.push(((u / 0x1000000) % 256) as u8);
    bytes.push(((u / 0x100000000) % 256) as u8);
    bytes.push(((u / 0x10000000000) % 256) as u8);
    bytes.push(((u / 0x1000000000000) % 256) as u8);
    bytes.push(((u / 0x100000000000000) % 256) as u8);
    proof {
        assert(u == key_bits(key));
        assert(bytes@ =~= le_bytes(u));
    }
    let mut hasher = DefaultHasher::new();
    hasher.write(bytes.as_slice());
    proof {
        assert(hasher@ =~= seq![le_bytes(key_bits(key))]);
    }
    hasher.finish()
}

/// Right rotation of a 64-bit value by `n % 64` bit positions.
pub open spec fn rotr64(h: u64, n: nat) -> u64 {
    let r = n % 64;
    if r == 0 {
        h
    } else {
        (h >> (r as u64)) | (h << ((64 - r) as u64))
    }
}

/// Rotates a hash right by `n % 64` bit positions.
pub fn rotate_right64(h: u64, n: usize) -> (r: u64)
    ensures
        r == rotr64(h, n as nat),
{
    let r: usize = n % 64;
    if r == 0 {
        h
    } else {
        (h >> (r as u64)) | (h << ((64 - r) as u64))
    }
}

} // verus!
