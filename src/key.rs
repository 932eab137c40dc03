use vstd::prelude::*;

verus! {

/// Multiplier of the first mixing round.
pub const MIX_A: u64 = 0xBF58_476D_1CE4_E5B9;

/// Multiplier of the second mixing round.
pub const MIX_B: u64 = 0x94D0_49BB_1331_11EB;

/// Mixes the bits of a 64-bit word: two rounds of xor-shift and odd
/// multiplication modulo 2^64, then a last xor-shift.
pub open spec fn spec_mix(x: u64) -> u64 {
    let a = vstd::wrapping::u64_specs::wrapping_mul(x ^ (x >> 30u64), MIX_A);
    let b = vstd::wrapping::u64_specs::wrapping_mul(a ^ (a >> 27u64), MIX_B);
    b ^ (b >> 31u64)
}

pub fn mix(x: u64) -> (r: u64)
    ensures
        r == spec_mix(x),
{
    let a = (x ^ (x >> 30u64)).wrapping_mul(MIX_A);
    let b = (a ^ (a >> 27u64)).wrapping_mul(MIX_B);
    b ^ (b >> 31u64)
}

/// Builds the hashes of a map's keys: every key is hashed under one seed.
pub struct SeededHash {
    pub seed: u64,
}

/// Relies on std's `RandomState::new`: a hasher state with fresh random keys.
pub assume_specification[ std::collections::hash_map::RandomState::new ]() -> std::collections::hash_map::RandomState;

/// Relies on std's `BuildHasher::hash_one`: hashes one value with the keys of
/// `state`. Nothing is promised of the result, which depends on those keys.
#[verifier::external_body]
fn hash_zero(state: &std::collections::hash_map::RandomState) -> u64 {
    std::hash::BuildHasher::hash_one(state, 0u64)
}

impl SeededHash {
    /// A hasher with a random seed.
    pub fn new() -> Self {
        SeededHash { seed: hash_zero(&std::collections::hash_map::RandomState::new()) }
    }

    /// A hasher with the given seed.
    pub fn with_seed(seed: u64) -> (r: Self)
        ensures
            r.seed == seed,
    {
        SeededHash { seed }
    }
}

/// A key that a table can hold: it hashes to 64 bits under a seed, and its
/// executable equality is spec equality.
pub trait TableKey: Sized {
    spec fn spec_hash(&self, seed: u64) -> u64;

    fn hash_with(&self, seed: u64) -> (r: u64)
        ensures
            r == self.spec_hash(seed),
    ;

    fn same_key(&self, other: &Self) -> (r: bool)
        ensures
            r == (*self == *other),
    ;
}

impl TableKey for u64 {
    open spec fn spec_hash(&self, seed: u64) -> u64 {
        spec_mix(*self ^ seed)
    }

    fn hash_with(&self, seed: u64) -> (r: u64) {
        mix(*self ^ seed)
    }

    fn same_key(&self, other: &Self) -> (r: bool) {
        *self == *other
    }
}

impl TableKey for u32 {
    open spec fn spec_hash(&self, seed: u64) -> u64 {
        spec_mix((*self as u64) ^ seed)
    }

    fn hash_with(&self, seed: u64) -> (r: u64) {
        mix((*self as u64) ^ seed)
    }

    fn same_key(&self, other: &Self) -> (r: bool) {
        *self == *other
    }
}

impl TableKey for usize {
    open spec fn spec_hash(&self, seed: u64) -> u64 {
        spec_mix((*self as u64) ^ seed)
    }

    fn hash_with(&self, seed: u64) -> (r: u64) {
        mix((*self as u64) ^ seed)
    }

    fn same_key(&self, other: &Self) -> (r: bool) {
        *self == *other
    }
}

impl TableKey for i32 {
    open spec fn spec_hash(&self, seed: u64) -> u64 {
        spec_mix((*self as u64) ^ seed)
    }

    fn hash_with(&self, seed: u64) -> (r: u64) {
        mix((*self as u64) ^ seed)
    }

    fn same_key(&self, other: &Self) -> (r: bool) {
        *self == *other
    }
}

impl TableKey for i64 {
    open spec fn spec_hash(&self, seed: u64) -> u64 {
        spec_mix((*self as u64) ^ seed)
    }

    fn hash_with(&self, seed: u64) -> (r: u64) {
        mix((*self as u64) ^ seed)
    }

    fn same_key(&self, other: &Self) -> (r: bool) {
        *self == *other
    }
}

} // verus!
