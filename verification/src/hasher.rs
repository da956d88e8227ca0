//! The hashing capability that a map is built over, and the slot formula.

use crate::word::{into_usize, wrapping_add, wrapping_mul, word_modulus};
use vstd::prelude::*;

verus! {

/// Three hash words derived from one key: the first picks the bucket, the other two
/// enter the displacement formula.
pub type Hashes = (u16, u16, u16);

/// A seedable hasher that turns a key into a triple of hash words.
///
/// The three spec functions are the model of an implementation: a hasher is made from
/// a seed, absorbs a key, and is read out. Each step is a function of its inputs, so
/// that the triple of a key depends on the seed and the key alone.
pub trait MapHasher<K>: Sized {
    /// The hasher that `new_with_seed` makes from `seed`.
    spec fn seeded(seed: u64) -> Self;

    /// The hasher after it has absorbed `key`.
    spec fn absorbing(self, key: K) -> Self;

    /// The triple that `finish_triple` reads out of the hasher.
    spec fn triple(self) -> Hashes;

    fn new_with_seed(seed: &u64) -> (hasher: Self)
        ensures
            hasher == Self::seeded(*seed),
    ;

    fn absorb(&mut self, key: &K)
        ensures
            *final(self) == old(self).absorbing(*key),
    ;

    fn finish_triple(&self) -> (hashes: Hashes)
        ensures
            hashes == self.triple(),
    ;
}

/// The triple of `key` under `seed`, as hasher `M` computes it.
pub open spec fn spec_hash<K, M: MapHasher<K>>(key: K, seed: u64) -> Hashes {
    M::seeded(seed).absorbing(key).triple()
}

/// Hashes `x` with a fresh hasher made from `seed`.
pub fn hash<K, M: MapHasher<K>>(x: &K, seed: &u64) -> (hashes: Hashes)
    ensures
        hashes == spec_hash::<K, M>(*x, *seed),
{
    let mut hasher = M::new_with_seed(seed);
    hasher.absorb(x);
    hasher.finish_triple()
}

/// `f1 * d1 + f2 + d2`, wrapped to a hash word.
pub open spec fn spec_displace(f1: u16, f2: u16, d1: u16, d2: u16) -> int {
    (f1 * d1 + f2 + d2) % word_modulus()
}

/// The displacement formula: `f1 * d1 + f2 + d2` in wrapping arithmetic.
pub fn displace(f1: u16, f2: u16, d1: u16, d2: u16) -> (r: u16)
    ensures
        r == spec_displace(f1, f2, d1, d2),
{
    let product: u16 = wrapping_mul(f1, d1);
    let shifted: u16 = wrapping_add(product, f2);
    let r: u16 = wrapping_add(shifted, d2);
    proof {
        let m = word_modulus();
        let p = f1 * d1;
        vstd::arithmetic::div_mod::lemma_add_mod_noop(p, f2 as int, m);
        vstd::arithmetic::div_mod::lemma_small_mod(f2 as nat, m as nat);
        assert(shifted == (p + f2) % m);
        vstd::arithmetic::div_mod::lemma_add_mod_noop(p + f2, d2 as int, m);
        vstd::arithmetic::div_mod::lemma_small_mod(d2 as nat, m as nat);
    }
    r
}

/// The slot that a triple falls into, given its bucket's displacement pair and the
/// length of the table.
pub open spec fn spec_slot(hashes: Hashes, pair: (u16, u16), table_len: int) -> int {
    spec_displace(hashes.1, hashes.2, pair.0, pair.1) % table_len
}

/// Computes the slot of a triple under a displacement pair.
pub fn slot(hashes: Hashes, pair: (u16, u16), table_len: usize) -> (s: usize)
    requires
        table_len > 0,
    ensures
        s == spec_slot(hashes, pair, table_len as int),
        s < table_len,
{
    into_usize(displace(hashes.1, hashes.2, pair.0, pair.1)) % table_len
}

} // verus!
