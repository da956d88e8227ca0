//! The search for a seed under which every bucket finds its displacement pair.

use crate::bucket::MAX_ENTRIES;
use crate::generate::{
    is_perfect, lemma_try_generate_is_perfect, spec_try_generate, try_generate, MapState,
};
use crate::hasher::{hash, spec_hash, Hashes, MapHasher};
use rand::distributions::Standard;
use rand::rngs::StdRng;
use rand::{Rng, SeedableRng};
use vstd::prelude::*;

verus! {

/// The value from which the stream of candidate seeds starts. It is fixed, so that the
/// same entries always give the same map.
pub const FIXED_SEED: u64 = 42;

/// The number of candidate seeds that are tried before the search gives up.
pub const SEED_ATTEMPTS: usize = 4096;

/// The candidate at `position` in the stream of seeds that starts from `origin`.
pub uninterp spec fn seed_candidate(origin: u64, position: nat) -> u64;

/// `rand`: a `StdRng` made by `SeedableRng::seed_from_u64(origin)` and read through
/// `Rng::sample_iter(Standard)`; this is the item at `position` of that stream. The
/// generator is seeded from `origin` alone, so the item depends on nothing else.
#[verifier::external_body]
fn nth_seed(origin: u64, position: usize) -> (seed: u64)
    ensures
        seed == seed_candidate(origin, position as nat),
{
    StdRng::seed_from_u64(origin).sample_iter(Standard).nth(position).unwrap()
}

/// The keys that a list of key references points to.
pub open spec fn pointees<K>(keys: Seq<&K>) -> Seq<K> {
    Seq::new(keys.len(), |i: int| *keys[i])
}

/// The triple of every key under `seed`.
pub open spec fn hashes_under<K, M: MapHasher<K>>(keys: Seq<K>, seed: u64) -> Seq<Hashes> {
    Seq::new(keys.len(), |i: int| spec_hash::<K, M>(keys[i], seed))
}

/// The outcome of trying the candidates from `attempt` on, one after the other: the
/// first seed under which the search for pairs succeeds, with what that search found.
pub open spec fn spec_generate<K, M: MapHasher<K>>(keys: Seq<K>, attempt: nat) -> Option<
    (u64, (Seq<(u16, u16)>, Seq<usize>)),
>
    decreases SEED_ATTEMPTS - attempt,
{
    if attempt >= SEED_ATTEMPTS {
        None
    } else {
        let seed = seed_candidate(FIXED_SEED, attempt);
        match spec_try_generate(hashes_under::<K, M>(keys, seed)) {
            Some(state) => Some((seed, state)),
            None => spec_generate::<K, M>(keys, attempt + 1),
        }
    }
}

/// Hashes every key under `seed`.
pub fn hash_all<K, M: MapHasher<K>>(entries: &Vec<&K>, seed: u64) -> (hashes: Vec<Hashes>)
    ensures
        hashes@ == hashes_under::<K, M>(pointees(entries@), seed),
{
    let mut hashes: Vec<Hashes> = Vec::with_capacity(entries.len());
    let mut i: usize = 0;
    while i < entries.len()
        invariant
            i <= entries.len(),
            hashes.len() == i,
            forall|j: int| 0 <= j < i ==> #[trigger] hashes[j] == spec_hash::<K, M>(*entries[j], seed),
        decreases entries.len() - i,
    {
        hashes.push(hash::<K, M>(entries[i], &seed));
        i = i + 1;
    }
    assert(hashes@ =~= hashes_under::<K, M>(pointees(entries@), seed));
    hashes
}

/// Tries the candidate seeds in turn and returns the first under which every bucket
/// finds a pair, together with the pairs and the entry of each slot. Returns `None`
/// when all candidates have failed.
pub fn generate<K, M: MapHasher<K>>(entries: &Vec<&K>) -> (found: Option<(u64, MapState)>)
    requires
        entries.len() <= MAX_ENTRIES,
    ensures
        match found {
            Some((seed, state)) => {
                &&& spec_generate::<K, M>(pointees(entries@), 0) == Some((seed, state@))
                &&& is_perfect(
                    hashes_under::<K, M>(pointees(entries@), seed),
                    state.displacements@,
                    state.indices@,
                )
            },
            None => spec_generate::<K, M>(pointees(entries@), 0) is None,
        },
{
    let mut attempt: usize = 0;
    while attempt < SEED_ATTEMPTS
        invariant
            attempt <= SEED_ATTEMPTS,
            entries.len() <= MAX_ENTRIES,
            spec_generate::<K, M>(pointees(entries@), 0) == spec_generate::<K, M>(
                pointees(entries@),
                attempt as nat,
            ),
        decreases SEED_ATTEMPTS - attempt,
    {
        let seed: u64 = nth_seed(FIXED_SEED, attempt);
        let hashes: Vec<Hashes> = hash_all::<K, M>(entries, seed);
        match try_generate(&hashes) {
            Some(state) => {
                return Some((seed, state));
            },
            None => {},
        }
        attempt = attempt + 1;
    }
    None
}

/// Whatever a successful seed search returns is a perfect hash of the keys under the
/// seed that it found.
pub proof fn lemma_generate_is_perfect<K, M: MapHasher<K>>(keys: Seq<K>, attempt: nat)
    requires
        keys.len() <= MAX_ENTRIES,
        spec_generate::<K, M>(keys, attempt) is Some,
    ensures
        ({
            let (seed, state) = spec_generate::<K, M>(keys, attempt).unwrap();
            is_perfect(hashes_under::<K, M>(keys, seed), state.0, state.1)
        }),
    decreases SEED_ATTEMPTS - attempt,
{
    let seed = seed_candidate(FIXED_SEED, attempt);
    let hashes = hashes_under::<K, M>(keys, seed);
    if spec_try_generate(hashes) is Some {
        lemma_try_generate_is_perfect(hashes);
    } else {
        lemma_generate_is_perfect::<K, M>(keys, attempt + 1);
    }
}

} // verus!
