//! What holds of every map that `StaticMap::new` builds.

use crate::bucket::{bucket_of, spec_num_buckets, MAX_ENTRIES};
use crate::generate::{entry_slot, is_perfect, lemma_slot_in_table};
use crate::hasher::{spec_hash, MapHasher};
use crate::map::{key_seq, result_parts, spec_new, BuildError, Parts, StaticMap};
use crate::permute::permuted;
use crate::seed::{hashes_under, lemma_generate_is_perfect, spec_generate};
use core::hash::Hash;
use vstd::prelude::*;

verus! {

/// The parts of a map built from `entries` are a perfect hash of them: the displacement
/// table sends every entry to a slot of its own, and the stored entries are the given
/// ones in the order of those slots.
pub proof fn lemma_built_parts_are_perfect<M: MapHasher<K>, K, V>(
    entries: Seq<(K, V)>,
    parts: Parts<K, V>,
) -> (indices: Seq<usize>)
    requires
        spec_new::<M, K, V>(entries) == Ok::<Parts<K, V>, BuildError>(parts),
    ensures
        entries.len() <= MAX_ENTRIES,
        key_seq(entries).no_duplicates(),
        is_perfect(hashes_under::<K, M>(key_seq(entries), parts.0), parts.1, indices),
        parts.2 == permuted(entries, indices),
{
    let found = spec_generate::<K, M>(key_seq(entries), 0).unwrap();
    lemma_generate_is_perfect::<K, M>(key_seq(entries), 0);
    found.1.1
}

/// Every entry that the map was built from is found under its key, with its value.
pub proof fn lemma_present_key_is_found<M: MapHasher<K>, K: Eq + Hash, V>(
    entries: Seq<(K, V)>,
    map: StaticMap<M, K, V>,
    i: int,
)
    requires
        spec_new::<M, K, V>(entries) == Ok::<Parts<K, V>, BuildError>(map.parts()),
        0 <= i < entries.len(),
    ensures
        map.spec_get_entry(entries[i].0) == Some(entries[i]),
{
    let parts = map.parts();
    let indices = lemma_built_parts_are_perfect::<M, K, V>(entries, parts);
    let hashes = hashes_under::<K, M>(key_seq(entries), parts.0);
    let s = entry_slot(hashes, parts.1, i);
    assert(hashes[i] == spec_hash::<K, M>(entries[i].0, parts.0));
    assert(indices[s] == i);
    assert(parts.2[s] == entries[i]);
}

/// A key that no entry has is not found.
pub proof fn lemma_absent_key_is_not_found<M: MapHasher<K>, K: Eq + Hash, V>(
    entries: Seq<(K, V)>,
    map: StaticMap<M, K, V>,
    key: K,
)
    requires
        spec_new::<M, K, V>(entries) == Ok::<Parts<K, V>, BuildError>(map.parts()),
        !key_seq(entries).contains(key),
    ensures
        map.spec_get_entry(key) is None,
{
    let parts = map.parts();
    let indices = lemma_built_parts_are_perfect::<M, K, V>(entries, parts);
    if parts.1.len() > 0 {
        let n = entries.len() as int;
        let hashes = spec_hash::<K, M>(key, parts.0);
        let pair = parts.1[bucket_of(hashes, parts.1.len() as int)];
        lemma_slot_in_table(hashes, pair, n);
        let s = crate::hasher::spec_slot(hashes, pair, n);
        let e = indices[s] as int;
        assert(parts.2[s] == entries[e]);
        assert(key_seq(entries)[e] == entries[e].0);
    }
}

/// No entries make a map, and that map finds nothing.
pub proof fn lemma_empty_map_finds_nothing<M: MapHasher<K>, K: Eq + Hash, V>(
    map: StaticMap<M, K, V>,
    key: K,
)
    requires
        spec_new::<M, K, V>(Seq::<(K, V)>::empty()) == Ok::<Parts<K, V>, BuildError>(map.parts()),
    ensures
        map.spec_get_entry(key) is None,
{
    lemma_absent_key_is_not_found::<M, K, V>(Seq::<(K, V)>::empty(), map, key);
}

/// Building from no entries always succeeds.
pub proof fn lemma_empty_input_builds<M: MapHasher<K>, K, V>()
    ensures
        spec_new::<M, K, V>(Seq::<(K, V)>::empty()) is Ok,
{
    let entries = Seq::<(K, V)>::empty();
    let keys = key_seq(entries);
    let seed = crate::seed::seed_candidate(crate::seed::FIXED_SEED, 0);
    let hashes = hashes_under::<K, M>(keys, seed);
    assert(spec_num_buckets(hashes.len() as int) == 0);
    assert(crate::generate::spec_try_generate(hashes) is Some);
    assert(spec_generate::<K, M>(keys, 0) is Some);
}

/// Two maps built from the same entries are the same in every part: the seed, the
/// displacement table and the order of the stored entries. If one construction fails,
/// the other fails with the same error.
pub proof fn lemma_construction_is_deterministic<M: MapHasher<K>, K: Eq + Hash, V>(
    entries: Seq<(K, V)>,
    first: Result<StaticMap<M, K, V>, BuildError>,
    second: Result<StaticMap<M, K, V>, BuildError>,
)
    requires
        result_parts(first) == spec_new::<M, K, V>(entries),
        result_parts(second) == spec_new::<M, K, V>(entries),
    ensures
        result_parts(first) == result_parts(second),
{
}

} // verus!
