//! The finished map: a seed, one displacement pair per bucket, and the entries in the
//! order of their slots.

use crate::bucket::{bucket_of, spec_num_buckets, MAX_ENTRIES};
use crate::generate::{entry_slot, is_perfect, lemma_slot_in_table};
use crate::hasher::{hash, slot, spec_hash, spec_slot, Hashes, MapHasher};
use crate::permute::{
    is_named, is_permutation, lemma_permutation_is_onto, permuted, sort_by_indices,
};
use crate::seed::{generate, hashes_under, pointees, spec_generate};
use crate::word::{into_usize, max_word};
use core::hash::Hash;
use core::marker::PhantomData;
use foldhash::fast::RandomState;
use foldhash::HashSetExt;
use std::collections::HashSet;
use vstd::prelude::*;
use vstd::std_specs::cmp::PartialEqSpec;
use vstd::std_specs::hash::obeys_key_model;

verus! {

/// The hasher state that `foldhash` gives its sets.
#[verifier::external_type_specification]
#[verifier::external_body]
pub struct ExRandomState(RandomState);

/// Whether keys of type `K` can be told apart by `==` and hashed: `==` holds of two
/// keys exactly when they are the same key, and equal keys hash alike.
pub open spec fn is_key_type<K: Eq + Hash>() -> bool {
    &&& obeys_key_model::<K>()
    &&& K::obeys_eq_spec()
    &&& forall|a: K, b: K| #[trigger] a.eq_spec(&b) <==> (a == b)
}

/// `foldhash::HashSetExt::with_capacity`: an empty set with room for `capacity` keys.
/// The capacity is kept within the size of a table, far from where the set's own
/// arithmetic on it could overflow.
#[verifier::external_body]
fn new_key_set<'a, K: Eq + Hash>(capacity: usize) -> (set: HashSet<&'a K, RandomState>)
    requires
        capacity <= MAX_ENTRIES,
    ensures
        set@ == Set::<&K>::empty(),
{
    HashSetExt::with_capacity(capacity)
}

/// `HashSet::insert` on a set that `foldhash` hashes: the key is in the set afterwards,
/// and the result tells whether it was missing before. This is claimed for key types
/// that hash and compare as values, which the precondition asks for.
#[verifier::external_body]
fn insert_key<'a, K: Eq + Hash>(set: &mut HashSet<&'a K, RandomState>, key: &'a K) -> (fresh: bool)
    requires
        obeys_key_model::<K>(),
    ensures
        final(set)@ == old(set)@.insert(key),
        fresh == !old(set)@.contains(key),
{
    set.insert(key)
}

/// Tells whether two of the items are equal.
pub fn has_duplicates<K: Eq + Hash>(items: &Vec<&K>) -> (found: bool)
    requires
        obeys_key_model::<K>(),
        items.len() <= MAX_ENTRIES,
    ensures
        found == !pointees(items@).no_duplicates(),
{
    let mut set: HashSet<&K, RandomState> = new_key_set(items.len());
    let mut i: usize = 0;
    while i < items.len()
        invariant
            i <= items.len(),
            obeys_key_model::<K>(),
            forall|j: int| 0 <= j < i ==> set@.contains(#[trigger] items[j]),
            forall|k: &K| set@.contains(k) ==> exists|j: int| 0 <= j < i && items[j] == k,
            forall|j: int, k: int| 0 <= j < k < i ==> *items[j] != *items[k],
        decreases items.len() - i,
    {
        let ghost before = set@;
        if !insert_key(&mut set, items[i]) {
            proof {
                let j = choose|j: int| 0 <= j < i && items[j] == items[i as int];
                assert(pointees(items@)[j] == pointees(items@)[i as int]);
            }
            return true;
        }
        proof {
            assert forall|k: &K| set@.contains(k) implies exists|j: int|
                0 <= j < i + 1 && items[j] == k by {
                if before.contains(k) {
                    let j = choose|j: int| 0 <= j < i && items[j] == k;
                    assert(0 <= j < i + 1 && items[j] == k);
                } else {
                    assert(items[i as int] == k);
                }
            }
            assert forall|j: int, k: int| 0 <= j < k < i + 1 implies *items[j] != *items[k] by {
                if k == i {
                    assert(before.contains(items[j]));
                }
            }
        }
        i = i + 1;
    }
    assert(pointees(items@).no_duplicates());
    false
}

/// Why a map could not be built.
#[derive(Clone, Copy, Debug, PartialEq, Eq)]
pub enum BuildError {
    /// There are more entries than a hash word has values.
    TooManyEntries,
    /// Two entries have the same key.
    DuplicateKey,
    /// No candidate seed led to a placement of all entries.
    SeedsExhausted,
}

/// The keys of a list of entries, in the list's order.
pub open spec fn key_seq<K, V>(entries: Seq<(K, V)>) -> Seq<K> {
    Seq::new(entries.len(), |i: int| entries[i].0)
}

/// What a map is made of: its seed, its displacement table and its entries in slot
/// order.
pub type Parts<K, V> = (u64, Seq<(u16, u16)>, Seq<(K, V)>);

/// What a lookup with the triple `hashes` of `key` finds in the given parts: the entry
/// in the slot that the triple leads to, if that entry has the key.
pub open spec fn spec_find<K, V>(
    displacements: Seq<(u16, u16)>,
    entries: Seq<(K, V)>,
    hashes: Hashes,
    key: K,
) -> Option<(K, V)> {
    if displacements.len() == 0 {
        None
    } else {
        let pair = displacements[bucket_of(hashes, displacements.len() as int)];
        let entry = entries[spec_slot(hashes, pair, entries.len() as int)];
        if entry.0 == key {
            Some(entry)
        } else {
            None
        }
    }
}

/// What building a map from `entries` gives: the error that the entries call for, or
/// else the first seed that works, its displacement table, and the entries moved into
/// their slots.
pub open spec fn spec_new<M: MapHasher<K>, K, V>(entries: Seq<(K, V)>) -> Result<
    Parts<K, V>,
    BuildError,
> {
    if entries.len() > MAX_ENTRIES {
        Err(BuildError::TooManyEntries)
    } else if !key_seq(entries).no_duplicates() {
        Err(BuildError::DuplicateKey)
    } else {
        match spec_generate::<K, M>(key_seq(entries), 0) {
            Some((seed, (displacements, indices))) => Ok(
                (seed, displacements, permuted(entries, indices)),
            ),
            None => Err(BuildError::SeedsExhausted),
        }
    }
}

/// The finite map that a list of entries with distinct keys stands for.
pub open spec fn as_map<K, V>(entries: Seq<(K, V)>) -> Map<K, V> {
    Map::new(
        |key: K| key_seq(entries).contains(key),
        |key: K| entries[key_seq(entries).index_of(key)].1,
    )
}

/// Under distinct keys, the map of a list sends each key to the value listed with it.
pub proof fn lemma_as_map_holds_every_entry<K, V>(entries: Seq<(K, V)>, i: int)
    requires
        key_seq(entries).no_duplicates(),
        0 <= i < entries.len(),
    ensures
        as_map(entries).contains_key(entries[i].0),
        as_map(entries)[entries[i].0] == entries[i].1,
{
    let keys = key_seq(entries);
    assert(keys[i] == entries[i].0);
    let j = keys.index_of(entries[i].0);
    assert(keys[j] == keys[i]);
}

/// Reordering a list of entries along a permutation does not change the map that it
/// stands for.
pub proof fn lemma_permuted_is_same_map<K, V>(entries: Seq<(K, V)>, indices: Seq<usize>)
    requires
        indices.len() == entries.len(),
        is_permutation(indices),
        key_seq(entries).no_duplicates(),
    ensures
        as_map(permuted(entries, indices)) == as_map(entries),
{
    let stored = permuted(entries, indices);
    lemma_permutation_is_onto(indices);
    assert forall|key: K| key_seq(stored).contains(key) <==> key_seq(entries).contains(key) by {
        if key_seq(stored).contains(key) {
            let s = key_seq(stored).index_of(key);
            assert(key_seq(entries)[indices[s] as int] == key);
        }
        if key_seq(entries).contains(key) {
            let e = key_seq(entries).index_of(key);
            assert(is_named(indices, e));
            let s = choose|s: int| 0 <= s < indices.len() && #[trigger] indices[s] == e;
            assert(key_seq(stored)[s] == key);
        }
    }
    assert forall|key: K| key_seq(stored).contains(key) implies #[trigger] as_map(stored)[key]
        == as_map(entries)[key] by {
        let s = key_seq(stored).index_of(key);
        lemma_as_map_holds_every_entry(entries, indices[s] as int);
    }
    assert(as_map(stored) =~= as_map(entries));
}

/// A static map from keys to values, hashed by `M`.
pub struct StaticMap<M: MapHasher<K>, K: Eq + Hash, V> {
    seed: u64,
    displacements: Vec<(u16, u16)>,
    entries: Vec<(K, V)>,
    _marker: PhantomData<M>,
}

/// The parts of a built map, or the error.
pub open spec fn result_parts<M: MapHasher<K>, K: Eq + Hash, V>(
    built: Result<StaticMap<M, K, V>, BuildError>,
) -> Result<Parts<K, V>, BuildError> {
    match built {
        Ok(map) => Ok(map.parts()),
        Err(error) => Err(error),
    }
}

impl<M: MapHasher<K>, K: Eq + Hash, V> View for StaticMap<M, K, V> {
    type V = Map<K, V>;

    /// The finite map from the stored keys to their values.
    closed spec fn view(&self) -> Map<K, V> {
        as_map(self.entries@)
    }
}

impl<M: MapHasher<K>, K: Eq + Hash, V> StaticMap<M, K, V> {
    /// The seed, the displacement table and the entries in slot order.
    pub closed spec fn parts(&self) -> Parts<K, V> {
        (self.seed, self.displacements@, self.entries@)
    }

    /// Every stored entry sits in the slot that its own key leads to.
    #[verifier::type_invariant]
    pub closed spec fn wf(&self) -> bool {
        let hashes = hashes_under::<K, M>(key_seq(self.entries@), self.seed);
        &&& is_key_type::<K>()
        &&& self.entries.len() <= MAX_ENTRIES
        &&& self.displacements.len() == spec_num_buckets(self.entries.len() as int)
        &&& forall|s: int|
            0 <= s < self.entries.len() ==> #[trigger] entry_slot(hashes, self.displacements@, s)
                == s
    }

    /// What `get_entry` finds for `key`.
    pub open spec fn spec_get_entry(&self, key: K) -> Option<(K, V)> {
        spec_find(self.parts().1, self.parts().2, spec_hash::<K, M>(key, self.parts().0), key)
    }

    /// Builds the map of `entries`.
    ///
    /// Fails if there are more entries than a hash word has values, if two entries share
    /// a key, or if none of the candidate seeds leads to a placement.
    pub fn new(entries: Vec<(K, V)>) -> (built: Result<Self, BuildError>)
        requires
            is_key_type::<K>(),
        ensures
            result_parts(built) == spec_new::<M, K, V>(entries@),
            built matches Ok(map) ==> map@ == as_map(entries@),
    {
        if entries.len() > into_usize(max_word()) {
            return Err(BuildError::TooManyEntries);
        }
        let mut keys: Vec<&K> = Vec::with_capacity(entries.len());
        let mut i: usize = 0;
        while i < entries.len()
            invariant
                i <= entries.len(),
                keys.len() == i,
                forall|j: int| 0 <= j < i ==> *#[trigger] keys[j] == entries[j].0,
            decreases entries.len() - i,
        {
            keys.push(&entries[i].0);
            i = i + 1;
        }
        assert(pointees(keys@) =~= key_seq(entries@));
        if has_duplicates(&keys) {
            return Err(BuildError::DuplicateKey);
        }
        match generate::<K, M>(&keys) {
            None => Err(BuildError::SeedsExhausted),
            Some((seed, state)) => {
                let ghost given = entries@;
                let ghost indices = state.indices@;
                let mut entries = entries;
                sort_by_indices(&mut entries, state.indices);
                proof {
                    lemma_stored_entries_sit_in_their_slots::<M, K, V>(
                        given,
                        seed,
                        state.displacements@,
                        indices,
                    );
                    lemma_permuted_is_same_map(given, indices);
                }
                Ok(Self { seed, displacements: state.displacements, entries, _marker: PhantomData })
            },
        }
    }

    /// Looks up the key whose triple is `hashes`. Returns the entry in the slot that the
    /// triple leads to if it has the key, and `None` otherwise.
    pub fn find_entry(&self, hashes: Hashes, key: &K) -> (found: Option<(&K, &V)>)
        ensures
            match found {
                Some((k, v)) => spec_find(self.parts().1, self.parts().2, hashes, *key) == Some(
                    (*k, *v),
                ),
                None => spec_find(self.parts().1, self.parts().2, hashes, *key) is None,
            },
    {
        proof {
            use_type_invariant(self);
        }
        if self.displacements.len() == 0 {
            return None;
        }
        let pair: (u16, u16) = self.displacements[into_usize(hashes.0) % self.displacements.len()];
        let index: usize = slot(hashes, pair, self.entries.len());
        let entry: &(K, V) = &self.entries[index];
        if entry.0 == *key {
            Some((&entry.0, &entry.1))
        } else {
            None
        }
    }

    /// Looks `key` up. Returns the stored key and its value, or `None` if no entry has
    /// the key.
    pub fn get_entry(&self, key: &K) -> (found: Option<(&K, &V)>)
        ensures
            match found {
                Some((k, v)) => {
                    &&& *k == *key
                    &&& self@.contains_key(*key)
                    &&& self@[*key] == *v
                    &&& self.spec_get_entry(*key) == Some((*k, *v))
                },
                None => !self@.contains_key(*key) && self.spec_get_entry(*key) is None,
            },
    {
        let hashes: Hashes = hash::<K, M>(key, &self.seed);
        let found = self.find_entry(hashes, key);
        proof {
            use_type_invariant(self);
            self.lemma_lookup_is_exact(*key);
        }
        found
    }

    /// In a well-formed map the lookup finds a key exactly when it is stored, and then
    /// with the value stored for it.
    proof fn lemma_lookup_is_exact(&self, key: K)
        requires
            self.wf(),
        ensures
            match self.spec_get_entry(key) {
                Some(entry) => entry.0 == key && self@.contains_key(key) && self@[key] == entry.1,
                None => !self@.contains_key(key),
            },
    {
        let stored = self.entries@;
        let keys = key_seq(stored);
        let n = stored.len() as int;
        let hashes = hashes_under::<K, M>(keys, self.seed);
        let wanted = spec_hash::<K, M>(key, self.seed);
        assert forall|t: int| 0 <= t < n && stored[t].0 == key implies self.spec_get_entry(key)
            == Some(stored[t]) by {
            assert(hashes[t] == wanted);
            assert(entry_slot(hashes, self.displacements@, t) == t);
        }
        if keys.contains(key) {
            let t = keys.index_of(key);
            assert(stored[t].0 == key);
        }
        if self.spec_get_entry(key) is Some {
            let pair = self.displacements@[bucket_of(wanted, self.displacements.len() as int)];
            lemma_slot_in_table(wanted, pair, n);
            let s = spec_slot(wanted, pair, n);
            assert(keys[s] == key);
            let t = keys.index_of(key);
            assert(stored[t].0 == key);
        }
    }
}

/// Entries that a perfect hash has moved into slot order sit where their keys lead.
pub proof fn lemma_stored_entries_sit_in_their_slots<M: MapHasher<K>, K, V>(
    entries: Seq<(K, V)>,
    seed: u64,
    displacements: Seq<(u16, u16)>,
    indices: Seq<usize>,
)
    requires
        is_perfect(hashes_under::<K, M>(key_seq(entries), seed), displacements, indices),
    ensures
        forall|s: int|
            0 <= s < entries.len() ==> #[trigger] entry_slot(
                hashes_under::<K, M>(key_seq(permuted(entries, indices)), seed),
                displacements,
                s,
            ) == s,
{
    let hashes = hashes_under::<K, M>(key_seq(entries), seed);
    let stored = hashes_under::<K, M>(key_seq(permuted(entries, indices)), seed);
    assert forall|s: int| 0 <= s < entries.len() implies #[trigger] entry_slot(
        stored,
        displacements,
        s,
    ) == s by {
        let e = indices[s] as int;
        assert(stored[s] == hashes[e]);
        let t = entry_slot(hashes, displacements, e);
        assert(indices[t] == e);
        assert(entry_slot(stored, displacements, s) == t);
        if t != s {
            if t < s {
                assert(indices[t] != indices[s]);
            } else {
                assert(indices[s] != indices[t]);
            }
        }
    }
}

} // verus!
