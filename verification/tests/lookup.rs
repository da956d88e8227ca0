use core::hash::{BuildHasher, Hash, Hasher};
use foldhash::quality::{FixedState, FoldHasher};
use haph::seed::{generate, hash_all, FIXED_SEED, SEED_ATTEMPTS};
use haph::{BuildError, MapHasher, StaticMap};
use rand::distributions::Standard;
use rand::rngs::StdRng;
use rand::{Rng, SeedableRng};

struct Fold(FoldHasher);

impl<K: Hash> MapHasher<K> for Fold {
    fn seeded(seed: u64) -> Self {
        <Self as MapHasher<K>>::new_with_seed(&seed)
    }

    fn absorbing(mut self, key: K) -> Self {
        self.absorb(&key);
        self
    }

    fn triple(self) -> (u16, u16, u16) {
        <Self as MapHasher<K>>::finish_triple(&self)
    }

    fn new_with_seed(seed: &u64) -> Self {
        Fold(FixedState::with_seed(*seed).build_hasher())
    }

    fn absorb(&mut self, key: &K) {
        key.hash(&mut self.0);
    }

    fn finish_triple(&self) -> (u16, u16, u16) {
        let output = self.0.finish();
        ((output >> 32) as u16, (output >> 16) as u16, output as u16)
    }
}

#[test]
fn empty() {
    type Key = u8;

    let map = StaticMap::<Fold, Key, ()>::new(vec![]).unwrap();

    for key in Key::MIN..=Key::MAX {
        assert!(map.get_entry(&key).is_none());
    }
}

#[test]
fn single() {
    type Key = u8;

    let map = StaticMap::<Fold, Key, &str>::new(vec![(Key::MAX, "foo")]).unwrap();

    for key in Key::MIN..Key::MAX {
        assert!(map.get_entry(&key).is_none());
    }

    assert_eq!(map.get_entry(&Key::MAX), Some((&Key::MAX, &"foo")));
}

#[test]
fn multiple() {
    type Key = u8;

    let entries = vec![(1, "foo"), (3, "bar"), (9, "baz")];
    let keys: Vec<_> = entries.clone().into_iter().map(|(k, _)| k).collect();

    let map = StaticMap::<Fold, Key, &str>::new(entries).unwrap();

    for key in Key::MIN..=Key::MAX {
        if !keys.contains(&key) {
            assert!(map.get_entry(&key).is_none());
        }
    }

    assert_eq!(map.get_entry(&1), Some((&1, &"foo")));
    assert_eq!(map.get_entry(&3), Some((&3, &"bar")));
    assert_eq!(map.get_entry(&9), Some((&9, &"baz")));
}

#[test]
fn duplicate_key_is_refused() {
    let built = StaticMap::<Fold, u8, &str>::new(vec![(5, "foo"), (5, "bar")]);
    assert_eq!(built.err(), Some(BuildError::DuplicateKey));
}

#[test]
fn every_key_of_a_full_domain_is_found() {
    let entries: Vec<(u8, u16)> = (0..=255u8).map(|k| (k, u16::from(k) * 3)).collect();
    let map = StaticMap::<Fold, u8, u16>::new(entries).unwrap();
    for key in 0..=255u8 {
        assert_eq!(map.get_entry(&key), Some((&key, &(u16::from(key) * 3))));
    }
}

/// A hasher that gives every key the same triple, so that no two keys can be told apart.
struct Stuck;

impl MapHasher<u8> for Stuck {
    fn seeded(_seed: u64) -> Self {
        Stuck
    }

    fn absorbing(self, _key: u8) -> Self {
        self
    }

    fn triple(self) -> (u16, u16, u16) {
        (1, 2, 3)
    }

    fn new_with_seed(_seed: &u64) -> Self {
        Stuck
    }

    fn absorb(&mut self, _key: &u8) {}

    fn finish_triple(&self) -> (u16, u16, u16) {
        (1, 2, 3)
    }
}

#[test]
fn duplicate_key_is_refused_wherever_it_stands() {
    let built = StaticMap::<Fold, u8, u8>::new(vec![(1, 1), (2, 2), (3, 3), (4, 4), (2, 5)]);
    assert_eq!(built.err(), Some(BuildError::DuplicateKey));
}

#[test]
fn too_many_entries_are_refused() {
    let entries: Vec<(u32, ())> = (0..65536u32).map(|k| (k, ())).collect();
    let built = StaticMap::<Fold, u32, ()>::new(entries);
    assert_eq!(built.err(), Some(BuildError::TooManyEntries));
}

#[test]
fn too_many_entries_are_reported_before_duplicates() {
    let entries: Vec<(u32, ())> = (0..70000u32).map(|k| (k % 7, ())).collect();
    let built = StaticMap::<Fold, u32, ()>::new(entries);
    assert_eq!(built.err(), Some(BuildError::TooManyEntries));
}

#[test]
fn seeds_run_out_when_no_seed_separates_the_keys() {
    let built = StaticMap::<Stuck, u8, ()>::new(vec![(1, ()), (2, ())]);
    assert_eq!(built.err(), Some(BuildError::SeedsExhausted));
}

#[test]
fn a_single_key_needs_no_separation() {
    let map = StaticMap::<Stuck, u8, &str>::new(vec![(1, "one")]).unwrap();
    assert_eq!(map.get_entry(&1), Some((&1, &"one")));
    assert_eq!(map.get_entry(&2), None);
}

#[test]
fn a_large_map_finds_all_its_keys_and_no_others() {
    let entries: Vec<(u32, u32)> = (0..3000u32).map(|k| (k * 7 + 1, k)).collect();
    let map = StaticMap::<Fold, u32, u32>::new(entries).unwrap();
    for k in 0..3000u32 {
        assert_eq!(map.get_entry(&(k * 7 + 1)), Some((&(k * 7 + 1), &k)));
        assert_eq!(map.get_entry(&(k * 7)), None);
        assert_eq!(map.get_entry(&(k * 7 + 2)), None);
    }
}

#[test]
fn keys_may_be_strings() {
    let entries = vec![
        (String::from("alpha"), 1),
        (String::from("beta"), 2),
        (String::from("gamma"), 3),
        (String::from("delta"), 4),
        (String::from("epsilon"), 5),
        (String::from("zeta"), 6),
    ];
    let map = StaticMap::<Fold, String, i32>::new(entries.clone()).unwrap();
    for (key, value) in &entries {
        assert_eq!(map.get_entry(key), Some((key, value)));
    }
    assert_eq!(map.get_entry(&String::from("eta")), None);
}

#[test]
fn find_entry_follows_the_given_triple() {
    let map = StaticMap::<Fold, u8, &str>::new(vec![(255, "foo")]).unwrap();
    // With one slot every triple leads to it; the key decides.
    assert_eq!(map.find_entry((0, 0, 0), &255), Some((&255, &"foo")));
    assert_eq!(map.find_entry((9, 8, 7), &255), Some((&255, &"foo")));
    assert_eq!(map.find_entry((9, 8, 7), &254), None);
    let empty = StaticMap::<Fold, u8, &str>::new(vec![]).unwrap();
    assert_eq!(empty.find_entry((0, 0, 0), &255), None);
}

#[test]
fn generate_starts_with_the_first_seed_of_the_stream() {
    let keys = [1u8, 3, 9];
    let refs: Vec<&u8> = keys.iter().collect();
    let (seed, state) = generate::<u8, Fold>(&refs).unwrap();
    let mut stream = StdRng::seed_from_u64(FIXED_SEED).sample_iter::<u64, _>(Standard);
    let mut expect = stream.next().unwrap();
    // The first candidate under which the three keys separate is the one returned.
    loop {
        let hashes = hash_all::<u8, Fold>(&refs, expect);
        if haph::generate::try_generate(&hashes).is_some() {
            break;
        }
        expect = stream.next().unwrap();
    }
    assert_eq!(seed, expect);
    assert_ne!(seed, FIXED_SEED);
    assert_eq!(state.displacements.len(), 1);
    assert_eq!(state.indices.len(), 3);
}

#[test]
fn generate_gives_up_after_the_last_candidate() {
    assert_eq!(SEED_ATTEMPTS, 4096);
    let keys = [1u8, 2];
    let refs: Vec<&u8> = keys.iter().collect();
    assert!(generate::<u8, Stuck>(&refs).is_none());
}

#[test]
fn hash_all_hashes_each_key_in_order() {
    let keys = [4u8, 5, 6];
    let refs: Vec<&u8> = keys.iter().collect();
    let hashes = hash_all::<u8, Fold>(&refs, 77);
    assert_eq!(hashes.len(), 3);
    for (key, triple) in keys.iter().zip(hashes.iter()) {
        assert_eq!(*triple, haph::hash::<u8, Fold>(key, &77));
    }
}

#[test]
fn two_constructions_are_the_same() {
    let keys: Vec<u32> = (0..200u32).map(|k| k * k + 3).collect();
    let refs: Vec<&u32> = keys.iter().collect();
    let (seed_a, state_a) = generate::<u32, Fold>(&refs).unwrap();
    let (seed_b, state_b) = generate::<u32, Fold>(&refs).unwrap();
    assert_eq!(seed_a, seed_b);
    assert_eq!(state_a.displacements, state_b.displacements);
    assert_eq!(state_a.indices, state_b.indices);
}
