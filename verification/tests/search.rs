use haph::bucket::{build_buckets, num_buckets, rank_buckets, LAMBDA, MAX_ENTRIES};
use haph::generate::try_generate;
use haph::hasher::displace;
use haph::trial::{find_pair, try_pair};
use haph::Bucket;

type Triple = (u16, u16, u16);

/// A plain search written the short way, to hold the library's result against.
fn oracle(hashes: &[Triple]) -> Option<(Vec<(u16, u16)>, Vec<usize>)> {
    let table_len = hashes.len();
    let count = (table_len + 4) / 5;
    let mut groups: Vec<(usize, Vec<usize>)> = (0..count).map(|b| (b, Vec::new())).collect();
    for (i, triple) in hashes.iter().enumerate() {
        groups[usize::from(triple.0) % count].1.push(i);
    }
    groups.sort_by(|a, b| b.1.len().cmp(&a.1.len()));
    let mut pairs = vec![(0u16, 0u16); count];
    let mut table: Vec<Option<usize>> = vec![None; table_len];
    for (b, group) in &groups {
        let mut placed = false;
        'pairs: for d1 in 0..table_len {
            for d2 in 0..table_len {
                let mut taken: Vec<usize> = Vec::new();
                let mut good = true;
                for &e in group {
                    let s = usize::from(displace(hashes[e].1, hashes[e].2, d1 as u16, d2 as u16))
                        % table_len;
                    if table[s].is_some() || taken.contains(&s) {
                        good = false;
                        break;
                    }
                    taken.push(s);
                }
                if good {
                    pairs[*b] = (d1 as u16, d2 as u16);
                    for (&e, &s) in group.iter().zip(taken.iter()) {
                        table[s] = Some(e);
                    }
                    placed = true;
                    break 'pairs;
                }
            }
        }
        if !placed {
            return None;
        }
    }
    Some((pairs, table.into_iter().map(Option::unwrap).collect()))
}

/// A small generator of triples, so that the cases below do not depend on a hasher.
fn triples(count: usize, mut state: u64) -> Vec<Triple> {
    let mut out = Vec::with_capacity(count);
    for _ in 0..count {
        state = state.wrapping_mul(6364136223846793005).wrapping_add(1442695040888963407);
        out.push(((state >> 48) as u16, (state >> 32) as u16, (state >> 16) as u16));
    }
    out
}

#[test]
fn constants_have_their_values() {
    assert_eq!(LAMBDA, 5);
    assert_eq!(MAX_ENTRIES, 65535);
}

#[test]
fn new_bucket_is_empty() {
    let bucket = Bucket::new(7);
    assert_eq!(bucket.index, 7);
    assert!(bucket.keys.is_empty());
}

#[test]
fn num_buckets_rounds_up() {
    assert_eq!(num_buckets(0), 0);
    assert_eq!(num_buckets(1), 1);
    assert_eq!(num_buckets(5), 1);
    assert_eq!(num_buckets(6), 2);
    assert_eq!(num_buckets(10), 2);
    assert_eq!(num_buckets(11), 3);
    assert_eq!(num_buckets(65535), 13107);
}

#[test]
fn build_buckets_groups_by_the_first_word() {
    let hashes: Vec<Triple> =
        vec![(0, 0, 0), (1, 0, 0), (2, 0, 0), (3, 0, 0), (4, 0, 0), (5, 0, 0), (7, 0, 0)];
    let buckets = build_buckets(&hashes);
    assert_eq!(buckets.len(), 2);
    assert_eq!(buckets[0].index, 0);
    assert_eq!(buckets[0].keys, vec![0, 2, 4]);
    assert_eq!(buckets[1].index, 1);
    assert_eq!(buckets[1].keys, vec![1, 3, 5, 6]);
}

#[test]
fn build_buckets_of_nothing_is_empty() {
    let hashes: Vec<Triple> = Vec::new();
    assert!(build_buckets(&hashes).is_empty());
}

#[test]
fn rank_buckets_puts_the_heaviest_first() {
    let hashes: Vec<Triple> =
        vec![(0, 0, 0), (1, 0, 0), (2, 0, 0), (3, 0, 0), (4, 0, 0), (5, 0, 0), (7, 0, 0)];
    let buckets = build_buckets(&hashes);
    let order = rank_buckets(&hashes, &buckets);
    assert_eq!(order, vec![(3, 1), (4, 0)]);
}

#[test]
fn rank_buckets_breaks_ties_by_index() {
    let hashes: Vec<Triple> = vec![
        (2, 0, 0),
        (2, 0, 0),
        (0, 0, 0),
        (0, 0, 0),
        (1, 0, 0),
        (1, 0, 0),
        (1, 0, 0),
        (0, 0, 0),
        (2, 0, 0),
        (2, 0, 0),
        (1, 0, 0),
    ];
    let buckets = build_buckets(&hashes);
    let order = rank_buckets(&hashes, &buckets);
    assert_eq!(order, vec![(7, 1), (7, 2), (8, 0)]);
}

#[test]
fn try_pair_accepts_a_pair_that_separates_the_bucket() {
    let hashes: Vec<Triple> = vec![(0, 1, 0), (0, 2, 0)];
    let keys = vec![0, 1];
    let map = vec![None, None];
    let mut try_map = vec![0u64, 0];
    let mut generation = 0u64;
    let mut values_to_add = Vec::new();
    let ok = try_pair(&hashes, &keys, (1, 0), &map, &mut try_map, &mut generation, &mut values_to_add);
    assert!(ok);
    assert_eq!(generation, 1);
    assert_eq!(values_to_add, vec![(1, 0), (0, 1)]);
}

#[test]
fn try_pair_refuses_two_members_in_one_slot() {
    let hashes: Vec<Triple> = vec![(0, 1, 0), (0, 2, 0)];
    let keys = vec![0, 1];
    let map = vec![None, None];
    let mut try_map = vec![0u64, 0];
    let mut generation = 4u64;
    let mut values_to_add = Vec::new();
    let ok = try_pair(&hashes, &keys, (0, 1), &map, &mut try_map, &mut generation, &mut values_to_add);
    assert!(!ok);
    assert_eq!(generation, 5);
}

#[test]
fn try_pair_refuses_a_slot_that_is_taken() {
    let hashes: Vec<Triple> = vec![(0, 1, 0), (0, 2, 0)];
    let keys = vec![0];
    let map = vec![None, Some(1)];
    let mut try_map = vec![0u64, 0];
    let mut generation = 0u64;
    let mut values_to_add = Vec::new();
    assert!(!try_pair(&hashes, &keys, (1, 0), &map, &mut try_map, &mut generation, &mut values_to_add));
    assert!(try_pair(&hashes, &keys, (0, 0), &map, &mut try_map, &mut generation, &mut values_to_add));
    assert_eq!(values_to_add, vec![(0, 0)]);
    assert_eq!(generation, 2);
}

#[test]
fn try_pair_is_not_misled_by_stamps_of_earlier_trials() {
    let hashes: Vec<Triple> = vec![(0, 1, 0), (0, 2, 0)];
    let keys = vec![0, 1];
    let map = vec![None, None];
    let mut try_map = vec![0u64, 0];
    let mut generation = 0u64;
    let mut values_to_add = Vec::new();
    assert!(!try_pair(&hashes, &keys, (0, 0), &map, &mut try_map, &mut generation, &mut values_to_add));
    assert!(!try_pair(&hashes, &keys, (0, 1), &map, &mut try_map, &mut generation, &mut values_to_add));
    assert!(try_pair(&hashes, &keys, (1, 0), &map, &mut try_map, &mut generation, &mut values_to_add));
    assert!(try_pair(&hashes, &keys, (1, 1), &map, &mut try_map, &mut generation, &mut values_to_add));
    assert_eq!(values_to_add, vec![(0, 0), (1, 1)]);
    assert_eq!(generation, 4);
}

#[test]
fn find_pair_returns_the_first_in_row_major_order() {
    let hashes: Vec<Triple> = vec![(0, 1, 0), (0, 2, 0)];
    let keys = vec![0, 1];
    let map = vec![None, None];
    let mut try_map = vec![0u64, 0];
    let mut generation = 0u64;
    let mut values_to_add = Vec::new();
    let found = find_pair(&hashes, &keys, &map, &mut try_map, &mut generation, &mut values_to_add);
    assert_eq!(found, Some((1, 0)));
    assert_eq!(generation, 3);
    assert_eq!(values_to_add, vec![(1, 0), (0, 1)]);
}

#[test]
fn find_pair_gives_up_after_every_pair() {
    let hashes: Vec<Triple> = vec![(0, 1, 0), (0, 1, 0)];
    let keys = vec![0, 1];
    let map = vec![None, None];
    let mut try_map = vec![0u64, 0];
    let mut generation = 0u64;
    let mut values_to_add = Vec::new();
    let found = find_pair(&hashes, &keys, &map, &mut try_map, &mut generation, &mut values_to_add);
    assert_eq!(found, None);
    assert_eq!(generation, 4);
}

#[test]
fn find_pair_takes_the_zero_pair_for_an_empty_bucket() {
    let hashes: Vec<Triple> = vec![(0, 1, 0)];
    let keys = vec![];
    let map = vec![Some(0)];
    let mut try_map = vec![0u64];
    let mut generation = 0u64;
    let mut values_to_add = vec![(9, 9)];
    let found = find_pair(&hashes, &keys, &map, &mut try_map, &mut generation, &mut values_to_add);
    assert_eq!(found, Some((0, 0)));
    assert!(values_to_add.is_empty());
}

#[test]
fn try_generate_of_nothing_is_an_empty_table() {
    let hashes: Vec<Triple> = Vec::new();
    let state = try_generate(&hashes).unwrap();
    assert!(state.displacements.is_empty());
    assert!(state.indices.is_empty());
}

#[test]
fn try_generate_places_one_entry_with_the_zero_pair() {
    let hashes: Vec<Triple> = vec![(77, 5, 9)];
    let state = try_generate(&hashes).unwrap();
    assert_eq!(state.displacements, vec![(0, 0)]);
    assert_eq!(state.indices, vec![0]);
}

#[test]
fn try_generate_places_two_entries() {
    let hashes: Vec<Triple> = vec![(0, 1, 0), (0, 2, 0)];
    let state = try_generate(&hashes).unwrap();
    assert_eq!(state.displacements, vec![(1, 0)]);
    assert_eq!(state.indices, vec![1, 0]);
}

#[test]
fn try_generate_fails_on_entries_that_no_pair_separates() {
    let hashes: Vec<Triple> = vec![(0, 1, 0), (0, 1, 0)];
    assert!(try_generate(&hashes).is_none());
    let hashes: Vec<Triple> = vec![(3, 8, 8), (9, 4, 2), (3, 8, 8), (1, 1, 1)];
    assert!(try_generate(&hashes).is_none());
}

#[test]
fn try_generate_places_the_heavier_bucket_first() {
    // Six entries in two buckets. Bucket 1 holds four of them, is placed first and fits
    // at once on slots 1 to 4. Bucket 0 is left with slots 0 and 5, which the pair
    // (1, 4) is the first to reach.
    let hashes: Vec<Triple> =
        vec![(0, 1, 0), (1, 1, 1), (1, 1, 2), (1, 1, 3), (1, 1, 4), (2, 2, 0)];
    let state = try_generate(&hashes).unwrap();
    assert_eq!(state.displacements, vec![(1, 4), (0, 0)]);
    assert_eq!(state.indices, vec![5, 1, 2, 3, 4, 0]);
}

#[test]
fn try_generate_agrees_with_the_oracle() {
    for round in 0..40u64 {
        for &count in &[1usize, 2, 3, 5, 6, 7, 10, 11, 16, 31, 64] {
            let hashes = triples(count, round * 1000 + count as u64);
            let expect = oracle(&hashes);
            let got = try_generate(&hashes).map(|state| (state.displacements, state.indices));
            assert_eq!(got, expect);
        }
    }
}

#[test]
fn try_generate_sends_every_entry_to_its_own_slot() {
    let hashes = triples(500, 12345);
    let state = try_generate(&hashes).unwrap();
    assert_eq!(state.displacements.len(), 100);
    assert_eq!(state.indices.len(), 500);
    for (e, triple) in hashes.iter().enumerate() {
        let pair = state.displacements[usize::from(triple.0) % 100];
        let s = usize::from(displace(triple.1, triple.2, pair.0, pair.1)) % 500;
        assert_eq!(state.indices[s], e);
    }
}
