use haph::map::has_duplicates;
use haph::sort_by_indices;

#[test]
fn sort_by_indices_moves_each_item_to_its_slot() {
    let mut data = vec!['a', 'b', 'c', 'd', 'e'];
    sort_by_indices(&mut data, vec![2, 0, 1, 4, 3]);
    assert_eq!(data, vec!['c', 'a', 'b', 'e', 'd']);
}

#[test]
fn sort_by_indices_keeps_fixed_points() {
    let mut data = vec![10, 20, 30, 40];
    sort_by_indices(&mut data, vec![0, 1, 2, 3]);
    assert_eq!(data, vec![10, 20, 30, 40]);
    sort_by_indices(&mut data, vec![3, 1, 2, 0]);
    assert_eq!(data, vec![40, 20, 30, 10]);
}

#[test]
fn sort_by_indices_follows_one_long_cycle() {
    let mut data: Vec<usize> = (0..8).collect();
    sort_by_indices(&mut data, vec![1, 2, 3, 4, 5, 6, 7, 0]);
    assert_eq!(data, vec![1, 2, 3, 4, 5, 6, 7, 0]);
}

#[test]
fn sort_by_indices_handles_every_permutation_of_four() {
    let items = ["w", "x", "y", "z"];
    for a in 0..4 {
        for b in 0..4 {
            for c in 0..4 {
                for d in 0..4 {
                    let indices = vec![a, b, c, d];
                    let mut seen = [false; 4];
                    for &i in &indices {
                        seen[i] = true;
                    }
                    if seen.iter().all(|&s| s) {
                        let mut data = items.to_vec();
                        sort_by_indices(&mut data, indices.clone());
                        let expect: Vec<&str> = indices.iter().map(|&i| items[i]).collect();
                        assert_eq!(data, expect);
                    }
                }
            }
        }
    }
}

#[test]
fn sort_by_indices_accepts_nothing() {
    let mut data: Vec<u8> = Vec::new();
    sort_by_indices(&mut data, Vec::new());
    assert!(data.is_empty());
}

#[test]
fn has_duplicates_finds_a_repeated_item() {
    let items = [3u8, 9, 4, 9];
    let refs: Vec<&u8> = items.iter().collect();
    assert!(has_duplicates(&refs));
}

#[test]
fn has_duplicates_accepts_distinct_items() {
    let items = [3u8, 9, 4, 1];
    let refs: Vec<&u8> = items.iter().collect();
    assert!(!has_duplicates(&refs));
    let nothing: Vec<&u8> = Vec::new();
    assert!(!has_duplicates(&nothing));
}

#[test]
fn has_duplicates_compares_what_the_references_point_to() {
    let first = String::from("key");
    let second = String::from("key");
    let refs: Vec<&String> = vec![&first, &second];
    assert!(has_duplicates(&refs));
}
