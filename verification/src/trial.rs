//! Trials: whether a displacement pair fits a bucket into the free slots of a table.

use crate::bucket::MAX_ENTRIES;
use crate::hasher::{slot, spec_slot, Hashes};
use crate::word::from_usize;
use vstd::prelude::*;

verus! {

/// The slot that member `i` of a bucket falls into under `pair`.
pub open spec fn member_slot(
    hashes: Seq<Hashes>,
    members: Seq<usize>,
    pair: (u16, u16),
    i: int,
) -> int {
    spec_slot(hashes[members[i] as int], pair, hashes.len() as int)
}

/// Whether every member names an entry.
pub open spec fn are_entries(hashes: Seq<Hashes>, members: Seq<usize>) -> bool {
    forall|i: int| 0 <= i < members.len() ==> (#[trigger] members[i]) < hashes.len()
}

/// Whether `pair` sends the members of a bucket to free slots, no two to the same one.
pub open spec fn fits(
    hashes: Seq<Hashes>,
    members: Seq<usize>,
    pair: (u16, u16),
    slots: Seq<Option<usize>>,
) -> bool {
    &&& forall|i: int|
        0 <= i < members.len() ==> slots[#[trigger] member_slot(hashes, members, pair, i)] is None
    &&& forall|i: int, j: int|
        0 <= i < j < members.len() ==> #[trigger] member_slot(hashes, members, pair, i)
            != #[trigger] member_slot(hashes, members, pair, j)
}

/// Whether one of the first `upto` members falls into slot `s` under `pair`.
pub open spec fn is_claimed(
    hashes: Seq<Hashes>,
    members: Seq<usize>,
    pair: (u16, u16),
    upto: int,
    s: int,
) -> bool {
    exists|j: int| 0 <= j < upto && #[trigger] member_slot(hashes, members, pair, j) == s
}

/// The slot and the entry of each member under `pair`, in the members' order.
pub open spec fn placements(hashes: Seq<Hashes>, members: Seq<usize>, pair: (u16, u16)) -> Seq<
    (usize, usize),
> {
    Seq::new(
        members.len(),
        |i: int| (member_slot(hashes, members, pair, i) as usize, members[i]),
    )
}

/// One trial: tests whether `pair` fits the bucket `keys` into the free slots of `map`.
///
/// `try_map` holds, for each slot, the number of the last trial that claimed it, so that
/// no trial has to clear what the one before it left.
pub fn try_pair(
    hashes: &Vec<Hashes>,
    keys: &Vec<usize>,
    pair: (u16, u16),
    map: &Vec<Option<usize>>,
    try_map: &mut Vec<u64>,
    generation: &mut u64,
    values_to_add: &mut Vec<(usize, usize)>,
) -> (ok: bool)
    requires
        map.len() == hashes.len(),
        old(try_map).len() == hashes.len(),
        are_entries(hashes@, keys@),
        *old(generation) < u64::MAX,
        forall|s: int| 0 <= s < old(try_map).len() ==> #[trigger] old(try_map)[s] <= *old(generation),
    ensures
        ok == fits(hashes@, keys@, pair, map@),
        ok ==> final(values_to_add)@ == placements(hashes@, keys@, pair),
        *final(generation) == *old(generation) + 1,
        final(try_map).len() == hashes.len(),
        forall|s: int|
            0 <= s < final(try_map).len() ==> #[trigger] final(try_map)[s] <= *final(generation),
{
    values_to_add.clear();
    *generation = *generation + 1;
    let table_len: usize = hashes.len();
    let mut i: usize = 0;
    while i < keys.len()
        invariant
            i <= keys.len(),
            table_len == hashes.len(),
            map.len() == table_len,
            try_map.len() == table_len,
            are_entries(hashes@, keys@),
            *generation == *old(generation) + 1,
            forall|s: int| 0 <= s < table_len ==> #[trigger] try_map[s] <= *generation,
            forall|s: int|
                0 <= s < table_len ==> (#[trigger] try_map[s] == *generation <==> is_claimed(
                    hashes@,
                    keys@,
                    pair,
                    i as int,
                    s,
                )),
            forall|j: int|
                0 <= j < i ==> map[#[trigger] member_slot(hashes@, keys@, pair, j)] is None,
            forall|j: int, k: int|
                0 <= j < k < i ==> #[trigger] member_slot(hashes@, keys@, pair, j)
                    != #[trigger] member_slot(hashes@, keys@, pair, k),
            values_to_add.len() == i,
            forall|j: int|
                0 <= j < i ==> #[trigger] values_to_add[j] == (
                    member_slot(hashes@, keys@, pair, j) as usize,
                    keys[j],
                ),
        decreases keys.len() - i,
    {
        let key: usize = keys[i];
        let index: usize = slot(hashes[key], pair, table_len);
        assert(index == member_slot(hashes@, keys@, pair, i as int));
        if map[index].is_some() || try_map[index] == *generation {
            proof {
                if map[index as int] is None {
                    let j = choose|j: int|
                        0 <= j < i && #[trigger] member_slot(hashes@, keys@, pair, j) == index;
                    assert(member_slot(hashes@, keys@, pair, j) == member_slot(
                        hashes@,
                        keys@,
                        pair,
                        i as int,
                    ));
                }
            }
            return false;
        }
        let ghost stamps = try_map@;
        try_map.set(index, *generation);
        values_to_add.push((index, key));
        proof {
            assert forall|s: int| 0 <= s < table_len implies (#[trigger] try_map[s] == *generation
                <==> is_claimed(hashes@, keys@, pair, i + 1, s)) by {
                if s == index {
                    assert(member_slot(hashes@, keys@, pair, i as int) == s);
                } else {
                    if is_claimed(hashes@, keys@, pair, i + 1, s) {
                        let j = choose|j: int|
                            0 <= j < i + 1 && #[trigger] member_slot(hashes@, keys@, pair, j) == s;
                        assert(j < i);
                        assert(is_claimed(hashes@, keys@, pair, i as int, s));
                    }
                    if stamps[s] == *generation {
                        let j = choose|j: int|
                            0 <= j < i && #[trigger] member_slot(hashes@, keys@, pair, j) == s;
                        assert(0 <= j < i + 1);
                    }
                }
            }
            assert forall|j: int, k: int| 0 <= j < k < i + 1 implies #[trigger] member_slot(
                hashes@,
                keys@,
                pair,
                j,
            ) != #[trigger] member_slot(hashes@, keys@, pair, k) by {
                if k == i && member_slot(hashes@, keys@, pair, j) == index {
                    assert(is_claimed(hashes@, keys@, pair, i as int, index as int));
                }
            }
        }
        i = i + 1;
    }
    assert(values_to_add@ =~= placements(hashes@, keys@, pair));
    true
}

/// Row-major order on displacement pairs: first by the first number, then by the second.
pub open spec fn precedes(a: (u16, u16), b: (u16, u16)) -> bool {
    a.0 < b.0 || (a.0 == b.0 && a.1 < b.1)
}

/// Whether both numbers of `pair` lie below the table's length.
pub open spec fn is_candidate(pair: (u16, u16), table_len: int) -> bool {
    pair.0 < table_len && pair.1 < table_len
}

/// Whether `pair` is the first candidate, in row-major order, that fits the bucket.
pub open spec fn is_first_fit(
    hashes: Seq<Hashes>,
    members: Seq<usize>,
    slots: Seq<Option<usize>>,
    pair: (u16, u16),
) -> bool {
    &&& is_candidate(pair, hashes.len() as int)
    &&& fits(hashes, members, pair, slots)
    &&& forall|other: (u16, u16)|
        is_candidate(other, hashes.len() as int) && precedes(other, pair) ==> !#[trigger] fits(
            hashes,
            members,
            other,
            slots,
        )
}

/// Whether no candidate fits the bucket.
pub open spec fn has_no_fit(
    hashes: Seq<Hashes>,
    members: Seq<usize>,
    slots: Seq<Option<usize>>,
) -> bool {
    forall|pair: (u16, u16)|
        is_candidate(pair, hashes.len() as int) ==> !#[trigger] fits(hashes, members, pair, slots)
}

/// Searches the candidates in row-major order for the first pair that fits the bucket
/// `keys` into the free slots of `map`.
pub fn find_pair(
    hashes: &Vec<Hashes>,
    keys: &Vec<usize>,
    map: &Vec<Option<usize>>,
    try_map: &mut Vec<u64>,
    generation: &mut u64,
    values_to_add: &mut Vec<(usize, usize)>,
) -> (found: Option<(u16, u16)>)
    requires
        hashes.len() <= MAX_ENTRIES,
        map.len() == hashes.len(),
        old(try_map).len() == hashes.len(),
        are_entries(hashes@, keys@),
        *old(generation) + hashes.len() * hashes.len() <= u64::MAX,
        forall|s: int| 0 <= s < old(try_map).len() ==> #[trigger] old(try_map)[s] <= *old(generation),
    ensures
        match found {
            Some(pair) => is_first_fit(hashes@, keys@, map@, pair) && final(values_to_add)@
                == placements(hashes@, keys@, pair),
            None => has_no_fit(hashes@, keys@, map@),
        },
        *final(generation) == *old(generation) + match found {
            Some(pair) => pair.0 * hashes.len() + pair.1 + 1,
            None => hashes.len() * hashes.len(),
        },
        *final(generation) <= *old(generation) + hashes.len() * hashes.len(),
        final(try_map).len() == hashes.len(),
        forall|s: int|
            0 <= s < final(try_map).len() ==> #[trigger] final(try_map)[s] <= *final(generation),
{
    let table_len: usize = hashes.len();
    let mut d1: usize = 0;
    while d1 < table_len
        invariant
            d1 <= table_len,
            table_len == hashes.len(),
            table_len <= MAX_ENTRIES,
            map.len() == table_len,
            try_map.len() == table_len,
            are_entries(hashes@, keys@),
            *old(generation) + table_len * table_len <= u64::MAX,
            *generation == *old(generation) + d1 * table_len,
            forall|s: int| 0 <= s < table_len ==> #[trigger] try_map[s] <= *generation,
            forall|other: (u16, u16)|
                other.0 < d1 && other.1 < table_len ==> !#[trigger] fits(
                    hashes@,
                    keys@,
                    other,
                    map@,
                ),
        decreases table_len - d1,
    {
        let mut d2: usize = 0;
        while d2 < table_len
            invariant
                d1 < table_len,
                d2 <= table_len,
                table_len == hashes.len(),
                table_len <= MAX_ENTRIES,
                map.len() == table_len,
                try_map.len() == table_len,
                are_entries(hashes@, keys@),
                *old(generation) + table_len * table_len <= u64::MAX,
                *generation == *old(generation) + d1 * table_len + d2,
                forall|s: int| 0 <= s < table_len ==> #[trigger] try_map[s] <= *generation,
                forall|other: (u16, u16)|
                    other.0 < d1 && other.1 < table_len ==> !#[trigger] fits(
                        hashes@,
                        keys@,
                        other,
                        map@,
                    ),
                forall|other: (u16, u16)|
                    other.0 == d1 && other.1 < d2 ==> !#[trigger] fits(hashes@, keys@, other, map@),
            decreases table_len - d2,
        {
            assert(d1 * table_len + d2 < table_len * table_len) by (nonlinear_arith)
                requires
                    d1 < table_len,
                    d2 < table_len,
            ;
            let pair: (u16, u16) = (from_usize(d1), from_usize(d2));
            assert(pair.0 == d1 && pair.1 == d2);
            if try_pair(hashes, keys, pair, map, try_map, generation, values_to_add) {
                return Some(pair);
            }
            d2 = d2 + 1;
        }
        assert((d1 + 1) * table_len == d1 * table_len + table_len) by (nonlinear_arith);
        d1 = d1 + 1;
    }
    None
}

} // verus!
