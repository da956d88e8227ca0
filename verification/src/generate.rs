//! Placing all buckets of a table: the displacement table and the slot of every entry.

use crate::bucket::{
    bucket_of, bucket_order, build_buckets, lemma_bucket_order, lemma_members, members, ranks,
    rank_buckets, spec_num_buckets, Bucket, LAMBDA, MAX_ENTRIES,
};
use crate::hasher::{spec_slot, Hashes};
use crate::permute::{is_named, is_permutation, lemma_permutation_is_onto};
use crate::trial::{
    are_entries, find_pair, fits, is_claimed, is_first_fit, member_slot, placements, precedes,
};
use crate::word::zero_word;
use vstd::prelude::*;

verus! {

/// What a finished search hands back: the displacement pair of each bucket, and for
/// each slot the entry that belongs there.
pub struct MapState {
    pub displacements: Vec<(u16, u16)>,
    pub indices: Vec<usize>,
}

impl View for MapState {
    type V = (Seq<(u16, u16)>, Seq<usize>);

    open spec fn view(&self) -> (Seq<(u16, u16)>, Seq<usize>) {
        (self.displacements@, self.indices@)
    }
}

/// A table in the making: the pairs chosen so far and the entry, if any, in each slot.
pub struct Placement {
    pub displacements: Seq<(u16, u16)>,
    pub slots: Seq<Option<usize>>,
}

/// The slot of entry `e` under a displacement table.
pub open spec fn entry_slot(hashes: Seq<Hashes>, displacements: Seq<(u16, u16)>, e: int) -> int {
    spec_slot(
        hashes[e],
        displacements[bucket_of(hashes[e], displacements.len() as int)],
        hashes.len() as int,
    )
}

/// Whether a displacement table and a slot assignment make a perfect hash of the
/// entries: every entry is found in its own slot, and every slot holds one entry.
pub open spec fn is_perfect(
    hashes: Seq<Hashes>,
    displacements: Seq<(u16, u16)>,
    indices: Seq<usize>,
) -> bool {
    &&& displacements.len() == spec_num_buckets(hashes.len() as int)
    &&& indices.len() == hashes.len()
    &&& is_permutation(indices)
    &&& forall|e: int|
        0 <= e < hashes.len() ==> {
            let s = #[trigger] entry_slot(hashes, displacements, e);
            0 <= s < hashes.len() && indices[s] == e
        }
}

/// The slots after the first `upto` members of a bucket have moved in under `pair`.
pub open spec fn occupy(
    hashes: Seq<Hashes>,
    members: Seq<usize>,
    pair: (u16, u16),
    slots: Seq<Option<usize>>,
    upto: int,
) -> Seq<Option<usize>>
    decreases upto,
{
    if upto <= 0 {
        slots
    } else {
        occupy(hashes, members, pair, slots, upto - 1).update(
            member_slot(hashes, members, pair, upto - 1),
            Some(members[upto - 1]),
        )
    }
}

/// The empty table: no entry placed, every pair zero.
pub open spec fn empty_placement(hashes: Seq<Hashes>) -> Placement {
    Placement {
        displacements: Seq::new(
            spec_num_buckets(hashes.len() as int) as nat,
            |b: int| (0u16, 0u16),
        ),
        slots: Seq::new(hashes.len(), |s: int| None::<usize>),
    }
}

/// Places one bucket with the first pair that fits it, if any pair does.
pub open spec fn place_bucket(hashes: Seq<Hashes>, before: Placement, bucket: int) -> Option<
    Placement,
> {
    let group = members(hashes, bucket, hashes.len() as int);
    if exists|pair: (u16, u16)| is_first_fit(hashes, group, before.slots, pair) {
        let pair = choose|pair: (u16, u16)| is_first_fit(hashes, group, before.slots, pair);
        Some(
            Placement {
                displacements: before.displacements.update(bucket, pair),
                slots: occupy(hashes, group, pair, before.slots, group.len() as int),
            },
        )
    } else {
        None
    }
}

/// The table after the first `upto` buckets of `order` have been placed one after the
/// other, or `None` if one of them found no pair.
pub open spec fn spec_search(hashes: Seq<Hashes>, order: Seq<(usize, usize)>, upto: int) -> Option<
    Placement,
>
    decreases upto,
{
    if upto <= 0 {
        Some(empty_placement(hashes))
    } else {
        match spec_search(hashes, order, upto - 1) {
            Some(before) => place_bucket(hashes, before, order[upto - 1].1 as int),
            None => None,
        }
    }
}

/// The outcome of the whole search: the buckets are placed heaviest first, each with
/// the first pair in row-major order that fits it.
pub open spec fn spec_try_generate(hashes: Seq<Hashes>) -> Option<(Seq<(u16, u16)>, Seq<usize>)> {
    match spec_search(
        hashes,
        bucket_order(hashes),
        spec_num_buckets(hashes.len() as int),
    ) {
        Some(done) => Some(
            (done.displacements, Seq::new(hashes.len(), |s: int| done.slots[s].unwrap())),
        ),
        None => None,
    }
}

/// Whether `bucket` is among the first `upto` of `order`.
pub open spec fn is_processed(order: Seq<(usize, usize)>, upto: int, bucket: int) -> bool {
    exists|j: int| 0 <= j < upto && (#[trigger] order[j]).1 == bucket
}

/// Whether `order` names buckets of the table, none of them twice.
pub open spec fn is_bucket_sequence(hashes: Seq<Hashes>, order: Seq<(usize, usize)>) -> bool {
    &&& forall|k: int|
        0 <= k < order.len() ==> (#[trigger] order[k]).1 < spec_num_buckets(hashes.len() as int)
    &&& forall|j: int, k: int|
        0 <= j < k < order.len() ==> (#[trigger] order[j]).1 != (#[trigger] order[k]).1
}

/// Whether `table` holds exactly the entries of the first `upto` buckets of `order`, each
/// in the slot that the table's own pairs give it.
pub open spec fn is_partial(
    hashes: Seq<Hashes>,
    order: Seq<(usize, usize)>,
    upto: int,
    table: Placement,
) -> bool {
    let count = spec_num_buckets(hashes.len() as int);
    &&& table.displacements.len() == count
    &&& table.slots.len() == hashes.len()
    &&& forall|s: int|
        0 <= s < hashes.len() && (#[trigger] table.slots[s]) is Some ==> {
            let e = table.slots[s].unwrap();
            &&& e < hashes.len()
            &&& is_processed(order, upto, bucket_of(hashes[e as int], count))
            &&& entry_slot(hashes, table.displacements, e as int) == s
        }
    &&& forall|e: int|
        0 <= e < hashes.len() && is_processed(order, upto, bucket_of(hashes[e], count)) ==> {
            let s = #[trigger] entry_slot(hashes, table.displacements, e);
            0 <= s < hashes.len() && table.slots[s] == Some(e as usize)
        }
}

/// A slot lies inside the table.
pub proof fn lemma_slot_in_table(hashes: Hashes, pair: (u16, u16), table_len: int)
    requires
        table_len > 0,
    ensures
        0 <= spec_slot(hashes, pair, table_len) < table_len,
{
    vstd::arithmetic::div_mod::lemma_mod_bound(
        crate::hasher::spec_displace(hashes.1, hashes.2, pair.0, pair.1),
        table_len,
    );
}

/// A bucket index lies below the number of buckets.
pub proof fn lemma_bucket_in_range(hashes: Hashes, table_len: int)
    requires
        table_len > 0,
    ensures
        0 <= bucket_of(hashes, spec_num_buckets(table_len)) < spec_num_buckets(table_len),
{
    vstd::arithmetic::div_mod::lemma_mod_bound(hashes.0 as int, spec_num_buckets(table_len));
}

/// At most one pair is the first that fits.
pub proof fn lemma_first_fit_is_unique(
    hashes: Seq<Hashes>,
    group: Seq<usize>,
    slots: Seq<Option<usize>>,
    a: (u16, u16),
    b: (u16, u16),
)
    requires
        is_first_fit(hashes, group, slots, a),
        is_first_fit(hashes, group, slots, b),
    ensures
        a == b,
{
    if a != b {
        assert(precedes(a, b) || precedes(b, a));
    }
}

/// What `occupy` does: each member that has moved in sits in its slot, and every other
/// slot is as before.
pub proof fn lemma_occupy(
    hashes: Seq<Hashes>,
    group: Seq<usize>,
    pair: (u16, u16),
    slots: Seq<Option<usize>>,
    upto: int,
)
    requires
        slots.len() == hashes.len(),
        are_entries(hashes, group),
        fits(hashes, group, pair, slots),
        0 <= upto <= group.len(),
    ensures
        occupy(hashes, group, pair, slots, upto).len() == slots.len(),
        forall|j: int|
            0 <= j < upto ==> {
                let s = #[trigger] member_slot(hashes, group, pair, j);
                0 <= s < hashes.len() && occupy(hashes, group, pair, slots, upto)[s] == Some(
                    group[j],
                )
            },
        forall|s: int|
            0 <= s < hashes.len() && !is_claimed(hashes, group, pair, upto, s) ==> (
            #[trigger] occupy(hashes, group, pair, slots, upto)[s]) == slots[s],
    decreases upto,
{
    if upto > 0 {
        lemma_occupy(hashes, group, pair, slots, upto - 1);
        let before = occupy(hashes, group, pair, slots, upto - 1);
        let after = occupy(hashes, group, pair, slots, upto);
        let last = member_slot(hashes, group, pair, upto - 1);
        assert(group[upto - 1] < hashes.len());
        lemma_slot_in_table(hashes[group[upto - 1] as int], pair, hashes.len() as int);
        assert forall|j: int| 0 <= j < upto implies {
            let s = #[trigger] member_slot(hashes, group, pair, j);
            0 <= s < hashes.len() && after[s] == Some(group[j])
        } by {
            if j < upto - 1 {
                assert(member_slot(hashes, group, pair, j) != last);
            }
        }
        assert forall|s: int|
            0 <= s < hashes.len() && !is_claimed(hashes, group, pair, upto, s) implies (
        #[trigger] after[s]) == slots[s] by {
            assert(s != last);
            if is_claimed(hashes, group, pair, upto - 1, s) {
                let j = choose|j: int|
                    0 <= j < upto - 1 && #[trigger] member_slot(hashes, group, pair, j) == s;
                assert(0 <= j < upto);
            }
        }
    }
}

/// Placing one more bucket keeps the table in step with the order.
pub proof fn lemma_place_bucket_is_partial(
    hashes: Seq<Hashes>,
    order: Seq<(usize, usize)>,
    upto: int,
    before: Placement,
    after: Placement,
)
    requires
        hashes.len() <= MAX_ENTRIES,
        is_bucket_sequence(hashes, order),
        0 < upto <= order.len(),
        is_partial(hashes, order, upto - 1, before),
        place_bucket(hashes, before, order[upto - 1].1 as int) == Some(after),
    ensures
        is_partial(hashes, order, upto, after),
{
    let n = hashes.len() as int;
    let count = spec_num_buckets(n);
    let b = order[upto - 1].1 as int;
    let group = members(hashes, b, n);
    let pair = choose|pair: (u16, u16)| is_first_fit(hashes, group, before.slots, pair);
    lemma_members(hashes, b, n);
    assert(are_entries(hashes, group));
    lemma_occupy(hashes, group, pair, before.slots, group.len() as int);
    assert(after.displacements == before.displacements.update(b, pair));
    assert(after.slots == occupy(hashes, group, pair, before.slots, group.len() as int));
    assert(is_processed(order, upto, b));
    assert forall|e: int|
        0 <= e < n && bucket_of(hashes[e], count) != b implies #[trigger] entry_slot(
        hashes,
        after.displacements,
        e,
    ) == entry_slot(hashes, before.displacements, e) by {
        lemma_bucket_in_range(hashes[e], n);
    }
    assert forall|i: int| 0 <= i < group.len() implies #[trigger] member_slot(
        hashes,
        group,
        pair,
        i,
    ) == entry_slot(hashes, after.displacements, group[i] as int) by {}
    assert forall|s: int| 0 <= s < n && (#[trigger] after.slots[s]) is Some implies {
        let e = after.slots[s].unwrap();
        &&& e < n
        &&& is_processed(order, upto, bucket_of(hashes[e as int], count))
        &&& entry_slot(hashes, after.displacements, e as int) == s
    } by {
        if is_claimed(hashes, group, pair, group.len() as int, s) {
            let i = choose|i: int|
                0 <= i < group.len() && #[trigger] member_slot(hashes, group, pair, i) == s;
            assert(after.slots[s] == Some(group[i]));
        } else {
            assert(after.slots[s] == before.slots[s]);
            let e = before.slots[s].unwrap();
            let old_b = bucket_of(hashes[e as int], count);
            let j = choose|j: int| 0 <= j < upto - 1 && (#[trigger] order[j]).1 == old_b;
            assert(order[j].1 != order[upto - 1].1);
            assert(0 <= j < upto);
        }
    }
    assert forall|e: int|
        0 <= e < n && is_processed(order, upto, bucket_of(hashes[e], count)) implies {
        let s = #[trigger] entry_slot(hashes, after.displacements, e);
        0 <= s < n && after.slots[s] == Some(e as usize)
    } by {
        let s = entry_slot(hashes, after.displacements, e);
        if bucket_of(hashes[e], count) == b {
            assert(group.contains(e as usize));
            let i = choose|i: int| 0 <= i < group.len() && group[i] == e as usize;
            assert(member_slot(hashes, group, pair, i) == s);
        } else {
            let j = choose|j: int|
                0 <= j < upto && (#[trigger] order[j]).1 == bucket_of(hashes[e], count);
            assert(j < upto - 1);
            assert(is_processed(order, upto - 1, bucket_of(hashes[e], count)));
            assert(s == entry_slot(hashes, before.displacements, e));
            assert(before.slots[s] == Some(e as usize));
            if is_claimed(hashes, group, pair, group.len() as int, s) {
                let i = choose|i: int|
                    0 <= i < group.len() && #[trigger] member_slot(hashes, group, pair, i) == s;
                assert(before.slots[member_slot(hashes, group, pair, i)] is None);
            }
        }
    }
}

/// However far the search has come, its table is in step with the order.
pub proof fn lemma_search_is_partial(hashes: Seq<Hashes>, order: Seq<(usize, usize)>, upto: int)
    requires
        hashes.len() <= MAX_ENTRIES,
        is_bucket_sequence(hashes, order),
        0 <= upto <= order.len(),
        spec_search(hashes, order, upto) is Some,
    ensures
        is_partial(hashes, order, upto, spec_search(hashes, order, upto).unwrap()),
    decreases upto,
{
    if upto > 0 {
        lemma_search_is_partial(hashes, order, upto - 1);
        lemma_place_bucket_is_partial(
            hashes,
            order,
            upto,
            spec_search(hashes, order, upto - 1).unwrap(),
            spec_search(hashes, order, upto).unwrap(),
        );
    }
}

/// Once a bucket has found no pair, the search has failed for good.
pub proof fn lemma_search_stays_failed(
    hashes: Seq<Hashes>,
    order: Seq<(usize, usize)>,
    failed: int,
    upto: int,
)
    requires
        failed <= upto,
        spec_search(hashes, order, failed) is None,
    ensures
        spec_search(hashes, order, upto) is None,
    decreases upto - failed,
{
    if failed < upto {
        lemma_search_stays_failed(hashes, order, failed, upto - 1);
    }
}

/// The entry in each slot of a table, once every slot holds one.
pub open spec fn entries_by_slot(table: Placement) -> Seq<usize> {
    Seq::new(table.slots.len(), |s: int| table.slots[s].unwrap())
}

/// When every bucket has been placed, every slot holds an entry and the table is a
/// perfect hash.
pub proof fn lemma_full_table_is_perfect(
    hashes: Seq<Hashes>,
    order: Seq<(usize, usize)>,
    table: Placement,
)
    requires
        hashes.len() <= MAX_ENTRIES,
        is_partial(hashes, order, order.len() as int, table),
        forall|b: int|
            0 <= b < spec_num_buckets(hashes.len() as int) ==> #[trigger] is_processed(
                order,
                order.len() as int,
                b,
            ),
    ensures
        forall|s: int| 0 <= s < hashes.len() ==> (#[trigger] table.slots[s]) is Some,
        is_perfect(hashes, table.displacements, entries_by_slot(table)),
{
    let n = hashes.len() as int;
    let count = spec_num_buckets(n);
    let slot_of = Seq::new(n as nat, |e: int| entry_slot(hashes, table.displacements, e) as usize);
    assert forall|e: int| 0 <= e < n implies {
        let s = #[trigger] entry_slot(hashes, table.displacements, e);
        0 <= s < n && table.slots[s] == Some(e as usize)
    } by {
        lemma_bucket_in_range(hashes[e], n);
        assert(is_processed(order, order.len() as int, bucket_of(hashes[e], count)));
    }
    assert(is_permutation(slot_of)) by {
        assert forall|i: int| 0 <= i < slot_of.len() implies (#[trigger] slot_of[i])
            < slot_of.len() by {
            let s = entry_slot(hashes, table.displacements, i);
        }
        assert forall|i: int, j: int| 0 <= i < j < slot_of.len() implies #[trigger] slot_of[i]
            != #[trigger] slot_of[j] by {
            let s = entry_slot(hashes, table.displacements, i);
            let t = entry_slot(hashes, table.displacements, j);
            assert(table.slots[s] == Some(i as usize));
            assert(table.slots[t] == Some(j as usize));
        }
    }
    lemma_permutation_is_onto(slot_of);
    assert forall|s: int| 0 <= s < n implies (#[trigger] table.slots[s]) is Some by {
        assert(is_named(slot_of, s));
        let e = choose|e: int| 0 <= e < slot_of.len() && #[trigger] slot_of[e] == s;
        assert(entry_slot(hashes, table.displacements, e) == s);
    }
    let indices = entries_by_slot(table);
    assert(is_permutation(indices)) by {
        assert forall|i: int| 0 <= i < indices.len() implies (#[trigger] indices[i])
            < indices.len() by {
            assert(table.slots[i] is Some);
        }
        assert forall|i: int, j: int| 0 <= i < j < indices.len() implies #[trigger] indices[i]
            != #[trigger] indices[j] by {
            assert(table.slots[i] is Some);
            assert(table.slots[j] is Some);
        }
    }
    assert forall|e: int| 0 <= e < n implies {
        let s = #[trigger] entry_slot(hashes, table.displacements, e);
        0 <= s < n && indices[s] == e
    } by {
        let s = entry_slot(hashes, table.displacements, e);
        assert(table.slots[s] == Some(e as usize));
    }
}

/// Searches a displacement pair for every bucket, heaviest bucket first, and returns the
/// pairs together with the entry of each slot. Returns `None` as soon as a bucket finds
/// no pair.
pub fn try_generate(hashes: &Vec<Hashes>) -> (generated: Option<MapState>)
    requires
        hashes.len() <= MAX_ENTRIES,
    ensures
        match generated {
            Some(state) => {
                &&& spec_try_generate(hashes@) == Some(state@)
                &&& is_perfect(hashes@, state.displacements@, state.indices@)
            },
            None => spec_try_generate(hashes@) is None,
        },
{
    let table_len: usize = hashes.len();
    let buckets: Vec<Bucket> = build_buckets(hashes);
    let order: Vec<(usize, usize)> = rank_buckets(hashes, &buckets);
    let count: usize = buckets.len();
    proof {
        lemma_order_names_every_bucket(hashes@);
    }
    let mut displacements: Vec<(u16, u16)> = Vec::new();
    let mut b: usize = 0;
    while b < count
        invariant
            b <= count,
            displacements.len() == b,
            forall|c: int| 0 <= c < b ==> #[trigger] displacements[c] == (0u16, 0u16),
        decreases count - b,
    {
        displacements.push((zero_word(), zero_word()));
        b = b + 1;
    }
    let mut map: Vec<Option<usize>> = Vec::new();
    let mut try_map: Vec<u64> = Vec::new();
    let mut s: usize = 0;
    while s < table_len
        invariant
            s <= table_len,
            map.len() == s,
            try_map.len() == s,
            forall|t: int| 0 <= t < s ==> (#[trigger] map[t]) is None,
            forall|t: int| 0 <= t < s ==> #[trigger] try_map[t] == 0,
        decreases table_len - s,
    {
        map.push(None);
        try_map.push(0);
        s = s + 1;
    }
    let mut generation: u64 = 0;
    let mut values_to_add: Vec<(usize, usize)> = Vec::with_capacity(LAMBDA);
    assert(displacements@ =~= empty_placement(hashes@).displacements);
    assert(map@ =~= empty_placement(hashes@).slots);
    let mut k: usize = 0;
    while k < count
        invariant
            k <= count,
            table_len == hashes.len(),
            table_len <= MAX_ENTRIES,
            count == spec_num_buckets(table_len as int),
            buckets.len() == count,
            forall|c: int|
                0 <= c < count ==> (#[trigger] buckets[c]).index == c && buckets[c].keys@
                    == members(hashes@, c, table_len as int),
            order@ == bucket_order(hashes@),
            order.len() == count,
            is_bucket_sequence(hashes@, order@),
            displacements.len() == count,
            map.len() == table_len,
            try_map.len() == table_len,
            generation <= k * (table_len * table_len),
            forall|t: int| 0 <= t < table_len ==> #[trigger] try_map[t] <= generation,
            spec_search(hashes@, order@, k as int) == Some(
                Placement { displacements: displacements@, slots: map@ },
            ),
        decreases count - k,
    {
        let bucket: &Bucket = &buckets[order[k].1];
        let ghost before = Placement { displacements: displacements@, slots: map@ };
        let ghost group = bucket.keys@;
        proof {
            lemma_members(hashes@, order[k as int].1 as int, table_len as int);
            assert((k + 1) * (table_len * table_len) <= 0x3334 * (0xffff * 0xffff))
                by (nonlinear_arith)
                requires
                    k < 0x3334,
                    table_len <= 0xffff,
            ;
            assert((k + 1) * (table_len * table_len) == k * (table_len * table_len) + table_len
                * table_len) by (nonlinear_arith);
        }
        match find_pair(
            hashes,
            &bucket.keys,
            &map,
            &mut try_map,
            &mut generation,
            &mut values_to_add,
        ) {
            None => {
                proof {
                    assert(place_bucket(hashes@, before, order[k as int].1 as int) is None);
                    lemma_search_stays_failed(hashes@, order@, k + 1, count as int);
                }
                return None;
            },
            Some(pair) => {
                proof {
                    let first = choose|first: (u16, u16)|
                        is_first_fit(hashes@, group, before.slots, first);
                    lemma_first_fit_is_unique(hashes@, group, before.slots, pair, first);
                    lemma_occupy(hashes@, group, pair, before.slots, group.len() as int);
                }
                displacements.set(bucket.index, pair);
                let mut j: usize = 0;
                while j < values_to_add.len()
                    invariant
                        j <= values_to_add.len(),
                        table_len == hashes.len(),
                        map.len() == table_len,
                        before.slots.len() == table_len,
                        are_entries(hashes@, group),
                        fits(hashes@, group, pair, before.slots),
                        values_to_add@ == placements(hashes@, group, pair),
                        map@ == occupy(hashes@, group, pair, before.slots, j as int),
                    decreases values_to_add.len() - j,
                {
                    let (index, key) = values_to_add[j];
                    proof {
                        lemma_occupy(hashes@, group, pair, before.slots, j as int);
                        assert(group[j as int] < table_len);
                        lemma_slot_in_table(hashes@[group[j as int] as int], pair, table_len as int);
                    }
                    map.set(index, Some(key));
                    j = j + 1;
                }
            },
        }
        k = k + 1;
    }
    let ghost done = Placement { displacements: displacements@, slots: map@ };
    proof {
        lemma_order_names_every_bucket(hashes@);
        lemma_search_is_partial(hashes@, order@, count as int);
        lemma_full_table_is_perfect(hashes@, order@, done);
    }
    let mut indices: Vec<usize> = Vec::new();
    let mut s: usize = 0;
    while s < table_len
        invariant
            s <= table_len,
            map.len() == table_len,
            indices.len() == s,
            forall|t: int| 0 <= t < table_len ==> (#[trigger] map[t]) is Some,
            forall|t: int| 0 <= t < s ==> #[trigger] indices[t] == map[t].unwrap(),
        decreases table_len - s,
    {
        indices.push(map[s].unwrap());
        s = s + 1;
    }
    assert(indices@ =~= entries_by_slot(done));
    assert(indices@ =~= Seq::new(hashes@.len(), |t: int| done.slots[t].unwrap()));
    Some(MapState { displacements, indices })
}

/// The order of placement names every bucket of the table, and none twice.
pub proof fn lemma_order_names_every_bucket(hashes: Seq<Hashes>)
    requires
        hashes.len() <= MAX_ENTRIES,
    ensures
        bucket_order(hashes).len() == spec_num_buckets(hashes.len() as int),
        is_bucket_sequence(hashes, bucket_order(hashes)),
        forall|b: int|
            0 <= b < spec_num_buckets(hashes.len() as int) ==> #[trigger] is_processed(
                bucket_order(hashes),
                bucket_order(hashes).len() as int,
                b,
            ),
{
    let order = bucket_order(hashes);
    lemma_bucket_order(hashes);
    assert forall|b: int| 0 <= b < spec_num_buckets(hashes.len() as int) implies #[trigger] is_processed(
        order,
        order.len() as int,
        b,
    ) by {
        let rank = ranks(hashes)[b];
        assert(order.contains(rank));
        let at = choose|at: int| 0 <= at < order.len() && order[at] == rank;
        assert(order[at].1 == b);
    }
}

/// Whatever a successful search returns is a perfect hash of the entries.
pub proof fn lemma_try_generate_is_perfect(hashes: Seq<Hashes>)
    requires
        hashes.len() <= MAX_ENTRIES,
        spec_try_generate(hashes) is Some,
    ensures
        is_perfect(
            hashes,
            spec_try_generate(hashes).unwrap().0,
            spec_try_generate(hashes).unwrap().1,
        ),
{
    let order = bucket_order(hashes);
    let done = spec_search(hashes, order, spec_num_buckets(hashes.len() as int)).unwrap();
    lemma_order_names_every_bucket(hashes);
    lemma_search_is_partial(hashes, order, order.len() as int);
    lemma_full_table_is_perfect(hashes, order, done);
    assert(spec_try_generate(hashes).unwrap().1 =~= entries_by_slot(done));
}

} // verus!
