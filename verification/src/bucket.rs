//! Buckets: the entries grouped by their first hash word, and the order in which the
//! groups are placed.

use crate::hasher::Hashes;
use crate::word::into_usize;
use vstd::prelude::*;
use vstd::relations::{sorted_by, total_ordering};
use vstd::seq_lib::lemma_sorted_unique;

verus! {

/// The average number of entries that a bucket is meant to hold.
pub const LAMBDA: usize = 5;

/// The largest number of entries that a table can take: the largest hash word.
pub const MAX_ENTRIES: usize = 0xffff;

/// The entries whose first hash word falls on one bucket index.
pub struct Bucket {
    pub index: usize,
    pub keys: Vec<usize>,
}

impl Bucket {
    /// An empty bucket for the given index.
    pub fn new(index: usize) -> (bucket: Self)
        ensures
            bucket.index == index,
            bucket.keys@ == Seq::<usize>::empty(),
    {
        Self { index, keys: Vec::new() }
    }
}

/// The number of buckets of a table: its length divided by `LAMBDA`, rounded up.
pub open spec fn spec_num_buckets(table_len: int) -> int {
    (table_len + LAMBDA - 1) / (LAMBDA as int)
}

/// The bucket that a triple belongs to.
pub open spec fn bucket_of(hashes: Hashes, num_buckets: int) -> int {
    (hashes.0 as int) % num_buckets
}

/// The entries below `upto` that belong to `bucket`, in ascending order.
pub open spec fn members(hashes: Seq<Hashes>, bucket: int, upto: int) -> Seq<usize>
    decreases upto,
{
    if upto <= 0 {
        Seq::empty()
    } else {
        let earlier = members(hashes, bucket, upto - 1);
        if bucket_of(hashes[upto - 1], spec_num_buckets(hashes.len() as int)) == bucket {
            earlier.push((upto - 1) as usize)
        } else {
            earlier
        }
    }
}

/// Computes the number of buckets for a table of the given length.
pub fn num_buckets(table_len: usize) -> (count: usize)
    requires
        table_len <= MAX_ENTRIES,
    ensures
        count == spec_num_buckets(table_len as int),
{
    (table_len + (LAMBDA - 1)) / LAMBDA
}

/// Sorts every entry into the bucket that its first hash word selects.
pub fn build_buckets(hashes: &Vec<Hashes>) -> (buckets: Vec<Bucket>)
    requires
        hashes.len() <= MAX_ENTRIES,
    ensures
        buckets.len() == spec_num_buckets(hashes.len() as int),
        forall|b: int|
            0 <= b < buckets.len() ==> (#[trigger] buckets[b]).index == b && buckets[b].keys@
                == members(hashes@, b, hashes.len() as int),
{
    let table_len: usize = hashes.len();
    let count: usize = num_buckets(table_len);
    let mut buckets: Vec<Bucket> = Vec::new();
    let mut b: usize = 0;
    while b < count
        invariant
            b <= count,
            buckets.len() == b,
            forall|c: int|
                0 <= c < b ==> (#[trigger] buckets[c]).index == c && buckets[c].keys@ == members(
                    hashes@,
                    c,
                    0,
                ),
        decreases count - b,
    {
        buckets.push(Bucket::new(b));
        b = b + 1;
    }
    let mut i: usize = 0;
    while i < table_len
        invariant
            i <= table_len,
            table_len == hashes.len(),
            table_len <= MAX_ENTRIES,
            count == spec_num_buckets(table_len as int),
            buckets.len() == count,
            forall|c: int|
                0 <= c < count ==> (#[trigger] buckets[c]).index == c && buckets[c].keys@
                    == members(hashes@, c, i as int),
        decreases table_len - i,
    {
        let b: usize = into_usize(hashes[i].0) % count;
        buckets[b].keys.push(i);
        i = i + 1;
    }
    buckets
}

/// What `members` holds: exactly the entries of the bucket below `upto`, in ascending
/// order.
pub proof fn lemma_members(hashes: Seq<Hashes>, bucket: int, upto: int)
    requires
        0 <= upto <= hashes.len() <= MAX_ENTRIES,
    ensures
        members(hashes, bucket, upto).len() <= upto,
        forall|i: int|
            0 <= i < members(hashes, bucket, upto).len() ==> {
                let e = #[trigger] members(hashes, bucket, upto)[i];
                e < upto && bucket_of(hashes[e as int], spec_num_buckets(hashes.len() as int))
                    == bucket
            },
        forall|i: int, j: int|
            0 <= i < j < members(hashes, bucket, upto).len() ==> members(hashes, bucket, upto)[i]
                < members(hashes, bucket, upto)[j],
        forall|e: int|
            0 <= e < upto && bucket_of(#[trigger] hashes[e], spec_num_buckets(hashes.len() as int))
                == bucket ==> members(hashes, bucket, upto).contains(e as usize),
    decreases upto,
{
    if upto > 0 {
        lemma_members(hashes, bucket, upto - 1);
        let earlier = members(hashes, bucket, upto - 1);
        let all = members(hashes, bucket, upto);
        assert forall|e: int|
            0 <= e < upto && bucket_of(#[trigger] hashes[e], spec_num_buckets(hashes.len() as int))
                == bucket implies all.contains(e as usize) by {
            if e < upto - 1 {
                let i = choose|i: int| 0 <= i < earlier.len() && earlier[i] == e as usize;
                assert(all[i] == e as usize);
            } else {
                assert(all[all.len() - 1] == e as usize);
            }
        }
    }
}

/// Lexicographic order on pairs of numbers.
pub open spec fn rank_leq(a: (usize, usize), b: (usize, usize)) -> bool {
    a.0 < b.0 || (a.0 == b.0 && a.1 <= b.1)
}

/// `rank_leq` as a relation.
pub open spec fn rank_order() -> spec_fn((usize, usize), (usize, usize)) -> bool {
    |a: (usize, usize), b: (usize, usize)| rank_leq(a, b)
}

/// The rank of each bucket: the number of slots that its entries leave free, then its
/// index. A heavier bucket has the smaller rank, and among equals the lower index.
pub open spec fn ranks(hashes: Seq<Hashes>) -> Seq<(usize, usize)> {
    Seq::new(
        spec_num_buckets(hashes.len() as int) as nat,
        |b: int| ((hashes.len() - members(hashes, b, hashes.len() as int).len()) as usize, b as usize),
    )
}

/// The order in which the buckets are placed: heaviest first, and among buckets of one
/// size the lower index first.
pub open spec fn bucket_order(hashes: Seq<Hashes>) -> Seq<(usize, usize)> {
    ranks(hashes).sort_by(rank_order())
}

/// `rank_leq` orders the pairs totally.
pub proof fn lemma_rank_order_is_total()
    ensures
        total_ordering(rank_order()),
{
    let leq = rank_order();
    assert(vstd::relations::reflexive(leq)) by {
        assert forall|a: (usize, usize)| #[trigger] leq(a, a) by {}
    }
    assert(vstd::relations::antisymmetric(leq)) by {
        assert forall|a: (usize, usize), b: (usize, usize)| #[trigger]
            leq(a, b) && #[trigger] leq(b, a) implies a == b by {}
    }
    assert(vstd::relations::transitive(leq)) by {
        assert forall|a: (usize, usize), b: (usize, usize), c: (usize, usize)| #[trigger]
            leq(a, b) && #[trigger] leq(b, c) implies leq(a, c) by {}
    }
    assert(vstd::relations::strongly_connected(leq)) by {
        assert forall|a: (usize, usize), b: (usize, usize)| #[trigger]
            leq(a, b) || #[trigger] leq(b, a) by {}
    }
}

/// The order names every bucket exactly once, and each with its rank.
pub proof fn lemma_bucket_order(hashes: Seq<Hashes>)
    requires
        hashes.len() <= MAX_ENTRIES,
    ensures
        bucket_order(hashes).len() == spec_num_buckets(hashes.len() as int),
        sorted_by(bucket_order(hashes), rank_order()),
        forall|k: int|
            0 <= k < bucket_order(hashes).len() ==> {
                let rank = #[trigger] bucket_order(hashes)[k];
                rank.1 < spec_num_buckets(hashes.len() as int) && rank == ranks(hashes)[rank.1 as int]
            },
        forall|j: int, k: int|
            0 <= j < k < bucket_order(hashes).len() ==> (#[trigger] bucket_order(hashes)[j]).1 != (
            #[trigger] bucket_order(hashes)[k]).1,
        forall|b: int|
            0 <= b < spec_num_buckets(hashes.len() as int) ==> bucket_order(hashes).contains(
                #[trigger] ranks(hashes)[b],
            ),
{
    broadcast use vstd::seq_lib::group_to_multiset_ensures;

    let given = ranks(hashes);
    let order = bucket_order(hashes);
    lemma_rank_order_is_total();
    given.lemma_sort_by_ensures(rank_order());
    assert(given.no_duplicates());
    given.lemma_multiset_has_no_duplicates();
    order.lemma_multiset_has_no_duplicates_conv();
    assert(order.to_multiset() == given.to_multiset());
    vstd::seq_lib::to_multiset_len(order);
    vstd::seq_lib::to_multiset_len(given);
    assert(order.len() == given.len());
    assert forall|k: int| 0 <= k < order.len() implies {
        let rank = #[trigger] order[k];
        rank.1 < spec_num_buckets(hashes.len() as int) && rank == given[rank.1 as int]
    } by {
        let rank = order[k];
        assert(order.contains(rank));
        vstd::seq_lib::to_multiset_contains(order, rank);
        vstd::seq_lib::to_multiset_contains(given, rank);
        assert(given.contains(rank));
        let b = choose|b: int| 0 <= b < given.len() && given[b] == rank;
        assert(rank.1 == b);
    }
    assert forall|b: int| 0 <= b < spec_num_buckets(hashes.len() as int) implies order.contains(
        #[trigger] given[b],
    ) by {
        assert(given.contains(given[b]));
        vstd::seq_lib::to_multiset_contains(order, given[b]);
        vstd::seq_lib::to_multiset_contains(given, given[b]);
    }
}

/// `<[T]>::sort` on pairs of numbers: the same pairs afterwards, in ascending
/// lexicographic order.
#[verifier::external_body]
fn sort_ranks(ranked: &mut Vec<(usize, usize)>)
    ensures
        final(ranked)@.to_multiset() == old(ranked)@.to_multiset(),
        sorted_by(final(ranked)@, rank_order()),
{
    ranked.sort()
}

/// Ranks the buckets and returns the ranks in the order of placement.
pub fn rank_buckets(hashes: &Vec<Hashes>, buckets: &Vec<Bucket>) -> (order: Vec<(usize, usize)>)
    requires
        hashes.len() <= MAX_ENTRIES,
        buckets.len() == spec_num_buckets(hashes.len() as int),
        forall|b: int|
            0 <= b < buckets.len() ==> (#[trigger] buckets[b]).keys@ == members(
                hashes@,
                b,
                hashes.len() as int,
            ),
    ensures
        order@ == bucket_order(hashes@),
{
    let table_len: usize = hashes.len();
    let mut ranked: Vec<(usize, usize)> = Vec::new();
    let mut b: usize = 0;
    while b < buckets.len()
        invariant
            b <= buckets.len(),
            table_len == hashes.len(),
            table_len <= MAX_ENTRIES,
            buckets.len() == spec_num_buckets(hashes.len() as int),
            forall|c: int|
                0 <= c < buckets.len() ==> (#[trigger] buckets[c]).keys@ == members(
                    hashes@,
                    c,
                    hashes.len() as int,
                ),
            ranked.len() == b,
            forall|c: int| 0 <= c < b ==> #[trigger] ranked[c] == ranks(hashes@)[c],
        decreases buckets.len() - b,
    {
        proof {
            lemma_members(hashes@, b as int, table_len as int);
        }
        ranked.push((table_len - buckets[b].keys.len(), b));
        b = b + 1;
    }
    assert(ranked@ =~= ranks(hashes@));
    sort_ranks(&mut ranked);
    proof {
        lemma_rank_order_is_total();
        ranks(hashes@).lemma_sort_by_ensures(rank_order());
        lemma_sorted_unique(ranked@, bucket_order(hashes@), rank_order());
    }
    ranked
}

} // verus!
