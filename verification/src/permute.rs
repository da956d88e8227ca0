//! Reordering a vector in place along a permutation.

use vstd::prelude::*;
use vstd::set_lib::{lemma_int_range, lemma_len_subset, lemma_subset_equality, set_int_range};

verus! {

/// `<[T]>::swap`: exchanges the items at two positions and leaves the others alone.
#[verifier::external_body]
fn swap_items<T>(data: &mut Vec<T>, a: usize, b: usize)
    requires
        a < old(data).len(),
        b < old(data).len(),
    ensures
        final(data)@ == old(data)@.update(a as int, old(data)@[b as int]).update(
            b as int,
            old(data)@[a as int],
        ),
{
    data.swap(a, b)
}

/// Whether `indices` names every position below its length exactly once.
pub open spec fn is_permutation(indices: Seq<usize>) -> bool {
    &&& forall|i: int| 0 <= i < indices.len() ==> (#[trigger] indices[i]) < indices.len()
    &&& forall|i: int, j: int|
        0 <= i < j < indices.len() ==> #[trigger] indices[i] != #[trigger] indices[j]
}

/// `data` rearranged so that position `s` holds what stood at `indices[s]`.
pub open spec fn permuted<T>(data: Seq<T>, indices: Seq<usize>) -> Seq<T> {
    Seq::new(indices.len(), |s: int| data[indices[s] as int])
}

/// The positions that a partly applied permutation has not settled yet.
pub open spec fn unsettled(indices: Seq<usize>) -> Set<int> {
    Set::new(|s: int| 0 <= s < indices.len() && indices[s] != s)
}

/// Whether some position of `indices` names `t`.
pub open spec fn is_named(indices: Seq<usize>, t: int) -> bool {
    exists|s: int| 0 <= s < indices.len() && #[trigger] indices[s] == t
}

/// A permutation reaches every position: each one is named somewhere.
pub proof fn lemma_permutation_is_onto(indices: Seq<usize>)
    requires
        is_permutation(indices),
    ensures
        forall|t: int| 0 <= t < indices.len() ==> #[trigger] is_named(indices, t),
{
    let n = indices.len() as int;
    let named = Seq::new(indices.len(), |s: int| indices[s] as int);
    assert(named.no_duplicates());
    named.unique_seq_to_set();
    lemma_int_range(0, n);
    assert(named.to_set().subset_of(set_int_range(0, n))) by {
        assert forall|t: int| named.to_set().contains(t) implies set_int_range(0, n).contains(
            t,
        ) by {
            let s = choose|s: int| 0 <= s < named.len() && named[s] == t;
            assert(indices[s] < indices.len());
        }
    }
    lemma_len_subset(named.to_set(), set_int_range(0, n));
    lemma_subset_equality(named.to_set(), set_int_range(0, n));
    assert forall|t: int| 0 <= t < n implies #[trigger] is_named(indices, t) by {
        assert(set_int_range(0, n).contains(t));
        assert(named.to_set().contains(t));
        let s = choose|s: int| 0 <= s < named.len() && named[s] == t;
        assert(indices[s] == t);
    }
}

/// Settling one more position shrinks the set of unsettled ones.
proof fn lemma_settling_shrinks(before: Seq<usize>, at: usize)
    requires
        at < before.len(),
        before[at as int] != at,
    ensures
        unsettled(before.update(at as int, at)).len() < unsettled(before).len(),
        unsettled(before).finite(),
{
    let n = before.len() as int;
    lemma_int_range(0, n);
    assert(unsettled(before).subset_of(set_int_range(0, n)));
    lemma_len_subset(unsettled(before), set_int_range(0, n));
    assert(unsettled(before).contains(at as int));
    assert(unsettled(before.update(at as int, at)) =~= unsettled(before).remove(at as int));
}

/// Moves, for every position `s`, the item at `indices[s]` to `s`, following each
/// cycle of the permutation once and using no second vector.
pub fn sort_by_indices<T>(data: &mut Vec<T>, indices: Vec<usize>)
    requires
        indices.len() == old(data).len(),
        is_permutation(indices@),
    ensures
        final(data)@ == permuted(old(data)@, indices@),
{
    let mut indices = indices;
    let n: usize = data.len();
    let ghost p: Seq<usize> = indices@;
    let ghost d0: Seq<T> = data@;
    let ghost q: Seq<int> = Seq::new(
        n as nat,
        |t: int| choose|s: int| 0 <= s < n && p[s] == t,
    );
    proof {
        lemma_permutation_is_onto(p);
        assert forall|t: int| 0 <= t < n implies 0 <= #[trigger] q[t] < n && p[q[t]] == t by {
            assert(is_named(p, t));
        }
        assert forall|s: int| 0 <= s < n implies q[p[s] as int] == s by {
            let t = p[s] as int;
            let c = choose|c: int| 0 <= c < n && p[c] == t;
            assert(p[c] == p[s]);
        }
    }
    let mut idx: usize = 0;
    while idx < n
        invariant
            idx <= n,
            data.len() == n,
            indices.len() == n,
            p.len() == n,
            d0.len() == n,
            q.len() == n,
            is_permutation(p),
            forall|t: int| 0 <= t < n ==> 0 <= #[trigger] q[t] < n && p[q[t]] == t,
            forall|s: int| 0 <= s < n ==> q[#[trigger] p[s] as int] == s,
            forall|s: int| 0 <= s < n ==> #[trigger] indices[s] == s || indices[s] == p[s],
            forall|s: int| 0 <= s < n && indices[s] == s ==> #[trigger] data[s] == d0[p[s] as int],
            forall|s: int| 0 <= s < n && indices[s] != s ==> #[trigger] data[s] == d0[s],
            forall|t: int| 0 <= t < n && indices[t] == t ==> indices[#[trigger] q[t]] == q[t],
            forall|s: int| 0 <= s < idx ==> #[trigger] indices[s] == s,
        decreases n - idx,
    {
        if indices[idx] != idx {
            let mut current_idx: usize = idx;
            loop
                invariant_except_break
                    current_idx < n,
                    indices[current_idx as int] != current_idx,
                    data[current_idx as int] == d0[idx as int],
                    forall|s: int|
                        0 <= s < n && indices[s] != s && s != current_idx ==> #[trigger] data[s]
                            == d0[s],
                    forall|t: int|
                        0 <= t < n && indices[t] == t && t != idx ==> indices[#[trigger] q[t]]
                            == q[t],
                    current_idx != idx ==> indices[idx as int] == idx && indices[q[current_idx as int]]
                        == q[current_idx as int],
                invariant
                    idx < n,
                    data.len() == n,
                    indices.len() == n,
                    p.len() == n,
                    d0.len() == n,
                    q.len() == n,
                    is_permutation(p),
                    forall|t: int| 0 <= t < n ==> 0 <= #[trigger] q[t] < n && p[q[t]] == t,
                    forall|s: int| 0 <= s < n ==> q[#[trigger] p[s] as int] == s,
                    forall|s: int| 0 <= s < n ==> #[trigger] indices[s] == s || indices[s] == p[s],
                    forall|s: int|
                        0 <= s < n && indices[s] == s ==> #[trigger] data[s] == d0[p[s] as int],
                    forall|s: int| 0 <= s < idx ==> #[trigger] indices[s] == s,
                ensures
                    forall|s: int| 0 <= s < n && indices[s] != s ==> #[trigger] data[s] == d0[s],
                    forall|t: int|
                        0 <= t < n && indices[t] == t ==> indices[#[trigger] q[t]] == q[t],
                    indices[idx as int] == idx,
                decreases unsettled(indices@).len(),
            {
                let ghost before = indices@;
                let target_idx: usize = indices[current_idx];
                indices.set(current_idx, current_idx);
                proof {
                    lemma_settling_shrinks(before, current_idx);
                    assert(indices@ == before.update(current_idx as int, current_idx));
                    assert(target_idx == p[current_idx as int]);
                    assert(q[target_idx as int] == current_idx);
                }
                if indices[target_idx] == target_idx {
                    proof {
                        assert(before[target_idx as int] == target_idx);
                        if target_idx != idx {
                            assert(before[q[target_idx as int]] == q[target_idx as int]);
                        }
                        assert(target_idx == idx);
                    }
                    break ;
                }
                swap_items(data, current_idx, target_idx);
                current_idx = target_idx;
            }
        }
        idx = idx + 1;
    }
    assert(data@ =~= permuted(d0, p));
}

} // verus!
