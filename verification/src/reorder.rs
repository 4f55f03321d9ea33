//! Sums over the indices of a batch, taken in another order.

use vstd::prelude::*;
use vstd::set_lib::{lemma_int_range, lemma_subset_equality, set_int_range};

verus! {

/// `order` lists the indices below its length, each of them once.
pub open spec fn is_reordering(order: Seq<int>) -> bool {
    &&& order.no_duplicates()
    &&& forall|i: int| 0 <= i < order.len() ==> 0 <= #[trigger] order[i] < order.len()
}

/// The sum of `f` over the indices below `n`.
pub open spec fn sum_over(n: int, f: spec_fn(int) -> nat) -> nat
    decreases n,
{
    if n <= 0 {
        0
    } else {
        sum_over(n - 1, f) + f(n - 1)
    }
}

/// A reordering lists every index.
pub proof fn lemma_reordering_lists_every_index(order: Seq<int>, index: int)
    requires
        is_reordering(order),
        0 <= index < order.len(),
    ensures
        exists|i: int| 0 <= i < order.len() && order[i] == index,
{
    let n = order.len() as int;
    let all = set_int_range(0, n);
    order.unique_seq_to_set();
    lemma_int_range(0, n);
    vstd::seq_lib::seq_to_set_is_finite(order);
    assert(order.to_set().subset_of(all)) by {
        assert forall|v: int| order.to_set().contains(v) implies all.contains(v) by {
            let i = choose|i: int| 0 <= i < order.len() && order[i] == v;
        }
    }
    lemma_subset_equality(order.to_set(), all);
    assert(all.contains(index));
    assert(order.to_set().contains(index));
    assert(order.contains(index));
}

/// The sum of `f` over those of the first `k` listed indices that are below `m`.
spec fn sum_of_listed(order: Seq<int>, f: spec_fn(int) -> nat, k: int, m: int) -> nat
    decreases k,
{
    if k <= 0 {
        0
    } else {
        sum_of_listed(order, f, k - 1, m) + if order[k - 1] < m {
            f(order[k - 1])
        } else {
            0
        }
    }
}

/// Raising the bound from `m` to `m + 1` adds `f(m)` where the index `m`,
/// listed at `at`, is among the first `k` listed.
proof fn lemma_sum_of_listed_step(order: Seq<int>, f: spec_fn(int) -> nat, k: int, m: int, at: int)
    requires
        is_reordering(order),
        0 <= k <= order.len(),
        0 <= at < order.len(),
        order[at] == m,
    ensures
        sum_of_listed(order, f, k, m + 1) == sum_of_listed(order, f, k, m) + if at < k {
            f(m)
        } else {
            0
        },
    decreases k,
{
    if k > 0 {
        lemma_sum_of_listed_step(order, f, k - 1, m, at);
    }
}

/// With the bound at zero the sum is zero; with the bound at the length it is the sum
/// over the first `k` listed indices.
proof fn lemma_sum_of_listed_ends(
    order: Seq<int>,
    f: spec_fn(int) -> nat,
    g: spec_fn(int) -> nat,
    k: int,
)
    requires
        is_reordering(order),
        0 <= k <= order.len(),
        forall|i: int| 0 <= i < order.len() ==> #[trigger] g(i) == f(order[i]),
    ensures
        sum_of_listed(order, f, k, 0) == 0,
        sum_of_listed(order, f, k, order.len() as int) == sum_over(k, g),
    decreases k,
{
    if k > 0 {
        lemma_sum_of_listed_ends(order, f, g, k - 1);
    }
}

/// The listed indices below `m` carry the sum of `f` below `m`.
proof fn lemma_sum_of_listed_below(order: Seq<int>, f: spec_fn(int) -> nat, m: int)
    requires
        is_reordering(order),
        0 <= m <= order.len(),
    ensures
        sum_of_listed(order, f, order.len() as int, m) == sum_over(m, f),
    decreases m,
{
    if m == 0 {
        lemma_sum_of_listed_ends(order, f, |i: int| f(order[i]), order.len() as int);
    } else {
        lemma_sum_of_listed_below(order, f, m - 1);
        lemma_reordering_lists_every_index(order, m - 1);
        let at = choose|i: int| 0 <= i < order.len() && order[i] == m - 1;
        lemma_sum_of_listed_step(order, f, order.len() as int, m - 1, at);
    }
}

/// A sum does not depend on the order in which the indices are taken:
/// where `g` takes them in the order listed, it has the sum of `f`.
pub proof fn lemma_sum_in_any_order(order: Seq<int>, f: spec_fn(int) -> nat, g: spec_fn(int) -> nat)
    requires
        is_reordering(order),
        forall|i: int| 0 <= i < order.len() ==> #[trigger] g(i) == f(order[i]),
    ensures
        sum_over(order.len() as int, g) == sum_over(order.len() as int, f),
{
    lemma_sum_of_listed_ends(order, f, g, order.len() as int);
    lemma_sum_of_listed_below(order, f, order.len() as int);
}

} // verus!
