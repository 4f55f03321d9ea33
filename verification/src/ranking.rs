//! Ranking a batch: the place of every hand in the ascending order of the
//! batch, the batch in that order, and the sum of every bid times its rank.
//!
//! Tied hands keep the order in which the batch holds them.

use crate::hand::{ScoredHand, Standing};
use crate::order::{
    is_weaker, lemma_below_then_not_below, lemma_not_above_then_below, lemma_weaker_asymmetric,
    lemma_weaker_irreflexive, lemma_weaker_transitive, tied, weaker,
};
use crate::reorder::{is_reordering, lemma_sum_in_any_order, sum_over};
use vstd::prelude::*;

verus! {

/// The plain values of a batch: each hand's standing with its bid.
pub open spec fn standings(batch: Seq<(ScoredHand, u32)>) -> Seq<(Standing, u32)> {
    batch.map_values(|entry: (ScoredHand, u32)| (entry.0@, entry.1))
}

/// Entry `j` of the batch comes before entry `i` in the ranking: its hand is
/// weaker, or the hands are tied and it stands earlier in the batch.
pub open spec fn placed_before(batch: Seq<(Standing, u32)>, j: int, i: int) -> bool {
    ||| weaker(batch[j].0, batch[i].0)
    ||| !weaker(batch[i].0, batch[j].0) && j < i
}

/// How many of the first `n` entries come before entry `i`.
pub open spec fn placed_before_count(batch: Seq<(Standing, u32)>, i: int, n: int) -> nat
    decreases n,
{
    if n <= 0 {
        0
    } else {
        placed_before_count(batch, i, n - 1) + if placed_before(batch, n - 1, i) {
            1nat
        } else {
            0nat
        }
    }
}

/// The place of entry `i` in the ranking, counted from zero: the number of
/// entries that come before it.
pub open spec fn position(batch: Seq<(Standing, u32)>, i: int) -> nat {
    placed_before_count(batch, i, batch.len() as int)
}

/// `ranked` holds the entries of `batch`, each at its place.
pub open spec fn is_ranking(batch: Seq<(Standing, u32)>, ranked: Seq<(Standing, u32)>) -> bool {
    &&& ranked.len() == batch.len()
    &&& forall|i: int| 0 <= i < batch.len() ==> ranked[#[trigger] position(batch, i) as int] == batch[i]
}

/// Coming before is a strict total order on the entries of a batch.
pub proof fn lemma_placed_before_is_total_order(batch: Seq<(Standing, u32)>, a: int, b: int, c: int)
    ensures
        !placed_before(batch, a, a),
        a != b ==> (placed_before(batch, a, b) <==> !placed_before(batch, b, a)),
        placed_before(batch, a, b) && placed_before(batch, b, c) ==> placed_before(batch, a, c),
{
    let x = batch[a].0;
    let y = batch[b].0;
    let z = batch[c].0;
    lemma_weaker_irreflexive(x);
    lemma_weaker_asymmetric(x, y);
    lemma_weaker_asymmetric(y, x);
    if placed_before(batch, a, b) && placed_before(batch, b, c) {
        if weaker(x, y) {
            if weaker(y, z) {
                lemma_weaker_transitive(x, y, z);
            } else {
                lemma_below_then_not_below(x, y, z);
            }
        } else {
            if weaker(y, z) {
                lemma_not_above_then_below(x, y, z);
            } else {
                if weaker(z, x) {
                    lemma_below_then_not_below(z, x, y);
                }
            }
        }
    }
}

/// An entry that comes before another has fewer entries before it among any
/// first `n`; strictly fewer where it is one of them.
pub proof fn lemma_count_grows_along_order(batch: Seq<(Standing, u32)>, a: int, b: int, n: int)
    requires
        placed_before(batch, a, b),
    ensures
        placed_before_count(batch, a, n) <= placed_before_count(batch, b, n),
        0 <= a < n ==> placed_before_count(batch, a, n) < placed_before_count(batch, b, n),
    decreases n,
{
    if n > 0 {
        lemma_count_grows_along_order(batch, a, b, n - 1);
        lemma_placed_before_is_total_order(batch, n - 1, a, b);
        lemma_placed_before_is_total_order(batch, a, a, b);
    }
}

/// Of the first `n` entries at most `n` come before an entry, and fewer
/// before one of themselves.
pub proof fn lemma_count_bounds(batch: Seq<(Standing, u32)>, i: int, n: int)
    requires
        0 <= n,
    ensures
        placed_before_count(batch, i, n) <= n,
        0 <= i < n ==> placed_before_count(batch, i, n) < n,
    decreases n,
{
    if n > 0 {
        lemma_count_bounds(batch, i, n - 1);
        lemma_placed_before_is_total_order(batch, i, i, i);
    }
}

/// For each place among the first `n` entries ranked by themselves, the
/// index in the batch of the entry that takes it.
pub open spec fn sources(batch: Seq<(Standing, u32)>, n: int) -> Seq<int>
    decreases n,
{
    if n <= 0 {
        Seq::empty()
    } else {
        sources(batch, n - 1).insert(placed_before_count(batch, n - 1, n - 1) as int, n - 1)
    }
}

/// Places and sources among the first `n` entries are inverse to each other.
pub open spec fn sources_match(batch: Seq<(Standing, u32)>, n: int) -> bool {
    let src = sources(batch, n);
    &&& src.len() == n
    &&& forall|k: int| 0 <= k < n ==> 0 <= #[trigger] src[k] < n
    &&& forall|k: int| 0 <= k < n ==> placed_before_count(batch, #[trigger] src[k], n) == k
    &&& forall|i: int| 0 <= i < n ==> src[#[trigger] placed_before_count(batch, i, n) as int] == i
}

/// Where a further entry goes among the first `n`: the earlier entries that
/// come before it keep their places, the others move up by one.
proof fn lemma_place_after_insertion(batch: Seq<(Standing, u32)>, i: int, n: int)
    requires
        0 <= i < n,
    ensures
        placed_before(batch, i, n) ==> placed_before_count(batch, i, n) < placed_before_count(
            batch,
            n,
            n,
        ) && placed_before_count(batch, i, n + 1) == placed_before_count(batch, i, n),
        !placed_before(batch, i, n) ==> placed_before_count(batch, i, n) >= placed_before_count(
            batch,
            n,
            n,
        ) && placed_before_count(batch, i, n + 1) == placed_before_count(batch, i, n) + 1,
{
    lemma_placed_before_is_total_order(batch, i, n, i);
    if placed_before(batch, i, n) {
        lemma_count_grows_along_order(batch, i, n, n);
    } else {
        lemma_count_grows_along_order(batch, n, i, n);
    }
}

/// Every place among the first `n` entries is taken by exactly one of them.
pub proof fn lemma_sources_match(batch: Seq<(Standing, u32)>, n: int)
    requires
        0 <= n,
    ensures
        sources_match(batch, n),
    decreases n,
{
    if n > 0 {
        let m = n - 1;
        lemma_sources_match(batch, m);
        let old_src = sources(batch, m);
        let p = placed_before_count(batch, m, m) as int;
        lemma_count_bounds(batch, m, m);
        let src = sources(batch, n);
        assert(src == old_src.insert(p, m));
        lemma_placed_before_is_total_order(batch, m, m, m);
        assert(placed_before_count(batch, m, n) == p);
        assert forall|i: int| 0 <= i < n implies src[#[trigger] placed_before_count(batch, i, n) as int]
            == i by {
            if i < m {
                lemma_place_after_insertion(batch, i, m);
                lemma_count_bounds(batch, i, m);
                assert(old_src[placed_before_count(batch, i, m) as int] == i);
            }
        }
        assert forall|k: int| 0 <= k < n implies 0 <= #[trigger] src[k] < n && placed_before_count(
            batch,
            src[k],
            n,
        ) == k by {
            if k < p {
                let i = old_src[k];
                assert(placed_before_count(batch, i, m) == k);
                lemma_place_after_insertion(batch, i, m);
            } else if k > p {
                let i = old_src[k - 1];
                assert(placed_before_count(batch, i, m) == k - 1);
                lemma_place_after_insertion(batch, i, m);
            }
        }
    }
}

/// The first `n` entries of the batch, ranked by themselves.
pub open spec fn ranking_among(batch: Seq<(Standing, u32)>, n: int) -> Seq<(Standing, u32)> {
    Seq::new(n as nat, |k: int| batch[sources(batch, n)[k]])
}

/// The batch in ascending order, tied hands in the order of the batch.
pub open spec fn ranking_of(batch: Seq<(Standing, u32)>) -> Seq<(Standing, u32)> {
    ranking_among(batch, batch.len() as int)
}

/// A batch has exactly one ranking.
pub proof fn lemma_ranking_unique(batch: Seq<(Standing, u32)>, ranked: Seq<(Standing, u32)>)
    ensures
        is_ranking(batch, ranked) <==> ranked == ranking_of(batch),
{
    let n = batch.len() as int;
    let src = sources(batch, n);
    lemma_sources_match(batch, n);
    if is_ranking(batch, ranked) {
        assert forall|k: int| 0 <= k < n implies ranked[k] == ranking_of(batch)[k] by {
            assert(position(batch, src[k]) == k);
        }
        assert(ranked =~= ranking_of(batch));
    }
    assert forall|i: int| 0 <= i < n implies ranking_of(batch)[#[trigger] position(batch, i) as int]
        == batch[i] by {
        lemma_count_bounds(batch, i, n);
        assert(src[placed_before_count(batch, i, n) as int] == i);
    }
}

/// In a ranking no hand is weaker than a hand before it.
pub proof fn lemma_ranking_ascends(
    batch: Seq<(Standing, u32)>,
    ranked: Seq<(Standing, u32)>,
    lower: int,
    upper: int,
)
    requires
        is_ranking(batch, ranked),
        0 <= lower <= upper < ranked.len(),
    ensures
        !weaker(ranked[upper].0, ranked[lower].0),
{
    let n = batch.len() as int;
    let src = sources(batch, n);
    lemma_sources_match(batch, n);
    lemma_ranking_unique(batch, ranked);
    if weaker(ranked[upper].0, ranked[lower].0) {
        assert(placed_before(batch, src[upper], src[lower]));
        lemma_count_grows_along_order(batch, src[upper], src[lower], n);
    }
}

/// In a ranking tied hands stand in the order in which the batch holds them.
pub proof fn lemma_ranking_keeps_ties_in_order(batch: Seq<(Standing, u32)>, i: int, j: int)
    requires
        0 <= i < j < batch.len(),
        !weaker(batch[j].0, batch[i].0),
    ensures
        position(batch, i) < position(batch, j),
{
    lemma_count_grows_along_order(batch, i, j, batch.len() as int);
}

/// A ranking holds the entries of the batch, each as often as the batch does.
pub proof fn lemma_ranking_permutes(batch: Seq<(Standing, u32)>, ranked: Seq<(Standing, u32)>)
    requires
        is_ranking(batch, ranked),
    ensures
        ranked.to_multiset() == batch.to_multiset(),
{
    lemma_ranking_unique(batch, ranked);
    lemma_ranking_among_permutes(batch, batch.len() as int);
    assert(batch.take(batch.len() as int) =~= batch);
}

/// The first `n` entries ranked by themselves are those entries.
proof fn lemma_ranking_among_permutes(batch: Seq<(Standing, u32)>, n: int)
    requires
        0 <= n <= batch.len(),
    ensures
        ranking_among(batch, n).to_multiset() == batch.take(n).to_multiset(),
    decreases n,
{
    if n == 0 {
        assert(ranking_among(batch, n) =~= batch.take(n));
    } else {
        let m = n - 1;
        lemma_ranking_among_permutes(batch, m);
        lemma_sources_match(batch, m);
        lemma_sources_match(batch, n);
        lemma_count_bounds(batch, m, m);
        let p = placed_before_count(batch, m, m) as int;
        assert(ranking_among(batch, n) =~= ranking_among(batch, m).insert(p, batch[m]));
        vstd::seq_lib::to_multiset_insert(ranking_among(batch, m), p, batch[m]);
        assert(batch.take(n) =~= batch.take(m).push(batch[m]));
        vstd::seq_lib::to_multiset_build(batch.take(m), batch[m]);
    }
}

/// In a sequence that ascends, the entries before an entry are those that stand before it.
proof fn lemma_count_in_ascending(ranked: Seq<(Standing, u32)>, k: int, n: int)
    requires
        0 <= k < ranked.len(),
        0 <= n <= ranked.len(),
        forall|lower: int, upper: int|
            0 <= lower <= upper < ranked.len() ==> !weaker(
                #[trigger] ranked[upper].0,
                #[trigger] ranked[lower].0,
            ),
    ensures
        placed_before_count(ranked, k, n) == if n <= k {
            n
        } else {
            k
        },
    decreases n,
{
    if n > 0 {
        lemma_count_in_ascending(ranked, k, n - 1);
        let j = n - 1;
        if j < k {
            assert(!weaker(ranked[k].0, ranked[j].0));
        } else if j > k {
            assert(!weaker(ranked[j].0, ranked[k].0));
        } else {
            lemma_weaker_irreflexive(ranked[k].0);
        }
    }
}

/// Ranking a ranking changes nothing.
pub proof fn lemma_ranking_is_idempotent(
    batch: Seq<(Standing, u32)>,
    ranked: Seq<(Standing, u32)>,
    again: Seq<(Standing, u32)>,
)
    requires
        is_ranking(batch, ranked),
        is_ranking(ranked, again),
    ensures
        again == ranked,
{
    assert forall|lower: int, upper: int| 0 <= lower <= upper < ranked.len() implies !weaker(
        #[trigger] ranked[upper].0,
        #[trigger] ranked[lower].0,
    ) by {
        lemma_ranking_ascends(batch, ranked, lower, upper);
    }
    assert forall|k: int| 0 <= k < ranked.len() implies again[k] == ranked[k] by {
        lemma_count_in_ascending(ranked, k, ranked.len() as int);
        assert(position(ranked, k) == k);
    }
    assert(again =~= ranked);
}

/// What entry `i` of the batch wins: its bid times its rank, the weakest
/// hand having rank one.
pub open spec fn winning(batch: Seq<(Standing, u32)>, i: int) -> nat {
    batch[i].1 as nat * (position(batch, i) + 1)
}

/// What the first `n` entries of the batch win, each ranked in the whole batch.
pub open spec fn winnings_among(batch: Seq<(Standing, u32)>, n: int) -> nat
    decreases n,
{
    if n <= 0 {
        0
    } else {
        winnings_among(batch, n - 1) + winning(batch, n - 1)
    }
}

/// The total winnings of a batch: the sum over its entries of bid times rank.
pub open spec fn winnings(batch: Seq<(Standing, u32)>) -> nat {
    winnings_among(batch, batch.len() as int)
}

/// The sum over the first `n` entries of a ranked sequence of bid times place.
pub open spec fn weighted_sum(ranked: Seq<(Standing, u32)>, n: int) -> nat
    decreases n,
{
    if n <= 0 {
        0
    } else {
        weighted_sum(ranked, n - 1) + ranked[n - 1].1 as nat * n as nat
    }
}

/// The entries of a batch, taken in the order listed.
pub open spec fn reordered(batch: Seq<(Standing, u32)>, order: Seq<int>) -> Seq<(Standing, u32)> {
    Seq::new(batch.len(), |i: int| batch[order[i]])
}

/// No two entries of the batch hold tied hands.
pub open spec fn has_no_ties(batch: Seq<(Standing, u32)>) -> bool {
    forall|i: int, j: int|
        0 <= i < j < batch.len() ==> !tied(#[trigger] batch[i].0, #[trigger] batch[j].0)
}

/// For each entry, one if it comes before entry `i`, zero otherwise.
spec fn comes_before(batch: Seq<(Standing, u32)>, i: int) -> spec_fn(int) -> nat {
    |j: int|
        if placed_before(batch, j, i) {
            1nat
        } else {
            0nat
        }
}

/// For each entry, what it wins.
spec fn wins(batch: Seq<(Standing, u32)>) -> spec_fn(int) -> nat {
    |i: int| winning(batch, i)
}

/// The number of entries before an entry, as a sum.
proof fn lemma_count_is_a_sum(batch: Seq<(Standing, u32)>, i: int, n: int)
    ensures
        placed_before_count(batch, i, n) == sum_over(n, comes_before(batch, i)),
    decreases n,
{
    if n > 0 {
        lemma_count_is_a_sum(batch, i, n - 1);
    }
}

/// The winnings of the first entries, as a sum.
proof fn lemma_winnings_are_a_sum(batch: Seq<(Standing, u32)>, n: int)
    ensures
        winnings_among(batch, n) == sum_over(n, wins(batch)),
    decreases n,
{
    if n > 0 {
        lemma_winnings_are_a_sum(batch, n - 1);
    }
}

/// For each place of a ranked sequence, the bid it holds times its rank.
spec fn weights(ranked: Seq<(Standing, u32)>) -> spec_fn(int) -> nat {
    |k: int| ranked[k].1 as nat * (k + 1) as nat
}

/// The weighted sum, as a sum.
proof fn lemma_weighted_sum_is_a_sum(ranked: Seq<(Standing, u32)>, n: int)
    ensures
        weighted_sum(ranked, n) == sum_over(n, weights(ranked)),
    decreases n,
{
    if n > 0 {
        lemma_weighted_sum_is_a_sum(ranked, n - 1);
    }
}

/// The winnings of a batch are the sum over its ranking of bid times place.
pub proof fn lemma_winnings_by_rank(batch: Seq<(Standing, u32)>, ranked: Seq<(Standing, u32)>)
    requires
        is_ranking(batch, ranked),
    ensures
        winnings(batch) == weighted_sum(ranked, ranked.len() as int),
{
    let n = batch.len() as int;
    let src = sources(batch, n);
    lemma_ranking_unique(batch, ranked);
    lemma_sources_match(batch, n);
    lemma_winnings_are_a_sum(batch, n);
    lemma_weighted_sum_is_a_sum(ranked, n);
    assert(is_reordering(src)) by {
        assert forall|k: int, l: int| 0 <= k < n && 0 <= l < n && k != l implies src[k] != src[l] by {
            assert(placed_before_count(batch, src[k], n) == k);
            assert(placed_before_count(batch, src[l], n) == l);
        }
    }
    assert forall|k: int| 0 <= k < n implies #[trigger] weights(ranked)(k) == wins(batch)(src[k]) by {
        assert(placed_before_count(batch, src[k], n) == k);
    }
    lemma_sum_in_any_order(src, wins(batch), weights(ranked));
}

/// In a batch without ties the place of an entry does not depend on the
/// order of the batch.
pub proof fn lemma_place_ignores_batch_order(batch: Seq<(Standing, u32)>, order: Seq<int>, i: int)
    requires
        is_reordering(order),
        order.len() == batch.len(),
        has_no_ties(batch),
        0 <= i < batch.len(),
    ensures
        position(reordered(batch, order), i) == position(batch, order[i]),
{
    let other = reordered(batch, order);
    let n = batch.len() as int;
    lemma_count_is_a_sum(other, i, n);
    lemma_count_is_a_sum(batch, order[i], n);
    let f = comes_before(batch, order[i]);
    let g = comes_before(other, i);
    assert forall|j: int| 0 <= j < n implies #[trigger] g(j) == f(order[j]) by {
        let x = batch[order[j]].0;
        let y = batch[order[i]].0;
        lemma_weaker_irreflexive(x);
        lemma_weaker_asymmetric(x, y);
        if j != i {
            if order[j] < order[i] {
                assert(!tied(batch[order[j]].0, batch[order[i]].0));
            } else {
                assert(!tied(batch[order[i]].0, batch[order[j]].0));
            }
        }
    }
    lemma_sum_in_any_order(order, f, g);
}

/// In a batch without ties the total winnings do not depend on the order of
/// the batch.
pub proof fn lemma_winnings_ignore_batch_order(batch: Seq<(Standing, u32)>, order: Seq<int>)
    requires
        is_reordering(order),
        order.len() == batch.len(),
        has_no_ties(batch),
    ensures
        winnings(reordered(batch, order)) == winnings(batch),
{
    let other = reordered(batch, order);
    let n = batch.len() as int;
    lemma_winnings_are_a_sum(other, n);
    lemma_winnings_are_a_sum(batch, n);
    assert forall|i: int| 0 <= i < n implies #[trigger] wins(other)(i) == wins(batch)(order[i]) by {
        lemma_place_ignores_batch_order(batch, order, i);
    }
    lemma_sum_in_any_order(order, wins(batch), wins(other));
}

/// A weighted sum over more places is no smaller.
proof fn lemma_weighted_sum_grows(ranked: Seq<(Standing, u32)>, fewer: int, more: int)
    requires
        fewer <= more,
    ensures
        weighted_sum(ranked, fewer) <= weighted_sum(ranked, more),
    decreases more - fewer,
{
    if fewer < more {
        lemma_weighted_sum_grows(ranked, fewer, more - 1);
    }
}

/// Ranks a batch: weakest hand first, tied hands in the order of the batch.
/// The batch is ranked by insertion from the end: a batch that ascends
/// already takes one comparison for each entry, any other at most a number
/// quadratic in its length.
pub fn rank_hands(batch: &Vec<(ScoredHand, u32)>) -> (ranked: Vec<(ScoredHand, u32)>)
    ensures
        is_ranking(standings(batch@), standings(ranked@)),
        forall|k: int|
            0 <= k < batch@.len() ==> ranked@[k] == batch@[#[trigger] sources(
                standings(batch@),
                batch@.len() as int,
            )[k]],
{
    let ghost b = standings(batch@);
    let n = batch.len();
    let mut ranked: Vec<(ScoredHand, u32)> = Vec::new();
    let mut m: usize = 0;
    while m < n
        invariant
            b == standings(batch@),
            n == batch@.len(),
            m <= n,
            ranked@.len() == m,
            sources_match(b, m as int),
            forall|k: int| 0 <= k < m ==> ranked@[k] == batch@[#[trigger] sources(b, m as int)[k]],
        decreases n - m,
    {
        let entry = batch[m];
        let ghost src = sources(b, m as int);
        let ghost place = placed_before_count(b, m as int, m as int) as int;
        let mut k: usize = m;
        proof {
            lemma_count_bounds(b, m as int, m as int);
        }
        while k > 0 && is_weaker(&entry.0, &ranked[k - 1].0)
            invariant
                b == standings(batch@),
                n == batch@.len(),
                m < n,
                k <= m,
                ranked@.len() == m,
                entry == batch@[m as int],
                src == sources(b, m as int),
                sources_match(b, m as int),
                forall|j: int| 0 <= j < m ==> ranked@[j] == batch@[#[trigger] src[j]],
                place == placed_before_count(b, m as int, m as int),
                place <= k,
            decreases k,
        {
            proof {
                let i = src[k - 1];
                assert(ranked@[k - 1] == batch@[i]);
                assert(b[i].0 == ranked@[k - 1].0@);
                assert(b[m as int].0 == entry.0@);
                lemma_place_after_insertion(b, i, m as int);
                lemma_weaker_asymmetric(b[m as int].0, b[i].0);
            }
            k -= 1;
        }
        proof {
            if k > 0 {
                let i = src[k - 1];
                assert(ranked@[k - 1] == batch@[i]);
                assert(b[i].0 == ranked@[k - 1].0@);
                assert(b[m as int].0 == entry.0@);
                lemma_place_after_insertion(b, i, m as int);
            }
            assert(k == place);
            lemma_sources_match(b, m + 1);
            assert(sources(b, m + 1) == src.insert(place, m as int));
        }
        ranked.insert(k, entry);
        m += 1;
    }
    proof {
        assert forall|i: int| 0 <= i < b.len() implies standings(ranked@)[#[trigger] position(b, i) as int]
            == b[i] by {
            let k = placed_before_count(b, i, n as int) as int;
            lemma_count_bounds(b, i, n as int);
            assert(sources(b, n as int)[k] == i);
        }
    }
    ranked
}

/// The total winnings of a batch: the batch is ranked, and every bid is
/// multiplied by the rank of its hand, the weakest hand having rank one.
/// `None` where the total does not fit 64 bits.
pub fn total_winnings(batch: &Vec<(ScoredHand, u32)>) -> (total: Option<u64>)
    ensures
        match total {
            Some(sum) => sum == winnings(standings(batch@)),
            None => winnings(standings(batch@)) > u64::MAX,
        },
{
    let ranked = rank_hands(batch);
    let ghost r = standings(ranked@);
    let n = ranked.len();
    let mut sum: u64 = 0;
    let mut k: usize = 0;
    proof {
        lemma_winnings_by_rank(standings(batch@), r);
    }
    while k < n
        invariant
            k <= n,
            n == ranked@.len(),
            r == standings(ranked@),
            winnings(standings(batch@)) == weighted_sum(r, n as int),
            sum == weighted_sum(r, k as int),
        decreases n - k,
    {
        let bid: u128 = ranked[k].1 as u128;
        let rank: u128 = k as u128 + 1;
        assert(bid * rank <= 0xffff_ffff * 0x1_0000_0000_0000_0000) by (nonlinear_arith)
            requires
                bid <= 0xffff_ffff,
                rank <= 0x1_0000_0000_0000_0000,
        ;
        let prize: u128 = bid * rank;
        let wide: u128 = sum as u128 + prize;
        assert(wide == weighted_sum(r, k + 1)) by {
            assert(r[k as int].1 == ranked@[k as int].1);
        }
        if wide > u64::MAX as u128 {
            proof {
                lemma_weighted_sum_grows(r, k + 1, n as int);
            }
            return None;
        }
        sum = wide as u64;
        k += 1;
    }
    Some(sum)
}

} // verus!
