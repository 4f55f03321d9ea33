//! Wildcard resolution: the strongest category that a hand can reach when
//! each of its wildcards stands in for a rank of its own choosing.

use crate::category::{
    category_of, classify, equal_pairs, hit, lemma_count_five, lemma_more_pairs_not_weaker,
    lemma_pairs_decide_category, lemma_pairs_five, lemma_strength_decides_category, pair_sum,
    Category,
};
use crate::hand::Hand;
use crate::rank::{is_rank, Rules, WILDCARD};
use vstd::prelude::*;

verus! {

/// `resolved` is `hand` with each wildcard replaced by some rank, the other
/// cards left as they are. Any byte may stand in, a rank of neither alphabet
/// too, and a wildcard may stay a wildcard.
pub open spec fn is_resolution(hand: Seq<u8>, resolved: Seq<u8>) -> bool {
    &&& resolved.len() == hand.len()
    &&& forall|i: int| 0 <= i < hand.len() && hand[i] != WILDCARD ==> #[trigger] resolved[i] == hand[i]
}

/// `best` is the category of some resolution of `hand`, and no resolution
/// has a stronger one.
pub open spec fn is_best_category(hand: Seq<u8>, best: Category) -> bool {
    &&& exists|t: Seq<u8>| #[trigger] is_resolution(hand, t) && category_of(t.to_multiset()) == best
    &&& forall|t: Seq<u8>| #[trigger]
        is_resolution(hand, t) ==> category_of(t.to_multiset()).strength() <= best.strength()
}

/// The strongest category among the resolutions of `hand`.
pub open spec fn resolved_category(hand: Seq<u8>) -> Category {
    choose|best: Category| is_best_category(hand, best)
}

/// `hand` with every wildcard replaced by `rank`.
pub open spec fn substituted(hand: Seq<u8>, rank: u8) -> Seq<u8> {
    Seq::new(
        hand.len(),
        |i: int|
            if hand[i] == WILDCARD {
                rank
            } else {
                hand[i]
            },
    )
}

/// One if the card is no wildcard and has rank `r`, zero otherwise.
pub open spec fn natural_hit(card: u8, r: u8) -> nat {
    if card != WILDCARD && card == r {
        1
    } else {
        0
    }
}

/// Number of the cards of a five-card hand that have rank `r` without being wildcards.
pub open spec fn natural_count(hand: Seq<u8>, r: u8) -> nat {
    natural_hit(hand[0], r) + natural_hit(hand[1], r) + natural_hit(hand[2], r) + natural_hit(
        hand[3],
        r,
    ) + natural_hit(hand[4], r)
}

/// Position among the first `n` cards of a card that is no wildcard and whose
/// rank no other such card outnumbers; -1 where the first `n` cards are all wildcards.
pub open spec fn most_frequent(hand: Seq<u8>, n: int) -> int
    decreases n,
{
    if n <= 0 {
        -1
    } else {
        let earlier = most_frequent(hand, n - 1);
        if hand[n - 1] == WILDCARD {
            earlier
        } else if earlier < 0 || natural_count(hand, hand[earlier]) < natural_count(
            hand,
            hand[n - 1],
        ) {
            n - 1
        } else {
            earlier
        }
    }
}

/// The resolution that gives every wildcard the most frequent rank of the
/// other cards; the hand itself where it holds nothing but wildcards.
pub open spec fn strongest_resolution(hand: Seq<u8>) -> Seq<u8> {
    let k = most_frequent(hand, 5);
    if k < 0 {
        hand
    } else {
        substituted(hand, hand[k])
    }
}

/// Giving every wildcard one rank is a resolution.
pub proof fn lemma_substituted_is_resolution(hand: Seq<u8>, rank: u8)
    ensures
        is_resolution(hand, substituted(hand, rank)),
        hand.len() == 5 ==> substituted(hand, rank).len() == 5,
{
}

/// What `most_frequent` finds.
proof fn lemma_most_frequent(hand: Seq<u8>, n: int)
    requires
        0 <= n <= 5,
        hand.len() == 5,
    ensures
        -1 <= most_frequent(hand, n) < n,
        most_frequent(hand, n) < 0 ==> forall|j: int| 0 <= j < n ==> hand[j] == WILDCARD,
        most_frequent(hand, n) >= 0 ==> hand[most_frequent(hand, n)] != WILDCARD,
        most_frequent(hand, n) >= 0 ==> forall|j: int|
            0 <= j < n && hand[j] != WILDCARD ==> natural_count(hand, #[trigger] hand[j])
                <= natural_count(hand, hand[most_frequent(hand, n)]),
    decreases n,
{
    if n > 0 {
        lemma_most_frequent(hand, n - 1);
    }
}

/// What replacing the wildcard `hi` by `r` instead of `ti` gains against the card `hj`.
#[verifier::opaque]
spec fn gain(hi: u8, hj: u8, ti: u8, r: u8) -> int {
    if hi == WILDCARD {
        natural_hit(hj, r) - natural_hit(hj, ti)
    } else {
        0
    }
}

/// `ti` stands where `hi` stood: the same card, or anything where `hi` is a wildcard.
spec fn stands_for(hi: u8, ti: u8) -> bool {
    hi != WILDCARD ==> ti == hi
}

/// The card `h` with a wildcard replaced by `r`.
spec fn filled(h: u8, r: u8) -> u8 {
    if h == WILDCARD {
        r
    } else {
        h
    }
}

/// How much more often the pair of cards `hi`, `hj` is equal after the
/// uniform replacement by `r` than as the pair `ti`, `tj`.
#[verifier::opaque]
spec fn pair_lead(hi: u8, hj: u8, ti: u8, tj: u8, r: u8) -> int {
    hit(filled(hi, r), filled(hj, r)) - hit(ti, tj)
}

/// A pair of cards is equal after the uniform replacement at least as often
/// as after any other, up to what each of the two gains against the other.
proof fn lemma_pair_gain(hi: u8, hj: u8, ti: u8, tj: u8, r: u8)
    requires
        stands_for(hi, ti),
        stands_for(hj, tj),
        r != WILDCARD,
    ensures
        pair_lead(hi, hj, ti, tj, r) >= gain(hi, hj, ti, r) + gain(hj, hi, tj, r),
{
    reveal(gain);
    reveal(pair_lead);
}

/// What the wildcard `hi`, replaced by `r` instead of `ti`, gains against the five cards.
spec fn row_gain(h: Seq<u8>, hi: u8, ti: u8, r: u8) -> int {
    gain(hi, h[0], ti, r) + gain(hi, h[1], ti, r) + gain(hi, h[2], ti, r) + gain(hi, h[3], ti, r)
        + gain(hi, h[4], ti, r)
}

/// A wildcard gains nothing against itself.
proof fn lemma_no_gain_against_itself(hi: u8, ti: u8, r: u8)
    ensures
        gain(hi, hi, ti, r) == 0,
{
    reveal(gain);
}

/// What one wildcard gains against all five cards is the lead of `r` over `ti`
/// among the cards that are no wildcards.
proof fn lemma_row_gain(h: Seq<u8>, hi: u8, ti: u8, r: u8)
    requires
        h.len() == 5,
    ensures
        row_gain(h, hi, ti, r) == if hi == WILDCARD {
            natural_count(h, r) - natural_count(h, ti)
        } else {
            0
        },
{
    reveal(gain);
}

/// The lead of the uniform replacement over the ten pairs of cards.
spec fn lead_sum(h: Seq<u8>, t: Seq<u8>, r: u8) -> int {
    pair_lead(h[0], h[1], t[0], t[1], r) + pair_lead(h[0], h[2], t[0], t[2], r) + pair_lead(
        h[1],
        h[2],
        t[1],
        t[2],
        r,
    ) + pair_lead(h[0], h[3], t[0], t[3], r) + pair_lead(h[1], h[3], t[1], t[3], r) + pair_lead(
        h[2],
        h[3],
        t[2],
        t[3],
        r,
    ) + pair_lead(h[0], h[4], t[0], t[4], r) + pair_lead(h[1], h[4], t[1], t[4], r) + pair_lead(
        h[2],
        h[4],
        t[2],
        t[4],
        r,
    ) + pair_lead(h[3], h[4], t[3], t[4], r)
}

/// The lead over the ten pairs is the difference of the numbers of equal pairs.
proof fn lemma_lead_sum_is_difference(h: Seq<u8>, t: Seq<u8>, r: u8)
    ensures
        lead_sum(h, t, r) == pair_sum(
            filled(h[0], r),
            filled(h[1], r),
            filled(h[2], r),
            filled(h[3], r),
            filled(h[4], r),
        ) - pair_sum(t[0], t[1], t[2], t[3], t[4]),
{
    reveal(pair_lead);
}

/// The lead over the ten pairs is what the five cards gain, each against
/// the others, and so not negative where no wildcard loses.
proof fn lemma_lead_sum_not_negative(h: Seq<u8>, t: Seq<u8>, r: u8)
    requires
        h.len() == 5,
        t.len() == 5,
        r != WILDCARD,
        forall|i: int| 0 <= i < 5 ==> stands_for(#[trigger] h[i], t[i]),
        forall|i: int| 0 <= i < 5 ==> row_gain(h, #[trigger] h[i], t[i], r) >= 0,
    ensures
        lead_sum(h, t, r) >= 0,
{
    assert(stands_for(h[0], t[0]) && stands_for(h[1], t[1]) && stands_for(h[2], t[2])
        && stands_for(h[3], t[3]) && stands_for(h[4], t[4]));
    lemma_pair_gain(h[0], h[1], t[0], t[1], r);
    lemma_pair_gain(h[0], h[2], t[0], t[2], r);
    lemma_pair_gain(h[1], h[2], t[1], t[2], r);
    lemma_pair_gain(h[0], h[3], t[0], t[3], r);
    lemma_pair_gain(h[1], h[3], t[1], t[3], r);
    lemma_pair_gain(h[2], h[3], t[2], t[3], r);
    lemma_pair_gain(h[0], h[4], t[0], t[4], r);
    lemma_pair_gain(h[1], h[4], t[1], t[4], r);
    lemma_pair_gain(h[2], h[4], t[2], t[4], r);
    lemma_pair_gain(h[3], h[4], t[3], t[4], r);
    lemma_no_gain_against_itself(h[0], t[0], r);
    lemma_no_gain_against_itself(h[1], t[1], r);
    lemma_no_gain_against_itself(h[2], t[2], r);
    lemma_no_gain_against_itself(h[3], t[3], r);
    lemma_no_gain_against_itself(h[4], t[4], r);
    let rows = row_gain(h, h[0], t[0], r) + row_gain(h, h[1], t[1], r) + row_gain(
        h,
        h[2],
        t[2],
        r,
    ) + row_gain(h, h[3], t[3], r) + row_gain(h, h[4], t[4], r);
    assert(row_gain(h, h[0], t[0], r) >= 0);
    assert(row_gain(h, h[1], t[1], r) >= 0);
    assert(row_gain(h, h[2], t[2], r) >= 0);
    assert(row_gain(h, h[3], t[3], r) >= 0);
    assert(row_gain(h, h[4], t[4], r) >= 0);
    assert(rows >= 0);
    assert(lead_sum(h, t, r) >= rows);
}

/// The uniform replacement of the five cards has no fewer equal pairs than
/// any other, where no wildcard loses against the five cards.
proof fn lemma_pairs_by_gain(h: Seq<u8>, t: Seq<u8>, r: u8)
    requires
        h.len() == 5,
        t.len() == 5,
        r != WILDCARD,
        forall|i: int| 0 <= i < 5 ==> stands_for(#[trigger] h[i], t[i]),
        forall|i: int| 0 <= i < 5 ==> row_gain(h, #[trigger] h[i], t[i], r) >= 0,
    ensures
        pair_sum(t[0], t[1], t[2], t[3], t[4]) <= pair_sum(
            filled(h[0], r),
            filled(h[1], r),
            filled(h[2], r),
            filled(h[3], r),
            filled(h[4], r),
        ),
{
    lemma_lead_sum_is_difference(h, t, r);
    lemma_lead_sum_not_negative(h, t, r);
}

/// No resolution has more equal pairs than the one that gives every wildcard
/// a rank which no rank outnumbers among the other cards.
proof fn lemma_uniform_has_most_pairs(h: Seq<u8>, t: Seq<u8>, r: u8)
    requires
        h.len() == 5,
        is_resolution(h, t),
        r != WILDCARD,
        forall|v: u8| #[trigger] natural_count(h, v) <= natural_count(h, r),
    ensures
        equal_pairs(t) <= equal_pairs(substituted(h, r)),
{
    let u = substituted(h, r);
    lemma_pairs_five(t);
    lemma_pairs_five(u);
    assert forall|i: int| 0 <= i < 5 implies stands_for(#[trigger] h[i], t[i]) by {
        assert(h[i] != WILDCARD ==> t[i] == h[i]);
    }
    assert forall|i: int| 0 <= i < 5 implies row_gain(h, #[trigger] h[i], t[i], r) >= 0 by {
        lemma_row_gain(h, h[i], t[i], r);
        assert(natural_count(h, t[i]) <= natural_count(h, r));
    }
    lemma_pairs_by_gain(h, t, r);
    assert(u[0] == filled(h[0], r));
    assert(u[1] == filled(h[1], r));
    assert(u[2] == filled(h[2], r));
    assert(u[3] == filled(h[3], r));
    assert(u[4] == filled(h[4], r));
}

/// A rank that no card of the hand has, or the wildcard rank, counts for nothing.
proof fn lemma_natural_count_of_card(h: Seq<u8>, v: u8)
    requires
        h.len() == 5,
    ensures
        natural_count(h, v) > 0 ==> exists|j: int| 0 <= j < 5 && h[j] != WILDCARD && h[j] == v,
{
    if natural_count(h, v) > 0 {
        if natural_hit(h[0], v) > 0 {
            assert(h[0] != WILDCARD && h[0] == v);
        } else if natural_hit(h[1], v) > 0 {
            assert(h[1] != WILDCARD && h[1] == v);
        } else if natural_hit(h[2], v) > 0 {
            assert(h[2] != WILDCARD && h[2] == v);
        } else if natural_hit(h[3], v) > 0 {
            assert(h[3] != WILDCARD && h[3] == v);
        } else {
            assert(h[4] != WILDCARD && h[4] == v);
        }
    }
}

/// Five wildcards are five of a kind.
proof fn lemma_five_alike(h: Seq<u8>)
    requires
        h.len() == 5,
        forall|i: int| 0 <= i < 5 ==> h[i] == WILDCARD,
    ensures
        category_of(h.to_multiset()) == Category::FiveOfAKind,
{
    lemma_count_five(h, h[0]);
    assert(h.to_multiset().count(h[0]) == 5);
}

/// No resolution of a hand is stronger than its strongest resolution.
pub proof fn lemma_strongest_resolution_dominates(hand: Seq<u8>, t: Seq<u8>)
    requires
        hand.len() == 5,
        is_resolution(hand, t),
    ensures
        is_resolution(hand, strongest_resolution(hand)),
        category_of(t.to_multiset()).strength() <= category_of(
            strongest_resolution(hand).to_multiset(),
        ).strength(),
{
    let k = most_frequent(hand, 5);
    lemma_most_frequent(hand, 5);
    lemma_strength_decides_category(category_of(t.to_multiset()), Category::FiveOfAKind);
    if k < 0 {
        lemma_five_alike(hand);
    } else {
        let r = hand[k];
        let u = substituted(hand, r);
        assert forall|v: u8| #[trigger] natural_count(hand, v) <= natural_count(hand, r) by {
            lemma_natural_count_of_card(hand, v);
            if natural_count(hand, v) > 0 {
                let j = choose|j: int| 0 <= j < 5 && hand[j] != WILDCARD && hand[j] == v;
                assert(natural_count(hand, hand[j]) <= natural_count(hand, hand[k]));
            }
        }
        lemma_uniform_has_most_pairs(hand, t, r);
        lemma_pairs_decide_category(t);
        lemma_pairs_decide_category(u);
        lemma_more_pairs_not_weaker(equal_pairs(t), equal_pairs(u));
    }
}

/// The strongest resolution has the best category of the hand.
pub proof fn lemma_strongest_resolution_is_best(hand: Seq<u8>)
    requires
        hand.len() == 5,
    ensures
        is_best_category(hand, category_of(strongest_resolution(hand).to_multiset())),
        resolved_category(hand) == category_of(strongest_resolution(hand).to_multiset()),
{
    let best = category_of(strongest_resolution(hand).to_multiset());
    lemma_strongest_resolution_dominates(hand, hand);
    assert forall|t: Seq<u8>| #[trigger] is_resolution(hand, t) implies category_of(
        t.to_multiset(),
    ).strength() <= best.strength() by {
        lemma_strongest_resolution_dominates(hand, t);
    }
    assert(is_best_category(hand, best));
    lemma_best_category_unique(hand, best, resolved_category(hand));
}

/// A hand has one best category.
pub proof fn lemma_best_category_unique(hand: Seq<u8>, a: Category, b: Category)
    requires
        is_best_category(hand, a),
        is_best_category(hand, b),
    ensures
        a == b,
{
    let t = choose|t: Seq<u8>| #[trigger] is_resolution(hand, t) && category_of(t.to_multiset()) == a;
    let u = choose|u: Seq<u8>| #[trigger] is_resolution(hand, u) && category_of(u.to_multiset()) == b;
    assert(a.strength() <= b.strength());
    assert(b.strength() <= a.strength());
}

/// For a hand without wildcards, resolution changes nothing: its best
/// category is the category of its own cards.
pub proof fn lemma_without_wildcards(hand: Seq<u8>)
    requires
        forall|i: int| 0 <= i < hand.len() ==> hand[i] != WILDCARD,
    ensures
        is_best_category(hand, category_of(hand.to_multiset())),
        resolved_category(hand) == category_of(hand.to_multiset()),
{
    let own = category_of(hand.to_multiset());
    assert(is_resolution(hand, hand));
    assert forall|t: Seq<u8>| #[trigger] is_resolution(hand, t) implies category_of(
        t.to_multiset(),
    ).strength() <= own.strength() by {
        assert(t =~= hand);
    }
    assert(is_best_category(hand, own));
    lemma_best_category_unique(hand, own, resolved_category(hand));
}

/// A hand of five wildcards resolves to five of a kind.
pub proof fn lemma_all_wildcards(hand: Seq<u8>)
    requires
        hand.len() == 5,
        forall|i: int| 0 <= i < 5 ==> hand[i] == WILDCARD,
    ensures
        is_best_category(hand, Category::FiveOfAKind),
        resolved_category(hand) == Category::FiveOfAKind,
{
    lemma_five_alike(hand);
    assert(is_resolution(hand, hand));
    assert forall|t: Seq<u8>| #[trigger] is_resolution(hand, t) implies category_of(
        t.to_multiset(),
    ).strength() <= Category::FiveOfAKind.strength() by {
        lemma_strength_decides_category(category_of(t.to_multiset()), Category::FiveOfAKind);
    }
    assert(is_best_category(hand, Category::FiveOfAKind));
    lemma_best_category_unique(hand, Category::FiveOfAKind, resolved_category(hand));
}

/// The best category is reached without a rank from outside the hand: it is
/// the category of the hand itself or of the hand with every wildcard
/// replaced by the rank of one of its cards.
pub proof fn lemma_ranks_of_the_hand_suffice(hand: Seq<u8>)
    requires
        hand.len() == 5,
    ensures
        resolved_category(hand) == category_of(hand.to_multiset()) || exists|k: int|
            0 <= k < 5 && resolved_category(hand) == category_of(
                #[trigger] substituted(hand, hand[k]).to_multiset(),
            ),
{
    lemma_strongest_resolution_is_best(hand);
    lemma_most_frequent(hand, 5);
    let k = most_frequent(hand, 5);
    if k >= 0 {
        assert(resolved_category(hand) == category_of(substituted(hand, hand[k]).to_multiset()));
    }
}

/// For a hand whose cards are ranks of the wildcard alphabet, the best
/// category is reached by giving every wildcard one and the same rank of
/// that alphabet other than the wildcard.
pub proof fn lemma_ranks_of_the_alphabet_suffice(hand: Seq<u8>)
    requires
        hand.len() == 5,
        forall|i: int| 0 <= i < 5 ==> is_rank(#[trigger] hand[i], Rules::Wildcard),
    ensures
        exists|rank: u8|
            is_rank(rank, Rules::Wildcard) && rank != WILDCARD && resolved_category(hand)
                == category_of(#[trigger] substituted(hand, rank).to_multiset()),
{
    lemma_strongest_resolution_is_best(hand);
    lemma_most_frequent(hand, 5);
    let k = most_frequent(hand, 5);
    if k >= 0 {
        let rank = hand[k];
        assert(is_rank(rank, Rules::Wildcard) && rank != WILDCARD && resolved_category(hand)
            == category_of(substituted(hand, rank).to_multiset()));
    } else {
        let filled = substituted(hand, 2);
        lemma_all_wildcards(hand);
        lemma_count_five(filled, 2);
        assert(filled.to_multiset().count(2) == 5);
        assert(is_rank(2, Rules::Wildcard) && 2 != WILDCARD && resolved_category(hand)
            == category_of(substituted(hand, 2).to_multiset()));
    }
}

/// Replaces every wildcard of a hand by `rank`.
pub fn substitute(hand: &Hand, rank: u8) -> (filled: Hand)
    ensures
        filled@ == substituted(hand@, rank),
{
    let mut cards = hand.cards;
    let mut i: usize = 0;
    while i < 5
        invariant
            i <= 5,
            cards@.len() == 5,
            hand@.len() == 5,
            forall|j: int| 0 <= j < i ==> cards@[j] == substituted(hand@, rank)[j],
            forall|j: int| i <= j < 5 ==> cards@[j] == hand@[j],
        decreases 5 - i,
    {
        if cards[i] == WILDCARD {
            cards[i] = rank;
        }
        i += 1;
    }
    let filled = Hand::new(cards);
    assert(filled@ =~= substituted(hand@, rank));
    filled
}

/// The strongest category that the hand can reach when each wildcard takes
/// the rank that serves it best. Every card of the hand is tried as the rank
/// for its wildcards, and the hand is classified once for each.
pub fn best_category(hand: &Hand) -> (best: Category)
    ensures
        is_best_category(hand@, best),
        best == resolved_category(hand@),
{
    let ghost h = hand@;
    let mut best = classify(hand);
    let mut k: usize = 0;
    proof {
        assert(is_resolution(h, h));
    }
    while k < 5
        invariant
            k <= 5,
            h == hand@,
            h.len() == 5,
            exists|t: Seq<u8>| #[trigger] is_resolution(h, t) && category_of(t.to_multiset()) == best,
            category_of(h.to_multiset()).strength() <= best.strength(),
            forall|j: int|
                0 <= j < k ==> category_of(
                    #[trigger] substituted(h, h[j]).to_multiset(),
                ).strength() <= best.strength(),
        decreases 5 - k,
    {
        let candidate = substitute(hand, hand.card(k));
        let category = classify(&candidate);
        if category.score() > best.score() {
            proof {
                lemma_substituted_is_resolution(h, h[k as int]);
            }
            best = category;
        }
        k += 1;
    }
    proof {
        lemma_strongest_resolution_is_best(h);
        lemma_most_frequent(h, 5);
        let strongest = category_of(strongest_resolution(h).to_multiset());
        assert(strongest.strength() <= best.strength());
        let t = choose|t: Seq<u8>| #[trigger] is_resolution(h, t) && category_of(t.to_multiset()) == best;
        lemma_strongest_resolution_dominates(h, t);
        lemma_strength_decides_category(best, strongest);
    }
    best
}

} // verus!
