//! The total order on scored hands: by category first, then by the cards
//! as dealt, position by position.

use crate::category::lemma_strength_decides_category;
use crate::hand::{ScoredHand, Standing};
use std::cmp::Ordering;
use vstd::prelude::*;

verus! {

/// The hands `a` and `b` agree before position `k` and differ at it.
pub open spec fn differ_first_at(a: Seq<u8>, b: Seq<u8>, k: int) -> bool {
    &&& 0 <= k < 5
    &&& a[k] != b[k]
    &&& forall|j: int| 0 <= j < k ==> a[j] == b[j]
}

/// At the first position where the cards differ, `a` holds the lower rank.
pub open spec fn cards_before(a: Seq<u8>, b: Seq<u8>) -> bool {
    exists|k: int| #[trigger] differ_first_at(a, b, k) && a[k] < b[k]
}

/// The hands hold the same rank at each of the five positions.
pub open spec fn same_cards(a: Seq<u8>, b: Seq<u8>) -> bool {
    forall|j: int| 0 <= j < 5 ==> a[j] == b[j]
}

/// The hand `a` ranks strictly below the hand `b`.
pub open spec fn weaker(a: Standing, b: Standing) -> bool {
    ||| a.category.strength() < b.category.strength()
    ||| a.category == b.category && cards_before(a.cards, b.cards)
}

/// Neither hand ranks below the other.
pub open spec fn tied(a: Standing, b: Standing) -> bool {
    !weaker(a, b) && !weaker(b, a)
}

/// Two hands hold the same cards, or one of them comes before the other,
/// and no two of these hold at once.
pub proof fn lemma_cards_trichotomy(a: Seq<u8>, b: Seq<u8>)
    ensures
        same_cards(a, b) || cards_before(a, b) || cards_before(b, a),
        !(cards_before(a, b) && cards_before(b, a)),
        same_cards(a, b) ==> !cards_before(a, b) && !cards_before(b, a),
{
    if a[0] != b[0] {
        assert(differ_first_at(a, b, 0) && differ_first_at(b, a, 0));
    } else if a[1] != b[1] {
        assert(differ_first_at(a, b, 1) && differ_first_at(b, a, 1));
    } else if a[2] != b[2] {
        assert(differ_first_at(a, b, 2) && differ_first_at(b, a, 2));
    } else if a[3] != b[3] {
        assert(differ_first_at(a, b, 3) && differ_first_at(b, a, 3));
    } else if a[4] != b[4] {
        assert(differ_first_at(a, b, 4) && differ_first_at(b, a, 4));
    }
    if cards_before(a, b) && cards_before(b, a) {
        let k = choose|k: int| #[trigger] differ_first_at(a, b, k) && a[k] < b[k];
        let l = choose|l: int| #[trigger] differ_first_at(b, a, l) && b[l] < a[l];
        assert(k == l);
    }
}

/// The order of the cards is transitive.
pub proof fn lemma_cards_before_transitive(a: Seq<u8>, b: Seq<u8>, c: Seq<u8>)
    requires
        cards_before(a, b),
        cards_before(b, c),
    ensures
        cards_before(a, c),
{
    let k = choose|k: int| #[trigger] differ_first_at(a, b, k) && a[k] < b[k];
    let l = choose|l: int| #[trigger] differ_first_at(b, c, l) && b[l] < c[l];
    if k <= l {
        assert(differ_first_at(a, c, k) && a[k] < c[k]);
    } else {
        assert(differ_first_at(a, c, l) && a[l] < c[l]);
    }
}

/// Hands with the same cards stand alike towards the cards of a third hand.
proof fn lemma_same_cards_stand_alike(a: Seq<u8>, b: Seq<u8>, c: Seq<u8>)
    requires
        same_cards(a, b),
    ensures
        cards_before(a, c) == cards_before(b, c),
        cards_before(c, a) == cards_before(c, b),
{
    if cards_before(a, c) {
        let k = choose|k: int| #[trigger] differ_first_at(a, c, k) && a[k] < c[k];
        assert(differ_first_at(b, c, k) && b[k] < c[k]);
    }
    if cards_before(b, c) {
        let k = choose|k: int| #[trigger] differ_first_at(b, c, k) && b[k] < c[k];
        assert(differ_first_at(a, c, k) && a[k] < c[k]);
    }
    if cards_before(c, a) {
        let k = choose|k: int| #[trigger] differ_first_at(c, a, k) && c[k] < a[k];
        assert(differ_first_at(c, b, k) && c[k] < b[k]);
    }
    if cards_before(c, b) {
        let k = choose|k: int| #[trigger] differ_first_at(c, b, k) && c[k] < b[k];
        assert(differ_first_at(c, a, k) && c[k] < a[k]);
    }
}

/// No hand ranks below itself.
pub proof fn lemma_weaker_irreflexive(a: Standing)
    ensures
        !weaker(a, a),
{
    lemma_cards_trichotomy(a.cards, a.cards);
}

/// Of two hands at most one ranks below the other.
pub proof fn lemma_weaker_asymmetric(a: Standing, b: Standing)
    ensures
        weaker(a, b) ==> !weaker(b, a),
{
    lemma_cards_trichotomy(a.cards, b.cards);
}

/// If `a` ranks below `b` and `b` below `c`, then `a` ranks below `c`.
pub proof fn lemma_weaker_transitive(a: Standing, b: Standing, c: Standing)
    requires
        weaker(a, b),
        weaker(b, c),
    ensures
        weaker(a, c),
{
    if a.category == b.category && b.category == c.category {
        lemma_cards_before_transitive(a.cards, b.cards, c.cards);
    }
}

/// Two hands of five cards are tied exactly when they have the same
/// category and the same cards in the same places.
pub proof fn lemma_tied_iff_identical(a: Standing, b: Standing)
    requires
        a.cards.len() == 5,
        b.cards.len() == 5,
    ensures
        tied(a, b) <==> a == b,
{
    lemma_cards_trichotomy(a.cards, b.cards);
    lemma_strength_decides_category(a.category, b.category);
    if tied(a, b) {
        assert(a.cards =~= b.cards);
    }
}

/// Tied hands have the same category and the same five cards.
pub proof fn lemma_tied_hands_agree(a: Standing, b: Standing)
    ensures
        tied(a, b) <==> a.category == b.category && same_cards(a.cards, b.cards),
{
    lemma_cards_trichotomy(a.cards, b.cards);
    lemma_strength_decides_category(a.category, b.category);
}

/// Being tied is transitive: with the three laws above, the order is a
/// strict weak order.
pub proof fn lemma_tied_transitive(a: Standing, b: Standing, c: Standing)
    requires
        tied(a, b),
        tied(b, c),
    ensures
        tied(a, c),
{
    lemma_tied_hands_agree(a, b);
    lemma_tied_hands_agree(b, c);
    lemma_tied_hands_agree(a, c);
}

/// A hand that does not rank above `b` ranks below everything that `b` ranks below.
pub proof fn lemma_not_above_then_below(a: Standing, b: Standing, c: Standing)
    requires
        !weaker(b, a),
        weaker(b, c),
    ensures
        weaker(a, c),
{
    if weaker(a, b) {
        lemma_weaker_transitive(a, b, c);
    } else {
        lemma_tied_hands_agree(a, b);
        lemma_same_cards_stand_alike(a.cards, b.cards, c.cards);
    }
}

/// A hand ranks below everything that does not rank below a hand above it.
pub proof fn lemma_below_then_not_below(a: Standing, b: Standing, c: Standing)
    requires
        weaker(a, b),
        !weaker(c, b),
    ensures
        weaker(a, c),
{
    if weaker(b, c) {
        lemma_weaker_transitive(a, b, c);
    } else {
        lemma_tied_hands_agree(b, c);
        lemma_same_cards_stand_alike(b.cards, c.cards, a.cards);
    }
}

/// Tells whether `a` ranks strictly below `b`.
pub fn is_weaker(a: &ScoredHand, b: &ScoredHand) -> (below: bool)
    ensures
        below == weaker(a@, b@),
{
    let strength_a = a.category.score();
    let strength_b = b.category.score();
    if strength_a != strength_b {
        return strength_a < strength_b;
    }
    proof {
        lemma_strength_decides_category(a.category, b.category);
    }
    let mut k: usize = 0;
    while k < 5
        invariant
            k <= 5,
            a.category == b.category,
            forall|j: int| 0 <= j < k ==> a.hand@[j] == b.hand@[j],
        decreases 5 - k,
    {
        let x = a.hand.card(k);
        let y = b.hand.card(k);
        if x != y {
            proof {
                assert(differ_first_at(a.hand@, b.hand@, k as int));
                lemma_cards_trichotomy(a.hand@, b.hand@);
                assert(differ_first_at(b.hand@, a.hand@, k as int));
            }
            return x < y;
        }
        k += 1;
    }
    proof {
        lemma_cards_trichotomy(a.hand@, b.hand@);
    }
    false
}

/// Compares two hands: by category, and within a category by the cards as
/// dealt, the first position that differs deciding.
pub fn compare(a: &ScoredHand, b: &ScoredHand) -> (order: Ordering)
    ensures
        order == Ordering::Less <==> weaker(a@, b@),
        order == Ordering::Greater <==> weaker(b@, a@),
        order == Ordering::Equal <==> a@ == b@,
{
    proof {
        lemma_weaker_asymmetric(a@, b@);
        lemma_tied_iff_identical(a@, b@);
    }
    if is_weaker(a, b) {
        Ordering::Less
    } else if is_weaker(b, a) {
        Ordering::Greater
    } else {
        Ordering::Equal
    }
}

/// The order that `compare` gives, as a value.
pub open spec fn order_of(a: Standing, b: Standing) -> Ordering {
    if weaker(a, b) {
        Ordering::Less
    } else if weaker(b, a) {
        Ordering::Greater
    } else {
        Ordering::Equal
    }
}

impl PartialOrd for ScoredHand {
    /// The order of `compare`: `a < b` holds where `a` ranks below `b`.
    fn partial_cmp(&self, other: &ScoredHand) -> (order: Option<Ordering>) {
        proof {
            lemma_weaker_asymmetric(self@, other@);
        }
        Some(compare(self, other))
    }
}

impl vstd::std_specs::cmp::PartialOrdSpecImpl for ScoredHand {
    open spec fn obeys_partial_cmp_spec() -> bool {
        true
    }

    open spec fn partial_cmp_spec(&self, other: &ScoredHand) -> Option<Ordering> {
        Some(order_of(self@, other@))
    }
}

} // verus!
