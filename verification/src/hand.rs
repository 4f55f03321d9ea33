//! Hands of five cards, and hands paired with their category.

use crate::category::{category_of, classify, Category};
use crate::rank::{Rules, WILDCARD};
use crate::wildcard::{best_category, lemma_without_wildcards, resolved_category};
use vstd::prelude::*;

verus! {

/// Five card ranks in the order in which they were dealt.
#[derive(Clone, Copy, Debug, PartialEq, Eq, Hash)]
pub struct Hand {
    pub cards: [u8; 5],
}

impl View for Hand {
    type V = Seq<u8>;

    open spec fn view(&self) -> Seq<u8> {
        self.cards@
    }
}

impl Hand {
    /// A hand of the given five ranks.
    pub fn new(cards: [u8; 5]) -> (hand: Hand)
        ensures
            hand.cards == cards,
            hand@ == cards@,
    {
        Hand { cards }
    }

    /// The rank at position `i`.
    pub fn card(&self, i: usize) -> (rank: u8)
        requires
            i < 5,
        ensures
            rank == self@[i as int],
    {
        self.cards[i]
    }
}

/// A hand always has five cards.
pub proof fn lemma_hand_has_five_cards(hand: Hand)
    ensures
        hand@.len() == 5,
{
}

/// What the order of hands looks at: a category and five cards as dealt.
pub struct Standing {
    pub category: Category,
    pub cards: Seq<u8>,
}

/// The category of five cards under the rules in force: with wildcards, the
/// strongest category that they can reach; without, the category of the
/// cards as they are.
pub open spec fn category_under(cards: Seq<u8>, rules: Rules) -> Category {
    match rules {
        Rules::Standard => category_of(cards.to_multiset()),
        Rules::Wildcard => resolved_category(cards),
    }
}

/// The standing of five cards under the rules in force.
pub open spec fn standing_of(cards: Seq<u8>, rules: Rules) -> Standing {
    Standing { category: category_under(cards, rules), cards }
}

/// A hand without wildcards has the same standing under both rules.
pub proof fn lemma_rules_agree_without_wildcards(cards: Seq<u8>)
    requires
        forall|i: int| 0 <= i < cards.len() ==> cards[i] != WILDCARD,
    ensures
        standing_of(cards, Rules::Wildcard) == standing_of(cards, Rules::Standard),
{
    lemma_without_wildcards(cards);
}

/// A hand together with the category it ranks in, and its cards as dealt.
#[derive(Clone, Copy, Debug, PartialEq, Eq, Hash)]
pub struct ScoredHand {
    pub hand: Hand,
    pub category: Category,
}

impl View for ScoredHand {
    type V = Standing;

    open spec fn view(&self) -> Standing {
        Standing { category: self.category, cards: self.hand@ }
    }
}

impl ScoredHand {
    /// Scores a hand under the rules in force. The cards stay as dealt: a
    /// wildcard counts as the lowest rank when hands of one category are
    /// compared, whatever it stood in for.
    pub fn new(hand: Hand, rules: Rules) -> (scored: ScoredHand)
        ensures
            scored.hand == hand,
            scored@ == standing_of(hand@, rules),
    {
        let category = match rules {
            Rules::Standard => classify(&hand),
            Rules::Wildcard => best_category(&hand),
        };
        ScoredHand { hand, category }
    }
}

} // verus!
