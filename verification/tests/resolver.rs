use camel_cards::category::{classify, Category};
use camel_cards::hand::{Hand, ScoredHand};
use camel_cards::rank::{Rules, WILDCARD};
use camel_cards::wildcard::{best_category, substitute};

fn best(cards: [u8; 5]) -> Category {
    best_category(&Hand::new(cards))
}

#[test]
fn wildcards_join_the_largest_group() {
    assert_eq!(best([10, 5, 5, 1, 5]), Category::FourOfAKind);
    assert_eq!(best([13, 10, 1, 1, 10]), Category::FourOfAKind);
    assert_eq!(best([12, 12, 12, 1, 14]), Category::FourOfAKind);
    assert_eq!(best([2, 3, 4, 5, 1]), Category::OnePair);
    assert_eq!(best([2, 2, 3, 3, 1]), Category::FullHouse);
    assert_eq!(best([2, 3, 4, 1, 1]), Category::ThreeOfAKind);
    assert_eq!(best([2, 1, 1, 1, 1]), Category::FiveOfAKind);
    assert_eq!(best([2, 3, 1, 1, 1]), Category::FourOfAKind);
    assert_eq!(best([1, 1, 1, 1, 1]), Category::FiveOfAKind);
}

#[test]
fn without_wildcards_nothing_is_resolved() {
    let hands: [[u8; 5]; 5] = [
        [3, 2, 10, 3, 13],
        [13, 13, 6, 7, 7],
        [2, 3, 4, 5, 6],
        [14, 14, 14, 14, 14],
        [11, 11, 2, 2, 2],
    ];
    for cards in hands {
        let hand = Hand::new(cards);
        assert_eq!(best_category(&hand), classify(&hand));
    }
}

fn strength(category: Category) -> u32 {
    category.score()
}

#[test]
fn no_substitution_beats_the_best_category() {
    let hands: [[u8; 5]; 6] = [
        [1, 2, 3, 4, 5],
        [1, 1, 3, 4, 5],
        [1, 2, 2, 1, 5],
        [9, 1, 1, 1, 5],
        [1, 1, 1, 1, 5],
        [7, 7, 1, 8, 8],
    ];
    let ranks: [u8; 14] = [1, 2, 3, 4, 5, 6, 7, 8, 9, 10, 11, 12, 13, 14];
    for cards in hands {
        let best = strength(best(cards));
        let mut reached = false;
        let mut choice = [0usize; 5];
        loop {
            let mut resolved = cards;
            for i in 0..5 {
                if cards[i] == WILDCARD {
                    resolved[i] = ranks[choice[i]];
                }
            }
            let got = strength(classify(&Hand::new(resolved)));
            assert!(got <= best);
            if got == best {
                reached = true;
            }
            let mut i = 0;
            while i < 5 {
                if cards[i] == WILDCARD && choice[i] + 1 < ranks.len() {
                    choice[i] += 1;
                    break;
                }
                choice[i] = 0;
                i += 1;
            }
            if i == 5 {
                break;
            }
        }
        assert!(reached);
    }
}

#[test]
fn substitute_replaces_wildcards_only() {
    let hand = Hand::new([1, 5, 1, 9, 14]);
    assert_eq!(substitute(&hand, 9).cards, [9, 5, 9, 9, 14]);
    assert_eq!(substitute(&Hand::new([2, 3, 4, 5, 6]), 9).cards, [2, 3, 4, 5, 6]);
}

#[test]
fn a_scored_hand_keeps_its_cards_as_dealt() {
    let hand = Hand::new([12, 1, 1, 12, 2]);
    let scored = ScoredHand::new(hand, Rules::Wildcard);
    assert_eq!(scored.hand, hand);
    assert_eq!(scored.category, Category::FourOfAKind);
    let plain = ScoredHand::new(hand, Rules::Standard);
    assert_eq!(plain.hand, hand);
    assert_eq!(plain.category, Category::TwoPair);
}

#[test]
fn one_rank_of_the_alphabet_for_all_wildcards_reaches_the_best() {
    let ranks: [u8; 12] = [2, 3, 4, 5, 6, 7, 8, 9, 10, 12, 13, 14];
    let hands: [[u8; 5]; 7] = [
        [1, 1, 1, 1, 1],
        [1, 2, 3, 4, 5],
        [1, 1, 3, 4, 5],
        [1, 2, 2, 1, 5],
        [9, 1, 1, 1, 5],
        [7, 7, 1, 8, 8],
        [2, 3, 4, 5, 6],
    ];
    for cards in hands {
        let hand = Hand::new(cards);
        let best = best_category(&hand);
        assert!(ranks.iter().any(|rank| classify(&substitute(&hand, *rank)) == best));
        assert!(ranks.iter().all(|rank| strength(classify(&substitute(&hand, *rank))) <= strength(best)));
    }
}
