use camel_cards::category::{classify, Category};
use camel_cards::hand::Hand;

fn category(cards: [u8; 5]) -> Category {
    classify(&Hand::new(cards))
}

#[test]
fn every_shape_has_its_category() {
    assert_eq!(category([7, 7, 7, 7, 7]), Category::FiveOfAKind);
    assert_eq!(category([7, 7, 9, 7, 7]), Category::FourOfAKind);
    assert_eq!(category([7, 9, 7, 9, 7]), Category::FullHouse);
    assert_eq!(category([7, 9, 7, 2, 7]), Category::ThreeOfAKind);
    assert_eq!(category([7, 9, 7, 2, 9]), Category::TwoPair);
    assert_eq!(category([7, 9, 3, 2, 9]), Category::OnePair);
    assert_eq!(category([7, 9, 3, 2, 10]), Category::HighCard);
}

#[test]
fn categories_of_the_example_hands() {
    assert_eq!(category([3, 2, 10, 3, 13]), Category::OnePair);
    assert_eq!(category([10, 5, 5, 11, 5]), Category::ThreeOfAKind);
    assert_eq!(category([13, 13, 6, 7, 7]), Category::TwoPair);
    assert_eq!(category([13, 10, 11, 11, 10]), Category::TwoPair);
    assert_eq!(category([12, 12, 12, 11, 14]), Category::ThreeOfAKind);
}

#[test]
fn strengths_run_from_one_to_seven() {
    assert_eq!(Category::HighCard.score(), 1);
    assert_eq!(Category::OnePair.score(), 2);
    assert_eq!(Category::TwoPair.score(), 3);
    assert_eq!(Category::ThreeOfAKind.score(), 4);
    assert_eq!(Category::FullHouse.score(), 5);
    assert_eq!(Category::FourOfAKind.score(), 6);
    assert_eq!(Category::FiveOfAKind.score(), 7);
}

fn permutations(cards: [u8; 5]) -> Vec<[u8; 5]> {
    let mut all = Vec::new();
    for a in 0..5 {
        for b in 0..5 {
            for c in 0..5 {
                for d in 0..5 {
                    for e in 0..5 {
                        let picked = [a, b, c, d, e];
                        let mut seen = [false; 5];
                        for p in picked {
                            seen[p] = true;
                        }
                        if seen.iter().all(|s| *s) {
                            all.push([cards[a], cards[b], cards[c], cards[d], cards[e]]);
                        }
                    }
                }
            }
        }
    }
    all
}

#[test]
fn the_order_of_the_cards_plays_no_part() {
    let hands: [[u8; 5]; 7] = [
        [2, 3, 4, 5, 6],
        [2, 2, 4, 5, 6],
        [2, 2, 4, 4, 6],
        [2, 2, 2, 5, 6],
        [2, 2, 2, 6, 6],
        [2, 2, 2, 2, 6],
        [2, 2, 2, 2, 2],
    ];
    for cards in hands {
        let expected = category(cards);
        let all = permutations(cards);
        assert_eq!(all.len(), 120);
        for permuted in all {
            assert_eq!(category(permuted), expected);
        }
    }
}

#[test]
fn any_byte_is_a_rank_to_the_classifier() {
    assert_eq!(category([0, 0, 255, 255, 0]), Category::FullHouse);
    assert_eq!(category([0, 1, 2, 3, 255]), Category::HighCard);
}
