use camel_cards::category::Category;
use camel_cards::hand::{Hand, ScoredHand};
use camel_cards::order::{compare, is_weaker};
use camel_cards::rank::Rules;
use std::cmp::Ordering;

fn standard(cards: [u8; 5]) -> ScoredHand {
    ScoredHand::new(Hand::new(cards), Rules::Standard)
}

fn wild(cards: [u8; 5]) -> ScoredHand {
    ScoredHand::new(Hand::new(cards), Rules::Wildcard)
}

#[test]
fn category_decides_first() {
    let pair = standard([2, 2, 3, 4, 5]);
    let high = standard([14, 13, 12, 11, 9]);
    assert_eq!(compare(&high, &pair), Ordering::Less);
    assert_eq!(compare(&pair, &high), Ordering::Greater);
}

#[test]
fn the_first_differing_card_decides_within_a_category() {
    let a = standard([13, 13, 6, 7, 7]);
    let b = standard([13, 10, 11, 11, 10]);
    assert_eq!(a.category, b.category);
    assert_eq!(compare(&b, &a), Ordering::Less);
    assert_eq!(compare(&a, &b), Ordering::Greater);
    let c = standard([3, 3, 3, 3, 2]);
    let d = standard([2, 14, 14, 14, 14]);
    assert_eq!(compare(&d, &c), Ordering::Less);
    let e = standard([2, 3, 4, 5, 7]);
    let f = standard([2, 3, 4, 5, 8]);
    assert_eq!(compare(&e, &f), Ordering::Less);
}

#[test]
fn identical_hands_are_equal() {
    let a = standard([2, 3, 4, 5, 7]);
    let b = standard([2, 3, 4, 5, 7]);
    assert_eq!(compare(&a, &b), Ordering::Equal);
    assert!(!is_weaker(&a, &b));
    assert!(!is_weaker(&b, &a));
}

#[test]
fn a_wildcard_is_the_lowest_card_in_a_tie() {
    let with_wildcard = wild([1, 13, 13, 13, 2]);
    let natural = wild([12, 12, 12, 12, 2]);
    assert_eq!(with_wildcard.category, Category::FourOfAKind);
    assert_eq!(natural.category, Category::FourOfAKind);
    assert_eq!(compare(&with_wildcard, &natural), Ordering::Less);
    let lowest_natural = wild([2, 2, 2, 2, 3]);
    assert_eq!(compare(&with_wildcard, &lowest_natural), Ordering::Less);
}

#[test]
fn the_order_is_a_strict_weak_order_on_a_sample() {
    let sample: Vec<ScoredHand> = vec![
        standard([3, 2, 10, 3, 13]),
        standard([10, 5, 5, 11, 5]),
        standard([13, 13, 6, 7, 7]),
        standard([13, 10, 11, 11, 10]),
        standard([12, 12, 12, 11, 14]),
        standard([2, 3, 4, 5, 6]),
        standard([2, 3, 4, 5, 6]),
        wild([1, 1, 1, 1, 1]),
        wild([1, 2, 2, 2, 2]),
        wild([2, 2, 2, 2, 1]),
    ];
    for a in &sample {
        assert!(!is_weaker(a, a));
        for b in &sample {
            assert!(!(is_weaker(a, b) && is_weaker(b, a)));
            let tied = !is_weaker(a, b) && !is_weaker(b, a);
            assert_eq!(tied, a == b);
            assert_eq!(compare(a, b) == Ordering::Equal, tied);
            assert_eq!(compare(a, b) == Ordering::Less, is_weaker(a, b));
            assert_eq!(compare(a, b) == Ordering::Greater, is_weaker(b, a));
            for c in &sample {
                if is_weaker(a, b) && is_weaker(b, c) {
                    assert!(is_weaker(a, c));
                }
            }
        }
    }
}

#[test]
fn the_operators_follow_the_order() {
    let low = standard([2, 3, 4, 5, 6]);
    let pair = standard([2, 2, 3, 4, 5]);
    let same = standard([2, 2, 3, 4, 5]);
    assert!(low < pair);
    assert!(pair > low);
    assert!(pair <= same && pair >= same);
    assert!(!(pair < same) && !(pair > same));
    assert_eq!(low.partial_cmp(&pair), Some(Ordering::Less));
    assert_eq!(pair.partial_cmp(&low), Some(Ordering::Greater));
    assert_eq!(pair.partial_cmp(&same), Some(Ordering::Equal));
    let mut hands = vec![pair, wild([1, 1, 1, 1, 1]), low, wild([2, 2, 2, 2, 1])];
    hands.sort_by(|a, b| a.partial_cmp(b).unwrap());
    assert_eq!(hands, vec![low, pair, wild([1, 1, 1, 1, 1]), wild([2, 2, 2, 2, 1])]);
}
