use camel_cards::category::{classify, Category};
use camel_cards::hand::{Hand, ScoredHand};
use camel_cards::order::{compare, is_weaker};
use camel_cards::parse::ParseError;
use camel_cards::rank::Rules;
use camel_cards::wildcard::best_category;
use camel_cards::{part_one, part_two, solve, Failure};
use std::cmp::Ordering;

const EXAMPLE: &str = "32T3K 765\nT55J5 684\nKK677 28\nKTJJT 220\nQQQJA 483";

#[test]
fn test_part_one() {
    let result = part_one(EXAMPLE);
    assert_eq!(result, Some(6440));
}

#[test]
fn test_part_two() {
    let result = part_two(EXAMPLE);
    assert_eq!(result, Some(5905));
}

#[test]
fn example_with_trailing_line_break() {
    let text = format!("{}\n", EXAMPLE);
    assert_eq!(part_one(&text), Some(6440));
    assert_eq!(part_two(&text), Some(5905));
}

#[test]
fn solve_gives_the_same_totals() {
    assert_eq!(solve(EXAMPLE, Rules::Standard), Ok(6440));
    assert_eq!(solve(EXAMPLE, Rules::Wildcard), Ok(5905));
}

#[test]
fn five_wildcards_are_five_of_a_kind() {
    let hand = Hand::new([1, 1, 1, 1, 1]);
    assert_eq!(best_category(&hand), Category::FiveOfAKind);
    assert_eq!(solve("JJJJJ 3", Rules::Wildcard), Ok(3));
}

#[test]
fn high_card_is_below_every_pair() {
    let low = ScoredHand::new(Hand::new([2, 3, 4, 5, 6]), Rules::Standard);
    assert_eq!(low.category, Category::HighCard);
    let pairs: [[u8; 5]; 6] = [
        [2, 2, 3, 4, 5],
        [2, 3, 4, 5, 5],
        [2, 2, 3, 3, 4],
        [2, 2, 2, 3, 4],
        [14, 14, 14, 14, 14],
        [2, 3, 2, 3, 2],
    ];
    for cards in pairs {
        let other = ScoredHand::new(Hand::new(cards), Rules::Standard);
        assert!(is_weaker(&low, &other));
        assert!(!is_weaker(&other, &low));
        assert_eq!(compare(&low, &other), Ordering::Less);
        assert_eq!(compare(&other, &low), Ordering::Greater);
    }
    let strongest_high_card = ScoredHand::new(Hand::new([14, 13, 12, 11, 9]), Rules::Standard);
    let weakest_pair = ScoredHand::new(Hand::new([2, 2, 3, 4, 5]), Rules::Standard);
    assert_eq!(classify(&strongest_high_card.hand), Category::HighCard);
    assert_eq!(compare(&strongest_high_card, &weakest_pair), Ordering::Less);
}

#[test]
fn a_single_hand_wins_its_bid() {
    assert_eq!(part_one("23456 17"), Some(17));
    assert_eq!(part_two("23456 17"), Some(17));
}

#[test]
fn malformed_text_has_no_answer() {
    assert_eq!(part_one(""), None);
    assert_eq!(part_one("2345 10"), None);
    assert_eq!(part_one("2345X 10"), None);
    assert_eq!(part_one("23456"), None);
    assert_eq!(part_one("23456 x"), None);
    assert_eq!(solve("", Rules::Standard), Err(Failure::Parse(ParseError::MalformedHand)));
    assert_eq!(solve("2345X 10", Rules::Standard), Err(Failure::Parse(ParseError::MalformedHand)));
    assert_eq!(solve("23456", Rules::Standard), Err(Failure::Parse(ParseError::MalformedBid)));
    assert_eq!(solve("23456 x", Rules::Wildcard), Err(Failure::Parse(ParseError::MalformedBid)));
    assert_eq!(
        solve("23456 1\n1234567 2", Rules::Wildcard),
        Err(Failure::Parse(ParseError::MalformedHand))
    );
}

#[test]
fn a_malformed_hand_on_a_later_line_has_no_answer() {
    assert_eq!(part_one("32T3K 765"), Some(765));
    for text in ["32T3K 765\nKK6777 28", "32T3K 765\nKK67", "32T3K 765\nKK67 28", "32T3K 765\nKK677"] {
        assert_eq!(part_one(text), None);
        assert_eq!(part_two(text), None);
    }
    assert_eq!(
        solve("32T3K 765\nKK6777 28", Rules::Standard),
        Err(Failure::Parse(ParseError::MalformedHand))
    );
    assert_eq!(
        solve("32T3K 765\nKK67", Rules::Wildcard),
        Err(Failure::Parse(ParseError::MalformedHand))
    );
    assert_eq!(
        solve("32T3K 765\nKK677", Rules::Standard),
        Err(Failure::Parse(ParseError::MalformedBid))
    );
}

#[test]
fn a_total_beyond_32_bits_has_no_answer() {
    // 4294967295 * 1 + 4294967295 * 2 = 12884901885
    let text = "22222 4294967295\n33333 4294967295";
    assert_eq!(solve(text, Rules::Standard), Ok(12884901885));
    assert_eq!(part_one(text), None);
    assert_eq!(part_two(text), None);
    assert_eq!(part_one("22222 4294967295"), Some(4294967295));
}
