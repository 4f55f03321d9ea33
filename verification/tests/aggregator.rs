use camel_cards::hand::{Hand, ScoredHand};
use camel_cards::order::is_weaker;
use camel_cards::rank::Rules;
use camel_cards::ranking::{rank_hands, total_winnings};
use camel_cards::score_batch;

fn batch(rules: Rules, entries: &[([u8; 5], u32)]) -> Vec<(ScoredHand, u32)> {
    entries.iter().map(|(cards, bid)| (ScoredHand::new(Hand::new(*cards), rules), *bid)).collect()
}

fn example(rules: Rules) -> Vec<(ScoredHand, u32)> {
    let jack = match rules {
        Rules::Standard => 11,
        Rules::Wildcard => 1,
    };
    batch(
        rules,
        &[
            ([3, 2, 10, 3, 13], 765),
            ([10, 5, 5, jack, 5], 684),
            ([13, 13, 6, 7, 7], 28),
            ([13, 10, jack, jack, 10], 220),
            ([12, 12, 12, jack, 14], 483),
        ],
    )
}

#[test]
fn the_example_is_ranked_weakest_first() {
    let ranked = rank_hands(&example(Rules::Standard));
    let bids: Vec<u32> = ranked.iter().map(|entry| entry.1).collect();
    assert_eq!(bids, vec![765, 220, 28, 684, 483]);
    let ranked = rank_hands(&example(Rules::Wildcard));
    let bids: Vec<u32> = ranked.iter().map(|entry| entry.1).collect();
    assert_eq!(bids, vec![765, 28, 684, 483, 220]);
}

#[test]
fn the_example_totals() {
    // 765 * 1 + 220 * 2 + 28 * 3 + 684 * 4 + 483 * 5
    assert_eq!(total_winnings(&example(Rules::Standard)), Some(6440));
    // 765 * 1 + 28 * 2 + 684 * 3 + 483 * 4 + 220 * 5
    assert_eq!(total_winnings(&example(Rules::Wildcard)), Some(5905));
}

#[test]
fn an_empty_batch_wins_nothing() {
    assert_eq!(total_winnings(&Vec::new()), Some(0));
    assert_eq!(rank_hands(&Vec::new()), Vec::new());
}

#[test]
fn tied_hands_keep_the_order_of_the_batch() {
    let entries = batch(
        Rules::Standard,
        &[([5, 5, 5, 5, 5], 1), ([2, 3, 4, 5, 6], 10), ([2, 3, 4, 5, 6], 20), ([2, 3, 4, 5, 6], 30)],
    );
    let ranked = rank_hands(&entries);
    let bids: Vec<u32> = ranked.iter().map(|entry| entry.1).collect();
    assert_eq!(bids, vec![10, 20, 30, 1]);
    // 10 * 1 + 20 * 2 + 30 * 3 + 1 * 4
    assert_eq!(total_winnings(&entries), Some(144));
}

#[test]
fn ranking_twice_changes_nothing() {
    for rules in [Rules::Standard, Rules::Wildcard] {
        let once = rank_hands(&example(rules));
        let twice = rank_hands(&once);
        assert_eq!(once, twice);
    }
    let entries = batch(
        Rules::Standard,
        &[([9, 9, 9, 9, 9], 4), ([2, 3, 4, 5, 6], 3), ([9, 9, 9, 9, 9], 2), ([2, 3, 4, 5, 6], 1)],
    );
    let once = rank_hands(&entries);
    assert_eq!(rank_hands(&once), once);
}

#[test]
fn a_ranking_ascends_and_holds_the_same_entries() {
    let entries = batch(
        Rules::Wildcard,
        &[
            ([14, 14, 1, 2, 2], 9),
            ([2, 3, 4, 5, 6], 8),
            ([1, 1, 1, 1, 1], 7),
            ([14, 13, 12, 10, 9], 6),
            ([2, 2, 2, 2, 2], 5),
            ([2, 3, 4, 5, 6], 4),
            ([1, 2, 2, 2, 2], 3),
        ],
    );
    let ranked = rank_hands(&entries);
    assert_eq!(ranked.len(), entries.len());
    for k in 1..ranked.len() {
        assert!(!is_weaker(&ranked[k].0, &ranked[k - 1].0));
    }
    let mut left: Vec<u32> = entries.iter().map(|entry| entry.1).collect();
    let mut right: Vec<u32> = ranked.iter().map(|entry| entry.1).collect();
    left.sort();
    right.sort();
    assert_eq!(left, right);
    let bids: Vec<u32> = ranked.iter().map(|entry| entry.1).collect();
    assert_eq!(bids, vec![8, 4, 6, 9, 7, 3, 5]);
}

#[test]
fn a_total_beyond_64_bits_is_reported() {
    let top = u32::MAX;
    let mut entries = Vec::new();
    for _ in 0..100_000u32 {
        entries.push(([2u8, 2, 2, 2, 2], top));
    }
    let entries = batch(Rules::Standard, &entries);
    // 4294967295 * (1 + 2 + ... + 100000) = 4294967295 * 5000050000
    assert_eq!(total_winnings(&entries[..10].to_vec()), Some(4294967295 * 55));
    assert_eq!(total_winnings(&entries), None);
}

#[test]
fn score_batch_scores_every_hand() {
    let hands = vec![(Hand::new([1, 1, 2, 3, 4]), 5u32), (Hand::new([2, 2, 2, 3, 3]), 6u32)];
    let standard = score_batch(&hands, Rules::Standard);
    let wildcard = score_batch(&hands, Rules::Wildcard);
    assert_eq!(standard.len(), 2);
    assert_eq!(standard[0], (ScoredHand::new(hands[0].0, Rules::Standard), 5));
    assert_eq!(standard[1], (ScoredHand::new(hands[1].0, Rules::Standard), 6));
    assert_eq!(wildcard[0], (ScoredHand::new(hands[0].0, Rules::Wildcard), 5));
    assert_ne!(standard[0].0.category, wildcard[0].0.category);
}

#[test]
fn the_order_of_a_batch_without_ties_plays_no_part() {
    for rules in [Rules::Standard, Rules::Wildcard] {
        let entries = example(rules);
        let expected = total_winnings(&entries);
        let orders: [[usize; 5]; 5] =
            [[4, 3, 2, 1, 0], [1, 0, 3, 2, 4], [2, 4, 0, 3, 1], [3, 1, 4, 0, 2], [0, 2, 1, 4, 3]];
        for order in orders {
            let other: Vec<(ScoredHand, u32)> = order.iter().map(|i| entries[*i]).collect();
            assert_eq!(total_winnings(&other), expected);
            assert_eq!(rank_hands(&other), rank_hands(&entries));
        }
    }
}

#[test]
fn tied_hands_with_different_bids_depend_on_the_order() {
    let forth = batch(Rules::Standard, &[([2, 3, 4, 5, 6], 10), ([2, 3, 4, 5, 6], 20)]);
    let back = batch(Rules::Standard, &[([2, 3, 4, 5, 6], 20), ([2, 3, 4, 5, 6], 10)]);
    // 10 * 1 + 20 * 2
    assert_eq!(total_winnings(&forth), Some(50));
    // 20 * 1 + 10 * 2
    assert_eq!(total_winnings(&back), Some(40));
}
