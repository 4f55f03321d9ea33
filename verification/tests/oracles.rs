use camel_cards::category::{classify, Category};
use camel_cards::hand::{Hand, ScoredHand};
use camel_cards::order::compare;
use camel_cards::rank::Rules;
use camel_cards::ranking::{rank_hands, total_winnings};
use camel_cards::wildcard::best_category;

/// The strength of a hand, read off the multiplicities of its ranks in
/// descending order.
fn strength_by_counting(cards: [u8; 5]) -> u32 {
    let mut counts = [0u8; 256];
    for card in cards {
        counts[card as usize] += 1;
    }
    let mut groups: Vec<u8> = counts.iter().copied().filter(|count| *count > 0).collect();
    groups.sort();
    groups.reverse();
    match groups.as_slice() {
        [5] => 7,
        [4, 1] => 6,
        [3, 2] => 5,
        [3, 1, 1] => 4,
        [2, 2, 1] => 3,
        [2, 1, 1, 1] => 2,
        [1, 1, 1, 1, 1] => 1,
        _ => unreachable!(),
    }
}

/// The greatest strength over every way of giving each wildcard from
/// position `from` on one of the ranks `choices`.
fn best_strength_by_trying_all(cards: [u8; 5], from: usize, choices: &[u8]) -> u32 {
    match (from..5).find(|i| cards[*i] == 1) {
        None => strength_by_counting(cards),
        Some(i) => {
            let mut best = 0;
            for choice in choices {
                let mut tried = cards;
                tried[i] = *choice;
                if *choice == 1 {
                    best = best.max(best_strength_by_trying_all(tried, i + 1, choices));
                } else {
                    best = best.max(best_strength_by_trying_all(tried, from, choices));
                }
            }
            best
        }
    }
}

fn hands_over(ranks: &[u8]) -> Vec<[u8; 5]> {
    let mut hands = Vec::new();
    for a in ranks {
        for b in ranks {
            for c in ranks {
                for d in ranks {
                    for e in ranks {
                        hands.push([*a, *b, *c, *d, *e]);
                    }
                }
            }
        }
    }
    hands
}

#[test]
fn classify_agrees_with_counting() {
    let hands = hands_over(&[1, 2, 3, 4, 5, 14]);
    assert_eq!(hands.len(), 7776);
    for cards in hands {
        let category: Category = classify(&Hand::new(cards));
        assert_eq!(category.score(), strength_by_counting(cards));
    }
}

#[test]
fn best_category_agrees_with_trying_every_rank() {
    let hands = hands_over(&[1, 2, 3, 13]);
    assert_eq!(hands.len(), 1024);
    for cards in hands {
        let category: Category = best_category(&Hand::new(cards));
        assert_eq!(category.score(), best_strength_by_trying_all(cards, 0, &[1, 2, 3, 7, 13]));
    }
}

fn pseudo_random_batch(rules: Rules, len: usize, mut seed: u64) -> Vec<(ScoredHand, u32)> {
    let ranks: [u8; 6] = [1, 2, 3, 9, 12, 14];
    let mut batch = Vec::new();
    for _ in 0..len {
        let mut cards = [0u8; 5];
        for card in cards.iter_mut() {
            seed = seed.wrapping_mul(6364136223846793005).wrapping_add(1442695040888963407);
            *card = ranks[((seed >> 33) % 6) as usize];
        }
        seed = seed.wrapping_mul(6364136223846793005).wrapping_add(1442695040888963407);
        let bid = ((seed >> 33) % 1000) as u32;
        batch.push((ScoredHand::new(Hand::new(cards), rules), bid));
    }
    batch
}

#[test]
fn rank_hands_agrees_with_a_stable_sort() {
    for rules in [Rules::Standard, Rules::Wildcard] {
        for (len, seed) in [(1usize, 1u64), (2, 2), (10, 3), (100, 4), (1000, 5)] {
            let batch = pseudo_random_batch(rules, len, seed);
            let mut sorted = batch.clone();
            sorted.sort_by(|a, b| compare(&a.0, &b.0));
            assert_eq!(rank_hands(&batch), sorted);
            let mut total: u64 = 0;
            for (i, entry) in sorted.iter().enumerate() {
                total += entry.1 as u64 * (i as u64 + 1);
            }
            assert_eq!(total_winnings(&batch), Some(total));
        }
    }
}
