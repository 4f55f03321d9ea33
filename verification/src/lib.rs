//! Ranking of five-card hands, with optional wildcard resolution, and the
//! bid-weighted score of a batch of hands.
//!
//! A text of hands and bids is read by [`parse::parse_batch`], every hand is
//! given its category by [`hand::ScoredHand::new`], the batch is put in
//! ascending order by [`ranking::rank_hands`], and
//! [`ranking::total_winnings`] adds up every bid times the rank of its hand.

pub mod category;
pub mod hand;
pub mod order;
pub mod parse;
pub mod rank;
pub mod ranking;
pub mod reorder;
pub mod wildcard;

use crate::hand::{standing_of, Hand, ScoredHand, Standing};
use crate::parse::{batch_of, entries_of, parse_batch, ParseError};
use crate::rank::Rules;
use crate::ranking::{standings, total_winnings, winnings};
use vstd::prelude::*;

verus! {

/// Why a text has no total winnings.
#[derive(Clone, Copy, Debug, PartialEq, Eq, Structural, Hash)]
pub enum Failure {
    /// The text holds no batch.
    Parse(ParseError),
    /// The total does not fit the integer that is to hold it.
    Overflow,
}

/// The entries of a batch, each hand with its standing under the rules in force.
pub open spec fn scored(entries: Seq<(Seq<u8>, u32)>, rules: Rules) -> Seq<(Standing, u32)> {
    entries.map_values(|entry: (Seq<u8>, u32)| (standing_of(entry.0, rules), entry.1))
}

/// The total winnings of the batch that a text holds.
pub open spec fn total_of(text: Seq<char>, rules: Rules) -> Result<nat, ParseError> {
    match batch_of(text, rules) {
        Ok(entries) => Ok(winnings(scored(entries, rules))),
        Err(e) => Err(e),
    }
}

/// Gives every hand of a batch its category under the rules in force.
pub fn score_batch(entries: &Vec<(Hand, u32)>, rules: Rules) -> (batch: Vec<(ScoredHand, u32)>)
    ensures
        standings(batch@) == scored(entries_of(entries@), rules),
{
    let mut batch: Vec<(ScoredHand, u32)> = Vec::new();
    let mut i: usize = 0;
    while i < entries.len()
        invariant
            i <= entries@.len(),
            batch@.len() == i,
            forall|j: int|
                0 <= j < i ==> (#[trigger] batch@[j]).0@ == standing_of(entries@[j].0@, rules)
                    && batch@[j].1 == entries@[j].1,
        decreases entries@.len() - i,
    {
        let (hand, bid) = entries[i];
        batch.push((ScoredHand::new(hand, rules), bid));
        i += 1;
    }
    assert(standings(batch@) =~= scored(entries_of(entries@), rules));
    batch
}

/// Reads a batch from a text and computes its total winnings.
pub fn solve(input: &str, rules: Rules) -> (total: Result<u64, Failure>)
    ensures
        total == match total_of(input@, rules) {
            Ok(sum) => if sum <= u64::MAX {
                Ok(sum as u64)
            } else {
                Err(Failure::Overflow)
            },
            Err(e) => Err(Failure::Parse(e)),
        },
{
    match parse_batch(input, rules) {
        Ok(entries) => {
            let batch = score_batch(&entries, rules);
            match total_winnings(&batch) {
                Some(sum) => Ok(sum),
                None => Err(Failure::Overflow),
            }
        },
        Err(e) => Err(Failure::Parse(e)),
    }
}

/// The total that fits 32 bits, if the text holds a batch with such a total.
pub open spec fn answer_of(text: Seq<char>, rules: Rules) -> Option<u32> {
    match total_of(text, rules) {
        Ok(sum) => if sum <= u32::MAX {
            Some(sum as u32)
        } else {
            None
        },
        Err(_) => None,
    }
}

/// Narrows a total to 32 bits.
fn narrow(total: Result<u64, Failure>) -> (answer: Option<u32>)
    ensures
        answer == match total {
            Ok(sum) => if sum <= u32::MAX {
                Some(sum as u32)
            } else {
                None
            },
            Err(_) => None,
        },
{
    match total {
        Ok(sum) => if sum <= u32::MAX as u64 {
            Some(sum as u32)
        } else {
            None
        },
        Err(_) => None,
    }
}

/// Total winnings under the standard rules, where the jack ranks above the
/// ten. `None` where the text holds no batch or the total does not fit 32 bits.
pub fn part_one(input: &str) -> (answer: Option<u32>)
    ensures
        answer == answer_of(input@, Rules::Standard),
{
    narrow(solve(input, Rules::Standard))
}

/// Total winnings under the wildcard rules, where the jack is a wildcard that
/// ranks below the two. `None` where the text holds no batch or the total
/// does not fit 32 bits.
pub fn part_two(input: &str) -> (answer: Option<u32>)
    ensures
        answer == answer_of(input@, Rules::Wildcard),
{
    narrow(solve(input, Rules::Wildcard))
}

} // verus!
