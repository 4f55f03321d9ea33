//! The card rank model: thirteen face values as small integers, and the two
//! alphabets that map a printed symbol to its rank.

use vstd::prelude::*;

verus! {

/// The rank that stands for a wildcard. It is lower than every other rank.
pub const WILDCARD: u8 = 1;

/// The rank of the jack when it is an ordinary card.
pub const JACK: u8 = 11;

/// Which alphabet is in force.
#[derive(Clone, Copy, Debug, PartialEq, Eq, Structural, Hash)]
pub enum Rules {
    /// The jack is an ordinary card that ranks above the ten.
    Standard,
    /// The jack is a wildcard that ranks below the two.
    Wildcard,
}

/// The rank that a printed symbol stands for, if it is one of the thirteen
/// symbols of the alphabet.
pub open spec fn symbol_rank(symbol: char, rules: Rules) -> Option<u8> {
    if '2' <= symbol <= '9' {
        Some((symbol as u32 - '0' as u32) as u8)
    } else if symbol == 'T' {
        Some(10u8)
    } else if symbol == 'J' {
        match rules {
            Rules::Standard => Some(JACK),
            Rules::Wildcard => Some(WILDCARD),
        }
    } else if symbol == 'Q' {
        Some(12u8)
    } else if symbol == 'K' {
        Some(13u8)
    } else if symbol == 'A' {
        Some(14u8)
    } else {
        None
    }
}

/// A rank that some symbol of the alphabet stands for under `rules`.
pub open spec fn is_rank(rank: u8, rules: Rules) -> bool {
    match rules {
        Rules::Standard => 2 <= rank <= 14,
        Rules::Wildcard => 1 <= rank <= 14 && rank != JACK,
    }
}

/// Maps a printed symbol to its rank; `None` for a symbol outside the alphabet.
pub fn rank_of_symbol(symbol: char, rules: Rules) -> (rank: Option<u8>)
    ensures
        rank == symbol_rank(symbol, rules),
        rank matches Some(r) ==> is_rank(r, rules),
{
    if '2' <= symbol && symbol <= '9' {
        Some((symbol as u32 - '0' as u32) as u8)
    } else if symbol == 'T' {
        Some(10)
    } else if symbol == 'J' {
        match rules {
            Rules::Standard => Some(JACK),
            Rules::Wildcard => Some(WILDCARD),
        }
    } else if symbol == 'Q' {
        Some(12)
    } else if symbol == 'K' {
        Some(13)
    } else if symbol == 'A' {
        Some(14)
    } else {
        None
    }
}

/// Under the wildcard rules no rank of the alphabet is lower than the wildcard.
pub proof fn lemma_wildcard_is_lowest(rank: u8)
    requires
        is_rank(rank, Rules::Wildcard),
    ensures
        WILDCARD <= rank,
        rank != WILDCARD ==> WILDCARD < rank,
{
}

/// Every rank of an alphabet is the rank of one of its symbols.
pub proof fn lemma_every_rank_has_a_symbol(rank: u8, rules: Rules)
    requires
        is_rank(rank, rules),
    ensures
        exists|symbol: char| symbol_rank(symbol, rules) == Some(rank),
{
    if 2 <= rank <= 9 {
        let symbol = (rank + 48) as char;
        assert(symbol_rank(symbol, rules) == Some(rank));
    } else if rank == 10 {
        assert(symbol_rank('T', rules) == Some(rank));
    } else if rank == 12 {
        assert(symbol_rank('Q', rules) == Some(rank));
    } else if rank == 13 {
        assert(symbol_rank('K', rules) == Some(rank));
    } else if rank == 14 {
        assert(symbol_rank('A', rules) == Some(rank));
    } else {
        assert(symbol_rank('J', rules) == Some(rank));
    }
}

} // verus!
