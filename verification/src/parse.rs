//! The text format of a batch: one entry per line, each a hand of exactly
//! five symbols, one or more blanks, and a bid in decimal digits.
//!
//! The text must start with an entry, and after every line break either the
//! text ends or a further entry stands: a hand of fewer or more than five
//! symbols, a symbol outside the alphabet, or a hand without a bid is an
//! error on whatever line it stands.
//!
//! Two things end the batch without an error, and what follows them is not
//! read: a character other than a line break right after the digits of a
//! bid, and, after the first line, a bid that does not fit 32 bits.

use crate::hand::Hand;
use crate::rank::{rank_of_symbol, symbol_rank, Rules};
use vstd::prelude::*;
use vstd::std_specs::iter::IteratorSpec;

verus! {

/// Why a text holds no batch.
#[derive(Clone, Copy, Debug, PartialEq, Eq, Structural, Hash)]
pub enum ParseError {
    /// A hand is not exactly five symbols of the alphabet.
    MalformedHand,
    /// A hand is not followed by blanks and a bid, or the bid of the first
    /// hand does not fit 32 bits.
    MalformedBid,
}

/// A space or a tab.
pub open spec fn is_blank(c: char) -> bool {
    c == ' ' || c == '\t'
}

/// A decimal digit.
pub open spec fn is_digit(c: char) -> bool {
    '0' <= c <= '9'
}

/// The value of a decimal digit.
pub open spec fn digit_value(c: char) -> nat {
    (c as u32 - '0' as u32) as nat
}

/// Where the longest run of blanks that starts at `from` ends.
pub open spec fn blanks_end(s: Seq<char>, from: int) -> int
    decreases s.len() - from,
{
    if 0 <= from < s.len() && is_blank(s[from]) {
        blanks_end(s, from + 1)
    } else {
        from
    }
}

/// Where the longest run of digits that starts at `from` ends.
pub open spec fn digits_end(s: Seq<char>, from: int) -> int
    decreases s.len() - from,
{
    if 0 <= from < s.len() && is_digit(s[from]) {
        digits_end(s, from + 1)
    } else {
        from
    }
}

/// The number that the digits of `s` from `from` up to `to` spell.
pub open spec fn decimal(s: Seq<char>, from: int, to: int) -> nat
    decreases to - from,
{
    if to <= from {
        0
    } else {
        decimal(s, from, to - 1) * 10 + digit_value(s[to - 1])
    }
}

/// The five characters from `at` on are all symbols of the alphabet.
pub open spec fn symbols_at(s: Seq<char>, at: int, rules: Rules) -> bool {
    forall|i: int| 0 <= i < 5 ==> (#[trigger] symbol_rank(s[at + i], rules)) is Some
}

/// The ranks that the five symbols from `at` on stand for.
pub open spec fn ranks_at(s: Seq<char>, at: int, rules: Rules) -> Seq<u8> {
    Seq::new(5, |i: int| symbol_rank(s[at + i], rules).unwrap())
}

/// What stands at a place where an entry may start.
pub enum Line {
    /// Fewer than five characters are left.
    Short,
    /// Five characters are there, and one of them is no symbol.
    BadSymbol,
    /// Five symbols are there, and a sixth character where a blank should
    /// stand.
    LongHand,
    /// A hand is there, without blanks and digits after it.
    NoBid,
    /// A hand, blanks and digits are there, and the number does not fit 32 bits.
    Oversized,
    /// An entry, and the place just after its last digit.
    Entry { cards: Seq<u8>, bid: u32, end: int },
}

/// Reads one entry at `at`.
pub open spec fn line_at(s: Seq<char>, at: int, rules: Rules) -> Line {
    if s.len() < at + 5 {
        Line::Short
    } else if !symbols_at(s, at, rules) {
        Line::BadSymbol
    } else {
        let number = blanks_end(s, at + 5);
        let end = digits_end(s, number);
        if number == at + 5 {
            if at + 5 < s.len() && s[at + 5] != '\n' {
                Line::LongHand
            } else {
                Line::NoBid
            }
        } else if end == number {
            Line::NoBid
        } else if decimal(s, number, end) > u32::MAX {
            Line::Oversized
        } else {
            Line::Entry { cards: ranks_at(s, at, rules), bid: decimal(s, number, end) as u32, end }
        }
    }
}

/// A run of blanks ends within the text, at its first character that is no blank.
pub proof fn lemma_blanks_end(s: Seq<char>, from: int)
    requires
        0 <= from <= s.len(),
    ensures
        from <= blanks_end(s, from) <= s.len(),
        forall|i: int| from <= i < blanks_end(s, from) ==> is_blank(#[trigger] s[i]),
        blanks_end(s, from) < s.len() ==> !is_blank(s[blanks_end(s, from)]),
    decreases s.len() - from,
{
    if from < s.len() && is_blank(s[from]) {
        lemma_blanks_end(s, from + 1);
    }
}

/// A run of digits ends within the text, at its first character that is no digit.
pub proof fn lemma_digits_end(s: Seq<char>, from: int)
    requires
        0 <= from <= s.len(),
    ensures
        from <= digits_end(s, from) <= s.len(),
        forall|i: int| from <= i < digits_end(s, from) ==> is_digit(#[trigger] s[i]),
        digits_end(s, from) < s.len() ==> !is_digit(s[digits_end(s, from)]),
    decreases s.len() - from,
{
    if from < s.len() && is_digit(s[from]) {
        lemma_digits_end(s, from + 1);
    }
}

/// An entry is at least eight characters long and ends within the text.
pub proof fn lemma_entry_end(s: Seq<char>, at: int, rules: Rules)
    requires
        0 <= at,
    ensures
        line_at(s, at, rules) matches Line::Entry { end, .. } ==> at + 7 <= end <= s.len(),
{
    if s.len() >= at + 5 {
        lemma_blanks_end(s, at + 5);
        lemma_digits_end(s, blanks_end(s, at + 5));
    }
}

/// The entries that follow an entry which ended at `at`: none unless a line
/// break stands there; none after a line break that ends the text.
pub open spec fn entries_after(s: Seq<char>, at: int, rules: Rules) -> Result<
    Seq<(Seq<u8>, u32)>,
    ParseError,
>
    decreases s.len() - at,
{
    if 0 <= at < s.len() && s[at] == '\n' && at + 1 < s.len() {
        match line_at(s, at + 1, rules) {
            Line::Entry { cards, bid, end } => {
                proof {
                    lemma_entry_end(s, at + 1, rules);
                }
                match entries_after(s, end, rules) {
                    Ok(rest) => Ok(seq![(cards, bid)] + rest),
                    Err(e) => Err(e),
                }
            },
            Line::Short | Line::BadSymbol | Line::LongHand => Err(ParseError::MalformedHand),
            Line::NoBid => Err(ParseError::MalformedBid),
            Line::Oversized => Ok(Seq::empty()),
        }
    } else {
        Ok(Seq::empty())
    }
}

/// The batch that a text holds: its first entry and those that follow it.
pub open spec fn batch_of(s: Seq<char>, rules: Rules) -> Result<Seq<(Seq<u8>, u32)>, ParseError> {
    match line_at(s, 0, rules) {
        Line::Entry { cards, bid, end } => match entries_after(s, end, rules) {
            Ok(rest) => Ok(seq![(cards, bid)] + rest),
            Err(e) => Err(e),
        },
        Line::Short | Line::BadSymbol | Line::LongHand => Err(ParseError::MalformedHand),
        Line::NoBid | Line::Oversized => Err(ParseError::MalformedBid),
    }
}

/// The entries of an executable batch as plain values.
pub open spec fn entries_of(batch: Seq<(Hand, u32)>) -> Seq<(Seq<u8>, u32)> {
    batch.map_values(|entry: (Hand, u32)| (entry.0@, entry.1))
}

/// The characters of a text, one by one.
fn collect_chars(input: &str) -> (chars: Vec<char>)
    ensures
        chars@ == input@,
{
    broadcast use vstd::string::axiom_spec_iter, vstd::string::next_postcondition;

    let mut chars: Vec<char> = Vec::new();
    let mut rest = input.chars();
    loop
        invariant
            chars@ + rest.remaining() == input@,
        ensures
            chars@ == input@,
        decreases input@.len() - chars@.len(),
    {
        let ghost before = rest.remaining();
        match rest.next() {
            Some(c) => {
                proof {
                    assert(chars@.push(c) + before.drop_first() =~= chars@ + before);
                }
                chars.push(c);
            },
            None => {
                proof {
                    assert(chars@ + before =~= chars@);
                }
                break ;
            },
        }
    }
    chars
}

/// A number spelt by more digits is no smaller.
proof fn lemma_decimal_grows(s: Seq<char>, from: int, mid: int, to: int)
    requires
        from <= mid <= to,
    ensures
        decimal(s, from, mid) <= decimal(s, from, to),
    decreases to - mid,
{
    if mid < to {
        lemma_decimal_grows(s, from, mid, to - 1);
    }
}

/// Skips the blanks that start at `from`.
fn skip_blanks(chars: &Vec<char>, from: usize) -> (end: usize)
    requires
        from <= chars@.len(),
    ensures
        end == blanks_end(chars@, from as int),
        from <= end <= chars@.len(),
{
    let mut i: usize = from;
    while i < chars.len() && (chars[i] == ' ' || chars[i] == '\t')
        invariant
            from <= i <= chars@.len(),
            blanks_end(chars@, i as int) == blanks_end(chars@, from as int),
        decreases chars@.len() - i,
    {
        i += 1;
    }
    i
}

/// What was read where a bid should stand.
enum Bid {
    Missing,
    Oversized,
    Value { value: u32, end: usize },
}

/// Reads the number that starts at `from`: its value and the place after its
/// last digit, unless no digit stands there or the number does not fit
/// 32 bits.
fn read_bid(chars: &Vec<char>, from: usize) -> (bid: Bid)
    requires
        from <= chars@.len(),
    ensures
        match bid {
            Bid::Value { value, end } => {
                &&& end == digits_end(chars@, from as int)
                &&& from < end <= chars@.len()
                &&& value == decimal(chars@, from as int, end as int)
            },
            Bid::Missing => digits_end(chars@, from as int) == from,
            Bid::Oversized => {
                &&& digits_end(chars@, from as int) != from
                &&& decimal(chars@, from as int, digits_end(chars@, from as int)) > u32::MAX
            },
        },
{
    let mut i: usize = from;
    let mut value: u32 = 0;
    while i < chars.len() && '0' <= chars[i] && chars[i] <= '9'
        invariant
            from <= i <= chars@.len(),
            digits_end(chars@, i as int) == digits_end(chars@, from as int),
            value == decimal(chars@, from as int, i as int),
        decreases chars@.len() - i,
    {
        let digit: u32 = chars[i] as u32 - '0' as u32;
        let wide: u64 = value as u64 * 10 + digit as u64;
        assert(wide == decimal(chars@, from as int, i + 1));
        if wide > u32::MAX as u64 {
            proof {
                lemma_digits_end(chars@, i + 1);
                lemma_decimal_grows(
                    chars@,
                    from as int,
                    i + 1,
                    digits_end(chars@, from as int),
                );
            }
            return Bid::Oversized;
        }
        value = wide as u32;
        i += 1;
    }
    if i == from {
        Bid::Missing
    } else {
        Bid::Value { value, end: i }
    }
}

/// Reads the five symbols that start at `at`; `None` where one of them is
/// outside the alphabet.
fn read_hand(chars: &Vec<char>, at: usize, rules: Rules) -> (hand: Option<Hand>)
    requires
        at + 5 <= chars@.len(),
    ensures
        hand is Some == symbols_at(chars@, at as int, rules),
        hand matches Some(h) ==> h@ == ranks_at(chars@, at as int, rules),
{
    let mut cards: [u8; 5] = [0, 0, 0, 0, 0];
    let length = chars.len();
    let mut i: usize = 0;
    while i < 5
        invariant
            i <= 5,
            at + 5 <= chars@.len() == length,
            forall|j: int|
                0 <= j < i ==> (#[trigger] symbol_rank(chars@[at + j], rules)) == Some(cards@[j]),
        decreases 5 - i,
    {
        match rank_of_symbol(chars[at + i], rules) {
            Some(rank) => {
                cards[i] = rank;
            },
            None => {
                assert(symbol_rank(chars@[at + i], rules) is None);
                return None;
            },
        }
        i += 1;
    }
    let hand = Hand::new(cards);
    assert(hand@ =~= ranks_at(chars@, at as int, rules));
    Some(hand)
}

/// What was read at a place where an entry may start.
enum Read {
    Short,
    BadSymbol,
    LongHand,
    NoBid,
    Oversized,
    Entry { hand: Hand, bid: u32, end: usize },
}

/// The plain values of what was read.
spec fn line_of(read: Read) -> Line {
    match read {
        Read::Short => Line::Short,
        Read::BadSymbol => Line::BadSymbol,
        Read::LongHand => Line::LongHand,
        Read::NoBid => Line::NoBid,
        Read::Oversized => Line::Oversized,
        Read::Entry { hand, bid, end } => Line::Entry { cards: hand@, bid, end: end as int },
    }
}

/// Reads one entry at `at`.
fn read_line(chars: &Vec<char>, at: usize, rules: Rules) -> (read: Read)
    requires
        at <= chars@.len(),
    ensures
        line_of(read) == line_at(chars@, at as int, rules),
{
    if chars.len() - at < 5 {
        return Read::Short;
    }
    let hand = match read_hand(chars, at, rules) {
        Some(hand) => hand,
        None => {
            return Read::BadSymbol;
        },
    };
    let number = skip_blanks(chars, at + 5);
    if number == at + 5 {
        if at + 5 < chars.len() && chars[at + 5] != '\n' {
            return Read::LongHand;
        }
        return Read::NoBid;
    }
    match read_bid(chars, number) {
        Bid::Value { value, end } => Read::Entry { hand, bid: value, end },
        Bid::Missing => Read::NoBid,
        Bid::Oversized => Read::Oversized,
    }
}

/// The batch that follows the first entries `before` once more entries `after` are read.
spec fn joined(before: Seq<(Seq<u8>, u32)>, after: Result<Seq<(Seq<u8>, u32)>, ParseError>) -> Result<
    Seq<(Seq<u8>, u32)>,
    ParseError,
> {
    match after {
        Ok(rest) => Ok(before + rest),
        Err(e) => Err(e),
    }
}

/// Reads a batch from the characters of a text.
pub fn parse_chars(chars: &Vec<char>, rules: Rules) -> (batch: Result<Vec<(Hand, u32)>, ParseError>)
    ensures
        match batch {
            Ok(entries) => batch_of(chars@, rules) == Ok::<_, ParseError>(entries_of(entries@)),
            Err(e) => batch_of(chars@, rules) == Err::<Seq<(Seq<u8>, u32)>, _>(e),
        },
{
    let ghost s = chars@;
    let mut entries: Vec<(Hand, u32)> = Vec::new();
    let mut at: usize;
    match read_line(chars, 0, rules) {
        Read::Entry { hand, bid, end } => {
            proof {
                lemma_entry_end(s, 0, rules);
                assert(entries_of(entries@.push((hand, bid))) =~= seq![(hand@, bid)]);
            }
            entries.push((hand, bid));
            at = end;
        },
        Read::Short | Read::BadSymbol | Read::LongHand => {
            return Err(ParseError::MalformedHand);
        },
        Read::NoBid | Read::Oversized => {
            return Err(ParseError::MalformedBid);
        },
    }
    while at < chars.len() && chars[at] == '\n'
        invariant
            s == chars@,
            at <= s.len(),
            batch_of(s, rules) == joined(entries_of(entries@), entries_after(s, at as int, rules)),
        decreases s.len() - at,
    {
        let next: usize = at + 1;
        if next == chars.len() {
            proof {
                assert(entries_of(entries@) + Seq::empty() =~= entries_of(entries@));
            }
            return Ok(entries);
        }
        match read_line(chars, next, rules) {
            Read::Entry { hand, bid, end } => {
                proof {
                    lemma_entry_end(s, at + 1, rules);
                    assert(entries_of(entries@.push((hand, bid))) =~= entries_of(entries@).push(
                        (hand@, bid),
                    ));
                    match entries_after(s, end as int, rules) {
                        Ok(rest) => {
                            assert(entries_of(entries@).push((hand@, bid)) + rest =~= entries_of(
                                entries@,
                            ) + (seq![(hand@, bid)] + rest));
                        },
                        Err(_) => {},
                    }
                }
                entries.push((hand, bid));
                at = end;
            },
            Read::Short | Read::BadSymbol | Read::LongHand => {
                return Err(ParseError::MalformedHand);
            },
            Read::NoBid => {
                return Err(ParseError::MalformedBid);
            },
            Read::Oversized => {
                proof {
                    assert(entries_of(entries@) + Seq::empty() =~= entries_of(entries@));
                }
                return Ok(entries);
            },
        }
    }
    proof {
        assert(entries_of(entries@) + Seq::empty() =~= entries_of(entries@));
    }
    Ok(entries)
}

/// Reads the batch that a text holds.
pub fn parse_batch(input: &str, rules: Rules) -> (batch: Result<Vec<(Hand, u32)>, ParseError>)
    ensures
        match batch {
            Ok(entries) => batch_of(input@, rules) == Ok::<_, ParseError>(entries_of(entries@)),
            Err(e) => batch_of(input@, rules) == Err::<Seq<(Seq<u8>, u32)>, _>(e),
        },
{
    let chars = collect_chars(input);
    parse_chars(&chars, rules)
}

} // verus!
