//! The seven structural categories of a five-card hand and the classifier
//! that maps a hand's rank multiset to its category.

use crate::hand::Hand;
use vstd::multiset::Multiset;
use vstd::prelude::*;

verus! {

/// The structural tier of a hand, weakest first.
#[derive(Clone, Copy, Debug, PartialEq, Eq, Structural, Hash)]
pub enum Category {
    HighCard,
    OnePair,
    TwoPair,
    ThreeOfAKind,
    FullHouse,
    FourOfAKind,
    FiveOfAKind,
}

impl Category {
    /// Position of the tier in the ascending order of tiers, from 1 to 7.
    pub open spec fn strength(self) -> int {
        match self {
            Category::HighCard => 1,
            Category::OnePair => 2,
            Category::TwoPair => 3,
            Category::ThreeOfAKind => 4,
            Category::FullHouse => 5,
            Category::FourOfAKind => 6,
            Category::FiveOfAKind => 7,
        }
    }

    /// The tier's strength as a machine integer.
    pub fn score(self) -> (s: u32)
        ensures
            s == self.strength(),
    {
        match self {
            Category::HighCard => 1,
            Category::OnePair => 2,
            Category::TwoPair => 3,
            Category::ThreeOfAKind => 4,
            Category::FullHouse => 5,
            Category::FourOfAKind => 6,
            Category::FiveOfAKind => 7,
        }
    }
}

/// The strength of a category lies between 1 and 7, and two categories of
/// the same strength are the same category.
pub proof fn lemma_strength_decides_category(a: Category, b: Category)
    ensures
        a.strength() == b.strength() <==> a == b,
        1 <= a.strength() <= 7,
{
}

/// Some rank occurs exactly `size` times in `m`.
pub open spec fn has_group(m: Multiset<u8>, size: nat) -> bool {
    exists|r: u8| m.count(r) == size
}

/// Two different ranks each occur exactly twice in `m`.
pub open spec fn has_two_pairs(m: Multiset<u8>) -> bool {
    exists|r: u8, s: u8| r != s && m.count(r) == 2 && m.count(s) == 2
}

/// The category of a multiset of five ranks, read off the multiplicities of
/// its ranks.
pub open spec fn category_of(m: Multiset<u8>) -> Category {
    if has_group(m, 5) {
        Category::FiveOfAKind
    } else if has_group(m, 4) {
        Category::FourOfAKind
    } else if has_group(m, 3) {
        if has_group(m, 2) {
            Category::FullHouse
        } else {
            Category::ThreeOfAKind
        }
    } else if has_two_pairs(m) {
        Category::TwoPair
    } else if has_group(m, 2) {
        Category::OnePair
    } else {
        Category::HighCard
    }
}

/// Number of index pairs `i < j` of `s` that hold the same rank.
pub open spec fn equal_pairs(s: Seq<u8>) -> nat
    decreases s.len(),
{
    if s.len() == 0 {
        0
    } else {
        equal_pairs(s.drop_last()) + s.drop_last().to_multiset().count(s.last())
    }
}

/// The category that goes with a given number of equal pairs among five cards.
pub open spec fn category_for_pairs(pairs: nat) -> Category {
    if pairs == 0 {
        Category::HighCard
    } else if pairs == 1 {
        Category::OnePair
    } else if pairs == 2 {
        Category::TwoPair
    } else if pairs == 3 {
        Category::ThreeOfAKind
    } else if pairs == 4 {
        Category::FullHouse
    } else if pairs <= 6 {
        Category::FourOfAKind
    } else {
        Category::FiveOfAKind
    }
}

/// One if the card `a` has rank `r`, zero otherwise.
pub open spec fn hit(a: u8, r: u8) -> nat {
    if a == r {
        1
    } else {
        0
    }
}

/// Appending one card raises the count of its rank by one and no other.
proof fn lemma_count_push(s: Seq<u8>, a: u8, r: u8)
    ensures
        s.push(a).to_multiset().count(r) == s.to_multiset().count(r) + hit(a, r),
{
    vstd::seq_lib::to_multiset_build(s, a);
}

/// In a five-card sequence the count of a rank is the number of positions holding it.
pub proof fn lemma_count_five(s: Seq<u8>, r: u8)
    requires
        s.len() == 5,
    ensures
        s.to_multiset().count(r) == hit(s[0], r) + hit(s[1], r) + hit(s[2], r) + hit(s[3], r)
            + hit(s[4], r),
{
    let e = Seq::<u8>::empty();
    assert(e.to_multiset().count(r) == 0) by {
        e.to_multiset_ensures();
        assert(!e.contains(r));
    }
    lemma_count_push(e, s[0], r);
    lemma_count_push(e.push(s[0]), s[1], r);
    lemma_count_push(e.push(s[0]).push(s[1]), s[2], r);
    lemma_count_push(e.push(s[0]).push(s[1]).push(s[2]), s[3], r);
    lemma_count_push(e.push(s[0]).push(s[1]).push(s[2]).push(s[3]), s[4], r);
    assert(s =~= e.push(s[0]).push(s[1]).push(s[2]).push(s[3]).push(s[4]));
}

/// The ten pairwise comparisons of five cards, summed.
pub open spec fn pair_sum(a: u8, b: u8, c: u8, d: u8, e: u8) -> nat {
    hit(a, b) + hit(a, c) + hit(b, c) + hit(a, d) + hit(b, d) + hit(c, d) + hit(a, e) + hit(b, e)
        + hit(c, e) + hit(d, e)
}

/// Among five cards the number of equal pairs is the sum over the ten index pairs.
pub proof fn lemma_pairs_five(s: Seq<u8>)
    requires
        s.len() == 5,
    ensures
        equal_pairs(s) == pair_sum(s[0], s[1], s[2], s[3], s[4]),
{
    let e = Seq::<u8>::empty();
    let s1 = e.push(s[0]);
    let s2 = s1.push(s[1]);
    let s3 = s2.push(s[2]);
    let s4 = s3.push(s[3]);
    let s5 = s4.push(s[4]);
    assert(s =~= s5);
    assert(s5.drop_last() =~= s4);
    assert(s4.drop_last() =~= s3);
    assert(s3.drop_last() =~= s2);
    assert(s2.drop_last() =~= s1);
    assert(s1.drop_last() =~= e);
    assert(equal_pairs(e) == 0);
    assert(e.to_multiset().count(s[0]) == 0) by {
        e.to_multiset_ensures();
        assert(!e.contains(s[0]));
    }
    assert(equal_pairs(s1) == 0);
    assert forall|r: u8| e.to_multiset().count(r) == 0 by {
        e.to_multiset_ensures();
        assert(!e.contains(r));
    }
    lemma_count_push(e, s[0], s[1]);
    assert(equal_pairs(s2) == hit(s[0], s[1]));
    lemma_count_push(e, s[0], s[2]);
    lemma_count_push(s1, s[1], s[2]);
    assert(equal_pairs(s3) == equal_pairs(s2) + hit(s[0], s[2]) + hit(s[1], s[2]));
    lemma_count_push(e, s[0], s[3]);
    lemma_count_push(s1, s[1], s[3]);
    lemma_count_push(s2, s[2], s[3]);
    assert(equal_pairs(s4) == equal_pairs(s3) + hit(s[0], s[3]) + hit(s[1], s[3]) + hit(
        s[2],
        s[3],
    ));
    lemma_count_push(e, s[0], s[4]);
    lemma_count_push(s1, s[1], s[4]);
    lemma_count_push(s2, s[2], s[4]);
    lemma_count_push(s3, s[3], s[4]);
    assert(equal_pairs(s5) == equal_pairs(s4) + hit(s[0], s[4]) + hit(s[1], s[4]) + hit(
        s[2],
        s[4],
    ) + hit(s[3], s[4]));
}

/// Number of the five cards `a` to `e` that have rank `r`.
spec fn among(a: u8, b: u8, c: u8, d: u8, e: u8, r: u8) -> nat {
    hit(a, r) + hit(b, r) + hit(c, r) + hit(d, r) + hit(e, r)
}

/// One of the five cards belongs to a group of exactly `k` equal cards.
spec fn card_in_group(a: u8, b: u8, c: u8, d: u8, e: u8, k: nat) -> bool {
    ||| among(a, b, c, d, e, a) == k
    ||| among(a, b, c, d, e, b) == k
    ||| among(a, b, c, d, e, c) == k
    ||| among(a, b, c, d, e, d) == k
    ||| among(a, b, c, d, e, e) == k
}

/// The cards `x` and `y` differ in rank and each belongs to a group of exactly two.
spec fn two_pairs_at(a: u8, b: u8, c: u8, d: u8, e: u8, x: u8, y: u8) -> bool {
    x != y && among(a, b, c, d, e, x) == 2 && among(a, b, c, d, e, y) == 2
}

/// Two of the five cards differ in rank and each belongs to a group of exactly two.
spec fn cards_in_two_pairs(a: u8, b: u8, c: u8, d: u8, e: u8) -> bool {
    ||| two_pairs_at(a, b, c, d, e, a, b)
    ||| two_pairs_at(a, b, c, d, e, a, c)
    ||| two_pairs_at(a, b, c, d, e, a, d)
    ||| two_pairs_at(a, b, c, d, e, a, e)
    ||| two_pairs_at(a, b, c, d, e, b, c)
    ||| two_pairs_at(a, b, c, d, e, b, d)
    ||| two_pairs_at(a, b, c, d, e, b, e)
    ||| two_pairs_at(a, b, c, d, e, c, d)
    ||| two_pairs_at(a, b, c, d, e, c, e)
    ||| two_pairs_at(a, b, c, d, e, d, e)
}

/// A group of a positive size exists exactly when one of the five cards lies in it.
proof fn lemma_group_has_card(s: Seq<u8>, k: nat)
    requires
        s.len() == 5,
        k >= 1,
    ensures
        has_group(s.to_multiset(), k) == card_in_group(s[0], s[1], s[2], s[3], s[4], k),
{
    let m = s.to_multiset();
    lemma_count_five(s, s[0]);
    lemma_count_five(s, s[1]);
    lemma_count_five(s, s[2]);
    lemma_count_five(s, s[3]);
    lemma_count_five(s, s[4]);
    if has_group(m, k) {
        let r = choose|r: u8| m.count(r) == k;
        lemma_count_five(s, r);
    }
}

/// Two ranks that each occur twice among the five cards make two pairs.
proof fn lemma_two_pairs_from(s: Seq<u8>, x: u8, y: u8)
    requires
        s.len() == 5,
        two_pairs_at(s[0], s[1], s[2], s[3], s[4], x, y),
    ensures
        has_two_pairs(s.to_multiset()),
{
    lemma_count_five(s, x);
    lemma_count_five(s, y);
    assert(s.to_multiset().count(x) == 2 && s.to_multiset().count(y) == 2);
}

/// Two pairs exist exactly when two cards of different rank each lie in a pair.
proof fn lemma_two_pairs_have_cards(s: Seq<u8>)
    requires
        s.len() == 5,
    ensures
        has_two_pairs(s.to_multiset()) == cards_in_two_pairs(s[0], s[1], s[2], s[3], s[4]),
{
    let m = s.to_multiset();
    if has_two_pairs(m) {
        let (x, y) = choose|x: u8, y: u8| x != y && m.count(x) == 2 && m.count(y) == 2;
        lemma_count_five(s, x);
        lemma_count_five(s, y);
        assert(two_pairs_at(s[0], s[1], s[2], s[3], s[4], x, y));
        assert(two_pairs_at(s[0], s[1], s[2], s[3], s[4], y, x));
        assert(x == s[0] || x == s[1] || x == s[2] || x == s[3] || x == s[4]);
        assert(y == s[0] || y == s[1] || y == s[2] || y == s[3] || y == s[4]);
    }
    if two_pairs_at(s[0], s[1], s[2], s[3], s[4], s[0], s[1]) {
        lemma_two_pairs_from(s, s[0], s[1]);
    }
    if two_pairs_at(s[0], s[1], s[2], s[3], s[4], s[0], s[2]) {
        lemma_two_pairs_from(s, s[0], s[2]);
    }
    if two_pairs_at(s[0], s[1], s[2], s[3], s[4], s[0], s[3]) {
        lemma_two_pairs_from(s, s[0], s[3]);
    }
    if two_pairs_at(s[0], s[1], s[2], s[3], s[4], s[0], s[4]) {
        lemma_two_pairs_from(s, s[0], s[4]);
    }
    if two_pairs_at(s[0], s[1], s[2], s[3], s[4], s[1], s[2]) {
        lemma_two_pairs_from(s, s[1], s[2]);
    }
    if two_pairs_at(s[0], s[1], s[2], s[3], s[4], s[1], s[3]) {
        lemma_two_pairs_from(s, s[1], s[3]);
    }
    if two_pairs_at(s[0], s[1], s[2], s[3], s[4], s[1], s[4]) {
        lemma_two_pairs_from(s, s[1], s[4]);
    }
    if two_pairs_at(s[0], s[1], s[2], s[3], s[4], s[2], s[3]) {
        lemma_two_pairs_from(s, s[2], s[3]);
    }
    if two_pairs_at(s[0], s[1], s[2], s[3], s[4], s[2], s[4]) {
        lemma_two_pairs_from(s, s[2], s[4]);
    }
    if two_pairs_at(s[0], s[1], s[2], s[3], s[4], s[3], s[4]) {
        lemma_two_pairs_from(s, s[3], s[4]);
    }
}

/// The number of equal pairs among five cards decides their category.
pub proof fn lemma_pairs_decide_category(s: Seq<u8>)
    requires
        s.len() == 5,
    ensures
        category_of(s.to_multiset()) == category_for_pairs(equal_pairs(s)),
        equal_pairs(s) <= 10,
{
    lemma_pairs_five(s);
    lemma_group_has_card(s, 5);
    lemma_group_has_card(s, 4);
    lemma_group_has_card(s, 3);
    lemma_group_has_card(s, 2);
    lemma_two_pairs_have_cards(s);
    lemma_shapes(s[0], s[1], s[2], s[3], s[4]);
}

/// What the number of equal pairs among five cards says of their groups.
spec fn shapes_hold(a: u8, b: u8, c: u8, d: u8, e: u8) -> bool {
    let pairs = pair_sum(a, b, c, d, e);
    let five = card_in_group(a, b, c, d, e, 5);
    let four = card_in_group(a, b, c, d, e, 4);
    let three = card_in_group(a, b, c, d, e, 3);
    let two = card_in_group(a, b, c, d, e, 2);
    let two_pairs = cards_in_two_pairs(a, b, c, d, e);
    &&& pairs <= 6 || pairs == 10
    &&& pairs != 5
    &&& five <==> pairs == 10
    &&& four <==> pairs == 6
    &&& three && two <==> pairs == 4
    &&& three && !two <==> pairs == 3
    &&& two_pairs && !three <==> pairs == 2
    &&& two && !two_pairs && !three <==> pairs == 1
}

/// The shapes of five cards whose first two are equal.
#[verifier::rlimit(100)]
proof fn lemma_shapes_first_two_equal(a: u8, b: u8, c: u8, d: u8, e: u8)
    requires
        a == b,
    ensures
        shapes_hold(a, b, c, d, e),
{
}

/// The shapes of five cards whose first two differ.
#[verifier::rlimit(100)]
proof fn lemma_shapes_first_two_differ(a: u8, b: u8, c: u8, d: u8, e: u8)
    requires
        a != b,
    ensures
        shapes_hold(a, b, c, d, e),
{
}

/// Every way in which five cards can coincide, with its number of equal pairs.
proof fn lemma_shapes(a: u8, b: u8, c: u8, d: u8, e: u8)
    ensures
        shapes_hold(a, b, c, d, e),
{
    if a == b {
        lemma_shapes_first_two_equal(a, b, c, d, e);
    } else {
        lemma_shapes_first_two_differ(a, b, c, d, e);
    }
}

/// `order` lists the five positions of a hand, each of them once.
pub open spec fn is_rearrangement(order: Seq<int>) -> bool {
    &&& order.len() == 5
    &&& forall|i: int| 0 <= i < 5 ==> 0 <= #[trigger] order[i] < 5
    &&& forall|i: int, j: int| 0 <= i < j < 5 ==> #[trigger] order[i] != #[trigger] order[j]
}

/// The cards of a hand taken in the given order of its positions.
pub open spec fn rearranged(cards: Seq<u8>, order: Seq<int>) -> Seq<u8> {
    Seq::new(5, |i: int| cards[order[i]])
}

/// Taking the five cards in another order leaves every rank as frequent as it was.
pub proof fn lemma_rearranged_holds_the_same_ranks(cards: Seq<u8>, order: Seq<int>)
    requires
        cards.len() == 5,
        is_rearrangement(order),
    ensures
        rearranged(cards, order).to_multiset() == cards.to_multiset(),
{
    let other = rearranged(cards, order);
    assert forall|r: u8| other.to_multiset().count(r) == cards.to_multiset().count(r) by {
        lemma_count_five(cards, r);
        lemma_count_five(other, r);
        lemma_positions_taken_once(order, 0);
        lemma_positions_taken_once(order, 1);
        lemma_positions_taken_once(order, 2);
        lemma_positions_taken_once(order, 3);
        lemma_positions_taken_once(order, 4);
        lemma_sum_in_another_order(
            order,
            hit(cards[0], r) as int,
            hit(cards[1], r) as int,
            hit(cards[2], r) as int,
            hit(cards[3], r) as int,
            hit(cards[4], r) as int,
        );
    }
    assert(other.to_multiset() =~= cards.to_multiset());
}

/// The one of five numbers that stands at position `at`.
spec fn pick(at: int, a: int, b: int, c: int, d: int, e: int) -> int {
    if at == 0 {
        a
    } else if at == 1 {
        b
    } else if at == 2 {
        c
    } else if at == 3 {
        d
    } else {
        e
    }
}

/// One if the place holds the position `at`, zero otherwise.
spec fn taken(place: int, at: int) -> int {
    if place == at {
        1
    } else {
        0
    }
}

/// How many places of `order` hold the position `at`.
spec fn times_taken(order: Seq<int>, at: int) -> int {
    taken(order[0], at) + taken(order[1], at) + taken(order[2], at) + taken(order[3], at) + taken(
        order[4],
        at,
    )
}

/// A rearrangement takes every position exactly once.
proof fn lemma_positions_taken_once(order: Seq<int>, at: int)
    requires
        is_rearrangement(order),
        0 <= at < 5,
    ensures
        times_taken(order, at) == 1,
{
    assert(times_taken(order, 0) + times_taken(order, 1) + times_taken(order, 2) + times_taken(
        order,
        3,
    ) + times_taken(order, 4) == 5);
    assert(times_taken(order, 0) <= 1);
    assert(times_taken(order, 1) <= 1);
    assert(times_taken(order, 2) <= 1);
    assert(times_taken(order, 3) <= 1);
    assert(times_taken(order, 4) <= 1);
}

/// Five numbers add up to the same sum in any order.
proof fn lemma_sum_in_another_order(order: Seq<int>, a: int, b: int, c: int, d: int, e: int)
    requires
        is_rearrangement(order),
        times_taken(order, 0) == 1,
        times_taken(order, 1) == 1,
        times_taken(order, 2) == 1,
        times_taken(order, 3) == 1,
        times_taken(order, 4) == 1,
    ensures
        pick(order[0], a, b, c, d, e) + pick(order[1], a, b, c, d, e) + pick(
            order[2],
            a,
            b,
            c,
            d,
            e,
        ) + pick(order[3], a, b, c, d, e) + pick(order[4], a, b, c, d, e) == a + b + c + d + e,
{
}

/// The category of a hand does not depend on the order of its five cards.
pub proof fn lemma_category_ignores_order(cards: Seq<u8>, order: Seq<int>)
    requires
        cards.len() == 5,
        is_rearrangement(order),
    ensures
        category_of(rearranged(cards, order).to_multiset()) == category_of(cards.to_multiset()),
{
    lemma_rearranged_holds_the_same_ranks(cards, order);
}

/// More equal pairs never give a weaker category.
pub proof fn lemma_more_pairs_not_weaker(fewer: nat, more: nat)
    requires
        fewer <= more,
    ensures
        category_for_pairs(fewer).strength() <= category_for_pairs(more).strength(),
{
}

/// Classifies a hand by the multiplicities of its ranks; the order of the
/// five cards plays no part.
pub fn classify(hand: &Hand) -> (category: Category)
    ensures
        category == category_of(hand@.to_multiset()),
{
    let ghost cards = hand@;
    let mut pairs: u8 = 0;
    let mut i: usize = 0;
    while i < 5
        invariant
            i <= 5,
            cards == hand@,
            cards.len() == 5,
            pairs == equal_pairs(cards.take(i as int)),
            pairs <= 4 * i,
        decreases 5 - i,
    {
        let mut seen: u8 = 0;
        let mut j: usize = 0;
        proof {
            cards.take(0).to_multiset_ensures();
            assert(!cards.take(0).contains(cards[i as int]));
        }
        while j < i
            invariant
                j <= i < 5,
                cards == hand@,
                cards.len() == 5,
                seen == cards.take(j as int).to_multiset().count(cards[i as int]),
                seen <= j,
            decreases i - j,
        {
            proof {
                assert(cards.take(j + 1) =~= cards.take(j as int).push(cards[j as int]));
                lemma_count_push(cards.take(j as int), cards[j as int], cards[i as int]);
            }
            if hand.card(j) == hand.card(i) {
                seen += 1;
            }
            j += 1;
        }
        proof {
            assert(cards.take(i + 1).drop_last() =~= cards.take(i as int));
            assert(cards.take(i + 1).last() == cards[i as int]);
        }
        pairs += seen;
        i += 1;
    }
    proof {
        assert(cards.take(5) =~= cards);
        lemma_pairs_decide_category(cards);
    }
    category_with_pairs(pairs)
}

/// The table from the number of equal pairs to the category.
fn category_with_pairs(pairs: u8) -> (category: Category)
    ensures
        category == category_for_pairs(pairs as nat),
{
    if pairs == 0 {
        Category::HighCard
    } else if pairs == 1 {
        Category::OnePair
    } else if pairs == 2 {
        Category::TwoPair
    } else if pairs == 3 {
        Category::ThreeOfAKind
    } else if pairs == 4 {
        Category::FullHouse
    } else if pairs <= 6 {
        Category::FourOfAKind
    } else {
        Category::FiveOfAKind
    }
}

} // verus!
