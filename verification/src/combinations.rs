//! Recognition of card combinations, and the trick: an ordered run of cards
//! that remembers which combination it forms.

use crate::deck::{value_sum, Card, Kind, RegularKind, SpecialKind};
use vstd::prelude::*;
use vstd::slice::slice_subrange;

verus! {

#[derive(Debug, PartialEq, Eq, Copy, Clone, Structural)]
pub enum Combination {
    Singlet,
    Doublet,
    Triplet,
    FullHouse,
    Straight,
    Stairs,
    Bomb,
    StraightFlush,
}

/// Every card groups with the first one.
pub open spec fn all_group(cards: Seq<Card>) -> bool {
    forall|i: int| 0 <= i < cards.len() ==> cards[0].groups_with(#[trigger] cards[i])
}

/// Four ranked cards of one kind. The phoenix cannot stand in.
pub open spec fn is_bomb(cards: Seq<Card>) -> bool {
    &&& cards.len() == 4
    &&& all_group(cards)
    &&& forall|i: int| 0 <= i < cards.len() ==> (#[trigger] cards[i]).is_regular()
}

/// Five cards that split, in the order given, into a pair followed by a
/// triple or a triple followed by a pair, each part a group of equals.
pub open spec fn is_full_house(cards: Seq<Card>) -> bool {
    &&& cards.len() == 5
    &&& {
        ||| all_group(cards.subrange(0, 2)) && all_group(cards.subrange(2, 5))
        ||| all_group(cards.subrange(0, 3)) && all_group(cards.subrange(3, 5))
    }
}

/// Whether `next` may directly follow `card` in a straight: a ranked card is
/// followed by the ranked card one higher or by the phoenix, the phoenix by any
/// ranked card, the one by a two or by the phoenix.
pub open spec fn follows(card: Card, next: Card) -> bool {
    match card.kind {
        Kind::Regular(_) => match next.kind {
            Kind::Regular(_) => card.rank + 1 == next.rank,
            Kind::Special(SpecialKind::Phoenix) => true,
            _ => false,
        },
        Kind::Special(SpecialKind::Phoenix) => next.is_regular(),
        Kind::Special(SpecialKind::One) => next.is_phoenix() || next.kind == Kind::Regular(
            RegularKind::Two,
        ),
        _ => false,
    }
}

/// Each card is followed by one that may follow it. The order is the caller's:
/// nothing is sorted.
pub open spec fn is_straight(cards: Seq<Card>) -> bool {
    forall|i: int, j: int|
        0 <= i && j == i + 1 && j < cards.len() ==> follows(#[trigger] cards[i], #[trigger] cards[j])
}

/// A straight whose cards all have the color of the first.
pub open spec fn is_straight_flush(cards: Seq<Card>) -> bool {
    &&& is_straight(cards)
    &&& forall|i: int| 0 <= i < cards.len() ==> (#[trigger] cards[i]).color == cards[0].color
}

/// The cards at positions `start`, `start + 2`, `start + 4`, ...
pub open spec fn every_second(cards: Seq<Card>, start: int) -> Seq<Card> {
    Seq::new(((cards.len() - start + 1) / 2) as nat, |k: int| cards[start + 2 * k])
}

/// An even number of cards, at least four, that begin with a pair and whose
/// cards at even positions and at odd positions each form a straight.
pub open spec fn is_stairs(cards: Seq<Card>) -> bool {
    &&& cards.len() >= 4
    &&& cards.len() % 2 == 0
    &&& cards[0].groups_with(cards[1])
    &&& is_straight(every_second(cards, 0))
    &&& is_straight(every_second(cards, 1))
}

/// The combination that the cards form in the order given, if any. Up to four
/// cards the number of cards decides which combination they can be. Five cards
/// are a full house before they are a straight flush, and that before they are
/// a straight. More than five cards are a combination only in even number:
/// stairs first, then a straight flush, then a straight. Four cards are never
/// stairs.
pub open spec fn classify(cards: Seq<Card>) -> Option<Combination> {
    if cards.len() == 0 {
        None
    } else if cards.len() == 1 {
        Some(Combination::Singlet)
    } else if cards.len() == 2 {
        if all_group(cards) {
            Some(Combination::Doublet)
        } else {
            None
        }
    } else if cards.len() == 3 {
        if all_group(cards) {
            Some(Combination::Triplet)
        } else {
            None
        }
    } else if cards.len() == 4 {
        if is_bomb(cards) {
            Some(Combination::Bomb)
        } else {
            None
        }
    } else if cards.len() == 5 {
        if is_full_house(cards) {
            Some(Combination::FullHouse)
        } else if is_straight_flush(cards) {
            Some(Combination::StraightFlush)
        } else if is_straight(cards) {
            Some(Combination::Straight)
        } else {
            None
        }
    } else if cards.len() % 2 == 1 {
        None
    } else if is_stairs(cards) {
        Some(Combination::Stairs)
    } else if is_straight_flush(cards) {
        Some(Combination::StraightFlush)
    } else if is_straight(cards) {
        Some(Combination::Straight)
    } else {
        None
    }
}

pub fn check_all_equal(cards: &[Card]) -> (equal: bool)
    ensures
        equal == all_group(cards@),
{
    let mut i: usize = 0;
    while i < cards.len()
        invariant
            i <= cards.len(),
            forall|j: int| 0 <= j < i ==> cards@[0].groups_with(#[trigger] cards@[j]),
        decreases cards.len() - i,
    {
        if !cards[0].check_eq(&cards[i]) {
            return false;
        }
        i += 1;
    }
    true
}

pub fn check_bomb(cards: &[Card]) -> (bomb: bool)
    ensures
        bomb == is_bomb(cards@),
{
    if cards.len() != 4 {
        return false;
    }
    let mut i: usize = 0;
    while i < cards.len()
        invariant
            i <= cards.len(),
            forall|j: int| 0 <= j < i ==> (#[trigger] cards@[j]).is_regular(),
        decreases cards.len() - i,
    {
        match cards[i].kind {
            Kind::Regular(_) => {},
            _ => {
                return false;
            },
        }
        i += 1;
    }
    check_all_equal(cards)
}

pub fn check_fullhouse(cards: &[Card]) -> (full_house: bool)
    ensures
        full_house == is_full_house(cards@),
{
    if cards.len() != 5 {
        return false;
    }
    let first_two = check_all_equal(slice_subrange(cards, 0, 2));
    let last_three = check_all_equal(slice_subrange(cards, 2, 5));
    let first_three = check_all_equal(slice_subrange(cards, 0, 3));
    let last_two = check_all_equal(slice_subrange(cards, 3, 5));
    (first_two && last_three) || (first_three && last_two)
}

/// Decides `follows`.
pub fn check_follows(card: &Card, next: &Card) -> (ok: bool)
    ensures
        ok == follows(*card, *next),
{
    match card.kind {
        Kind::Regular(_) => match next.kind {
            Kind::Regular(_) => card.rank < i16::MAX && card.rank + 1 == next.rank,
            Kind::Special(SpecialKind::Phoenix) => true,
            _ => false,
        },
        Kind::Special(SpecialKind::Phoenix) => match next.kind {
            Kind::Regular(_) => true,
            _ => false,
        },
        Kind::Special(SpecialKind::One) => match next.kind {
            Kind::Special(SpecialKind::Phoenix) => true,
            Kind::Regular(RegularKind::Two) => true,
            _ => false,
        },
        _ => false,
    }
}

pub fn check_straight(cards: &[Card]) -> (straight: bool)
    ensures
        straight == is_straight(cards@),
{
    let mut i: usize = 1;
    while i < cards.len()
        invariant
            1 <= i,
            forall|j: int, k: int|
                0 <= j && k == j + 1 && k < i && k < cards@.len() ==> follows(
                    #[trigger] cards@[j],
                    #[trigger] cards@[k],
                ),
        decreases cards.len() - i,
    {
        if !check_follows(&cards[i - 1], &cards[i]) {
            return false;
        }
        i += 1;
    }
    true
}

pub fn check_straightflush(cards: &[Card]) -> (flush: bool)
    ensures
        flush == is_straight_flush(cards@),
{
    let mut i: usize = 0;
    while i < cards.len()
        invariant
            i <= cards.len(),
            forall|j: int| 0 <= j < i ==> (#[trigger] cards@[j]).color == cards@[0].color,
        decreases cards.len() - i,
    {
        if cards[i].color != cards[0].color {
            return false;
        }
        i += 1;
    }
    check_straight(cards)
}

pub fn check_stairs(cards: &[Card]) -> (stairs: bool)
    ensures
        stairs == is_stairs(cards@),
{
    if cards.len() < 4 || cards.len() % 2 != 0 {
        return false;
    }
    if !cards[0].check_eq(&cards[1]) {
        return false;
    }
    let mut lower: Vec<Card> = Vec::new();
    let mut upper: Vec<Card> = Vec::new();
    let mut i: usize = 0;
    while i < cards.len()
        invariant
            i <= cards.len(),
            i % 2 == 0,
            cards.len() % 2 == 0,
            lower@.len() == i / 2,
            upper@.len() == i / 2,
            forall|k: int| 0 <= k < lower@.len() ==> lower@[k] == cards@[2 * k],
            forall|k: int| 0 <= k < upper@.len() ==> upper@[k] == cards@[1 + 2 * k],
        decreases cards.len() - i,
    {
        lower.push(cards[i]);
        upper.push(cards[i + 1]);
        i += 2;
    }
    assert(lower@ =~= every_second(cards@, 0));
    assert(upper@ =~= every_second(cards@, 1));
    check_straight(lower.as_slice()) && check_straight(upper.as_slice())
}

pub fn find_combination(cards: &[Card]) -> (found: Option<Combination>)
    ensures
        found == classify(cards@),
{
    let n = cards.len();
    if n == 0 {
        None
    } else if n == 1 {
        Some(Combination::Singlet)
    } else if n == 2 {
        if check_all_equal(cards) {
            Some(Combination::Doublet)
        } else {
            None
        }
    } else if n == 3 {
        if check_all_equal(cards) {
            Some(Combination::Triplet)
        } else {
            None
        }
    } else if n == 4 {
        if check_bomb(cards) {
            Some(Combination::Bomb)
        } else {
            None
        }
    } else if n == 5 {
        if check_fullhouse(cards) {
            Some(Combination::FullHouse)
        } else if check_straightflush(cards) {
            Some(Combination::StraightFlush)
        } else if check_straight(cards) {
            Some(Combination::Straight)
        } else {
            None
        }
    } else if n % 2 == 1 {
        None
    } else if check_stairs(cards) {
        Some(Combination::Stairs)
    } else if check_straightflush(cards) {
        Some(Combination::StraightFlush)
    } else if check_straight(cards) {
        Some(Combination::Straight)
    } else {
        None
    }
}

/// Some card is the phoenix.
pub open spec fn has_phoenix(cards: Seq<Card>) -> bool {
    exists|i: int| 0 <= i < cards.len() && (#[trigger] cards[i]).is_phoenix()
}

/// Sum of the cards' ranks.
pub open spec fn rank_sum(cards: Seq<Card>) -> int
    decreases cards.len(),
{
    if cards.len() == 0 {
        0
    } else {
        rank_sum(cards.drop_last()) + cards.last().rank
    }
}

/// Rank of the first card that is not the phoenix, 0 if there is none.
pub open spec fn first_plain_rank(cards: Seq<Card>) -> int
    decreases cards.len(),
{
    if cards.len() == 0 {
        0
    } else if !cards[0].is_phoenix() {
        cards[0].rank as int
    } else {
        first_plain_rank(cards.drop_first())
    }
}

pub open spec fn lower(a: int, b: int) -> int {
    if a <= b {
        a
    } else {
        b
    }
}

pub open spec fn higher(a: int, b: int) -> int {
    if a >= b {
        a
    } else {
        b
    }
}

/// Rank of a full house that holds the phoenix: twice the rank of its pair
/// plus three times the rank of its triple. The five cards are read as a pair
/// and a triple where they split that way, else as a triple and a pair. Where
/// the phoenix stands in the pair, pair and triple count the ranks of their
/// ranked cards. Where it stands in the triple, the cards are two pairs and the
/// phoenix, and the higher pair counts as the triple.
pub open spec fn full_house_rank(cards: Seq<Card>) -> int {
    if all_group(cards.subrange(0, 2)) && all_group(cards.subrange(2, 5)) {
        if !has_phoenix(cards.subrange(0, 2)) {
            let pair = cards[0].rank as int;
            let triple = first_plain_rank(cards.subrange(2, 5));
            2 * lower(pair, triple) + 3 * higher(pair, triple)
        } else {
            2 * first_plain_rank(cards.subrange(0, 2)) + 3 * cards[2].rank
        }
    } else {
        if !has_phoenix(cards.subrange(0, 3)) {
            2 * first_plain_rank(cards.subrange(3, 5)) + 3 * cards[0].rank
        } else {
            let triple = first_plain_rank(cards.subrange(0, 3));
            let pair = cards[3].rank as int;
            2 * lower(triple, pair) + 3 * higher(triple, pair)
        }
    }
}

/// The number by which two tricks of one shape are compared. Without the
/// phoenix it is the sum of the ranks. With it, a pair or triple counts the
/// one rank present for every card, a full house counts `full_house_rank`, and
/// any other shape counts 0.
pub open spec fn total_rank(cards: Seq<Card>) -> int {
    if !has_phoenix(cards) {
        rank_sum(cards)
    } else {
        match classify(cards) {
            Some(Combination::FullHouse) => full_house_rank(cards),
            Some(Combination::Doublet) => 2 * first_plain_rank(cards),
            Some(Combination::Triplet) => 3 * first_plain_rank(cards),
            _ => 0,
        }
    }
}

/// Whether a straight beats another of the same length: by the rank of the
/// first cards, or of the last cards where either straight begins with the
/// phoenix.
pub open spec fn straight_outranks(mine: Seq<Card>, theirs: Seq<Card>) -> bool {
    if mine[0].is_phoenix() || theirs[0].is_phoenix() {
        mine.last().rank > theirs.last().rank
    } else {
        mine[0].rank > theirs[0].rank
    }
}

/// Whether `mine` beats `theirs`: `Some(true)` if it does, `Some(false)` if it
/// loses, `None` if either is no combination or the two cannot be compared.
pub open spec fn beats(mine: Seq<Card>, theirs: Seq<Card>) -> Option<bool> {
    match (classify(mine), classify(theirs)) {
        (Some(m), Some(t)) => {
            if m == Combination::StraightFlush {
                Some(
                    !(t == Combination::StraightFlush && (theirs.len() > mine.len() || (theirs.len()
                        == mine.len() && theirs[0].rank > mine[0].rank))),
                )
            } else if m == Combination::Bomb {
                Some(
                    !(t == Combination::StraightFlush || (t == Combination::Bomb && theirs[0].rank
                        > mine[0].rank)),
                )
            } else if m != t {
                None
            } else if m == Combination::Straight {
                if mine.len() != theirs.len() {
                    Some(mine.len() > theirs.len())
                } else {
                    Some(straight_outranks(mine, theirs))
                }
            } else if m == Combination::Singlet {
                if mine[0].kind == Kind::Special(SpecialKind::Dragon) {
                    Some(true)
                } else if mine[0].is_phoenix() && theirs[0].kind != Kind::Special(
                    SpecialKind::Dragon,
                ) {
                    Some(true)
                } else {
                    Some(mine[0].rank > theirs[0].rank)
                }
            } else {
                Some(total_rank(mine) > total_rank(theirs))
            }
        },
        _ => None,
    }
}

/// Cards in the order they were laid, with the combination they form.
#[derive(Debug)]
pub struct Trick {
    pub combination: Option<Combination>,
    cards: Vec<Card>,
}

impl View for Trick {
    type V = Seq<Card>;

    closed spec fn view(&self) -> Seq<Card> {
        self.cards@
    }
}

fn sum_ranks(cards: &[Card]) -> (sum: i128)
    ensures
        sum == rank_sum(cards@),
{
    let mut sum: i128 = 0;
    let mut i: usize = 0;
    while i < cards.len()
        invariant
            i <= cards.len(),
            sum == rank_sum(cards@.subrange(0, i as int)),
            -32768 * i <= sum <= 32767 * i,
        decreases cards.len() - i,
    {
        assert(cards@.subrange(0, i + 1).drop_last() =~= cards@.subrange(0, i as int));
        sum = sum + cards[i].rank as i128;
        i += 1;
    }
    assert(cards@.subrange(0, i as int) =~= cards@);
    sum
}

impl Trick {
    /// The combination that the trick remembers: its field `combination`.
    pub closed spec fn remembered(&self) -> Option<Combination> {
        self.combination
    }

    /// The remembered combination is the one the cards form.
    pub open spec fn wf(&self) -> bool {
        self.remembered() == classify(self@)
    }

    pub fn new() -> (trick: Trick)
        ensures
            trick@ == Seq::<Card>::empty(),
            trick.remembered() is None,
            trick.wf(),
    {
        Trick { combination: None, cards: Vec::new() }
    }

    pub fn push(&mut self, element: Card)
        ensures
            final(self)@ == old(self)@.push(element),
            final(self).wf(),
    {
        self.cards.push(element);
        self.combination = find_combination(self.cards.as_slice());
    }

    pub fn insert(&mut self, i: usize, element: Card)
        requires
            i <= old(self)@.len(),
        ensures
            final(self)@ == old(self)@.insert(i as int, element),
            final(self).wf(),
    {
        self.cards.insert(i, element);
        self.combination = find_combination(self.cards.as_slice());
    }

    pub fn remove(&mut self, i: usize) -> (removed: Card)
        requires
            i < old(self)@.len(),
        ensures
            removed == old(self)@[i as int],
            final(self)@ == old(self)@.remove(i as int),
            final(self).wf(),
    {
        let removed = self.cards.remove(i);
        self.combination = find_combination(self.cards.as_slice());
        removed
    }

    /// Takes the cards out: the trick returned is what this one was, and this
    /// one is left empty.
    pub fn empty(&mut self) -> (taken: Trick)
        ensures
            taken@ == old(self)@,
            taken.remembered() == old(self).remembered(),
            final(self)@ == Seq::<Card>::empty(),
            final(self).remembered() is None,
            final(self).wf(),
    {
        let combination = self.combination;
        let mut cards: Vec<Card> = Vec::new();
        core::mem::swap(&mut cards, &mut self.cards);
        self.combination = None;
        Trick { combination, cards }
    }

    /// The cards, in order.
    pub fn cards(&self) -> (cards: &Vec<Card>)
        ensures
            cards@ == self@,
    {
        &self.cards
    }

    /// Whether none of the cards is the phoenix.
    pub fn no_phoenix(cards: &[Card]) -> (none: bool)
        ensures
            none == !has_phoenix(cards@),
    {
        let mut i: usize = 0;
        while i < cards.len()
            invariant
                i <= cards.len(),
                forall|j: int| 0 <= j < i ==> !(#[trigger] cards@[j]).is_phoenix(),
            decreases cards.len() - i,
        {
            match cards[i].kind {
                Kind::Special(SpecialKind::Phoenix) => {
                    return false;
                },
                _ => {},
            }
            i += 1;
        }
        true
    }

    /// The rank of the first card that is not the phoenix, 0 if there is none.
    pub fn find_nonphoenix_rank(cards: &[Card]) -> (rank: i16)
        ensures
            rank == first_plain_rank(cards@),
    {
        let mut i: usize = 0;
        assert(cards@.subrange(0, cards@.len() as int) =~= cards@);
        while i < cards.len()
            invariant
                i <= cards.len(),
                first_plain_rank(cards@) == first_plain_rank(cards@.subrange(i as int, cards@.len() as int)),
            decreases cards.len() - i,
        {
            let ghost rest = cards@.subrange(i as int, cards@.len() as int);
            assert(rest[0] == cards@[i as int]);
            match cards[i].kind {
                Kind::Special(SpecialKind::Phoenix) => {
                    assert(rest.drop_first() =~= cards@.subrange(i + 1, cards@.len() as int));
                },
                _ => {
                    return cards[i].rank;
                },
            }
            i += 1;
        }
        assert(cards@.subrange(i as int, cards@.len() as int).len() == 0);
        0
    }

    /// Sum of the cards' point values.
    pub fn points(&self) -> (points: i16)
        requires
            i16::MIN <= value_sum(self@) <= i16::MAX,
        ensures
            points == value_sum(self@),
    {
        let mut sum: i128 = 0;
        let mut i: usize = 0;
        while i < self.cards.len()
            invariant
                i <= self.cards.len(),
                sum == value_sum(self.cards@.subrange(0, i as int)),
                -32768 * i <= sum <= 32767 * i,
            decreases self.cards.len() - i,
        {
            assert(self.cards@.subrange(0, i + 1).drop_last() =~= self.cards@.subrange(0, i as int));
            sum = sum + self.cards[i].value as i128;
            i += 1;
        }
        assert(self.cards@.subrange(0, i as int) =~= self.cards@);
        sum as i16
    }

    pub fn is_valid(&self) -> (valid: bool)
        ensures
            valid == self.remembered() is Some,
    {
        self.combination.is_some()
    }

    /// Computes `total_rank` of the cards.
    pub fn total_rank(&self) -> (rank: i128)
        requires
            self.wf(),
        ensures
            rank == total_rank(self@),
    {
        let cards = self.cards.as_slice();
        if Trick::no_phoenix(cards) {
            return sum_ranks(cards);
        }
        match self.combination {
            Some(Combination::FullHouse) => {
                let first_two = check_all_equal(slice_subrange(cards, 0, 2));
                let last_three = check_all_equal(slice_subrange(cards, 2, 5));
                if first_two && last_three {
                    if Trick::no_phoenix(slice_subrange(cards, 0, 2)) {
                        let pair = cards[0].rank as i128;
                        let triple = Trick::find_nonphoenix_rank(slice_subrange(cards, 2, 5)) as i128;
                        if pair <= triple {
                            2 * pair + 3 * triple
                        } else {
                            2 * triple + 3 * pair
                        }
                    } else {
                        2 * (Trick::find_nonphoenix_rank(slice_subrange(cards, 0, 2)) as i128) + 3 * (
                        cards[2].rank as i128)
                    }
                } else {
                    if Trick::no_phoenix(slice_subrange(cards, 0, 3)) {
                        2 * (Trick::find_nonphoenix_rank(slice_subrange(cards, 3, 5)) as i128) + 3 * (
                        cards[0].rank as i128)
                    } else {
                        let triple = Trick::find_nonphoenix_rank(slice_subrange(cards, 0, 3)) as i128;
                        let pair = cards[3].rank as i128;
                        if triple <= pair {
                            2 * triple + 3 * pair
                        } else {
                            2 * pair + 3 * triple
                        }
                    }
                }
            },
            Some(Combination::Doublet) => 2 * (Trick::find_nonphoenix_rank(cards) as i128),
            Some(Combination::Triplet) => 3 * (Trick::find_nonphoenix_rank(cards) as i128),
            _ => 0,
        }
    }

    /// Decides `beats` for this trick against `other`.
    pub fn tops(&self, other: &Self) -> (verdict: Option<bool>)
        requires
            self.wf(),
            other.wf(),
        ensures
            verdict == beats(self@, other@),
    {
        if self.combination.is_none() || other.combination.is_none() {
            return None;
        }
        let mine = self.combination.unwrap();
        let theirs = other.combination.unwrap();
        let my_len = self.cards.len();
        let their_len = other.cards.len();
        if mine == Combination::StraightFlush {
            Some(
                !(theirs == Combination::StraightFlush && (their_len > my_len || (their_len
                    == my_len && other.cards[0].rank > self.cards[0].rank))),
            )
        } else if mine == Combination::Bomb {
            Some(
                !(theirs == Combination::StraightFlush || (theirs == Combination::Bomb
                    && other.cards[0].rank > self.cards[0].rank)),
            )
        } else if mine != theirs {
            None
        } else if mine == Combination::Straight {
            if my_len != their_len {
                Some(my_len > their_len)
            } else if self.cards[0].kind == Kind::Special(SpecialKind::Phoenix)
                || other.cards[0].kind == Kind::Special(SpecialKind::Phoenix) {
                Some(self.cards[my_len - 1].rank > other.cards[their_len - 1].rank)
            } else {
                Some(self.cards[0].rank > other.cards[0].rank)
            }
        } else if mine == Combination::Singlet {
            if self.cards[0].kind == Kind::Special(SpecialKind::Dragon) {
                Some(true)
            } else if self.cards[0].kind == Kind::Special(SpecialKind::Phoenix)
                && other.cards[0].kind != Kind::Special(SpecialKind::Dragon) {
                Some(true)
            } else {
                Some(self.cards[0].rank > other.cards[0].rank)
            }
        } else {
            Some(self.total_rank() > other.total_rank())
        }
    }
}

/// A single card is always a singlet.
pub proof fn lemma_one_card_is_singlet(card: Card)
    ensures
        classify(seq![card]) == Some(Combination::Singlet),
{
}

/// Two cards are a doublet exactly if the second groups with the first, and
/// nothing else otherwise. The phoenix beside any ranked card is a doublet,
/// whichever comes first.
pub proof fn lemma_doublet(first: Card, second: Card)
    ensures
        classify(seq![first, second]) == Some(Combination::Doublet) <==> first.groups_with(second),
        classify(seq![first, second]) is Some ==> first.groups_with(second),
        first.is_phoenix() && second.is_regular() ==> classify(seq![first, second]) == Some(
            Combination::Doublet,
        ),
        first.is_regular() && second.is_phoenix() ==> classify(seq![first, second]) == Some(
            Combination::Doublet,
        ),
{
    let cards = seq![first, second];
    assert(cards[0] == first && cards[1] == second);
}

/// Three cards are a triplet exactly if the second and the third group with
/// the first. So three ranked cards of one kind are a triplet.
pub proof fn lemma_triplet(a: Card, b: Card, c: Card)
    ensures
        classify(seq![a, b, c]) == Some(Combination::Triplet) <==> a.groups_with(b)
            && a.groups_with(c),
        a.is_regular() && b.kind == a.kind && c.kind == a.kind ==> classify(seq![a, b, c]) == Some(
            Combination::Triplet,
        ),
{
    let cards = seq![a, b, c];
    assert(cards[0] == a && cards[1] == b && cards[2] == c);
}

/// Two ranked cards of one kind and the phoenix are a triplet, wherever the
/// phoenix stands.
pub proof fn lemma_triplet_with_phoenix(a: Card, b: Card, phoenix: Card)
    requires
        a.is_regular(),
        b.kind == a.kind,
        phoenix.is_phoenix(),
    ensures
        classify(seq![a, b, phoenix]) == Some(Combination::Triplet),
        classify(seq![a, phoenix, b]) == Some(Combination::Triplet),
        classify(seq![phoenix, a, b]) == Some(Combination::Triplet),
{
    lemma_triplet(a, b, phoenix);
    lemma_triplet(a, phoenix, b);
    lemma_triplet(phoenix, a, b);
}

/// Three cards that do not begin with the phoenix and hold two ranked cards
/// of different kinds are no triplet: they are no combination at all.
pub proof fn lemma_mixed_ranks_are_no_triplet(cards: Seq<Card>, i: int, j: int)
    requires
        cards.len() == 3,
        !cards[0].is_phoenix(),
        0 <= i < 3,
        0 <= j < 3,
        cards[i].is_regular(),
        cards[j].is_regular(),
        cards[i].kind != cards[j].kind,
    ensures
        classify(cards) is None,
{
    if all_group(cards) {
        assert(cards[0].groups_with(cards[i]));
        assert(cards[0].groups_with(cards[j]));
    }
}

/// Four ranked cards of one kind are a bomb. Four cards with the phoenix
/// among them are no bomb, and no combination at all.
pub proof fn lemma_bomb(cards: Seq<Card>)
    requires
        cards.len() == 4,
    ensures
        (forall|i: int| 0 <= i < 4 ==> (#[trigger] cards[i]).is_regular() && cards[i].kind
            == cards[0].kind) ==> classify(cards) == Some(Combination::Bomb),
        has_phoenix(cards) ==> classify(cards) is None,
{
    if has_phoenix(cards) {
        let i = choose|i: int| 0 <= i < cards.len() && (#[trigger] cards[i]).is_phoenix();
        assert(!cards[i].is_regular());
    }
}

/// A card is of the given ranked kind, or it is the phoenix.
pub open spec fn stands_for(card: Card, kind: RegularKind) -> bool {
    card.kind == Kind::Regular(kind) || card.is_phoenix()
}

/// Five cards, the first two of which are of one ranked kind and the last
/// three of one ranked kind, or the first three and the last two, are a full
/// house; the phoenix may stand in any place.
pub proof fn lemma_full_house(cards: Seq<Card>, front: RegularKind, back: RegularKind)
    requires
        cards.len() == 5,
        stands_for(cards[0], front),
        stands_for(cards[1], front),
        stands_for(cards[2], front) || stands_for(cards[2], back),
        stands_for(cards[3], back),
        stands_for(cards[4], back),
    ensures
        classify(cards) == Some(Combination::FullHouse),
{
    let first_two = cards.subrange(0, 2);
    let last_three = cards.subrange(2, 5);
    let first_three = cards.subrange(0, 3);
    let last_two = cards.subrange(3, 5);
    assert(first_two[0] == cards[0] && first_two[1] == cards[1]);
    assert(last_two[0] == cards[3] && last_two[1] == cards[4]);
    assert(last_three[0] == cards[2] && last_three[1] == cards[3] && last_three[2] == cards[4]);
    assert(first_three[0] == cards[0] && first_three[1] == cards[1] && first_three[2] == cards[2]);
    assert(all_group(first_two));
    assert(all_group(last_two));
    if stands_for(cards[2], back) {
        assert(all_group(last_three));
    } else {
        assert(all_group(first_three));
    }
}

/// Two well-formed ranked cards of different rank do not group.
proof fn lemma_ranks_apart(card: Card, other: Card)
    requires
        card.is_regular(),
        other.is_regular(),
        card.well_formed(),
        other.well_formed(),
        card.rank != other.rank,
    ensures
        !card.groups_with(other),
{
}

/// Five cards whose first two do not group are no full house.
proof fn lemma_needs_a_pair_in_front(cards: Seq<Card>)
    requires
        cards.len() == 5,
        !cards[0].groups_with(cards[1]),
    ensures
        !is_full_house(cards),
{
    let first_two = cards.subrange(0, 2);
    let first_three = cards.subrange(0, 3);
    assert(first_two[0] == cards[0] && first_two[1] == cards[1]);
    assert(first_three[0] == cards[0] && first_three[1] == cards[1]);
}

/// Five ranked cards, each one rank above the one before, are a straight
/// flush if they are of one color and a straight if they are not.
pub proof fn lemma_run_of_five(cards: Seq<Card>)
    requires
        cards.len() == 5,
        forall|i: int| 0 <= i < 5 ==> (#[trigger] cards[i]).is_regular(),
        cards[0].rank + 1 == cards[1].rank,
        cards[1].rank + 1 == cards[2].rank,
        cards[2].rank + 1 == cards[3].rank,
        cards[3].rank + 1 == cards[4].rank,
        forall|i: int| 0 <= i < 5 ==> (#[trigger] cards[i]).well_formed(),
    ensures
        is_straight(cards),
        (forall|i: int| 0 <= i < 5 ==> (#[trigger] cards[i]).color == cards[0].color)
            ==> classify(cards) == Some(Combination::StraightFlush),
        !(forall|i: int| 0 <= i < 5 ==> (#[trigger] cards[i]).color == cards[0].color)
            ==> classify(cards) == Some(Combination::Straight),
{
    assert(cards[2].is_regular() && cards[3].is_regular() && cards[4].is_regular());
    assert(cards[0].is_regular() && cards[1].is_regular());
    assert(cards[0].well_formed() && cards[1].well_formed());
    assert(cards[0].rank + 1 == cards[1].rank);
    lemma_ranks_apart(cards[0], cards[1]);
    lemma_needs_a_pair_in_front(cards);
}

/// A bomb beats every combination but a bomb and a straight flush.
pub proof fn lemma_bomb_beats_plain(bomb: Seq<Card>, other: Seq<Card>)
    requires
        classify(bomb) == Some(Combination::Bomb),
        classify(other) is Some,
        classify(other) != Some(Combination::Bomb),
        classify(other) != Some(Combination::StraightFlush),
    ensures
        beats(bomb, other) == Some(true),
{
}

/// A straight flush beats every bomb, and no bomb beats a straight flush.
pub proof fn lemma_straight_flush_beats_bomb(flush: Seq<Card>, bomb: Seq<Card>)
    requires
        classify(flush) == Some(Combination::StraightFlush),
        classify(bomb) == Some(Combination::Bomb),
    ensures
        beats(flush, bomb) == Some(true),
        beats(bomb, flush) == Some(false),
{
}

/// Of two bombs the one of the higher rank beats the other and is not beaten
/// by it.
pub proof fn lemma_bombs_go_by_rank(mine: Seq<Card>, theirs: Seq<Card>)
    requires
        classify(mine) == Some(Combination::Bomb),
        classify(theirs) == Some(Combination::Bomb),
    ensures
        beats(mine, theirs) == Some(mine[0].rank >= theirs[0].rank),
        mine[0].rank > theirs[0].rank ==> beats(mine, theirs) == Some(true) && beats(theirs, mine)
            == Some(false),
{
}

/// Two combinations of different shape, neither a bomb nor a straight flush,
/// cannot be compared, whichever is asked first.
pub proof fn lemma_different_shapes_do_not_compare(mine: Seq<Card>, theirs: Seq<Card>)
    requires
        classify(mine) is Some,
        classify(theirs) is Some,
        classify(mine) != classify(theirs),
        classify(mine) != Some(Combination::Bomb),
        classify(mine) != Some(Combination::StraightFlush),
        classify(theirs) != Some(Combination::Bomb),
        classify(theirs) != Some(Combination::StraightFlush),
    ensures
        beats(mine, theirs) is None,
        beats(theirs, mine) is None,
{
}

} // verus!
