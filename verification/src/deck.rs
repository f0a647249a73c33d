//! The cards of the game and the deck they come from.

use vstd::prelude::*;

verus! {

/// The twelve ranked kinds, lowest first.
#[derive(Debug, PartialEq, Eq, Copy, Clone, Hash, Structural)]
pub enum RegularKind {
    Two,
    Three,
    Four,
    Five,
    Six,
    Seven,
    Eight,
    Nine,
    Ten,
    Jack,
    Queen,
    King,
}

/// The four cards that exist once each.
#[derive(Debug, PartialEq, Eq, Copy, Clone, Hash, Structural)]
pub enum SpecialKind {
    Dragon,
    Phoenix,
    Dog,
    One,
}

#[derive(Debug, PartialEq, Eq, Copy, Clone, Hash, Structural)]
pub enum Kind {
    Special(SpecialKind),
    Regular(RegularKind),
}

#[derive(Debug, PartialEq, Eq, Copy, Clone, Hash, Structural)]
pub enum Color {
    Black,
    Blue,
    Green,
    Red,
}

/// One physical card. `rank` orders cards, `value` is what the card is worth
/// when a round is scored; both follow from `kind` in a well-formed card.
#[derive(Debug, PartialEq, Eq, Copy, Clone, Hash, Structural)]
pub struct Card {
    pub kind: Kind,
    pub color: Option<Color>,
    pub rank: i16,
    pub value: i16,
}

impl RegularKind {
    /// Position among the ranked kinds, `Two` being 0.
    pub open spec fn ordinal(self) -> int {
        match self {
            RegularKind::Two => 0,
            RegularKind::Three => 1,
            RegularKind::Four => 2,
            RegularKind::Five => 3,
            RegularKind::Six => 4,
            RegularKind::Seven => 5,
            RegularKind::Eight => 6,
            RegularKind::Nine => 7,
            RegularKind::Ten => 8,
            RegularKind::Jack => 9,
            RegularKind::Queen => 10,
            RegularKind::King => 11,
        }
    }

    /// Rank of a card of this kind: 2 for `Two` up to 13 for `King`.
    pub open spec fn rank(self) -> int {
        self.ordinal() + 2
    }

    /// Points of a card of this kind: fives count 5, tens and kings 10.
    pub open spec fn value(self) -> int {
        match self {
            RegularKind::Five => 5,
            RegularKind::Ten => 10,
            RegularKind::King => 10,
            _ => 0,
        }
    }
}

impl SpecialKind {
    /// The dragon outranks every ranked card; the other three rank 0.
    pub open spec fn rank(self) -> int {
        match self {
            SpecialKind::Dragon => 14,
            _ => 0,
        }
    }

    /// The dragon is worth 25, the phoenix costs 25.
    pub open spec fn value(self) -> int {
        match self {
            SpecialKind::Dragon => 25,
            SpecialKind::Phoenix => -25,
            _ => 0,
        }
    }
}

/// The ranked card of the given kind and color.
pub open spec fn regular_card(kind: RegularKind, color: Color) -> Card {
    Card {
        kind: Kind::Regular(kind),
        color: Some(color),
        rank: kind.rank() as i16,
        value: kind.value() as i16,
    }
}

/// The special card of the given kind.
pub open spec fn special_card(kind: SpecialKind) -> Card {
    Card {
        kind: Kind::Special(kind),
        color: None,
        rank: kind.rank() as i16,
        value: kind.value() as i16,
    }
}

impl Card {
    /// A card is well formed when color, rank and value are those its kind
    /// prescribes.
    pub open spec fn well_formed(self) -> bool {
        match self.kind {
            Kind::Regular(k) => self.color is Some && self == regular_card(k, self.color->0),
            Kind::Special(k) => self == special_card(k),
        }
    }

    pub open spec fn is_regular(self) -> bool {
        self.kind is Regular
    }

    pub open spec fn is_phoenix(self) -> bool {
        self.kind == Kind::Special(SpecialKind::Phoenix)
    }

    /// Whether `other` may stand beside `self` in a group of equals: the kinds
    /// are the same, or one is the phoenix and the other a ranked card. The
    /// relation is symmetric but not transitive, so it is only ever applied
    /// against one fixed anchor card.
    pub open spec fn groups_with(self, other: Card) -> bool {
        ||| self.kind == other.kind
        ||| self.is_phoenix() && other.is_regular()
        ||| self.is_regular() && other.is_phoenix()
    }

    pub fn regular(kind: RegularKind, color: Color) -> (card: Card)
        ensures
            card == regular_card(kind, color),
            card.well_formed(),
    {
        let rank: i16 = match kind {
            RegularKind::Two => 2,
            RegularKind::Three => 3,
            RegularKind::Four => 4,
            RegularKind::Five => 5,
            RegularKind::Six => 6,
            RegularKind::Seven => 7,
            RegularKind::Eight => 8,
            RegularKind::Nine => 9,
            RegularKind::Ten => 10,
            RegularKind::Jack => 11,
            RegularKind::Queen => 12,
            RegularKind::King => 13,
        };
        let value: i16 = match kind {
            RegularKind::Five => 5,
            RegularKind::Ten => 10,
            RegularKind::King => 10,
            _ => 0,
        };
        Card { kind: Kind::Regular(kind), color: Some(color), rank, value }
    }

    pub fn special(kind: SpecialKind) -> (card: Card)
        ensures
            card == special_card(kind),
            card.well_formed(),
    {
        let rank: i16 = match kind {
            SpecialKind::Dragon => 14,
            _ => 0,
        };
        let value: i16 = match kind {
            SpecialKind::Dragon => 25,
            SpecialKind::Phoenix => -25,
            _ => 0,
        };
        Card { kind: Kind::Special(kind), color: None, rank, value }
    }

    /// Decides `groups_with`.
    pub fn check_eq(&self, other: &Self) -> (same: bool)
        ensures
            same == self.groups_with(*other),
    {
        match self.kind {
            Kind::Special(SpecialKind::Phoenix) => match other.kind {
                Kind::Regular(_) => true,
                _ => self.kind == other.kind,
            },
            Kind::Regular(_) => match other.kind {
                Kind::Special(SpecialKind::Phoenix) => true,
                _ => self.kind == other.kind,
            },
            _ => self.kind == other.kind,
        }
    }
}

/// Sum of the cards' point values.
pub open spec fn value_sum(cards: Seq<Card>) -> int
    decreases cards.len(),
{
    if cards.len() == 0 {
        0
    } else {
        value_sum(cards.drop_last()) + cards.last().value
    }
}

/// The color of the `i`-th suit of a fresh deck.
pub open spec fn suit_color(i: int) -> Color {
    if i == 0 {
        Color::Green
    } else if i == 1 {
        Color::Red
    } else if i == 2 {
        Color::Blue
    } else {
        Color::Black
    }
}

/// The ranked kind at position `i` of a suit, `Two` first.
pub open spec fn suit_kind(i: int) -> RegularKind {
    if i == 0 {
        RegularKind::Two
    } else if i == 1 {
        RegularKind::Three
    } else if i == 2 {
        RegularKind::Four
    } else if i == 3 {
        RegularKind::Five
    } else if i == 4 {
        RegularKind::Six
    } else if i == 5 {
        RegularKind::Seven
    } else if i == 6 {
        RegularKind::Eight
    } else if i == 7 {
        RegularKind::Nine
    } else if i == 8 {
        RegularKind::Ten
    } else if i == 9 {
        RegularKind::Jack
    } else if i == 10 {
        RegularKind::Queen
    } else {
        RegularKind::King
    }
}

/// The special kind at position `i` behind the four suits.
pub open spec fn special_kind(i: int) -> SpecialKind {
    if i == 0 {
        SpecialKind::Dragon
    } else if i == 1 {
        SpecialKind::Phoenix
    } else if i == 2 {
        SpecialKind::Dog
    } else {
        SpecialKind::One
    }
}

/// The card at position `i` of a fresh deck: four suits of twelve ranked
/// cards, green, red, blue, black, then the four special cards.
pub open spec fn fresh_card(i: int) -> Card {
    if i < 48 {
        regular_card(suit_kind(i % 12), suit_color(i / 12))
    } else {
        special_card(special_kind(i - 48))
    }
}

/// The 52 cards of the game in the order in which a new deck holds them.
pub open spec fn fresh_deck() -> Seq<Card> {
    Seq::new(52, |i: int| fresh_card(i))
}

/// The hand that seat `seat` gets when `cards` are dealt round the table one
/// by one: the cards at positions `seat`, `seat + 4`, `seat + 8`, ...
pub open spec fn dealt_hand(cards: Seq<Card>, seat: int) -> Seq<Card> {
    Seq::new(((cards.len() - seat + 3) / 4) as nat, |k: int| cards[seat + 4 * k])
}

fn color_of_suit(i: usize) -> (color: Color)
    requires
        i < 4,
    ensures
        color == suit_color(i as int),
{
    if i == 0 {
        Color::Green
    } else if i == 1 {
        Color::Red
    } else if i == 2 {
        Color::Blue
    } else {
        Color::Black
    }
}

fn kind_in_suit(i: usize) -> (kind: RegularKind)
    requires
        i < 12,
    ensures
        kind == suit_kind(i as int),
{
    if i == 0 {
        RegularKind::Two
    } else if i == 1 {
        RegularKind::Three
    } else if i == 2 {
        RegularKind::Four
    } else if i == 3 {
        RegularKind::Five
    } else if i == 4 {
        RegularKind::Six
    } else if i == 5 {
        RegularKind::Seven
    } else if i == 6 {
        RegularKind::Eight
    } else if i == 7 {
        RegularKind::Nine
    } else if i == 8 {
        RegularKind::Ten
    } else if i == 9 {
        RegularKind::Jack
    } else if i == 10 {
        RegularKind::Queen
    } else {
        RegularKind::King
    }
}

fn special_at(i: usize) -> (kind: SpecialKind)
    requires
        i < 4,
    ensures
        kind == special_kind(i as int),
{
    if i == 0 {
        SpecialKind::Dragon
    } else if i == 1 {
        SpecialKind::Phoenix
    } else if i == 2 {
        SpecialKind::Dog
    } else {
        SpecialKind::One
    }
}

/// Puts the cards into a random order. The call is
/// `rand::seq::SliceRandom::shuffle` on the vector's slice, with the generator
/// that `rand::thread_rng` hands out. The shuffle does nothing but swap two
/// elements of the slice at a time, so whatever the generator yields the
/// vector holds afterwards the cards it held before, each as often as before.
/// Nothing is claimed of their order. (The generator fails only where the
/// system provides no seed for it.)
#[verifier::external_body]
fn shuffle_cards(cards: &mut Vec<Card>)
    ensures
        final(cards)@.to_multiset() == old(cards)@.to_multiset(),
{
    rand::seq::SliceRandom::shuffle(cards.as_mut_slice(), &mut rand::thread_rng());
}

/// The cards of the game, in the order in which they are dealt.
pub struct Deck {
    pub cards: Vec<Card>,
}

impl Deck {
    /// The deck holds the cards of the game, each once, in some order.
    pub open spec fn wf(&self) -> bool {
        self.cards@.to_multiset() == fresh_deck().to_multiset()
    }

    pub fn new() -> (deck: Deck)
        ensures
            deck.cards@ == fresh_deck(),
            deck.wf(),
    {
        let mut cards: Vec<Card> = Vec::new();
        let mut suit: usize = 0;
        while suit < 4
            invariant
                suit <= 4,
                cards@.len() == 12 * suit,
                forall|i: int| 0 <= i < cards@.len() ==> cards@[i] == fresh_card(i),
            decreases 4 - suit,
        {
            let color = color_of_suit(suit);
            let mut position: usize = 0;
            while position < 12
                invariant
                    suit < 4,
                    position <= 12,
                    color == suit_color(suit as int),
                    cards@.len() == 12 * suit + position,
                    forall|i: int| 0 <= i < cards@.len() ==> cards@[i] == fresh_card(i),
                decreases 12 - position,
            {
                cards.push(Card::regular(kind_in_suit(position), color));
                position += 1;
            }
            suit += 1;
        }
        let mut special: usize = 0;
        while special < 4
            invariant
                special <= 4,
                cards@.len() == 48 + special,
                forall|i: int| 0 <= i < cards@.len() ==> cards@[i] == fresh_card(i),
            decreases 4 - special,
        {
            cards.push(Card::special(special_at(special)));
            special += 1;
        }
        assert(cards@ =~= fresh_deck());
        Deck { cards }
    }

    /// Puts the cards into a random order: the deck holds the same cards
    /// afterwards.
    pub fn shuffle(&mut self)
        ensures
            final(self).cards@.to_multiset() == old(self).cards@.to_multiset(),
            old(self).wf() ==> final(self).wf(),
    {
        shuffle_cards(&mut self.cards);
    }

    /// Deals the cards round the table one by one, the first to seat 0.
    pub fn deal(&self) -> (hands: [Vec<Card>; 4])
        ensures
            forall|seat: int| 0 <= seat < 4 ==> (#[trigger] hands[seat])@ == dealt_hand(self.cards@, seat),
    {
        let mut first: Vec<Card> = Vec::new();
        let mut second: Vec<Card> = Vec::new();
        let mut third: Vec<Card> = Vec::new();
        let mut fourth: Vec<Card> = Vec::new();
        let mut i: usize = 0;
        while i < self.cards.len()
            invariant
                i <= self.cards.len(),
                first@.len() == (i + 3) / 4,
                second@.len() == (i + 2) / 4,
                third@.len() == (i + 1) / 4,
                fourth@.len() == i / 4,
                forall|k: int| 0 <= k < first@.len() ==> first@[k] == self.cards@[4 * k],
                forall|k: int| 0 <= k < second@.len() ==> second@[k] == self.cards@[1 + 4 * k],
                forall|k: int| 0 <= k < third@.len() ==> third@[k] == self.cards@[2 + 4 * k],
                forall|k: int| 0 <= k < fourth@.len() ==> fourth@[k] == self.cards@[3 + 4 * k],
            decreases self.cards.len() - i,
        {
            let card = self.cards[i];
            if i % 4 == 0 {
                first.push(card);
            } else if i % 4 == 1 {
                second.push(card);
            } else if i % 4 == 2 {
                third.push(card);
            } else {
                fourth.push(card);
            }
            i += 1;
        }
        assert(first@ =~= dealt_hand(self.cards@, 0));
        assert(second@ =~= dealt_hand(self.cards@, 1));
        assert(third@ =~= dealt_hand(self.cards@, 2));
        assert(fourth@ =~= dealt_hand(self.cards@, 3));
        [first, second, third, fourth]
    }
}

/// The value of the first `n` cards of a fresh deck: 25 for each whole suit,
/// within a suit 5 past the five, 10 past the ten and 10 past the king, and
/// behind the suits the dragon's 25 and the phoenix's -25.
spec fn fresh_prefix_value(n: int) -> int {
    if n <= 48 {
        25 * (n / 12) + (if n % 12 > 3 {
            5int
        } else {
            0
        }) + (if n % 12 > 8 {
            10int
        } else {
            0
        })
    } else if n == 49 {
        125
    } else {
        100
    }
}

proof fn lemma_fresh_prefix_value(n: int)
    requires
        0 <= n <= 52,
    ensures
        value_sum(fresh_deck().subrange(0, n)) == fresh_prefix_value(n),
    decreases n,
{
    let prefix = fresh_deck().subrange(0, n);
    if n > 0 {
        lemma_fresh_prefix_value(n - 1);
        assert(prefix.drop_last() =~= fresh_deck().subrange(0, n - 1));
        assert(prefix.last() == fresh_card(n - 1));
    }
}

/// Where a card of the game stands in a fresh deck.
spec fn fresh_position(card: Card) -> int {
    match card.kind {
        Kind::Regular(kind) => kind.ordinal() + 12 * (match card.color {
            Some(Color::Green) => 0int,
            Some(Color::Red) => 1,
            Some(Color::Blue) => 2,
            _ => 3,
        }),
        Kind::Special(SpecialKind::Dragon) => 48,
        Kind::Special(SpecialKind::Phoenix) => 49,
        Kind::Special(SpecialKind::Dog) => 50,
        Kind::Special(SpecialKind::One) => 51,
    }
}

proof fn lemma_fresh_position(i: int)
    requires
        0 <= i < 52,
    ensures
        fresh_position(fresh_card(i)) == i,
        fresh_card(i).well_formed(),
{
}

spec fn add_value() -> spec_fn(int, Card) -> int {
    |sum: int, card: Card| sum + card.value
}

proof fn lemma_value_sum_is_fold(cards: Seq<Card>)
    ensures
        value_sum(cards) == cards.fold_left(0int, add_value()),
    decreases cards.len(),
{
    if cards.len() > 0 {
        lemma_value_sum_is_fold(cards.drop_last());
    }
}

/// The point value of a run of cards does not depend on their order.
pub proof fn lemma_value_sum_permutation(a: Seq<Card>, b: Seq<Card>)
    requires
        a.to_multiset() == b.to_multiset(),
    ensures
        value_sum(a) == value_sum(b),
{
    lemma_value_sum_is_fold(a);
    lemma_value_sum_is_fold(b);
    vstd::seq_lib::lemma_fold_left_permutation(a, b, add_value(), 0int);
}

/// The hands that are dealt from a run of cards are together worth what the
/// cards are worth.
pub proof fn lemma_dealt_hands_value(cards: Seq<Card>)
    ensures
        value_sum(dealt_hand(cards, 0)) + value_sum(dealt_hand(cards, 1)) + value_sum(
            dealt_hand(cards, 2),
        ) + value_sum(dealt_hand(cards, 3)) == value_sum(cards),
    decreases cards.len(),
{
    if cards.len() == 0 {
        assert(dealt_hand(cards, 0).len() == 0);
        assert(dealt_hand(cards, 1).len() == 0);
        assert(dealt_hand(cards, 2).len() == 0);
        assert(dealt_hand(cards, 3).len() == 0);
    } else {
        let rest = cards.drop_last();
        lemma_dealt_hands_value(rest);
        let seat = rest.len() as int % 4;
        assert forall|s: int| 0 <= s < 4 implies value_sum(#[trigger] dealt_hand(cards, s))
            == value_sum(dealt_hand(rest, s)) + (if s == seat {
            cards.last().value as int
        } else {
            0
        }) by {
            if s == seat {
                assert(dealt_hand(cards, s).drop_last() =~= dealt_hand(rest, s));
                assert(dealt_hand(cards, s).last() == cards.last());
            } else {
                assert(dealt_hand(cards, s) =~= dealt_hand(rest, s));
            }
        }
    }
}

/// Whatever the order of the deck's cards: there are 52 of them and none
/// occurs twice, each of the four hands dealt from them gets 13, no card
/// reaches two places in the hands, and deck and hands are worth 100 points.
pub proof fn lemma_deal_full_deck(cards: Seq<Card>)
    requires
        cards.to_multiset() == fresh_deck().to_multiset(),
    ensures
        cards.len() == 52,
        cards.no_duplicates(),
        forall|i: int| 0 <= i < cards.len() ==> (#[trigger] cards[i]).well_formed(),
        forall|seat: int| 0 <= seat < 4 ==> (#[trigger] dealt_hand(cards, seat)).len() == 13,
        forall|s1: int, k1: int, s2: int, k2: int|
            0 <= s1 < 4 && 0 <= s2 < 4 && 0 <= k1 < 13 && 0 <= k2 < 13 && (s1 != s2 || k1 != k2)
                ==> #[trigger] dealt_hand(cards, s1)[k1] != #[trigger] dealt_hand(cards, s2)[k2],
        value_sum(cards) == 100,
        value_sum(dealt_hand(cards, 0)) + value_sum(dealt_hand(cards, 1)) + value_sum(
            dealt_hand(cards, 2),
        ) + value_sum(dealt_hand(cards, 3)) == 100,
{
    broadcast use vstd::seq_lib::group_to_multiset_ensures;

    let fresh = fresh_deck();
    assert(cards.len() == 52) by {
        assert(cards.to_multiset().len() == cards.len());
        assert(fresh.to_multiset().len() == fresh.len());
    }
    assert(fresh.no_duplicates()) by {
        assert forall|i: int, j: int| 0 <= i < fresh.len() && 0 <= j < fresh.len() && i != j implies fresh[i] != fresh[j] by {
            lemma_fresh_position(i);
            lemma_fresh_position(j);
        }
    }
    fresh.lemma_multiset_has_no_duplicates();
    cards.lemma_multiset_has_no_duplicates_conv();
    assert forall|i: int| 0 <= i < cards.len() implies (#[trigger] cards[i]).well_formed() by {
        assert(cards.to_multiset().count(cards[i]) > 0);
        assert(fresh.contains(cards[i]));
        let j = choose|j: int| 0 <= j < fresh.len() && fresh[j] == cards[i];
        lemma_fresh_position(j);
    }
    assert(value_sum(fresh) == 100) by {
        lemma_fresh_prefix_value(52);
        assert(fresh.subrange(0, 52) =~= fresh);
    }
    lemma_value_sum_permutation(cards, fresh);
    lemma_dealt_hands_value(cards);
}

} // verus!
