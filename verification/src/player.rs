//! A player's hand and the rule that decides whether the cards the player
//! names may be played.

use crate::combinations::{beats, classify, Trick};
use crate::deck::Card;
use std::collections::HashMap;
use vstd::prelude::*;

verus! {

broadcast use vstd::std_specs::hash::group_hash_axioms;

/// Why a play was turned down.
#[derive(Debug, PartialEq, Eq, Copy, Clone)]
pub enum PlayerError {
    /// An id names no card of the hand.
    InvalidCard,
    /// The cards form no combination.
    NotValid,
    /// The cards lose against the trick on the table.
    TooLow,
    /// The cards cannot be compared with the trick on the table.
    Incompatible,
}

/// A seat at the table: the cards in hand, each under the id it got when the
/// hand was taken up, and the name the player gave.
pub struct Player {
    hand: HashMap<usize, Card>,
    pub username: String,
}

impl View for Player {
    type V = Map<usize, Card>;

    /// The hand: the cards held, by id.
    closed spec fn view(&self) -> Map<usize, Card> {
        self.hand@
    }
}

/// Every id names a card of the hand.
pub open spec fn all_held(hand: Map<usize, Card>, ids: Seq<usize>) -> bool {
    forall|i: int| 0 <= i < ids.len() ==> hand.contains_key(#[trigger] ids[i])
}

/// The cards that the ids name, in the order of the ids.
pub open spec fn picked(hand: Map<usize, Card>, ids: Seq<usize>) -> Seq<Card> {
    Seq::new(ids.len(), |i: int| hand[ids[i]])
}

/// What stands against playing the cards that `ids` name from `hand`, onto an
/// empty table (`to_top` is `None`) or onto the trick `to_top`: nothing, if
/// every id is held and the cards form a combination, respectively beat the
/// trick.
pub open spec fn objection(hand: Map<usize, Card>, to_top: Option<Seq<Card>>, ids: Seq<usize>) -> Option<PlayerError> {
    if !all_held(hand, ids) {
        Some(PlayerError::InvalidCard)
    } else {
        match to_top {
            None => if classify(picked(hand, ids)) is Some {
                None
            } else {
                Some(PlayerError::NotValid)
            },
            Some(table) => match beats(picked(hand, ids), table) {
                Some(true) => None,
                Some(false) => Some(PlayerError::TooLow),
                None => Some(PlayerError::Incompatible),
            },
        }
    }
}

/// The cards of a trick, if there is one.
pub open spec fn cards_of(trick: Option<&Trick>) -> Option<Seq<Card>> {
    match trick {
        Some(t) => Some(t@),
        None => None,
    }
}

/// The hand in which the cards of `hand` have the ids 0, 1, 2, ...
pub open spec fn numbered(hand: Seq<Card>) -> Map<usize, Card> {
    Map::new(|id: usize| id < hand.len(), |id: usize| hand[id as int])
}

impl Player {
    /// Every card in hand is well formed.
    pub open spec fn wf(&self) -> bool {
        forall|id: usize| self@.contains_key(id) ==> (#[trigger] self@[id]).well_formed()
    }

    /// The name the player gave.
    pub closed spec fn name(&self) -> Seq<char> {
        self.username@
    }

    pub fn new(username: String) -> (player: Player)
        ensures
            player@ == Map::<usize, Card>::empty(),
            player.name() == username@,
    {
        Player { hand: HashMap::new(), username }
    }

    /// Takes up a hand: its cards get the ids 0, 1, 2, ... in order, and a card
    /// held before keeps its id unless a new card gets it.
    pub fn take_new_hand(&mut self, hand: Vec<Card>)
        ensures
            final(self)@ == old(self)@.union_prefer_right(numbered(hand@)),
            final(self).name() == old(self).name(),
    {
        let mut id: usize = 0;
        while id < hand.len()
            invariant
                id <= hand.len(),
                self.hand@ == old(self).hand@.union_prefer_right(numbered(hand@.subrange(0, id as int))),
                self.username == old(self).username,
            decreases hand.len() - id,
        {
            self.hand.insert(id, hand[id]);
            assert(self.hand@ =~= old(self).hand@.union_prefer_right(
                numbered(hand@.subrange(0, id + 1)),
            ));
            id += 1;
        }
        assert(hand@.subrange(0, id as int) =~= hand@);
    }

    /// Plays the cards that `cards` names, in that order, onto the trick
    /// `trick_to_top`, or onto an empty table where there is none. If nothing
    /// stands against it the cards leave the hand and come back as a trick;
    /// else the hand stays as it is and the error says what stood against it.
    pub fn play(&mut self, trick_to_top: Option<&Trick>, cards: &Vec<usize>) -> (played: Result<
        Trick,
        PlayerError,
    >)
        requires
            trick_to_top matches Some(t) ==> t.wf(),
        ensures
            final(self).name() == old(self).name(),
            match played {
                Ok(trick) => {
                    &&& objection(old(self)@, cards_of(trick_to_top), cards@) is None
                    &&& trick@ == picked(old(self)@, cards@)
                    &&& trick.wf()
                    &&& final(self)@ == old(self)@.remove_keys(cards@.to_set())
                },
                Err(error) => {
                    &&& objection(old(self)@, cards_of(trick_to_top), cards@) == Some(error)
                    &&& final(self)@ == old(self)@
                },
            },
    {
        let mut own_trick = Trick::new();
        let mut i: usize = 0;
        while i < cards.len()
            invariant
                i <= cards.len(),
                self.hand@ == old(self).hand@,
                self.username == old(self).username,
                own_trick.wf(),
                own_trick@ == picked(self.hand@, cards@.subrange(0, i as int)),
                all_held(self.hand@, cards@.subrange(0, i as int)),
            decreases cards.len() - i,
        {
            match self.hand.get(&cards[i]) {
                Some(card) => {
                    own_trick.push(*card);
                },
                None => {
                    return Err(PlayerError::InvalidCard);
                },
            }
            assert(own_trick@ =~= picked(self.hand@, cards@.subrange(0, i + 1)));
            i += 1;
        }
        assert(cards@.subrange(0, i as int) =~= cards@);
        match trick_to_top {
            None => {
                if own_trick.is_valid() {
                    self.remove_cards(cards);
                    Ok(own_trick)
                } else {
                    Err(PlayerError::NotValid)
                }
            },
            Some(trick) => match own_trick.tops(trick) {
                Some(true) => {
                    self.remove_cards(cards);
                    Ok(own_trick)
                },
                Some(false) => Err(PlayerError::TooLow),
                None => Err(PlayerError::Incompatible),
            },
        }
    }

    /// Drops from the hand every card that `cards` names.
    fn remove_cards(&mut self, cards: &Vec<usize>)
        ensures
            final(self)@ == old(self)@.remove_keys(cards@.to_set()),
            final(self).name() == old(self).name(),
    {
        let mut i: usize = 0;
        assert(self.hand@ =~= old(self).hand@.remove_keys(cards@.subrange(0, 0).to_set()));
        while i < cards.len()
            invariant
                i <= cards.len(),
                self.hand@ == old(self).hand@.remove_keys(cards@.subrange(0, i as int).to_set()),
                self.username == old(self).username,
            decreases cards.len() - i,
        {
            self.hand.remove(&cards[i]);
            assert(cards@.subrange(0, i + 1).to_set() =~= cards@.subrange(0, i as int).to_set().insert(
                cards@[i as int],
            )) by {
                let shorter = cards@.subrange(0, i as int);
                let longer = cards@.subrange(0, i + 1);
                assert(longer =~= shorter.push(cards@[i as int]));
                assert forall|id: usize| longer.to_set().contains(id) <==> shorter.to_set().insert(cards@[i as int]).contains(id) by {
                    if longer.contains(id) {
                        let k = choose|k: int| 0 <= k < longer.len() && longer[k] == id;
                        if k < i {
                            assert(shorter[k] == id);
                        }
                    }
                    if shorter.contains(id) {
                        let k = choose|k: int| 0 <= k < shorter.len() && shorter[k] == id;
                        assert(longer[k] == id);
                    }
                    if id == cards@[i as int] {
                        assert(longer[i as int] == id);
                    }
                }
            }
            assert(self.hand@ =~= old(self).hand@.remove_keys(
                cards@.subrange(0, i + 1).to_set(),
            ));
            i += 1;
        }
        assert(cards@.subrange(0, i as int) =~= cards@);
    }

    pub fn has_cards(&self) -> (has: bool)
        ensures
            has == (self@.len() > 0),
    {
        self.hand.len() > 0
    }
}

} // verus!
