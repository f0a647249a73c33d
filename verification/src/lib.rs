//! Rules engine for a four-player trick-taking card game: the cards, the
//! recognition and comparison of card combinations, the round state machine
//! and the decisions a game server takes on each client command.

pub mod combinations;
pub mod deck;
pub mod player;
pub mod tichugame;
pub mod tichuserver;

use crate::combinations::Trick;
use crate::deck::Card;
use crate::tichugame::{
    bank_view, bank_weight, lemma_table_weight_bounds, lemma_table_weight_prefix,
    lemma_weight_bounds, no_points, table_points, table_weight, weight, POINT_CAPACITY,
};
use vstd::prelude::*;

verus! {

/// A bare table as plain values: whose turn it is, what each seat has banked,
/// the tricks that lie on the table, and how many players in a row have
/// passed.
pub struct TableState {
    pub current_player: int,
    pub player_points: Seq<int>,
    pub tricks: Seq<Seq<Card>>,
    pub passes: int,
    pub scores: Seq<(int, int)>,
}

impl TableState {
    pub open spec fn valid(self) -> bool {
        &&& 0 <= self.current_player < 4
        &&& self.player_points.len() == 4
        &&& 0 <= self.passes < 3
        &&& bank_weight(self.player_points) + table_weight(self.tricks) <= POINT_CAPACITY
    }

    /// The table after a pass: the turn goes to the next seat; at the third
    /// pass in a row that seat banks the points on the table, and the table
    /// and the count of passes are cleared.
    pub open spec fn after_pass(self) -> TableState {
        let seat = (self.current_player + 1) % 4;
        if self.passes + 1 == 3 {
            TableState {
                current_player: seat,
                passes: 0,
                player_points: self.player_points.update(
                    seat,
                    self.player_points[seat] + table_points(self.tricks),
                ),
                tricks: Seq::empty(),
                ..self
            }
        } else {
            TableState { current_player: seat, passes: self.passes + 1, ..self }
        }
    }

    /// The table after a trick was played: the trick lies on top, the turn
    /// goes to the next seat, and no pass is counted.
    pub open spec fn after_play(self, trick: Seq<Card>) -> TableState {
        TableState {
            current_player: (self.current_player + 1) % 4,
            tricks: self.tricks.push(trick),
            passes: 0,
            ..self
        }
    }
}

/// A bare table: turns, passes and the pile of tricks, without hands, without
/// players that finish, and without the scoring of rounds.
pub struct TichuGame {
    pub current_player: usize,
    player_points: [i16; 4],
    pub tricks: Vec<Trick>,
    pub passes: u8,
    pub scores: Vec<(i16, i16)>,
}

impl View for TichuGame {
    type V = TableState;

    closed spec fn view(&self) -> TableState {
        TableState {
            current_player: self.current_player as int,
            player_points: bank_view(self.player_points),
            tricks: Seq::new(self.tricks@.len(), |i: int| self.tricks@[i]@),
            passes: self.passes as int,
            scores: Seq::new(
                self.scores@.len(),
                |i: int| (self.scores@[i].0 as int, self.scores@[i].1 as int),
            ),
        }
    }
}

impl TichuGame {
    pub fn new() -> (game: TichuGame)
        ensures
            game@ == (TableState {
                current_player: 0,
                player_points: no_points(),
                tricks: Seq::empty(),
                passes: 0,
                scores: seq![(0int, 0int)],
            }),
            game@.valid(),
    {
        let mut scores: Vec<(i16, i16)> = Vec::new();
        scores.push((0, 0));
        let game = TichuGame {
            current_player: 0,
            player_points: [0, 0, 0, 0],
            passes: 0,
            scores,
            tricks: Vec::new(),
        };
        assert(game@.player_points =~= no_points());
        assert(game@.tricks =~= Seq::<Seq<Card>>::empty());
        assert(game@.scores =~= seq![(0int, 0int)]);
        game
    }

    /// The player whose turn it is passes.
    pub fn pass(&mut self)
        requires
            old(self)@.valid(),
        ensures
            final(self)@ == old(self)@.after_pass(),
            final(self)@.valid(),
    {
        let ghost before = self@;
        self.passes += 1;
        self.current_player = (self.current_player + 1) % 4;
        if self.passes == 3 {
            self.passes = 0;
            let mut total: i32 = 0;
            let mut i: usize = 0;
            proof {
                lemma_table_weight_bounds(before.tricks);
                lemma_table_weight_prefix(before.tricks, 0);
                assert(self@.tricks =~= before.tricks);
            }
            while i < self.tricks.len()
                invariant
                    i <= self.tricks.len(),
                    self@.tricks == before.tricks,
                    total == table_points(before.tricks.subrange(0, i as int)),
                    -table_weight(before.tricks.subrange(0, i as int)) <= total <= table_weight(
                        before.tricks.subrange(0, i as int),
                    ),
                    table_weight(before.tricks.subrange(0, i as int)) <= table_weight(before.tricks),
                    table_weight(before.tricks) <= POINT_CAPACITY,
                    forall|j: int|
                        0 <= j < before.tricks.len() ==> 0 <= weight(#[trigger] before.tricks[j])
                            <= table_weight(before.tricks),
                decreases self.tricks.len() - i,
            {
                proof {
                    let shorter = before.tricks.subrange(0, i as int);
                    let longer = before.tricks.subrange(0, i + 1);
                    assert(longer.drop_last() =~= shorter);
                    assert(longer.last() == before.tricks[i as int]);
                    lemma_weight_bounds(before.tricks[i as int]);
                    lemma_table_weight_prefix(before.tricks, i + 1);
                    assert(before.tricks[i as int] == self.tricks@[i as int]@);
                }
                total = total + self.tricks[i].points() as i32;
                i += 1;
            }
            assert(before.tricks.subrange(0, i as int) =~= before.tricks);
            let seat = self.current_player;
            self.player_points[seat] = (self.player_points[seat] as i32 + total) as i16;
            self.tricks = Vec::new();
            proof {
                let after = before.after_pass();
                assert(self@.tricks =~= after.tricks);
                assert(self@.player_points =~= after.player_points);
                assert(self@.scores =~= after.scores);
            }
        } else {
            proof {
                let after = before.after_pass();
                assert(self@.tricks =~= after.tricks);
                assert(self@.player_points =~= after.player_points);
                assert(self@.scores =~= after.scores);
            }
        }
    }

    /// The player whose turn it is plays a trick. That the trick may be played
    /// is the caller's business.
    pub fn play(&mut self, trick: Trick)
        requires
            old(self)@.valid(),
            bank_weight(old(self)@.player_points) + table_weight(old(self)@.tricks) + weight(trick@)
                <= POINT_CAPACITY,
        ensures
            final(self)@ == old(self)@.after_play(trick@),
            final(self)@.valid(),
    {
        self.tricks.push(trick);
        self.current_player = (self.current_player + 1) % 4;
        self.passes = 0;
        proof {
            let after = old(self)@.after_play(trick@);
            assert(self@.tricks =~= after.tricks);
            assert(self@.player_points =~= after.player_points);
            assert(self@.scores =~= after.scores);
            assert(self@.tricks.drop_last() =~= old(self)@.tricks);
        }
    }
}

} // verus!
