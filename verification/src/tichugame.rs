//! The round state machine: whose turn it is, what lies on the table, what each
//! player has banked, who has finished, and the score of every round played.

use crate::combinations::Trick;
use crate::deck::{dealt_hand, fresh_deck, value_sum, Card, Deck, Kind, SpecialKind};
use vstd::prelude::*;

verus! {

/// What a step of the round led to.
#[derive(Debug, PartialEq, Eq, Copy, Clone, Structural)]
pub enum RoundStatus {
    Continue,
    /// The table was collected; the round goes on.
    TrickWin,
    /// The round is over and scored.
    FinishRound,
    /// The round is over and the team of seats 0 and 2 has won the game.
    Team1Wins,
    /// The round is over and the team of seats 1 and 3 has won the game.
    Team2Wins,
}

/// The most that the banked points and the cards on the table may weigh
/// together. Twice this much plus the 100 points of a round still fits a
/// score.
pub const POINT_CAPACITY: i32 = 16333;

pub open spec fn magnitude(x: int) -> int {
    if x < 0 {
        -x
    } else {
        x
    }
}

/// Sum of the magnitudes of the cards' point values.
pub open spec fn weight(cards: Seq<Card>) -> int
    decreases cards.len(),
{
    if cards.len() == 0 {
        0
    } else {
        weight(cards.drop_last()) + magnitude(cards.last().value as int)
    }
}

/// Sum of the weights of the tricks.
pub open spec fn table_weight(tricks: Seq<Seq<Card>>) -> int
    decreases tricks.len(),
{
    if tricks.len() == 0 {
        0
    } else {
        table_weight(tricks.drop_last()) + weight(tricks.last())
    }
}

/// Sum of the point values of all cards of the tricks.
pub open spec fn table_points(tricks: Seq<Seq<Card>>) -> int
    decreases tricks.len(),
{
    if tricks.len() == 0 {
        0
    } else {
        table_points(tricks.drop_last()) + value_sum(tricks.last())
    }
}

/// Sum of the first entries and sum of the second entries.
pub open spec fn score_total(scores: Seq<(int, int)>) -> (int, int)
    decreases scores.len(),
{
    if scores.len() == 0 {
        (0, 0)
    } else {
        let before = score_total(scores.drop_last());
        (before.0 + scores.last().0, before.1 + scores.last().1)
    }
}

/// The state of a game as plain values.
pub struct GameState {
    /// The deck, in the order of the last shuffle.
    pub deck: Seq<Card>,
    /// For each seat the hand that was dealt to it and not yet taken up.
    pub hands: Seq<Option<Seq<Card>>>,
    /// The seat whose turn it is.
    pub current_player: int,
    /// For each seat the points banked in this round.
    pub player_points: Seq<int>,
    /// The seats that have played their last card in this round, first first.
    pub finished: Seq<int>,
    /// The tricks on the table, oldest first.
    pub tricks: Seq<Seq<Card>>,
    /// How many players in a row have passed.
    pub passes: int,
    /// For each round played the points of the team of seats 0 and 2 and of
    /// the team of seats 1 and 3, behind an opening entry of no points.
    pub scores: Seq<(int, int)>,
}

/// Four times no points.
pub open spec fn no_points() -> Seq<int> {
    seq![0int, 0int, 0int, 0int]
}

/// Sum of the magnitudes of what the four seats have banked.
pub open spec fn bank_weight(banked: Seq<int>) -> int {
    magnitude(banked[0]) + magnitude(banked[1]) + magnitude(banked[2]) + magnitude(banked[3])
}

/// The seat that is left when three different seats have finished.
pub open spec fn last_seat(first: int, second: int, third: int) -> int {
    6 - (first + second + third)
}

/// What `team` gets of points that go to the team of the seat `receiver`: all
/// of them if that is the team, else nothing.
pub open spec fn credit(receiver: int, team: int, points: int) -> int {
    if receiver % 2 == team {
        points
    } else {
        0
    }
}

/// What a team (0: seats 0 and 2, 1: seats 1 and 3) scores in a round that
/// the seats `first`, `second` and `third` have finished in this order, from
/// what the seats have banked. The team of the first to finish gets what the
/// first banked and what the last seat banked; the teams of the second and the
/// third get what these banked; and what is then missing to 100 goes to the
/// team that the last seat is not on.
pub open spec fn team_share(banked: Seq<int>, first: int, second: int, third: int, team: int) -> int {
    let last = last_seat(first, second, third);
    let allocated = banked[first] + banked[last] + banked[second] + banked[third];
    credit(first, team, banked[first] + banked[last]) + credit(second, team, banked[second])
        + credit(third, team, banked[third]) + credit(last + 1, team, 100 - allocated)
}

impl GameState {
    /// What the banked points and the cards on the table weigh together.
    pub open spec fn load(self) -> int {
        bank_weight(self.player_points) + table_weight(self.tricks)
    }

    pub open spec fn valid(self) -> bool {
        &&& self.deck.to_multiset() == fresh_deck().to_multiset()
        &&& self.hands.len() == 4
        &&& forall|seat: int|
            0 <= seat < 4 && (#[trigger] self.hands[seat]) is Some ==> self.hands[seat]
                == Some(dealt_hand(self.deck, seat))
        &&& 0 <= self.current_player < 4
        &&& self.player_points.len() == 4
        &&& self.finished.len() <= 3
        &&& self.finished.no_duplicates()
        &&& forall|i: int| 0 <= i < self.finished.len() ==> 0 <= #[trigger] self.finished[i] < 4
        &&& 0 <= self.passes <= 3
        &&& self.scores.len() >= 1
        &&& self.load() <= POINT_CAPACITY
    }

    /// The state in which a new game begins: nothing dealt, seat 0 to play.
    pub open spec fn initial() -> GameState {
        GameState {
            deck: fresh_deck(),
            hands: seq![None, None, None, None],
            current_player: 0,
            player_points: no_points(),
            finished: Seq::empty(),
            tricks: Seq::empty(),
            passes: 0,
            scores: seq![(0int, 0int)],
        }
    }
}

impl GameState {
    /// How many seats in a row, from `seat` on round the table, have finished
    /// before the first that has not. At most three seats ever finish.
    pub open spec fn finished_run(self, seat: int) -> int {
        if !self.finished.contains(seat % 4) {
            0
        } else if !self.finished.contains((seat + 1) % 4) {
            1
        } else if !self.finished.contains((seat + 2) % 4) {
            2
        } else {
            3
        }
    }

    /// The trick played last is the dog alone.
    pub open spec fn dog_on_top(self) -> bool {
        &&& self.tricks.len() > 0
        &&& self.tricks.last().len() == 1
        &&& self.tricks.last()[0].kind == Kind::Special(SpecialKind::Dog)
    }

    /// The seat that the turn passes to first: the next one, or the one
    /// opposite where the dog was played.
    pub open spec fn seat_after(self) -> int {
        if self.dog_on_top() {
            (self.current_player + 2) % 4
        } else {
            (self.current_player + 1) % 4
        }
    }

    /// Whether the table is collected as the turn moves on: the passes counted
    /// so far, and one more for each finished seat that the turn skips, reach
    /// three.
    pub open spec fn table_collected(self) -> bool {
        3 - self.passes <= self.finished_run(self.seat_after())
    }

    /// The seat at which the passes reach three, which collects the table.
    pub open spec fn collector(self) -> int {
        (self.seat_after() + 3 - self.passes) % 4
    }

    /// The state after the turn has moved on. The turn comes to the first seat
    /// from `seat_after` on that has not finished; every finished seat skipped
    /// on the way counts as a pass. Where the passes reach three on the way,
    /// the seat reached then banks the points on the table, the table is
    /// cleared and the count of passes begins again (a count that reaches
    /// three a second time ends at 0).
    pub open spec fn after_next(self) -> GameState {
        let start = self.seat_after();
        let run = self.finished_run(start);
        if self.table_collected() {
            let later = run - (3 - self.passes);
            GameState {
                current_player: (start + run) % 4,
                passes: if later == 3 {
                    0
                } else {
                    later
                },
                player_points: self.player_points.update(
                    self.collector(),
                    self.player_points[self.collector()] + table_points(self.tricks),
                ),
                tricks: Seq::empty(),
                ..self
            }
        } else {
            GameState { current_player: (start + run) % 4, passes: self.passes + run, ..self }
        }
    }

    pub open spec fn next_status(self) -> RoundStatus {
        if self.table_collected() {
            RoundStatus::TrickWin
        } else {
            RoundStatus::Continue
        }
    }
}

impl GameState {
    /// The score of a round that ends when `player` finishes: 200 to nothing
    /// where the first two to finish are of one team, else each team's share.
    pub open spec fn round_score(self, player: int) -> (int, int) {
        let order = self.finished.push(player);
        if order.len() == 3 {
            (
                team_share(self.player_points, order[0], order[1], order[2], 0),
                team_share(self.player_points, order[0], order[1], order[2], 1),
            )
        } else if order[0] % 2 == 0 {
            (200, 0)
        } else {
            (0, 200)
        }
    }

    /// Whether the round ends when `player` finishes: as the third, or as the
    /// second behind a player of the same team.
    pub open spec fn round_ends(self, player: int) -> bool {
        let order = self.finished.push(player);
        order.len() == 3 || (order.len() == 2 && order[0] % 2 == order[1] % 2)
    }

    /// The state after `player` has finished. Where that ends the round, the
    /// round's score is appended and the banked points are cleared.
    pub open spec fn after_finish(self, player: int) -> GameState {
        if self.round_ends(player) {
            GameState {
                finished: self.finished.push(player),
                scores: self.scores.push(self.round_score(player)),
                player_points: no_points(),
                ..self
            }
        } else {
            GameState { finished: self.finished.push(player), ..self }
        }
    }

    /// What the finishing of `player` leads to: the round goes on, or it ends;
    /// where it ends with a team's scores of all rounds above 999 in sum, that
    /// team has won, the team of seats 0 and 2 being asked first.
    pub open spec fn finish_status(self, player: int) -> RoundStatus {
        let total = score_total(self.after_finish(player).scores);
        if !self.round_ends(player) {
            RoundStatus::Continue
        } else if total.0 > 999 {
            RoundStatus::Team1Wins
        } else if total.1 > 999 {
            RoundStatus::Team2Wins
        } else {
            RoundStatus::FinishRound
        }
    }

    /// The state at the start of a round that is dealt from `deck`: every seat
    /// has its hand waiting, seat 0 is to play, nothing is banked, nobody has
    /// finished, the table is empty and no pass is counted. The scores stay.
    pub open spec fn dealt(self, deck: Seq<Card>) -> GameState {
        GameState {
            deck,
            hands: Seq::new(4, |seat: int| Some(dealt_hand(deck, seat))),
            current_player: 0,
            player_points: no_points(),
            finished: Seq::empty(),
            tricks: Seq::empty(),
            passes: 0,
            scores: self.scores,
        }
    }
}

/// The seat `steps` places behind `seat` round the table.
pub open spec fn seat_from(seat: int, steps: int) -> int {
    (seat + steps) % 4
}

/// Of the four seats at least one has not finished.
pub proof fn lemma_some_seat_unfinished(state: GameState)
    requires
        state.valid(),
    ensures
        !(state.finished.contains(0) && state.finished.contains(1) && state.finished.contains(2)
            && state.finished.contains(3)),
{
    let f = state.finished;
    if f.contains(0) && f.contains(1) && f.contains(2) && f.contains(3) {
        let a = choose|i: int| 0 <= i < f.len() && f[i] == 0;
        let b = choose|i: int| 0 <= i < f.len() && f[i] == 1;
        let c = choose|i: int| 0 <= i < f.len() && f[i] == 2;
        let d = choose|i: int| 0 <= i < f.len() && f[i] == 3;
        assert(false);
    }
}

/// The weight of a run of cards bounds its point value from both sides.
pub proof fn lemma_weight_bounds(cards: Seq<Card>)
    ensures
        -weight(cards) <= value_sum(cards) <= weight(cards),
    decreases cards.len(),
{
    if cards.len() > 0 {
        lemma_weight_bounds(cards.drop_last());
    }
}

/// The weight of the table bounds the points on it from both sides, and no
/// trick on it weighs more than the table.
pub proof fn lemma_table_weight_bounds(tricks: Seq<Seq<Card>>)
    ensures
        -table_weight(tricks) <= table_points(tricks) <= table_weight(tricks),
        forall|i: int| 0 <= i < tricks.len() ==> 0 <= weight(#[trigger] tricks[i]) <= table_weight(tricks),
    decreases tricks.len(),
{
    if tricks.len() > 0 {
        lemma_table_weight_bounds(tricks.drop_last());
        lemma_weight_bounds(tricks.last());
        assert forall|i: int| 0 <= i < tricks.len() implies 0 <= weight(#[trigger] tricks[i]) <= table_weight(tricks) by {
            if i < tricks.len() - 1 {
                assert(tricks.drop_last()[i] == tricks[i]);
            }
        }
    }
}

/// A part of the table taken from its bottom weighs no more than the table.
pub proof fn lemma_table_weight_prefix(tricks: Seq<Seq<Card>>, n: int)
    requires
        0 <= n <= tricks.len(),
    ensures
        0 <= table_weight(tricks.subrange(0, n)) <= table_weight(tricks),
    decreases tricks.len(),
{
    if n == tricks.len() {
        assert(tricks.subrange(0, n) =~= tricks);
        lemma_table_weight_bounds(tricks);
    } else {
        lemma_table_weight_prefix(tricks.drop_last(), n);
        assert(tricks.drop_last().subrange(0, n) =~= tricks.subrange(0, n));
        lemma_table_weight_bounds(tricks);
        lemma_weight_bounds(tricks.last());
    }
}

/// Four different seats are all the seats: what they have banked weighs what
/// the whole bank weighs.
proof fn lemma_bank_of_all_seats(banked: Seq<int>, a: int, b: int, c: int, d: int)
    requires
        banked.len() == 4,
        0 <= a < 4,
        0 <= b < 4,
        0 <= c < 4,
        0 <= d < 4,
        a != b,
        a != c,
        a != d,
        b != c,
        b != d,
        c != d,
    ensures
        magnitude(banked[a]) + magnitude(banked[b]) + magnitude(banked[c]) + magnitude(banked[d])
            == bank_weight(banked),
{
    if a == 0 {
        assert(b + c + d == 6);
    } else if a == 1 {
        assert(b + c + d == 5);
    } else if a == 2 {
        assert(b + c + d == 4);
    } else {
        assert(b + c + d == 3);
    }
}

/// What the seats have banked, as plain numbers.
pub open spec fn bank_view(banked: [i16; 4]) -> Seq<int> {
    Seq::new(4, |seat: int| banked[seat] as int)
}

/// A team's share of a round is at most 100 and twice the weight of the bank
/// away from nothing.
proof fn lemma_team_share_bounds(banked: Seq<int>, a: int, b: int, c: int, team: int)
    requires
        banked.len() == 4,
        0 <= a < 4,
        0 <= b < 4,
        0 <= c < 4,
        a != b,
        a != c,
        b != c,
    ensures
        0 <= last_seat(a, b, c) < 4,
        -2 * bank_weight(banked) - 100 <= team_share(banked, a, b, c, team) <= 2 * bank_weight(
            banked,
        ) + 100,
{
    let d = last_seat(a, b, c);
    lemma_bank_of_all_seats(banked, a, b, c, d);
    let w = magnitude(banked[a]);
    let x = magnitude(banked[b]);
    let y = magnitude(banked[c]);
    let z = magnitude(banked[d]);
    assert(w + x + y + z == bank_weight(banked));
    let allocated = banked[a] + banked[d] + banked[b] + banked[c];
    assert(-(w + x + y + z) <= allocated <= w + x + y + z);
    let to_first = credit(a, team, banked[a] + banked[d]);
    let to_second = credit(b, team, banked[b]);
    let to_third = credit(c, team, banked[c]);
    let rest = credit(d + 1, team, 100 - allocated);
    assert(-(w + z) <= to_first <= w + z);
    assert(-x <= to_second <= x);
    assert(-y <= to_third <= y);
    assert(-(w + x + y + z) - 100 <= rest <= w + x + y + z + 100);
    assert(team_share(banked, a, b, c, team) == to_first + to_second + to_third + rest);
}

/// Decides `credit`.
fn credited(receiver: usize, team: usize, points: i32) -> (part: i32)
    requires
        team < 2,
    ensures
        part == credit(receiver as int, team as int, points as int),
{
    if receiver % 2 == team {
        points
    } else {
        0
    }
}

/// The share of `team` in a round that the seats `first`, `second` and `third`
/// have finished in this order.
fn share(banked: &[i16; 4], first: usize, second: usize, third: usize, team: usize) -> (share: i32)
    requires
        first < 4,
        second < 4,
        third < 4,
        first != second,
        first != third,
        second != third,
        team < 2,
    ensures
        share == team_share(bank_view(*banked), first as int, second as int, third as int, team as int),
        -2 * bank_weight(bank_view(*banked)) - 100 <= share <= 2 * bank_weight(bank_view(*banked))
            + 100,
{
    proof {
        lemma_team_share_bounds(
            bank_view(*banked),
            first as int,
            second as int,
            third as int,
            team as int,
        );
    }
    let last: usize = 6 - (first + second + third);
    let banked_first = banked[first] as i32;
    let banked_second = banked[second] as i32;
    let banked_third = banked[third] as i32;
    let banked_last = banked[last] as i32;
    let allocated = banked_first + banked_last + banked_second + banked_third;
    let to_first = credited(first, team, banked_first + banked_last);
    let to_second = credited(second, team, banked_second);
    let to_third = credited(third, team, banked_third);
    let rest = credited(last + 1, team, 100 - allocated);
    assert(to_first + to_second + to_third + rest == team_share(
        bank_view(*banked),
        first as int,
        second as int,
        third as int,
        team as int,
    ));
    to_first + to_second + to_third + rest
}

pub struct TichuGame {
    deck: Deck,
    hands: [Option<Vec<Card>>; 4],
    pub current_player: usize,
    player_points: [i16; 4],
    finished: Vec<usize>,
    tricks: Vec<Trick>,
    passes: u8,
    scores: Vec<(i16, i16)>,
}

impl View for TichuGame {
    type V = GameState;

    closed spec fn view(&self) -> GameState {
        GameState {
            deck: self.deck.cards@,
            hands: Seq::new(
                4,
                |seat: int|
                    match self.hands[seat] {
                        Some(hand) => Some(hand@),
                        None => None,
                    },
            ),
            current_player: self.current_player as int,
            player_points: bank_view(self.player_points),
            finished: Seq::new(self.finished@.len(), |i: int| self.finished@[i] as int),
            tricks: Seq::new(self.tricks@.len(), |i: int| self.tricks@[i]@),
            passes: self.passes as int,
            scores: Seq::new(
                self.scores@.len(),
                |i: int| (self.scores@[i].0 as int, self.scores@[i].1 as int),
            ),
        }
    }
}

impl TichuGame {
    /// Every trick on the table remembers the combination its cards form.
    pub closed spec fn tricks_wf(&self) -> bool {
        forall|i: int| 0 <= i < self.tricks@.len() ==> (#[trigger] self.tricks@[i]).wf()
    }

    pub open spec fn wf(&self) -> bool {
        self@.valid() && self.tricks_wf()
    }

    pub fn new() -> (game: TichuGame)
        ensures
            game@ == GameState::initial(),
            game.wf(),
    {
        let mut scores: Vec<(i16, i16)> = Vec::new();
        scores.push((0, 0));
        let game = TichuGame {
            deck: Deck::new(),
            hands: [None, None, None, None],
            current_player: 0,
            player_points: [0, 0, 0, 0],
            passes: 0,
            finished: Vec::new(),
            scores,
            tricks: Vec::new(),
        };
        assert(game@.hands =~= GameState::initial().hands);
        assert(game@.player_points =~= no_points());
        assert(game@.finished =~= Seq::empty());
        assert(game@.tricks =~= Seq::empty());
        assert(game@.scores =~= seq![(0int, 0int)]);
        game
    }

    /// Hands out the hand that waits for seat `i`, once.
    pub fn take_hand(&mut self, i: usize) -> (hand: Option<Vec<Card>>)
        requires
            i < 4,
        ensures
            match hand {
                Some(cards) => old(self)@.hands[i as int] == Some(cards@),
                None => old(self)@.hands[i as int] is None,
            },
            final(self)@ == (GameState { hands: old(self)@.hands.update(i as int, None), ..old(self)@ }),
            old(self).wf() ==> final(self).wf(),
    {
        let hand = self.hands[i].take();
        assert(self@.hands =~= old(self)@.hands.update(i as int, None));
        assert(self@.player_points =~= old(self)@.player_points);
        assert(self@.finished =~= old(self)@.finished);
        assert(self@.tricks =~= old(self)@.tricks);
        assert(self@.scores =~= old(self)@.scores);
        hand
    }

    /// Counts a pass. Whose turn is next, and whether the table is collected,
    /// is decided by `next`.
    pub fn pass(&mut self)
        requires
            old(self).wf(),
            old(self)@.passes < 3,
        ensures
            final(self)@ == (GameState { passes: old(self)@.passes + 1, ..old(self)@ }),
            final(self).wf(),
    {
        self.passes += 1;
        assert(self@.hands =~= old(self)@.hands);
        assert(self@.player_points =~= old(self)@.player_points);
        assert(self@.finished =~= old(self)@.finished);
        assert(self@.tricks =~= old(self)@.tricks);
        assert(self@.scores =~= old(self)@.scores);
    }

    /// Lays a trick on the table, which ends any run of passes. That the trick
    /// may be played is the caller's business.
    pub fn add_trick(&mut self, trick: Trick)
        requires
            old(self).wf(),
            trick.wf(),
            old(self)@.load() + weight(trick@) <= POINT_CAPACITY,
        ensures
            final(self)@ == (GameState {
                passes: 0,
                tricks: old(self)@.tricks.push(trick@),
                ..old(self)@
            }),
            final(self).wf(),
    {
        self.passes = 0;
        self.tricks.push(trick);
        assert(self@.hands =~= old(self)@.hands);
        assert(self@.player_points =~= old(self)@.player_points);
        assert(self@.finished =~= old(self)@.finished);
        assert(self@.tricks =~= old(self)@.tricks.push(trick@));
        assert(self@.scores =~= old(self)@.scores);
        assert(self@.tricks.drop_last() =~= old(self)@.tricks);
    }

    /// The trick that was played last, if the table is not empty.
    pub fn get_current_trick(&self) -> (trick: Option<&Trick>)
        ensures
            match trick {
                Some(top) => self@.tricks.len() > 0 && top@ == self@.tricks.last() && (self.wf()
                    ==> top.wf()),
                None => self@.tricks.len() == 0,
            },
    {
        if self.tricks.len() > 0 {
            Some(&self.tricks[self.tricks.len() - 1])
        } else {
            None
        }
    }

    /// The score of the round that was scored last.
    pub fn get_current_score(&self) -> (score: (i16, i16))
        requires
            self@.scores.len() >= 1,
        ensures
            (score.0 as int, score.1 as int) == self@.scores.last(),
    {
        let points = &self.scores[self.scores.len() - 1];
        (points.0, points.1)
    }

    /// The seat whose turn it is.
    pub fn whose_turn(&self) -> (seat: usize)
        ensures
            seat == self@.current_player,
    {
        self.current_player
    }

    /// Hands the turn to a seat.
    pub fn give_turn(&mut self, seat: usize)
        requires
            seat < 4,
        ensures
            final(self)@ == (GameState { current_player: seat as int, ..old(self)@ }),
            old(self).wf() ==> final(self).wf(),
    {
        self.current_player = seat;
        assert(self@.hands =~= old(self)@.hands);
        assert(self@.player_points =~= old(self)@.player_points);
        assert(self@.finished =~= old(self)@.finished);
        assert(self@.tricks =~= old(self)@.tricks);
        assert(self@.scores =~= old(self)@.scores);
    }

    /// How many seats have finished in this round.
    pub fn finished_count(&self) -> (count: usize)
        ensures
            count == self@.finished.len(),
    {
        self.finished.len()
    }

    /// How many passes in a row are counted.
    pub fn passes(&self) -> (passes: u8)
        ensures
            passes == self@.passes,
    {
        self.passes
    }

    /// How much more the table may take: the capacity less what the banked
    /// points and the cards on the table weigh.
    pub fn room(&self) -> (room: i32)
        requires
            self.wf(),
        ensures
            room == POINT_CAPACITY - self@.load(),
            0 <= room <= POINT_CAPACITY,
    {
        proof {
            lemma_table_weight_bounds(self@.tricks);
            lemma_table_weight_prefix(self@.tricks, 0);
        }
        let first = self.player_points[0] as i128;
        let second = self.player_points[1] as i128;
        let third = self.player_points[2] as i128;
        let fourth = self.player_points[3] as i128;
        let bank = (if first < 0 {
            -first
        } else {
            first
        }) + (if second < 0 {
            -second
        } else {
            second
        }) + (if third < 0 {
            -third
        } else {
            third
        }) + (if fourth < 0 {
            -fourth
        } else {
            fourth
        });
        assert(bank == bank_weight(self@.player_points));
        let mut table: i128 = 0;
        let mut i: usize = 0;
        while i < self.tricks.len()
            invariant
                i <= self.tricks.len(),
                table == table_weight(self@.tricks.subrange(0, i as int)),
                0 <= table <= table_weight(self@.tricks) <= POINT_CAPACITY,
            decreases self.tricks.len() - i,
        {
            let cards = self.tricks[i].cards();
            let mut trick: i128 = 0;
            let mut j: usize = 0;
            while j < cards.len()
                invariant
                    j <= cards.len(),
                    trick == weight(cards@.subrange(0, j as int)),
                    0 <= trick <= 32768 * j,
                decreases cards.len() - j,
            {
                assert(cards@.subrange(0, j + 1).drop_last() =~= cards@.subrange(0, j as int));
                let value = cards[j].value as i128;
                trick = trick + (if value < 0 {
                    -value
                } else {
                    value
                });
                j += 1;
            }
            proof {
                assert(cards@.subrange(0, j as int) =~= cards@);
                assert(self@.tricks.subrange(0, i + 1).drop_last() =~= self@.tricks.subrange(
                    0,
                    i as int,
                ));
                assert(self@.tricks.subrange(0, i + 1).last() == cards@);
                lemma_table_weight_prefix(self@.tricks, i + 1);
            }
            table = table + trick;
            i += 1;
        }
        assert(self@.tricks.subrange(0, i as int) =~= self@.tricks);
        (POINT_CAPACITY as i128 - (bank + table)) as i32
    }

    /// Whether the seat has played its last card in this round.
    pub fn is_finished(&self, seat: usize) -> (finished: bool)
        ensures
            finished == self@.finished.contains(seat as int),
    {
        let mut i: usize = 0;
        while i < self.finished.len()
            invariant
                i <= self.finished.len(),
                forall|j: int| 0 <= j < i ==> self.finished@[j] != seat,
            decreases self.finished.len() - i,
        {
            if self.finished[i] == seat {
                assert(self@.finished[i as int] == seat as int);
                return true;
            }
            i += 1;
        }
        assert forall|j: int| 0 <= j < self@.finished.len() implies self@.finished[j] != seat as int by {
            assert(self.finished@[j] != seat);
        }
        false
    }

    /// Whether the trick played last is the dog alone.
    fn dog_on_top(&self) -> (dog: bool)
        ensures
            dog == self@.dog_on_top(),
    {
        if self.tricks.len() == 0 {
            return false;
        }
        let cards = self.tricks[self.tricks.len() - 1].cards();
        cards.len() == 1 && cards[0].kind == Kind::Special(SpecialKind::Dog)
    }

    /// The points of all cards on the table.
    fn table_total(&self) -> (total: i16)
        requires
            self.wf(),
        ensures
            total == table_points(self@.tricks),
    {
        let mut total: i32 = 0;
        let mut i: usize = 0;
        proof {
            lemma_table_weight_bounds(self@.tricks);
        }
        while i < self.tricks.len()
            invariant
                i <= self.tricks.len(),
                self.wf(),
                total == table_points(self@.tricks.subrange(0, i as int)),
                -table_weight(self@.tricks.subrange(0, i as int)) <= total <= table_weight(
                    self@.tricks.subrange(0, i as int),
                ),
                table_weight(self@.tricks.subrange(0, i as int)) <= table_weight(self@.tricks),
                table_weight(self@.tricks) <= POINT_CAPACITY,
                forall|j: int|
                    0 <= j < self@.tricks.len() ==> 0 <= weight(#[trigger] self@.tricks[j])
                        <= table_weight(self@.tricks),
            decreases self.tricks.len() - i,
        {
            proof {
                let shorter = self@.tricks.subrange(0, i as int);
                let longer = self@.tricks.subrange(0, i + 1);
                assert(longer.drop_last() =~= shorter);
                assert(longer.last() == self@.tricks[i as int]);
                lemma_weight_bounds(self@.tricks[i as int]);
                lemma_table_weight_prefix(self@.tricks, i + 1);
                assert(self@.tricks[i as int] == self.tricks@[i as int]@);
            }
            total = total + self.tricks[i].points() as i32;
            i += 1;
        }
        assert(self@.tricks.subrange(0, i as int) =~= self@.tricks);
        total as i16
    }

    /// Moves the turn on, collecting the table where three players in a row
    /// have passed.
    #[verifier::rlimit(30)]
    pub fn next(&mut self) -> (status: RoundStatus)
        requires
            old(self).wf(),
        ensures
            final(self)@ == old(self)@.after_next(),
            status == old(self)@.next_status(),
            final(self).wf(),
    {
        if self.dog_on_top() {
            self.current_player = (self.current_player + 2) % 4;
        } else {
            self.current_player = (self.current_player + 1) % 4;
        }
        let mut status = RoundStatus::Continue;
        let ghost before = old(self)@;
        let ghost start = before.seat_after();
        let ghost run = before.finished_run(start);
        let ghost due = 3 - before.passes;
        let ghost mut skipped: int = 0;
        proof {
            lemma_some_seat_unfinished(before);
            lemma_table_weight_bounds(before.tricks);
            assert(self@.hands =~= before.hands);
            assert(self@.player_points =~= before.player_points);
            assert(self@.finished =~= before.finished);
            assert(self@.tricks =~= before.tricks);
            assert(self@.scores =~= before.scores);
        }
        while self.is_finished(self.current_player) || self.passes == 3
            invariant
                before.valid(),
                start == before.seat_after(),
                run == before.finished_run(start),
                due == 3 - before.passes,
                !(before.finished.contains(0) && before.finished.contains(1)
                    && before.finished.contains(2) && before.finished.contains(3)),
                -table_weight(before.tricks) <= table_points(before.tricks) <= table_weight(
                    before.tricks,
                ),
                self.wf(),
                self@.deck == before.deck,
                self@.hands == before.hands,
                self@.finished == before.finished,
                self@.scores == before.scores,
                0 <= skipped <= run,
                self.current_player == (start + skipped) % 4,
                forall|m: int|
                    0 <= m < skipped ==> before.finished.contains(#[trigger] seat_from(start, m)),
                status == RoundStatus::Continue || status == RoundStatus::TrickWin,
                status == RoundStatus::Continue ==> {
                    &&& self.passes == before.passes + skipped
                    &&& self@.tricks == before.tricks
                    &&& self@.player_points == before.player_points
                },
                status == RoundStatus::TrickWin ==> {
                    &&& due <= skipped
                    &&& (self.passes == skipped - due || (self.passes == 0 && skipped - due == 3))
                    &&& self@.tricks == Seq::<Seq<Card>>::empty()
                    &&& self@.player_points == before.player_points.update(
                        before.collector(),
                        before.player_points[before.collector()] + table_points(before.tricks),
                    )
                },
            decreases
                    run - skipped,
                    (if self.passes == 3 {
                        1int
                    } else {
                        0int
                    }),
        {
            let ghost entered = self@;
            if self.passes == 3 {
                self.passes = 0;
                let total = self.table_total();
                let seat = self.current_player;
                proof {
                    lemma_table_weight_bounds(entered.tricks);
                }
                self.player_points[seat] = self.player_points[seat] + total;
                self.tricks = Vec::new();
                status = RoundStatus::TrickWin;
                proof {
                    assert(self@.hands =~= before.hands);
                    assert(self@.finished =~= before.finished);
                    assert(self@.scores =~= before.scores);
                    assert(self@.tricks =~= Seq::<Seq<Card>>::empty());
                    assert(self@.player_points =~= entered.player_points.update(
                        seat as int,
                        entered.player_points[seat as int] + table_points(entered.tricks),
                    ));
                    if entered.tricks.len() == 0 {
                        assert(self@.player_points =~= entered.player_points);
                    }
                    assert(self@.player_points =~= before.player_points.update(
                        before.collector(),
                        before.player_points[before.collector()] + table_points(before.tricks),
                    ));
                }
            }
            if self.is_finished(self.current_player) {
                self.passes += 1;
                self.current_player = (self.current_player + 1) % 4;
                proof {
                    skipped = skipped + 1;
                    assert(self@.hands =~= before.hands);
                    assert(self@.finished =~= before.finished);
                    assert(self@.scores =~= before.scores);
                    if status == RoundStatus::Continue {
                        assert(self@.tricks =~= before.tricks);
                        assert(self@.player_points =~= before.player_points);
                    } else {
                        assert(self@.tricks =~= Seq::<Seq<Card>>::empty());
                        assert(self@.player_points =~= before.player_points.update(
                            before.collector(),
                            before.player_points[before.collector()] + table_points(before.tricks),
                        ));
                    }
                }
            }
        }
        proof {
            assert(seat_from(start, 0) == start % 4);
            assert(seat_from(start, 1) == (start + 1) % 4);
            assert(seat_from(start, 2) == (start + 2) % 4);
            assert(skipped == run);
            assert(self@ =~= before.after_next());
        }
        status
    }

    /// Sums of the scores of all rounds, team by team.
    fn score_totals(&self) -> (total: (i128, i128))
        ensures
            (total.0 as int, total.1 as int) == score_total(self@.scores),
    {
        let mut first: i128 = 0;
        let mut second: i128 = 0;
        let mut i: usize = 0;
        while i < self.scores.len()
            invariant
                i <= self.scores.len(),
                (first as int, second as int) == score_total(self@.scores.subrange(0, i as int)),
                -32768 * i <= first <= 32767 * i,
                -32768 * i <= second <= 32767 * i,
            decreases self.scores.len() - i,
        {
            assert(self@.scores.subrange(0, i + 1).drop_last() =~= self@.scores.subrange(0, i as int));
            first = first + self.scores[i].0 as i128;
            second = second + self.scores[i].1 as i128;
            i += 1;
        }
        assert(self@.scores.subrange(0, i as int) =~= self@.scores);
        (first, second)
    }

    /// Records that the player at seat `player_index` has played the last
    /// card, and scores the round where that ends it.
    pub fn mark_finished(&mut self, player_index: usize) -> (status: RoundStatus)
        requires
            old(self).wf(),
            player_index < 4,
            !old(self)@.finished.contains(player_index as int),
            old(self)@.finished.len() < 3,
        ensures
            final(self)@ == old(self)@.after_finish(player_index as int),
            status == old(self)@.finish_status(player_index as int),
            final(self).wf(),
    {
        let ghost before = self@;
        let ghost order = before.finished.push(player_index as int);
        self.finished.push(player_index);
        proof {
            assert(self@.finished =~= order);
            assert(self@.hands =~= before.hands);
            assert(self@.player_points =~= before.player_points);
            assert(self@.tricks =~= before.tricks);
            assert(self@.scores =~= before.scores);
            assert(order.no_duplicates());
        }
        let score: (i16, i16);
        if self.finished.len() == 3 {
            let first = self.finished[0];
            let second = self.finished[1];
            let third = self.finished[2];
            proof {
                assert(order[0] == first && order[1] == second && order[2] == third);
            }
            let even = share(&self.player_points, first, second, third, 0);
            let odd = share(&self.player_points, first, second, third, 1);
            proof {
                lemma_table_weight_bounds(before.tricks);
            }
            score = (even as i16, odd as i16);
        } else if self.finished.len() == 2 && self.finished[0] % 2 == self.finished[1] % 2 {
            proof {
                assert(order[0] == self.finished[0] && order[1] == self.finished[1]);
            }
            if self.finished[0] % 2 == 0 {
                score = (200, 0);
            } else {
                score = (0, 200);
            }
        } else {
            proof {
                if order.len() == 2 {
                    assert(order[0] == self.finished[0] && order[1] == self.finished[1]);
                }
                assert(self@ =~= before.after_finish(player_index as int));
            }
            return RoundStatus::Continue;
        }
        self.scores.push(score);
        self.player_points = [0, 0, 0, 0];
        proof {
            assert(self@.finished =~= order);
            assert(self@.hands =~= before.hands);
            assert(self@.player_points =~= no_points());
            assert(self@.tricks =~= before.tricks);
            assert(self@.scores =~= before.scores.push(before.round_score(player_index as int)));
            assert(self@ =~= before.after_finish(player_index as int));
        }
        let total = self.score_totals();
        if total.0 > 999 {
            RoundStatus::Team1Wins
        } else if total.1 > 999 {
            RoundStatus::Team2Wins
        } else {
            RoundStatus::FinishRound
        }
    }

    /// Shuffles the deck and deals a new round from it.
    pub fn shuffle_and_deal(&mut self)
        requires
            old(self).wf(),
        ensures
            final(self)@.deck.to_multiset() == old(self)@.deck.to_multiset(),
            final(self)@ == old(self)@.dealt(final(self)@.deck),
            final(self).wf(),
    {
        self.deck.shuffle();
        let mut dealt = self.deck.deal();
        let ghost hands = dealt;
        let mut seat: usize = 0;
        while seat < 4
            invariant
                seat <= 4,
                self.scores == old(self).scores,
                self.deck.cards@.to_multiset() == old(self).deck.cards@.to_multiset(),
                forall|j: int| 0 <= j < 4 ==> (#[trigger] hands[j])@ == dealt_hand(self.deck.cards@, j),
                forall|j: int| 0 <= j < seat ==> self.hands[j] == Some(hands[j]),
                forall|j: int| seat <= j < 4 ==> dealt[j] == hands[j],
            decreases 4 - seat,
        {
            let mut hand: Vec<Card> = Vec::new();
            core::mem::swap(&mut hand, &mut dealt[seat]);
            self.hands[seat] = Some(hand);
            seat += 1;
        }
        self.current_player = 0;
        self.player_points = [0, 0, 0, 0];
        self.finished = Vec::new();
        self.tricks = Vec::new();
        self.passes = 0;
        proof {
            let after = old(self)@.dealt(self@.deck);
            assert(self@.hands =~= after.hands);
            assert(self@.player_points =~= no_points());
            assert(self@.finished =~= Seq::<int>::empty());
            assert(self@.tricks =~= Seq::<Seq<Card>>::empty());
            assert(self@.scores =~= old(self)@.scores);
            assert(self@ =~= after);
        }
    }
}

/// A round that three players have finished gives the two teams 100 points
/// together, whatever the seats have banked and whoever finished when.
pub proof fn lemma_round_is_worth_100(banked: Seq<int>, first: int, second: int, third: int)
    ensures
        team_share(banked, first, second, third, 0) + team_share(banked, first, second, third, 1)
            == 100,
{
}

/// When the third player finishes, the round ends with a score that gives the
/// two teams 100 points together.
pub proof fn lemma_third_finisher_ends_round(state: GameState, player: int)
    requires
        state.valid(),
        state.finished.len() == 2,
    ensures
        state.round_ends(player),
        state.round_score(player).0 + state.round_score(player).1 == 100,
        state.after_finish(player).scores.last() == state.round_score(player),
        state.after_finish(player).player_points == no_points(),
        state.finish_status(player) != RoundStatus::Continue,
{
    let order = state.finished.push(player);
    lemma_round_is_worth_100(state.player_points, order[0], order[1], order[2]);
}

/// When the second player to finish is of the team of the first, the round
/// ends at once, and that team scores 200 and the other nothing, whatever the
/// seats have banked.
pub proof fn lemma_shutout(state: GameState, player: int)
    requires
        state.valid(),
        state.finished.len() == 1,
        state.finished[0] % 2 == player % 2,
    ensures
        state.round_ends(player),
        state.round_score(player) == if player % 2 == 0 {
            (200int, 0int)
        } else {
            (0int, 200int)
        },
        state.after_finish(player).scores.last() == state.round_score(player),
        state.after_finish(player).player_points == no_points(),
        state.finish_status(player) != RoundStatus::Continue,
{
    let order = state.finished.push(player);
    assert(order[0] == state.finished[0] && order[1] == player);
}

} // verus!
