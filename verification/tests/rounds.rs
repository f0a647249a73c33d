use tichu::combinations::Trick;
use tichu::deck::{Card, Color, RegularKind, SpecialKind};
use tichu::tichugame::{RoundStatus, TichuGame};

fn single(card: Card) -> Trick {
    let mut trick = Trick::new();
    trick.push(card);
    trick
}

fn king() -> Trick {
    single(Card::regular(RegularKind::King, Color::Red))
}

fn five() -> Trick {
    single(Card::regular(RegularKind::Five, Color::Red))
}

fn ten() -> Trick {
    single(Card::regular(RegularKind::Ten, Color::Red))
}

fn pass_and_move(game: &mut TichuGame) -> RoundStatus {
    game.pass();
    game.next()
}

fn play_and_move(game: &mut TichuGame, trick: Trick) -> RoundStatus {
    game.add_trick(trick);
    game.next()
}

#[test]
fn a_new_game_waits_for_seat_zero() {
    let game = TichuGame::new();
    assert_eq!(game.current_player, 0);
    assert_eq!(game.whose_turn(), 0);
    assert!(game.get_current_trick().is_none());
    assert_eq!(game.get_current_score(), (0, 0));
    assert_eq!(game.passes(), 0);
    assert_eq!(game.finished_count(), 0);
    assert_eq!(game.room(), 16333);
}

#[test]
fn hands_wait_once_they_are_dealt_and_are_taken_once() {
    let mut game = TichuGame::new();
    assert!(game.take_hand(2).is_none());
    game.shuffle_and_deal();
    let mut all: Vec<Card> = Vec::new();
    for seat in 0..4 {
        let hand = game.take_hand(seat).unwrap();
        assert_eq!(hand.len(), 13);
        for card in hand {
            assert!(!all.contains(&card));
            all.push(card);
        }
        assert!(game.take_hand(seat).is_none());
    }
    assert_eq!(all.len(), 52);
}

#[test]
fn the_turn_goes_round_the_table() {
    let mut game = TichuGame::new();
    assert_eq!(play_and_move(&mut game, king()), RoundStatus::Continue);
    assert_eq!(game.current_player, 1);
    assert_eq!(game.get_current_trick().unwrap().cards(), king().cards());
    assert_eq!(pass_and_move(&mut game), RoundStatus::Continue);
    assert_eq!(game.current_player, 2);
    assert_eq!(game.passes(), 1);
    assert_eq!(play_and_move(&mut game, king()), RoundStatus::Continue);
    assert_eq!(game.current_player, 3);
    assert_eq!(game.passes(), 0);
    assert_eq!(pass_and_move(&mut game), RoundStatus::Continue);
    assert_eq!(game.current_player, 0);
}

#[test]
fn the_dog_hands_the_turn_to_the_partner() {
    let mut game = TichuGame::new();
    assert_eq!(play_and_move(&mut game, single(Card::special(SpecialKind::Dog))), RoundStatus::Continue);
    assert_eq!(game.current_player, 2);
    let mut game = TichuGame::new();
    game.give_turn(3);
    assert_eq!(play_and_move(&mut game, single(Card::special(SpecialKind::Dog))), RoundStatus::Continue);
    assert_eq!(game.current_player, 1);
}

#[test]
fn three_passes_collect_the_table() {
    let mut game = TichuGame::new();
    play_and_move(&mut game, king());
    assert_eq!(game.room(), 16323);
    assert_eq!(pass_and_move(&mut game), RoundStatus::Continue);
    assert_eq!(pass_and_move(&mut game), RoundStatus::Continue);
    assert!(game.get_current_trick().is_some());
    assert_eq!(pass_and_move(&mut game), RoundStatus::TrickWin);
    assert_eq!(game.current_player, 0);
    assert_eq!(game.passes(), 0);
    assert!(game.get_current_trick().is_none());
    // the points stay in play: banked now instead of on the table
    assert_eq!(game.room(), 16323);
}

#[test]
fn a_seat_that_has_finished_is_passed_over() {
    let mut game = TichuGame::new();
    assert_eq!(game.mark_finished(1), RoundStatus::Continue);
    assert!(game.is_finished(1));
    assert!(!game.is_finished(0));
    assert_eq!(play_and_move(&mut game, king()), RoundStatus::Continue);
    assert_eq!(game.current_player, 2);
    assert_eq!(game.passes(), 1);
    assert_eq!(pass_and_move(&mut game), RoundStatus::Continue);
    assert_eq!(game.current_player, 3);
    assert_eq!(pass_and_move(&mut game), RoundStatus::TrickWin);
    assert_eq!(game.current_player, 0);
    assert_eq!(game.passes(), 0);
}

#[test]
fn a_seat_that_has_finished_can_still_win_the_table() {
    // seat 0 plays and finishes; when all others pass, the passes reach three
    // at seat 0, which banks the table before the turn moves past it
    let mut game = TichuGame::new();
    assert_eq!(play_and_move(&mut game, king()), RoundStatus::Continue);
    assert_eq!(game.mark_finished(0), RoundStatus::Continue);
    pass_and_move(&mut game);
    pass_and_move(&mut game);
    assert_eq!(pass_and_move(&mut game), RoundStatus::TrickWin);
    assert_eq!(game.current_player, 1);
    assert_eq!(game.passes(), 1);
    assert!(game.get_current_trick().is_none());
    // the ten points of the king are banked by seat 0, the first to finish
    assert_eq!(game.mark_finished(1), RoundStatus::Continue);
    assert_eq!(game.mark_finished(2), RoundStatus::FinishRound);
    assert_eq!(game.get_current_score(), (100, 0));
}

#[test]
fn a_round_with_three_finishers_is_worth_100() {
    let mut game = TichuGame::new();
    // seat 0 wins a king
    play_and_move(&mut game, king());
    pass_and_move(&mut game);
    pass_and_move(&mut game);
    assert_eq!(pass_and_move(&mut game), RoundStatus::TrickWin);
    // seat 1 wins a five and a ten
    assert_eq!(game.current_player, 0);
    play_and_move(&mut game, five());
    play_and_move(&mut game, ten());
    pass_and_move(&mut game);
    pass_and_move(&mut game);
    assert_eq!(pass_and_move(&mut game), RoundStatus::TrickWin);
    assert_eq!(game.current_player, 1);
    assert_eq!(game.room(), 16333 - 25);
    assert_eq!(game.mark_finished(0), RoundStatus::Continue);
    assert_eq!(game.mark_finished(1), RoundStatus::Continue);
    assert_eq!(game.get_current_score(), (0, 0));
    assert_eq!(game.mark_finished(2), RoundStatus::FinishRound);
    // seat 0 keeps 10 and gets what seat 3 banked (nothing); seat 1 keeps 15;
    // the 75 that nobody banked go to the team that seat 3 is not on
    assert_eq!(game.get_current_score(), (85, 15));
    assert_eq!(game.room(), 16333);
}

#[test]
fn the_points_of_the_last_seat_go_to_the_first() {
    let mut game = TichuGame::new();
    game.give_turn(2);
    // seat 3 wins a king and a ten
    play_and_move(&mut game, ten());
    play_and_move(&mut game, king());
    pass_and_move(&mut game);
    pass_and_move(&mut game);
    assert_eq!(pass_and_move(&mut game), RoundStatus::TrickWin);
    assert_eq!(game.current_player, 3);
    // seat 2 wins a five
    pass_and_move(&mut game);
    pass_and_move(&mut game);
    pass_and_move(&mut game);
    assert_eq!(game.current_player, 2);
    play_and_move(&mut game, five());
    pass_and_move(&mut game);
    pass_and_move(&mut game);
    assert_eq!(pass_and_move(&mut game), RoundStatus::TrickWin);
    assert_eq!(game.current_player, 2);
    assert_eq!(game.mark_finished(1), RoundStatus::Continue);
    assert_eq!(game.mark_finished(2), RoundStatus::Continue);
    assert_eq!(game.mark_finished(0), RoundStatus::FinishRound);
    // seat 1 finished first: its team gets the 20 of seat 3; seat 2 keeps 5;
    // the 75 left go to the team that seat 3 is not on
    assert_eq!(game.get_current_score(), (80, 20));
}

#[test]
fn two_of_a_team_finishing_first_score_200() {
    let mut game = TichuGame::new();
    play_and_move(&mut game, king());
    pass_and_move(&mut game);
    pass_and_move(&mut game);
    pass_and_move(&mut game);
    assert_eq!(game.mark_finished(1), RoundStatus::Continue);
    assert_eq!(game.mark_finished(3), RoundStatus::FinishRound);
    assert_eq!(game.get_current_score(), (0, 200));
    assert_eq!(game.finished_count(), 2);
    let mut game = TichuGame::new();
    assert_eq!(game.mark_finished(2), RoundStatus::Continue);
    assert_eq!(game.mark_finished(0), RoundStatus::FinishRound);
    assert_eq!(game.get_current_score(), (200, 0));
}

#[test]
fn a_team_wins_when_its_rounds_sum_above_999() {
    let mut game = TichuGame::new();
    for _ in 0..4 {
        game.shuffle_and_deal();
        assert_eq!(game.finished_count(), 0);
        assert_eq!(game.mark_finished(1), RoundStatus::Continue);
        assert_eq!(game.mark_finished(3), RoundStatus::FinishRound);
    }
    game.shuffle_and_deal();
    assert_eq!(game.mark_finished(3), RoundStatus::Continue);
    assert_eq!(game.mark_finished(1), RoundStatus::Team2Wins);
    assert_eq!(game.get_current_score(), (0, 200));
    let mut game = TichuGame::new();
    for _ in 0..4 {
        assert_eq!(game.mark_finished(0), RoundStatus::Continue);
        assert_eq!(game.mark_finished(2), RoundStatus::FinishRound);
        game.shuffle_and_deal();
    }
    // 800 so far; seat 1 banks a five, and the round gives 95 to 5
    game.give_turn(1);
    play_and_move(&mut game, five());
    pass_and_move(&mut game);
    pass_and_move(&mut game);
    assert_eq!(pass_and_move(&mut game), RoundStatus::TrickWin);
    assert_eq!(game.mark_finished(0), RoundStatus::Continue);
    assert_eq!(game.mark_finished(1), RoundStatus::Continue);
    assert_eq!(game.mark_finished(2), RoundStatus::FinishRound);
    assert_eq!(game.get_current_score(), (95, 5));
    game.shuffle_and_deal();
    // 895 and another 100 are 995: not yet above 999
    assert_eq!(game.mark_finished(0), RoundStatus::Continue);
    assert_eq!(game.mark_finished(1), RoundStatus::Continue);
    assert_eq!(game.mark_finished(2), RoundStatus::FinishRound);
    assert_eq!(game.get_current_score(), (100, 0));
    game.shuffle_and_deal();
    // five more are enough, though the other team takes this round
    game.give_turn(2);
    play_and_move(&mut game, five());
    pass_and_move(&mut game);
    pass_and_move(&mut game);
    assert_eq!(pass_and_move(&mut game), RoundStatus::TrickWin);
    assert_eq!(game.mark_finished(1), RoundStatus::Continue);
    assert_eq!(game.mark_finished(2), RoundStatus::Continue);
    assert_eq!(game.mark_finished(3), RoundStatus::Team1Wins);
    assert_eq!(game.get_current_score(), (5, 95));
}

#[test]
fn dealing_starts_the_round_afresh() {
    let mut game = TichuGame::new();
    play_and_move(&mut game, king());
    pass_and_move(&mut game);
    game.mark_finished(3);
    game.mark_finished(1);
    assert_eq!(game.get_current_score(), (0, 200));
    game.shuffle_and_deal();
    assert_eq!(game.current_player, 0);
    assert_eq!(game.passes(), 0);
    assert_eq!(game.finished_count(), 0);
    assert!(game.get_current_trick().is_none());
    assert_eq!(game.room(), 16333);
    assert_eq!(game.get_current_score(), (0, 200));
    assert!(game.take_hand(0).is_some());
}
