use tichu::deck::{Card, Color, RegularKind, SpecialKind};
use tichu::player::Player;
use tichu::tichugame::TichuGame;
use tichu::tichuserver::{
    format_hand, handle_command, parse_command_parameters, parse_verb, Message, Note, Verb,
};

fn note(to: usize, note: Note) -> Message {
    Message { to, note, cards: Vec::new() }
}

fn to_all(what: Note, cards: &[Card]) -> Vec<Message> {
    (0..4).map(|to| Message { to, note: what, cards: cards.to_vec() }).collect()
}

struct Table {
    game: TichuGame,
    players: Vec<Player>,
    hands: Vec<Vec<Card>>,
}

impl Table {
    /// A table at which everybody has taken up a hand.
    fn seated() -> Table {
        let mut game = TichuGame::new();
        game.shuffle_and_deal();
        let mut players = Vec::new();
        let mut hands = Vec::new();
        for seat in 0..4 {
            let mut player = Player::new(format!("player {}", seat));
            let sent = handle_command(&mut game, &mut player, seat, "takecards");
            assert_eq!(sent[0].to, seat);
            assert_eq!(sent[0].note, Note::Hand);
            hands.push(sent[0].cards.clone());
            players.push(player);
        }
        Table { game, players, hands }
    }

    fn send(&mut self, seat: usize, line: &str) -> Vec<Message> {
        handle_command(&mut self.game, &mut self.players[seat], seat, line)
    }

    fn id_of(&self, seat: usize, card: Card) -> Option<usize> {
        self.hands[seat].iter().position(|held| *held == card)
    }

    fn holder_of(&self, card: Card) -> usize {
        (0..4).find(|seat| self.id_of(*seat, card).is_some()).unwrap()
    }
}

#[test]
fn words_behind_the_first_are_the_parameters() {
    assert_eq!(parse_command_parameters("play 1 2 3"), Some(vec![1, 2, 3]));
    assert_eq!(parse_command_parameters("  play   12\t7  "), Some(vec![12, 7]));
    assert_eq!(parse_command_parameters("play"), Some(vec![]));
    assert_eq!(parse_command_parameters(""), Some(vec![]));
    assert_eq!(parse_command_parameters("   "), Some(vec![]));
    assert_eq!(parse_command_parameters("7 8"), Some(vec![8]));
    assert_eq!(parse_command_parameters("play +5 007"), Some(vec![5, 7]));
    assert_eq!(parse_command_parameters("play\u{a0}4\u{2003}5"), Some(vec![4, 5]));
}

#[test]
fn words_that_write_no_number_give_no_parameters() {
    assert_eq!(parse_command_parameters("play 1 x"), None);
    assert_eq!(parse_command_parameters("play -1"), None);
    assert_eq!(parse_command_parameters("play +"), None);
    assert_eq!(parse_command_parameters("play 1,2"), None);
    assert_eq!(parse_command_parameters("play 1.5"), None);
    assert_eq!(parse_command_parameters("play 99999999999999999999999999"), None);
    assert_eq!(parse_command_parameters("play 18446744073709551616"), None);
    assert_eq!(
        parse_command_parameters("play 18446744073709551615"),
        "18446744073709551615".parse::<usize>().ok().map(|n| vec![n])
    );
}

#[test]
fn the_verb_of_a_line() {
    assert_eq!(parse_verb("takecards"), Verb::TakeCards);
    assert_eq!(parse_verb("pass"), Verb::Pass);
    assert_eq!(parse_verb("play 1 2"), Verb::Play);
    assert_eq!(parse_verb("play"), Verb::Play);
    assert_eq!(parse_verb("playing"), Verb::Play);
    assert_eq!(parse_verb("takecards "), Verb::Unknown);
    assert_eq!(parse_verb(" pass"), Verb::Unknown);
    assert_eq!(parse_verb("passing"), Verb::Unknown);
    assert_eq!(parse_verb("pla"), Verb::Unknown);
    assert_eq!(parse_verb("stage 1 2"), Verb::Unknown);
    assert_eq!(parse_verb("unstage 1 2"), Verb::Unknown);
    assert_eq!(parse_verb(""), Verb::Unknown);
}

#[test]
fn a_hand_is_written_card_by_card() {
    let hand = vec![
        Card::regular(RegularKind::Queen, Color::Red),
        Card::special(SpecialKind::Phoenix),
        Card::regular(RegularKind::Two, Color::Black),
        Card::special(SpecialKind::One),
    ];
    assert_eq!(format_hand(&hand), "Queen(Red),Phoenix,Two(Black),One,");
    assert_eq!(format_hand(&Vec::new()), "");
    assert_eq!(
        format_hand(&vec![
            Card::regular(RegularKind::Ten, Color::Green),
            Card::regular(RegularKind::Jack, Color::Blue),
            Card::special(SpecialKind::Dragon),
            Card::special(SpecialKind::Dog),
        ]),
        "Ten(Green),Jack(Blue),Dragon,Dog,"
    );
}

#[test]
fn messages_as_lines() {
    let cards = vec![Card::regular(RegularKind::King, Color::Blue)];
    assert_eq!(note(0, Note::Done).text(), "ok:");
    assert_eq!(Message { to: 1, note: Note::Hand, cards: cards.clone() }.text(), "ok:King(Blue),");
    assert_eq!(note(0, Note::NoHand).text(), "err:there is no hand for you at the moment");
    assert_eq!(note(0, Note::NotYourTurn).text(), "err:It's not your turn");
    assert_eq!(note(0, Note::NotValid).text(), "err:Your cards don't form a valid trick");
    assert_eq!(note(0, Note::TooLow).text(), "err:Your trick is lower than the current trick");
    assert_eq!(
        note(0, Note::Incompatible).text(),
        "err:Your trick is incompatible with the current trick"
    );
    assert_eq!(note(0, Note::InvalidCard).text(), "err:something went wrong on the server side");
    assert_eq!(note(0, Note::InvalidCommand).text(), "err:invalid command");
    assert_eq!(note(2, Note::YourTurn).text(), "push:yourturn:");
    assert_eq!(note(2, Note::ClearTable).text(), "push:cleartable:");
    assert_eq!(note(2, Note::ClearCards).text(), "push:clearcards:");
    assert_eq!(
        Message { to: 3, note: Note::NewTrick, cards }.text(),
        "push:newtrick:King(Blue),"
    );
}

#[test]
fn taking_cards_gives_the_turn_to_the_holder_of_the_one() {
    let mut game = TichuGame::new();
    game.shuffle_and_deal();
    let one = Card::special(SpecialKind::One);
    let mut holders = 0;
    for seat in 0..4 {
        let mut player = Player::new(String::new());
        let sent = handle_command(&mut game, &mut player, seat, "takecards");
        assert_eq!(sent[0].note, Note::Hand);
        assert_eq!(sent[0].to, seat);
        assert_eq!(sent[0].cards.len(), 13);
        assert!(player.has_cards());
        if sent[0].cards.contains(&one) {
            holders += 1;
            assert_eq!(sent.len(), 2);
            assert_eq!(sent[1], note(seat, Note::YourTurn));
            assert_eq!(game.current_player, seat);
        } else {
            assert_eq!(sent.len(), 1);
        }
        // there is no second hand
        let again = handle_command(&mut game, &mut player, seat, "takecards");
        assert_eq!(again, vec![note(seat, Note::NoHand)]);
    }
    assert_eq!(holders, 1);
}

#[test]
fn only_the_player_whose_turn_it_is_may_move() {
    let mut table = Table::seated();
    let turn = table.game.current_player;
    let other = (turn + 1) % 4;
    assert_eq!(table.send(other, "pass"), vec![note(other, Note::NotYourTurn)]);
    assert_eq!(table.send(other, "play 0"), vec![note(other, Note::NotYourTurn)]);
    assert_eq!(table.send(other, "play nothing"), vec![note(other, Note::NotYourTurn)]);
    assert_eq!(table.game.current_player, turn);
    assert_eq!(table.game.passes(), 0);
    assert!(table.game.get_current_trick().is_none());
}

#[test]
fn lines_that_are_no_command_are_turned_down() {
    let mut table = Table::seated();
    let turn = table.game.current_player;
    assert_eq!(table.send(turn, "stage 1 2"), vec![note(turn, Note::InvalidCommand)]);
    assert_eq!(table.send(turn, ""), vec![note(turn, Note::InvalidCommand)]);
    assert_eq!(table.send(turn, "play 1 two"), vec![note(turn, Note::InvalidCommand)]);
    let many = format!("play{}", " 0".repeat(700));
    assert_eq!(table.send(turn, &many), vec![note(turn, Note::InvalidCommand)]);
    assert_eq!(table.game.current_player, turn);
    assert!(table.game.get_current_trick().is_none());
}

#[test]
fn plays_that_the_rules_turn_down() {
    let mut table = Table::seated();
    let turn = table.game.current_player;
    assert_eq!(table.send(turn, "play 13"), vec![note(turn, Note::InvalidCard)]);
    assert_eq!(table.send(turn, "play"), vec![note(turn, Note::NotValid)]);
    let one = table.id_of(turn, Card::special(SpecialKind::One)).unwrap();
    let line = format!("play {}", one);
    assert_eq!(table.send(turn, &line).len(), 6);
    // the same card cannot be played again, by whoever is next
    let next = table.game.current_player;
    assert_eq!(next, (turn + 1) % 4);
    assert_eq!(table.send(turn, &line), vec![note(turn, Note::NotYourTurn)]);
    // two cards against the single one on the table
    assert_eq!(table.send(next, "play 0 1"), vec![note(next, Note::Incompatible)]);
}

#[test]
fn a_play_is_answered_shown_to_all_and_moves_the_turn() {
    let mut table = Table::seated();
    let one = Card::special(SpecialKind::One);
    let turn = table.holder_of(one);
    assert_eq!(table.game.current_player, turn);
    let line = format!("play {}", table.id_of(turn, one).unwrap());
    let sent = table.send(turn, &line);
    let next = (turn + 1) % 4;
    let mut expected = vec![note(turn, Note::Done)];
    expected.extend(to_all(Note::NewTrick, &[one]));
    expected.push(note(next, Note::YourTurn));
    assert_eq!(sent, expected);
    assert_eq!(table.game.current_player, next);
    assert_eq!(table.game.get_current_trick().unwrap().cards(), &vec![one]);
    // a singlet that does not beat the one is too low
    for (id, card) in table.hands[next].clone().iter().enumerate() {
        if card.rank == 0 && *card != Card::special(SpecialKind::Phoenix) {
            let sent = table.send(next, &format!("play {}", id));
            assert_eq!(sent, vec![note(next, Note::TooLow)]);
        }
    }
}

#[test]
fn three_passes_clear_the_table_for_all() {
    let mut table = Table::seated();
    let one = Card::special(SpecialKind::One);
    let turn = table.holder_of(one);
    let line = format!("play {}", table.id_of(turn, one).unwrap());
    table.send(turn, &line);
    for step in 1..3 {
        let seat = (turn + step) % 4;
        let sent = table.send(seat, "pass");
        assert_eq!(sent, vec![note(seat, Note::Done), note((seat + 1) % 4, Note::YourTurn)]);
    }
    let last = (turn + 3) % 4;
    let sent = table.send(last, "pass");
    let mut expected = vec![note(last, Note::Done)];
    expected.extend(to_all(Note::ClearTable, &[]));
    expected.push(note(turn, Note::YourTurn));
    assert_eq!(sent, expected);
    assert!(table.game.get_current_trick().is_none());
    assert_eq!(table.game.current_player, turn);
}

#[test]
fn the_dog_passes_the_turn_across_the_table() {
    let mut table = Table::seated();
    let dog = Card::special(SpecialKind::Dog);
    let seat = table.holder_of(dog);
    table.game.give_turn(seat);
    let line = format!("play {}", table.id_of(seat, dog).unwrap());
    let sent = table.send(seat, &line);
    assert_eq!(sent.len(), 6);
    assert_eq!(sent[5], note((seat + 2) % 4, Note::YourTurn));
}

#[test]
fn a_round_ends_when_two_of_a_team_have_played_their_cards() {
    let mut game = TichuGame::new();
    let mut first = Player::new("first".to_string());
    let mut third = Player::new("third".to_string());
    first.take_new_hand(vec![Card::regular(RegularKind::Two, Color::Red)]);
    third.take_new_hand(vec![Card::regular(RegularKind::Three, Color::Red)]);
    let sent = handle_command(&mut game, &mut first, 0, "play 0");
    assert_eq!(sent.len(), 6);
    assert_eq!(sent[5], note(1, Note::YourTurn));
    assert!(game.is_finished(0));
    let mut second = Player::new("second".to_string());
    second.take_new_hand(vec![Card::regular(RegularKind::Two, Color::Blue)]);
    let sent = handle_command(&mut game, &mut second, 1, "pass");
    assert_eq!(sent, vec![note(1, Note::Done), note(2, Note::YourTurn)]);
    let sent = handle_command(&mut game, &mut third, 2, "play 0");
    let three = Card::regular(RegularKind::Three, Color::Red);
    let mut expected = vec![note(2, Note::Done)];
    expected.extend(to_all(Note::NewTrick, &[three]));
    expected.extend(to_all(Note::ClearTable, &[]));
    expected.extend(to_all(Note::ClearCards, &[]));
    expected.push(note(0, Note::YourTurn));
    assert_eq!(sent, expected);
    assert_eq!(game.get_current_score(), (200, 0));
    // the next round is dealt
    assert_eq!(game.finished_count(), 0);
    assert!(game.get_current_trick().is_none());
    assert_eq!(handle_command(&mut game, &mut second, 1, "takecards")[0].cards.len(), 13);
}

#[test]
fn passing_without_cards_leaves_the_round() {
    let mut game = TichuGame::new();
    let mut idle = Player::new("idle".to_string());
    let sent = handle_command(&mut game, &mut idle, 0, "pass");
    assert_eq!(sent, vec![note(0, Note::Done), note(1, Note::YourTurn)]);
    assert!(game.is_finished(0));
    assert_eq!(game.passes(), 1);
}
