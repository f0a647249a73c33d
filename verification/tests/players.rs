use tichu::combinations::{Combination, Trick};
use tichu::deck::{Card, Color, RegularKind, SpecialKind};
use tichu::player::{Player, PlayerError};

fn hand() -> Vec<Card> {
    vec![
        Card::regular(RegularKind::Six, Color::Red),
        Card::regular(RegularKind::Six, Color::Blue),
        Card::regular(RegularKind::Nine, Color::Blue),
        Card::special(SpecialKind::Phoenix),
        Card::regular(RegularKind::Six, Color::Green),
    ]
}

fn seated() -> Player {
    let mut player = Player::new("ada".to_string());
    player.take_new_hand(hand());
    player
}

fn pair_of(kind: RegularKind) -> Trick {
    let mut trick = Trick::new();
    trick.push(Card::regular(kind, Color::Black));
    trick.push(Card::regular(kind, Color::Green));
    trick
}

#[test]
fn a_new_player_has_a_name_and_no_cards() {
    let player = Player::new("ada".to_string());
    assert_eq!(player.username, "ada");
    assert!(!player.has_cards());
}

#[test]
fn playing_onto_an_empty_table() {
    let mut player = seated();
    assert!(player.has_cards());
    let played = player.play(None, &vec![1, 0]).ok().unwrap();
    assert_eq!(played.combination, Some(Combination::Doublet));
    assert_eq!(played.cards(), &vec![hand()[1], hand()[0]]);
    // the cards are gone, the others keep their ids
    assert_eq!(player.play(None, &vec![0]).err(), Some(PlayerError::InvalidCard));
    assert_eq!(player.play(None, &vec![1]).err(), Some(PlayerError::InvalidCard));
    let nine = player.play(None, &vec![2]).ok().unwrap();
    assert_eq!(nine.cards(), &vec![hand()[2]]);
}

#[test]
fn an_id_that_is_not_held_is_an_invalid_card() {
    let mut player = seated();
    assert_eq!(player.play(None, &vec![0, 5]).err(), Some(PlayerError::InvalidCard));
    assert_eq!(player.play(Some(&pair_of(RegularKind::Two)), &vec![7]).err(), Some(PlayerError::InvalidCard));
    // nothing was taken from the hand
    assert!(player.play(None, &vec![0, 1, 4]).is_ok());
}

#[test]
fn cards_that_form_nothing_are_not_valid() {
    let mut player = seated();
    assert_eq!(player.play(None, &vec![0, 2]).err(), Some(PlayerError::NotValid));
    assert_eq!(player.play(None, &vec![]).err(), Some(PlayerError::NotValid));
    assert!(player.play(None, &vec![0, 1]).is_ok());
}

#[test]
fn a_lower_trick_is_too_low() {
    let mut player = seated();
    let table = pair_of(RegularKind::Ten);
    assert_eq!(player.play(Some(&table), &vec![0, 1]).err(), Some(PlayerError::TooLow));
    // with the phoenix beside the nine the pair counts 18, still below 20
    assert_eq!(player.play(Some(&table), &vec![2, 3]).err(), Some(PlayerError::TooLow));
    let low = pair_of(RegularKind::Two);
    let played = player.play(Some(&low), &vec![2, 3]).ok().unwrap();
    assert_eq!(played.combination, Some(Combination::Doublet));
    assert_eq!(player.play(Some(&low), &vec![3]).err(), Some(PlayerError::InvalidCard));
}

#[test]
fn another_shape_is_incompatible() {
    let mut player = seated();
    let table = pair_of(RegularKind::Two);
    assert_eq!(player.play(Some(&table), &vec![0, 1, 4]).err(), Some(PlayerError::Incompatible));
    assert_eq!(player.play(Some(&table), &vec![0, 2]).err(), Some(PlayerError::Incompatible));
    assert_eq!(player.play(Some(&table), &vec![2]).err(), Some(PlayerError::Incompatible));
}

#[test]
fn a_player_without_cards_has_none() {
    let mut player = seated();
    assert!(player.play(None, &vec![0, 1, 4]).is_ok());
    assert!(player.has_cards());
    assert!(player.play(None, &vec![3, 2]).is_ok());
    assert!(!player.has_cards());
}

#[test]
fn a_new_hand_takes_the_ids_from_zero() {
    let mut player = seated();
    assert!(player.play(None, &vec![0]).is_ok());
    player.take_new_hand(vec![
        Card::special(SpecialKind::Dragon),
        Card::special(SpecialKind::Dog),
    ]);
    let dragon = player.play(None, &vec![0]).ok().unwrap();
    assert_eq!(dragon.cards(), &vec![Card::special(SpecialKind::Dragon)]);
    // the ids behind the new hand still name the cards held before
    let nine = player.play(None, &vec![2]).ok().unwrap();
    assert_eq!(nine.cards(), &vec![hand()[2]]);
}
