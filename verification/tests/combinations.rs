use tichu::combinations::{find_combination, Combination, Trick};
use tichu::deck::{Card, Color, RegularKind, SpecialKind};

#[test]
fn test_find_doublet() {
    let hand = [
        Card::regular(RegularKind::Six, Color::Green),
        Card::special(SpecialKind::Phoenix),
    ];
    assert_eq!(find_combination(&hand), Some(Combination::Doublet));
}

#[test]
fn test_find_triplet() {
    // check triplet with phoenix
    let hand = [
        Card::special(SpecialKind::Phoenix),
        Card::regular(RegularKind::Six, Color::Green),
        Card::regular(RegularKind::Six, Color::Blue),
    ];
    assert_eq!(find_combination(&hand), Some(Combination::Triplet));
    // check triplet without pheonix
    let hand = [
        Card::regular(RegularKind::Six, Color::Black),
        Card::regular(RegularKind::Six, Color::Green),
        Card::regular(RegularKind::Six, Color::Blue),
    ];
    assert_eq!(find_combination(&hand), Some(Combination::Triplet));
    // check invalid triplet
    let hand = [
        Card::regular(RegularKind::Six, Color::Black),
        Card::regular(RegularKind::Six, Color::Green),
        Card::regular(RegularKind::Seven, Color::Black),
    ];
    assert_eq!(find_combination(&hand), None);
}

#[test]
fn test_find_bomb() {
    // check valid bomb
    let hand = [
        Card::regular(RegularKind::Six, Color::Black),
        Card::regular(RegularKind::Six, Color::Green),
        Card::regular(RegularKind::Six, Color::Blue),
        Card::regular(RegularKind::Six, Color::Red),
    ];
    assert_eq!(find_combination(&hand), Some(Combination::Bomb));
    // check invalid bomb
    let hand = [
        Card::special(SpecialKind::Phoenix),
        Card::regular(RegularKind::Six, Color::Green),
        Card::regular(RegularKind::Six, Color::Blue),
        Card::regular(RegularKind::Six, Color::Red),
    ];
    assert_ne!(find_combination(&hand), Some(Combination::Bomb));
}

#[test]
fn test_find_fullhouse() {
    // test valid fullhouse
    let hand = [
        Card::regular(RegularKind::Six, Color::Black),
        Card::regular(RegularKind::Six, Color::Green),
        Card::regular(RegularKind::King, Color::Green),
        Card::regular(RegularKind::King, Color::Blue),
        Card::regular(RegularKind::King, Color::Red),
    ];
    assert_eq!(find_combination(&hand), Some(Combination::FullHouse));
    let hand = [
        Card::regular(RegularKind::Six, Color::Black),
        Card::regular(RegularKind::Six, Color::Green),
        Card::special(SpecialKind::Phoenix),
        Card::regular(RegularKind::King, Color::Blue),
        Card::regular(RegularKind::King, Color::Red),
    ];
    assert_eq!(find_combination(&hand), Some(Combination::FullHouse));
}

#[test]
fn test_find_straight() {
    // test regular straight
    let hand = [
        Card::regular(RegularKind::Three, Color::Blue),
        Card::regular(RegularKind::Four, Color::Blue),
        Card::regular(RegularKind::Five, Color::Red),
        Card::regular(RegularKind::Six, Color::Blue),
        Card::regular(RegularKind::Seven, Color::Blue),
    ];
    assert_eq!(find_combination(&hand), Some(Combination::Straight));
    // a run of seven: beyond five cards only an even number can be a combination
    let hand = [
        Card::special(SpecialKind::One),
        Card::regular(RegularKind::Two, Color::Blue),
        Card::special(SpecialKind::Phoenix),
        Card::regular(RegularKind::Four, Color::Blue),
        Card::regular(RegularKind::Five, Color::Blue),
        Card::regular(RegularKind::Six, Color::Blue),
        Card::regular(RegularKind::Seven, Color::Blue),
    ];
    assert_eq!(find_combination(&hand), None);
}

#[test]
fn test_find_straightflush() {
    let hand = [
        Card::regular(RegularKind::Three, Color::Blue),
        Card::regular(RegularKind::Four, Color::Blue),
        Card::regular(RegularKind::Five, Color::Blue),
        Card::regular(RegularKind::Six, Color::Blue),
        Card::regular(RegularKind::Seven, Color::Blue),
    ];
    assert_eq!(find_combination(&hand), Some(Combination::StraightFlush));
}

#[test]
fn test_find_stairs() {
    // check valid stair
    let hand = [
        Card::regular(RegularKind::Nine, Color::Black),
        Card::regular(RegularKind::Nine, Color::Green),
        Card::special(SpecialKind::Phoenix),
        Card::regular(RegularKind::Ten, Color::Black),
        Card::regular(RegularKind::Jack, Color::Red),
        Card::regular(RegularKind::Jack, Color::Black),
    ];
    assert_eq!(find_combination(&hand), Some(Combination::Stairs));
    // check invalid stair
    let hand = [
        Card::regular(RegularKind::Nine, Color::Black),
        Card::regular(RegularKind::Nine, Color::Green),
        Card::special(SpecialKind::Phoenix),
        Card::regular(RegularKind::Ten, Color::Black),
        Card::regular(RegularKind::Jack, Color::Red),
        Card::regular(RegularKind::Jack, Color::Black),
        Card::regular(RegularKind::Queen, Color::Green),
        Card::regular(RegularKind::King, Color::Green),
    ];
    assert_eq!(find_combination(&hand), None);
}

#[test]
fn test_trick() {
    let mut trick = Trick::new();
    let king = Card::regular(RegularKind::King, Color::Black);
    let queen = Card::regular(RegularKind::Queen, Color::Red);
    trick.insert(0, queen);
    assert_eq!(trick.combination, Some(Combination::Singlet));
    trick.insert(1, king);
    assert_eq!(trick.combination, None);
    let king2 = trick.remove(1);
    assert_eq!(king, king2);
    let phoenix = Card::special(SpecialKind::Phoenix);
    trick.insert(0, phoenix);
    assert_eq!(trick.combination, Some(Combination::Doublet));
}

#[test]
fn test_tops_bomb() {
    let mut bomb = Trick::new();
    let redking = Card::regular(RegularKind::King, Color::Red);
    let blueking = Card::regular(RegularKind::King, Color::Blue);
    let greenking = Card::regular(RegularKind::King, Color::Green);
    let blackking = Card::regular(RegularKind::King, Color::Black);
    bomb.push(redking);
    bomb.push(blueking);
    bomb.push(greenking);
    bomb.push(blackking);
    let mut something = Trick::new();
    let blueten = Card::regular(RegularKind::Ten, Color::Blue);
    let greenten = Card::regular(RegularKind::Ten, Color::Green);
    something.push(blueten);
    something.push(greenten);
    assert_eq!(bomb.tops(&something), Some(true));
    assert_eq!(something.tops(&bomb), None); // not compatible
}

#[test]
fn test_tops_doublet() {
    let mut trick1 = Trick::new();
    let blackfive = Card::regular(RegularKind::Five, Color::Black);
    let bluefive = Card::regular(RegularKind::Five, Color::Blue);
    trick1.push(blackfive);
    trick1.push(bluefive);
    let mut trick2 = Trick::new();
    let redten = Card::regular(RegularKind::Ten, Color::Red);
    let blueten = Card::regular(RegularKind::Ten, Color::Blue);
    trick2.push(redten);
    trick2.push(blueten);
    assert_eq!(trick2.tops(&trick1), Some(true));
    assert_eq!(trick1.tops(&trick2), Some(false));
    // check with phoenix
    let mut trick3 = Trick::new();
    let redten = Card::regular(RegularKind::Ten, Color::Red);
    let phoenix = Card::special(SpecialKind::Phoenix);
    trick3.push(redten);
    trick3.push(phoenix);
    assert_eq!(trick3.tops(&trick1), Some(true));
}

#[test]
fn test_tops_fullhouse() {
    // construct a regular fullhouse
    let mut trick1 = Trick::new();
    let bluesix = Card::regular(RegularKind::Six, Color::Blue);
    let greensix = Card::regular(RegularKind::Six, Color::Green);
    let bluetwo = Card::regular(RegularKind::Two, Color::Blue);
    let blacktwo = Card::regular(RegularKind::Two, Color::Black);
    let greentwo = Card::regular(RegularKind::Two, Color::Green);
    trick1.push(bluesix);
    trick1.push(greensix);
    trick1.push(bluetwo);
    trick1.push(blacktwo);
    trick1.push(greentwo);
    println!("trick1 rank {}", trick1.total_rank());
    // construct a bigger fullhouse with phoenix
    let mut trick2 = Trick::new();
    let bluesix = Card::regular(RegularKind::Six, Color::Blue);
    let greensix = Card::regular(RegularKind::Six, Color::Green);
    let phoenix = Card::special(SpecialKind::Phoenix);
    let blacktwo = Card::regular(RegularKind::Two, Color::Black);
    let greentwo = Card::regular(RegularKind::Two, Color::Green);
    trick2.push(bluesix);
    trick2.push(greensix);
    trick2.push(phoenix);
    trick2.push(blacktwo);
    trick2.push(greentwo);
    println!("trick2 rank {}", trick2.total_rank());
    assert_eq!(trick2.tops(&trick1), Some(true));
}
