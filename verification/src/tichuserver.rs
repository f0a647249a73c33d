//! What the server decides: how a client's line is read, what it does to the
//! game and to the player's hand, and which messages go out to whom, in order.
//! Connections, threads and locks are the caller's business.

use crate::deck::{
    dealt_hand, lemma_deal_full_deck, special_card, Card, Color, Kind, RegularKind, SpecialKind,
};
use crate::player::{all_held, numbered, objection, picked, Player, PlayerError};
use crate::tichugame::{weight, GameState, RoundStatus, TichuGame, POINT_CAPACITY};
use vstd::prelude::*;
use vstd::slice::slice_to_vec;
use vstd::string::StringExecFns;

verus! {

/// White space, as Unicode defines it.
pub open spec fn is_blank(c: char) -> bool {
    ||| '\u{9}' <= c <= '\u{d}'
    ||| c == ' '
    ||| c == '\u{85}'
    ||| c == '\u{a0}'
    ||| c == '\u{1680}'
    ||| '\u{2000}' <= c <= '\u{200a}'
    ||| c == '\u{2028}'
    ||| c == '\u{2029}'
    ||| c == '\u{202f}'
    ||| c == '\u{205f}'
    ||| c == '\u{3000}'
}

/// Length of the word at the front of the text: the characters before the
/// first blank.
pub open spec fn word_len(text: Seq<char>) -> int
    decreases text.len(),
{
    if text.len() == 0 || is_blank(text[0]) {
        0
    } else {
        1 + word_len(text.drop_first())
    }
}

/// The words of the text: its longest runs of characters that are not blank.
pub open spec fn words(text: Seq<char>) -> Seq<Seq<char>>
    decreases text.len(),
{
    if text.len() == 0 {
        Seq::empty()
    } else if is_blank(text[0]) {
        words(text.drop_first())
    } else if 0 < word_len(text) <= text.len() {
        seq![text.take(word_len(text))] + words(text.skip(word_len(text)))
    } else {
        Seq::empty()
    }
}

pub open spec fn is_digit(c: char) -> bool {
    '0' <= c <= '9'
}

/// The number that decimal digits write.
pub open spec fn digits_value(digits: Seq<char>) -> int
    decreases digits.len(),
{
    if digits.len() == 0 {
        0
    } else {
        10 * digits_value(digits.drop_last()) + (digits.last() as int - '0' as int)
    }
}

/// The digits of a word: the word without a leading plus sign.
pub open spec fn unsigned_part(word: Seq<char>) -> Seq<char> {
    if word.len() > 0 && word[0] == '+' {
        word.drop_first()
    } else {
        word
    }
}

/// The number that a word writes: one or more decimal digits, behind a plus
/// sign or not, whose value a `usize` holds. Any other word writes none.
pub open spec fn number_of(word: Seq<char>) -> Option<usize> {
    let digits = unsigned_part(word);
    if digits.len() > 0 && (forall|i: int| 0 <= i < digits.len() ==> is_digit(#[trigger] digits[i]))
        && digits_value(digits) <= usize::MAX {
        Some(digits_value(digits) as usize)
    } else {
        None
    }
}

/// The numbers that the words write, if every word writes one.
pub open spec fn numbers_of(tokens: Seq<Seq<char>>) -> Option<Seq<usize>>
    decreases tokens.len(),
{
    if tokens.len() == 0 {
        Some(Seq::empty())
    } else {
        match (numbers_of(tokens.drop_last()), number_of(tokens.last())) {
            (Some(numbers), Some(number)) => Some(numbers.push(number)),
            _ => None,
        }
    }
}

/// The parameters of a command line: the numbers that its words behind the
/// first write, if each of them writes one.
pub open spec fn parameters_of(line: Seq<char>) -> Option<Seq<usize>> {
    if words(line).len() == 0 {
        Some(Seq::empty())
    } else {
        numbers_of(words(line).drop_first())
    }
}

/// The word at the front of a text is no longer than the text, is not empty
/// where the text begins with a character that is not blank, holds no blank,
/// and ends at a blank or at the end of the text.
pub proof fn lemma_word_len(text: Seq<char>)
    ensures
        0 <= word_len(text) <= text.len(),
        text.len() > 0 && !is_blank(text[0]) ==> word_len(text) > 0,
        forall|i: int| 0 <= i < word_len(text) ==> !is_blank(#[trigger] text[i]),
        word_len(text) < text.len() ==> is_blank(text[word_len(text)]),
    decreases text.len(),
{
    if text.len() > 0 && !is_blank(text[0]) {
        let rest = text.drop_first();
        lemma_word_len(rest);
        assert forall|i: int| 0 <= i < word_len(text) implies !is_blank(#[trigger] text[i]) by {
            if i > 0 {
                assert(text[i] == rest[i - 1]);
            }
        }
        if word_len(text) < text.len() {
            assert(text[word_len(text)] == rest[word_len(rest)]);
        }
    }
}

/// The characters of a text.
pub fn chars_of(text: &str) -> (chars: Vec<char>)
    ensures
        chars@ == text@,
{
    let mut chars: Vec<char> = Vec::new();
    for c in it: text.chars()
        invariant
            it.seq() == text@,
            chars@ == text@.take(it.index() as int),
    {
        chars.push(c);
        assert(text@.take(it.index() + 1) =~= text@.take(it.index() as int).push(c));
    }
    assert(text@.take(text@.len() as int) =~= text@);
    chars
}

/// Decides `is_blank`.
pub fn check_blank(c: char) -> (blank: bool)
    ensures
        blank == is_blank(c),
{
    ('\u{9}' <= c && c <= '\u{d}') || c == ' ' || c == '\u{85}' || c == '\u{a0}' || c == '\u{1680}'
        || ('\u{2000}' <= c && c <= '\u{200a}') || c == '\u{2028}' || c == '\u{2029}' || c
        == '\u{202f}' || c == '\u{205f}' || c == '\u{3000}'
}

/// The views of the words collected so far.
pub open spec fn word_views(words: Seq<Vec<char>>) -> Seq<Seq<char>> {
    Seq::new(words.len(), |i: int| words[i]@)
}

/// Splits a text into its words.
pub fn split_words(text: &Vec<char>) -> (found: Vec<Vec<char>>)
    ensures
        word_views(found@) == words(text@),
{
    let mut found: Vec<Vec<char>> = Vec::new();
    let mut i: usize = 0;
    assert(text@.skip(0) =~= text@);
    assert(word_views(found@) =~= Seq::<Seq<char>>::empty());
    while i < text.len()
        invariant
            i <= text.len(),
            words(text@) == word_views(found@) + words(text@.skip(i as int)),
        decreases text.len() - i,
    {
        let ghost rest = text@.skip(i as int);
        assert(rest[0] == text@[i as int]);
        if check_blank(text[i]) {
            assert(rest.drop_first() =~= text@.skip(i + 1));
            i += 1;
        } else {
            let mut word: Vec<char> = Vec::new();
            let mut j: usize = i;
            proof {
                lemma_word_len(rest);
            }
            while j < text.len() && !check_blank(text[j])
                invariant
                    i <= j <= text.len(),
                    rest == text@.skip(i as int),
                    word@ == rest.take(j - i),
                    j - i <= word_len(rest) <= rest.len(),
                    word_len(rest) < rest.len() ==> is_blank(rest[word_len(rest)]),
                    forall|k: int| 0 <= k < word_len(rest) ==> !is_blank(#[trigger] rest[k]),
                decreases text.len() - j,
            {
                assert(rest[j - i] == text@[j as int]);
                word.push(text[j]);
                assert(rest.take(j - i + 1) =~= rest.take(j - i).push(text@[j as int]));
                j += 1;
            }
            proof {
                if j < text.len() {
                    assert(rest[j - i] == text@[j as int]);
                }
                assert(j - i == word_len(rest));
                assert(rest.skip(j - i) =~= text@.skip(j as int));
                let before = word_views(found@);
                assert(word_views(found@.push(word)) =~= before + seq![word@]);
                assert(before + (seq![word@] + words(text@.skip(j as int))) =~= (before + seq![
                    word@,
                ]) + words(text@.skip(j as int)));
            }
            found.push(word);
            i = j;
        }
    }
    assert(text@.skip(i as int) =~= Seq::<char>::empty());
    assert(word_views(found@) + Seq::<Seq<char>>::empty() =~= word_views(found@));
    found
}

/// More digits never write a smaller number.
proof fn lemma_digits_grow(digits: Seq<char>, n: int)
    requires
        0 <= n <= digits.len(),
        forall|i: int| 0 <= i < digits.len() ==> is_digit(#[trigger] digits[i]),
    ensures
        0 <= digits_value(digits.take(n)) <= digits_value(digits),
    decreases digits.len() - n,
{
    if n == digits.len() {
        assert(digits.take(n) =~= digits);
        lemma_digits_not_negative(digits);
    } else {
        lemma_digits_grow(digits, n + 1);
        assert(digits.take(n + 1).drop_last() =~= digits.take(n));
        assert(is_digit(digits[n]));
        assert(digits.take(n + 1).last() == digits[n]);
        lemma_digits_not_negative(digits.take(n));
    }
}

proof fn lemma_digits_not_negative(digits: Seq<char>)
    requires
        forall|i: int| 0 <= i < digits.len() ==> is_digit(#[trigger] digits[i]),
    ensures
        0 <= digits_value(digits),
    decreases digits.len(),
{
    if digits.len() > 0 {
        lemma_digits_not_negative(digits.drop_last());
        assert(is_digit(digits[digits.len() - 1]));
    }
}

/// Reads the number that a word writes.
pub fn parse_number(word: &Vec<char>) -> (number: Option<usize>)
    ensures
        number == number_of(word@),
{
    let start: usize = if word.len() > 0 && word[0] == '+' {
        1
    } else {
        0
    };
    let ghost digits = unsigned_part(word@);
    assert(digits =~= word@.skip(start as int));
    if start == word.len() {
        return None;
    }
    let mut value: usize = 0;
    let mut i: usize = start;
    while i < word.len()
        invariant
            start <= i <= word.len(),
            digits == word@.skip(start as int),
            digits == unsigned_part(word@),
            digits.len() > 0,
            forall|k: int| 0 <= k < i - start ==> is_digit(#[trigger] digits[k]),
            value == digits_value(digits.take(i - start)),
        decreases word.len() - i,
    {
        let c = word[i];
        assert(digits[i - start] == c);
        if !('0' <= c && c <= '9') {
            assert(!is_digit(digits[i - start]));
            return None;
        }
        let digit: usize = (c as u32 - '0' as u32) as usize;
        proof {
            assert(digits.take(i - start + 1).drop_last() =~= digits.take(i - start));
            assert(digits.take(i - start + 1).last() == c);
        }
        if value > (usize::MAX - digit) / 10 {
            proof {
                if forall|k: int| 0 <= k < digits.len() ==> is_digit(#[trigger] digits[k]) {
                    lemma_digits_grow(digits, i - start + 1);
                    assert(digits_value(digits.take(i - start + 1)) == 10 * value + digit);
                }
            }
            return None;
        }
        value = 10 * value + digit;
        i += 1;
    }
    assert(digits.take(i - start) =~= digits);
    Some(value)
}

/// Reads the parameters of a command line.
pub fn parse_command_parameters(command: &str) -> (parameters: Option<Vec<usize>>)
    ensures
        match parameters {
            Some(numbers) => parameters_of(command@) == Some(numbers@),
            None => parameters_of(command@) is None,
        },
{
    let chars = chars_of(command);
    let tokens = split_words(&chars);
    let mut numbers: Vec<usize> = Vec::new();
    if tokens.len() == 0 {
        return Some(numbers);
    }
    let ghost rest = words(command@).drop_first();
    let mut i: usize = 1;
    assert(rest.take(0) =~= Seq::<Seq<char>>::empty());
    while i < tokens.len()
        invariant
            1 <= i <= tokens.len(),
            word_views(tokens@) == words(command@),
            rest == words(command@).drop_first(),
            numbers_of(rest.take(i - 1)) == Some(numbers@),
        decreases tokens.len() - i,
    {
        proof {
            assert(rest.take(i as int).drop_last() =~= rest.take(i - 1));
            assert(rest.take(i as int).last() == tokens@[i as int]@);
        }
        match parse_number(&tokens[i]) {
            Some(number) => {
                numbers.push(number);
            },
            None => {
                proof {
                    lemma_numbers_need_all(rest, i as int);
                }
                return None;
            },
        }
        i += 1;
    }
    assert(rest.take(i - 1) =~= rest);
    Some(numbers)
}

/// Where some words at the front write no numbers, the whole run writes none.
proof fn lemma_numbers_need_all(tokens: Seq<Seq<char>>, n: int)
    requires
        0 <= n <= tokens.len(),
        numbers_of(tokens.take(n)) is None,
    ensures
        numbers_of(tokens) is None,
    decreases tokens.len() - n,
{
    if n == tokens.len() {
        assert(tokens.take(n) =~= tokens);
    } else {
        assert(tokens.take(n + 1).drop_last() =~= tokens.take(n));
        lemma_numbers_need_all(tokens, n + 1);
    }
}

pub open spec fn kind_name(kind: RegularKind) -> Seq<char> {
    match kind {
        RegularKind::Two => "Two"@,
        RegularKind::Three => "Three"@,
        RegularKind::Four => "Four"@,
        RegularKind::Five => "Five"@,
        RegularKind::Six => "Six"@,
        RegularKind::Seven => "Seven"@,
        RegularKind::Eight => "Eight"@,
        RegularKind::Nine => "Nine"@,
        RegularKind::Ten => "Ten"@,
        RegularKind::Jack => "Jack"@,
        RegularKind::Queen => "Queen"@,
        RegularKind::King => "King"@,
    }
}

pub open spec fn special_name(kind: SpecialKind) -> Seq<char> {
    match kind {
        SpecialKind::Dragon => "Dragon"@,
        SpecialKind::Phoenix => "Phoenix"@,
        SpecialKind::Dog => "Dog"@,
        SpecialKind::One => "One"@,
    }
}

pub open spec fn color_name(color: Color) -> Seq<char> {
    match color {
        Color::Black => "Black"@,
        Color::Blue => "Blue"@,
        Color::Green => "Green"@,
        Color::Red => "Red"@,
    }
}

/// How a card is written: a special card by its name, a ranked card by the
/// name of its kind and, in brackets, the name of its color.
pub open spec fn card_text(card: Card) -> Seq<char> {
    match card.kind {
        Kind::Special(kind) => special_name(kind),
        Kind::Regular(kind) => match card.color {
            Some(color) => kind_name(kind) + "("@ + color_name(color) + ")"@,
            None => kind_name(kind),
        },
    }
}

/// How cards are written: each as `card_text` writes it, with a comma behind.
pub open spec fn hand_text(cards: Seq<Card>) -> Seq<char>
    decreases cards.len(),
{
    if cards.len() == 0 {
        Seq::empty()
    } else {
        hand_text(cards.drop_last()) + card_text(cards.last()) + ","@
    }
}

fn kind_word(kind: RegularKind) -> (word: &'static str)
    ensures
        word@ == kind_name(kind),
{
    match kind {
        RegularKind::Two => "Two",
        RegularKind::Three => "Three",
        RegularKind::Four => "Four",
        RegularKind::Five => "Five",
        RegularKind::Six => "Six",
        RegularKind::Seven => "Seven",
        RegularKind::Eight => "Eight",
        RegularKind::Nine => "Nine",
        RegularKind::Ten => "Ten",
        RegularKind::Jack => "Jack",
        RegularKind::Queen => "Queen",
        RegularKind::King => "King",
    }
}

fn special_word(kind: SpecialKind) -> (word: &'static str)
    ensures
        word@ == special_name(kind),
{
    match kind {
        SpecialKind::Dragon => "Dragon",
        SpecialKind::Phoenix => "Phoenix",
        SpecialKind::Dog => "Dog",
        SpecialKind::One => "One",
    }
}

fn color_word(color: Color) -> (word: &'static str)
    ensures
        word@ == color_name(color),
{
    match color {
        Color::Black => "Black",
        Color::Blue => "Blue",
        Color::Green => "Green",
        Color::Red => "Red",
    }
}

/// Writes a card behind the text.
fn write_card(text: &mut String, card: &Card)
    ensures
        final(text)@ == old(text)@ + card_text(*card),
{
    match card.kind {
        Kind::Special(kind) => {
            text.append(special_word(kind));
        },
        Kind::Regular(kind) => {
            text.append(kind_word(kind));
            match card.color {
                Some(color) => {
                    text.append("(");
                    text.append(color_word(color));
                    text.append(")");
                    assert(text@ =~= old(text)@ + (kind_name(kind) + "("@ + color_name(color) + ")"@));
                },
                None => {},
            }
        },
    }
}

/// Writes the cards behind the text.
fn write_hand(text: &mut String, hand: &Vec<Card>)
    ensures
        final(text)@ == old(text)@ + hand_text(hand@),
{
    let mut i: usize = 0;
    assert(text@ =~= old(text)@ + hand_text(hand@.subrange(0, 0)));
    while i < hand.len()
        invariant
            i <= hand.len(),
            text@ == old(text)@ + hand_text(hand@.subrange(0, i as int)),
        decreases hand.len() - i,
    {
        let ghost before = hand_text(hand@.subrange(0, i as int));
        write_card(text, &hand[i]);
        text.append(",");
        proof {
            assert(hand@.subrange(0, i + 1).drop_last() =~= hand@.subrange(0, i as int));
            assert(hand@.subrange(0, i + 1).last() == hand@[i as int]);
            assert(text@ =~= old(text)@ + (before + card_text(hand@[i as int]) + ","@));
        }
        i += 1;
    }
    assert(hand@.subrange(0, i as int) =~= hand@);
}

/// Writes a hand as it goes over the wire.
pub fn format_hand(hand: &Vec<Card>) -> (text: String)
    ensures
        text@ == hand_text(hand@),
{
    let mut text = String::new();
    write_hand(&mut text, hand);
    assert(Seq::<char>::empty() + hand_text(hand@) =~= hand_text(hand@));
    text
}

/// What a message says.
#[derive(Debug, PartialEq, Eq, Copy, Clone, Structural)]
pub enum Note {
    /// The command was carried out.
    Done,
    /// The command was carried out; the cards are the hand taken up.
    Hand,
    /// No hand waits for the player.
    NoHand,
    /// It is another player's turn.
    NotYourTurn,
    /// The cards named form no combination.
    NotValid,
    /// The cards named lose against the trick on the table.
    TooLow,
    /// The cards named cannot be compared with the trick on the table.
    Incompatible,
    /// An id names no card of the hand.
    InvalidCard,
    /// The line is no command.
    InvalidCommand,
    /// It is the receiver's turn.
    YourTurn,
    /// The table was cleared.
    ClearTable,
    /// The hands were cleared: a new round is dealt.
    ClearCards,
    /// The cards were played as a trick.
    NewTrick,
}

/// A message to the client at seat `to`.
#[derive(Debug, PartialEq, Eq)]
pub struct Message {
    pub to: usize,
    pub note: Note,
    pub cards: Vec<Card>,
}

/// The line that carries a note and its cards: an answer begins with `ok:` or
/// `err:`, a message that answers nothing with `push:` and its topic.
pub open spec fn wire_text(note: Note, cards: Seq<Card>) -> Seq<char> {
    match note {
        Note::Done => "ok:"@,
        Note::Hand => "ok:"@ + hand_text(cards),
        Note::NoHand => "err:there is no hand for you at the moment"@,
        Note::NotYourTurn => "err:It's not your turn"@,
        Note::NotValid => "err:Your cards don't form a valid trick"@,
        Note::TooLow => "err:Your trick is lower than the current trick"@,
        Note::Incompatible => "err:Your trick is incompatible with the current trick"@,
        Note::InvalidCard => "err:something went wrong on the server side"@,
        Note::InvalidCommand => "err:invalid command"@,
        Note::YourTurn => "push:yourturn:"@,
        Note::ClearTable => "push:cleartable:"@,
        Note::ClearCards => "push:clearcards:"@,
        Note::NewTrick => "push:newtrick:"@ + hand_text(cards),
    }
}

impl Message {
    /// The line that carries the message, without the line's end.
    pub fn text(&self) -> (text: String)
        ensures
            text@ == wire_text(self.note, self.cards@),
    {
        match self.note {
            Note::Done => String::from_str("ok:"),
            Note::Hand => {
                let mut text = String::from_str("ok:");
                write_hand(&mut text, &self.cards);
                text
            },
            Note::NoHand => String::from_str("err:there is no hand for you at the moment"),
            Note::NotYourTurn => String::from_str("err:It's not your turn"),
            Note::NotValid => String::from_str("err:Your cards don't form a valid trick"),
            Note::TooLow => String::from_str("err:Your trick is lower than the current trick"),
            Note::Incompatible => String::from_str(
                "err:Your trick is incompatible with the current trick",
            ),
            Note::InvalidCard => String::from_str("err:something went wrong on the server side"),
            Note::InvalidCommand => String::from_str("err:invalid command"),
            Note::YourTurn => String::from_str("push:yourturn:"),
            Note::ClearTable => String::from_str("push:cleartable:"),
            Note::ClearCards => String::from_str("push:clearcards:"),
            Note::NewTrick => {
                let mut text = String::from_str("push:newtrick:");
                write_hand(&mut text, &self.cards);
                text
            },
        }
    }
}

/// The command that a line gives.
#[derive(Debug, PartialEq, Eq, Copy, Clone, Structural)]
pub enum Verb {
    TakeCards,
    Play,
    Pass,
    Unknown,
}

/// The command that a line gives: `takecards` and `pass` are the whole line,
/// a play is any line that begins with `play`.
pub open spec fn verb_of(line: Seq<char>) -> Verb {
    if line == "takecards"@ {
        Verb::TakeCards
    } else if "play"@.is_prefix_of(line) {
        Verb::Play
    } else if line == "pass"@ {
        Verb::Pass
    } else {
        Verb::Unknown
    }
}

/// Whether the text begins with the prefix.
pub fn starts_with(text: &Vec<char>, prefix: &str) -> (begins: bool)
    ensures
        begins == prefix@.is_prefix_of(text@),
{
    let start = chars_of(prefix);
    if start.len() > text.len() {
        return false;
    }
    let mut i: usize = 0;
    while i < start.len()
        invariant
            i <= start.len() <= text.len(),
            start@ == prefix@,
            forall|k: int| 0 <= k < i ==> start@[k] == text@[k],
        decreases start.len() - i,
    {
        if start[i] != text[i] {
            assert(text@.subrange(0, start@.len() as int)[i as int] != start@[i as int]);
            return false;
        }
        i += 1;
    }
    assert(text@.subrange(0, start@.len() as int) =~= start@);
    true
}

/// Reads the command that a line gives.
pub fn parse_verb(line: &str) -> (verb: Verb)
    ensures
        verb == verb_of(line@),
{
    let chars = chars_of(line);
    let n = chars.len();
    assert(chars@.subrange(0, n as int) =~= chars@);
    let takecards = chars_of("takecards");
    let pass = chars_of("pass");
    if n == takecards.len() && starts_with(&chars, "takecards") {
        Verb::TakeCards
    } else if starts_with(&chars, "play") {
        Verb::Play
    } else if n == pass.len() && starts_with(&chars, "pass") {
        Verb::Pass
    } else {
        Verb::Unknown
    }
}

/// A message as plain values.
pub struct Post {
    pub to: int,
    pub note: Note,
    pub cards: Seq<Card>,
}

pub open spec fn post_of(message: Message) -> Post {
    Post { to: message.to as int, note: message.note, cards: message.cards@ }
}

/// The messages as plain values, in order.
pub open spec fn posts(messages: Seq<Message>) -> Seq<Post> {
    Seq::new(messages.len(), |i: int| post_of(messages[i]))
}

/// One message to one seat.
pub open spec fn to_one(seat: int, note: Note, cards: Seq<Card>) -> Seq<Post> {
    seq![Post { to: seat, note, cards }]
}

/// The same message to each seat, seat 0 first.
pub open spec fn to_all(note: Note, cards: Seq<Card>) -> Seq<Post> {
    Seq::new(4, |seat: int| Post { to: seat, note, cards })
}

/// The cards of a message that carries none.
pub open spec fn no_cards() -> Seq<Card> {
    Seq::empty()
}

/// What a command leads to: the game and the player's hand after it, and the
/// messages that go out, in order.
pub struct Outcome {
    pub game: GameState,
    pub hand: Map<usize, Card>,
    pub posts: Seq<Post>,
}

/// The note that tells a player why a play was turned down.
pub open spec fn refusal(error: PlayerError) -> Note {
    match error {
        PlayerError::InvalidCard => Note::InvalidCard,
        PlayerError::NotValid => Note::NotValid,
        PlayerError::TooLow => Note::TooLow,
        PlayerError::Incompatible => Note::Incompatible,
    }
}

/// The trick that a play has to beat, if the table is not empty.
pub open spec fn top_of(game: GameState) -> Option<Seq<Card>> {
    if game.tricks.len() > 0 {
        Some(game.tricks.last())
    } else {
        None
    }
}

/// The cards hold the one, which opens the round.
pub open spec fn holds_one(cards: Seq<Card>) -> bool {
    cards.contains(special_card(SpecialKind::One))
}

/// Whether the player at `seat` leaves the round now: the hand is empty, and
/// the seat can still be counted among those that have finished.
pub open spec fn leaves(game: GameState, hand: Map<usize, Card>, seat: int) -> bool {
    hand.len() == 0 && !game.finished.contains(seat) && game.finished.len() < 3
}

/// Whether a new round is dealt once the turn has moved on from `game`.
pub open spec fn deals_anew(game: GameState, hand: Map<usize, Card>, seat: int) -> bool {
    leaves(game.after_next(), hand, seat) && game.after_next().finish_status(seat)
        == RoundStatus::FinishRound
}

/// The game after a move of the player at `seat`, `game` being the game with
/// the move made and `hand` the hand left: the turn moves on; a player whose
/// hand is empty leaves the round; and where that ends the round without
/// ending the game, a new round is dealt from `deck`.
pub open spec fn moved_on(game: GameState, hand: Map<usize, Card>, seat: int, deck: Seq<Card>) -> GameState {
    let turned = game.after_next();
    if deals_anew(game, hand, seat) {
        turned.after_finish(seat).dealt(deck)
    } else if leaves(turned, hand, seat) {
        turned.after_finish(seat)
    } else {
        turned
    }
}

/// The messages after a move: all learn that the table was cleared where it
/// was collected; all learn that table and hands are cleared where a new round
/// is dealt; and the player whose turn it is then is told so.
pub open spec fn moved_on_posts(game: GameState, hand: Map<usize, Card>, seat: int) -> Seq<Post> {
    let collected = if game.next_status() == RoundStatus::TrickWin {
        to_all(Note::ClearTable, no_cards())
    } else {
        Seq::empty()
    };
    if deals_anew(game, hand, seat) {
        collected + to_all(Note::ClearTable, no_cards()) + to_all(Note::ClearCards, no_cards())
            + to_one(0, Note::YourTurn, no_cards())
    } else {
        collected + to_one(game.after_next().current_player, Note::YourTurn, no_cards())
    }
}

/// A command that is turned down changes nothing and is answered by one note.
pub open spec fn refused(game: GameState, hand: Map<usize, Card>, seat: int, note: Note) -> Outcome {
    Outcome { game, hand, posts: to_one(seat, note, no_cards()) }
}

/// Taking up cards: the hand that waits for the seat, if one does, goes to the
/// player, who is sent it; the holder of the one gets the turn and is told so.
pub open spec fn take_cards(game: GameState, hand: Map<usize, Card>, seat: int) -> Outcome {
    match game.hands[seat] {
        Some(cards) => Outcome {
            game: GameState {
                hands: game.hands.update(seat, None),
                current_player: if holds_one(cards) {
                    seat
                } else {
                    game.current_player
                },
                ..game
            },
            hand: hand.union_prefer_right(numbered(cards)),
            posts: to_one(seat, Note::Hand, cards) + (if holds_one(cards) {
                to_one(seat, Note::YourTurn, no_cards())
            } else {
                Seq::empty()
            }),
        },
        None => refused(game, hand, seat, Note::NoHand),
    }
}

/// Passing: only the player whose turn it is may; the pass is counted and
/// answered, and the round moves on.
pub open spec fn pass_turn(game: GameState, hand: Map<usize, Card>, seat: int, deck: Seq<Card>) -> Outcome {
    if game.current_player != seat {
        refused(game, hand, seat, Note::NotYourTurn)
    } else {
        let passed = GameState { passes: game.passes + 1, ..game };
        Outcome {
            game: moved_on(passed, hand, seat, deck),
            hand,
            posts: to_one(seat, Note::Done, no_cards()) + moved_on_posts(passed, hand, seat),
        }
    }
}

/// Whether the table has room for as many cards as `ids` names, each taken at
/// the most a card can weigh.
pub open spec fn has_room(game: GameState, ids: Seq<usize>) -> bool {
    25 * ids.len() <= POINT_CAPACITY - game.load()
}

/// Playing: only the player whose turn it is may. The line must give numbers,
/// and no more than the table has room for. Where nothing stands against the
/// play, the cards leave the hand and lie on the table as a trick, the player
/// is answered, all are shown the trick, and the round moves on.
pub open spec fn play_cards(
    game: GameState,
    hand: Map<usize, Card>,
    seat: int,
    line: Seq<char>,
    deck: Seq<Card>,
) -> Outcome {
    if game.current_player != seat {
        refused(game, hand, seat, Note::NotYourTurn)
    } else {
        match parameters_of(line) {
            None => refused(game, hand, seat, Note::InvalidCommand),
            Some(ids) => if !has_room(game, ids) {
                refused(game, hand, seat, Note::InvalidCommand)
            } else {
                match objection(hand, top_of(game), ids) {
                    Some(error) => refused(game, hand, seat, refusal(error)),
                    None => {
                        let trick = picked(hand, ids);
                        let left = hand.remove_keys(ids.to_set());
                        let laid = GameState { passes: 0, tricks: game.tricks.push(trick), ..game };
                        Outcome {
                            game: moved_on(laid, left, seat, deck),
                            hand: left,
                            posts: to_one(seat, Note::Done, no_cards()) + to_all(
                                Note::NewTrick,
                                trick,
                            ) + moved_on_posts(laid, left, seat),
                        }
                    },
                }
            },
        }
    }
}

/// What the line of the player at `seat` leads to. `deck` is the order of the
/// deck after the command, which matters only where a new round is dealt.
pub open spec fn outcome(
    game: GameState,
    hand: Map<usize, Card>,
    seat: int,
    line: Seq<char>,
    deck: Seq<Card>,
) -> Outcome {
    match verb_of(line) {
        Verb::TakeCards => take_cards(game, hand, seat),
        Verb::Play => play_cards(game, hand, seat, line, deck),
        Verb::Pass => pass_turn(game, hand, seat, deck),
        Verb::Unknown => refused(game, hand, seat, Note::InvalidCommand),
    }
}

/// Cards that are well formed weigh at most 25 each.
pub proof fn lemma_picked_weight(hand: Map<usize, Card>, ids: Seq<usize>)
    requires
        all_held(hand, ids),
        forall|id: usize| hand.contains_key(id) ==> (#[trigger] hand[id]).well_formed(),
    ensures
        0 <= weight(picked(hand, ids)) <= 25 * ids.len(),
    decreases ids.len(),
{
    if ids.len() > 0 {
        lemma_picked_weight(hand, ids.drop_last());
        assert(picked(hand, ids).drop_last() =~= picked(hand, ids.drop_last()));
        assert(picked(hand, ids).last() == hand[ids.last()]);
        assert(hand.contains_key(ids[ids.len() - 1]));
        assert(hand[ids.last()].well_formed());
    }
}

/// Adds a message.
fn send(out: &mut Vec<Message>, to: usize, note: Note, cards: Vec<Card>)
    ensures
        posts(final(out)@) == posts(old(out)@) + to_one(to as int, note, cards@),
{
    out.push(Message { to, note, cards });
    assert(posts(out@) =~= posts(old(out)@) + to_one(to as int, note, cards@));
}

/// Adds the same message for each seat, seat 0 first.
fn send_to_all(out: &mut Vec<Message>, note: Note, cards: &Vec<Card>)
    ensures
        posts(final(out)@) == posts(old(out)@) + to_all(note, cards@),
{
    let mut seat: usize = 0;
    while seat < 4
        invariant
            seat <= 4,
            out@.len() == old(out)@.len() + seat,
            forall|i: int| 0 <= i < old(out)@.len() ==> out@[i] == old(out)@[i],
            forall|i: int|
                old(out)@.len() <= i < old(out)@.len() + seat ==> post_of(#[trigger] out@[i]) == (Post {
                    to: i - old(out)@.len(),
                    note,
                    cards: cards@,
                }),
        decreases 4 - seat,
    {
        out.push(Message { to: seat, note, cards: slice_to_vec(cards.as_slice()) });
        seat += 1;
    }
    assert(posts(out@) =~= posts(old(out)@) + to_all(note, cards@));
}

/// Whether the cards hold the one.
fn has_the_one(cards: &Vec<Card>) -> (found: bool)
    ensures
        found == holds_one(cards@),
{
    let one = Card::special(SpecialKind::One);
    let mut i: usize = 0;
    while i < cards.len()
        invariant
            i <= cards.len(),
            one == special_card(SpecialKind::One),
            forall|k: int| 0 <= k < i ==> cards@[k] != one,
        decreases cards.len() - i,
    {
        if cards[i] == one {
            return true;
        }
        i += 1;
    }
    false
}

/// Whether it is the turn of the player at the seat; if not, the player is
/// told so.
pub fn require_turn(game: &TichuGame, player_index: usize, out: &mut Vec<Message>) -> (turn: bool)
    ensures
        turn == (game@.current_player == player_index),
        turn ==> final(out)@ == old(out)@,
        !turn ==> posts(final(out)@) == posts(old(out)@) + to_one(
            player_index as int,
            Note::NotYourTurn,
            no_cards(),
        ),
{
    if game.whose_turn() == player_index {
        true
    } else {
        send(out, player_index, Note::NotYourTurn, Vec::new());
        false
    }
}

/// Moves the round on after the player at the seat has passed or played.
pub fn continue_round(
    game: &mut TichuGame,
    player: &Player,
    player_index: usize,
    out: &mut Vec<Message>,
)
    requires
        old(game).wf(),
        player_index < 4,
    ensures
        final(game).wf(),
        final(game)@.passes < 3,
        final(game)@.deck.to_multiset() == old(game)@.deck.to_multiset(),
        final(game)@ == moved_on(old(game)@, player@, player_index as int, final(game)@.deck),
        posts(final(out)@) == posts(old(out)@) + moved_on_posts(
            old(game)@,
            player@,
            player_index as int,
        ),
{
    let ghost before = game@;
    let ghost sent = posts(out@);
    let none: Vec<Card> = Vec::new();
    let status = game.next();
    if status == RoundStatus::TrickWin {
        send_to_all(out, Note::ClearTable, &none);
    }
    let ghost collected = posts(out@);
    assert(collected == sent + (if before.next_status() == RoundStatus::TrickWin {
        to_all(Note::ClearTable, no_cards())
    } else {
        Seq::empty()
    })) by {
        assert(sent + Seq::<Post>::empty() =~= sent);
    }
    let mut dealt = false;
    if !player.has_cards() && !game.is_finished(player_index) && game.finished_count() < 3 {
        let finish = game.mark_finished(player_index);
        if finish == RoundStatus::FinishRound {
            game.shuffle_and_deal();
            send_to_all(out, Note::ClearTable, &none);
            send_to_all(out, Note::ClearCards, &none);
            dealt = true;
        }
    }
    send(out, game.whose_turn(), Note::YourTurn, Vec::new());
    proof {
        let tail = moved_on_posts(before, player@, player_index as int);
        if dealt {
            assert(posts(out@) =~= sent + tail);
        } else {
            assert(posts(out@) =~= sent + tail);
        }
    }
}

/// Carries out the line that the player at the seat has sent, and says which
/// messages go out to whom, in order.
pub fn handle_command(
    game: &mut TichuGame,
    player: &mut Player,
    player_index: usize,
    line: &str,
) -> (messages: Vec<Message>)
    requires
        old(game).wf(),
        old(game)@.passes < 3,
        old(player).wf(),
        player_index < 4,
    ensures
        final(game).wf(),
        final(game)@.passes < 3,
        final(player).wf(),
        final(player).name() == old(player).name(),
        final(game)@.deck.to_multiset() == old(game)@.deck.to_multiset(),
        final(game)@ == outcome(
            old(game)@,
            old(player)@,
            player_index as int,
            line@,
            final(game)@.deck,
        ).game,
        final(player)@ == outcome(
            old(game)@,
            old(player)@,
            player_index as int,
            line@,
            final(game)@.deck,
        ).hand,
        posts(messages@) == outcome(
            old(game)@,
            old(player)@,
            player_index as int,
            line@,
            final(game)@.deck,
        ).posts,
{
    let mut out: Vec<Message> = Vec::new();
    let ghost before = game@;
    let ghost held = player@;
    let ghost seat = player_index as int;
    assert(posts(out@) =~= Seq::<Post>::empty());
    match parse_verb(line) {
        Verb::TakeCards => {
            match game.take_hand(player_index) {
                Some(hand) => {
                    proof {
                        lemma_deal_full_deck(before.deck);
                        assert(before.hands[seat] == Some(hand@));
                        assert(hand@ == dealt_hand(before.deck, seat));
                        assert forall|k: int| 0 <= k < hand@.len() implies (#[trigger] hand@[k]).well_formed() by {
                            assert(hand@[k] == before.deck[seat + 4 * k]);
                        }
                    }
                    send(&mut out, player_index, Note::Hand, slice_to_vec(hand.as_slice()));
                    if has_the_one(&hand) {
                        game.give_turn(player_index);
                        send(&mut out, player_index, Note::YourTurn, Vec::new());
                    }
                    player.take_new_hand(hand);
                    proof {
                        let expected = take_cards(before, held, seat);
                        assert(game@ =~= expected.game);
                        assert(posts(out@) =~= expected.posts);
                    }
                },
                None => {
                    send(&mut out, player_index, Note::NoHand, Vec::new());
                    proof {
                        assert(before.hands.update(seat, None) =~= before.hands);
                        assert(game@ =~= before);
                        assert(posts(out@) =~= to_one(seat, Note::NoHand, no_cards()));
                    }
                },
            }
        },
        Verb::Play => {
            if require_turn(game, player_index, &mut out) {
                match parse_command_parameters(line) {
                    None => {
                        send(&mut out, player_index, Note::InvalidCommand, Vec::new());
                    },
                    Some(ids) => {
                        let room = game.room();
                        if ids.len() > (room / 25) as usize {
                            send(&mut out, player_index, Note::InvalidCommand, Vec::new());
                        } else {
                            let played = player.play(game.get_current_trick(), &ids);
                            match played {
                                Ok(trick) => {
                                    proof {
                                        lemma_picked_weight(held, ids@);
                                    }
                                    send(&mut out, player_index, Note::Done, Vec::new());
                                    send_to_all(&mut out, Note::NewTrick, trick.cards());
                                    game.add_trick(trick);
                                    continue_round(game, player, player_index, &mut out);
                                },
                                Err(PlayerError::NotValid) => {
                                    send(&mut out, player_index, Note::NotValid, Vec::new());
                                },
                                Err(PlayerError::TooLow) => {
                                    send(&mut out, player_index, Note::TooLow, Vec::new());
                                },
                                Err(PlayerError::Incompatible) => {
                                    send(&mut out, player_index, Note::Incompatible, Vec::new());
                                },
                                Err(PlayerError::InvalidCard) => {
                                    send(&mut out, player_index, Note::InvalidCard, Vec::new());
                                },
                            }
                        }
                    },
                }
            }
            proof {
                let expected = play_cards(before, held, seat, line@, game@.deck);
                assert(posts(out@) =~= expected.posts);
            }
        },
        Verb::Pass => {
            if require_turn(game, player_index, &mut out) {
                game.pass();
                send(&mut out, player_index, Note::Done, Vec::new());
                continue_round(game, player, player_index, &mut out);
            }
            proof {
                let expected = pass_turn(before, held, seat, game@.deck);
                assert(posts(out@) =~= expected.posts);
            }
        },
        Verb::Unknown => {
            send(&mut out, player_index, Note::InvalidCommand, Vec::new());
            assert(posts(out@) =~= to_one(seat, Note::InvalidCommand, no_cards()));
        },
    }
    out
}

} // verus!
