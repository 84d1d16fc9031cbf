use std::str::FromStr;

use solitaire::action::{Action, Coord, Location};
use solitaire::deck::{Card, Deck, MalformedDeck, Suit, Value};
use solitaire::image::card_to_image;
use solitaire::solver::{available_moves, MoveIterator};
use solitaire::state::{find_last, find_last_idx, State};
use solitaire::Solitaire;

fn ordered_text() -> String {
    Deck::new_ordered().to_string()
}

#[test]
fn deck_text_lines() {
    let text = ordered_text();
    let lines: Vec<&str> = text.lines().collect();
    assert_eq!(lines.len(), 52);
    assert_eq!(lines[0], "Hearts Ace");
    assert_eq!(lines[13], "Diamonds Ace");
    assert_eq!(lines[51], "Clubs King");
    assert!(text.ends_with("Clubs King\n"));
}

#[test]
fn deck_text_round_trip() {
    let d = Deck::new_shuffled();
    let back = Deck::from_str(&d.to_string()).unwrap();
    assert_eq!(back.cards(), d.cards());
}

#[test]
fn deck_parse_accepts_numbers_and_spaces() {
    let mut text = String::new();
    for (i, c) in Deck::new_ordered().cards().iter().enumerate() {
        if i % 2 == 0 {
            text.push_str(&format!("  {} {}\r\n", c.suit.to_string(), c.value.rank()));
        } else {
            text.push_str(&format!("{}\n", c.to_string()));
        }
    }
    let d = Deck::from_str(&text).unwrap();
    assert_eq!(d.cards(), Deck::new_ordered().cards());
}

#[test]
fn deck_parse_rejects_wrong_count() {
    let text = ordered_text();
    let short: String = text.lines().take(51).map(|l| format!("{l}\n")).collect();
    assert_eq!(Deck::parse(&short).err(), Some(MalformedDeck));
    let long = format!("{text}Hearts Ace\n");
    assert_eq!(Deck::parse(&long).err(), Some(MalformedDeck));
    assert_eq!(Deck::parse("").err(), Some(MalformedDeck));
}

#[test]
fn deck_parse_rejects_duplicates() {
    let text = ordered_text().replacen("Hearts Two", "Hearts Ace", 1);
    assert_eq!(Deck::parse(&text).err(), Some(MalformedDeck));
}

#[test]
fn deck_parse_rejects_bad_tokens() {
    let bad_suit = ordered_text().replacen("Hearts Two", "Hears Two", 1);
    assert_eq!(Deck::parse(&bad_suit).err(), Some(MalformedDeck));
    let bad_value = ordered_text().replacen("Hearts Two", "Hearts 14", 1);
    assert_eq!(Deck::parse(&bad_value).err(), Some(MalformedDeck));
    let no_space = ordered_text().replacen("Hearts Two", "HeartsTwo", 1);
    assert_eq!(Deck::parse(&no_space).err(), Some(MalformedDeck));
}

#[test]
fn word_parsing() {
    assert_eq!(Suit::from_str("Spades"), Ok(Suit::Spades));
    assert_eq!(Suit::from_str("spades"), Err(()));
    assert_eq!(Value::from_str("Queen"), Ok(Value::Queen));
    assert_eq!(Value::from_str("12"), Ok(Value::Queen));
    assert_eq!(Value::from_str("0"), Err(()));
    assert_eq!(Card::from_str("Clubs 10"), Ok(Card::new(Suit::Clubs, Value::Ten)));
    assert_eq!(Card::from_str("Diamonds Jack"), Ok(Card::new(Suit::Diamonds, Value::Jack)));
    assert_eq!(Card::from_str("Diamonds"), Err(()));
    assert_eq!(Card::from_str(" Diamonds Jack"), Err(()));
}

#[test]
fn names() {
    assert_eq!(Suit::Diamonds.to_string(), "Diamonds");
    assert_eq!(Value::Seven.to_string(), "Seven");
    assert_eq!(Card::new(Suit::Spades, Value::King).to_string(), "Spades King");
}

#[test]
fn from_cards_checks_the_set() {
    let cards: Vec<Card> = Deck::new_ordered().cards().to_vec();
    assert!(Deck::from_cards(cards.clone()).is_ok());
    let mut dup = cards.clone();
    dup[5] = dup[6];
    assert_eq!(Deck::from_cards(dup).err(), Some(MalformedDeck));
    let short = cards[..51].to_vec();
    assert_eq!(Deck::from_cards(short).err(), Some(MalformedDeck));
    let mut reversed = cards.clone();
    reversed.reverse();
    let d = Deck::from_cards(reversed).unwrap();
    assert_eq!(d.cards()[0], Card::new(Suit::Clubs, Value::King));
}

#[test]
fn images() {
    assert_eq!(
        card_to_image(Card::new(Suit::Hearts, Value::Ace)),
        "file://images/deck/ace_of_hearts.png"
    );
    assert_eq!(
        card_to_image(Card::new(Suit::Clubs, Value::Ten)),
        "file://images/deck/10_of_clubs.png"
    );
    assert_eq!(
        card_to_image(Card::new(Suit::Spades, Value::Queen)),
        "file://images/deck/queen_of_spades.png"
    );
}

#[test]
fn move_iterator_walks_available_moves() {
    let s = State::new(Deck::new_ordered());
    let all = available_moves(&s);
    let mut it = MoveIterator::new(&s);
    let mut seen = Vec::new();
    while let Some(a) = it.next() {
        seen.push(a);
    }
    // the same moves in the same order, without the stock turn
    assert_eq!(seen, all[1..].to_vec());
    assert_eq!(seen.len(), 6);
    assert_eq!(it.next(), None);
    assert!(!seen.contains(&Action::TurnStock));
    for a in &seen {
        assert!(matches!(a, Action::Move(..)));
        assert_ne!(s.apply(*a), s);
    }
}

#[test]
fn move_iterator_on_a_board_without_moves() {
    let s = State {
        tableau: (0..7).map(|_| solitaire::state::Pile { cards: vec![], boundary: 0 }).collect(),
        foundation: vec![vec![], vec![], vec![], vec![]],
        talon: vec![],
        cursor: -1,
    };
    let mut it = MoveIterator::new(&s);
    assert_eq!(it.next(), None);
}

#[test]
fn set_slots() {
    let s = State::new(Deck::new_ordered());
    let ks = Card::new(Suit::Spades, Value::King);
    // replace an occupied slot
    let s1 = s.clone().set(Coord::new(Location::Tableau(1), 0), Some(ks));
    assert_eq!(s1.tableau[1].cards[0], ks);
    // add on top of a pile
    let s2 = s.clone().set(Coord::new(Location::Foundation(0), 0), Some(ks));
    assert_eq!(s2.foundation[0], vec![ks]);
    // remove the top card
    let s3 = s.clone().set(Coord::new(Location::Tableau(2), 2), None);
    assert_eq!(s3.tableau[2].cards.len(), 2);
    // a gap or a hidden stock slot changes nothing
    assert_eq!(s.clone().set(Coord::new(Location::Tableau(2), 5), Some(ks)), s);
    assert_eq!(s.clone().set(Coord::new(Location::Talon, 0), Some(ks)), s);
    assert_eq!(s.clone().set(Coord::new(Location::Tableau(8), 0), Some(ks)), s);
    // the exposed stock card
    let t = s.apply(Action::TurnStock);
    let t1 = t.clone().set(Coord::new(Location::Talon, 0), None);
    assert_eq!(t1.talon.len(), 23);
    assert_eq!(t1.cursor, 0);
    assert_eq!(t1.talon[0], Card::new(Suit::Spades, Value::Four));
    // boundaries stay where they are
    let s4 = s.clone().set(Coord::new(Location::Tableau(3), 3), None);
    assert_eq!(s4.tableau[3].boundary, 3);
    let t2 = t.clone().set(Coord::new(Location::Talon, 0), Some(ks));
    assert_eq!(t2.talon[0], ks);
}

#[test]
fn find_last_stops_at_first_failure() {
    let v = [Some(1), Some(2), None, Some(4)];
    assert_eq!(find_last_idx(&v, |c: &Option<i32>| c.is_some()), Some(1));
    assert_eq!(find_last(&v, |c: &Option<i32>| c.is_some()), Some(Some(2)));
    let w: [Option<i32>; 2] = [None, Some(3)];
    assert_eq!(find_last_idx(&w, |c: &Option<i32>| c.is_some()), None);
    assert_eq!(find_last(&w, |c: &Option<i32>| c.is_some()), None);
    let e: [Option<i32>; 0] = [];
    assert_eq!(find_last_idx(&e, |c: &Option<i32>| c.is_some()), None);
    let full = [1, 2, 3];
    assert_eq!(find_last_idx(&full, |x: &i32| *x > 0), Some(2));
    assert_eq!(find_last(&full, |x: &i32| *x > 0), Some(3));
}

#[test]
fn defaults() {
    assert_eq!(Card::default(), Card::new(Suit::Hearts, Value::Ace));
    let d = Deck::default();
    assert!(Deck::from_cards(d.cards().to_vec()).is_ok());
    let g = Solitaire::default();
    assert_eq!(g.state.talon.len(), 24);
    assert_eq!(g.state.cursor, -1);
}

#[test]
fn shuffling_reorders() {
    let ordered = Deck::new_ordered();
    let a = Deck::new_shuffled();
    let b = Deck::new_shuffled();
    // two shuffles agreeing with the fresh order (or each other) is
    // astronomically unlikely
    assert!(a.cards() != ordered.cards() || b.cards() != ordered.cards());
    assert!(a.cards() != b.cards());
}

#[test]
fn default_state_is_a_fresh_deal() {
    let s = State::default();
    assert_eq!(s.tableau.len(), 7);
    assert_eq!(s.talon.len(), 24);
    assert_eq!(s.cursor, -1);
    assert!(s.foundation.iter().all(|p| p.is_empty()));
}
