use solitaire::action::{Action, Coord, Location};
use solitaire::deck::{Card, Deck, Suit, Value};
use solitaire::solver::{action_value, available_moves};
use solitaire::state::{Pile, State};
use solitaire::Solitaire;

fn card(suit: Suit, value: Value) -> Card {
    Card::new(suit, value)
}

fn pile(cards: Vec<Card>, boundary: u8) -> Pile {
    Pile { cards, boundary }
}

/// A board with the given tableau piles (padded to seven), an empty
/// foundation and an empty stock.
fn board(mut tableau: Vec<Pile>) -> State {
    while tableau.len() < 7 {
        tableau.push(pile(vec![], 0));
    }
    State {
        tableau,
        foundation: vec![vec![], vec![], vec![], vec![]],
        talon: vec![],
        cursor: -1,
    }
}

fn mv(from: Location, from_idx: u8, to: Location, to_idx: u8) -> Action {
    Action::Move(Coord::new(from, from_idx), Coord::new(to, to_idx))
}

fn all_cards(s: &State) -> Vec<Card> {
    let mut v = Vec::new();
    for p in &s.tableau {
        v.extend(p.cards.iter().copied());
    }
    for p in &s.foundation {
        v.extend(p.iter().copied());
    }
    v.extend(s.talon.iter().copied());
    v
}

fn is_full_deck(cards: &[Card]) -> bool {
    let ordered = Deck::new_ordered();
    cards.len() == 52 && ordered.cards().iter().all(|c| cards.iter().filter(|d| *d == c).count() == 1)
}

#[test]
fn ordered_deck_order() {
    let d = Deck::new_ordered();
    let cards = d.cards();
    assert_eq!(cards.len(), 52);
    assert_eq!(cards[0], card(Suit::Hearts, Value::Ace));
    assert_eq!(cards[12], card(Suit::Hearts, Value::King));
    assert_eq!(cards[13], card(Suit::Diamonds, Value::Ace));
    assert_eq!(cards[26], card(Suit::Spades, Value::Ace));
    assert_eq!(cards[51], card(Suit::Clubs, Value::King));
}

#[test]
fn shuffled_deck_is_a_permutation() {
    let d = Deck::new_shuffled();
    assert!(is_full_deck(d.cards()));
}

#[test]
fn deal_shapes() {
    let s = State::new(Deck::new_ordered());
    assert_eq!(s.tableau.len(), 7);
    for (i, p) in s.tableau.iter().enumerate() {
        assert_eq!(p.cards.len(), i + 1);
        assert_eq!(p.boundary as usize, i);
    }
    assert_eq!(s.tableau[0].cards, vec![card(Suit::Hearts, Value::Ace)]);
    assert_eq!(
        s.tableau[1].cards,
        vec![card(Suit::Hearts, Value::Two), card(Suit::Hearts, Value::Three)]
    );
    assert_eq!(s.tableau[6].cards[6], card(Suit::Spades, Value::Two));
    assert_eq!(s.foundation.len(), 4);
    assert!(s.foundation.iter().all(|p| p.is_empty()));
    assert_eq!(s.talon.len(), 24);
    assert_eq!(s.talon[0], card(Suit::Spades, Value::Three));
    assert_eq!(s.talon[23], card(Suit::Clubs, Value::King));
    assert_eq!(s.cursor, -1);
    assert!(is_full_deck(&all_cards(&s)));
}

#[test]
fn draw_cycle() {
    let mut s = State::new(Deck::new_ordered());
    assert_eq!(s.cursor, -1);
    for n in 0..24 {
        s = s.apply(Action::TurnStock);
        assert_eq!(s.cursor, n as i8);
    }
    s = s.apply(Action::TurnStock);
    assert_eq!(s.cursor, -1);
    assert_eq!(s, State::new(Deck::new_ordered()));
}

#[test]
fn talon_reads_only_the_exposed_card() {
    let s = State::new(Deck::new_ordered());
    assert_eq!(s.get(Coord::new(Location::Talon, 0)), None);
    let s = s.apply(Action::TurnStock).apply(Action::TurnStock);
    assert_eq!(s.get(Coord::new(Location::Talon, 0)), None);
    assert_eq!(s.get(Coord::new(Location::Talon, 1)), Some(card(Suit::Spades, Value::Four)));
}

#[test]
fn get_reads_face_down_tableau_cards() {
    let s = State::new(Deck::new_ordered());
    assert_eq!(s.get(Coord::new(Location::Tableau(1), 0)), Some(card(Suit::Hearts, Value::Two)));
    assert_eq!(s.get(Coord::new(Location::Tableau(1), 2)), None);
    assert_eq!(s.get(Coord::new(Location::Tableau(9), 0)), None);
    assert_eq!(s.get(Coord::new(Location::Foundation(0), 0)), None);
}

#[test]
fn foundation_ordering() {
    let s = board(vec![
        pile(vec![card(Suit::Hearts, Value::Two)], 0),
        pile(vec![card(Suit::Hearts, Value::Ace)], 0),
        pile(vec![card(Suit::Diamonds, Value::Two)], 0),
    ]);
    // a two cannot start a foundation pile
    let two_first = mv(Location::Tableau(0), 0, Location::Foundation(0), 0);
    assert_eq!(s.apply(two_first), s);
    // the ace can
    let s1 = s.apply(mv(Location::Tableau(1), 0, Location::Foundation(0), 0));
    assert_eq!(s1.foundation[0], vec![card(Suit::Hearts, Value::Ace)]);
    assert!(s1.tableau[1].cards.is_empty());
    // a two of another suit cannot follow it
    let other_suit = mv(Location::Tableau(2), 0, Location::Foundation(0), 1);
    assert_eq!(s1.apply(other_suit), s1);
    // the two of hearts can
    let s2 = s1.apply(mv(Location::Tableau(0), 0, Location::Foundation(0), 1));
    assert_eq!(
        s2.foundation[0],
        vec![card(Suit::Hearts, Value::Ace), card(Suit::Hearts, Value::Two)]
    );
}

#[test]
fn tableau_alternating_descending() {
    let s = board(vec![
        pile(vec![card(Suit::Spades, Value::King)], 0),
        pile(vec![card(Suit::Spades, Value::Queen)], 0),
        pile(vec![card(Suit::Hearts, Value::Queen)], 0),
        pile(vec![card(Suit::Hearts, Value::Jack)], 0),
    ]);
    let same_colour = mv(Location::Tableau(1), 0, Location::Tableau(0), 1);
    assert_eq!(s.apply(same_colour), s);
    let skips_rank = mv(Location::Tableau(3), 0, Location::Tableau(0), 1);
    assert_eq!(s.apply(skips_rank), s);
    let s1 = s.apply(mv(Location::Tableau(2), 0, Location::Tableau(0), 1));
    assert_eq!(
        s1.tableau[0].cards,
        vec![card(Suit::Spades, Value::King), card(Suit::Hearts, Value::Queen)]
    );
    assert!(s1.tableau[2].cards.is_empty());
}

#[test]
fn only_a_king_fills_an_empty_pile() {
    let s = board(vec![
        pile(vec![card(Suit::Clubs, Value::Nine), card(Suit::Spades, Value::Queen)], 1),
        pile(vec![card(Suit::Clubs, Value::Two), card(Suit::Hearts, Value::King)], 1),
    ]);
    let queen = mv(Location::Tableau(0), 1, Location::Tableau(2), 0);
    assert_eq!(s.apply(queen), s);
    let s1 = s.apply(mv(Location::Tableau(1), 1, Location::Tableau(2), 0));
    assert_eq!(s1.tableau[2].cards, vec![card(Suit::Hearts, Value::King)]);
    // the card below the king was turned over
    assert_eq!(s1.tableau[1].boundary, 0);
    assert_eq!(s1.tableau[1].cards, vec![card(Suit::Clubs, Value::Two)]);
}

#[test]
fn run_transfer() {
    let s = board(vec![
        pile(
            vec![
                card(Suit::Diamonds, Value::Four),
                card(Suit::Hearts, Value::Jack),
                card(Suit::Spades, Value::Ten),
            ],
            1,
        ),
        pile(vec![card(Suit::Spades, Value::Queen)], 0),
    ]);
    let s1 = s.apply(mv(Location::Tableau(0), 1, Location::Tableau(1), 1));
    assert_eq!(
        s1.tableau[1].cards,
        vec![
            card(Suit::Spades, Value::Queen),
            card(Suit::Hearts, Value::Jack),
            card(Suit::Spades, Value::Ten),
        ]
    );
    assert_eq!(s1.tableau[0].cards, vec![card(Suit::Diamonds, Value::Four)]);
    assert_eq!(s1.tableau[0].boundary, 0);
    assert_eq!(s1.tableau[1].boundary, 0);
}

#[test]
fn run_from_above_boundary_keeps_boundary() {
    let s = board(vec![
        pile(
            vec![
                card(Suit::Diamonds, Value::Four),
                card(Suit::Clubs, Value::Queen),
                card(Suit::Hearts, Value::Jack),
                card(Suit::Spades, Value::Ten),
            ],
            1,
        ),
        pile(vec![card(Suit::Spades, Value::Queen)], 0),
    ]);
    let s1 = s.apply(mv(Location::Tableau(0), 2, Location::Tableau(1), 1));
    assert_eq!(s1.tableau[0].cards.len(), 2);
    assert_eq!(s1.tableau[0].boundary, 1);
    assert_eq!(s1.tableau[1].cards.len(), 3);
}

#[test]
fn face_down_card_cannot_move() {
    let s = board(vec![
        pile(vec![card(Suit::Hearts, Value::King), card(Suit::Spades, Value::Two)], 1),
    ]);
    let hidden_king = mv(Location::Tableau(0), 0, Location::Tableau(1), 0);
    assert_eq!(s.apply(hidden_king), s);
}

#[test]
fn a_run_cannot_go_to_the_foundation() {
    let s = board(vec![pile(
        vec![card(Suit::Hearts, Value::Ace), card(Suit::Spades, Value::Two)],
        0,
    )]);
    let run = mv(Location::Tableau(0), 0, Location::Foundation(0), 0);
    assert_eq!(s.apply(run), s);
}

#[test]
fn rejected_moves_are_no_ops() {
    let s = State::new(Deck::new_ordered());
    let same = mv(Location::Tableau(0), 0, Location::Tableau(0), 0);
    assert_eq!(s.apply(same), s);
    let to_talon = mv(Location::Tableau(0), 0, Location::Talon, 0);
    assert_eq!(s.apply(to_talon), s);
    let same_pile = mv(Location::Tableau(3), 3, Location::Tableau(3), 4);
    assert_eq!(s.apply(same_pile), s);
    let empty_source = mv(Location::Foundation(0), 0, Location::Foundation(1), 0);
    assert_eq!(s.apply(empty_source), s);
    let occupied_dest = mv(Location::Tableau(6), 6, Location::Tableau(1), 1);
    assert_eq!(s.apply(occupied_dest), s);
    let gap_dest = mv(Location::Tableau(0), 0, Location::Foundation(0), 3);
    assert_eq!(s.apply(gap_dest), s);
    let no_pile = mv(Location::Tableau(0), 0, Location::Foundation(7), 0);
    assert_eq!(s.apply(no_pile), s);
}

#[test]
fn moves_from_talon_compact_the_stock() {
    let mut s = board(vec![pile(vec![card(Suit::Spades, Value::Four)], 0)]);
    s.talon = vec![
        card(Suit::Clubs, Value::Two),
        card(Suit::Hearts, Value::Three),
        card(Suit::Diamonds, Value::Nine),
    ];
    s.cursor = 1;
    let s1 = s.apply(mv(Location::Talon, 1, Location::Tableau(0), 1));
    assert_eq!(
        s1.tableau[0].cards,
        vec![card(Suit::Spades, Value::Four), card(Suit::Hearts, Value::Three)]
    );
    assert_eq!(s1.talon, vec![card(Suit::Clubs, Value::Two), card(Suit::Diamonds, Value::Nine)]);
    assert_eq!(s1.cursor, 0);
}

#[test]
fn moves_from_foundation_take_the_top() {
    let mut s = board(vec![pile(vec![card(Suit::Clubs, Value::Three)], 0)]);
    s.foundation[2] = vec![card(Suit::Hearts, Value::Ace), card(Suit::Hearts, Value::Two)];
    let not_top = mv(Location::Foundation(2), 0, Location::Tableau(1), 0);
    assert_eq!(s.apply(not_top), s);
    let s1 = s.apply(mv(Location::Foundation(2), 1, Location::Tableau(0), 1));
    assert_eq!(s1.foundation[2], vec![card(Suit::Hearts, Value::Ace)]);
    assert_eq!(
        s1.tableau[0].cards,
        vec![card(Suit::Clubs, Value::Three), card(Suit::Hearts, Value::Two)]
    );
}

#[test]
fn available_moves_on_the_ordered_deal() {
    let s = State::new(Deck::new_ordered());
    let moves = available_moves(&s);
    assert_eq!(moves[0], Action::TurnStock);
    assert_eq!(moves.len(), 7);
    for k in 0..4 {
        assert!(moves.contains(&mv(Location::Tableau(0), 0, Location::Foundation(k), 0)));
    }
    assert!(moves.contains(&mv(Location::Tableau(6), 6, Location::Tableau(1), 2)));
    assert!(moves.contains(&mv(Location::Tableau(0), 0, Location::Tableau(6), 7)));
    for m in &moves[1..] {
        assert_ne!(s.apply(*m), s);
    }
}

#[test]
fn available_moves_match_apply() {
    let mut s = State::new(Deck::new_shuffled());
    for step in 0..60 {
        let moves = available_moves(&s);
        for (i, a) in moves.iter().enumerate() {
            assert!(!moves[i + 1..].contains(a));
            if let Action::Move(..) = a {
                assert_ne!(s.apply(*a), s);
            }
        }
        // every other candidate move leaves the board unchanged
        let locs = [
            Location::Tableau(0),
            Location::Tableau(3),
            Location::Tableau(6),
            Location::Foundation(0),
            Location::Foundation(3),
            Location::Talon,
        ];
        for &f in &locs {
            for &t in &locs {
                for fi in 0..8u8 {
                    for ti in 0..8u8 {
                        let a = mv(f, fi, t, ti);
                        if !moves.contains(&a) {
                            assert_eq!(s.apply(a), s);
                        }
                    }
                }
            }
        }
        let pick = moves[(step * 7) % moves.len()];
        s = s.apply(pick);
        assert!(is_full_deck(&all_cards(&s)));
        for p in &s.tableau {
            assert!(p.boundary as usize <= p.cards.len());
        }
    }
}

#[test]
fn priorities() {
    let mut s = board(vec![
        pile(vec![card(Suit::Clubs, Value::Four), card(Suit::Hearts, Value::Ace)], 1),
        pile(vec![card(Suit::Clubs, Value::Three), card(Suit::Spades, Value::Ace)], 0),
    ]);
    s.talon = vec![card(Suit::Diamonds, Value::Two)];
    s.cursor = 0;
    assert_eq!(action_value(&s, Action::TurnStock), 0);
    // to the foundation, turning over a card
    assert_eq!(action_value(&s, mv(Location::Tableau(0), 1, Location::Foundation(0), 0)), 5);
    // to the foundation, revealing nothing
    assert_eq!(action_value(&s, mv(Location::Tableau(1), 1, Location::Foundation(0), 0)), 4);
    assert_eq!(action_value(&s, mv(Location::Talon, 0, Location::Foundation(0), 0)), 4);
    // tableau to tableau, turning over a card
    assert_eq!(action_value(&s, mv(Location::Tableau(0), 1, Location::Tableau(1), 2)), 3);
    // from the stock to the tableau
    assert_eq!(action_value(&s, mv(Location::Talon, 0, Location::Tableau(1), 2)), 2);
    // down from the foundation
    assert_eq!(action_value(&s, mv(Location::Foundation(0), 0, Location::Tableau(1), 2)), 1);
    // tableau to tableau, revealing nothing
    assert_eq!(action_value(&s, mv(Location::Tableau(1), 1, Location::Tableau(0), 2)), 0);
}

#[test]
fn colours() {
    let h = card(Suit::Hearts, Value::Ace);
    let d = card(Suit::Diamonds, Value::Ace);
    let s = card(Suit::Spades, Value::Ace);
    let c = card(Suit::Clubs, Value::Ace);
    assert!(h.has_same_colour(&d));
    assert!(s.has_same_colour(&c));
    assert!(!h.has_same_colour(&s));
    assert!(!c.has_same_colour(&d));
}

#[test]
fn ranks() {
    assert_eq!(Value::Ace.rank(), 1);
    assert_eq!(Value::Ten.rank(), 10);
    assert_eq!(Value::King.rank(), 13);
    assert_eq!(Value::from_rank(12), Some(Value::Queen));
    assert_eq!(Value::from_rank(0), None);
    assert_eq!(Value::from_rank(14), None);
}

#[test]
fn solitaire_plays_moves() {
    let mut game = Solitaire::with_deck(Deck::new_ordered());
    game.do_move(mv(Location::Tableau(0), 0, Location::Foundation(2), 0));
    assert_eq!(game.state.foundation[2], vec![card(Suit::Hearts, Value::Ace)]);
    assert!(game.state.tableau[0].cards.is_empty());
    game.do_move(Action::TurnStock);
    assert_eq!(game.state.cursor, 0);
}
