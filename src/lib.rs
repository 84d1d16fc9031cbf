//! Game logic for single-deck patience: cards and decks, the board state with
//! its move rules, and the move enumerator and ordering used by solvers.
pub mod action;
pub mod deck;
pub mod state;
pub mod solver;
pub mod invariants;
pub mod text;
pub mod image;

use action::Action;
use deck::{Card, Deck, is_full_deck};
use state::{State, dealt};

use vstd::prelude::*;

verus! {

/// A game in progress.
#[derive(Debug, Clone)]
pub struct Solitaire {
    pub state: State,
}

impl Solitaire {
    /// A new game dealt from `deck`.
    pub fn with_deck(deck: Deck) -> (r: Self)
        ensures
            r.state@ == dealt(deck@),
            r.state@.wf(),
    {
        Solitaire { state: State::new(deck) }
    }

    /// Plays an action; one that the rules refuse changes nothing.
    pub fn do_move(&mut self, action: Action)
        ensures
            final(self).state@ == old(self).state@.after(action),
    {
        self.state = self.state.apply(action);
    }
}

impl Default for Solitaire {
    /// A game dealt from a shuffled deck.
    fn default() -> (r: Self)
        ensures
            r.state@.wf(),
            exists|d: Seq<Card>| is_full_deck(d) && r.state@ == dealt(d),
    {
        Solitaire { state: State::default() }
    }
}

} // verus!
