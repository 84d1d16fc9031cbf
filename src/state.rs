//! The board: tableau, foundation and stock, and the rules that move cards
//! between them.
use vstd::prelude::*;
use crate::action::{Action, Coord, Location};
use crate::deck::{Card, Deck, Value, is_full_deck};
use crate::invariants::lemma_dealt_wf;

verus! {

/// Number of tableau piles.
pub const TABLEAU_PILES: usize = 7;

/// Number of foundation piles.
pub const FOUNDATION_PILES: usize = 4;

/// Number of cards left in the stock after the deal.
pub const STOCK_SIZE: usize = 24;

/// The highest position the stock cursor reaches before it wraps.
pub const LAST_STOCK_POS: i8 = 23;

/// One tableau pile: its cards from bottom to top, and the index of its
/// lowest face-up card. Cards below `boundary` are face down.
#[derive(Debug, Clone, PartialEq, Eq)]
pub struct Pile {
    pub cards: Vec<Card>,
    pub boundary: u8,
}

/// The whole board.
#[derive(Debug, Clone, PartialEq, Eq)]
pub struct State {
    /// The tableau piles, each bottom to top with its face-up boundary.
    pub tableau: Vec<Pile>,
    /// The foundation piles, each bottom (ace) to top.
    pub foundation: Vec<Vec<Card>>,
    /// The stock, in the order in which it is turned.
    pub talon: Vec<Card>,
    /// The position of the exposed stock card; -1 when none is exposed.
    pub cursor: i8,
}

/// The mathematical picture of a board.
pub struct Board {
    pub tableau: Seq<Seq<Card>>,
    pub boundary: Seq<int>,
    pub foundation: Seq<Seq<Card>>,
    pub talon: Seq<Card>,
    pub cursor: int,
}

impl View for State {
    type V = Board;

    open spec fn view(&self) -> Board {
        Board {
            tableau: Seq::new(self.tableau@.len(), |i: int| self.tableau@[i].cards@),
            boundary: Seq::new(self.tableau@.len(), |i: int| self.tableau@[i].boundary as int),
            foundation: Seq::new(self.foundation@.len(), |i: int| self.foundation@[i]@),
            talon: self.talon@,
            cursor: self.cursor as int,
        }
    }
}

impl Board {
    /// Whether the location names a pile of this board.
    pub open spec fn has_pile(self, loc: Location) -> bool {
        match loc {
            Location::Foundation(i) => i < self.foundation.len(),
            Location::Tableau(i) => i < self.tableau.len(),
            Location::Talon => true,
        }
    }

    /// The cards of a pile, bottom to top (empty for a pile that does not exist).
    pub open spec fn pile(self, loc: Location) -> Seq<Card> {
        match loc {
            Location::Foundation(i) => if i < self.foundation.len() {
                self.foundation[i as int]
            } else {
                Seq::empty()
            },
            Location::Tableau(i) => if i < self.tableau.len() {
                self.tableau[i as int]
            } else {
                Seq::empty()
            },
            Location::Talon => self.talon,
        }
    }

    /// The card at a coordinate. A tableau or foundation slot gives its card
    /// whether face up or not; the stock gives only its exposed card.
    pub open spec fn read(self, c: Coord) -> Option<Card> {
        let p = self.pile(c.location);
        if c.idx < p.len() && (c.location is Talon ==> c.idx == self.cursor) {
            Some(p[c.idx as int])
        } else {
            None
        }
    }

    /// The card just below a destination slot, if any.
    pub open spec fn anchor(self, to: Coord) -> Option<Card> {
        if to.idx > 0 {
            self.read(Coord { location: to.location, idx: (to.idx - 1) as u8 })
        } else {
            None
        }
    }

    /// Whether a card may be moved out of the coordinate: an occupied slot that
    /// is face up in the tableau, the top of a foundation pile, or the exposed
    /// stock card.
    pub open spec fn is_source(self, c: Coord) -> bool {
        &&& self.read(c) is Some
        &&& (c.location matches Location::Tableau(i) ==> c.idx >= self.boundary[i as int])
        &&& (c.location is Foundation ==> c.idx + 1 == self.pile(c.location).len())
    }

    /// Whether a card may be placed at the coordinate: the slot just past the
    /// top of an existing tableau or foundation pile.
    pub open spec fn is_destination(self, c: Coord) -> bool {
        &&& !(c.location is Talon)
        &&& self.has_pile(c.location)
        &&& c.idx == self.pile(c.location).len()
    }

    /// Whether the move from `from` to `to` is allowed: the two coordinates lie
    /// in different piles; the source holds a movable card (face up in the
    /// tableau, the top of a foundation pile, or the exposed stock card); the
    /// destination is the slot just past the top of a tableau or foundation
    /// pile; a tableau card goes to a foundation only from the top of its pile;
    /// and the card fits the destination's top card, or its empty pile, by
    /// `card_fits`.
    pub open spec fn is_legal(self, from: Coord, to: Coord) -> bool {
        &&& from != to
        &&& !(to.location is Talon)
        &&& from.location != to.location
        &&& self.is_source(from)
        &&& self.is_destination(to)
        &&& (from.location is Tableau && to.location is Foundation ==> from.idx + 1
            == self.pile(from.location).len())
        &&& card_fits(self.read(from)->0, self.anchor(to), to.location)
    }

    /// The cards that a legal move carries, bottom first: the run from the
    /// source up to the top of a tableau pile, or the single card.
    pub open spec fn moved(self, from: Coord) -> Seq<Card> {
        if from.location is Tableau {
            self.pile(from.location).subrange(from.idx as int, self.pile(from.location).len() as int)
        } else {
            seq![self.read(from)->0]
        }
    }

    /// The board with the moved cards taken from the source.
    pub open spec fn take_from(self, from: Coord) -> Board {
        match from.location {
            Location::Foundation(i) => Board {
                foundation: self.foundation.update(i as int, self.foundation[i as int].drop_last()),
                ..self
            },
            Location::Tableau(i) => Board {
                tableau: self.tableau.update(i as int, self.tableau[i as int].take(from.idx as int)),
                boundary: if from.idx == self.boundary[i as int] {
                    self.boundary.update(i as int, if from.idx > 0 { from.idx - 1 } else { 0 })
                } else {
                    self.boundary
                },
                ..self
            },
            Location::Talon => Board {
                talon: self.talon.remove(from.idx as int),
                cursor: self.cursor - 1,
                ..self
            },
        }
    }

    /// The board with `cards` placed on top of the destination pile.
    pub open spec fn put_on(self, to: Coord, cards: Seq<Card>) -> Board {
        match to.location {
            Location::Foundation(i) => Board {
                foundation: self.foundation.update(i as int, self.foundation[i as int] + cards),
                ..self
            },
            Location::Tableau(i) => Board {
                tableau: self.tableau.update(i as int, self.tableau[i as int] + cards),
                ..self
            },
            Location::Talon => self,
        }
    }

    /// The pile at `loc` replaced by `p`.
    pub open spec fn with_pile(self, loc: Location, p: Seq<Card>) -> Board {
        match loc {
            Location::Foundation(i) => Board { foundation: self.foundation.update(i as int, p), ..self },
            Location::Tableau(i) => Board { tableau: self.tableau.update(i as int, p), ..self },
            Location::Talon => Board { talon: p, ..self },
        }
    }

    /// The board with the slot at `pos` set to `val`. A card replaces the card
    /// in an occupied slot or goes on top of its pile in the slot just past the
    /// top; `None` removes the top card of a tableau or foundation pile, or
    /// the exposed stock card, closing up the stock behind it. Of the stock
    /// only the exposed slot can be set. The stock cursor and the tableau
    /// boundaries never change. Any other coordinate leaves the board
    /// unchanged.
    pub open spec fn set_slot(self, pos: Coord, val: Option<Card>) -> Board {
        let p = self.pile(pos.location);
        let k = pos.idx as int;
        if !self.has_pile(pos.location) || (pos.location is Talon && k != self.cursor) {
            self
        } else {
            match val {
                Some(c) => if k < p.len() {
                    self.with_pile(pos.location, p.update(k, c))
                } else if k == p.len() && !(pos.location is Talon) {
                    self.with_pile(pos.location, p.push(c))
                } else {
                    self
                },
                None => if pos.location is Talon && k < p.len() {
                    Board { talon: p.remove(k), ..self }
                } else if !(pos.location is Talon) && k + 1 == p.len() {
                    self.with_pile(pos.location, p.drop_last())
                } else {
                    self
                },
            }
        }
    }

    /// The stock cursor after one turn of the stock.
    pub open spec fn next_cursor(self) -> int {
        if self.cursor + 1 > LAST_STOCK_POS {
            -1
        } else {
            self.cursor + 1
        }
    }

    /// The board after an action; an illegal move leaves it unchanged.
    pub open spec fn after(self, action: Action) -> Board {
        match action {
            Action::TurnStock => Board { cursor: self.next_cursor(), ..self },
            Action::Move(from, to) => if self.is_legal(from, to) {
                self.take_from(from).put_on(to, self.moved(from))
            } else {
                self
            },
        }
    }
}

/// Whether `card` may be placed on `anchor` (or on an empty pile, when there
/// is no anchor) at the given kind of pile. A foundation builds up by suit
/// from the ace; the tableau builds down in alternating colours from the king.
pub open spec fn card_fits(card: Card, anchor: Option<Card>, loc: Location) -> bool {
    match loc {
        Location::Foundation(_) => match anchor {
            Some(a) => a.suit == card.suit && a.rank() + 1 == card.rank(),
            None => card.rank() == 1,
        },
        Location::Tableau(_) => match anchor {
            Some(a) => a.is_red() != card.is_red() && a.rank() == card.rank() + 1,
            None => card.rank() == 13,
        },
        Location::Talon => false,
    }
}

/// Index in the deck of the first card dealt to tableau pile `i`: pile `i`
/// receives `i + 1` cards, so the piles before it took `i * (i + 1) / 2`.
pub open spec fn deal_start(i: int) -> int {
    i * (i + 1) / 2
}

/// The board dealt from a deck: tableau pile `i` takes the next `i + 1`
/// cards with only the last of them face up, the foundation is empty, and the
/// remaining 24 cards form the stock with no card exposed.
pub open spec fn dealt(deck: Seq<Card>) -> Board {
    Board {
        tableau: Seq::new(
            TABLEAU_PILES as nat,
            |i: int| deck.subrange(deal_start(i), deal_start(i + 1)),
        ),
        boundary: Seq::new(TABLEAU_PILES as nat, |i: int| i),
        foundation: Seq::new(FOUNDATION_PILES as nat, |i: int| Seq::<Card>::empty()),
        talon: deck.subrange(deal_start(TABLEAU_PILES as int), deck.len() as int),
        cursor: -1,
    }
}

fn copy_cards(v: &Vec<Card>) -> (r: Vec<Card>)
    ensures
        r@ == v@,
{
    let mut r: Vec<Card> = Vec::new();
    let mut i: usize = 0;
    while i < v.len()
        invariant
            i <= v@.len(),
            r@ == v@.take(i as int),
        decreases v@.len() - i,
    {
        r.push(v[i]);
        assert(r@ =~= v@.take(i + 1));
        i = i + 1;
    }
    assert(r@ =~= v@);
    r
}

impl State {
    /// The board dealt from `deck`.
    pub fn new(deck: Deck) -> (r: State)
        ensures
            r@ == dealt(deck@),
            r@.wf(),
    {
        let cards = deck.cards();
        proof {
            lemma_dealt_wf(deck@);
        }
        let mut tableau: Vec<Pile> = Vec::new();
        let mut pos: usize = 0;
        let mut i: usize = 0;
        while i < TABLEAU_PILES
            invariant
                cards@ == deck@,
                cards@.len() == 52,
                i <= TABLEAU_PILES,
                pos == deal_start(i as int),
                tableau@.len() == i,
                forall|k: int|
                    0 <= k < i ==> #[trigger] tableau@[k].cards@ == dealt(deck@).tableau[k],
                forall|k: int| 0 <= k < i ==> #[trigger] tableau@[k].boundary == k,
            decreases TABLEAU_PILES - i,
        {
            assert(deal_start(i + 1) == deal_start(i as int) + i + 1 && deal_start(i + 1) <= 28)
                by (nonlinear_arith)
                requires
                    i < 7,
            ;
            let mut pile: Vec<Card> = Vec::new();
            let mut k: usize = pos;
            while k <= pos + i
                invariant
                    cards@.len() == 52,
                    pos + i < 28,
                    pos <= k <= pos + i + 1,
                    pile@ == cards@.subrange(pos as int, k as int),
                decreases pos + i + 1 - k,
            {
                pile.push(cards[k]);
                assert(pile@ =~= cards@.subrange(pos as int, k + 1));
                k = k + 1;
            }
            let ghost dealt_pile = pile@;
            let ghost before = tableau@;
            assert(dealt_pile == dealt(deck@).tableau[i as int]);
            tableau.push(Pile { cards: pile, boundary: i as u8 });
            assert(forall|k: int| 0 <= k < i ==> tableau@[k] == before[k]);
            assert(tableau@[i as int].cards@ == dealt_pile);
            pos = pos + i + 1;
            i = i + 1;
        }
        let mut foundation: Vec<Vec<Card>> = Vec::new();
        let mut j: usize = 0;
        while j < FOUNDATION_PILES
            invariant
                j <= FOUNDATION_PILES,
                foundation@.len() == j,
                forall|k: int| 0 <= k < j ==> #[trigger] foundation@[k]@ == Seq::<Card>::empty(),
            decreases FOUNDATION_PILES - j,
        {
            foundation.push(Vec::new());
            j = j + 1;
        }
        let mut talon: Vec<Card> = Vec::new();
        let mut k: usize = pos;
        while k < cards.len()
            invariant
                cards@.len() == 52,
                pos == 28,
                pos <= k <= 52,
                talon@ == cards@.subrange(28, k as int),
            decreases 52 - k,
        {
            talon.push(cards[k]);
            assert(talon@ =~= cards@.subrange(28, k + 1));
            k = k + 1;
        }
        let r = State { tableau, foundation, talon, cursor: -1 };
        assert(r@.tableau =~= dealt(deck@).tableau);
        assert(r@.boundary =~= dealt(deck@).boundary);
        assert(r@.foundation =~= dealt(deck@).foundation);
        assert(r@.talon =~= dealt(deck@).talon);
        r
    }

    /// A copy of the board.
    pub fn duplicate(&self) -> (r: State)
        ensures
            r@ == self@,
    {
        let mut tableau: Vec<Pile> = Vec::new();
        let mut i: usize = 0;
        while i < self.tableau.len()
            invariant
                i <= self.tableau@.len(),
                tableau@.len() == i,
                forall|k: int| 0 <= k < i ==> #[trigger] tableau@[k].cards@ == self.tableau@[k].cards@,
                forall|k: int| 0 <= k < i ==> #[trigger] tableau@[k].boundary == self.tableau@[k].boundary,
            decreases self.tableau@.len() - i,
        {
            let cards = copy_cards(&self.tableau[i].cards);
            let ghost before = tableau@;
            tableau.push(Pile { cards, boundary: self.tableau[i].boundary });
            assert(forall|k: int| 0 <= k < i ==> tableau@[k] == before[k]);
            assert(tableau@[i as int].cards@ == self.tableau@[i as int].cards@);
            i = i + 1;
        }
        let mut foundation: Vec<Vec<Card>> = Vec::new();
        let mut j: usize = 0;
        while j < self.foundation.len()
            invariant
                j <= self.foundation@.len(),
                foundation@.len() == j,
                forall|k: int| 0 <= k < j ==> #[trigger] foundation@[k]@ == self.foundation@[k]@,
            decreases self.foundation@.len() - j,
        {
            foundation.push(copy_cards(&self.foundation[j]));
            j = j + 1;
        }
        let r = State { tableau, foundation, talon: copy_cards(&self.talon), cursor: self.cursor };
        assert(r@.tableau =~= self@.tableau);
        assert(r@.boundary =~= self@.boundary);
        assert(r@.foundation =~= self@.foundation);
        r
    }

    /// The number of cards in a pile, or `None` when the location names no pile.
    fn pile_len(&self, loc: Location) -> (r: Option<usize>)
        ensures
            r is Some <==> self@.has_pile(loc),
            r is Some ==> r->0 == self@.pile(loc).len(),
    {
        match loc {
            Location::Foundation(i) => if (i as usize) < self.foundation.len() {
                Some(self.foundation[i as usize].len())
            } else {
                None
            },
            Location::Tableau(i) => if (i as usize) < self.tableau.len() {
                Some(self.tableau[i as usize].cards.len())
            } else {
                None
            },
            Location::Talon => Some(self.talon.len()),
        }
    }

    /// Whether the move from `from` to `to` is allowed. `apply` and the move
    /// enumerator both decide legality here.
    pub fn is_valid_move(&self, from: Coord, to: Coord) -> (r: bool)
        ensures
            r == self@.is_legal(from, to),
    {
        if from == to {
            return false;
        }
        if to.location == Location::Talon {
            return false;
        }
        if from.location == to.location {
            return false;
        }
        let card = match self.get(from) {
            Some(c) => c,
            None => return false,
        };
        // the destination is the empty slot just past the top of its pile
        match self.pile_len(to.location) {
            Some(n) => if to.idx as usize != n {
                return false;
            },
            None => return false,
        }
        // the source must be movable
        match from.location {
            Location::Tableau(i) => {
                if from.idx < self.tableau[i as usize].boundary {
                    return false;
                }
                if to.location matches Location::Foundation(_) && from.idx as usize + 1
                    != self.tableau[i as usize].cards.len() {
                    return false;
                }
            },
            Location::Foundation(i) => {
                if from.idx as usize + 1 != self.foundation[i as usize].len() {
                    return false;
                }
            },
            Location::Talon => {},
        }
        let anchor = if to.idx > 0 {
            self.get(Coord::new(to.location, to.idx - 1))
        } else {
            None
        };
        match to.location {
            Location::Foundation(_) => match anchor {
                Some(a) => a.suit == card.suit && a.value.rank() + 1 == card.value.rank(),
                None => card.value == Value::Ace,
            },
            Location::Tableau(_) => match anchor {
                Some(a) => !a.has_same_colour(&card) && a.value.rank() == card.value.rank() + 1,
                None => card.value == Value::King,
            },
            Location::Talon => false,
        }
    }

    /// The cards a legal move carries, bottom first.
    fn moved_cards(&self, from: Coord) -> (r: Vec<Card>)
        requires
            self@.is_source(from),
        ensures
            r@ == self@.moved(from),
    {
        match from.location {
            Location::Tableau(i) => {
                let cards = &self.tableau[i as usize].cards;
                let mut r: Vec<Card> = Vec::new();
                let mut k: usize = from.idx as usize;
                while k < cards.len()
                    invariant
                        from.idx <= k <= cards@.len(),
                        cards@ == self@.tableau[i as int],
                        r@ == cards@.subrange(from.idx as int, k as int),
                    decreases cards@.len() - k,
                {
                    r.push(cards[k]);
                    assert(r@ =~= cards@.subrange(from.idx as int, k + 1));
                    k = k + 1;
                }
                r
            },
            _ => {
                let c = self.get(from).unwrap();
                let mut r: Vec<Card> = Vec::new();
                r.push(c);
                assert(r@ =~= seq![c]);
                r
            },
        }
    }

    /// The board after an action. A move that the rules refuse leaves the
    /// board unchanged; a legal one carries the card, or the whole face-up run
    /// above a tableau source, onto the destination pile.
    pub fn apply(&self, action: Action) -> (r: State)
        ensures
            r@ == self@.after(action),
    {
        let mut new = self.duplicate();
        match action {
            Action::TurnStock => {
                let next: i16 = self.cursor as i16 + 1;
                new.cursor = if next > LAST_STOCK_POS as i16 {
                    -1
                } else {
                    next as i8
                };
                new
            },
            Action::Move(from, to) => {
                if !self.is_valid_move(from, to) {
                    return new;
                }
                let mut moved = self.moved_cards(from);
                let ghost m = self@;
                match from.location {
                    Location::Foundation(i) => {
                        new.foundation[i as usize].pop();
                    },
                    Location::Tableau(i) => {
                        let b = new.tableau[i as usize].boundary;
                        new.tableau[i as usize].cards.truncate(from.idx as usize);
                        if from.idx == b {
                            new.tableau[i as usize].boundary = if b > 0 {
                                b - 1
                            } else {
                                0
                            };
                        }
                    },
                    Location::Talon => {
                        new.talon.remove(from.idx as usize);
                        new.cursor = new.cursor - 1;
                    },
                }
                proof {
                    let t = m.take_from(from);
                    assert(new@.tableau =~= t.tableau);
                    assert(new@.boundary =~= t.boundary);
                    assert(new@.foundation =~= t.foundation);
                    assert(new@.talon =~= t.talon);
                }
                let ghost mid = new@;
                match to.location {
                    Location::Foundation(i) => {
                        new.foundation[i as usize].append(&mut moved);
                    },
                    Location::Tableau(i) => {
                        new.tableau[i as usize].cards.append(&mut moved);
                    },
                    Location::Talon => {},
                }
                proof {
                    let t = mid.put_on(to, m.moved(from));
                    assert(new@.tableau =~= t.tableau);
                    assert(new@.boundary =~= t.boundary);
                    assert(new@.foundation =~= t.foundation);
                    assert(new@.talon =~= t.talon);
                }
                new
            },
        }
    }

    /// The card at a coordinate: any occupied tableau or foundation slot, and of
    /// the stock only the exposed card.
    pub fn get(&self, pos: Coord) -> (r: Option<Card>)
        ensures
            r == self@.read(pos),
    {
        match pos.location {
            Location::Foundation(i) => {
                if (i as usize) < self.foundation.len() && (pos.idx as usize) < self.foundation[i as usize].len() {
                    Some(self.foundation[i as usize][pos.idx as usize])
                } else {
                    None
                }
            },
            Location::Tableau(i) => {
                if (i as usize) < self.tableau.len() && (pos.idx as usize) < self.tableau[i as usize].cards.len() {
                    Some(self.tableau[i as usize].cards[pos.idx as usize])
                } else {
                    None
                }
            },
            Location::Talon => {
                if pos.idx as i8 == self.cursor && pos.idx <= 127 && (pos.idx as usize) < self.talon.len() {
                    Some(self.talon[pos.idx as usize])
                } else {
                    None
                }
            },
        }
    }

    /// The board with the slot at `pos` set to `val` (see `Board::set_slot`).
    pub fn set(self, pos: Coord, val: Option<Card>) -> (r: State)
        ensures
            r@ == self@.set_slot(pos, val),
            r@.cursor == self@.cursor,
            r@.boundary == self@.boundary,
    {
        let mut new = self;
        let ghost b = new@;
        let len = match new.pile_len(pos.location) {
            Some(n) => n,
            None => return new,
        };
        let k = pos.idx as usize;
        match pos.location {
            Location::Talon => {
                if pos.idx > 127 || pos.idx as i8 != new.cursor || k >= len {
                    return new;
                }
                match val {
                    Some(c) => {
                        new.talon.set(k, c);
                    },
                    None => {
                        new.talon.remove(k);
                    },
                }
            },
            Location::Foundation(i) => {
                let i = i as usize;
                match val {
                    Some(c) => if k < len {
                        new.foundation[i].set(k, c);
                    } else if k == len {
                        new.foundation[i].push(c);
                    },
                    None => if k + 1 == len {
                        new.foundation[i].pop();
                    },
                }
            },
            Location::Tableau(i) => {
                let i = i as usize;
                match val {
                    Some(c) => if k < len {
                        new.tableau[i].cards.set(k, c);
                    } else if k == len {
                        new.tableau[i].cards.push(c);
                    },
                    None => if k + 1 == len {
                        new.tableau[i].cards.pop();
                    },
                }
            },
        }
        proof {
            let t = b.set_slot(pos, val);
            assert(new@.tableau =~= t.tableau);
            assert(new@.boundary =~= t.boundary);
            assert(new@.foundation =~= t.foundation);
            assert(new@.talon =~= t.talon);
        }
        new
    }
}

impl Default for State {
    /// A board dealt from a shuffled deck.
    fn default() -> (r: Self)
        ensures
            r@.wf(),
            exists|d: Seq<Card>| is_full_deck(d) && r@ == dealt(d),
    {
        let deck = Deck::new_shuffled();
        let r = State::new(deck);
        assert(is_full_deck(deck@) && r@ == dealt(deck@));
        r
    }
}

/// The index of the last item in the leading stretch of `items` that satisfy
/// `pred`: the search stops at the first item that fails it. `None` when the
/// first item fails or there are no items.
pub fn find_last_idx<T>(items: &[T], pred: impl Fn(&T) -> bool) -> (r: Option<usize>)
    requires
        forall|i: int| 0 <= i < items@.len() ==> pred.requires((&items@[i],)),
    ensures
        match r {
            Some(i) => {
                &&& i < items@.len()
                &&& forall|j: int| 0 <= j <= i ==> #[trigger] pred.ensures((&items@[j],), true)
                &&& i + 1 < items@.len() ==> pred.ensures((&items@[i + 1],), false)
            },
            None => items@.len() == 0 || pred.ensures((&items@[0],), false),
        },
{
    let mut idx: Option<usize> = None;
    let mut i: usize = 0;
    while i < items.len()
        invariant
            i <= items@.len(),
            forall|k: int| 0 <= k < items@.len() ==> pred.requires((&items@[k],)),
            forall|j: int| 0 <= j < i ==> #[trigger] pred.ensures((&items@[j],), true),
            i == 0 ==> idx is None,
            i > 0 ==> idx == Some((i - 1) as usize),
        decreases items@.len() - i,
    {
        if pred(&items[i]) {
            idx = Some(i);
        } else {
            return idx;
        }
        i = i + 1;
    }
    idx
}

/// The last item of the leading stretch of `items` that satisfy `pred`, as
/// `find_last_idx` finds it.
pub fn find_last<T: Copy>(items: &[T], pred: impl Fn(&T) -> bool) -> (r: Option<T>)
    requires
        forall|i: int| 0 <= i < items@.len() ==> pred.requires((&items@[i],)),
    ensures
        match r {
            Some(x) => exists|i: int|
                {
                    &&& 0 <= i < items@.len()
                    &&& #[trigger] items@[i] == x
                    &&& forall|j: int| 0 <= j <= i ==> #[trigger] pred.ensures((&items@[j],), true)
                    &&& i + 1 < items@.len() ==> pred.ensures((&items@[i + 1],), false)
                },
            None => items@.len() == 0 || pred.ensures((&items@[0],), false),
        },
{
    match find_last_idx(items, pred) {
        Some(i) => Some(items[i]),
        None => None,
    }
}

} // verus!
