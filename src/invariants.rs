//! What every board reached by play satisfies, and the laws that tie the
//! move rules, `apply` and the enumerator together.
use vstd::prelude::*;
use vstd::multiset::Multiset;
use crate::action::{Action, Coord, Location};
use crate::deck::{Card, is_full_deck, standard_deck};
use crate::state::{Board, card_fits, dealt, deal_start, TABLEAU_PILES, FOUNDATION_PILES, STOCK_SIZE, LAST_STOCK_POS};

verus! {

broadcast use vstd::multiset::group_multiset_axioms;

/// The cards held by a group of piles, counted with multiplicity.
pub open spec fn pile_multiset(ps: Seq<Seq<Card>>) -> Multiset<Card>
    decreases ps.len(),
{
    if ps.len() == 0 {
        Multiset::empty()
    } else {
        pile_multiset(ps.drop_last()).add(ps.last().to_multiset())
    }
}

/// A foundation pile builds up in one suit from the ace, without gaps.
pub open spec fn is_foundation_run(p: Seq<Card>) -> bool {
    forall|j: int| 0 <= j < p.len() ==> (#[trigger] p[j]).rank() == j + 1 && p[j].suit == p[0].suit
}

/// The card after position `j` of `p` lies on it by the tableau rule: one
/// rank lower and of the other colour.
pub open spec fn steps_down(p: Seq<Card>, j: int) -> bool {
    p[j].is_red() != p[j + 1].is_red() && p[j].rank() == p[j + 1].rank() + 1
}

/// The face-up part of a tableau pile, from `boundary` up, builds down in
/// alternating colours.
pub open spec fn is_tableau_run(p: Seq<Card>, boundary: int) -> bool {
    forall|j: int| boundary <= j && j + 1 < p.len() ==> #[trigger] steps_down(p, j)
}

/// One step of a tableau run.
proof fn lemma_run_at(p: Seq<Card>, boundary: int, j: int)
    requires
        is_tableau_run(p, boundary),
        0 <= boundary <= j,
        j + 1 < p.len(),
    ensures
        p[j].is_red() != p[j + 1].is_red(),
        p[j].rank() == p[j + 1].rank() + 1,
{
    assert(steps_down(p, j));
}

/// A tableau pile as play leaves it: its boundary lies within the pile, a
/// non-empty pile shows at least its top card, and the face-up cards build
/// down in alternating colours.
pub open spec fn is_tableau_pile(p: Seq<Card>, boundary: int) -> bool {
    &&& 0 <= boundary <= p.len()
    &&& p.len() > 0 ==> boundary < p.len()
    &&& is_tableau_run(p, boundary)
}

impl Board {
    /// Every card on the board, counted with multiplicity.
    pub open spec fn cards(self) -> Multiset<Card> {
        pile_multiset(self.tableau).add(pile_multiset(self.foundation)).add(
            self.talon.to_multiset(),
        )
    }

    /// Each tableau pile has a boundary, and no boundary lies above the top of
    /// its pile.
    pub open spec fn boundaries_in_range(self) -> bool {
        &&& self.boundary.len() == self.tableau.len()
        &&& forall|i: int|
            0 <= i < self.tableau.len() ==> 0 <= #[trigger] self.boundary[i]
                <= self.tableau[i].len()
    }

    /// A board as play leaves it: seven tableau piles and four foundation
    /// piles; each non-empty tableau pile shows at least its top card, and its
    /// face-up cards build down in alternating colours; each foundation pile
    /// builds up in one suit from the ace; the stock holds at most 24 cards and
    /// its cursor lies in -1 to 23; and the board holds the 52 cards of the
    /// deck, each exactly once.
    pub open spec fn wf(self) -> bool {
        &&& self.tableau.len() == TABLEAU_PILES
        &&& self.foundation.len() == FOUNDATION_PILES
        &&& self.boundaries_in_range()
        &&& forall|i: int|
            0 <= i < self.tableau.len() ==> is_tableau_pile(
                #[trigger] self.tableau[i],
                self.boundary[i],
            )
        &&& forall|i: int|
            0 <= i < self.foundation.len() ==> is_foundation_run(#[trigger] self.foundation[i])
        &&& self.talon.len() <= STOCK_SIZE
        &&& -1 <= self.cursor <= LAST_STOCK_POS
        &&& self.cards() == standard_deck().to_multiset()
    }
}

/// Replacing one pile of a group swaps its cards for the new pile's.
pub proof fn lemma_pile_update(ps: Seq<Seq<Card>>, i: int, x: Seq<Card>)
    requires
        0 <= i < ps.len(),
    ensures
        pile_multiset(ps.update(i, x)).add(ps[i].to_multiset()) == pile_multiset(ps).add(
            x.to_multiset(),
        ),
        forall|v: Card|
            #[trigger] pile_multiset(ps.update(i, x)).count(v) + ps[i].to_multiset().count(v)
                == pile_multiset(ps).count(v) + x.to_multiset().count(v),
    decreases ps.len(),
{
    let q = ps.update(i, x);
    assert(pile_multiset(q) == pile_multiset(q.drop_last()).add(q.last().to_multiset()));
    assert(pile_multiset(ps) == pile_multiset(ps.drop_last()).add(ps.last().to_multiset()));
    if i == ps.len() - 1 {
        assert(q.drop_last() =~= ps.drop_last());
        assert(q.last() == x);
        assert(pile_multiset(q).add(ps[i].to_multiset()) =~= pile_multiset(ps).add(
            x.to_multiset(),
        ));
    } else {
        assert(q.drop_last() =~= ps.drop_last().update(i, x));
        assert(q.last() == ps.last());
        assert(ps.drop_last()[i] == ps[i]);
        let dl = ps.drop_last();
        lemma_pile_update(dl, i, x);
        assert(pile_multiset(q).add(ps[i].to_multiset()) =~= pile_multiset(dl.update(i, x)).add(
            dl[i].to_multiset(),
        ).add(ps.last().to_multiset()));
        assert(pile_multiset(dl).add(x.to_multiset()).add(ps.last().to_multiset())
            =~= pile_multiset(ps).add(x.to_multiset()));
    }
    assert forall|v: Card|
        #[trigger] pile_multiset(ps.update(i, x)).count(v) + ps[i].to_multiset().count(v)
            == pile_multiset(ps).count(v) + x.to_multiset().count(v) by {
        assert(pile_multiset(q).add(ps[i].to_multiset()).count(v) == pile_multiset(ps).add(
            x.to_multiset(),
        ).count(v));
    }
}

/// Splitting a sequence splits its multiset.
proof fn lemma_split(s: Seq<Card>, k: int)
    requires
        0 <= k <= s.len(),
    ensures
        s.to_multiset() == s.take(k).to_multiset().add(s.subrange(k, s.len() as int).to_multiset()),
        forall|v: Card|
            #[trigger] s.to_multiset().count(v) == s.take(k).to_multiset().count(v) + s.subrange(
                k,
                s.len() as int,
            ).to_multiset().count(v),
{
    assert(s =~= s.take(k) + s.subrange(k, s.len() as int));
    vstd::seq_lib::lemma_multiset_commutative(s.take(k), s.subrange(k, s.len() as int));
}

/// Moving cards never creates, destroys or duplicates a card: the board
/// holds the same cards, with the same multiplicities, after any action.
pub proof fn lemma_conservation(b: Board, a: Action)
    ensures
        b.after(a).cards() == b.cards(),
{
    if let Action::Move(from, to) = a {
        if b.is_legal(from, to) {
            let moved = b.moved(from);
            let mid = b.take_from(from);
            let card = b.read(from)->0;
            // taking the cards out removes exactly `moved`
            assert(mid.cards().add(moved.to_multiset()) == b.cards()) by {
                match from.location {
                    Location::Tableau(i) => {
                        let p = b.tableau[i as int];
                        lemma_split(p, from.idx as int);
                        lemma_pile_update(b.tableau, i as int, p.take(from.idx as int));
                        assert(mid.cards().add(moved.to_multiset()) =~= b.cards());
                    },
                    Location::Foundation(i) => {
                        let p = b.foundation[i as int];
                        assert(p =~= p.drop_last().push(card));
                        vstd::seq_lib::to_multiset_build(p.drop_last(), card);
                        lemma_single(card);
                        lemma_pile_update(b.foundation, i as int, p.drop_last());
                        assert(mid.cards().add(moved.to_multiset()) =~= b.cards());
                    },
                    Location::Talon => {
                        vstd::seq_lib::to_multiset_remove(b.talon, from.idx as int);
                        lemma_single(card);
                        b.talon.to_multiset_ensures();
                        assert(b.talon.to_multiset().count(card) > 0);
                        assert(mid.cards().add(moved.to_multiset()) =~= b.cards());
                    },
                }
            }
            // putting them down adds exactly `moved`
            match to.location {
                Location::Tableau(j) => {
                    lemma_pile_update(mid.tableau, j as int, mid.tableau[j as int] + moved);
                    vstd::seq_lib::lemma_multiset_commutative(mid.tableau[j as int], moved);
                },
                Location::Foundation(j) => {
                    lemma_pile_update(mid.foundation, j as int, mid.foundation[j as int] + moved);
                    vstd::seq_lib::lemma_multiset_commutative(mid.foundation[j as int], moved);
                },
                Location::Talon => {},
            }
            assert(b.after(a).cards() =~= mid.cards().add(moved.to_multiset()));
        }
    }
}

proof fn lemma_single(c: Card)
    ensures
        seq![c].to_multiset() == Multiset::<Card>::empty().insert(c),
{
    assert(seq![c] =~= Seq::<Card>::empty().push(c));
    vstd::seq_lib::to_multiset_build(Seq::<Card>::empty(), c);
    vstd::seq_lib::to_multiset_len(Seq::<Card>::empty());
    vstd::multiset::lemma_multiset_empty_len(Seq::<Card>::empty().to_multiset());
}

/// No action lifts a tableau boundary above the top of its pile.
pub proof fn lemma_boundary_bound(b: Board, a: Action)
    requires
        b.boundaries_in_range(),
    ensures
        b.after(a).boundaries_in_range(),
{
    if let Action::Move(from, to) = a {
        if b.is_legal(from, to) {
            let r = b.after(a);
            assert forall|i: int| 0 <= i < r.tableau.len() implies 0 <= #[trigger] r.boundary[i]
                <= r.tableau[i].len() by {
                if from.location matches Location::Tableau(f) && f == i {
                    assert(b.tableau[i].len() > from.idx);
                }
            }
        }
    }
}

/// Taking a face-up run off a tableau pile leaves a well-formed pile, turning
/// over the card below when the run started at the boundary.
proof fn lemma_tableau_take(p: Seq<Card>, bd: int, k: int)
    requires
        is_tableau_pile(p, bd),
        bd <= k < p.len(),
    ensures
        is_tableau_pile(p.take(k), if k == bd { if k > 0 { k - 1 } else { 0 } } else { bd }),
{
    let q = p.take(k);
    let nb = if k == bd { if k > 0 { k - 1 } else { 0 } } else { bd };
    assert forall|j: int| nb <= j && j + 1 < q.len() implies #[trigger] steps_down(q, j) by {
        lemma_run_at(p, bd, j);
    }
}

/// Placing a run on a tableau pile whose top (if any) it fits keeps the pile
/// well formed.
proof fn lemma_tableau_put(p: Seq<Card>, bd: int, moved: Seq<Card>)
    requires
        is_tableau_pile(p, bd),
        moved.len() >= 1,
        is_tableau_run(moved, 0),
        card_fits(moved[0], if p.len() > 0 { Some(p.last()) } else { None }, Location::Tableau(0)),
    ensures
        is_tableau_pile(p + moved, bd),
{
    let q = p + moved;
    assert forall|j: int| bd <= j && j + 1 < q.len() implies #[trigger] steps_down(q, j) by {
        if j + 1 < p.len() {
            assert(q[j] == p[j] && q[j + 1] == p[j + 1]);
            lemma_run_at(p, bd, j);
        } else if j + 1 == p.len() {
            assert(q[j] == p.last() && q[j + 1] == moved[0]);
        } else {
            let m = j - p.len();
            assert(q[j] == moved[m] && q[j + 1] == moved[m + 1]);
            lemma_run_at(moved, 0, m);
        }
    }
}

/// Placing a card on a foundation pile whose top (if any) it fits keeps the
/// pile a run from the ace.
proof fn lemma_foundation_put(p: Seq<Card>, c: Card)
    requires
        is_foundation_run(p),
        card_fits(c, if p.len() > 0 { Some(p.last()) } else { None }, Location::Foundation(0)),
    ensures
        is_foundation_run(p.push(c)),
{
    let q = p.push(c);
    assert forall|j: int| 0 <= j < q.len() implies (#[trigger] q[j]).rank() == j + 1 && q[j].suit
        == q[0].suit by {
        if j < p.len() {
            assert(q[j] == p[j]);
        }
        if p.len() > 0 {
            assert(q[0] == p[0]);
            assert(p[p.len() - 1].rank() == p.len() && p[p.len() - 1].suit == p[0].suit);
        }
    }
}

/// Taking the top card off a foundation pile leaves a run from the ace.
proof fn lemma_foundation_drop(p: Seq<Card>)
    requires
        is_foundation_run(p),
        p.len() > 0,
    ensures
        is_foundation_run(p.drop_last()),
{
    let q = p.drop_last();
    assert forall|j: int| 0 <= j < q.len() implies (#[trigger] q[j]).rank() == j + 1 && q[j].suit
        == q[0].suit by {
        assert(q[j] == p[j] && q[0] == p[0]);
    }
}

/// The run that a legal move carries is itself well formed.
proof fn lemma_moved_run(b: Board, from: Coord, to: Coord)
    requires
        b.wf(),
        b.is_legal(from, to),
    ensures
        b.moved(from).len() >= 1,
        b.moved(from)[0] == b.read(from)->0,
        is_tableau_run(b.moved(from), 0),
{
    let moved = b.moved(from);
    if let Location::Tableau(i) = from.location {
        let p = b.tableau[i as int];
        assert(is_tableau_pile(p, b.boundary[i as int]));
        assert forall|m: int| 0 <= m && m + 1 < moved.len() implies #[trigger] steps_down(moved, m) by {
            let j = from.idx + m;
            assert(moved[m] == p[j]);
            assert(moved[m + 1] == p[j + 1]);
            lemma_run_at(p, b.boundary[i as int], j);
        }
    }
}

/// Play keeps a board well formed: an action on a well-formed board gives a
/// well-formed board.
pub proof fn lemma_wf_preserved(b: Board, a: Action)
    requires
        b.wf(),
    ensures
        b.after(a).wf(),
{
    lemma_conservation(b, a);
    lemma_boundary_bound(b, a);
    if let Action::Move(from, to) = a {
        if b.is_legal(from, to) {
            let r = b.after(a);
            let moved = b.moved(from);
            let card = b.read(from)->0;
            lemma_moved_run(b, from, to);
            assert forall|i: int| 0 <= i < r.tableau.len() implies is_tableau_pile(
                #[trigger] r.tableau[i],
                r.boundary[i],
            ) by {
                let p = b.tableau[i];
                assert(is_tableau_pile(p, b.boundary[i]));
                if to.location matches Location::Tableau(t) && t == i {
                    if p.len() > 0 {
                        assert(b.anchor(to) == Some(p.last()));
                    }
                    lemma_tableau_put(p, b.boundary[i], moved);
                } else if from.location matches Location::Tableau(f) && f == i {
                    lemma_tableau_take(p, b.boundary[i], from.idx as int);
                }
            }
            assert forall|i: int| 0 <= i < r.foundation.len() implies is_foundation_run(
                #[trigger] r.foundation[i],
            ) by {
                let p = b.foundation[i];
                assert(is_foundation_run(p));
                if to.location matches Location::Foundation(t) && t == i {
                    if p.len() > 0 {
                        assert(b.anchor(to) == Some(p.last()));
                    }
                    assert(moved =~= seq![card]);
                    assert(r.foundation[i] =~= p.push(card));
                    lemma_foundation_put(p, card);
                } else if from.location matches Location::Foundation(f) && f == i {
                    assert(r.foundation[i] =~= p.drop_last());
                    lemma_foundation_drop(p);
                } else {
                    assert(r.foundation[i] == p);
                }
            }
        }
    }
}

/// The first `n` tableau piles of a deal hold the first `deal_start(n)` cards
/// of the deck.
proof fn lemma_dealt_prefix(deck: Seq<Card>, n: int)
    requires
        deck.len() == 52,
        0 <= n <= TABLEAU_PILES,
    ensures
        pile_multiset(dealt(deck).tableau.take(n)) == deck.take(deal_start(n)).to_multiset(),
    decreases n,
{
    let t = dealt(deck).tableau;
    if n == 0 {
        assert(t.take(0) =~= Seq::<Seq<Card>>::empty());
        vstd::seq_lib::to_multiset_len(deck.take(0));
        vstd::multiset::lemma_multiset_empty_len(deck.take(0).to_multiset());
    } else {
        lemma_dealt_prefix(deck, n - 1);
        assert(deal_start(n) == deal_start(n - 1) + n && deal_start(n) <= 28) by (nonlinear_arith)
            requires
                1 <= n <= 7,
        ;
        assert(t.take(n).drop_last() =~= t.take(n - 1));
        let head = deck.take(deal_start(n - 1));
        let tail = deck.subrange(deal_start(n - 1), deal_start(n));
        assert(deck.take(deal_start(n)) =~= head + tail);
        vstd::seq_lib::lemma_multiset_commutative(head, tail);
    }
}

/// Empty piles hold no cards.
proof fn lemma_empty_piles(ps: Seq<Seq<Card>>)
    requires
        forall|i: int| 0 <= i < ps.len() ==> #[trigger] ps[i].len() == 0,
    ensures
        pile_multiset(ps) == Multiset::<Card>::empty(),
    decreases ps.len(),
{
    if ps.len() > 0 {
        lemma_empty_piles(ps.drop_last());
        vstd::seq_lib::to_multiset_len(ps.last());
        vstd::multiset::lemma_multiset_empty_len(ps.last().to_multiset());
        assert(pile_multiset(ps) =~= Multiset::<Card>::empty());
    }
}

/// A deal from a full deck is well formed.
pub proof fn lemma_dealt_wf(deck: Seq<Card>)
    requires
        deck.len() == 52,
        deck.to_multiset() == standard_deck().to_multiset(),
    ensures
        dealt(deck).wf(),
{
    let b = dealt(deck);
    lemma_dealt_prefix(deck, TABLEAU_PILES as int);
    assert(b.tableau.take(7) =~= b.tableau);
    assert(deal_start(7) == 28);
    assert(deck =~= deck.take(28) + b.talon);
    vstd::seq_lib::lemma_multiset_commutative(deck.take(28), b.talon);
    lemma_empty_piles(b.foundation);
    assert(b.cards() =~= deck.to_multiset());
    assert forall|i: int| 0 <= i < b.tableau.len() implies is_tableau_pile(
        #[trigger] b.tableau[i],
        b.boundary[i],
    ) by {
        assert(deal_start(i + 1) == deal_start(i) + i + 1 && deal_start(i + 1) <= 28) by (nonlinear_arith)
            requires
                0 <= i < 7,
        ;
    }
}

/// The board after playing `actions` in order.
pub open spec fn played(b: Board, actions: Seq<Action>) -> Board
    decreases actions.len(),
{
    if actions.len() == 0 {
        b
    } else {
        played(b, actions.drop_last()).after(actions.last())
    }
}

/// Every board reached by play from a deal of a full deck is well formed: it
/// holds each of the 52 cards exactly once, and no tableau boundary lies above
/// the top of its pile.
pub proof fn lemma_reachable_wf(deck: Seq<Card>, actions: Seq<Action>)
    requires
        deck.len() == 52,
        is_full_deck(deck),
    ensures
        played(dealt(deck), actions).wf(),
        played(dealt(deck), actions).cards() == standard_deck().to_multiset(),
        played(dealt(deck), actions).boundaries_in_range(),
    decreases actions.len(),
{
    if actions.len() == 0 {
        lemma_dealt_wf(deck);
    } else {
        lemma_reachable_wf(deck, actions.drop_last());
        lemma_wf_preserved(played(dealt(deck), actions.drop_last()), actions.last());
    }
}

/// A move that the rules refuse leaves the board exactly as it was.
pub proof fn lemma_illegal_is_noop(b: Board, from: Coord, to: Coord)
    requires
        !b.is_legal(from, to),
    ensures
        b.after(Action::Move(from, to)) == b,
{
}

/// A move changes the board exactly when the rules allow it.
pub proof fn lemma_legal_iff_changes(b: Board, from: Coord, to: Coord)
    ensures
        b.is_legal(from, to) <==> b.after(Action::Move(from, to)) != b,
{
    if b.is_legal(from, to) {
        let r = b.after(Action::Move(from, to));
        let moved = b.moved(from);
        assert(moved.len() >= 1);
        assert(r.pile(to.location).len() == b.pile(to.location).len() + moved.len());
    }
}

/// The foundation rule: a movable card may go onto an empty foundation pile
/// exactly when it is an ace, and onto a non-empty one exactly when it follows
/// the top card in the same suit.
pub proof fn lemma_foundation_rule(b: Board, from: Coord, to: Coord)
    requires
        to.location is Foundation,
        from.location != to.location,
        b.is_source(from),
        b.is_destination(to),
        from.location is Tableau ==> from.idx + 1 == b.pile(from.location).len(),
    ensures
        ({
            let card = b.read(from)->0;
            let p = b.pile(to.location);
            &&& p.len() == 0 ==> (b.is_legal(from, to) <==> card.rank() == 1)
            &&& p.len() > 0 ==> (b.is_legal(from, to) <==> card.suit == p.last().suit && card.rank()
                == p.last().rank() + 1)
        }),
{
}

/// The tableau rule: a movable card (with whatever lies on it) may go onto an
/// empty tableau pile exactly when it is a king, and onto a non-empty one
/// exactly when it is one rank below the top card and of the other colour.
pub proof fn lemma_tableau_rule(b: Board, from: Coord, to: Coord)
    requires
        to.location is Tableau,
        from.location != to.location,
        b.is_source(from),
        b.is_destination(to),
    ensures
        ({
            let card = b.read(from)->0;
            let p = b.pile(to.location);
            &&& p.len() == 0 ==> (b.is_legal(from, to) <==> card.rank() == 13)
            &&& p.len() > 0 ==> (b.is_legal(from, to) <==> card.is_red() != p.last().is_red()
                && p.last().rank() == card.rank() + 1)
        }),
{
}

/// A legal move between tableau piles carries the whole run from the source
/// slot to the top, in order, onto the destination; the source keeps the cards
/// below, and turns over its next card when the run started at its boundary.
/// Nothing else changes.
pub proof fn lemma_run_transfer(b: Board, from: Coord, to: Coord)
    requires
        b.boundaries_in_range(),
        b.is_legal(from, to),
        from.location is Tableau,
        to.location is Tableau,
    ensures
        ({
            let i = from.location->Tableau_0 as int;
            let j = to.location->Tableau_0 as int;
            let k = from.idx as int;
            let p = b.tableau[i];
            let r = b.after(Action::Move(from, to));
            &&& r.tableau[j] == b.tableau[j] + p.subrange(k, p.len() as int)
            &&& r.tableau[i] == p.take(k)
            &&& r.boundary[i] == if k == b.boundary[i] {
                if k > 0 { k - 1 } else { 0 }
            } else {
                b.boundary[i]
            }
            &&& r.boundary[j] == b.boundary[j]
            &&& forall|m: int| 0 <= m < b.tableau.len() && m != i && m != j ==> r.tableau[m]
                == b.tableau[m] && r.boundary[m] == b.boundary[m]
            &&& r.foundation == b.foundation
            &&& r.talon == b.talon
            &&& r.cursor == b.cursor
        }),
{
    let i = from.location->Tableau_0 as int;
    let j = to.location->Tableau_0 as int;
    let k = from.idx as int;
    let p = b.tableau[i];
    let r = b.after(Action::Move(from, to));
    let mid = b.take_from(from);
    assert(i != j);
    assert(mid.tableau[j] == b.tableau[j]);
    assert(b.moved(from) == p.subrange(k, p.len() as int));
    assert(r.tableau == mid.tableau.update(j, b.tableau[j] + b.moved(from)));
}

/// The board after `n` turns of the stock.
pub open spec fn turned(b: Board, n: nat) -> Board
    decreases n,
{
    if n == 0 {
        b
    } else {
        turned(b, (n - 1) as nat).after(Action::TurnStock)
    }
}

/// Turning the stock only moves the cursor: from -1, turn `n` (for `n` up to
/// 24) exposes position `n - 1`.
proof fn lemma_turns(b: Board, n: nat)
    requires
        b.cursor == -1,
        n <= STOCK_SIZE,
    ensures
        turned(b, n) == (Board { cursor: n - 1, ..b }),
    decreases n,
{
    if n > 0 {
        lemma_turns(b, (n - 1) as nat);
    }
}

/// From no exposed card, 24 turns of the stock expose positions 0 to 23 in
/// order, and the 25th turn hides the stock again, leaving the board as it
/// started.
pub proof fn lemma_draw_cycle(b: Board)
    requires
        b.cursor == -1,
    ensures
        forall|n: nat| 1 <= n <= STOCK_SIZE ==> #[trigger] turned(b, n).cursor == n - 1,
        turned(b, (STOCK_SIZE + 1) as nat) == b,
{
    assert forall|n: nat| 1 <= n <= STOCK_SIZE implies #[trigger] turned(b, n).cursor == n - 1 by {
        lemma_turns(b, n);
    }
    lemma_turns(b, STOCK_SIZE as nat);
}

} // verus!
