//! Move enumeration and move ordering for search-based solvers.
use vstd::prelude::*;
use crate::action::{Action, Coord, Location};
use crate::state::{Board, State};
use crate::invariants::lemma_legal_iff_changes;

verus! {

/// A sizing guide for callers that keep moves in fixed-size buffers: boards
/// met in play list far fewer actions than this. It is a guideline, not a
/// proven ceiling, and the enumerator does not enforce it.
pub const MOVES_BOUND: usize = 300;

/// Hands out the legal moves on a board one at a time, in the order in which
/// `available_moves` lists them (which also holds the stock turn).
pub struct MoveIterator {
    moves: Vec<Action>,
    pos: usize,
}

impl View for MoveIterator {
    type V = Seq<Action>;

    /// The actions not yet handed out.
    closed spec fn view(&self) -> Seq<Action> {
        self.moves@.skip(self.pos as int)
    }
}

impl MoveIterator {
    #[verifier::type_invariant]
    closed spec fn within(&self) -> bool {
        self.pos <= self.moves@.len()
    }

    /// An iterator over every legal move on `state`, each once. The stock
    /// turn, always available, is not among them.
    pub fn new(state: &State) -> (r: Self)
        ensures
            r@.no_duplicates(),
            forall|a: Action| #[trigger] r@.contains(a) <==> (a is Move && is_available(state@, a)),
    {
        let moves = available_moves(state);
        // `available_moves` lists the stock turn first, and only there
        let r = MoveIterator { moves, pos: 1 };
        proof {
            let all = moves@;
            assert forall|a: Action| #[trigger] r@.contains(a) <==> (a is Move && is_available(state@, a)) by {
                if r@.contains(a) {
                    let k = choose|k: int| 0 <= k < r@.len() && r@[k] == a;
                    assert(all[k + 1] == a);
                    assert(all.contains(a));
                    assert(all[0] == Action::TurnStock);
                }
                if a is Move && is_available(state@, a) {
                    assert(all.contains(a));
                    let k = choose|k: int| 0 <= k < all.len() && all[k] == a;
                    assert(k != 0);
                    assert(r@[k - 1] == a);
                }
            }
            assert forall|i: int, j: int| 0 <= i < r@.len() && 0 <= j < r@.len() && i != j implies r@[i] != r@[j] by {
                assert(r@[i] == all[i + 1] && r@[j] == all[j + 1]);
            }
        }
        r
    }

    /// The next action, or `None` once all have been handed out.
    pub fn next(&mut self) -> (r: Option<Action>)
        ensures
            old(self)@.len() == 0 ==> r is None && final(self)@ == old(self)@,
            old(self)@.len() > 0 ==> r == Some(old(self)@[0]) && final(self)@ == old(self)@.drop_first(),
    {
        proof {
            use_type_invariant(&*self);
        }
        if self.pos < self.moves.len() {
            let a = self.moves[self.pos];
            self.pos = self.pos + 1;
            assert(self@ =~= old(self)@.drop_first());
            Some(a)
        } else {
            None
        }
    }
}

/// Whether `a` is the stock turn or a legal move on `b`.
pub open spec fn is_available(b: Board, a: Action) -> bool {
    match a {
        Action::TurnStock => true,
        Action::Move(from, to) => b.is_legal(from, to),
    }
}

/// The sources found so far while walking the tableau: piles before `i`, and
/// of pile `i` the slots before `k`.
spec fn tableau_source_before(b: Board, i: int, k: int, c: Coord) -> bool {
    &&& b.is_source(c)
    &&& c.location matches Location::Tableau(p)
    &&& (p < i || (p == i && c.idx < k))
}

spec fn foundation_source_before(b: Board, i: int, c: Coord) -> bool {
    &&& b.is_source(c)
    &&& c.location matches Location::Foundation(p)
    &&& p < i
}

spec fn tableau_destination_before(b: Board, i: int, c: Coord) -> bool {
    &&& b.is_destination(c)
    &&& c.location matches Location::Tableau(p)
    &&& p < i
}

spec fn foundation_destination_before(b: Board, i: int, c: Coord) -> bool {
    &&& b.is_destination(c)
    &&& c.location matches Location::Foundation(p)
    &&& p < i
}

impl State {
    /// Every coordinate a card may be moved from, each once.
    pub fn sources(&self) -> (r: Vec<Coord>)
        ensures
            r@.no_duplicates(),
            forall|c: Coord| #[trigger] r@.contains(c) <==> self@.is_source(c),
    {
        let ghost b = self@;
        let mut r: Vec<Coord> = Vec::new();
        let mut i: usize = 0;
        while i < self.tableau.len() && i < 256
            invariant
                b == self@,
                i <= self.tableau@.len(),
                i <= 256,
                r@.no_duplicates(),
                forall|c: Coord| #[trigger] r@.contains(c) <==> tableau_source_before(b, i as int, 0, c),
            decreases self.tableau@.len() - i,
        {
            let len = self.tableau[i].cards.len();
            let mut k: usize = self.tableau[i].boundary as usize;
            while k < len && k < 256
                invariant
                    b == self@,
                    i < self.tableau@.len(),
                    i < 256,
                    len == b.tableau[i as int].len(),
                    k >= b.boundary[i as int],
                    r@.no_duplicates(),
                    forall|c: Coord|
                        #[trigger] r@.contains(c) <==> tableau_source_before(
                            b,
                            i as int,
                            k as int,
                            c,
                        ),
                decreases len - k,
            {
                let c = Coord::new(Location::Tableau(i as u8), k as u8);
                proof {
                    lemma_push_fresh(r@, c);
                }
                r.push(c);
                k = k + 1;
            }
            i = i + 1;
        }
        let ghost after_tableau = r@;
        if self.cursor >= 0 && (self.cursor as usize) < self.talon.len() {
            let c = Coord::new(Location::Talon, self.cursor as u8);
            proof {
                lemma_push_fresh(r@, c);
            }
            r.push(c);
        }
        proof {
            assert forall|c: Coord| #[trigger] r@.contains(c) <==> (tableau_source_before(b, 256, 0, c)
                || (b.is_source(c) && c.location is Talon)) by {
                if b.is_source(c) && c.location is Talon {
                    assert(c.idx == b.cursor);
                }
            }
        }
        let mut j: usize = 0;
        while j < self.foundation.len() && j < 256
            invariant
                b == self@,
                j <= self.foundation@.len(),
                r@.no_duplicates(),
                forall|c: Coord|
                    #[trigger] r@.contains(c) <==> (tableau_source_before(b, 256, 0, c) || (
                    b.is_source(c) && c.location is Talon) || foundation_source_before(
                        b,
                        j as int,
                        c,
                    )),
            decreases self.foundation@.len() - j,
        {
            let len = self.foundation[j].len();
            if len > 0 && len <= 256 {
                let c = Coord::new(Location::Foundation(j as u8), (len - 1) as u8);
                proof {
                    lemma_push_fresh(r@, c);
                }
                r.push(c);
            }
            j = j + 1;
        }
        r
    }

    /// Every coordinate a card may be placed at, each once: the slot just past
    /// the top of each tableau and foundation pile.
    pub fn destinations(&self) -> (r: Vec<Coord>)
        ensures
            r@.no_duplicates(),
            forall|c: Coord| #[trigger] r@.contains(c) <==> self@.is_destination(c),
    {
        let ghost b = self@;
        let mut r: Vec<Coord> = Vec::new();
        let mut i: usize = 0;
        while i < self.tableau.len() && i < 256
            invariant
                b == self@,
                i <= self.tableau@.len(),
                r@.no_duplicates(),
                forall|c: Coord| #[trigger] r@.contains(c) <==> tableau_destination_before(b, i as int, c),
            decreases self.tableau@.len() - i,
        {
            let len = self.tableau[i].cards.len();
            if len < 256 {
                let c = Coord::new(Location::Tableau(i as u8), len as u8);
                proof {
                    lemma_push_fresh(r@, c);
                }
                r.push(c);
            }
            i = i + 1;
        }
        let mut j: usize = 0;
        while j < self.foundation.len() && j < 256
            invariant
                b == self@,
                j <= self.foundation@.len(),
                r@.no_duplicates(),
                forall|c: Coord|
                    #[trigger] r@.contains(c) <==> (tableau_destination_before(b, 256, c)
                        || foundation_destination_before(b, j as int, c)),
            decreases self.foundation@.len() - j,
        {
            let len = self.foundation[j].len();
            if len < 256 {
                let c = Coord::new(Location::Foundation(j as u8), len as u8);
                proof {
                    lemma_push_fresh(r@, c);
                }
                r.push(c);
            }
            j = j + 1;
        }
        r
    }
}

/// The moves found so far: the stock turn, the legal moves out of the first
/// `si` sources, and those out of source `si` into the first `di` destinations.
spec fn found_before(b: Board, srcs: Seq<Coord>, dsts: Seq<Coord>, si: int, di: int, a: Action) -> bool {
    match a {
        Action::TurnStock => true,
        Action::Move(f, t) => b.is_legal(f, t) && ((srcs.take(si).contains(f) && dsts.contains(t))
            || (si < srcs.len() && f == srcs[si] && dsts.take(di).contains(t))),
    }
}

/// Every action available on the board, each once: the stock turn first, then
/// each legal move. A move is listed exactly when the rules allow it.
pub fn available_moves(state: &State) -> (r: Vec<Action>)
    ensures
        r@.no_duplicates(),
        r@.len() > 0,
        r@[0] == Action::TurnStock,
        forall|a: Action| #[trigger] r@.contains(a) <==> is_available(state@, a),
{
    let ghost b = state@;
    let srcs = state.sources();
    let dsts = state.destinations();
    let mut r: Vec<Action> = Vec::new();
    proof {
        lemma_push_fresh(r@, Action::TurnStock);
    }
    r.push(Action::TurnStock);
    let mut si: usize = 0;
    while si < srcs.len()
        invariant
            b == state@,
            si <= srcs@.len(),
            srcs@.no_duplicates(),
            dsts@.no_duplicates(),
            forall|c: Coord| #[trigger] srcs@.contains(c) <==> b.is_source(c),
            forall|c: Coord| #[trigger] dsts@.contains(c) <==> b.is_destination(c),
            r@.len() > 0,
            r@[0] == Action::TurnStock,
            r@.no_duplicates(),
            forall|a: Action| #[trigger] r@.contains(a) <==> found_before(b, srcs@, dsts@, si as int, 0, a),
        decreases srcs@.len() - si,
    {
        let from = srcs[si];
        let mut di: usize = 0;
        while di < dsts.len()
            invariant
                b == state@,
                si < srcs@.len(),
                from == srcs@[si as int],
                di <= dsts@.len(),
                srcs@.no_duplicates(),
                dsts@.no_duplicates(),
                r@.len() > 0,
                r@[0] == Action::TurnStock,
                r@.no_duplicates(),
                forall|a: Action|
                    #[trigger] r@.contains(a) <==> found_before(b, srcs@, dsts@, si as int, di as int, a),
            decreases dsts@.len() - di,
        {
            let to = dsts[di];
            if state.is_valid_move(from, to) {
                let a = Action::Move(from, to);
                proof {
                    assert(dsts@.take(di + 1) =~= dsts@.take(di as int).push(to));
                    if found_before(b, srcs@, dsts@, si as int, di as int, a) {
                        if srcs@.take(si as int).contains(from) {
                            let k = choose|k: int| 0 <= k < si && srcs@.take(si as int)[k] == from;
                            assert(srcs@[k] == srcs@[si as int]);
                        } else {
                            let k = choose|k: int| 0 <= k < di && dsts@.take(di as int)[k] == to;
                            assert(dsts@[k] == dsts@[di as int]);
                        }
                    }
                    lemma_push_fresh(r@, a);
                }
                r.push(a);
                proof {
                    lemma_take_push(dsts@, di as int);
                }
            } else {
                proof {
                    lemma_take_push(dsts@, di as int);
                }
            }
            di = di + 1;
        }
        proof {
            assert(dsts@.take(dsts@.len() as int) =~= dsts@);
            lemma_take_push(srcs@, si as int);
        }
        si = si + 1;
    }
    proof {
        assert(srcs@.take(srcs@.len() as int) =~= srcs@);
        assert forall|a: Action| #[trigger] r@.contains(a) <==> is_available(b, a) by {
            if let Action::Move(f, t) = a {
                if b.is_legal(f, t) {
                    assert(srcs@.contains(f));
                    assert(dsts@.contains(t));
                }
            }
        }
    }
    r
}

/// Whether moving out of `from` turns over the boundary of its tableau pile,
/// that is, starts at the pile's lowest face-up card.
pub open spec fn reveals(b: Board, from: Coord) -> bool {
    from.location matches Location::Tableau(i) && i < b.tableau.len() && from.idx
        == b.boundary[i as int]
}

/// The search priority of an action; higher is explored first.
pub open spec fn priority(b: Board, action: Action) -> u8 {
    match action {
        Action::TurnStock => 0,
        Action::Move(from, to) => match (from.location, to.location) {
            (_, Location::Foundation(_)) => if reveals(b, from) {
                5
            } else {
                4
            },
            (Location::Tableau(_), Location::Tableau(_)) => if reveals(b, from) {
                3
            } else {
                0
            },
            (Location::Talon, Location::Tableau(_)) => 2,
            (Location::Foundation(_), Location::Tableau(_)) => 1,
            (_, Location::Talon) => 0,
        },
    }
}

impl State {
    /// Whether moving out of `from` starts at the lowest face-up card of a
    /// tableau pile.
    fn reveals(&self, from: Coord) -> (r: bool)
        ensures
            r == reveals(self@, from),
    {
        match from.location {
            Location::Tableau(i) => (i as usize) < self.tableau.len() && self.tableau[i as usize].boundary
                == from.idx,
            _ => false,
        }
    }
}

/// Orders actions by how likely they are to lead to a win: moves to the
/// foundation first (above all those that turn over a hidden card), then
/// tableau moves that turn over a card, moves from the stock, moves down from
/// the foundation, and last stock turns and tableau moves that reveal nothing.
pub fn action_value(state: &State, action: Action) -> (r: u8)
    ensures
        r == priority(state@, action),
{
    let (from, to) = match action {
        Action::TurnStock => return 0,
        Action::Move(from, to) => (from, to),
    };
    match (from.location, to.location) {
        (_, Location::Foundation(_)) => if state.reveals(from) {
            5
        } else {
            4
        },
        (Location::Tableau(_), Location::Tableau(_)) => if state.reveals(from) {
            3
        } else {
            0
        },
        (Location::Talon, Location::Tableau(_)) => 2,
        (Location::Foundation(_), Location::Tableau(_)) => 1,
        (_, Location::Talon) => 0,
    }
}

/// A move is available (and so listed by `available_moves`) exactly when
/// applying it changes the board.
pub proof fn lemma_available_iff_changes(b: Board, a: Action)
    requires
        a is Move,
    ensures
        is_available(b, a) <==> b.after(a) != b,
{
    if let Action::Move(from, to) = a {
        lemma_legal_iff_changes(b, from, to);
    }
}

/// Extending a prefix by one element adds exactly that element.
proof fn lemma_take_push<A>(s: Seq<A>, i: int)
    requires
        0 <= i < s.len(),
    ensures
        forall|y: A| #[trigger] s.take(i + 1).contains(y) <==> (s.take(i).contains(y) || y == s[i]),
{
    assert(s.take(i + 1) =~= s.take(i).push(s[i]));
    lemma_push_contains(s.take(i), s[i]);
}

/// The elements of a sequence after a push.
proof fn lemma_push_contains<A>(s: Seq<A>, x: A)
    ensures
        forall|y: A| #[trigger] s.push(x).contains(y) <==> (s.contains(y) || y == x),
{
    assert forall|y: A| #[trigger] s.push(x).contains(y) implies (s.contains(y) || y == x) by {
        let k = choose|k: int| 0 <= k < s.push(x).len() && s.push(x)[k] == y;
        if k < s.len() {
            assert(s[k] == y);
        }
    }
    assert forall|y: A| (s.contains(y) || y == x) implies #[trigger] s.push(x).contains(y) by {
        if y == x {
            assert(s.push(x)[s.len() as int] == y);
        } else {
            let k = choose|k: int| 0 <= k < s.len() && s[k] == y;
            assert(s.push(x)[k] == y);
        }
    }
}

/// Pushing an element that is not yet present keeps a sequence free of
/// duplicates and adds exactly that element.
proof fn lemma_push_fresh<A>(s: Seq<A>, x: A)
    requires
        s.no_duplicates(),
        !s.contains(x),
    ensures
        s.push(x).no_duplicates(),
        forall|y: A| #[trigger] s.push(x).contains(y) <==> (s.contains(y) || y == x),
{
    lemma_push_contains(s, x);
}

} // verus!
