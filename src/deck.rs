//! Cards and decks.
use vstd::prelude::*;
use rand::seq::SliceRandom;

verus! {

/// The suit of a card.
#[derive(Debug, Clone, Copy, PartialEq, Eq, Structural)]
pub enum Suit {
    Hearts,
    Spades,
    Clubs,
    Diamonds,
}

impl Suit {
    /// Hearts and diamonds are red; spades and clubs are black.
    pub open spec fn is_red(self) -> bool {
        self is Hearts || self is Diamonds
    }

    /// The suits in the order in which a fresh deck holds them.
    pub open spec fn spec_nth(i: int) -> Suit {
        if i == 0 {
            Suit::Hearts
        } else if i == 1 {
            Suit::Diamonds
        } else if i == 2 {
            Suit::Spades
        } else {
            Suit::Clubs
        }
    }

    /// The position of a suit in a fresh deck.
    pub open spec fn spec_order(self) -> int {
        match self {
            Suit::Hearts => 0,
            Suit::Diamonds => 1,
            Suit::Spades => 2,
            Suit::Clubs => 3,
        }
    }

    pub fn nth(i: u8) -> (r: Suit)
        requires
            i < 4,
        ensures
            r == Suit::spec_nth(i as int),
    {
        if i == 0 {
            Suit::Hearts
        } else if i == 1 {
            Suit::Diamonds
        } else if i == 2 {
            Suit::Spades
        } else {
            Suit::Clubs
        }
    }
}

/// The value of a card, from ace (1) to king (13).
#[derive(Debug, Clone, Copy, PartialEq, Eq, Structural)]
pub enum Value {
    Ace,
    Two,
    Three,
    Four,
    Five,
    Six,
    Seven,
    Eight,
    Nine,
    Ten,
    Jack,
    Queen,
    King,
}

impl Value {
    pub open spec fn spec_rank(self) -> u8 {
        match self {
            Value::Ace => 1,
            Value::Two => 2,
            Value::Three => 3,
            Value::Four => 4,
            Value::Five => 5,
            Value::Six => 6,
            Value::Seven => 7,
            Value::Eight => 8,
            Value::Nine => 9,
            Value::Ten => 10,
            Value::Jack => 11,
            Value::Queen => 12,
            Value::King => 13,
        }
    }

    /// The value of the given rank, for ranks 1 to 13.
    pub open spec fn spec_from_rank(n: int) -> Option<Value> {
        if n == 1 {
            Some(Value::Ace)
        } else if n == 2 {
            Some(Value::Two)
        } else if n == 3 {
            Some(Value::Three)
        } else if n == 4 {
            Some(Value::Four)
        } else if n == 5 {
            Some(Value::Five)
        } else if n == 6 {
            Some(Value::Six)
        } else if n == 7 {
            Some(Value::Seven)
        } else if n == 8 {
            Some(Value::Eight)
        } else if n == 9 {
            Some(Value::Nine)
        } else if n == 10 {
            Some(Value::Ten)
        } else if n == 11 {
            Some(Value::Jack)
        } else if n == 12 {
            Some(Value::Queen)
        } else if n == 13 {
            Some(Value::King)
        } else {
            None
        }
    }

    /// The rank of the value: 1 for an ace up to 13 for a king.
    pub fn rank(self) -> (r: u8)
        ensures
            r == self.spec_rank(),
            1 <= r <= 13,
    {
        match self {
            Value::Ace => 1,
            Value::Two => 2,
            Value::Three => 3,
            Value::Four => 4,
            Value::Five => 5,
            Value::Six => 6,
            Value::Seven => 7,
            Value::Eight => 8,
            Value::Nine => 9,
            Value::Ten => 10,
            Value::Jack => 11,
            Value::Queen => 12,
            Value::King => 13,
        }
    }

    /// The value of the given rank; `None` outside 1 to 13.
    pub fn from_rank(n: u8) -> (r: Option<Value>)
        ensures
            r == Value::spec_from_rank(n as int),
            r matches Some(v) ==> v.spec_rank() == n,
    {
        if n == 1 {
            Some(Value::Ace)
        } else if n == 2 {
            Some(Value::Two)
        } else if n == 3 {
            Some(Value::Three)
        } else if n == 4 {
            Some(Value::Four)
        } else if n == 5 {
            Some(Value::Five)
        } else if n == 6 {
            Some(Value::Six)
        } else if n == 7 {
            Some(Value::Seven)
        } else if n == 8 {
            Some(Value::Eight)
        } else if n == 9 {
            Some(Value::Nine)
        } else if n == 10 {
            Some(Value::Ten)
        } else if n == 11 {
            Some(Value::Jack)
        } else if n == 12 {
            Some(Value::Queen)
        } else if n == 13 {
            Some(Value::King)
        } else {
            None
        }
    }
}

/// A playing card.
#[derive(Debug, Clone, Copy, PartialEq, Eq, Structural)]
pub struct Card {
    pub suit: Suit,
    pub value: Value,
}

impl Card {
    pub fn new(suit: Suit, value: Value) -> (r: Self)
        ensures
            r.suit == suit,
            r.value == value,
    {
        Card { suit, value }
    }

    pub open spec fn is_red(self) -> bool {
        self.suit.is_red()
    }

    pub open spec fn rank(self) -> int {
        self.value.spec_rank() as int
    }

    /// Whether both cards are red or both are black.
    pub fn has_same_colour(&self, other: &Card) -> (r: bool)
        ensures
            r == (self.is_red() == other.is_red()),
    {
        ((self.suit == Suit::Hearts || self.suit == Suit::Diamonds) && (other.suit == Suit::Hearts
            || other.suit == Suit::Diamonds)) || ((self.suit == Suit::Clubs || self.suit
            == Suit::Spades) && (other.suit == Suit::Clubs || other.suit == Suit::Spades))
    }
}

/// The 52 cards in the order of a fresh deck: hearts, diamonds, spades, clubs,
/// each from ace to king.
pub open spec fn standard_deck() -> Seq<Card> {
    Seq::new(
        52,
        |i: int| Card { suit: Suit::spec_nth(i / 13), value: Value::spec_from_rank(i % 13 + 1)->0 },
    )
}

/// Whether a sequence holds each of the 52 cards exactly once.
pub open spec fn is_full_deck(cards: Seq<Card>) -> bool {
    cards.to_multiset() == standard_deck().to_multiset()
}

/// The position of a card in the standard deck.
pub open spec fn standard_index(c: Card) -> int {
    13 * c.suit.spec_order() + c.rank() - 1
}

/// Each card sits at its own position in the standard deck, and there only.
proof fn lemma_standard_index(c: Card)
    ensures
        0 <= standard_index(c) < 52,
        standard_deck()[standard_index(c)] == c,
        standard_deck().to_multiset().count(c) == 1,
{
    let d = standard_deck();
    let k = standard_index(c);
    let o = c.suit.spec_order();
    let r = c.rank();
    assert(0 <= o < 4 && 1 <= r <= 13);
    assert(k / 13 == o && k % 13 + 1 == r) by (nonlinear_arith)
        requires
            k == 13 * o + r - 1,
            0 <= o < 4,
            1 <= r <= 13,
    ;
    assert(d[k] == c);
    assert forall|i: int, j: int| 0 <= i < d.len() && 0 <= j < d.len() && i != j implies d[i]
        != d[j] by {
        assert(i == 13 * (i / 13) + i % 13 && j == 13 * (j / 13) + j % 13) by (nonlinear_arith);
        assert(0 <= i % 13 < 13 && 0 <= j % 13 < 13) by (nonlinear_arith);
    }
    d.lemma_multiset_has_no_duplicates();
    d.to_multiset_ensures();
    assert(d.contains(c));
}

/// How many times `c` occurs in `cards`.
fn count_of(cards: &Vec<Card>, c: Card) -> (r: usize)
    ensures
        r == cards@.to_multiset().count(c),
{
    let mut n: usize = 0;
    let mut i: usize = 0;
    proof {
        vstd::seq_lib::to_multiset_len(cards@.take(0));
        vstd::multiset::lemma_multiset_empty_len(cards@.take(0).to_multiset());
    }
    while i < cards.len()
        invariant
            i <= cards@.len(),
            n == cards@.take(i as int).to_multiset().count(c),
            n <= i,
        decreases cards@.len() - i,
    {
        proof {
            assert(cards@.take(i + 1) =~= cards@.take(i as int).push(cards@[i as int]));
            vstd::seq_lib::to_multiset_build(cards@.take(i as int), cards@[i as int]);
        }
        if cards[i] == c {
            n = n + 1;
        }
        i = i + 1;
    }
    assert(cards@.take(cards@.len() as int) =~= cards@);
    n
}

/// The reason a list of cards is not a deck.
#[derive(Debug, Clone, Copy, PartialEq, Eq, Structural)]
pub struct MalformedDeck;

/// A full deck: each of the 52 cards exactly once, in some order.
pub struct Deck {
    cards: Vec<Card>,
}

impl View for Deck {
    type V = Seq<Card>;

    closed spec fn view(&self) -> Seq<Card> {
        self.cards@
    }
}

impl Deck {
    #[verifier::type_invariant]
    closed spec fn is_full(&self) -> bool {
        self.cards@.to_multiset() == standard_deck().to_multiset()
    }

    /// The cards from top to bottom.
    pub fn cards(&self) -> (r: &[Card])
        ensures
            r@ == self@,
            r@.len() == 52,
            is_full_deck(r@),
    {
        proof {
            use_type_invariant(self);
            self.cards@.to_multiset_ensures();
            standard_deck().to_multiset_ensures();
        }
        self.cards.as_slice()
    }

    /// A deck in the standard order.
    pub fn new_ordered() -> (r: Self)
        ensures
            r@ == standard_deck(),
    {
        let mut cards: Vec<Card> = Vec::new();
        let mut s: u8 = 0;
        while s < 4
            invariant
                0 <= s <= 4,
                cards@ == standard_deck().take(13 * s as int),
            decreases 4 - s,
        {
            let suit = Suit::nth(s);
            let mut n: u8 = 1;
            while n <= 13
                invariant
                    0 <= s < 4,
                    1 <= n <= 14,
                    suit == Suit::spec_nth(s as int),
                    cards@ == standard_deck().take(13 * s as int + n - 1),
                decreases 14 - n,
            {
                let value = Value::from_rank(n).unwrap();
                cards.push(Card::new(suit, value));
                proof {
                    let k = 13 * s as int + n - 1;
                    assert(k / 13 == s as int && k % 13 + 1 == n as int) by (nonlinear_arith)
                        requires
                            k == 13 * s as int + n - 1,
                            1 <= n <= 13,
                    ;
                    assert(cards@ =~= standard_deck().take(k + 1));
                }
                n = n + 1;
            }
            s = s + 1;
        }
        assert(cards@ =~= standard_deck());
        Deck { cards }
    }

    /// The deck holding `cards` in the given order, if they are each of the
    /// 52 cards exactly once.
    pub fn from_cards(cards: Vec<Card>) -> (r: Result<Self, MalformedDeck>)
        ensures
            r is Ok <==> is_full_deck(cards@),
            r matches Ok(d) ==> d@ == cards@,
    {
        proof {
            cards@.to_multiset_ensures();
            standard_deck().to_multiset_ensures();
        }
        if cards.len() != 52 {
            return Err(MalformedDeck);
        }
        let mut s: u8 = 0;
        while s < 4
            invariant
                0 <= s <= 4,
                cards@.len() == 52,
                forall|k: int| 0 <= k < 13 * s ==> cards@.to_multiset().count(#[trigger] standard_deck()[k]) == 1,
            decreases 4 - s,
        {
            let suit = Suit::nth(s);
            let mut n: u8 = 1;
            while n <= 13
                invariant
                    0 <= s < 4,
                    1 <= n <= 14,
                    cards@.len() == 52,
                    suit == Suit::spec_nth(s as int),
                    forall|k: int| 0 <= k < 13 * s + n - 1 ==> cards@.to_multiset().count(#[trigger] standard_deck()[k]) == 1,
                decreases 14 - n,
            {
                let c = Card::new(suit, Value::from_rank(n).unwrap());
                let ghost k = 13 * s as int + n - 1;
                assert(k / 13 == s as int && k % 13 + 1 == n as int) by (nonlinear_arith)
                    requires
                        k == 13 * s as int + n - 1,
                        1 <= n <= 13,
                ;
                assert(standard_deck()[k] == c);
                if count_of(&cards, c) != 1 {
                    proof {
                        lemma_standard_index(c);
                    }
                    return Err(MalformedDeck);
                }
                n = n + 1;
            }
            s = s + 1;
        }
        proof {
            assert forall|c: Card| cards@.to_multiset().count(c) == standard_deck().to_multiset().count(c) by {
                lemma_standard_index(c);
                assert(cards@.to_multiset().count(standard_deck()[standard_index(c)]) == 1);
            }
            assert(cards@.to_multiset() =~= standard_deck().to_multiset());
        }
        Ok(Deck { cards })
    }

    /// A deck in random order.
    pub fn new_shuffled() -> (r: Self)
        ensures
            is_full_deck(r@),
    {
        let d = Deck::new_ordered();
        let mut cards = d.cards;
        shuffle_cards(&mut cards);
        Deck { cards }
    }
}

impl Default for Card {
    /// The ace of hearts.
    fn default() -> (r: Self)
        ensures
            r == (Card { suit: Suit::Hearts, value: Value::Ace }),
    {
        Card { suit: Suit::Hearts, value: Value::Ace }
    }
}

impl Default for Deck {
    /// A deck in random order.
    fn default() -> (r: Self)
        ensures
            is_full_deck(r@),
    {
        Deck::new_shuffled()
    }
}

/// Relies on rand's `SliceRandom::shuffle`, which reorders the slice in place
/// by swapping its elements, so the same cards come back in some order.
#[verifier::external_body]
fn shuffle_cards(cards: &mut Vec<Card>)
    ensures
        final(cards)@.to_multiset() == old(cards)@.to_multiset(),
{
    cards.shuffle(&mut rand::thread_rng());
}

} // verus!
