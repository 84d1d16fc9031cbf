//! The deck's text record: one card per line, written `<Suit> <Value>`, where
//! the value is a name (`Ace` to `King`) or a number (1 to 13).
use vstd::prelude::*;
use crate::deck::{Card, Deck, MalformedDeck, Suit, Value, is_full_deck};

verus! {

/// The characters of a string.
pub fn chars_of(s: &str) -> (r: Vec<char>)
    ensures
        r@ == s@,
{
    let n = s.unicode_len();
    let mut r: Vec<char> = Vec::new();
    let mut i: usize = 0;
    while i < n
        invariant
            n == s@.len(),
            i <= n,
            r@ == s@.take(i as int),
        decreases n - i,
    {
        r.push(s.get_char(i));
        assert(r@ =~= s@.take(i + 1));
        i = i + 1;
    }
    assert(r@ =~= s@);
    r
}

/// Whether `t[lo..hi]` spells `word`.
fn spells(t: &[char], lo: usize, hi: usize, word: &str) -> (r: bool)
    requires
        lo <= hi <= t@.len(),
    ensures
        r == (t@.subrange(lo as int, hi as int) == word@),
{
    let w = chars_of(word);
    if hi - lo != w.len() {
        return false;
    }
    let mut k: usize = 0;
    while k < w.len()
        invariant
            lo <= hi <= t@.len(),
            hi - lo == w@.len(),
            w@ == word@,
            k <= w@.len(),
            forall|j: int| 0 <= j < k ==> t@[lo + j] == w@[j],
        decreases w@.len() - k,
    {
        if t[lo + k] != w[k] {
            assert(t@.subrange(lo as int, hi as int)[k as int] != word@[k as int]);
            return false;
        }
        k = k + 1;
    }
    assert(t@.subrange(lo as int, hi as int) =~= word@);
    true
}

impl Suit {
    /// The suit's name in the text record.
    pub open spec fn spec_name(self) -> Seq<char> {
        match self {
            Suit::Hearts => "Hearts"@,
            Suit::Spades => "Spades"@,
            Suit::Clubs => "Clubs"@,
            Suit::Diamonds => "Diamonds"@,
        }
    }

    /// The suit that a word names, if any.
    pub open spec fn spec_from_name(w: Seq<char>) -> Option<Suit> {
        if w == "Hearts"@ {
            Some(Suit::Hearts)
        } else if w == "Spades"@ {
            Some(Suit::Spades)
        } else if w == "Clubs"@ {
            Some(Suit::Clubs)
        } else if w == "Diamonds"@ {
            Some(Suit::Diamonds)
        } else {
            None
        }
    }

    pub fn name(self) -> (r: &'static str)
        ensures
            r@ == self.spec_name(),
    {
        match self {
            Suit::Hearts => "Hearts",
            Suit::Spades => "Spades",
            Suit::Clubs => "Clubs",
            Suit::Diamonds => "Diamonds",
        }
    }

    pub fn to_string(&self) -> (r: String)
        ensures
            r@ == self.spec_name(),
    {
        self.name().to_owned()
    }

    /// The suit named by `t[lo..hi]`.
    pub fn from_name(t: &[char], lo: usize, hi: usize) -> (r: Option<Suit>)
        requires
            lo <= hi <= t@.len(),
        ensures
            r == Suit::spec_from_name(t@.subrange(lo as int, hi as int)),
    {
        if spells(t, lo, hi, "Hearts") {
            Some(Suit::Hearts)
        } else if spells(t, lo, hi, "Spades") {
            Some(Suit::Spades)
        } else if spells(t, lo, hi, "Clubs") {
            Some(Suit::Clubs)
        } else if spells(t, lo, hi, "Diamonds") {
            Some(Suit::Diamonds)
        } else {
            None
        }
    }
}

impl Value {
    /// The value's name in the text record.
    pub open spec fn spec_name(self) -> Seq<char> {
        match self {
            Value::Ace => "Ace"@,
            Value::Two => "Two"@,
            Value::Three => "Three"@,
            Value::Four => "Four"@,
            Value::Five => "Five"@,
            Value::Six => "Six"@,
            Value::Seven => "Seven"@,
            Value::Eight => "Eight"@,
            Value::Nine => "Nine"@,
            Value::Ten => "Ten"@,
            Value::Jack => "Jack"@,
            Value::Queen => "Queen"@,
            Value::King => "King"@,
        }
    }

    /// The value's rank written in decimal.
    pub open spec fn spec_number(self) -> Seq<char> {
        match self {
            Value::Ace => "1"@,
            Value::Two => "2"@,
            Value::Three => "3"@,
            Value::Four => "4"@,
            Value::Five => "5"@,
            Value::Six => "6"@,
            Value::Seven => "7"@,
            Value::Eight => "8"@,
            Value::Nine => "9"@,
            Value::Ten => "10"@,
            Value::Jack => "11"@,
            Value::Queen => "12"@,
            Value::King => "13"@,
        }
    }

    /// The value that a word names, by name or by number, if any.
    pub open spec fn spec_from_name(w: Seq<char>) -> Option<Value> {
        if w == "Ace"@ || w == "1"@ {
            Some(Value::Ace)
        } else if w == "Two"@ || w == "2"@ {
            Some(Value::Two)
        } else if w == "Three"@ || w == "3"@ {
            Some(Value::Three)
        } else if w == "Four"@ || w == "4"@ {
            Some(Value::Four)
        } else if w == "Five"@ || w == "5"@ {
            Some(Value::Five)
        } else if w == "Six"@ || w == "6"@ {
            Some(Value::Six)
        } else if w == "Seven"@ || w == "7"@ {
            Some(Value::Seven)
        } else if w == "Eight"@ || w == "8"@ {
            Some(Value::Eight)
        } else if w == "Nine"@ || w == "9"@ {
            Some(Value::Nine)
        } else if w == "Ten"@ || w == "10"@ {
            Some(Value::Ten)
        } else if w == "Jack"@ || w == "11"@ {
            Some(Value::Jack)
        } else if w == "Queen"@ || w == "12"@ {
            Some(Value::Queen)
        } else if w == "King"@ || w == "13"@ {
            Some(Value::King)
        } else {
            None
        }
    }

    pub fn name(self) -> (r: &'static str)
        ensures
            r@ == self.spec_name(),
    {
        match self {
            Value::Ace => "Ace",
            Value::Two => "Two",
            Value::Three => "Three",
            Value::Four => "Four",
            Value::Five => "Five",
            Value::Six => "Six",
            Value::Seven => "Seven",
            Value::Eight => "Eight",
            Value::Nine => "Nine",
            Value::Ten => "Ten",
            Value::Jack => "Jack",
            Value::Queen => "Queen",
            Value::King => "King",
        }
    }

    pub fn to_string(&self) -> (r: String)
        ensures
            r@ == self.spec_name(),
    {
        self.name().to_owned()
    }

    /// The value named by `t[lo..hi]`, by name or by number.
    pub fn from_name(t: &[char], lo: usize, hi: usize) -> (r: Option<Value>)
        requires
            lo <= hi <= t@.len(),
        ensures
            r == Value::spec_from_name(t@.subrange(lo as int, hi as int)),
    {
        if spells(t, lo, hi, "Ace") || spells(t, lo, hi, "1") {
            Some(Value::Ace)
        } else if spells(t, lo, hi, "Two") || spells(t, lo, hi, "2") {
            Some(Value::Two)
        } else if spells(t, lo, hi, "Three") || spells(t, lo, hi, "3") {
            Some(Value::Three)
        } else if spells(t, lo, hi, "Four") || spells(t, lo, hi, "4") {
            Some(Value::Four)
        } else if spells(t, lo, hi, "Five") || spells(t, lo, hi, "5") {
            Some(Value::Five)
        } else if spells(t, lo, hi, "Six") || spells(t, lo, hi, "6") {
            Some(Value::Six)
        } else if spells(t, lo, hi, "Seven") || spells(t, lo, hi, "7") {
            Some(Value::Seven)
        } else if spells(t, lo, hi, "Eight") || spells(t, lo, hi, "8") {
            Some(Value::Eight)
        } else if spells(t, lo, hi, "Nine") || spells(t, lo, hi, "9") {
            Some(Value::Nine)
        } else if spells(t, lo, hi, "Ten") || spells(t, lo, hi, "10") {
            Some(Value::Ten)
        } else if spells(t, lo, hi, "Jack") || spells(t, lo, hi, "11") {
            Some(Value::Jack)
        } else if spells(t, lo, hi, "Queen") || spells(t, lo, hi, "12") {
            Some(Value::Queen)
        } else if spells(t, lo, hi, "King") || spells(t, lo, hi, "13") {
            Some(Value::King)
        } else {
            None
        }
    }
}

/// Whitespace as `char::is_whitespace` defines it (Unicode `White_Space`).
pub open spec fn is_space(c: char) -> bool {
    ('\t' <= c <= '\r') || c == ' ' || c == '\u{85}' || c == '\u{a0}' || c == '\u{1680}' || (
    '\u{2000}' <= c <= '\u{200a}') || c == '\u{2028}' || c == '\u{2029}' || c == '\u{202f}'
        || c == '\u{205f}' || c == '\u{3000}'
}

fn is_space_char(c: char) -> (r: bool)
    ensures
        r == is_space(c),
{
    ('\t' <= c && c <= '\r') || c == ' ' || c == '\u{85}' || c == '\u{a0}' || c == '\u{1680}' || (
    '\u{2000}' <= c && c <= '\u{200a}') || c == '\u{2028}' || c == '\u{2029}' || c == '\u{202f}'
        || c == '\u{205f}' || c == '\u{3000}'
}

/// The first position at or after `k` that holds no whitespace (or the end).
pub open spec fn skip_space(t: Seq<char>, k: int) -> int
    decreases t.len() - k,
{
    if 0 <= k < t.len() && is_space(t[k]) {
        skip_space(t, k + 1)
    } else {
        k
    }
}

/// The end of `t[lo..e]` once trailing whitespace is dropped.
pub open spec fn drop_space(t: Seq<char>, lo: int, e: int) -> int
    decreases e - lo,
{
    if lo < e && is_space(t[e - 1]) {
        drop_space(t, lo, e - 1)
    } else {
        e
    }
}

/// `t` without leading and trailing whitespace, as `str::trim` gives it.
pub open spec fn trim(t: Seq<char>) -> Seq<char> {
    let lo = skip_space(t, 0);
    t.subrange(lo, drop_space(t, lo, t.len() as int))
}

/// The first position at or after `k` that holds a space (or the end).
pub open spec fn space_from(t: Seq<char>, k: int) -> int
    decreases t.len() - k,
{
    if 0 <= k < t.len() && t[k] != ' ' {
        space_from(t, k + 1)
    } else {
        k
    }
}

/// The card that a trimmed record names: a suit, one space, and a value.
pub open spec fn card_from_words(w: Seq<char>) -> Option<Card> {
    let k = space_from(w, 0);
    if k < w.len() {
        match (Suit::spec_from_name(w.take(k)), Value::spec_from_name(w.subrange(k + 1, w.len() as int))) {
            (Some(suit), Some(value)) => Some(Card { suit, value }),
            _ => None,
        }
    } else {
        None
    }
}

/// The card that one line of the record names, surrounding whitespace aside.
pub open spec fn card_from_line(l: Seq<char>) -> Option<Card> {
    card_from_words(trim(l))
}

/// A card as one record: its suit's name, a space, its value's name.
pub open spec fn card_text(c: Card) -> Seq<char> {
    c.suit.spec_name() + " "@ + c.value.spec_name()
}

/// The pieces of `t` between line feeds; there is always at least one.
pub open spec fn pieces(t: Seq<char>) -> Seq<Seq<char>>
    decreases t.len(),
{
    if t.len() == 0 {
        seq![Seq::empty()]
    } else {
        let p = pieces(t.drop_last());
        if t.last() == '\n' {
            p.push(Seq::empty())
        } else {
            p.update(p.len() - 1, p.last().push(t.last()))
        }
    }
}

/// The lines of `t` as `str::lines` splits them, up to a carriage return at
/// the end of a line (which the trimming of each record removes anyway): the
/// pieces between line feeds, without an empty last piece.
pub open spec fn lines(t: Seq<char>) -> Seq<Seq<char>> {
    let p = pieces(t);
    if p.last().len() == 0 {
        p.drop_last()
    } else {
        p
    }
}

/// The cards that a text record lists, when it has exactly 52 lines and each
/// names a card.
pub open spec fn cards_from_text(t: Seq<char>) -> Option<Seq<Card>> {
    let ls = lines(t);
    if ls.len() == 52 && forall|j: int| 0 <= j < 52 ==> (#[trigger] card_from_line(ls[j])) is Some {
        Some(Seq::new(52, |j: int| card_from_line(ls[j])->0))
    } else {
        None
    }
}

/// A deck written one record per line, each line ending in a line feed.
pub open spec fn deck_text(cards: Seq<Card>) -> Seq<char>
    decreases cards.len(),
{
    if cards.len() == 0 {
        Seq::empty()
    } else {
        deck_text(cards.drop_last()) + card_text(cards.last()) + "\n"@
    }
}

impl Card {
    /// The card named by the line `t[lo..hi]`, surrounding whitespace aside.
    pub fn from_line(t: &[char], lo: usize, hi: usize) -> (r: Option<Card>)
        requires
            lo <= hi <= t@.len(),
        ensures
            r == card_from_line(t@.subrange(lo as int, hi as int)),
    {
        let ghost u = t@.subrange(lo as int, hi as int);
        let mut a = lo;
        while a < hi && is_space_char(t[a])
            invariant
                lo <= a <= hi <= t@.len(),
                u == t@.subrange(lo as int, hi as int),
                skip_space(u, 0) == skip_space(u, a - lo),
            decreases hi - a,
        {
            a = a + 1;
        }
        let mut b = hi;
        while b > a && is_space_char(t[b - 1])
            invariant
                lo <= a <= b <= hi <= t@.len(),
                u == t@.subrange(lo as int, hi as int),
                skip_space(u, 0) == a - lo,
                drop_space(u, a - lo, hi - lo) == drop_space(u, a - lo, b - lo),
            decreases b - a,
        {
            b = b - 1;
        }
        assert(trim(u) =~= t@.subrange(a as int, b as int));
        Card::from_words(t, a, b)
    }

    /// The card named by `t[lo..hi]`, written as a suit, one space and a value.
    pub fn from_words(t: &[char], lo: usize, hi: usize) -> (r: Option<Card>)
        requires
            lo <= hi <= t@.len(),
        ensures
            r == card_from_words(t@.subrange(lo as int, hi as int)),
    {
        let ghost w = t@.subrange(lo as int, hi as int);
        let mut k = lo;
        while k < hi && t[k] != ' '
            invariant
                lo <= k <= hi <= t@.len(),
                w == t@.subrange(lo as int, hi as int),
                space_from(w, 0) == space_from(w, k - lo),
            decreases hi - k,
        {
            k = k + 1;
        }
        if k == hi {
            return None;
        }
        assert(w.take(k - lo) =~= t@.subrange(lo as int, k as int));
        assert(w.subrange(k - lo + 1, w.len() as int) =~= t@.subrange(k + 1, hi as int));
        match (Suit::from_name(t, lo, k), Value::from_name(t, k + 1, hi)) {
            (Some(suit), Some(value)) => Some(Card { suit, value }),
            _ => None,
        }
    }

    /// The card as one record of the deck's text (without a line end).
    pub fn to_string(&self) -> (r: String)
        ensures
            r@ == card_text(*self),
    {
        let mut r = self.suit.to_string();
        r.append(" ");
        r.append(self.value.name());
        r
    }
}

impl Deck {
    /// The deck that a text record lists: exactly 52 lines, each naming a card
    /// as `<Suit> <Value>` between optional whitespace, each card once.
    pub fn parse(s: &str) -> (r: Result<Deck, MalformedDeck>)
        ensures
            r is Ok <==> (cards_from_text(s@) matches Some(cs) && is_full_deck(cs)),
            r matches Ok(d) ==> cards_from_text(s@) == Some(d@),
    {
        let t = chars_of(s);
        let ghost mut done: Seq<Seq<char>> = Seq::empty();
        let mut parsed: Vec<Option<Card>> = Vec::new();
        let mut start: usize = 0;
        let mut i: usize = 0;
        assert(t@.take(0) =~= Seq::<char>::empty());
        assert(done.push(t@.subrange(0, 0)) =~= seq![Seq::<char>::empty()]);
        while i < t.len()
            invariant
                t@ == s@,
                start <= i <= t@.len(),
                pieces(t@.take(i as int)) == done.push(t@.subrange(start as int, i as int)),
                parsed@.len() == done.len(),
                forall|j: int| 0 <= j < done.len() ==> parsed@[j] == card_from_line(#[trigger] done[j]),
            decreases t@.len() - i,
        {
            assert(t@.take(i + 1).drop_last() =~= t@.take(i as int));
            if t[i] == '\n' {
                let c = Card::from_line(t.as_slice(), start, i);
                parsed.push(c);
                proof {
                    done = done.push(t@.subrange(start as int, i as int));
                }
                start = i + 1;
                assert(t@.subrange(start as int, i + 1) =~= Seq::<char>::empty());
            } else {
                assert(t@.subrange(start as int, i + 1) =~= t@.subrange(start as int, i as int).push(t@[i as int]));
            }
            i = i + 1;
        }
        assert(t@.take(t@.len() as int) =~= t@);
        if start < t.len() {
            let c = Card::from_line(t.as_slice(), start, t.len());
            parsed.push(c);
            proof {
                done = done.push(t@.subrange(start as int, t@.len() as int));
            }
        }
        assert(done =~= lines(s@));
        if parsed.len() != 52 {
            return Err(MalformedDeck);
        }
        let mut cards: Vec<Card> = Vec::new();
        let mut j: usize = 0;
        while j < 52
            invariant
                j <= 52,
                parsed@.len() == 52,
                done == lines(s@),
                forall|k: int| 0 <= k < 52 ==> parsed@[k] == card_from_line(#[trigger] done[k]),
                forall|k: int| 0 <= k < j ==> (#[trigger] card_from_line(done[k])) is Some,
                cards@ == Seq::new(j as nat, |k: int| card_from_line(done[k])->0),
            decreases 52 - j,
        {
            match parsed[j] {
                Some(c) => cards.push(c),
                None => {
                    assert(card_from_line(lines(s@)[j as int]) is None);
                    return Err(MalformedDeck);
                },
            }
            assert(cards@ =~= Seq::new((j + 1) as nat, |k: int| card_from_line(done[k])->0));
            j = j + 1;
        }
        assert(cards_from_text(s@) == Some(cards@));
        Deck::from_cards(cards)
    }

    /// The deck as its text record: one line per card, top card first.
    pub fn to_string(&self) -> (r: String)
        ensures
            r@ == deck_text(self@),
    {
        let cards = self.cards();
        let mut r = String::new();
        let mut i: usize = 0;
        while i < cards.len()
            invariant
                cards@ == self@,
                i <= cards@.len(),
                r@ == deck_text(cards@.take(i as int)),
            decreases cards@.len() - i,
        {
            let line = cards[i].to_string();
            r.append(line.as_str());
            r.append("\n");
            assert(cards@.take(i + 1).drop_last() =~= cards@.take(i as int));
            i = i + 1;
        }
        assert(cards@.take(cards@.len() as int) =~= cards@);
        r
    }
}

/// A suit's name is a non-empty word without spaces, line feeds or other
/// whitespace, and it names that suit.
proof fn lemma_suit_name(s: Suit)
    ensures
        s.spec_name().len() > 0,
        forall|i: int| 0 <= i < s.spec_name().len() ==> !is_space(#[trigger] s.spec_name()[i]),
        Suit::spec_from_name(s.spec_name()) == Some(s),
{
    reveal_strlit("Hearts");
    reveal_strlit("Spades");
    reveal_strlit("Clubs");
    reveal_strlit("Diamonds");
    assert("Spades"@[0] != "Hearts"@[0]);
}

/// A value's name is a non-empty word without whitespace, and it names that
/// value.
proof fn lemma_value_name(v: Value)
    ensures
        v.spec_name().len() > 0,
        forall|i: int| 0 <= i < v.spec_name().len() ==> !is_space(#[trigger] v.spec_name()[i]),
        Value::spec_from_name(v.spec_name()) == Some(v),
{
    reveal_strlit("Ace");
    reveal_strlit("Two");
    reveal_strlit("Three");
    reveal_strlit("Four");
    reveal_strlit("Five");
    reveal_strlit("Six");
    reveal_strlit("Seven");
    reveal_strlit("Eight");
    reveal_strlit("Nine");
    reveal_strlit("Ten");
    reveal_strlit("Jack");
    reveal_strlit("Queen");
    reveal_strlit("King");
    reveal_strlit("1");
    reveal_strlit("2");
    reveal_strlit("3");
    reveal_strlit("4");
    reveal_strlit("5");
    reveal_strlit("6");
    reveal_strlit("7");
    reveal_strlit("8");
    reveal_strlit("9");
    reveal_strlit("10");
    reveal_strlit("11");
    reveal_strlit("12");
    reveal_strlit("13");
    // names start with a capital letter, numbers with a digit
    let c = v.spec_name()[0];
    assert('A' <= c <= 'Z');
    assert("1"@[0] <= '9');
    assert("2"@[0] <= '9');
    assert("3"@[0] <= '9');
    assert("4"@[0] <= '9');
    assert("5"@[0] <= '9');
    assert("6"@[0] <= '9');
    assert("7"@[0] <= '9');
    assert("8"@[0] <= '9');
    assert("9"@[0] <= '9');
    assert("10"@[0] <= '9');
    assert("11"@[0] <= '9');
    assert("12"@[0] <= '9');
    assert("13"@[0] <= '9');
    assert("Two"@[0] != "Ace"@[0]);
    assert("Five"@[1] != "Four"@[1]);
    assert("Six"@[0] != "Ace"@[0]);
    assert("Six"@[0] != "Two"@[0]);
    assert("Seven"@[0] != "Three"@[0]);
    assert("Eight"@[0] != "Three"@[0]);
    assert("Eight"@[0] != "Seven"@[0]);
    assert("Nine"@[0] != "Four"@[0]);
    assert("Nine"@[0] != "Five"@[0]);
    assert("Ten"@[0] != "Ace"@[0]);
    assert("Ten"@[1] != "Two"@[1]);
    assert("Ten"@[0] != "Six"@[0]);
    assert("Jack"@[0] != "Four"@[0]);
    assert("Jack"@[0] != "Five"@[0]);
    assert("Jack"@[0] != "Nine"@[0]);
    assert("Queen"@[0] != "Three"@[0]);
    assert("Queen"@[0] != "Seven"@[0]);
    assert("Queen"@[0] != "Eight"@[0]);
    assert("King"@[0] != "Four"@[0]);
    assert("King"@[0] != "Five"@[0]);
    assert("King"@[0] != "Nine"@[0]);
    assert("King"@[0] != "Jack"@[0]);
}

/// Scanning a stretch without spaces reaches its end.
proof fn lemma_space_from(t: Seq<char>, k: int, n: int)
    requires
        0 <= k <= n < t.len(),
        t[n] == ' ',
        forall|i: int| k <= i < n ==> t[i] != ' ',
    ensures
        space_from(t, k) == n,
    decreases n - k,
{
    if k < n {
        lemma_space_from(t, k + 1, n);
    }
}

/// A card's record reads back as that card.
pub proof fn lemma_card_text(c: Card)
    ensures
        card_from_line(card_text(c)) == Some(c),
        forall|i: int| 0 <= i < card_text(c).len() ==> #[trigger] card_text(c)[i] != '\n',
{
    let sn = c.suit.spec_name();
    let vn = c.value.spec_name();
    let t = card_text(c);
    lemma_suit_name(c.suit);
    lemma_value_name(c.value);
    reveal_strlit(" ");
    let n = sn.len() as int;
    assert(t[n] == ' ');
    assert forall|i: int| 0 <= i < t.len() implies #[trigger] t[i] != '\n' by {
        if i < n {
            assert(t[i] == sn[i]);
        } else if i > n {
            assert(t[i] == vn[i - n - 1]);
        }
    }
    assert(t[0] == sn[0]);
    assert(t[t.len() - 1] == vn[vn.len() - 1]);
    assert(skip_space(t, 0) == 0);
    assert(drop_space(t, 0, t.len() as int) == t.len());
    assert(trim(t) =~= t);
    assert forall|i: int| 0 <= i < n implies t[i] != ' ' by {
        assert(t[i] == sn[i]);
    }
    lemma_space_from(t, 0, n);
    assert(t.take(n) =~= sn);
    assert(t.subrange(n + 1, t.len() as int) =~= vn);
}

/// There is always at least one piece.
proof fn lemma_pieces_len(t: Seq<char>)
    ensures
        pieces(t).len() >= 1,
    decreases t.len(),
{
    if t.len() > 0 {
        lemma_pieces_len(t.drop_last());
    }
}

/// Text without line feeds extends the last piece.
proof fn lemma_pieces_word(t: Seq<char>, w: Seq<char>)
    requires
        forall|i: int| 0 <= i < w.len() ==> #[trigger] w[i] != '\n',
    ensures
        pieces(t + w) == pieces(t).update(pieces(t).len() - 1, pieces(t).last() + w),
    decreases w.len(),
{
    lemma_pieces_len(t);
    let p = pieces(t);
    if w.len() == 0 {
        assert(t + w =~= t);
        assert(p.last() + w =~= p.last());
        assert(p.update(p.len() - 1, p.last() + w) =~= p);
    } else {
        let u = w.drop_last();
        lemma_pieces_word(t, u);
        assert((t + w).drop_last() =~= t + u);
        assert((t + w).last() == w.last());
        assert(w[w.len() - 1] != '\n');
        let q = pieces(t + u);
        assert(q == p.update(p.len() - 1, p.last() + u));
        assert(q.len() == p.len());
        assert(q.last() == p.last() + u);
        assert(pieces(t + w) == q.update(q.len() - 1, q.last().push(w.last())));
        assert((p.last() + u).push(w.last()) =~= p.last() + w);
        assert(pieces(t + w) =~= p.update(p.len() - 1, p.last() + w));
    }
}

/// The records of a deck's text, one per card.
pub open spec fn records(cards: Seq<Card>) -> Seq<Seq<char>> {
    Seq::new(cards.len(), |i: int| card_text(cards[i]))
}

/// A deck's text splits into one line per card.
proof fn lemma_deck_text_lines(cards: Seq<Card>)
    ensures
        pieces(deck_text(cards)) == records(cards).push(Seq::empty()),
    decreases cards.len(),
{
    reveal_strlit("\n");
    if cards.len() == 0 {
        assert(pieces(deck_text(cards)) =~= records(cards).push(Seq::empty()));
    } else {
        let rest = cards.drop_last();
        let c = cards.last();
        lemma_deck_text_lines(rest);
        lemma_card_text(c);
        let t = deck_text(rest);
        lemma_pieces_word(t, card_text(c));
        let u = t + card_text(c);
        assert(deck_text(cards) == u + "\n"@);
        assert((u + "\n"@).drop_last() =~= u);
        assert((u + "\n"@).last() == '\n');
        assert(records(rest).push(Seq::empty()).update(records(rest).len() as int, Seq::<char>::empty() + card_text(c))
            =~= records(cards));
        assert(Seq::<char>::empty() + card_text(c) =~= card_text(c));
        assert(pieces(deck_text(cards)) =~= records(cards).push(Seq::empty()));
    }
}

/// Writing out 52 cards and reading the text back gives the same cards.
pub proof fn lemma_text_round_trip(cards: Seq<Card>)
    requires
        cards.len() == 52,
    ensures
        cards_from_text(deck_text(cards)) == Some(cards),
{
    lemma_deck_text_lines(cards);
    let ls = lines(deck_text(cards));
    assert(ls =~= records(cards));
    assert forall|j: int| 0 <= j < 52 implies (#[trigger] card_from_line(ls[j])) == Some(cards[j]) by {
        lemma_card_text(cards[j]);
    }
    assert(Seq::new(52, |j: int| card_from_line(ls[j])->0) =~= cards);
}

impl core::str::FromStr for Suit {
    type Err = ();

    fn from_str(s: &str) -> (r: Result<Suit, ()>)
        ensures
            r matches Ok(suit) ==> Suit::spec_from_name(s@) == Some(suit),
            r is Err ==> Suit::spec_from_name(s@) is None,
    {
        let t = chars_of(s);
        assert(t@.subrange(0, t@.len() as int) =~= s@);
        match Suit::from_name(t.as_slice(), 0, t.len()) {
            Some(suit) => Ok(suit),
            None => Err(()),
        }
    }
}

impl core::str::FromStr for Value {
    type Err = ();

    fn from_str(s: &str) -> (r: Result<Value, ()>)
        ensures
            r matches Ok(v) ==> Value::spec_from_name(s@) == Some(v),
            r is Err ==> Value::spec_from_name(s@) is None,
    {
        let t = chars_of(s);
        assert(t@.subrange(0, t@.len() as int) =~= s@);
        match Value::from_name(t.as_slice(), 0, t.len()) {
            Some(value) => Ok(value),
            None => Err(()),
        }
    }
}

impl core::str::FromStr for Card {
    type Err = ();

    fn from_str(s: &str) -> (r: Result<Card, ()>)
        ensures
            r matches Ok(c) ==> card_from_words(s@) == Some(c),
            r is Err ==> card_from_words(s@) is None,
    {
        let t = chars_of(s);
        assert(t@.subrange(0, t@.len() as int) =~= s@);
        match Card::from_words(t.as_slice(), 0, t.len()) {
            Some(card) => Ok(card),
            None => Err(()),
        }
    }
}

impl core::str::FromStr for Deck {
    type Err = MalformedDeck;

    fn from_str(s: &str) -> (r: Result<Deck, MalformedDeck>)
        ensures
            r is Ok <==> (cards_from_text(s@) matches Some(cs) && is_full_deck(cs)),
            r matches Ok(d) ==> cards_from_text(s@) == Some(d@),
    {
        Deck::parse(s)
    }
}

} // verus!
