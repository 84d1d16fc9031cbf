//! Where the picture of each card is found.
use vstd::prelude::*;
use crate::deck::{Card, Suit, Value};

verus! {

/// The suit's part of an image file name.
pub open spec fn suit_image_name(s: Suit) -> Seq<char> {
    match s {
        Suit::Clubs => "clubs"@,
        Suit::Spades => "spades"@,
        Suit::Diamonds => "diamonds"@,
        Suit::Hearts => "hearts"@,
    }
}

/// The value's part of an image file name.
pub open spec fn value_image_name(v: Value) -> Seq<char> {
    match v {
        Value::Ace => "ace"@,
        Value::Two => "2"@,
        Value::Three => "3"@,
        Value::Four => "4"@,
        Value::Five => "5"@,
        Value::Six => "6"@,
        Value::Seven => "7"@,
        Value::Eight => "8"@,
        Value::Nine => "9"@,
        Value::Ten => "10"@,
        Value::Jack => "jack"@,
        Value::Queen => "queen"@,
        Value::King => "king"@,
    }
}

/// The path of a card's image: `file://images/deck/<value>_of_<suit>.png`.
pub open spec fn image_path(c: Card) -> Seq<char> {
    "file://images/deck/"@ + value_image_name(c.value) + "_of_"@ + suit_image_name(c.suit)
        + ".png"@
}

/// The path of the image that shows `card`.
pub fn card_to_image(card: Card) -> (r: String)
    ensures
        r@ == image_path(card),
{
    let suit = match card.suit {
        Suit::Clubs => "clubs",
        Suit::Spades => "spades",
        Suit::Diamonds => "diamonds",
        Suit::Hearts => "hearts",
    };
    let val = match card.value {
        Value::Ace => "ace",
        Value::Two => "2",
        Value::Three => "3",
        Value::Four => "4",
        Value::Five => "5",
        Value::Six => "6",
        Value::Seven => "7",
        Value::Eight => "8",
        Value::Nine => "9",
        Value::Ten => "10",
        Value::Jack => "jack",
        Value::Queen => "queen",
        Value::King => "king",
    };
    let mut r = "file://images/deck/".to_owned();
    r.append(val);
    r.append("_of_");
    r.append(suit);
    r.append(".png");
    r
}

} // verus!
