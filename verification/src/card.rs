//! Suits, ranks and cards, and the order of cards within a suit.

use std::cmp::Ordering;
use vstd::prelude::*;
use vstd::string::StringExecFns;
use vstd::std_specs::cmp::PartialOrdSpec;

verus! {

/// One of the four suits. Suits are only ever compared for equality.
#[derive(Eq, PartialEq, Copy, Clone, Debug, Structural)]
pub enum Suit {
    Clubs,
    Hearts,
    Diamonds,
    Spades,
}

/// One of the thirteen ranks, from `Two` (lowest) up to `Ace` (highest).
#[derive(Ord, Eq, PartialEq, Copy, Clone, Debug, Structural)]
pub enum Value {
    Two,
    Three,
    Four,
    Five,
    Six,
    Seven,
    Eight,
    Nine,
    Ten,
    Jack,
    Queen,
    King,
    Ace,
}

/// Every rank, lowest first.
pub const VALUES: [Value; 13] = [
    Value::Two,
    Value::Three,
    Value::Four,
    Value::Five,
    Value::Six,
    Value::Seven,
    Value::Eight,
    Value::Nine,
    Value::Ten,
    Value::Jack,
    Value::Queen,
    Value::King,
    Value::Ace,
];

/// Every suit, in the order in which a fresh deck holds them.
pub const SUITS: [Suit; 4] = [Suit::Clubs, Suit::Hearts, Suit::Diamonds, Suit::Spades];

/// How two positions on a line compare.
pub open spec fn order_of(a: int, b: int) -> Ordering {
    if a < b {
        Ordering::Less
    } else if a == b {
        Ordering::Equal
    } else {
        Ordering::Greater
    }
}

impl Value {
    /// The position of a rank on the line `Two < Three < ... < King < Ace`,
    /// counted from 0.
    pub open spec fn rank(self) -> int {
        match self {
            Value::Two => 0,
            Value::Three => 1,
            Value::Four => 2,
            Value::Five => 3,
            Value::Six => 4,
            Value::Seven => 5,
            Value::Eight => 6,
            Value::Nine => 7,
            Value::Ten => 8,
            Value::Jack => 9,
            Value::Queen => 10,
            Value::King => 11,
            Value::Ace => 12,
        }
    }

    /// The position of this rank, as a machine integer.
    pub fn ordinal(&self) -> (r: u8)
        ensures
            r == self.rank(),
    {
        match self {
            Value::Two => 0,
            Value::Three => 1,
            Value::Four => 2,
            Value::Five => 3,
            Value::Six => 4,
            Value::Seven => 5,
            Value::Eight => 6,
            Value::Nine => 7,
            Value::Ten => 8,
            Value::Jack => 9,
            Value::Queen => 10,
            Value::King => 11,
            Value::Ace => 12,
        }
    }
}

impl PartialOrd for Value {
    /// Ranks compare as their positions do.
    fn partial_cmp(&self, other: &Self) -> (r: Option<Ordering>) {
        let a: u8 = self.ordinal();
        let b: u8 = other.ordinal();
        if a < b {
            Some(Ordering::Less)
        } else if a == b {
            Some(Ordering::Equal)
        } else {
            Some(Ordering::Greater)
        }
    }
}

impl vstd::std_specs::cmp::PartialOrdSpecImpl for Value {
    open spec fn obeys_partial_cmp_spec() -> bool {
        true
    }

    open spec fn partial_cmp_spec(&self, other: &Self) -> Option<Ordering> {
        Some(order_of(self.rank(), other.rank()))
    }
}

/// A playing card: a suit and a rank.
#[derive(PartialEq, Eq, Debug, Copy, Clone, Structural)]
pub struct Card {
    pub suit: Suit,
    pub value: Value,
}

impl PartialOrd for Card {
    /// Cards of one suit compare as their ranks do; cards of different suits
    /// do not compare.
    fn partial_cmp(&self, other: &Self) -> (r: Option<Ordering>) {
        if other.suit != self.suit {
            None
        } else {
            self.value.partial_cmp(&other.value)
        }
    }
}

impl vstd::std_specs::cmp::PartialOrdSpecImpl for Card {
    open spec fn obeys_partial_cmp_spec() -> bool {
        true
    }

    open spec fn partial_cmp_spec(&self, other: &Self) -> Option<Ordering> {
        if self.suit != other.suit {
            None
        } else {
            Some(order_of(self.value.rank(), other.value.rank()))
        }
    }
}

impl Suit {
    /// The character that stands for this suit.
    pub open spec fn symbol(self) -> char {
        match self {
            Suit::Spades => '\u{2660}',
            Suit::Hearts => '\u{2665}',
            Suit::Diamonds => '\u{2666}',
            Suit::Clubs => '\u{2663}',
        }
    }

    /// This suit as text: its symbol.
    pub fn to_string(&self) -> (text: String)
        ensures
            text@ == seq![self.symbol()],
    {
        proof {
            reveal_strlit("\u{2660}");
            reveal_strlit("\u{2665}");
            reveal_strlit("\u{2666}");
            reveal_strlit("\u{2663}");
        }
        let text = String::from_str(
            match self {
                Suit::Spades => "\u{2660}",
                Suit::Hearts => "\u{2665}",
                Suit::Diamonds => "\u{2666}",
                Suit::Clubs => "\u{2663}",
            },
        );
        assert(text@ =~= seq![self.symbol()]);
        text
    }
}

impl Value {
    /// The character that stands for this rank.
    pub open spec fn symbol(self) -> char {
        match self {
            Value::Two => '2',
            Value::Three => '3',
            Value::Four => '4',
            Value::Five => '5',
            Value::Six => '6',
            Value::Seven => '7',
            Value::Eight => '8',
            Value::Nine => '9',
            Value::Ten => 'X',
            Value::Jack => 'J',
            Value::Queen => 'Q',
            Value::King => 'K',
            Value::Ace => 'A',
        }
    }

    /// This rank as text: its symbol.
    pub fn to_string(&self) -> (text: String)
        ensures
            text@ == seq![self.symbol()],
    {
        proof {
            reveal_strlit("2");
            reveal_strlit("3");
            reveal_strlit("4");
            reveal_strlit("5");
            reveal_strlit("6");
            reveal_strlit("7");
            reveal_strlit("8");
            reveal_strlit("9");
            reveal_strlit("X");
            reveal_strlit("J");
            reveal_strlit("Q");
            reveal_strlit("K");
            reveal_strlit("A");
        }
        let text = String::from_str(
            match self {
                Value::Two => "2",
                Value::Three => "3",
                Value::Four => "4",
                Value::Five => "5",
                Value::Six => "6",
                Value::Seven => "7",
                Value::Eight => "8",
                Value::Nine => "9",
                Value::Ten => "X",
                Value::Jack => "J",
                Value::Queen => "Q",
                Value::King => "K",
                Value::Ace => "A",
            },
        );
        assert(text@ =~= seq![self.symbol()]);
        text
    }
}

impl Card {
    /// This card as text: the symbol of its rank, then that of its suit.
    pub fn to_string(&self) -> (text: String)
        ensures
            text@ == seq![self.value.symbol(), self.suit.symbol()],
    {
        let mut text = self.value.to_string();
        let suit = self.suit.to_string();
        text.append(suit.as_str());
        assert(text@ =~= seq![self.value.symbol(), self.suit.symbol()]);
        text
    }
}

/// `VALUES` lists the ranks from the lowest to the highest: the rank at
/// position `j` is `j`, so `Two < Three < ... < King < Ace`.
pub proof fn lemma_values_rise()
    ensures
        forall|j: int| 0 <= j < 13 ==> (#[trigger] VALUES@[j]).rank() == j,
{
}

/// No two ranks share a position.
pub proof fn lemma_rank_is_one_to_one(a: Value, b: Value)
    ensures
        0 <= a.rank() < 13,
        a.rank() == b.rank() <==> a == b,
{
}

/// Two cards of one suit compare as their ranks do.
pub proof fn lemma_same_suit_compares_by_rank(a: Card, b: Card)
    requires
        a.suit == b.suit,
    ensures
        a.partial_cmp_spec(&b) == Some(order_of(a.value.rank(), b.value.rank())),
        a.partial_cmp_spec(&b) == Some(Ordering::Less) <==> a.value.rank() < b.value.rank(),
        a.partial_cmp_spec(&b) == Some(Ordering::Equal) <==> a == b,
        a.partial_cmp_spec(&b) == Some(Ordering::Greater) <==> a.value.rank() > b.value.rank(),
{
}

/// Two cards of different suits do not compare, whichever comes first.
pub proof fn lemma_other_suit_does_not_compare(a: Card, b: Card)
    requires
        a.suit != b.suit,
    ensures
        a.partial_cmp_spec(&b) is None,
        b.partial_cmp_spec(&a) is None,
{
}

/// Where a card is below a second and the second below a third, all three
/// are of one suit and the first is below the third.
pub proof fn lemma_below_is_transitive(a: Card, b: Card, c: Card)
    requires
        a.partial_cmp_spec(&b) == Some(Ordering::Less),
        b.partial_cmp_spec(&c) == Some(Ordering::Less),
    ensures
        a.partial_cmp_spec(&c) == Some(Ordering::Less),
{
}

} // verus!
