//! Card identity: suits (including the two Joker pseudo-suits), the game's
//! fixed rank order, and equality by rank alone.
use vstd::prelude::*;

verus! {

/// Spades, Diamonds, Clubs and Hearts are the four playing suits; Red and
/// Black are pseudo-suits carried only by the two Joker colors.
#[derive(Clone, Copy, Debug, PartialEq, Eq, Structural)]
pub enum Suit {
    Spades,
    Diamonds,
    Clubs,
    Hearts,
    Red,
    Black,
}

/// Ranks in the game's fixed total order, lowest first: 3..10, J, Q, K, A,
/// then 2, then Joker. Note that 2 outranks Ace and Joker outranks all.
#[derive(Clone, Copy, Debug, PartialEq, Eq, Structural)]
pub enum Rank {
    Three,
    Four,
    Five,
    Six,
    Seven,
    Eight,
    Nine,
    Ten,
    Jack,
    Queen,
    King,
    Ace,
    Two,
    Joker,
}

/// The numeric position of a rank in the fixed order; consecutive ranks have
/// consecutive values, which is what "consecutive" means for straights.
pub open spec fn rank_value(r: Rank) -> int {
    match r {
        Rank::Three => 3,
        Rank::Four => 4,
        Rank::Five => 5,
        Rank::Six => 6,
        Rank::Seven => 7,
        Rank::Eight => 8,
        Rank::Nine => 9,
        Rank::Ten => 10,
        Rank::Jack => 11,
        Rank::Queen => 12,
        Rank::King => 13,
        Rank::Ace => 14,
        Rank::Two => 15,
        Rank::Joker => 16,
    }
}

/// Executable counterpart of `rank_value`.
pub fn rank_code(r: Rank) -> (v: u8)
    ensures
        v as int == rank_value(r),
{
    match r {
        Rank::Three => 3,
        Rank::Four => 4,
        Rank::Five => 5,
        Rank::Six => 6,
        Rank::Seven => 7,
        Rank::Eight => 8,
        Rank::Nine => 9,
        Rank::Ten => 10,
        Rank::Jack => 11,
        Rank::Queen => 12,
        Rank::King => 13,
        Rank::Ace => 14,
        Rank::Two => 15,
        Rank::Joker => 16,
    }
}

#[derive(Clone, Copy, Debug)]
pub struct Card {
    pub suit: Suit,
    pub rank: Rank,
}

/// A card is well formed when it carries a Joker pseudo-suit exactly if its
/// rank is Joker. Decks only ever contain well-formed cards.
pub open spec fn card_well_formed(c: Card) -> bool {
    (c.rank == Rank::Joker) <==> (c.suit == Suit::Red || c.suit == Suit::Black)
}

impl Card {
    pub fn new(suit: Suit, rank: Rank) -> (c: Card)
        ensures
            c.suit == suit,
            c.rank == rank,
    {
        Card { suit, rank }
    }
}

impl PartialEq for Card {
    /// Cards compare equal by rank alone; suit is cosmetic.
    fn eq(&self, other: &Card) -> (r: bool) {
        self.rank == other.rank
    }
}

impl vstd::std_specs::cmp::PartialEqSpecImpl for Card {
    open spec fn obeys_eq_spec() -> bool {
        true
    }

    open spec fn eq_spec(&self, other: &Card) -> bool {
        self.rank == other.rank
    }
}

/// Two cards are `==` exactly when their ranks agree, whatever their suits.
pub proof fn lemma_card_eq_by_rank(a: Card, b: Card)
    ensures
        vstd::std_specs::cmp::PartialEqSpec::eq_spec(&a, &b) <==> a.rank == b.rank,
{
}

} // verus!
