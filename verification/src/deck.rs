//! The deck: for `n` decks, `n` copies of every suit/rank combination plus
//! `n` Red and `n` Black Jokers — 54 cards per deck. Cards leave the deck one
//! at a time, drawn at random or removed by position, and never return.
use vstd::prelude::*;
use vstd::seq_lib::{group_to_multiset_ensures, lemma_multiset_commutative};
use vstd::arithmetic::div_mod::{lemma_fundamental_div_mod, lemma_fundamental_div_mod_converse};
use rand::Rng;
use crate::card::{Card, Suit, Rank, card_well_formed};
use crate::sorting::{sort_cards, sorted_by_rank, ranks_of};

verus! {

/// The four playing suits, in deck construction order.
pub open spec fn suit_of_index(i: int) -> Suit {
    if i == 0 {
        Suit::Spades
    } else if i == 1 {
        Suit::Diamonds
    } else if i == 2 {
        Suit::Clubs
    } else {
        Suit::Hearts
    }
}

/// The thirteen non-Joker ranks, in ascending order.
pub open spec fn rank_of_index(i: int) -> Rank {
    if i == 0 {
        Rank::Three
    } else if i == 1 {
        Rank::Four
    } else if i == 2 {
        Rank::Five
    } else if i == 3 {
        Rank::Six
    } else if i == 4 {
        Rank::Seven
    } else if i == 5 {
        Rank::Eight
    } else if i == 6 {
        Rank::Nine
    } else if i == 7 {
        Rank::Ten
    } else if i == 8 {
        Rank::Jack
    } else if i == 9 {
        Rank::Queen
    } else if i == 10 {
        Rank::King
    } else if i == 11 {
        Rank::Ace
    } else {
        Rank::Two
    }
}

/// Card `i` of a fresh 54-card deck: 13 ranks for each of the 4 suits, then
/// the Red and the Black Joker.
pub open spec fn deck_card_at(i: int) -> Card {
    if i < 52 {
        Card { suit: suit_of_index(i / 13), rank: rank_of_index(i % 13) }
    } else if i == 52 {
        Card { suit: Suit::Red, rank: Rank::Joker }
    } else {
        Card { suit: Suit::Black, rank: Rank::Joker }
    }
}

/// One full 54-card deck in construction order.
pub open spec fn single_deck() -> Seq<Card> {
    Seq::new(54, |i: int| deck_card_at(i))
}

fn suit_from_index(i: usize) -> (s: Suit)
    requires
        i < 4,
    ensures
        s == suit_of_index(i as int),
{
    if i == 0 {
        Suit::Spades
    } else if i == 1 {
        Suit::Diamonds
    } else if i == 2 {
        Suit::Clubs
    } else {
        Suit::Hearts
    }
}

fn rank_from_index(i: usize) -> (r: Rank)
    requires
        i < 13,
    ensures
        r == rank_of_index(i as int),
{
    if i == 0 {
        Rank::Three
    } else if i == 1 {
        Rank::Four
    } else if i == 2 {
        Rank::Five
    } else if i == 3 {
        Rank::Six
    } else if i == 4 {
        Rank::Seven
    } else if i == 5 {
        Rank::Eight
    } else if i == 6 {
        Rank::Nine
    } else if i == 7 {
        Rank::Ten
    } else if i == 8 {
        Rank::Jack
    } else if i == 9 {
        Rank::Queen
    } else if i == 10 {
        Rank::King
    } else if i == 11 {
        Rank::Ace
    } else {
        Rank::Two
    }
}

/// Every card of a fresh deck is well formed.
proof fn lemma_deck_cards_well_formed()
    ensures
        forall|i: int| 0 <= i < 54 ==> card_well_formed(#[trigger] deck_card_at(i)),
{
    assert forall|i: int| 0 <= i < 54 implies card_well_formed(#[trigger] deck_card_at(i)) by {
        if i < 52 {
            assert(0 <= i % 13 < 13);
            assert(rank_of_index(i % 13) != Rank::Joker);
            assert(0 <= i / 13 < 4) by {
                lemma_fundamental_div_mod(i, 13);
            }
            assert(suit_of_index(i / 13) != Suit::Red && suit_of_index(i / 13) != Suit::Black);
        }
    }
}

/// A fresh deck holds every well-formed card exactly once, and nothing else.
proof fn lemma_single_deck_count()
    ensures
        forall|c: Card|
            #[trigger] single_deck().to_multiset().count(c)
                == (if card_well_formed(c) { 1int } else { 0 }),
{
    broadcast use group_to_multiset_ensures;
    broadcast use vstd::multiset::group_multiset_axioms;

    let s = single_deck();
    assert(s.no_duplicates()) by {
        assert forall|i: int, j: int| 0 <= i < j < 54 implies s[i] != s[j] by {
            lemma_fundamental_div_mod(i, 13);
            lemma_fundamental_div_mod(j, 13);
            if i < 52 && j < 52 {
                if i / 13 == j / 13 && i % 13 == j % 13 {
                    assert(i == j);
                }
            }
        }
    }
    s.lemma_multiset_has_no_duplicates();
    lemma_deck_cards_well_formed();
    assert forall|c: Card|
        #[trigger] s.to_multiset().count(c) == (if card_well_formed(c) { 1int } else { 0 })
    by {
        if card_well_formed(c) {
            if c.rank == Rank::Joker {
                if c.suit == Suit::Red {
                    assert(s[52] == c);
                } else {
                    assert(s[53] == c);
                }
                assert(s.contains(c));
            } else {
                let si: int = if c.suit == Suit::Spades {
                    0
                } else if c.suit == Suit::Diamonds {
                    1
                } else if c.suit == Suit::Clubs {
                    2
                } else {
                    3
                };
                let ri: int = if c.rank == Rank::Three {
                    0
                } else if c.rank == Rank::Four {
                    1
                } else if c.rank == Rank::Five {
                    2
                } else if c.rank == Rank::Six {
                    3
                } else if c.rank == Rank::Seven {
                    4
                } else if c.rank == Rank::Eight {
                    5
                } else if c.rank == Rank::Nine {
                    6
                } else if c.rank == Rank::Ten {
                    7
                } else if c.rank == Rank::Jack {
                    8
                } else if c.rank == Rank::Queen {
                    9
                } else if c.rank == Rank::King {
                    10
                } else if c.rank == Rank::Ace {
                    11
                } else {
                    12
                };
                let idx = si * 13 + ri;
                lemma_fundamental_div_mod_converse(idx, 13, si, ri);
                assert(s[idx] == c);
                assert(s.contains(c));
            }
            assert(s.to_multiset().count(c) > 0);
            assert(s.to_multiset().count(c) == 1);
        } else {
            if s.contains(c) {
                let i = choose|i: int| 0 <= i < s.len() && s[i] == c;
                assert(card_well_formed(deck_card_at(i)));
                assert(false);
            }
            assert(s.to_multiset().count(c) == 0);
        }
    }
}

fn build_single_deck() -> (v: Vec<Card>)
    ensures
        v@ == single_deck(),
{
    let mut v: Vec<Card> = Vec::new();
    let mut i: usize = 0;
    while i < 52
        invariant
            i <= 52,
            v@.len() == i,
            forall|j: int| 0 <= j < i ==> #[trigger] v@[j] == deck_card_at(j),
        decreases 52 - i,
    {
        proof {
            assert(i as int / 13 == i / 13);
            assert(i as int % 13 == i % 13);
        }
        let c = Card::new(suit_from_index(i / 13), rank_from_index(i % 13));
        v.push(c);
        i = i + 1;
    }
    v.push(Card::new(Suit::Red, Rank::Joker));
    v.push(Card::new(Suit::Black, Rank::Joker));
    proof {
        assert(v@ =~= single_deck());
    }
    v
}

pub struct Deck {
    pub cards: Vec<Card>,
}

impl Deck {
    /// Build `n` full decks: each well-formed card — 13 ranks for each of
    /// the 4 playing suits, plus the Red and the Black Joker — appears
    /// exactly `n` times, 54·n cards in all, and no other card appears.
    pub fn new(n: u32) -> (d: Deck)
        ensures
            d.cards@.len() == 54 * n,
            forall|c: Card|
                #[trigger] d.cards@.to_multiset().count(c)
                    == (if card_well_formed(c) { n as int } else { 0 }),
    {
        proof {
            lemma_single_deck_count();
        }
        let mut cards: Vec<Card> = Vec::new();
        proof {
            broadcast use group_to_multiset_ensures;
            broadcast use vstd::multiset::group_multiset_axioms;

            assert forall|c: Card| #[trigger] cards@.to_multiset().count(c) == 0 by {
                assert(!cards@.contains(c));
            }
        }
        let mut k: u32 = 0;
        while k < n
            invariant
                k <= n,
                cards@.len() == 54 * k,
                forall|c: Card|
                    #[trigger] cards@.to_multiset().count(c)
                        == (if card_well_formed(c) { k as int } else { 0 }),
            decreases n - k,
        {
            broadcast use group_to_multiset_ensures;
            broadcast use vstd::multiset::group_multiset_axioms;

            let ghost pre = cards@;
            let mut one = build_single_deck();
            cards.append(&mut one);
            proof {
                lemma_multiset_commutative(pre, single_deck());
                lemma_single_deck_count();
            }
            k = k + 1;
        }
        proof {
            broadcast use group_to_multiset_ensures;
        }
        Deck { cards }
    }

    pub fn add_card(&mut self, c: Card)
        ensures
            final(self).cards@ == old(self).cards@.push(c),
    {
        self.cards.push(c);
    }

    /// Remove and return one card, at a uniformly random position. The deck
    /// must not be empty; callers check `is_empty` first.
    pub fn draw_card(&mut self) -> (c: Card)
        requires
            old(self).cards@.len() > 0,
        ensures
            exists|i: int|
                0 <= i < old(self).cards@.len() && c == old(self).cards@[i]
                    && final(self).cards@ == old(self).cards@.remove(i),
            final(self).cards@.len() == old(self).cards@.len() - 1,
            final(self).cards@.to_multiset() == old(self).cards@.to_multiset().remove(c),
    {
        proof {
            broadcast use group_to_multiset_ensures;
        }
        let i = random_below(self.cards.len());
        let c = self.cards.remove(i);
        c
    }

    pub fn is_empty(&mut self) -> (r: bool)
        ensures
            *final(self) == *old(self),
            r == (old(self).cards@.len() == 0),
    {
        self.cards.is_empty()
    }

    /// Sort the deck ascending by rank; the cards are only permuted.
    pub fn sort(&mut self)
        ensures
            sorted_by_rank(final(self).cards@),
            final(self).cards@.len() == old(self).cards@.len(),
            final(self).cards@.to_multiset() == old(self).cards@.to_multiset(),
            ranks_of(final(self).cards@).to_multiset()
                == ranks_of(old(self).cards@).to_multiset(),
    {
        sort_cards(&mut self.cards);
    }
}

/// Relies on rand::Rng::gen_range over `0..n`: the sampled value lies in
/// that non-empty range. Which value comes back is left entirely open.
#[verifier::external_body]
pub(crate) fn random_below(n: usize) -> (r: usize)
    requires
        n > 0,
    ensures
        r < n,
{
    rand::thread_rng().gen_range(0..n)
}

} // verus!
