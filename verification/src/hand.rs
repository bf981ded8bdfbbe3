//! A player's hand: an owned, growable collection of cards, kept sorted by
//! rank after mutations so the highest card is always at the end.
use vstd::prelude::*;
use crate::card::Card;
use crate::sorting::{sort_cards, sorted_by_rank, ranks_of};

verus! {

pub struct Hand {
    pub cards: Vec<Card>,
}

impl Hand {
    pub fn new() -> (h: Hand)
        ensures
            h.cards@.len() == 0,
    {
        Hand { cards: Vec::new() }
    }

    pub fn add_card(&mut self, c: Card)
        ensures
            final(self).cards@ == old(self).cards@.push(c),
    {
        self.cards.push(c);
    }

    pub fn sort(&mut self)
        ensures
            sorted_by_rank(final(self).cards@),
            final(self).cards@.len() == old(self).cards@.len(),
            final(self).cards@.to_multiset() == old(self).cards@.to_multiset(),
            ranks_of(final(self).cards@).to_multiset()
                == ranks_of(old(self).cards@).to_multiset(),
    {
        sort_cards(&mut self.cards);
    }
}

impl Clone for Hand {
    fn clone(&self) -> (r: Hand)
        ensures
            r.cards@ == self.cards@,
    {
        let mut cards: Vec<Card> = Vec::new();
        let mut i: usize = 0;
        while i < self.cards.len()
            invariant
                i <= self.cards@.len(),
                cards@ =~= self.cards@.subrange(0, i as int),
            decreases self.cards.len() - i,
        {
            cards.push(self.cards[i]);
            proof {
                assert(cards@ =~= self.cards@.subrange(0, i + 1));
            }
            i = i + 1;
        }
        proof {
            assert(cards@ =~= self.cards@);
        }
        Hand { cards }
    }
}

} // verus!
