//! Sorting cards by rank, and the facts about rank sequences and their
//! multisets that the classifier builds on.
use vstd::prelude::*;
use vstd::seq_lib::group_to_multiset_ensures;
use vstd::multiset::Multiset;
use crate::card::{Card, rank_value, rank_code};

verus! {

/// The numeric rank values of a card sequence, in the same order.
pub open spec fn ranks_of(s: Seq<Card>) -> Seq<int> {
    s.map_values(|c: Card| rank_value(c.rank))
}

/// Non-decreasing by rank.
pub open spec fn sorted_by_rank(s: Seq<Card>) -> bool {
    forall|i: int, j: int|
        0 <= i < j < s.len() ==> rank_value(s[i].rank) <= rank_value(s[j].rank)
}

/// Removing a card removes its rank: `ranks_of` commutes with `remove`.
pub proof fn lemma_ranks_of_remove(s: Seq<Card>, k: int)
    requires
        0 <= k < s.len(),
    ensures
        ranks_of(s.remove(k)) =~= ranks_of(s).remove(k),
{
}

/// Pushing a card pushes its rank: `ranks_of` commutes with `push`.
pub proof fn lemma_ranks_of_push(s: Seq<Card>, c: Card)
    ensures
        ranks_of(s.push(c)) =~= ranks_of(s).push(rank_value(c.rank)),
{
}

fn index_of_min(cards: &Vec<Card>) -> (k: usize)
    requires
        cards.len() > 0,
    ensures
        k < cards.len(),
        forall|i: int|
            0 <= i < cards@.len()
                ==> rank_value(cards@[k as int].rank) <= rank_value(cards@[i].rank),
{
    let mut k: usize = 0;
    let mut i: usize = 1;
    while i < cards.len()
        invariant
            k < i,
            i <= cards.len(),
            forall|j: int|
                0 <= j < i ==> rank_value(cards@[k as int].rank) <= rank_value(cards@[j].rank),
        decreases cards.len() - i,
    {
        if rank_code(cards[i].rank) < rank_code(cards[k].rank) {
            k = i;
        }
        i = i + 1;
    }
    k
}

/// Sort ascending by rank. The multiset of cards, and hence of rank values,
/// is unchanged: sorting only permutes.
pub fn sort_cards(cards: &mut Vec<Card>)
    ensures
        sorted_by_rank(final(cards)@),
        final(cards)@.len() == old(cards)@.len(),
        final(cards)@.to_multiset() == old(cards)@.to_multiset(),
        ranks_of(final(cards)@).to_multiset() == ranks_of(old(cards)@).to_multiset(),
{
    broadcast use group_to_multiset_ensures;

    let ghost orig = cards@;
    let mut out: Vec<Card> = Vec::new();
    while cards.len() > 0
        invariant
            sorted_by_rank(out@),
            out@.len() + cards@.len() == orig.len(),
            out@.to_multiset().add(cards@.to_multiset()) =~= orig.to_multiset(),
            ranks_of(out@).to_multiset().add(ranks_of(cards@).to_multiset())
                =~= ranks_of(orig).to_multiset(),
            forall|i: int, j: int|
                0 <= i < out@.len() && 0 <= j < cards@.len()
                    ==> rank_value(out@[i].rank) <= rank_value(cards@[j].rank),
        decreases cards.len(),
    {
        broadcast use group_to_multiset_ensures;

        let ghost pre = cards@;
        let ghost pre_out = out@;
        let k = index_of_min(cards);
        let c = cards.remove(k);
        out.push(c);
        proof {
            lemma_ranks_of_remove(pre, k as int);
            lemma_ranks_of_push(pre_out, c);
            assert(ranks_of(cards@).to_multiset()
                =~= ranks_of(pre).to_multiset().remove(rank_value(c.rank))) by {
                assert(ranks_of(pre)[k as int] == rank_value(c.rank));
                assert(ranks_of(cards@) == ranks_of(pre).remove(k as int));
            }
            assert(ranks_of(pre).to_multiset().count(rank_value(c.rank)) > 0) by {
                assert(ranks_of(pre)[k as int] == rank_value(c.rank));
                assert(ranks_of(pre).contains(rank_value(c.rank)));
            }
            assert(pre.to_multiset().count(c) > 0) by {
                assert(pre[k as int] == c);
                assert(pre.contains(c));
            }
        }
    }
    proof {
        assert(forall|v: Card| !cards@.contains(v));
        assert(cards@.to_multiset() =~= Multiset::<Card>::empty());
        assert(forall|v: int| !ranks_of(cards@).contains(v));
        assert(ranks_of(cards@).to_multiset() =~= Multiset::<int>::empty());
    }
    *cards = out;
}

} // verus!
