//! The play classifier: given an unordered collection of cards, decide which
//! structural class it forms (single, pair, triple, quad, or a straight run
//! of 1-, 2- or 3-card groups) and its comparison rank, and decide whether a
//! play may legally follow the round's leading play.
use vstd::prelude::*;
use vstd::multiset::Multiset;
use vstd::seq_lib::{group_to_multiset_ensures, lemma_multiset_commutative, lemma_sorted_unique};
use vstd::relations::{sorted_by, total_ordering};
use vstd::arithmetic::div_mod::{
    lemma_div_is_ordered, lemma_fundamental_div_mod, lemma_fundamental_div_mod_converse,
};
use crate::card::{Card, Rank, rank_value, rank_code};
use crate::sorting::{ranks_of, sorted_by_rank, sort_cards};
use crate::player::Player;

verus! {

/// The structural category of a play.
#[derive(Clone, Copy, Debug, PartialEq, Eq, Structural)]
pub enum Class {
    Invalid,
    Single,
    Double,
    Triple,
    Quad,
    SingleStraight,
    DoubleStraight,
    TripleStraight,
}

/// All cards share one rank.
pub open spec fn is_homog(s: Seq<Card>) -> bool {
    forall|i: int| 0 <= i < s.len() ==> #[trigger] s[i].rank == s[0].rank
}

/// The multiset `ms` holds exactly the rank values `lo, lo+1, ..,
/// lo+groups-1`, each with multiplicity `m`: a straight of `groups`
/// consecutive groups of `m` equal-ranked cards.
pub open spec fn is_run(ms: Multiset<int>, lo: int, groups: int, m: int) -> bool {
    forall|v: int| #[trigger] ms.count(v) == (if lo <= v < lo + groups { m } else { 0 })
}

/// The cards form a straight whose groups have size `m` (1 for a plain
/// straight, 2 for a pair straight, 3 for a triple straight). Straights need
/// at least 5 cards and a length divisible by the group size.
pub open spec fn straight_shape(s: Seq<Card>, m: int) -> bool {
    &&& s.len() >= 5
    &&& s.len() as int % m == 0
    &&& exists|lo: int| #[trigger] is_run(ranks_of(s).to_multiset(), lo, s.len() as int / m, m)
}

/// The class of a card collection, decided by its size first: one card is
/// always a single; 2, 3 and 4 cards must be rank-homogeneous; 5 or more
/// cards must form a straight, tried as triple, then double, then single
/// groups (the three shapes are mutually exclusive, so the order never hides
/// a match).
pub open spec fn classify(s: Seq<Card>) -> Class {
    if s.len() == 1 {
        Class::Single
    } else if s.len() == 2 {
        if is_homog(s) { Class::Double } else { Class::Invalid }
    } else if s.len() == 3 {
        if is_homog(s) { Class::Triple } else { Class::Invalid }
    } else if s.len() == 4 {
        if is_homog(s) { Class::Quad } else { Class::Invalid }
    } else if straight_shape(s, 3) {
        Class::TripleStraight
    } else if straight_shape(s, 2) {
        Class::DoubleStraight
    } else if straight_shape(s, 1) {
        Class::SingleStraight
    } else {
        Class::Invalid
    }
}

/// `r` is the rank of the highest card of `s` (by the game's rank order).
pub open spec fn is_max_rank(r: Rank, s: Seq<Card>) -> bool {
    &&& exists|i: int| 0 <= i < s.len() && s[i].rank == r
    &&& forall|i: int| 0 <= i < s.len() ==> rank_value(s[i].rank) <= rank_value(r)
}

/// Positional form of the straight check on a rank-sorted sequence: the
/// `i`-th card's rank value is the first card's plus `i/m`.
pub open spec fn positional_run(s: Seq<Card>, m: int) -> bool {
    forall|i: int|
        0 <= i < s.len()
            ==> #[trigger] rank_value(s[i].rank) == rank_value(s[0].rank) + i / m
}

/// The canonical sorted rank sequence of a straight: `groups * m` values,
/// the `i`-th being `lo + i/m`.
pub open spec fn run_seq(lo: int, groups: int, m: int) -> Seq<int> {
    Seq::new((groups * m) as nat, |i: int| lo + i / m)
}

/// A constant sequence's multiset counts its one value `m` times.
proof fn lemma_const_seq_multiset(x: int, m: int)
    requires
        0 <= m,
    ensures
        is_run(Seq::new(m as nat, |i: int| x).to_multiset(), x, 1, m),
    decreases m,
{
    broadcast use group_to_multiset_ensures;
    broadcast use vstd::multiset::group_multiset_axioms;

    let s = Seq::new(m as nat, |i: int| x);
    if m == 0 {
        assert forall|v: int| #[trigger] s.to_multiset().count(v) == (if v == x { m } else { 0 })
        by {
            assert(!s.contains(v));
        }
    } else {
        lemma_const_seq_multiset(x, m - 1);
        let prev = Seq::new((m - 1) as nat, |i: int| x);
        assert(s =~= prev.push(x));
        assert(s.to_multiset() =~= prev.to_multiset().insert(x));
    }
}

/// The multiset of the canonical straight sequence holds each value in
/// `[lo, lo+groups)` exactly `m` times.
proof fn lemma_run_seq_multiset(lo: int, groups: int, m: int)
    requires
        0 <= groups,
        1 <= m,
    ensures
        is_run(run_seq(lo, groups, m).to_multiset(), lo, groups, m),
    decreases groups,
{
    broadcast use group_to_multiset_ensures;
    broadcast use vstd::multiset::group_multiset_axioms;

    let s = run_seq(lo, groups, m);
    if groups == 0 {
        assert(s.len() == 0);
        assert forall|v: int| #[trigger] s.to_multiset().count(v)
            == (if lo <= v < lo + groups { m } else { 0 })
        by {
            assert(!s.contains(v));
        }
    } else {
        lemma_run_seq_multiset(lo, groups - 1, m);
        let prev = run_seq(lo, groups - 1, m);
        let tail = Seq::new(m as nat, |i: int| lo + groups - 1);
        assert(s =~= prev + tail) by {
            assert(s.len() == groups * m);
            assert((groups - 1) * m + m == groups * m) by (nonlinear_arith);
            assert forall|i: int| 0 <= i < s.len() implies s[i] == (prev + tail)[i] by {
                if i < (groups - 1) * m {
                } else {
                    lemma_fundamental_div_mod_converse(i, m, groups - 1, i - (groups - 1) * m);
                    assert(i / m == groups - 1);
                }
            }
        }
        lemma_multiset_commutative(prev, tail);
        lemma_const_seq_multiset(lo + groups - 1, m);
        assert forall|v: int| #[trigger] s.to_multiset().count(v)
            == (if lo <= v < lo + groups { m } else { 0 })
        by {
            assert(s.to_multiset().count(v)
                == prev.to_multiset().count(v) + tail.to_multiset().count(v));
        }
    }
}

/// On a rank-sorted card sequence whose length is a multiple of `m`, the
/// positional group check (`i`-th rank is the lowest rank plus `i/m`) holds
/// exactly when the rank multiset is a straight of `m`-sized groups.
pub proof fn lemma_run_characterization(s: Seq<Card>, m: int)
    requires
        1 <= m,
        s.len() >= 1,
        sorted_by_rank(s),
        s.len() as int % m == 0,
    ensures
        positional_run(s, m)
            <==> (exists|lo: int| #[trigger] is_run(ranks_of(s).to_multiset(), lo, s.len() as int / m, m)),
{
    broadcast use group_to_multiset_ensures;
    broadcast use vstd::multiset::group_multiset_axioms;

    let n = s.len() as int;
    let g = n / m;
    lemma_fundamental_div_mod(n, m);
    assert(n == g * m);
    assert(g >= 1) by {
        if g <= 0 {
            assert(g * m <= 0) by (nonlinear_arith)
                requires g <= 0 && m >= 1;
        }
    }
    let leq = |x: int, y: int| x <= y;
    assert(total_ordering(leq));

    if positional_run(s, m) {
        let lo = rank_value(s[0].rank);
        assert(ranks_of(s) =~= run_seq(lo, g, m)) by {
            assert forall|i: int| 0 <= i < n implies ranks_of(s)[i] == run_seq(lo, g, m)[i] by {
                assert(rank_value(s[i].rank) == lo + i / m);
            }
        }
        lemma_run_seq_multiset(lo, g, m);
        assert(is_run(ranks_of(s).to_multiset(), lo, g, m));
    }

    if exists|lo: int| #[trigger] is_run(ranks_of(s).to_multiset(), lo, g, m) {
        let lo = choose|lo: int| is_run(ranks_of(s).to_multiset(), lo, g, m);
        lemma_run_seq_multiset(lo, g, m);
        let rs = run_seq(lo, g, m);
        assert(ranks_of(s).to_multiset() =~= rs.to_multiset()) by {
            assert forall|v: int| #[trigger] ranks_of(s).to_multiset().count(v)
                == rs.to_multiset().count(v)
            by {
                assert(ranks_of(s).to_multiset().count(v)
                    == (if lo <= v < lo + g { m } else { 0 }));
                assert(rs.to_multiset().count(v)
                    == (if lo <= v < lo + g { m } else { 0 }));
            }
        }
        assert(sorted_by(ranks_of(s), leq));
        assert(sorted_by(rs, leq)) by {
            assert forall|i: int, j: int| 0 <= i < j < rs.len() implies leq(rs[i], rs[j]) by {
                lemma_div_is_ordered(i, j, m);
            }
        }
        lemma_sorted_unique(ranks_of(s), rs, leq);
        assert forall|i: int| 0 <= i < s.len()
            implies #[trigger] rank_value(s[i].rank) == rank_value(s[0].rank) + i / m
        by {
            assert(ranks_of(s)[i] == rs[i]);
            assert(ranks_of(s)[0] == rs[0]);
            assert(0int / m == 0);
            assert(rank_value(s[0].rank) == lo);
        }
    }
}

/// The three straight shapes are mutually exclusive: a collection matches at
/// most one group size, so classification by trying triple, then double,
/// then single groups never hides a match behind an earlier branch.
pub proof fn lemma_straight_shapes_exclusive(s: Seq<Card>, m1: int, m2: int)
    requires
        1 <= m1 < m2 <= 3,
        straight_shape(s, m1),
    ensures
        !straight_shape(s, m2),
{
    if straight_shape(s, m2) {
        let lo1 = choose|lo: int| #[trigger] is_run(ranks_of(s).to_multiset(), lo, s.len() as int / m1, m1);
        let lo2 = choose|lo: int| #[trigger] is_run(ranks_of(s).to_multiset(), lo, s.len() as int / m2, m2);
        let ms = ranks_of(s).to_multiset();
        assert(s.len() as int / m1 >= 1) by {
            lemma_fundamental_div_mod(s.len() as int, m1);
            if s.len() as int / m1 <= 0 {
                assert((s.len() as int / m1) * m1 <= 0) by (nonlinear_arith)
                    requires s.len() as int / m1 <= 0 && m1 >= 1;
            }
        }
        assert(ms.count(lo1) == m1);
        assert(s.len() as int / m2 >= 1) by {
            lemma_fundamental_div_mod(s.len() as int, m2);
            if s.len() as int / m2 <= 0 {
                assert((s.len() as int / m2) * m2 <= 0) by (nonlinear_arith)
                    requires s.len() as int / m2 <= 0 && m2 >= 1;
            }
        }
        assert(ms.count(lo1) == (if lo2 <= lo1 < lo2 + s.len() as int / m2 { m2 } else { 0 }));
        assert(false);
    }
}

/// Two card collections with the same card multiset (hence the same rank
/// multiset) classify identically: the class of a play does not depend on
/// the order the cards were picked in.
pub proof fn lemma_classify_multiset(s1: Seq<Card>, s2: Seq<Card>)
    requires
        s1.to_multiset() == s2.to_multiset(),
        ranks_of(s1).to_multiset() == ranks_of(s2).to_multiset(),
    ensures
        classify(s1) == classify(s2),
{
    broadcast use group_to_multiset_ensures;
    broadcast use vstd::multiset::group_multiset_axioms;

    assert(s1.to_multiset().len() == s1.len());
    assert(s2.to_multiset().len() == s2.len());
    if s1.len() > 0 {
        if is_homog(s1) {
            lemma_homog_multiset(s1, s2);
        }
        if is_homog(s2) {
            lemma_homog_multiset(s2, s1);
        }
    }
}

/// Homogeneity transfers across equal card multisets.
proof fn lemma_homog_multiset(s1: Seq<Card>, s2: Seq<Card>)
    requires
        s1.to_multiset() == s2.to_multiset(),
        s1.len() > 0,
        is_homog(s1),
    ensures
        is_homog(s2),
{
    broadcast use group_to_multiset_ensures;
    broadcast use vstd::multiset::group_multiset_axioms;

    assert(s1.to_multiset().len() == s1.len());
    assert(s2.to_multiset().len() == s2.len());
    assert forall|i: int| 0 <= i < s2.len() implies #[trigger] s2[i].rank == s2[0].rank by {
        assert(s2.contains(s2[i]));
        assert(s1.to_multiset().count(s2[i]) > 0);
        assert(s1.contains(s2[i]));
        let j = choose|j: int| 0 <= j < s1.len() && s1[j] == s2[i];
        assert(s2.contains(s2[0]));
        assert(s1.to_multiset().count(s2[0]) > 0);
        assert(s1.contains(s2[0]));
        let k = choose|k: int| 0 <= k < s1.len() && s1[k] == s2[0];
        assert(s1[j].rank == s1[0].rank);
        assert(s1[k].rank == s1[0].rank);
        assert(s2[i].rank == s1[0].rank);
        assert(s2[0].rank == s1[0].rank);
    }
}

/// A non-empty collection in which every card has the same rank.
pub fn homogenous(cards: &Vec<Card>) -> (r: bool)
    ensures
        r == (cards@.len() > 0 && is_homog(cards@)),
{
    if cards.len() == 0 {
        return false;
    }
    let first = cards[0].rank;
    let mut i: usize = 1;
    while i < cards.len()
        invariant
            1 <= i <= cards@.len(),
            first == cards@[0].rank,
            forall|j: int| 0 <= j < i ==> #[trigger] cards@[j].rank == cards@[0].rank,
        decreases cards.len() - i,
    {
        if rank_code(cards[i].rank) != rank_code(first) {
            proof {
                assert(rank_value(cards@[i as int].rank) != rank_value(cards@[0].rank));
                assert(cards@[i as int].rank != cards@[0].rank);
            }
            return false;
        }
        proof {
            assert(rank_value(cards@[i as int].rank) == rank_value(first));
            lemma_rank_value_injective(cards@[i as int].rank, first);
        }
        i = i + 1;
    }
    true
}

/// Distinct ranks have distinct values: `rank_value` is injective.
pub proof fn lemma_rank_value_injective(a: Rank, b: Rank)
    requires
        rank_value(a) == rank_value(b),
    ensures
        a == b,
{
}

/// On a rank-sorted, non-empty collection whose length is a multiple of `m`,
/// check the positional straight property: group `i` is homogeneous and one
/// rank above group `i-1`, expressed as "card `i` has the lowest rank plus
/// `i/m`".
fn check_run(cards: &Vec<Card>, m: usize) -> (ok: bool)
    requires
        1 <= m,
        cards.len() >= 1,
        sorted_by_rank(cards@),
    ensures
        ok == positional_run(cards@, m as int),
{
    let base = rank_code(cards[0].rank);
    let mut i: usize = 0;
    while i < cards.len()
        invariant
            1 <= m,
            i <= cards@.len(),
            cards@.len() >= 1,
            base == rank_value(cards@[0].rank),
            forall|j: int|
                0 <= j < i
                    ==> #[trigger] rank_value(cards@[j].rank)
                        == rank_value(cards@[0].rank) + j / (m as int),
        decreases cards.len() - i,
    {
        let q = i / m;
        proof {
            assert(q == i as int / m as int);
            assert(3 <= base <= 16);
            assert(rank_value(cards@[i as int].rank) <= 16);
        }
        if q > 13 {
            // Rank values span 3..16, so card i can never sit 14 or more
            // groups above the lowest card: the run property fails at i.
            proof {
                assert(rank_value(cards@[i as int].rank)
                    != rank_value(cards@[0].rank) + i as int / (m as int));
            }
            return false;
        }
        if (rank_code(cards[i].rank) as usize) != (base as usize) + q {
            proof {
                assert(rank_value(cards@[i as int].rank)
                    != rank_value(cards@[0].rank) + i as int / (m as int));
            }
            return false;
        }
        i = i + 1;
    }
    true
}

/// Classify five or more cards as one of the three straight shapes, or
/// `Invalid`. Sorts the cards by rank; the card multiset is unchanged.
pub fn straight(cards: &mut Vec<Card>) -> (c: Class)
    ensures
        final(cards)@.len() == old(cards)@.len(),
        final(cards)@.to_multiset() == old(cards)@.to_multiset(),
        ranks_of(final(cards)@).to_multiset() == ranks_of(old(cards)@).to_multiset(),
        c == spec_straight(old(cards)@),
{
    if cards.len() < 5 {
        return Class::Invalid;
    }
    sort_cards(cards);
    let ghost orig = old(cards)@;
    let n = cards.len();
    if n % 3 == 0 && check_run(cards, 3) {
        proof {
            lemma_run_characterization(cards@, 3);
            assert(straight_shape(cards@, 3));
            assert(straight_shape(orig, 3));
        }
        return Class::TripleStraight;
    }
    proof {
        if straight_shape(orig, 3) {
            assert(straight_shape(cards@, 3));
            lemma_run_characterization(cards@, 3);
            assert(false);
        }
    }
    if n % 2 == 0 && check_run(cards, 2) {
        proof {
            lemma_run_characterization(cards@, 2);
            assert(straight_shape(cards@, 2));
            assert(straight_shape(orig, 2));
        }
        return Class::DoubleStraight;
    }
    proof {
        if straight_shape(orig, 2) {
            assert(straight_shape(cards@, 2));
            lemma_run_characterization(cards@, 2);
            assert(false);
        }
    }
    if check_run(cards, 1) {
        proof {
            assert(cards@.len() as int % 1int == 0);
            lemma_run_characterization(cards@, 1);
            assert(straight_shape(cards@, 1));
            assert(straight_shape(orig, 1));
        }
        return Class::SingleStraight;
    }
    proof {
        if straight_shape(orig, 1) {
            assert(straight_shape(cards@, 1));
            lemma_run_characterization(cards@, 1);
            assert(false);
        }
    }
    Class::Invalid
}

/// What `straight` returns: the straight shapes tried in order, on fewer
/// than five cards `Invalid`.
pub open spec fn spec_straight(s: Seq<Card>) -> Class {
    if s.len() < 5 {
        Class::Invalid
    } else if straight_shape(s, 3) {
        Class::TripleStraight
    } else if straight_shape(s, 2) {
        Class::DoubleStraight
    } else if straight_shape(s, 1) {
        Class::SingleStraight
    } else {
        Class::Invalid
    }
}

/// Determine the class of an arbitrary card collection. Total: every
/// collection, the empty one included, gets exactly one class. May sort the
/// cards; their multiset is unchanged.
pub fn identify_class(cards: &mut Vec<Card>) -> (c: Class)
    ensures
        final(cards)@.len() == old(cards)@.len(),
        final(cards)@.to_multiset() == old(cards)@.to_multiset(),
        ranks_of(final(cards)@).to_multiset() == ranks_of(old(cards)@).to_multiset(),
        c == classify(old(cards)@),
{
    match cards.len() {
        1 => Class::Single,
        2 => {
            if homogenous(cards) {
                Class::Double
            } else {
                Class::Invalid
            }
        },
        3 => {
            if homogenous(cards) {
                Class::Triple
            } else {
                Class::Invalid
            }
        },
        4 => {
            if homogenous(cards) {
                Class::Quad
            } else {
                Class::Invalid
            }
        },
        _ => straight(cards),
    }
}

/// The comparison rank of a non-empty play: the rank of its highest card.
/// Sorts the cards ascending by rank; their multiset is unchanged.
pub fn identify_rank(cards: &mut Vec<Card>) -> (r: Rank)
    requires
        old(cards)@.len() > 0,
    ensures
        final(cards)@.len() == old(cards)@.len(),
        final(cards)@.to_multiset() == old(cards)@.to_multiset(),
        ranks_of(final(cards)@).to_multiset() == ranks_of(old(cards)@).to_multiset(),
        sorted_by_rank(final(cards)@),
        is_max_rank(r, old(cards)@),
{
    broadcast use group_to_multiset_ensures;
    broadcast use vstd::multiset::group_multiset_axioms;

    let ghost orig = old(cards)@;
    sort_cards(cards);
    let r = cards[cards.len() - 1].rank;
    proof {
        let last = cards@.len() - 1;
        assert(cards@.contains(cards@[last]));
        assert(orig.to_multiset().count(cards@[last]) > 0);
        assert(orig.contains(cards@[last]));
        let w = choose|w: int| 0 <= w < orig.len() && orig[w] == cards@[last];
        assert(orig[w].rank == r);
        assert forall|i: int| 0 <= i < orig.len()
            implies rank_value(orig[i].rank) <= rank_value(r)
        by {
            assert(orig.contains(orig[i]));
            assert(cards@.to_multiset().count(orig[i]) > 0);
            assert(cards@.contains(orig[i]));
            let j = choose|j: int| 0 <= j < cards@.len() && cards@[j] == orig[i];
            assert(rank_value(cards@[j].rank) <= rank_value(cards@[last].rank));
        }
    }
    r
}

/// A collection has at most one highest rank: any two ranks that are both
/// maximal are the same rank.
pub proof fn lemma_max_rank_unique(r1: Rank, r2: Rank, s: Seq<Card>)
    requires
        is_max_rank(r1, s),
        is_max_rank(r2, s),
    ensures
        r1 == r2,
{
    let i = choose|i: int| 0 <= i < s.len() && s[i].rank == r1;
    let j = choose|j: int| 0 <= j < s.len() && s[j].rank == r2;
    assert(rank_value(s[i].rank) <= rank_value(r2));
    assert(rank_value(s[j].rank) <= rank_value(r1));
    lemma_rank_value_injective(r1, r2);
}

/// A highest rank transfers across equal card multisets.
pub proof fn lemma_max_rank_multiset(r: Rank, s1: Seq<Card>, s2: Seq<Card>)
    requires
        s1.to_multiset() == s2.to_multiset(),
        is_max_rank(r, s1),
    ensures
        is_max_rank(r, s2),
{
    broadcast use group_to_multiset_ensures;
    broadcast use vstd::multiset::group_multiset_axioms;

    let w = choose|w: int| 0 <= w < s1.len() && s1[w].rank == r;
    assert(s1.contains(s1[w]));
    assert(s2.to_multiset().count(s1[w]) > 0);
    assert(s2.contains(s1[w]));
    let w2 = choose|w2: int| 0 <= w2 < s2.len() && s2[w2] == s1[w];
    assert(s2[w2].rank == r);
    assert forall|i: int| 0 <= i < s2.len() implies rank_value(s2[i].rank) <= rank_value(r) by {
        assert(s2.contains(s2[i]));
        assert(s1.to_multiset().count(s2[i]) > 0);
        assert(s1.contains(s2[i]));
        let j = choose|j: int| 0 <= j < s1.len() && s1[j] == s2[i];
        assert(rank_value(s1[j].rank) <= rank_value(r));
    }
}

/// A finalized record of one player's submission: the cards, the class and
/// rank the classifier derived for them, and the submitting player. The
/// derived fields always agree with the cards.
pub struct Play {
    pub class: Class,
    pub rank: Rank,
    pub cards: Vec<Card>,
    pub player: Player,
}

/// Well-formedness of a play: `class` is the classification of its cards and
/// `rank` is the rank of its highest card. An empty play is the `Invalid`
/// placeholder a play starts as, with the lowest rank.
pub open spec fn play_wf(p: Play) -> bool {
    &&& p.class == classify(p.cards@)
    &&& p.cards@.len() > 0 ==> is_max_rank(p.rank, p.cards@)
    &&& p.cards@.len() == 0 ==> p.rank == Rank::Three && p.class == Class::Invalid
}

impl Play {
    /// A fresh, empty play for the given player: `Invalid` until cards are
    /// added, with the lowest possible rank.
    pub fn new(player: Player) -> (p: Play)
        ensures
            play_wf(p),
            p.cards@.len() == 0,
            p.class == Class::Invalid,
            p.rank == Rank::Three,
            p.player == player,
    {
        let cards: Vec<Card> = Vec::new();
        Play { class: Class::Invalid, rank: Rank::Three, cards, player }
    }

    /// Replace the cards of the play; class and rank are re-derived and the
    /// stored cards end up sorted ascending by rank.
    pub fn set_cards(&mut self, cards: Vec<Card>)
        requires
            cards@.len() > 0,
        ensures
            play_wf(*final(self)),
            sorted_by_rank(final(self).cards@),
            final(self).cards@.len() == cards@.len(),
            final(self).cards@.to_multiset() == cards@.to_multiset(),
            final(self).class == classify(cards@),
            is_max_rank(final(self).rank, cards@),
            final(self).player == old(self).player,
    {
        self.cards = cards;
        self.identify_play();
    }

    /// Add one card to the play; class and rank are re-derived and the
    /// stored cards end up sorted ascending by rank.
    pub fn add_card(&mut self, c: Card)
        ensures
            play_wf(*final(self)),
            sorted_by_rank(final(self).cards@),
            final(self).cards@.len() == old(self).cards@.len() + 1,
            final(self).cards@.to_multiset() == old(self).cards@.to_multiset().insert(c),
            final(self).class == classify(old(self).cards@.push(c)),
            is_max_rank(final(self).rank, old(self).cards@.push(c)),
            final(self).player == old(self).player,
    {
        proof {
            broadcast use group_to_multiset_ensures;
        }
        self.cards.push(c);
        self.identify_play();
    }

    /// Re-derive class and rank from the cards, which end up sorted
    /// ascending by rank.
    fn identify_play(&mut self)
        requires
            old(self).cards@.len() > 0,
        ensures
            play_wf(*final(self)),
            sorted_by_rank(final(self).cards@),
            final(self).cards@.len() == old(self).cards@.len(),
            final(self).cards@.to_multiset() == old(self).cards@.to_multiset(),
            final(self).class == classify(old(self).cards@),
            is_max_rank(final(self).rank, old(self).cards@),
            final(self).player == old(self).player,
    {
        let ghost orig = old(self).cards@;
        self.class = identify_class(&mut self.cards);
        let ghost mid = self.cards@;
        self.rank = identify_rank(&mut self.cards);
        proof {
            lemma_classify_multiset(orig, self.cards@);
            lemma_max_rank_multiset(self.rank, mid, orig);
            lemma_max_rank_multiset(self.rank, orig, self.cards@);
        }
    }
}

impl Clone for Play {
    fn clone(&self) -> (r: Play)
        ensures
            r.class == self.class,
            r.rank == self.rank,
            r.cards@ == self.cards@,
            r.player.name@ == self.player.name@,
            r.player.hand.cards@ == self.player.hand.cards@,
            r.player.score == self.player.score,
    {
        let mut cards: Vec<Card> = Vec::new();
        let mut i: usize = 0;
        while i < self.cards.len()
            invariant
                i <= self.cards@.len(),
                cards@ =~= self.cards@.subrange(0, i as int),
            decreases self.cards.len() - i,
        {
            cards.push(self.cards[i]);
            proof {
                assert(cards@ =~= self.cards@.subrange(0, i + 1));
            }
            i = i + 1;
        }
        proof {
            assert(cards@ =~= self.cards@);
        }
        Play { class: self.class, rank: self.rank, cards, player: self.player.clone() }
    }
}

/// Whether a play may follow the round's current leading play (`None` when
/// the round is empty, so that any valid play may lead): the play must not
/// be `Invalid`, and against a leading play it must match its class and card
/// count and strictly exceed its rank.
pub open spec fn play_allowed(p: Play, leading: Option<Play>) -> bool {
    &&& p.class != Class::Invalid
    &&& match leading {
        Option::None => true,
        Option::Some(l) => {
            &&& p.class == l.class
            &&& rank_value(p.rank) > rank_value(l.rank)
            &&& p.cards@.len() == l.cards@.len()
        },
    }
}

/// The leading play, copied out of the borrow.
pub open spec fn opt_play(leading: Option<&Play>) -> Option<Play> {
    match leading {
        Option::None => Option::None,
        Option::Some(l) => Option::Some(*l),
    }
}

/// Decide legality of a play against the current leading play.
pub fn legal_play(p: &Play, leading: Option<&Play>) -> (r: bool)
    ensures
        r == play_allowed(*p, opt_play(leading)),
{
    if p.class == Class::Invalid {
        return false;
    }
    match leading {
        Option::None => true,
        Option::Some(l) => {
            p.class == l.class && rank_code(p.rank) > rank_code(l.rank)
                && p.cards.len() == l.cards.len()
        },
    }
}

} // verus!
