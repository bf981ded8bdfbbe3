//! The game engine: dealing, the per-turn step of the round state machine,
//! and the round loop. A round is a sequence of turns; each turn the active
//! player passes or submits a selection of their hand. The round ends when
//! play returns to the owner of the last accepted play, who leads the next
//! round; the game ends the moment an accepted play empties a hand.
use vstd::prelude::*;
use vstd::seq_lib::{group_to_multiset_ensures, lemma_multiset_commutative};
use vstd::arithmetic::div_mod::{
    lemma_fundamental_div_mod, lemma_fundamental_div_mod_converse, lemma_mod_bound,
};
use vstd::multiset::Multiset;
use crate::card::{Card, Suit, Rank, rank_value};
use crate::deck::{Deck, random_below};
use crate::play::{
    Play, Class, play_wf, play_allowed, classify, legal_play, is_max_rank,
    lemma_max_rank_multiset, lemma_max_rank_unique,
};
use crate::player::Player;
use crate::round::{Round, round_wf, lemma_add_play_preserves_wf};
use crate::sorting::sorted_by_rank;
use crate::text::str_eq;

verus! {

/// What the active player decided this turn: pass, or submit the cards
/// selected by a mask over their (rank-sorted) hand.
pub enum TurnAction {
    Pass,
    Submit(Vec<bool>),
}

/// What one turn did to the round.
pub enum ActionResult {
    /// The submission was malformed or illegal; nothing changed and the same
    /// player stays on turn.
    Rejected,
    /// The player passed; the turn moves on.
    Passed,
    /// The play was accepted and recorded; the turn moves on.
    Played,
    /// The accepted play emptied the player's hand: the game is over.
    WonGame,
}

/// The round's current leading play: its last accepted play, if any.
pub open spec fn leading_play(r: Round) -> Option<Play> {
    if r.plays@.len() == 0 {
        Option::None
    } else {
        Option::Some(r.plays@[r.plays@.len() - 1])
    }
}

/// The cards a mask selects from a hand, in hand order.
pub open spec fn selected_cards(cards: Seq<Card>, mask: Seq<bool>) -> Seq<Card>
    decreases cards.len(),
{
    if cards.len() == 0 {
        Seq::empty()
    } else if mask.len() == 0 {
        Seq::empty()
    } else {
        let rest = selected_cards(cards.drop_first(), mask.drop_first());
        if mask[0] {
            seq![cards[0]] + rest
        } else {
            rest
        }
    }
}

/// The cards a mask leaves in a hand, in hand order.
pub open spec fn kept_cards(cards: Seq<Card>, mask: Seq<bool>) -> Seq<Card>
    decreases cards.len(),
{
    if cards.len() == 0 {
        Seq::empty()
    } else if mask.len() == 0 {
        cards
    } else {
        let rest = kept_cards(cards.drop_first(), mask.drop_first());
        if mask[0] {
            rest
        } else {
            seq![cards[0]] + rest
        }
    }
}

proof fn lemma_selected_push(cards: Seq<Card>, mask: Seq<bool>, c: Card, b: bool)
    requires
        cards.len() == mask.len(),
    ensures
        selected_cards(cards.push(c), mask.push(b)) == selected_cards(cards, mask)
            + (if b { seq![c] } else { Seq::<Card>::empty() }),
        kept_cards(cards.push(c), mask.push(b)) == kept_cards(cards, mask)
            + (if b { Seq::<Card>::empty() } else { seq![c] }),
    decreases cards.len(),
{
    if cards.len() == 0 {
        assert(cards.push(c).drop_first() =~= Seq::<Card>::empty());
        assert(mask.push(b).drop_first() =~= Seq::<bool>::empty());
        assert(selected_cards(Seq::<Card>::empty(), Seq::<bool>::empty())
            =~= Seq::<Card>::empty());
        assert(kept_cards(Seq::<Card>::empty(), Seq::<bool>::empty()) =~= Seq::<Card>::empty());
        assert(cards.push(c)[0] == c);
        assert(mask.push(b)[0] == b);
        assert(selected_cards(cards.push(c), mask.push(b))
            =~= (if b { seq![c] } else { Seq::<Card>::empty() }));
        assert(selected_cards(cards, mask) =~= Seq::<Card>::empty());
        assert(kept_cards(cards.push(c), mask.push(b))
            =~= (if b { Seq::<Card>::empty() } else { seq![c] }));
        assert(kept_cards(cards, mask) =~= Seq::<Card>::empty());
        assert(selected_cards(cards.push(c), mask.push(b)) =~= selected_cards(cards, mask)
            + (if b { seq![c] } else { Seq::<Card>::empty() }));
        assert(kept_cards(cards.push(c), mask.push(b)) =~= kept_cards(cards, mask)
            + (if b { Seq::<Card>::empty() } else { seq![c] }));
    } else {
        assert(cards.push(c).drop_first() =~= cards.drop_first().push(c));
        assert(mask.push(b).drop_first() =~= mask.drop_first().push(b));
        lemma_selected_push(cards.drop_first(), mask.drop_first(), c, b);
        assert(selected_cards(cards.push(c), mask.push(b)) =~= selected_cards(cards, mask)
            + (if b { seq![c] } else { Seq::<Card>::empty() }));
        assert(kept_cards(cards.push(c), mask.push(b)) =~= kept_cards(cards, mask)
            + (if b { Seq::<Card>::empty() } else { seq![c] }));
    }
}

/// A mask splits a hand without loss: the selected and the kept cards
/// together are exactly the original hand.
pub proof fn lemma_split_conserves(cards: Seq<Card>, mask: Seq<bool>)
    requires
        cards.len() == mask.len(),
    ensures
        selected_cards(cards, mask).to_multiset().add(kept_cards(cards, mask).to_multiset())
            == cards.to_multiset(),
        selected_cards(cards, mask).len() + kept_cards(cards, mask).len() == cards.len(),
    decreases cards.len(),
{
    broadcast use group_to_multiset_ensures;
    broadcast use vstd::multiset::group_multiset_axioms;

    if cards.len() == 0 {
        assert(selected_cards(cards, mask).to_multiset() =~= Multiset::<Card>::empty());
        assert(kept_cards(cards, mask).to_multiset() =~= Multiset::<Card>::empty());
        assert(cards.to_multiset() =~= Multiset::<Card>::empty());
        assert(selected_cards(cards, mask).to_multiset().add(
            kept_cards(cards, mask).to_multiset()) =~= cards.to_multiset());
    } else {
        lemma_split_conserves(cards.drop_first(), mask.drop_first());
        let sel = selected_cards(cards, mask);
        let kep = kept_cards(cards, mask);
        let sel0 = selected_cards(cards.drop_first(), mask.drop_first());
        let kep0 = kept_cards(cards.drop_first(), mask.drop_first());
        if mask[0] {
            lemma_multiset_commutative(seq![cards[0]], sel0);
            assert(seq![cards[0]].to_multiset()
                =~= Multiset::<Card>::empty().insert(cards[0])) by {
                assert(seq![cards[0]] =~= Seq::<Card>::empty().push(cards[0]));
            }
        } else {
            lemma_multiset_commutative(seq![cards[0]], kep0);
            assert(seq![cards[0]].to_multiset()
                =~= Multiset::<Card>::empty().insert(cards[0])) by {
                assert(seq![cards[0]] =~= Seq::<Card>::empty().push(cards[0]));
            }
        }
        assert(cards =~= Seq::<Card>::empty().push(cards[0]) + cards.drop_first());
        lemma_multiset_commutative(Seq::<Card>::empty().push(cards[0]), cards.drop_first());
        assert(sel.to_multiset().add(kep.to_multiset()) =~= cards.to_multiset());
    }
}

/// The cards a mask selects, copied out of the hand (the hand is unchanged).
fn gather_selected(cards: &Vec<Card>, mask: &Vec<bool>) -> (v: Vec<Card>)
    requires
        cards@.len() == mask@.len(),
    ensures
        v@ == selected_cards(cards@, mask@),
{
    let mut v: Vec<Card> = Vec::new();
    let mut i: usize = 0;
    while i < cards.len()
        invariant
            i <= cards@.len(),
            cards@.len() == mask@.len(),
            v@ == selected_cards(cards@.subrange(0, i as int), mask@.subrange(0, i as int)),
        decreases cards.len() - i,
    {
        proof {
            lemma_selected_push(
                cards@.subrange(0, i as int),
                mask@.subrange(0, i as int),
                cards@[i as int],
                mask@[i as int],
            );
            assert(cards@.subrange(0, i + 1)
                =~= cards@.subrange(0, i as int).push(cards@[i as int]));
            assert(mask@.subrange(0, i + 1)
                =~= mask@.subrange(0, i as int).push(mask@[i as int]));
        }
        if mask[i] {
            v.push(cards[i]);
            proof {
                assert(v@ =~= selected_cards(cards@.subrange(0, i + 1), mask@.subrange(0, i + 1)));
            }
        } else {
            proof {
                assert(v@ =~= selected_cards(cards@.subrange(0, i + 1), mask@.subrange(0, i + 1)));
            }
        }
        i = i + 1;
    }
    proof {
        assert(cards@.subrange(0, cards@.len() as int) =~= cards@);
        assert(mask@.subrange(0, mask@.len() as int) =~= mask@);
    }
    v
}

/// Remove the selected cards from the hand, keeping the rest in order.
fn remove_selected(cards: &mut Vec<Card>, mask: &Vec<bool>)
    requires
        old(cards)@.len() == mask@.len(),
    ensures
        final(cards)@ == kept_cards(old(cards)@, mask@),
{
    let mut v: Vec<Card> = Vec::new();
    let mut i: usize = 0;
    while i < cards.len()
        invariant
            i <= cards@.len(),
            cards@ == old(cards)@,
            cards@.len() == mask@.len(),
            v@ == kept_cards(cards@.subrange(0, i as int), mask@.subrange(0, i as int)),
        decreases cards.len() - i,
    {
        proof {
            lemma_selected_push(
                cards@.subrange(0, i as int),
                mask@.subrange(0, i as int),
                cards@[i as int],
                mask@[i as int],
            );
            assert(cards@.subrange(0, i + 1)
                =~= cards@.subrange(0, i as int).push(cards@[i as int]));
            assert(mask@.subrange(0, i + 1)
                =~= mask@.subrange(0, i as int).push(mask@[i as int]));
        }
        if !mask[i] {
            v.push(cards[i]);
            proof {
                assert(v@ =~= kept_cards(cards@.subrange(0, i + 1), mask@.subrange(0, i + 1)));
            }
        } else {
            proof {
                assert(v@ =~= kept_cards(cards@.subrange(0, i + 1), mask@.subrange(0, i + 1)));
            }
        }
        i = i + 1;
    }
    proof {
        assert(cards@.subrange(0, cards@.len() as int) =~= cards@);
        assert(mask@.subrange(0, mask@.len() as int) =~= mask@);
    }
    *cards = v;
}

/// A submission is legal over the current leading play: the selection is
/// non-empty and classifies as a valid shape, and against a leading play it
/// matches its class and card count and its highest rank strictly exceeds
/// the leading rank. With no leading play any valid shape may lead.
pub open spec fn submission_legal(cs: Seq<Card>, leading: Option<Play>) -> bool {
    &&& cs.len() > 0
    &&& classify(cs) != Class::Invalid
    &&& match leading {
        Option::None => true,
        Option::Some(l) => {
            &&& classify(cs) == l.class
            &&& exists|r: Rank| #[trigger] is_max_rank(r, cs) && rank_value(r) > rank_value(l.rank)
            &&& cs.len() == l.cards@.len()
        },
    }
}

/// For a play derived from a selection (class, rank and count agree with the
/// cards), play-level legality coincides with selection-level legality.
pub proof fn lemma_allowed_iff_legal(p: Play, cs: Seq<Card>, leading: Option<Play>)
    requires
        cs.len() > 0,
        p.class == classify(cs),
        is_max_rank(p.rank, cs),
        p.cards@.len() == cs.len(),
    ensures
        play_allowed(p, leading) <==> submission_legal(cs, leading),
{
    match leading {
        Option::None => {},
        Option::Some(l) => {
            if play_allowed(p, leading) {
                assert(is_max_rank(p.rank, cs) && rank_value(p.rank) > rank_value(l.rank));
            }
            if submission_legal(cs, leading) {
                let r = choose|r: Rank| #[trigger] is_max_rank(r, cs)
                    && rank_value(r) > rank_value(l.rank);
                let i = choose|i: int| 0 <= i < cs.len() && cs[i].rank == r;
                let j = choose|j: int| 0 <= j < cs.len() && cs[j].rank == p.rank;
                assert(rank_value(cs[i].rank) <= rank_value(p.rank));
                assert(rank_value(cs[j].rank) <= rank_value(r));
                assert(rank_value(p.rank) == rank_value(r));
            }
        },
    }
}

/// One turn of the round state machine: the active player passes or submits
/// a selection of their hand. A malformed or illegal submission is rejected
/// and changes nothing; an accepted one moves the selected cards out of the
/// hand into a new play appended to the round; and an accepted play that
/// empties the hand wins the game on the spot.
pub fn apply_action(player: &mut Player, round: &mut Round, action: &TurnAction) -> (r:
    ActionResult)
    requires
        round_wf(*old(round)),
    ensures
        round_wf(*final(round)),
        final(player).name@ == old(player).name@,
        final(player).score == old(player).score,
        match *action {
            TurnAction::Pass => {
                &&& r == ActionResult::Passed
                &&& *final(player) == *old(player)
                &&& *final(round) == *old(round)
            },
            TurnAction::Submit(mask) => {
                &&& r != ActionResult::Passed
                &&& (r == ActionResult::Rejected <==> !(mask@.len()
                    == old(player).hand.cards@.len() && submission_legal(
                    selected_cards(old(player).hand.cards@, mask@),
                    leading_play(*old(round)),
                )))
                &&& (r == ActionResult::Rejected ==> *final(player) == *old(player)
                    && *final(round) == *old(round))
                &&& (r != ActionResult::Rejected ==> {
                    let cs = selected_cards(old(player).hand.cards@, mask@);
                    let p = final(round).plays@[final(round).plays@.len() - 1];
                    &&& final(player).hand.cards@ == kept_cards(old(player).hand.cards@, mask@)
                    &&& final(round).plays@ == old(round).plays@.push(p)
                    &&& play_wf(p)
                    &&& p.player.name@ == old(player).name@
                    &&& p.cards@.len() == cs.len()
                    &&& p.cards@.to_multiset() == cs.to_multiset()
                    &&& p.class == classify(cs)
                    &&& play_allowed(p, leading_play(*old(round)))
                })
                &&& (r == ActionResult::WonGame <==> r != ActionResult::Rejected && kept_cards(
                    old(player).hand.cards@,
                    mask@,
                ).len() == 0)
            },
        },
{
    match action {
        TurnAction::Pass => ActionResult::Passed,
        TurnAction::Submit(mask) => {
            if mask.len() != player.hand.cards.len() {
                return ActionResult::Rejected;
            }
            let chosen = gather_selected(&player.hand.cards, mask);
            if chosen.len() == 0 {
                return ActionResult::Rejected;
            }
            let ghost cs = chosen@;
            let mut p = Play::new(player.clone());
            p.set_cards(chosen);
            let allowed = if round.plays.len() == 0 {
                legal_play(&p, Option::None)
            } else {
                legal_play(&p, Option::Some(&round.plays[round.plays.len() - 1]))
            };
            proof {
                lemma_allowed_iff_legal(p, cs, leading_play(*old(round)));
            }
            if !allowed {
                return ActionResult::Rejected;
            }
            remove_selected(&mut player.hand.cards, mask);
            let ghost pre_round = *round;
            round.add_play(p);
            proof {
                lemma_add_play_preserves_wf(pre_round, *round, p);
            }
            if player.hand.cards.len() == 0 {
                ActionResult::WonGame
            } else {
                ActionResult::Played
            }
        },
    }
}

/// The names of the players, in seating order.
pub open spec fn names_of(ps: Seq<Player>) -> Seq<Seq<char>> {
    ps.map_values(|p: Player| p.name@)
}

/// The players' hands, in seating order.
pub open spec fn hands_of(ps: Seq<Player>) -> Seq<Seq<Card>> {
    ps.map_values(|p: Player| p.hand.cards@)
}

/// What legality and round completion read off the leading play: its class,
/// rank, card count, and its owner's name.
pub struct LeadPlay {
    pub class: Class,
    pub rank: Rank,
    pub count: int,
    pub owner: Seq<char>,
}

/// The abstract of a round's leading play.
pub open spec fn lead_abs(r: Round) -> Option<LeadPlay> {
    if r.plays@.len() == 0 {
        Option::None
    } else {
        let p = r.plays@[r.plays@.len() - 1];
        Option::Some(
            LeadPlay {
                class: p.class,
                rank: p.rank,
                count: p.cards@.len() as int,
                owner: p.player.name@,
            },
        )
    }
}

/// Selection legality, over the abstract leading play.
pub open spec fn submission_legal_abs(cs: Seq<Card>, lead: Option<LeadPlay>) -> bool {
    &&& cs.len() > 0
    &&& classify(cs) != Class::Invalid
    &&& match lead {
        Option::None => true,
        Option::Some(l) => {
            &&& classify(cs) == l.class
            &&& exists|r: Rank| #[trigger] is_max_rank(r, cs) && rank_value(r) > rank_value(l.rank)
            &&& cs.len() == l.count
        },
    }
}

/// Selection legality reads only the abstract of the leading play.
pub proof fn lemma_submission_legal_abs(cs: Seq<Card>, r: Round)
    ensures
        submission_legal(cs, leading_play(r)) == submission_legal_abs(cs, lead_abs(r)),
{
}

/// The rank of the highest card of a non-empty collection.
pub open spec fn max_rank_of(cs: Seq<Card>) -> Rank {
    choose|r: Rank| is_max_rank(r, cs)
}

/// The seat after `turn`, cycling through `n` seats.
pub open spec fn next_seat(turn: int, n: int) -> int {
    if turn + 1 == n {
        0
    } else {
        turn + 1
    }
}

/// How one round ends, over the abstract state: a hand emptied at this seat,
/// the turn came back to the leading play's owner at this seat, or the
/// decisions ran out.
pub enum RoundVerdict {
    GameWon(int),
    RoundWon(int),
    Unfinished,
}

/// What interpreting a round yields: the verdict, the hands as the round
/// left them (before any winner rotation), and where the decision cursor
/// stopped.
pub struct RoundRun {
    pub verdict: RoundVerdict,
    pub hands: Seq<Seq<Card>>,
    pub pos: int,
}

/// The round state machine as a function of its inputs: starting from seat
/// `turn` with the given leading play, fold the decisions from `pos` on. The
/// round is won by the leading play's owner the moment the turn returns to
/// them; a legal submission moves the selected cards out of the hand (and
/// wins the game outright if it empties it); an illegal one is rejected and
/// leaves the same seat on turn; a pass moves on. `play_round` is proved to
/// return exactly this function's verdict.
pub open spec fn run_round(
    names: Seq<Seq<char>>,
    hands: Seq<Seq<Card>>,
    lead: Option<LeadPlay>,
    turn: int,
    actions: Seq<TurnAction>,
    pos: int,
) -> RoundRun
    decreases actions.len() - pos
        when 0 <= pos <= actions.len() && 0 <= turn < names.len() && hands.len() == names.len()
{
    if (match lead {
        Option::Some(l) => l.owner == names[turn],
        Option::None => false,
    }) {
        RoundRun { verdict: RoundVerdict::RoundWon(turn), hands, pos }
    } else if pos >= actions.len() {
        RoundRun { verdict: RoundVerdict::Unfinished, hands, pos }
    } else {
        match actions[pos] {
            TurnAction::Pass => run_round(
                names,
                hands,
                lead,
                next_seat(turn, names.len() as int),
                actions,
                pos + 1,
            ),
            TurnAction::Submit(mask) => {
                let cs = selected_cards(hands[turn], mask@);
                if mask@.len() == hands[turn].len() && submission_legal_abs(cs, lead) {
                    let kept = kept_cards(hands[turn], mask@);
                    let hands2 = hands.update(turn, kept);
                    if kept.len() == 0 {
                        RoundRun {
                            verdict: RoundVerdict::GameWon(turn),
                            hands: hands2,
                            pos: pos + 1,
                        }
                    } else {
                        run_round(
                            names,
                            hands2,
                            Option::Some(
                                LeadPlay {
                                    class: classify(cs),
                                    rank: max_rank_of(cs),
                                    count: cs.len() as int,
                                    owner: names[turn],
                                },
                            ),
                            next_seat(turn, names.len() as int),
                            actions,
                            pos + 1,
                        )
                    }
                } else {
                    run_round(names, hands, lead, turn, actions, pos + 1)
                }
            },
        }
    }
}

/// All cards held in the players' hands, as one multiset.
pub open spec fn hands_ms(ps: Seq<Player>) -> Multiset<Card>
    decreases ps.len(),
{
    if ps.len() == 0 {
        Multiset::empty()
    } else {
        ps[0].hand.cards@.to_multiset().add(hands_ms(ps.drop_first()))
    }
}

proof fn lemma_hands_ms_concat(a: Seq<Player>, b: Seq<Player>)
    ensures
        hands_ms(a + b) == hands_ms(a).add(hands_ms(b)),
    decreases a.len(),
{
    broadcast use vstd::multiset::group_multiset_axioms;

    if a.len() == 0 {
        assert(a + b =~= b);
        assert(hands_ms(a) == Multiset::<Card>::empty());
        assert(hands_ms(a).add(hands_ms(b)) =~= hands_ms(b));
    } else {
        lemma_hands_ms_concat(a.drop_first(), b);
        assert((a + b).drop_first() =~= a.drop_first() + b);
        assert((a + b)[0] == a[0]);
        assert(hands_ms(a + b) =~= hands_ms(a).add(hands_ms(b)));
    }
}

proof fn lemma_hands_ms_update(ps: Seq<Player>, i: int, p: Player)
    requires
        0 <= i < ps.len(),
    ensures
        hands_ms(ps.update(i, p)).add(ps[i].hand.cards@.to_multiset()) == hands_ms(ps).add(
            p.hand.cards@.to_multiset(),
        ),
    decreases i,
{
    broadcast use vstd::multiset::group_multiset_axioms;

    if i == 0 {
        assert(ps.update(0, p).drop_first() =~= ps.drop_first());
        assert(ps.update(0, p)[0] == p);
        assert(hands_ms(ps.update(0, p)) == p.hand.cards@.to_multiset().add(
            hands_ms(ps.drop_first()),
        ));
        assert(hands_ms(ps) == ps[0].hand.cards@.to_multiset().add(hands_ms(ps.drop_first())));
        assert(hands_ms(ps.update(0, p)).add(ps[0].hand.cards@.to_multiset()) =~= hands_ms(
            ps,
        ).add(p.hand.cards@.to_multiset()));
    } else {
        lemma_hands_ms_update(ps.drop_first(), i - 1, p);
        assert(ps.update(i, p).drop_first() =~= ps.drop_first().update(i - 1, p));
        assert(ps.update(i, p)[0] == ps[0]);
        assert(ps.drop_first()[i - 1] == ps[i]);
        assert(hands_ms(ps.update(i, p)) == ps[0].hand.cards@.to_multiset().add(
            hands_ms(ps.drop_first().update(i - 1, p)),
        ));
        assert(hands_ms(ps) == ps[0].hand.cards@.to_multiset().add(hands_ms(ps.drop_first())));
        let du = ps.drop_first().update(i - 1, p);
        assert forall|x: Card|
            hands_ms(du).count(x) + ps[i].hand.cards@.to_multiset().count(x) == hands_ms(
                ps.drop_first(),
            ).count(x) + p.hand.cards@.to_multiset().count(x) by {
            assert(hands_ms(du).add(ps.drop_first()[i - 1].hand.cards@.to_multiset()).count(x)
                == hands_ms(ps.drop_first()).add(p.hand.cards@.to_multiset()).count(x));
        }
        assert(hands_ms(ps.update(i, p)).add(ps[i].hand.cards@.to_multiset()) =~= hands_ms(
            ps,
        ).add(p.hand.cards@.to_multiset()));
    }
}

/// Rotate the seating so that the player at position `k` comes first,
/// preserving the cyclic order.
pub fn rotate_to(players: &mut Vec<Player>, k: usize)
    requires
        k < old(players)@.len(),
    ensures
        final(players)@ == old(players)@.subrange(k as int, old(players)@.len() as int)
            + old(players)@.subrange(0, k as int),
{
    let ghost orig = old(players)@;
    let n = players.len();
    let mut i: usize = 0;
    proof {
        assert(players@ =~= orig.subrange(0, n as int));
        assert(players@ =~= orig.subrange(0 as int, n as int) + orig.subrange(0, 0 as int));
    }
    while i < k
        invariant
            i <= k,
            k < n,
            n == orig.len(),
            players@.len() == n,
            players@ == orig.subrange(i as int, n as int) + orig.subrange(0, i as int),
        decreases k - i,
    {
        let p = players.remove(0);
        players.push(p);
        proof {
            assert(players@ =~= orig.subrange(i + 1, n as int) + orig.subrange(0, i + 1));
        }
        i = i + 1;
    }
}

/// The round is complete when, with no new play accepted in between, the
/// turn has come back to the player who owns the leading play: everyone else
/// passed, and that player wins the round.
pub fn round_complete(round: &Round, players: &Vec<Player>, turn: usize) -> (r: bool)
    requires
        turn < players@.len(),
    ensures
        r == (round.plays@.len() > 0 && players@[turn as int].name@
            == round.plays@[round.plays@.len() - 1].player.name@),
{
    if round.plays.len() == 0 {
        return false;
    }
    str_eq(
        players[turn].name.as_str(),
        round.plays[round.plays.len() - 1].player.name.as_str(),
    )
}

/// How many cards the round-robin deal has handed to seat `s` after `d`
/// cards in all, serving seats 1, 2, …, n-1, 0 cyclically: `d / n` full
/// cycles, plus one more for the seats the partial last cycle has already
/// reached.
spec fn dealt_to(s: int, d: int, n: int) -> int {
    if (s + n - 1) % n < d % n {
        d / n + 1
    } else {
        d / n
    }
}

/// The serving position of a seat: seat 1 is served first, seat 0 last.
proof fn lemma_serving_position(s: int, n: int)
    requires
        1 <= n,
        0 <= s < n,
    ensures
        (s + n - 1) % n == (if s == 0 { n - 1 } else { s - 1 }),
{
    if s == 0 {
        lemma_fundamental_div_mod_converse(n - 1, n, 0, n - 1);
    } else {
        lemma_fundamental_div_mod_converse(s + n - 1, n, 1, s - 1);
    }
}

/// Before any card is dealt, every seat has received none.
proof fn lemma_dealt_to_zero(s: int, n: int)
    requires
        1 <= n,
    ensures
        dealt_to(s, 0, n) == 0,
{
    lemma_fundamental_div_mod_converse(0, n, 0, 0);
}

/// Dealing one more card raises the served seat's count by one and leaves
/// every other seat's count unchanged.
proof fn lemma_dealt_to_step(d: int, n: int)
    requires
        1 <= n,
        0 <= d,
    ensures
        dealt_to((1 + d) % n, d + 1, n) == dealt_to((1 + d) % n, d, n) + 1,
        forall|s: int|
            0 <= s < n && s != (1 + d) % n ==> dealt_to(s, d + 1, n) == dealt_to(s, d, n),
{
    lemma_fundamental_div_mod(d, n);
    lemma_mod_bound(d, n);
    let qd = d / n;
    let rd = d % n;
    assert(d == n * qd + rd);
    if rd + 1 < n {
        assert(1 + d == qd * n + (rd + 1)) by {
            assert(qd * n == n * qd) by (nonlinear_arith);
        }
        lemma_fundamental_div_mod_converse(1 + d, n, qd, rd + 1);
        let i = (1 + d) % n;
        assert(i == rd + 1);
        assert((d + 1) % n == rd + 1);
        assert((d + 1) / n == qd);
        lemma_serving_position(i, n);
        assert((i + n - 1) % n == rd);
        assert(dealt_to(i, d + 1, n) == qd + 1);
        assert(dealt_to(i, d, n) == qd);
        assert forall|s: int|
            0 <= s < n && s != i implies dealt_to(s, d + 1, n) == dealt_to(s, d, n) by {
            lemma_serving_position(s, n);
        }
    } else {
        assert(rd == n - 1);
        assert(1 + d == (qd + 1) * n + 0) by {
            assert((qd + 1) * n == n * qd + n) by (nonlinear_arith);
        }
        lemma_fundamental_div_mod_converse(1 + d, n, qd + 1, 0);
        let i = (1 + d) % n;
        assert(i == 0);
        assert((d + 1) % n == 0);
        assert((d + 1) / n == qd + 1);
        lemma_serving_position(0, n);
        assert(dealt_to(0, d + 1, n) == qd + 1);
        assert(dealt_to(0, d, n) == qd);
        assert forall|s: int|
            0 <= s < n && s != 0 implies dealt_to(s, d + 1, n) == dealt_to(s, d, n) by {
            lemma_serving_position(s, n);
        }
    }
}

/// Every seat's count is within one of every other's, and seat 0 — served
/// last — always has the fewest.
proof fn lemma_dealt_to_bounds(s: int, d: int, n: int)
    requires
        1 <= n,
        0 <= s < n,
        0 <= d,
    ensures
        d / n <= dealt_to(s, d, n) <= d / n + 1,
        dealt_to(0, d, n) == d / n,
{
    lemma_mod_bound(d, n);
    lemma_serving_position(0, n);
    lemma_serving_position(s, n);
}

/// The card that decides who leads the first round.
pub open spec fn three_of_hearts() -> Card {
    Card { suit: Suit::Hearts, rank: Rank::Three }
}

fn find_three_of_hearts(cards: &Vec<Card>) -> (k: usize)
    requires
        exists|i: int| 0 <= i < cards@.len() && cards@[i] == three_of_hearts(),
    ensures
        k < cards@.len(),
        cards@[k as int] == three_of_hearts(),
{
    let mut i: usize = 0;
    while i < cards.len()
        invariant
            i <= cards@.len(),
            exists|j: int| 0 <= j < cards@.len() && cards@[j] == three_of_hearts(),
            forall|j: int| 0 <= j < i ==> cards@[j] != three_of_hearts(),
        decreases cards.len() - i,
    {
        if cards[i].rank == Rank::Three && cards[i].suit == Suit::Hearts {
            return i;
        }
        i = i + 1;
    }
    proof {
        assert(false);
    }
    0
}

/// A cyclic rotation of a seating: the seats from `k` on, then those
/// before `k`.
pub open spec fn rotated<A>(s: Seq<A>, k: int) -> Seq<A> {
    s.subrange(k, s.len() as int) + s.subrange(0, k)
}

/// Bounds of the round interpreter: the decision cursor never moves
/// backwards or past the end, the hand count is stable, a verdict seat is a
/// real seat, the decisions are exhausted exactly when the round is
/// unfinished, and a round that starts with no leading play can only be won
/// after consuming at least one decision.
pub proof fn lemma_run_round_bounds(
    names: Seq<Seq<char>>,
    hands: Seq<Seq<Card>>,
    lead: Option<LeadPlay>,
    turn: int,
    actions: Seq<TurnAction>,
    pos: int,
)
    requires
        0 <= pos <= actions.len(),
        0 <= turn < names.len(),
        hands.len() == names.len(),
    ensures
        ({
            let rr = run_round(names, hands, lead, turn, actions, pos);
            &&& pos <= rr.pos <= actions.len()
            &&& rr.hands.len() == hands.len()
            &&& match rr.verdict {
                RoundVerdict::RoundWon(k) => 0 <= k < names.len() && (lead
                    == Option::<LeadPlay>::None ==> rr.pos > pos),
                RoundVerdict::GameWon(k) => 0 <= k < names.len(),
                RoundVerdict::Unfinished => rr.pos == actions.len(),
            }
        }),
    decreases actions.len() - pos,
{
    let rr = run_round(names, hands, lead, turn, actions, pos);
    if (match lead {
        Option::Some(l) => l.owner == names[turn],
        Option::None => false,
    }) {
    } else if pos >= actions.len() {
    } else {
        match actions[pos] {
            TurnAction::Pass => {
                lemma_run_round_bounds(
                    names,
                    hands,
                    lead,
                    next_seat(turn, names.len() as int),
                    actions,
                    pos + 1,
                );
            },
            TurnAction::Submit(mask) => {
                let cs = selected_cards(hands[turn], mask@);
                if mask@.len() == hands[turn].len() && submission_legal_abs(cs, lead) {
                    let kept = kept_cards(hands[turn], mask@);
                    let hands2 = hands.update(turn, kept);
                    if kept.len() == 0 {
                    } else {
                        lemma_run_round_bounds(
                            names,
                            hands2,
                            Option::Some(
                                LeadPlay {
                                    class: classify(cs),
                                    rank: max_rank_of(cs),
                                    count: cs.len() as int,
                                    owner: names[turn],
                                },
                            ),
                            next_seat(turn, names.len() as int),
                            actions,
                            pos + 1,
                        );
                    }
                } else {
                    lemma_run_round_bounds(names, hands, lead, turn, actions, pos + 1);
                }
            },
        }
    }
}

/// What interpreting a whole game yields: the winner's name once an accepted
/// play empties a hand, the seating and hands as the rounds left them, and
/// where the decision cursor stopped.
pub struct GameRun {
    pub winner: Option<Seq<char>>,
    pub names: Seq<Seq<char>>,
    pub hands: Seq<Seq<Card>>,
    pub pos: int,
}

/// The rounds loop as a function of the dealt state and the decisions: run
/// one round from the front seat with nothing to beat; a won round rotates
/// its winner to the front and the next round begins; an emptied hand names
/// the game's winner; exhausted decisions leave the game unfinished.
/// `start_game` is proved to return exactly this function's winner for the
/// state its random deal produced.
pub open spec fn run_game(
    names: Seq<Seq<char>>,
    hands: Seq<Seq<Card>>,
    actions: Seq<TurnAction>,
    pos: int,
) -> GameRun
    decreases actions.len() - pos
        when 0 <= pos <= actions.len() && 0 < names.len() && hands.len() == names.len()
    via run_game_decreases
{
    let rr = run_round(names, hands, Option::None, 0, actions, pos);
    match rr.verdict {
        RoundVerdict::GameWon(k) => GameRun {
            winner: Option::Some(names[k]),
            names,
            hands: rr.hands,
            pos: rr.pos,
        },
        RoundVerdict::Unfinished => GameRun {
            winner: Option::None,
            names,
            hands: rr.hands,
            pos: rr.pos,
        },
        RoundVerdict::RoundWon(k) => run_game(
            rotated(names, k),
            rotated(rr.hands, k),
            actions,
            rr.pos,
        ),
    }
}

#[via_fn]
proof fn run_game_decreases(
    names: Seq<Seq<char>>,
    hands: Seq<Seq<Card>>,
    actions: Seq<TurnAction>,
    pos: int,
) {
    lemma_run_round_bounds(names, hands, Option::None, 0, actions, pos);
    let rr = run_round(names, hands, Option::None, 0, actions, pos);
    match rr.verdict {
        RoundVerdict::RoundWon(k) => {
            assert(rotated(names, k).len() == names.len());
            assert(rotated(rr.hands, k).len() == names.len());
            assert(rr.pos > pos);
        },
        _ => {},
    }
}

/// The outcome of running one round against a list of turn decisions.
pub enum RoundOutcome {
    /// An accepted play emptied this player's hand: they win the game.
    GameWinner(Player),
    /// Everyone else passed; this player won the round and now leads.
    RoundWinner(Player),
    /// The decisions ran out before the round could finish.
    Incomplete,
}

pub struct Game {
    pub players: Vec<Player>,
    pub rounds: Vec<Round>,
    pub deck: Deck,
}

/// Every finished round on record holds only legal, well-formed plays.
pub open spec fn game_wf(g: Game) -> bool {
    forall|i: int| 0 <= i < g.rounds@.len() ==> round_wf(#[trigger] g.rounds@[i])
}

impl Game {
    pub fn new(players: Vec<Player>, deck: Deck) -> (g: Game)
        ensures
            g.players == players,
            g.deck == deck,
            g.rounds@.len() == 0,
            game_wf(g),
    {
        Game { players, rounds: Vec::new(), deck }
    }

    /// Deal the whole deck: a random player is chosen to lead, receives the
    /// Three of Hearts, and sits at the front; the remaining cards are dealt
    /// round-robin starting to the leader's left, so the leader is served
    /// last. No card is lost or duplicated — afterwards the deck is empty
    /// and the hands together hold exactly what the hands and the deck held
    /// before — every hand ends sorted ascending by rank, and when dealing
    /// starts from empty hands (a fresh game), the dealt hand sizes differ
    /// pairwise by at most one card.
    pub fn deal_cards(&mut self)
        requires
            old(self).players@.len() > 0,
            old(self).deck.cards@.to_multiset().count(three_of_hearts()) > 0,
        ensures
            final(self).players@.len() == old(self).players@.len(),
            final(self).deck.cards@.len() == 0,
            final(self).rounds@ == old(self).rounds@,
            names_of(final(self).players@).to_multiset() == names_of(
                old(self).players@,
            ).to_multiset(),
            hands_ms(final(self).players@) == hands_ms(old(self).players@).add(
                old(self).deck.cards@.to_multiset(),
            ),
            final(self).players@[0].hand.cards@.to_multiset().count(three_of_hearts()) > 0,
            forall|j: int|
                0 <= j < final(self).players@.len() ==> sorted_by_rank(
                    (#[trigger] final(self).players@[j]).hand.cards@,
                ),
            (forall|j: int|
                0 <= j < old(self).players@.len() ==> (#[trigger] old(
                    self,
                ).players@[j]).hand.cards@.len() == 0) ==> forall|a: int, b: int|
                0 <= a < final(self).players@.len() && 0 <= b < final(self).players@.len()
                    ==> (#[trigger] final(self).players@[a]).hand.cards@.len() <= (
                #[trigger] final(self).players@[b]).hand.cards@.len() + 1,
    {
        broadcast use group_to_multiset_ensures;
        broadcast use vstd::multiset::group_multiset_axioms;

        let ghost orig_players = old(self).players@;
        let ghost orig_deck = old(self).deck.cards@.to_multiset();

        let n = self.players.len();
        let chosen = random_below(n);
        rotate_to(&mut self.players, chosen);
        proof {
            let a = orig_players.subrange(chosen as int, n as int);
            let b = orig_players.subrange(0, chosen as int);
            lemma_hands_ms_concat(a, b);
            lemma_hands_ms_concat(b, a);
            assert(orig_players =~= b + a);
            assert(hands_ms(self.players@) =~= hands_ms(orig_players));
            assert(names_of(a + b) =~= names_of(a) + names_of(b));
            assert(names_of(b + a) =~= names_of(b) + names_of(a));
            lemma_multiset_commutative(names_of(a), names_of(b));
            lemma_multiset_commutative(names_of(b), names_of(a));
            assert(names_of(self.players@).to_multiset() =~= names_of(
                orig_players,
            ).to_multiset());
        }
        self.deck.sort();

        // Hand the Three of Hearts to the leader.
        proof {
            assert(self.deck.cards@.to_multiset().count(three_of_hearts()) > 0);
            assert(self.deck.cards@.contains(three_of_hearts()));
        }
        let k = find_three_of_hearts(&self.deck.cards);
        let ghost deck_pre = self.deck.cards@;
        let c = self.deck.cards.remove(k);
        proof {
            assert(deck_pre[k as int] == c);
            assert(deck_pre.contains(c));
            assert(deck_pre.to_multiset().count(c) > 0);
            assert(deck_pre.remove(k as int).to_multiset() == deck_pre.to_multiset().remove(
                deck_pre[k as int],
            ));
            assert(self.deck.cards@.to_multiset() == orig_deck.remove(c));
            assert(orig_deck.count(c) > 0);
        }
        let ghost ps_pre = self.players@;
        let mut p0 = self.players.remove(0);
        let ghost hand_pre = p0.hand.cards@;
        p0.hand.add_card(c);
        p0.hand.sort();
        self.players.insert(0, p0);
        proof {
            assert(self.players@ =~= ps_pre.update(0, self.players@[0]));
            lemma_hands_ms_update(ps_pre, 0, self.players@[0]);
            assert(hand_pre.push(c).to_multiset() == hand_pre.to_multiset().insert(c));
            assert(self.players@[0].hand.cards@.to_multiset() == hand_pre.to_multiset().insert(
                c,
            ));
            assert(ps_pre[0].hand.cards@ == hand_pre);
            assert forall|x: Card|
                hands_ms(self.players@).count(x) == hands_ms(ps_pre).insert(c).count(x) by {
                assert(hands_ms(self.players@).add(ps_pre[0].hand.cards@.to_multiset()).count(x)
                    == hands_ms(ps_pre).add(
                    self.players@[0].hand.cards@.to_multiset(),
                ).count(x));
            }
            assert(hands_ms(self.players@) =~= hands_ms(ps_pre).insert(c));
            assert(hands_ms(ps_pre) == hands_ms(orig_players));
            assert(hands_ms(self.players@).add(self.deck.cards@.to_multiset()) =~= hands_ms(
                orig_players,
            ).add(orig_deck));
            assert(self.players@[0].hand.cards@.to_multiset().count(three_of_hearts()) > 0);
            assert(names_of(self.players@) =~= names_of(ps_pre));
            assert(self.players@[0].hand.cards@.len() == hand_pre.len() + 1);
        }
        let ghost base = self.players@;
        let ghost dtotal = self.deck.cards@.len() as int;

        // Deal the rest, starting at the leader's left.
        let mut i: usize = 1 % n;
        proof {
            if n == 1 {
                lemma_fundamental_div_mod_converse(1, 1, 1, 0);
            } else {
                lemma_fundamental_div_mod_converse(1, n as int, 0, 1);
            }
            assert(i as int == (1 + (dtotal - self.deck.cards@.len())) % (n as int));
            assert forall|s: int|
                0 <= s < n implies (#[trigger] self.players@[s]).hand.cards@.len()
                == base[s].hand.cards@.len() + dealt_to(
                s,
                dtotal - self.deck.cards@.len(),
                n as int,
            ) by {
                lemma_dealt_to_zero(s, n as int);
            }
        }
        while self.deck.cards.len() > 0
            invariant
                i < n,
                n == self.players@.len(),
                n == base.len(),
                names_of(self.players@).to_multiset() == names_of(orig_players).to_multiset(),
                hands_ms(self.players@).add(self.deck.cards@.to_multiset()) == hands_ms(
                    orig_players,
                ).add(orig_deck),
                self.players@[0].hand.cards@.to_multiset().count(three_of_hearts()) > 0,
                self.rounds@ == old(self).rounds@,
                self.deck.cards@.len() <= dtotal,
                i as int == (1 + (dtotal - self.deck.cards@.len())) % (n as int),
                forall|s: int|
                    0 <= s < n ==> (#[trigger] self.players@[s]).hand.cards@.len()
                        == base[s].hand.cards@.len() + dealt_to(
                        s,
                        dtotal - self.deck.cards@.len(),
                        n as int,
                    ),
            decreases self.deck.cards@.len(),
        {
            broadcast use group_to_multiset_ensures;
            broadcast use vstd::multiset::group_multiset_axioms;

            let ghost deck_pre_seq = self.deck.cards@;
            let ghost d_pre = dtotal - self.deck.cards@.len();
            let c = self.deck.draw_card();
            let ghost ps_pre = self.players@;
            let mut p = self.players.remove(i);
            let ghost hand_pre = p.hand.cards@;
            p.hand.add_card(c);
            p.hand.sort();
            self.players.insert(i, p);
            proof {
                assert(deck_pre_seq.to_multiset().count(c) > 0) by {
                    let w = choose|w: int|
                        0 <= w < deck_pre_seq.len() && c == deck_pre_seq[w]
                            && self.deck.cards@ == deck_pre_seq.remove(w);
                    assert(deck_pre_seq.contains(c));
                }
                assert(self.players@ =~= ps_pre.update(i as int, self.players@[i as int]));
                lemma_hands_ms_update(ps_pre, i as int, self.players@[i as int]);
                assert(hand_pre.push(c).to_multiset() == hand_pre.to_multiset().insert(c));
                assert(self.players@[i as int].hand.cards@.to_multiset()
                    == hand_pre.to_multiset().insert(c));
                assert(ps_pre[i as int].hand.cards@ == hand_pre);
                assert forall|x: Card|
                    hands_ms(self.players@).count(x) == hands_ms(ps_pre).insert(c).count(x) by {
                    assert(hands_ms(self.players@).add(
                        ps_pre[i as int].hand.cards@.to_multiset(),
                    ).count(x) == hands_ms(ps_pre).add(
                        self.players@[i as int].hand.cards@.to_multiset(),
                    ).count(x));
                }
                assert(hands_ms(self.players@) =~= hands_ms(ps_pre).insert(c));
                assert(names_of(self.players@) =~= names_of(ps_pre));
                assert(hands_ms(self.players@).add(self.deck.cards@.to_multiset())
                    =~= hands_ms(orig_players).add(orig_deck));
                // One more card has been dealt: seat i's count steps up, the
                // others stand, and the serving order moves on one seat.
                assert(self.players@[i as int].hand.cards@.len() == hand_pre.len() + 1);
                lemma_dealt_to_step(d_pre, n as int);
                assert(dtotal - self.deck.cards@.len() == d_pre + 1);
                assert forall|s: int|
                    0 <= s < n implies (#[trigger] self.players@[s]).hand.cards@.len()
                    == base[s].hand.cards@.len() + dealt_to(s, d_pre + 1, n as int) by {
                    if s != i as int {
                        assert(self.players@[s] == ps_pre[s]);
                    }
                }
                lemma_fundamental_div_mod(1 + d_pre, n as int);
                let q1 = (1 + d_pre) / (n as int);
                assert(1 + d_pre == (n as int) * q1 + i as int);
                if i + 1 == n {
                    assert(1 + (d_pre + 1) == (q1 + 1) * (n as int) + 0) by (nonlinear_arith)
                        requires 1 + d_pre == (n as int) * q1 + i as int && i + 1 == n;
                    lemma_fundamental_div_mod_converse(1 + (d_pre + 1), n as int, q1 + 1, 0);
                } else {
                    assert(1 + (d_pre + 1) == q1 * (n as int) + (i as int + 1))
                        by (nonlinear_arith)
                        requires 1 + d_pre == (n as int) * q1 + i as int;
                    lemma_fundamental_div_mod_converse(
                        1 + (d_pre + 1),
                        n as int,
                        q1,
                        i as int + 1,
                    );
                }
            }
            i = if i + 1 == n {
                0
            } else {
                i + 1
            };
        }
        proof {
            assert forall|s: int|
                0 <= s < n implies (#[trigger] self.players@[s]).hand.cards@.len()
                == base[s].hand.cards@.len() + dealt_to(s, dtotal, n as int) by {
            }
        }
        let ghost post_deal = self.players@;

        // Leave every hand sorted, hands that drew nothing included.
        let mut si: usize = 0;
        while si < self.players.len()
            invariant
                si <= n,
                n == self.players@.len(),
                names_of(self.players@).to_multiset() == names_of(orig_players).to_multiset(),
                hands_ms(self.players@).add(self.deck.cards@.to_multiset()) == hands_ms(
                    orig_players,
                ).add(orig_deck),
                self.deck.cards@.len() == 0,
                self.players@[0].hand.cards@.to_multiset().count(three_of_hearts()) > 0,
                self.rounds@ == old(self).rounds@,
                forall|j: int|
                    0 <= j < si ==> sorted_by_rank((#[trigger] self.players@[j]).hand.cards@),
                forall|j: int|
                    0 <= j < n ==> (#[trigger] self.players@[j]).hand.cards@.len()
                        == post_deal[j].hand.cards@.len(),
            decreases n - si,
        {
            broadcast use group_to_multiset_ensures;
            broadcast use vstd::multiset::group_multiset_axioms;

            let ghost ps_pre = self.players@;
            let mut p = self.players.remove(si);
            p.hand.sort();
            self.players.insert(si, p);
            proof {
                assert(self.players@ =~= ps_pre.update(si as int, self.players@[si as int]));
                lemma_hands_ms_update(ps_pre, si as int, self.players@[si as int]);
                assert(self.players@[si as int].hand.cards@.to_multiset()
                    == ps_pre[si as int].hand.cards@.to_multiset());
                assert forall|x: Card|
                    hands_ms(self.players@).count(x) == hands_ms(ps_pre).count(x) by {
                    assert(hands_ms(self.players@).add(
                        ps_pre[si as int].hand.cards@.to_multiset(),
                    ).count(x) == hands_ms(ps_pre).add(
                        self.players@[si as int].hand.cards@.to_multiset(),
                    ).count(x));
                }
                assert(hands_ms(self.players@) =~= hands_ms(ps_pre));
                assert(names_of(self.players@) =~= names_of(ps_pre));
                if si > 0 {
                    assert(self.players@[0] == ps_pre[0]);
                }
                assert(self.players@[0].hand.cards@.to_multiset().count(three_of_hearts()) > 0);
                assert forall|j: int|
                    0 <= j < si + 1 implies sorted_by_rank(
                    (#[trigger] self.players@[j]).hand.cards@,
                ) by {
                    if j < si {
                        assert(self.players@[j] == ps_pre[j]);
                    }
                }
                assert forall|j: int|
                    0 <= j < n implies (#[trigger] self.players@[j]).hand.cards@.len()
                    == post_deal[j].hand.cards@.len() by {
                    if j != si as int {
                        assert(self.players@[j] == ps_pre[j]);
                    }
                }
            }
            si = si + 1;
        }

        // From empty hands, round-robin dealing with the leader served last
        // leaves every pair of hands within one card of each other.
        proof {
            if forall|j: int|
                0 <= j < orig_players.len() ==> (#[trigger] orig_players[j]).hand.cards@.len()
                    == 0 {
                assert forall|sj: int|
                    0 <= sj < n implies (#[trigger] base[sj]).hand.cards@.len() == (
                if sj == 0 {
                    1int
                } else {
                    0
                }) by {
                    if sj == 0 {
                        assert(base[0].hand.cards@.len() == hand_pre.len() + 1);
                        assert(hand_pre == ps_pre[0].hand.cards@);
                        assert(ps_pre[0] == orig_players[chosen as int]);
                    } else {
                        assert(base[sj] == ps_pre[sj]);
                        if sj < n - chosen {
                            assert(ps_pre[sj] == orig_players[chosen + sj]);
                        } else {
                            assert(ps_pre[sj] == orig_players[sj - (n - chosen)]);
                        }
                    }
                }
                assert forall|a: int, b: int|
                    0 <= a < self.players@.len() && 0 <= b < self.players@.len() implies (
                #[trigger] self.players@[a]).hand.cards@.len() <= (
                #[trigger] self.players@[b]).hand.cards@.len() + 1 by {
                    lemma_dealt_to_bounds(a, dtotal, n as int);
                    lemma_dealt_to_bounds(b, dtotal, n as int);
                    assert(self.players@[a].hand.cards@.len() == base[a].hand.cards@.len()
                        + dealt_to(a, dtotal, n as int));
                    assert(self.players@[b].hand.cards@.len() == base[b].hand.cards@.len()
                        + dealt_to(b, dtotal, n as int));
                }
            }
        }
    }

    /// One turn of a running round: apply the active player's decision to
    /// their hand and the round, and advance the turn unless the submission
    /// was rejected. This is the step an interactive driver calls once per
    /// prompt; `play_round` runs it over a whole list of decisions.
    pub fn take_turn(&mut self, round: &mut Round, turn: &mut usize, action: &TurnAction) -> (r:
        ActionResult)
        requires
            *old(turn) < old(self).players@.len(),
            round_wf(*old(round)),
        ensures
            round_wf(*final(round)),
            final(self).players@.len() == old(self).players@.len(),
            names_of(final(self).players@) == names_of(old(self).players@),
            final(self).rounds@ == old(self).rounds@,
            final(self).deck == old(self).deck,
            *final(turn) < final(self).players@.len(),
            (r == ActionResult::Rejected || r == ActionResult::WonGame) ==> *final(turn) == *old(
                turn,
            ),
            (r == ActionResult::Passed || r == ActionResult::Played) ==> *final(turn) == (
            if *old(turn) + 1 == old(self).players@.len() {
                0
            } else {
                *old(turn) + 1
            }),
            final(round).plays@.len() >= old(round).plays@.len(),
            match *action {
                TurnAction::Pass => r == ActionResult::Passed && final(self).players@ == old(
                    self,
                ).players@ && *final(round) == *old(round),
                TurnAction::Submit(mask) => {
                    let hand0 = old(self).players@[*old(turn) as int].hand.cards@;
                    &&& r != ActionResult::Passed
                    &&& (r == ActionResult::Rejected <==> !(mask@.len() == hand0.len()
                        && submission_legal(
                        selected_cards(hand0, mask@),
                        leading_play(*old(round)),
                    )))
                    &&& (r == ActionResult::Rejected ==> final(self).players@ == old(
                        self,
                    ).players@ && *final(round) == *old(round))
                    &&& (r != ActionResult::Rejected ==> {
                        let cs = selected_cards(hand0, mask@);
                        let p = final(round).plays@[final(round).plays@.len() - 1];
                        &&& final(self).players@ == old(self).players@.update(
                            *old(turn) as int,
                            final(self).players@[*old(turn) as int],
                        )
                        &&& final(self).players@[*old(turn) as int].hand.cards@ == kept_cards(
                            hand0,
                            mask@,
                        )
                        &&& final(round).plays@ == old(round).plays@.push(p)
                        &&& play_wf(p)
                        &&& p.player.name@ == old(self).players@[*old(turn) as int].name@
                        &&& p.cards@.len() == cs.len()
                        &&& p.cards@.to_multiset() == cs.to_multiset()
                        &&& p.class == classify(cs)
                        &&& play_allowed(p, leading_play(*old(round)))
                    })
                    &&& (r == ActionResult::WonGame <==> r != ActionResult::Rejected
                        && kept_cards(hand0, mask@).len() == 0)
                },
            },
    {
        let n = self.players.len();
        let ghost ps_pre = self.players@;
        let mut pl = self.players.remove(*turn);
        let res = apply_action(&mut pl, round, action);
        self.players.insert(*turn, pl);
        proof {
            assert(self.players@ =~= ps_pre.update(*turn as int, self.players@[*turn as int]));
            assert(names_of(self.players@) =~= names_of(ps_pre));
            match res {
                ActionResult::Rejected | ActionResult::Passed => {
                    assert(self.players@ =~= ps_pre);
                },
                _ => {},
            }
        }
        match res {
            ActionResult::Passed | ActionResult::Played => {
                *turn = if *turn + 1 == n {
                    0
                } else {
                    *turn + 1
                };
            },
            _ => {},
        }
        res
    }

    /// Close a completed round: the owner of the leading play won it; they
    /// rotate to the front to lead the next round, and the round goes on
    /// record.
    pub fn finish_round(&mut self, round: Round, turn: usize) -> (w: Player)
        requires
            turn < old(self).players@.len(),
            round_wf(round),
            round.plays@.len() > 0,
            old(self).players@[turn as int].name@ == round.plays@[round.plays@.len()
                - 1].player.name@,
            game_wf(*old(self)),
        ensures
            game_wf(*final(self)),
            final(self).players@.len() == old(self).players@.len(),
            final(self).players@ == old(self).players@.subrange(
                turn as int,
                old(self).players@.len() as int,
            ) + old(self).players@.subrange(0, turn as int),
            names_of(final(self).players@).to_multiset() == names_of(
                old(self).players@,
            ).to_multiset(),
            final(self).deck == old(self).deck,
            final(self).rounds@ == old(self).rounds@.push(round),
            final(self).players@[0].name@ == w.name@,
            w.name@ == round.plays@[round.plays@.len() - 1].player.name@,
            w.hand.cards@ == old(self).players@[turn as int].hand.cards@,
    {
        let n = self.players.len();
        let ghost ps_pre = self.players@;
        rotate_to(&mut self.players, turn);
        proof {
            let a = ps_pre.subrange(turn as int, n as int);
            let b = ps_pre.subrange(0, turn as int);
            assert(names_of(a + b) =~= names_of(a) + names_of(b));
            assert(names_of(b + a) =~= names_of(b) + names_of(a));
            assert(ps_pre =~= b + a);
            lemma_multiset_commutative(names_of(a), names_of(b));
            lemma_multiset_commutative(names_of(b), names_of(a));
            assert(names_of(self.players@).to_multiset() =~= names_of(ps_pre).to_multiset());
            assert(self.players@[0] == ps_pre[turn as int]);
        }
        let w = self.players[0].clone();
        let ghost rounds_pre = self.rounds@;
        self.rounds.push(round);
        proof {
            assert forall|j: int|
                0 <= j < self.rounds@.len() implies round_wf(#[trigger] self.rounds@[j]) by {
                if j < rounds_pre.len() {
                    assert(self.rounds@[j] == rounds_pre[j]);
                }
            }
        }
        w
    }

    /// Run one round: starting from the front player, each listed decision
    /// is applied in turn order (a rejected submission keeps the same player
    /// on turn). The round ends when the turn returns to the owner of the
    /// leading play, who is rotated to the front to lead the next round — or
    /// immediately, the moment an accepted play empties a hand. The outcome,
    /// the final hands and the decisions consumed are exactly what the
    /// `run_round` interpreter computes from the inputs.
    #[verifier::rlimit(60)]
    pub fn play_round(&mut self, actions: &Vec<TurnAction>, pos: &mut usize) -> (out:
        RoundOutcome)
        requires
            old(self).players@.len() > 0,
            *old(pos) <= actions@.len(),
            game_wf(*old(self)),
        ensures
            game_wf(*final(self)),
            final(self).players@.len() == old(self).players@.len(),
            final(self).deck == old(self).deck,
            names_of(final(self).players@).to_multiset() == names_of(
                old(self).players@,
            ).to_multiset(),
            *old(pos) <= *final(pos) <= actions@.len(),
            ({
                let names0 = names_of(old(self).players@);
                let t = run_round(
                    names0,
                    hands_of(old(self).players@),
                    Option::None,
                    0,
                    actions@,
                    *old(pos) as int,
                );
                &&& *final(pos) == t.pos
                &&& match out {
                    RoundOutcome::Incomplete => {
                        &&& t.verdict == RoundVerdict::Unfinished
                        &&& *final(pos) == actions@.len()
                        &&& names_of(final(self).players@) == names0
                        &&& hands_of(final(self).players@) == t.hands
                        &&& final(self).rounds@ == old(self).rounds@
                    },
                    RoundOutcome::GameWinner(p) => match t.verdict {
                        RoundVerdict::GameWon(k) => {
                            &&& 0 <= k < names0.len()
                            &&& p.name@ == names0[k]
                            &&& p.hand.cards@ == t.hands[k]
                            &&& p.hand.cards@.len() == 0
                            &&& names_of(final(self).players@) == names0
                            &&& hands_of(final(self).players@) == t.hands
                            &&& final(self).rounds@ == old(self).rounds@
                        },
                        _ => false,
                    },
                    RoundOutcome::RoundWinner(w) => match t.verdict {
                        RoundVerdict::RoundWon(k) => {
                            &&& 0 <= k < names0.len()
                            &&& w.name@ == names0[k]
                            &&& names_of(final(self).players@) == names0.subrange(
                                k,
                                names0.len() as int,
                            ) + names0.subrange(0, k)
                            &&& hands_of(final(self).players@) == t.hands.subrange(
                                k,
                                t.hands.len() as int,
                            ) + t.hands.subrange(0, k)
                            &&& final(self).rounds@.len() == old(self).rounds@.len() + 1
                            &&& round_wf(final(self).rounds@[final(self).rounds@.len() - 1])
                            &&& final(self).rounds@[final(self).rounds@.len() - 1].plays@.len()
                                > 0
                            &&& {
                                let rd = final(self).rounds@[final(self).rounds@.len() - 1];
                                rd.plays@[rd.plays@.len() - 1].player.name@ == w.name@
                            }
                            &&& final(self).players@[0].name@ == w.name@
                            &&& *final(pos) > *old(pos)
                        },
                        _ => false,
                    },
                }
            }),
    {
        let ghost names0 = names_of(old(self).players@);
        let ghost t = run_round(
            names0,
            hands_of(old(self).players@),
            Option::None,
            0,
            actions@,
            *old(pos) as int,
        );
        let n = self.players.len();
        let mut round = Round::new();
        let mut turn: usize = 0;
        loop
            invariant
                turn < n,
                n == self.players@.len(),
                n == old(self).players@.len(),
                n > 0,
                round_wf(round),
                names0 == names_of(old(self).players@),
                names_of(self.players@) == names0,
                self.rounds@ == old(self).rounds@,
                self.deck == old(self).deck,
                game_wf(*self),
                *old(pos) <= *pos <= actions@.len(),
                round.plays@.len() > 0 ==> *pos > *old(pos),
                t == run_round(
                    names0,
                    hands_of(old(self).players@),
                    Option::None,
                    0,
                    actions@,
                    *old(pos) as int,
                ),
                t == run_round(
                    names0,
                    hands_of(self.players@),
                    lead_abs(round),
                    turn as int,
                    actions@,
                    *pos as int,
                ),
            decreases actions@.len() - *pos,
        {
            proof {
                assert(names0[turn as int] == self.players@[turn as int].name@);
            }
            if round_complete(&round, &self.players, turn) {
                proof {
                    assert(t == RoundRun {
                        verdict: RoundVerdict::RoundWon(turn as int),
                        hands: hands_of(self.players@),
                        pos: *pos as int,
                    });
                }
                let ghost ps_mid = self.players@;
                let w = self.finish_round(round, turn);
                proof {
                    let k = turn as int;
                    let rot_ps = ps_mid.subrange(k, n as int) + ps_mid.subrange(0, k);
                    assert(self.players@ == rot_ps);
                    assert(names_of(self.players@) =~= names0.subrange(k, names0.len() as int)
                        + names0.subrange(0, k));
                    assert(hands_of(self.players@) =~= t.hands.subrange(k, t.hands.len() as int)
                        + t.hands.subrange(0, k));
                    assert(w.name@ == names0[k]);
                }
                return RoundOutcome::RoundWinner(w);
            }
            if *pos >= actions.len() {
                proof {
                    assert(t == RoundRun {
                        verdict: RoundVerdict::Unfinished,
                        hands: hands_of(self.players@),
                        pos: *pos as int,
                    });
                }
                return RoundOutcome::Incomplete;
            }
            let ghost ps_pre = self.players@;
            let ghost round_pre = round;
            let ghost turn_pre = turn as int;
            let ghost pos_pre = *pos as int;
            let action = &actions[*pos];
            *pos = *pos + 1;
            let res = self.take_turn(&mut round, &mut turn, action);
            proof {
                assert(actions@[pos_pre] == *action);
                match action {
                    TurnAction::Pass => {
                        assert(self.players@ == ps_pre);
                        assert(round == round_pre);
                        assert(turn as int == next_seat(turn_pre, n as int));
                    },
                    TurnAction::Submit(mask) => {
                        let hand0 = ps_pre[turn_pre].hand.cards@;
                        assert(hands_of(ps_pre)[turn_pre] == hand0);
                        let cs = selected_cards(hand0, mask@);
                        lemma_submission_legal_abs(cs, round_pre);
                        if res == ActionResult::Rejected {
                            assert(self.players@ == ps_pre);
                            assert(round == round_pre);
                            assert(turn as int == turn_pre);
                            assert(!(mask@.len() == hand0.len() && submission_legal_abs(
                                cs,
                                lead_abs(round_pre),
                            )));
                        } else {
                            let kept = kept_cards(hand0, mask@);
                            assert(mask@.len() == hand0.len() && submission_legal_abs(
                                cs,
                                lead_abs(round_pre),
                            ));
                            assert(self.players@ == ps_pre.update(
                                turn_pre,
                                self.players@[turn_pre],
                            ));
                            assert(self.players@[turn_pre].hand.cards@ == kept);
                            assert(hands_of(self.players@) =~= hands_of(ps_pre).update(
                                turn_pre,
                                kept,
                            ));
                            let p = round.plays@[round.plays@.len() - 1];
                            assert(cs.len() > 0);
                            assert(p.cards@.len() == cs.len());
                            assert(is_max_rank(p.rank, p.cards@));
                            lemma_max_rank_multiset(p.rank, p.cards@, cs);
                            assert(is_max_rank(max_rank_of(cs), cs)) by {
                                assert(is_max_rank(p.rank, cs));
                            }
                            lemma_max_rank_unique(p.rank, max_rank_of(cs), cs);
                            assert(lead_abs(round) == Option::Some(
                                LeadPlay {
                                    class: classify(cs),
                                    rank: max_rank_of(cs),
                                    count: cs.len() as int,
                                    owner: names0[turn_pre],
                                },
                            ));
                            if res == ActionResult::WonGame {
                                assert(kept.len() == 0);
                                assert(t == RoundRun {
                                    verdict: RoundVerdict::GameWon(turn_pre),
                                    hands: hands_of(ps_pre).update(turn_pre, kept),
                                    pos: pos_pre + 1,
                                });
                            } else {
                                assert(kept.len() > 0);
                                assert(turn as int == next_seat(turn_pre, n as int));
                            }
                        }
                    },
                }
            }
            match res {
                ActionResult::WonGame => {
                    let w = self.players[turn].clone();
                    proof {
                        assert(turn as int == turn_pre);
                        assert(self.players@[turn_pre].hand.cards@.len() == 0);
                        assert(w.name@ == names_of(self.players@)[turn_pre]);
                        assert(w.name@ == names0[turn_pre]);
                        assert(w.hand.cards@ == hands_of(self.players@)[turn_pre]);
                    }
                    return RoundOutcome::GameWinner(w);
                },
                _ => {},
            }
        }
    }

    /// Deal the deck, then run rounds against the listed decisions until an
    /// accepted play empties a hand — that player wins the game — or the
    /// decisions run out. Which player leads and how the cards fall is
    /// random, but for the dealt state the deal produced, the winner, the
    /// final seating and the final hands are exactly what the `run_game`
    /// interpreter computes from it and the decisions.
    pub fn start_game(&mut self, actions: Vec<TurnAction>) -> (r: Option<Player>)
        requires
            old(self).players@.len() > 0,
            old(self).deck.cards@.to_multiset().count(three_of_hearts()) > 0,
            game_wf(*old(self)),
        ensures
            game_wf(*final(self)),
            final(self).players@.len() == old(self).players@.len(),
            final(self).deck.cards@.len() == 0,
            match r {
                Option::Some(p) => {
                    &&& p.hand.cards@.len() == 0
                    &&& exists|i: int|
                        0 <= i < final(self).players@.len()
                            && final(self).players@[i].name@ == p.name@
                            && (#[trigger] final(self).players@[i]).hand.cards@.len() == 0
                },
                Option::None => true,
            },
            exists|dealt: Seq<Player>|
                {
                    &&& #[trigger] names_of(dealt).to_multiset() == names_of(
                        old(self).players@,
                    ).to_multiset()
                    &&& dealt.len() == old(self).players@.len()
                    &&& hands_ms(dealt) == hands_ms(old(self).players@).add(
                        old(self).deck.cards@.to_multiset(),
                    )
                    &&& dealt[0].hand.cards@.to_multiset().count(three_of_hearts()) > 0
                    &&& ({
                        let g = run_game(names_of(dealt), hands_of(dealt), actions@, 0);
                        &&& names_of(final(self).players@) == g.names
                        &&& hands_of(final(self).players@) == g.hands
                        &&& match r {
                            Option::Some(p) => g.winner == Option::Some(p.name@),
                            Option::None => g.winner == Option::<Seq<char>>::None && g.pos
                                == actions@.len(),
                        }
                    })
                },
    {
        self.deal_cards();
        let ghost dealt = self.players@;
        let ghost g = run_game(names_of(dealt), hands_of(dealt), actions@, 0);
        let mut pos: usize = 0;
        loop
            invariant
                pos <= actions@.len(),
                self.players@.len() == old(self).players@.len(),
                self.players@.len() > 0,
                self.deck.cards@.len() == 0,
                game_wf(*self),
                dealt.len() == old(self).players@.len(),
                names_of(dealt).to_multiset() == names_of(old(self).players@).to_multiset(),
                hands_ms(dealt) == hands_ms(old(self).players@).add(
                    old(self).deck.cards@.to_multiset(),
                ),
                dealt[0].hand.cards@.to_multiset().count(three_of_hearts()) > 0,
                g == run_game(names_of(dealt), hands_of(dealt), actions@, 0),
                g == run_game(
                    names_of(self.players@),
                    hands_of(self.players@),
                    actions@,
                    pos as int,
                ),
            decreases actions@.len() - pos,
        {
            let ghost names_cur = names_of(self.players@);
            let ghost hands_cur = hands_of(self.players@);
            let ghost pos_pre = pos as int;
            proof {
                lemma_run_round_bounds(
                    names_cur,
                    hands_cur,
                    Option::None,
                    0,
                    actions@,
                    pos_pre,
                );
            }
            let out = self.play_round(&actions, &mut pos);
            match out {
                RoundOutcome::GameWinner(p) => {
                    proof {
                        let rr = run_round(names_cur, hands_cur, Option::None, 0, actions@, pos_pre);
                        match rr.verdict {
                            RoundVerdict::GameWon(k) => {
                                assert(g == GameRun {
                                    winner: Option::Some(names_cur[k]),
                                    names: names_cur,
                                    hands: rr.hands,
                                    pos: rr.pos,
                                });
                            },
                            _ => {
                                assert(false);
                            },
                        }
                    }
                    return Option::Some(p);
                },
                RoundOutcome::RoundWinner(_) => {
                    proof {
                        let rr = run_round(names_cur, hands_cur, Option::None, 0, actions@, pos_pre);
                        match rr.verdict {
                            RoundVerdict::RoundWon(k) => {
                                assert(names_of(self.players@) == rotated(names_cur, k));
                                assert(hands_of(self.players@) == rotated(rr.hands, k));
                                assert(g == run_game(
                                    rotated(names_cur, k),
                                    rotated(rr.hands, k),
                                    actions@,
                                    rr.pos,
                                ));
                            },
                            _ => {
                                assert(false);
                            },
                        }
                    }
                },
                RoundOutcome::Incomplete => {
                    proof {
                        let rr = run_round(names_cur, hands_cur, Option::None, 0, actions@, pos_pre);
                        match rr.verdict {
                            RoundVerdict::Unfinished => {
                                assert(g == GameRun {
                                    winner: Option::None,
                                    names: names_cur,
                                    hands: rr.hands,
                                    pos: rr.pos,
                                });
                            },
                            _ => {
                                assert(false);
                            },
                        }
                    }
                    return Option::None;
                },
            }
        }
    }
}

} // verus!
