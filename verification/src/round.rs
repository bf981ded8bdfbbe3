//! A round: the append-only log of accepted plays, in turn order. The last
//! entry is the leading play. Legality is enforced by the game loop before a
//! play is recorded, so the round itself stays a plain ledger.
use vstd::prelude::*;
use crate::play::{Play, play_allowed, play_wf};

verus! {

pub struct Round {
    pub plays: Vec<Play>,
}

/// Every recorded play is well formed and legal over the play before it, and
/// the opening play is legal with nothing to beat: a round never holds an
/// illegal or `Invalid` play.
pub open spec fn round_wf(r: Round) -> bool {
    &&& forall|i: int| 0 <= i < r.plays@.len() ==> play_wf(#[trigger] r.plays@[i])
    &&& forall|i: int|
        0 <= i < r.plays@.len() ==> play_allowed(
            #[trigger] r.plays@[i],
            if i == 0 {
                Option::None
            } else {
                Option::Some(r.plays@[i - 1])
            },
        )
}

impl Round {
    pub fn new() -> (r: Round)
        ensures
            r.plays@.len() == 0,
            round_wf(r),
    {
        Round { plays: Vec::new() }
    }

    /// Append a play. The caller must have validated it: it must be well
    /// formed and legal over the current leading play, which keeps
    /// `round_wf` an invariant of every round ever built.
    pub fn add_play(&mut self, play: Play)
        requires
            play_wf(play),
            play_allowed(
                play,
                if old(self).plays@.len() == 0 {
                    Option::None
                } else {
                    Option::Some(old(self).plays@[old(self).plays@.len() - 1])
                },
            ),
        ensures
            final(self).plays@ == old(self).plays@.push(play),
    {
        self.plays.push(play);
    }
}

/// `add_play` preserves round well-formedness.
pub proof fn lemma_add_play_preserves_wf(r: Round, r2: Round, play: Play)
    requires
        round_wf(r),
        play_wf(play),
        play_allowed(
            play,
            if r.plays@.len() == 0 {
                Option::None
            } else {
                Option::Some(r.plays@[r.plays@.len() - 1])
            },
        ),
        r2.plays@ == r.plays@.push(play),
    ensures
        round_wf(r2),
{
    assert forall|i: int| 0 <= i < r2.plays@.len() implies play_wf(#[trigger] r2.plays@[i]) by {
        if i < r.plays@.len() {
            assert(r2.plays@[i] == r.plays@[i]);
        }
    }
    assert forall|i: int|
        0 <= i < r2.plays@.len() implies play_allowed(
        #[trigger] r2.plays@[i],
        if i == 0 {
            Option::None
        } else {
            Option::Some(r2.plays@[i - 1])
        },
    ) by {
        if i < r.plays@.len() {
            assert(r2.plays@[i] == r.plays@[i]);
            if i > 0 {
                assert(r2.plays@[i - 1] == r.plays@[i - 1]);
            }
        }
    }
}

} // verus!
