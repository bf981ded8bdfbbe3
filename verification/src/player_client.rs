//! A client-local projection of a player: the client never sees another
//! player's cards, only how many they hold. Equality is by name.
use vstd::prelude::*;
use crate::text::{str_eq, clone_string};

verus! {

pub struct PlayerClient {
    pub num_cards: u16,
    pub name: String,
    pub score: u16,
}

impl PlayerClient {
    pub fn new(name: String) -> (p: PlayerClient)
        ensures
            p.name@ == name@,
            p.num_cards == 0,
            p.score == 0,
    {
        PlayerClient { num_cards: 0u16, name, score: 0u16 }
    }
}

impl PartialEq for PlayerClient {
    /// Client-side players are identified by name alone.
    fn eq(&self, other: &PlayerClient) -> (r: bool) {
        str_eq(self.name.as_str(), other.name.as_str())
    }
}

impl vstd::std_specs::cmp::PartialEqSpecImpl for PlayerClient {
    open spec fn obeys_eq_spec() -> bool {
        true
    }

    open spec fn eq_spec(&self, other: &PlayerClient) -> bool {
        self.name@ == other.name@
    }
}

impl Clone for PlayerClient {
    fn clone(&self) -> (r: PlayerClient)
        ensures
            r.name@ == self.name@,
            r.num_cards == self.num_cards,
            r.score == self.score,
    {
        PlayerClient {
            num_cards: self.num_cards,
            name: clone_string(&self.name),
            score: self.score,
        }
    }
}

} // verus!
