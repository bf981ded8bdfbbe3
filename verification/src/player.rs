//! A server-side player: a unique name, the hand it holds, and its score.
//! Players compare equal by name alone.
use vstd::prelude::*;
use crate::hand::Hand;
use crate::text::{str_eq, clone_string};

verus! {

pub struct Player {
    pub hand: Hand,
    pub name: String,
    pub score: u16,
}

impl Player {
    pub fn new(name: String) -> (p: Player)
        ensures
            p.name@ == name@,
            p.hand.cards@.len() == 0,
            p.score == 0,
    {
        Player { hand: Hand::new(), name, score: 0u16 }
    }
}

impl PartialEq for Player {
    /// Players are identified by name; hand and score do not matter.
    fn eq(&self, other: &Player) -> (r: bool) {
        str_eq(self.name.as_str(), other.name.as_str())
    }
}

impl vstd::std_specs::cmp::PartialEqSpecImpl for Player {
    open spec fn obeys_eq_spec() -> bool {
        true
    }

    open spec fn eq_spec(&self, other: &Player) -> bool {
        self.name@ == other.name@
    }
}

impl Clone for Player {
    fn clone(&self) -> (r: Player)
        ensures
            r.name@ == self.name@,
            r.hand.cards@ == self.hand.cards@,
            r.score == self.score,
    {
        Player { hand: self.hand.clone(), name: clone_string(&self.name), score: self.score }
    }
}

} // verus!
