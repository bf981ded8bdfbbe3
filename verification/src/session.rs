//! The server's player registry: who is connected, over which connection,
//! and when they were last heard from. Names are unique, must be acceptable
//! to the wire protocol, and silent players are pruned after a fixed
//! inactivity timeout. The registry only decides; performing the I/O
//! on the connections it numbers is its caller's business.
use vstd::prelude::*;
use crate::player::Player;
use crate::text::{str_eq, str_contains_char};

verus! {

/// One connected player: the player record, the caller's handle for the
/// connection, and the time the player was last heard from.
pub struct SessionEntry {
    pub player: Player,
    pub conn: usize,
    pub last_active: u64,
}

/// Registered names are pairwise distinct.
pub open spec fn registry_wf(entries: Seq<SessionEntry>) -> bool {
    forall|i: int, j: int|
        0 <= i < j < entries.len() ==> (#[trigger] entries[i]).player.name@
            != (#[trigger] entries[j]).player.name@
}

/// Why a registration was refused.
#[derive(Clone, Copy, Debug, PartialEq, Eq, Structural)]
pub enum RegisterError {
    /// The name contains the reserved separator `/`, the frame terminator
    /// NUL, or a space (the name/cards separator in play broadcasts).
    InvalidName,
    /// Another connected player already holds this name.
    DuplicateName,
}

/// A name the protocol accepts: free of the separator `/`, of the NUL byte
/// that terminates frames, and of the space that separates a play
/// broadcast's name from its card tokens (a name with a space could not be
/// re-parsed from such a frame).
pub open spec fn name_acceptable(name: Seq<char>) -> bool {
    !name.contains('/') && !name.contains('\0') && !name.contains(' ')
}

/// An entry survives pruning when it has been heard from within the timeout.
pub open spec fn session_fresh(e: SessionEntry, now: u64, timeout: u64) -> bool {
    now < e.last_active || now - e.last_active <= timeout
}

/// The pruning predicate for entries that stay.
pub open spec fn fresh_pred(now: u64, timeout: u64) -> spec_fn(SessionEntry) -> bool {
    |e: SessionEntry| session_fresh(e, now, timeout)
}

/// The pruning predicate for entries that go.
pub open spec fn stale_pred(now: u64, timeout: u64) -> spec_fn(SessionEntry) -> bool {
    |e: SessionEntry| !session_fresh(e, now, timeout)
}

pub struct Registry {
    pub entries: Vec<SessionEntry>,
}

impl Registry {
    pub fn new() -> (r: Registry)
        ensures
            r.entries@.len() == 0,
            registry_wf(r.entries@),
    {
        Registry { entries: Vec::new() }
    }

    /// The position of the player with this name, if one is registered.
    pub fn find(&self, name: &str) -> (r: Option<usize>)
        ensures
            match r {
                Option::Some(i) => i < self.entries@.len()
                    && self.entries@[i as int].player.name@ == name@,
                Option::None => forall|i: int|
                    0 <= i < self.entries@.len() ==> (#[trigger] self.entries@[i]).player.name@
                        != name@,
            },
    {
        let mut i: usize = 0;
        while i < self.entries.len()
            invariant
                i <= self.entries@.len(),
                forall|j: int|
                    0 <= j < i ==> (#[trigger] self.entries@[j]).player.name@ != name@,
            decreases self.entries.len() - i,
        {
            if str_eq(self.entries[i].player.name.as_str(), name) {
                return Option::Some(i);
            }
            i = i + 1;
        }
        Option::None
    }

    /// Register a new player. The name must be acceptable to the protocol
    /// (no `/`, NUL or space) and not yet taken; exactly then the player
    /// joins, with a fresh hand and the current time as its liveness mark.
    pub fn register(&mut self, name: String, conn: usize, now: u64) -> (r: Result<
        (),
        RegisterError,
    >)
        requires
            registry_wf(old(self).entries@),
        ensures
            registry_wf(final(self).entries@),
            !name_acceptable(name@) ==> r == Result::<(), RegisterError>::Err(
                RegisterError::InvalidName,
            ) && *final(self) == *old(self),
            name_acceptable(name@) && (exists|i: int|
                0 <= i < old(self).entries@.len() && (#[trigger] old(
                    self,
                ).entries@[i]).player.name@ == name@) ==> r == Result::<(), RegisterError>::Err(
                RegisterError::DuplicateName,
            ) && *final(self) == *old(self),
            name_acceptable(name@) && (forall|i: int|
                0 <= i < old(self).entries@.len() ==> (#[trigger] old(
                    self,
                ).entries@[i]).player.name@ != name@) ==> r == Result::<(), RegisterError>::Ok(())
                && final(self).entries@.len() == old(self).entries@.len() + 1
                && final(self).entries@ == old(self).entries@.push(
                final(self).entries@[old(self).entries@.len() as int],
            ) && {
                let e = final(self).entries@[old(self).entries@.len() as int];
                &&& e.player.name@ == name@
                &&& e.player.hand.cards@.len() == 0
                &&& e.player.score == 0
                &&& e.conn == conn
                &&& e.last_active == now
            },
    {
        if str_contains_char(name.as_str(), '/') || str_contains_char(name.as_str(), '\0')
            || str_contains_char(name.as_str(), ' ') {
            return Result::Err(RegisterError::InvalidName);
        }
        match self.find(name.as_str()) {
            Option::Some(_) => Result::Err(RegisterError::DuplicateName),
            Option::None => {
                let entry = SessionEntry { player: Player::new(name), conn, last_active: now };
                self.entries.push(entry);
                Result::Ok(())
            },
        }
    }

    /// Record a heartbeat: refresh the named player's liveness mark. Returns
    /// whether the player was found.
    pub fn heartbeat(&mut self, name: &str, now: u64) -> (r: bool)
        requires
            registry_wf(old(self).entries@),
        ensures
            registry_wf(final(self).entries@),
            r == (exists|i: int|
                0 <= i < old(self).entries@.len() && (#[trigger] old(
                    self,
                ).entries@[i]).player.name@ == name@),
            !r ==> *final(self) == *old(self),
            r ==> exists|i: int|
                {
                    &&& 0 <= i < old(self).entries@.len()
                    &&& (#[trigger] old(self).entries@[i]).player.name@ == name@
                    &&& final(self).entries@ == old(self).entries@.update(
                        i,
                        final(self).entries@[i],
                    )
                    &&& final(self).entries@[i].player == old(self).entries@[i].player
                    &&& final(self).entries@[i].conn == old(self).entries@[i].conn
                    &&& final(self).entries@[i].last_active == now
                },
    {
        let i = match self.find(name) {
            Option::Some(i) => i,
            Option::None => {
                return false;
            },
        };
        let ghost pre = self.entries@;
        let e = self.entries.remove(i);
        let e2 = SessionEntry { player: e.player, conn: e.conn, last_active: now };
        self.entries.insert(i, e2);
        proof {
            assert(self.entries@ =~= pre.update(i as int, self.entries@[i as int]));
            assert forall|a: int, b: int|
                0 <= a < b < self.entries@.len() implies (#[trigger] self.entries@[a]).player.name@
                != (#[trigger] self.entries@[b]).player.name@ by {
                assert(pre[a].player.name@ != pre[b].player.name@);
            }
        }
        true
    }

    /// Drop every player not heard from within the timeout, preserving the
    /// order of the rest, and hand back exactly the dropped entries so the
    /// caller can close their connections.
    pub fn prune(&mut self, now: u64, timeout: u64) -> (removed: Vec<SessionEntry>)
        requires
            registry_wf(old(self).entries@),
        ensures
            registry_wf(final(self).entries@),
            final(self).entries@ == old(self).entries@.filter(fresh_pred(now, timeout)),
            removed@ == old(self).entries@.filter(stale_pred(now, timeout)),
    {
        let ghost orig = self.entries@;
        let mut kept: Vec<SessionEntry> = Vec::new();
        let mut dropped: Vec<SessionEntry> = Vec::new();
        proof {
            reveal(Seq::filter);
            assert(orig.subrange(0, 0) =~= Seq::<SessionEntry>::empty());
            assert(Seq::<SessionEntry>::empty().filter(fresh_pred(now, timeout)) =~= Seq::<
                SessionEntry,
            >::empty());
            assert(Seq::<SessionEntry>::empty().filter(stale_pred(now, timeout)) =~= Seq::<
                SessionEntry,
            >::empty());
        }
        while self.entries.len() > 0
            invariant
                self.entries@.len() <= orig.len(),
                self.entries@ == orig.skip(orig.len() - self.entries@.len()),
                kept@ == orig.subrange(0, orig.len() - self.entries@.len()).filter(
                    fresh_pred(now, timeout),
                ),
                dropped@ == orig.subrange(0, orig.len() - self.entries@.len()).filter(
                    stale_pred(now, timeout),
                ),
            decreases self.entries@.len(),
        {
            broadcast use vstd::seq::Seq::lemma_filter_push;

            let ghost processed = orig.len() - self.entries@.len();
            let e = self.entries.remove(0);
            proof {
                assert(e == orig[processed as int]);
                assert(self.entries@ =~= orig.skip(processed + 1));
                assert(orig.subrange(0, processed + 1) =~= orig.subrange(
                    0,
                    processed as int,
                ).push(e));
            }
            let fresh = now < e.last_active || now - e.last_active <= timeout;
            proof {
                assert(fresh == fresh_pred(now, timeout)(e));
                assert(!fresh == stale_pred(now, timeout)(e));
            }
            if fresh {
                kept.push(e);
            } else {
                dropped.push(e);
            }
        }
        proof {
            assert(orig.subrange(0, orig.len() as int) =~= orig);
            lemma_registry_wf_filter(orig, fresh_pred(now, timeout));
        }
        self.entries = kept;
        dropped
    }
}

/// Filtering keeps registered names pairwise distinct: every kept entry is
/// one of the original entries, so no duplicate can appear.
proof fn lemma_registry_wf_filter(s: Seq<SessionEntry>, pred: spec_fn(SessionEntry) -> bool)
    requires
        registry_wf(s),
    ensures
        registry_wf(s.filter(pred)),
        forall|i: int|
            0 <= i < s.filter(pred).len() ==> exists|j: int|
                0 <= j < s.len() && s[j] == #[trigger] s.filter(pred)[i],
    decreases s.len(),
{
    reveal(Seq::filter);
    if s.len() == 0 {
    } else {
        let d = s.drop_last();
        assert(registry_wf(d)) by {
            assert forall|a: int, b: int|
                0 <= a < b < d.len() implies (#[trigger] d[a]).player.name@
                != (#[trigger] d[b]).player.name@ by {
                assert(s[a].player.name@ != s[b].player.name@);
            }
        }
        lemma_registry_wf_filter(d, pred);
        let f = d.filter(pred);
        assert forall|i: int| 0 <= i < f.len() implies (#[trigger] f[i]).player.name@
            != s[s.len() - 1].player.name@ by {
            let j = choose|j: int| 0 <= j < d.len() && d[j] == f[i];
            assert(s[j] == d[j]);
            assert(s[j].player.name@ != s[s.len() - 1].player.name@);
        }
        if pred(s.last()) {
            assert(s.filter(pred) == f.push(s.last()));
            assert forall|a: int, b: int|
                0 <= a < b < f.push(s.last()).len() implies (#[trigger] f.push(
                s.last(),
            )[a]).player.name@ != (#[trigger] f.push(s.last())[b]).player.name@ by {
                if b < f.len() {
                    assert(f[a].player.name@ != f[b].player.name@);
                } else {
                    assert(f.push(s.last())[b] == s.last());
                    assert(f[a].player.name@ != s[s.len() - 1].player.name@);
                }
            }
            assert forall|i: int|
                0 <= i < s.filter(pred).len() implies exists|j: int|
                    0 <= j < s.len() && s[j] == #[trigger] s.filter(pred)[i] by {
                if i < f.len() {
                    let j = choose|j: int| 0 <= j < d.len() && d[j] == f[i];
                    assert(s[j] == s.filter(pred)[i]);
                } else {
                    assert(s[s.len() - 1] == s.filter(pred)[i]);
                }
            }
        } else {
            assert(s.filter(pred) == f);
            assert forall|i: int|
                0 <= i < s.filter(pred).len() implies exists|j: int|
                    0 <= j < s.len() && s[j] == #[trigger] s.filter(pred)[i] by {
                let j = choose|j: int| 0 <= j < d.len() && d[j] == f[i];
                assert(s[j] == s.filter(pred)[i]);
            }
        }
    }
}

} // verus!
