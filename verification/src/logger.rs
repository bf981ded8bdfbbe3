//! An in-memory log with per-entry time-to-live. Rendering is not its
//! business: callers pass the current time in and read the entries out, so
//! the pruning rule — an entry with ttl 0 stays forever, any other entry
//! stays while younger than its ttl — is decided here and only here.
use vstd::prelude::*;

verus! {

pub struct LogEntry {
    pub message: String,
    /// When the entry was logged.
    pub at: u64,
    /// How long the entry stays; 0 means forever.
    pub ttl: u64,
}

/// An entry is still shown at time `now`: permanent, or younger than its
/// time-to-live (a clock that moved backwards counts as age 0).
pub open spec fn log_fresh(e: LogEntry, now: u64) -> bool {
    e.ttl == 0 || (if now >= e.at {
        now - e.at
    } else {
        0
    }) < e.ttl
}

/// The pruning predicate for log entries that stay.
pub open spec fn log_fresh_pred(now: u64) -> spec_fn(LogEntry) -> bool {
    |e: LogEntry| log_fresh(e, now)
}

pub struct Logger {
    pub entries: Vec<LogEntry>,
}

impl Logger {
    pub fn new() -> (l: Logger)
        ensures
            l.entries@.len() == 0,
    {
        Logger { entries: Vec::new() }
    }

    /// Append a message logged at time `now` that lives for `ttl` time
    /// units (0: forever).
    pub fn log(&mut self, message: String, now: u64, ttl: u64)
        ensures
            final(self).entries@.len() == old(self).entries@.len() + 1,
            final(self).entries@ == old(self).entries@.push(
                final(self).entries@[old(self).entries@.len() as int],
            ),
            final(self).entries@[old(self).entries@.len() as int].message@ == message@,
            final(self).entries@[old(self).entries@.len() as int].at == now,
            final(self).entries@[old(self).entries@.len() as int].ttl == ttl,
    {
        self.entries.push(LogEntry { message, at: now, ttl });
    }

    /// Drop the timed-out entries, keeping the rest in order.
    pub fn clean(&mut self, now: u64)
        ensures
            final(self).entries@ == old(self).entries@.filter(log_fresh_pred(now)),
    {
        let ghost orig = self.entries@;
        let mut kept: Vec<LogEntry> = Vec::new();
        proof {
            reveal(Seq::filter);
            assert(orig.subrange(0, 0) =~= Seq::<LogEntry>::empty());
            assert(Seq::<LogEntry>::empty().filter(log_fresh_pred(now)) =~= Seq::<
                LogEntry,
            >::empty());
        }
        while self.entries.len() > 0
            invariant
                self.entries@.len() <= orig.len(),
                self.entries@ == orig.skip(orig.len() - self.entries@.len()),
                kept@ == orig.subrange(0, orig.len() - self.entries@.len()).filter(
                    log_fresh_pred(now),
                ),
            decreases self.entries@.len(),
        {
            broadcast use vstd::seq::Seq::lemma_filter_push;

            let ghost processed = orig.len() - self.entries@.len();
            let e = self.entries.remove(0);
            proof {
                assert(e == orig[processed as int]);
                assert(self.entries@ =~= orig.skip(processed + 1));
                assert(orig.subrange(0, processed + 1) =~= orig.subrange(
                    0,
                    processed as int,
                ).push(e));
            }
            let fresh = e.ttl == 0 || (if now >= e.at {
                now - e.at
            } else {
                0
            }) < e.ttl;
            proof {
                assert(fresh == log_fresh_pred(now)(e));
            }
            if fresh {
                kept.push(e);
            }
        }
        proof {
            assert(orig.subrange(0, orig.len() as int) =~= orig);
        }
        self.entries = kept;
    }
}

} // verus!
