//! When the stale devices of the list are next dropped: at most one cleanup
//! is pending, and it never moves to an earlier time.

use vstd::prelude::*;
use crate::devices::{fresh_part, is_next_cleanup, lemma_cleanup_moves_forward};

verus! {

/// The pending cleanup of the device list, if any: the time at which the
/// task that drops stale devices will run.
pub struct ScheduledCleanup {
    time: Option<u64>,
}

impl ScheduledCleanup {
    /// The time of the pending cleanup.
    pub closed spec fn pending(&self) -> Option<u64> {
        self.time
    }

    /// No cleanup is pending.
    pub fn new() -> (cleanup: Self)
        ensures
            cleanup.pending() is None,
    {
        ScheduledCleanup { time: None }
    }

    /// The time of the pending cleanup.
    pub fn scheduled_at(&self) -> (time: Option<u64>)
        ensures
            time == self.pending(),
    {
        self.time
    }

    /// Asks for a cleanup at `next`. When a cleanup at that very time is
    /// already pending nothing changes and `false` comes back; otherwise the
    /// pending cleanup (if any) is to be replaced by one at `next` and `true`
    /// comes back. A pending cleanup is never moved to an earlier time.
    pub fn schedule(&mut self, next: u64) -> (replace: bool)
        requires
            old(self).pending() matches Some(t) ==> t <= next,
        ensures
            replace == (old(self).pending() != Some(next)),
            final(self).pending() == Some(next),
    {
        match self.time {
            Some(t) => {
                if t == next {
                    return false;
                }
            },
            None => {},
        }
        self.time = Some(next);
        true
    }

    /// The pending cleanup ran, and the device list reported `next` as the
    /// time of the following one. With `None` nothing is pending any more and
    /// `false` comes back; with `Some` the cleanup is scheduled as `schedule`
    /// does.
    pub fn fired(&mut self, next: Option<u64>) -> (replace: bool)
        requires
            next matches Some(n) ==> (old(self).pending() matches Some(t) ==> t <= n),
        ensures
            match next {
                None => !replace && final(self).pending() is None,
                Some(n) => replace == (old(self).pending() != Some(n)) && final(self).pending() == Some(n),
            },
    {
        match next {
            Some(n) => self.schedule(n),
            None => {
                self.time = None;
                false
            },
        }
    }
}

/// A cleanup that runs no earlier than the pending time reports a following
/// cleanup later than the pending one, so `fired` accepts it and the pending
/// cleanup only ever moves forward.
pub proof fn lemma_fired_cleanup_moves_forward(pending: Option<u64>, seen: Map<u64, u64>, now: u64, next: u64)
    requires
        pending matches Some(t) ==> t <= now,
        is_next_cleanup(fresh_part(seen, now), next as int),
    ensures
        pending matches Some(t) ==> t < next,
{
    lemma_cleanup_moves_forward(seen, now, next as int);
}

} // verus!
