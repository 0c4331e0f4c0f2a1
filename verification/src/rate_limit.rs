use std::collections::VecDeque;

use vstd::prelude::*;

use crate::clock::{Duration, Instant};
use crate::error::BoundedSessionError;

verus! {

/// Whether a reservation made at `t` lies outside the window that ends at `now`.
/// One that is exactly a window old still counts.
pub open spec fn expired(t: Instant, now: Instant, window: Duration) -> bool {
    now.since(t) > window.nanos
}

/// The reservations left once the expired ones at the front have been dropped.
pub open spec fn unexpired(tracker: Seq<Instant>, now: Instant, window: Duration) -> Seq<Instant>
    decreases tracker.len(),
{
    if tracker.len() > 0 && expired(tracker[0], now, window) {
        unexpired(tracker.drop_first(), now, window)
    } else {
        tracker
    }
}

/// The sequence without the last occurrence of `t`, or unchanged if `t` does not occur.
pub open spec fn without_last(tracker: Seq<Instant>, t: Instant) -> Seq<Instant>
    decreases tracker.len(),
{
    if tracker.len() == 0 {
        tracker
    } else if tracker.last() == t {
        tracker.drop_last()
    } else {
        without_last(tracker.drop_last(), t).push(tracker.last())
    }
}

/// Where `t` does not occur, nothing is taken out.
pub(crate) proof fn lemma_without_last_absent(tracker: Seq<Instant>, t: Instant)
    requires
        !tracker.contains(t),
    ensures
        without_last(tracker, t) == tracker,
    decreases tracker.len(),
{
    if tracker.len() > 0 {
        assert(tracker.last() == tracker[tracker.len() - 1]);
        assert(!tracker.drop_last().contains(t)) by {
            assert forall|i: int| 0 <= i < tracker.drop_last().len() implies tracker.drop_last()[i]
                != t by {
                assert(tracker[i] != t);
            }
        }
        lemma_without_last_absent(tracker.drop_last(), t);
        assert(tracker.drop_last().push(tracker.last()) == tracker);
    }
}

/// What is taken out is the entry at the position of the last `t`.
pub(crate) proof fn lemma_without_last_removes(tracker: Seq<Instant>, t: Instant, pos: int)
    requires
        0 <= pos < tracker.len(),
        tracker[pos] == t,
        forall|i: int| pos < i < tracker.len() ==> tracker[i] != t,
    ensures
        without_last(tracker, t) == tracker.remove(pos),
    decreases tracker.len(),
{
    if pos == tracker.len() - 1 {
        assert(tracker.remove(pos) == tracker.drop_last());
    } else {
        lemma_without_last_removes(tracker.drop_last(), t, pos);
        assert(tracker.drop_last().remove(pos).push(tracker.last()) == tracker.remove(pos));
    }
}

/// The state of a rate limiter: at most `max_creates` reservations in any
/// window, and the reservations made so far that may still count, oldest first.
pub struct RateLimiterView {
    pub max_creates: nat,
    pub window: Duration,
    pub tracker: Seq<Instant>,
}

impl RateLimiterView {
    /// A limiter with no reservations.
    pub open spec fn fresh(max_creates: nat, window: Duration) -> RateLimiterView {
        RateLimiterView { max_creates, window, tracker: Seq::empty() }
    }

    /// The limiter once the reservations that have expired by `now` are forgotten.
    pub open spec fn pruned(self, now: Instant) -> RateLimiterView {
        RateLimiterView { tracker: unexpired(self.tracker, now, self.window), ..self }
    }

    /// Whether a reservation made at `now` is granted.
    pub open spec fn admits(self, now: Instant) -> bool {
        self.pruned(now).tracker.len() < self.max_creates
    }

    /// The limiter after a reservation is asked for at `now`.
    pub open spec fn reserved(self, now: Instant) -> RateLimiterView {
        let kept = self.pruned(now);
        if self.admits(now) {
            RateLimiterView { tracker: kept.tracker.push(now), ..kept }
        } else {
            kept
        }
    }

    /// The limiter after the slot reserved at `reserved_at` is given back.
    pub open spec fn rolled_back(self, reserved_at: Instant) -> RateLimiterView {
        RateLimiterView { tracker: without_last(self.tracker, reserved_at), ..self }
    }
}

/// Sliding-window rate limiter for session creation.
pub struct RateLimiter {
    max_creates: usize,
    window: Duration,
    tracker: VecDeque<Instant>,
}

impl View for RateLimiter {
    type V = RateLimiterView;

    closed spec fn view(&self) -> RateLimiterView {
        RateLimiterView {
            max_creates: self.max_creates as nat,
            window: self.window,
            tracker: self.tracker@,
        }
    }
}

impl RateLimiter {
    /// No more reservations are remembered than may be granted in one window.
    pub open spec fn wf(&self) -> bool {
        self@.tracker.len() <= self@.max_creates
    }

    /// A limiter that grants at most `max_creates` reservations in any rolling `window`.
    pub fn new(max_creates: usize, window: Duration) -> (limiter: RateLimiter)
        ensures
            limiter.wf(),
            limiter@ == RateLimiterView::fresh(max_creates as nat, window),
    {
        RateLimiter { max_creates, window, tracker: VecDeque::new() }
    }

    /// Reserves a slot at `now`, or fails with `RateLimited` if the window is full.
    /// A caller whose session creation fails afterwards gives the slot back with
    /// [`rollback`](Self::rollback), naming the instant returned here.
    pub fn reserve(&mut self, now: Instant) -> (slot: Result<Instant, BoundedSessionError>)
        requires
            old(self).wf(),
        ensures
            final(self).wf(),
            final(self)@ == old(self)@.reserved(now),
            slot == (if old(self)@.admits(now) {
                Ok::<Instant, BoundedSessionError>(now)
            } else {
                Err(BoundedSessionError::RateLimited)
            }),
    {
        loop
            invariant
                self.max_creates == old(self).max_creates,
                self.window == old(self).window,
                self.tracker@.len() <= old(self).max_creates,
                unexpired(self.tracker@, now, self.window) == unexpired(
                    old(self).tracker@,
                    now,
                    self.window,
                ),
            ensures
                self.tracker@ == unexpired(old(self).tracker@, now, self.window),
            decreases self.tracker@.len(),
        {
            if self.tracker.len() == 0 {
                break;
            }
            if now.duration_since(self.tracker[0]).nanos <= self.window.nanos {
                break;
            }
            self.tracker.pop_front();
        }
        if self.tracker.len() >= self.max_creates {
            return Err(BoundedSessionError::RateLimited);
        }
        self.tracker.push_back(now);
        Ok(now)
    }

    /// Gives back the slot reserved at `reserved_at`. Under concurrent use later
    /// reservations may stand behind it, so it is looked for from the back; one
    /// entry leaves at most.
    pub fn rollback(&mut self, reserved_at: Instant)
        requires
            old(self).wf(),
        ensures
            final(self).wf(),
            final(self)@ == old(self)@.rolled_back(reserved_at),
    {
        let mut pos: usize = self.tracker.len();
        while pos > 0
            invariant
                *self == *old(self),
                old(self).wf(),
                pos <= self.tracker@.len(),
                forall|i: int| pos <= i < self.tracker@.len() ==> self.tracker@[i] != reserved_at,
            decreases pos,
        {
            pos -= 1;
            if self.tracker[pos] == reserved_at {
                proof {
                    lemma_without_last_removes(self.tracker@, reserved_at, pos as int);
                }
                self.tracker.remove(pos);
                return;
            }
        }
        proof {
            lemma_without_last_absent(self.tracker@, reserved_at);
        }
    }
}

} // verus!
