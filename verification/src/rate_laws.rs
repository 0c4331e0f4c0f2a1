use vstd::prelude::*;

use crate::clock::{Duration, Instant};
use crate::rate_limit::{
    expired, lemma_without_last_absent, lemma_without_last_removes, unexpired, without_last,
    RateLimiterView,
};

verus! {

/// What may be asked of a rate limiter.
pub enum LimiterEvent {
    /// A slot is asked for at `now`.
    Reserve { now: Instant },
    /// The slot reserved at `reserved_at` is given back.
    Rollback { reserved_at: Instant },
}

/// A rate limiter beside the record of every slot that it granted and that was
/// not given back, in the order in which they were granted.
pub struct LimiterHistory {
    pub limiter: RateLimiterView,
    pub granted: Seq<Instant>,
}

impl LimiterHistory {
    /// A limiter that has granted nothing yet.
    pub open spec fn start(max_creates: nat, window: Duration) -> LimiterHistory {
        LimiterHistory {
            limiter: RateLimiterView::fresh(max_creates, window),
            granted: Seq::empty(),
        }
    }

    /// The history after one more event.
    pub open spec fn after(self, event: LimiterEvent) -> LimiterHistory {
        match event {
            LimiterEvent::Reserve { now } => LimiterHistory {
                limiter: self.limiter.reserved(now),
                granted: if self.limiter.admits(now) {
                    self.granted.push(now)
                } else {
                    self.granted
                },
            },
            LimiterEvent::Rollback { reserved_at } => LimiterHistory {
                limiter: self.limiter.rolled_back(reserved_at),
                granted: without_last(self.granted, reserved_at),
            },
        }
    }

    /// The history after a sequence of events.
    pub open spec fn after_all(self, events: Seq<LimiterEvent>) -> LimiterHistory
        decreases events.len(),
    {
        if events.len() == 0 {
            self
        } else {
            self.after_all(events.drop_last()).after(events.last())
        }
    }

    /// Any two grants that are `max_creates` apart are more than a window apart:
    /// no window of that length holds more than `max_creates` grants.
    pub open spec fn spaced(self) -> bool {
        forall|i: int, j: int|
            #![trigger self.granted[i], self.granted[j]]
            0 <= i && i + self.limiter.max_creates <= j < self.granted.len() ==> expired(
                self.granted[i],
                self.granted[j],
                self.limiter.window,
            )
    }

    /// The limiter remembers the latest grants, and those that it has
    /// forgotten had expired by `last`.
    spec fn consistent(self, last: Instant) -> bool {
        let n = self.granted.len() as int;
        let d = n - self.limiter.tracker.len();
        &&& d >= 0
        &&& self.limiter.tracker == self.granted.skip(d)
        &&& forall|i: int, j: int| 0 <= i <= j < n ==> self.granted[i].nanos <= self.granted[j].nanos
        &&& forall|i: int| 0 <= i < n ==> (#[trigger] self.granted[i]).nanos <= last.nanos
        &&& forall|i: int|
            0 <= i < d ==> expired(#[trigger] self.granted[i], last, self.limiter.window)
        &&& self.spaced()
    }
}

/// The instants at which slots are asked for never run backwards.
pub open spec fn clock_monotonic(events: Seq<LimiterEvent>) -> bool {
    forall|i: int, j: int|
        0 <= i <= j < events.len() && #[trigger] events[i] is Reserve && #[trigger] events[j] is Reserve
            ==> events[i]->now.nanos <= events[j]->now.nanos
}

/// The latest instant at which a slot was asked for, where the time was `from`
/// before the events.
spec fn latest(from: Instant, events: Seq<LimiterEvent>) -> Instant
    decreases events.len(),
{
    if events.len() == 0 {
        from
    } else {
        match events.last() {
            LimiterEvent::Reserve { now } => now,
            LimiterEvent::Rollback { .. } => latest(from, events.drop_last()),
        }
    }
}

/// No slot is asked for earlier than `from`, or than one before it.
spec fn in_order(from: Instant, events: Seq<LimiterEvent>) -> bool
    decreases events.len(),
{
    events.len() > 0 ==> {
        &&& in_order(from, events.drop_last())
        &&& events.last() matches LimiterEvent::Reserve { now } ==> latest(
            from,
            events.drop_last(),
        ).nanos <= now.nanos
    }
}

proof fn lemma_latest(from: Instant, events: Seq<LimiterEvent>)
    ensures
        latest(from, events) == from || exists|i: int|
            0 <= i < events.len() && #[trigger] events[i] == (LimiterEvent::Reserve {
                now: latest(from, events),
            }),
    decreases events.len(),
{
    if events.len() > 0 {
        lemma_latest(from, events.drop_last());
        match events.last() {
            LimiterEvent::Reserve { now } => {
                assert(events[events.len() - 1] == events.last());
            },
            LimiterEvent::Rollback { .. } => {
                if latest(from, events) != from {
                    let i = choose|i: int|
                        0 <= i < events.drop_last().len() && #[trigger] events.drop_last()[i] == (
                        LimiterEvent::Reserve { now: latest(from, events) });
                    assert(events[i] == events.drop_last()[i]);
                }
            },
        }
    }
}

proof fn lemma_monotonic_in_order(events: Seq<LimiterEvent>)
    requires
        clock_monotonic(events),
    ensures
        in_order(Instant { nanos: 0 }, events),
    decreases events.len(),
{
    let from = Instant { nanos: 0 };
    if events.len() > 0 {
        let before = events.drop_last();
        assert(clock_monotonic(before)) by {
            assert forall|i: int, j: int|
                0 <= i <= j < before.len() && #[trigger] before[i] is Reserve
                    && #[trigger] before[j] is Reserve implies before[i]->now.nanos
                <= before[j]->now.nanos by {
                assert(events[i] == before[i] && events[j] == before[j]);
            }
        }
        lemma_monotonic_in_order(before);
        lemma_latest(from, before);
        let last = latest(from, before);
        if last != from {
            let i = choose|i: int|
                0 <= i < before.len() && #[trigger] before[i] == (LimiterEvent::Reserve {
                    now: last,
                });
            assert(events[i] == before[i]);
            assert(events[events.len() - 1] == events.last());
        }
    }
}

/// Events in order stay so when they are taken in two runs, one after the other.
proof fn lemma_in_order_split(from: Instant, first: Seq<LimiterEvent>, second: Seq<LimiterEvent>)
    requires
        in_order(from, first + second),
    ensures
        in_order(from, first),
        in_order(latest(from, first), second),
        latest(from, first + second) == latest(latest(from, first), second),
    decreases second.len(),
{
    let all = first + second;
    if second.len() == 0 {
        assert(all == first);
    } else {
        assert(all.drop_last() == first + second.drop_last());
        assert(all.last() == second.last());
        lemma_in_order_split(from, first, second.drop_last());
    }
}

/// Dropping the expired reservations at the front of a sequence leaves a suffix
/// of it; what was dropped has expired, and the first that is left has not.
proof fn lemma_unexpired_suffix(tracker: Seq<Instant>, now: Instant, window: Duration)
    ensures
        unexpired(tracker, now, window).len() <= tracker.len(),
        unexpired(tracker, now, window) == tracker.skip(
            tracker.len() - unexpired(tracker, now, window).len(),
        ),
        forall|i: int|
            0 <= i < tracker.len() - unexpired(tracker, now, window).len() ==> expired(
                #[trigger] tracker[i],
                now,
                window,
            ),
        unexpired(tracker, now, window).len() > 0 ==> !expired(
            unexpired(tracker, now, window)[0],
            now,
            window,
        ),
    decreases tracker.len(),
{
    if tracker.len() > 0 && expired(tracker[0], now, window) {
        let rest = tracker.drop_first();
        lemma_unexpired_suffix(rest, now, window);
        let kept = unexpired(rest, now, window);
        assert(rest.skip(rest.len() - kept.len()) == tracker.skip(tracker.len() - kept.len()));
        assert forall|i: int| 0 <= i < tracker.len() - kept.len() implies expired(
            #[trigger] tracker[i],
            now,
            window,
        ) by {
            if i > 0 {
                assert(tracker[i] == rest[i - 1]);
            }
        }
    } else {
        assert(tracker.skip(0) == tracker);
    }
}

proof fn lemma_reserve_keeps(h: LimiterHistory, last: Instant, now: Instant)
    requires
        h.consistent(last),
        last.nanos <= now.nanos,
    ensures
        h.after(LimiterEvent::Reserve { now }).consistent(now),
        h.limiter.max_creates > 0 ==> (h.limiter.admits(now) <==> h.granted.len()
            < h.limiter.max_creates || expired(
            h.granted[h.granted.len() - h.limiter.max_creates],
            now,
            h.limiter.window,
        )),
{
    let window = h.limiter.window;
    let max = h.limiter.max_creates as int;
    let n = h.granted.len() as int;
    let tracker = h.limiter.tracker;
    let kept = unexpired(tracker, now, window);
    let d = n - tracker.len();
    let e = n - kept.len();
    lemma_unexpired_suffix(tracker, now, window);
    assert(kept == h.granted.skip(e));
    assert forall|i: int| 0 <= i < e implies expired(#[trigger] h.granted[i], now, window) by {
        if i >= d {
            assert(tracker[i - d] == h.granted[i]);
        }
    }
    if kept.len() > 0 {
        assert(kept[0] == h.granted[e]);
        assert forall|i: int| e <= i < n implies !expired(#[trigger] h.granted[i], now, window) by {
            assert(h.granted[e].nanos <= h.granted[i].nanos);
        }
    }
    let g = h.after(LimiterEvent::Reserve { now });
    if h.limiter.admits(now) {
        assert(g.granted.skip(e) == kept.push(now));
        assert forall|i: int, j: int|
            #![trigger g.granted[i], g.granted[j]]
            0 <= i && i + max <= j < g.granted.len() implies expired(
            g.granted[i],
            g.granted[j],
            window,
        ) by {
            if j < n {
                assert(g.granted[i] == h.granted[i] && g.granted[j] == h.granted[j]);
            } else {
                assert(i < e);
                assert(g.granted[i] == h.granted[i]);
            }
        }
    }
}

proof fn lemma_rollback_keeps(h: LimiterHistory, last: Instant, t: Instant)
    requires
        h.consistent(last),
    ensures
        h.after(LimiterEvent::Rollback { reserved_at: t }).consistent(last),
{
    let granted = h.granted;
    let tracker = h.limiter.tracker;
    let n = granted.len() as int;
    let d = n - tracker.len();
    if !granted.contains(t) {
        assert forall|i: int| 0 <= i < tracker.len() implies tracker[i] != t by {
            assert(tracker[i] == granted[d + i]);
        }
        lemma_without_last_absent(granted, t);
        lemma_without_last_absent(tracker, t);
    } else {
        let p = lemma_last_position(granted, t);
        lemma_without_last_removes(granted, t, p);
        if p >= d {
            assert(tracker[p - d] == t);
            lemma_without_last_removes(tracker, t, p - d);
            assert(tracker.remove(p - d) == granted.remove(p).skip(d));
        } else {
            assert forall|i: int| 0 <= i < tracker.len() implies tracker[i] != t by {
                assert(tracker[i] == granted[d + i]);
            }
            lemma_without_last_absent(tracker, t);
            assert(tracker == granted.remove(p).skip(d - 1));
        }
        let g = h.after(LimiterEvent::Rollback { reserved_at: t });
        let max = h.limiter.max_creates as int;
        assert(g.granted == granted.remove(p));
        assert forall|i: int, j: int|
            #![trigger g.granted[i], g.granted[j]]
            0 <= i && i + max <= j < g.granted.len() implies expired(
            g.granted[i],
            g.granted[j],
            h.limiter.window,
        ) by {
            let i0 = if i < p { i } else { i + 1 };
            let j0 = if j < p { j } else { j + 1 };
            assert(g.granted[i] == granted[i0] && g.granted[j] == granted[j0]);
        }
    }
}

/// The position of the last occurrence of `t`.
proof fn lemma_last_position(s: Seq<Instant>, t: Instant) -> (p: int)
    requires
        s.contains(t),
    ensures
        0 <= p < s.len(),
        s[p] == t,
        forall|i: int| p < i < s.len() ==> s[i] != t,
    decreases s.len(),
{
    if s.last() == t {
        s.len() - 1
    } else {
        let k = choose|k: int| 0 <= k < s.len() && s[k] == t;
        assert(s.drop_last()[k] == t);
        let p = lemma_last_position(s.drop_last(), t);
        assert(s.drop_last()[p] == s[p]);
        assert forall|i: int| p < i < s.len() implies s[i] != t by {
            if i < s.len() - 1 {
                assert(s.drop_last()[i] == s[i]);
            }
        }
        p
    }
}

/// What expired by `last` has expired by any later instant.
proof fn lemma_consistent_later(h: LimiterHistory, last: Instant, later: Instant)
    requires
        h.consistent(last),
        last.nanos <= later.nanos,
    ensures
        h.consistent(later),
{
}

proof fn lemma_run_consistent(h: LimiterHistory, from: Instant, events: Seq<LimiterEvent>)
    requires
        h.consistent(from),
        in_order(from, events),
    ensures
        h.after_all(events).consistent(latest(from, events)),
        h.after_all(events).limiter.max_creates == h.limiter.max_creates,
        h.after_all(events).limiter.window == h.limiter.window,
    decreases events.len(),
{
    if events.len() > 0 {
        let before = events.drop_last();
        lemma_run_consistent(h, from, before);
        match events.last() {
            LimiterEvent::Reserve { now } => {
                lemma_reserve_keeps(h.after_all(before), latest(from, before), now);
            },
            LimiterEvent::Rollback { reserved_at } => {
                lemma_rollback_keeps(h.after_all(before), latest(from, before), reserved_at);
            },
        }
    }
}

proof fn lemma_start_consistent(max_creates: nat, window: Duration, events: Seq<LimiterEvent>)
    requires
        clock_monotonic(events),
    ensures
        in_order(Instant { nanos: 0 }, events),
        LimiterHistory::start(max_creates, window).consistent(Instant { nanos: 0 }),
        LimiterHistory::start(max_creates, window).after_all(events).consistent(
            latest(Instant { nanos: 0 }, events),
        ),
        LimiterHistory::start(max_creates, window).after_all(events).limiter.max_creates
            == max_creates,
        LimiterHistory::start(max_creates, window).after_all(events).limiter.window == window,
{
    let start = LimiterHistory::start(max_creates, window);
    assert(start.granted.skip(0) == start.limiter.tracker);
    lemma_monotonic_in_order(events);
    lemma_run_consistent(start, Instant { nanos: 0 }, events);
}

/// At most `max_creates` slots are held in any rolling window: whatever slots
/// are asked for and given back, as long as the clock never runs backwards, any
/// two grants that stand `max_creates` apart are more than `window` apart.
pub proof fn rolling_window_holds(max_creates: nat, window: Duration, events: Seq<LimiterEvent>)
    requires
        clock_monotonic(events),
    ensures
        LimiterHistory::start(max_creates, window).after_all(events).spaced(),
        LimiterHistory::start(max_creates, window).after_all(events).limiter.max_creates
            == max_creates,
        LimiterHistory::start(max_creates, window).after_all(events).limiter.window == window,
{
    lemma_start_consistent(max_creates, window, events);
}

/// A slot is refused only when the window is full: after any history, a slot
/// asked for at `now` is granted exactly when fewer than `max_creates` grants
/// are held, or the `max_creates`-th latest of them has expired by `now`.
pub proof fn refused_only_when_full(
    max_creates: nat,
    window: Duration,
    events: Seq<LimiterEvent>,
    now: Instant,
)
    requires
        max_creates >= 1,
        clock_monotonic(events.push(LimiterEvent::Reserve { now })),
    ensures
        ({
            let h = LimiterHistory::start(max_creates, window).after_all(events);
            h.limiter.admits(now) <==> h.granted.len() < max_creates || expired(
                h.granted[h.granted.len() - max_creates],
                now,
                window,
            )
        }),
{
    let zero = Instant { nanos: 0 };
    let start = LimiterHistory::start(max_creates, window);
    let all = events.push(LimiterEvent::Reserve { now });
    lemma_start_consistent(max_creates, window, all);
    assert(all.drop_last() == events);
    lemma_run_consistent(start, zero, events);
    lemma_reserve_keeps(start.after_all(events), latest(zero, events), now);
}

/// A grant made at `slot` is held now and after each of the events.
pub open spec fn held_throughout(
    h: LimiterHistory,
    events: Seq<LimiterEvent>,
    slot: Instant,
) -> bool {
    forall|i: int|
        0 <= i <= events.len() ==> (#[trigger] h.after_all(events.take(i))).granted.contains(slot)
}

/// The events without the requests for a slot that were refused.
pub open spec fn without_refused(h: LimiterHistory, events: Seq<LimiterEvent>) -> Seq<LimiterEvent>
    decreases events.len(),
{
    if events.len() == 0 {
        events
    } else {
        let before = events.drop_last();
        match events.last() {
            LimiterEvent::Reserve { now } if !h.after_all(before).limiter.admits(now) =>
                without_refused(h, before),
            _ => without_refused(h, before).push(events.last()),
        }
    }
}

/// Slots may be taken out in either order.
proof fn lemma_without_last_twice(granted: Seq<Instant>, s: Instant, t: Instant)
    ensures
        without_last(without_last(granted, s), t) == without_last(without_last(granted, t), s),
    decreases granted.len(),
{
    if granted.len() > 0 {
        let front = granted.drop_last();
        let last = granted.last();
        lemma_without_last_twice(front, s, t);
        assert(front.push(last).drop_last() == front);
        assert(without_last(front, s).push(last).drop_last() == without_last(front, s));
        assert(without_last(front, t).push(last).drop_last() == without_last(front, t));
    }
}

/// A limiter that holds one grant less answers a request with a grant where the
/// other does, and still holds one grant less afterwards.
proof fn lemma_one_less(
    more: LimiterHistory,
    less: LimiterHistory,
    slot: Instant,
    last: Instant,
    now: Instant,
)
    requires
        more.consistent(last),
        less.consistent(last),
        less.limiter.max_creates == more.limiter.max_creates,
        less.limiter.window == more.limiter.window,
        more.granted.contains(slot),
        less.granted == without_last(more.granted, slot),
        last.nanos <= now.nanos,
        more.limiter.admits(now),
    ensures
        less.limiter.admits(now),
        without_last(more.granted.push(now), slot) == less.granted.push(now),
{
    lemma_reserve_keeps(more, last, now);
    lemma_reserve_keeps(less, last, now);
    let max = more.limiter.max_creates as int;
    let n = more.granted.len() as int;
    let p = lemma_last_position(more.granted, slot);
    lemma_without_last_removes(more.granted, slot, p);
    if less.granted.len() >= max {
        assert(less.granted[n - 1 - max].nanos <= more.granted[n - max].nanos);
    }
    assert(more.granted.push(now).drop_last() == more.granted);
    if now == slot {
        assert(more.granted[p].nanos <= more.granted[n - 1].nanos);
        assert(more.granted[n - 1] == now);
        assert(more.granted.drop_last().push(now) == more.granted);
    }
}

proof fn lemma_one_less_throughout(
    more: LimiterHistory,
    less: LimiterHistory,
    slot: Instant,
    last: Instant,
    events: Seq<LimiterEvent>,
)
    requires
        more.consistent(last),
        less.consistent(last),
        less.limiter.max_creates == more.limiter.max_creates,
        less.limiter.window == more.limiter.window,
        less.granted == without_last(more.granted, slot),
        held_throughout(more, events, slot),
        in_order(last, events),
    ensures
        ({
            let a = more.after_all(events);
            let b = less.after_all(without_refused(more, events));
            &&& a.consistent(latest(last, events))
            &&& b.consistent(latest(last, events))
            &&& a.limiter.max_creates == more.limiter.max_creates
            &&& b.limiter.max_creates == more.limiter.max_creates
            &&& a.limiter.window == more.limiter.window
            &&& b.limiter.window == more.limiter.window
            &&& b.granted == without_last(a.granted, slot)
        }),
    decreases events.len(),
{
    if events.len() > 0 {
        let before = events.drop_last();
        assert(held_throughout(more, before, slot)) by {
            assert forall|i: int| 0 <= i <= before.len() implies (#[trigger] more.after_all(
                before.take(i),
            )).granted.contains(slot) by {
                assert(before.take(i) == events.take(i));
            }
        }
        lemma_one_less_throughout(more, less, slot, last, before);
        let a = more.after_all(before);
        let b = less.after_all(without_refused(more, before));
        let time = latest(last, before);
        assert(before == events.take(before.len() as int));
        let kept = without_refused(more, before);
        assert(kept.push(events.last()).drop_last() == kept);
        match events.last() {
            LimiterEvent::Reserve { now } => {
                lemma_reserve_keeps(a, time, now);
                if a.limiter.admits(now) {
                    lemma_one_less(a, b, slot, time, now);
                    lemma_reserve_keeps(b, time, now);
                } else {
                    lemma_consistent_later(b, time, now);
                }
            },
            LimiterEvent::Rollback { reserved_at } => {
                lemma_rollback_keeps(a, time, reserved_at);
                lemma_rollback_keeps(b, time, reserved_at);
                lemma_without_last_twice(a.granted, reserved_at, slot);
            },
        }
    }
}

/// Limiters that hold the same grants go on to hold the same grants.
proof fn lemma_same_grants(
    a: LimiterHistory,
    b: LimiterHistory,
    last: Instant,
    events: Seq<LimiterEvent>,
)
    requires
        a.consistent(last),
        b.consistent(last),
        a.limiter.max_creates == b.limiter.max_creates,
        a.limiter.window == b.limiter.window,
        a.granted == b.granted,
        in_order(last, events),
    ensures
        a.after_all(events).granted == b.after_all(events).granted,
        events.len() > 0 ==> (events.last() matches LimiterEvent::Reserve { now } ==> a.after_all(
            events.drop_last(),
        ).limiter.admits(now) == b.after_all(events.drop_last()).limiter.admits(now)),
    decreases events.len(),
{
    if events.len() > 0 {
        let before = events.drop_last();
        lemma_same_grants(a, b, last, before);
        lemma_run_consistent(a, last, before);
        lemma_run_consistent(b, last, before);
        if let LimiterEvent::Reserve { now } = events.last() {
            lemma_reserve_keeps(a.after_all(before), latest(last, before), now);
            lemma_reserve_keeps(b.after_all(before), latest(last, before), now);
        }
    }
}

/// Giving a slot back undoes its reservation, whatever was asked for and given
/// back in between, at the same instant or later: every later request is
/// answered as if the slot had never been taken. What is left out of the run
/// without the slot, beside the slot itself, are the requests that were refused
/// while it was held.
pub proof fn rollback_returns_the_slot(
    max_creates: nat,
    window: Duration,
    before: Seq<LimiterEvent>,
    now: Instant,
    between: Seq<LimiterEvent>,
    later: Seq<LimiterEvent>,
)
    requires
        clock_monotonic(before.push(LimiterEvent::Reserve { now }) + between + later),
        ({
            let asked = LimiterHistory::start(max_creates, window).after_all(before);
            asked.limiter.admits(now) && held_throughout(
                asked.after(LimiterEvent::Reserve { now }),
                between,
                now,
            )
        }),
    ensures
        ({
            let asked = LimiterHistory::start(max_creates, window).after_all(before);
            let taken = asked.after(LimiterEvent::Reserve { now });
            let returned = taken.after_all(between).after(
                LimiterEvent::Rollback { reserved_at: now },
            );
            let never = asked.after_all(without_refused(taken, between));
            &&& returned.granted == never.granted
            &&& forall|i: int|
                0 <= i < later.len() && #[trigger] later[i] is Reserve ==> returned.after_all(
                    later.take(i),
                ).limiter.admits(later[i]->now) == never.after_all(later.take(i)).limiter.admits(
                    later[i]->now,
                )
        }),
{
    let zero = Instant { nanos: 0 };
    let start = LimiterHistory::start(max_creates, window);
    let asking = before.push(LimiterEvent::Reserve { now });
    let all = asking + between + later;
    lemma_start_consistent(max_creates, window, all);
    lemma_in_order_split(zero, asking + between, later);
    lemma_in_order_split(zero, asking, between);
    assert(asking.drop_last() == before);
    let asked = start.after_all(before);
    lemma_run_consistent(start, zero, before);
    lemma_reserve_keeps(asked, latest(zero, before), now);
    let taken = asked.after(LimiterEvent::Reserve { now });
    lemma_consistent_later(asked, latest(zero, before), now);
    assert(taken.granted.drop_last() == asked.granted);
    lemma_one_less_throughout(taken, asked, now, now, between);
    let time = latest(now, between);
    let returned = taken.after_all(between).after(LimiterEvent::Rollback { reserved_at: now });
    let never = asked.after_all(without_refused(taken, between));
    lemma_rollback_keeps(taken.after_all(between), time, now);
    assert forall|i: int| 0 <= i < later.len() && #[trigger] later[i] is Reserve implies returned.after_all(
    later.take(i)).limiter.admits(later[i]->now) == never.after_all(later.take(i)).limiter.admits(
        later[i]->now,
    ) by {
        let upto = later.take(i + 1);
        assert(upto + later.skip(i + 1) == later);
        lemma_in_order_split(time, upto, later.skip(i + 1));
        assert(upto.drop_last() == later.take(i));
        lemma_same_grants(returned, never, time, upto);
    }
}

/// The slots that a limiter for `max_creates` in `window` holds after the events:
/// each slot that was granted, but for one taken out for each that was given back.
pub open spec fn held_slots(
    max_creates: nat,
    window: Duration,
    events: Seq<LimiterEvent>,
) -> Seq<Instant>
    decreases events.len(),
{
    if events.len() == 0 {
        Seq::empty()
    } else {
        let before = events.drop_last();
        let held = held_slots(max_creates, window, before);
        match events.last() {
            LimiterEvent::Reserve { now } => if LimiterHistory::start(max_creates, window).after_all(
                before,
            ).limiter.admits(now) {
                held.push(now)
            } else {
                held
            },
            LimiterEvent::Rollback { reserved_at } => held.remove_value(reserved_at),
        }
    }
}

/// Of equal slots in a row it does not matter which is taken out.
proof fn lemma_remove_value(granted: Seq<Instant>, t: Instant)
    requires
        forall|i: int, j: int|
            0 <= i <= j < granted.len() ==> granted[i].nanos <= granted[j].nanos,
    ensures
        without_last(granted, t) == granted.remove_value(t),
{
    granted.index_of_first_ensures(t);
    if granted.contains(t) {
        let p = lemma_last_position(granted, t);
        lemma_without_last_removes(granted, t, p);
        let f = granted.index_of_first(t)->0;
        assert forall|i: int| f <= i <= p implies granted[i] == t by {
            assert(granted[f].nanos <= granted[i].nanos <= granted[p].nanos);
        }
        assert(granted.remove(f) == granted.remove(p));
    } else {
        lemma_without_last_absent(granted, t);
    }
}

proof fn lemma_held_slots(max_creates: nat, window: Duration, events: Seq<LimiterEvent>)
    requires
        in_order(Instant { nanos: 0 }, events),
    ensures
        held_slots(max_creates, window, events) == LimiterHistory::start(
            max_creates,
            window,
        ).after_all(events).granted,
    decreases events.len(),
{
    if events.len() > 0 {
        let zero = Instant { nanos: 0 };
        let start = LimiterHistory::start(max_creates, window);
        let before = events.drop_last();
        lemma_held_slots(max_creates, window, before);
        assert(start.granted.skip(0) == start.limiter.tracker);
        lemma_run_consistent(start, zero, before);
        if let LimiterEvent::Rollback { reserved_at } = events.last() {
            lemma_remove_value(start.after_all(before).granted, reserved_at);
        }
    }
}

/// No window holds more than `max_creates` slots: whatever slots are asked for and
/// given back, as long as the clock never runs backwards, of the slots held any
/// two that stand `max_creates` apart were granted more than `window` apart.
pub proof fn held_slots_keep_to_the_window(
    max_creates: nat,
    window: Duration,
    events: Seq<LimiterEvent>,
    i: int,
    j: int,
)
    requires
        clock_monotonic(events),
        0 <= i,
        i + max_creates <= j < held_slots(max_creates, window, events).len(),
    ensures
        ({
            let held = held_slots(max_creates, window, events);
            held[j].nanos - held[i].nanos > window.nanos
        }),
{
    lemma_start_consistent(max_creates, window, events);
    lemma_held_slots(max_creates, window, events);
    let h = LimiterHistory::start(max_creates, window).after_all(events);
    assert(expired(h.granted[i], h.granted[j], window));
}

/// A predicate that holds of a sequence from some place on and nowhere before.
proof fn lemma_filter_suffix(s: Seq<Instant>, keep: spec_fn(Instant) -> bool, k: int)
    requires
        0 <= k <= s.len(),
        forall|i: int| 0 <= i < k ==> !keep(#[trigger] s[i]),
        forall|i: int| k <= i < s.len() ==> keep(#[trigger] s[i]),
    ensures
        s.filter(keep) == s.skip(k),
    decreases s.len(),
{
    reveal(Seq::filter);
    if s.len() == 0 {
        assert(s.skip(k) == s);
    } else {
        let front = s.drop_last();
        assert(s[s.len() - 1] == s.last());
        assert forall|i: int| 0 <= i < front.len() implies front[i] == s[i] by {}
        if k == s.len() {
            lemma_filter_suffix(front, keep, k - 1);
            assert(front.skip(k - 1) == s.skip(k));
        } else {
            lemma_filter_suffix(front, keep, k);
            assert(front.skip(k).push(s.last()) == s.skip(k));
        }
    }
}

/// Where the slots of one window begin, in slots that stand in the order of time.
proof fn lemma_window_begins(s: Seq<Instant>, now: Instant, window: Duration) -> (k: int)
    requires
        forall|i: int, j: int| 0 <= i <= j < s.len() ==> s[i].nanos <= s[j].nanos,
    ensures
        0 <= k <= s.len(),
        forall|i: int| 0 <= i < k ==> now.nanos - (#[trigger] s[i]).nanos > window.nanos,
        forall|i: int| k <= i < s.len() ==> now.nanos - (#[trigger] s[i]).nanos <= window.nanos,
    decreases s.len(),
{
    if s.len() == 0 {
        0
    } else {
        let front = s.drop_last();
        assert(s[s.len() - 1] == s.last());
        assert forall|i: int| 0 <= i < front.len() implies front[i] == s[i] by {}
        let k = lemma_window_begins(front, now, window);
        if now.nanos - s.last().nanos > window.nanos {
            assert forall|i: int| 0 <= i < s.len() implies now.nanos - (#[trigger] s[i]).nanos
                > window.nanos by {
                assert(s[i].nanos <= s[s.len() - 1].nanos);
            }
            s.len() as int
        } else {
            assert forall|i: int| 0 <= i < k implies now.nanos - (#[trigger] s[i]).nanos
                > window.nanos by {
                assert(front[i] == s[i]);
            }
            assert forall|i: int| k <= i < s.len() implies now.nanos - (#[trigger] s[i]).nanos
                <= window.nanos by {
                if i < front.len() {
                    assert(front[i] == s[i]);
                }
            }
            k
        }
    }
}

/// A slot is granted exactly while the window has room: after any history, one
/// asked for at `now` is granted if and only if fewer than `max_creates` of the
/// slots held are at most a window old.
pub proof fn slot_is_granted_while_the_window_has_room(
    max_creates: nat,
    window: Duration,
    events: Seq<LimiterEvent>,
    now: Instant,
)
    requires
        clock_monotonic(events.push(LimiterEvent::Reserve { now })),
    ensures
        LimiterHistory::start(max_creates, window).after_all(events).limiter.admits(now)
            <==> held_slots(max_creates, window, events).filter(
            |slot: Instant| now.nanos - slot.nanos <= window.nanos,
        ).len() < max_creates,
{
    let zero = Instant { nanos: 0 };
    let start = LimiterHistory::start(max_creates, window);
    let all = events.push(LimiterEvent::Reserve { now });
    lemma_start_consistent(max_creates, window, all);
    assert(all.drop_last() == events);
    lemma_run_consistent(start, zero, events);
    lemma_held_slots(max_creates, window, events);
    let h = start.after_all(events);
    lemma_reserve_keeps(h, latest(zero, events), now);
    let k = lemma_window_begins(h.granted, now, window);
    let recent = |slot: Instant| now.nanos - slot.nanos <= window.nanos;
    lemma_filter_suffix(h.granted, recent, k);
    if max_creates > 0 && h.granted.len() >= max_creates {
        let g = h.granted[h.granted.len() - max_creates];
        assert(expired(g, now, window) <==> now.nanos - g.nanos > window.nanos);
    }
}

/// A request for a slot forgets the slots at the front that are more than a
/// window old, `k` of them, up to the first that is not. It is granted if fewer
/// than `max_creates` are left, and is then the latest; nothing else changes.
/// This holds of any limiter, whatever clock its slots were taken by.
pub proof fn request_counts_the_slots_of_one_window(limiter: RateLimiterView, now: Instant, k: int)
    requires
        0 <= k <= limiter.tracker.len(),
        forall|i: int|
            0 <= i < k ==> now.nanos - (#[trigger] limiter.tracker[i]).nanos
                > limiter.window.nanos,
        k < limiter.tracker.len() ==> now.nanos - limiter.tracker[k].nanos
            <= limiter.window.nanos,
    ensures
        limiter.admits(now) <==> limiter.tracker.len() - k < limiter.max_creates,
        limiter.reserved(now) == (RateLimiterView {
            max_creates: limiter.max_creates,
            window: limiter.window,
            tracker: if limiter.tracker.len() - k < limiter.max_creates {
                limiter.tracker.skip(k).push(now)
            } else {
                limiter.tracker.skip(k)
            },
        }),
{
    let kept = unexpired(limiter.tracker, now, limiter.window);
    lemma_unexpired_suffix(limiter.tracker, now, limiter.window);
    let e = limiter.tracker.len() - kept.len();
    if e < k {
        assert(kept[0] == limiter.tracker[e]);
    }
    if k < e {
        assert(expired(limiter.tracker[k], now, limiter.window));
    }
}

/// Giving back a slot takes out one entry for the instant at which it was
/// reserved, the latest, and nothing else: not the entries before or behind it,
/// and no limit. One that is not held changes nothing.
pub proof fn one_slot_is_given_back(limiter: RateLimiterView, reserved_at: Instant, p: int)
    requires
        -1 <= p < limiter.tracker.len(),
        p >= 0 ==> limiter.tracker[p] == reserved_at,
        forall|i: int|
            p < i < limiter.tracker.len() ==> #[trigger] limiter.tracker[i] != reserved_at,
    ensures
        limiter.rolled_back(reserved_at) == (RateLimiterView {
            max_creates: limiter.max_creates,
            window: limiter.window,
            tracker: if p >= 0 {
                limiter.tracker.take(p) + limiter.tracker.skip(p + 1)
            } else {
                limiter.tracker
            },
        }),
{
    if p >= 0 {
        lemma_without_last_removes(limiter.tracker, reserved_at, p);
        assert(limiter.tracker.remove(p) == limiter.tracker.take(p) + limiter.tracker.skip(p + 1));
    } else {
        lemma_without_last_absent(limiter.tracker, reserved_at);
    }
}

/// A new limiter has its whole window free.
pub proof fn new_limiter_has_granted_nothing(max_creates: nat, window: Duration)
    ensures
        RateLimiterView::fresh(max_creates, window).max_creates == max_creates,
        RateLimiterView::fresh(max_creates, window).window == window,
        RateLimiterView::fresh(max_creates, window).tracker.len() == 0,
{
}

} // verus!
