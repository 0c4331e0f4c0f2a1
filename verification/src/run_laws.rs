use tokio::task::AbortHandle;
use vstd::prelude::*;

use crate::clock::{Duration, Instant};
use crate::config::SessionConfig;
use crate::contention::{
    lemma_opened_has_no_rank, limiter_events, overlapping_calls_share_the_rate_limit, Call, Crowd,
    Step,
};
use crate::rate_laws::{
    clock_monotonic, held_slots, held_slots_keep_to_the_window,
    slot_is_granted_while_the_window_has_room, LimiterEvent,
};
use crate::rate_limit::RateLimiterView;
use crate::reason::CloseReason;

verus! {

/// The instant at which each call last asked for a session.
pub open spec fn asked_at(steps: Seq<Step>) -> Map<nat, Instant>
    decreases steps.len(),
{
    if steps.len() == 0 {
        Map::empty()
    } else {
        let before = asked_at(steps.drop_last());
        match steps.last() {
            Step::BeginCreate { call, now } => before.insert(call, now),
            _ => before,
        }
    }
}

/// The instants at which the creations were asked for that were admitted and
/// did not fail: a call that asked is admitted if it is in flight afterwards.
pub open spec fn held_creations(start: Crowd, steps: Seq<Step>) -> Seq<Instant>
    decreases steps.len(),
{
    if steps.len() == 0 {
        Seq::empty()
    } else {
        let before = held_creations(start, steps.drop_last());
        match steps.last() {
            Step::BeginCreate { call, now } => if start.after_all(steps).calls.contains_key(call) {
                before.push(now)
            } else {
                before
            },
            Step::OpenFails { call } => before.remove_value(asked_at(steps.drop_last())[call]),
            _ => before,
        }
    }
}

/// The instants at which sessions are asked for never run backwards.
pub open spec fn requests_in_order(steps: Seq<Step>) -> bool {
    forall|i: int, j: int|
        0 <= i <= j < steps.len() && #[trigger] steps[i] is BeginCreate && #[trigger] steps[j] is BeginCreate
            ==> steps[i]->BeginCreate_now.nanos <= steps[j]->BeginCreate_now.nanos
}

/// The slot that a creation holds until its session is opened.
spec fn slot_held(call: Call) -> Option<Option<Instant>> {
    match call {
        Call::Admitted { slot } => Some(slot),
        Call::Evicting { slot, .. } => Some(slot),
        Call::ClosingVictim { slot, .. } => Some(slot),
        Call::Ready { slot, .. } => Some(slot),
        _ => None,
    }
}

/// Each creation holds the slot of the instant at which it asked.
spec fn slots_as_asked(w: Crowd, asked: Map<nat, Instant>) -> bool {
    &&& w.manager.limiter is Some
    &&& forall|c: nat| #[trigger]
        w.calls.contains_key(c) ==> (slot_held(w.calls[c]) matches Some(slot)
            ==> asked.contains_key(c) && slot == Some(asked[c]))
}

proof fn lemma_slots_as_asked(start: Crowd, steps: Seq<Step>)
    requires
        slots_as_asked(start, Map::empty()),
        start.allows_all(steps),
    ensures
        slots_as_asked(start.after_all(steps), asked_at(steps)),
    decreases steps.len(),
{
    if steps.len() > 0 {
        let before = steps.drop_last();
        lemma_slots_as_asked(start, before);
        let w = start.after_all(before);
        let n = start.after_all(steps);
        assert forall|c: nat| #[trigger] n.calls.contains_key(c) implies (
        slot_held(n.calls[c]) matches Some(slot) ==> asked_at(steps).contains_key(c) && slot
            == Some(asked_at(steps)[c])) by {
            if w.calls.contains_key(c) {
                assert(slot_held(w.calls[c]) matches Some(slot) ==> asked_at(before).contains_key(c)
                    && slot == Some(asked_at(before)[c]));
            }
        }
    }
}

proof fn lemma_held_creations(
    config: SessionConfig,
    max_sessions: nat,
    max_creates: nat,
    window: Duration,
    max_lifetime: Option<Duration>,
    steps: Seq<Step>,
)
    requires
        ({
            let limiter = Some(RateLimiterView::fresh(max_creates, window));
            Crowd::start(config, max_sessions, limiter, max_lifetime).allows_all(steps)
        }),
    ensures
        ({
            let limiter = Some(RateLimiterView::fresh(max_creates, window));
            let start = Crowd::start(config, max_sessions, limiter, max_lifetime);
            held_creations(start, steps) == held_slots(
                max_creates,
                window,
                limiter_events(start, steps),
            )
        }),
    decreases steps.len(),
{
    if steps.len() > 0 {
        let limiter = Some(RateLimiterView::fresh(max_creates, window));
        let start = Crowd::start(config, max_sessions, limiter, max_lifetime);
        let before = steps.drop_last();
        lemma_held_creations(config, max_sessions, max_creates, window, max_lifetime, before);
        overlapping_calls_share_the_rate_limit(
            config,
            max_sessions,
            max_creates,
            window,
            max_lifetime,
            before,
        );
        lemma_slots_as_asked(start, before);
        let asked = limiter_events(start, before);
        let all = limiter_events(start, steps);
        if all != asked {
            assert(all.drop_last() == asked);
        }
    }
}

/// A slot is asked for only where a session is.
proof fn lemma_reserve_is_request(start: Crowd, steps: Seq<Step>, i: int) -> (k: int)
    requires
        0 <= i < limiter_events(start, steps).len(),
        limiter_events(start, steps)[i] is Reserve,
    ensures
        0 <= k < steps.len(),
        steps[k] is BeginCreate,
        steps[k]->BeginCreate_now == limiter_events(start, steps)[i]->now,
    decreases steps.len(),
{
    let before = steps.drop_last();
    if i < limiter_events(start, before).len() {
        assert(limiter_events(start, before)[i] == limiter_events(start, steps)[i]);
        let k = lemma_reserve_is_request(start, before, i);
        assert(steps[k] == before[k]);
        k
    } else {
        assert(steps[steps.len() - 1] == steps.last());
        steps.len() - 1
    }
}

proof fn lemma_requests_monotonic(start: Crowd, steps: Seq<Step>)
    requires
        requests_in_order(steps),
    ensures
        clock_monotonic(limiter_events(start, steps)),
    decreases steps.len(),
{
    if steps.len() > 0 {
        let before = steps.drop_last();
        assert(requests_in_order(before)) by {
            assert forall|i: int, j: int|
                0 <= i <= j < before.len() && #[trigger] before[i] is BeginCreate
                    && #[trigger] before[j] is BeginCreate implies before[i]->BeginCreate_now.nanos
                <= before[j]->BeginCreate_now.nanos by {
                assert(steps[i] == before[i] && steps[j] == before[j]);
            }
        }
        lemma_requests_monotonic(start, before);
        let events = limiter_events(start, before);
        let all = limiter_events(start, steps);
        assert forall|i: int, j: int|
            0 <= i <= j < all.len() && #[trigger] all[i] is Reserve
                && #[trigger] all[j] is Reserve implies all[i]->now.nanos <= all[j]->now.nanos by {
            if j < events.len() {
                assert(events[i] == all[i] && events[j] == all[j]);
            } else if i < j {
                let k = lemma_reserve_is_request(start, steps, i);
                assert(steps[k] is BeginCreate);
                assert(steps[steps.len() - 1] == steps.last());
            }
        }
    }
}

/// No window holds more than `max_creates` creations: of those that were admitted
/// and did not fail, however their steps interleave and whatever other limits the
/// manager has, any two that stand `max_creates` apart were asked for more than
/// `window` apart.
pub proof fn creations_keep_to_the_window(
    config: SessionConfig,
    max_sessions: nat,
    max_creates: nat,
    window: Duration,
    max_lifetime: Option<Duration>,
    steps: Seq<Step>,
    i: int,
    j: int,
)
    requires
        requests_in_order(steps),
        ({
            let limiter = Some(RateLimiterView::fresh(max_creates, window));
            let start = Crowd::start(config, max_sessions, limiter, max_lifetime);
            &&& start.allows_all(steps)
            &&& 0 <= i && i + max_creates <= j < held_creations(start, steps).len()
        }),
    ensures
        ({
            let limiter = Some(RateLimiterView::fresh(max_creates, window));
            let start = Crowd::start(config, max_sessions, limiter, max_lifetime);
            let held = held_creations(start, steps);
            held[j].nanos - held[i].nanos > window.nanos
        }),
{
    let limiter = Some(RateLimiterView::fresh(max_creates, window));
    let start = Crowd::start(config, max_sessions, limiter, max_lifetime);
    lemma_held_creations(config, max_sessions, max_creates, window, max_lifetime, steps);
    lemma_requests_monotonic(start, steps);
    held_slots_keep_to_the_window(max_creates, window, limiter_events(start, steps), i, j);
}

/// A creation is refused only when the window is full: after any steps, one asked
/// for at `now` is admitted if and only if fewer than `max_creates` of those that
/// were admitted and did not fail were asked for at most a window ago.
pub proof fn creation_is_admitted_while_the_window_has_room(
    config: SessionConfig,
    max_sessions: nat,
    max_creates: nat,
    window: Duration,
    max_lifetime: Option<Duration>,
    steps: Seq<Step>,
    call: nat,
    now: Instant,
)
    requires
        requests_in_order(steps.push(Step::BeginCreate { call, now })),
        ({
            let limiter = Some(RateLimiterView::fresh(max_creates, window));
            let start = Crowd::start(config, max_sessions, limiter, max_lifetime);
            &&& start.allows_all(steps)
            &&& !start.after_all(steps).calls.contains_key(call)
        }),
    ensures
        ({
            let limiter = Some(RateLimiterView::fresh(max_creates, window));
            let start = Crowd::start(config, max_sessions, limiter, max_lifetime);
            start.after_all(steps).after(Step::BeginCreate { call, now }).calls.contains_key(call)
                <==> held_creations(start, steps).filter(
                |asked: Instant| now.nanos - asked.nanos <= window.nanos,
            ).len() < max_creates
        }),
{
    let limiter = Some(RateLimiterView::fresh(max_creates, window));
    let start = Crowd::start(config, max_sessions, limiter, max_lifetime);
    let all = steps.push(Step::BeginCreate { call, now });
    assert(all.drop_last() == steps);
    lemma_held_creations(config, max_sessions, max_creates, window, max_lifetime, steps);
    overlapping_calls_share_the_rate_limit(
        config,
        max_sessions,
        max_creates,
        window,
        max_lifetime,
        steps,
    );
    lemma_requests_monotonic(start, all);
    let events = limiter_events(start, steps);
    assert(limiter_events(start, all) == events.push(LimiterEvent::Reserve { now }));
    slot_is_granted_while_the_window_has_room(max_creates, window, events, now);
}

/// The limits stay as they were set: whatever steps are taken, the manager keeps
/// the settings, the number of sessions and the lifetime that it was made with,
/// with or without a rate limit, and the rate limit that it was made with.
pub proof fn limits_stay_as_they_were_set(
    config: SessionConfig,
    max_sessions: nat,
    limiter: Option<RateLimiterView>,
    max_lifetime: Option<Duration>,
    steps: Seq<Step>,
)
    ensures
        ({
            let m = Crowd::start(config, max_sessions, limiter, max_lifetime).after_all(
                steps,
            ).manager;
            &&& m.config == config
            &&& m.max_sessions == max_sessions
            &&& m.max_lifetime == max_lifetime
            &&& m.limiter is Some <==> limiter is Some
            &&& limiter matches Some(set) ==> m.limiter->0.max_creates == set.max_creates
                && m.limiter->0.window == set.window
        }),
    decreases steps.len(),
{
    if steps.len() > 0 {
        limits_stay_as_they_were_set(
            config,
            max_sessions,
            limiter,
            max_lifetime,
            steps.drop_last(),
        );
    }
}

/// When each session was entered.
pub open spec fn entered_at(start: Crowd, steps: Seq<Step>) -> Map<Seq<char>, Instant>
    decreases steps.len(),
{
    if steps.len() == 0 {
        Map::empty()
    } else {
        let before = entered_at(start, steps.drop_last());
        match steps.last() {
            Step::Enter { call, now, .. } => match start.after_all(steps.drop_last()).calls[call] {
                Call::Opened { id, .. } => before.insert(id, now),
                _ => before,
            },
            _ => before,
        }
    }
}

/// The session that the step begins to close, and when.
pub open spec fn close_begun(w: Crowd, step: Step) -> Option<(Seq<char>, Instant)> {
    match step {
        Step::BeginEviction { call, now } => match w.calls[call] {
            Call::Evicting { victim, .. } => Some((victim, now)),
            _ => None,
        },
        Step::Trim { call, now, .. } => if w.after(step).calls.contains_key(call) {
            match w.after(step).calls[call] {
                Call::ClosingSurplus { closing, .. } => Some((closing.id, now)),
                _ => None,
            }
        } else {
            None
        },
        Step::BeginClose { id, now, .. } => Some((id, now)),
        _ => None,
    }
}

/// When the first close of each session that was entered began.
pub open spec fn closed_at(start: Crowd, steps: Seq<Step>) -> Map<Seq<char>, Instant>
    decreases steps.len(),
{
    if steps.len() == 0 {
        Map::empty()
    } else {
        let before = closed_at(start, steps.drop_last());
        match close_begun(start.after_all(steps.drop_last()), steps.last()) {
            Some((id, now)) => if entered_at(start, steps.drop_last()).contains_key(id)
                && !before.contains_key(id) {
                before.insert(id, now)
            } else {
                before
            },
            None => before,
        }
    }
}

/// The timer that was registered for each session.
pub open spec fn registered(start: Crowd, steps: Seq<Step>) -> Map<Seq<char>, AbortHandle>
    decreases steps.len(),
{
    if steps.len() == 0 {
        Map::empty()
    } else {
        let before = registered(start, steps.drop_last());
        match steps.last() {
            Step::Register { call, timer: Some(handle) } => match start.after_all(
                steps.drop_last(),
            ).calls[call] {
                Call::Entered { id, .. } => before.insert(id, handle),
                _ => before,
            },
            _ => before,
        }
    }
}

/// `lasted` is the time from `from` to `to`.
spec fn spans(lasted: Duration, from: Instant, to: Instant) -> bool {
    if from.nanos <= to.nanos {
        from.nanos + lasted.nanos == to.nanos
    } else {
        lasted.nanos == 0
    }
}

/// The session `s` was entered and closed, and lasted from the one to the other.
spec fn spanned(
    lasted: Duration,
    s: Seq<char>,
    entered: Map<Seq<char>, Instant>,
    closed: Map<Seq<char>, Instant>,
) -> bool {
    entered.contains_key(s) && closed.contains_key(s) && spans(lasted, entered[s], closed[s])
}

/// The lifecycle table tells when the sessions that were entered and not closed
/// were entered, and so do the closes in flight and the records of the others.
spec fn ages_kept(
    w: Crowd,
    entered: Map<Seq<char>, Instant>,
    closed: Map<Seq<char>, Instant>,
) -> bool {
    &&& forall|s: Seq<char>| #[trigger]
        w.manager.lifecycle.contains_key(s) <==> entered.contains_key(s) && !closed.contains_key(s)
    &&& forall|s: Seq<char>| #[trigger]
        w.manager.lifecycle.contains_key(s) ==> w.manager.lifecycle[s].created_at == entered[s]
    &&& forall|s: Seq<char>| #[trigger] entered.contains_key(s) ==> w.ranks.contains_key(s)
    &&& forall|s: Seq<char>| #[trigger] closed.contains_key(s) ==> entered.contains_key(s)
    &&& forall|c: nat| #[trigger]
        w.calls.contains_key(c) ==> (w.calls[c].closing() matches Some(closing) ==> (
        closing.lasted matches Some(lasted) ==> spanned(lasted, closing.id, entered, closed)))
    &&& forall|i: int|
        0 <= i < w.records.len() ==> {
            let record = #[trigger] w.records[i];
            spanned(record.elapsed, record.id, entered, closed)
        }
}

/// A session is entered.
proof fn lemma_ages_enter(
    w: Crowd,
    call: nat,
    listed: Set<Seq<char>>,
    now: Instant,
    entered: Map<Seq<char>, Instant>,
    closed: Map<Seq<char>, Instant>,
)
    requires
        ages_kept(w, entered, closed),
        w.calls.contains_key(call),
        w.calls[call] is Opened,
        !w.ranks.contains_key(w.calls[call]->Opened_id),
    ensures
        ages_kept(
            w.after(Step::Enter { call, listed, now }),
            entered.insert(w.calls[call]->Opened_id, now),
            closed,
        ),
{
    let n = w.after(Step::Enter { call, listed, now });
    let id = w.calls[call]->Opened_id;
    let later = entered.insert(id, now);
    assert(!entered.contains_key(id) && !closed.contains_key(id));
    assert forall|lasted: Duration, s: Seq<char>| #[trigger]
        spanned(lasted, s, entered, closed) implies spanned(lasted, s, later, closed) by {}
    assert forall|i: int| 0 <= i < n.records.len() implies {
        let record = #[trigger] n.records[i];
        spanned(record.elapsed, record.id, later, closed)
    } by {
        assert(spanned(w.records[i].elapsed, w.records[i].id, entered, closed));
    }
    assert forall|c: nat| #[trigger] n.calls.contains_key(c) implies (
    n.calls[c].closing() matches Some(closing) ==> (closing.lasted matches Some(lasted) ==> spanned(
        lasted,
        closing.id,
        later,
        closed,
    ))) by {
        assert(w.calls.contains_key(c));
    }
}

/// The call `c` begins to close the session `id`.
proof fn lemma_ages_begin(
    w: Crowd,
    n: Crowd,
    c: nat,
    id: Seq<char>,
    reason: CloseReason,
    now: Instant,
    entered: Map<Seq<char>, Instant>,
    closed: Map<Seq<char>, Instant>,
)
    requires
        ages_kept(w, entered, closed),
        n.manager.lifecycle == w.manager.lifecycle.remove(id),
        n.records == w.records,
        n.ranks == w.ranks,
        n.calls == w.calls.insert(c, n.calls[c]),
        n.calls[c].closing() == Some(w.manager.closing(id, reason, now)),
    ensures
        ages_kept(
            n,
            entered,
            if entered.contains_key(id) && !closed.contains_key(id) {
                closed.insert(id, now)
            } else {
                closed
            },
        ),
{
    let later = if entered.contains_key(id) && !closed.contains_key(id) {
        closed.insert(id, now)
    } else {
        closed
    };
    assert(w.manager.lifecycle.contains_key(id) <==> entered.contains_key(id)
        && !closed.contains_key(id));
    assert forall|lasted: Duration, s: Seq<char>| #[trigger]
        spanned(lasted, s, entered, closed) implies spanned(lasted, s, entered, later) by {}
    assert forall|i: int| 0 <= i < n.records.len() implies {
        let record = #[trigger] n.records[i];
        spanned(record.elapsed, record.id, entered, later)
    } by {
        assert(spanned(w.records[i].elapsed, w.records[i].id, entered, closed));
    }
    assert forall|d: nat| #[trigger] n.calls.contains_key(d) implies (
    n.calls[d].closing() matches Some(closing) ==> (closing.lasted matches Some(lasted) ==> spanned(
        lasted,
        closing.id,
        entered,
        later,
    ))) by {
        if d != c {
            assert(w.calls.contains_key(d));
        }
    }
}

/// The call `c` finishes its close.
proof fn lemma_ages_finish(
    w: Crowd,
    n: Crowd,
    c: nat,
    entered: Map<Seq<char>, Instant>,
    closed: Map<Seq<char>, Instant>,
)
    requires
        ages_kept(w, entered, closed),
        w.calls.contains_key(c),
        w.calls[c].closing() is Some,
        n.manager.lifecycle == w.manager.lifecycle,
        n.records == w.finished(w.calls[c].closing()->0).records,
        n.ranks == w.ranks,
        n.calls.contains_key(c) ==> n.calls[c].closing() is None,
        forall|d: nat| #[trigger]
            n.calls.contains_key(d) && d != c ==> w.calls.contains_key(d) && n.calls[d]
                == w.calls[d],
    ensures
        ages_kept(n, entered, closed),
{
    let closing = w.calls[c].closing()->0;
    assert forall|i: int| 0 <= i < n.records.len() implies {
        let record = #[trigger] n.records[i];
        spanned(record.elapsed, record.id, entered, closed)
    } by {
        if i < w.records.len() {
            assert(n.records[i] == w.records[i]);
        }
    }
}

/// A step that enters no session, and with which no close begins or finishes.
proof fn lemma_ages_between(
    w: Crowd,
    n: Crowd,
    entered: Map<Seq<char>, Instant>,
    closed: Map<Seq<char>, Instant>,
)
    requires
        ages_kept(w, entered, closed),
        n.records == w.records,
        n.ranks == w.ranks,
        forall|s: Seq<char>| #[trigger]
            n.manager.lifecycle.contains_key(s) <==> w.manager.lifecycle.contains_key(s),
        forall|s: Seq<char>| #[trigger]
            n.manager.lifecycle.contains_key(s) ==> n.manager.lifecycle[s].created_at
                == w.manager.lifecycle[s].created_at,
        forall|c: nat| #[trigger]
            n.calls.contains_key(c) ==> n.calls[c].closing() is None || (w.calls.contains_key(c)
                && n.calls[c].closing() == w.calls[c].closing()),
    ensures
        ages_kept(n, entered, closed),
{
    assert forall|i: int| 0 <= i < n.records.len() implies {
        let record = #[trigger] n.records[i];
        spanned(record.elapsed, record.id, entered, closed)
    } by {
        assert(spanned(w.records[i].elapsed, w.records[i].id, entered, closed));
    }
}

proof fn lemma_ages_kept(
    config: SessionConfig,
    max_sessions: nat,
    limiter: Option<RateLimiterView>,
    max_lifetime: Option<Duration>,
    steps: Seq<Step>,
)
    requires
        max_sessions >= 1,
        Crowd::start(config, max_sessions, limiter, max_lifetime).allows_all(steps),
    ensures
        ({
            let start = Crowd::start(config, max_sessions, limiter, max_lifetime);
            ages_kept(start.after_all(steps), entered_at(start, steps), closed_at(start, steps))
        }),
    decreases steps.len(),
{
    let start = Crowd::start(config, max_sessions, limiter, max_lifetime);
    if steps.len() > 0 {
        let before = steps.drop_last();
        lemma_ages_kept(config, max_sessions, limiter, max_lifetime, before);
        let w = start.after_all(before);
        let n = start.after_all(steps);
        let entered = entered_at(start, before);
        let closed = closed_at(start, before);
        match steps.last() {
            Step::Enter { call, listed, now } => {
                lemma_opened_has_no_rank(config, max_sessions, limiter, max_lifetime, before, call);
                lemma_ages_enter(w, call, listed, now, entered, closed);
            },
            Step::BeginEviction { call, now } => {
                let victim = w.calls[call]->victim;
                lemma_ages_begin(w, n, call, victim, CloseReason::Evicted, now, entered, closed);
            },
            Step::Trim { call, listed, now } if w.trims(call, listed) => {
                let oldest = w.calls[call]->Trimming_surplus[0];
                lemma_ages_begin(w, n, call, oldest, CloseReason::Evicted, now, entered, closed);
            },
            Step::BeginClose { call, id, reason, now } => {
                lemma_ages_begin(w, n, call, id, reason, now, entered, closed);
            },
            Step::FinishEviction { call } => {
                lemma_ages_finish(w, n, call, entered, closed);
            },
            Step::FinishTrim { call } => {
                lemma_ages_finish(w, n, call, entered, closed);
            },
            Step::FinishClose { call } => {
                lemma_ages_finish(w, n, call, entered, closed);
            },
            _ => {
                lemma_ages_between(w, n, entered, closed);
            },
        }
    }
}

/// A log record tells how long its session lasted: from the moment at which that
/// session was entered to the moment at which its first close began, whatever was
/// created, registered and closed in between.
pub proof fn record_tells_how_long_the_session_lasted(
    config: SessionConfig,
    max_sessions: nat,
    limiter: Option<RateLimiterView>,
    max_lifetime: Option<Duration>,
    steps: Seq<Step>,
    i: int,
)
    requires
        max_sessions >= 1,
        Crowd::start(config, max_sessions, limiter, max_lifetime).allows_all(steps),
        0 <= i < Crowd::start(config, max_sessions, limiter, max_lifetime).after_all(
            steps,
        ).records.len(),
    ensures
        ({
            let start = Crowd::start(config, max_sessions, limiter, max_lifetime);
            let record = start.after_all(steps).records[i];
            let entered = entered_at(start, steps);
            let closed = closed_at(start, steps);
            &&& entered.contains_key(record.id)
            &&& closed.contains_key(record.id)
            &&& entered[record.id].nanos <= closed[record.id].nanos ==> entered[record.id].nanos
                + record.elapsed.nanos == closed[record.id].nanos
            &&& entered[record.id].nanos > closed[record.id].nanos ==> record.elapsed.nanos == 0
        }),
{
    lemma_ages_kept(config, max_sessions, limiter, max_lifetime, steps);
    let start = Crowd::start(config, max_sessions, limiter, max_lifetime);
    let record = start.after_all(steps).records[i];
    assert(spanned(
        record.elapsed,
        record.id,
        entered_at(start, steps),
        closed_at(start, steps),
    ));
}

/// A session is tracked from when it is entered to when its first close begins,
/// and the table keeps the moment at which it was entered.
pub proof fn session_is_tracked_from_entry_to_first_close(
    config: SessionConfig,
    max_sessions: nat,
    limiter: Option<RateLimiterView>,
    max_lifetime: Option<Duration>,
    steps: Seq<Step>,
    s: Seq<char>,
)
    requires
        max_sessions >= 1,
        Crowd::start(config, max_sessions, limiter, max_lifetime).allows_all(steps),
    ensures
        ({
            let start = Crowd::start(config, max_sessions, limiter, max_lifetime);
            let lifecycle = start.after_all(steps).manager.lifecycle;
            &&& lifecycle.contains_key(s) <==> entered_at(start, steps).contains_key(s)
                && !closed_at(start, steps).contains_key(s)
            &&& lifecycle.contains_key(s) ==> lifecycle[s].created_at == entered_at(start, steps)[s]
        }),
{
    lemma_ages_kept(config, max_sessions, limiter, max_lifetime, steps);
}

/// The timers in the table are those that were registered.
spec fn timers_kept(w: Crowd, timers: Map<Seq<char>, AbortHandle>) -> bool {
    &&& forall|s: Seq<char>| #[trigger]
        w.manager.lifecycle.contains_key(s) ==> w.manager.lifecycle[s].abort_handle == (
        if timers.contains_key(s) {
            Some(timers[s])
        } else {
            None
        })
    &&& forall|s: Seq<char>| #[trigger] timers.contains_key(s) ==> w.ranks.contains_key(s)
    &&& forall|c: nat| #[trigger]
        w.calls.contains_key(c) ==> (w.calls[c] matches Call::Entered { id, .. }
            ==> w.ranks.contains_key(id))
}

/// The timer of a session is the one that was registered for it: as long as the
/// session is tracked, a close would hand out that one, or none if none was.
pub proof fn timer_is_the_one_registered(
    config: SessionConfig,
    max_sessions: nat,
    limiter: Option<RateLimiterView>,
    max_lifetime: Option<Duration>,
    steps: Seq<Step>,
    s: Seq<char>,
)
    requires
        max_sessions >= 1,
        Crowd::start(config, max_sessions, limiter, max_lifetime).allows_all(steps),
    ensures
        ({
            let start = Crowd::start(config, max_sessions, limiter, max_lifetime);
            let m = start.after_all(steps).manager;
            m.timer_of(s) == (if m.lifecycle.contains_key(s) && registered(
                start,
                steps,
            ).contains_key(s) {
                Some(registered(start, steps)[s])
            } else {
                None
            })
        }),
{
    lemma_timers_kept(config, max_sessions, limiter, max_lifetime, steps);
}

proof fn lemma_timers_kept(
    config: SessionConfig,
    max_sessions: nat,
    limiter: Option<RateLimiterView>,
    max_lifetime: Option<Duration>,
    steps: Seq<Step>,
)
    requires
        max_sessions >= 1,
        Crowd::start(config, max_sessions, limiter, max_lifetime).allows_all(steps),
    ensures
        ({
            let start = Crowd::start(config, max_sessions, limiter, max_lifetime);
            timers_kept(start.after_all(steps), registered(start, steps))
        }),
    decreases steps.len(),
{
    let start = Crowd::start(config, max_sessions, limiter, max_lifetime);
    if steps.len() > 0 {
        let before = steps.drop_last();
        lemma_timers_kept(config, max_sessions, limiter, max_lifetime, before);
        let w = start.after_all(before);
        let n = start.after_all(steps);
        if let Step::Enter { call, .. } = steps.last() {
            lemma_opened_has_no_rank(config, max_sessions, limiter, max_lifetime, before, call);
        }
        assert forall|c: nat| #[trigger] n.calls.contains_key(c) implies (
        n.calls[c] matches Call::Entered { id, .. } ==> n.ranks.contains_key(id)) by {
            if w.calls.contains_key(c) {
                assert(w.calls[c] matches Call::Entered { id, .. } ==> w.ranks.contains_key(id));
            }
        }
    }
}

} // verus!
