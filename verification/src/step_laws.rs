use rmcp::transport::streamable_http_server::session::local::LocalSessionManagerError;
use tokio::task::AbortHandle;
use vstd::prelude::*;
use vstd::std_specs::convert::FromSpec;

use crate::clock::{Duration, Instant};
use crate::config::SessionConfig;
use crate::error::BoundedSessionError;
use crate::manager::{logged, passed_on, CloseRecord, ClosingView, ManagerView};
use crate::order::{among, id_texts, other_than, SessionId};
use crate::rate_laws::{one_slot_is_given_back, request_counts_the_slots_of_one_window};
use crate::rate_limit::RateLimiterView;
use crate::reason::CloseReason;

verus! {

/// Whether a step has left alone what is settled when a manager is made.
pub open spec fn same_limits(one: ManagerView, two: ManagerView) -> bool {
    &&& one.config == two.config
    &&& one.max_sessions == two.max_sessions
    &&& one.max_lifetime == two.max_lifetime
}

/// A new manager has the limits that it was given, each whatever the others are,
/// and no sessions.
pub proof fn new_manager_has_the_limits_it_was_given(
    config: SessionConfig,
    max_sessions: nat,
    limiter: Option<RateLimiterView>,
    max_lifetime: Option<Duration>,
    s: Seq<char>,
)
    ensures
        ({
            let m = ManagerView::fresh(config, max_sessions, limiter, max_lifetime);
            &&& m.config == config
            &&& m.max_sessions == max_sessions
            &&& m.limiter == limiter
            &&& m.max_lifetime == max_lifetime
            &&& m.order.len() == 0
            &&& !m.lifecycle.contains_key(s)
        }),
{
}

/// Without a rate limit every creation is admitted, holds no slot, and asking
/// changes nothing.
pub proof fn without_rate_limit_every_creation_is_admitted(m: ManagerView, now: Instant)
    requires
        m.limiter is None,
    ensures
        m.admits(now),
        m.slot(now) is None,
        m.reserved(now) == m,
{
}

/// With a rate limit a creation is admitted exactly if, once the `k` slots at the
/// front that are more than a window old are forgotten, fewer than `max_creates`
/// are left. It then holds a slot of that instant, and nothing but the slots has
/// changed. Neither the sessions nor any other limit have a say in it.
pub proof fn rate_limit_admits_while_the_window_has_room(
    m: ManagerView,
    limiter: RateLimiterView,
    now: Instant,
    k: int,
)
    requires
        m.limiter == Some(limiter),
        0 <= k <= limiter.tracker.len(),
        forall|i: int|
            0 <= i < k ==> now.nanos - (#[trigger] limiter.tracker[i]).nanos
                > limiter.window.nanos,
        k < limiter.tracker.len() ==> now.nanos - limiter.tracker[k].nanos
            <= limiter.window.nanos,
    ensures
        m.admits(now) <==> limiter.tracker.len() - k < limiter.max_creates,
        m.admits(now) ==> m.slot(now) == Some(now),
        same_limits(m.reserved(now), m),
        m.reserved(now).order == m.order,
        m.reserved(now).lifecycle == m.lifecycle,
        m.reserved(now).limiter == Some(
            RateLimiterView {
                max_creates: limiter.max_creates,
                window: limiter.window,
                tracker: if m.admits(now) {
                    limiter.tracker.skip(k).push(now)
                } else {
                    limiter.tracker.skip(k)
                },
            },
        ),
{
    request_counts_the_slots_of_one_window(limiter, now, k);
}

/// A failed creation that holds no slot gives back nothing, and nor does one of a
/// manager without a rate limit.
pub proof fn without_slot_nothing_is_given_back(m: ManagerView, slot: Option<Instant>)
    requires
        slot is None || m.limiter is None,
    ensures
        m.rolled_back(slot) == m,
{
}

/// A failed creation gives back the slot that it holds, the latest of its
/// instant, at place `p` if it is still remembered; the sessions stay as they
/// were.
pub proof fn failed_creation_gives_back_its_slot(
    m: ManagerView,
    limiter: RateLimiterView,
    slot: Instant,
    p: int,
)
    requires
        m.limiter == Some(limiter),
        -1 <= p < limiter.tracker.len(),
        p >= 0 ==> limiter.tracker[p] == slot,
        forall|i: int| p < i < limiter.tracker.len() ==> #[trigger] limiter.tracker[i] != slot,
    ensures
        same_limits(m.rolled_back(Some(slot)), m),
        m.rolled_back(Some(slot)).order == m.order,
        m.rolled_back(Some(slot)).lifecycle == m.lifecycle,
        m.rolled_back(Some(slot)).limiter == Some(
            RateLimiterView {
                max_creates: limiter.max_creates,
                window: limiter.window,
                tracker: if p >= 0 {
                    limiter.tracker.take(p) + limiter.tracker.skip(p + 1)
                } else {
                    limiter.tracker
                },
            },
        ),
{
    one_slot_is_given_back(limiter, slot, p);
}

/// A session makes room exactly when as many live as may, and one is known; it is
/// the first in the creation order. Nothing else has a say in it.
pub proof fn first_in_order_makes_room(m: ManagerView, live_count: nat)
    ensures
        live_count < m.max_sessions ==> m.eviction(live_count) is None,
        m.order.len() == 0 ==> m.eviction(live_count) is None,
        live_count >= m.max_sessions && m.order.len() > 0 ==> m.eviction(live_count) == Some(
            m.order.first(),
        ),
{
}

proof fn lemma_filter_both(
    order: Seq<Seq<char>>,
    one: spec_fn(Seq<char>) -> bool,
    two: spec_fn(Seq<char>) -> bool,
    both: spec_fn(Seq<char>) -> bool,
)
    requires
        forall|s: Seq<char>| #[trigger] both(s) <==> one(s) && two(s),
    ensures
        order.filter(one).filter(two) == order.filter(both),
    decreases order.len(),
{
    reveal(Seq::filter);
    if order.len() > 0 {
        let front = order.drop_last();
        lemma_filter_both(front, one, two, both);
        assert(both(order.last()) <==> one(order.last()) && two(order.last()));
        if one(order.last()) {
            assert(front.filter(one).push(order.last()).drop_last() == front.filter(one));
        }
    }
}

proof fn lemma_filter_same(
    order: Seq<Seq<char>>,
    one: spec_fn(Seq<char>) -> bool,
    two: spec_fn(Seq<char>) -> bool,
)
    requires
        forall|s: Seq<char>| #[trigger] one(s) <==> two(s),
    ensures
        order.filter(one) == order.filter(two),
    decreases order.len(),
{
    reveal(Seq::filter);
    if order.len() > 0 {
        lemma_filter_same(order.drop_last(), one, two);
        assert(one(order.last()) <==> two(order.last()));
    }
}

/// A session that was created comes last in the creation order, behind those that
/// live and did not make room, which keep their places. It is tracked from that
/// moment, without a timer. No other session's entry is touched, and no limit.
pub proof fn creation_touches_only_the_new_session(
    m: ManagerView,
    evicted: Option<Seq<char>>,
    id: Seq<char>,
    live: Set<Seq<char>>,
    now: Instant,
    other: Seq<char>,
)
    ensures
        ({
            let n = m.created(evicted, id, live, now);
            &&& n.order == m.order.filter(
                |s: Seq<char>| live.contains(s) && evicted != Some(s),
            ).push(id)
            &&& n.lifecycle.contains_key(id)
            &&& n.lifecycle[id].created_at == now
            &&& n.lifecycle[id].abort_handle is None
            &&& other != id ==> (n.lifecycle.contains_key(other) <==> m.lifecycle.contains_key(
                other,
            ))
            &&& other != id && m.lifecycle.contains_key(other) ==> n.lifecycle[other]
                == m.lifecycle[other]
            &&& n.limiter == m.limiter
            &&& same_limits(n, m)
        }),
{
    let both = |s: Seq<char>| live.contains(s) && evicted != Some(s);
    match evicted {
        Some(oldest) => {
            lemma_filter_both(m.order, other_than(oldest), among(live), both);
        },
        None => {
            lemma_filter_same(m.order, among(live), both);
        },
    }
}

/// A timer is kept for a session that is tracked, from when it is registered; how
/// long the session has lasted does not change with it. Without a timer, or for a
/// session that is no longer tracked, nothing changes; and no other session's
/// entry is touched.
pub proof fn timer_touches_only_its_session(
    m: ManagerView,
    id: Seq<char>,
    timer: Option<AbortHandle>,
    other: Seq<char>,
)
    ensures
        ({
            let n = m.timed(id, timer);
            &&& timer is None || !m.lifecycle.contains_key(id) ==> n == m
            &&& m.lifecycle.contains_key(id) && timer is Some ==> {
                &&& n.lifecycle[id].abort_handle == timer
                &&& n.lifecycle[id].created_at == m.lifecycle[id].created_at
            }
            &&& n.lifecycle.contains_key(other) <==> m.lifecycle.contains_key(other)
            &&& other != id && m.lifecycle.contains_key(other) ==> n.lifecycle[other]
                == m.lifecycle[other]
            &&& n.order == m.order
            &&& n.limiter == m.limiter
            &&& same_limits(n, m)
        }),
{
}

/// The first half of a close stops the session being tracked, the second takes it
/// out of the creation order, in which the others keep their places. Neither
/// touches another session, a slot or a limit.
pub proof fn close_touches_only_its_session(m: ManagerView, id: Seq<char>, other: Seq<char>)
    ensures
        ({
            let begun = m.untracked(id);
            &&& !begun.lifecycle.contains_key(id)
            &&& other != id ==> (begun.lifecycle.contains_key(other)
                <==> m.lifecycle.contains_key(other))
            &&& other != id && m.lifecycle.contains_key(other) ==> begun.lifecycle[other]
                == m.lifecycle[other]
            &&& begun.order == m.order
            &&& begun.limiter == m.limiter
            &&& same_limits(begun, m)
        }),
        ({
            let done = m.unordered(id);
            &&& done.order == m.order.filter(|s: Seq<char>| s != id)
            &&& done.lifecycle == m.lifecycle
            &&& done.limiter == m.limiter
            &&& same_limits(done, m)
        }),
{
    lemma_filter_same(m.order, other_than(id), |s: Seq<char>| s != id);
}

/// What a close logs: nothing for a session that is not tracked; else the session,
/// the reason, and the time that has passed since it was opened, which added to
/// the moment of its opening gives the moment of the close.
pub proof fn close_logs_the_age_of_a_tracked_session(
    m: ManagerView,
    id: Seq<char>,
    reason: CloseReason,
    now: Instant,
)
    ensures
        ({
            let closing = m.closing(id, reason, now);
            &&& closing.id == id
            &&& closing.record() is Some <==> m.lifecycle.contains_key(id)
            &&& closing.record() matches Some(record) ==> {
                &&& record.id == id
                &&& record.reason == reason
                &&& m.lifecycle[id].created_at.nanos <= now.nanos
                    ==> m.lifecycle[id].created_at.nanos + record.elapsed.nanos == now.nanos
                &&& m.lifecycle[id].created_at.nanos > now.nanos ==> record.elapsed.nanos == 0
            }
        }),
{
}

/// A log record holds what the close under way says.
pub proof fn record_repeats_the_close(closing: ClosingView, record: CloseRecord)
    ensures
        logged(None) is None,
        logged(Some(record)) == closing.record() ==> {
            &&& closing.lasted == Some(record.elapsed)
            &&& record.session_id@ == closing.id
            &&& record.reason == closing.reason
        },
        closing.lasted is None ==> logged(None) == closing.record(),
        closing.lasted is Some ==> logged(None) != closing.record(),
{
}

/// The timer that a close hands out is the one that is kept for the session, and
/// only for a session that is tracked.
pub proof fn close_hands_out_the_timer_that_is_kept(m: ManagerView, id: Seq<char>)
    ensures
        m.lifecycle.contains_key(id) ==> m.timer_of(id) == m.lifecycle[id].abort_handle,
        !m.lifecycle.contains_key(id) ==> m.timer_of(id) is None,
{
}

/// A caller learns of a close what the session itself answered: that it
/// succeeded, or the error as it is.
pub proof fn answer_of_the_session_is_passed_on(error: LocalSessionManagerError)
    ensures
        passed_on(Ok(())) is Ok,
        passed_on(Err(error)) == Err::<(), BoundedSessionError>(BoundedSessionError::Inner(error)),
        <BoundedSessionError as FromSpec<LocalSessionManagerError>>::from_spec(error)
            == BoundedSessionError::Inner(error),
{
}

/// Of the sessions in the creation order those that do not live are dropped, and
/// nothing else changes.
pub proof fn only_lost_sessions_are_dropped(m: ManagerView, live: Set<Seq<char>>)
    ensures
        m.without_lost(live).order == m.order.filter(|s: Seq<char>| live.contains(s)),
        m.without_lost(live).lifecycle == m.lifecycle,
        m.without_lost(live).limiter == m.limiter,
        same_limits(m.without_lost(live), m),
{
    lemma_filter_same(m.order, among(live), |s: Seq<char>| live.contains(s));
}

/// The sessions beyond the limit are the first in the creation order, as many as
/// have to go for the rest to be within the limit.
pub proof fn surplus_and_rest_make_up_the_order(m: ManagerView)
    ensures
        m.surplus() + m.order.skip(m.surplus().len() as int) == m.order,
        m.order.len() <= m.max_sessions ==> m.surplus().len() == 0,
        m.order.len() > m.max_sessions ==> m.order.len() - m.surplus().len() == m.max_sessions,
{
}

/// A list of sessions names each session in it, and no other.
pub proof fn listed_sessions(ids: Seq<SessionId>, s: Seq<char>)
    ensures
        id_texts(ids).len() == ids.len(),
        forall|i: int| 0 <= i < ids.len() ==> #[trigger] id_texts(ids)[i] == ids[i]@,
        id_texts(ids).to_set().contains(s) <==> exists|i: int|
            0 <= i < ids.len() && #[trigger] ids[i]@ == s,
{
    if id_texts(ids).to_set().contains(s) {
        let i = choose|i: int| 0 <= i < id_texts(ids).len() && id_texts(ids)[i] == s;
        assert(ids[i]@ == s);
    }
    if exists|i: int| 0 <= i < ids.len() && #[trigger] ids[i]@ == s {
        let i = choose|i: int| 0 <= i < ids.len() && #[trigger] ids[i]@ == s;
        assert(id_texts(ids)[i] == s);
    }
}

} // verus!
