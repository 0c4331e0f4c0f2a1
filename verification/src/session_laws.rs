use rmcp::transport::streamable_http_server::session::local::LocalSessionManagerError;
use tokio::task::AbortHandle;
use vstd::prelude::*;

use crate::clock::{Duration, Instant};
use crate::config::SessionConfig;
use crate::error::BoundedSessionError;
use crate::manager::{passed_on, ManagerView, RecordView};
use crate::reason::CloseReason;
use crate::order::{among, other_than};
use crate::rate_limit::RateLimiterView;

verus! {

/// What may happen to the sessions of a manager whose calls do not overlap.
pub enum SessionEvent {
    /// A session is asked for at `now`; if it is admitted, `id` is opened at
    /// `opened_at` and registered with `timer`.
    Create { now: Instant, id: Seq<char>, opened_at: Instant, timer: Option<AbortHandle> },
    /// A session is asked for at `now`; if it is admitted, opening it fails.
    CreateFails { now: Instant },
    /// The session `id` is closed, for whatever reason.
    Close { id: Seq<char> },
    /// The session `id` ends without the manager being told.
    Lost { id: Seq<char> },
}

/// A manager beside the sessions that live, and the number under which each
/// session that ever lived was created.
pub struct World {
    pub manager: ManagerView,
    pub live: Set<Seq<char>>,
    pub born: Map<Seq<char>, nat>,
    pub births: nat,
}

impl World {
    /// A manager that has not created a session yet.
    pub open spec fn start(
        config: SessionConfig,
        max_sessions: nat,
        limiter: Option<RateLimiterView>,
        max_lifetime: Option<Duration>,
    ) -> World {
        World {
            manager: ManagerView::fresh(config, max_sessions, limiter, max_lifetime),
            live: Set::empty(),
            born: Map::empty(),
            births: 0,
        }
    }

    /// After the session `id` was closed: both halves of a close, and the
    /// session itself in between.
    pub open spec fn closed(self, id: Seq<char>) -> World {
        World {
            manager: self.manager.untracked(id).unordered(id),
            live: self.live.remove(id),
            ..self
        }
    }

    /// The session that is evicted for a new one.
    pub open spec fn victim(self) -> Option<Seq<char>> {
        self.manager.eviction(self.live.len())
    }

    /// After a creation was admitted at `now` and the victim closed.
    pub open spec fn with_room(self, now: Instant) -> World {
        let reserved = World { manager: self.manager.reserved(now), ..self };
        match self.victim() {
            Some(oldest) => reserved.closed(oldest),
            None => reserved,
        }
    }

    /// After a creation was admitted at `now`, the victim closed, and the session
    /// `id` opened at `opened_at`.
    pub open spec fn with_session(self, now: Instant, id: Seq<char>, opened_at: Instant) -> World {
        let room = self.with_room(now);
        let live = room.live.insert(id);
        World {
            manager: room.manager.created(self.victim(), id, live, opened_at),
            live,
            born: room.born.insert(id, room.births),
            births: room.births + 1,
        }
    }

    /// After one event. The last step of a creation finds nothing to close or to
    /// drop, as [`calls_in_turn_leave_no_surplus`] states.
    pub open spec fn after(self, event: SessionEvent) -> World {
        match event {
            SessionEvent::Create { now, id, opened_at, timer } => if self.manager.admits(now) {
                let opened = self.with_session(now, id, opened_at);
                World { manager: opened.manager.timed(id, timer), ..opened }
            } else {
                World { manager: self.manager.reserved(now), ..self }
            },
            SessionEvent::CreateFails { now } => if self.manager.admits(now) {
                let room = self.with_room(now);
                World { manager: room.manager.rolled_back(self.manager.slot(now)), ..room }
            } else {
                World { manager: self.manager.reserved(now), ..self }
            },
            SessionEvent::Close { id } => self.closed(id),
            SessionEvent::Lost { id } => World { live: self.live.remove(id), ..self },
        }
    }

    /// After a sequence of events.
    pub open spec fn after_all(self, events: Seq<SessionEvent>) -> World
        decreases events.len(),
    {
        if events.len() == 0 {
            self
        } else {
            self.after_all(events.drop_last()).after(events.last())
        }
    }

    /// Every session is created under an identifier that was never used before.
    pub open spec fn fresh_ids(self, events: Seq<SessionEvent>) -> bool
        decreases events.len(),
    {
        events.len() > 0 ==> {
            &&& self.fresh_ids(events.drop_last())
            &&& events.last() matches SessionEvent::Create { id, .. }
                ==> !self.after_all(events.drop_last()).born.contains_key(id)
        }
    }

    /// The creation order lists sessions by birth.
    pub open spec fn ordered(self) -> bool {
        ranked(self.manager.order, self.born, self.births)
    }

    /// What holds between any two calls: the sessions that live are within the
    /// limit, all of them stand in the creation order and are registered, and
    /// the order holds no others while the limit is reached.
    pub open spec fn sound(self) -> bool {
        &&& self.manager.max_sessions >= 1
        &&& self.live.finite()
        &&& self.live.len() <= self.manager.max_sessions
        &&& self.ordered()
        &&& forall|s: Seq<char>| #[trigger]
            self.live.contains(s) ==> self.manager.order.contains(s)
                && self.manager.lifecycle.contains_key(s)
        &&& self.live.len() == self.manager.max_sessions ==> forall|s: Seq<char>| #[trigger]
            self.manager.order.contains(s) ==> self.live.contains(s)
    }
}

/// Each session in `order` was born before those behind it, and before `births`.
pub open spec fn ranked(order: Seq<Seq<char>>, born: Map<Seq<char>, nat>, births: nat) -> bool {
    &&& forall|i: int|
        0 <= i < order.len() ==> born.contains_key(#[trigger] order[i]) && born[order[i]] < births
    &&& forall|i: int, j: int|
        0 <= i < j < order.len() ==> born[#[trigger] order[i]] < born[#[trigger] order[j]]
}

proof fn lemma_filter_contains(order: Seq<Seq<char>>, keep: spec_fn(Seq<char>) -> bool)
    ensures
        forall|s: Seq<char>| #[trigger]
            order.filter(keep).contains(s) <==> order.contains(s) && keep(s),
    decreases order.len(),
{
    reveal(Seq::filter);
    if order.len() > 0 {
        let front = order.drop_last();
        let kept = front.filter(keep);
        lemma_filter_contains(front, keep);
        assert(order == front.push(order.last()));
        assert forall|s: Seq<char>| #[trigger]
            order.filter(keep).contains(s) <==> order.contains(s) && keep(s) by {
            lemma_push_contains(front, order.last(), s);
            lemma_push_contains(kept, order.last(), s);
        }
    }
}

pub(crate) proof fn lemma_push_contains(front: Seq<Seq<char>>, last: Seq<char>, s: Seq<char>)
    ensures
        front.push(last).contains(s) <==> front.contains(s) || s == last,
{
    if front.contains(s) {
        let k = choose|k: int| 0 <= k < front.len() && front[k] == s;
        assert(front.push(last)[k] == s);
    }
    assert(front.push(last)[front.len() as int] == last);
}

pub(crate) proof fn lemma_filter_ranked(
    order: Seq<Seq<char>>,
    keep: spec_fn(Seq<char>) -> bool,
    born: Map<Seq<char>, nat>,
    births: nat,
)
    requires
        ranked(order, born, births),
    ensures
        ranked(order.filter(keep), born, births),
        forall|s: Seq<char>| #[trigger]
            order.filter(keep).contains(s) <==> order.contains(s) && keep(s),
    decreases order.len(),
{
    reveal(Seq::filter);
    lemma_filter_contains(order, keep);
    if order.len() > 0 {
        let front = order.drop_last();
        let last = order.last();
        assert(order[order.len() - 1] == last);
        assert(ranked(front, born, births)) by {
            assert forall|i: int| 0 <= i < front.len() implies born.contains_key(
                #[trigger] front[i],
            ) && born[front[i]] < births by {
                assert(front[i] == order[i]);
            }
            assert forall|i: int, j: int| 0 <= i < j < front.len() implies born[#[trigger] front[i]]
                < born[#[trigger] front[j]] by {
                assert(front[i] == order[i] && front[j] == order[j]);
            }
        }
        lemma_filter_ranked(front, keep, born, births);
        let kept = front.filter(keep);
        assert forall|i: int| 0 <= i < kept.len() implies born[#[trigger] kept[i]]
            < born[last] by {
            assert(kept.contains(kept[i]));
            assert(front.contains(kept[i]));
            let k = choose|k: int| 0 <= k < front.len() && front[k] == kept[i];
            assert(order[k] == kept[i]);
        }
    }
}

proof fn lemma_close_sound(w: World, id: Seq<char>)
    requires
        w.sound(),
    ensures
        w.closed(id).sound(),
{
    lemma_filter_ranked(w.manager.order, other_than(id), w.born, w.births);
    let c = w.closed(id);
    if c.live.len() == c.manager.max_sessions {
        assert(!w.live.contains(id));
        assert(c.live == w.live);
    }
}

/// Where the limit is reached there is a victim, and it lives.
proof fn lemma_victim(w: World)
    requires
        w.sound(),
    ensures
        w.victim() is None <==> w.live.len() < w.manager.max_sessions,
        w.victim() matches Some(oldest) ==> w.live.contains(oldest),
{
    if w.live.len() >= w.manager.max_sessions {
        assert(w.live.len() > 0);
        let s = w.live.choose();
        assert(w.live.contains(s));
        assert(w.manager.order.contains(s));
        assert(w.manager.order.contains(w.manager.order[0]));
    }
}

proof fn lemma_room_sound(w: World, now: Instant)
    requires
        w.sound(),
    ensures
        w.with_room(now).sound(),
        w.with_room(now).live.len() < w.manager.max_sessions,
        w.with_room(now).born == w.born,
        w.with_room(now).births == w.births,
        w.with_room(now).manager.max_sessions == w.manager.max_sessions,
{
    let reserved = World { manager: w.manager.reserved(now), ..w };
    assert(reserved.sound());
    lemma_victim(w);
    match w.victim() {
        Some(oldest) => {
            lemma_close_sound(reserved, oldest);
        },
        None => {},
    }
}

proof fn lemma_after_sound(w: World, event: SessionEvent)
    requires
        w.sound(),
        event matches SessionEvent::Create { id, .. } ==> !w.born.contains_key(id),
    ensures
        w.after(event).sound(),
        w.after(event).manager.max_sessions == w.manager.max_sessions,
{
    match event {
        SessionEvent::Create { now, id, opened_at, timer } => {
            if w.manager.admits(now) {
                let room = w.with_room(now);
                lemma_room_sound(w, now);
                let live = room.live.insert(id);
                let rest = match w.victim() {
                    Some(oldest) => room.manager.unordered(oldest),
                    None => room.manager,
                };
                if let Some(oldest) = w.victim() {
                    lemma_filter_ranked(
                        room.manager.order,
                        other_than(oldest),
                        room.born,
                        room.births,
                    );
                }
                lemma_filter_ranked(rest.order, among(live), room.born, room.births);
                let kept = rest.order.filter(among(live));
                let n = w.after(event);
                assert(n.manager.order == kept.push(id));
                assert forall|i: int| 0 <= i < kept.len() implies kept[i] != id
                    && #[trigger] n.manager.order[i] == kept[i] by {
                    assert(room.born.contains_key(kept[i]));
                }
                assert(n.ordered());
                assert(!room.live.contains(id)) by {
                    if room.live.contains(id) {
                        assert(room.manager.order.contains(id));
                        let k = choose|k: int|
                            0 <= k < room.manager.order.len() && room.manager.order[k] == id;
                        assert(room.born.contains_key(room.manager.order[k]));
                    }
                }
                assert forall|s: Seq<char>| #[trigger] n.live.contains(s) implies n.manager.order.contains(
                s) && n.manager.lifecycle.contains_key(s) by {
                    if s == id {
                        assert(n.manager.order[kept.len() as int] == s);
                    } else {
                        assert(room.live.contains(s));
                        assert(room.manager.order.contains(s));
                        if let Some(oldest) = w.victim() {
                            assert(s != oldest);
                        }
                        assert(rest.order.contains(s));
                        assert(kept.contains(s));
                        let k = choose|k: int| 0 <= k < kept.len() && kept[k] == s;
                        assert(n.manager.order[k] == s);
                    }
                }
                assert forall|s: Seq<char>| #[trigger]
                    n.manager.order.contains(s) implies n.live.contains(s) by {
                    let k = choose|k: int|
                        0 <= k < n.manager.order.len() && n.manager.order[k] == s;
                    if k < kept.len() {
                        assert(kept.contains(kept[k]));
                    }
                }
            }
        },
        SessionEvent::CreateFails { now } => {
            if w.manager.admits(now) {
                lemma_room_sound(w, now);
            }
        },
        SessionEvent::Close { id } => {
            lemma_close_sound(w, id);
        },
        SessionEvent::Lost { id } => {
            if w.after(event).live.len() == w.manager.max_sessions {
                assert(w.after(event).live == w.live);
            }
        },
    }
}

/// The limit holds: however sessions are created, closed and lost, one call
/// after the other, no more than `max_sessions` live, and each that lives
/// stands in the creation order and is registered.
pub proof fn sessions_stay_within_limit(
    config: SessionConfig,
    max_sessions: nat,
    limiter: Option<RateLimiterView>,
    max_lifetime: Option<Duration>,
    events: Seq<SessionEvent>,
)
    requires
        max_sessions >= 1,
        World::start(config, max_sessions, limiter, max_lifetime).fresh_ids(events),
    ensures
        World::start(config, max_sessions, limiter, max_lifetime).after_all(events).sound(),
        World::start(config, max_sessions, limiter, max_lifetime).after_all(events).live.len()
            <= max_sessions,
        World::start(config, max_sessions, limiter, max_lifetime).after_all(
            events,
        ).manager.max_sessions == max_sessions,
    decreases events.len(),
{
    let start = World::start(config, max_sessions, limiter, max_lifetime);
    if events.len() > 0 {
        sessions_stay_within_limit(
            config,
            max_sessions,
            limiter,
            max_lifetime,
            events.drop_last(),
        );
        lemma_after_sound(start.after_all(events.drop_last()), events.last());
    }
}

/// Calls that do not overlap leave nothing to trim: after any such events, a
/// creation leaves no session beyond the limit, and none in the creation order
/// that does not live.
pub proof fn calls_in_turn_leave_no_surplus(
    config: SessionConfig,
    max_sessions: nat,
    limiter: Option<RateLimiterView>,
    max_lifetime: Option<Duration>,
    events: Seq<SessionEvent>,
    now: Instant,
    id: Seq<char>,
    opened_at: Instant,
)
    requires
        max_sessions >= 1,
        World::start(config, max_sessions, limiter, max_lifetime).fresh_ids(events),
        ({
            let w = World::start(config, max_sessions, limiter, max_lifetime).after_all(events);
            w.manager.admits(now) && !w.born.contains_key(id)
        }),
    ensures
        ({
            let n = World::start(config, max_sessions, limiter, max_lifetime).after_all(
                events,
            ).with_session(now, id, opened_at);
            &&& n.manager.surplus().len() == 0
            &&& n.manager.without_lost(n.live) == n.manager
        }),
{
    sessions_stay_within_limit(config, max_sessions, limiter, max_lifetime, events);
    let w = World::start(config, max_sessions, limiter, max_lifetime).after_all(events);
    lemma_after_sound(w, SessionEvent::Create { now, id, opened_at, timer: None });
    let n = w.with_session(now, id, opened_at);
    let order = n.manager.order;
    lemma_room_sound(w, now);
    let rest = match w.victim() {
        Some(oldest) => w.with_room(now).manager.unordered(oldest),
        None => w.with_room(now).manager,
    };
    lemma_filter_contains(rest.order, among(n.live));
    assert forall|s: Seq<char>| #[trigger] order.to_set().contains(s) implies n.live.contains(
        s,
    ) by {
        lemma_push_contains(rest.order.filter(among(n.live)), id, s);
    }
    assert(order.no_duplicates()) by {
        assert(n.ordered());
    }
    order.unique_seq_to_set();
    vstd::set_lib::lemma_len_subset(order.to_set(), n.live);
    assert(order.filter(among(n.live)) == order) by {
        reveal(Seq::filter);
        let kept = rest.order.filter(among(n.live));
        lemma_filter_twice(rest.order, among(n.live));
        assert(order.drop_last() == kept);
        assert(order.last() == id);
    }
}

/// Eviction is first in, first out: after any such events, the next creation
/// evicts a session exactly when the limit is reached, and that session lives
/// and was created before every other that lives.
pub proof fn oldest_session_is_evicted(
    config: SessionConfig,
    max_sessions: nat,
    limiter: Option<RateLimiterView>,
    max_lifetime: Option<Duration>,
    events: Seq<SessionEvent>,
)
    requires
        max_sessions >= 1,
        World::start(config, max_sessions, limiter, max_lifetime).fresh_ids(events),
    ensures
        ({
            let w = World::start(config, max_sessions, limiter, max_lifetime).after_all(events);
            &&& w.victim() is Some <==> w.live.len() == max_sessions
            &&& w.victim() matches Some(oldest) ==> w.live.contains(oldest) && forall|s: Seq<char>|
                #[trigger] w.live.contains(s) && s != oldest ==> w.born[oldest] < w.born[s]
        }),
{
    sessions_stay_within_limit(config, max_sessions, limiter, max_lifetime, events);
    let w = World::start(config, max_sessions, limiter, max_lifetime).after_all(events);
    lemma_victim(w);
    if let Some(oldest) = w.victim() {
        assert forall|s: Seq<char>| #[trigger] w.live.contains(s) && s != oldest implies w.born[oldest]
            < w.born[s] by {
            assert(w.manager.order.contains(s));
            let k = choose|k: int| 0 <= k < w.manager.order.len() && w.manager.order[k] == s;
            assert(w.manager.order[0] == oldest);
        }
    }
}

/// A closed session is gone: it does not live, has no entry and stands in no
/// order. Every other session stays as it was.
pub proof fn closed_session_is_gone(w: World, id: Seq<char>, other: Seq<char>)
    requires
        other != id,
    ensures
        ({
            let c = w.closed(id);
            &&& !c.live.contains(id)
            &&& !c.manager.lifecycle.contains_key(id)
            &&& !c.manager.order.contains(id)
            &&& c.live.contains(other) == w.live.contains(other)
            &&& c.manager.lifecycle.contains_key(other) == w.manager.lifecycle.contains_key(other)
            &&& c.manager.lifecycle[other] == w.manager.lifecycle[other]
            &&& c.manager.order.contains(other) == w.manager.order.contains(other)
        }),
{
    lemma_filter_contains(w.manager.order, other_than(id));
}

/// An admitted creation closes the victim and no other session, and the new
/// session lives.
pub proof fn creation_replaces_only_the_victim(
    w: World,
    now: Instant,
    id: Seq<char>,
    opened_at: Instant,
    timer: Option<AbortHandle>,
)
    requires
        w.manager.admits(now),
    ensures
        ({
            let n = w.after(SessionEvent::Create { now, id, opened_at, timer });
            &&& n.live == (match w.victim() {
                Some(oldest) => w.live.remove(oldest).insert(id),
                None => w.live.insert(id),
            })
            &&& n.manager.order.last() == id
            &&& n.manager.lifecycle.contains_key(id)
            &&& n.manager.lifecycle[id].created_at == opened_at
            &&& n.manager.lifecycle[id].abort_handle == timer
        }),
{
}

/// A creation that exceeds the rate limit evicts nothing: the sessions, their
/// order and their entries stay as they were.
pub proof fn rate_limited_creation_evicts_nothing(
    w: World,
    now: Instant,
    id: Seq<char>,
    opened_at: Instant,
    timer: Option<AbortHandle>,
)
    requires
        !w.manager.admits(now),
    ensures
        ({
            let n = w.after(SessionEvent::Create { now, id, opened_at, timer });
            &&& n.live == w.live
            &&& n.manager.order == w.manager.order
            &&& n.manager.lifecycle == w.manager.lifecycle
        }),
{
}

/// A failed creation holds no slot: the limiter is left as if only the expired
/// slots had been forgotten.
pub proof fn failed_creation_holds_no_slot(w: World, now: Instant)
    ensures
        w.after(SessionEvent::CreateFails { now }).manager.limiter == (match w.manager.limiter {
            Some(limiter) => Some(limiter.pruned(now)),
            None => None,
        }),
{
    if let Some(limiter) = w.manager.limiter {
        if limiter.admits(now) {
            let kept = limiter.pruned(now).tracker;
            assert(kept.push(now).drop_last() == kept);
            assert(limiter.reserved(now).rolled_back(now) == limiter.pruned(now));
        }
    }
}

/// There is exactly one lifecycle entry for each session that lives, as long as
/// the manager is told of every session that ends. In particular, once no
/// session lives, no entry is left, and with it no timer.
pub proof fn one_entry_for_each_live_session(
    config: SessionConfig,
    max_sessions: nat,
    limiter: Option<RateLimiterView>,
    max_lifetime: Option<Duration>,
    events: Seq<SessionEvent>,
)
    requires
        forall|i: int| 0 <= i < events.len() ==> !(#[trigger] events[i] is Lost),
    ensures
        ({
            let w = World::start(config, max_sessions, limiter, max_lifetime).after_all(events);
            w.manager.lifecycle.dom() == w.live
        }),
    decreases events.len(),
{
    let start = World::start(config, max_sessions, limiter, max_lifetime);
    if events.len() == 0 {
        assert(start.manager.lifecycle.dom() == start.live);
    } else {
        let before = events.drop_last();
        assert forall|i: int| 0 <= i < before.len() implies !(#[trigger] before[i] is Lost) by {
            assert(before[i] == events[i]);
        }
        one_entry_for_each_live_session(config, max_sessions, limiter, max_lifetime, before);
        let w = start.after_all(before);
        assert(events[events.len() - 1] == events.last());
        assert(w.after(events.last()).manager.lifecycle.dom() == w.after(events.last()).live);
    }
}

/// After the first half of a close no timer of the session is left to be
/// aborted and a second close of it logs nothing; and a second close changes
/// nothing more.
pub proof fn second_close_changes_nothing(
    manager: ManagerView,
    id: Seq<char>,
    reason: CloseReason,
    now: Instant,
)
    ensures
        manager.untracked(id).timer_of(id) is None,
        manager.untracked(id).closing(id, reason, now).record() is None,
        manager.untracked(id).untracked(id) == manager.untracked(id),
        manager.unordered(id).unordered(id) == manager.unordered(id),
{
    assert(manager.lifecycle.remove(id).remove(id) == manager.lifecycle.remove(id));
    lemma_filter_twice(manager.order, other_than(id));
}

/// A close hands out the timer that the session was registered with, and logs
/// how long ago the session was opened; a close of another session takes
/// neither away.
pub proof fn close_hands_out_the_timer(
    manager: ManagerView,
    id: Seq<char>,
    timer: Option<AbortHandle>,
    reason: CloseReason,
    other: Seq<char>,
    now: Instant,
)
    requires
        manager.lifecycle.contains_key(id),
        manager.lifecycle[id].abort_handle is None,
        other != id,
    ensures
        manager.timed(id, timer).timer_of(id) == timer,
        manager.timed(id, timer).closing(id, reason, now).record() == Some(
            RecordView {
                id,
                elapsed: Duration {
                    nanos: now.since(manager.lifecycle[id].created_at) as u128,
                },
                reason,
            },
        ),
        manager.untracked(other).timer_of(id) == manager.timer_of(id),
        manager.untracked(other).closing(id, reason, now) == manager.closing(id, reason, now),
{
}

/// What comes of a close.
pub struct CloseEffect {
    /// The manager afterwards.
    pub manager: ManagerView,
    /// The timer that is to be aborted.
    pub timer: Option<AbortHandle>,
    /// What is logged.
    pub record: Option<RecordView>,
    /// What the caller is told.
    pub result: Result<(), BoundedSessionError>,
}

/// Both halves of a close of the session `id` that begins at `now`, where the
/// session itself is closed with `outcome`.
pub open spec fn close(
    manager: ManagerView,
    id: Seq<char>,
    reason: CloseReason,
    now: Instant,
    outcome: Result<(), LocalSessionManagerError>,
) -> CloseEffect {
    let closing = manager.closing(id, reason, now);
    CloseEffect {
        manager: manager.untracked(id).unordered(closing.id),
        timer: manager.timer_of(id),
        record: closing.record(),
        result: passed_on(outcome),
    }
}

/// The reason of a close shows in its log record and nowhere else: two closes
/// of one session that begin at one moment in one state, for different reasons,
/// leave the same manager, abort the same timer, tell the caller the same, and
/// log the same but for the reason.
pub proof fn reason_shows_only_in_the_record(
    manager: ManagerView,
    id: Seq<char>,
    one: CloseReason,
    two: CloseReason,
    now: Instant,
    outcome: Result<(), LocalSessionManagerError>,
)
    ensures
        close(manager, id, two, now, outcome) == (CloseEffect {
            record: match close(manager, id, one, now, outcome).record {
                Some(record) => Some(RecordView { reason: two, ..record }),
                None => None,
            },
            ..close(manager, id, one, now, outcome)
        }),
{
}

proof fn lemma_filter_twice(order: Seq<Seq<char>>, keep: spec_fn(Seq<char>) -> bool)
    ensures
        order.filter(keep).filter(keep) == order.filter(keep),
    decreases order.len(),
{
    reveal(Seq::filter);
    if order.len() > 0 {
        let front = order.drop_last();
        lemma_filter_twice(front, keep);
        if keep(order.last()) {
            assert(front.filter(keep).push(order.last()).drop_last() == front.filter(keep));
        }
    }
}

} // verus!
