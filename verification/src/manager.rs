use rmcp::transport::streamable_http_server::session::local::LocalSessionManagerError;
use tokio::task::AbortHandle;
use vstd::prelude::*;

use crate::clock::{Duration, Instant};
use crate::config::SessionConfig;
use crate::error::BoundedSessionError;
use crate::lifecycle::{LifecycleTable, SessionLifecycleEntry};
use crate::order::{among, id_texts, other_than, CreationOrder, SessionId};
use crate::rate_limit::{RateLimiter, RateLimiterView};
use crate::reason::CloseReason;

verus! {

/// The state of a bounded session manager.
pub struct ManagerView {
    /// The settings that sessions are opened with.
    pub config: SessionConfig,
    /// How many sessions may live at once.
    pub max_sessions: nat,
    /// The sessions in the order in which they were created, oldest first.
    pub order: Seq<Seq<char>>,
    /// The limit on the rate of creation, if there is one.
    pub limiter: Option<RateLimiterView>,
    /// How long a session may live, if that is limited.
    pub max_lifetime: Option<Duration>,
    /// The lifecycle entry of each tracked session.
    pub lifecycle: Map<Seq<char>, SessionLifecycleEntry>,
}

impl ManagerView {
    /// A manager without sessions.
    pub open spec fn fresh(
        config: SessionConfig,
        max_sessions: nat,
        limiter: Option<RateLimiterView>,
        max_lifetime: Option<Duration>,
    ) -> ManagerView {
        ManagerView {
            config,
            max_sessions,
            order: Seq::empty(),
            limiter,
            max_lifetime,
            lifecycle: Map::empty(),
        }
    }

    /// Whether a session may be created at `now`, as far as the rate goes.
    pub open spec fn admits(self, now: Instant) -> bool {
        self.limiter matches Some(limiter) ==> limiter.admits(now)
    }

    /// The slot that a creation admitted at `now` holds in the rate limiter.
    pub open spec fn slot(self, now: Instant) -> Option<Instant> {
        if self.limiter is Some {
            Some(now)
        } else {
            None
        }
    }

    /// After a creation was asked for at `now`.
    pub open spec fn reserved(self, now: Instant) -> ManagerView {
        ManagerView {
            limiter: match self.limiter {
                Some(limiter) => Some(limiter.reserved(now)),
                None => None,
            },
            ..self
        }
    }

    /// After the creation that held `slot` has failed.
    pub open spec fn rolled_back(self, slot: Option<Instant>) -> ManagerView {
        match (self.limiter, slot) {
            (Some(limiter), Some(reserved_at)) => ManagerView {
                limiter: Some(limiter.rolled_back(reserved_at)),
                ..self
            },
            _ => self,
        }
    }

    /// The session to evict before another is created while `live_count` live:
    /// the oldest, when the limit is reached.
    pub open spec fn eviction(self, live_count: nat) -> Option<Seq<char>> {
        if live_count >= self.max_sessions && self.order.len() > 0 {
            Some(self.order[0])
        } else {
            None
        }
    }

    /// After the lifecycle entry of the session `id` was taken out.
    pub open spec fn untracked(self, id: Seq<char>) -> ManagerView {
        ManagerView { lifecycle: self.lifecycle.remove(id), ..self }
    }

    /// After the session `id` was taken out of the creation order.
    pub open spec fn unordered(self, id: Seq<char>) -> ManagerView {
        ManagerView { order: self.order.filter(other_than(id)), ..self }
    }

    /// After the session `id` was created, while `live` are the sessions that
    /// live: the evicted session and those that no longer live leave the
    /// creation order, and `id` joins it as the youngest and is tracked from `now`.
    pub open spec fn created(
        self,
        evicted: Option<Seq<char>>,
        id: Seq<char>,
        live: Set<Seq<char>>,
        now: Instant,
    ) -> ManagerView {
        let rest = match evicted {
            Some(oldest) => self.unordered(oldest),
            None => self,
        };
        ManagerView {
            order: rest.order.filter(among(live)).push(id),
            lifecycle: rest.lifecycle.insert(
                id,
                SessionLifecycleEntry { created_at: now, abort_handle: None },
            ),
            ..rest
        }
    }

    /// After the sessions that do not live, of which `live` are those that do,
    /// left the creation order.
    pub open spec fn without_lost(self, live: Set<Seq<char>>) -> ManagerView {
        ManagerView { order: self.order.filter(among(live)), ..self }
    }

    /// The oldest sessions in the creation order beyond the limit.
    pub open spec fn surplus(self) -> Seq<Seq<char>> {
        if self.order.len() > self.max_sessions {
            self.order.take(self.order.len() - self.max_sessions)
        } else {
            Seq::empty()
        }
    }

    /// After `timer` was started for the session `id`: its entry keeps the handle,
    /// if it is still tracked.
    pub open spec fn timed(self, id: Seq<char>, timer: Option<AbortHandle>) -> ManagerView {
        if timer is Some && self.lifecycle.contains_key(id) {
            ManagerView {
                lifecycle: self.lifecycle.insert(
                    id,
                    SessionLifecycleEntry { abort_handle: timer, ..self.lifecycle[id] },
                ),
                ..self
            }
        } else {
            self
        }
    }

    /// The handle of the timer that is kept for the session `id`.
    pub open spec fn timer_of(self, id: Seq<char>) -> Option<AbortHandle> {
        if self.lifecycle.contains_key(id) {
            self.lifecycle[id].abort_handle
        } else {
            None
        }
    }

    /// How long the session `id` has been tracked by `now`, if it is tracked.
    pub open spec fn age_of(self, id: Seq<char>, now: Instant) -> Option<Duration> {
        if self.lifecycle.contains_key(id) {
            Some(Duration { nanos: now.since(self.lifecycle[id].created_at) as u128 })
        } else {
            None
        }
    }

    /// The close of the session `id` that begins at `now`.
    pub open spec fn closing(self, id: Seq<char>, reason: CloseReason, now: Instant) -> ClosingView {
        ClosingView { id, reason, lasted: self.age_of(id, now) }
    }
}

/// A close under way.
pub struct ClosingView {
    /// The session that is closed.
    pub id: Seq<char>,
    /// Why it is closed.
    pub reason: CloseReason,
    /// How long the session lasted, if it was tracked when the close began.
    pub lasted: Option<Duration>,
}

impl ClosingView {
    /// What is logged of the close: nothing, for a session that was not tracked.
    pub open spec fn record(self) -> Option<RecordView> {
        match self.lasted {
            Some(elapsed) => Some(RecordView { id: self.id, elapsed, reason: self.reason }),
            None => None,
        }
    }
}

/// What is logged of the close of a tracked session.
pub struct RecordView {
    pub id: Seq<char>,
    pub elapsed: Duration,
    pub reason: CloseReason,
}

/// What a caller is told of a session that was closed with `outcome`.
pub open spec fn passed_on(outcome: Result<(), LocalSessionManagerError>) -> Result<
    (),
    BoundedSessionError,
> {
    match outcome {
        Ok(()) => Ok(()),
        Err(error) => Err(BoundedSessionError::Inner(error)),
    }
}

/// Keeps the number of concurrent sessions within a limit.
///
/// When the limit is reached, the oldest session (by creation order) is closed
/// before the new one is created. Optionally the rate of creation is limited,
/// and so is the lifetime of a session.
///
/// The manager decides; its caller talks to the sessions. A creation goes
/// through [`begin_create`](Self::begin_create) and
/// [`choose_eviction`](Self::choose_eviction); where the limit is reached, through
/// [`begin_eviction`](Self::begin_eviction) and
/// [`finish_eviction`](Self::finish_eviction); then, once the session was opened,
/// through [`creation_succeeded`](Self::creation_succeeded),
/// [`register`](Self::register) and [`trim`](Self::trim), or else
/// [`creation_failed`](Self::creation_failed). Each step takes what the one
/// before it returned, so that none can be skipped. A close goes through
/// [`close_session`](Self::close_session) or
/// [`lifetime_elapsed`](Self::lifetime_elapsed), and
/// [`finish_close`](Self::finish_close). Between the steps other calls may run.
///
/// While creations overlap, the limit may transiently be exceeded, by at most
/// their number: a creation that finds it exceeded closes the oldest sessions
/// beyond it before it returns, as long as it is still exceeded.
pub struct BoundedSessionManager {
    session_config: SessionConfig,
    max_sessions: usize,
    creation_order: CreationOrder,
    rate_limiter: Option<RateLimiter>,
    max_lifetime: Option<Duration>,
    lifecycle: LifecycleTable,
}

impl View for BoundedSessionManager {
    type V = ManagerView;

    closed spec fn view(&self) -> ManagerView {
        ManagerView {
            config: self.session_config,
            max_sessions: self.max_sessions as nat,
            order: self.creation_order@,
            limiter: match self.rate_limiter {
                Some(limiter) => Some(limiter@),
                None => None,
            },
            max_lifetime: self.max_lifetime,
            lifecycle: self.lifecycle@,
        }
    }
}

/// A creation that the rate limit let through.
#[must_use]
pub struct AdmittedCreate {
    slot: Option<Instant>,
}

impl AdmittedCreate {
    /// The slot that the creation holds in the rate limiter.
    pub closed spec fn slot(&self) -> Option<Instant> {
        self.slot
    }
}

/// A creation that waits for the oldest session to make room.
#[must_use]
pub struct EvictingCreate {
    slot: Option<Instant>,
    oldest: SessionId,
}

impl EvictingCreate {
    /// The slot that the creation holds in the rate limiter.
    pub closed spec fn slot(&self) -> Option<Instant> {
        self.slot
    }

    /// The session that is to make room.
    pub closed spec fn victim(&self) -> Seq<char> {
        self.oldest@
    }
}

/// A creation whose victim is on its way out.
#[must_use]
pub struct ClosingVictim {
    slot: Option<Instant>,
    closing: ClosingSession,
}

impl ClosingVictim {
    /// The slot that the creation holds in the rate limiter.
    pub closed spec fn slot(&self) -> Option<Instant> {
        self.slot
    }

    /// The close of the victim.
    pub closed spec fn closing(&self) -> ClosingView {
        self.closing@
    }

    /// Returns the identifier of the session that is to be closed.
    pub fn id(&self) -> (id: &SessionId)
        ensures
            id@ == self.closing().id,
    {
        self.closing.id()
    }
}

/// A creation for which there is room: the session can be opened.
#[must_use]
pub struct ReadyCreate {
    slot: Option<Instant>,
    evicted: Option<SessionId>,
}

impl ReadyCreate {
    /// The slot that the creation holds in the rate limiter.
    pub closed spec fn slot(&self) -> Option<Instant> {
        self.slot
    }

    /// The session that made room.
    pub closed spec fn evicted(&self) -> Option<Seq<char>> {
        match self.evicted {
            Some(id) => Some(id@),
            None => None,
        }
    }
}

/// What an admitted creation has to do next.
pub enum MakeRoom {
    /// There is room: open the session.
    Ready(ReadyCreate),
    /// The limit is reached: close the oldest session first.
    Evict(EvictingCreate),
}

/// A session that was created and has no timer yet.
#[must_use]
pub struct OpenedSession {
    id: SessionId,
    lifetime: Option<Duration>,
    surplus: Vec<SessionId>,
}

impl OpenedSession {
    /// The identifier of the session.
    pub closed spec fn text(&self) -> Seq<char> {
        self.id@
    }

    /// The time after which the session is to be closed, if its lifetime is limited.
    pub closed spec fn limit(&self) -> Option<Duration> {
        self.lifetime
    }

    /// The sessions beyond the limit, oldest first.
    pub closed spec fn surplus(&self) -> Seq<Seq<char>> {
        id_texts(self.surplus@)
    }

    /// Returns the identifier of the session.
    pub fn id(&self) -> (id: &SessionId)
        ensures
            id@ == self.text(),
    {
        &self.id
    }

    /// Returns the time after which a timer is to close the session; without
    /// one no timer is to be started.
    pub fn lifetime(&self) -> (lifetime: Option<Duration>)
        ensures
            lifetime == self.limit(),
    {
        self.lifetime
    }
}

/// A session that is complete but for the sessions beyond the limit, which are
/// still to be closed while the limit is exceeded.
#[must_use]
pub struct RegisteredSession {
    id: SessionId,
    surplus: Vec<SessionId>,
}

impl RegisteredSession {
    /// The identifier of the session.
    pub closed spec fn text(&self) -> Seq<char> {
        self.id@
    }

    /// The sessions beyond the limit, oldest first.
    pub closed spec fn surplus(&self) -> Seq<Seq<char>> {
        id_texts(self.surplus@)
    }
}

/// A creation that closes a session beyond the limit.
#[must_use]
pub struct ClosingSurplus {
    session: RegisteredSession,
    closing: ClosingSession,
}

impl ClosingSurplus {
    /// The session that was created, with what is left to be closed after this.
    pub closed spec fn session(&self) -> RegisteredSession {
        self.session
    }

    /// The close of the session beyond the limit.
    pub closed spec fn closing(&self) -> ClosingView {
        self.closing@
    }

    /// Returns the identifier of the session that is to be closed.
    pub fn id(&self) -> (id: &SessionId)
        ensures
            id@ == self.closing().id,
    {
        self.closing.id()
    }
}

/// What a registered session has to do next.
pub enum Trim {
    /// The sessions are within the limit, or a later creation will see to it:
    /// this one is complete.
    Done(SessionId),
    /// A session beyond the limit is to be closed, and its timer aborted.
    Close(Option<AbortHandle>, ClosingSurplus),
}

/// A session on its way out: it is no longer tracked, and is still to be closed.
#[must_use]
pub struct ClosingSession {
    id: SessionId,
    reason: CloseReason,
    lasted: Option<Duration>,
}

impl View for ClosingSession {
    type V = ClosingView;

    closed spec fn view(&self) -> ClosingView {
        ClosingView { id: self.id@, reason: self.reason, lasted: self.lasted }
    }
}

impl ClosingSession {
    /// Returns the identifier of the session.
    pub fn id(&self) -> (id: &SessionId)
        ensures
            id@ == self@.id,
    {
        &self.id
    }
}

/// What is logged when a tracked session has been closed.
pub struct CloseRecord {
    pub session_id: SessionId,
    pub elapsed: Duration,
    pub reason: CloseReason,
}

impl View for CloseRecord {
    type V = RecordView;

    open spec fn view(&self) -> RecordView {
        RecordView { id: self.session_id@, elapsed: self.elapsed, reason: self.reason }
    }
}

/// The contents of a log record, where there is one.
pub open spec fn logged(record: Option<CloseRecord>) -> Option<RecordView> {
    match record {
        Some(record) => Some(record@),
        None => None,
    }
}

impl BoundedSessionManager {
    /// At least one session may live, and at least one be created in a window.
    pub closed spec fn wf(&self) -> bool {
        &&& self.max_sessions >= 1
        &&& self.lifecycle.wf()
        &&& self.rate_limiter matches Some(limiter) ==> limiter.wf() && limiter@.max_creates >= 1
    }

    /// A manager without sessions. `rate_limit` holds how many sessions may be
    /// created in a window, and the window.
    pub(crate) fn with_limits(
        session_config: SessionConfig,
        max_sessions: usize,
        rate_limit: Option<(usize, Duration)>,
        max_lifetime: Option<Duration>,
    ) -> (manager: BoundedSessionManager)
        requires
            max_sessions >= 1,
            rate_limit matches Some(limit) ==> limit.0 >= 1,
        ensures
            manager.wf(),
            manager@ == ManagerView::fresh(
                session_config,
                max_sessions as nat,
                (match rate_limit {
                    Some(limit) => Some(RateLimiterView::fresh(limit.0 as nat, limit.1)),
                    None => None,
                }),
                max_lifetime,
            ),
    {
        BoundedSessionManager {
            session_config,
            max_sessions,
            creation_order: CreationOrder::new(),
            rate_limiter: match rate_limit {
                Some((max_creates, window)) => Some(RateLimiter::new(max_creates, window)),
                None => None,
            },
            max_lifetime,
            lifecycle: LifecycleTable::new(),
        }
    }

    /// Creates a manager that lets at most `max_sessions` sessions live at once,
    /// each opened with `session_config`.
    pub fn new(session_config: SessionConfig, max_sessions: usize) -> (manager:
        BoundedSessionManager)
        requires
            max_sessions >= 1,
        ensures
            manager.wf(),
            manager@ == ManagerView::fresh(session_config, max_sessions as nat, None, None),
    {
        BoundedSessionManager::with_limits(session_config, max_sessions, None, None)
    }

    /// Limits the rate of creation: at most `max_creates` sessions in any
    /// rolling `window`. A creation beyond that fails with
    /// [`BoundedSessionError::RateLimited`], and nothing is evicted for it.
    #[must_use]
    pub fn with_rate_limit(self, max_creates: usize, window: Duration) -> (manager:
        BoundedSessionManager)
        requires
            self.wf(),
            max_creates >= 1,
        ensures
            manager.wf(),
            manager@ == (ManagerView {
                limiter: Some(RateLimiterView::fresh(max_creates as nat, window)),
                ..self@
            }),
    {
        BoundedSessionManager {
            rate_limiter: Some(RateLimiter::new(max_creates, window)),
            ..self
        }
    }

    /// Returns the settings that sessions are opened with.
    pub fn session_config(&self) -> (config: SessionConfig)
        ensures
            config == self@.config,
    {
        self.session_config
    }

    /// Returns how long a session may live, if that is limited.
    pub fn max_lifetime(&self) -> (lifetime: Option<Duration>)
        ensures
            lifetime == self@.max_lifetime,
    {
        self.max_lifetime
    }

    /// Returns the number of currently tracked live sessions.
    pub fn active_session_count(&self) -> (count: usize)
        requires
            self.wf(),
        ensures
            self@.lifecycle.dom().finite(),
            count == self@.lifecycle.dom().len(),
    {
        self.lifecycle.len()
    }

    /// Asks at `now` for a session to be created. Fails, with nothing but expired
    /// slots forgotten, when the rate limit is exceeded.
    pub fn begin_create(&mut self, now: Instant) -> (admitted: Result<
        AdmittedCreate,
        BoundedSessionError,
    >)
        requires
            old(self).wf(),
        ensures
            final(self).wf(),
            final(self)@ == old(self)@.reserved(now),
            match admitted {
                Ok(create) => old(self)@.admits(now) && create.slot() == old(self)@.slot(now),
                Err(error) => !old(self)@.admits(now) && error == BoundedSessionError::RateLimited,
            },
    {
        match &mut self.rate_limiter {
            Some(limiter) => match limiter.reserve(now) {
                Ok(reserved_at) => Ok(AdmittedCreate { slot: Some(reserved_at) }),
                Err(error) => Err(error),
            },
            None => Ok(AdmittedCreate { slot: None }),
        }
    }

    /// Settles whether a session has to make room for the new one, and which.
    /// `live_count` is the number of sessions that live: sessions that expired but
    /// are still in the creation order take up no room.
    pub fn choose_eviction(&self, create: AdmittedCreate, live_count: usize) -> (room: MakeRoom)
        ensures
            match (self@.eviction(live_count as nat), room) {
                (None, MakeRoom::Ready(ready)) => {
                    &&& ready.slot() == create.slot()
                    &&& ready.evicted() is None
                },
                (Some(oldest), MakeRoom::Evict(evicting)) => {
                    &&& evicting.slot() == create.slot()
                    &&& evicting.victim() == oldest
                },
                _ => false,
            },
    {
        if live_count >= self.max_sessions {
            if let Some(oldest) = self.creation_order.oldest() {
                return MakeRoom::Evict(EvictingCreate { slot: create.slot, oldest });
            }
        }
        MakeRoom::Ready(ReadyCreate { slot: create.slot, evicted: None })
    }

    /// Begins to close the session that makes room. The handle of its timer is
    /// handed out to be aborted; the caller then closes the session and goes on to
    /// [`finish_eviction`](Self::finish_eviction).
    pub fn begin_eviction(&mut self, create: EvictingCreate, now: Instant) -> (begun: (
        Option<AbortHandle>,
        ClosingVictim,
    ))
        requires
            old(self).wf(),
        ensures
            final(self).wf(),
            final(self)@ == old(self)@.untracked(create.victim()),
            begun.0 == old(self)@.timer_of(create.victim()),
            begun.1.slot() == create.slot(),
            begun.1.closing() == old(self)@.closing(create.victim(), CloseReason::Evicted, now),
    {
        let (abort_handle, closing) = self.close_session_impl(
            &create.oldest,
            CloseReason::Evicted,
            now,
        );
        (abort_handle, ClosingVictim { slot: create.slot, closing })
    }

    /// Finishes the eviction, once the session itself was closed with `outcome`.
    /// The creation goes on whatever the outcome was. Returns what is to be logged.
    pub fn finish_eviction(
        &mut self,
        create: ClosingVictim,
        outcome: Result<(), LocalSessionManagerError>,
    ) -> (done: (Option<CloseRecord>, ReadyCreate))
        requires
            old(self).wf(),
        ensures
            final(self).wf(),
            final(self)@ == old(self)@.unordered(create.closing().id),
            logged(done.0) == create.closing().record(),
            done.1.slot() == create.slot(),
            done.1.evicted() == Some(create.closing().id),
    {
        let oldest = create.closing.id.clone();
        let (record, _) = self.finish_close(create.closing, outcome);
        (record, ReadyCreate { slot: create.slot, evicted: Some(oldest) })
    }

    /// Records that the session could not be opened: the slot in the rate
    /// limiter is given back, and the error passed on.
    pub fn creation_failed(&mut self, create: ReadyCreate, error: LocalSessionManagerError) -> (e:
        BoundedSessionError)
        requires
            old(self).wf(),
        ensures
            final(self).wf(),
            final(self)@ == old(self)@.rolled_back(create.slot()),
            e == BoundedSessionError::Inner(error),
    {
        if let Some(limiter) = &mut self.rate_limiter {
            if let Some(reserved_at) = create.slot {
                limiter.rollback(reserved_at);
            }
        }
        BoundedSessionError::from(error)
    }

    /// Records that the session `id` was opened: it joins the creation order and
    /// is tracked from `now`. `live` lists the sessions that live now; the others
    /// are dropped from the creation order.
    pub fn creation_succeeded(
        &mut self,
        create: ReadyCreate,
        id: SessionId,
        live: &Vec<SessionId>,
        now: Instant,
    ) -> (opened: OpenedSession)
        requires
            old(self).wf(),
        ensures
            final(self).wf(),
            final(self)@ == old(self)@.created(
                create.evicted(),
                id@,
                id_texts(live@).to_set(),
                now,
            ),
            opened.text() == id@,
            opened.limit() == old(self)@.max_lifetime,
            opened.surplus() == final(self)@.surplus(),
    {
        if let Some(oldest) = &create.evicted {
            self.creation_order.remove(oldest);
        }
        self.creation_order.retain_live(live);
        self.creation_order.push(id.clone());
        self.lifecycle.insert(
            id.clone(),
            SessionLifecycleEntry { created_at: now, abort_handle: None },
        );
        let surplus = self.creation_order.beyond(self.max_sessions);
        OpenedSession { id, lifetime: self.max_lifetime, surplus }
    }

    /// Enters the handle of the session's max-lifetime timer, where one was
    /// started. A session that was closed in the meantime is left alone: the
    /// handle is handed back to be aborted.
    pub fn register(&mut self, opened: OpenedSession, abort_handle: Option<AbortHandle>) -> (done: (
        Option<AbortHandle>,
        RegisteredSession,
    ))
        requires
            old(self).wf(),
        ensures
            final(self).wf(),
            final(self)@ == old(self)@.timed(opened.text(), abort_handle),
            done.0 == (if old(self)@.lifecycle.contains_key(opened.text()) {
                None
            } else {
                abort_handle
            }),
            done.1.text() == opened.text(),
            done.1.surplus() == opened.surplus(),
    {
        let unused = match abort_handle {
            Some(handle) => match self.lifecycle.remove(&opened.id) {
                Some(entry) => {
                    let timed = SessionLifecycleEntry {
                        created_at: entry.created_at,
                        abort_handle: Some(handle),
                    };
                    self.lifecycle.insert(opened.id.clone(), timed);
                    assert(self@.lifecycle == old(self)@.timed(
                        opened.text(),
                        abort_handle,
                    ).lifecycle);
                    None
                },
                None => {
                    assert(self@.lifecycle == old(self)@.lifecycle);
                    Some(handle)
                },
            },
            None => None,
        };
        (unused, RegisteredSession { id: opened.id, surplus: opened.surplus })
    }

    /// Begins to close the oldest session beyond the limit, if overlapping
    /// creations have left one and the limit is still exceeded; otherwise the
    /// creation is complete. `live` lists the sessions that live now; the others
    /// are dropped from the creation order. The caller aborts the timer, closes
    /// the session and goes on to [`finish_trim`](Self::finish_trim).
    pub fn trim(&mut self, session: RegisteredSession, live: &Vec<SessionId>, now: Instant) -> (next:
        Trim)
        requires
            old(self).wf(),
        ensures
            final(self).wf(),
            ({
                let listed = old(self)@.without_lost(id_texts(live@).to_set());
                match next {
                    Trim::Done(id) => {
                        &&& session.surplus().len() == 0 || listed.surplus().len() == 0
                        &&& final(self)@ == listed
                        &&& id@ == session.text()
                    },
                    Trim::Close(abort_handle, closing) => {
                        &&& session.surplus().len() > 0 && listed.surplus().len() > 0
                        &&& final(self)@ == listed.untracked(session.surplus()[0])
                        &&& abort_handle == old(self)@.timer_of(session.surplus()[0])
                        &&& closing.closing() == old(self)@.closing(
                            session.surplus()[0],
                            CloseReason::Evicted,
                            now,
                        )
                        &&& closing.session().text() == session.text()
                        &&& closing.session().surplus() == session.surplus().drop_first()
                    },
                }
            }),
    {
        self.creation_order.retain_live(live);
        let mut rest = session.surplus;
        if rest.len() == 0 || self.creation_order.len() <= self.max_sessions {
            return Trim::Done(session.id);
        }
        let oldest = rest.remove(0);
        assert(id_texts(rest@) == session.surplus().drop_first());
        assert(oldest@ == session.surplus()[0]);
        let (abort_handle, closing) = self.close_session_impl(&oldest, CloseReason::Evicted, now);
        Trim::Close(
            abort_handle,
            ClosingSurplus {
                session: RegisteredSession { id: session.id, surplus: rest },
                closing,
            },
        )
    }

    /// Finishes the close of a session beyond the limit, once the session itself
    /// was closed with `outcome`. The creation goes on with
    /// [`trim`](Self::trim) whatever the outcome was. Returns what is to be logged.
    pub fn finish_trim(
        &mut self,
        surplus: ClosingSurplus,
        outcome: Result<(), LocalSessionManagerError>,
    ) -> (done: (Option<CloseRecord>, RegisteredSession))
        requires
            old(self).wf(),
        ensures
            final(self).wf(),
            final(self)@ == old(self)@.unordered(surplus.closing().id),
            logged(done.0) == surplus.closing().record(),
            done.1 == surplus.session(),
    {
        let (record, _) = self.finish_close(surplus.closing, outcome);
        (record, surplus.session)
    }

    /// Begins to close the session `id` at the request of a client.
    pub fn close_session(&mut self, id: &SessionId, now: Instant) -> (closing: (
        Option<AbortHandle>,
        ClosingSession,
    ))
        requires
            old(self).wf(),
        ensures
            final(self).wf(),
            final(self)@ == old(self)@.untracked(id@),
            closing.0 == old(self)@.timer_of(id@),
            closing.1@ == old(self)@.closing(id@, CloseReason::Closed, now),
    {
        self.close_session_impl(id, CloseReason::Closed, now)
    }

    /// Begins to close the session `id` because its max-lifetime timer ran out.
    /// That timer is done, so there is none to abort.
    pub fn lifetime_elapsed(&mut self, id: &SessionId, now: Instant) -> (closing: ClosingSession)
        requires
            old(self).wf(),
        ensures
            final(self).wf(),
            final(self)@ == old(self)@.untracked(id@),
            closing@ == old(self)@.closing(id@, CloseReason::MaxLifetime, now),
    {
        let (_, closing) = self.close_session_impl(id, CloseReason::MaxLifetime, now);
        closing
    }

    /// The first half of every close: the session's entry leaves the lifecycle
    /// table, and the handle of its timer is handed out to be aborted. The caller
    /// then closes the session and goes on to [`finish_close`](Self::finish_close).
    fn close_session_impl(&mut self, id: &SessionId, reason: CloseReason, now: Instant) -> (closing: (
        Option<AbortHandle>,
        ClosingSession,
    ))
        requires
            old(self).wf(),
        ensures
            final(self).wf(),
            final(self)@ == old(self)@.untracked(id@),
            closing.0 == old(self)@.timer_of(id@),
            closing.1@ == old(self)@.closing(id@, reason, now),
    {
        match self.lifecycle.remove(id) {
            Some(entry) => {
                let lasted = now.duration_since(entry.created_at);
                (entry.abort_handle, ClosingSession { id: id.clone(), reason, lasted: Some(lasted) })
            },
            None => (None, ClosingSession { id: id.clone(), reason, lasted: None }),
        }
    }

    /// The second half of every close, once the session itself was closed with
    /// `outcome`: the session leaves the creation order. Returns what is to be
    /// logged, which is nothing for a session that was not tracked, and the
    /// outcome for the caller.
    pub fn finish_close(
        &mut self,
        closing: ClosingSession,
        outcome: Result<(), LocalSessionManagerError>,
    ) -> (done: (Option<CloseRecord>, Result<(), BoundedSessionError>))
        requires
            old(self).wf(),
        ensures
            final(self).wf(),
            final(self)@ == old(self)@.unordered(closing@.id),
            logged(done.0) == closing@.record(),
            done.1 == passed_on(outcome),
    {
        self.creation_order.remove(&closing.id);
        let result = match outcome {
            Ok(()) => Ok(()),
            Err(error) => Err(BoundedSessionError::from(error)),
        };
        match closing.lasted {
            Some(elapsed) => (
                Some(CloseRecord { session_id: closing.id, elapsed, reason: closing.reason }),
                result,
            ),
            None => (None, result),
        }
    }
}

} // verus!
