use tokio::task::AbortHandle;
use vstd::prelude::*;

use crate::clock::{Duration, Instant};
use crate::config::SessionConfig;
use crate::manager::{ClosingView, ManagerView, RecordView};
use crate::order::{among, other_than};
use crate::rate_laws::{LimiterEvent, LimiterHistory};
use crate::rate_limit::RateLimiterView;
use crate::reason::CloseReason;
use crate::session_laws::{lemma_filter_ranked, lemma_push_contains, ranked};

verus! {

/// A call in flight: the step that it has taken last.
pub enum Call {
    /// A creation that holds its slot.
    Admitted { slot: Option<Instant> },
    /// A creation that is to evict `victim`.
    Evicting { slot: Option<Instant>, victim: Seq<char> },
    /// A creation that closes its victim.
    ClosingVictim { slot: Option<Instant>, closing: ClosingView, ended: bool },
    /// A creation that may open its session.
    Ready { slot: Option<Instant>, evicted: Option<Seq<char>> },
    /// A creation whose session was opened, and that has not told the manager yet.
    Opened { evicted: Option<Seq<char>>, id: Seq<char> },
    /// A creation whose session has no timer yet.
    Entered { id: Seq<char>, surplus: Seq<Seq<char>> },
    /// A creation that has to close the sessions beyond the limit.
    Trimming { id: Seq<char>, surplus: Seq<Seq<char>> },
    /// A creation that closes a session beyond the limit, with `surplus` to follow.
    ClosingSurplus {
        id: Seq<char>,
        surplus: Seq<Seq<char>>,
        closing: ClosingView,
        ended: bool,
    },
    /// A close at the request of a client or of a timer.
    Closing { closing: ClosingView, ended: bool },
}

impl Call {
    /// The session that a creation has opened.
    pub open spec fn own(self) -> Option<Seq<char>> {
        match self {
            Call::Opened { id, .. } => Some(id),
            Call::Entered { id, .. } => Some(id),
            Call::Trimming { id, .. } => Some(id),
            Call::ClosingSurplus { id, .. } => Some(id),
            _ => None,
        }
    }

    /// The close that the call is in the middle of.
    pub open spec fn closing(self) -> Option<ClosingView> {
        match self {
            Call::ClosingVictim { closing, .. } => Some(closing),
            Call::ClosingSurplus { closing, .. } => Some(closing),
            Call::Closing { closing, .. } => Some(closing),
            _ => None,
        }
    }

    /// Whether the session that the call closes has ended.
    pub open spec fn ended(self) -> bool {
        match self {
            Call::ClosingVictim { ended, .. } => ended,
            Call::ClosingSurplus { ended, .. } => ended,
            Call::Closing { ended, .. } => ended,
            _ => false,
        }
    }

    /// The same call, once the session that it closes has ended.
    pub open spec fn with_end(self) -> Call {
        match self {
            Call::ClosingVictim { slot, closing, .. } => Call::ClosingVictim {
                slot,
                closing,
                ended: true,
            },
            Call::ClosingSurplus { id, surplus, closing, .. } => Call::ClosingSurplus {
                id,
                surplus,
                closing,
                ended: true,
            },
            Call::Closing { closing, .. } => Call::Closing { closing, ended: true },
            other => other,
        }
    }

    /// The sessions beyond the limit that the call has still to begin to close.
    spec fn surplus(self) -> Seq<Seq<char>> {
        match self {
            Call::Entered { surplus, .. } => surplus,
            Call::Trimming { surplus, .. } => surplus,
            Call::ClosingSurplus { surplus, .. } => surplus,
            _ => Seq::empty(),
        }
    }

    /// The session that was evicted for the one to come.
    spec fn evicted(self) -> Option<Seq<char>> {
        match self {
            Call::Ready { evicted, .. } => evicted,
            Call::Opened { evicted, .. } => evicted,
            _ => None,
        }
    }

    /// Whether `s` is a session beyond the limit that the call has still to see closed.
    spec fn dooms(self, s: Seq<char>) -> bool {
        ||| self.surplus().contains(s)
        ||| self matches Call::ClosingSurplus { closing, .. } && closing.id == s
    }
}

/// One step of one call, or something that happens to a session.
pub enum Step {
    /// `call` asks for a session at `now`. It goes on only if it is admitted.
    BeginCreate { call: nat, now: Instant },
    /// `call` is told that `live_count` sessions live, whatever their number is.
    ChooseEviction { call: nat, live_count: nat },
    BeginEviction { call: nat, now: Instant },
    FinishEviction { call: nat },
    /// The session `id` is opened for `call`.
    Open { call: nat, id: Seq<char> },
    /// No session is opened for `call`, which ends.
    OpenFails { call: nat },
    /// `call` tells the manager of its session, with `listed` for those that live.
    Enter { call: nat, listed: Set<Seq<char>>, now: Instant },
    Register { call: nat, timer: Option<AbortHandle> },
    /// `call` begins to close a session beyond the limit, with `listed` for those
    /// that live, or ends if it has none to close or the limit is not exceeded.
    Trim { call: nat, listed: Set<Seq<char>>, now: Instant },
    FinishTrim { call: nat },
    /// `call` begins to close the session `id`.
    BeginClose { call: nat, id: Seq<char>, reason: CloseReason, now: Instant },
    FinishClose { call: nat },
    /// The session that `call` closes ends.
    EndSession { call: nat },
    /// The session `id` ends without the manager being told.
    Lose { id: Seq<char> },
}

/// A manager whose calls overlap, beside the sessions that live and the calls
/// that are in flight.
pub struct Crowd {
    pub manager: ManagerView,
    pub live: Set<Seq<char>>,
    /// The calls in flight.
    pub calls: Map<nat, Call>,
    /// Every identifier that was opened or that anyone asked to be closed.
    pub used: Set<Seq<char>>,
    /// For every session that was ever opened, the call that it was opened for.
    pub opened_by: Map<Seq<char>, nat>,
    /// For every session that ever entered the creation order, its number.
    pub ranks: Map<Seq<char>, nat>,
    /// How many sessions have entered the creation order.
    pub entries: nat,
    /// For every session that was tracked once and is not any more, the reason
    /// of the close that ended that.
    pub untracked_for: Map<Seq<char>, CloseReason>,
    /// What was logged.
    pub records: Seq<RecordView>,
}

/// A choice of sessions to which those that live come down: `kept`, once every
/// creation up to the number `cut` has ended, and `keeps[c]`, once the creation
/// `c` has ended too.
struct Cover {
    kept: Set<Seq<char>>,
    cut: nat,
    keeps: Map<nat, Set<Seq<char>>>,
}

impl Crowd {
    /// A manager before its first call.
    pub open spec fn start(
        config: SessionConfig,
        max_sessions: nat,
        limiter: Option<RateLimiterView>,
        max_lifetime: Option<Duration>,
    ) -> Crowd {
        Crowd {
            manager: ManagerView::fresh(config, max_sessions, limiter, max_lifetime),
            live: Set::empty(),
            calls: Map::empty(),
            used: Set::empty(),
            opened_by: Map::empty(),
            ranks: Map::empty(),
            entries: 0,
            untracked_for: Map::empty(),
            records: Seq::empty(),
        }
    }

    /// The creations in flight.
    pub open spec fn creations(self) -> Set<nat> {
        self.calls.dom().filter(|call: nat| !(self.calls[call] is Closing))
    }

    /// The same, with `call` at another step.
    pub open spec fn at(self, call: nat, step: Call) -> Crowd {
        Crowd { calls: self.calls.insert(call, step), ..self }
    }

    /// The same, after `call` has ended.
    pub open spec fn without(self, call: nat) -> Crowd {
        Crowd { calls: self.calls.remove(call), ..self }
    }

    /// After the first half of a close of the session `id`.
    pub open spec fn begun(self, id: Seq<char>, reason: CloseReason) -> Crowd {
        Crowd {
            manager: self.manager.untracked(id),
            untracked_for: if self.manager.lifecycle.contains_key(id) {
                self.untracked_for.insert(id, reason)
            } else {
                self.untracked_for
            },
            ..self
        }
    }

    /// After the second half of a close.
    pub open spec fn finished(self, closing: ClosingView) -> Crowd {
        Crowd {
            manager: self.manager.unordered(closing.id),
            records: match closing.record() {
                Some(record) => self.records.push(record),
                None => self.records,
            },
            ..self
        }
    }

    /// After those that are not listed have left the creation order.
    pub open spec fn relisted(self, listed: Set<Seq<char>>) -> Crowd {
        Crowd { manager: self.manager.without_lost(listed), ..self }
    }

    /// Whether a creation that trims has a session to close while the limit is exceeded.
    pub open spec fn trims(self, call: nat, listed: Set<Seq<char>>) -> bool {
        self.calls[call] matches Call::Trimming { surplus, .. } && surplus.len() > 0
            && self.relisted(listed).manager.surplus().len() > 0
    }

    /// Of the sessions in the creation order, at least those that live are listed.
    pub open spec fn lists(self, listed: Set<Seq<char>>) -> bool {
        forall|s: Seq<char>| #[trigger]
            self.live.contains(s) && self.manager.order.contains(s) ==> listed.contains(s)
    }

    /// Whether the step may come next. A call takes its steps in turn: the
    /// second half of a close waits for the end of the session. A session is
    /// opened under an identifier that nobody has used before, and nobody asks to
    /// close it before the manager has been told of it, as nobody else knows the
    /// identifier yet and no timer runs.
    pub open spec fn allows(self, step: Step) -> bool {
        match step {
            Step::BeginCreate { call, .. } => !self.calls.contains_key(call),
            Step::ChooseEviction { call, .. } => self.calls.contains_key(call)
                && self.calls[call] is Admitted,
            Step::BeginEviction { call, .. } => self.calls.contains_key(call)
                && self.calls[call] is Evicting,
            Step::FinishEviction { call } => self.calls.contains_key(call)
                && self.calls[call] is ClosingVictim && self.calls[call].ended(),
            Step::Open { call, id } => self.calls.contains_key(call) && self.calls[call] is Ready
                && !self.used.contains(id),
            Step::OpenFails { call } => self.calls.contains_key(call) && self.calls[call] is Ready,
            Step::Enter { call, listed, .. } => self.calls.contains_key(call)
                && self.calls[call] is Opened && self.lists(listed),
            Step::Register { call, .. } => self.calls.contains_key(call)
                && self.calls[call] is Entered,
            Step::Trim { call, listed, .. } => self.calls.contains_key(call)
                && self.calls[call] is Trimming && self.lists(listed),
            Step::FinishTrim { call } => self.calls.contains_key(call)
                && self.calls[call] is ClosingSurplus && self.calls[call].ended(),
            Step::BeginClose { call, id, .. } => !self.calls.contains_key(call) && (
            self.opened_by.contains_key(id) ==> self.ranks.contains_key(id)),
            Step::FinishClose { call } => self.calls.contains_key(call)
                && self.calls[call] is Closing && self.calls[call].ended(),
            Step::EndSession { call } => self.calls.contains_key(call)
                && self.calls[call].closing() is Some,
            Step::Lose { .. } => true,
        }
    }

    /// After a step.
    pub open spec fn after(self, step: Step) -> Crowd {
        match step {
            Step::BeginCreate { call, now } => {
                let asked = Crowd { manager: self.manager.reserved(now), ..self };
                if self.manager.admits(now) {
                    asked.at(call, Call::Admitted { slot: self.manager.slot(now) })
                } else {
                    asked
                }
            },
            Step::ChooseEviction { call, live_count } => match self.calls[call] {
                Call::Admitted { slot } => match self.manager.eviction(live_count) {
                    Some(victim) => self.at(call, Call::Evicting { slot, victim }),
                    None => self.at(call, Call::Ready { slot, evicted: None }),
                },
                _ => self,
            },
            Step::BeginEviction { call, now } => match self.calls[call] {
                Call::Evicting { slot, victim } => {
                    let closing = self.manager.closing(victim, CloseReason::Evicted, now);
                    self.begun(victim, CloseReason::Evicted).at(
                        call,
                        Call::ClosingVictim { slot, closing, ended: false },
                    )
                },
                _ => self,
            },
            Step::FinishEviction { call } => match self.calls[call] {
                Call::ClosingVictim { slot, closing, .. } => self.finished(closing).at(
                    call,
                    Call::Ready { slot, evicted: Some(closing.id) },
                ),
                _ => self,
            },
            Step::Open { call, id } => match self.calls[call] {
                Call::Ready { evicted, .. } => Crowd {
                    live: self.live.insert(id),
                    used: self.used.insert(id),
                    opened_by: self.opened_by.insert(id, call),
                    ..self
                }.at(call, Call::Opened { evicted, id }),
                _ => self,
            },
            Step::OpenFails { call } => match self.calls[call] {
                Call::Ready { slot, .. } => Crowd {
                    manager: self.manager.rolled_back(slot),
                    ..self
                }.without(call),
                _ => self,
            },
            Step::Enter { call, listed, now } => match self.calls[call] {
                Call::Opened { evicted, id } => {
                    let manager = self.manager.created(evicted, id, listed, now);
                    Crowd {
                        manager,
                        ranks: self.ranks.insert(id, self.entries),
                        entries: self.entries + 1,
                        ..self
                    }.at(call, Call::Entered { id, surplus: manager.surplus() })
                },
                _ => self,
            },
            Step::Register { call, timer } => match self.calls[call] {
                Call::Entered { id, surplus } => Crowd {
                    manager: self.manager.timed(id, timer),
                    ..self
                }.at(call, Call::Trimming { id, surplus }),
                _ => self,
            },
            Step::Trim { call, listed, now } => match self.calls[call] {
                Call::Trimming { id, surplus } => if self.trims(call, listed) {
                    let closing = self.manager.closing(surplus[0], CloseReason::Evicted, now);
                    self.relisted(listed).begun(surplus[0], CloseReason::Evicted).at(
                        call,
                        Call::ClosingSurplus {
                            id,
                            surplus: surplus.drop_first(),
                            closing,
                            ended: false,
                        },
                    )
                } else {
                    self.relisted(listed).without(call)
                },
                _ => self,
            },
            Step::FinishTrim { call } => match self.calls[call] {
                Call::ClosingSurplus { id, surplus, closing, .. } => self.finished(closing).at(
                    call,
                    Call::Trimming { id, surplus },
                ),
                _ => self,
            },
            Step::BeginClose { call, id, reason, now } => {
                let closing = self.manager.closing(id, reason, now);
                Crowd { used: self.used.insert(id), ..self }.begun(id, reason).at(
                    call,
                    Call::Closing { closing, ended: false },
                )
            },
            Step::FinishClose { call } => match self.calls[call] {
                Call::Closing { closing, .. } => self.finished(closing).without(call),
                _ => self,
            },
            Step::EndSession { call } => match self.calls[call].closing() {
                Some(closing) => Crowd { live: self.live.remove(closing.id), ..self }.at(
                    call,
                    self.calls[call].with_end(),
                ),
                None => self,
            },
            Step::Lose { id } => Crowd { live: self.live.remove(id), ..self },
        }
    }

    /// After a sequence of steps.
    pub open spec fn after_all(self, steps: Seq<Step>) -> Crowd
        decreases steps.len(),
    {
        if steps.len() == 0 {
            self
        } else {
            self.after_all(steps.drop_last()).after(steps.last())
        }
    }

    /// Whether the steps may follow one another.
    pub open spec fn allows_all(self, steps: Seq<Step>) -> bool
        decreases steps.len(),
    {
        steps.len() > 0 ==> {
            &&& self.allows_all(steps.drop_last())
            &&& self.after_all(steps.drop_last()).allows(steps.last())
        }
    }

    /// The session `s` was opened and the manager has not been told of it.
    spec fn opening(self, s: Seq<char>) -> bool {
        &&& self.opened_by.contains_key(s)
        &&& self.calls.contains_key(self.opened_by[s])
        &&& self.calls[self.opened_by[s]] matches Call::Opened { id, .. } && id == s
    }

    /// The creation of `s` is in flight, and `s` has no number below `cut`.
    spec fn pending(self, s: Seq<char>, cut: nat) -> bool {
        &&& self.opened_by.contains_key(s)
        &&& self.calls.contains_key(self.opened_by[s])
        &&& self.calls[self.opened_by[s]].own() == Some(s)
        &&& self.ranks.contains_key(s) ==> self.ranks[s] >= cut
    }

    /// Every session that lives is kept or pending.
    spec fn covered(self, kept: Set<Seq<char>>, cut: nat) -> bool {
        forall|s: Seq<char>| #[trigger]
            self.live.contains(s) ==> kept.contains(s) || self.pending(s, cut)
    }

    /// Every session that lives is kept or pending, or `call` will see it closed.
    spec fn covered_by(self, kept: Set<Seq<char>>, call: Call, cut: nat) -> bool {
        forall|s: Seq<char>| #[trigger]
            self.live.contains(s) ==> kept.contains(s) || call.dooms(s) || self.pending(s, cut)
    }

    /// The sessions that live are within the limit but for creations in flight,
    /// and stay so when a creation ends.
    spec fn limited(self, cover: Cover) -> bool {
        let max = self.manager.max_sessions;
        &&& cover.kept.finite()
        &&& cover.kept.len() <= max
        &&& cover.cut <= self.entries
        &&& self.covered(cover.kept, cover.cut)
        &&& forall|c: nat| #[trigger]
            self.calls.contains_key(c) ==> (self.calls[c].own() matches Some(id) ==> {
                self.ranks.contains_key(id) && self.ranks[id] >= cover.cut ==> {
                    &&& cover.keeps[c].finite()
                    &&& cover.keeps[c].len() <= max
                    &&& self.covered_by(cover.keeps[c], self.calls[c], self.ranks[id] + 1)
                }
            })
    }

    /// A call in flight closes the session `s`, which has not ended yet.
    spec fn ending(self, s: Seq<char>) -> bool {
        exists|c: nat| #[trigger] self.calls.contains_key(c) && self.ends(c, s)
    }

    /// The call `c` closes the session `s`, which has not ended yet.
    spec fn ends(self, c: nat, s: Seq<char>) -> bool {
        self.calls[c].closing() matches Some(closing) && closing.id == s && !self.calls[c].ended()
    }

    /// The sessions that are tracked live, and those that live are tracked but
    /// for those that calls in flight have opened or are about to end.
    spec fn accounted(self) -> bool {
        &&& forall|s: Seq<char>| #[trigger]
            self.manager.lifecycle.contains_key(s) ==> self.live.contains(s)
        &&& forall|s: Seq<char>| #[trigger]
            self.live.contains(s) ==> self.manager.lifecycle.contains_key(s) || self.opening(s)
                || self.ending(s)
        &&& forall|c: nat| #[trigger]
            self.calls.contains_key(c) ==> (self.calls[c] matches Call::Opened { id, .. }
                ==> self.live.contains(id))
    }

    /// The call `c` will log the close of the session `s`.
    spec fn logs(self, c: nat, s: Seq<char>) -> bool {
        self.calls[c].closing() matches Some(closing) && closing.id == s
            && closing.lasted is Some
    }

    /// The close of the session `s` was logged, or a call in flight will log it.
    spec fn noted(self, s: Seq<char>) -> bool {
        ||| exists|i: int| 0 <= i < self.records.len() && (#[trigger] self.records[i]).id == s
        ||| exists|c: nat| #[trigger] self.calls.contains_key(c) && self.logs(c, s)
    }

    /// Every session that was tracked once and is not any more has one log record,
    /// or one call in flight that will write it, with the reason of its first close.
    spec fn recorded(self) -> bool {
        &&& forall|s: Seq<char>| #[trigger]
            self.untracked_for.contains_key(s) ==> self.ranks.contains_key(s)
                && !self.manager.lifecycle.contains_key(s) && self.noted(s)
        &&& forall|i: int|
            0 <= i < self.records.len() ==> {
                let record = #[trigger] self.records[i];
                self.untracked_for.contains_key(record.id) && self.untracked_for[record.id]
                    == record.reason
            }
        &&& forall|i: int, j: int|
            0 <= i < j < self.records.len() ==> (#[trigger] self.records[i]).id != (
            #[trigger] self.records[j]).id
        &&& forall|c: nat| #[trigger]
            self.calls.contains_key(c) ==> (self.calls[c].closing() matches Some(closing) ==> {
                closing.lasted is Some ==> {
                    &&& self.untracked_for.contains_key(closing.id)
                    &&& self.untracked_for[closing.id] == closing.reason
                    &&& forall|i: int|
                        0 <= i < self.records.len() ==> (#[trigger] self.records[i]).id
                            != closing.id
                }
            })
        &&& forall|c: nat, d: nat, s: Seq<char>|
            c != d && self.calls.contains_key(c) && self.calls.contains_key(d)
                && #[trigger] self.logs(c, s) ==> !#[trigger] self.logs(d, s)
    }

    /// The creation `c` has only sessions before its own left to close, in turn,
    /// and any in the creation order that stands before one of them it closes too.
    spec fn in_turn(self, c: nat) -> bool {
        let call = self.calls[c];
        call.own() matches Some(id) ==> (call is Opened || {
            &&& ranked(call.surplus(), self.ranks, self.ranks[id])
            &&& forall|s: Seq<char>, t: Seq<char>|
                #![trigger self.manager.order.contains(s), call.surplus().contains(t)]
                self.manager.order.contains(s) && call.surplus().contains(t) && self.ranks[s]
                    < self.ranks[t] ==> call.dooms(s)
        })
    }

    /// What holds of a call in flight.
    spec fn fits(self, c: nat, call: Call) -> bool {
        &&& call.own() matches Some(id) ==> {
            &&& self.opened_by.contains_key(id)
            &&& self.opened_by[id] == c
            &&& self.ranks.contains_key(id) <==> !(call is Opened)
        }
        &&& call.evicted() matches Some(id) ==> self.used.contains(id) && !self.live.contains(id)
        &&& call.closing() matches Some(closing) ==> {
            &&& self.used.contains(closing.id)
            &&& self.opened_by.contains_key(closing.id) ==> self.ranks.contains_key(closing.id)
            &&& !self.manager.lifecycle.contains_key(closing.id)
            &&& call.ended() ==> !self.live.contains(closing.id)
        }
        &&& call matches Call::Evicting { victim, .. } ==> self.ranks.contains_key(victim)
        &&& forall|s: Seq<char>| #[trigger]
            call.surplus().contains(s) ==> self.ranks.contains_key(s)
    }

    /// What holds after every step.
    spec fn base(self) -> bool {
        &&& self.manager.max_sessions >= 1
        &&& self.live.finite()
        &&& self.calls.dom().finite()
        &&& forall|s: Seq<char>| #[trigger]
            self.ranks.contains_key(s) ==> self.opened_by.contains_key(s) && self.ranks[s]
                < self.entries
        &&& forall|s: Seq<char>| #[trigger]
            self.opened_by.contains_key(s) ==> self.used.contains(s)
        &&& forall|s: Seq<char>| #[trigger]
            self.manager.lifecycle.contains_key(s) ==> self.ranks.contains_key(s)
        &&& ranked(self.manager.order, self.ranks, self.entries)
        &&& forall|s: Seq<char>| #[trigger]
            self.live.contains(s) ==> self.manager.order.contains(s) || self.opening(s)
        &&& forall|c: nat| #[trigger] self.calls.contains_key(c) ==> self.fits(c, self.calls[c])
    }
}

/// What the manager's order holds after a creation.
proof fn lemma_created(
    m: ManagerView,
    evicted: Option<Seq<char>>,
    id: Seq<char>,
    listed: Set<Seq<char>>,
    now: Instant,
    ranks: Map<Seq<char>, nat>,
    entries: nat,
)
    requires
        ranked(m.order, ranks, entries),
        !ranks.contains_key(id),
    ensures
        ranked(
            m.created(evicted, id, listed, now).order,
            ranks.insert(id, entries),
            entries + 1,
        ),
        forall|s: Seq<char>| #[trigger]
            m.created(evicted, id, listed, now).order.contains(s) <==> s == id || (m.order.contains(
                s,
            ) && listed.contains(s) && evicted != Some(s)),
{
    let rest = match evicted {
        Some(oldest) => m.unordered(oldest),
        None => m,
    };
    if let Some(oldest) = evicted {
        lemma_filter_ranked(m.order, other_than(oldest), ranks, entries);
    }
    lemma_filter_ranked(rest.order, among(listed), ranks, entries);
    let kept = rest.order.filter(among(listed));
    let n = kept.push(id);
    let wider = ranks.insert(id, entries);
    assert forall|i: int| 0 <= i < n.len() implies wider.contains_key(#[trigger] n[i])
        && wider[n[i]] < entries + 1 by {
        if i < kept.len() {
            assert(n[i] == kept[i] && kept[i] != id);
        }
    }
    assert forall|i: int, j: int| 0 <= i < j < n.len() implies wider[#[trigger] n[i]]
        < wider[#[trigger] n[j]] by {
        assert(n[i] == kept[i] && kept[i] != id);
        if j < kept.len() {
            assert(n[j] == kept[j] && kept[j] != id);
        }
    }
    assert forall|s: Seq<char>| #[trigger] n.contains(s) <==> s == id || (m.order.contains(s)
        && listed.contains(s) && evicted != Some(s)) by {
        lemma_push_contains(kept, id, s);
        assert(kept.contains(s) <==> rest.order.contains(s) && listed.contains(s));
    }
}

proof fn lemma_drop_first_contains(s: Seq<Seq<char>>)
    requires
        s.len() > 0,
    ensures
        s.contains(s[0]),
        forall|t: Seq<char>|
            #![trigger s.contains(t)]
            #![trigger s.drop_first().contains(t)]
            s.contains(t) <==> t == s[0] || s.drop_first().contains(t),
{
    assert forall|t: Seq<char>|
        #![trigger s.contains(t)]
        #![trigger s.drop_first().contains(t)]
        s.contains(t) <==> t == s[0] || s.drop_first().contains(t) by {
        if s.contains(t) && t != s[0] {
            let k = choose|k: int| 0 <= k < s.len() && s[k] == t;
            assert(s.drop_first()[k - 1] == t);
        }
        if s.drop_first().contains(t) {
            let k = choose|k: int| 0 <= k < s.drop_first().len() && s.drop_first()[k] == t;
            assert(s[k + 1] == t);
        }
    }
}

proof fn lemma_base(w: Crowd, step: Step)
    requires
        w.base(),
        w.allows(step),
    ensures
        w.after(step).base(),
        w.after(step).manager.max_sessions == w.manager.max_sessions,
{
    let n = w.after(step);
    match step {
        Step::BeginCreate { call, now } => {},
        Step::ChooseEviction { call, live_count } => {
            if w.manager.order.len() > 0 {
                assert(w.ranks.contains_key(w.manager.order[0]));
            }
        },
        Step::BeginEviction { call, now } => {},
        Step::FinishEviction { call } => {
            lemma_filter_ranked(
                w.manager.order,
                other_than(w.calls[call].closing()->0.id),
                w.ranks,
                w.entries,
            );
        },
        Step::Open { call, id } => {},
        Step::OpenFails { call } => {},
        Step::Enter { call, listed, now } => {
            let evicted = w.calls[call]->Opened_evicted;
            let id = w.calls[call]->Opened_id;
            lemma_created(w.manager, evicted, id, listed, now, w.ranks, w.entries);
            let order = n.manager.order;
            let surplus = n.manager.surplus();
            assert forall|s: Seq<char>| #[trigger] surplus.contains(s) implies n.ranks.contains_key(
                s,
            ) by {
                let k = choose|k: int| 0 <= k < surplus.len() && surplus[k] == s;
                assert(order[k] == s);
            }
        },
        Step::Register { call, timer } => {},
        Step::Trim { call, listed, now } => {
            lemma_filter_ranked(w.manager.order, among(listed), w.ranks, w.entries);
            let surplus = w.calls[call]->Trimming_surplus;
            if surplus.len() > 0 {
                lemma_drop_first_contains(surplus);
                assert(w.calls[call].surplus().contains(surplus[0]));
            }
        },
        Step::FinishTrim { call } => {
            lemma_filter_ranked(
                w.manager.order,
                other_than(w.calls[call].closing()->0.id),
                w.ranks,
                w.entries,
            );
        },
        Step::BeginClose { call, id, reason, now } => {},
        Step::FinishClose { call } => {
            lemma_filter_ranked(
                w.manager.order,
                other_than(w.calls[call].closing()->0.id),
                w.ranks,
                w.entries,
            );
        },
        Step::EndSession { call } => {},
        Step::Lose { id } => {},
    }
    assert(ranked(n.manager.order, n.ranks, n.entries));
    assert forall|s: Seq<char>| #[trigger] n.live.contains(s) implies n.manager.order.contains(s)
        || n.opening(s) by {
        if w.live.contains(s) {
            assert(w.manager.order.contains(s) || w.opening(s));
        }
    }
    assert forall|c: nat| #[trigger] n.calls.contains_key(c) implies n.fits(c, n.calls[c]) by {
        if w.calls.contains_key(c) {
            assert(w.fits(c, w.calls[c]));
        }
        assert forall|s: Seq<char>| #[trigger]
            n.calls[c].surplus().contains(s) implies n.ranks.contains_key(s) by {
            assert(w.calls.contains_key(c) && w.calls[c].surplus().contains(s) || step is Enter);
        }
    }
}

/// The sessions that are not beyond the limit.
proof fn lemma_not_surplus(m: ManagerView) -> (kept: Set<Seq<char>>)
    ensures
        kept.finite(),
        kept.len() <= m.max_sessions,
        forall|s: Seq<char>| #[trigger]
            m.order.contains(s) ==> kept.contains(s) || m.surplus().contains(s),
{
    let surplus = m.surplus();
    let rest = m.order.skip(surplus.len() as int);
    let kept = rest.to_set();
    rest.lemma_cardinality_of_set();
    vstd::seq_lib::seq_to_set_is_finite(rest);
    assert forall|s: Seq<char>| #[trigger] m.order.contains(s) implies kept.contains(s)
        || surplus.contains(s) by {
        let k = choose|k: int| 0 <= k < m.order.len() && m.order[k] == s;
        if k < surplus.len() {
            assert(surplus[k] == s);
        } else {
            assert(rest[k - surplus.len()] == s);
            assert(rest.contains(s));
        }
    }
    kept
}

/// A step that opens no session, and neither enters one nor ends its creation.
proof fn lemma_limited_between(w: Crowd, n: Crowd, cover: Cover)
    requires
        w.limited(cover),
        n.manager.max_sessions == w.manager.max_sessions,
        n.ranks == w.ranks,
        n.opened_by == w.opened_by,
        n.entries == w.entries,
        forall|s: Seq<char>| #[trigger] n.live.contains(s) ==> w.live.contains(s),
        forall|c: nat| #[trigger]
            w.calls.contains_key(c) && w.calls[c].own() is Some ==> n.calls.contains_key(c),
        forall|c: nat| #[trigger]
            n.calls.contains_key(c) ==> if w.calls.contains_key(c) {
                n.calls[c].own() == w.calls[c].own()
            } else {
                n.calls[c].own() is None
            },
        forall|c: nat, s: Seq<char>| #[trigger]
            w.calls[c].dooms(s) && w.calls.contains_key(c) && n.calls.contains_key(c)
                && n.live.contains(s) ==> n.calls[c].dooms(s),
    ensures
        n.limited(cover),
{
    assert forall|s: Seq<char>, cut: nat| #[trigger] w.pending(s, cut) implies n.pending(
        s,
        cut,
    ) by {}
    assert forall|c: nat| #[trigger] n.calls.contains_key(c) implies (n.calls[c].own() matches Some(
        id,
    ) ==> {
        n.ranks.contains_key(id) && n.ranks[id] >= cover.cut ==> {
            &&& cover.keeps[c].finite()
            &&& cover.keeps[c].len() <= n.manager.max_sessions
            &&& n.covered_by(cover.keeps[c], n.calls[c], n.ranks[id] + 1)
        }
    }) by {
        if n.calls[c].own() is Some {
            assert(w.calls.contains_key(c));
            let id = n.calls[c].own()->0;
            if n.ranks.contains_key(id) && n.ranks[id] >= cover.cut {
                assert(w.covered_by(cover.keeps[c], w.calls[c], w.ranks[id] + 1));
                assert forall|s: Seq<char>| #[trigger]
                    n.live.contains(s) implies cover.keeps[c].contains(s) || n.calls[c].dooms(s)
                    || n.pending(s, n.ranks[id] + 1) by {
                    assert(w.live.contains(s));
                    assert(w.calls[c].dooms(s) ==> n.calls[c].dooms(s));
                }
            }
        }
    }
}

/// A session is opened.
proof fn lemma_limited_open(w: Crowd, call: nat, id: Seq<char>, cover: Cover)
    requires
        w.base(),
        w.limited(cover),
        w.allows(Step::Open { call, id }),
    ensures
        w.after(Step::Open { call, id }).limited(cover),
{
    let n = w.after(Step::Open { call, id });
    assert(!w.opened_by.contains_key(id));
    assert(!w.ranks.contains_key(id));
    assert forall|s: Seq<char>, cut: nat| #[trigger] w.pending(s, cut) implies n.pending(
        s,
        cut,
    ) by {}
    assert forall|cut: nat| #[trigger] n.pending(id, cut) by {}
    assert forall|c: nat| #[trigger] n.calls.contains_key(c) implies (n.calls[c].own() matches Some(
        own,
    ) ==> {
        n.ranks.contains_key(own) && n.ranks[own] >= cover.cut ==> {
            &&& cover.keeps[c].finite()
            &&& cover.keeps[c].len() <= n.manager.max_sessions
            &&& n.covered_by(cover.keeps[c], n.calls[c], n.ranks[own] + 1)
        }
    }) by {
        if c != call && n.calls[c].own() is Some {
            assert(w.calls.contains_key(c));
            let own = n.calls[c].own()->0;
            if n.ranks.contains_key(own) && n.ranks[own] >= cover.cut {
                assert(w.covered_by(cover.keeps[c], w.calls[c], w.ranks[own] + 1));
                assert forall|s: Seq<char>| #[trigger]
                    n.live.contains(s) implies cover.keeps[c].contains(s) || n.calls[c].dooms(s)
                    || n.pending(s, n.ranks[own] + 1) by {
                    if s != id {
                        assert(w.live.contains(s));
                    }
                }
            }
        }
    }
}

/// A session enters the creation order.
proof fn lemma_limited_enter(
    w: Crowd,
    call: nat,
    listed: Set<Seq<char>>,
    now: Instant,
    cover: Cover,
) -> (next: Cover)
    requires
        w.base(),
        w.limited(cover),
        w.allows(Step::Enter { call, listed, now }),
    ensures
        w.after(Step::Enter { call, listed, now }).limited(next),
{
    let n = w.after(Step::Enter { call, listed, now });
    let evicted = w.calls[call]->Opened_evicted;
    let id = w.calls[call]->Opened_id;
    assert(w.fits(call, w.calls[call]));
    lemma_created(w.manager, evicted, id, listed, now, w.ranks, w.entries);
    let kept = lemma_not_surplus(n.manager);
    let next = Cover { keeps: cover.keeps.insert(call, kept), ..cover };
    assert forall|s: Seq<char>, cut: nat| #[trigger]
        w.pending(s, cut) && cut <= w.entries implies n.pending(s, cut) by {}
    assert forall|c: nat| #[trigger] n.calls.contains_key(c) implies (n.calls[c].own() matches Some(
        own,
    ) ==> {
        n.ranks.contains_key(own) && n.ranks[own] >= next.cut ==> {
            &&& next.keeps[c].finite()
            &&& next.keeps[c].len() <= n.manager.max_sessions
            &&& n.covered_by(next.keeps[c], n.calls[c], n.ranks[own] + 1)
        }
    }) by {
        if c == call {
            assert forall|s: Seq<char>| #[trigger] n.live.contains(s) implies kept.contains(s)
                || n.calls[c].dooms(s) || n.pending(s, w.entries + 1) by {
                assert(w.live.contains(s));
                if s == id || w.manager.order.contains(s) {
                    assert(n.manager.order.contains(s));
                    assert(n.calls[c].surplus() == n.manager.surplus());
                } else {
                    assert(w.opening(s));
                    assert(w.fits(w.opened_by[s], w.calls[w.opened_by[s]]));
                    assert(n.pending(s, w.entries + 1));
                }
            }
        } else if n.calls[c].own() is Some {
            assert(w.calls.contains_key(c));
            assert(w.fits(c, w.calls[c]));
            let own = n.calls[c].own()->0;
            assert(own != id);
            if n.ranks.contains_key(own) && n.ranks[own] >= cover.cut {
                assert(w.covered_by(cover.keeps[c], w.calls[c], w.ranks[own] + 1));
                assert forall|s: Seq<char>| #[trigger]
                    n.live.contains(s) implies next.keeps[c].contains(s) || n.calls[c].dooms(s)
                    || n.pending(s, n.ranks[own] + 1) by {
                    assert(w.live.contains(s));
                }
            }
        }
    }
    next
}

/// A creation ends that finds the limit kept.
proof fn lemma_limited_kept(
    w: Crowd,
    call: nat,
    listed: Set<Seq<char>>,
    now: Instant,
    cover: Cover,
) -> (next: Cover)
    requires
        w.base(),
        w.limited(cover),
        w.allows(Step::Trim { call, listed, now }),
        w.relisted(listed).manager.surplus().len() == 0,
    ensures
        w.after(Step::Trim { call, listed, now }).limited(next),
{
    let n = w.after(Step::Trim { call, listed, now });
    lemma_base(w, Step::Trim { call, listed, now });
    let kept = lemma_not_surplus(n.manager);
    let next = Cover { kept, cut: n.entries, ..cover };
    assert forall|s: Seq<char>| #[trigger] n.live.contains(s) implies next.kept.contains(s)
        || n.pending(s, next.cut) by {
        if n.opening(s) {
            assert(n.fits(n.opened_by[s], n.calls[n.opened_by[s]]));
        } else {
            assert(n.manager.order.contains(s));
            assert(!n.manager.surplus().contains(s));
        }
    }
    next
}

/// A creation ends that has no session left to close.
proof fn lemma_limited_end(
    w: Crowd,
    call: nat,
    listed: Set<Seq<char>>,
    now: Instant,
    cover: Cover,
) -> (next: Cover)
    requires
        w.base(),
        w.limited(cover),
        w.allows(Step::Trim { call, listed, now }),
        w.calls[call].surplus().len() == 0,
    ensures
        w.after(Step::Trim { call, listed, now }).limited(next),
{
    let n = w.after(Step::Trim { call, listed, now });
    let id = w.calls[call].own()->0;
    assert(w.fits(call, w.calls[call]));
    let rank = w.ranks[id];
    let next = if rank >= cover.cut {
        Cover { kept: cover.keeps[call], cut: rank + 1, ..cover }
    } else {
        cover
    };
    assert forall|s: Seq<char>, cut: nat| #[trigger]
        w.pending(s, cut) && cut > rank implies n.pending(s, cut) by {}
    if rank >= cover.cut {
        assert(w.covered_by(cover.keeps[call], w.calls[call], rank + 1));
        assert forall|s: Seq<char>| #[trigger] n.live.contains(s) implies next.kept.contains(s)
            || n.pending(s, next.cut) by {
            assert(w.live.contains(s));
            assert(!w.calls[call].dooms(s));
        }
    }
    assert forall|c: nat| #[trigger] n.calls.contains_key(c) implies (n.calls[c].own() matches Some(
        own,
    ) ==> {
        n.ranks.contains_key(own) && n.ranks[own] >= next.cut ==> {
            &&& next.keeps[c].finite()
            &&& next.keeps[c].len() <= n.manager.max_sessions
            &&& n.covered_by(next.keeps[c], n.calls[c], n.ranks[own] + 1)
        }
    }) by {
        if n.calls[c].own() is Some {
            assert(w.calls.contains_key(c));
            let own = n.calls[c].own()->0;
            if n.ranks.contains_key(own) && n.ranks[own] >= next.cut {
                assert(w.covered_by(cover.keeps[c], w.calls[c], w.ranks[own] + 1));
                assert forall|s: Seq<char>| #[trigger]
                    n.live.contains(s) implies next.keeps[c].contains(s) || n.calls[c].dooms(s)
                    || n.pending(s, n.ranks[own] + 1) by {
                    assert(w.live.contains(s));
                }
            }
        }
    }
    next
}

proof fn lemma_limited(w: Crowd, step: Step, cover: Cover) -> (next: Cover)
    requires
        w.base(),
        w.limited(cover),
        w.allows(step),
    ensures
        w.after(step).limited(next),
{
    match step {
        Step::Open { call, id } => {
            lemma_limited_open(w, call, id, cover);
            cover
        },
        Step::Enter { call, listed, now } => lemma_limited_enter(w, call, listed, now, cover),
        Step::Trim { call, listed, now } if w.calls[call].surplus().len() == 0 => lemma_limited_end(
            w,
            call,
            listed,
            now,
            cover,
        ),
        Step::Trim { call, listed, now } if !w.trims(call, listed) => lemma_limited_kept(
            w,
            call,
            listed,
            now,
            cover,
        ),
        _ => {
            let n = w.after(step);
            if let Step::Trim { call, .. } = step {
                lemma_drop_first_contains(w.calls[call].surplus());
            }
            assert forall|c: nat, s: Seq<char>| #[trigger]
                w.calls[c].dooms(s) && w.calls.contains_key(c) && n.calls.contains_key(c)
                    && n.live.contains(s) implies n.calls[c].dooms(s) by {
                assert(w.fits(c, w.calls[c]));
            }
            lemma_limited_between(w, n, cover);
            cover
        },
    }
}

proof fn lemma_accounted(w: Crowd, step: Step)
    requires
        w.base(),
        w.accounted(),
        w.allows(step),
        !(step is Lose),
    ensures
        w.after(step).accounted(),
{
    let n = w.after(step);
    lemma_base(w, step);
    assert forall|s: Seq<char>| #[trigger] w.ending(s) && n.live.contains(s) implies n.ending(
        s,
    ) by {
        let c = choose|c: nat| #[trigger] w.calls.contains_key(c) && w.ends(c, s);
        assert(w.fits(c, w.calls[c]));
        assert(n.calls.contains_key(c) && n.ends(c, s));
    }
    match step {
        Step::BeginEviction { call, .. } => {
            assert(n.calls.contains_key(call));
            assert(n.ending(w.calls[call]->victim));
        },
        Step::Trim { call, listed, .. } => {
            if w.trims(call, listed) {
                assert(n.calls.contains_key(call));
                assert(n.ending(w.calls[call].surplus()[0]));
            }
        },
        Step::BeginClose { call, id, .. } => {
            assert(n.calls.contains_key(call));
            assert(n.ending(id));
        },
        Step::EndSession { call } => {
            assert(w.fits(call, w.calls[call]));
        },
        _ => {},
    }
    assert forall|s: Seq<char>| #[trigger] n.live.contains(s) implies n.manager.lifecycle.contains_key(
    s) || n.opening(s) || n.ending(s) by {
        if w.live.contains(s) {
            assert(w.manager.lifecycle.contains_key(s) || w.opening(s) || w.ending(s));
        }
    }
    assert forall|c: nat| #[trigger] n.calls.contains_key(c) implies (n.calls[c] matches Call::Opened {
        id,
        ..
    } ==> n.live.contains(id)) by {
        if n.calls[c] is Opened && w.calls.contains_key(c) {
            assert(w.fits(c, w.calls[c]));
        }
    }
}

/// A step with which no close begins or finishes.
proof fn lemma_recorded_between(w: Crowd, n: Crowd)
    requires
        w.recorded(),
        n.records == w.records,
        n.untracked_for == w.untracked_for,
        forall|s: Seq<char>| #[trigger] w.ranks.contains_key(s) ==> n.ranks.contains_key(s),
        forall|s: Seq<char>| #[trigger]
            w.untracked_for.contains_key(s) ==> !n.manager.lifecycle.contains_key(s),
        forall|c: nat| #[trigger]
            w.calls.contains_key(c) && w.calls[c].closing() is Some ==> n.calls.contains_key(c),
        forall|c: nat| #[trigger]
            n.calls.contains_key(c) ==> if w.calls.contains_key(c) {
                n.calls[c].closing() == w.calls[c].closing()
            } else {
                n.calls[c].closing() is None
            },
    ensures
        n.recorded(),
{
    assert forall|s: Seq<char>| #[trigger] n.untracked_for.contains_key(s) implies n.noted(s) by {
        assert(w.noted(s));
        if exists|c: nat| #[trigger] w.calls.contains_key(c) && w.logs(c, s) {
            let c = choose|c: nat| #[trigger] w.calls.contains_key(c) && w.logs(c, s);
            assert(n.calls.contains_key(c) && n.logs(c, s));
        } else {
            let i = choose|i: int|
                0 <= i < w.records.len() && (#[trigger] w.records[i]).id == s;
            assert(n.records[i].id == s);
        }
    }
    assert forall|c: nat, d: nat, s: Seq<char>|
        c != d && n.calls.contains_key(c) && n.calls.contains_key(d)
            && #[trigger] n.logs(c, s) implies !#[trigger] n.logs(d, s) by {
        assert(w.calls.contains_key(c) && w.logs(c, s));
        if n.logs(d, s) {
            assert(w.calls.contains_key(d) && w.logs(d, s));
        }
    }
}

/// The call `c` begins to close the session `id`.
proof fn lemma_recorded_begin(
    w: Crowd,
    n: Crowd,
    c: nat,
    id: Seq<char>,
    reason: CloseReason,
    now: Instant,
)
    requires
        w.base(),
        w.recorded(),
        w.calls.contains_key(c) ==> w.calls[c].closing() is None,
        n.records == w.records,
        n.ranks == w.ranks,
        n.untracked_for == w.begun(id, reason).untracked_for,
        n.manager.lifecycle == w.manager.lifecycle.remove(id),
        n.calls == w.calls.insert(c, n.calls[c]),
        n.calls[c].closing() == Some(w.manager.closing(id, reason, now)),
    ensures
        n.recorded(),
{
    assert(n.calls.contains_key(c));
    let first = w.manager.lifecycle.contains_key(id);
    assert forall|s: Seq<char>| #[trigger] n.untracked_for.contains_key(s) implies n.noted(s) by {
        if first && s == id {
            assert(n.logs(c, id));
        } else {
            assert(w.noted(s));
            if exists|d: nat| #[trigger] w.calls.contains_key(d) && w.logs(d, s) {
                let d = choose|d: nat| #[trigger] w.calls.contains_key(d) && w.logs(d, s);
                assert(n.calls.contains_key(d) && n.logs(d, s));
            } else {
                let i = choose|i: int|
                    0 <= i < w.records.len() && (#[trigger] w.records[i]).id == s;
                assert(n.records[i].id == s);
            }
        }
    }
    assert forall|i: int| 0 <= i < n.records.len() implies {
        let record = #[trigger] n.records[i];
        n.untracked_for.contains_key(record.id) && n.untracked_for[record.id] == record.reason
    } by {
        assert(w.untracked_for.contains_key(w.records[i].id));
    }
    assert forall|d: nat, e: nat, s: Seq<char>|
        d != e && n.calls.contains_key(d) && n.calls.contains_key(e)
            && #[trigger] n.logs(d, s) implies !#[trigger] n.logs(e, s) by {
        if d != c {
            assert(w.calls.contains_key(d) && w.logs(d, s));
        }
        if e != c && n.logs(e, s) {
            assert(w.calls.contains_key(e) && w.logs(e, s));
        }
    }
}

/// The call `c` finishes its close.
proof fn lemma_recorded_finish(w: Crowd, n: Crowd, c: nat)
    requires
        w.recorded(),
        w.calls.contains_key(c),
        w.calls[c].closing() is Some,
        n.records == w.finished(w.calls[c].closing()->0).records,
        n.ranks == w.ranks,
        n.untracked_for == w.untracked_for,
        n.manager.lifecycle == w.manager.lifecycle,
        n.calls.contains_key(c) ==> n.calls[c].closing() is None,
        forall|d: nat| #[trigger]
            n.calls.contains_key(d) && d != c ==> w.calls.contains_key(d) && n.calls[d]
                == w.calls[d],
        forall|d: nat| #[trigger]
            w.calls.contains_key(d) && d != c ==> n.calls.contains_key(d) && n.calls[d]
                == w.calls[d],
    ensures
        n.recorded(),
{
    let closing = w.calls[c].closing()->0;
    assert forall|i: int| 0 <= i < w.records.len() implies n.records[i] == w.records[i] by {}
    assert forall|s: Seq<char>| #[trigger] n.untracked_for.contains_key(s) implies n.noted(s) by {
        assert(w.noted(s));
        if exists|d: nat| #[trigger] w.calls.contains_key(d) && w.logs(d, s) {
            let d = choose|d: nat| #[trigger] w.calls.contains_key(d) && w.logs(d, s);
            if d == c {
                assert(n.records[w.records.len() as int].id == s);
            } else {
                assert(n.calls.contains_key(d) && n.logs(d, s));
            }
        } else {
            let i = choose|i: int|
                0 <= i < w.records.len() && (#[trigger] w.records[i]).id == s;
            assert(n.records[i].id == s);
        }
    }
    assert forall|d: nat| #[trigger] n.calls.contains_key(d) implies (
    n.calls[d].closing() matches Some(other) ==> {
        other.lasted is Some ==> {
            &&& n.untracked_for.contains_key(other.id)
            &&& n.untracked_for[other.id] == other.reason
            &&& forall|i: int|
                0 <= i < n.records.len() ==> (#[trigger] n.records[i]).id != other.id
        }
    }) by {
        if d != c && n.calls[d].closing() is Some {
            let other = n.calls[d].closing()->0;
            assert(w.calls.contains_key(d));
            if other.lasted is Some && closing.lasted is Some {
                assert(w.logs(d, other.id));
                assert(w.logs(c, closing.id));
            }
        }
    }
    assert forall|d: nat, e: nat, s: Seq<char>|
        d != e && n.calls.contains_key(d) && n.calls.contains_key(e)
            && #[trigger] n.logs(d, s) implies !#[trigger] n.logs(e, s) by {
        assert(w.calls.contains_key(d) && w.logs(d, s));
        if n.logs(e, s) {
            assert(w.calls.contains_key(e) && w.logs(e, s));
        }
    }
}

proof fn lemma_recorded(w: Crowd, step: Step)
    requires
        w.base(),
        w.recorded(),
        w.allows(step),
    ensures
        w.after(step).recorded(),
        forall|s: Seq<char>| #[trigger]
            w.untracked_for.contains_key(s) ==> w.after(step).untracked_for.contains_key(s)
                && w.after(step).untracked_for[s] == w.untracked_for[s],
{
    let n = w.after(step);
    match step {
        Step::BeginEviction { call, now } => {
            let victim = w.calls[call]->victim;
            lemma_recorded_begin(w, n, call, victim, CloseReason::Evicted, now);
        },
        Step::Trim { call, listed, now } if w.trims(call, listed) => {
            let oldest = w.calls[call].surplus()[0];
            lemma_recorded_begin(w, n, call, oldest, CloseReason::Evicted, now);
        },
        Step::BeginClose { call, id, reason, now } => {
            lemma_recorded_begin(w, n, call, id, reason, now);
        },
        Step::FinishEviction { call } => {
            lemma_recorded_finish(w, n, call);
        },
        Step::FinishTrim { call } => {
            lemma_recorded_finish(w, n, call);
        },
        Step::FinishClose { call } => {
            lemma_recorded_finish(w, n, call);
        },
        _ => {
            if let Step::Enter { call, .. } = step {
                assert(w.fits(call, w.calls[call]));
            }
            lemma_recorded_between(w, n);
        },
    }
}

proof fn lemma_in_turn(w: Crowd, step: Step)
    requires
        w.base(),
        w.allows(step),
        forall|c: nat| #[trigger] w.calls.contains_key(c) ==> w.in_turn(c),
    ensures
        forall|c: nat| #[trigger]
            w.after(step).calls.contains_key(c) ==> w.after(step).in_turn(c),
{
    let n = w.after(step);
    lemma_base(w, step);
    lemma_order_grows_at_the_end(w, step);
    assert forall|c: nat| #[trigger] n.calls.contains_key(c) implies n.in_turn(c) by {
        let call = n.calls[c];
        if call.own() is Some && !(call is Opened) {
            let id = call.own()->0;
            assert(n.fits(c, call));
            assert(w.calls.contains_key(c));
            assert(w.fits(c, w.calls[c]));
            let entering = step is Enter && step->Enter_call == c;
            if !entering {
                lemma_ranked_still(w.calls[c].surplus(), w, n, id);
                if w.calls[c].surplus().len() > 0 {
                    lemma_drop_first_contains(w.calls[c].surplus());
                }
            }
            let surplus = call.surplus();
            if entering {
                let order = n.manager.order;
                assert(order[order.len() - 1] == id);
                assert forall|i: int| 0 <= i < surplus.len() implies surplus[i]
                    == #[trigger] order[i] && n.ranks[order[i]] < n.ranks[id] by {}
            }
            assert(ranked(surplus, n.ranks, n.ranks[id]));
            assert forall|s: Seq<char>, t: Seq<char>|
                #![trigger n.manager.order.contains(s), surplus.contains(t)]
                n.manager.order.contains(s) && surplus.contains(t) && n.ranks[s]
                    < n.ranks[t] implies call.dooms(s) by {
                if entering {
                    let order = n.manager.order;
                    let i = choose|i: int| 0 <= i < order.len() && order[i] == s;
                    let j = choose|j: int| 0 <= j < surplus.len() && surplus[j] == t;
                    assert(order[j] == t);
                    assert(i < j);
                    assert(surplus[i] == s);
                } else {
                    assert(w.calls[c].surplus().contains(t));
                    assert(w.ranks.contains_key(t));
                    assert(w.manager.order.contains(s));
                    assert(w.calls[c].dooms(s));
                }
            }
        }
    }
}

/// A session that a step puts into the creation order comes after all others.
proof fn lemma_order_grows_at_the_end(w: Crowd, step: Step)
    requires
        w.base(),
        w.allows(step),
    ensures
        forall|s: Seq<char>| #[trigger]
            w.ranks.contains_key(s) ==> w.after(step).ranks.contains_key(s) && w.after(
                step,
            ).ranks[s] == w.ranks[s],
        forall|s: Seq<char>| #[trigger]
            w.after(step).manager.order.contains(s) ==> w.manager.order.contains(s) || w.after(
                step,
            ).ranks[s] == w.entries,
        match step {
            Step::FinishTrim { call } => !w.after(step).manager.order.contains(
                w.calls[call].closing()->0.id,
            ),
            _ => true,
        },
{
    match step {
        Step::Enter { call, listed, now } => {
            assert(w.fits(call, w.calls[call]));
            let evicted = w.calls[call]->Opened_evicted;
            let id = w.calls[call]->Opened_id;
            lemma_created(w.manager, evicted, id, listed, now, w.ranks, w.entries);
        },
        Step::Trim { listed, .. } => {
            lemma_filter_ranked(w.manager.order, among(listed), w.ranks, w.entries);
        },
        Step::FinishEviction { call } => {
            let id = w.calls[call].closing()->0.id;
            lemma_filter_ranked(w.manager.order, other_than(id), w.ranks, w.entries);
        },
        Step::FinishTrim { call } => {
            let id = w.calls[call].closing()->0.id;
            lemma_filter_ranked(w.manager.order, other_than(id), w.ranks, w.entries);
        },
        Step::FinishClose { call } => {
            let id = w.calls[call].closing()->0.id;
            lemma_filter_ranked(w.manager.order, other_than(id), w.ranks, w.entries);
        },
        _ => {},
    }
}

/// Sessions that were ranked before a step are ranked after it, and so are
/// those behind the first.
proof fn lemma_ranked_still(surplus: Seq<Seq<char>>, w: Crowd, n: Crowd, id: Seq<char>)
    requires
        ranked(surplus, w.ranks, w.ranks[id]),
        w.ranks.contains_key(id),
        forall|s: Seq<char>| #[trigger]
            w.ranks.contains_key(s) ==> n.ranks.contains_key(s) && n.ranks[s] == w.ranks[s],
    ensures
        ranked(surplus, n.ranks, n.ranks[id]),
        surplus.len() > 0 ==> ranked(surplus.drop_first(), n.ranks, n.ranks[id]),
{
    if surplus.len() > 0 {
        let rest = surplus.drop_first();
        assert forall|i: int| 0 <= i < rest.len() implies n.ranks.contains_key(#[trigger] rest[i])
            && n.ranks[rest[i]] < n.ranks[id] by {
            assert(rest[i] == surplus[i + 1]);
        }
        assert forall|i: int, j: int| 0 <= i < j < rest.len() implies n.ranks[#[trigger] rest[i]]
            < n.ranks[#[trigger] rest[j]] by {
            assert(rest[i] == surplus[i + 1] && rest[j] == surplus[j + 1]);
        }
    }
}

proof fn lemma_run(
    config: SessionConfig,
    max_sessions: nat,
    limiter: Option<RateLimiterView>,
    max_lifetime: Option<Duration>,
    steps: Seq<Step>,
) -> (cover: Cover)
    requires
        max_sessions >= 1,
        Crowd::start(config, max_sessions, limiter, max_lifetime).allows_all(steps),
    ensures
        ({
            let w = Crowd::start(config, max_sessions, limiter, max_lifetime).after_all(steps);
            &&& w.base()
            &&& w.limited(cover)
            &&& w.recorded()
            &&& forall|c: nat| #[trigger] w.calls.contains_key(c) ==> w.in_turn(c)
            &&& w.manager.max_sessions == max_sessions
        }),
    decreases steps.len(),
{
    let start = Crowd::start(config, max_sessions, limiter, max_lifetime);
    if steps.len() == 0 {
        Cover { kept: Set::empty(), cut: 0, keeps: Map::empty() }
    } else {
        let before = start.after_all(steps.drop_last());
        let cover = lemma_run(config, max_sessions, limiter, max_lifetime, steps.drop_last());
        lemma_base(before, steps.last());
        lemma_recorded(before, steps.last());
        lemma_in_turn(before, steps.last());
        lemma_limited(before, steps.last(), cover)
    }
}

/// Of the sessions that are opened for creations in flight, each has a creation
/// of its own.
proof fn lemma_pending_count(w: Crowd, pending: Set<Seq<char>>, creations: Set<nat>)
    requires
        pending.finite(),
        creations.finite(),
        forall|s: Seq<char>| #[trigger]
            pending.contains(s) ==> creations.contains(w.opened_by[s])
                && w.calls[w.opened_by[s]].own() == Some(s),
    ensures
        pending.len() <= creations.len(),
    decreases pending.len(),
{
    if pending.len() > 0 {
        let s = pending.choose();
        let c = w.opened_by[s];
        assert forall|t: Seq<char>| #[trigger] pending.remove(s).contains(t) implies creations.remove(
        c).contains(w.opened_by[t]) && w.calls[w.opened_by[t]].own() == Some(t) by {
            assert(pending.contains(t));
        }
        assert(pending.contains(s));
        lemma_pending_count(w, pending.remove(s), creations.remove(c));
    }
}

/// The limit is exceeded only while creations overlap, and by at most their
/// number: however the steps of calls interleave, and whatever count of live
/// sessions the creations were told, no more sessions live than the limit and
/// one for each creation in flight. With no creation in flight the sessions are
/// within the limit.
pub proof fn overlapping_creations_restore_the_limit(
    config: SessionConfig,
    max_sessions: nat,
    limiter: Option<RateLimiterView>,
    max_lifetime: Option<Duration>,
    steps: Seq<Step>,
)
    requires
        max_sessions >= 1,
        Crowd::start(config, max_sessions, limiter, max_lifetime).allows_all(steps),
    ensures
        ({
            let w = Crowd::start(config, max_sessions, limiter, max_lifetime).after_all(steps);
            &&& w.live.finite()
            &&& w.creations().finite()
            &&& w.live.len() <= max_sessions + w.creations().len()
            &&& w.creations().is_empty() ==> w.live.len() <= max_sessions
        }),
{
    let w = Crowd::start(config, max_sessions, limiter, max_lifetime).after_all(steps);
    let cover = lemma_run(config, max_sessions, limiter, max_lifetime, steps);
    let creations = w.creations();
    assert(creations.finite()) by {
        w.calls.dom().lemma_len_filter(|call: nat| !(w.calls[call] is Closing));
    }
    let pending = w.live.difference(cover.kept);
    assert forall|s: Seq<char>| #[trigger] pending.contains(s) implies creations.contains(
        w.opened_by[s],
    ) && w.calls[w.opened_by[s]].own() == Some(s) by {
        assert(w.live.contains(s));
        assert(w.pending(s, cover.cut));
    }
    lemma_pending_count(w, pending, creations);
    vstd::set_lib::lemma_len_union(cover.kept, pending);
    vstd::set_lib::lemma_len_subset(w.live, cover.kept.union(pending));
}

/// There is exactly one lifecycle entry for each session that lives whenever no
/// call is in flight, as long as the manager is told of every session that ends:
/// however the steps of calls interleaved before.
pub proof fn overlapping_calls_leave_one_entry_for_each_live_session(
    config: SessionConfig,
    max_sessions: nat,
    limiter: Option<RateLimiterView>,
    max_lifetime: Option<Duration>,
    steps: Seq<Step>,
)
    requires
        max_sessions >= 1,
        Crowd::start(config, max_sessions, limiter, max_lifetime).allows_all(steps),
        forall|i: int| 0 <= i < steps.len() ==> !(#[trigger] steps[i] is Lose),
    ensures
        ({
            let w = Crowd::start(config, max_sessions, limiter, max_lifetime).after_all(steps);
            &&& w.manager.lifecycle.dom().subset_of(w.live)
            &&& w.calls.dom().is_empty() ==> w.manager.lifecycle.dom() == w.live
        }),
{
    let w = Crowd::start(config, max_sessions, limiter, max_lifetime).after_all(steps);
    lemma_run_accounted(config, max_sessions, limiter, max_lifetime, steps);
    if w.calls.dom().is_empty() {
        assert forall|s: Seq<char>| #[trigger] w.live.contains(s) implies w.manager.lifecycle.contains_key(
        s) by {
            assert(!w.opening(s));
            assert(!w.ending(s));
        }
        assert(w.manager.lifecycle.dom() =~= w.live);
    }
}

proof fn lemma_run_accounted(
    config: SessionConfig,
    max_sessions: nat,
    limiter: Option<RateLimiterView>,
    max_lifetime: Option<Duration>,
    steps: Seq<Step>,
)
    requires
        max_sessions >= 1,
        Crowd::start(config, max_sessions, limiter, max_lifetime).allows_all(steps),
        forall|i: int| 0 <= i < steps.len() ==> !(#[trigger] steps[i] is Lose),
    ensures
        Crowd::start(config, max_sessions, limiter, max_lifetime).after_all(steps).accounted(),
    decreases steps.len(),
{
    let start = Crowd::start(config, max_sessions, limiter, max_lifetime);
    if steps.len() > 0 {
        let before = steps.drop_last();
        assert forall|i: int| 0 <= i < before.len() implies !(#[trigger] before[i] is Lose) by {
            assert(before[i] == steps[i]);
        }
        lemma_run_accounted(config, max_sessions, limiter, max_lifetime, before);
        let _ = lemma_run(config, max_sessions, limiter, max_lifetime, before);
        assert(!(steps[steps.len() - 1] is Lose));
        lemma_accounted(start.after_all(before), steps.last());
    }
}

/// A session is closed once: whoever closes it, and however the closes
/// interleave, at most one close of it is logged, with the reason of the close
/// that stopped it being tracked. With no call in flight, each session that is
/// no longer tracked has its record.
pub proof fn each_session_has_one_close_record(
    config: SessionConfig,
    max_sessions: nat,
    limiter: Option<RateLimiterView>,
    max_lifetime: Option<Duration>,
    steps: Seq<Step>,
)
    requires
        max_sessions >= 1,
        Crowd::start(config, max_sessions, limiter, max_lifetime).allows_all(steps),
    ensures
        ({
            let w = Crowd::start(config, max_sessions, limiter, max_lifetime).after_all(steps);
            &&& forall|i: int, j: int|
                0 <= i < j < w.records.len() ==> (#[trigger] w.records[i]).id != (
                #[trigger] w.records[j]).id
            &&& forall|i: int|
                0 <= i < w.records.len() ==> {
                    let record = #[trigger] w.records[i];
                    w.untracked_for.contains_key(record.id) && w.untracked_for[record.id]
                        == record.reason
                }
            &&& w.calls.dom().is_empty() ==> forall|s: Seq<char>| #[trigger]
                w.untracked_for.contains_key(s) ==> exists|i: int|
                    0 <= i < w.records.len() && (#[trigger] w.records[i]).id == s
        }),
{
    let w = Crowd::start(config, max_sessions, limiter, max_lifetime).after_all(steps);
    let _ = lemma_run(config, max_sessions, limiter, max_lifetime, steps);
    if w.calls.dom().is_empty() {
        assert forall|s: Seq<char>| #[trigger] w.untracked_for.contains_key(s) implies exists|i: int|
            0 <= i < w.records.len() && (#[trigger] w.records[i]).id == s by {
            assert(w.noted(s));
        }
    }
}

/// A session stops being tracked once: whatever steps follow, the close that
/// stopped it stays the one that did, and the session is never tracked again.
pub proof fn untracked_session_stays_untracked(
    config: SessionConfig,
    max_sessions: nat,
    limiter: Option<RateLimiterView>,
    max_lifetime: Option<Duration>,
    steps: Seq<Step>,
    more: Seq<Step>,
    id: Seq<char>,
)
    requires
        max_sessions >= 1,
        Crowd::start(config, max_sessions, limiter, max_lifetime).allows_all(steps + more),
        Crowd::start(config, max_sessions, limiter, max_lifetime).after_all(
            steps,
        ).untracked_for.contains_key(id),
    ensures
        ({
            let start = Crowd::start(config, max_sessions, limiter, max_lifetime);
            let w = start.after_all(steps);
            let n = start.after_all(steps + more);
            &&& n.untracked_for.contains_key(id)
            &&& n.untracked_for[id] == w.untracked_for[id]
            &&& !n.manager.lifecycle.contains_key(id)
        }),
    decreases more.len(),
{
    let all = steps + more;
    let start = Crowd::start(config, max_sessions, limiter, max_lifetime);
    if more.len() == 0 {
        assert(all == steps);
    } else {
        assert(all.drop_last() == steps + more.drop_last());
        untracked_session_stays_untracked(
            config,
            max_sessions,
            limiter,
            max_lifetime,
            steps,
            more.drop_last(),
            id,
        );
        let _ = lemma_run(config, max_sessions, limiter, max_lifetime, all.drop_last());
        lemma_recorded(start.after_all(all.drop_last()), all.last());
    }
    let _ = lemma_run(config, max_sessions, limiter, max_lifetime, all);
}

/// Eviction stays first in, first out while calls overlap: the session that is
/// chosen at any moment entered the creation order before every other in it,
/// and every session that lives is in it unless the manager has not been told of
/// it yet.
pub proof fn overlapping_evictions_take_the_oldest(
    config: SessionConfig,
    max_sessions: nat,
    limiter: Option<RateLimiterView>,
    max_lifetime: Option<Duration>,
    steps: Seq<Step>,
    live_count: nat,
)
    requires
        max_sessions >= 1,
        Crowd::start(config, max_sessions, limiter, max_lifetime).allows_all(steps),
    ensures
        ({
            let w = Crowd::start(config, max_sessions, limiter, max_lifetime).after_all(steps);
            w.manager.eviction(live_count) matches Some(victim) ==> {
                &&& w.ranks.contains_key(victim)
                &&& forall|s: Seq<char>| #[trigger]
                    w.live.contains(s) && w.ranks.contains_key(s) && s != victim
                        ==> w.ranks[victim] < w.ranks[s]
            }
        }),
{
    let w = Crowd::start(config, max_sessions, limiter, max_lifetime).after_all(steps);
    let _ = lemma_run(config, max_sessions, limiter, max_lifetime, steps);
    if let Some(victim) = w.manager.eviction(live_count) {
        assert(w.manager.order[0] == victim);
        assert forall|s: Seq<char>| #[trigger]
            w.live.contains(s) && w.ranks.contains_key(s) && s != victim implies w.ranks[victim]
            < w.ranks[s] by {
            lemma_live_in_order(w, s);
            let k = choose|k: int| 0 <= k < w.manager.order.len() && w.manager.order[k] == s;
            assert(w.manager.order[k] == s);
        }
    }
}

/// Nothing is closed beyond need: where a creation is told which sessions live,
/// it begins to close one only if more live at that moment than the limit, never
/// its own, and none that lives while an older one does.
pub proof fn trimming_closes_only_the_excess(
    config: SessionConfig,
    max_sessions: nat,
    limiter: Option<RateLimiterView>,
    max_lifetime: Option<Duration>,
    steps: Seq<Step>,
    call: nat,
    now: Instant,
)
    requires
        max_sessions >= 1,
        Crowd::start(config, max_sessions, limiter, max_lifetime).allows_all(steps),
        ({
            let w = Crowd::start(config, max_sessions, limiter, max_lifetime).after_all(steps);
            w.allows(Step::Trim { call, listed: w.live, now })
        }),
    ensures
        ({
            let w = Crowd::start(config, max_sessions, limiter, max_lifetime).after_all(steps);
            let n = w.after(Step::Trim { call, listed: w.live, now });
            n.calls.contains_key(call) ==> (n.calls[call] matches Call::ClosingSurplus {
                id,
                closing,
                ..
            } && {
                &&& w.live.len() > max_sessions
                &&& closing.id != id
                &&& w.live.contains(closing.id) ==> forall|s: Seq<char>| #[trigger]
                    w.live.contains(s) && w.ranks.contains_key(s) && s != closing.id
                        ==> w.ranks[closing.id] < w.ranks[s]
            })
        }),
{
    let w = Crowd::start(config, max_sessions, limiter, max_lifetime).after_all(steps);
    let n = w.after(Step::Trim { call, listed: w.live, now });
    let _ = lemma_run(config, max_sessions, limiter, max_lifetime, steps);
    if w.trims(call, w.live) {
        let order = w.relisted(w.live).manager.order;
        lemma_filter_ranked(w.manager.order, among(w.live), w.ranks, w.entries);
        assert(order.no_duplicates());
        order.unique_seq_to_set();
        assert(order.to_set().subset_of(w.live));
        vstd::set_lib::lemma_len_subset(order.to_set(), w.live);
        let surplus = w.calls[call].surplus();
        let oldest = surplus[0];
        assert(w.fits(call, w.calls[call]));
        assert(w.in_turn(call));
        lemma_drop_first_contains(surplus);
        assert(n.calls[call].closing()->0.id == oldest);
        assert forall|s: Seq<char>| #[trigger]
            w.live.contains(s) && w.ranks.contains_key(s) && s != oldest && w.live.contains(
            oldest) implies w.ranks[oldest] < w.ranks[s] by {
            lemma_live_in_order(w, s);
            lemma_live_in_order(w, oldest);
            let i = choose|i: int| 0 <= i < w.manager.order.len() && w.manager.order[i] == s;
            let j = choose|j: int| 0 <= j < w.manager.order.len() && w.manager.order[j] == oldest;
            if i < j {
                assert(w.ranks[w.manager.order[i]] < w.ranks[w.manager.order[j]]);
                assert(w.calls[call].dooms(s));
                let k = choose|k: int| 0 <= k < surplus.len() && surplus[k] == s;
                assert(w.ranks[surplus[0]] < w.ranks[surplus[k]]);
            } else {
                assert(w.ranks[w.manager.order[j]] < w.ranks[w.manager.order[i]]);
            }
        }
    }
}

/// A session that lives and that the manager was told of is in the creation order.
proof fn lemma_live_in_order(w: Crowd, s: Seq<char>)
    requires
        w.base(),
        w.live.contains(s),
        w.ranks.contains_key(s),
    ensures
        w.manager.order.contains(s),
{
    if w.opening(s) {
        assert(w.fits(w.opened_by[s], w.calls[w.opened_by[s]]));
    }
}

/// A session that was opened and that the manager has not been told of has no
/// number yet.
pub(crate) proof fn lemma_opened_has_no_rank(
    config: SessionConfig,
    max_sessions: nat,
    limiter: Option<RateLimiterView>,
    max_lifetime: Option<Duration>,
    steps: Seq<Step>,
    call: nat,
)
    requires
        max_sessions >= 1,
        Crowd::start(config, max_sessions, limiter, max_lifetime).allows_all(steps),
    ensures
        ({
            let w = Crowd::start(config, max_sessions, limiter, max_lifetime).after_all(steps);
            w.calls.contains_key(call) ==> (w.calls[call] matches Call::Opened { id, .. }
                ==> !w.ranks.contains_key(id))
        }),
{
    let w = Crowd::start(config, max_sessions, limiter, max_lifetime).after_all(steps);
    let _ = lemma_run(config, max_sessions, limiter, max_lifetime, steps);
    if w.calls.contains_key(call) {
        assert(w.fits(call, w.calls[call]));
    }
}

/// What the steps ask of the rate limiter.
pub open spec fn limiter_events(w: Crowd, steps: Seq<Step>) -> Seq<LimiterEvent>
    decreases steps.len(),
{
    if steps.len() == 0 {
        Seq::empty()
    } else {
        let before = limiter_events(w, steps.drop_last());
        match steps.last() {
            Step::BeginCreate { now, .. } => before.push(LimiterEvent::Reserve { now }),
            Step::OpenFails { call } => match w.after_all(steps.drop_last()).calls[call] {
                Call::Ready { slot: Some(reserved_at), .. } => before.push(
                    LimiterEvent::Rollback { reserved_at },
                ),
                _ => before,
            },
            _ => before,
        }
    }
}

/// Calls that overlap share one rate limiter: it stands where their requests,
/// and the slots that failed creations give back, have brought it, so that the
/// laws of [`rate_laws`](crate::rate_laws) hold of them all together.
pub proof fn overlapping_calls_share_the_rate_limit(
    config: SessionConfig,
    max_sessions: nat,
    max_creates: nat,
    window: Duration,
    max_lifetime: Option<Duration>,
    steps: Seq<Step>,
)
    requires
        ({
            let limiter = Some(RateLimiterView::fresh(max_creates, window));
            Crowd::start(config, max_sessions, limiter, max_lifetime).allows_all(steps)
        }),
    ensures
        ({
            let limiter = Some(RateLimiterView::fresh(max_creates, window));
            let start = Crowd::start(config, max_sessions, limiter, max_lifetime);
            start.after_all(steps).manager.limiter == Some(
                LimiterHistory::start(max_creates, window).after_all(
                    limiter_events(start, steps),
                ).limiter,
            )
        }),
    decreases steps.len(),
{
    if steps.len() > 0 {
        let limiter = Some(RateLimiterView::fresh(max_creates, window));
        let start = Crowd::start(config, max_sessions, limiter, max_lifetime);
        let before = limiter_events(start, steps.drop_last());
        overlapping_calls_share_the_rate_limit(
            config,
            max_sessions,
            max_creates,
            window,
            max_lifetime,
            steps.drop_last(),
        );
        let all = limiter_events(start, steps);
        if all != before {
            assert(all.drop_last() == before);
        }
    }
}

} // verus!
