use mcp_session::{
    BoundedSessionError, BoundedSessionManager, BoundedSessionManagerBuilder, CloseReason,
    ClosingSession, Duration, Instant, MakeRoom, OpenedSession, RateLimiter, ReadyCreate,
    SessionConfig, Trim,
};
use rmcp::transport::streamable_http_server::session::local::LocalSessionManagerError;

#[test]
fn u01_close_reason_derives() {
    let r = CloseReason::Evicted;
    assert_eq!(r, CloseReason::Evicted);
    assert_ne!(r, CloseReason::MaxLifetime);
    assert_ne!(r, CloseReason::Closed);

    assert_eq!(CloseReason::Evicted.to_string(), "Evicted");
    assert_eq!(CloseReason::MaxLifetime.to_string(), "MaxLifetime");
    assert_eq!(CloseReason::Closed.to_string(), "Closed");

    let _ = format!("{:?}", r);
    let r2 = r;
    assert_eq!(r, r2);
}

fn at(secs: u128) -> Instant {
    Instant {
        nanos: secs * 1_000_000_000,
    }
}

fn not_found() -> LocalSessionManagerError {
    LocalSessionManagerError::SessionNotFound("lost".into())
}

fn manager(max_sessions: usize) -> BoundedSessionManager {
    BoundedSessionManager::new(SessionConfig::default(), max_sessions)
}

/// Goes through a creation up to the point where the session can be opened;
/// `live` loses the session that makes room.
fn make_room(
    manager: &mut BoundedSessionManager,
    live: &mut Vec<String>,
    now: Instant,
) -> Result<ReadyCreate, BoundedSessionError> {
    let admitted = manager.begin_create(now)?;
    match manager.choose_eviction(admitted, live.len()) {
        MakeRoom::Ready(ready) => Ok(ready),
        MakeRoom::Evict(evicting) => {
            let (_, victim) = manager.begin_eviction(evicting, now);
            live.retain(|id| id != victim.id());
            let (record, ready) = manager.finish_eviction(victim, Ok(()));
            if let Some(record) = record {
                assert_eq!(record.reason, CloseReason::Evicted);
            }
            Ok(ready)
        }
    }
}

fn create(
    manager: &mut BoundedSessionManager,
    live: &mut Vec<String>,
    id: &str,
    now: Instant,
) -> Result<(), BoundedSessionError> {
    let ready = make_room(manager, live, now)?;
    live.push(id.to_string());
    let opened = manager.creation_succeeded(ready, id.to_string(), live, now);
    assert_eq!(opened.id(), id);
    assert!(complete(manager, live, opened, now).is_empty());
    Ok(())
}

/// Goes through the rest of a creation; `live` loses the sessions beyond the
/// limit, which are returned.
fn complete(
    manager: &mut BoundedSessionManager,
    live: &mut Vec<String>,
    opened: OpenedSession,
    now: Instant,
) -> Vec<String> {
    let mut trimmed = Vec::new();
    let id = opened.id().clone();
    let (unused, mut session) = manager.register(opened, None);
    assert!(unused.is_none());
    loop {
        match manager.trim(session, live, now) {
            Trim::Done(created) => {
                assert_eq!(created, id);
                return trimmed;
            }
            Trim::Close(_, surplus) => {
                live.retain(|id| id != surplus.id());
                trimmed.push(surplus.id().clone());
                let (record, rest) = manager.finish_trim(surplus, Ok(()));
                if let Some(record) = record {
                    assert_eq!(record.reason, CloseReason::Evicted);
                }
                session = rest;
            }
        }
    }
}

fn finish(
    manager: &mut BoundedSessionManager,
    live: &mut Vec<String>,
    closing: ClosingSession,
) -> Option<mcp_session::CloseRecord> {
    live.retain(|id| id != closing.id());
    let (record, result) = manager.finish_close(closing, Ok(()));
    assert!(result.is_ok());
    record
}

#[test]
fn durations_and_instants() {
    assert_eq!(Duration::from_secs(2).nanos, 2_000_000_000);
    assert_eq!(
        Duration::from_secs(u64::MAX).nanos,
        u64::MAX as u128 * 1_000_000_000
    );
    assert_eq!(at(5).duration_since(at(3)), Duration::from_secs(2));
    assert_eq!(at(3).duration_since(at(5)), Duration::from_secs(0));
}

#[test]
fn standard_configuration() {
    let config = SessionConfig::default();
    assert_eq!(config.channel_capacity, 16);
    assert_eq!(config.keep_alive, Some(Duration::from_secs(300)));
    assert_eq!(config.sse_retry, Some(Duration::from_secs(3)));
    assert_eq!(config.completed_cache_ttl, Duration::from_secs(60));
    assert_eq!(config.init_timeout, Some(Duration::from_secs(60)));
}

#[test]
fn error_messages() {
    assert_eq!(
        BoundedSessionError::RateLimited.to_string(),
        "session creation rate limit exceeded"
    );
    let inner = BoundedSessionError::from(not_found());
    assert!(matches!(&inner, BoundedSessionError::Inner(_)));
    assert_eq!(inner.to_string(), "Session not found: lost");
}

#[test]
fn limiter_fills_and_slides() {
    let mut limiter = RateLimiter::new(2, Duration::from_secs(60));
    assert_eq!(limiter.reserve(at(0)).unwrap(), at(0));
    assert_eq!(limiter.reserve(at(10)).unwrap(), at(10));
    assert!(matches!(
        limiter.reserve(at(20)),
        Err(BoundedSessionError::RateLimited)
    ));
    // A slot that is exactly a window old still counts.
    assert!(limiter.reserve(at(60)).is_err());
    let just_after = Instant {
        nanos: at(60).nanos + 1,
    };
    assert!(limiter.reserve(just_after).is_ok());
    assert!(limiter.reserve(at(70)).is_err());
    assert!(limiter.reserve(at(71)).is_ok());
}

#[test]
fn limiter_rollback_returns_one_slot() {
    let mut limiter = RateLimiter::new(3, Duration::from_secs(60));
    limiter.reserve(at(1)).unwrap();
    limiter.reserve(at(1)).unwrap();
    limiter.reserve(at(2)).unwrap();
    assert!(limiter.reserve(at(3)).is_err());
    // Not the latest reservation, and one of two at the same instant.
    limiter.rollback(at(1));
    assert!(limiter.reserve(at(3)).is_ok());
    assert!(limiter.reserve(at(3)).is_err());
    // Nothing was reserved then.
    limiter.rollback(at(9));
    assert!(limiter.reserve(at(3)).is_err());
}

#[test]
fn no_window_holds_more_than_the_limit() {
    let window = Duration::from_secs(7);
    let mut limiter = RateLimiter::new(3, window);
    let mut granted: Vec<u128> = Vec::new();
    for step in 0..200u128 {
        let now = at(step * step % 5 + step * 2);
        if granted.last().is_some_and(|last| *last > now.nanos) {
            continue;
        }
        if limiter.reserve(now).is_ok() {
            granted.push(now.nanos);
        }
    }
    assert!(granted.len() > 50);
    for i in 3..granted.len() {
        assert!(granted[i] - granted[i - 3] > window.nanos);
    }
}

#[test]
fn oldest_session_makes_room() {
    let mut m = manager(2);
    let mut live = Vec::new();
    create(&mut m, &mut live, "a", at(1)).unwrap();
    create(&mut m, &mut live, "b", at(2)).unwrap();
    assert_eq!(live, vec!["a", "b"]);
    create(&mut m, &mut live, "c", at(3)).unwrap();
    assert_eq!(live, vec!["b", "c"]);
    create(&mut m, &mut live, "d", at(4)).unwrap();
    assert_eq!(live, vec!["c", "d"]);
    assert_eq!(m.active_session_count(), 2);
}

#[test]
fn limit_holds_through_a_long_run() {
    for max_sessions in 1..5usize {
        let mut m = manager(max_sessions);
        let mut live = Vec::new();
        for i in 0..60u32 {
            create(&mut m, &mut live, &format!("s{}", i), at(i as u128)).unwrap();
            assert!(live.len() <= max_sessions);
            assert_eq!(live.last(), Some(&format!("s{}", i)));
            if i % 3 == 0 {
                let id = live[0].clone();
                let (_, closing) = m.close_session(&id, at(i as u128));
                assert!(finish(&mut m, &mut live, closing).is_some());
            }
            if i % 7 == 0 && !live.is_empty() {
                // Lost: the manager is not told.
                live.pop();
            }
        }
    }
}

#[test]
fn lost_sessions_take_up_no_room() {
    let mut m = manager(2);
    let mut live = Vec::new();
    create(&mut m, &mut live, "a", at(1)).unwrap();
    create(&mut m, &mut live, "b", at(2)).unwrap();
    live.retain(|id| id != "a");
    create(&mut m, &mut live, "c", at(3)).unwrap();
    assert_eq!(live, vec!["b", "c"]);
    // The lost session has left the creation order: B is the oldest now.
    create(&mut m, &mut live, "d", at(4)).unwrap();
    assert_eq!(live, vec!["c", "d"]);
}

#[test]
fn limit_reached_without_known_sessions_evicts_nothing() {
    let mut m = manager(1);
    let admitted = m.begin_create(at(1)).unwrap();
    assert!(matches!(
        m.choose_eviction(admitted, 5),
        MakeRoom::Ready(_)
    ));
}

#[test]
fn rate_limited_creation_evicts_nothing() {
    let mut m = manager(1).with_rate_limit(1, Duration::from_secs(60));
    let mut live = Vec::new();
    create(&mut m, &mut live, "a", at(1)).unwrap();
    assert!(matches!(
        create(&mut m, &mut live, "b", at(2)),
        Err(BoundedSessionError::RateLimited)
    ));
    assert_eq!(live, vec!["a"]);
    assert_eq!(m.active_session_count(), 1);
    create(&mut m, &mut live, "c", at(62)).unwrap();
    assert_eq!(live, vec!["c"]);
}

#[test]
fn failed_creation_returns_its_slot() {
    let mut m = manager(5).with_rate_limit(1, Duration::from_secs(60));
    let mut live = Vec::new();
    let ready = make_room(&mut m, &mut live, at(1)).unwrap();
    let error = m.creation_failed(ready, not_found());
    assert!(matches!(error, BoundedSessionError::Inner(_)));
    create(&mut m, &mut live, "a", at(2)).unwrap();
    assert!(create(&mut m, &mut live, "b", at(3)).is_err());
}

#[test]
fn failed_creation_without_rate_limit() {
    let mut m = manager(1);
    let mut live = Vec::new();
    create(&mut m, &mut live, "a", at(1)).unwrap();
    let ready = make_room(&mut m, &mut live, at(2)).unwrap();
    let _ = m.creation_failed(ready, not_found());
    // The eviction stands.
    assert_eq!(m.active_session_count(), 0);
    assert!(live.is_empty());
}

#[test]
fn close_is_logged_once() {
    let mut m = manager(3);
    let mut live = Vec::new();
    create(&mut m, &mut live, "a", at(1)).unwrap();
    create(&mut m, &mut live, "b", at(1)).unwrap();

    let (timer, closing) = m.close_session(&"a".to_string(), at(4));
    assert!(timer.is_none());
    assert_eq!(closing.id(), "a");
    assert_eq!(m.active_session_count(), 1);
    let record = finish(&mut m, &mut live, closing).unwrap();
    assert_eq!(record.session_id, "a");
    assert_eq!(record.elapsed, Duration::from_secs(3));
    assert_eq!(record.reason, CloseReason::Closed);

    let (_, closing) = m.close_session(&"a".to_string(), at(5));
    assert!(finish(&mut m, &mut live, closing).is_none());

    let closing = m.lifetime_elapsed(&"b".to_string(), at(9));
    let record = finish(&mut m, &mut live, closing).unwrap();
    assert_eq!(record.elapsed, Duration::from_secs(8));
    assert_eq!(record.reason, CloseReason::MaxLifetime);
    assert_eq!(m.active_session_count(), 0);
}

#[test]
fn close_reports_the_inner_error() {
    let mut m = manager(3);
    let mut live = Vec::new();
    create(&mut m, &mut live, "a", at(1)).unwrap();
    let (_, closing) = m.close_session(&"a".to_string(), at(2));
    let (record, result) = m.finish_close(closing, Err(not_found()));
    assert!(record.is_some());
    assert!(matches!(result, Err(BoundedSessionError::Inner(_))));
}

/// Two creations that both count before either has evicted.
fn overlap(m: &mut BoundedSessionManager, live: &mut Vec<String>, ids: [&str; 2], now: Instant) {
    let first = m.begin_create(now).unwrap();
    let second = m.begin_create(now).unwrap();
    let first = m.choose_eviction(first, live.len());
    let second = m.choose_eviction(second, live.len());
    for (room, id) in [(first, ids[0]), (second, ids[1])] {
        let ready = match room {
            MakeRoom::Evict(evicting) => {
                let (_, victim) = m.begin_eviction(evicting, now);
                live.retain(|id| id != victim.id());
                let (_, ready) = m.finish_eviction(victim, Ok(()));
                ready
            }
            MakeRoom::Ready(ready) => ready,
        };
        live.push(id.to_string());
        let opened = m.creation_succeeded(ready, id.to_string(), live, now);
        complete(m, live, opened, now);
    }
}

#[test]
fn concurrent_creations_exceed_the_limit_only_in_flight() {
    let mut m = manager(1);
    let mut live = Vec::new();
    create(&mut m, &mut live, "a", at(1)).unwrap();
    // Both callers count before either has evicted: both choose A.
    let first = m.begin_create(at(2)).unwrap();
    let second = m.begin_create(at(2)).unwrap();
    let first = m.choose_eviction(first, live.len());
    let second = m.choose_eviction(second, live.len());
    let mut opened = Vec::new();
    for (room, id) in [(first, "b"), (second, "c")] {
        let evicting = match room {
            MakeRoom::Evict(evicting) => evicting,
            MakeRoom::Ready(_) => panic!("the limit is reached"),
        };
        let (_, victim) = m.begin_eviction(evicting, at(3));
        assert_eq!(victim.id(), "a");
        live.retain(|id| id != victim.id());
        let (_, ready) = m.finish_eviction(victim, Ok(()));
        live.push(id.to_string());
        opened.push(m.creation_succeeded(ready, id.to_string(), &live, at(3)));
    }
    assert_eq!(live, vec!["b", "c"]);
    assert_eq!(m.active_session_count(), 2);
    // The second to enter finds B beyond the limit.
    let last = opened.pop().unwrap();
    let first = opened.pop().unwrap();
    assert!(complete(&mut m, &mut live, first, at(4)).is_empty());
    assert_eq!(complete(&mut m, &mut live, last, at(4)), vec!["b"]);
    assert_eq!(live, vec!["c"]);
    assert_eq!(m.active_session_count(), 1);
    // One after the other again: C makes room.
    create(&mut m, &mut live, "d", at(5)).unwrap();
    assert_eq!(live, vec!["d"]);
}

#[test]
fn repeated_bursts_do_not_add_up() {
    for max_sessions in 1..4usize {
        let mut m = manager(max_sessions);
        let mut live = Vec::new();
        for burst in 0..6u32 {
            let ids = [format!("x{}", burst), format!("y{}", burst)];
            overlap(&mut m, &mut live, [&ids[0], &ids[1]], at(burst as u128));
            assert!(live.len() <= max_sessions);
            assert_eq!(m.active_session_count(), live.len());
        }
        assert_eq!(live.len(), max_sessions);
    }
}

/// Three creations that overlap under a limit of two; the last has entered and
/// has the oldest session, Q, to close.
fn third_of_three() -> (BoundedSessionManager, Vec<String>, OpenedSession) {
    let mut m = manager(2);
    let mut live = Vec::new();
    let q = make_room(&mut m, &mut live, at(1)).unwrap();
    let r = make_room(&mut m, &mut live, at(1)).unwrap();
    let s = make_room(&mut m, &mut live, at(1)).unwrap();
    for (ready, id) in [(q, "q"), (r, "r")] {
        live.push(id.to_string());
        let opened = m.creation_succeeded(ready, id.to_string(), &live, at(2));
        assert!(complete(&mut m, &mut live, opened, at(2)).is_empty());
    }
    live.push("s".to_string());
    let opened = m.creation_succeeded(s, "s".to_string(), &live, at(3));
    (m, live, opened)
}

#[test]
fn surplus_is_closed_while_the_limit_is_exceeded() {
    let (mut m, mut live, opened) = third_of_three();
    assert_eq!(complete(&mut m, &mut live, opened, at(4)), vec!["q"]);
    assert_eq!(live, vec!["r", "s"]);
    assert_eq!(m.active_session_count(), 2);
}

#[test]
fn surplus_is_spared_once_another_session_was_closed() {
    let (mut m, mut live, opened) = third_of_three();
    let (_, closing) = m.close_session(&"r".to_string(), at(4));
    assert!(finish(&mut m, &mut live, closing).is_some());
    assert!(complete(&mut m, &mut live, opened, at(5)).is_empty());
    assert_eq!(live, vec!["q", "s"]);
    assert_eq!(m.active_session_count(), 2);
}

#[test]
fn surplus_is_spared_once_another_session_has_ended() {
    let (mut m, mut live, opened) = third_of_three();
    // The close of R is not finished, but R has ended.
    let (_, closing) = m.close_session(&"r".to_string(), at(4));
    live.retain(|id| id != "r");
    assert!(complete(&mut m, &mut live, opened, at(5)).is_empty());
    assert_eq!(live, vec!["q", "s"]);
    assert!(finish(&mut m, &mut live, closing).is_some());
    assert_eq!(m.active_session_count(), 2);
    // Q is still the oldest.
    create(&mut m, &mut live, "t", at(6)).unwrap();
    assert_eq!(live, vec!["s", "t"]);
}

#[test]
fn session_evicted_before_it_is_registered_is_not_entered() {
    let mut m = manager(1);
    let mut live = Vec::new();
    let ready = make_room(&mut m, &mut live, at(1)).unwrap();
    live.push("a".to_string());
    let opened = m.creation_succeeded(ready, "a".to_string(), &live, at(1));
    create(&mut m, &mut live, "b", at(2)).unwrap();
    assert_eq!(live, vec!["b"]);
    assert!(complete(&mut m, &mut live, opened, at(3)).is_empty());
    assert_eq!(live, vec!["b"]);
    assert_eq!(m.active_session_count(), 1);
}

#[test]
fn failed_close_of_a_surplus_session_does_not_stop_the_creation() {
    let mut m = manager(1);
    let mut live = Vec::new();
    let first = make_room(&mut m, &mut live, at(1)).unwrap();
    let second = make_room(&mut m, &mut live, at(1)).unwrap();
    live = vec!["a".to_string(), "b".to_string()];
    let a = m.creation_succeeded(first, "a".to_string(), &live, at(1));
    let b = m.creation_succeeded(second, "b".to_string(), &live, at(2));
    complete(&mut m, &mut live, a, at(3));
    let (_, session) = m.register(b, None);
    let surplus = match m.trim(session, &live, at(4)) {
        Trim::Close(_, surplus) => surplus,
        Trim::Done(_) => panic!("A is beyond the limit"),
    };
    assert_eq!(surplus.id(), "a");
    let (record, session) = m.finish_trim(surplus, Err(not_found()));
    let record = record.unwrap();
    assert_eq!(record.session_id, "a");
    assert_eq!(record.elapsed, Duration::from_secs(3));
    assert_eq!(record.reason, CloseReason::Evicted);
    live.retain(|id| id != "a");
    assert!(matches!(m.trim(session, &live, at(5)), Trim::Done(id) if id == "b"));
    assert_eq!(m.active_session_count(), 1);
}

#[test]
fn interleaved_closes_log_the_reason_of_the_first() {
    let mut m = manager(1);
    let mut live = Vec::new();
    create(&mut m, &mut live, "a", at(1)).unwrap();
    // An eviction, the timer and a client close A, in this order.
    let admitted = m.begin_create(at(2)).unwrap();
    let evicting = match m.choose_eviction(admitted, 1) {
        MakeRoom::Evict(evicting) => evicting,
        MakeRoom::Ready(_) => panic!("the limit is reached"),
    };
    let (_, victim) = m.begin_eviction(evicting, at(3));
    assert_eq!(m.active_session_count(), 0);
    let timed_out = m.lifetime_elapsed(&"a".to_string(), at(3));
    let (_, closed) = m.close_session(&"a".to_string(), at(3));
    assert_eq!(m.active_session_count(), 0);
    // They finish in another.
    assert!(m.finish_close(closed, Ok(())).0.is_none());
    assert!(m.finish_close(timed_out, Err(not_found())).0.is_none());
    let (record, _ready) = m.finish_eviction(victim, Err(not_found()));
    assert_eq!(record.unwrap().reason, CloseReason::Evicted);
}

#[test]
fn reason_shows_only_in_the_record() {
    let mut records = Vec::new();
    for by_timer in [false, true] {
        let mut m = manager(2);
        let mut live = Vec::new();
        create(&mut m, &mut live, "a", at(1)).unwrap();
        create(&mut m, &mut live, "b", at(2)).unwrap();
        let closing = if by_timer {
            m.lifetime_elapsed(&"a".to_string(), at(9))
        } else {
            m.close_session(&"a".to_string(), at(9)).1
        };
        let record = finish(&mut m, &mut live, closing).unwrap();
        assert_eq!(m.active_session_count(), 1);
        assert_eq!(live, vec!["b"]);
        records.push(record);
    }
    assert_eq!(records[0].session_id, records[1].session_id);
    assert_eq!(records[0].elapsed, records[1].elapsed);
    assert_eq!(records[0].reason, CloseReason::Closed);
    assert_eq!(records[1].reason, CloseReason::MaxLifetime);
}

#[test]
fn limiter_after_a_rollback_answers_as_if_never_asked() {
    let mut taken = RateLimiter::new(3, Duration::from_secs(10));
    let mut never = RateLimiter::new(3, Duration::from_secs(10));
    taken.reserve(at(1)).unwrap();
    never.reserve(at(1)).unwrap();
    // The slot, and another at the same instant.
    taken.reserve(at(2)).unwrap();
    taken.reserve(at(2)).unwrap();
    never.reserve(at(2)).unwrap();
    // Refused while the slot is held.
    assert!(taken.reserve(at(3)).is_err());
    // The first slot expires in between.
    taken.reserve(at(12)).unwrap();
    never.reserve(at(12)).unwrap();
    taken.rollback(at(2));
    for now in [12, 12, 13, 14, 22, 23, 23, 24, 25] {
        assert_eq!(taken.reserve(at(now)).is_ok(), never.reserve(at(now)).is_ok());
    }
}

#[test]
fn overlapping_creations_share_the_rate_limit() {
    let mut m = manager(5).with_rate_limit(2, Duration::from_secs(60));
    let mut live = Vec::new();
    let first = make_room(&mut m, &mut live, at(1)).unwrap();
    let second = make_room(&mut m, &mut live, at(1)).unwrap();
    assert!(matches!(
        m.begin_create(at(2)),
        Err(BoundedSessionError::RateLimited)
    ));
    let _ = m.creation_failed(first, not_found());
    live.push("b".to_string());
    let opened = m.creation_succeeded(second, "b".to_string(), &live, at(3));
    assert!(complete(&mut m, &mut live, opened, at(3)).is_empty());
    create(&mut m, &mut live, "c", at(4)).unwrap();
    assert!(create(&mut m, &mut live, "d", at(5)).is_err());
    assert_eq!(live, vec!["b", "c"]);
}

#[test]
fn max_lifetime_is_kept() {
    let m = BoundedSessionManagerBuilder::new(10)
        .max_lifetime(Duration::from_secs(2))
        .build();
    assert_eq!(m.max_lifetime(), Some(Duration::from_secs(2)));
    assert_eq!(manager(1).max_lifetime(), None);
}

#[test]
fn builder_defaults() {
    let m = BoundedSessionManagerBuilder::new(10).build();
    assert_eq!(
        m.session_config().keep_alive,
        Some(Duration::from_secs(300))
    );
    assert_eq!(m.active_session_count(), 0);
}

#[test]
fn idle_timeout_sets_keep_alive() {
    let b = BoundedSessionManagerBuilder::new(10).idle_timeout(Duration::from_secs(1));
    assert!(!b.overrides_keep_alive());
    let config = b.build().session_config();
    assert_eq!(config.keep_alive, Some(Duration::from_secs(1)));
    assert_eq!(config.channel_capacity, 16);
}

#[test]
fn idle_timeout_overrides_a_supplied_keep_alive() {
    let mut cfg = SessionConfig::default();
    cfg.keep_alive = Some(Duration::from_secs(300));
    cfg.channel_capacity = 5;
    let b = BoundedSessionManagerBuilder::new(10)
        .idle_timeout(Duration::from_secs(1))
        .session_config(cfg);
    assert!(b.overrides_keep_alive());
    let config = b.build().session_config();
    assert_eq!(config.keep_alive, Some(Duration::from_secs(1)));
    assert_eq!(config.channel_capacity, 5);
}

#[test]
fn supplied_configuration_without_idle_timeout() {
    let mut cfg = SessionConfig::default();
    cfg.keep_alive = None;
    let b = BoundedSessionManagerBuilder::new(10).session_config(cfg);
    assert!(!b.overrides_keep_alive());
    assert_eq!(b.build().session_config().keep_alive, None);

    let b = BoundedSessionManagerBuilder::new(10)
        .session_config(cfg)
        .idle_timeout(Duration::from_secs(1));
    assert!(!b.overrides_keep_alive());
}

#[test]
fn max_lifetime_asks_for_a_timer() {
    let mut m = BoundedSessionManagerBuilder::new(10)
        .max_lifetime(Duration::from_secs(2))
        .build();
    let mut live = Vec::new();
    let ready = make_room(&mut m, &mut live, at(1)).unwrap();
    let opened = m.creation_succeeded(ready, "a".to_string(), &live, at(1));
    assert_eq!(opened.lifetime(), Some(Duration::from_secs(2)));

    let mut m = manager(10);
    let ready = make_room(&mut m, &mut live, at(1)).unwrap();
    let opened = m.creation_succeeded(ready, "a".to_string(), &live, at(1));
    assert_eq!(opened.lifetime(), None);
}
