//! The manager at work with rmcp's own session manager and tokio's timers.

use std::future::Future;
use std::sync::atomic::{AtomicBool, Ordering};
use std::sync::{Arc, Weak};

use mcp_session::{
    BoundedSessionError, BoundedSessionManager, BoundedSessionManagerBuilder, CloseReason,
    CloseRecord, ClosingSession, Duration, Instant, MakeRoom, SessionConfig, Trim,
};
use rmcp::model::{
    ClientJsonRpcMessage, ClientRequest, InitializeRequest, NumberOrString, ServerJsonRpcMessage,
    ServerResult,
};
use rmcp::transport::streamable_http_server::session::local::{
    LocalSessionManager, LocalSessionWorker,
};
use rmcp::transport::streamable_http_server::session::{SessionId, SessionManager};
use rmcp::transport::{Transport, WorkerTransport};
use tokio::sync::Mutex;

fn std_duration(d: Duration) -> std::time::Duration {
    std::time::Duration::from_nanos(d.nanos as u64)
}

/// Does what the manager decides.
struct Host {
    inner: LocalSessionManager,
    state: Mutex<BoundedSessionManager>,
    origin: std::time::Instant,
    me: Weak<Host>,
    transports: Mutex<Vec<WorkerTransport<LocalSessionWorker>>>,
    records: Mutex<Vec<CloseRecord>>,
    /// Whether creations pause before they register their timer.
    slow: AtomicBool,
}

impl Host {
    fn new(manager: BoundedSessionManager) -> Arc<Host> {
        let settings = manager.session_config();
        let mut inner = LocalSessionManager::default();
        let config = &mut inner.session_config;
        config.channel_capacity = settings.channel_capacity;
        config.keep_alive = settings.keep_alive.map(std_duration);
        config.sse_retry = settings.sse_retry.map(std_duration);
        config.completed_cache_ttl = std_duration(settings.completed_cache_ttl);
        config.init_timeout = settings.init_timeout.map(std_duration);
        Arc::new_cyclic(|me| Host {
            inner,
            state: Mutex::new(manager),
            origin: std::time::Instant::now(),
            me: me.clone(),
            transports: Mutex::new(Vec::new()),
            records: Mutex::new(Vec::new()),
            slow: AtomicBool::new(false),
        })
    }

    fn now(&self) -> Instant {
        Instant {
            nanos: self.origin.elapsed().as_nanos(),
        }
    }

    async fn log(&self, record: Option<CloseRecord>) {
        if let Some(record) = record {
            self.records.lock().await.push(record);
        }
    }

    async fn live(&self) -> Vec<String> {
        let sessions = self.inner.sessions.read().await;
        sessions.keys().map(|id| id.to_string()).collect()
    }

    async fn finish(&self, closing: ClosingSession) -> Result<(), BoundedSessionError> {
        let id: SessionId = closing.id().as_str().into();
        let outcome = self.inner.close_session(&id).await;
        let (record, result) = self.state.lock().await.finish_close(closing, outcome);
        self.log(record).await;
        result
    }

    async fn create(&self) -> Result<SessionId, BoundedSessionError> {
        let admitted = self.state.lock().await.begin_create(self.now())?;
        let live_count = self.inner.sessions.read().await.len();
        let room = self.state.lock().await.choose_eviction(admitted, live_count);
        let ready = match room {
            MakeRoom::Ready(ready) => ready,
            MakeRoom::Evict(evicting) => {
                let (timer, victim) = self.state.lock().await.begin_eviction(evicting, self.now());
                if let Some(handle) = timer {
                    handle.abort();
                }
                let id: SessionId = victim.id().as_str().into();
                let outcome = self.inner.close_session(&id).await;
                let (record, ready) = self.state.lock().await.finish_eviction(victim, outcome);
                self.log(record).await;
                ready
            }
        };
        let (id, transport) = match self.inner.create_session().await {
            Ok(session) => session,
            Err(error) => return Err(self.state.lock().await.creation_failed(ready, error)),
        };
        self.transports.lock().await.push(transport);
        let opened = {
            let mut state = self.state.lock().await;
            let live = self.live().await;
            state.creation_succeeded(ready, id.to_string(), &live, self.now())
        };
        let timer = opened.lifetime().map(|lifetime| {
            let me = self.me.clone();
            let timed = opened.id().clone();
            let after = std_duration(lifetime);
            tokio::spawn(async move {
                tokio::time::sleep(after).await;
                tokio::spawn(async move {
                    if let Some(host) = me.upgrade() {
                        let closing = host.state.lock().await.lifetime_elapsed(&timed, host.now());
                        let _ = host.finish(closing).await;
                    }
                });
            })
            .abort_handle()
        });
        if self.slow.load(Ordering::SeqCst) {
            tokio::time::sleep(std::time::Duration::from_millis(50)).await;
        }
        let (unused, mut session) = self.state.lock().await.register(opened, timer);
        if let Some(handle) = unused {
            handle.abort();
        }
        loop {
            let next = {
                let mut state = self.state.lock().await;
                let live = self.live().await;
                state.trim(session, &live, self.now())
            };
            match next {
                Trim::Done(created) => {
                    assert_eq!(created.as_str(), &*id);
                    return Ok(id);
                }
                Trim::Close(timer, surplus) => {
                    if let Some(handle) = timer {
                        handle.abort();
                    }
                    let oldest: SessionId = surplus.id().as_str().into();
                    let outcome = self.inner.close_session(&oldest).await;
                    let (record, rest) = self.state.lock().await.finish_trim(surplus, outcome);
                    self.log(record).await;
                    session = rest;
                }
            }
        }
    }

    async fn close(&self, id: &SessionId) -> Result<(), BoundedSessionError> {
        let (timer, closing) = self
            .state
            .lock()
            .await
            .close_session(&id.to_string(), self.now());
        if let Some(handle) = timer {
            handle.abort();
        }
        self.finish(closing).await
    }

    async fn has(&self, id: &SessionId) -> bool {
        self.inner.has_session(id).await.unwrap()
    }

    async fn active(&self) -> usize {
        self.state.lock().await.active_session_count()
    }

    /// The sessions closed so far, with the reasons.
    async fn closed(&self) -> Vec<(String, CloseReason)> {
        let records = self.records.lock().await;
        records
            .iter()
            .map(|r| (r.session_id.clone(), r.reason))
            .collect()
    }
}

fn run<F: Future<Output = ()>>(test: F) {
    let runtime = tokio::runtime::Builder::new_current_thread()
        .enable_time()
        .build()
        .unwrap();
    runtime.block_on(test);
}

async fn sleep_secs(secs: u64) {
    tokio::time::sleep(std::time::Duration::from_secs(secs)).await;
}

fn builder(max_sessions: usize) -> BoundedSessionManagerBuilder {
    BoundedSessionManagerBuilder::new(max_sessions)
}

#[test]
fn t01_max_lifetime_closes_session() {
    run(async {
        let host = Host::new(
            builder(10)
                .idle_timeout(Duration::from_secs(300))
                .max_lifetime(Duration::from_secs(2))
                .build(),
        );
        let id = host.create().await.unwrap();
        assert!(host.has(&id).await, "session should be alive");
        sleep_secs(4).await;
        assert!(!host.has(&id).await, "session should be closed by max lifetime");
        assert_eq!(
            host.closed().await,
            vec![(id.to_string(), CloseReason::MaxLifetime)]
        );
    });
}

#[test]
fn t02_early_close_cancels_max_lifetime() {
    run(async {
        let host = Host::new(
            builder(10)
                .idle_timeout(Duration::from_secs(300))
                .max_lifetime(Duration::from_secs(2))
                .build(),
        );
        let id = host.create().await.unwrap();
        assert!(host.close(&id).await.is_ok(), "close should succeed");
        sleep_secs(4).await;
        assert_eq!(host.active().await, 0);
        assert_eq!(
            host.closed().await,
            vec![(id.to_string(), CloseReason::Closed)]
        );
    });
}

#[test]
fn t03_eviction_with_max_lifetime() {
    run(async {
        let host = Host::new(
            builder(1)
                .idle_timeout(Duration::from_secs(300))
                .max_lifetime(Duration::from_secs(3))
                .build(),
        );
        let a = host.create().await.unwrap();
        let b = host.create().await.unwrap();
        assert!(!host.has(&a).await, "A should be evicted");
        sleep_secs(5).await;
        assert_eq!(host.active().await, 0);
        assert_eq!(
            host.closed().await,
            vec![
                (a.to_string(), CloseReason::Evicted),
                (b.to_string(), CloseReason::MaxLifetime),
            ]
        );
    });
}

#[test]
fn close_records_carry_reason_and_duration() {
    run(async {
        let host = Host::new(builder(10).idle_timeout(Duration::from_secs(300)).build());
        let id = host.create().await.unwrap();
        tokio::time::sleep(std::time::Duration::from_millis(100)).await;
        host.close(&id).await.unwrap();
        {
            let records = host.records.lock().await;
            assert_eq!(records.len(), 1);
            assert_eq!(records[0].session_id, id.to_string());
            assert_eq!(records[0].reason, CloseReason::Closed);
            assert!(records[0].elapsed.nanos >= 100_000_000);
            assert!(records[0].elapsed.nanos < 10_000_000_000);
        }
        // A second close finds nothing to log.
        host.close(&id).await.unwrap();
        assert_eq!(host.records.lock().await.len(), 1);
    });
}

/// Closes a session that was initialized and then idle for three seconds.
async fn close_after_three_idle_seconds(idle_timeout: Duration) -> Result<(), BoundedSessionError> {
    let host = Host::new(builder(10).idle_timeout(idle_timeout).build());
    let id = host.create().await.unwrap();
    let request = ClientJsonRpcMessage::request(
        ClientRequest::InitializeRequest(InitializeRequest::new(Default::default())),
        NumberOrString::Number(1),
    );
    let client = {
        let host = host.clone();
        let id = id.clone();
        tokio::spawn(async move { host.inner.initialize_session(&id, request).await })
    };
    {
        let mut transports = host.transports.lock().await;
        let asked = transports[0].receive().await.unwrap();
        assert!(matches!(asked, ClientJsonRpcMessage::Request(_)));
        let reply = ServerJsonRpcMessage::response(
            ServerResult::EmptyResult(().into()),
            NumberOrString::Number(1),
        );
        transports[0].send(reply).await.unwrap();
    }
    assert!(client.await.unwrap().is_ok());
    sleep_secs(3).await;
    host.close(&id).await
}

#[test]
fn idle_timeout_reaches_the_sessions() {
    run(async {
        // The worker of the idle session has ended, so that closing the session fails.
        assert!(matches!(
            close_after_three_idle_seconds(Duration::from_secs(1)).await,
            Err(BoundedSessionError::Inner(_))
        ));
        assert!(close_after_three_idle_seconds(Duration::from_secs(300))
            .await
            .is_ok());
    });
}

#[test]
fn t06_backward_compat_new_api() {
    run(async {
        let mut cfg = SessionConfig::default();
        cfg.keep_alive = Some(Duration::from_secs(300));
        let host = Host::new(BoundedSessionManager::new(cfg, 10));
        let id = host.create().await.unwrap();
        assert!(host.has(&id).await, "session should be active");
    });
}

#[test]
fn t07_builder_rate_limit_only() {
    run(async {
        let host = Host::new(builder(10).rate_limit(2, Duration::from_secs(60)).build());
        assert!(host.create().await.is_ok(), "first session should succeed");
        assert!(host.create().await.is_ok(), "second session should succeed");
        assert!(
            matches!(host.create().await, Err(BoundedSessionError::RateLimited)),
            "third session should be rate limited"
        );
        assert_eq!(host.active().await, 2);
    });
}

#[test]
fn t08_multiple_sessions_max_lifetime() {
    run(async {
        let host = Host::new(
            builder(10)
                .idle_timeout(Duration::from_secs(300))
                .max_lifetime(Duration::from_secs(2))
                .build(),
        );
        let mut ids = Vec::new();
        for _ in 0..5 {
            ids.push(host.create().await.unwrap());
        }
        assert_eq!(host.active().await, 5);
        sleep_secs(4).await;
        assert_eq!(host.active().await, 0);
        for id in &ids {
            assert!(!host.has(id).await);
        }
    });
}

#[test]
fn i01_lifecycle_map_matches_live_sessions() {
    run(async {
        let host = Host::new(builder(10).idle_timeout(Duration::from_secs(300)).build());
        let mut ids = Vec::new();
        for _ in 0..5 {
            ids.push(host.create().await.unwrap());
        }
        assert_eq!(host.active().await, 5);
        for id in &ids[..2] {
            assert!(host.close(id).await.is_ok());
        }
        assert_eq!(host.active().await, 3);
        for id in &ids[2..] {
            assert!(host.close(id).await.is_ok());
        }
        assert_eq!(host.active().await, 0);
    });
}

#[test]
fn i02_no_leaked_abort_handles() {
    run(async {
        let host = Host::new(
            builder(10)
                .idle_timeout(Duration::from_secs(300))
                .max_lifetime(Duration::from_secs(60))
                .build(),
        );
        let mut ids = Vec::new();
        for _ in 0..3 {
            ids.push(host.create().await.unwrap());
        }
        for id in &ids {
            assert!(host.close(id).await.is_ok());
        }
        assert_eq!(host.active().await, 0);
        sleep_secs(2).await;
        assert_eq!(host.active().await, 0);
        // The aborted timers have let go of the host.
        assert_eq!(Arc::weak_count(&host), 1);
    });
}

#[test]
fn i03_eviction_and_timeout_no_corruption() {
    run(async {
        let host = Host::new(
            builder(2)
                .idle_timeout(Duration::from_secs(300))
                .max_lifetime(Duration::from_secs(3))
                .build(),
        );
        let a = host.create().await.unwrap();
        let b = host.create().await.unwrap();
        // C evicts A, D evicts B.
        let c = host.create().await.unwrap();
        let d = host.create().await.unwrap();
        assert!(!host.has(&a).await, "A should be evicted");
        assert!(!host.has(&b).await);
        assert_eq!(host.active().await, 2);
        assert_eq!(host.inner.sessions.read().await.len(), 2);
        sleep_secs(5).await;
        assert_eq!(host.active().await, 0);
        assert!(!host.has(&c).await, "C should be expired");
        assert!(!host.has(&d).await, "D should be expired");
    });
}

#[test]
fn timer_handed_out_at_close_is_the_registered_one() {
    run(async {
        let mut manager = builder(10).max_lifetime(Duration::from_secs(60)).build();
        let now = Instant { nanos: 1 };
        let admitted = manager.begin_create(now).unwrap();
        let ready = match manager.choose_eviction(admitted, 0) {
            MakeRoom::Ready(ready) => ready,
            MakeRoom::Evict(_) => panic!("there is room"),
        };
        let live = vec!["a".to_string()];
        let opened = manager.creation_succeeded(ready, "a".to_string(), &live, now);
        assert_eq!(opened.lifetime(), Some(Duration::from_secs(60)));
        let task = tokio::spawn(std::future::pending::<()>());
        let handle = task.abort_handle();
        let (unused, _session) = manager.register(opened, Some(handle.clone()));
        assert!(unused.is_none());

        let (timer, _closing) = manager.close_session(&"a".to_string(), now);
        let timer = timer.unwrap();
        assert_eq!(timer.id(), handle.id());
        timer.abort();
        assert!(task.await.unwrap_err().is_cancelled());

        let (timer, _closing) = manager.close_session(&"a".to_string(), now);
        assert!(timer.is_none());
    });
}

#[test]
fn timer_of_a_session_closed_before_it_is_registered_is_handed_back() {
    run(async {
        let mut manager = builder(10).max_lifetime(Duration::from_secs(60)).build();
        let now = Instant { nanos: 1 };
        let admitted = manager.begin_create(now).unwrap();
        let ready = match manager.choose_eviction(admitted, 0) {
            MakeRoom::Ready(ready) => ready,
            MakeRoom::Evict(_) => panic!("there is room"),
        };
        let live = vec!["a".to_string()];
        let opened = manager.creation_succeeded(ready, "a".to_string(), &live, now);
        assert_eq!(manager.active_session_count(), 1);
        let (timer, closing) = manager.close_session(&"a".to_string(), now);
        assert!(timer.is_none());

        let task = tokio::spawn(std::future::pending::<()>());
        let handle = task.abort_handle();
        let (unused, _session) = manager.register(opened, Some(handle.clone()));
        let unused = unused.unwrap();
        assert_eq!(unused.id(), handle.id());
        unused.abort();
        assert!(task.await.unwrap_err().is_cancelled());
        assert_eq!(manager.active_session_count(), 0);

        let (record, result) = manager.finish_close(closing, Ok(()));
        assert_eq!(record.unwrap().reason, CloseReason::Closed);
        assert!(result.is_ok());
        assert_eq!(manager.active_session_count(), 0);
    });
}

#[test]
fn lifetime_that_runs_out_before_the_timer_is_registered() {
    run(async {
        let host = Host::new(
            builder(10)
                .max_lifetime(Duration { nanos: 1_000_000 })
                .build(),
        );
        host.slow.store(true, Ordering::SeqCst);
        let id = host.create().await.unwrap();
        tokio::time::sleep(std::time::Duration::from_millis(100)).await;
        assert!(!host.has(&id).await);
        assert_eq!(host.active().await, 0);
        assert_eq!(
            host.closed().await,
            vec![(id.to_string(), CloseReason::MaxLifetime)]
        );
    });
}

#[test]
fn bursts_of_creations_stay_within_the_limit() {
    run(async {
        let host = Host::new(builder(2).max_lifetime(Duration::from_secs(60)).build());
        host.slow.store(true, Ordering::SeqCst);
        let mut created = Vec::new();
        for _ in 0..4 {
            let mut calls = Vec::new();
            for _ in 0..5 {
                let caller = host.clone();
                calls.push(tokio::spawn(async move { caller.create().await.unwrap() }));
            }
            for call in calls {
                created.push(call.await.unwrap());
            }
            let live = host.inner.sessions.read().await.len();
            assert!(live <= 2, "{} sessions live", live);
            assert_eq!(host.active().await, live);
        }
        // Every other session was closed, and logged once.
        let closed = host.closed().await;
        let mut ids: Vec<String> = closed.iter().map(|(id, _)| id.clone()).collect();
        ids.sort();
        ids.dedup();
        assert_eq!(ids.len(), closed.len());
        assert_eq!(closed.len() + host.active().await, created.len());
        assert!(closed.iter().all(|(_, r)| *r == CloseReason::Evicted));
    });
}

#[test]
fn eviction_goes_on_when_the_close_fails() {
    run(async {
        let host = Host::new(BoundedSessionManager::new(SessionConfig::default(), 1));
        let a = host.create().await.unwrap();
        // Without its transport the worker of A ends, and closing A fails.
        host.transports.lock().await.clear();
        tokio::time::sleep(std::time::Duration::from_millis(100)).await;
        let b = host.create().await.unwrap();
        assert!(!host.has(&a).await);
        assert!(host.has(&b).await);
        assert_eq!(host.active().await, 1);
    });
}

#[test]
fn close_passes_the_inner_error_on() {
    run(async {
        let host = Host::new(BoundedSessionManager::new(SessionConfig::default(), 1));
        let a = host.create().await.unwrap();
        host.transports.lock().await.clear();
        tokio::time::sleep(std::time::Duration::from_millis(100)).await;
        assert!(matches!(
            host.close(&a).await,
            Err(BoundedSessionError::Inner(_))
        ));
        assert_eq!(host.active().await, 0);
    });
}
