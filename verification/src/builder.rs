use vstd::prelude::*;

use crate::clock::Duration;
use crate::config::SessionConfig;
use crate::manager::{BoundedSessionManager, ManagerView};
use crate::rate_limit::RateLimiterView;

verus! {

/// What a builder was told so far.
pub struct BuilderView {
    pub max_sessions: nat,
    pub idle_timeout: Option<Duration>,
    pub max_lifetime: Option<Duration>,
    pub session_config: Option<SessionConfig>,
    pub rate_limit: Option<(nat, Duration)>,
}

impl BuilderView {
    /// The settings that sessions are opened with: those supplied, or else the
    /// standard ones, with the idle timeout in place of their `keep_alive`
    /// where one was set.
    pub open spec fn effective_config(self) -> SessionConfig {
        let base = match self.session_config {
            Some(config) => config,
            None => SessionConfig::standard(),
        };
        match self.idle_timeout {
            Some(idle) => base.with_keep_alive(idle),
            None => base,
        }
    }
}

/// An idle timeout takes precedence over the `keep_alive` of a supplied
/// configuration, whichever of the two was given first, and leaves its other
/// settings alone.
pub proof fn idle_timeout_takes_precedence(
    builder: BuilderView,
    idle: Duration,
    config: SessionConfig,
)
    ensures
        ({
            let timeout_first = BuilderView {
                session_config: Some(config),
                ..(BuilderView { idle_timeout: Some(idle), ..builder })
            };
            let config_first = BuilderView {
                idle_timeout: Some(idle),
                ..(BuilderView { session_config: Some(config), ..builder })
            };
            &&& timeout_first.effective_config() == config_first.effective_config()
            &&& config_first.effective_config() == (SessionConfig {
                keep_alive: Some(idle),
                ..config
            })
        }),
{
}

/// Settings that were supplied are used as they are where no idle timeout was
/// set, whatever else the builder was told.
pub proof fn supplied_settings_are_used(builder: BuilderView, config: SessionConfig)
    requires
        builder.session_config == Some(config),
        builder.idle_timeout is None,
    ensures
        ({
            let used = builder.effective_config();
            &&& used.channel_capacity == config.channel_capacity
            &&& used.keep_alive == config.keep_alive
            &&& used.sse_retry == config.sse_retry
            &&& used.completed_cache_ttl == config.completed_cache_ttl
            &&& used.init_timeout == config.init_timeout
        }),
{
}

/// Where no settings were supplied the standard ones are used, but for an idle
/// timeout that was set.
pub proof fn standard_settings_are_used_otherwise(builder: BuilderView)
    requires
        builder.session_config is None,
    ensures
        ({
            let used = builder.effective_config();
            &&& used.channel_capacity == 16
            &&& used.keep_alive == (match builder.idle_timeout {
                Some(idle) => Some(idle),
                None => Some(Duration { nanos: 300_000_000_000 }),
            })
            &&& used.sse_retry == Some(Duration { nanos: 3_000_000_000 })
            &&& used.completed_cache_ttl == (Duration { nanos: 60_000_000_000 })
            &&& used.init_timeout == Some(Duration { nanos: 60_000_000_000 })
        }),
{
}

/// The idle timeout decides on `keep_alive` alone: two builders that were given
/// the same settings, or none, agree on all others, whatever their idle timeouts
/// and limits are.
pub proof fn idle_timeout_decides_on_keep_alive_alone(one: BuilderView, two: BuilderView)
    requires
        one.session_config == two.session_config,
    ensures
        ({
            let first = one.effective_config();
            let second = two.effective_config();
            &&& first.channel_capacity == second.channel_capacity
            &&& first.sse_retry == second.sse_retry
            &&& first.completed_cache_ttl == second.completed_cache_ttl
            &&& first.init_timeout == second.init_timeout
            &&& one.idle_timeout == two.idle_timeout ==> first.keep_alive == second.keep_alive
            &&& one.idle_timeout is Some ==> first.keep_alive == one.idle_timeout
        }),
{
}

/// Fluent builder for [`BoundedSessionManager`].
///
/// Prefer it over [`BoundedSessionManager::new`] to limit the lifetime of
/// sessions, or to set the idle timeout without a [`SessionConfig`].
pub struct BoundedSessionManagerBuilder {
    max_sessions: usize,
    idle_timeout: Option<Duration>,
    max_lifetime: Option<Duration>,
    session_config: Option<SessionConfig>,
    rate_limit: Option<(usize, Duration)>,
}

impl View for BoundedSessionManagerBuilder {
    type V = BuilderView;

    closed spec fn view(&self) -> BuilderView {
        BuilderView {
            max_sessions: self.max_sessions as nat,
            idle_timeout: self.idle_timeout,
            max_lifetime: self.max_lifetime,
            session_config: self.session_config,
            rate_limit: match self.rate_limit {
                Some((max_creates, window)) => Some((max_creates as nat, window)),
                None => None,
            },
        }
    }
}

impl BoundedSessionManagerBuilder {
    /// At least one session may live, and at least one be created in a window.
    pub open spec fn wf(&self) -> bool {
        &&& 1 <= self@.max_sessions <= usize::MAX
        &&& self@.rate_limit matches Some(limit) ==> 1 <= limit.0 <= usize::MAX
    }

    /// Creates a builder of a manager that lets at most `max_sessions` sessions
    /// live at once.
    pub fn new(max_sessions: usize) -> (builder: BoundedSessionManagerBuilder)
        requires
            max_sessions >= 1,
        ensures
            builder.wf(),
            builder@ == (BuilderView {
                max_sessions: max_sessions as nat,
                idle_timeout: None,
                max_lifetime: None,
                session_config: None,
                rate_limit: None,
            }),
    {
        BoundedSessionManagerBuilder {
            max_sessions,
            idle_timeout: None,
            max_lifetime: None,
            session_config: None,
            rate_limit: None,
        }
    }

    /// Sets the idle timeout. It takes precedence over the `keep_alive` of a
    /// supplied [`SessionConfig`].
    #[must_use]
    pub fn idle_timeout(self, duration: Duration) -> (builder: BoundedSessionManagerBuilder)
        requires
            self.wf(),
        ensures
            builder.wf(),
            builder@ == (BuilderView { idle_timeout: Some(duration), ..self@ }),
    {
        BoundedSessionManagerBuilder { idle_timeout: Some(duration), ..self }
    }

    /// Sets a hard maximum lifetime: sessions are closed after this duration
    /// regardless of activity.
    #[must_use]
    pub fn max_lifetime(self, duration: Duration) -> (builder: BoundedSessionManagerBuilder)
        requires
            self.wf(),
        ensures
            builder.wf(),
            builder@ == (BuilderView { max_lifetime: Some(duration), ..self@ }),
    {
        BoundedSessionManagerBuilder { max_lifetime: Some(duration), ..self }
    }

    /// Supplies the settings that sessions are opened with.
    #[must_use]
    pub fn session_config(self, config: SessionConfig) -> (builder: BoundedSessionManagerBuilder)
        requires
            self.wf(),
        ensures
            builder.wf(),
            builder@ == (BuilderView { session_config: Some(config), ..self@ }),
    {
        BoundedSessionManagerBuilder { session_config: Some(config), ..self }
    }

    /// Limits the rate of creation: at most `max_creates` sessions in any
    /// rolling `window`.
    #[must_use]
    pub fn rate_limit(self, max_creates: usize, window: Duration) -> (builder:
        BoundedSessionManagerBuilder)
        requires
            self.wf(),
            max_creates >= 1,
        ensures
            builder.wf(),
            builder@ == (BuilderView { rate_limit: Some((max_creates as nat, window)), ..self@ }),
    {
        BoundedSessionManagerBuilder { rate_limit: Some((max_creates, window)), ..self }
    }

    /// Whether the idle timeout takes the place of a `keep_alive` that was set in
    /// a supplied [`SessionConfig`], which is worth a warning.
    pub fn overrides_keep_alive(&self) -> (overrides: bool)
        ensures
            overrides <==> self@.idle_timeout is Some && (self@.session_config matches Some(config)
                && config.keep_alive is Some),
    {
        match (&self.idle_timeout, &self.session_config) {
            (Some(_), Some(config)) => config.keep_alive.is_some(),
            _ => false,
        }
    }

    /// Builds the [`BoundedSessionManager`].
    pub fn build(self) -> (manager: BoundedSessionManager)
        requires
            self.wf(),
        ensures
            manager.wf(),
            manager@ == ManagerView::fresh(
                self@.effective_config(),
                self@.max_sessions,
                (match self@.rate_limit {
                    Some((max_creates, window)) => Some(RateLimiterView::fresh(max_creates, window)),
                    None => None,
                }),
                self@.max_lifetime,
            ),
            manager@.config == self@.effective_config(),
            manager@.max_sessions == self@.max_sessions,
            manager@.max_lifetime == self@.max_lifetime,
            match (self@.rate_limit, manager@.limiter) {
                (Some((max_creates, window)), Some(limiter)) => {
                    &&& limiter.max_creates == max_creates
                    &&& limiter.window == window
                    &&& limiter.tracker.len() == 0
                },
                (None, None) => true,
                _ => false,
            },
    {
        let mut session_config = match self.session_config {
            Some(config) => config,
            None => SessionConfig::default(),
        };
        if let Some(idle) = self.idle_timeout {
            session_config.keep_alive = Some(idle);
        }
        BoundedSessionManager::with_limits(
            session_config,
            self.max_sessions,
            self.rate_limit,
            self.max_lifetime,
        )
    }
}

} // verus!
