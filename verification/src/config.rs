use vstd::prelude::*;

use crate::clock::{Duration, NANOS_PER_SEC};

verus! {

/// The settings that each session is opened with.
#[derive(Debug, Clone, Copy)]
pub struct SessionConfig {
    /// Capacity of the channel between the transport and the session.
    pub channel_capacity: usize,
    /// How long a session may stay idle before it is closed; `None` for no limit.
    pub keep_alive: Option<Duration>,
    /// Retry interval announced at the head of each event stream, where one is announced.
    pub sse_retry: Option<Duration>,
    /// How long the events of a completed request stay available to a client that resumes.
    pub completed_cache_ttl: Duration,
    /// How long a new session may wait for its `initialize` request; `None` for no limit.
    pub init_timeout: Option<Duration>,
}

impl SessionConfig {
    /// The settings of a session for which nothing was configured.
    pub open spec fn standard() -> SessionConfig {
        SessionConfig {
            channel_capacity: 16,
            keep_alive: Some(Duration { nanos: (300 * NANOS_PER_SEC) as u128 }),
            sse_retry: Some(Duration { nanos: (3 * NANOS_PER_SEC) as u128 }),
            completed_cache_ttl: Duration { nanos: (60 * NANOS_PER_SEC) as u128 },
            init_timeout: Some(Duration { nanos: (60 * NANOS_PER_SEC) as u128 }),
        }
    }

    /// These settings with the idle limit set to `idle`.
    pub open spec fn with_keep_alive(self, idle: Duration) -> SessionConfig {
        SessionConfig { keep_alive: Some(idle), ..self }
    }
}

/// Calls `SessionConfig::default` of rmcp and copies its fields. The claim is
/// that rmcp's defaults are a channel capacity of 16, an idle limit of 300
/// seconds, a retry interval of 3 seconds, and 60 seconds both for completed
/// requests and for the wait for `initialize`.
#[verifier::external_body]
fn rmcp_default_config() -> (config: SessionConfig)
    ensures
        config == SessionConfig::standard(),
{
    let c = rmcp::transport::streamable_http_server::session::local::SessionConfig::default();
    SessionConfig {
        channel_capacity: c.channel_capacity,
        keep_alive: c.keep_alive.map(|d| Duration { nanos: d.as_nanos() }),
        sse_retry: c.sse_retry.map(|d| Duration { nanos: d.as_nanos() }),
        completed_cache_ttl: Duration { nanos: c.completed_cache_ttl.as_nanos() },
        init_timeout: c.init_timeout.map(|d| Duration { nanos: d.as_nanos() }),
    }
}

impl Default for SessionConfig {
    fn default() -> (config: SessionConfig)
        ensures
            config == SessionConfig::standard(),
    {
        rmcp_default_config()
    }
}

/// The settings that apply where none are given, one by one.
pub proof fn standard_settings()
    ensures
        ({
            let c = SessionConfig::standard();
            &&& c.channel_capacity == 16
            &&& c.keep_alive matches Some(d) && d.nanos == 300_000_000_000
            &&& c.sse_retry matches Some(d) && d.nanos == 3_000_000_000
            &&& c.completed_cache_ttl.nanos == 60_000_000_000
            &&& c.init_timeout matches Some(d) && d.nanos == 60_000_000_000
        }),
{
}

} // verus!
