//! Bounded session management for MCP servers.
//!
//! [`BoundedSessionManager`] decides which sessions may be created and which
//! have to go, so that a server keeps to:
//!
//! - a maximum number of concurrent sessions, with eviction of the oldest when
//!   the limit is reached;
//! - an optional rate limit on session creation, over a sliding window;
//! - an idle timeout, which is handed on in the [`SessionConfig`];
//! - an optional maximum lifetime, regardless of activity.
//!
//! The manager does no work itself. Whoever runs the sessions calls it step by
//! step, does what a step returns, and tells the next step how that went. Time
//! comes in as [`Instant`]s of one monotonic clock.
//!
//! ```
//! use mcp_session::{BoundedSessionManagerBuilder, Duration};
//!
//! let manager = BoundedSessionManagerBuilder::new(100)
//!     .idle_timeout(Duration::from_secs(4 * 60 * 60))
//!     .max_lifetime(Duration::from_secs(24 * 60 * 60))
//!     .rate_limit(10, Duration::from_secs(60))
//!     .build();
//! ```
//!
//! What each step does is put into plain terms in [`step_laws`]. What holds of
//! all of them together is proved in [`rate_laws`], [`session_laws`],
//! [`contention`] and [`run_laws`].

pub mod builder;
pub mod clock;
pub mod config;
pub mod contention;
pub mod error;
pub mod lifecycle;
pub mod manager;
pub mod order;
pub mod rate_laws;
pub mod rate_limit;
pub mod reason;
pub mod run_laws;
pub mod session_laws;
pub mod step_laws;

pub use builder::BoundedSessionManagerBuilder;
pub use clock::{Duration, Instant};
pub use config::SessionConfig;
pub use error::BoundedSessionError;
pub use lifecycle::SessionLifecycleEntry;
pub use manager::{
    AdmittedCreate, BoundedSessionManager, CloseRecord, ClosingSession, ClosingSurplus,
    ClosingVictim, EvictingCreate, MakeRoom, OpenedSession, ReadyCreate, RegisteredSession, Trim,
};
pub use order::SessionId;
pub use rate_limit::RateLimiter;
pub use reason::CloseReason;
