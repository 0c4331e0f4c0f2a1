use vstd::prelude::*;
use vstd::string::to_string_from_display_ensures;

use rmcp::transport::streamable_http_server::session::local::LocalSessionManagerError;

verus! {

/// Declares rmcp's `LocalSessionManagerError`, which is carried through unread.
#[verifier::external_type_specification]
#[verifier::external_body]
pub struct ExLocalSessionManagerError(
    rmcp::transport::streamable_http_server::session::local::LocalSessionManagerError,
);

/// Errors returned by [`BoundedSessionManager`](crate::BoundedSessionManager).
#[derive(Debug)]
pub enum BoundedSessionError {
    /// Propagated from the inner session manager.
    Inner(LocalSessionManagerError),
    /// Session creation was rejected because the rate limit was exceeded.
    RateLimited,
}

impl BoundedSessionError {
    /// Returns the error's message: that of the inner session manager's error
    /// as it is, or the library's own.
    pub fn to_string(&self) -> (s: String)
        ensures
            match self {
                BoundedSessionError::Inner(error) => to_string_from_display_ensures::<
                    LocalSessionManagerError,
                >(error, s),
                BoundedSessionError::RateLimited => s@ == "session creation rate limit exceeded"@,
            },
    {
        match self {
            BoundedSessionError::Inner(error) => error.to_string(),
            BoundedSessionError::RateLimited => "session creation rate limit exceeded".to_owned(),
        }
    }
}

impl From<LocalSessionManagerError> for BoundedSessionError {
    fn from(error: LocalSessionManagerError) -> (e: BoundedSessionError) {
        BoundedSessionError::Inner(error)
    }
}

impl vstd::std_specs::convert::FromSpecImpl<LocalSessionManagerError> for BoundedSessionError {
    open spec fn obeys_from_spec() -> bool {
        true
    }

    open spec fn from_spec(error: LocalSessionManagerError) -> BoundedSessionError {
        BoundedSessionError::Inner(error)
    }
}

} // verus!
