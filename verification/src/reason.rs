use vstd::prelude::*;

verus! {

/// The reason a session was closed.
#[derive(Debug, Clone, Copy, PartialEq, Eq, Structural)]
pub enum CloseReason {
    /// The session was evicted to make room for a new one, oldest first.
    Evicted,
    /// The session exceeded its configured maximum lifetime.
    MaxLifetime,
    /// The session was closed explicitly.
    Closed,
}

impl CloseReason {
    /// The name under which the reason is logged.
    pub open spec fn name(self) -> Seq<char> {
        match self {
            CloseReason::Evicted => "Evicted"@,
            CloseReason::MaxLifetime => "MaxLifetime"@,
            CloseReason::Closed => "Closed"@,
        }
    }

    /// Returns the reason's name.
    pub fn to_string(&self) -> (s: String)
        ensures
            s@ == self.name(),
    {
        match self {
            CloseReason::Evicted => "Evicted".to_owned(),
            CloseReason::MaxLifetime => "MaxLifetime".to_owned(),
            CloseReason::Closed => "Closed".to_owned(),
        }
    }
}

} // verus!
