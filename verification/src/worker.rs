//! Plain enumerations shared with the fabric.

use vstd::prelude::*;

verus! {

/// Severity of a log message sent to the fabric.
#[derive(Clone, Copy, PartialEq, Eq, Structural, Debug)]
pub enum LogLevel {
    Debug,
    Info,
    Warning,
    Error,
    Fatal,
}

/// The worker's write-permission state for one component on one entity.
#[derive(Clone, Copy, PartialEq, Eq, Structural, Debug)]
pub enum Authority {
    NotAuthoritative,
    Authoritative,
    AuthorityLossImminent,
}

impl Authority {
    /// Mutable component access is permitted exactly when authority is not
    /// `NotAuthoritative`.
    pub open spec fn spec_permits_writes(self) -> bool {
        self != Authority::NotAuthoritative
    }

    /// Whether this authority state permits mutable access.
    pub fn permits_writes(&self) -> (r: bool)
        ensures
            r == self.spec_permits_writes(),
    {
        match self {
            Authority::NotAuthoritative => false,
            Authority::Authoritative => true,
            Authority::AuthorityLossImminent => true,
        }
    }
}

/// Outcome of a command, entity-creation, or entity-deletion request.
#[derive(Clone, Copy, PartialEq, Eq, Structural, Debug)]
pub enum CommandStatus {
    Success,
    Timeout,
    NotFound,
    AuthorityLost,
    PermissionDenied,
    ApplicationError,
    InternalError,
}

} // verus!
