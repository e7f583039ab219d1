//! Errors that the library reports to the request layer.

use vstd::prelude::*;

verus! {

/// Every failure the session layer and the group assignment engine report.
#[derive(Debug, Clone, Copy, PartialEq, Eq, Structural)]
pub enum ServiceError {
    /// The session key is unknown or its session was evicted: the user has
    /// to log in again.
    SessionNotFound,
    /// The authorization code could not be exchanged for a credential.
    CredentialExchangeFailed,
    /// Fetching a competition's document failed.
    DocumentFetchFailed,
    /// The credential is lent out to a running operation.
    CredentialOnLoan,
    /// The group at this index holds more competitors than its capacity.
    GroupOverCapacity(usize),
    /// The rendering step failed.
    RenderFailed,
}

} // verus!
