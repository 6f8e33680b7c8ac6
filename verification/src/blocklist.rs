//! The server-side scope blocklist.
//!
//! Revocation is normally honoured by letting tokens expire. A scope on the blocklist is refused
//! at once, whatever a valid token says. The check fails closed: if the list cannot be read, the
//! request is refused.
use crate::auth::{AuthError, AuthErrorView};
use crate::error::ServerError;
use crate::protocol::ScopeId;
use vstd::prelude::*;

verus! {

/// Whether a scope is currently cut.
#[derive(Debug, Clone, Copy, PartialEq, Eq, Structural)]
pub enum Standing {
    /// Not blocked; the token's claims stand.
    Allowed,
    /// Blocked. Refuse regardless of what the token claims.
    Blocked,
}

impl Standing {
    /// Whether this standing permits the request.
    #[must_use]
    pub fn is_allowed(self) -> (r: bool)
        ensures
            r == (self is Allowed),
    {
        match self {
            Standing::Allowed => true,
            Standing::Blocked => false,
        }
    }
}

/// One scope's standing, given how many rows of the blocklist name it.
///
/// # Errors
/// The lookup's own, unchanged. Callers must treat that as a refusal; [`check`] does.
pub fn standing(rows: Result<usize, ServerError>) -> (r: Result<Standing, ServerError>)
    ensures
        match rows {
            Ok(n) => r == Ok::<Standing, ServerError>(
                if n == 0 {
                    Standing::Allowed
                } else {
                    Standing::Blocked
                },
            ),
            Err(e) => r == Err::<Standing, ServerError>(e),
        },
{
    match rows {
        Ok(n) => if n == 0 {
            Ok(Standing::Allowed)
        } else {
            Ok(Standing::Blocked)
        },
        Err(e) => Err(e),
    }
}

/// Refuses unless the scope is known to be allowed: a failure to look it up is a refusal, and the
/// caller cannot tell the two apart.
///
/// # Errors
/// [`AuthError::ScopeBlocked`] if the scope is blocked or its standing could not be determined.
pub fn check(scope: &ScopeId, standing: Result<Standing, ServerError>) -> (r: Result<(), AuthError>)
    ensures
        r is Ok <==> standing == Ok::<Standing, ServerError>(Standing::Allowed),
        r matches Err(e) ==> e@ == (AuthErrorView::ScopeBlocked { scope: scope@ }),
{
    match standing {
        Ok(Standing::Allowed) => Ok(()),
        _ => Err(AuthError::ScopeBlocked { scope: scope.text.clone() }),
    }
}

} // verus!
