//! What the server refuses, and why.
use crate::protocol::ProtocolError;
use vstd::prelude::*;
use vstd::string::*;

verus! {

/// Everything that can go wrong serving a request.
#[derive(Debug, PartialEq, Eq)]
#[non_exhaustive]
pub enum ServerError {
    /// The database holds something the protocol says cannot exist. Refused loudly rather than
    /// forwarded to every client that asks.
    Corrupt {
        /// What was wrong, for the operator reading the log.
        detail: String,
    },
    /// A value failed the protocol's own validation. One that the database holds is
    /// [`ServerError::Corrupt`] instead.
    Protocol(ProtocolError),
    /// The database could not be reached or the query failed.
    Database {
        /// The driver's description.
        detail: String,
    },
}

/// An error, with its texts as sequences of characters.
pub enum ServerErrorView {
    Corrupt { detail: Seq<char> },
    Protocol(ProtocolError),
    Database { detail: Seq<char> },
}

impl Clone for ServerError {
    fn clone(&self) -> (copy: Self)
        ensures
            copy == *self,
    {
        match self {
            ServerError::Corrupt { detail } => ServerError::Corrupt { detail: detail.clone() },
            ServerError::Protocol(e) => ServerError::Protocol(e.clone()),
            ServerError::Database { detail } => ServerError::Database { detail: detail.clone() },
        }
    }
}

impl View for ServerError {
    type V = ServerErrorView;

    open spec fn view(&self) -> ServerErrorView {
        match self {
            ServerError::Corrupt { detail } => ServerErrorView::Corrupt { detail: detail@ },
            ServerError::Protocol(e) => ServerErrorView::Protocol(*e),
            ServerError::Database { detail } => ServerErrorView::Database { detail: detail@ },
        }
    }
}

/// A protocol error is a server error of its own kind.
impl From<ProtocolError> for ServerError {
    fn from(e: ProtocolError) -> (r: ServerError) {
        ServerError::Protocol(e)
    }
}

impl vstd::std_specs::convert::FromSpecImpl<ProtocolError> for ServerError {
    open spec fn obeys_from_spec() -> bool {
        true
    }

    open spec fn from_spec(e: ProtocolError) -> ServerError {
        ServerError::Protocol(e)
    }
}

/// What a protocol error says.
pub open spec fn protocol_text(e: ProtocolError) -> Seq<char> {
    match e {
        ProtocolError::Zero => "must not be zero"@,
        ProtocolError::NotVersionSeven => "not a version 7 command id"@,
        ProtocolError::RejectedWithoutReason => "a rejection must carry a reason"@,
        ProtocolError::Invalid { detail } => detail@,
    }
}

impl ProtocolError {
    /// The error in words.
    pub fn message(&self) -> (s: String)
        ensures
            s@ == protocol_text(*self),
    {
        match self {
            ProtocolError::Zero => "must not be zero".to_owned(),
            ProtocolError::NotVersionSeven => "not a version 7 command id".to_owned(),
            ProtocolError::RejectedWithoutReason => "a rejection must carry a reason".to_owned(),
            ProtocolError::Invalid { detail } => detail.clone(),
        }
    }
}

impl ServerError {
    /// The error in words, for the operator.
    pub fn message(&self) -> (s: String)
        ensures
            s@ == match self@ {
                ServerErrorView::Corrupt { detail } => "corrupt change log: "@ + detail,
                ServerErrorView::Protocol(e) => "invalid value in the change log: "@
                    + protocol_text(e),
                ServerErrorView::Database { detail } => "database failure: "@ + detail,
            },
    {
        match self {
            ServerError::Corrupt { detail } => {
                "corrupt change log: ".to_owned().concat(detail.as_str())
            },
            ServerError::Protocol(e) => {
                "invalid value in the change log: ".to_owned().concat(e.message().as_str())
            },
            ServerError::Database { detail } => {
                "database failure: ".to_owned().concat(detail.as_str())
            },
        }
    }
}

/// A stored value that the protocol refuses is corruption, and the refusal is the detail.
pub open spec fn corruption(e: ProtocolError) -> ServerErrorView {
    ServerErrorView::Corrupt { detail: protocol_text(e) }
}

/// What the server makes of a stored value that the protocol refuses.
pub fn corrupt(e: ProtocolError) -> (r: ServerError)
    ensures
        r@ == corruption(e),
{
    ServerError::Corrupt { detail: e.message() }
}

} // verus!
