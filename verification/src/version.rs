//! Protocol version negotiation.
//!
//! The server speaks the current version and, by default, the one before it. A request outside
//! the window is not an error: it is answered with an envelope that says what would work.
use crate::protocol::{ProtocolVersion, Reason};
use vstd::prelude::*;

verus! {

/// What a client outside the window is told.
#[derive(Debug, PartialEq, Eq)]
pub struct ForcedUpgrade {
    /// The oldest version the server accepts.
    pub min_protocol: ProtocolVersion,
    /// The newest version the server speaks.
    pub current_protocol: ProtocolVersion,
    /// What to show the user.
    pub reason: Reason,
}

/// What the server decided about a request's protocol version.
#[derive(Debug, PartialEq, Eq)]
pub enum Negotiated {
    /// The version is inside the window; serve the request.
    Accepted,
    /// Outside the window. The envelope tells the client what would work.
    Refused(ForcedUpgrade),
}

impl Negotiated {
    /// Whether the request may be served.
    #[must_use]
    pub fn is_accepted(&self) -> (r: bool)
        ensures
            r == (*self is Accepted),
    {
        match self {
            Negotiated::Accepted => true,
            Negotiated::Refused(_) => false,
        }
    }
}

/// The versions a server accepts: from the minimum to the current one.
#[derive(Debug, Clone, Copy, PartialEq, Eq)]
pub struct VersionPolicy {
    current: ProtocolVersion,
    min: ProtocolVersion,
}

/// The sentence for a client outside the window: two situations, two sentences.
pub open spec fn upgrade_sentence(client: u16, current: u16) -> Seq<char> {
    if client > current {
        "This service is running an older version than this app. Please try again later."@
    } else {
        "This app is too old to sync. Please update it to continue."@
    }
}

impl VersionPolicy {
    /// The newest version accepted.
    pub closed spec fn newest(&self) -> ProtocolVersion {
        self.current
    }

    /// The oldest version accepted.
    pub closed spec fn oldest(&self) -> ProtocolVersion {
        self.min
    }

    /// The window accepts something.
    #[verifier::type_invariant]
    closed spec fn accepts_something(&self) -> bool {
        self.min.value <= self.current.value
    }

    /// The standard window: `current` and one below it. Version 0 is not a version, so a server
    /// running protocol 1 accepts only 1.
    #[must_use]
    pub fn window(current: ProtocolVersion) -> (policy: Self)
        ensures
            policy.newest() == current,
            policy.oldest().value == if current.value > 1 {
                current.value - 1
            } else {
                current.value as int
            },
    {
        let below: u16 = if current.get() == 0 {
            0
        } else {
            current.get() - 1
        };
        let min: ProtocolVersion = match ProtocolVersion::new(below) {
            Ok(v) => v,
            Err(_) => current,
        };
        Self { current, min }
    }

    /// A window with an explicit minimum, for a rollout that needs more grace than one version.
    ///
    /// # Errors
    /// If `min` is above `current`, which would accept nothing at all.
    pub fn new(current: ProtocolVersion, min: ProtocolVersion) -> (r: Result<Self, &'static str>)
        ensures
            r is Ok <==> min.value <= current.value,
            r matches Ok(policy) ==> policy.newest() == current && policy.oldest() == min,
            r matches Err(e) ==> e@ == "the minimum protocol version is above the current one"@,
    {
        if min.get() > current.get() {
            return Err("the minimum protocol version is above the current one");
        }
        Ok(Self { current, min })
    }

    /// The newest version this server speaks.
    #[must_use]
    pub fn current(&self) -> (v: ProtocolVersion)
        ensures
            v == self.newest(),
    {
        self.current
    }

    /// The oldest version this server still accepts.
    #[must_use]
    pub fn min(&self) -> (v: ProtocolVersion)
        ensures
            v == self.oldest(),
    {
        self.min
    }

    /// Decides whether a request's protocol version can be served. A version above the current
    /// one is refused too: its fields would be silently ignored.
    #[must_use]
    pub fn negotiate(&self, client: ProtocolVersion) -> (n: Negotiated)
        ensures
            n is Accepted <==> self.oldest().value <= client.value <= self.newest().value,
            n matches Negotiated::Refused(e) ==> {
                &&& e.min_protocol == self.oldest()
                &&& e.current_protocol == self.newest()
                &&& e.reason@ == upgrade_sentence(client.value, self.newest().value)
            },
    {
        if client.get() >= self.min.get() && client.get() <= self.current.get() {
            return Negotiated::Accepted;
        }
        Negotiated::Refused(self.envelope(client))
    }

    fn envelope(&self, client: ProtocolVersion) -> (e: ForcedUpgrade)
        ensures
            e.min_protocol == self.oldest(),
            e.current_protocol == self.newest(),
            e.reason@ == upgrade_sentence(client.value, self.newest().value),
    {
        let reason: &str = if client.get() > self.current.get() {
            "This service is running an older version than this app. Please try again later."
        } else {
            "This app is too old to sync. Please update it to continue."
        };
        ForcedUpgrade {
            min_protocol: self.min,
            current_protocol: self.current,
            reason: Reason::new(reason),
        }
    }
}

/// A server with the standard window serves its own version and the one before it, where there is
/// one, and no other. A client outside the window is told both ends of it, and a client that is
/// ahead is told something else than one that is behind.
pub proof fn the_window_is_two_versions_wide(
    current: ProtocolVersion,
    policy: VersionPolicy,
    client: ProtocolVersion,
    n: Negotiated,
    other: ProtocolVersion,
    m: Negotiated,
)
    requires
        current.value >= 1,
        client.value >= 1,
        call_ensures(VersionPolicy::window, (current,), policy),
        call_ensures(VersionPolicy::negotiate, (&policy, client), n),
        call_ensures(VersionPolicy::negotiate, (&policy, other), m),
    ensures
        n is Accepted <==> client.value == current.value || client.value + 1 == current.value,
        n matches Negotiated::Refused(e) ==> e.current_protocol == current && e.min_protocol.value
            == if current.value > 1 {
            current.value - 1
        } else {
            1
        },
        n matches Negotiated::Refused(a) ==> (m matches Negotiated::Refused(b) ==> client.value
            > current.value && other.value < current.value ==> a.reason@ != b.reason@),
        n matches Negotiated::Refused(a) ==> (m matches Negotiated::Refused(b) ==> client.value
            > current.value && other.value > current.value ==> a.reason@ == b.reason@),
        n matches Negotiated::Refused(a) ==> (m matches Negotiated::Refused(b) ==> client.value
            < current.value && other.value < current.value ==> a.reason@ == b.reason@),
{
    reveal_strlit(
        "This service is running an older version than this app. Please try again later.",
    );
    reveal_strlit("This app is too old to sync. Please update it to continue.");
    assert("This service is running an older version than this app. Please try again later."@.len()
        == 79);
    assert("This app is too old to sync. Please update it to continue."@.len() == 58);
}

/// A window with a minimum of its own serves from that to the current version, and cannot be one
/// that serves nothing.
pub proof fn a_window_serves_from_its_minimum(
    current: ProtocolVersion,
    min: ProtocolVersion,
    policy: VersionPolicy,
    client: ProtocolVersion,
    n: Negotiated,
    r: Result<VersionPolicy, &'static str>,
)
    requires
        call_ensures(VersionPolicy::new, (current, min), r),
        r matches Ok(p) ==> p == policy,
        call_ensures(VersionPolicy::negotiate, (&policy, client), n),
    ensures
        r is Ok <==> min.value <= current.value,
        r is Ok ==> (n is Accepted <==> min.value <= client.value <= current.value),
{
}

} // verus!
