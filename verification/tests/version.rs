//! The window of protocol versions, and the envelope a refused client receives.
use credsync::protocol::ProtocolVersion;
use credsync::version::{Negotiated, VersionPolicy};

fn p(n: u16) -> ProtocolVersion {
    ProtocolVersion::new(n).expect("valid protocol version")
}

#[test]
fn the_window_accepts_n_and_n_minus_one_and_refuses_below() {
    let policy = VersionPolicy::window(p(5));

    assert!(policy.negotiate(p(5)).is_accepted(), "N must be accepted");
    assert!(policy.negotiate(p(4)).is_accepted(), "N-1 must be accepted");

    match policy.negotiate(p(3)) {
        Negotiated::Refused(envelope) => {
            assert_eq!(envelope.min_protocol, p(4));
            assert_eq!(envelope.current_protocol, p(5));
            assert!(
                !envelope.reason.as_str().is_empty(),
                "the envelope must carry something a prompt can show"
            );
        }
        Negotiated::Accepted => panic!("N-2 was accepted; the window is wider than one version"),
    }
}

/// Every version below the window is refused, not just the one below it.
#[test]
fn every_version_below_the_window_is_refused() {
    let policy = VersionPolicy::window(p(9));
    for v in 1..=8u16 {
        let expected_accept = v == 8;
        assert_eq!(
            policy.negotiate(p(v)).is_accepted(),
            expected_accept,
            "protocol {v} against a window of 8..=9"
        );
    }
}

/// A server on protocol 1 accepts only 1.
#[test]
fn a_server_on_the_first_protocol_accepts_only_that_one() {
    let policy = VersionPolicy::window(p(1));
    assert_eq!(policy.min(), p(1));
    assert!(policy.negotiate(p(1)).is_accepted());
    assert!(matches!(policy.negotiate(p(2)), Negotiated::Refused(_)));
}

/// A client newer than the server is refused, and told the server is behind.
#[test]
fn a_client_newer_than_the_server_is_refused_with_a_different_reason() {
    let policy = VersionPolicy::window(p(5));

    let Negotiated::Refused(ahead) = policy.negotiate(p(6)) else {
        panic!("a client above the server's current version was accepted");
    };
    let Negotiated::Refused(behind) = policy.negotiate(p(3)) else {
        panic!("a client below the window was accepted");
    };

    assert_ne!(
        ahead.reason.as_str(),
        behind.reason.as_str(),
        "a client that is ahead was told to update its app, which is already newer"
    );
    assert!(
        ahead.current_protocol.get() < p(6).get(),
        "the envelope does not let the client see the server is behind"
    );
}

/// A wider window can be set for a slow rollout.
#[test]
fn an_explicit_window_can_be_wider_than_one_version() {
    let policy = VersionPolicy::new(p(5), p(2)).expect("a valid window");
    for v in 2..=5u16 {
        assert!(policy.negotiate(p(v)).is_accepted(), "protocol {v}");
    }
    assert!(matches!(policy.negotiate(p(1)), Negotiated::Refused(_)));
}

/// A window that accepts nothing is refused at construction.
#[test]
fn a_window_with_no_versions_in_it_is_refused() {
    assert!(VersionPolicy::new(p(3), p(4)).is_err());
}
