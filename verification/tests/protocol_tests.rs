use rendezvous_server::session::{
    handle_request, LogicalStream, ProtocolError, Request, Response, Session, StreamPhase,
    MAX_FRAME_SIZE,
};
use rendezvous_server::store::Store;
use rendezvous_server::transport::{
    complete_handshake, negotiate_multiplexer, HandshakeError, Multiplexer,
    HANDSHAKE_TIMEOUT_SECS,
};
use rendezvous_server::types::{Config, Multiaddr, Namespace, PeerId, RegisterError};

fn ns(name: &str) -> Namespace {
    Namespace { bytes: name.as_bytes().to_vec() }
}

fn ma(text: &str) -> Multiaddr {
    Multiaddr { bytes: text.as_bytes().to_vec() }
}

fn peer(id: u64) -> PeerId {
    PeerId { id }
}

#[test]
fn dispatch_register_answers_with_granted_ttl() {
    let mut store = Store::new(Config::default());
    let resp = handle_request(
        &mut store,
        peer(1),
        Request::Register {
            namespace: ns("chat"),
            addresses: vec![ma("/ip4/1.2.3.4/tcp/80")],
            ttl: Some(30),
        },
        0,
    );
    match resp {
        Response::Registered { ttl } => assert_eq!(ttl, 30),
        _ => panic!("expected a successful registration response"),
    }
}

#[test]
fn dispatch_register_failure_names_the_error() {
    let mut store = Store::new(Config::default());
    let resp = handle_request(
        &mut store,
        peer(1),
        Request::Register { namespace: ns("chat"), addresses: vec![], ttl: Some(30) },
        0,
    );
    match resp {
        Response::RegisterFailed { error } => assert_eq!(error, RegisterError::InvalidAddress),
        _ => panic!("expected a failed registration response"),
    }
}

#[test]
fn dispatch_unregister_and_discover_roundtrip() {
    let mut store = Store::new(Config::default());
    handle_request(
        &mut store,
        peer(1),
        Request::Register {
            namespace: ns("chat"),
            addresses: vec![ma("/dns4/x/tcp/1")],
            ttl: Some(30),
        },
        0,
    );
    let found = handle_request(
        &mut store,
        peer(2),
        Request::Discover { namespace: Some(ns("chat")), cursor: None, limit: None },
        0,
    );
    match found {
        Response::Discovered { registrations, next_cursor } => {
            assert_eq!(registrations.len(), 1);
            assert_eq!(registrations[0].peer_id.id, 1);
            assert_eq!(next_cursor.last_ordinal, registrations[0].ordinal);
        }
        _ => panic!("expected a discovery response"),
    }
    let gone = handle_request(
        &mut store,
        peer(1),
        Request::Unregister { namespace: ns("chat") },
        0,
    );
    assert!(matches!(gone, Response::Unregistered));
    let empty = handle_request(
        &mut store,
        peer(2),
        Request::Discover { namespace: Some(ns("chat")), cursor: None, limit: None },
        0,
    );
    match empty {
        Response::Discovered { registrations, .. } => assert!(registrations.is_empty()),
        _ => panic!("expected a discovery response"),
    }
}

#[test]
fn oversized_frame_closes_only_the_stream() {
    let mut store = Store::new(Config::default());
    handle_request(
        &mut store,
        peer(1),
        Request::Register {
            namespace: ns("chat"),
            addresses: vec![ma("/dns4/x/tcp/1")],
            ttl: Some(30),
        },
        0,
    );
    let mut stream = LogicalStream::idle();
    stream.open();
    let out = stream.serve_frame(
        &mut store,
        peer(2),
        MAX_FRAME_SIZE + 1,
        Some(Request::Unregister { namespace: ns("chat") }),
        0,
    );
    assert_eq!(out.unwrap_err(), ProtocolError::OversizedFrame);
    assert_eq!(stream.phase, StreamPhase::Closed);

    let mut sibling = LogicalStream::idle();
    sibling.open();
    let found = sibling.serve_frame(
        &mut store,
        peer(2),
        10,
        Some(Request::Discover { namespace: Some(ns("chat")), cursor: None, limit: None }),
        0,
    );
    match found.expect("sibling stream should still be served") {
        Response::Discovered { registrations, .. } => assert_eq!(registrations.len(), 1),
        _ => panic!("expected a discovery response"),
    }
}

#[test]
fn malformed_frame_closes_the_stream_with_a_protocol_error() {
    let mut store = Store::new(Config::default());
    let mut stream = LogicalStream::idle();
    stream.open();
    let out = stream.serve_frame(&mut store, peer(1), 10, None, 0);
    assert_eq!(out.unwrap_err(), ProtocolError::MalformedFrame);
    assert_eq!(stream.phase, StreamPhase::Closed);
}

#[test]
fn one_exchange_per_stream() {
    let mut store = Store::new(Config::default());
    let mut stream = LogicalStream::idle();
    assert_eq!(stream.phase, StreamPhase::Idle);
    stream.open();
    assert_eq!(stream.phase, StreamPhase::AwaitingRequest);
    let out = stream.serve_frame(
        &mut store,
        peer(1),
        10,
        Some(Request::Register {
            namespace: ns("chat"),
            addresses: vec![ma("/dns4/x/tcp/1")],
            ttl: Some(30),
        }),
        0,
    );
    assert!(matches!(out, Ok(Response::Registered { ttl: 30 })));
    assert_eq!(stream.phase, StreamPhase::Closed);
}

#[test]
fn session_enforces_the_stream_cap() {
    let mut session = Session::new(peer(1), 2);
    let a = session.try_open_stream();
    let b = session.try_open_stream();
    assert!(a.is_some() && b.is_some());
    assert!(session.try_open_stream().is_none());
    session.stream_closed();
    assert!(session.try_open_stream().is_some());
}

#[test]
fn multiplexer_negotiation_follows_local_preference() {
    let pick = negotiate_multiplexer(
        &vec![Multiplexer::Yamux, Multiplexer::Mplex],
        &vec![Multiplexer::Mplex, Multiplexer::Yamux],
    );
    assert_eq!(pick, Some(Multiplexer::Yamux));

    let fallback = negotiate_multiplexer(
        &vec![Multiplexer::Yamux, Multiplexer::Mplex],
        &vec![Multiplexer::Mplex],
    );
    assert_eq!(fallback, Some(Multiplexer::Mplex));

    let none = negotiate_multiplexer(&vec![Multiplexer::Yamux], &vec![]);
    assert_eq!(none, None);
}

#[test]
fn handshake_past_the_deadline_times_out() {
    let out = complete_handshake(
        100,
        100 + HANDSHAKE_TIMEOUT_SECS + 1,
        Some(peer(1)),
        &vec![Multiplexer::Yamux],
        &vec![Multiplexer::Yamux],
    );
    assert_eq!(out.unwrap_err(), HandshakeError::Timeout);
}

#[test]
fn handshake_without_verified_identity_is_refused() {
    let out = complete_handshake(100, 101, None, &vec![Multiplexer::Yamux], &vec![
        Multiplexer::Yamux,
    ]);
    assert_eq!(out.unwrap_err(), HandshakeError::AuthenticationFailed);
}

#[test]
fn handshake_without_common_multiplexer_is_refused() {
    let out = complete_handshake(100, 101, Some(peer(1)), &vec![Multiplexer::Yamux], &vec![]);
    assert_eq!(out.unwrap_err(), HandshakeError::NoCommonMultiplexer);
}

#[test]
fn successful_handshake_fixes_peer_and_multiplexer() {
    let out = complete_handshake(
        100,
        100 + HANDSHAKE_TIMEOUT_SECS,
        Some(peer(7)),
        &vec![Multiplexer::Yamux, Multiplexer::Mplex],
        &vec![Multiplexer::Mplex, Multiplexer::Yamux],
    );
    let conn = out.expect("handshake should succeed");
    assert_eq!(conn.peer.id, 7);
    assert_eq!(conn.multiplexer, Multiplexer::Yamux);
    assert_eq!(conn.established_at, 100 + HANDSHAKE_TIMEOUT_SECS);
}

#[test]
fn joined_addresses_are_comma_separated() {
    let mut store = Store::new(Config::default());
    let record = store
        .register(
            peer(1),
            ns("chat"),
            vec![ma("/dns4/a/tcp/1"), ma("/dns4/b/tcp/2")],
            Some(30),
            0,
        )
        .unwrap();
    assert_eq!(record.addresses.joined(), b"/dns4/a/tcp/1,/dns4/b/tcp/2".to_vec());
    let single = store
        .register(peer(2), ns("chat"), vec![ma("/dns4/a/tcp/1")], Some(30), 0)
        .unwrap();
    assert_eq!(single.addresses.joined(), b"/dns4/a/tcp/1".to_vec());
}
