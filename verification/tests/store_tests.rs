use rendezvous_server::events::Event;
use rendezvous_server::store::Store;
use rendezvous_server::types::{Config, Cursor, Multiaddr, Namespace, PeerId, RegisterError};

fn ns(name: &str) -> Namespace {
    Namespace { bytes: name.as_bytes().to_vec() }
}

fn ma(text: &str) -> Multiaddr {
    Multiaddr { bytes: text.as_bytes().to_vec() }
}

fn peer(id: u64) -> PeerId {
    PeerId { id }
}

fn fresh_store() -> Store {
    Store::new(Config::default())
}

fn discover_all(store: &mut Store, namespace: Option<&Namespace>, now: u64) -> Vec<u64> {
    let (records, _) = store.discover(namespace, None, None, now, peer(999));
    records.iter().map(|r| r.peer_id.id).collect()
}

#[test]
fn register_then_discover_then_expire() {
    let mut store = fresh_store();
    let result = store.register(peer(1), ns("chat"), vec![ma("/ip4/1.2.3.4/tcp/80")], Some(30), 0);
    let record = result.expect("registration should be accepted");
    assert_eq!(record.ttl_seconds, 30);
    assert_eq!(record.peer_id.id, 1);
    assert_eq!(record.namespace.bytes, b"chat".to_vec());

    let (found, _) = store.discover(Some(&ns("chat")), None, None, 0, peer(2));
    assert_eq!(found.len(), 1);
    assert_eq!(found[0].peer_id.id, 1);
    assert_eq!(found[0].addresses.items.len(), 1);
    assert_eq!(found[0].addresses.items[0].bytes, b"/ip4/1.2.3.4/tcp/80".to_vec());

    store.take_events();
    store.evict_due(31);
    let (after, _) = store.discover(Some(&ns("chat")), None, None, 31, peer(2));
    assert_eq!(after.len(), 0);

    let events = store.take_events();
    let expired: Vec<&Event> = events
        .iter()
        .filter(|e| matches!(e, Event::RegistrationExpired { .. }))
        .collect();
    assert_eq!(expired.len(), 1);
    match expired[0] {
        Event::RegistrationExpired { registration } => {
            assert_eq!(registration.peer_id.id, 1);
            assert_eq!(registration.namespace.bytes, b"chat".to_vec());
        }
        _ => unreachable!(),
    }
}

#[test]
fn ttl_above_maximum_is_clamped_not_rejected() {
    let mut store = fresh_store();
    let config = Config::default();
    let result = store.register(
        peer(1),
        ns("chat"),
        vec![ma("/ip4/1.2.3.4/tcp/80")],
        Some(config.max_ttl + 1),
        0,
    );
    let record = result.expect("clamped registration should be accepted");
    assert_eq!(record.ttl_seconds, config.max_ttl);
}

#[test]
fn ttl_below_minimum_is_clamped_up() {
    let mut store = Store::new(Config {
        min_ttl: 60,
        default_ttl: 7200,
        max_ttl: 259200,
        max_registrations_per_peer: 100,
        max_discover_limit: 100,
        keep_registrations_on_disconnect: true,
    });
    let record = store
        .register(peer(1), ns("chat"), vec![ma("/dns4/x/tcp/1")], Some(10), 0)
        .expect("registration should be accepted");
    assert_eq!(record.ttl_seconds, 60);
}

#[test]
fn missing_ttl_gets_the_default() {
    let mut store = fresh_store();
    let record = store
        .register(peer(1), ns("chat"), vec![ma("/dns4/x/tcp/1")], None, 0)
        .expect("registration should be accepted");
    assert_eq!(record.ttl_seconds, Config::default().default_ttl);
}

#[test]
fn empty_address_list_is_rejected_and_store_unchanged() {
    let mut store = fresh_store();
    store.take_events();
    let result = store.register(peer(1), ns("chat"), vec![], Some(30), 0);
    assert_eq!(result.unwrap_err(), RegisterError::InvalidAddress);

    assert_eq!(discover_all(&mut store, None, 0).len(), 0);

    let events = store.take_events();
    let mut saw_not_registered = false;
    for e in &events {
        if let Event::PeerNotRegistered { peer: p, namespace, reason } = e {
            assert_eq!(p.id, 1);
            assert_eq!(namespace.bytes, b"chat".to_vec());
            assert_eq!(reason.reason(), "invalid address");
            saw_not_registered = true;
        }
    }
    assert!(saw_not_registered);
}

#[test]
fn malformed_address_is_rejected() {
    let mut store = fresh_store();
    let no_slash = store.register(peer(1), ns("chat"), vec![ma("ip4/1.2.3.4")], Some(30), 0);
    assert_eq!(no_slash.unwrap_err(), RegisterError::InvalidAddress);
    let with_space = store.register(peer(1), ns("chat"), vec![ma("/ip4/1 2")], Some(30), 0);
    assert_eq!(with_space.unwrap_err(), RegisterError::InvalidAddress);
    let empty = store.register(peer(1), ns("chat"), vec![Multiaddr { bytes: vec![] }], Some(30), 0);
    assert_eq!(empty.unwrap_err(), RegisterError::InvalidAddress);
}

#[test]
fn invalid_namespace_is_rejected() {
    let mut store = fresh_store();
    let empty = store.register(peer(1), ns(""), vec![ma("/dns4/x/tcp/1")], Some(30), 0);
    assert_eq!(empty.unwrap_err(), RegisterError::InvalidNamespace);

    let long = "n".repeat(256);
    let too_long = store.register(peer(1), ns(&long), vec![ma("/dns4/x/tcp/1")], Some(30), 0);
    assert_eq!(too_long.unwrap_err(), RegisterError::InvalidNamespace);

    let control = store.register(
        peer(1),
        Namespace { bytes: vec![b'a', 0x07] },
        vec![ma("/dns4/x/tcp/1")],
        Some(30),
        0,
    );
    assert_eq!(control.unwrap_err(), RegisterError::InvalidNamespace);

    let longest = "n".repeat(255);
    store
        .register(peer(1), ns(&longest), vec![ma("/dns4/x/tcp/1")], Some(30), 0)
        .expect("255 bytes should be accepted");
    store
        .register(peer(1), ns("with space"), vec![ma("/dns4/x/tcp/1")], Some(30), 0)
        .expect("printable namespace with a space should be accepted");
}

#[test]
fn addresses_are_deduplicated_keeping_first_occurrences() {
    let mut store = fresh_store();
    let record = store
        .register(
            peer(1),
            ns("chat"),
            vec![ma("/dns4/a/tcp/1"), ma("/dns4/b/tcp/2"), ma("/dns4/a/tcp/1")],
            Some(30),
            0,
        )
        .expect("registration should be accepted");
    let texts: Vec<Vec<u8>> = record.addresses.items.iter().map(|a| a.bytes.clone()).collect();
    assert_eq!(texts, vec![b"/dns4/a/tcp/1".to_vec(), b"/dns4/b/tcp/2".to_vec()]);
}

#[test]
fn unregister_absent_entry_is_a_noop() {
    let mut store = fresh_store();
    store.register(peer(1), ns("chat"), vec![ma("/dns4/x/tcp/1")], Some(30), 0).unwrap();
    store.take_events();

    store.unregister(peer(2), &ns("chat"));
    store.unregister(peer(1), &ns("other"));
    assert_eq!(discover_all(&mut store, Some(&ns("chat")), 0), vec![1]);

    let events = store.take_events();
    let unregistered = events
        .iter()
        .filter(|e| matches!(e, Event::PeerUnregistered { .. }))
        .count();
    assert_eq!(unregistered, 2);
}

#[test]
fn unregister_removes_entry_and_cancels_expiry() {
    let mut store = fresh_store();
    store.register(peer(1), ns("chat"), vec![ma("/dns4/x/tcp/1")], Some(30), 0).unwrap();
    assert_eq!(store.next_deadline(), Some(30));
    store.unregister(peer(1), &ns("chat"));
    assert_eq!(store.next_deadline(), None);
    assert_eq!(discover_all(&mut store, Some(&ns("chat")), 0).len(), 0);
    store.take_events();
    store.evict_due(1000);
    let events = store.take_events();
    assert!(events.iter().all(|e| !matches!(e, Event::RegistrationExpired { .. })));
}

#[test]
fn repeated_register_refreshes_ttl_and_ordinal_only() {
    let mut store = fresh_store();
    let first = store
        .register(peer(1), ns("chat"), vec![ma("/dns4/x/tcp/1")], Some(30), 100)
        .unwrap();
    let second = store
        .register(peer(1), ns("chat"), vec![ma("/dns4/x/tcp/1")], Some(30), 120)
        .unwrap();
    assert_eq!(second.peer_id, first.peer_id);
    assert_eq!(second.namespace.bytes, first.namespace.bytes);
    assert_eq!(second.ttl_seconds, first.ttl_seconds);
    assert_eq!(second.registered_at, 120);
    assert!(second.ordinal > first.ordinal);

    let (found, _) = store.discover(Some(&ns("chat")), None, None, 120, peer(9));
    assert_eq!(found.len(), 1);
    assert_eq!(found[0].ordinal, second.ordinal);

    store.evict_due(135);
    assert_eq!(discover_all(&mut store, Some(&ns("chat")), 135), vec![1]);
    store.evict_due(151);
    assert_eq!(discover_all(&mut store, Some(&ns("chat")), 151).len(), 0);
}

#[test]
fn renewal_replaces_the_expiry_timer() {
    let mut store = fresh_store();
    store.register(peer(1), ns("chat"), vec![ma("/dns4/x/tcp/1")], Some(30), 100).unwrap();
    assert_eq!(store.next_deadline(), Some(130));
    store.register(peer(1), ns("chat"), vec![ma("/dns4/x/tcp/1")], Some(30), 200).unwrap();
    assert_eq!(store.next_deadline(), Some(230));
    store.take_events();
    store.evict_due(130);
    let events = store.take_events();
    assert!(events.iter().all(|e| !matches!(e, Event::RegistrationExpired { .. })));
    assert_eq!(discover_all(&mut store, Some(&ns("chat")), 130), vec![1]);
}

#[test]
fn at_most_one_registration_per_pair() {
    let mut store = fresh_store();
    for _ in 0..5 {
        store.register(peer(1), ns("chat"), vec![ma("/dns4/x/tcp/1")], Some(30), 0).unwrap();
    }
    assert_eq!(discover_all(&mut store, Some(&ns("chat")), 0), vec![1]);
}

#[test]
fn registration_cap_throttles_new_pairs_but_not_renewals() {
    let mut store = Store::new(Config {
        min_ttl: 0,
        default_ttl: 7200,
        max_ttl: 259200,
        max_registrations_per_peer: 2,
        max_discover_limit: 100,
        keep_registrations_on_disconnect: true,
    });
    store.register(peer(1), ns("a"), vec![ma("/dns4/x/tcp/1")], Some(30), 0).unwrap();
    store.register(peer(1), ns("b"), vec![ma("/dns4/x/tcp/1")], Some(30), 0).unwrap();
    let third = store.register(peer(1), ns("c"), vec![ma("/dns4/x/tcp/1")], Some(30), 0);
    assert_eq!(third.unwrap_err(), RegisterError::Throttled);

    store
        .register(peer(1), ns("a"), vec![ma("/dns4/x/tcp/1")], Some(60), 10)
        .expect("renewal is not throttled");
    store
        .register(peer(2), ns("c"), vec![ma("/dns4/x/tcp/1")], Some(30), 0)
        .expect("another peer is not throttled");
}

#[test]
fn distinct_pairs_all_succeed_and_are_all_visible() {
    let mut store = fresh_store();
    for id in 1..=4u64 {
        store
            .register(peer(id), ns("chat"), vec![ma("/dns4/x/tcp/1")], Some(30), 0)
            .expect("distinct pairs should all be admitted");
        store
            .register(peer(id), ns("mail"), vec![ma("/dns4/x/tcp/2")], Some(30), 0)
            .expect("distinct pairs should all be admitted");
    }
    assert_eq!(discover_all(&mut store, Some(&ns("chat")), 0), vec![1, 2, 3, 4]);
    assert_eq!(discover_all(&mut store, Some(&ns("mail")), 0), vec![1, 2, 3, 4]);
    assert_eq!(discover_all(&mut store, None, 0).len(), 8);
}

#[test]
fn same_pair_register_unregister_converges_deterministically() {
    let mut store = fresh_store();
    store.register(peer(1), ns("chat"), vec![ma("/dns4/x/tcp/1")], Some(30), 0).unwrap();
    store.unregister(peer(1), &ns("chat"));
    assert_eq!(discover_all(&mut store, Some(&ns("chat")), 0).len(), 0);

    store.unregister(peer(1), &ns("chat"));
    store.register(peer(1), ns("chat"), vec![ma("/dns4/x/tcp/1")], Some(30), 0).unwrap();
    assert_eq!(discover_all(&mut store, Some(&ns("chat")), 0), vec![1]);
}

#[test]
fn discovery_is_ordered_by_ordinal_and_filters_by_namespace() {
    let mut store = fresh_store();
    store.register(peer(3), ns("chat"), vec![ma("/dns4/x/tcp/1")], Some(30), 0).unwrap();
    store.register(peer(1), ns("mail"), vec![ma("/dns4/x/tcp/1")], Some(30), 0).unwrap();
    store.register(peer(2), ns("chat"), vec![ma("/dns4/x/tcp/1")], Some(30), 0).unwrap();
    assert_eq!(discover_all(&mut store, Some(&ns("chat")), 0), vec![3, 2]);
    assert_eq!(discover_all(&mut store, None, 0), vec![3, 1, 2]);
    let (records, _) = store.discover(None, None, None, 0, peer(9));
    assert!(records.windows(2).all(|w| w[0].ordinal < w[1].ordinal));
}

#[test]
fn pagination_reconstructs_the_full_set_exactly_once() {
    let mut store = fresh_store();
    for id in 1..=5u64 {
        store.register(peer(id), ns("chat"), vec![ma("/dns4/x/tcp/1")], Some(30), 0).unwrap();
    }
    for page_size in 1..=6u64 {
        let mut collected: Vec<u64> = Vec::new();
        let mut cursor: Option<Cursor> = None;
        loop {
            let (page, next) =
                store.discover(Some(&ns("chat")), cursor, Some(page_size), 0, peer(9));
            if page.is_empty() {
                break;
            }
            collected.extend(page.iter().map(|r| r.peer_id.id));
            cursor = Some(next);
        }
        assert_eq!(collected, vec![1, 2, 3, 4, 5], "page size {}", page_size);
    }
}

#[test]
fn discovery_limit_is_capped_by_the_server_maximum() {
    let mut store = Store::new(Config {
        min_ttl: 0,
        default_ttl: 7200,
        max_ttl: 259200,
        max_registrations_per_peer: 100,
        max_discover_limit: 2,
        keep_registrations_on_disconnect: true,
    });
    for id in 1..=4u64 {
        store.register(peer(id), ns("chat"), vec![ma("/dns4/x/tcp/1")], Some(30), 0).unwrap();
    }
    let (page, _) = store.discover(Some(&ns("chat")), None, Some(10), 0, peer(9));
    assert_eq!(page.len(), 2);
    let (default_page, _) = store.discover(Some(&ns("chat")), None, None, 0, peer(9));
    assert_eq!(default_page.len(), 2);
}

#[test]
fn empty_page_returns_the_cursor_unchanged() {
    let mut store = fresh_store();
    let (page, next) = store.discover(Some(&ns("chat")), Some(Cursor { last_ordinal: 7 }), None, 0, peer(9));
    assert!(page.is_empty());
    assert_eq!(next.last_ordinal, 7);
}

#[test]
fn expired_registrations_are_hidden_even_before_eviction() {
    let mut store = fresh_store();
    store.register(peer(1), ns("chat"), vec![ma("/dns4/x/tcp/1")], Some(30), 100).unwrap();
    assert_eq!(discover_all(&mut store, Some(&ns("chat")), 129), vec![1]);
    assert_eq!(discover_all(&mut store, Some(&ns("chat")), 130).len(), 0);
}

#[test]
fn eviction_takes_only_due_registrations() {
    let mut store = fresh_store();
    store.register(peer(1), ns("chat"), vec![ma("/dns4/x/tcp/1")], Some(10), 0).unwrap();
    store.register(peer(2), ns("chat"), vec![ma("/dns4/x/tcp/1")], Some(50), 0).unwrap();
    store.take_events();
    store.evict_due(20);
    let events = store.take_events();
    let expired: Vec<u64> = events
        .iter()
        .filter_map(|e| match e {
            Event::RegistrationExpired { registration } => Some(registration.peer_id.id),
            _ => None,
        })
        .collect();
    assert_eq!(expired, vec![1]);
    assert_eq!(discover_all(&mut store, Some(&ns("chat")), 20), vec![2]);
    assert_eq!(store.next_deadline(), Some(50));
}

#[test]
fn namespace_peers_follows_the_table() {
    let mut store = fresh_store();
    assert!(store.namespace_peers(&ns("chat")).is_empty());
    store.register(peer(1), ns("chat"), vec![ma("/dns4/x/tcp/1")], Some(30), 0).unwrap();
    store.register(peer(2), ns("chat"), vec![ma("/dns4/x/tcp/1")], Some(30), 0).unwrap();
    store.register(peer(3), ns("mail"), vec![ma("/dns4/x/tcp/1")], Some(30), 0).unwrap();
    let mut chat: Vec<u64> = store.namespace_peers(&ns("chat")).iter().map(|p| p.id).collect();
    chat.sort_unstable();
    assert_eq!(chat, vec![1, 2]);
    store.unregister(peer(1), &ns("chat"));
    let chat_after: Vec<u64> = store.namespace_peers(&ns("chat")).iter().map(|p| p.id).collect();
    assert_eq!(chat_after, vec![2]);
    store.evict_due(31);
    assert!(store.namespace_peers(&ns("chat")).is_empty());
}

#[test]
fn events_are_emitted_in_order_for_every_outcome() {
    let mut store = fresh_store();
    store.register(peer(1), ns("chat"), vec![ma("/dns4/x/tcp/1")], Some(30), 0).unwrap();
    store.discover(Some(&ns("chat")), None, None, 0, peer(2));
    store.unregister(peer(1), &ns("chat"));
    let events = store.take_events();
    assert_eq!(events.len(), 3);
    assert!(matches!(events[0], Event::PeerRegistered { .. }));
    assert!(matches!(events[1], Event::DiscoverServed { .. }));
    assert!(matches!(events[2], Event::PeerUnregistered { .. }));
    assert!(store.take_events().is_empty());
}

#[test]
fn registrations_survive_disconnect_by_default() {
    let mut store = fresh_store();
    store.register(peer(1), ns("chat"), vec![ma("/dns4/x/tcp/1")], Some(30), 0).unwrap();
    store.peer_disconnected(peer(1));
    assert_eq!(discover_all(&mut store, Some(&ns("chat")), 0), vec![1]);
}

#[test]
fn drop_on_disconnect_policy_removes_only_that_peer() {
    let mut store = Store::new(Config {
        min_ttl: 0,
        default_ttl: 7200,
        max_ttl: 259200,
        max_registrations_per_peer: 100,
        max_discover_limit: 100,
        keep_registrations_on_disconnect: false,
    });
    store.register(peer(1), ns("chat"), vec![ma("/dns4/x/tcp/1")], Some(30), 0).unwrap();
    store.register(peer(1), ns("mail"), vec![ma("/dns4/x/tcp/2")], Some(40), 0).unwrap();
    store.register(peer(2), ns("chat"), vec![ma("/dns4/x/tcp/3")], Some(50), 0).unwrap();
    store.take_events();

    store.peer_disconnected(peer(1));

    assert_eq!(discover_all(&mut store, None, 0), vec![2]);
    assert_eq!(store.next_deadline(), Some(50));
    let events = store.take_events();
    let dropped: Vec<Vec<u8>> = events
        .iter()
        .filter_map(|e| match e {
            Event::PeerUnregistered { peer: p, namespace } if p.id == 1 => {
                Some(namespace.bytes.clone())
            }
            _ => None,
        })
        .collect();
    assert_eq!(dropped, vec![b"chat".to_vec(), b"mail".to_vec()]);
}

#[test]
fn deadline_saturates_near_the_end_of_time() {
    let mut store = fresh_store();
    let late = u64::MAX - 10;
    store.register(peer(1), ns("chat"), vec![ma("/dns4/x/tcp/1")], Some(30), late).unwrap();
    assert_eq!(store.next_deadline(), Some(u64::MAX));
    assert_eq!(discover_all(&mut store, Some(&ns("chat")), u64::MAX - 1), vec![1]);
    store.evict_due(u64::MAX - 1);
    assert_eq!(discover_all(&mut store, Some(&ns("chat")), u64::MAX - 1), vec![1]);
}
