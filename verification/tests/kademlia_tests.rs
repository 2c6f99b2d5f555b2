use aquamarine::kademlia::{
    Command, DhtEnv, KadAction, Kademlia, KademliaConfig, KademliaError, KademliaEvent, Multiaddr,
};
use aquamarine::particle::PeerId;

fn kad_config(peer_id: PeerId) -> KademliaConfig {
    KademliaConfig {
        peer_id,
        query_timeout_ms: 100,
        peer_fail_threshold: 1,
        ban_cooldown_ms: 1000,
    }
}

fn empty_env(now_ms: u64) -> DhtEnv {
    DhtEnv {
        now_ms,
        local_addresses: vec![],
        closest_local_peers: vec![],
        has_known_peers: false,
    }
}

fn addr(text: &str) -> Multiaddr {
    Multiaddr { repr: text.to_string() }
}

#[test]
fn dont_repeat_discovery() {
    let mut node = Kademlia::new(kad_config(PeerId::new(0)));
    let peer = PeerId::new(42);

    node.discover_peer(peer, 1, &empty_env(0));
    assert_eq!(node.queries.len(), 1);
    node.discover_peer(peer, 2, &empty_env(0));
    assert_eq!(node.queries.len(), 1);
}

#[test]
fn ban() {
    let mut node = Kademlia::new(kad_config(PeerId::new(0)));
    let peer = PeerId::new(42);

    node.discover_peer(peer, 1, &empty_env(0));
    assert_eq!(node.queries.len(), 1);

    // wait until the peer is banned: sweep after twice the query timeout
    node.sweep(200);

    assert_eq!(node.failed_peers.len(), 1);
    assert!(node.failed_peers[0].1.ban.is_some());

    let reply = node.discover_peer(peer, 2, &empty_env(200));
    match reply {
        Some(KadAction::ReplyAddresses { result, .. }) => {
            assert!(matches!(result, Err(KademliaError::PeerBanned)))
        },
        unexpected => panic!("expected a banned reply, got {:?}", unexpected),
    }
}

/// After the ban cooldown the ban clears and a new discovery is allowed.
#[test]
fn ban_clears_after_cooldown() {
    let mut node = Kademlia::new(kad_config(PeerId::new(0)));
    let peer = PeerId::new(42);
    node.discover_peer(peer, 1, &empty_env(0));
    let (actions, _) = node.sweep(200);
    // the waiter was told it timed out, and exactly once
    assert_eq!(actions.len(), 1);
    assert!(matches!(
        actions[0],
        KadAction::ReplyAddresses { out: 1, result: Err(KademliaError::PeerTimedOut) }
    ));
    assert_eq!(node.failed_peers[0].1.count, 1);
    assert!(node.failed_peers[0].1.ban.is_some());

    // a sweep past the cooldown lifts the ban entirely
    node.sweep(200 + 1000);
    assert_eq!(node.failed_peers.len(), 0);

    let again = node.discover_peer(peer, 3, &empty_env(1300));
    assert!(matches!(again, Some(KadAction::QueryClosestPeers { .. })));
}

/// Two back-to-back discoveries of one peer share a single DHT query, and
/// both waiters fire when it resolves.
#[test]
fn repeat_discovery_resolves_all_waiters() {
    let mut node = Kademlia::new(kad_config(PeerId::new(0)));
    let peer = PeerId::new(42);
    let first = node.discover_peer(peer, 1, &empty_env(0));
    let query_id = match first {
        Some(KadAction::QueryClosestPeers { query_id, peer: p }) => {
            assert_eq!(p, peer);
            query_id
        },
        unexpected => panic!("expected a closest-peers query, got {:?}", unexpected),
    };
    assert!(node.discover_peer(peer, 2, &empty_env(10)).is_none());
    assert_eq!(node.queries.len(), 1);
    assert_eq!(node.pending_peers.len(), 1);
    assert_eq!(node.pending_peers[0].1.len(), 2);

    // the query finishes and the DHT now knows an address for the peer
    let found = vec![addr("/memory/4242")];
    let actions = node.closest_finished(
        query_id,
        aquamarine::kademlia::ClosestResult { timed_out: false, peers: vec![peer] },
        &found,
    );
    assert_eq!(actions.len(), 2);
    for (k, action) in actions.iter().enumerate() {
        match action {
            KadAction::ReplyAddresses { out, result: Ok(addrs) } => {
                assert_eq!(*out, (k + 1) as u64);
                assert_eq!(addrs.len(), 1);
                assert_eq!(addrs[0].repr, "/memory/4242".to_string());
            },
            unexpected => panic!("expected addresses, got {:?}", unexpected),
        }
    }
    assert_eq!(node.pending_peers.len(), 0);
    assert_eq!(node.queries.len(), 0);
}

/// Every pending waiter is answered within twice the query timeout, and the
/// next wake-up is no later than the earliest coming expiry.
#[test]
fn sweep_times_out_only_overdue_waiters() {
    let mut node = Kademlia::new(kad_config(PeerId::new(0)));
    let early = PeerId::new(1);
    let late = PeerId::new(2);
    node.discover_peer(early, 1, &empty_env(0));
    node.discover_peer(late, 2, &empty_env(99));

    let (actions, wake) = node.sweep(200);
    // the waiter from t=0 is 200ms old: timed out; the one from t=99 is not
    assert_eq!(actions.len(), 1);
    assert!(matches!(
        actions[0],
        KadAction::ReplyAddresses { out: 1, result: Err(KademliaError::PeerTimedOut) }
    ));
    assert_eq!(node.pending_peers.len(), 1);
    assert_eq!(node.pending_peers[0].0, late);
    // the late waiter expires at 99 + 200 = 299, i.e. in 99ms
    assert_eq!(wake, Some(99));
}

/// A successful discovery event clears the failure record.
#[test]
fn discovery_event_unbans() {
    let mut node = Kademlia::new(kad_config(PeerId::new(0)));
    let peer = PeerId::new(42);
    node.discover_peer(peer, 1, &empty_env(0));
    node.sweep(200);
    assert!(node.failed_peers[0].1.ban.is_some());

    let actions = node.inject_kad_event(
        KademliaEvent::RoutingUpdated { peer, addresses: vec![addr("/memory/1")] },
        &vec![],
    );
    // nobody was waiting any more, so no replies — but the record is gone
    assert_eq!(actions.len(), 0);
    assert_eq!(node.failed_peers.len(), 0);
}

/// Bootstrap replies an error at once without known peers, and otherwise
/// fires exactly when the DHT reports no buckets remaining.
#[test]
fn bootstrap_completion() {
    let mut node = Kademlia::new(kad_config(PeerId::new(0)));

    let refused = node.bootstrap(1, &empty_env(0));
    assert!(matches!(
        refused,
        KadAction::ReplyUnit { out: 1, result: Err(KademliaError::NoKnownPeers) }
    ));

    let mut env = empty_env(0);
    env.has_known_peers = true;
    let started = node.bootstrap(2, &env);
    let query_id = match started {
        KadAction::StartBootstrap { query_id } => query_id,
        unexpected => panic!("expected a bootstrap start, got {:?}", unexpected),
    };
    assert_eq!(node.queries.len(), 1);

    // buckets remaining: no reply, the query stays
    assert!(node.bootstrap_finished(query_id, Some(3)).is_none());
    assert_eq!(node.queries.len(), 1);
    assert!(node.bootstrap_finished(query_id, None).is_none());
    assert_eq!(node.queries.len(), 1);

    // the final bucket scan ends: the reply fires and the query closes
    let done = node.bootstrap_finished(query_id, Some(0));
    assert!(matches!(done, Some(KadAction::ReplyUnit { out: 2, result: Ok(()) })));
    assert_eq!(node.queries.len(), 0);
}

/// A neighborhood query answers from local knowledge, truncated to the
/// asked count.
#[test]
fn neighborhood_truncates() {
    let mut node = Kademlia::new(kad_config(PeerId::new(0)));
    let mut env = empty_env(0);
    env.closest_local_peers = vec![PeerId::new(1), PeerId::new(2), PeerId::new(3)];
    let reply = node.neighborhood(vec![0xab], 2, 9, &env);
    match reply {
        KadAction::ReplyPeers { out, result: Ok(peers) } => {
            assert_eq!(out, 9);
            assert_eq!(peers, vec![PeerId::new(1), PeerId::new(2)]);
        },
        unexpected => panic!("expected peers, got {:?}", unexpected),
    }
}

/// A finished remote neighborhood maps its outcome: peers found win, an
/// empty outcome reports why.
#[test]
fn remote_neighborhood_outcomes() {
    let mut node = Kademlia::new(kad_config(PeerId::new(0)));

    let started = node.remote_neighborhood(vec![0x01], 5);
    let q1 = match started {
        KadAction::QueryClosestKey { query_id, key } => {
            assert_eq!(key, vec![0x01]);
            query_id
        },
        unexpected => panic!("expected a key query, got {:?}", unexpected),
    };
    let actions = node.closest_finished(
        q1,
        aquamarine::kademlia::ClosestResult { timed_out: true, peers: vec![PeerId::new(8)] },
        &vec![],
    );
    assert_eq!(actions.len(), 1);
    assert!(matches!(
        &actions[0],
        KadAction::ReplyPeers { out: 5, result: Ok(peers) } if peers == &vec![PeerId::new(8)]
    ));

    let q2 = match node.remote_neighborhood(vec![0x02], 6) {
        KadAction::QueryClosestKey { query_id, .. } => query_id,
        unexpected => panic!("expected a key query, got {:?}", unexpected),
    };
    let actions = node.closest_finished(
        q2,
        aquamarine::kademlia::ClosestResult { timed_out: false, peers: vec![] },
        &vec![],
    );
    assert!(matches!(
        actions[0],
        KadAction::ReplyPeers { out: 6, result: Err(KademliaError::NoPeersFound) }
    ));

    let q3 = match node.remote_neighborhood(vec![0x03], 7) {
        KadAction::QueryClosestKey { query_id, .. } => query_id,
        unexpected => panic!("expected a key query, got {:?}", unexpected),
    };
    let actions = node.closest_finished(
        q3,
        aquamarine::kademlia::ClosestResult { timed_out: true, peers: vec![] },
        &vec![],
    );
    assert!(matches!(
        actions[0],
        KadAction::ReplyPeers { out: 7, result: Err(KademliaError::QueryTimedOut) }
    ));
}

/// The command front door behaves as the named handlers do.
#[test]
fn execute_commands() {
    let mut node = Kademlia::new(kad_config(PeerId::new(0)));
    let mut env = empty_env(0);
    env.local_addresses = vec![addr("/memory/7")];

    let lookup = node.execute(Command::LocalLookup { peer: PeerId::new(3), out: 1 }, &env);
    match lookup {
        Some(KadAction::ReplyAddresses { out: 1, result: Ok(addrs) }) => {
            assert_eq!(addrs[0].repr, "/memory/7".to_string());
        },
        unexpected => panic!("expected addresses, got {:?}", unexpected),
    }

    let discover = node.execute(Command::DiscoverPeer { peer: PeerId::new(3), out: 2 }, &env);
    // the peer is already locally known: an immediate reply, no query
    assert!(matches!(
        discover,
        Some(KadAction::ReplyAddresses { out: 2, result: Ok(_) })
    ));
    assert_eq!(node.queries.len(), 0);

    let contact = aquamarine::kademlia::Contact {
        peer_id: PeerId::new(4),
        addresses: vec![addr("/memory/8")],
    };
    let added = node.execute(Command::AddContact { contact }, &env);
    assert!(matches!(added, Some(KadAction::AddAddresses { peer, .. }) if peer == PeerId::new(4)));
}
