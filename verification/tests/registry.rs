use std::sync::{Arc, Mutex};

use p2p2::{
    Acceptor, HandlerFn, HookEvent, HookId, Identity, ListenerId, Metadata, Peer, RemoteIdentity,
    SocketAddress, P2P,
};
use tokio::sync::mpsc::error::TryRecvError;
use tokio::sync::mpsc::{channel, Receiver};
use tokio::sync::oneshot;

fn local() -> Identity {
    Identity::from_parts(RemoteIdentity::new(1, 2), RemoteIdentity::new(3, 4))
}

fn registry() -> P2P {
    P2P::new("sd", local())
}

fn peer_x() -> RemoteIdentity {
    RemoteIdentity::new(0xAA, 0xBB)
}

fn peer_y() -> RemoteIdentity {
    RemoteIdentity::new(0xCC, 0xDD)
}

fn text(s: &str) -> String {
    s.to_string()
}

fn one_entry(key: &str, value: &str) -> Metadata {
    let mut metadata = Metadata::new();
    metadata.insert(text(key), text(value));
    metadata
}

fn drain(rx: &mut Receiver<HookEvent>) -> Vec<HookEvent> {
    let mut events = Vec::new();
    while let Ok(event) = rx.try_recv() {
        events.push(event);
    }
    events
}

struct Recorder {
    calls: Arc<Mutex<Vec<(RemoteIdentity, Vec<SocketAddress>, bool)>>>,
    me: HookId,
}

impl Acceptor for Recorder {
    fn accept(&self, peer: &Peer, addrs: &Vec<SocketAddress>) {
        let seen = peer.is_discovered_by(self.me);
        self.calls.lock().unwrap().push((peer.identity(), addrs.clone(), seen));
    }
}

struct Silent;

impl Acceptor for Silent {
    fn accept(&self, _peer: &Peer, _addrs: &Vec<SocketAddress>) {}
}

fn silent() -> HandlerFn {
    HandlerFn::new(Box::new(Silent))
}

#[test]
fn new_registry_is_empty() {
    let p2p = registry();
    assert_eq!(p2p.app_name(), "sd");
    assert_eq!(*p2p.identity(), local());
    assert_eq!(p2p.remote_identity(), RemoteIdentity::new(3, 4));
    assert!(p2p.metadata().is_empty());
    assert!(p2p.peers().is_empty());
    assert!(p2p.listeners().is_empty());
    assert!(p2p.can_register());
}

#[test]
fn try_new_accepts_valid_names_only() {
    assert!(P2P::try_new("sd", local()).is_some());
    assert!(P2P::try_new("spacedrive-1", local()).is_some());
    assert!(P2P::try_new("", local()).is_some());
    assert!(P2P::try_new("a-b-c-1-2-3", local()).is_some());
    assert!(P2P::try_new("thirteen-char", local()).is_none());
    assert!(P2P::try_new("with space", local()).is_none());
    assert!(P2P::try_new("under_score", local()).is_none());
    assert!(P2P::try_new("dot.dot", local()).is_none());
}

#[test]
fn discovery_announces_the_peer_then_the_discoverer() {
    let mut p2p = registry();
    let (tx, mut rx) = channel(8);
    let a = p2p.register_hook("a", tx);
    let x = peer_x();

    let peer = p2p.discover_peer(a, x, one_entry("name", "laptop"), Vec::new());
    assert_eq!(peer.identity(), x);
    assert!(peer.is_discovered_by(a));

    assert_eq!(rx.try_recv(), Ok(HookEvent::PeerAvailable(x)));
    assert_eq!(rx.try_recv(), Ok(HookEvent::PeerDiscoveredBy(a, x)));
    assert_eq!(rx.try_recv(), Err(TryRecvError::Empty));

    let record = p2p.peer(x).expect("the peer is known");
    assert_eq!(record.metadata().len(), 1);
    assert_eq!(record.metadata().get(&text("name")), Some(&text("laptop")));
}

#[test]
fn second_discovery_creates_nothing() {
    let mut p2p = registry();
    let (tx_a, mut rx_a) = channel(8);
    let (tx_b, mut rx_b) = channel(8);
    let a = p2p.register_hook("a", tx_a);
    let b = p2p.register_hook("b", tx_b);
    let x = peer_x();

    p2p.discover_peer(a, x, Metadata::new(), Vec::new());
    assert_eq!(p2p.peers().len(), 1);
    p2p.discover_peer(b, x, Metadata::new(), Vec::new());
    assert_eq!(p2p.peers().len(), 1);

    let expected = vec![
        HookEvent::PeerAvailable(x),
        HookEvent::PeerDiscoveredBy(a, x),
        HookEvent::PeerDiscoveredBy(b, x),
    ];
    assert_eq!(drain(&mut rx_a), expected);
    assert_eq!(drain(&mut rx_b), expected);

    let record = p2p.peer(x).unwrap();
    assert!(record.is_discovered_by(a));
    assert!(record.is_discovered_by(b));
    assert!(!record.is_discovered_by(HookId(2)));
    assert!(!record.is_connected());
}

#[test]
fn discovery_merges_metadata_key_by_key() {
    let mut p2p = registry();
    let (tx, _rx) = channel(8);
    let a = p2p.register_hook("a", tx);
    let x = peer_x();

    let mut first = Metadata::new();
    first.insert(text("name"), text("laptop"));
    first.insert(text("os"), text("linux"));
    p2p.discover_peer(a, x, first, Vec::new());

    let mut second = Metadata::new();
    second.insert(text("name"), text("desktop"));
    second.insert(text("version"), text("2"));
    p2p.discover_peer(a, x, second, Vec::new());

    let metadata = p2p.peer(x).unwrap().metadata();
    assert_eq!(metadata.len(), 3);
    assert_eq!(metadata.get(&text("name")), Some(&text("desktop")));
    assert_eq!(metadata.get(&text("os")), Some(&text("linux")));
    assert_eq!(metadata.get(&text("version")), Some(&text("2")));
}

#[test]
fn discovery_calls_every_acceptor_before_the_events() {
    let mut p2p = registry();
    let calls = Arc::new(Mutex::new(Vec::new()));
    let (tx_hook, mut rx_hook) = channel(8);
    let (tx_listener, mut rx_listener) = channel(8);
    let a = p2p.register_hook("a", tx_hook);
    let l = p2p.register_listener(
        "l",
        tx_listener,
        HandlerFn::new(Box::new(Recorder { calls: calls.clone(), me: a })),
    );
    assert_eq!(a, HookId(0));
    assert_eq!(l, ListenerId(1));

    let x = peer_x();
    let addrs = vec![
        SocketAddress::V4 { ip: 0x7f00_0001, port: 7000 },
        SocketAddress::V6 { ip: 1, port: 7001, flowinfo: 0, scope_id: 0 },
    ];
    p2p.discover_peer(a, x, Metadata::new(), addrs.clone());

    assert_eq!(*calls.lock().unwrap(), vec![(x, addrs, true)]);
    let expected = vec![HookEvent::PeerAvailable(x), HookEvent::PeerDiscoveredBy(a, x)];
    assert_eq!(drain(&mut rx_hook), expected);
    assert_eq!(drain(&mut rx_listener), expected);
}

#[test]
fn connection_is_recorded_and_announced() {
    let mut p2p = registry();
    let (tx, mut rx) = channel(8);
    let l = p2p.register_listener("l", tx, silent());
    let y = peer_y();
    let (shutdown_tx, mut shutdown_rx) = oneshot::channel();

    let peer = p2p.connected_to(l, y, one_entry("name", "phone"), shutdown_tx);
    assert!(peer.is_connected_with(l));
    assert!(peer.has_active_connection(l));
    assert!(peer.is_connected());
    assert!(!peer.is_discovered());
    assert_eq!(peer.metadata().get(&text("name")), Some(&text("phone")));

    assert_eq!(
        drain(&mut rx),
        vec![HookEvent::PeerAvailable(y), HookEvent::PeerConnectedWith(l, y)]
    );
    assert!(shutdown_rx.try_recv().is_err());
}

#[test]
fn unregistering_the_listener_closes_the_connection_and_prunes_the_peer() {
    let mut p2p = registry();
    let (tx, mut rx) = channel(8);
    let l = p2p.register_listener("l", tx, silent());
    let y = peer_y();
    let (shutdown_tx, mut shutdown_rx) = oneshot::channel();
    p2p.connected_to(l, y, Metadata::new(), shutdown_tx);
    drain(&mut rx);

    p2p.unregister_hook(l.as_hook());

    assert_eq!(shutdown_rx.try_recv(), Ok(()));
    assert!(p2p.peer(y).is_none());
    assert!(p2p.peers().is_empty());
    assert!(p2p.listeners().is_empty());
    assert_eq!(drain(&mut rx), vec![HookEvent::Shutdown]);
}

#[test]
fn peer_with_another_discoverer_survives() {
    let mut p2p = registry();
    let (tx_a, mut rx_a) = channel(8);
    let (tx_l, _rx_l) = channel(8);
    let a = p2p.register_hook("a", tx_a);
    let l = p2p.register_listener("l", tx_l, silent());
    let y = peer_y();
    let (shutdown_tx, mut shutdown_rx) = oneshot::channel();
    p2p.discover_peer(a, y, Metadata::new(), Vec::new());
    p2p.connected_to(l, y, Metadata::new(), shutdown_tx);
    drain(&mut rx_a);

    p2p.unregister_hook(l.as_hook());

    assert_eq!(shutdown_rx.try_recv(), Ok(()));
    let record = p2p.peer(y).expect("still discovered by a");
    assert!(record.is_discovered_by(a));
    assert!(!record.is_connected_with(l));
    assert!(!record.has_active_connection(l));
    assert_eq!(drain(&mut rx_a), vec![HookEvent::ListenerUnregistered(l)]);

    p2p.unregister_hook(a);
    assert!(p2p.peer(y).is_none());
    assert_eq!(drain(&mut rx_a), vec![HookEvent::Shutdown]);
}

#[test]
fn unregistering_an_absent_hook_does_nothing() {
    let mut p2p = registry();
    let (tx, mut rx) = channel(8);
    let a = p2p.register_hook("a", tx);
    p2p.discover_peer(a, peer_x(), Metadata::new(), Vec::new());
    drain(&mut rx);

    p2p.unregister_hook(HookId(1));
    p2p.unregister_hook(HookId(1_000_000));
    assert_eq!(p2p.peers().len(), 1);
    assert!(drain(&mut rx).is_empty());

    p2p.unregister_hook(a);
    p2p.unregister_hook(a);
    assert_eq!(drain(&mut rx), vec![HookEvent::Shutdown]);
    assert!(p2p.peers().is_empty());
}

#[test]
fn a_slot_is_not_given_twice() {
    let mut p2p = registry();
    let (tx_a, mut rx_a) = channel(8);
    let a = p2p.register_hook("a", tx_a);
    let x = peer_x();
    p2p.discover_peer(a, x, Metadata::new(), Vec::new());
    p2p.unregister_hook(a);
    assert_eq!(
        drain(&mut rx_a),
        vec![
            HookEvent::PeerAvailable(x),
            HookEvent::PeerDiscoveredBy(a, x),
            HookEvent::Shutdown
        ]
    );

    let (tx_b, mut rx_b) = channel(8);
    let b = p2p.register_hook("b", tx_b);
    assert_ne!(a, b);
    assert_eq!(b, HookId(1));
    assert!(drain(&mut rx_b).is_empty());
    assert!(p2p.peers().is_empty());

    let y = peer_y();
    p2p.discover_peer(b, y, Metadata::new(), Vec::new());
    let record = p2p.peer(y).unwrap();
    assert!(record.is_discovered_by(b));
    assert!(!record.is_discovered_by(a));
    assert_eq!(
        drain(&mut rx_b),
        vec![HookEvent::PeerAvailable(y), HookEvent::PeerDiscoveredBy(b, y)]
    );
    assert!(drain(&mut rx_a).is_empty());
}

#[test]
fn shutdown_leaves_nothing() {
    let mut p2p = registry();
    let (tx_a, mut rx_a) = channel(16);
    let (tx_l, mut rx_l) = channel(16);
    let (tx_m, mut rx_m) = channel(16);
    let a = p2p.register_hook("a", tx_a);
    let l = p2p.register_listener("l", tx_l, silent());
    let m = p2p.register_listener("m", tx_m, silent());
    let (x, y) = (peer_x(), peer_y());
    let (sx, mut rx_x) = oneshot::channel();
    let (sy, mut rx_y) = oneshot::channel();
    let (sz, mut rx_z) = oneshot::channel();
    p2p.discover_peer(a, x, Metadata::new(), Vec::new());
    p2p.connected_to(l, x, Metadata::new(), sx);
    p2p.connected_to(l, y, Metadata::new(), sy);
    p2p.connected_to(m, y, Metadata::new(), sz);
    drain(&mut rx_a);
    drain(&mut rx_l);
    drain(&mut rx_m);

    p2p.shutdown();

    assert!(p2p.peers().is_empty());
    assert!(p2p.listeners().is_empty());
    assert_eq!(rx_x.try_recv(), Ok(()));
    assert_eq!(rx_y.try_recv(), Ok(()));
    assert_eq!(rx_z.try_recv(), Ok(()));
    assert_eq!(drain(&mut rx_a), vec![HookEvent::Shutdown]);
    assert_eq!(drain(&mut rx_l), vec![HookEvent::Shutdown]);
    assert_eq!(
        drain(&mut rx_m),
        vec![HookEvent::ListenerUnregistered(l), HookEvent::Shutdown]
    );

    let (tx_n, mut rx_n) = channel(4);
    let n = p2p.register_hook("n", tx_n);
    assert_eq!(n, HookId(3));
    p2p.metadata_mut(|mut metadata: Metadata| {
        metadata.insert(text("k"), text("v"));
        metadata
    });
    assert_eq!(drain(&mut rx_n), vec![HookEvent::MetadataModified]);
    assert!(drain(&mut rx_a).is_empty());
}

#[test]
fn shutdown_of_an_empty_registry() {
    let mut p2p = registry();
    p2p.shutdown();
    assert!(p2p.peers().is_empty());
    assert!(p2p.can_register());
}

#[test]
fn metadata_change_is_announced_once() {
    let mut p2p = registry();
    let (tx_a, mut rx_a) = channel(8);
    let (tx_b, mut rx_b) = channel(8);
    p2p.register_hook("a", tx_a);
    p2p.register_hook("b", tx_b);

    let nothing = p2p.metadata_mut(|metadata: Metadata| metadata);
    assert!(nothing.is_empty());
    assert!(drain(&mut rx_a).is_empty());
    assert!(drain(&mut rx_b).is_empty());

    let added = p2p.metadata_mut(|mut metadata: Metadata| {
        metadata.insert(text("k"), text("v"));
        metadata
    });
    assert!(!added.is_empty());
    assert_eq!(added.updated.len(), 1);
    assert_eq!(added.updated.get(&text("k")), Some(&text("v")));
    assert!(added.removed.is_empty());
    assert_eq!(drain(&mut rx_a), vec![HookEvent::MetadataModified]);
    assert_eq!(drain(&mut rx_b), vec![HookEvent::MetadataModified]);
    assert_eq!(p2p.metadata().get(&text("k")), Some(&text("v")));

    let many = p2p.metadata_mut(|mut metadata: Metadata| {
        metadata.insert(text("k"), text("w"));
        metadata.insert(text("x"), text("1"));
        metadata.insert(text("y"), text("2"));
        metadata
    });
    assert_eq!(many.updated.len(), 3);
    assert_eq!(many.updated.get(&text("k")), Some(&text("w")));
    assert_eq!(drain(&mut rx_a), vec![HookEvent::MetadataModified]);

    let same = p2p.metadata_mut(|mut metadata: Metadata| {
        metadata.insert(text("k"), text("w"));
        metadata
    });
    assert!(same.is_empty());
    assert!(drain(&mut rx_a).is_empty());

    let gone = p2p.metadata_mut(|mut metadata: Metadata| {
        metadata.remove(&text("x"));
        metadata
    });
    assert!(gone.updated.is_empty());
    assert_eq!(gone.removed.len(), 1);
    assert_eq!(gone.removed.get(&text("x")), Some(&text("1")));
    assert_eq!(drain(&mut rx_a), vec![HookEvent::MetadataModified]);
    assert_eq!(p2p.metadata().len(), 2);
}

#[test]
fn listener_addresses_are_kept_and_announced() {
    let mut p2p = registry();
    let (tx_a, mut rx_a) = channel(16);
    let (tx_l, mut rx_l) = channel(16);
    p2p.register_hook("watcher", tx_a);
    let l = p2p.register_listener("quic", tx_l, silent());
    let first = SocketAddress::V4 { ip: 0x0a00_0001, port: 443 };
    let second = SocketAddress::V6 { ip: 7, port: 443, flowinfo: 0, scope_id: 2 };

    let listeners = p2p.listeners();
    assert_eq!(listeners.len(), 1);
    assert_eq!(listeners[0].id, l);
    assert_eq!(listeners[0].name, "quic");
    assert!(listeners[0].addrs.is_empty());

    p2p.register_listener_addr(l, first);
    p2p.register_listener_addr(l, second);
    p2p.register_listener_addr(l, first);
    assert_eq!(p2p.listeners()[0].addrs, vec![first, second]);
    let registered = vec![
        HookEvent::ListenerRegistered { id: l, addr: first },
        HookEvent::ListenerRegistered { id: l, addr: second },
        HookEvent::ListenerRegistered { id: l, addr: first },
    ];
    assert_eq!(drain(&mut rx_a), registered);
    assert_eq!(drain(&mut rx_l), registered);

    p2p.unregister_listener_addr(l, first);
    assert_eq!(p2p.listeners()[0].addrs, vec![second]);
    p2p.unregister_listener_addr(l, first);
    assert_eq!(p2p.listeners()[0].addrs, vec![second]);
    let unregistered = vec![HookEvent::ListenerUnregistered(l), HookEvent::ListenerUnregistered(l)];
    assert_eq!(drain(&mut rx_a), unregistered);
    assert_eq!(drain(&mut rx_l), unregistered);
}

#[test]
fn address_of_a_plain_hook_is_not_kept() {
    let mut p2p = registry();
    let (tx_a, mut rx_a) = channel(8);
    let a = p2p.register_hook("a", tx_a);
    let addr = SocketAddress::V4 { ip: 1, port: 2 };

    p2p.register_listener_addr(a.as_listener(), addr);
    p2p.register_listener_addr(ListenerId(9), addr);
    assert!(p2p.listeners().is_empty());
    assert_eq!(
        drain(&mut rx_a),
        vec![
            HookEvent::ListenerRegistered { id: a.as_listener(), addr },
            HookEvent::ListenerRegistered { id: ListenerId(9), addr },
        ]
    );
}

#[test]
fn listeners_come_in_slot_order() {
    let mut p2p = registry();
    let (tx, _rx) = channel(8);
    let first = p2p.register_listener("first", tx.clone(), silent());
    let plain = p2p.register_hook("plain", tx.clone());
    let second = p2p.register_listener("second", tx.clone(), silent());
    let third = p2p.register_listener("third", tx, silent());
    p2p.unregister_hook(second.as_hook());

    let listeners = p2p.listeners();
    assert_eq!(listeners.len(), 2);
    assert_eq!((listeners[0].id, listeners[0].name), (first, "first"));
    assert_eq!((listeners[1].id, listeners[1].name), (third, "third"));
    assert_eq!(plain, HookId(1));
}

#[test]
fn a_full_queue_does_not_stop_the_registry() {
    let mut p2p = registry();
    let (tx_small, mut rx_small) = channel(1);
    let (tx_big, mut rx_big) = channel(8);
    let a = p2p.register_hook("small", tx_small);
    p2p.register_hook("big", tx_big);
    let x = peer_x();

    p2p.discover_peer(a, x, Metadata::new(), Vec::new());

    assert_eq!(drain(&mut rx_small), vec![HookEvent::PeerAvailable(x)]);
    assert_eq!(
        drain(&mut rx_big),
        vec![HookEvent::PeerAvailable(x), HookEvent::PeerDiscoveredBy(a, x)]
    );
}

#[test]
fn a_hook_that_went_away_is_ignored() {
    let mut p2p = registry();
    let (tx_dead, rx_dead) = channel(8);
    let (tx_live, mut rx_live) = channel(8);
    let dead = p2p.register_hook("dead", tx_dead);
    p2p.register_hook("live", tx_live);
    drop(rx_dead);
    let x = peer_x();

    p2p.discover_peer(dead, x, Metadata::new(), Vec::new());
    assert_eq!(
        drain(&mut rx_live),
        vec![HookEvent::PeerAvailable(x), HookEvent::PeerDiscoveredBy(dead, x)]
    );
    p2p.unregister_hook(dead);
    assert!(p2p.peers().is_empty());
}

#[test]
fn a_connection_whose_receiver_is_gone_is_ignored() {
    let mut p2p = registry();
    let (tx, _rx) = channel(8);
    let l = p2p.register_listener("l", tx, silent());
    let (shutdown_tx, shutdown_rx) = oneshot::channel();
    p2p.connected_to(l, peer_y(), Metadata::new(), shutdown_tx);
    drop(shutdown_rx);
    p2p.unregister_hook(l.as_hook());
    assert!(p2p.peers().is_empty());
}

#[test]
fn peers_keep_the_order_of_their_arrival() {
    let mut p2p = registry();
    let (tx, _rx) = channel(32);
    let a = p2p.register_hook("a", tx.clone());
    let b = p2p.register_hook("b", tx);
    let ids = [RemoteIdentity::new(0, 1), RemoteIdentity::new(0, 2), RemoteIdentity::new(1, 0)];
    p2p.discover_peer(a, ids[0], Metadata::new(), Vec::new());
    p2p.discover_peer(b, ids[1], Metadata::new(), Vec::new());
    p2p.discover_peer(a, ids[2], Metadata::new(), Vec::new());
    p2p.discover_peer(a, ids[1], Metadata::new(), Vec::new());

    let order: Vec<RemoteIdentity> = p2p.peers().iter().map(|peer| peer.identity()).collect();
    assert_eq!(order, ids.to_vec());

    p2p.unregister_hook(a);
    let order: Vec<RemoteIdentity> = p2p.peers().iter().map(|peer| peer.identity()).collect();
    assert_eq!(order, vec![ids[1]]);
    assert!(p2p.peer(ids[1]).unwrap().is_discovered_by(b));
}
