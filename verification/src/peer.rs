//! What the registry knows of one remote node.

use vstd::prelude::*;
use std::collections::HashMap;
use std::collections::HashSet;
use crate::channel::fire;
use crate::hooks::{HookId, ListenerId};
use crate::identity::RemoteIdentity;
use crate::metadata::Metadata;

verus! {

/// The state of a peer as a mathematical value.
pub struct PeerView {
    /// The identity under which the peer is registered.
    pub identity: RemoteIdentity,
    /// The metadata that the peer announced.
    pub metadata: Map<Seq<char>, Seq<char>>,
    /// The hooks that reported the peer as discovered.
    pub discovered: Set<usize>,
    /// The listeners that hold a live connection to the peer, each with the
    /// signal that closes it.
    pub active_connections: Map<usize, tokio::sync::oneshot::Sender<()>>,
    /// The listeners through which the peer is connected.
    pub connection_methods: Set<usize>,
}

impl PeerView {
    /// A peer of which nothing is known yet.
    pub open spec fn fresh(identity: RemoteIdentity) -> PeerView {
        PeerView {
            identity,
            metadata: Map::empty(),
            discovered: Set::empty(),
            active_connections: Map::empty(),
            connection_methods: Set::empty(),
        }
    }

    /// No hook discovered the peer and no listener connects it: such a peer
    /// has no place in the registry.
    pub open spec fn orphaned(self) -> bool {
        self.discovered == Set::<usize>::empty() && self.connection_methods == Set::<
            usize,
        >::empty()
    }

    /// The sets are finite and every live connection has its listener among
    /// the connection methods.
    pub open spec fn wf(self) -> bool {
        &&& self.discovered.finite()
        &&& self.connection_methods.finite()
        &&& self.active_connections.dom().finite()
        &&& self.active_connections.dom().subset_of(self.connection_methods)
    }

    /// Whether the peer refers to the hook or listener `id` in any way.
    pub open spec fn mentions(self, id: usize) -> bool {
        self.discovered.contains(id) || self.connection_methods.contains(id)
            || self.active_connections.contains_key(id)
    }

    /// The peer after `hook` reported it with `metadata`.
    pub open spec fn discovered_by(self, hook: usize, metadata: Map<Seq<char>, Seq<char>>) -> PeerView {
        PeerView {
            discovered: self.discovered.insert(hook),
            metadata: self.metadata.union_prefer_right(metadata),
            ..self
        }
    }

    /// The peer after `listener` reported a connection to it, with
    /// `metadata` and the signal `shutdown` that closes the connection. A
    /// signal that `listener` had given before is replaced, and is not
    /// fired.
    pub open spec fn connected_with(
        self,
        listener: usize,
        metadata: Map<Seq<char>, Seq<char>>,
        shutdown: tokio::sync::oneshot::Sender<()>,
    ) -> PeerView {
        PeerView {
            active_connections: self.active_connections.insert(listener, shutdown),
            connection_methods: self.connection_methods.insert(listener),
            metadata: self.metadata.union_prefer_right(metadata),
            ..self
        }
    }

    /// The peer without any reference to the hook or listener `id`.
    pub open spec fn detached(self, id: usize) -> PeerView {
        PeerView {
            discovered: self.discovered.remove(id),
            active_connections: self.active_connections.remove(id),
            connection_methods: self.connection_methods.remove(id),
            ..self
        }
    }
}

/// The registry's record of a remote node.
pub struct Peer {
    identity: RemoteIdentity,
    metadata: Metadata,
    discovered: HashSet<usize>,
    active_connections: HashMap<usize, tokio::sync::oneshot::Sender<()>>,
    connection_methods: HashSet<usize>,
}

impl View for Peer {
    type V = PeerView;

    closed spec fn view(&self) -> PeerView {
        PeerView {
            identity: self.identity,
            metadata: self.metadata@,
            discovered: self.discovered@,
            active_connections: self.active_connections@,
            connection_methods: self.connection_methods@,
        }
    }
}

impl Peer {
    /// A record for `identity` that holds nothing yet.
    pub(crate) fn new(identity: RemoteIdentity) -> (peer: Peer)
        ensures
            peer@ == PeerView::fresh(identity),
    {
        Peer {
            identity,
            metadata: Metadata::new(),
            discovered: HashSet::new(),
            active_connections: HashMap::new(),
            connection_methods: HashSet::new(),
        }
    }

    /// The identity of the peer.
    pub fn identity(&self) -> (identity: RemoteIdentity)
        ensures
            identity == self@.identity,
    {
        self.identity
    }

    /// The metadata that the peer announced.
    pub fn metadata(&self) -> (metadata: &Metadata)
        ensures
            metadata@ == self@.metadata,
    {
        &self.metadata
    }

    /// Whether `hook` reported the peer as discovered.
    pub fn is_discovered_by(&self, hook: HookId) -> (yes: bool)
        ensures
            yes == self@.discovered.contains(hook.0),
    {
        broadcast use vstd::std_specs::hash::group_hash_axioms;

        self.discovered.contains(&hook.0)
    }

    /// Whether `listener` is one of the ways in which the peer is connected.
    pub fn is_connected_with(&self, listener: ListenerId) -> (yes: bool)
        ensures
            yes == self@.connection_methods.contains(listener.0),
    {
        broadcast use vstd::std_specs::hash::group_hash_axioms;

        self.connection_methods.contains(&listener.0)
    }

    /// Whether `listener` holds a live connection to the peer.
    pub fn has_active_connection(&self, listener: ListenerId) -> (yes: bool)
        ensures
            yes == self@.active_connections.contains_key(listener.0),
    {
        broadcast use vstd::std_specs::hash::group_hash_axioms;

        self.active_connections.contains_key(&listener.0)
    }

    /// Whether any hook reported the peer as discovered.
    pub fn is_discovered(&self) -> (yes: bool)
        ensures
            yes == (self@.discovered != Set::<usize>::empty()),
    {
        proof {
            assert(self@.discovered.is_empty() <==> self@.discovered =~= Set::<usize>::empty());
        }
        !self.discovered.is_empty()
    }

    /// Whether the peer is connected through any listener.
    pub fn is_connected(&self) -> (yes: bool)
        ensures
            yes == (self@.connection_methods != Set::<usize>::empty()),
    {
        proof {
            assert(self@.connection_methods.is_empty() <==> self@.connection_methods
                =~= Set::<usize>::empty());
        }
        !self.connection_methods.is_empty()
    }

    /// Whether nothing keeps the peer in the registry.
    pub(crate) fn is_orphaned(&self) -> (yes: bool)
        ensures
            yes == self@.orphaned(),
    {
        !self.is_discovered() && !self.is_connected()
    }

    /// Records that `hook` discovered the peer, and merges `metadata`.
    pub(crate) fn note_discovery(&mut self, hook: usize, metadata: Metadata)
        ensures
            final(self)@ == old(self)@.discovered_by(hook, metadata@),
    {
        broadcast use vstd::std_specs::hash::group_hash_axioms;

        self.discovered.insert(hook);
        self.metadata.extend(metadata);
    }

    /// Records a connection through `listener`, and merges `metadata`.
    pub(crate) fn note_connection(
        &mut self,
        listener: usize,
        metadata: Metadata,
        shutdown: tokio::sync::oneshot::Sender<()>,
    )
        ensures
            final(self)@ == old(self)@.connected_with(listener, metadata@, shutdown),
    {
        broadcast use vstd::std_specs::hash::group_hash_axioms;

        self.active_connections.insert(listener, shutdown);
        self.connection_methods.insert(listener);
        self.metadata.extend(metadata);
    }

    /// Forgets the hook or listener `id`. A live connection through it is
    /// told to close; the result says whether there was one.
    pub(crate) fn detach(&mut self, id: usize) -> (closed: bool)
        ensures
            final(self)@ == old(self)@.detached(id),
            closed == old(self)@.active_connections.contains_key(id),
    {
        broadcast use vstd::std_specs::hash::group_hash_axioms;

        let connection = self.active_connections.remove(&id);
        self.connection_methods.remove(&id);
        self.discovered.remove(&id);
        match connection {
            Some(shutdown) => {
                let _ = fire(shutdown);
                true
            },
            None => false,
        }
    }
}

} // verus!
