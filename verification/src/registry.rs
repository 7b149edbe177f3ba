//! The registry itself.

use vstd::prelude::*;
use crate::address::SocketAddress;
use crate::channel::offer;
use crate::hooks::{
    HandlerFn, Hook, HookEvent, HookId, HookView, Listener, ListenerData, ListenerId, ListenerView,
};
use crate::identity::{Identity, RemoteIdentity};
use crate::metadata::{diff, removed_entries, updated_entries, Metadata, MetadataDiff};
use crate::model::{
    accepted_by, addr_position, closings, detached_all, index_of, knows, lemma_ascending_unique,
    lemma_ids_below, lemma_ids_of_same_slots, listeners_among, pruned, sent_to, Effect,
    RegistryView,
};
use crate::name::{is_valid_app_name, valid_app_name};
use crate::peer::{Peer, PeerView};
use crate::slots::{next_slot, slots, HookSlots, SLOT_LIMIT};

verus! {

/// The views of the hooks in `filled`, slot by slot.
pub open spec fn hook_views(filled: Map<usize, Hook>) -> Map<usize, HookView> {
    filled.map_values(|hook: Hook| hook@)
}

/// The views of `peers`, record by record.
pub open spec fn peer_views(peers: Seq<Peer>) -> Seq<PeerView> {
    peers.map_values(|peer: Peer| peer@)
}

/// The registry of a node: its own name, identity and metadata, the hooks
/// that observe it, and the peers that it knows.
pub struct P2P {
    /// Tells this application from others that speak the same protocol.
    app_name: &'static str,
    /// The identity of the local node.
    identity: Identity,
    /// What the local node shares with its peers.
    metadata: Metadata,
    /// The known peers, no identity twice, in the order of their arrival.
    peers: Vec<Peer>,
    /// The registered hooks, each in its slot.
    hooks: HookSlots,
    /// What the registry did to the outside so far. It exists for the
    /// contracts alone and is not there when the program runs.
    trace: Ghost<Seq<Effect>>,
}

impl View for P2P {
    type V = RegistryView;

    closed spec fn view(&self) -> RegistryView {
        RegistryView {
            app_name: self.app_name@,
            identity: self.identity,
            metadata: self.metadata@,
            hooks: hook_views(slots(self.hooks)),
            next_hook: next_slot(self.hooks),
            peers: peer_views(self.peers@),
            trace: self.trace@,
        }
    }
}

/// Where `addr` stands in `addrs`, if it does.
fn position(addrs: &Vec<SocketAddress>, addr: SocketAddress) -> (found: Option<usize>)
    ensures
        match found {
            Some(i) => i < addrs@.len() && addrs@[i as int] == addr && (addrs@.no_duplicates()
                ==> i == addr_position(addrs@, addr)),
            None => !addrs@.contains(addr),
        },
{
    let mut i: usize = 0;
    while i < addrs.len()
        invariant
            i <= addrs@.len(),
            forall|j: int| 0 <= j < i ==> addrs@[j] != addr,
        decreases addrs@.len() - i,
    {
        if addrs[i] == addr {
            return Some(i);
        }
        i += 1;
    }
    None
}

/// A copy of `addrs`.
fn copy_addrs(addrs: &Vec<SocketAddress>) -> (copy: Vec<SocketAddress>)
    ensures
        copy@ == addrs@,
{
    let mut copy: Vec<SocketAddress> = Vec::new();
    let mut i: usize = 0;
    while i < addrs.len()
        invariant
            i <= addrs@.len(),
            copy@ == addrs@.take(i as int),
        decreases addrs@.len() - i,
    {
        copy.push(addrs[i]);
        proof {
            assert(addrs@.take(i as int + 1) =~= addrs@.take(i as int).push(addrs@[i as int]));
        }
        i += 1;
    }
    proof {
        assert(addrs@.take(i as int) =~= addrs@);
    }
    copy
}

impl P2P {
    /// What holds of every registry that this file hands out.
    pub open spec fn wf(&self) -> bool {
        self@.wf()
    }

    /// A registry for the application `app_name` and the local node
    /// `identity`, with no hooks and no peers.
    pub fn new(app_name: &'static str, identity: Identity) -> (p2p: P2P)
        requires
            valid_app_name(app_name@),
        ensures
            p2p@ == RegistryView::initial(app_name@, identity),
            p2p.wf(),
    {
        let p2p = P2P {
            app_name,
            identity,
            metadata: Metadata::new(),
            peers: Vec::new(),
            hooks: HookSlots::new(),
            trace: Ghost(Seq::empty()),
        };
        proof {
            assert(p2p@.hooks =~= Map::<usize, HookView>::empty());
            assert(p2p@.peers =~= Seq::<PeerView>::empty());
        }
        p2p
    }

    /// A registry for `app_name`, if that is a valid application name.
    pub fn try_new(app_name: &'static str, identity: Identity) -> (p2p: Option<P2P>)
        ensures
            match p2p {
                Some(p2p) => valid_app_name(app_name@) && p2p@ == RegistryView::initial(
                    app_name@,
                    identity,
                ) && p2p.wf(),
                None => !valid_app_name(app_name@),
            },
    {
        if is_valid_app_name(app_name) {
            Some(P2P::new(app_name, identity))
        } else {
            None
        }
    }

    /// The name of the application.
    pub fn app_name(&self) -> (name: &'static str)
        ensures
            name@ == self@.app_name,
    {
        self.app_name
    }

    /// The identity of the local node, which holds its secret.
    pub fn identity(&self) -> (identity: &Identity)
        ensures
            *identity == self@.identity,
    {
        &self.identity
    }

    /// The identity of the local node that other nodes may see.
    pub fn remote_identity(&self) -> (identity: RemoteIdentity)
        ensures
            identity == self@.identity.public(),
    {
        self.identity.to_remote_identity()
    }

    /// The metadata that the local node shares.
    pub fn metadata(&self) -> (metadata: &Metadata)
        ensures
            metadata@ == self@.metadata,
    {
        &self.metadata
    }

    /// The known peers, in the order in which they entered.
    pub fn peers(&self) -> (peers: &Vec<Peer>)
        ensures
            peer_views(peers@) == self@.peers,
    {
        &self.peers
    }

    /// The slots of the registered hooks, in ascending order.
    fn hook_ids(&self) -> (ids: Vec<usize>)
        requires
            self@.hooks_wf(),
        ensures
            ids@ == self@.hook_ids(),
            forall|i: int| 0 <= i < ids@.len() ==> slots(self.hooks).contains_key(#[trigger] ids@[i]),
    {
        let ids = self.hooks.ids();
        proof {
            let view = self@;
            lemma_ids_below(view.hooks, view.next_hook);
            let want = view.hook_ids();
            assert forall|id: usize| ids@.contains(id) <==> want.contains(id) by {
                assert(slots(self.hooks).contains_key(id) <==> view.hooks.contains_key(id));
            }
            lemma_ascending_unique(ids@, want);
            assert forall|i: int| 0 <= i < ids@.len() implies slots(self.hooks).contains_key(
                #[trigger] ids@[i],
            ) by {
                assert(ids@.contains(ids@[i]));
            }
        }
        ids
    }

    /// Offers `event` to every registered hook, in the order of the slots.
    fn broadcast(&mut self, event: HookEvent)
        requires
            old(self)@.hooks_wf(),
        ensures
            final(self)@ == (RegistryView {
                trace: old(self)@.trace + old(self)@.broadcast(event),
                ..old(self)@
            }),
            final(self).metadata == old(self).metadata,
    {
        let ids = self.hook_ids();
        let ghost start = self@;
        let mut i: usize = 0;
        proof {
            assert(ids@.take(0) =~= Seq::<usize>::empty());
            assert(start.trace + sent_to(ids@.take(0), event) =~= start.trace);
        }
        while i < ids.len()
            invariant
                i <= ids@.len(),
                ids@ == start.hook_ids(),
                forall|j: int|
                    0 <= j < ids@.len() ==> slots(self.hooks).contains_key(#[trigger] ids@[j]),
                self@ == (RegistryView {
                    trace: start.trace + sent_to(ids@.take(i as int), event),
                    ..start
                }),
                self.metadata == old(self).metadata,
            decreases ids@.len() - i,
        {
            let id = ids[i];
            if let Some(hook) = self.hooks.get(id) {
                let _ = offer(&hook.tx, event);
                proof {
                    self.trace@ = self.trace@.push(Effect::Sent { hook: id, event });
                }
            }
            proof {
                assert(ids@.take(i as int + 1) =~= ids@.take(i as int).push(id));
                assert(sent_to(ids@.take(i as int + 1), event) =~= sent_to(
                    ids@.take(i as int),
                    event,
                ).push(Effect::Sent { hook: id, event }));
                assert(start.trace + sent_to(ids@.take(i as int + 1), event) =~= (start.trace
                    + sent_to(ids@.take(i as int), event)).push(Effect::Sent { hook: id, event }));
            }
            i += 1;
        }
        proof {
            assert(ids@.take(i as int) =~= ids@);
        }
    }

    /// The first pass of a sweep: takes every reference to the hook or
    /// listener `id` out of every record, and tells each connection that
    /// `id` held to close.
    fn detach_all(&mut self, id: usize)
        ensures
            final(self)@ == (RegistryView {
                peers: detached_all(old(self)@.peers, id),
                trace: old(self)@.trace + closings(old(self)@.peers, id),
                ..old(self)@
            }),
    {
        let ghost start = self@;
        let mut i: usize = 0;
        proof {
            assert(start.peers.take(0) =~= Seq::<PeerView>::empty());
            assert(start.trace + closings(start.peers.take(0), id) =~= start.trace);
        }
        while i < self.peers.len()
            invariant
                i <= self.peers@.len(),
                self.peers@.len() == start.peers.len(),
                forall|j: int| 0 <= j < i ==> (#[trigger] self.peers@[j])@ == start.peers[j].detached(id),
                forall|j: int|
                    i <= j < self.peers@.len() ==> (#[trigger] self.peers@[j])@ == start.peers[j],
                self@ == (RegistryView {
                    peers: self@.peers,
                    trace: start.trace + closings(start.peers.take(i as int), id),
                    ..start
                }),
            decreases self.peers@.len() - i,
        {
            let ghost before = self.peers@;
            let peer = &mut self.peers[i];
            let closed = peer.detach(id);
            proof {
                let done = start.peers.take(i as int);
                let next = start.peers.take(i as int + 1);
                assert(next.drop_last() =~= done);
                assert(next.last() == start.peers[i as int]);
                if closed {
                    self.trace@ = self.trace@.push(
                        Effect::Closed { listener: id, peer: start.peers[i as int].identity },
                    );
                    assert(start.trace + closings(next, id) =~= (start.trace + closings(
                        done,
                        id,
                    )).push(Effect::Closed { listener: id, peer: start.peers[i as int].identity }));
                }
                assert forall|j: int| 0 <= j < i + 1 implies (#[trigger] self.peers@[j])@
                    == start.peers[j].detached(id) by {
                    if j < i {
                        assert(self.peers@[j] == before[j]);
                    }
                }
                assert forall|j: int| i + 1 <= j < self.peers@.len() implies (
                #[trigger] self.peers@[j])@ == start.peers[j] by {
                    assert(self.peers@[j] == before[j]);
                }
            }
            i += 1;
        }
        proof {
            assert(start.peers.take(i as int) =~= start.peers);
            assert(self@.peers =~= detached_all(start.peers, id));
        }
    }

    /// The second pass of a sweep: takes out the records that nothing
    /// keeps.
    fn prune(&mut self)
        ensures
            final(self)@ == (RegistryView { peers: pruned(old(self)@.peers), ..old(self)@ }),
    {
        let ghost start = self@;
        let mut i: usize = self.peers.len();
        proof {
            assert(start.peers.skip(i as int) =~= Seq::<PeerView>::empty());
            assert(start.peers.take(i as int) =~= start.peers);
            assert(start.peers + pruned(Seq::<PeerView>::empty()) =~= start.peers);
        }
        while i > 0
            invariant
                i <= start.peers.len(),
                i <= self.peers@.len(),
                self@ == (RegistryView {
                    peers: start.peers.take(i as int) + pruned(start.peers.skip(i as int)),
                    ..start
                }),
            decreases i,
        {
            i -= 1;
            let ghost before = self.peers@;
            let ghost tail = pruned(start.peers.skip(i as int + 1));
            proof {
                assert(peer_views(before)[i as int] == before[i as int]@);
                assert((start.peers.take(i as int + 1) + tail)[i as int] == start.peers[i as int]);
                assert(start.peers.skip(i as int).skip(1) =~= start.peers.skip(i as int + 1));
                assert(start.peers.skip(i as int)[0] == start.peers[i as int]);
            }
            if self.peers[i].is_orphaned() {
                let _ = self.peers.remove(i);
                proof {
                    assert(peer_views(before.remove(i as int)) =~= peer_views(before).remove(
                        i as int,
                    ));
                    assert((start.peers.take(i as int + 1) + tail).remove(i as int)
                        =~= start.peers.take(i as int) + tail);
                }
            } else {
                proof {
                    assert(start.peers.take(i as int + 1) + tail =~= start.peers.take(i as int) + (
                    seq![start.peers[i as int]] + tail));
                }
            }
        }
        proof {
            assert(start.peers.skip(0) =~= start.peers);
            assert(start.peers.take(0) + pruned(start.peers) =~= pruned(start.peers));
        }
    }

    /// Unregisters the hook `id`. Where no such hook is registered, nothing
    /// happens. Else the hook is told to shut down and leaves the registry;
    /// if it was a listener, the remaining hooks are told; every connection
    /// that it held is told to close; and the peers that nothing keeps any
    /// more are taken out.
    pub fn unregister_hook(&mut self, id: HookId)
        requires
            old(self).wf(),
        ensures
            final(self)@ == old(self)@.without_hook(id.0),
            final(self).wf(),
    {
        let ghost start = self@;
        proof {
            start.lemma_without_hook_wf(id.0);
        }
        if !self.hooks.has(id.0) {
            return ;
        }
        let removed = self.hooks.remove(id.0);
        proof {
            assert(hook_views(slots(self.hooks)) =~= start.hooks.remove(id.0));
        }
        if let Some(hook) = removed {
            let _ = offer(&hook.tx, HookEvent::Shutdown);
            proof {
                self.trace@ = self.trace@.push(
                    Effect::Sent { hook: id.0, event: HookEvent::Shutdown },
                );
            }
            if hook.listener.is_some() {
                self.broadcast(HookEvent::ListenerUnregistered(ListenerId(id.0)));
            }
            self.detach_all(id.0);
            self.prune();
            proof {
                assert(self@.trace =~= start.without_hook(id.0).trace);
            }
        }
    }

    /// Shuts the registry down: unregisters every hook, in the order of the
    /// slots. Nothing waits for the hooks to finish their own work.
    pub fn shutdown(&mut self)
        requires
            old(self).wf(),
        ensures
            final(self)@ == old(self)@.shut_down(),
            final(self).wf(),
    {
        let ids = self.hook_ids();
        let ghost start = self@;
        let mut i: usize = 0;
        proof {
            assert(ids@.skip(0) =~= ids@);
        }
        while i < ids.len()
            invariant
                i <= ids@.len(),
                self.wf(),
                self@.without_hooks(ids@.skip(i as int)) == start.shut_down(),
            decreases ids@.len() - i,
        {
            proof {
                assert(ids@.skip(i as int)[0] == ids@[i as int]);
                assert(ids@.skip(i as int).skip(1) =~= ids@.skip(i as int + 1));
            }
            self.unregister_hook(HookId(ids[i]));
            i += 1;
        }
    }

    /// Whether another hook or listener can be registered: the slots are
    /// never given twice, and there are [`SLOT_LIMIT`] of them.
    pub fn can_register(&self) -> (yes: bool)
        ensures
            yes == (self@.next_hook < SLOT_LIMIT),
    {
        self.hooks.next_index() < SLOT_LIMIT
    }

    /// Puts `hook` into the next slot.
    fn install(&mut self, hook: Hook) -> (id: usize)
        requires
            old(self).wf(),
            old(self)@.next_hook < SLOT_LIMIT,
            hook@.addrs().no_duplicates(),
        ensures
            id == old(self)@.next_hook,
            final(self)@ == old(self)@.with_hook(hook@),
            final(self).wf(),
    {
        let ghost start = self@;
        let id = self.hooks.push(hook);
        proof {
            assert(hook_views(slots(self.hooks)) =~= start.hooks.insert(id, hook@));
            start.lemma_with_hook_wf(hook@);
        }
        id
    }

    /// Registers a hook, which from now on is told of everything that
    /// happens in the registry, through `tx`. The hook gets a slot of its
    /// own, and the result names it.
    pub fn register_hook(
        &mut self,
        name: &'static str,
        tx: tokio::sync::mpsc::Sender<HookEvent>,
    ) -> (id: HookId)
        requires
            old(self).wf(),
            old(self)@.next_hook < SLOT_LIMIT,
        ensures
            id.0 == old(self)@.next_hook,
            final(self)@ == old(self)@.with_hook(HookView { name, tx, listener: None }),
            final(self).wf(),
    {
        HookId(self.install(Hook { name, tx, listener: None }))
    }

    /// Registers a listener: a hook that also accepts connections. It has
    /// no address yet; `acceptor` is called for each peer that is
    /// discovered from now on.
    pub fn register_listener(
        &mut self,
        name: &'static str,
        tx: tokio::sync::mpsc::Sender<HookEvent>,
        acceptor: HandlerFn,
    ) -> (id: ListenerId)
        requires
            old(self).wf(),
            old(self)@.next_hook < SLOT_LIMIT,
        ensures
            id.0 == old(self)@.next_hook,
            final(self)@ == old(self)@.with_hook(
                HookView {
                    name,
                    tx,
                    listener: Some(ListenerView { addrs: Seq::empty(), acceptor }),
                },
            ),
            final(self).wf(),
    {
        let data = ListenerData { addrs: Vec::new(), acceptor };
        proof {
            assert(data@.addrs =~= Seq::<SocketAddress>::empty());
        }
        ListenerId(self.install(Hook { name, tx, listener: Some(data) }))
    }

    /// Records that the listener `listener_id` is reachable at `addr`, and
    /// tells every hook, the listener among them. Where `listener_id` names
    /// no listener there is nothing to keep the address, and the hooks are
    /// told all the same.
    pub fn register_listener_addr(&mut self, listener_id: ListenerId, addr: SocketAddress)
        requires
            old(self).wf(),
        ensures
            final(self)@ == old(self)@.with_listener_addr(listener_id.0, addr),
            final(self).wf(),
    {
        let ghost start = self@;
        let ghost target = start.with_listener_addr(listener_id.0, addr);
        if let Some(hook) = self.hooks.get_mut(listener_id.0) {
            if let Some(data) = &mut hook.listener {
                if position(&data.addrs, addr).is_none() {
                    data.addrs.push(addr);
                }
            }
        }
        proof {
            assert(self@.hooks =~= target.hooks);
            start.lemma_with_listener_addr_wf(listener_id.0, addr);
            lemma_ids_of_same_slots(start.hooks, target.hooks, start.next_hook);
        }
        self.broadcast(HookEvent::ListenerRegistered { id: listener_id, addr });
    }

    /// Records that the listener `listener_id` gave up `addr`, and tells
    /// every hook.
    pub fn unregister_listener_addr(&mut self, listener_id: ListenerId, addr: SocketAddress)
        requires
            old(self).wf(),
        ensures
            final(self)@ == old(self)@.without_listener_addr(listener_id.0, addr),
            final(self).wf(),
    {
        let ghost start = self@;
        let ghost target = start.without_listener_addr(listener_id.0, addr);
        if let Some(hook) = self.hooks.get_mut(listener_id.0) {
            if let Some(data) = &mut hook.listener {
                if let Some(i) = position(&data.addrs, addr) {
                    let _ = data.addrs.remove(i);
                }
            }
        }
        proof {
            assert(self@.hooks =~= target.hooks);
            start.lemma_without_listener_addr_wf(listener_id.0, addr);
            lemma_ids_of_same_slots(start.hooks, target.hooks, start.next_hook);
        }
        self.broadcast(HookEvent::ListenerUnregistered(listener_id));
    }

    /// The metadata of the local node as the value that the registry holds.
    pub closed spec fn held_metadata(&self) -> Metadata {
        self.metadata
    }

    /// Changes the metadata of the local node: `change` gets the metadata
    /// and hands back what it shall be. The result is the difference between
    /// the two. If anything differs, every hook is told once that the
    /// metadata was modified; if nothing does, nobody is told.
    pub fn metadata_mut<F: FnOnce(Metadata) -> Metadata>(&mut self, change: F) -> (diff:
        MetadataDiff)
        requires
            old(self).wf(),
            change.requires((old(self).held_metadata(),)),
        ensures
            change.ensures((old(self).held_metadata(),), final(self).held_metadata()),
            old(self).held_metadata()@ == old(self)@.metadata,
            final(self).held_metadata()@ == final(self)@.metadata,
            final(self)@ == old(self)@.with_metadata(final(self).held_metadata()@),
            final(self).wf(),
            diff.updated@ == updated_entries(old(self)@.metadata, final(self)@.metadata),
            diff.removed@ == removed_entries(old(self)@.metadata, final(self)@.metadata),
            diff.is_empty() <==> final(self)@.metadata == old(self)@.metadata,
    {
        let ghost start = self@;
        let before = self.metadata.clone();
        let mut held = Metadata::new();
        std::mem::swap(&mut held, &mut self.metadata);
        let after = change(held);
        let difference = diff(&before, &after);
        self.metadata = after;
        proof {
            assert(self@.hooks == start.hooks);
        }
        if !difference.is_empty() {
            self.broadcast(HookEvent::MetadataModified);
        }
        difference
    }

    /// Where the record for `identity` stands, if there is one.
    fn find_peer(&self, identity: RemoteIdentity) -> (found: Option<usize>)
        ensures
            match found {
                Some(i) => i < self@.peers.len() && self@.peers[i as int].identity == identity,
                None => !self@.knows(identity),
            },
    {
        let mut i: usize = 0;
        while i < self.peers.len()
            invariant
                i <= self.peers@.len(),
                forall|j: int| 0 <= j < i ==> (#[trigger] self@.peers[j]).identity != identity,
            decreases self.peers@.len() - i,
        {
            if self.peers[i].identity() == identity {
                return Some(i);
            }
            i += 1;
        }
        None
    }

    /// The record for `identity`, if the registry knows the peer.
    pub fn peer(&self, identity: RemoteIdentity) -> (peer: Option<&Peer>)
        requires
            self.wf(),
        ensures
            match peer {
                Some(peer) => self@.knows(identity) && peer@ == self@.peer(identity),
                None => !self@.knows(identity),
            },
    {
        match self.find_peer(identity) {
            Some(i) => {
                proof {
                    self@.lemma_index_of(i as int);
                }
                Some(&self.peers[i])
            },
            None => None,
        }
    }

    /// Where the record for `identity` stands, after one was made at the end
    /// if there was none, and whether one was made.
    fn find_or_create_peer(&mut self, identity: RemoteIdentity) -> (found: (usize, bool))
        requires
            old(self).wf(),
        ensures
            found.0 < final(self).peers@.len(),
            found.0 == if old(self)@.knows(identity) {
                index_of(old(self)@.peers, identity)
            } else {
                old(self)@.peers.len() as int
            },
            found.1 == !old(self)@.knows(identity),
            final(self)@ == (RegistryView {
                peers: old(self)@.peers_with(identity, old(self)@.peer_or_fresh(identity)),
                ..old(self)@
            }),
    {
        let ghost start = self@;
        match self.find_peer(identity) {
            Some(i) => {
                proof {
                    start.lemma_index_of(i as int);
                    assert(start.peers.update(i as int, start.peers[i as int]) =~= start.peers);
                }
                (i, false)
            },
            None => {
                self.peers.push(Peer::new(identity));
                proof {
                    assert(peer_views(self.peers@) =~= start.peers.push(PeerView::fresh(identity)));
                }
                (self.peers.len() - 1, true)
            },
        }
    }

    /// Calls the acceptor of every registered listener, in the order of the
    /// slots, with the peer at position `at` and with `addrs`.
    fn call_acceptors(&mut self, at: usize, addrs: &Vec<SocketAddress>)
        requires
            old(self)@.hooks_wf(),
            at < old(self)@.peers.len(),
        ensures
            final(self)@ == (RegistryView {
                trace: old(self)@.trace + old(self)@.accepts(
                    old(self)@.peers[at as int].identity,
                    addrs@,
                ),
                ..old(self)@
            }),
    {
        let ids = self.hook_ids();
        let ghost start = self@;
        let ghost identity = start.peers[at as int].identity;
        let mut i: usize = 0;
        proof {
            assert(ids@.take(0) =~= Seq::<usize>::empty());
            assert(start.trace + accepted_by(start.hooks, ids@.take(0), identity, addrs@)
                =~= start.trace);
        }
        while i < ids.len()
            invariant
                i <= ids@.len(),
                at < self.peers@.len(),
                ids@ == start.hook_ids(),
                identity == start.peers[at as int].identity,
                forall|j: int|
                    0 <= j < ids@.len() ==> slots(self.hooks).contains_key(#[trigger] ids@[j]),
                self@ == (RegistryView {
                    trace: start.trace + accepted_by(
                        start.hooks,
                        ids@.take(i as int),
                        identity,
                        addrs@,
                    ),
                    ..start
                }),
            decreases ids@.len() - i,
        {
            let id = ids[i];
            let ghost done = ids@.take(i as int);
            let ghost next = ids@.take(i as int + 1);
            proof {
                assert(next.drop_last() =~= done);
                assert(next.last() == id);
                assert(start.hooks[id] == slots(self.hooks)[id]@);
            }
            if let Some(hook) = self.hooks.get(id) {
                if let Some(data) = &hook.listener {
                    data.acceptor.call(&self.peers[at], addrs);
                    proof {
                        self.trace@ = self.trace@.push(
                            Effect::Accepted { listener: id, peer: identity, addrs: addrs@ },
                        );
                        assert(start.trace + accepted_by(start.hooks, next, identity, addrs@) =~= (
                        start.trace + accepted_by(start.hooks, done, identity, addrs@)).push(
                            Effect::Accepted { listener: id, peer: identity, addrs: addrs@ },
                        ));
                    }
                }
            }
            i += 1;
        }
        proof {
            assert(ids@.take(i as int) =~= ids@);
        }
    }

    /// Tells every hook that the peer `identity` entered, if `created`.
    fn announce(&mut self, identity: RemoteIdentity, created: bool)
        requires
            old(self)@.hooks_wf(),
        ensures
            final(self)@ == (RegistryView {
                trace: old(self)@.trace + if created {
                    old(self)@.broadcast(HookEvent::PeerAvailable(identity))
                } else {
                    Seq::empty()
                },
                ..old(self)@
            }),
    {
        if created {
            self.broadcast(HookEvent::PeerAvailable(identity));
        } else {
            proof {
                assert(self@.trace + Seq::<Effect>::empty() =~= self@.trace);
            }
        }
    }

    /// Reports that the hook `hook_id` discovered the peer `identity`, with
    /// `metadata`, at the addresses `addrs`. The registry makes a record for
    /// the peer if it has none, names the hook as a discoverer in it, and
    /// merges `metadata` into the peer's own, key by key. Then it calls the
    /// acceptor of every listener; tells every hook that the peer is
    /// available, if the record is new; and tells every hook who discovered
    /// the peer. The result is the peer's record.
    pub fn discover_peer(
        &mut self,
        hook_id: HookId,
        identity: RemoteIdentity,
        metadata: Metadata,
        addrs: Vec<SocketAddress>,
    ) -> (peer: &Peer)
        requires
            old(self).wf(),
        ensures
            final(self)@ == old(self)@.with_discovery(hook_id.0, identity, metadata@, addrs@),
            final(self).wf(),
            final(self)@.knows(identity),
            peer@ == final(self)@.peer(identity),
    {
        let ghost start = self@;
        let ghost target = start.with_discovery(hook_id.0, identity, metadata@, addrs@);
        let (at, created) = self.find_or_create_peer(identity);
        let ghost made = self@;
        let record = &mut self.peers[at];
        record.note_discovery(hook_id.0, metadata);
        proof {
            start.lemma_with_discovery_wf(hook_id.0, identity, metadata@, addrs@);
            assert(self@.peers =~= target.peers) by {
                assert(self@.peers =~= made.peers.update(
                    at as int,
                    made.peers[at as int].discovered_by(hook_id.0, metadata@),
                ));
            }
        }
        self.call_acceptors(at, &addrs);
        self.announce(identity, created);
        self.broadcast(HookEvent::PeerDiscoveredBy(hook_id, identity));
        proof {
            assert(self@.trace =~= target.trace);
            RegistryView { trace: start.trace, ..target }.lemma_index_of(at as int);
        }
        &self.peers[at]
    }

    /// Reports that the listener `listener` is connected to the peer
    /// `identity`, which announced `metadata`; `shutdown_tx` is the signal
    /// that closes the connection. The registry makes a record for the peer
    /// if it has none, keeps the signal under the listener, names the
    /// listener as a connection method, and merges `metadata`. Then it tells
    /// every hook that the peer is available, if the record is new, and
    /// tells every hook of the connection. The result is the peer's record.
    pub fn connected_to(
        &mut self,
        listener: ListenerId,
        identity: RemoteIdentity,
        metadata: Metadata,
        shutdown_tx: tokio::sync::oneshot::Sender<()>,
    ) -> (peer: &Peer)
        requires
            old(self).wf(),
        ensures
            final(self)@ == old(self)@.with_connection(
                listener.0,
                identity,
                metadata@,
                shutdown_tx,
            ),
            final(self).wf(),
            final(self)@.knows(identity),
            peer@ == final(self)@.peer(identity),
    {
        let ghost start = self@;
        let ghost target = start.with_connection(listener.0, identity, metadata@, shutdown_tx);
        let (at, created) = self.find_or_create_peer(identity);
        let ghost made = self@;
        let record = &mut self.peers[at];
        record.note_connection(listener.0, metadata, shutdown_tx);
        proof {
            start.lemma_with_connection_wf(listener.0, identity, metadata@, shutdown_tx);
            assert(self@.peers =~= target.peers) by {
                assert(self@.peers =~= made.peers.update(
                    at as int,
                    made.peers[at as int].connected_with(listener.0, metadata@, shutdown_tx),
                ));
            }
        }
        self.announce(identity, created);
        self.broadcast(HookEvent::PeerConnectedWith(listener, identity));
        proof {
            assert(self@.trace =~= target.trace);
            RegistryView { trace: start.trace, ..target }.lemma_index_of(at as int);
        }
        &self.peers[at]
    }

    /// The registered listeners, in the order of the slots: each with its
    /// slot, its name and its addresses.
    pub fn listeners(&self) -> (listeners: Vec<Listener>)
        requires
            self.wf(),
        ensures
            listeners@.len() == self@.listener_ids().len(),
            forall|k: int|
                0 <= k < listeners@.len() ==> {
                    let id = self@.listener_ids()[k];
                    &&& (#[trigger] listeners@[k]).id == ListenerId(id)
                    &&& listeners@[k].name == self@.hooks[id].name
                    &&& listeners@[k].addrs@ == self@.hooks[id].addrs()
                },
    {
        let ids = self.hook_ids();
        let ghost hooks = self@.hooks;
        let mut listeners: Vec<Listener> = Vec::new();
        let mut i: usize = 0;
        proof {
            assert(ids@.take(0) =~= Seq::<usize>::empty());
        }
        while i < ids.len()
            invariant
                i <= ids@.len(),
                hooks == self@.hooks,
                forall|j: int|
                    0 <= j < ids@.len() ==> slots(self.hooks).contains_key(#[trigger] ids@[j]),
                listeners@.len() == listeners_among(hooks, ids@.take(i as int)).len(),
                forall|k: int|
                    0 <= k < listeners@.len() ==> {
                        let id = listeners_among(hooks, ids@.take(i as int))[k];
                        &&& (#[trigger] listeners@[k]).id == ListenerId(id)
                        &&& listeners@[k].name == hooks[id].name
                        &&& listeners@[k].addrs@ == hooks[id].addrs()
                    },
            decreases ids@.len() - i,
        {
            let id = ids[i];
            let ghost done = ids@.take(i as int);
            let ghost next = ids@.take(i as int + 1);
            let ghost before = listeners@;
            proof {
                assert(next.drop_last() =~= done);
                assert(next.last() == id);
                assert(hooks[id] == slots(self.hooks)[id]@);
            }
            if let Some(hook) = self.hooks.get(id) {
                if let Some(data) = &hook.listener {
                    let addrs = copy_addrs(&data.addrs);
                    listeners.push(Listener { id: ListenerId(id), name: hook.name, addrs });
                    proof {
                        assert forall|k: int| 0 <= k < listeners@.len() implies {
                            let lid = listeners_among(hooks, next)[k];
                            &&& (#[trigger] listeners@[k]).id == ListenerId(lid)
                            &&& listeners@[k].name == hooks[lid].name
                            &&& listeners@[k].addrs@ == hooks[lid].addrs()
                        } by {
                            if k < before.len() {
                                assert(listeners@[k] == before[k]);
                                assert(listeners_among(hooks, next)[k] == listeners_among(
                                    hooks,
                                    done,
                                )[k]);
                            }
                        }
                    }
                }
            }
            i += 1;
        }
        proof {
            assert(ids@.take(i as int) =~= ids@);
        }
        listeners
    }
}

} // verus!
