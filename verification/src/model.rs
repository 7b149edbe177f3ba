//! The registry as a mathematical value, and what each operation makes of
//! it. The operations of [`crate::registry::P2P`] are stated against the
//! functions of this file.

use vstd::prelude::*;
use crate::address::SocketAddress;
use crate::hooks::{HookEvent, HookId, HookView, ListenerId};
use crate::identity::{Identity, RemoteIdentity};
use crate::name::valid_app_name;
use crate::peer::PeerView;
use crate::slots::{ascending, SLOT_LIMIT};

verus! {

/// Something that the registry did to the outside.
pub enum Effect {
    /// `event` was offered to the queue of the hook in slot `hook`.
    Sent { hook: usize, event: HookEvent },
    /// The acceptor of the listener in slot `listener` was called with the
    /// peer `peer` and the addresses `addrs`.
    Accepted { listener: usize, peer: RemoteIdentity, addrs: Seq<SocketAddress> },
    /// The connection that `listener` held to `peer` was told to close.
    Closed { listener: usize, peer: RemoteIdentity },
}

/// The slots below `bound` that `hooks` fills, in ascending order.
pub open spec fn ids_below(hooks: Map<usize, HookView>, bound: nat) -> Seq<usize>
    decreases bound,
{
    if bound == 0 {
        Seq::empty()
    } else {
        let id = (bound - 1) as usize;
        let before = ids_below(hooks, (bound - 1) as nat);
        if hooks.contains_key(id) {
            before.push(id)
        } else {
            before
        }
    }
}

/// `ids_below` lists exactly the filled slots below the bound, in strictly
/// ascending order.
pub proof fn lemma_ids_below(hooks: Map<usize, HookView>, bound: nat)
    requires
        bound <= usize::MAX,
    ensures
        ascending(ids_below(hooks, bound)),
        forall|id: usize| #[trigger]
            ids_below(hooks, bound).contains(id) ==> hooks.contains_key(id) && id < bound,
        forall|id: usize| #[trigger]
            hooks.contains_key(id) && id < bound ==> ids_below(hooks, bound).contains(id),
    decreases bound,
{
    let ids = ids_below(hooks, bound);
    if bound == 0 {
        assert(ids =~= Seq::<usize>::empty());
        assert forall|id: usize| !ids.contains(id) by {
            if ids.contains(id) {
                let i = choose|i: int| 0 <= i < ids.len() && ids[i] == id;
            }
        }
    } else {
        let id = (bound - 1) as usize;
        let before = ids_below(hooks, (bound - 1) as nat);
        lemma_ids_below(hooks, (bound - 1) as nat);
        if hooks.contains_key(id) {
            assert(ids == before.push(id));
            assert(ids.len() == before.len() + 1);
            assert(ids[before.len() as int] == id);
            assert forall|i: int| 0 <= i < before.len() implies ids[i] == before[i]
                && before.contains(#[trigger] ids[i]) by {
                assert(before[i] == ids[i]);
            }
            assert forall|other: usize| ids.contains(other) implies hooks.contains_key(other)
                && other < bound by {
                let i = choose|i: int| 0 <= i < ids.len() && ids[i] == other;
                if i < before.len() {
                    assert(before.contains(ids[i]));
                }
            }
            assert forall|other: usize| hooks.contains_key(other) && other < bound implies ids.contains(
                other,
            ) by {
                if other == id {
                    assert(ids[before.len() as int] == other);
                } else {
                    assert(other < bound - 1);
                    assert(before.contains(other));
                    let i = choose|i: int| 0 <= i < before.len() && before[i] == other;
                    assert(ids[i] == other);
                }
            }
            assert forall|i: int, j: int| 0 <= i < j < ids.len() implies ids[i] < ids[j] by {
                if j == before.len() {
                    assert(before.contains(ids[i]));
                    assert(ids[i] < bound - 1);
                } else {
                    assert(before[i] == ids[i] && before[j] == ids[j]);
                }
            }
        } else {
            assert(ids == before);
            assert forall|other: usize| hooks.contains_key(other) && other < bound implies ids.contains(
                other,
            ) by {
                assert(other != id);
                assert(other < bound - 1);
            }
        }
    }
}

/// Which slots are filled decides the listing, not what fills them.
pub proof fn lemma_ids_of_same_slots(a: Map<usize, HookView>, b: Map<usize, HookView>, bound: nat)
    requires
        forall|id: usize| a.contains_key(id) <==> b.contains_key(id),
    ensures
        ids_below(a, bound) == ids_below(b, bound),
    decreases bound,
{
    if bound > 0 {
        lemma_ids_of_same_slots(a, b, (bound - 1) as nat);
    }
}

/// Two strictly ascending sequences with the same elements are the same
/// sequence.
pub proof fn lemma_ascending_unique(a: Seq<usize>, b: Seq<usize>)
    requires
        ascending(a),
        ascending(b),
        forall|id: usize| a.contains(id) <==> b.contains(id),
    ensures
        a == b,
    decreases a.len(),
{
    if a.len() == 0 {
        if b.len() > 0 {
            assert(b.contains(b[0]));
        }
        assert(a =~= b);
    } else {
        assert(a.contains(a.last()));
        assert(b.contains(a.last()));
        assert(b.len() > 0);
        assert(b.contains(b.last()));
        assert(a.contains(b.last()));
        let i = choose|i: int| 0 <= i < b.len() && b[i] == a.last();
        let j = choose|j: int| 0 <= j < a.len() && a[j] == b.last();
        assert(a.last() == b.last());
        let a0 = a.drop_last();
        let b0 = b.drop_last();
        assert forall|id: usize| a0.contains(id) <==> b0.contains(id) by {
            if a0.contains(id) {
                let k = choose|k: int| 0 <= k < a0.len() && a0[k] == id;
                assert(a[k] == id);
                assert(a.contains(id));
                let m = choose|m: int| 0 <= m < b.len() && b[m] == id;
                assert(m < b.len() - 1);
                assert(b0[m] == id);
            }
            if b0.contains(id) {
                let k = choose|k: int| 0 <= k < b0.len() && b0[k] == id;
                assert(b[k] == id);
                assert(b.contains(id));
                let m = choose|m: int| 0 <= m < a.len() && a[m] == id;
                assert(m < a.len() - 1);
                assert(a0[m] == id);
            }
        }
        lemma_ascending_unique(a0, b0);
        assert(a =~= a0.push(a.last()));
        assert(b =~= b0.push(b.last()));
    }
}

/// `event`, offered to each hook of `ids` in turn.
pub open spec fn sent_to(ids: Seq<usize>, event: HookEvent) -> Seq<Effect> {
    ids.map_values(|id: usize| Effect::Sent { hook: id, event })
}

/// The calls of the acceptors of the listeners among `ids`, in turn, each
/// with `peer` and `addrs`.
pub open spec fn accepted_by(
    hooks: Map<usize, HookView>,
    ids: Seq<usize>,
    peer: RemoteIdentity,
    addrs: Seq<SocketAddress>,
) -> Seq<Effect>
    decreases ids.len(),
{
    if ids.len() == 0 {
        Seq::empty()
    } else {
        let before = accepted_by(hooks, ids.drop_last(), peer, addrs);
        if hooks[ids.last()].is_listener() {
            before.push(Effect::Accepted { listener: ids.last(), peer, addrs })
        } else {
            before
        }
    }
}

/// The listeners among `ids`, in their order.
pub open spec fn listeners_among(hooks: Map<usize, HookView>, ids: Seq<usize>) -> Seq<usize>
    decreases ids.len(),
{
    if ids.len() == 0 {
        Seq::empty()
    } else {
        let before = listeners_among(hooks, ids.drop_last());
        if hooks[ids.last()].is_listener() {
            before.push(ids.last())
        } else {
            before
        }
    }
}

/// Whether `peers` holds a record for `identity`.
pub open spec fn knows(peers: Seq<PeerView>, identity: RemoteIdentity) -> bool {
    exists|i: int| 0 <= i < peers.len() && (#[trigger] peers[i]).identity == identity
}

/// The position of the record for `identity`.
pub open spec fn index_of(peers: Seq<PeerView>, identity: RemoteIdentity) -> int {
    choose|i: int| 0 <= i < peers.len() && (#[trigger] peers[i]).identity == identity
}

/// No identity has two records.
pub open spec fn distinct_peers(peers: Seq<PeerView>) -> bool {
    forall|i: int, j: int|
        0 <= i < peers.len() && 0 <= j < peers.len() && i != j ==> (#[trigger] peers[i]).identity
            != (#[trigger] peers[j]).identity
}

/// Each record without any reference to the hook or listener `id`.
pub open spec fn detached_all(peers: Seq<PeerView>, id: usize) -> Seq<PeerView> {
    peers.map_values(|peer: PeerView| peer.detached(id))
}

/// The records that something still keeps, in their order.
pub open spec fn pruned(peers: Seq<PeerView>) -> Seq<PeerView>
    decreases peers.len(),
{
    if peers.len() == 0 {
        Seq::empty()
    } else if peers[0].orphaned() {
        pruned(peers.skip(1))
    } else {
        seq![peers[0]] + pruned(peers.skip(1))
    }
}

/// Pruning keeps the records that something keeps, and only records that
/// were there; if no identity had two records before, none has after.
pub proof fn lemma_pruned(peers: Seq<PeerView>)
    ensures
        forall|i: int| 0 <= i < pruned(peers).len() ==> !(#[trigger] pruned(peers)[i]).orphaned(),
        forall|i: int| 0 <= i < pruned(peers).len() ==> peers.contains(#[trigger] pruned(peers)[i]),
        forall|i: int|
            0 <= i < peers.len() && !(#[trigger] peers[i]).orphaned() ==> pruned(peers).contains(
                peers[i],
            ),
        distinct_peers(peers) ==> distinct_peers(pruned(peers)),
        pruned(peers).len() <= peers.len(),
    decreases peers.len(),
{
    if peers.len() > 0 {
        let rest = peers.skip(1);
        lemma_pruned(rest);
        let kept = pruned(peers);
        let kept_rest = pruned(rest);
        assert forall|i: int| 0 <= i < kept_rest.len() implies peers.contains(
            #[trigger] kept_rest[i],
        ) by {
            assert(rest.contains(kept_rest[i]));
            let j = choose|j: int| 0 <= j < rest.len() && rest[j] == kept_rest[i];
            assert(peers[j + 1] == kept_rest[i]);
        }
        if peers[0].orphaned() {
            assert(kept == kept_rest);
            assert forall|i: int| 0 <= i < peers.len() && !(#[trigger] peers[i]).orphaned() implies kept.contains(
                peers[i],
            ) by {
                assert(rest[i - 1] == peers[i]);
            }
        } else {
            assert(kept == seq![peers[0]] + kept_rest);
            assert(kept[0] == peers[0]);
            assert forall|i: int| 0 <= i < kept.len() implies !(#[trigger] kept[i]).orphaned()
                && peers.contains(kept[i]) by {
                if i > 0 {
                    assert(kept[i] == kept_rest[i - 1]);
                } else {
                    assert(peers[0] == kept[0]);
                }
            }
            assert forall|i: int| 0 <= i < peers.len() && !(#[trigger] peers[i]).orphaned() implies kept.contains(
                peers[i],
            ) by {
                if i > 0 {
                    assert(rest[i - 1] == peers[i]);
                    assert(kept_rest.contains(peers[i]));
                    let k = choose|k: int| 0 <= k < kept_rest.len() && kept_rest[k] == peers[i];
                    assert(kept[k + 1] == peers[i]);
                }
            }
        }
        if distinct_peers(peers) {
            assert(distinct_peers(rest)) by {
                assert forall|i: int, j: int|
                    0 <= i < rest.len() && 0 <= j < rest.len() && i != j implies (
                #[trigger] rest[i]).identity != (#[trigger] rest[j]).identity by {
                    assert(rest[i] == peers[i + 1] && rest[j] == peers[j + 1]);
                }
            }
            if !peers[0].orphaned() {
                assert forall|i: int, j: int|
                    0 <= i < kept.len() && 0 <= j < kept.len() && i != j implies (
                #[trigger] kept[i]).identity != (#[trigger] kept[j]).identity by {
                    if i > 0 && j > 0 {
                        assert(kept[i] == kept_rest[i - 1] && kept[j] == kept_rest[j - 1]);
                    } else {
                        let other = if i == 0 { j } else { i };
                        assert(kept[other] == kept_rest[other - 1]);
                        assert(rest.contains(kept_rest[other - 1]));
                        let k = choose|k: int| 0 <= k < rest.len() && rest[k] == kept_rest[other - 1];
                        assert(peers[k + 1] == kept[other]);
                    }
                }
            }
        }
    }
}

/// The connections that `id` holds as a listener, each told to close, in
/// the order of the records.
pub open spec fn closings(peers: Seq<PeerView>, id: usize) -> Seq<Effect>
    decreases peers.len(),
{
    if peers.len() == 0 {
        Seq::empty()
    } else {
        let before = closings(peers.drop_last(), id);
        if peers.last().active_connections.contains_key(id) {
            before.push(Effect::Closed { listener: id, peer: peers.last().identity })
        } else {
            before
        }
    }
}

/// How many connections the records hold open, all in all.
pub open spec fn open_connections(peers: Seq<PeerView>) -> nat
    decreases peers.len(),
{
    if peers.len() == 0 {
        0
    } else {
        open_connections(peers.drop_last()) + peers.last().active_connections.dom().len()
    }
}

/// Whether `effect` tells a hook to shut down.
pub open spec fn is_shutdown(effect: Effect) -> bool {
    effect matches Effect::Sent { event, .. } && event == HookEvent::Shutdown
}

/// Whether `effect` tells a connection to close.
pub open spec fn is_closing(effect: Effect) -> bool {
    effect is Closed
}

/// How many effects of `trace` tell a hook to shut down.
pub open spec fn shutdowns(trace: Seq<Effect>) -> nat
    decreases trace.len(),
{
    if trace.len() == 0 {
        0
    } else if is_shutdown(trace.last()) {
        shutdowns(trace.drop_last()) + 1
    } else {
        shutdowns(trace.drop_last())
    }
}

/// How many effects of `trace` tell a connection to close.
pub open spec fn closed_connections(trace: Seq<Effect>) -> nat
    decreases trace.len(),
{
    if trace.len() == 0 {
        0
    } else if is_closing(trace.last()) {
        closed_connections(trace.drop_last()) + 1
    } else {
        closed_connections(trace.drop_last())
    }
}

/// A position at which `addr` stands in `addrs`.
pub open spec fn addr_position(addrs: Seq<SocketAddress>, addr: SocketAddress) -> int {
    choose|i: int| 0 <= i < addrs.len() && addrs[i] == addr
}

/// `addrs` without `addr`, the others in their order.
pub open spec fn without_addr(addrs: Seq<SocketAddress>, addr: SocketAddress) -> Seq<
    SocketAddress,
> {
    if addrs.contains(addr) {
        addrs.remove(addr_position(addrs, addr))
    } else {
        addrs
    }
}

/// `addrs` with `addr`, which goes to the end if it is new.
pub open spec fn with_addr(addrs: Seq<SocketAddress>, addr: SocketAddress) -> Seq<SocketAddress> {
    if addrs.contains(addr) {
        addrs
    } else {
        addrs.push(addr)
    }
}

/// The whole state of a registry.
pub struct RegistryView {
    /// The name of the application.
    pub app_name: Seq<char>,
    /// The identity of the local node.
    pub identity: Identity,
    /// The metadata that the local node shares.
    pub metadata: Map<Seq<char>, Seq<char>>,
    /// The registered hooks, each under the number of its slot.
    pub hooks: Map<usize, HookView>,
    /// The slot that the next hook gets. Slots are never given twice.
    pub next_hook: nat,
    /// The known peers, in the order in which they entered.
    pub peers: Seq<PeerView>,
    /// Everything the registry did to the outside, oldest first.
    pub trace: Seq<Effect>,
}

impl RegistryView {
    /// A registry that holds nothing and has done nothing.
    pub open spec fn initial(app_name: Seq<char>, identity: Identity) -> RegistryView {
        RegistryView {
            app_name,
            identity,
            metadata: Map::empty(),
            hooks: Map::empty(),
            next_hook: 0,
            peers: Seq::empty(),
            trace: Seq::empty(),
        }
    }

    /// Every hook sits below the next slot, which is within the limit, and
    /// no listener has an address twice.
    pub open spec fn hooks_wf(self) -> bool {
        &&& self.next_hook <= SLOT_LIMIT
        &&& forall|id: usize| #[trigger] self.hooks.contains_key(id) ==> id < self.next_hook
        &&& forall|id: usize| #[trigger]
            self.hooks.contains_key(id) ==> self.hooks[id].addrs().no_duplicates()
    }

    /// No identity has two records, and every record is sound.
    pub open spec fn peers_wf(self) -> bool {
        &&& distinct_peers(self.peers)
        &&& forall|i: int| 0 <= i < self.peers.len() ==> (#[trigger] self.peers[i]).wf()
    }

    /// Every record is kept by something: a hook that discovered the peer,
    /// or a listener that connects it.
    pub open spec fn no_orphans(self) -> bool {
        forall|i: int| 0 <= i < self.peers.len() ==> !(#[trigger] self.peers[i]).orphaned()
    }

    /// Every hook or listener that a record refers to is registered. This
    /// holds as long as peers are reported by registered hooks only.
    pub open spec fn refers_to_hooks_only(self) -> bool {
        forall|i: int, id: usize|
            0 <= i < self.peers.len() && (#[trigger] self.peers[i]).mentions(id)
                ==> #[trigger] self.hooks.contains_key(id)
    }

    /// What holds of every registry: the name is valid, the hooks and the
    /// records are sound, and no record is an orphan.
    pub open spec fn wf(self) -> bool {
        &&& valid_app_name(self.app_name)
        &&& self.hooks_wf()
        &&& self.peers_wf()
        &&& self.no_orphans()
    }

    /// The slots of the registered hooks, in ascending order.
    pub open spec fn hook_ids(self) -> Seq<usize> {
        ids_below(self.hooks, self.next_hook)
    }

    /// `event`, offered to every registered hook, in the order of the
    /// slots.
    pub open spec fn broadcast(self, event: HookEvent) -> Seq<Effect> {
        sent_to(self.hook_ids(), event)
    }

    /// The calls of the acceptors of all registered listeners, in the order
    /// of the slots.
    pub open spec fn accepts(self, peer: RemoteIdentity, addrs: Seq<SocketAddress>) -> Seq<Effect> {
        accepted_by(self.hooks, self.hook_ids(), peer, addrs)
    }

    /// The slots of the registered listeners, in ascending order.
    pub open spec fn listener_ids(self) -> Seq<usize> {
        listeners_among(self.hooks, self.hook_ids())
    }

    /// Whether `id` is the slot of a registered listener.
    pub open spec fn is_listener(self, id: usize) -> bool {
        self.hooks.contains_key(id) && self.hooks[id].is_listener()
    }

    /// Whether the registry has a record for `identity`.
    pub open spec fn knows(self, identity: RemoteIdentity) -> bool {
        knows(self.peers, identity)
    }

    /// The record for `identity`.
    pub open spec fn peer(self, identity: RemoteIdentity) -> PeerView {
        self.peers[index_of(self.peers, identity)]
    }

    /// The registry after `hook` took the next slot.
    pub open spec fn with_hook(self, hook: HookView) -> RegistryView {
        RegistryView {
            hooks: self.hooks.insert(self.next_hook as usize, hook),
            next_hook: self.next_hook + 1,
            ..self
        }
    }

    /// The registry after the metadata became `after`: every hook is told
    /// once if anything differs, and nobody is told if nothing does.
    pub open spec fn with_metadata(self, after: Map<Seq<char>, Seq<char>>) -> RegistryView {
        RegistryView {
            metadata: after,
            trace: if after == self.metadata {
                self.trace
            } else {
                self.trace + self.broadcast(HookEvent::MetadataModified)
            },
            ..self
        }
    }

    /// The registry after the listener `id` announced `addr`: the address
    /// is among the listener's, and every hook is told. Where `id` names no
    /// listener there is nothing to keep the address, and the hooks are told
    /// all the same.
    pub open spec fn with_listener_addr(self, id: usize, addr: SocketAddress) -> RegistryView {
        let hooks = if self.is_listener(id) {
            self.hooks.insert(id, self.hooks[id].with_addrs(with_addr(self.hooks[id].addrs(), addr)))
        } else {
            self.hooks
        };
        RegistryView {
            hooks,
            trace: self.trace + self.broadcast(
                HookEvent::ListenerRegistered { id: ListenerId(id), addr },
            ),
            ..self
        }
    }

    /// The registry after the listener `id` gave up `addr`.
    pub open spec fn without_listener_addr(self, id: usize, addr: SocketAddress) -> RegistryView {
        let hooks = if self.is_listener(id) {
            self.hooks.insert(
                id,
                self.hooks[id].with_addrs(without_addr(self.hooks[id].addrs(), addr)),
            )
        } else {
            self.hooks
        };
        RegistryView {
            hooks,
            trace: self.trace + self.broadcast(HookEvent::ListenerUnregistered(ListenerId(id))),
            ..self
        }
    }

    /// The records with `changed` in the place of the one for `identity`,
    /// or at the end if there is none.
    pub open spec fn peers_with(self, identity: RemoteIdentity, changed: PeerView) -> Seq<PeerView> {
        if self.knows(identity) {
            self.peers.update(index_of(self.peers, identity), changed)
        } else {
            self.peers.push(changed)
        }
    }

    /// The record for `identity`, or a fresh one.
    pub open spec fn peer_or_fresh(self, identity: RemoteIdentity) -> PeerView {
        if self.knows(identity) {
            self.peer(identity)
        } else {
            PeerView::fresh(identity)
        }
    }

    /// What the hooks hear of a peer that entered: nothing if the registry
    /// knew it already.
    pub open spec fn arrival(self, identity: RemoteIdentity) -> Seq<Effect> {
        if self.knows(identity) {
            Seq::empty()
        } else {
            self.broadcast(HookEvent::PeerAvailable(identity))
        }
    }

    /// The registry after `hook` reported the peer `identity` with
    /// `metadata`, seen at `addrs`. The record is created if there is none,
    /// it names `hook` as a discoverer and `metadata` is merged into its own.
    /// Then every listener's acceptor is called, the hooks hear of the peer
    /// if it is new, and they hear who discovered it.
    pub open spec fn with_discovery(
        self,
        hook: usize,
        identity: RemoteIdentity,
        metadata: Map<Seq<char>, Seq<char>>,
        addrs: Seq<SocketAddress>,
    ) -> RegistryView {
        RegistryView {
            peers: self.peers_with(
                identity,
                self.peer_or_fresh(identity).discovered_by(hook, metadata),
            ),
            trace: self.trace + self.accepts(identity, addrs) + self.arrival(identity)
                + self.broadcast(HookEvent::PeerDiscoveredBy(HookId(hook), identity)),
            ..self
        }
    }

    /// The registry after `listener` reported a connection to the peer
    /// `identity`, with `metadata` and the signal that closes the
    /// connection. The hooks hear of the peer if it is new, and they hear of
    /// the connection.
    pub open spec fn with_connection(
        self,
        listener: usize,
        identity: RemoteIdentity,
        metadata: Map<Seq<char>, Seq<char>>,
        shutdown: tokio::sync::oneshot::Sender<()>,
    ) -> RegistryView {
        RegistryView {
            peers: self.peers_with(
                identity,
                self.peer_or_fresh(identity).connected_with(listener, metadata, shutdown),
            ),
            trace: self.trace + self.arrival(identity) + self.broadcast(
                HookEvent::PeerConnectedWith(ListenerId(listener), identity),
            ),
            ..self
        }
    }

    /// The registry after the hook `id` left. Where no hook has that slot,
    /// nothing happens. Else the hook is told to shut down and leaves; if it
    /// was a listener the remaining hooks are told; every connection that it
    /// held is told to close; no record refers to it any more, and the
    /// records that nothing keeps are gone.
    pub open spec fn without_hook(self, id: usize) -> RegistryView {
        if !self.hooks.contains_key(id) {
            self
        } else {
            let rest = RegistryView { hooks: self.hooks.remove(id), ..self };
            let farewell = if self.hooks[id].is_listener() {
                rest.broadcast(HookEvent::ListenerUnregistered(ListenerId(id)))
            } else {
                Seq::empty()
            };
            RegistryView {
                hooks: rest.hooks,
                peers: pruned(detached_all(self.peers, id)),
                trace: self.trace.push(Effect::Sent { hook: id, event: HookEvent::Shutdown })
                    + farewell + closings(self.peers, id),
                ..self
            }
        }
    }

    /// The registry after the hooks `ids` left, one after the other.
    pub open spec fn without_hooks(self, ids: Seq<usize>) -> RegistryView
        decreases ids.len(),
    {
        if ids.len() == 0 {
            self
        } else {
            self.without_hook(ids[0]).without_hooks(ids.skip(1))
        }
    }

    /// The registry after every hook left, in the order of the slots.
    pub open spec fn shut_down(self) -> RegistryView {
        self.without_hooks(self.hook_ids())
    }

    /// Unregistering a hook leaves a sound registry.
    pub proof fn lemma_without_hook_wf(self, id: usize)
        requires
            self.wf(),
        ensures
            self.without_hook(id).wf(),
    {
        if self.hooks.contains_key(id) {
            let loose = detached_all(self.peers, id);
            assert(distinct_peers(loose));
            assert forall|i: int| 0 <= i < loose.len() implies (#[trigger] loose[i]).wf() by {
                assert(self.peers[i].wf());
            }
            lemma_pruned(loose);
            let kept = pruned(loose);
            assert forall|i: int| 0 <= i < kept.len() implies (#[trigger] kept[i]).wf() by {
                assert(loose.contains(kept[i]));
                let j = choose|j: int| 0 <= j < loose.len() && loose[j] == kept[i];
                assert(loose[j].wf());
            }
        }
    }

    /// Registering a hook leaves a sound registry.
    pub proof fn lemma_with_hook_wf(self, hook: HookView)
        requires
            self.wf(),
            self.next_hook < SLOT_LIMIT,
            hook.addrs().no_duplicates(),
        ensures
            self.with_hook(hook).wf(),
    {
    }

    /// Announcing an address leaves a sound registry, in which the listener
    /// has the address once.
    pub proof fn lemma_with_listener_addr_wf(self, id: usize, addr: SocketAddress)
        requires
            self.wf(),
        ensures
            self.with_listener_addr(id, addr).wf(),
            self.is_listener(id) ==> self.with_listener_addr(id, addr).hooks[id].addrs().contains(
                addr,
            ),
    {
        if self.is_listener(id) {
            let before = self.hooks[id].addrs();
            let after = with_addr(before, addr);
            if !before.contains(addr) {
                assert(after[before.len() as int] == addr);
                assert forall|i: int, j: int|
                    0 <= i < after.len() && 0 <= j < after.len() && i != j implies after[i]
                    != after[j] by {
                    if i < before.len() {
                        assert(before[i] == after[i]);
                        assert(before.contains(after[i]));
                    }
                    if j < before.len() {
                        assert(before[j] == after[j]);
                        assert(before.contains(after[j]));
                    }
                }
            }
            assert(self.hooks[id].with_addrs(after).addrs() == after);
        }
    }

    /// Giving up an address leaves a sound registry, in which the listener
    /// does not have the address.
    pub proof fn lemma_without_listener_addr_wf(self, id: usize, addr: SocketAddress)
        requires
            self.wf(),
        ensures
            self.without_listener_addr(id, addr).wf(),
            self.is_listener(id) ==> !self.without_listener_addr(id, addr).hooks[id].addrs().contains(
                addr,
            ),
    {
        if self.is_listener(id) {
            let before = self.hooks[id].addrs();
            let after = without_addr(before, addr);
            assert(self.hooks[id].with_addrs(after).addrs() == after);
            if before.contains(addr) {
                let p = addr_position(before, addr);
                let shift = |i: int| if i < p { i } else { i + 1 };
                assert forall|i: int| 0 <= i < after.len() implies after[i] == before[shift(i)] by {}
                assert forall|i: int, j: int|
                    0 <= i < after.len() && 0 <= j < after.len() && i != j implies after[i]
                    != after[j] by {
                    assert(after[i] == before[shift(i)] && after[j] == before[shift(j)]);
                }
                if after.contains(addr) {
                    let i = choose|i: int| 0 <= i < after.len() && after[i] == addr;
                    assert(before[shift(i)] == addr);
                }
            }
        }
    }

    /// With distinct records, the record for an identity is where that
    /// identity is found.
    pub proof fn lemma_index_of(self, i: int)
        requires
            distinct_peers(self.peers),
            0 <= i < self.peers.len(),
        ensures
            self.knows(self.peers[i].identity),
            index_of(self.peers, self.peers[i].identity) == i,
    {
        let identity = self.peers[i].identity;
        assert(knows(self.peers, identity));
        let j = index_of(self.peers, identity);
        assert(0 <= j < self.peers.len() && self.peers[j].identity == identity);
    }

    /// Putting a sound record that something keeps in the place of the one
    /// for its identity, or at the end if there is none, leaves the records
    /// sound.
    pub proof fn lemma_peers_with(self, identity: RemoteIdentity, changed: PeerView)
        requires
            self.peers_wf(),
            self.no_orphans(),
            changed.identity == identity,
            changed.wf(),
            !changed.orphaned(),
        ensures
            distinct_peers(self.peers_with(identity, changed)),
            forall|i: int|
                0 <= i < self.peers_with(identity, changed).len() ==> (#[trigger] self.peers_with(
                    identity,
                    changed,
                )[i]).wf() && !self.peers_with(identity, changed)[i].orphaned(),
            knows(self.peers_with(identity, changed), identity),
            self.peers_with(identity, changed)[index_of(
                self.peers_with(identity, changed),
                identity,
            )] == changed,
    {
        let after = self.peers_with(identity, changed);
        let at = if self.knows(identity) {
            index_of(self.peers, identity)
        } else {
            self.peers.len() as int
        };
        assert(after[at] == changed);
        assert forall|i: int| 0 <= i < after.len() && i != at implies after[i] == self.peers[i] by {}
        assert forall|i: int, j: int|
            0 <= i < after.len() && 0 <= j < after.len() && i != j implies (#[trigger] after[i]).identity
            != (#[trigger] after[j]).identity by {
            if i != at && j != at {
                assert(after[i] == self.peers[i] && after[j] == self.peers[j]);
            } else {
                let other = if i == at { j } else { i };
                assert(after[other] == self.peers[other]);
                if self.knows(identity) {
                    assert(self.peers[at].identity == identity);
                } else {
                    if self.peers[other].identity == identity {
                        assert(knows(self.peers, identity));
                    }
                }
            }
        }
        assert forall|i: int| 0 <= i < after.len() implies (#[trigger] after[i]).wf()
            && !after[i].orphaned() by {
            if i != at {
                assert(after[i] == self.peers[i]);
                assert(self.peers[i].wf());
                assert(!self.peers[i].orphaned());
            }
        }
        assert(knows(after, identity));
        let j = index_of(after, identity);
        assert(0 <= j < after.len() && after[j].identity == identity);
    }

    /// A discovery leaves a sound registry, which knows the peer.
    pub proof fn lemma_with_discovery_wf(
        self,
        hook: usize,
        identity: RemoteIdentity,
        metadata: Map<Seq<char>, Seq<char>>,
        addrs: Seq<SocketAddress>,
    )
        requires
            self.wf(),
        ensures
            self.with_discovery(hook, identity, metadata, addrs).wf(),
            self.with_discovery(hook, identity, metadata, addrs).knows(identity),
            self.with_discovery(hook, identity, metadata, addrs).peer(identity)
                == self.peer_or_fresh(identity).discovered_by(hook, metadata),
    {
        let base = self.peer_or_fresh(identity);
        let changed = base.discovered_by(hook, metadata);
        if self.knows(identity) {
            let i = index_of(self.peers, identity);
            assert(self.peers[i].wf());
        }
        assert(changed.discovered.contains(hook));
        self.lemma_peers_with(identity, changed);
    }

    /// A connection leaves a sound registry, which knows the peer.
    pub proof fn lemma_with_connection_wf(
        self,
        listener: usize,
        identity: RemoteIdentity,
        metadata: Map<Seq<char>, Seq<char>>,
        shutdown: tokio::sync::oneshot::Sender<()>,
    )
        requires
            self.wf(),
        ensures
            self.with_connection(listener, identity, metadata, shutdown).wf(),
            self.with_connection(listener, identity, metadata, shutdown).knows(identity),
            self.with_connection(listener, identity, metadata, shutdown).peer(identity)
                == self.peer_or_fresh(identity).connected_with(listener, metadata, shutdown),
    {
        let base = self.peer_or_fresh(identity);
        let changed = base.connected_with(listener, metadata, shutdown);
        if self.knows(identity) {
            let i = index_of(self.peers, identity);
            assert(self.peers[i].wf());
        }
        assert(changed.connection_methods.contains(listener));
        assert(changed.active_connections.dom() =~= base.active_connections.dom().insert(listener));
        self.lemma_peers_with(identity, changed);
    }
}

} // verus!
