//! What follows from the model: statements about several operations in a
//! row, each proved from the definitions in [`crate::model`].

use vstd::prelude::*;
use crate::address::SocketAddress;
use crate::hooks::{HookEvent, HookId, HookView, ListenerId};
use crate::identity::{Identity, RemoteIdentity};
use crate::metadata::{removed_entries, updated_entries};
use crate::model::{
    accepted_by, closed_connections, closings, detached_all, index_of, knows, lemma_ids_below, lemma_pruned,
    open_connections, pruned, sent_to, shutdowns, Effect, RegistryView,
};
use crate::name::valid_app_name;
use crate::peer::PeerView;
use crate::slots::SLOT_LIMIT;

verus! {

/// A broadcast reaches every registered hook exactly once, in the order of
/// the slots, and nobody else.
pub proof fn law_broadcast_reaches_each_hook_once(view: RegistryView, event: HookEvent)
    requires
        view.hooks_wf(),
    ensures
        forall|k: int|
            0 <= k < view.broadcast(event).len() ==> (#[trigger] view.broadcast(event)[k])
                == (Effect::Sent { hook: view.hook_ids()[k], event }) && view.hooks.contains_key(
                view.hook_ids()[k],
            ),
        forall|j: int, k: int|
            0 <= j < k < view.broadcast(event).len() ==> view.hook_ids()[j] < view.hook_ids()[k],
        forall|id: usize| #[trigger]
            view.hooks.contains_key(id) ==> view.broadcast(event).contains(
                Effect::Sent { hook: id, event },
            ),
{
    let ids = view.hook_ids();
    let sent = view.broadcast(event);
    lemma_ids_below(view.hooks, view.next_hook);
    assert forall|k: int| 0 <= k < sent.len() implies (#[trigger] sent[k]) == (Effect::Sent {
        hook: ids[k],
        event,
    }) && view.hooks.contains_key(ids[k]) by {
        assert(ids.contains(ids[k]));
    }
    assert forall|id: usize| #[trigger] view.hooks.contains_key(id) implies sent.contains(
        Effect::Sent { hook: id, event },
    ) by {
        assert(ids.contains(id));
        let k = choose|k: int| 0 <= k < ids.len() && ids[k] == id;
        assert(sent[k] == Effect::Sent { hook: id, event });
    }
}

/// A change of the metadata that changes nothing tells nobody. One that
/// gives the key `key`, absent before, the value `value` tells every hook
/// once, and the difference shows `key` with `value` as updated and nothing
/// as removed.
pub proof fn law_metadata_notification(view: RegistryView, key: Seq<char>, value: Seq<char>)
    requires
        view.wf(),
        !view.metadata.contains_key(key),
    ensures
        view.with_metadata(view.metadata) == view,
        view.with_metadata(view.metadata.insert(key, value)).trace == view.trace + view.broadcast(
            HookEvent::MetadataModified,
        ),
        updated_entries(view.metadata, view.metadata.insert(key, value)) == Map::<
            Seq<char>,
            Seq<char>,
        >::empty().insert(key, value),
        removed_entries(view.metadata, view.metadata.insert(key, value)) == Map::<
            Seq<char>,
            Seq<char>,
        >::empty(),
{
    let after = view.metadata.insert(key, value);
    assert(after.contains_key(key));
    assert(after != view.metadata);
    assert(updated_entries(view.metadata, after) =~= Map::<Seq<char>, Seq<char>>::empty().insert(
        key,
        value,
    ));
    assert(removed_entries(view.metadata, after) =~= Map::<Seq<char>, Seq<char>>::empty());
}

/// Two discoveries of a peer that the registry did not know: the first
/// makes the record and tells every hook that the peer is available, the
/// second does neither; each tells every hook who discovered the peer; and
/// in the end the record names both discoverers and no others.
pub proof fn law_peer_created_once(
    view: RegistryView,
    first: usize,
    second: usize,
    identity: RemoteIdentity,
    first_metadata: Map<Seq<char>, Seq<char>>,
    second_metadata: Map<Seq<char>, Seq<char>>,
    first_addrs: Seq<SocketAddress>,
    second_addrs: Seq<SocketAddress>,
)
    requires
        view.wf(),
        !view.knows(identity),
    ensures
        ({
            let once = view.with_discovery(first, identity, first_metadata, first_addrs);
            let twice = once.with_discovery(second, identity, second_metadata, second_addrs);
            &&& once.peers.len() == view.peers.len() + 1
            &&& twice.peers.len() == once.peers.len()
            &&& once.trace == view.trace + view.accepts(identity, first_addrs) + view.broadcast(
                HookEvent::PeerAvailable(identity),
            ) + view.broadcast(HookEvent::PeerDiscoveredBy(HookId(first), identity))
            &&& twice.trace == once.trace + view.accepts(identity, second_addrs) + view.broadcast(
                HookEvent::PeerDiscoveredBy(HookId(second), identity),
            )
            &&& twice.knows(identity)
            &&& twice.peer(identity).discovered == Set::<usize>::empty().insert(first).insert(
                second,
            )
            &&& twice.peer(identity).metadata == first_metadata.union_prefer_right(
                second_metadata,
            )
            &&& twice.wf()
        }),
{
    let once = view.with_discovery(first, identity, first_metadata, first_addrs);
    view.lemma_with_discovery_wf(first, identity, first_metadata, first_addrs);
    once.lemma_with_discovery_wf(second, identity, second_metadata, second_addrs);
    let twice = once.with_discovery(second, identity, second_metadata, second_addrs);
    assert(once.hooks == view.hooks && once.next_hook == view.next_hook);
    assert(once.accepts(identity, second_addrs) == view.accepts(identity, second_addrs));
    assert(once.trace + once.accepts(identity, second_addrs) + Seq::<Effect>::empty()
        + once.broadcast(HookEvent::PeerDiscoveredBy(HookId(second), identity)) =~= once.trace
        + view.accepts(identity, second_addrs) + view.broadcast(
        HookEvent::PeerDiscoveredBy(HookId(second), identity),
    ));
    assert(twice.peer(identity).discovered =~= Set::<usize>::empty().insert(first).insert(second));
    assert(twice.peer(identity).metadata =~= first_metadata.union_prefer_right(second_metadata));
}

/// The first discovery in a registry with one plain hook and no peers: the
/// hook is told that the peer is available and then that it discovered the
/// peer, nothing else happens, and the record holds the metadata given.
pub proof fn law_first_discovery(
    view: RegistryView,
    hook: usize,
    identity: RemoteIdentity,
    metadata: Map<Seq<char>, Seq<char>>,
    addrs: Seq<SocketAddress>,
)
    requires
        view.wf(),
        view.hook_ids() == seq![hook],
        !view.hooks[hook].is_listener(),
        view.peers.len() == 0,
    ensures
        ({
            let found = view.with_discovery(hook, identity, metadata, addrs);
            &&& found.trace == view.trace + seq![
                Effect::Sent { hook, event: HookEvent::PeerAvailable(identity) },
                Effect::Sent { hook, event: HookEvent::PeerDiscoveredBy(HookId(hook), identity) },
            ]
            &&& found.peers.len() == 1
            &&& found.peers[0].identity == identity
            &&& found.peers[0].metadata == metadata
            &&& found.peers[0].discovered == Set::<usize>::empty().insert(hook)
        }),
{
    let found = view.with_discovery(hook, identity, metadata, addrs);
    let ids = view.hook_ids();
    assert(ids.drop_last() =~= Seq::<usize>::empty());
    assert(accepted_by(view.hooks, ids.drop_last(), identity, addrs) =~= Seq::<Effect>::empty());
    assert(view.accepts(identity, addrs) =~= Seq::<Effect>::empty());
    assert(!view.knows(identity));
    assert(found.trace =~= view.trace + seq![
        Effect::Sent { hook, event: HookEvent::PeerAvailable(identity) },
        Effect::Sent { hook, event: HookEvent::PeerDiscoveredBy(HookId(hook), identity) },
    ]);
    assert(found.peers[0].metadata =~= metadata);
    assert(found.peers[0].discovered =~= Set::<usize>::empty().insert(hook));
}

/// The connections that a sweep tells to close are those that the listener
/// held: one for each record that names it among its live connections.
pub proof fn lemma_closings(peers: Seq<PeerView>, id: usize)
    ensures
        forall|i: int|
            0 <= i < peers.len() && (#[trigger] peers[i]).active_connections.contains_key(id)
                ==> closings(peers, id).contains(
                Effect::Closed { listener: id, peer: peers[i].identity },
            ),
        forall|k: int|
            0 <= k < closings(peers, id).len() ==> exists|i: int|
                0 <= i < peers.len() && peers[i].active_connections.contains_key(id)
                    && #[trigger] closings(peers, id)[k] == (Effect::Closed {
                    listener: id,
                    peer: (#[trigger] peers[i]).identity,
                }),
    decreases peers.len(),
{
    if peers.len() > 0 {
        let rest = peers.drop_last();
        lemma_closings(rest, id);
        let all = closings(peers, id);
        let before = closings(rest, id);
        assert forall|i: int|
            0 <= i < peers.len() && (#[trigger] peers[i]).active_connections.contains_key(
                id,
            ) implies all.contains(Effect::Closed { listener: id, peer: peers[i].identity }) by {
            let wanted = Effect::Closed { listener: id, peer: peers[i].identity };
            if i < rest.len() {
                assert(rest[i] == peers[i]);
                assert(before.contains(wanted));
                let k = choose|k: int| 0 <= k < before.len() && before[k] == wanted;
                assert(all[k] == wanted);
            } else {
                assert(all[before.len() as int] == wanted);
            }
        }
        assert forall|k: int| 0 <= k < all.len() implies exists|i: int|
            0 <= i < peers.len() && peers[i].active_connections.contains_key(id)
                && #[trigger] all[k] == (Effect::Closed {
                listener: id,
                peer: (#[trigger] peers[i]).identity,
            }) by {
            if k < before.len() {
                assert(all[k] == before[k]);
                let i = choose|i: int|
                    0 <= i < rest.len() && rest[i].active_connections.contains_key(id)
                        && #[trigger] before[k] == (Effect::Closed {
                        listener: id,
                        peer: (#[trigger] rest[i]).identity,
                    });
                assert(peers[i] == rest[i]);
            } else {
                let i = peers.len() - 1;
                assert(all[k] == (Effect::Closed { listener: id, peer: peers[i].identity }));
            }
        }
    }
}

/// A listener reports a connection to a peer and is then unregistered: the
/// connection is told to close, the hook is gone, and the peer stays in the
/// registry exactly if some other hook discovered it or some other listener
/// connects it.
pub proof fn law_unregister_closes_connection(
    view: RegistryView,
    listener: usize,
    identity: RemoteIdentity,
    metadata: Map<Seq<char>, Seq<char>>,
    shutdown: tokio::sync::oneshot::Sender<()>,
)
    requires
        view.wf(),
        view.hooks.contains_key(listener),
    ensures
        ({
            let connected = view.with_connection(listener, identity, metadata, shutdown);
            let gone = connected.without_hook(listener);
            &&& closings(connected.peers, listener).contains(
                Effect::Closed { listener, peer: identity },
            )
            &&& gone.trace.contains(Effect::Closed { listener, peer: identity })
            &&& !gone.hooks.contains_key(listener)
            &&& gone.knows(identity) <==> !view.peer_or_fresh(identity).detached(
                listener,
            ).orphaned()
            &&& gone.wf()
        }),
{
    let connected = view.with_connection(listener, identity, metadata, shutdown);
    view.lemma_with_connection_wf(listener, identity, metadata, shutdown);
    let gone = connected.without_hook(listener);
    connected.lemma_without_hook_wf(listener);
    let at = index_of(connected.peers, identity);
    assert(0 <= at < connected.peers.len() && connected.peers[at].identity == identity);
    let record = connected.peers[at];
    assert(record.active_connections.contains_key(listener));
    lemma_closings(connected.peers, listener);
    let closed = closings(connected.peers, listener);
    let wanted = Effect::Closed { listener, peer: identity };
    assert(closed.contains(wanted));
    let k = choose|k: int| 0 <= k < closed.len() && closed[k] == wanted;
    assert(gone.trace[gone.trace.len() - closed.len() + k] == wanted);
    let loose = detached_all(connected.peers, listener);
    lemma_pruned(loose);
    assert(loose[at] == record.detached(listener));
    let base = view.peer_or_fresh(identity);
    assert(record.detached(listener).discovered =~= base.detached(listener).discovered);
    assert(record.detached(listener).connection_methods =~= base.detached(
        listener,
    ).connection_methods);
    if !base.detached(listener).orphaned() {
        assert(!loose[at].orphaned());
        assert(gone.peers.contains(loose[at]));
        let j = choose|j: int| 0 <= j < gone.peers.len() && gone.peers[j] == loose[at];
        assert(gone.peers[j].identity == identity);
        assert(knows(gone.peers, identity));
    }
    if gone.knows(identity) {
        let j = index_of(gone.peers, identity);
        assert(0 <= j < gone.peers.len() && gone.peers[j].identity == identity);
        assert(loose.contains(gone.peers[j]));
        let i = choose|i: int| 0 <= i < loose.len() && loose[i] == gone.peers[j];
        assert(loose[i].identity == connected.peers[i].identity);
        assert(i == at);
        assert(!gone.peers[j].orphaned());
    }
}

/// Once a hook has left, its slot stays empty: the next hook gets another
/// slot, no record refers to the old one, and no broadcast goes there.
pub proof fn law_slot_not_reused(view: RegistryView, id: usize, next: HookView, event: HookEvent)
    requires
        view.wf(),
        view.hooks.contains_key(id),
        view.next_hook < SLOT_LIMIT,
        next.addrs().no_duplicates(),
    ensures
        ({
            let gone = view.without_hook(id);
            let after = gone.with_hook(next);
            &&& gone.next_hook == view.next_hook
            &&& id < gone.next_hook
            &&& after.hooks.contains_key(gone.next_hook as usize)
            &&& after.hooks[gone.next_hook as usize] == next
            &&& !after.hooks.contains_key(id)
            &&& forall|i: int| 0 <= i < after.peers.len() ==> !(#[trigger] after.peers[i]).mentions(id)
            &&& forall|k: int|
                0 <= k < after.broadcast(event).len() ==> (#[trigger] after.broadcast(event)[k])
                    != (Effect::Sent { hook: id, event })
        }),
{
    let gone = view.without_hook(id);
    let after = gone.with_hook(next);
    let loose = detached_all(view.peers, id);
    lemma_pruned(loose);
    assert forall|i: int| 0 <= i < after.peers.len() implies !(#[trigger] after.peers[i]).mentions(
        id,
    ) by {
        assert(loose.contains(after.peers[i]));
        let j = choose|j: int| 0 <= j < loose.len() && loose[j] == after.peers[i];
        assert(loose[j] == view.peers[j].detached(id));
    }
    view.lemma_without_hook_wf(id);
    gone.lemma_with_hook_wf(next);
    law_broadcast_reaches_each_hook_once(after, event);
}

/// A first hook is registered, leaves, and a second hook is registered:
/// the second gets the slot after the first one's, and the first one's slot
/// is empty.
pub proof fn law_second_hook_gets_new_slot(view: RegistryView, first: HookView, second: HookView)
    requires
        view.wf(),
        view.next_hook + 1 < SLOT_LIMIT,
        first.addrs().no_duplicates(),
        second.addrs().no_duplicates(),
    ensures
        ({
            let a = view.next_hook as usize;
            let after = view.with_hook(first).without_hook(a).with_hook(second);
            &&& after.hooks.contains_key((a + 1) as usize)
            &&& after.hooks[(a + 1) as usize] == second
            &&& !after.hooks.contains_key(a)
            &&& after.next_hook == view.next_hook + 2
            &&& forall|i: int| 0 <= i < after.peers.len() ==> !(#[trigger] after.peers[i]).mentions(a)
        }),
{
    let a = view.next_hook as usize;
    let with_first = view.with_hook(first);
    view.lemma_with_hook_wf(first);
    law_slot_not_reused(with_first, a, second, HookEvent::Shutdown);
}

/// Counting over two traces in a row adds up.
pub proof fn lemma_counts_add(a: Seq<Effect>, b: Seq<Effect>)
    ensures
        shutdowns(a + b) == shutdowns(a) + shutdowns(b),
        closed_connections(a + b) == closed_connections(a) + closed_connections(b),
    decreases b.len(),
{
    if b.len() == 0 {
        assert(a + b =~= a);
    } else {
        lemma_counts_add(a, b.drop_last());
        assert((a + b).drop_last() =~= a + b.drop_last());
        assert((a + b).last() == b.last());
    }
}

/// A broadcast of anything but the order to shut down holds no such order,
/// and no broadcast closes a connection.
pub proof fn lemma_counts_of_broadcast(ids: Seq<usize>, event: HookEvent)
    ensures
        event != HookEvent::Shutdown ==> shutdowns(sent_to(ids, event)) == 0,
        closed_connections(sent_to(ids, event)) == 0,
    decreases ids.len(),
{
    if ids.len() > 0 {
        lemma_counts_of_broadcast(ids.drop_last(), event);
        assert(sent_to(ids, event).drop_last() =~= sent_to(ids.drop_last(), event));
        assert(sent_to(ids, event).last() == (Effect::Sent { hook: ids.last(), event }));
    }
}

/// A sweep tells no hook to shut down; every effect of it closes a
/// connection.
pub proof fn lemma_counts_of_closings(peers: Seq<PeerView>, id: usize)
    ensures
        shutdowns(closings(peers, id)) == 0,
        closed_connections(closings(peers, id)) == closings(peers, id).len(),
    decreases peers.len(),
{
    if peers.len() > 0 {
        lemma_counts_of_closings(peers.drop_last(), id);
        let before = closings(peers.drop_last(), id);
        if peers.last().active_connections.contains_key(id) {
            let closed = Effect::Closed { listener: id, peer: peers.last().identity };
            assert(closings(peers, id) == before.push(closed));
            assert(before.push(closed).drop_last() =~= before);
            assert(before.push(closed).last() == closed);
        }
    }
}

/// The open connections of two lists of records in a row add up.
pub proof fn lemma_open_connections_add(a: Seq<PeerView>, b: Seq<PeerView>)
    ensures
        open_connections(a + b) == open_connections(a) + open_connections(b),
    decreases b.len(),
{
    if b.len() == 0 {
        assert(a + b =~= a);
    } else {
        lemma_open_connections_add(a, b.drop_last());
        assert((a + b).drop_last() =~= a + b.drop_last());
        assert((a + b).last() == b.last());
    }
}

/// Detaching a listener from every record closes one connection for each
/// record that held one through it.
pub proof fn lemma_open_connections_detached(peers: Seq<PeerView>, id: usize)
    requires
        forall|i: int| 0 <= i < peers.len() ==> (#[trigger] peers[i]).wf(),
    ensures
        open_connections(detached_all(peers, id)) + closings(peers, id).len() == open_connections(
            peers,
        ),
    decreases peers.len(),
{
    if peers.len() > 0 {
        let rest = peers.drop_last();
        assert forall|i: int| 0 <= i < rest.len() implies (#[trigger] rest[i]).wf() by {
            assert(rest[i] == peers[i]);
        }
        lemma_open_connections_detached(rest, id);
        assert(detached_all(peers, id).drop_last() =~= detached_all(rest, id));
        let last = peers.last();
        assert(last.wf());
        assert(detached_all(peers, id).last() == last.detached(id));
        assert(last.detached(id).active_connections.dom() =~= last.active_connections.dom().remove(
            id,
        ));
    }
}

/// Pruning closes nothing: a record that nothing keeps holds no connection.
pub proof fn lemma_open_connections_pruned(peers: Seq<PeerView>)
    requires
        forall|i: int| 0 <= i < peers.len() ==> (#[trigger] peers[i]).wf(),
    ensures
        open_connections(pruned(peers)) == open_connections(peers),
    decreases peers.len(),
{
    if peers.len() > 0 {
        let rest = peers.skip(1);
        assert forall|i: int| 0 <= i < rest.len() implies (#[trigger] rest[i]).wf() by {
            assert(rest[i] == peers[i + 1]);
        }
        lemma_open_connections_pruned(rest);
        let first = seq![peers[0]];
        assert(peers =~= first + rest);
        lemma_open_connections_add(first, rest);
        lemma_open_connections_add(first, pruned(rest));
        assert(first.drop_last() =~= Seq::<PeerView>::empty());
        assert(first.last() == peers[0]);
        assert(open_connections(first.drop_last()) == 0);
        assert(open_connections(first) == peers[0].active_connections.dom().len());
        assert(peers[0].wf());
        if peers[0].orphaned() {
            assert(peers[0].active_connections.dom() =~= Set::<usize>::empty());
        }
    }
}

/// What unregistering one hook adds to the counts: one order to shut down,
/// and one closed connection for each that is no longer open.
pub proof fn lemma_counts_of_unregistration(view: RegistryView, id: usize)
    requires
        view.wf(),
        view.hooks.contains_key(id),
    ensures
        shutdowns(view.without_hook(id).trace) == shutdowns(view.trace) + 1,
        closed_connections(view.without_hook(id).trace) + open_connections(
            view.without_hook(id).peers,
        ) == closed_connections(view.trace) + open_connections(view.peers),
{
    let gone = view.without_hook(id);
    let rest = RegistryView { hooks: view.hooks.remove(id), ..view };
    let order = Effect::Sent { hook: id, event: HookEvent::Shutdown };
    let farewell = if view.hooks[id].is_listener() {
        rest.broadcast(HookEvent::ListenerUnregistered(ListenerId(id)))
    } else {
        Seq::empty()
    };
    let closed = closings(view.peers, id);
    assert(gone.trace == view.trace.push(order) + farewell + closed);
    lemma_counts_add(view.trace.push(order) + farewell, closed);
    lemma_counts_add(view.trace.push(order), farewell);
    assert(view.trace.push(order).drop_last() =~= view.trace);
    assert(view.trace.push(order).last() == order);
    lemma_counts_of_broadcast(rest.hook_ids(), HookEvent::ListenerUnregistered(ListenerId(id)));
    lemma_counts_of_closings(view.peers, id);
    lemma_open_connections_detached(view.peers, id);
    let loose = detached_all(view.peers, id);
    assert forall|i: int| 0 <= i < loose.len() implies (#[trigger] loose[i]).wf() by {
        assert(view.peers[i].wf());
    }
    lemma_open_connections_pruned(loose);
}

/// Unregistering a hook keeps the records from referring to anything but
/// registered hooks.
pub proof fn lemma_unregistration_keeps_references(view: RegistryView, id: usize)
    requires
        view.wf(),
        view.refers_to_hooks_only(),
    ensures
        view.without_hook(id).refers_to_hooks_only(),
{
    if view.hooks.contains_key(id) {
        let gone = view.without_hook(id);
        let loose = detached_all(view.peers, id);
        lemma_pruned(loose);
        assert forall|i: int, other: usize|
            0 <= i < gone.peers.len() && (#[trigger] gone.peers[i]).mentions(
                other,
            ) implies #[trigger] gone.hooks.contains_key(other) by {
            assert(loose.contains(gone.peers[i]));
            let j = choose|j: int| 0 <= j < loose.len() && loose[j] == gone.peers[i];
            assert(loose[j] == view.peers[j].detached(id));
            assert(view.peers[j].mentions(other));
            assert(view.hooks.contains_key(other));
        }
    }
}

/// Unregistering the hooks `ids`, which are all the hooks there are, each
/// named once: no hook and no peer is left, every hook was told to shut
/// down, and every open connection was told to close.
pub proof fn lemma_all_hooks_unregistered(view: RegistryView, ids: Seq<usize>)
    requires
        view.wf(),
        view.refers_to_hooks_only(),
        ids.no_duplicates(),
        forall|id: usize| ids.contains(id) <==> view.hooks.contains_key(id),
    ensures
        view.without_hooks(ids).wf(),
        view.without_hooks(ids).hooks == Map::<usize, HookView>::empty(),
        view.without_hooks(ids).peers == Seq::<PeerView>::empty(),
        view.without_hooks(ids).next_hook == view.next_hook,
        shutdowns(view.without_hooks(ids).trace) == shutdowns(view.trace) + ids.len(),
        closed_connections(view.without_hooks(ids).trace) == closed_connections(view.trace)
            + open_connections(view.peers),
    decreases ids.len(),
{
    if ids.len() == 0 {
        assert(view.hooks =~= Map::<usize, HookView>::empty()) by {
            assert forall|id: usize| !view.hooks.contains_key(id) by {
                if view.hooks.contains_key(id) {
                    assert(ids.contains(id));
                    let k = choose|k: int| 0 <= k < ids.len() && ids[k] == id;
                }
            }
        }
        if view.peers.len() > 0 {
            let record = view.peers[0];
            assert(!record.orphaned());
            if record.discovered != Set::<usize>::empty() {
                assert(!(record.discovered =~= Set::<usize>::empty()));
                let id = choose|id: usize| record.discovered.contains(id);
                assert(record.mentions(id));
                assert(view.hooks.contains_key(id));
            } else {
                assert(!(record.connection_methods =~= Set::<usize>::empty()));
                let id = choose|id: usize| record.connection_methods.contains(id);
                assert(record.mentions(id));
                assert(view.hooks.contains_key(id));
            }
        }
        assert(view.peers =~= Seq::<PeerView>::empty());
    } else {
        let id = ids[0];
        let rest = ids.skip(1);
        let gone = view.without_hook(id);
        assert(ids.contains(id));
        view.lemma_without_hook_wf(id);
        lemma_unregistration_keeps_references(view, id);
        lemma_counts_of_unregistration(view, id);
        assert(rest.no_duplicates()) by {
            assert forall|i: int, j: int| 0 <= i < rest.len() && 0 <= j < rest.len() && i != j implies rest[i]
                != rest[j] by {
                assert(rest[i] == ids[i + 1] && rest[j] == ids[j + 1]);
            }
        }
        assert forall|other: usize| rest.contains(other) <==> gone.hooks.contains_key(other) by {
            if rest.contains(other) {
                let k = choose|k: int| 0 <= k < rest.len() && rest[k] == other;
                assert(ids[k + 1] == other);
                assert(ids.contains(other));
                assert(other != id);
            }
            if gone.hooks.contains_key(other) {
                assert(ids.contains(other));
                let k = choose|k: int| 0 <= k < ids.len() && ids[k] == other;
                assert(k > 0);
                assert(rest[k - 1] == other);
            }
        }
        lemma_all_hooks_unregistered(gone, rest);
    }
}

/// Whether `trace` begins with `start`.
pub open spec fn extends(trace: Seq<Effect>, start: Seq<Effect>) -> bool {
    start.len() <= trace.len() && trace.take(start.len() as int) == start
}

/// Unregistering hooks only adds to the trace.
pub proof fn lemma_unregistration_extends_trace(view: RegistryView, ids: Seq<usize>)
    ensures
        extends(view.without_hook(ids[0]).trace, view.trace),
        extends(view.without_hooks(ids).trace, view.trace),
    decreases ids.len(),
{
    let id = ids[0];
    let gone = view.without_hook(id);
    if view.hooks.contains_key(id) {
        assert(gone.trace.take(view.trace.len() as int) =~= view.trace);
    } else {
        assert(gone.trace.take(view.trace.len() as int) =~= view.trace);
    }
    if ids.len() == 0 {
        assert(view.trace.take(view.trace.len() as int) =~= view.trace);
    } else {
        lemma_unregistration_extends_trace(gone, ids.skip(1));
        let end = view.without_hooks(ids).trace;
        assert(end.take(view.trace.len() as int) =~= end.take(gone.trace.len() as int).take(
            view.trace.len() as int,
        ));
    }
}

/// What a trace holds, every trace that begins with it holds too.
pub proof fn lemma_extension_contains(trace: Seq<Effect>, start: Seq<Effect>, effect: Effect)
    requires
        extends(trace, start),
        start.contains(effect),
    ensures
        trace.contains(effect),
{
    let k = choose|k: int| 0 <= k < start.len() && start[k] == effect;
    assert(trace.take(start.len() as int)[k] == trace[k]);
}

/// Unregistering the hooks `ids` tells each registered one of them to shut
/// down, and tells every connection to close that one of them holds.
pub proof fn lemma_everything_told(view: RegistryView, ids: Seq<usize>)
    requires
        view.wf(),
        ids.no_duplicates(),
    ensures
        forall|id: usize|
            ids.contains(id) && #[trigger] view.hooks.contains_key(id) ==> view.without_hooks(
                ids,
            ).trace.contains(Effect::Sent { hook: id, event: HookEvent::Shutdown }),
        forall|i: int, id: usize|
            0 <= i < view.peers.len() && ids.contains(id) && view.hooks.contains_key(id)
                && #[trigger] view.peers[i].active_connections.contains_key(id) ==> view.without_hooks(
                ids,
            ).trace.contains(Effect::Closed { listener: id, peer: view.peers[i].identity }),
    decreases ids.len(),
{
    if ids.len() > 0 {
        let first = ids[0];
        let rest = ids.skip(1);
        let gone = view.without_hook(first);
        let end = view.without_hooks(ids);
        view.lemma_without_hook_wf(first);
        assert(rest.no_duplicates()) by {
            assert forall|i: int, j: int| 0 <= i < rest.len() && 0 <= j < rest.len() && i != j implies rest[i]
                != rest[j] by {
                assert(rest[i] == ids[i + 1] && rest[j] == ids[j + 1]);
            }
        }
        lemma_everything_told(gone, rest);
        lemma_unregistration_extends_trace(gone, rest);
        assert(end == gone.without_hooks(rest));
        let loose = detached_all(view.peers, first);
        lemma_pruned(loose);
        lemma_closings(view.peers, first);
        assert forall|id: usize| ids.contains(id) && #[trigger] view.hooks.contains_key(id) implies end.trace.contains(
            Effect::Sent { hook: id, event: HookEvent::Shutdown },
        ) by {
            let order = Effect::Sent { hook: id, event: HookEvent::Shutdown };
            if id == first {
                assert(gone.trace[view.trace.len() as int] == order);
                lemma_extension_contains(end.trace, gone.trace, order);
            } else {
                let k = choose|k: int| 0 <= k < ids.len() && ids[k] == id;
                assert(rest[k - 1] == id);
                assert(rest.contains(id));
                assert(gone.hooks.contains_key(id));
            }
        }
        assert forall|i: int, id: usize|
            0 <= i < view.peers.len() && ids.contains(id) && view.hooks.contains_key(id)
                && #[trigger] view.peers[i].active_connections.contains_key(id) implies end.trace.contains(
            Effect::Closed { listener: id, peer: view.peers[i].identity },
        ) by {
            let closed = Effect::Closed { listener: id, peer: view.peers[i].identity };
            if id == first {
                let told = closings(view.peers, first);
                assert(told.contains(closed));
                let k = choose|k: int| 0 <= k < told.len() && told[k] == closed;
                assert(gone.trace[gone.trace.len() - told.len() + k] == closed);
                lemma_extension_contains(end.trace, gone.trace, closed);
            } else {
                let k = choose|k: int| 0 <= k < ids.len() && ids[k] == id;
                assert(rest[k - 1] == id);
                assert(rest.contains(id));
                if view.hooks.contains_key(first) {
                    assert(view.peers[i].wf());
                    assert(view.peers[i].connection_methods.contains(id));
                    assert(loose[i] == view.peers[i].detached(first));
                    assert(loose[i].connection_methods.contains(id));
                    assert(!loose[i].orphaned());
                    assert(gone.peers.contains(loose[i]));
                    let j = choose|j: int| 0 <= j < gone.peers.len() && gone.peers[j] == loose[i];
                    assert(gone.peers[j].active_connections.contains_key(id));
                    assert(gone.peers[j].identity == view.peers[i].identity);
                } else {
                    assert(gone.peers[i] == view.peers[i]);
                }
            }
        }
    }
}

/// Shutting down a registry with N hooks, whose records refer to registered
/// hooks only: no hook and no peer is left; exactly N hooks are told to
/// shut down, each registered hook among them; and as many connections are
/// told to close as were open.
pub proof fn law_shutdown_empties_registry(view: RegistryView)
    requires
        view.wf(),
        view.refers_to_hooks_only(),
    ensures
        view.shut_down().wf(),
        view.shut_down().hooks == Map::<usize, HookView>::empty(),
        view.shut_down().peers == Seq::<PeerView>::empty(),
        view.hooks.dom().finite(),
        shutdowns(view.shut_down().trace) == shutdowns(view.trace) + view.hooks.dom().len(),
        closed_connections(view.shut_down().trace) == closed_connections(view.trace)
            + open_connections(view.peers),
        extends(view.shut_down().trace, view.trace),
        forall|id: usize|
            #[trigger] view.hooks.contains_key(id) ==> view.shut_down().trace.contains(
                Effect::Sent { hook: id, event: HookEvent::Shutdown },
            ),
        forall|i: int, id: usize|
            0 <= i < view.peers.len() && #[trigger] view.peers[i].active_connections.contains_key(
                id,
            ) ==> view.shut_down().trace.contains(
                Effect::Closed { listener: id, peer: view.peers[i].identity },
            ),
{
    let ids = view.hook_ids();
    lemma_ids_below(view.hooks, view.next_hook);
    assert(ids.no_duplicates());
    assert forall|id: usize| ids.contains(id) <==> view.hooks.contains_key(id) by {}
    lemma_all_hooks_unregistered(view, ids);
    assert(ids.to_set() =~= view.hooks.dom());
    ids.unique_seq_to_set();
    lemma_everything_told(view, ids);
    lemma_unregistration_extends_trace(view, ids);
    assert forall|i: int, id: usize|
        0 <= i < view.peers.len() && #[trigger] view.peers[i].active_connections.contains_key(
            id,
        ) implies view.shut_down().trace.contains(
        Effect::Closed { listener: id, peer: view.peers[i].identity },
    ) by {
        assert(view.peers[i].mentions(id));
        assert(view.hooks.contains_key(id));
        assert(ids.contains(id));
    }
}

/// A registry that was just made is sound, and its records, of which there
/// are none, refer to registered hooks only.
pub proof fn law_initial_registry(app_name: Seq<char>, identity: Identity)
    requires
        valid_app_name(app_name),
    ensures
        RegistryView::initial(app_name, identity).wf(),
        RegistryView::initial(app_name, identity).refers_to_hooks_only(),
{
}

/// As long as peers are reported by registered hooks and listeners, the
/// records refer to registered hooks only, whatever else happens.
pub proof fn law_references_kept(
    view: RegistryView,
    id: usize,
    hook: HookView,
    identity: RemoteIdentity,
    metadata: Map<Seq<char>, Seq<char>>,
    addrs: Seq<SocketAddress>,
    addr: SocketAddress,
    shutdown: tokio::sync::oneshot::Sender<()>,
)
    requires
        view.wf(),
        view.refers_to_hooks_only(),
    ensures
        view.with_hook(hook).refers_to_hooks_only(),
        view.with_metadata(metadata).refers_to_hooks_only(),
        view.with_listener_addr(id, addr).refers_to_hooks_only(),
        view.without_listener_addr(id, addr).refers_to_hooks_only(),
        view.without_hook(id).refers_to_hooks_only(),
        view.shut_down().refers_to_hooks_only(),
        view.hooks.contains_key(id) ==> view.with_discovery(
            id,
            identity,
            metadata,
            addrs,
        ).refers_to_hooks_only(),
        view.hooks.contains_key(id) ==> view.with_connection(
            id,
            identity,
            metadata,
            shutdown,
        ).refers_to_hooks_only(),
{
    lemma_unregistration_keeps_references(view, id);
    law_shutdown_empties_registry(view);
    let with_addr = view.with_listener_addr(id, addr);
    assert forall|i: int, other: usize|
        0 <= i < with_addr.peers.len() && (#[trigger] with_addr.peers[i]).mentions(
            other,
        ) implies #[trigger] with_addr.hooks.contains_key(other) by {
        assert(view.peers[i].mentions(other));
        assert(view.hooks.contains_key(other));
    }
    let without_addr = view.without_listener_addr(id, addr);
    assert forall|i: int, other: usize|
        0 <= i < without_addr.peers.len() && (#[trigger] without_addr.peers[i]).mentions(
            other,
        ) implies #[trigger] without_addr.hooks.contains_key(other) by {
        assert(view.peers[i].mentions(other));
        assert(view.hooks.contains_key(other));
    }
    let with_hook = view.with_hook(hook);
    assert forall|i: int, other: usize|
        0 <= i < with_hook.peers.len() && (#[trigger] with_hook.peers[i]).mentions(
            other,
        ) implies #[trigger] with_hook.hooks.contains_key(other) by {
        assert(view.peers[i].mentions(other));
        assert(view.hooks.contains_key(other));
    }
    if view.hooks.contains_key(id) {
        let at = if view.knows(identity) {
            index_of(view.peers, identity)
        } else {
            view.peers.len() as int
        };
        let base = view.peer_or_fresh(identity);
        let found = view.with_discovery(id, identity, metadata, addrs);
        assert forall|i: int, other: usize|
            0 <= i < found.peers.len() && (#[trigger] found.peers[i]).mentions(
                other,
            ) implies #[trigger] found.hooks.contains_key(other) by {
            if i == at {
                assert(found.peers[i] == base.discovered_by(id, metadata));
                if other != id {
                    assert(base.mentions(other));
                    assert(view.knows(identity));
                    assert(view.peers[at].mentions(other));
                    assert(view.hooks.contains_key(other));
                }
            } else {
                assert(found.peers[i] == view.peers[i]);
                assert(view.peers[i].mentions(other));
                assert(view.hooks.contains_key(other));
            }
        }
        let linked = view.with_connection(id, identity, metadata, shutdown);
        assert forall|i: int, other: usize|
            0 <= i < linked.peers.len() && (#[trigger] linked.peers[i]).mentions(
                other,
            ) implies #[trigger] linked.hooks.contains_key(other) by {
            if i == at {
                assert(linked.peers[i] == base.connected_with(id, metadata, shutdown));
                if other != id {
                    assert(base.mentions(other));
                    assert(view.knows(identity));
                    assert(view.peers[at].mentions(other));
                    assert(view.hooks.contains_key(other));
                }
            } else {
                assert(linked.peers[i] == view.peers[i]);
                assert(view.peers[i].mentions(other));
                assert(view.hooks.contains_key(other));
            }
        }
    }
}

/// A slot that was given once and is empty stays empty, whatever happens:
/// no operation fills a slot below the next one, and the next one never
/// moves down.
pub proof fn law_slots_never_refilled(
    view: RegistryView,
    old_slot: usize,
    id: usize,
    hook: HookView,
    identity: RemoteIdentity,
    metadata: Map<Seq<char>, Seq<char>>,
    addrs: Seq<SocketAddress>,
    addr: SocketAddress,
    shutdown: tokio::sync::oneshot::Sender<()>,
)
    requires
        view.wf(),
        old_slot < view.next_hook,
        !view.hooks.contains_key(old_slot),
    ensures
        !view.with_hook(hook).hooks.contains_key(old_slot),
        view.with_hook(hook).next_hook > view.next_hook,
        !view.with_metadata(metadata).hooks.contains_key(old_slot),
        view.with_metadata(metadata).next_hook == view.next_hook,
        !view.with_listener_addr(id, addr).hooks.contains_key(old_slot),
        view.with_listener_addr(id, addr).next_hook == view.next_hook,
        !view.without_listener_addr(id, addr).hooks.contains_key(old_slot),
        view.without_listener_addr(id, addr).next_hook == view.next_hook,
        !view.with_discovery(id, identity, metadata, addrs).hooks.contains_key(old_slot),
        view.with_discovery(id, identity, metadata, addrs).next_hook == view.next_hook,
        !view.with_connection(id, identity, metadata, shutdown).hooks.contains_key(old_slot),
        view.with_connection(id, identity, metadata, shutdown).next_hook == view.next_hook,
        !view.without_hook(id).hooks.contains_key(old_slot),
        view.without_hook(id).next_hook == view.next_hook,
{
}

} // verus!
