//! Hooks: the observers of the registry, and the listeners among them.

use vstd::prelude::*;
use crate::address::SocketAddress;
use crate::identity::RemoteIdentity;
use crate::peer::Peer;

verus! {

/// Names a registered hook: the slot that it occupies.
#[derive(Clone, Copy, Debug, PartialEq, Eq, Hash, Structural)]
pub struct HookId(pub usize);

/// Names a registered listener. A listener is a hook, and the number is the
/// one of its slot.
#[derive(Clone, Copy, Debug, PartialEq, Eq, Hash, Structural)]
pub struct ListenerId(pub usize);

impl HookId {
    /// The same slot, named as a listener.
    pub fn as_listener(self) -> (id: ListenerId)
        ensures
            id.0 == self.0,
    {
        ListenerId(self.0)
    }
}

impl ListenerId {
    /// The same slot, named as a hook.
    pub fn as_hook(self) -> (id: HookId)
        ensures
            id.0 == self.0,
    {
        HookId(self.0)
    }
}

/// What a hook is told. A peer is named by its identity.
#[derive(Clone, Copy, Debug, PartialEq, Eq, Structural)]
pub enum HookEvent {
    /// The metadata of the local node changed.
    MetadataModified,
    /// A peer entered the registry.
    PeerAvailable(RemoteIdentity),
    /// A hook reported a peer as discovered.
    PeerDiscoveredBy(HookId, RemoteIdentity),
    /// A listener reported a connection to a peer.
    PeerConnectedWith(ListenerId, RemoteIdentity),
    /// A listener is reachable at an address.
    ListenerRegistered { id: ListenerId, addr: SocketAddress },
    /// A listener gave up an address, or left.
    ListenerUnregistered(ListenerId),
    /// The hook itself was unregistered. Nothing follows.
    Shutdown,
}

/// The callback of a listener: told of each discovered peer and of the
/// addresses at which it was seen.
pub trait Acceptor: Send + Sync {
    fn accept(&self, peer: &Peer, addrs: &Vec<SocketAddress>);
}

/// A value kept as it was given. A boxed trait object that is put straight
/// into a field of its own type counts as converted on the way, and Verus
/// then no longer knows which box the field holds; through a field of a
/// type parameter it goes unchanged.
pub struct Kept<T> {
    value: T,
}

impl<T> Kept<T> {
    /// The value that is kept.
    pub closed spec fn value(self) -> T {
        self.value
    }
}

/// An acceptor, boxed, as a listener holds it.
pub struct HandlerFn {
    inner: Kept<Box<dyn Acceptor>>,
}

impl HandlerFn {
    /// The acceptor that the handler holds.
    pub closed spec fn acceptor(&self) -> Kept<Box<dyn Acceptor>> {
        self.inner
    }

    /// Takes hold of `acceptor`: the handler holds this very box.
    pub fn new(acceptor: Box<dyn Acceptor>) -> (handler: HandlerFn)
        ensures
            handler.acceptor().value() == acceptor,
    {
        let inner = Kept { value: acceptor };
        HandlerFn { inner }
    }

    /// Calls the acceptor.
    pub(crate) fn call(&self, peer: &Peer, addrs: &Vec<SocketAddress>) {
        self.inner.value.accept(peer, addrs)
    }
}

/// What makes a hook a listener.
pub struct ListenerData {
    /// The addresses on which the listener accepts connections, none twice.
    pub addrs: Vec<SocketAddress>,
    /// Called for each discovered peer.
    pub acceptor: HandlerFn,
}

/// A registered observer.
pub struct Hook {
    /// A name for people to read.
    pub name: &'static str,
    /// The queue into which the hook's events go.
    pub tx: tokio::sync::mpsc::Sender<HookEvent>,
    /// Present when the hook is a listener.
    pub listener: Option<ListenerData>,
}

/// What makes a hook a listener, as a mathematical value.
pub struct ListenerView {
    /// The addresses on which the listener accepts connections.
    pub addrs: Seq<SocketAddress>,
    /// The callback of the listener.
    pub acceptor: HandlerFn,
}

/// A registered observer as a mathematical value.
pub struct HookView {
    /// The name of the hook.
    pub name: &'static str,
    /// The queue into which the hook's events go.
    pub tx: tokio::sync::mpsc::Sender<HookEvent>,
    /// Present when the hook is a listener.
    pub listener: Option<ListenerView>,
}

impl HookView {
    /// Whether the hook is a listener.
    pub open spec fn is_listener(self) -> bool {
        self.listener is Some
    }

    /// The addresses of a listener; none for a plain hook.
    pub open spec fn addrs(self) -> Seq<SocketAddress> {
        match self.listener {
            Some(data) => data.addrs,
            None => Seq::empty(),
        }
    }

    /// The hook with the addresses `addrs`, if it is a listener; a plain
    /// hook stays as it is.
    pub open spec fn with_addrs(self, addrs: Seq<SocketAddress>) -> HookView {
        match self.listener {
            Some(data) => HookView { listener: Some(ListenerView { addrs, ..data }), ..self },
            None => self,
        }
    }
}

impl View for ListenerData {
    type V = ListenerView;

    open spec fn view(&self) -> ListenerView {
        ListenerView { addrs: self.addrs@, acceptor: self.acceptor }
    }
}

impl View for Hook {
    type V = HookView;

    open spec fn view(&self) -> HookView {
        HookView {
            name: self.name,
            tx: self.tx,
            listener: match self.listener {
                Some(data) => Some(data@),
                None => None,
            },
        }
    }
}

/// A listener as the registry shows it.
#[derive(Debug)]
#[non_exhaustive]
pub struct Listener {
    pub id: ListenerId,
    pub name: &'static str,
    pub addrs: Vec<SocketAddress>,
}

} // verus!
