//! The state core of a peer-to-peer node: a registry of known peers, of the
//! hooks that observe it and of the listeners that accept connections.
//!
//! The registry, [`P2P`], is a plain value that is changed through
//! `&mut self`; whoever shares it between threads puts it behind a lock.
//! What it holds is described by [`RegistryView`], and every operation
//! states which view it leaves behind. The events offered to the hooks'
//! queues, the calls of the listeners' acceptors and the connections that
//! are told to close are recorded, in order, in the view's trace.

pub mod address;
pub mod channel;
pub mod hooks;
pub mod identity;
pub mod laws;
pub mod metadata;
pub mod model;
pub mod name;
pub mod peer;
pub mod registry;
pub mod slots;

pub use address::SocketAddress;
pub use hooks::{Acceptor, HandlerFn, Hook, HookEvent, HookId, Listener, ListenerData, ListenerId};
pub use identity::{Identity, RemoteIdentity};
pub use metadata::{diff, Metadata, MetadataDiff};
pub use model::{Effect, RegistryView};
pub use name::{is_valid_app_name, APP_NAME_MAX};
pub use peer::Peer;
pub use registry::P2P;
pub use slots::SLOT_LIMIT;
