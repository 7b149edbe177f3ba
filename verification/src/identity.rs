//! Node identities. The registry never looks inside one: it compares them,
//! copies them and uses the public half as the key of a peer.

use vstd::prelude::*;

verus! {

/// The public identity of a node: an opaque 256-bit token.
#[derive(Clone, Copy, Debug, PartialEq, Eq, Hash, Structural)]
pub struct RemoteIdentity {
    pub hi: u128,
    pub lo: u128,
}

impl RemoteIdentity {
    /// Builds the token from its two halves.
    pub fn new(hi: u128, lo: u128) -> (id: RemoteIdentity)
        ensures
            id == (RemoteIdentity { hi, lo }),
    {
        RemoteIdentity { hi, lo }
    }
}

/// The identity of the local node: a secret token together with the public
/// identity that belongs to it. How the two are derived from one another is
/// the business of whoever creates the value.
#[derive(Clone, Copy, Debug, PartialEq, Eq, Structural)]
pub struct Identity {
    secret: RemoteIdentity,
    public: RemoteIdentity,
}

impl Identity {
    /// The secret half, as a spec value.
    pub closed spec fn secret(&self) -> RemoteIdentity {
        self.secret
    }

    /// The public half, as a spec value.
    pub closed spec fn public(&self) -> RemoteIdentity {
        self.public
    }

    /// Pairs a secret token with its public identity.
    pub fn from_parts(secret: RemoteIdentity, public: RemoteIdentity) -> (id: Identity)
        ensures
            id.secret() == secret,
            id.public() == public,
    {
        Identity { secret, public }
    }

    /// The secret half. It must not leave the node.
    pub fn secret_token(&self) -> (token: RemoteIdentity)
        ensures
            token == self.secret(),
    {
        self.secret
    }

    /// The identity that may be shared with other nodes.
    pub fn to_remote_identity(&self) -> (remote: RemoteIdentity)
        ensures
            remote == self.public(),
    {
        self.public
    }
}

} // verus!
