//! Network addresses as plain values.

use vstd::prelude::*;

verus! {

/// A socket address: an IP address with a port, and for IPv6 the flow
/// information and the scope. Two addresses are equal when all parts are.
#[derive(Clone, Copy, Debug, PartialEq, Eq, Hash, Structural)]
#[allow(inconsistent_fields)]
pub enum SocketAddress {
    V4 { ip: u32, port: u16 },
    V6 { ip: u128, port: u16, flowinfo: u32, scope_id: u32 },
}

impl SocketAddress {
    /// The port of the address.
    pub open spec fn spec_port(self) -> u16 {
        match self {
            SocketAddress::V4 { port, .. } => port,
            SocketAddress::V6 { port, .. } => port,
        }
    }

    /// The port of the address.
    #[verifier::when_used_as_spec(spec_port)]
    pub fn port(self) -> (port: u16)
        ensures
            port == self.spec_port(),
    {
        match self {
            SocketAddress::V4 { port, .. } => port,
            SocketAddress::V6 { port, .. } => port,
        }
    }
}

} // verus!
