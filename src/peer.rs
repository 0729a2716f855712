use vstd::prelude::*;

verus! {

/// The host part of a peer's socket address.
#[derive(Clone, Copy, Debug, PartialEq, Eq, Hash, Structural)]
pub enum Host {
    V4(u32),
    V6(u128),
}

/// The remote address of a connection: host and port.
#[derive(Clone, Copy, Debug, PartialEq, Eq, Hash, Structural)]
pub struct PeerAddr {
    pub host: Host,
    pub port: u16,
}

impl PeerAddr {
    pub fn new(host: Host, port: u16) -> (r: PeerAddr)
        ensures
            r.host == host,
            r.port == port,
    {
        PeerAddr { host, port }
    }

    /// Whether both addresses name the same host and port.
    pub fn same_as(&self, other: &PeerAddr) -> (r: bool)
        ensures
            r == (*self == *other),
    {
        *self == *other
    }
}

} // verus!
