//! Addresses as plain numbers.

use vstd::prelude::*;

verus! {

/// An IP address, as the number that its octets spell in network order.
#[derive(Clone, Copy, Debug, PartialEq, Eq, Structural)]
pub enum IpAddr {
    V4(u32),
    V6(u128),
}

/// The address of a socket. The last two numbers mean something in IPv6 only.
#[derive(Clone, Copy, Debug, PartialEq, Eq, Structural)]
pub struct SocketAddr {
    pub ip: IpAddr,
    pub port: u16,
    pub flowinfo: u32,
    pub scope_id: u32,
}

impl SocketAddr {
    /// The socket at `port` of `ip`, without flow information or a scope.
    pub open spec fn at(ip: IpAddr, port: u16) -> SocketAddr {
        SocketAddr { ip, port, flowinfo: 0, scope_id: 0 }
    }

    /// The socket at `port` of `ip`, without flow information or a scope.
    pub fn new(ip: IpAddr, port: u16) -> (addr: SocketAddr)
        ensures
            addr == SocketAddr::at(ip, port),
    {
        SocketAddr { ip, port, flowinfo: 0, scope_id: 0 }
    }
}

/// The address of a socket is made of the IP address and the port that it is given, whatever they
/// are, and of nothing else.
pub proof fn law_addresses_keep_their_parts(ip: IpAddr, port: u16, addr: SocketAddr)
    requires
        call_ensures(SocketAddr::new, (ip, port), addr),
    ensures
        call_requires(SocketAddr::new, (ip, port)),
        addr.ip == ip,
        addr.port == port,
        addr.flowinfo == 0,
        addr.scope_id == 0,
{
}

} // verus!
