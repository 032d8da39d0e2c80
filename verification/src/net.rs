use vstd::prelude::*;

verus! {

/// An IPv4 address, as its four bytes.
#[derive(Clone, Copy, PartialEq, Eq, Structural, Debug)]
pub struct Ipv4Addr(pub u8, pub u8, pub u8, pub u8);

/// An IPv4 address and a UDP port.
#[derive(Clone, Copy, PartialEq, Eq, Structural, Debug)]
pub struct SocketAddress {
    pub ip: Ipv4Addr,
    pub port: u16,
}

/// The port of DNS servers.
pub const DNS_PORT: u16 = 53;

/// The address of the root server a.root-servers.net, where every resolution starts.
pub open spec fn root_server_spec() -> SocketAddress {
    SocketAddress { ip: Ipv4Addr(198, 41, 0, 4), port: 53 }
}

/// The address of the root server a.root-servers.net, where every resolution starts.
pub fn root_server() -> (a: SocketAddress)
    ensures
        a == root_server_spec(),
{
    SocketAddress { ip: Ipv4Addr(198, 41, 0, 4), port: DNS_PORT }
}

} // verus!
