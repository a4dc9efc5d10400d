use vstd::prelude::*;

verus! {

/// A socket address: an IP address and a port. An IPv4 address is held as
/// its 32 bit value; an IPv6 address as its 128 bit value, with the port,
/// the flow label and the scope id.
#[derive(Clone, Copy, Debug, Hash, PartialEq, Eq, Structural)]
pub enum Address {
    V4(u32, u16),
    V6(u128, u16, u32, u32),
}

impl Address {
    /// The port of the address.
    pub fn port(&self) -> (r: u16)
        ensures
            r == (match *self {
                Address::V4(_, port) => port,
                Address::V6(_, port, _, _) => port,
            }),
    {
        match self {
            Address::V4(_, port) => *port,
            Address::V6(_, port, _, _) => *port,
        }
    }
}

} // verus!
