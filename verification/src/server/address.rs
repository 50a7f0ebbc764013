//! Network addresses as plain values.

use vstd::prelude::*;

verus! {

/// The address that a datagram came from: the number of the host (an IPv4
/// address stands as the IPv6 address that maps it) and the port.
#[derive(Clone, Copy, Debug, PartialEq, Eq, Structural, Hash)]
pub struct Address {
    pub ip: u128,
    pub port: u16,
}

} // verus!
