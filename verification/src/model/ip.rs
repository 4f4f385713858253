//! # Addresses, ranges and sets of them
//!
//! The vocabulary a scan's targets are written in, and the one question more
//! than one part of it has to agree about: whether an address names its host
//! from off the segment it is on.

use crate::model::ip::addr::Ipv6Addr;
use vstd::prelude::*;

pub mod addr;
pub mod holding;
pub mod positions;
pub mod range;
pub mod runs;
pub mod scoped;
pub mod set;

pub use addr::{IpAddr, Ipv4Addr};
pub use range::{IpError, IpRange, Ipv4Range, Ipv6Range};
pub use positions::{Positions, Walk};
pub use scoped::{ScopedIp, ScopedIpError, Zone};
pub use set::{IpSet, IpSetError};

verus! {

/// Whether an address is in `2000::/3`.
pub open spec fn in_global_unicast(addr: Ipv6Addr) -> bool {
    0x20 <= addr.leading() <= 0x3f
}

/// Whether an address is in `fc00::/7`.
pub open spec fn in_unique_local(addr: Ipv6Addr) -> bool {
    addr.leading() == 0xfc || addr.leading() == 0xfd
}

/// Whether `ipv6_addr` falls in `2000::/3`, the range IANA currently allocates
/// global unicast from.
///
/// A membership test rather than a routability claim: `2000::/3` contains
/// several special-purpose prefixes this does not exclude, because an address in
/// one of them is globally scoped all the same.
pub fn is_global_unicast(ipv6_addr: &Ipv6Addr) -> (result: bool)
    ensures
        result == in_global_unicast(*ipv6_addr),
{
    let first_byte: u8 = ipv6_addr.first_octet();
    0x20 <= first_byte && first_byte <= 0x3f
}

/// Whether `ipv6_addr` names its host from off the segment it is on: global
/// unicast or unique-local.
pub fn is_globally_scoped(ipv6_addr: &Ipv6Addr) -> (result: bool)
    ensures
        result == (in_global_unicast(*ipv6_addr) || in_unique_local(*ipv6_addr)),
{
    is_global_unicast(ipv6_addr) || is_unique_local(ipv6_addr)
}

/// Whether `addr` is in `fc00::/7`, the range reserved for addresses that are
/// unique across an organization but not routed onto the internet.
pub fn is_unique_local(addr: &Ipv6Addr) -> (result: bool)
    ensures
        result == in_unique_local(*addr),
{
    let first: u8 = addr.first_octet();
    assert(first & 0xfe == 0xfc <==> first == 0xfc || first == 0xfd) by (bit_vector);
    first & 0xfe == 0xfc
}

} // verus!
