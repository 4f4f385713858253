//! # Scoped addresses
//!
//! An IPv6 link-local address is not an address on its own: `fe80::1` names a
//! different machine on every segment it is spoken on, and a socket cannot be
//! opened to one without the interface's scope id. [`ScopedIp`] is an address
//! together with the interface it is valid on, where it needs one. Addresses
//! that do not need a zone do not carry one, so equality stays the ordinary
//! thing for the ordinary case.

use crate::model::ip::addr;
use crate::model::ip::addr::{IpAddr, Ipv6Addr};
use crate::model::ip::range;
use crate::model::ip::range::{LINK_LOCAL_FIRST, LINK_LOCAL_LAST};
use crate::text;
use std::cmp::Ordering;
use vstd::prelude::*;
use vstd::slice::slice_subrange;

verus! {

/// The interface an address is scoped to.
///
/// Both halves are kept because they answer to different audiences: the index is
/// the only thing the kernel understands, and the name is what a person reads.
///
/// Identity is the index alone. Two `Zone`s naming the same interface are the
/// same zone whatever string was recorded alongside.
#[derive(Debug)]
pub struct Zone {
    index: u32,
    name: String,
}

/// What a [`Zone`] says.
pub struct ZoneView {
    pub index: u32,
    pub name: Seq<char>,
}

impl View for Zone {
    type V = ZoneView;

    closed spec fn view(&self) -> ZoneView {
        ZoneView { index: self.index, name: self.name@ }
    }
}

impl Zone {
    /// Names the interface with index `index`.
    pub fn new(index: u32, name: &str) -> (zone: Self)
        ensures
            zone@ == (ZoneView { index, name: name@ }),
    {
        Zone { index, name: name.to_owned() }
    }

    /// The interface index, as a socket address's scope id.
    pub fn index(&self) -> (index: u32)
        ensures
            index == self@.index,
    {
        self.index
    }

    /// The interface name, as a person writes it.
    pub fn name(&self) -> (name: &str)
        ensures
            name@ == self@.name,
    {
        self.name.as_str()
    }
}

impl Clone for Zone {
    fn clone(&self) -> (result: Self)
        ensures
            result@ == self@,
    {
        Zone { index: self.index, name: self.name.clone() }
    }
}

impl PartialEq for Zone {
    fn eq(&self, other: &Self) -> (result: bool) {
        self.index == other.index
    }
}

impl vstd::std_specs::cmp::PartialEqSpecImpl for Zone {
    open spec fn obeys_eq_spec() -> bool {
        true
    }

    open spec fn eq_spec(&self, other: &Self) -> bool {
        self@.index == other@.index
    }
}

impl Eq for Zone {

}

impl PartialOrd for Zone {
    fn partial_cmp(&self, other: &Self) -> (result: Option<Ordering>) {
        if self.index < other.index {
            Some(Ordering::Less)
        } else if self.index == other.index {
            Some(Ordering::Equal)
        } else {
            Some(Ordering::Greater)
        }
    }
}

impl vstd::std_specs::cmp::PartialOrdSpecImpl for Zone {
    open spec fn obeys_partial_cmp_spec() -> bool {
        true
    }

    open spec fn partial_cmp_spec(&self, other: &Self) -> Option<Ordering> {
        if self@.index < other@.index {
            Some(Ordering::Less)
        } else if self@.index == other@.index {
            Some(Ordering::Equal)
        } else {
            Some(Ordering::Greater)
        }
    }
}

/// Somewhere a socket can be opened to: an address, a port, and the interface to
/// send on where the address does not say.
#[derive(Debug, Clone, Copy, PartialEq, Eq, Structural)]
pub struct SocketAddr {
    pub ip: IpAddr,
    pub port: u16,
    pub scope_id: u32,
}

impl SocketAddr {
    /// An address and a port that need no interface.
    pub fn new(ip: IpAddr, port: u16) -> (socket: Self)
        ensures
            socket == (SocketAddr { ip, port, scope_id: 0 }),
    {
        SocketAddr { ip, port, scope_id: 0 }
    }
}

/// An IP address, carrying the interface it is valid on when it needs one.
///
/// Constructed through [`ScopedIp::scoped`], which drops a zone the address has
/// no use for. That is what keeps equality honest: a global address is the same
/// address whichever interface it was seen through. Only an address whose
/// meaning genuinely depends on the interface keeps one.
#[derive(Debug, PartialEq, Eq, PartialOrd)]
pub struct ScopedIp {
    /// Ordered first so sorting is by address, with the zone breaking ties
    /// between identically-numbered link-locals.
    addr: IpAddr,
    zone: Option<Zone>,
}

/// What a [`ScopedIp`] says.
pub struct ScopedView {
    pub addr: IpAddr,
    pub zone: Option<ZoneView>,
}

/// An optional zone, as what it says.
pub open spec fn zone_said(zone: Option<Zone>) -> Option<ZoneView> {
    match zone {
        Some(z) => Some(z@),
        None => None,
    }
}

/// Whether an address is meaningless without an interface: an IPv6 one in
/// `fe80::/10`.
pub open spec fn needs_a_zone(addr: IpAddr) -> bool {
    match addr {
        IpAddr::V4(_) => false,
        IpAddr::V6(a) => range::in_link_local(a.bits as int),
    }
}

impl View for ScopedIp {
    type V = ScopedView;

    closed spec fn view(&self) -> ScopedView {
        ScopedView { addr: self.addr, zone: zone_said(self.zone) }
    }
}

/// What every scoped address is: one that carries a zone only if it needs one.
pub open spec fn zone_is_needed(s: ScopedView) -> bool {
    s.zone is Some ==> needs_a_zone(s.addr)
}

impl ScopedIp {
    #[verifier::type_invariant]
    spec fn zone_has_a_use(self) -> bool {
        zone_is_needed(ScopedView { addr: self.addr, zone: zone_said(self.zone) })
    }

    /// An address that needs no interface to be meaningful.
    pub fn unscoped(addr: IpAddr) -> (scoped: Self)
        ensures
            scoped@ == (ScopedView { addr, zone: None }),
    {
        ScopedIp { addr, zone: None }
    }

    /// An address observed through `zone`, keeping the zone only if the address
    /// is one that needs it.
    pub fn scoped(addr: IpAddr, zone: Zone) -> (scoped: Self)
        ensures
            scoped@ == (ScopedView {
                addr,
                zone: if needs_a_zone(addr) {
                    Some(zone@)
                } else {
                    None
                },
            }),
    {
        if ScopedIp::needs_zone(&addr) {
            ScopedIp { addr, zone: Some(zone) }
        } else {
            ScopedIp { addr, zone: None }
        }
    }

    /// Whether an address is meaningless without an interface to interpret it
    /// against.
    ///
    /// IPv6 link-local unicast only. A global or unique-local address identifies
    /// its host on its own, an IPv4 address has no zone concept at all, and
    /// loopback is scoped to a single interface by definition.
    pub fn needs_zone(addr: &IpAddr) -> (needs: bool)
        ensures
            needs == needs_a_zone(*addr),
    {
        match addr {
            IpAddr::V4(_) => false,
            IpAddr::V6(v6) => LINK_LOCAL_FIRST <= v6.bits && v6.bits <= LINK_LOCAL_LAST,
        }
    }

    /// The address itself, without its zone.
    pub fn addr(&self) -> (addr: IpAddr)
        ensures
            addr == self@.addr,
    {
        self.addr
    }

    /// The interface this address is valid on, if it needs one.
    pub fn zone(&self) -> (zone: Option<&Zone>)
        ensures
            match zone {
                Some(z) => self@.zone == Some(z@),
                None => self@.zone is None,
            },
            zone_is_needed(self@),
    {
        proof {
            use_type_invariant(self);
        }
        match &self.zone {
            Some(zone) => Some(zone),
            None => None,
        }
    }

    /// Whether this address is one that needs a zone and does not have one.
    ///
    /// Such an address cannot be connected to, and the honest thing to do with
    /// it is say so.
    pub fn is_unusable(&self) -> (unusable: bool)
        ensures
            unusable == (needs_a_zone(self@.addr) && self@.zone is None),
    {
        ScopedIp::needs_zone(&self.addr) && self.zone.is_none()
    }

    /// This address as somewhere a socket can be opened to, or `None` when the
    /// address needs a zone and has none.
    pub fn to_socket_addr(&self, port: u16) -> (socket: Option<SocketAddr>)
        ensures
            socket == if needs_a_zone(self@.addr) && self@.zone is None {
                None
            } else {
                Some(
                    SocketAddr {
                        ip: self@.addr,
                        port,
                        scope_id: match self@.zone {
                            Some(z) => z.index,
                            None => 0,
                        },
                    },
                )
            },
    {
        if self.is_unusable() {
            return None;
        }
        match &self.zone {
            Some(zone) => Some(SocketAddr { ip: self.addr, port, scope_id: zone.index }),
            None => Some(SocketAddr::new(self.addr, port)),
        }
    }

    /// How a scoped address is written.
    pub open spec fn written(s: ScopedView) -> Seq<char> {
        match s.zone {
            Some(z) => addr::ip_text(s.addr).push('%') + z.name,
            None => addr::ip_text(s.addr),
        }
    }

    /// `fe80::1%en0` for a scoped address, the bare address otherwise. This is
    /// the notation every operating system's tooling accepts and the one a
    /// reader can paste back into a command.
    pub fn to_string(&self) -> (written: String)
        ensures
            written@ == ScopedIp::written(self@),
    {
        let mut written = self.addr.to_string();
        match &self.zone {
            Some(zone) => {
                written.push('%');
                written.append(zone.name.as_str());
            },
            None => {},
        }
        written
    }

    /// Reads `fe80::1%en0`, or any plain address.
    ///
    /// The interface index is not resolved here: this reads text, and looking
    /// up a name requires the host's interface list. A zone read this way
    /// carries index zero until something that knows the interfaces replaces it.
    pub fn parse(text: &str) -> (result: Result<ScopedIp, ScopedIpError>)
        ensures
            match (result, scoped_of(text@)) {
                (Ok(s), Ok(v)) => s@ == v,
                (Err(e), Err(f)) => e@ == f,
                _ => false,
            },
    {
        let chars = text::chars_of(text);
        let s = chars.as_slice();
        let n: usize = s.len();
        match text::find(s, '%') {
            None => match IpAddr::parse_chars(s) {
                Some(addr) => Ok(ScopedIp::unscoped(addr)),
                None => Err(ScopedIpError::NotAnAddress(text.to_owned())),
            },
            Some(pos) => {
                let before = slice_subrange(s, 0, pos);
                let after = slice_subrange(s, pos + 1, n);
                assert(before@ =~= text@.take(pos as int));
                assert(after@ =~= text@.skip(pos + 1));
                if after.len() == 0 {
                    return Err(ScopedIpError::EmptyZone);
                }
                match IpAddr::parse_chars(before) {
                    None => Err(ScopedIpError::NotAnAddress(text.to_owned())),
                    Some(addr) => {
                        if !ScopedIp::needs_zone(&addr) {
                            return Err(
                                ScopedIpError::ZoneOnUnscopedAddress(addr, text::text_of(after)),
                            );
                        }
                        let zone = Zone { index: 0, name: text::text_of(after) };
                        Ok(ScopedIp { addr, zone: Some(zone) })
                    },
                }
            },
        }
    }

    /// What is written reads back: the same address, and an interface of the
    /// same name, which reading alone cannot number.
    pub proof fn lemma_written_reads_back(s: ScopedView)
        requires
            zone_is_needed(s),
            s.zone is Some ==> s.zone->0.name.len() > 0,
        ensures
            scoped_of(ScopedIp::written(s)) == Ok::<ScopedView, ScopedFault>(
                ScopedView {
                    addr: s.addr,
                    zone: match s.zone {
                        Some(z) => Some(ZoneView { index: 0, name: z.name }),
                        None => None,
                    },
                },
            ),
    {
        let a = addr::ip_text(s.addr);
        let w = ScopedIp::written(s);
        addr::lemma_ip_text_reads_back(s.addr);
        addr::lemma_ip_text_is_address_chars(s.addr);
        assert forall|i: int| 0 <= i < a.len() implies #[trigger] w[i] != '%' by {
            assert(addr::is_address_char(a[i]));
        }
        text::lemma_upto_is(w, '%', a.len() as int);
        assert(w.take(a.len() as int) =~= a);
        if s.zone is Some {
            assert(w.skip(a.len() as int + 1) =~= s.zone->0.name);
        }
    }
}

impl Clone for ScopedIp {
    fn clone(&self) -> (result: Self)
        ensures
            result@ == self@,
    {
        proof {
            use_type_invariant(self);
        }
        match &self.zone {
            Some(zone) => ScopedIp { addr: self.addr, zone: Some(zone.clone()) },
            None => ScopedIp { addr: self.addr, zone: None },
        }
    }
}

/// Why a scoped address could not be read from a string.
#[non_exhaustive]
#[derive(Debug, PartialEq, Eq)]
pub enum ScopedIpError {
    /// The text, or what stands before its `%`, is not an address.
    NotAnAddress(String),
    /// A zone was written on an address that has no use for one. Accepting it
    /// silently would let two spellings of the same address compare unequal.
    ZoneOnUnscopedAddress(IpAddr, String),
    /// `%` with no interface after it.
    EmptyZone,
}

/// What a [`ScopedIpError`] says.
pub enum ScopedFault {
    NotAnAddress(Seq<char>),
    ZoneOnUnscopedAddress(IpAddr, Seq<char>),
    EmptyZone,
}

impl View for ScopedIpError {
    type V = ScopedFault;

    open spec fn view(&self) -> ScopedFault {
        match self {
            ScopedIpError::NotAnAddress(text) => ScopedFault::NotAnAddress(text@),
            ScopedIpError::ZoneOnUnscopedAddress(addr, zone) => ScopedFault::ZoneOnUnscopedAddress(
                *addr,
                zone@,
            ),
            ScopedIpError::EmptyZone => ScopedFault::EmptyZone,
        }
    }
}

impl ScopedIpError {
    /// What went wrong, and with what.
    pub fn to_string(&self) -> (message: String)
        ensures
            message@ == match self@ {
                ScopedFault::NotAnAddress(text) => "not an IP address: "@ + text,
                ScopedFault::ZoneOnUnscopedAddress(addr, zone) => addr::ip_text(addr)
                    + " is not a link-local address, so `%"@ + zone + "` means nothing"@,
                ScopedFault::EmptyZone => "`%` with no interface after it"@,
            },
    {
        match self {
            ScopedIpError::NotAnAddress(text) => {
                let mut message = "not an IP address: ".to_owned();
                message.append(text.as_str());
                message
            },
            ScopedIpError::ZoneOnUnscopedAddress(addr, zone) => {
                let mut message = addr.to_string();
                message.append(" is not a link-local address, so `%");
                message.append(zone.as_str());
                message.append("` means nothing");
                message
            },
            ScopedIpError::EmptyZone => "`%` with no interface after it".to_owned(),
        }
    }
}

/// The scoped address a text writes: an address, and behind the first `%` the
/// name of an interface where the address needs one.
pub open spec fn scoped_of(s: Seq<char>) -> Result<ScopedView, ScopedFault> {
    if !text::holds(s, '%') {
        match addr::ip_of(s) {
            Some(addr) => Ok(ScopedView { addr, zone: None }),
            None => Err(ScopedFault::NotAnAddress(s)),
        }
    } else {
        let pos = text::upto(s, '%');
        let name = s.skip(pos + 1);
        if name.len() == 0 {
            Err(ScopedFault::EmptyZone)
        } else {
            match addr::ip_of(s.take(pos)) {
                None => Err(ScopedFault::NotAnAddress(s)),
                Some(addr) => if needs_a_zone(addr) {
                    Ok(ScopedView { addr, zone: Some(ZoneView { index: 0, name }) })
                } else {
                    Err(ScopedFault::ZoneOnUnscopedAddress(addr, name))
                },
            }
        }
    }
}

/// An address that is not link-local is the same address through any interface:
/// two accounts of it never differ in a zone.
pub proof fn lemma_a_global_address_is_the_same_through_any_interface(
    a: ScopedView,
    b: ScopedView,
)
    requires
        zone_is_needed(a),
        zone_is_needed(b),
        a.addr == b.addr,
        !needs_a_zone(a.addr),
    ensures
        a == b,
{
}

impl std::str::FromStr for ScopedIp {
    type Err = ScopedIpError;

    fn from_str(text: &str) -> (result: Result<ScopedIp, ScopedIpError>)
        ensures
            match (result, scoped_of(text@)) {
                (Ok(s), Ok(v)) => s@ == v,
                (Err(e), Err(f)) => e@ == f,
                _ => false,
            },
    {
        ScopedIp::parse(text)
    }
}

impl From<IpAddr> for ScopedIp {
    fn from(addr: IpAddr) -> (scoped: ScopedIp)
        ensures
            scoped@ == (ScopedView { addr, zone: None }),
    {
        ScopedIp { addr, zone: None }
    }
}

impl vstd::std_specs::convert::FromSpecImpl<IpAddr> for ScopedIp {
    open spec fn obeys_from_spec() -> bool {
        true
    }

    closed spec fn from_spec(addr: IpAddr) -> ScopedIp {
        ScopedIp { addr, zone: None }
    }
}

impl Default for ScopedIp {
    /// The unspecified address.
    fn default() -> (scoped: ScopedIp)
        ensures
            scoped@ == (ScopedView { addr: IpAddr::V6(Ipv6Addr { bits: 0 }), zone: None }),
    {
        ScopedIp::unscoped(IpAddr::V6(Ipv6Addr::unspecified()))
    }
}

/// An address needs an interface exactly where it is an IPv6 one whose first ten
/// bits are those of `fe80::/10`.
pub proof fn lemma_only_link_local_addresses_need_a_zone(addr: IpAddr)
    ensures
        needs_a_zone(addr) <==> (addr matches IpAddr::V6(a) && a.bits
            / 0x40_0000_0000_0000_0000_0000_0000_0000 == 0x3fa),
{
}

} // verus!
