//! # Contiguous runs of addresses
//!
//! [`Ipv4Range`] and [`Ipv6Range`] are inclusive at both ends and never inverted:
//! the constructors refuse to build one out of order, and the one mutation there
//! is can only move an end away from its start. [`IpRange`] is either, and
//! [`range_of`] is the whole grammar of a written range.

use crate::model::ip::addr::{IpAddr, Ipv4Addr, Ipv6Addr, MAPPED_FIRST, MAPPED_LAST};
use crate::model::ip::addr;
use crate::text;
use crate::text::NumberFault;
use vstd::arithmetic::{div_mod, power2};
use vstd::prelude::*;
use vstd::slice::slice_subrange;

verus! {

/// Why a range could not be built or read.
///
/// [`InvalidFormat`](Self::InvalidFormat), [`AddrParse`](Self::AddrParse) and
/// [`PrefixParse`](Self::PrefixParse) mean "this is not a range", which is also
/// what a hostname looks like from here, while the other two mean "this is a
/// range, and it is wrong".
#[non_exhaustive]
#[derive(Debug, Clone, PartialEq, Eq)]
pub enum IpError {
    /// The start address is above the end. Both are named, since which of the
    /// two was mistyped is the reader's to work out.
    InvalidRange(IpAddr, IpAddr),
    /// A CIDR prefix longer than its family allows.
    InvalidPrefix(u8),
    /// Not an address at all, on either side of a separator.
    AddrParse(AddrFault),
    /// Recognisably a range, having a separator, but not one this grammar
    /// accepts.
    InvalidFormat(String),
    /// The text after `/` was not a number.
    PrefixParse(NumberFault),
}

/// What was expected where no address stood.
#[derive(Debug, Clone, Copy, PartialEq, Eq, Structural)]
pub enum AddrFault {
    /// An address of either family.
    Ip,
    /// An IPv6 address.
    Ipv6,
}

impl AddrFault {
    /// The fault in words.
    pub open spec fn words(self) -> Seq<char> {
        match self {
            AddrFault::Ip => "invalid IP address syntax"@,
            AddrFault::Ipv6 => "invalid IPv6 address syntax"@,
        }
    }

    /// The fault in words.
    pub fn message(self) -> (message: &'static str)
        ensures
            message@ == self.words(),
    {
        match self {
            AddrFault::Ip => "invalid IP address syntax",
            AddrFault::Ipv6 => "invalid IPv6 address syntax",
        }
    }
}

/// What an [`IpError`] says.
pub enum RangeFault {
    InvalidRange(IpAddr, IpAddr),
    InvalidPrefix(u8),
    AddrParse(AddrFault),
    InvalidFormat(Seq<char>),
    PrefixParse(NumberFault),
}

impl View for IpError {
    type V = RangeFault;

    open spec fn view(&self) -> RangeFault {
        match self {
            IpError::InvalidRange(start, end) => RangeFault::InvalidRange(*start, *end),
            IpError::InvalidPrefix(prefix) => RangeFault::InvalidPrefix(*prefix),
            IpError::AddrParse(fault) => RangeFault::AddrParse(*fault),
            IpError::InvalidFormat(text) => RangeFault::InvalidFormat(text@),
            IpError::PrefixParse(fault) => RangeFault::PrefixParse(*fault),
        }
    }
}

/// What a fault says, and of what.
pub open spec fn fault_text(fault: RangeFault) -> Seq<char> {
    match fault {
        RangeFault::InvalidRange(start, end) => "Invalid range: start address "@ + addr::ip_text(
            start,
        ) + " is greater than end address "@ + addr::ip_text(end),
        RangeFault::InvalidPrefix(prefix) => "Invalid CIDR prefix: "@ + text::decimal(
            prefix as nat,
        ),
        RangeFault::AddrParse(fault) => "Failed to parse IP address: "@ + fault.words(),
        RangeFault::InvalidFormat(written) => "Invalid IP range format: "@ + written,
        RangeFault::PrefixParse(fault) => "Invalid prefix number format: "@ + fault.words(),
    }
}

impl IpError {
    /// What went wrong, and with what.
    pub fn to_string(&self) -> (message: String)
        ensures
            message@ == fault_text(self@),
    {
        match self {
            IpError::InvalidRange(start, end) => {
                let mut message = "Invalid range: start address ".to_owned();
                let (start, end) = (start.to_string(), end.to_string());
                message.append(start.as_str());
                message.append(" is greater than end address ");
                message.append(end.as_str());
                message
            },
            IpError::InvalidPrefix(prefix) => {
                let mut message = "Invalid CIDR prefix: ".to_owned();
                text::push_decimal(&mut message, *prefix as u128);
                message
            },
            IpError::AddrParse(fault) => {
                let mut message = "Failed to parse IP address: ".to_owned();
                message.append(fault.message());
                message
            },
            IpError::InvalidFormat(written) => {
                let mut message = "Invalid IP range format: ".to_owned();
                message.append(written.as_str());
                message
            },
            IpError::PrefixParse(fault) => {
                let mut message = "Invalid prefix number format: ".to_owned();
                message.append(fault.message());
                message
            },
        }
    }
}

/// The first address of `fe80::/10`.
pub const LINK_LOCAL_FIRST: u128 = 0xfe80_0000_0000_0000_0000_0000_0000_0000;

/// The last address of `fe80::/10`.
pub const LINK_LOCAL_LAST: u128 = 0xfebf_ffff_ffff_ffff_ffff_ffff_ffff_ffff;

/// A contiguous run of IPv4 addresses, inclusive at both ends.
///
/// The start is never above the end: an inverted range has a length that cannot
/// be represented and yields nothing when iterated, so the two would disagree
/// about what it holds.
#[derive(Debug, Clone, Copy, PartialEq, Eq, Hash, Structural)]
pub struct Ipv4Range {
    start_addr: Ipv4Addr,
    end_addr: Ipv4Addr,
}

impl Ipv4Range {
    /// The inclusive first address, as a number.
    pub closed spec fn first(&self) -> int {
        self.start_addr.bits as int
    }

    /// The inclusive last address, as a number.
    pub closed spec fn last(&self) -> int {
        self.end_addr.bits as int
    }

    /// Whether an address, as a number, is in the range.
    pub open spec fn has(&self, n: int) -> bool {
        self.first() <= n <= self.last()
    }

    /// What every range is: in order, and within its address space.
    #[verifier::type_invariant]
    pub open spec fn is_range(&self) -> bool {
        0 <= self.first() <= self.last() <= u32::MAX
    }

    /// A range's ends are all there is to it.
    pub proof fn lemma_the_ends_are_the_range(a: Ipv4Range, b: Ipv4Range)
        requires
            a.first() == b.first(),
            a.last() == b.last(),
        ensures
            a == b,
    {
    }

    /// Creates a new `Ipv4Range`, or [`IpError::InvalidRange`] if `start` is
    /// numerically greater than `end`.
    pub fn new(start: Ipv4Addr, end: Ipv4Addr) -> (range: Result<Self, IpError>)
        ensures
            match range {
                Ok(r) => start.bits <= end.bits && r.first() == start.bits && r.last() == end.bits,
                Err(e) => start.bits > end.bits && e@ == RangeFault::InvalidRange(
                    IpAddr::V4(start),
                    IpAddr::V4(end),
                ),
            },
    {
        if start.bits <= end.bits {
            Ok(Ipv4Range { start_addr: start, end_addr: end })
        } else {
            Err(IpError::InvalidRange(IpAddr::V4(start), IpAddr::V4(end)))
        }
    }

    /// Every address in the range, ascending.
    pub fn iter(&self) -> (addresses: Addresses)
        ensures
            addresses@ == (Span { v6: false, next: self.first(), end: self.last() + 1 }),
    {
        proof {
            use_type_invariant(self);
        }
        Addresses {
            v6: false,
            next: self.start_addr.bits as u128,
            last: self.end_addr.bits as u128,
            finished: false,
        }
    }

    /// A range covering the single address `addr`.
    pub fn single(addr: Ipv4Addr) -> (range: Self)
        ensures
            range.first() == addr.bits,
            range.last() == addr.bits,
    {
        Ipv4Range { start_addr: addr, end_addr: addr }
    }

    /// The inclusive first address.
    pub fn start_addr(&self) -> (addr: Ipv4Addr)
        ensures
            addr.bits == self.first(),
            self.is_range(),
    {
        proof {
            use_type_invariant(self);
        }
        self.start_addr
    }

    /// The inclusive last address, never lower than
    /// [`start_addr`](Self::start_addr).
    pub fn end_addr(&self) -> (addr: Ipv4Addr)
        ensures
            addr.bits == self.last(),
            self.is_range(),
    {
        proof {
            use_type_invariant(self);
        }
        self.end_addr
    }

    /// Extends this range to reach `end`, if it does not already.
    ///
    /// The only mutation a range allows. Growing the end cannot put it below the
    /// start, so the ordering survives without a check.
    pub fn extend_end_to(&mut self, end: Ipv4Addr)
        ensures
            final(self).first() == old(self).first(),
            final(self).last() == if end.bits > old(self).last() {
                end.bits as int
            } else {
                old(self).last()
            },
    {
        proof {
            use_type_invariant(&*self);
        }
        if end.bits > self.end_addr.bits {
            *self = Ipv4Range { start_addr: self.start_addr, end_addr: end };
        }
    }

    /// Whether the given [`Ipv4Addr`] falls within this range (inclusive).
    pub fn contains(&self, ip: &Ipv4Addr) -> (held: bool)
        ensures
            held == self.has(ip.bits as int),
    {
        self.start_addr.bits <= ip.bits && ip.bits <= self.end_addr.bits
    }

    /// How many addresses the range covers, never fewer than one.
    pub fn len(&self) -> (len: u64)
        ensures
            len == self.last() - self.first() + 1,
            len >= 1,
    {
        proof {
            use_type_invariant(self);
        }
        (self.end_addr.bits - self.start_addr.bits) as u64 + 1
    }
}

/// A contiguous run of IPv6 addresses, inclusive at both ends, together with the
/// interface they are valid on if they need one.
///
/// The start is never above the end, for the reason [`Ipv4Range`] gives, and no
/// range is on interface zero, which is what a name lookup returns when there is
/// no such interface.
#[derive(Debug, Clone, Copy, PartialEq, Eq, Hash, Structural)]
pub struct Ipv6Range {
    start_addr: Ipv6Addr,
    end_addr: Ipv6Addr,
    zone: Option<u32>,
}

/// The interface a scope id names: none if it is zero.
pub open spec fn zone_named(zone: Option<u32>) -> Option<u32> {
    if zone == Some(0u32) {
        None
    } else {
        zone
    }
}

impl Ipv6Range {
    /// The inclusive first address, as a number.
    pub closed spec fn first(&self) -> int {
        self.start_addr.bits as int
    }

    /// The inclusive last address, as a number.
    pub closed spec fn last(&self) -> int {
        self.end_addr.bits as int
    }

    /// The interface these addresses are valid on.
    pub closed spec fn on(&self) -> Option<u32> {
        self.zone
    }

    /// Whether an address, as a number, is in the range.
    pub open spec fn has(&self, n: int) -> bool {
        self.first() <= n <= self.last()
    }

    /// What every range is: in order, within its address space, and never on
    /// interface zero.
    #[verifier::type_invariant]
    pub open spec fn is_range(&self) -> bool {
        0 <= self.first() <= self.last() <= u128::MAX && self.on() != Some(0u32)
    }

    /// A range's ends and its interface are all there is to it.
    pub proof fn lemma_the_ends_are_the_range(a: Ipv6Range, b: Ipv6Range)
        requires
            a.first() == b.first(),
            a.last() == b.last(),
            a.on() == b.on(),
        ensures
            a == b,
    {
    }

    /// Creates a new `Ipv6Range` on no particular interface, or
    /// [`IpError::InvalidRange`] if `start` is numerically greater than `end`.
    pub fn new(start: Ipv6Addr, end: Ipv6Addr) -> (range: Result<Self, IpError>)
        ensures
            match range {
                Ok(r) => start.bits <= end.bits && r.first() == start.bits && r.last() == end.bits
                    && r.on() is None,
                Err(e) => start.bits > end.bits && e@ == RangeFault::InvalidRange(
                    IpAddr::V6(start),
                    IpAddr::V6(end),
                ),
            },
    {
        Self::scoped(start, end, None)
    }

    /// Creates an `Ipv6Range` valid on the interface with scope id `zone`.
    ///
    /// `Some(0)` is read as `None`: zero is what a name lookup returns when there
    /// is no such interface, so a range carrying it names no segment.
    pub fn scoped(start: Ipv6Addr, end: Ipv6Addr, zone: Option<u32>) -> (range: Result<
        Self,
        IpError,
    >)
        ensures
            match range {
                Ok(r) => start.bits <= end.bits && r.first() == start.bits && r.last() == end.bits
                    && r.on() == zone_named(zone),
                Err(e) => start.bits > end.bits && e@ == RangeFault::InvalidRange(
                    IpAddr::V6(start),
                    IpAddr::V6(end),
                ),
            },
    {
        if start.bits <= end.bits {
            let zone = match zone {
                Some(index) => if index == 0 {
                    None
                } else {
                    Some(index)
                },
                None => None,
            };
            Ok(Ipv6Range { start_addr: start, end_addr: end, zone })
        } else {
            Err(IpError::InvalidRange(IpAddr::V6(start), IpAddr::V6(end)))
        }
    }

    /// A range covering the single address `addr`, on no particular interface.
    pub fn single(addr: Ipv6Addr) -> (range: Self)
        ensures
            range.first() == addr.bits,
            range.last() == addr.bits,
            range.on() is None,
    {
        Ipv6Range { start_addr: addr, end_addr: addr, zone: None }
    }

    /// The inclusive first address.
    pub fn start_addr(&self) -> (addr: Ipv6Addr)
        ensures
            addr.bits == self.first(),
            self.is_range(),
    {
        proof {
            use_type_invariant(self);
        }
        self.start_addr
    }

    /// The inclusive last address, never lower than
    /// [`start_addr`](Self::start_addr).
    pub fn end_addr(&self) -> (addr: Ipv6Addr)
        ensures
            addr.bits == self.last(),
            self.is_range(),
    {
        proof {
            use_type_invariant(self);
        }
        self.end_addr
    }

    /// Extends this range to reach `end`, if it does not already.
    pub fn extend_end_to(&mut self, end: Ipv6Addr)
        ensures
            final(self).first() == old(self).first(),
            final(self).on() == old(self).on(),
            final(self).last() == if end.bits > old(self).last() {
                end.bits as int
            } else {
                old(self).last()
            },
    {
        proof {
            use_type_invariant(&*self);
        }
        if end.bits > self.end_addr.bits {
            *self = Ipv6Range { start_addr: self.start_addr, end_addr: end, zone: self.zone };
        }
    }

    /// The interface these addresses are valid on, as a scope id, if they need
    /// one.
    pub fn zone(&self) -> (zone: Option<u32>)
        ensures
            zone == self.on(),
            self.is_range(),
    {
        proof {
            use_type_invariant(self);
        }
        self.zone
    }

    /// Whether any address in the range is in `fe80::/10`.
    pub open spec fn touches_link_local(&self) -> bool {
        exists|n: int| self.has(n) && #[trigger] in_link_local(n)
    }

    /// Whether these addresses are meaningless without an interface to
    /// interpret them against, and none is recorded.
    ///
    /// True where *any* of the range is link-local, which is the direction a
    /// safety question has to fail in.
    pub fn is_ambiguous(&self) -> (ambiguous: bool)
        ensures
            ambiguous == (self.on() is None && self.touches_link_local()),
    {
        self.zone.is_none() && self.covers_link_local()
    }

    /// Whether any address in the range is in `fe80::/10`.
    pub fn covers_link_local(&self) -> (covers: bool)
        ensures
            covers == self.touches_link_local(),
    {
        proof {
            use_type_invariant(self);
            let n = if self.first() >= LINK_LOCAL_FIRST {
                self.first()
            } else {
                LINK_LOCAL_FIRST as int
            };
            if self.first() <= LINK_LOCAL_LAST && self.last() >= LINK_LOCAL_FIRST {
                assert(self.has(n) && in_link_local(n));
            }
        }
        self.start_addr.bits <= LINK_LOCAL_LAST && self.end_addr.bits >= LINK_LOCAL_FIRST
    }

    /// Whether every address in the range is in `fe80::/10`.
    ///
    /// What a `%zone` suffix needs to be true of the thing it is written on.
    pub fn is_link_local(&self) -> (all: bool)
        ensures
            all == (forall|n: int| self.has(n) ==> #[trigger] in_link_local(n)),
    {
        proof {
            use_type_invariant(self);
            assert(self.has(self.first()) && self.has(self.last()));
            if forall|n: int| self.has(n) ==> #[trigger] in_link_local(n) {
                assert(in_link_local(self.first()) && in_link_local(self.last()));
            }
        }
        self.start_addr.bits >= LINK_LOCAL_FIRST && self.end_addr.bits <= LINK_LOCAL_LAST
    }

    /// Every address in the range, ascending.
    pub fn iter(&self) -> (addresses: Addresses)
        ensures
            addresses@ == (Span { v6: true, next: self.first(), end: self.last() + 1 }),
    {
        proof {
            use_type_invariant(self);
        }
        Addresses {
            v6: true,
            next: self.start_addr.bits,
            last: self.end_addr.bits,
            finished: false,
        }
    }

    /// Whether the given [`Ipv6Addr`] falls within this range (inclusive).
    ///
    /// Blind to the zone: a received packet carries a bare address with no
    /// interface attached to compare against.
    pub fn contains(&self, ip: &Ipv6Addr) -> (held: bool)
        ensures
            held == self.has(ip.bits as int),
    {
        self.start_addr.bits <= ip.bits && ip.bits <= self.end_addr.bits
    }

    /// How many addresses the range covers, never fewer than one.
    ///
    /// `::/0` covers one more address than a `u128` can hold, so the count
    /// saturates at [`u128::MAX`].
    pub fn len(&self) -> (len: u128)
        ensures
            len == saturated(self.last() - self.first() + 1),
            len >= 1,
    {
        proof {
            use_type_invariant(self);
        }
        (self.end_addr.bits - self.start_addr.bits).saturating_add(1)
    }

    /// The IPv4 range this one spells, if it lies wholly inside `::ffff:0:0/96`.
    pub open spec fn spells(&self) -> bool {
        MAPPED_FIRST <= self.first() && self.last() <= MAPPED_LAST
    }

    /// The IPv4 range this one spells: the same addresses written the other way,
    /// where the whole of it lies inside `::ffff:0:0/96`.
    pub fn spelled_ipv4(&self) -> (range: Option<Ipv4Range>)
        ensures
            match range {
                Some(r) => self.spells() && r.first() == self.first() - MAPPED_FIRST && r.last()
                    == self.last() - MAPPED_FIRST,
                None => !self.spells(),
            },
    {
        proof {
            use_type_invariant(self);
        }
        let (start, end) = (self.start_addr.bits, self.end_addr.bits);
        if MAPPED_FIRST <= start && end <= MAPPED_LAST {
            Some(
                Ipv4Range {
                    start_addr: Ipv4Addr { bits: (start - MAPPED_FIRST) as u32 },
                    end_addr: Ipv4Addr { bits: (end - MAPPED_FIRST) as u32 },
                },
            )
        } else {
            None
        }
    }
}

/// Whether an IPv6 address, as a number, is in `fe80::/10`.
pub open spec fn in_link_local(n: int) -> bool {
    LINK_LOCAL_FIRST <= n <= LINK_LOCAL_LAST
}

/// A count as far as a `u128` can hold it.
pub open spec fn saturated(n: int) -> u128 {
    if n > u128::MAX {
        u128::MAX
    } else {
        n as u128
    }
}

/// What is left of a walk over the addresses of one family.
pub struct Span {
    pub v6: bool,
    pub next: int,
    pub end: int,
}

/// The address of a family with the given number.
pub open spec fn numbered(v6: bool, n: int) -> IpAddr {
    if v6 {
        IpAddr::V6(Ipv6Addr { bits: n as u128 })
    } else {
        IpAddr::V4(Ipv4Addr { bits: n as u32 })
    }
}

/// A walk over the addresses of a range, ascending.
#[derive(Debug, Clone, Copy)]
pub struct Addresses {
    v6: bool,
    next: u128,
    last: u128,
    finished: bool,
}

impl Addresses {
    /// What is left to walk.
    pub closed spec fn view(&self) -> Span {
        Span {
            v6: self.v6,
            next: if self.finished {
                self.last + 1
            } else {
                self.next as int
            },
            end: self.last + 1,
        }
    }

    #[verifier::type_invariant]
    spec fn inside(self) -> bool {
        self.next <= self.last && (self.v6 || self.last <= u32::MAX)
    }

    /// The next address, or [`None`] once every one has been handed out.
    pub fn next(&mut self) -> (addr: Option<IpAddr>)
        ensures
            final(self)@.v6 == old(self)@.v6,
            final(self)@.end == old(self)@.end,
            match addr {
                Some(a) => {
                    &&& old(self)@.next < old(self)@.end
                    &&& a == numbered(old(self)@.v6, old(self)@.next)
                    &&& final(self)@.next == old(self)@.next + 1
                },
                None => {
                    &&& old(self)@.next == old(self)@.end
                    &&& final(self)@.next == old(self)@.next
                },
            },
    {
        proof {
            use_type_invariant(&*self);
        }
        if self.finished {
            return None;
        }
        let bits: u128 = self.next;
        if bits == self.last {
            self.finished = true;
        } else {
            self.next = bits + 1;
        }
        if self.v6 {
            Some(IpAddr::V6(Ipv6Addr { bits }))
        } else {
            Some(IpAddr::V4(Ipv4Addr { bits: bits as u32 }))
        }
    }

    /// Every address left, ascending.
    pub fn collect(self) -> (addresses: Vec<IpAddr>)
        ensures
            addresses@.len() == self@.end - self@.next,
            forall|i: int|
                0 <= i < addresses@.len() ==> #[trigger] addresses@[i] == numbered(
                    self@.v6,
                    self@.next + i,
                ),
    {
        let mut walk = self;
        let mut addresses: Vec<IpAddr> = Vec::new();
        proof {
            use_type_invariant(&walk);
        }
        loop
            invariant
                walk@.v6 == self@.v6,
                walk@.end == self@.end,
                walk@.next <= walk@.end,
                addresses@.len() == walk@.next - self@.next,
                forall|i: int|
                    0 <= i < addresses@.len() ==> #[trigger] addresses@[i] == numbered(
                        self@.v6,
                        self@.next + i,
                    ),
            decreases walk@.end - walk@.next,
        {
            match walk.next() {
                Some(addr) => {
                    addresses.push(addr);
                },
                None => {
                    return addresses;
                },
            }
        }
    }
}

/// Either family's range, for a caller that does not care which it was handed.
#[derive(Debug, Clone, Copy, PartialEq, Eq, Hash, Structural)]
pub enum IpRange {
    /// An IPv4 address range.
    V4(Ipv4Range),
    /// An IPv6 address range.
    V6(Ipv6Range),
}

/// What an [`IpRange`] covers: its family, its ends, and its interface.
pub struct RangeView {
    pub v6: bool,
    pub first: int,
    pub last: int,
    pub zone: Option<u32>,
}

impl View for IpRange {
    type V = RangeView;

    open spec fn view(&self) -> RangeView {
        match self {
            IpRange::V4(r) => RangeView { v6: false, first: r.first(), last: r.last(), zone: None },
            IpRange::V6(r) => RangeView { v6: true, first: r.first(), last: r.last(), zone: r.on() },
        }
    }
}

/// Whether an address is of a family and between two numbers.
pub open spec fn covers(v6: bool, first: int, last: int, ip: IpAddr) -> bool {
    match ip {
        IpAddr::V4(a) => !v6 && first <= a.bits <= last,
        IpAddr::V6(a) => v6 && first <= a.bits <= last,
    }
}

impl IpRange {
    /// Returns the start address of the range as an [`IpAddr`].
    pub fn start_addr(&self) -> (addr: IpAddr)
        ensures
            addr == numbered(self@.v6, self@.first),
    {
        match self {
            IpRange::V4(r) => IpAddr::V4(r.start_addr()),
            IpRange::V6(r) => IpAddr::V6(r.start_addr()),
        }
    }

    /// Returns the end address of the range as an [`IpAddr`].
    pub fn end_addr(&self) -> (addr: IpAddr)
        ensures
            addr == numbered(self@.v6, self@.last),
    {
        match self {
            IpRange::V4(r) => IpAddr::V4(r.end_addr()),
            IpRange::V6(r) => IpAddr::V6(r.end_addr()),
        }
    }

    /// Whether the given [`IpAddr`] falls within this range.
    ///
    /// `false` if the families do not match.
    pub fn contains(&self, ip: &IpAddr) -> (held: bool)
        ensures
            held == covers(self@.v6, self@.first, self@.last, *ip),
    {
        match (self, ip) {
            (IpRange::V4(r), IpAddr::V4(ip)) => r.contains(ip),
            (IpRange::V6(r), IpAddr::V6(ip)) => r.contains(ip),
            _ => false,
        }
    }

    /// How many addresses the range covers, never fewer than one.
    pub fn len(&self) -> (len: u128)
        ensures
            len == saturated(self@.last - self@.first + 1),
            len >= 1,
    {
        match self {
            IpRange::V4(r) => r.len() as u128,
            IpRange::V6(r) => r.len(),
        }
    }

    /// Reads a written range: the whole of the grammar.
    ///
    /// - CIDR notation: `192.168.1.0/24`, `2001:db8::/32`
    /// - Hyphenated ranges: `10.0.0.1-10.0.0.5`, `::1-::f`
    /// - Shortened IPv4 ranges, where the end continues the start's octets:
    ///   `10.0.0.1-50`, `192.168.1.1-2.254`
    /// - Single IPs: `1.1.1.1`, `::1`
    pub fn parse(text: &str) -> (range: Result<IpRange, IpError>)
        ensures
            match (range, range_of(text@)) {
                (Ok(r), Ok(v)) => r@ == v,
                (Err(e), Err(f)) => e@ == f,
                _ => false,
            },
    {
        let whole = text::chars_of(text);
        IpRange::parse_chars(whole.as_slice())
    }

    /// [`parse`](Self::parse), of characters.
    pub fn parse_chars(whole: &[char]) -> (range: Result<IpRange, IpError>)
        ensures
            match (range, range_of(whole@)) {
                (Ok(r), Ok(v)) => r@ == v,
                (Err(e), Err(f)) => e@ == f,
                _ => false,
            },
    {
        let s = text::trim(whole);
        let n: usize = s.len();
        match text::find(s, '/') {
            Some(pos) => {
                let before = slice_subrange(s, 0, pos);
                let after = slice_subrange(s, pos + 1, n);
                assert(before@ =~= s@.take(pos as int));
                assert(after@ =~= s@.skip(pos + 1));
                let ip = match IpAddr::parse_chars(before) {
                    Some(ip) => ip,
                    None => {
                        return Err(IpError::AddrParse(AddrFault::Ip));
                    },
                };
                return match text::parse_unsigned(after, 10, 255) {
                    Some(prefix) => cidr_range(ip, prefix as u8),
                    None => Err(IpError::PrefixParse(text::number_fault(after, 10, 255))),
                };
            },
            None => {},
        }
        match text::find(s, '-') {
            Some(pos) => {
                // Not trimmed around the separator, so `10.0.0.1 - 10.0.0.5` is
                // not a range: one grammar, with no second dialect.
                let before = slice_subrange(s, 0, pos);
                let after = slice_subrange(s, pos + 1, n);
                assert(before@ =~= s@.take(pos as int));
                assert(after@ =~= s@.skip(pos + 1));
                match Ipv4Addr::parse_chars(before) {
                    Some(start) => {
                        return match expand_v4_end(start, after) {
                            Some(end) => match Ipv4Range::new(start, end) {
                                Ok(range) => Ok(IpRange::V4(range)),
                                Err(e) => Err(e),
                            },
                            None => Err(IpError::InvalidFormat(text::text_of(s))),
                        };
                    },
                    None => {},
                }
                match Ipv6Addr::parse_chars(before) {
                    Some(start) => {
                        return match Ipv6Addr::parse_chars(after) {
                            Some(end) => match Ipv6Range::new(start, end) {
                                Ok(range) => Ok(IpRange::V6(range)),
                                Err(e) => Err(e),
                            },
                            None => Err(IpError::AddrParse(AddrFault::Ipv6)),
                        };
                    },
                    None => {},
                }
                return Err(IpError::InvalidFormat(text::text_of(s)));
            },
            None => {},
        }
        match IpAddr::parse_chars(s) {
            Some(IpAddr::V4(v4)) => Ok(IpRange::V4(Ipv4Range::single(v4))),
            Some(IpAddr::V6(v6)) => Ok(IpRange::V6(Ipv6Range::single(v6))),
            None => Err(IpError::AddrParse(AddrFault::Ip)),
        }
    }
}

impl std::str::FromStr for IpRange {
    type Err = IpError;

    fn from_str(text: &str) -> (range: Result<IpRange, IpError>)
        ensures
            match (range, range_of(text@)) {
                (Ok(r), Ok(v)) => r@ == v,
                (Err(e), Err(f)) => e@ == f,
                _ => false,
            },
    {
        IpRange::parse(text)
    }
}

/// The end of an IPv4 range: written in full, or as however many trailing octets
/// differ from the start, which replace as many octets at the end of it.
pub open spec fn v4_end_of(start: Ipv4Addr, end: Seq<char>) -> Option<Ipv4Addr> {
    match addr::ipv4_of(end) {
        Some(full) => Some(full),
        None => {
            let parts = text::split_on(end, seq!['.']);
            let o = addr::octets_of(start.bits);
            if parts.len() > 3 || exists|i: int|
                0 <= i < parts.len() && addr::octet_of(#[trigger] parts[i]) is None {
                None
            } else {
                let kept = (4 - parts.len()) as int;
                Some(
                    Ipv4Addr {
                        bits: addr::from_octets(
                            Seq::new(
                                4,
                                |i: int|
                                    if i < kept {
                                        o[i]
                                    } else {
                                        addr::octet_of(parts[i - kept])->0
                                    },
                            ),
                        ) as u32,
                    },
                )
            }
        },
    }
}

/// A CIDR block: the `2^(width - prefix)` addresses that share the first
/// `prefix` bits of `ip`.
pub open spec fn block_of(v6: bool, ip: int, prefix: int) -> RangeView {
    let size = power2::pow2((if v6 { 128int } else { 32int } - prefix) as nat) as int;
    RangeView { v6, first: ip - ip % size, last: ip - ip % size + size - 1, zone: None }
}

/// The block an address and a prefix length name.
pub open spec fn cidr_of(ip: IpAddr, prefix: u8) -> Result<RangeView, RangeFault> {
    match ip {
        IpAddr::V4(a) => if prefix > 32 {
            Err(RangeFault::InvalidPrefix(prefix))
        } else {
            Ok(block_of(false, a.bits as int, prefix as int))
        },
        IpAddr::V6(a) => if prefix > 128 {
            Err(RangeFault::InvalidPrefix(prefix))
        } else {
            Ok(block_of(true, a.bits as int, prefix as int))
        },
    }
}

/// A range between two addresses of one family, or that they are out of order.
pub open spec fn between(v6: bool, first: int, last: int) -> Result<RangeView, RangeFault> {
    if first <= last {
        Ok(RangeView { v6, first, last, zone: None })
    } else {
        Err(RangeFault::InvalidRange(numbered(v6, first), numbered(v6, last)))
    }
}

/// The range a text writes.
pub open spec fn range_of(whole: Seq<char>) -> Result<RangeView, RangeFault> {
    let s = text::trimmed(whole);
    if text::holds(s, '/') {
        let pos = text::upto(s, '/');
        match addr::ip_of(s.take(pos)) {
            None => Err(RangeFault::AddrParse(AddrFault::Ip)),
            Some(ip) => match text::unsigned_value(s.skip(pos + 1), 10, 255) {
                None => Err(RangeFault::PrefixParse(text::unsigned_fault(s.skip(pos + 1), 10, 255))),
                Some(prefix) => cidr_of(ip, prefix as u8),
            },
        }
    } else if text::holds(s, '-') {
        let pos = text::upto(s, '-');
        let end = s.skip(pos + 1);
        match (addr::ipv4_of(s.take(pos)), addr::ipv6_of(s.take(pos))) {
            (Some(start), _) => match v4_end_of(start, end) {
                None => Err(RangeFault::InvalidFormat(s)),
                Some(e) => between(false, start.bits as int, e.bits as int),
            },
            (None, Some(start)) => match addr::ipv6_of(end) {
                None => Err(RangeFault::AddrParse(AddrFault::Ipv6)),
                Some(e) => between(true, start.bits as int, e.bits as int),
            },
            (None, None) => Err(RangeFault::InvalidFormat(s)),
        }
    } else {
        match addr::ip_of(s) {
            None => Err(RangeFault::AddrParse(AddrFault::Ip)),
            Some(IpAddr::V4(a)) => between(false, a.bits as int, a.bits as int),
            Some(IpAddr::V6(a)) => between(true, a.bits as int, a.bits as int),
        }
    }
}

/// Reads the end of an IPv4 range, which may be written in full or as however
/// many trailing octets differ from the start.
///
/// `10.0.0.1-50` ends at `10.0.0.50` and `192.168.1.1-2.254` at
/// `192.168.2.254`. IPv4 only: IPv6 has no comparable form.
fn expand_v4_end(start: Ipv4Addr, end: &[char]) -> (addr: Option<Ipv4Addr>)
    ensures
        addr == v4_end_of(start, end@),
{
    match Ipv4Addr::parse_chars(end) {
        Some(full) => {
            return Some(full);
        },
        None => {},
    }
    let dot: [char; 1] = ['.'];
    assert(dot@ =~= seq!['.']);
    let parts = text::split(end, dot.as_slice());
    let ghost pieces = text::pieces_of(parts@);
    let n: usize = parts.len();
    let o = start.octets();
    proof {
        text::lemma_split_has_a_piece(end@, seq!['.']);
    }
    if n > 4 {
        return None;
    }
    let kept: usize = 4 - n;
    let mut octets: Vec<u8> = Vec::new();
    let mut k: usize = 0;
    while k < kept
        invariant
            k <= kept <= 3,
            octets@.len() == k,
            forall|i: int| 0 <= i < 4 ==> #[trigger] o@[i] == addr::octets_of(start.bits)[i],
            forall|i: int| 0 <= i < k ==> #[trigger] octets@[i] == addr::octets_of(start.bits)[i],
        decreases kept - k,
    {
        octets.push(o[k]);
        k = k + 1;
    }
    let mut i: usize = 0;
    while i < n
        invariant
            n == parts@.len(),
            1 <= n <= 4,
            kept == 4 - n,
            pieces == text::pieces_of(parts@),
            pieces == text::split_on(end@, seq!['.']),
            addr::ipv4_of(end@) is None,
            i <= n,
            octets@.len() == kept + i,
            forall|j: int| 0 <= j < kept ==> #[trigger] octets@[j] == addr::octets_of(start.bits)[j],
            forall|j: int| 0 <= j < i ==> addr::octet_of(#[trigger] pieces[j]) is Some,
            forall|j: int|
                kept <= j < kept + i ==> #[trigger] octets@[j] == addr::octet_of(
                    pieces[j - kept],
                )->0,
        decreases n - i,
    {
        assert(parts@[i as int]@ == pieces[i as int]);
        match addr::parse_octet(parts[i].as_slice()) {
            Some(octet) => {
                octets.push(octet);
            },
            None => {
                return None;
            },
        }
        i = i + 1;
    }
    if n == 4 {
        // Four octets that are each one are an address, which this was not.
        assert(addr::octet_of(pieces[0]) is Some && addr::octet_of(pieces[1]) is Some
            && addr::octet_of(pieces[2]) is Some && addr::octet_of(pieces[3]) is Some);
        return None;
    }
    let result = Ipv4Addr::new(octets[0], octets[1], octets[2], octets[3]);
    proof {
        let all = Seq::new(
            4,
            |i: int|
                if i < kept {
                    addr::octets_of(start.bits)[i]
                } else {
                    addr::octet_of(pieces[i - kept])->0
                },
        );
        assert(all[0] == octets@[0] && all[1] == octets@[1] && all[2] == octets@[2] && all[3]
            == octets@[3]);
    }
    Some(result)
}

/// Two to the power of `exponent`.
fn power_of_two(exponent: u8) -> (power: u128)
    requires
        exponent < 128,
    ensures
        power == power2::pow2(exponent as nat),
{
    let mut power: u128 = 1;
    let mut e: u8 = 0;
    proof {
        power2::lemma2_to64();
        lemma_pow2_127();
    }
    while e < exponent
        invariant
            e <= exponent < 128,
            power == power2::pow2(e as nat),
            power2::pow2(127) == 0x8000_0000_0000_0000_0000_0000_0000_0000,
        decreases exponent - e,
    {
        proof {
            power2::lemma_pow2_unfold((e + 1) as nat);
            if e < 126 {
                power2::lemma_pow2_strictly_increases(e as nat, 126);
            }
            power2::lemma_pow2_unfold(127);
        }
        power = power * 2;
        e = e + 1;
    }
    power
}

proof fn lemma_pow2_127()
    ensures
        power2::pow2(127) == 0x8000_0000_0000_0000_0000_0000_0000_0000,
        power2::pow2(128) == 0x1_0000_0000_0000_0000_0000_0000_0000_0000,
        power2::pow2(32) == 0x1_0000_0000,
{
    power2::lemma2_to64();
    power2::lemma2_to64_rest();
    power2::lemma_pow2_adds(64, 63);
    power2::lemma_pow2_adds(64, 64);
}

/// A block of the addresses of a family lies within the family.
proof fn lemma_block(width: nat, prefix: nat, ip: int)
    requires
        prefix <= width,
        0 <= ip < power2::pow2(width),
    ensures
        ({
            let size = power2::pow2((width - prefix) as nat) as int;
            &&& size >= 1
            &&& 0 <= ip % size < size
            &&& 0 <= ip - ip % size <= ip
            &&& ip <= ip - ip % size + size - 1 < power2::pow2(width)
        }),
{
    let size = power2::pow2((width - prefix) as nat) as int;
    let blocks = power2::pow2(prefix) as int;
    power2::lemma_pow2_pos((width - prefix) as nat);
    power2::lemma_pow2_adds((width - prefix) as nat, prefix);
    div_mod::lemma_fundamental_div_mod(ip, size);
    div_mod::lemma_mod_bound(ip, size);
    div_mod::lemma_div_pos_is_pos(ip, size);
    let q = ip / size;
    assert(size * q + size <= size * blocks) by (nonlinear_arith)
        requires
            size >= 1,
            size * q <= ip,
            ip < size * blocks,
    ;
    assert(size * q >= 0) by (nonlinear_arith)
        requires
            size >= 1,
            q >= 0,
    ;
}

/// Constructs an [`IpRange`] from an IP address and a CIDR prefix length.
pub fn cidr_range(ip: IpAddr, prefix: u8) -> (range: Result<IpRange, IpError>)
    ensures
        match (range, cidr_of(ip, prefix)) {
            (Ok(r), Ok(v)) => r@ == v,
            (Err(e), Err(f)) => e@ == f,
            _ => false,
        },
{
    proof {
        lemma_pow2_127();
    }
    match ip {
        IpAddr::V4(v4) => {
            if prefix > 32 {
                return Err(IpError::InvalidPrefix(prefix));
            }
            proof {
                lemma_block(32, prefix as nat, v4.bits as int);
            }
            let size: u128 = power_of_two(32 - prefix);
            let bits: u128 = v4.bits as u128;
            let network: u128 = bits - bits % size;
            let broadcast: u128 = network + (size - 1);
            Ok(
                IpRange::V4(
                    Ipv4Range {
                        start_addr: Ipv4Addr { bits: network as u32 },
                        end_addr: Ipv4Addr { bits: broadcast as u32 },
                    },
                ),
            )
        },
        IpAddr::V6(v6) => {
            if prefix > 128 {
                return Err(IpError::InvalidPrefix(prefix));
            }
            proof {
                lemma_block(128, prefix as nat, v6.bits as int);
            }
            if prefix == 0 {
                proof {
                    div_mod::lemma_small_mod(
                        v6.bits as nat,
                        power2::pow2(128),
                    );
                }
                return Ok(
                    IpRange::V6(
                        Ipv6Range {
                            start_addr: Ipv6Addr { bits: 0 },
                            end_addr: Ipv6Addr { bits: u128::MAX },
                            zone: None,
                        },
                    ),
                );
            }
            let size: u128 = power_of_two(128 - prefix);
            let network: u128 = v6.bits - v6.bits % size;
            let broadcast: u128 = network + (size - 1);
            Ok(
                IpRange::V6(
                    Ipv6Range {
                        start_addr: Ipv6Addr { bits: network },
                        end_addr: Ipv6Addr { bits: broadcast },
                        zone: None,
                    },
                ),
            )
        },
    }
}

/// A block covers the address it was named by and as many addresses as its
/// prefix leaves bits for.
pub proof fn lemma_a_block_covers_its_address(ip: IpAddr, prefix: u8)
    requires
        cidr_of(ip, prefix) is Ok,
    ensures
        ({
            let r = cidr_of(ip, prefix)->Ok_0;
            let width: int = if ip is V6 { 128 } else { 32 };
            &&& covers(r.v6, r.first, r.last, ip)
            &&& r.last - r.first + 1 == power2::pow2((width - prefix) as nat)
            &&& r.first % power2::pow2((width - prefix) as nat) as int == 0
        }),
{
    lemma_pow2_127();
    let (width, bits): (nat, int) = match ip {
        IpAddr::V4(a) => (32, a.bits as int),
        IpAddr::V6(a) => (128, a.bits as int),
    };
    lemma_block(width, prefix as nat, bits);
    let size = power2::pow2((width - prefix) as nat) as int;
    div_mod::lemma_fundamental_div_mod(bits, size);
    div_mod::lemma_mod_multiples_basic(bits / size, size);
    assert(bits - bits % size == (bits / size) * size) by (nonlinear_arith)
        requires
            bits == size * (bits / size) + bits % size,
    ;
}

/// Two addresses of a family share a block exactly when one names the block the
/// other does.
pub proof fn lemma_blocks_do_not_overlap(v6: bool, a: int, b: int, prefix: int)
    requires
        0 <= prefix <= if v6 {
            128int
        } else {
            32int
        },
        0 <= a,
        0 <= b,
        block_of(v6, a, prefix).first <= b <= block_of(v6, a, prefix).last,
    ensures
        block_of(v6, b, prefix) == block_of(v6, a, prefix),
{
    let size = power2::pow2((if v6 { 128int } else { 32int } - prefix) as nat) as int;
    power2::lemma_pow2_pos((if v6 { 128int } else { 32int } - prefix) as nat);
    div_mod::lemma_fundamental_div_mod(a, size);
    div_mod::lemma_mod_bound(a, size);
    let q = a / size;
    let r = b - (a - a % size);
    assert(b == q * size + r) by (nonlinear_arith)
        requires
            a == size * q + a % size,
            r == b - (a - a % size),
    ;
    div_mod::lemma_fundamental_div_mod_converse(b, size, q, r);
}

/// Whether an address is one a block holds: of the block's family, and alike in
/// the bits the prefix counts.
pub open spec fn agrees(ip: IpAddr, other: IpAddr, prefix: int) -> bool {
    match (ip, other) {
        (IpAddr::V4(a), IpAddr::V4(b)) => a.bits as int / power2::pow2((32 - prefix) as nat) as int
            == b.bits as int / power2::pow2((32 - prefix) as nat) as int,
        (IpAddr::V6(a), IpAddr::V6(b)) => a.bits as int / power2::pow2((128 - prefix) as nat) as int
            == b.bits as int / power2::pow2((128 - prefix) as nat) as int,
        _ => false,
    }
}

/// A block holds the addresses of its family that agree with its own in as many
/// leading bits as the prefix counts, and no others. A prefix longer than an
/// address is refused, and named.
pub proof fn lemma_a_block_is_the_addresses_that_agree(ip: IpAddr, prefix: u8, other: IpAddr)
    ensures
        match cidr_of(ip, prefix) {
            Ok(r) => {
                &&& prefix <= if ip is V6 { 128u8 } else { 32u8 }
                &&& r.zone is None
                &&& covers(r.v6, r.first, r.last, other) <==> agrees(ip, other, prefix as int)
            },
            Err(fault) => prefix > (if ip is V6 { 128u8 } else { 32u8 }) && fault
                == RangeFault::InvalidPrefix(prefix),
        },
{
    let (width, bits): (int, int) = match ip {
        IpAddr::V4(a) => (32, a.bits as int),
        IpAddr::V6(a) => (128, a.bits as int),
    };
    if prefix <= width {
        let size = power2::pow2((width - prefix) as nat) as int;
        power2::lemma_pow2_pos((width - prefix) as nat);
        let number = match other {
            IpAddr::V4(b) => b.bits as int,
            IpAddr::V6(b) => b.bits as int,
        };
        lemma_same_multiple(bits, number, size);
    }
}

pub(crate) proof fn lemma_same_multiple(a: int, b: int, size: int)
    requires
        size > 0,
    ensures
        a - a % size <= b <= a - a % size + size - 1 <==> a / size == b / size,
{
    div_mod::lemma_fundamental_div_mod(a, size);
    div_mod::lemma_fundamental_div_mod(b, size);
    div_mod::lemma_mod_bound(a, size);
    div_mod::lemma_mod_bound(b, size);
    let (p, q) = (a / size, b / size);
    assert(a - a % size == size * p);
    assert(size * p <= b < size * p + size <==> p == q) by (nonlinear_arith)
        requires
            size > 0,
            b == size * q + b % size,
            0 <= b % size < size,
    ;
}

/// A text written with the characters of addresses, and with a dash or a slash
/// and more of them behind it, is cut there and nowhere else.
pub(crate) proof fn lemma_cut(before: Seq<char>, mark: char, behind: Seq<char>)
    requires
        before.len() > 0,
        behind.len() > 0,
        addr::all_address_chars(before),
        addr::all_address_chars(behind),
        mark == '/' || mark == '-',
    ensures
        ({
            let s = before.push(mark) + behind;
            &&& text::trimmed(s) == s
            &&& text::upto(s, mark) == before.len()
            &&& text::holds(s, mark)
            &&& s.take(before.len() as int) == before
            &&& s.skip(before.len() as int + 1) == behind
            &&& mark == '-' ==> !text::holds(s, '/')
            &&& !text::holds(s, '%')
        }),
{
    let s = before.push(mark) + behind;
    assert(s[0] == before[0]);
    assert(s.last() == behind.last());
    assert(addr::is_address_char(before[0]));
    assert(addr::is_address_char(behind[behind.len() - 1]));
    lemma_address_chars_are_plain();
    text::lemma_trimmed_is_identity(s);
    assert forall|j: int| 0 <= j < before.len() implies #[trigger] s[j] != mark by {
        assert(s[j] == before[j]);
        assert(addr::is_address_char(before[j]));
    }
    text::lemma_upto_is(s, mark, before.len() as int);
    assert(s.take(before.len() as int) =~= before);
    assert(s.skip(before.len() as int + 1) =~= behind);
    if mark == '-' {
        assert forall|j: int| 0 <= j < s.len() implies #[trigger] s[j] != '/' by {
            if j < before.len() {
                assert(addr::is_address_char(before[j]));
            } else if j > before.len() {
                assert(s[j] == behind[j - before.len() - 1]);
                assert(addr::is_address_char(behind[j - before.len() - 1]));
            }
        }
        text::lemma_upto_is(s, '/', s.len() as int);
    }
    assert forall|j: int| 0 <= j < s.len() implies #[trigger] s[j] != '%' by {
        if j < before.len() {
            assert(addr::is_address_char(before[j]));
        } else if j > before.len() {
            assert(s[j] == behind[j - before.len() - 1]);
            assert(addr::is_address_char(behind[j - before.len() - 1]));
        }
    }
    text::lemma_upto_is(s, '%', s.len() as int);
}

pub(crate) proof fn lemma_address_chars_are_plain()
    ensures
        forall|c: char| #[trigger]
            addr::is_address_char(c) ==> !text::is_space(c) && c != '/' && c != '-' && c != '%',
{
}

pub(crate) proof fn lemma_decimal_is_address_chars(n: nat)
    ensures
        text::decimal(n).len() > 0,
        addr::all_address_chars(text::decimal(n)),
{
    text::lemma_written_reads_back(n, 10);
    let s = text::decimal(n);
    assert forall|i: int| 0 <= i < s.len() implies addr::is_address_char(#[trigger] s[i]) by {
        assert(text::digit_of(s[i]) < 10);
    }
}

pub(crate) proof fn lemma_ip_text_is_something(ip: IpAddr)
    ensures
        addr::ip_text(ip).len() > 0,
        addr::all_address_chars(addr::ip_text(ip)),
{
    addr::lemma_ip_text_reads_back(ip);
    addr::lemma_ip_text_is_address_chars(ip);
    let s = addr::ip_text(ip);
    if s.len() == 0 {
        assert(s =~= Seq::empty());
        assert(text::split_on(s, seq!['.']).len() == 1);
        assert forall|i: int| !addr::gap_at(s, i) by {}
        assert(addr::groups_of(addr::fields_of(s), true) == Some(Seq::<nat>::empty()));
        assert(addr::ip_of(s) is None);
    }
}

/// An address, written out, is the range of that address alone.
pub proof fn lemma_a_written_address_is_a_range_of_one(ip: IpAddr)
    ensures
        range_of(addr::ip_text(ip)) matches Ok(r) && r.zone is None && forall|other: IpAddr|
            #[trigger] covers(r.v6, r.first, r.last, other) <==> other == ip,
{
    let s = addr::ip_text(ip);
    lemma_ip_text_is_something(ip);
    addr::lemma_ip_text_reads_back(ip);
    lemma_address_chars_are_plain();
    assert(addr::is_address_char(s[0]) && addr::is_address_char(s[s.len() - 1]));
    text::lemma_trimmed_is_identity(s);
    assert(forall|j: int| 0 <= j < s.len() ==> addr::is_address_char(#[trigger] s[j]));
    text::lemma_upto_is(s, '/', s.len() as int);
    text::lemma_upto_is(s, '-', s.len() as int);
}

/// An address with a slash and a number behind it is the block of that address
/// and that prefix, and a number too long for a prefix is refused.
pub proof fn lemma_a_written_block_is_the_block(ip: IpAddr, prefix: nat)
    ensures
        prefix <= 255 ==> range_of(addr::ip_text(ip).push('/') + text::decimal(prefix)) == cidr_of(
            ip,
            prefix as u8,
        ),
        prefix > 255 ==> (range_of(addr::ip_text(ip).push('/') + text::decimal(prefix)) matches Err(
            fault,
        ) && fault is PrefixParse),
{
    lemma_ip_text_is_something(ip);
    addr::lemma_ip_text_reads_back(ip);
    lemma_decimal_is_address_chars(prefix);
    text::lemma_written_reads_back(prefix, 10);
    lemma_cut(addr::ip_text(ip), '/', text::decimal(prefix));
    let s = text::decimal(prefix);
    assert(text::digit_of(s[0]) < 10);
    assert(s[0] != '+');
}

/// Two addresses of one family with a dash between them are every address from
/// the first to the second, both of them with it, and no other. They are
/// refused, and named, where the second is the lower one.
pub proof fn lemma_a_written_range_is_every_address_between(start: IpAddr, end: IpAddr)
    requires
        start is V4 <==> end is V4,
    ensures
        match range_of(addr::ip_text(start).push('-') + addr::ip_text(end)) {
            Ok(r) => {
                &&& start.rank() <= end.rank()
                &&& r.zone is None
                &&& forall|ip: IpAddr| #[trigger]
                    covers(r.v6, r.first, r.last, ip) <==> start.rank() <= ip.rank() <= end.rank()
            },
            Err(fault) => start.rank() > end.rank() && fault == RangeFault::InvalidRange(
                start,
                end,
            ),
        },
{
    lemma_ip_text_is_something(start);
    lemma_ip_text_is_something(end);
    lemma_cut(addr::ip_text(start), '-', addr::ip_text(end));
    match (start, end) {
        (IpAddr::V4(a), IpAddr::V4(b)) => {
            addr::lemma_ipv4_text_reads_back(a);
            addr::lemma_ipv4_text_reads_back(b);
        },
        (IpAddr::V6(a), IpAddr::V6(b)) => {
            addr::lemma_ipv6_text_reads_back(a);
            addr::lemma_ipv6_text_reads_back(b);
        },
        _ => {},
    }
}

/// The end of an IPv4 range may be written as the octets in which it differs
/// from the start: one, two or three numbers replace as many at the end of the
/// start, and those before them stay.
pub proof fn lemma_a_short_end_replaces_the_last_octets(
    start: Ipv4Addr,
    x: nat,
    y: nat,
    z: nat,
)
    requires
        x <= 255,
        y <= 255,
        z <= 255,
    ensures
        range_of(addr::ipv4_text(start.bits).push('-') + text::decimal(z)) == between(
            false,
            start.bits as int,
            start.bits as int - start.bits as int % 256 + z,
        ),
        range_of(
            addr::ipv4_text(start.bits).push('-') + (text::decimal(y).push('.') + text::decimal(z)),
        ) == between(
            false,
            start.bits as int,
            start.bits as int - start.bits as int % 65536 + y * 256 + z,
        ),
        range_of(
            addr::ipv4_text(start.bits).push('-') + (text::decimal(x).push('.') + (text::decimal(
                y,
            ).push('.') + text::decimal(z))),
        ) == between(
            false,
            start.bits as int,
            start.bits as int - start.bits as int % 16777216 + x * 65536 + y * 256 + z,
        ),
{
    lemma_short_end_of_one(start, z);
    lemma_short_end_of_two(start, y, z);
    lemma_short_end_of_three(start, x, y, z);
}

proof fn lemma_short_end_of_one(start: Ipv4Addr, z: nat)
    requires
        z <= 255,
    ensures
        range_of(addr::ipv4_text(start.bits).push('-') + text::decimal(z)) == between(
            false,
            start.bits as int,
            start.bits as int - start.bits as int % 256 + z,
        ),
{
    lemma_decimal_is_address_chars(z);
    lemma_decimal_is_one_octet(z);
    lemma_range_to_octets(start, text::decimal(z), seq![text::decimal(z)]);
}

proof fn lemma_short_end_of_two(start: Ipv4Addr, y: nat, z: nat)
    requires
        y <= 255,
        z <= 255,
    ensures
        range_of(
            addr::ipv4_text(start.bits).push('-') + (text::decimal(y).push('.') + text::decimal(z)),
        ) == between(
            false,
            start.bits as int,
            start.bits as int - start.bits as int % 65536 + y * 256 + z,
        ),
{
    let (wy, wz) = (text::decimal(y), text::decimal(z));
    lemma_decimal_is_one_octet(y);
    lemma_decimal_is_one_octet(z);
    lemma_octets_with_a_dot(wy, wz, seq![wy], seq![wz]);
    lemma_decimal_is_address_chars(y);
    lemma_decimal_is_address_chars(z);
    assert(seq![wy] + seq![wz] =~= seq![wy, wz]);
    lemma_range_to_octets(start, wy.push('.') + wz, seq![wy, wz]);
}

proof fn lemma_short_end_of_three(start: Ipv4Addr, x: nat, y: nat, z: nat)
    requires
        x <= 255,
        y <= 255,
        z <= 255,
    ensures
        range_of(
            addr::ipv4_text(start.bits).push('-') + (text::decimal(x).push('.') + (text::decimal(
                y,
            ).push('.') + text::decimal(z))),
        ) == between(
            false,
            start.bits as int,
            start.bits as int - start.bits as int % 16777216 + x * 65536 + y * 256 + z,
        ),
{
    lemma_decimal_is_one_octet(x);
    lemma_decimal_is_one_octet(y);
    lemma_decimal_is_one_octet(z);
    lemma_decimal_is_address_chars(x);
    lemma_decimal_is_address_chars(y);
    lemma_decimal_is_address_chars(z);
    lemma_end_of_three(start, text::decimal(x), text::decimal(y), text::decimal(z));
}

/// Whether a text is one octet and nothing else.
spec fn is_one_octet(s: Seq<char>) -> bool {
    &&& s.len() > 0
    &&& addr::all_address_chars(s)
    &&& text::split_on(s, seq!['.']) == seq![s]
    &&& addr::octet_of(s) matches Some(n) && n <= 255
}

proof fn lemma_end_of_three(start: Ipv4Addr, wx: Seq<char>, wy: Seq<char>, wz: Seq<char>)
    requires
        is_one_octet(wx),
        is_one_octet(wy),
        is_one_octet(wz),
    ensures
        range_of(
            addr::ipv4_text(start.bits).push('-') + (wx.push('.') + (wy.push('.') + wz)),
        ) == between(
            false,
            start.bits as int,
            start.bits as int - start.bits as int % 16777216 + addr::octet_of(wx)->0 * 65536
                + addr::octet_of(wy)->0 * 256 + addr::octet_of(wz)->0,
        ),
{
    lemma_octets_with_a_dot(wy, wz, seq![wy], seq![wz]);
    lemma_octets_with_a_dot(wx, wy.push('.') + wz, seq![wx], seq![wy] + seq![wz]);
    let parts = seq![wx] + (seq![wy] + seq![wz]);
    assert(parts[0] == wx && parts[1] == wy && parts[2] == wz);
    lemma_range_to_octets(start, wx.push('.') + (wy.push('.') + wz), parts);
}

proof fn lemma_octets_with_a_dot(
    a: Seq<char>,
    b: Seq<char>,
    of_a: Seq<Seq<char>>,
    of_b: Seq<Seq<char>>,
)
    requires
        text::split_on(a, seq!['.']) == of_a,
        text::split_on(b, seq!['.']) == of_b,
    ensures
        text::split_on(a.push('.') + b, seq!['.']) == of_a + of_b,
        addr::all_address_chars(a) && addr::all_address_chars(b) ==> addr::all_address_chars(
            a.push('.') + b,
        ),
{
    let dot = seq!['.'];
    assert(dot.contains('.')) by {
        assert(dot[0] == '.');
    }
    text::lemma_split_of_joined(a, '.', b, dot);
    let whole = a.push('.') + b;
    if addr::all_address_chars(a) && addr::all_address_chars(b) {
        assert forall|i: int| 0 <= i < whole.len() implies addr::is_address_char(
            #[trigger] whole[i],
        ) by {
            if i < a.len() {
                assert(whole[i] == a[i]);
            } else if i > a.len() {
                assert(whole[i] == b[i - a.len() - 1]);
            }
        }
    }
}

/// A range whose end is one, two or three octets.
proof fn lemma_range_to_octets(start: Ipv4Addr, end: Seq<char>, parts: Seq<Seq<char>>)
    requires
        end.len() > 0,
        addr::all_address_chars(end),
        text::split_on(end, seq!['.']) == parts,
        1 <= parts.len() <= 3,
        forall|i: int|
            0 <= i < parts.len() ==> (addr::octet_of(#[trigger] parts[i]) is Some)
                && addr::octet_of(parts[i])->0 <= 255,
    ensures
        range_of(addr::ipv4_text(start.bits).push('-') + end) == between(
            false,
            start.bits as int,
            v4_end_of(start, end)->0.bits as int,
        ),
        v4_end_of(start, end) matches Some(e) && e.bits == if parts.len() == 1 {
            start.bits as int - start.bits as int % 256 + addr::octet_of(parts[0])->0
        } else if parts.len() == 2 {
            start.bits as int - start.bits as int % 65536 + addr::octet_of(parts[0])->0 * 256
                + addr::octet_of(parts[1])->0
        } else {
            start.bits as int - start.bits as int % 16777216 + addr::octet_of(parts[0])->0 * 65536
                + addr::octet_of(parts[1])->0 * 256 + addr::octet_of(parts[2])->0
        },
{
    lemma_ip_text_is_something(IpAddr::V4(start));
    addr::lemma_ipv4_text_reads_back(start);
    lemma_cut(addr::ipv4_text(start.bits), '-', end);
    lemma_end_of_octets(start, end, parts);
}

proof fn lemma_decimal_is_one_octet(n: nat)
    requires
        n <= 255,
    ensures
        addr::octet_of(text::decimal(n)) == Some(n),
        text::split_on(text::decimal(n), seq!['.']) == seq![text::decimal(n)],
{
    text::lemma_written_reads_back(n, 10);
    let s = text::decimal(n);
    assert forall|i: int| 0 <= i < s.len() implies !seq!['.'].contains(#[trigger] s[i]) by {
        assert(text::digit_of(s[i]) < 10);
    }
    text::lemma_split_without_separator(s, seq!['.']);
}

proof fn lemma_end_of_octets(start: Ipv4Addr, end: Seq<char>, parts: Seq<Seq<char>>)
    requires
        text::split_on(end, seq!['.']) == parts,
        1 <= parts.len() <= 3,
        forall|i: int|
            0 <= i < parts.len() ==> (addr::octet_of(#[trigger] parts[i]) is Some)
                && addr::octet_of(parts[i])->0 <= 255,
    ensures
        v4_end_of(start, end) matches Some(e) && e.bits == if parts.len() == 1 {
            start.bits as int - start.bits as int % 256 + addr::octet_of(parts[0])->0
        } else if parts.len() == 2 {
            start.bits as int - start.bits as int % 65536 + addr::octet_of(parts[0])->0 * 256
                + addr::octet_of(parts[1])->0
        } else {
            start.bits as int - start.bits as int % 16777216 + addr::octet_of(parts[0])->0 * 65536
                + addr::octet_of(parts[1])->0 * 256 + addr::octet_of(parts[2])->0
        },
{
    assert(addr::ipv4_of(end) is None);
    let bits = start.bits as int;
    let o = addr::octets_of(start.bits);
    assert(o[0] * 0x100_0000 == bits - bits % 16777216);
    assert(o[0] * 0x100_0000 + o[1] * 0x1_0000 == bits - bits % 65536);
    assert(o[0] * 0x100_0000 + o[1] * 0x1_0000 + o[2] * 0x100 == bits - bits % 256);
    let a = addr::octet_of(parts[0])->0;
    if parts.len() == 2 {
        let b = addr::octet_of(parts[1])->0;
        assert(a <= 255 && b <= 255);
    } else if parts.len() == 3 {
        let (b, c) = (addr::octet_of(parts[1])->0, addr::octet_of(parts[2])->0);
        assert(a <= 255 && b <= 255 && c <= 255);
    }
}

/// White space around a range is no part of it.
pub proof fn lemma_white_space_around_a_range_is_nothing(
    before: Seq<char>,
    written: Seq<char>,
    behind: Seq<char>,
)
    requires
        forall|i: int| 0 <= i < before.len() ==> text::is_space(#[trigger] before[i]),
        forall|i: int| 0 <= i < behind.len() ==> text::is_space(#[trigger] behind[i]),
    ensures
        range_of(before + written + behind) == range_of(written),
{
    text::lemma_trimming_leaves_out_white_space(before, written, behind);
}

/// A count that fits is the count, and one that does not is as much as fits.
pub proof fn lemma_a_count_is_exact_as_far_as_it_fits(n: int)
    requires
        n >= 0,
    ensures
        saturated(n) <= n,
        saturated(n) < n <==> n > 340_282_366_920_938_463_463_374_607_431_768_211_455,
        saturated(n) < n ==> saturated(n) == 340_282_366_920_938_463_463_374_607_431_768_211_455,
{
}

/// A range touches the link-local addresses exactly where it starts no later than
/// they end and ends no earlier than they start, and it spells IPv4 addresses exactly
/// where it holds none that does not. An interface numbered zero is none, and every
/// other is itself.
pub proof fn lemma_what_a_range_touches(r: Ipv6Range, index: u32)
    requires
        r.is_range(),
    ensures
        r.touches_link_local() <==> r.first() < 0x3fb * 0x40_0000_0000_0000_0000_0000_0000_0000
            && 0x3fa * 0x40_0000_0000_0000_0000_0000_0000_0000 <= r.last(),
        r.spells() <==> forall|n: int| #[trigger]
            r.has(n) ==> 0xffff_0000_0000 <= n < 0x1_0000_0000_0000,
        index > 0 ==> zone_named(Some(index)) == Some(index),
        zone_named(Some(0)) is None && zone_named(None) is None,
{
    let n = if r.first() >= LINK_LOCAL_FIRST {
        r.first()
    } else {
        LINK_LOCAL_FIRST as int
    };
    if r.first() <= LINK_LOCAL_LAST && r.last() >= LINK_LOCAL_FIRST {
        assert(r.has(n) && in_link_local(n));
    }
    assert(r.has(r.first()) && r.has(r.last()));
}

} // verus!
