//! # What a host turned out to be, and what stands in front of it
//!
//! [`NetworkRole`] is a claim about a host and [`Filtering`] a claim about the path
//! to it. Every member of either is a proven fact: both are held in sets, where
//! there is nowhere to record a maybe.

use crate::ordered::{Ordered, Same};
use vstd::prelude::*;

verus! {

/// What a host turned out to be, beyond an address with ports on it.
///
/// Most of it names a function the rest of the network depends on, and the last
/// three are claims about the record rather than about the machine. A role is
/// never a port number restated: every one is concluded from evidence in its own
/// protocol.
#[non_exhaustive]
#[derive(Debug, PartialEq, Eq, PartialOrd, Ord, Hash, Clone, Copy, Structural)]
pub enum NetworkRole {
    /// Forwards traffic on behalf of other hosts.
    Router,
    /// Answered a query with a message that parses as a DNS response.
    DnsServer,
    /// Answered a DHCP message as a server.
    DhcpServer,
    /// Answered with a valid NTP response, so it serves time.
    NtpServer,
    /// Answered SNMP, so it is managed over it.
    SnmpAgent,
    /// Switches frames on behalf of the machines attached to it.
    Switch,
    /// The machine this scan is running from.
    Origin,
    /// Reported more ports open than any machine plausibly runs services on.
    Tarpit,
    /// Answered on more ports than its record will hold, so the port list is
    /// incomplete.
    Truncated,
}

impl NetworkRole {
    /// Every role this build knows, in declaration order.
    pub const ALL: [NetworkRole; 9] = [
        NetworkRole::Router,
        NetworkRole::DnsServer,
        NetworkRole::DhcpServer,
        NetworkRole::NtpServer,
        NetworkRole::SnmpAgent,
        NetworkRole::Switch,
        NetworkRole::Origin,
        NetworkRole::Tarpit,
        NetworkRole::Truncated,
    ];

    /// Where a role stands in the order they are declared in.
    pub open spec fn rank(self) -> int {
        match self {
            NetworkRole::Router => 0,
            NetworkRole::DnsServer => 1,
            NetworkRole::DhcpServer => 2,
            NetworkRole::NtpServer => 3,
            NetworkRole::SnmpAgent => 4,
            NetworkRole::Switch => 5,
            NetworkRole::Origin => 6,
            NetworkRole::Tarpit => 7,
            NetworkRole::Truncated => 8,
        }
    }

    fn place(self) -> (place: u8)
        ensures
            place == self.rank(),
    {
        match self {
            NetworkRole::Router => 0,
            NetworkRole::DnsServer => 1,
            NetworkRole::DhcpServer => 2,
            NetworkRole::NtpServer => 3,
            NetworkRole::SnmpAgent => 4,
            NetworkRole::Switch => 5,
            NetworkRole::Origin => 6,
            NetworkRole::Tarpit => 7,
            NetworkRole::Truncated => 8,
        }
    }

    /// How a role is written for a person to read.
    pub open spec fn word(self) -> Seq<char> {
        match self {
            NetworkRole::Router => "router"@,
            NetworkRole::DnsServer => "DNS"@,
            NetworkRole::DhcpServer => "DHCP"@,
            NetworkRole::NtpServer => "NTP"@,
            NetworkRole::SnmpAgent => "SNMP"@,
            NetworkRole::Switch => "switch"@,
            NetworkRole::Origin => "origin"@,
            NetworkRole::Tarpit => "tarpit"@,
            NetworkRole::Truncated => "truncated"@,
        }
    }

    /// How a role is written for a person to read.
    ///
    /// An acronym is capitals and a word is not, so a list mixing the two reads as
    /// what it is: `router, DNS, DHCP`.
    pub fn label(self) -> (label: &'static str)
        ensures
            label@ == self.word(),
    {
        match self {
            NetworkRole::Router => "router",
            NetworkRole::DnsServer => "DNS",
            NetworkRole::DhcpServer => "DHCP",
            NetworkRole::NtpServer => "NTP",
            NetworkRole::SnmpAgent => "SNMP",
            NetworkRole::Switch => "switch",
            NetworkRole::Origin => "origin",
            NetworkRole::Tarpit => "tarpit",
            NetworkRole::Truncated => "truncated",
        }
    }
}

impl Same for NetworkRole {
    type Model = NetworkRole;

    open spec fn model(&self) -> NetworkRole {
        *self
    }

    fn same(&self, other: &Self) -> (result: bool) {
        *self == *other
    }

    fn copied(&self) -> (result: Self) {
        *self
    }
}

impl Ordered for NetworkRole {
    /// In declaration order.
    open spec fn before(a: NetworkRole, b: NetworkRole) -> bool {
        a.rank() < b.rank()
    }

    proof fn order_is_total(a: NetworkRole, b: NetworkRole) {
    }

    proof fn order_is_transitive(a: NetworkRole, b: NetworkRole, c: NetworkRole) {
    }

    fn precedes(&self, other: &Self) -> (result: bool) {
        self.place() < other.place()
    }
}

/// Some roles as a list for a reader.
pub open spec fn listed_words(roles: Seq<NetworkRole>) -> Seq<char>
    decreases roles.len(),
{
    if roles.len() == 0 {
        Seq::empty()
    } else if roles.len() == 1 {
        roles[0].word()
    } else {
        listed_words(roles.drop_last()) + ", "@ + roles.last().word()
    }
}

/// What the filter in front of a host was shown to be doing.
///
/// Positive claims only: the absence of a filter is not something a scan can
/// establish, so it is never recorded.
#[non_exhaustive]
#[derive(Debug, PartialEq, Eq, PartialOrd, Ord, Hash, Clone, Copy, Structural)]
pub enum Filtering {
    /// An inline device answered on the host's behalf.
    InlineMiddlebox,
    /// A stateful filter: it passes a bare ACK but drops a SYN.
    StatefulFilter,
    /// A filter that trusts a source port.
    PortTrustingAcl,
    /// A stateless filter: it matches on the first fragment and passes the rest.
    StatelessFilter,
}

impl Filtering {
    /// Every conclusion this build knows, in the order they are reported.
    pub const ALL: [Filtering; 4] = [
        Filtering::InlineMiddlebox,
        Filtering::StatefulFilter,
        Filtering::PortTrustingAcl,
        Filtering::StatelessFilter,
    ];

    /// Where a conclusion stands in the order they are reported in.
    pub open spec fn rank(self) -> int {
        match self {
            Filtering::InlineMiddlebox => 0,
            Filtering::StatefulFilter => 1,
            Filtering::PortTrustingAcl => 2,
            Filtering::StatelessFilter => 3,
        }
    }

    fn place(self) -> (place: u8)
        ensures
            place == self.rank(),
    {
        match self {
            Filtering::InlineMiddlebox => 0,
            Filtering::StatefulFilter => 1,
            Filtering::PortTrustingAcl => 2,
            Filtering::StatelessFilter => 3,
        }
    }
}

impl Same for Filtering {
    type Model = Filtering;

    open spec fn model(&self) -> Filtering {
        *self
    }

    fn same(&self, other: &Self) -> (result: bool) {
        *self == *other
    }

    fn copied(&self) -> (result: Self) {
        *self
    }
}

impl Ordered for Filtering {
    /// In the order they are reported.
    open spec fn before(a: Filtering, b: Filtering) -> bool {
        a.rank() < b.rank()
    }

    proof fn order_is_total(a: Filtering, b: Filtering) {
    }

    proof fn order_is_transitive(a: Filtering, b: Filtering, c: Filtering) {
    }

    fn precedes(&self, other: &Self) -> (result: bool) {
        self.place() < other.place()
    }
}

} // verus!
