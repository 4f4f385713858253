//! # Which IP protocols a host's stack accepts
//!
//! A port scan asks what is listening behind a transport. This asks a question
//! one layer down: which protocols the host's stack takes delivery of at all.
//! GRE, ESP, OSPF and IPIP have no ports to enumerate, so a scan that asks about
//! TCP and UDP reports a tunnel endpoint or a router as an empty host.

use vstd::prelude::*;

verus! {

/// What a scan established about a host accepting one IP protocol.
///
/// Ordered from least definitive to most, so that two probes that disagree
/// resolve to whichever learned more.
#[non_exhaustive]
#[derive(Debug, Clone, Copy, PartialEq, Eq, PartialOrd, Ord, Hash, Structural)]
pub enum IpProtocolState {
    /// No probe was sent, so nothing was established either way.
    Unasked,
    /// A probe was sent and nothing came back: silence cannot tell a stack that
    /// accepted the datagram from a filter that dropped it.
    OpenFiltered,
    /// Something in the path refused the protocol.
    Filtered,
    /// The host's own stack said it does not speak this protocol.
    Closed,
    /// The host answered in the protocol that was asked about.
    Open,
}

impl IpProtocolState {
    /// Every state, in declaration order, which is least definitive first.
    pub const ALL: [IpProtocolState; 5] = [
        IpProtocolState::Unasked,
        IpProtocolState::OpenFiltered,
        IpProtocolState::Filtered,
        IpProtocolState::Closed,
        IpProtocolState::Open,
    ];

    /// How much a state establishes.
    pub open spec fn rank(self) -> int {
        match self {
            IpProtocolState::Unasked => 0,
            IpProtocolState::OpenFiltered => 1,
            IpProtocolState::Filtered => 2,
            IpProtocolState::Closed => 3,
            IpProtocolState::Open => 4,
        }
    }

    /// Whether the host is known to take delivery of the protocol.
    pub fn is_accepted(&self) -> (accepted: bool)
        ensures
            accepted == (*self is Open),
    {
        matches!(self, IpProtocolState::Open)
    }

    /// Whether anything at all was established.
    ///
    /// False for a protocol nobody asked about, which is the one state that is a
    /// fact about the scan rather than about the host.
    pub fn is_established(&self) -> (established: bool)
        ensures
            established == !(*self is Unasked),
    {
        !matches!(self, IpProtocolState::Unasked)
    }

    /// The one of two that establishes more, the first where they are as good.
    pub fn or_more_definitive(self, other: IpProtocolState) -> (state: IpProtocolState)
        ensures
            state == more_definitive(self, other),
    {
        if other.place() > self.place() {
            other
        } else {
            self
        }
    }

    fn place(self) -> (place: u8)
        ensures
            place == self.rank(),
    {
        match self {
            IpProtocolState::Unasked => 0,
            IpProtocolState::OpenFiltered => 1,
            IpProtocolState::Filtered => 2,
            IpProtocolState::Closed => 3,
            IpProtocolState::Open => 4,
        }
    }
}

/// The one of two states that establishes more.
pub open spec fn more_definitive(a: IpProtocolState, b: IpProtocolState) -> IpProtocolState {
    if b.rank() > a.rank() {
        b
    } else {
        a
    }
}

/// A later probe that learned less does not unlearn what an earlier one
/// established, and which of the two came first does not matter.
pub proof fn lemma_a_weaker_probe_unlearns_nothing(a: IpProtocolState, b: IpProtocolState)
    ensures
        more_definitive(a, b).rank() >= a.rank(),
        more_definitive(a, b) == more_definitive(b, a),
{
}

/// The name a protocol number is known by.
pub open spec fn protocol_word(number: u8) -> Option<Seq<char>> {
    if number == 1 {
        Some("icmp"@)
    } else if number == 2 {
        Some("igmp"@)
    } else if number == 4 {
        Some("ipv4"@)
    } else if number == 6 {
        Some("tcp"@)
    } else if number == 17 {
        Some("udp"@)
    } else if number == 41 {
        Some("ipv6"@)
    } else if number == 47 {
        Some("gre"@)
    } else if number == 50 {
        Some("esp"@)
    } else if number == 51 {
        Some("ah"@)
    } else if number == 58 {
        Some("ipv6-icmp"@)
    } else if number == 89 {
        Some("ospfigp"@)
    } else if number == 103 {
        Some("pim"@)
    } else if number == 112 {
        Some("vrrp"@)
    } else if number == 132 {
        Some("sctp"@)
    } else if number == 136 {
        Some("udplite"@)
    } else if number == 137 {
        Some("mpls-in-ip"@)
    } else {
        None
    }
}

/// The IANA name for a protocol number, where it has one worth printing.
///
/// A short list rather than the whole registry: the numbers a scan is likely to
/// find something at. Lowercase, matching the registry's own keyword column.
pub fn ip_protocol_name(number: u8) -> (name: Option<&'static str>)
    ensures
        match name {
            Some(name) => protocol_word(number) == Some(name@),
            None => protocol_word(number) is None,
        },
{
    match number {
        1 => Some("icmp"),
        2 => Some("igmp"),
        4 => Some("ipv4"),
        6 => Some("tcp"),
        17 => Some("udp"),
        41 => Some("ipv6"),
        47 => Some("gre"),
        50 => Some("esp"),
        51 => Some("ah"),
        58 => Some("ipv6-icmp"),
        89 => Some("ospfigp"),
        103 => Some("pim"),
        112 => Some("vrrp"),
        132 => Some("sctp"),
        136 => Some("udplite"),
        137 => Some("mpls-in-ip"),
        _ => None,
    }
}

/// Delivery decides over a refusal, a refusal over a filter, a filter over silence
/// that may mean either, and that over no probe, whichever was established first.
pub proof fn lemma_the_more_definitive_state_decides(a: IpProtocolState, b: IpProtocolState)
    ensures
        more_definitive(a, b) == a || more_definitive(a, b) == b,
        a is Open ==> more_definitive(a, b) is Open && more_definitive(b, a) is Open,
        a is Closed && !(b is Open) ==> more_definitive(a, b) is Closed && more_definitive(b, a)
            is Closed,
        a is Filtered && (b is OpenFiltered || b is Unasked) ==> more_definitive(a, b) is Filtered
            && more_definitive(b, a) is Filtered,
        a is Unasked ==> more_definitive(a, b) == b && more_definitive(b, a) == b,
{
}

} // verus!
