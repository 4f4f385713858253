//! # Whether a host is there, and how that is known
//!
//! [`HostStatus`] is the verdict and [`StatusReason`] is the evidence: which
//! protocol, what it said, and who sent it. Probes answer in an order nobody
//! controls, so the verdict is promoted along the ordering of its variants and
//! never lowered.

use crate::model::ip::addr::IpAddr;
use crate::ordered::Same;
use crate::text;
use vstd::prelude::*;

verus! {

/// Whether a host is there.
///
/// Ordered from the weakest evidence to the strongest, so that a status is only
/// ever promoted.
#[non_exhaustive]
#[derive(Debug, Clone, Copy, PartialEq, Eq, PartialOrd, Ord, Hash, Structural)]
pub enum HostStatus {
    /// Nothing was received that says anything about this host. This is what a
    /// timeout means: silence never moves the status.
    Unknown,
    /// An intermediary reported this address unreachable.
    Down,
    /// An intermediary explicitly rejected traffic to this address by policy.
    Filtered,
    /// The host answered for itself.
    Up,
}

impl HostStatus {
    /// Every status, weakest first.
    pub const ALL: [HostStatus; 4] = [
        HostStatus::Unknown,
        HostStatus::Down,
        HostStatus::Filtered,
        HostStatus::Up,
    ];

    /// How strong the evidence behind a status is.
    pub open spec fn rank(self) -> int {
        match self {
            HostStatus::Unknown => 0,
            HostStatus::Down => 1,
            HostStatus::Filtered => 2,
            HostStatus::Up => 3,
        }
    }

    /// The word for it.
    pub open spec fn word(self) -> Seq<char> {
        match self {
            HostStatus::Unknown => "Unknown"@,
            HostStatus::Down => "Down"@,
            HostStatus::Filtered => "Filtered"@,
            HostStatus::Up => "Up"@,
        }
    }

    /// Whether the host answered.
    pub fn is_up(&self) -> (up: bool)
        ensures
            up == (*self is Up),
    {
        matches!(self, HostStatus::Up)
    }

    /// Whether the address was reported unreachable.
    pub fn is_down(&self) -> (down: bool)
        ensures
            down == (*self is Down),
    {
        matches!(self, HostStatus::Down)
    }

    /// Whether there is a host there at all: one behind a filter is.
    pub fn is_alive(&self) -> (alive: bool)
        ensures
            alive == (*self is Up || *self is Filtered),
    {
        matches!(self, HostStatus::Up | HostStatus::Filtered)
    }

    /// The word for it.
    pub fn to_string(&self) -> (word: String)
        ensures
            word@ == self.word(),
    {
        match self {
            HostStatus::Unknown => "Unknown".to_owned(),
            HostStatus::Down => "Down".to_owned(),
            HostStatus::Filtered => "Filtered".to_owned(),
            HostStatus::Up => "Up".to_owned(),
        }
    }

    /// The one of two that rests on the stronger evidence.
    pub fn or_stronger(self, other: HostStatus) -> (status: HostStatus)
        ensures
            status == stronger(self, other),
    {
        if other.place() > self.place() {
            other
        } else {
            self
        }
    }

    fn place(self) -> (place: u8)
        ensures
            place == self.rank(),
    {
        match self {
            HostStatus::Unknown => 0,
            HostStatus::Down => 1,
            HostStatus::Filtered => 2,
            HostStatus::Up => 3,
        }
    }
}

/// The one of two statuses that rests on the stronger evidence.
pub open spec fn stronger(a: HostStatus, b: HostStatus) -> HostStatus {
    if b.rank() > a.rank() {
        b
    } else {
        a
    }
}

/// A status is only ever promoted, and promoting by two is the same in either
/// order.
pub proof fn lemma_a_status_is_only_promoted(a: HostStatus, b: HostStatus, c: HostStatus)
    ensures
        stronger(a, b).rank() >= a.rank(),
        stronger(a, b) == stronger(b, a),
        stronger(stronger(a, b), c) == stronger(a, stronger(b, c)),
{
}

/// The protocol a piece of evidence arrived by.
#[non_exhaustive]
#[derive(Debug, PartialEq, Eq, Hash)]
pub enum StatusProtocol {
    /// An ARP reply.
    Arp,
    /// A neighbour advertisement.
    Ndp,
    /// An ICMP echo reply.
    IcmpEcho,
    /// An ICMP timestamp reply.
    IcmpTimestamp,
    /// An ICMP unreachable.
    IcmpUnreachable,
    /// A reply to a SYN.
    TcpSyn,
    /// A connection attempt.
    TcpConnect,
    /// Some other TCP segment.
    Tcp,
    /// A DHCP message.
    Dhcp,
    /// A UDP datagram.
    Udp,
    /// An SCTP chunk.
    Sctp,
    /// Something this list does not name.
    Custom(String),
}

/// Which protocol, and what it is called where it is none of those listed.
pub open spec fn protocol_said(protocol: StatusProtocol) -> (int, Seq<char>) {
    match protocol {
        StatusProtocol::Arp => (0, Seq::empty()),
        StatusProtocol::Ndp => (1, Seq::empty()),
        StatusProtocol::IcmpEcho => (2, Seq::empty()),
        StatusProtocol::IcmpTimestamp => (3, Seq::empty()),
        StatusProtocol::IcmpUnreachable => (4, Seq::empty()),
        StatusProtocol::TcpSyn => (5, Seq::empty()),
        StatusProtocol::TcpConnect => (6, Seq::empty()),
        StatusProtocol::Tcp => (7, Seq::empty()),
        StatusProtocol::Dhcp => (8, Seq::empty()),
        StatusProtocol::Udp => (9, Seq::empty()),
        StatusProtocol::Sctp => (10, Seq::empty()),
        StatusProtocol::Custom(name) => (11, name@),
    }
}

impl StatusProtocol {
    /// Every protocol this list names, in declaration order.
    pub const ALL: [StatusProtocol; 11] = [
        StatusProtocol::Arp,
        StatusProtocol::Ndp,
        StatusProtocol::IcmpEcho,
        StatusProtocol::IcmpTimestamp,
        StatusProtocol::IcmpUnreachable,
        StatusProtocol::TcpSyn,
        StatusProtocol::TcpConnect,
        StatusProtocol::Tcp,
        StatusProtocol::Dhcp,
        StatusProtocol::Udp,
        StatusProtocol::Sctp,
    ];

    fn place(&self) -> (place: u8)
        ensures
            place == protocol_said(*self).0,
    {
        match self {
            StatusProtocol::Arp => 0,
            StatusProtocol::Ndp => 1,
            StatusProtocol::IcmpEcho => 2,
            StatusProtocol::IcmpTimestamp => 3,
            StatusProtocol::IcmpUnreachable => 4,
            StatusProtocol::TcpSyn => 5,
            StatusProtocol::TcpConnect => 6,
            StatusProtocol::Tcp => 7,
            StatusProtocol::Dhcp => 8,
            StatusProtocol::Udp => 9,
            StatusProtocol::Sctp => 10,
            StatusProtocol::Custom(_) => 11,
        }
    }
}

impl Same for StatusProtocol {
    type Model = (int, Seq<char>);

    open spec fn model(&self) -> (int, Seq<char>) {
        protocol_said(*self)
    }

    fn same(&self, other: &Self) -> (result: bool) {
        match (self, other) {
            (StatusProtocol::Custom(a), StatusProtocol::Custom(b)) => text::same_text(
                a.as_str(),
                b.as_str(),
            ),
            _ => self.place() == other.place(),
        }
    }

    fn copied(&self) -> (result: Self) {
        match self {
            StatusProtocol::Arp => StatusProtocol::Arp,
            StatusProtocol::Ndp => StatusProtocol::Ndp,
            StatusProtocol::IcmpEcho => StatusProtocol::IcmpEcho,
            StatusProtocol::IcmpTimestamp => StatusProtocol::IcmpTimestamp,
            StatusProtocol::IcmpUnreachable => StatusProtocol::IcmpUnreachable,
            StatusProtocol::TcpSyn => StatusProtocol::TcpSyn,
            StatusProtocol::TcpConnect => StatusProtocol::TcpConnect,
            StatusProtocol::Tcp => StatusProtocol::Tcp,
            StatusProtocol::Dhcp => StatusProtocol::Dhcp,
            StatusProtocol::Udp => StatusProtocol::Udp,
            StatusProtocol::Sctp => StatusProtocol::Sctp,
            StatusProtocol::Custom(name) => StatusProtocol::Custom(name.as_str().to_owned()),
        }
    }
}

impl Clone for StatusProtocol {
    fn clone(&self) -> (protocol: Self)
        ensures
            protocol_said(protocol) == protocol_said(*self),
    {
        self.copied()
    }
}

/// Who sent a piece of evidence.
#[derive(Debug, Clone, Copy, PartialEq, Eq, Hash, Structural)]
pub enum EvidenceSource {
    /// The host itself.
    Host,
    /// Something in the path, about the host.
    Intermediary(IpAddr),
    /// Something in the path, from an address the scan's exclusions forbid it to
    /// report: this came second-hand, and the scan will not say from whom.
    Withheld,
}

impl EvidenceSource {
    /// The address that sent the evidence, or `None` where the host sent it
    /// or the sender is [withheld](Self::is_withheld).
    pub fn address(&self) -> (address: Option<IpAddr>)
        ensures
            address == match *self {
                EvidenceSource::Intermediary(address) => Some(address),
                _ => None,
            },
    {
        match self {
            EvidenceSource::Intermediary(address) => Some(*address),
            _ => None,
        }
    }

    /// Whether the evidence came second-hand from an address the scan may not
    /// report.
    pub fn is_withheld(&self) -> (withheld: bool)
        ensures
            withheld == (*self is Withheld),
    {
        *self == EvidenceSource::Withheld
    }

    /// Withholds the sender if `keep` refuses its address, and returns whether
    /// it did.
    ///
    /// Reaches only a named sender the policy refuses. The host's own evidence
    /// has no sender to withhold.
    pub fn withhold<F: Fn(&IpAddr) -> bool>(&mut self, keep: F) -> (withheld: bool)
        requires
            forall|address: &IpAddr| call_requires(keep, (address,)),
        ensures
            match *old(self) {
                EvidenceSource::Intermediary(address) => call_ensures(keep, (&address,), !withheld)
                    && *final(self) == if withheld {
                    EvidenceSource::Withheld
                } else {
                    *old(self)
                },
                _ => !withheld && *final(self) == *old(self),
            },
    {
        match *self {
            EvidenceSource::Intermediary(address) => {
                let kept = keep(&address);
                if !kept {
                    *self = EvidenceSource::Withheld;
                }
                !kept
            },
            _ => false,
        }
    }
}

/// Why a host has the status it has.
#[must_use]
#[non_exhaustive]
#[derive(Debug, PartialEq, Eq, Hash)]
pub struct StatusReason {
    /// The protocol the evidence arrived by.
    pub protocol: StatusProtocol,
    /// Who sent it.
    pub source: EvidenceSource,
    /// What it said, where that is worth repeating.
    pub details: Option<String>,
}

/// What a reason says.
#[verifier::ext_equal]
pub struct Reason {
    pub protocol: (int, Seq<char>),
    pub source: EvidenceSource,
    pub details: Option<Seq<char>>,
}

impl View for StatusReason {
    type V = Reason;

    open spec fn view(&self) -> Reason {
        Reason {
            protocol: protocol_said(self.protocol),
            source: self.source,
            details: text::said(self.details),
        }
    }
}

impl StatusReason {
    /// Evidence from the host itself, and what it said.
    pub fn new(protocol: StatusProtocol, details: &str) -> (reason: Self)
        ensures
            reason@ == (Reason {
                protocol: protocol_said(protocol),
                source: EvidenceSource::Host,
                details: Some(details@),
            }),
    {
        StatusReason {
            protocol,
            source: EvidenceSource::Host,
            details: Some(details.to_owned()),
        }
    }

    /// Evidence from the host itself.
    pub fn basic(protocol: StatusProtocol) -> (reason: Self)
        ensures
            reason@ == (Reason {
                protocol: protocol_said(protocol),
                source: EvidenceSource::Host,
                details: None,
            }),
    {
        StatusReason { protocol, source: EvidenceSource::Host, details: None }
    }

    /// The same evidence, from something in the path at `source`.
    pub fn from_source(self, source: IpAddr) -> (reason: Self)
        ensures
            reason@ == (Reason { source: EvidenceSource::Intermediary(source), ..self@ }),
    {
        StatusReason {
            protocol: self.protocol,
            source: EvidenceSource::Intermediary(source),
            details: self.details,
        }
    }
}

impl Same for StatusReason {
    type Model = Reason;

    open spec fn model(&self) -> Reason {
        self@
    }

    fn same(&self, other: &Self) -> (result: bool) {
        let same = self.protocol.same(&other.protocol) && self.source == other.source
            && text::same_saying(&self.details, &other.details);
        assert(same ==> self@ =~= other@);
        same
    }

    fn copied(&self) -> (result: Self) {
        StatusReason {
            protocol: self.protocol.copied(),
            source: self.source,
            details: text::say_again(&self.details),
        }
    }
}

impl Clone for StatusReason {
    fn clone(&self) -> (reason: Self)
        ensures
            reason@ == self@,
    {
        self.copied()
    }
}

/// An answer decides over a filter, a filter over a report of nothing there, and
/// that over nothing known, whichever was established first.
pub proof fn lemma_the_stronger_evidence_decides(a: HostStatus, b: HostStatus)
    ensures
        stronger(a, b) == a || stronger(a, b) == b,
        a is Up ==> stronger(a, b) is Up && stronger(b, a) is Up,
        a is Filtered && !(b is Up) ==> stronger(a, b) is Filtered && stronger(b, a) is Filtered,
        a is Down && (b is Down || b is Unknown) ==> stronger(a, b) is Down && stronger(b, a)
            is Down,
        a is Unknown ==> stronger(a, b) == b && stronger(b, a) == b,
{
}

} // verus!
