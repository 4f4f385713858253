//! # Hosts
//!
//! A [`Host`] is everything a scan learned about a single device. Nothing fills one
//! in at once: an ARP reply establishes that it is there, a neighbour solicitation
//! adds an address, a port scan adds ports. Each of those arrives on its own
//! schedule, in an order nobody controls.
//!
//! The whole type is therefore built around accumulating evidence, under one rule:
//! later is not better. Status is promoted and never lowered. The address a host is
//! reported under is ranked rather than overwritten. A MAC is added to those already
//! seen rather than replacing them. Where two findings are equally good, the one
//! already recorded wins. [`Host::set_hostname`] is the one exception, and says why.
//!
//! [`Host::merge`] applies the same rules between two records of one host, so
//! folding one phase into another gives what a single phase would.
//!
//! A record reads no clock. Whoever reports a finding says when it was made.

pub mod evidence;
pub mod hardware;
pub mod name;
pub mod os;
pub mod path;
pub mod ports;
pub mod protocol;
pub mod role;
pub mod status;
pub mod telemetry;

use crate::model::host::evidence::{EvidenceFile, OsEvidence};
use crate::model::host::ports::PortTable;
use crate::model::host::telemetry::{RttSample, RttSource};
use crate::model::ip;
use crate::model::ip::addr;
use crate::model::ip::scoped;
use crate::model::ip::scoped::{ScopedIp, ScopedView, Zone, ZoneView};
use crate::model::ip::IpAddr;
use crate::model::mac::MacAddr;
use crate::model::port::{Endpoint, Port, PortState};
use crate::model::time;
use crate::model::time::{Duration, Instant, SystemTime};
use crate::ordered::{Distinct, OrderedSet};
use crate::text;
use vstd::prelude::*;

pub use hardware::HardwareInfo;
pub use os::OsFingerprint;
pub use path::{Hop, NetworkPath};
pub use ports::{MAX_PORTS_PER_HOST, TARPIT_OPEN_PORTS};
pub use role::{Filtering, NetworkRole};
pub use status::{HostStatus, StatusProtocol, StatusReason};
pub use telemetry::HostTelemetry;

verus! {

// ---------------------------------------------------------------------------
// What a record says
// ---------------------------------------------------------------------------

/// What a record says of a host.
#[verifier::ext_equal]
pub struct HostRecord {
    /// The address the host is reported under.
    pub primary: IpAddr,
    /// Every address it is known by.
    pub ips: Set<IpAddr>,
    /// The name it resolved to.
    pub hostname: Option<Seq<char>>,
    /// Whether it is there.
    pub status: HostStatus,
    /// What says so.
    pub reasons: Set<status::Reason>,
    /// Its operating system.
    pub os: Option<os::OsClaim>,
    /// What each source concluded about its operating system.
    pub os_evidence: evidence::Filed,
    /// Its hardware.
    pub hardware: Option<hardware::HardwareClaim>,
    /// The interface it was observed through.
    pub zone: Option<ZoneView>,
    /// How far away it is.
    pub telemetry: telemetry::Measured,
    /// The routers on the way to it.
    pub path: Map<u8, path::Router>,
    /// What it turned out to be.
    pub roles: Set<NetworkRole>,
    /// What the filter in front of it was shown to be doing.
    pub filtering: Set<Filtering>,
    /// When it was first heard from.
    pub first_seen: SystemTime,
    /// When it was last heard from.
    pub last_seen: SystemTime,
    /// The ports found on it.
    pub ports: ports::Findings,
}

/// How well an address identifies the host holding it: lower leads.
pub open spec fn identity_rank(addr: IpAddr) -> int {
    match addr {
        IpAddr::V4(_) => 0,
        IpAddr::V6(v6) => if ip::in_global_unicast(v6) || ip::in_unique_local(v6) {
            1
        } else {
            2
        },
    }
}

/// The one of two addresses that identifies a host better, the first where neither
/// does.
pub open spec fn leading(current: IpAddr, candidate: IpAddr) -> IpAddr {
    if identity_rank(candidate) < identity_rank(current) {
        candidate
    } else {
        current
    }
}

/// What a record says of a host once a finding about one port has been recorded.
pub open spec fn with_port(record: HostRecord, port: Port, now: SystemTime) -> HostRecord {
    let found = ports::noted(record.ports, port.at(), port.found());
    HostRecord {
        ports: found,
        roles: marked(record.ports, record.roles, port),
        last_seen: if ports::has_room(record.ports, port.at()) {
            now
        } else {
            record.last_seen
        },
        ..record
    }
}

/// The roles of a host once a finding about one port has been recorded: a finding
/// that had no place marks the list as truncated, and one that opens a port past
/// the threshold marks the host as a tarpit.
pub open spec fn marked(
    found: ports::Findings,
    roles: Set<NetworkRole>,
    port: Port,
) -> Set<NetworkRole> {
    let after = ports::noted(found, port.at(), port.found());
    if !ports::has_room(found, port.at()) {
        roles.insert(NetworkRole::Truncated)
    } else if ports::opens(found, port.at(), port.found()) && ports::open_ports(after).len()
        >= TARPIT_OPEN_PORTS {
        roles.insert(NetworkRole::Tarpit)
    } else {
        roles
    }
}

/// The ports and the roles of a host once the first `n` findings of a list have
/// been recorded.
pub open spec fn with_ports(
    found: ports::Findings,
    roles: Set<NetworkRole>,
    listed: Seq<Port>,
    n: int,
) -> (ports::Findings, Set<NetworkRole>)
    decreases n,
{
    if n <= 0 {
        (found, roles)
    } else {
        let (before, was) = with_ports(found, roles, listed, n - 1);
        let port = listed[n - 1];
        (ports::noted(before, port.at(), port.found()), marked(before, was, port))
    }
}

/// Two paths as one: at every distance the stronger claim, this side's where
/// neither is.
pub open spec fn paths_joined(
    here: Map<u8, path::Router>,
    there: Map<u8, path::Router>,
) -> Map<u8, path::Router> {
    Map::new(
        |distance: u8| here.dom().contains(distance) || there.dom().contains(distance),
        |distance: u8|
            if !there.dom().contains(distance) {
                here[distance]
            } else if !here.dom().contains(distance) || path::outranks(
                there[distance],
                here[distance],
            ) {
                there[distance]
            } else {
                here[distance]
            },
    )
}

/// What a record says once the accounts of the operating system are one.
pub open spec fn os_merged(here: Option<os::OsClaim>, there: Option<OsFingerprint>) -> Option<
    os::OsClaim,
> {
    match (here, there) {
        (Some(a), Some(b)) => Some(os::merged(a, b@, b.listed_cpes())),
        (None, Some(b)) => Some(b@),
        (a, None) => a,
    }
}

/// What a record says once the accounts of the hardware are one.
pub open spec fn hardware_merged(
    here: Option<hardware::HardwareClaim>,
    there: Option<hardware::HardwareClaim>,
) -> Option<hardware::HardwareClaim> {
    match (here, there) {
        (Some(a), Some(b)) => Some(hardware::merged(a, b)),
        (None, b) => b,
        (a, None) => a,
    }
}

/// What a record says once a MAC has been heard from.
pub open spec fn mac_heard(
    here: Option<hardware::HardwareClaim>,
    address: MacAddr,
    at: SystemTime,
    maker: Option<Seq<char>>,
) -> hardware::HardwareClaim {
    match here {
        Some(known) => hardware::heard(known, address, at, maker),
        None => hardware::HardwareClaim {
            macs: Map::empty().insert(address, at),
            vendor: maker,
            product: None,
            family: None,
            cpe23: None,
            model: None,
            version: None,
            serial_number: None,
        },
    }
}

/// The telemetry once the first `n` round trips of a list have been recorded.
pub open spec fn all_sampled(
    here: telemetry::Measured,
    at: Instant,
    rtts: Seq<Duration>,
    n: int,
) -> telemetry::Measured
    decreases n,
{
    if n <= 0 {
        here
    } else {
        telemetry::sampled(
            all_sampled(here, at, rtts, n - 1),
            RttSample { at, rtt: rtts[n - 1], source: RttSource::Direct },
        )
    }
}

/// Those of the first `n` roles there are that a host has.
pub open spec fn held_of(roles: Set<NetworkRole>, n: int) -> Seq<NetworkRole>
    decreases n,
{
    if n <= 0 {
        Seq::empty()
    } else if roles.contains(NetworkRole::ALL@[n - 1]) {
        held_of(roles, n - 1).push(NetworkRole::ALL@[n - 1])
    } else {
        held_of(roles, n - 1)
    }
}

/// A record as one line.
pub open spec fn rendered(record: HostRecord) -> Seq<char> {
    rendered_with(record, telemetry::rendered(record.telemetry))
}

/// A record as one line, its telemetry written as given.
///
/// The roles stand in the order they are declared in. A latency beside a host whose
/// port list is meaningless invites the reader to act on the rest of the line, so
/// the two markings that say not to take the space instead.
pub open spec fn rendered_with(record: HostRecord, latency: Seq<char>) -> Seq<char> {
    let held = held_of(record.roles, 9);
    let named = addr::ip_text(record.primary) + " ("@ + record.status.word() + ")"@;
    let with_os = match record.os {
        Some(os) => named + " - "@ + os::rendered(os),
        None => named,
    };
    let with_roles = if held.len() > 0 {
        with_os + " ["@ + role::listed_words(held) + "]"@
    } else {
        with_os
    };
    if record.roles.contains(NetworkRole::Tarpit) || record.roles.contains(NetworkRole::Truncated) {
        with_roles
    } else {
        with_roles + " ["@ + latency + "]"@
    }
}

// ---------------------------------------------------------------------------
// Which address leads
// ---------------------------------------------------------------------------

/// How well `addr` identifies the host holding it: lower leads.
///
/// The middle rank is an address that names the host from off its segment, tested
/// for rather than inferred from "not link-local": the latter also admits loopback,
/// multicast and the unspecified address, none of which name this host to anyone.
fn rank_of(addr: &IpAddr) -> (rank: u8)
    ensures
        rank == identity_rank(*addr),
{
    match addr {
        IpAddr::V4(_) => 0,
        IpAddr::V6(v6) => if ip::is_global_unicast(v6) || ip::is_unique_local(v6) {
            1
        } else {
            2
        },
    }
}

/// The addresses a host answers at, and the one it is reported under.
#[derive(Debug, PartialEq, Eq)]
struct Addresses {
    primary: IpAddr,
    all: OrderedSet<IpAddr>,
}

impl Addresses {
    #[verifier::type_invariant]
    spec fn leads_with_its_own(self) -> bool {
        self.all@.contains(self.primary)
    }

    fn new(primary: IpAddr) -> (addresses: Self)
        ensures
            addresses.primary == primary,
            addresses.all@ == Set::empty().insert(primary),
    {
        let mut all: OrderedSet<IpAddr> = OrderedSet::new();
        all.insert(primary);
        Addresses { primary, all }
    }

    fn add(&mut self, addr: IpAddr) -> (is_new: bool)
        ensures
            final(self).primary == old(self).primary,
            final(self).all@ == old(self).all@.insert(addr),
            is_new == !old(self).all@.contains(addr),
    {
        proof {
            use_type_invariant(&*self);
        }
        let mut this = Addresses::new(addr);
        std::mem::swap(&mut this, self);
        let primary = this.primary;
        let mut all = this.all;
        let is_new = all.insert(addr);
        *self = Addresses { primary, all };
        is_new
    }

    fn absorb(&mut self, other: &OrderedSet<IpAddr>)
        ensures
            final(self).primary == old(self).primary,
            final(self).all@ == old(self).all@.union(other@),
    {
        proof {
            use_type_invariant(&*self);
        }
        let mut this = Addresses::new(self.primary);
        std::mem::swap(&mut this, self);
        let primary = this.primary;
        let mut all = this.all;
        all.absorb(other);
        *self = Addresses { primary, all };
    }

    fn again(&self) -> (addresses: Self)
        ensures
            addresses.primary == self.primary,
            addresses.all@ == self.all@,
    {
        proof {
            use_type_invariant(self);
        }
        Addresses { primary: self.primary, all: self.all.clone() }
    }

    fn consider(&mut self, candidate: IpAddr) -> (changed: bool)
        ensures
            final(self).primary == leading(old(self).primary, candidate),
            final(self).all@ == old(self).all@.insert(candidate),
            changed == (identity_rank(candidate) < identity_rank(old(self).primary)),
    {
        self.add(candidate);
        proof {
            use_type_invariant(&*self);
        }
        if rank_of(&candidate) >= rank_of(&self.primary) {
            return false;
        }
        self.primary = candidate;
        true
    }
}

// ---------------------------------------------------------------------------
// The record
// ---------------------------------------------------------------------------

/// A single machine, and what a scan established about it.
///
/// A host holds every address it is known by. A dual-stack machine answering at
/// three of them is one device, and reporting it as three is the failure this type
/// is shaped to avoid. See [`consider_primary_ip`](Self::consider_primary_ip) for
/// which address leads.
#[derive(Debug)]
pub struct Host {
    addresses: Addresses,
    hostname: Option<String>,
    status: HostStatus,
    reasons: Distinct<StatusReason>,
    os: Option<OsFingerprint>,
    os_evidence: EvidenceFile,
    hardware: Option<HardwareInfo>,
    zone: Option<Zone>,
    telemetry: HostTelemetry,
    path: NetworkPath,
    network_roles: OrderedSet<NetworkRole>,
    filtering: OrderedSet<Filtering>,
    first_seen: SystemTime,
    last_seen: SystemTime,
    ports: PortTable,
}

/// What an account of an operating system says.
spec fn os_said(os: Option<OsFingerprint>) -> Option<os::OsClaim> {
    match os {
        Some(os) => Some(os@),
        None => None,
    }
}

/// What an account of hardware says.
spec fn hardware_said(hardware: Option<HardwareInfo>) -> Option<hardware::HardwareClaim> {
    match hardware {
        Some(hardware) => Some(hardware@),
        None => None,
    }
}

impl View for Host {
    type V = HostRecord;

    closed spec fn view(&self) -> HostRecord {
        HostRecord {
            primary: self.addresses.primary,
            ips: self.addresses.all@,
            hostname: text::said(self.hostname),
            status: self.status,
            reasons: self.reasons@,
            os: os_said(self.os),
            os_evidence: self.os_evidence@,
            hardware: hardware_said(self.hardware),
            zone: scoped::zone_said(self.zone),
            telemetry: self.telemetry@,
            path: self.path@,
            roles: self.network_roles@,
            filtering: self.filtering@,
            first_seen: self.first_seen,
            last_seen: self.last_seen,
            ports: self.ports@,
        }
    }
}

impl Host {
    /// The operating system the record names.
    pub closed spec fn named_os(&self) -> Option<OsFingerprint> {
        self.os
    }

    /// The evidence about the operating system, in the order of its claims.
    pub closed spec fn listed_evidence(&self) -> Seq<OsEvidence> {
        self.os_evidence.listed()
    }

    /// The ports, by number with the transports of one number adjacent.
    pub closed spec fn listed_ports(&self) -> Seq<Port> {
        self.ports.listed()
    }

    /// A record of the host at `primary_ip`, first heard from at `now`.
    pub fn new(primary_ip: IpAddr, now: SystemTime) -> (host: Self)
        ensures
            host@ == (HostRecord {
                primary: primary_ip,
                ips: Set::empty().insert(primary_ip),
                hostname: None,
                status: HostStatus::Unknown,
                reasons: Set::empty(),
                os: None,
                os_evidence: Map::empty(),
                hardware: None,
                zone: None,
                telemetry: telemetry::Measured {
                    history: Seq::empty(),
                    window: telemetry::DEFAULT_RTT_SAMPLES as int,
                    hop_counter: None,
                },
                path: Map::empty(),
                roles: Set::empty(),
                filtering: Set::empty(),
                first_seen: now,
                last_seen: now,
                ports: Map::empty(),
            }),
    {
        Host {
            addresses: Addresses::new(primary_ip),
            hostname: None,
            status: HostStatus::Unknown,
            reasons: Distinct::new(),
            os: None,
            os_evidence: EvidenceFile::new(),
            hardware: None,
            zone: None,
            telemetry: HostTelemetry::new(telemetry::DEFAULT_RTT_SAMPLES),
            path: NetworkPath::new(),
            network_roles: OrderedSet::new(),
            filtering: OrderedSet::new(),
            first_seen: now,
            last_seen: now,
            ports: PortTable::new(),
        }
    }

    /// The address the host is reported under, which is one of those it has.
    pub fn primary_ip(&self) -> (primary: IpAddr)
        ensures
            primary == self@.primary,
            self@.ips.contains(primary),
    {
        proof {
            use_type_invariant(&self.addresses);
        }
        self.addresses.primary
    }

    /// Every address the host is known by.
    pub fn ips(&self) -> (ips: &OrderedSet<IpAddr>)
        ensures
            ips@ == self@.ips,
            self@.ips.contains(self@.primary),
    {
        proof {
            use_type_invariant(&self.addresses);
        }
        &self.addresses.all
    }

    /// The name the host resolved to, if any.
    pub fn hostname(&self) -> (hostname: Option<&str>)
        ensures
            text::said_by(hostname) == self@.hostname,
    {
        text::as_text(&self.hostname)
    }

    /// The current reachability status.
    pub fn status(&self) -> (status: HostStatus)
        ensures
            status == self@.status,
    {
        self.status
    }

    /// All evidence for the current status.
    pub fn reasons(&self) -> (reasons: &Distinct<StatusReason>)
        ensures
            reasons@ == self@.reasons,
    {
        &self.reasons
    }

    /// The identified operating system, if any.
    pub fn os(&self) -> (os: Option<&OsFingerprint>)
        ensures
            match os {
                Some(os) => self.named_os() == Some(*os) && self@.os == Some(os@),
                None => self.named_os() is None && self@.os is None,
            },
    {
        match &self.os {
            Some(os) => Some(os),
            None => None,
        }
    }

    /// The physical hardware, if any is known.
    pub fn hardware(&self) -> (hardware: Option<&HardwareInfo>)
        ensures
            match hardware {
                Some(hardware) => self@.hardware == Some(hardware@),
                None => self@.hardware is None,
            },
    {
        match &self.hardware {
            Some(hardware) => Some(hardware),
            None => None,
        }
    }

    /// The interface this host was observed through, if known.
    pub fn zone(&self) -> (zone: Option<&Zone>)
        ensures
            match zone {
                Some(zone) => self@.zone == Some(zone@),
                None => self@.zone is None,
            },
    {
        match &self.zone {
            Some(zone) => Some(zone),
            None => None,
        }
    }

    /// Records the interface this host was observed through.
    ///
    /// Only the first is kept: overwriting would make the address a scan reports
    /// depend on which strategy happened to finish last.
    pub fn set_zone(&mut self, zone: Zone, now: SystemTime)
        ensures
            final(self)@ == (HostRecord {
                zone: if old(self)@.zone is Some {
                    old(self)@.zone
                } else {
                    Some(zone@)
                },
                last_seen: now,
                ..old(self)@
            }),
    {
        if self.zone.is_none() {
            self.zone = Some(zone);
        }
        self.last_seen = now;
    }

    /// The primary address, carrying the interface it is valid on where it needs
    /// one.
    pub fn scoped_ip(&self) -> (scoped: ScopedIp)
        ensures
            scoped@ == (ScopedView {
                addr: self@.primary,
                zone: if scoped::needs_a_zone(self@.primary) {
                    self@.zone
                } else {
                    None
                },
            }),
    {
        match &self.zone {
            Some(zone) => ScopedIp::scoped(self.addresses.primary, zone.clone()),
            None => ScopedIp::unscoped(self.addresses.primary),
        }
    }

    /// How far away the host is.
    pub fn telemetry(&self) -> (telemetry: &HostTelemetry)
        ensures
            telemetry@ == self@.telemetry,
    {
        &self.telemetry
    }

    /// The routers between this machine and the host. Empty unless a trace ran.
    pub fn path(&self) -> (path: &NetworkPath)
        ensures
            path@ == self@.path,
    {
        &self.path
    }

    /// Records the hop counter a reply from this host arrived with.
    pub fn record_hop_counter(&mut self, arrived: u8)
        ensures
            final(self)@ == (HostRecord {
                telemetry: telemetry::Measured {
                    hop_counter: Some(arrived),
                    ..old(self)@.telemetry
                },
                ..old(self)@
            }),
    {
        self.telemetry.record_hop_counter(arrived);
    }

    /// Records one router on the way here.
    ///
    /// What is known about a distance only ever gets stronger, so a trace whose
    /// replies arrive out of order, or twice, converges on the same path.
    pub fn record_hop(&mut self, hop: Hop, now: SystemTime)
        ensures
            final(self)@ == (HostRecord {
                path: path::recorded(old(self)@.path, hop@),
                last_seen: now,
                ..old(self)@
            }),
    {
        self.path.record(hop);
        self.last_seen = now;
    }

    /// What the host turned out to be.
    pub fn network_roles(&self) -> (roles: &OrderedSet<NetworkRole>)
        ensures
            roles@ == self@.roles,
    {
        &self.network_roles
    }

    /// What the filter in front of this host was shown to be doing.
    pub fn filtering(&self) -> (filtering: &OrderedSet<Filtering>)
        ensures
            filtering@ == self@.filtering,
    {
        &self.filtering
    }

    /// When the host was first heard from.
    pub fn first_seen(&self) -> (at: SystemTime)
        ensures
            at == self@.first_seen,
    {
        self.first_seen
    }

    /// When the host was last heard from.
    pub fn last_seen(&self) -> (at: SystemTime)
        ensures
            at == self@.last_seen,
    {
        self.last_seen
    }

    /// Restores the times this host was first and last seen.
    ///
    /// Taken together rather than as two setters, since a `first_seen` after a
    /// `last_seen` describes nothing that could have happened. They are swapped if
    /// given that way.
    pub fn restore_seen(&mut self, first_seen: SystemTime, last_seen: SystemTime)
        ensures
            final(self)@ == (HostRecord {
                first_seen: time::earlier_of(first_seen, last_seen),
                last_seen: time::later_of(first_seen, last_seen),
                ..old(self)@
            }),
    {
        self.first_seen = first_seen.or_earlier(last_seen);
        self.last_seen = first_seen.or_later(last_seen);
    }

    /// Offers `candidate` as the address this host is reported under, taking it
    /// only if it identifies the host better than the current one. Says whether the
    /// primary address changed.
    ///
    /// Addresses are ranked, and the ranking only ever moves upward: IPv4, because
    /// it is what a person recognises and types; globally scoped IPv6, which names
    /// the host from anywhere; and anything else last. Ties keep the incumbent, and
    /// every address stays among those the host has.
    pub fn consider_primary_ip(&mut self, candidate: IpAddr, now: SystemTime) -> (changed: bool)
        ensures
            final(self)@ == (HostRecord {
                primary: leading(old(self)@.primary, candidate),
                ips: old(self)@.ips.insert(candidate),
                last_seen: now,
                ..old(self)@
            }),
            changed == (identity_rank(candidate) < identity_rank(old(self)@.primary)),
    {
        let changed = self.addresses.consider(candidate);
        self.last_seen = now;
        changed
    }

    /// Adds an address, and says whether it is new.
    pub fn add_ip(&mut self, ip: IpAddr, now: SystemTime) -> (is_new: bool)
        ensures
            final(self)@ == (HostRecord {
                ips: old(self)@.ips.insert(ip),
                last_seen: now,
                ..old(self)@
            }),
            is_new == !old(self)@.ips.contains(ip),
    {
        let is_new = self.addresses.add(ip);
        self.last_seen = now;
        is_new
    }

    /// Adds several addresses.
    pub fn extend_ips(&mut self, ips: &[IpAddr], now: SystemTime)
        ensures
            final(self)@ == (HostRecord {
                ips: old(self)@.ips.union(ips@.to_set()),
                last_seen: now,
                ..old(self)@
            }),
    {
        let ghost was = self@;
        let mut i: usize = 0;
        while i < ips.len()
            invariant
                i <= ips@.len(),
                self@ == (HostRecord {
                    ips: was.ips.union(ips@.take(i as int).to_set()),
                    ..was
                }),
            decreases ips@.len() - i,
        {
            self.addresses.add(ips[i]);
            proof {
                let (before, after) = (ips@.take(i as int), ips@.take(i + 1));
                assert(after =~= before.push(ips@[i as int]));
                assert forall|ip: IpAddr| after.to_set().contains(ip) == before.to_set().insert(
                    ips@[i as int],
                ).contains(ip) by {
                    assert(after[i as int] == ips@[i as int]);
                    if before.contains(ip) {
                        let j = choose|j: int| 0 <= j < before.len() && before[j] == ip;
                        assert(after[j] == ip);
                    }
                }
                assert(self@.ips =~= was.ips.union(after.to_set()));
            }
            i = i + 1;
        }
        assert(ips@.take(ips@.len() as int) =~= ips@);
        self.last_seen = now;
    }

    /// Records the name this host resolved to, replacing any already recorded.
    ///
    /// The one field that is overwritten, and the exception is deliberate: a
    /// hostname has no ordering that says which of two answers knows more, and a
    /// caller passing `None` is clearing a name rather than declining to set one.
    /// [`merge`](Self::merge) keeps the incumbent instead, because there neither
    /// record is the later word.
    pub fn set_hostname(&mut self, hostname: Option<String>, now: SystemTime)
        ensures
            final(self)@ == (HostRecord {
                hostname: text::said(hostname),
                last_seen: now,
                ..old(self)@
            }),
    {
        self.hostname = hostname;
        self.last_seen = now;
    }

    /// Raises the reachability status to `status`, if that is an improvement.
    pub fn set_status(&mut self, status: HostStatus, now: SystemTime)
        ensures
            final(self)@ == (HostRecord {
                status: status::stronger(old(self)@.status, status),
                last_seen: now,
                ..old(self)@
            }),
    {
        self.status = self.status.or_stronger(status);
        self.last_seen = now;
    }

    /// Adds a reason for the status.
    pub fn add_reason(&mut self, reason: StatusReason, now: SystemTime)
        ensures
            final(self)@ == (HostRecord {
                reasons: old(self)@.reasons.insert(reason@),
                last_seen: now,
                ..old(self)@
            }),
    {
        self.reasons.insert(reason);
        self.last_seen = now;
    }

    /// Records one piece of liveness evidence: the status it establishes, and the
    /// reason it establishes it.
    ///
    /// The status is promoted, never lowered. The reason is kept whether or not the
    /// status moved: a host that is already up still gains the audit trail of
    /// everything else that saw it.
    pub fn record_evidence(&mut self, status: HostStatus, reason: StatusReason, now: SystemTime)
        ensures
            final(self)@ == (HostRecord {
                status: status::stronger(old(self)@.status, status),
                reasons: old(self)@.reasons.insert(reason@),
                last_seen: now,
                ..old(self)@
            }),
    {
        self.status = self.status.or_stronger(status);
        self.reasons.insert(reason);
        self.last_seen = now;
    }

    /// What each source has concluded about this host's operating system, one item
    /// per distinct claim.
    pub fn os_evidence(&self) -> (items: Vec<&OsEvidence>)
        ensures
            items@.len() == self.listed_evidence().len(),
            forall|i: int|
                0 <= i < items@.len() ==> *#[trigger] items@[i] == self.listed_evidence()[i],
            evidence::lists_evidence(self.listed_evidence(), self@.os_evidence),
    {
        self.os_evidence.all()
    }

    /// Files what one source concluded, and says whether this changed what is on
    /// record, so that a caller can tell a genuine new finding from the same one
    /// arriving again.
    ///
    /// A claim on record keeps the strongest confidence and every distinct line
    /// behind it. A new one is turned away once the record is full.
    pub fn record_os_evidence(&mut self, evidence: OsEvidence) -> (changed: bool)
        ensures
            final(self)@ == (HostRecord {
                os_evidence: evidence::filed(
                    old(self)@.os_evidence,
                    evidence.claim(),
                    evidence.support(),
                ),
                ..old(self)@
            }),
            changed == (final(self)@.os_evidence != old(self)@.os_evidence),
    {
        self.os_evidence.file(evidence)
    }

    /// Names the operating system.
    pub fn set_os(&mut self, os: OsFingerprint, now: SystemTime)
        ensures
            final(self)@ == (HostRecord { os: Some(os@), last_seen: now, ..old(self)@ }),
            final(self).named_os() == Some(os),
    {
        self.os = Some(os);
        self.last_seen = now;
    }

    /// Withdraws this host's operating-system fingerprint, for a caller that has
    /// re-resolved the evidence and found it no longer supports what is on record.
    pub fn clear_os(&mut self, now: SystemTime)
        ensures
            final(self)@ == (HostRecord { os: None, last_seen: now, ..old(self)@ }),
    {
        self.os = None;
        self.last_seen = now;
    }

    /// Replaces this host's hardware record wholesale.
    pub fn set_hardware(&mut self, hardware: HardwareInfo, now: SystemTime)
        ensures
            final(self)@ == (HostRecord {
                hardware: Some(hardware@),
                last_seen: now,
                ..old(self)@
            }),
    {
        self.hardware = Some(hardware);
        self.last_seen = now;
    }

    /// [`record_mac`](Self::record_mac) on a host under construction.
    pub fn with_mac(self, mac: MacAddr, now: SystemTime) -> (host: Self)
        ensures
            host@ == (HostRecord {
                hardware: Some(mac_heard(self@.hardware, mac, now, hardware::maker_of(mac))),
                last_seen: now,
                ..self@
            }),
    {
        let mut host = self;
        host.record_mac(mac, now);
        host
    }

    /// Records a sighting of `mac` for this host, keeping every address seen.
    ///
    /// Repeating a MAC already on record refreshes its last-seen time.
    pub fn record_mac(&mut self, mac: MacAddr, now: SystemTime)
        ensures
            final(self)@ == (HostRecord {
                hardware: Some(mac_heard(old(self)@.hardware, mac, now, hardware::maker_of(mac))),
                last_seen: now,
                ..old(self)@
            }),
    {
        let mut known: Option<HardwareInfo> = None;
        std::mem::swap(&mut known, &mut self.hardware);
        let hardware = match known {
            Some(hardware) => {
                let mut hardware = hardware;
                hardware.add_mac(mac, now);
                hardware
            },
            None => HardwareInfo::new(mac, now),
        };
        self.hardware = Some(hardware);
        self.last_seen = now;
    }

    /// Adds a round trip, whose reply arrived at `at`.
    pub fn add_rtt(&mut self, at: Instant, rtt: Duration, now: SystemTime)
        ensures
            final(self)@ == (HostRecord {
                telemetry: telemetry::sampled(
                    old(self)@.telemetry,
                    RttSample { at, rtt, source: RttSource::Direct },
                ),
                last_seen: now,
                ..old(self)@
            }),
    {
        self.telemetry.add_rtt(at, rtt);
        self.last_seen = now;
    }

    /// Adds a round trip measured against a probe the whole segment was asked,
    /// which this host will report only if it produced no better sample.
    pub fn add_segment_wide_rtt(&mut self, at: Instant, rtt: Duration, now: SystemTime)
        ensures
            final(self)@ == (HostRecord {
                telemetry: telemetry::sampled(
                    old(self)@.telemetry,
                    RttSample { at, rtt, source: RttSource::SegmentWide },
                ),
                last_seen: now,
                ..old(self)@
            }),
    {
        self.telemetry.add_segment_wide_rtt(at, rtt);
        self.last_seen = now;
    }

    /// [`add_rtt`](Self::add_rtt) on a host under construction.
    pub fn with_rtt(self, at: Instant, rtt: Duration, now: SystemTime) -> (host: Self)
        ensures
            host@ == (HostRecord {
                telemetry: telemetry::sampled(
                    self@.telemetry,
                    RttSample { at, rtt, source: RttSource::Direct },
                ),
                last_seen: now,
                ..self@
            }),
    {
        let mut host = self;
        host.add_rtt(at, rtt, now);
        host
    }

    /// Records several round trips at once.
    pub fn add_rtts(&mut self, at: Instant, rtts: &[Duration], now: SystemTime)
        ensures
            final(self)@ == (HostRecord {
                telemetry: all_sampled(old(self)@.telemetry, at, rtts@, rtts@.len() as int),
                last_seen: now,
                ..old(self)@
            }),
    {
        let ghost was = self@;
        let mut i: usize = 0;
        while i < rtts.len()
            invariant
                i <= rtts@.len(),
                self@ == (HostRecord {
                    telemetry: all_sampled(was.telemetry, at, rtts@, i as int),
                    ..was
                }),
            decreases rtts@.len() - i,
        {
            self.telemetry.add_rtt(at, rtts[i]);
            i = i + 1;
        }
        self.last_seen = now;
    }

    /// Records a role for this host, and says whether it is one the record did not
    /// already carry.
    pub fn add_network_role(&mut self, role: NetworkRole, now: SystemTime) -> (is_new: bool)
        ensures
            final(self)@ == (HostRecord {
                roles: old(self)@.roles.insert(role),
                last_seen: now,
                ..old(self)@
            }),
            is_new == !old(self)@.roles.contains(role),
    {
        let is_new = self.network_roles.insert(role);
        self.last_seen = now;
        is_new
    }

    /// Records a filtering conclusion drawn about the path to this host, and says
    /// whether it is one not already held.
    pub fn add_filtering(&mut self, filtering: Filtering, now: SystemTime) -> (is_new: bool)
        ensures
            final(self)@ == (HostRecord {
                filtering: old(self)@.filtering.insert(filtering),
                last_seen: now,
                ..old(self)@
            }),
            is_new == !old(self)@.filtering.contains(filtering),
    {
        let is_new = self.filtering.insert(filtering);
        self.last_seen = now;
        is_new
    }

    /// The fastest recorded round trip.
    pub fn min_rtt(&self) -> (rtt: Option<Duration>)
        ensures
            telemetry::length_of(rtt) == telemetry::summed_up(
                self@.telemetry.history,
                |s: Seq<int>| telemetry::least(s)->0,
            ),
    {
        self.telemetry.min_rtt()
    }

    /// The slowest recorded round trip.
    pub fn max_rtt(&self) -> (rtt: Option<Duration>)
        ensures
            telemetry::length_of(rtt) == telemetry::summed_up(
                self@.telemetry.history,
                |s: Seq<int>| telemetry::greatest(s)->0,
            ),
    {
        self.telemetry.max_rtt()
    }

    /// The mean of the recorded round trips.
    pub fn average_rtt(&self) -> (rtt: Option<Duration>)
        ensures
            telemetry::length_of(rtt) == telemetry::summed_up(
                self@.telemetry.history,
                |s: Seq<int>| telemetry::mean(s),
            ),
    {
        self.telemetry.average_rtt()
    }

    /// The median of the recorded round trips, robust against outliers.
    pub fn median_rtt(&self) -> (rtt: Option<Duration>)
        ensures
            telemetry::length_of(rtt) == telemetry::summed_up(
                self@.telemetry.history,
                |s: Seq<int>| telemetry::middle(s),
            ),
    {
        self.telemetry.median_rtt()
    }

    /// The MAC most recently heard from, if any is known.
    pub fn mac(&self) -> (mac: Option<MacAddr>)
        ensures
            match self@.hardware {
                Some(hardware) => match mac {
                    Some(mac) => hardware::is_newest(hardware.macs, mac),
                    None => hardware.macs == Map::<MacAddr, SystemTime>::empty(),
                },
                None => mac is None,
            },
    {
        match &self.hardware {
            Some(hardware) => hardware.most_recent_mac(),
            None => None,
        }
    }

    /// Who made the hardware, if known.
    pub fn vendor(&self) -> (vendor: Option<&str>)
        ensures
            text::said_by(vendor) == match self@.hardware {
                Some(hardware) => hardware.vendor,
                None => None,
            },
    {
        match &self.hardware {
            Some(hardware) => hardware.vendor(),
            None => None,
        }
    }

    /// Whether this host is confirmed to be on the network, responding or filtered.
    pub fn is_alive(&self) -> (alive: bool)
        ensures
            alive == (self@.status is Up || self@.status is Filtered),
    {
        self.status.is_alive()
    }

    /// The ports, in sorted order.
    pub fn ports(&self) -> (ports: Vec<&Port>)
        ensures
            ports@.len() == self.listed_ports().len(),
            forall|i: int|
                0 <= i < ports@.len() ==> *#[trigger] ports@[i] == self.listed_ports()[i],
            ports::lists_ports(self.listed_ports(), self@.ports),
    {
        self.ports.all()
    }

    /// How many ports are recorded.
    pub fn port_count(&self) -> (count: usize)
        ensures
            count == self@.ports.dom().len(),
            count <= MAX_PORTS_PER_HOST,
    {
        self.ports.len()
    }

    /// Records a port finding, merging it with what is already known about that
    /// port. Says whether the finding was recorded.
    ///
    /// `false` means the host is at [`MAX_PORTS_PER_HOST`] and has been marked
    /// [`NetworkRole::Truncated`]. A host that crosses [`TARPIT_OPEN_PORTS`] open
    /// ports is marked [`NetworkRole::Tarpit`] and keeps recording.
    pub fn add_port(&mut self, new_port: Port, now: SystemTime) -> (recorded: bool)
        ensures
            final(self)@ == with_port(old(self)@, new_port, now),
            recorded == ports::has_room(old(self)@.ports, new_port.at()),
    {
        let recorded = self.note_port(new_port);
        if recorded {
            self.last_seen = now;
        }
        recorded
    }

    fn note_port(&mut self, port: Port) -> (recorded: bool)
        ensures
            final(self)@ == (HostRecord {
                ports: ports::noted(old(self)@.ports, port.at(), port.found()),
                roles: marked(old(self)@.ports, old(self)@.roles, port),
                ..old(self)@
            }),
            recorded == ports::has_room(old(self)@.ports, port.at()),
            final(self).os == old(self).os,
            final(self).os_evidence == old(self).os_evidence,
    {
        let (recorded, opened) = self.ports.note(port);
        if !recorded {
            self.network_roles.insert(NetworkRole::Truncated);
        } else if opened && self.ports.open_count() >= TARPIT_OPEN_PORTS {
            self.network_roles.insert(NetworkRole::Tarpit);
        }
        recorded
    }

    /// How many of this host's ports are open.
    pub fn open_port_count(&self) -> (count: usize)
        ensures
            count == ports::open_ports(self@.ports).len(),
    {
        self.ports.open_count()
    }

    /// What a record says once another record of the same host has been folded in.
    ///
    /// Everything follows the rule of the finding it is: addresses are ranked,
    /// a status and a port are promoted, what only one side knows is kept, and the
    /// times span both.
    pub open spec fn merged(here: HostRecord, other: Host) -> HostRecord {
        let there = other@;
        let (found, roles) = with_ports(
            here.ports,
            here.roles.union(there.roles),
            other.listed_ports(),
            other.listed_ports().len() as int,
        );
        HostRecord {
            primary: leading(here.primary, there.primary),
            ips: here.ips.union(there.ips),
            hostname: text::or_said(here.hostname, there.hostname),
            status: status::stronger(here.status, there.status),
            reasons: here.reasons.union(there.reasons),
            os: os_merged(here.os, other.named_os()),
            os_evidence: evidence::all_filed(
                here.os_evidence,
                other.listed_evidence(),
                other.listed_evidence().len() as int,
            ),
            hardware: hardware_merged(here.hardware, there.hardware),
            zone: if here.zone is Some {
                here.zone
            } else {
                there.zone
            },
            telemetry: telemetry::folded(here.telemetry, there.telemetry),
            path: paths_joined(here.path, there.path),
            roles,
            filtering: here.filtering.union(there.filtering),
            first_seen: time::earlier_of(here.first_seen, there.first_seen),
            last_seen: time::later_of(here.last_seen, there.last_seen),
            ports: found,
        }
    }

    /// Folds another record of this host into this one.
    ///
    /// This is how findings from separate scan stages become a single record.
    /// Status is promoted and never lowered, telemetry and OS data merge by their
    /// own rules, and the port cap still applies. The address the merged record
    /// leads with is decided by the ranking, not by which of the two happened to be
    /// `self`. A merge is not a sighting, so it moves neither time past what the two
    /// records observed.
    pub fn merge(&mut self, other: Host)
        ensures
            final(self)@ == Host::merged(old(self)@, other),
            ports::lists_ports(other.listed_ports(), other@.ports),
            evidence::lists_evidence(other.listed_evidence(), other@.os_evidence),
    {
        let ghost here = self@;
        proof {
            use_type_invariant(&other.addresses);
        }
        let listed_evidence = other.os_evidence.all();
        let listed_ports = other.ports.all();
        self.first_seen = self.first_seen.or_earlier(other.first_seen);
        self.last_seen = self.last_seen.or_later(other.last_seen);
        self.addresses.absorb(&other.addresses.all);
        self.addresses.consider(other.addresses.primary);
        assert(here.ips.union(other@.ips).insert(other@.primary) =~= here.ips.union(other@.ips));
        self.status = self.status.or_stronger(other.status);
        self.reasons.absorb(&other.reasons);
        self.os_evidence.merge(&other.os_evidence);
        self.merge_path(&other.path);
        self.network_roles.absorb(&other.network_roles);
        self.filtering.absorb(&other.filtering);
        self.merge_ports(&other.ports);
        let Host { hostname, os, hardware, zone, telemetry, .. } = other;
        self.telemetry.merge(telemetry);
        if self.hostname.is_none() {
            self.hostname = hostname;
        }
        if self.zone.is_none() {
            self.zone = zone;
        }
        self.merge_os(os);
        self.merge_hardware(hardware);
    }

    fn merge_os(&mut self, other: Option<OsFingerprint>)
        ensures
            final(self)@ == (HostRecord { os: os_merged(old(self)@.os, other), ..old(self)@ }),
    {
        let mut known: Option<OsFingerprint> = None;
        std::mem::swap(&mut known, &mut self.os);
        self.os = match known {
            Some(known) => {
                let mut known = known;
                if let Some(other) = other {
                    known.merge(other);
                }
                Some(known)
            },
            None => other,
        };
    }

    fn merge_hardware(&mut self, other: Option<HardwareInfo>)
        ensures
            final(self)@ == (HostRecord {
                hardware: hardware_merged(old(self)@.hardware, hardware_said(other)),
                ..old(self)@
            }),
            final(self).os == old(self).os,
    {
        let mut known: Option<HardwareInfo> = None;
        std::mem::swap(&mut known, &mut self.hardware);
        self.hardware = match known {
            Some(known) => {
                let mut known = known;
                if let Some(other) = other {
                    known.merge(other);
                }
                Some(known)
            },
            None => other,
        };
    }

    fn merge_path(&mut self, other: &NetworkPath)
        ensures
            final(self)@ == (HostRecord {
                path: paths_joined(old(self)@.path, other@),
                ..old(self)@
            }),
            final(self).os == old(self).os,
    {
        let ghost was = *self;
        let hops = other.hops();
        let mut i: usize = 0;
        assert(was@.path =~= paths_joined(was@.path, upto(hops@, 0)));
        while i < hops.len()
            invariant
                i <= hops@.len(),
                path::lists(hops@, other@),
                self@ == (HostRecord {
                    path: paths_joined(was@.path, upto(hops@, i as int)),
                    ..was@
                }),
                self.os == was.os,
            decreases hops@.len() - i,
        {
            self.path.record(hops[i]);
            proof {
                lemma_one_hop_more(was@.path, hops@, i as int);
            }
            i = i + 1;
        }
        proof {
            lemma_upto(hops@, hops@.len() as int);
            let all = upto(hops@, hops@.len() as int);
            assert forall|distance: u8| #[trigger] all.dom().contains(distance)
                == other@.dom().contains(distance) && (all.dom().contains(distance)
                ==> all[distance] == other@[distance]) by {
                if all.dom().contains(distance) {
                    let j = choose|j: int|
                        0 <= j < hops@.len() && (#[trigger] hops@[j])@.distance == distance;
                    assert(other@[hops@[j]@.distance] == hops@[j]@);
                }
                if other@.dom().contains(distance) {
                    let j = choose|j: int|
                        0 <= j < hops@.len() && (#[trigger] hops@[j])@.distance == distance;
                    assert(all.dom().contains(hops@[j]@.distance));
                }
            }
            assert(all =~= other@);
        }
    }

    fn merge_ports(&mut self, other: &PortTable)
        ensures
            ({
                let (found, roles) = with_ports(
                    old(self)@.ports,
                    old(self)@.roles,
                    other.listed(),
                    other.listed().len() as int,
                );
                final(self)@ == (HostRecord { ports: found, roles, ..old(self)@ })
            }),
            final(self).os == old(self).os,
            final(self).os_evidence == old(self).os_evidence,
    {
        let ghost was = *self;
        let n: usize = other.len();
        let mut i: usize = 0;
        while i < n
            invariant
                n == other.listed().len(),
                i <= n,
                ({
                    let (found, roles) = with_ports(
                        was@.ports,
                        was@.roles,
                        other.listed(),
                        i as int,
                    );
                    self@ == (HostRecord { ports: found, roles, ..was@ })
                }),
                self.os == was.os,
                self.os_evidence == was.os_evidence,
            decreases n - i,
        {
            self.note_port(*other.at(i));
            i = i + 1;
        }
    }

    /// The record as one line for a reader.
    pub fn to_string(&self) -> (line: String)
        ensures
            line@ == rendered(self@),
    {
        let latency = self.telemetry.to_string();
        self.line_with(latency.as_str())
    }

    /// The record as one line for a reader, its telemetry written as `latency`.
    pub fn line_with(&self, latency: &str) -> (line: String)
        ensures
            line@ == rendered_with(self@, latency@),
    {
        let mut line: String = self.addresses.primary.to_string();
        line.append(" (");
        let status = self.status.to_string();
        line.append(status.as_str());
        line.append(")");
        if let Some(os) = &self.os {
            let os = os.to_string();
            line.append(" - ");
            line.append(os.as_str());
        }
        let (roles, any) = self.role_words();
        if any {
            line.append(" [");
            line.append(roles.as_str());
            line.append("]");
        }
        if !self.network_roles.contains(&NetworkRole::Tarpit) && !self.network_roles.contains(
            &NetworkRole::Truncated,
        ) {
            line.append(" [");
            line.append(latency);
            line.append("]");
        }
        line
    }

    /// The roles as a list for a reader, and whether there are any.
    fn role_words(&self) -> (words: (String, bool))
        ensures
            words.0@ == role::listed_words(held_of(self@.roles, 9)),
            words.1 == (held_of(self@.roles, 9).len() > 0),
    {
        let mut words: String = String::new();
        let mut any = false;
        let mut i: usize = 0;
        while i < 9
            invariant
                i <= 9,
                words@ == role::listed_words(held_of(self@.roles, i as int)),
                any == (held_of(self@.roles, i as int).len() > 0),
            decreases 9 - i,
        {
            let role = NetworkRole::ALL[i];
            let ghost before = held_of(self@.roles, i as int);
            if self.network_roles.contains(&role) {
                if any {
                    words.append(", ");
                }
                words.append(role.label());
                any = true;
                proof {
                    let after = held_of(self@.roles, i + 1);
                    assert(after =~= before.push(role));
                    assert(after.drop_last() =~= before);
                }
            }
            i = i + 1;
        }
        (words, any)
    }
}

/// The first `n` hops of a list, by distance.
spec fn upto(hops: Seq<Hop>, n: int) -> Map<u8, path::Router>
    decreases n,
{
    if n <= 0 {
        Map::empty()
    } else {
        upto(hops, n - 1).insert(hops[n - 1]@.distance, hops[n - 1]@)
    }
}

proof fn lemma_upto(hops: Seq<Hop>, n: int)
    requires
        path::ascending(hops),
        0 <= n <= hops.len(),
    ensures
        forall|distance: u8| #[trigger]
            upto(hops, n).dom().contains(distance) ==> exists|j: int|
                0 <= j < n && (#[trigger] hops[j])@.distance == distance,
        forall|j: int|
            0 <= j < n ==> upto(hops, n).dom().contains((#[trigger] hops[j])@.distance) && upto(
                hops,
                n,
            )[hops[j]@.distance] == hops[j]@,
    decreases n,
{
    if n > 0 {
        lemma_upto(hops, n - 1);
        let before = upto(hops, n - 1);
        let last = hops[n - 1];
        assert forall|distance: u8| #[trigger]
            upto(hops, n).dom().contains(distance) implies exists|j: int|
            0 <= j < n && (#[trigger] hops[j])@.distance == distance by {
            if distance == last@.distance {
                assert(hops[n - 1]@.distance == distance);
            } else {
                assert(before.dom().contains(distance));
                let j = choose|j: int|
                    0 <= j < n - 1 && (#[trigger] hops[j])@.distance == distance;
                assert(hops[j]@.distance == distance);
            }
        }
        assert forall|j: int| 0 <= j < n implies upto(hops, n).dom().contains(
            (#[trigger] hops[j])@.distance,
        ) && upto(hops, n)[hops[j]@.distance] == hops[j]@ by {
            if j < n - 1 {
                assert(hops[j]@.distance < last@.distance);
            }
        }
    }
}

/// Recording the next hop of a path takes in one distance more.
proof fn lemma_one_hop_more(here: Map<u8, path::Router>, hops: Seq<Hop>, i: int)
    requires
        path::ascending(hops),
        0 <= i < hops.len(),
    ensures
        path::recorded(paths_joined(here, upto(hops, i)), hops[i]@) == paths_joined(
            here,
            upto(hops, i + 1),
        ),
{
    lemma_upto(hops, i);
    let hop = hops[i]@;
    let before = upto(hops, i);
    assert(!before.dom().contains(hop.distance)) by {
        if before.dom().contains(hop.distance) {
            let j = choose|j: int| 0 <= j < i && (#[trigger] hops[j])@.distance == hop.distance;
            assert(hops[j]@.distance < hops[i]@.distance);
        }
    }
    assert(path::recorded(paths_joined(here, before), hop) =~= paths_joined(
        here,
        upto(hops, i + 1),
    ));
}

impl Clone for Host {
    fn clone(&self) -> (host: Self)
        ensures
            host@ == self@,
    {
        let os = match &self.os {
            Some(os) => Some(os.clone()),
            None => None,
        };
        let hardware = match &self.hardware {
            Some(hardware) => Some(hardware.clone()),
            None => None,
        };
        let zone = match &self.zone {
            Some(zone) => Some(zone.clone()),
            None => None,
        };
        Host {
            addresses: self.addresses.again(),
            hostname: text::say_again(&self.hostname),
            status: self.status,
            reasons: self.reasons.clone(),
            os,
            os_evidence: self.os_evidence.clone(),
            hardware,
            zone,
            telemetry: self.telemetry.clone(),
            path: self.path.clone(),
            network_roles: self.network_roles.clone(),
            filtering: self.filtering.clone(),
            first_seen: self.first_seen,
            last_seen: self.last_seen,
            ports: self.ports.clone(),
        }
    }
}

// ---------------------------------------------------------------------------
// What holds of every record
// ---------------------------------------------------------------------------

/// The address a host leads with once it has been heard from at the addresses of a
/// list, in their order.
pub open spec fn led_by(candidates: Seq<IpAddr>) -> IpAddr
    recommends
        candidates.len() > 0,
    decreases candidates.len(),
{
    if candidates.len() <= 1 {
        candidates[0]
    } else {
        leading(led_by(candidates.drop_last()), candidates.last())
    }
}

/// The address a host leads with is one it was heard from at, and none of those
/// identifies it better.
pub proof fn lemma_the_best_address_leads(candidates: Seq<IpAddr>)
    requires
        candidates.len() > 0,
    ensures
        candidates.contains(led_by(candidates)),
        forall|i: int|
            0 <= i < candidates.len() ==> identity_rank(led_by(candidates)) <= identity_rank(
                #[trigger] candidates[i],
            ),
    decreases candidates.len(),
{
    if candidates.len() == 1 {
        assert(candidates.contains(candidates[0]));
    } else {
        let rest = candidates.drop_last();
        lemma_the_best_address_leads(rest);
        let j = choose|j: int| 0 <= j < rest.len() && rest[j] == led_by(rest);
        assert(candidates[j] == led_by(rest));
        assert(candidates.contains(candidates.last()));
        assert forall|i: int| 0 <= i < candidates.len() implies identity_rank(led_by(candidates))
            <= identity_rank(#[trigger] candidates[i]) by {
            if i < rest.len() {
                assert(rest[i] == candidates[i]);
            }
        }
    }
}

/// The address a host is reported under does not depend on which reply arrived
/// first: heard from at the same addresses in any two orders, it leads with the same
/// one, wherever one of them identifies it better than every other.
pub proof fn lemma_the_address_does_not_depend_on_reply_order(
    one: Seq<IpAddr>,
    other: Seq<IpAddr>,
    best: IpAddr,
)
    requires
        one.to_set() == other.to_set(),
        one.contains(best),
        forall|addr: IpAddr| #[trigger]
            one.contains(addr) && addr != best ==> identity_rank(best) < identity_rank(addr),
    ensures
        led_by(one) == best,
        led_by(other) == best,
{
    assert(one.to_set().contains(best));
    assert(other.to_set().contains(best));
    lemma_the_best_address_leads(one);
    lemma_the_best_address_leads(other);
    let i = choose|i: int| 0 <= i < one.len() && one[i] == best;
    let j = choose|j: int| 0 <= j < other.len() && other[j] == best;
    assert(identity_rank(led_by(one)) <= identity_rank(one[i]));
    assert(identity_rank(led_by(other)) <= identity_rank(other[j]));
    assert(other.to_set().contains(led_by(other)));
    assert(one.to_set().contains(led_by(other)));
}

/// Two records of one host are two accounts of it, and which of them is folded into
/// the other does not decide the address they lead with: the ranking does.
pub proof fn lemma_a_merge_leads_with_the_better_address(here: Host, there: Host)
    requires
        identity_rank(here@.primary) != identity_rank(there@.primary),
    ensures
        Host::merged(here@, there).primary == Host::merged(there@, here).primary,
        identity_rank(Host::merged(here@, there).primary) <= identity_rank(here@.primary),
        identity_rank(Host::merged(here@, there).primary) <= identity_rank(there@.primary),
{
}

/// The host leads with an address it has, merged or not.
pub proof fn lemma_a_merge_leads_with_an_address_it_has(here: HostRecord, other: Host)
    requires
        here.ips.contains(here.primary),
        other@.ips.contains(other@.primary),
    ensures
        Host::merged(here, other).ips.contains(Host::merged(here, other).primary),
{
}

/// A merge promotes the status and never lowers it, and gives the same one
/// whichever record is folded into the other.
pub proof fn lemma_a_merge_never_lowers_the_status(here: Host, there: Host)
    ensures
        Host::merged(here@, there).status.rank() >= here@.status.rank(),
        Host::merged(here@, there).status.rank() >= there@.status.rank(),
        Host::merged(here@, there).status == Host::merged(there@, here).status,
{
}

/// A merge keeps what only the other record learned: every address, reason, role
/// and filtering conclusion, every distance of the path, and the name, the
/// interface, the operating system, the hardware and the hop counter where this
/// record had none.
pub proof fn lemma_a_merge_keeps_what_only_the_other_record_learned(here: HostRecord, other: Host)
    ensures
        other@.ips.subset_of(Host::merged(here, other).ips),
        other@.reasons.subset_of(Host::merged(here, other).reasons),
        other@.roles.subset_of(Host::merged(here, other).roles),
        other@.filtering.subset_of(Host::merged(here, other).filtering),
        other@.path.dom().subset_of(Host::merged(here, other).path.dom()),
        here.path == Map::<u8, path::Router>::empty() ==> Host::merged(here, other).path
            == other@.path,
        here.hostname is None ==> Host::merged(here, other).hostname == other@.hostname,
        here.zone is None ==> Host::merged(here, other).zone == other@.zone,
        here.hardware is None ==> Host::merged(here, other).hardware == other@.hardware,
        here.os is None ==> Host::merged(here, other).os == match other.named_os() {
            Some(os) => Some(os@),
            None => None,
        },
        other@.telemetry.hop_counter is Some ==> Host::merged(here, other).telemetry.hop_counter
            == other@.telemetry.hop_counter,
{
    let n = other.listed_ports().len() as int;
    lemma_roles_stay(here.ports, here.roles.union(other@.roles), other.listed_ports(), n);
    if here.path == Map::<u8, path::Router>::empty() {
        assert(paths_joined(here.path, other@.path) =~= other@.path);
    }
}

/// A merge loses nothing of the record it is folded into either.
pub proof fn lemma_a_merge_keeps_what_was_on_record(here: HostRecord, other: Host, at: Endpoint)
    ensures
        here.ips.subset_of(Host::merged(here, other).ips),
        here.reasons.subset_of(Host::merged(here, other).reasons),
        here.roles.subset_of(Host::merged(here, other).roles),
        here.filtering.subset_of(Host::merged(here, other).filtering),
        here.path.dom().subset_of(Host::merged(here, other).path.dom()),
        here.hostname is Some ==> Host::merged(here, other).hostname == here.hostname,
        here.zone is Some ==> Host::merged(here, other).zone == here.zone,
        here.os is Some ==> Host::merged(here, other).os is Some,
        here.hardware is Some ==> Host::merged(here, other).hardware is Some,
        here.ports.dom().contains(at) ==> Host::merged(here, other).ports.dom().contains(at)
            && Host::merged(here, other).ports[at].rank() >= here.ports[at].rank(),
{
    let n = other.listed_ports().len() as int;
    let roles = here.roles.union(other@.roles);
    lemma_roles_stay(here.ports, roles, other.listed_ports(), n);
    lemma_ports_stay(here.ports, roles, other.listed_ports(), n, at);
}

proof fn lemma_roles_stay(
    found: ports::Findings,
    roles: Set<NetworkRole>,
    listed: Seq<Port>,
    n: int,
)
    ensures
        roles.subset_of(with_ports(found, roles, listed, n).1),
    decreases n,
{
    if n > 0 {
        lemma_roles_stay(found, roles, listed, n - 1);
    }
}

proof fn lemma_ports_stay(
    found: ports::Findings,
    roles: Set<NetworkRole>,
    listed: Seq<Port>,
    n: int,
    at: Endpoint,
)
    ensures
        found.dom().contains(at) ==> with_ports(found, roles, listed, n).0.dom().contains(at)
            && with_ports(found, roles, listed, n).0[at].rank() >= found[at].rank(),
    decreases n,
{
    if n > 0 {
        lemma_ports_stay(found, roles, listed, n - 1, at);
    }
}

/// The ports of two records are one union: an overlap is one endpoint with the
/// stronger of its states, and where the union is within the bound nothing is
/// refused and nothing marks the list as truncated.
pub proof fn lemma_a_merge_joins_the_ports(
    found: ports::Findings,
    roles: Set<NetworkRole>,
    listed: Seq<Port>,
    n: int,
    union: Set<Endpoint>,
)
    requires
        0 <= n <= listed.len(),
        found.dom().finite(),
        union.finite(),
        union.len() <= MAX_PORTS_PER_HOST,
        found.dom().subset_of(union),
        forall|i: int| 0 <= i < listed.len() ==> union.contains((#[trigger] listed[i]).at()),
    ensures
        with_ports(found, roles, listed, n).0.dom().finite(),
        with_ports(found, roles, listed, n).0.dom().subset_of(union),
        forall|i: int|
            0 <= i < n ==> with_ports(found, roles, listed, n).0.dom().contains(
                (#[trigger] listed[i]).at(),
            ) && with_ports(found, roles, listed, n).0[listed[i].at()].rank()
                >= listed[i].found().rank(),
        with_ports(found, roles, listed, n).1.contains(NetworkRole::Truncated) == roles.contains(
            NetworkRole::Truncated,
        ),
    decreases n,
{
    if n > 0 {
        lemma_a_merge_joins_the_ports(found, roles, listed, n - 1, union);
        let (before, was) = with_ports(found, roles, listed, n - 1);
        let port = listed[n - 1];
        assert(ports::has_room(before, port.at())) by {
            if !before.dom().contains(port.at()) {
                let grown = before.dom().insert(port.at());
                assert(grown.subset_of(union));
                vstd::set_lib::lemma_len_subset(grown, union);
            }
        }
        let after = ports::noted(before, port.at(), port.found());
        assert(after.dom() =~= before.dom().insert(port.at()));
        assert forall|i: int| 0 <= i < n implies after.dom().contains((#[trigger] listed[i]).at())
            && after[listed[i].at()].rank() >= listed[i].found().rank() by {
            if i < n - 1 {
                assert(before.dom().contains(listed[i].at()));
            }
        }
    }
}

/// The bound on a host's ports holds of every record a merge makes.
pub proof fn lemma_a_merge_applies_the_cap(here: HostRecord, other: Host)
    requires
        here.ports.dom().finite(),
        here.ports.dom().len() <= MAX_PORTS_PER_HOST,
    ensures
        Host::merged(here, other).ports.dom().finite(),
        Host::merged(here, other).ports.dom().len() <= MAX_PORTS_PER_HOST,
{
    lemma_ports_are_bounded(
        here.ports,
        here.roles.union(other@.roles),
        other.listed_ports(),
        other.listed_ports().len() as int,
    );
}

proof fn lemma_ports_are_bounded(
    found: ports::Findings,
    roles: Set<NetworkRole>,
    listed: Seq<Port>,
    n: int,
)
    requires
        found.dom().finite(),
        found.dom().len() <= MAX_PORTS_PER_HOST,
    ensures
        with_ports(found, roles, listed, n).0.dom().finite(),
        with_ports(found, roles, listed, n).0.dom().len() <= MAX_PORTS_PER_HOST,
    decreases n,
{
    if n > 0 {
        lemma_ports_are_bounded(found, roles, listed, n - 1);
        let before = with_ports(found, roles, listed, n - 1).0;
        let port = listed[n - 1];
        let after = ports::noted(before, port.at(), port.found());
        assert(after.dom() =~= before.dom() || after.dom() =~= before.dom().insert(port.at()));
        if before.dom().contains(port.at()) {
            assert(before.dom().insert(port.at()) =~= before.dom());
        }
    }
}

/// Whether a host that answers open on everything is called what it is.
pub open spec fn tarpits_are_marked(found: ports::Findings, roles: Set<NetworkRole>) -> bool {
    ports::open_ports(found).len() >= TARPIT_OPEN_PORTS ==> roles.contains(NetworkRole::Tarpit)
}

/// A host with as many open ports as no machine runs services on is marked as a
/// tarpit in every record, however its ports were found: a new record has none, and
/// a finding about a port keeps it so, one by one or in a merge.
pub proof fn lemma_a_tarpit_is_always_marked(
    found: ports::Findings,
    roles: Set<NetworkRole>,
    listed: Seq<Port>,
    n: int,
)
    requires
        found.dom().finite(),
        tarpits_are_marked(found, roles),
    ensures
        tarpits_are_marked(Map::empty(), Set::empty()),
        tarpits_are_marked(
            with_ports(found, roles, listed, n).0,
            with_ports(found, roles, listed, n).1,
        ),
        with_ports(found, roles, listed, n).0.dom().finite(),
    decreases n,
{
    assert(ports::open_ports(Map::empty()) =~= Set::empty());
    if n > 0 {
        lemma_a_tarpit_is_always_marked(found, roles, listed, n - 1);
        let (before, was) = with_ports(found, roles, listed, n - 1);
        let port = listed[n - 1];
        ports::lemma_the_open_count_follows_promotions(before, port.at(), port.found());
        let after = ports::noted(before, port.at(), port.found());
        assert(after.dom() =~= before.dom() || after.dom() =~= before.dom().insert(port.at()));
    }
}

/// A merge keeps the span the two records were observed over: it hears from nothing,
/// so it moves neither time beyond them.
pub proof fn lemma_a_merge_spans_both_records(here: HostRecord, other: Host)
    requires
        here.first_seen.nanos <= here.last_seen.nanos,
        other@.first_seen.nanos <= other@.last_seen.nanos,
    ensures
        ({
            let merged = Host::merged(here, other);
            &&& merged.first_seen == here.first_seen || merged.first_seen == other@.first_seen
            &&& merged.last_seen == here.last_seen || merged.last_seen == other@.last_seen
            &&& merged.first_seen.nanos <= here.first_seen.nanos <= merged.last_seen.nanos
            &&& merged.first_seen.nanos <= other@.first_seen.nanos <= merged.last_seen.nanos
            &&& merged.first_seen.nanos <= here.last_seen.nanos <= merged.last_seen.nanos
            &&& merged.first_seen.nanos <= other@.last_seen.nanos <= merged.last_seen.nanos
        }),
{
}

/// Folding one phase into another gives what a single phase would: the address, the
/// status, the router and the port that a phase of its own recorded come out of the
/// merge as though each had been recorded here.
pub proof fn lemma_folding_a_phase_in_is_recording_its_finding(
    here: HostRecord,
    phase: Host,
    address: IpAddr,
    status: HostStatus,
    hop: Hop,
    port: Port,
)
    requires
        phase@.primary == address,
        phase@.ips == Set::<IpAddr>::empty().insert(address),
        phase@.status == status::stronger(HostStatus::Unknown, status),
        phase@.path == path::recorded(Map::empty(), hop@),
        phase@.roles == Set::<NetworkRole>::empty(),
        phase.listed_ports() == seq![port],
    ensures
        Host::merged(here, phase).primary == leading(here.primary, address),
        Host::merged(here, phase).ips == here.ips.insert(address),
        Host::merged(here, phase).status == status::stronger(here.status, status),
        Host::merged(here, phase).path == path::recorded(here.path, hop@),
        Host::merged(here, phase).ports == ports::noted(here.ports, port.at(), port.found()),
        Host::merged(here, phase).roles == marked(here.ports, here.roles, port),
{
    let there = phase@;
    assert(here.ips.union(there.ips) =~= here.ips.insert(address));
    assert(here.roles.union(there.roles) =~= here.roles);
    assert(paths_joined(here.path, there.path) =~= path::recorded(here.path, hop@));
    reveal_with_fuel(with_ports, 2);
}

/// A merge invents nothing: every address, reason and filtering conclusion it
/// holds was one of either record, and so was every role but the two that say the
/// ports cannot be relied on.
pub proof fn lemma_a_merge_invents_nothing(
    here: HostRecord,
    other: Host,
    address: IpAddr,
    reason: status::Reason,
    filtering: Filtering,
    role: NetworkRole,
)
    ensures
        Host::merged(here, other).ips.contains(address) <==> here.ips.contains(address)
            || other@.ips.contains(address),
        Host::merged(here, other).reasons.contains(reason) <==> here.reasons.contains(reason)
            || other@.reasons.contains(reason),
        Host::merged(here, other).filtering.contains(filtering) <==> here.filtering.contains(
            filtering,
        ) || other@.filtering.contains(filtering),
        !(role is Tarpit) && !(role is Truncated) ==> (Host::merged(here, other).roles.contains(
            role,
        ) <==> here.roles.contains(role) || other@.roles.contains(role)),
{
    lemma_only_two_roles_are_added(
        here.ports,
        here.roles.union(other@.roles),
        other.listed_ports(),
        other.listed_ports().len() as int,
        role,
    );
}

proof fn lemma_only_two_roles_are_added(
    found: ports::Findings,
    roles: Set<NetworkRole>,
    listed: Seq<Port>,
    n: int,
    role: NetworkRole,
)
    ensures
        !(role is Tarpit) && !(role is Truncated) ==> with_ports(
            found,
            roles,
            listed,
            n,
        ).1.contains(role) == roles.contains(role),
    decreases n,
{
    if n > 0 {
        lemma_only_two_roles_are_added(found, roles, listed, n - 1, role);
    }
}

/// Where both records name an operating system or describe the hardware, the two
/// accounts are folded by the rule of what they are, and where one does its
/// account is the record's.
pub proof fn lemma_a_merge_folds_each_account_by_its_own_rule(here: HostRecord, other: Host)
    ensures
        match (here.os, other.named_os(), Host::merged(here, other).os) {
            (Some(a), Some(b), Some(both)) => both == os::merged(a, b@, b.listed_cpes()),
            (Some(a), None, Some(both)) => both == a,
            (None, Some(b), Some(both)) => both == b@,
            (None, None, None) => true,
            _ => false,
        },
        match (here.hardware, other@.hardware, Host::merged(here, other).hardware) {
            (Some(a), Some(b), Some(both)) => both == hardware::merged(a, b),
            (Some(a), None, Some(both)) => both == a,
            (None, Some(b), Some(both)) => both == b,
            (None, None, None) => true,
            _ => false,
        },
        Host::merged(here, other).telemetry == telemetry::folded(
            here.telemetry,
            other@.telemetry,
        ),
{
}

/// A merged path has, at each distance either path reaches, what recording the
/// other's router there would leave.
pub proof fn lemma_a_merged_path_is_recorded_router_by_router(
    here: Map<u8, path::Router>,
    there: Map<u8, path::Router>,
    distance: u8,
)
    requires
        forall|d: u8| #[trigger] there.dom().contains(d) ==> there[d].distance == d,
    ensures
        paths_joined(here, there).dom().contains(distance) <==> here.dom().contains(distance)
            || there.dom().contains(distance),
        there.dom().contains(distance) ==> paths_joined(here, there)[distance] == path::recorded(
            here,
            there[distance],
        )[distance],
        here.dom().contains(distance) && !there.dom().contains(distance) ==> paths_joined(
            here,
            there,
        )[distance] == here[distance],
{
}

/// An IPv4 address leads over every IPv6 one, an IPv6 address that names its host
/// from off its segment over one that does not, and of two as good the one in
/// place stays. Which do is told by the first byte: `2000::/3` and `fc00::/7`.
pub proof fn lemma_which_address_leads(
    a: addr::Ipv4Addr,
    current: addr::Ipv6Addr,
    candidate: addr::Ipv6Addr,
)
    ensures
        leading(IpAddr::V6(current), IpAddr::V4(a)) == IpAddr::V4(a),
        leading(IpAddr::V4(a), IpAddr::V6(candidate)) == IpAddr::V4(a),
        ({
            let known = current.bits / 0x1_0000_0000_0000_0000_0000_0000_0000_00;
            let offered = candidate.bits / 0x1_0000_0000_0000_0000_0000_0000_0000_00;
            leading(IpAddr::V6(current), IpAddr::V6(candidate)) == if (offered / 32 == 1 || offered
                / 2 == 126) && !(known / 32 == 1 || known / 2 == 126) {
                IpAddr::V6(candidate)
            } else {
                IpAddr::V6(current)
            }
        }),
{
}

/// A finding about a port marks the list as truncated exactly where it had no
/// place, and the host as a tarpit where it opens a port and leaves a thousand open
/// or more. It adds no other role and takes none away.
pub proof fn lemma_what_a_finding_about_a_port_marks(
    found: ports::Findings,
    roles: Set<NetworkRole>,
    port: Port,
    role: NetworkRole,
)
    ensures
        ({
            let after = ports::noted(found, port.at(), port.found());
            let refused = !found.dom().contains(port.at()) && found.dom().len() >= 65_536;
            let opened = !refused && port.found() is Open && !(found.dom().contains(port.at())
                && found[port.at()] is Open);
            marked(found, roles, port).contains(role) <==> {
                ||| roles.contains(role)
                ||| role is Truncated && refused
                ||| role is Tarpit && opened && ports::open_ports(after).len() >= 1_000
            }
        }),
{
}

/// A finding about a port touches the ports, the roles and the time the host was
/// last heard from, and nothing else; the time only where the finding had a place.
pub proof fn lemma_a_finding_about_a_port_is_a_sighting(
    record: HostRecord,
    port: Port,
    now: SystemTime,
)
    ensures
        ({
            let after = with_port(record, port, now);
            let refused = !record.ports.dom().contains(port.at()) && record.ports.dom().len()
                >= 65_536;
            &&& refused ==> after.last_seen == record.last_seen && after.ports == record.ports
            &&& !refused ==> after.last_seen == now && after.ports.dom().contains(port.at())
            &&& after == (HostRecord {
                ports: after.ports,
                roles: after.roles,
                last_seen: after.last_seen,
                ..record
            })
        }),
{
}

/// The roles of a line are those the host has, each once and in the order they are
/// declared in.
pub proof fn lemma_every_role_is_listed_in_order(roles: Set<NetworkRole>, role: NetworkRole)
    ensures
        held_of(roles, 9).contains(role) <==> roles.contains(role),
        forall|i: int, j: int|
            0 <= i < j < held_of(roles, 9).len() ==> (#[trigger] held_of(roles, 9)[i]).rank() < (
            #[trigger] held_of(roles, 9)[j]).rank(),
{
    lemma_roles_listed(roles, 9, role);
}

proof fn lemma_roles_listed(roles: Set<NetworkRole>, n: int, role: NetworkRole)
    requires
        0 <= n <= 9,
    ensures
        held_of(roles, n).contains(role) <==> roles.contains(role) && role.rank() < n,
        forall|i: int| 0 <= i < held_of(roles, n).len() ==> (#[trigger] held_of(roles, n)[i]).rank()
            < n,
        forall|i: int, j: int|
            0 <= i < j < held_of(roles, n).len() ==> (#[trigger] held_of(roles, n)[i]).rank() < (
            #[trigger] held_of(roles, n)[j]).rank(),
    decreases n,
{
    if n > 0 {
        lemma_roles_listed(roles, n - 1, role);
        let next = NetworkRole::ALL@[n - 1];
        assert(next.rank() == n - 1);
        let (before, all) = (held_of(roles, n - 1), held_of(roles, n));
        if role.rank() == n - 1 {
            assert(role == next);
        }
        if roles.contains(next) {
            assert(all == before.push(next));
            if before.contains(role) {
                let i = choose|i: int| 0 <= i < before.len() && before[i] == role;
                assert(all[i] == role);
            }
            assert(all[before.len() as int] == next);
            if all.contains(role) {
                let i = choose|i: int| 0 <= i < all.len() && all[i] == role;
                if i < before.len() {
                    assert(before[i] == role);
                }
            }
        } else {
            assert(all == before);
        }
    }
}

proof fn lemma_words_stand_in_a_list(roles: Seq<NetworkRole>, i: int)
    requires
        0 <= i < roles.len(),
    ensures
        os::stands_in(roles[i].word(), role::listed_words(roles)),
    decreases roles.len(),
{
    if roles.len() == 1 {
        lemma_whole_stands_in(roles[0].word());
    } else {
        let before = role::listed_words(roles.drop_last());
        let last = roles.last().word();
        if i == roles.len() - 1 {
            os::lemma_stands_in(before + ", "@, last, Seq::empty());
            assert(before + ", "@ + last + Seq::empty() =~= role::listed_words(roles));
        } else {
            lemma_words_stand_in_a_list(roles.drop_last(), i);
            os::lemma_stands_in(Seq::empty(), before, ", "@ + last);
            assert(Seq::empty() + before + (", "@ + last) =~= role::listed_words(roles));
            os::lemma_stands_within(roles[i].word(), before, role::listed_words(roles));
        }
    }
}

proof fn lemma_whole_stands_in(s: Seq<char>)
    ensures
        os::stands_in(s, s),
{
    assert(s =~= s.subrange(0, s.len() as int));
}

/// What stands in the front of a line stands in the line, and so does what is added
/// to it.
proof fn lemma_stands_in_front(
    part: Seq<char>,
    front: Seq<char>,
    open: Seq<char>,
    added: Seq<char>,
    shut: Seq<char>,
)
    ensures
        os::stands_in(added, front + open + added + shut),
        os::stands_in(part, front) ==> os::stands_in(part, front + open + added + shut),
        part.is_prefix_of(front) ==> part.is_prefix_of(front + open + added + shut),
{
    let line = front + open + added + shut;
    os::lemma_stands_in(front + open, added, shut);
    os::lemma_stands_in(Seq::empty(), front, open + added + shut);
    assert(Seq::empty() + front + (open + added + shut) =~= line);
    if os::stands_in(part, front) {
        os::lemma_stands_within(part, front, line);
    }
}

/// The first parts of a host's line: its address, and in brackets its status.
spec fn line_named(record: HostRecord) -> Seq<char> {
    addr::ip_text(record.primary) + " ("@ + record.status.word() + ")"@
}

/// A host's line up to its operating system.
spec fn line_with_os(record: HostRecord) -> Seq<char> {
    match record.os {
        Some(os) => line_named(record) + " - "@ + os::rendered(os),
        None => line_named(record),
    }
}

/// A host's line up to its roles.
spec fn line_with_roles(record: HostRecord) -> Seq<char> {
    let held = held_of(record.roles, 9);
    if held.len() > 0 {
        line_with_os(record) + " ["@ + role::listed_words(held) + "]"@
    } else {
        line_with_os(record)
    }
}

proof fn lemma_line_with_os(record: HostRecord)
    ensures
        addr::ip_text(record.primary).is_prefix_of(line_with_os(record)),
        os::stands_in(record.status.word(), line_with_os(record)),
        record.os matches Some(os) ==> os::stands_in(os::rendered(os), line_with_os(record)),
{
    let named = line_named(record);
    let address = addr::ip_text(record.primary);
    let word = record.status.word();
    assert(address =~= address.subrange(0, address.len() as int));
    lemma_stands_in_front(address, address, " ("@, word, ")"@);
    match record.os {
        Some(os) => {
            let rendered = os::rendered(os);
            lemma_stands_in_front(word, named, " - "@, rendered, Seq::empty());
            lemma_stands_in_front(address, named, " - "@, rendered, Seq::empty());
            assert(named + " - "@ + rendered + Seq::empty() =~= line_with_os(record));
        },
        None => {},
    }
}

proof fn lemma_line_with_roles(record: HostRecord, part: Seq<char>)
    ensures
        part.is_prefix_of(line_with_os(record)) ==> part.is_prefix_of(line_with_roles(record)),
        os::stands_in(part, line_with_os(record)) ==> os::stands_in(part, line_with_roles(record)),
        held_of(record.roles, 9).len() > 0 ==> os::stands_in(
            role::listed_words(held_of(record.roles, 9)),
            line_with_roles(record),
        ),
{
    let held = held_of(record.roles, 9);
    if held.len() > 0 {
        lemma_stands_in_front(
            part,
            line_with_os(record),
            " ["@,
            role::listed_words(held),
            "]"@,
        );
    }
}

/// A host's line leads with its address and says its status, its operating system
/// where one is known, and every role it has. It says how far away the host is,
/// unless the host is marked as one whose ports mean nothing: then the line is the
/// same however far away it is.
pub proof fn lemma_a_line_says_what_is_recorded(
    record: HostRecord,
    latency: Seq<char>,
    other: Seq<char>,
    role: NetworkRole,
)
    ensures
        addr::ip_text(record.primary).is_prefix_of(rendered_with(record, latency)),
        os::stands_in(record.status.word(), rendered_with(record, latency)),
        record.os matches Some(os) ==> os::stands_in(
            os::rendered(os),
            rendered_with(record, latency),
        ),
        record.roles.contains(role) ==> os::stands_in(
            role.word(),
            rendered_with(record, latency),
        ),
        record.roles.contains(NetworkRole::Tarpit) || record.roles.contains(NetworkRole::Truncated)
            ==> rendered_with(record, latency) == rendered_with(record, other),
        !record.roles.contains(NetworkRole::Tarpit) && !record.roles.contains(
            NetworkRole::Truncated,
        ) ==> os::stands_in(latency, rendered_with(record, latency)),
{
    let line = rendered_with(record, latency);
    let front = line_with_roles(record);
    let held = held_of(record.roles, 9);
    let address = addr::ip_text(record.primary);
    let marked = record.roles.contains(NetworkRole::Tarpit) || record.roles.contains(
        NetworkRole::Truncated,
    );
    lemma_line_with_os(record);
    lemma_line_with_roles(record, address);
    lemma_line_with_roles(record, record.status.word());
    match record.os {
        Some(os) => lemma_line_with_roles(record, os::rendered(os)),
        None => {},
    }
    if record.roles.contains(role) {
        lemma_every_role_is_listed_in_order(record.roles, role);
        let i = choose|i: int| 0 <= i < held.len() && held[i] == role;
        lemma_words_stand_in_a_list(held, i);
        os::lemma_stands_within(role.word(), role::listed_words(held), front);
    }
    if !marked {
        lemma_stands_in_front(address, front, " ["@, latency, "]"@);
        lemma_stands_in_front(record.status.word(), front, " ["@, latency, "]"@);
        lemma_stands_in_front(role.word(), front, " ["@, latency, "]"@);
        match record.os {
            Some(os) => lemma_stands_in_front(os::rendered(os), front, " ["@, latency, "]"@),
            None => {},
        }
        assert(line == front + " ["@ + latency + "]"@);
    } else {
        assert(line == front);
    }
}

} // verus!
