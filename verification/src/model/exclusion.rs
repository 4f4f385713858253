//! # Addresses a scan may not touch
//!
//! [`Exclusions`] is the one thing that makes a scan cover less than it was asked
//! to, and the only one whose failure mode is a packet somebody was told would not
//! be sent.
//!
//! The policy is enforced where targets are named, with
//! [`withhold`](Exclusions::withhold) and
//! [`withhold_targets`](Exclusions::withhold_targets), and wherever a scan learns
//! an address for itself, with [`excludes`](Exclusions::excludes).
//!
//! ## An address has two spellings
//!
//! `::ffff:192.0.2.1` is how `192.0.2.1` is written inside an IPv6 address, and a
//! dual-stack socket handed it connects over IPv4. So an excluded IPv4 address is
//! excluded in its mapped spelling too, and a range written wholly inside
//! `::ffff:0:0/96` excludes the IPv4 addresses it spells. A wider range that only
//! holds that block, such as `::/0`, leaves IPv4 alone, and takes nothing from a
//! range inside the block that it is layered with.
//!
//! ## An address names a machine
//!
//! A machine on a segment answers at several addresses. The neighbour tables tie
//! an excluded address to the hardware it answers from, and
//! [`hardware_in`](Exclusions::hardware_in), [`tied_to`](Exclusions::tied_to) and
//! [`widened`](Exclusions::widened) hold every other address at that hardware to
//! the policy as well.
//!
//! ## Zones
//!
//! Exclusion is blind to interfaces: a reply arrives as a bare address. Excluding
//! `fe80::5` excludes it on every link, and writing `fe80::5%en0` does too.

use crate::model::ip::addr::{IpAddr, Ipv4Addr, Ipv6Addr, MAPPED_FIRST, MAPPED_LAST};
use crate::model::ip::holding;
use crate::model::ip::holding::Holding;
use crate::model::ip::positions;
use crate::model::ip::range;
use crate::model::ip::range::{IpRange, Ipv4Range, Ipv6Range, RangeView};
use crate::model::ip::runs;
use crate::model::ip::set::IpSet;
use crate::model::mac::MacAddr;
use crate::model::port;
use crate::model::target;
use crate::model::target::{TargetMap, TargetSet, Unit};
use crate::ordered::OrderedSet;
use vstd::prelude::*;

verus! {

/// Whether a range covers an address as it is written.
pub open spec fn covers(r: RangeView, ip: IpAddr) -> bool {
    range::covers(r.v6, r.first, r.last, ip)
}

/// Whether a range names an address in its other spelling: an IPv4 range its
/// mapped form, and a range inside the mapped block the IPv4 address it spells.
pub open spec fn respells(r: RangeView, ip: IpAddr) -> bool {
    match ip {
        IpAddr::V4(a) => r.v6 && MAPPED_FIRST <= r.first && r.last <= MAPPED_LAST && r.first
            <= MAPPED_FIRST + a.bits <= r.last,
        IpAddr::V6(b) => !r.v6 && MAPPED_FIRST <= b.bits <= MAPPED_LAST && r.first <= b.bits
            - MAPPED_FIRST <= r.last,
    }
}

/// The addresses some ranges name in their other spelling.
pub open spec fn respelled(ranges: Seq<RangeView>) -> Set<IpAddr> {
    Set::new(
        |ip: IpAddr| exists|i: int| 0 <= i < ranges.len() && respells(#[trigger] ranges[i], ip),
    )
}

/// The mapped spelling of an IPv4 address.
pub open spec fn mapped(a: Ipv4Addr) -> IpAddr {
    IpAddr::V6(Ipv6Addr { bits: (MAPPED_FIRST + a.bits) as u128 })
}

/// The other spelling of an address, where it has one.
pub open spec fn other_spelling(ip: IpAddr) -> Option<IpAddr> {
    match ip {
        IpAddr::V4(a) => Some(mapped(a)),
        IpAddr::V6(b) => if MAPPED_FIRST <= b.bits <= MAPPED_LAST {
            Some(IpAddr::V4(Ipv4Addr { bits: (b.bits - MAPPED_FIRST) as u32 }))
        } else {
            None
        },
    }
}

/// What a policy forbids: the ranges it names, merged, and the addresses those
/// ranges named in their other spelling as they were written.
#[verifier::ext_equal]
pub struct Policy {
    pub ranges: Seq<RangeView>,
    pub twins: Set<IpAddr>,
}

impl Policy {
    /// Whether a policy is one that writing ranges comes to: its ranges are merged,
    /// what they name in the other spelling is forbidden too, and nothing is
    /// forbidden in its other spelling that is not forbidden as written.
    pub open spec fn is_sound(self) -> bool {
        &&& runs::canonical(self.ranges)
        &&& forall|ip: IpAddr| #[trigger]
            respelled(self.ranges).contains(ip) ==> self.twins.contains(ip)
        &&& forall|ip: IpAddr| #[trigger]
            self.twins.contains(ip) ==> other_spelling(ip) is Some && named(
                self.ranges,
                other_spelling(ip)->0,
            )
    }
}

/// Whether some ranges cover an address as it is written.
pub open spec fn named(ranges: Seq<RangeView>, ip: IpAddr) -> bool {
    exists|i: int| 0 <= i < ranges.len() && covers(#[trigger] ranges[i], ip)
}

/// Whether a policy excludes an address, in either spelling.
pub open spec fn excluded(policy: Policy, ip: IpAddr) -> bool {
    named(policy.ranges, ip) || policy.twins.contains(ip)
}

/// The ranges a set stores, as they were added to it or merged, IPv4 first.
pub open spec fn stored(ips: IpSet) -> Seq<RangeView> {
    holding::range_views(
        ips.v4_ranges().map(|i: int, r: Ipv4Range| IpRange::V4(r)) + ips.v6_ranges().map(
            |i: int, r: Ipv6Range| IpRange::V6(r),
        ),
    )
}

/// Whether a policy is two layered: it names what either does, and forbids the
/// other spellings that either does.
pub open spec fn is_layered(a: Policy, b: Policy, both: Policy) -> bool {
    &&& positions::is_listing(
        both.ranges,
        holding::ranges_held(a.ranges).union(holding::ranges_held(b.ranges)),
    )
    &&& both.twins == a.twins.union(b.twins)
}

/// The other spellings of some addresses.
pub open spec fn spelled_otherwise(addresses: Seq<IpAddr>) -> Set<IpAddr> {
    Set::new(
        |ip: IpAddr|
            exists|i: int|
                0 <= i < addresses.len() && other_spelling(#[trigger] addresses[i]) == Some(ip),
    )
}

/// What a policy leaves of some addresses.
pub open spec fn permitted(policy: Policy, held: Holding) -> Holding {
    held.filter(|p: (IpAddr, Option<u32>)| !excluded(policy, p.0))
}

/// The units of a scan once a policy has been applied: each keeps what is
/// permitted of it, and one left with nothing is dropped.
pub open spec fn permitted_units(policy: Policy, units: Seq<Unit>) -> Seq<Unit>
    decreases units.len(),
{
    if units.len() == 0 {
        units
    } else {
        let before = permitted_units(policy, units.drop_last());
        let left = permitted(policy, units.last().ips);
        if left == Set::<(IpAddr, Option<u32>)>::empty() {
            before
        } else {
            before.push(Unit { ips: left, ports: units.last().ports })
        }
    }
}

/// How many addresses a policy takes from some, as far as can be counted.
pub open spec fn taken(policy: Policy, held: Holding) -> int {
    range::saturated(held.len() as int) - range::saturated(permitted(policy, held).len() as int)
}

/// How many addresses a policy takes from units, counting an address once for
/// each that names it.
pub open spec fn taken_from(policy: Policy, units: Seq<Unit>) -> int
    decreases units.len(),
{
    if units.len() == 0 {
        0
    } else {
        range::saturated(
            taken_from(policy, units.drop_last()) + taken(policy, units.last().ips),
        ) as int
    }
}

/// The addresses a scan is forbidden to probe or to record.
///
/// Merged from the moment it is built. It is a distinct type from the [`IpSet`] it
/// holds so that the two cannot be confused at a call site.
#[derive(Debug, PartialEq, Eq)]
pub struct Exclusions {
    set: IpSet,
    /// The same addresses in their other spelling, enforced beside the set and
    /// never quoted, since nobody wrote it.
    twins: IpSet,
}

/// The addresses a set holds, on whatever interface.
spec fn addresses_of(held: Holding) -> Set<IpAddr> {
    Set::new(|ip: IpAddr| holding::on_any(held, ip))
}

impl View for Exclusions {
    type V = Policy;

    /// The excluded ranges, merged, IPv4 first, and their other spelling.
    closed spec fn view(&self) -> Policy {
        Policy { ranges: stored(self.set), twins: addresses_of(self.twins@) }
    }
}

impl Exclusions {
    #[verifier::type_invariant]
    spec fn is_merged(self) -> bool {
        &&& self.set.is_canonical()
        &&& positions::is_listing(stored(self.set), self.set@)
        &&& self@.is_sound()
    }

    /// A policy that forbids nothing.
    pub fn none() -> (policy: Self)
        ensures
            policy@ == (Policy { ranges: Seq::empty(), twins: Set::empty() }),
    {
        let ips = IpSet::new();
        let policy = Self::new(ips);
        proof {
            use_type_invariant(&policy);
            let empty = Seq::<RangeView>::empty();
            assert(holding::ranges_held(empty) =~= Set::empty());
            positions::lemma_listing_is_unique(policy@.ranges, empty, Set::empty());
            assert(policy@.twins =~= Set::empty());
        }
        policy
    }

    /// A policy that forbids the addresses of `ips`.
    ///
    /// The other spelling is taken from the ranges as `ips` stores them, before
    /// they are merged: one written inside the mapped block speaks for IPv4 whatever
    /// stands beside it.
    pub fn new(ips: IpSet) -> (policy: Self)
        ensures
            positions::is_listing(policy@.ranges, ips@),
            holding::ranges_held(stored(ips)) == ips@,
            policy@.twins == respelled(stored(ips)),
            policy@.is_sound(),
    {
        let twins = twins_of(&ips);
        let mut set = ips;
        set.canonicalize();
        proof {
            lemma_merged_is_listed(set);
            lemma_written_is_sound(stored(ips), stored(set), set@);
        }
        Self { set, twins }
    }

    /// Whether nothing is forbidden.
    pub fn is_empty(&self) -> (empty: bool)
        ensures
            empty == (self@.ranges.len() == 0),
            self@.is_sound(),
    {
        proof {
            use_type_invariant(self);
            self.lemma_empty();
        }
        self.set.is_empty()
    }

    proof fn lemma_empty(self)
        requires
            positions::is_listing(self@.ranges, self.set@),
        ensures
            (self.set@ == Set::<(IpAddr, Option<u32>)>::empty()) == (self@.ranges.len() == 0),
    {
        let ls = self@.ranges;
        if ls.len() > 0 {
            assert(runs::in_order(ls[0]));
            let ip = range::numbered(ls[0].v6, ls[0].first);
            assert(holding::range_held(ls[0]).contains((ip, ls[0].zone)));
            assert(holding::ranges_held(ls).contains((ip, ls[0].zone)));
        } else {
            assert(holding::ranges_held(ls) =~= Set::empty());
        }
    }

    /// Whether `ip` is forbidden, in whichever spelling, on whatever interface.
    pub fn excludes(&self, ip: &IpAddr) -> (forbidden: bool)
        ensures
            forbidden == excluded(self@, *ip),
    {
        proof {
            use_type_invariant(self);
            self.lemma_empty();
            self.lemma_excluded(*ip);
        }
        if self.set.is_empty() {
            return false;
        }
        self.set.contains(ip) || self.twins.contains(ip)
    }

    /// An address is excluded where the set or its other spelling holds it.
    proof fn lemma_excluded(self, ip: IpAddr)
        requires
            positions::is_listing(self@.ranges, self.set@),
            self@.is_sound(),
        ensures
            excluded(self@, ip) == (holding::on_any(self.set@, ip) || holding::on_any(
                self.twins@,
                ip,
            )),
            self@.ranges.len() == 0 ==> !excluded(self@, ip),
    {
        lemma_named_is_held(self@.ranges, ip);
        if self@.twins.contains(ip) {
            assert(named(self@.ranges, other_spelling(ip)->0));
        }
    }

    /// The forbidden ranges, merged, IPv4 first. The other spelling is not among
    /// them, since nobody wrote it.
    pub fn ranges(&self) -> (ranges: Vec<IpRange>)
        ensures
            holding::range_views(ranges@) == self@.ranges,
            self@.is_sound(),
    {
        let ranges = self.set.listing();
        proof {
            use_type_invariant(self);
            positions::lemma_listing_is_unique(
                holding::range_views(ranges@),
                self@.ranges,
                self.set@,
            );
        }
        ranges
    }

    /// Forbids what `other` forbids as well.
    ///
    /// Nothing either policy forbids is ever given up: layering policies can only
    /// make a scan smaller.
    pub fn extend(&mut self, other: &Exclusions)
        ensures
            is_layered(old(self)@, other@, final(self)@),
            forall|ip: IpAddr| #[trigger]
                excluded(final(self)@, ip) <==> excluded(old(self)@, ip) || excluded(other@, ip),
    {
        proof {
            use_type_invariant(&*self);
            use_type_invariant(other);
            other.lemma_empty();
        }
        let ghost (a, b) = (self@, other@);
        if other.is_empty() {
            proof {
                assert(self.set@.union(other.set@) =~= self.set@);
                assert(b.twins =~= Set::empty());
                assert(a.twins.union(b.twins) =~= a.twins);
                assert forall|ip: IpAddr| #[trigger] excluded(self@, ip) <==> excluded(a, ip)
                    || excluded(b, ip) by {
                    lemma_layers_accumulate(a, b, self@, ip);
                }
            }
            return;
        }
        let mut set = self.set.clone();
        set.absorb(&other.set);
        set.canonicalize();
        let mut twins = self.twins.clone();
        twins.absorb(&other.twins);
        twins.canonicalize();
        proof {
            lemma_merged_is_listed(set);
            let both = Policy { ranges: stored(set), twins: addresses_of(twins@) };
            lemma_addresses_joined(self.twins@, other.twins@);
            lemma_layered_is_sound(a, b, both);
            assert forall|ip: IpAddr| #[trigger] excluded(both, ip) <==> excluded(a, ip)
                || excluded(b, ip) by {
                lemma_layers_accumulate(a, b, both, ip);
            }
        }
        *self = Exclusions { set, twins };
    }

    /// The hardware addresses that `table` says answer for a forbidden address.
    ///
    /// A group address and the all-zero one are nobody's hardware.
    pub fn hardware_in(&self, table: &[(IpAddr, Option<MacAddr>)]) -> (machines: OrderedSet<
        MacAddr,
    >)
        ensures
            machines@ == hardware_of(self@, table@),
    {
        let mut machines: OrderedSet<MacAddr> = OrderedSet::new();
        let mut i: usize = 0;
        assert(machines@ =~= hardware_of(self@, table@.take(0)));
        while i < table.len()
            invariant
                i <= table@.len(),
                machines@ == hardware_of(self@, table@.take(i as int)),
            decreases table@.len() - i,
        {
            let (ip, hardware) = table[i];
            let ghost before = machines@;
            match hardware {
                Some(address) => {
                    if self.excludes(&ip) && is_hardware(&address) {
                        machines.insert(address);
                    }
                },
                None => {},
            }
            i = i + 1;
            proof {
                lemma_hardware_push(self@, table@.take(i - 1), table@[i - 1]);
                assert(table@.take(i as int) =~= table@.take(i - 1).push(table@[i - 1]));
                assert(machines@ =~= hardware_of(self@, table@.take(i as int)));
            }
        }
        assert(table@.take(i as int) =~= table@);
        machines
    }

    /// The other addresses that `table` lists at those machines, which nothing
    /// forbids yet.
    pub fn tied_to(
        &self,
        machines: &OrderedSet<MacAddr>,
        table: &[(IpAddr, Option<MacAddr>)],
    ) -> (tied: OrderedSet<IpAddr>)
        ensures
            tied@ == tied_of(self@, machines@, table@),
    {
        let mut tied: OrderedSet<IpAddr> = OrderedSet::new();
        let mut i: usize = 0;
        assert(tied@ =~= tied_of(self@, machines@, table@.take(0)));
        while i < table.len()
            invariant
                i <= table@.len(),
                tied@ == tied_of(self@, machines@, table@.take(i as int)),
            decreases table@.len() - i,
        {
            let (ip, hardware) = table[i];
            match hardware {
                Some(address) => {
                    if machines.contains(&address) && !self.excludes(&ip) {
                        tied.insert(ip);
                    }
                },
                None => {},
            }
            i = i + 1;
            proof {
                lemma_tied_push(self@, machines@, table@.take(i - 1), table@[i - 1]);
                assert(table@.take(i as int) =~= table@.take(i - 1).push(table@[i - 1]));
                assert(tied@ =~= tied_of(self@, machines@, table@.take(i as int)));
            }
        }
        assert(table@.take(i as int) =~= table@);
        tied
    }

    /// This policy, forbidding some more addresses, each in both its spellings.
    pub fn widened(&self, addresses: &[IpAddr]) -> (policy: Self)
        ensures
            positions::is_listing(
                policy@.ranges,
                holding::ranges_held(self@.ranges).union(
                    Set::new(|p: (IpAddr, Option<u32>)| addresses@.contains(p.0) && p.1 is None),
                ),
            ),
            policy@.twins == self@.twins.union(spelled_otherwise(addresses@)),
            policy@.is_sound(),
    {
        let mut more = IpSet::new();
        let mut twins = self.twins.clone();
        let mut i: usize = 0;
        proof {
            use_type_invariant(self);
            assert(self@.twins.union(spelled_otherwise(addresses@.take(0))) =~= self@.twins);
        }
        while i < addresses.len()
            invariant
                i <= addresses@.len(),
                addresses_of(twins@) == self@.twins.union(
                    spelled_otherwise(addresses@.take(i as int)),
                ),
            decreases addresses@.len() - i,
        {
            let ghost was = twins@;
            let ghost address = addresses@[i as int];
            match spell_otherwise(&addresses[i]) {
                Some(other) => {
                    twins.insert(other);
                    proof {
                        lemma_addresses_insert(was, other);
                    }
                },
                None => {},
            }
            i = i + 1;
            proof {
                assert(addresses@.take(i as int) =~= addresses@.take(i - 1).push(address));
                lemma_spelled_push(addresses@.take(i - 1), address);
                assert(addresses_of(twins@) =~= self@.twins.union(
                    spelled_otherwise(addresses@.take(i as int)),
                ));
            }
        }
        assert(addresses@.take(i as int) =~= addresses@);
        twins.canonicalize();
        let mut set = self.set.clone();
        set.extend(addresses);
        set.canonicalize();
        proof {
            lemma_merged_is_listed(set);
            let wider = Policy { ranges: stored(set), twins: addresses_of(twins@) };
            lemma_widened_is_sound(self@, addresses@, wider);
        }
        Exclusions { set, twins }
    }

    /// Takes every forbidden address out of `ips`, and says how many that was.
    pub fn withhold(&self, ips: &mut IpSet) -> (withheld: u128)
        ensures
            final(ips)@ == permitted(self@, old(ips)@),
            withheld == taken(self@, old(ips)@),
            self@.ranges.len() > 0 || old(ips).is_canonical() ==> final(ips).is_canonical(),
    {
        proof {
            use_type_invariant(self);
            self.lemma_empty();
        }
        let ghost held = ips@;
        if self.is_empty() {
            proof {
                assert forall|p: (IpAddr, Option<u32>)| #[trigger] held.contains(p) implies !excluded(
                    self@,
                    p.0,
                ) by {
                    self.lemma_excluded(p.0);
                }
                assert(permitted(self@, held) =~= held);
            }
            return 0;
        }
        let before: u128 = ips.len();
        ips.subtract(&self.set);
        ips.subtract(&self.twins);
        proof {
            assert forall|p: (IpAddr, Option<u32>)| #[trigger] ips@.contains(p) == permitted(
                self@,
                held,
            ).contains(p) by {
                self.lemma_excluded(p.0);
            }
            assert(ips@ =~= permitted(self@, held));
            vstd::set_lib::lemma_len_subset(ips@, held);
        }
        before - ips.len()
    }

    /// Takes every forbidden address out of a scan's units, drops the units left
    /// with nothing, and says how many addresses that was.
    ///
    /// The count is gross: two units naming one address each give it up.
    pub fn withhold_targets(&self, map: &mut TargetMap) -> (withheld: u128)
        ensures
            self@.ranges.len() == 0 ==> withheld == 0 && *final(map) == *old(map),
            self@.ranges.len() > 0 ==> target::units_of(final(map).units@) == permitted_units(
                self@,
                target::units_of(old(map).units@),
            ) && withheld == taken_from(self@, target::units_of(old(map).units@)),
    {
        if self.is_empty() {
            return 0;
        }
        let ghost policy = self@;
        let ghost all = target::units_of(map.units@);
        let mut units: Vec<TargetSet> = Vec::new();
        std::mem::swap(&mut units, &mut map.units);
        let mut kept: Vec<TargetSet> = Vec::new();
        let mut withheld: u128 = 0;
        let n: usize = units.len();
        let mut i: usize = 0;
        assert(all.take(0) =~= Seq::empty());
        assert(target::units_of(kept@) =~= Seq::empty());
        while i < n
            invariant
                policy == self@,
                all == target::units_of(units@),
                n == units@.len(),
                i <= n,
                target::units_of(kept@) == permitted_units(policy, all.take(i as int)),
                withheld == taken_from(policy, all.take(i as int)),
            decreases n - i,
        {
            let unit = &units[i];
            let ghost was = kept@;
            proof {
                assert(all.take(i + 1).drop_last() =~= all.take(i as int));
                assert(all.take(i + 1).last() == unit@);
            }
            let mut ips = unit.ips().clone();
            let more: u128 = self.withhold(&mut ips);
            withheld = withheld.saturating_add(more);
            if !ips.is_empty() {
                let left = TargetSet::new(ips, unit.ports().clone());
                kept.push(left);
                assert(target::units_of(kept@) =~= target::units_of(was).push(left@));
            }
            i = i + 1;
        }
        assert(all.take(i as int) =~= all);
        map.units = kept;
        withheld
    }
}

/// Whether an address is one machine's hardware: not a group address, and not the
/// all-zero one.
pub open spec fn names_hardware(address: MacAddr) -> bool {
    address@[0] % 2 == 0 && address@ != seq![0u8, 0u8, 0u8, 0u8, 0u8, 0u8]
}

/// Whether an address is one machine's hardware.
fn is_hardware(address: &MacAddr) -> (hardware: bool)
    ensures
        hardware == names_hardware(*address),
{
    let octets = address.octets();
    let zero = octets[0] == 0 && octets[1] == 0 && octets[2] == 0 && octets[3] == 0 && octets[4]
        == 0 && octets[5] == 0;
    proof {
        MacAddr::lemma_octets_decide(*address, *address);
        if zero {
            assert(address@ =~= seq![0u8, 0u8, 0u8, 0u8, 0u8, 0u8]);
        }
    }
    !address.is_multicast() && !zero
}

/// Whether a row of a neighbour table ties some hardware to a forbidden address.
pub open spec fn ties(
    policy: Policy,
    row: (IpAddr, Option<MacAddr>),
    machine: MacAddr,
) -> bool {
    row.1 == Some(machine) && excluded(policy, row.0) && names_hardware(machine)
}

/// The hardware a table ties to forbidden addresses.
pub open spec fn hardware_of(
    policy: Policy,
    table: Seq<(IpAddr, Option<MacAddr>)>,
) -> Set<MacAddr> {
    Set::new(
        |machine: MacAddr|
            exists|i: int| 0 <= i < table.len() && ties(policy, #[trigger] table[i], machine),
    )
}

/// Whether a row of a neighbour table ties a permitted address to some machines.
pub open spec fn reaches(
    policy: Policy,
    machines: Set<MacAddr>,
    row: (IpAddr, Option<MacAddr>),
) -> bool {
    !excluded(policy, row.0) && match row.1 {
        Some(machine) => machines.contains(machine),
        None => false,
    }
}

/// The permitted addresses a table lists at some machines.
pub open spec fn tied_of(
    policy: Policy,
    machines: Set<MacAddr>,
    table: Seq<(IpAddr, Option<MacAddr>)>,
) -> Set<IpAddr> {
    Set::new(
        |ip: IpAddr|
            exists|i: int|
                0 <= i < table.len() && (#[trigger] table[i]).0 == ip && reaches(
                    policy,
                    machines,
                    table[i],
                ),
    )
}

proof fn lemma_hardware_push(
    policy: Policy,
    table: Seq<(IpAddr, Option<MacAddr>)>,
    row: (IpAddr, Option<MacAddr>),
)
    ensures
        forall|machine: MacAddr| #[trigger]
            hardware_of(policy, table.push(row)).contains(machine) <==> hardware_of(
                policy,
                table,
            ).contains(machine) || ties(policy, row, machine),
{
    let all = table.push(row);
    assert forall|machine: MacAddr| #[trigger] hardware_of(policy, all).contains(machine)
        <==> hardware_of(policy, table).contains(machine) || ties(policy, row, machine) by {
        if hardware_of(policy, all).contains(machine) {
            let i = choose|i: int|
                0 <= i < all.len() && ties(policy, #[trigger] all[i], machine);
            if i < table.len() {
                assert(ties(policy, table[i], machine));
            }
        }
        if hardware_of(policy, table).contains(machine) {
            let i = choose|i: int|
                0 <= i < table.len() && ties(policy, #[trigger] table[i], machine);
            assert(ties(policy, all[i], machine));
        }
        assert(all[table.len() as int] == row);
    }
}

proof fn lemma_tied_push(
    policy: Policy,
    machines: Set<MacAddr>,
    table: Seq<(IpAddr, Option<MacAddr>)>,
    row: (IpAddr, Option<MacAddr>),
)
    ensures
        forall|ip: IpAddr| #[trigger]
            tied_of(policy, machines, table.push(row)).contains(ip) <==> tied_of(
                policy,
                machines,
                table,
            ).contains(ip) || (row.0 == ip && reaches(policy, machines, row)),
{
    let all = table.push(row);
    assert forall|ip: IpAddr| #[trigger] tied_of(policy, machines, all).contains(ip) <==> tied_of(
        policy,
        machines,
        table,
    ).contains(ip) || (row.0 == ip && reaches(policy, machines, row)) by {
        if tied_of(policy, machines, all).contains(ip) {
            let i = choose|i: int|
                0 <= i < all.len() && (#[trigger] all[i]).0 == ip && reaches(
                    policy,
                    machines,
                    all[i],
                );
            if i < table.len() {
                assert(table[i].0 == ip);
            }
        }
        if tied_of(policy, machines, table).contains(ip) {
            let i = choose|i: int|
                0 <= i < table.len() && (#[trigger] table[i]).0 == ip && reaches(
                    policy,
                    machines,
                    table[i],
                );
            assert(all[i].0 == ip);
        }
        assert(all[table.len() as int] == row);
    }
}

/// The other spelling of an address, where it has one.
fn spell_otherwise(ip: &IpAddr) -> (other: Option<IpAddr>)
    ensures
        other == other_spelling(*ip),
{
    match *ip {
        IpAddr::V4(a) => Some(IpAddr::V6(Ipv6Addr { bits: MAPPED_FIRST + a.bits as u128 })),
        IpAddr::V6(b) => if MAPPED_FIRST <= b.bits && b.bits <= MAPPED_LAST {
            Some(IpAddr::V4(Ipv4Addr { bits: (b.bits - MAPPED_FIRST) as u32 }))
        } else {
            None
        },
    }
}

/// The other spelling of the ranges a set stores: each IPv4 range as the mapped
/// range naming it, and each range inside the mapped block as the IPv4 range it
/// spells.
fn twins_of(set: &IpSet) -> (twins: IpSet)
    ensures
        addresses_of(twins@) == respelled(stored(*set)),
        twins.is_canonical(),
        runs::all_in_order(stored(*set)),
        holding::ranges_held(stored(*set)) == set@,
{
    let ghost ls = stored(*set);
    let (v4, v6) = (set.v4(), set.v6());
    let mut twins = IpSet::new();
    let mut i: usize = 0;
    assert(addresses_of(twins@) =~= respelled(ls.take(0)));
    while i < v4.len()
        invariant
            ls == stored(*set),
            v4@ == set.v4_ranges(),
            i <= v4@.len(),
            ls.len() == v4@.len() + set.v6_ranges().len(),
            runs::all_in_order(v4@),
            addresses_of(twins@) == respelled(ls.take(i as int)),
        decreases v4@.len() - i,
    {
        let r = v4[i];
        assert(runs::in_order(v4@[i as int]));
        assert(ls[i as int] == IpRange::V4(r)@);
        let first: u128 = MAPPED_FIRST + r.start_addr().bits as u128;
        let last: u128 = MAPPED_FIRST + r.end_addr().bits as u128;
        match Ipv6Range::new(Ipv6Addr { bits: first }, Ipv6Addr { bits: last }) {
            Ok(mapped) => {
                proof {
                    lemma_respelled_push(ls, i as int, IpRange::V6(mapped)@, twins@);
                }
                twins.push_v6_range(mapped);
            },
            Err(_) => {},
        }
        i = i + 1;
    }
    let mut j: usize = 0;
    while j < v6.len()
        invariant
            ls == stored(*set),
            v4@ == set.v4_ranges(),
            v6@ == set.v6_ranges(),
            j <= v6@.len(),
            ls.len() == v4@.len() + v6@.len(),
            runs::all_in_order(v6@),
            addresses_of(twins@) == respelled(ls.take(v4@.len() + j)),
        decreases v6@.len() - j,
    {
        let r = v6[j];
        let ghost k = v4@.len() + j;
        assert(runs::in_order(v6@[j as int]));
        assert(ls[k] == IpRange::V6(r)@);
        match r.spelled_ipv4() {
            Some(spelled) => {
                proof {
                    lemma_respelled_push(ls, k, IpRange::V4(spelled)@, twins@);
                }
                twins.push_v4_range(spelled);
            },
            None => {
                proof {
                    lemma_not_respelled(ls, k);
                }
            },
        }
        j = j + 1;
    }
    twins.canonicalize();
    proof {
        assert(ls.take(v4@.len() + j) =~= ls);
        lemma_stored_is_held(v4@, v6@, ls);
        assert forall|k: int| 0 <= k < ls.len() implies runs::in_order(#[trigger] ls[k]) by {
            if k < v4@.len() {
                assert(runs::in_order(v4@[k]));
            } else {
                assert(runs::in_order(v6@[k - v4@.len()]));
            }
        }
    }
    twins
}

/// One range more respells what its twin holds more.
proof fn lemma_respelled_push(ls: Seq<RangeView>, i: int, twin: RangeView, twins: Holding)
    requires
        0 <= i < ls.len(),
        addresses_of(twins) == respelled(ls.take(i)),
        forall|ip: IpAddr| #[trigger] covers(twin, ip) <==> respells(ls[i], ip),
    ensures
        addresses_of(twins.union(holding::range_held(twin))) == respelled(ls.take(i + 1)),
{
    let (more, less) = (ls.take(i + 1), ls.take(i));
    let all = twins.union(holding::range_held(twin));
    assert forall|ip: IpAddr| #[trigger] addresses_of(all).contains(ip) <==> respelled(
        more,
    ).contains(ip) by {
        if respelled(more).contains(ip) {
            let k = choose|k: int| 0 <= k < more.len() && respells(#[trigger] more[k], ip);
            if k < i {
                assert(respells(less[k], ip));
                assert(addresses_of(twins).contains(ip));
                let zone = choose|zone: Option<u32>| twins.contains((ip, zone));
                assert(all.contains((ip, zone)));
            } else {
                assert(covers(twin, ip));
                assert(all.contains((ip, twin.zone)));
            }
        }
        if addresses_of(all).contains(ip) {
            let zone = choose|zone: Option<u32>| all.contains((ip, zone));
            if twins.contains((ip, zone)) {
                assert(addresses_of(twins).contains(ip));
                let k = choose|k: int| 0 <= k < less.len() && respells(#[trigger] less[k], ip);
                assert(respells(more[k], ip));
            } else {
                assert(covers(twin, ip));
                assert(respells(more[i], ip));
            }
        }
    }
    assert(addresses_of(all) =~= respelled(more));
}

/// A range without another spelling adds nothing.
proof fn lemma_not_respelled(ls: Seq<RangeView>, i: int)
    requires
        0 <= i < ls.len(),
        forall|ip: IpAddr| !#[trigger] respells(ls[i], ip),
    ensures
        respelled(ls.take(i + 1)) == respelled(ls.take(i)),
{
    let (more, less) = (ls.take(i + 1), ls.take(i));
    assert forall|ip: IpAddr| #[trigger] respelled(more).contains(ip) <==> respelled(
        less,
    ).contains(ip) by {
        if respelled(more).contains(ip) {
            let k = choose|k: int| 0 <= k < more.len() && respells(#[trigger] more[k], ip);
            if k == i {
                assert(!respells(ls[i], ip));
            }
            assert(respells(less[k], ip));
        }
        if respelled(less).contains(ip) {
            let k = choose|k: int| 0 <= k < less.len() && respells(#[trigger] less[k], ip);
            assert(respells(more[k], ip));
        }
    }
    assert(respelled(more) =~= respelled(less));
}

/// The ranges of a merged set list it.
proof fn lemma_merged_is_listed(set: IpSet)
    requires
        set.is_canonical(),
    ensures
        positions::is_listing(stored(set), set@),
{
    set.lemma_holds_what_it_stores();
    let all = set.v4_ranges().map(|i: int, r: Ipv4Range| IpRange::V4(r)) + set.v6_ranges().map(
        |i: int, r: Ipv6Range| IpRange::V6(r),
    );
    positions::lemma_merged_is_a_listing(set.v4_ranges(), set.v6_ranges(), all);
}

/// Ranges name what they hold on some interface.
proof fn lemma_named_is_held(ranges: Seq<RangeView>, ip: IpAddr)
    ensures
        named(ranges, ip) <==> holding::on_any(holding::ranges_held(ranges), ip),
{
    let held = holding::ranges_held(ranges);
    if named(ranges, ip) {
        let i = choose|i: int| 0 <= i < ranges.len() && covers(#[trigger] ranges[i], ip);
        assert(holding::range_held(ranges[i]).contains((ip, ranges[i].zone)));
        assert(held.contains((ip, ranges[i].zone)));
    }
    if holding::on_any(held, ip) {
        let zone = choose|zone: Option<u32>| held.contains((ip, zone));
        let i = choose|i: int|
            0 <= i < ranges.len() && #[trigger] holding::range_held(ranges[i]).contains((ip, zone));
        assert(covers(ranges[i], ip));
    }
}

/// What a set stores holds what the set does.
proof fn lemma_stored_is_held(v4: Seq<Ipv4Range>, v6: Seq<Ipv6Range>, ls: Seq<RangeView>)
    requires
        ls == holding::range_views(
            v4.map(|i: int, r: Ipv4Range| IpRange::V4(r)) + v6.map(
                |i: int, r: Ipv6Range| IpRange::V6(r),
            ),
        ),
    ensures
        holding::ranges_held(ls) == holding::held(v4, v6),
{
    let n = v4.len() as int;
    assert forall|p: (IpAddr, Option<u32>)| #[trigger] holding::ranges_held(ls).contains(p)
        <==> holding::held(v4, v6).contains(p) by {
        if holding::ranges_held(ls).contains(p) {
            let i = choose|i: int|
                0 <= i < ls.len() && #[trigger] holding::range_held(ls[i]).contains(p);
            match p.0 {
                IpAddr::V4(a) => {
                    assert(i < n);
                    assert(runs::held_by(v4[i], (p.1, a.bits as int)));
                },
                IpAddr::V6(a) => {
                    assert(i >= n);
                    assert(runs::held_by(v6[i - n], (p.1, a.bits as int)));
                },
            }
        }
        if holding::held(v4, v6).contains(p) {
            match p.0 {
                IpAddr::V4(a) => {
                    let i = choose|i: int|
                        0 <= i < v4.len() && #[trigger] runs::held_by(v4[i], (p.1, a.bits as int));
                    assert(ls[i] == IpRange::V4(v4[i])@);
                    assert(holding::range_held(ls[i]).contains(p));
                },
                IpAddr::V6(a) => {
                    let i = choose|i: int|
                        0 <= i < v6.len() && #[trigger] runs::held_by(v6[i], (p.1, a.bits as int));
                    assert(ls[n + i] == IpRange::V6(v6[i])@);
                    assert(holding::range_held(ls[n + i]).contains(p));
                },
            }
        }
    }
    assert(holding::ranges_held(ls) =~= holding::held(v4, v6));
}

/// A range that merged ranges hold whole lies inside the one that covers any of
/// it.
proof fn lemma_lies_inside(ls: Seq<RangeView>, i: int, q: RangeView, ip: IpAddr)
    requires
        runs::canonical(ls),
        0 <= i < ls.len(),
        ls[i].zone == q.zone,
        covers(ls[i], ip),
        covers(q, ip),
        0 <= q.first,
        q.last <= if q.v6 {
            u128::MAX as int
        } else {
            u32::MAX as int
        },
        forall|p: (IpAddr, Option<u32>)| #[trigger]
            holding::range_held(q).contains(p) ==> holding::ranges_held(ls).contains(p),
    ensures
        ls[i].v6 == q.v6,
        ls[i].first <= q.first,
        q.last <= ls[i].last,
{
    let r = ls[i];
    assert(runs::in_order(r));
    if q.last > r.last {
        let next = range::numbered(q.v6, r.last + 1);
        assert(holding::range_held(q).contains((next, q.zone)));
        let j = choose|j: int|
            0 <= j < ls.len() && #[trigger] holding::range_held(ls[j]).contains((next, q.zone));
        assert(runs::in_order(ls[j]));
        assert(i < j ==> runs::clear_of(ls[i], ls[j]));
        assert(j < i ==> runs::clear_of(ls[j], ls[i]));
    }
    if q.first < r.first {
        let next = range::numbered(q.v6, r.first - 1);
        assert(holding::range_held(q).contains((next, q.zone)));
        let j = choose|j: int|
            0 <= j < ls.len() && #[trigger] holding::range_held(ls[j]).contains((next, q.zone));
        assert(runs::in_order(ls[j]));
        assert(i < j ==> runs::clear_of(ls[i], ls[j]));
        assert(j < i ==> runs::clear_of(ls[j], ls[i]));
    }
}

/// What merged ranges name in the other spelling, a range that is part of them
/// does.
proof fn lemma_respelled_by_a_part(ls: Seq<RangeView>, ip: IpAddr, parts: Seq<RangeView>)
    requires
        runs::canonical(ls),
        runs::all_in_order(parts),
        respelled(ls).contains(ip),
        forall|p: (IpAddr, Option<u32>)| #[trigger]
            holding::ranges_held(parts).contains(p) ==> holding::ranges_held(ls).contains(p),
        exists|i: int, zone: Option<u32>|
            0 <= i < ls.len() && respells(#[trigger] ls[i], ip) && zone == ls[i].zone
                && #[trigger] holding::ranges_held(parts).contains((other_spelling(ip)->0, zone)),
    ensures
        respelled(parts).contains(ip),
{
    let (i, zone) = choose|i: int, zone: Option<u32>|
        0 <= i < ls.len() && respells(#[trigger] ls[i], ip) && zone == ls[i].zone
            && #[trigger] holding::ranges_held(parts).contains((other_spelling(ip)->0, zone));
    let written = other_spelling(ip)->0;
    let k = choose|k: int|
        0 <= k < parts.len() && #[trigger] holding::range_held(parts[k]).contains((written, zone));
    let q = parts[k];
    assert(runs::in_order(q));
    assert forall|p: (IpAddr, Option<u32>)| #[trigger]
        holding::range_held(q).contains(p) implies holding::ranges_held(ls).contains(p) by {
        assert(holding::ranges_held(parts).contains(p));
    }
    assert(covers(ls[i], written));
    lemma_lies_inside(ls, i, q, written);
    assert(respells(parts[k], ip));
}

/// Merging what was written gives a sound policy.
proof fn lemma_written_is_sound(written: Seq<RangeView>, ls: Seq<RangeView>, held: Holding)
    requires
        runs::all_in_order(written),
        holding::ranges_held(written) == held,
        positions::is_listing(ls, held),
    ensures
        (Policy { ranges: ls, twins: respelled(written) }).is_sound(),
{
    assert forall|ip: IpAddr| #[trigger] respelled(ls).contains(ip) implies respelled(
        written,
    ).contains(ip) by {
        let i = choose|i: int| 0 <= i < ls.len() && respells(#[trigger] ls[i], ip);
        assert(holding::range_held(ls[i]).contains((other_spelling(ip)->0, ls[i].zone)));
        assert(holding::ranges_held(ls).contains((other_spelling(ip)->0, ls[i].zone)));
        lemma_respelled_by_a_part(ls, ip, written);
    }
    assert forall|ip: IpAddr| #[trigger] respelled(written).contains(ip) implies other_spelling(
        ip,
    ) is Some && named(ls, other_spelling(ip)->0) by {
        let i = choose|i: int| 0 <= i < written.len() && respells(#[trigger] written[i], ip);
        assert(covers(written[i], other_spelling(ip)->0));
        assert(named(written, other_spelling(ip)->0));
        lemma_named_is_held(written, other_spelling(ip)->0);
        lemma_named_is_held(ls, other_spelling(ip)->0);
    }
}

/// Layering sound policies gives a sound one.
proof fn lemma_layered_is_sound(a: Policy, b: Policy, both: Policy)
    requires
        a.is_sound(),
        b.is_sound(),
        is_layered(a, b, both),
    ensures
        both.is_sound(),
{
    let ls = both.ranges;
    let (ha, hb) = (holding::ranges_held(a.ranges), holding::ranges_held(b.ranges));
    assert forall|ip: IpAddr| #[trigger] respelled(ls).contains(ip) implies both.twins.contains(
        ip,
    ) by {
        let i = choose|i: int| 0 <= i < ls.len() && respells(#[trigger] ls[i], ip);
        let p = (other_spelling(ip)->0, ls[i].zone);
        assert(holding::range_held(ls[i]).contains(p));
        assert(holding::ranges_held(ls).contains(p));
        if ha.contains(p) {
            lemma_respelled_by_a_part(ls, ip, a.ranges);
        } else {
            assert(hb.contains(p));
            lemma_respelled_by_a_part(ls, ip, b.ranges);
        }
    }
    assert forall|ip: IpAddr| #[trigger] both.twins.contains(ip) implies other_spelling(
        ip,
    ) is Some && named(ls, other_spelling(ip)->0) by {
        let other = other_spelling(ip)->0;
        assert(a.twins.contains(ip) || b.twins.contains(ip));
        lemma_layers_name(a, b, both, other);
    }
}

/// Layered policies name what either does.
proof fn lemma_layers_name(a: Policy, b: Policy, both: Policy, ip: IpAddr)
    requires
        is_layered(a, b, both),
    ensures
        named(both.ranges, ip) <==> named(a.ranges, ip) || named(b.ranges, ip),
{
    let (ha, hb) = (holding::ranges_held(a.ranges), holding::ranges_held(b.ranges));
    lemma_named_is_held(a.ranges, ip);
    lemma_named_is_held(b.ranges, ip);
    lemma_named_is_held(both.ranges, ip);
    if holding::on_any(ha, ip) {
        let zone = choose|zone: Option<u32>| ha.contains((ip, zone));
        assert(ha.union(hb).contains((ip, zone)));
    }
    if holding::on_any(hb, ip) {
        let zone = choose|zone: Option<u32>| hb.contains((ip, zone));
        assert(ha.union(hb).contains((ip, zone)));
    }
    if holding::on_any(ha.union(hb), ip) {
        let zone = choose|zone: Option<u32>| ha.union(hb).contains((ip, zone));
        assert(ha.contains((ip, zone)) || hb.contains((ip, zone)));
    }
}

/// A sound policy that forbids some more addresses is sound.
proof fn lemma_widened_is_sound(policy: Policy, addresses: Seq<IpAddr>, wider: Policy)
    requires
        policy.is_sound(),
        positions::is_listing(
            wider.ranges,
            holding::ranges_held(policy.ranges).union(
                Set::new(|p: (IpAddr, Option<u32>)| addresses.contains(p.0) && p.1 is None),
            ),
        ),
        wider.twins == policy.twins.union(spelled_otherwise(addresses)),
    ensures
        wider.is_sound(),
{
    let ls = wider.ranges;
    let held = holding::ranges_held(policy.ranges);
    let more = Set::new(|p: (IpAddr, Option<u32>)| addresses.contains(p.0) && p.1 is None);
    assert forall|ip: IpAddr| #[trigger] respelled(ls).contains(ip) implies wider.twins.contains(
        ip,
    ) by {
        let i = choose|i: int| 0 <= i < ls.len() && respells(#[trigger] ls[i], ip);
        let p = (other_spelling(ip)->0, ls[i].zone);
        assert(holding::range_held(ls[i]).contains(p));
        assert(holding::ranges_held(ls).contains(p));
        if held.contains(p) {
            lemma_respelled_by_a_part(ls, ip, policy.ranges);
        } else {
            assert(more.contains(p));
            let k = choose|k: int| 0 <= k < addresses.len() && addresses[k] == p.0;
            assert(other_spelling(addresses[k]) == Some(ip));
        }
    }
    assert forall|ip: IpAddr| #[trigger] wider.twins.contains(ip) implies other_spelling(
        ip,
    ) is Some && named(ls, other_spelling(ip)->0) by {
        let other = other_spelling(ip)->0;
        lemma_named_is_held(ls, other);
        lemma_named_is_held(policy.ranges, other);
        if policy.twins.contains(ip) {
            let zone = choose|zone: Option<u32>| held.contains((other, zone));
            assert(held.union(more).contains((other, zone)));
        } else {
            let k = choose|k: int|
                0 <= k < addresses.len() && other_spelling(#[trigger] addresses[k]) == Some(ip);
            assert(addresses[k] == other);
            assert(addresses.contains(other));
            assert(held.union(more).contains((other, None::<u32>)));
        }
    }
}

proof fn lemma_addresses_joined(a: Holding, b: Holding)
    ensures
        addresses_of(a.union(b)) == addresses_of(a).union(addresses_of(b)),
{
    assert forall|ip: IpAddr| #[trigger] addresses_of(a.union(b)).contains(ip) <==> addresses_of(
        a,
    ).union(addresses_of(b)).contains(ip) by {
        if holding::on_any(a, ip) {
            let zone = choose|zone: Option<u32>| a.contains((ip, zone));
            assert(a.union(b).contains((ip, zone)));
        }
        if holding::on_any(b, ip) {
            let zone = choose|zone: Option<u32>| b.contains((ip, zone));
            assert(a.union(b).contains((ip, zone)));
        }
        if holding::on_any(a.union(b), ip) {
            let zone = choose|zone: Option<u32>| a.union(b).contains((ip, zone));
            assert(a.contains((ip, zone)) || b.contains((ip, zone)));
        }
    }
    assert(addresses_of(a.union(b)) =~= addresses_of(a).union(addresses_of(b)));
}

proof fn lemma_addresses_insert(held: Holding, ip: IpAddr)
    ensures
        addresses_of(held.insert((ip, None::<u32>))) == addresses_of(held).insert(ip),
{
    let more = held.insert((ip, None::<u32>));
    assert forall|other: IpAddr| #[trigger] addresses_of(more).contains(other) <==> addresses_of(
        held,
    ).insert(ip).contains(other) by {
        if holding::on_any(held, other) {
            let zone = choose|zone: Option<u32>| held.contains((other, zone));
            assert(more.contains((other, zone)));
        }
        if holding::on_any(more, other) && other != ip {
            let zone = choose|zone: Option<u32>| more.contains((other, zone));
            assert(held.contains((other, zone)));
        }
        assert(more.contains((ip, None::<u32>)));
    }
    assert(addresses_of(more) =~= addresses_of(held).insert(ip));
}

proof fn lemma_spelled_push(addresses: Seq<IpAddr>, address: IpAddr)
    ensures
        forall|ip: IpAddr| #[trigger]
            spelled_otherwise(addresses.push(address)).contains(ip) <==> spelled_otherwise(
                addresses,
            ).contains(ip) || other_spelling(address) == Some(ip),
{
    let all = addresses.push(address);
    assert forall|ip: IpAddr| #[trigger] spelled_otherwise(all).contains(ip) <==> spelled_otherwise(
        addresses,
    ).contains(ip) || other_spelling(address) == Some(ip) by {
        if spelled_otherwise(all).contains(ip) {
            let k = choose|k: int|
                0 <= k < all.len() && other_spelling(#[trigger] all[k]) == Some(ip);
            if k < addresses.len() {
                assert(addresses[k] == all[k]);
            }
        }
        if spelled_otherwise(addresses).contains(ip) {
            let k = choose|k: int|
                0 <= k < addresses.len() && other_spelling(#[trigger] addresses[k]) == Some(ip);
            assert(all[k] == addresses[k]);
        }
        assert(all[addresses.len() as int] == address);
    }
}

impl Clone for Exclusions {
    fn clone(&self) -> (policy: Self)
        ensures
            policy@ == self@,
    {
        proof {
            use_type_invariant(self);
        }
        Exclusions { set: self.set.clone(), twins: self.twins.clone() }
    }
}

impl Default for Exclusions {
    fn default() -> (policy: Self)
        ensures
            policy@ == (Policy { ranges: Seq::empty(), twins: Set::empty() }),
    {
        Self::none()
    }
}

impl From<IpSet> for Exclusions {
    fn from(ips: IpSet) -> (policy: Self)
        ensures
            positions::is_listing(policy@.ranges, ips@),
            holding::ranges_held(stored(ips)) == ips@,
            policy@.twins == respelled(stored(ips)),
            policy@.is_sound(),
    {
        Self::new(ips)
    }
}

impl vstd::std_specs::convert::FromSpecImpl<IpSet> for Exclusions {
    open spec fn obeys_from_spec() -> bool {
        false
    }

    open spec fn from_spec(ips: IpSet) -> Self {
        arbitrary()
    }
}

// ---------------------------------------------------------------------------
// What holds of every policy
// ---------------------------------------------------------------------------

/// A forbidden IPv4 address is forbidden in its mapped spelling, and whatever is
/// forbidden only in its other spelling is forbidden as written.
pub proof fn lemma_an_address_is_excluded_in_either_spelling(policy: Policy, a: Ipv4Addr)
    requires
        policy.is_sound(),
    ensures
        excluded(policy, IpAddr::V4(a)) ==> excluded(policy, mapped(a)),
        named(policy.ranges, IpAddr::V4(a)) ==> policy.twins.contains(mapped(a)),
        policy.twins.contains(IpAddr::V4(a)) ==> named(policy.ranges, mapped(a)),
{
    assert(other_spelling(IpAddr::V4(a)) == Some(mapped(a)));
    if named(policy.ranges, IpAddr::V4(a)) {
        let i = choose|i: int|
            0 <= i < policy.ranges.len() && covers(#[trigger] policy.ranges[i], IpAddr::V4(a));
        assert(respells(policy.ranges[i], mapped(a)));
        assert(respelled(policy.ranges).contains(mapped(a)));
    }
}

/// Only a range written inside the mapped block speaks for IPv4: of what was
/// written, an IPv4 address is excluded by the ranges that cover it and by those
/// inside the block that cover its mapped spelling, and by no wider one.
pub proof fn lemma_only_a_range_inside_the_block_speaks_for_ipv4(
    written: Seq<RangeView>,
    policy: Policy,
    a: Ipv4Addr,
)
    requires
        positions::is_listing(policy.ranges, holding::ranges_held(written)),
        policy.twins == respelled(written),
    ensures
        excluded(policy, IpAddr::V4(a)) <==> exists|i: int|
            0 <= i < written.len() && (covers(#[trigger] written[i], IpAddr::V4(a)) || (
            MAPPED_FIRST <= written[i].first && written[i].last <= MAPPED_LAST && covers(
                written[i],
                mapped(a),
            ))),
{
    lemma_named_is_held(written, IpAddr::V4(a));
    lemma_named_is_held(policy.ranges, IpAddr::V4(a));
    if respelled(written).contains(IpAddr::V4(a)) {
        let i = choose|i: int|
            0 <= i < written.len() && respells(#[trigger] written[i], IpAddr::V4(a));
        assert(covers(written[i], mapped(a)));
    }
    if exists|i: int|
        0 <= i < written.len() && (covers(#[trigger] written[i], IpAddr::V4(a)) || (MAPPED_FIRST
            <= written[i].first && written[i].last <= MAPPED_LAST && covers(
            written[i],
            mapped(a),
        ))) {
        let i = choose|i: int|
            0 <= i < written.len() && (covers(#[trigger] written[i], IpAddr::V4(a)) || (
            MAPPED_FIRST <= written[i].first && written[i].last <= MAPPED_LAST && covers(
                written[i],
                mapped(a),
            )));
        if !covers(written[i], IpAddr::V4(a)) {
            assert(respells(written[i], IpAddr::V4(a)));
        }
    }
}

/// Withholding leaves nothing forbidden and takes nothing else, and withholding
/// again takes nothing more.
pub proof fn lemma_withholding_takes_exactly_what_is_forbidden(policy: Policy, held: Holding)
    ensures
        forall|p: (IpAddr, Option<u32>)| #[trigger]
            permitted(policy, held).contains(p) <==> held.contains(p) && !excluded(policy, p.0),
        permitted(policy, permitted(policy, held)) == permitted(policy, held),
{
    assert(permitted(policy, permitted(policy, held)) =~= permitted(policy, held));
}

/// Every address of a policy's ranges is forbidden, on every interface: which one
/// a range or a scope was written for makes no difference.
pub proof fn lemma_a_zoned_exclusion_reaches_every_interface(
    policy: Policy,
    held: Holding,
    ip: IpAddr,
    zone: Option<u32>,
    other: Option<u32>,
)
    requires
        holding::ranges_held(policy.ranges).contains((ip, zone)),
    ensures
        excluded(policy, ip),
        !permitted(policy, held).contains((ip, other)),
{
    lemma_named_is_held(policy.ranges, ip);
}

/// Layers accumulate: the policy of both forbids what either does and nothing
/// else, so layering can only ever make a scan smaller.
pub proof fn lemma_layers_accumulate(a: Policy, b: Policy, both: Policy, ip: IpAddr)
    requires
        is_layered(a, b, both),
    ensures
        excluded(both, ip) <==> excluded(a, ip) || excluded(b, ip),
        forall|held: Holding, zone: Option<u32>| #[trigger]
            permitted(both, held).contains((ip, zone)) ==> permitted(a, held).contains((ip, zone))
                && permitted(b, held).contains((ip, zone)),
{
    lemma_layers_name(a, b, both, ip);
}

/// Whether one of some units asks an address on some ports.
pub open spec fn asks(units: Seq<Unit>, ports: port::Ports, p: (IpAddr, Option<u32>)) -> bool {
    exists|i: int|
        0 <= i < units.len() && (#[trigger] units[i]).ports == ports && units[i].ips.contains(p)
}

/// A plan under a policy asks what it asked before but for what the policy forbids,
/// each address on the ports it was to be asked on, and no unit of it is left with
/// nothing to ask.
pub proof fn lemma_a_policy_takes_only_what_it_forbids(
    policy: Policy,
    units: Seq<Unit>,
    ports: port::Ports,
    p: (IpAddr, Option<u32>),
)
    ensures
        asks(permitted_units(policy, units), ports, p) <==> asks(units, ports, p) && !excluded(
            policy,
            p.0,
        ),
        permitted_units(policy, units).len() <= units.len(),
        forall|i: int|
            0 <= i < permitted_units(policy, units).len() ==> (#[trigger] permitted_units(
                policy,
                units,
            )[i]).ips != Set::<(IpAddr, Option<u32>)>::empty(),
    decreases units.len(),
{
    let left = permitted_units(policy, units);
    if units.len() > 0 {
        let (before, last) = (units.drop_last(), units.last());
        lemma_a_policy_takes_only_what_it_forbids(policy, before, ports, p);
        let earlier = permitted_units(policy, before);
        let kept = permitted(policy, last.ips);
        lemma_withholding_takes_exactly_what_is_forbidden(policy, last.ips);
        assert(asks(units, ports, p) <==> asks(before, ports, p) || (last.ports == ports
            && last.ips.contains(p))) by {
            lemma_asks_push(before, last, ports, p);
            assert(before.push(last) =~= units);
        }
        if kept == Set::<(IpAddr, Option<u32>)>::empty() {
            assert(left == earlier);
            assert(!kept.contains(p));
        } else {
            let unit = Unit { ips: kept, ports: last.ports };
            lemma_asks_push(earlier, unit, ports, p);
            assert(left == earlier.push(unit));
        }
    }
}

proof fn lemma_asks_push(
    units: Seq<Unit>,
    unit: Unit,
    ports: port::Ports,
    p: (IpAddr, Option<u32>),
)
    ensures
        asks(units.push(unit), ports, p) <==> asks(units, ports, p) || (unit.ports == ports
            && unit.ips.contains(p)),
{
    let all = units.push(unit);
    if asks(all, ports, p) {
        let i = choose|i: int|
            0 <= i < all.len() && (#[trigger] all[i]).ports == ports && all[i].ips.contains(p);
        if i < units.len() {
            assert(units[i] == all[i]);
        }
    }
    if asks(units, ports, p) {
        let i = choose|i: int|
            0 <= i < units.len() && (#[trigger] units[i]).ports == ports && units[i].ips.contains(
                p,
            );
        assert(all[i] == units[i]);
    }
    assert(all[units.len() as int] == unit);
}

/// How many addresses a policy takes is how many of them it forbids, where they can
/// be counted.
pub proof fn lemma_what_is_taken_is_what_is_forbidden(policy: Policy, held: Holding)
    requires
        held.finite(),
        held.len() <= u128::MAX,
    ensures
        taken(policy, held) == held.filter(
            |p: (IpAddr, Option<u32>)| excluded(policy, p.0),
        ).len(),
{
    let forbidden = held.filter(|p: (IpAddr, Option<u32>)| excluded(policy, p.0));
    let kept = permitted(policy, held);
    assert(forbidden.finite() && kept.finite());
    vstd::set_lib::lemma_set_disjoint_lens(kept, forbidden);
    assert(kept + forbidden =~= held);
}

/// A neighbour table ties a permitted address to a forbidden one exactly where it
/// lists both at the same machine: one whose address is neither a group's nor all
/// zero.
pub proof fn lemma_a_table_ties_addresses_of_one_machine(
    policy: Policy,
    table: Seq<(IpAddr, Option<MacAddr>)>,
    ip: IpAddr,
)
    ensures
        tied_of(policy, hardware_of(policy, table), table).contains(ip) <==> !excluded(policy, ip)
            && exists|i: int, j: int|
            {
                &&& 0 <= i < table.len()
                &&& 0 <= j < table.len()
                &&& (#[trigger] table[i]).0 == ip
                &&& excluded(policy, (#[trigger] table[j]).0)
                &&& table[i].1 is Some
                &&& table[i].1 == table[j].1
                &&& table[i].1->0@[0] & 1 == 0
                &&& table[i].1->0@ != seq![0u8, 0, 0, 0, 0, 0]
            },
{
    let machines = hardware_of(policy, table);
    if tied_of(policy, machines, table).contains(ip) {
        let i = choose|i: int|
            0 <= i < table.len() && (#[trigger] table[i]).0 == ip && reaches(
                policy,
                machines,
                table[i],
            );
        let machine = table[i].1->0;
        assert(machines.contains(machine));
        let j = choose|j: int| 0 <= j < table.len() && ties(policy, #[trigger] table[j], machine);
        lemma_low_bit(machine@[0]);
        assert(table[i].0 == ip && excluded(policy, table[j].0));
    }
    if !excluded(policy, ip) && exists|i: int, j: int|
        {
            &&& 0 <= i < table.len()
            &&& 0 <= j < table.len()
            &&& (#[trigger] table[i]).0 == ip
            &&& excluded(policy, (#[trigger] table[j]).0)
            &&& table[i].1 is Some
            &&& table[i].1 == table[j].1
            &&& table[i].1->0@[0] & 1 == 0
            &&& table[i].1->0@ != seq![0u8, 0, 0, 0, 0, 0]
        } {
        let (i, j) = choose|i: int, j: int|
            {
                &&& 0 <= i < table.len()
                &&& 0 <= j < table.len()
                &&& (#[trigger] table[i]).0 == ip
                &&& excluded(policy, (#[trigger] table[j]).0)
                &&& table[i].1 is Some
                &&& table[i].1 == table[j].1
                &&& table[i].1->0@[0] & 1 == 0
                &&& table[i].1->0@ != seq![0u8, 0, 0, 0, 0, 0]
            };
        let machine = table[i].1->0;
        lemma_low_bit(machine@[0]);
        assert(ties(policy, table[j], machine));
        assert(machines.contains(machine));
        assert(reaches(policy, machines, table[i]));
    }
}

proof fn lemma_low_bit(octet: u8)
    by (bit_vector)
    ensures
        (octet & 1 == 0) == (octet % 2 == 0),
{
}

/// The two spellings of an IPv4 address are the two that stand for one host.
pub proof fn lemma_the_other_spelling_is_the_same_host(ip: IpAddr)
    ensures
        other_spelling(ip) matches Some(other) ==> other != ip && other.host() == ip.host()
            && other_spelling(other) == Some(ip),
        other_spelling(ip) is None <==> ip.host() is V6,
{
}

} // verus!
