//! What a scan must not touch.

use zond_engine::model::exclusion::Exclusions;
use zond_engine::model::ip::addr::{IpAddr, Ipv4Addr, Ipv6Addr};
use zond_engine::model::ip::range::{IpRange, Ipv6Range};
use zond_engine::model::ip::set::IpSet;
use zond_engine::model::mac::MacAddr;
use zond_engine::model::port::PortSet;
use zond_engine::model::target::{TargetMap, TargetSet};
use zond_engine::ordered::OrderedSet;

fn ip(written: &str) -> IpAddr {
    IpAddr::parse(written).expect("literal")
}

fn ips(spec: &str) -> IpSet {
    spec.parse().expect("a valid address expression")
}

fn v4(a: u8, b: u8, c: u8, d: u8) -> IpAddr {
    IpAddr::V4(Ipv4Addr::new(a, b, c, d))
}

/// The neighbour table ties an excluded address to a hardware address, and every
/// other address the machine holds to the same one.
#[test]
fn an_exclusion_names_the_hardware_its_address_answers_from() {
    let at = |written: &str, mac: Option<MacAddr>| (ip(written), mac);
    let machine = MacAddr::new(0x02, 0, 0, 0, 0, 0x30);
    let table = [
        at("192.0.2.30", Some(machine)),
        at("192.0.2.31", Some(MacAddr::new(0x02, 0, 0, 0, 0, 0x31))),
        at("192.0.2.32", None),
        at(
            "192.0.2.255",
            Some(MacAddr::new(0xff, 0xff, 0xff, 0xff, 0xff, 0xff)),
        ),
        at("2001:db8::30", Some(machine)),
    ];
    let mut ips = IpSet::new();
    for excluded in ["192.0.2.30", "192.0.2.32", "192.0.2.255"] {
        ips.insert(ip(excluded));
    }

    let named = Exclusions::new(ips).hardware_in(&table);
    assert_eq!(named.items(), [&machine]);
    assert!(Exclusions::none().hardware_in(&table).is_empty());
}

/// Every address the table lists at an excluded machine's hardware is tied to the
/// policy, whether or not anyone named it.
#[test]
fn the_table_ties_every_other_address_of_an_excluded_machine() {
    let at = |written: &str, mac: Option<MacAddr>| (ip(written), mac);
    let machine = MacAddr::new(0x02, 0, 0, 0, 0, 0x30);
    let table = [
        at("192.0.2.30", Some(machine)),
        at("192.0.2.40", Some(machine)),
        at("192.0.2.31", Some(MacAddr::new(0x02, 0, 0, 0, 0, 0x31))),
        at("192.0.2.32", None),
        at("2001:db8::30", Some(machine)),
    ];
    let policy = Exclusions::new(ips("192.0.2.30"));
    let machines = policy.hardware_in(&table);

    let tied: Vec<IpAddr> = policy
        .tied_to(&machines, &table)
        .items()
        .into_iter()
        .copied()
        .collect();
    assert_eq!(tied, [v4(192, 0, 2, 40), ip("2001:db8::30")]);
    assert!(policy.tied_to(&OrderedSet::new(), &table).is_empty());

    let widened = policy.widened(&tied);
    assert!(widened.excludes(&v4(192, 0, 2, 40)));
    assert!(widened.excludes(&v4(192, 0, 2, 30)));
    assert!(!widened.excludes(&v4(192, 0, 2, 31)));
}

/// The engagement case: a range excluded out of the middle of the scope.
#[test]
fn an_excluded_range_leaves_the_scope_and_stays_out_of_the_gate() {
    let policy = Exclusions::new(ips("198.51.100.64/26"));
    let mut scope = ips("198.51.100.0/24");

    assert_eq!(policy.withhold(&mut scope), 64);
    assert_eq!(scope.len(), 256 - 64);
    assert!(!scope.contains(&v4(198, 51, 100, 70)));
    assert!(scope.contains(&v4(198, 51, 100, 7)));

    assert!(policy.excludes(&v4(198, 51, 100, 70)));
    assert!(!policy.excludes(&v4(198, 51, 100, 7)));
}

/// A policy that names ground the scan was never going to walk withholds nothing,
/// and says so.
#[test]
fn a_policy_that_does_not_overlap_withholds_nothing() {
    let policy = Exclusions::new(ips("203.0.113.0/24"));
    let mut scope = ips("198.51.100.0/24");

    assert_eq!(policy.withhold(&mut scope), 0);
    assert_eq!(scope.len(), 256);
}

/// Layering unions rather than replaces, and a unit reduced to nothing is dropped.
#[test]
fn layers_accumulate_and_emptied_units_are_dropped() {
    let mut policy = Exclusions::new(ips("192.0.2.0/24"));
    policy.extend(&Exclusions::new(ips("203.0.113.0/24")));

    assert!(policy.excludes(&v4(192, 0, 2, 1)));
    assert!(policy.excludes(&v4(203, 0, 113, 1)));
    assert!(
        policy.excludes(&ip("::ffff:203.0.113.1")),
        "a layer's other spelling arrives with it"
    );

    let two_ports = || PortSet::try_from("80,443").expect("two ports");
    let mut map = TargetMap::new();
    map.add_unit(TargetSet::new(ips("192.0.2.0/24"), two_ports()));
    map.add_unit(TargetSet::new(ips("198.51.100.0/24"), two_ports()));

    let withheld = policy.withhold_targets(&mut map);

    assert_eq!(withheld, 256);
    assert_eq!(map.units.len(), 1, "the fully excluded unit is dropped");
    assert_eq!(map.gross_ips().expect("small"), 256);
}

/// An exclusion written against one interface withholds the address on every
/// interface.
#[test]
fn a_zoned_exclusion_withholds_the_address_everywhere() {
    let address: Ipv6Addr = match ip("fe80::5") {
        IpAddr::V6(address) => address,
        IpAddr::V4(_) => unreachable!("an IPv6 literal"),
    };

    let mut named_on_one_interface = IpSet::new();
    named_on_one_interface
        .push_v6_range(Ipv6Range::scoped(address, address, Some(1)).expect("start <= end"));
    let policy = Exclusions::new(named_on_one_interface);

    assert!(policy.excludes(&IpAddr::V6(address)));

    // And it comes out of a scope that named the same address on another.
    let mut scope = IpSet::new();
    scope.push_v6_range(Ipv6Range::scoped(address, address, Some(2)).expect("start <= end"));
    scope.canonicalize();

    assert_eq!(policy.withhold(&mut scope), 1);
    assert!(scope.is_empty());
}

/// A target written the mapped way is withheld from the plan by a policy naming the
/// IPv4 form, and the other way round.
#[test]
fn a_target_is_withheld_in_either_spelling() {
    let v4_policy = Exclusions::new(ips("192.0.2.0/24"));
    let mut mapped = ips("::ffff:192.0.2.1");
    assert_eq!(v4_policy.withhold(&mut mapped), 1);
    assert!(mapped.is_empty());

    let mapped_policy = Exclusions::new(ips("::ffff:192.0.2.0/120"));
    let mut plain = ips("192.0.2.1");
    assert_eq!(mapped_policy.withhold(&mut plain), 1);
    assert!(plain.is_empty());
    assert!(mapped_policy.excludes(&v4(192, 0, 2, 1)));
}

/// Only an exclusion written inside the mapped block speaks for IPv4.
#[test]
fn an_ipv6_range_that_only_contains_the_mapped_block_leaves_ipv4_alone() {
    let policy = Exclusions::new(ips("::/0"));

    let mut plain = ips("192.0.2.1");
    assert_eq!(policy.withhold(&mut plain), 0);
    assert!(!policy.excludes(&v4(192, 0, 2, 1)));
    assert!(
        policy.excludes(&ip("::ffff:192.0.2.1")),
        "the mapped spelling is inside ::/0 as written"
    );
}

/// What a report quotes as the policy is what was written.
#[test]
fn the_other_spelling_is_enforced_without_being_quoted() {
    let policy = Exclusions::new(ips("192.0.2.0/24"));
    assert_eq!(
        policy.ranges(),
        vec![IpRange::parse("192.0.2.0/24").expect("a valid range")]
    );
}

/// A machine written the other way round is still the machine.
#[test]
fn an_excluded_address_is_excluded_in_either_spelling() {
    let mut forbidden = IpSet::new();
    forbidden.insert_range(IpRange::parse("192.0.2.0/24").expect("a valid range"));
    let exclusions = Exclusions::new(forbidden);

    assert!(exclusions.excludes(&ip("192.0.2.1")));
    assert!(
        exclusions.excludes(&ip("::ffff:192.0.2.1")),
        "the mapped spelling reaches the same machine and must be refused too"
    );
    assert!(
        exclusions.excludes(&ip("::ffff:c000:201")),
        "including written in hextets, which is the same address again"
    );
}

/// And seeing through the mapping only ever widens what is excluded.
#[test]
fn seeing_through_the_mapping_refuses_nothing_it_was_not_asked_to() {
    let mut forbidden = IpSet::new();
    forbidden.insert_range(IpRange::parse("192.0.2.0/24").expect("a valid range"));
    let exclusions = Exclusions::new(forbidden);

    for allowed in ["198.51.100.1", "2001:db8::1", "::ffff:198.51.100.1", "::1"] {
        assert!(
            !exclusions.excludes(&ip(allowed)),
            "{allowed} is outside the policy and must stay outside it"
        );
    }

    // And an empty policy still excludes nothing at all.
    let none = Exclusions::none();
    assert!(!none.excludes(&ip("::ffff:192.0.2.1")));
    assert!(none.is_empty());
}

/// A layer never gives up what another forbids, though the two merge into a range
/// that would not speak for IPv4 on its own.
#[test]
fn layering_never_loses_an_exclusion() {
    for wider in ["::/0", "::fffe:0:0/96", "::1:0:0:0/80"] {
        let mut policy = Exclusions::new(ips("::ffff:192.0.2.1"));
        policy.extend(&Exclusions::new(ips(wider)));
        assert!(policy.excludes(&v4(192, 0, 2, 1)), "beside {wider}");
        assert!(policy.excludes(&ip("::ffff:192.0.2.1")));

        let mut plain = ips("192.0.2.1");
        assert_eq!(policy.withhold(&mut plain), 1);
        assert!(plain.is_empty());

        let mut other_way = Exclusions::new(ips(wider));
        other_way.extend(&Exclusions::new(ips("::ffff:192.0.2.1")));
        assert_eq!(policy, other_way);
        assert_eq!(policy.clone(), policy);
    }

    let whole = Exclusions::new(ips("::ffff:0:0/96"));
    let mut beside = whole.clone();
    beside.extend(&Exclusions::new(ips("::fffe:0:0/96")));
    assert!(beside.excludes(&v4(203, 0, 113, 9)));
    assert_eq!(beside.ranges().len(), 1, "the two are quoted as one range");
}

/// What was added to a set as a range of its own speaks for IPv4, whatever it
/// merges with.
#[test]
fn a_mapped_range_is_read_as_it_was_added() {
    let mut forbidden = IpSet::new();
    forbidden.insert_range(IpRange::parse("::/0").expect("a valid range"));
    forbidden.insert(ip("::ffff:192.0.2.1"));
    let policy = Exclusions::from(forbidden);
    assert!(policy.excludes(&v4(192, 0, 2, 1)));
    assert!(!policy.excludes(&v4(192, 0, 2, 2)));
    assert_eq!(policy.ranges(), vec![IpRange::parse("::/0").expect("a valid range")]);
}

/// An address a policy is widened by is forbidden in both its spellings.
#[test]
fn widening_forbids_both_spellings() {
    let policy = Exclusions::new(ips("::/0")).widened(&[
        ip("::ffff:192.0.2.7"),
        v4(192, 0, 2, 8),
        ip("2001:db8::1"),
    ]);
    assert!(policy.excludes(&v4(192, 0, 2, 7)));
    assert!(policy.excludes(&v4(192, 0, 2, 8)));
    assert!(policy.excludes(&ip("::ffff:192.0.2.8")));
    assert!(!policy.excludes(&v4(192, 0, 2, 9)));
}
