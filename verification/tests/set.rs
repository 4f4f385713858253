//! Sets of addresses, and the positions of what they hold.

use zond_engine::model::ip::addr::{IpAddr, Ipv4Addr, Ipv6Addr};
use zond_engine::model::ip::positions::Positions;
use zond_engine::model::ip::range::{IpRange, Ipv4Range, Ipv6Range};
use zond_engine::model::ip::runs;
use zond_engine::model::ip::set::IpSet;

const LOCALHOST_V4: IpAddr = IpAddr::V4(Ipv4Addr { bits: 0x7f00_0001 });
const LOCALHOST_V6: IpAddr = IpAddr::V6(Ipv6Addr { bits: 1 });

fn ip(written: &str) -> IpAddr {
    IpAddr::parse(written).expect("an address")
}

fn v6(written: &str) -> Ipv6Addr {
    match ip(written) {
        IpAddr::V6(addr) => addr,
        IpAddr::V4(_) => panic!("{written} is not an IPv6 address"),
    }
}

fn v4_of(bits: u32) -> IpAddr {
    IpAddr::V4(Ipv4Addr { bits })
}

fn range(written: &str) -> IpRange {
    IpRange::parse(written).expect("a range")
}

fn zoned(first: &str, last: &str, zone: u32) -> Ipv6Range {
    Ipv6Range::scoped(v6(first), v6(last), Some(zone)).expect("a range")
}

fn set(written: &str) -> IpSet {
    written.parse().expect("a valid address specification")
}

/// Two adjacent addresses stay two ranges until canonicalized, then become one, and
/// the count is right either way.
#[test]
fn adjacent_addresses_merge_when_the_set_is_canonicalized() {
    let mut set = IpSet::new();
    set.insert(IpAddr::V4(Ipv4Addr::new(1, 1, 1, 1)));
    set.insert(IpAddr::V4(Ipv4Addr::new(1, 1, 1, 2)));

    // Before canonicalization, they stay as individual pushes.
    assert_eq!(set.v4().len(), 2);
    assert_eq!(set.len(), 2);

    set.canonicalize();
    assert_eq!(set.len(), 2);
    assert_eq!(set.v4().len(), 1);
}

/// Every arrangement two ranges can be in, collapsing to the single range that
/// covers them.
#[test]
fn every_kind_of_overlap_collapses_to_one_range() {
    let mut set = IpSet::new();
    // Insert: [10-20]
    set.insert_range(range("10.0.0.10-10.0.0.20"));
    // Insert: [5-15] (overlap start)
    set.insert_range(range("10.0.0.5-10.0.0.15"));
    // Insert: [15-25] (overlap end)
    set.insert_range(range("10.0.0.15-10.0.0.25"));
    // Insert: [30-40] (disjoint)
    set.insert_range(range("10.0.0.30-10.0.0.40"));
    // Insert: [0-50] (subsume all)
    set.insert_range(range("10.0.0.0-10.0.0.50"));

    set.canonicalize();
    assert_eq!(set.len(), 51);
    assert_eq!(set.v4().len(), 1);
}

/// Two addresses at the very top of the IPv6 space still merge rather than
/// overflowing into a comparison that fails.
#[test]
fn the_top_of_the_ipv6_space_merges_without_overflowing() {
    let mut set = IpSet::new();
    let max_v6 = Ipv6Addr { bits: u128::MAX };
    let max_minus_1 = Ipv6Addr {
        bits: u128::MAX - 1,
    };

    set.insert(IpAddr::V6(max_minus_1));
    set.insert(IpAddr::V6(max_v6));

    set.canonicalize();
    assert_eq!(set.len(), 2);
    assert_eq!(set.v6().len(), 1);
}

/// Iterating is a read: it yields every address once and leaves the set in the state
/// it found it.
#[test]
fn iterating_yields_each_address_without_mutating_the_set() {
    let mut set = IpSet::new();
    set.insert(v4_of(1));
    set.insert(v4_of(2));

    set.canonicalize();
    let ips: Vec<IpAddr> = set.iter().collect();
    assert_eq!(ips.len(), 2);
    assert_eq!(set.v4().len(), 1);
}

#[test]
fn an_empty_set_canonicalizes_and_counts_as_zero() {
    let mut set = IpSet::new();
    set.canonicalize();
    assert_eq!(set.len(), 0);
    assert!(set.v4().is_empty());
    assert!(set.is_empty());
}

/// A set is merged per family, so work on one must not undo the other's canonical
/// state.
#[test]
fn extending_one_family_leaves_the_other_canonical() {
    let mut set = IpSet::from_addresses(&[
        LOCALHOST_V6,
        IpAddr::V6(Ipv6Addr { bits: 2 }),
    ]);
    assert_eq!(set.v6().len(), 1, "from_addresses canonicalizes");

    set.extend(&[LOCALHOST_V4, LOCALHOST_V4]);

    assert_eq!(set.v4().len(), 2, "the family that gained a range");
    assert_eq!(set.v6().len(), 1, "and only that one");

    // And extending with nothing does not undo a merge that already ran.
    let mut untouched = IpSet::from_addresses(&[LOCALHOST_V4]);
    untouched.extend(&[]);
    assert_eq!(untouched.v4().len(), 1);

    assert!(set.contains(&LOCALHOST_V6));
    assert!(set.contains(&LOCALHOST_V4), "the slow path is still correct");
}

/// One string naming both families, with a duplicate across two spellings that has
/// to be counted once.
#[test]
fn a_written_set_may_mix_both_families_and_still_counts_distinctly() {
    let set = set("1.1.1.1/32, 1.1.1.1, ::1-::1, 10.0.0.1-10.0.0.2");
    // 1.1.1.1 (v4) + ::1 (v6) + 10.0.0.1, 10.0.0.2 (v4)
    assert_eq!(set.len(), 4);
}

/// Insertion appends and defers the merge, so a hundred addresses are a hundred
/// ranges until `canonicalize` runs.
#[test]
fn insertion_defers_the_merge_until_it_is_asked_for() {
    let mut set = IpSet::new();
    let ips: Vec<IpAddr> = (0..100).map(v4_of).collect();
    set.extend(&ips);

    assert_eq!(set.v4().len(), 100);
    set.canonicalize();
    assert_eq!(set.v4().len(), 1);
    assert_eq!(set.len(), 100);
}

#[test]
fn a_membership_query_on_a_merged_set_answers() {
    let set = IpSet::from_addresses(&[LOCALHOST_V4]);
    assert!(set.contains(&LOCALHOST_V4));
    assert_eq!(set.len(), 1);
}

/// Two link-local ranges spanning the same numbers on two interfaces are two
/// different sets of machines.
#[test]
fn ranges_on_different_interfaces_never_merge_however_adjacent() {
    let mut split = IpSet::new();
    split.push_v6_range(zoned("fe80::1", "fe80::5", 4));
    split.push_v6_range(zoned("fe80::6", "fe80::a", 9));
    split.canonicalize();

    assert_eq!(split.v6().len(), 2, "adjacent, but on two segments");

    // The same numbers on one interface are one segment's worth of machines.
    let mut joined = IpSet::new();
    joined.push_v6_range(zoned("fe80::1", "fe80::5", 4));
    joined.push_v6_range(zoned("fe80::6", "fe80::a", 4));
    joined.canonicalize();

    assert_eq!(joined.v6().len(), 1);

    // Membership still answers across the split.
    assert!(split.contains(&ip("fe80::5")));
    assert!(split.contains(&ip("fe80::6")));
}

/// Equality is about the addresses a set holds, not about whether it has been merged
/// yet.
#[test]
fn two_sets_holding_the_same_addresses_are_equal_however_they_were_built() {
    let canonical = IpSet::try_from("10.0.0.1-10.0.0.2, ::1").expect("parses");

    let mut piecemeal = IpSet::new();
    piecemeal.insert(LOCALHOST_V6);
    piecemeal.insert(IpAddr::V4(Ipv4Addr::new(10, 0, 0, 2)));
    piecemeal.insert(IpAddr::V4(Ipv4Addr::new(10, 0, 0, 1)));

    assert_eq!(canonical, piecemeal, "same addresses, different order");
    assert_ne!(canonical, IpSet::try_from("10.0.0.1, ::1").expect("parses"));
}

/// A binary search cannot navigate an overlapping vector, and two interfaces each
/// carrying a slice of `fe80::/64` is the ordinary shape of a dual-homed segment.
#[test]
fn membership_answers_when_ranges_on_different_interfaces_overlap() {
    let mut set = IpSet::new();
    set.push_v6_range(zoned("fe80::1", "fe80::a", 4));
    set.push_v6_range(zoned("fe80::2", "fe80::3", 9));
    set.canonicalize();

    for address in ["fe80::1", "fe80::2", "fe80::3", "fe80::a"] {
        assert!(
            set.contains(&ip(address)),
            "{address} is covered by the range on interface 4"
        );
    }
    assert!(!set.contains(&ip("fe80::b")));
}

/// A position is an index into the enumeration, and the two must agree address for
/// address.
#[test]
fn a_position_is_the_index_the_set_enumerates_at() {
    let set = set("192.0.2.1-192.0.2.10,198.51.100.0/30,2001:db8::1-2001:db8::5");
    let positions = set.positions();

    assert_eq!(positions.total(), u64::try_from(set.len()).unwrap());
    assert!(positions.unnumbered().is_empty());

    for (index, ip) in set.iter().collect().into_iter().enumerate() {
        let index = index as u64;
        assert_eq!(positions.find(ip), Some(index), "{ip:?} is not at {index}");
        assert_eq!(
            positions.address_at(index),
            Some(ip),
            "{index} is not {ip:?}"
        );
    }
}

/// A `/64` holds one address more than a `u64` counts.
#[test]
fn a_range_too_large_to_number_is_kept_rather_than_dropped() {
    let positions = set("2001:db8::/64").positions();

    assert_eq!(positions.total(), 0);
    assert_eq!(positions.unnumbered().len(), 1);
}

#[test]
fn an_address_outside_the_plan_has_no_position() {
    let positions = set("192.0.2.1-192.0.2.10").positions();

    assert_eq!(positions.find(ip("192.0.2.11")), None);
    assert_eq!(positions.find(ip("198.51.100.1")), None);
    assert_eq!(
        positions.find(ip("2001:db8::1")),
        None,
        "the other family is not in the set either"
    );
    assert_eq!(positions.address_at(10), None, "past the end of the plan");
}

/// IPv4 is numbered before IPv6, which is what the enumeration does.
#[test]
fn the_families_are_numbered_in_the_order_they_are_walked() {
    let set = set("2001:db8::1,192.0.2.1");
    let positions = set.positions();

    assert_eq!(positions.find(ip("192.0.2.1")), Some(0));
    assert_eq!(positions.find(ip("2001:db8::1")), Some(1));
}

/// Narrowing a plan to what is left has to give back exactly the addresses at those
/// positions.
#[test]
fn the_addresses_in_a_span_of_positions_are_exactly_those_positions() {
    let set = set("192.0.2.1-192.0.2.10,2001:db8::1-2001:db8::4");
    let positions = set.positions();

    for (from, to) in [(0u64, 14u64), (0, 5), (3, 9), (9, 12), (13, 14), (7, 8)] {
        let mut narrowed = IpSet::new();
        for range in positions.ranges_in(from..to) {
            narrowed.insert_range(range);
        }
        narrowed.canonicalize();

        let expected: Vec<IpAddr> = set
            .iter()
            .collect()
            .into_iter()
            .skip(from as usize)
            .take((to - from) as usize)
            .collect();
        let found: Vec<IpAddr> = narrowed.iter().collect();

        assert_eq!(found, expected, "positions {from}..{to}");
    }
}

/// A span that runs past the end is clamped rather than refused, and an empty one
/// gives back nothing.
#[test]
fn a_span_outside_the_plan_yields_nothing() {
    let positions = set("192.0.2.1-192.0.2.4").positions();

    assert!(positions.ranges_in(4..99).is_empty());
    assert!(positions.ranges_in(2..2).is_empty());
    assert_eq!(positions.ranges_in(0..99).len(), 1, "clamped to the plan");
}

/// The numbering stops at a range too large for it rather than wrapping, and IPv4
/// keeps its positions.
#[test]
fn a_range_too_large_to_number_ends_the_numbering_without_losing_ipv4() {
    let set = set("192.0.2.1-192.0.2.4,2001:db8::/64,2001:db9::1");
    let positions = set.positions();

    assert_eq!(positions.total(), 4, "only the IPv4 half is numbered");
    assert_eq!(positions.find(ip("192.0.2.4")), Some(3));
    assert_eq!(
        positions.find(ip("2001:db8::1")),
        None,
        "an unnumbered address never settles, so it is asked again"
    );
    assert_eq!(
        positions.find(ip("2001:db9::1")),
        None,
        "and so is everything after it: positions have to stay contiguous"
    );
    assert_eq!(
        positions.unnumbered().len(),
        2,
        "both are kept, or a resumed sweep would never ask about them"
    );
}

/// A zoned range names one segment, and a slice of it has to keep saying so.
#[test]
fn a_slice_of_a_zoned_range_keeps_its_zone() {
    let mut set = IpSet::new();
    set.insert_range(IpRange::V6(zoned("fe80::1", "fe80::8", 7)));
    set.canonicalize();

    let sliced = set.positions().ranges_in(2..5);
    assert_eq!(sliced.len(), 1);
    match sliced[0] {
        IpRange::V6(range) => assert_eq!(range.zone(), Some(7)),
        IpRange::V4(_) => panic!("an IPv6 range came back as IPv4"),
    }
}

/// A bare address cannot say which segment it came from, so the honest answer where
/// two interfaces hold it is no position at all.
#[test]
fn an_address_two_interfaces_both_hold_has_no_position() {
    let mut both = IpSet::new();
    for zone in [5u32, 7] {
        both.insert_range(IpRange::V6(zoned("fe80::1", "fe80::4", zone)));
    }
    both.canonicalize();

    let positions = both.positions();
    assert_eq!(
        positions.total(),
        8,
        "four addresses on each of two segments"
    );
    assert_eq!(
        positions.find(ip("fe80::1")),
        None,
        "two segments hold it and the address cannot say which"
    );
}

/// One interface holding it is not ambiguous, and must still resolve.
#[test]
fn an_address_one_interface_holds_keeps_its_position() {
    let mut set = IpSet::new();
    set.insert_range(IpRange::V6(zoned("fe80::1", "fe80::4", 7)));
    set.insert_range(IpRange::V6(zoned("fe80::9", "fe80::a", 5)));
    set.canonicalize();

    let positions = set.positions();
    for (index, ip) in set.iter().collect().into_iter().enumerate() {
        assert_eq!(
            positions.find(ip),
            Some(index as u64),
            "{ip:?} is at {index} and no run but its own holds it"
        );
    }
}

/// An unmerged set enumerates differently from the canonical one every position is
/// counted in, so numbering one has to merge it first.
#[test]
fn an_unmerged_set_is_numbered_as_the_canonical_one() {
    let mut lazy = IpSet::new();
    lazy.insert(ip("192.0.2.2"));
    lazy.insert(ip("192.0.2.1"));
    lazy.insert(ip("192.0.2.2"));

    let positions = lazy.positions();
    assert_eq!(positions.total(), 2, "the duplicate is one address");
    assert_eq!(positions.find(ip("192.0.2.1")), Some(0));
    assert_eq!(positions.find(ip("192.0.2.2")), Some(1));
}

/// Builds a set from pairs of last octets of `10.0.0.0/24`.
fn v4_set(spans: &[(u8, u8)]) -> IpSet {
    let mut set = IpSet::new();
    for &(start, end) in spans {
        set.push_v4_range(
            Ipv4Range::new(Ipv4Addr::new(10, 0, 0, start), Ipv4Addr::new(10, 0, 0, end))
                .expect("start <= end"),
        );
    }
    set.canonicalize();
    set
}

/// The same shorthand, read back out.
fn v4_spans(set: &IpSet) -> Vec<(u8, u8)> {
    set.v4()
        .iter()
        .map(|r| (r.start_addr().octets()[3], r.end_addr().octets()[3]))
        .collect()
}

/// Every way one cut can meet one range: through the middle, off each end,
/// swallowing it whole, and missing entirely.
#[test]
fn a_cut_takes_exactly_what_it_covers() {
    let cases: [(&[(u8, u8)], &[(u8, u8)], &[(u8, u8)]); 6] = [
        // Through the middle: one range becomes two.
        (&[(10, 20)], &[(14, 16)], &[(10, 13), (17, 20)]),
        // Off the front, off the back.
        (&[(10, 20)], &[(5, 12)], &[(13, 20)]),
        (&[(10, 20)], &[(18, 25)], &[(10, 17)]),
        // Swallowed whole, and exactly.
        (&[(10, 20)], &[(5, 25)], &[]),
        (&[(10, 20)], &[(10, 20)], &[]),
        // Adjacent but not overlapping, which must remove nothing.
        (&[(10, 20)], &[(21, 30)], &[(10, 20)]),
    ];

    for (target, cut, expected) in cases {
        let mut set = v4_set(target);
        set.subtract(&v4_set(cut));
        assert_eq!(v4_spans(&set), expected, "{target:?} minus {cut:?}");
    }
}

/// One cut spanning several ranges, and several cuts inside one range.
#[test]
fn the_difference_walks_both_sides_once() {
    let mut set = v4_set(&[(10, 20), (30, 40), (50, 60)]);
    set.subtract(&v4_set(&[(15, 55)]));
    assert_eq!(v4_spans(&set), vec![(10, 14), (56, 60)]);

    let mut set = v4_set(&[(10, 40)]);
    set.subtract(&v4_set(&[(12, 14), (20, 22), (30, 32)]));
    assert_eq!(v4_spans(&set), vec![(10, 11), (15, 19), (23, 29), (33, 40)]);
}

/// A range ending at the last address of its family, cut from below.
#[test]
fn a_range_ending_at_the_last_address_survives_a_cut() {
    let last_v6 = |back: u128| Ipv6Addr {
        bits: u128::MAX - back,
    };
    let mut set = IpSet::new();
    set.push_v4_range(
        Ipv4Range::new(
            Ipv4Addr::new(255, 255, 255, 250),
            Ipv4Addr::new(255, 255, 255, 255),
        )
        .expect("start <= end"),
    );
    set.push_v6_range(Ipv6Range::new(last_v6(5), last_v6(0)).expect("start <= end"));
    set.canonicalize();

    let mut cuts = IpSet::new();
    cuts.insert(IpAddr::V4(Ipv4Addr::new(255, 255, 255, 252)));
    cuts.insert(IpAddr::V6(last_v6(2)));

    set.subtract(&cuts);

    assert!(!set.contains(&IpAddr::V4(Ipv4Addr::new(255, 255, 255, 252))));
    assert!(set.contains(&IpAddr::V4(Ipv4Addr::new(255, 255, 255, 255))));
    assert!(!set.contains(&IpAddr::V6(last_v6(2))));
    assert!(set.contains(&IpAddr::V6(last_v6(0))));
}

/// A subtraction cuts an address out of every interface it appears on, and leaves
/// the zones of what survives intact.
#[test]
fn subtracting_a_link_local_address_clears_it_from_every_interface() {
    let mut set = IpSet::new();
    for zone in [1u32, 2u32] {
        set.push_v6_range(zoned("fe80::a", "fe80::14", zone));
    }
    set.canonicalize();

    // Named on one interface only, and still removed from both.
    let mut cuts = IpSet::new();
    cuts.push_v6_range(zoned("fe80::f", "fe80::f", 1));
    cuts.canonicalize();

    set.subtract(&cuts);

    assert!(!set.contains(&ip("fe80::f")));
    assert_eq!(set.len(), 20);
    assert_eq!(
        set.v6().iter().filter(|r| r.zone().is_none()).count(),
        0,
        "every surviving piece keeps the interface of the range it came from"
    );
}

/// An address survives a difference exactly when it was there and was not cut.
#[test]
fn a_difference_keeps_exactly_what_was_not_cut() {
    let target = [(0, 7), (5, 19), (40, 40), (63, 64)];
    let cuts = [(3, 4), (10, 45), (64, 64)];
    let before = v4_set(&target);
    let cut_set = v4_set(&cuts);
    let mut after = before.clone();
    after.subtract(&cut_set);
    for probe in 0..=65u8 {
        let ip = IpAddr::V4(Ipv4Addr::new(10, 0, 0, probe));
        assert_eq!(
            after.contains(&ip),
            before.contains(&ip) && !cut_set.contains(&ip),
            "{probe}"
        );
    }
    let mut again = after.clone();
    again.canonicalize();
    assert_eq!(after.v4(), again.v4());
}

/// The order addresses arrive in does not decide what a set holds.
#[test]
fn a_set_does_not_depend_on_the_order_it_was_filled_in() {
    let all = [ip("10.0.0.3"), ip("::5"), ip("10.0.0.1"), ip("::4"), ip("10.0.0.2")];
    let mut backwards = all;
    backwards.reverse();
    assert_eq!(IpSet::from_addresses(&all), IpSet::from_addresses(&backwards));
    assert_eq!(IpSet::from_addresses(&all).v4_len(), 3);
    assert_eq!(IpSet::from_addresses(&all).v6_len(), 2);
}

/// The gross count takes each range at its word; the count does not.
#[test]
fn the_gross_count_counts_an_overlap_twice() {
    let mut set = IpSet::new();
    set.insert_range(range("10.0.0.0/30"));
    set.insert_range(range("10.0.0.2-10.0.0.5"));
    assert_eq!(set.len_gross(), 8);
    assert_eq!(set.len(), 6);
    assert_eq!(set.merged().v4().len(), 1);
}

#[test]
fn a_written_set_names_what_it_could_not_read() {
    let refused = IpSet::try_from("10.0.0.1, 10.0.0.0/40").unwrap_err();
    assert_eq!(
        refused.to_string(),
        "Invalid target in set: Invalid CIDR prefix: 40"
    );
}

#[test]
fn sets_come_from_ranges_and_from_other_sets() {
    let from_ranges = IpSet::from_ranges(&[range("10.0.0.0/31"), range("10.0.0.2")]);
    let from_sets = IpSet::from_sets(&[set("10.0.0.2"), set("10.0.0.0-10.0.0.1")]);
    assert_eq!(from_ranges, from_sets);
    assert_eq!(IpSet::from(range("10.0.0.0/30")).len(), 4);
    assert_eq!(IpSet::from(ip("10.0.0.1")).len(), 1);
    let mut both = set("10.0.0.0/31");
    both.absorb(&set("10.0.0.2"));
    assert_eq!(both, from_sets);
    assert_eq!(
        both.listing()
            .iter()
            .map(|r| r.start_addr().to_string())
            .collect::<Vec<_>>(),
        ["10.0.0.0"]
    );
}

/// A set is canonical once something was subtracted from it, even nothing at all.
#[test]
fn subtracting_nothing_leaves_a_set_merged() {
    let mut set = IpSet::new();
    set.insert(IpAddr::parse("192.0.2.2").expect("an address"));
    set.insert(IpAddr::parse("192.0.2.1").expect("an address"));
    assert_eq!(set.v4().len(), 2);
    set.subtract(&IpSet::new());
    assert_eq!(set.v4().len(), 1);
    assert_eq!(set.len(), 2);
}

/// Positions can be copied, and there are none of no addresses.
#[test]
fn positions_are_copied_whole() {
    let set: IpSet = "192.0.2.0/30".parse().expect("a range");
    let positions = Positions::of(&set);
    let copy = positions.clone();
    let last = IpAddr::parse("192.0.2.3").expect("an address");
    assert_eq!(copy.find(last), Some(3));
    assert_eq!(copy.find(last), positions.find(last));
    assert!(Positions::default().is_empty());
}

/// What is cut may be stretches that touch: they stay two, and so do their parts.
#[test]
fn touching_ranges_are_cut_one_by_one() {
    let range = |first: u8, last: u8| {
        Ipv4Range::new(
            Ipv4Addr::new(192, 0, 2, first),
            Ipv4Addr::new(192, 0, 2, last),
        )
        .expect("start <= end")
    };
    let held = vec![range(1, 5), range(6, 9), range(10, 12)];
    assert!(runs::search(&held, u128::from(Ipv4Addr::new(192, 0, 2, 6).bits)));
    let cuts = runs::flatten(&vec![range(3, 7)]);
    let kept = runs::subtract(&held, &cuts);
    assert_eq!(kept, [range(1, 2), range(8, 9), range(10, 12)]);
}
