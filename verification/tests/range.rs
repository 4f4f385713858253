//! Ranges of addresses, and how they are written.

use zond_engine::model::ip::addr::{IpAddr, Ipv4Addr, Ipv6Addr};
use zond_engine::model::ip::range::{
    cidr_range, AddrFault, IpError, IpRange, Ipv4Range, Ipv6Range, LINK_LOCAL_FIRST,
    LINK_LOCAL_LAST,
};
use zond_engine::model::ip::scoped::ScopedIp;
use zond_engine::model::ip::{is_global_unicast, is_globally_scoped, is_unique_local};
use zond_engine::text::NumberFault;

fn v6(written: &str) -> Ipv6Addr {
    match IpAddr::parse(written) {
        Some(IpAddr::V6(addr)) => addr,
        _ => panic!("{written} is not an IPv6 address"),
    }
}

fn v6_of(bits: u128) -> Ipv6Addr {
    Ipv6Addr { bits }
}

fn range(written: &str) -> IpRange {
    IpRange::parse(written).unwrap_or_else(|e| panic!("{written}: {}", e.to_string()))
}

/// The boundaries of `2000::/3`, and the special-purpose prefixes inside it that
/// this does not exclude.
#[test]
fn the_range_iana_allocates_global_unicast_from_is_what_is_tested() {
    for global in [
        "2000::",          // the first address of the range
        "3fff:ffff::ffff", // and the last
        "2001:db8::1",     // documentation, unusual but globally scoped
        "2001::1",         // Teredo, which does turn up on consumer segments
        "2002::1",         // 6to4
    ] {
        assert!(is_global_unicast(&v6(global)), "{global}");
    }

    for local in [
        "1fff:ffff::", // just below the range
        "4000::",      // just above it
        "fe80::1",     // link-local: a different machine on every segment
        "fd00::1",     // unique-local
        "::1",         // loopback
        "ff02::1",     // multicast
    ] {
        assert!(!is_global_unicast(&v6(local)), "{local}");
    }
}

#[test]
fn an_address_that_names_its_host_off_the_segment_is_globally_scoped() {
    assert!(is_unique_local(&v6("fc00::1")));
    assert!(is_unique_local(&v6("fdff::1")));
    assert!(!is_unique_local(&v6("fe00::1")));
    for (written, scoped) in [("2001:db8::1", true), ("fd00::1", true), ("fe80::1", false)] {
        assert_eq!(is_globally_scoped(&v6(written)), scoped, "{written}");
    }
}

/// Both bounds are inclusive, so the edges are the cases worth writing down.
#[test]
fn a_range_holds_both_its_bounds_and_nothing_outside_them() {
    let v4 =
        Ipv4Range::new(Ipv4Addr::new(172, 16, 0, 10), Ipv4Addr::new(172, 16, 0, 20)).unwrap();
    assert!(v4.contains(&Ipv4Addr::new(172, 16, 0, 10)));
    assert!(v4.contains(&Ipv4Addr::new(172, 16, 0, 20)));
    assert!(!v4.contains(&Ipv4Addr::new(172, 16, 0, 9)));
    assert!(!v4.contains(&Ipv4Addr::new(172, 16, 0, 21)));

    let v6 = Ipv6Range::new(v6_of(100), v6_of(200)).unwrap();
    assert_eq!(v6.len(), 101, "inclusive at both ends");
    assert!(v6.contains(&v6_of(100)));
    assert!(v6.contains(&v6_of(200)));
    assert!(!v6.contains(&v6_of(201)));
}

/// The ends of each address space, where the arithmetic that counts a range is one
/// step from overflowing.
#[test]
fn the_extremes_of_each_address_space_saturate_rather_than_wrap() {
    let top_of_v4 = Ipv4Range::new(
        Ipv4Addr::new(255, 255, 255, 254),
        Ipv4Addr::new(255, 255, 255, 255),
    )
    .unwrap();
    assert_eq!(top_of_v4.len(), 2);

    let sixty_four = cidr_range(IpAddr::V6(Ipv6Addr::unspecified()), 64).unwrap();
    assert_eq!(sixty_four.len(), 1u128 << 64);

    let everything = cidr_range(IpAddr::V6(Ipv6Addr::unspecified()), 0).unwrap();
    assert_eq!(everything.len(), u128::MAX, "saturated, never zero");
}

/// Ascending, with no address skipped or repeated.
#[test]
fn iteration_yields_every_address_in_ascending_order() {
    let v4 = Ipv4Range::new(Ipv4Addr::new(1, 1, 1, 1), Ipv4Addr::new(1, 1, 1, 3)).unwrap();
    assert_eq!(
        v4.iter().collect(),
        [
            IpAddr::V4(Ipv4Addr::new(1, 1, 1, 1)),
            IpAddr::V4(Ipv4Addr::new(1, 1, 1, 2)),
            IpAddr::V4(Ipv4Addr::new(1, 1, 1, 3)),
        ]
    );

    let v6 = Ipv6Range::new(v6_of(1), v6_of(3)).unwrap();
    assert_eq!(
        v6.iter().collect(),
        [
            IpAddr::V6(v6_of(1)),
            IpAddr::V6(v6_of(2)),
            IpAddr::V6(v6_of(3)),
        ]
    );
}

/// Every form the grammar accepts, and what each covers.
#[test]
fn every_written_form_names_the_range_it_says_it_does() {
    for (written, first, last) in [
        ("8.8.8.8", "8.8.8.8", "8.8.8.8"),
        ("10.0.0.0/24", "10.0.0.0", "10.0.0.255"),
        ("192.168.1.5/24", "192.168.1.0", "192.168.1.255"),
        ("1.1.1.1-1.1.1.5", "1.1.1.1", "1.1.1.5"),
        ("10.0.0.1-50", "10.0.0.1", "10.0.0.50"),
        ("192.168.1.1-2.254", "192.168.1.1", "192.168.2.254"),
        ("::1", "::1", "::1"),
        ("::1/120", "::", "::ff"),
        ("2001:db8::1-2001:db8::5", "2001:db8::1", "2001:db8::5"),
    ] {
        let range = range(written);

        assert_eq!(range.start_addr().to_string(), first, "{written} starts");
        assert_eq!(range.end_addr().to_string(), last, "{written} ends");
    }
}

/// One grammar for both halves of a range.
#[test]
fn both_halves_of_a_range_read_octets_the_same_way() {
    for spelling in [
        "010.0.0.1",         // as a start
        "10.0.0.1-010",      // and as an end
        "10.0.0.1-0.0.0.50", // in a longer suffix
        "10.0.0.1-+50",      // a sign is not an octet either
        "10.0.0.1- 50",      // nor is one with space around it
    ] {
        assert!(
            spelling.parse::<IpRange>().is_err(),
            "`{spelling}` was read as a range"
        );
    }

    // A single zero is a zero, and the forms that always worked still do.
    for (spelling, last) in [
        ("10.0.0.0-0", "10.0.0.0"),
        ("10.0.0.1-50", "10.0.0.50"),
        ("192.168.1.1-2.254", "192.168.2.254"),
    ] {
        assert_eq!(range(spelling).end_addr().to_string(), last, "{spelling}");
    }
}

/// A range has no spaces in it, whichever door it arrives through.
#[test]
fn a_range_written_with_spaces_is_not_a_range() {
    assert!("10.0.0.1 - 10.0.0.5".parse::<IpRange>().is_err());
    assert!("10.0.0.1 -10.0.0.5".parse::<IpRange>().is_err());

    // The whole token is still trimmed, which is a different question.
    let padded: IpRange = "  10.0.0.1-10.0.0.5  ".parse().expect("trimmed as a whole");
    assert_eq!(padded.len(), 5);
}

/// The link-local bounds are `fe80::/10`, at all four edges.
#[test]
fn the_link_local_bounds_are_the_block_std_recognises() {
    let needs_zone = |bits: u128| ScopedIp::needs_zone(&IpAddr::V6(v6_of(bits)));
    assert_eq!(v6_of(LINK_LOCAL_FIRST), v6("fe80::"));
    assert_eq!(
        v6_of(LINK_LOCAL_LAST),
        v6("febf:ffff:ffff:ffff:ffff:ffff:ffff:ffff")
    );
    assert!(needs_zone(LINK_LOCAL_FIRST));
    assert!(needs_zone(LINK_LOCAL_LAST));
    assert!(!needs_zone(LINK_LOCAL_FIRST - 1));
    assert!(!needs_zone(LINK_LOCAL_LAST + 1));
}

/// A range is two addresses, and whether it is link-local is a question about both.
#[test]
fn whether_a_range_is_link_local_is_a_question_about_all_of_it() {
    let range = |first: &str, last: &str| {
        Ipv6Range::new(v6(first), v6(last)).expect("in order")
    };

    // Runs into the block from below: some of it needs a zone.
    let into = range("fe00::", "fe80::5");
    assert!(into.covers_link_local());
    assert!(!into.is_link_local(), "most of it is not link-local");
    assert!(into.is_ambiguous(), "and the part that is has no interface");

    // Runs out of the block from within: same answer, other direction.
    let out_of = range("fe80::1", "fec0::1");
    assert!(out_of.covers_link_local());
    assert!(!out_of.is_link_local());
    assert!(out_of.is_ambiguous());

    // Entirely inside, which is what a zone may be written on.
    let inside = range("fe80::1", "fe80::5");
    assert!(inside.covers_link_local() && inside.is_link_local());
    assert!(inside.is_ambiguous(), "until an interface is named");

    // Entirely outside, at both ends of the block.
    for (first, last) in [("2001:db8::", "2001:db8::ff"), ("fec0::", "fec0::ff")] {
        let elsewhere = range(first, last);
        assert!(!elsewhere.covers_link_local(), "{first}-{last}");
        assert!(!elsewhere.is_link_local(), "{first}-{last}");
        assert!(!elsewhere.is_ambiguous(), "{first}-{last}");
    }
}

/// A scope id of zero names no interface, so a range carrying one is not scoped and
/// has to say so.
#[test]
fn a_zone_of_zero_is_no_zone_at_all() {
    let link_local = v6("fe80::1");
    let range = Ipv6Range::scoped(link_local, link_local, Some(0)).expect("one address");

    assert_eq!(range.zone(), None);
    assert!(
        range.is_ambiguous(),
        "a link-local range nothing resolved is ambiguous"
    );

    // A real index is untouched.
    let found = Ipv6Range::scoped(link_local, link_local, Some(7)).expect("one address");
    assert_eq!(found.zone(), Some(7));
    assert!(!found.is_ambiguous());
}

/// `new` is the only way to build a range, so the ordering it checks is a property
/// of every range that exists.
#[test]
fn a_range_can_only_be_built_in_order() {
    let low = Ipv4Addr::new(10, 0, 0, 1);
    let high = Ipv4Addr::new(10, 0, 0, 5);

    assert!(matches!(
        Ipv4Range::new(high, low),
        Err(IpError::InvalidRange(_, _))
    ));

    assert!(matches!(
        Ipv6Range::new(v6_of(2), v6_of(1)),
        Err(IpError::InvalidRange(_, _))
    ));

    let range = Ipv4Range::new(low, high).expect("in order");
    assert_eq!(range.len(), 5);
    assert_eq!(range.iter().collect().len() as u64, range.len());
}

/// The one mutation a range allows. It only ever grows the end.
#[test]
fn extending_a_range_never_inverts_it() {
    let mut range =
        Ipv4Range::new(Ipv4Addr::new(10, 0, 0, 1), Ipv4Addr::new(10, 0, 0, 5)).unwrap();

    range.extend_end_to(Ipv4Addr::new(10, 0, 0, 9));
    assert_eq!(range.end_addr(), Ipv4Addr::new(10, 0, 0, 9));

    // A shorter end is not an instruction to shrink.
    range.extend_end_to(Ipv4Addr::new(10, 0, 0, 2));
    assert_eq!(range.end_addr(), Ipv4Addr::new(10, 0, 0, 9));
    assert!(range.end_addr() >= range.start_addr());
    assert_eq!(range.iter().collect().len() as u64, range.len());
}

/// These messages are printed at whoever mistyped a target, so they have to name
/// the value that was wrong rather than only the rule it broke.
#[test]
fn an_error_names_the_input_that_produced_it() {
    let prefix_err = IpError::InvalidPrefix(40);
    assert_eq!(prefix_err.to_string(), "Invalid CIDR prefix: 40");

    let range_err = IpError::InvalidRange(
        IpAddr::V4(Ipv4Addr::new(1, 1, 1, 2)),
        IpAddr::V4(Ipv4Addr::new(1, 1, 1, 1)),
    );
    assert!(range_err.to_string().contains("is greater than"));
    assert_eq!(
        range_err.to_string(),
        "Invalid range: start address 1.1.1.2 is greater than end address 1.1.1.1"
    );
}

#[test]
fn each_way_to_miss_the_grammar_has_its_own_error() {
    for (written, error, message) in [
        (
            "10.0.0.0/33",
            IpError::InvalidPrefix(33),
            "Invalid CIDR prefix: 33",
        ),
        (
            "::/129",
            IpError::InvalidPrefix(129),
            "Invalid CIDR prefix: 129",
        ),
        (
            "nonsense",
            IpError::AddrParse(AddrFault::Ip),
            "Failed to parse IP address: invalid IP address syntax",
        ),
        (
            "::1-10.0.0.1",
            IpError::AddrParse(AddrFault::Ipv6),
            "Failed to parse IP address: invalid IPv6 address syntax",
        ),
        (
            "10.0.0.1-x",
            IpError::InvalidFormat("10.0.0.1-x".to_string()),
            "Invalid IP range format: 10.0.0.1-x",
        ),
        (
            "10.0.0.0/",
            IpError::PrefixParse(NumberFault::Empty),
            "Invalid prefix number format: cannot parse integer from empty string",
        ),
        (
            "10.0.0.0/x",
            IpError::PrefixParse(NumberFault::InvalidDigit),
            "Invalid prefix number format: invalid digit found in string",
        ),
        (
            "10.0.0.0/256x",
            IpError::PrefixParse(NumberFault::TooLarge),
            "Invalid prefix number format: number too large to fit in target type",
        ),
    ] {
        let refused = IpRange::parse(written).unwrap_err();
        assert_eq!(refused, error, "{written}");
        assert_eq!(refused.to_string(), message, "{written}");
    }
}

/// What std says about a number it refuses is what is said here.
#[test]
fn a_refused_prefix_is_described_as_std_describes_it() {
    for written in ["", "+", "-", "-1", "x", "256", "256x", "25x6", "999", "+256", "1 "] {
        let std = written.parse::<u8>().unwrap_err().to_string();
        let refused = match IpRange::parse(&format!("10.0.0.0/{written}")) {
            Err(IpError::PrefixParse(fault)) => fault.message(),
            // The token is trimmed as a whole before it is read.
            _ => continue,
        };
        assert_eq!(refused, std, "{written:?}");
    }
}

/// An address is written in its shortest form, and reads back from it.
#[test]
fn an_address_is_written_in_its_shortest_form() {
    for (written, bits, shortest) in [
        ("::", 0u128, "::"),
        ("0:0:0:0:0:0:0:1", 1, "::1"),
        ("1::", 1 << 112, "1::"),
        (
            "2001:db8:0:0:1:0:0:1",
            0x2001_0db8_0000_0000_0001_0000_0000_0001,
            "2001:db8::1:0:0:1",
        ),
        (
            "2001:db8:0:1:1:1:1:1",
            0x2001_0db8_0000_0001_0001_0001_0001_0001,
            "2001:db8:0:1:1:1:1:1",
        ),
        ("::ffff:192.0.2.1", 0xffff_c000_0201, "::ffff:192.0.2.1"),
        ("::FFFF:C000:201", 0xffff_c000_0201, "::ffff:192.0.2.1"),
        (
            "FE80::0001:2",
            0xfe80_0000_0000_0000_0000_0000_0001_0002,
            "fe80::1:2",
        ),
        (
            "1:2:3:4:5:6:7:8",
            0x0001_0002_0003_0004_0005_0006_0007_0008,
            "1:2:3:4:5:6:7:8",
        ),
    ] {
        assert_eq!(v6(written).bits, bits, "{written}");
        assert_eq!(v6(written).to_string(), shortest, "{written}");
        assert_eq!(v6(shortest).bits, bits, "{shortest}");
    }
    assert_eq!(
        IpAddr::parse("192.0.2.255"),
        Some(IpAddr::V4(Ipv4Addr { bits: 0xc000_02ff }))
    );
    for written in [
        "", "1", "1.2.3", "1.2.3.4.5", "256.0.0.1", "01.2.3.4", ":", ":::", "1::2::3", "12345::",
        "g::", "1:2:3:4:5:6:7", "1:2:3:4:5:6:7:8:9", "::1.2.3", "1.2.3.4::", " ::1", "::1%1",
    ] {
        assert_eq!(IpAddr::parse(written), None, "{written}");
    }
}

#[test]
fn an_ipv4_range_spelled_in_ipv6_is_found() {
    let spelled = Ipv6Range::new(v6("::ffff:192.0.2.1"), v6("::ffff:192.0.2.9")).unwrap();
    let found = spelled.spelled_ipv4().expect("inside the mapped block");
    assert_eq!(found.start_addr(), Ipv4Addr::new(192, 0, 2, 1));
    assert_eq!(found.end_addr(), Ipv4Addr::new(192, 0, 2, 9));
    assert_eq!(
        Ipv6Range::new(v6("::"), v6("::1")).unwrap().spelled_ipv4(),
        None
    );
}
