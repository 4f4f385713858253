//! How targets are written.

use zond_engine::index::Index;
use zond_engine::model::ip::addr::{IpAddr, Ipv4Addr};
use zond_engine::model::ip::set::IpSet;
use zond_engine::model::parse;
use zond_engine::model::parse::ip::{
    insert_expression, names_keyword, needs, next_need as next_need_of_list, to_set, Expansion,
    Interface, IpParseError, Keyword, Need,
};
use zond_engine::model::parse::target::{
    host_name, next_need, HostAnswer, HostName, TargetContext, TargetExpr, TargetMapBuilder,
    TargetParseError, GROUPING_SAMPLE,
};
use zond_engine::model::port::PortSet;
use zond_engine::model::target::TargetMap;

fn ports(spec: &str) -> PortSet {
    PortSet::try_from(spec).expect("test port specification parses")
}

fn ip(written: &str) -> IpAddr {
    IpAddr::parse(written).expect("an address")
}

fn interface(name: &str, index: u32) -> Interface {
    Interface {
        name: name.to_string(),
        index,
    }
}

fn lan(answer: Result<IpSet, IpParseError>) -> [Expansion; 1] {
    [Expansion {
        keyword: Keyword::Lan,
        answer,
    }]
}

fn host(name: &str, addresses: &[IpAddr]) -> HostAnswer {
    HostAnswer {
        name: name.to_string(),
        addresses: addresses.to_vec(),
    }
}

// ─── Addresses ───────────────────────────────────────────────────────────────

/// A spelling either entry point accepts the other has to accept too.
#[test]
fn both_ways_into_the_parser_accept_the_same_spellings() {
    for expression in [
        "10.0.0.1-50",
        "192.168.1.1-2.254",
        "10.0.0.1-10.0.0.50",
        "192.168.1.0/24",
        "2001:db8::1-2001:db8::5",
        "8.8.8.8",
        // Spellings a second grammar would most easily read differently.
        "10.0.0.0-0",
        "  10.0.0.1  ",
    ] {
        let direct = to_set(&[expression], &[], &[])
            .unwrap_or_else(|e| panic!("to_set rejected `{expression}`: {}", e.to_string()));
        let via_set: IpSet = expression
            .parse()
            .unwrap_or_else(|_| panic!("IpSet::from_str rejected `{expression}`"));

        assert_eq!(
            direct, via_set,
            "`{expression}` means different things through the two entry points"
        );
    }
}

/// An address written the IPv4-mapped way is read as the IPv4 host it spells, in
/// every form the grammar has.
#[test]
fn a_mapped_address_is_read_as_the_ipv4_host_it_spells() {
    for (mapped, plain) in [
        ("::ffff:192.0.2.1", "192.0.2.1"),
        ("::ffff:127.0.0.1", "127.0.0.1"),
        ("::ffff:192.0.2.0/120", "192.0.2.0/24"),
        ("::ffff:192.0.2.1-::ffff:192.0.2.9", "192.0.2.1-192.0.2.9"),
        ("::ffff:0:0/96", "0.0.0.0/0"),
    ] {
        assert_eq!(
            to_set(&[mapped], &[], &[]).expect("parses"),
            to_set(&[plain], &[], &[]).expect("parses"),
            "`{mapped}`"
        );
    }
}

/// A range reaching outside the mapped block is kept as written.
#[test]
fn a_range_that_only_overlaps_the_mapped_block_is_kept_as_written() {
    for written in ["::/0", "::fffe:ffff:ffff-::ffff:0:5"] {
        let set = to_set(&[written], &[], &[]).expect("parses");
        assert!(set.v4().is_empty(), "`{written}` gained IPv4");
        assert_eq!(set, written.parse::<IpSet>().expect("parses"));
    }
}

#[test]
fn a_single_literal_address_becomes_a_set_of_one() {
    let input = vec!["192.168.1.1"];
    let set = to_set(&input, &[], &[]).expect("Should parse single IP");
    assert_eq!(set.len(), 1);
    assert!(set.contains(&IpAddr::V4(Ipv4Addr::new(192, 168, 1, 1))));
}

/// One argument may itself be a list.
#[test]
fn one_argument_may_name_several_addresses() {
    let input = vec!["10.0.0.1, 10.0.0.2, 10.0.0.5"];
    let set = to_set(&input, &[], &[]).expect("Should parse comma list");
    assert_eq!(set.len(), 3);
    assert!(set.contains(&IpAddr::V4(Ipv4Addr::new(10, 0, 0, 1))));
}

#[test]
fn a_cidr_block_covers_every_address_in_it() {
    let input = vec!["172.16.0.0/24"];
    let set = to_set(&input, &[], &[]).expect("Should parse CIDR");
    assert_eq!(set.len(), 256);
}

/// The shorthand crosses an octet boundary.
#[test]
fn a_shortened_range_end_continues_the_starts_octets() {
    let input = vec!["192.168.1.250-2.10"];
    let set = to_set(&input, &[], &[]).unwrap();
    assert_eq!(set.len(), 17);
}

#[test]
fn a_prefix_longer_than_its_family_allows_is_refused() {
    let input = vec!["192.168.1.1/33"];
    let result = to_set(&input, &[], &[]);
    assert_eq!(result.unwrap_err(), IpParseError::InvalidPrefix(33));
}

/// `/33` and `/999` are the same mistake made twice as far as a person is
/// concerned, so the two say the same thing.
#[test]
fn a_prefix_too_large_for_a_u8_is_still_a_prefix() {
    let too_large = to_set(&["10.0.0.0/999"], &[], &[]).unwrap_err();
    assert_eq!(too_large, IpParseError::InvalidPrefix(999));
    assert!(too_large.to_string().contains("0-32"), "{too_large:?}");

    // Text that is not a number at all stays malformed.
    assert!(matches!(
        to_set(&["10.0.0.0/wide"], &[], &[]),
        Err(IpParseError::Malformed(_))
    ));
}

/// The error carries the prefix and not the family it was written against, so its
/// message has to name both bounds.
#[test]
fn a_prefix_error_names_the_bound_for_both_families() {
    let v6 = to_set(&["2001:db8::/129"], &[], &[]).unwrap_err();
    assert_eq!(v6, IpParseError::InvalidPrefix(129));
    assert!(v6.to_string().contains("0-128"), "{v6:?}");

    let v4 = to_set(&["192.168.1.1/33"], &[], &[]).unwrap_err();
    assert!(v4.to_string().contains("0-32"), "{v4:?}");
}

#[test]
fn a_range_written_backwards_is_refused() {
    let input = vec!["10.0.0.10-1"];
    let result = to_set(&input, &[], &[]);
    assert!(matches!(result, Err(IpParseError::InvalidRange(_, _))));
}

/// The interface a link-local target names survives into the target set.
#[test]
fn a_link_local_target_keeps_the_interface_it_names() {
    let zones = [interface("en0", 7)];

    let set = to_set(&["fe80::aa%en0"], &[], &zones).expect("parses");

    assert_eq!(set.v6().len(), 1);
    assert_eq!(set.v6()[0].zone(), Some(7));
    assert!(!set.v6()[0].is_ambiguous());
}

#[test]
fn a_link_local_target_without_an_interface_is_ambiguous() {
    let set = to_set(&["fe80::aa"], &[], &[]).expect("parses");

    assert!(set.v6()[0].is_ambiguous());
}

/// Zero is what a name lookup returns to say there is no such interface.
#[test]
fn a_resolver_that_answers_zero_has_not_found_an_interface() {
    let zones = [interface("en0", 0)];

    assert!(matches!(
        to_set(&["fe80::aa%en0"], &[], &zones),
        Err(IpParseError::UnknownInterface(name)) if name == "en0"
    ));
}

/// One grammar, whatever whitespace the caller left on the token.
#[test]
fn an_untrimmed_token_reads_the_same_as_a_trimmed_one() {
    let mut set = IpSet::new();
    insert_expression(" 10.0.0.1 ", &mut set, &[], &[]).expect("an address with space");
    insert_expression("\t192.168.1.0/24\n", &mut set, &[], &[]).expect("a block with space");
    insert_expression(" 10.0.0.5-10 ", &mut set, &[], &[]).expect("a range with space");

    assert_eq!(set.len(), 1 + 256 + 6);

    let keywords = lan(Ok(IpSet::from(ip("172.16.0.1"))));
    let mut keyword = IpSet::new();
    insert_expression(" lan ", &mut keyword, &keywords, &[]).expect("a keyword");
    assert_eq!(
        keyword.len(),
        1,
        "which already worked, and is the half it matched"
    );
}

/// An interface nobody recognizes is a target that does not mean what it says.
#[test]
fn an_unknown_interface_is_refused() {
    assert!(matches!(
        to_set(&["fe80::aa%wlan9"], &[], &[interface("en0", 7)]),
        Err(IpParseError::UnknownInterface(_))
    ));
    assert!(
        matches!(
            to_set(&["fe80::aa%en0"], &[], &[]),
            Err(IpParseError::UnknownInterface(_))
        ),
        "a caller with no lookup cannot express a scoped target and must be told"
    );
}

/// A scope on an address that cannot use one is a mistake, not a hint.
#[test]
fn a_zone_on_a_global_target_is_refused() {
    let zones = [interface("en0", 7)];

    assert!(matches!(
        to_set(&["2001:db8::1%en0"], &[], &zones),
        Err(IpParseError::ZoneOnUnscopedTarget(_))
    ));
    assert!(matches!(
        to_set(&["192.168.1.1%en0"], &[], &zones),
        Err(IpParseError::ZoneOnUnscopedTarget(_))
    ));
}

/// Nothing to scan is a caller mistake rather than a scan of nothing.
#[test]
fn input_naming_no_addresses_is_an_error() {
    let input: Vec<&str> = vec!["", " "];
    let result = to_set(&input, &[], &[]);
    assert_eq!(result.unwrap_err(), IpParseError::EmptySet);
}

/// What a token needs looked up is known before anything is looked up.
#[test]
fn a_token_says_what_it_needs() {
    assert_eq!(needs("10.0.0.1"), Need::Nothing);
    assert_eq!(needs(" LAN "), Need::Keyword(Keyword::Lan));
    assert_eq!(needs("fe80::1%en0"), Need::Zone("en0".to_string()));
    assert!(names_keyword(&["10.0.0.1, lan"], Keyword::Lan));
    assert!(!names_keyword(&["10.0.0.1", "lane"], Keyword::Lan));
    assert_eq!(Keyword::from_token("Lan"), Some(Keyword::Lan));
    assert_eq!(Keyword::Lan.as_str(), "lan");
}

/// A keyword nobody answered for, and one whose answer is an error, are refused.
#[test]
fn a_keyword_is_only_as_good_as_its_answer() {
    let unanswered = to_set(&["lan"], &[], &[]).unwrap_err();
    assert!(matches!(
        unanswered,
        IpParseError::KeywordUnresolved { keyword: "lan", .. }
    ));
    let failed = IpParseError::KeywordUnresolved {
        keyword: "lan",
        reason: "no interface is up".to_string(),
    };
    let refused = to_set(&["lan"], &lan(Err(failed)), &[]).unwrap_err();
    assert_eq!(
        refused.to_string(),
        "could not resolve `lan`: no interface is up"
    );
}

// ─── Target expressions ──────────────────────────────────────────────────────

/// A context crosses a thread.
#[test]
fn a_context_can_be_held_across_a_spawn() {
    fn sent<T: Send + Sync>() {}

    sent::<TargetContext<'static>>();
}

/// Splitting at the first colon would read `fe80::1` as host `fe80` on port `:1`.
#[test]
fn an_ipv6_address_is_never_split_at_its_own_colons() {
    for token in [
        "fe80::1",
        "2001:db8::1",
        "2001:db8::1:80",
        "fe80::1%en0",
        "2001:db8::1-2001:db8::5",
        "::1",
    ] {
        let expr = TargetExpr::parse(token).expect("parses");
        assert_eq!(expr.address, token, "{token} lost part of its address");
        assert_eq!(expr.ports, None, "{token} acquired ports it does not name");
    }
}

/// Brackets are the only way to write ports on an IPv6 target.
#[test]
fn brackets_separate_an_ipv6_address_from_its_ports() {
    let cases = [
        ("[2001:db8::1]:443", "2001:db8::1", Some("443")),
        ("[fe80::1%en0]:22", "fe80::1%en0", Some("22")),
        ("[2001:db8::1]", "2001:db8::1", None),
        (
            "[2001:db8::]:80,443,u:53",
            "2001:db8::",
            Some("80,443,u:53"),
        ),
    ];

    for (token, address, port_spec) in cases {
        let expr = TargetExpr::parse(token).expect("parses");
        assert_eq!(expr.address, address);
        assert_eq!(expr.ports, port_spec);
    }
}

#[test]
fn a_single_colon_separates_ports() {
    let cases = [
        ("192.0.2.1:80", "192.0.2.1", Some("80")),
        ("198.51.100.0/24:1-1024", "198.51.100.0/24", Some("1-1024")),
        ("198.51.100.1-50:80,443", "198.51.100.1-50", Some("80,443")),
        ("scanme.example:22", "scanme.example", Some("22")),
        ("  192.0.2.1:80  ", "192.0.2.1", Some("80")),
    ];

    for (token, address, port_spec) in cases {
        let expr = TargetExpr::parse(token).expect("parses");
        assert_eq!(expr.address, address);
        assert_eq!(expr.ports, port_spec);
    }
}

/// A dot before the first colon settles it: no IPv6 address can have one.
#[test]
fn a_udp_port_needs_no_brackets_on_an_address_that_has_a_dot() {
    let cases = [
        ("192.0.2.1:u:53", "192.0.2.1", Some("u:53")),
        ("192.0.2.1:u:53,u:161", "192.0.2.1", Some("u:53,u:161")),
        (
            "198.51.100.0/24:80,u:53",
            "198.51.100.0/24",
            Some("80,u:53"),
        ),
        ("db.internal:u:53", "db.internal", Some("u:53")),
    ];

    for (token, address, port_spec) in cases {
        let expr = TargetExpr::parse(token).expect("parses");
        assert_eq!(expr.address, address, "{token}");
        assert_eq!(expr.ports, port_spec, "{token}");
    }

    // And the rule it must not break: an IPv6 address is still whole.
    for token in ["2001:db8::1", "::ffff:192.0.2.1", "2001:db8::192.0.2.1"] {
        let expr = TargetExpr::parse(token).expect("parses");
        assert_eq!(expr.address, token, "{token} was split");
        assert_eq!(expr.ports, None, "{token} acquired ports");
    }
}

/// A hostname cannot contain a colon, so whatever the author of one meant, they did
/// not mean a name.
#[test]
fn an_unbracketed_ipv6_target_with_ports_says_what_to_do_about_it() {
    let mut builder = TargetMapBuilder::new(ports("80"));

    // Two colons, no dot in front: read as an address, and it is not one.
    let err = builder
        .push("2001:db8::zz:443", &TargetContext::new())
        .expect_err("not an address");

    assert!(
        matches!(err, TargetParseError::UnbracketedAddress(_)),
        "got {err:?}"
    );
    assert!(
        err.to_string().contains("[2001:db8::1]:443"),
        "the error has to show the way out: {err:?}"
    );
}

/// A malformed expression has to be refused rather than silently read as something
/// narrower.
#[test]
fn a_separator_without_a_port_specification_is_refused() {
    assert!(matches!(
        TargetExpr::parse("192.0.2.1:"),
        Err(TargetParseError::EmptyPorts(_))
    ));
    assert!(matches!(
        TargetExpr::parse("[2001:db8::1]:"),
        Err(TargetParseError::EmptyPorts(_))
    ));
    assert!(matches!(
        TargetExpr::parse("[2001:db8::1"),
        Err(TargetParseError::UnbalancedBracket(_))
    ));
    assert!(matches!(
        TargetExpr::parse("[2001:db8::1]443"),
        Err(TargetParseError::TrailingText(_))
    ));
    assert!(matches!(
        TargetExpr::parse(":80"),
        Err(TargetParseError::Empty)
    ));
    // A token of spaces is its own answer.
    let blank = TargetExpr::parse("   ").expect_err("whitespace is not a target");
    assert!(
        matches!(blank, TargetParseError::Blank(3, "s")),
        "{blank:?}"
    );
    assert_eq!(
        blank.to_string(),
        "a target of 3 spaces; a stray '\\' in the shell?"
    );

    let one = TargetExpr::parse(" ").expect_err("a space is not a target");
    assert_eq!(
        one.to_string(),
        "a target of 1 space; a stray '\\' in the shell?"
    );

    assert!(matches!(
        TargetExpr::parse(""),
        Err(TargetParseError::Empty)
    ));
}

/// A port half that names no ports is refused, as the empty one is.
#[test]
fn a_port_specification_naming_nothing_is_refused() {
    let mut builder = TargetMapBuilder::new(ports("80"));
    let ctx = TargetContext::new();

    let error = builder
        .push("192.0.2.1:,", &ctx)
        .expect_err("a port half naming nothing");
    assert!(error.to_string().contains("names no ports"), "{error:?}");
    assert!(builder.is_empty(), "and nothing was added");
}

/// One unit per port specification, not one per input token.
#[test]
fn targets_are_grouped_by_port_specification_not_by_token() {
    let mut builder = TargetMapBuilder::new(ports("80"));
    let ctx = TargetContext::new();

    for octet in 0..=255u8 {
        let target = format!("192.0.2.{octet}");
        builder.push(&target, &ctx).expect("parses");
    }

    assert_eq!(builder.group_count(), 1, "one port specification, one unit");
    assert_eq!(builder.address_count(), 256);

    let map = builder.build();
    assert_eq!(map.units.len(), 1);
    assert_eq!(map.gross_targets().unwrap(), 256);
}

#[test]
fn distinct_port_specifications_get_distinct_units_in_first_seen_order() {
    let mut builder = TargetMapBuilder::new(ports("80"));
    let ctx = TargetContext::new();

    builder.push("198.51.100.1:22", &ctx).unwrap();
    builder.push("198.51.100.2:443", &ctx).unwrap();
    builder.push("198.51.100.3:22", &ctx).unwrap();
    builder.push("198.51.100.4", &ctx).unwrap();

    assert_eq!(builder.group_count(), 3, "22, 443, and the default 80");

    let map = builder.build();
    assert_eq!(map.units[0].ports(), &ports("22"));
    assert_eq!(map.units[0].ips().len(), 2, "198.51.100.1 and 198.51.100.3");
    assert_eq!(map.units[1].ports(), &ports("443"));
    assert_eq!(map.units[2].ports(), &ports("80"));
}

/// Two spellings of one port set are one group.
#[test]
fn port_specifications_group_by_what_they_mean_not_how_they_are_written() {
    let mut builder = TargetMapBuilder::new(ports("80"));
    let ctx = TargetContext::new();

    builder.push("198.51.100.1:80,443", &ctx).unwrap();
    builder.push("198.51.100.2:443,80", &ctx).unwrap();
    builder.push("198.51.100.3:80-81,443", &ctx).unwrap();

    assert_eq!(
        builder.group_count(),
        2,
        "80 with 443 once, 80 through 81 with 443 once"
    );
}

/// A keyword that resolved to nothing is not an empty expression.
#[test]
fn a_keyword_that_resolves_to_nothing_says_what_went_wrong() {
    let resolves_to_nothing = lan(Ok(IpSet::new()));

    let ctx = TargetContext::new().with_keywords(&resolves_to_nothing);
    let mut builder = TargetMapBuilder::new(ports("80"));
    let error = builder.push("lan", &ctx).expect_err("nothing was named");

    assert_eq!(
        error,
        TargetParseError::ResolvedToNothing("lan".to_string()),
        "the word it was said about has to be in it"
    );
    assert!(!error.to_string().contains("cannot be empty"), "{error:?}");

    // And a token with nothing written in it keeps its own error.
    assert_eq!(
        builder.push("   ", &ctx).expect_err("nothing was written"),
        TargetParseError::Blank(3, "s")
    );
    assert_eq!(
        builder.push("", &ctx).expect_err("nothing was written"),
        TargetParseError::Empty
    );
}

/// A hostname with no lookup must be an error.
#[test]
fn a_hostname_without_a_lookup_is_refused_rather_than_skipped() {
    let mut builder = TargetMapBuilder::new(ports("80"));

    let err = builder
        .push("scanme.example", &TargetContext::new())
        .expect_err("a hostname needs a lookup");

    assert!(matches!(err, TargetParseError::NoHostLookup(ref name) if name == "scanme.example"));
    assert!(builder.is_empty(), "a refused target left nothing behind");
}

#[test]
fn a_hostname_resolves_through_the_callers_lookup() {
    let answers = [
        host(
            "one.example",
            &[IpAddr::V4(Ipv4Addr::new(198, 51, 100, 1))],
        ),
        host(
            "two.example",
            &[
                IpAddr::V4(Ipv4Addr::new(198, 51, 100, 2)),
                IpAddr::V4(Ipv4Addr::new(198, 51, 100, 3)),
            ],
        ),
    ];
    let ctx = TargetContext::new().with_hosts(&answers);

    let mut builder = TargetMapBuilder::new(ports("80"));
    builder.push("one.example", &ctx).unwrap();
    builder.push("two.example:443", &ctx).unwrap();

    assert_eq!(builder.address_count(), 3);
    assert_eq!(builder.group_count(), 2);

    let err = builder
        .push("nowhere.example", &ctx)
        .expect_err("a name with no records is not a target");
    assert!(matches!(err, TargetParseError::UnknownHost(_)));
}

/// An address that is wrong is not a hostname.
#[test]
fn a_malformed_address_is_reported_as_an_address() {
    let answers = [host("192.0.2.1/33", &[ip("192.0.2.1")])];
    let ctx = TargetContext::new().with_hosts(&answers);

    let mut builder = TargetMapBuilder::new(ports("80"));
    let err = builder.push("192.0.2.1/33", &ctx).expect_err("refused");

    assert!(matches!(
        err,
        TargetParseError::Address {
            source: IpParseError::InvalidPrefix(33),
            ..
        }
    ));
}

/// A range with a slip in it is not a hostname either.
#[test]
fn a_mistyped_range_is_refused_without_a_lookup() {
    for token in [
        "10.10.10.*",
        "10.10.1-5.1-254",
        "10.10.10.1-256",
        "10.10.10.0/",
        "/0",
        "192.0.2.300",
        "2001:db8::1-ff",
    ] {
        // An answer is on the table, and must not be read.
        let answers = [host(token, &[ip("192.0.2.1")])];
        let ctx = TargetContext::new().with_hosts(&answers);
        let mut builder = TargetMapBuilder::new(ports("80"));
        let err = builder.push(token, &ctx).expect_err(token);

        assert!(
            matches!(err, TargetParseError::MistypedAddress(ref t) if t == token),
            "{token}: {err:?}"
        );
        // Whoever resolves names asks the same question before putting anything on
        // the network.
        assert_eq!(host_name(token), HostName::Mistyped, "{token}");
    }
}

/// Whatever a resolver would plausibly answer for is still asked.
#[test]
fn a_name_of_any_ordinary_shape_still_reaches_the_lookup() {
    for name in [
        "printer",
        "nas-1",
        "scanme.example",
        "scanme.example.",
        "host_1.corp.example",
        "3com.example",
        "b\u{fc}cher.example",
        "xn--bcher-kva.example",
    ] {
        assert_eq!(host_name(name), HostName::Yes, "{name}");
    }

    // A colon with a port specification after it is an IPv6 target that wanted
    // brackets.
    assert_eq!(host_name("2001:db8::zz:443"), HostName::Unbracketed);
}

/// A digit of any script is a digit and no letter, so a name whose last label is
/// nothing else is an address gone wrong.
#[test]
fn a_label_of_digits_in_another_script_is_no_name() {
    assert_eq!(host_name("\u{661}\u{662}\u{663}"), HostName::Mistyped);
    assert_eq!(host_name("\u{661}\u{662}\u{3b1}"), HostName::Yes);
    assert_eq!(host_name("\u{2603}.example"), HostName::Mistyped);
}

#[test]
fn a_malformed_port_specification_is_reported_as_ports() {
    let mut builder = TargetMapBuilder::new(ports("80"));
    let err = builder
        .push("198.51.100.1:http", &TargetContext::new())
        .expect_err("refused");

    assert!(matches!(err, TargetParseError::Ports { .. }));
    assert!(builder.is_empty());
}

/// The zone has to survive the split.
#[test]
fn a_bracketed_link_local_target_keeps_its_interface() {
    let zones = [interface("en0", 7)];
    let ctx = TargetContext::new().with_zones(&zones);

    let mut builder = TargetMapBuilder::new(ports("80"));
    builder.push("[fe80::aa%en0]:22", &ctx).unwrap();

    let map = builder.build();
    assert_eq!(map.units[0].ips().v6()[0].zone(), Some(7));
    assert_eq!(map.units[0].ports(), &ports("22"));
}

/// The host's interface table is read once and answers for every target.
#[test]
fn a_resolver_may_close_over_what_it_needs_to_answer() {
    let interfaces = [interface("en0", 7), interface("utun3", 12)];
    let ctx = TargetContext::new().with_zones(&interfaces);

    let mut builder = TargetMapBuilder::new(ports("80"));
    builder.push("[fe80::aa%utun3]:22", &ctx).expect("parses");

    let map = builder.build();
    assert_eq!(map.units[0].ips().v6()[0].zone(), Some(12));
}

/// The running total has to equal what walking the accumulated groups would have
/// said.
#[test]
fn the_running_address_total_matches_what_the_groups_hold() {
    let ctx = TargetContext::new();
    let mut builder = TargetMapBuilder::new(ports("80"));

    let mut walked: u128 = 0;
    for target in [
        "198.51.100.0/24",
        "198.51.100.5",
        "192.0.2.1:22",
        "2001:db8::/120",
        "203.0.113.1,203.0.113.2,203.0.113.3",
        "[fe80::1]:443",
    ] {
        builder.push(target, &ctx).expect("parses");
        let mut alone = IpSet::new();
        for address in TargetExpr::parse(target).expect("parses").addresses() {
            insert_expression(&address, &mut alone, &[], &[]).expect("parses");
        }
        walked += alone.len_gross();
    }

    assert_eq!(builder.gross_address_count(), walked);
    assert_eq!(walked, 256 + 1 + 1 + 256 + 3 + 1);
    // And it is an over-count of the merged figure, never an under-count.
    assert!(builder.gross_address_count() >= builder.address_count());
}

/// A CIDR block is an upper bound on scan size that its written form hides
/// completely.
#[test]
fn address_count_reports_what_a_block_holds_not_what_was_written() {
    let mut builder = TargetMapBuilder::new(ports("80"));
    builder.push("10.0.0.0/8", &TargetContext::new()).unwrap();

    assert_eq!(builder.address_count(), 16_777_216);

    let mut everything = TargetMapBuilder::new(ports("80"));
    everything.push("::/0", &TargetContext::new()).unwrap();
    assert_eq!(everything.address_count(), u128::MAX);
}

/// A comma separates addresses on the left of the port separator and ports on the
/// right of it.
#[test]
fn a_comma_separates_addresses_before_the_ports_and_ports_after_them() {
    let ctx = TargetContext::new();

    let mut hosts = TargetMapBuilder::new(ports("80"));
    hosts.push("198.51.100.1,198.51.100.2:443", &ctx).unwrap();
    assert_eq!(hosts.address_count(), 2);
    assert_eq!(hosts.build().units[0].ports(), &ports("443"));

    let mut services = TargetMapBuilder::new(ports("80"));
    services.push("198.51.100.1:80,443", &ctx).unwrap();
    assert_eq!(services.address_count(), 1);
    assert_eq!(services.build().units[0].ports(), &ports("80,443"));

    let mut bare = TargetMapBuilder::new(ports("80"));
    bare.push("198.51.100.1, 198.51.100.2 ,198.51.100.3", &ctx)
        .unwrap();
    assert_eq!(bare.address_count(), 3);
}

/// The units a builder that grouped unconditionally would have produced.
fn grouped_by_hand(tokens: &[String]) -> Vec<(PortSet, Vec<IpAddr>)> {
    let mut groups: Vec<(PortSet, IpSet)> = Vec::new();

    for token in tokens {
        let expr = TargetExpr::parse(token).expect("parses");
        let named = ports(expr.ports.expect("every token names its ports"));
        let at = match groups.iter().position(|(known, _)| *known == named) {
            Some(at) => at,
            None => {
                groups.push((named, IpSet::new()));
                groups.len() - 1
            }
        };
        for address in expr.addresses() {
            insert_expression(&address, &mut groups[at].1, &[], &[]).expect("addresses parse");
        }
    }

    groups
        .into_iter()
        .map(|(named, ips)| (named, ips.iter().collect()))
        .collect()
}

/// Every unit of a map, as the ports it asks about and the addresses it yields.
fn units_of(map: TargetMap) -> Vec<(PortSet, Vec<IpAddr>)> {
    map.units
        .into_iter()
        .map(|unit| {
            let (ips, named) = unit.into_parts();
            (named, ips.iter().collect())
        })
        .collect()
}

/// The threshold changes how the builder works, and must not change what it
/// produces.
#[test]
fn the_map_is_the_same_either_side_of_the_grouping_threshold() {
    let ctx = TargetContext::new();

    for count in [
        GROUPING_SAMPLE - 1,
        GROUPING_SAMPLE + 1,
        GROUPING_SAMPLE * 4,
    ] {
        let tokens: Vec<String> = (0..count)
            .map(|i| format!("10.0.{}.{}:{}", i / 256, i % 256, 1 + i))
            .collect();

        let mut builder = TargetMapBuilder::new(ports("80"));
        for token in &tokens {
            builder.push(token, &ctx).expect("parses");
        }
        let built = builder.build();

        assert_eq!(
            units_of(built),
            grouped_by_hand(&tokens),
            "{count} expressions, none of them sharing a specification"
        );
    }
}

/// Once the index is given up a specification already seen gets a unit of its own.
#[test]
fn a_file_that_never_groups_gives_the_index_up() {
    let mut builder = TargetMapBuilder::new(ports("80"));
    let ctx = TargetContext::new();

    for i in 0..GROUPING_SAMPLE {
        let token = format!("10.0.{}.{}:{}", i / 256, i % 256, 1 + i);
        builder.push(&token, &ctx).expect("parses");
    }
    assert_eq!(builder.group_count(), GROUPING_SAMPLE);

    // Port 1 has had a group since the first line. With the index gone it gets a
    // second rather than joining it.
    builder.push("10.9.9.9:1", &ctx).expect("parses");
    assert_eq!(builder.group_count(), GROUPING_SAMPLE + 1);

    let map = builder.build();
    assert_eq!(map.units[0].ports(), &ports("1"));
    assert_eq!(map.units[GROUPING_SAMPLE].ports(), &ports("1"));
    assert_eq!(
        map.gross_targets().unwrap(),
        GROUPING_SAMPLE as u128 + 1,
        "both units are still scanned, on the ports they named"
    );
}

/// A file that does group must not lose its index for being long.
#[test]
fn a_file_that_groups_keeps_its_index_however_long_it_is() {
    let mut builder = TargetMapBuilder::new(ports("80"));
    let ctx = TargetContext::new();

    for i in 0..GROUPING_SAMPLE * 4 {
        let token = format!("10.0.{}.{}", i / 256, i % 256);
        builder.push(&token, &ctx).expect("parses");
    }

    assert_eq!(builder.group_count(), 1);
}

/// One line in eight repeating the specification before it is thin grouping and
/// still grouping. One line in thirty-two is not enough to be worth an index.
#[test]
fn the_index_is_kept_or_given_up_on_how_much_actually_regroups() {
    let ctx = TargetContext::new();
    let lines = GROUPING_SAMPLE * 4;

    for (every, kept) in [(8usize, true), (32, false)] {
        let mut builder = TargetMapBuilder::new(ports("80"));
        for i in 0..lines {
            // Every `every`th line repeats the specification before it.
            let spec = 1 + i - usize::from(i % every == every - 1);
            let token = format!("10.0.{}.{}:{}", i / 256, i % 256, spec);
            builder.push(&token, &ctx).expect("parses");
        }

        let regrouped = lines / every;
        if kept {
            assert_eq!(
                builder.group_count(),
                lines - regrouped,
                "one line in {every} joined the group before it"
            );
        } else {
            assert!(
                builder.group_count() > lines - regrouped,
                "one line in {every} is too little to keep an index for"
            );
        }
    }
}

#[test]
fn overlapping_targets_in_one_group_merge_rather_than_duplicate() {
    let mut builder = TargetMapBuilder::new(ports("80"));
    let ctx = TargetContext::new();

    builder.push("10.0.0.0/24", &ctx).unwrap();
    builder.push("10.0.0.5", &ctx).unwrap();
    builder.push("10.0.0.128-10.0.1.10", &ctx).unwrap();

    assert_eq!(builder.address_count(), 267, "0.0-1.10, counted once each");
    assert_eq!(builder.group_count(), 1);
}

/// Each refusal is worded for whoever wrote the target.
#[test]
fn each_refused_target_says_why() {
    let answers = [host("empty.example", &[])];
    let ctx = TargetContext::new().with_hosts(&answers);
    for (token, message) in [
        ("", "a target expression cannot be empty"),
        (
            "[::1",
            "'[::1': a bracketed address must be closed with ']'",
        ),
        (
            "[::1]80",
            "'[::1]80': expected ':' and a port specification after ']'",
        ),
        (
            "10.0.0.1:",
            "'10.0.0.1:': the ':' is not followed by a port specification",
        ),
        (
            "10.0.0.9-1",
            "'10.0.0.9-1': Invalid range: start address 10.0.0.9 is greater than end address 10.0.0.1",
        ),
        (
            "10.0.0.300",
            "'10.0.0.300': not a valid address, range or hostname",
        ),
    ] {
        let mut builder = TargetMapBuilder::new(ports("80"));
        let refused = builder.push(token, &ctx).expect_err(token);
        assert_eq!(refused.to_string(), message, "{token}");
        assert!(builder.is_empty(), "{token} left something behind");
    }
    let mut builder = TargetMapBuilder::new(ports("80"));
    assert!(matches!(
        builder.push("empty.example", &ctx),
        Err(TargetParseError::UnknownHost(_))
    ));
}

/// A target refused half way leaves the groups as they were.
#[test]
fn a_refused_expression_leaves_nothing_behind() {
    let mut builder = TargetMapBuilder::new(ports("80"));
    let ctx = TargetContext::new();
    builder.push("10.0.0.1", &ctx).unwrap();
    builder
        .push("10.0.0.2,10.0.0.300:22", &ctx)
        .expect_err("the second address is none");
    assert_eq!(builder.group_count(), 1);
    assert_eq!(builder.address_count(), 1);
    assert_eq!(builder.gross_address_count(), 1);
}

// ─── The facade ──────────────────────────────────────────────────────────────

/// Targets that need no resolver still parse, and still group by port
/// specification.
#[test]
fn the_facade_builds_a_map_from_targets_that_need_no_resolver() {
    let targets = ["10.0.0.1:22".to_string(), "10.0.0.2".to_string()];
    let map = parse::to_target_map(&targets, PortSet::try_from("80").unwrap(), &[])
        .expect("literal addresses need nothing resolved");

    assert_eq!(map.units.len(), 2, "port 22, and the default 80");
    assert_eq!(map.gross_targets().unwrap(), 2);
}

/// A target needing a lookup is refused rather than silently dropped.
#[test]
fn the_facade_refuses_a_target_it_cannot_resolve() {
    let targets = ["scanme.example".to_string()];
    let error = parse::to_target_map(&targets, PortSet::try_from("80").unwrap(), &[])
        .expect_err("a hostname needs a lookup this shape cannot take");

    assert!(error.to_string().contains("scanme.example"), "{error:?}");
}

/// An expression asks for one answer at a time, in the order it is written in, and
/// for none past the first that is refused.
#[test]
fn an_expression_asks_only_for_what_it_will_read() {
    let zones = [interface("en0", 4)];
    let hosts = [host("nas", &[ip("192.0.2.9")])];
    let none = TargetContext::default();
    assert_eq!(
        next_need("fe80::1%en0,nas", &none),
        Need::Zone("en0".to_string())
    );
    let with_zone = none.with_zones(&zones);
    assert_eq!(
        next_need("fe80::1%en0,nas", &with_zone),
        Need::Host("nas".to_string())
    );
    let with_both = with_zone.with_hosts(&hosts);
    assert_eq!(next_need("fe80::1%en0,nas", &with_both), Need::Nothing);
    assert_eq!(next_need("lan", &with_both), Need::Keyword(Keyword::Lan));

    // Refused before a lookup is reached.
    assert_eq!(next_need("10.0.0.*,nas", &none), Need::Nothing);
    assert_eq!(next_need("nas:0-x", &none), Need::Nothing);
    assert_eq!(next_need("10.0.0.1%en0,nas", &none), Need::Nothing);
    assert_eq!(next_need("", &none), Need::Nothing);

    assert_eq!(
        next_need_of_list(&["10.0.0.1", "lan,fe80::1%en0"], &[], &[]),
        Need::Keyword(Keyword::Lan)
    );
    let lan = lan(Ok("192.0.2.0/24".parse().expect("a block")));
    assert_eq!(
        next_need_of_list(&["10.0.0.1", "lan,fe80::1%en0"], &lan, &[]),
        Need::Zone("en0".to_string())
    );
    assert_eq!(
        next_need_of_list(&["10.0.0.1", "lan,fe80::1%en0"], &lan, &zones),
        Need::Nothing
    );
    assert_eq!(next_need_of_list(&["bogus!", "lan"], &[], &[]), Need::Nothing);
    assert_eq!(needs("10.0.0.1%en0"), Need::Nothing);
}

/// A builder can be copied where two continuations are tried.
#[test]
fn a_builder_is_copied_whole() {
    let mut builder = TargetMapBuilder::new(ports("80"));
    builder
        .push("192.0.2.1", &TargetContext::default())
        .expect("an address");
    let copy = builder.clone();
    assert_eq!(copy.accepted_count(), 1);
    assert_eq!(copy.gross_address_count(), 1);
    assert_eq!(copy.build().units.len(), 1);
}

/// A list is found again whole, and neither its start nor its continuation is taken
/// for it.
#[test]
fn an_index_remembers_lists_and_nothing_else() {
    let mut index = Index::new();
    assert_eq!(index.get(&[]), None);
    index.insert(&[80, 443], 0);
    index.insert(&[80], 1);
    index.insert(&[], 2);
    index.insert(&[u64::MAX, 0], 3);
    assert_eq!(index.get(&[80, 443]), Some(0));
    assert_eq!(index.get(&[80]), Some(1));
    assert_eq!(index.get(&[]), Some(2));
    assert_eq!(index.get(&[u64::MAX, 0]), Some(3));
    assert_eq!(index.get(&[u64::MAX]), None);
    assert_eq!(index.get(&[443, 80]), None);
    assert_eq!(index.get(&[80, 443, 1]), None);
    index.insert(&[80], 9);
    assert_eq!(index.get(&[80]), Some(9));
}

/// Two specifications have one list of numbers exactly where they name the same ports.
#[test]
fn specifications_are_told_apart_by_their_numbers() {
    assert_eq!(ports("80,443").numbers(), ports("443,80").numbers());
    assert_eq!(ports("1-5,6-9").numbers(), ports("1-9").numbers());
    assert_ne!(ports("80").numbers(), ports("81").numbers());
    assert_ne!(ports("80").numbers(), ports("u:80").numbers());
}

/// A long list over many specifications, each of them met twice, is grouped without a
/// scan of the groups for every line.
#[test]
fn many_specifications_are_grouped_each_into_its_own() {
    let mut builder = TargetMapBuilder::new(ports("80"));
    let ctx = TargetContext::default();
    for round in 0..2u32 {
        for port in 1..=20_000u32 {
            let token = format!("10.{round}.0.1:{port},{}", 40_000 + port);
            builder.push(&token, &ctx).expect("an address and ports");
            // Enough of the lines join a group that grouping goes on.
            let again = format!("10.9.9.9:{port},{}", 40_000 + port);
            builder.push(&again, &ctx).expect("an address and ports");
        }
    }
    assert_eq!(builder.group_count(), 20_000);
    let copy = builder.clone();
    assert_eq!(copy.group_count(), 20_000);
    assert!(builder
        .build()
        .units
        .iter()
        .all(|unit| unit.ips().len() == 3));
}
