//! What a scan establishes about one host.

use zond_engine::model::host::evidence::{OsEvidence, OsSource};
use zond_engine::model::host::path::Hop;
use zond_engine::model::host::{
    Filtering, Host, HostStatus, NetworkRole, OsFingerprint, StatusProtocol, StatusReason,
    MAX_PORTS_PER_HOST, TARPIT_OPEN_PORTS,
};
use zond_engine::model::ip::addr::{IpAddr, Ipv4Addr};
use zond_engine::model::ip::scoped::Zone;
use zond_engine::model::mac::MacAddr;
use zond_engine::model::port::{Port, PortState, Protocol};
use zond_engine::model::time::{Duration, Instant, SystemTime};

const IP_ADDR: IpAddr = IpAddr::V4(Ipv4Addr { bits: 0xc0a8_0064 });

fn at(seconds: i128) -> SystemTime {
    SystemTime {
        nanos: seconds * 1_000_000_000,
    }
}

const NOW: SystemTime = SystemTime {
    nanos: 1_700_000_000_000_000_000,
};

fn ip(written: &str) -> IpAddr {
    IpAddr::parse(written).expect("an address")
}

/// A merge folds in what only one side of it knows.
#[test]
fn a_merge_keeps_what_only_the_other_record_learned() {
    let mut earlier = Host::new(IP_ADDR, NOW);
    earlier.set_status(HostStatus::Up, NOW);

    let mut later = Host::new(IP_ADDR, NOW);
    later.record_hop_counter(59);
    later.record_hop(
        Hop::answered(1, IpAddr::V4(Ipv4Addr::new(192, 168, 0, 1)), None),
        NOW,
    );
    later.record_hop(Hop::silent(2), NOW);

    earlier.merge(later);

    assert_eq!(
        earlier.path().hops().len(),
        2,
        "the trace ran between the two snapshots and only the later one has it"
    );
    assert_eq!(earlier.path().length(), Some(2));
    assert_eq!(earlier.telemetry().hop_counter(), Some(59));
}

/// Merging two paths settles each distance on its own terms.
#[test]
fn merging_paths_keeps_the_stronger_claim_at_every_distance() {
    let router = IpAddr::V4(Ipv4Addr::new(192, 168, 0, 1));

    let mut inherited = Host::new(IP_ADDR, NOW);
    inherited.record_hop(Hop::answered(1, router, None).as_inferred(), NOW);
    inherited.record_hop(Hop::silent(2), NOW);

    let mut measured = Host::new(IP_ADDR, NOW);
    measured.record_hop(
        Hop::answered(1, router, Some(Duration::from_millis(3))),
        NOW,
    );

    inherited.merge(measured);

    let hops = inherited.path().hops();
    assert_eq!(hops.len(), 2, "the distance only one side knew survives");
    assert!(!hops[0].inferred(), "a measurement replaces an inference");
    assert_eq!(hops[0].rtt(), Some(Duration::from_millis(3)));
}

/// A status only ever improves.
#[test]
fn a_status_is_never_lowered_by_the_plain_setter() {
    let mut host = Host::new(IP_ADDR, NOW);

    host.set_status(HostStatus::Up, NOW);
    host.set_status(HostStatus::Down, NOW);
    assert_eq!(host.status(), HostStatus::Up);

    let mut climbing = Host::new(IP_ADDR, NOW);
    climbing.set_status(HostStatus::Down, NOW);
    climbing.set_status(HostStatus::Up, NOW);
    assert_eq!(climbing.status(), HostStatus::Up);
}

/// A port number names two endpoints, and a scan can be asked about both.
#[test]
fn a_port_number_holds_one_endpoint_per_protocol() {
    let mut host = Host::new(IP_ADDR, NOW);
    host.add_port(Port::new(53, Protocol::Tcp, PortState::Closed), NOW);
    host.add_port(Port::new(53, Protocol::Udp, PortState::Open), NOW);

    let ports = host.ports();
    assert_eq!(ports.len(), 2, "TCP/53 and UDP/53 are two endpoints");
    assert_eq!(
        (ports[0].protocol(), ports[0].state()),
        (Protocol::Tcp, PortState::Closed)
    );
    assert_eq!(
        (ports[1].protocol(), ports[1].state()),
        (Protocol::Udp, PortState::Open),
        "neither finding was folded into the other"
    );

    // And a repeat of one of them still merges with its own protocol.
    host.add_port(Port::new(53, Protocol::Tcp, PortState::Open), NOW);
    assert_eq!(host.port_count(), 2);
    assert_eq!(
        host.ports().first().expect("tcp/53").state(),
        PortState::Open
    );
}

/// A report a reader diffs by eye has to be stable.
#[test]
fn a_host_prints_its_roles_in_one_order_however_they_were_recorded() {
    let expected = "192.168.0.100 (Up) [router, DNS, origin]";

    for order in [
        [
            NetworkRole::Router,
            NetworkRole::DnsServer,
            NetworkRole::Origin,
        ],
        [
            NetworkRole::Origin,
            NetworkRole::Router,
            NetworkRole::DnsServer,
        ],
        [
            NetworkRole::DnsServer,
            NetworkRole::Origin,
            NetworkRole::Router,
        ],
    ] {
        let mut host = Host::new(IP_ADDR, NOW);
        host.set_status(HostStatus::Up, NOW);
        for role in order {
            host.add_network_role(role, NOW);
        }

        let line = host.to_string();
        let (roles, _telemetry) = line.rsplit_once(" [").expect("telemetry follows the roles");
        assert_eq!(roles, expected, "recorded as {order:?}");
    }
}

/// The two markings that say not to read on take the space of the latency.
#[test]
fn a_tarpit_prints_the_marking_where_the_latency_would_be() {
    let mut host = Host::new(IP_ADDR, NOW);
    host.set_status(HostStatus::Up, NOW);
    host.add_network_role(NetworkRole::Tarpit, NOW);

    assert_eq!(host.to_string(), "192.168.0.100 (Up) [tarpit]");
}

/// A dropped port is a truncated list, and the caller is the only one that can
/// decide what to do about it.
#[test]
fn add_port_reports_whether_the_finding_was_recorded() {
    let mut host = Host::new(IP_ADDR, NOW);
    for i in 0..MAX_PORTS_PER_HOST {
        assert!(host.add_port(Port::new(i as u16, Protocol::Tcp, PortState::Closed), NOW));
    }

    assert!(!host.add_port(Port::new(1, Protocol::Udp, PortState::Closed), NOW));
    assert!(host.network_roles().contains(&NetworkRole::Truncated));
}

/// The cap is exact.
#[test]
fn the_truncation_marking_appears_only_once_a_port_is_refused() {
    let mut host = Host::new(IP_ADDR, NOW);
    for i in 0..MAX_PORTS_PER_HOST {
        host.add_port(Port::new(i as u16, Protocol::Tcp, PortState::Closed), NOW);
    }
    assert!(!host.network_roles().contains(&NetworkRole::Truncated));

    host.add_port(Port::new(1, Protocol::Udp, PortState::Closed), NOW);
    assert!(host.network_roles().contains(&NetworkRole::Truncated));
    assert_eq!(host.port_count(), MAX_PORTS_PER_HOST);
}

/// Nothing about a wide scan of an ordinary machine says either thing.
#[test]
fn a_wide_scan_of_an_ordinary_host_is_neither_truncated_nor_a_tarpit() {
    let mut host = Host::new(IP_ADDR, NOW);
    for port in 1..=1024u16 {
        let state = match port {
            53 | 80 => PortState::Open,
            _ => PortState::Closed,
        };
        assert!(host.add_port(Port::new(port, Protocol::Tcp, state), NOW));
    }

    assert_eq!(host.port_count(), 1024, "every finding was kept");
    assert!(host.network_roles().is_empty(), "and nothing was inferred");
}

/// A thousand open ports is not a machine.
#[test]
fn a_host_answering_open_on_everything_is_called_what_it_is() {
    let mut host = Host::new(IP_ADDR, NOW);
    for port in 0..TARPIT_OPEN_PORTS {
        host.add_port(Port::new(port as u16, Protocol::Tcp, PortState::Open), NOW);
    }

    assert!(host.network_roles().contains(&NetworkRole::Tarpit));
    assert!(!host.network_roles().contains(&NetworkRole::Truncated));
    assert_eq!(host.open_port_count(), TARPIT_OPEN_PORTS);
}

/// The count follows promotions, not insertions.
#[test]
fn the_open_count_follows_what_the_ports_became() {
    let mut host = Host::new(IP_ADDR, NOW);

    host.add_port(Port::new(22, Protocol::Tcp, PortState::Filtered), NOW);
    assert_eq!(host.open_port_count(), 0);

    host.add_port(Port::new(22, Protocol::Tcp, PortState::Open), NOW);
    assert_eq!(host.open_port_count(), 1, "promoted");

    host.add_port(Port::new(22, Protocol::Tcp, PortState::Open), NOW);
    assert_eq!(host.open_port_count(), 1, "and counted once");
}

/// A merge hears from nothing, so it must not move when the host was last heard
/// from.
#[test]
fn merging_two_records_keeps_the_span_they_were_observed_over() {
    let mut early = Host::new(IP_ADDR, NOW);
    early.restore_seen(at(10), at(20));

    let mut late = Host::new(IP_ADDR, NOW);
    late.restore_seen(at(30), at(40));

    early.merge(late);

    assert_eq!(early.first_seen(), at(10), "the earlier sighting");
    assert_eq!(early.last_seen(), at(40), "and the later one");
}

#[test]
fn merging_promotes_the_status_without_lowering_it() {
    let mut h1 = Host::new(IP_ADDR, NOW);
    h1.set_status(HostStatus::Down, NOW);

    let mut h2 = Host::new(IP_ADDR, NOW);
    h2.set_status(HostStatus::Filtered, NOW);

    h1.merge(h2);
    assert_eq!(h1.status(), HostStatus::Filtered);
}

/// Which of two records is folded into the other is an accident of arrival order.
#[test]
fn merging_two_records_of_one_host_applies_the_same_address_ranking() {
    let v4 = ip("192.0.2.10");
    let lla = ip("fe80::10");

    let mut into_link_local = Host::new(lla, NOW);
    into_link_local.merge(Host::new(v4, NOW));
    assert_eq!(into_link_local.primary_ip(), v4);

    let mut into_v4 = Host::new(v4, NOW);
    into_v4.merge(Host::new(lla, NOW));
    assert_eq!(
        into_v4.primary_ip(),
        v4,
        "and the ranking never moves back down"
    );

    assert_eq!(into_link_local.ips().len(), 2, "nothing is discarded");
    assert_eq!(into_v4.ips().len(), 2);
}

/// A device with two interfaces on one segment, or one randomizing its address, is
/// a single host with a history.
#[test]
fn every_mac_a_host_answers_under_stays_on_its_record() {
    let first = MacAddr::new(0x02, 0, 0, 0, 0, 1);
    let second = MacAddr::new(0x02, 0, 0, 0, 0, 2);

    let mut host = Host::new(IP_ADDR, NOW);
    host.record_mac(first, NOW);
    host.record_mac(second, NOW);

    let hardware = host.hardware().expect("a sighting was recorded");
    assert_eq!(hardware.macs().len(), 2);
    assert!(hardware.macs().contains_key(&first));
    assert!(hardware.macs().contains_key(&second));
    assert_eq!(
        host.mac(),
        Some(second),
        "and the newest is the one the host leads with"
    );
}

/// An overlap is not two ports, and the total that reaches the cap is the union.
#[test]
fn merging_two_records_applies_the_cap_to_their_union() {
    // The whole of TCP, which is exactly the cap and so is kept whole.
    let mut h1 = Host::new(IP_ADDR, NOW);
    for port in u16::MIN..=u16::MAX {
        h1.add_port(Port::new(port, Protocol::Tcp, PortState::Closed), NOW);
    }
    assert_eq!(h1.port_count(), MAX_PORTS_PER_HOST);
    assert!(!h1.network_roles().contains(&NetworkRole::Truncated));

    // An overlapping half, which adds nothing, and one endpoint that does.
    let mut h2 = Host::new(IP_ADDR, NOW);
    for port in 0..1_000u16 {
        h2.add_port(Port::new(port, Protocol::Tcp, PortState::Closed), NOW);
    }
    h2.add_port(Port::new(53, Protocol::Udp, PortState::Open), NOW);

    h1.merge(h2);

    assert_eq!(h1.port_count(), MAX_PORTS_PER_HOST, "the union, capped");
    assert!(h1.network_roles().contains(&NetworkRole::Truncated));
    assert!(
        !h1.network_roles().contains(&NetworkRole::Tarpit),
        "nothing that was kept is open, so nothing here is a tarpit"
    );
}

/// The address a dual-stack host is reported under must not depend on which probe
/// happened to answer first.
#[test]
fn the_address_a_host_leads_with_does_not_depend_on_reply_order() {
    let v4 = ip("192.0.2.10");
    let gua = ip("2001:db8::10");
    let lla = ip("fe80::10");

    // Every order the three replies could arrive in.
    for order in [
        [v4, gua, lla],
        [v4, lla, gua],
        [gua, v4, lla],
        [gua, lla, v4],
        [lla, v4, gua],
        [lla, gua, v4],
    ] {
        let mut host = Host::new(order[0], NOW);
        for ip in order {
            host.consider_primary_ip(ip, NOW);
        }

        assert_eq!(
            host.primary_ip(),
            v4,
            "arrival order {order:?} must not change which address leads"
        );
        assert_eq!(host.ips().len(), 3, "and none of them is discarded");
    }
}

/// The ranking's middle tier is "names the host from off its segment", and only
/// addresses that do belong in it.
#[test]
fn only_a_globally_scoped_address_outranks_a_link_local_one() {
    let lla = ip("fe80::10");

    for scoped in ["2001:db8::10", "fd00::10"] {
        let mut host = Host::new(lla, NOW);
        host.consider_primary_ip(ip(scoped), NOW);
        assert_eq!(
            host.primary_ip().to_string(),
            scoped,
            "{scoped} names the host"
        );
    }

    for useless in ["::1", "::", "ff02::1"] {
        let mut host = Host::new(lla, NOW);
        host.consider_primary_ip(ip(useless), NOW);
        assert_eq!(
            host.primary_ip(),
            lla,
            "{useless} does not identify the host to anyone"
        );
    }
}

#[test]
fn a_global_address_leads_over_a_link_local_one() {
    let gua = ip("2001:db8::10");
    let lla = ip("fe80::10");

    let mut from_lla = Host::new(lla, NOW);
    from_lla.consider_primary_ip(gua, NOW);
    assert_eq!(from_lla.primary_ip(), gua);

    let mut from_gua = Host::new(gua, NOW);
    from_gua.consider_primary_ip(lla, NOW);
    assert_eq!(
        from_gua.primary_ip(),
        gua,
        "and the ranking never moves back down"
    );
}

/// A tie keeps the incumbent.
#[test]
fn an_equally_good_address_does_not_displace_the_current_one() {
    let first = ip("2001:db8::1");
    let second = ip("2001:db8::2");

    let mut host = Host::new(first, NOW);
    assert!(!host.consider_primary_ip(second, NOW));
    assert_eq!(host.primary_ip(), first);
    assert!(
        host.ips().contains(&second),
        "it is still an address it has"
    );
}

/// The rest of what a merge must not lose.
#[test]
fn a_merge_keeps_the_filtering_and_the_evidence_of_the_other_record() {
    let evidence = OsEvidence {
        source: OsSource::Stack,
        family: Some("Linux".to_string()),
        device: None,
        vendor: None,
        product: None,
        version: None,
        kernel: None,
        confidence: 65,
        evidence: "ttl=64".to_string(),
    };
    let mut here = Host::new(IP_ADDR, NOW);
    let mut there = Host::new(IP_ADDR, NOW);
    there.add_filtering(Filtering::StatefulFilter, NOW);
    assert!(there.record_os_evidence(evidence.clone()));
    assert!(!there.record_os_evidence(evidence));
    there.set_os(OsFingerprint::new("Linux", 65), NOW);
    there.set_hostname(Some("printer".to_string()), NOW);
    there.set_zone(Zone::new(4, "en0"), NOW);
    there.add_reason(StatusReason::basic(StatusProtocol::Arp), NOW);

    here.merge(there);

    assert!(here.filtering().contains(&Filtering::StatefulFilter));
    assert_eq!(here.os_evidence().len(), 1);
    assert_eq!(here.os_evidence()[0].evidence, "ttl=64");
    assert_eq!(here.os().map(OsFingerprint::name), Some("Linux"));
    assert_eq!(here.hostname(), Some("printer"));
    assert_eq!(here.zone().map(Zone::name), Some("en0"));
    assert_eq!(here.reasons().len(), 1);
}

/// The incumbent name and interface stay in a merge, and only the setter replaces a
/// name.
#[test]
fn a_merge_keeps_the_incumbent_name_and_a_setter_replaces_it() {
    let mut here = Host::new(IP_ADDR, NOW);
    here.set_hostname(Some("first".to_string()), NOW);
    here.set_zone(Zone::new(4, "en0"), NOW);
    let mut there = Host::new(IP_ADDR, NOW);
    there.set_hostname(Some("second".to_string()), NOW);
    there.set_zone(Zone::new(5, "en1"), NOW);
    here.merge(there);
    assert_eq!(here.hostname(), Some("first"));
    assert_eq!(here.zone().map(Zone::index), Some(4));
    here.set_zone(Zone::new(6, "en2"), NOW);
    assert_eq!(here.zone().map(Zone::index), Some(4), "the first is kept");
    here.set_hostname(Some("third".to_string()), NOW);
    assert_eq!(here.hostname(), Some("third"));
    here.set_hostname(None, NOW);
    assert_eq!(here.hostname(), None, "cleared");
}

/// Reversed times are put in order, and a finding moves the later one.
#[test]
fn the_times_a_host_was_seen_are_kept_in_order() {
    let mut host = Host::new(IP_ADDR, at(5));
    assert_eq!((host.first_seen(), host.last_seen()), (at(5), at(5)));
    host.restore_seen(at(40), at(10));
    assert_eq!((host.first_seen(), host.last_seen()), (at(10), at(40)));
    host.record_hop_counter(57);
    assert_eq!(host.last_seen(), at(40), "a counter is no sighting");
    assert!(host.add_ip(ip("2001:db8::1"), at(50)));
    assert_eq!(host.last_seen(), at(50));
    host.extend_ips(&[ip("2001:db8::2"), ip("2001:db8::1")], at(60));
    assert_eq!(host.ips().len(), 3);
    assert_eq!(host.last_seen(), at(60));
}

/// A refused finding is not a sighting.
#[test]
fn evidence_is_kept_whether_or_not_the_status_moved() {
    let mut host = Host::new(IP_ADDR, NOW);
    host.record_evidence(
        HostStatus::Up,
        StatusReason::basic(StatusProtocol::Arp),
        at(1),
    );
    host.record_evidence(
        HostStatus::Down,
        StatusReason::basic(StatusProtocol::IcmpUnreachable).from_source(ip("192.0.2.1")),
        at(2),
    );
    host.record_evidence(
        HostStatus::Up,
        StatusReason::basic(StatusProtocol::Arp),
        at(3),
    );
    assert_eq!(host.status(), HostStatus::Up);
    assert!(host.is_alive());
    assert_eq!(host.reasons().len(), 2, "the same reason twice is one");
}

/// A link-local host is reached through the interface it was seen on.
#[test]
fn the_scoped_address_carries_the_interface_only_where_it_needs_one() {
    let mut host = Host::new(ip("fe80::1"), NOW);
    assert!(host.scoped_ip().is_unusable());
    host.set_zone(Zone::new(4, "en0"), NOW);
    assert_eq!(host.scoped_ip().to_string(), "fe80::1%en0");
    host.consider_primary_ip(ip("192.0.2.1"), NOW);
    assert_eq!(host.scoped_ip().to_string(), "192.0.2.1");
}

/// A line carries the operating system and the latency.
#[test]
fn a_host_reads_as_one_line() {
    let clock = Instant { nanos: 1 };
    let mut host =
        Host::new(IP_ADDR, NOW).with_rtt(clock, Duration::from_millis(10), NOW);
    assert_eq!(
        host.to_string(),
        "192.168.0.100 (Unknown) [avg=10ms, jitter=0ns]"
    );
    host.set_os(OsFingerprint::new("Linux", 65), NOW);
    host.add_rtts(
        clock,
        &[Duration::from_millis(20), Duration::from_millis(30)],
        NOW,
    );
    assert_eq!(
        host.to_string(),
        "192.168.0.100 (Unknown) - Linux [65%] [avg=20ms, jitter=10ms]"
    );
    assert_eq!(host.min_rtt(), Some(Duration::from_millis(10)));
    assert_eq!(host.max_rtt(), Some(Duration::from_millis(30)));
    assert_eq!(host.median_rtt(), Some(Duration::from_millis(20)));
    assert_eq!(host.average_rtt(), Some(Duration::from_millis(20)));
    host.clear_os(NOW);
    assert!(host.os().is_none());
    let mut wide = Host::new(IP_ADDR, NOW);
    wide.add_segment_wide_rtt(clock, Duration::from_millis(7), NOW);
    assert_eq!(wide.min_rtt(), Some(Duration::from_millis(7)));
}

/// Every role has its own word, and the vendor comes with the hardware.
#[test]
fn a_role_is_news_once_and_a_mac_names_its_maker() {
    let mut host = Host::new(IP_ADDR, NOW).with_mac(MacAddr::new(0x00, 0x0C, 0x29, 1, 2, 3), NOW);
    assert!(host.vendor().is_some());
    assert!(host.add_network_role(NetworkRole::Router, NOW));
    assert!(!host.add_network_role(NetworkRole::Router, NOW));
    let mut words: Vec<&str> = NetworkRole::ALL.iter().map(|role| role.label()).collect();
    words.sort_unstable();
    words.dedup();
    assert_eq!(words.len(), NetworkRole::ALL.len());
    assert_eq!(Filtering::ALL.len(), 4);
    let copy = host.clone();
    assert_eq!(copy.to_string(), host.to_string());
}

/// The telemetry closes the line, unless a marking says not to act on it.
#[test]
fn a_line_closes_with_the_latency_it_is_given() {
    let mut host = Host::new(IP_ADDR, NOW);
    host.set_status(HostStatus::Up, NOW);
    host.add_network_role(NetworkRole::Router, NOW);
    assert_eq!(
        host.line_with("avg=2ms, jitter=1ms"),
        format!(
            "192.168.0.100 (Up) [{}] [avg=2ms, jitter=1ms]",
            NetworkRole::Router.label()
        )
    );
    host.add_network_role(NetworkRole::Truncated, NOW);
    assert!(!host.line_with("avg=2ms, jitter=1ms").contains("avg"));
}
