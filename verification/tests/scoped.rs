//! Addresses that mean something only through an interface.

use zond_engine::model::ip::addr::{IpAddr, Ipv4Addr, Ipv6Addr};
use zond_engine::model::ip::scoped::{ScopedIp, ScopedIpError, SocketAddr, Zone};

fn link_local() -> IpAddr {
    IpAddr::V6(Ipv6Addr::new(0xfe80, 0, 0, 0, 0, 0, 0, 1))
}

fn global() -> IpAddr {
    IpAddr::V6(Ipv6Addr::new(0x2001, 0xdb8, 0, 0, 0, 0, 0, 1))
}

fn en0() -> Zone {
    Zone::new(4, "en0")
}

fn en1() -> Zone {
    Zone::new(5, "en1")
}

/// The same link-local address on two segments is two machines.
#[test]
fn the_same_link_local_on_two_interfaces_is_two_addresses() {
    assert_ne!(
        ScopedIp::scoped(link_local(), en0()),
        ScopedIp::scoped(link_local(), en1())
    );
}

/// A global address is the same address however it was reached.
#[test]
fn a_global_address_is_the_same_address_through_any_interface() {
    assert_eq!(
        ScopedIp::scoped(global(), en0()),
        ScopedIp::scoped(global(), en1())
    );
    assert_eq!(
        ScopedIp::scoped(global(), en0()),
        ScopedIp::unscoped(global())
    );
    assert!(ScopedIp::scoped(global(), en0()).zone().is_none());
}

#[test]
fn ipv4_never_carries_a_zone() {
    let v4 = IpAddr::V4(Ipv4Addr::new(192, 168, 1, 1));
    assert!(!ScopedIp::needs_zone(&v4));
    assert!(ScopedIp::scoped(v4, en0()).zone().is_none());
}

/// A zone is identified by its index, so the same interface recorded under two
/// spellings is still one interface.
#[test]
fn a_zone_is_its_index_not_its_name() {
    assert_eq!(Zone::new(4, "en0"), Zone::new(4, "utun4"));
    assert_ne!(Zone::new(4, "en0"), Zone::new(5, "en0"));
}

/// A link-local destination is reachable only when the socket address carries the
/// interface's scope id.
#[test]
fn a_scoped_address_produces_a_socket_address_with_its_scope_id() {
    let socket = ScopedIp::scoped(link_local(), en0())
        .to_socket_addr(443)
        .expect("a scoped link-local is usable");

    match socket.ip {
        IpAddr::V6(_) => assert_eq!(socket.scope_id, 4),
        IpAddr::V4(_) => panic!("an IPv6 address produced a V4 socket address"),
    }
    assert_eq!(socket.port, 443);
}

#[test]
fn an_unzoned_link_local_is_not_usable() {
    let bare = ScopedIp::unscoped(link_local());

    assert!(bare.is_unusable());
    assert_eq!(bare.to_socket_addr(443), None);
}

#[test]
fn an_ordinary_address_is_usable_without_a_zone() {
    let host = ScopedIp::unscoped(global());

    assert!(!host.is_unusable());
    assert_eq!(
        host.to_socket_addr(443),
        Some(SocketAddr::new(global(), 443))
    );
}

#[test]
fn a_scoped_address_renders_and_parses_the_way_the_operating_system_writes_it() {
    let scoped = ScopedIp::scoped(link_local(), en0());
    assert_eq!(scoped.to_string(), "fe80::1%en0");

    let parsed: ScopedIp = "fe80::1%en0".parse().unwrap();
    assert_eq!(parsed.addr(), link_local());
    assert_eq!(parsed.zone().map(Zone::name), Some("en0"));
}

/// Sorting a collection of addresses has to be by address, with the zone separating
/// link-locals that share a number.
#[test]
fn addresses_sort_by_address_with_the_zone_breaking_ties() {
    let mut addresses = vec![
        ScopedIp::scoped(link_local(), en1()),
        ScopedIp::unscoped(global()),
        ScopedIp::scoped(link_local(), en0()),
    ];
    addresses.sort_by(|a, b| a.partial_cmp(b).expect("any two compare"));

    assert_eq!(
        addresses,
        vec![
            ScopedIp::unscoped(global()),
            ScopedIp::scoped(link_local(), en0()),
            ScopedIp::scoped(link_local(), en1()),
        ]
    );
}

#[test]
fn an_unscoped_address_renders_bare() {
    assert_eq!(ScopedIp::unscoped(global()).to_string(), "2001:db8::1");
}

/// A zone on an address that cannot use one is a mistake worth reporting.
#[test]
fn a_zone_on_an_address_that_cannot_use_one_is_rejected() {
    assert!(matches!(
        "2001:db8::1%en0".parse::<ScopedIp>(),
        Err(ScopedIpError::ZoneOnUnscopedAddress(_, _))
    ));
    assert_eq!(
        "fe80::1%".parse::<ScopedIp>(),
        Err(ScopedIpError::EmptyZone)
    );
    assert!(matches!(
        "not-an-address%en0".parse::<ScopedIp>(),
        Err(ScopedIpError::NotAnAddress(_))
    ));
}

#[test]
fn a_refused_scoped_address_says_why() {
    for (written, message) in [
        (
            "2001:db8::1%en0",
            "2001:db8::1 is not a link-local address, so `%en0` means nothing",
        ),
        ("fe80::1%", "`%` with no interface after it"),
        ("nowhere", "not an IP address: nowhere"),
    ] {
        assert_eq!(
            ScopedIp::parse(written).unwrap_err().to_string(),
            message,
            "{written}"
        );
    }
}
