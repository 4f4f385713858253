//! Whether a host is there, and what says so.

use zond_engine::model::host::status::{
    EvidenceSource, HostStatus, StatusProtocol, StatusReason,
};
use zond_engine::model::ip::IpAddr;

fn ip(written: &str) -> IpAddr {
    IpAddr::parse(written).expect("a valid address")
}

#[test]
fn the_variant_order_ranks_evidence_from_weakest_to_strongest() {
    assert!(HostStatus::Unknown < HostStatus::Down);
    assert!(HostStatus::Down < HostStatus::Filtered);
    assert!(HostStatus::Filtered < HostStatus::Up);
}

#[test]
fn a_filtered_host_counts_as_alive_and_an_unanswered_one_does_not() {
    assert!(HostStatus::Up.is_alive());
    assert!(HostStatus::Filtered.is_alive());
    assert!(!HostStatus::Down.is_alive());
    assert!(!HostStatus::Unknown.is_alive());
}

#[test]
fn every_status_renders_under_its_own_name() {
    let rendered: Vec<String> = [
        HostStatus::Unknown,
        HostStatus::Down,
        HostStatus::Filtered,
        HostStatus::Up,
    ]
    .iter()
    .map(HostStatus::to_string)
    .collect();

    assert_eq!(rendered, ["Unknown", "Down", "Filtered", "Up"]);
}

#[test]
fn a_reason_records_its_protocol_and_who_it_came_from() {
    let unattributed = StatusReason::new(
        StatusProtocol::Custom("dns-probe".to_string()),
        "Resolved A record successfully",
    );

    assert_eq!(
        unattributed.protocol,
        StatusProtocol::Custom("dns-probe".to_string())
    );
    assert_eq!(
        unattributed.details.as_deref(),
        Some("Resolved A record successfully")
    );
    assert_eq!(
        unattributed.source,
        EvidenceSource::Host,
        "unqualified means the host answered for itself"
    );

    let router = ip("192.0.2.1");
    let attributed = StatusReason::basic(StatusProtocol::IcmpUnreachable).from_source(router);

    assert_eq!(attributed.source, EvidenceSource::Intermediary(router));
    assert_eq!(attributed.details, None);
}

/// Withholding reaches only a named sender the policy refuses.
#[test]
fn only_a_refused_sender_is_withheld() {
    let refused = ip("198.51.100.1");
    let allowed = ip("192.0.2.1");
    let keep = |address: &IpAddr| *address != refused;

    let mut named = EvidenceSource::Intermediary(refused);
    assert!(named.withhold(keep));
    assert_eq!(named, EvidenceSource::Withheld);
    assert_eq!(named.address(), None);

    for mut untouched in [
        EvidenceSource::Host,
        EvidenceSource::Intermediary(allowed),
        EvidenceSource::Withheld,
    ] {
        let before = untouched;
        assert!(!untouched.withhold(keep), "{before:?}");
        assert_eq!(untouched, before);
    }
}

#[test]
fn the_stronger_of_two_statuses_does_not_depend_on_their_order() {
    for a in HostStatus::ALL {
        for b in HostStatus::ALL {
            assert_eq!(a.or_stronger(b), b.or_stronger(a));
            assert!(a.or_stronger(b) >= a);
        }
    }
    assert!(HostStatus::Down.is_down());
    assert!(HostStatus::Up.is_up());
    assert!(EvidenceSource::Withheld.is_withheld());
}
