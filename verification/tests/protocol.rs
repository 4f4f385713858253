//! The protocols a host carries above IP.

use zond_engine::model::host::protocol::{ip_protocol_name, IpProtocolState};

#[test]
fn the_states_rank_by_how_much_they_establish() {
    assert!(IpProtocolState::Unasked < IpProtocolState::OpenFiltered);
    assert!(IpProtocolState::OpenFiltered < IpProtocolState::Filtered);
    assert!(IpProtocolState::Filtered < IpProtocolState::Closed);
    assert!(IpProtocolState::Closed < IpProtocolState::Open);
}

#[test]
fn silence_is_not_acceptance() {
    assert!(!IpProtocolState::OpenFiltered.is_accepted());
    assert!(IpProtocolState::OpenFiltered.is_established());
    assert!(IpProtocolState::Open.is_accepted());
}

#[test]
fn a_protocol_nobody_asked_about_establishes_nothing() {
    assert!(!IpProtocolState::Unasked.is_established());
    for state in IpProtocolState::ALL {
        assert_eq!(
            state.is_established(),
            state != IpProtocolState::Unasked,
            "{state:?}"
        );
    }
}

#[test]
fn a_number_is_named_only_where_the_registry_names_it() {
    assert_eq!(ip_protocol_name(47), Some("gre"));
    assert_eq!(ip_protocol_name(6), Some("tcp"));
    assert_eq!(ip_protocol_name(253), None, "an experimental number");
    assert_eq!(
        ip_protocol_name(0),
        None,
        "the hop-by-hop header is not one"
    );
}

/// A later probe that learned less does not unlearn what an earlier one
/// established.
#[test]
fn a_weaker_probe_leaves_the_state_alone() {
    assert_eq!(
        IpProtocolState::Closed.or_more_definitive(IpProtocolState::OpenFiltered),
        IpProtocolState::Closed
    );
    assert_eq!(
        IpProtocolState::Closed.or_more_definitive(IpProtocolState::Open),
        IpProtocolState::Open
    );
}
