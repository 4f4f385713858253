//! What a capture observed and counted.

use zond_engine::model::capture::{
    CaptureCounts, IpObservation, Ipv4Observation, Ipv6Observation,
};

#[test]
fn counts_add_field_by_field() {
    let total = CaptureCounts::sum(&[
        CaptureCounts {
            received: 10,
            dropped: 1,
            if_dropped: 0,
        },
        CaptureCounts {
            received: 5,
            dropped: 0,
            if_dropped: 2,
        },
    ]);

    assert_eq!(total.received, 15);
    assert_eq!(total.dropped, 1);
    assert_eq!(total.if_dropped, 2);
}

/// A wrapped total reads as a quiet capture, which is the one conclusion these
/// counts exist to prevent anybody reaching.
#[test]
fn a_total_too_large_to_represent_saturates_rather_than_wrapping() {
    let huge = CaptureCounts {
        received: u64::MAX,
        dropped: u64::MAX,
        if_dropped: u64::MAX,
    };
    let one = CaptureCounts {
        received: 1,
        dropped: 1,
        if_dropped: 1,
    };

    let total = huge + one;

    assert_eq!(total.received, u64::MAX);
    assert_eq!(total.dropped, u64::MAX);
    assert_eq!(total.if_dropped, u64::MAX);
}

#[test]
fn an_empty_sum_is_all_zeros() {
    let total = CaptureCounts::sum(&[]);
    assert_eq!(total, CaptureCounts::default());
}

#[test]
fn absorbing_a_count_is_adding_it() {
    let mut running = CaptureCounts {
        received: 7,
        dropped: 0,
        if_dropped: 1,
    };
    let more = CaptureCounts {
        received: 3,
        dropped: 4,
        if_dropped: 5,
    };
    let sum = running + more;
    assert_eq!(sum, more + running, "in either order");
    running.absorb(more);
    assert_eq!(running, sum);
    assert_eq!(
        running,
        CaptureCounts {
            received: 10,
            dropped: 4,
            if_dropped: 6,
        }
    );
}

#[test]
fn both_families_count_hops_down() {
    let v4 = Ipv4Observation {
        ttl: 57,
        identification: 9,
        dont_fragment: true,
        more_fragments: false,
        dscp: 0,
        ecn: 0,
    };
    let v6 = Ipv6Observation {
        hop_limit: 63,
        traffic_class: 0,
        flow_label: 0,
    };
    assert_eq!(IpObservation::V4(v4).remaining_hops(), 57);
    assert_eq!(IpObservation::V6(v6).remaining_hops(), 63);
    assert!(!IpObservation::V4(v4).is_fragment());
    assert!(!IpObservation::V6(v6).is_fragment());
    let part = Ipv4Observation {
        more_fragments: true,
        ..v4
    };
    assert!(IpObservation::V4(part).is_fragment());
}
