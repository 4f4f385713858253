//! The route a probe took to reach a host.

use zond_engine::model::host::path::{Hop, NetworkPath};
use zond_engine::model::ip::{IpAddr, Ipv4Addr};
use zond_engine::model::time::Duration;

fn ip(last: u8) -> IpAddr {
    IpAddr::V4(Ipv4Addr::new(10, 0, 0, last))
}

/// Hops arrive in whatever order their replies do, and a path reads in order of
/// distance regardless.
#[test]
fn a_path_reads_in_order_of_distance_however_the_replies_arrived() {
    let mut path = NetworkPath::new();
    path.record(Hop::answered(3, ip(3), None));
    path.record(Hop::answered(1, ip(1), None));
    path.record(Hop::answered(2, ip(2), None));

    let distances: Vec<u8> = path.hops().iter().map(Hop::distance).collect();
    assert_eq!(distances, vec![1, 2, 3]);
    assert_eq!(path.length(), Some(3));
    assert_eq!(path.at(2), Some(ip(2)));
}

/// A router that will not answer leaves a hole, and the hole is the finding.
#[test]
fn a_silent_router_holds_its_place() {
    let mut path = NetworkPath::new();
    path.record(Hop::answered(1, ip(1), None));
    path.record(Hop::silent(2));
    path.record(Hop::answered(3, ip(3), None));

    assert_eq!(path.hops().len(), 3);
    assert_eq!(path.at(2), None);
    assert_eq!(path.length(), Some(3), "the target is still three away");
}

/// What is known about a distance only ever gets stronger.
#[test]
fn a_measurement_outranks_an_inference_and_an_answer_outranks_silence() {
    let measured = Hop::answered(2, ip(2), Some(Duration::from_millis(5)));
    let inferred = Hop::answered(2, ip(9), None).as_inferred();

    let mut upgrading = NetworkPath::new();
    upgrading.record(inferred);
    upgrading.record(measured);
    assert_eq!(upgrading.at(2), Some(ip(2)));
    assert!(!upgrading.hops()[0].inferred());

    let mut downgrading = NetworkPath::new();
    downgrading.record(measured);
    downgrading.record(inferred);
    assert_eq!(downgrading.at(2), Some(ip(2)), "a measurement is not lost");
    assert_eq!(
        downgrading.hops()[0].rtt(),
        Some(Duration::from_millis(5))
    );

    let mut filling = NetworkPath::new();
    filling.record(Hop::silent(2));
    filling.record(measured);
    assert_eq!(filling.at(2), Some(ip(2)));

    let mut keeping = NetworkPath::new();
    keeping.record(measured);
    keeping.record(Hop::silent(2));
    assert_eq!(
        keeping.at(2),
        Some(ip(2)),
        "silence does not erase an answer"
    );
}

/// An inferred hop carries no round-trip time, because the probe that produced one
/// was sent to somewhere else.
#[test]
fn an_inferred_hop_reports_no_timing_of_its_own() {
    let inferred = Hop::answered(4, ip(4), Some(Duration::from_millis(9))).as_inferred();

    assert!(inferred.inferred());
    assert_eq!(inferred.address(), Some(ip(4)));
    assert_eq!(inferred.rtt(), None);
}

#[test]
fn a_reply_that_arrives_twice_changes_nothing() {
    let hop = Hop::answered(2, ip(2), Some(Duration::from_millis(5)));
    let mut once = NetworkPath::new();
    assert!(once.is_empty());
    assert_eq!(once.length(), None);
    once.record(hop);
    let mut twice = once.clone();
    twice.record(hop);
    assert_eq!(once, twice);
}

/// A measurement replaces an inference, a measured silence an inferred answer
/// included, and an answer replaces a silence: of the two, the later is kept.
#[test]
fn a_measured_silence_and_an_inferred_answer_replace_each_other() {
    let inferred = Hop::answered(2, ip(9), None).as_inferred();
    let mut answer_first = NetworkPath::new();
    answer_first.record(inferred);
    answer_first.record(Hop::silent(2));
    assert_eq!(answer_first.at(2), None);
    assert!(!answer_first.hops()[0].inferred());

    let mut silence_first = NetworkPath::new();
    silence_first.record(Hop::silent(2));
    silence_first.record(inferred);
    assert_eq!(silence_first.at(2), Some(ip(9)));
}
