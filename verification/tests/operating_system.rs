//! What runs on a host, and how sure anything is of it.

use zond_engine::model::host::evidence::{
    EvidenceFile, OsEvidence, OsSource, MAX_OS_EVIDENCE,
};
use zond_engine::model::host::os::{
    join_readings, OsFingerprint, MAX_CPES_PER_OS, MAX_EVIDENCE_LEN,
};

/// The active series probe corroborates the passive reading exactly, so the two
/// tie, and the line that says what the counters do must not be lost.
#[test]
fn two_readings_of_one_system_are_both_kept() {
    let mut passive = OsFingerprint::new("Linux", 65)
        .with_evidence("syn-ack hops>=64 opts=M,S,T,N,W win=65160=45x1448 ws=7");
    passive.merge(OsFingerprint::new("Linux", 65).with_evidence(
        "syn-ack hops>=64 opts=M,S,T,N,W win=65160=45x1448 ws=7 \
                            id=zero isn=hashed ts=ticking",
    ));

    let evidence = passive.evidence().expect("evidence survives");
    assert!(
        evidence.contains("isn=hashed"),
        "the series reading is the one that cannot be got back: {evidence}"
    );
}

/// Three facts about one machine, each with what it is actually worth.
#[test]
fn a_finding_shows_the_family_the_release_and_the_kernel_apart() {
    let os = OsFingerprint::new("Debian", 93)
        .with_family("Linux")
        .with_generation("12")
        .with_kernel("6.1.0")
        .with_detail_accuracy(69);

    assert_eq!(
        os.to_string(),
        "Linux [93%] \u{b7} Debian 12 [69%] \u{b7} kernel 6.1.0 [69%]"
    );
}

#[test]
fn a_family_alone_renders_as_a_family_alone() {
    let os = OsFingerprint::new("Linux", 65).with_family("Linux");
    assert_eq!(os.to_string(), "Linux [65%]");
}

#[test]
fn a_kernel_without_a_release_is_still_reported() {
    let os = OsFingerprint::new("Linux", 84)
        .with_family("Linux")
        .with_kernel("6.1.0")
        .with_detail_accuracy(55);

    assert_eq!(os.to_string(), "Linux [84%] \u{b7} kernel 6.1.0 [55%]");
}

/// A tie between two different names keeps the winner's line alone.
#[test]
fn a_tie_between_two_names_does_not_borrow_the_losers_reasoning() {
    let mut linux = OsFingerprint::new("Linux", 65).with_evidence("a Linux-shaped reply");
    linux.merge(OsFingerprint::new("Windows", 65).with_evidence("a Windows-shaped reply"));

    assert_eq!(linux.name(), "Linux");
    assert_eq!(linux.evidence(), Some("a Linux-shaped reply"));
}

#[test]
fn the_same_reading_twice_is_recorded_once() {
    let mut host = OsFingerprint::new("Linux", 65).with_evidence("syn-ack hops>=64");
    host.merge(OsFingerprint::new("Linux", 65).with_evidence("syn-ack hops>=64"));

    assert_eq!(host.evidence(), Some("syn-ack hops>=64"));
}

/// Half a reading reads as a measurement claiming something it never said.
#[test]
fn a_long_accumulation_is_cut_between_readings_not_inside_one() {
    let reading = |n: usize| format!("reading {n} {}", "x".repeat(60));

    let mut host = OsFingerprint::new("Linux", 65).with_evidence(&reading(0));
    for n in 1..40 {
        host.merge(OsFingerprint::new("Linux", 65).with_evidence(&reading(n)));
    }

    let evidence = host.evidence().expect("evidence survives");
    assert!(evidence.len() <= MAX_EVIDENCE_LEN, "{}", evidence.len());
    for part in evidence.split(" | ") {
        assert!(
            part.starts_with("reading ") && part.ends_with('x'),
            "a reading was cut in half: {part:?}"
        );
    }
}

#[test]
fn an_accuracy_above_100_is_clamped_rather_than_kept() {
    assert_eq!(OsFingerprint::new("Linux", 200).accuracy(), 100);
    assert_eq!(OsFingerprint::new("Linux", 100).accuracy(), 100);
}

#[test]
fn high_confidence_starts_at_85() {
    assert!(OsFingerprint::new("Linux", 85).is_highly_confident());
    assert!(!OsFingerprint::new("Linux", 84).is_highly_confident());
}

#[test]
fn the_more_accurate_finding_names_the_host() {
    let mut banner = OsFingerprint::new("Linux", 50);
    banner.merge(OsFingerprint::new("Ubuntu", 90));

    assert_eq!(banner.name(), "Ubuntu");
    assert_eq!(banner.accuracy(), 90);
}

#[test]
fn a_tie_keeps_the_incumbent_and_fills_only_its_gaps() {
    let mut first = OsFingerprint::new("Linux", 80).with_family("Unix-like");

    first.merge(
        OsFingerprint::new("Linux", 80)
            .with_family("Something else")
            .with_generation("5.15.0"),
    );

    assert_eq!(first.family(), Some("Unix-like"), "already recorded");
    assert_eq!(first.generation(), Some("5.15.0"), "a gap, so filled");
}

#[test]
fn a_more_accurate_finding_takes_the_identity_but_not_at_the_cost_of_cpes() {
    let mut banner = OsFingerprint::new("Linux", 40).with_vendor("Canonical");
    banner.add_cpe("cpe:/o:canonical:ubuntu_linux");

    let mut stack = OsFingerprint::new("Ubuntu 22.04", 90);
    stack.add_cpe("cpe:/o:canonical:ubuntu_linux:22.04");

    banner.merge(stack);

    assert_eq!(banner.name(), "Ubuntu 22.04", "the surer name wins");
    assert_eq!(banner.accuracy(), 90);
    assert_eq!(
        banner.vendor(),
        Some("Canonical"),
        "and a field the surer finding left empty is not erased"
    );
    assert_eq!(banner.cpes().len(), 2, "both identifiers still apply");
}

#[test]
fn the_cpe_list_is_bounded_by_both_routes_into_it() {
    let mut os = OsFingerprint::new("Windows", 100);
    for i in 0..MAX_CPES_PER_OS * 2 {
        os.add_cpe(&format!("cpe:/o:ident:{i}"));
    }
    assert_eq!(os.cpes().len(), MAX_CPES_PER_OS);

    let mut other = OsFingerprint::new("Windows", 100);
    for i in 0..MAX_CPES_PER_OS {
        other.add_cpe(&format!("cpe:/o:other:{i}"));
    }
    os.merge(other);
    assert_eq!(os.cpes().len(), MAX_CPES_PER_OS);
}

#[test]
fn a_reading_that_extends_another_takes_its_place() {
    assert_eq!(join_readings("a", "b"), "a | b");
    assert_eq!(join_readings("a | b", "b | c"), "a | b | c");
    assert_eq!(join_readings("ttl=64", "ttl=64 win=7"), "ttl=64 win=7");
    assert_eq!(join_readings("ttl=64 win=7", "ttl=64"), "ttl=64 win=7");
}

fn banner(product: &str, confidence: u8, line: &str) -> OsEvidence {
    OsEvidence {
        source: OsSource::ServiceBanner,
        family: Some("Linux".to_string()),
        device: None,
        vendor: None,
        product: Some(product.to_string()),
        version: None,
        kernel: None,
        confidence,
        evidence: line.to_string(),
    }
}

/// Repeating an observation must never look like corroboration.
#[test]
fn the_same_claim_filed_again_is_one_claim() {
    let mut file = EvidenceFile::new();
    assert!(file.file(banner("Debian", 60, "ssh banner")));
    assert!(!file.file(banner("Debian", 60, "ssh banner")), "nothing new");
    assert_eq!(file.len(), 1);

    assert!(file.file(banner("Debian", 60, "smtp greeting")), "a new line");
    assert_eq!(file.len(), 1, "but not a new claim");
    assert_eq!(file.at(0).evidence, "ssh banner | smtp greeting");

    assert!(file.file(banner("Debian", 80, "ssh banner")), "a surer one");
    assert_eq!(file.at(0).confidence, 80);
    assert!(!file.file(banner("Debian", 10, "ssh banner")));
    assert_eq!(file.at(0).confidence, 80, "the strongest is kept");
}

/// Two claims of one kind of source are two pieces of evidence.
#[test]
fn different_claims_of_one_source_stand_side_by_side() {
    let mut file = EvidenceFile::new();
    file.file(banner("Ubuntu", 60, "ssh"));
    file.file(banner("Debian", 50, "snmp"));
    let products: Vec<_> = file
        .all()
        .into_iter()
        .map(|item| item.product.clone().unwrap())
        .collect();
    assert_eq!(products, ["Debian", "Ubuntu"], "in the order of the claims");
}

/// The ceiling only turns away something new.
#[test]
fn a_full_record_of_claims_turns_away_only_new_ones() {
    let mut file = EvidenceFile::new();
    for n in 0..MAX_OS_EVIDENCE {
        assert!(file.file(banner(&format!("product {n}"), 50, "line")));
    }
    assert!(!file.file(banner("one more", 50, "line")));
    assert_eq!(file.len(), MAX_OS_EVIDENCE);
    assert!(file.file(banner("product 0", 50, "another line")));
}

#[test]
fn the_parts_of_a_finding_are_what_was_given() {
    let os = OsFingerprint::new("Windows", 70)
        .with_device("phone")
        .with_detail_accuracy(150);
    assert_eq!(os.device(), Some("phone"));
    assert_eq!(os.detail_accuracy(), Some(100), "a percentage is one");
    assert_eq!(os.kernel(), None);
    let again = os.clone();
    assert_eq!(again.to_string(), os.to_string());
}

/// Fingerprints that are equal hash alike, so they can be told apart in a set.
#[test]
fn a_fingerprint_can_be_kept_in_a_set() {
    let mut seen = std::collections::HashSet::new();
    assert!(seen.insert(OsFingerprint::new("Linux", 65)));
    assert!(!seen.insert(OsFingerprint::new("Linux", 65)));
    assert!(seen.insert(OsFingerprint::new("Windows", 65)));
}
