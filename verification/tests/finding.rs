//! What a detection claims, and what happens when it claims it again.

use zond_engine::model::confidence::Confidence;
use zond_engine::model::finding::{
    DetectionClass, DetectionId, Excerpt, Finding, FindingError, Reference, Severity, Version,
    MAX_EXCERPT_BYTES,
};

fn detection() -> DetectionId {
    DetectionId::new("redis-unauth-access", Version::new(1, 0, 0), "abc123").unwrap()
}

fn finding() -> Finding {
    Finding::new(
        detection(),
        "Unauthenticated Redis access",
        Severity::High,
        Confidence::Certain,
        DetectionClass::ActiveBenign,
    )
    .unwrap()
}

#[test]
fn severity_orders_weakest_to_strongest() {
    assert!(Severity::Info < Severity::Low);
    assert!(Severity::Low < Severity::Medium);
    assert!(Severity::Medium < Severity::High);
    assert!(Severity::High < Severity::Critical);
    assert_eq!(Severity::ALL.iter().max(), Some(&Severity::Critical));
    assert_eq!(Severity::Critical.as_score(), 100);
    assert_eq!(Severity::Info.as_score(), 0);
}

#[test]
fn an_empty_title_is_refused() {
    let err = Finding::new(
        detection(),
        "   ",
        Severity::High,
        Confidence::Certain,
        DetectionClass::ActiveBenign,
    );
    assert_eq!(err, Err(FindingError::EmptyTitle));
}

#[test]
fn an_empty_detection_id_is_refused() {
    let err = DetectionId::new("", Version::new(1, 0, 0), "hash");
    assert_eq!(err, Err(FindingError::EmptyId));
}

#[test]
fn an_over_length_excerpt_is_truncated_on_a_char_boundary() {
    // Two bytes each: twice over the cap.
    let big = "\u{e9}".repeat(MAX_EXCERPT_BYTES);
    let excerpt = Excerpt::new(&big);
    assert!(excerpt.as_str().len() <= MAX_EXCERPT_BYTES);
    assert!(excerpt.as_str().chars().all(|c| c == '\u{e9}'));
    assert_eq!(excerpt.as_str().len(), 2048);
}

#[test]
fn a_short_excerpt_is_kept_verbatim() {
    let excerpt = Excerpt::new("redis_version:7.2.4");
    assert_eq!(excerpt.as_str(), "redis_version:7.2.4");
}

#[test]
fn references_dedup_and_sort() {
    let f = finding()
        .with_reference(Reference::cwe(306))
        .with_reference(Reference::cwe(306))
        .with_reference(Reference::cve("CVE-2021-44228").unwrap());
    let refs: Vec<_> = f.references().into_iter().cloned().collect();
    assert_eq!(refs.len(), 2, "the duplicate CWE must fold away");
    // Cve sorts before Cwe by variant order, so the CVE leads.
    assert_eq!(refs[0], Reference::Cve("CVE-2021-44228".to_string()));
}

#[test]
fn a_malformed_cve_is_not_a_reference() {
    assert!(Reference::cve("CVE-2021-44228").is_some());
    assert!(Reference::cve("not-a-cve").is_none());
    assert!(Reference::cve("CVE-21-44228").is_none()); // year not four digits
    assert!(Reference::cve("CVE-2021-").is_none()); // no sequence
}

#[test]
fn version_parses_and_orders_numerically() {
    assert_eq!("8.3.1".parse(), Ok(Version::new(8, 3, 1)));
    assert!("8.3".parse::<Version>().is_err());
    assert!("8.3.1.0".parse::<Version>().is_err());
    assert!("8.x.1".parse::<Version>().is_err());
    // The order is component-wise numeric, not lexicographic: 8.10 > 8.3.
    assert!(Version::new(8, 10, 0) > Version::new(8, 3, 1));
}

#[test]
fn claim_id_keys_on_cve_when_present_else_title() {
    let v1 = finding().with_reference(Reference::cve("CVE-2021-44228").unwrap());
    let newer = Finding::new(
        DetectionId::new("redis-unauth-access", Version::new(2, 0, 0), "def456").unwrap(),
        "A reworded title",
        Severity::Critical,
        Confidence::Strong,
        DetectionClass::ActiveBenign,
    )
    .unwrap()
    .with_reference(Reference::cve("CVE-2021-44228").unwrap());
    assert_eq!(v1.claim_id(), newer.claim_id());

    // With no CVE, the title is the discriminator instead.
    let by_title = finding();
    assert_eq!(by_title.claim_id().detection(), "redis-unauth-access");
    assert_eq!(
        by_title.claim_id().subject(),
        "Unauthenticated Redis access"
    );
}

#[test]
fn corroborate_takes_the_stronger_and_newer_reading() {
    let mut base = finding() // High / Certain, v1.0.0
        .with_reference(Reference::cve("CVE-2022-0543").unwrap());
    let newer = Finding::new(
        DetectionId::new("redis-unauth-access", Version::new(1, 1, 0), "newhash").unwrap(),
        "Unauthenticated Redis access",
        Severity::Critical, // re-scored up
        Confidence::Strong, // weaker than Certain
        DetectionClass::ActiveBenign,
    )
    .unwrap()
    .with_reference(Reference::cve("CVE-2022-0543").unwrap()) // same claim
    .with_reference(Reference::cwe(306))
    .with_remediation("Require a password.");
    assert_eq!(base.claim_id(), newer.claim_id());

    assert!(base.corroborate(newer));
    assert_eq!(base.severity(), Severity::Critical, "newer severity wins");
    assert_eq!(
        base.confidence(),
        Confidence::Certain,
        "confidence only rises"
    );
    assert_eq!(base.detection().version(), Version::new(1, 1, 0));
    assert_eq!(base.remediation(), Some("Require a password."));
    let refs: Vec<_> = base.references().into_iter().cloned().collect();
    assert_eq!(refs.len(), 2, "references union, not replace");
    assert!(refs.contains(&Reference::Cwe(306)));
}

#[test]
fn an_older_account_does_not_supply_a_newer_versions_verdict() {
    let account = |version: Version, severity: Severity, title: &str| {
        Finding::new(
            DetectionId::new("redis-unauth-access", version, "hash").unwrap(),
            title,
            severity,
            Confidence::Probable,
            DetectionClass::ActiveBenign,
        )
        .unwrap()
    };

    let mut current = account(
        Version::new(2, 0, 0),
        Severity::Critical,
        "Redis, wide open",
    );
    let superseded = account(Version::new(1, 0, 0), Severity::Low, "Redis reachable");

    current.corroborate(superseded);

    assert_eq!(current.detection().version(), Version::new(2, 0, 0));
    assert_eq!(
        current.severity(),
        Severity::Critical,
        "the stamp and the verdict have to name one version"
    );
    assert_eq!(current.title(), "Redis, wide open");
}

#[test]
fn an_account_at_the_same_version_supplies_the_current_reading() {
    let account = |severity: Severity| {
        Finding::new(
            DetectionId::new("tls-weak-cipher", Version::new(1, 0, 0), "hash").unwrap(),
            "a weak cipher is offered",
            severity,
            Confidence::Probable,
            DetectionClass::Passive,
        )
        .unwrap()
    };

    let mut january = account(Severity::Low);
    assert!(january.corroborate(account(Severity::Critical)));
    assert_eq!(january.severity(), Severity::Critical);

    // And a claim that was downgraded is downgraded.
    let mut worse_before = account(Severity::Critical);
    assert!(worse_before.corroborate(account(Severity::Low)));
    assert_eq!(worse_before.severity(), Severity::Low);

    // The stamp does not move, there being nothing newer to move it to.
    assert_eq!(january.detection().version(), Version::new(1, 0, 0));
}

#[test]
fn an_older_account_fills_a_gap_it_cannot_overwrite() {
    let account = |version: Version| {
        Finding::new(
            DetectionId::new("redis-unauth-access", version, "hash").unwrap(),
            "Unauthenticated Redis access",
            Severity::High,
            Confidence::Probable,
            DetectionClass::ActiveBenign,
        )
        .unwrap()
    };

    let mut current = account(Version::new(2, 0, 0));
    let older = account(Version::new(1, 0, 0))
        .with_excerpt(Excerpt::new("-ERR unknown command"))
        .with_remediation("Require a password.");

    assert!(current.corroborate(older), "a gap was filled");
    assert_eq!(current.excerpt().as_str(), "-ERR unknown command");
    assert_eq!(current.remediation(), Some("Require a password."));

    // But it does not displace an excerpt the newer account already carried.
    let mut carrying = account(Version::new(2, 0, 0)).with_excerpt(Excerpt::new("READONLY"));
    carrying.corroborate(account(Version::new(1, 0, 0)).with_excerpt(Excerpt::new("older")));
    assert_eq!(carrying.excerpt().as_str(), "READONLY");
}

#[test]
fn corroborate_reports_no_change_for_an_identical_refiring() {
    let mut base = finding();
    assert!(!base.corroborate(finding()));
}

#[test]
fn each_refusal_says_what_was_missing() {
    assert_eq!(
        FindingError::EmptyId.to_string(),
        "a detection id cannot be empty"
    );
    assert_eq!(
        FindingError::EmptyTitle.to_string(),
        "a finding title cannot be empty"
    );
    let refused = Version::parse("8.3").unwrap_err();
    assert_eq!(
        refused.to_string(),
        "'8.3' is not a version: expected three dot-separated numbers, as in `1.2.3`"
    );
}

#[test]
fn a_version_reads_back_as_it_is_written() {
    let version = Version::new(10, 0, 65535);
    assert_eq!(version.to_string(), "10.0.65535");
    assert_eq!(Version::parse(&version.to_string()), Ok(version));
    assert!(Version::parse("1.0.65536").is_err());
    assert!(Version::new(1, 2, 3).older_than(&Version::new(1, 3, 0)));
    assert!(!Version::new(1, 2, 3).older_than(&Version::new(1, 2, 3)));
}

#[test]
fn a_confidence_is_the_stronger_of_two_and_has_a_score() {
    assert_eq!(
        Confidence::Weak.strongest(Confidence::Strong),
        Confidence::Strong
    );
    assert_eq!(
        Confidence::Certain.strongest(Confidence::Probable),
        Confidence::Certain
    );
    for pair in Confidence::ALL.windows(2) {
        assert!(pair[0].as_score() < pair[1].as_score());
    }
    assert_eq!(Confidence::Certain.as_score(), 100);
}
