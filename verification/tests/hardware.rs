//! The hardware behind a host.

use zond_engine::model::host::hardware::{HardwareDescription, HardwareInfo, MAX_MACS_PER_HOST};
use zond_engine::model::mac::MacAddr;
use zond_engine::model::time::SystemTime;

/// A reading of the clock so many seconds after some start.
fn at(seconds: u64) -> SystemTime {
    SystemTime {
        nanos: 1_700_000_000_000_000_000 + i128::from(seconds) * 1_000_000_000,
    }
}

/// A sighting resolves a vendor through the OUI database and records the address
/// that produced it.
#[test]
fn a_sighting_records_the_address_and_resolves_its_vendor() {
    let mac = MacAddr::new(0x00, 0x0C, 0x29, 0xAB, 0xCD, 0xEF);
    let hw = HardwareInfo::new(mac, at(0));

    assert!(hw.vendor().is_some(), "a registered OUI");
    assert!(hw.macs().contains_key(&mac));
}

/// Which address a host is using now is answered from the times rather than from
/// the order of the addresses.
#[test]
fn the_most_recent_sighting_is_the_newest_one_not_the_last_inserted() {
    let newest = MacAddr::new(0x02, 0, 0, 0, 0, 0x01);
    let older = MacAddr::new(0x02, 0xff, 0, 0, 0, 0xff);

    let mut hw = HardwareInfo::new(older, at(0));
    hw.record_mac_seen_at(newest, at(60));

    assert_eq!(hw.most_recent_mac(), Some(newest));
}

/// The newest survive, since the oldest is what makes room.
#[test]
fn a_flood_of_addresses_is_held_to_the_bound_and_keeps_the_newest() {
    let mut hw = HardwareInfo::new(MacAddr::new(0x02, 0, 0, 0, 0, 0), at(0));

    let sightings = u32::try_from(MAX_MACS_PER_HOST).expect("a small bound") * 4;
    for i in 0..sightings {
        let b = i.to_be_bytes();
        hw.record_mac_seen_at(
            MacAddr::new(0x02, b[0], b[1], b[2], b[3], 0xff),
            at(u64::from(i) + 1),
        );
    }

    assert_eq!(hw.macs().len(), MAX_MACS_PER_HOST);

    let last = sightings - 1;
    let b = last.to_be_bytes();
    let newest = MacAddr::new(0x02, b[0], b[1], b[2], b[3], 0xff);
    assert_eq!(hw.most_recent_mac(), Some(newest), "the newest survives");
    assert!(
        !hw.macs().contains_key(&MacAddr::new(0x02, 0, 0, 0, 0, 0)),
        "and the first sighting is what made room"
    );
}

/// Two records that each fit the bound need not fit it together, so the union is
/// held to it as well.
#[test]
fn merging_two_records_holds_their_union_to_the_bound() {
    let fill = |first: u8| {
        let mut hw = HardwareInfo::new(MacAddr::new(0x02, first, 0, 0, 0, 0), at(0));
        for i in 0..u8::try_from(MAX_MACS_PER_HOST).expect("a small bound") {
            hw.record_mac_seen_at(
                MacAddr::new(0x02, first, 0, 0, 0, i),
                at(u64::from(i) + 1),
            );
        }
        hw
    };

    let mut a = fill(0xaa);
    let b = fill(0xbb);
    assert_eq!(a.macs().len(), MAX_MACS_PER_HOST);
    assert_eq!(b.macs().len(), MAX_MACS_PER_HOST);

    a.merge(b);

    assert_eq!(a.macs().len(), MAX_MACS_PER_HOST);
}

/// Pruning can empty the record, so the accessor that names the current address
/// has to survive that.
#[test]
fn a_record_with_no_addresses_left_names_none() {
    let mut hw = HardwareInfo::new(MacAddr::new(0x02, 0, 0, 0, 0, 1), at(0));
    hw.prune_stale_macs(at(1));
    assert_eq!(hw.macs().len(), 0);
    assert_eq!(hw.most_recent_mac(), None);
}

#[test]
fn pruning_forgets_the_addresses_not_seen_since_the_cutoff() {
    let recent = MacAddr::new(1, 1, 1, 1, 1, 1);
    let stale = MacAddr::new(2, 2, 2, 2, 2, 2);

    let mut hw = HardwareInfo::new(recent, at(3600));
    hw.record_mac_seen_at(stale, at(0));

    hw.prune_stale_macs(at(1800));

    assert_eq!(hw.macs().len(), 1);
    assert!(hw.macs().contains_key(&recent));
}

/// A service names a box there is no address for, and the record has to exist
/// without one.
#[test]
fn hardware_a_service_described_needs_no_address() {
    let described = HardwareInfo::described(HardwareDescription {
        vendor: Some("Merit LILIN"),
        product: Some("PDR M800"),
        cpe23: Some("cpe:/h:merit_lilin:pdr_m800"),
        ..HardwareDescription::default()
    })
    .expect("it names something");

    assert_eq!(described.vendor(), Some("Merit LILIN"));
    assert_eq!(described.product(), Some("PDR M800"));
    assert_eq!(described.most_recent_mac(), None);
}

#[test]
fn a_description_naming_nothing_is_not_recorded() {
    assert!(HardwareInfo::described(HardwareDescription::default()).is_none());
}

/// A vendor read from an address block names whoever made the network chip; one a
/// service stated names the box.
#[test]
fn a_stated_vendor_outranks_one_read_from_an_address() {
    let mut known = HardwareInfo::new(MacAddr::new(0x00, 0x1b, 0x21, 0x11, 0x22, 0x33), at(0));
    let described = HardwareInfo::described(HardwareDescription {
        vendor: Some("Check Point"),
        product: Some("Firewall-1"),
        ..HardwareDescription::default()
    })
    .expect("it names something");

    known.merge(described);

    assert_eq!(known.vendor(), Some("Check Point"));
    assert_eq!(known.product(), Some("Firewall-1"));
    assert_eq!(
        known.macs().len(),
        1,
        "merging a description must not lose the address"
    );
}

/// And a bare vendor with nothing behind it does not displace one the address block
/// supports.
#[test]
fn a_bare_stated_vendor_does_not_displace_the_registered_one() {
    let mut known = HardwareInfo::new(MacAddr::new(0x00, 0x1b, 0x21, 0x11, 0x22, 0x33), at(0));
    let before = known.vendor().map(str::to_string);
    let thin = HardwareInfo::described(HardwareDescription {
        vendor: Some("Unhelpful"),
        ..HardwareDescription::default()
    })
    .expect("it names something");

    known.merge(thin);

    assert_eq!(known.vendor().map(str::to_string), before);
}

#[test]
fn the_maker_of_a_sighting_fills_a_gap_and_no_more() {
    let mac = MacAddr::new(0x00, 0x1b, 0x21, 0, 0, 1);
    let other = MacAddr::new(0x00, 0x1b, 0x21, 0, 0, 2);
    let mut hw = HardwareInfo::made_by(mac, at(0), None);
    assert_eq!(hw.vendor(), None);
    hw.record_made_by(other, at(1), Some("Somebody".to_string()));
    assert_eq!(hw.vendor(), Some("Somebody"));
    hw.record_made_by(
        MacAddr::new(0x00, 0x1b, 0x21, 0, 0, 3),
        at(2),
        Some("Somebody else".to_string()),
    );
    assert_eq!(hw.vendor(), Some("Somebody"), "the first is kept");
    assert_eq!(hw.most_recent_mac(), Some(MacAddr::new(0x00, 0x1b, 0x21, 0, 0, 3)));
}

#[test]
fn the_registered_vendor_comes_from_the_newest_address_that_has_one() {
    let mut hw = HardwareInfo::new(MacAddr::new(0x00, 0x0C, 0x29, 0, 0, 1), at(0));
    let registered = hw.registered_vendor();
    assert!(registered.is_some());
    hw.record_mac_seen_at(MacAddr::new(0x02, 0, 0, 0, 0, 1), at(1));
    assert_eq!(hw.registered_vendor(), registered);
}

#[test]
fn a_description_answers_for_each_part_it_names() {
    let described = HardwareInfo::described(HardwareDescription {
        vendor: Some("Acme"),
        product: Some("Box"),
        family: Some("Boxes"),
        cpe23: Some("cpe:2.3:h:acme:box"),
        model: Some("B-1"),
        version: Some("2"),
        serial_number: Some("S/N 7"),
    })
    .expect("it names something");
    assert_eq!(described.family(), Some("Boxes"));
    assert_eq!(described.cpe23(), Some("cpe:2.3:h:acme:box"));
    assert_eq!(described.model(), Some("B-1"));
    assert_eq!(described.hardware_version(), Some("2"));
    assert_eq!(described.serial_number(), Some("S/N 7"));
    let again = described.clone();
    assert_eq!(again.model(), described.model());
}

/// Any detail beyond a vendor is a service describing a box: a serial number or a
/// revision alone is enough for the vendor beside it to win.
#[test]
fn a_vendor_with_a_serial_number_or_a_revision_outranks_the_registered_one() {
    let mac = MacAddr::new(0x00, 0x0C, 0x29, 0xAB, 0xCD, 0xEF);
    let mut numbered = HardwareInfo::new(mac, at(0));
    assert!(numbered.vendor().is_some());
    numbered.merge(
        HardwareInfo::described(HardwareDescription {
            vendor: Some("Acme"),
            serial_number: Some("S1"),
            ..HardwareDescription::default()
        })
        .expect("it names something"),
    );
    assert_eq!(numbered.vendor(), Some("Acme"));
    assert_eq!(numbered.serial_number(), Some("S1"));
    assert_eq!(numbered.macs().len(), 1);

    let mut revised = HardwareInfo::new(mac, at(0));
    revised.merge(
        HardwareInfo::described(HardwareDescription {
            vendor: Some("Acme"),
            version: Some("rev 2"),
            ..HardwareDescription::default()
        })
        .expect("it names something"),
    );
    assert_eq!(revised.vendor(), Some("Acme"));
    assert_eq!(revised.hardware_version(), Some("rev 2"));
}
