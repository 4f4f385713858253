//! Hardware addresses.

use zond_engine::model::mac::{allocated_to, vendor, MacAddr};

/// Lowercase hex, colon-separated.
#[test]
fn an_address_renders_as_lowercase_colon_separated_hex() {
    let mac = MacAddr::new(0x00, 0x1A, 0x2B, 0x3C, 0x4D, 0x5E);
    assert_eq!(mac.to_string(), "00:1a:2b:3c:4d:5e");
}

#[test]
fn octets_survive_the_conversions_frame_parsing_uses() {
    let octets = [0x11, 0x22, 0x33, 0x44, 0x55, 0x66];
    let mac = MacAddr::from(octets);

    assert_eq!(mac.octets(), octets);
    assert_eq!(<[u8; 6]>::from(mac), octets);
}

#[test]
fn an_address_round_trips_through_its_own_rendering() {
    let mac = MacAddr::new(0x00, 0x1A, 0x2B, 0x3C, 0x4D, 0x5E);
    assert_eq!(mac.to_string().parse(), Ok(mac));
}

#[test]
fn both_separators_and_either_case_are_accepted() {
    let mac = MacAddr::new(0x00, 0x1A, 0x2B, 0x3C, 0x4D, 0x5E);
    assert_eq!("00-1A-2B-3C-4D-5E".parse(), Ok(mac));
    assert_eq!("00:1a:2b:3c:4d:5e".parse(), Ok(mac));
}

#[test]
fn malformed_addresses_are_refused() {
    for input in [
        "",
        "00:1a:2b:3c:4d",
        "00:1a:2b:3c:4d:5e:6f",
        "zz:1a:2b:3c:4d:5e",
        "001a2b3c4d5e",
    ] {
        assert!(
            input.parse::<MacAddr>().is_err(),
            "'{input}' parsed as an address"
        );
    }
}

#[test]
fn the_locally_administered_and_multicast_bits_are_read() {
    assert!(MacAddr::new(0x02, 0, 0, 0, 0, 0).is_locally_administered());
    assert!(!MacAddr::new(0x00, 0x0C, 0x29, 0, 0, 0).is_locally_administered());
    assert!(MacAddr::new(0x01, 0, 0x5e, 0, 0, 0).is_multicast());
    assert!(!MacAddr::new(0x00, 0x0C, 0x29, 0, 0, 0).is_multicast());
}

/// The database is queried with the address as it is written, so a change to how a
/// MAC renders stops every vendor resolving and nothing else goes wrong to say so.
#[test]
fn a_registered_oui_resolves_to_a_vendor() {
    let vmware = MacAddr::new(0x00, 0x0C, 0x29, 0xAB, 0xCD, 0xEF);
    assert!(vendor(&vmware).is_some());
    assert_ne!(vendor(&vmware), Some(vmware.to_string()));
}

#[test]
fn a_locally_administered_address_has_no_vendor() {
    let local = MacAddr::new(0x02, 0x00, 0x00, 0x00, 0x00, 0x00);
    assert_eq!(vendor(&local), None);

    let registered_but_local = MacAddr::new(0x02, 0x0C, 0x29, 0xAB, 0xCD, 0xEF);
    assert!(registered_but_local.is_locally_administered());
    assert_eq!(vendor(&registered_but_local), None);
}

#[test]
fn an_address_assigned_locally_is_allocated_to_nobody_whatever_a_registry_says() {
    let company = Some("Somebody".to_string());
    let local = MacAddr::new(0x02, 0, 0, 0, 0, 1);
    let global = MacAddr::new(0x00, 0x0C, 0x29, 0, 0, 1);
    assert_eq!(allocated_to(&local, company.clone()), None);
    assert_eq!(allocated_to(&global, company.clone()), company);
    assert_eq!(allocated_to(&global, None), None);
}

#[test]
fn a_refused_address_is_named_in_the_message() {
    let refused = MacAddr::parse("00:1a").unwrap_err();
    assert_eq!(refused.input, "00:1a");
    assert_eq!(
        refused.to_string(),
        "'00:1a' is not a MAC address: expected six hex octets separated by ':' or '-'"
    );
}

/// An octet is two hexadecimal digits and nothing else.
#[test]
fn a_sign_is_no_digit() {
    assert!("00:1a:2b:3c:4d:+e".parse::<MacAddr>().is_err());
    assert!("+0:1a:2b:3c:4d:5e".parse::<MacAddr>().is_err());
}

/// Which separator and which case an address is written in is no part of it, mixed
/// within one address or not.
#[test]
fn every_separator_and_case_reads_as_the_same_octets() {
    let mac = MacAddr::new(0xaa, 0x1b, 0x2c, 0x3d, 0xef, 0x09);
    let written = mac.to_string();
    for form in [
        written.clone(),
        written.replace(':', "-"),
        written.to_uppercase(),
        written.replace(':', "-").to_uppercase(),
        "Aa:1B-2c:3D-eF:09".to_string(),
    ] {
        assert_eq!(form.parse(), Ok(mac), "{form}");
    }
}
