//! The names a host goes by.

use zond_engine::model::host::name::{HostName, NameKind, NameSource};

/// A name is kept as stated, less the whitespace around it.
#[test]
fn a_name_is_kept_as_the_host_stated_it() {
    let name = HostName::new(NameKind::Domain, NameSource::Ntlm, " corp.example ")
        .expect("an ordinary domain name");
    assert_eq!(name.name(), "corp.example");
    assert_eq!(name.to_string(), "corp.example (domain, NTLM)");
}

#[test]
fn a_field_that_names_nothing_is_refused() {
    for refused in ["", "   ", "dc01\ncorp", "dc01\0", &"a".repeat(256)] {
        assert_eq!(
            HostName::new(NameKind::Host, NameSource::Ldap, refused),
            None,
            "{refused:?}"
        );
    }
    assert!(HostName::new(NameKind::Host, NameSource::Ldap, &"a".repeat(255)).is_some());
}

/// The machine reads before what it belongs to, whichever arrived first.
#[test]
fn names_order_by_what_they_name_before_who_said_them() {
    let forest = HostName::new(NameKind::Forest, NameSource::Ntlm, "corp.example").unwrap();
    let host = HostName::new(NameKind::Host, NameSource::Ldap, "dc01.corp.example").unwrap();
    assert!(host < forest);
    assert_eq!(host.kind(), NameKind::Host);
    assert_eq!(host.source(), NameSource::Ldap);
}
