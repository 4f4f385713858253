//! # The names a host gives for itself
//!
//! A server answering a session setup names itself before anyone has
//! authenticated: its NetBIOS name, its DNS name, the domain it belongs to and
//! the forest that domain sits in. [`HostName`] is where they are kept: one name,
//! what it names, and which protocol said it.
//!
//! This is not the hostname, which is what name resolution answered for the
//! address. A name a service states is that service's claim about the machine.

use crate::ordered::{Ordered, Same};
use crate::text;
use vstd::prelude::*;

verus! {

/// The longest name kept, in characters: as long as a DNS name gets.
pub const MAX_NAME_CHARS: usize = 255;

/// What a name names.
#[non_exhaustive]
#[derive(Debug, Clone, Copy, PartialEq, Eq, PartialOrd, Ord, Hash, Structural)]
pub enum NameKind {
    /// The machine, by its DNS name.
    Host,
    /// The machine, by its NetBIOS name.
    NetbiosHost,
    /// The domain it belongs to, by its DNS name.
    Domain,
    /// The domain it belongs to, by its NetBIOS name.
    NetbiosDomain,
    /// The forest that domain sits in.
    Forest,
}

impl NameKind {
    /// Every kind, in declaration order.
    pub const ALL: [NameKind; 5] = [
        NameKind::Host,
        NameKind::NetbiosHost,
        NameKind::Domain,
        NameKind::NetbiosDomain,
        NameKind::Forest,
    ];

    /// Where a kind stands among them.
    pub open spec fn rank(self) -> int {
        match self {
            NameKind::Host => 0,
            NameKind::NetbiosHost => 1,
            NameKind::Domain => 2,
            NameKind::NetbiosDomain => 3,
            NameKind::Forest => 4,
        }
    }

    /// The word for it.
    pub open spec fn word(self) -> Seq<char> {
        match self {
            NameKind::Host => "host"@,
            NameKind::NetbiosHost => "NetBIOS host"@,
            NameKind::Domain => "domain"@,
            NameKind::NetbiosDomain => "NetBIOS domain"@,
            NameKind::Forest => "forest"@,
        }
    }

    /// The word for it.
    pub fn label(self) -> (label: &'static str)
        ensures
            label@ == self.word(),
    {
        match self {
            NameKind::Host => "host",
            NameKind::NetbiosHost => "NetBIOS host",
            NameKind::Domain => "domain",
            NameKind::NetbiosDomain => "NetBIOS domain",
            NameKind::Forest => "forest",
        }
    }

    /// Where a kind stands among them.
    fn place(self) -> (place: u8)
        ensures
            place == self.rank(),
    {
        match self {
            NameKind::Host => 0,
            NameKind::NetbiosHost => 1,
            NameKind::Domain => 2,
            NameKind::NetbiosDomain => 3,
            NameKind::Forest => 4,
        }
    }
}

/// Which protocol stated a name.
#[non_exhaustive]
#[derive(Debug, Clone, Copy, PartialEq, Eq, PartialOrd, Ord, Hash, Structural)]
pub enum NameSource {
    /// An NTLM challenge.
    Ntlm,
    /// An LDAP root entry.
    Ldap,
    /// A Kerberos reply.
    Kerberos,
    /// An SMB session setup.
    Smb,
}

impl NameSource {
    /// Every source, in declaration order.
    pub const ALL: [NameSource; 4] = [
        NameSource::Ntlm,
        NameSource::Ldap,
        NameSource::Kerberos,
        NameSource::Smb,
    ];

    /// Where a source stands among them.
    pub open spec fn rank(self) -> int {
        match self {
            NameSource::Ntlm => 0,
            NameSource::Ldap => 1,
            NameSource::Kerberos => 2,
            NameSource::Smb => 3,
        }
    }

    /// The word for it.
    pub open spec fn word(self) -> Seq<char> {
        match self {
            NameSource::Ntlm => "NTLM"@,
            NameSource::Ldap => "LDAP"@,
            NameSource::Kerberos => "Kerberos"@,
            NameSource::Smb => "SMB"@,
        }
    }

    /// The word for it.
    pub fn label(self) -> (label: &'static str)
        ensures
            label@ == self.word(),
    {
        match self {
            NameSource::Ntlm => "NTLM",
            NameSource::Ldap => "LDAP",
            NameSource::Kerberos => "Kerberos",
            NameSource::Smb => "SMB",
        }
    }

    /// Where a source stands among them.
    fn place(self) -> (place: u8)
        ensures
            place == self.rank(),
    {
        match self {
            NameSource::Ntlm => 0,
            NameSource::Ldap => 1,
            NameSource::Kerberos => 2,
            NameSource::Smb => 3,
        }
    }
}

/// One name a host gave for itself.
///
/// Ordered by what it names before who said it.
#[derive(Debug, PartialEq, Eq, PartialOrd, Ord, Hash)]
pub struct HostName {
    kind: NameKind,
    source: NameSource,
    name: String,
}

/// What a name says.
#[verifier::ext_equal]
pub struct Named {
    pub kind: NameKind,
    pub source: NameSource,
    pub name: Seq<char>,
}

/// Whether a text names something: it is there, no longer than a name is, and
/// holds no control character.
pub open spec fn names(text: Seq<char>) -> bool {
    &&& text.len() > 0
    &&& text.len() <= MAX_NAME_CHARS
    &&& forall|i: int| 0 <= i < text.len() ==> !text::is_control(#[trigger] text[i])
}

/// Whether one name comes before another.
pub open spec fn named_before(a: Named, b: Named) -> bool {
    ||| a.kind.rank() < b.kind.rank()
    ||| a.kind == b.kind && a.source.rank() < b.source.rank()
    ||| a.kind == b.kind && a.source == b.source && text::text_less(a.name, b.name)
}

/// A name as a line.
pub open spec fn rendered(named: Named) -> Seq<char> {
    named.name + " ("@ + named.kind.word() + ", "@ + named.source.word() + ")"@
}

impl View for HostName {
    type V = Named;

    closed spec fn view(&self) -> Named {
        Named { kind: self.kind, source: self.source, name: self.name@ }
    }
}

impl HostName {
    #[verifier::type_invariant]
    spec fn names_something(self) -> bool {
        names(self.name@)
    }

    /// A name as the host stated it, trimmed, or `None` where the field names
    /// nothing: empty, longer than a name gets, or holding a control character.
    #[must_use]
    pub fn new(kind: NameKind, source: NameSource, name: &str) -> (stated: Option<Self>)
        ensures
            match stated {
                Some(stated) => names(text::trimmed(name@)) && stated@ == (Named {
                    kind,
                    source,
                    name: text::trimmed(name@),
                }),
                None => !names(text::trimmed(name@)),
            },
    {
        let chars = text::chars_of(name);
        let trimmed = text::trim(chars.as_slice());
        if trimmed.len() == 0 || trimmed.len() > MAX_NAME_CHARS {
            return None;
        }
        let mut i: usize = 0;
        while i < trimmed.len()
            invariant
                trimmed@ == text::trimmed(name@),
                i <= trimmed@.len(),
                forall|j: int| 0 <= j < i ==> !text::is_control(#[trigger] trimmed@[j]),
            decreases trimmed@.len() - i,
        {
            if text::control(trimmed[i]) {
                return None;
            }
            i = i + 1;
        }
        Some(HostName { kind, source, name: text::text_of(trimmed) })
    }

    /// What it names.
    pub fn kind(&self) -> (kind: NameKind)
        ensures
            kind == self@.kind,
    {
        self.kind
    }

    /// Which protocol stated it.
    pub fn source(&self) -> (source: NameSource)
        ensures
            source == self@.source,
    {
        self.source
    }

    /// The name itself, which is never empty nor too long and stays on one line.
    pub fn name(&self) -> (name: &str)
        ensures
            name@ == self@.name,
            names(name@),
    {
        proof {
            use_type_invariant(self);
        }
        self.name.as_str()
    }

    /// The name as a line for a reader.
    pub fn to_string(&self) -> (line: String)
        ensures
            line@ == rendered(self@),
    {
        let mut line = self.name.as_str().to_owned();
        line.append(" (");
        line.append(self.kind.label());
        line.append(", ");
        line.append(self.source.label());
        line.append(")");
        line
    }
}

impl Same for HostName {
    type Model = Named;

    open spec fn model(&self) -> Named {
        self@
    }

    fn same(&self, other: &Self) -> (result: bool) {
        let same = self.kind == other.kind && self.source == other.source && text::same_text(
            self.name.as_str(),
            other.name.as_str(),
        );
        assert(same ==> self@ =~= other@);
        same
    }

    fn copied(&self) -> (result: Self) {
        proof {
            use_type_invariant(self);
        }
        HostName {
            kind: self.kind,
            source: self.source,
            name: self.name.as_str().to_owned(),
        }
    }
}

impl Clone for HostName {
    fn clone(&self) -> (name: Self)
        ensures
            name@ == self@,
    {
        self.copied()
    }
}

impl Ordered for HostName {
    open spec fn before(a: Named, b: Named) -> bool {
        named_before(a, b)
    }

    proof fn order_is_total(a: Named, b: Named) {
        text::lemma_text_order_is_total(a.name, b.name);
        if !named_before(a, b) && !named_before(b, a) {
            assert(a =~= b);
        }
    }

    proof fn order_is_transitive(a: Named, b: Named, c: Named) {
        if a.kind == b.kind && b.kind == c.kind && a.source == b.source && b.source == c.source {
            text::lemma_text_order_is_transitive(a.name, b.name, c.name);
        }
    }

    fn precedes(&self, other: &Self) -> (result: bool) {
        let (a, b): (u8, u8) = (self.kind.place(), other.kind.place());
        if a != b {
            return a < b;
        }
        let (a, b): (u8, u8) = (self.source.place(), other.source.place());
        if a != b {
            return a < b;
        }
        text::less_text(self.name.as_str(), other.name.as_str())
    }
}

} // verus!
