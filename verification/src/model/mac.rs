//! # Hardware addresses
//!
//! [`MacAddr`] is the 48-bit address a device answers under on its segment, and
//! [`vendor`] is who made the hardware, looked up from the address's
//! Organizationally Unique Identifier.
//!
//! The type is this crate's own rather than a packet library's, so that the
//! vocabulary a report is written in does not change when the layer that reads
//! frames does.

use crate::ordered::{Ordered, Same};
use crate::text;
use vstd::prelude::*;

verus! {

/// A 48-bit hardware address.
///
/// Ordered and hashable, so a host's addresses can be kept in a sorted map and
/// rendered in the same order twice.
#[derive(Debug, Clone, Copy, PartialEq, Eq, Hash, PartialOrd, Ord, Structural)]
pub struct MacAddr {
    a: u8,
    b: u8,
    c: u8,
    d: u8,
    e: u8,
    f: u8,
}

impl View for MacAddr {
    type V = Seq<u8>;

    /// The six octets, most significant first.
    closed spec fn view(&self) -> Seq<u8> {
        seq![self.a, self.b, self.c, self.d, self.e, self.f]
    }
}

/// One octet in two hexadecimal digits, lowercase.
pub open spec fn hex_pair(octet: u8) -> Seq<char> {
    seq![text::digit_char((octet / 16) as nat), text::digit_char((octet % 16) as nat)]
}

/// The first `n` octets, each in two hexadecimal digits, with `:` between them.
pub open spec fn hex_pairs(octets: Seq<u8>, n: int) -> Seq<char>
    decreases n,
{
    if n <= 0 {
        Seq::empty()
    } else if n == 1 {
        hex_pair(octets[0])
    } else {
        hex_pairs(octets, n - 1).push(':') + hex_pair(octets[n - 1])
    }
}

/// The octet two hexadecimal digits write.
pub open spec fn octet_of(part: Seq<char>) -> Option<nat> {
    if part.len() == 2 {
        text::digits_value(part, 16, 0xff)
    } else {
        None
    }
}

/// The separators an address may be written with.
pub open spec fn separators() -> Seq<char> {
    seq![':', '-']
}

/// The octets a text writes, if it writes a hardware address: exactly six parts,
/// an octet each, with `:` or `-` between them.
pub open spec fn octets_of(written: Seq<char>) -> Option<Seq<u8>> {
    let parts = text::split_on(text::trimmed(written), separators());
    if parts.len() == 6 && forall|i: int| 0 <= i < 6 ==> octet_of(#[trigger] parts[i]) is Some {
        Some(Seq::new(6, |i: int| octet_of(parts[i])->0 as u8))
    } else {
        None
    }
}

/// Whether an address was assigned by whoever is using it.
pub open spec fn assigned_locally(octets: Seq<u8>) -> bool {
    (octets[0] / 2) % 2 == 1
}

impl MacAddr {
    /// Two addresses of the same octets are the same address.
    pub proof fn lemma_octets_decide(a: MacAddr, b: MacAddr)
        ensures
            a@ == b@ ==> a == b,
            a@.len() == 6,
    {
        if a@ == b@ {
            assert(a@[0] == b@[0] && a@[1] == b@[1] && a@[2] == b@[2]);
            assert(a@[3] == b@[3] && a@[4] == b@[4] && a@[5] == b@[5]);
        }
    }

    /// An address of six octets, most significant first.
    pub fn new(a: u8, b: u8, c: u8, d: u8, e: u8, f: u8) -> (mac: Self)
        ensures
            mac@ == seq![a, b, c, d, e, f],
    {
        Self { a, b, c, d, e, f }
    }

    /// The six octets, most significant first.
    pub fn octets(self) -> (octets: [u8; 6])
        ensures
            octets@ == self@,
    {
        let octets: [u8; 6] = [self.a, self.b, self.c, self.d, self.e, self.f];
        assert(octets@ =~= self@);
        octets
    }

    /// Whether this address was assigned by whoever is using it rather than
    /// allocated to a manufacturer, which the second-least-significant bit of
    /// the first octet marks.
    ///
    /// There is no OUI to look up for one of these, so [`vendor`] returns
    /// `None`. A device randomizing its address produces them.
    pub fn is_locally_administered(self) -> (local: bool)
        ensures
            local == assigned_locally(self@),
    {
        let first: u8 = self.a;
        assert((first & 0b0000_0010 != 0) == ((first / 2) % 2 == 1)) by (bit_vector);
        first & 0b0000_0010 != 0
    }

    /// Whether this address is a group address rather than one interface's,
    /// which the least significant bit of the first octet marks.
    pub fn is_multicast(self) -> (group: bool)
        ensures
            group == (self@[0] % 2 == 1),
    {
        let first: u8 = self.a;
        assert((first & 0b0000_0001 != 0) == (first % 2 == 1)) by (bit_vector);
        first & 0b0000_0001 != 0
    }

    /// Reads `00:1a:2b:3c:4d:5e`, in either case, and the same address written
    /// with `-` between the octets.
    ///
    /// Both separators because both are in circulation: the colon form is what
    /// Unix tooling prints, and the hyphen form is what Windows and most printed
    /// labels use.
    pub fn parse(written: &str) -> (mac: Result<Self, MacAddrParseError>)
        ensures
            match mac {
                Ok(mac) => octets_of(written@) == Some(mac@),
                Err(e) => octets_of(written@) is None && e.input@ == written@,
            },
    {
        let chars = text::chars_of(written);
        let trimmed = text::trim(chars.as_slice());
        let seps: [char; 2] = [':', '-'];
        assert(seps@ =~= separators());
        let parts = text::split(trimmed, &seps);
        let ghost pieces = text::pieces_of(parts@);
        if parts.len() != 6 {
            return Err(MacAddrParseError { input: written.to_owned() });
        }
        let mut octets: Vec<u8> = Vec::new();
        let mut i: usize = 0;
        while i < 6
            invariant
                pieces == text::pieces_of(parts@),
                pieces == text::split_on(text::trimmed(written@), separators()),
                parts@.len() == 6,
                i <= 6,
                octets@.len() == i,
                forall|j: int|
                    0 <= j < i ==> octet_of(#[trigger] pieces[j]) == Some(octets@[j] as nat),
            decreases 6 - i,
        {
            assert(pieces[i as int] == parts@[i as int]@);
            let part = &parts[i];
            if part.len() != 2 {
                return Err(MacAddrParseError { input: written.to_owned() });
            }
            match text::parse_digits(part.as_slice(), 16, 0xff) {
                Some(value) => {
                    octets.push(value as u8);
                },
                None => {
                    return Err(MacAddrParseError { input: written.to_owned() });
                },
            }
            i = i + 1;
        }
        let mac = Self {
            a: octets[0],
            b: octets[1],
            c: octets[2],
            d: octets[3],
            e: octets[4],
            f: octets[5],
        };
        proof {
            assert(mac@ =~= octets@);
            assert forall|j: int| 0 <= j < 6 implies octet_of(#[trigger] pieces[j]) is Some by {}
            assert(octets_of(written@)->0 =~= mac@);
        }
        Ok(mac)
    }

    /// Lowercase hexadecimal, colon-separated.
    ///
    /// Two things read it rather than a person only: [`vendor`] queries the OUI
    /// database with this exact text, and a report prints it for a reader who
    /// will paste it into their own tooling.
    pub fn to_string(&self) -> (written: String)
        ensures
            written@ == hex_pairs(self@, 6),
    {
        let octets = self.octets();
        let mut written = String::new();
        let mut i: usize = 0;
        while i < 6
            invariant
                octets@ == self@,
                octets@.len() == 6,
                i <= 6,
                written@ == hex_pairs(self@, i as int),
            decreases 6 - i,
        {
            if i > 0 {
                written.push(':');
            }
            let octet: u8 = octets[i];
            written.push(text::digit_text(octet / 16));
            written.push(text::digit_text(octet % 16));
            assert(written@ =~= hex_pairs(self@, i + 1));
            i = i + 1;
        }
        written
    }

    /// An address survives a trip through a report and back: what is written
    /// reads back as the octets it was.
    pub proof fn lemma_written_reads_back(octets: Seq<u8>)
        requires
            octets.len() == 6,
        ensures
            octets_of(hex_pairs(octets, 6)) == Some(octets),
    {
        let s = hex_pairs(octets, 6);
        lemma_pairs_split(octets, 6);
        let parts = text::split_on(s, separators());
        assert(s.len() > 0 && !text::is_space(s[0]) && !text::is_space(s.last())) by {
            lemma_pairs_start(octets, 6);
            lemma_hex_pair(octets[5]);
            assert(s.last() == hex_pair(octets[5])[1]);
        }
        text::lemma_trimmed_is_identity(s);
        assert forall|i: int| 0 <= i < 6 implies octet_of(#[trigger] parts[i]) == Some(
            octets[i] as nat,
        ) by {
            lemma_hex_pair(octets[i]);
        }
        assert(octets_of(s)->0 =~= octets);
    }
}

/// A character as an address is written with it: which separator and which case are
/// put aside.
pub open spec fn plain(c: char) -> char {
    if c == '-' {
        ':'
    } else if 'A' <= c <= 'Z' {
        (c as nat + 32) as char
    } else {
        c
    }
}

/// A text with each `:` written `-`.
pub open spec fn hyphenated(s: Seq<char>) -> Seq<char> {
    text::restyled(
        s,
        |c: char|
            if c == ':' {
                '-'
            } else {
                c
            },
    )
}

/// A text in upper case.
pub open spec fn capitalized(s: Seq<char>) -> Seq<char> {
    text::restyled(
        s,
        |c: char|
            if 'a' <= c <= 'z' {
                (c as nat - 32) as char
            } else {
                c
            },
    )
}

/// Texts that differ in nothing but separators and case write the same octets, or
/// neither writes an address.
pub proof fn lemma_separators_and_case_are_no_part_of_an_address(a: Seq<char>, b: Seq<char>)
    requires
        a.len() == b.len(),
        forall|i: int| 0 <= i < a.len() ==> plain(#[trigger] a[i]) == plain(b[i]),
    ensures
        octets_of(a) == octets_of(b),
{
    let style = |c: char| plain(c);
    assert(text::restyled(a, style) =~= text::restyled(b, style));
    lemma_plain_reads_alike(a);
    lemma_plain_reads_alike(b);
}

/// An address written with hyphens, in upper case, or both reads back as the octets it
/// was, as the form it is written in here does.
pub proof fn lemma_either_separator_and_case_reads_back(octets: Seq<u8>)
    requires
        octets.len() == 6,
    ensures
        octets_of(hyphenated(hex_pairs(octets, 6))) == Some(octets),
        octets_of(capitalized(hex_pairs(octets, 6))) == Some(octets),
        octets_of(capitalized(hyphenated(hex_pairs(octets, 6)))) == Some(octets),
{
    let s = hex_pairs(octets, 6);
    MacAddr::lemma_written_reads_back(octets);
    lemma_separators_and_case_are_no_part_of_an_address(hyphenated(s), s);
    lemma_separators_and_case_are_no_part_of_an_address(capitalized(s), s);
    lemma_separators_and_case_are_no_part_of_an_address(capitalized(hyphenated(s)), s);
}

proof fn lemma_plain_reads_alike(s: Seq<char>)
    ensures
        octets_of(text::restyled(s, |c: char| plain(c))) == octets_of(s),
{
    let style = |c: char| plain(c);
    assert forall|c: char| separators().contains(#[trigger] style(c)) == separators().contains(
        c,
    ) by {
        assert(separators()[0] == ':' && separators()[1] == '-');
    }
    let trimmed = text::trimmed(s);
    text::lemma_restyled_is_cut_alike(s, style, separators());
    text::lemma_restyled_is_cut_alike(trimmed, style, separators());
    let parts = text::split_on(trimmed, separators());
    let plainer = text::split_on(text::restyled(trimmed, style), separators());
    assert forall|i: int| 0 <= i < parts.len() implies octet_of(#[trigger] plainer[i]) == octet_of(
        parts[i],
    ) by {
        assert(plainer[i] == text::restyled(parts[i], style));
        lemma_plain_octet(parts[i]);
    }
    assert(octets_of(text::restyled(s, style)) is Some == octets_of(s) is Some) by {
        if octets_of(s) is Some {
            assert forall|i: int| 0 <= i < 6 implies octet_of(#[trigger] plainer[i]) is Some by {
                assert(octet_of(parts[i]) is Some);
            }
        }
        if octets_of(text::restyled(s, style)) is Some {
            assert forall|i: int| 0 <= i < 6 implies octet_of(#[trigger] parts[i]) is Some by {
                assert(octet_of(plainer[i]) is Some);
            }
        }
    }
    if octets_of(s) is Some {
        assert(octets_of(text::restyled(s, style))->0 =~= octets_of(s)->0);
    }
}

proof fn lemma_plain_octet(part: Seq<char>)
    ensures
        octet_of(text::restyled(part, |c: char| plain(c))) == octet_of(part),
{
    let style = |c: char| plain(c);
    let other = text::restyled(part, style);
    if part.len() == 2 {
        assert(text::digit_of(other[0]) == text::digit_of(part[0]));
        assert(text::digit_of(other[1]) == text::digit_of(part[1]));
        assert(text::all_digits(other, 16) == text::all_digits(part, 16)) by {
            if text::all_digits(part, 16) {
                assert forall|i: int| 0 <= i < other.len() implies text::digit_of(
                    #[trigger] other[i],
                ) < 16 by {
                    assert(text::digit_of(part[i]) < 16);
                }
            }
            if text::all_digits(other, 16) {
                assert forall|i: int| 0 <= i < part.len() implies text::digit_of(
                    #[trigger] part[i],
                ) < 16 by {
                    assert(text::digit_of(other[i]) < 16);
                }
            }
        }
        assert(part.drop_last().drop_last() =~= Seq::empty());
        assert(other.drop_last().drop_last() =~= Seq::empty());
        reveal_with_fuel(text::number_of, 3);
        assert(part.drop_last().last() == part[0] && other.drop_last().last() == other[0]);
        assert(text::number_of(other, 16) == text::number_of(part, 16));
    }
}

/// An octet's two digits write that octet, and neither separates.
proof fn lemma_hex_pair(octet: u8)
    ensures
        hex_pair(octet).len() == 2,
        octet_of(hex_pair(octet)) == Some(octet as nat),
        forall|i: int|
            0 <= i < 2 ==> !separators().contains(#[trigger] hex_pair(octet)[i]) && !text::is_space(
                hex_pair(octet)[i],
            ),
{
    let pair = hex_pair(octet);
    let (high, low) = ((octet / 16) as nat, (octet % 16) as nat);
    assert(text::digit_of(pair[0]) == high && text::digit_of(pair[1]) == low);
    assert(pair.drop_last() =~= seq![pair[0]]);
    assert(pair.drop_last().drop_last() =~= Seq::empty());
    reveal_with_fuel(text::number_of, 3);
    assert(text::number_of(pair, 16) == high * 16 + low);
    assert forall|i: int| 0 <= i < 2 implies !separators().contains(#[trigger] pair[i])
        && !text::is_space(pair[i]) && text::digit_of(pair[i]) < 16 by {
        if separators().contains(pair[i]) {
            let j = choose|j: int| 0 <= j < 2 && separators()[j] == pair[i];
            assert(separators()[j] == ':' || separators()[j] == '-');
        }
    }
}

proof fn lemma_pairs_start(octets: Seq<u8>, n: int)
    requires
        1 <= n <= octets.len(),
    ensures
        hex_pairs(octets, n).len() >= 2,
        !text::is_space(hex_pairs(octets, n)[0]),
    decreases n,
{
    lemma_hex_pair(octets[0]);
    if n > 1 {
        lemma_pairs_start(octets, n - 1);
    }
}

proof fn lemma_pairs_split(octets: Seq<u8>, n: int)
    requires
        1 <= n <= octets.len(),
    ensures
        text::split_on(hex_pairs(octets, n), separators()) == Seq::new(
            n as nat,
            |i: int| hex_pair(octets[i]),
        ),
    decreases n,
{
    let last = hex_pair(octets[n - 1]);
    lemma_hex_pair(octets[n - 1]);
    text::lemma_split_without_separator(last, separators());
    if n > 1 {
        lemma_pairs_split(octets, n - 1);
        assert(separators()[0] == ':');
        text::lemma_split_of_joined(hex_pairs(octets, n - 1), ':', last, separators());
    }
    assert(text::split_on(hex_pairs(octets, n), separators()) =~= Seq::new(
        n as nat,
        |i: int| hex_pair(octets[i]),
    ));
}

impl From<[u8; 6]> for MacAddr {
    fn from(octets: [u8; 6]) -> (mac: Self)
        ensures
            mac@ == octets@,
    {
        let mac = Self {
            a: octets[0],
            b: octets[1],
            c: octets[2],
            d: octets[3],
            e: octets[4],
            f: octets[5],
        };
        assert(mac@ =~= octets@);
        mac
    }
}

impl vstd::std_specs::convert::FromSpecImpl<[u8; 6]> for MacAddr {
    open spec fn obeys_from_spec() -> bool {
        true
    }

    closed spec fn from_spec(octets: [u8; 6]) -> Self {
        MacAddr {
            a: octets@[0],
            b: octets@[1],
            c: octets@[2],
            d: octets@[3],
            e: octets@[4],
            f: octets@[5],
        }
    }
}

impl From<MacAddr> for [u8; 6] {
    fn from(mac: MacAddr) -> (octets: [u8; 6])
        ensures
            octets@ == mac@,
    {
        let octets = mac.octets();
        assert forall|other: [u8; 6]| #[trigger] other@ == mac@ implies other == octets by {
            assert(other =~= octets);
        }
        octets
    }
}

impl vstd::std_specs::convert::FromSpecImpl<MacAddr> for [u8; 6] {
    open spec fn obeys_from_spec() -> bool {
        true
    }

    open spec fn from_spec(mac: MacAddr) -> [u8; 6] {
        choose|octets: [u8; 6]| octets@ == mac@
    }
}

impl std::str::FromStr for MacAddr {
    type Err = MacAddrParseError;

    fn from_str(s: &str) -> (mac: Result<Self, MacAddrParseError>)
        ensures
            match mac {
                Ok(mac) => octets_of(s@) == Some(mac@),
                Err(e) => octets_of(s@) is None && e.input@ == s@,
            },
    {
        MacAddr::parse(s)
    }
}

/// Whether one sequence of octets comes before another of the same length,
/// deciding by the first that differs.
pub open spec fn octets_less(a: Seq<u8>, b: Seq<u8>) -> bool {
    exists|i: int| #[trigger] differs_first(a, b, i) && a[i] < b[i]
}

/// Whether two sequences of octets differ at `i` and nowhere before.
pub open spec fn differs_first(a: Seq<u8>, b: Seq<u8>, i: int) -> bool {
    &&& 0 <= i < a.len()
    &&& i < b.len()
    &&& a[i] != b[i]
    &&& forall|j: int| 0 <= j < i ==> #[trigger] a[j] == b[j]
}

impl Same for MacAddr {
    type Model = MacAddr;

    open spec fn model(&self) -> MacAddr {
        *self
    }

    fn same(&self, other: &Self) -> (result: bool) {
        *self == *other
    }

    fn copied(&self) -> (result: Self) {
        *self
    }
}

impl Ordered for MacAddr {
    open spec fn before(a: MacAddr, b: MacAddr) -> bool {
        octets_less(a@, b@)
    }

    proof fn order_is_total(a: MacAddr, b: MacAddr) {
        MacAddr::lemma_octets_decide(a, b);
        MacAddr::lemma_octets_decide(b, a);
        let (x, y) = (a@, b@);
        if x != y {
            let i = if x[0] != y[0] {
                0int
            } else if x[1] != y[1] {
                1
            } else if x[2] != y[2] {
                2
            } else if x[3] != y[3] {
                3
            } else if x[4] != y[4] {
                4
            } else {
                5
            };
            assert(x[5] != y[5] || i < 5) by {
                if x[5] == y[5] && i == 5 {
                    assert(x =~= y);
                }
            }
            assert(differs_first(x, y, i));
            assert(differs_first(y, x, i));
        }
    }

    proof fn order_is_transitive(a: MacAddr, b: MacAddr, c: MacAddr) {
        let (x, y, z) = (a@, b@, c@);
        MacAddr::lemma_octets_decide(a, b);
        MacAddr::lemma_octets_decide(b, c);
        MacAddr::lemma_octets_decide(c, a);
        let i = choose|i: int| #[trigger] differs_first(x, y, i) && x[i] < y[i];
        let j = choose|j: int| #[trigger] differs_first(y, z, j) && y[j] < z[j];
        let k = if i < j {
            i
        } else {
            j
        };
        assert(x[k] < z[k]);
        assert forall|m: int| 0 <= m < k implies #[trigger] x[m] == z[m] by {
            assert(x[m] == y[m] && y[m] == z[m]);
        }
        assert(differs_first(x, z, k));
    }

    fn precedes(&self, other: &Self) -> (result: bool) {
        let (x, y) = (self.octets(), other.octets());
        let mut i: usize = 0;
        while i < 6
            invariant
                x@ == self@,
                y@ == other@,
                x@.len() == 6,
                y@.len() == 6,
                i <= 6,
                forall|j: int| 0 <= j < i ==> #[trigger] x@[j] == y@[j],
            decreases 6 - i,
        {
            if x[i] != y[i] {
                assert(differs_first(self@, other@, i as int));
                assert forall|k: int| #[trigger] differs_first(self@, other@, k) implies k == i by {
                    if k < i {
                        assert(x@[k] == y@[k]);
                    }
                }
                return x[i] < y[i];
            }
            i = i + 1;
        }
        false
    }
}

/// Why a text could not be read as a hardware address.
///
/// There is one way to fail here and one thing worth saying about it.
#[derive(Debug, Clone, PartialEq, Eq)]
pub struct MacAddrParseError {
    /// What the caller wrote.
    pub input: String,
}

impl MacAddrParseError {
    /// What went wrong, and with what.
    pub fn to_string(&self) -> (message: String)
        ensures
            message@ == "'"@ + self.input@
                + "' is not a MAC address: expected six hex octets separated by ':' or '-'"@,
    {
        let mut message = "'".to_owned();
        message.append(self.input.as_str());
        message.append("' is not a MAC address: expected six hex octets separated by ':' or '-'");
        message
    }
}

/// The company a hardware address, as it is written, is registered to.
pub uninterp spec fn registered_to(written: Seq<char>) -> Option<Seq<char>>;

/// Loads the registry that `mac_oui` compiles in, with `Oui::default`, and asks
/// its `Oui::lookup_by_mac` which entry covers the address `written`.
///
/// The registry is part of the crate and nothing else is read, so what comes back
/// rests on the text alone: the company name of the entry, or nothing where the
/// registry could not be loaded, the text is no address to it, or no entry covers
/// the address. Which company that is, is not said here.
#[verifier::external_body]
fn company_of(written: &str) -> (company: Option<String>)
    ensures
        text::said(company) == registered_to(written@),
{
    let registry = mac_oui::Oui::default().ok()?;
    let entry = registry.lookup_by_mac(written).ok()??;
    Some(entry.company_name.clone())
}

/// The manufacturer an address is allocated to, given the company its text is
/// registered to.
///
/// `None` for a [locally administered](MacAddr::is_locally_administered)
/// address, which is allocated to nobody whatever a registry holds.
pub fn allocated_to(mac: &MacAddr, company: Option<String>) -> (vendor: Option<String>)
    ensures
        text::said(vendor) == if assigned_locally(mac@) {
            None
        } else {
            text::said(company)
        },
{
    if mac.is_locally_administered() {
        None
    } else {
        company
    }
}

/// The manufacturer `mac`'s OUI is allocated to, if the database recognises it.
///
/// `None` for a [locally administered](MacAddr::is_locally_administered)
/// address, which is allocated to nobody, and for an address whose OUI is not
/// in the database. The first is answered by reading one bit, without a lookup.
pub fn vendor(mac: &MacAddr) -> (vendor: Option<String>)
    ensures
        text::said(vendor) == if assigned_locally(mac@) {
            None
        } else {
            registered_to(hex_pairs(mac@, 6))
        },
{
    if mac.is_locally_administered() {
        return None;
    }
    let written = mac.to_string();
    let company = company_of(written.as_str());
    allocated_to(mac, company)
}

/// An address is one its user assigned exactly where the second-lowest bit of its
/// first octet is set, whatever the rest of it is.
pub proof fn lemma_one_bit_marks_a_local_address(octets: Seq<u8>)
    requires
        octets.len() == 6,
    ensures
        assigned_locally(octets) <==> octets[0] & 0b0000_0010 == 0b0000_0010,
{
    let first = octets[0];
    assert((first & 0b0000_0010 == 0b0000_0010) == ((first / 2) % 2 == 1)) by (bit_vector);
}

/// Addresses are ordered by the first octet in which they differ, the lower one
/// first.
pub proof fn lemma_addresses_are_ordered_by_the_first_difference(
    common: Seq<u8>,
    x: u8,
    rest: Seq<u8>,
    y: u8,
    other: Seq<u8>,
)
    requires
        x != y,
    ensures
        octets_less(common.push(x) + rest, common.push(y) + other) <==> x < y,
        !octets_less(common, common),
{
    let (a, b) = (common.push(x) + rest, common.push(y) + other);
    let at = common.len() as int;
    assert forall|j: int| 0 <= j < at implies #[trigger] a[j] == b[j] by {}
    assert(a[at] == x && b[at] == y);
    assert(differs_first(a, b, at));
    assert forall|i: int| #[trigger] differs_first(a, b, i) implies i == at by {
        if i < at {
            assert(a[i] == b[i]);
        } else if at < i {
            assert(a[at] == b[at]);
        }
    }
}

} // verus!
