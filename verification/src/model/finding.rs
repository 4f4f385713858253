//! # What is wrong with what is running
//!
//! A [`Finding`] is a positive claim, backed by evidence, about a subject the
//! scan already holds: the typed result a detection produces, whatever kind of
//! detection it is, so that all of them compose without knowing about one
//! another.
//!
//! ## Two axes, not one
//!
//! Every finding carries two independent judgements: [`Severity`], how bad it is
//! if true, and [`Confidence`], how sure it is true. A single "risk" number
//! cannot say *Critical but unverified*, and that is precisely the common case.
//!
//! ## Provenance is a first-class field
//!
//! A finding always names the [`DetectionId`] that produced it: an id, a
//! [`Version`], and the content hash of the detection body.
//!
//! ## What folding two accounts of one claim keeps
//!
//! [`Finding::corroborate`] folds a second account of a claim into a first, and
//! [`corroborated`] says what comes out. The proofs beside it state what that
//! keeps: certainty never falls, references are never lost, a superseded
//! detection never supplies the verdict, and the claim stays the claim it was.

use crate::model::confidence::Confidence;
use crate::ordered::{Ordered, OrderedSet, Same};
use crate::text;
use vstd::prelude::*;

verus! {

/// The most justifying text a finding retains, in bytes.
pub const MAX_EXCERPT_BYTES: usize = 2048;

/// The most distinct findings one subject — a single host or a single port —
/// retains.
pub const MAX_FINDINGS_PER_SUBJECT: usize = 256;

/// How bad a [`Finding`] is if it is true.
///
/// Ordered weakest-to-strongest, so a set of findings ranks by an ordinary
/// comparison and the worst rises to the top of a report.
#[non_exhaustive]
#[derive(Debug, PartialEq, Eq, PartialOrd, Ord, Hash, Clone, Copy, Structural)]
pub enum Severity {
    /// Not a weakness — a fact worth surfacing.
    Info,
    /// A weakness of little consequence on its own.
    Low,
    /// A real weakness with a real precondition.
    Medium,
    /// Directly exploitable, or a disclosure that hands an attacker materially
    /// more than they had.
    High,
    /// Remote code execution, an authentication bypass, or a compromise that
    /// needs nothing the internet does not already have.
    Critical,
}

impl Severity {
    /// The label of a severity.
    pub open spec fn labelled(self) -> Seq<char> {
        match self {
            Severity::Info => "Info"@,
            Severity::Low => "Low"@,
            Severity::Medium => "Medium"@,
            Severity::High => "High"@,
            Severity::Critical => "Critical"@,
        }
    }

    /// The human label, capitalised for a report a person reads.
    pub fn label(self) -> (label: &'static str)
        ensures
            label@ == self.labelled(),
    {
        match self {
            Severity::Info => "Info",
            Severity::Low => "Low",
            Severity::Medium => "Medium",
            Severity::High => "High",
            Severity::Critical => "Critical",
        }
    }

    /// A severity on the `0..=100` scale.
    pub open spec fn score(self) -> u8 {
        match self {
            Severity::Info => 0,
            Severity::Low => 25,
            Severity::Medium => 50,
            Severity::High => 75,
            Severity::Critical => 100,
        }
    }

    /// Projects onto the `0..=100` scale, so a caller can put impact and
    /// certainty on one bar.
    pub fn as_score(self) -> (score: u8)
        ensures
            score == self.score(),
    {
        match self {
            Severity::Info => 0,
            Severity::Low => 25,
            Severity::Medium => 50,
            Severity::High => 75,
            Severity::Critical => 100,
        }
    }

    /// Every severity, weakest-first, for a caller that iterates rather than
    /// writing the list out.
    pub const ALL: [Severity; 5] = [
        Severity::Info,
        Severity::Low,
        Severity::Medium,
        Severity::High,
        Severity::Critical,
    ];
}

/// The intrusiveness a detection ran under, recorded on the finding it produced.
///
/// Ordered least-to-most intrusive, so a policy can compare against a ceiling.
#[non_exhaustive]
#[derive(Debug, PartialEq, Eq, PartialOrd, Ord, Hash, Clone, Copy, Structural)]
pub enum DetectionClass {
    /// Reads only what the scan already gathered. No new traffic.
    Passive,
    /// Exchanges bytes with the scanned socket, within a byte budget. Reads;
    /// changes nothing.
    ActiveBenign,
    /// Causes a state change on the target.
    ActiveMutating,
    /// Attempts to trigger the weakness, not merely to detect it.
    Exploit,
    /// May degrade the target's service.
    Dos,
}

impl DetectionClass {
    /// The label of a class.
    pub open spec fn labelled(self) -> Seq<char> {
        match self {
            DetectionClass::Passive => "passive"@,
            DetectionClass::ActiveBenign => "active-benign"@,
            DetectionClass::ActiveMutating => "active-mutating"@,
            DetectionClass::Exploit => "exploit"@,
            DetectionClass::Dos => "DoS"@,
        }
    }

    /// How a class is written for a person to read.
    ///
    /// An acronym is capitals and a word is not.
    pub fn label(self) -> (label: &'static str)
        ensures
            label@ == self.labelled(),
    {
        match self {
            DetectionClass::Passive => "passive",
            DetectionClass::ActiveBenign => "active-benign",
            DetectionClass::ActiveMutating => "active-mutating",
            DetectionClass::Exploit => "exploit",
            DetectionClass::Dos => "DoS",
        }
    }

    /// Every class, least-intrusive-first.
    pub const ALL: [DetectionClass; 5] = [
        DetectionClass::Passive,
        DetectionClass::ActiveBenign,
        DetectionClass::ActiveMutating,
        DetectionClass::Exploit,
        DetectionClass::Dos,
    ];
}

/// A detection's version — a provenance stamp that needs to be *ordered*.
///
/// The common `major.minor.patch` subset of semver and nothing more: no
/// pre-release grammar, no build metadata.
#[derive(Debug, Clone, Copy, PartialEq, Eq, PartialOrd, Ord, Hash, Structural)]
pub struct Version {
    /// The leading component, and the one that settles a comparison whenever
    /// two versions differ in it.
    pub major: u16,
    /// Breaks a tie on `major`.
    pub minor: u16,
    /// The last word, reached only where `major` and `minor` both agree.
    pub patch: u16,
}

/// Why a string is not a detection version.
#[derive(Debug, Clone, PartialEq, Eq)]
pub struct VersionParseError {
    /// What the caller wrote.
    pub input: String,
}

/// The version a text writes: three unsigned numbers with dots between them,
/// each of sixteen bits at most.
pub open spec fn version_of(s: Seq<char>) -> Option<Version> {
    let parts = text::split_on(s, seq!['.']);
    if parts.len() != 3 {
        None
    } else {
        match (
            text::unsigned_value(parts[0], 10, 0xffff),
            text::unsigned_value(parts[1], 10, 0xffff),
            text::unsigned_value(parts[2], 10, 0xffff),
        ) {
            (Some(major), Some(minor), Some(patch)) => Some(
                Version { major: major as u16, minor: minor as u16, patch: patch as u16 },
            ),
            _ => None,
        }
    }
}

impl VersionParseError {
    /// What went wrong, and with what.
    pub fn to_string(&self) -> (message: String)
        ensures
            message@ == "'"@ + self.input@
                + "' is not a version: expected three dot-separated numbers, as in `1.2.3`"@,
    {
        let mut message = "'".to_owned();
        message.append(self.input.as_str());
        message.append("' is not a version: expected three dot-separated numbers, as in `1.2.3`");
        message
    }
}

impl Version {
    /// A version from its three components.
    pub fn new(major: u16, minor: u16, patch: u16) -> (version: Self)
        ensures
            version == (Version { major, minor, patch }),
    {
        Version { major, minor, patch }
    }

    /// Whether this version is older than another: by `major`, then `minor`,
    /// then `patch`.
    pub open spec fn is_older(self, other: Version) -> bool {
        if self.major != other.major {
            self.major < other.major
        } else if self.minor != other.minor {
            self.minor < other.minor
        } else {
            self.patch < other.patch
        }
    }

    /// Whether this version is older than another.
    pub fn older_than(&self, other: &Version) -> (older: bool)
        ensures
            older == self.is_older(*other),
    {
        if self.major != other.major {
            self.major < other.major
        } else if self.minor != other.minor {
            self.minor < other.minor
        } else {
            self.patch < other.patch
        }
    }

    /// Reads `"major.minor.patch"`.
    ///
    /// Strict on purpose: exactly three dot-separated unsigned integers, each in
    /// range. A version that will not parse is not guessed at.
    pub fn parse(text: &str) -> (version: Result<Version, VersionParseError>)
        ensures
            match version_of(text@) {
                Some(v) => version == Ok::<Version, VersionParseError>(v),
                None => version is Err && version->Err_0.input@ == text@,
            },
    {
        let chars = text::chars_of(text);
        let dot: [char; 1] = ['.'];
        let parts = text::split(chars.as_slice(), dot.as_slice());
        assert(dot@ =~= seq!['.']);
        assert(text::pieces_of(parts@).len() == parts@.len());
        if parts.len() == 3 {
            assert(text::pieces_of(parts@)[0] == parts@[0]@);
            assert(text::pieces_of(parts@)[1] == parts@[1]@);
            assert(text::pieces_of(parts@)[2] == parts@[2]@);
            let major = text::parse_unsigned(parts[0].as_slice(), 10, 0xffff);
            let minor = text::parse_unsigned(parts[1].as_slice(), 10, 0xffff);
            let patch = text::parse_unsigned(parts[2].as_slice(), 10, 0xffff);
            match (major, minor, patch) {
                (Some(major), Some(minor), Some(patch)) => {
                    return Ok(Version::new(major as u16, minor as u16, patch as u16));
                },
                _ => {},
            }
        }
        Err(VersionParseError { input: text.to_owned() })
    }

    /// How a version is written.
    pub open spec fn written(self) -> Seq<char> {
        text::decimal(self.major as nat).push('.') + (text::decimal(self.minor as nat).push('.')
            + text::decimal(self.patch as nat))
    }

    /// Writes `major.minor.patch`.
    pub fn to_string(&self) -> (written: String)
        ensures
            written@ == self.written(),
    {
        let mut written = String::new();
        text::push_decimal(&mut written, self.major as u128);
        written.push('.');
        text::push_decimal(&mut written, self.minor as u128);
        written.push('.');
        text::push_decimal(&mut written, self.patch as u128);
        assert(written@ =~= self.written());
        written
    }

    /// A version survives being written down: what is written reads back as the
    /// version it was.
    pub proof fn lemma_written_reads_back(self)
        ensures
            version_of(self.written()) == Some(self),
    {
        let dot = seq!['.'];
        let (a, b, c) = (
            text::decimal(self.major as nat),
            text::decimal(self.minor as nat),
            text::decimal(self.patch as nat),
        );
        lemma_decimal_is_one_piece(self.major);
        lemma_decimal_is_one_piece(self.minor);
        lemma_decimal_is_one_piece(self.patch);
        assert(dot.contains('.')) by {
            assert(dot[0] == '.');
        }
        text::lemma_split_of_joined(a, '.', b.push('.') + c, dot);
        text::lemma_split_of_joined(b, '.', c, dot);
        assert(text::split_on(self.written(), dot) =~= seq![a, b, c]);
    }
}

/// A decimal number is a run of digits, so it holds no dot and reads back.
proof fn lemma_decimal_is_one_piece(n: u16)
    ensures
        text::split_on(text::decimal(n as nat), seq!['.']) == seq![text::decimal(n as nat)],
        text::unsigned_value(text::decimal(n as nat), 10, 0xffff) == Some(n as nat),
{
    let s = text::decimal(n as nat);
    text::lemma_written_reads_back(n as nat, 10);
    assert forall|i: int| 0 <= i < s.len() implies !seq!['.'].contains(#[trigger] s[i]) by {
        assert(text::digit_of(s[i]) < 10);
    }
    text::lemma_split_without_separator(s, seq!['.']);
    assert(text::digit_of(s[0]) < 10);
}

impl std::str::FromStr for Version {
    type Err = VersionParseError;

    fn from_str(text: &str) -> (version: Result<Version, VersionParseError>)
        ensures
            match version_of(text@) {
                Some(v) => version == Ok::<Version, VersionParseError>(v),
                None => version is Err && version->Err_0.input@ == text@,
            },
    {
        Version::parse(text)
    }
}

/// An external reference a finding points at.
///
/// The *kind* is typed because that is what a consumer switches on. The payloads
/// differ by kind: a CVE is an opaque identifier this vocabulary never computes
/// over, a CWE *is* a number, and a URL is arbitrary and untrusted.
#[non_exhaustive]
#[derive(Debug, PartialEq, Eq, PartialOrd, Ord, Hash)]
pub enum Reference {
    /// A CVE identifier, e.g. `CVE-2021-44228`. Validated for shape at
    /// construction, never parsed into fields.
    Cve(String),
    /// A CWE weakness number, e.g. `79` for `CWE-79`.
    Cwe(u32),
    /// Any other reference — an advisory, a vendor bulletin.
    Url(String),
}

/// What a [`Reference`] points at.
pub enum ReferenceView {
    Cve(Seq<char>),
    Cwe(u32),
    Url(Seq<char>),
}

impl View for Reference {
    type V = ReferenceView;

    open spec fn view(&self) -> ReferenceView {
        match self {
            Reference::Cve(id) => ReferenceView::Cve(id@),
            Reference::Cwe(number) => ReferenceView::Cwe(*number),
            Reference::Url(url) => ReferenceView::Url(url@),
        }
    }
}

impl ReferenceView {
    /// Where the kinds of reference stand: CVEs first, then CWEs, then links.
    pub open spec fn kind(self) -> int {
        match self {
            ReferenceView::Cve(_) => 0,
            ReferenceView::Cwe(_) => 1,
            ReferenceView::Url(_) => 2,
        }
    }
}

/// The order of references: by kind, then by what they point at.
pub open spec fn reference_before(a: ReferenceView, b: ReferenceView) -> bool {
    match (a, b) {
        (ReferenceView::Cve(x), ReferenceView::Cve(y)) => text::text_less(x, y),
        (ReferenceView::Cwe(x), ReferenceView::Cwe(y)) => x < y,
        (ReferenceView::Url(x), ReferenceView::Url(y)) => text::text_less(x, y),
        _ => a.kind() < b.kind(),
    }
}

impl Same for Reference {
    type Model = ReferenceView;

    open spec fn model(&self) -> ReferenceView {
        self@
    }

    fn same(&self, other: &Self) -> (result: bool) {
        match (self, other) {
            (Reference::Cve(a), Reference::Cve(b)) => text::same_text(a.as_str(), b.as_str()),
            (Reference::Cwe(a), Reference::Cwe(b)) => *a == *b,
            (Reference::Url(a), Reference::Url(b)) => text::same_text(a.as_str(), b.as_str()),
            _ => false,
        }
    }

    fn copied(&self) -> (result: Self) {
        match self {
            Reference::Cve(id) => Reference::Cve(id.clone()),
            Reference::Cwe(number) => Reference::Cwe(*number),
            Reference::Url(url) => Reference::Url(url.clone()),
        }
    }
}

impl Clone for Reference {
    fn clone(&self) -> (result: Self)
        ensures
            result@ == self@,
    {
        self.copied()
    }
}

impl Ordered for Reference {
    open spec fn before(a: ReferenceView, b: ReferenceView) -> bool {
        reference_before(a, b)
    }

    proof fn order_is_total(a: ReferenceView, b: ReferenceView) {
        match (a, b) {
            (ReferenceView::Cve(x), ReferenceView::Cve(y)) => {
                text::lemma_text_order_is_total(x, y);
            },
            (ReferenceView::Url(x), ReferenceView::Url(y)) => {
                text::lemma_text_order_is_total(x, y);
            },
            _ => {
                match a {
                    ReferenceView::Cve(x) => {
                        text::lemma_text_order_is_total(x, x);
                    },
                    ReferenceView::Url(x) => {
                        text::lemma_text_order_is_total(x, x);
                    },
                    _ => {},
                }
            },
        }
    }

    proof fn order_is_transitive(a: ReferenceView, b: ReferenceView, c: ReferenceView) {
        match (a, b, c) {
            (ReferenceView::Cve(x), ReferenceView::Cve(y), ReferenceView::Cve(z)) => {
                text::lemma_text_order_is_transitive(x, y, z);
            },
            (ReferenceView::Url(x), ReferenceView::Url(y), ReferenceView::Url(z)) => {
                text::lemma_text_order_is_transitive(x, y, z);
            },
            _ => {},
        }
    }

    fn precedes(&self, other: &Self) -> (result: bool) {
        match (self, other) {
            (Reference::Cve(a), Reference::Cve(b)) => text::less_text(a.as_str(), b.as_str()),
            (Reference::Cwe(a), Reference::Cwe(b)) => *a < *b,
            (Reference::Url(a), Reference::Url(b)) => text::less_text(a.as_str(), b.as_str()),
            (Reference::Cve(_), _) => true,
            (Reference::Cwe(_), Reference::Url(_)) => true,
            _ => false,
        }
    }
}

/// Whether a text reads as `CVE-<4 digits>-<1+ digits>`.
pub open spec fn cve_shaped(s: Seq<char>) -> bool {
    &&& s.len() >= 10
    &&& s.take(4) == seq!['C', 'V', 'E', '-']
    &&& text::all_digits(s.subrange(4, 8), 10)
    &&& s[8] == '-'
    &&& text::all_digits(s.skip(9), 10)
}

/// Whether `id` reads as `CVE-<4 digits>-<1+ digits>`.
fn is_cve_shaped(id: &str) -> (shaped: bool)
    ensures
        shaped == cve_shaped(id@),
{
    let chars = text::chars_of(id);
    if chars.len() < 10 {
        return false;
    }
    if !(chars[0] == 'C' && chars[1] == 'V' && chars[2] == 'E' && chars[3] == '-' && chars[8]
        == '-') {
        proof {
            if cve_shaped(id@) {
                assert(id@.take(4)[0] == 'C');
                assert(id@.take(4)[1] == 'V');
                assert(id@.take(4)[2] == 'E');
                assert(id@.take(4)[3] == '-');
            }
        }
        return false;
    }
    assert(id@.take(4) =~= seq!['C', 'V', 'E', '-']);
    let mut i: usize = 4;
    while i < chars.len()
        invariant
            4 <= i <= chars@.len(),
            chars@.len() >= 10,
            chars@ == id@,
            id@[8] == '-',
            id@.take(4) == seq!['C', 'V', 'E', '-'],
            forall|j: int| 4 <= j < i && j != 8 ==> text::digit_of(#[trigger] id@[j]) < 10,
        decreases chars@.len() - i,
    {
        if i != 8 && text::digit(chars[i]) >= 10 {
            proof {
                if i < 8 {
                    assert(id@.subrange(4, 8)[i - 4] == id@[i as int]);
                } else {
                    assert(id@.skip(9)[i - 9] == id@[i as int]);
                }
            }
            return false;
        }
        i = i + 1;
    }
    assert forall|j: int| 0 <= j < 4 implies text::digit_of(
        #[trigger] id@.subrange(4, 8)[j],
    ) < 10 by {
        assert(id@.subrange(4, 8)[j] == id@[j + 4]);
    }
    assert forall|j: int| 0 <= j < id@.skip(9).len() implies text::digit_of(
        #[trigger] id@.skip(9)[j],
    ) < 10 by {
        assert(id@.skip(9)[j] == id@[j + 9]);
    }
    true
}

impl Reference {
    /// A CVE reference, if `id` has the shape `CVE-YYYY-N` (a four-digit year and
    /// at least one digit of sequence). Returns [`None`] otherwise — a
    /// malformed identifier is not a reference.
    pub fn cve(id: &str) -> (reference: Option<Self>)
        ensures
            match reference {
                Some(r) => cve_shaped(id@) && r@ == ReferenceView::Cve(id@),
                None => !cve_shaped(id@),
            },
    {
        if is_cve_shaped(id) {
            Some(Reference::Cve(id.to_owned()))
        } else {
            None
        }
    }

    /// A CWE reference from its number.
    pub fn cwe(number: u32) -> (reference: Self)
        ensures
            reference@ == ReferenceView::Cwe(number),
    {
        Reference::Cwe(number)
    }

    /// An arbitrary URL reference.
    pub fn url(url: &str) -> (reference: Self)
        ensures
            reference@ == ReferenceView::Url(url@),
    {
        Reference::Url(url.to_owned())
    }
}

/// The bytes that made a detection fire, bounded and safe to carry everywhere.
///
/// A newtype rather than a bare `String` so that the [`MAX_EXCERPT_BYTES`] bound
/// is enforced at the one place a value is made — [`Excerpt::new`]. Over-length
/// input is *truncated*, never rejected: dropping a real finding because its
/// evidence ran long would be the wrong failure.
#[derive(Debug, PartialEq, Eq, Hash)]
pub struct Excerpt {
    text: String,
}

/// Whether `kept` is the longest front of `whole` that fits the bound.
pub open spec fn excerpt_of(whole: Seq<char>, kept: Seq<char>) -> bool {
    &&& kept.len() <= whole.len()
    &&& kept == whole.take(kept.len() as int)
    &&& text::byte_len(kept) <= MAX_EXCERPT_BYTES
    &&& kept.len() < whole.len() ==> text::byte_len(whole.take(kept.len() as int + 1)) > MAX_EXCERPT_BYTES
}

impl View for Excerpt {
    type V = Seq<char>;

    closed spec fn view(&self) -> Seq<char> {
        self.text@
    }
}

impl Excerpt {
    /// An excerpt from `text`, truncated to [`MAX_EXCERPT_BYTES`] on a character
    /// boundary so the result is always valid UTF-8.
    pub fn new(text: &str) -> (excerpt: Self)
        ensures
            excerpt_of(text@, excerpt@),
    {
        let chars = text::chars_of(text);
        let count: usize = text::fitting(chars.as_slice(), MAX_EXCERPT_BYTES);
        let kept = vstd::slice::slice_subrange(chars.as_slice(), 0, count);
        assert(kept@ =~= text@.take(count as int));
        Excerpt { text: text::text_of(kept) }
    }

    /// The excerpt text.
    pub fn as_str(&self) -> (text: &str)
        ensures
            text@ == self@,
    {
        self.text.as_str()
    }

    /// Whether the excerpt carries nothing.
    pub fn is_empty(&self) -> (empty: bool)
        ensures
            empty == (self@.len() == 0),
    {
        self.text.as_str().is_empty()
    }

    /// A text within the bound is kept verbatim.
    pub proof fn lemma_a_short_text_is_kept_verbatim(whole: Seq<char>, kept: Seq<char>)
        requires
            excerpt_of(whole, kept),
            text::byte_len(whole) <= MAX_EXCERPT_BYTES,
        ensures
            kept == whole,
    {
        if kept.len() < whole.len() {
            let longer = whole.take(kept.len() as int + 1);
            text::lemma_byte_len_of_joined(longer, whole.skip(kept.len() as int + 1));
            assert(longer + whole.skip(kept.len() as int + 1) =~= whole);
        } else {
            assert(whole.take(whole.len() as int) =~= whole);
        }
    }
}

impl Clone for Excerpt {
    fn clone(&self) -> (result: Self)
        ensures
            result@ == self@,
    {
        Excerpt { text: self.text.clone() }
    }
}

impl Default for Excerpt {
    /// An excerpt that carries nothing.
    fn default() -> (excerpt: Excerpt)
        ensures
            excerpt@ == Seq::<char>::empty(),
    {
        Excerpt { text: String::new() }
    }
}

/// Which detection produced a [`Finding`], to which version, from which bytes.
///
/// The `id` is **untrusted input**: an author chose it, and it reaches exported
/// reports, so a consumer escapes it exactly as it escapes a scanned host's own
/// banner.
#[derive(Debug, PartialEq, Eq, PartialOrd, Ord, Hash)]
pub struct DetectionId {
    id: String,
    version: Version,
    content_hash: String,
}

/// What a [`DetectionId`] says.
pub struct DetectionView {
    pub id: Seq<char>,
    pub version: Version,
    pub content_hash: Seq<char>,
}

impl View for DetectionId {
    type V = DetectionView;

    closed spec fn view(&self) -> DetectionView {
        DetectionView { id: self.id@, version: self.version, content_hash: self.content_hash@ }
    }
}

impl Clone for DetectionId {
    fn clone(&self) -> (result: Self)
        ensures
            result@ == self@,
    {
        DetectionId {
            id: self.id.clone(),
            version: self.version,
            content_hash: self.content_hash.clone(),
        }
    }
}

/// Whether a text is empty but for white space.
pub open spec fn is_blank(s: Seq<char>) -> bool {
    text::trimmed(s).len() == 0
}

/// Whether a text is empty but for white space.
fn blank(text: &str) -> (result: bool)
    ensures
        result == is_blank(text@),
{
    let chars = text::chars_of(text);
    text::trim(chars.as_slice()).len() == 0
}

/// Why a [`Finding`] or a [`DetectionId`] could not be constructed.
#[non_exhaustive]
#[derive(Debug, Clone, Copy, PartialEq, Eq, Structural)]
pub enum FindingError {
    /// A [`DetectionId`] was given a blank `id`.
    EmptyId,
    /// A [`Finding`] was given a blank title.
    EmptyTitle,
}

impl FindingError {
    /// What went wrong.
    pub fn to_string(&self) -> (message: String)
        ensures
            message@ == match self {
                FindingError::EmptyId => "a detection id cannot be empty"@,
                FindingError::EmptyTitle => "a finding title cannot be empty"@,
            },
    {
        match self {
            FindingError::EmptyId => "a detection id cannot be empty".to_owned(),
            FindingError::EmptyTitle => "a finding title cannot be empty".to_owned(),
        }
    }
}

impl DetectionId {
    /// A detection identity, or [`FindingError::EmptyId`] if `id` is blank.
    ///
    /// The content hash is opaque and may be empty; the id may not, because a
    /// finding that cannot say what produced it cannot be audited.
    pub fn new(id: &str, version: Version, content_hash: &str) -> (result: Result<
        Self,
        FindingError,
    >)
        ensures
            match result {
                Ok(d) => !is_blank(id@) && d@ == (DetectionView {
                    id: id@,
                    version,
                    content_hash: content_hash@,
                }),
                Err(e) => is_blank(id@) && e == FindingError::EmptyId,
            },
    {
        if blank(id) {
            return Err(FindingError::EmptyId);
        }
        Ok(DetectionId { id: id.to_owned(), version, content_hash: content_hash.to_owned() })
    }

    /// The author-chosen identifier. Untrusted; escape before display.
    pub fn id(&self) -> (id: &str)
        ensures
            id@ == self@.id,
    {
        self.id.as_str()
    }

    /// The detection's version.
    pub fn version(&self) -> (version: Version)
        ensures
            version == self@.version,
    {
        self.version
    }

    /// The content hash of the detection body, or an empty string if none was
    /// recorded.
    pub fn content_hash(&self) -> (hash: &str)
        ensures
            hash@ == self@.content_hash,
    {
        self.content_hash.as_str()
    }
}

/// What makes two findings *the same finding*: the detection that asserts it and
/// the thing it asserts.
///
/// A key that deliberately excludes the version, the hash, the confidence, the
/// severity, and the excerpt: those are *how sure*, *which build*, and *why*,
/// none of which change *what is being claimed*.
#[derive(Debug, PartialEq, Eq, PartialOrd, Ord, Hash)]
pub struct ClaimId {
    detection: String,
    subject: String,
}

/// What a [`ClaimId`] says.
pub struct ClaimView {
    pub detection: Seq<char>,
    pub subject: Seq<char>,
}

impl View for ClaimId {
    type V = ClaimView;

    closed spec fn view(&self) -> ClaimView {
        ClaimView { detection: self.detection@, subject: self.subject@ }
    }
}

impl Clone for ClaimId {
    fn clone(&self) -> (result: Self)
        ensures
            result@ == self@,
    {
        ClaimId { detection: self.detection.clone(), subject: self.subject.clone() }
    }
}

impl ClaimId {
    /// The producing detection's author-chosen id. Untrusted; escape before
    /// display.
    pub fn detection(&self) -> (detection: &str)
        ensures
            detection@ == self@.detection,
    {
        self.detection.as_str()
    }

    /// What the claim is about: the first CVE identifier the finding
    /// references, or its title where it references none. Untrusted; escape
    /// before display.
    pub fn subject(&self) -> (subject: &str)
        ensures
            subject@ == self@.subject,
    {
        self.subject.as_str()
    }
}

/// One thing wrong with a scanned subject: a typed, provenance-tagged claim.
///
/// Built through [`Finding::new`] and refined with the `with_*` builders, so
/// every finding has passed the same checks.
#[derive(Debug, PartialEq, Eq)]
pub struct Finding {
    detection: DetectionId,
    title: String,
    severity: Severity,
    confidence: Confidence,
    class: DetectionClass,
    excerpt: Excerpt,
    references: OrderedSet<Reference>,
    remediation: Option<String>,
}

/// What a [`Finding`] says.
#[verifier::ext_equal]
pub struct FindingView {
    pub detection: DetectionView,
    pub title: Seq<char>,
    pub severity: Severity,
    pub confidence: Confidence,
    pub class: DetectionClass,
    pub excerpt: Seq<char>,
    pub references: Set<ReferenceView>,
    pub remediation: Option<Seq<char>>,
}

impl View for Finding {
    type V = FindingView;

    closed spec fn view(&self) -> FindingView {
        FindingView {
            detection: self.detection@,
            title: self.title@,
            severity: self.severity,
            confidence: self.confidence,
            class: self.class,
            excerpt: self.excerpt@,
            references: self.references@,
            remediation: text::said(self.remediation),
        }
    }
}

impl Clone for Finding {
    fn clone(&self) -> (result: Self)
        ensures
            result@ == self@,
    {
        Finding {
            detection: self.detection.clone(),
            title: self.title.clone(),
            severity: self.severity,
            confidence: self.confidence,
            class: self.class,
            excerpt: self.excerpt.clone(),
            references: self.references.clone(),
            remediation: self.remediation.clone(),
        }
    }
}

/// Whether `id` is the lowest CVE identifier among references.
pub open spec fn lowest_cve(references: Set<ReferenceView>, id: Seq<char>) -> bool {
    &&& references.contains(ReferenceView::Cve(id))
    &&& forall|other: Seq<char>| #[trigger]
        references.contains(ReferenceView::Cve(other)) ==> other == id || text::text_less(id, other)
}

/// What a finding's claim is about: the lowest CVE identifier it references, or
/// its title where it references no CVE.
pub open spec fn subject_of(f: FindingView) -> Seq<char> {
    if exists|id: Seq<char>| lowest_cve(f.references, id) {
        choose|id: Seq<char>| lowest_cve(f.references, id)
    } else {
        f.title
    }
}

/// What a finding claims.
pub open spec fn claim_of(f: FindingView) -> ClaimView {
    ClaimView { detection: f.detection.id, subject: subject_of(f) }
}

/// Two accounts of one claim folded together: what `into` becomes when `other`
/// is folded in.
///
/// An account at a lower version supplies nothing but what is missing; one at
/// the same version or a later one supplies the verdict, and a later one its
/// stamp with it. Certainty takes the stronger and references are united
/// whatever the versions are.
pub open spec fn corroborated(into: FindingView, other: FindingView) -> FindingView {
    let current = !other.detection.version.is_older(into.detection.version);
    let newer = into.detection.version.is_older(other.detection.version);
    FindingView {
        detection: if newer {
            other.detection
        } else {
            into.detection
        },
        title: if current {
            other.title
        } else {
            into.title
        },
        severity: if current {
            other.severity
        } else {
            into.severity
        },
        confidence: into.confidence.stronger(other.confidence),
        class: if current {
            other.class
        } else {
            into.class
        },
        excerpt: if other.excerpt.len() > 0 && (current || into.excerpt.len() == 0) {
            other.excerpt
        } else {
            into.excerpt
        },
        references: into.references.union(other.references),
        remediation: if other.remediation is Some && (current || into.remediation is None) {
            other.remediation
        } else {
            into.remediation
        },
    }
}

impl Finding {
    /// A finding from its required parts, or [`FindingError::EmptyTitle`] if
    /// `title` is blank.
    ///
    /// The excerpt starts empty, the reference set empty, and remediation absent;
    /// each is added with a builder below.
    pub fn new(
        detection: DetectionId,
        title: &str,
        severity: Severity,
        confidence: Confidence,
        class: DetectionClass,
    ) -> (result: Result<Self, FindingError>)
        ensures
            match result {
                Ok(f) => !is_blank(title@) && f@ == (FindingView {
                    detection: detection@,
                    title: title@,
                    severity,
                    confidence,
                    class,
                    excerpt: Seq::empty(),
                    references: Set::empty(),
                    remediation: None,
                }),
                Err(e) => is_blank(title@) && e == FindingError::EmptyTitle,
            },
    {
        if blank(title) {
            return Err(FindingError::EmptyTitle);
        }
        Ok(
            Finding {
                detection,
                title: title.to_owned(),
                severity,
                confidence,
                class,
                excerpt: Excerpt::default(),
                references: OrderedSet::new(),
                remediation: None,
            },
        )
    }

    /// Adds a reference. Duplicates fold away and the set stays ordered, so two
    /// runs that found the same references write the same file.
    #[must_use]
    pub fn with_reference(self, reference: Reference) -> (finding: Self)
        ensures
            finding@ == (FindingView { references: self@.references.insert(reference@), ..self@ }),
    {
        let mut finding = self;
        let _ = finding.references.insert(reference);
        finding
    }

    /// Sets the justifying excerpt. Already bounded by [`Excerpt::new`].
    #[must_use]
    pub fn with_excerpt(self, excerpt: Excerpt) -> (finding: Self)
        ensures
            finding@ == (FindingView { excerpt: excerpt@, ..self@ }),
    {
        let mut finding = self;
        finding.excerpt = excerpt;
        finding
    }

    /// Sets the remediation advice.
    #[must_use]
    pub fn with_remediation(self, remediation: &str) -> (finding: Self)
        ensures
            finding@ == (FindingView { remediation: Some(remediation@), ..self@ }),
    {
        let mut finding = self;
        finding.remediation = Some(remediation.to_owned());
        finding
    }

    /// The detection that produced this finding.
    pub fn detection(&self) -> (detection: &DetectionId)
        ensures
            detection@ == self@.detection,
    {
        &self.detection
    }

    /// The one-line title. Untrusted; escape before display.
    pub fn title(&self) -> (title: &str)
        ensures
            title@ == self@.title,
    {
        self.title.as_str()
    }

    /// How bad this finding is if true.
    pub fn severity(&self) -> (severity: Severity)
        ensures
            severity == self@.severity,
    {
        self.severity
    }

    /// How sure this finding is true.
    pub fn confidence(&self) -> (confidence: Confidence)
        ensures
            confidence == self@.confidence,
    {
        self.confidence
    }

    /// The intrusiveness the producing detection ran under.
    pub fn class(&self) -> (class: DetectionClass)
        ensures
            class == self@.class,
    {
        self.class
    }

    /// The bytes that justify this finding.
    pub fn excerpt(&self) -> (excerpt: &Excerpt)
        ensures
            excerpt@ == self@.excerpt,
    {
        &self.excerpt
    }

    /// The external references, in sorted order, each once.
    pub fn references(&self) -> (references: Vec<&Reference>)
        ensures
            references@.len() == self@.references.len(),
            forall|r: ReferenceView|
                self@.references.contains(r) <==> exists|i: int|
                    0 <= i < references@.len() && (#[trigger] references@[i])@ == r,
            forall|i: int, j: int|
                0 <= i < j < references@.len() ==> reference_before(
                    (#[trigger] references@[i])@,
                    (#[trigger] references@[j])@,
                ),
    {
        let items = self.references.items();
        proof {
            let listed = self.references.listed();
            assert forall|r: ReferenceView| self@.references.contains(r) implies exists|i: int|
                0 <= i < items@.len() && (#[trigger] items@[i])@ == r by {
                assert(listed.to_set().contains(r));
                let i = choose|i: int| 0 <= i < listed.len() && listed[i] == r;
                assert(items@[i]@ == r);
            }
            assert forall|r: ReferenceView| (exists|i: int|
                0 <= i < items@.len() && (#[trigger] items@[i])@ == r) implies
                self@.references.contains(r) by {
                let i = choose|i: int| 0 <= i < items@.len() && (#[trigger] items@[i])@ == r;
                assert(listed[i] == r);
                assert(listed.to_set().contains(r));
            }
            assert forall|i: int, j: int| 0 <= i < j < items@.len() implies reference_before(
                (#[trigger] items@[i])@,
                (#[trigger] items@[j])@,
            ) by {
                assert(<Reference as Ordered>::before(listed[i], listed[j]));
            }
        }
        items
    }

    /// The remediation advice, if any. Untrusted; escape before display.
    pub fn remediation(&self) -> (remediation: Option<&str>)
        ensures
            text::said_by(remediation) == self@.remediation,
    {
        text::as_text(&self.remediation)
    }

    /// The key that decides whether this finding and another are the same claim.
    ///
    /// The producing detection's id, paired with the subject it discriminates on:
    /// the first (lowest, hence stable) CVE identifier this finding references,
    /// or its title where it references no CVE.
    pub fn claim_id(&self) -> (claim: ClaimId)
        ensures
            claim@ == claim_of(self@),
    {
        let detection = self.detection.id.clone();
        let n: usize = self.references.len();
        let ghost listed = self.references.listed();
        if n > 0 {
            match self.references.at(0) {
                Reference::Cve(id) => {
                    proof {
                        assert(self@.references.contains(ReferenceView::Cve(id@)));
                        assert forall|other: Seq<char>| #[trigger]
                            self@.references.contains(ReferenceView::Cve(other)) implies other
                            == id@ || text::text_less(id@, other) by {
                            let r = ReferenceView::Cve(other);
                            assert(listed.to_set().contains(r));
                            let i = choose|i: int| 0 <= i < listed.len() && listed[i] == r;
                            if i > 0 {
                                assert(reference_before(listed[0], listed[i]));
                            }
                        }
                        assert(lowest_cve(self@.references, id@));
                        lemma_lowest_cve_is_unique(
                            self@.references,
                            id@,
                            choose|x: Seq<char>| lowest_cve(self@.references, x),
                        );
                    }
                    return ClaimId { detection, subject: id.clone() };
                },
                _ => {},
            }
        }
        proof {
            assert forall|id: Seq<char>| !self@.references.contains(ReferenceView::Cve(id)) by {
                let r = ReferenceView::Cve(id);
                if self@.references.contains(r) {
                    assert(listed.to_set().contains(r));
                    let i = choose|i: int| 0 <= i < listed.len() && listed[i] == r;
                    if i > 0 {
                        assert(reference_before(listed[0], listed[i]));
                    }
                }
            }
        }
        ClaimId { detection, subject: self.title.clone() }
    }

    /// Folds another account of the same claim into this one, keeping the
    /// stronger reading, and reports whether anything changed.
    ///
    /// Called when a detection asserts a claim a subject already carries: the
    /// same producer, the same [`claim_id`](Self::claim_id). The caller is
    /// trusted to have matched the claims first.
    ///
    /// **A superseded detection does not supply the verdict.** Severity, title
    /// and class are what a detection concluded, and the [`DetectionId`] beside
    /// them is the record of which one concluded it. So an account at a lower
    /// version supplies nothing but what is missing.
    ///
    /// **An account at the same version supplies the verdict**: one detection
    /// grading one claim differently on two occasions has read different
    /// evidence, and the reading to keep is the current one.
    ///
    /// Two things never follow the version. **Certainty rises whatever reached
    /// it**, and **references union**.
    pub fn corroborate(&mut self, other: Finding) -> (changed: bool)
        ensures
            final(self)@ == corroborated(old(self)@, other@),
            changed == (final(self)@ != old(self)@),
    {
        let Finding {
            detection,
            title,
            severity,
            confidence,
            class,
            excerpt,
            references,
            remediation,
        } = other;
        let mut changed = false;

        let stronger = self.confidence.strongest(confidence);
        if stronger != self.confidence {
            self.confidence = stronger;
            changed = true;
        }
        // Same claim means the same detection id, so the version is what orders
        // the two accounts.
        if !detection.version.older_than(&self.detection.version) {
            // Only a strictly newer detection replaces the stamp, and it brings
            // its own content hash with it.
            if self.detection.version.older_than(&detection.version) {
                self.detection = detection;
                changed = true;
            }
            if severity != self.severity {
                self.severity = severity;
                changed = true;
            }
            if !text::same_text(title.as_str(), self.title.as_str()) {
                self.title = title;
                changed = true;
            }
            if class != self.class {
                self.class = class;
                changed = true;
            }
            if !excerpt.is_empty() && !text::same_text(excerpt.as_str(), self.excerpt.as_str()) {
                self.excerpt = excerpt;
                changed = true;
            }
            if remediation.is_some() && !text::same_saying(&remediation, &self.remediation) {
                self.remediation = remediation;
                changed = true;
            }
        } else {
            // Superseded. What it justified itself with is still better than
            // nothing where nothing is recorded, and cannot displace what is.
            if self.excerpt.is_empty() && !excerpt.is_empty() {
                self.excerpt = excerpt;
                changed = true;
            }
            if self.remediation.is_none() && remediation.is_some() {
                self.remediation = remediation;
                changed = true;
            }
        }
        let ghost before = self.references@;
        let ghost folded = self@;
        assert(changed == (folded != old(self)@));
        let n: usize = references.len();
        let ghost listed = references.listed();
        let mut i: usize = 0;
        while i < n
            invariant
                n == listed.len(),
                listed == references.listed(),
                i <= n,
                listed.to_set() == references@,
                self.references@ == before.union(listed.take(i as int).to_set()),
                self@ == (FindingView { references: self.references@, ..folded }),
                folded.references == before,
                changed == (folded != old(self)@ || self.references@ != before),
            decreases n - i,
        {
            let ghost prior = self.references@;
            let reference = references.at(i).copied();
            let is_new = self.references.insert(reference);
            proof {
                let took = listed.take(i as int);
                let takes = listed.take(i + 1);
                assert(takes =~= took.push(listed[i as int]));
                assert forall|r: ReferenceView| takes.to_set().contains(r) <==> took.to_set().insert(
                    listed[i as int],
                ).contains(r) by {
                    if took.contains(r) {
                        let j = choose|j: int| 0 <= j < took.len() && took[j] == r;
                        assert(takes[j] == r);
                    }
                    assert(takes[i as int] == listed[i as int]);
                }
                assert(takes.to_set() =~= took.to_set().insert(listed[i as int]));
                assert(self.references@ =~= before.union(takes.to_set()));
                if is_new {
                    assert(self.references@.contains(listed[i as int]));
                    assert(!before.contains(listed[i as int]));
                } else {
                    assert(self.references@ =~= prior);
                }
            }
            changed = changed || is_new;
            i = i + 1;
        }
        proof {
            assert(listed.take(n as int) =~= listed);
            assert(self.references@ =~= before.union(references@));
            assert(self@ =~= corroborated(old(self)@, other@));
        }
        changed
    }
}

proof fn lemma_lowest_cve_is_unique(references: Set<ReferenceView>, a: Seq<char>, b: Seq<char>)
    requires
        lowest_cve(references, a),
        lowest_cve(references, b),
    ensures
        a == b,
{
    text::lemma_text_order_is_total(a, b);
}

/// Among finitely many references that hold a CVE identifier one is the lowest.
proof fn lemma_some_cve_is_lowest(references: Set<ReferenceView>, id: Seq<char>)
    requires
        references.finite(),
        references.contains(ReferenceView::Cve(id)),
    ensures
        exists|low: Seq<char>| lowest_cve(references, low),
    decreases references.len(),
{
    let rest = references.remove(ReferenceView::Cve(id));
    if exists|other: Seq<char>| rest.contains(ReferenceView::Cve(other)) {
        let other = choose|other: Seq<char>| rest.contains(ReferenceView::Cve(other));
        lemma_some_cve_is_lowest(rest, other);
        let low = choose|low: Seq<char>| lowest_cve(rest, low);
        text::lemma_text_order_is_total(low, id);
        if text::text_less(low, id) {
            assert(lowest_cve(references, low)) by {
                assert forall|x: Seq<char>| #[trigger]
                    references.contains(ReferenceView::Cve(x)) implies x == low
                    || text::text_less(low, x) by {
                    if x != id {
                        assert(rest.contains(ReferenceView::Cve(x)));
                    }
                }
            }
        } else {
            assert(lowest_cve(references, id)) by {
                assert forall|x: Seq<char>| #[trigger]
                    references.contains(ReferenceView::Cve(x)) implies x == id
                    || text::text_less(id, x) by {
                    if x != id {
                        assert(rest.contains(ReferenceView::Cve(x)));
                        if x != low {
                            text::lemma_text_order_is_transitive(id, low, x);
                        }
                    }
                }
            }
        }
    } else {
        assert(lowest_cve(references, id)) by {
            assert forall|x: Seq<char>| #[trigger]
                references.contains(ReferenceView::Cve(x)) implies x == id || text::text_less(
                id,
                x,
            ) by {
                if x != id {
                    assert(rest.contains(ReferenceView::Cve(x)));
                }
            }
        }
    }
}

/// Where no CVE identifier is the lowest there is none at all.
proof fn lemma_no_lowest_means_no_cve(references: Set<ReferenceView>)
    requires
        references.finite(),
    ensures
        !(exists|low: Seq<char>| lowest_cve(references, low)) ==> forall|id: Seq<char>|
            !references.contains(ReferenceView::Cve(id)),
{
    if !(exists|low: Seq<char>| lowest_cve(references, low)) {
        assert forall|id: Seq<char>| !references.contains(ReferenceView::Cve(id)) by {
            if references.contains(ReferenceView::Cve(id)) {
                lemma_some_cve_is_lowest(references, id);
            }
        }
    }
}

/// Certainty never falls and references are never lost, whichever build either
/// account came from.
pub proof fn lemma_corroborating_only_adds(into: FindingView, other: FindingView)
    ensures
        corroborated(into, other).confidence.score() >= into.confidence.score(),
        corroborated(into, other).confidence.score() >= other.confidence.score(),
        into.references.subset_of(corroborated(into, other).references),
        other.references.subset_of(corroborated(into, other).references),
{
}

/// A superseded detection does not decide the claim: folding in an account at
/// a lower version leaves the stamp, the title, the severity and the class as
/// they were, and what the record already justified itself with.
pub proof fn lemma_a_superseded_account_supplies_no_verdict(into: FindingView, other: FindingView)
    requires
        other.detection.version.is_older(into.detection.version),
    ensures
        ({
            let folded = corroborated(into, other);
            &&& folded.detection == into.detection
            &&& folded.title == into.title
            &&& folded.severity == into.severity
            &&& folded.class == into.class
            &&& into.excerpt.len() > 0 ==> folded.excerpt == into.excerpt
            &&& into.remediation is Some ==> folded.remediation == into.remediation
        }),
{
}

/// The stamp and the verdict name one version: whichever account's version the
/// folded finding carries is one that reached its severity, title and class.
pub proof fn lemma_the_verdict_is_the_stamped_versions(into: FindingView, other: FindingView)
    ensures
        ({
            let folded = corroborated(into, other);
            ||| folded.detection.version == other.detection.version && folded.severity
                == other.severity && folded.title == other.title && folded.class == other.class
            ||| folded.detection.version == into.detection.version && folded.severity
                == into.severity && folded.title == into.title && folded.class == into.class
        }),
{
}

/// A detection firing the same claim twice is not new information.
pub proof fn lemma_an_identical_refiring_changes_nothing(f: FindingView)
    ensures
        corroborated(f, f) == f,
{
    assert(f.references.union(f.references) =~= f.references);
    assert(corroborated(f, f) =~= f);
}

/// Folding in one account twice is folding it in once.
pub proof fn lemma_corroborating_twice_is_once(into: FindingView, other: FindingView)
    ensures
        corroborated(corroborated(into, other), other) == corroborated(into, other),
{
    let once = corroborated(into, other);
    assert(once.references.union(other.references) =~= once.references);
    assert(corroborated(once, other) =~= once);
}

/// Folding two accounts of one claim leaves that claim: the folded finding is
/// keyed as both of them were, so a detection's new version updates a finding in
/// place and never doubles it.
pub proof fn lemma_corroborating_keeps_the_claim(into: FindingView, other: FindingView)
    requires
        claim_of(into) == claim_of(other),
        into.references.finite(),
        other.references.finite(),
    ensures
        claim_of(corroborated(into, other)) == claim_of(into),
{
    let folded = corroborated(into, other);
    let subject = subject_of(into);
    let in_into = exists|id: Seq<char>| lowest_cve(into.references, id);
    let in_other = exists|id: Seq<char>| lowest_cve(other.references, id);
    lemma_no_lowest_means_no_cve(into.references);
    lemma_no_lowest_means_no_cve(other.references);
    if in_into || in_other {
        assert(lowest_cve(folded.references, subject));
        let chosen = choose|id: Seq<char>| lowest_cve(folded.references, id);
        lemma_lowest_cve_is_unique(folded.references, subject, chosen);
    }
}

/// The claim looks at nothing but the detection's id, the title and the
/// references: not at the version, the hash, the certainty, the severity or the
/// excerpt.
pub proof fn lemma_the_claim_ignores_how_sure_and_which_build(a: FindingView, b: FindingView)
    requires
        a.detection.id == b.detection.id,
        a.title == b.title,
        a.references == b.references,
    ensures
        claim_of(a) == claim_of(b),
{
}

/// A version as one number, which orders as versions do: each of its three
/// parts is a digit of sixteen bits.
pub open spec fn ranked(version: Version) -> int {
    version.major * 0x1_0000_0000 + version.minor * 0x1_0000 + version.patch
}

/// Of two versions the older is the one that ranks lower, and no two versions
/// rank alike.
pub proof fn lemma_versions_are_ordered_part_by_part(a: Version, b: Version)
    ensures
        a.is_older(b) <==> ranked(a) < ranked(b),
        ranked(a) == ranked(b) <==> a == b,
{
}

/// An account from a build no older than the record's supplies the verdict and
/// the grounds for it: its title, its severity and its class, its excerpt where
/// it quotes anything and its remediation where it has one. What the record
/// quoted or advised stands only where that account does neither.
pub proof fn lemma_a_current_account_supplies_the_verdict(into: FindingView, other: FindingView)
    requires
        ranked(other.detection.version) >= ranked(into.detection.version),
    ensures
        ({
            let folded = corroborated(into, other);
            &&& folded.title == other.title
            &&& folded.severity == other.severity
            &&& folded.class == other.class
            &&& other.excerpt.len() > 0 ==> folded.excerpt == other.excerpt
            &&& other.excerpt.len() == 0 ==> folded.excerpt == into.excerpt
            &&& other.remediation is Some ==> folded.remediation == other.remediation
            &&& other.remediation is None ==> folded.remediation == into.remediation
        }),
{
}

/// An account from an older build fills the gaps of the record and nothing else:
/// its excerpt and its remediation are taken where the record has none, and
/// the title, the severity, the class and the stamp are the record's.
pub proof fn lemma_a_superseded_account_fills_the_gaps(into: FindingView, other: FindingView)
    requires
        ranked(other.detection.version) < ranked(into.detection.version),
    ensures
        ({
            let folded = corroborated(into, other);
            &&& folded.detection == into.detection
            &&& folded.title == into.title
            &&& folded.severity == into.severity
            &&& folded.class == into.class
            &&& into.excerpt.len() > 0 ==> folded.excerpt == into.excerpt
            &&& into.excerpt.len() == 0 ==> folded.excerpt =~= other.excerpt
            &&& into.remediation is Some ==> folded.remediation == into.remediation
            &&& into.remediation is None ==> folded.remediation == other.remediation
        }),
{
}

/// A record is stamped by the newest build that spoke: by the other account's
/// where that is strictly newer, id, hash and all, and else as it was.
pub proof fn lemma_the_newest_build_stamps_the_record(into: FindingView, other: FindingView)
    ensures
        ranked(other.detection.version) > ranked(into.detection.version) ==> corroborated(
            into,
            other,
        ).detection == other.detection,
        ranked(other.detection.version) <= ranked(into.detection.version) ==> corroborated(
            into,
            other,
        ).detection == into.detection,
{
}

/// A record is as certain as the surer of two accounts, and refers to what
/// either refers to and to nothing else.
pub proof fn lemma_certainty_and_references_follow_both(into: FindingView, other: FindingView)
    ensures
        ({
            let folded = corroborated(into, other);
            &&& folded.confidence == into.confidence || folded.confidence == other.confidence
            &&& folded.confidence.score() >= into.confidence.score()
            &&& folded.confidence.score() >= other.confidence.score()
            &&& forall|reference: ReferenceView| #[trigger]
                folded.references.contains(reference) <==> into.references.contains(reference)
                    || other.references.contains(reference)
        }),
{
}

/// Of two accounts from two builds it makes no difference which was recorded
/// first.
pub proof fn lemma_accounts_of_two_builds_fold_in_either_order(a: FindingView, b: FindingView)
    requires
        a.detection.version != b.detection.version,
    ensures
        corroborated(a, b) == corroborated(b, a),
{
    lemma_versions_are_ordered_part_by_part(a.detection.version, b.detection.version);
    lemma_versions_are_ordered_part_by_part(b.detection.version, a.detection.version);
    Confidence::lemma_scores_tell_grades_apart(a.confidence, b.confidence);
    assert(a.references.union(b.references) =~= b.references.union(a.references));
    assert(a.excerpt.len() == 0 && b.excerpt.len() == 0 ==> a.excerpt =~= b.excerpt);
    assert(corroborated(a, b) =~= corroborated(b, a));
}

/// A claim is about the CVE of the lowest identifier a finding refers to, and
/// about its title where it refers to none.
pub proof fn lemma_a_claim_is_about_the_lowest_cve(f: FindingView, id: Seq<char>)
    requires
        f.references.finite(),
    ensures
        claim_of(f).detection == f.detection.id,
        f.references.contains(ReferenceView::Cve(id)) ==> f.references.contains(
            ReferenceView::Cve(claim_of(f).subject),
        ) && !text::text_less(id, claim_of(f).subject),
        (forall|other: Seq<char>| !#[trigger] f.references.contains(ReferenceView::Cve(other)))
            ==> claim_of(f).subject == f.title,
{
    lemma_no_lowest_means_no_cve(f.references);
    if exists|lowest: Seq<char>| lowest_cve(f.references, lowest) {
        let lowest = choose|lowest: Seq<char>| lowest_cve(f.references, lowest);
        text::lemma_text_order_is_total(lowest, id);
        text::lemma_text_order_is_total(id, lowest);
    }
}

/// A CVE identifier is `CVE-`, a year of four digits, a dash, and one digit or
/// more, and every text made so is one.
pub proof fn lemma_a_cve_is_a_year_and_a_number(s: Seq<char>, year: Seq<char>, number: Seq<char>)
    ensures
        year.len() == 4 && text::all_digits(year, 10) && number.len() >= 1 && text::all_digits(
            number,
            10,
        ) ==> cve_shaped(seq!['C', 'V', 'E', '-'] + year.push('-') + number),
        cve_shaped(s) ==> s == seq!['C', 'V', 'E', '-'] + s.subrange(4, 8).push('-') + s.skip(9)
            && text::all_digits(s.subrange(4, 8), 10) && text::all_digits(s.skip(9), 10)
            && s.skip(9).len() >= 1,
{
    let made = seq!['C', 'V', 'E', '-'] + year.push('-') + number;
    if year.len() == 4 {
        assert(made.take(4) =~= seq!['C', 'V', 'E', '-']);
        assert(made.subrange(4, 8) =~= year);
        assert(made.skip(9) =~= number);
    }
    if cve_shaped(s) {
        let front = s.take(4);
        assert(forall|i: int| 0 <= i < 4 ==> s[i] == #[trigger] front[i]);
        assert(s =~= seq!['C', 'V', 'E', '-'] + s.subrange(4, 8).push('-') + s.skip(9));
    }
}

/// No front of a text that fits the bound is longer than its excerpt, and the
/// excerpt is such a front.
pub proof fn lemma_an_excerpt_is_the_longest_front_that_fits(
    whole: Seq<char>,
    kept: Seq<char>,
    front: Seq<char>,
)
    requires
        excerpt_of(whole, kept),
        front.is_prefix_of(whole),
        text::byte_len(front) <= 2048,
    ensures
        kept.is_prefix_of(whole),
        text::byte_len(kept) <= 2048,
        front.is_prefix_of(kept),
{
    if front.len() > kept.len() {
        let longer = whole.take(kept.len() as int + 1);
        let rest = front.skip(kept.len() as int + 1);
        assert(longer + rest =~= front);
        text::lemma_byte_len_of_joined(longer, rest);
    }
    assert(whole.subrange(0, kept.len() as int) =~= kept);
    assert(kept.subrange(0, front.len() as int) =~= front);
}

/// Severities stand a quarter of the scale apart, from none of it to all of it, in
/// the order they worsen.
pub proof fn lemma_severities_are_evenly_spaced(i: int)
    requires
        0 <= i < 5,
    ensures
        Severity::ALL@[i].score() == 25 * i,
{
}

} // verus!
