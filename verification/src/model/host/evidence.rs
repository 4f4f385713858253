//! # What each source concluded about a host's operating system
//!
//! Kept apart from the verdict drawn from it, so that a later source can
//! corroborate an earlier one instead of competing with it: one item per distinct
//! claim. Two readings that say the same thing are one thing learned twice,
//! whatever produced them, and repeating an observation must never look like
//! corroboration.

use crate::model::host::os;
use crate::ordered;
use crate::ordered::{Ordered, OrderedMap, Same};
use crate::text;
use vstd::prelude::*;

verus! {

/// The most distinct operating-system claims one host retains.
///
/// Enough agreeing items approach a certainty no single source stated, so a host
/// running many identifiable services does not get to add one for each.
pub const MAX_OS_EVIDENCE: usize = 8;

/// What kind of source a conclusion came from.
#[non_exhaustive]
#[derive(Debug, Clone, Copy, PartialEq, Eq, PartialOrd, Ord, Hash, Structural)]
pub enum OsSource {
    /// The shape of the replies a TCP/IP stack sends.
    Stack,
    /// What a service said of itself.
    ServiceBanner,
}

/// What one source concluded, and how sure it was.
#[derive(Debug, PartialEq, Eq)]
pub struct OsEvidence {
    /// What kind of source it was.
    pub source: OsSource,
    /// The broad family.
    pub family: Option<String>,
    /// What kind of box it is.
    pub device: Option<String>,
    /// Who made it.
    pub vendor: Option<String>,
    /// What it is called.
    pub product: Option<String>,
    /// Its version.
    pub version: Option<String>,
    /// Its kernel release.
    pub kernel: Option<String>,
    /// How sure the source was.
    pub confidence: u8,
    /// What it was read off, in one line.
    pub evidence: String,
}

/// What a source concluded, reduced to the parts that make it a distinct claim:
/// not how sure it was, nor what it was read off.
#[verifier::ext_equal]
pub struct Claim {
    pub source: OsSource,
    pub family: Option<Seq<char>>,
    pub device: Option<Seq<char>>,
    pub vendor: Option<Seq<char>>,
    pub product: Option<Seq<char>>,
    pub version: Option<Seq<char>>,
    pub kernel: Option<Seq<char>>,
}

/// How sure a source was of a claim, and what it was read off.
#[verifier::ext_equal]
pub struct Support {
    pub confidence: u8,
    pub evidence: Seq<char>,
}

impl OsEvidence {
    /// What it claims.
    pub open spec fn claim(&self) -> Claim {
        Claim {
            source: self.source,
            family: text::said(self.family),
            device: text::said(self.device),
            vendor: text::said(self.vendor),
            product: text::said(self.product),
            version: text::said(self.version),
            kernel: text::said(self.kernel),
        }
    }

    /// What the claim rests on.
    pub open spec fn support(&self) -> Support {
        Support { confidence: self.confidence, evidence: self.evidence@ }
    }
}

/// Where a source stands among them.
pub open spec fn source_rank(source: OsSource) -> int {
    match source {
        OsSource::Stack => 0,
        OsSource::ServiceBanner => 1,
    }
}

/// Whether one optional text comes before another, nothing said before anything.
pub open spec fn said_before(a: Option<Seq<char>>, b: Option<Seq<char>>) -> bool {
    match (a, b) {
        (None, Some(_)) => true,
        (Some(x), Some(y)) => text::text_less(x, y),
        _ => false,
    }
}

/// Whether one claim comes before another: by the source, and then part by part.
pub open spec fn claimed_before(a: Claim, b: Claim) -> bool {
    if a.source != b.source {
        source_rank(a.source) < source_rank(b.source)
    } else if a.family != b.family {
        said_before(a.family, b.family)
    } else if a.device != b.device {
        said_before(a.device, b.device)
    } else if a.vendor != b.vendor {
        said_before(a.vendor, b.vendor)
    } else if a.product != b.product {
        said_before(a.product, b.product)
    } else if a.version != b.version {
        said_before(a.version, b.version)
    } else {
        said_before(a.kernel, b.kernel)
    }
}

proof fn lemma_said_is_total(a: Option<Seq<char>>, b: Option<Seq<char>>)
    ensures
        said_before(a, b) || said_before(b, a) || a == b,
        !(said_before(a, b) && said_before(b, a)),
        !said_before(a, a),
{
    match (a, b) {
        (Some(x), Some(y)) => {
            text::lemma_text_order_is_total(x, y);
            text::lemma_text_order_is_total(x, x);
        },
        (Some(x), None) => {
            text::lemma_text_order_is_total(x, x);
        },
        _ => {},
    }
}

proof fn lemma_said_is_transitive(
    a: Option<Seq<char>>,
    b: Option<Seq<char>>,
    c: Option<Seq<char>>,
)
    ensures
        said_before(a, b) && said_before(b, c) ==> said_before(a, c),
{
    match (a, b, c) {
        (Some(x), Some(y), Some(z)) => {
            if text::text_less(x, y) && text::text_less(y, z) {
                text::lemma_text_order_is_transitive(x, y, z);
            }
        },
        _ => {},
    }
}

/// Whether one optional text comes before another.
fn text_before(a: &Option<String>, b: &Option<String>) -> (result: bool)
    ensures
        result == said_before(text::said(*a), text::said(*b)),
{
    match (a, b) {
        (None, Some(_)) => true,
        (Some(x), Some(y)) => text::less_text(x.as_str(), y.as_str()),
        _ => false,
    }
}

/// A claim, as the key its support is filed under.
#[derive(Debug, PartialEq, Eq)]
pub struct ClaimKey {
    source: OsSource,
    family: Option<String>,
    device: Option<String>,
    vendor: Option<String>,
    product: Option<String>,
    version: Option<String>,
    kernel: Option<String>,
}

impl View for ClaimKey {
    type V = Claim;

    closed spec fn view(&self) -> Claim {
        Claim {
            source: self.source,
            family: text::said(self.family),
            device: text::said(self.device),
            vendor: text::said(self.vendor),
            product: text::said(self.product),
            version: text::said(self.version),
            kernel: text::said(self.kernel),
        }
    }
}

impl ClaimKey {
    /// What a piece of evidence claims.
    pub fn of(evidence: &OsEvidence) -> (claim: Self)
        ensures
            claim@ == evidence.claim(),
    {
        ClaimKey {
            source: evidence.source,
            family: text::say_again(&evidence.family),
            device: text::say_again(&evidence.device),
            vendor: text::say_again(&evidence.vendor),
            product: text::say_again(&evidence.product),
            version: text::say_again(&evidence.version),
            kernel: text::say_again(&evidence.kernel),
        }
    }
}

impl Same for ClaimKey {
    type Model = Claim;

    open spec fn model(&self) -> Claim {
        self@
    }

    fn same(&self, other: &Self) -> (result: bool) {
        let same = self.source == other.source && text::same_saying(&self.family, &other.family)
            && text::same_saying(&self.device, &other.device) && text::same_saying(
            &self.vendor,
            &other.vendor,
        ) && text::same_saying(&self.product, &other.product) && text::same_saying(
            &self.version,
            &other.version,
        ) && text::same_saying(&self.kernel, &other.kernel);
        assert(same ==> self@ =~= other@);
        same
    }

    fn copied(&self) -> (result: Self) {
        ClaimKey {
            source: self.source,
            family: text::say_again(&self.family),
            device: text::say_again(&self.device),
            vendor: text::say_again(&self.vendor),
            product: text::say_again(&self.product),
            version: text::say_again(&self.version),
            kernel: text::say_again(&self.kernel),
        }
    }
}

impl Ordered for ClaimKey {
    open spec fn before(a: Claim, b: Claim) -> bool {
        claimed_before(a, b)
    }

    proof fn order_is_total(a: Claim, b: Claim) {
        lemma_said_is_total(a.family, b.family);
        lemma_said_is_total(a.device, b.device);
        lemma_said_is_total(a.vendor, b.vendor);
        lemma_said_is_total(a.product, b.product);
        lemma_said_is_total(a.version, b.version);
        lemma_said_is_total(a.kernel, b.kernel);
        lemma_said_is_total(a.kernel, a.kernel);
        if !claimed_before(a, b) && !claimed_before(b, a) {
            assert(a =~= b);
        }
    }

    proof fn order_is_transitive(a: Claim, b: Claim, c: Claim) {
        lemma_said_is_total(a.family, b.family);
        lemma_said_is_total(a.device, b.device);
        lemma_said_is_total(a.vendor, b.vendor);
        lemma_said_is_total(a.product, b.product);
        lemma_said_is_total(a.version, b.version);
        lemma_said_is_transitive(a.family, b.family, c.family);
        lemma_said_is_transitive(a.device, b.device, c.device);
        lemma_said_is_transitive(a.vendor, b.vendor, c.vendor);
        lemma_said_is_transitive(a.product, b.product, c.product);
        lemma_said_is_transitive(a.version, b.version, c.version);
        lemma_said_is_transitive(a.kernel, b.kernel, c.kernel);
    }

    fn precedes(&self, other: &Self) -> (result: bool) {
        if self.source != other.source {
            matches!(self.source, OsSource::Stack)
        } else if !text::same_saying(&self.family, &other.family) {
            text_before(&self.family, &other.family)
        } else if !text::same_saying(&self.device, &other.device) {
            text_before(&self.device, &other.device)
        } else if !text::same_saying(&self.vendor, &other.vendor) {
            text_before(&self.vendor, &other.vendor)
        } else if !text::same_saying(&self.product, &other.product) {
            text_before(&self.product, &other.product)
        } else if !text::same_saying(&self.version, &other.version) {
            text_before(&self.version, &other.version)
        } else {
            text_before(&self.kernel, &other.kernel)
        }
    }
}

/// What claims rest on.
pub type Filed = Map<Claim, Support>;

/// What is on record once one piece of evidence has been filed.
///
/// A claim on record keeps the strongest confidence and every distinct line behind
/// it. A new one is filed unless the record is full.
pub open spec fn filed(record: Filed, claim: Claim, support: Support) -> Filed {
    if record.dom().contains(claim) {
        record.insert(
            claim,
            Support {
                confidence: if support.confidence > record[claim].confidence {
                    support.confidence
                } else {
                    record[claim].confidence
                },
                evidence: os::joined(record[claim].evidence, support.evidence),
            },
        )
    } else if record.dom().len() >= MAX_OS_EVIDENCE {
        record
    } else {
        record.insert(claim, support)
    }
}

/// What is on record once the first `n` pieces of evidence of a list have been
/// filed.
pub open spec fn all_filed(record: Filed, listed: Seq<OsEvidence>, n: int) -> Filed
    decreases n,
{
    if n <= 0 {
        record
    } else {
        filed(all_filed(record, listed, n - 1), listed[n - 1].claim(), listed[n - 1].support())
    }
}

/// Whether evidence is that of a record, in the order of its claims.
pub open spec fn lists_evidence(listed: Seq<OsEvidence>, record: Filed) -> bool {
    &&& forall|i: int, j: int|
        0 <= i < j < listed.len() ==> claimed_before(
            (#[trigger] listed[i]).claim(),
            (#[trigger] listed[j]).claim(),
        )
    &&& forall|i: int|
        0 <= i < listed.len() ==> record.dom().contains((#[trigger] listed[i]).claim())
            && record[listed[i].claim()] == listed[i].support()
    &&& forall|claim: Claim| #[trigger]
        record.dom().contains(claim) ==> exists|i: int|
            0 <= i < listed.len() && (#[trigger] listed[i]).claim() == claim
}

/// The evidence on record for one host's operating system, one item per distinct
/// claim, in the order of their claims.
#[derive(Debug, PartialEq, Eq)]
pub struct EvidenceFile {
    items: OrderedMap<ClaimKey, OsEvidence>,
}

impl View for EvidenceFile {
    type V = Filed;

    closed spec fn view(&self) -> Filed {
        supports(self.items@)
    }
}

/// What claims rest on, by the evidence filed under them.
spec fn supports(items: Map<Claim, OsEvidence>) -> Filed {
    Map::new(|claim: Claim| items.dom().contains(claim), |claim: Claim| items[claim].support())
}

impl EvidenceFile {
    /// Every item is filed under what it claims, and there are no more than the
    /// bound.
    #[verifier::type_invariant]
    spec fn is_sound(self) -> bool {
        &&& self.items@.dom().finite()
        &&& self.items@.dom().len() <= MAX_OS_EVIDENCE
        &&& forall|claim: Claim| #[trigger]
            self.items@.dom().contains(claim) ==> self.items@[claim].claim() == claim
    }

    /// The evidence, in the order of its claims.
    pub closed spec fn listed(&self) -> Seq<OsEvidence> {
        self.items.listed().map(|i: int, entry: (ClaimKey, OsEvidence)| entry.1)
    }

    /// An empty record.
    pub fn new() -> (file: Self)
        ensures
            file@ == Map::<Claim, Support>::empty(),
    {
        let items: OrderedMap<ClaimKey, OsEvidence> = OrderedMap::new();
        assert(items@.dom() =~= Set::empty());
        let file = EvidenceFile { items };
        assert(file@ =~= Map::empty());
        file
    }

    /// How many distinct claims are on record.
    pub fn len(&self) -> (len: usize)
        ensures
            len == self@.dom().len(),
            len == self.listed().len(),
            len <= MAX_OS_EVIDENCE,
    {
        proof {
            use_type_invariant(self);
            assert(self@.dom() =~= self.items@.dom());
        }
        self.items.len()
    }

    /// The `i`th piece of evidence.
    pub fn at(&self, i: usize) -> (evidence: &OsEvidence)
        requires
            i < self.listed().len(),
        ensures
            *evidence == self.listed()[i as int],
            self@.dom().contains(evidence.claim()),
            self@[evidence.claim()] == evidence.support(),
    {
        proof {
            use_type_invariant(self);
        }
        let entry = self.items.at(i);
        &entry.1
    }

    /// The evidence, in the order of its claims.
    pub fn all(&self) -> (all: Vec<&OsEvidence>)
        ensures
            all@.len() == self.listed().len(),
            forall|i: int| 0 <= i < all@.len() ==> *#[trigger] all@[i] == self.listed()[i],
            lists_evidence(self.listed(), self@),
    {
        let values = self.items.values();
        proof {
            use_type_invariant(self);
            let entries = self.items.listed();
            let listed = self.listed();
            let keys = ordered::keys_of(entries);
            assert forall|i: int| 0 <= i < listed.len() implies self@.dom().contains(
                (#[trigger] listed[i]).claim(),
            ) && self@[listed[i].claim()] == listed[i].support() && listed[i].claim()
                == entries[i].0@ by {
                ordered::lemma_place(entries, i);
                assert(self.items@.dom().contains(entries[i].0@));
            }
            assert forall|claim: Claim| #[trigger] self@.dom().contains(claim) implies exists|
                i: int,
            |
                0 <= i < listed.len() && (#[trigger] listed[i]).claim() == claim by {
                assert(keys.to_set().contains(claim));
                let i = choose|i: int| 0 <= i < keys.len() && keys[i] == claim;
                assert(listed[i].claim() == claim);
            }
            assert forall|i: int, j: int| 0 <= i < j < listed.len() implies claimed_before(
                (#[trigger] listed[i]).claim(),
                (#[trigger] listed[j]).claim(),
            ) by {
                assert(ClaimKey::before(entries[i].0.model(), entries[j].0.model()));
            }
        }
        values
    }

    /// Files what one source concluded, and says whether this changed what is on
    /// record.
    pub fn file(&mut self, evidence: OsEvidence) -> (news: bool)
        ensures
            final(self)@ == filed(old(self)@, evidence.claim(), evidence.support()),
            news == (final(self)@ != old(self)@),
    {
        proof {
            use_type_invariant(&*self);
        }
        let ghost (before, was) = (self@, self.items@);
        let ghost (claim, support) = (evidence.claim(), evidence.support());
        let key = ClaimKey::of(&evidence);
        let mut items: OrderedMap<ClaimKey, OsEvidence> = OrderedMap::new();
        assert(items@.dom() =~= Set::empty());
        std::mem::swap(&mut items, &mut self.items);
        assert(before.dom() =~= was.dom());
        let full = items.len() >= MAX_OS_EVIDENCE;
        match items.remove(&key) {
            Some(existing) => {
                let joined = os::join_readings(
                    existing.evidence.as_str(),
                    evidence.evidence.as_str(),
                );
                let changed = evidence.confidence > existing.confidence || !text::same_text(
                    joined.as_str(),
                    existing.evidence.as_str(),
                );
                let confidence: u8 = if evidence.confidence > existing.confidence {
                    evidence.confidence
                } else {
                    existing.confidence
                };
                let kept = OsEvidence {
                    source: existing.source,
                    family: existing.family,
                    device: existing.device,
                    vendor: existing.vendor,
                    product: existing.product,
                    version: existing.version,
                    kernel: existing.kernel,
                    confidence,
                    evidence: joined,
                };
                items.insert(key, kept);
                proof {
                    assert(items@ =~= was.insert(claim, kept));
                    assert(supports(items@) =~= filed(before, claim, support));
                    assert(items@.dom() =~= was.dom());
                    let after = filed(before, claim, support);
                    assert(after[claim] == before[claim] ==> after =~= before);
                    assert(after[claim].evidence == before[claim].evidence
                        && after[claim].confidence == before[claim].confidence ==> after[claim]
                        == before[claim]);
                }
                self.items = items;
                changed
            },
            None => {
                assert(items@ =~= was);
                if full {
                    self.items = items;
                    return false;
                }
                items.insert(key, evidence);
                proof {
                    assert(supports(items@) =~= filed(before, claim, support));
                    assert(filed(before, claim, support).dom().contains(claim));
                }
                self.items = items;
                true
            },
        }
    }

    /// Files another record's evidence into this one, claim by claim.
    pub fn merge(&mut self, other: &EvidenceFile)
        ensures
            final(self)@ == all_filed(old(self)@, other.listed(), other.listed().len() as int),
    {
        let ghost before = self@;
        let n: usize = other.len();
        let mut i: usize = 0;
        while i < n
            invariant
                n == other.listed().len(),
                before == old(self)@,
                i <= n,
                self@ == all_filed(before, other.listed(), i as int),
            decreases n - i,
        {
            let evidence = other.at(i).clone();
            self.file(evidence);
            i = i + 1;
        }
    }
}

impl Clone for OsEvidence {
    fn clone(&self) -> (evidence: Self)
        ensures
            evidence.claim() == self.claim(),
            evidence.support() == self.support(),
    {
        OsEvidence {
            source: self.source,
            family: text::say_again(&self.family),
            device: text::say_again(&self.device),
            vendor: text::say_again(&self.vendor),
            product: text::say_again(&self.product),
            version: text::say_again(&self.version),
            kernel: text::say_again(&self.kernel),
            confidence: self.confidence,
            evidence: self.evidence.as_str().to_owned(),
        }
    }
}

impl Clone for EvidenceFile {
    fn clone(&self) -> (file: Self)
        ensures
            file@ == self@,
    {
        proof {
            use_type_invariant(self);
        }
        let items = self.items.clone();
        proof {
            assert forall|claim: Claim| #[trigger] items@.dom().contains(claim) implies items@[claim].claim()
                == claim && items@[claim].support() == self.items@[claim].support() by {
                assert(cloned(self.items@[claim], items@[claim]));
            }
        }
        let file = EvidenceFile { items };
        assert(file@ =~= self@);
        file
    }
}

// ---------------------------------------------------------------------------
// What holds of every record
// ---------------------------------------------------------------------------

/// Repeating an observation never looks like corroboration: the same claim filed
/// again is still one item, and one whose line is a single reading leaves the
/// record as it was.
pub proof fn lemma_repeating_an_observation_adds_nothing(
    record: Filed,
    claim: Claim,
    support: Support,
)
    requires
        os::is_reading(support.evidence),
        record.dom().finite(),
        !record.dom().contains(claim),
        record.dom().len() < MAX_OS_EVIDENCE,
    ensures
        filed(filed(record, claim, support), claim, support) == filed(record, claim, support),
{
    let once = filed(record, claim, support);
    let line = support.evidence;
    assert(line.subrange(0, line.len() as int) =~= line);
    os::lemma_an_extended_reading_is_recorded_once(line, line);
    assert(filed(once, claim, support)[claim] =~= once[claim]);
    assert(filed(once, claim, support) =~= once);
}

/// The record only grows: no claim on it is lost, no claim grows less sure, and it
/// stays within its bound.
pub proof fn lemma_a_claim_on_record_stays(
    record: Filed,
    claim: Claim,
    support: Support,
    other: Claim,
)
    requires
        record.dom().finite(),
        record.dom().len() <= MAX_OS_EVIDENCE,
        record.dom().contains(other),
    ensures
        filed(record, claim, support).dom().contains(other),
        filed(record, claim, support)[other].confidence >= record[other].confidence,
        filed(record, claim, support).dom().len() <= MAX_OS_EVIDENCE,
{
    assert(record.insert(claim, support).dom() =~= record.dom().insert(claim));
    if record.dom().contains(claim) {
        assert(record.dom().insert(claim) =~= record.dom());
        assert(filed(record, claim, support).dom() =~= record.dom());
    }
}

/// Filing evidence for a claim on record leaves the surer of the two confidences
/// and both lines as one; a new claim is filed as it came, unless eight are on
/// record; and no other claim is touched.
pub proof fn lemma_evidence_is_filed_under_its_claim(
    record: Filed,
    claim: Claim,
    support: Support,
    other: Claim,
)
    ensures
        record.dom().contains(claim) ==> {
            let after = filed(record, claim, support)[claim];
            &&& filed(record, claim, support).dom() =~= record.dom()
            &&& after.confidence >= record[claim].confidence
            &&& after.confidence >= support.confidence
            &&& after.confidence == record[claim].confidence || after.confidence
                == support.confidence
            &&& after.evidence == os::joined(record[claim].evidence, support.evidence)
        },
        !record.dom().contains(claim) && record.dom().len() < 8 ==> filed(
            record,
            claim,
            support,
        ).dom().contains(claim) && filed(record, claim, support)[claim] == support,
        !record.dom().contains(claim) && record.dom().len() >= 8 ==> filed(record, claim, support)
            == record,
        other != claim ==> (filed(record, claim, support).dom().contains(other)
            <==> record.dom().contains(other)),
        other != claim && record.dom().contains(other) ==> filed(record, claim, support)[other]
            == record[other],
{
}

} // verus!
