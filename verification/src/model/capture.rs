//! # What a capture saw, and what it did with it
//!
//! [`CaptureCounts`] is written by the capture and read by the report.
//! [`IpObservation`] is written by the capture and read by whatever wants to know
//! what a stack put in its headers.

use vstd::prelude::*;

verus! {

/// What a reply's IP header said, past the addressing the scanner needed to
/// correlate it.
///
/// Everything past the addresses and the protocol is a fact about the stack that
/// emitted the packet, chosen by its authors and nearly identical across every
/// packet that stack will ever send.
///
/// Split by family rather than flattened: half these fields exist in one family
/// and not the other, and an enum makes the question unaskable in the family
/// where it has no answer.
#[derive(Debug, Clone, Copy, PartialEq, Eq, Hash, Structural)]
pub enum IpObservation {
    /// What an IPv4 header said.
    V4(Ipv4Observation),
    /// What an IPv6 header said.
    V6(Ipv6Observation),
}

impl IpObservation {
    /// The hop counter as it arrived: an IPv4 TTL or an IPv6 hop limit.
    ///
    /// This is not the value the sender wrote. Every router on the path
    /// decrements it.
    pub fn remaining_hops(self) -> (hops: u8)
        ensures
            hops == match self {
                IpObservation::V4(observed) => observed.ttl,
                IpObservation::V6(observed) => observed.hop_limit,
            },
    {
        match self {
            IpObservation::V4(observed) => observed.ttl,
            IpObservation::V6(observed) => observed.hop_limit,
        }
    }

    /// Whether the reply arrived as a fragment rather than a whole datagram.
    ///
    /// Worth asking before reading anything else here: a fragmented reply is
    /// evidence about the path, not about the sender. An IPv6 fragment carries an
    /// extension header this does not hold, so it is never told apart here.
    pub fn is_fragment(self) -> (fragment: bool)
        ensures
            fragment == match self {
                IpObservation::V4(observed) => observed.more_fragments,
                IpObservation::V6(_) => false,
            },
    {
        match self {
            IpObservation::V4(observed) => observed.more_fragments,
            IpObservation::V6(_) => false,
        }
    }
}

/// The fields of an IPv4 header that describe the stack that wrote it.
#[derive(Debug, Clone, Copy, PartialEq, Eq, Hash, Structural)]
pub struct Ipv4Observation {
    /// The time-to-live as it arrived, already decremented once per hop crossed.
    pub ttl: u8,
    /// The fragment identifier, interesting for how it changes across replies.
    pub identification: u16,
    /// Whether the sender forbade fragmentation in transit.
    pub dont_fragment: bool,
    /// Whether more fragments of this datagram follow.
    pub more_fragments: bool,
    /// Differentiated services, six bits.
    pub dscp: u8,
    /// Explicit congestion notification, two bits.
    pub ecn: u8,
}

/// The fields of an IPv6 header that describe the stack that wrote it.
#[derive(Debug, Clone, Copy, PartialEq, Eq, Hash, Structural)]
pub struct Ipv6Observation {
    /// The hop limit as it arrived, already decremented once per hop crossed.
    pub hop_limit: u8,
    /// Traffic class, eight bits.
    pub traffic_class: u8,
    /// The flow label, twenty bits.
    pub flow_label: u32,
}

/// What the kernel did with the frames its filter admitted, cumulative over a
/// capture's lifetime.
///
/// `dropped` is the field this exists for: a reply lost there is
/// indistinguishable from a host that did not answer.
#[derive(Debug, Clone, Copy, PartialEq, Eq, Structural)]
pub struct CaptureCounts {
    /// Frames the capture accepted and handed to this process.
    pub received: u64,
    /// Frames discarded because the buffer was full when they arrived.
    pub dropped: u64,
    /// Frames discarded by the interface or its driver before the capture saw
    /// them. Not every platform reports this.
    pub if_dropped: u64,
}

/// A sum of two counts, and no more than a count counts to.
pub open spec fn saturated(a: u64, b: u64) -> u64 {
    if a + b > u64::MAX {
        u64::MAX
    } else {
        (a + b) as u64
    }
}

/// Two captures' counts together, field by field.
pub open spec fn summed(a: CaptureCounts, b: CaptureCounts) -> CaptureCounts {
    CaptureCounts {
        received: saturated(a.received, b.received),
        dropped: saturated(a.dropped, b.dropped),
        if_dropped: saturated(a.if_dropped, b.if_dropped),
    }
}

/// Several captures' counts together.
pub open spec fn summed_over(counts: Seq<CaptureCounts>) -> CaptureCounts
    decreases counts.len(),
{
    if counts.len() == 0 {
        CaptureCounts { received: 0, dropped: 0, if_dropped: 0 }
    } else {
        summed(summed_over(counts.drop_last()), counts.last())
    }
}

impl Default for CaptureCounts {
    fn default() -> (counts: Self)
        ensures
            counts == (CaptureCounts { received: 0, dropped: 0, if_dropped: 0 }),
    {
        CaptureCounts { received: 0, dropped: 0, if_dropped: 0 }
    }
}

impl std::ops::Add for CaptureCounts {
    type Output = Self;

    /// Saturating, like every other count in the model: a wrapped total reads as
    /// a quiet capture and would be believed.
    fn add(self, other: Self) -> (total: Self) {
        CaptureCounts {
            received: self.received.saturating_add(other.received),
            dropped: self.dropped.saturating_add(other.dropped),
            if_dropped: self.if_dropped.saturating_add(other.if_dropped),
        }
    }
}

impl vstd::std_specs::ops::AddSpecImpl for CaptureCounts {
    open spec fn obeys_add_spec() -> bool {
        true
    }

    open spec fn add_req(self, other: Self) -> bool {
        true
    }

    open spec fn add_spec(self, other: Self) -> Self {
        summed(self, other)
    }
}

impl CaptureCounts {
    /// Adds another capture's counts to these.
    pub fn absorb(&mut self, other: CaptureCounts)
        ensures
            *final(self) == summed(*old(self), other),
    {
        *self = *self + other;
    }

    /// Totals a scan's captures. None of them total to all zeros, which is what a
    /// scan that opened no capture observed.
    pub fn sum(counts: &[CaptureCounts]) -> (total: CaptureCounts)
        ensures
            total == summed_over(counts@),
    {
        let mut total = CaptureCounts { received: 0, dropped: 0, if_dropped: 0 };
        let mut i: usize = 0;
        assert(counts@.take(0) =~= Seq::empty());
        while i < counts.len()
            invariant
                i <= counts@.len(),
                total == summed_over(counts@.take(i as int)),
            decreases counts@.len() - i,
        {
            assert(counts@.take(i + 1).drop_last() =~= counts@.take(i as int));
            total = total + counts[i];
            i = i + 1;
        }
        assert(counts@.take(i as int) =~= counts@);
        total
    }
}

/// Counts from two captures are the same total in either order, and three in
/// either grouping.
pub proof fn lemma_counts_add_in_any_order(a: CaptureCounts, b: CaptureCounts, c: CaptureCounts)
    ensures
        summed(a, b) == summed(b, a),
        summed(summed(a, b), c) == summed(a, summed(b, c)),
{
}

/// A total never falls below what it was drawn from.
pub proof fn lemma_a_total_is_no_undercount(a: CaptureCounts, b: CaptureCounts)
    ensures
        summed(a, b).received >= a.received,
        summed(a, b).dropped >= a.dropped,
        summed(a, b).if_dropped >= a.if_dropped,
{
}

/// A count as far as it goes: a sum that fits is that sum, and any other is as much
/// as a count holds.
pub open spec fn counts_to(count: u64, sum: int) -> bool {
    if sum <= 18_446_744_073_709_551_615 {
        count == sum
    } else {
        count == 18_446_744_073_709_551_615
    }
}

/// One capture's counts added to another's are the sums of the counts, and the
/// counts of several captures are the sums over all of them, each as far as a count
/// goes.
pub proof fn lemma_a_total_counts_every_frame(
    a: CaptureCounts,
    b: CaptureCounts,
    counts: Seq<CaptureCounts>,
)
    ensures
        counts_to(summed(a, b).received, a.received + b.received),
        counts_to(summed(a, b).dropped, a.dropped + b.dropped),
        counts_to(summed(a, b).if_dropped, a.if_dropped + b.if_dropped),
        counts_to(
            summed_over(counts).received,
            counts.fold_left(0int, |sum: int, c: CaptureCounts| sum + c.received),
        ),
        counts_to(
            summed_over(counts).dropped,
            counts.fold_left(0int, |sum: int, c: CaptureCounts| sum + c.dropped),
        ),
        counts_to(
            summed_over(counts).if_dropped,
            counts.fold_left(0int, |sum: int, c: CaptureCounts| sum + c.if_dropped),
        ),
    decreases counts.len(),
{
    if counts.len() > 0 {
        lemma_a_total_counts_every_frame(a, b, counts.drop_last());
    }
}

} // verus!
