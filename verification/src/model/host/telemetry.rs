//! # How far away a host is
//!
//! [`HostTelemetry`] holds a sliding window of round-trip measurements and the
//! summaries a report draws from them: the fastest, the typical, and how much
//! they vary.
//!
//! The whole design turns on one distinction. Not every reply is equally good
//! evidence of a path, and the two kinds must not be pooled: see [`RttSource`]
//! for what separates them and [`HostTelemetry`] for how the ranking is applied.

use crate::model::time;
use crate::model::time::{Duration, Instant};
use crate::ordered;
use vstd::prelude::*;

verus! {

/// How many round trips a host keeps by default.
///
/// Ten is enough for a median to mean something and short enough that the window
/// describes the host now rather than an average over an afternoon.
pub const DEFAULT_RTT_SAMPLES: usize = 10;

/// The smallest window [`HostTelemetry::new`] will build.
///
/// One, because a window of zero accepts every sample and keeps none, and
/// nothing says why.
pub const MIN_RTT_SAMPLES: usize = 1;

/// What kind of question a round-trip sample answers, which decides whether it
/// describes the network or the responder.
///
/// A probe aimed at one address is answered as fast as the host and the link
/// allow. A probe put to the whole segment is not: implementations deliberately
/// spread their replies. So the two are not comparable and must not be pooled.
/// Both are kept, and the weaker one is used only where there is nothing better.
#[non_exhaustive]
#[derive(Debug, Clone, Copy, PartialEq, Eq, Structural)]
pub enum RttSource {
    /// A reply to a probe aimed at this host alone. A round trip.
    Direct,
    /// A reply to a probe put to the whole segment. An upper bound on the round
    /// trip, inflated by however long the responder waited before answering.
    SegmentWide,
}

/// One round-trip measurement: when it was taken, what it measured, and what
/// kind of question produced it.
#[derive(Debug, Clone, Copy, PartialEq, Eq, Structural)]
pub struct RttSample {
    /// When the reply arrived, on the monotonic clock: a clock adjustment
    /// mid-scan must not reorder a history.
    pub at: Instant,
    /// The elapsed time between sending the probe and reading the reply.
    pub rtt: Duration,
    /// Whether that elapsed time is a round trip or an upper bound on one.
    pub source: RttSource,
}

/// What a telemetry holds.
#[verifier::ext_equal]
pub struct Measured {
    /// The samples, oldest first.
    pub history: Seq<RttSample>,
    /// How many of them are kept.
    pub window: int,
    /// The hop counter the latest reply arrived with.
    pub hop_counter: Option<u8>,
}

/// The newest samples of a history, as many as the window holds.
pub open spec fn newest(history: Seq<RttSample>, window: int) -> Seq<RttSample> {
    if history.len() > window {
        history.skip(history.len() - window)
    } else {
        history
    }
}

/// The lengths of the round trips to this host alone, oldest first.
pub open spec fn direct(history: Seq<RttSample>) -> Seq<int>
    decreases history.len(),
{
    if history.len() == 0 {
        Seq::empty()
    } else if history.last().source is Direct {
        direct(history.drop_last()).push(history.last().rtt.length())
    } else {
        direct(history.drop_last())
    }
}

/// The lengths of all samples, oldest first.
pub open spec fn lengths(history: Seq<RttSample>) -> Seq<int> {
    history.map(|i: int, sample: RttSample| sample.rtt.length())
}

/// The smallest of some lengths.
pub open spec fn least(s: Seq<int>) -> Option<int>
    decreases s.len(),
{
    if s.len() == 0 {
        None
    } else {
        match least(s.drop_last()) {
            Some(n) if n <= s.last() => Some(n),
            _ => Some(s.last()),
        }
    }
}

/// The largest of some lengths.
pub open spec fn greatest(s: Seq<int>) -> Option<int>
    decreases s.len(),
{
    if s.len() == 0 {
        None
    } else {
        match greatest(s.drop_last()) {
            Some(n) if n > s.last() => Some(n),
            _ => Some(s.last()),
        }
    }
}

/// What some lengths come to together.
pub open spec fn total(s: Seq<int>) -> int
    decreases s.len(),
{
    if s.len() == 0 {
        0
    } else {
        total(s.drop_last()) + s.last()
    }
}

/// The middle of some lengths in ascending order, or half way between the two
/// that are in the middle.
pub open spec fn middle(s: Seq<int>) -> int {
    let sorted = ordered::in_key_order(s, |n: int| n);
    let mid = sorted.len() as int / 2;
    if sorted.len() % 2 == 1 {
        sorted[mid]
    } else {
        sorted[mid - 1] + (sorted[mid] - sorted[mid - 1]) / 2
    }
}

/// A count, and no more than a `u32` counts to.
pub open spec fn counted(n: int) -> int {
    if n > u32::MAX {
        u32::MAX as int
    } else {
        n
    }
}

/// The mean of some lengths, what they come to capped at the longest.
pub open spec fn mean(s: Seq<int>) -> int {
    time::capped(total(s)) / counted(s.len() as int)
}

/// The distances between consecutive lengths.
pub open spec fn gaps(s: Seq<int>) -> Seq<int> {
    Seq::new(
        (if s.len() == 0 {
            0
        } else {
            s.len() - 1
        }) as nat,
        |i: int|
            if s[i + 1] >= s[i] {
                s[i + 1] - s[i]
            } else {
                s[i] - s[i + 1]
            },
    )
}

/// One figure for a host: drawn from the round trips to it alone where there are
/// any, and otherwise the tightest bound the segment-wide replies give.
pub open spec fn summed_up(history: Seq<RttSample>, figure: spec_fn(Seq<int>) -> int) -> Option<
    int,
> {
    if direct(history).len() > 0 {
        Some(figure(direct(history)))
    } else {
        least(lengths(history))
    }
}

/// An optional length.
pub open spec fn length_of(d: Option<Duration>) -> Option<int> {
    match d {
        Some(d) => Some(d.length()),
        None => None,
    }
}

/// Whether samples stand in the order they arrived in, oldest first.
pub open spec fn chronological(history: Seq<RttSample>) -> bool {
    forall|i: int, j: int|
        0 <= i <= j < history.len() ==> (#[trigger] history[i]).at.nanos <= (
        #[trigger] history[j]).at.nanos
}

/// What is held once one sample more has been placed by when it arrived.
pub open spec fn sampled(here: Measured, sample: RttSample) -> Measured {
    Measured {
        history: newest(
            ordered::placed(here.history, sample, |sample: RttSample| sample.at.nanos as int),
            here.window,
        ),
        ..here
    }
}

/// What is held once another record has been folded in: the later hop counter,
/// the wider window, and the newest samples of both in the order they arrived.
pub open spec fn folded(here: Measured, there: Measured) -> Measured {
    let window = if there.window > here.window {
        there.window
    } else {
        here.window
    };
    Measured {
        history: newest(
            ordered::in_key_order(
                here.history + there.history,
                |sample: RttSample| sample.at.nanos as int,
            ),
            window,
        ),
        window,
        hop_counter: if there.hop_counter is Some {
            there.hop_counter
        } else {
            here.hop_counter
        },
    }
}

/// How the jitter between replies is reported: the mean distance between
/// consecutive round trips to the host alone, where there are two.
pub open spec fn jitter_of(history: Seq<RttSample>) -> Option<int> {
    if direct(history).len() > 1 {
        Some(mean(gaps(direct(history))))
    } else {
        None
    }
}

/// A length as it is written.
pub open spec fn written_length(nanos: int) -> Seq<char> {
    time::duration_text((nanos / 1_000_000_000) as u64, (nanos % 1_000_000_000) as u32)
}

/// A telemetry as one line.
pub open spec fn rendered(held: Measured) -> Seq<char> {
    match summed_up(held.history, |s: Seq<int>| mean(s)) {
        Some(average) => "avg="@ + written_length(average) + ", jitter="@ + written_length(
            match jitter_of(held.history) {
                Some(jitter) => jitter,
                None => 0,
            },
        ),
        None => "no telemetry"@,
    }
}

/// A host's recent round trips, and the summaries drawn from them.
///
/// A sliding window rather than every sample ever taken. Every statistic is
/// computed over the host's [`RttSource::Direct`] samples when it has any, and
/// falls back to the segment-wide ones only when it has none. The ranking is
/// applied at the point the numbers are read rather than when they are recorded.
#[derive(Debug, PartialEq, Eq)]
pub struct HostTelemetry {
    /// The recent measurements, oldest first.
    rtt_history: Vec<RttSample>,
    /// How many samples the window holds before the oldest is dropped.
    max_samples: usize,
    /// The hop counter the most recent reply from this host arrived with: the
    /// starting value minus the distance.
    hop_counter: Option<u8>,
}

impl View for HostTelemetry {
    type V = Measured;

    closed spec fn view(&self) -> Measured {
        Measured {
            history: self.rtt_history@,
            window: self.max_samples as int,
            hop_counter: self.hop_counter,
        }
    }
}

impl HostTelemetry {
    #[verifier::type_invariant]
    spec fn within_its_window(self) -> bool {
        &&& self.max_samples >= MIN_RTT_SAMPLES
        &&& self.rtt_history@.len() <= self.max_samples
        &&& chronological(self.rtt_history@)
    }

    /// A telemetry whose window holds `max_samples` round trips, raised to one if
    /// it is smaller.
    pub fn new(max_samples: usize) -> (telemetry: Self)
        ensures
            telemetry@ == (Measured {
                history: Seq::empty(),
                window: if max_samples < MIN_RTT_SAMPLES {
                    MIN_RTT_SAMPLES as int
                } else {
                    max_samples as int
                },
                hop_counter: None,
            }),
    {
        let window: usize = if max_samples < MIN_RTT_SAMPLES {
            MIN_RTT_SAMPLES
        } else {
            max_samples
        };
        Self { rtt_history: Vec::new(), max_samples: window, hop_counter: None }
    }

    /// How many samples the window holds.
    pub fn max_samples(&self) -> (max_samples: usize)
        ensures
            max_samples == self@.window,
            max_samples >= MIN_RTT_SAMPLES,
    {
        proof {
            use_type_invariant(self);
        }
        self.max_samples
    }

    /// Resizes the window, discarding the oldest samples if it shrinks.
    ///
    /// Trimming here rather than at the next insertion means the history never
    /// holds more than the window says it does.
    pub fn set_max_samples(&mut self, max_samples: usize)
        ensures
            ({
                let window = if max_samples < MIN_RTT_SAMPLES {
                    MIN_RTT_SAMPLES as int
                } else {
                    max_samples as int
                };
                final(self)@ == (Measured {
                    history: newest(old(self)@.history, window),
                    window,
                    ..old(self)@
                })
            }),
    {
        proof {
            use_type_invariant(&*self);
        }
        let window: usize = if max_samples < MIN_RTT_SAMPLES {
            MIN_RTT_SAMPLES
        } else {
            max_samples
        };
        let kept = keep_newest(&self.rtt_history, window);
        *self = HostTelemetry {
            rtt_history: kept,
            max_samples: window,
            hop_counter: self.hop_counter,
        };
    }

    /// The sample history, oldest first.
    pub fn history(&self) -> (history: &Vec<RttSample>)
        ensures
            history@ == self@.history,
            history@.len() <= self@.window,
            chronological(history@),
    {
        proof {
            use_type_invariant(self);
        }
        &self.rtt_history
    }

    /// Records a round trip that a probe aimed at this host alone took, whose
    /// reply arrived at `at`, after every sample that arrived no later.
    pub fn add_rtt(&mut self, at: Instant, rtt: Duration)
        ensures
            final(self)@ == sampled(
                old(self)@,
                RttSample { at, rtt, source: RttSource::Direct },
            ),
    {
        self.push(RttSample { at, rtt, source: RttSource::Direct });
    }

    /// [`add_rtt`](Self::add_rtt) for a reply that answers a probe the whole
    /// segment was asked.
    pub fn add_segment_wide_rtt(&mut self, at: Instant, rtt: Duration)
        ensures
            final(self)@ == sampled(
                old(self)@,
                RttSample { at, rtt, source: RttSource::SegmentWide },
            ),
    {
        self.push(RttSample { at, rtt, source: RttSource::SegmentWide });
    }

    fn push(&mut self, sample: RttSample)
        ensures
            final(self)@ == sampled(old(self)@, sample),
    {
        proof {
            use_type_invariant(&*self);
        }
        let mut history: Vec<RttSample> = Vec::new();
        std::mem::swap(&mut history, &mut self.rtt_history);
        proof {
            lemma_placed_by_time(history@, sample);
        }
        place(&mut history, sample);
        self.rtt_history = keep_newest(&history, self.max_samples);
    }

    /// Records the hop counter a reply from this host arrived with.
    pub fn record_hop_counter(&mut self, arrived: u8)
        ensures
            final(self)@ == (Measured { hop_counter: Some(arrived), ..old(self)@ }),
    {
        proof {
            use_type_invariant(&*self);
        }
        self.hop_counter = Some(arrived);
    }

    /// The hop counter the most recent reply arrived with, if any reply did.
    pub fn hop_counter(&self) -> (arrived: Option<u8>)
        ensures
            arrived == self@.hop_counter,
    {
        self.hop_counter
    }

    /// The round trips to this host alone, oldest first.
    ///
    /// A host is described by the best evidence it produced, not by the average
    /// of good evidence and bad: a single direct sample retires the whole weaker
    /// class.
    fn direct(&self) -> (lengths: Vec<u128>)
        ensures
            numbers(lengths@) == direct(self@.history),
            forall|i: int| 0 <= i < lengths@.len() ==> #[trigger] lengths@[i] <= time::LONGEST,
    {
        let mut lengths: Vec<u128> = Vec::new();
        let ghost history = self@.history;
        let mut i: usize = 0;
        assert(history.take(0) =~= Seq::empty());
        assert(numbers(lengths@) =~= Seq::empty());
        while i < self.rtt_history.len()
            invariant
                history == self.rtt_history@,
                i <= history.len(),
                numbers(lengths@) == direct(history.take(i as int)),
                forall|j: int| 0 <= j < lengths@.len() ==> #[trigger] lengths@[j] <= time::LONGEST,
            decreases history.len() - i,
        {
            let sample = self.rtt_history[i];
            let ghost was = lengths@;
            assert(history.take(i + 1).drop_last() =~= history.take(i as int));
            assert(history.take(i + 1).last() == sample);
            match sample.source {
                RttSource::Direct => {
                    lengths.push(sample.rtt.as_nanos());
                    assert(numbers(lengths@) =~= numbers(was).push(sample.rtt.length()));
                },
                RttSource::SegmentWide => {},
            }
            i = i + 1;
        }
        assert(history.take(i as int) =~= history);
        lengths
    }

    /// The one figure a host with nothing but segment-wide samples is described
    /// by: the smallest of them, which is the tightest bound on the path.
    fn tightest_bound(&self) -> (bound: Option<Duration>)
        ensures
            length_of(bound) == least(lengths(self@.history)),
    {
        let ghost history = self@.history;
        let mut bound: Option<Duration> = None;
        let mut i: usize = 0;
        assert(lengths(history).take(0) =~= Seq::empty());
        while i < self.rtt_history.len()
            invariant
                history == self.rtt_history@,
                i <= history.len(),
                length_of(bound) == least(lengths(history).take(i as int)),
            decreases history.len() - i,
        {
            let rtt = self.rtt_history[i].rtt;
            assert(lengths(history).take(i + 1).drop_last() =~= lengths(history).take(i as int));
            bound = match bound {
                Some(least) => if least.as_nanos() <= rtt.as_nanos() {
                    Some(least)
                } else {
                    Some(rtt)
                },
                None => Some(rtt),
            };
            i = i + 1;
        }
        assert(lengths(history).take(i as int) =~= lengths(history));
        bound
    }

    /// The fastest round trip in the window, and the closest this type comes to
    /// a measurement of the path alone. `None` until something has answered.
    pub fn min_rtt(&self) -> (rtt: Option<Duration>)
        ensures
            length_of(rtt) == summed_up(self@.history, |s: Seq<int>| least(s)->0),
    {
        let direct = self.direct();
        if direct.len() == 0 {
            return self.tightest_bound();
        }
        let ghost all = numbers(direct@);
        let mut best: u128 = direct[0];
        let mut i: usize = 1;
        proof {
            assert(all.take(1).drop_last() =~= Seq::empty());
            assert(least(all.take(1).drop_last()) is None);
        }
        while i < direct.len()
            invariant
                all == numbers(direct@),
                forall|j: int| 0 <= j < direct@.len() ==> #[trigger] direct@[j] <= time::LONGEST,
                1 <= i <= direct@.len(),
                best <= time::LONGEST,
                least(all.take(i as int)) == Some(best as int),
            decreases direct@.len() - i,
        {
            assert(all.take(i + 1).drop_last() =~= all.take(i as int));
            if best > direct[i] {
                best = direct[i];
            }
            i = i + 1;
        }
        assert(all.take(i as int) =~= all);
        Some(Duration::of_nanos(best))
    }

    /// The slowest round trip in the window.
    ///
    /// A host with only [`RttSource::SegmentWide`] samples has no slowest round
    /// trip, and this answers with the same one figure the rest do: the tightest
    /// bound those samples support, which is the smallest of them.
    pub fn max_rtt(&self) -> (rtt: Option<Duration>)
        ensures
            length_of(rtt) == summed_up(self@.history, |s: Seq<int>| greatest(s)->0),
    {
        let direct = self.direct();
        if direct.len() == 0 {
            return self.tightest_bound();
        }
        let ghost all = numbers(direct@);
        let mut worst: u128 = direct[0];
        let mut i: usize = 1;
        proof {
            assert(all.take(1).drop_last() =~= Seq::empty());
            assert(greatest(all.take(1).drop_last()) is None);
        }
        while i < direct.len()
            invariant
                all == numbers(direct@),
                forall|j: int| 0 <= j < direct@.len() ==> #[trigger] direct@[j] <= time::LONGEST,
                1 <= i <= direct@.len(),
                worst <= time::LONGEST,
                greatest(all.take(i as int)) == Some(worst as int),
            decreases direct@.len() - i,
        {
            assert(all.take(i + 1).drop_last() =~= all.take(i as int));
            if worst <= direct[i] {
                worst = direct[i];
            }
            i = i + 1;
        }
        assert(all.take(i as int) =~= all);
        Some(Duration::of_nanos(worst))
    }

    /// The typical round trip in the window.
    ///
    /// The median is robust against outliers: a single anomalously slow sample
    /// barely moves it. For an even number of samples the two middle values are
    /// averaged.
    pub fn median_rtt(&self) -> (rtt: Option<Duration>)
        ensures
            length_of(rtt) == summed_up(self@.history, |s: Seq<int>| middle(s)),
    {
        let direct = self.direct();
        if direct.len() == 0 {
            return self.tightest_bound();
        }
        let ghost all = numbers(direct@);
        let mut sorted: Vec<u128> = Vec::new();
        let ghost key = |n: int| n;
        let mut i: usize = 0;
        assert(all.take(0) =~= Seq::empty());
        assert(numbers(sorted@) =~= Seq::empty());
        while i < direct.len()
            invariant
                all == numbers(direct@),
                key == (|n: int| n),
                i <= direct@.len(),
                sorted@.len() == i,
                numbers(sorted@) == ordered::in_key_order(all.take(i as int), key),
                forall|j: int| 0 <= j < direct@.len() ==> #[trigger] direct@[j] <= time::LONGEST,
                forall|j: int| 0 <= j < sorted@.len() ==> #[trigger] sorted@[j] <= time::LONGEST,
            decreases direct@.len() - i,
        {
            let one: u128 = direct[i];
            let mut at: usize = sorted.len();
            while at > 0 && sorted[at - 1] > one
                invariant
                    at <= sorted@.len(),
                    forall|j: int| at <= j < sorted@.len() ==> #[trigger] sorted@[j] > one,
                decreases at,
            {
                at = at - 1;
            }
            let ghost was = sorted@;
            proof {
                assert(all.take(i + 1).drop_last() =~= all.take(i as int));
                assert(all.take(i + 1).last() == one);
                ordered::lemma_placed_at(numbers(was), one as int, key, at as int);
            }
            sorted.insert(at, one);
            assert(numbers(sorted@) =~= numbers(was).insert(at as int, one as int));
            i = i + 1;
        }
        assert(all.take(i as int) =~= all);
        proof {
            ordered::lemma_in_key_order(all, key);
        }
        let mid: usize = sorted.len() / 2;
        let value: u128 = if sorted.len() % 2 == 1 {
            sorted[mid]
        } else {
            proof {
                assert(key(numbers(sorted@)[mid - 1]) <= key(numbers(sorted@)[mid as int]));
            }
            sorted[mid - 1] + (sorted[mid] - sorted[mid - 1]) / 2
        };
        Some(Duration::of_nanos(value))
    }

    /// The arithmetic mean of the window's round trips.
    ///
    /// Replaced by the tightest bound for a host that produced no direct sample:
    /// averaging segment-wide replies describes the responder's manners.
    pub fn average_rtt(&self) -> (rtt: Option<Duration>)
        ensures
            length_of(rtt) == summed_up(self@.history, |s: Seq<int>| mean(s)),
    {
        let direct = self.direct();
        if direct.len() == 0 {
            return self.tightest_bound();
        }
        Some(Duration::of_nanos(mean_of(&direct)))
    }

    /// The network jitter: the mean absolute difference between consecutive
    /// round trips to this host alone. The segment-wide class collapses to a
    /// single figure, which has no jitter.
    pub fn jitter(&self) -> (jitter: Option<Duration>)
        ensures
            length_of(jitter) == jitter_of(self@.history),
    {
        let direct = self.direct();
        if direct.len() < 2 {
            return None;
        }
        let ghost all = numbers(direct@);
        let mut between: Vec<u128> = Vec::new();
        let mut i: usize = 1;
        while i < direct.len()
            invariant
                all == numbers(direct@),
                1 <= i <= direct@.len(),
                between@.len() == i - 1,
                forall|j: int| 0 <= j < direct@.len() ==> #[trigger] direct@[j] <= time::LONGEST,
                forall|j: int| 0 <= j < between@.len() ==> #[trigger] between@[j] <= time::LONGEST,
                forall|j: int| 0 <= j < i - 1 ==> #[trigger] between@[j] == gaps(all)[j],
            decreases direct@.len() - i,
        {
            let (before, after): (u128, u128) = (direct[i - 1], direct[i]);
            assert(all[i - 1] == before && all[i as int] == after);
            let gap: u128 = if after >= before {
                after - before
            } else {
                before - after
            };
            assert(gap == gaps(all)[i - 1]);
            between.push(gap);
            i = i + 1;
        }
        assert(numbers(between@) =~= gaps(all));
        Some(Duration::of_nanos(mean_of(&between)))
    }

    /// Folds another record's samples into this one, keeping the combined
    /// history in time order and dropping the oldest of it past the window.
    ///
    /// The window widens to the larger of the two, never narrows. Re-sorted
    /// rather than concatenated because the two records were filled by probes
    /// running at the same time. The other record is the later account, so its
    /// hop counter, where it has one, is the one kept.
    pub fn merge(&mut self, other: HostTelemetry)
        ensures
            final(self)@ == folded(old(self)@, other@),
    {
        proof {
            use_type_invariant(&*self);
            use_type_invariant(&other);
        }
        let window: usize = if other.max_samples > self.max_samples {
            other.max_samples
        } else {
            self.max_samples
        };
        let hop_counter = match other.hop_counter {
            Some(arrived) => Some(arrived),
            None => self.hop_counter,
        };
        let ghost key = |sample: RttSample| sample.at.nanos as int;
        let ghost (here, there) = (self.rtt_history@, other.rtt_history@);
        let mut sorted: Vec<RttSample> = Vec::new();
        let mut i: usize = 0;
        assert(here.take(0) =~= Seq::empty());
        while i < self.rtt_history.len()
            invariant
                key == (|sample: RttSample| sample.at.nanos as int),
                here == self.rtt_history@,
                i <= here.len(),
                sorted@ == ordered::in_key_order(here.take(i as int), key),
            decreases here.len() - i,
        {
            let sample = self.rtt_history[i];
            assert(here.take(i + 1).drop_last() =~= here.take(i as int));
            assert(here.take(i + 1).last() == sample);
            place(&mut sorted, sample);
            i = i + 1;
        }
        assert(here.take(i as int) =~= here);
        let mut j: usize = 0;
        let ghost both = here + there;
        assert(both.take(here.len() as int) =~= here);
        while j < other.rtt_history.len()
            invariant
                key == (|sample: RttSample| sample.at.nanos as int),
                there == other.rtt_history@,
                both == here + there,
                j <= there.len(),
                sorted@ == ordered::in_key_order(both.take(here.len() + j), key),
            decreases there.len() - j,
        {
            let sample = other.rtt_history[j];
            assert(both.take(here.len() + j + 1).drop_last() =~= both.take(here.len() + j));
            assert(both.take(here.len() + j + 1).last() == sample);
            place(&mut sorted, sample);
            j = j + 1;
        }
        proof {
            assert(both.take(here.len() + j) =~= both);
            lemma_ordered_by_time(both);
        }
        let kept = keep_newest(&sorted, window);
        *self = HostTelemetry { rtt_history: kept, max_samples: window, hop_counter };
    }

    /// The telemetry as one line for a reader.
    pub fn to_string(&self) -> (line: String)
        ensures
            line@ == rendered(self@),
    {
        match self.average_rtt() {
            Some(average) => {
                let jitter = match self.jitter() {
                    Some(jitter) => jitter,
                    None => Duration::zero(),
                };
                let (written, varies) = (average.to_string(), jitter.to_string());
                summary_line(written.as_str(), varies.as_str())
            },
            None => "no telemetry".to_owned(),
        }
    }
}

/// One line of a mean round trip and a jitter, each as it is written.
pub fn summary_line(average: &str, jitter: &str) -> (line: String)
    ensures
        line@ == "avg="@ + average@ + ", jitter="@ + jitter@,
{
    let mut line = "avg=".to_owned();
    line.append(average);
    line.append(", jitter=");
    line.append(jitter);
    line
}

/// Lengths, as numbers.
spec fn numbers(s: Seq<u128>) -> Seq<int> {
    s.map(|i: int, n: u128| n as int)
}

/// The newest samples of a history, as many as the window holds.
fn keep_newest(history: &Vec<RttSample>, window: usize) -> (kept: Vec<RttSample>)
    ensures
        kept@ == newest(history@, window as int),
        kept@.len() <= window,
        chronological(history@) ==> chronological(kept@),
{
    let n: usize = history.len();
    let from: usize = if n > window {
        n - window
    } else {
        0
    };
    let mut kept: Vec<RttSample> = Vec::new();
    let mut i: usize = from;
    while i < n
        invariant
            n == history@.len(),
            from <= i <= n,
            kept@ == history@.subrange(from as int, i as int),
        decreases n - i,
    {
        kept.push(history[i]);
        i = i + 1;
        assert(history@.subrange(from as int, i as int) =~= history@.subrange(
            from as int,
            i - 1,
        ).push(history@[i - 1]));
    }
    assert(kept@ =~= newest(history@, window as int));
    assert forall|i: int, j: int|
        chronological(history@) && 0 <= i <= j < kept@.len() implies (#[trigger] kept@[i]).at.nanos
        <= (#[trigger] kept@[j]).at.nanos by {
        assert(kept@[i] == history@[from + i] && kept@[j] == history@[from + j]);
    }
    kept
}

/// Places a sample by when it arrived.
fn place(sorted: &mut Vec<RttSample>, sample: RttSample)
    ensures
        final(sorted)@ == ordered::placed(
            old(sorted)@,
            sample,
            |sample: RttSample| sample.at.nanos as int,
        ),
{
    let ghost key = |sample: RttSample| sample.at.nanos as int;
    let ghost was = sorted@;
    let mut at: usize = sorted.len();
    while at > 0 && sorted[at - 1].at.nanos > sample.at.nanos
        invariant
            was == sorted@,
            at <= sorted@.len(),
            forall|j: int|
                at <= j < sorted@.len() ==> (#[trigger] sorted@[j]).at.nanos > sample.at.nanos,
        decreases at,
    {
        at = at - 1;
    }
    proof {
        ordered::lemma_placed_at(was, sample, key, at as int);
    }
    sorted.insert(at, sample);
}

/// A history a sample is placed into stays in order.
proof fn lemma_placed_by_time(history: Seq<RttSample>, sample: RttSample)
    requires
        chronological(history),
    ensures
        chronological(
            ordered::placed(history, sample, |sample: RttSample| sample.at.nanos as int),
        ),
{
    let key = |sample: RttSample| sample.at.nanos as int;
    assert(ordered::ascends(history, key));
    ordered::lemma_placed(history, sample, key);
    let all = ordered::placed(history, sample, key);
    assert forall|i: int, j: int| 0 <= i <= j < all.len() implies (#[trigger] all[i]).at.nanos <= (
    #[trigger] all[j]).at.nanos by {
        assert(key(all[i]) <= key(all[j]));
    }
}

/// Samples put in order of when they arrived are in order.
proof fn lemma_ordered_by_time(samples: Seq<RttSample>)
    ensures
        chronological(
            ordered::in_key_order(samples, |sample: RttSample| sample.at.nanos as int),
        ),
{
    let key = |sample: RttSample| sample.at.nanos as int;
    ordered::lemma_in_key_order(samples, key);
    let all = ordered::in_key_order(samples, key);
    assert forall|i: int, j: int| 0 <= i <= j < all.len() implies (#[trigger] all[i]).at.nanos <= (
    #[trigger] all[j]).at.nanos by {
        assert(key(all[i]) <= key(all[j]));
    }
}

/// The newest of a history are in the order they were.
proof fn lemma_newest_by_time(history: Seq<RttSample>, window: int)
    requires
        chronological(history),
        window >= 0,
    ensures
        chronological(newest(history, window)),
{
    let kept = newest(history, window);
    let from = history.len() - kept.len();
    assert forall|i: int, j: int| 0 <= i <= j < kept.len() implies (#[trigger] kept[i]).at.nanos <= (
    #[trigger] kept[j]).at.nanos by {
        assert(kept[i] == history[from + i] && kept[j] == history[from + j]);
    }
}

/// The mean of some lengths.
fn mean_of(lengths: &Vec<u128>) -> (average: u128)
    requires
        lengths@.len() > 0,
        forall|i: int| 0 <= i < lengths@.len() ==> #[trigger] lengths@[i] <= time::LONGEST,
    ensures
        average == mean(numbers(lengths@)),
        average <= time::LONGEST,
{
    let ghost all = numbers(lengths@);
    let mut sum: u128 = 0;
    let mut count: u32 = 0;
    let mut i: usize = 0;
    assert(all.take(0) =~= Seq::empty());
    while i < lengths.len()
        invariant
            all == numbers(lengths@),
            forall|j: int| 0 <= j < lengths@.len() ==> #[trigger] lengths@[j] <= time::LONGEST,
            i <= lengths@.len(),
            sum == time::capped(total(all.take(i as int))),
            total(all.take(i as int)) >= 0,
            count == counted(i as int),
        decreases lengths@.len() - i,
    {
        assert(all.take(i + 1).drop_last() =~= all.take(i as int));
        assert(all.take(i + 1).last() == lengths@[i as int]);
        let one: u128 = lengths[i];
        sum = if one > time::LONGEST - sum {
            time::LONGEST
        } else {
            sum + one
        };
        count = count.saturating_add(1);
        i = i + 1;
    }
    assert(all.take(i as int) =~= all);
    let average: u128 = sum / (count as u128);
    proof {
        assert(average <= sum) by (nonlinear_arith)
            requires
                average == sum / (count as u128),
                count >= 1,
        ;
    }
    average
}

impl Clone for HostTelemetry {
    fn clone(&self) -> (telemetry: Self)
        ensures
            telemetry@ == self@,
    {
        proof {
            use_type_invariant(self);
        }
        let kept = keep_newest(&self.rtt_history, self.max_samples);
        HostTelemetry {
            rtt_history: kept,
            max_samples: self.max_samples,
            hop_counter: self.hop_counter,
        }
    }
}

impl Default for HostTelemetry {
    fn default() -> (telemetry: Self)
        ensures
            telemetry@ == (Measured {
                history: Seq::empty(),
                window: DEFAULT_RTT_SAMPLES as int,
                hop_counter: None,
            }),
    {
        Self::new(DEFAULT_RTT_SAMPLES)
    }
}

// ---------------------------------------------------------------------------
// What holds of every history
// ---------------------------------------------------------------------------

/// A history is always in time order, whatever order replies are recorded in and
/// whichever records are folded together: `jitter` reads consecutive pairs, so an
/// out-of-order one would report a difference between samples that were never
/// consecutive.
pub proof fn lemma_a_history_is_in_time_order(
    here: Measured,
    there: Measured,
    sample: RttSample,
    window: int,
)
    requires
        here.window >= 1,
        there.window >= 1,
        window >= 1,
        chronological(here.history),
    ensures
        chronological(sampled(here, sample).history),
        chronological(folded(here, there).history),
        chronological(newest(here.history, window)),
{
    let key = |sample: RttSample| sample.at.nanos as int;
    lemma_placed_by_time(here.history, sample);
    lemma_newest_by_time(ordered::placed(here.history, sample, key), here.window);
    lemma_ordered_by_time(here.history + there.history);
    lemma_newest_by_time(
        ordered::in_key_order(here.history + there.history, key),
        folded(here, there).window,
    );
    lemma_newest_by_time(here.history, window);
}

/// A reply that arrived no earlier than any on record goes to the back, and the
/// oldest gives way to it where the window is full.
pub proof fn lemma_a_later_reply_goes_to_the_back(here: Measured, sample: RttSample)
    requires
        here.history.len() <= here.window,
        here.window >= 1,
        forall|i: int|
            0 <= i < here.history.len() ==> (#[trigger] here.history[i]).at.nanos <= sample.at.nanos,
    ensures
        sampled(here, sample).history == newest(here.history.push(sample), here.window),
        sampled(here, sample).history.last() == sample,
{
}

/// Every sample of a merged history was in one of the two, and where both fit
/// the window none is lost.
pub proof fn lemma_a_merge_keeps_the_samples_that_fit(here: Measured, there: Measured)
    requires
        here.window >= 1,
        there.window >= 1,
        here.history.len() + there.history.len() <= folded(here, there).window,
    ensures
        folded(here, there).history.to_multiset() == (here.history + there.history).to_multiset(),
{
    ordered::lemma_in_key_order(
        here.history + there.history,
        |sample: RttSample| sample.at.nanos as int,
    );
}

/// A segment-wide reply never dilutes a direct one: while the window holds every
/// sample, a further segment-wide reply leaves the round trips every statistic is
/// drawn from as they were.
pub proof fn lemma_a_segment_wide_reply_never_dilutes_a_direct_one(
    here: Measured,
    sample: RttSample,
)
    requires
        sample.source is SegmentWide,
        here.history.len() < here.window,
    ensures
        direct(sampled(here, sample).history) == direct(here.history),
{
    let key = |sample: RttSample| sample.at.nanos as int;
    ordered::lemma_placed(here.history, sample, key);
    lemma_direct_ignores_the_segment(here.history, sample);
}

proof fn lemma_direct_ignores_the_segment(history: Seq<RttSample>, sample: RttSample)
    requires
        sample.source is SegmentWide,
    ensures
        direct(ordered::placed(history, sample, |sample: RttSample| sample.at.nanos as int))
            == direct(history),
    decreases history.len(),
{
    let key = |sample: RttSample| sample.at.nanos as int;
    let all = ordered::placed(history, sample, key);
    if history.len() == 0 || key(history.last()) <= key(sample) {
        assert(all.drop_last() =~= history);
    } else {
        lemma_direct_ignores_the_segment(history.drop_last(), sample);
        assert(all.drop_last() =~= ordered::placed(history.drop_last(), sample, key));
    }
}

proof fn lemma_direct_is_bounded_by_history(history: Seq<RttSample>)
    ensures
        direct(history).len() <= history.len(),
        forall|i: int|
            0 <= i < direct(history).len() ==> lengths(history).contains(
                #[trigger] direct(history)[i],
            ),
    decreases history.len(),
{
    if history.len() > 0 {
        let before = history.drop_last();
        lemma_direct_is_bounded_by_history(before);
        assert forall|i: int| 0 <= i < direct(history).len() implies lengths(history).contains(
            #[trigger] direct(history)[i],
        ) by {
            if i < direct(before).len() {
                assert(direct(history)[i] == direct(before)[i]);
                let k = choose|k: int|
                    0 <= k < lengths(before).len() && lengths(before)[k] == direct(before)[i];
                assert(lengths(history)[k] == direct(history)[i]);
            } else {
                assert(lengths(history)[history.len() - 1] == direct(history)[i]);
            }
        }
    }
}

proof fn lemma_least_and_greatest(s: Seq<int>)
    requires
        s.len() > 0,
    ensures
        least(s) is Some,
        greatest(s) is Some,
        s.contains(least(s)->0),
        s.contains(greatest(s)->0),
        forall|i: int| 0 <= i < s.len() ==> least(s)->0 <= #[trigger] s[i] <= greatest(s)->0,
    decreases s.len(),
{
    let before = s.drop_last();
    assert(s[s.len() - 1] == s.last());
    if before.len() > 0 {
        lemma_least_and_greatest(before);
        let i = choose|i: int| 0 <= i < before.len() && before[i] == least(before)->0;
        let j = choose|j: int| 0 <= j < before.len() && before[j] == greatest(before)->0;
        assert(s[i] == before[i] && s[j] == before[j]);
        assert forall|i: int| 0 <= i < s.len() implies least(s)->0 <= #[trigger] s[i] <= greatest(
            s,
        )->0 by {
            if i < before.len() {
                assert(before[i] == s[i]);
            }
        }
    }
}

/// The fastest round trip is no slower than the typical one, which is no slower
/// than the slowest, and the fastest and the slowest are replies the host gave.
pub proof fn lemma_the_summaries_bracket_each_other(history: Seq<RttSample>)
    requires
        history.len() > 0,
    ensures
        summed_up(history, |s: Seq<int>| least(s)->0) is Some,
        summed_up(history, |s: Seq<int>| least(s)->0)->0 <= summed_up(
            history,
            |s: Seq<int>| middle(s),
        )->0 <= summed_up(history, |s: Seq<int>| greatest(s)->0)->0,
        lengths(history).contains(summed_up(history, |s: Seq<int>| least(s)->0)->0),
        lengths(history).contains(summed_up(history, |s: Seq<int>| greatest(s)->0)->0),
{
    let s = direct(history);
    lemma_direct_is_bounded_by_history(history);
    lemma_least_and_greatest(lengths(history));
    if s.len() > 0 {
        lemma_least_and_greatest(s);
        let (i, j) = (
            choose|i: int| 0 <= i < s.len() && s[i] == least(s)->0,
            choose|j: int| 0 <= j < s.len() && s[j] == greatest(s)->0,
        );
        assert(lengths(history).contains(s[i]) && lengths(history).contains(s[j]));
        let key = |n: int| n;
        let sorted = ordered::in_key_order(s, key);
        ordered::lemma_in_key_order(s, key);
        let mid = sorted.len() as int / 2;
        assert forall|k: int| 0 <= k < sorted.len() implies least(s)->0 <= #[trigger] sorted[k]
            <= greatest(s)->0 by {
            broadcast use vstd::seq_lib::group_to_multiset_ensures;

            assert(sorted.to_multiset().contains(sorted[k]));
            assert(s.contains(sorted[k]));
            let m = choose|m: int| 0 <= m < s.len() && s[m] == sorted[k];
            assert(least(s)->0 <= s[m] <= greatest(s)->0);
        }
        assert(least(s)->0 <= sorted[mid] <= greatest(s)->0);
        if sorted.len() % 2 == 0 {
            assert(key(sorted[mid - 1]) <= key(sorted[mid]));
            assert(least(s)->0 <= sorted[mid - 1] <= greatest(s)->0);
        }
    }
}

/// The samples that are round trips to the host alone.
pub open spec fn round_trips(history: Seq<RttSample>) -> Seq<RttSample> {
    history.filter(|sample: RttSample| sample.source is Direct)
}

/// What some lengths add up to.
pub open spec fn sum_of(s: Seq<int>) -> int {
    s.fold_left(0int, |sum: int, length: int| sum + length)
}

proof fn lemma_direct_is_filtered(history: Seq<RttSample>)
    ensures
        direct(history) == lengths(round_trips(history)),
    decreases history.len(),
{
    let wanted = |sample: RttSample| sample.source is Direct;
    reveal(Seq::filter);
    if history.len() > 0 {
        lemma_direct_is_filtered(history.drop_last());
        let (before, all) = (round_trips(history.drop_last()), round_trips(history));
        if wanted(history.last()) {
            assert(all == before.push(history.last()));
            assert(lengths(all) =~= lengths(before).push(history.last().rtt.length()));
        } else {
            assert(all == before);
        }
    }
    assert(direct(history) =~= lengths(round_trips(history)));
}

proof fn lemma_total_is_a_sum(s: Seq<int>)
    ensures
        total(s) == sum_of(s),
    decreases s.len(),
{
    if s.len() > 0 {
        lemma_total_is_a_sum(s.drop_last());
    }
}

/// What each of some lengths is at least, the sum is that many times at least,
/// and the same of at most.
proof fn lemma_sum_between(s: Seq<int>, lo: int, hi: int)
    requires
        forall|i: int| 0 <= i < s.len() ==> lo <= #[trigger] s[i] <= hi,
    ensures
        s.len() * lo <= sum_of(s) <= s.len() * hi,
    decreases s.len(),
{
    if s.len() > 0 {
        let before = s.drop_last();
        assert(forall|i: int| 0 <= i < before.len() ==> #[trigger] before[i] == s[i]);
        lemma_sum_between(before, lo, hi);
        assert(lo <= s[s.len() - 1] <= hi);
        assert(s.len() * lo == before.len() * lo + lo) by (nonlinear_arith)
            requires
                s.len() == before.len() + 1,
        ;
        assert(s.len() * hi == before.len() * hi + hi) by (nonlinear_arith)
            requires
                s.len() == before.len() + 1,
        ;
    }
}

/// An equal share of a sum: that many of it come to no more than the sum, and
/// one unit more each would come to more.
pub open spec fn shared(sum: int, count: int, share: int) -> bool {
    count * share <= sum < count * (share + 1)
}

proof fn lemma_share(sum: int, count: int)
    requires
        count > 0,
    ensures
        shared(sum, count, sum / count),
{
    vstd::arithmetic::div_mod::lemma_fundamental_div_mod(sum, count);
    assert(count * (sum / count + 1) == count * (sum / count) + count) by (nonlinear_arith);
}

/// A share lies between what every part is at least and at most.
proof fn lemma_share_between(s: Seq<int>, share: int, lo: int, hi: int)
    requires
        s.len() > 0,
        shared(sum_of(s), s.len() as int, share),
        forall|i: int| 0 <= i < s.len() ==> lo <= #[trigger] s[i] <= hi,
    ensures
        lo <= share <= hi,
{
    lemma_sum_between(s, lo, hi);
    let n = s.len() as int;
    assert(lo <= share) by (nonlinear_arith)
        requires
            n > 0,
            n * lo < n * (share + 1),
    ;
    assert(share <= hi) by (nonlinear_arith)
        requires
            n > 0,
            n * share <= n * hi,
    ;
}

/// The average is the equal share of every round trip to the host alone: as many
/// of it as there were such trips come to their sum, but for what is lost in
/// rounding down. So it lies between the fastest and the slowest of them. A sum
/// beyond the longest duration counts as that duration.
pub proof fn lemma_the_average_shares_out_every_round_trip(history: Seq<RttSample>)
    requires
        0 < round_trips(history).len() <= u32::MAX,
    ensures
        ({
            let trips = round_trips(history);
            let sum = sum_of(lengths(trips));
            let longest = 18_446_744_073_709_551_615_999_999_999;
            let average = summed_up(history, |s: Seq<int>| mean(s));
            &&& average is Some
            &&& sum <= longest ==> shared(sum, trips.len() as int, average->0)
            &&& sum > longest ==> shared(longest, trips.len() as int, average->0)
            &&& forall|lo: int, hi: int|
                sum <= longest && #[trigger] lengths_lie_between(trips, lo, hi) ==> lo <= average->0
                    <= hi
        }),
{
    let trips = round_trips(history);
    let s = lengths(trips);
    lemma_direct_is_filtered(history);
    lemma_total_is_a_sum(s);
    lemma_share(time::capped(sum_of(s)), s.len() as int);
    let average = summed_up(history, |s: Seq<int>| mean(s))->0;
    assert(average == mean(s));
    assert forall|lo: int, hi: int|
        sum_of(s) <= time::LONGEST && #[trigger] lengths_lie_between(
            trips,
            lo,
            hi,
        ) implies lo <= average <= hi by {
        lemma_share_between(s, average, lo, hi);
    }
}

/// Whether every sample is at least one length and at most another.
pub open spec fn lengths_lie_between(samples: Seq<RttSample>, lo: int, hi: int) -> bool {
    forall|i: int| 0 <= i < samples.len() ==> lo <= (#[trigger] samples[i]).rtt.length() <= hi
}

/// How far each of some lengths is from the one before it.
pub open spec fn steps_of(s: Seq<int>) -> Seq<int> {
    Seq::new(
        (s.len() - 1) as nat,
        |i: int|
            if s[i] < s[i + 1] {
                s[i + 1] - s[i]
            } else {
                s[i] - s[i + 1]
            },
    )
}

/// The jitter is the equal share of every step from one round trip to the host
/// alone to the next, of which there is one fewer than there are trips. It is
/// never more than the slowest and the fastest are apart. One trip or none has
/// no jitter.
pub proof fn lemma_the_jitter_shares_out_every_step(history: Seq<RttSample>)
    requires
        round_trips(history).len() <= u32::MAX,
    ensures
        ({
            let trips = round_trips(history);
            let sum = sum_of(steps_of(lengths(trips)));
            let longest = 18_446_744_073_709_551_615_999_999_999;
            let jitter = jitter_of(history);
            &&& jitter is Some <==> trips.len() >= 2
            &&& trips.len() >= 2 && sum <= longest ==> shared(sum, trips.len() - 1, jitter->0)
            &&& trips.len() >= 2 && sum > longest ==> shared(longest, trips.len() - 1, jitter->0)
            &&& forall|lo: int, hi: int|
                trips.len() >= 2 && sum <= longest && #[trigger] lengths_lie_between(trips, lo, hi)
                    ==> 0 <= jitter->0 <= hi - lo
        }),
{
    let trips = round_trips(history);
    let s = lengths(trips);
    lemma_direct_is_filtered(history);
    if s.len() >= 2 {
        let steps = steps_of(s);
        assert(gaps(s) =~= steps);
        lemma_total_is_a_sum(steps);
        lemma_share(time::capped(sum_of(steps)), steps.len() as int);
        let jitter = jitter_of(history)->0;
        assert(jitter == mean(steps));
        assert forall|lo: int, hi: int|
            sum_of(steps) <= time::LONGEST && #[trigger] lengths_lie_between(
                trips,
                lo,
                hi,
            ) implies 0 <= jitter <= hi - lo by {
            assert forall|i: int| 0 <= i < steps.len() implies 0 <= #[trigger] steps[i] <= hi
                - lo by {
                assert(lo <= trips[i].rtt.length() <= hi);
                assert(lo <= trips[i + 1].rtt.length() <= hi);
                assert(s[i] == trips[i].rtt.length() && s[i + 1] == trips[i + 1].rtt.length());
            }
            lemma_share_between(steps, jitter, 0, hi - lo);
        }
    }
}

/// Whether a length is the smallest of some samples': one of them has it, and
/// none is shorter.
pub open spec fn is_shortest(samples: Seq<RttSample>, length: int) -> bool {
    &&& exists|i: int| 0 <= i < samples.len() && (#[trigger] samples[i]).rtt.length() == length
    &&& forall|i: int| 0 <= i < samples.len() ==> length <= (#[trigger] samples[i]).rtt.length()
}

/// Whether a length is the largest of some samples'.
pub open spec fn is_longest(samples: Seq<RttSample>, length: int) -> bool {
    &&& exists|i: int| 0 <= i < samples.len() && (#[trigger] samples[i]).rtt.length() == length
    &&& forall|i: int| 0 <= i < samples.len() ==> (#[trigger] samples[i]).rtt.length() <= length
}

proof fn lemma_shortest_and_longest(samples: Seq<RttSample>)
    requires
        samples.len() > 0,
    ensures
        least(lengths(samples)) is Some,
        is_shortest(samples, least(lengths(samples))->0),
        is_longest(samples, greatest(lengths(samples))->0),
{
    let s = lengths(samples);
    lemma_least_and_greatest(s);
    let i = choose|i: int| 0 <= i < s.len() && s[i] == least(s)->0;
    let j = choose|j: int| 0 <= j < s.len() && s[j] == greatest(s)->0;
    assert(samples[i].rtt.length() == s[i] && samples[j].rtt.length() == s[j]);
    assert forall|k: int| 0 <= k < samples.len() implies least(s)->0 <= (
    #[trigger] samples[k]).rtt.length() <= greatest(s)->0 by {
        assert(s[k] == samples[k].rtt.length());
    }
}

/// The fastest and the slowest are those of the round trips to the host alone,
/// where there are any. Where there are none, every figure is the shortest of
/// the segment-wide replies; and a host that never answered has no figure.
pub proof fn lemma_figures_rest_on_round_trips_first(
    history: Seq<RttSample>,
    figure: spec_fn(Seq<int>) -> int,
)
    ensures
        round_trips(history).len() > 0 ==> {
            &&& summed_up(history, |s: Seq<int>| least(s)->0) matches Some(fastest) && is_shortest(
                round_trips(history),
                fastest,
            )
            &&& summed_up(history, |s: Seq<int>| greatest(s)->0) matches Some(slowest)
                && is_longest(round_trips(history), slowest)
            &&& summed_up(history, figure) == Some(figure(lengths(round_trips(history))))
        },
        round_trips(history).len() == 0 && history.len() > 0 ==> {
            &&& summed_up(history, figure) matches Some(bound) && is_shortest(history, bound)
            &&& jitter_of(history) is None
        },
        history.len() == 0 ==> summed_up(history, figure) is None && jitter_of(history) is None,
{
    lemma_direct_is_filtered(history);
    let trips = round_trips(history);
    if trips.len() > 0 {
        lemma_shortest_and_longest(trips);
    } else if history.len() > 0 {
        lemma_shortest_and_longest(history);
    } else {
        assert(direct(history) =~= Seq::empty());
        assert(lengths(history) =~= Seq::empty());
    }
}

/// The median is what stands in the middle of any arrangement of the lengths in
/// ascending order: of an odd number the one in the middle, and of an even
/// number half way between the two there, rounded down.
pub proof fn lemma_the_median_stands_in_the_middle(s: Seq<int>, arranged: Seq<int>)
    requires
        s.len() > 0,
        arranged.to_multiset() == s.to_multiset(),
        forall|i: int, j: int|
            0 <= i <= j < arranged.len() ==> #[trigger] arranged[i] <= #[trigger] arranged[j],
    ensures
        s.len() % 2 == 1 ==> middle(s) == arranged[s.len() as int / 2],
        s.len() % 2 == 0 ==> shared(
            arranged[s.len() as int / 2 - 1] + arranged[s.len() as int / 2],
            2,
            middle(s),
        ),
{
    let key = |n: int| n;
    let sorted = ordered::in_key_order(s, key);
    ordered::lemma_in_key_order(s, key);
    let leq = |a: int, b: int| a <= b;
    assert(vstd::relations::sorted_by(sorted, leq)) by {
        assert forall|i: int, j: int| 0 <= i < j < sorted.len() implies #[trigger] leq(
            sorted[i],
            sorted[j],
        ) by {
            assert(key(sorted[i]) <= key(sorted[j]));
        }
    }
    assert(vstd::relations::sorted_by(arranged, leq));
    vstd::seq_lib::lemma_sorted_unique(sorted, arranged, leq);
    let mid = s.len() as int / 2;
    if s.len() % 2 == 0 {
        assert(arranged[mid - 1] <= arranged[mid]);
    }
}

/// Whether a record of some samples keeps the latest of those it was offered:
/// nothing that was not offered, as many as the window holds, and none that
/// arrived before one that is left out.
pub open spec fn keeps_the_latest(
    kept: Seq<RttSample>,
    left_out: Seq<RttSample>,
    offered: Seq<RttSample>,
    window: int,
) -> bool {
    &&& (left_out + kept).to_multiset() == offered.to_multiset()
    &&& kept.len() == if offered.len() < window {
        offered.len() as int
    } else {
        window
    }
    &&& forall|i: int, j: int|
        0 <= i < left_out.len() && 0 <= j < kept.len() ==> (#[trigger] left_out[i]).at.nanos <= (
        #[trigger] kept[j]).at.nanos
}

proof fn lemma_newest_are_the_latest(arranged: Seq<RttSample>, window: int)
    requires
        window >= 1,
        chronological(arranged),
    ensures
        exists|left_out: Seq<RttSample>| #[trigger]
            keeps_the_latest(newest(arranged, window), left_out, arranged, window),
{
    let kept = newest(arranged, window);
    let left_out = arranged.take(arranged.len() - kept.len());
    assert(left_out + kept =~= arranged);
    assert forall|i: int, j: int|
        0 <= i < left_out.len() && 0 <= j < kept.len() implies (
    #[trigger] left_out[i]).at.nanos <= (#[trigger] kept[j]).at.nanos by {
        assert(left_out[i] == arranged[i]);
        assert(kept[j] == arranged[left_out.len() + j]);
    }
    assert(keeps_the_latest(kept, left_out, arranged, window));
}

/// A window keeps the latest of what it held and one reply more, and a merge the
/// latest of what both held, in the wider of the two windows. Only a merge
/// touches the window or the hop counter: the other record's counter stands
/// where it has one.
pub proof fn lemma_a_window_keeps_the_latest(here: Measured, there: Measured, sample: RttSample)
    requires
        here.window >= 1,
        there.window >= 1,
        chronological(here.history),
    ensures
        exists|left_out: Seq<RttSample>| #[trigger]
            keeps_the_latest(
                sampled(here, sample).history,
                left_out,
                here.history.push(sample),
                here.window,
            ),
        sampled(here, sample).window == here.window,
        sampled(here, sample).hop_counter == here.hop_counter,
        exists|left_out: Seq<RttSample>| #[trigger]
            keeps_the_latest(
                folded(here, there).history,
                left_out,
                here.history + there.history,
                folded(here, there).window,
            ),
        folded(here, there).window >= here.window,
        folded(here, there).window >= there.window,
        folded(here, there).window == here.window || folded(here, there).window == there.window,
        there.hop_counter is Some ==> folded(here, there).hop_counter == there.hop_counter,
        there.hop_counter is None ==> folded(here, there).hop_counter == here.hop_counter,
{
    broadcast use vstd::seq_lib::group_to_multiset_ensures;

    let key = |sample: RttSample| sample.at.nanos as int;
    let one_more = ordered::placed(here.history, sample, key);
    lemma_placed_by_time(here.history, sample);
    ordered::lemma_placed(here.history, sample, key);
    lemma_newest_are_the_latest(one_more, here.window);
    let left_out = choose|left_out: Seq<RttSample>| #[trigger]
        keeps_the_latest(newest(one_more, here.window), left_out, one_more, here.window);
    assert(keeps_the_latest(
        sampled(here, sample).history,
        left_out,
        here.history.push(sample),
        here.window,
    ));
    let both = here.history + there.history;
    let arranged = ordered::in_key_order(both, key);
    let window = folded(here, there).window;
    lemma_ordered_by_time(both);
    ordered::lemma_in_key_order(both, key);
    lemma_newest_are_the_latest(arranged, window);
    let left_out = choose|left_out: Seq<RttSample>| #[trigger]
        keeps_the_latest(newest(arranged, window), left_out, arranged, window);
    assert(keeps_the_latest(folded(here, there).history, left_out, both, window));
}

/// A telemetry's line names the average where there is one and the jitter, nothing
/// where there is no second round trip to tell it by, and says so where nothing was
/// measured.
pub proof fn lemma_a_line_gives_the_average_and_the_jitter(held: Measured)
    ensures
        match summed_up(held.history, |s: Seq<int>| mean(s)) {
            Some(average) => {
                let jitter = match jitter_of(held.history) {
                    Some(jitter) => jitter,
                    None => 0,
                };
                let named = seq!['a', 'v', 'g', '='] + written_length(average);
                &&& named.is_prefix_of(rendered(held))
                &&& rendered(held).skip(named.len() as int) == seq![
                    ',',
                    ' ',
                    'j',
                    'i',
                    't',
                    't',
                    'e',
                    'r',
                    '=',
                ] + written_length(jitter)
            },
            None => held.history.len() == 0 && rendered(held) == "no telemetry"@,
        },
{
    reveal_strlit("avg=");
    reveal_strlit(", jitter=");
    lemma_figures_rest_on_round_trips_first(held.history, |s: Seq<int>| mean(s));
    match summed_up(held.history, |s: Seq<int>| mean(s)) {
        Some(average) => {
            let jitter = match jitter_of(held.history) {
                Some(jitter) => jitter,
                None => 0,
            };
            assert("avg="@ =~= seq!['a', 'v', 'g', '=']);
            assert(", jitter="@ =~= seq![',', ' ', 'j', 'i', 't', 't', 'e', 'r', '=']);
            let named = "avg="@ + written_length(average);
            let behind = ", jitter="@ + written_length(jitter);
            let line = rendered(held);
            assert(line =~= named + behind);
            assert(line.subrange(0, named.len() as int) =~= named);
            assert(line.skip(named.len() as int) =~= behind);
        },
        None => {},
    }
}

} // verus!
