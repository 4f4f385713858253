//! How far away a host is.

use zond_engine::model::host::telemetry::{summary_line, HostTelemetry, MIN_RTT_SAMPLES};
use zond_engine::model::time::{Duration, Instant};

fn ms(millis: u64) -> Duration {
    Duration::from_millis(millis)
}

/// A telemetry that takes each sample a nanosecond after the one before.
struct Clocked {
    telemetry: HostTelemetry,
    now: u128,
}

impl Clocked {
    fn new(max_samples: usize) -> Self {
        Clocked {
            telemetry: HostTelemetry::new(max_samples),
            now: 0,
        }
    }

    fn add_rtt(&mut self, rtt: Duration) {
        self.now += 1;
        self.telemetry.add_rtt(Instant { nanos: self.now }, rtt);
    }

    fn add_segment_wide_rtt(&mut self, rtt: Duration) {
        self.now += 1;
        self.telemetry
            .add_segment_wide_rtt(Instant { nanos: self.now }, rtt);
    }
}

#[test]
fn a_window_is_never_smaller_than_one_sample() {
    let mut asked_for_none = Clocked::new(0);
    assert_eq!(asked_for_none.telemetry.max_samples(), MIN_RTT_SAMPLES);

    asked_for_none.add_rtt(ms(5));
    assert_eq!(
        asked_for_none.telemetry.history().len(),
        1,
        "the sample is kept"
    );
    assert_eq!(asked_for_none.telemetry.min_rtt(), Some(ms(5)));

    // And the same floor when a window is narrowed afterwards.
    let mut narrowed = Clocked::new(4);
    narrowed.add_rtt(ms(1));
    narrowed.add_rtt(ms(2));
    narrowed.telemetry.set_max_samples(0);
    assert_eq!(narrowed.telemetry.max_samples(), MIN_RTT_SAMPLES);
    assert_eq!(
        narrowed.telemetry.history().len(),
        1,
        "trimmed to the floor, not to nothing"
    );
}

#[test]
fn segment_wide_samples_alone_give_every_statistic_one_figure() {
    let mut bounded = Clocked::new(10);
    bounded.add_segment_wide_rtt(ms(10));
    bounded.add_segment_wide_rtt(ms(90));

    let tightest = Some(ms(10));
    assert_eq!(bounded.telemetry.min_rtt(), tightest);
    assert_eq!(
        bounded.telemetry.max_rtt(),
        tightest,
        "not the slowest of the two"
    );
    assert_eq!(
        bounded.telemetry.median_rtt(),
        tightest,
        "not their median, 50"
    );
    assert_eq!(
        bounded.telemetry.average_rtt(),
        tightest,
        "not their mean, 50"
    );

    // One direct reply retires the class, and the four part company again.
    bounded.add_rtt(ms(20));
    assert_eq!(bounded.telemetry.min_rtt(), Some(ms(20)));
    assert_eq!(bounded.telemetry.max_rtt(), Some(ms(20)));
}

#[test]
fn a_window_with_no_samples_reports_no_statistics() {
    let empty = HostTelemetry::new(10);

    assert_eq!(empty.average_rtt(), None);
    assert_eq!(empty.median_rtt(), None);
    assert_eq!(empty.jitter(), None);
    assert_eq!(empty.min_rtt(), None);
    assert_eq!(empty.max_rtt(), None);
}

#[test]
fn a_segment_wide_sample_never_dilutes_a_direct_one() {
    let mut t = Clocked::new(10);
    t.add_segment_wide_rtt(ms(72));
    t.add_rtt(ms(7));
    t.add_segment_wide_rtt(ms(71));
    t.add_rtt(ms(5));

    assert_eq!(t.telemetry.median_rtt(), Some(ms(6)));
    assert_eq!(t.telemetry.min_rtt(), Some(ms(5)));
    assert_eq!(t.telemetry.max_rtt(), Some(ms(7)));
    assert_eq!(
        t.telemetry.history().len(),
        4,
        "the weaker samples are ranked below, not thrown away"
    );
}

#[test]
fn ranking_does_not_depend_on_which_reply_arrived_first() {
    let mut early = Clocked::new(10);
    early.add_rtt(ms(5));
    early.add_segment_wide_rtt(ms(72));

    let mut late = Clocked::new(10);
    late.add_segment_wide_rtt(ms(72));
    late.add_rtt(ms(5));

    assert_eq!(early.telemetry.median_rtt(), late.telemetry.median_rtt());
    assert_eq!(early.telemetry.median_rtt(), Some(ms(5)));
}

#[test]
fn a_host_with_only_segment_wide_samples_still_reports_latency() {
    let mut t = Clocked::new(10);
    t.add_segment_wide_rtt(ms(72));
    t.add_segment_wide_rtt(ms(219));

    assert_eq!(t.telemetry.min_rtt(), Some(ms(72)));
    assert!(t.telemetry.average_rtt().is_some());
}

#[test]
fn segment_wide_samples_report_the_tightest_bound_not_their_midpoint() {
    let mut t = Clocked::new(10);
    t.add_segment_wide_rtt(ms(104));
    t.add_segment_wide_rtt(ms(1_549));

    assert_eq!(
        t.telemetry.median_rtt(),
        Some(ms(104)),
        "the reported figure has to be a reply the segment actually gave"
    );
    assert_eq!(t.telemetry.max_rtt(), Some(ms(104)));
    assert_eq!(t.telemetry.average_rtt(), Some(ms(104)));
    assert_eq!(
        t.telemetry.history().len(),
        2,
        "both replies stay on record; only the summary of them narrows"
    );
}

#[test]
fn direct_samples_are_still_summarized_by_the_median() {
    let mut t = Clocked::new(10);
    t.add_rtt(ms(5));
    t.add_rtt(ms(7));
    t.add_rtt(ms(200));

    assert_eq!(t.telemetry.median_rtt(), Some(ms(7)));
    assert_eq!(t.telemetry.max_rtt(), Some(ms(200)));
}

#[test]
fn the_average_is_the_mean_of_the_direct_samples() {
    let mut t = Clocked::new(5);
    t.add_rtt(ms(10));
    t.add_rtt(ms(20));
    assert_eq!(t.telemetry.average_rtt(), Some(ms(15)));
}

#[test]
fn jitter_averages_the_gaps_between_consecutive_samples() {
    let mut t = Clocked::new(5);
    t.add_rtt(ms(100)); // prev
    t.add_rtt(ms(110)); // diff 10
    t.add_rtt(ms(105)); // diff 5
    // (10 + 5) / 2 = 7.5ms
    assert_eq!(t.telemetry.jitter(), Some(Duration::from_micros(7_500)));
}

#[test]
fn the_median_of_an_odd_window_is_its_middle_sample() {
    let mut t = Clocked::new(5);
    // Inserted out of order to confirm the median sorts internally.
    t.add_rtt(ms(30));
    t.add_rtt(ms(10));
    t.add_rtt(ms(20));
    assert_eq!(t.telemetry.median_rtt(), Some(ms(20)));
}

#[test]
fn the_median_of_an_even_window_averages_the_two_central_samples() {
    let mut t = Clocked::new(5);
    t.add_rtt(ms(10));
    t.add_rtt(ms(20));
    t.add_rtt(ms(30));
    t.add_rtt(ms(50));
    // (20 + 30) / 2 = 25
    assert_eq!(t.telemetry.median_rtt(), Some(ms(25)));
}

#[test]
fn the_median_barely_moves_for_a_single_outlier() {
    let mut t = Clocked::new(5);
    t.add_rtt(ms(10));
    t.add_rtt(ms(11));
    t.add_rtt(ms(12));
    t.add_rtt(Duration::from_secs(5)); // outlier
    t.add_rtt(ms(13));
    // Median stays near the cluster despite the 5s spike.
    assert_eq!(t.telemetry.median_rtt(), Some(ms(12)));
}

#[test]
fn a_merge_widens_the_window_to_the_larger_of_the_two() {
    let mut t1 = HostTelemetry::new(3);
    let t2 = HostTelemetry::new(10);
    t1.merge(t2);
    assert_eq!(t1.max_samples(), 10);
}

#[test]
fn a_window_of_zero_stays_empty_across_a_merge() {
    let mut t1 = HostTelemetry::new(0);
    let t2 = HostTelemetry::new(0);
    t1.merge(t2);
    assert_eq!(t1.history().len(), 0);
}

/// A merged history is in time order, and the newest of it is what the window
/// keeps.
#[test]
fn a_merge_interleaves_the_samples_and_keeps_the_newest() {
    let at = |nanos: u128| Instant { nanos };
    let mut one = HostTelemetry::new(3);
    one.add_rtt(at(1), ms(1));
    one.add_rtt(at(4), ms(4));
    let mut other = HostTelemetry::new(2);
    other.add_rtt(at(2), ms(2));
    other.add_rtt(at(3), ms(3));
    other.record_hop_counter(57);
    one.merge(other);
    let kept: Vec<u128> = one.history().iter().map(|sample| sample.at.nanos).collect();
    assert_eq!(kept, [2, 3, 4]);
    assert_eq!(one.hop_counter(), Some(57));
}

#[test]
fn a_telemetry_reads_as_one_line() {
    let mut t = Clocked::new(5);
    assert_eq!(t.telemetry.to_string(), "no telemetry");
    t.add_rtt(ms(10));
    t.add_rtt(ms(20));
    assert_eq!(t.telemetry.to_string(), "avg=15ms, jitter=10ms");
    assert_eq!(Duration::from_micros(7_500).to_string(), "7.5ms");
}

#[test]
fn a_summary_names_the_mean_and_the_jitter() {
    assert_eq!(summary_line("1.5ms", "0ns"), "avg=1.5ms, jitter=0ns");
}

/// A history reads in time order, whatever order the replies are recorded in.
#[test]
fn a_sample_is_placed_by_when_it_arrived() {
    let at = |nanos: u128| Instant { nanos };
    let mut t = HostTelemetry::new(3);
    t.add_rtt(at(5), ms(5));
    t.add_rtt(at(1), ms(1));
    t.add_segment_wide_rtt(at(3), ms(3));
    let seen = |t: &HostTelemetry| -> Vec<u128> {
        t.history().iter().map(|sample| sample.at.nanos).collect()
    };
    assert_eq!(seen(&t), [1, 3, 5]);
    t.add_rtt(at(4), ms(4));
    assert_eq!(seen(&t), [3, 4, 5], "the oldest gives way");
    t.add_rtt(at(2), ms(2));
    assert_eq!(seen(&t), [3, 4, 5], "which may be the one that came last");
    assert_eq!(t.jitter(), Some(ms(1)));
}
