use pix_harness::double::Double;
use pix_harness::histogram::Histogram;
use pix_harness::pix_exit::{checked_parse, parse, ExitTelemetry};
use pix_harness::trace::{trace_poll, Elapsed, Sample, Sampler, Step, Trace};

/// The exposition `hoprd` actually serves, in the exporter's layout: `_count` and `_sum` ahead of
/// the cumulative buckets, `le` last in the label set, `+Inf` closing each histogram.
///
/// The accepted-share fractions are a complete cycle at the shape geometry —
/// `(64 + 16) / 64 = 1.25` — so the 1.0 bucket holds nothing and the 1.25 bucket holds the cycle.
const EXPOSITION: &str = "\
# HELP hopr_pix_shares_total Supervisor-validated SSA shares
# TYPE hopr_pix_shares_total counter
hopr_pix_shares_total{kind=\"useful\"} 16384
hopr_pix_shares_total{kind=\"surplus\"} 4096
hopr_pix_egress_packets_total{mode=\"funded\"} 20480
hopr_pix_egress_packets_total{mode=\"predeposit\"} 512
hopr_pix_cycles_total{event=\"requested\"} 2
hopr_pix_cycles_total{event=\"recovered\"} 1
hopr_pix_live_cycle_bytes 85032960
hopr_pix_cycles_active{phase=\"recovering\"} 1
hopr_pix_cycle_accepted_share_fraction_count{outcome=\"recovered\"} 1
hopr_pix_cycle_accepted_share_fraction_sum{outcome=\"recovered\"} 1.25
hopr_pix_cycle_accepted_share_fraction_bucket{outcome=\"recovered\",le=\"0.9\"} 0
hopr_pix_cycle_accepted_share_fraction_bucket{outcome=\"recovered\",le=\"1\"} 0
hopr_pix_cycle_accepted_share_fraction_bucket{outcome=\"recovered\",le=\"1.25\"} 1
hopr_pix_cycle_accepted_share_fraction_bucket{outcome=\"recovered\",le=\"1.5\"} 1
hopr_pix_cycle_accepted_share_fraction_bucket{outcome=\"recovered\",le=\"+Inf\"} 1
";

fn double(x: f64) -> Double {
    Double::from_bits(x.to_bits())
}

#[test]
fn the_share_kinds_should_stay_apart() {
    let t = parse(EXPOSITION);
    assert_eq!(Some(16384), t.shares("useful"));
    assert_eq!(Some(4096), t.shares("surplus"));
}

/// The reading the scenarios are built on: a gate that never parked has no series at all, and that
/// has to arrive as `None` rather than as a zero nobody measured.
#[test]
fn a_gate_that_never_blocked_should_be_absent_not_zero() {
    let t = parse(EXPOSITION);
    assert_eq!(None, t.gate_blocks("share_lag"));
    assert!(
        t.observable(),
        "the family is present, so `absent` here means the episode never happened"
    );
    assert!(!parse("").observable(), "an empty body measured nothing");
}

/// The 1.0 boundary is rendered `le="1"`. A string comparison against `"1.0"` would find no bucket
/// and this is what catches it.
#[test]
fn the_accepted_fraction_shows_surplus_was_taken() {
    let t = parse(EXPOSITION);
    let h = t
        .accepted_fraction("recovered")
        .expect("the recovered cycle's accepted fraction");
    assert_eq!(1, h.count());
    assert_eq!(
        Some(1),
        h.above(double(1.0)),
        "the cycle accepted more than its useful target"
    );
    assert_eq!(
        Some(0),
        h.above(double(1.25)),
        "and exactly its negotiated surplus, no more"
    );
}

/// A bound the histogram was never configured with is a caller mistake, not a zero.
#[test]
fn an_unconfigured_bound_should_not_read_as_zero() {
    let t = parse(EXPOSITION);
    let h = t.accepted_fraction("recovered").expect("histogram");
    assert_eq!(None, h.above(double(0.42)));
}

/// Attributes are emitted unsorted and `le` comes last, so the same series has to key the same way
/// however the exporter happened to order it.
#[test]
fn label_order_should_not_split_a_series() {
    let a = parse("hopr_pix_gate_block_seconds_bucket{reason=\"share_lag\",le=\"0.5\"} 3\n");
    let b = parse("hopr_pix_gate_block_seconds_bucket{le=\"0.5\",reason=\"share_lag\"} 3\n");
    assert_eq!(a, b);
    assert!(a.gate_block_seconds("share_lag").is_some());
}

/// Histogram suffixes are stripped before `_total` is considered, or a counter whose name ends in
/// `_total` and a histogram's `_count` would land in each other's maps.
#[test]
fn a_counter_named_total_should_not_be_read_as_a_histogram() {
    let t = parse("hopr_pix_cycle_bytes_reserved_total 4096\n");
    assert_eq!(
        Some(4096),
        t.counter_series("hopr_pix_cycle_bytes_reserved_total", &[])
    );
    assert!(
        t.hists.is_empty(),
        "no histogram should have been assembled"
    );
}

/// Counters and histograms accumulate; gauges are a census and must be taken as they stand.
#[test]
fn a_delta_should_difference_counters_and_keep_gauges_absolute() {
    let before = parse(EXPOSITION);
    // Every bound, as the exporter always emits them: `above` reports `None` for a bound the
    // histogram does not carry, so a fixture missing `le="1"` would be testing that instead.
    let later = parse(
        "hopr_pix_shares_total{kind=\"surplus\"} 8192\n\
         hopr_pix_live_cycle_bytes 42\n\
         hopr_pix_cycle_accepted_share_fraction_count{outcome=\"recovered\"} 3\n\
         hopr_pix_cycle_accepted_share_fraction_sum{outcome=\"recovered\"} 3.75\n\
         hopr_pix_cycle_accepted_share_fraction_bucket{outcome=\"recovered\",le=\"0.9\"} 0\n\
         hopr_pix_cycle_accepted_share_fraction_bucket{outcome=\"recovered\",le=\"1\"} 0\n\
         hopr_pix_cycle_accepted_share_fraction_bucket{outcome=\"recovered\",le=\"1.25\"} 3\n\
         hopr_pix_cycle_accepted_share_fraction_bucket{outcome=\"recovered\",le=\"1.5\"} 3\n\
         hopr_pix_cycle_accepted_share_fraction_bucket{outcome=\"recovered\",le=\"+Inf\"} 3\n",
    );
    let d = before.delta(&later);
    assert_eq!(Some(4096), d.shares("surplus"), "4096 more accepted since");
    assert_eq!(
        Some(double(42.0)),
        d.gauge("hopr_pix_live_cycle_bytes"),
        "a gauge is the later census, not a difference of two"
    );
    let h = d.accepted_fraction("recovered").expect("histogram");
    assert_eq!(2, h.count(), "two cycles finalized in the window");
    assert_eq!(Some(2), h.above(double(1.0)));
    assert_eq!(double(2.5), h.sum());
    assert_eq!(Some(double(1.25)), h.mean());
    assert_eq!(Some(0), h.above(double(f64::INFINITY)), "nothing is above +Inf");
}

/// A family that disappeared between readings must not underflow into a vast number.
#[test]
fn a_delta_should_saturate_rather_than_wrap() {
    let before = parse("hopr_pix_shares_total{kind=\"surplus\"} 100\n");
    let later = parse("hopr_pix_shares_total{kind=\"surplus\"} 3\n");
    assert_eq!(Some(0), before.delta(&later).shares("surplus"));
}

/// The other PIX family shares the endpoint and must not leak into this one.
#[test]
fn the_settlement_family_should_be_ignored() {
    let t = parse("hopr_strategy_pix_sweeps_total 5\nhopr_pix_shares_total{kind=\"useful\"} 7\n");
    assert_eq!(Some(7), t.shares("useful"));
    assert_eq!(1, t.counters.len(), "only the hopr_pix_* counter was taken");
}

#[test]
fn a_summary_should_name_absent_series_rather_than_printing_zero() {
    let s = parse(EXPOSITION).summary();
    assert!(s.contains("surplus=4096"), "{s}");
    assert!(s.contains("blocks/share_lag=absent"), "{s}");
    assert!(
        parse("").summary().contains("not zeroes"),
        "an unmeasured Exit must say so"
    );
}

#[test]
fn a_summary_is_one_line_of_eight_entries() {
    assert_eq!(
        "useful=16384 surplus=4096 blocks/share_lag=absent blocks/predeposit=absent \
         egress/funded=20480 egress/predeposit=512 cycles/recovered=1 cycles/requested=2",
        parse(EXPOSITION).summary()
    );
    assert_eq!(
        "PIX Exit aggregates unavailable (no hopr_pix_* series) — these are not zeroes",
        ExitTelemetry::default().summary()
    );
}

#[test]
fn a_counter_of_zero_is_there() {
    let t = parse("hopr_pix_gate_blocks_total{reason=\"share_lag\"} 0\n");
    assert_eq!(Some(0), t.gate_blocks("share_lag"));
    assert_eq!(None, t.gate_blocks("predeposit_exhausted"));
    assert!(t.summary().contains("blocks/share_lag=0 blocks/predeposit=absent"));
}

#[test]
fn lines_of_one_counter_add_up_and_the_last_gauge_stands() {
    let t = parse(
        "hopr_pix_shares_total{kind=\"useful\"} 7\r\n\
         hopr_pix_live 3\n\
         hopr_pix_shares_total{kind=\"useful\"} 5.9\n\
         hopr_pix_shares_total{kind=\"useful\"} -4\n\
         hopr_pix_live 2.5",
    );
    assert_eq!(Some(12), t.shares("useful"));
    assert_eq!(Some(double(2.5)), t.gauge("hopr_pix_live"));
    assert_eq!(1, t.gauges.len());
}

#[test]
fn lines_without_a_finite_number_are_skipped() {
    let t = parse(
        "hopr_pix_a_total NaN\nhopr_pix_b_total +Inf\nhopr_pix_c_total\nhopr_pix_d_total x\n\
         hopr_pix_e_bucket{le=\"wide\"} 3\nhopr_pix_f_bucket 3\n#hopr_pix_g_total 3\n\
         hopr_pix_h_total_bytes 9 \n",
    );
    assert!(!t.observable(), "{t:?}");
}

#[test]
fn a_name_is_not_cut_short() {
    let t = parse("hopr_pix_shares_total_bytes{kind=\"useful\"} 9\n");
    assert_eq!(None, t.shares("useful"));
    assert_eq!(1, t.gauges.len());
    assert_eq!(0, t.counters.len());
}

#[test]
fn labels_are_keyed_by_name_whatever_stands_between_them() {
    let t = parse("hopr_pix_x_total{ b = \"2\" , a=\"1\", ,c} 4\n");
    assert_eq!(
        Some(4),
        t.counter_series("hopr_pix_x_total", &[("a", "1"), ("b", "2")])
    );
    assert_eq!(
        Some(4),
        t.counter_series("hopr_pix_x_total", &[("b", "2"), ("a", "1")])
    );
    assert_eq!(None, t.counter_series("hopr_pix_x_total", &[("a", "1")]));
}

#[test]
fn buckets_ascend_in_whatever_order_they_come() {
    let t = parse(
        "hopr_pix_w_bucket{k=\"v\",le=\"+Inf\"} 9\n\
         hopr_pix_w_bucket{k=\"v\",le=\"2\"} 7\n\
         hopr_pix_w_bucket{k=\"v\",le=\"0.5\"} 1\n\
         hopr_pix_w_bucket{k=\"v\",le=\"2\"} 8\n\
         hopr_pix_w_count{k=\"v\"} 9\n",
    );
    let h = t.histogram("hopr_pix_w", "k", "v").expect("histogram");
    let bounds: Vec<(f64, u64)> = h
        .buckets
        .iter()
        .map(|(le, n)| (f64::from_bits(le.bits), *n))
        .collect();
    assert_eq!(
        vec![(0.5, 1), (2.0, 7), (2.0, 8), (f64::INFINITY, 9)],
        bounds
    );
    assert_eq!(Some(8), h.above(double(0.5)));
    assert_eq!(Some(2), h.above(double(2.0)), "the first of two buckets is read");
    assert_eq!(Some(0), h.above(double(f64::INFINITY)));
    assert_eq!(None, h.above(double(f64::NAN)));
    assert_eq!(None, h.above(double(f64::NEG_INFINITY)));
}

#[test]
fn a_delta_keeps_the_last_bucket_equal_to_the_count() {
    let before = parse(EXPOSITION);
    let d = before.delta(&before);
    let h = d.accepted_fraction("recovered").expect("histogram");
    assert_eq!(0, h.count());
    assert_eq!(double(0.0), h.sum());
    assert_eq!(None, h.mean());
    assert!(h.buckets.iter().all(|(_, n)| *n == 0));
    assert_eq!(Some(0), d.shares("useful"));
    assert_eq!(before.gauges, d.gauges);
}

#[test]
fn a_delta_from_nothing_is_the_later_reading() {
    let later = parse(EXPOSITION);
    assert_eq!(later, ExitTelemetry::default().delta(&later));
    assert_eq!(later, later.clone());
}

#[test]
fn a_bound_that_is_new_is_taken_whole() {
    let earlier = Histogram { buckets: vec![(double(1.0), 3)], sum: double(2.0), count: 3 };
    let later = Histogram {
        buckets: vec![(double(0.5), 2), (double(1.0), 7)],
        sum: double(5.5),
        count: 7,
    };
    let since = earlier.delta(&later);
    assert_eq!(vec![(double(0.5), 2), (double(1.0), 4)], since.buckets);
    assert_eq!(double(3.5), since.sum());
    assert_eq!(4, since.count());
}

#[test]
fn counters_that_do_not_fit_are_refused() {
    let body = "hopr_pix_x_total 18446744073709551615\nhopr_pix_x_total 1\n";
    assert!(checked_parse(body).is_none());
    let full = checked_parse("hopr_pix_x_total 1e30\n").expect("one line fits");
    assert_eq!(Some(u64::MAX), full.counter_series("hopr_pix_x_total", &[]));
}

#[test]
fn every_accessor_reads_its_own_family() {
    let t = parse(
        "hopr_pix_gate_blocks_total{reason=\"share_lag\"} 1\n\
         hopr_pix_gate_block_seconds_count{reason=\"share_lag\"} 2\n\
         hopr_pix_cycle_egress_packets_count{outcome=\"failed\"} 3\n\
         hopr_pix_cycle_useful_share_fraction_count{outcome=\"failed\"} 4\n\
         hopr_pix_cycle_accepted_share_fraction_count{outcome=\"failed\"} 5\n\
         hopr_pix_cycles_total{event=\"retired\"} 6\n",
    );
    assert_eq!(Some(1), t.gate_blocks("share_lag"));
    assert_eq!(Some(1), t.counter("hopr_pix_gate_blocks_total", "reason", "share_lag"));
    assert_eq!(Some(2), t.gate_block_seconds("share_lag").map(|h| h.count()));
    assert_eq!(Some(3), t.cycle_egress("failed").map(|h| h.count()));
    assert_eq!(Some(4), t.useful_fraction("failed").map(|h| h.count()));
    assert_eq!(Some(5), t.accepted_fraction("failed").map(|h| h.count()));
    assert_eq!(Some(6), t.cycles("retired"));
    assert!(t.cycle_egress("recovered").is_none());
}

/// A histogram of `observed`, with the bounds of `bounds`.
fn recording(bounds: &[f64], observed: &[f64]) -> Histogram {
    let mut h = Histogram::default();
    for &le in bounds {
        h.add_bucket(double(le), observed.iter().filter(|x| **x <= le).count() as u64);
    }
    h.count = observed.len() as u64;
    h.sum = double(observed.iter().sum());
    h
}

#[test]
fn above_counts_the_observations_above_a_bound() {
    let observed = [0.5, 1.0, 1.0, 1.25, 1.5, 7.0];
    let h = recording(&[f64::INFINITY, 1.0, 0.9, 1.25], &observed);
    assert_eq!(Some(3), h.above(double(1.0)));
    assert_eq!(Some(5), h.above(double(0.9)));
    assert_eq!(Some(2), h.above(double(1.25)));
    assert_eq!(Some(0), h.above(double(f64::INFINITY)));
}

#[test]
fn a_delta_records_what_was_observed_between() {
    let bounds = [0.9, 1.0, 1.25, f64::INFINITY];
    let before = [0.5, 1.25];
    let between = [1.0, 1.0, 7.0];
    let earlier = recording(&bounds, &before);
    let later = recording(&bounds, &[&before[..], &between[..]].concat());
    assert_eq!(recording(&bounds, &between), earlier.delta(&later));
}

#[test]
fn the_last_count_and_the_last_sum_stand() {
    let t = parse(
        "hopr_pix_w_count{k=\"v\"} 3\nhopr_pix_w_sum{k=\"v\"} 0.5\n\
         hopr_pix_w_count{k=\"v\"} 4\nhopr_pix_w_sum{k=\"v\"} 0.75\n",
    );
    let h = t.histogram("hopr_pix_w", "k", "v").expect("histogram");
    assert_eq!(4, h.count());
    assert_eq!(double(0.75), h.sum());
    assert_eq!(Some(double(0.1875)), h.mean());
}

#[test]
fn the_order_of_the_lines_does_not_matter() {
    let forward = parse(EXPOSITION);
    let mut lines: Vec<&str> = EXPOSITION.lines().collect();
    lines.reverse();
    assert_eq!(forward, parse(&lines.join("\n")));
    for turn in 0..lines.len() {
        lines.rotate_left(1);
        lines.swap(turn, 0);
        assert_eq!(forward, parse(&lines.join("\n")), "{turn}");
    }
    // Two values of one gauge are at odds, and the last stands.
    assert_ne!(parse("hopr_pix_g 1\nhopr_pix_g 2\n"), parse("hopr_pix_g 2\nhopr_pix_g 1\n"));
}

#[test]
fn an_infinite_sum_is_taken_whole() {
    let later = Histogram { buckets: Vec::new(), sum: double(f64::INFINITY), count: 1 };
    assert_eq!(later, Histogram::default().delta(&later));
}

#[test]
fn what_counters_gain_adds_up() {
    let reading = |n: u64| parse(&format!("hopr_pix_shares_total{{kind=\"useful\"}} {n}\n"));
    let (a, b, c) = (reading(10), reading(25), reading(100));
    assert_eq!(Some(15), a.delta(&b).shares("useful"));
    assert_eq!(Some(75), b.delta(&c).shares("useful"));
    assert_eq!(Some(90), a.delta(&c).shares("useful"));
}

// ── The run detector ─────────────────────────────────────────────────────

/// A trace from `(useful, surplus)` cumulative readings, one per tick.
fn trace_of(readings: &[(u64, u64)]) -> Trace {
    Trace {
        samples: readings
            .iter()
            .enumerate()
            .map(|(i, &(useful, surplus))| Sample {
                at: Elapsed::from_secs(i as u64 * 2),
                useful,
                surplus,
                share_lag_blocks: 0,
                egress_funded: 0,
                egress_predeposit: 0,
            })
            .collect(),
    }
}

/// The shape a window's surplus section actually produces: useful flat, surplus climbing.
#[test]
fn a_surplus_only_run_should_be_measured_across_its_steps() {
    let t = trace_of(&[
        (16_384, 0),
        (16_384, 1_100),
        (16_384, 2_300),
        (16_384, 3_400),
        (16_384, 4_096),
    ]);
    assert_eq!(4_096, t.longest_surplus_only_run());
}

/// A useful share ends the run, and the longest of the runs either side is what counts.
///
/// This is the assertion's real defence: 4096 surplus shares scattered across a cycle in 500-share
/// fragments must not read as the contiguous run the egress gate had to serve through.
#[test]
fn a_useful_share_should_end_the_run() {
    let t = trace_of(&[
        (16_000, 0),
        (16_000, 500),   // run of 500
        (16_100, 700),   // useful moved -- run ends
        (16_100, 2_500), // new run
        (16_100, 4_600), // ...still going
        (16_384, 4_700), // useful again
    ]);
    assert_eq!(
        4_600 - 700,
        t.longest_surplus_only_run(),
        "the second run is the longer one"
    );
}

/// A cycle carried entirely by useful shares has no surplus run at all, which is what makes the
/// >= 2048 assertion meaningful rather than automatic.
#[test]
fn a_trace_with_no_surplus_should_measure_no_run() {
    let t = trace_of(&[(0, 0), (4_000, 0), (8_000, 0)]);
    assert_eq!(0, t.longest_surplus_only_run());
}

/// An Exit nobody could scrape is not an Exit that stayed quiet.
#[test]
fn an_empty_trace_should_be_visibly_empty() {
    let t = Trace::default();
    assert!(t.is_empty());
    assert_eq!(0, t.longest_surplus_only_run());
    assert!(
        t.summary().contains("no PIX telemetry samples"),
        "{}",
        t.summary()
    );
}

/// A gate that parked and resumed inside the window leaves both endpoints equal only if the counter
/// were reset, which it is not — but reading the trace is what catches an episode that a coarser
/// before/after pair would have to infer.
#[test]
fn a_block_episode_should_be_visible_in_the_trace() {
    let mut t = trace_of(&[(0, 0), (0, 2_048), (0, 4_096)]);
    t.samples[1].share_lag_blocks = 1;
    t.samples[2].share_lag_blocks = 1;
    assert!(t.saw_share_lag_block());
    assert!(!trace_of(&[(0, 0), (0, 2_048)]).saw_share_lag_block());
}

#[test]
fn a_trace_summary_is_one_line() {
    let mut t = trace_of(&[(10, 0), (10, 100), (30, 150)]);
    t.samples[0].at = Elapsed::new(1, 900_000_000);
    t.samples[2].at = Elapsed::new(9, 899_999_999);
    t.samples[2].egress_funded = 7;
    t.samples[2].egress_predeposit = 8;
    t.samples[2].share_lag_blocks = 9;
    assert_eq!(
        "samples=3 over 7s useful=+20 surplus=+150 longest_surplus_run=100 \
         egress=+7/funded +8/predeposit share_lag_episodes=+9",
        t.summary()
    );
}

#[test]
fn a_trace_summary_does_not_run_backwards() {
    let mut t = trace_of(&[(10, 100), (3, 20)]);
    t.samples[0].at = Elapsed::new(5, 1);
    t.samples[1].at = Elapsed::new(5, 0);
    assert_eq!(
        "samples=2 over 0s useful=+0 surplus=+0 longest_surplus_run=0 \
         egress=+0/funded +0/predeposit share_lag_episodes=+0",
        t.summary()
    );
}

#[test]
fn a_run_that_does_not_fit_is_refused() {
    let t = trace_of(&[(0, 0), (0, u64::MAX), (0, 0), (0, 1)]);
    assert_eq!(None, t.checked_longest_surplus_only_run());
    let fits = trace_of(&[(0, 0), (0, u64::MAX), (1, 0), (1, 1)]);
    assert_eq!(Some(u64::MAX), fits.checked_longest_surplus_only_run());
}

#[test]
fn a_sample_is_what_the_reading_says() {
    let reading = parse(EXPOSITION);
    let mut t = Trace::default();
    t.observe(Elapsed::from_secs(2), Some(&reading));
    t.observe(Elapsed::from_secs(4), None);
    t.observe(Elapsed::from_secs(6), Some(&parse("")));
    assert_eq!(2, t.len());
    assert_eq!(
        Sample {
            at: Elapsed::from_secs(2),
            useful: 16384,
            surplus: 4096,
            share_lag_blocks: 0,
            egress_funded: 20480,
            egress_predeposit: 512,
        },
        t.samples[0]
    );
    assert_eq!(0, t.samples[1].useful);
    assert_eq!(t.samples, t.clone().samples);
}

#[test]
fn the_poll_is_two_seconds_unless_overridden() {
    assert_eq!(2, trace_poll(None));
    assert_eq!(5, trace_poll(Some("5")));
    assert_eq!(5, trace_poll(Some("+05")));
    assert_eq!(2, trace_poll(Some("5s")));
    assert_eq!(2, trace_poll(Some("")));
    assert_eq!(2, trace_poll(Some("18446744073709551616")));
}

#[test]
fn a_sampler_scrapes_and_waits_until_it_is_stopped() {
    let reading = parse(EXPOSITION);
    let mut sampler = Sampler::start(Some("3"));
    assert_eq!(Step::Scrape, sampler.on_wake(false));
    assert_eq!(Step::Sleep(3), sampler.on_scrape(Elapsed::from_secs(1), Some(&reading)));
    assert_eq!(Step::Scrape, sampler.on_wake(false));
    assert_eq!(Step::Sleep(3), sampler.on_scrape(Elapsed::from_secs(4), None));
    assert_eq!(Step::Finish, sampler.on_wake(true));
    let trace = Sampler::finish(Some(sampler));
    assert_eq!(1, trace.len());
    assert_eq!(16384, trace.samples[0].useful);
    assert!(Sampler::finish(None).is_empty());
    assert_eq!(2, Sampler::start(None).poll);
}

#[test]
fn a_run_is_at_most_what_surplus_rose_by() {
    let t = trace_of(&[(0, 10), (0, 40), (1, 90), (1, 100)]);
    assert_eq!(30, t.longest_surplus_only_run());
    // A counter that starts over is not a run of what it had counted.
    let restarted = trace_of(&[(5, 900), (0, 0), (0, 40), (0, 70)]);
    assert_eq!(70, restarted.longest_surplus_only_run());
}

#[test]
fn a_rise_is_seen_though_it_ends() {
    let mut t = trace_of(&[(0, 0), (0, 0), (0, 0), (0, 0)]);
    t.samples[2].share_lag_blocks = 3;
    assert!(t.saw_share_lag_block());
}
