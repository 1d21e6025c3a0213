//! What the Exit's share counters did over a scenario, sampled.
use vstd::prelude::*;
use vstd::string::*;

use crate::decimal::{self, parse_u64, push_decimal};
use crate::histogram;
use crate::pix_exit::{self, ExitTelemetry};

verus! {

broadcast use vstd::string::group_string_axioms;

/// Seconds between samples, before `HOPRD_PIX_TRACE_POLL` overrides it.
///
/// Sized against the run it exists to see. A surplus-only run is 4096 shares at this geometry, and
/// at the ~232 packets/s a 1-hop cluster achieves that is ~18 s, so 2 s puts roughly eight samples
/// inside it.
pub const DEFAULT_TRACE_POLL: u64 = 2;

/// Useful shares a step may carry and still count as surplus-only.
///
/// **Zero — deliberately strict.** In a window's surplus section every share the Entry sends is
/// surplus by construction, so the honest first measurement is to demand exactly that and see
/// whether it holds.
pub const SURPLUS_RUN_USEFUL_TOLERANCE: u64 = 0;

/// Nanoseconds in a second.
pub const NANOS_PER_SEC: u32 = 1_000_000_000;

// ── Time ─────────────────────────────────────────────────────────────────────

/// How long a scenario had run: seconds, and the nanoseconds beyond them.
#[derive(Debug, Clone, Copy, PartialEq, Eq)]
pub struct Elapsed {
    secs: u64,
    nanos: u32,
}

impl Elapsed {
    /// The time in nanoseconds.
    pub closed spec fn total(self) -> int {
        self.secs * NANOS_PER_SEC + self.nanos
    }

    #[verifier::type_invariant]
    spec fn in_range(self) -> bool {
        self.nanos < NANOS_PER_SEC
    }

    /// So many seconds, and nanoseconds beyond them.
    pub fn new(secs: u64, nanos: u32) -> (at: Elapsed)
        requires
            nanos < NANOS_PER_SEC,
        ensures
            at.total() == secs * NANOS_PER_SEC + nanos,
    {
        Elapsed { secs, nanos }
    }

    /// So many whole seconds.
    pub fn from_secs(secs: u64) -> (at: Elapsed)
        ensures
            at.total() == secs * NANOS_PER_SEC,
    {
        Elapsed { secs, nanos: 0 }
    }

    /// Whole seconds since `earlier`, or none where that is later.
    pub fn secs_since(&self, earlier: &Elapsed) -> (secs: u64)
        ensures
            secs == secs_between(earlier.total(), self.total()),
    {
        proof {
            use_type_invariant(self);
            use_type_invariant(earlier);
        }
        if self.secs < earlier.secs {
            0
        } else if self.nanos >= earlier.nanos {
            let secs: u64 = self.secs - earlier.secs;
            assert(secs == secs_between(earlier.total(), self.total()));
            secs
        } else if self.secs > earlier.secs {
            self.secs - earlier.secs - 1
        } else {
            0
        }
    }
}

/// Whole seconds from one time to another, both in nanoseconds; none where the other is earlier.
pub open spec fn secs_between(earlier: int, later: int) -> int {
    if later >= earlier {
        (later - earlier) / NANOS_PER_SEC as int
    } else {
        0
    }
}

// ── Models ───────────────────────────────────────────────────────────────────

/// The few series a trace follows over time, rather than a whole [`ExitTelemetry`] per tick.
///
/// A scenario is ten to twenty minutes at a 2 s cadence, so this is hundreds of entries; keeping
/// whole readings would hold every histogram bucket of every series for no reason. Everything the
/// per-cycle assertions need is a before/after pair, not a series.
#[derive(Debug, Clone, Copy, PartialEq, Eq)]
pub struct Sample {
    pub at: Elapsed,
    pub useful: u64,
    pub surplus: u64,
    pub share_lag_blocks: u64,
    pub egress_funded: u64,
    pub egress_predeposit: u64,
}

/// Useful shares accepted from sample `i` to the next.
pub open spec fn useful_step(samples: Seq<Sample>, i: int) -> u64 {
    histogram::lessened(samples[i + 1].useful, samples[i].useful)
}

/// Surplus shares accepted from sample `i` to the next.
pub open spec fn surplus_step(samples: Seq<Sample>, i: int) -> u64 {
    histogram::lessened(samples[i + 1].surplus, samples[i].surplus)
}

/// Whether no useful share arrived from sample `i` to the next.
pub open spec fn surplus_only(samples: Seq<Sample>, i: int) -> bool {
    useful_step(samples, i) <= SURPLUS_RUN_USEFUL_TOLERANCE
}

/// Whether no useful share arrived from sample `from` to sample `to`, step by step.
pub open spec fn is_run(samples: Seq<Sample>, from: int, to: int) -> bool {
    &&& 0 <= from <= to < samples.len()
    &&& forall|i: int| from <= i < to ==> #[trigger] surplus_only(samples, i)
}

/// Surplus shares accepted from sample `from` to sample `to`, step by step.
pub open spec fn surplus_over(samples: Seq<Sample>, from: int, to: int) -> nat
    decreases to - from,
{
    if from >= to {
        0
    } else {
        surplus_over(samples, from, to - 1) + surplus_step(samples, to - 1) as nat
    }
}

/// The surplus shares of the run that ends at sample `k`.
pub open spec fn run_ending(samples: Seq<Sample>, k: int) -> nat
    decreases k,
{
    if k <= 0 || !surplus_only(samples, k - 1) {
        0
    } else {
        run_ending(samples, k - 1) + surplus_step(samples, k - 1) as nat
    }
}

/// The surplus shares of the longest run up to sample `k`.
pub open spec fn longest_run_to(samples: Seq<Sample>, k: int) -> nat
    decreases k,
{
    if k <= 0 {
        0
    } else if run_ending(samples, k) > longest_run_to(samples, k - 1) {
        run_ending(samples, k)
    } else {
        longest_run_to(samples, k - 1)
    }
}

/// The surplus shares of the longest run.
pub open spec fn longest_run(samples: Seq<Sample>) -> nat {
    longest_run_to(samples, samples.len() - 1)
}

/// Whether the `share_lag` counter rose from one sample to the next.
pub open spec fn saw_block(samples: Seq<Sample>) -> bool {
    exists|i: int|
        0 <= i < samples.len() - 1 && (#[trigger] samples[i]).share_lag_blocks < samples[i
            + 1].share_lag_blocks
}

/// What a counter that may not be there counts.
pub open spec fn or_zero(n: Option<u64>) -> u64 {
    match n {
        Some(n) => n,
        None => 0,
    }
}

/// What a sample takes from a reading.
pub open spec fn sample_of(at: Elapsed, t: pix_exit::TelemetryModel) -> Sample {
    Sample {
        at,
        useful: or_zero(t.counter(pix_exit::SHARES@, seq![("kind"@, "useful"@)])),
        surplus: or_zero(t.counter(pix_exit::SHARES@, seq![("kind"@, "surplus"@)])),
        share_lag_blocks: or_zero(
            t.counter(pix_exit::GATE_BLOCKS@, seq![("reason"@, "share_lag"@)]),
        ),
        egress_funded: or_zero(t.counter(pix_exit::EGRESS_PACKETS@, seq![("mode"@, "funded"@)])),
        egress_predeposit: or_zero(
            t.counter(pix_exit::EGRESS_PACKETS@, seq![("mode"@, "predeposit"@)]),
        ),
    }
}

/// The sample of a scrape, where it has a reading.
pub open spec fn scraped(at: Elapsed, reading: Option<&ExitTelemetry>) -> Option<Sample> {
    match reading {
        Some(t) => Some(sample_of(at, t@)),
        None => None,
    }
}

/// The samples with that of one scrape more, where it has one.
pub open spec fn with_scrape(samples: Seq<Sample>, scrape: Option<Sample>) -> Seq<Sample> {
    match scrape {
        Some(sample) => samples.push(sample),
        None => samples,
    }
}

/// The samples of scrapes, one after another.
pub open spec fn collected(scrapes: Seq<Option<Sample>>) -> Seq<Sample>
    decreases scrapes.len(),
{
    if scrapes.len() == 0 {
        seq![]
    } else {
        with_scrape(collected(scrapes.drop_last()), scrapes.last())
    }
}

/// One line for the run log.
pub open spec fn summary_of(samples: Seq<Sample>) -> Seq<char> {
    if samples.len() == 0 {
        "no PIX telemetry samples were taken"@
    } else {
        let (first, last) = (samples.first(), samples.last());
        "samples="@ + decimal::decimal(samples.len()) + " over "@ + decimal::decimal(
            secs_between(first.at.total(), last.at.total()) as nat,
        ) + "s useful=+"@ + decimal::decimal(histogram::lessened(last.useful, first.useful) as nat)
            + " surplus=+"@ + decimal::decimal(
            histogram::lessened(last.surplus, first.surplus) as nat,
        ) + " longest_surplus_run="@ + decimal::decimal(longest_run(samples)) + " egress=+"@
            + decimal::decimal(histogram::lessened(last.egress_funded, first.egress_funded) as nat)
            + "/funded +"@ + decimal::decimal(
            histogram::lessened(last.egress_predeposit, first.egress_predeposit) as nat,
        ) + "/predeposit share_lag_episodes=+"@ + decimal::decimal(
            histogram::lessened(last.share_lag_blocks, first.share_lag_blocks) as nat,
        )
    }
}

// ── Laws ─────────────────────────────────────────────────────────────────────

/// The longest run up to a sample is at least every run that ends by then.
proof fn lemma_longest_grows(samples: Seq<Sample>, j: int, k: int)
    requires
        j <= k,
    ensures
        run_ending(samples, j) <= longest_run_to(samples, k),
    decreases k - j,
{
    if j < k {
        lemma_longest_grows(samples, j, k - 1);
    }
}

/// No run has more surplus than the one `run_ending` measures, which is a run itself.
proof fn lemma_run_ending(samples: Seq<Sample>, k: int) -> (from: int)
    requires
        0 <= k < samples.len(),
    ensures
        is_run(samples, from, k),
        surplus_over(samples, from, k) == run_ending(samples, k),
        forall|f: int|
            is_run(samples, f, k) ==> #[trigger] surplus_over(samples, f, k) <= run_ending(
                samples,
                k,
            ),
    decreases k,
{
    if k == 0 || !surplus_only(samples, k - 1) {
        assert forall|f: int| is_run(samples, f, k) implies #[trigger] surplus_over(samples, f, k)
            <= run_ending(samples, k) by {
            if f < k {
                assert(surplus_only(samples, k - 1));
            }
        }
        k
    } else {
        let from = lemma_run_ending(samples, k - 1);
        assert forall|f: int| is_run(samples, f, k) implies #[trigger] surplus_over(samples, f, k)
            <= run_ending(samples, k) by {
            if f < k {
                assert(is_run(samples, f, k - 1));
                assert(surplus_over(samples, f, k - 1) <= run_ending(samples, k - 1));
            }
        }
        from
    }
}

/// What is measured is the surplus of a contiguous run.
pub proof fn law_the_longest_run_is_a_run(samples: Seq<Sample>)
    requires
        samples.len() > 0,
    ensures
        exists|from: int, to: int| #[trigger]
            is_run(samples, from, to) && surplus_over(samples, from, to) == longest_run(samples),
{
    lemma_longest_is_a_run(samples, samples.len() - 1);
}

proof fn lemma_longest_is_a_run(samples: Seq<Sample>, k: int)
    requires
        0 <= k < samples.len(),
    ensures
        exists|from: int, to: int| #[trigger]
            is_run(samples, from, to) && surplus_over(samples, from, to) == longest_run_to(
                samples,
                k,
            ),
    decreases k,
{
    let from = lemma_run_ending(samples, k);
    if k > 0 {
        lemma_longest_is_a_run(samples, k - 1);
    }
}

/// No contiguous run has more surplus than what is measured, so surplus scattered in fragments
/// does not read as one run.
pub proof fn law_no_run_is_longer(samples: Seq<Sample>, from: int, to: int)
    requires
        is_run(samples, from, to),
    ensures
        surplus_over(samples, from, to) <= longest_run(samples),
{
    let _ = lemma_run_ending(samples, to);
    lemma_longest_grows(samples, to, samples.len() - 1);
}

/// A useful share ends the run: none goes on over the step in which it arrived.
pub proof fn law_a_useful_share_ends_the_run(samples: Seq<Sample>, i: int, from: int, to: int)
    requires
        samples[i + 1].useful > samples[i].useful,
        from <= i < to,
    ensures
        !is_run(samples, from, to),
{
    assert(!surplus_only(samples, i));
}

/// Whether the surplus counter never falls, which a counter does not while the Exit is up.
pub open spec fn surplus_grows(samples: Seq<Sample>) -> bool {
    forall|i: int|
        0 <= i < samples.len() - 1 ==> (#[trigger] samples[i]).surplus <= samples[i + 1].surplus
}

/// Over a stretch in which the counter does not fall, the steps add up to what it rose by.
proof fn lemma_surplus_adds_up(samples: Seq<Sample>, from: int, to: int)
    requires
        surplus_grows(samples),
        0 <= from <= to < samples.len(),
    ensures
        surplus_over(samples, from, to) == samples[to].surplus - samples[from].surplus,
        samples[from].surplus <= samples[to].surplus,
    decreases to - from,
{
    if from < to {
        lemma_surplus_adds_up(samples, from, to - 1);
        assert(samples[to - 1].surplus <= samples[to - 1 + 1].surplus);
    }
}

/// While the surplus counter does not fall, a run is at most what it rose by over the whole trace,
/// and so always fits.
pub proof fn law_a_run_is_at_most_the_rise(samples: Seq<Sample>)
    requires
        surplus_grows(samples),
        samples.len() > 0,
    ensures
        longest_run(samples) <= samples.last().surplus - samples.first().surplus,
        longest_run(samples) <= u64::MAX,
{
    law_the_longest_run_is_a_run(samples);
    let (from, to) = choose|from: int, to: int| #[trigger]
        is_run(samples, from, to) && surplus_over(samples, from, to) == longest_run(samples);
    lemma_surplus_adds_up(samples, from, to);
    lemma_surplus_adds_up(samples, 0, from);
    lemma_surplus_adds_up(samples, to, samples.len() - 1);
}

/// Where useful shares never move, the whole trace is one run.
pub proof fn law_surplus_alone_is_one_run(samples: Seq<Sample>)
    requires
        surplus_grows(samples),
        samples.len() > 0,
        forall|i: int| 0 <= i < samples.len() - 1 ==> #[trigger] surplus_only(samples, i),
    ensures
        longest_run(samples) == samples.last().surplus - samples.first().surplus,
{
    law_a_run_is_at_most_the_rise(samples);
    law_no_run_is_longer(samples, 0, samples.len() - 1);
    lemma_surplus_adds_up(samples, 0, samples.len() - 1);
}

/// A trace holds the samples of the scrapes that succeeded, in order, and no others: an empty one
/// means that every scrape failed.
pub proof fn law_a_trace_skips_failed_scrapes(scrapes: Seq<Option<Sample>>)
    ensures
        collected(scrapes) == scrapes.filter_map(|scrape: Option<Sample>| scrape),
        collected(scrapes).len() == 0 <==> forall|i: int|
            0 <= i < scrapes.len() ==> (#[trigger] scrapes[i]) is None,
    decreases scrapes.len(),
{
    let f = |scrape: Option<Sample>| scrape;
    if scrapes.len() > 0 {
        let rest = scrapes.drop_last();
        law_a_trace_skips_failed_scrapes(rest);
        assert(forall|i: int| 0 <= i < rest.len() ==> rest[i] == #[trigger] scrapes[i]);
        assert(scrapes.last() == scrapes[scrapes.len() - 1]);
        match scrapes.last() {
            Some(sample) => {
                assert(rest.filter_map(f) + seq![sample] =~= rest.filter_map(f).push(sample));
            },
            None => {},
        }
        if collected(scrapes).len() == 0 {
            assert forall|i: int| 0 <= i < scrapes.len() implies (#[trigger] scrapes[i]) is None by {
                if i < rest.len() {
                    assert(rest[i] is None);
                }
            }
        }
        if forall|i: int| 0 <= i < scrapes.len() ==> (#[trigger] scrapes[i]) is None {
            assert forall|i: int| 0 <= i < rest.len() implies (#[trigger] rest[i]) is None by {
                assert(scrapes[i] is None);
            }
        }
    } else {
        assert(scrapes.filter_map(f) =~= Seq::<Sample>::empty());
    }
}

/// The rises of the surplus counter from sample `from` to sample `to`, all together.
pub open spec fn surplus_rises(samples: Seq<Sample>, from: int, to: int) -> int
    decreases to - from,
{
    if from >= to {
        0
    } else if samples[to].surplus > samples[to - 1].surplus {
        surplus_rises(samples, from, to - 1) + (samples[to].surplus - samples[to - 1].surplus)
    } else {
        surplus_rises(samples, from, to - 1)
    }
}

proof fn lemma_rises(samples: Seq<Sample>, from: int, to: int)
    requires
        0 <= from <= to < samples.len(),
    ensures
        surplus_over(samples, from, to) == surplus_rises(samples, from, to),
        surplus_rises(samples, from, to) >= samples[to].surplus - samples[from].surplus,
    decreases to - from,
{
    if from < to {
        lemma_rises(samples, from, to - 1);
    }
}

/// Over samples between which the useful counter does not rise, however often neither counter
/// moves, every rise of the surplus counter is in one run: the longest run is at least all of them,
/// and so at least what the counter gained.
pub proof fn law_a_run_goes_on_while_useful_does_not_rise(
    samples: Seq<Sample>,
    from: int,
    to: int,
)
    requires
        0 <= from <= to < samples.len(),
        forall|i: int|
            from <= i < to ==> (#[trigger] samples[i]).useful >= samples[i + 1].useful,
    ensures
        longest_run(samples) >= surplus_rises(samples, from, to),
        longest_run(samples) >= samples[to].surplus - samples[from].surplus,
{
    assert forall|i: int| from <= i < to implies #[trigger] surplus_only(samples, i) by {
        assert(samples[i].useful >= samples[i + 1].useful);
    }
    law_no_run_is_longer(samples, from, to);
    lemma_rises(samples, from, to);
}

/// The longest run is the rises of the surplus counter between two samples, between which the
/// useful counter does not rise; and what the counter gained between them, where it does not fall.
pub proof fn law_a_run_is_between_two_samples(samples: Seq<Sample>) -> (ends: (int, int))
    requires
        samples.len() > 0,
    ensures
        0 <= ends.0 <= ends.1 < samples.len(),
        forall|i: int|
            ends.0 <= i < ends.1 ==> (#[trigger] samples[i]).useful >= samples[i + 1].useful,
        longest_run(samples) == surplus_rises(samples, ends.0, ends.1),
        (forall|i: int|
            0 <= i < samples.len() - 1 ==> (#[trigger] samples[i]).surplus <= samples[i
                + 1].surplus) ==> longest_run(samples) == samples[ends.1].surplus
            - samples[ends.0].surplus,
{
    law_the_longest_run_is_a_run(samples);
    let (from, to) = choose|from: int, to: int| #[trigger]
        is_run(samples, from, to) && surplus_over(samples, from, to) == longest_run(samples);
    lemma_rises(samples, from, to);
    if surplus_grows(samples) {
        lemma_surplus_adds_up(samples, from, to);
    }
    assert forall|i: int| from <= i < to implies (#[trigger] samples[i]).useful >= samples[i
        + 1].useful by {
        assert(surplus_only(samples, i));
    }
    (from, to)
}

/// Where the useful counter never moves and the surplus counter never falls, the longest run is all
/// that the surplus counter gained.
pub proof fn law_a_still_useful_counter_is_one_run(samples: Seq<Sample>)
    requires
        samples.len() > 0,
        forall|i: int|
            0 <= i < samples.len() - 1 ==> (#[trigger] samples[i]).useful == samples[i + 1].useful
                && samples[i].surplus <= samples[i + 1].surplus,
    ensures
        longest_run(samples) == samples.last().surplus - samples.first().surplus,
{
    law_a_run_goes_on_while_useful_does_not_rise(samples, 0, samples.len() - 1);
    assert(surplus_grows(samples)) by {
        assert forall|i: int| 0 <= i < samples.len() - 1 implies (#[trigger] samples[i]).surplus
            <= samples[i + 1].surplus by {
            assert(samples[i].useful == samples[i + 1].useful);
        }
    }
    law_a_run_is_at_most_the_rise(samples);
}

/// A trace with no samples, or with one, has no run.
pub proof fn law_one_sample_is_no_run(samples: Seq<Sample>)
    requires
        samples.len() <= 1,
    ensures
        longest_run(samples) == 0,
        !saw_block(samples),
{
}

/// A block is seen exactly where the `share_lag` counter is higher at one sample than at an earlier
/// one.
pub proof fn law_a_block_is_a_rise(samples: Seq<Sample>)
    ensures
        saw_block(samples) <==> exists|i: int, j: int|
            0 <= i < j < samples.len() && (#[trigger] samples[i]).share_lag_blocks < (
            #[trigger] samples[j]).share_lag_blocks,
{
    if exists|i: int, j: int|
        0 <= i < j < samples.len() && (#[trigger] samples[i]).share_lag_blocks < (
        #[trigger] samples[j]).share_lag_blocks {
        let (i, j) = choose|i: int, j: int|
            0 <= i < j < samples.len() && (#[trigger] samples[i]).share_lag_blocks < (
            #[trigger] samples[j]).share_lag_blocks;
        law_any_rise_is_seen(samples, i, j);
    }
    if saw_block(samples) {
        let i = choose|i: int|
            0 <= i < samples.len() - 1 && (#[trigger] samples[i]).share_lag_blocks < samples[i
                + 1].share_lag_blocks;
        let j = i + 1;
        assert(samples[i].share_lag_blocks < samples[j].share_lag_blocks);
    }
}

/// What a reading has of a counter, by the key as it is written.
pub open spec fn held(t: pix_exit::TelemetryModel, key: Seq<char>) -> nat {
    if t.counters.contains_key(key) {
        t.counters[key]
    } else {
        0
    }
}

/// A sample holds what its reading has of five series, by their keys as they are written, and zero
/// of one only where the reading has none.
pub proof fn law_a_sample_holds_its_series(at: Elapsed, t: pix_exit::TelemetryModel)
    requires
        t.fits(),
    ensures
        sample_of(at, t).at == at,
        sample_of(at, t).useful == held(t, "hopr_pix_shares_total{kind=\"useful\"}"@),
        sample_of(at, t).surplus == held(t, "hopr_pix_shares_total{kind=\"surplus\"}"@),
        sample_of(at, t).share_lag_blocks == held(
            t,
            "hopr_pix_gate_blocks_total{reason=\"share_lag\"}"@,
        ),
        sample_of(at, t).egress_funded == held(
            t,
            "hopr_pix_egress_packets_total{mode=\"funded\"}"@,
        ),
        sample_of(at, t).egress_predeposit == held(
            t,
            "hopr_pix_egress_packets_total{mode=\"predeposit\"}"@,
        ),
{
    pix_exit::lemma_written_keys();
}

/// Readings that have the same of those five series have the same sample, whatever else they hold,
/// and readings that have two numbers of one of them have two samples.
pub proof fn law_samples_follow_their_series(
    at: Elapsed,
    t: pix_exit::TelemetryModel,
    u: pix_exit::TelemetryModel,
)
    requires
        t.fits(),
        u.fits(),
    ensures
        (sample_of(at, t) == sample_of(at, u)) <==> {
            let (useful, surplus) = (
                "hopr_pix_shares_total{kind=\"useful\"}"@,
                "hopr_pix_shares_total{kind=\"surplus\"}"@,
            );
            let lag = "hopr_pix_gate_blocks_total{reason=\"share_lag\"}"@;
            let (funded, predeposit) = (
                "hopr_pix_egress_packets_total{mode=\"funded\"}"@,
                "hopr_pix_egress_packets_total{mode=\"predeposit\"}"@,
            );
            &&& held(t, useful) == held(u, useful)
            &&& held(t, surplus) == held(u, surplus)
            &&& held(t, lag) == held(u, lag)
            &&& held(t, funded) == held(u, funded)
            &&& held(t, predeposit) == held(u, predeposit)
        },
{
    law_a_sample_holds_its_series(at, t);
    law_a_sample_holds_its_series(at, u);
}

/// Where a reading has more `share_lag` episodes than an earlier one, a trace that has samples of
/// both saw the block.
pub proof fn law_a_rising_reading_is_a_block(
    samples: Seq<Sample>,
    i: int,
    j: int,
    earlier: pix_exit::TelemetryModel,
    later: pix_exit::TelemetryModel,
)
    requires
        earlier.fits(),
        later.fits(),
        0 <= i < j < samples.len(),
        samples[i] == sample_of(samples[i].at, earlier),
        samples[j] == sample_of(samples[j].at, later),
        held(earlier, "hopr_pix_gate_blocks_total{reason=\"share_lag\"}"@) < held(
            later,
            "hopr_pix_gate_blocks_total{reason=\"share_lag\"}"@,
        ),
    ensures
        saw_block(samples),
{
    law_a_sample_holds_its_series(samples[i].at, earlier);
    law_a_sample_holds_its_series(samples[j].at, later);
    law_any_rise_is_seen(samples, i, j);
}

/// Whole seconds are as many as fit between two times, and none where the later is the earlier.
pub proof fn law_whole_seconds(earlier: int, later: int)
    ensures
        later >= earlier ==> secs_between(earlier, later) * 1_000_000_000 <= later - earlier < (
        secs_between(earlier, later) + 1) * 1_000_000_000,
        later < earlier ==> secs_between(earlier, later) == 0,
{
}

/// A whole number of seconds that is written is taken as it is, and two seconds where something
/// else is written, or nothing.
pub proof fn law_the_poll_reads_back(secs: u64, raw: Seq<char>)
    ensures
        poll_of(Some(decimal::decimal(secs as nat))) == secs,
        decimal::parsed_u64(raw) == Some(secs) ==> poll_of(Some(raw)) == secs,
        decimal::parsed_u64(raw) is None ==> poll_of(Some(raw)) == 2,
        poll_of(None) == 2,
{
    decimal::law_decimal_reads_back(secs);
}

/// The run log holds the number of samples, the seconds between the first and the last, what each
/// counter gained between them, and the longest run, each in digits that read back as it.
pub proof fn law_the_run_log_reads_back(samples: Seq<Sample>) -> (d: Seq<Seq<char>>)
    requires
        0 < samples.len() <= u64::MAX,
        longest_run(samples) <= u64::MAX,
        samples.last().at.total() - samples.first().at.total() < (u64::MAX + 1) * 1_000_000_000,
    ensures
        d.len() == 8,
        summary_of(samples) == "samples="@ + d[0] + " over "@ + d[1] + "s useful=+"@ + d[2]
            + " surplus=+"@ + d[3] + " longest_surplus_run="@ + d[4] + " egress=+"@ + d[5]
            + "/funded +"@ + d[6] + "/predeposit share_lag_episodes=+"@ + d[7],
        decimal::parsed_u64(d[0]) matches Some(n) && n == samples.len(),
        decimal::parsed_u64(d[1]) matches Some(n) && (samples.last().at.total()
            >= samples.first().at.total() ==> n * 1_000_000_000 <= samples.last().at.total()
            - samples.first().at.total() < (n + 1) * 1_000_000_000) && (
        samples.last().at.total() < samples.first().at.total() ==> n == 0),
        decimal::parsed_u64(d[2]) matches Some(n) && is_gain(
            n,
            samples.first().useful,
            samples.last().useful,
        ),
        decimal::parsed_u64(d[3]) matches Some(n) && is_gain(
            n,
            samples.first().surplus,
            samples.last().surplus,
        ),
        decimal::parsed_u64(d[4]) matches Some(n) && n == longest_run(samples),
        decimal::parsed_u64(d[5]) matches Some(n) && is_gain(
            n,
            samples.first().egress_funded,
            samples.last().egress_funded,
        ),
        decimal::parsed_u64(d[6]) matches Some(n) && is_gain(
            n,
            samples.first().egress_predeposit,
            samples.last().egress_predeposit,
        ),
        decimal::parsed_u64(d[7]) matches Some(n) && is_gain(
            n,
            samples.first().share_lag_blocks,
            samples.last().share_lag_blocks,
        ),
{
    let (first, last) = (samples.first(), samples.last());
    let n: Seq<u64> = seq![
        samples.len() as u64,
        secs_between(first.at.total(), last.at.total()) as u64,
        histogram::lessened(last.useful, first.useful),
        histogram::lessened(last.surplus, first.surplus),
        longest_run(samples) as u64,
        histogram::lessened(last.egress_funded, first.egress_funded),
        histogram::lessened(last.egress_predeposit, first.egress_predeposit),
        histogram::lessened(last.share_lag_blocks, first.share_lag_blocks),
    ];
    let d = n.map_values(|x: u64| decimal::decimal(x as nat));
    assert forall|i: int| 0 <= i < 8 implies decimal::parsed_u64(#[trigger] d[i]) == Some(n[i]) by {
        decimal::law_decimal_reads_back(n[i]);
    }
    law_whole_seconds(first.at.total(), last.at.total());
    d
}

/// Whether `n` is what a counter gained from `first` to `last`, nothing where it fell.
pub open spec fn is_gain(n: u64, first: u64, last: u64) -> bool {
    &&& last >= first ==> first + n == last
    &&& last < first ==> n == 0
}

/// A rise of the `share_lag` counter between any two samples is seen, wherever it ends.
pub proof fn law_any_rise_is_seen(samples: Seq<Sample>, i: int, j: int)
    requires
        0 <= i < j < samples.len(),
        samples[i].share_lag_blocks < samples[j].share_lag_blocks,
    ensures
        saw_block(samples),
    decreases j - i,
{
    if samples[j - 1].share_lag_blocks < samples[j - 1 + 1].share_lag_blocks {
        assert(saw_block(samples));
    } else {
        law_any_rise_is_seen(samples, i, j - 1);
    }
}

// ── Sampling ─────────────────────────────────────────────────────────────────

/// Seconds between samples, as `HOPRD_PIX_TRACE_POLL` has them if it has any.
pub open spec fn poll_of(raw: Option<Seq<char>>) -> u64 {
    match raw {
        Some(text) => match decimal::parsed_u64(text) {
            Some(secs) => secs,
            None => DEFAULT_TRACE_POLL,
        },
        None => DEFAULT_TRACE_POLL,
    }
}

/// Seconds between samples, from what `HOPRD_PIX_TRACE_POLL` holds.
pub fn trace_poll(raw: Option<&str>) -> (secs: u64)
    ensures
        secs == poll_of(match raw {
            Some(text) => Some(text@),
            None => None,
        }),
{
    if let Some(text) = raw {
        if let Some(secs) = parse_u64(text) {
            return secs;
        }
    }
    DEFAULT_TRACE_POLL
}

/// What was counted, with nothing where nothing was.
fn counted(n: Option<u64>) -> (out: u64)
    ensures
        out == or_zero(n),
{
    match n {
        Some(n) => n,
        None => 0,
    }
}

impl Sample {
    /// `None` collapses to zero here, and correctly: a failed scrape is never pushed as a sample,
    /// so an absent series at this point means it has not been incremented yet.
    pub fn of(at: Elapsed, t: &ExitTelemetry) -> (sample: Sample)
        ensures
            sample == sample_of(at, t@),
    {
        Sample {
            at,
            useful: counted(t.shares("useful")),
            surplus: counted(t.shares("surplus")),
            share_lag_blocks: counted(t.gate_blocks("share_lag")),
            egress_funded: counted(t.egress("funded")),
            egress_predeposit: counted(t.egress("predeposit")),
        }
    }
}

/// What the Exit's share counters did over a scenario, sampled.
#[derive(Debug)]
pub struct Trace {
    pub samples: Vec<Sample>,
}

impl View for Trace {
    type V = Seq<Sample>;

    open spec fn view(&self) -> Seq<Sample> {
        self.samples@
    }
}

impl Default for Trace {
    fn default() -> (trace: Trace)
        ensures
            trace@ == Seq::<Sample>::empty(),
    {
        Trace { samples: Vec::new() }
    }
}

impl Clone for Trace {
    fn clone(&self) -> (trace: Trace)
        ensures
            trace@ == self@,
    {
        let mut samples: Vec<Sample> = Vec::new();
        let mut i: usize = 0;
        while i < self.samples.len()
            invariant
                i <= self.samples.len(),
                samples@ == self.samples@.take(i as int),
            decreases self.samples.len() - i,
        {
            samples.push(self.samples[i]);
            i = i + 1;
            assert(samples@ =~= self.samples@.take(i as int));
        }
        assert(samples@ =~= self.samples@);
        Trace { samples }
    }
}

/// `a - b`, or nothing where `b` is more.
fn since(a: u64, b: u64) -> (n: u64)
    ensures
        n == histogram::lessened(a, b),
{
    a.saturating_sub(b)
}

impl Trace {
    /// Add a sample of a reading. A scrape that failed has no reading, and the trace skips it.
    pub fn observe(&mut self, at: Elapsed, reading: Option<&ExitTelemetry>)
        ensures
            final(self)@ == with_scrape(old(self)@, scraped(at, reading)),
            reading is None ==> final(self)@ == old(self)@,
            reading is Some ==> final(self)@ == old(self)@.push(sample_of(at, reading->0@)),
    {
        if let Some(t) = reading {
            self.samples.push(Sample::of(at, t));
        }
    }

    /// Samples taken. Zero means every scrape failed, which is not the same as a quiet Exit.
    pub fn len(&self) -> (n: usize)
        ensures
            n == self@.len(),
    {
        self.samples.len()
    }

    /// Whether no sample was taken.
    pub fn is_empty(&self) -> (yes: bool)
        ensures
            yes == (self@.len() == 0),
    {
        self.samples.len() == 0
    }

    /// The longest **contiguous** run of accepted surplus shares during which no useful share
    /// arrived, in shares, unless that is more than a `u64` holds.
    pub fn checked_longest_surplus_only_run(&self) -> (n: Option<u64>)
        ensures
            n is Some == (longest_run(self@) <= u64::MAX),
            n is Some ==> n->0 == longest_run(self@),
    {
        let mut longest: u64 = 0;
        let mut current: u64 = 0;
        let mut k: usize = 1;
        while k < self.samples.len()
            invariant
                1 <= k,
                self.samples.len() > 0 ==> k <= self.samples.len(),
                self.samples.len() == 0 ==> k == 1,
                current == run_ending(self@, k - 1),
                longest == longest_run_to(self@, k - 1),
            decreases self.samples.len() - k,
        {
            let (before, after) = (self.samples[k - 1], self.samples[k]);
            if since(after.useful, before.useful) > SURPLUS_RUN_USEFUL_TOLERANCE {
                current = 0;
            } else {
                match current.checked_add(since(after.surplus, before.surplus)) {
                    Some(run) => {
                        current = run;
                    },
                    None => {
                        proof {
                            lemma_longest_grows(self@, k as int, self@.len() - 1);
                        }
                        return None;
                    },
                }
                if longest < current {
                    longest = current;
                }
            }
            k = k + 1;
        }
        Some(longest)
    }

    /// The longest **contiguous** run of accepted surplus shares during which no useful share
    /// arrived, in shares.
    ///
    /// This is the quantity that distinguishes "the cycle accepted 4096 surplus shares somewhere"
    /// from "it accepted them as the uninterrupted run the emission window actually produces" —
    /// and the run is what the egress gate has to serve through without mistaking it for silence.
    ///
    /// Strictness is [`SURPLUS_RUN_USEFUL_TOLERANCE`]'s; see there before relaxing it.
    pub fn longest_surplus_only_run(&self) -> (n: u64)
        requires
            longest_run(self@) <= u64::MAX,
        ensures
            n == longest_run(self@),
    {
        self.checked_longest_surplus_only_run().unwrap()
    }

    /// Whether the egress gate's `share_lag` counter moved at any point, which a before/after pair
    /// would miss if it had also resumed.
    pub fn saw_share_lag_block(&self) -> (yes: bool)
        ensures
            yes == saw_block(self@),
    {
        let mut k: usize = 1;
        while k < self.samples.len()
            invariant
                1 <= k,
                forall|i: int|
                    0 <= i < k - 1 && i < self@.len() - 1 ==> (#[trigger] self@[i]).share_lag_blocks
                        >= self@[i + 1].share_lag_blocks,
            decreases self.samples.len() - k,
        {
            if self.samples[k].share_lag_blocks > self.samples[k - 1].share_lag_blocks {
                assert(self@[k - 1].share_lag_blocks < self@[k - 1 + 1].share_lag_blocks);
                return true;
            }
            k = k + 1;
        }
        false
    }

    /// One line for the run log.
    pub fn summary(&self) -> (line: String)
        requires
            longest_run(self@) <= u64::MAX,
        ensures
            line@ == summary_of(self@),
            self@.len() == 0 ==> line@ == "no PIX telemetry samples were taken"@,
    {
        if self.samples.len() == 0 {
            return "no PIX telemetry samples were taken".to_owned();
        }
        let first = self.samples[0];
        let last = self.samples[self.samples.len() - 1];
        let mut line = String::new();
        line.append("samples=");
        push_decimal(&mut line, self.samples.len() as u64);
        line.append(" over ");
        push_decimal(&mut line, last.at.secs_since(&first.at));
        line.append("s useful=+");
        push_decimal(&mut line, since(last.useful, first.useful));
        line.append(" surplus=+");
        push_decimal(&mut line, since(last.surplus, first.surplus));
        line.append(" longest_surplus_run=");
        push_decimal(&mut line, self.longest_surplus_only_run());
        line.append(" egress=+");
        push_decimal(&mut line, since(last.egress_funded, first.egress_funded));
        line.append("/funded +");
        push_decimal(&mut line, since(last.egress_predeposit, first.egress_predeposit));
        line.append("/predeposit share_lag_episodes=+");
        push_decimal(&mut line, since(last.share_lag_blocks, first.share_lag_blocks));
        assert(line@ =~= summary_of(self@));
        line
    }
}

// ── The sampler ──────────────────────────────────────────────────────────────

/// What a sampler does next.
#[derive(Debug, Clone, Copy, PartialEq, Eq)]
pub enum Step {
    /// Scrape the Exit once.
    Scrape,
    /// Wait so many seconds.
    Sleep(u64),
    /// Stop, and hand the trace over.
    Finish,
}

/// Samples one Exit's PIX aggregates until it is told to stop.
///
/// It is deliberately cheap. A failed scrape is skipped rather than ending the trace, and nothing
/// here can fail a scenario: a harness that watches the Exit must not become what the Exit has to
/// survive.
#[derive(Debug)]
pub struct Sampler {
    pub trace: Trace,
    /// Seconds between samples.
    pub poll: u64,
}

impl Sampler {
    /// Begin sampling, as often as `HOPRD_PIX_TRACE_POLL` says.
    pub fn start(poll: Option<&str>) -> (sampler: Sampler)
        ensures
            sampler.trace@ == Seq::<Sample>::empty(),
            sampler.poll == poll_of(match poll {
                Some(text) => Some(text@),
                None => None,
            }),
    {
        Sampler { trace: Trace::default(), poll: trace_poll(poll) }
    }

    /// What to do before a sample: scrape, unless it is time to stop.
    pub fn on_wake(&self, stopped: bool) -> (step: Step)
        ensures
            step == (if stopped {
                Step::Finish
            } else {
                Step::Scrape
            }),
    {
        if stopped {
            Step::Finish
        } else {
            Step::Scrape
        }
    }

    /// What to do after a scrape: take its sample, where it has a reading, and wait.
    pub fn on_scrape(&mut self, at: Elapsed, reading: Option<&ExitTelemetry>) -> (step: Step)
        ensures
            step == Step::Sleep(old(self).poll),
            final(self).poll == old(self).poll,
            final(self).trace@ == with_scrape(old(self).trace@, scraped(at, reading)),
            reading is None ==> final(self).trace@ == old(self).trace@,
            reading is Some ==> final(self).trace@ == old(self).trace@.push(
                sample_of(at, reading->0@),
            ),
    {
        self.trace.observe(at, reading);
        Step::Sleep(self.poll)
    }

    /// The trace of a sampler that has ended.
    ///
    /// An empty one where it did not end by itself: a trace is diagnostic, and the assertion that
    /// reads it is what names the consequence.
    pub fn finish(ended: Option<Sampler>) -> (trace: Trace)
        ensures
            trace@ == (match ended {
                Some(sampler) => sampler.trace@,
                None => Seq::<Sample>::empty(),
            }),
    {
        match ended {
            Some(sampler) => sampler.trace,
            None => Trace::default(),
        }
    }
}

} // verus!
