//! The Exit's `hopr_pix_*` supervisor and egress-gate aggregates, read from its `/metrics`.
//!
//! | what | series |
//! | --- | --- |
//! | egress parked, and why | `hopr_pix_gate_blocks_total{reason}`, `hopr_pix_gate_block_seconds{reason}` |
//! | shares accepted, and whether they advanced recovery | `hopr_pix_shares_total{kind}` |
//! | packets served, and what paid for them | `hopr_pix_egress_packets_total{mode}` |
//! | how far each cycle got, once it finalized | `hopr_pix_cycle_{egress_packets,useful_share_fraction,accepted_share_fraction}{outcome}` |
//!
//! These are three instrument kinds with three different reading rules: counters subtract, live-set
//! gauges do not (a delta of a gauge is meaningless), and histograms are bucket vectors with
//! fractional sums.
//!
//! # Absent is not zero
//!
//! A label materialises when it is first incremented, so a run in which the egress gate never
//! parked has **no** `hopr_pix_gate_blocks_total{reason="share_lag"}` series at all. `None` from
//! [`ExitTelemetry::gate_blocks`] is therefore the *good* outcome, and
//! [`ExitTelemetry::observable`] is what separates it from "this Exit exports no PIX aggregates, so
//! nothing was measuring".
use vstd::prelude::*;
use vstd::string::*;

use crate::decimal::{self, push_decimal};
use crate::double::Double;
use crate::exposition::{self, read_line, Record};
use crate::histogram::{self, HistogramModel};
use crate::labels::{self, series_key};
use crate::series::SeriesMap;
use crate::text::{self, chars_of, join, split_lines};

pub use crate::histogram::Histogram;
pub use crate::trace::{Sampler, Trace};

verus! {

broadcast use vstd::string::group_string_axioms;

// ── Series names ─────────────────────────────────────────────────────────────

/// Shares the supervisor validated and newly accepted, by whether they advanced reconstruction.
///
/// `kind` is `useful` or `surplus`. The pair is the whole surplus-run question — a conforming
/// Entry's surplus advances `surplus` and leaves `useful` untouched, which is the run the egress
/// gate must not mistake for silence.
pub const SHARES: &'static str = "hopr_pix_shares_total";

/// Egress block *episodes* — counted once when the egress gate parks, not once per refused packet.
///
/// `reason` is `share_lag` or `predeposit_exhausted`.
pub const GATE_BLOCKS: &'static str = "hopr_pix_gate_blocks_total";

/// How long the egress gate stayed parked, per episode, by the same `reason`.
pub const GATE_BLOCK_SECONDS: &'static str = "hopr_pix_gate_block_seconds";

/// Data packets the egress gate admitted, by what paid for them: `predeposit` or `funded`.
pub const EGRESS_PACKETS: &'static str = "hopr_pix_egress_packets_total";

/// Cycle lifecycle transitions, by `event`: `requested`, `committed`, `funded`, `recovered`,
/// `failed`, `retired`.
pub const CYCLES: &'static str = "hopr_pix_cycles_total";

/// Packets served while one cycle held the accounting front, observed once at finalization.
pub const CYCLE_EGRESS: &'static str = "hopr_pix_cycle_egress_packets";

/// Useful shares over target for one cycle, observed once at finalization. At most 1.0.
pub const USEFUL_FRACTION: &'static str = "hopr_pix_cycle_useful_share_fraction";

/// *Accepted* shares over the useful-share target, observed once at finalization.
///
/// Exceeds one exactly when the Entry sent its negotiated surplus and the Exit took it: a complete
/// cycle lands at `(threshold + surplus) / threshold`. Reading a recovered cycle above the 1.0
/// bucket is the single-sample proof that the surplus was served, needing no trace at all.
pub const ACCEPTED_FRACTION: &'static str = "hopr_pix_cycle_accepted_share_fraction";

// ── Models ───────────────────────────────────────────────────────────────────

/// One reading of the `hopr_pix_*` family, split by instrument kind, by the keys of the series.
#[verifier::ext_equal]
pub struct TelemetryModel {
    pub counters: Map<Seq<char>, nat>,
    pub gauges: Map<Seq<char>, Double>,
    pub hists: Map<Seq<char>, HistogramModel>,
}

/// A reading that holds nothing.
pub open spec fn no_telemetry() -> TelemetryModel {
    TelemetryModel { counters: Map::empty(), gauges: Map::empty(), hists: Map::empty() }
}

/// `a - b`, or nothing where `b` is more.
pub open spec fn less(a: nat, b: nat) -> nat {
    if a >= b {
        (a - b) as nat
    } else {
        0
    }
}

impl TelemetryModel {
    /// What the counter of `key` counted, with nothing where there is none.
    pub open spec fn count_or_none(self, key: Seq<char>) -> nat {
        if self.counters.contains_key(key) {
            self.counters[key]
        } else {
            0
        }
    }

    /// The histogram of `key`, with an empty one where there is none.
    pub open spec fn hist_or_none(self, key: Seq<char>) -> HistogramModel {
        if self.hists.contains_key(key) {
            self.hists[key]
        } else {
            histogram::no_histogram()
        }
    }

    /// The reading with what one line says.
    pub open spec fn with_record(self, record: exposition::RecordModel) -> TelemetryModel {
        match record {
            exposition::RecordModel::Bucket(key, le, n) => self.with_hist(
                key,
                HistogramModel {
                    buckets: histogram::with_bucket(self.hist_or_none(key).buckets, (le, n)),
                    ..self.hist_or_none(key)
                },
            ),
            exposition::RecordModel::Sum(key, x) => self.with_hist(
                key,
                HistogramModel { sum: x, ..self.hist_or_none(key) },
            ),
            exposition::RecordModel::Count(key, n) => self.with_hist(
                key,
                HistogramModel { count: n, ..self.hist_or_none(key) },
            ),
            exposition::RecordModel::Counter(key, n) => TelemetryModel {
                counters: self.counters.insert(key, self.count_or_none(key) + n as nat),
                ..self
            },
            exposition::RecordModel::Gauge(key, x) => TelemetryModel {
                gauges: self.gauges.insert(key, x),
                ..self
            },
        }
    }

    /// The reading with one histogram set.
    pub open spec fn with_hist(self, key: Seq<char>, h: HistogramModel) -> TelemetryModel {
        TelemetryModel { hists: self.hists.insert(key, h), ..self }
    }

    /// The reading with what a line says, if it says anything.
    pub open spec fn with_line(self, line: Seq<char>) -> TelemetryModel {
        match exposition::record_of(line) {
            Some(record) => self.with_record(record),
            None => self,
        }
    }

    /// Whether every counter is one that a `u64` holds.
    pub open spec fn fits(self) -> bool {
        forall|key: Seq<char>|
            self.counters.contains_key(key) ==> #[trigger] self.counters[key] <= u64::MAX
    }

    /// The counter of a series, by its family and its labels.
    pub open spec fn counter(self, family: Seq<char>, set: Seq<labels::LabelModel>) -> Option<u64> {
        let key = labels::key_of(family, set);
        if self.counters.contains_key(key) {
            Some(self.counters[key] as u64)
        } else {
            None
        }
    }

    /// The histogram of a series, by its family and its labels.
    pub open spec fn histogram(self, family: Seq<char>, set: Seq<labels::LabelModel>) -> Option<
        HistogramModel,
    > {
        self.hists.get(labels::key_of(family, set))
    }

    /// Whether any series is there.
    pub open spec fn observable(self) -> bool {
        self != no_telemetry()
    }

    /// Counters and histograms of `later` beyond this reading, and the gauges of `later`.
    pub open spec fn delta(self, later: TelemetryModel) -> TelemetryModel {
        TelemetryModel {
            counters: Map::new(
                |key: Seq<char>| later.counters.contains_key(key),
                |key: Seq<char>| less(later.counters[key], self.count_or_none(key)),
            ),
            gauges: later.gauges,
            hists: Map::new(
                |key: Seq<char>| later.hists.contains_key(key),
                |key: Seq<char>| self.hist_or_none(key).delta(later.hists[key]),
            ),
        }
    }

    /// One line for the run log.
    pub open spec fn summary(self) -> Seq<char> {
        if !self.observable() {
            "PIX Exit aggregates unavailable (no hopr_pix_* series) — these are not zeroes"@
        } else {
            text::joined(
                seq![
                    shown("useful"@, self.counter(SHARES@, seq![("kind"@, "useful"@)])),
                    shown("surplus"@, self.counter(SHARES@, seq![("kind"@, "surplus"@)])),
                    shown(
                        "blocks/share_lag"@,
                        self.counter(GATE_BLOCKS@, seq![("reason"@, "share_lag"@)]),
                    ),
                    shown(
                        "blocks/predeposit"@,
                        self.counter(GATE_BLOCKS@, seq![("reason"@, "predeposit_exhausted"@)]),
                    ),
                    shown(
                        "egress/funded"@,
                        self.counter(EGRESS_PACKETS@, seq![("mode"@, "funded"@)]),
                    ),
                    shown(
                        "egress/predeposit"@,
                        self.counter(EGRESS_PACKETS@, seq![("mode"@, "predeposit"@)]),
                    ),
                    shown(
                        "cycles/recovered"@,
                        self.counter(CYCLES@, seq![("event"@, "recovered"@)]),
                    ),
                    shown(
                        "cycles/requested"@,
                        self.counter(CYCLES@, seq![("event"@, "requested"@)]),
                    ),
                ],
                " "@,
            )
        }
    }
}

/// One entry of the summary: a series that is not there shows as absent, not as zero.
pub open spec fn shown(label: Seq<char>, value: Option<u64>) -> Seq<char> {
    label + seq!['='] + match value {
        Some(n) => decimal::decimal(n as nat),
        None => "absent"@,
    }
}

/// What the lines of an exposition say, one after another.
pub open spec fn reading(lines: Seq<Seq<char>>) -> TelemetryModel
    decreases lines.len(),
{
    if lines.len() == 0 {
        no_telemetry()
    } else {
        reading(lines.drop_last()).with_line(lines.last())
    }
}

/// What an exposition says.
pub open spec fn reading_of(body: Seq<char>) -> TelemetryModel {
    reading(text::lines(body))
}

// ── Laws ─────────────────────────────────────────────────────────────────────

/// A map is empty where it has no keys.
proof fn lemma_no_keys<V>(map: Map<Seq<char>, V>)
    ensures
        map.dom().is_empty() <==> map == Map::<Seq<char>, V>::empty(),
{
    if map.dom().is_empty() {
        assert(map =~= Map::<Seq<char>, V>::empty());
    }
}

/// The keys of the series that are followed, as they are written.
pub proof fn lemma_written_keys()
    ensures
        labels::key_of(SHARES@, seq![("kind"@, "useful"@)])
            == "hopr_pix_shares_total{kind=\"useful\"}"@,
        labels::key_of(SHARES@, seq![("kind"@, "surplus"@)])
            == "hopr_pix_shares_total{kind=\"surplus\"}"@,
        labels::key_of(GATE_BLOCKS@, seq![("reason"@, "share_lag"@)])
            == "hopr_pix_gate_blocks_total{reason=\"share_lag\"}"@,
        labels::key_of(GATE_BLOCKS@, seq![("reason"@, "predeposit_exhausted"@)])
            == "hopr_pix_gate_blocks_total{reason=\"predeposit_exhausted\"}"@,
        labels::key_of(EGRESS_PACKETS@, seq![("mode"@, "funded"@)])
            == "hopr_pix_egress_packets_total{mode=\"funded\"}"@,
        labels::key_of(EGRESS_PACKETS@, seq![("mode"@, "predeposit"@)])
            == "hopr_pix_egress_packets_total{mode=\"predeposit\"}"@,
        labels::key_of(CYCLES@, seq![("event"@, "recovered"@)])
            == "hopr_pix_cycles_total{event=\"recovered\"}"@,
        labels::key_of(CYCLES@, seq![("event"@, "requested"@)])
            == "hopr_pix_cycles_total{event=\"requested\"}"@,
{
    reveal_strlit("{");
    reveal_strlit("=\"");
    reveal_strlit("\"}");
    reveal_strlit("event");
    reveal_strlit("funded");
    reveal_strlit("hopr_pix_cycles_total");
    reveal_strlit("hopr_pix_egress_packets_total");
    reveal_strlit("hopr_pix_gate_blocks_total");
    reveal_strlit("hopr_pix_shares_total");
    reveal_strlit("kind");
    reveal_strlit("mode");
    reveal_strlit("predeposit");
    reveal_strlit("predeposit_exhausted");
    reveal_strlit("reason");
    reveal_strlit("recovered");
    reveal_strlit("requested");
    reveal_strlit("share_lag");
    reveal_strlit("surplus");
    reveal_strlit("useful");
    labels::law_keys_as_written(SHARES@, "kind"@, "useful"@);
    reveal_strlit("hopr_pix_shares_total{kind=\"useful\"}");
    assert(SHARES@ + "{"@ + "kind"@ + "=\""@ + "useful"@ + "\"}"@
        =~= "hopr_pix_shares_total{kind=\"useful\"}"@);
    labels::law_keys_as_written(SHARES@, "kind"@, "surplus"@);
    reveal_strlit("hopr_pix_shares_total{kind=\"surplus\"}");
    assert(SHARES@ + "{"@ + "kind"@ + "=\""@ + "surplus"@ + "\"}"@
        =~= "hopr_pix_shares_total{kind=\"surplus\"}"@);
    labels::law_keys_as_written(GATE_BLOCKS@, "reason"@, "share_lag"@);
    reveal_strlit("hopr_pix_gate_blocks_total{reason=\"share_lag\"}");
    assert(GATE_BLOCKS@ + "{"@ + "reason"@ + "=\""@ + "share_lag"@ + "\"}"@
        =~= "hopr_pix_gate_blocks_total{reason=\"share_lag\"}"@);
    labels::law_keys_as_written(GATE_BLOCKS@, "reason"@, "predeposit_exhausted"@);
    reveal_strlit("hopr_pix_gate_blocks_total{reason=\"predeposit_exhausted\"}");
    assert(GATE_BLOCKS@ + "{"@ + "reason"@ + "=\""@ + "predeposit_exhausted"@ + "\"}"@
        =~= "hopr_pix_gate_blocks_total{reason=\"predeposit_exhausted\"}"@);
    labels::law_keys_as_written(EGRESS_PACKETS@, "mode"@, "funded"@);
    reveal_strlit("hopr_pix_egress_packets_total{mode=\"funded\"}");
    assert(EGRESS_PACKETS@ + "{"@ + "mode"@ + "=\""@ + "funded"@ + "\"}"@
        =~= "hopr_pix_egress_packets_total{mode=\"funded\"}"@);
    labels::law_keys_as_written(EGRESS_PACKETS@, "mode"@, "predeposit"@);
    reveal_strlit("hopr_pix_egress_packets_total{mode=\"predeposit\"}");
    assert(EGRESS_PACKETS@ + "{"@ + "mode"@ + "=\""@ + "predeposit"@ + "\"}"@
        =~= "hopr_pix_egress_packets_total{mode=\"predeposit\"}"@);
    labels::law_keys_as_written(CYCLES@, "event"@, "recovered"@);
    reveal_strlit("hopr_pix_cycles_total{event=\"recovered\"}");
    assert(CYCLES@ + "{"@ + "event"@ + "=\""@ + "recovered"@ + "\"}"@
        =~= "hopr_pix_cycles_total{event=\"recovered\"}"@);
    labels::law_keys_as_written(CYCLES@, "event"@, "requested"@);
    reveal_strlit("hopr_pix_cycles_total{event=\"requested\"}");
    assert(CYCLES@ + "{"@ + "event"@ + "=\""@ + "requested"@ + "\"}"@
        =~= "hopr_pix_cycles_total{event=\"requested\"}"@);
}

/// Whether `digits` tells of the counter of `key`: its number, or that it is absent.
pub open spec fn tells(digits: Seq<char>, counters: Map<Seq<char>, nat>, key: Seq<char>) -> bool {
    if counters.contains_key(key) {
        decimal::parsed_u64(digits) matches Some(n) && n == counters[key]
    } else {
        digits == "absent"@
    }
}

/// What `shown` shows behind the label.
pub open spec fn shown_value(value: Option<u64>) -> Seq<char> {
    match value {
        Some(n) => decimal::decimal(n as nat),
        None => "absent"@,
    }
}

/// An entry behind others, with its label and the space before it written as one.
proof fn lemma_entry(
    before: Seq<char>,
    space: Seq<char>,
    label: Seq<char>,
    value: Seq<char>,
    written: Seq<char>,
)
    requires
        written == space + label + seq!['='],
    ensures
        before + space + (label + seq!['='] + value) == before + written + value,
{
    assert(before + space + (label + seq!['='] + value) =~= before + written + value);
}

/// Each entry of the summary tells of the series it names, by the key as it is written: its number,
/// in digits that read back as it, or that it is absent.
pub proof fn law_the_summary_tells_of_its_series(t: TelemetryModel) -> (d: Seq<Seq<char>>)
    requires
        t.fits(),
        t.observable(),
    ensures
        d.len() == 8,
        t.summary() == "useful="@ + d[0]
            + " surplus="@ + d[1]
            + " blocks/share_lag="@ + d[2]
            + " blocks/predeposit="@ + d[3]
            + " egress/funded="@ + d[4]
            + " egress/predeposit="@ + d[5]
            + " cycles/recovered="@ + d[6]
            + " cycles/requested="@ + d[7],
        tells(
            d[0],
            t.counters,
            "hopr_pix_shares_total{kind=\"useful\"}"@,
        ),
        tells(
            d[1],
            t.counters,
            "hopr_pix_shares_total{kind=\"surplus\"}"@,
        ),
        tells(
            d[2],
            t.counters,
            "hopr_pix_gate_blocks_total{reason=\"share_lag\"}"@,
        ),
        tells(
            d[3],
            t.counters,
            "hopr_pix_gate_blocks_total{reason=\"predeposit_exhausted\"}"@,
        ),
        tells(
            d[4],
            t.counters,
            "hopr_pix_egress_packets_total{mode=\"funded\"}"@,
        ),
        tells(
            d[5],
            t.counters,
            "hopr_pix_egress_packets_total{mode=\"predeposit\"}"@,
        ),
        tells(
            d[6],
            t.counters,
            "hopr_pix_cycles_total{event=\"recovered\"}"@,
        ),
        tells(
            d[7],
            t.counters,
            "hopr_pix_cycles_total{event=\"requested\"}"@,
        ),
{
    let values: Seq<Option<u64>> = seq![
        t.counter(SHARES@, seq![("kind"@, "useful"@)]),
        t.counter(SHARES@, seq![("kind"@, "surplus"@)]),
        t.counter(GATE_BLOCKS@, seq![("reason"@, "share_lag"@)]),
        t.counter(GATE_BLOCKS@, seq![("reason"@, "predeposit_exhausted"@)]),
        t.counter(EGRESS_PACKETS@, seq![("mode"@, "funded"@)]),
        t.counter(EGRESS_PACKETS@, seq![("mode"@, "predeposit"@)]),
        t.counter(CYCLES@, seq![("event"@, "recovered"@)]),
        t.counter(CYCLES@, seq![("event"@, "requested"@)]),
    ];
    let names: Seq<Seq<char>> = seq![
        "useful"@, "surplus"@, "blocks/share_lag"@, "blocks/predeposit"@, "egress/funded"@, "egress/predeposit"@, "cycles/recovered"@, "cycles/requested"@,
    ];
    let d = values.map_values(|value: Option<u64>| shown_value(value));
    let entries = Seq::new(8, |i: int| shown(names[i], values[i]));
    lemma_written_keys();
    assert forall|i: int| 0 <= i < 8 && (#[trigger] values[i]) is Some implies decimal::parsed_u64(
        decimal::decimal(values[i]->0 as nat),
    ) == values[i] by {
        decimal::law_decimal_reads_back(values[i]->0);
    }
    text::lemma_joined_eight(entries, " "@);
    assert(t.summary() == text::joined(entries, " "@)) by {
        assert(entries =~= seq![
            entries[0],
            entries[1],
            entries[2],
            entries[3],
            entries[4],
            entries[5],
            entries[6],
            entries[7],
        ]);
    }
    assert("useful="@ == "useful"@ + seq!['=']) by {
        reveal_strlit("useful=");
        reveal_strlit("useful");
        assert("useful="@ =~= "useful"@ + seq!['=']);
    }
    let s0 = "useful="@ + d[0];
    assert(s0 == entries[0]);
    assert(" surplus="@ == " "@ + "surplus"@ + seq!['=']) by {
        reveal_strlit(" surplus=");
        reveal_strlit("surplus");
        reveal_strlit(" ");
        assert(" surplus="@ =~= " "@ + "surplus"@ + seq!['=']);
    }
    lemma_entry(s0, " "@, "surplus"@, d[1], " surplus="@);
    let s1 = s0 + " surplus="@ + d[1];
    assert(" blocks/share_lag="@ == " "@ + "blocks/share_lag"@ + seq!['=']) by {
        reveal_strlit(" blocks/share_lag=");
        reveal_strlit("blocks/share_lag");
        reveal_strlit(" ");
        assert(" blocks/share_lag="@ =~= " "@ + "blocks/share_lag"@ + seq!['=']);
    }
    lemma_entry(s1, " "@, "blocks/share_lag"@, d[2], " blocks/share_lag="@);
    let s2 = s1 + " blocks/share_lag="@ + d[2];
    assert(" blocks/predeposit="@ == " "@ + "blocks/predeposit"@ + seq!['=']) by {
        reveal_strlit(" blocks/predeposit=");
        reveal_strlit("blocks/predeposit");
        reveal_strlit(" ");
        assert(" blocks/predeposit="@ =~= " "@ + "blocks/predeposit"@ + seq!['=']);
    }
    lemma_entry(s2, " "@, "blocks/predeposit"@, d[3], " blocks/predeposit="@);
    let s3 = s2 + " blocks/predeposit="@ + d[3];
    assert(" egress/funded="@ == " "@ + "egress/funded"@ + seq!['=']) by {
        reveal_strlit(" egress/funded=");
        reveal_strlit("egress/funded");
        reveal_strlit(" ");
        assert(" egress/funded="@ =~= " "@ + "egress/funded"@ + seq!['=']);
    }
    lemma_entry(s3, " "@, "egress/funded"@, d[4], " egress/funded="@);
    let s4 = s3 + " egress/funded="@ + d[4];
    assert(" egress/predeposit="@ == " "@ + "egress/predeposit"@ + seq!['=']) by {
        reveal_strlit(" egress/predeposit=");
        reveal_strlit("egress/predeposit");
        reveal_strlit(" ");
        assert(" egress/predeposit="@ =~= " "@ + "egress/predeposit"@ + seq!['=']);
    }
    lemma_entry(s4, " "@, "egress/predeposit"@, d[5], " egress/predeposit="@);
    let s5 = s4 + " egress/predeposit="@ + d[5];
    assert(" cycles/recovered="@ == " "@ + "cycles/recovered"@ + seq!['=']) by {
        reveal_strlit(" cycles/recovered=");
        reveal_strlit("cycles/recovered");
        reveal_strlit(" ");
        assert(" cycles/recovered="@ =~= " "@ + "cycles/recovered"@ + seq!['=']);
    }
    lemma_entry(s5, " "@, "cycles/recovered"@, d[6], " cycles/recovered="@);
    let s6 = s5 + " cycles/recovered="@ + d[6];
    assert(" cycles/requested="@ == " "@ + "cycles/requested"@ + seq!['=']) by {
        reveal_strlit(" cycles/requested=");
        reveal_strlit("cycles/requested");
        reveal_strlit(" ");
        assert(" cycles/requested="@ =~= " "@ + "cycles/requested"@ + seq!['=']);
    }
    lemma_entry(s6, " "@, "cycles/requested"@, d[7], " cycles/requested="@);
    let s7 = s6 + " cycles/requested="@ + d[7];
    assert(t.summary() == s7);
    d
}

// ── Reading ──────────────────────────────────────────────────────────────────

/// One reading of the `hopr_pix_*` family, split by instrument kind.
///
/// The three maps are separate because their reading rules are: see the module header. Keys are
/// [`series_key`]'s normalised `family{label="value",…}`.
#[derive(Debug, PartialEq)]
pub struct ExitTelemetry {
    pub counters: SeriesMap<u64>,
    pub gauges: SeriesMap<Double>,
    pub hists: SeriesMap<Histogram>,
}

impl View for ExitTelemetry {
    type V = TelemetryModel;

    open spec fn view(&self) -> TelemetryModel {
        TelemetryModel {
            counters: self.counters@.map_values(|n: u64| n as nat),
            gauges: self.gauges@,
            hists: self.hists@,
        }
    }
}

impl Default for ExitTelemetry {
    fn default() -> (t: ExitTelemetry)
        ensures
            t@ == no_telemetry(),
    {
        let t = ExitTelemetry {
            counters: SeriesMap::new(),
            gauges: SeriesMap::new(),
            hists: SeriesMap::new(),
        };
        assert(t@ =~= no_telemetry());
        t
    }
}

impl Clone for ExitTelemetry {
    fn clone(&self) -> (t: ExitTelemetry)
        ensures
            t@ == self@,
    {
        let t = ExitTelemetry {
            counters: self.counters.clone(),
            gauges: self.gauges.clone(),
            hists: self.hists.clone(),
        };
        assert(t.counters@ =~= self.counters@);
        assert(t.gauges@ =~= self.gauges@);
        assert(t.hists@ =~= self.hists@);
        t
    }
}

impl ExitTelemetry {
    /// Take the histogram of `key` out, or an empty one.
    fn take_hist(&mut self, key: &str) -> (h: Histogram)
        ensures
            h@ == old(self)@.hist_or_none(key@),
            final(self)@ == (TelemetryModel { hists: old(self)@.hists.remove(key@), ..old(self)@ }),
    {
        match self.hists.take(key) {
            Some(h) => h,
            None => Histogram::default(),
        }
    }

    /// Put a histogram back.
    fn put_hist(&mut self, key: String, h: Histogram)
        ensures
            final(self)@ == old(self)@.with_hist(key@, h@),
    {
        self.hists.insert(key, h);
    }

    /// Add what one line says. Nothing is added where a counter would not fit.
    fn add(&mut self, record: Record) -> (fits: bool)
        ensures
            fits == (record@ matches exposition::RecordModel::Counter(key, n) ==> old(
                self,
            )@.count_or_none(key) + n <= u64::MAX),
            final(self)@ == (if fits {
                old(self)@.with_record(record@)
            } else {
                old(self)@
            }),
    {
        let ghost before = self@;
        match record {
            Record::Bucket(key, le, n) => {
                let mut h = self.take_hist(key.as_str());
                h.add_bucket(le, n);
                self.put_hist(key, h);
                assert(self@ =~= before.with_record(record@));
            },
            Record::Sum(key, x) => {
                let mut h = self.take_hist(key.as_str());
                h.sum = x;
                self.put_hist(key, h);
                assert(self@ =~= before.with_record(record@));
            },
            Record::Count(key, n) => {
                let mut h = self.take_hist(key.as_str());
                h.count = n;
                self.put_hist(key, h);
                assert(self@ =~= before.with_record(record@));
            },
            Record::Counter(key, n) => {
                // A registered-but-unset series still creates the entry, which is the whole
                // absent-versus-zero distinction.
                let counted: u64 = match self.counters.get(key.as_str()) {
                    Some(counted) => *counted,
                    None => 0,
                };
                assert(counted == before.count_or_none(key@));
                match counted.checked_add(n) {
                    Some(total) => {
                        self.counters.insert(key, total);
                        assert(self@ =~= before.with_record(record@));
                    },
                    None => {
                        return false;
                    },
                }
            },
            Record::Gauge(key, x) => {
                self.gauges.insert(key, x);
                assert(self@ =~= before.with_record(record@));
            },
        }
        true
    }
}

/// More lines leave no counter smaller.
proof fn lemma_counters_grow(lines: Seq<Seq<char>>, i: int, key: Seq<char>)
    requires
        0 <= i <= lines.len(),
        reading(lines.take(i)).counters.contains_key(key),
    ensures
        reading(lines).counters.contains_key(key),
        reading(lines).counters[key] >= reading(lines.take(i)).counters[key],
    decreases lines.len() - i,
{
    if i == lines.len() {
        assert(lines.take(i) =~= lines);
    } else {
        assert(lines.take(i + 1).drop_last() =~= lines.take(i));
        lemma_counters_grow(lines, i + 1, key);
    }
}

/// Read every `hopr_pix_*` series out of a Prometheus text exposition, unless a counter comes to
/// more than a `u64` holds.
pub fn checked_parse(body: &str) -> (t: Option<ExitTelemetry>)
    ensures
        t is Some == reading_of(body@).fits(),
        t is Some ==> t->0@ == reading_of(body@),
{
    let chars = chars_of(body);
    let list = split_lines(chars.as_slice());
    let ghost lines = text::lines(body@);
    let mut out = ExitTelemetry::default();
    let mut i: usize = 0;
    assert(lines.take(0) =~= Seq::<Seq<char>>::empty());
    while i < list.len()
        invariant
            i <= list.len(),
            text::texts(list@) == lines,
            lines == text::lines(body@),
            out@ == reading(lines.take(i as int)),
        decreases list.len() - i,
    {
        let line = list[i];
        assert(lines[i as int] == line@);
        assert(lines.take(i + 1).drop_last() =~= lines.take(i as int));
        if let Some(record) = read_line(line) {
            if !out.add(record) {
                proof {
                    let key = record@->Counter_0;
                    lemma_counters_grow(lines, i + 1, key);
                    assert(reading(lines).counters[key] > u64::MAX);
                }
                return None;
            }
        }
        i = i + 1;
    }
    assert(lines.take(i as int) =~= lines);
    assert(out@.fits());
    Some(out)
}

/// Read every `hopr_pix_*` series out of a Prometheus text exposition.
pub fn parse(body: &str) -> (t: ExitTelemetry)
    requires
        reading_of(body@).fits(),
    ensures
        t@ == reading_of(body@),
{
    checked_parse(body).unwrap()
}

// ── Asking ───────────────────────────────────────────────────────────────────

/// The counters of `later`, less what `earlier` had counted.
fn counters_since(earlier: &SeriesMap<u64>, later: &SeriesMap<u64>) -> (since: SeriesMap<u64>)
    ensures
        since@.dom() == later@.dom(),
        forall|key: Seq<char>| #[trigger]
            since@.contains_key(key) ==> since@[key] == histogram::lessened(
                later@[key],
                if earlier@.contains_key(key) {
                    earlier@[key]
                } else {
                    0
                },
            ),
{
    let mut since: SeriesMap<u64> = SeriesMap::new();
    let n = later.len();
    let mut i: usize = 0;
    while i < n
        invariant
            i <= n == later.keys().len(),
            later.keys().to_set() == later@.dom(),
            forall|j: int|
                0 <= j < n ==> later@.contains_key(#[trigger] later.keys()[j])
                    && later@[later.keys()[j]] == later.at(j)@,
            forall|j: int| 0 <= j < i ==> since@.contains_key(#[trigger] later.keys()[j]),
            forall|key: Seq<char>| #[trigger]
                since@.contains_key(key) ==> later@.contains_key(key) && since@[key]
                    == histogram::lessened(
                    later@[key],
                    if earlier@.contains_key(key) {
                        earlier@[key]
                    } else {
                        0
                    },
                ),
        decreases n - i,
    {
        let key = later.key_at(i);
        let before: u64 = match earlier.get(key.as_str()) {
            Some(counted) => *counted,
            None => 0,
        };
        let counted: u64 = *later.value_at(i);
        since.insert(key.clone(), counted.saturating_sub(before));
        i = i + 1;
    }
    assert(since@.dom() =~= later@.dom()) by {
        assert forall|key: Seq<char>| later@.contains_key(key) implies since@.contains_key(key) by {
            assert(later.keys().to_set().contains(key));
            let j = later.keys().index_of(key);
            assert(since@.contains_key(later.keys()[j]));
        }
    }
    since
}

/// The histograms of `later`, less what `earlier` had counted.
fn hists_since(earlier: &SeriesMap<Histogram>, later: &SeriesMap<Histogram>) -> (since: SeriesMap<
    Histogram,
>)
    ensures
        since@.dom() == later@.dom(),
        forall|key: Seq<char>| #[trigger]
            since@.contains_key(key) ==> since@[key] == (if earlier@.contains_key(key) {
                earlier@[key]
            } else {
                histogram::no_histogram()
            }).delta(later@[key]),
{
    let mut since: SeriesMap<Histogram> = SeriesMap::new();
    let n = later.len();
    let mut i: usize = 0;
    while i < n
        invariant
            i <= n == later.keys().len(),
            later.keys().to_set() == later@.dom(),
            forall|j: int|
                0 <= j < n ==> later@.contains_key(#[trigger] later.keys()[j])
                    && later@[later.keys()[j]] == later.at(j)@,
            forall|j: int| 0 <= j < i ==> since@.contains_key(#[trigger] later.keys()[j]),
            forall|key: Seq<char>| #[trigger]
                since@.contains_key(key) ==> later@.contains_key(key) && since@[key] == (
                if earlier@.contains_key(key) {
                    earlier@[key]
                } else {
                    histogram::no_histogram()
                }).delta(later@[key]),
        decreases n - i,
    {
        let key = later.key_at(i);
        let h = match earlier.get(key.as_str()) {
            Some(before) => before.delta(later.value_at(i)),
            None => Histogram::default().delta(later.value_at(i)),
        };
        since.insert(key.clone(), h);
        i = i + 1;
    }
    assert(since@.dom() =~= later@.dom()) by {
        assert forall|key: Seq<char>| later@.contains_key(key) implies since@.contains_key(key) by {
            assert(later.keys().to_set().contains(key));
            let j = later.keys().index_of(key);
            assert(since@.contains_key(later.keys()[j]));
        }
    }
    since
}

/// One entry of the summary.
fn show(label: &str, value: Option<u64>) -> (out: String)
    ensures
        out@ == shown(label@, value),
{
    let mut out = String::new();
    out.append(label);
    out.push('=');
    match value {
        Some(n) => push_decimal(&mut out, n),
        None => out.append("absent"),
    }
    assert(out@ =~= shown(label@, value));
    out
}

impl ExitTelemetry {
    /// A counter series by its full label set; `&[]` for the unlabelled ones.
    pub fn counter_series(&self, family: &str, set: &[(&str, &str)]) -> (n: Option<u64>)
        ensures
            n == self@.counter(family@, labels::label_models(set@)),
            n == self.counters@.get(labels::key_of(family@, labels::label_models(set@))),
            set@.len() == 0 ==> n == self.counters@.get(family@),
    {
        match self.counters.get(series_key(family, set).as_str()) {
            Some(n) => Some(*n),
            None => None,
        }
    }

    /// A counter series carrying one label, which is every labelled counter in this family.
    pub fn counter(&self, family: &str, label: &str, value: &str) -> (n: Option<u64>)
        ensures
            n == self@.counter(family@, seq![(label@, value@)]),
            n == self.counters@.get(family@ + "{"@ + label@ + "=\""@ + value@ + "\"}"@),
    {
        proof {
            labels::law_keys_as_written(family@, label@, value@);
        }
        let set: [(&str, &str); 1] = [(label, value)];
        assert(labels::label_models(set@) =~= seq![(label@, value@)]);
        self.counter_series(family, &set)
    }

    /// An unlabelled gauge's current value.
    pub fn gauge(&self, family: &str) -> (x: Option<Double>)
        ensures
            x == self@.gauges.get(family@),
    {
        match self.gauges.get(family) {
            Some(x) => Some(*x),
            None => None,
        }
    }

    /// A histogram series.
    pub fn histogram(&self, family: &str, label: &str, value: &str) -> (h: Option<&Histogram>)
        ensures
            h is Some == self@.histogram(family@, seq![(label@, value@)]) is Some,
            h is Some ==> h->0@ == self@.histogram(family@, seq![(label@, value@)])->0,
            h is Some == self.hists@.contains_key(
                family@ + "{"@ + label@ + "=\""@ + value@ + "\"}"@,
            ),
            h is Some ==> h->0@ == self.hists@[family@ + "{"@ + label@ + "=\""@ + value@ + "\"}"@],
    {
        proof {
            labels::law_keys_as_written(family@, label@, value@);
        }
        let set: [(&str, &str); 1] = [(label, value)];
        assert(labels::label_models(set@) =~= seq![(label@, value@)]);
        self.hists.get(series_key(family, &set).as_str())
    }

    /// Shares newly accepted of one `kind` — `"useful"` or `"surplus"`.
    pub fn shares(&self, kind: &str) -> (n: Option<u64>)
        ensures
            n == self@.counter(SHARES@, seq![("kind"@, kind@)]),
            n == self.counters@.get("hopr_pix_shares_total{kind=\""@ + kind@ + "\"}"@),
    {
        proof {
            reveal_strlit("hopr_pix_shares_total{kind=\"");
            reveal_strlit("hopr_pix_shares_total");
            reveal_strlit("kind");
            reveal_strlit("{");
            reveal_strlit("=\"");
            assert(SHARES@ + "{"@ + "kind"@ + "=\""@ =~= "hopr_pix_shares_total{kind=\""@);
        }
        self.counter(SHARES, "kind", kind)
    }

    /// Egress block episodes for one `reason` — `"share_lag"` or `"predeposit_exhausted"`.
    ///
    /// `None` means the egress gate never parked for that reason, which is the healthy reading. See
    /// the module header on absent-versus-zero.
    pub fn gate_blocks(&self, reason: &str) -> (n: Option<u64>)
        ensures
            n == self@.counter(GATE_BLOCKS@, seq![("reason"@, reason@)]),
            n == self.counters@.get("hopr_pix_gate_blocks_total{reason=\""@ + reason@ + "\"}"@),
    {
        proof {
            reveal_strlit("hopr_pix_gate_blocks_total{reason=\"");
            reveal_strlit("hopr_pix_gate_blocks_total");
            reveal_strlit("reason");
            reveal_strlit("{");
            reveal_strlit("=\"");
            assert(GATE_BLOCKS@ + "{"@ + "reason"@ + "=\""@ =~= "hopr_pix_gate_blocks_total{reason=\""@);
        }
        self.counter(GATE_BLOCKS, "reason", reason)
    }

    /// How long the egress gate stayed parked, per episode, for one `reason`.
    pub fn gate_block_seconds(&self, reason: &str) -> (h: Option<&Histogram>)
        ensures
            h is Some == self@.histogram(GATE_BLOCK_SECONDS@, seq![("reason"@, reason@)]) is Some,
            h is Some ==> h->0@ == self@.histogram(
                GATE_BLOCK_SECONDS@,
                seq![("reason"@, reason@)],
            )->0,
            h is Some == self.hists@.contains_key("hopr_pix_gate_block_seconds{reason=\""@ + reason@ + "\"}"@),
            h is Some ==> h->0@ == self.hists@["hopr_pix_gate_block_seconds{reason=\""@ + reason@ + "\"}"@],
    {
        proof {
            reveal_strlit("hopr_pix_gate_block_seconds{reason=\"");
            reveal_strlit("hopr_pix_gate_block_seconds");
            reveal_strlit("reason");
            reveal_strlit("{");
            reveal_strlit("=\"");
            assert(GATE_BLOCK_SECONDS@ + "{"@ + "reason"@ + "=\""@ =~= "hopr_pix_gate_block_seconds{reason=\""@);
        }
        self.histogram(GATE_BLOCK_SECONDS, "reason", reason)
    }

    /// Packets admitted in one gate `mode` — `"predeposit"` or `"funded"`.
    pub fn egress(&self, mode: &str) -> (n: Option<u64>)
        ensures
            n == self@.counter(EGRESS_PACKETS@, seq![("mode"@, mode@)]),
            n == self.counters@.get("hopr_pix_egress_packets_total{mode=\""@ + mode@ + "\"}"@),
    {
        proof {
            reveal_strlit("hopr_pix_egress_packets_total{mode=\"");
            reveal_strlit("hopr_pix_egress_packets_total");
            reveal_strlit("mode");
            reveal_strlit("{");
            reveal_strlit("=\"");
            assert(EGRESS_PACKETS@ + "{"@ + "mode"@ + "=\""@ =~= "hopr_pix_egress_packets_total{mode=\""@);
        }
        self.counter(EGRESS_PACKETS, "mode", mode)
    }

    /// Cycle transitions of one `event`.
    pub fn cycles(&self, event: &str) -> (n: Option<u64>)
        ensures
            n == self@.counter(CYCLES@, seq![("event"@, event@)]),
            n == self.counters@.get("hopr_pix_cycles_total{event=\""@ + event@ + "\"}"@),
    {
        proof {
            reveal_strlit("hopr_pix_cycles_total{event=\"");
            reveal_strlit("hopr_pix_cycles_total");
            reveal_strlit("event");
            reveal_strlit("{");
            reveal_strlit("=\"");
            assert(CYCLES@ + "{"@ + "event"@ + "=\""@ =~= "hopr_pix_cycles_total{event=\""@);
        }
        self.counter(CYCLES, "event", event)
    }

    /// Per-cycle egress distribution for one `outcome` — `"recovered"` or `"failed"`.
    pub fn cycle_egress(&self, outcome: &str) -> (h: Option<&Histogram>)
        ensures
            h is Some == self@.histogram(CYCLE_EGRESS@, seq![("outcome"@, outcome@)]) is Some,
            h is Some ==> h->0@ == self@.histogram(CYCLE_EGRESS@, seq![("outcome"@, outcome@)])->0,
            h is Some == self.hists@.contains_key("hopr_pix_cycle_egress_packets{outcome=\""@ + outcome@ + "\"}"@),
            h is Some ==> h->0@ == self.hists@["hopr_pix_cycle_egress_packets{outcome=\""@ + outcome@ + "\"}"@],
    {
        proof {
            reveal_strlit("hopr_pix_cycle_egress_packets{outcome=\"");
            reveal_strlit("hopr_pix_cycle_egress_packets");
            reveal_strlit("outcome");
            reveal_strlit("{");
            reveal_strlit("=\"");
            assert(CYCLE_EGRESS@ + "{"@ + "outcome"@ + "=\""@ =~= "hopr_pix_cycle_egress_packets{outcome=\""@);
        }
        self.histogram(CYCLE_EGRESS, "outcome", outcome)
    }

    /// Per-cycle useful-share coverage for one `outcome`.
    pub fn useful_fraction(&self, outcome: &str) -> (h: Option<&Histogram>)
        ensures
            h is Some == self@.histogram(USEFUL_FRACTION@, seq![("outcome"@, outcome@)]) is Some,
            h is Some ==> h->0@ == self@.histogram(
                USEFUL_FRACTION@,
                seq![("outcome"@, outcome@)],
            )->0,
            h is Some == self.hists@.contains_key("hopr_pix_cycle_useful_share_fraction{outcome=\""@ + outcome@ + "\"}"@),
            h is Some ==> h->0@ == self.hists@["hopr_pix_cycle_useful_share_fraction{outcome=\""@ + outcome@ + "\"}"@],
    {
        proof {
            reveal_strlit("hopr_pix_cycle_useful_share_fraction{outcome=\"");
            reveal_strlit("hopr_pix_cycle_useful_share_fraction");
            reveal_strlit("outcome");
            reveal_strlit("{");
            reveal_strlit("=\"");
            assert(USEFUL_FRACTION@ + "{"@ + "outcome"@ + "=\""@ =~= "hopr_pix_cycle_useful_share_fraction{outcome=\""@);
        }
        self.histogram(USEFUL_FRACTION, "outcome", outcome)
    }

    /// Per-cycle *accepted*-share coverage for one `outcome`; above 1.0 means surplus was taken.
    pub fn accepted_fraction(&self, outcome: &str) -> (h: Option<&Histogram>)
        ensures
            h is Some == self@.histogram(ACCEPTED_FRACTION@, seq![("outcome"@, outcome@)]) is Some,
            h is Some ==> h->0@ == self@.histogram(
                ACCEPTED_FRACTION@,
                seq![("outcome"@, outcome@)],
            )->0,
            h is Some == self.hists@.contains_key("hopr_pix_cycle_accepted_share_fraction{outcome=\""@ + outcome@ + "\"}"@),
            h is Some ==> h->0@ == self.hists@["hopr_pix_cycle_accepted_share_fraction{outcome=\""@ + outcome@ + "\"}"@],
    {
        proof {
            reveal_strlit("hopr_pix_cycle_accepted_share_fraction{outcome=\"");
            reveal_strlit("hopr_pix_cycle_accepted_share_fraction");
            reveal_strlit("outcome");
            reveal_strlit("{");
            reveal_strlit("=\"");
            assert(ACCEPTED_FRACTION@ + "{"@ + "outcome"@ + "=\""@ =~= "hopr_pix_cycle_accepted_share_fraction{outcome=\""@);
        }
        self.histogram(ACCEPTED_FRACTION, "outcome", outcome)
    }

    /// Whether any `hopr_pix_*` series exists at all.
    ///
    /// `false` means the Exit exports no PIX aggregates, so every accessor above returns `None` for
    /// a reason that has nothing to do with the Session under test.
    pub fn observable(&self) -> (yes: bool)
        ensures
            yes == self@.observable(),
            yes == !(self.counters@.dom().is_empty() && self.gauges@.dom().is_empty()
                && self.hists@.dom().is_empty()),
    {
        let none = self.counters.is_empty() && self.gauges.is_empty() && self.hists.is_empty();
        proof {
            lemma_no_keys(self.counters@);
            lemma_no_keys(self.gauges@);
            lemma_no_keys(self.hists@);
            if none {
                assert(self@ =~= no_telemetry());
            } else {
                if self@ == no_telemetry() {
                    assert(self@.counters.dom() =~= self.counters@.dom());
                    assert(self.counters@ =~= Map::<Seq<char>, u64>::empty());
                }
            }
        }
        !none
    }

    /// Counters and histograms accumulated between `self` (earlier) and `later`; gauges taken from
    /// `later` as they stand.
    ///
    /// Gauges are deliberately *not* differenced. They are a live-set census — Sessions active,
    /// cycles by phase, bytes reserved — and the difference of two censuses is not a quantity: a
    /// Session opening and another closing between readings nets to zero and reads as "nothing
    /// happened". The absolute value at the later reading is the only thing that means anything.
    pub fn delta(&self, later: &ExitTelemetry) -> (since: ExitTelemetry)
        ensures
            since@ == self@.delta(later@),
    {
        let since = ExitTelemetry {
            counters: counters_since(&self.counters, &later.counters),
            gauges: later.gauges.clone(),
            hists: hists_since(&self.hists, &later.hists),
        };
        proof {
            assert(since.gauges@ =~= later.gauges@);
            assert(since@.hists =~= self@.delta(later@).hists);
            assert(since@.counters =~= self@.delta(later@).counters);
        }
        since
    }

    /// One line for the run log, naming what the egress gate and the shares did.
    ///
    /// Unregistered series print as `absent` rather than `0`, so a log line can never read as "the
    /// gate never blocked" when the truth is that nothing was measuring.
    pub fn summary(&self) -> (line: String)
        ensures
            line@ == self@.summary(),
            self.counters@.dom().is_empty() && self.gauges@.dom().is_empty()
                && self.hists@.dom().is_empty() ==> line@
                == "PIX Exit aggregates unavailable (no hopr_pix_* series) — these are not zeroes"@,
    {
        if !self.observable() {
            return "PIX Exit aggregates unavailable (no hopr_pix_* series) — these are not zeroes"
                .to_owned();
        }
        let mut parts: Vec<String> = Vec::new();
        parts.push(show("useful", self.shares("useful")));
        parts.push(show("surplus", self.shares("surplus")));
        parts.push(show("blocks/share_lag", self.gate_blocks("share_lag")));
        parts.push(show("blocks/predeposit", self.gate_blocks("predeposit_exhausted")));
        parts.push(show("egress/funded", self.egress("funded")));
        parts.push(show("egress/predeposit", self.egress("predeposit")));
        parts.push(show("cycles/recovered", self.cycles("recovered")));
        parts.push(show("cycles/requested", self.cycles("requested")));
        let line = join(&parts, " ");
        assert(line@ == self@.summary()) by {
            assert(text::string_texts(parts@).len() == 8);
            assert(text::string_texts(parts@) =~= seq![
                shown("useful"@, self@.counter(SHARES@, seq![("kind"@, "useful"@)])),
                shown("surplus"@, self@.counter(SHARES@, seq![("kind"@, "surplus"@)])),
                shown(
                    "blocks/share_lag"@,
                    self@.counter(GATE_BLOCKS@, seq![("reason"@, "share_lag"@)]),
                ),
                shown(
                    "blocks/predeposit"@,
                    self@.counter(GATE_BLOCKS@, seq![("reason"@, "predeposit_exhausted"@)]),
                ),
                shown("egress/funded"@, self@.counter(EGRESS_PACKETS@, seq![("mode"@, "funded"@)])),
                shown(
                    "egress/predeposit"@,
                    self@.counter(EGRESS_PACKETS@, seq![("mode"@, "predeposit"@)]),
                ),
                shown("cycles/recovered"@, self@.counter(CYCLES@, seq![("event"@, "recovered"@)])),
                shown("cycles/requested"@, self@.counter(CYCLES@, seq![("event"@, "requested"@)])),
            ]);
        }
        line
    }
}

} // verus!
