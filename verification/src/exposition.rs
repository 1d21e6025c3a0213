//! What one line of a Prometheus text exposition says.
//!
//! * A histogram named `N` renders as `N_count{A}`, `N_sum{A}`, one cumulative `N_bucket{A,le=B}`
//!   per bound, and a final `N_bucket{A,le="+Inf"}` equal to `N_count`.
//! * `le` is emitted after the attributes, and the attributes are not sorted, so a series is keyed
//!   on a normalised label set.
//! * `le` is rendered as short as it goes, so the 1.0 boundary arrives as `le="1"` and bounds are
//!   compared as numbers.
use vstd::prelude::*;
use vstd::string::*;

use crate::double::Double;
use crate::labels::{self, key_from, label_value, without_le};
use crate::numeral::{self, parse_double};
use crate::text::{self, cut_after_last, cut_once, find, is_text, starts_with, strip_suffix, trim};

verus! {

broadcast use vstd::string::group_string_axioms;

/// The family that is read. Names are matched on the prefix *and* split on the brace, so nothing
/// from the `hopr_strategy_pix_*` family can leak in.
pub const PREFIX: &'static str = "hopr_pix_";

// ── Models ───────────────────────────────────────────────────────────────────

/// Which instrument kind a rendered name belongs to, and the family it belongs to.
pub enum KindModel {
    Bucket(Seq<char>),
    Sum(Seq<char>),
    Count(Seq<char>),
    Counter(Seq<char>),
    Gauge(Seq<char>),
}

/// What stands before a suffix.
pub open spec fn before_suffix(name: Seq<char>, suffix: Seq<char>) -> Seq<char> {
    name.take(name.len() - suffix.len())
}

/// The kind of a rendered name: a histogram's suffixes come first, then `_total`.
pub open spec fn kind_of(name: Seq<char>) -> KindModel {
    if "_bucket"@.is_suffix_of(name) {
        KindModel::Bucket(before_suffix(name, "_bucket"@))
    } else if "_sum"@.is_suffix_of(name) {
        KindModel::Sum(before_suffix(name, "_sum"@))
    } else if "_count"@.is_suffix_of(name) {
        KindModel::Count(before_suffix(name, "_count"@))
    } else if "_total"@.is_suffix_of(name) {
        KindModel::Counter(name)
    } else {
        KindModel::Gauge(name)
    }
}

/// The bound that `raw` names.
pub open spec fn bound_of(raw: Seq<char>) -> Option<Double> {
    if raw == "+Inf"@ || raw == "+inf"@ {
        Some(crate::histogram::infinity())
    } else {
        numeral::parsed_double(raw)
    }
}

/// The name a line starts with: all before the first brace or space.
pub open spec fn name_of(line: Seq<char>) -> Seq<char> {
    let brace = text::first_index(line, '{');
    let space = text::first_index(line, ' ');
    line.take(if brace <= space {
        brace
    } else {
        space
    })
}

/// The label set of a line: all between its first brace and the next closing one.
pub open spec fn labels_of(line: Seq<char>) -> Seq<char> {
    match text::split_once(line, '{') {
        Some((_, rest)) => match text::split_once(rest, '}') {
            Some((inside, _)) => inside,
            None => seq![],
        },
        None => seq![],
    }
}

/// The finite number a line ends in, behind its last space.
pub open spec fn value_of(line: Seq<char>) -> Option<Double> {
    match text::after_last(line, ' ') {
        Some(rest) => match numeral::parsed_double(text::trimmed(rest)) {
            Some(x) => if x.finite() {
                Some(x)
            } else {
                None
            },
            None => None,
        },
        None => None,
    }
}

/// What one line adds to a reading. The first part is the key of the series.
pub enum RecordModel {
    Bucket(Seq<char>, Double, u64),
    Sum(Seq<char>, Double),
    Count(Seq<char>, u64),
    Counter(Seq<char>, u64),
    Gauge(Seq<char>, Double),
}

/// The record of a line that has a name, a label set and a value.
pub open spec fn record_from(name: Seq<char>, set: Seq<char>, value: Double) -> Option<RecordModel> {
    let kept = labels::labels_without_le(set);
    match kind_of(name) {
        KindModel::Bucket(family) => match labels::value_in(set, "le"@) {
            Some(raw) => match bound_of(raw) {
                Some(le) => Some(
                    RecordModel::Bucket(labels::key_of(family, kept), le, value.counted()),
                ),
                None => None,
            },
            None => None,
        },
        KindModel::Sum(family) => Some(RecordModel::Sum(labels::key_of(family, kept), value)),
        KindModel::Count(family) => Some(
            RecordModel::Count(labels::key_of(family, kept), value.counted()),
        ),
        KindModel::Counter(family) => Some(
            RecordModel::Counter(labels::key_of(family, kept), value.counted()),
        ),
        KindModel::Gauge(family) => Some(RecordModel::Gauge(labels::key_of(family, kept), value)),
    }
}

/// Whether a line is a series of the family, rather than a comment or another family's.
pub open spec fn in_family(line: Seq<char>) -> bool {
    !(line.len() > 0 && line[0] == '#') && PREFIX@.is_prefix_of(name_of(line))
}

/// What a line adds to a reading, if anything.
pub open spec fn record_of(line: Seq<char>) -> Option<RecordModel> {
    if !in_family(line) {
        None
    } else {
        match value_of(line) {
            Some(value) => record_from(name_of(line), labels_of(line), value),
            None => None,
        }
    }
}

// ── Reading ──────────────────────────────────────────────────────────────────

/// Which instrument kind a rendered name belongs to, and the family it belongs to.
pub enum Kind<'a> {
    /// A histogram's `_bucket`, carrying the `le` bound.
    Bucket(&'a [char]),
    /// A histogram's `_sum`.
    Sum(&'a [char]),
    /// A histogram's `_count`.
    Count(&'a [char]),
    /// A monotonic counter — every one in this family is named `*_total`.
    Counter(&'a [char]),
    /// Anything else: a live-set gauge.
    Gauge(&'a [char]),
}

impl<'a> View for Kind<'a> {
    type V = KindModel;

    open spec fn view(&self) -> KindModel {
        match self {
            Kind::Bucket(family) => KindModel::Bucket(family@),
            Kind::Sum(family) => KindModel::Sum(family@),
            Kind::Count(family) => KindModel::Count(family@),
            Kind::Counter(family) => KindModel::Counter(family@),
            Kind::Gauge(family) => KindModel::Gauge(family@),
        }
    }
}

/// Classify a rendered series name.
///
/// Suffix order matters: `hopr_pix_cycle_bytes_reserved_total` is a counter and
/// `hopr_pix_cycle_egress_packets_count` is a histogram's count, so the histogram suffixes are
/// tested first and `_total` only afterwards.
pub fn classify<'a>(name: &'a [char]) -> (kind: Kind<'a>)
    ensures
        kind@ == kind_of(name@),
{
    if let Some(family) = strip_suffix(name, "_bucket") {
        Kind::Bucket(family)
    } else if let Some(family) = strip_suffix(name, "_sum") {
        Kind::Sum(family)
    } else if let Some(family) = strip_suffix(name, "_count") {
        Kind::Count(family)
    } else if strip_suffix(name, "_total").is_some() {
        Kind::Counter(name)
    } else {
        Kind::Gauge(name)
    }
}

/// Parse `le`, including the `+Inf` terminator the exporter always emits.
pub fn parse_le(raw: &[char]) -> (le: Option<Double>)
    ensures
        le == bound_of(raw@),
{
    if is_text(raw, "+Inf") || is_text(raw, "+inf") {
        Some(Double::from_bits(crate::double::INFINITY))
    } else {
        parse_double(raw)
    }
}

/// What one line adds to a reading. The first part is the key of the series.
pub enum Record {
    /// A bucket of a histogram: its bound and its cumulative count.
    Bucket(String, Double, u64),
    /// The sum of a histogram.
    Sum(String, Double),
    /// The count of a histogram.
    Count(String, u64),
    /// What a counter counted.
    Counter(String, u64),
    /// Where a gauge stands.
    Gauge(String, Double),
}

impl View for Record {
    type V = RecordModel;

    open spec fn view(&self) -> RecordModel {
        match self {
            Record::Bucket(key, le, n) => RecordModel::Bucket(key@, *le, *n),
            Record::Sum(key, x) => RecordModel::Sum(key@, *x),
            Record::Count(key, n) => RecordModel::Count(key@, *n),
            Record::Counter(key, n) => RecordModel::Counter(key@, *n),
            Record::Gauge(key, x) => RecordModel::Gauge(key@, *x),
        }
    }
}

/// The name a line starts with.
fn read_name<'a>(line: &'a [char]) -> (name: &'a [char])
    ensures
        name@ == name_of(line@),
{
    let brace = find(line, '{');
    let space = find(line, ' ');
    if brace <= space {
        &line[0..brace]
    } else {
        &line[0..space]
    }
}

/// The label set of a line.
fn read_labels<'a>(line: &'a [char]) -> (set: &'a [char])
    ensures
        set@ == labels_of(line@),
{
    if let Some((_, rest)) = cut_once(line, '{') {
        if let Some((inside, _)) = cut_once(rest, '}') {
            return inside;
        }
    }
    let none = &line[0..0];
    assert(none@ =~= Seq::<char>::empty());
    none
}

/// The finite number a line ends in.
fn read_value(line: &[char]) -> (value: Option<Double>)
    ensures
        value == value_of(line@),
{
    if let Some(rest) = cut_after_last(line, ' ') {
        if let Some(x) = parse_double(trim(rest)) {
            if x.is_finite() {
                return Some(x);
            }
        }
    }
    None
}

/// Read one line.
pub fn read_line(line: &[char]) -> (record: Option<Record>)
    ensures
        record is Some == record_of(line@) is Some,
        record is Some ==> record->0@ == record_of(line@)->0,
{
    if line.len() > 0 && line[0] == '#' {
        return None;
    }
    let name = read_name(line);
    if !starts_with(name, PREFIX) {
        return None;
    }
    let set = read_labels(line);
    let value = match read_value(line) {
        Some(value) => value,
        None => {
            return None;
        },
    };
    match classify(name) {
        Kind::Bucket(family) => {
            if let Some(raw) = label_value(set, "le") {
                if let Some(le) = parse_le(raw) {
                    return Some(
                        Record::Bucket(key_from(family, &without_le(set)), le, value.count()),
                    );
                }
            }
            None
        },
        Kind::Sum(family) => Some(Record::Sum(key_from(family, &without_le(set)), value)),
        Kind::Count(family) => Some(
            Record::Count(key_from(family, &without_le(set)), value.count()),
        ),
        Kind::Counter(family) => Some(
            Record::Counter(key_from(family, &without_le(set)), value.count()),
        ),
        Kind::Gauge(family) => Some(Record::Gauge(key_from(family, &without_le(set)), value)),
    }
}

} // verus!
