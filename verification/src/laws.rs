//! What holds of readings as a whole.
use vstd::prelude::*;
use vstd::seq_lib::*;

use crate::decimal;
use crate::double::Double;
use crate::exposition;
use crate::histogram;
use crate::labels;
use crate::pix_exit;
use crate::text;

verus! {

// ── What is read ─────────────────────────────────────────────────────────────

/// Comments and other families change nothing.
pub proof fn law_only_the_family_is_read(lines: Seq<Seq<char>>)
    ensures
        pix_exit::reading(lines) == pix_exit::reading(
            lines.filter(|line: Seq<char>| exposition::in_family(line)),
        ),
    decreases lines.len(),
{
    reveal(Seq::filter);
    let f = |line: Seq<char>| exposition::in_family(line);
    if lines.len() > 0 {
        law_only_the_family_is_read(lines.drop_last());
        let rest = lines.drop_last().filter(f);
        if f(lines.last()) {
            assert(rest.push(lines.last()).drop_last() =~= rest);
        }
    }
}

/// The settlement family shares the endpoint and does not leak in.
pub proof fn law_the_settlement_family_is_not_read(line: Seq<char>)
    requires
        "hopr_strategy_pix_"@.is_prefix_of(line),
    ensures
        exposition::record_of(line) is None,
{
    reveal_strlit("hopr_strategy_pix_");
    reveal_strlit("hopr_pix_");
    let name = exposition::name_of(line);
    text::lemma_first_index(line, '{');
    text::lemma_first_index(line, ' ');
    assert(line[5] == "hopr_strategy_pix_"@[5]);
    if exposition::PREFIX@.is_prefix_of(name) {
        assert(name[5] == exposition::PREFIX@[5]);
        assert(name[5] == line[5]);
    }
}

/// A reading is observable exactly where some line of the family was read.
pub proof fn law_observable_where_a_line_was_read(lines: Seq<Seq<char>>)
    ensures
        pix_exit::reading(lines).observable() <==> exists|i: int|
            0 <= i < lines.len() && #[trigger] exposition::record_of(lines[i]) is Some,
    decreases lines.len(),
{
    if lines.len() > 0 {
        let rest = lines.drop_last();
        let (t, u) = (pix_exit::reading(rest), pix_exit::reading(lines));
        law_observable_where_a_line_was_read(rest);
        assert(forall|i: int| 0 <= i < rest.len() ==> rest[i] == #[trigger] lines[i]);
        assert(lines.last() == lines[lines.len() - 1]);
        match exposition::record_of(lines.last()) {
            Some(exposition::RecordModel::Bucket(key, _, _)) => {
                assert(u.hists.contains_key(key));
            },
            Some(exposition::RecordModel::Sum(key, _)) => {
                assert(u.hists.contains_key(key));
            },
            Some(exposition::RecordModel::Count(key, _)) => {
                assert(u.hists.contains_key(key));
            },
            Some(exposition::RecordModel::Counter(key, _)) => {
                assert(u.counters.contains_key(key));
            },
            Some(exposition::RecordModel::Gauge(key, _)) => {
                assert(u.gauges.contains_key(key));
            },
            None => {},
        }
        if t.observable() {
            let i = choose|i: int|
                0 <= i < rest.len() && #[trigger] exposition::record_of(rest[i]) is Some;
            assert(exposition::record_of(lines[i]) is Some);
        }
        if exists|i: int|
            0 <= i < lines.len() && #[trigger] exposition::record_of(lines[i]) is Some {
            let i = choose|i: int|
                0 <= i < lines.len() && #[trigger] exposition::record_of(lines[i]) is Some;
            if i < rest.len() {
                assert(exposition::record_of(rest[i]) is Some);
            }
        }
        if exposition::record_of(lines.last()) is Some {
            assert(exposition::record_of(lines[lines.len() - 1]) is Some);
        }
    }
}

/// Whether a line counts towards the counter of `key`.
pub open spec fn counts_for(line: Seq<char>, key: Seq<char>) -> bool {
    exposition::record_of(line) matches Some(exposition::RecordModel::Counter(k, _)) && k == key
}

/// What a line counts towards the counter of `key`.
pub open spec fn counted_by(line: Seq<char>, key: Seq<char>) -> nat {
    match exposition::record_of(line) {
        Some(exposition::RecordModel::Counter(k, n)) => if k == key {
            n as nat
        } else {
            0
        },
        _ => 0,
    }
}

/// What the lines count towards the counter of `key`, all together.
pub open spec fn counted_by_all(lines: Seq<Seq<char>>, key: Seq<char>) -> nat
    decreases lines.len(),
{
    if lines.len() == 0 {
        0
    } else {
        counted_by_all(lines.drop_last(), key) + counted_by(lines.last(), key)
    }
}

/// A counter is there exactly where a line counts for it, though it counts nothing, and it is what
/// its lines count together.
pub proof fn law_absent_is_not_zero(lines: Seq<Seq<char>>, key: Seq<char>)
    ensures
        pix_exit::reading(lines).counters.contains_key(key) <==> exists|i: int|
            0 <= i < lines.len() && #[trigger] counts_for(lines[i], key),
        pix_exit::reading(lines).count_or_none(key) == counted_by_all(lines, key),
    decreases lines.len(),
{
    if lines.len() > 0 {
        let rest = lines.drop_last();
        law_absent_is_not_zero(rest, key);
        assert(forall|i: int| 0 <= i < rest.len() ==> rest[i] == #[trigger] lines[i]);
        if pix_exit::reading(rest).counters.contains_key(key) {
            let i = choose|i: int| 0 <= i < rest.len() && #[trigger] counts_for(rest[i], key);
            assert(counts_for(lines[i], key));
        }
        if exists|i: int| 0 <= i < lines.len() && #[trigger] counts_for(lines[i], key) {
            let i = choose|i: int| 0 <= i < lines.len() && #[trigger] counts_for(lines[i], key);
            if i < rest.len() {
                assert(counts_for(rest[i], key));
            }
        }
        if counts_for(lines.last(), key) {
            assert(counts_for(lines[lines.len() - 1], key));
        }
    }
}

/// Whether a line sets the gauge of `key`.
pub open spec fn sets_gauge(line: Seq<char>, key: Seq<char>) -> bool {
    exposition::record_of(line) matches Some(exposition::RecordModel::Gauge(k, _)) && k == key
}

/// A gauge stands where the last line that sets it put it.
pub proof fn law_a_gauge_is_its_last_line(lines: Seq<Seq<char>>, i: int, key: Seq<char>)
    requires
        0 <= i < lines.len(),
        sets_gauge(lines[i], key),
        forall|j: int| i < j < lines.len() ==> !sets_gauge(#[trigger] lines[j], key),
    ensures
        pix_exit::reading(lines).gauges.get(key) == Some(exposition::value_of(lines[i])->0),
    decreases lines.len(),
{
    let rest = lines.drop_last();
    if i < rest.len() {
        assert forall|j: int| i < j < rest.len() implies !sets_gauge(#[trigger] rest[j], key) by {
            assert(!sets_gauge(lines[j], key));
        }
        law_a_gauge_is_its_last_line(rest, i, key);
        assert(!sets_gauge(lines[lines.len() - 1], key));
    }
}

/// A gauge is there exactly where a line sets it.
pub proof fn law_a_gauge_is_there_where_a_line_sets_it(lines: Seq<Seq<char>>, key: Seq<char>)
    ensures
        pix_exit::reading(lines).gauges.contains_key(key) <==> exists|i: int|
            0 <= i < lines.len() && #[trigger] sets_gauge(lines[i], key),
    decreases lines.len(),
{
    if lines.len() > 0 {
        let rest = lines.drop_last();
        law_a_gauge_is_there_where_a_line_sets_it(rest, key);
        assert(forall|i: int| 0 <= i < rest.len() ==> rest[i] == #[trigger] lines[i]);
        if pix_exit::reading(rest).gauges.contains_key(key) {
            let i = choose|i: int| 0 <= i < rest.len() && #[trigger] sets_gauge(rest[i], key);
            assert(sets_gauge(lines[i], key));
        }
        if exists|i: int| 0 <= i < lines.len() && #[trigger] sets_gauge(lines[i], key) {
            let i = choose|i: int| 0 <= i < lines.len() && #[trigger] sets_gauge(lines[i], key);
            if i < rest.len() {
                assert(sets_gauge(rest[i], key));
            }
        }
        if sets_gauge(lines.last(), key) {
            assert(sets_gauge(lines[lines.len() - 1], key));
        }
    }
}

/// Whether a line is a bucket whose bound is not a number.
pub open spec fn unordered(line: Seq<char>) -> bool {
    exposition::record_of(line) matches Some(exposition::RecordModel::Bucket(_, le, _)) && le.nan()
}

/// Every gauge and every sum is finite; and where every bound is a number, the bounds of every
/// histogram ascend, in whatever order their lines came.
pub proof fn law_readings_are_in_order(lines: Seq<Seq<char>>)
    ensures
        forall|key: Seq<char>| #[trigger]
            pix_exit::reading(lines).gauges.contains_key(key) ==> pix_exit::reading(
                lines,
            ).gauges[key].finite(),
        forall|key: Seq<char>| #[trigger]
            pix_exit::reading(lines).hists.contains_key(key) ==> pix_exit::reading(
                lines,
            ).hists[key].sum.finite(),
        (forall|i: int| 0 <= i < lines.len() ==> !unordered(#[trigger] lines[i])) ==> forall|
            key: Seq<char>,
        | #[trigger]
            pix_exit::reading(lines).hists.contains_key(key) ==> histogram::ascending(
                pix_exit::reading(lines).hists[key].buckets,
            ) && histogram::numbered(pix_exit::reading(lines).hists[key].buckets),
    decreases lines.len(),
{
    if lines.len() > 0 {
        let rest = lines.drop_last();
        let t = pix_exit::reading(rest);
        law_readings_are_in_order(rest);
        match exposition::record_of(lines.last()) {
            Some(exposition::RecordModel::Bucket(key, le, n)) => {
                if forall|i: int| 0 <= i < lines.len() ==> !unordered(#[trigger] lines[i]) {
                    assert forall|i: int| 0 <= i < rest.len() implies !unordered(
                        #[trigger] rest[i],
                    ) by {
                        assert(!unordered(lines[i]));
                    }
                    assert(!unordered(lines[lines.len() - 1]));
                    histogram::law_buckets_ascend(t.hist_or_none(key).buckets, (le, n));
                }
            },
            _ => {},
        }
        if forall|i: int| 0 <= i < lines.len() ==> !unordered(#[trigger] lines[i]) {
            assert forall|i: int| 0 <= i < rest.len() implies !unordered(#[trigger] rest[i]) by {
                assert(!unordered(lines[i]));
            }
        }
    }
}

/// Whether a line is of the histogram of `key`.
pub open spec fn tells_of(line: Seq<char>, key: Seq<char>) -> bool {
    match exposition::record_of(line) {
        Some(exposition::RecordModel::Bucket(k, _, _)) => k == key,
        Some(exposition::RecordModel::Sum(k, _)) => k == key,
        Some(exposition::RecordModel::Count(k, _)) => k == key,
        _ => false,
    }
}

/// The bucket that a line adds to the histogram of `key`.
pub open spec fn bucket_in(line: Seq<char>, key: Seq<char>) -> Option<(Double, u64)> {
    match exposition::record_of(line) {
        Some(exposition::RecordModel::Bucket(k, le, n)) => if k == key {
            Some((le, n))
        } else {
            None
        },
        _ => None,
    }
}

/// A histogram is there exactly where a line tells of it, and it holds the buckets of its lines,
/// each as often as it came.
pub proof fn law_a_histogram_is_its_lines(lines: Seq<Seq<char>>, key: Seq<char>)
    ensures
        pix_exit::reading(lines).hists.contains_key(key) <==> exists|i: int|
            0 <= i < lines.len() && #[trigger] tells_of(lines[i], key),
        pix_exit::reading(lines).hist_or_none(key).buckets.to_multiset() == lines.filter_map(
            |line: Seq<char>| bucket_in(line, key),
        ).to_multiset(),
    decreases lines.len(),
{
    let f = |line: Seq<char>| bucket_in(line, key);
    if lines.len() > 0 {
        let rest = lines.drop_last();
        let t = pix_exit::reading(rest);
        law_a_histogram_is_its_lines(rest, key);
        assert(forall|i: int| 0 <= i < rest.len() ==> rest[i] == #[trigger] lines[i]);
        if t.hists.contains_key(key) {
            let i = choose|i: int| 0 <= i < rest.len() && #[trigger] tells_of(rest[i], key);
            assert(tells_of(lines[i], key));
        }
        if exists|i: int| 0 <= i < lines.len() && #[trigger] tells_of(lines[i], key) {
            let i = choose|i: int| 0 <= i < lines.len() && #[trigger] tells_of(lines[i], key);
            if i < rest.len() {
                assert(tells_of(rest[i], key));
            }
        }
        if tells_of(lines.last(), key) {
            assert(tells_of(lines[lines.len() - 1], key));
        }
        match bucket_in(lines.last(), key) {
            Some(bucket) => {
                histogram::law_no_bucket_is_lost(t.hist_or_none(key).buckets, bucket);
                to_multiset_build(rest.filter_map(f), bucket);
                assert(lines.filter_map(f) =~= rest.filter_map(f).push(bucket));
            },
            None => {},
        }
    } else {
        assert(lines.filter_map(f) =~= Seq::<(Double, u64)>::empty());
    }
}

/// Whether a line sets the count of the histogram of `key`.
pub open spec fn sets_count(line: Seq<char>, key: Seq<char>) -> bool {
    exposition::record_of(line) matches Some(exposition::RecordModel::Count(k, _)) && k == key
}

/// Whether a line sets the sum of the histogram of `key`.
pub open spec fn sets_sum(line: Seq<char>, key: Seq<char>) -> bool {
    exposition::record_of(line) matches Some(exposition::RecordModel::Sum(k, _)) && k == key
}

/// The count of a histogram is what the last line that sets it says.
pub proof fn law_a_count_is_its_last_line(lines: Seq<Seq<char>>, i: int, key: Seq<char>)
    requires
        0 <= i < lines.len(),
        sets_count(lines[i], key),
        forall|j: int| i < j < lines.len() ==> !sets_count(#[trigger] lines[j], key),
    ensures
        pix_exit::reading(lines).hist_or_none(key).count == exposition::value_of(
            lines[i],
        )->0.counted(),
    decreases lines.len(),
{
    let rest = lines.drop_last();
    if i < rest.len() {
        assert forall|j: int| i < j < rest.len() implies !sets_count(#[trigger] rest[j], key) by {
            assert(!sets_count(lines[j], key));
        }
        law_a_count_is_its_last_line(rest, i, key);
        assert(!sets_count(lines[lines.len() - 1], key));
    }
}

/// The sum of a histogram is what the last line that sets it says.
pub proof fn law_a_sum_is_its_last_line(lines: Seq<Seq<char>>, i: int, key: Seq<char>)
    requires
        0 <= i < lines.len(),
        sets_sum(lines[i], key),
        forall|j: int| i < j < lines.len() ==> !sets_sum(#[trigger] lines[j], key),
    ensures
        pix_exit::reading(lines).hist_or_none(key).sum == exposition::value_of(lines[i])->0,
    decreases lines.len(),
{
    let rest = lines.drop_last();
    if i < rest.len() {
        assert forall|j: int| i < j < rest.len() implies !sets_sum(#[trigger] rest[j], key) by {
            assert(!sets_sum(lines[j], key));
        }
        law_a_sum_is_its_last_line(rest, i, key);
        assert(!sets_sum(lines[lines.len() - 1], key));
    }
}

/// A record changes the one series it is of: a counter grows by it, and is there from then on; a
/// gauge is set to it; of a histogram, it sets the sum, sets the count or adds a bucket, and leaves
/// the rest, which is nothing where the histogram was not there.
pub proof fn law_a_record_changes_its_series(
    t: pix_exit::TelemetryModel,
    key: Seq<char>,
    x: Double,
    n: u64,
)
    ensures
        ({
            let u = t.with_record(exposition::RecordModel::Counter(key, n));
            &&& u.gauges == t.gauges && u.hists == t.hists
            &&& u.counters.dom() == t.counters.dom().insert(key)
            &&& t.counters.contains_key(key) ==> u.counters[key] == t.counters[key] + n
            &&& !t.counters.contains_key(key) ==> u.counters[key] == n
            &&& forall|other: Seq<char>| other != key ==> #[trigger] u.counters[other]
                == t.counters[other]
        }),
        ({
            let u = t.with_record(exposition::RecordModel::Gauge(key, x));
            u.counters == t.counters && u.hists == t.hists && u.gauges == t.gauges.insert(key, x)
        }),
        ({
            let u = t.with_record(exposition::RecordModel::Sum(key, x));
            let h = u.hists[key];
            &&& u.counters == t.counters && u.gauges == t.gauges
            &&& u.hists == t.hists.insert(key, h)
            &&& h.sum == x
            &&& t.hists.contains_key(key) ==> h.count == t.hists[key].count && h.buckets
                == t.hists[key].buckets
            &&& !t.hists.contains_key(key) ==> h.count == 0 && h.buckets.len() == 0
        }),
        ({
            let u = t.with_record(exposition::RecordModel::Count(key, n));
            let h = u.hists[key];
            &&& u.counters == t.counters && u.gauges == t.gauges
            &&& u.hists == t.hists.insert(key, h)
            &&& h.count == n
            &&& t.hists.contains_key(key) ==> h.sum == t.hists[key].sum && h.buckets
                == t.hists[key].buckets
            &&& !t.hists.contains_key(key) ==> h.sum.value() == 0 && h.buckets.len() == 0
        }),
        ({
            let u = t.with_record(exposition::RecordModel::Bucket(key, x, n));
            let h = u.hists[key];
            &&& u.counters == t.counters && u.gauges == t.gauges
            &&& u.hists == t.hists.insert(key, h)
            &&& t.hists.contains_key(key) ==> h.sum == t.hists[key].sum && h.count
                == t.hists[key].count && h.buckets.to_multiset()
                == t.hists[key].buckets.to_multiset().insert((x, n))
            &&& !t.hists.contains_key(key) ==> h.sum.value() == 0 && h.count == 0 && h.buckets
                == seq![(x, n)]
        }),
{
    histogram::law_no_bucket_is_lost(t.hist_or_none(key).buckets, (x, n));
    assert(histogram::with_bucket(seq![], (x, n)) =~= seq![(x, n)]);
    let u = t.with_record(exposition::RecordModel::Counter(key, n));
    assert(u.counters.dom() =~= t.counters.dom().insert(key));
    crate::double::lemma_zero_value();
}

/// A reading fits exactly where what the lines count of each series, all together, fits a `u64`.
pub proof fn law_a_reading_fits_where_its_counters_do(lines: Seq<Seq<char>>)
    ensures
        pix_exit::reading(lines).fits() <==> forall|key: Seq<char>| #[trigger]
            counted_by_all(lines, key) <= u64::MAX,
{
    let t = pix_exit::reading(lines);
    if t.fits() {
        assert forall|key: Seq<char>| #[trigger] counted_by_all(lines, key) <= u64::MAX by {
            law_absent_is_not_zero(lines, key);
            if t.counters.contains_key(key) {
                assert(t.counters[key] <= u64::MAX);
            }
        }
    }
    if forall|key: Seq<char>| #[trigger] counted_by_all(lines, key) <= u64::MAX {
        assert forall|key: Seq<char>| t.counters.contains_key(key) implies #[trigger] t.counters[key]
            <= u64::MAX by {
            law_absent_is_not_zero(lines, key);
            assert(counted_by_all(lines, key) <= u64::MAX);
        }
    }
}

// ── The order of the lines ───────────────────────────────────────────────────

/// Whether two records say two things of one: of a gauge, a sum or a count two values, or of a
/// histogram two buckets neither of which has the smaller bound.
pub open spec fn at_odds(r: exposition::RecordModel, s: exposition::RecordModel) -> bool {
    match (r, s) {
        (
            exposition::RecordModel::Bucket(k, a, m),
            exposition::RecordModel::Bucket(l, b, n),
        ) => k == l && (a, m) != (b, n) && !a.below(b) && !b.below(a),
        (exposition::RecordModel::Sum(k, x), exposition::RecordModel::Sum(l, y)) => k == l && x
            != y,
        (exposition::RecordModel::Count(k, m), exposition::RecordModel::Count(l, n)) => k == l && m
            != n,
        (exposition::RecordModel::Gauge(k, x), exposition::RecordModel::Gauge(l, y)) => k == l && x
            != y,
        _ => false,
    }
}

/// Whether two lines are not at odds.
pub open spec fn agree(a: Seq<char>, b: Seq<char>) -> bool {
    match (exposition::record_of(a), exposition::record_of(b)) {
        (Some(r), Some(s)) => !at_odds(r, s),
        _ => true,
    }
}

/// Whether no two lines are at odds.
pub open spec fn all_agree(lines: Seq<Seq<char>>) -> bool {
    forall|i: int, j: int|
        0 <= i < lines.len() && 0 <= j < lines.len() ==> agree(
            #[trigger] lines[i],
            #[trigger] lines[j],
        )
}

/// Records that are not at odds may come in either order.
proof fn lemma_records_commute(
    t: pix_exit::TelemetryModel,
    r: exposition::RecordModel,
    s: exposition::RecordModel,
)
    requires
        !at_odds(r, s),
    ensures
        t.with_record(r).with_record(s) == t.with_record(s).with_record(r),
{
    match (r, s) {
        (
            exposition::RecordModel::Bucket(k, a, m),
            exposition::RecordModel::Bucket(l, b, n),
        ) => {
            if k == l {
                histogram::law_buckets_commute(t.hist_or_none(k).buckets, (a, m), (b, n));
            }
        },
        _ => {},
    }
    assert(t.with_record(r).with_record(s) =~= t.with_record(s).with_record(r));
}

/// A line may as well come last, where it agrees with those behind it.
proof fn lemma_line_may_come_last(lines: Seq<Seq<char>>, i: int)
    requires
        0 <= i < lines.len(),
        forall|j: int| i < j < lines.len() ==> agree(lines[i], #[trigger] lines[j]),
    ensures
        pix_exit::reading(lines) == pix_exit::reading(lines.remove(i)).with_line(lines[i]),
    decreases lines.len(),
{
    let rest = lines.drop_last();
    if i == rest.len() {
        assert(lines.remove(i) =~= rest);
    } else {
        assert forall|j: int| i < j < rest.len() implies agree(rest[i], #[trigger] rest[j]) by {
            assert(agree(lines[i], lines[j]));
        }
        lemma_line_may_come_last(rest, i);
        assert(lines.remove(i).drop_last() =~= rest.remove(i));
        assert(lines.remove(i).last() == lines.last());
        assert(agree(lines[i], lines[lines.len() - 1]));
        let t = pix_exit::reading(rest.remove(i));
        match (exposition::record_of(lines[i]), exposition::record_of(lines.last())) {
            (Some(r), Some(s)) => {
                lemma_records_commute(t, r, s);
            },
            _ => {},
        }
    }
}

/// A reading does not depend on the order of its lines, where no two of them are at odds.
///
/// Two values of one gauge are at odds, since the last of them stands; so are two of one sum or one
/// count. Two different buckets of one histogram are, where their bounds are the same number, since
/// the first of them is read, or where a bound is not a number, since it has no place among them.
pub proof fn law_line_order_does_not_matter(a: Seq<Seq<char>>, b: Seq<Seq<char>>)
    requires
        a.to_multiset() == b.to_multiset(),
        all_agree(a),
    ensures
        pix_exit::reading(a) == pix_exit::reading(b),
    decreases a.len(),
{
    broadcast use vstd::multiset::group_multiset_axioms;
    broadcast use group_to_multiset_ensures;

    to_multiset_len(a);
    to_multiset_len(b);
    if a.len() > 0 {
        let (x, c) = (a.last(), a.drop_last());
        lemma_there_too(a, b, a.len() - 1);
        let i = b.index_of(x);
        let d = b.remove(i);
        assert(a =~= c.push(x));
        assert(c =~= a.remove(a.len() - 1));
        assert(c.to_multiset() =~= d.to_multiset());
        assert forall|j: int| i < j < b.len() implies agree(b[i], #[trigger] b[j]) by {
            lemma_there_too(b, a, j);
            let k = a.index_of(b[j]);
            assert(agree(a[a.len() - 1], a[k]));
        }
        lemma_line_may_come_last(b, i);
        assert forall|p: int, q: int| 0 <= p < c.len() && 0 <= q < c.len() implies agree(
            #[trigger] c[p],
            #[trigger] c[q],
        ) by {
            assert(agree(a[p], a[q]));
        }
        law_line_order_does_not_matter(c, d);
    } else {
        assert(a =~= b);
    }
}

/// Two expositions of the same lines say the same, in whatever order they have them.
pub proof fn law_exposition_order_does_not_matter(a: Seq<char>, b: Seq<char>)
    requires
        text::lines(a).to_multiset() == text::lines(b).to_multiset(),
        all_agree(text::lines(a)),
    ensures
        pix_exit::reading_of(a) == pix_exit::reading_of(b),
{
    law_line_order_does_not_matter(text::lines(a), text::lines(b));
}

/// What an exposition says is what its lines say, one after another, however they are ended.
pub proof fn law_an_exposition_is_its_lines(list: Seq<Seq<char>>, last: Seq<char>)
    requires
        forall|i: int| 0 <= i < list.len() ==> text::one_line(#[trigger] list[i]),
        !last.contains('\n'),
    ensures
        pix_exit::reading_of(text::terminated(list)) == pix_exit::reading(list),
        last.len() > 0 ==> pix_exit::reading_of(text::terminated(list) + last)
            == pix_exit::reading(list).with_line(last),
{
    text::law_lines_read_back(list, last);
    text::law_lines_read_back(list, seq![]);
    assert(text::terminated(list) + Seq::<char>::empty() =~= text::terminated(list));
    assert(list.push(last).drop_last() =~= list);
}

// ── Labels ───────────────────────────────────────────────────────────────────

/// Whether `piece` is a label of that name.
pub open spec fn names(piece: Seq<char>, name: Seq<char>) -> bool {
    labels::label_in(piece) matches Some(label) && label.0 == name
}

/// Where all labels of one name have one value, that is what is found, if any is there.
proof fn lemma_value_found(list: Seq<Seq<char>>, name: Seq<char>)
    requires
        forall|i: int, j: int|
            0 <= i < list.len() && 0 <= j < list.len() && names(#[trigger] list[i], name) && names(
                #[trigger] list[j],
                name,
            ) ==> labels::label_in(list[i]) == labels::label_in(list[j]),
    ensures
        forall|i: int|
            0 <= i < list.len() && names(#[trigger] list[i], name) ==> labels::value_among(list, name)
                == Some((labels::label_in(list[i])->0).1),
        (forall|i: int| 0 <= i < list.len() ==> !names(#[trigger] list[i], name))
            ==> labels::value_among(list, name) is None,
    decreases list.len(),
{
    if list.len() > 0 {
        let rest = list.drop_first();
        assert(forall|i: int| 0 <= i < rest.len() ==> #[trigger] rest[i] == list[i + 1]);
        lemma_value_found(rest, name);
        assert forall|i: int| 0 <= i < list.len() && names(#[trigger] list[i], name) implies labels::value_among(
            list,
            name,
        ) == Some((labels::label_in(list[i])->0).1) by {
            if !names(list[0], name) {
                assert(names(rest[i - 1], name));
            }
        }
        if forall|i: int| 0 <= i < list.len() ==> !names(#[trigger] list[i], name) {
            assert(!names(list[0], name));
            assert forall|i: int| 0 <= i < rest.len() implies !names(#[trigger] rest[i], name) by {
                assert(!names(list[i + 1], name));
            }
        }
    }
}

/// However an exporter orders the labels of a line, it says the same of the same series.
///
/// A label set that names `le` twice, with two bounds, has no one bound.
pub proof fn law_label_order_does_not_split_a_series(
    name: Seq<char>,
    a: Seq<char>,
    b: Seq<char>,
    value: Double,
)
    requires
        text::pieces(a, ',').to_multiset() == text::pieces(b, ',').to_multiset(),
        forall|i: int, j: int|
            0 <= i < text::pieces(a, ',').len() && 0 <= j < text::pieces(a, ',').len() && names(
                #[trigger] text::pieces(a, ',')[i],
                "le"@,
            ) && names(#[trigger] text::pieces(a, ',')[j], "le"@) ==> labels::label_in(
                text::pieces(a, ',')[i],
            ) == labels::label_in(text::pieces(a, ',')[j]),
    ensures
        exposition::record_from(name, a, value) == exposition::record_from(name, b, value),
{
    let (p, q) = (text::pieces(a, ','), text::pieces(b, ','));
    let le = "le"@;
    match exposition::kind_of(name) {
        exposition::KindModel::Bucket(family) => {
            labels::law_line_label_order_makes_one_key(family, a, b);
        },
        exposition::KindModel::Sum(family) => {
            labels::law_line_label_order_makes_one_key(family, a, b);
        },
        exposition::KindModel::Count(family) => {
            labels::law_line_label_order_makes_one_key(family, a, b);
        },
        exposition::KindModel::Counter(family) => {
            labels::law_line_label_order_makes_one_key(family, a, b);
        },
        exposition::KindModel::Gauge(family) => {
            labels::law_line_label_order_makes_one_key(family, a, b);
        },
    }
    assert forall|i: int| 0 <= i < q.len() implies p.contains(#[trigger] q[i]) by {
        lemma_there_too(q, p, i);
    }
    assert forall|i: int| 0 <= i < p.len() implies q.contains(#[trigger] p[i]) by {
        lemma_there_too(p, q, i);
    }
    lemma_value_found(p, le);
    assert forall|i: int, j: int|
        0 <= i < q.len() && 0 <= j < q.len() && names(#[trigger] q[i], le) && names(
            #[trigger] q[j],
            le,
        ) implies labels::label_in(q[i]) == labels::label_in(q[j]) by {
        let (i1, j1) = (p.index_of(q[i]), p.index_of(q[j]));
        assert(names(p[i1], le) && names(p[j1], le));
    }
    lemma_value_found(q, le);
    if exists|i: int| 0 <= i < p.len() && names(#[trigger] p[i], le) {
        let i = choose|i: int| 0 <= i < p.len() && names(#[trigger] p[i], le);
        let j = q.index_of(p[i]);
        assert(names(q[j], le));
    } else {
        assert forall|i: int| 0 <= i < q.len() implies !names(#[trigger] q[i], le) by {
            let j = p.index_of(q[i]);
            assert(!names(p[j], le));
        }
    }
}

/// What stands in one sequence stands in every arrangement of it.
proof fn lemma_there_too<A>(a: Seq<A>, b: Seq<A>, i: int)
    requires
        a.to_multiset() == b.to_multiset(),
        0 <= i < a.len(),
    ensures
        b.contains(a[i]),
{
    broadcast use group_to_multiset_ensures;

    assert(a.contains(a[i]));
    assert(a.to_multiset().count(a[i]) > 0);
}

// ── Differences ──────────────────────────────────────────────────────────────

/// A difference has the series of the later reading; its counters count no more, and nothing where
/// they have fallen; its gauges are the later ones.
pub proof fn law_delta_never_exceeds_later(
    earlier: pix_exit::TelemetryModel,
    later: pix_exit::TelemetryModel,
)
    ensures
        earlier.delta(later).counters.dom() == later.counters.dom(),
        earlier.delta(later).hists.dom() == later.hists.dom(),
        earlier.delta(later).gauges == later.gauges,
        forall|key: Seq<char>| #[trigger]
            later.counters.contains_key(key) ==> earlier.delta(later).counters[key]
                <= later.counters[key] && (later.counters[key] <= earlier.count_or_none(key)
                ==> earlier.delta(later).counters[key] == 0),
        later.fits() ==> earlier.delta(later).fits(),
{
    assert(earlier.delta(later).counters.dom() =~= later.counters.dom());
    assert(earlier.delta(later).hists.dom() =~= later.hists.dom());
}

/// A reading and itself are apart by nothing, but for the gauges, which are not differenced.
pub proof fn law_no_delta_from_itself(t: pix_exit::TelemetryModel)
    ensures
        forall|key: Seq<char>| #[trigger]
            t.counters.contains_key(key) ==> t.delta(t).counters[key] == 0,
        forall|key: Seq<char>| #[trigger]
            t.hists.contains_key(key) ==> t.delta(t).hists[key].count == 0,
        t.delta(t).gauges == t.gauges,
{
}

/// What was not measured before is taken whole.
pub proof fn law_delta_from_nothing_is_later(later: pix_exit::TelemetryModel)
    requires
        forall|key: Seq<char>| #[trigger]
            later.hists.contains_key(key) ==> !later.hists[key].sum.nan(),
    ensures
        pix_exit::no_telemetry().delta(later) == later,
{
    assert forall|key: Seq<char>| #[trigger]
        later.hists.contains_key(key) implies histogram::no_histogram().delta(later.hists[key])
        == later.hists[key] by {
        histogram::law_delta_from_nothing_is_later(later.hists[key]);
    }
    assert(pix_exit::no_telemetry().delta(later) =~= later);
}

/// What counters gained over two stretches is what they gained over the whole.
pub proof fn law_deltas_add_up(
    a: pix_exit::TelemetryModel,
    b: pix_exit::TelemetryModel,
    c: pix_exit::TelemetryModel,
    key: Seq<char>,
)
    requires
        a.count_or_none(key) <= b.count_or_none(key) <= c.count_or_none(key),
    ensures
        a.delta(c).count_or_none(key) == a.delta(b).count_or_none(key) + b.delta(c).count_or_none(
            key,
        ),
{
}

/// What a series gained is what the later reading has more of it, nothing where it has less, and
/// all of it where the earlier reading has none; a gauge is the later one; and a series that the
/// later reading does not have is not there.
pub proof fn law_a_delta_is_what_was_gained(
    earlier: pix_exit::TelemetryModel,
    later: pix_exit::TelemetryModel,
    key: Seq<char>,
)
    ensures
        earlier.delta(later).counters.contains_key(key) <==> later.counters.contains_key(key),
        later.counters.contains_key(key) && !earlier.counters.contains_key(key) ==> earlier.delta(
            later,
        ).counters[key] == later.counters[key],
        later.counters.contains_key(key) && earlier.counters.contains_key(key)
            && earlier.counters[key] <= later.counters[key] ==> earlier.counters[key]
            + earlier.delta(later).counters[key] == later.counters[key],
        later.counters.contains_key(key) && earlier.counters.contains_key(key)
            && earlier.counters[key] > later.counters[key] ==> earlier.delta(later).counters[key]
            == 0,
        earlier.delta(later).gauges.get(key) == later.gauges.get(key),
        earlier.delta(later).hists.contains_key(key) <==> later.hists.contains_key(key),
        later.hists.contains_key(key) && !earlier.hists.contains_key(key)
            && !later.hists[key].sum.nan() ==> earlier.delta(later).hists[key]
            == later.hists[key],
        later.hists.contains_key(key) && earlier.hists.contains_key(key) ==> earlier.delta(
            later,
        ).hists[key] == earlier.hists[key].delta(later.hists[key]),
{
    if later.hists.contains_key(key) && !later.hists[key].sum.nan() {
        histogram::law_delta_from_nothing_is_later(later.hists[key]);
    }
}

// ── The run log ──────────────────────────────────────────────────────────────

/// A series that is not there never shows as a number.
pub proof fn law_absent_shows_as_no_number(label: Seq<char>, n: u64)
    ensures
        pix_exit::shown(label, None) != pix_exit::shown(label, Some(n)),
{
    reveal_strlit("absent");
    decimal::law_decimal_spells(n as nat);
    let (a, b) = (pix_exit::shown(label, None), pix_exit::shown(label, Some(n)));
    let d = decimal::decimal(n as nat);
    assert(a.last() == 't');
    assert(b.last() == d.last());
    assert(decimal::is_digit(d[d.len() - 1]));
}

} // verus!
