//! One histogram series.
use vstd::prelude::*;

use crate::double::Double;
use crate::rounding;

verus! {

/// One histogram series: its cumulative buckets, its sum and its observation count.
#[derive(Debug, PartialEq)]
pub struct Histogram {
    /// `(le, cumulative count)`, ascending. `+Inf` is kept, so the last entry equals `count`.
    pub buckets: Vec<(Double, u64)>,
    pub sum: Double,
    pub count: u64,
}

/// What a histogram holds.
#[verifier::ext_equal]
pub struct HistogramModel {
    pub buckets: Seq<(Double, u64)>,
    pub sum: Double,
    pub count: u64,
}

impl View for Histogram {
    type V = HistogramModel;

    open spec fn view(&self) -> HistogramModel {
        HistogramModel { buckets: self.buckets@, sum: self.sum, count: self.count }
    }
}

// ── Models ───────────────────────────────────────────────────────────────────

/// The number zero.
pub open spec fn zero() -> Double {
    Double { bits: 0 }
}

/// The bound of the last bucket of a histogram.
pub open spec fn infinity() -> Double {
    Double { bits: crate::double::INFINITY }
}

/// A histogram nothing was read of.
pub open spec fn no_histogram() -> HistogramModel {
    HistogramModel { buckets: seq![], sum: zero(), count: 0 }
}

/// `a - b`, or nothing where `b` is more.
pub open spec fn lessened(a: u64, b: u64) -> u64 {
    if a >= b {
        (a - b) as u64
    } else {
        0
    }
}

/// Whether no bucket stands ahead of one with a smaller bound.
pub open spec fn ascending(buckets: Seq<(Double, u64)>) -> bool {
    forall|i: int, j: int|
        0 <= i < j < buckets.len() ==> !(#[trigger] buckets[j]).0.below((#[trigger] buckets[i]).0)
}

/// Whether every bound is a number.
pub open spec fn numbered(buckets: Seq<(Double, u64)>) -> bool {
    forall|i: int| 0 <= i < buckets.len() ==> !(#[trigger] buckets[i]).0.nan()
}

/// Whether no two buckets have one bound.
pub open spec fn distinct(buckets: Seq<(Double, u64)>) -> bool {
    forall|i: int, j: int|
        0 <= i < j < buckets.len() ==> !(#[trigger] buckets[i]).0.same_bound(
            (#[trigger] buckets[j]).0,
        )
}

/// The buckets with one more, which goes behind every bound that it is not below.
pub open spec fn with_bucket(buckets: Seq<(Double, u64)>, bucket: (Double, u64)) -> Seq<
    (Double, u64),
>
    decreases buckets.len(),
{
    if buckets.len() == 0 || !bucket.0.below(buckets.last().0) {
        buckets.push(bucket)
    } else {
        with_bucket(buckets.drop_last(), bucket).push(buckets.last())
    }
}

/// The cumulative count of the first bucket whose bound is `le`.
pub open spec fn cumulative(buckets: Seq<(Double, u64)>, le: Double) -> Option<u64>
    decreases buckets.len(),
{
    if buckets.len() == 0 {
        None
    } else if buckets.first().0.same_bound(le) {
        Some(buckets.first().1)
    } else {
        cumulative(buckets.drop_first(), le)
    }
}

/// `cumulative`, with nothing counted where no bucket has the bound.
pub open spec fn cumulative_or_none(buckets: Seq<(Double, u64)>, le: Double) -> u64 {
    match cumulative(buckets, le) {
        Some(n) => n,
        None => 0,
    }
}

/// One bucket of the difference: its own count, less what `earlier` had counted.
pub open spec fn bucket_since(earlier: Seq<(Double, u64)>, bucket: (Double, u64)) -> (Double, u64) {
    (bucket.0, lessened(bucket.1, cumulative_or_none(earlier, bucket.0)))
}

impl HistogramModel {
    /// Observations strictly above `le`, where a bucket has that bound.
    pub open spec fn above(self, le: Double) -> Option<u64> {
        match cumulative(self.buckets, le) {
            Some(n) => Some(lessened(self.count, n)),
            None => None,
        }
    }

    /// What `later` counts beyond this one.
    pub open spec fn delta(self, later: HistogramModel) -> HistogramModel {
        HistogramModel {
            buckets: later.buckets.map_values(
                |bucket: (Double, u64)| bucket_since(self.buckets, bucket),
            ),
            sum: rounding::difference(later.sum, self.sum),
            count: lessened(later.count, self.count),
        }
    }

    /// Whether the `+Inf` bucket holds every observation.
    pub open spec fn closed(self) -> bool {
        cumulative(self.buckets, infinity()) == Some(self.count)
    }

    /// Whether this is a reading of `observed`: each bucket holds as many observations as are not
    /// above its bound, and `count` holds them all.
    pub open spec fn records(self, observed: Seq<Double>) -> bool {
        &&& self.count == observed.len()
        &&& forall|i: int|
            0 <= i < self.buckets.len() ==> (#[trigger] self.buckets[i]).1 == not_above(
                observed,
                self.buckets[i].0,
            )
    }
}

/// How many observations are not above `le`.
pub open spec fn not_above(observed: Seq<Double>, le: Double) -> nat {
    observed.filter(|x: Double| !le.below(x)).len()
}

/// How many observations are strictly above `le`.
pub open spec fn strictly_above(observed: Seq<Double>, le: Double) -> nat {
    observed.filter(|x: Double| le.below(x)).len()
}

// ── Laws ─────────────────────────────────────────────────────────────────────

/// Where `with_bucket` puts a bucket.
spec fn bucket_place(buckets: Seq<(Double, u64)>, le: Double) -> int
    decreases buckets.len(),
{
    if buckets.len() == 0 || !le.below(buckets.last().0) {
        buckets.len() as int
    } else {
        bucket_place(buckets.drop_last(), le)
    }
}

proof fn lemma_bucket_place(buckets: Seq<(Double, u64)>, bucket: (Double, u64))
    ensures
        0 <= bucket_place(buckets, bucket.0) <= buckets.len(),
        with_bucket(buckets, bucket) == buckets.insert(bucket_place(buckets, bucket.0), bucket),
        forall|i: int|
            bucket_place(buckets, bucket.0) <= i < buckets.len() ==> bucket.0.below(
                (#[trigger] buckets[i]).0,
            ),
        bucket_place(buckets, bucket.0) > 0 ==> !bucket.0.below(
            buckets[bucket_place(buckets, bucket.0) - 1].0,
        ),
    decreases buckets.len(),
{
    let k = bucket_place(buckets, bucket.0);
    if buckets.len() > 0 && bucket.0.below(buckets.last().0) {
        let rest = buckets.drop_last();
        lemma_bucket_place(rest, bucket);
        assert forall|i: int| k <= i < buckets.len() implies bucket.0.below(
            (#[trigger] buckets[i]).0,
        ) by {
            if i < rest.len() {
                assert(rest[i] == buckets[i]);
            }
        }
        assert(rest.insert(k, bucket).push(buckets.last()) =~= buckets.insert(k, bucket));
    } else {
        assert(buckets.push(bucket) =~= buckets.insert(k, bucket));
    }
}

/// No bucket is lost when one is added.
pub proof fn law_no_bucket_is_lost(buckets: Seq<(Double, u64)>, bucket: (Double, u64))
    ensures
        with_bucket(buckets, bucket).to_multiset() == buckets.to_multiset().insert(bucket),
{
    lemma_bucket_place(buckets, bucket);
    vstd::seq_lib::to_multiset_insert(buckets, bucket_place(buckets, bucket.0), bucket);
}

/// Whatever order buckets arrive in, their bounds ascend.
pub proof fn law_buckets_ascend(buckets: Seq<(Double, u64)>, bucket: (Double, u64))
    requires
        ascending(buckets),
        numbered(buckets),
        !bucket.0.nan(),
    ensures
        ascending(with_bucket(buckets, bucket)),
        numbered(with_bucket(buckets, bucket)),
{
    lemma_bucket_place(buckets, bucket);
    let k = bucket_place(buckets, bucket.0);
    let after = with_bucket(buckets, bucket);
    assert forall|i: int, j: int| 0 <= i < j < after.len() implies !(#[trigger] after[j]).0.below(
        (#[trigger] after[i]).0,
    ) by {
        let i1 = if i > k {
            i - 1
        } else {
            i
        };
        let j1 = if j > k {
            j - 1
        } else {
            j
        };
        if i == k {
            assert(bucket.0.below(buckets[j1].0));
        } else if j == k {
            assert(after[i] == buckets[i]);
            if i < k - 1 {
                assert(!buckets[k - 1].0.below(buckets[i].0));
            }
        } else {
            assert(!buckets[j1].0.below(buckets[i1].0));
        }
    }
    assert forall|i: int| 0 <= i < after.len() implies !(#[trigger] after[i]).0.nan() by {
        if i < k {
            assert(after[i] == buckets[i]);
        } else if i > k {
            assert(after[i] == buckets[i - 1]);
        }
    }
}

/// Of two different buckets whose bounds are in order, either may come first.
pub proof fn law_buckets_commute(
    buckets: Seq<(Double, u64)>,
    a: (Double, u64),
    b: (Double, u64),
)
    requires
        a == b || a.0.below(b.0) || b.0.below(a.0),
    ensures
        with_bucket(with_bucket(buckets, a), b) == with_bucket(with_bucket(buckets, b), a),
{
    if a.0.below(b.0) {
        lemma_smaller_goes_ahead(buckets, a, b);
    } else if b.0.below(a.0) {
        lemma_smaller_goes_ahead(buckets, b, a);
    }
}

proof fn lemma_smaller_goes_ahead(
    buckets: Seq<(Double, u64)>,
    a: (Double, u64),
    b: (Double, u64),
)
    requires
        a.0.below(b.0),
    ensures
        with_bucket(with_bucket(buckets, a), b) == with_bucket(with_bucket(buckets, b), a),
    decreases buckets.len(),
{
    let (with_a, with_b) = (with_bucket(buckets, a), with_bucket(buckets, b));
    if buckets.len() == 0 || !b.0.below(buckets.last().0) {
        // The larger one goes to the end, whether the smaller one is there or not.
        assert(with_b.drop_last() =~= buckets);
        assert(with_a.last() == a || with_a.last() == buckets.last());
    } else {
        let rest = buckets.drop_last();
        lemma_smaller_goes_ahead(rest, a, b);
        assert(with_a.drop_last() =~= with_bucket(rest, a));
        assert(with_b.drop_last() =~= with_bucket(rest, b));
    }
}

/// A bucket is found by its own bound.
proof fn lemma_found(buckets: Seq<(Double, u64)>, i: int)
    requires
        distinct(buckets),
        numbered(buckets),
        0 <= i < buckets.len(),
    ensures
        cumulative(buckets, buckets[i].0) == Some(buckets[i].1),
    decreases buckets.len(),
{
    crate::double::law_same_bound(buckets[i].0, buckets[i].0);
    if i > 0 {
        let rest = buckets.drop_first();
        assert(!buckets[0].0.same_bound(buckets[i].0));
        assert forall|p: int, q: int| 0 <= p < q < rest.len() implies !(
        #[trigger] rest[p]).0.same_bound((#[trigger] rest[q]).0) by {
            assert(!buckets[p + 1].0.same_bound(buckets[q + 1].0));
        }
        assert forall|p: int| 0 <= p < rest.len() implies !(#[trigger] rest[p]).0.nan() by {
            assert(!buckets[p + 1].0.nan());
        }
        lemma_found(rest, i - 1);
    }
}

/// An observation is above a bound or it is not.
proof fn lemma_above_or_not(observed: Seq<Double>, le: Double)
    ensures
        not_above(observed, le) + strictly_above(observed, le) == observed.len(),
    decreases observed.len(),
{
    reveal(Seq::filter);
    if observed.len() > 0 {
        lemma_above_or_not(observed.drop_last(), le);
    }
}

/// `above` at a configured bound is how many observations were strictly above it.
pub proof fn law_above_counts_observations(h: HistogramModel, observed: Seq<Double>, i: int)
    requires
        h.records(observed),
        distinct(h.buckets),
        numbered(h.buckets),
        0 <= i < h.buckets.len(),
    ensures
        h.above(h.buckets[i].0) matches Some(n) && n == strictly_above(observed, h.buckets[i].0),
{
    lemma_found(h.buckets, i);
    lemma_above_or_not(observed, h.buckets[i].0);
}

/// Whatever the bounds are, `above` is at most the count, and is there exactly where a bucket has
/// the bound.
pub proof fn law_above_needs_a_bucket(h: HistogramModel, le: Double)
    ensures
        h.above(le) is Some <==> exists|i: int|
            0 <= i < h.buckets.len() && (#[trigger] h.buckets[i]).0.same_bound(le),
        h.above(le) matches Some(n) ==> n <= h.count,
{
    lemma_bound_there(h.buckets, le);
}

proof fn lemma_bound_there(buckets: Seq<(Double, u64)>, le: Double)
    ensures
        cumulative(buckets, le) is Some <==> exists|i: int|
            0 <= i < buckets.len() && (#[trigger] buckets[i]).0.same_bound(le),
    decreases buckets.len(),
{
    if buckets.len() > 0 && !buckets[0].0.same_bound(le) {
        let rest = buckets.drop_first();
        lemma_bound_there(rest, le);
        if exists|i: int| 0 <= i < buckets.len() && (#[trigger] buckets[i]).0.same_bound(le) {
            let i = choose|i: int|
                0 <= i < buckets.len() && (#[trigger] buckets[i]).0.same_bound(le);
            assert(rest[i - 1].0.same_bound(le));
        }
        if exists|i: int| 0 <= i < rest.len() && (#[trigger] rest[i]).0.same_bound(le) {
            let i = choose|i: int| 0 <= i < rest.len() && (#[trigger] rest[i]).0.same_bound(le);
            assert(buckets[i + 1].0.same_bound(le));
        }
    }
}

/// The difference of two readings is a reading of what was observed between them.
pub proof fn law_delta_records_what_came_between(
    earlier: HistogramModel,
    later: HistogramModel,
    before: Seq<Double>,
    between: Seq<Double>,
)
    requires
        earlier.records(before),
        later.records(before + between),
        earlier.buckets.len() == later.buckets.len(),
        forall|i: int|
            0 <= i < later.buckets.len() ==> (#[trigger] later.buckets[i]).0
                == earlier.buckets[i].0,
        distinct(later.buckets),
        numbered(later.buckets),
    ensures
        earlier.delta(later).records(between),
{
    let since = earlier.delta(later);
    assert forall|i: int, j: int| 0 <= i < j < earlier.buckets.len() implies !(
    #[trigger] earlier.buckets[i]).0.same_bound((#[trigger] earlier.buckets[j]).0) by {
        assert(!later.buckets[i].0.same_bound(later.buckets[j].0));
    }
    assert forall|i: int| 0 <= i < earlier.buckets.len() implies !(
    #[trigger] earlier.buckets[i]).0.nan() by {
        assert(!later.buckets[i].0.nan());
    }
    assert forall|i: int| 0 <= i < since.buckets.len() implies (#[trigger] since.buckets[i]).1
        == not_above(between, since.buckets[i].0) by {
        let le = later.buckets[i].0;
        lemma_found(earlier.buckets, i);
        Seq::filter_distributes_over_add(before, between, |x: Double| !le.below(x));
        assert(since.buckets[i] == bucket_since(earlier.buckets, later.buckets[i]));
    }
}

/// A reading and itself are apart by nothing.
pub proof fn law_no_delta_from_itself(h: HistogramModel)
    requires
        distinct(h.buckets),
        numbered(h.buckets),
    ensures
        h.delta(h).count == 0,
        h.sum.finite() ==> h.delta(h).sum == zero(),
        forall|i: int|
            0 <= i < h.buckets.len() ==> #[trigger] h.delta(h).buckets[i] == (h.buckets[i].0, 0u64),
{
    rounding::law_difference_ends(h.sum);
    assert forall|i: int| 0 <= i < h.buckets.len() implies #[trigger] h.delta(h).buckets[i] == (
        h.buckets[i].0,
        0u64,
    ) by {
        lemma_found(h.buckets, i);
    }
}

/// What was not there before is taken whole.
pub proof fn law_delta_from_nothing_is_later(later: HistogramModel)
    requires
        !later.sum.nan(),
    ensures
        no_histogram().delta(later) == later,
{
    rounding::law_difference_ends(later.sum);
    assert(no_histogram().delta(later).buckets =~= later.buckets);
}

/// A difference has the bounds of the later reading, and counts no more than it does.
pub proof fn law_delta_never_exceeds_later(earlier: HistogramModel, later: HistogramModel)
    ensures
        earlier.delta(later).count <= later.count,
        earlier.delta(later).buckets.len() == later.buckets.len(),
        forall|i: int|
            0 <= i < later.buckets.len() ==> (#[trigger] earlier.delta(later).buckets[i]).0
                == later.buckets[i].0 && earlier.delta(later).buckets[i].1 <= later.buckets[i].1,
{
}

/// Where a bucket goes: behind every bound that it is not below, and ahead of all that it is below;
/// nothing else moves.
pub proof fn law_where_a_bucket_goes(buckets: Seq<(Double, u64)>, bucket: (Double, u64)) -> (k: int)
    ensures
        0 <= k <= buckets.len(),
        with_bucket(buckets, bucket) == buckets.insert(k, bucket),
        forall|i: int| k <= i < buckets.len() ==> bucket.0.below((#[trigger] buckets[i]).0),
        k > 0 ==> !bucket.0.below(buckets[k - 1].0),
{
    lemma_bucket_place(buckets, bucket);
    bucket_place(buckets, bucket.0)
}

/// `above` and the first bucket with the bound make up the count, or nothing is above where the
/// bucket holds more than was counted.
pub proof fn law_above_is_the_rest_of_the_count(h: HistogramModel, le: Double, i: int)
    requires
        0 <= i < h.buckets.len(),
        h.buckets[i].0.same_bound(le),
        forall|j: int| 0 <= j < i ==> !(#[trigger] h.buckets[j]).0.same_bound(le),
    ensures
        h.above(le) matches Some(n) && {
            &&& h.buckets[i].1 <= h.count ==> n + h.buckets[i].1 == h.count
            &&& h.buckets[i].1 > h.count ==> n == 0
        },
{
    lemma_first_bound(h.buckets, le, i);
}

proof fn lemma_first_bound(buckets: Seq<(Double, u64)>, le: Double, i: int)
    requires
        0 <= i < buckets.len(),
        buckets[i].0.same_bound(le),
        forall|j: int| 0 <= j < i ==> !(#[trigger] buckets[j]).0.same_bound(le),
    ensures
        cumulative(buckets, le) == Some(buckets[i].1),
    decreases buckets.len(),
{
    if i > 0 {
        assert(!buckets[0].0.same_bound(le));
        let rest = buckets.drop_first();
        assert forall|j: int| 0 <= j < i - 1 implies !(#[trigger] rest[j]).0.same_bound(le) by {
            assert(!buckets[j + 1].0.same_bound(le));
        }
        lemma_first_bound(rest, le, i - 1);
    }
}

/// Whether `n` is what something counted grew by, nothing where it fell.
pub open spec fn is_growth(n: u64, before: u64, after: u64) -> bool {
    &&& after >= before ==> before + n == after
    &&& after < before ==> n == 0
}

/// A difference is bucket by bucket what the later reading counted more: than the first bucket of
/// the earlier one with the bound, and its whole count where the earlier one has none. So is its
/// count; and its sum is exact where a double is just the difference of the sums.
pub proof fn law_a_delta_is_the_growth(earlier: HistogramModel, later: HistogramModel)
    ensures
        is_growth(earlier.delta(later).count, earlier.count, later.count),
        earlier.delta(later).buckets.len() == later.buckets.len(),
        forall|i: int|
            0 <= i < later.buckets.len() ==> (#[trigger] earlier.delta(later).buckets[i]).0
                == later.buckets[i].0,
        forall|i: int, j: int|
            0 <= i < later.buckets.len() && 0 <= j < earlier.buckets.len() && (
            #[trigger] earlier.buckets[j]).0.same_bound(later.buckets[i].0) && (forall|k: int|
                0 <= k < j ==> !(#[trigger] earlier.buckets[k]).0.same_bound(later.buckets[i].0))
                ==> is_growth(
                (#[trigger] earlier.delta(later).buckets[i]).1,
                earlier.buckets[j].1,
                later.buckets[i].1,
            ),
        forall|i: int|
            0 <= i < later.buckets.len() && (forall|k: int|
                0 <= k < earlier.buckets.len() ==> !(
                #[trigger] earlier.buckets[k]).0.same_bound(later.buckets[i].0)) ==> (
            #[trigger] earlier.delta(later).buckets[i]).1 == later.buckets[i].1,
        forall|c: Double|
            earlier.sum.finite() && later.sum.finite() && c.finite() && #[trigger] c.value()
                == later.sum.value() - earlier.sum.value() ==> earlier.delta(later).sum.value()
                == later.sum.value() - earlier.sum.value(),
{
    let since = earlier.delta(later);
    assert forall|i: int, j: int|
        0 <= i < later.buckets.len() && 0 <= j < earlier.buckets.len() && (
        #[trigger] earlier.buckets[j]).0.same_bound(later.buckets[i].0) && (forall|k: int|
            0 <= k < j ==> !(#[trigger] earlier.buckets[k]).0.same_bound(
                later.buckets[i].0,
            )) implies is_growth(
        (#[trigger] since.buckets[i]).1,
        earlier.buckets[j].1,
        later.buckets[i].1,
    ) by {
        lemma_first_bound(earlier.buckets, later.buckets[i].0, j);
    }
    assert forall|i: int|
        0 <= i < later.buckets.len() && (forall|k: int|
            0 <= k < earlier.buckets.len() ==> !(#[trigger] earlier.buckets[k]).0.same_bound(
                later.buckets[i].0,
            )) implies (#[trigger] since.buckets[i]).1 == later.buckets[i].1 by {
        lemma_bound_there(earlier.buckets, later.buckets[i].0);
    }
    assert forall|c: Double|
        earlier.sum.finite() && later.sum.finite() && c.finite() && #[trigger] c.value()
            == later.sum.value() - earlier.sum.value() implies since.sum.value()
        == later.sum.value() - earlier.sum.value() by {
        rounding::law_an_exact_difference_is_exact(later.sum, earlier.sum, c);
    }
}

/// Only `+Inf` itself is one bound with `+Inf`.
proof fn lemma_infinity(le: Double)
    ensures
        le.same_bound(infinity()) ==> le == infinity(),
{
}

proof fn lemma_infinity_since(earlier: Seq<(Double, u64)>, later: Seq<(Double, u64)>)
    ensures
        cumulative(
            later.map_values(|bucket: (Double, u64)| bucket_since(earlier, bucket)),
            infinity(),
        ) == (match cumulative(later, infinity()) {
            Some(n) => Some(lessened(n, cumulative_or_none(earlier, infinity()))),
            None => None,
        }),
    decreases later.len(),
{
    let f = |bucket: (Double, u64)| bucket_since(earlier, bucket);
    if later.len() > 0 {
        lemma_infinity(later[0].0);
        lemma_infinity_since(earlier, later.drop_first());
        assert(later.map_values(f).drop_first() =~= later.drop_first().map_values(f));
    }
}

/// The `+Inf` bucket of a difference holds every observation of it, where it did in both readings.
pub proof fn law_delta_stays_closed(earlier: HistogramModel, later: HistogramModel)
    requires
        earlier.closed(),
        later.closed(),
    ensures
        earlier.delta(later).closed(),
{
    lemma_infinity_since(earlier.buckets, later.buckets);
}

/// No observation is above `+Inf`.
pub proof fn law_nothing_above_infinity(h: HistogramModel)
    requires
        h.closed(),
    ensures
        h.above(infinity()) == Some(0u64),
{
}

// ── Reading ──────────────────────────────────────────────────────────────────

/// The cumulative count of the first bucket whose bound is `le`.
fn find_cumulative(buckets: &Vec<(Double, u64)>, le: Double) -> (n: Option<u64>)
    ensures
        n == cumulative(buckets@, le),
{
    let mut i: usize = 0;
    assert(buckets@.skip(0) =~= buckets@);
    while i < buckets.len()
        invariant
            i <= buckets.len(),
            cumulative(buckets@, le) == cumulative(buckets@.skip(i as int), le),
        decreases buckets.len() - i,
    {
        assert(buckets@.skip(i as int).drop_first() =~= buckets@.skip(i + 1));
        if buckets[i].0.is_same_bound(&le) {
            return Some(buckets[i].1);
        }
        i = i + 1;
    }
    None
}

impl Default for Histogram {
    fn default() -> (h: Histogram)
        ensures
            h@ == no_histogram(),
    {
        Histogram { buckets: Vec::new(), sum: Double::from_bits(0), count: 0 }
    }
}

impl Clone for Histogram {
    fn clone(&self) -> (h: Histogram)
        ensures
            h@ == self@,
    {
        let mut buckets: Vec<(Double, u64)> = Vec::new();
        let mut i: usize = 0;
        while i < self.buckets.len()
            invariant
                i <= self.buckets.len(),
                buckets.len() == i,
                forall|j: int| 0 <= j < i ==> #[trigger] buckets@[j] == self.buckets@[j],
            decreases self.buckets.len() - i,
        {
            buckets.push(self.buckets[i]);
            i = i + 1;
        }
        assert(buckets@ =~= self.buckets@);
        Histogram { buckets, sum: self.sum, count: self.count }
    }
}

impl Histogram {
    /// Observations recorded, from `_count`.
    pub fn count(&self) -> (n: u64)
        ensures
            n == self@.count,
    {
        self.count
    }

    /// Sum of the observed values, from `_sum`.
    pub fn sum(&self) -> (x: Double)
        ensures
            x == self@.sum,
    {
        self.sum
    }

    /// Mean observation, or `None` when nothing was observed.
    pub fn mean(&self) -> (x: Option<Double>)
        ensures
            x == (if self@.count > 0 {
                Some(rounding::quotient(self@.sum, self@.count))
            } else {
                None
            }),
    {
        if self.count > 0 {
            Some(self.sum.over(self.count))
        } else {
            None
        }
    }

    /// Observations **strictly above** `le`.
    ///
    /// `count` minus the cumulative count at the bucket whose bound is `le`. The bound is matched
    /// numerically rather than by string, because the exporter renders the 1.0 boundary as `le="1"`
    /// — a string comparison against `"1.0"` would silently find nothing and report every
    /// observation as above the bound.
    ///
    /// `None` when no bucket has that bound: the caller asked about a boundary this histogram was
    /// not configured with, which is a mistake in the caller rather than a fact about the Exit.
    pub fn above(&self, le: Double) -> (n: Option<u64>)
        ensures
            n == self@.above(le),
    {
        match find_cumulative(&self.buckets, le) {
            Some(cumulative) => Some(self.count.saturating_sub(cumulative)),
            None => None,
        }
    }

    /// Counts accumulated between `self` (earlier) and `later`, bucket by bucket.
    ///
    /// Bounds present only in `later` are taken whole; a bound that vanished is dropped.
    pub fn delta(&self, later: &Histogram) -> (since: Histogram)
        ensures
            since@ == self@.delta(later@),
    {
        let mut buckets: Vec<(Double, u64)> = Vec::new();
        let mut i: usize = 0;
        while i < later.buckets.len()
            invariant
                i <= later.buckets.len(),
                buckets.len() == i,
                forall|j: int|
                    0 <= j < i ==> #[trigger] buckets@[j] == bucket_since(
                        self@.buckets,
                        later.buckets@[j],
                    ),
            decreases later.buckets.len() - i,
        {
            let (le, cumulative) = later.buckets[i];
            let before: u64 = match find_cumulative(&self.buckets, le) {
                Some(n) => n,
                None => 0,
            };
            buckets.push((le, cumulative.saturating_sub(before)));
            i = i + 1;
        }
        let since = Histogram {
            buckets,
            sum: later.sum.minus(&self.sum),
            count: later.count.saturating_sub(self.count),
        };
        assert(since@ =~= self@.delta(later@));
        since
    }

    /// Add one bucket, keeping the bounds ascending, so that a reader of the vector sees the
    /// cumulative shape the exporter intended.
    pub fn add_bucket(&mut self, le: Double, cumulative: u64)
        ensures
            final(self)@ == (HistogramModel {
                buckets: with_bucket(old(self)@.buckets, (le, cumulative)),
                ..old(self)@
            }),
    {
        let mut i: usize = self.buckets.len();
        let ghost bucket = (le, cumulative);
        let ghost whole = self.buckets@;
        assert(whole.take(i as int) =~= whole);
        assert(whole.skip(i as int) =~= Seq::<(Double, u64)>::empty());
        assert(with_bucket(whole, bucket) =~= with_bucket(whole.take(i as int), bucket)
            + whole.skip(i as int));
        while i > 0 && le.is_below(&self.buckets[i - 1].0)
            invariant
                i <= whole.len(),
                self.buckets@ == whole,
                *self == *old(self),
                bucket == (le, cumulative),
                with_bucket(whole, bucket) == with_bucket(whole.take(i as int), bucket)
                    + whole.skip(i as int),
            decreases i,
        {
            proof {
                let part = whole.take(i as int);
                assert(part.drop_last() =~= whole.take(i - 1));
                assert(part.last() == whole[i - 1]);
                assert(with_bucket(part.drop_last(), bucket).push(part.last()) + whole.skip(
                    i as int,
                ) =~= with_bucket(whole.take(i - 1), bucket) + whole.skip(i - 1));
            }
            i = i - 1;
        }
        self.buckets.insert(i, (le, cumulative));
        proof {
            assert(i > 0 ==> whole.take(i as int).last() == whole[i - 1]);
            assert(self.buckets@ =~= whole.take(i as int).push(bucket) + whole.skip(i as int));
        }
    }
}

} // verus!
