//! Colony-wide statistics: which metrics are collected, how the per-shard
//! distributions add up, and how a distribution is cut down to a histogram
//! of its most frequent values.

use vstd::prelude::*;
use crate::model::{Cell, spec_is_blank};
use crate::ranking::{is_top_ranked, lemma_top_ranked_len, ranks_before, top_ranked};
use crate::shard_utils::{StatBucket, StatMetric, count_of, is_histogram, metric_values};
use crate::text::{signed_decimal, push_signed_decimal, zero_padded, zero_padded_string};

verus! {

/// Every statistics metric, in the order statistics are collected.
pub open spec fn all_metrics() -> Seq<StatMetric> {
    seq![
        StatMetric::Health,
        StatMetric::Size,
        StatMetric::CanKill,
        StatMetric::CanMove,
        StatMetric::Food,
        StatMetric::Age,
        StatMetric::OriginalColor,
    ]
}

/// The metrics collected for colony statistics: all of them.
pub fn all_stat_metrics() -> (r: Vec<StatMetric>)
    ensures
        r@ == all_metrics(),
{
    let r = vec![
        StatMetric::Health,
        StatMetric::Size,
        StatMetric::CanKill,
        StatMetric::CanMove,
        StatMetric::Food,
        StatMetric::Age,
        StatMetric::OriginalColor,
    ];
    assert(r@ =~= all_metrics());
    r
}

/// The slot of each metric in `all_metrics`, by an exhaustive match.
pub open spec fn metric_slot(m: StatMetric) -> int {
    match m {
        StatMetric::Health => 0,
        StatMetric::Size => 1,
        StatMetric::CanKill => 2,
        StatMetric::CanMove => 3,
        StatMetric::Food => 4,
        StatMetric::Age => 5,
        StatMetric::OriginalColor => 6,
    }
}

/// Every metric, listed through an exhaustive match so that a new metric
/// cannot be forgotten.
pub fn enumerate_all_stat_metric_variants() -> (r: Vec<StatMetric>)
    ensures
        r@.len() == 7,
        forall|m: StatMetric| r@[#[trigger] metric_slot(m)] == m,
{
    let mut r: Vec<StatMetric> = Vec::new();
    let mut k: usize = 0;
    while k < 7
        invariant
            k <= 7,
            r@.len() == k,
            forall|m: StatMetric| metric_slot(m) < k ==> r@[#[trigger] metric_slot(m)] == m,
        decreases 7 - k,
    {
        let m = if k == 0 {
            StatMetric::Health
        } else if k == 1 {
            StatMetric::Size
        } else if k == 2 {
            StatMetric::CanKill
        } else if k == 3 {
            StatMetric::CanMove
        } else if k == 4 {
            StatMetric::Food
        } else if k == 5 {
            StatMetric::Age
        } else {
            StatMetric::OriginalColor
        };
        assert(metric_slot(m) == k);
        r.push(m);
        k += 1;
    }
    r
}

/// The collected metrics are complete and free of repeats: each metric
/// appears in `all_metrics` exactly once, at its slot.
pub proof fn law_all_metrics_complete(m: StatMetric)
    ensures
        all_metrics().len() == 7,
        all_metrics()[metric_slot(m)] == m,
        forall|i: int| 0 <= i < 7 && #[trigger] all_metrics()[i] == m ==> i == metric_slot(m),
{
}

/// Values strictly increase along the buckets, so no value repeats.
pub open spec fn sorted_unique(b: Seq<StatBucket>) -> bool {
    forall|i: int, j: int| 0 <= i < j < b.len() ==> b[i].value < b[j].value
}

/// Whether some bucket holds value `v`.
pub open spec fn has_value(b: Seq<StatBucket>, v: i32) -> bool {
    exists|i: int| 0 <= i < b.len() && (#[trigger] b[i]).value == v
}

/// The count a list of distinct buckets gives value `v`, zero when absent.
pub open spec fn count_for(b: Seq<StatBucket>, v: i32) -> int {
    if has_value(b, v) {
        b[choose|i: int| 0 <= i < b.len() && (#[trigger] b[i]).value == v].occs as int
    } else {
        0
    }
}

/// `a + b`, saturating at `u64::MAX`.
pub open spec fn sat_add_u64(a: int, b: int) -> int {
    if a + b > u64::MAX { u64::MAX as int } else { a + b }
}

/// In distinct buckets, the bucket found for a value is that value's count.
pub proof fn lemma_count_for(b: Seq<StatBucket>, i: int)
    requires
        sorted_unique(b),
        0 <= i < b.len(),
    ensures
        has_value(b, b[i].value),
        count_for(b, b[i].value) == b[i].occs,
{
    let v = b[i].value;
    assert(has_value(b, v));
    let k = choose|k: int| 0 <= k < b.len() && (#[trigger] b[k]).value == v;
    if k != i {
        if k < i {
            assert(b[k].value < b[i].value);
        } else {
            assert(b[i].value < b[k].value);
        }
    }
}

/// Adds `bucket`'s count to the count of its value.
fn merge_bucket(acc: &mut Vec<StatBucket>, bucket: StatBucket)
    requires
        sorted_unique(old(acc)@),
    ensures
        sorted_unique(final(acc)@),
        forall|v: i32| #[trigger] has_value(final(acc)@, v) == (has_value(old(acc)@, v) || v == bucket.value),
        forall|v: i32| #[trigger] count_for(final(acc)@, v) == if v == bucket.value {
            sat_add_u64(count_for(old(acc)@, v), bucket.occs as int)
        } else {
            count_for(old(acc)@, v)
        },
{
    let ghost b0 = acc@;
    let v = bucket.value;
    let mut p: usize = 0;
    while p < acc.len() && acc[p].value < v
        invariant
            acc@ == b0,
            p <= b0.len(),
            forall|k: int| 0 <= k < p ==> #[trigger] b0[k].value < v,
        decreases b0.len() - p,
    {
        p += 1;
    }
    if p < acc.len() && acc[p].value == v {
        let old_b = acc[p];
        let total = old_b.occs.saturating_add(bucket.occs);
        acc.set(p, StatBucket { value: v, occs: total });
        proof {
            let b1 = acc@;
            lemma_count_for(b0, p as int);
            lemma_count_for(b1, p as int);
            assert forall|x: i32| #[trigger] has_value(b1, x) == (has_value(b0, x) || x == v) by {
                if has_value(b0, x) {
                    let i = choose|i: int| 0 <= i < b0.len() && (#[trigger] b0[i]).value == x;
                    assert(b1[i].value == x);
                }
                if has_value(b1, x) {
                    let i = choose|i: int| 0 <= i < b1.len() && (#[trigger] b1[i]).value == x;
                    assert(b0[i].value == x);
                }
            }
            assert forall|x: i32| #[trigger] count_for(b1, x) == if x == v {
                sat_add_u64(count_for(b0, x), bucket.occs as int)
            } else {
                count_for(b0, x)
            } by {
                if x != v && has_value(b0, x) {
                    let i = choose|i: int| 0 <= i < b0.len() && (#[trigger] b0[i]).value == x;
                    lemma_count_for(b0, i);
                    lemma_count_for(b1, i);
                }
            }
        }
    } else {
        proof {
            if has_value(b0, v) {
                let i = choose|i: int| 0 <= i < b0.len() && (#[trigger] b0[i]).value == v;
                if i > p as int {
                    assert(b0[p as int].value < b0[i].value);
                }
            }
        }
        acc.insert(p, StatBucket { value: v, occs: bucket.occs });
        proof {
            let b1 = acc@;
            assert(b1 == b0.insert(p as int, StatBucket { value: v, occs: bucket.occs }));
            assert forall|i: int, j: int| 0 <= i < j < b1.len() implies b1[i].value < b1[j].value by {
                if j < p {
                } else if j == p {
                } else if i < p {
                    assert(b1[j] == b0[j - 1]);
                    assert(b0[p as int].value > v);
                    if p < j - 1 {
                        assert(b0[p as int].value < b0[j - 1].value);
                    }
                } else if i == p {
                    assert(b1[j] == b0[j - 1]);
                    if p < j - 1 {
                        assert(b0[p as int].value < b0[j - 1].value);
                    }
                } else {
                    assert(b1[i] == b0[i - 1]);
                    assert(b1[j] == b0[j - 1]);
                }
            }
            lemma_count_for(b1, p as int);
            assert forall|x: i32| #[trigger] has_value(b1, x) == (has_value(b0, x) || x == v) by {
                if has_value(b0, x) {
                    let i = choose|i: int| 0 <= i < b0.len() && (#[trigger] b0[i]).value == x;
                    if i < p {
                        assert(b1[i].value == x);
                    } else {
                        assert(b1[i + 1].value == x);
                    }
                }
                if has_value(b1, x) && x != v {
                    let i = choose|i: int| 0 <= i < b1.len() && (#[trigger] b1[i]).value == x;
                    if i < p {
                        assert(b0[i].value == x);
                    } else {
                        assert(b0[i - 1].value == x);
                    }
                }
            }
            assert forall|x: i32| #[trigger] count_for(b1, x) == if x == v {
                sat_add_u64(count_for(b0, x), bucket.occs as int)
            } else {
                count_for(b0, x)
            } by {
                if x != v && has_value(b0, x) {
                    let i = choose|i: int| 0 <= i < b0.len() && (#[trigger] b0[i]).value == x;
                    lemma_count_for(b0, i);
                    if i < p {
                        assert(b1[i] == b0[i]);
                        lemma_count_for(b1, i);
                    } else {
                        assert(b1[i + 1] == b0[i]);
                        lemma_count_for(b1, i + 1);
                    }
                }
            }
        }
    }
}

/// Whether `b` holds distinct values in increasing order.
pub fn buckets_sorted_unique(b: &Vec<StatBucket>) -> (r: bool)
    ensures
        r == sorted_unique(b@),
{
    let mut i: usize = 1;
    if b.len() == 0 {
        return true;
    }
    while i < b.len()
        invariant
            1 <= i <= b@.len(),
            forall|p: int, q: int| 0 <= p < q < i ==> b@[p].value < b@[q].value,
        decreases b@.len() - i,
    {
        if b[i - 1].value >= b[i].value {
            return false;
        }
        proof {
            assert forall|p: int, q: int| 0 <= p < q < i + 1 implies b@[p].value < b@[q].value by {
                if q == i && p < i - 1 {
                    assert(b@[p].value < b@[i - 1].value);
                }
            }
        }
        i += 1;
    }
    true
}

/// Adds one shard's distribution of a metric into the colony-wide one; the
/// counts of each value add up, saturating at `u64::MAX`.
pub fn add_buckets(acc: &mut Vec<StatBucket>, buckets: &Vec<StatBucket>)
    requires
        sorted_unique(old(acc)@),
        sorted_unique(buckets@),
    ensures
        sorted_unique(final(acc)@),
        forall|v: i32| #[trigger] has_value(final(acc)@, v) == (has_value(old(acc)@, v) || has_value(buckets@, v)),
        forall|v: i32| #[trigger] count_for(final(acc)@, v) == sat_add_u64(count_for(old(acc)@, v), count_for(buckets@, v)),
{
    let ghost a0 = acc@;
    let mut k: usize = 0;
    while k < buckets.len()
        invariant
            sorted_unique(acc@),
            sorted_unique(buckets@),
            k <= buckets@.len(),
            forall|v: i32| #[trigger] has_value(acc@, v) == (has_value(a0, v) || has_value(buckets@.take(k as int), v)),
            forall|v: i32| #[trigger] count_for(acc@, v) == sat_add_u64(count_for(a0, v), count_for(buckets@.take(k as int), v)),
        decreases buckets@.len() - k,
    {
        let ghost t0 = buckets@.take(k as int);
        let ghost t1 = buckets@.take(k as int + 1);
        let bucket = buckets[k];
        merge_bucket(acc, bucket);
        proof {
            assert forall|i: int, j: int| 0 <= i < j < t1.len() implies t1[i].value < t1[j].value by {
                assert(t1[i] == buckets@[i] && t1[j] == buckets@[j]);
            }
            assert forall|i: int, j: int| 0 <= i < j < t0.len() implies t0[i].value < t0[j].value by {
                assert(t0[i] == buckets@[i] && t0[j] == buckets@[j]);
            }
            assert(t1[k as int] == bucket);
            lemma_count_for(t1, k as int);
            assert forall|v: i32| #[trigger] has_value(t1, v) == (has_value(t0, v) || v == bucket.value) by {
                if has_value(t0, v) {
                    let i = choose|i: int| 0 <= i < t0.len() && (#[trigger] t0[i]).value == v;
                    assert(t1[i] == t0[i]);
                }
                if has_value(t1, v) && v != bucket.value {
                    let i = choose|i: int| 0 <= i < t1.len() && (#[trigger] t1[i]).value == v;
                    assert(t0[i] == t1[i]);
                }
            }
            assert forall|v: i32| #[trigger] count_for(t1, v) == if v == bucket.value {
                count_for(t0, v) + bucket.occs
            } else {
                count_for(t0, v)
            } by {
                if v == bucket.value {
                    if has_value(t0, v) {
                        let i = choose|i: int| 0 <= i < t0.len() && (#[trigger] t0[i]).value == v;
                        assert(t0[i].value < t1[k as int].value);
                    }
                } else if has_value(t0, v) {
                    let i = choose|i: int| 0 <= i < t0.len() && (#[trigger] t0[i]).value == v;
                    lemma_count_for(t0, i);
                    assert(t1[i] == t0[i]);
                    lemma_count_for(t1, i);
                }
            }
        }
        k += 1;
    }
    assert(buckets@.take(k as int) =~= buckets@);
}

/// The sum of all counts, saturating at `u64::MAX`.
pub open spec fn total_occs(b: Seq<StatBucket>) -> int
    decreases b.len(),
{
    if b.len() == 0 {
        0
    } else {
        sat_add_u64(total_occs(b.drop_last()), b.last().occs as int)
    }
}

/// The number of creatures counted in a distribution: the sum of its
/// counts, saturating at `u64::MAX`.
pub fn creatures_count(b: &Vec<StatBucket>) -> (n: u64)
    ensures
        n == total_occs(b@),
{
    let mut total: u64 = 0;
    let mut i: usize = 0;
    while i < b.len()
        invariant
            i <= b@.len(),
            total == total_occs(b@.take(i as int)),
        decreases b@.len() - i,
    {
        assert(b@.take(i as int + 1).drop_last() =~= b@.take(i as int));
        total = total.saturating_add(b[i].occs);
        i += 1;
    }
    assert(b@.take(i as int) =~= b@);
    total
}


/// The number of cells that hold a creature.
pub open spec fn living_count(cells: Seq<Cell>) -> nat
    decreases cells.len(),
{
    if cells.len() == 0 {
        0
    } else {
        living_count(cells.drop_last()) + if spec_is_blank(cells.last()) { 0nat } else { 1nat }
    }
}

/// Sum, over the buckets, of how often each bucket's value occurs in `s`.
pub open spec fn occurrences_in(b: Seq<StatBucket>, s: Seq<i32>) -> int
    decreases b.len(),
{
    if b.len() == 0 { 0 } else { occurrences_in(b.drop_last(), s) + count_of(s, b.last().value) }
}

/// Number of buckets with value `v`.
pub open spec fn buckets_with(b: Seq<StatBucket>, v: i32) -> int
    decreases b.len(),
{
    if b.len() == 0 { 0 } else { buckets_with(b.drop_last(), v) + if b.last().value == v { 1int } else { 0int } }
}

proof fn lemma_occurrences_step(b: Seq<StatBucket>, s: Seq<i32>)
    requires
        s.len() > 0,
    ensures
        occurrences_in(b, s) == occurrences_in(b, s.drop_last()) + buckets_with(b, s.last()),
    decreases b.len(),
{
    if b.len() > 0 {
        lemma_occurrences_step(b.drop_last(), s);
    }
}

proof fn lemma_buckets_with_distinct(b: Seq<StatBucket>, v: i32)
    requires
        forall|i: int, j: int| 0 <= i < j < b.len() ==> b[i].value < b[j].value,
    ensures
        buckets_with(b, v) == if exists|i: int| 0 <= i < b.len() && #[trigger] b[i].value == v { 1int } else { 0int },
    decreases b.len(),
{
    if b.len() > 0 {
        let c = b.drop_last();
        lemma_buckets_with_distinct(c, v);
        if b.last().value == v {
            assert(b[b.len() - 1].value == v);
            if exists|i: int| 0 <= i < c.len() && #[trigger] c[i].value == v {
                let i = choose|i: int| 0 <= i < c.len() && #[trigger] c[i].value == v;
                assert(b[i].value < b[b.len() - 1].value);
            }
        } else {
            if exists|i: int| 0 <= i < b.len() && #[trigger] b[i].value == v {
                let i = choose|i: int| 0 <= i < b.len() && #[trigger] b[i].value == v;
                assert(c[i].value == v);
            }
        }
    }
}

/// Buckets with distinct values that cover every value of `s` count each
/// element of `s` once.
proof fn lemma_occurrences_cover(b: Seq<StatBucket>, s: Seq<i32>)
    requires
        forall|i: int, j: int| 0 <= i < j < b.len() ==> b[i].value < b[j].value,
        forall|v: i32| #[trigger] count_of(s, v) > 0 ==> exists|i: int| 0 <= i < b.len() && #[trigger] b[i].value == v,
    ensures
        occurrences_in(b, s) == s.len(),
    decreases s.len(),
{
    if s.len() == 0 {
        lemma_occurrences_empty(b, s);
    } else {
        let t = s.drop_last();
        assert forall|v: i32| #[trigger] count_of(t, v) > 0 implies exists|i: int| 0 <= i < b.len() && #[trigger] b[i].value == v by {
            assert(count_of(s, v) > 0);
        }
        lemma_occurrences_cover(b, t);
        lemma_occurrences_step(b, s);
        assert(count_of(s, s.last()) > 0);
        lemma_buckets_with_distinct(b, s.last());
    }
}

proof fn lemma_occurrences_empty(b: Seq<StatBucket>, s: Seq<i32>)
    requires
        s.len() == 0,
    ensures
        occurrences_in(b, s) == 0,
    decreases b.len(),
{
    if b.len() > 0 {
        lemma_occurrences_empty(b.drop_last(), s);
    }
}

proof fn lemma_sum_count_occurrences(b: Seq<StatBucket>, s: Seq<i32>)
    requires
        forall|i: int| 0 <= i < b.len() ==> #[trigger] b[i].occs == count_of(s, b[i].value),
    ensures
        sum_count(b) == occurrences_in(b, s),
    decreases b.len(),
{
    if b.len() > 0 {
        lemma_sum_count_occurrences(b.drop_last(), s);
        assert(b.last().occs == count_of(s, b[b.len() - 1].value));
    }
}

/// A metric is counted on every cell for food, on the living cells else.
pub proof fn lemma_metric_values_count(cells: Seq<Cell>, m: StatMetric)
    ensures
        metric_values(cells, m).len() == if m == StatMetric::Food { cells.len() } else { living_count(cells) },
    decreases cells.len(),
{
    if cells.len() > 0 {
        lemma_metric_values_count(cells.drop_last(), m);
    }
}

/// The counts of a histogram add up to the length of what it counts.
pub proof fn lemma_histogram_sum(b: Seq<StatBucket>, s: Seq<i32>)
    requires
        is_histogram(b, s),
    ensures
        sum_count(b) == s.len(),
{
    lemma_sum_count_occurrences(b, s);
    lemma_occurrences_cover(b, s);
}

/// A sum of counts that fits in `u64` is what the saturating sum gives.
pub proof fn lemma_total_occs_exact(b: Seq<StatBucket>)
    requires
        sum_count(b) <= u64::MAX,
    ensures
        total_occs(b) == sum_count(b),
    decreases b.len(),
{
    if b.len() > 0 {
        lemma_total_occs_exact(b.drop_last());
    }
}

/// The counts of a metric's buckets add up to the number of cells the
/// metric is counted on: every cell for food, the living cells for the
/// other metrics.
pub proof fn law_buckets_count_living_cells(cells: Seq<Cell>, m: StatMetric, b: Seq<StatBucket>)
    requires
        is_histogram(b, metric_values(cells, m)),
    ensures
        sum_count(b) == if m == StatMetric::Food { cells.len() as int } else { living_count(cells) as int },
{
    let s = metric_values(cells, m);
    lemma_sum_count_occurrences(b, s);
    lemma_occurrences_cover(b, s);
    lemma_metric_values_count(cells, m);
}

/// Values seen fewer times than this are left out of a histogram.
pub const MIN_HISTOGRAM_COUNT: u64 = 20;

/// A histogram keeps at most this many values.
pub const TOP_VALUES_LIMIT: usize = 20;

/// The buckets seen at least `MIN_HISTOGRAM_COUNT` times, in order.
pub open spec fn frequent_buckets(b: Seq<StatBucket>) -> Seq<StatBucket>
    decreases b.len(),
{
    if b.len() == 0 {
        Seq::empty()
    } else {
        let rest = frequent_buckets(b.drop_last());
        if b.last().occs >= MIN_HISTOGRAM_COUNT { rest.push(b.last()) } else { rest }
    }
}

/// The key under which a histogram shows a value: booleans as `0` or `1`,
/// other values in decimal.
pub open spec fn histogram_key(value: i32, is_boolean: bool) -> Seq<char> {
    if is_boolean {
        if value == 0 { seq!['0'] } else { seq!['1'] }
    } else {
        signed_decimal(value as int)
    }
}

/// Sum of value times count over the buckets.
pub open spec fn sum_value(b: Seq<StatBucket>) -> int
    decreases b.len(),
{
    if b.len() == 0 { 0 } else { sum_value(b.drop_last()) + b.last().value * b.last().occs }
}

/// Sum of the counts of the buckets.
pub open spec fn sum_count(b: Seq<StatBucket>) -> int
    decreases b.len(),
{
    if b.len() == 0 { 0 } else { sum_count(b.drop_last()) + b.last().occs }
}

/// The counts of the buckets, in order.
pub open spec fn bucket_counts(b: Seq<StatBucket>) -> Seq<u64> {
    b.map_values(|x: StatBucket| x.occs)
}

/// The counts of named values, in order.
pub open spec fn named_counts(b: Seq<(String, u64)>) -> Seq<u64> {
    b.map_values(|e: (String, u64)| e.1)
}

/// A histogram of a numeric metric, before its average is taken: the most
/// frequent values with their counts, whether values were cut, how many
/// frequent values there were, and the two sums the average divides.
pub struct HistogramCounts {
    pub distribution: Vec<(String, u64)>,
    pub was_cut: bool,
    pub unique_values_count: usize,
    pub total_value: i128,
    pub total_count: u128,
}

/// A histogram of a metric whose values are names.
pub struct HistogramWithoutAverage {
    pub distribution: Vec<(String, u64)>,
    pub was_cut: bool,
    pub unique_values_count: usize,
}

/// The frequent buckets of a distribution, in order.
fn frequent_of(counts: &Vec<StatBucket>) -> (f: Vec<StatBucket>)
    ensures
        f@ == frequent_buckets(counts@),
{
    let mut f: Vec<StatBucket> = Vec::new();
    let mut i: usize = 0;
    while i < counts.len()
        invariant
            i <= counts@.len(),
            f@ == frequent_buckets(counts@.take(i as int)),
        decreases counts@.len() - i,
    {
        assert(counts@.take(i as int + 1).drop_last() =~= counts@.take(i as int));
        if counts[i].occs >= MIN_HISTOGRAM_COUNT {
            f.push(counts[i]);
        }
        i += 1;
    }
    assert(counts@.take(i as int) =~= counts@);
    f
}

/// In distinct increasing values, each value is at least the first plus its
/// position.
proof fn lemma_sorted_values_spread(b: Seq<StatBucket>, i: int)
    requires
        sorted_unique(b),
        0 <= i < b.len(),
    ensures
        b[i].value >= b[0].value + i,
    decreases i,
{
    if i > 0 {
        lemma_sorted_values_spread(b, i - 1);
        assert(b[i - 1].value < b[i].value);
    }
}

/// `h` is the histogram of a numeric distribution: its frequent values
/// (seen at least `MIN_HISTOGRAM_COUNT` times), ranked by count, largest
/// first with ties in value order, and the first `TOP_VALUES_LIMIT` kept,
/// each under its key; with the count of frequent values, whether any were
/// cut, and the two sums an average divides.
pub open spec fn numeric_histogram_of(h: HistogramCounts, counts: Seq<StatBucket>, is_boolean: bool) -> bool {
    &&& h.unique_values_count == frequent_buckets(counts).len()
    &&& h.was_cut == (frequent_buckets(counts).len() > TOP_VALUES_LIMIT)
    &&& h.total_value == sum_value(counts)
    &&& h.total_count == sum_count(counts)
    &&& exists|top: Seq<usize>| #[trigger] is_top_ranked(
        top,
        bucket_counts(frequent_buckets(counts)),
        TOP_VALUES_LIMIT as int,
    ) && h.distribution@.len() == top.len() && forall|k: int| 0 <= k < top.len() ==> {
        let b = frequent_buckets(counts)[top[k] as int];
        (#[trigger] h.distribution@[k]).0@ == histogram_key(b.value, is_boolean) && h.distribution@[k].1 == b.occs
    }
}

/// Every frequent bucket was seen at least `MIN_HISTOGRAM_COUNT` times.
proof fn lemma_frequent_counts(b: Seq<StatBucket>, k: int)
    requires
        0 <= k < frequent_buckets(b).len(),
    ensures
        frequent_buckets(b)[k].occs >= MIN_HISTOGRAM_COUNT,
    decreases b.len(),
{
    if b.len() > 0 {
        let rest = frequent_buckets(b.drop_last());
        if k < rest.len() {
            lemma_frequent_counts(b.drop_last(), k);
        }
    }
}

/// A numeric histogram shows at most `TOP_VALUES_LIMIT` values, each seen at
/// least `MIN_HISTOGRAM_COUNT` times, with counts that never grow along the
/// list; the values of a boolean metric are shown as `0` or `1`.
pub proof fn law_histogram_shape(h: HistogramCounts, counts: Seq<StatBucket>, is_boolean: bool)
    requires
        numeric_histogram_of(h, counts, is_boolean),
    ensures
        h.distribution@.len() <= TOP_VALUES_LIMIT,
        h.distribution@.len() <= h.unique_values_count,
        forall|k: int| 0 <= k < h.distribution@.len() ==> (#[trigger] h.distribution@[k]).1 >= MIN_HISTOGRAM_COUNT,
        forall|j: int, k: int| 0 <= j < k < h.distribution@.len() ==>
            (#[trigger] h.distribution@[j]).1 >= (#[trigger] h.distribution@[k]).1,
        is_boolean ==> forall|k: int| 0 <= k < h.distribution@.len() ==>
            (#[trigger] h.distribution@[k]).0@ == seq!['0'] || h.distribution@[k].0@ == seq!['1'],
{
    let f = frequent_buckets(counts);
    let keys = bucket_counts(f);
    let top = choose|top: Seq<usize>| #[trigger] is_top_ranked(top, keys, TOP_VALUES_LIMIT as int)
        && h.distribution@.len() == top.len() && forall|k: int| 0 <= k < top.len() ==> {
            let b = f[top[k] as int];
            (#[trigger] h.distribution@[k]).0@ == histogram_key(b.value, is_boolean) && h.distribution@[k].1 == b.occs
        };
    lemma_top_ranked_len(top, keys, TOP_VALUES_LIMIT as int);
    assert forall|k: int| 0 <= k < h.distribution@.len() implies (#[trigger] h.distribution@[k]).1 >= MIN_HISTOGRAM_COUNT by {
        assert(top[k] < keys.len());
        lemma_frequent_counts(counts, top[k] as int);
    }
    assert forall|j: int, k: int| 0 <= j < k < h.distribution@.len() implies
        (#[trigger] h.distribution@[j]).1 >= (#[trigger] h.distribution@[k]).1 by {
        assert(ranks_before(keys, top[j] as int, top[k] as int));
        assert(top[j] < keys.len() && top[k] < keys.len());
    }
    if h.distribution@.len() > h.unique_values_count {
        let n = h.distribution@.len();
        assert forall|p: int, q: int| 0 <= p < q < n implies top[p] != top[q] by {
            assert(ranks_before(keys, top[p] as int, top[q] as int));
        }
        lemma_distinct_indices_bound(top, keys.len() as int);
    }
}

/// Distinct indices below `n` are at most `n` many.
proof fn lemma_distinct_indices_bound(s: Seq<usize>, n: int)
    requires
        forall|p: int| 0 <= p < s.len() ==> (#[trigger] s[p]) < n,
        forall|p: int, q: int| 0 <= p < q < s.len() ==> s[p] != s[q],
    ensures
        s.len() <= if n >= 0 { n } else { 0 },
    decreases s.len(),
{
    if s.len() > 0 {
        let m = s.len() - 1;
        let last = s[m] as int;
        let t = s.take(m).map_values(|v: usize| if (v as int) > last { (v - 1) as usize } else { v });
        assert forall|p: int| 0 <= p < t.len() implies (#[trigger] t[p]) < n - 1 by {
            assert(s[p] != s[m]);
        }
        assert forall|p: int, q: int| 0 <= p < q < t.len() implies t[p] != t[q] by {
            assert(s[p] != s[q]);
            assert(s[p] != s[m] && s[q] != s[m]);
        }
        lemma_distinct_indices_bound(t, n - 1);
    }
}

/// `h` is the histogram of a distribution over names, given in name order:
/// the frequent names ranked by count, largest first with ties in the given
/// order, and the first `TOP_VALUES_LIMIT` kept.
pub open spec fn named_histogram_of(h: HistogramWithoutAverage, counts: Seq<(String, u64)>) -> bool {
    &&& h.unique_values_count == frequent_named(counts).len()
    &&& h.was_cut == (frequent_named(counts).len() > TOP_VALUES_LIMIT)
    &&& exists|top: Seq<usize>| #[trigger] is_top_ranked(
        top,
        named_counts(frequent_named(counts)),
        TOP_VALUES_LIMIT as int,
    ) && h.distribution@.len() == top.len() && forall|k: int| 0 <= k < top.len() ==> {
        let e = frequent_named(counts)[top[k] as int];
        (#[trigger] h.distribution@[k]).0@ == e.0@ && h.distribution@[k].1 == e.1
    }
}

/// Builds the histogram of a numeric distribution: the frequent values (seen
/// at least `MIN_HISTOGRAM_COUNT` times) are ranked by count, largest first
/// with ties in value order, and the first `TOP_VALUES_LIMIT` are kept.
pub fn build_histogram(counts: &Vec<StatBucket>, is_boolean: bool) -> (h: HistogramCounts)
    requires
        sorted_unique(counts@),
    ensures
        numeric_histogram_of(h, counts@, is_boolean),
        h.distribution@.len() <= TOP_VALUES_LIMIT,
{
    let mut total_value: i128 = 0;
    let mut total_count: u128 = 0;
    let mut i: usize = 0;
    while i < counts.len()
        invariant
            sorted_unique(counts@),
            i <= counts@.len(),
            total_value == sum_value(counts@.take(i as int)),
            total_count == sum_count(counts@.take(i as int)),
            -(i as int) * 0x8000_0000 * 0xFFFF_FFFF_FFFF_FFFF <= total_value <= (i as int) * 0x8000_0000 * 0xFFFF_FFFF_FFFF_FFFF,
            0 <= total_count <= (i as int) * 0x1_0000_0000_0000_0000,
            i > 0 ==> i <= counts@[i - 1].value - counts@[0].value + 1,
        decreases counts@.len() - i,
    {
        assert(counts@.take(i as int + 1).drop_last() =~= counts@.take(i as int));
        proof {
            lemma_sorted_values_spread(counts@, i as int);
        }
        let b = counts[i];
        let v = b.value as i128;
        let c = b.occs as i128;
        assert(-0x8000_0000 * 0xFFFF_FFFF_FFFF_FFFF <= v * c <= 0x8000_0000 * 0xFFFF_FFFF_FFFF_FFFF) by (nonlinear_arith)
            requires
                -0x8000_0000 <= v < 0x8000_0000,
                0 <= c <= 0xFFFF_FFFF_FFFF_FFFF,
        ;
        assert(i + 1 <= 0x1_0000_0000);
        assert((i as int + 1) * 0x8000_0000 * 0xFFFF_FFFF_FFFF_FFFF < 0x8000_0000_0000_0000_0000_0000_0000_0000) by (nonlinear_arith)
            requires
                i + 1 <= 0x1_0000_0000,
        ;
        total_value = total_value + v * c;
        total_count = total_count + b.occs as u128;
        i += 1;
    }
    assert(counts@.take(i as int) =~= counts@);
    let frequent = frequent_of(counts);
    let mut keys: Vec<u64> = Vec::new();
    let mut k: usize = 0;
    while k < frequent.len()
        invariant
            k <= frequent@.len(),
            keys@ == bucket_counts(frequent@.take(k as int)),
        decreases frequent@.len() - k,
    {
        keys.push(frequent[k].occs);
        assert(frequent@.take(k as int + 1) =~= frequent@.take(k as int).push(frequent@[k as int]));
        k += 1;
    }
    assert(frequent@.take(k as int) =~= frequent@);
    let top = top_ranked(&keys, TOP_VALUES_LIMIT);
    let mut distribution: Vec<(String, u64)> = Vec::new();
    let mut t: usize = 0;
    while t < top.len()
        invariant
            keys@ == bucket_counts(frequent@),
            frequent@ == frequent_buckets(counts@),
            is_top_ranked(top@, keys@, TOP_VALUES_LIMIT as int),
            t <= top@.len(),
            distribution@.len() == t,
            forall|q: int| 0 <= q < t ==> {
                let b = frequent@[top@[q] as int];
                (#[trigger] distribution@[q]).0@ == histogram_key(b.value, is_boolean) && distribution@[q].1 == b.occs
            },
        decreases top@.len() - t,
    {
        assert(top@[t as int] < keys@.len());
        let b = frequent[top[t]];
        let mut key = String::new();
        if is_boolean {
            proof {
                reveal_strlit("0");
                reveal_strlit("1");
            }
            if b.value == 0 {
                key.append("0");
            } else {
                key.append("1");
            }
        } else {
            push_signed_decimal(&mut key, b.value as i64);
        }
        assert(key@ =~= histogram_key(b.value, is_boolean));
        distribution.push((key, b.occs));
        t += 1;
    }
    let n = frequent.len();
    assert(is_top_ranked(top@, bucket_counts(frequent_buckets(counts@)), TOP_VALUES_LIMIT as int));
    proof {
        lemma_top_ranked_len(top@, keys@, TOP_VALUES_LIMIT as int);
    }
    HistogramCounts {
        distribution,
        was_cut: n > TOP_VALUES_LIMIT,
        unique_values_count: n,
        total_value,
        total_count,
    }
}

/// The named values seen at least `MIN_HISTOGRAM_COUNT` times, in order.
pub open spec fn frequent_named(b: Seq<(String, u64)>) -> Seq<(String, u64)>
    decreases b.len(),
{
    if b.len() == 0 {
        Seq::empty()
    } else {
        let rest = frequent_named(b.drop_last());
        if b.last().1 >= MIN_HISTOGRAM_COUNT { rest.push(b.last()) } else { rest }
    }
}

/// Builds the histogram of a distribution over names, given in name order:
/// the frequent names are ranked by count, largest first with ties in the
/// given order, and the first `TOP_VALUES_LIMIT` are kept.
pub fn build_string_histogram(counts: &Vec<(String, u64)>) -> (h: HistogramWithoutAverage)
    ensures
        named_histogram_of(h, counts@),
        h.distribution@.len() <= TOP_VALUES_LIMIT,
{
    let mut frequent: Vec<(String, u64)> = Vec::new();
    let mut i: usize = 0;
    while i < counts.len()
        invariant
            i <= counts@.len(),
            frequent@ == frequent_named(counts@.take(i as int)),
        decreases counts@.len() - i,
    {
        assert(counts@.take(i as int + 1).drop_last() =~= counts@.take(i as int));
        if counts[i].1 >= MIN_HISTOGRAM_COUNT {
            let name = counts[i].0.clone();
            frequent.push((name, counts[i].1));
            assert(frequent@.last() == counts@[i as int]);
        }
        i += 1;
    }
    assert(counts@.take(i as int) =~= counts@);
    let mut keys: Vec<u64> = Vec::new();
    let mut k: usize = 0;
    while k < frequent.len()
        invariant
            k <= frequent@.len(),
            keys@ == named_counts(frequent@.take(k as int)),
        decreases frequent@.len() - k,
    {
        keys.push(frequent[k].1);
        assert(frequent@.take(k as int + 1) =~= frequent@.take(k as int).push(frequent@[k as int]));
        k += 1;
    }
    assert(frequent@.take(k as int) =~= frequent@);
    let top = top_ranked(&keys, TOP_VALUES_LIMIT);
    let mut distribution: Vec<(String, u64)> = Vec::new();
    let mut t: usize = 0;
    while t < top.len()
        invariant
            keys@ == named_counts(frequent@),
            frequent@ == frequent_named(counts@),
            is_top_ranked(top@, keys@, TOP_VALUES_LIMIT as int),
            t <= top@.len(),
            distribution@.len() == t,
            forall|q: int| 0 <= q < t ==> {
                let e = frequent@[top@[q] as int];
                (#[trigger] distribution@[q]).0@ == e.0@ && distribution@[q].1 == e.1
            },
        decreases top@.len() - t,
    {
        assert(top@[t as int] < keys@.len());
        let name = frequent[top[t]].0.clone();
        distribution.push((name, frequent[top[t]].1));
        t += 1;
    }
    let n = frequent.len();
    assert(is_top_ranked(top@, named_counts(frequent_named(counts@)), TOP_VALUES_LIMIT as int));
    proof {
        lemma_top_ranked_len(top@, keys@, TOP_VALUES_LIMIT as int);
    }
    HistogramWithoutAverage { distribution, was_cut: n > TOP_VALUES_LIMIT, unique_values_count: n }
}


/// The file name of a tick: its number zero-padded to seven digits, such as
/// `0000020` for tick 20.
pub fn format_tick_filename(tick: u64) -> (s: String)
    ensures
        s@ == zero_padded(tick as nat, 7),
{
    zero_padded_string(tick, 7)
}

/// When and for what colony size a statistics record was made.
pub struct Metadata {
    pub created_at_utc: String,
    pub colony_width: Option<i32>,
    pub colony_height: Option<i32>,
}

/// Calls `chrono::Utc::now` and formats the time with
/// `chrono::DateTime::to_rfc3339`. Nothing is claimed of the text, which
/// depends on the clock.
#[verifier::external_body]
fn utc_now_rfc3339() -> String {
    chrono::Utc::now().to_rfc3339()
}

impl Metadata {
    /// The metadata of a record made now, for a colony of the given size.
    pub fn now(colony_width: Option<i32>, colony_height: Option<i32>) -> (m: Metadata)
        ensures
            m.colony_width == colony_width,
            m.colony_height == colony_height,
    {
        Metadata { created_at_utc: utc_now_rfc3339(), colony_width, colony_height }
    }
}

} // verus!
