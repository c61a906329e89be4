//! The colony-wide statistics record: the distributions every shard reports
//! are summed metric by metric, and each sum is cut down to a histogram.

use vstd::prelude::*;
use crate::colony_stats::{
    add_buckets, build_histogram, build_string_histogram, buckets_sorted_unique, count_for, creatures_count,
    has_value, numeric_histogram_of, named_histogram_of, sat_add_u64, sorted_unique, total_occs, HistogramCounts,
    HistogramWithoutAverage, Metadata,
};
use crate::colony_stats::{lemma_count_for, lemma_histogram_sum, lemma_metric_values_count, lemma_total_occs_exact, living_count, sum_count};
use crate::model::Cell;
use crate::shard_utils::{ShardStatResult, StatBucket, StatMetric, count_of, is_histogram, lemma_count_le_len, metric_values};
use crate::text::{hex6, push_hex_color, push_signed_decimal, signed_decimal};

verus! {

/// The colony-wide distribution of every metric.
pub struct MetricTotals {
    pub health: Vec<StatBucket>,
    pub size: Vec<StatBucket>,
    pub can_kill: Vec<StatBucket>,
    pub can_move: Vec<StatBucket>,
    pub food: Vec<StatBucket>,
    pub age: Vec<StatBucket>,
    pub original_color: Vec<StatBucket>,
}

/// The distribution kept for a metric.
pub open spec fn total_of(t: MetricTotals, m: StatMetric) -> Seq<StatBucket> {
    match m {
        StatMetric::Health => t.health@,
        StatMetric::Size => t.size@,
        StatMetric::CanKill => t.can_kill@,
        StatMetric::CanMove => t.can_move@,
        StatMetric::Food => t.food@,
        StatMetric::Age => t.age@,
        StatMetric::OriginalColor => t.original_color@,
    }
}

impl MetricTotals {
    /// Every distribution lists each value once, in increasing order.
    pub open spec fn wf(&self) -> bool {
        forall|m: StatMetric| sorted_unique(#[trigger] total_of(*self, m))
    }

    /// Whether every distribution lists each value once, in increasing order.
    pub fn is_well_formed(&self) -> (r: bool)
        ensures
            r == self.wf(),
    {
        let r = buckets_sorted_unique(&self.health) && buckets_sorted_unique(&self.size)
            && buckets_sorted_unique(&self.can_kill) && buckets_sorted_unique(&self.can_move)
            && buckets_sorted_unique(&self.food) && buckets_sorted_unique(&self.age)
            && buckets_sorted_unique(&self.original_color);
        proof {
            if r {
                assert forall|m: StatMetric| sorted_unique(#[trigger] total_of(*self, m)) by {
                    match m {
                        StatMetric::Health => {},
                        StatMetric::Size => {},
                        StatMetric::CanKill => {},
                        StatMetric::CanMove => {},
                        StatMetric::Food => {},
                        StatMetric::Age => {},
                        StatMetric::OriginalColor => {},
                    }
                }
            } else {
                assert(!sorted_unique(total_of(*self, StatMetric::Health)) || !sorted_unique(total_of(*self, StatMetric::Size))
                    || !sorted_unique(total_of(*self, StatMetric::CanKill)) || !sorted_unique(total_of(*self, StatMetric::CanMove))
                    || !sorted_unique(total_of(*self, StatMetric::Food)) || !sorted_unique(total_of(*self, StatMetric::Age))
                    || !sorted_unique(total_of(*self, StatMetric::OriginalColor)));
            }
        }
        r
    }
}

/// A distribution is taken into the sums when it lists each value once, in
/// increasing order; one that does not is left out.
pub open spec fn counted(p: (StatMetric, Vec<StatBucket>), m: StatMetric) -> bool {
    p.0 == m && sorted_unique(p.1@)
}

/// Sum of the counts of `v` for metric `m` over the distributions of one
/// shard's answer.
pub open spec fn pairs_count(pairs: Seq<(StatMetric, Vec<StatBucket>)>, m: StatMetric, v: i32) -> int
    decreases pairs.len(),
{
    if pairs.len() == 0 {
        0
    } else {
        pairs_count(pairs.drop_last(), m, v) + if counted(pairs.last(), m) { count_for(pairs.last().1@, v) } else { 0 }
    }
}

/// Whether value `v` of metric `m` occurs in one shard's answer.
pub open spec fn pairs_have(pairs: Seq<(StatMetric, Vec<StatBucket>)>, m: StatMetric, v: i32) -> bool
    decreases pairs.len(),
{
    if pairs.len() == 0 {
        false
    } else {
        pairs_have(pairs.drop_last(), m, v) || (counted(pairs.last(), m) && has_value(pairs.last().1@, v))
    }
}

/// Sum of the counts of `v` for metric `m` over all answers.
pub open spec fn results_count(results: Seq<ShardStatResult>, m: StatMetric, v: i32) -> int
    decreases results.len(),
{
    if results.len() == 0 {
        0
    } else {
        results_count(results.drop_last(), m, v) + pairs_count(results.last().metrics@, m, v)
    }
}

/// Whether value `v` of metric `m` occurs in some answer.
pub open spec fn results_have(results: Seq<ShardStatResult>, m: StatMetric, v: i32) -> bool
    decreases results.len(),
{
    if results.len() == 0 {
        false
    } else {
        results_have(results.drop_last(), m, v) || pairs_have(results.last().metrics@, m, v)
    }
}

/// `x`, capped at `u64::MAX`.
pub open spec fn capped(x: int) -> int {
    if x > u64::MAX { u64::MAX as int } else { x }
}

/// The totals are the sums of the answers: each value of each metric that
/// occurs anywhere is listed, with its counts added up (capped at
/// `u64::MAX`).
pub open spec fn sums_of(t: MetricTotals, results: Seq<ShardStatResult>) -> bool {
    &&& t.wf()
    &&& forall|m: StatMetric, v: i32| #[trigger] has_value(total_of(t, m), v) == results_have(results, m, v)
    &&& forall|m: StatMetric, v: i32| #[trigger] count_for(total_of(t, m), v) == capped(results_count(results, m, v))
}

/// No value listed yet.
fn empty_totals() -> (t: MetricTotals)
    ensures
        sums_of(t, Seq::empty()),
{
    let t = MetricTotals {
        health: Vec::new(),
        size: Vec::new(),
        can_kill: Vec::new(),
        can_move: Vec::new(),
        food: Vec::new(),
        age: Vec::new(),
        original_color: Vec::new(),
    };
    assert forall|m: StatMetric| #[trigger] total_of(t, m).len() == 0 by {
        match m {
            StatMetric::Health => {},
            StatMetric::Size => {},
            StatMetric::CanKill => {},
            StatMetric::CanMove => {},
            StatMetric::Food => {},
            StatMetric::Age => {},
            StatMetric::OriginalColor => {},
        }
    }
    assert forall|m: StatMetric, v: i32| #[trigger] has_value(total_of(t, m), v) == results_have(Seq::empty(), m, v) by {
        assert(total_of(t, m).len() == 0);
    }
    assert forall|m: StatMetric, v: i32| #[trigger] count_for(total_of(t, m), v) == capped(results_count(Seq::empty(), m, v)) by {
        assert(total_of(t, m).len() == 0);
    }
    t
}

/// Adds one distribution into the total of its metric.
fn add_into(t: &mut MetricTotals, m: StatMetric, buckets: &Vec<StatBucket>)
    requires
        old(t).wf(),
        sorted_unique(buckets@),
    ensures
        final(t).wf(),
        forall|n: StatMetric| n != m ==> #[trigger] total_of(*final(t), n) == total_of(*old(t), n),
        forall|v: i32| #[trigger] has_value(total_of(*final(t), m), v)
            == (has_value(total_of(*old(t), m), v) || has_value(buckets@, v)),
        forall|v: i32| #[trigger] count_for(total_of(*final(t), m), v)
            == sat_add_u64(count_for(total_of(*old(t), m), v), count_for(buckets@, v)),
{
    proof {
        assert(sorted_unique(total_of(*old(t), m)));
        assert(sorted_unique(total_of(*old(t), StatMetric::Health)));
        assert(sorted_unique(total_of(*old(t), StatMetric::Size)));
        assert(sorted_unique(total_of(*old(t), StatMetric::CanKill)));
        assert(sorted_unique(total_of(*old(t), StatMetric::CanMove)));
        assert(sorted_unique(total_of(*old(t), StatMetric::Food)));
        assert(sorted_unique(total_of(*old(t), StatMetric::Age)));
        assert(sorted_unique(total_of(*old(t), StatMetric::OriginalColor)));
    }
    match m {
        StatMetric::Health => add_buckets(&mut t.health, buckets),
        StatMetric::Size => add_buckets(&mut t.size, buckets),
        StatMetric::CanKill => add_buckets(&mut t.can_kill, buckets),
        StatMetric::CanMove => add_buckets(&mut t.can_move, buckets),
        StatMetric::Food => add_buckets(&mut t.food, buckets),
        StatMetric::Age => add_buckets(&mut t.age, buckets),
        StatMetric::OriginalColor => add_buckets(&mut t.original_color, buckets),
    }
    proof {
        assert forall|n: StatMetric| sorted_unique(#[trigger] total_of(*t, n)) by {
            match n {
                StatMetric::Health => {},
                StatMetric::Size => {},
                StatMetric::CanKill => {},
                StatMetric::CanMove => {},
                StatMetric::Food => {},
                StatMetric::Age => {},
                StatMetric::OriginalColor => {},
            }
        }
    }
}

/// Adding `c >= 0` to a capped sum caps the larger sum.
proof fn lemma_capped_add(a: int, c: int)
    requires
        c >= 0,
    ensures
        sat_add_u64(capped(a), c) == capped(a + c),
{
}

/// Sums the distributions of all answers, metric by metric. A distribution
/// that does not list its values once each, in increasing order, is left
/// out; counts add up to at most `u64::MAX`.
pub fn merge_shard_stats(results: &Vec<ShardStatResult>) -> (t: MetricTotals)
    ensures
        sums_of(t, results@),
{
    let mut t = empty_totals();
    let mut i: usize = 0;
    while i < results.len()
        invariant
            i <= results@.len(),
            sums_of(t, results@.take(i as int)),
        decreases results@.len() - i,
    {
        let pairs = &results[i].metrics;
        let ghost done = results@.take(i as int);
        let mut j: usize = 0;
        while j < pairs.len()
            invariant
                i < results@.len(),
                *pairs == results@[i as int].metrics,
                done == results@.take(i as int),
                j <= pairs@.len(),
                t.wf(),
                forall|m: StatMetric, v: i32| #[trigger] has_value(total_of(t, m), v)
                    == (results_have(done, m, v) || pairs_have(pairs@.take(j as int), m, v)),
                forall|m: StatMetric, v: i32| #[trigger] count_for(total_of(t, m), v)
                    == capped(results_count(done, m, v) + pairs_count(pairs@.take(j as int), m, v)),
            decreases pairs@.len() - j,
        {
            let p = &pairs[j];
            let ghost t0 = t;
            assert(pairs@.take(j as int + 1).drop_last() =~= pairs@.take(j as int));
            if buckets_sorted_unique(&p.1) {
                add_into(&mut t, p.0, &p.1);
                proof {
                    assert forall|m: StatMetric, v: i32| #[trigger] count_for(total_of(t, m), v)
                        == capped(results_count(done, m, v) + pairs_count(pairs@.take(j as int + 1), m, v)) by {
                        if m == p.0 {
                            lemma_capped_add(results_count(done, m, v) + pairs_count(pairs@.take(j as int), m, v),
                                count_for(p.1@, v));
                        }
                    }
                    assert forall|m: StatMetric, v: i32| #[trigger] has_value(total_of(t, m), v)
                        == (results_have(done, m, v) || pairs_have(pairs@.take(j as int + 1), m, v)) by {
                        if m == p.0 {
                            assert(has_value(total_of(t0, m), v) == (results_have(done, m, v) || pairs_have(pairs@.take(j as int), m, v)));
                        }
                    }
                }
            } else {
                proof {
                    assert forall|m: StatMetric, v: i32| #[trigger] count_for(total_of(t, m), v)
                        == capped(results_count(done, m, v) + pairs_count(pairs@.take(j as int + 1), m, v)) by {
                    }
                    assert forall|m: StatMetric, v: i32| #[trigger] has_value(total_of(t, m), v)
                        == (results_have(done, m, v) || pairs_have(pairs@.take(j as int + 1), m, v)) by {
                    }
                }
            }
            j += 1;
        }
        proof {
            assert(pairs@.take(j as int) =~= pairs@);
            assert(results@.take(i as int + 1).drop_last() =~= done);
            assert(results@.take(i as int + 1).last() == results@[i as int]);
        }
        i += 1;
    }
    assert(results@.take(i as int) =~= results@);
    t
}

/// The name under which a colour shows in a histogram: `#rrggbb` for a
/// packed RGB value, the number itself otherwise.
pub open spec fn color_name(v: i32) -> Seq<char> {
    if 0 <= v < 0x1000000 { seq!['#'] + hex6(v as int) } else { signed_decimal(v as int) }
}

/// The colour distribution with each value named.
pub open spec fn named_colors(b: Seq<StatBucket>) -> Seq<(Seq<char>, u64)> {
    b.map_values(|x: StatBucket| (color_name(x.value), x.occs))
}

/// The view of a named distribution.
pub open spec fn named_view(b: Seq<(String, u64)>) -> Seq<(Seq<char>, u64)> {
    b.map_values(|e: (String, u64)| (e.0@, e.1))
}

/// Names the values of a colour distribution, keeping its order.
fn name_colors(b: &Vec<StatBucket>) -> (r: Vec<(String, u64)>)
    ensures
        named_view(r@) == named_colors(b@),
{
    let mut r: Vec<(String, u64)> = Vec::new();
    let mut i: usize = 0;
    while i < b.len()
        invariant
            i <= b@.len(),
            named_view(r@) == named_colors(b@.take(i as int)),
        decreases b@.len() - i,
    {
        let v = b[i].value;
        let mut name = String::new();
        if 0 <= v && v < 0x1000000 {
            push_hex_color(&mut name, v as u32);
        } else {
            push_signed_decimal(&mut name, v as i64);
        }
        assert(name@ =~= color_name(v));
        let ghost r0 = r@;
        let ghost entry = (name@, b[i as int].occs);
        r.push((name, b[i].occs));
        assert(named_view(r@) =~= named_view(r0).push(entry));
        assert(b@.take(i as int + 1) =~= b@.take(i as int).push(b@[i as int]));
        assert(named_colors(b@.take(i as int + 1)) =~= named_colors(b@.take(i as int)).push(entry));
        i += 1;
    }
    assert(b@.take(i as int) =~= b@);
    r
}

/// The histograms of a statistics record.
pub struct Histograms {
    pub health: HistogramCounts,
    pub creature_size: HistogramCounts,
    pub can_kill: HistogramCounts,
    pub can_move: HistogramCounts,
    pub food: HistogramCounts,
    pub age: HistogramCounts,
    pub original_color: HistogramWithoutAverage,
}

/// A statistics record of the colony at one tick.
pub struct CreatureStatistics {
    pub colony_instance_id: String,
    pub tick: u64,
    pub creatures_count: u64,
    pub histograms: Histograms,
    pub meta: Metadata,
}

/// The answer of one shard holds exactly one distribution of metric `m`,
/// and it is the histogram of `s`.
pub open spec fn one_histogram(pairs: Seq<(StatMetric, Vec<StatBucket>)>, m: StatMetric, s: Seq<i32>) -> bool {
    &&& exists|k: int| 0 <= k < pairs.len() && (#[trigger] pairs[k]).0 == m
    &&& forall|k: int| 0 <= k < pairs.len() && (#[trigger] pairs[k]).0 == m ==> is_histogram(pairs[k].1@, s)
    &&& forall|i: int, j: int| 0 <= i < j < pairs.len() && (#[trigger] pairs[i]).0 == m ==> (#[trigger] pairs[j]).0 != m
}

/// The values of metric `m` over the cells of every shard, shard after shard.
pub open spec fn all_values(cells: Seq<Seq<Cell>>, m: StatMetric) -> Seq<i32>
    decreases cells.len(),
{
    if cells.len() == 0 { Seq::empty() } else { all_values(cells.drop_last(), m) + metric_values(cells.last(), m) }
}

/// The number of creatures over the cells of every shard.
pub open spec fn total_living(cells: Seq<Seq<Cell>>) -> int
    decreases cells.len(),
{
    if cells.len() == 0 { 0 } else { total_living(cells.drop_last()) + living_count(cells.last()) }
}

/// Occurrences in a concatenation add up.
proof fn lemma_count_concat(a: Seq<i32>, b: Seq<i32>, v: i32)
    ensures
        count_of(a + b, v) == count_of(a, v) + count_of(b, v),
    decreases b.len(),
{
    if b.len() > 0 {
        assert((a + b).drop_last() =~= a + b.drop_last());
        lemma_count_concat(a, b.drop_last(), v);
    }
}

/// A histogram gives each value its number of occurrences.
proof fn lemma_histogram_count(b: Seq<StatBucket>, s: Seq<i32>, v: i32)
    requires
        is_histogram(b, s),
    ensures
        count_for(b, v) == count_of(s, v),
        has_value(b, v) == (count_of(s, v) > 0),
{
    if has_value(b, v) {
        let i = choose|i: int| 0 <= i < b.len() && (#[trigger] b[i]).value == v;
        lemma_count_for(b, i);
        assert(b[i].occs == count_of(s, b[i].value));
    } else if count_of(s, v) > 0 {
        let i = choose|i: int| 0 <= i < b.len() && #[trigger] b[i].value == v;
        assert(has_value(b, v));
    }
}

/// One shard's answer counts, for metric `m`, what its one histogram counts.
proof fn lemma_pairs_histogram(pairs: Seq<(StatMetric, Vec<StatBucket>)>, m: StatMetric, s: Seq<i32>, v: i32)
    requires
        forall|k: int| 0 <= k < pairs.len() && (#[trigger] pairs[k]).0 == m ==> is_histogram(pairs[k].1@, s),
        forall|i: int, j: int| 0 <= i < j < pairs.len() && (#[trigger] pairs[i]).0 == m ==> (#[trigger] pairs[j]).0 != m,
    ensures
        pairs_count(pairs, m, v) == if exists|k: int| 0 <= k < pairs.len() && (#[trigger] pairs[k]).0 == m { count_of(s, v) } else { 0 },
        pairs_have(pairs, m, v) == ((exists|k: int| 0 <= k < pairs.len() && (#[trigger] pairs[k]).0 == m) && count_of(s, v) > 0),
    decreases pairs.len(),
{
    if pairs.len() > 0 {
        let n = pairs.len() - 1;
        let rest = pairs.drop_last();
        assert forall|k: int| 0 <= k < rest.len() && (#[trigger] rest[k]).0 == m implies is_histogram(rest[k].1@, s) by {
            assert(pairs[k] == rest[k]);
        }
        assert forall|i: int, j: int| 0 <= i < j < rest.len() && (#[trigger] rest[i]).0 == m implies (#[trigger] rest[j]).0 != m by {
            assert(pairs[i] == rest[i] && pairs[j] == rest[j]);
        }
        lemma_pairs_histogram(rest, m, s, v);
        if pairs[n].0 == m {
            assert(is_histogram(pairs[n].1@, s));
            lemma_histogram_count(pairs[n].1@, s, v);
            assert(!exists|k: int| 0 <= k < rest.len() && (#[trigger] rest[k]).0 == m) by {
                if exists|k: int| 0 <= k < rest.len() && (#[trigger] rest[k]).0 == m {
                    let k = choose|k: int| 0 <= k < rest.len() && (#[trigger] rest[k]).0 == m;
                    assert(pairs[k].0 == m);
                }
            }
            assert(pairs[n].0 == m);
        } else {
            if exists|k: int| 0 <= k < pairs.len() && (#[trigger] pairs[k]).0 == m {
                let k = choose|k: int| 0 <= k < pairs.len() && (#[trigger] pairs[k]).0 == m;
                assert(rest[k].0 == m);
            }
            if exists|k: int| 0 <= k < rest.len() && (#[trigger] rest[k]).0 == m {
                let k = choose|k: int| 0 <= k < rest.len() && (#[trigger] rest[k]).0 == m;
                assert(pairs[k].0 == m);
            }
        }
    }
}

/// Summed over the answers, metric `m` counts what the shards' histograms
/// count together.
proof fn lemma_results_histograms(results: Seq<ShardStatResult>, cells: Seq<Seq<Cell>>, m: StatMetric, v: i32)
    requires
        results.len() == cells.len(),
        forall|r: int| 0 <= r < results.len() ==> one_histogram((#[trigger] results[r]).metrics@, m, metric_values(cells[r], m)),
    ensures
        results_count(results, m, v) == count_of(all_values(cells, m), v),
        results_have(results, m, v) == (count_of(all_values(cells, m), v) > 0),
    decreases results.len(),
{
    if results.len() > 0 {
        let n = results.len() - 1;
        let rest = results.drop_last();
        let crest = cells.drop_last();
        assert forall|r: int| 0 <= r < rest.len() implies one_histogram((#[trigger] rest[r]).metrics@, m, metric_values(crest[r], m)) by {
            assert(rest[r] == results[r] && crest[r] == cells[r]);
        }
        lemma_results_histograms(rest, crest, m, v);
        assert(one_histogram(results[n].metrics@, m, metric_values(cells[n], m)));
        lemma_pairs_histogram(results[n].metrics@, m, metric_values(cells[n], m), v);
        lemma_count_concat(all_values(crest, m), metric_values(cells[n], m), v);
    }
}

/// The values counted over all shards are as many as the cells a metric is
/// counted on.
proof fn lemma_all_values_len(cells: Seq<Seq<Cell>>, m: StatMetric)
    requires
        m != StatMetric::Food,
    ensures
        all_values(cells, m).len() == total_living(cells),
    decreases cells.len(),
{
    if cells.len() > 0 {
        lemma_all_values_len(cells.drop_last(), m);
        lemma_metric_values_count(cells.last(), m);
    }
}

/// When each shard answers with the histogram of metric `m` over its cells,
/// the colony-wide sum of the answers is the histogram of `m` over all the
/// shards' cells, as long as no count needs capping.
pub proof fn law_merged_histogram(results: Seq<ShardStatResult>, cells: Seq<Seq<Cell>>, t: MetricTotals, m: StatMetric)
    requires
        results.len() == cells.len(),
        forall|r: int| 0 <= r < results.len() ==> one_histogram((#[trigger] results[r]).metrics@, m, metric_values(cells[r], m)),
        sums_of(t, results),
        all_values(cells, m).len() <= u64::MAX,
    ensures
        is_histogram(total_of(t, m), all_values(cells, m)),
        sum_count(total_of(t, m)) == all_values(cells, m).len(),
{
    let b = total_of(t, m);
    let s = all_values(cells, m);
    assert(sorted_unique(total_of(t, m)));
    assert forall|v: i32| #[trigger] count_for(b, v) == count_of(s, v) && has_value(b, v) == (count_of(s, v) > 0) by {
        lemma_results_histograms(results, cells, m, v);
        lemma_count_le_len(s, v);
        assert(count_for(total_of(t, m), v) == capped(results_count(results, m, v)));
        assert(has_value(total_of(t, m), v) == results_have(results, m, v));
    }
    assert forall|i: int| 0 <= i < b.len() implies #[trigger] b[i].occs == count_of(s, b[i].value) && b[i].occs > 0 by {
        lemma_count_for(b, i);
        assert(count_for(b, b[i].value) == count_of(s, b[i].value));
    }
    assert forall|v: i32| #[trigger] count_of(s, v) > 0 implies exists|i: int| 0 <= i < b.len() && #[trigger] b[i].value == v by {
        assert(count_for(b, v) == count_of(s, v));
        assert(has_value(b, v));
    }
    lemma_histogram_sum(b, s);
}

/// From the shards' answers to the statistics record: when each shard
/// answers with the histogram of `CanKill` over its cells, the merged
/// distribution counts every creature of every shard once, so the record's
/// creature count is the number of creatures in the colony (while that
/// number fits in `u64`).
pub proof fn law_creature_count_end_to_end(results: Seq<ShardStatResult>, cells: Seq<Seq<Cell>>, t: MetricTotals)
    requires
        results.len() == cells.len(),
        forall|r: int| 0 <= r < results.len() ==> one_histogram(
            (#[trigger] results[r]).metrics@,
            StatMetric::CanKill,
            metric_values(cells[r], StatMetric::CanKill),
        ),
        sums_of(t, results),
        total_living(cells) <= u64::MAX,
    ensures
        total_occs(t.can_kill@) == total_living(cells),
{
    lemma_all_values_len(cells, StatMetric::CanKill);
    law_merged_histogram(results, cells, t, StatMetric::CanKill);
    lemma_total_occs_exact(t.can_kill@);
}

/// Builds the statistics record from the colony-wide distributions: the
/// number of creatures is the size of the `CanKill` distribution, which
/// counts every creature once; each numeric metric gets a histogram (the
/// two trait flags as booleans) and the original colours a histogram by
/// name.
pub fn collect_statistics(
    colony_instance_id: String,
    tick: u64,
    colony_width: Option<i32>,
    colony_height: Option<i32>,
    totals: &MetricTotals,
) -> (s: CreatureStatistics)
    requires
        totals.wf(),
    ensures
        s.colony_instance_id == colony_instance_id,
        s.tick == tick,
        s.meta.colony_width == colony_width,
        s.meta.colony_height == colony_height,
        s.creatures_count == total_occs(totals.can_kill@),
        numeric_histogram_of(s.histograms.health, totals.health@, false),
        numeric_histogram_of(s.histograms.creature_size, totals.size@, false),
        numeric_histogram_of(s.histograms.can_kill, totals.can_kill@, true),
        numeric_histogram_of(s.histograms.can_move, totals.can_move@, true),
        numeric_histogram_of(s.histograms.food, totals.food@, false),
        numeric_histogram_of(s.histograms.age, totals.age@, false),
        exists|named: Seq<(String, u64)>| named_view(named) == named_colors(totals.original_color@)
            && #[trigger] named_histogram_of(s.histograms.original_color, named),
{
    proof {
        assert(sorted_unique(total_of(*totals, StatMetric::Health)));
        assert(sorted_unique(total_of(*totals, StatMetric::Size)));
        assert(sorted_unique(total_of(*totals, StatMetric::CanKill)));
        assert(sorted_unique(total_of(*totals, StatMetric::CanMove)));
        assert(sorted_unique(total_of(*totals, StatMetric::Food)));
        assert(sorted_unique(total_of(*totals, StatMetric::Age)));
    }
    let named = name_colors(&totals.original_color);
    let histograms = Histograms {
        health: build_histogram(&totals.health, false),
        creature_size: build_histogram(&totals.size, false),
        can_kill: build_histogram(&totals.can_kill, true),
        can_move: build_histogram(&totals.can_move, true),
        food: build_histogram(&totals.food, false),
        age: build_histogram(&totals.age, false),
        original_color: build_string_histogram(&named),
    };
    assert(named_view(named@) == named_colors(totals.original_color@)
        && named_histogram_of(histograms.original_color, named@));
    CreatureStatistics {
        colony_instance_id,
        tick,
        creatures_count: creatures_count(&totals.can_kill),
        histograms,
        meta: Metadata::now(colony_width, colony_height),
    }
}

} // verus!
