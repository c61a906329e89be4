use colony::colony_stats::{
    add_buckets, all_stat_metrics, build_histogram, build_string_histogram, creatures_count,
    enumerate_all_stat_metric_variants, format_tick_filename, Metadata,
};
use colony::shard_utils::StatBucket;
use std::mem::discriminant;

#[test]
fn test_all_stat_metrics_completeness() {
    let metrics = all_stat_metrics();
    let all_variants = enumerate_all_stat_metric_variants();
    assert_eq!(
        metrics.len(),
        all_variants.len(),
        "all_stat_metrics() should return {} metrics (one for each StatMetric variant)",
        all_variants.len()
    );
    for metric in &metrics {
        let disc = discriminant(metric);
        let count = metrics.iter().filter(|m| discriminant(*m) == disc).count();
        assert_eq!(count, 1, "Duplicate entry found in all_stat_metrics(): {:?} appears {} times", metric, count);
    }
    for variant in &all_variants {
        let variant_disc = discriminant(variant);
        let found = metrics.iter().any(|m| discriminant(m) == variant_disc);
        assert!(found, "StatMetric variant {:?} is missing from all_stat_metrics(). Add it to the function.", variant);
    }
    for metric in &metrics {
        let metric_disc = discriminant(metric);
        let found = all_variants.iter().any(|v| discriminant(v) == metric_disc);
        assert!(found, "all_stat_metrics() contains unexpected variant {:?} that is not in StatMetric enum", metric);
    }
}

#[test]
fn test_all_stat_metrics_ordering() {
    let metrics1 = all_stat_metrics();
    let metrics2 = all_stat_metrics();
    assert_eq!(metrics1.len(), metrics2.len(), "all_stat_metrics() should return consistent length");
    for (i, (m1, m2)) in metrics1.iter().zip(metrics2.iter()).enumerate() {
        assert_eq!(
            discriminant(m1),
            discriminant(m2),
            "all_stat_metrics() should return metrics in consistent order. Mismatch at index {}: {:?} != {:?}",
            i,
            m1,
            m2
        );
    }
}

fn b(value: i32, occs: u64) -> StatBucket {
    StatBucket { value, occs }
}

#[test]
fn tick_filename_is_zero_padded() {
    assert_eq!(format_tick_filename(20), "0000020");
    assert_eq!(format_tick_filename(0), "0000000");
    assert_eq!(format_tick_filename(1234567), "1234567");
    assert_eq!(format_tick_filename(12345678), "12345678");
}

#[test]
fn histogram_keeps_frequent_values_and_sums() {
    let counts = vec![b(-3, 25), b(1, 19), b(2, 40), b(7, 25)];
    let h = build_histogram(&counts, false);
    let dist: Vec<(String, u64)> = h.distribution.clone();
    assert_eq!(dist, vec![("2".to_string(), 40), ("-3".to_string(), 25), ("7".to_string(), 25)]);
    assert_eq!(h.unique_values_count, 3);
    assert!(!h.was_cut);
    assert_eq!(h.total_count, 25 + 19 + 40 + 25);
    assert_eq!(h.total_value, -3 * 25 + 19 + 80 + 7 * 25);
}

#[test]
fn histogram_boolean_keys() {
    let counts = vec![b(0, 30), b(1, 50)];
    let h = build_histogram(&counts, true);
    assert_eq!(h.distribution, vec![("1".to_string(), 50), ("0".to_string(), 30)]);
}

#[test]
fn histogram_cut_to_twenty() {
    let counts: Vec<StatBucket> = (0..30).map(|v| b(v, 20 + v as u64)).collect();
    let h = build_histogram(&counts, false);
    assert_eq!(h.unique_values_count, 30);
    assert!(h.was_cut);
    assert_eq!(h.distribution.len(), 20);
    assert_eq!(h.distribution[0], ("29".to_string(), 49));
    assert_eq!(h.distribution[19], ("10".to_string(), 30));
}

#[test]
fn empty_histogram() {
    let h = build_histogram(&vec![], false);
    assert!(h.distribution.is_empty());
    assert_eq!(h.total_count, 0);
    assert_eq!(h.unique_values_count, 0);
}

#[test]
fn string_histogram_ranks_by_count() {
    let counts = vec![("#000000".to_string(), 20), ("#00ff00".to_string(), 5), ("#ff0000".to_string(), 80)];
    let h = build_string_histogram(&counts);
    assert_eq!(h.distribution, vec![("#ff0000".to_string(), 80), ("#000000".to_string(), 20)]);
    assert_eq!(h.unique_values_count, 2);
    assert!(!h.was_cut);
}

#[test]
fn buckets_add_up_across_shards() {
    let mut acc = vec![b(1, 2), b(5, 3)];
    add_buckets(&mut acc, &vec![b(0, 1), b(5, 4), b(9, u64::MAX)]);
    assert_eq!(acc, vec![b(0, 1), b(1, 2), b(5, 7), b(9, u64::MAX)]);
    add_buckets(&mut acc, &vec![b(9, 1)]);
    assert_eq!(acc[3], b(9, u64::MAX));
    assert_eq!(creatures_count(&vec![b(0, 4), b(1, 6)]), 10);
    assert_eq!(creatures_count(&acc), u64::MAX);
}

#[test]
fn metadata_keeps_size() {
    let m = Metadata::now(Some(1250), Some(750));
    assert_eq!(m.colony_width, Some(1250));
    assert_eq!(m.colony_height, Some(750));
    assert!(!m.created_at_utc.is_empty());
}

#[test]
fn histogram_shape_holds_for_many_values() {
    let counts: Vec<StatBucket> = (0..40).map(|v| StatBucket { value: v, occs: 10 + (v as u64 * 7) % 50 }).collect();
    let h = build_histogram(&counts, false);
    assert!(h.distribution.len() <= 20);
    assert!(h.distribution.iter().all(|(_, c)| *c >= 20));
    assert!(h.distribution.windows(2).all(|w| w[0].1 >= w[1].1));
    let flags = vec![StatBucket { value: 0, occs: 25 }, StatBucket { value: 1, occs: 40 }];
    let h = build_histogram(&flags, true);
    assert_eq!(h.distribution, vec![("1".to_string(), 40), ("0".to_string(), 25)]);
}
