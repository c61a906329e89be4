use colony::cluster::HostInfo;
use colony::latency::{LatencySummary, LatencyTracker, NodeCounts, OperationKey, OperationType, ShardConfig};
use colony::model::Shard;
use std::time::Duration;

fn create_test_host(port: u16) -> HostInfo {
    HostInfo { hostname: "127.0.0.1".to_string(), port }
}

fn nanos(d: Duration) -> u64 {
    d.as_nanos() as u64
}

fn avg_ms(s: &LatencySummary) -> f64 {
    s.total_nanos as f64 / s.sample_count as f64 / 1_000_000.0
}

fn error_rate(n: &NodeCounts) -> f64 {
    let total = n.total_samples + n.total_errors;
    if total > 0 {
        (n.total_errors as f64 / total as f64) * 100.0
    } else {
        0.0
    }
}

#[test]
fn test_record_success_adds_samples() {
    let mut tracker = LatencyTracker::new(100);
    let host = create_test_host(8080);
    let key = OperationKey::new(OperationType::GetShardImage, host);
    tracker.record_success(key.duplicate(), nanos(Duration::from_millis(10)));
    tracker.record_success(key.duplicate(), nanos(Duration::from_millis(20)));
    let stats = tracker.get_stats(&key).expect("Stats should exist");
    assert_eq!(stats.sample_count, 2);
    assert_eq!(avg_ms(&stats), 15.0);
}

#[test]
fn test_rolling_window_maintains_max_samples() {
    let mut tracker = LatencyTracker::new(3);
    let host = create_test_host(8080);
    let key = OperationKey::new(OperationType::GetShardImage, host);
    tracker.record_success(key.duplicate(), nanos(Duration::from_millis(10)));
    tracker.record_success(key.duplicate(), nanos(Duration::from_millis(20)));
    tracker.record_success(key.duplicate(), nanos(Duration::from_millis(30)));
    tracker.record_success(key.duplicate(), nanos(Duration::from_millis(40)));
    let stats = tracker.get_stats(&key).expect("Stats should exist");
    assert_eq!(stats.sample_count, 3);
    assert_eq!(avg_ms(&stats), 30.0);
}

#[test]
fn test_error_counting() {
    let mut tracker = LatencyTracker::new(100);
    let host = create_test_host(8080);
    let key = OperationKey::new(OperationType::GetShardImage, host);
    tracker.record_success(key.duplicate(), nanos(Duration::from_millis(10)));
    tracker.record_error(key.duplicate());
    tracker.record_error(key.duplicate());
    let stats = tracker.get_stats(&key).expect("Stats should exist");
    assert_eq!(stats.sample_count, 1);
    assert_eq!(stats.error_count, 2);
}

#[test]
fn test_node_stats_aggregates_both_operations() {
    let mut tracker = LatencyTracker::new(100);
    let host = create_test_host(8080);
    let image_key = OperationKey::new(OperationType::GetShardImage, host.duplicate());
    let layer_key = OperationKey::new(OperationType::GetShardLayer, host.duplicate());
    tracker.record_success(image_key.duplicate(), nanos(Duration::from_millis(10)));
    tracker.record_success(image_key.duplicate(), nanos(Duration::from_millis(20)));
    tracker.record_error(image_key);
    tracker.record_success(layer_key.duplicate(), nanos(Duration::from_millis(5)));
    tracker.record_error(layer_key.duplicate());
    tracker.record_error(layer_key);
    let node_stats = tracker.get_node_stats(&host);
    assert!(node_stats.image.is_some());
    assert!(node_stats.layer.is_some());
    let total_samples = 2 + 1;
    let total_errors = 1 + 2;
    let expected_error_rate = (total_errors as f64 / (total_samples + total_errors) as f64) * 100.0;
    assert_eq!(error_rate(&node_stats), expected_error_rate);
}

#[test]
fn test_no_samples_returns_none() {
    let tracker = LatencyTracker::new(100);
    let host = create_test_host(8080);
    let key = OperationKey::new(OperationType::GetShardImage, host);
    assert!(tracker.get_stats(&key).is_none());
}

#[test]
fn test_error_rate_calculation() {
    let mut tracker = LatencyTracker::new(100);
    let host = create_test_host(8080);
    let image_key = OperationKey::new(OperationType::GetShardImage, host.duplicate());
    tracker.record_success(image_key.duplicate(), nanos(Duration::from_millis(10)));
    tracker.record_success(image_key.duplicate(), nanos(Duration::from_millis(20)));
    tracker.record_error(image_key.duplicate());
    tracker.record_error(image_key);
    let node_stats = tracker.get_node_stats(&host);
    let expected_error_rate = (2.0 / 4.0) * 100.0;
    assert_eq!(error_rate(&node_stats), expected_error_rate);
}

#[test]
fn keys_of_other_nodes_are_separate() {
    let mut tracker = LatencyTracker::new(2);
    let a = OperationKey::new(OperationType::GetShardImage, create_test_host(1));
    let b = OperationKey::new(OperationType::GetShardImage, create_test_host(2));
    tracker.record_success(a.duplicate(), 7);
    assert!(tracker.get_stats(&b).is_none());
    tracker.record_error(b.duplicate());
    assert!(tracker.get_stats(&b).is_none());
    assert_eq!(tracker.get_stats(&a).unwrap().error_count, 0);
    let n = tracker.get_node_stats(&create_test_host(2));
    assert_eq!(n.total_samples, 0);
    assert_eq!(error_rate(&n), 0.0);
}

#[test]
fn shard_config_grid() {
    let c = ShardConfig { total_width: 1250, total_height: 750, cols: 5, rows: 3 };
    assert_eq!(c.shard_width(), 250);
    assert_eq!(c.shard_height(), 250);
    assert_eq!(c.total_shards(), 15);
    assert_eq!(c.get_shard(0), Shard { x: 0, y: 0, width: 250, height: 250 });
    assert_eq!(c.get_shard(7), Shard { x: 500, y: 250, width: 250, height: 250 });
    assert_eq!(c.get_shard(14), Shard { x: 1000, y: 500, width: 250, height: 250 });
    let empty = ShardConfig { total_width: 100, total_height: 100, cols: 0, rows: 0 };
    assert_eq!(empty.shard_width(), 0);
    assert_eq!(empty.shard_height(), 0);
}

#[test]
fn last_column_and_row_take_the_remainder() {
    let c = ShardConfig { total_width: 1000, total_height: 750, cols: 3, rows: 3 };
    assert_eq!(c.get_shard(0), Shard { x: 0, y: 0, width: 333, height: 250 });
    assert_eq!(c.get_shard(2), Shard { x: 666, y: 0, width: 334, height: 250 });
    assert_eq!(c.get_shard(8), Shard { x: 666, y: 500, width: 334, height: 250 });
    let c = ShardConfig { total_width: 10, total_height: 11, cols: 3, rows: 2 };
    assert_eq!(c.get_shard(4), Shard { x: 3, y: 5, width: 3, height: 6 });
    assert_eq!(c.get_shard(5), Shard { x: 6, y: 5, width: 4, height: 6 });
}

#[test]
fn fetch_outcomes_are_recorded() {
    let mut tracker = LatencyTracker::new(2);
    assert_eq!(tracker.max_samples(), 2);
    let host = create_test_host(9000);
    let key = OperationKey::new(OperationType::GetShardLayer, host.duplicate());
    let other = OperationKey::new(OperationType::GetShardImage, host.duplicate());
    tracker.record_fetch(key.duplicate(), Some(5_000_000));
    tracker.record_fetch(key.duplicate(), None);
    tracker.record_fetch(key.duplicate(), Some(7_000_000));
    tracker.record_fetch(key.duplicate(), Some(9_000_000));
    let stats = tracker.get_stats(&key).expect("samples were recorded");
    assert_eq!(stats, LatencySummary { total_nanos: 16_000_000, sample_count: 2, error_count: 1 });
    assert_eq!(tracker.error_count(&key), 1);
    assert_eq!(tracker.error_count(&other), 0);
    assert!(tracker.get_stats(&other).is_none());
    tracker.record_fetch(other.duplicate(), None);
    let n = tracker.get_node_stats(&host);
    assert_eq!((n.total_samples, n.total_errors), (2, 1));
    assert_eq!(tracker.error_count(&other), 1);
}

#[test]
fn window_keeps_the_latest_samples_in_order() {
    let mut tracker = LatencyTracker::new(3);
    let key = OperationKey::new(OperationType::GetShardImage, create_test_host(7000));
    for (i, ms) in [1u64, 2, 3, 4, 5].iter().enumerate() {
        tracker.record_success(key.duplicate(), ms * 1_000_000);
        let stats = tracker.get_stats(&key).unwrap();
        assert_eq!(stats.sample_count, (i + 1).min(3));
    }
    let stats = tracker.get_stats(&key).unwrap();
    assert_eq!(stats.total_nanos, (3 + 4 + 5) * 1_000_000);
}

#[test]
fn interleaved_calls_keep_each_key_apart() {
    let mut tracker = LatencyTracker::new(2);
    let k = OperationKey::new(OperationType::GetShardImage, create_test_host(1));
    let other = OperationKey::new(OperationType::GetShardImage, create_test_host(2));
    tracker.record_success(k.duplicate(), 1_000_000);
    tracker.record_error(k.duplicate());
    tracker.record_success(other.duplicate(), 9_000_000);
    tracker.record_success(k.duplicate(), 2_000_000);
    tracker.record_error(other.duplicate());
    tracker.record_success(k.duplicate(), 4_000_000);
    tracker.record_error(k.duplicate());
    let s = tracker.get_stats(&k).unwrap();
    assert_eq!(s, LatencySummary { total_nanos: 6_000_000, sample_count: 2, error_count: 2 });
    let o = tracker.get_stats(&other).unwrap();
    assert_eq!(o, LatencySummary { total_nanos: 9_000_000, sample_count: 1, error_count: 1 });
}

#[test]
fn shard_past_the_grid_is_still_placed() {
    let c = ShardConfig { total_width: 1000, total_height: 750, cols: 3, rows: 3 };
    assert_eq!(c.get_shard(9), Shard { x: 0, y: 750, width: 333, height: 250 });
    assert_eq!(c.get_shard(11), Shard { x: 666, y: 750, width: 334, height: 250 });
}
