use colony::model::{colony_life_initial_rules, initial_cell, Cell, Shard, Traits};
use colony::shard::ColonyShard;
use colony::shard_utils::{ShardStatResult, ShardUtils, StatBucket, StatMetric};
use colony::statistics::{collect_statistics, merge_shard_stats};

fn b(value: i32, occs: u64) -> StatBucket {
    StatBucket { value, occs }
}

fn result(x: i32, metrics: Vec<(StatMetric, Vec<StatBucket>)>) -> ShardStatResult {
    ShardStatResult { shard: Shard { x, y: 0, width: 10, height: 10 }, metrics }
}

#[test]
fn merge_adds_counts_per_metric_across_shards() {
    let results = vec![
        result(0, vec![(StatMetric::Health, vec![b(1, 2), b(5, 3)]), (StatMetric::Age, vec![b(0, 7)])]),
        result(10, vec![(StatMetric::Health, vec![b(5, 4), b(9, 1)])]),
    ];
    let t = merge_shard_stats(&results);
    assert_eq!(t.health, vec![b(1, 2), b(5, 7), b(9, 1)]);
    assert_eq!(t.age, vec![b(0, 7)]);
    assert!(t.size.is_empty());
    assert!(t.is_well_formed());
}

#[test]
fn merge_leaves_out_unsorted_lists_and_saturates() {
    let results = vec![
        result(0, vec![(StatMetric::Food, vec![b(3, 1), b(2, 1)])]),
        result(10, vec![(StatMetric::Food, vec![b(2, u64::MAX)])]),
        result(20, vec![(StatMetric::Food, vec![b(2, 5)])]),
    ];
    let t = merge_shard_stats(&results);
    assert_eq!(t.food, vec![b(2, u64::MAX)]);
}

#[test]
fn statistics_record_counts_creatures_and_names_colors() {
    let results = vec![
        result(0, vec![
            (StatMetric::CanKill, vec![b(0, 30), b(1, 12)]),
            (StatMetric::OriginalColor, vec![b(0x00ff00, 25), b(0xff0000, 21)]),
        ]),
        result(10, vec![(StatMetric::CanKill, vec![b(1, 10)])]),
    ];
    let t = merge_shard_stats(&results);
    let s = collect_statistics("colony-1".to_string(), 42, Some(500), Some(250), &t);
    assert_eq!(s.colony_instance_id, "colony-1");
    assert_eq!(s.tick, 42);
    assert_eq!(s.creatures_count, 52);
    assert_eq!(s.meta.colony_width, Some(500));
    assert_eq!(s.meta.colony_height, Some(250));
    assert_eq!(s.histograms.can_kill.distribution, vec![("0".to_string(), 30), ("1".to_string(), 22)]);
    assert_eq!(s.histograms.can_kill.total_count, 52);
    assert_eq!(s.histograms.can_kill.total_value, 22);
    assert_eq!(
        s.histograms.original_color.distribution,
        vec![("#00ff00".to_string(), 25), ("#ff0000".to_string(), 21)]
    );
    assert_eq!(s.histograms.original_color.unique_values_count, 2);
    assert!(s.histograms.health.distribution.is_empty());
}

#[test]
fn record_counts_every_creature_of_every_shard() {
    let make = |x: i32, alive: &[usize]| {
        let mut grid = vec![initial_cell(); 16];
        for &i in alive {
            let mut c: Cell = initial_cell();
            c.health = 10;
            c.traits = Traits { size: 3, can_kill: i % 2 == 0, can_move: true };
            grid[i] = c;
        }
        ColonyShard {
            shard: Shard { x, y: 0, width: 2, height: 2 },
            colony_life_rules: colony_life_initial_rules(),
            grid,
            current_tick: 0,
        }
    };
    let a = make(0, &[5, 6, 9]);
    let b2 = make(2, &[10]);
    let mut results = ShardUtils::compute_stats(&a, &a.shard.clone(), &[StatMetric::CanKill]).unwrap();
    results.extend(ShardUtils::compute_stats(&b2, &b2.shard.clone(), &[StatMetric::CanKill]).unwrap());
    let t = merge_shard_stats(&results);
    let s = collect_statistics("c".to_string(), 1, None, None, &t);
    assert_eq!(s.creatures_count, 4);
    assert_eq!(t.can_kill, vec![b(0, 2), b(1, 2)]);
}
