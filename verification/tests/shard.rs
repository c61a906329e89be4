use colony::model::{colony_life_initial_rules, initial_cell, is_blank, white_color, Cell, Color, Shard, Traits};
use colony::shard::{calculate_health_cost_for_cell, get_neighbor_permutations, get_neighbors, in_grid_range, neighbor_offsets_array, ColonyShard};
use colony::shard_utils::{ShardLayer, ShardStorage, ShardTopography, ShardUtils, StatBucket, StatMetric, Topography};
use rand::rngs::SmallRng;
use rand::SeedableRng;

fn blank_shard(x: i32, y: i32, w: i32, h: i32) -> ColonyShard {
    let n = ((w + 2) * (h + 2)) as usize;
    ColonyShard {
        shard: Shard { x, y, width: w, height: h },
        colony_life_rules: colony_life_initial_rules(),
        grid: vec![initial_cell(); n],
        current_tick: 0,
    }
}

fn creature(size: u8, health: u16) -> Cell {
    let mut c = initial_cell();
    c.color = Color { red: 10, green: 20, blue: 30 };
    c.original_color = c.color;
    c.health = health;
    c.age = 7;
    c.traits = Traits { size, can_kill: true, can_move: false };
    c
}

#[test]
fn new_shard_is_seeded() {
    let mut rng = SmallRng::seed_from_u64(1);
    let shard = Shard { x: 0, y: 0, width: 20, height: 10 };
    let cs = ShardUtils::new_colony_shard(&shard, &colony_life_initial_rules(), &mut rng);
    assert_eq!(cs.grid.len(), 22 * 12);
    assert_eq!(cs.get_current_tick(), 0);
    assert_eq!(cs.shard, shard);
    for c in &cs.grid {
        if is_blank(c) {
            assert_eq!(*c, initial_cell());
        } else {
            assert_eq!(c.health, 20);
            assert_eq!(c.traits.size, 18);
        }
    }
}

#[test]
fn tick_advances_and_flips_tick_bits() {
    let mut rng = SmallRng::seed_from_u64(2);
    let perms = get_neighbor_permutations();
    assert_eq!(perms.perms.len(), 100);
    let mut cs = ShardUtils::new_colony_shard(&Shard { x: 0, y: 0, width: 12, height: 9 }, &colony_life_initial_rules(), &mut rng);
    let before = cs.grid[12 + 4].tick_bit;
    for t in 1..=5u64 {
        let bit = cs.grid[12 + 4].tick_bit;
        cs.tick(&mut rng, &perms);
        assert_eq!(cs.get_current_tick(), t);
        assert!(cs.grid.iter().all(|c| c.tick_bit == !bit));
    }
    assert_eq!(cs.grid[12 + 4].tick_bit, !before);
    let (t, f) = ShardUtils::count_tick_bits(&cs);
    assert_eq!(t + f, cs.grid.len());
}

#[test]
fn shadow_margin_tick_bits() {
    let mut cs = blank_shard(0, 0, 3, 2);
    ShardUtils::set_shadow_margin_tick_bits(&mut cs, true);
    let (t, f) = ShardUtils::count_tick_bits(&cs);
    assert_eq!(t, 5 * 4 - 3 * 2);
    assert_eq!(f, 3 * 2);
    assert!(!cs.grid[5 + 1].tick_bit);
    assert!(cs.grid[0].tick_bit && cs.grid[5 + 4].tick_bit && cs.grid[15].tick_bit);
}

#[test]
fn health_cost_formula() {
    let rules = colony_life_initial_rules();
    assert_eq!(calculate_health_cost_for_cell(&creature(3, 1), &rules), 3 * 2 + 10);
    let mut c = creature(255, 1);
    c.traits.can_kill = false;
    assert_eq!(calculate_health_cost_for_cell(&c, &rules), 510);
}

#[test]
fn grid_range_and_neighbours() {
    assert!(in_grid_range(5, 4, 0, 0));
    assert!(in_grid_range(5, 4, 4, 3));
    assert!(!in_grid_range(5, 4, 5, 0));
    assert!(!in_grid_range(5, 4, -1, 2));
    let offsets = neighbor_offsets_array();
    let w = 5usize;
    let h = 4usize;
    assert_eq!(get_neighbors(2, 2, w, h, &offsets, 2 * w + 2).len(), 8);
    assert_eq!(get_neighbors(0, 0, w, h, &offsets, 0).len(), 3);
}

#[test]
fn image_and_layers_read_the_interior() {
    let mut cs = blank_shard(0, 0, 3, 2);
    cs.grid[5 + 2] = creature(4, 100);
    let img = ShardUtils::get_shard_image(&cs, &cs.shard.clone()).unwrap();
    assert_eq!(img.len(), 6);
    assert_eq!(img[1], Color { red: 10, green: 20, blue: 30 });
    assert_eq!(img[0], white_color());
    assert!(ShardUtils::get_shard_image(&cs, &Shard { x: 1, y: 0, width: 3, height: 2 }).is_none());
    let sizes = ShardUtils::get_shard_layer(&cs, &cs.shard.clone(), &ShardLayer::CreatureSize).unwrap();
    assert_eq!(sizes, vec![0, 4, 0, 0, 0, 0]);
    let kill = ShardUtils::get_shard_layer(&cs, &cs.shard.clone(), &ShardLayer::CanKill).unwrap();
    assert_eq!(kill, vec![0, 2, 0, 0, 0, 0]);
    let mv = ShardUtils::get_shard_layer(&cs, &cs.shard.clone(), &ShardLayer::CanMove).unwrap();
    assert_eq!(mv, vec![0, 1, 0, 0, 0, 0]);
    let cost = ShardUtils::get_shard_layer(&cs, &cs.shard.clone(), &ShardLayer::CostPerTurn).unwrap();
    assert_eq!(cost, vec![0, 18, 0, 0, 0, 0]);
    let food = ShardUtils::get_shard_layer(&cs, &cs.shard.clone(), &ShardLayer::Food).unwrap();
    assert_eq!(food, vec![50; 6]);
    let health = ShardUtils::get_shard_layer(&cs, &cs.shard.clone(), &ShardLayer::Health).unwrap();
    assert_eq!(health, vec![0, 100, 0, 0, 0, 0]);
    let age = ShardUtils::get_shard_layer(&cs, &cs.shard.clone(), &ShardLayer::Age).unwrap();
    assert_eq!(age, vec![0, 7, 0, 0, 0, 0]);
    let extra = ShardUtils::get_shard_layer(&cs, &cs.shard.clone(), &ShardLayer::ExtraFood).unwrap();
    assert_eq!(extra, vec![50; 6]);
}

#[test]
fn stats_count_values() {
    let mut cs = blank_shard(0, 0, 3, 2);
    cs.grid[5 + 1] = creature(4, 100);
    cs.grid[5 + 2] = creature(4, 50);
    cs.grid[10 + 3] = creature(9, 100);
    let res = ShardUtils::compute_stats(&cs, &cs.shard.clone(), &[StatMetric::Size, StatMetric::Food, StatMetric::Health, StatMetric::OriginalColor]).unwrap();
    assert_eq!(res.len(), 1);
    let m = &res[0].metrics;
    assert_eq!(m[0].1, vec![StatBucket { value: 4, occs: 2 }, StatBucket { value: 9, occs: 1 }]);
    assert_eq!(m[1].1, vec![StatBucket { value: 50, occs: 6 }]);
    assert_eq!(m[2].1, vec![StatBucket { value: 50, occs: 1 }, StatBucket { value: 100, occs: 2 }]);
    assert_eq!(m[3].1, vec![StatBucket { value: 10 * 65536 + 20 * 256 + 30, occs: 3 }]);
    assert!(ShardUtils::compute_stats(&cs, &Shard { x: 0, y: 0, width: 3, height: 3 }, &[StatMetric::Age]).is_none());
}

#[test]
fn border_exchange_fills_shadow_lanes() {
    let mut upper = blank_shard(0, 0, 3, 2);
    let mut lower = blank_shard(0, 2, 3, 2);
    upper.grid[2 * 5 + 2] = creature(6, 80);
    let export = ShardUtils::export_shard_contents(&upper);
    assert_eq!(export.bottom[1], creature(6, 80));
    assert_eq!(export.top.len(), 3);
    assert_eq!(export.left.len(), 2);
    let bit = lower.grid[3 + 4].tick_bit;
    ShardUtils::updated_shard_contents(&mut lower, &export);
    let shadow = lower.grid[2];
    assert_eq!(shadow.health, 80);
    assert_eq!(shadow.traits.size, 6);
    assert_eq!(shadow.tick_bit, bit);
    assert!(ShardUtils::is_adjacent_shard(&upper.shard, &lower.shard));
    assert!(ShardUtils::is_adjacent_shard(&lower.shard, &upper.shard));
    let far = blank_shard(10, 10, 3, 2);
    let before = lower.grid.clone();
    ShardUtils::updated_shard_contents(&mut lower, &ShardUtils::export_shard_contents(&far));
    assert_eq!(lower.grid, before);
    assert!(!ShardUtils::is_adjacent_shard(&upper.shard, &far.shard));
}

#[test]
fn blank_border_keeps_shown_creature() {
    let mut left = blank_shard(0, 0, 2, 2);
    let mut right = blank_shard(2, 0, 2, 2);
    right.grid[4] = creature(3, 9);
    let export = ShardUtils::export_shard_contents(&left);
    ShardUtils::updated_shard_contents(&mut right, &export);
    assert_eq!(right.grid[4], creature(3, 9));
    left.grid[4 + 2] = creature(5, 5);
    let export = ShardUtils::export_shard_contents(&left);
    ShardUtils::updated_shard_contents(&mut right, &export);
    assert_eq!(right.grid[4].traits.size, 5);
}

#[test]
fn topography_from_data() {
    let mut cs = blank_shard(0, 0, 2, 2);
    assert!(ShardTopography::init_shard_topography_from_data(&mut cs, &[1, 2, 3]).is_err());
    assert_eq!(cs.grid[5].food, 50);
    assert!(ShardTopography::init_shard_topography_from_data(&mut cs, &[1, 2, 3, 4]).is_ok());
    let foods: Vec<u8> = cs.grid.iter().map(|c| c.food).collect();
    assert_eq!(foods, vec![0, 0, 0, 0, 0, 1, 2, 0, 0, 3, 4, 0, 0, 0, 0, 0]);
    let extras: Vec<u8> = cs.grid.iter().map(|c| c.extra_food_per_tick).collect();
    assert_eq!(extras, foods);
    let levels: Vec<u8> = (0..16).collect();
    Topography::apply_food_levels(&mut cs, &levels);
    assert_eq!(cs.grid[15].food, 15);
    assert_eq!(cs.grid[15].extra_food_per_tick, 15);
    ShardUtils::store_shard(&cs);
}

#[test]
fn restore_takes_stored_state() {
    let mut cs = blank_shard(0, 0, 2, 2);
    let mut stored = blank_shard(0, 0, 2, 2);
    stored.current_tick = 42;
    stored.grid[5] = creature(2, 2);
    ShardStorage::restore_shard(&mut cs, stored);
    assert_eq!(cs.current_tick, 42);
    assert_eq!(cs.grid[5], creature(2, 2));
}

#[test]
fn layer_position_is_row_times_width_plus_column() {
    let mut cs = blank_shard(0, 0, 4, 3);
    let w = 4usize;
    for y in 0..3usize {
        for x in 0..4usize {
            cs.grid[(y + 1) * (w + 2) + x + 1] = creature((1 + y * 4 + x) as u8, 10);
        }
    }
    let sizes = ShardUtils::get_shard_layer(&cs, &cs.shard.clone(), &ShardLayer::CreatureSize).unwrap();
    assert_eq!(sizes.len(), 12);
    for y in 0..3usize {
        for x in 0..4usize {
            assert_eq!(sizes[y * w + x], (1 + y * 4 + x) as i32);
        }
    }
}

#[test]
fn creature_buckets_add_up_to_living_cells() {
    let mut cs = blank_shard(0, 0, 3, 2);
    cs.grid[5 + 1] = creature(4, 100);
    cs.grid[5 + 3] = creature(2, 50);
    cs.grid[10 + 2] = creature(9, 100);
    let res = ShardUtils::compute_stats(&cs, &cs.shard.clone(), &[StatMetric::CanKill, StatMetric::Food]).unwrap();
    let kill: u64 = res[0].metrics[0].1.iter().map(|b| b.occs).sum();
    let food: u64 = res[0].metrics[1].1.iter().map(|b| b.occs).sum();
    assert_eq!(kill, 3);
    assert_eq!(food, 6);
}
