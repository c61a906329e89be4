use colony::colony::Colony;
use colony::event_generator::{
    get_next_event_tick_by_frequency, handle_colony_events, randomize_colony_event, randomize_colony_rules_change,
    randomize_event_by_frequency, randomize_event_region, EventFrequency, EventSchedule,
};
use colony::events::{
    apply_event, apply_local_event, backend_event_for, point_inside_region, randomize_event, Circle, ColonyEvent, ColonyRuleChange,
    CreateCreatureParams, Ellipse, RandomTraitParams, Region,
};
use colony::model::{colony_life_initial_rules, initial_cell, white_color, Cell, Color, Shard, Traits};
use colony::shard::{get_neighbor_permutations, ColonyShard};
use colony::shard_utils::ShardUtils;
use rand::rngs::SmallRng;
use rand::SeedableRng;

fn blank_shard(x: i32, y: i32, w: i32, h: i32) -> ColonyShard {
    let n = ((w + 2) * (h + 2)) as usize;
    ColonyShard {
        shard: Shard { x, y, width: w, height: h },
        colony_life_rules: colony_life_initial_rules(),
        grid: vec![initial_cell(); n],
        current_tick: 0,
    }
}

fn creature() -> Cell {
    let mut c = initial_cell();
    c.color = Color { red: 1, green: 2, blue: 3 };
    c.health = 30;
    c
}

fn two_shard_colony() -> Colony {
    let mut colony = Colony::init(20, 10);
    assert!(colony.add_shard(blank_shard(0, 0, 10, 10)));
    assert!(colony.add_shard(blank_shard(10, 0, 10, 10)));
    colony
}

#[test]
fn circle_and_ellipse_membership() {
    let c = Region::Circle(Circle { x: 0, y: 0, radius: 5 });
    assert!(point_inside_region(3, 4, &c));
    assert!(!point_inside_region(4, 4, &c));
    let e = Region::Ellipse(Ellipse { x: 10, y: 10, radius_x: 4, radius_y: 2 });
    assert!(point_inside_region(14, 10, &e));
    assert!(point_inside_region(10, 12, &e));
    assert!(!point_inside_region(10, 13, &e));
    assert!(!point_inside_region(13, 12, &e));
}

#[test]
fn local_death_clears_region_only() {
    let mut colony = two_shard_colony();
    for c in colony.shards[0].grid.iter_mut() {
        *c = creature();
    }
    for c in colony.shards[1].grid.iter_mut() {
        *c = creature();
    }
    let region = Region::Circle(Circle { x: 2, y: 2, radius: 1 });
    let event = ColonyEvent::LocalDeath(region);
    apply_local_event(&mut colony, &event, &region);
    // Grid cell (col, row) stands for colony point (col - 1, row - 1).
    let s = &colony.shards[0];
    assert_eq!(s.grid[3 * 12 + 3].health, 0);
    assert_eq!(s.grid[3 * 12 + 3].color, white_color());
    assert_eq!(s.grid[2 * 12 + 3].health, 0);
    assert_eq!(s.grid[3 * 12 + 4].health, 0);
    assert_eq!(s.grid[2 * 12 + 2].health, 30);
    assert_eq!(s.grid[5 * 12 + 5].health, 30);
    assert!(colony.shards[1].grid.iter().all(|c| c.health == 30));
}

#[test]
fn local_event_skips_the_margin_outside_the_point() {
    let mut colony = two_shard_colony();
    for c in colony.shards[0].grid.iter_mut() {
        *c = creature();
    }
    let region = Region::Circle(Circle { x: 0, y: 0, radius: 0 });
    let event = ColonyEvent::LocalDeath(region);
    apply_local_event(&mut colony, &event, &region);
    let s = &colony.shards[0];
    let cleared: Vec<usize> = (0..s.grid.len()).filter(|&i| s.grid[i].health == 0).collect();
    assert_eq!(cleared, vec![1 * 12 + 1]);
}

#[test]
fn backend_event_priority() {
    let local = ColonyEvent::LocalDeath(Region::Circle(Circle { x: 1, y: 2, radius: 3 }));
    assert!(matches!(backend_event_for(true, true, 2, Some(local.clone())), Some(ColonyEvent::Extinction())));
    assert!(matches!(backend_event_for(false, true, -3, Some(local.clone())), Some(ColonyEvent::ChangeExtraFoodPerTick(-3))));
    match backend_event_for(false, false, 0, Some(local.clone())) {
        Some(ColonyEvent::LocalDeath(Region::Circle(c))) => assert_eq!((c.x, c.y, c.radius), (1, 2, 3)),
        other => panic!("unexpected {:?}", other),
    }
    assert!(backend_event_for(false, false, 0, None).is_none());
}

#[test]
fn far_away_points_are_outside() {
    let c = Region::Circle(Circle { x: i32::MAX, y: 0, radius: 5 });
    assert!(!point_inside_region(i32::MIN as i64, 0, &c));
    assert!(point_inside_region(i32::MAX as i64 + 1, 0, &c));
}

#[test]
fn create_creature_and_random_trait() {
    let mut colony = two_shard_colony();
    let mut rng = SmallRng::seed_from_u64(3);
    let traits = Traits { size: 9, can_kill: false, can_move: true };
    let region = Region::Ellipse(Ellipse { x: 15, y: 5, radius_x: 2, radius_y: 2 });
    let event = ColonyEvent::CreateCreature(region, CreateCreatureParams { color: Color { red: 9, green: 9, blue: 9 }, traits, starting_health: 600 });
    apply_event(&mut rng, &mut colony, &event);
    let s = &colony.shards[1];
    assert_eq!(s.grid[6 * 12 + 6].health, 600);
    assert_eq!(s.grid[6 * 12 + 6].traits, traits);
    assert!(colony.shards[0].grid.iter().all(|c| c.health == 0));
    let new_traits = Traits { size: 2, can_kill: true, can_move: false };
    let event = ColonyEvent::RandomTrait(region, RandomTraitParams { traits: new_traits });
    apply_event(&mut rng, &mut colony, &event);
    assert_eq!(colony.shards[1].grid[6 * 12 + 6].traits, new_traits);
    assert_eq!(colony.shards[1].grid[0].traits, initial_cell().traits);
}

#[test]
fn food_change_saturates() {
    let mut colony = two_shard_colony();
    let mut rng = SmallRng::seed_from_u64(4);
    colony.shards[0].grid[0].extra_food_per_tick = 254;
    colony.shards[0].grid[1].extra_food_per_tick = 2;
    apply_event(&mut rng, &mut colony, &ColonyEvent::ChangeExtraFoodPerTick(3));
    assert_eq!(colony.shards[0].grid[0].extra_food_per_tick, 255);
    assert_eq!(colony.shards[0].grid[1].extra_food_per_tick, 5);
    assert_eq!(colony.shards[1].grid[7].extra_food_per_tick, 53);
    apply_event(&mut rng, &mut colony, &ColonyEvent::ChangeExtraFoodPerTick(-4));
    assert_eq!(colony.shards[0].grid[1].extra_food_per_tick, 1);
    apply_event(&mut rng, &mut colony, &ColonyEvent::ChangeExtraFoodPerTick(-4));
    assert_eq!(colony.shards[0].grid[1].extra_food_per_tick, 0);
}

#[test]
fn extinction_wipes_or_keeps_each_shard() {
    let mut colony = two_shard_colony();
    let mut rng = SmallRng::seed_from_u64(5);
    for _ in 0..10 {
        for s in colony.shards.iter_mut() {
            for c in s.grid.iter_mut() {
                *c = creature();
            }
        }
        apply_event(&mut rng, &mut colony, &ColonyEvent::Extinction());
        for s in &colony.shards {
            let wiped = s.grid.iter().all(|c| c.health == 0 && c.color == white_color());
            let kept = s.grid.iter().all(|c| *c == creature());
            assert!(wiped || kept);
        }
    }
}

#[test]
fn rules_change_reaches_every_shard() {
    let mut colony = two_shard_colony();
    let mut rng = SmallRng::seed_from_u64(6);
    let mut rules = colony_life_initial_rules();
    rules.mutation_chance = 7;
    let change = ColonyRuleChange { new_rules: rules, description: "d".to_string() };
    apply_event(&mut rng, &mut colony, &ColonyEvent::ChangeColonyRules(change));
    assert!(colony.shards.iter().all(|s| s.colony_life_rules == rules));
    let before: Vec<Vec<Cell>> = colony.shards.iter().map(|s| s.grid.clone()).collect();
    apply_event(&mut rng, &mut colony, &ColonyEvent::NewTopography());
    let after: Vec<Vec<Cell>> = colony.shards.iter().map(|s| s.grid.clone()).collect();
    assert_eq!(before, after);
}

#[test]
fn backend_draws_plausible_events() {
    let colony = two_shard_colony();
    let mut rng = SmallRng::seed_from_u64(8);
    let mut seen = 0;
    for _ in 0..2000 {
        if let Some(e) = randomize_event(&colony, &mut rng) {
            seen += 1;
            match e {
                ColonyEvent::ChangeExtraFoodPerTick(a) => assert!((1..=4).contains(&a.abs())),
                ColonyEvent::Extinction() => {}
                ColonyEvent::LocalDeath(r) | ColonyEvent::RandomTrait(r, _) | ColonyEvent::CreateCreature(r, _) => match r {
                    Region::Circle(c) => assert!((5..30).contains(&c.radius) && (-100..120).contains(&c.x)),
                    Region::Ellipse(e) => assert!((15..40).contains(&e.radius_x) && (-100..110).contains(&e.y)),
                },
                _ => panic!("unexpected event"),
            }
        }
    }
    assert!(seen > 0);
}

#[test]
fn coordinator_draws_by_frequency() {
    let mut rng = SmallRng::seed_from_u64(9);
    let rules = colony_life_initial_rules();
    for _ in 0..50 {
        match randomize_colony_event(1250, 750, &mut rng) {
            ColonyEvent::CreateCreature(Region::Ellipse(e), p) => {
                assert!((-100..1350).contains(&e.x) && (-100..850).contains(&e.y));
                assert!((1..20).contains(&p.traits.size));
                assert_eq!(p.starting_health, 600);
            }
            _ => panic!("expected a creature event"),
        }
        assert!(matches!(randomize_event_region(100, 100, &mut rng), Region::Ellipse(_)));
        match randomize_event_by_frequency(EventFrequency::Rare, 100, 100, rules, &mut rng) {
            ColonyEvent::ChangeExtraFoodPerTick(a) => assert!((1..=4).contains(&a.abs())),
            _ => panic!("expected a food change"),
        }
        assert!(matches!(randomize_event_by_frequency(EventFrequency::Extinction, 100, 100, rules, &mut rng), ColonyEvent::Extinction()));
        assert!(matches!(randomize_event_by_frequency(EventFrequency::Topography, 100, 100, rules, &mut rng), ColonyEvent::NewTopography()));
        let t = get_next_event_tick_by_frequency(EventFrequency::Extinction, &mut rng);
        assert!((10000..50000).contains(&t));
        let t = get_next_event_tick_by_frequency(EventFrequency::Normal, &mut rng);
        assert!((400..500).contains(&t));
    }
}

fn rule_values(r: &colony::model::ColonyLifeRules) -> [u32; 6] {
    [r.health_cost_per_size_unit, r.eat_capacity_per_size_unit, r.health_cost_if_can_kill, r.health_cost_if_can_move, r.mutation_chance, r.random_death_chance]
}

#[test]
fn rules_change_moves_one_rule() {
    let names = ["Health Cost Per Size Unit", "Eat Capacity Per Size Unit", "Health Cost If Can Kill", "Health Cost If Can Move", "Mutation Chance", "Random Death Chance"];
    let mut rng = SmallRng::seed_from_u64(10);
    let mut rules = colony_life_initial_rules();
    rules.health_cost_per_size_unit = 1;
    for _ in 0..100 {
        let before = rule_values(&rules);
        match randomize_colony_rules_change(rules, &mut rng) {
            ColonyEvent::ChangeColonyRules(ch) => {
                let after = rule_values(&ch.new_rules);
                let changed: Vec<usize> = (0..6).filter(|&i| before[i] != after[i]).collect();
                assert!(changed.len() <= 1);
                for i in changed {
                    let step = (before[i] + 4) / 5;
                    let step = if step > 0 { step } else { 1 };
                    assert!(after[i] >= 1);
                    assert!(after[i] <= before[i] + step && after[i] + step >= before[i]);
                    let word = if after[i] > before[i] { "Increased" } else { "Decreased" };
                    assert_eq!(ch.description, format!("{} '{}' from {} to {}", word, names[i], before[i], after[i]));
                }
                rules = ch.new_rules;
            }
            _ => panic!("expected a rules change"),
        }
    }
}

#[test]
fn schedule_draws_due_events() {
    let mut rng = SmallRng::seed_from_u64(11);
    let rules = colony_life_initial_rules();
    let mut schedule = EventSchedule::new();
    let events = handle_colony_events(100, &mut schedule, 1250, 750, rules, &mut rng);
    assert!(events.is_empty());
    let normal = schedule.next_event_ticks[0].unwrap();
    assert!((500..600).contains(&normal));
    assert!(schedule.next_event_ticks[4].is_none());
    let events = handle_colony_events(normal, &mut schedule, 1250, 750, rules, &mut rng);
    assert_eq!(events.len(), 1);
    assert!(matches!(events[0], ColonyEvent::CreateCreature(_, _)));
    let next = schedule.next_event_ticks[0].unwrap();
    assert!(next >= normal + 400 && next < normal + 500);
    let events = handle_colony_events(100000, &mut schedule, 1250, 750, rules, &mut rng);
    assert_eq!(events.len(), 4);
    assert!(matches!(events[1], ColonyEvent::ChangeExtraFoodPerTick(_)));
    assert!(matches!(events[2], ColonyEvent::Extinction()));
    assert!(matches!(events[3], ColonyEvent::NewTopography()));
}

#[test]
fn colony_hosts_each_shard_once() {
    let mut colony = Colony::init(100, 100);
    assert!(colony.add_shard(blank_shard(0, 0, 10, 10)));
    assert!(!colony.add_shard(blank_shard(0, 0, 10, 10)));
    assert!(colony.has_shard(Shard { x: 0, y: 0, width: 10, height: 10 }));
    assert!(!colony.has_shard(Shard { x: 10, y: 0, width: 10, height: 10 }));
    assert_eq!(colony.get_all_shards(), vec![Shard { x: 0, y: 0, width: 10, height: 10 }]);
    assert!(colony.get_colony_shard(&Shard { x: 0, y: 0, width: 10, height: 10 }).is_some());
    assert!(colony.is_valid_shard_dimensions(&Shard { x: 90, y: 0, width: 10, height: 100 }));
    assert!(!colony.is_valid_shard_dimensions(&Shard { x: 91, y: 0, width: 10, height: 10 }));
    assert!(!colony.is_valid_shard_dimensions(&Shard { x: 0, y: 0, width: 0, height: 10 }));
}

#[test]
fn colony_tick_exchanges_borders() {
    let mut colony = two_shard_colony();
    let perms = get_neighbor_permutations();
    colony.shards[0].grid[5 * 12 + 10] = creature();
    let exports = colony.tick_shards(&perms);
    assert_eq!(exports.len(), 2);
    assert!(colony.shards.iter().all(|s| s.current_tick == 1));
    for e in &exports {
        colony.apply_export(e);
    }
    let left_border: Vec<Cell> = (1..=10).map(|r| colony.shards[0].grid[r * 12 + 10]).collect();
    let right_shadow: Vec<Cell> = (1..=10).map(|r| colony.shards[1].grid[r * 12]).collect();
    for (b, s) in left_border.iter().zip(right_shadow.iter()) {
        if b.health > 0 {
            assert_eq!(b.color, s.color);
            assert_eq!(b.health, s.health);
        }
    }
    let export = ShardUtils::export_shard_contents(&colony.shards[0]);
    assert_eq!(export.right, left_border);
}

#[test]
fn schedule_moves_every_class_past_the_tick() {
    let mut rng = SmallRng::seed_from_u64(12);
    let rules = colony_life_initial_rules();
    let mut schedule = EventSchedule::new();
    let first = handle_colony_events(0, &mut schedule, 1250, 750, rules, &mut rng);
    assert!(first.is_empty());
    for tick in [0u64, 450, 1900, 9000, 60000] {
        let _ = handle_colony_events(tick, &mut schedule, 1250, 750, rules, &mut rng);
        for k in 0..4 {
            assert!(schedule.next_event_ticks[k].unwrap() > tick);
        }
    }
}
