use colony::backend_node::{
    ticker_sleep_millis, ApplyEventResponse, BackendNode, GetColonyInfoResponse, GetShardCurrentTickResponse,
    GetShardStatsResponse, InitColonyResponse, InitColonyShardResponse, InitShardTopographyResponse,
    StartTickingResponse, TopologySnapshot,
};
use colony::cluster::HostInfo;
use colony::events::ColonyEvent;
use colony::model::{colony_life_initial_rules, Shard};
use colony::shard::get_neighbor_permutations;
use colony::shard_utils::{extract_shard_data, ShardUtils, StatMetric};
use colony::text::format_number_with_commas;
use rand::rngs::SmallRng;
use rand::SeedableRng;

fn host(name: &str, port: u16) -> HostInfo {
    HostInfo::new(name.to_string(), port)
}

fn topology(hosts: Vec<HostInfo>) -> Option<TopologySnapshot> {
    Some(TopologySnapshot { backend_hosts: hosts, shard_map: vec![] })
}

#[test]
fn backend_request_flow() {
    let mut rng = SmallRng::seed_from_u64(12);
    let rules = colony_life_initial_rules();
    let mut node = BackendNode::new(host("0.0.0.0", 8082));
    let s0 = Shard { x: 0, y: 0, width: 10, height: 10 };
    assert_eq!(node.handle_init_colony_shard(s0, rules, None, &mut rng), InitColonyShardResponse::Error);
    assert_eq!(
        node.handle_init_colony_shard(s0, rules, topology(vec![host("127.0.0.1", 9999)]), &mut rng),
        InitColonyShardResponse::Error
    );
    assert_eq!(
        node.handle_init_colony_shard(s0, rules, topology(vec![host("127.0.0.1", 8082)]), &mut rng),
        InitColonyShardResponse::ColonyNotInitialized
    );
    assert_eq!(node.handle_start_ticking(), StartTickingResponse::ColonyNotInitialized);
    assert!(matches!(node.handle_get_colony_info(), GetColonyInfoResponse::ColonyNotInitialized));
    assert_eq!(node.handle_init_colony(20, 10), InitColonyResponse::Success);
    assert_eq!(node.handle_init_colony(20, 10), InitColonyResponse::ColonyAlreadyInitialized);
    assert_eq!(node.handle_init_colony_shard(s0, rules, None, &mut rng), InitColonyShardResponse::Success);
    assert_eq!(node.handle_init_colony_shard(s0, rules, None, &mut rng), InitColonyShardResponse::ShardAlreadyInitialized);
    let outside = Shard { x: 15, y: 0, width: 10, height: 10 };
    assert_eq!(node.handle_init_colony_shard(outside, rules, None, &mut rng), InitColonyShardResponse::InvalidShardDimensions);
    let s1 = Shard { x: 10, y: 0, width: 10, height: 10 };
    assert_eq!(node.handle_init_colony_shard(s1, rules, None, &mut rng), InitColonyShardResponse::Success);
    match node.handle_get_colony_info() {
        GetColonyInfoResponse::Info { width, height, shards, colony_life_rules, current_tick } => {
            assert_eq!((width, height), (20, 10));
            assert_eq!(shards, vec![s0, s1]);
            assert_eq!(colony_life_rules, Some(rules));
            assert_eq!(current_tick, Some(0));
        }
        _ => panic!("expected colony info"),
    }
    assert_eq!(node.handle_get_shard_current_tick(&s1), GetShardCurrentTickResponse::Tick { current_tick: 0 });
    assert_eq!(node.handle_get_shard_current_tick(&outside), GetShardCurrentTickResponse::ShardNotAvailable);
    assert_eq!(node.handle_init_shard_topography(&s0, &vec![3; 100]), InitShardTopographyResponse::Success);
    assert_eq!(node.handle_init_shard_topography(&s0, &vec![3; 99]), InitShardTopographyResponse::InvalidTopographyData);
    assert_eq!(node.handle_init_shard_topography(&outside, &vec![3; 100]), InitShardTopographyResponse::ShardNotInitialized);
    match node.handle_get_shard_stats(&s0, &vec![StatMetric::Food]) {
        GetShardStatsResponse::Stats { stats, tick_count } => {
            assert_eq!(tick_count, 0);
            assert_eq!(stats[0].metrics[0].1[0].value, 3);
            assert_eq!(stats[0].metrics[0].1[0].occs, 100);
        }
        _ => panic!("expected stats"),
    }
    assert_eq!(node.handle_start_ticking(), StartTickingResponse::Success);
    assert!(node.ticking);
    let perms = get_neighbor_permutations();
    let exports = node.ticker_step(&perms);
    assert_eq!(exports.len(), 2);
    assert_eq!(exports[1].updated_shard, s1);
    assert_eq!(node.handle_get_shard_current_tick(&s0), GetShardCurrentTickResponse::Tick { current_tick: 1 });
    assert_eq!(node.handle_apply_event(&ColonyEvent::ChangeExtraFoodPerTick(2), &mut rng), ApplyEventResponse::Success);
    let far = ShardUtils::export_shard_contents(&colony::shard::ColonyShard {
        shard: Shard { x: 20, y: 0, width: 10, height: 10 },
        colony_life_rules: rules,
        grid: vec![colony::model::initial_cell(); 144],
        current_tick: 0,
    });
    node.handle_updated_shard_contents(&far);
    let mut broken = far.clone();
    broken.left.pop();
    node.handle_updated_shard_contents(&broken);
}

#[test]
fn sleep_between_ticks() {
    assert_eq!(ticker_sleep_millis(true), 100);
    assert_eq!(ticker_sleep_millis(false), 25);
}

#[test]
fn shard_part_of_landscape() {
    let global: Vec<u8> = (0..24).collect();
    let d = extract_shard_data(&global, 6, 3, 2, 1, 1);
    assert_eq!(d, vec![15, 16, 17, 21, 22, 23]);
    let d = extract_shard_data(&global, 6, 3, 2, 1, 2);
    assert_eq!(d, vec![0; 6]);
}

#[test]
fn numbers_with_commas() {
    assert_eq!(format_number_with_commas(0), "0");
    assert_eq!(format_number_with_commas(999), "999");
    assert_eq!(format_number_with_commas(1000), "1,000");
    assert_eq!(format_number_with_commas(1234567), "1,234,567");
    assert_eq!(format_number_with_commas(100200), "100,200");
    assert_eq!(format_number_with_commas(u64::MAX), "18,446,744,073,709,551,615");
}
