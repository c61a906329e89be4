use colony::cluster::{HostInfo, NodeAddress};
use colony::model::{colony_life_initial_rules, Shard};
use colony::shard_utils::ShardLayer;
use colony::viewer::{
    any_present, cluster_rows, layer_scale, sorted_backends, match_backend_http_ports, refresh_interval_ms, responsiveness, rule_rows,
    retry_delay_ms, shard_count, shard_layer_to_kebab_case, shows_status, tab_data, LayerScale, PollAction, PollError, PollPhase,
    Responsiveness, Tab, TabData, TopologyPoll, TopologyReply,
};

#[test]
fn tabs_poll_their_layer() {
    assert_eq!(tab_data(Tab::Creatures), TabData::Images);
    assert_eq!(tab_data(Tab::Sizes), TabData::Layer(ShardLayer::CreatureSize));
    assert_eq!(tab_data(Tab::CostPerTurn), TabData::Layer(ShardLayer::CostPerTurn));
    assert_eq!(tab_data(Tab::Stats), TabData::OnDemand);
    assert!(shows_status(Tab::Food));
    assert!(!shows_status(Tab::Cluster));
    assert_eq!(shard_layer_to_kebab_case(ShardLayer::CostPerTurn), "cost-per-turn");
    assert_eq!(shard_layer_to_kebab_case(ShardLayer::ExtraFood), "extra-food");
    assert_eq!(refresh_interval_ms(true), 5000);
    assert_eq!(refresh_interval_ms(false), 100);
}

#[test]
fn responsiveness_thresholds() {
    assert_eq!(responsiveness(0), Responsiveness::Healthy);
    assert_eq!(responsiveness(1000), Responsiveness::Healthy);
    assert_eq!(responsiveness(1001), Responsiveness::Slow);
    assert_eq!(responsiveness(5999), Responsiveness::Slow);
    assert_eq!(responsiveness(6000), Responsiveness::Unresponsive);
}

#[test]
fn layer_scale_uses_largest_value_and_legend() {
    let data = vec![Some(vec![3, 17, 4]), None, Some(vec![9])];
    assert_eq!(layer_scale(&data, None), LayerScale { legend_max: 17, scale_max: 17 });
    assert_eq!(layer_scale(&data, Some(255)), LayerScale { legend_max: 255, scale_max: 255 });
    assert_eq!(layer_scale(&data, Some(10)), LayerScale { legend_max: 10, scale_max: 17 });
    let empty: Vec<Option<Vec<i32>>> = vec![None, None];
    assert_eq!(layer_scale(&empty, None), LayerScale { legend_max: 0, scale_max: 0 });
    assert!(!any_present(&empty));
    assert!(any_present(&data));
}

#[test]
fn backend_http_ports_are_matched_by_address_and_rpc_port() {
    let coordinator = HostInfo::new("127.0.0.1".to_string(), 8082);
    let hosts = vec![
        HostInfo::new("127.0.0.1".to_string(), 8084),
        HostInfo::new("127.0.0.1".to_string(), 8086),
        HostInfo::new("10.0.0.5".to_string(), 8084),
    ];
    let nodes = vec![
        NodeAddress::new("127.0.0.1".to_string(), "127.0.0.1".to_string(), 8082, 8083),
        NodeAddress::new("127.0.0.1".to_string(), "127.0.0.1".to_string(), 8086, 8087),
        NodeAddress::new("127.0.0.1".to_string(), "127.0.0.1".to_string(), 8084, 8085),
        NodeAddress::new("10.0.0.9".to_string(), "1.2.3.4".to_string(), 8084, 9000),
    ];
    assert_eq!(match_backend_http_ports(&nodes, &coordinator, &hosts), vec![Some(8085), Some(8087), None]);
}

#[test]
fn topology_wait_starts_the_colony_and_retries() {
    let mut poll = TopologyPoll::new();
    assert_eq!(poll.on_topology_reply(TopologyReply::NotFound), PollAction::StartColony);
    assert_eq!(poll.on_colony_start(true), PollAction::FetchAfter { delay_ms: 100 });
    assert_eq!(poll.phase, PollPhase::WaitingAfterStart);
    assert_eq!(poll.on_topology_reply(TopologyReply::NotFound), PollAction::FetchAfter { delay_ms: 200 });
    assert_eq!(poll.on_topology_reply(TopologyReply::InProgress), PollAction::FetchAfter { delay_ms: 400 });
    let mut total: u64 = 100 + 200 + 400;
    for _ in 0..7 {
        match poll.on_topology_reply(TopologyReply::NotFound) {
            PollAction::FetchAfter { delay_ms } => total += delay_ms,
            other => panic!("unexpected {:?}", other),
        }
    }
    assert_eq!(total, 10500);
    assert_eq!(
        poll.on_topology_reply(TopologyReply::NotFound),
        PollAction::GiveUp(PollError::NotInitializedAfterStart)
    );
}

#[test]
fn topology_wait_in_progress_then_ready() {
    let mut poll = TopologyPoll::new();
    assert_eq!(poll.on_topology_reply(TopologyReply::InProgress), PollAction::FetchAfter { delay_ms: 100 });
    assert_eq!(poll.phase, PollPhase::WaitingInProgress);
    assert_eq!(poll.on_topology_reply(TopologyReply::InProgress), PollAction::FetchAfter { delay_ms: 200 });
    assert_eq!(poll.on_topology_reply(TopologyReply::NotFound), PollAction::StartColony);
    assert_eq!(poll.on_colony_start(true), PollAction::FetchAfter { delay_ms: 100 });
    assert_eq!(poll.retry_count, 0);
    assert_eq!(poll.on_topology_reply(TopologyReply::Ready), PollAction::Done);
    let mut failed = TopologyPoll::new();
    assert_eq!(failed.on_topology_reply(TopologyReply::NotFound), PollAction::StartColony);
    assert_eq!(failed.on_colony_start(false), PollAction::GiveUp(PollError::ColonyStartFailed));
    let mut broken = TopologyPoll::new();
    assert_eq!(broken.on_topology_reply(TopologyReply::Failed), PollAction::GiveUp(PollError::HttpError));
}

#[test]
fn retry_pauses_double_then_cap() {
    let pauses: Vec<u64> = (0..10).map(retry_delay_ms).collect();
    assert_eq!(pauses, vec![100, 200, 400, 800, 1500, 1500, 1500, 1500, 1500, 1500]);
    assert_eq!(pauses.iter().sum::<u64>(), 10500);
    assert_eq!(retry_delay_ms(u32::MAX), 1500);
}

#[test]
fn rules_table_marks_changed_rules() {
    let mut rules = colony_life_initial_rules();
    rules.mutation_chance = 250;
    let rows = rule_rows(&rules);
    assert_eq!(rows.len(), 6);
    assert_eq!(rows[0], ("Health Cost Per Size Unit:".to_string(), "2".to_string()));
    assert_eq!(rows[4], ("Mutation Chance:".to_string(), "250 (initial=100)".to_string()));
}

#[test]
fn shard_count_per_backend() {
    let a = HostInfo::new("a".to_string(), 1);
    let b = HostInfo::new("b".to_string(), 1);
    let s = |x: i32| Shard { x, y: 0, width: 10, height: 10 };
    let map = vec![(s(0), a.duplicate()), (s(10), b.duplicate()), (s(20), a.duplicate())];
    assert_eq!(shard_count(&map, &a), 2);
    assert_eq!(shard_count(&map, &b), 1);
    assert_eq!(shard_count(&map, &HostInfo::new("a".to_string(), 2)), 0);
}

#[test]
fn cluster_table_sorts_by_name_then_port() {
    let hosts = vec![
        HostInfo::new("b".to_string(), 2),
        HostInfo::new("ab".to_string(), 9),
        HostInfo::new("b".to_string(), 1),
        HostInfo::new("a".to_string(), 5),
    ];
    let sorted: Vec<(String, u16)> = sorted_backends(&hosts).into_iter().map(|h| (h.hostname, h.port)).collect();
    assert_eq!(
        sorted,
        vec![("a".to_string(), 5), ("ab".to_string(), 9), ("b".to_string(), 1), ("b".to_string(), 2)]
    );
    let s = |x: i32| Shard { x, y: 0, width: 10, height: 10 };
    let map = vec![(s(0), HostInfo::new("b".to_string(), 1)), (s(10), HostInfo::new("b".to_string(), 1))];
    let rows: Vec<(String, u16, usize)> =
        cluster_rows(&hosts, &map).into_iter().map(|(h, n)| (h.hostname, h.port, n)).collect();
    assert_eq!(rows[2], ("b".to_string(), 1, 2));
    assert_eq!(rows[0], ("a".to_string(), 5, 0));
}
