use colony::coordinator_storage::{
    route_coordinator_request, ColonyEventDescription, ColonyStartReply, ColonyStatus, CoordinatorRoute,
    CoordinatorStoredInfo, TopologyAnswer, most_recent_events,
};
use colony::http::{build_http_bind_addr, events_limit, parse_query_param, parse_usize};

#[test]
fn http_server_address_format() {
    let coordinator_http_port = 8083;
    let addr = format!("127.0.0.1:{}", coordinator_http_port);
    assert_eq!(addr, "127.0.0.1:8083");
}

#[test]
fn bind_address_uses_all_interfaces() {
    assert_eq!(build_http_bind_addr(8083), "0.0.0.0:8083");
    assert_eq!(build_http_bind_addr(0), "0.0.0.0:0");
    assert_eq!(build_http_bind_addr(65535), "0.0.0.0:65535");
}

#[test]
fn query_param_found_in_request_line() {
    let req = "POST /colony-start?idempotency_key=abc-123 HTTP/1.1\r\nHost: x\r\n\r\n";
    assert_eq!(parse_query_param(req, "idempotency_key"), Some("abc-123".to_string()));
    let req = "POST /colony-start?idempotency_key=abc-123 HTTP/1.1";
    assert_eq!(parse_query_param(req, "idempotency_key"), Some("abc-123".to_string()));
}

#[test]
fn query_param_first_match_among_pairs() {
    let req = "GET /api/colony-events?x=1&limit=5&limit=9 HTTP/1.1\r\n";
    assert_eq!(parse_query_param(req, "limit"), Some("5".to_string()));
    assert_eq!(parse_query_param(req, "x"), Some("1".to_string()));
    assert_eq!(parse_query_param(req, "y"), None);
}

#[test]
fn query_value_ends_before_the_protocol() {
    let req = "GET /api/colony-events?limit=5 HTTP/1.1\r\nHost: x\r\n\r\n";
    assert_eq!(parse_query_param(req, "limit"), Some("5".to_string()));
    assert_eq!(events_limit(req), 5);
    assert_eq!(parse_query_param("GET /a?k=v\r\nx y", "k"), Some("v".to_string()));
}

#[test]
fn query_param_absent_without_question_mark() {
    assert_eq!(parse_query_param("GET /api/colony-events HTTP/1.1\r\n", "limit"), None);
}

#[test]
fn query_param_cut_at_line_feed_or_space() {
    assert_eq!(parse_query_param("GET /a?k=v\nrest", "k"), Some("v".to_string()));
    assert_eq!(parse_query_param("GET /a?k=v w", "k"), Some("v".to_string()));
    assert_eq!(parse_query_param("GET /a?k=v", "k"), Some("v".to_string()));
    assert_eq!(parse_query_param("GET /a?k=", "k"), Some("".to_string()));
    assert_eq!(parse_query_param("GET /a?k", "k"), None);
}

#[test]
fn usize_parsing_matches_std() {
    for s in ["0", "30", "+7", "007", "18446744073709551615", "", "+", "-1", "1a", " 1", "18446744073709551616"] {
        assert_eq!(parse_usize(s), s.parse::<usize>().ok(), "input {:?}", s);
    }
}

#[test]
fn events_limit_defaults_to_thirty() {
    assert_eq!(events_limit("GET /api/colony-events HTTP/1.1"), 30);
    assert_eq!(events_limit("GET /api/colony-events?limit=5 HTTP/1.1"), 5);
    assert_eq!(events_limit("GET /api/colony-events?limit=abc HTTP/1.1"), 30);
}

#[test]
fn coordinator_routes() {
    assert_eq!(route_coordinator_request("POST /colony-start?idempotency_key=k HTTP/1.1"), CoordinatorRoute::ColonyStart);
    assert_eq!(route_coordinator_request("GET /api/colony-events?limit=3 HTTP/1.1"), CoordinatorRoute::ColonyEvents);
    assert_eq!(route_coordinator_request("GET /topology HTTP/1.1"), CoordinatorRoute::Topology);
    assert_eq!(route_coordinator_request("GET /debug-ssm HTTP/1.1"), CoordinatorRoute::DebugSsm);
    assert_eq!(route_coordinator_request("GET /colony-start HTTP/1.1"), CoordinatorRoute::Index);
    assert_eq!(route_coordinator_request("GET /anything HTTP/1.1"), CoordinatorRoute::Index);
    assert_eq!(route_coordinator_request("PUT /x HTTP/1.1"), CoordinatorRoute::NotFound);
}

#[test]
fn colony_start_replies() {
    let mut info = CoordinatorStoredInfo::new();
    assert_eq!(info.colony_start_reply(&None), ColonyStartReply::MissingKey);
    assert_eq!(info.status, ColonyStatus::NotInitialized);
    assert_eq!(info.colony_start_reply(&Some("k1".to_string())), ColonyStartReply::Accepted);
    assert_eq!(info.status, ColonyStatus::Initializing);
    info.colony_start_idempotency_key = Some("k1".to_string());
    info.mark_topography_initialized();
    assert!(info.is_colony_already_started());
    assert_eq!(info.colony_start_reply(&Some("k1".to_string())), ColonyStartReply::AlreadyStartedSameKey);
    assert_eq!(info.colony_start_reply(&Some("k2".to_string())), ColonyStartReply::Conflict);
    assert!(info.matches_stored_idempotency_key("k1"));
    assert!(!info.matches_stored_idempotency_key("k2"));
}

fn event(tick: u64, name: &str) -> ColonyEventDescription {
    ColonyEventDescription { tick, event_type: name.to_string(), description: format!("event {}", name) }
}

#[test]
fn recent_events_newest_first_stable() {
    let events = vec![event(5, "a"), event(9, "b"), event(5, "c"), event(1, "d"), event(9, "e")];
    let recent = most_recent_events(&events, 3);
    let names: Vec<&str> = recent.iter().map(|e| e.event_type.as_str()).collect();
    assert_eq!(names, vec!["b", "e", "a"]);
    let all = most_recent_events(&events, 30);
    let names: Vec<&str> = all.iter().map(|e| e.event_type.as_str()).collect();
    assert_eq!(names, vec!["b", "e", "a", "c", "d"]);
    assert!(most_recent_events(&events, 0).is_empty());
}

#[test]
fn stored_info_bookkeeping() {
    let mut info = CoordinatorStoredInfo::new();
    info.colony_instance_id = Some("id".to_string());
    info.colony_start_idempotency_key = Some("key".to_string());
    info.add_event(event(3, "x"));
    info.set_pause_events_till(10);
    assert!(info.is_events_paused(9));
    assert!(!info.is_events_paused(10));
    assert_eq!(info.get_events().len(), 1);
    assert_eq!(info.get_colony_life_rules(), colony::model::colony_life_initial_rules());
    info.reset_for_initialization();
    assert_eq!(info.colony_instance_id, Some("id".to_string()));
    assert_eq!(info.colony_start_idempotency_key, Some("key".to_string()));
    assert!(info.get_events().is_empty());
    assert_eq!(info.pause_events_till, 0);
    assert!(info.needs_topography());
}

#[test]
fn topology_answer_follows_status() {
    let mut info = CoordinatorStoredInfo::new();
    assert_eq!(info.topology_answer(false), TopologyAnswer::NotFound);
    assert_eq!(info.colony_start_reply(&Some("k".to_string())), ColonyStartReply::Accepted);
    assert_eq!(info.status, ColonyStatus::Initializing);
    assert_eq!(info.topology_answer(true), TopologyAnswer::InProgress);
    info.mark_topography_initialized();
    assert_eq!(info.topology_answer(true), TopologyAnswer::Layout);
    assert_eq!(info.topology_answer(false), TopologyAnswer::NotFound);
}
