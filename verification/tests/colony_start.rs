use colony::cluster::{
    combine_shard_images, combine_shards, create_shard_map_with_even_distribution, filter_backends_by_address, keep_answering, unique_hosts, HostInfo,
    NodeAddress,
};
use colony::colony::remote_targets;
use colony::model::{Color, Shard};

fn node(ip: &str, internal_port: u16, http_port: u16) -> NodeAddress {
    NodeAddress::new(ip.to_string(), ip.to_string(), internal_port, http_port)
}

#[test]
fn test_filter_backends_excluding_coordinator_localhost_mode() {
    let coordinator = node("127.0.0.1", 8082, 8083);
    let backend_addresses = vec![
        node("127.0.0.1", 8084, 8085),
        node("127.0.0.1", 8086, 8087),
        node("127.0.0.1", 8088, 8089),
        node("127.0.0.1", 8090, 8091),
        node("127.0.0.1", 8082, 8083),
    ];
    let filtered = filter_backends_by_address(&backend_addresses, &coordinator);
    assert_eq!(filtered.len(), 4, "Should include 4 backends (coordinator excluded)");
    let coordinator_ports: Vec<u16> = filtered.iter().map(|b| b.port).collect();
    assert!(
        !coordinator_ports.contains(&coordinator.internal_port),
        "Coordinator port {} should be filtered out",
        coordinator.internal_port
    );
    let expected_ports = vec![8084, 8086, 8088, 8090];
    for expected_port in expected_ports {
        assert!(coordinator_ports.contains(&expected_port), "Backend port {} should be included", expected_port);
    }
}

#[test]
fn test_filter_backends_excluding_coordinator_different_ips() {
    let coordinator = node("10.0.1.1", 8082, 8083);
    let backend_addresses = vec![
        node("10.0.1.2", 8084, 8085),
        node("10.0.1.3", 8086, 8087),
        node("10.0.1.1", 8082, 8083),
        node("10.0.1.4", 8088, 8089),
    ];
    let filtered = filter_backends_by_address(&backend_addresses, &coordinator);
    assert_eq!(filtered.len(), 3, "Should include 3 backends (coordinator excluded)");
    let coordinator_ports: Vec<u16> = filtered.iter().map(|b| b.port).collect();
    assert!(
        !coordinator_ports.contains(&coordinator.internal_port),
        "Coordinator port {} should not appear in filtered backends",
        coordinator.internal_port
    );
}

#[test]
fn test_filter_backends_excluding_coordinator_same_ip_different_port() {
    let coordinator = node("127.0.0.1", 8082, 8083);
    let backend_addresses = vec![
        node("127.0.0.1", 8084, 8085),
        node("127.0.0.1", 8086, 8087),
        node("127.0.0.1", 8082, 8083),
    ];
    let filtered = filter_backends_by_address(&backend_addresses, &coordinator);
    assert_eq!(filtered.len(), 2, "Should include 2 backends with different ports");
    let coordinator_ports: Vec<u16> = filtered.iter().map(|b| b.port).collect();
    assert!(
        !coordinator_ports.contains(&coordinator.internal_port),
        "Coordinator port {} should be filtered out",
        coordinator.internal_port
    );
    assert!(coordinator_ports.contains(&8084), "Backend port 8084 should be included");
    assert!(coordinator_ports.contains(&8086), "Backend port 8086 should be included");
}

fn host(port: u16) -> HostInfo {
    HostInfo::new("127.0.0.1".to_string(), port)
}

#[test]
fn shard_map_deals_round_robin() {
    let backends = vec![host(1), host(2), host(3), host(4)];
    let map = create_shard_map_with_even_distribution(&backends, 5, 3, 250, 250);
    assert_eq!(map.len(), 15);
    assert_eq!(map[0].0, Shard { x: 0, y: 0, width: 250, height: 250 });
    assert_eq!(map[6].0, Shard { x: 250, y: 250, width: 250, height: 250 });
    assert_eq!(map[14].0, Shard { x: 1000, y: 500, width: 250, height: 250 });
    for (i, (_, h)) in map.iter().enumerate() {
        assert_eq!(h.port as usize, i % 4 + 1);
    }
    let per_backend: Vec<usize> = (1..=4).map(|p| map.iter().filter(|(_, h)| h.port == p).count()).collect();
    assert_eq!(per_backend, vec![4, 4, 4, 3]);
}

#[test]
fn unique_hosts_keeps_first_occurrences() {
    let hosts = vec![host(2), host(1), host(2), host(3), host(1)];
    let u = unique_hosts(&hosts);
    let ports: Vec<u16> = u.iter().map(|h| h.port).collect();
    assert_eq!(ports, vec![2, 1, 3]);
}

#[test]
fn remote_targets_are_other_neighbour_hosts() {
    let backends = vec![host(1), host(2)];
    let map = create_shard_map_with_even_distribution(&backends, 3, 1, 10, 10);
    let targets = remote_targets(&map, &Shard { x: 10, y: 0, width: 10, height: 10 }, &host(2));
    let ports: Vec<u16> = targets.iter().map(|h| h.port).collect();
    assert_eq!(ports, vec![1]);
    let targets = remote_targets(&map, &Shard { x: 0, y: 0, width: 10, height: 10 }, &host(1));
    let ports: Vec<u16> = targets.iter().map(|h| h.port).collect();
    assert_eq!(ports, vec![2]);
}

#[test]
fn combine_shards_places_images() {
    let red = Color { red: 255, green: 0, blue: 0 };
    let blue = Color { red: 0, green: 0, blue: 255 };
    let black = Color { red: 0, green: 0, blue: 0 };
    let images = vec![vec![red; 4], vec![blue; 4]];
    let shards = vec![Shard { x: 0, y: 0, width: 2, height: 2 }, Shard { x: 2, y: 0, width: 2, height: 2 }];
    let combined = combine_shards(&images, &shards, 5, 2);
    assert_eq!(combined.len(), 10);
    assert_eq!(combined[0], red);
    assert_eq!(combined[3], blue);
    assert_eq!(combined[4], black);
    assert_eq!(combined[6], red);
    assert_eq!(combined[8], blue);
}

#[test]
fn capture_skips_mis_sized_images() {
    let red = Color { red: 255, green: 0, blue: 0 };
    let blue = Color { red: 0, green: 0, blue: 255 };
    let black = Color { red: 0, green: 0, blue: 0 };
    let images = vec![vec![red; 3], vec![blue; 5], vec![red; 4]];
    let shards = vec![
        Shard { x: 0, y: 0, width: 2, height: 2 },
        Shard { x: 2, y: 0, width: 2, height: 2 },
        Shard { x: 2, y: 0, width: 2, height: 2 },
    ];
    let combined = combine_shard_images(&images[..2], &shards[..2], 4, 2);
    assert!(combined.iter().all(|c| *c == black));
    let combined = combine_shard_images(&images, &shards, 4, 2);
    assert_eq!(combined[0], black);
    assert_eq!(combined[2], red);
    assert_eq!(combined[7], red);
}

#[test]
fn only_answering_backends_are_kept() {
    let hosts = vec![
        HostInfo::new("10.0.0.1".to_string(), 8084),
        HostInfo::new("10.0.0.2".to_string(), 8084),
        HostInfo::new("10.0.0.3".to_string(), 8084),
    ];
    let kept = keep_answering(&hosts, &vec![true, false, true]);
    let names: Vec<&str> = kept.iter().map(|h| h.hostname.as_str()).collect();
    assert_eq!(names, vec!["10.0.0.1", "10.0.0.3"]);
    assert!(keep_answering(&hosts, &vec![false, false, false]).is_empty());
}

#[test]
fn combine_shards_paints_what_a_short_image_has() {
    let red = Color { red: 255, green: 0, blue: 0 };
    let black = Color { red: 0, green: 0, blue: 0 };
    let images = vec![vec![red; 3]];
    let shards = vec![Shard { x: 0, y: 0, width: 2, height: 2 }];
    let combined = combine_shards(&images, &shards, 2, 2);
    assert_eq!(combined, vec![red, red, red, black]);
    let combined = combine_shard_images(&images, &shards, 2, 2);
    assert_eq!(combined, vec![black; 4]);
}
