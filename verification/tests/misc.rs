use colony::config::{
    get_backend_hostname, get_backend_port, is_aws_deployment, set_backend_hostname, set_backend_port,
    set_deployment_mode, BackendConfig, DeploymentMode, TickMonitor,
};
use colony::model::Color;
use colony::text::zero_padded_string;
use colony::wire::{decode_layer_data, decode_rgb_colors, encode_layer_data, encode_rgb_colors};

#[test]
fn layer_body_round_trip() {
    let values = vec![0, 1, -1, i32::MAX, i32::MIN, 123456];
    let bytes = encode_layer_data(&values);
    assert_eq!(bytes.len(), 4 + 4 * values.len());
    assert_eq!(&bytes[0..4], &(values.len() as u32).to_le_bytes());
    assert_eq!(&bytes[12..16], &(-1i32).to_le_bytes());
    assert_eq!(decode_layer_data(&bytes), Some(values));
}

#[test]
fn layer_body_rejects_bad_lengths() {
    assert_eq!(decode_layer_data(&[1, 0]), None);
    assert_eq!(decode_layer_data(&[1, 0, 0, 0, 5, 0, 0]), None);
    assert_eq!(decode_layer_data(&[0, 0, 0, 0]), Some(vec![]));
    assert_eq!(decode_layer_data(&[1, 0, 0, 0, 7, 0, 0, 0]), Some(vec![7]));
}

#[test]
fn image_body_round_trip() {
    let colors = vec![Color { red: 1, green: 2, blue: 3 }, Color { red: 250, green: 0, blue: 9 }];
    let bytes = encode_rgb_colors(&colors);
    assert_eq!(bytes, vec![1, 2, 3, 250, 0, 9]);
    assert_eq!(decode_rgb_colors(&bytes, 2, 1), Some(colors));
    assert_eq!(decode_rgb_colors(&bytes, 1, 1), None);
}

#[test]
fn deployment_mode_parsing() {
    assert_eq!(DeploymentMode::from_str("localhost"), Ok(DeploymentMode::Localhost));
    assert_eq!(DeploymentMode::from_str("AWS"), Ok(DeploymentMode::Aws));
    assert_eq!(DeploymentMode::from_str("LocalHost"), Ok(DeploymentMode::Localhost));
    assert_eq!(
        DeploymentMode::from_str("gcp"),
        Err("Invalid deployment mode: gcp. Must be 'localhost' or 'aws'".to_string())
    );
}

#[test]
fn backend_settings() {
    let mut config = BackendConfig::new();
    assert!(!is_aws_deployment(&config));
    set_backend_hostname(&mut config, "10.0.0.5".to_string());
    set_backend_port(&mut config, 8082);
    set_deployment_mode(&mut config, "aws".to_string());
    assert_eq!(get_backend_hostname(&config), "10.0.0.5");
    assert_eq!(get_backend_port(&config), 8082);
    assert!(is_aws_deployment(&config));
    let mut local = BackendConfig::new();
    set_deployment_mode(&mut local, "localhost".to_string());
    assert!(!is_aws_deployment(&local));
}

#[test]
fn tick_monitor_measures_deltas() {
    let mut m = TickMonitor::new();
    assert!(m.record_tick(10).is_none());
    let iv = m.record_tick(25).unwrap();
    assert_eq!(iv.tick_delta, 15);
    assert!(iv.until >= iv.since);
    let iv = m.record_tick(5).unwrap();
    assert_eq!(iv.tick_delta, 0);
}

#[test]
fn zero_padding() {
    assert_eq!(zero_padded_string(42, 5), "00042");
    assert_eq!(zero_padded_string(123456, 3), "123456");
    assert_eq!(zero_padded_string(0, 0), "0");
    assert_eq!(zero_padded_string(u64::MAX, 1), u64::MAX.to_string());
}

#[test]
fn deployment_mode_from_lower_case_text() {
    assert_eq!(DeploymentMode::from_lowercase("aws", "AwS"), Ok(DeploymentMode::Aws));
    assert_eq!(DeploymentMode::from_lowercase("localhost", "LOCALHOST"), Ok(DeploymentMode::Localhost));
    assert_eq!(
        DeploymentMode::from_lowercase("gcp", "GCP"),
        Err("Invalid deployment mode: GCP. Must be 'localhost' or 'aws'".to_string())
    );
    assert!(DeploymentMode::from_lowercase("AWS", "AWS").is_err());
}

#[test]
fn tick_readings_chain() {
    let mut m = TickMonitor::new();
    let ticks = [3u64, 10, 10, 4, 50];
    let mut previous: Option<colony::config::TickInterval> = None;
    for (k, &t) in ticks.iter().enumerate() {
        let r = m.record_tick(t);
        if k == 0 {
            assert!(r.is_none());
        } else {
            let iv = r.unwrap();
            assert_eq!(iv.tick_delta, t.saturating_sub(ticks[k - 1]));
            if let Some(p) = previous {
                assert_eq!(iv.since, p.until);
            }
            previous = Some(iv);
        }
        assert_eq!(m.last_tick, t);
    }
}
