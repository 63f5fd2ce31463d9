use sleipnir::config;
use sleipnir::labels::Labels;

#[test]
fn test_config_defaults() {
    assert_eq!(config::default_username(), "default");
    assert_eq!(config::default_table(), "metrics");
    assert_eq!(config::default_database(), "sleipnir");
    assert_eq!(config::default_host(), "localhost");
    assert_eq!(config::default_flush_interval(), 5);
    assert_eq!(config::default_batch_size(), 1000);
    assert_eq!(config::default_port(), 8080);
    assert_eq!(config::default_connection_timeout(), 30);
    assert_eq!(config::default_channel_buffer(), 10000);
    assert_eq!(config::default_prometheus_host(), "0.0.0.0");
    assert_eq!(config::default_prometheus_port(), 9090);

    let labels = config::default_prometheus_labels();
    assert_eq!(labels.application, "sleipnir");
    assert_eq!(labels.circuit, "unknown");
    assert_eq!(labels.env, "unknown");
    assert_eq!(labels.project, "unknown");
}

#[test]
fn test_labels_new_with_application() {
    let l = Labels::new(
        Some("my_app".to_string()),
        "c1".to_string(),
        "prod".to_string(),
        "p1".to_string(),
    );
    assert_eq!(l.worker_id, "unknown");
    assert_eq!(l.application, "my_app");
    assert_eq!(l.circuit, "c1");
    assert_eq!(l.env, "prod");
    assert_eq!(l.project, "p1");
}

#[test]
fn test_labels_new_default_application() {
    let l = Labels::new(None, "c1".to_string(), "prod".to_string(), "p1".to_string());
    assert_eq!(l.application, "sleipnir");
}

#[test]
fn test_labels_worker_id() {
    let l = Labels::new(None, "c1".to_string(), "prod".to_string(), "p1".to_string());
    let w = l.worker_id("3".to_string());
    assert_eq!(w.worker_id, "3");
    assert_eq!(w.application, "sleipnir");
    assert_eq!(w.circuit, "c1");
    assert_eq!(w.env, "prod");
    assert_eq!(w.project, "p1");
}
