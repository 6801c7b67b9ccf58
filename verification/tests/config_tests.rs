use worker::config::Config;
use worker::config::ConfigEnv;
use worker::config::is_valid_subject;
use worker::config::parse_u64;

fn empty_env() -> ConfigEnv {
    ConfigEnv {
        nats_url: None,
        caf_assign_subject: None,
        caf_result_subject: None,
        caf_heartbeat_subject: None,
        caf_heartbeat_interval_ms: None,
        worker_id: None,
        health_bind: None,
        worker_max_concurrency: None,
        default_job_timeout_ms: None,
        caf_dlq_subject: None,
        result_publish_max_retries: None,
        dlq_path: None,
        dlq_max_bytes: None,
        dlq_max_rotations: None,
        dlq_total_max_bytes: None,
        dlq_max_age_days: None,
        fs_base_dir: None,
    }
}

#[test]
fn config_defaults() {
    let c = Config::build(empty_env(), "worker-generated".to_string()).unwrap();
    assert_eq!(c.nats_url, "nats://localhost:4222");
    assert_eq!(c.health_bind, "0.0.0.0:9091");
    assert!(c.worker_id.starts_with("worker-"));
    assert_eq!(c.fs_base_dir, "/tmp/worker-storage");
    assert_eq!(c.caf_assign_subject, "caf.exec.assign.v1");
    assert_eq!(c.max_concurrency, 8);
    assert_eq!(c.caf_heartbeat_interval_ms, 5000);
    assert_eq!(c.dlq_max_rotations, 5);
    assert!(c.dlq_max_age_days.is_none());
}

#[test]
fn config_override() {
    let mut e = empty_env();
    e.nats_url = Some("nats://demo:4222".to_string());
    e.worker_id = Some("my-worker".to_string());
    e.fs_base_dir = Some("/var/lib/worker".to_string());
    let c = Config::build(e, "unused".to_string()).unwrap();
    assert_eq!(c.nats_url, "nats://demo:4222");
    assert_eq!(c.worker_id, "my-worker");
    assert_eq!(c.fs_base_dir, "/var/lib/worker");
}

#[test]
fn config_validation() {
    let mut e = empty_env();
    e.worker_max_concurrency = Some("0".to_string());
    assert!(Config::build(e, "w".to_string()).is_err());

    let mut e2 = empty_env();
    e2.caf_assign_subject = Some("invalid space".to_string());
    assert!(Config::build(e2, "w".to_string()).is_err());
}

#[test]
fn invalid_subjects_and_intervals() {
    let mut e = empty_env();
    e.caf_heartbeat_interval_ms = Some("10".to_string());
    assert!(Config::build(e, "w".to_string()).is_err());
}

#[test]
fn subject_grammar() {
    assert!(is_valid_subject("caf.exec.assign.v1"));
    assert!(is_valid_subject("a"));
    assert!(is_valid_subject("A-1_b.c"));
    assert!(!is_valid_subject(""));
    assert!(!is_valid_subject(".a"));
    assert!(!is_valid_subject("a."));
    assert!(!is_valid_subject("a..b"));
    assert!(!is_valid_subject("a b"));
    assert!(!is_valid_subject("a/b"));
    assert!(!is_valid_subject("héllo"));
}

#[test]
fn number_parsing() {
    assert_eq!(parse_u64("0"), Some(0));
    assert_eq!(parse_u64("5000"), Some(5000));
    assert_eq!(parse_u64("18446744073709551615"), Some(u64::MAX));
    assert_eq!(parse_u64("18446744073709551616"), None);
    assert_eq!(parse_u64(""), None);
    assert_eq!(parse_u64("12x"), None);
    assert_eq!(parse_u64("-1"), None);
}

#[test]
fn total_cap_must_cover_segment_cap() {
    let mut e = empty_env();
    e.dlq_max_bytes = Some("2000000".to_string());
    e.dlq_total_max_bytes = Some("1500000".to_string());
    assert!(Config::build(e, "w".to_string()).is_err());
}
