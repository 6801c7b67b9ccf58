use worker::dlq::DlqSegment;
use worker::dlq::deadletter_line;
use worker::dlq::dlq_prune_plan;
use worker::dlq::rotation_needed;
use worker::error::WorkerError;
use worker::error::classify_publish_error;
use worker::health::ready_response;
use worker::health::state_response;
use worker::json::JsonValue;
use worker::metrics::Metrics;
use worker::observability::Logger;
use worker::pii::mask_pii;
use worker::protocol::DeadLetter;

fn obj(members: Vec<(&str, JsonValue)>) -> JsonValue {
    JsonValue::Obj(members.into_iter().map(|(k, v)| (k.to_string(), v)).collect())
}

#[test]
fn test_mask_email() {
    let input = "Contact user@example.com for details";
    let masked = mask_pii(input);
    assert_eq!(masked, "Contact ***@***.*** for details");
}

#[test]
fn test_no_pii() {
    let input = "System started normally";
    let masked = mask_pii(input);
    assert_eq!(masked, input);
}

#[test]
fn mask_agrees_with_email_pattern() {
    let pattern = regex::Regex::new(r"(?i)[a-z0-9._%+-]+@[a-z0-9.-]+\.[a-z]{2,4}").unwrap();
    let samples = [
        "plain text",
        "user@example.com",
        "wrapped user@example.com end",
        "UPPER@CASE.ORG stays masked",
        "two a@b.cc and c@d.ee",
        "no tld a@b",
        "short tld a@b.c",
        "x@y.info plus tail",
        "a.b-c_d%e+f@g-h.ij",
    ];
    for s in samples {
        let masked = mask_pii(s);
        assert!(
            !pattern.is_match(&masked),
            "an address survived masking: {:?} -> {:?}",
            s,
            masked
        );
        assert_eq!(pattern.replace_all(s, "***@***.***"), masked, "input {:?}", s);
    }
}

#[test]
fn test_logger_structure() {
    let logger = Logger::new("worker-test".to_string());
    let context = obj(vec![
        ("tenant_id", JsonValue::Str("tenant-1".into())),
        ("user_email", JsonValue::Str("admin@example.com".into())),
    ]);
    let entry = logger.build_entry(
        "INFO",
        "User login user@example.com",
        Some(&context),
        "2024-01-01T00:00:00+00:00",
    );
    match entry.get("level").unwrap() {
        JsonValue::Str(s) => assert_eq!(s, "INFO"),
        _ => panic!("expected the level"),
    }
    match entry.get("worker_id").unwrap() {
        JsonValue::Str(s) => assert_eq!(s, "worker-test"),
        _ => panic!("expected the worker id"),
    }
    assert!(matches!(entry.get("ts").unwrap(), JsonValue::Str(_)));
    match entry.get("msg").unwrap() {
        JsonValue::Str(s) => assert_eq!(s, "User login ***@***.***"),
        _ => panic!("expected the masked message"),
    }
    match entry.get("tenant_id").unwrap() {
        JsonValue::Str(s) => assert_eq!(s, "tenant-1"),
        _ => panic!("expected the tenant"),
    }
    match entry.get("user_email").unwrap() {
        JsonValue::Str(s) => assert_eq!(s, "***@***.***"),
        _ => panic!("expected the masked address"),
    }
}

#[test]
fn classify_by_substring() {
    assert!(classify_publish_error("connection refused").is_transient());
    assert!(classify_publish_error("request timeout").is_transient());
    assert!(classify_publish_error("broken pipe while writing").is_transient());
    assert!(!classify_publish_error("permission denied").is_transient());
    let e = WorkerError::permanent("boom".to_string());
    assert_eq!(e.message(), "boom");
    assert!(!e.is_transient());
}

#[test]
fn deadletter_line_is_one_json_line() {
    let d = DeadLetter {
        reason: "PARSE_ERROR".to_string(),
        payload_ref: obj(vec![("subject", JsonValue::Str("s".into())), ("len", JsonValue::I64(3))]),
        ts: "2024-01-01T00:00:00+00:00".to_string(),
    };
    let line = deadletter_line(&d);
    assert_eq!(line.last(), Some(&b'\n'));
    let text = String::from_utf8(line[..line.len() - 1].to_vec()).unwrap();
    assert_eq!(
        text,
        "{\"reason\":\"PARSE_ERROR\",\"payload_ref\":{\"subject\":\"s\",\"len\":3},\"ts\":\"2024-01-01T00:00:00+00:00\"}"
    );
}

#[test]
fn rotation_threshold() {
    assert!(!rotation_needed(99, 100));
    assert!(rotation_needed(100, 100));
    assert!(rotation_needed(101, 100));
}

#[test]
fn prune_respects_caps() {
    let segs = vec![
        DlqSegment { size: 50, age_days: 10 },
        DlqSegment { size: 40, age_days: 5 },
        DlqSegment { size: 30, age_days: 2 },
        DlqSegment { size: 20, age_days: 1 },
    ];
    // the age cap removes the first; the count cap then removes the next oldest
    let del = dlq_prune_plan(&segs, 2, 1000, Some(7));
    assert_eq!(del, vec![true, true, false, false]);
    // the byte cap removes from the front
    let del2 = dlq_prune_plan(&segs, 10, 55, None);
    assert_eq!(del2, vec![true, true, false, false]);
    // nothing is removed when everything fits
    let del3 = dlq_prune_plan(&segs, 10, 1000, None);
    assert_eq!(del3, vec![false, false, false, false]);
}

#[test]
fn health_probe_answers() {
    assert_eq!(ready_response(true, false), (200, "READY"));
    assert_eq!(ready_response(false, false), (503, "NOT_READY"));
    assert_eq!(ready_response(true, true), (503, "DRAINING"));
    let (code, body) = state_response(true, false, 2, 8);
    assert_eq!(code, 200);
    assert_eq!(
        String::from_utf8(body).unwrap(),
        "{\"ready\":true,\"draining\":false,\"load\":0.250}"
    );
    let (code2, _) = state_response(true, true, 0, 8);
    assert_eq!(code2, 503);
}

#[test]
fn metric_counters() {
    let mut m = Metrics::new();
    m.inc_task_received();
    m.inc_task_received();
    m.inc_dlq_published();
    m.count_terminal(worker::protocol::TaskState::Completed);
    m.count_terminal(worker::protocol::TaskState::Timeout);
    m.observe_duration(250);
    m.set_tasks_in_progress(3);
    // 250 ms lands in every bucket with a bound of at least 250 ms
    assert_eq!(m.task_duration_buckets[4], 0); // le 100 ms
    assert_eq!(m.task_duration_buckets[5], 1); // le 250 ms
    assert_eq!(m.task_duration_buckets[11], 1); // unbounded
    assert_eq!(m.task_received, 2);
    assert_eq!(m.dlq_published_total, 1);
    assert_eq!(m.task_completed, 1);
    assert_eq!(m.task_timeout, 1);
    assert_eq!(m.task_duration_count, 1);
    assert_eq!(m.task_duration_total_ms, 250);
    assert_eq!(m.tasks_in_progress, 3);
}
