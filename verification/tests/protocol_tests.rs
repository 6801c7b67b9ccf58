use worker::json::JsonValue;
use worker::protocol::EnvelopeKind;
use worker::protocol::EventEnvelopeV1;
use worker::protocol::ExecAssignment;
use worker::protocol::ExecResult;
use worker::protocol::ExecStatus;
use worker::protocol::Job;
use worker::protocol::TaskState;
use worker::protocol::WorkerHeartbeat;
use worker::protocol::DeadLetter;
use worker::protocol::map_status_to_task_state;

fn obj(members: Vec<(&str, JsonValue)>) -> JsonValue {
    JsonValue::Obj(members.into_iter().map(|(k, v)| (k.to_string(), v)).collect())
}

fn sample_assignment() -> ExecAssignment {
    ExecAssignment {
        version: "1.0".to_string(),
        assignment_id: "assign-1".to_string(),
        request_id: "req-1".to_string(),
        tenant_id: "tenant-1".to_string(),
        job: Job {
            job_type: "http".to_string(),
            payload: obj(vec![("url", JsonValue::Str("http://example.com".to_string()))]),
        },
        trace_id: Some("trace-1".to_string()),
        run_id: None,
        flow_id: None,
        step_id: None,
    }
}

fn sample_result() -> ExecResult {
    ExecResult {
        version: "1.0".to_string(),
        assignment_id: "assign-1".to_string(),
        request_id: "req-1".to_string(),
        status: ExecStatus::Success,
        provider_id: "worker-1".to_string(),
        job_type: "http".to_string(),
        output: None,
        latency_ms: 100,
        cost: 0,
        trace_id: None,
        tenant_id: None,
        run_id: None,
        error_code: None,
        error_message: None,
    }
}

#[test]
fn test_envelope_wrap_assignment() {
    let assignment = sample_assignment();
    let env = EventEnvelopeV1::wrap_assignment(&assignment);
    assert!(matches!(env.kind, EnvelopeKind::ExecAssign));
    let parsed = ExecAssignment::from_json(&env.data).unwrap();
    assert_eq!(parsed.assignment_id, "assign-1");
}

#[test]
fn test_envelope_wrap_result() {
    let result = sample_result();
    let env = EventEnvelopeV1::wrap_result(&result);
    assert!(matches!(env.kind, EnvelopeKind::ExecResult));
    let parsed = ExecResult::from_json(&env.data).unwrap();
    assert_eq!(parsed.assignment_id, "assign-1");
}

#[test]
fn test_assignment_serialization() {
    let assignment = sample_assignment();
    let bytes = assignment.to_json().encode();
    let doc = worker::json_parse::parse_json(&bytes).unwrap();
    let parsed = ExecAssignment::from_json(&doc).unwrap();
    assert_eq!(parsed.assignment_id, "assign-1");
    assert_eq!(parsed.job.job_type, "http");
}

#[test]
fn test_result_serialization() {
    let result = sample_result();
    let bytes = result.to_json().encode();
    let text = String::from_utf8(bytes.clone()).unwrap();
    assert!(text.contains("success"));
    let doc = worker::json_parse::parse_json(&bytes).unwrap();
    let parsed = ExecResult::from_json(&doc).unwrap();
    assert!(matches!(parsed.status, ExecStatus::Success));
}

#[test]
fn envelope_roundtrip_assignment() {
    let a = ExecAssignment {
        version: "1.0".into(),
        assignment_id: "a1".into(),
        request_id: "r1".into(),
        tenant_id: "t1".into(),
        job: Job {
            job_type: "echo".into(),
            payload: obj(vec![("hello", JsonValue::Str("world".into()))]),
        },
        trace_id: Some("tr-1".into()),
        run_id: None,
        flow_id: None,
        step_id: None,
    };
    let env = EventEnvelopeV1::wrap_assignment(&a);
    assert!(matches!(env.kind, EnvelopeKind::ExecAssign));
    let parsed = ExecAssignment::from_json(&env.data).unwrap();
    assert_eq!(parsed.assignment_id, "a1");
}

#[test]
fn status_to_state_mapping() {
    assert!(matches!(map_status_to_task_state(&ExecStatus::Success), TaskState::Completed));
    assert!(matches!(map_status_to_task_state(&ExecStatus::Error), TaskState::Failed));
    assert!(matches!(map_status_to_task_state(&ExecStatus::Timeout), TaskState::Timeout));
    assert!(matches!(map_status_to_task_state(&ExecStatus::Cancelled), TaskState::Cancelled));
}

#[test]
fn envelope_bytes_roundtrip_all_kinds() {
    // assignment
    let a = sample_assignment();
    let env = EventEnvelopeV1::wrap_assignment(&a);
    let bytes = env.encode();
    let back = worker::protocol::decode_envelope(&bytes).unwrap();
    assert!(matches!(back.kind, EnvelopeKind::ExecAssign));
    let a2 = ExecAssignment::from_json(&back.data).unwrap();
    assert_eq!(a2.assignment_id, a.assignment_id);
    assert_eq!(a2.tenant_id, a.tenant_id);
    assert_eq!(a2.trace_id, Some("trace-1".to_string()));

    // result
    let r = sample_result();
    let env = EventEnvelopeV1::wrap_result(&r);
    let back = worker::protocol::decode_envelope(&env.encode()).unwrap();
    let r2 = ExecResult::from_json(&back.data).unwrap();
    assert_eq!(r2.latency_ms, 100);
    assert_eq!(r2.provider_id, "worker-1");

    // heartbeat
    let h = WorkerHeartbeat {
        worker_id: "w-1".to_string(),
        timestamp: "2024-01-01T00:00:00+00:00".to_string(),
        status: "idle".to_string(),
        load_milli: 250,
    };
    let env = EventEnvelopeV1::wrap_heartbeat(&h);
    let back = worker::protocol::decode_envelope(&env.encode()).unwrap();
    let h2 = WorkerHeartbeat::from_json(&back.data).unwrap();
    assert_eq!(h2.load_milli, 250);
    assert_eq!(h2.status, "idle");

    // dead letter
    let d = DeadLetter {
        reason: "PARSE_ERROR".to_string(),
        payload_ref: obj(vec![("subject", JsonValue::Str("s.v1".into())), ("len", JsonValue::I64(8))]),
        ts: "2024-01-01T00:00:00+00:00".to_string(),
    };
    let env = EventEnvelopeV1::wrap_deadletter(&d);
    let back = worker::protocol::decode_envelope(&env.encode()).unwrap();
    let d2 = DeadLetter::from_json(&back.data).unwrap();
    assert_eq!(d2.reason, "PARSE_ERROR");
}

#[test]
fn envelope_wire_shape() {
    let h = WorkerHeartbeat {
        worker_id: "w".to_string(),
        timestamp: "t".to_string(),
        status: "busy".to_string(),
        load_milli: 1000,
    };
    let text = String::from_utf8(EventEnvelopeV1::wrap_heartbeat(&h).encode()).unwrap();
    assert_eq!(
        text,
        "{\"version\":\"v1\",\"kind\":\"heartbeat\",\"data\":{\"worker_id\":\"w\",\"timestamp\":\"t\",\"status\":\"busy\",\"load\":1.000}}"
    );
}

#[test]
fn optional_fields_omitted() {
    let r = sample_result();
    let text = String::from_utf8(r.to_json().encode()).unwrap();
    assert!(!text.contains("trace_id"));
    assert!(!text.contains("error_code"));
    assert!(text.contains("\"cost\":0.000"));
}
