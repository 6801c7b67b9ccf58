use worker::dedup::Dedup;
use worker::json::JsonValue;
use worker::pipeline::InboundDecision;
use worker::pipeline::PublishStep;
use worker::pipeline::backoff_ms;
use worker::pipeline::claim_id;
use worker::pipeline::decode_inbound;
use worker::pipeline::effective_timeout;
use worker::pipeline::publish_retry_decision;
use worker::pipeline::timeout_result;
use worker::pipeline::PermitCounter;
use worker::pipeline::WorkerPhase;
use worker::pipeline::compute_load;
use worker::pipeline::make_heartbeat;
use worker::protocol::EventEnvelopeV1;
use worker::protocol::ExecAssignment;
use worker::protocol::ExecStatus;
use worker::protocol::Job;

fn obj(members: Vec<(&str, JsonValue)>) -> JsonValue {
    JsonValue::Obj(members.into_iter().map(|(k, v)| (k.to_string(), v)).collect())
}

fn assignment(id: &str, job_type: &str, payload: JsonValue) -> ExecAssignment {
    ExecAssignment {
        version: "1.0".to_string(),
        assignment_id: id.to_string(),
        request_id: "r1".to_string(),
        tenant_id: "t1".to_string(),
        job: Job { job_type: job_type.to_string(), payload },
        trace_id: None,
        run_id: None,
        flow_id: None,
        step_id: None,
    }
}

#[test]
fn test_dedup_basic() {
    let mut d = Dedup::new(2);
    d.insert("a".to_string());
    assert!(d.contains("a"));
    d.insert("b".to_string());
    assert!(d.contains("b"));
    d.insert("c".to_string()); // evicts "a"
    assert!(!d.contains("a"));
    assert!(d.contains("b"));
    assert!(d.contains("c"));
}

#[test]
fn dedup_evicts_first_at_capacity() {
    let mut d = Dedup::new(4096);
    for i in 0..4096 {
        d.insert(format!("id-{}", i));
    }
    assert!(d.contains("id-0"));
    d.insert("id-4096".to_string());
    assert!(!d.contains("id-0"));
    assert!(d.contains("id-1"));
    assert!(d.contains("id-4096"));
}

#[test]
fn duplicate_suppressed() {
    let mut d = Dedup::new(8);
    assert!(claim_id(&mut d, "a1"));
    assert!(!claim_id(&mut d, "a1"));
    assert!(claim_id(&mut d, "a2"));
}

#[test]
fn backoff_doubles_and_caps() {
    assert_eq!(backoff_ms(0), 500);
    assert_eq!(backoff_ms(1), 1000);
    assert_eq!(backoff_ms(5), 16000);
    assert_eq!(backoff_ms(6), 30000);
    assert_eq!(backoff_ms(20), 30000);
}

#[test]
fn decode_inbound_malformed_is_parse_error() {
    match decode_inbound(b"not json", "caf.exec.assign.v1") {
        InboundDecision::Dead(seed) => {
            assert_eq!(seed.reason, "PARSE_ERROR");
            let subj = seed.payload_ref.get("subject").unwrap();
            match subj {
                JsonValue::Str(s) => assert_eq!(s, "caf.exec.assign.v1"),
                _ => panic!("expected the subject"),
            }
            match seed.payload_ref.get("len").unwrap() {
                JsonValue::I64(n) => assert_eq!(*n, 8),
                _ => panic!("expected the length"),
            }
        }
        _ => panic!("expected a dead letter"),
    }
}

#[test]
fn decode_inbound_accepts_wrapped_and_bare() {
    let a = assignment("a1", "echo", obj(vec![("hello", JsonValue::Str("world".into()))]));
    let wrapped = EventEnvelopeV1::wrap_assignment(&a).encode();
    match decode_inbound(&wrapped, "s") {
        InboundDecision::Accept(got) => assert_eq!(got.assignment_id, "a1"),
        _ => panic!("expected acceptance"),
    }
    let bare = a.to_json().encode();
    match decode_inbound(&bare, "s") {
        InboundDecision::Accept(got) => assert_eq!(got.assignment_id, "a1"),
        _ => panic!("expected acceptance"),
    }
}

#[test]
fn decode_inbound_accepts_unbounded_numbers_in_payloads() {
    // payloads carrying numbers outside the bounded model are executed,
    // not dead-lettered
    let payload = obj(vec![
        ("rate", JsonValue::NumLit("0.1234".to_string())),
        ("scale", JsonValue::NumLit("1e3".to_string())),
        ("big", JsonValue::NumLit("18446744073709551615".to_string())),
    ]);
    let a = assignment("a9", "echo", payload);
    let wrapped = EventEnvelopeV1::wrap_assignment(&a).encode();
    match decode_inbound(&wrapped, "s") {
        InboundDecision::Accept(got) => {
            match got.job.payload.get("rate").unwrap() {
                JsonValue::NumLit(s) => assert_eq!(s, "0.1234"),
                _ => panic!("expected the raw lexeme"),
            }
            // the echo handler returns such a payload verbatim
            let o = worker::handlers::handle_echo(&got.job);
            assert_eq!(o.output.unwrap().encode(), a.job.payload.encode());
        }
        _ => panic!("expected acceptance"),
    }
    // the same numbers written as wire text
    let text = b"{\"version\":\"1.0\",\"assignment_id\":\"a10\",\"request_id\":\"r\",\"tenant_id\":\"t\",\"job\":{\"type\":\"echo\",\"payload\":{\"x\":1e3,\"y\":0.1234}}}";
    match decode_inbound(text, "s") {
        InboundDecision::Accept(got) => assert_eq!(got.assignment_id, "a10"),
        _ => panic!("expected acceptance of exponent and long-fraction payloads"),
    }
}

#[test]
fn decode_inbound_discards_other_kinds() {
    let h = worker::protocol::WorkerHeartbeat {
        worker_id: "w".into(),
        timestamp: "t".into(),
        status: "idle".into(),
        load_milli: 0,
    };
    let bytes = EventEnvelopeV1::wrap_heartbeat(&h).encode();
    match decode_inbound(&bytes, "s") {
        InboundDecision::Discard(kind) => {
            assert!(matches!(kind, worker::protocol::EnvelopeKind::Heartbeat))
        }
        _ => panic!("expected a discard"),
    }
}

#[test]
fn timeout_result_uses_configured_timeout() {
    let a = assignment("a1", "sleep", obj(vec![("ms", JsonValue::I64(5000))]));
    let r = timeout_result(&a, "worker-test", 50);
    assert!(matches!(r.status, ExecStatus::Timeout));
    assert_eq!(r.latency_ms, 50);
    assert_eq!(r.error_code.as_deref(), Some("TIMEOUT"));
    assert_eq!(r.error_message.as_deref(), Some("Task timed out"));
}

#[test]
fn effective_timeout_prefers_payload() {
    let a = assignment("a1", "sleep", obj(vec![("timeout_ms", JsonValue::I64(50))]));
    assert_eq!(effective_timeout(&a, 60000), 50);
    let b = assignment("a2", "sleep", obj(vec![]));
    assert_eq!(effective_timeout(&b, 60000), 60000);
    let c = assignment("a3", "sleep", obj(vec![("timeout_ms", JsonValue::Str("x".into()))]));
    assert_eq!(effective_timeout(&c, 60000), 60000);
    // a non-positive timeout falls back to the default
    let d = assignment("a4", "sleep", obj(vec![("timeout_ms", JsonValue::I64(0))]));
    assert_eq!(effective_timeout(&d, 60000), 60000);
}

#[test]
fn publish_retry_exhaustion_gives_up_once() {
    // transient failures retry while attempts remain, with capped backoff
    match publish_retry_decision("connection reset", 0, 5) {
        PublishStep::RetryAfter(d) => assert_eq!(d, 1000),
        _ => panic!("expected a retry"),
    }
    // at the cap, even a transient failure goes to the dead letter path
    assert!(matches!(publish_retry_decision("connection reset", 5, 5), PublishStep::GiveUp));
    // a permanent failure never retries
    assert!(matches!(publish_retry_decision("schema rejected", 0, 5), PublishStep::GiveUp));
}

#[test]
fn single_permit_is_sequential() {
    let mut c = PermitCounter::new(1);
    assert!(c.try_acquire());
    assert!(!c.try_acquire());
    c.release();
    assert!(c.try_acquire());
}

#[test]
fn heartbeat_status_and_load() {
    let h = make_heartbeat("w", "ts".to_string(), WorkerPhase::Ready, 2, 8);
    assert_eq!(h.status, "busy");
    assert_eq!(h.load_milli, 250);
    let h2 = make_heartbeat("w", "ts".to_string(), WorkerPhase::Ready, 0, 8);
    assert_eq!(h2.status, "idle");
    let h3 = make_heartbeat("w", "ts".to_string(), WorkerPhase::Draining, 1, 8);
    assert_eq!(h3.status, "draining");
    let h4 = make_heartbeat("w", "ts".to_string(), WorkerPhase::Stopped, 0, 8);
    assert_eq!(h4.status, "stopped");
    assert_eq!(compute_load(8, 8), 1000);
    assert_eq!(compute_load(0, 8), 0);
}
