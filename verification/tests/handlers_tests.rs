use worker::executor::Executor;
use worker::executor::JobAction;
use worker::handlers::handle_echo;
use worker::handlers::handle_human_approval;
use worker::handlers::handle_jmespath;
use worker::handlers::fs_get_outcome;
use worker::handlers::fs_put_plan;
use worker::handlers::path_confined;
use worker::json::JsonValue;
use worker::protocol::ExecAssignment;
use worker::protocol::ExecStatus;
use worker::protocol::Job;

fn obj(members: Vec<(&str, JsonValue)>) -> JsonValue {
    JsonValue::Obj(members.into_iter().map(|(k, v)| (k.to_string(), v)).collect())
}

fn job(t: &str, payload: JsonValue) -> Job {
    Job { job_type: t.to_string(), payload }
}

fn assignment(id: &str, j: Job) -> ExecAssignment {
    ExecAssignment {
        version: "1.0".to_string(),
        assignment_id: id.to_string(),
        request_id: "r1".to_string(),
        tenant_id: "t1".to_string(),
        job: j,
        trace_id: None,
        run_id: None,
        flow_id: None,
        step_id: None,
    }
}

#[test]
fn echo_returns_payload_verbatim() {
    let payload = obj(vec![("hello", JsonValue::Str("world".into()))]);
    let j = job("echo", payload.duplicate());
    let o = handle_echo(&j);
    assert!(matches!(o.status, ExecStatus::Success));
    assert_eq!(o.output.unwrap().encode(), payload.encode());
    assert_eq!(o.job_type, "echo");
}

#[test]
fn echo_through_executor() {
    let ex = Executor::new("worker-test".to_string(), "/tmp".to_string());
    let a = assignment("a1", job("echo", obj(vec![("hello", JsonValue::Str("world".into()))])));
    match ex.plan_job(&a.job) {
        JobAction::Finished(o) => {
            let r = ex.assemble_result(&a, o, 3);
            assert!(matches!(r.status, ExecStatus::Success));
            assert_eq!(r.job_type, "echo");
            assert_eq!(r.provider_id, "worker-test");
            assert_eq!(r.assignment_id, "a1");
            let out = r.output.unwrap();
            match out.get("hello").unwrap() {
                JsonValue::Str(s) => assert_eq!(s, "world"),
                _ => panic!("expected the echoed payload"),
            }
        }
        _ => panic!("echo finishes at once"),
    }
}

#[test]
fn unknown_type_is_refused() {
    let ex = Executor::new("worker-test".to_string(), "/tmp".to_string());
    let a = assignment("a1", job("quantum_compute", obj(vec![])));
    match ex.plan_job(&a.job) {
        JobAction::Finished(o) => {
            assert!(matches!(o.status, ExecStatus::Error));
            assert_eq!(o.error_code.as_deref(), Some("UNKNOWN_JOB_TYPE"));
            assert_eq!(o.error_message.as_deref(), Some("Unknown job type: quantum_compute"));
        }
        _ => panic!("unknown types finish at once"),
    }
}

#[test]
fn absolute_path_is_confined() {
    let ex = Executor::new("worker-test".to_string(), "/tmp".to_string());
    let a = assignment(
        "a1",
        job("fs_blob_get", obj(vec![("path", JsonValue::Str("/etc/passwd".into()))])),
    );
    match ex.plan_job(&a.job) {
        JobAction::Finished(o) => {
            assert!(matches!(o.status, ExecStatus::Error));
            assert_eq!(o.error_code.as_deref(), Some("INVALID_PATH"));
        }
        _ => panic!("an absolute path never reaches the filesystem"),
    }
    assert!(!path_confined("/etc/passwd"));
    assert!(!path_confined("a/../../etc"));
    assert!(path_confined("blobs/data.txt"));
}

#[test]
fn fs_get_outcome_encodes_base64() {
    let j = job("fs_blob_get", obj(vec![("path", JsonValue::Str("f.txt".into()))]));
    let o = fs_get_outcome(&j, "f.txt", Ok(b"Hello File Blob".to_vec()));
    assert!(matches!(o.status, ExecStatus::Success));
    let out = o.output.unwrap();
    match out.get("bytes").unwrap() {
        JsonValue::Str(s) => assert_eq!(s, "SGVsbG8gRmlsZSBCbG9i"),
        _ => panic!("expected the encoded bytes"),
    }
    match out.get("size").unwrap() {
        JsonValue::I64(n) => assert_eq!(*n, 15),
        _ => panic!("expected the size"),
    }
}

#[test]
fn fs_put_plan_decodes_base64() {
    let j = job(
        "fs_blob_put",
        obj(vec![
            ("path", JsonValue::Str("f.txt".into())),
            ("bytes", JsonValue::Str("SGVsbG8gV3JpdGUgQmxvYg==".into())),
        ]),
    );
    let plan = fs_put_plan(&j).ok().unwrap();
    assert_eq!(plan.contents, b"Hello Write Blob");
    let bad = job(
        "fs_blob_put",
        obj(vec![
            ("path", JsonValue::Str("f.txt".into())),
            ("bytes", JsonValue::Str("!!!".into())),
        ]),
    );
    let err = fs_put_plan(&bad).err().unwrap();
    assert_eq!(err.error_code.as_deref(), Some("BASE64_DECODE_ERROR"));
}

#[test]
fn jmespath_evaluates_expression() {
    let j = job(
        "jmespath",
        obj(vec![
            ("expression", JsonValue::Str("foo.bar".into())),
            ("data", obj(vec![("foo", obj(vec![("bar", JsonValue::Str("baz".into()))]))])),
        ]),
    );
    let o = handle_jmespath(&j);
    assert!(matches!(o.status, ExecStatus::Success));
    match o.output.unwrap() {
        JsonValue::Str(s) => assert_eq!(s, "baz"),
        _ => panic!("expected the matched value"),
    }
}

#[test]
fn jmespath_rejects_oversized_numeric_literal() {
    // the engine's lexer reads digit runs into a 32-bit integer; the
    // handler refuses such expressions instead of reaching the engine
    let j = job(
        "jmespath",
        obj(vec![
            ("expression", JsonValue::Str("foo[999999999999]".into())),
            ("data", obj(vec![])),
        ]),
    );
    let o = handle_jmespath(&j);
    assert!(matches!(o.status, ExecStatus::Error));
    assert_eq!(o.error_code.as_deref(), Some("JMESPATH_COMPILE_ERROR"));
    // an in-range index still reaches the engine
    let ok = job(
        "jmespath",
        obj(vec![
            ("expression", JsonValue::Str("foo[0]".into())),
            ("data", obj(vec![("foo", JsonValue::Arr(vec![JsonValue::I64(7)]))])),
        ]),
    );
    let o2 = handle_jmespath(&ok);
    assert!(matches!(o2.status, ExecStatus::Success));
    match o2.output.unwrap() {
        JsonValue::I64(n) => assert_eq!(n, 7),
        _ => panic!("expected the element"),
    }
    // digit runs inside quoted identifiers and plain identifiers are not
    // numeric literals, so the screen lets them through to the engine
    let quoted = job(
        "jmespath",
        obj(vec![
            ("expression", JsonValue::Str("foo.\"12345678901\"".into())),
            (
                "data",
                obj(vec![("foo", obj(vec![("12345678901", JsonValue::Str("deep".into()))]))]),
            ),
        ]),
    );
    let o3 = handle_jmespath(&quoted);
    assert!(matches!(o3.status, ExecStatus::Success));
    match o3.output.unwrap() {
        JsonValue::Str(s) => assert_eq!(s, "deep"),
        _ => panic!("expected the quoted-identifier lookup"),
    }
    let ident = job(
        "jmespath",
        obj(vec![
            ("expression", JsonValue::Str("a12345678901234".into())),
            ("data", obj(vec![("a12345678901234", JsonValue::I64(5))])),
        ]),
    );
    let o4 = handle_jmespath(&ident);
    assert!(matches!(o4.status, ExecStatus::Success));
}

#[test]
fn jmespath_missing_expression() {
    let j = job("jmespath", obj(vec![]));
    let o = handle_jmespath(&j);
    assert_eq!(o.error_code.as_deref(), Some("MISSING_EXPRESSION"));
}

#[test]
fn human_approval_passes_decision_through() {
    let j = job(
        "human_approval",
        obj(vec![
            ("prompt", JsonValue::Str("Do you approve this deployment?".into())),
            ("response", JsonValue::Str("Yes".into())),
        ]),
    );
    let o = handle_human_approval(&j);
    assert!(matches!(o.status, ExecStatus::Success));
    let out = o.output.unwrap();
    match out.get("decision").unwrap() {
        JsonValue::Str(s) => assert_eq!(s, "Yes"),
        _ => panic!("expected the decision"),
    }
    match out.get("prompt").unwrap() {
        JsonValue::Str(s) => assert_eq!(s, "Do you approve this deployment?"),
        _ => panic!("expected the prompt"),
    }
}
