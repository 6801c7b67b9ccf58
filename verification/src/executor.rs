//! The executor: dispatches a job to its handler and assembles the
//! result record.
//!
//! Handlers that need outside work (network, filesystem, a script engine,
//! a database pool) are returned as plans; the I/O layer performs the
//! plan and feeds what came back through the matching outcome function.
//! Everything else finishes here.
use vstd::prelude::*;

use crate::handlers::FsRead;
use crate::handlers::FsWrite;
use crate::handlers::GraphqlPlan;
use crate::handlers::HandlerOutcome;
use crate::handlers::HttpPlan;
use crate::handlers::ScriptPlan;
use crate::handlers::SqlPlan;
use crate::handlers::handle_echo;
use crate::handlers::handle_human_approval;
use crate::handlers::handle_jmespath;
use crate::handlers::fs_get_plan;
use crate::handlers::fs_put_plan;
use crate::handlers::graphql_plan;
use crate::handlers::http_plan;
use crate::handlers::script_plan;
use crate::handlers::sleep_duration;
use crate::handlers::sql_plan;
use crate::json::jv_model;
use crate::json::spec_obj_get;
use crate::json::SpecJson;
use crate::json::str_eq;
use crate::pipeline::clone_opt;
use crate::protocol::ExecAssignment;
use crate::protocol::ExecResult;
use crate::protocol::ExecStatus;
use crate::protocol::Job;
use crate::protocol::opt_view;
use vstd::string::StringExecFns;

verus! {

/// Runs assignments for one worker: its id and the base directory blob
/// paths are confined to.
pub struct Executor {
    pub worker_id: String,
    pub fs_base_dir: String,
}

/// What must happen to finish a job: either it is already finished, or
/// the named outside work remains.
pub enum JobAction {
    Finished(HandlerOutcome),
    Sleep(u64),
    HttpRequest(HttpPlan),
    GraphqlRequest(GraphqlPlan),
    ReadBlob(FsRead),
    WriteBlob(FsWrite),
    EvalScript(ScriptPlan),
    SqlQuery(SqlPlan),
}

impl Executor {
    /// An executor for the given worker.
    pub fn new(worker_id: String, fs_base_dir: String) -> (r: Self)
        ensures
            r.worker_id@ == worker_id@,
            r.fs_base_dir@ == fs_base_dir@,
    {
        Executor { worker_id, fs_base_dir }
    }

    /// This worker's id.
    pub fn id(&self) -> (r: &str)
        ensures
            r@ == self.worker_id@,
    {
        self.worker_id.as_str()
    }

    /// Dispatches a job by its type. Known types map to their handler's
    /// outcome or plan; an unknown type finishes at once with
    /// `UNKNOWN_JOB_TYPE` and a message naming it.
    pub fn plan_job(&self, job: &Job) -> (r: JobAction)
        ensures
            job.job_type@ == "echo"@ ==> (r matches JobAction::Finished(o) && o.status
                == ExecStatus::Success && o.job_type@ == job.job_type@ && (
            o.output matches Some(out) && jv_model(out) == jv_model(job.payload))
                && o.error_code is None && o.error_message is None),
            job.job_type@ == "sleep"@ ==> (r matches JobAction::Sleep(ms) && ms == (
            match spec_obj_get(jv_model(job.payload), "ms"@) {
                Some(j) => match crate::json::spec_as_u64(j) {
                    Some(n) => n,
                    None => 100,
                },
                None => 100,
            })),
            job.job_type@ == "http"@ ==> (r is HttpRequest || (r matches JobAction::Finished(o)
                && o.status == ExecStatus::Error && (o.error_code matches Some(c) && (c@
                == "MISSING_URL"@ || c@ == "INVALID_METHOD"@)))),
            job.job_type@ == "http"@ && (r matches JobAction::Finished(o) && (
            o.error_code matches Some(c) && c@ == "MISSING_URL"@)) ==> !({
                let u = spec_obj_get(jv_model(job.payload), "url"@);
                u matches Some(j) && j is Str
            }),
            job.job_type@ == "http"@ && (r matches JobAction::Finished(o) && (
            o.error_code matches Some(c) && c@ == "INVALID_METHOD"@)) ==> ({
                let me = spec_obj_get(jv_model(job.payload), "method"@);
                let resolved = if me matches Some(mj) && mj is Str {
                    me->Some_0->Str_0
                } else {
                    "GET"@
                };
                !crate::handlers::spec_method_ok(vstd::utf8::encode_utf8(resolved))
            }),
            job.job_type@ == "http"@ && ({
                let u = spec_obj_get(jv_model(job.payload), "url"@);
                let me = spec_obj_get(jv_model(job.payload), "method"@);
                let resolved = if me matches Some(mj) && mj is Str {
                    me->Some_0->Str_0
                } else {
                    "GET"@
                };
                (u matches Some(j) && j is Str) && crate::handlers::spec_method_ok(
                    vstd::utf8::encode_utf8(resolved),
                )
            }) ==> (r matches JobAction::HttpRequest(plan) && spec_obj_get(
                jv_model(job.payload),
                "url"@,
            ) == Some(SpecJson::Str(plan.url@)) && plan.method@ == ({
                let me = spec_obj_get(jv_model(job.payload), "method"@);
                if me matches Some(mj) && mj is Str {
                    me->Some_0->Str_0
                } else {
                    "GET"@
                }
            })),
            job.job_type@ == "graphql"@ ==> (r is GraphqlRequest || (
            r matches JobAction::Finished(o) && o.status == ExecStatus::Error && (
            o.error_code matches Some(c) && (c@ == "MISSING_URL"@ || c@ == "MISSING_QUERY"@)))),
            job.job_type@ == "graphql"@ && (r matches JobAction::Finished(o) && (
            o.error_code matches Some(c) && c@ == "MISSING_URL"@)) ==> !({
                let u = spec_obj_get(jv_model(job.payload), "url"@);
                u matches Some(j) && j is Str
            }),
            job.job_type@ == "graphql"@ && (r matches JobAction::Finished(o) && (
            o.error_code matches Some(c) && c@ == "MISSING_QUERY"@)) ==> !({
                let q = spec_obj_get(jv_model(job.payload), "query"@);
                q matches Some(j) && j is Str
            }),
            job.job_type@ == "graphql"@ && ({
                let u = spec_obj_get(jv_model(job.payload), "url"@);
                let q = spec_obj_get(jv_model(job.payload), "query"@);
                (u matches Some(j) && j is Str) && (q matches Some(j2) && j2 is Str)
            }) ==> (r matches JobAction::GraphqlRequest(plan) && spec_obj_get(
                jv_model(job.payload),
                "url"@,
            ) == Some(SpecJson::Str(plan.url@))),
            job.job_type@ == "jmespath"@ ==> r is Finished,
            job.job_type@ == "javascript"@ ==> (r is EvalScript || (
            r matches JobAction::Finished(o) && o.status == ExecStatus::Error && (
            o.error_code matches Some(c) && c@ == "MISSING_CODE"@ && !({
                let cd = spec_obj_get(jv_model(job.payload), "code"@);
                cd matches Some(j) && j is Str
            })))),
            job.job_type@ == "javascript"@ && ({
                let cd = spec_obj_get(jv_model(job.payload), "code"@);
                cd matches Some(j) && j is Str
            }) ==> (r matches JobAction::EvalScript(plan) && spec_obj_get(
                jv_model(job.payload),
                "code"@,
            ) == Some(SpecJson::Str(plan.code@))),
            job.job_type@ == "sql"@ ==> (r is SqlQuery || (r matches JobAction::Finished(o)
                && o.status == ExecStatus::Error && (o.error_code matches Some(c) && (c@
                == "MISSING_CONNECTION_STRING"@ || c@ == "MISSING_QUERY"@)))),
            job.job_type@ == "sql"@ && (r matches JobAction::Finished(o) && (
            o.error_code matches Some(c) && c@ == "MISSING_CONNECTION_STRING"@)) ==> !({
                let cs = spec_obj_get(jv_model(job.payload), "connection_string"@);
                cs matches Some(j) && j is Str
            }),
            job.job_type@ == "sql"@ && (r matches JobAction::Finished(o) && (
            o.error_code matches Some(c) && c@ == "MISSING_QUERY"@)) ==> !({
                let q = spec_obj_get(jv_model(job.payload), "query"@);
                q matches Some(j) && j is Str
            }),
            job.job_type@ == "sql"@ && ({
                let cs = spec_obj_get(jv_model(job.payload), "connection_string"@);
                let q = spec_obj_get(jv_model(job.payload), "query"@);
                (cs matches Some(j) && j is Str) && (q matches Some(j2) && j2 is Str)
            }) ==> (r matches JobAction::SqlQuery(plan) && spec_obj_get(
                jv_model(job.payload),
                "connection_string"@,
            ) == Some(SpecJson::Str(plan.connection_string@)) && spec_obj_get(
                jv_model(job.payload),
                "query"@,
            ) == Some(SpecJson::Str(plan.query@))),
            job.job_type@ == "fs_blob_get"@ ==> (r is ReadBlob || r is Finished),
            job.job_type@ == "fs_blob_put"@ ==> (r is WriteBlob || r is Finished),
            job.job_type@ == "human_approval"@ ==> r is Finished,
            (job.job_type@ != "echo"@ && job.job_type@ != "sleep"@ && job.job_type@ != "http"@
                && job.job_type@ != "graphql"@ && job.job_type@ != "jmespath"@ && job.job_type@
                != "javascript"@ && job.job_type@ != "sql"@ && job.job_type@ != "fs_blob_get"@
                && job.job_type@ != "fs_blob_put"@ && job.job_type@ != "human_approval"@) ==> (
            r matches JobAction::Finished(o) && o.status == ExecStatus::Error && o.job_type@
                == job.job_type@ && o.output is None && (o.error_code matches Some(c) && c@
                == "UNKNOWN_JOB_TYPE"@) && (o.error_message matches Some(msg) && msg@
                == "Unknown job type: "@ + job.job_type@)),
            job.job_type@ == "fs_blob_get"@ && (r matches JobAction::Finished(o) && (
            o.error_code matches Some(c) && c@ == "INVALID_PATH"@)) ==> ({
                let p = spec_obj_get(jv_model(job.payload), "path"@);
                p matches Some(j) && j is Str && !crate::handlers::spec_path_confined(
                    vstd::utf8::encode_utf8(j->Str_0),
                )
            }),
            job.job_type@ == "fs_blob_get"@ && (r matches JobAction::Finished(o) && (
            o.error_code matches Some(c) && c@ == "MISSING_PATH"@)) ==> !({
                let p = spec_obj_get(jv_model(job.payload), "path"@);
                p matches Some(j) && j is Str
            }),
            job.job_type@ == "fs_blob_get"@ && ({
                let p = spec_obj_get(jv_model(job.payload), "path"@);
                p matches Some(j) && j is Str && crate::handlers::spec_path_confined(
                    vstd::utf8::encode_utf8(j->Str_0),
                )
            }) ==> (r matches JobAction::ReadBlob(plan) && spec_obj_get(
                jv_model(job.payload),
                "path"@,
            ) == Some(SpecJson::Str(plan.path@))),
            job.job_type@ == "fs_blob_put"@ && (r matches JobAction::Finished(o) && (
            o.error_code matches Some(c) && c@ == "INVALID_PATH"@)) ==> ({
                let p = spec_obj_get(jv_model(job.payload), "path"@);
                p matches Some(j) && j is Str && !crate::handlers::spec_path_confined(
                    vstd::utf8::encode_utf8(j->Str_0),
                )
            }),
            job.job_type@ == "fs_blob_put"@ && (r matches JobAction::Finished(o) && (
            o.error_code matches Some(c) && c@ == "MISSING_PATH"@)) ==> !({
                let p = spec_obj_get(jv_model(job.payload), "path"@);
                p matches Some(j) && j is Str
            }),
    {
        proof {
            reveal_strlit("echo");
            reveal_strlit("sleep");
            reveal_strlit("http");
            reveal_strlit("graphql");
            reveal_strlit("jmespath");
            reveal_strlit("javascript");
            reveal_strlit("sql");
            reveal_strlit("fs_blob_get");
            reveal_strlit("fs_blob_put");
            reveal_strlit("human_approval");
            assert("echo"@.len() == 4);
            assert("sleep"@.len() == 5);
            assert("http"@.len() == 4);
            assert("graphql"@.len() == 7);
            assert("jmespath"@.len() == 8);
            assert("javascript"@.len() == 10);
            assert("sql"@.len() == 3);
            assert("fs_blob_get"@.len() == 11);
            assert("fs_blob_put"@.len() == 11);
            assert("human_approval"@.len() == 14);
            assert("echo"@ != "http"@) by {
                assert("echo"@[0] == 'e');
                assert("http"@[0] == 'h');
            }
            assert("fs_blob_get"@ != "fs_blob_put"@) by {
                assert("fs_blob_get"@[8] == 'g');
                assert("fs_blob_put"@[8] == 'p');
            }
            reveal_strlit("MISSING_PATH");
            reveal_strlit("INVALID_PATH");
            reveal_strlit("BASE64_DECODE_ERROR");
            reveal_strlit("MISSING_CONTENT");
            assert("MISSING_PATH"@.len() == 12);
            assert("INVALID_PATH"@.len() == 12);
            assert("BASE64_DECODE_ERROR"@.len() == 19);
            assert("MISSING_CONTENT"@.len() == 15);
            assert("MISSING_PATH"@ != "INVALID_PATH"@) by {
                assert("MISSING_PATH"@[0] == 'M');
                assert("INVALID_PATH"@[0] == 'I');
            }
            reveal_strlit("MISSING_URL");
            reveal_strlit("INVALID_METHOD");
            reveal_strlit("MISSING_QUERY");
            reveal_strlit("MISSING_CONNECTION_STRING");
            reveal_strlit("MISSING_CODE");
            assert("MISSING_URL"@.len() == 11);
            assert("INVALID_METHOD"@.len() == 14);
            assert("MISSING_QUERY"@.len() == 13);
            assert("MISSING_CONNECTION_STRING"@.len() == 25);
            assert("MISSING_CODE"@.len() == 12);
        }
        let t = job.job_type.as_str();
        if str_eq(t, "echo") {
            JobAction::Finished(handle_echo(job))
        } else if str_eq(t, "sleep") {
            JobAction::Sleep(sleep_duration(job))
        } else if str_eq(t, "http") {
            match http_plan(job) {
                Ok(plan) => JobAction::HttpRequest(plan),
                Err(o) => JobAction::Finished(o),
            }
        } else if str_eq(t, "graphql") {
            match graphql_plan(job) {
                Ok(plan) => JobAction::GraphqlRequest(plan),
                Err(o) => JobAction::Finished(o),
            }
        } else if str_eq(t, "jmespath") {
            JobAction::Finished(handle_jmespath(job))
        } else if str_eq(t, "javascript") {
            match script_plan(job) {
                Ok(plan) => JobAction::EvalScript(plan),
                Err(o) => JobAction::Finished(o),
            }
        } else if str_eq(t, "sql") {
            match sql_plan(job) {
                Ok(plan) => JobAction::SqlQuery(plan),
                Err(o) => JobAction::Finished(o),
            }
        } else if str_eq(t, "fs_blob_get") {
            match fs_get_plan(job) {
                Ok(plan) => JobAction::ReadBlob(plan),
                Err(o) => JobAction::Finished(o),
            }
        } else if str_eq(t, "fs_blob_put") {
            match fs_put_plan(job) {
                Ok(plan) => JobAction::WriteBlob(plan),
                Err(o) => JobAction::Finished(o),
            }
        } else if str_eq(t, "human_approval") {
            JobAction::Finished(handle_human_approval(job))
        } else {
            let mut msg = String::from_str("Unknown job type: ");
            msg.append(t);
            JobAction::Finished(
                HandlerOutcome {
                    status: ExecStatus::Error,
                    job_type: job.job_type.clone(),
                    output: None,
                    error_code: Some(String::from_str("UNKNOWN_JOB_TYPE")),
                    error_message: Some(msg),
                },
            )
        }
    }

    /// Assembles the result record for one finished handler: the
    /// assignment's ids and the worker id are echoed, the outcome's
    /// status, output and errors are carried over, and the measured wall
    /// time becomes the latency.
    pub fn assemble_result(&self, a: &ExecAssignment, outcome: HandlerOutcome, latency_ms: u64) -> (
        r: ExecResult)
        ensures
            r.version@ == "1.0"@,
            r.assignment_id@ == a.assignment_id@,
            r.request_id@ == a.request_id@,
            r.status == outcome.status,
            r.provider_id@ == self.worker_id@,
            r.job_type@ == outcome.job_type@,
            r.output == outcome.output,
            r.latency_ms == latency_ms,
            r.cost == 0,
            opt_view(r.trace_id) == opt_view(a.trace_id),
            r.tenant_id matches Some(t) && t@ == a.tenant_id@,
            opt_view(r.run_id) == opt_view(a.run_id),
            r.error_code == outcome.error_code,
            r.error_message == outcome.error_message,
    {
        ExecResult {
            version: String::from_str("1.0"),
            assignment_id: a.assignment_id.clone(),
            request_id: a.request_id.clone(),
            status: outcome.status,
            provider_id: self.worker_id.clone(),
            job_type: outcome.job_type,
            output: outcome.output,
            latency_ms,
            cost: 0,
            trace_id: clone_opt(&a.trace_id),
            tenant_id: Some(a.tenant_id.clone()),
            run_id: clone_opt(&a.run_id),
            error_code: outcome.error_code,
            error_message: outcome.error_message,
        }
    }
}

} // verus!
