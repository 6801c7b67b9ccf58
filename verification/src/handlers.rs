//! Job handlers: the pure part of each handler and the plans it hands to
//! the I/O layer.
//!
//! Each handler validates its payload and either finishes immediately
//! (echo, human approval, JMESPath, and every validation failure) or
//! returns a plan naming the outside work to perform; a matching
//! `*_outcome` function turns what came back into the handler's
//! five-part outcome. Filesystem paths are confined: absolute paths and
//! parent-directory segments are refused before any plan is made.
use vstd::prelude::*;

use crate::error::contains_sub;
use crate::error::spec_contains;
use crate::json::JsonValue;
use crate::json::SpecJson;
use crate::json::MINUS;
use crate::json::jv_model;
use crate::json::spec_obj_get;
use crate::protocol::ExecStatus;
use crate::protocol::Job;
use vstd::string::StrSliceExecFns;
use vstd::string::StringExecFns;
use vstd::string::StringSliceAdditionalSpecFns;

verus! {

/// What one handler execution produced: a status, the job type echoed
/// back, and an optional output or error pair.
pub struct HandlerOutcome {
    pub status: ExecStatus,
    pub job_type: String,
    pub output: Option<JsonValue>,
    pub error_code: Option<String>,
    pub error_message: Option<String>,
}

/// An error outcome with the given code and message.
fn error_outcome(job: &Job, code: &str, message: &str) -> (r: HandlerOutcome)
    ensures
        r.status == ExecStatus::Error,
        r.job_type@ == job.job_type@,
        r.output is None,
        r.error_code matches Some(c) && c@ == code@,
        r.error_message matches Some(msg) && msg@ == message@,
{
    HandlerOutcome {
        status: ExecStatus::Error,
        job_type: job.job_type.clone(),
        output: None,
        error_code: Some(code.to_owned()),
        error_message: Some(message.to_owned()),
    }
}

/// A success outcome with the given output.
fn success_outcome(job: &Job, output: Option<JsonValue>) -> (r: HandlerOutcome)
    ensures
        r.status == ExecStatus::Success,
        r.job_type@ == job.job_type@,
        output matches Some(b) ==> (r.output matches Some(a) && jv_model(a) == jv_model(b)),
        output is None ==> r.output is None,
        r.error_code is None,
        r.error_message is None,
{
    HandlerOutcome {
        status: ExecStatus::Success,
        job_type: job.job_type.clone(),
        output,
        error_code: None,
        error_message: None,
    }
}

/// Echo: succeeds with the payload returned verbatim.
pub fn handle_echo(job: &Job) -> (r: HandlerOutcome)
    ensures
        r.status == ExecStatus::Success,
        r.job_type@ == job.job_type@,
        r.output matches Some(out) && jv_model(out) == jv_model(job.payload),
        r.error_code is None,
        r.error_message is None,
{
    success_outcome(job, Some(job.payload.duplicate()))
}

/// Human approval: passes the recorded decision through. The payload's
/// `response` becomes the decision; a payload without one is refused.
pub fn handle_human_approval(job: &Job) -> (r: HandlerOutcome)
    ensures
        ({
            let resp = spec_obj_get(jv_model(job.payload), "response"@);
            if resp matches Some(j) && j is Str {
                &&& r.status == ExecStatus::Success
                &&& r.output matches Some(out) && jv_model(out) == SpecJson::Obj(
                    seq![
                        ("decision"@, resp->Some_0),
                        (
                            "prompt"@,
                            match spec_obj_get(jv_model(job.payload), "prompt"@) {
                                Some(p) => p,
                                None => SpecJson::Null,
                            },
                        ),
                    ],
                )
            } else {
                r.status == ExecStatus::Error && (r.error_code matches Some(c) && c@
                    == "MISSING_RESPONSE"@)
            }
        }),
        r.job_type@ == job.job_type@,
{
    let decision = match job.payload.get("response") {
        Some(j) => match j.as_str() {
            Some(s) => s.clone(),
            None => {
                return error_outcome(job, "MISSING_RESPONSE", "Missing 'response' in payload");
            }
        },
        None => {
            return error_outcome(job, "MISSING_RESPONSE", "Missing 'response' in payload");
        }
    };
    let ghost decision_view = decision@;
    proof {
        assert(spec_obj_get(jv_model(job.payload), "response"@) == Some(
            SpecJson::Str(decision_view),
        ));
    }
    let prompt = match job.payload.get("prompt") {
        Some(j) => j.duplicate(),
        None => JsonValue::Null,
    };
    let ghost prompt_view = jv_model(prompt);
    proof {
        assert(prompt_view == (match spec_obj_get(jv_model(job.payload), "prompt"@) {
            Some(p) => p,
            None => SpecJson::Null,
        }));
    }
    let mut members: Vec<(String, JsonValue)> = Vec::new();
    members.push((String::from_str("decision"), JsonValue::Str(decision)));
    members.push((String::from_str("prompt"), prompt));
    let out = JsonValue::Obj(members);
    proof {
        crate::json::lemma_jv_model_members(out->Obj_0@);
        assert(crate::json::jv_model_members(out->Obj_0@) =~= SpecJson::Obj(
            seq![("decision"@, SpecJson::Str(decision_view)), ("prompt"@, prompt_view)],
        )->Obj_0);
        assert(jv_model(out) == SpecJson::Obj(
            seq![("decision"@, SpecJson::Str(decision_view)), ("prompt"@, prompt_view)],
        ));
    }
    let outcome = success_outcome(job, Some(out));
    proof {
        let resp = spec_obj_get(jv_model(job.payload), "response"@);
        assert(resp matches Some(j) && j is Str);
        assert(resp->Some_0 == SpecJson::Str(decision_view));
        assert(outcome.status == ExecStatus::Success);
        assert(outcome.output matches Some(o2) && jv_model(o2) == SpecJson::Obj(
            seq![("decision"@, SpecJson::Str(decision_view)), ("prompt"@, prompt_view)],
        ));
        assert(seq![("decision"@, SpecJson::Str(decision_view)), ("prompt"@, prompt_view)] =~= seq![
            ("decision"@, resp->Some_0),
            (
                "prompt"@,
                match spec_obj_get(jv_model(job.payload), "prompt"@) {
                    Some(p) => p,
                    None => SpecJson::Null,
                },
            ),
        ]);
    }
    outcome
}

/// The sleep duration a sleep job asks for: its `ms`, or 100 when absent.
pub fn sleep_duration(job: &Job) -> (r: u64)
    ensures
        r == (match spec_obj_get(jv_model(job.payload), "ms"@) {
            Some(j) => match crate::json::spec_as_u64(j) {
                Some(n) => n,
                None => 100,
            },
            None => 100,
        }),
{
    match job.payload.get("ms") {
        Some(j) => match j.as_u64() {
            Some(n) => n,
            None => 100,
        },
        None => 100,
    }
}

/// The outcome of a completed sleep: success with no output.
pub fn sleep_outcome(job: &Job) -> (r: HandlerOutcome)
    ensures
        r.status == ExecStatus::Success,
        r.job_type@ == job.job_type@,
        r.output is None,
        r.error_code is None,
        r.error_message is None,
{
    success_outcome(job, None)
}

/// A path is confined when it is relative and never names a parent
/// directory.
pub open spec fn spec_path_confined(bs: Seq<u8>) -> bool {
    !spec_contains(bs, vstd::utf8::encode_utf8(".."@)) && (bs.len() == 0 || bs[0] != 0x2f)
}

/// Whether a blob path stays inside the base directory.
pub fn path_confined(path: &str) -> (r: bool)
    ensures
        r == spec_path_confined(path.spec_bytes()),
{
    let b = path.as_bytes();
    if b.len() > 0 && b[0] == 0x2f {
        return false;
    }
    !contains_sub(b, "..".as_bytes())
}


/// Name for what base64's standard encoder returns on given bytes.
pub uninterp spec fn b64_of(b: Seq<u8>) -> Seq<char>;

/// Relies on base64's `STANDARD` engine `encode`: the encoding of the
/// input bytes, which depends on the bytes alone; empty input encodes to
/// the empty string, and `decode` of the result returns the input.
#[verifier::external_body]
fn b64_encode(b: &[u8]) -> (r: String)
    ensures
        r@ == b64_of(b@),
        b@.len() == 0 ==> r@.len() == 0,
        b64_decode_of(r@) == Some(b@),
{
    base64::Engine::encode(&base64::engine::general_purpose::STANDARD, b)
}

/// Name for what base64's standard decoder returns on a given string:
/// the bytes, or nothing when the string is not valid base64.
pub uninterp spec fn b64_decode_of(s: Seq<char>) -> Option<Seq<u8>>;

/// Relies on base64's `STANDARD` engine `decode`: succeeds exactly on
/// valid base64, returning bytes that depend on the string alone; the
/// engine requires canonical padding and forbids stray trailing bits, so
/// an accepted string is exactly the encoding of its bytes; the error
/// text is passed through.
#[verifier::external_body]
fn b64_decode(s: &str) -> (r: Result<Vec<u8>, String>)
    ensures
        match r {
            Ok(v) => (b64_decode_of(s@) matches Some(b) && v@ == b) && b64_of(v@) == s@,
            Err(_) => b64_decode_of(s@) is None,
        },
{
    match base64::Engine::decode(&base64::engine::general_purpose::STANDARD, s) {
        Ok(v) => Ok(v),
        Err(e) => Err(e.to_string()),
    }
}

/// A planned filesystem read: the confined path relative to the base
/// directory.
pub struct FsRead {
    pub path: String,
}

/// A planned filesystem write: the confined relative path and the bytes.
pub struct FsWrite {
    pub path: String,
    pub contents: Vec<u8>,
}

/// The payload's `path`, checked for presence and confinement.
fn checked_path(job: &Job) -> (r: Result<String, HandlerOutcome>)
    ensures
        ({
            let p = spec_obj_get(jv_model(job.payload), "path"@);
            match r {
                Ok(path) => (p matches Some(j) && j == SpecJson::Str(path@))
                    && spec_path_confined(vstd::utf8::encode_utf8(path@)),
                Err(o) => {
                    &&& o.status == ExecStatus::Error
                    &&& o.job_type@ == job.job_type@
                    &&& (o.error_code matches Some(c) && (c@ == "MISSING_PATH"@ || c@
                        == "INVALID_PATH"@))
                    &&& ((o.error_code matches Some(c) && c@ == "INVALID_PATH"@) ==> (
                    p matches Some(j) && j is Str && !spec_path_confined(
                        vstd::utf8::encode_utf8(j->Str_0),
                    )))
                    &&& ((o.error_code matches Some(c) && c@ == "MISSING_PATH"@) ==> !(
                    p matches Some(j) && j is Str))
                },
            }
        }),
{
    proof {
        reveal_strlit("MISSING_PATH");
        reveal_strlit("INVALID_PATH");
        assert("MISSING_PATH"@ != "INVALID_PATH"@) by {
            assert("MISSING_PATH"@[0] == 'M');
            assert("INVALID_PATH"@[0] == 'I');
        }
    }
    let path = match job.payload.get("path") {
        Some(j) => match j.as_str() {
            Some(st) => st.clone(),
            None => {
                return Err(error_outcome(job, "MISSING_PATH", "Missing 'path' in payload"));
            }
        },
        None => {
            return Err(error_outcome(job, "MISSING_PATH", "Missing 'path' in payload"));
        }
    };
    if !path_confined(path.as_str()) {
        return Err(
            error_outcome(job, "INVALID_PATH", "Path traversal or absolute path not allowed"),
        );
    }
    Ok(path)
}

/// Plans a blob read: the payload's confined `path`, or the failure.
pub fn fs_get_plan(job: &Job) -> (r: Result<FsRead, HandlerOutcome>)
    ensures
        ({
            let p = spec_obj_get(jv_model(job.payload), "path"@);
            match r {
                Ok(plan) => (p matches Some(j) && j == SpecJson::Str(plan.path@))
                    && spec_path_confined(vstd::utf8::encode_utf8(plan.path@)),
                Err(o) => o.status == ExecStatus::Error && o.job_type@ == job.job_type@ && (
                o.error_code matches Some(c) && (c@ == "MISSING_PATH"@ || c@ == "INVALID_PATH"@)),
            }
        }),
        r matches Err(o) && (o.error_code matches Some(c) && c@ == "INVALID_PATH"@) ==> ({
            let p = spec_obj_get(jv_model(job.payload), "path"@);
            p matches Some(j) && j is Str && !spec_path_confined(
                vstd::utf8::encode_utf8(j->Str_0),
            )
        }),
        r matches Err(o) && (o.error_code matches Some(c) && c@ == "MISSING_PATH"@) ==> !({
            let p = spec_obj_get(jv_model(job.payload), "path"@);
            p matches Some(j) && j is Str
        }),
        ({
            let p = spec_obj_get(jv_model(job.payload), "path"@);
            p matches Some(j) && j is Str && spec_path_confined(vstd::utf8::encode_utf8(j->Str_0))
        }) ==> r is Ok,
{
    match checked_path(job) {
        Ok(path) => Ok(FsRead { path }),
        Err(o) => Err(o),
    }
}

/// Finishes a blob read: the bytes are returned base64-encoded with the
/// path and size; a read failure becomes `FILE_READ_ERROR`.
pub fn fs_get_outcome(job: &Job, path: &str, read: Result<Vec<u8>, String>) -> (r: HandlerOutcome)
    requires
        (read matches Ok(content) ==> content@.len() <= i64::MAX),
    ensures
        match read {
            Ok(content) => {
                &&& r.status == ExecStatus::Success
                &&& r.job_type@ == job.job_type@
                &&& r.output matches Some(out) && jv_model(out) == SpecJson::Obj(
                    seq![
                        ("path"@, SpecJson::Str(path@)),
                        ("bytes"@, SpecJson::Str(b64_of(content@))),
                        ("size"@, SpecJson::I64(content@.len() as i64)),
                    ],
                )
            },
            Err(msg) => r.status == ExecStatus::Error && r.job_type@ == job.job_type@ && (
            r.error_code matches Some(c) && c@ == "FILE_READ_ERROR"@) && (
            r.error_message matches Some(m2) && m2@ == msg@),
        },
{
    match read {
        Ok(content) => {
            let encoded = b64_encode(content.as_slice());
            let size = content.len();
            let mut members: Vec<(String, JsonValue)> = Vec::new();
            members.push((String::from_str("path"), JsonValue::Str(path.to_owned())));
            members.push((String::from_str("bytes"), JsonValue::Str(encoded)));
            members.push((String::from_str("size"), JsonValue::I64(size as i64)));
            let out = JsonValue::Obj(members);
            proof {
                crate::json::lemma_jv_model_members(out->Obj_0@);
                assert(crate::json::jv_model_members(out->Obj_0@) =~= SpecJson::Obj(
                    seq![
                        ("path"@, SpecJson::Str(path@)),
                        ("bytes"@, SpecJson::Str(b64_of(content@))),
                        ("size"@, SpecJson::I64(content@.len() as i64)),
                    ],
                )->Obj_0);
            }
            success_outcome(job, Some(out))
        }
        Err(msg) => error_outcome(job, "FILE_READ_ERROR", msg.as_str()),
    }
}

/// Plans a blob write: the confined `path` and the contents, from base64
/// `bytes` or a plain `content` string; or the failure.
pub fn fs_put_plan(job: &Job) -> (r: Result<FsWrite, HandlerOutcome>)
    ensures
        ({
            let p = spec_obj_get(jv_model(job.payload), "path"@);
            let by = spec_obj_get(jv_model(job.payload), "bytes"@);
            let co = spec_obj_get(jv_model(job.payload), "content"@);
            match r {
                Ok(plan) => {
                    &&& (p matches Some(j) && j == SpecJson::Str(plan.path@))
                    &&& spec_path_confined(vstd::utf8::encode_utf8(plan.path@))
                    &&& if by matches Some(bj) && bj is Str {
                        b64_decode_of(by->Some_0->Str_0) == Some(plan.contents@)
                    } else {
                        co matches Some(cj) && cj is Str && plan.contents@
                            == vstd::utf8::encode_utf8(cj->Str_0)
                    }
                },
                Err(o) => o.status == ExecStatus::Error && o.job_type@ == job.job_type@ && (
                o.error_code matches Some(c) && (c@ == "MISSING_PATH"@ || c@ == "INVALID_PATH"@
                    || c@ == "BASE64_DECODE_ERROR"@ || c@ == "MISSING_CONTENT"@)),
            }
        }),
        r matches Err(o) && (o.error_code matches Some(c) && c@ == "INVALID_PATH"@) ==> ({
            let p = spec_obj_get(jv_model(job.payload), "path"@);
            p matches Some(j) && j is Str && !spec_path_confined(
                vstd::utf8::encode_utf8(j->Str_0),
            )
        }),
        r matches Err(o) && (o.error_code matches Some(c) && c@ == "MISSING_PATH"@) ==> !({
            let p = spec_obj_get(jv_model(job.payload), "path"@);
            p matches Some(j) && j is Str
        }),
        r matches Err(o) && (o.error_code matches Some(c) && c@ == "BASE64_DECODE_ERROR"@) ==> ({
            let by = spec_obj_get(jv_model(job.payload), "bytes"@);
            by matches Some(bj) && bj is Str && b64_decode_of(bj->Str_0) is None
        }),
        r matches Err(o) && (o.error_code matches Some(c) && c@ == "MISSING_CONTENT"@) ==> ({
            let by = spec_obj_get(jv_model(job.payload), "bytes"@);
            let co = spec_obj_get(jv_model(job.payload), "content"@);
            !(by matches Some(bj) && bj is Str) && !(co matches Some(cj) && cj is Str)
        }),
        ({
            let p = spec_obj_get(jv_model(job.payload), "path"@);
            let by = spec_obj_get(jv_model(job.payload), "bytes"@);
            let co = spec_obj_get(jv_model(job.payload), "content"@);
            (p matches Some(j) && j is Str && spec_path_confined(vstd::utf8::encode_utf8(j->Str_0)))
                && (if by matches Some(bj) && bj is Str {
                b64_decode_of(by->Some_0->Str_0) is Some
            } else {
                co matches Some(cj) && cj is Str
            })
        }) ==> r is Ok,
{
    proof {
        reveal_strlit("MISSING_PATH");
        reveal_strlit("INVALID_PATH");
        reveal_strlit("BASE64_DECODE_ERROR");
        reveal_strlit("MISSING_CONTENT");
        assert("MISSING_PATH"@.len() == 12);
        assert("INVALID_PATH"@.len() == 12);
        assert("BASE64_DECODE_ERROR"@.len() == 19);
        assert("MISSING_CONTENT"@.len() == 15);
        assert("MISSING_PATH"@ != "INVALID_PATH"@) by {
            assert("MISSING_PATH"@[0] == 'M');
            assert("INVALID_PATH"@[0] == 'I');
        }
    }
    let path = match checked_path(job) {
        Ok(p) => p,
        Err(o) => {
            return Err(o);
        }
    };
    let contents: Vec<u8> = match job.payload.get("bytes") {
        Some(j) => match j.as_str() {
            Some(b64s) => match b64_decode(b64s.as_str()) {
                Ok(v) => v,
                Err(e) => {
                    return Err(error_outcome(job, "BASE64_DECODE_ERROR", e.as_str()));
                }
            },
            None => {
                return fs_put_contents_fallback(job, path);
            }
        },
        None => {
            return fs_put_contents_fallback(job, path);
        }
    };
    Ok(FsWrite { path, contents })
}

/// The `content` fallback for a blob write without usable `bytes`.
fn fs_put_contents_fallback(job: &Job, path: String) -> (r: Result<FsWrite, HandlerOutcome>)
    requires
        !({
            let by = spec_obj_get(jv_model(job.payload), "bytes"@);
            by matches Some(bj) && bj is Str
        }),
        spec_path_confined(vstd::utf8::encode_utf8(path@)),
        ({
            let p = spec_obj_get(jv_model(job.payload), "path"@);
            p matches Some(j) && j == SpecJson::Str(path@)
        }),
    ensures
        ({
            let p = spec_obj_get(jv_model(job.payload), "path"@);
            let by = spec_obj_get(jv_model(job.payload), "bytes"@);
            let co = spec_obj_get(jv_model(job.payload), "content"@);
            match r {
                Ok(plan) => {
                    &&& (p matches Some(j) && j == SpecJson::Str(plan.path@))
                    &&& spec_path_confined(vstd::utf8::encode_utf8(plan.path@))
                    &&& if by matches Some(bj) && bj is Str {
                        b64_decode_of(by->Some_0->Str_0) == Some(plan.contents@)
                    } else {
                        co matches Some(cj) && cj is Str && plan.contents@
                            == vstd::utf8::encode_utf8(cj->Str_0)
                    }
                },
                Err(o) => o.status == ExecStatus::Error && o.job_type@ == job.job_type@ && (
                o.error_code matches Some(c) && c@ == "MISSING_CONTENT"@),
            }
        }),
        r matches Err(o) ==> !({
            let co = spec_obj_get(jv_model(job.payload), "content"@);
            co matches Some(cj) && cj is Str
        }),
        ({
            let co = spec_obj_get(jv_model(job.payload), "content"@);
            co matches Some(cj) && cj is Str
        }) ==> r is Ok,
{
    match job.payload.get("content") {
        Some(j) => match j.as_str() {
            Some(cs) => {
                let contents = cs.as_str().as_bytes_vec();
                Ok(FsWrite { path, contents })
            }
            None => Err(
                error_outcome(
                    job,
                    "MISSING_CONTENT",
                    "Missing 'bytes' (base64) or 'content' (string) in payload",
                ),
            ),
        },
        None => Err(
            error_outcome(
                job,
                "MISSING_CONTENT",
                "Missing 'bytes' (base64) or 'content' (string) in payload",
            ),
        ),
    }
}

/// Finishes a blob write: success reports the path and size written; a
/// failure becomes the given error code.
pub fn fs_put_outcome(job: &Job, path: &str, size: usize, write: Result<(), String>) -> (r:
    HandlerOutcome)
    requires
        size <= i64::MAX,
    ensures
        match write {
            Ok(_) => {
                &&& r.status == ExecStatus::Success
                &&& r.job_type@ == job.job_type@
                &&& r.output matches Some(out) && jv_model(out) == SpecJson::Obj(
                    seq![
                        ("path"@, SpecJson::Str(path@)),
                        ("size"@, SpecJson::I64(size as i64)),
                    ],
                )
            },
            Err(msg) => r.status == ExecStatus::Error && r.job_type@ == job.job_type@ && (
            r.error_code matches Some(c) && c@ == "FILE_WRITE_ERROR"@) && (
            r.error_message matches Some(m2) && m2@ == msg@),
        },
{
    match write {
        Ok(_) => {
            let mut members: Vec<(String, JsonValue)> = Vec::new();
            members.push((String::from_str("path"), JsonValue::Str(path.to_owned())));
            members.push((String::from_str("size"), JsonValue::I64(size as i64)));
            let out = JsonValue::Obj(members);
            proof {
                crate::json::lemma_jv_model_members(out->Obj_0@);
                assert(crate::json::jv_model_members(out->Obj_0@) =~= SpecJson::Obj(
                    seq![
                        ("path"@, SpecJson::Str(path@)),
                        ("size"@, SpecJson::I64(size as i64)),
                    ],
                )->Obj_0);
            }
            success_outcome(job, Some(out))
        }
        Err(msg) => error_outcome(job, "FILE_WRITE_ERROR", msg.as_str()),
    }
}

/// A directory-creation failure during a blob write.
pub fn fs_dir_error_outcome(job: &Job, msg: &str) -> (r: HandlerOutcome)
    ensures
        r.status == ExecStatus::Error,
        r.job_type@ == job.job_type@,
        r.error_code matches Some(c) && c@ == "DIR_CREATE_ERROR"@,
        r.error_message matches Some(m2) && m2@ == msg@,
{
    error_outcome(job, "DIR_CREATE_ERROR", msg)
}


/// The string-valued members of an object, in order; other members are
/// skipped, and a non-object has none.
pub open spec fn spec_str_members(v: SpecJson) -> Seq<(Seq<char>, Seq<char>)> {
    match v {
        SpecJson::Obj(ms) => spec_str_members_of(ms),
        _ => Seq::empty(),
    }
}

/// The string-valued members of a member sequence, in order.
pub open spec fn spec_str_members_of(ms: Seq<(Seq<char>, SpecJson)>) -> Seq<(Seq<char>, Seq<char>)>
    decreases ms,
{
    if ms.len() == 0 {
        Seq::empty()
    } else {
        let rest = spec_str_members_of(ms.drop_first());
        if ms[0].1 is Str {
            seq![(ms[0].0, ms[0].1->Str_0)] + rest
        } else {
            rest
        }
    }
}

/// String members distribute over appending one member.
proof fn lemma_str_members_snoc(ms: Seq<(Seq<char>, SpecJson)>, x: (Seq<char>, SpecJson))
    ensures
        spec_str_members_of(ms + seq![x]) == spec_str_members_of(ms) + (if x.1 is Str {
            seq![(x.0, x.1->Str_0)]
        } else {
            Seq::empty()
        }),
    decreases ms.len(),
{
    if ms.len() == 0 {
        assert(ms + seq![x] =~= seq![x]);
        assert((ms + seq![x]).drop_first() =~= Seq::<(Seq<char>, SpecJson)>::empty());
        assert(spec_str_members_of((ms + seq![x]).drop_first()) =~= Seq::<(
            Seq<char>,
            Seq<char>,
        )>::empty());
        assert((ms + seq![x])[0] == x);
        assert(spec_str_members_of(ms) =~= Seq::<(Seq<char>, Seq<char>)>::empty());
        if x.1 is Str {
            assert(spec_str_members_of(ms + seq![x]) =~= spec_str_members_of(ms) + seq![
                (x.0, x.1->Str_0),
            ]);
        } else {
            assert(spec_str_members_of(ms + seq![x]) =~= spec_str_members_of(ms));
        }
    } else {
        assert((ms + seq![x]).drop_first() =~= ms.drop_first() + seq![x]);
        assert((ms + seq![x])[0] == ms[0]);
        lemma_str_members_snoc(ms.drop_first(), x);
        if x.1 is Str {
            assert(spec_str_members_of(ms + seq![x]) =~= spec_str_members_of(ms) + seq![
                (x.0, x.1->Str_0),
            ]);
        } else {
            assert(spec_str_members_of(ms + seq![x]) =~= spec_str_members_of(ms));
        }
    }
}

/// Collects the string-valued members of a document: request headers are
/// read this way, skipping anything that is not a string.
#[verifier::loop_isolation(false)]
pub fn string_members(v: &JsonValue) -> (r: Vec<(String, String)>)
    ensures
        r.deep_view() == spec_str_members(jv_model(*v)),
{
    let mut out: Vec<(String, String)> = Vec::new();
    match v {
        JsonValue::Obj(members) => {
            let ghost model = crate::json::jv_model_members(members@);
            proof {
                crate::json::lemma_jv_model_members(members@);
                assert(model.take(0) =~= Seq::<(Seq<char>, SpecJson)>::empty());
                assert(spec_str_members_of(model.take(0)) =~= Seq::<(Seq<char>, Seq<char>)>::empty());
                assert(out.deep_view() =~= spec_str_members_of(model.take(0)));
            }
            let mut k: usize = 0;
            while k < members.len()
                invariant
                    k <= members@.len(),
                    out.deep_view() == spec_str_members_of(model.take(k as int)),
                decreases members@.len() - k,
            {
                let ghost prev = out.deep_view();
                match &members[k].1 {
                    JsonValue::Str(st) => {
                        out.push((members[k].0.clone(), st.clone()));
                        proof {
                            assert(out.deep_view() =~= prev + seq![
                                (members@[k as int].0@, st@),
                            ]);
                        }
                    }
                    _ => {}
                }
                proof {
                    lemma_str_members_snoc(model.take(k as int), model[k as int]);
                    assert(model.take(k + 1 as int) =~= model.take(k as int) + seq![model[k as int]]);
                    assert(out.deep_view() =~= spec_str_members_of(model.take(k + 1 as int)));
                }
                k = k + 1;
            }
            proof {
                assert(model.take(members@.len() as int) =~= model);
            }
        }
        _ => {
            proof {
                assert(out.deep_view() =~= Seq::<(Seq<char>, Seq<char>)>::empty());
            }
        }
    }
    out
}

/// A planned HTTP request.
pub struct HttpPlan {
    pub method: String,
    pub url: String,
    pub headers: Vec<(String, String)>,
    pub body: Option<JsonValue>,
}

/// An HTTP method token: nonempty ASCII token characters.
pub open spec fn spec_method_ok(bs: Seq<u8>) -> bool {
    bs.len() > 0 && forall|i: int| 0 <= i < bs.len() ==> method_byte_ok(#[trigger] bs[i])
}

/// A byte allowed in an HTTP method token.
pub open spec fn method_byte_ok(b: u8) -> bool {
    (0x41 <= b <= 0x5a) || (0x61 <= b <= 0x7a) || (0x30 <= b <= 0x39) || b == 0x21 || (0x23 <= b
        <= 0x27) || b == 0x2a || b == 0x2b || b == 0x2d || b == 0x2e || b == 0x5e || b == 0x5f
        || b == 0x60 || b == 0x7c || b == 0x7e
}

/// Whether a string is a well-formed HTTP method token.
pub fn is_valid_method(s: &str) -> (r: bool)
    ensures
        r == spec_method_ok(s.spec_bytes()),
{
    let b = s.as_bytes();
    if b.len() == 0 {
        return false;
    }
    let mut k: usize = 0;
    while k < b.len()
        invariant
            k <= b@.len(),
            b@ == s.spec_bytes(),
            forall|i: int| 0 <= i < k ==> method_byte_ok(#[trigger] b@[i]),
        decreases b@.len() - k,
    {
        let c = b[k];
        let ok = (0x41 <= c && c <= 0x5a) || (0x61 <= c && c <= 0x7a) || (0x30 <= c && c <= 0x39)
            || c == 0x21 || (0x23 <= c && c <= 0x27) || c == 0x2a || c == 0x2b || c == 0x2d || c
            == 0x2e || c == 0x5e || c == 0x5f || c == 0x60 || c == 0x7c || c == 0x7e;
        if !ok {
            proof {
                assert(!method_byte_ok(b@[k as int]));
            }
            return false;
        }
        k = k + 1;
    }
    true
}

/// Plans an HTTP request: method (default `GET`), url, string headers,
/// and the optional body; or the validation failure.
pub fn http_plan(job: &Job) -> (r: Result<HttpPlan, HandlerOutcome>)
    ensures
        ({
            let u = spec_obj_get(jv_model(job.payload), "url"@);
            let me = spec_obj_get(jv_model(job.payload), "method"@);
            match r {
                Ok(plan) => {
                    &&& (u matches Some(j) && j == SpecJson::Str(plan.url@))
                    &&& plan.method@ == (if me matches Some(mj) && mj is Str {
                        me->Some_0->Str_0
                    } else {
                        "GET"@
                    })
                    &&& spec_method_ok(vstd::utf8::encode_utf8(plan.method@))
                    &&& plan.headers.deep_view() == spec_str_members(
                        match spec_obj_get(jv_model(job.payload), "headers"@) {
                            Some(h) => h,
                            None => SpecJson::Null,
                        },
                    )
                    &&& match spec_obj_get(jv_model(job.payload), "body"@) {
                        Some(b) => plan.body matches Some(pb) && jv_model(pb) == b,
                        None => plan.body is None,
                    }
                },
                Err(o) => o.status == ExecStatus::Error && o.job_type@ == job.job_type@ && (
                o.error_code matches Some(c) && (c@ == "MISSING_URL"@ || c@ == "INVALID_METHOD"@)),
            }
        }),
        r matches Err(o) && (o.error_code matches Some(c) && c@ == "MISSING_URL"@) ==> !({
            let u = spec_obj_get(jv_model(job.payload), "url"@);
            u matches Some(j) && j is Str
        }),
        r matches Err(o) && (o.error_code matches Some(c) && c@ == "INVALID_METHOD"@) ==> ({
            let me = spec_obj_get(jv_model(job.payload), "method"@);
            let resolved = if me matches Some(mj) && mj is Str {
                me->Some_0->Str_0
            } else {
                "GET"@
            };
            !spec_method_ok(vstd::utf8::encode_utf8(resolved))
        }),
        ({
            let u = spec_obj_get(jv_model(job.payload), "url"@);
            let me = spec_obj_get(jv_model(job.payload), "method"@);
            let resolved = if me matches Some(mj) && mj is Str {
                me->Some_0->Str_0
            } else {
                "GET"@
            };
            (u matches Some(j) && j is Str) && spec_method_ok(vstd::utf8::encode_utf8(resolved))
        }) ==> r is Ok,
{
    proof {
        reveal_strlit("MISSING_URL");
        reveal_strlit("INVALID_METHOD");
        assert("MISSING_URL"@.len() == 11);
        assert("INVALID_METHOD"@.len() == 14);
    }
    let url = match job.payload.get("url") {
        Some(j) => match j.as_str() {
            Some(st) => st.clone(),
            None => {
                return Err(error_outcome(job, "MISSING_URL", "Missing 'url' in payload"));
            }
        },
        None => {
            return Err(error_outcome(job, "MISSING_URL", "Missing 'url' in payload"));
        }
    };
    let method = match job.payload.get("method") {
        Some(j) => match j.as_str() {
            Some(st) => st.clone(),
            None => String::from_str("GET"),
        },
        None => String::from_str("GET"),
    };
    if !is_valid_method(method.as_str()) {
        let mut msg = String::from_str("Invalid HTTP method: ");
        msg.append(method.as_str());
        return Err(error_outcome(job, "INVALID_METHOD", msg.as_str()));
    }
    let headers = match job.payload.get("headers") {
        Some(h) => string_members(h),
        None => Vec::new(),
    };
    proof {
        if spec_obj_get(jv_model(job.payload), "headers"@) is None {
            assert(headers.deep_view() =~= spec_str_members(SpecJson::Null));
        }
    }
    let body = match job.payload.get("body") {
        Some(b) => Some(b.duplicate()),
        None => None,
    };
    Ok(HttpPlan { method, url, headers, body })
}

/// The retry delay after a failed or server-erroring HTTP attempt, when
/// attempts remain: 100 ms doubled per attempt, three retries at most.
pub fn http_retry_delay(attempt: u32) -> (r: Option<u64>)
    ensures
        attempt < 3 <==> r is Some,
        attempt == 0 ==> r == Some(200u64),
        attempt == 1 ==> r == Some(400u64),
        attempt == 2 ==> r == Some(800u64),
{
    if attempt == 0 {
        Some(200)
    } else if attempt == 1 {
        Some(400)
    } else if attempt == 2 {
        Some(800)
    } else {
        None
    }
}

/// The response headers as object members, each value a string.
pub open spec fn spec_header_members(hs: Seq<(Seq<char>, Seq<char>)>) -> Seq<(Seq<char>, SpecJson)>
    decreases hs,
{
    if hs.len() == 0 {
        Seq::empty()
    } else {
        seq![(hs[0].0, SpecJson::Str(hs[0].1))] + spec_header_members(hs.drop_first())
    }
}

/// Header members distribute over appending one header.
proof fn lemma_header_members_snoc(hs: Seq<(Seq<char>, Seq<char>)>, x: (Seq<char>, Seq<char>))
    ensures
        spec_header_members(hs + seq![x]) == spec_header_members(hs) + seq![
            (x.0, SpecJson::Str(x.1)),
        ],
    decreases hs.len(),
{
    if hs.len() == 0 {
        assert(hs + seq![x] =~= seq![x]);
        assert((hs + seq![x]).drop_first() =~= Seq::<(Seq<char>, Seq<char>)>::empty());
        assert((hs + seq![x])[0] == x);
        assert(spec_header_members((hs + seq![x]).drop_first()) =~= Seq::<(
            Seq<char>,
            SpecJson,
        )>::empty());
        assert(spec_header_members(hs) =~= Seq::<(Seq<char>, SpecJson)>::empty());
        assert(spec_header_members(hs + seq![x]) =~= spec_header_members(hs) + seq![
            (x.0, SpecJson::Str(x.1)),
        ]);
    } else {
        assert((hs + seq![x]).drop_first() =~= hs.drop_first() + seq![x]);
        assert((hs + seq![x])[0] == hs[0]);
        lemma_header_members_snoc(hs.drop_first(), x);
        assert(spec_header_members(hs + seq![x]) =~= spec_header_members(hs) + seq![
            (x.0, SpecJson::Str(x.1)),
        ]);
    }
}

/// The output of a successful HTTP request: the status code, the string
/// headers as an object, and the body.
pub open spec fn spec_http_output(
    status: u16,
    hs: Seq<(Seq<char>, Seq<char>)>,
    body: SpecJson,
) -> SpecJson {
    SpecJson::Obj(
        seq![
            ("status"@, SpecJson::I64(status as i64)),
            ("headers"@, SpecJson::Obj(spec_header_members(hs))),
            ("body"@, body),
        ],
    )
}

/// Finishes an HTTP request: the output carries the status, the string
/// headers, and the body — parsed when it is an encoded document, kept
/// as text otherwise; a transport failure becomes `HTTP_REQUEST_FAILED`.
#[verifier::loop_isolation(false)]
pub fn http_response_outcome(
    job: &Job,
    response: Result<(u16, Vec<(String, String)>, String), String>,
) -> (r: HandlerOutcome)
    ensures
        match response {
            Ok(parts) => {
                &&& r.status == ExecStatus::Success
                &&& r.job_type@ == job.job_type@
                &&& r.output matches Some(out) && (exists|b: SpecJson|
                    jv_model(out) == spec_http_output(parts.0, parts.1.deep_view(), b))
                &&& (forall|m: SpecJson|
                    crate::json_parse::wf_json(m) && vstd::utf8::encode_utf8(parts.2@)
                        == crate::json::spec_encode(m) ==> (
                    r.output matches Some(out2) && jv_model(out2) == spec_http_output(
                        parts.0,
                        parts.1.deep_view(),
                        m,
                    )))
                &&& (crate::json_parse::spec_plainly_malformed(vstd::utf8::encode_utf8(parts.2@))
                    ==> (r.output matches Some(out3) && jv_model(out3) == spec_http_output(
                    parts.0,
                    parts.1.deep_view(),
                    SpecJson::Str(parts.2@),
                )))
            },
            Err(msg) => r.status == ExecStatus::Error && r.job_type@ == job.job_type@ && (
            r.error_code matches Some(c) && c@ == "HTTP_REQUEST_FAILED"@) && (
            r.error_message matches Some(m2) && m2@ == msg@),
        },
{
    match response {
        Ok((status_code, headers, body_text)) => {
            let ghost text_view = body_text@;
            let body_json = match crate::json_parse::parse_json(body_text.as_str().as_bytes()) {
                Some(v) => v,
                None => JsonValue::Str(body_text),
            };
            let ghost body_view = jv_model(body_json);
            proof {
                assert forall|m: SpecJson|
                    crate::json_parse::wf_json(m) && vstd::utf8::encode_utf8(text_view)
                        == crate::json::spec_encode(m) implies body_view == m by {}
            }
            let mut hdr_members: Vec<(String, JsonValue)> = Vec::new();
            let ghost hmodel = headers.deep_view();
            proof {
                assert(hmodel.take(0) =~= Seq::<(Seq<char>, Seq<char>)>::empty());
                assert(spec_header_members(hmodel.take(0)) =~= Seq::<(
                    Seq<char>,
                    SpecJson,
                )>::empty());
                assert(crate::json::jv_model_members(hdr_members@) =~= spec_header_members(
                    hmodel.take(0),
                ));
            }
            let mut k: usize = 0;
            while k < headers.len()
                invariant
                    k <= headers@.len(),
                    crate::json::jv_model_members(hdr_members@) == spec_header_members(
                        hmodel.take(k as int),
                    ),
                decreases headers@.len() - k,
            {
                let ghost prev = hdr_members@;
                hdr_members.push((headers[k].0.clone(), JsonValue::Str(headers[k].1.clone())));
                proof {
                    crate::json::lemma_jv_model_members_snoc(
                        prev,
                        hdr_members@[hdr_members@.len() - 1],
                    );
                    assert(hdr_members@ =~= prev + seq![hdr_members@[hdr_members@.len() - 1]]);
                    lemma_header_members_snoc(hmodel.take(k as int), hmodel[k as int]);
                    assert(hmodel.take(k + 1 as int) =~= hmodel.take(k as int) + seq![
                        hmodel[k as int],
                    ]);
                    assert(crate::json::jv_model_members(hdr_members@) =~= spec_header_members(
                        hmodel.take(k + 1 as int),
                    ));
                }
                k = k + 1;
            }
            proof {
                assert(hmodel.take(headers@.len() as int) =~= hmodel);
            }
            let mut members: Vec<(String, JsonValue)> = Vec::new();
            members.push((String::from_str("status"), JsonValue::I64(status_code as i64)));
            members.push((String::from_str("headers"), JsonValue::Obj(hdr_members)));
            members.push((String::from_str("body"), body_json));
            let out = JsonValue::Obj(members);
            proof {
                crate::json::lemma_jv_model_members(out->Obj_0@);
                assert(crate::json::jv_model_members(out->Obj_0@) =~= spec_http_output(
                    status_code,
                    hmodel,
                    body_view,
                )->Obj_0);
            }
            success_outcome(job, Some(out))
        }
        Err(msg) => error_outcome(job, "HTTP_REQUEST_FAILED", msg.as_str()),
    }
}

/// A request that could not even be built, before anything was sent.
pub fn request_build_error_outcome(job: &Job, msg: &str) -> (r: HandlerOutcome)
    ensures
        r.status == ExecStatus::Error,
        r.job_type@ == job.job_type@,
        r.error_code matches Some(c) && c@ == "REQUEST_BUILD_ERROR"@,
        r.error_message matches Some(m2) && m2@ == msg@,
{
    error_outcome(job, "REQUEST_BUILD_ERROR", msg)
}

/// A planned GraphQL request: always a POST of the built body.
pub struct GraphqlPlan {
    pub url: String,
    pub headers: Vec<(String, String)>,
    pub body: JsonValue,
}

/// Plans a GraphQL request: url and query are required; the posted body
/// carries the query, the variables (an empty object when absent), and
/// the operation name (null when absent).
pub fn graphql_plan(job: &Job) -> (r: Result<GraphqlPlan, HandlerOutcome>)
    ensures
        ({
            let u = spec_obj_get(jv_model(job.payload), "url"@);
            let q = spec_obj_get(jv_model(job.payload), "query"@);
            match r {
                Ok(plan) => {
                    &&& (u matches Some(j) && j == SpecJson::Str(plan.url@))
                    &&& (q matches Some(j) && j is Str)
                    &&& jv_model(plan.body) == SpecJson::Obj(
                        seq![
                            ("query"@, q->Some_0),
                            (
                                "variables"@,
                                match spec_obj_get(jv_model(job.payload), "variables"@) {
                                    Some(v) => v,
                                    None => SpecJson::Obj(Seq::empty()),
                                },
                            ),
                            (
                                "operationName"@,
                                match spec_obj_get(jv_model(job.payload), "operationName"@) {
                                    Some(SpecJson::Str(o)) => SpecJson::Str(o),
                                    _ => SpecJson::Null,
                                },
                            ),
                        ],
                    )
                    &&& plan.headers.deep_view() == spec_str_members(
                        match spec_obj_get(jv_model(job.payload), "headers"@) {
                            Some(h) => h,
                            None => SpecJson::Null,
                        },
                    )
                },
                Err(o) => o.status == ExecStatus::Error && o.job_type@ == job.job_type@ && (
                o.error_code matches Some(c) && (c@ == "MISSING_URL"@ || c@ == "MISSING_QUERY"@)),
            }
        }),
        r matches Err(o) && (o.error_code matches Some(c) && c@ == "MISSING_URL"@) ==> !({
            let u = spec_obj_get(jv_model(job.payload), "url"@);
            u matches Some(j) && j is Str
        }),
        r matches Err(o) && (o.error_code matches Some(c) && c@ == "MISSING_QUERY"@) ==> !({
            let q = spec_obj_get(jv_model(job.payload), "query"@);
            q matches Some(j) && j is Str
        }),
        ({
            let u = spec_obj_get(jv_model(job.payload), "url"@);
            let q = spec_obj_get(jv_model(job.payload), "query"@);
            (u matches Some(j) && j is Str) && (q matches Some(j2) && j2 is Str)
        }) ==> r is Ok,
{
    proof {
        reveal_strlit("MISSING_URL");
        reveal_strlit("MISSING_QUERY");
        assert("MISSING_URL"@.len() == 11);
        assert("MISSING_QUERY"@.len() == 13);
    }
    let url = match job.payload.get("url") {
        Some(j) => match j.as_str() {
            Some(st) => st.clone(),
            None => {
                return Err(error_outcome(job, "MISSING_URL", "Missing 'url' in payload"));
            }
        },
        None => {
            return Err(error_outcome(job, "MISSING_URL", "Missing 'url' in payload"));
        }
    };
    let query = match job.payload.get("query") {
        Some(j) => match j.as_str() {
            Some(st) => st.clone(),
            None => {
                return Err(error_outcome(job, "MISSING_QUERY", "Missing 'query' in payload"));
            }
        },
        None => {
            return Err(error_outcome(job, "MISSING_QUERY", "Missing 'query' in payload"));
        }
    };
    let ghost query_view = query@;
    let variables = match job.payload.get("variables") {
        Some(v) => v.duplicate(),
        None => JsonValue::Obj(Vec::new()),
    };
    let ghost variables_view = jv_model(variables);
    let operation = match job.payload.get("operationName") {
        Some(j) => match j.as_str() {
            Some(st) => JsonValue::Str(st.clone()),
            None => JsonValue::Null,
        },
        None => JsonValue::Null,
    };
    let ghost operation_view = jv_model(operation);
    let mut members: Vec<(String, JsonValue)> = Vec::new();
    members.push((String::from_str("query"), JsonValue::Str(query)));
    members.push((String::from_str("variables"), variables));
    members.push((String::from_str("operationName"), operation));
    let body = JsonValue::Obj(members);
    proof {
        crate::json::lemma_jv_model_members(body->Obj_0@);
        assert(crate::json::jv_model_members(body->Obj_0@) =~= seq![
            ("query"@, SpecJson::Str(query_view)),
            ("variables"@, variables_view),
            ("operationName"@, operation_view),
        ]);
        assert(seq![
            ("query"@, SpecJson::Str(query_view)),
            ("variables"@, variables_view),
            ("operationName"@, operation_view),
        ] =~= SpecJson::Obj(
            seq![
                ("query"@, spec_obj_get(jv_model(job.payload), "query"@)->Some_0),
                (
                    "variables"@,
                    match spec_obj_get(jv_model(job.payload), "variables"@) {
                        Some(v) => v,
                        None => SpecJson::Obj(Seq::empty()),
                    },
                ),
                (
                    "operationName"@,
                    match spec_obj_get(jv_model(job.payload), "operationName"@) {
                        Some(SpecJson::Str(o)) => SpecJson::Str(o),
                        _ => SpecJson::Null,
                    },
                ),
            ],
        )->Obj_0);
    }
    let headers = match job.payload.get("headers") {
        Some(h) => string_members(h),
        None => Vec::new(),
    };
    proof {
        if spec_obj_get(jv_model(job.payload), "headers"@) is None {
            assert(headers.deep_view() =~= spec_str_members(SpecJson::Null));
        }
    }
    Ok(GraphqlPlan { url, headers, body })
}

/// Finishes a GraphQL request: a JSON response body becomes the output;
/// anything else is a parse error, and a transport failure is reported
/// as `GRAPHQL_REQUEST_FAILED`.
pub fn graphql_response_outcome(job: &Job, response: Result<Vec<u8>, String>) -> (r:
    HandlerOutcome)
    ensures
        match response {
            Ok(body) => {
                &&& (forall|m: SpecJson|
                    crate::json_parse::wf_json(m) && body@ == crate::json::spec_encode(m) ==> (
                    r.status == ExecStatus::Success && (r.output matches Some(out) && jv_model(
                        out,
                    ) == m)))
                &&& r.job_type@ == job.job_type@
                &&& (r.status == ExecStatus::Error ==> (r.error_code matches Some(c) && c@
                    == "GRAPHQL_RESPONSE_PARSE_ERROR"@))
            },
            Err(msg) => r.status == ExecStatus::Error && r.job_type@ == job.job_type@ && (
            r.error_code matches Some(c) && c@ == "GRAPHQL_REQUEST_FAILED"@) && (
            r.error_message matches Some(m2) && m2@ == msg@),
        },
{
    match response {
        Ok(body) => {
            match crate::json_parse::parse_json(body.as_slice()) {
                Some(v) => success_outcome(job, Some(v)),
                None => error_outcome(
                    job,
                    "GRAPHQL_RESPONSE_PARSE_ERROR",
                    "Response body is not JSON",
                ),
            }
        }
        Err(msg) => error_outcome(job, "GRAPHQL_REQUEST_FAILED", msg.as_str()),
    }
}

/// The outcome of one JMESPath evaluation, as the outside engine reports
/// it.
pub enum JmesOutcome {
    /// The evaluated result, serialized as JSON bytes.
    Value(Vec<u8>),
    /// The expression did not compile.
    CompileError(String),
    /// Evaluation failed.
    RuntimeError(String),
}

/// The end of the digit run starting at `i`.
pub open spec fn digit_end(bs: Seq<u8>, i: int) -> int
    decreases bs.len() - i,
{
    if 0 <= i < bs.len() && crate::json_parse::is_digit(bs[i]) {
        digit_end(bs, i + 1)
    } else {
        i
    }
}

/// A byte that can begin a JMESPath identifier.
pub open spec fn jmes_ident_start(b: u8) -> bool {
    (0x41 <= b <= 0x5a) || (0x61 <= b <= 0x7a) || b == 0x5f
}

/// A byte inside a JMESPath identifier.
pub open spec fn jmes_ident_byte(b: u8) -> bool {
    jmes_ident_start(b) || crate::json_parse::is_digit(b)
}

/// The end of the identifier run starting at `i`.
pub open spec fn jmes_ident_end(bs: Seq<u8>, i: int) -> int
    decreases bs.len() - i,
{
    if 0 <= i < bs.len() && jmes_ident_byte(bs[i]) {
        jmes_ident_end(bs, i + 1)
    } else {
        i
    }
}

/// The position just past a region quoted with `d` and entered at `i`:
/// a backslash carries the next character; an unterminated region runs
/// to the end (where the engine reports an error).
pub open spec fn jmes_quote_end(bs: Seq<u8>, i: int, d: u8) -> int
    decreases bs.len() - i,
{
    if i < 0 || i >= bs.len() {
        bs.len() as int
    } else if bs[i] == d {
        i + 1
    } else if bs[i] == 0x5c {
        if i + 2 <= bs.len() {
            jmes_quote_end(bs, i + 2, d)
        } else {
            bs.len() as int
        }
    } else {
        jmes_quote_end(bs, i + 1, d)
    }
}

/// A quoted region never ends before the position it is scanned from.
proof fn lemma_jmes_quote_end_ge(bs: Seq<u8>, i: int, d: u8)
    requires
        0 <= i <= bs.len(),
    ensures
        jmes_quote_end(bs, i, d) >= i,
        jmes_quote_end(bs, i, d) <= bs.len(),
    decreases bs.len() - i,
{
    if i < bs.len() && bs[i] != d {
        if bs[i] == 0x5c {
            if i + 2 <= bs.len() {
                lemma_jmes_quote_end_ge(bs, i + 2, d);
            }
        } else {
            lemma_jmes_quote_end_ge(bs, i + 1, d);
        }
    }
}

/// Every numeric literal the engine's lexer would read fits its 32-bit
/// bound, scanning as the lexer does: quoted identifiers, raw strings
/// and backtick literals are skipped, digit runs inside identifiers are
/// identifier text, and a minus before a non-ASCII byte is refused
/// outright, since the lexer may read it as a number.
pub open spec fn spec_jmes_ok_from(bs: Seq<u8>, i: int) -> bool
    decreases bs.len() - i,
{
    if i < 0 || i >= bs.len() {
        true
    } else {
        let b = bs[i];
        if b == 0x22 || b == 0x27 || b == 0x60 {
            let e = jmes_quote_end(bs, i + 1, b);
            spec_jmes_ok_from(
                bs,
                if i < e <= bs.len() {
                    e
                } else {
                    i + 1
                },
            )
        } else if jmes_ident_start(b) {
            let e = jmes_ident_end(bs, i);
            spec_jmes_ok_from(
                bs,
                if i < e <= bs.len() {
                    e
                } else {
                    i + 1
                },
            )
        } else if crate::json_parse::is_digit(b) {
            let e = digit_end(bs, i);
            &&& crate::json_parse::digits_val(bs.subrange(i, e)) <= 0x7fffffff
            &&& spec_jmes_ok_from(
                bs,
                if i < e <= bs.len() {
                    e
                } else {
                    i + 1
                },
            )
        } else if b == MINUS && i + 1 < bs.len() && bs[i + 1] >= 0x80 {
            false
        } else if b == MINUS && i + 1 < bs.len() && 0x31 <= bs[i + 1] <= 0x39 {
            let e = digit_end(bs, i + 1);
            &&& crate::json_parse::digits_val(bs.subrange(i + 1, e)) <= 0x7fffffff
            &&& spec_jmes_ok_from(
                bs,
                if i < e <= bs.len() {
                    e
                } else {
                    i + 1
                },
            )
        } else {
            spec_jmes_ok_from(bs, i + 1)
        }
    }
}

/// Every numeric literal in the expression fits the engine's 32-bit
/// bound.
pub open spec fn spec_jmes_numbers_ok(bs: Seq<u8>) -> bool {
    spec_jmes_ok_from(bs, 0)
}

/// A scanned digit run is the whole run.
proof fn lemma_digit_end_run(bs: Seq<u8>, a: int, j: int)
    requires
        0 <= a <= j <= bs.len(),
        forall|t: int| a <= t < j ==> crate::json_parse::is_digit(bs[t]),
        j == bs.len() || !crate::json_parse::is_digit(bs[j]),
    ensures
        digit_end(bs, a) == j,
    decreases j - a,
{
    if a < j {
        lemma_digit_end_run(bs, a + 1, j);
    }
}

/// Finds the end of a quoted region.
fn find_quote_end(bs: &[u8], i: usize, d: u8) -> (r: usize)
    requires
        i <= bs@.len(),
    ensures
        i <= r <= bs@.len(),
        r == jmes_quote_end(bs@, i as int, d),
{
    let n = bs.len();
    let mut k: usize = i;
    while k < n
        invariant
            i <= k,
            k <= n + 1,
            n == bs@.len(),
            jmes_quote_end(bs@, i as int, d) == jmes_quote_end(bs@, k as int, d),
        decreases n + 2 - k,
    {
        if bs[k] == d {
            proof {
                lemma_jmes_quote_end_ge(bs@, i as int, d);
            }
            return k + 1;
        }
        if bs[k] == 0x5c {
            if n - k >= 2 {
                k = k + 2;
            } else {
                return n;
            }
        } else {
            k = k + 1;
        }
    }
    n
}

/// Finds the end of an identifier run.
fn find_ident_end(bs: &[u8], i: usize) -> (r: usize)
    requires
        i <= bs@.len(),
    ensures
        i <= r <= bs@.len(),
        r == jmes_ident_end(bs@, i as int),
{
    let mut k: usize = i;
    while k < bs.len() && ((0x41 <= bs[k] && bs[k] <= 0x5a) || (0x61 <= bs[k] && bs[k] <= 0x7a)
        || bs[k] == 0x5f || (0x30 <= bs[k] && bs[k] <= 0x39))
        invariant
            i <= k <= bs@.len(),
            jmes_ident_end(bs@, i as int) == jmes_ident_end(bs@, k as int),
        decreases bs@.len() - k,
    {
        k = k + 1;
    }
    k
}

/// Whether every numeric literal the engine would read from the
/// expression fits its 32-bit bound.
#[verifier::loop_isolation(false)]
pub fn jmes_expr_numbers_ok(s: &str) -> (r: bool)
    ensures
        r == spec_jmes_numbers_ok(s.spec_bytes()),
{
    let bs = s.as_bytes();
    let n = bs.len();
    let mut k: usize = 0;
    while k < n
        invariant
            k <= n,
            bs@ == s.spec_bytes(),
            spec_jmes_ok_from(bs@, 0) == spec_jmes_ok_from(bs@, k as int),
        decreases n - k,
    {
        let b = bs[k];
        if b == 0x22 || b == 0x27 || b == 0x60 {
            let e = find_quote_end(bs, k + 1, b);
            k = if e > k {
                e
            } else {
                k + 1
            };
        } else if (0x41 <= b && b <= 0x5a) || (0x61 <= b && b <= 0x7a) || b == 0x5f {
            let e = find_ident_end(bs, k);
            k = if e > k {
                e
            } else {
                k + 1
            };
        } else if 0x30 <= b && b <= 0x39 {
            let (j, ok, acc) = crate::json_parse::scan_digits(bs, k);
            proof {
                lemma_digit_end_run(bs@, k as int, j as int);
            }
            if !ok || acc > 0x7fffffff {
                return false;
            }
            k = if j > k {
                j
            } else {
                k + 1
            };
        } else if b == MINUS && k + 1 < n && bs[k + 1] >= 0x80 {
            return false;
        } else if b == MINUS && k + 1 < n && 0x31 <= bs[k + 1] && bs[k + 1] <= 0x39 {
            let (j, ok, acc) = crate::json_parse::scan_digits(bs, k + 1);
            proof {
                lemma_digit_end_run(bs@, k + 1 as int, j as int);
            }
            if !ok || acc > 0x7fffffff {
                return false;
            }
            k = if j > k {
                j
            } else {
                k + 1
            };
        } else {
            k = k + 1;
        }
    }
    true
}

/// Name for whether a JMESPath expression compiles./// Name for whether a JMESPath expression compiles.
pub uninterp spec fn jmes_compiles(expr: Seq<char>) -> bool;

/// Name for what a JMESPath search returns on an expression and a JSON
/// document's bytes, serialized back to JSON bytes; nothing when the
/// evaluation fails.
pub uninterp spec fn jmes_value(expr: Seq<char>, data: Seq<u8>) -> Option<Seq<u8>>;

/// Relies on jmespath::compile, jmespath::Variable::from_json, and
/// Expression::search: compilation succeeds on a fixed set of
/// expressions, and a search's result depends on the expression and the
/// document alone (the engine's objects are ordered maps, so the
/// serialized result is deterministic). The engine's lexer reads each
/// digit run into a 32-bit integer and panics past its bound, so inputs
/// with an out-of-range numeric literal are left out.
#[verifier::external_body]
fn jmes_eval(expr: &str, data: &[u8]) -> (r: JmesOutcome)
    requires
        spec_jmes_numbers_ok(expr.spec_bytes()),
    ensures
        (r is CompileError) == !jmes_compiles(expr@),
        r matches JmesOutcome::Value(v) ==> jmes_value(expr@, data@) == Some(v@),
        r is RuntimeError ==> jmes_compiles(expr@) && jmes_value(expr@, data@) is None,
{
    match jmespath::compile(expr) {
        Err(e) => JmesOutcome::CompileError(e.to_string()),
        Ok(compiled) => match jmespath::Variable::from_json(&String::from_utf8_lossy(data)) {
            Err(e) => JmesOutcome::RuntimeError(e),
            Ok(var) => match compiled.search(&var) {
                Err(e) => JmesOutcome::RuntimeError(e.to_string()),
                Ok(found) => match serde_json::to_vec(&*found) {
                    Ok(bytes) => JmesOutcome::Value(bytes),
                    Err(e) => JmesOutcome::RuntimeError(e.to_string()),
                },
            },
        },
    }
}

/// JMESPath: evaluates the payload's `expression` against its `data`
/// (null when absent). A missing expression is refused; a compile
/// failure and a runtime failure are reported under their own codes; a
/// result that is itself an encoded document becomes the output exactly.
pub fn handle_jmespath(job: &Job) -> (r: HandlerOutcome)
    ensures
        r.job_type@ == job.job_type@,
        ({
            let ex = spec_obj_get(jv_model(job.payload), "expression"@);
            let data = match spec_obj_get(jv_model(job.payload), "data"@) {
                Some(d) => d,
                None => SpecJson::Null,
            };
            if ex matches Some(j) && j is Str {
                let expr = ex->Some_0->Str_0;
                if !spec_jmes_numbers_ok(vstd::utf8::encode_utf8(expr)) || !jmes_compiles(expr) {
                    r.status == ExecStatus::Error && (r.error_code matches Some(c) && c@
                        == "JMESPATH_COMPILE_ERROR"@)
                } else {
                    forall|m: SpecJson|
                        crate::json_parse::wf_json(m) && jmes_value(
                            expr,
                            crate::json::spec_encode(data),
                        ) == Some(crate::json::spec_encode(m)) ==> (r.status
                            == ExecStatus::Success && (r.output matches Some(out) && jv_model(out)
                            == m))
                }
            } else {
                r.status == ExecStatus::Error && (r.error_code matches Some(c) && c@
                    == "MISSING_EXPRESSION"@)
            }
        }),
{
    proof {
        reveal_strlit("MISSING_EXPRESSION");
        reveal_strlit("JMESPATH_COMPILE_ERROR");
        reveal_strlit("JMESPATH_RUNTIME_ERROR");
        assert("MISSING_EXPRESSION"@.len() == 18);
        assert("JMESPATH_COMPILE_ERROR"@.len() == 22);
        assert("JMESPATH_RUNTIME_ERROR"@.len() == 22);
        assert("JMESPATH_COMPILE_ERROR"@ != "JMESPATH_RUNTIME_ERROR"@) by {
            assert("JMESPATH_COMPILE_ERROR"@[9] == 'C');
            assert("JMESPATH_RUNTIME_ERROR"@[9] == 'R');
        }
    }
    let expr = match job.payload.get("expression") {
        Some(j) => match j.as_str() {
            Some(st) => st.clone(),
            None => {
                return error_outcome(
                    job,
                    "MISSING_EXPRESSION",
                    "Missing 'expression' in payload",
                );
            }
        },
        None => {
            return error_outcome(job, "MISSING_EXPRESSION", "Missing 'expression' in payload");
        }
    };
    if !jmes_expr_numbers_ok(expr.as_str()) {
        return error_outcome(
            job,
            "JMESPATH_COMPILE_ERROR",
            "Numeric literal in expression is out of range",
        );
    }
    let data = match job.payload.get("data") {
        Some(d) => d.duplicate(),
        None => JsonValue::Null,
    };
    let data_bytes = data.encode();
    match jmes_eval(expr.as_str(), data_bytes.as_slice()) {
        JmesOutcome::Value(bytes) => {
            match crate::json_parse::parse_json(bytes.as_slice()) {
                Some(v) => success_outcome(job, Some(v)),
                None => success_outcome(job, Some(JsonValue::Null)),
            }
        }
        JmesOutcome::CompileError(e) => error_outcome(job, "JMESPATH_COMPILE_ERROR", e.as_str()),
        JmesOutcome::RuntimeError(e) => error_outcome(job, "JMESPATH_RUNTIME_ERROR", e.as_str()),
    }
}

/// A planned script evaluation: the source and its named arguments.
pub struct ScriptPlan {
    pub code: String,
    pub args: JsonValue,
}

/// Plans a script evaluation: the payload's `code` and its `args`
/// (null when absent); a payload without code is refused.
pub fn script_plan(job: &Job) -> (r: Result<ScriptPlan, HandlerOutcome>)
    ensures
        ({
            let c = spec_obj_get(jv_model(job.payload), "code"@);
            match r {
                Ok(plan) => (c matches Some(j) && j == SpecJson::Str(plan.code@)) && jv_model(
                    plan.args,
                ) == (match spec_obj_get(jv_model(job.payload), "args"@) {
                    Some(a) => a,
                    None => SpecJson::Null,
                }),
                Err(o) => o.status == ExecStatus::Error && o.job_type@ == job.job_type@ && (
                o.error_code matches Some(cc) && cc@ == "MISSING_CODE"@),
            }
        }),
        r matches Err(o) ==> !({
            let c = spec_obj_get(jv_model(job.payload), "code"@);
            c matches Some(j) && j is Str
        }),
        ({
            let c = spec_obj_get(jv_model(job.payload), "code"@);
            c matches Some(j) && j is Str
        }) ==> r is Ok,
{
    let code = match job.payload.get("code") {
        Some(j) => match j.as_str() {
            Some(st) => st.clone(),
            None => {
                return Err(error_outcome(job, "MISSING_CODE", "Missing 'code' in payload"));
            }
        },
        None => {
            return Err(error_outcome(job, "MISSING_CODE", "Missing 'code' in payload"));
        }
    };
    let args = match job.payload.get("args") {
        Some(a) => a.duplicate(),
        None => JsonValue::Null,
    };
    Ok(ScriptPlan { code, args })
}

/// How a script evaluation ended, as the engine's host reports it.
pub enum ScriptResult {
    /// The evaluated value, serialized as JSON bytes.
    Value(Vec<u8>),
    /// The script itself failed.
    ScriptError(String),
    /// The host task failed before the script finished.
    HostError(String),
}

/// Finishes a script evaluation: a JSON-encoded value becomes the
/// output; script failures are `SCRIPT_ERROR`, host failures
/// `INTERNAL_ERROR`.
pub fn script_outcome(job: &Job, result: ScriptResult) -> (r: HandlerOutcome)
    ensures
        r.job_type@ == job.job_type@,
        match result {
            ScriptResult::Value(bytes) => forall|m: SpecJson|
                crate::json_parse::wf_json(m) && bytes@ == crate::json::spec_encode(m) ==> (
                r.status == ExecStatus::Success && (r.output matches Some(out) && jv_model(out)
                    == m)),
            ScriptResult::ScriptError(e) => r.status == ExecStatus::Error && (
            r.error_code matches Some(c) && c@ == "SCRIPT_ERROR"@) && (
            r.error_message matches Some(m2) && m2@ == e@),
            ScriptResult::HostError(e) => r.status == ExecStatus::Error && (
            r.error_code matches Some(c) && c@ == "INTERNAL_ERROR"@) && (
            r.error_message matches Some(m2) && m2@ == e@),
        },
{
    match result {
        ScriptResult::Value(bytes) => {
            match crate::json_parse::parse_json(bytes.as_slice()) {
                Some(v) => success_outcome(job, Some(v)),
                None => success_outcome(job, Some(JsonValue::Null)),
            }
        }
        ScriptResult::ScriptError(e) => error_outcome(job, "SCRIPT_ERROR", e.as_str()),
        ScriptResult::HostError(e) => error_outcome(job, "INTERNAL_ERROR", e.as_str()),
    }
}

/// A planned SQL query: the connection string, the query text, and the
/// positional arguments as documents.
pub struct SqlPlan {
    pub connection_string: String,
    pub query: String,
    pub args: Vec<JsonValue>,
}

/// Plans a SQL query; connection string and query are required.
pub fn sql_plan(job: &Job) -> (r: Result<SqlPlan, HandlerOutcome>)
    ensures
        ({
            let cs = spec_obj_get(jv_model(job.payload), "connection_string"@);
            let q = spec_obj_get(jv_model(job.payload), "query"@);
            match r {
                Ok(plan) => (cs matches Some(j) && j == SpecJson::Str(plan.connection_string@))
                    && (q matches Some(j2) && j2 == SpecJson::Str(plan.query@)) && (
                match spec_obj_get(jv_model(job.payload), "args"@) {
                    Some(a) => if a is Arr {
                        crate::json::jv_model_list(plan.args@) == a->Arr_0
                    } else {
                        plan.args@.len() == 0
                    },
                    None => plan.args@.len() == 0,
                }),
                Err(o) => o.status == ExecStatus::Error && o.job_type@ == job.job_type@ && (
                o.error_code matches Some(c) && (c@ == "MISSING_CONNECTION_STRING"@ || c@
                    == "MISSING_QUERY"@)),
            }
        }),
        r matches Err(o) && (o.error_code matches Some(c) && c@ == "MISSING_CONNECTION_STRING"@)
            ==> !({
            let cs = spec_obj_get(jv_model(job.payload), "connection_string"@);
            cs matches Some(j) && j is Str
        }),
        r matches Err(o) && (o.error_code matches Some(c) && c@ == "MISSING_QUERY"@) ==> !({
            let q = spec_obj_get(jv_model(job.payload), "query"@);
            q matches Some(j) && j is Str
        }),
        ({
            let cs = spec_obj_get(jv_model(job.payload), "connection_string"@);
            let q = spec_obj_get(jv_model(job.payload), "query"@);
            (cs matches Some(j) && j is Str) && (q matches Some(j2) && j2 is Str)
        }) ==> r is Ok,
{
    proof {
        reveal_strlit("MISSING_CONNECTION_STRING");
        reveal_strlit("MISSING_QUERY");
        assert("MISSING_CONNECTION_STRING"@.len() == 25);
        assert("MISSING_QUERY"@.len() == 13);
    }
    let connection_string = match job.payload.get("connection_string") {
        Some(j) => match j.as_str() {
            Some(st) => st.clone(),
            None => {
                return Err(
                    error_outcome(
                        job,
                        "MISSING_CONNECTION_STRING",
                        "Missing 'connection_string' in payload",
                    ),
                );
            }
        },
        None => {
            return Err(
                error_outcome(
                    job,
                    "MISSING_CONNECTION_STRING",
                    "Missing 'connection_string' in payload",
                ),
            );
        }
    };
    let query = match job.payload.get("query") {
        Some(j) => match j.as_str() {
            Some(st) => st.clone(),
            None => {
                return Err(error_outcome(job, "MISSING_QUERY", "Missing 'query' in payload"));
            }
        },
        None => {
            return Err(error_outcome(job, "MISSING_QUERY", "Missing 'query' in payload"));
        }
    };
    let args: Vec<JsonValue> = match job.payload.get("args") {
        Some(a) => match a {
            JsonValue::Arr(items) => {
                let mut out: Vec<JsonValue> = Vec::new();
                let ghost model = crate::json::jv_model_list(items@);
                proof {
                    crate::json::lemma_jv_model_list(items@);
                    assert(crate::json::jv_model_list(out@) =~= model.take(0));
                }
                let mut k: usize = 0;
                #[verifier::loop_isolation(false)]
                while k < items.len()
                    invariant
                        k <= items@.len(),
                        out@.len() == k,
                        crate::json::jv_model_list(out@) == model.take(k as int),
                    decreases items@.len() - k,
                {
                    let ghost prev = out@;
                    let d = items[k].duplicate();
                    out.push(d);
                    proof {
                        crate::json::lemma_jv_model_list_snoc(prev, d);
                        assert(out@ =~= prev + seq![d]);
                        assert(model.take(k + 1 as int) =~= model.take(k as int) + seq![
                            model[k as int],
                        ]);
                        assert(crate::json::jv_model_list(out@) =~= model.take(k + 1 as int));
                    }
                    k = k + 1;
                }
                proof {
                    assert(model.take(items@.len() as int) =~= model);
                }
                out
            }
            _ => Vec::new(),
        },
        None => Vec::new(),
    };
    proof {
        assert(crate::json::jv_model_list(Seq::<JsonValue>::empty()) =~= Seq::<SpecJson>::empty());
    }
    Ok(SqlPlan { connection_string, query, args })
}

/// How a SQL query ended, as the pool's host reports it.
pub enum SqlResult {
    /// The rows, serialized as a JSON array's bytes, and their count.
    Rows(Vec<u8>, u64),
    /// The pool could not connect.
    ConnectError(String),
    /// The query failed.
    QueryError(String),
}

/// Finishes a SQL query: the rows and their count become the output;
/// connection and query failures are reported under their own codes.
pub fn sql_outcome(job: &Job, result: SqlResult) -> (r: HandlerOutcome)
    ensures
        r.job_type@ == job.job_type@,
        match result {
            SqlResult::Rows(bytes, n) => n <= i64::MAX ==> forall|m: SpecJson|
                crate::json_parse::wf_json(m) && bytes@ == crate::json::spec_encode(m) ==> (
                r.status == ExecStatus::Success && (r.output matches Some(out) && jv_model(out)
                    == SpecJson::Obj(
                    seq![("rows"@, m), ("rows_affected"@, SpecJson::I64(n as i64))],
                ))),
            SqlResult::ConnectError(e) => r.status == ExecStatus::Error && (
            r.error_code matches Some(c) && c@ == "DB_CONNECTION_ERROR"@) && (
            r.error_message matches Some(m2) && m2@ == e@),
            SqlResult::QueryError(e) => r.status == ExecStatus::Error && (
            r.error_code matches Some(c) && c@ == "DB_QUERY_ERROR"@) && (
            r.error_message matches Some(m2) && m2@ == e@),
        },
{
    match result {
        SqlResult::Rows(bytes, n) => {
            if n > i64::MAX as u64 {
                return error_outcome(job, "DB_QUERY_ERROR", "Row count out of range");
            }
            let rows = match crate::json_parse::parse_json(bytes.as_slice()) {
                Some(v) => v,
                None => JsonValue::Null,
            };
            let ghost rows_view = jv_model(rows);
            let mut members: Vec<(String, JsonValue)> = Vec::new();
            members.push((String::from_str("rows"), rows));
            members.push((String::from_str("rows_affected"), JsonValue::I64(n as i64)));
            let out = JsonValue::Obj(members);
            proof {
                crate::json::lemma_jv_model_members(out->Obj_0@);
                assert(crate::json::jv_model_members(out->Obj_0@) =~= seq![
                    ("rows"@, rows_view),
                    ("rows_affected"@, SpecJson::I64(n as i64)),
                ]);
            }
            success_outcome(job, Some(out))
        }
        SqlResult::ConnectError(e) => error_outcome(job, "DB_CONNECTION_ERROR", e.as_str()),
        SqlResult::QueryError(e) => error_outcome(job, "DB_QUERY_ERROR", e.as_str()),
    }
}

} // verus!
