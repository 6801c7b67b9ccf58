//! Message protocol: the versioned envelope and the four message bodies it
//! carries (assignment, result, heartbeat, dead letter).
//!
//! Every type has a ghost model, a JSON shape given by a spec function, an
//! encoder proven to produce exactly that shape, and a decoder proven
//! complete over it: decoding an encoded message returns the original
//! model. Optional fields are omitted from the wire when absent, and
//! unknown members are ignored on decode.
use vstd::prelude::*;

use crate::json::JsonValue;
use crate::json::SpecJson;
use crate::json::jv_model;
use crate::json::jv_model_members;
use crate::json::lemma_jv_model_members_snoc;
use crate::json::lemma_lookup_hit;
use crate::json::lemma_lookup_skip;
use crate::json::lemma_lookup_skip_opt;
use crate::json::lemma_lookup_opt;
use crate::json::opt_member;
use crate::json::spec_encode;
use crate::json::spec_member_lookup;
use crate::json::spec_obj_get;
use crate::json::str_eq;
use crate::json_parse::parse_json;
use vstd::string::StringExecFns;

verus! {

/// The kind tag of an envelope.
#[derive(PartialEq, Eq, Structural, Clone, Copy, Debug)]
pub enum EnvelopeKind {
    ExecAssign,
    ExecResult,
    Heartbeat,
    DeadLetter,
}

/// Wire name of an envelope kind.
pub open spec fn spec_kind_str(k: EnvelopeKind) -> Seq<char> {
    match k {
        EnvelopeKind::ExecAssign => "exec_assign"@,
        EnvelopeKind::ExecResult => "exec_result"@,
        EnvelopeKind::Heartbeat => "heartbeat"@,
        EnvelopeKind::DeadLetter => "dead_letter"@,
    }
}

impl EnvelopeKind {
    /// Wire name of this kind.
    pub fn as_wire_str(&self) -> (r: &'static str)
        ensures
            r@ == spec_kind_str(*self),
    {
        match self {
            EnvelopeKind::ExecAssign => "exec_assign",
            EnvelopeKind::ExecResult => "exec_result",
            EnvelopeKind::Heartbeat => "heartbeat",
            EnvelopeKind::DeadLetter => "dead_letter",
        }
    }

    /// Parses a wire name back into a kind: inverse of `as_wire_str`.
    pub fn from_wire_str(s: &str) -> (r: Option<EnvelopeKind>)
        ensures
            forall|k: EnvelopeKind| s@ == spec_kind_str(k) ==> r == Some(k),
            r matches Some(k) ==> s@ == spec_kind_str(k),
    {
        proof {
            reveal_strlit("exec_assign");
            reveal_strlit("exec_result");
            reveal_strlit("heartbeat");
            reveal_strlit("dead_letter");
            assert("exec_assign"@.len() == 11);
            assert("exec_result"@.len() == 11);
            assert("heartbeat"@.len() == 9);
            assert("dead_letter"@.len() == 11);
            assert("exec_assign"@ != "exec_result"@) by {
                assert("exec_assign"@[5] == 'a');
                assert("exec_result"@[5] == 'r');
            }
            assert("exec_assign"@ != "heartbeat"@);
            assert("exec_assign"@ != "dead_letter"@) by {
                assert("exec_assign"@[0] == 'e');
                assert("dead_letter"@[0] == 'd');
            }
            assert("exec_result"@ != "heartbeat"@);
            assert("exec_result"@ != "dead_letter"@) by {
                assert("exec_result"@[0] == 'e');
                assert("dead_letter"@[0] == 'd');
            }
            assert("heartbeat"@ != "dead_letter"@);
        }
        if str_eq(s, "exec_assign") {
            Some(EnvelopeKind::ExecAssign)
        } else if str_eq(s, "exec_result") {
            Some(EnvelopeKind::ExecResult)
        } else if str_eq(s, "heartbeat") {
            Some(EnvelopeKind::Heartbeat)
        } else if str_eq(s, "dead_letter") {
            Some(EnvelopeKind::DeadLetter)
        } else {
            proof {
                assert forall|k: EnvelopeKind| s@ != spec_kind_str(k) by {}
            }
            None
        }
    }
}

/// Model of an envelope.
pub struct EnvModel {
    pub version: Seq<char>,
    pub kind: EnvelopeKind,
    pub data: SpecJson,
}

/// JSON shape of an envelope.
pub open spec fn spec_env_json(m: EnvModel) -> SpecJson {
    SpecJson::Obj(
        seq![
            ("version"@, SpecJson::Str(m.version)),
            ("kind"@, SpecJson::Str(spec_kind_str(m.kind))),
            ("data"@, m.data),
        ],
    )
}

/// The versioned wrapper around every message on the bus.
pub struct EventEnvelopeV1 {
    pub version: String,
    pub kind: EnvelopeKind,
    pub data: JsonValue,
}

impl DeepView for EventEnvelopeV1 {
    type V = EnvModel;

    open spec fn deep_view(&self) -> EnvModel {
        EnvModel { version: self.version@, kind: self.kind, data: jv_model(self.data) }
    }
}

/// Evaluates every member lookup the envelope decoder performs.
proof fn lemma_env_fields(m: EnvModel)
    ensures
        spec_obj_get(spec_env_json(m), "version"@) == Some(SpecJson::Str(m.version)),
        spec_obj_get(spec_env_json(m), "kind"@) == Some(SpecJson::Str(spec_kind_str(m.kind))),
        spec_obj_get(spec_env_json(m), "data"@) == Some(m.data),
{
    reveal_strlit("version");
    reveal_strlit("kind");
    reveal_strlit("data");
    assert("version"@.len() == 7);
    assert("kind"@.len() == 4);
    assert("data"@.len() == 4);
    assert("version"@ != "kind"@);
    assert("version"@ != "data"@);
    assert("kind"@ != "data"@) by {
        assert("kind"@[0] == 'k');
        assert("data"@[0] == 'd');
    }
    let m0 = ("version"@, SpecJson::Str(m.version));
    let m1 = ("kind"@, SpecJson::Str(spec_kind_str(m.kind)));
    let m2 = ("data"@, m.data);
    let mm = seq![m0, m1, m2];
    let nil = Seq::<(Seq<char>, SpecJson)>::empty();
    assert(mm =~= seq![m0] + seq![m1, m2]);
    assert(seq![m1, m2] =~= seq![m1] + seq![m2]);
    assert(seq![m2] =~= seq![m2] + nil);
    lemma_lookup_hit(m0, seq![m1, m2], "version"@);
    lemma_lookup_skip(m0, seq![m1, m2], "kind"@);
    lemma_lookup_hit(m1, seq![m2], "kind"@);
    lemma_lookup_skip(m0, seq![m1, m2], "data"@);
    lemma_lookup_skip(m1, seq![m2], "data"@);
    assert(seq![m2] =~= seq![m2] + nil);
    lemma_lookup_hit(m2, nil, "data"@);
    assert(spec_env_json(m)->Obj_0 == mm);
}

/// Reads a string member of an object.
fn get_str_field(v: &JsonValue, key: &str) -> (r: Option<String>)
    ensures
        match r {
            Some(s) => spec_obj_get(v.deep_view(), key@) == Some(SpecJson::Str(s@)),
            None => forall|cs: Seq<char>|
                spec_obj_get(v.deep_view(), key@) != Some(SpecJson::Str(cs)),
        },
{
    match v.get(key) {
        Some(j) => match j.as_str() {
            Some(s) => Some(s.clone()),
            None => None,
        },
        None => None,
    }
}

impl EventEnvelopeV1 {
    /// The JSON document this envelope denotes.
    pub fn to_json(&self) -> (r: JsonValue)
        ensures
            r.deep_view() == spec_env_json(self.deep_view()),
    {
        let mut members: Vec<(String, JsonValue)> = Vec::new();
        let ghost m = self.deep_view();
        members.push((String::from_str("version"), JsonValue::Str(self.version.clone())));
        members.push((String::from_str("kind"), JsonValue::Str(String::from_str(self.kind.as_wire_str()))));
        members.push((String::from_str("data"), self.data.duplicate()));
        let r = JsonValue::Obj(members);
        proof {
            crate::json::lemma_jv_model_members(r->Obj_0@);
            assert(jv_model_members(r->Obj_0@) =~= spec_env_json(m)->Obj_0);
        }
        r
    }

    /// The canonical wire bytes of this envelope.
    pub fn encode(&self) -> (r: Vec<u8>)
        ensures
            r@ == spec_encode(spec_env_json(self.deep_view())),
    {
        self.to_json().encode()
    }

    /// Reads an envelope out of a JSON document. Complete over encoded
    /// envelopes: a document with the envelope shape always decodes, to
    /// the envelope it denotes.
    pub fn from_json(v: &JsonValue) -> (r: Option<EventEnvelopeV1>)
        ensures
            forall|m: EnvModel|
                v.deep_view() == spec_env_json(m) ==> (r matches Some(e) && e.deep_view() == m),
            r matches Some(e) ==> spec_obj_get(v.deep_view(), "kind"@) == Some(
                SpecJson::Str(spec_kind_str(e.kind)),
            ),
    {
        let version = match get_str_field(v, "version") {
            Some(s) => s,
            None => {
                proof {
                    assert forall|m: EnvModel| v.deep_view() == spec_env_json(m) implies false by {
                        lemma_env_fields(m);
                    }
                }
                return None;
            }
        };
        let kind_name = match get_str_field(v, "kind") {
            Some(s) => s,
            None => {
                proof {
                    assert forall|m: EnvModel| v.deep_view() == spec_env_json(m) implies false by {
                        lemma_env_fields(m);
                    }
                }
                return None;
            }
        };
        let kind = match EnvelopeKind::from_wire_str(kind_name.as_str()) {
            Some(k) => k,
            None => {
                proof {
                    assert forall|m: EnvModel| v.deep_view() == spec_env_json(m) implies false by {
                        lemma_env_fields(m);
                    }
                }
                return None;
            }
        };
        let data = match v.get("data") {
            Some(j) => j.duplicate(),
            None => {
                proof {
                    assert forall|m: EnvModel| v.deep_view() == spec_env_json(m) implies false by {
                        lemma_env_fields(m);
                    }
                }
                return None;
            }
        };
        let e = EventEnvelopeV1 { version, kind, data };
        proof {
            assert forall|m: EnvModel| v.deep_view() == spec_env_json(m) implies e.deep_view()
                == m by {
                lemma_env_fields(m);
            }
        }
        Some(e)
    }
}

/// Reads an envelope out of wire bytes. Complete over the canonical
/// encoding: the bytes of any encoded envelope decode back to it.
pub fn decode_envelope(bytes: &[u8]) -> (r: Option<EventEnvelopeV1>)
    ensures
        forall|m: EnvModel|
            crate::json_parse::wf_json(spec_env_json(m)) && bytes@ == spec_encode(
                spec_env_json(m),
            ) ==> (r matches Some(e) && e.deep_view() == m),
{
    match parse_json(bytes) {
        Some(v) => EventEnvelopeV1::from_json(&v),
        None => {
            proof {
                assert forall|m: EnvModel|
                    crate::json_parse::wf_json(spec_env_json(m)) && bytes@ == spec_encode(
                        spec_env_json(m),
                    ) implies false by {}
            }
            None
        }
    }
}

/// A typed unit of work inside an assignment.
pub struct Job {
    pub job_type: String,
    pub payload: JsonValue,
}

/// Model of a job.
pub struct JobModel {
    pub job_type: Seq<char>,
    pub payload: SpecJson,
}

impl DeepView for Job {
    type V = JobModel;

    open spec fn deep_view(&self) -> JobModel {
        JobModel { job_type: self.job_type@, payload: jv_model(self.payload) }
    }
}

/// JSON shape of a job: the wire member is named `type`.
pub open spec fn spec_job_json(m: JobModel) -> SpecJson {
    SpecJson::Obj(seq![("type"@, SpecJson::Str(m.job_type)), ("payload"@, m.payload)])
}

/// Evaluates the member lookups of the job decoder.
proof fn lemma_job_fields(m: JobModel)
    ensures
        spec_obj_get(spec_job_json(m), "type"@) == Some(SpecJson::Str(m.job_type)),
        spec_obj_get(spec_job_json(m), "payload"@) == Some(m.payload),
{
    reveal_strlit("type");
    reveal_strlit("payload");
    assert("type"@.len() == 4);
    assert("payload"@.len() == 7);
    assert("type"@ != "payload"@);
    let m0 = ("type"@, SpecJson::Str(m.job_type));
    let m1 = ("payload"@, m.payload);
    assert(seq![m0, m1] =~= seq![m0] + seq![m1]);
    assert(seq![m1] =~= seq![m1] + Seq::<(Seq<char>, SpecJson)>::empty());
    lemma_lookup_hit(m0, seq![m1], "type"@);
    lemma_lookup_skip(m0, seq![m1], "payload"@);
    lemma_lookup_hit(m1, Seq::<(Seq<char>, SpecJson)>::empty(), "payload"@);
}

impl Job {
    /// The JSON document this job denotes.
    pub fn to_json(&self) -> (r: JsonValue)
        ensures
            r.deep_view() == spec_job_json(self.deep_view()),
    {
        let mut members: Vec<(String, JsonValue)> = Vec::new();
        members.push((String::from_str("type"), JsonValue::Str(self.job_type.clone())));
        members.push((String::from_str("payload"), self.payload.duplicate()));
        let r = JsonValue::Obj(members);
        proof {
            crate::json::lemma_jv_model_members(r->Obj_0@);
            assert(jv_model_members(r->Obj_0@) =~= spec_job_json(self.deep_view())->Obj_0);
        }
        r
    }

    /// Reads a job out of a JSON document; complete over the job shape.
    pub fn from_json(v: &JsonValue) -> (r: Option<Job>)
        ensures
            forall|m: JobModel|
                v.deep_view() == spec_job_json(m) ==> (r matches Some(j) && j.deep_view() == m),
    {
        let job_type = match get_str_field(v, "type") {
            Some(s) => s,
            None => {
                proof {
                    assert forall|m: JobModel| v.deep_view() == spec_job_json(m) implies false by {
                        lemma_job_fields(m);
                    }
                }
                return None;
            }
        };
        let payload = match v.get("payload") {
            Some(j) => j.duplicate(),
            None => {
                proof {
                    assert forall|m: JobModel| v.deep_view() == spec_job_json(m) implies false by {
                        lemma_job_fields(m);
                    }
                }
                return None;
            }
        };
        let j = Job { job_type, payload };
        proof {
            assert forall|m: JobModel| v.deep_view() == spec_job_json(m) implies j.deep_view()
                == m by {
                lemma_job_fields(m);
            }
        }
        Some(j)
    }
}

/// The inbound unit of work.
pub struct ExecAssignment {
    pub version: String,
    pub assignment_id: String,
    pub request_id: String,
    pub tenant_id: String,
    pub job: Job,
    pub trace_id: Option<String>,
    pub run_id: Option<String>,
    pub flow_id: Option<String>,
    pub step_id: Option<String>,
}

/// Model of an assignment.
pub struct AsgModel {
    pub version: Seq<char>,
    pub assignment_id: Seq<char>,
    pub request_id: Seq<char>,
    pub tenant_id: Seq<char>,
    pub job: JobModel,
    pub trace_id: Option<Seq<char>>,
    pub run_id: Option<Seq<char>>,
    pub flow_id: Option<Seq<char>>,
    pub step_id: Option<Seq<char>>,
}

/// View of an optional string.
pub open spec fn opt_view(v: Option<String>) -> Option<Seq<char>> {
    match v {
        Some(s) => Some(s@),
        None => None,
    }
}

impl DeepView for ExecAssignment {
    type V = AsgModel;

    open spec fn deep_view(&self) -> AsgModel {
        AsgModel {
            version: self.version@,
            assignment_id: self.assignment_id@,
            request_id: self.request_id@,
            tenant_id: self.tenant_id@,
            job: self.job.deep_view(),
            trace_id: opt_view(self.trace_id),
            run_id: opt_view(self.run_id),
            flow_id: opt_view(self.flow_id),
            step_id: opt_view(self.step_id),
        }
    }
}

/// The required members of an assignment, in wire order.
pub open spec fn spec_asg_req_members(m: AsgModel) -> Seq<(Seq<char>, SpecJson)> {
    seq![
        ("version"@, SpecJson::Str(m.version)),
        ("assignment_id"@, SpecJson::Str(m.assignment_id)),
        ("request_id"@, SpecJson::Str(m.request_id)),
        ("tenant_id"@, SpecJson::Str(m.tenant_id)),
        ("job"@, spec_job_json(m.job)),
    ]
}

/// JSON shape of an assignment; optional members are omitted when absent.
pub open spec fn spec_asg_json(m: AsgModel) -> SpecJson {
    SpecJson::Obj(
        spec_asg_req_members(m) + opt_member("trace_id"@, m.trace_id) + opt_member(
            "run_id"@,
            m.run_id,
        ) + opt_member("flow_id"@, m.flow_id) + opt_member("step_id"@, m.step_id),
    )
}

/// Evaluates every member lookup the assignment decoder performs.
proof fn lemma_asg_fields(m: AsgModel)
    ensures
        spec_obj_get(spec_asg_json(m), "version"@) == Some(SpecJson::Str(m.version)),
        spec_obj_get(spec_asg_json(m), "assignment_id"@) == Some(SpecJson::Str(m.assignment_id)),
        spec_obj_get(spec_asg_json(m), "request_id"@) == Some(SpecJson::Str(m.request_id)),
        spec_obj_get(spec_asg_json(m), "tenant_id"@) == Some(SpecJson::Str(m.tenant_id)),
        spec_obj_get(spec_asg_json(m), "job"@) == Some(spec_job_json(m.job)),
        spec_obj_get(spec_asg_json(m), "trace_id"@) == match m.trace_id {
            Some(cs) => Some(SpecJson::Str(cs)),
            None => None,
        },
        spec_obj_get(spec_asg_json(m), "run_id"@) == match m.run_id {
            Some(cs) => Some(SpecJson::Str(cs)),
            None => None,
        },
        spec_obj_get(spec_asg_json(m), "flow_id"@) == match m.flow_id {
            Some(cs) => Some(SpecJson::Str(cs)),
            None => None,
        },
        spec_obj_get(spec_asg_json(m), "step_id"@) == match m.step_id {
            Some(cs) => Some(SpecJson::Str(cs)),
            None => None,
        },
{
    reveal_strlit("version");
    reveal_strlit("assignment_id");
    reveal_strlit("request_id");
    reveal_strlit("tenant_id");
    reveal_strlit("job");
    reveal_strlit("trace_id");
    reveal_strlit("flow_id");
    reveal_strlit("run_id");
    reveal_strlit("step_id");
    assert("version"@.len() == 7);
    assert("assignment_id"@.len() == 13);
    assert("request_id"@.len() == 10);
    assert("tenant_id"@.len() == 9);
    assert("job"@.len() == 3);
    assert("trace_id"@.len() == 8);
    assert("run_id"@.len() == 6);
    assert("flow_id"@.len() == 7);
    assert("step_id"@.len() == 7);
    assert("version"@ != "flow_id"@) by {
        assert("version"@[0] == 'v');
        assert("flow_id"@[0] == 'f');
    }
    assert("version"@ != "step_id"@) by {
        assert("version"@[0] == 'v');
        assert("step_id"@[0] == 's');
    }
    assert("flow_id"@ != "step_id"@) by {
        assert("flow_id"@[0] == 'f');
        assert("step_id"@[0] == 's');
    }
    let m0 = ("version"@, SpecJson::Str(m.version));
    let m1 = ("assignment_id"@, SpecJson::Str(m.assignment_id));
    let m2 = ("request_id"@, SpecJson::Str(m.request_id));
    let m3 = ("tenant_id"@, SpecJson::Str(m.tenant_id));
    let m4 = ("job"@, spec_job_json(m.job));
    let o1 = opt_member("trace_id"@, m.trace_id);
    let o2 = opt_member("run_id"@, m.run_id);
    let o3 = opt_member("flow_id"@, m.flow_id);
    let o4 = opt_member("step_id"@, m.step_id);
    let nil = Seq::<(Seq<char>, SpecJson)>::empty();
    let t4 = o1 + (o2 + (o3 + (o4 + nil)));
    let t3 = seq![m4] + t4;
    let t2 = seq![m3] + t3;
    let t1 = seq![m2] + t2;
    let t0 = seq![m1] + t1;
    let mm = spec_asg_req_members(m) + o1 + o2 + o3 + o4;
    assert(mm =~= seq![m0] + t0);
    assert(spec_asg_json(m)->Obj_0 == mm);
    assert(o4 + nil =~= o4);
    // version
    lemma_lookup_hit(m0, t0, "version"@);
    assert(spec_member_lookup(mm, "version"@) == Some(SpecJson::Str(m.version)));
    // assignment_id
    lemma_lookup_skip(m0, t0, "assignment_id"@);
    lemma_lookup_hit(m1, t1, "assignment_id"@);
    assert(spec_member_lookup(mm, "assignment_id"@) == Some(SpecJson::Str(m.assignment_id)));
    // request_id
    lemma_lookup_skip(m0, t0, "request_id"@);
    lemma_lookup_skip(m1, t1, "request_id"@);
    lemma_lookup_hit(m2, t2, "request_id"@);
    assert(spec_member_lookup(mm, "request_id"@) == Some(SpecJson::Str(m.request_id)));
    // tenant_id
    lemma_lookup_skip(m0, t0, "tenant_id"@);
    lemma_lookup_skip(m1, t1, "tenant_id"@);
    lemma_lookup_skip(m2, t2, "tenant_id"@);
    lemma_lookup_hit(m3, t3, "tenant_id"@);
    assert(spec_member_lookup(mm, "tenant_id"@) == Some(SpecJson::Str(m.tenant_id)));
    // job
    lemma_lookup_skip(m0, t0, "job"@);
    lemma_lookup_skip(m1, t1, "job"@);
    lemma_lookup_skip(m2, t2, "job"@);
    lemma_lookup_skip(m3, t3, "job"@);
    lemma_lookup_hit(m4, t4, "job"@);
    assert(spec_member_lookup(mm, "job"@) == Some(spec_job_json(m.job)));
    // the optional keys skip the whole required prefix
    assert forall|key: Seq<char>|
        key == "trace_id"@ || key == "run_id"@ || key == "flow_id"@ || key == "step_id"@
        implies spec_member_lookup(mm, key) == spec_member_lookup(t4, key) by {
        lemma_lookup_skip(m0, t0, key);
        lemma_lookup_skip(m1, t1, key);
        lemma_lookup_skip(m2, t2, key);
        lemma_lookup_skip(m3, t3, key);
        lemma_lookup_skip(m4, t4, key);
    }
    // trace_id
    lemma_lookup_opt("trace_id"@, m.trace_id, o2 + (o3 + (o4 + nil)));
    if m.trace_id is None {
        lemma_lookup_skip_opt("run_id"@, m.run_id, o3 + (o4 + nil), "trace_id"@);
        lemma_lookup_skip_opt("flow_id"@, m.flow_id, o4 + nil, "trace_id"@);
        lemma_lookup_skip_opt("step_id"@, m.step_id, nil, "trace_id"@);
        assert(spec_member_lookup(nil, "trace_id"@) is None);
    }
    // run_id
    lemma_lookup_skip_opt("trace_id"@, m.trace_id, o2 + (o3 + (o4 + nil)), "run_id"@);
    lemma_lookup_opt("run_id"@, m.run_id, o3 + (o4 + nil));
    if m.run_id is None {
        lemma_lookup_skip_opt("flow_id"@, m.flow_id, o4 + nil, "run_id"@);
        lemma_lookup_skip_opt("step_id"@, m.step_id, nil, "run_id"@);
        assert(spec_member_lookup(nil, "run_id"@) is None);
    }
    // flow_id
    lemma_lookup_skip_opt("trace_id"@, m.trace_id, o2 + (o3 + (o4 + nil)), "flow_id"@);
    lemma_lookup_skip_opt("run_id"@, m.run_id, o3 + (o4 + nil), "flow_id"@);
    lemma_lookup_opt("flow_id"@, m.flow_id, o4 + nil);
    if m.flow_id is None {
        lemma_lookup_skip_opt("step_id"@, m.step_id, nil, "flow_id"@);
        assert(spec_member_lookup(nil, "flow_id"@) is None);
    }
    // step_id
    lemma_lookup_skip_opt("trace_id"@, m.trace_id, o2 + (o3 + (o4 + nil)), "step_id"@);
    lemma_lookup_skip_opt("run_id"@, m.run_id, o3 + (o4 + nil), "step_id"@);
    lemma_lookup_skip_opt("flow_id"@, m.flow_id, o4 + nil, "step_id"@);
    lemma_lookup_opt("step_id"@, m.step_id, nil);
    assert(spec_member_lookup(nil, "step_id"@) is None);
}

/// A bare assignment document carries no `kind` member, so it is never
/// mistaken for an envelope.
pub proof fn lemma_asg_json_has_no_kind(m: AsgModel)
    ensures
        spec_obj_get(spec_asg_json(m), "kind"@) is None,
{
    reveal_strlit("version");
    reveal_strlit("assignment_id");
    reveal_strlit("request_id");
    reveal_strlit("tenant_id");
    reveal_strlit("job");
    reveal_strlit("trace_id");
    reveal_strlit("flow_id");
    reveal_strlit("run_id");
    reveal_strlit("step_id");
    reveal_strlit("kind");
    assert("version"@.len() == 7);
    assert("assignment_id"@.len() == 13);
    assert("request_id"@.len() == 10);
    assert("tenant_id"@.len() == 9);
    assert("job"@.len() == 3);
    assert("trace_id"@.len() == 8);
    assert("run_id"@.len() == 6);
    assert("flow_id"@.len() == 7);
    assert("step_id"@.len() == 7);
    assert("kind"@.len() == 4);
    let m0 = ("version"@, SpecJson::Str(m.version));
    let m1 = ("assignment_id"@, SpecJson::Str(m.assignment_id));
    let m2 = ("request_id"@, SpecJson::Str(m.request_id));
    let m3 = ("tenant_id"@, SpecJson::Str(m.tenant_id));
    let m4 = ("job"@, spec_job_json(m.job));
    let o1 = opt_member("trace_id"@, m.trace_id);
    let o2 = opt_member("run_id"@, m.run_id);
    let o3 = opt_member("flow_id"@, m.flow_id);
    let o4 = opt_member("step_id"@, m.step_id);
    let nil = Seq::<(Seq<char>, SpecJson)>::empty();
    let t4 = o1 + (o2 + (o3 + (o4 + nil)));
    let t3 = seq![m4] + t4;
    let t2 = seq![m3] + t3;
    let t1 = seq![m2] + t2;
    let t0 = seq![m1] + t1;
    let mm = spec_asg_req_members(m) + o1 + o2 + o3 + o4;
    assert(mm =~= seq![m0] + t0);
    assert(spec_asg_json(m)->Obj_0 == mm);
    assert(o4 + nil =~= o4);
    let key = "kind"@;
    lemma_lookup_skip(m0, t0, key);
    lemma_lookup_skip(m1, t1, key);
    lemma_lookup_skip(m2, t2, key);
    lemma_lookup_skip(m3, t3, key);
    lemma_lookup_skip(m4, t4, key);
    lemma_lookup_skip_opt("trace_id"@, m.trace_id, o2 + (o3 + (o4 + nil)), key);
    lemma_lookup_skip_opt("run_id"@, m.run_id, o3 + (o4 + nil), key);
    lemma_lookup_skip_opt("flow_id"@, m.flow_id, o4 + nil, key);
    lemma_lookup_skip_opt("step_id"@, m.step_id, nil, key);
    assert(spec_member_lookup(nil, key) is None);
}

/// Reads an optional string member: absent means `None`, a string means
/// its value, and any other shape is a malformed message.
fn get_opt_str_field(v: &JsonValue, key: &str) -> (r: Option<Option<String>>)
    ensures
        match r {
            Some(opt) => spec_obj_get(v.deep_view(), key@) == match opt_view(opt) {
                Some(cs) => Some(SpecJson::Str(cs)),
                None => None::<SpecJson>,
            },
            None => !(spec_obj_get(v.deep_view(), key@) is None) && forall|cs: Seq<char>|
                spec_obj_get(v.deep_view(), key@) != Some(SpecJson::Str(cs)),
        },
{
    match v.get(key) {
        Some(j) => match j.as_str() {
            Some(s) => Some(Some(s.clone())),
            None => None,
        },
        None => Some(None),
    }
}

impl ExecAssignment {
    /// The JSON document this assignment denotes.
    pub fn to_json(&self) -> (r: JsonValue)
        ensures
            r.deep_view() == spec_asg_json(self.deep_view()),
    {
        let ghost m = self.deep_view();
        let mut members: Vec<(String, JsonValue)> = Vec::new();
        members.push((String::from_str("version"), JsonValue::Str(self.version.clone())));
        members.push((String::from_str("assignment_id"), JsonValue::Str(self.assignment_id.clone())));
        members.push((String::from_str("request_id"), JsonValue::Str(self.request_id.clone())));
        members.push((String::from_str("tenant_id"), JsonValue::Str(self.tenant_id.clone())));
        members.push((String::from_str("job"), self.job.to_json()));
        match &self.trace_id {
            Some(s) => members.push((String::from_str("trace_id"), JsonValue::Str(s.clone()))),
            None => {}
        }
        match &self.run_id {
            Some(s) => members.push((String::from_str("run_id"), JsonValue::Str(s.clone()))),
            None => {}
        }
        match &self.flow_id {
            Some(s) => members.push((String::from_str("flow_id"), JsonValue::Str(s.clone()))),
            None => {}
        }
        match &self.step_id {
            Some(s) => members.push((String::from_str("step_id"), JsonValue::Str(s.clone()))),
            None => {}
        }
        let r = JsonValue::Obj(members);
        proof {
            crate::json::lemma_jv_model_members(r->Obj_0@);
            assert(jv_model_members(r->Obj_0@) =~= spec_asg_json(m)->Obj_0);
        }
        r
    }

    /// Reads an assignment out of a JSON document; complete over the
    /// assignment shape.
    #[verifier::rlimit(30)]
    pub fn from_json(v: &JsonValue) -> (r: Option<ExecAssignment>)
        ensures
            forall|m: AsgModel|
                v.deep_view() == spec_asg_json(m) ==> (r matches Some(a) && a.deep_view() == m),
    {
        let version = match get_str_field(v, "version") {
            Some(s) => s,
            None => {
                proof {
                    assert forall|m: AsgModel| v.deep_view() == spec_asg_json(m) implies false by {
                        lemma_asg_fields(m);
                    }
                }
                return None;
            }
        };
        let assignment_id = match get_str_field(v, "assignment_id") {
            Some(s) => s,
            None => {
                proof {
                    assert forall|m: AsgModel| v.deep_view() == spec_asg_json(m) implies false by {
                        lemma_asg_fields(m);
                    }
                }
                return None;
            }
        };
        let request_id = match get_str_field(v, "request_id") {
            Some(s) => s,
            None => {
                proof {
                    assert forall|m: AsgModel| v.deep_view() == spec_asg_json(m) implies false by {
                        lemma_asg_fields(m);
                    }
                }
                return None;
            }
        };
        let tenant_id = match get_str_field(v, "tenant_id") {
            Some(s) => s,
            None => {
                proof {
                    assert forall|m: AsgModel| v.deep_view() == spec_asg_json(m) implies false by {
                        lemma_asg_fields(m);
                    }
                }
                return None;
            }
        };
        let job = match v.get("job") {
            Some(jv0) => match Job::from_json(jv0) {
                Some(j) => j,
                None => {
                    proof {
                        assert forall|m: AsgModel| v.deep_view() == spec_asg_json(m) implies
                        false by {
                            lemma_asg_fields(m);
                        }
                    }
                    return None;
                }
            },
            None => {
                proof {
                    assert forall|m: AsgModel| v.deep_view() == spec_asg_json(m) implies false by {
                        lemma_asg_fields(m);
                    }
                }
                return None;
            }
        };
        let trace_id = match get_opt_str_field(v, "trace_id") {
            Some(o) => o,
            None => {
                proof {
                    assert forall|m: AsgModel| v.deep_view() == spec_asg_json(m) implies false by {
                        lemma_asg_fields(m);
                    }
                }
                return None;
            }
        };
        let run_id = match get_opt_str_field(v, "run_id") {
            Some(o) => o,
            None => {
                proof {
                    assert forall|m: AsgModel| v.deep_view() == spec_asg_json(m) implies false by {
                        lemma_asg_fields(m);
                    }
                }
                return None;
            }
        };
        let flow_id = match get_opt_str_field(v, "flow_id") {
            Some(o) => o,
            None => {
                proof {
                    assert forall|m: AsgModel| v.deep_view() == spec_asg_json(m) implies false by {
                        lemma_asg_fields(m);
                    }
                }
                return None;
            }
        };
        let step_id = match get_opt_str_field(v, "step_id") {
            Some(o) => o,
            None => {
                proof {
                    assert forall|m: AsgModel| v.deep_view() == spec_asg_json(m) implies false by {
                        lemma_asg_fields(m);
                    }
                }
                return None;
            }
        };
        let a = ExecAssignment {
            version,
            assignment_id,
            request_id,
            tenant_id,
            job,
            trace_id,
            run_id,
            flow_id,
            step_id,
        };
        proof {
            assert forall|m: AsgModel| v.deep_view() == spec_asg_json(m) implies a.deep_view()
                == m by {
                lemma_asg_fields(m);
            }
        }
        Some(a)
    }
}


/// Member sequence for an optional JSON-valued field.
pub open spec fn opt_jmember(key: Seq<char>, v: Option<SpecJson>) -> Seq<(Seq<char>, SpecJson)> {
    match v {
        Some(j) => seq![(key, j)],
        None => Seq::empty(),
    }
}

/// Lookup passes over an optional JSON-valued member with a different key.
proof fn lemma_lookup_skip_optj(
    optkey: Seq<char>,
    v: Option<SpecJson>,
    tail: Seq<(Seq<char>, SpecJson)>,
    key: Seq<char>,
)
    requires
        optkey != key,
    ensures
        spec_member_lookup(opt_jmember(optkey, v) + tail, key) == spec_member_lookup(tail, key),
{
    match v {
        Some(j) => {
            lemma_lookup_skip((optkey, j), tail, key);
            assert(opt_jmember(optkey, v) + tail =~= seq![(optkey, j)] + tail);
        }
        None => {
            assert(opt_jmember(optkey, v) + tail =~= tail);
        }
    }
}

/// Lookup of an optional JSON-valued member's own key.
proof fn lemma_lookup_optj(optkey: Seq<char>, v: Option<SpecJson>, tail: Seq<(Seq<char>, SpecJson)>)
    ensures
        spec_member_lookup(opt_jmember(optkey, v) + tail, optkey) == match v {
            Some(j) => Some(j),
            None => spec_member_lookup(tail, optkey),
        },
{
    match v {
        Some(j) => {
            lemma_lookup_hit((optkey, j), tail, optkey);
            assert(opt_jmember(optkey, v) + tail =~= seq![(optkey, j)] + tail);
        }
        None => {
            assert(opt_jmember(optkey, v) + tail =~= tail);
        }
    }
}

/// Outcome of one handler execution.
#[derive(PartialEq, Eq, Structural, Clone, Copy, Debug)]
pub enum ExecStatus {
    Success,
    Error,
    Timeout,
    Cancelled,
}

/// Wire name of an execution status.
pub open spec fn spec_status_str(st: ExecStatus) -> Seq<char> {
    match st {
        ExecStatus::Success => "success"@,
        ExecStatus::Error => "error"@,
        ExecStatus::Timeout => "timeout"@,
        ExecStatus::Cancelled => "cancelled"@,
    }
}

impl ExecStatus {
    /// Wire name of this status.
    pub fn as_wire_str(&self) -> (r: &'static str)
        ensures
            r@ == spec_status_str(*self),
    {
        match self {
            ExecStatus::Success => "success",
            ExecStatus::Error => "error",
            ExecStatus::Timeout => "timeout",
            ExecStatus::Cancelled => "cancelled",
        }
    }

    /// Parses a wire name back into a status: inverse of `as_wire_str`.
    pub fn from_wire_str(s: &str) -> (r: Option<ExecStatus>)
        ensures
            forall|st: ExecStatus| s@ == spec_status_str(st) ==> r == Some(st),
            r matches Some(st) ==> s@ == spec_status_str(st),
    {
        proof {
            reveal_strlit("success");
            reveal_strlit("error");
            reveal_strlit("timeout");
            reveal_strlit("cancelled");
            assert("success"@.len() == 7);
            assert("error"@.len() == 5);
            assert("timeout"@.len() == 7);
            assert("cancelled"@.len() == 9);
            assert("success"@ != "timeout"@) by {
                assert("success"@[0] == 's');
                assert("timeout"@[0] == 't');
            }
        }
        if str_eq(s, "success") {
            Some(ExecStatus::Success)
        } else if str_eq(s, "error") {
            Some(ExecStatus::Error)
        } else if str_eq(s, "timeout") {
            Some(ExecStatus::Timeout)
        } else if str_eq(s, "cancelled") {
            Some(ExecStatus::Cancelled)
        } else {
            None
        }
    }
}

/// States a task passes through, as reported by the structured log.
#[derive(PartialEq, Eq, Structural, Clone, Copy, Debug)]
pub enum TaskState {
    Queued,
    Running,
    Completed,
    Failed,
    Cancelled,
    Timeout,
}

/// Wire name of a task state.
pub open spec fn spec_task_state_str(t: TaskState) -> Seq<char> {
    match t {
        TaskState::Queued => "queued"@,
        TaskState::Running => "running"@,
        TaskState::Completed => "completed"@,
        TaskState::Failed => "failed"@,
        TaskState::Cancelled => "cancelled"@,
        TaskState::Timeout => "timeout"@,
    }
}

impl TaskState {
    /// Wire name of this state.
    pub fn as_wire_str(&self) -> (r: &'static str)
        ensures
            r@ == spec_task_state_str(*self),
    {
        match self {
            TaskState::Queued => "queued",
            TaskState::Running => "running",
            TaskState::Completed => "completed",
            TaskState::Failed => "failed",
            TaskState::Cancelled => "cancelled",
            TaskState::Timeout => "timeout",
        }
    }
}

/// The terminal task state a handler outcome maps to. Total over the four
/// statuses: success to completed, error to failed, timeout to timeout,
/// cancelled to cancelled.
pub fn map_status_to_task_state(s: &ExecStatus) -> (r: TaskState)
    ensures
        r == spec_map_status(*s),
{
    match s {
        ExecStatus::Success => TaskState::Completed,
        ExecStatus::Error => TaskState::Failed,
        ExecStatus::Timeout => TaskState::Timeout,
        ExecStatus::Cancelled => TaskState::Cancelled,
    }
}

/// The mapping is total, and each status lands on its terminal state:
/// success on completed, error on failed, timeout on timeout, cancelled
/// on cancelled. The state the pipeline logs and counts at the end of a
/// task is exactly this image of the result's status.
pub proof fn lemma_map_status_total()
    ensures
        forall|s: ExecStatus| #[trigger] spec_map_status(s) != TaskState::Queued,
        forall|s: ExecStatus| #[trigger] spec_map_status(s) != TaskState::Running,
        spec_map_status(ExecStatus::Success) == TaskState::Completed,
        spec_map_status(ExecStatus::Error) == TaskState::Failed,
        spec_map_status(ExecStatus::Timeout) == TaskState::Timeout,
        spec_map_status(ExecStatus::Cancelled) == TaskState::Cancelled,
{
    assert forall|s: ExecStatus| #[trigger] spec_map_status(s) != TaskState::Queued by {
        match s {
            ExecStatus::Success => {}
            ExecStatus::Error => {}
            ExecStatus::Timeout => {}
            ExecStatus::Cancelled => {}
        }
    }
    assert forall|s: ExecStatus| #[trigger] spec_map_status(s) != TaskState::Running by {
        match s {
            ExecStatus::Success => {}
            ExecStatus::Error => {}
            ExecStatus::Timeout => {}
            ExecStatus::Cancelled => {}
        }
    }
}

/// The status-to-state mapping as a total mathematical function.
pub open spec fn spec_map_status(s: ExecStatus) -> TaskState {
    match s {
        ExecStatus::Success => TaskState::Completed,
        ExecStatus::Error => TaskState::Failed,
        ExecStatus::Timeout => TaskState::Timeout,
        ExecStatus::Cancelled => TaskState::Cancelled,
    }
}

/// The outbound record of one handler execution.
pub struct ExecResult {
    pub version: String,
    pub assignment_id: String,
    pub request_id: String,
    pub status: ExecStatus,
    pub provider_id: String,
    pub job_type: String,
    pub output: Option<JsonValue>,
    pub latency_ms: u64,
    pub cost: u64,
    pub trace_id: Option<String>,
    pub tenant_id: Option<String>,
    pub run_id: Option<String>,
    pub error_code: Option<String>,
    pub error_message: Option<String>,
}

/// Model of a result. `cost` is in thousandths, reserved and zero today.
pub struct ResModel {
    pub version: Seq<char>,
    pub assignment_id: Seq<char>,
    pub request_id: Seq<char>,
    pub status: ExecStatus,
    pub provider_id: Seq<char>,
    pub job_type: Seq<char>,
    pub output: Option<SpecJson>,
    pub latency_ms: u64,
    pub cost: u64,
    pub trace_id: Option<Seq<char>>,
    pub tenant_id: Option<Seq<char>>,
    pub run_id: Option<Seq<char>>,
    pub error_code: Option<Seq<char>>,
    pub error_message: Option<Seq<char>>,
}

/// View of an optional document.
pub open spec fn opt_jv_view(v: Option<JsonValue>) -> Option<SpecJson> {
    match v {
        Some(j) => Some(jv_model(j)),
        None => None,
    }
}

impl DeepView for ExecResult {
    type V = ResModel;

    open spec fn deep_view(&self) -> ResModel {
        ResModel {
            version: self.version@,
            assignment_id: self.assignment_id@,
            request_id: self.request_id@,
            status: self.status,
            provider_id: self.provider_id@,
            job_type: self.job_type@,
            output: opt_jv_view(self.output),
            latency_ms: self.latency_ms,
            cost: self.cost,
            trace_id: opt_view(self.trace_id),
            tenant_id: opt_view(self.tenant_id),
            run_id: opt_view(self.run_id),
            error_code: opt_view(self.error_code),
            error_message: opt_view(self.error_message),
        }
    }
}

/// A result fits on the wire when its counters fit a signed JSON number.
pub open spec fn res_wire_ok(m: ResModel) -> bool {
    m.latency_ms <= i64::MAX && m.cost <= i64::MAX
}

/// JSON shape of a result; optional members are omitted when absent.
pub open spec fn spec_res_json(m: ResModel) -> SpecJson {
    SpecJson::Obj(
        seq![
            ("version"@, SpecJson::Str(m.version)),
            ("assignment_id"@, SpecJson::Str(m.assignment_id)),
            ("request_id"@, SpecJson::Str(m.request_id)),
            ("status"@, SpecJson::Str(spec_status_str(m.status))),
            ("provider_id"@, SpecJson::Str(m.provider_id)),
            ("job_type"@, SpecJson::Str(m.job_type)),
        ] + opt_jmember("output"@, m.output) + seq![
            ("latency_ms"@, SpecJson::I64(m.latency_ms as i64)),
            ("cost"@, SpecJson::Milli(m.cost as i64)),
        ] + opt_member("trace_id"@, m.trace_id) + opt_member("tenant_id"@, m.tenant_id)
            + opt_member("run_id"@, m.run_id) + opt_member("error_code"@, m.error_code)
            + opt_member("error_message"@, m.error_message),
    )
}

/// Evaluates every member lookup the result decoder performs.
#[verifier::rlimit(100)]
#[verifier::spinoff_prover]
proof fn lemma_res_fields(m: ResModel)
    ensures
        spec_obj_get(spec_res_json(m), "version"@) == Some(SpecJson::Str(m.version)),
        spec_obj_get(spec_res_json(m), "assignment_id"@) == Some(SpecJson::Str(m.assignment_id)),
        spec_obj_get(spec_res_json(m), "request_id"@) == Some(SpecJson::Str(m.request_id)),
        spec_obj_get(spec_res_json(m), "status"@) == Some(SpecJson::Str(spec_status_str(m.status))),
        spec_obj_get(spec_res_json(m), "provider_id"@) == Some(SpecJson::Str(m.provider_id)),
        spec_obj_get(spec_res_json(m), "job_type"@) == Some(SpecJson::Str(m.job_type)),
        spec_obj_get(spec_res_json(m), "output"@) == m.output,
        spec_obj_get(spec_res_json(m), "latency_ms"@) == Some(SpecJson::I64(m.latency_ms as i64)),
        spec_obj_get(spec_res_json(m), "cost"@) == Some(SpecJson::Milli(m.cost as i64)),
        spec_obj_get(spec_res_json(m), "trace_id"@) == match m.trace_id {
            Some(cs) => Some(SpecJson::Str(cs)),
            None => None,
        },
        spec_obj_get(spec_res_json(m), "tenant_id"@) == match m.tenant_id {
            Some(cs) => Some(SpecJson::Str(cs)),
            None => None,
        },
        spec_obj_get(spec_res_json(m), "run_id"@) == match m.run_id {
            Some(cs) => Some(SpecJson::Str(cs)),
            None => None,
        },
        spec_obj_get(spec_res_json(m), "error_code"@) == match m.error_code {
            Some(cs) => Some(SpecJson::Str(cs)),
            None => None,
        },
        spec_obj_get(spec_res_json(m), "error_message"@) == match m.error_message {
            Some(cs) => Some(SpecJson::Str(cs)),
            None => None,
        },
{
    reveal_strlit("version");
    reveal_strlit("assignment_id");
    reveal_strlit("request_id");
    reveal_strlit("status");
    reveal_strlit("provider_id");
    reveal_strlit("job_type");
    reveal_strlit("output");
    reveal_strlit("latency_ms");
    reveal_strlit("cost");
    reveal_strlit("trace_id");
    reveal_strlit("tenant_id");
    reveal_strlit("run_id");
    reveal_strlit("error_code");
    reveal_strlit("error_message");
    assert("version"@.len() == 7);
    assert("assignment_id"@.len() == 13);
    assert("request_id"@.len() == 10);
    assert("status"@.len() == 6);
    assert("provider_id"@.len() == 11);
    assert("job_type"@.len() == 8);
    assert("output"@.len() == 6);
    assert("latency_ms"@.len() == 10);
    assert("cost"@.len() == 4);
    assert("trace_id"@.len() == 8);
    assert("tenant_id"@.len() == 9);
    assert("run_id"@.len() == 6);
    assert("error_code"@.len() == 10);
    assert("error_message"@.len() == 13);
    assert("status"@ != "output"@) by {
        assert("status"@[0] == 's');
        assert("output"@[0] == 'o');
    }
    assert("status"@ != "run_id"@) by {
        assert("status"@[0] == 's');
        assert("run_id"@[0] == 'r');
    }
    assert("output"@ != "run_id"@) by {
        assert("output"@[0] == 'o');
        assert("run_id"@[0] == 'r');
    }
    assert("request_id"@ != "latency_ms"@) by {
        assert("request_id"@[0] == 'r');
        assert("latency_ms"@[0] == 'l');
    }
    assert("request_id"@ != "error_code"@) by {
        assert("request_id"@[0] == 'r');
        assert("error_code"@[0] == 'e');
    }
    assert("latency_ms"@ != "error_code"@) by {
        assert("latency_ms"@[0] == 'l');
        assert("error_code"@[0] == 'e');
    }
    assert("assignment_id"@ != "error_message"@) by {
        assert("assignment_id"@[0] == 'a');
        assert("error_message"@[0] == 'e');
    }
    assert("job_type"@ != "trace_id"@) by {
        assert("job_type"@[0] == 'j');
        assert("trace_id"@[0] == 't');
    }
    let m0 = ("version"@, SpecJson::Str(m.version));
    let m1 = ("assignment_id"@, SpecJson::Str(m.assignment_id));
    let m2 = ("request_id"@, SpecJson::Str(m.request_id));
    let m3 = ("status"@, SpecJson::Str(spec_status_str(m.status)));
    let m4 = ("provider_id"@, SpecJson::Str(m.provider_id));
    let m5 = ("job_type"@, SpecJson::Str(m.job_type));
    let oo = opt_jmember("output"@, m.output);
    let m6 = ("latency_ms"@, SpecJson::I64(m.latency_ms as i64));
    let m7 = ("cost"@, SpecJson::Milli(m.cost as i64));
    let o1 = opt_member("trace_id"@, m.trace_id);
    let o2 = opt_member("tenant_id"@, m.tenant_id);
    let o3 = opt_member("run_id"@, m.run_id);
    let o4 = opt_member("error_code"@, m.error_code);
    let o5 = opt_member("error_message"@, m.error_message);
    let nil = Seq::<(Seq<char>, SpecJson)>::empty();
    let t10 = o4 + (o5 + nil);
    let t9 = o3 + t10;
    let t8 = o2 + t9;
    let t7 = o1 + t8;
    let t6 = seq![m7] + t7;
    let t5b = seq![m6] + t6;
    let t5 = oo + t5b;
    let t4 = seq![m5] + t5;
    let t3 = seq![m4] + t4;
    let t2 = seq![m3] + t3;
    let t1 = seq![m2] + t2;
    let t0 = seq![m1] + t1;
    let mm = seq![m0, m1, m2, m3, m4, m5] + oo + seq![m6, m7] + o1 + o2 + o3 + o4 + o5;
    assert(mm =~= seq![m0] + t0);
    assert(spec_res_json(m)->Obj_0 == mm);
    assert(o5 + nil =~= o5);
    // the required keys before the optional output
    lemma_lookup_hit(m0, t0, "version"@);
    lemma_lookup_skip(m0, t0, "assignment_id"@);
    lemma_lookup_hit(m1, t1, "assignment_id"@);
    lemma_lookup_skip(m0, t0, "request_id"@);
    lemma_lookup_skip(m1, t1, "request_id"@);
    lemma_lookup_hit(m2, t2, "request_id"@);
    lemma_lookup_skip(m0, t0, "status"@);
    lemma_lookup_skip(m1, t1, "status"@);
    lemma_lookup_skip(m2, t2, "status"@);
    lemma_lookup_hit(m3, t3, "status"@);
    lemma_lookup_skip(m0, t0, "provider_id"@);
    lemma_lookup_skip(m1, t1, "provider_id"@);
    lemma_lookup_skip(m2, t2, "provider_id"@);
    lemma_lookup_skip(m3, t3, "provider_id"@);
    lemma_lookup_hit(m4, t4, "provider_id"@);
    lemma_lookup_skip(m0, t0, "job_type"@);
    lemma_lookup_skip(m1, t1, "job_type"@);
    lemma_lookup_skip(m2, t2, "job_type"@);
    lemma_lookup_skip(m3, t3, "job_type"@);
    lemma_lookup_skip(m4, t4, "job_type"@);
    lemma_lookup_hit(m5, t5, "job_type"@);
    // the keys at or past the optional output skip the required prefix
    assert forall|key: Seq<char>|
        key == "output"@ || key == "latency_ms"@ || key == "cost"@ || key == "trace_id"@ || key
            == "tenant_id"@ || key == "run_id"@ || key == "error_code"@ || key
            == "error_message"@ implies spec_member_lookup(mm, key) == spec_member_lookup(
        t5,
        key,
    ) by {
        lemma_lookup_skip(m0, t0, key);
        lemma_lookup_skip(m1, t1, key);
        lemma_lookup_skip(m2, t2, key);
        lemma_lookup_skip(m3, t3, key);
        lemma_lookup_skip(m4, t4, key);
        lemma_lookup_skip(m5, t5, key);
    }
    // output
    lemma_lookup_optj("output"@, m.output, t5b);
    if m.output is None {
        lemma_lookup_skip(m6, t6, "output"@);
        lemma_lookup_skip(m7, t7, "output"@);
        lemma_lookup_skip_opt("trace_id"@, m.trace_id, t8, "output"@);
        lemma_lookup_skip_opt("tenant_id"@, m.tenant_id, t9, "output"@);
        lemma_lookup_skip_opt("run_id"@, m.run_id, t10, "output"@);
        lemma_lookup_skip_opt("error_code"@, m.error_code, o5 + nil, "output"@);
        lemma_lookup_skip_opt("error_message"@, m.error_message, nil, "output"@);
        assert(spec_member_lookup(nil, "output"@) is None);
    }
    // the keys past output skip it
    assert forall|key: Seq<char>|
        key == "latency_ms"@ || key == "cost"@ || key == "trace_id"@ || key == "tenant_id"@ || key
            == "run_id"@ || key == "error_code"@ || key == "error_message"@ implies
        spec_member_lookup(t5, key) == spec_member_lookup(t5b, key) by {
        lemma_lookup_skip_optj("output"@, m.output, t5b, key);
    }
    lemma_lookup_hit(m6, t6, "latency_ms"@);
    lemma_lookup_skip(m6, t6, "cost"@);
    lemma_lookup_hit(m7, t7, "cost"@);
    // the trailing optional string members
    assert forall|key: Seq<char>|
        key == "trace_id"@ || key == "tenant_id"@ || key == "run_id"@ || key == "error_code"@
            || key == "error_message"@ implies spec_member_lookup(t5b, key) == spec_member_lookup(
        t7,
        key,
    ) by {
        lemma_lookup_skip(m6, t6, key);
        lemma_lookup_skip(m7, t7, key);
    }
    lemma_lookup_opt("trace_id"@, m.trace_id, t8);
    if m.trace_id is None {
        lemma_lookup_skip_opt("tenant_id"@, m.tenant_id, t9, "trace_id"@);
        lemma_lookup_skip_opt("run_id"@, m.run_id, t10, "trace_id"@);
        lemma_lookup_skip_opt("error_code"@, m.error_code, o5 + nil, "trace_id"@);
        lemma_lookup_skip_opt("error_message"@, m.error_message, nil, "trace_id"@);
        assert(spec_member_lookup(nil, "trace_id"@) is None);
    }
    lemma_lookup_skip_opt("trace_id"@, m.trace_id, t8, "tenant_id"@);
    lemma_lookup_opt("tenant_id"@, m.tenant_id, t9);
    if m.tenant_id is None {
        lemma_lookup_skip_opt("run_id"@, m.run_id, t10, "tenant_id"@);
        lemma_lookup_skip_opt("error_code"@, m.error_code, o5 + nil, "tenant_id"@);
        lemma_lookup_skip_opt("error_message"@, m.error_message, nil, "tenant_id"@);
        assert(spec_member_lookup(nil, "tenant_id"@) is None);
    }
    lemma_lookup_skip_opt("trace_id"@, m.trace_id, t8, "run_id"@);
    lemma_lookup_skip_opt("tenant_id"@, m.tenant_id, t9, "run_id"@);
    lemma_lookup_opt("run_id"@, m.run_id, t10);
    if m.run_id is None {
        lemma_lookup_skip_opt("error_code"@, m.error_code, o5 + nil, "run_id"@);
        lemma_lookup_skip_opt("error_message"@, m.error_message, nil, "run_id"@);
        assert(spec_member_lookup(nil, "run_id"@) is None);
    }
    lemma_lookup_skip_opt("trace_id"@, m.trace_id, t8, "error_code"@);
    lemma_lookup_skip_opt("tenant_id"@, m.tenant_id, t9, "error_code"@);
    lemma_lookup_skip_opt("run_id"@, m.run_id, t10, "error_code"@);
    lemma_lookup_opt("error_code"@, m.error_code, o5 + nil);
    if m.error_code is None {
        lemma_lookup_skip_opt("error_message"@, m.error_message, nil, "error_code"@);
        assert(spec_member_lookup(nil, "error_code"@) is None);
    }
    lemma_lookup_skip_opt("trace_id"@, m.trace_id, t8, "error_message"@);
    lemma_lookup_skip_opt("tenant_id"@, m.tenant_id, t9, "error_message"@);
    lemma_lookup_skip_opt("run_id"@, m.run_id, t10, "error_message"@);
    lemma_lookup_skip_opt("error_code"@, m.error_code, o5 + nil, "error_message"@);
    lemma_lookup_opt("error_message"@, m.error_message, nil);
    assert(spec_member_lookup(nil, "error_message"@) is None);
}

impl ExecResult {
    /// The JSON document this result denotes.
    #[verifier::rlimit(60)]
    pub fn to_json(&self) -> (r: JsonValue)
        requires
            res_wire_ok(self.deep_view()),
        ensures
            r.deep_view() == spec_res_json(self.deep_view()),
    {
        let ghost m = self.deep_view();
        let mut members: Vec<(String, JsonValue)> = Vec::new();
        members.push((String::from_str("version"), JsonValue::Str(self.version.clone())));
        members.push((String::from_str("assignment_id"), JsonValue::Str(self.assignment_id.clone())));
        members.push((String::from_str("request_id"), JsonValue::Str(self.request_id.clone())));
        members.push((String::from_str("status"), JsonValue::Str(String::from_str(self.status.as_wire_str()))));
        members.push((String::from_str("provider_id"), JsonValue::Str(self.provider_id.clone())));
        members.push((String::from_str("job_type"), JsonValue::Str(self.job_type.clone())));
        match &self.output {
            Some(j) => members.push((String::from_str("output"), j.duplicate())),
            None => {}
        }
        members.push((String::from_str("latency_ms"), JsonValue::I64(self.latency_ms as i64)));
        members.push((String::from_str("cost"), JsonValue::Milli(self.cost as i64)));
        match &self.trace_id {
            Some(st) => members.push((String::from_str("trace_id"), JsonValue::Str(st.clone()))),
            None => {}
        }
        match &self.tenant_id {
            Some(st) => members.push((String::from_str("tenant_id"), JsonValue::Str(st.clone()))),
            None => {}
        }
        match &self.run_id {
            Some(st) => members.push((String::from_str("run_id"), JsonValue::Str(st.clone()))),
            None => {}
        }
        match &self.error_code {
            Some(st) => members.push((String::from_str("error_code"), JsonValue::Str(st.clone()))),
            None => {}
        }
        match &self.error_message {
            Some(st) => members.push((String::from_str("error_message"), JsonValue::Str(st.clone()))),
            None => {}
        }
        let r = JsonValue::Obj(members);
        proof {
            crate::json::lemma_jv_model_members(r->Obj_0@);
            assert(jv_model_members(r->Obj_0@) =~= spec_res_json(m)->Obj_0);
        }
        r
    }

    /// Reads a result out of a JSON document; complete over results that
    /// fit the wire.
    #[verifier::rlimit(60)]
    pub fn from_json(v: &JsonValue) -> (r: Option<ExecResult>)
        ensures
            forall|m: ResModel|
                (v.deep_view() == spec_res_json(m) && res_wire_ok(m) && m.cost >= 0) ==> (
                r matches Some(x) && x.deep_view() == m),
    {
        let version = match get_str_field(v, "version") {
            Some(s) => s,
            None => {
                proof {
                    assert forall|m: ResModel|
                        (v.deep_view() == spec_res_json(m) && res_wire_ok(m)) implies false by {
                        lemma_res_fields(m);
                    }
                }
                return None;
            }
        };
        let assignment_id = match get_str_field(v, "assignment_id") {
            Some(s) => s,
            None => {
                proof {
                    assert forall|m: ResModel|
                        (v.deep_view() == spec_res_json(m) && res_wire_ok(m)) implies false by {
                        lemma_res_fields(m);
                    }
                }
                return None;
            }
        };
        let request_id = match get_str_field(v, "request_id") {
            Some(s) => s,
            None => {
                proof {
                    assert forall|m: ResModel|
                        (v.deep_view() == spec_res_json(m) && res_wire_ok(m)) implies false by {
                        lemma_res_fields(m);
                    }
                }
                return None;
            }
        };
        let status_name = match get_str_field(v, "status") {
            Some(s) => s,
            None => {
                proof {
                    assert forall|m: ResModel|
                        (v.deep_view() == spec_res_json(m) && res_wire_ok(m)) implies false by {
                        lemma_res_fields(m);
                    }
                }
                return None;
            }
        };
        let status = match ExecStatus::from_wire_str(status_name.as_str()) {
            Some(st) => st,
            None => {
                proof {
                    assert forall|m: ResModel|
                        (v.deep_view() == spec_res_json(m) && res_wire_ok(m)) implies false by {
                        lemma_res_fields(m);
                    }
                }
                return None;
            }
        };
        let provider_id = match get_str_field(v, "provider_id") {
            Some(s) => s,
            None => {
                proof {
                    assert forall|m: ResModel|
                        (v.deep_view() == spec_res_json(m) && res_wire_ok(m)) implies false by {
                        lemma_res_fields(m);
                    }
                }
                return None;
            }
        };
        let job_type = match get_str_field(v, "job_type") {
            Some(s) => s,
            None => {
                proof {
                    assert forall|m: ResModel|
                        (v.deep_view() == spec_res_json(m) && res_wire_ok(m)) implies false by {
                        lemma_res_fields(m);
                    }
                }
                return None;
            }
        };
        let output = match v.get("output") {
            Some(j) => Some(j.duplicate()),
            None => None,
        };
        let latency_ms = match v.get("latency_ms") {
            Some(j) => match j.as_u64() {
                Some(n) => n,
                None => {
                    proof {
                        assert forall|m: ResModel|
                            (v.deep_view() == spec_res_json(m) && res_wire_ok(m)) implies false by {
                            lemma_res_fields(m);
                        }
                    }
                    return None;
                }
            },
            None => {
                proof {
                    assert forall|m: ResModel|
                        (v.deep_view() == spec_res_json(m) && res_wire_ok(m)) implies false by {
                        lemma_res_fields(m);
                    }
                }
                return None;
            }
        };
        let cost = match v.get("cost") {
            Some(j) => match j {
                JsonValue::Milli(c) => {
                    if *c >= 0 {
                        *c as u64
                    } else {
                        proof {
                            assert forall|m: ResModel|
                                (v.deep_view() == spec_res_json(m) && res_wire_ok(m) && m.cost
                                    >= 0) implies false by {
                                lemma_res_fields(m);
                            }
                        }
                        return None;
                    }
                }
                _ => {
                    proof {
                        assert forall|m: ResModel|
                            (v.deep_view() == spec_res_json(m) && res_wire_ok(m)) implies false by {
                            lemma_res_fields(m);
                        }
                    }
                    return None;
                }
            },
            None => {
                proof {
                    assert forall|m: ResModel|
                        (v.deep_view() == spec_res_json(m) && res_wire_ok(m)) implies false by {
                        lemma_res_fields(m);
                    }
                }
                return None;
            }
        };
        let trace_id = match get_opt_str_field(v, "trace_id") {
            Some(o) => o,
            None => {
                proof {
                    assert forall|m: ResModel|
                        (v.deep_view() == spec_res_json(m) && res_wire_ok(m)) implies false by {
                        lemma_res_fields(m);
                    }
                }
                return None;
            }
        };
        let tenant_id = match get_opt_str_field(v, "tenant_id") {
            Some(o) => o,
            None => {
                proof {
                    assert forall|m: ResModel|
                        (v.deep_view() == spec_res_json(m) && res_wire_ok(m)) implies false by {
                        lemma_res_fields(m);
                    }
                }
                return None;
            }
        };
        let run_id = match get_opt_str_field(v, "run_id") {
            Some(o) => o,
            None => {
                proof {
                    assert forall|m: ResModel|
                        (v.deep_view() == spec_res_json(m) && res_wire_ok(m)) implies false by {
                        lemma_res_fields(m);
                    }
                }
                return None;
            }
        };
        let error_code = match get_opt_str_field(v, "error_code") {
            Some(o) => o,
            None => {
                proof {
                    assert forall|m: ResModel|
                        (v.deep_view() == spec_res_json(m) && res_wire_ok(m)) implies false by {
                        lemma_res_fields(m);
                    }
                }
                return None;
            }
        };
        let error_message = match get_opt_str_field(v, "error_message") {
            Some(o) => o,
            None => {
                proof {
                    assert forall|m: ResModel|
                        (v.deep_view() == spec_res_json(m) && res_wire_ok(m)) implies false by {
                        lemma_res_fields(m);
                    }
                }
                return None;
            }
        };
        let x = ExecResult {
            version,
            assignment_id,
            request_id,
            status,
            provider_id,
            job_type,
            output,
            latency_ms,
            cost,
            trace_id,
            tenant_id,
            run_id,
            error_code,
            error_message,
        };
        proof {
            assert forall|m: ResModel|
                (v.deep_view() == spec_res_json(m) && res_wire_ok(m) && m.cost >= 0) implies
            x.deep_view() == m by {
                lemma_res_fields(m);
            }
        }
        Some(x)
    }
}

/// A periodic liveness and load report.
pub struct WorkerHeartbeat {
    pub worker_id: String,
    pub timestamp: String,
    pub status: String,
    /// Current load in thousandths of full utilization, 0 through 1000.
    pub load_milli: u64,
}

/// Model of a heartbeat.
pub struct HbModel {
    pub worker_id: Seq<char>,
    pub timestamp: Seq<char>,
    pub status: Seq<char>,
    pub load_milli: u64,
}

impl DeepView for WorkerHeartbeat {
    type V = HbModel;

    open spec fn deep_view(&self) -> HbModel {
        HbModel {
            worker_id: self.worker_id@,
            timestamp: self.timestamp@,
            status: self.status@,
            load_milli: self.load_milli,
        }
    }
}

/// JSON shape of a heartbeat: the load is a fraction in thousandths.
pub open spec fn spec_hb_json(m: HbModel) -> SpecJson {
    SpecJson::Obj(
        seq![
            ("worker_id"@, SpecJson::Str(m.worker_id)),
            ("timestamp"@, SpecJson::Str(m.timestamp)),
            ("status"@, SpecJson::Str(m.status)),
            ("load"@, SpecJson::Milli(m.load_milli as i64)),
        ],
    )
}

/// Evaluates every member lookup the heartbeat decoder performs.
proof fn lemma_hb_fields(m: HbModel)
    ensures
        spec_obj_get(spec_hb_json(m), "worker_id"@) == Some(SpecJson::Str(m.worker_id)),
        spec_obj_get(spec_hb_json(m), "timestamp"@) == Some(SpecJson::Str(m.timestamp)),
        spec_obj_get(spec_hb_json(m), "status"@) == Some(SpecJson::Str(m.status)),
        spec_obj_get(spec_hb_json(m), "load"@) == Some(SpecJson::Milli(m.load_milli as i64)),
{
    reveal_strlit("worker_id");
    reveal_strlit("timestamp");
    reveal_strlit("status");
    reveal_strlit("load");
    assert("worker_id"@.len() == 9);
    assert("timestamp"@.len() == 9);
    assert("status"@.len() == 6);
    assert("load"@.len() == 4);
    assert("worker_id"@ != "timestamp"@) by {
        assert("worker_id"@[0] == 'w');
        assert("timestamp"@[0] == 't');
    }
    let m0 = ("worker_id"@, SpecJson::Str(m.worker_id));
    let m1 = ("timestamp"@, SpecJson::Str(m.timestamp));
    let m2 = ("status"@, SpecJson::Str(m.status));
    let m3 = ("load"@, SpecJson::Milli(m.load_milli as i64));
    let nil = Seq::<(Seq<char>, SpecJson)>::empty();
    let t2 = seq![m3] + nil;
    let t1 = seq![m2] + t2;
    let t0 = seq![m1] + t1;
    let mm = seq![m0, m1, m2, m3];
    assert(mm =~= seq![m0] + t0);
    assert(spec_hb_json(m)->Obj_0 == mm);
    lemma_lookup_hit(m0, t0, "worker_id"@);
    lemma_lookup_skip(m0, t0, "timestamp"@);
    lemma_lookup_hit(m1, t1, "timestamp"@);
    lemma_lookup_skip(m0, t0, "status"@);
    lemma_lookup_skip(m1, t1, "status"@);
    lemma_lookup_hit(m2, t2, "status"@);
    lemma_lookup_skip(m0, t0, "load"@);
    lemma_lookup_skip(m1, t1, "load"@);
    lemma_lookup_skip(m2, t2, "load"@);
    assert(t2 =~= seq![m3] + nil);
    lemma_lookup_hit(m3, nil, "load"@);
}

impl WorkerHeartbeat {
    /// The JSON document this heartbeat denotes.
    pub fn to_json(&self) -> (r: JsonValue)
        requires
            self.load_milli <= 1000,
        ensures
            r.deep_view() == spec_hb_json(self.deep_view()),
    {
        let ghost m = self.deep_view();
        let mut members: Vec<(String, JsonValue)> = Vec::new();
        members.push((String::from_str("worker_id"), JsonValue::Str(self.worker_id.clone())));
        members.push((String::from_str("timestamp"), JsonValue::Str(self.timestamp.clone())));
        members.push((String::from_str("status"), JsonValue::Str(self.status.clone())));
        members.push((String::from_str("load"), JsonValue::Milli(self.load_milli as i64)));
        let r = JsonValue::Obj(members);
        proof {
            crate::json::lemma_jv_model_members(r->Obj_0@);
            assert(jv_model_members(r->Obj_0@) =~= spec_hb_json(m)->Obj_0);
        }
        r
    }

    /// Reads a heartbeat out of a JSON document; complete over heartbeats
    /// with an in-range load.
    pub fn from_json(v: &JsonValue) -> (r: Option<WorkerHeartbeat>)
        ensures
            forall|m: HbModel|
                (v.deep_view() == spec_hb_json(m) && m.load_milli <= 1000) ==> (r matches Some(h)
                    && h.deep_view() == m),
    {
        let worker_id = match get_str_field(v, "worker_id") {
            Some(s) => s,
            None => {
                proof {
                    assert forall|m: HbModel| v.deep_view() == spec_hb_json(m) implies false by {
                        lemma_hb_fields(m);
                    }
                }
                return None;
            }
        };
        let timestamp = match get_str_field(v, "timestamp") {
            Some(s) => s,
            None => {
                proof {
                    assert forall|m: HbModel| v.deep_view() == spec_hb_json(m) implies false by {
                        lemma_hb_fields(m);
                    }
                }
                return None;
            }
        };
        let status = match get_str_field(v, "status") {
            Some(s) => s,
            None => {
                proof {
                    assert forall|m: HbModel| v.deep_view() == spec_hb_json(m) implies false by {
                        lemma_hb_fields(m);
                    }
                }
                return None;
            }
        };
        let load_milli = match v.get("load") {
            Some(j) => match j {
                JsonValue::Milli(x) => {
                    if *x >= 0 && *x <= 1000 {
                        *x as u64
                    } else {
                        proof {
                            assert forall|m: HbModel|
                                (v.deep_view() == spec_hb_json(m) && m.load_milli <= 1000) implies
                            false by {
                                lemma_hb_fields(m);
                            }
                        }
                        return None;
                    }
                }
                _ => {
                    proof {
                        assert forall|m: HbModel| v.deep_view() == spec_hb_json(m) implies
                        false by {
                            lemma_hb_fields(m);
                        }
                    }
                    return None;
                }
            },
            None => {
                proof {
                    assert forall|m: HbModel| v.deep_view() == spec_hb_json(m) implies false by {
                        lemma_hb_fields(m);
                    }
                }
                return None;
            }
        };
        let h = WorkerHeartbeat { worker_id, timestamp, status, load_milli };
        proof {
            assert forall|m: HbModel|
                (v.deep_view() == spec_hb_json(m) && m.load_milli <= 1000) implies h.deep_view()
                == m by {
                lemma_hb_fields(m);
            }
        }
        Some(h)
    }
}

/// A record of an unprocessable message or exhausted publish.
pub struct DeadLetter {
    pub reason: String,
    pub payload_ref: JsonValue,
    pub ts: String,
}

/// Model of a dead letter.
pub struct DlModel {
    pub reason: Seq<char>,
    pub payload_ref: SpecJson,
    pub ts: Seq<char>,
}

impl DeepView for DeadLetter {
    type V = DlModel;

    open spec fn deep_view(&self) -> DlModel {
        DlModel { reason: self.reason@, payload_ref: jv_model(self.payload_ref), ts: self.ts@ }
    }
}

/// JSON shape of a dead letter: a reference to the payload, never its bytes.
pub open spec fn spec_dl_json(m: DlModel) -> SpecJson {
    SpecJson::Obj(
        seq![
            ("reason"@, SpecJson::Str(m.reason)),
            ("payload_ref"@, m.payload_ref),
            ("ts"@, SpecJson::Str(m.ts)),
        ],
    )
}

/// Evaluates every member lookup the dead-letter decoder performs.
proof fn lemma_dl_fields(m: DlModel)
    ensures
        spec_obj_get(spec_dl_json(m), "reason"@) == Some(SpecJson::Str(m.reason)),
        spec_obj_get(spec_dl_json(m), "payload_ref"@) == Some(m.payload_ref),
        spec_obj_get(spec_dl_json(m), "ts"@) == Some(SpecJson::Str(m.ts)),
{
    reveal_strlit("reason");
    reveal_strlit("payload_ref");
    reveal_strlit("ts");
    assert("reason"@.len() == 6);
    assert("payload_ref"@.len() == 11);
    assert("ts"@.len() == 2);
    let m0 = ("reason"@, SpecJson::Str(m.reason));
    let m1 = ("payload_ref"@, m.payload_ref);
    let m2 = ("ts"@, SpecJson::Str(m.ts));
    let nil = Seq::<(Seq<char>, SpecJson)>::empty();
    let t1 = seq![m2] + nil;
    let t0 = seq![m1] + t1;
    let mm = seq![m0, m1, m2];
    assert(mm =~= seq![m0] + t0);
    assert(spec_dl_json(m)->Obj_0 == mm);
    lemma_lookup_hit(m0, t0, "reason"@);
    lemma_lookup_skip(m0, t0, "payload_ref"@);
    lemma_lookup_hit(m1, t1, "payload_ref"@);
    lemma_lookup_skip(m0, t0, "ts"@);
    lemma_lookup_skip(m1, t1, "ts"@);
    assert(t1 =~= seq![m2] + nil);
    lemma_lookup_hit(m2, nil, "ts"@);
}

impl DeadLetter {
    /// The JSON document this dead letter denotes.
    pub fn to_json(&self) -> (r: JsonValue)
        ensures
            r.deep_view() == spec_dl_json(self.deep_view()),
    {
        let ghost m = self.deep_view();
        let mut members: Vec<(String, JsonValue)> = Vec::new();
        members.push((String::from_str("reason"), JsonValue::Str(self.reason.clone())));
        members.push((String::from_str("payload_ref"), self.payload_ref.duplicate()));
        members.push((String::from_str("ts"), JsonValue::Str(self.ts.clone())));
        let r = JsonValue::Obj(members);
        proof {
            crate::json::lemma_jv_model_members(r->Obj_0@);
            assert(jv_model_members(r->Obj_0@) =~= spec_dl_json(m)->Obj_0);
        }
        r
    }

    /// Reads a dead letter out of a JSON document; complete over the
    /// dead-letter shape.
    pub fn from_json(v: &JsonValue) -> (r: Option<DeadLetter>)
        ensures
            forall|m: DlModel|
                v.deep_view() == spec_dl_json(m) ==> (r matches Some(d) && d.deep_view() == m),
    {
        let reason = match get_str_field(v, "reason") {
            Some(s) => s,
            None => {
                proof {
                    assert forall|m: DlModel| v.deep_view() == spec_dl_json(m) implies false by {
                        lemma_dl_fields(m);
                    }
                }
                return None;
            }
        };
        let payload_ref = match v.get("payload_ref") {
            Some(j) => j.duplicate(),
            None => {
                proof {
                    assert forall|m: DlModel| v.deep_view() == spec_dl_json(m) implies false by {
                        lemma_dl_fields(m);
                    }
                }
                return None;
            }
        };
        let ts = match get_str_field(v, "ts") {
            Some(s) => s,
            None => {
                proof {
                    assert forall|m: DlModel| v.deep_view() == spec_dl_json(m) implies false by {
                        lemma_dl_fields(m);
                    }
                }
                return None;
            }
        };
        let d = DeadLetter { reason, payload_ref, ts };
        proof {
            assert forall|m: DlModel| v.deep_view() == spec_dl_json(m) implies d.deep_view()
                == m by {
                lemma_dl_fields(m);
            }
        }
        Some(d)
    }
}

impl EventEnvelopeV1 {
    /// Wraps an assignment in a `v1` envelope of kind `exec_assign`.
    pub fn wrap_assignment(a: &ExecAssignment) -> (r: Self)
        ensures
            r.deep_view() == (EnvModel {
                version: "v1"@,
                kind: EnvelopeKind::ExecAssign,
                data: spec_asg_json(a.deep_view()),
            }),
    {
        EventEnvelopeV1 {
            version: String::from_str("v1"),
            kind: EnvelopeKind::ExecAssign,
            data: a.to_json(),
        }
    }

    /// Wraps a result in a `v1` envelope of kind `exec_result`.
    pub fn wrap_result(x: &ExecResult) -> (r: Self)
        requires
            res_wire_ok(x.deep_view()),
        ensures
            r.deep_view() == (EnvModel {
                version: "v1"@,
                kind: EnvelopeKind::ExecResult,
                data: spec_res_json(x.deep_view()),
            }),
    {
        EventEnvelopeV1 {
            version: String::from_str("v1"),
            kind: EnvelopeKind::ExecResult,
            data: x.to_json(),
        }
    }

    /// Wraps a heartbeat in a `v1` envelope of kind `heartbeat`.
    pub fn wrap_heartbeat(h: &WorkerHeartbeat) -> (r: Self)
        requires
            h.load_milli <= 1000,
        ensures
            r.deep_view() == (EnvModel {
                version: "v1"@,
                kind: EnvelopeKind::Heartbeat,
                data: spec_hb_json(h.deep_view()),
            }),
    {
        EventEnvelopeV1 {
            version: String::from_str("v1"),
            kind: EnvelopeKind::Heartbeat,
            data: h.to_json(),
        }
    }

    /// Wraps a dead letter in a `v1` envelope of kind `dead_letter`.
    pub fn wrap_deadletter(d: &DeadLetter) -> (r: Self)
        ensures
            r.deep_view() == (EnvModel {
                version: "v1"@,
                kind: EnvelopeKind::DeadLetter,
                data: spec_dl_json(d.deep_view()),
            }),
    {
        EventEnvelopeV1 {
            version: String::from_str("v1"),
            kind: EnvelopeKind::DeadLetter,
            data: d.to_json(),
        }
    }
}

} // verus!
