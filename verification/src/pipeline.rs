//! The assignment pipeline's decision core: inbound decoding policy,
//! duplicate admission, the publish-with-retry machine, backoff, timeout
//! synthesis, concurrency permits, heartbeat computation, and the shutdown
//! phases. The surrounding I/O loop performs what these functions decide.
use vstd::prelude::*;

use crate::dedup::Dedup;
use crate::error::classify_publish_error;
use crate::error::spec_transient_text;
use crate::json::JsonValue;
use crate::json::SpecJson;
use crate::json::jv_model;
use crate::json::spec_as_u64;
use crate::json::spec_obj_get;
use crate::json_parse::parse_json;
use crate::protocol::AsgModel;
use crate::protocol::EnvModel;
use crate::protocol::EnvelopeKind;
use crate::protocol::EventEnvelopeV1;
use crate::protocol::ExecAssignment;
use crate::protocol::ExecResult;
use crate::protocol::ExecStatus;
use crate::protocol::DeadLetter;
use crate::protocol::WorkerHeartbeat;
use crate::protocol::lemma_asg_json_has_no_kind;
use crate::protocol::opt_view;
use crate::protocol::spec_asg_json;
use crate::json::spec_encode;
use crate::protocol::spec_env_json;
use vstd::string::StringExecFns;
use vstd::string::StringSliceAdditionalSpecFns;

verus! {

/// Capped exponential backoff: 500 ms doubled per attempt, capped at 30 s.
pub open spec fn spec_backoff(attempt: u32) -> u64 {
    if attempt == 0 {
        500
    } else if attempt == 1 {
        1000
    } else if attempt == 2 {
        2000
    } else if attempt == 3 {
        4000
    } else if attempt == 4 {
        8000
    } else if attempt == 5 {
        16000
    } else {
        30000
    }
}

/// The delay before the next connect or publish attempt.
pub fn backoff_ms(attempt: u32) -> (r: u64)
    ensures
        r == spec_backoff(attempt),
        r <= 30000,
{
    if attempt >= 6 {
        30000
    } else {
        let mut d: u64 = 500;
        let mut k: u32 = 0;
        while k < attempt
            invariant
                k <= attempt,
                attempt <= 5,
                d == spec_backoff(k),
            decreases attempt - k,
        {
            d = d * 2;
            k = k + 1;
        }
        d
    }
}

/// What the pipeline decided about one inbound message.
pub enum InboundDecision {
    /// A well-formed assignment to execute.
    Accept(ExecAssignment),
    /// An envelope of a kind that does not belong on the assign subject;
    /// logged and dropped.
    Discard(EnvelopeKind),
    /// An unparseable or undecodable payload, to be dead-lettered.
    Dead(DeadLetterSeed),
}

/// The beginnings of a dead letter: its reason and payload reference; the
/// caller adds the timestamp.
pub struct DeadLetterSeed {
    pub reason: String,
    pub payload_ref: JsonValue,
}

/// The payload reference recorded for a malformed message: the subject it
/// arrived on and its length, never its bytes.
pub open spec fn spec_malformed_ref(subject: Seq<char>, len: int) -> SpecJson {
    SpecJson::Obj(
        seq![
            ("subject"@, SpecJson::Str(subject)),
            ("len"@, SpecJson::I64(len as i64)),
        ],
    )
}

/// Builds the payload reference for a malformed message.
fn malformed_ref(subject: &str, len: usize) -> (r: JsonValue)
    requires
        len <= i64::MAX,
    ensures
        jv_model(r) == spec_malformed_ref(subject@, len as int),
{
    let mut members: Vec<(String, JsonValue)> = Vec::new();
    members.push((String::from_str("subject"), JsonValue::Str(subject.to_owned())));
    members.push((String::from_str("len"), JsonValue::I64(len as i64)));
    let r = JsonValue::Obj(members);
    proof {
        crate::json::lemma_jv_model_members(r->Obj_0@);
        assert(crate::json::jv_model_members(r->Obj_0@) =~= spec_malformed_ref(
            subject@,
            len as int,
        )->Obj_0);
    }
    r
}

/// Decodes one inbound payload from the assign subject.
///
/// An envelope of kind `exec_assign` whose data decodes is accepted; an
/// envelope of any other kind is discarded; an `exec_assign` envelope with
/// undecodable data is dead-lettered as `DECODE_ERROR`. A payload that is
/// not an envelope is tried as a bare assignment; if that fails too, it is
/// dead-lettered as `PARSE_ERROR`. Acceptance is complete: every encoded
/// assignment, wrapped or bare, is accepted with its exact contents.
#[verifier::rlimit(30)]
pub fn decode_inbound(payload: &[u8], subject: &str) -> (r: InboundDecision)
    requires
        payload@.len() <= i64::MAX,
    ensures
        forall|em: EnvModel, am: AsgModel|
            (crate::json_parse::wf_json(spec_env_json(em)) && payload@ == spec_encode(
                spec_env_json(em),
            ) && em.kind == EnvelopeKind::ExecAssign && em.data == spec_asg_json(am)) ==> (
            r matches InboundDecision::Accept(a) && a.deep_view() == am),
        forall|em: EnvModel|
            (crate::json_parse::wf_json(spec_env_json(em)) && payload@ == spec_encode(
                spec_env_json(em),
            ) && em.kind != EnvelopeKind::ExecAssign) ==> r == InboundDecision::Discard(em.kind),
        forall|am: AsgModel|
            crate::json_parse::wf_json(spec_asg_json(am)) && payload@ == spec_encode(
                spec_asg_json(am),
            ) ==> (r matches InboundDecision::Accept(a) && a.deep_view() == am),
        r matches InboundDecision::Dead(seed) ==> (seed.reason@ == "PARSE_ERROR"@ || seed.reason@
            == "DECODE_ERROR"@) && jv_model(seed.payload_ref) == spec_malformed_ref(
            subject@,
            payload@.len() as int,
        ),
        crate::json_parse::spec_plainly_malformed(payload@) ==> (
        r matches InboundDecision::Dead(seed2) && seed2.reason@ == "PARSE_ERROR"@),
{
    let parsed = parse_json(payload);
    match parsed {
        None => {
            InboundDecision::Dead(
                DeadLetterSeed {
                    reason: String::from_str("PARSE_ERROR"),
                    payload_ref: malformed_ref(subject, payload.len()),
                },
            )
        }
        Some(v) => {
            proof {
                assert(!crate::json_parse::spec_plainly_malformed(payload@));
            }
            match EventEnvelopeV1::from_json(&v) {
                Some(env) => {
                    match env.kind {
                        EnvelopeKind::ExecAssign => {
                            proof {
                                assert forall|am: AsgModel|
                                    crate::json_parse::wf_json(spec_asg_json(am)) && payload@
                                        == spec_encode(spec_asg_json(am)) implies false by {
                                    lemma_asg_json_has_no_kind(am);
                                }
                            }
                            match ExecAssignment::from_json(&env.data) {
                                Some(a) => InboundDecision::Accept(a),
                                None => InboundDecision::Dead(
                                    DeadLetterSeed {
                                        reason: String::from_str("DECODE_ERROR"),
                                        payload_ref: malformed_ref(subject, payload.len()),
                                    },
                                ),
                            }
                        }
                        _ => {
                            proof {
                                assert forall|am: AsgModel|
                                    crate::json_parse::wf_json(spec_asg_json(am)) && payload@
                                        == spec_encode(spec_asg_json(am)) implies false by {
                                    lemma_asg_json_has_no_kind(am);
                                }
                            }
                            InboundDecision::Discard(env.kind)
                        }
                    }
                }
                None => {
                    match ExecAssignment::from_json(&v) {
                        Some(a) => InboundDecision::Accept(a),
                        None => InboundDecision::Dead(
                            DeadLetterSeed {
                                reason: String::from_str("PARSE_ERROR"),
                                payload_ref: malformed_ref(subject, payload.len()),
                            },
                        ),
                    }
                }
            }
        }
    }
}

/// Claims an assignment id in the window: a fresh id is recorded and
/// accepted, a duplicate is refused with the window unchanged.
pub fn claim_id(window: &mut Dedup, id: &str) -> (r: bool)
    requires
        old(window).wf(),
    ensures
        final(window).wf(),
        final(window).spec_capacity() == old(window).spec_capacity(),
        r == !old(window)@.contains(id@),
        !r ==> final(window)@ == old(window)@,
        (r && old(window).spec_capacity() > 0) ==> final(window)@.contains(id@),
{
    if window.contains(id) {
        false
    } else {
        let ghost prev = window@;
        window.insert(id.to_owned());
        proof {
            if old(window).spec_capacity() > 0 {
                if prev.len() < old(window).spec_capacity() {
                    assert(window@[window@.len() - 1] == id@);
                } else {
                    assert(window@[window@.len() - 1] == id@);
                }
            }
        }
        true
    }
}

/// Two deliveries of one assignment id while the first is still in the
/// window: only the first is admitted; the second changes nothing.
pub proof fn lemma_duplicate_suppressed(w: Seq<Seq<char>>, id: Seq<char>)
    ensures
        w.contains(id) ==> !spec_first_delivery(w, id),
        spec_first_delivery(w, id) ==> spec_first_delivery((w + seq![id]), id) == false,
{
    assert((w + seq![id]).contains(id)) by {
        assert((w + seq![id])[w.len() as int] == id);
    }
}

/// Whether a delivery with this id is the first within this window.
pub open spec fn spec_first_delivery(w: Seq<Seq<char>>, id: Seq<char>) -> bool {
    !w.contains(id)
}

/// One outcome of a publish attempt, as the retry machine sees it.
pub enum PubEvent {
    /// The publish went through.
    Delivered,
    /// The publish failed; the flag tells whether the error was transient.
    Failed(bool),
}

/// The phase of the publish-with-retry machine for one result.
pub enum PubPhase {
    /// Attempt `attempt` is about to be made.
    Publishing(u32),
    /// The result went out; the task is finished.
    DonePublished,
    /// Retries were exhausted or the error was permanent; one dead letter
    /// went out; the task is finished.
    DoneDeadLettered,
}

/// One step of the publish machine: how the phase advances on an event,
/// and how many messages (result or dead letter) leave the worker.
pub open spec fn spec_pub_step(ph: PubPhase, ev: PubEvent, max_retries: u32) -> (PubPhase, nat) {
    match ph {
        PubPhase::Publishing(attempt) => match ev {
            PubEvent::Delivered => (PubPhase::DonePublished, 1),
            PubEvent::Failed(transient) => if transient && attempt < max_retries {
                (PubPhase::Publishing((attempt + 1) as u32), 0)
            } else {
                (PubPhase::DoneDeadLettered, 1)
            },
        },
        _ => (ph, 0),
    }
}

/// Runs the publish machine over a sequence of events, counting emissions.
pub open spec fn spec_pub_run(ph: PubPhase, evs: Seq<PubEvent>, max_retries: u32) -> (
    PubPhase,
    nat,
)
    decreases evs.len(),
{
    if evs.len() == 0 {
        (ph, 0)
    } else {
        let (ph2, n) = spec_pub_step(ph, evs[0], max_retries);
        let (ph3, rest) = spec_pub_run(ph2, evs.drop_first(), max_retries);
        (ph3, n + rest)
    }
}

/// For every accepted assignment the publish machine emits exactly one
/// message: a run that reaches a terminal phase has emitted exactly one
/// result or dead letter, never both and never neither; in particular an
/// exhausted retry sequence emits exactly one dead letter.
pub proof fn lemma_publish_exactly_once(attempt: u32, evs: Seq<PubEvent>, max_retries: u32)
    requires
        !(spec_pub_run(PubPhase::Publishing(attempt), evs, max_retries).0 is Publishing),
    ensures
        spec_pub_run(PubPhase::Publishing(attempt), evs, max_retries).1 == 1,
    decreases evs.len(),
{
    let ph = PubPhase::Publishing(attempt);
    let (ph2, n) = spec_pub_step(ph, evs[0], max_retries);
    if ph2 is Publishing {
        lemma_publish_exactly_once(ph2->Publishing_0, evs.drop_first(), max_retries);
    } else {
        lemma_pub_run_terminal(ph2, evs.drop_first(), max_retries);
    }
}

/// A terminal phase stays terminal and emits nothing more.
pub proof fn lemma_pub_run_terminal(ph: PubPhase, evs: Seq<PubEvent>, max_retries: u32)
    requires
        !(ph is Publishing),
    ensures
        spec_pub_run(ph, evs, max_retries) == (ph, 0nat),
    decreases evs.len(),
{
    if evs.len() > 0 {
        lemma_pub_run_terminal(ph, evs.drop_first(), max_retries);
    }
}

/// What the task does after a failed publish attempt.
pub enum PublishStep {
    /// Sleep this many milliseconds, bump the attempt counter, and retry.
    RetryAfter(u64),
    /// Stop: record one dead letter with reason `PUBLISH_ERROR` and
    /// publish it on the dead-letter subject.
    GiveUp,
}

/// Decides the response to a failed publish: retry with capped backoff
/// while the error is transient and attempts remain, give up otherwise.
/// This is the executable face of `spec_pub_step` on a failure event.
pub fn publish_retry_decision(err_text: &str, attempt: u32, max_retries: u32) -> (r: PublishStep)
    ensures
        ({
            let transient = spec_transient_text(err_text.spec_bytes());
            &&& (transient && attempt < max_retries) <==> (r matches PublishStep::RetryAfter(d)
                && d == spec_backoff((attempt + 1) as u32))
            &&& !(transient && attempt < max_retries) <==> r == PublishStep::GiveUp
            &&& spec_pub_step(
                PubPhase::Publishing(attempt),
                PubEvent::Failed(transient),
                max_retries,
            ).0 == if r is RetryAfter {
                PubPhase::Publishing((attempt + 1) as u32)
            } else {
                PubPhase::DoneDeadLettered
            }
        }),
{
    let we = classify_publish_error(err_text);
    if we.is_transient() && attempt < max_retries {
        PublishStep::RetryAfter(backoff_ms(attempt + 1))
    } else {
        PublishStep::GiveUp
    }
}

/// The dead letter recorded when publishing a result finally fails: the
/// reason is `PUBLISH_ERROR` and the payload reference names the
/// assignment and trace, never the result body.
pub fn publish_failure_deadletter(x: &ExecResult, ts: String) -> (r: DeadLetter)
    ensures
        r.reason@ == "PUBLISH_ERROR"@,
        r.ts@ == ts@,
        jv_model(r.payload_ref) == SpecJson::Obj(
            seq![
                ("assignment_id"@, SpecJson::Str(x.assignment_id@)),
                (
                    "trace_id"@,
                    match opt_view(x.trace_id) {
                        Some(cs) => SpecJson::Str(cs),
                        None => SpecJson::Null,
                    },
                ),
            ],
        ),
{
    let mut members: Vec<(String, JsonValue)> = Vec::new();
    members.push((String::from_str("assignment_id"), JsonValue::Str(x.assignment_id.clone())));
    let tr = match &x.trace_id {
        Some(t) => JsonValue::Str(t.clone()),
        None => JsonValue::Null,
    };
    members.push((String::from_str("trace_id"), tr));
    let payload_ref = JsonValue::Obj(members);
    proof {
        crate::json::lemma_jv_model_members(payload_ref->Obj_0@);
        assert(crate::json::jv_model_members(payload_ref->Obj_0@) =~= SpecJson::Obj(
            seq![
                ("assignment_id"@, SpecJson::Str(x.assignment_id@)),
                (
                    "trace_id"@,
                    match opt_view(x.trace_id) {
                        Some(cs) => SpecJson::Str(cs),
                        None => SpecJson::Null,
                    },
                ),
            ],
        )->Obj_0);
    }
    DeadLetter { reason: String::from_str("PUBLISH_ERROR"), payload_ref, ts }
}

/// The per-assignment timeout: `timeout_ms` from the job payload when it
/// is a positive integer, the configured default otherwise.
pub fn effective_timeout(a: &ExecAssignment, default_ms: u64) -> (r: u64)
    ensures
        r == (match spec_obj_get(jv_model(a.job.payload), "timeout_ms"@) {
            Some(j) => match spec_as_u64(j) {
                Some(n) => if n > 0 {
                    n
                } else {
                    default_ms
                },
                None => default_ms,
            },
            None => default_ms,
        }),
{
    match a.job.payload.get("timeout_ms") {
        Some(j) => match j.as_u64() {
            Some(n) => if n > 0 {
                n
            } else {
                default_ms
            },
            None => default_ms,
        },
        None => default_ms,
    }
}

/// The synthetic result recorded when a task's deadline expires: status
/// `timeout`, error code `TIMEOUT`, and the configured timeout reported
/// as the latency.
pub fn timeout_result(a: &ExecAssignment, provider_id: &str, timeout_ms: u64) -> (r: ExecResult)
    ensures
        r.status == ExecStatus::Timeout,
        r.latency_ms == timeout_ms,
        r.error_code matches Some(c) && c@ == "TIMEOUT"@,
        r.error_message matches Some(msg) && msg@ == "Task timed out"@,
        r.assignment_id@ == a.assignment_id@,
        r.request_id@ == a.request_id@,
        r.provider_id@ == provider_id@,
        r.job_type@ == a.job.job_type@,
        r.output is None,
        r.cost == 0,
        r.version@ == "1.0"@,
        opt_view(r.trace_id) == opt_view(a.trace_id),
        r.tenant_id matches Some(t) && t@ == a.tenant_id@,
        opt_view(r.run_id) == opt_view(a.run_id),
{
    ExecResult {
        version: String::from_str("1.0"),
        assignment_id: a.assignment_id.clone(),
        request_id: a.request_id.clone(),
        status: ExecStatus::Timeout,
        provider_id: provider_id.to_owned(),
        job_type: a.job.job_type.clone(),
        output: None,
        latency_ms: timeout_ms,
        cost: 0,
        trace_id: clone_opt(&a.trace_id),
        tenant_id: Some(a.tenant_id.clone()),
        run_id: clone_opt(&a.run_id),
        error_code: Some(String::from_str("TIMEOUT")),
        error_message: Some(String::from_str("Task timed out")),
    }
}

/// A copy of an optional string with the same contents.
pub fn clone_opt(v: &Option<String>) -> (r: Option<String>)
    ensures
        opt_view(r) == opt_view(*v),
{
    match v {
        Some(s) => Some(s.clone()),
        None => None,
    }
}

/// The concurrency permits of one worker: at most `max` tasks hold a
/// permit at once.
pub struct PermitCounter {
    pub in_use: usize,
    pub max: usize,
}

impl PermitCounter {
    /// No more permits are out than the bound allows.
    pub open spec fn wf(&self) -> bool {
        self.in_use <= self.max
    }

    /// A fresh counter with every permit available.
    pub fn new(max: usize) -> (r: Self)
        ensures
            r.wf(),
            r.in_use == 0,
            r.max == max,
    {
        PermitCounter { in_use: 0, max }
    }

    /// Takes a permit if one is free: backpressure begins exactly when
    /// every permit is in use.
    pub fn try_acquire(&mut self) -> (r: bool)
        requires
            old(self).wf(),
        ensures
            final(self).wf(),
            final(self).max == old(self).max,
            r == (old(self).in_use < old(self).max),
            r ==> final(self).in_use == old(self).in_use + 1,
            !r ==> final(self).in_use == old(self).in_use,
    {
        if self.in_use < self.max {
            self.in_use = self.in_use + 1;
            true
        } else {
            false
        }
    }

    /// Returns a permit.
    pub fn release(&mut self)
        requires
            old(self).wf(),
            old(self).in_use > 0,
        ensures
            final(self).wf(),
            final(self).max == old(self).max,
            final(self).in_use == old(self).in_use - 1,
    {
        self.in_use = self.in_use - 1;
    }
}

/// With a concurrency bound of one, execution is sequential: no state of
/// the counter ever has two permits out, and a second acquire is refused
/// immediately while one task runs.
pub proof fn lemma_single_permit_sequential(c: PermitCounter)
    requires
        c.wf(),
        c.max == 1,
    ensures
        c.in_use <= 1,
        c.in_use == 1 ==> !(c.in_use < c.max),
{
}

/// The lifecycle phase of the worker.
#[derive(PartialEq, Eq, Structural, Clone, Copy, Debug)]
pub enum WorkerPhase {
    Starting,
    Ready,
    Draining,
    Stopped,
}

/// The heartbeat status word for a phase and load: `busy` or `idle` while
/// serving, `draining` and `stopped` only during shutdown.
pub fn phase_status(phase: WorkerPhase, in_use: usize) -> (r: &'static str)
    ensures
        phase == WorkerPhase::Draining ==> r@ == "draining"@,
        phase == WorkerPhase::Stopped ==> r@ == "stopped"@,
        (phase == WorkerPhase::Ready || phase == WorkerPhase::Starting) ==> r@ == (if in_use > 0 {
            "busy"@
        } else {
            "idle"@
        }),
{
    match phase {
        WorkerPhase::Draining => "draining",
        WorkerPhase::Stopped => "stopped",
        _ => if in_use > 0 {
            "busy"
        } else {
            "idle"
        },
    }
}

/// The load fraction in thousandths: permits in use over the bound,
/// clamped to the unit interval.
pub fn compute_load(in_use: usize, max: usize) -> (r: u64)
    requires
        max <= 1000000,
        in_use <= max,
    ensures
        max > 0 ==> r == in_use * 1000 / (max as int),
        max == 0 ==> r == 0,
        r <= 1000,
{
    if max == 0 {
        0
    } else {
        let l = (in_use as u64) * 1000 / (max as u64);
        proof {
            assert(in_use * 1000 / (max as int) <= 1000) by (nonlinear_arith)
                requires
                    0 < max <= 1000000,
                    in_use <= max,
            ;
        }
        l
    }
}

/// Builds the heartbeat for one tick: status from the phase and load,
/// load from the permit occupancy.
pub fn make_heartbeat(
    worker_id: &str,
    timestamp: String,
    phase: WorkerPhase,
    in_use: usize,
    max: usize,
) -> (r: WorkerHeartbeat)
    requires
        max <= 1000000,
        in_use <= max,
    ensures
        r.worker_id@ == worker_id@,
        r.timestamp@ == timestamp@,
        r.load_milli <= 1000,
        max > 0 ==> r.load_milli == in_use * 1000 / (max as int),
        phase == WorkerPhase::Draining ==> r.status@ == "draining"@,
        phase == WorkerPhase::Stopped ==> r.status@ == "stopped"@,
        (phase == WorkerPhase::Ready || phase == WorkerPhase::Starting) ==> r.status@ == (
        if in_use > 0 {
            "busy"@
        } else {
            "idle"@
        }),
{
    WorkerHeartbeat {
        worker_id: worker_id.to_owned(),
        timestamp,
        status: String::from_str(phase_status(phase, in_use)),
        load_milli: compute_load(in_use, max),
    }
}

} // verus!
