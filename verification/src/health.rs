//! Health endpoint decisions: what each probe answers, given the worker's
//! readiness, draining flag, and load. The HTTP server around them only
//! routes and writes.
use vstd::prelude::*;

use crate::json::JsonValue;
use crate::json::SpecJson;
use crate::json::jv_model;
use crate::json::spec_encode;
use crate::pipeline::compute_load;
use vstd::string::StringExecFns;

verus! {

/// The readiness probe's answer: 200 `READY` only while serving and not
/// draining; 503 `DRAINING` while draining; 503 `NOT_READY` otherwise.
pub fn ready_response(ready: bool, draining: bool) -> (r: (u16, &'static str))
    ensures
        draining ==> r.0 == 503 && r.1@ == "DRAINING"@,
        (!draining && ready) ==> r.0 == 200 && r.1@ == "READY"@,
        (!draining && !ready) ==> r.0 == 503 && r.1@ == "NOT_READY"@,
{
    if draining {
        (503, "DRAINING")
    } else if ready {
        (200, "READY")
    } else {
        (503, "NOT_READY")
    }
}

/// The state probe's answer: a JSON body with the effective readiness,
/// the draining flag, and the load clamped to the unit interval; 200
/// exactly when ready and not draining.
pub fn state_response(ready: bool, draining: bool, in_use: usize, max: usize) -> (r: (
    u16,
    Vec<u8>,
))
    requires
        max <= 1000000,
        in_use <= max,
    ensures
        r.0 == (if ready && !draining {
            200u16
        } else {
            503u16
        }),
        r.1@ == spec_encode(
            SpecJson::Obj(
                seq![
                    ("ready"@, SpecJson::Bool(ready && !draining)),
                    ("draining"@, SpecJson::Bool(draining)),
                    (
                        "load"@,
                        SpecJson::Milli(
                            (if max > 0 {
                                in_use * 1000 / (max as int)
                            } else {
                                0int
                            }) as i64,
                        ),
                    ),
                ],
            ),
        ),
{
    let effective = ready && !draining;
    let load = compute_load(in_use, max);
    let mut members: Vec<(String, JsonValue)> = Vec::new();
    members.push((String::from_str("ready"), JsonValue::Bool(effective)));
    members.push((String::from_str("draining"), JsonValue::Bool(draining)));
    members.push((String::from_str("load"), JsonValue::Milli(load as i64)));
    let body = JsonValue::Obj(members);
    proof {
        crate::json::lemma_jv_model_members(body->Obj_0@);
        assert(crate::json::jv_model_members(body->Obj_0@) =~= SpecJson::Obj(
            seq![
                ("ready"@, SpecJson::Bool(ready && !draining)),
                ("draining"@, SpecJson::Bool(draining)),
                (
                    "load"@,
                    SpecJson::Milli(
                        (if max > 0 {
                            in_use * 1000 / (max as int)
                        } else {
                            0int
                        }) as i64,
                    ),
                ),
            ],
        )->Obj_0);
    }
    let code: u16 = if effective {
        200
    } else {
        503
    };
    (code, body.encode())
}

} // verus!
