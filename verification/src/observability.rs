//! Structured logging: every entry carries a timestamp, a level, a
//! masked message, and the worker id, plus the caller's context members
//! with their string values masked. Writing the line out is the I/O
//! layer's concern.
use vstd::prelude::*;

use crate::json::JsonValue;
use crate::json::SpecJson;
use crate::json::jv_model;
use crate::pii::mask_pii;
use crate::pii::spec_mask_chars;
use vstd::string::StringExecFns;

verus! {

/// A logger bound to one worker.
pub struct Logger {
    pub worker_id: String,
}

/// Context members with every string value masked; other values pass
/// through.
pub open spec fn spec_masked_members(ms: Seq<(Seq<char>, SpecJson)>) -> Seq<(Seq<char>, SpecJson)>
    decreases ms,
{
    if ms.len() == 0 {
        Seq::empty()
    } else {
        let head = if ms[0].1 is Str {
            (ms[0].0, SpecJson::Str(spec_mask_chars(ms[0].1->Str_0)))
        } else {
            ms[0]
        };
        seq![head] + spec_masked_members(ms.drop_first())
    }
}

/// Masking members distributes over appending one member.
proof fn lemma_masked_members_snoc(ms: Seq<(Seq<char>, SpecJson)>, x: (Seq<char>, SpecJson))
    ensures
        spec_masked_members(ms + seq![x]) == spec_masked_members(ms) + seq![
            if x.1 is Str {
                (x.0, SpecJson::Str(spec_mask_chars(x.1->Str_0)))
            } else {
                x
            },
        ],
    decreases ms.len(),
{
    if ms.len() == 0 {
        assert(ms + seq![x] =~= seq![x]);
        assert((ms + seq![x]).drop_first() =~= Seq::<(Seq<char>, SpecJson)>::empty());
        assert((ms + seq![x])[0] == x);
        assert(spec_masked_members((ms + seq![x]).drop_first()) =~= Seq::<(
            Seq<char>,
            SpecJson,
        )>::empty());
        assert(spec_masked_members(ms) =~= Seq::<(Seq<char>, SpecJson)>::empty());
        assert(spec_masked_members(ms + seq![x]) =~= spec_masked_members(ms) + seq![
            if x.1 is Str {
                (x.0, SpecJson::Str(spec_mask_chars(x.1->Str_0)))
            } else {
                x
            },
        ]);
    } else {
        assert((ms + seq![x]).drop_first() =~= ms.drop_first() + seq![x]);
        assert((ms + seq![x])[0] == ms[0]);
        lemma_masked_members_snoc(ms.drop_first(), x);
        assert(spec_masked_members(ms + seq![x]) =~= spec_masked_members(ms) + seq![
            if x.1 is Str {
                (x.0, SpecJson::Str(spec_mask_chars(x.1->Str_0)))
            } else {
                x
            },
        ]);
    }
}

/// The shape of one log entry: the base members, and the masked context
/// members of an object context (a context of any other shape adds
/// nothing).
pub open spec fn spec_log_entry(
    worker_id: Seq<char>,
    level: Seq<char>,
    msg: Seq<char>,
    context: Option<SpecJson>,
    now: Seq<char>,
) -> SpecJson {
    SpecJson::Obj(
        seq![
            ("ts"@, SpecJson::Str(now)),
            ("level"@, SpecJson::Str(level)),
            ("msg"@, SpecJson::Str(spec_mask_chars(msg))),
            ("worker_id"@, SpecJson::Str(worker_id)),
        ] + (match context {
            Some(SpecJson::Obj(ms)) => spec_masked_members(ms),
            _ => Seq::empty(),
        }),
    )
}

impl Logger {
    /// A logger for the given worker.
    pub fn new(worker_id: String) -> (r: Self)
        ensures
            r.worker_id@ == worker_id@,
    {
        Logger { worker_id }
    }

    /// Builds one structured entry: timestamp, level, masked message,
    /// worker id, and the masked context members.
    #[verifier::loop_isolation(false)]
    pub fn build_entry(
        &self,
        level: &str,
        msg: &str,
        context: Option<&JsonValue>,
        now: &str,
    ) -> (r: JsonValue)
        ensures
            jv_model(r) == spec_log_entry(
                self.worker_id@,
                level@,
                msg@,
                match context {
                    Some(c) => Some(jv_model(*c)),
                    None => None,
                },
                now@,
            ),
    {
        let mut members: Vec<(String, JsonValue)> = Vec::new();
        members.push((String::from_str("ts"), JsonValue::Str(now.to_owned())));
        members.push((String::from_str("level"), JsonValue::Str(level.to_owned())));
        members.push((String::from_str("msg"), JsonValue::Str(mask_pii(msg))));
        members.push((String::from_str("worker_id"), JsonValue::Str(self.worker_id.clone())));
        let ghost base = seq![
            ("ts"@, SpecJson::Str(now@)),
            ("level"@, SpecJson::Str(level@)),
            ("msg"@, SpecJson::Str(spec_mask_chars(msg@))),
            ("worker_id"@, SpecJson::Str(self.worker_id@)),
        ];
        proof {
            crate::json::lemma_jv_model_members(members@);
            assert(crate::json::jv_model_members(members@) =~= base);
        }
        match context {
            Some(c) => {
                match c {
                    JsonValue::Obj(ctx_members) => {
                        let ghost model = crate::json::jv_model_members(ctx_members@);
                        proof {
                            crate::json::lemma_jv_model_members(ctx_members@);
                            assert(model.take(0) =~= Seq::<(Seq<char>, SpecJson)>::empty());
                            assert(spec_masked_members(model.take(0)) =~= Seq::<(
                                Seq<char>,
                                SpecJson,
                            )>::empty());
                            assert(crate::json::jv_model_members(members@) =~= base
                                + spec_masked_members(model.take(0)));
                        }
                        let mut k: usize = 0;
                        while k < ctx_members.len()
                            invariant
                                k <= ctx_members@.len(),
                                crate::json::jv_model_members(members@) == base
                                    + spec_masked_members(model.take(k as int)),
                            decreases ctx_members@.len() - k,
                        {
                            let ghost prev = members@;
                            let key = ctx_members[k].0.clone();
                            match &ctx_members[k].1 {
                                JsonValue::Str(sv) => {
                                    members.push((key, JsonValue::Str(mask_pii(sv.as_str()))));
                                }
                                other => {
                                    members.push((key, other.duplicate()));
                                }
                            }
                            proof {
                                crate::json::lemma_jv_model_members_snoc(
                                    prev,
                                    members@[members@.len() - 1],
                                );
                                assert(members@ =~= prev + seq![members@[members@.len() - 1]]);
                                lemma_masked_members_snoc(model.take(k as int), model[k as int]);
                                assert(model.take(k + 1 as int) =~= model.take(k as int) + seq![
                                    model[k as int],
                                ]);
                                assert(crate::json::jv_model_members(members@) =~= base
                                    + spec_masked_members(model.take(k + 1 as int)));
                            }
                            k = k + 1;
                        }
                        proof {
                            assert(model.take(ctx_members@.len() as int) =~= model);
                        }
                    }
                    _ => {
                        proof {
                            assert(crate::json::jv_model_members(members@) =~= base + Seq::<(
                                Seq<char>,
                                SpecJson,
                            )>::empty());
                        }
                    }
                }
            }
            None => {
                proof {
                    assert(crate::json::jv_model_members(members@) =~= base + Seq::<(
                        Seq<char>,
                        SpecJson,
                    )>::empty());
                }
            }
        }
        JsonValue::Obj(members)
    }
}

} // verus!
