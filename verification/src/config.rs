//! Worker configuration: resolution of raw settings to validated values.
//!
//! The raw settings arrive as optional strings (one per environment key);
//! `Config::build` applies defaults, parses numbers, checks ranges and
//! subject grammar, and either returns a fully validated configuration or
//! refuses the input.
use vstd::prelude::*;

use crate::json_parse::digits_val;
use crate::json_parse::is_digit;
use crate::json_parse::scan_digits;
use crate::protocol::opt_view;
use vstd::string::StringSliceAdditionalSpecFns;

verus! {

/// A byte allowed in a bus subject: ASCII alphanumerics, dot, underscore,
/// or hyphen.
pub open spec fn subject_byte_ok(b: u8) -> bool {
    (0x41 <= b <= 0x5a) || (0x61 <= b <= 0x7a) || (0x30 <= b <= 0x39) || b == 0x2e || b == 0x5f
        || b == 0x2d
}

/// A valid bus subject: nonempty, only allowed bytes, no leading or
/// trailing dot, and no two dots in a row.
pub open spec fn spec_valid_subject(bs: Seq<u8>) -> bool {
    &&& bs.len() > 0
    &&& forall|i: int| 0 <= i < bs.len() ==> subject_byte_ok(#[trigger] bs[i])
    &&& bs[0] != 0x2e
    &&& bs[bs.len() - 1] != 0x2e
    &&& forall|i: int| 0 <= i < bs.len() - 1 ==> !(#[trigger] bs[i] == 0x2e && bs[i + 1] == 0x2e)
}

/// Whether `s` is a valid bus subject.
pub fn is_valid_subject(s: &str) -> (r: bool)
    ensures
        r == spec_valid_subject(s.spec_bytes()),
{
    let b = s.as_bytes();
    if b.len() == 0 {
        return false;
    }
    let mut k: usize = 0;
    while k < b.len()
        invariant
            k <= b@.len(),
            b@ == s.spec_bytes(),
            forall|i: int| 0 <= i < k ==> subject_byte_ok(#[trigger] b@[i]),
            forall|i: int| 0 <= i < k - 1 ==> !(#[trigger] b@[i] == 0x2e && b@[i + 1] == 0x2e),
        decreases b@.len() - k,
    {
        let c = b[k];
        let ok = (0x41 <= c && c <= 0x5a) || (0x61 <= c && c <= 0x7a) || (0x30 <= c && c <= 0x39)
            || c == 0x2e || c == 0x5f || c == 0x2d;
        if !ok {
            proof {
                assert(!subject_byte_ok(b@[k as int]));
            }
            return false;
        }
        if k > 0 && c == 0x2e && b[k - 1] == 0x2e {
            proof {
                assert(b@[k - 1] == 0x2e && b@[(k - 1) + 1] == 0x2e);
            }
            return false;
        }
        k = k + 1;
    }
    if b[0] == 0x2e {
        return false;
    }
    if b[b.len() - 1] == 0x2e {
        return false;
    }
    true
}

/// The number a decimal string denotes, when it is one and it fits.
pub open spec fn spec_parse_u64(bs: Seq<u8>) -> Option<u64> {
    if bs.len() >= 1 && (forall|i: int| 0 <= i < bs.len() ==> is_digit(#[trigger] bs[i]))
        && digits_val(bs) <= u64::MAX {
        Some(digits_val(bs) as u64)
    } else {
        None
    }
}

/// Parses a decimal string.
pub fn parse_u64(s: &str) -> (r: Option<u64>)
    ensures
        r == spec_parse_u64(s.spec_bytes()),
{
    let b = s.as_bytes();
    if b.len() == 0 {
        return None;
    }
    let (j, ok, acc) = scan_digits(b, 0);
    if j == b.len() && ok {
        proof {
            assert(b@.subrange(0, j as int) =~= b@);
        }
        Some(acc)
    } else {
        proof {
            if j < b@.len() {
                assert(!is_digit(b@[j as int]));
            } else {
                assert(b@.subrange(0, j as int) =~= b@);
            }
        }
        None
    }
}

/// A string that is not blank: some byte is not ASCII whitespace.
pub open spec fn spec_nonblank(bs: Seq<u8>) -> bool {
    exists|i: int| 0 <= i < bs.len() && !is_cfg_ws(#[trigger] bs[i])
}

/// ASCII whitespace, as trimmed from configuration values.
pub open spec fn is_cfg_ws(b: u8) -> bool {
    b == 0x20 || b == 0x09 || b == 0x0a || b == 0x0d
}

/// Whether `s` has any non-whitespace content.
pub fn is_nonblank(s: &str) -> (r: bool)
    ensures
        r == spec_nonblank(s.spec_bytes()),
{
    let b = s.as_bytes();
    let mut k: usize = 0;
    while k < b.len()
        invariant
            k <= b@.len(),
            b@ == s.spec_bytes(),
            forall|i: int| 0 <= i < k ==> is_cfg_ws(#[trigger] b@[i]),
        decreases b@.len() - k,
    {
        let c = b[k];
        if !(c == 0x20 || c == 0x09 || c == 0x0a || c == 0x0d) {
            proof {
                assert(!is_cfg_ws(b@[k as int]));
            }
            return true;
        }
        k = k + 1;
    }
    proof {
        if spec_nonblank(b@) {
            let w = choose|w: int| 0 <= w < b@.len() && !is_cfg_ws(b@[w]);
            assert(is_cfg_ws(b@[w]));
        }
    }
    false
}

/// The raw settings a worker starts from, one per environment key; a
/// missing key is `None`.
pub struct ConfigEnv {
    pub nats_url: Option<String>,
    pub caf_assign_subject: Option<String>,
    pub caf_result_subject: Option<String>,
    pub caf_heartbeat_subject: Option<String>,
    pub caf_heartbeat_interval_ms: Option<String>,
    pub worker_id: Option<String>,
    pub health_bind: Option<String>,
    pub worker_max_concurrency: Option<String>,
    pub default_job_timeout_ms: Option<String>,
    pub caf_dlq_subject: Option<String>,
    pub result_publish_max_retries: Option<String>,
    pub dlq_path: Option<String>,
    pub dlq_max_bytes: Option<String>,
    pub dlq_max_rotations: Option<String>,
    pub dlq_total_max_bytes: Option<String>,
    pub dlq_max_age_days: Option<String>,
    pub fs_base_dir: Option<String>,
}

/// The validated worker configuration.
pub struct Config {
    pub nats_url: String,
    pub caf_assign_subject: String,
    pub caf_result_subject: String,
    pub caf_heartbeat_subject: String,
    pub caf_heartbeat_interval_ms: u64,
    pub worker_id: String,
    pub health_bind: String,
    pub max_concurrency: usize,
    pub default_job_timeout_ms: u64,
    pub caf_dlq_subject: String,
    pub result_publish_max_retries: u32,
    pub dlq_path: String,
    pub dlq_max_bytes: u64,
    pub dlq_max_rotations: u32,
    pub dlq_total_max_bytes: u64,
    pub dlq_max_age_days: Option<u32>,
    pub fs_base_dir: String,
}

/// A setting, or its default when absent.
pub open spec fn resolve_str(v: Option<String>, default: Seq<char>) -> Seq<char> {
    match v {
        Some(s) => s@,
        None => default,
    }
}

/// A numeric setting, or its default when absent; `None` when the text is
/// not a number.
pub open spec fn resolve_num(v: Option<String>, default: u64) -> Option<u64> {
    match v {
        Some(s) => spec_parse_u64(vstd::utf8::encode_utf8(s@)),
        None => Some(default),
    }
}

/// The bytes of a resolved string setting.
pub open spec fn resolve_bytes(v: Option<String>, default: Seq<char>) -> Seq<u8> {
    vstd::utf8::encode_utf8(resolve_str(v, default))
}

/// A numeric setting is acceptable when it parses and lies in range.
pub open spec fn num_in_range(v: Option<String>, default: u64, lo: u64, hi: u64) -> bool {
    match resolve_num(v, default) {
        Some(n) => lo <= n <= hi,
        None => false,
    }
}

/// Every condition a raw configuration must meet.
pub open spec fn spec_config_ok(e: ConfigEnv, generated_id: Seq<char>) -> bool {
    &&& spec_nonblank(resolve_bytes(e.nats_url, "nats://localhost:4222"@))
    &&& num_in_range(e.caf_heartbeat_interval_ms, 5000, 100, 600000)
    &&& spec_nonblank(
        vstd::utf8::encode_utf8(
            match e.worker_id {
                Some(s) => s@,
                None => generated_id,
            },
        ),
    )
    &&& spec_valid_subject(resolve_bytes(e.caf_assign_subject, "caf.exec.assign.v1"@))
    &&& spec_valid_subject(resolve_bytes(e.caf_result_subject, "caf.exec.result.v1"@))
    &&& spec_valid_subject(resolve_bytes(e.caf_heartbeat_subject, "caf.status.heartbeat.v1"@))
    &&& num_in_range(e.worker_max_concurrency, 8, 1, 256)
    &&& num_in_range(e.default_job_timeout_ms, 60000, 100, 3600000)
    &&& spec_valid_subject(resolve_bytes(e.caf_dlq_subject, "caf.deadletter.v1"@))
    &&& spec_nonblank(resolve_bytes(e.dlq_path, "/tmp/worker-dlq.jsonl"@))
    &&& num_in_range(e.result_publish_max_retries, 5, 0, 20)
    &&& num_in_range(e.dlq_max_bytes, 104857600, 1000000, 10000000000)
    &&& num_in_range(e.dlq_max_rotations, 5, 1, 100)
    &&& num_in_range(e.dlq_total_max_bytes, 1073741824, 1000000, 100000000000)
    &&& ({
        let total = resolve_num(e.dlq_total_max_bytes, 1073741824);
        let per = resolve_num(e.dlq_max_bytes, 104857600);
        total matches Some(t) && per matches Some(p) && t >= p
    })
    &&& match e.dlq_max_age_days {
        Some(s) => match spec_parse_u64(vstd::utf8::encode_utf8(s@)) {
            Some(n) => 1 <= n <= 36500,
            None => false,
        },
        None => true,
    }
}

/// Resolves one optional string setting.
fn take_or_default(v: Option<String>, default: &str) -> (r: String)
    ensures
        r@ == resolve_str(v, default@),
{
    match v {
        Some(s) => s,
        None => default.to_owned(),
    }
}

/// Resolves one optional numeric setting.
fn take_num(v: &Option<String>, default: u64) -> (r: Option<u64>)
    ensures
        r == resolve_num(*v, default),
{
    match v {
        Some(s) => parse_u64(s.as_str()),
        None => Some(default),
    }
}

impl Config {
    /// Builds a validated configuration from raw settings, using
    /// `generated_id` as the worker id when none was given. Succeeds
    /// exactly when every setting resolves and passes validation, and
    /// the resulting fields are the resolved values.
    #[verifier::rlimit(50)]
    pub fn build(e: ConfigEnv, generated_id: String) -> (r: Result<Config, String>)
        ensures
            r is Ok <==> spec_config_ok(e, generated_id@),
            r matches Ok(c) ==> {
                &&& c.nats_url@ == resolve_str(e.nats_url, "nats://localhost:4222"@)
                &&& c.caf_assign_subject@ == resolve_str(e.caf_assign_subject, "caf.exec.assign.v1"@)
                &&& c.caf_result_subject@ == resolve_str(e.caf_result_subject, "caf.exec.result.v1"@)
                &&& c.caf_heartbeat_subject@ == resolve_str(
                    e.caf_heartbeat_subject,
                    "caf.status.heartbeat.v1"@,
                )
                &&& Some(c.caf_heartbeat_interval_ms) == resolve_num(e.caf_heartbeat_interval_ms, 5000)
                &&& c.worker_id@ == match e.worker_id {
                    Some(s) => s@,
                    None => generated_id@,
                }
                &&& c.health_bind@ == resolve_str(e.health_bind, "0.0.0.0:9091"@)
                &&& Some(c.max_concurrency as u64) == resolve_num(e.worker_max_concurrency, 8)
                &&& Some(c.default_job_timeout_ms) == resolve_num(e.default_job_timeout_ms, 60000)
                &&& c.caf_dlq_subject@ == resolve_str(e.caf_dlq_subject, "caf.deadletter.v1"@)
                &&& Some(c.result_publish_max_retries as u64) == resolve_num(
                    e.result_publish_max_retries,
                    5,
                )
                &&& c.dlq_path@ == resolve_str(e.dlq_path, "/tmp/worker-dlq.jsonl"@)
                &&& Some(c.dlq_max_bytes) == resolve_num(e.dlq_max_bytes, 104857600)
                &&& Some(c.dlq_max_rotations as u64) == resolve_num(e.dlq_max_rotations, 5)
                &&& Some(c.dlq_total_max_bytes) == resolve_num(e.dlq_total_max_bytes, 1073741824)
                &&& match e.dlq_max_age_days {
                    Some(s) => match spec_parse_u64(vstd::utf8::encode_utf8(s@)) {
                        Some(n) => c.dlq_max_age_days == Some(n as u32),
                        None => false,
                    },
                    None => c.dlq_max_age_days is None,
                }
                &&& c.fs_base_dir@ == resolve_str(e.fs_base_dir, "/tmp/worker-storage"@)
            },
    {
        let nats_url = take_or_default(e.nats_url, "nats://localhost:4222");
        if !is_nonblank(nats_url.as_str()) {
            return Err("NATS_URL cannot be empty".to_owned());
        }
        let caf_assign_subject = take_or_default(e.caf_assign_subject, "caf.exec.assign.v1");
        let caf_result_subject = take_or_default(e.caf_result_subject, "caf.exec.result.v1");
        let caf_heartbeat_subject = take_or_default(
            e.caf_heartbeat_subject,
            "caf.status.heartbeat.v1",
        );
        let caf_heartbeat_interval_ms = match take_num(&e.caf_heartbeat_interval_ms, 5000) {
            Some(n) => {
                if !(100 <= n && n <= 600000) {
                    return Err("CAF_HEARTBEAT_INTERVAL_MS must be between 100 and 600000".to_owned());
                }
                n
            }
            None => {
                return Err("CAF_HEARTBEAT_INTERVAL_MS must be a number".to_owned());
            }
        };
        let worker_id = match e.worker_id {
            Some(s) => s,
            None => generated_id,
        };
        if !is_nonblank(worker_id.as_str()) {
            return Err("WORKER_ID cannot be empty".to_owned());
        }
        if !is_valid_subject(caf_assign_subject.as_str()) {
            return Err("CAF_ASSIGN_SUBJECT invalid format".to_owned());
        }
        if !is_valid_subject(caf_result_subject.as_str()) {
            return Err("CAF_RESULT_SUBJECT invalid format".to_owned());
        }
        if !is_valid_subject(caf_heartbeat_subject.as_str()) {
            return Err("CAF_HEARTBEAT_SUBJECT invalid format".to_owned());
        }
        let health_bind = take_or_default(e.health_bind, "0.0.0.0:9091");
        let max_concurrency_n = match take_num(&e.worker_max_concurrency, 8) {
            Some(n) => {
                if !(1 <= n && n <= 256) {
                    return Err("WORKER_MAX_CONCURRENCY must be between 1 and 256".to_owned());
                }
                n
            }
            None => {
                return Err("WORKER_MAX_CONCURRENCY must be a number".to_owned());
            }
        };
        let default_job_timeout_ms = match take_num(&e.default_job_timeout_ms, 60000) {
            Some(n) => {
                if !(100 <= n && n <= 3600000) {
                    return Err("DEFAULT_JOB_TIMEOUT_MS must be between 100 and 3600000".to_owned());
                }
                n
            }
            None => {
                return Err("DEFAULT_JOB_TIMEOUT_MS must be a number".to_owned());
            }
        };
        let caf_dlq_subject = take_or_default(e.caf_dlq_subject, "caf.deadletter.v1");
        if !is_valid_subject(caf_dlq_subject.as_str()) {
            return Err("CAF_DLQ_SUBJECT invalid format".to_owned());
        }
        let dlq_path = take_or_default(e.dlq_path, "/tmp/worker-dlq.jsonl");
        if !is_nonblank(dlq_path.as_str()) {
            return Err("DLQ_PATH cannot be empty".to_owned());
        }
        let result_publish_max_retries = match take_num(&e.result_publish_max_retries, 5) {
            Some(n) => {
                if !(n <= 20) {
                    return Err("RESULT_PUBLISH_MAX_RETRIES must be between 0 and 20".to_owned());
                }
                n
            }
            None => {
                return Err("RESULT_PUBLISH_MAX_RETRIES must be a number".to_owned());
            }
        };
        let dlq_max_bytes = match take_num(&e.dlq_max_bytes, 104857600) {
            Some(n) => {
                if !(1000000 <= n && n <= 10000000000) {
                    return Err("DLQ_MAX_BYTES must be between 1MB and 10GB".to_owned());
                }
                n
            }
            None => {
                return Err("DLQ_MAX_BYTES must be a number".to_owned());
            }
        };
        let dlq_max_rotations = match take_num(&e.dlq_max_rotations, 5) {
            Some(n) => {
                if !(1 <= n && n <= 100) {
                    return Err("DLQ_MAX_ROTATIONS must be between 1 and 100".to_owned());
                }
                n
            }
            None => {
                return Err("DLQ_MAX_ROTATIONS must be a number".to_owned());
            }
        };
        let dlq_total_max_bytes = match take_num(&e.dlq_total_max_bytes, 1073741824) {
            Some(n) => {
                if !(1000000 <= n && n <= 100000000000) {
                    return Err("DLQ_TOTAL_MAX_BYTES must be between 1MB and 100GB".to_owned());
                }
                n
            }
            None => {
                return Err("DLQ_TOTAL_MAX_BYTES must be a number".to_owned());
            }
        };
        if dlq_total_max_bytes < dlq_max_bytes {
            return Err("DLQ_TOTAL_MAX_BYTES must be >= DLQ_MAX_BYTES".to_owned());
        }
        let dlq_max_age_days = match &e.dlq_max_age_days {
            Some(s) => match parse_u64(s.as_str()) {
                Some(n) => {
                    if !(1 <= n && n <= 36500) {
                        return Err("DLQ_MAX_AGE_DAYS must be between 1 and 36500".to_owned());
                    }
                    Some(n as u32)
                }
                None => {
                    return Err("DLQ_MAX_AGE_DAYS must be a number".to_owned());
                }
            },
            None => None,
        };
        let fs_base_dir = take_or_default(e.fs_base_dir, "/tmp/worker-storage");
        Ok(
            Config {
                nats_url,
                caf_assign_subject,
                caf_result_subject,
                caf_heartbeat_subject,
                caf_heartbeat_interval_ms,
                worker_id,
                health_bind,
                max_concurrency: max_concurrency_n as usize,
                default_job_timeout_ms,
                caf_dlq_subject,
                result_publish_max_retries: result_publish_max_retries as u32,
                dlq_path,
                dlq_max_bytes,
                dlq_max_rotations: dlq_max_rotations as u32,
                dlq_total_max_bytes,
                dlq_max_age_days,
                fs_base_dir,
            },
        )
    }
}

} // verus!
