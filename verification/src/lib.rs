//! Verified core of a job-execution worker: envelope codec, handler
//! dispatch, dedup window, dead-letter queue policy, retry and backoff
//! rules, heartbeat and health reporting.
pub mod json;
pub mod json_parse;
pub mod protocol;
pub mod error;
pub mod dedup;
pub mod config;
pub mod pipeline;
pub mod handlers;
pub mod executor;
pub mod dlq;
pub mod health;
pub mod metrics;
pub mod pii;
pub mod observability;
