//! Incremental graph queries under open-loop load: multiset relations and
//! their key-indexed arrangements, the semantics of the four read pipelines
//! (point, one-hop, two-hop and bounded shortest-path lookups), the
//! completeness watermark, the load generator's pacing, request schedule and
//! pseudo-random workload, and the latency histogram with its tail report.

pub mod histogram;
pub mod progress;
pub mod query;
pub mod relation;
pub mod schedule;
pub mod workload;
