//! A reverse-proxy core: a round-robin upstream pool with health flags and
//! fail-open selection, a fixed-window rate limiter keyed by client identity,
//! and the per-request decisions that tie them together.

pub mod lb;
pub mod limiter;
pub mod pool;
