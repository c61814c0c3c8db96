//! Context-switch and coroutine benchmarks: the matrix kernels they run,
//! the user-thread and coroutine schedulers they measure, and the
//! arithmetic workloads they time, each with a verified contract.

pub mod matrix;
pub mod overhead;
pub mod overhead_unfold;
pub mod runtime;
pub mod executor;
pub mod gettime;
pub mod ring;
pub mod ring_schedule;
pub mod user_threads;
