//! Tasks, workers and the pool that runs them.

pub mod pool;
pub mod task;
pub mod worker;

pub use pool::WorkerPool;
pub use task::{InferenceTask, TaskResult, TaskStatus};
pub use worker::Worker;
