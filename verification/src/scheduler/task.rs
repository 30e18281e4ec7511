//! An inference task and its outcome.

use std::time::Instant;

use vstd::prelude::*;

verus! {

#[verifier::external_type_specification]
#[verifier::external_body]
pub struct ExInstant(Instant);

/// `Instant::now`: the current reading of the monotonic clock, which is not
/// stated.
#[verifier::external_body]
fn instant_now() -> Instant {
    Instant::now()
}

/// `Instant::elapsed` in whole milliseconds: the time since `t`, which
/// depends on the clock and is not stated.
#[verifier::external_body]
fn elapsed_ms(t: &Instant) -> u128 {
    t.elapsed().as_millis()
}

/// Where a task stands.
#[derive(Debug, Clone, Copy, PartialEq, Eq)]
pub enum TaskStatus {
    Pending,
    Running,
    Finished,
    Failed,
}

/// A prompt to answer, with the moment it was submitted.
#[derive(Debug)]
pub struct InferenceTask {
    pub id: u64,
    pub prompt: String,
    pub created_at: Instant,
}

impl InferenceTask {
    /// A task submitted now.
    pub fn new(id: u64, prompt: String) -> (t: Self)
        ensures
            t.id == id,
            t.prompt == prompt,
    {
        Self { id, prompt, created_at: instant_now() }
    }
}

/// What came of a task.
#[derive(Debug, Clone)]
pub struct TaskResult {
    pub task_id: u64,
    /// The answer, or the reason of the failure.
    pub response: String,
    pub status: TaskStatus,
    /// Milliseconds from the task's submission to this result.
    pub elapsed_ms: u128,
}

impl TaskResult {
    /// A task answered with `response`.
    pub fn success(task: &InferenceTask, response: String) -> (r: Self)
        ensures
            r.task_id == task.id,
            r.response == response,
            r.status == TaskStatus::Finished,
    {
        Self { task_id: task.id, response, status: TaskStatus::Finished, elapsed_ms: elapsed_ms(&task.created_at) }
    }

    /// A task that failed, for the reason `message`.
    pub fn failed(task: &InferenceTask, message: String) -> (r: Self)
        ensures
            r.task_id == task.id,
            r.response == message,
            r.status == TaskStatus::Failed,
    {
        Self { task_id: task.id, response: message, status: TaskStatus::Failed, elapsed_ms: elapsed_ms(&task.created_at) }
    }
}

} // verus!
