//! A worker: answers tasks with the shared engine.

use std::sync::Arc;

use vstd::prelude::*;

use super::task::{InferenceTask, TaskResult, TaskStatus};
use crate::inference::context::InferenceContext;
use crate::inference::engine::InferenceEngine;
use crate::inference::traits::{InferenceError, InferenceModel};
use crate::runtime::{fits_fresh_vocab, fresh_context, infer_once};
use crate::tokenizer::WordTokenizer;

verus! {

/// Answers tasks with a shared engine.
pub struct Worker<M: InferenceModel> {
    id: usize,
    engine: Arc<InferenceEngine<M>>,
}

impl<M: InferenceModel> Worker<M> {
    /// The engine the worker answers with.
    pub closed spec fn engine_view(&self) -> Arc<InferenceEngine<M>> {
        self.engine
    }

    /// The worker's number.
    pub closed spec fn id_view(&self) -> usize {
        self.id
    }

    /// Worker number `id`, answering with `engine`.
    pub fn new(id: usize, engine: Arc<InferenceEngine<M>>) -> (w: Self)
        ensures
            w.id_view() == id,
            w.engine_view() == engine,
    {
        Self { id, engine }
    }

    /// The worker's number.
    pub fn id(&self) -> (n: usize)
        ensures
            n == self.id_view(),
    {
        self.id
    }

    /// Answers one task: tokenizes its prompt with a fresh tokenizer, runs
    /// the engine, and reports the answer as a finished task.
    pub fn run(&self, task: &InferenceTask) -> (r: Result<TaskResult, InferenceError>)
        requires
            fits_fresh_vocab(task.prompt@),
        ensures
            exists|c: InferenceContext, o|
                fresh_context(c, task.prompt@) && (*self.engine_view()).answers(c, o) && match (o, r) {
                    (Ok(res), Ok(t)) => t.task_id == task.id && t.status == TaskStatus::Finished
                        && t.response == res.response,
                    (Err(e), Err(f)) => e == f,
                    _ => false,
                },
    {
        let engine: &InferenceEngine<M> = &self.engine;
        let o = infer_once(engine, task.prompt.as_str());
        let ghost og = o;
        let ghost c = choose|c: InferenceContext| fresh_context(c, task.prompt@) && engine.answers(c, og);
        let r = match o {
            Ok(res) => Ok(TaskResult::success(task, res.response)),
            Err(e) => Err(e),
        };
        assert(fresh_context(c, task.prompt@) && (*self.engine_view()).answers(c, og));
        r
    }

    /// Runs the task when a fresh tokenizer can number its prompt's words;
    /// gives nothing back otherwise.
    pub fn try_run(&self, task: &InferenceTask) -> (r: Option<Result<TaskResult, InferenceError>>)
        ensures
            r is None <==> !fits_fresh_vocab(task.prompt@),
            r matches Some(x) ==> exists|c: InferenceContext, o|
                fresh_context(c, task.prompt@) && (*self.engine_view()).answers(c, o) && match (o, x) {
                    (Ok(res), Ok(t)) => t.task_id == task.id && t.status == TaskStatus::Finished
                        && t.response == res.response,
                    (Err(e), Err(f)) => e == f,
                    _ => false,
                },
    {
        let probe = WordTokenizer::new();
        if probe.can_encode_text(task.prompt.as_str()) {
            Some(self.run(task))
        } else {
            None
        }
    }
}

} // verus!
