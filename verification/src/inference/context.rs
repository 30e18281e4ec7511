//! What a model reads and what it answers.

use vstd::prelude::*;

verus! {

/// The input of one inference.
#[derive(Debug, Clone)]
pub struct InferenceContext {
    /// The prompt as given.
    pub prompt: String,
    /// The prompt's token ids.
    pub tokens: Vec<u32>,
}

impl InferenceContext {
    /// Bundles a prompt with its token ids.
    pub fn new(prompt: String, tokens: Vec<u32>) -> (c: Self)
        ensures
            c.prompt == prompt,
            c.tokens == tokens,
    {
        Self { prompt, tokens }
    }
}

/// The output of one inference.
#[derive(Debug, Clone)]
pub struct InferenceResult {
    /// The answer text.
    pub response: String,
    /// The token ids that go with the answer.
    pub tokens: Vec<u32>,
}

impl InferenceResult {
    /// Bundles an answer with its token ids.
    pub fn new(response: String, tokens: Vec<u32>) -> (r: Self)
        ensures
            r.response == response,
            r.tokens == tokens,
    {
        Self { response, tokens }
    }
}

} // verus!
