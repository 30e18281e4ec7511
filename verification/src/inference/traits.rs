//! The interface that every inference model offers, and the errors of inference.

use vstd::prelude::*;

use super::context::{InferenceContext, InferenceResult};

verus! {

/// Why an inference, or a change of model, did not happen.
#[derive(Debug, Clone)]
pub enum InferenceError {
    /// The engine holds no model.
    NoModelLoaded,
    /// A model was asked for by an index past the last model.
    ModelIndexOutOfRange { index: usize, available: usize },
    /// No model has the name asked for.
    ModelNotFound { name: String },
}

/// A model that answers a prompt.
pub trait InferenceModel {
    /// The model's name.
    spec fn model_name(&self) -> Seq<char>;

    /// Whether `outcome` is an answer that the model may give to `context`.
    spec fn answers(&self, context: InferenceContext, outcome: Result<InferenceResult, InferenceError>) -> bool;

    /// The model's name.
    fn name(&self) -> (r: &str)
        ensures
            r@ == self.model_name(),
    ;

    /// Answers the prompt of `context`.
    fn infer(&self, context: &InferenceContext) -> (r: Result<InferenceResult, InferenceError>)
        ensures
            self.answers(*context, r),
    ;
}

} // verus!
