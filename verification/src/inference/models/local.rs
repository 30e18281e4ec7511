//! Either of the local models, so that one engine can hold both.

use vstd::prelude::*;

use super::markov::MarkovModel;
use super::rule_based::RuleBasedModel;
use crate::inference::context::{InferenceContext, InferenceResult};
use crate::inference::traits::{InferenceError, InferenceModel};

verus! {

/// One of the local models.
pub enum LocalModel {
    /// A keyword rule model.
    RuleBased(RuleBasedModel),
    /// A Markov text model.
    Markov(MarkovModel),
}

impl InferenceModel for LocalModel {
    /// The name of the model inside.
    open spec fn model_name(&self) -> Seq<char> {
        match self {
            LocalModel::RuleBased(m) => m.model_name(),
            LocalModel::Markov(m) => m.model_name(),
        }
    }

    /// The answers of the model inside.
    open spec fn answers(&self, context: InferenceContext, outcome: Result<InferenceResult, InferenceError>) -> bool {
        match self {
            LocalModel::RuleBased(m) => m.answers(context, outcome),
            LocalModel::Markov(m) => m.answers(context, outcome),
        }
    }

    fn name(&self) -> (r: &str) {
        match self {
            LocalModel::RuleBased(m) => m.name(),
            LocalModel::Markov(m) => m.name(),
        }
    }

    fn infer(&self, context: &InferenceContext) -> (r: Result<InferenceResult, InferenceError>) {
        match self {
            LocalModel::RuleBased(m) => m.infer(context),
            LocalModel::Markov(m) => m.infer(context),
        }
    }
}

} // verus!
