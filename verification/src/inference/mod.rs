//! Inference: the context a model reads, the result it gives, the models and
//! the engine that picks one of them.

pub mod context;
pub mod engine;
pub mod models;
pub mod traits;

pub use context::{InferenceContext, InferenceResult};
pub use engine::InferenceEngine;
pub use traits::{InferenceError, InferenceModel};
