//! Model metadata and the manager that holds the loaded one.

use vstd::prelude::*;

verus! {

/// What a model file describes.
#[derive(Debug, Clone)]
pub struct ModelInfo {
    pub name: String,
    pub version: String,
    pub vocab_size: usize,
    pub layers: usize,
}

/// Holds the model that was loaded last, if any.
pub struct ModelManager {
    current_model: Option<ModelInfo>,
}

impl ModelManager {
    /// The loaded model, if any.
    pub closed spec fn current(&self) -> Option<ModelInfo> {
        self.current_model
    }

    /// A manager with no model loaded.
    pub fn new() -> (m: Self)
        ensures
            m.current() is None,
    {
        Self { current_model: None }
    }

    /// Makes `model` the loaded model, in place of any earlier one.
    pub fn load_model(&mut self, model: ModelInfo)
        ensures
            final(self).current() == Some(model),
    {
        self.current_model = Some(model);
    }

    /// The loaded model, if any.
    pub fn get_model(&self) -> (r: Option<&ModelInfo>)
        ensures
            match r {
                Some(m) => self.current() == Some(*m),
                None => self.current() is None,
            },
    {
        self.current_model.as_ref()
    }

    /// Whether a model is loaded.
    pub fn is_loaded(&self) -> (b: bool)
        ensures
            b == self.current() is Some,
    {
        self.current_model.is_some()
    }
}

impl Default for ModelManager {
    fn default() -> (m: Self)
        ensures
            m.current() is None,
    {
        Self::new()
    }
}

} // verus!
