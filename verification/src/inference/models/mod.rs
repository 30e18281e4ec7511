//! The local models.

pub mod local;
pub mod markov;
pub mod rule_based;

pub use local::LocalModel;
pub use markov::MarkovModel;
pub use rule_based::RuleBasedModel;
