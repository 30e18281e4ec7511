use rust_ai_runtime::{
    inference::{
        context::InferenceContext,
        models::{MarkovModel, RuleBasedModel},
        traits::InferenceModel,
    },
    tokenizer::{Tokenizer, WordTokenizer},
};

const RULES: &str = r#"{
    "hello": "Hello! I am a local AI runtime written in Rust.",
    "ownership": "Ownership is how Rust manages memory without a garbage collector.",
    "cargo": "Cargo is the Rust package manager and build tool."
}"#;

const CORPUS: &str = "Rust is a systems programming language.\n\
Rust is memory safe without garbage collection.\n\
Ownership is the key idea of Rust.\n";

#[test]
fn rule_based_model_matches_keyword() {
    let model = RuleBasedModel::from_json(RULES).unwrap();

    let mut tokenizer = WordTokenizer::new();
    let prompt = "hello rust";

    let context = InferenceContext::new(prompt.to_string(), tokenizer.encode(prompt));

    let result = model.infer(&context).unwrap();

    assert!(result.response.to_lowercase().contains("hello") || result.response.contains("Rust"));
}

#[test]
fn rule_based_model_returns_default_for_unknown_input() {
    let model = RuleBasedModel::from_json(RULES).unwrap();

    let context = InferenceContext::new("zzzzzzzz".to_string(), vec![]);

    let result = model.infer(&context).unwrap();

    assert_eq!(result.response, "Sorry, I don't understand.");
}

#[test]
fn markov_model_loads_corpus() {
    let model = MarkovModel::from_corpus(CORPUS);

    assert!(model.state_count() > 0);
}
