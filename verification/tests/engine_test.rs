use rust_ai_runtime::inference::{
    context::InferenceContext,
    engine::InferenceEngine,
    models::{LocalModel, MarkovModel, RuleBasedModel},
};

const RULES: &str = r#"{
    "hello": "Hello! I am a local AI runtime written in Rust.",
    "ownership": "Ownership is how Rust manages memory without a garbage collector."
}"#;

const CORPUS: &str = "Rust is a systems programming language.\nRust is memory safe.\n";

#[test]
fn engine_can_switch_current_model() {
    let mut engine = InferenceEngine::new();

    engine.add_model(LocalModel::RuleBased(
        RuleBasedModel::from_json(RULES).unwrap(),
    ));

    engine.add_model(LocalModel::Markov(MarkovModel::from_corpus(CORPUS)));

    assert_eq!(engine.current_model_name(), "RuleBasedModel");

    engine.set_model_by_name("MarkovModel").unwrap();

    assert_eq!(engine.current_model_name(), "MarkovModel");
}

#[test]
fn engine_infer_uses_current_model() {
    let mut engine = InferenceEngine::new();

    engine.add_model(LocalModel::RuleBased(
        RuleBasedModel::from_json(RULES).unwrap(),
    ));

    let context = InferenceContext::new("ownership".to_string(), vec![]);

    let result = engine.infer(&context).unwrap();

    assert!(result.response.contains("Ownership"));
}
