use rust_ai_runtime::inference::{
    context::InferenceContext,
    engine::InferenceEngine,
    models::{LocalModel, MarkovModel, RuleBasedModel},
    traits::InferenceError,
};

fn engine() -> InferenceEngine<LocalModel> {
    let mut engine = InferenceEngine::new();
    engine.add_model(LocalModel::RuleBased(
        RuleBasedModel::from_json(r#"{"hi": "Hi there."}"#).unwrap(),
    ));
    engine.add_model(LocalModel::Markov(MarkovModel::from_corpus("hi you")));
    engine
}

#[test]
fn empty_engine_has_no_model() {
    let engine: InferenceEngine<LocalModel> = InferenceEngine::new();
    assert_eq!(engine.current_model_name(), "<no model>");
    assert!(engine.model_names().is_empty());
    let context = InferenceContext::new("hi".to_string(), vec![]);
    assert!(matches!(engine.infer(&context), Err(InferenceError::NoModelLoaded)));
}

#[test]
fn set_model_by_index() {
    let mut engine = engine();
    assert!(matches!(
        engine.set_model(2),
        Err(InferenceError::ModelIndexOutOfRange { index: 2, available: 2 })
    ));
    assert_eq!(engine.current_model_name(), "RuleBasedModel");
    engine.set_model(1).unwrap();
    assert_eq!(engine.current_model_name(), "MarkovModel");
    let context = InferenceContext::new("hi".to_string(), vec![]);
    assert_eq!(engine.infer(&context).unwrap().response, "hi you");
}

#[test]
fn set_model_by_name_ignores_ascii_case() {
    let mut engine = engine();
    engine.set_model_by_name("markovmodel").unwrap();
    assert_eq!(engine.current_model_name(), "MarkovModel");
    engine.set_model_by_name("RULEBASEDMODEL").unwrap();
    assert_eq!(engine.current_model_name(), "RuleBasedModel");
    match engine.set_model_by_name("markov") {
        Err(InferenceError::ModelNotFound { name }) => assert_eq!(name, "markov"),
        _ => panic!("expected a refusal"),
    }
    assert_eq!(engine.current_model_name(), "RuleBasedModel");
}

#[test]
fn model_names_in_order() {
    let engine = engine();
    assert_eq!(
        engine.model_names(),
        vec!["RuleBasedModel".to_string(), "MarkovModel".to_string()]
    );
}

#[test]
fn models_keep_their_order_through_calls() {
    let mut engine: InferenceEngine<LocalModel> = InferenceEngine::new();
    assert!(engine.set_model(0).is_err());
    engine.add_model(LocalModel::Markov(MarkovModel::from_corpus("x y")));
    let _ = engine.set_model_by_name("nothing");
    engine.add_model(LocalModel::RuleBased(RuleBasedModel::from_json("{}").unwrap()));
    assert_eq!(engine.current_model_name(), "MarkovModel");
    engine.add_model(LocalModel::Markov(MarkovModel::from_corpus("")));
    assert_eq!(
        engine.model_names(),
        vec!["MarkovModel".to_string(), "RuleBasedModel".to_string(), "MarkovModel".to_string()]
    );
    assert_eq!(engine.current_model_name(), "MarkovModel");
}
