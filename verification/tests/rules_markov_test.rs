use rust_ai_runtime::inference::{
    context::InferenceContext,
    models::{rule_based::RulesError, MarkovModel, RuleBasedModel},
    traits::InferenceModel,
};

#[test]
fn rules_match_in_lowercased_prompt() {
    let model = RuleBasedModel::from_json(r#"{"ownership": "About ownership."}"#).unwrap();
    let context = InferenceContext::new("Tell me about OWNERSHIP please".to_string(), vec![7, 8]);
    let result = model.infer(&context).unwrap();
    assert_eq!(result.response, "About ownership.");
    assert_eq!(result.tokens, vec![7, 8]);
}

#[test]
fn rules_match_inside_words() {
    let model = RuleBasedModel::from_json(r#"{"rust": "Rust!"}"#).unwrap();
    let context = InferenceContext::new("Trusty".to_string(), vec![]);
    assert_eq!(model.infer(&context).unwrap().response, "Rust!");
}

#[test]
fn rules_count_and_name() {
    let model = RuleBasedModel::from_json(r#"{"a": "1", "b": "2", "a": "3"}"#).unwrap();
    assert_eq!(model.rule_count(), 2);
    assert_eq!(model.name(), "RuleBasedModel");
    let context = InferenceContext::new("a".to_string(), vec![]);
    assert_eq!(model.infer(&context).unwrap().response, "3");
}

#[test]
fn empty_rules_always_give_default() {
    let model = RuleBasedModel::from_json("{}").unwrap();
    assert_eq!(model.rule_count(), 0);
    let context = InferenceContext::new("hello".to_string(), vec![1]);
    let result = model.infer(&context).unwrap();
    assert_eq!(result.response, "Sorry, I don't understand.");
    assert_eq!(result.tokens, vec![1]);
}

#[test]
fn invalid_rules_are_refused() {
    assert!(matches!(
        RuleBasedModel::from_json("not json"),
        Err(RulesError::InvalidFormat)
    ));
    assert!(matches!(
        RuleBasedModel::from_json(r#"{"a": 1}"#),
        Err(RulesError::InvalidFormat)
    ));
    assert!(matches!(
        RuleBasedModel::from_json(r#"["a", "b"]"#),
        Err(RulesError::InvalidFormat)
    ));
}

#[test]
fn markov_counts_words_with_followers() {
    // rust -> is, is -> fast, rust -> is, is -> safe
    let model = MarkovModel::from_corpus("Rust is fast.\nRust, is safe!\n");
    assert_eq!(model.state_count(), 2);
    assert_eq!(model.name(), "MarkovModel");
}

#[test]
fn markov_pairs_stay_within_lines() {
    // "a" ends a line, so it has no follower; "b" starts one
    let model = MarkovModel::from_corpus("x a\r\nb y\n");
    assert_eq!(model.state_count(), 2);
    assert_eq!(model.generate("A"), vec!["a".to_string()]);
}

#[test]
fn markov_ignores_punctuation_only_words() {
    let model = MarkovModel::from_corpus("one -- two\n...\nthree\n");
    assert_eq!(model.state_count(), 1);
    assert_eq!(model.generate("ONE"), vec!["one".to_string(), "two".to_string()]);
}

#[test]
fn markov_walk_with_single_choices_is_determined() {
    let model = MarkovModel::from_corpus("A b c");
    let out = model.generate("a");
    assert_eq!(out, vec!["a".to_string(), "b".to_string(), "c".to_string()]);
    let context = InferenceContext::new("A".to_string(), vec![5]);
    let result = model.infer(&context).unwrap();
    assert_eq!(result.response, "a b c");
    assert_eq!(result.tokens, vec![5]);
}

#[test]
fn markov_walk_stops_at_fifteen_words() {
    let model = MarkovModel::from_corpus("go go");
    let out = model.generate("go");
    assert_eq!(out.len(), 16);
    assert!(out.iter().all(|w| w == "go"));
}

#[test]
fn markov_walk_of_empty_prompt_is_empty() {
    let model = MarkovModel::from_corpus("a b");
    assert!(model.generate("   ").is_empty());
    let context = InferenceContext::new(String::new(), vec![]);
    assert_eq!(model.infer(&context).unwrap().response, "");
}

#[test]
fn markov_walk_follows_the_corpus() {
    let model = MarkovModel::from_corpus("a b\na c\nb a\nc a\n");
    for _ in 0..20 {
        let out = model.generate("a");
        assert_eq!(out.len(), 16);
        for pair in out.windows(2) {
            let ok = matches!(
                (pair[0].as_str(), pair[1].as_str()),
                ("a", "b") | ("a", "c") | ("b", "a") | ("c", "a")
            );
            assert!(ok);
        }
    }
}

#[test]
fn markov_keeps_prompt_words_lowercased() {
    let model = MarkovModel::from_corpus("");
    assert_eq!(model.state_count(), 0);
    assert_eq!(
        model.generate("Hello WORLD"),
        vec!["hello".to_string(), "world".to_string()]
    );
}
