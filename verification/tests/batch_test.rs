use rust_ai_runtime::{
    inference::models::{MarkovModel, RuleBasedModel},
    runtime::{
        batch_prompts, batch_record_id, build_engine, check_requests, total_response_bytes,
        BenchmarkError,
    },
    text::char_is_whitespace,
};

#[test]
fn batch_prompts_skip_blank_lines() {
    let content = "hello rust\n\n   \n  what is ownership  \r\nlast";
    assert_eq!(
        batch_prompts(content),
        vec![
            (0, "hello rust".to_string()),
            (3, "what is ownership".to_string()),
            (4, "last".to_string()),
        ]
    );
    assert!(batch_prompts("").is_empty());
    assert!(batch_prompts("\n\t\n").is_empty());
}

#[test]
fn batch_record_ids() {
    assert_eq!(batch_record_id(1000, 3), Some(1003));
    assert_eq!(batch_record_id(u64::MAX, 0), Some(u64::MAX));
    assert_eq!(batch_record_id(u64::MAX, 1), None);
    assert_eq!(batch_record_id(u64::MAX - 5, 6), None);
}

#[test]
fn built_engine_selects_by_alias() {
    let rules = || RuleBasedModel::from_json(r#"{"hi": "Hello."}"#).unwrap();
    let markov = || MarkovModel::from_corpus("hi there");
    let e = build_engine(rules(), markov(), "rule").unwrap();
    assert_eq!(e.model_names(), vec!["RuleBasedModel".to_string(), "MarkovModel".to_string()]);
    assert_eq!(e.current_model_name(), "RuleBasedModel");
    let e = build_engine(rules(), markov(), "MARKOV").unwrap();
    assert_eq!(e.current_model_name(), "MarkovModel");
    assert_eq!(build_engine(rules(), markov(), "gpt").err().unwrap().alias, "gpt");
}

#[test]
fn whitespace_property() {
    for c in [' ', '\t', '\n', '\u{0B}', '\u{0C}', '\r', '\u{85}', '\u{A0}', '\u{1680}', '\u{2000}', '\u{200A}', '\u{2028}', '\u{2029}', '\u{202F}', '\u{205F}', '\u{3000}'] {
        assert!(char_is_whitespace(c));
        assert_eq!(char_is_whitespace(c), c.is_whitespace());
    }
    for c in ['a', '0', '\u{200B}', '\u{FEFF}', '\u{180E}', '_'] {
        assert!(!char_is_whitespace(c));
        assert_eq!(char_is_whitespace(c), c.is_whitespace());
    }
}

#[test]
fn benchmark_helpers() {
    assert_eq!(check_requests(0), Err(BenchmarkError::NoRequests));
    assert_eq!(check_requests(3), Ok(()));
    assert_eq!(total_response_bytes(&[3, 4, 5]), Ok(12));
    assert_eq!(total_response_bytes(&[]), Ok(0));
    assert_eq!(total_response_bytes(&[usize::MAX, 1]), Err(BenchmarkError::TooManyBytes));
}
