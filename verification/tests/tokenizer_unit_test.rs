use rust_ai_runtime::tokenizer::{Tokenizer, WordTokenizer};

#[test]
fn test_encode() {
    let mut tokenizer = WordTokenizer::new();

    let tokens = tokenizer.encode("Rust is safe");

    assert_eq!(tokens, vec![1, 2, 3]);
}

#[test]
fn test_decode() {
    let mut tokenizer = WordTokenizer::new();

    let tokens = tokenizer.encode("Rust is safe");

    let text = tokenizer.decode(&tokens);

    assert_eq!(text, "Rust is safe");
}

#[test]
fn test_vocab_size() {
    let mut tokenizer = WordTokenizer::new();

    tokenizer.encode("Rust is safe");

    assert_eq!(tokenizer.vocab_size(), 3);
}

#[test]
fn test_duplicate_word() {
    let mut tokenizer = WordTokenizer::new();

    let tokens = tokenizer.encode("Rust Rust Rust");

    assert_eq!(tokens, vec![1, 1, 1]);

    assert_eq!(tokenizer.vocab_size(), 1);
}

#[test]
fn test_empty() {
    let mut tokenizer = WordTokenizer::new();

    let tokens = tokenizer.encode("");

    assert!(tokens.is_empty());
}

#[test]
fn test_unknown_token() {
    let tokenizer = WordTokenizer::new();

    let text = tokenizer.decode(&[999]);

    assert_eq!(text, "<UNK>");
}
