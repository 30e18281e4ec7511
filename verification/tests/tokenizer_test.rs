use rust_ai_runtime::tokenizer::{Tokenizer, WordTokenizer};

#[test]
fn encode_decode_roundtrip() {
    let mut tokenizer = WordTokenizer::new();

    let tokens = tokenizer.encode("Rust is safe");

    assert_eq!(tokens, vec![1, 2, 3]);
    assert_eq!(tokenizer.decode(&tokens), "Rust is safe");
}

#[test]
fn repeated_words_share_same_token_id() {
    let mut tokenizer = WordTokenizer::new();

    let tokens = tokenizer.encode("Rust Rust Rust");

    assert_eq!(tokens, vec![1, 1, 1]);
    assert_eq!(tokenizer.vocab_size(), 1);
}

#[test]
fn roundtrip_collapses_whitespace() {
    let mut tokenizer = WordTokenizer::new();
    let tokens = tokenizer.encode("  a b\t\ta\nc  ");
    assert_eq!(tokens, vec![1, 2, 1, 3]);
    assert_eq!(tokenizer.decode(&tokens), "a b a c");
}

#[test]
fn encoding_again_keeps_ids_and_vocabulary() {
    let mut tokenizer = WordTokenizer::new();
    let first = tokenizer.encode("the cat saw the dog");
    let second = tokenizer.encode("the cat saw the dog");
    assert_eq!(first, vec![1, 2, 3, 1, 4]);
    assert_eq!(first, second);
    assert_eq!(tokenizer.vocab_size(), 4);
}

#[test]
fn later_text_extends_vocabulary() {
    let mut tokenizer = WordTokenizer::new();
    tokenizer.encode("Rust is safe");
    let tokens = tokenizer.encode("Rust is fast");
    assert_eq!(tokens, vec![1, 2, 4]);
    assert_eq!(tokenizer.vocab_size(), 4);
    assert_eq!(tokenizer.decode(&[4, 0, 3]), "fast <UNK> safe");
}

#[test]
fn decode_of_nothing_is_empty() {
    let tokenizer = WordTokenizer::default();
    assert_eq!(tokenizer.decode(&[]), "");
}

#[test]
fn case_matters_to_the_tokenizer() {
    let mut tokenizer = WordTokenizer::new();
    assert_eq!(tokenizer.encode("Rust rust RUST"), vec![1, 2, 3]);
}

#[test]
fn unicode_whitespace_separates_words() {
    let mut tokenizer = WordTokenizer::new();
    assert_eq!(tokenizer.encode("α\u{3000}β\u{00A0}α"), vec![1, 2, 1]);
    assert_eq!(tokenizer.decode(&[2, 1]), "β α");
}

#[test]
fn vocab_entries_are_in_id_order() {
    let mut tokenizer = WordTokenizer::new();
    tokenizer.encode("b a b c");
    let entries = tokenizer.vocab_entries();
    assert_eq!(
        entries,
        vec![("b".to_string(), 1), ("a".to_string(), 2), ("c".to_string(), 3)]
    );
}

#[test]
fn checked_encoding_of_ordinary_text() {
    let mut tokenizer = WordTokenizer::new();
    assert!(tokenizer.can_encode_text("one two one"));
    assert_eq!(tokenizer.try_encode("one two one"), Some(vec![1, 2, 1]));
    assert_eq!(tokenizer.try_encode("three one"), Some(vec![3, 1]));
    assert_eq!(tokenizer.vocab_size(), 3);
}

#[test]
fn new_words_get_next_ids_in_first_appearance_order() {
    let mut tokenizer = WordTokenizer::new();
    tokenizer.encode("a b");
    let ids = tokenizer.encode("c b d c a e");
    assert_eq!(ids, vec![3, 2, 4, 3, 1, 5]);
    assert_eq!(tokenizer.vocab_size(), 5);
}
