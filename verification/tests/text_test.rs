use rust_ai_runtime::text::{
    chars_of, contains_chars, is_blank, join_strings, split_whitespace, str_eq_ignore_ascii_case,
    trim_str, CharClass,
};

#[test]
fn words_split_at_any_whitespace() {
    assert_eq!(
        split_whitespace("\t hello  wide\u{2003}world \n"),
        vec!["hello".to_string(), "wide".to_string(), "world".to_string()]
    );
    assert!(split_whitespace("   ").is_empty());
}

#[test]
fn trims() {
    assert_eq!(trim_str("  a b \n", CharClass::Whitespace), "a b");
    assert_eq!(trim_str("--hello, world!", CharClass::NonAlphanumeric), "hello, world");
    assert_eq!(trim_str("\"x\"", CharClass::Quote), "x");
    assert_eq!(trim_str("...", CharClass::NonAlphanumeric), "");
    assert_eq!(trim_str("é!", CharClass::NonAlphanumeric), "é");
    assert!(is_blank(" \t\r\n"));
    assert!(!is_blank(" x "));
}

#[test]
fn joining() {
    let parts = vec!["a".to_string(), "".to_string(), "b".to_string()];
    assert_eq!(join_strings(&parts, ", "), "a, , b");
    assert_eq!(join_strings(&Vec::new(), " "), "");
}

#[test]
fn searching() {
    let s = chars_of("ownership rules");
    assert!(contains_chars(&s, &chars_of("ship r")));
    assert!(contains_chars(&s, &chars_of("")));
    assert!(!contains_chars(&s, &chars_of("rules!")));
    assert!(!contains_chars(&chars_of(""), &chars_of("a")));
}

#[test]
fn ascii_case_comparison() {
    assert!(str_eq_ignore_ascii_case("MarkovModel", "markovMODEL"));
    assert!(!str_eq_ignore_ascii_case("Markov", "MarkovModel"));
    assert!(!str_eq_ignore_ascii_case("É", "é"));
}
