use search_engine::text::Lemmatizer;
use search_engine::text::extract_plaintext;
use search_engine::tokenizer::{clean_word, is_valid_token, SearchTokenizer, TokenizationError};

#[test]
fn test_new_tokenizer_creation() {
    let result = SearchTokenizer::new();
    assert!(result.is_ok(), "Should successfully create tokenizer");
}

#[test]
fn tokenize_query_keeps_positions_of_all_words() {
    let tokenizer = SearchTokenizer::new().unwrap();
    let result = tokenizer.tokenize_query("The quick, brown fox!").unwrap();
    let got: Vec<(u32, String)> = result.unigram.iter().map(|t| (t.position, t.word.clone())).collect();
    assert_eq!(
        got,
        vec![(1, "quick".to_string()), (2, "brown".to_string()), (3, "fox".to_string())]
    );
}

#[test]
fn tokenize_query_rejects_blank_input() {
    let tokenizer = SearchTokenizer::new().unwrap();
    assert!(matches!(tokenizer.tokenize_query("   \t\n"), Err(TokenizationError::EmptyInput)));
    assert!(matches!(tokenizer.tokenize_query(""), Err(TokenizationError::EmptyInput)));
}

#[test]
fn tokenize_drops_stop_words_and_invalid_words() {
    let tokenizer = SearchTokenizer::new().unwrap();
    let tokens = tokenizer.tokenize("and CAFÉ x-ray 42 ...");
    let got: Vec<(u32, String)> = tokens.iter().map(|t| (t.position, t.word.clone())).collect();
    assert_eq!(got, vec![(2, "x-ray".to_string()), (3, "42".to_string())]);
    assert!(tokenizer.tokenize("  ").is_empty());
}

#[test]
fn clean_word_trims_and_lowercases() {
    assert_eq!(clean_word("--Hello!!"), "hello");
    assert_eq!(clean_word("...") , "");
    assert_eq!(clean_word("(Don't)"), "don't");
}

#[test]
fn is_valid_token_accepts_ascii_words_and_dashes() {
    assert!(is_valid_token("a-b1"));
    assert!(!is_valid_token(""));
    assert!(!is_valid_token("don't"));
    assert!(!is_valid_token("café"));
}

#[test]
fn extract_plaintext_joins_paragraphs_and_drops_tags() {
    let text = vec![
        vec!["<b>Bold</b> start. ".to_string(), "Second.".to_string()],
        vec!["<a href=\"x\">link</a>".to_string()],
    ];
    assert_eq!(extract_plaintext(&text), "Bold start. Second.\n\nlink");
    assert_eq!(extract_plaintext(&[]), "");
}

#[test]
fn lemmatize_keeps_the_last_lemma_of_a_word() {
    let lemmatizer = Lemmatizer::new(vec![
        ("ran".to_string(), "run".to_string()),
        ("mice".to_string(), "mouse".to_string()),
        ("ran".to_string(), "other".to_string()),
    ]);
    assert_eq!(lemmatizer.lemmatize("ran"), Some(&"other".to_string()));
    assert_eq!(lemmatizer.lemmatize("mice"), Some(&"mouse".to_string()));
    assert_eq!(lemmatizer.lemmatize("cats"), None);
}
