use indexer::tokenizer::{lex_text, Lexer};

#[test]
fn lexer_maximal_munch() {
    assert_eq!(
        lex_text("foo123 bar_baz, 3.14"),
        vec!["foo123", "bar_baz", ",", "3.14"]
    );
}

#[test]
fn lexer_hands_out_tokens_one_by_one() {
    let mut lexer = Lexer::new("  a+b\n");
    assert_eq!(lexer.get_next_token().as_deref(), Some("a"));
    assert_eq!(lexer.get_next_token().as_deref(), Some("+"));
    assert_eq!(lexer.get_next_token().as_deref(), Some("b"));
    assert_eq!(lexer.get_next_token(), None);
    assert_eq!(lexer.get_next_token(), None);
}

#[test]
fn lexer_empty_and_blank() {
    assert!(lex_text("").is_empty());
    assert!(lex_text(" \t\n\r ").is_empty());
}

#[test]
fn lexer_numbers_take_digits_and_dots() {
    assert_eq!(lex_text("1.2.3x 7."), vec!["1.2.3", "x", "7."]);
}

#[test]
fn lexer_words_take_unicode_alphanumerics() {
    assert_eq!(lex_text("café_1 été"), vec!["café_1", "é", "té"]);
}

#[test]
fn lexer_symbols_are_single() {
    assert_eq!(lex_text("..!_a"), vec![".", ".", "!", "_", "a"]);
}

#[test]
fn lexer_tokens_collects_the_rest() {
    let mut lexer = Lexer::new("one two three");
    assert_eq!(lexer.get_next_token().as_deref(), Some("one"));
    assert_eq!(lexer.tokens(), vec!["two", "three"]);
    assert!(lexer.tokens().is_empty());
}

#[test]
fn lexer_stops_right_after_each_token() {
    let mut lexer = Lexer::new("12 3");
    assert_eq!(lexer.get_next_token().as_deref(), Some("12"));
    assert_eq!(lexer.get_next_token().as_deref(), Some("3"));
    assert_eq!(lexer.get_next_token(), None);
    let mut lexer = Lexer::new("a \n");
    assert_eq!(lexer.get_next_token().as_deref(), Some("a"));
    assert_eq!(lexer.get_next_token(), None);
}
