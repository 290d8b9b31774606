use rustixml::lexer::{Lexer, Token};

#[test]
fn test_simple_rule() {
    let mut lexer = Lexer::new(r#"rule: "hello"."#);
    let tokens = lexer.tokenize().unwrap();

    assert_eq!(tokens[0], Token::Ident("rule".to_string()));
    assert_eq!(tokens[1], Token::Colon);
    assert_eq!(tokens[2], Token::String("hello".to_string()));
    assert_eq!(tokens[3], Token::Period);
    assert_eq!(tokens[4], Token::Eof);
}

#[test]
fn test_whitespace_handling() {
    let mut lexer = Lexer::new("rule  :   \"hello\"  .");
    let tokens = lexer.tokenize().unwrap();

    assert_eq!(tokens.len(), 5); // ident, colon, string, period, eof
}

#[test]
fn test_nonterminal() {
    let mut lexer = Lexer::new("rule: body.");
    let tokens = lexer.tokenize().unwrap();

    assert_eq!(tokens[0], Token::Ident("rule".to_string()));
    assert_eq!(tokens[1], Token::Colon);
    assert_eq!(tokens[2], Token::Ident("body".to_string()));
    assert_eq!(tokens[3], Token::Period);
}

#[test]
fn test_simple_comment() {
    let mut lexer = Lexer::new(r#"{This is a comment} rule: "hello"."#);
    let tokens = lexer.tokenize().unwrap();

    // Comment should be skipped
    assert_eq!(tokens[0], Token::Ident("rule".to_string()));
    assert_eq!(tokens[1], Token::Colon);
    assert_eq!(tokens[2], Token::String("hello".to_string()));
    assert_eq!(tokens[3], Token::Period);
}

#[test]
fn test_nested_comments() {
    let mut lexer = Lexer::new(r#"{Outer {nested} comment} rule: "hello"."#);
    let tokens = lexer.tokenize().unwrap();

    // Nested comment should be skipped
    assert_eq!(tokens[0], Token::Ident("rule".to_string()));
    assert_eq!(tokens[1], Token::Colon);
    assert_eq!(tokens[2], Token::String("hello".to_string()));
    assert_eq!(tokens[3], Token::Period);
}

#[test]
fn test_comment_between_tokens() {
    let mut lexer = Lexer::new(r#"rule {comment here} : "hello"."#);
    let tokens = lexer.tokenize().unwrap();

    assert_eq!(tokens[0], Token::Ident("rule".to_string()));
    assert_eq!(tokens[1], Token::Colon);
    assert_eq!(tokens[2], Token::String("hello".to_string()));
    assert_eq!(tokens[3], Token::Period);
}

#[test]
fn test_unclosed_comment_error() {
    let mut lexer = Lexer::new(r#"{Unclosed comment rule: "hello"."#);
    let result = lexer.tokenize();

    assert!(result.is_err());
    assert_eq!(result.unwrap_err(), "Unclosed comment");
}

#[test]
fn lexer_empty_input_is_just_eof() {
    let mut lexer = Lexer::new("   ");
    assert_eq!(lexer.tokenize().unwrap(), vec![Token::Eof]);
}

#[test]
fn lexer_punctuation() {
    let mut lexer = Lexer::new(":.;|+*?@-~^(),=");
    let tokens = lexer.tokenize().unwrap();
    assert_eq!(
        tokens,
        vec![
            Token::Colon,
            Token::Period,
            Token::Semicolon,
            Token::Pipe,
            Token::Plus,
            Token::Star,
            Token::Question,
            Token::At,
            Token::Minus,
            Token::Tilde,
            Token::Caret,
            Token::LParen,
            Token::RParen,
            Token::Comma,
            Token::Equals,
            Token::Eof,
        ]
    );
}

#[test]
fn lexer_doubled_quotes_and_char_literal() {
    let mut lexer = Lexer::new(r#""a""b" 'it''s'"#);
    let tokens = lexer.tokenize().unwrap();
    assert_eq!(tokens[0], Token::String("a\"b".to_string()));
    assert_eq!(tokens[1], Token::String("it's".to_string()));
}

#[test]
fn lexer_char_class_and_ident_with_dash() {
    let mut lexer = Lexer::new("my-rule_1: ['a'-'z'].");
    let tokens = lexer.tokenize().unwrap();
    assert_eq!(tokens[0], Token::Ident("my-rule_1".to_string()));
    assert_eq!(tokens[2], Token::CharClass("'a'-'z'".to_string()));
}

#[test]
fn lexer_error_messages() {
    assert_eq!(Lexer::new("\"abc").tokenize().unwrap_err(), "Unterminated string");
    assert_eq!(Lexer::new("'abc").tokenize().unwrap_err(), "Unterminated character literal");
    assert_eq!(Lexer::new("[abc").tokenize().unwrap_err(), "Unterminated character class");
    assert_eq!(Lexer::new("a ] b").tokenize().unwrap_err(), "Unexpected ] outside character class");
    assert_eq!(Lexer::new("a # b").tokenize().unwrap_err(), "Unexpected character: #");
    assert_eq!(Lexer::new("{a {b}").tokenize().unwrap_err(), "Unclosed comment");
}
