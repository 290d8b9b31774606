use rustixml::ast::IxmlGrammar;
use rustixml::grammar_ast::parse_ixml_grammar;
use rustixml::native_parser::NativeParser;

#[test]
fn test_parser_creation() {
    let grammar_text = "test: 'hello'.";
    let grammar = parse_ixml_grammar(grammar_text).expect("Grammar should parse");
    let parser = NativeParser::new(grammar);

    assert_eq!(parser.rule_count(), 1);
    assert!(parser.has_rule("test"));
}

#[test]
fn test_empty_grammar() {
    let grammar = IxmlGrammar::new(vec![]);
    let parser = NativeParser::new(grammar);

    let result = parser.parse("anything");
    assert!(result.is_err());
    assert!(result.unwrap_err().contains("no rules"));
}

#[test]
fn test_simple_terminal() {
    let grammar_text = "test: 'hello'.";
    let grammar = parse_ixml_grammar(grammar_text).expect("Grammar should parse");
    let parser = NativeParser::new(grammar);

    // Should match "hello"
    let result = parser.parse("hello");
    assert!(result.is_ok(), "Parse should succeed: {:?}", result);
    let xml = result.unwrap();
    println!("XML output: {}", xml);
    assert!(xml.contains("<test>"));
    assert!(xml.contains("hello"));
}

#[test]
fn test_terminal_mismatch() {
    let grammar_text = "test: 'hello'.";
    let grammar = parse_ixml_grammar(grammar_text).expect("Grammar should parse");
    let parser = NativeParser::new(grammar);

    // Should fail on "world"
    let result = parser.parse("world");
    assert!(result.is_err());
    let err = result.unwrap_err();
    println!("Error: {}", err);
    assert!(
        err.contains("No alternative matched") || err.contains("expected") || err.contains("hello")
    );
}

#[test]
fn test_simple_charclass() {
    let grammar_text = "digit: ['0'-'9'].";
    let grammar = parse_ixml_grammar(grammar_text).expect("Grammar should parse");
    let parser = NativeParser::new(grammar);

    // Should match any digit
    for digit in '0'..='9' {
        let input = digit.to_string();
        let result = parser.parse(&input);
        assert!(result.is_ok(), "Should match digit {}: {:?}", digit, result);
        let xml = result.unwrap();
        assert!(xml.contains(&digit.to_string()));
    }

    // Should fail on non-digit
    let result = parser.parse("a");
    assert!(result.is_err());
}

#[test]
fn test_nonterminal_reference() {
    let grammar_text = r#"
            test: greeting.
            greeting: 'hello'.
        "#;
    let grammar = parse_ixml_grammar(grammar_text).expect("Grammar should parse");
    let parser = NativeParser::new(grammar);

    let result = parser.parse("hello");
    assert!(result.is_ok(), "Parse should succeed: {:?}", result);
    let xml = result.unwrap();
    println!("XML output: {}", xml);
    // Remove whitespace for simpler matching
    let normalized = xml.split_whitespace().collect::<Vec<_>>().join("");
    assert!(normalized.contains("<test>"));
    assert!(normalized.contains("<greeting>"));
    assert!(normalized.contains("hello"));
}

fn parser_for(grammar: &str) -> NativeParser {
    NativeParser::new(parse_ixml_grammar(grammar).expect("grammar"))
}

#[test]
fn native_exact_xml_outputs() {
    let p = parser_for("test: greeting. greeting: 'hello'.");
    assert_eq!(p.parse("hello").unwrap(), "<test><greeting>hello</greeting></test>");
    let p = parser_for("word: ['a'-'z']+.");
    assert_eq!(p.parse("abc").unwrap(), "<word>abc</word>");
    let p = parser_for("r: 'a' -s 'b'. s: 'x'.");
    assert_eq!(p.parse("axb").unwrap(), "<r>axb</r>");
    let p = parser_for("r: @n 'b'. n: 'x'.");
    assert_eq!(p.parse("xb").unwrap(), "<r n='x'>b</r>");
    let p = parser_for("r: +'<' 'a'.");
    assert_eq!(p.parse("a").unwrap(), "<r>&lt;a</r>");
}

#[test]
fn native_trailing_input_is_an_error() {
    let p = parser_for("test: 'a'.");
    assert!(p.parse("ab").is_err());
}

#[test]
fn native_undefined_rule_is_an_error() {
    let p = parser_for("test: missing.");
    let err = p.parse("x").unwrap_err();
    assert_eq!(
        err,
        "Parse error at line 1, column 1: No alternative matched in rule 'test' (1 alternatives tried)\nContext: ...x..."
    );
}

#[test]
fn native_rule_count_counts_distinct_names() {
    let p = parser_for("a: 'x'. b: 'y'. a: 'z'.");
    assert_eq!(p.rule_count(), 2);
    assert!(p.has_rule("a"));
    assert!(p.has_rule("b"));
    assert!(!p.has_rule("c"));
}

#[test]
fn native_remaining_input_message_quotes_the_rest() {
    let p = parser_for("test: 'a'.");
    assert_eq!(p.parse("ab\"").unwrap_err(), "Parse succeeded but input remains: \"b\\\"\"");
}

#[test]
fn native_hidden_literal_leaves_empty_element() {
    let grammar = rustixml::parse_ixml_grammar("test: -'a'.").expect("grammar");
    let p = NativeParser::new(grammar);
    assert_eq!(p.parse("a").unwrap(), "<test/>");
}

#[test]
fn native_class_and_negation_split() {
    let digit = parser_for("d: ['0'-'9'].");
    let other = parser_for("n: ~['0'-'9'].");
    for c in ['5', 'a', ' '] {
        let s = c.to_string();
        assert_ne!(digit.parse(&s).is_ok(), other.parse(&s).is_ok());
    }
    assert_eq!(other.parse("a").unwrap(), "<n>a</n>");
}
