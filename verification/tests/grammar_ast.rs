use rustixml::ast::{BaseFactor, Mark, Repetition};
use rustixml::grammar_ast::parse_ixml_grammar;

#[test]
fn grammar_ast_test_rule_with_literal() {
    let input = r#"rule: "hello"."#;
    let result = parse_ixml_grammar(input);
    println!("Parse result: {:?}", result);
    assert!(result.is_ok());
    let grammar = result.unwrap();
    assert_eq!(grammar.rules.len(), 1);
    assert_eq!(grammar.rules[0].name, "rule");
}

#[test]
fn grammar_ast_test_rule_with_nonterminal() {
    let input = "rule: body.";
    let result = parse_ixml_grammar(input);
    assert!(result.is_ok());
}

#[test]
fn grammar_ast_test_rule_with_alternatives() {
    let input = r#"rule: "hello" | "world"."#;
    let result = parse_ixml_grammar(input);
    assert!(result.is_ok());
    let grammar = result.unwrap();
    assert_eq!(grammar.rules[0].alternatives.alts.len(), 2);
}

#[test]
fn grammar_ast_test_multiple_rules() {
    let input = r#"
            rule1: "hello".
            rule2: "world".
        "#;
    let result = parse_ixml_grammar(input);
    assert!(result.is_ok());
    let grammar = result.unwrap();
    assert_eq!(grammar.rules.len(), 2);
}

#[test]
fn test_repetition() {
    let input = r#"list: item+."#;
    let result = parse_ixml_grammar(input);
    assert!(result.is_ok());
    let grammar = result.unwrap();
    let first_factor = &grammar.rules[0].alternatives.alts[0].factors[0];
    assert_eq!(first_factor.repetition, Repetition::OneOrMore);
}

#[test]
fn test_marks() {
    let input = "element: @id -sep ^content.";
    let result = parse_ixml_grammar(input);
    assert!(result.is_ok());
    let grammar = result.unwrap();
    let factors = &grammar.rules[0].alternatives.alts[0].factors;
    match &factors[0].base {
        BaseFactor::Nonterminal { mark, .. } => assert_eq!(*mark, Mark::Attribute),
        _ => panic!("Expected nonterminal"),
    }
}

#[test]
fn test_insertion() {
    let input = r#"tag: +"<"."#;
    let result = parse_ixml_grammar(input);
    assert!(result.is_ok());
    let grammar = result.unwrap();
    let factor = &grammar.rules[0].alternatives.alts[0].factors[0];
    match &factor.base {
        BaseFactor::Literal { insertion, .. } => assert!(*insertion),
        _ => panic!("Expected literal"),
    }
}

#[test]
fn test_character_class() {
    let input = r#"digit: ['0'-'9']."#;
    let result = parse_ixml_grammar(input);
    assert!(result.is_ok());
}

#[test]
fn test_grouping() {
    let input = r#"rule: ("a" | "b")+."#;
    let result = parse_ixml_grammar(input);
    assert!(result.is_ok());
    let grammar = result.unwrap();
    let factor = &grammar.rules[0].alternatives.alts[0].factors[0];
    assert_eq!(factor.repetition, Repetition::OneOrMore);
    match &factor.base {
        BaseFactor::Group { alternatives } => assert_eq!(alternatives.alts.len(), 2),
        _ => panic!("Expected group"),
    }
}

#[test]
fn grammar_ast_marks_and_negation() {
    let g = parse_ixml_grammar("r: ~['a'] @x \"y\"* z?.").unwrap();
    assert_eq!(g.rules[0].mark, Mark::Unmarked);
    let f = &g.rules[0].alternatives.alts[0].factors;
    assert_eq!(f.len(), 4);
    match &f[0].base {
        BaseFactor::CharClass { content, negated, mark } => {
            assert_eq!(content, "'a'");
            assert!(*negated);
            assert_eq!(*mark, Mark::Unmarked);
        }
        _ => panic!("expected class"),
    }
    match &f[2].base {
        BaseFactor::Literal { value, insertion, mark } => {
            assert_eq!(value, "y");
            assert!(!*insertion);
            assert_eq!(*mark, Mark::Unmarked);
        }
        _ => panic!("expected literal"),
    }
    assert_eq!(f[2].repetition, Repetition::ZeroOrMore);
    assert_eq!(f[3].repetition, Repetition::Optional);
}

#[test]
fn grammar_ast_errors() {
    assert!(parse_ixml_grammar("").is_err());
    assert!(parse_ixml_grammar("rule \"x\".").is_err());
    assert!(parse_ixml_grammar("rule: \"x\"").is_err());
    assert!(parse_ixml_grammar("rule: \"x").is_err());
}

#[test]
fn grammar_ast_rejects_empty_alternative_and_rule_marks() {
    assert!(parse_ixml_grammar("r: | \"a\".").is_err());
    assert!(parse_ixml_grammar("-r: \"a\".").is_err());
}

#[test]
fn grammar_ast_error_messages() {
    assert_eq!(
        parse_ixml_grammar("rule: \"x\"").unwrap_err(),
        "Accept error: unexpected end of input"
    );
    assert_eq!(
        parse_ixml_grammar("rule \"x\".").unwrap_err(),
        "Parse error: unexpected token at index 1"
    );
    assert_eq!(parse_ixml_grammar("rule: \"x").unwrap_err(), "Unterminated string");
}
