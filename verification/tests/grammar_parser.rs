use rustixml::ast::{BaseFactor, Mark, Repetition};
use rustixml::grammar_parser::{parse_ixml_grammar, Parser};
use rustixml::lexer::{Lexer, Token};

#[test]
fn grammar_parser_marks_and_factors() {
    let g = parse_ixml_grammar("-r: @a, -\"b\", ^[x], ~['y'], +\"z\".").unwrap();
    assert_eq!(g.rules.len(), 1);
    assert_eq!(g.rules[0].mark, Mark::Hidden);
    let f = &g.rules[0].alternatives.alts[0].factors;
    assert_eq!(f.len(), 5);
    assert_eq!(f[0].base, BaseFactor::marked_nonterminal("a".to_string(), Mark::Attribute));
    assert_eq!(f[1].base, BaseFactor::marked_literal("b".to_string(), Mark::Hidden));
    assert_eq!(f[2].base, BaseFactor::marked_charclass("x".to_string(), false, Mark::Promoted));
    assert_eq!(f[3].base, BaseFactor::negated_charclass("'y'".to_string()));
    assert_eq!(f[4].base, BaseFactor::insertion("z".to_string()));
}

#[test]
fn grammar_parser_sequences_and_alternatives() {
    let g = parse_ixml_grammar("r: a, b | c d; . s: (x | y)*, z?.").unwrap();
    assert_eq!(g.rules.len(), 2);
    let alts = &g.rules[0].alternatives.alts;
    assert_eq!(alts.len(), 3);
    assert_eq!(alts[0].factors.len(), 2);
    assert_eq!(alts[1].factors.len(), 2);
    assert_eq!(alts[2].factors.len(), 0);
    let f = &g.rules[1].alternatives.alts[0].factors;
    assert_eq!(f[0].repetition, Repetition::ZeroOrMore);
    assert_eq!(f[1].repetition, Repetition::Optional);
    match &f[0].base {
        BaseFactor::Group { alternatives } => assert_eq!(alternatives.alts.len(), 2),
        _ => panic!("expected group"),
    }
}

#[test]
fn grammar_parser_error_messages() {
    assert_eq!(parse_ixml_grammar("").unwrap_err(), "Grammar must contain at least one rule");
    assert_eq!(parse_ixml_grammar("r \"x\".").unwrap_err(), "Expected ':' after rule name 'r'");
    assert_eq!(parse_ixml_grammar("r: \"x\"").unwrap_err(), "Expected '.' at end of rule 'r'");
    assert_eq!(parse_ixml_grammar("\"x\": a.").unwrap_err(), "Expected identifier, got String(\"x\")");
    assert_eq!(parse_ixml_grammar("r: +a.").unwrap_err(), "Expected string after '+', got Ident(\"a\")");
    assert_eq!(
        parse_ixml_grammar("r: ~a.").unwrap_err(),
        "Expected character class after '~', got Ident(\"a\")"
    );
    assert_eq!(parse_ixml_grammar("r: (a.").unwrap_err(), "Expected ')' after grouped alternatives");
    assert_eq!(
        parse_ixml_grammar("r: @.").unwrap_err(),
        "Expected string, hex char, character class, or identifier after mark, got Some(Period)"
    );
    assert_eq!(parse_ixml_grammar("r: :.").unwrap_err(), "Expected factor, got Some(Colon)");
    assert_eq!(parse_ixml_grammar("r: #.").unwrap_err(), "Lexer error: Unexpected character: #");
}

#[test]
fn grammar_parser_over_tokens() {
    let tokens = Lexer::new("a: b.").tokenize().unwrap();
    let kept: Vec<Token> = tokens.into_iter().filter(|t| *t != Token::Eof).collect();
    let mut parser = Parser::new(kept);
    let g = parser.parse_grammar().unwrap();
    assert_eq!(g.rules[0].name, "a");
    assert_eq!(g.rules[0].alternatives.alts[0].factors[0].base, BaseFactor::nonterminal("b".to_string()));
}
