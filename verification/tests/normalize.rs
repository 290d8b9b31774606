use rustixml::ast::{Alternatives, BaseFactor, Factor, IxmlGrammar, Mark, Repetition, Rule, Sequence};
use rustixml::normalize::{find_recursive_rules, normalize_grammar};

#[test]
fn test_direct_recursion_detection() {
    // expr: expr, "+", term | term.
    let grammar = IxmlGrammar::new(vec![
        Rule::new(
            "expr".to_string(),
            Mark::Unmarked,
            Alternatives::new(vec![
                Sequence::new(vec![
                    Factor::simple(BaseFactor::nonterminal("expr".to_string())),
                    Factor::simple(BaseFactor::literal("+".to_string())),
                    Factor::simple(BaseFactor::nonterminal("term".to_string())),
                ]),
                Sequence::new(vec![Factor::simple(BaseFactor::nonterminal("term".to_string()))]),
            ]),
        ),
        Rule::new(
            "term".to_string(),
            Mark::Unmarked,
            Alternatives::single(Sequence::new(vec![Factor::simple(BaseFactor::literal(
                "x".to_string(),
            ))])),
        ),
    ]);

    let recursive = find_recursive_rules(&grammar);

    assert!(recursive.contains("expr"));
    assert!(!recursive.contains("term"));
}

#[test]
fn test_indirect_recursion_detection() {
    // a: b. b: c. c: a.
    let grammar = IxmlGrammar::new(vec![
        Rule::new(
            "a".to_string(),
            Mark::Unmarked,
            Alternatives::single(Sequence::new(vec![Factor::simple(BaseFactor::nonterminal(
                "b".to_string(),
            ))])),
        ),
        Rule::new(
            "b".to_string(),
            Mark::Unmarked,
            Alternatives::single(Sequence::new(vec![Factor::simple(BaseFactor::nonterminal(
                "c".to_string(),
            ))])),
        ),
        Rule::new(
            "c".to_string(),
            Mark::Unmarked,
            Alternatives::single(Sequence::new(vec![Factor::simple(BaseFactor::nonterminal(
                "a".to_string(),
            ))])),
        ),
    ]);

    let recursive = find_recursive_rules(&grammar);

    // All three rules are mutually recursive
    assert!(recursive.contains("a"));
    assert!(recursive.contains("b"));
    assert!(recursive.contains("c"));
}

#[test]
fn test_simple_inlining() {
    // number: digit+. digit: ["0"-"9"].
    // After normalization: number: ["0"-"9"]+.
    let grammar = IxmlGrammar::new(vec![
        Rule::new(
            "number".to_string(),
            Mark::Unmarked,
            Alternatives::single(Sequence::new(vec![Factor::new(
                BaseFactor::nonterminal("digit".to_string()),
                Repetition::OneOrMore,
            )])),
        ),
        Rule::new(
            "digit".to_string(),
            Mark::Unmarked,
            Alternatives::single(Sequence::new(vec![Factor::simple(BaseFactor::charclass(
                "\"0\"-\"9\"".to_string(),
            ))])),
        ),
    ]);

    let normalized = normalize_grammar(&grammar);

    // Should keep start rule and inline digit
    assert_eq!(normalized.rules.len(), 1);
    assert_eq!(normalized.rules[0].name, "number");

    // Check that digit was inlined
    let first_alt = &normalized.rules[0].alternatives.alts[0];
    let first_factor = &first_alt.factors[0];
    assert_eq!(first_factor.repetition, Repetition::OneOrMore);

    // The base should be a group containing the inlined digit rule
    match &first_factor.base {
        BaseFactor::Group { alternatives } => {
            assert_eq!(alternatives.alts.len(), 1);
        }
        _ => panic!("Expected a Group after inlining"),
    }
}

fn nt(name: &str) -> Factor {
    Factor::simple(BaseFactor::nonterminal(name.to_string()))
}

fn rule(name: &str, factors: Vec<Factor>) -> Rule {
    Rule::new(name.to_string(), Mark::Unmarked, Alternatives::single(Sequence::new(factors)))
}

#[test]
fn normalize_keeps_recursive_rules() {
    let grammar = IxmlGrammar::new(vec![
        rule("s", vec![nt("list")]),
        rule("list", vec![Factor::simple(BaseFactor::literal("x".to_string())), Factor::new(
            BaseFactor::nonterminal("list".to_string()),
            Repetition::Optional,
        )]),
    ]);
    let normalized = normalize_grammar(&grammar);
    assert_eq!(normalized.rules.len(), 2);
    assert_eq!(normalized.rules[0].name, "s");
    assert_eq!(normalized.rules[1].name, "list");
    let f = &normalized.rules[0].alternatives.alts[0].factors[0];
    assert_eq!(f.base, BaseFactor::nonterminal("list".to_string()));
}

#[test]
fn normalize_empty_grammar() {
    let normalized = normalize_grammar(&IxmlGrammar::new(vec![]));
    assert_eq!(normalized.rules.len(), 0);
}

#[test]
fn recursion_not_reported_for_plain_chain() {
    let grammar = IxmlGrammar::new(vec![rule("a", vec![nt("b")]), rule("b", vec![nt("c")])]);
    let recursive = find_recursive_rules(&grammar);
    assert!(recursive.is_empty());
}
