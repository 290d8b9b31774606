use rustixml::ast::{Alternatives, BaseFactor, Factor, IxmlGrammar, Mark, Repetition, Rule, Sequence};
use rustixml::grammar_analysis::GrammarAnalysis;

#[test]
fn test_detect_left_recursion() {
    // expr: expr, "+", term | term.
    let grammar = IxmlGrammar::new(vec![
        Rule::new(
            "expr".to_string(),
            Mark::Unmarked,
            Alternatives::new(vec![
                Sequence::new(vec![
                    Factor::simple(BaseFactor::nonterminal("expr".to_string())),
                    Factor::simple(BaseFactor::literal("+".to_string())),
                    Factor::simple(BaseFactor::nonterminal("term".to_string())),
                ]),
                Sequence::new(vec![Factor::simple(BaseFactor::nonterminal("term".to_string()))]),
            ]),
        ),
        Rule::new(
            "term".to_string(),
            Mark::Unmarked,
            Alternatives::single(Sequence::new(vec![Factor::simple(BaseFactor::literal(
                "x".to_string(),
            ))])),
        ),
    ]);

    let analysis = GrammarAnalysis::analyze(&grammar);

    assert!(analysis.is_left_recursive("expr"));
    assert!(!analysis.is_left_recursive("term"));
}

#[test]
fn test_no_left_recursion() {
    // number: digit+. digit: ["0"-"9"].
    let grammar = IxmlGrammar::new(vec![
        Rule::new(
            "number".to_string(),
            Mark::Unmarked,
            Alternatives::single(Sequence::new(vec![Factor::new(
                BaseFactor::nonterminal("digit".to_string()),
                Repetition::OneOrMore,
            )])),
        ),
        Rule::new(
            "digit".to_string(),
            Mark::Unmarked,
            Alternatives::single(Sequence::new(vec![Factor::simple(BaseFactor::charclass(
                "\"0\"-\"9\"".to_string(),
            ))])),
        ),
    ]);

    let analysis = GrammarAnalysis::analyze(&grammar);

    assert!(!analysis.is_left_recursive("number"));
    assert!(!analysis.is_left_recursive("digit"));
}

#[test]
fn test_complexity_calculation() {
    let grammar = IxmlGrammar::new(vec![Rule::new(
        "simple".to_string(),
        Mark::Unmarked,
        Alternatives::new(vec![
            Sequence::new(vec![Factor::simple(BaseFactor::literal("a".to_string()))]),
            Sequence::new(vec![Factor::simple(BaseFactor::literal("b".to_string()))]),
        ]),
    )]);

    let analysis = GrammarAnalysis::analyze(&grammar);

    // 2 alternatives + 2 sequences (len=1 each) + 2 factors = 6
    assert_eq!(analysis.complexity("simple"), 6);
}

#[test]
fn analysis_marks_and_unknown_names() {
    let grammar = IxmlGrammar::new(vec![
        Rule::new(
            "s".to_string(),
            Mark::Unmarked,
            Alternatives::single(Sequence::new(vec![Factor::simple(BaseFactor::nonterminal(
                "h".to_string(),
            ))])),
        ),
        Rule::new(
            "h".to_string(),
            Mark::Hidden,
            Alternatives::single(Sequence::new(vec![Factor::simple(BaseFactor::literal(
                "x".to_string(),
            ))])),
        ),
        Rule::new(
            "a".to_string(),
            Mark::Attribute,
            Alternatives::single(Sequence::new(vec![Factor::simple(BaseFactor::literal(
                "y".to_string(),
            ))])),
        ),
        Rule::new(
            "p".to_string(),
            Mark::Promoted,
            Alternatives::single(Sequence::new(vec![Factor::simple(BaseFactor::literal(
                "z".to_string(),
            ))])),
        ),
    ]);
    let analysis = GrammarAnalysis::analyze(&grammar);
    assert!(analysis.hidden_rules.contains("h"));
    assert!(analysis.attribute_rules.contains("a"));
    assert!(analysis.promoted_rules.contains("p"));
    assert!(!analysis.is_recursive("s"));
    assert_eq!(analysis.complexity("nope"), 0);
    assert!(!analysis.is_potentially_ambiguous);
}

#[test]
fn analysis_report_mentions_left_recursion() {
    let grammar = IxmlGrammar::new(vec![Rule::new(
        "e".to_string(),
        Mark::Unmarked,
        Alternatives::new(vec![
            Sequence::new(vec![
                Factor::simple(BaseFactor::nonterminal("e".to_string())),
                Factor::simple(BaseFactor::literal("+".to_string())),
            ]),
            Sequence::new(vec![Factor::simple(BaseFactor::literal("x".to_string()))]),
        ]),
    )]);
    let analysis = GrammarAnalysis::analyze(&grammar);
    assert!(analysis.is_recursive("e"));
    assert!(analysis.is_left_recursive("e"));
    let report = analysis.report();
    assert!(report.contains("e"), "{}", report);
}

fn nt_factor(name: &str) -> Factor {
    Factor::simple(BaseFactor::nonterminal(name.to_string()))
}

fn lit_factor(value: &str) -> Factor {
    Factor::simple(BaseFactor::literal(value.to_string()))
}

#[test]
fn analysis_left_recursion_through_nullable_prefix() {
    // e: n, e, "x" | "y".   n: .
    let grammar = IxmlGrammar::new(vec![
        Rule::new(
            "e".to_string(),
            Mark::Unmarked,
            Alternatives::new(vec![
                Sequence::new(vec![nt_factor("n"), nt_factor("e"), lit_factor("x")]),
                Sequence::new(vec![lit_factor("y")]),
            ]),
        ),
        Rule::new("n".to_string(), Mark::Unmarked, Alternatives::new(vec![Sequence::new(vec![])])),
    ]);
    let analysis = GrammarAnalysis::analyze(&grammar);
    assert!(analysis.is_recursive("e"));
    assert!(analysis.is_left_recursive("e"));
    assert!(!analysis.is_recursive("n"));
}

#[test]
fn analysis_long_cycle_is_recursive() {
    let names = ["a", "b", "c", "d", "e"];
    let mut rules = Vec::new();
    for (i, name) in names.iter().enumerate() {
        let next = names[(i + 1) % names.len()];
        rules.push(Rule::new(
            name.to_string(),
            Mark::Unmarked,
            Alternatives::new(vec![Sequence::new(vec![lit_factor("q"), nt_factor(next)])]),
        ));
    }
    rules.push(Rule::new(
        "z".to_string(),
        Mark::Unmarked,
        Alternatives::new(vec![Sequence::new(vec![nt_factor("a")])]),
    ));
    let analysis = GrammarAnalysis::analyze(&IxmlGrammar::new(rules));
    for name in names {
        assert!(analysis.is_recursive(name), "{}", name);
        assert!(!analysis.is_left_recursive(name), "{}", name);
    }
    assert!(!analysis.is_recursive("z"));
}

fn chain_rule(name: &str, factors: Vec<Factor>) -> Rule {
    Rule::new(name.to_string(), Mark::Unmarked, Alternatives::single(Sequence::new(factors)))
}

#[test]
fn analysis_reaching_a_cycle_is_not_recursion() {
    // a: b. b: c. c: b.
    let g = IxmlGrammar::new(vec![
        chain_rule("a", vec![nt_factor("b")]),
        chain_rule("b", vec![nt_factor("c")]),
        chain_rule("c", vec![nt_factor("b")]),
    ]);
    let analysis = GrammarAnalysis::analyze(&g);
    assert!(!analysis.is_recursive("a"));
    assert!(analysis.is_recursive("b"));
    assert!(analysis.is_recursive("c"));
    assert_eq!(analysis.recursive_rules.len(), 2);
}

#[test]
fn analysis_left_recursion_through_a_longer_cycle() {
    // a: b. b: c. c: a, "x".
    let g = IxmlGrammar::new(vec![
        chain_rule("a", vec![nt_factor("b")]),
        chain_rule("b", vec![nt_factor("c")]),
        chain_rule("c", vec![nt_factor("a"), lit_factor("x")]),
    ]);
    let analysis = GrammarAnalysis::analyze(&g);
    for name in ["a", "b", "c"] {
        assert!(analysis.is_left_recursive(name), "{}", name);
    }
    assert_eq!(analysis.left_recursive_rules.len(), 3);
}
