use rustixml::parse_context::{NameSet, ParseContext, ParseError, ParseResult};
use rustixml::xml_node::XmlNode;

#[test]
fn test_context_new() {
    let ctx = ParseContext::new();
    assert_eq!(ctx.depth, 0);
    assert!(ctx.left_recursion.is_empty());
}

#[test]
fn test_enter_exit_rule() {
    let mut ctx = ParseContext::new();

    assert!(ctx.enter_rule("test"));
    assert_eq!(ctx.depth, 1);
    assert_eq!(ctx.rule_name, "test");
    assert!(ctx.left_recursion.contains("test"));

    // Direct left recursion should fail (but depth still increments)
    assert!(!ctx.enter_rule("test"));
    assert_eq!(ctx.depth, 2); // Depth incremented even though recursion detected

    ctx.exit_rule("test");
    assert_eq!(ctx.depth, 1); // Back to level 1

    ctx.exit_rule("test");
    assert_eq!(ctx.depth, 0);
    assert!(!ctx.left_recursion.contains("test"));
}

#[test]
fn test_nested_rules() {
    let mut ctx = ParseContext::new();

    assert!(ctx.enter_rule("rule1"));
    assert!(ctx.enter_rule("rule2"));
    assert_eq!(ctx.depth, 2);
    assert!(ctx.left_recursion.contains("rule1"));
    assert!(ctx.left_recursion.contains("rule2"));

    ctx.exit_rule("rule2");
    assert_eq!(ctx.depth, 1);
    assert!(!ctx.left_recursion.contains("rule2"));

    ctx.exit_rule("rule1");
    assert_eq!(ctx.depth, 0);
}

#[test]
fn test_parse_result_constructors() {
    let node = XmlNode::Text("test".to_string());

    let result1 = ParseResult::new(Some(node.clone()), 4);
    assert!(result1.node.is_some());
    assert_eq!(result1.consumed, 4);

    let result2 = ParseResult::suppressed(5);
    assert!(result2.node.is_none());
    assert_eq!(result2.consumed, 5);

    let result3 = ParseResult::with_node(node.clone(), 3);
    assert!(result3.node.is_some());
    assert_eq!(result3.consumed, 3);

    let result4 = ParseResult::insertion(node);
    assert!(result4.node.is_some());
    assert_eq!(result4.consumed, 0);
}

#[test]
fn name_set_insert_remove() {
    let mut set = NameSet::new();
    assert!(set.is_empty());
    assert!(set.insert("a"));
    assert!(!set.insert("a"));
    assert!(set.insert("b"));
    assert_eq!(set.len(), 2);
    assert!(set.contains("a"));
    set.remove("a");
    assert!(!set.contains("a"));
    assert!(set.contains("b"));
    assert_eq!(set.len(), 1);
    set.remove("zzz");
    assert_eq!(set.len(), 1);
}

#[test]
fn context_positioned_entries() {
    let mut ctx = ParseContext::new();
    assert!(ctx.enter_rule_at("r", 0));
    assert!(ctx.enter_rule_at("r", 1));
    assert!(!ctx.enter_rule_at("r", 1));
    assert_eq!(ctx.depth, 3);
    ctx.exit_rule_at("r", 1);
    assert!(ctx.enter_rule_at("r", 1));
}

#[test]
fn context_depth_never_negative() {
    let mut ctx = ParseContext::new();
    ctx.exit_rule("nothing");
    assert_eq!(ctx.depth, 0);
}

#[test]
fn parse_error_messages() {
    let e = ParseError::TerminalMismatch {
        expected: "hello".to_string(),
        actual: "world".to_string(),
        position: 0,
    };
    assert_eq!(e.message(), "Expected 'hello' but found 'world'");
    assert_eq!(e.position(), 0);
    let e = ParseError::UnexpectedEof { position: 3, expected: "x".to_string() };
    assert_eq!(e.message(), "Unexpected EOF, expected x");
    let e = ParseError::CharClassMismatch {
        charclass: "'0'-'9'".to_string(),
        negated: true,
        actual: '5',
        position: 2,
    };
    assert_eq!(e.message(), "Expected not ['0'-'9'] but found '5'");
    let e = ParseError::NoAlternativeMatched { position: 0, rule: "r".to_string(), attempts: 12 };
    assert_eq!(e.message(), "No alternative matched in 'r' (12 tried)");
    let e = ParseError::UndefinedRule { rule: "q".to_string(), position: 1 };
    assert_eq!(e.message(), "Undefined rule 'q'");
    assert_eq!(e.position(), 1);
    let e = ParseError::LeftRecursion { rule: "q".to_string(), position: 1 };
    assert_eq!(e.message(), "Left recursion in rule 'q'");
    let e = ParseError::Custom { message: "boom".to_string(), position: 9 };
    assert_eq!(e.message(), "boom");
    assert_eq!(e.position(), 9);
}

#[test]
fn parse_error_format_with_context() {
    let e = ParseError::TerminalMismatch {
        expected: "b".to_string(),
        actual: "c".to_string(),
        position: 4,
    };
    assert_eq!(
        e.format_with_context("ab\nacd"),
        "Parse error at line 2, column 2: Expected 'b' but found 'c'\nContext: ...ab\nacd..."
    );
    let e = ParseError::UndefinedRule { rule: "x".to_string(), position: 0 };
    assert_eq!(e.format_with_context(""), "Parse error at line 1, column 1: Undefined rule 'x'");
}
