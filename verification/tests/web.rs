use rustixml::testsuite_utils::{expects_failure, TestCase};
use rustixml::web::{escape_html, escape_js_string};

#[test]
fn html_escaping() {
    assert_eq!(escape_html("<a b='1'>x & y</a>"), "&lt;a b='1'&gt;x &amp; y&lt;/a&gt;");
    assert_eq!(escape_html(""), "");
}

#[test]
fn js_string_escaping() {
    assert_eq!(escape_js_string("a \"q\"\\\n\r"), "a \\\"q\\\"\\\\\\n\\r");
}

#[test]
fn test_case_failure_expectation() {
    assert!(expects_failure("xpath"));
    assert!(expects_failure("url1"));
    assert!(!expects_failure("aaa"));
    let t = TestCase::new("parse-error", "g".to_string(), "i".to_string(), None);
    assert!(t.expect_failure);
    assert_eq!(t.name, "parse-error");
    let t = TestCase::new("aaa", "g".to_string(), "i".to_string(), Some("x".to_string()));
    assert!(!t.expect_failure);
    assert_eq!(t.expected_xml.as_deref(), Some("x"));
}

use rustixml::runtime_parser::XmlNode;
use rustixml::testsuite_utils::{test_outcome, TestOutcome};

fn greeting() -> XmlNode {
    XmlNode::Element {
        name: "greeting".to_string(),
        attributes: vec![],
        children: vec![XmlNode::Text("hello".to_string())],
    }
}

#[test]
fn outcome_of_rejected_inputs() {
    assert!(matches!(test_outcome(true, Err("no".to_string()), None, false), TestOutcome::Pass));
    match test_outcome(false, Err("Parse error: x".to_string()), None, false) {
        TestOutcome::InputParseError(e) => assert_eq!(e, "Parse error: x"),
        other => panic!("{:?}", other),
    }
}

#[test]
fn outcome_of_accepted_inputs() {
    match test_outcome(true, Ok(Ok(greeting())), None, false) {
        TestOutcome::Fail { expected, actual } => {
            assert_eq!(expected, "(parse failure expected)");
            assert_eq!(actual, "(parse succeeded)");
        }
        other => panic!("{:?}", other),
    }
    match test_outcome(false, Ok(Err("XML generation error: y".to_string())), None, false) {
        TestOutcome::InputParseError(e) => assert_eq!(e, "XML generation error: y"),
        other => panic!("{:?}", other),
    }
    assert!(matches!(test_outcome(false, Ok(Ok(greeting())), None, false), TestOutcome::Pass));
    let expected = Some("  <greeting>hello</greeting>\n".to_string());
    assert!(matches!(test_outcome(false, Ok(Ok(greeting())), expected, false), TestOutcome::Pass));
    let other = Some("<greeting>bye</greeting>".to_string());
    assert!(matches!(test_outcome(false, Ok(Ok(greeting())), other.clone(), true), TestOutcome::Pass));
    match test_outcome(false, Ok(Ok(greeting())), other, false) {
        TestOutcome::Fail { expected, actual } => {
            assert_eq!(expected, "<greeting>bye</greeting>");
            assert_eq!(actual, "<greeting>hello</greeting>");
        }
        r => panic!("{:?}", r),
    }
}
