use rustixml::{parse_ixml_grammar, NativeParser};

#[test]
fn readme_quick_start() {
    let grammar = r#"
        greeting: "Hello, ", name, "!".
        name: letter+.
        letter: ["A"-"Z"; "a"-"z"].
    "#;
    let ast = parse_ixml_grammar(grammar).expect("grammar");
    let parser = NativeParser::new(ast);
    let xml = parser.parse("Hello, World!").expect("parse");
    println!("{}", xml);
    assert_eq!(xml, "<greeting>Hello, <name>World</name>!</greeting>");
}

#[test]
fn char_rule_at_the_top_is_an_element() {
    let ast = parse_ixml_grammar("digit: ['0'-'9'].").expect("grammar");
    let parser = NativeParser::new(ast);
    assert_eq!(parser.parse("7").expect("parse"), "<digit>7</digit>");
}

#[test]
fn rule_with_more_than_a_class_stays_an_element() {
    let ast = parse_ixml_grammar("pair: d, d. d: ['0'-'9'], 'x'.").expect("grammar");
    let parser = NativeParser::new(ast);
    assert_eq!(parser.parse("1x2x").expect("parse"), "<pair><d>1x</d><d>2x</d></pair>");
}
