use earlgrey::EarleyParser;
use rustixml::grammar_ast::parse_ixml_grammar;
use rustixml::runtime_parser::ast_to_earlgrey;

#[test]
fn test_ast_to_earlgrey_simple() {
    let ixml = r#"choice: "a" | "b"."#;
    let ast = parse_ixml_grammar(ixml).expect("Failed to parse iXML grammar");
    let builder = ast_to_earlgrey(&ast).expect("Failed to convert to Earlgrey");
    let grammar = builder.into_grammar("choice").expect("Failed to build grammar");
    let parser = EarleyParser::new(grammar);
    let input = vec!["a"];
    let result = parser.parse(input.into_iter());
    assert!(result.is_ok(), "Failed to parse 'a'");
    let input = vec!["b"];
    let result = parser.parse(input.into_iter());
    assert!(result.is_ok(), "Failed to parse 'b'");
}

#[test]
fn test_ast_to_earlgrey_sequence() {
    let ixml = r#"greeting: "hello" "world"."#;
    let ast = parse_ixml_grammar(ixml).expect("Failed to parse iXML grammar");
    let builder = ast_to_earlgrey(&ast).expect("Failed to convert to Earlgrey");
    let grammar = builder.into_grammar("greeting").expect("Failed to build grammar");
    let parser = EarleyParser::new(grammar);
    let input_str = "helloworld";
    let tokens: Vec<String> = input_str.chars().map(|c| c.to_string()).collect();
    let result = parser.parse(tokens.iter().map(|s| s.as_str()));
    assert!(result.is_ok(), "Failed to parse 'helloworld'");
}

#[test]
fn earley_grammar_with_classes_and_repetition() {
    let ast = parse_ixml_grammar("word: letter+. letter: [\"a\"-\"z\"].").expect("grammar");
    let builder = ast_to_earlgrey(&ast).expect("convert");
    let grammar = builder.into_grammar("word").expect("build");
    let parser = EarleyParser::new(grammar);
    assert!(parser.parse(vec!["a", "b", "c"].into_iter()).is_ok());
    assert!(parser.parse(vec!["a", "B"].into_iter()).is_err());
}

#[test]
fn earley_grammar_refuses_other_input() {
    let ast = parse_ixml_grammar(r#"choice: "a" | "b"."#).expect("grammar");
    let grammar = ast_to_earlgrey(&ast).expect("convert").into_grammar("choice").expect("build");
    let parser = EarleyParser::new(grammar);
    assert!(parser.parse(vec!["c"].into_iter()).is_err());
}
