use rustixml::working_test::{RuleContext, RuleParser};

fn run(text: &str) -> Result<Vec<String>, String> {
    let parser = RuleParser::new();
    let mut ctx = RuleContext::new();
    for ch in text.chars() {
        ctx.feed(&parser, ch, &mut ())?;
    }
    ctx.accept(&parser, &mut ())
}

#[test]
fn test_clear_insertion() {
    let parser = RuleParser::new();
    let mut ctx = RuleContext::new();

    for ch in r#"+"hello""#.chars() {
        ctx.feed(&parser, ch, &mut ()).unwrap();
    }

    let results: Vec<String> = ctx.accept(&parser, &mut ()).unwrap();
    println!("Clear insertion results: {:?}", results);
    assert!(results.len() > 0);
    assert!(results[0].contains("INSERT:hello"));
}

#[test]
fn test_clear_repeat1() {
    let parser = RuleParser::new();
    let mut ctx = RuleContext::new();

    for ch in "foo+".chars() {
        ctx.feed(&parser, ch, &mut ()).unwrap();
    }

    let results: Vec<String> = ctx.accept(&parser, &mut ()).unwrap();
    println!("Clear repeat1 results: {:?}", results);
    assert!(results.len() > 0);
    assert!(results[0].contains("REPEAT1:NT:foo"));
}

#[test]
fn test_two_factors() {
    let parser = RuleParser::new();
    let mut ctx = RuleContext::new();

    for ch in "foo".chars() {
        ctx.feed(&parser, ch, &mut ()).unwrap();
    }

    let results: Vec<String> = ctx.accept(&parser, &mut ()).unwrap();
    println!("Single factor results: {:?}", results);
    assert!(results.len() > 0);
    assert!(results[0].contains("NT:foo"));
}

#[test]
fn working_test_exact_values() {
    assert_eq!(run("foo").unwrap(), vec!["NT:foo".to_string()]);
    assert_eq!(run("foo+").unwrap(), vec!["REPEAT1:NT:foo".to_string()]);
    assert_eq!(run("+\"hi\"").unwrap(), vec!["INSERT:hi".to_string()]);
}

#[test]
fn working_test_rejections() {
    assert!(run("").is_err());
    assert!(run("+").is_err());
    assert!(run("foo+x").is_err());
    assert!(run("1").is_err());
}
