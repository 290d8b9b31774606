use rustixml::forest::{register_rule_actions, repetition_action_node, rule_action_node, text_leaf, RepAction};
use rustixml::parse_ixml_grammar;
use rustixml::runtime_parser::XmlNode;

fn el(name: &str, attributes: Vec<(String, String)>, children: Vec<XmlNode>) -> XmlNode {
    XmlNode::Element { name: name.to_string(), attributes, children }
}

fn txt(s: &str) -> XmlNode {
    XmlNode::Text(s.to_string())
}

fn container(children: Vec<XmlNode>) -> XmlNode {
    el("_repeat_container", vec![], children)
}

#[test]
fn container_action_gathers_its_nodes() {
    let r = repetition_action_node(RepAction::Container, vec![txt("a"), txt("b")]);
    assert_eq!(r, container(vec![txt("a"), txt("b")]));
    let r = repetition_action_node(RepAction::Container, vec![]);
    assert_eq!(r, container(vec![]));
}

#[test]
fn append_action_extends_the_container() {
    let left = container(vec![txt("a"), txt("b")]);
    let r = repetition_action_node(RepAction::Append, vec![left, txt("c")]);
    assert_eq!(r, container(vec![txt("a"), txt("b"), txt("c")]));
}

#[test]
fn append_action_drops_the_attributes_of_a_left_element() {
    let left = el("x", vec![("k".to_string(), "v".to_string())], vec![txt("1")]);
    let r = repetition_action_node(RepAction::Append, vec![left, txt("2")]);
    assert_eq!(r, container(vec![el("x", vec![], vec![txt("1")]), txt("2")]));
}

#[test]
fn append_action_with_one_node_only_gathers() {
    let r = repetition_action_node(RepAction::Append, vec![txt("z")]);
    assert_eq!(r, container(vec![txt("z")]));
}

#[test]
fn separated_append_keeps_the_separators() {
    let left = container(vec![txt("1")]);
    let r = repetition_action_node(RepAction::AppendSeparated(1), vec![left, txt(","), txt("2")]);
    assert_eq!(r, container(vec![txt("1"), txt(","), txt("2")]));
}

#[test]
fn separated_append_without_a_left_part() {
    let r = repetition_action_node(RepAction::AppendSeparated(2), vec![txt(","), txt("2")]);
    assert_eq!(r, container(vec![txt(","), txt("2")]));
    let r = repetition_action_node(RepAction::AppendSeparated(0), vec![]);
    assert_eq!(r, container(vec![]));
}

#[test]
fn rule_action_applies_the_nonterminal_marks() {
    let g = parse_ixml_grammar("r: a, -b, @c. a: 'x'. b: 'y'. c: 'z'.").expect("grammar");
    let rule = &g.rules[0];
    let nodes = vec![
        el("a", vec![], vec![txt("x")]),
        el("b", vec![], vec![txt("y")]),
        el("c", vec![], vec![txt("z")]),
    ];
    let r = rule_action_node(rule, 0, nodes);
    assert_eq!(
        r,
        el("r", vec![("c".to_string(), "z".to_string())], vec![el("a", vec![], vec![txt("x")]), txt("y")])
    );
}

#[test]
fn rule_action_takes_containers_apart() {
    let g = parse_ixml_grammar("r: 'x'+, 'y'.").expect("grammar");
    let rule = &g.rules[0];
    let nodes = vec![
        container(vec![txt("x"), container(vec![txt("x")])]),
        el("_hidden", vec![], vec![txt("y"), el("q", vec![], vec![])]),
        XmlNode::Attribute { name: "k".to_string(), value: "v".to_string() },
    ];
    let r = rule_action_node(rule, 0, nodes);
    assert_eq!(r, el("r", vec![("k".to_string(), "v".to_string())], vec![txt("x"), txt("x"), txt("y")]));
}

#[test]
fn rule_action_of_marked_rules() {
    let g = parse_ixml_grammar("-h: 'a'. @t: 'b'. ^p: 'c'.").expect("grammar");
    let one = rule_action_node(&g.rules[0], 0, vec![txt("a")]);
    assert_eq!(one, txt("a"));
    let two = rule_action_node(&g.rules[0], 0, vec![txt("a"), txt("b")]);
    assert_eq!(two, el("__hidden__", vec![], vec![txt("a"), txt("b")]));
    let attr = rule_action_node(&g.rules[1], 0, vec![el("x", vec![], vec![txt("b")]), txt("c")]);
    assert_eq!(attr, XmlNode::Attribute { name: "t".to_string(), value: "bc".to_string() });
    let prom = rule_action_node(&g.rules[2], 0, vec![]);
    assert_eq!(prom, el("__promoted__", vec![], vec![]));
}

#[test]
fn text_leaf_is_the_token() {
    assert_eq!(text_leaf("ab"), txt("ab"));
}

#[test]
fn registering_counts_the_groups() {
    let g = parse_ixml_grammar("r: ('a' | 'b')+, ('c')?.").expect("grammar");
    let mut forest = earlgrey::EarleyForest::new(|_s: &str, t: &str| text_leaf(t));
    let mut counter: usize = 0;
    register_rule_actions(&mut forest, &g.rules[0], &mut counter);
    assert_eq!(counter, 2);
}
