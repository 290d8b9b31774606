use rustixml::runtime_parser::XmlNode as TreeNode;
use rustixml::xml_node::XmlNode;

fn el(name: &str, attributes: Vec<(String, String)>, children: Vec<XmlNode>) -> XmlNode {
    XmlNode::Element { name: name.to_string(), attributes, children }
}

fn tel(name: &str, attributes: Vec<(String, String)>, children: Vec<TreeNode>) -> TreeNode {
    TreeNode::Element { name: name.to_string(), attributes, children }
}

#[test]
fn compact_xml_of_nested_elements() {
    let n = el(
        "a",
        vec![("k".to_string(), "v&\"".to_string())],
        vec![el("b", vec![], vec![XmlNode::Text("x<y".to_string())]), el("c", vec![], vec![])],
    );
    assert_eq!(n.to_xml(), "<a k='v&amp;\"'><b>x&lt;y</b><c/></a>");
}

#[test]
fn compact_xml_skips_attribute_nodes() {
    let n = el(
        "a",
        vec![],
        vec![XmlNode::Attribute { name: "n".to_string(), value: "v".to_string() }],
    );
    assert_eq!(n.to_xml(), "<a></a>");
}

#[test]
fn text_content_concatenates() {
    let n = el(
        "a",
        vec![],
        vec![XmlNode::Text("x".to_string()), el("b", vec![], vec![XmlNode::Text("y".to_string())])],
    );
    assert_eq!(n.text_content(), "xy");
}

#[test]
fn canonical_xml_text_only_root() {
    let n = tel("a", vec![("k".to_string(), "v".to_string())], vec![TreeNode::Text("x".to_string())]);
    assert_eq!(n.to_xml(), "<a k='v'>x</a>");
}

#[test]
fn canonical_xml_nested_element() {
    let n = tel("a", vec![], vec![tel("b", vec![], vec![TreeNode::Text("x".to_string())])]);
    assert_eq!(n.to_xml(), "<a\n   ><b>x</b\n></a>");
}

#[test]
fn canonical_xml_self_closing_child() {
    let n = tel("a", vec![], vec![tel("b", vec![], vec![])]);
    assert_eq!(n.to_xml(), "<a\n   ><b\n/></a>");
}

#[test]
fn canonical_xml_hidden_wrapper_is_transparent() {
    let n = tel(
        "a",
        vec![],
        vec![tel("__hidden__", vec![], vec![TreeNode::Text("x".to_string())])],
    );
    assert_eq!(n.to_xml(), "<a>x</a>");
    let n = tel(
        "a",
        vec![],
        vec![
            TreeNode::Text("p".to_string()),
            tel("__promoted__", vec![], vec![TreeNode::Text("&q".to_string())]),
        ],
    );
    assert_eq!(n.to_xml(), "<a>p&amp;q</a>");
    let w = tel("__hidden__", vec![], vec![TreeNode::Text("x".to_string())]);
    assert_eq!(w.to_xml(), "x");
}

#[test]
fn canonical_xml_empty_root_is_closed() {
    assert_eq!(tel("a", vec![], vec![]).to_xml(), "<a/>");
    assert_eq!(tel("a", vec![("k".to_string(), "v".to_string())], vec![]).to_xml(), "<a k='v'/>");
}

#[test]
fn canonical_xml_wrapper_around_an_element() {
    let n = tel(
        "a",
        vec![],
        vec![tel(
            "__hidden__",
            vec![],
            vec![tel("b", vec![], vec![TreeNode::Text("x".to_string())])],
        )],
    );
    assert_eq!(n.to_xml(), "<a\n   ><b>x</b\n></a>");
}
