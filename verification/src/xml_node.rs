//! XML node representation for parse results.
//!
//! The native parser produces a tree of these nodes; `to_xml` writes it in
//! compact form.
use vstd::prelude::*;

use crate::text::{append_str, push_char};

verus! {

/// XML node types for parse results.
#[derive(Debug, PartialEq)]
pub enum XmlNode {
    Element { name: String, attributes: Vec<(String, String)>, children: Vec<XmlNode> },
    Text(String),
    /// Produced by an `@` mark; the enclosing element turns it into an attribute.
    Attribute { name: String, value: String },
}

/// The mathematical view of an XML node.
pub enum XmlV {
    Element { name: Seq<char>, attributes: Seq<(Seq<char>, Seq<char>)>, children: Seq<XmlV> },
    Text(Seq<char>),
    Attribute { name: Seq<char>, value: Seq<char> },
}

pub open spec fn attrs_view(a: Seq<(String, String)>) -> Seq<(Seq<char>, Seq<char>)> {
    a.map_values(|p: (String, String)| (p.0@, p.1@))
}

pub open spec fn xml_view(n: XmlNode) -> XmlV
    decreases n,
{
    match n {
        XmlNode::Element { name, attributes, children } => XmlV::Element {
            name: name@,
            attributes: attrs_view(attributes@),
            children: xmls_view(children@),
        },
        XmlNode::Text(s) => XmlV::Text(s@),
        XmlNode::Attribute { name, value } => XmlV::Attribute { name: name@, value: value@ },
    }
}

pub open spec fn xmls_view(s: Seq<XmlNode>) -> Seq<XmlV>
    decreases s,
{
    if s.len() == 0 {
        Seq::empty()
    } else {
        xmls_view(s.drop_last()).push(xml_view(s.last()))
    }
}

pub proof fn lemma_xmls_view_push(s: Seq<XmlNode>, x: XmlNode)
    ensures
        xmls_view(s.push(x)) == xmls_view(s).push(xml_view(x)),
{
    assert(s.push(x).drop_last() == s);
}

pub proof fn lemma_xmls_view_len(s: Seq<XmlNode>)
    ensures
        xmls_view(s).len() == s.len(),
        forall|i: int| 0 <= i < s.len() ==> #[trigger] xmls_view(s)[i] == xml_view(s[i]),
    decreases s.len(),
{
    if s.len() > 0 {
        lemma_xmls_view_len(s.drop_last());
        assert forall|i: int| 0 <= i < s.len() implies #[trigger] xmls_view(s)[i] == xml_view(
            s[i],
        ) by {
            if i < s.len() - 1 {
                assert(s.drop_last()[i] == s[i]);
            }
        }
    }
}

pub proof fn lemma_texts_of_push(s: Seq<XmlV>, x: XmlV)
    ensures
        texts_of(s.push(x)) == texts_of(s) + text_of(x),
{
    assert(s.push(x).drop_last() == s);
}

pub proof fn lemma_compact_xmls_push(s: Seq<XmlV>, x: XmlV)
    ensures
        compact_xmls(s.push(x)) == compact_xmls(s) + compact_xml(x),
{
    assert(s.push(x).drop_last() == s);
}

// ---------------------------------------------------------------------------
// Text content and serialisation
// ---------------------------------------------------------------------------

/// The text of a node: a text node's string, an attribute's value, or the
/// concatenated text of an element's children.
pub open spec fn text_of(n: XmlV) -> Seq<char>
    decreases n,
{
    match n {
        XmlV::Text(s) => s,
        XmlV::Element { children, .. } => texts_of(children),
        XmlV::Attribute { value, .. } => value,
    }
}

pub open spec fn texts_of(s: Seq<XmlV>) -> Seq<char>
    decreases s,
{
    if s.len() == 0 {
        Seq::empty()
    } else {
        texts_of(s.drop_last()) + text_of(s.last())
    }
}

/// Escaping of one character in text content: `&` and `<`.
pub open spec fn escape_text_char(c: char) -> Seq<char> {
    if c == '&' {
        "&amp;"@
    } else if c == '<' {
        "&lt;"@
    } else {
        seq![c]
    }
}

/// Escaping of one character in a single-quoted attribute value: `&`, `<`, `'`.
pub open spec fn escape_attr_char(c: char) -> Seq<char> {
    if c == '&' {
        "&amp;"@
    } else if c == '<' {
        "&lt;"@
    } else if c == '\'' {
        "&apos;"@
    } else {
        seq![c]
    }
}

pub open spec fn escape_text(s: Seq<char>) -> Seq<char>
    decreases s.len(),
{
    if s.len() == 0 {
        Seq::empty()
    } else {
        escape_text(s.drop_last()) + escape_text_char(s.last())
    }
}

pub open spec fn escape_attr(s: Seq<char>) -> Seq<char>
    decreases s.len(),
{
    if s.len() == 0 {
        Seq::empty()
    } else {
        escape_attr(s.drop_last()) + escape_attr_char(s.last())
    }
}

/// `k='v'` for one attribute.
pub open spec fn attr_text(a: (Seq<char>, Seq<char>)) -> Seq<char> {
    a.0 + "='"@ + escape_attr(a.1) + "'"@
}

/// The attributes joined by single spaces.
pub open spec fn attrs_joined(a: Seq<(Seq<char>, Seq<char>)>) -> Seq<char>
    decreases a.len(),
{
    if a.len() == 0 {
        Seq::empty()
    } else if a.len() == 1 {
        attr_text(a[0])
    } else {
        attrs_joined(a.drop_last()) + " "@ + attr_text(a.last())
    }
}

/// The attribute part of a start tag: empty, or a space and the attributes.
pub open spec fn attrs_part(a: Seq<(Seq<char>, Seq<char>)>) -> Seq<char> {
    if a.len() == 0 {
        Seq::empty()
    } else {
        " "@ + attrs_joined(a)
    }
}

/// Every attribute of a start tag is written after exactly one space:
/// there is nothing for no attributes, and adding an attribute at the end
/// adds a space and `k='v'` after what was written for the others.
pub proof fn law_attrs_each_after_a_space(a: Seq<(Seq<char>, Seq<char>)>, x: (Seq<char>, Seq<char>))
    ensures
        attrs_part(Seq::empty()) == Seq::<char>::empty(),
        attrs_part(a.push(x)) == attrs_part(a) + " "@ + attr_text(x),
{
    assert(a.push(x).drop_last() =~= a);
    if a.len() == 0 {
        assert(a.push(x)[0] == x);
        assert(attrs_part(a.push(x)) =~= attrs_part(a) + " "@ + attr_text(x));
    } else {
        assert(attrs_part(a.push(x)) =~= attrs_part(a) + " "@ + attr_text(x));
    }
}

/// Compact XML of a node: `<n a='v'/>` for an element without children,
/// `<n a='v'>...</n>` otherwise; escaped text; nothing for an attribute node.
pub open spec fn compact_xml(n: XmlV) -> Seq<char>
    decreases n,
{
    match n {
        XmlV::Element { name, attributes, children } => if children.len() == 0 {
            "<"@ + name + attrs_part(attributes) + "/>"@
        } else {
            "<"@ + name + attrs_part(attributes) + ">"@ + compact_xmls(children) + "</"@ + name
                + ">"@
        },
        XmlV::Text(s) => escape_text(s),
        XmlV::Attribute { .. } => Seq::empty(),
    }
}

pub open spec fn compact_xmls(s: Seq<XmlV>) -> Seq<char>
    decreases s,
{
    if s.len() == 0 {
        Seq::empty()
    } else {
        compact_xmls(s.drop_last()) + compact_xml(s.last())
    }
}

/// Appends the escaped form of `s` (text content) to `out`.
pub fn push_escaped_text(out: &mut String, s: &str)
    ensures
        final(out)@ == old(out)@ + escape_text(s@),
{
    let cs = crate::text::str_to_chars(s);
    let ghost start = out@;
    let mut i: usize = 0;
    while i < cs.len()
        invariant
            cs@ == s@,
            i <= cs.len(),
            out@ == start + escape_text(s@.subrange(0, i as int)),
        decreases cs.len() - i,
    {
        let c = cs[i];
        if c == '&' {
            append_str(out, "&amp;");
        } else if c == '<' {
            append_str(out, "&lt;");
        } else {
            push_char(out, c);
        }
        proof {
            let t = s@.subrange(0, i + 1);
            assert(t.drop_last() == s@.subrange(0, i as int));
            assert(t.last() == c);
        }
        i = i + 1;
    }
    proof {
        assert(s@.subrange(0, cs.len() as int) == s@);
    }
}

/// Appends the escaped form of `s` (single-quoted attribute value) to `out`.
pub fn push_escaped_attr(out: &mut String, s: &str)
    ensures
        final(out)@ == old(out)@ + escape_attr(s@),
{
    let cs = crate::text::str_to_chars(s);
    let ghost start = out@;
    let mut i: usize = 0;
    while i < cs.len()
        invariant
            cs@ == s@,
            i <= cs.len(),
            out@ == start + escape_attr(s@.subrange(0, i as int)),
        decreases cs.len() - i,
    {
        let c = cs[i];
        if c == '&' {
            append_str(out, "&amp;");
        } else if c == '<' {
            append_str(out, "&lt;");
        } else if c == '\'' {
            append_str(out, "&apos;");
        } else {
            push_char(out, c);
        }
        proof {
            let t = s@.subrange(0, i + 1);
            assert(t.drop_last() == s@.subrange(0, i as int));
            assert(t.last() == c);
        }
        i = i + 1;
    }
    proof {
        assert(s@.subrange(0, cs.len() as int) == s@);
    }
}

/// Appends the attribute part of a start tag.
pub fn push_attrs(out: &mut String, attributes: &Vec<(String, String)>)
    ensures
        final(out)@ == old(out)@ + attrs_part(attrs_view(attributes@)),
{
    let ghost a = attrs_view(attributes@);
    let ghost start = out@;
    let n = attributes.len();
    if n == 0 {
        return;
    }
    append_str(out, " ");
    let mut i: usize = 0;
    while i < n
        invariant
            n == attributes.len(),
            n > 0,
            a == attrs_view(attributes@),
            i <= n,
            out@ == start + " "@ + attrs_joined(a.subrange(0, i as int)),
        decreases n - i,
    {
        if i > 0 {
            append_str(out, " ");
        }
        let ghost before = out@;
        append_str(out, attributes[i].0.as_str());
        append_str(out, "='");
        push_escaped_attr(out, attributes[i].1.as_str());
        append_str(out, "'");
        proof {
            let t = a.subrange(0, i + 1);
            assert(t.drop_last() == a.subrange(0, i as int));
            assert(t.last() == (attributes@[i as int].0@, attributes@[i as int].1@));
            if i == 0 {
                assert(t.len() == 1);
            }
        }
        i = i + 1;
    }
    proof {
        assert(a.subrange(0, n as int) == a);
    }
}

impl XmlNode {
    /// The text content of the node (used for attribute values).
    #[verifier::loop_isolation(false)]
    pub fn text_content(&self) -> (r: String)
        ensures
            r@ == text_of(xml_view(*self)),
        decreases self,
    {
        match self {
            XmlNode::Text(s) => s.clone(),
            XmlNode::Element { children, .. } => {
                let mut out = String::new();
                let n = children.len();
                let mut i: usize = 0;
                while i < n
                    invariant
                        n == children.len(),
                        i <= n,
                        out@ == texts_of(xmls_view(children@.subrange(0, i as int))),
                    decreases n - i,
                {
                    let t = children[i].text_content();
                    append_str(&mut out, t.as_str());
                    proof {
                        let sub = children@.subrange(0, i + 1);
                        assert(sub == children@.subrange(0, i as int).push(children@[i as int]));
                        lemma_xmls_view_push(children@.subrange(0, i as int), children@[i as int]);
                        lemma_texts_of_push(
                            xmls_view(children@.subrange(0, i as int)),
                            xml_view(children@[i as int]),
                        );
                    }
                    i = i + 1;
                }
                proof {
                    assert(children@.subrange(0, n as int) == children@);
                }
                out
            },
            XmlNode::Attribute { value, .. } => value.clone(),
        }
    }

    /// Converts the node to a compact XML string.
    pub fn to_xml(&self) -> (r: String)
        ensures
            r@ == compact_xml(xml_view(*self)),
    {
        let mut out = String::new();
        self.write_xml(&mut out);
        out
    }

    /// Appends the compact XML of the node to `out`.
    #[verifier::loop_isolation(false)]
    fn write_xml(&self, out: &mut String)
        ensures
            final(out)@ == old(out)@ + compact_xml(xml_view(*self)),
        decreases self,
    {
        match self {
            XmlNode::Element { name, attributes, children } => {
                append_str(out, "<");
                append_str(out, name.as_str());
                push_attrs(out, attributes);
                if children.len() == 0 {
                    append_str(out, "/>");
                } else {
                    append_str(out, ">");
                    let ghost mid = out@;
                    let n = children.len();
                    let mut i: usize = 0;
                    while i < n
                        invariant
                            n == children.len(),
                            i <= n,
                            out@ == mid + compact_xmls(xmls_view(children@.subrange(0, i as int))),
                        decreases n - i,
                    {
                        children[i].write_xml(out);
                        proof {
                            assert(children@.subrange(0, i + 1) == children@.subrange(0, i as int).push(
                                children@[i as int],
                            ));
                            lemma_xmls_view_push(children@.subrange(0, i as int), children@[i as int]);
                            lemma_compact_xmls_push(
                                xmls_view(children@.subrange(0, i as int)),
                                xml_view(children@[i as int]),
                            );
                        }
                        i = i + 1;
                    }
                    proof {
                        assert(children@.subrange(0, n as int) == children@);
                        lemma_xmls_view_len(children@);
                    }
                    append_str(out, "</");
                    append_str(out, name.as_str());
                    append_str(out, ">");
                }
            },
            XmlNode::Text(s) => {
                push_escaped_text(out, s.as_str());
            },
            XmlNode::Attribute { .. } => {},
        }
    }
}

/// A copy of a node.
#[verifier::loop_isolation(false)]
pub fn clone_xml(n: &XmlNode) -> (r: XmlNode)
    ensures
        xml_view(r) == xml_view(*n),
    decreases n,
{
    match n {
        XmlNode::Element { name, attributes, children } => {
            let mut attrs: Vec<(String, String)> = Vec::new();
            let mut i: usize = 0;
            while i < attributes.len()
                invariant
                    i <= attributes.len(),
                    attrs_view(attrs@) == attrs_view(attributes@.subrange(0, i as int)),
                decreases attributes.len() - i,
            {
                let k = attributes[i].0.clone();
                let v = attributes[i].1.clone();
                let ghost prev = attrs@;
                attrs.push((k, v));
                proof {
                    assert(attrs@ == prev.push((k, v)));
                    assert(attributes@.subrange(0, i + 1) == attributes@.subrange(0, i as int).push(
                        attributes@[i as int],
                    ));
                    assert(attrs_view(attrs@) =~= attrs_view(prev).push((k@, v@)));
                    assert(attrs_view(attributes@.subrange(0, i + 1)) =~= attrs_view(
                        attributes@.subrange(0, i as int),
                    ).push((attributes@[i as int].0@, attributes@[i as int].1@)));
                }
                i = i + 1;
            }
            proof {
                assert(attributes@.subrange(0, attributes.len() as int) == attributes@);
            }
            let mut kids: Vec<XmlNode> = Vec::new();
            let mut j: usize = 0;
            while j < children.len()
                invariant
                    j <= children.len(),
                    xmls_view(kids@) == xmls_view(children@.subrange(0, j as int)),
                decreases children.len() - j,
            {
                let c = clone_xml(&children[j]);
                let ghost prev = kids@;
                kids.push(c);
                proof {
                    lemma_xmls_view_push(prev, c);
                    lemma_xmls_view_push(children@.subrange(0, j as int), children@[j as int]);
                    assert(children@.subrange(0, j + 1) == children@.subrange(0, j as int).push(
                        children@[j as int],
                    ));
                }
                j = j + 1;
            }
            proof {
                assert(children@.subrange(0, children.len() as int) == children@);
            }
            XmlNode::Element { name: name.clone(), attributes: attrs, children: kids }
        },
        XmlNode::Text(s) => XmlNode::Text(s.clone()),
        XmlNode::Attribute { name, value } => XmlNode::Attribute {
            name: name.clone(),
            value: value.clone(),
        },
    }
}

impl Clone for XmlNode {
    fn clone(&self) -> (r: Self)
        ensures
            xml_view(r) == xml_view(*self),
    {
        clone_xml(self)
    }
}

} // verus!
