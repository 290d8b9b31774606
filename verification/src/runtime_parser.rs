//! The XML tree of the runtime parser and its canonical serialisation.
//!
//! In the canonical form an element's children that are elements are closed
//! on the following line: a tag is written without its final `>` (or `/>`
//! for an element without children), which comes on the next line, indented
//! three spaces per level, before the content that follows.  An element whose
//! children are all inline (text, attributes, and the `__hidden__` and
//! `__promoted__` wrappers, which stand for their children) is written on one
//! line, the wrappers as their children.  Only the root's closing tag carries
//! its `>`; a root without children is closed with `/>`.
use vstd::prelude::*;

use crate::text::{append_str, push_char};
use crate::xml_node::{attrs_part, attrs_view, escape_text, push_attrs, push_escaped_text, XmlV};
pub use crate::grammar_plan::ast_to_earlgrey;

verus! {

/// Simple XML node representation.
#[derive(Debug, PartialEq)]
pub enum XmlNode {
    Element { name: String, attributes: Vec<(String, String)>, children: Vec<XmlNode> },
    Text(String),
    /// For `@` marks, to be extracted by the parent.
    Attribute { name: String, value: String },
}

/// The view of a node.
pub open spec fn rt_view(n: XmlNode) -> XmlV
    decreases n,
{
    match n {
        XmlNode::Element { name, attributes, children } => XmlV::Element {
            name: name@,
            attributes: attrs_view(attributes@),
            children: rt_views(children@),
        },
        XmlNode::Text(s) => XmlV::Text(s@),
        XmlNode::Attribute { name, value } => XmlV::Attribute { name: name@, value: value@ },
    }
}

pub open spec fn rt_views(s: Seq<XmlNode>) -> Seq<XmlV>
    decreases s,
{
    if s.len() == 0 {
        Seq::empty()
    } else {
        rt_views(s.drop_last()).push(rt_view(s.last()))
    }
}

pub proof fn lemma_rt_views_index(s: Seq<XmlNode>)
    ensures
        rt_views(s).len() == s.len(),
        forall|i: int| 0 <= i < s.len() ==> #[trigger] rt_views(s)[i] == rt_view(s[i]),
    decreases s.len(),
{
    if s.len() > 0 {
        lemma_rt_views_index(s.drop_last());
        assert forall|i: int| 0 <= i < s.len() implies #[trigger] rt_views(s)[i] == rt_view(s[i]) by {
            if i < s.len() - 1 {
                assert(s.drop_last()[i] == s[i]);
            }
        }
    }
}

// ---------------------------------------------------------------------------
// Canonical form
// ---------------------------------------------------------------------------

/// Whether a name is that of a wrapper written as its children.
pub open spec fn is_wrapper_name(name: Seq<char>) -> bool {
    name == "__hidden__"@ || name == "__promoted__"@
}

/// Whether a node is written inline: text, an attribute, or a wrapper.
pub open spec fn is_inline(n: XmlV) -> bool {
    match n {
        XmlV::Element { name, .. } => is_wrapper_name(name),
        _ => true,
    }
}

/// Whether a node is an element without children.
pub open spec fn is_self_closing(n: XmlV) -> bool {
    n matches XmlV::Element { children, .. } && children.len() == 0
}

/// Three spaces per level.
pub open spec fn indent(depth: nat) -> Seq<char>
    decreases depth,
{
    if depth == 0 {
        Seq::empty()
    } else {
        indent((depth - 1) as nat) + "   "@
    }
}

/// What closes an element child: `/>` or `>`.
pub open spec fn closer(n: XmlV) -> Seq<char> {
    if is_self_closing(n) {
        "/>"@
    } else {
        ">"@
    }
}

/// Whether a child after `i` is written as an element.
pub open spec fn element_after(children: Seq<XmlV>, i: int) -> bool {
    exists|j: int| i < j < children.len() && !is_inline(#[trigger] children[j])
}

/// What comes before child `i` of an element with element children.
pub open spec fn child_prefix(children: Seq<XmlV>, i: int, depth: nat) -> Seq<char> {
    if i == 0 {
        seq!['\n'] + indent(depth) + "   "@ + ">"@
    } else {
        let prev = children[i - 1];
        if is_inline(prev) {
            Seq::empty()
        } else if !is_inline(children[i]) || element_after(children, i) {
            seq!['\n'] + indent(depth) + "   "@ + closer(prev)
        } else {
            closer(prev)
        }
    }
}

/// The serialisation of a node at `depth`.
pub open spec fn ser(n: XmlV, depth: nat, is_root: bool, compact: bool) -> Seq<char>
    decreases n, 0int,
{
    match n {
        XmlV::Element { name, attributes, children } => ser_element(
            name,
            attributes,
            children,
            depth,
            is_root,
            compact,
        ),
        XmlV::Text(s) => escape_text(s),
        XmlV::Attribute { .. } => Seq::empty(),
    }
}

/// The serialisation of an element at `depth`.
pub open spec fn ser_element(
    name: Seq<char>,
    attributes: Seq<(Seq<char>, Seq<char>)>,
    children: Seq<XmlV>,
    depth: nat,
    is_root: bool,
    compact: bool,
) -> Seq<char>
    decreases children, children.len() + 1,
{
    let head = "<"@ + name + attrs_part(attributes);
    let tail = "</"@ + name + (if is_root {
        ">"@
    } else {
        Seq::empty()
    });
    if is_wrapper_name(name) {
        ser_all(children, 0, depth, compact)
    } else if compact {
        head + ">"@ + ser_all(children, 0, depth, true) + "</"@ + name + ">"@
    } else if children.len() == 0 {
        if is_root {
            head + "/>"@
        } else {
            head
        }
    } else if forall|k: int| 0 <= k < children.len() ==> is_inline(#[trigger] children[k]) {
        head + ">"@ + ser_all(children, 0, depth + 1, false) + tail
    } else {
        head + ser_body(children, 0, depth) + last_closer(children, depth) + tail
    }
}

/// After the children of an element with element children: the last
/// child's closer on a line of its own, if it is an element.
pub open spec fn last_closer(children: Seq<XmlV>, depth: nat) -> Seq<char> {
    if children.len() == 0 || is_inline(children.last()) {
        Seq::empty()
    } else {
        seq!['\n'] + indent(depth) + closer(children.last())
    }
}

/// The children from `i` on, each at `depth`, one after the other.
pub open spec fn ser_all(children: Seq<XmlV>, i: int, depth: nat, compact: bool) -> Seq<char>
    decreases children, children.len() - i,
{
    if 0 <= i < children.len() {
        ser(children[i], depth, false, compact) + ser_all(children, i + 1, depth, compact)
    } else {
        Seq::empty()
    }
}

/// The children from `i` on of an element at `depth` with element children,
/// each after its prefix.
pub open spec fn ser_body(children: Seq<XmlV>, i: int, depth: nat) -> Seq<char>
    decreases children, children.len() - i,
{
    if 0 <= i < children.len() {
        child_prefix(children, i, depth) + ser(children[i], depth + 1, false, false) + ser_body(
            children,
            i + 1,
            depth,
        )
    } else {
        Seq::empty()
    }
}


// ---------------------------------------------------------------------------
// Wrappers stand for their children
// ---------------------------------------------------------------------------

/// The node with every `__hidden__` and `__promoted__` wrapper below it
/// replaced by its children.
pub open spec fn unwrap_tree(n: XmlV) -> XmlV
    decreases n,
{
    match n {
        XmlV::Element { name, attributes, children } => XmlV::Element {
            name,
            attributes,
            children: unwrap_list(children),
        },
        _ => n,
    }
}

/// The nodes with every wrapper among them or below them replaced by its
/// children.
pub open spec fn unwrap_list(s: Seq<XmlV>) -> Seq<XmlV>
    decreases s,
{
    if s.len() == 0 {
        Seq::empty()
    } else {
        unwrap_list(s.drop_last()) + match s.last() {
            XmlV::Element { name, children, .. } => if is_wrapper_name(name) {
                unwrap_list(children)
            } else {
                seq![unwrap_tree(s.last())]
            },
            _ => seq![s.last()],
        }
    }
}

// ---------------------------------------------------------------------------
// Writing it
// ---------------------------------------------------------------------------

/// A copy of a string pair list.
pub(crate) fn copy_attrs(attributes: &Vec<(String, String)>) -> (r: Vec<(String, String)>)
    ensures
        attrs_view(r@) == attrs_view(attributes@),
{
    let mut attrs: Vec<(String, String)> = Vec::new();
    let mut i: usize = 0;
    while i < attributes.len()
        invariant
            i <= attributes.len(),
            attrs_view(attrs@) == attrs_view(attributes@.subrange(0, i as int)),
        decreases attributes.len() - i,
    {
        let k = attributes[i].0.clone();
        let v = attributes[i].1.clone();
        let ghost prev = attrs@;
        attrs.push((k, v));
        proof {
            assert(attributes@.subrange(0, i + 1) == attributes@.subrange(0, i as int).push(
                attributes@[i as int],
            ));
            assert(attrs_view(attrs@) =~= attrs_view(prev).push((k@, v@)));
            assert(attrs_view(attributes@.subrange(0, i + 1)) =~= attrs_view(
                attributes@.subrange(0, i as int),
            ).push((attributes@[i as int].0@, attributes@[i as int].1@)));
        }
        i = i + 1;
    }
    proof {
        assert(attributes@.subrange(0, attributes.len() as int) == attributes@);
    }
    attrs
}

pub(crate) proof fn lemma_rt_views_push(s: Seq<XmlNode>, x: XmlNode)
    ensures
        rt_views(s.push(x)) == rt_views(s).push(rt_view(x)),
{
    assert(s.push(x).drop_last() == s);
}

pub(crate) proof fn lemma_rt_views_append(s: Seq<XmlNode>, t: Seq<XmlNode>)
    ensures
        rt_views(s + t) == rt_views(s) + rt_views(t),
    decreases t.len(),
{
    if t.len() == 0 {
        assert(s + t == s);
        assert(rt_views(s) + rt_views(t) =~= rt_views(s));
    } else {
        lemma_rt_views_append(s, t.drop_last());
        assert((s + t).drop_last() == s + t.drop_last());
        assert((s + t).last() == t.last());
        assert(rt_views(s) + rt_views(t) =~= (rt_views(s) + rt_views(t.drop_last())).push(rt_view(t.last())));
    }
}

/// The node with every wrapper below it replaced by its children.
fn unwrap_node(n: &XmlNode) -> (r: XmlNode)
    ensures
        rt_view(r) == unwrap_tree(rt_view(*n)),
    decreases n, 1int,
{
    match n {
        XmlNode::Element { name, attributes, children } => {
            let mut kids: Vec<XmlNode> = Vec::new();
            push_unwrapped(children, &mut kids);
            proof {
                assert(kids@ =~= Seq::<XmlNode>::empty() + kids@);
            }
            XmlNode::Element { name: name.clone(), attributes: copy_attrs(attributes), children: kids }
        },
        XmlNode::Text(t) => XmlNode::Text(t.clone()),
        XmlNode::Attribute { name, value } => XmlNode::Attribute { name: name.clone(), value: value.clone() },
    }
}

/// Appends the nodes with every wrapper among them or below them replaced
/// by its children.
fn push_unwrapped(children: &Vec<XmlNode>, out: &mut Vec<XmlNode>)
    ensures
        rt_views(final(out)@) == rt_views(old(out)@) + unwrap_list(rt_views(children@)),
    decreases children, 0int,
{
    let ghost start = rt_views(out@);
    let mut i: usize = 0;
    proof {
        assert(children@.subrange(0, 0) =~= Seq::<XmlNode>::empty());
        assert(rt_views(out@) =~= start + unwrap_list(rt_views(children@.subrange(0, 0))));
    }
    while i < children.len()
        invariant
            i <= children.len(),
            rt_views(out@) == start + unwrap_list(rt_views(children@.subrange(0, i as int))),
        decreases children.len() - i,
    {
        let ghost before = out@;
        let ghost pre = children@.subrange(0, i as int);
        let c = &children[i];
        proof {
            assert(children@.subrange(0, i + 1) == pre.push(*c));
            lemma_rt_views_push(pre, *c);
            assert(rt_views(pre.push(*c)).drop_last() == rt_views(pre));
            assert(rt_views(pre.push(*c)).last() == rt_view(*c));
        }
        match c {
            XmlNode::Element { name, children: inner, .. } => {
                if name_is_wrapper(name) {
                    push_unwrapped(inner, out);
                } else {
                    let u = unwrap_node(c);
                    out.push(u);
                    proof {
                        lemma_rt_views_push(before, u);
                    }
                }
            },
            _ => {
                let u = unwrap_node(c);
                out.push(u);
                proof {
                    lemma_rt_views_push(before, u);
                }
            },
        }
        proof {
            assert(rt_views(out@) =~= start + unwrap_list(rt_views(children@.subrange(0, i + 1))));
        }
        i = i + 1;
    }
    proof {
        assert(children@.subrange(0, children.len() as int) == children@);
    }
}

fn name_is_wrapper(name: &String) -> (r: bool)
    ensures
        r == is_wrapper_name(name@),
{
    crate::text::string_eq(name, "__hidden__") || crate::text::string_eq(name, "__promoted__")
}

/// The indentation one level deeper.
fn deeper(ind: &String, Ghost(depth): Ghost<nat>) -> (r: String)
    requires
        ind@ == indent(depth),
    ensures
        r@ == indent(depth + 1),
{
    let mut r = ind.clone();
    append_str(&mut r, "   ");
    proof {
        assert(indent(depth + 1) == indent(depth) + "   "@);
    }
    r
}

impl XmlNode {
    /// Whether the node is written inline.
    fn is_inline_content(node: &XmlNode) -> (r: bool)
        ensures
            r == is_inline(rt_view(*node)),
    {
        match node {
            XmlNode::Text(_) => true,
            XmlNode::Element { name, .. } => name_is_wrapper(name),
            XmlNode::Attribute { .. } => true,
        }
    }

    /// Whether this node is an element without children.
    fn is_self_closing(&self) -> (r: bool)
        ensures
            r == is_self_closing(rt_view(*self)),
    {
        proof {
            match self {
                XmlNode::Element { children, .. } => {
                    lemma_rt_views_index(children@);
                },
                _ => {},
            }
        }
        match self {
            XmlNode::Element { children, .. } => children.len() == 0,
            _ => false,
        }
    }

    /// The canonical XML of the node, with every wrapper below it written as
    /// its children.
    pub fn to_xml(&self) -> (r: String)
        ensures
            r@ == ser(unwrap_tree(rt_view(*self)), 0, true, false),
    {
        let flat = unwrap_node(self);
        let mut out = String::new();
        let ind = String::new();
        proof {
            assert(ind@ == indent(0));
        }
        flat.write_xml(&mut out, &ind, Ghost(0), true, false);
        out
    }

    /// Appends the serialisation at `depth` to `out`.
    fn write_xml(
        &self,
        out: &mut String,
        ind: &String,
        Ghost(depth): Ghost<nat>,
        is_root: bool,
        compact_mode: bool,
    )
        requires
            ind@ == indent(depth),
        ensures
            final(out)@ == old(out)@ + ser(rt_view(*self), depth, is_root, compact_mode),
        decreases self, 2int,
    {
        match self {
            XmlNode::Element { .. } => {
                self.write_element(out, ind, Ghost(depth), is_root, compact_mode);
            },
            XmlNode::Text(s) => {
                push_escaped_text(out, s.as_str());
            },
            XmlNode::Attribute { .. } => {},
        }
    }

    /// Appends the serialisation of an element at `depth` to `out`.
    #[verifier::rlimit(80)]
    fn write_element(
        &self,
        out: &mut String,
        ind: &String,
        Ghost(depth): Ghost<nat>,
        is_root: bool,
        compact_mode: bool,
    )
        requires
            ind@ == indent(depth),
            self is Element,
        ensures
            final(out)@ == old(out)@ + ser(rt_view(*self), depth, is_root, compact_mode),
        decreases self, 1int,
    {
        let ghost start = out@;
        match self {
            XmlNode::Element { name, attributes, children } => {
                let ghost cs = rt_views(children@);
                let ghost av = attrs_view(attributes@);
                proof {
                    lemma_rt_views_index(children@);
                    assert(rt_view(*self) == XmlV::Element { name: name@, attributes: av, children: cs });
                }
                if name_is_wrapper(name) {
                    self.write_children(out, ind, Ghost(depth), compact_mode);
                    return;
                }
                append_str(out, "<");
                append_str(out, name.as_str());
                push_attrs(out, attributes);
                let ghost head = out@;
                proof {
                    assert(head =~= start + ("<"@ + name@ + attrs_part(av)));
                }
                if compact_mode {
                    append_str(out, ">");
                    self.write_children(out, ind, Ghost(depth), true);
                    append_str(out, "</");
                    append_str(out, name.as_str());
                    append_str(out, ">");
                    proof {
                        assert(out@ =~= start + ser_element(name@, av, cs, depth, is_root, compact_mode));
                    }
                    return;
                }
                if children.len() == 0 {
                    if is_root {
                        append_str(out, "/>");
                    }
                    proof {
                        assert(out@ =~= start + ser_element(name@, av, cs, depth, is_root, compact_mode));
                    }
                    return;
                }
                let inline_only = all_inline(children);
                if inline_only {
                    append_str(out, ">");
                    let inner = deeper(ind, Ghost(depth));
                    self.write_children(out, &inner, Ghost(depth + 1), false);
                    append_str(out, "</");
                    append_str(out, name.as_str());
                    if is_root {
                        append_str(out, ">");
                    }
                    proof {
                        assert(out@ =~= start + ser_element(name@, av, cs, depth, is_root, compact_mode));
                    }
                    return;
                }
                self.write_body(out, ind, Ghost(depth));
                write_last_closer(children, out, ind, Ghost(depth));
                append_str(out, "</");
                append_str(out, name.as_str());
                if is_root {
                    append_str(out, ">");
                }
                proof {
                    assert(out@ =~= start + ser_element(name@, av, cs, depth, is_root, compact_mode));
                }
            },
            _ => {},
        }
    }

    /// Appends the children of an element, each at `depth`.
    #[verifier::loop_isolation(false)]
    fn write_children(&self, out: &mut String, ind: &String, Ghost(depth): Ghost<nat>, compact_mode: bool)
        requires
            self is Element,
            ind@ == indent(depth),
        ensures
            final(out)@ == old(out)@ + ser_all(rt_views(self->children@), 0, depth, compact_mode),
        decreases self, 0int,
    {
        let ghost start = out@;
        match self {
            XmlNode::Element { children, .. } => {
                let ghost cs = rt_views(children@);
                proof {
                    lemma_rt_views_index(children@);
                }
                let mut i: usize = 0;
                while i < children.len()
                    invariant
                        i <= children.len(),
                        out@ + ser_all(cs, i as int, depth, compact_mode) == start + ser_all(
                            cs,
                            0,
                            depth,
                            compact_mode,
                        ),
                    decreases children.len() - i,
                {
                    let ghost before = out@;
                    children[i].write_xml(out, ind, Ghost(depth), false, compact_mode);
                    proof {
                        assert(out@ + ser_all(cs, i + 1, depth, compact_mode) =~= before + ser_all(
                            cs,
                            i as int,
                            depth,
                            compact_mode,
                        ));
                    }
                    i = i + 1;
                }
                proof {
                    assert(out@ =~= start + ser_all(cs, 0, depth, compact_mode));
                }
            },
            _ => {},
        }
    }

    /// Appends the children of an element with element children, each after
    /// its prefix.
    #[verifier::loop_isolation(false)]
    fn write_body(&self, out: &mut String, ind: &String, Ghost(depth): Ghost<nat>)
        requires
            self is Element,
            ind@ == indent(depth),
        ensures
            final(out)@ == old(out)@ + ser_body(rt_views(self->children@), 0, depth),
        decreases self, 0int,
    {
        let ghost start = out@;
        match self {
            XmlNode::Element { children, .. } => {
                let ghost cs = rt_views(children@);
                proof {
                    lemma_rt_views_index(children@);
                }
                let mut i: usize = 0;
                while i < children.len()
                    invariant
                        i <= children.len(),
                        out@ + ser_body(cs, i as int, depth) == start + ser_body(cs, 0, depth),
                    decreases children.len() - i,
                {
                    let ghost before = out@;
                    write_prefix(children, i, out, ind, Ghost(depth));
                    let inner = deeper(ind, Ghost(depth));
                    children[i].write_xml(out, &inner, Ghost(depth + 1), false, false);
                    proof {
                        assert(out@ + ser_body(cs, i + 1, depth) =~= before + ser_body(
                            cs,
                            i as int,
                            depth,
                        ));
                    }
                    i = i + 1;
                }
                proof {
                    assert(out@ =~= start + ser_body(cs, 0, depth));
                }
            },
            _ => {},
        }
    }
}

/// Appends the closer of the last child on a line of its own, if it is an
/// element.
fn write_last_closer(children: &Vec<XmlNode>, out: &mut String, ind: &String, Ghost(depth): Ghost<nat>)
    requires
        ind@ == indent(depth),
        children.len() > 0,
    ensures
        final(out)@ == old(out)@ + last_closer(rt_views(children@), depth),
{
    let ghost before = out@;
    proof {
        lemma_rt_views_index(children@);
        assert(rt_views(children@).last() == rt_view(children@[children.len() - 1]));
    }
    let last = &children[children.len() - 1];
    if !XmlNode::is_inline_content(last) {
        push_char(out, '\n');
        append_str(out, ind.as_str());
        if last.is_self_closing() {
            append_str(out, "/>");
        } else {
            append_str(out, ">");
        }
    }
    proof {
        assert(out@ =~= before + last_closer(rt_views(children@), depth));
    }
}

/// Whether all nodes are written inline.
fn all_inline(children: &Vec<XmlNode>) -> (r: bool)
    ensures
        r == forall|k: int| 0 <= k < children.len() ==> is_inline(#[trigger] rt_views(children@)[k]),
{
    proof {
        lemma_rt_views_index(children@);
    }
    let mut k: usize = 0;
    while k < children.len()
        invariant
            k <= children.len(),
            rt_views(children@).len() == children.len(),
            forall|x: int| 0 <= x < children.len() ==> #[trigger] rt_views(children@)[x] == rt_view(children@[x]),
            forall|x: int| 0 <= x < k ==> is_inline(#[trigger] rt_views(children@)[x]),
        decreases children.len() - k,
    {
        if !XmlNode::is_inline_content(&children[k]) {
            proof {
                assert(!is_inline(rt_views(children@)[k as int]));
            }
            return false;
        }
        k = k + 1;
    }
    true
}

/// Appends what comes before child `i` of an element with element children.
fn write_prefix(children: &Vec<XmlNode>, i: usize, out: &mut String, ind: &String, Ghost(depth): Ghost<nat>)
    requires
        i < children.len(),
        ind@ == indent(depth),
    ensures
        final(out)@ == old(out)@ + child_prefix(rt_views(children@), i as int, depth),
{
    let ghost cs = rt_views(children@);
    let ghost before = out@;
    proof {
        lemma_rt_views_index(children@);
    }
    let curr_is_inline = XmlNode::is_inline_content(&children[i]);
    if i == 0 {
        push_char(out, '\n');
        append_str(out, ind.as_str());
        append_str(out, "   ");
        append_str(out, ">");
    } else {
        let prev_child = &children[i - 1];
        let prev_is_inline = XmlNode::is_inline_content(prev_child);
        if !prev_is_inline {
            let mut has_element_after = false;
            let mut j: usize = i + 1;
            while j < children.len()
                invariant
                    i < j <= children.len(),
                    cs == rt_views(children@),
                    cs.len() == children.len(),
                    forall|x: int| 0 <= x < children.len() ==> #[trigger] cs[x] == rt_view(children@[x]),
                    has_element_after == exists|x: int| i < x < j && !is_inline(#[trigger] cs[x]),
                decreases children.len() - j,
            {
                if !XmlNode::is_inline_content(&children[j]) {
                    proof {
                        assert(!is_inline(cs[j as int]));
                    }
                    has_element_after = true;
                }
                j = j + 1;
            }
            if !curr_is_inline || has_element_after {
                push_char(out, '\n');
                append_str(out, ind.as_str());
                append_str(out, "   ");
            }
            if prev_child.is_self_closing() {
                append_str(out, "/>");
            } else {
                append_str(out, ">");
            }
        }
    }
    proof {
        assert(out@ =~= before + child_prefix(cs, i as int, depth));
    }
}

} // verus!
