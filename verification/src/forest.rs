//! The semantic actions of the Earley forest: the XML node that each
//! completed production builds from the nodes of its symbols.
//!
//! Repetition helpers gather their items in a `_repeat_container` element;
//! a rule's production takes such containers (and `_hidden` wrappers) apart,
//! applies the marks of its nonterminals and then the rule's own mark.
use vstd::prelude::*;

use crate::ast::{
    alts_view, clone_rule, factor_view, lemma_factors_view_index, lemma_seqs_view_index, rule_view,
    sequence_view, Alternatives, BaseFactor, BaseV, Factor, FactorV, Mark, RepV, Repetition, Rule,
    RuleV, SeqV, Sequence,
};
use crate::earley::{
    char_symbol, char_symbol_exec, class_symbol, class_symbol_exec, lit_seq_symbol,
    lit_seq_symbol_exec, mark_suffix, names_view, next_group, push_mark_suffix, seq_id_exec,
    seq_id_from,
};
use crate::runtime_parser::{
    copy_attrs, lemma_rt_views_append, lemma_rt_views_push, rt_view, rt_views, XmlNode,
};
use crate::text::{append_str, decimal, push_decimal, str_to_chars, string_eq};
use crate::xml_node::{attrs_view, lemma_texts_of_push, text_of, texts_of, XmlV};

verus! {

/// The name of the element in which repetition helpers gather their items.
pub open spec fn container_name() -> Seq<char> {
    "_repeat_container"@
}

/// A repetition container holding `children`.
pub open spec fn container(children: Seq<XmlV>) -> XmlV {
    XmlV::Element { name: container_name(), attributes: Seq::empty(), children }
}

/// What the left, already gathered part of a repetition contributes: a
/// container its items, another element itself without its attributes,
/// any other node itself.
pub open spec fn left_items(left: XmlV) -> Seq<XmlV> {
    match left {
        XmlV::Element { name, children, .. } => if name == container_name() {
            children
        } else {
            seq![XmlV::Element { name, attributes: Seq::empty(), children }]
        },
        _ => seq![left],
    }
}

/// The shape of a repetition helper's production.
#[derive(Clone, Copy, Debug, PartialEq, Eq, Structural)]
pub enum RepAction {
    /// `x_opt -> ε | x`, `x_plus -> x`, `x_star -> ε`: the nodes, gathered.
    Container,
    /// `x_plus -> x_plus x`, `x_star -> x_star x`: the items so far, then
    /// the new node.
    Append,
    /// `x_sep_s_plus -> x_sep_s_plus s1 .. sn x` with `n` separator
    /// symbols: the items so far, the separators, then the new node.
    AppendSeparated(usize),
}

/// The node that a repetition helper's production builds from `nodes`.
pub open spec fn repetition_action_s(kind: RepAction, nodes: Seq<XmlV>) -> XmlV {
    match kind {
        RepAction::Container => container(nodes),
        RepAction::Append => if nodes.len() >= 2 {
            container(left_items(nodes[nodes.len() - 2]) + seq![nodes.last()])
        } else {
            container(nodes)
        },
        RepAction::AppendSeparated(k) => if nodes.len() == 0 {
            container(Seq::empty())
        } else {
            let rest = nodes.drop_last();
            let m: int = if k < rest.len() {
                k as int
            } else {
                rest.len() as int
            };
            let seps = rest.subrange(rest.len() - m, rest.len() as int);
            let before = rest.subrange(0, rest.len() - m);
            let left = if before.len() > 0 {
                before.last()
            } else {
                container(Seq::empty())
            };
            container(left_items(left) + seps + seq![nodes.last()])
        },
    }
}

proof fn lemma_rt_views_single(x: XmlNode)
    ensures
        rt_views(seq![x]) == seq![rt_view(x)],
{
    assert(seq![x].drop_last() =~= Seq::<XmlNode>::empty());
    assert(rt_views(Seq::<XmlNode>::empty()) =~= Seq::<XmlV>::empty());
    assert(seq![x].last() == x);
    assert(rt_views(seq![x]) == rt_views(Seq::<XmlNode>::empty()).push(rt_view(x)));
    assert(rt_views(seq![x]) =~= seq![rt_view(x)]);
}

proof fn lemma_rt_views_pop(s: Seq<XmlNode>)
    requires
        s.len() > 0,
    ensures
        rt_views(s).len() == s.len(),
        rt_views(s).drop_last() == rt_views(s.drop_last()),
        rt_views(s).last() == rt_view(s.last()),
    decreases s.len(),
{
    if s.len() > 1 {
        lemma_rt_views_pop(s.drop_last());
    }
    assert(rt_views(s.drop_last()).push(rt_view(s.last())).drop_last() =~= rt_views(s.drop_last()));
}

proof fn lemma_rt_views_len(s: Seq<XmlNode>)
    ensures
        rt_views(s).len() == s.len(),
    decreases s.len(),
{
    if s.len() > 0 {
        lemma_rt_views_len(s.drop_last());
    }
}

/// The name of a repetition container, as a string.
fn container_name_exec() -> (r: String)
    ensures
        r@ == container_name(),
{
    String::from_str("_repeat_container")
}

/// A repetition container holding `children`.
fn container_node(children: Vec<XmlNode>) -> (r: XmlNode)
    ensures
        rt_view(r) == container(rt_views(children@)),
{
    let r = XmlNode::Element { name: container_name_exec(), attributes: Vec::new(), children };
    proof {
        assert(attrs_view(Seq::<(String, String)>::empty()) =~= Seq::empty());
    }
    r
}

/// What the left part of a repetition contributes (see `left_items`).
fn left_items_exec(left: XmlNode) -> (r: Vec<XmlNode>)
    ensures
        rt_views(r@) == left_items(rt_view(left)),
{
    match left {
        XmlNode::Element { name, attributes, children } => {
            if string_eq(&name, "_repeat_container") {
                children
            } else {
                let e = XmlNode::Element { name, attributes: Vec::new(), children };
                proof {
                    assert(attrs_view(Seq::<(String, String)>::empty()) =~= Seq::empty());
                    lemma_rt_views_single(e);
                }
                let v = vec![e];
                proof {
                    assert(v@ =~= seq![e]);
                }
                v
            }
        },
        other => {
            proof {
                lemma_rt_views_single(other);
            }
            let v = vec![other];
            proof {
                assert(v@ =~= seq![other]);
            }
            v
        },
    }
}

/// The node that a repetition helper's production builds from `nodes`.
pub fn repetition_action_node(kind: RepAction, nodes: Vec<XmlNode>) -> (r: XmlNode)
    ensures
        rt_view(r) == repetition_action_s(kind, rt_views(nodes@)),
{
    let ghost nv = rt_views(nodes@);
    proof {
        lemma_rt_views_len(nodes@);
    }
    let mut nodes = nodes;
    match kind {
        RepAction::Container => {
            let r = container_node(nodes);
            assert(rt_view(r) == repetition_action_s(kind, nv));
            r
        },
        RepAction::Append => {
            if nodes.len() >= 2 {
                let ghost s0 = nodes@;
                let right = nodes.pop().unwrap();
                let ghost s1 = nodes@;
                let left = nodes.pop().unwrap();
                proof {
                    lemma_rt_views_pop(s0);
                    lemma_rt_views_pop(s1);
                    assert(s1 == s0.drop_last());
                    assert(nv[nv.len() - 2] == rt_views(s1).last());
                }
                let mut items = left_items_exec(left);
                let ghost it0 = items@;
                items.push(right);
                proof {
                    lemma_rt_views_push(it0, right);
                    assert(rt_view(right) == nv.last());
                    assert(rt_views(items@) =~= left_items(nv[nv.len() - 2]) + seq![nv.last()]);
                }
                let r = container_node(items);
                assert(rt_view(r) == repetition_action_s(kind, nv));
                r
            } else {
                let r = container_node(nodes);
                assert(rt_view(r) == repetition_action_s(kind, nv));
                r
            }
        },
        RepAction::AppendSeparated(k) => {
            if nodes.len() == 0 {
                let r = container_node(Vec::new());
                proof {
                    assert(rt_views(Seq::<XmlNode>::empty()) =~= Seq::<XmlV>::empty());
                }
                assert(rt_view(r) == repetition_action_s(kind, nv));
                r
            } else {
                let ghost s0 = nodes@;
                let right = nodes.pop().unwrap();
                proof {
                    lemma_rt_views_pop(s0);
                }
                let ghost rest = nodes@;
                let m: usize = if k < nodes.len() {
                    k
                } else {
                    nodes.len()
                };
                let at = nodes.len() - m;
                let mut seps = nodes.split_off(at);
                proof {
                    assert(rest == nodes@ + seps@);
                    lemma_rt_views_append(nodes@, seps@);
                    lemma_rt_views_len(nodes@);
                    lemma_rt_views_len(seps@);
                    assert(rt_views(rest).subrange(at as int, rest.len() as int) =~= rt_views(seps@));
                    assert(rt_views(rest).subrange(0, at as int) =~= rt_views(nodes@));
                }
                let ghost before = nodes@;
                let left = if nodes.len() > 0 {
                    let l = nodes.pop().unwrap();
                    proof {
                        lemma_rt_views_pop(before);
                    }
                    l
                } else {
                    proof {
                        assert(rt_views(Seq::<XmlNode>::empty()) =~= Seq::empty());
                    }
                    container_node(Vec::new())
                };
                let mut items = left_items_exec(left);
                let ghost it0 = items@;
                let ghost sp = seps@;
                items.append(&mut seps);
                proof {
                    assert(items@ == it0 + sp);
                    lemma_rt_views_append(it0, sp);
                }
                let ghost it1 = items@;
                items.push(right);
                proof {
                    lemma_rt_views_push(it1, right);
                    assert(rt_views(items@) =~= left_items(rt_view(left)) + rt_views(sp) + seq![rt_view(right)]);
                }
                let r = container_node(items);
                assert(rt_view(r) == repetition_action_s(kind, nv));
                r
            }
        },
    }
}

// ---------------------------------------------------------------------------
// A rule's productions
// ---------------------------------------------------------------------------

/// The mark of the `i`th symbol of a production (unmarked past the end).
pub open spec fn mark_at(marks: Seq<Mark>, i: int) -> Mark {
    if 0 <= i < marks.len() {
        marks[i]
    } else {
        Mark::Unmarked
    }
}

/// The marks of an alternative's symbols: a nonterminal's own mark, none
/// for the others.
pub open spec fn factor_marks(q: SeqV) -> Seq<Mark> {
    q.factors.map_values(
        |f: crate::ast::FactorV|
            match f.base {
                BaseV::Nonterminal { mark, .. } => mark,
                _ => Mark::Unmarked,
            },
    )
}

/// The symbol marks of a rule's `alt`th alternative (none past the end).
pub open spec fn alt_marks(r: RuleV, alt: int) -> Seq<Mark> {
    if 0 <= alt < r.alternatives.alts.len() {
        factor_marks(r.alternatives.alts[alt])
    } else {
        Seq::empty()
    }
}

/// The name of the wrapper whose text a production keeps.
pub open spec fn hidden_name() -> Seq<char> {
    "_hidden"@
}

/// An item of a container: the items of a container inside it, any other
/// node itself.
pub open spec fn container_item(x: XmlV) -> Seq<XmlV> {
    match x {
        XmlV::Element { name, children, .. } => if name == container_name() {
            children
        } else {
            seq![x]
        },
        _ => seq![x],
    }
}

pub open spec fn container_items(s: Seq<XmlV>) -> Seq<XmlV>
    decreases s.len(),
{
    if s.len() == 0 {
        Seq::empty()
    } else {
        container_items(s.drop_last()) + container_item(s.last())
    }
}

/// The text nodes among `s`.
pub open spec fn text_nodes(s: Seq<XmlV>) -> Seq<XmlV>
    decreases s.len(),
{
    if s.len() == 0 {
        Seq::empty()
    } else {
        text_nodes(s.drop_last()) + match s.last() {
            XmlV::Text(t) => seq![XmlV::Text(t)],
            _ => Seq::empty(),
        }
    }
}

/// Attributes and children gathered from a production's nodes so far.
pub struct Gathered {
    pub attrs: Seq<(Seq<char>, Seq<char>)>,
    pub children: Seq<XmlV>,
}

/// One node of a production, with the mark of its symbol: a container
/// gives its items, a `_hidden` wrapper its text nodes; an element under
/// `@` becomes an attribute holding its text, an attribute node an
/// attribute; an element under `-` or `^` gives its attributes and
/// children; anything else is a child.
pub open spec fn gather_step(g: Gathered, node: XmlV, mark: Mark) -> Gathered {
    match node {
        XmlV::Element { name, attributes, children } => if name == container_name() {
            Gathered { attrs: g.attrs, children: g.children + container_items(children) }
        } else if name == hidden_name() {
            Gathered { attrs: g.attrs, children: g.children + text_nodes(children) }
        } else {
            match mark {
                Mark::Attribute => Gathered {
                    attrs: g.attrs.push((name, texts_of(children))),
                    children: g.children,
                },
                Mark::Hidden => Gathered {
                    attrs: g.attrs + attributes,
                    children: g.children + children,
                },
                Mark::Promoted => Gathered {
                    attrs: g.attrs + attributes,
                    children: g.children + children,
                },
                Mark::Unmarked => Gathered { attrs: g.attrs, children: g.children.push(node) },
            }
        },
        XmlV::Attribute { name, value } => Gathered {
            attrs: g.attrs.push((name, value)),
            children: g.children,
        },
        XmlV::Text(_) => Gathered { attrs: g.attrs, children: g.children.push(node) },
    }
}

pub open spec fn gather(nodes: Seq<XmlV>, marks: Seq<Mark>) -> Gathered
    decreases nodes.len(),
{
    if nodes.len() == 0 {
        Gathered { attrs: Seq::empty(), children: Seq::empty() }
    } else {
        gather_step(gather(nodes.drop_last(), marks), nodes.last(), mark_at(marks, nodes.len() - 1))
    }
}

/// The node that a production of rule `name` (with mark `mark`) builds
/// from the nodes of its symbols: an element named after the rule, an
/// attribute holding the text, or, for `-` and `^`, the one child or a
/// `__hidden__` / `__promoted__` wrapper of the children.
pub open spec fn rule_action_s(name: Seq<char>, mark: Mark, marks: Seq<Mark>, nodes: Seq<XmlV>) -> XmlV {
    let g = gather(nodes, marks);
    match mark {
        Mark::Unmarked => XmlV::Element { name, attributes: g.attrs, children: g.children },
        Mark::Attribute => XmlV::Attribute { name, value: texts_of(g.children) },
        Mark::Hidden => if g.children.len() == 1 {
            g.children[0]
        } else {
            XmlV::Element { name: "__hidden__"@, attributes: Seq::empty(), children: g.children }
        },
        Mark::Promoted => if g.children.len() == 1 {
            g.children[0]
        } else {
            XmlV::Element { name: "__promoted__"@, attributes: Seq::empty(), children: g.children }
        },
    }
}

/// A copy of a node.
pub fn clone_rt(n: &XmlNode) -> (r: XmlNode)
    ensures
        rt_view(r) == rt_view(*n),
    decreases n, 1int,
{
    match n {
        XmlNode::Element { name, attributes, children } => {
            let mut kids: Vec<XmlNode> = Vec::new();
            push_copies(children, &mut kids);
            proof {
                assert(kids@ =~= Seq::<XmlNode>::empty() + kids@);
                assert(rt_views(Seq::<XmlNode>::empty()) =~= Seq::<XmlV>::empty());
                assert(rt_views(kids@) =~= rt_views(children@));
            }
            XmlNode::Element { name: name.clone(), attributes: copy_attrs(attributes), children: kids }
        },
        XmlNode::Text(t) => XmlNode::Text(t.clone()),
        XmlNode::Attribute { name, value } => XmlNode::Attribute { name: name.clone(), value: value.clone() },
    }
}

/// Appends copies of `s`.
#[verifier::loop_isolation(false)]
fn push_copies(s: &Vec<XmlNode>, out: &mut Vec<XmlNode>)
    ensures
        rt_views(final(out)@) == rt_views(old(out)@) + rt_views(s@),
    decreases s, 0int,
{
    let n = s.len();
    let mut i: usize = 0;
    while i < n
        invariant
            n == s.len(),
            i <= n,
            rt_views(out@) == rt_views(old(out)@) + rt_views(s@.subrange(0, i as int)),
        decreases n - i,
    {
        let c = clone_rt(&s[i]);
        let ghost o0 = out@;
        out.push(c);
        proof {
            lemma_rt_views_push(o0, c);
            lemma_rt_views_push(s@.subrange(0, i as int), s@[i as int]);
            assert(s@.subrange(0, i + 1) == s@.subrange(0, i as int).push(s@[i as int]));
            assert(rt_views(out@) =~= rt_views(old(out)@) + rt_views(s@.subrange(0, i + 1)));
        }
        i = i + 1;
    }
    proof {
        assert(s@.subrange(0, n as int) == s@);
    }
}

/// The text of a node: see `text_of`.
fn rt_text(n: &XmlNode) -> (r: String)
    ensures
        r@ == text_of(rt_view(*n)),
    decreases n, 1int,
{
    match n {
        XmlNode::Text(t) => t.clone(),
        XmlNode::Element { children, .. } => rt_texts(children),
        XmlNode::Attribute { value, .. } => value.clone(),
    }
}

/// The concatenated text of nodes.
#[verifier::loop_isolation(false)]
fn rt_texts(s: &Vec<XmlNode>) -> (r: String)
    ensures
        r@ == texts_of(rt_views(s@)),
    decreases s, 0int,
{
    let mut out = String::new();
    let n = s.len();
    let mut i: usize = 0;
    while i < n
        invariant
            n == s.len(),
            i <= n,
            out@ == texts_of(rt_views(s@.subrange(0, i as int))),
        decreases n - i,
    {
        let t = rt_text(&s[i]);
        append_str(&mut out, t.as_str());
        proof {
            assert(s@.subrange(0, i + 1) == s@.subrange(0, i as int).push(s@[i as int]));
            lemma_rt_views_push(s@.subrange(0, i as int), s@[i as int]);
            lemma_texts_of_push(rt_views(s@.subrange(0, i as int)), rt_view(s@[i as int]));
        }
        i = i + 1;
    }
    proof {
        assert(s@.subrange(0, n as int) == s@);
    }
    out
}

/// Appends the items of a container's children (see `container_items`).
#[verifier::loop_isolation(false)]
fn push_container_items(inner: &Vec<XmlNode>, out: &mut Vec<XmlNode>)
    ensures
        rt_views(final(out)@) == rt_views(old(out)@) + container_items(rt_views(inner@)),
{
    let n = inner.len();
    let mut i: usize = 0;
    while i < n
        invariant
            n == inner.len(),
            i <= n,
            rt_views(out@) == rt_views(old(out)@) + container_items(rt_views(inner@.subrange(0, i as int))),
        decreases n - i,
    {
        let ghost o0 = out@;
        let ghost sub = inner@.subrange(0, i as int);
        let x = &inner[i];
        proof {
            assert(inner@.subrange(0, i + 1) == sub.push(*x));
            lemma_rt_views_push(sub, *x);
            assert(rt_views(sub.push(*x)).drop_last() =~= rt_views(sub));
        }
        match x {
            XmlNode::Element { name, children, .. } => {
                if string_eq(name, "_repeat_container") {
                    push_copies(children, out);
                } else {
                    let c = clone_rt(x);
                    out.push(c);
                    proof {
                        lemma_rt_views_push(o0, c);
                        lemma_rt_views_single(c);
                    }
                }
            },
            _ => {
                let c = clone_rt(x);
                out.push(c);
                proof {
                    lemma_rt_views_push(o0, c);
                    lemma_rt_views_single(c);
                }
            },
        }
        proof {
            assert(rt_views(out@) =~= rt_views(old(out)@) + container_items(
                rt_views(inner@.subrange(0, i + 1)),
            ));
        }
        i = i + 1;
    }
    proof {
        assert(inner@.subrange(0, n as int) == inner@);
    }
}

/// Appends the text nodes among `inner`.
#[verifier::loop_isolation(false)]
fn push_text_nodes(inner: &Vec<XmlNode>, out: &mut Vec<XmlNode>)
    ensures
        rt_views(final(out)@) == rt_views(old(out)@) + text_nodes(rt_views(inner@)),
{
    let n = inner.len();
    let mut i: usize = 0;
    while i < n
        invariant
            n == inner.len(),
            i <= n,
            rt_views(out@) == rt_views(old(out)@) + text_nodes(rt_views(inner@.subrange(0, i as int))),
        decreases n - i,
    {
        let ghost o0 = out@;
        let ghost sub = inner@.subrange(0, i as int);
        let x = &inner[i];
        proof {
            assert(inner@.subrange(0, i + 1) == sub.push(*x));
            lemma_rt_views_push(sub, *x);
            assert(rt_views(sub.push(*x)).drop_last() =~= rt_views(sub));
        }
        match x {
            XmlNode::Text(t) => {
                let c = XmlNode::Text(t.clone());
                out.push(c);
                proof {
                    lemma_rt_views_push(o0, c);
                }
            },
            _ => {},
        }
        proof {
            assert(rt_views(out@) =~= rt_views(old(out)@) + text_nodes(rt_views(inner@.subrange(0, i + 1))));
        }
        i = i + 1;
    }
    proof {
        assert(inner@.subrange(0, n as int) == inner@);
    }
}

/// The symbol marks of a rule's `alt`th alternative.
fn alt_marks_exec(rule: &Rule, alt: usize) -> (r: Vec<Mark>)
    ensures
        r@ == alt_marks(rule_view(*rule), alt as int),
{
    let mut marks: Vec<Mark> = Vec::new();
    proof {
        lemma_seqs_view_index(rule.alternatives.alts@);
    }
    if alt >= rule.alternatives.alts.len() {
        proof {
            assert(marks@ =~= alt_marks(rule_view(*rule), alt as int));
        }
        return marks;
    }
    let q = &rule.alternatives.alts[alt];
    let ghost qv = rule_view(*rule).alternatives.alts[alt as int];
    proof {
        lemma_factors_view_index(q.factors@);
    }
    let n = q.factors.len();
    let mut i: usize = 0;
    while i < n
        invariant
            n == q.factors.len(),
            i <= n,
            qv.factors.len() == n,
            forall|k: int| 0 <= k < n ==> #[trigger] qv.factors[k] == factor_view(q.factors@[k]),
            marks@ =~= factor_marks(qv).subrange(0, i as int),
        decreases n - i,
    {
        let m = match &q.factors[i].base {
            BaseFactor::Nonterminal { mark, .. } => *mark,
            _ => Mark::Unmarked,
        };
        marks.push(m);
        proof {
            assert(qv.factors[i as int] == factor_view(q.factors@[i as int]));
            assert(marks@ =~= factor_marks(qv).subrange(0, i + 1));
        }
        i = i + 1;
    }
    proof {
        assert(marks@ =~= factor_marks(qv));
    }
    marks
}

/// The node that the `alt`th production of `rule` builds from the nodes
/// of its symbols.
#[verifier::loop_isolation(false)]
pub fn rule_action_node(rule: &Rule, alt: usize, nodes: Vec<XmlNode>) -> (r: XmlNode)
    ensures
        rt_view(r) == rule_action_s(
            rule.name@,
            rule.mark,
            alt_marks(rule_view(*rule), alt as int),
            rt_views(nodes@),
        ),
{
    let marks = alt_marks_exec(rule, alt);
    let ghost mv = marks@;
    let mut attrs: Vec<(String, String)> = Vec::new();
    let mut children: Vec<XmlNode> = Vec::new();
    let n = nodes.len();
    let mut i: usize = 0;
    proof {
        assert(attrs_view(attrs@) =~= Seq::empty());
        assert(rt_views(Seq::<XmlNode>::empty()) =~= Seq::<XmlV>::empty());
        assert(nodes@.subrange(0, 0) =~= Seq::<XmlNode>::empty());
    }
    while i < n
        invariant
            n == nodes.len(),
            i <= n,
            attrs_view(attrs@) == gather(rt_views(nodes@.subrange(0, i as int)), mv).attrs,
            rt_views(children@) == gather(rt_views(nodes@.subrange(0, i as int)), mv).children,
        decreases n - i,
    {
        let ghost sub = nodes@.subrange(0, i as int);
        let ghost g0 = gather(rt_views(sub), mv);
        let ghost a0 = attrs@;
        let ghost c0 = children@;
        let x = &nodes[i];
        let m = if i < marks.len() {
            marks[i]
        } else {
            Mark::Unmarked
        };
        proof {
            assert(nodes@.subrange(0, i + 1) == sub.push(*x));
            lemma_rt_views_push(sub, *x);
            lemma_rt_views_len(sub);
            assert(rt_views(sub.push(*x)).drop_last() =~= rt_views(sub));
            assert(m == mark_at(mv, i as int));
        }
        match x {
            XmlNode::Element { name, attributes, children: inner } => {
                if string_eq(name, "_repeat_container") {
                    push_container_items(inner, &mut children);
                } else if string_eq(name, "_hidden") {
                    push_text_nodes(inner, &mut children);
                } else {
                    match m {
                        Mark::Attribute => {
                            let t = rt_texts(inner);
                            attrs.push((name.clone(), t));
                            proof {
                                assert(attrs_view(attrs@) =~= attrs_view(a0).push((name@, t@)));
                            }
                        },
                        Mark::Unmarked => {
                            let c = clone_rt(x);
                            children.push(c);
                            proof {
                                lemma_rt_views_push(c0, c);
                            }
                        },
                        _ => {
                            let mut more = copy_attrs(attributes);
                            let ghost mo = more@;
                            attrs.append(&mut more);
                            proof {
                                assert(attrs_view(attrs@) =~= attrs_view(a0) + attrs_view(mo));
                            }
                            push_copies(inner, &mut children);
                        },
                    }
                }
            },
            XmlNode::Attribute { name, value } => {
                attrs.push((name.clone(), value.clone()));
                proof {
                    assert(attrs_view(attrs@) =~= attrs_view(a0).push((name@, value@)));
                }
            },
            XmlNode::Text(t) => {
                let c = XmlNode::Text(t.clone());
                children.push(c);
                proof {
                    lemma_rt_views_push(c0, c);
                }
            },
        }
        proof {
            assert(gather(rt_views(nodes@.subrange(0, i + 1)), mv) == gather_step(g0, rt_view(*x), m));
        }
        i = i + 1;
    }
    proof {
        assert(nodes@.subrange(0, n as int) == nodes@);
        lemma_rt_views_len(children@);
    }
    match rule.mark {
        Mark::Unmarked => XmlNode::Element { name: rule.name.clone(), attributes: attrs, children },
        Mark::Attribute => XmlNode::Attribute { name: rule.name.clone(), value: rt_texts(&children) },
        Mark::Hidden => {
            if children.len() == 1 {
                let ghost c0 = children@;
                let c = children.pop().unwrap();
                proof {
                    lemma_rt_views_pop(c0);
                }
                c
            } else {
                proof {
                    assert(attrs_view(Seq::<(String, String)>::empty()) =~= Seq::empty());
                }
                XmlNode::Element { name: String::from_str("__hidden__"), attributes: Vec::new(), children }
            }
        },
        Mark::Promoted => {
            if children.len() == 1 {
                let ghost c0 = children@;
                let c = children.pop().unwrap();
                proof {
                    lemma_rt_views_pop(c0);
                }
                c
            } else {
                proof {
                    assert(attrs_view(Seq::<(String, String)>::empty()) =~= Seq::empty());
                }
                XmlNode::Element { name: String::from_str("__promoted__"), attributes: Vec::new(), children }
            }
        },
    }
}

// ---------------------------------------------------------------------------
// The forest and its actions
// ---------------------------------------------------------------------------

#[verifier::external_type_specification]
#[verifier::external_body]
#[verifier::reject_recursive_types(ASTNode)]
pub struct ExEarleyForest<'a, ASTNode: Clone>(earlgrey::EarleyForest<'a, ASTNode>);

impl Clone for XmlNode {
    fn clone(&self) -> (r: Self)
        ensures
            rt_view(r) == rt_view(*self),
    {
        clone_rt(self)
    }
}

/// The productions for which a forest holds a semantic action.
pub uninterp spec fn forest_productions(f: earlgrey::EarleyForest<'static, XmlNode>) -> Set<Seq<char>>;

pub open spec fn no_productions() -> Set<Seq<char>> {
    Set::empty()
}

/// A text node holding a scanned token.
pub fn text_leaf(token: &str) -> (r: XmlNode)
    ensures
        rt_view(r) == XmlV::Text(token@),
{
    XmlNode::Text(token.to_string())
}

/// `EarleyForest::new`, with a terminal parser that makes each scanned
/// token a text node (`text_leaf`).  A new forest holds no action
/// (`actions` starts as an empty map).
#[verifier::external_body]
fn forest_new() -> (r: earlgrey::EarleyForest<'static, XmlNode>)
    ensures
        forest_productions(r) == no_productions(),
{
    earlgrey::EarleyForest::new(|_symbol: &str, token: &str| text_leaf(token))
}

/// `EarleyForest::action` with an action that calls `rule_action_node` for
/// the `alt`th alternative of `rule`.  `action` inserts the production into
/// its map of actions, replacing an earlier one of that name; what the
/// stored action computes is not stated here (it is `rule_action_node`).
#[verifier::external_body]
fn forest_rule_action(
    f: &mut earlgrey::EarleyForest<'static, XmlNode>,
    production: &str,
    rule: Rule,
    alt: usize,
)
    ensures
        forest_productions(*final(f)) == forest_productions(*old(f)).insert(production@),
{
    f.action(production, move |nodes: Vec<XmlNode>| rule_action_node(&rule, alt, nodes));
}

/// `EarleyForest::action` with an action that calls
/// `repetition_action_node` with `kind`; as `forest_rule_action`, it adds
/// the production to the forest's actions.
#[verifier::external_body]
fn forest_rep_action(f: &mut earlgrey::EarleyForest<'static, XmlNode>, production: &str, kind: RepAction)
    ensures
        forest_productions(*final(f)) == forest_productions(*old(f)).insert(production@),
{
    f.action(production, move |nodes: Vec<XmlNode>| repetition_action_node(kind, nodes));
}

// ---------------------------------------------------------------------------
// Production names
// ---------------------------------------------------------------------------

/// Symbols joined by single spaces.
pub open spec fn join_spaced(ss: Seq<Seq<char>>) -> Seq<char>
    decreases ss.len(),
{
    if ss.len() == 0 {
        Seq::empty()
    } else if ss.len() == 1 {
        ss[0]
    } else {
        join_spaced(ss.drop_last()) + " "@ + ss.last()
    }
}

/// The name under which the forest knows a production: `head -> body`.
pub open spec fn production(head: Seq<char>, body: Seq<Seq<char>>) -> Seq<char> {
    head + " -> "@ + join_spaced(body)
}

/// A rule's production: its name alone when the body is empty.
pub open spec fn rule_production(head: Seq<char>, body: Seq<Seq<char>>) -> Seq<char> {
    if body.len() == 0 {
        head
    } else {
        production(head, body)
    }
}

/// A factor's name without its repetition, and the next group number: a
/// literal of one ASCII character is its terminal, a longer one its
/// sequence (then the mark's suffix); a group is numbered.
pub open spec fn forest_base(f: FactorV, c: nat) -> (Seq<char>, nat) {
    match f.base {
        BaseV::Literal { value, mark, .. } => {
            let b = if value.len() == 1 && (value[0] as u32) < 0x80 {
                char_symbol(value[0])
            } else {
                lit_seq_symbol(value)
            };
            (if mark == Mark::Unmarked {
                b
            } else {
                b + "_"@ + mark_suffix(mark)
            }, c)
        },
        BaseV::Nonterminal { name, .. } => (name, c),
        BaseV::CharClass { content, negated, .. } => (class_symbol(content, negated), c),
        BaseV::Group { .. } => ("group_"@ + decimal(c), next_group(c)),
    }
}

/// A factor's symbol: its base's name with the repetition's suffix.
pub open spec fn rep_symbol(f: FactorV, b: Seq<char>) -> Seq<char> {
    match f.repetition {
        RepV::Once => b,
        RepV::OneOrMore => b + "_plus"@,
        RepV::ZeroOrMore => b + "_star"@,
        RepV::Optional => b + "_opt"@,
        RepV::SeparatedZeroOrMore(sep) => b + "_sep_"@ + seq_id_from(sep.factors, 0) + "_star"@,
        RepV::SeparatedOneOrMore(sep) => b + "_sep_"@ + seq_id_from(sep.factors, 0) + "_plus"@,
    }
}

/// The symbols of a separator (its groups all named `group_0`).
pub open spec fn sep_symbols(fs: Seq<FactorV>) -> Seq<Seq<char>> {
    fs.map_values(|f: FactorV| rep_symbol(f, forest_base(f, 0).0))
}

/// The productions of a factor's repetition helper, whose base is `b`.
pub open spec fn rep_prods(f: FactorV, b: Seq<char>) -> Set<Seq<char>> {
    match f.repetition {
        RepV::Once => Set::empty(),
        RepV::OneOrMore => {
            let p = b + "_plus"@;
            set![production(p, seq![b]), production(p, seq![p, b])]
        },
        RepV::ZeroOrMore => {
            let st = b + "_star"@;
            set![production(st, Seq::empty()), production(st, seq![st, b])]
        },
        RepV::Optional => {
            let o = b + "_opt"@;
            set![production(o, Seq::empty()), production(o, seq![b])]
        },
        RepV::SeparatedZeroOrMore(sep) => {
            let id = seq_id_from(sep.factors, 0);
            let st = b + "_sep_"@ + id + "_star"@;
            let p = b + "_sep_"@ + id + "_plus"@;
            set![
                production(st, Seq::empty()),
                production(st, seq![p]),
                production(p, seq![b]),
                production(p, seq![p] + sep_symbols(sep.factors) + seq![b]),
            ]
        },
        RepV::SeparatedOneOrMore(sep) => {
            let id = seq_id_from(sep.factors, 0);
            let p = b + "_sep_"@ + id + "_plus"@;
            set![production(p, seq![b]), production(p, seq![p] + sep_symbols(sep.factors) + seq![b])]
        },
    }
}

/// The repetition productions of a factor with base `b` and of the factors
/// inside it (for a group), and the next group number.
pub open spec fn factor_prods(f: FactorV, b: Seq<char>, c: nat) -> (Set<Seq<char>>, nat)
    decreases f, 0int, 0int,
{
    match f.base {
        BaseV::Group { alternatives } => {
            let (s2, c2) = group_prods(alternatives.alts, 0, c);
            (rep_prods(f, b) + s2, c2)
        },
        _ => (rep_prods(f, b), c),
    }
}

/// The repetition productions inside the alternatives from `i` on.
pub open spec fn group_prods(qs: Seq<SeqV>, i: int, c: nat) -> (Set<Seq<char>>, nat)
    decreases qs, qs.len() - i, 0int,
{
    if 0 <= i < qs.len() {
        let (s1, c1) = factors_prods(qs[i].factors, 0, c);
        let (s2, c2) = group_prods(qs, i + 1, c1);
        (s1 + s2, c2)
    } else {
        (Set::empty(), c)
    }
}

/// The repetition productions of the factors from `k` on, each named in
/// turn.
pub open spec fn factors_prods(fs: Seq<FactorV>, k: int, c: nat) -> (Set<Seq<char>>, nat)
    decreases fs, fs.len() - k, 0int,
{
    if 0 <= k < fs.len() {
        let (b, c1) = forest_base(fs[k], c);
        let (s1, c2) = factor_prods(fs[k], b, c1);
        let (s2, c3) = factors_prods(fs, k + 1, c2);
        (s1 + s2, c3)
    } else {
        (Set::empty(), c)
    }
}

/// `production(head, body)`, written out.
fn production_exec(head: &String, body: &Vec<String>) -> (r: String)
    ensures
        r@ == production(head@, names_view(body@)),
{
    let mut out = head.clone();
    append_str(&mut out, " -> ");
    let n = body.len();
    let mut i: usize = 0;
    while i < n
        invariant
            n == body.len(),
            i <= n,
            out@ == head@ + " -> "@ + join_spaced(names_view(body@).subrange(0, i as int)),
        decreases n - i,
    {
        let ghost sub = names_view(body@).subrange(0, i as int);
        if i > 0 {
            append_str(&mut out, " ");
        }
        append_str(&mut out, body[i].as_str());
        proof {
            let nx = names_view(body@).subrange(0, i + 1);
            assert(nx.drop_last() =~= sub);
            assert(nx.last() == body@[i as int]@);
            if i == 0 {
                assert(sub.len() == 0);
                assert(join_spaced(sub) =~= Seq::<char>::empty());
            }
        }
        i = i + 1;
    }
    proof {
        assert(names_view(body@).subrange(0, n as int) =~= names_view(body@));
    }
    out
}

/// A rule's production name.
fn rule_production_exec(head: &String, body: &Vec<String>) -> (r: String)
    ensures
        r@ == rule_production(head@, names_view(body@)),
{
    if body.len() == 0 {
        head.clone()
    } else {
        production_exec(head, body)
    }
}

/// The base name of a factor (see `forest_base`); advances the group
/// counter for a group.
fn forest_base_exec(f: &Factor, counter: &mut usize) -> (r: String)
    ensures
        (r@, *final(counter) as nat) == forest_base(factor_view(*f), *old(counter) as nat),
{
    match &f.base {
        BaseFactor::Literal { value, mark, .. } => {
            let cs = str_to_chars(value.as_str());
            let b = if cs.len() == 1 && (cs[0] as u32) < 0x80 {
                char_symbol_exec(cs[0])
            } else {
                lit_seq_symbol_exec(value.as_str())
            };
            match mark {
                Mark::Unmarked => b,
                _ => {
                    let mut m = b;
                    append_str(&mut m, "_");
                    push_mark_suffix(&mut m, *mark);
                    m
                },
            }
        },
        BaseFactor::Nonterminal { name, .. } => name.clone(),
        BaseFactor::CharClass { content, negated, .. } => class_symbol_exec(content.as_str(), *negated),
        BaseFactor::Group { .. } => {
            let mut g = String::from_str("group_");
            push_decimal(&mut g, *counter);
            *counter = if *counter == usize::MAX {
                0
            } else {
                *counter + 1
            };
            g
        },
    }
}

/// A factor's symbol (see `rep_symbol`).
fn rep_symbol_exec(f: &Factor, b: &String) -> (r: String)
    ensures
        r@ == rep_symbol(factor_view(*f), b@),
{
    let mut s = b.clone();
    match &f.repetition {
        Repetition::Once => {},
        Repetition::OneOrMore => append_str(&mut s, "_plus"),
        Repetition::ZeroOrMore => append_str(&mut s, "_star"),
        Repetition::Optional => append_str(&mut s, "_opt"),
        Repetition::SeparatedZeroOrMore(sep) => {
            append_str(&mut s, "_sep_");
            let id = seq_id_exec(sep);
            append_str(&mut s, id.as_str());
            append_str(&mut s, "_star");
        },
        Repetition::SeparatedOneOrMore(sep) => {
            append_str(&mut s, "_sep_");
            let id = seq_id_exec(sep);
            append_str(&mut s, id.as_str());
            append_str(&mut s, "_plus");
        },
    }
    s
}

/// The symbols of a separator (see `sep_symbols`).
fn sep_symbols_exec(sep: &Sequence) -> (r: Vec<String>)
    ensures
        names_view(r@) == sep_symbols(sequence_view(*sep).factors),
{
    let ghost fs = sequence_view(*sep).factors;
    proof {
        lemma_factors_view_index(sep.factors@);
    }
    let mut out: Vec<String> = Vec::new();
    let n = sep.factors.len();
    let mut k: usize = 0;
    while k < n
        invariant
            n == sep.factors.len(),
            k <= n,
            fs == sequence_view(*sep).factors,
            fs.len() == n,
            forall|x: int| 0 <= x < n ==> #[trigger] fs[x] == factor_view(sep.factors@[x]),
            names_view(out@) =~= sep_symbols(fs).subrange(0, k as int),
        decreases n - k,
    {
        let mut zero: usize = 0;
        let b = forest_base_exec(&sep.factors[k], &mut zero);
        let sym = rep_symbol_exec(&sep.factors[k], &b);
        let ghost o0 = out@;
        out.push(sym);
        proof {
            assert(fs[k as int] == factor_view(sep.factors@[k as int]));
            assert(b@ == forest_base(fs[k as int], 0).0);
            assert(sep_symbols(fs)[k as int] == rep_symbol(fs[k as int], forest_base(fs[k as int], 0).0));
            assert(out@ == o0.push(sym));
            assert(names_view(out@) =~= names_view(o0).push(sym@));
            assert(names_view(out@) =~= sep_symbols(fs).subrange(0, k + 1));
        }
        k = k + 1;
    }
    out
}

/// Registers one repetition action and records its production.
fn add_rep_action(
    forest: &mut earlgrey::EarleyForest<'static, XmlNode>,
    head: &String,
    body: &Vec<String>,
    kind: RepAction,
)
    ensures
        forest_productions(*final(forest)) == forest_productions(*old(forest)).insert(
            production(head@, names_view(body@)),
        ),
{
    let p = production_exec(head, body);
    forest_rep_action(forest, p.as_str(), kind);
}

/// A name with a suffix.
fn suffixed(b: &String, suffix: &str) -> (r: String)
    ensures
        r@ == b@ + suffix@,
{
    let mut s = b.clone();
    append_str(&mut s, suffix);
    s
}

/// Registers the actions of a factor's repetition helper, whose base is
/// `base`, and those of the repetitions inside it when it is a group.
pub fn register_repetition_actions(
    forest: &mut earlgrey::EarleyForest<'static, XmlNode>,
    factor: &Factor,
    base: &String,
    counter: &mut usize,
)
    ensures
        ({
            let (ps, c) = factor_prods(factor_view(*factor), base@, *old(counter) as nat);
            &&& forest_productions(*final(forest)) == forest_productions(*old(forest)) + ps
            &&& *final(counter) == c
        }),
    decreases factor, 1int,
{
    let ghost p0 = forest_productions(*forest);
    let ghost fv = factor_view(*factor);
    let b = base.clone();
    let empty: Vec<String> = Vec::new();
    proof {
        assert(names_view(empty@) =~= Seq::<Seq<char>>::empty());
    }
    match &factor.repetition {
        Repetition::Once => {
            proof {
                assert(p0 + Set::<Seq<char>>::empty() =~= p0);
            }
        },
        Repetition::OneOrMore => {
            let p = suffixed(&b, "_plus");
            let one = vec![b.clone()];
            let two = vec![p.clone(), b.clone()];
            proof {
                assert(names_view(one@) =~= seq![b@]);
                assert(names_view(two@) =~= seq![p@, b@]);
            }
            add_rep_action(forest, &p, &one, RepAction::Container);
            add_rep_action(forest, &p, &two, RepAction::Append);
            proof {
                assert(forest_productions(*forest) =~= p0 + rep_prods(fv, base@));
            }
        },
        Repetition::ZeroOrMore => {
            let st = suffixed(&b, "_star");
            let two = vec![st.clone(), b.clone()];
            proof {
                assert(names_view(two@) =~= seq![st@, b@]);
            }
            add_rep_action(forest, &st, &empty, RepAction::Container);
            add_rep_action(forest, &st, &two, RepAction::Append);
            proof {
                assert(forest_productions(*forest) =~= p0 + rep_prods(fv, base@));
            }
        },
        Repetition::Optional => {
            let o = suffixed(&b, "_opt");
            let one = vec![b.clone()];
            proof {
                assert(names_view(one@) =~= seq![b@]);
            }
            add_rep_action(forest, &o, &empty, RepAction::Container);
            add_rep_action(forest, &o, &one, RepAction::Container);
            proof {
                assert(forest_productions(*forest) =~= p0 + rep_prods(fv, base@));
            }
        },
        Repetition::SeparatedZeroOrMore(sep) => {
            let id = seq_id_exec(sep);
            let mut st = suffixed(&b, "_sep_");
            append_str(&mut st, id.as_str());
            let mut p = st.clone();
            append_str(&mut st, "_star");
            append_str(&mut p, "_plus");
            let ss = sep_symbols_exec(sep);
            let one_p = vec![p.clone()];
            let one_b = vec![b.clone()];
            let mut rec = vec![p.clone()];
            let mut ss2 = ss;
            let ghost ssv = names_view(ss2@);
            let nsep = ss2.len();
            rec.append(&mut ss2);
            rec.push(b.clone());
            proof {
                assert(names_view(one_p@) =~= seq![p@]);
                assert(names_view(one_b@) =~= seq![b@]);
                assert(names_view(rec@) =~= seq![p@] + ssv + seq![b@]);
            }
            add_rep_action(forest, &st, &empty, RepAction::Container);
            add_rep_action(forest, &st, &one_p, RepAction::Container);
            add_rep_action(forest, &p, &one_b, RepAction::Container);
            add_rep_action(forest, &p, &rec, RepAction::AppendSeparated(nsep));
            proof {
                assert(forest_productions(*forest) =~= p0 + rep_prods(fv, base@));
            }
        },
        Repetition::SeparatedOneOrMore(sep) => {
            let id = seq_id_exec(sep);
            let mut p = suffixed(&b, "_sep_");
            append_str(&mut p, id.as_str());
            append_str(&mut p, "_plus");
            let ss = sep_symbols_exec(sep);
            let one_b = vec![b.clone()];
            let mut rec = vec![p.clone()];
            let mut ss2 = ss;
            let ghost ssv = names_view(ss2@);
            let nsep = ss2.len();
            rec.append(&mut ss2);
            rec.push(b.clone());
            proof {
                assert(names_view(one_b@) =~= seq![b@]);
                assert(names_view(rec@) =~= seq![p@] + ssv + seq![b@]);
            }
            add_rep_action(forest, &p, &one_b, RepAction::Container);
            add_rep_action(forest, &p, &rec, RepAction::AppendSeparated(nsep));
            proof {
                assert(forest_productions(*forest) =~= p0 + rep_prods(fv, base@));
            }
        },
    }
    let ghost p1 = forest_productions(*forest);
    match &factor.base {
        BaseFactor::Group { alternatives } => {
            register_group(forest, alternatives, counter);
            proof {
                let (s2, c2) = group_prods(alts_view(**alternatives).alts, 0, *old(counter) as nat);
                assert(forest_productions(*forest) =~= p0 + (rep_prods(fv, base@) + s2));
            }
        },
        _ => {},
    }
}

/// Registers the repetition actions inside a group's alternatives.
fn register_group(forest: &mut earlgrey::EarleyForest<'static, XmlNode>, a: &Alternatives, counter: &mut usize)
    ensures
        ({
            let (ps, c) = group_prods(alts_view(*a).alts, 0, *old(counter) as nat);
            &&& forest_productions(*final(forest)) == forest_productions(*old(forest)) + ps
            &&& *final(counter) == c
        }),
    decreases a, 0int,
{
    let ghost qs = alts_view(*a).alts;
    let ghost p0 = forest_productions(*forest);
    let ghost c0 = *counter as nat;
    proof {
        lemma_seqs_view_index(a.alts@);
    }
    let ghost mut done: Set<Seq<char>> = Set::empty();
    let mut i: usize = 0;
    while i < a.alts.len()
        invariant
            i <= a.alts.len(),
            qs == alts_view(*a).alts,
            qs.len() == a.alts.len(),
            forall|x: int| 0 <= x < a.alts.len() ==> #[trigger] qs[x] == sequence_view(a.alts@[x]),
            forest_productions(*forest) == p0 + done,
            group_prods(qs, 0, c0).0 == done + group_prods(qs, i as int, *counter as nat).0,
            group_prods(qs, 0, c0).1 == group_prods(qs, i as int, *counter as nat).1,
        decreases a.alts.len() - i,
    {
        let ghost ci = *counter as nat;
        register_factors(forest, &a.alts[i], counter);
        proof {
            let (s1, c1) = factors_prods(qs[i as int].factors, 0, ci);
            let (s2, c2) = group_prods(qs, i + 1, c1);
            assert(group_prods(qs, i as int, ci) == (s1 + s2, c2));
            assert(done + (s1 + s2) =~= (done + s1) + s2);
            assert(p0 + done + s1 =~= p0 + (done + s1));
            done = done + s1;
        }
        i = i + 1;
    }
    proof {
        assert(done + Set::<Seq<char>>::empty() =~= done);
    }
}

/// Registers the repetition actions of a sequence's factors, each named in
/// turn.
fn register_factors(forest: &mut earlgrey::EarleyForest<'static, XmlNode>, q: &Sequence, counter: &mut usize)
    ensures
        ({
            let (ps, c) = factors_prods(sequence_view(*q).factors, 0, *old(counter) as nat);
            &&& forest_productions(*final(forest)) == forest_productions(*old(forest)) + ps
            &&& *final(counter) == c
        }),
    decreases q, 0int,
{
    let ghost fs = sequence_view(*q).factors;
    let ghost p0 = forest_productions(*forest);
    let ghost c0 = *counter as nat;
    proof {
        lemma_factors_view_index(q.factors@);
    }
    let ghost mut done: Set<Seq<char>> = Set::empty();
    let mut k: usize = 0;
    while k < q.factors.len()
        invariant
            k <= q.factors.len(),
            fs == sequence_view(*q).factors,
            fs.len() == q.factors.len(),
            forall|x: int| 0 <= x < q.factors.len() ==> #[trigger] fs[x] == factor_view(q.factors@[x]),
            forest_productions(*forest) == p0 + done,
            factors_prods(fs, 0, c0).0 == done + factors_prods(fs, k as int, *counter as nat).0,
            factors_prods(fs, 0, c0).1 == factors_prods(fs, k as int, *counter as nat).1,
        decreases q.factors.len() - k,
    {
        let ghost ck = *counter as nat;
        let b = forest_base_exec(&q.factors[k], counter);
        let ghost cb = *counter as nat;
        register_repetition_actions(forest, &q.factors[k], &b, counter);
        proof {
            let (bn, c1) = forest_base(fs[k as int], ck);
            let (s1, c2) = factor_prods(fs[k as int], bn, c1);
            let (s2, c3) = factors_prods(fs, k + 1, c2);
            assert(factors_prods(fs, k as int, ck) == (s1 + s2, c3));
            assert(done + (s1 + s2) =~= (done + s1) + s2);
            assert(p0 + done + s1 =~= p0 + (done + s1));
            done = done + s1;
        }
        k = k + 1;
    }
    proof {
        assert(done + Set::<Seq<char>>::empty() =~= done);
    }
}

// ---------------------------------------------------------------------------
// A rule's actions
// ---------------------------------------------------------------------------

/// The base names of the factors from `k` on, named in turn, and the next
/// group number.
pub open spec fn alt_bases(fs: Seq<FactorV>, k: int, c: nat) -> (Seq<Seq<char>>, nat)
    decreases fs.len() - k,
{
    if 0 <= k < fs.len() {
        let (b, c1) = forest_base(fs[k], c);
        let (bs, c2) = alt_bases(fs, k + 1, c1);
        (seq![b] + bs, c2)
    } else {
        (Seq::empty(), c)
    }
}

/// The symbols of factors with the given base names.
pub open spec fn alt_symbols(fs: Seq<FactorV>, bases: Seq<Seq<char>>) -> Seq<Seq<char>> {
    Seq::new(fs.len(), |j: int| rep_symbol(fs[j], bases[j]))
}

/// The repetition productions of the factors from `k` on, whose base
/// names are `bases`.
pub open spec fn reps_prods(fs: Seq<FactorV>, bases: Seq<Seq<char>>, k: int, c: nat) -> (Set<Seq<char>>, nat)
    decreases fs.len() - k,
{
    if 0 <= k < fs.len() {
        let (s1, c1) = factor_prods(fs[k], bases[k], c);
        let (s2, c2) = reps_prods(fs, bases, k + 1, c1);
        (s1 + s2, c2)
    } else {
        (Set::empty(), c)
    }
}

/// The productions registered for the alternatives of rule `name` from
/// `i` on: for each, its own production (over its factors' symbols), then
/// the repetition productions of its factors.
pub open spec fn rule_prods(name: Seq<char>, qs: Seq<SeqV>, i: int, c: nat) -> (Set<Seq<char>>, nat)
    decreases qs.len() - i,
{
    if 0 <= i < qs.len() {
        let fs = qs[i].factors;
        let (bs, c1) = alt_bases(fs, 0, c);
        let p = rule_production(name, alt_symbols(fs, bs));
        let (s1, c2) = reps_prods(fs, bs, 0, c1);
        let (s2, c3) = rule_prods(name, qs, i + 1, c2);
        (set![p] + s1 + s2, c3)
    } else {
        (Set::empty(), c)
    }
}

proof fn lemma_alt_bases_len(fs: Seq<FactorV>, k: int, c: nat)
    requires
        0 <= k <= fs.len(),
    ensures
        alt_bases(fs, k, c).0.len() == fs.len() - k,
    decreases fs.len() - k,
{
    if k < fs.len() {
        lemma_alt_bases_len(fs, k + 1, forest_base(fs[k], c).1);
    }
}

/// Registers the actions of a rule's productions and of the repetition
/// helpers they use; group numbers come from `counter`.
pub fn register_rule_actions(
    forest: &mut earlgrey::EarleyForest<'static, XmlNode>,
    rule: &Rule,
    counter: &mut usize,
)
    ensures
        ({
            let (ps, c) = rule_prods(rule.name@, rule_view(*rule).alternatives.alts, 0, *old(counter) as nat);
            &&& forest_productions(*final(forest)) == forest_productions(*old(forest)) + ps
            &&& *final(counter) == c
        }),
{
    let ghost qs = rule_view(*rule).alternatives.alts;
    let ghost p0 = forest_productions(*forest);
    let ghost c0 = *counter as nat;
    proof {
        lemma_seqs_view_index(rule.alternatives.alts@);
    }
    let ghost mut done: Set<Seq<char>> = Set::empty();
    let mut i: usize = 0;
    while i < rule.alternatives.alts.len()
        invariant
            i <= rule.alternatives.alts.len(),
            qs == rule_view(*rule).alternatives.alts,
            qs.len() == rule.alternatives.alts.len(),
            forall|x: int|
                0 <= x < rule.alternatives.alts.len() ==> #[trigger] qs[x] == sequence_view(
                    rule.alternatives.alts@[x],
                ),
            forest_productions(*forest) == p0 + done,
            rule_prods(rule.name@, qs, 0, c0).0 == done + rule_prods(rule.name@, qs, i as int, *counter as nat).0,
            rule_prods(rule.name@, qs, 0, c0).1 == rule_prods(rule.name@, qs, i as int, *counter as nat).1,
        decreases rule.alternatives.alts.len() - i,
    {
        let q = &rule.alternatives.alts[i];
        let ghost fs = qs[i as int].factors;
        let ghost ci = *counter as nat;
        let ghost pi = forest_productions(*forest);
        proof {
            lemma_factors_view_index(q.factors@);
            lemma_alt_bases_len(fs, 0, ci);
        }
        let mut bases: Vec<String> = Vec::new();
        let mut syms: Vec<String> = Vec::new();
        let n = q.factors.len();
        let mut k: usize = 0;
        while k < n
            invariant
                n == q.factors.len(),
                k <= n,
                fs == sequence_view(*q).factors,
                fs.len() == n,
                forall|x: int| 0 <= x < n ==> #[trigger] fs[x] == factor_view(q.factors@[x]),
                bases.len() == k,
                syms.len() == k,
                alt_bases(fs, 0, ci).0 == names_view(bases@) + alt_bases(fs, k as int, *counter as nat).0,
                alt_bases(fs, 0, ci).1 == alt_bases(fs, k as int, *counter as nat).1,
                forall|j: int| 0 <= j < k ==> #[trigger] syms@[j]@ == rep_symbol(fs[j], bases@[j]@),
            decreases n - k,
        {
            let ghost ck = *counter as nat;
            let b = forest_base_exec(&q.factors[k], counter);
            let sym = rep_symbol_exec(&q.factors[k], &b);
            let ghost b0 = bases@;
            let ghost s0 = syms@;
            bases.push(b);
            syms.push(sym);
            proof {
                assert(fs[k as int] == factor_view(q.factors@[k as int]));
                let (bn, c1) = forest_base(fs[k as int], ck);
                let (bs, c2) = alt_bases(fs, k + 1, c1);
                assert(alt_bases(fs, k as int, ck) == (seq![bn] + bs, c2));
                assert(names_view(bases@) =~= names_view(b0).push(b@));
                assert(names_view(b0) + (seq![bn] + bs) =~= names_view(bases@) + bs);
                assert forall|j: int| 0 <= j < k + 1 implies #[trigger] syms@[j]@ == rep_symbol(fs[j], bases@[j]@) by {
                    if j < k {
                        assert(syms@[j] == s0[j]);
                        assert(bases@[j] == b0[j]);
                    }
                }
            }
            k = k + 1;
        }
        let ghost bs = names_view(bases@);
        let ghost c1 = *counter as nat;
        proof {
            assert(alt_bases(fs, n as int, c1).0 =~= Seq::<Seq<char>>::empty());
            assert(bs =~= alt_bases(fs, 0, ci).0);
            assert(names_view(syms@) =~= alt_symbols(fs, bs));
        }
        let prod = rule_production_exec(&rule.name, &syms);
        let r = clone_rule(rule);
        forest_rule_action(forest, prod.as_str(), r, i);
        let ghost pm = forest_productions(*forest);
        let ghost mut reps: Set<Seq<char>> = Set::empty();
        let mut k2: usize = 0;
        while k2 < n
            invariant
                n == q.factors.len(),
                k2 <= n,
                fs == sequence_view(*q).factors,
                fs.len() == n,
                bases.len() == n,
                bs == names_view(bases@),
                bs.len() == n,
                forall|x: int| 0 <= x < n ==> #[trigger] fs[x] == factor_view(q.factors@[x]),
                forest_productions(*forest) == pm + reps,
                reps_prods(fs, bs, 0, c1).0 == reps + reps_prods(fs, bs, k2 as int, *counter as nat).0,
                reps_prods(fs, bs, 0, c1).1 == reps_prods(fs, bs, k2 as int, *counter as nat).1,
            decreases n - k2,
        {
            let ghost ck = *counter as nat;
            register_repetition_actions(forest, &q.factors[k2], &bases[k2], counter);
            proof {
                assert(fs[k2 as int] == factor_view(q.factors@[k2 as int]));
                assert(bs[k2 as int] == bases@[k2 as int]@);
                let (s1, c2) = factor_prods(fs[k2 as int], bs[k2 as int], ck);
                let (s2, c3) = reps_prods(fs, bs, k2 + 1, c2);
                assert(reps_prods(fs, bs, k2 as int, ck) == (s1 + s2, c3));
                assert(reps + (s1 + s2) =~= (reps + s1) + s2);
                assert(pm + reps + s1 =~= pm + (reps + s1));
                reps = reps + s1;
            }
            k2 = k2 + 1;
        }
        proof {
            let p = rule_production(rule.name@, alt_symbols(fs, bs));
            assert(reps + Set::<Seq<char>>::empty() =~= reps);
            assert(pm == pi.insert(p));
            let (s2, c3) = rule_prods(rule.name@, qs, i + 1, *counter as nat);
            assert(rule_prods(rule.name@, qs, i as int, ci) == (set![p] + reps + s2, c3));
            assert(done + (set![p] + reps + s2) =~= (done + (set![p] + reps)) + s2);
            assert(forest_productions(*forest) =~= p0 + (done + (set![p] + reps)));
            done = done + (set![p] + reps);
        }
        i = i + 1;
    }
    proof {
        assert(done + Set::<Seq<char>>::empty() =~= done);
    }
}

/// Gathering repetition items is associative in the way the helpers use
/// it: a container of items `xs` followed by a new node `y` becomes the
/// container of `xs` then `y`, and an empty container followed by `y` the
/// container of `y` alone.
pub proof fn law_append_extends_container(xs: Seq<XmlV>, y: XmlV)
    ensures
        repetition_action_s(RepAction::Append, seq![container(xs), y]) == container(xs.push(y)),
        repetition_action_s(RepAction::Append, seq![container(Seq::empty()), y]) == container(seq![y]),
{
    assert(xs + seq![y] =~= xs.push(y));
    assert(Seq::<XmlV>::empty() + seq![y] =~= seq![y]);
}

} // verus!
