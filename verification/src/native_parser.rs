//! Native iXML interpreter: a recursive descent parser that reads the
//! grammar's abstract syntax directly and handles insertions, marks and
//! suppression itself.  What it computes is stated in `crate::semantics`.
use vstd::prelude::*;

use crate::ast::{
    alts_view, base_view, clone_rule, factor_view, rule_view, rules_view, sequence_view, AltsV,
    Alternatives, BaseFactor, Factor, IxmlGrammar, Mark, Repetition, Rule, RuleV, Sequence,
};
use crate::charclass::class_admits_exec;
use crate::input_stream::InputStream;
use crate::parse_context::{opt_view, ParseContext, ParseError, ParseErrorV, ParseResult};
use crate::semantics::{
    alt_loop, alts_s, attr_nodes, attrs_of, base_s, charclass_s, factor_mark_one, factor_mark_s,
    factor_s, find_rule, flat_one, flat_s, head20, lemma_count_free_insert, lemma_find_rule,
    lemma_rule_table, lemma_size_factors_from, lemma_size_seqs_from, merge_fold, merge_s,
    names_of, non_attrs_of, nonterm_s, is_char_rule, referenced_node, opt_s, parse_s, plus_s, rule_mark_s, rule_s, rule_table,
    sep_loop, sep_plus_s, sep_star_s, seq_loop, seq_node, seq_s, size_alts, size_base,
    size_factor, size_factors_from, size_seq, size_seqs_from, star_loop, terminal_s, unwrap_seq,
    upsert, count_free, lit_mismatch, node_for, push_opt, Env, Out,
};
use crate::text::{append_str, char_to_string, chars_to_string, debug_str, str_to_chars, string_eq};
use crate::xml_node::{
    attrs_view, clone_xml, lemma_xmls_view_push, xml_view, xmls_view, XmlNode, XmlV,
};

verus! {

/// Whether `rule` is a character rule (see `is_char_rule`).
fn is_char_rule_exec(rule: &Rule) -> (r: bool)
    ensures
        r == is_char_rule(rule_view(*rule)),
{
    if rule.mark != Mark::Unmarked || rule.alternatives.alts.len() != 1 {
        return false;
    }
    let q = &rule.alternatives.alts[0];
    if q.factors.len() != 1 {
        return false;
    }
    let f = &q.factors[0];
    let once = match &f.repetition {
        Repetition::Once => true,
        _ => false,
    };
    if !once {
        return false;
    }
    match &f.base {
        BaseFactor::CharClass { mark, .. } => *mark == Mark::Unmarked,
        _ => false,
    }
}

/// Native iXML parser that interprets grammar ASTs directly.
pub struct NativeParser {
    grammar: IxmlGrammar,
    /// One rule per name, in order of first appearance; the last definition
    /// of a name wins.
    rules: Vec<Rule>,
}

// ---------------------------------------------------------------------------
// Results, as the semantics sees them
// ---------------------------------------------------------------------------

/// The view of a parse step's result.
pub open spec fn res_view(r: Result<ParseResult, ParseError>) -> Result<(Option<XmlV>, nat), ParseErrorV> {
    match r {
        Ok(p) => Ok((opt_view(p.node), p.consumed as nat)),
        Err(e) => Err(e@),
    }
}

/// The outcome of a step that left `last` as the rule entered last.
pub open spec fn outcome(r: Result<ParseResult, ParseError>, last: Seq<char>) -> Out {
    Out { res: res_view(r), last }
}

/// A step kept the input and moved the position by what it consumed (not at
/// all if it failed).
pub open spec fn stepped(s0: InputStream, s1: InputStream, r: Result<ParseResult, ParseError>) -> bool {
    &&& s1.text() == s0.text()
    &&& s1.wf()
    &&& s1.pos() == match r {
        Ok(p) => s0.pos() + p.consumed,
        Err(_) => s0.pos(),
    }
}

proof fn lemma_xmls_view_one(x: XmlNode)
    ensures
        xmls_view(seq![x]) == seq![xml_view(x)],
{
    lemma_xmls_view_push(Seq::empty(), x);
    assert(Seq::<XmlNode>::empty().push(x) == seq![x]);
}

// ---------------------------------------------------------------------------
// Node helpers
// ---------------------------------------------------------------------------

/// The children of a `_sequence` wrapper, or the node alone.
fn unwrap_sequence(n: XmlNode) -> (r: Vec<XmlNode>)
    ensures
        xmls_view(r@) == unwrap_seq(xml_view(n)),
{
    match n {
        XmlNode::Element { name, attributes, children } => {
            if string_eq(&name, "_sequence") {
                children
            } else {
                let e = XmlNode::Element { name, attributes, children };
                let mut v: Vec<XmlNode> = Vec::new();
                v.push(e);
                proof {
                    lemma_xmls_view_one(e);
                    assert(v@ == seq![e]);
                }
                v
            }
        },
        other => {
            let mut v: Vec<XmlNode> = Vec::new();
            v.push(other);
            proof {
                lemma_xmls_view_one(other);
                assert(v@ == seq![other]);
            }
            v
        },
    }
}

/// Appends `n` to `out`, or, for a `_sequence` wrapper, its flattened children.
#[verifier::loop_isolation(false)]
fn flatten_into(n: &XmlNode, out: &mut Vec<XmlNode>)
    ensures
        xmls_view(final(out)@) == xmls_view(old(out)@) + flat_one(xml_view(*n)),
    decreases n,
{
    match n {
        XmlNode::Element { name, children, .. } => {
            if string_eq(name, "_sequence") {
                let ghost start = out@;
                let mut i: usize = 0;
                while i < children.len()
                    invariant
                        i <= children.len(),
                        xmls_view(out@) == xmls_view(start) + flat_s(
                            xmls_view(children@.subrange(0, i as int)),
                        ),
                    decreases children.len() - i,
                {
                    let ghost before = out@;
                    flatten_into(&children[i], out);
                    proof {
                        let sub = children@.subrange(0, i as int);
                        assert(children@.subrange(0, i + 1) == sub.push(children@[i as int]));
                        lemma_xmls_view_push(sub, children@[i as int]);
                        let xs = xmls_view(sub);
                        let x = xml_view(children@[i as int]);
                        assert(xs.push(x).drop_last() == xs);
                        assert(flat_s(xs.push(x)) == flat_s(xs) + flat_one(x));
                        assert(xmls_view(out@) =~= xmls_view(start) + flat_s(xs.push(x)));
                    }
                    i = i + 1;
                }
                proof {
                    assert(children@.subrange(0, children.len() as int) == children@);
                }
            } else {
                let c = clone_xml(n);
                let ghost before = out@;
                out.push(c);
                proof {
                    lemma_xmls_view_push(before, c);
                    assert(xmls_view(out@) =~= xmls_view(before) + seq![xml_view(*n)]);
                }
            }
        },
        _ => {
            let c = clone_xml(n);
            let ghost before = out@;
            out.push(c);
            proof {
                lemma_xmls_view_push(before, c);
                assert(xmls_view(out@) =~= xmls_view(before) + seq![xml_view(*n)]);
            }
        },
    }
}

/// Splits nodes into the attributes (as pairs) and the rest.
fn partition_attributes(children: &Vec<XmlNode>) -> (r: (Vec<(String, String)>, Vec<XmlNode>))
    ensures
        attrs_view(r.0@) == attrs_of(xmls_view(children@)),
        xmls_view(r.1@) == non_attrs_of(xmls_view(children@)),
{
    let mut attrs: Vec<(String, String)> = Vec::new();
    let mut rest: Vec<XmlNode> = Vec::new();
    let mut i: usize = 0;
    while i < children.len()
        invariant
            i <= children.len(),
            attrs_view(attrs@) == attrs_of(xmls_view(children@.subrange(0, i as int))),
            xmls_view(rest@) == non_attrs_of(xmls_view(children@.subrange(0, i as int))),
        decreases children.len() - i,
    {
        let ghost sub = children@.subrange(0, i as int);
        proof {
            assert(children@.subrange(0, i + 1) == sub.push(children@[i as int]));
            lemma_xmls_view_push(sub, children@[i as int]);
            let xs = xmls_view(sub);
            assert(xs.push(xml_view(children@[i as int])).drop_last() == xs);
        }
        match &children[i] {
            XmlNode::Attribute { name, value } => {
                let ghost before = attrs@;
                attrs.push((name.clone(), value.clone()));
                proof {
                    assert(attrs_view(attrs@) =~= attrs_view(before).push((name@, value@)));
                }
            },
            other => {
                let c = clone_xml(other);
                let ghost before = rest@;
                rest.push(c);
                proof {
                    lemma_xmls_view_push(before, c);
                }
            },
        }
        i = i + 1;
    }
    proof {
        assert(children@.subrange(0, children.len() as int) == children@);
    }
    (attrs, rest)
}

/// The attributes of an element as attribute nodes, followed by its children.
fn attributes_then_children(attributes: &Vec<(String, String)>, children: &Vec<XmlNode>) -> (r: Vec<
    XmlNode,
>)
    ensures
        xmls_view(r@) == attr_nodes(attrs_view(attributes@)) + xmls_view(children@),
{
    let mut out: Vec<XmlNode> = Vec::new();
    let mut i: usize = 0;
    while i < attributes.len()
        invariant
            i <= attributes.len(),
            xmls_view(out@) == attr_nodes(attrs_view(attributes@.subrange(0, i as int))),
        decreases attributes.len() - i,
    {
        let a = XmlNode::Attribute { name: attributes[i].0.clone(), value: attributes[i].1.clone() };
        let ghost before = out@;
        out.push(a);
        proof {
            lemma_xmls_view_push(before, a);
            assert(attrs_view(attributes@.subrange(0, i + 1)) =~= attrs_view(
                attributes@.subrange(0, i as int),
            ).push((attributes@[i as int].0@, attributes@[i as int].1@)));
            assert(attr_nodes(attrs_view(attributes@.subrange(0, i + 1))) =~= attr_nodes(
                attrs_view(attributes@.subrange(0, i as int)),
            ).push(xml_view(a)));
        }
        i = i + 1;
    }
    proof {
        assert(attributes@.subrange(0, attributes.len() as int) == attributes@);
    }
    let ghost mid = out@;
    let mut j: usize = 0;
    while j < children.len()
        invariant
            j <= children.len(),
            xmls_view(out@) == xmls_view(mid) + xmls_view(children@.subrange(0, j as int)),
        decreases children.len() - j,
    {
        let c = clone_xml(&children[j]);
        let ghost before = out@;
        out.push(c);
        proof {
            lemma_xmls_view_push(before, c);
            assert(children@.subrange(0, j + 1) == children@.subrange(0, j as int).push(
                children@[j as int],
            ));
            lemma_xmls_view_push(children@.subrange(0, j as int), children@[j as int]);
            assert(xmls_view(out@) =~= xmls_view(mid) + xmls_view(children@.subrange(0, j + 1)));
        }
        j = j + 1;
    }
    proof {
        assert(children@.subrange(0, children.len() as int) == children@);
    }
    out
}

/// The node of a list of nodes: none, the only one, or a `_sequence` wrapper.
fn sequence_node(children: Vec<XmlNode>) -> (r: Option<XmlNode>)
    ensures
        opt_view(r) == seq_node(xmls_view(children@)),
{
    proof {
        crate::xml_node::lemma_xmls_view_len(children@);
    }
    if children.len() == 0 {
        None
    } else if children.len() == 1 {
        let mut children = children;
        let ghost before = children@;
        let x = children.pop();
        proof {
            assert(before[0] == before.last());
        }
        match x {
            Some(n) => Some(n),
            None => None,
        }
    } else {
        let attributes: Vec<(String, String)> = Vec::new();
        proof {
            assert(attrs_view(attributes@) =~= Seq::empty());
        }
        Some(XmlNode::Element { name: String::from_str("_sequence"), attributes, children })
    }
}

/// Applies the mark on a nonterminal to the node of the rule named `name`.
fn factor_mark(n: XmlNode, name: &str, mark: Mark) -> (r: Option<XmlNode>)
    ensures
        opt_view(r) == factor_mark_one(xml_view(n), name@, mark),
{
    let ghost nv = xml_view(n);
    match mark {
        Mark::Hidden => {
            match n {
                XmlNode::Element { name: en, attributes, children } => {
                    proof {
                        assert(nv == XmlV::Element {
                            name: en@,
                            attributes: attrs_view(attributes@),
                            children: xmls_view(children@),
                        });
                    }
                    let all = attributes_then_children(&attributes, &children);
                    sequence_node(all)
                },
                other => Some(other),
            }
        },
        Mark::Attribute => {
            let value = n.text_content();
            Some(XmlNode::Attribute { name: String::from_str(name), value })
        },
        Mark::Promoted => {
            let keep = match &n {
                XmlNode::Element { name: en, .. } => string_eq(en, name),
                _ => false,
            };
            if keep {
                Some(n)
            } else {
                let children = unwrap_sequence(n);
                let attributes: Vec<(String, String)> = Vec::new();
                proof {
                    assert(attrs_view(attributes@) =~= Seq::empty());
                }
                Some(XmlNode::Element { name: String::from_str(name), attributes, children })
            }
        },
        Mark::Unmarked => Some(n),
    }
}

/// The index of the rule named `name`, if any.
pub fn find_rule_index(rules: &Vec<Rule>, name: &str) -> (r: Option<usize>)
    ensures
        match r {
            Some(j) => j < rules.len() && j as int == find_rule(rules_view(rules@), name@, 0),
            None => find_rule(rules_view(rules@), name@, 0) == -1,
        },
{
    let ghost t = rules_view(rules@);
    let mut i: usize = 0;
    while i < rules.len()
        invariant
            i <= rules.len(),
            t == rules_view(rules@),
            find_rule(t, name@, 0) == find_rule(t, name@, i as int),
        decreases rules.len() - i,
    {
        if string_eq(&rules[i].name, name) {
            return Some(i);
        }
        i = i + 1;
    }
    None
}

/// The rule table of a list of rules: one rule per name, in order of first
/// appearance, the last definition of a name winning.
pub fn build_rule_table(grammar_rules: &Vec<Rule>) -> (r: Vec<Rule>)
    ensures
        rules_view(r@) == rule_table(rules_view(grammar_rules@)),
{
    let mut rules: Vec<Rule> = Vec::new();
    let ghost rs = rules_view(grammar_rules@);
    let n = grammar_rules.len();
    let mut i: usize = 0;
    proof {
        assert(rs.take(0) =~= Seq::empty());
        assert(rules_view(rules@) =~= Seq::empty());
    }
    while i < n
        invariant
            n == grammar_rules.len(),
            rs == rules_view(grammar_rules@),
            i <= n,
            rules_view(rules@) == rule_table(rs.take(i as int)),
        decreases n - i,
    {
        let r = clone_rule(&grammar_rules[i]);
        let ghost before = rules@;
        proof {
            assert(rs.take(i + 1).drop_last() =~= rs.take(i as int));
            assert(rs.take(i + 1).last() == rs[i as int]);
            assert(rs[i as int] == rule_view(grammar_rules@[i as int]));
        }
        match find_rule_index(&rules, r.name.as_str()) {
            Some(j) => {
                rules.set(j, r);
                proof {
                    assert(rules_view(rules@) =~= rules_view(before).update(j as int, rule_view(r)));
                }
            },
            None => {
                rules.push(r);
                proof {
                    assert(rules_view(rules@) =~= rules_view(before).push(rule_view(r)));
                }
            },
        }
        i = i + 1;
    }
    proof {
        assert(rs.take(n as int) =~= rs);
    }
    rules
}

/// The view of the best match so far.
pub open spec fn best_view(b: Option<(ParseResult, usize)>) -> Option<(Option<XmlV>, nat)> {
    match b {
        Some((p, _)) => Some((opt_view(p.node), p.consumed as nat)),
        None => None,
    }
}

/// The view of the answer of `parse`.
pub open spec fn answer_view(r: Result<String, String>) -> Result<Seq<char>, Seq<char>> {
    match r {
        Ok(s) => Ok(s@),
        Err(s) => Err(s@),
    }
}

impl NativeParser {
    #[verifier::type_invariant]
    closed spec fn inv(self) -> bool {
        rules_view(self.rules@) == rule_table(rules_view(self.grammar.rules@))
    }

    /// The rules of the grammar, in order.
    pub closed spec fn grammar_rules(self) -> Seq<RuleV> {
        rules_view(self.grammar.rules@)
    }

    /// The table the parser looks rules up in.
    pub closed spec fn table(self) -> Seq<RuleV> {
        rules_view(self.rules@)
    }

    /// What a parse of `input` is against.
    pub open spec fn env(self, input: Seq<char>) -> Env {
        Env { table: self.table(), input }
    }

    /// Creates a parser for a grammar.
    pub fn new(grammar: IxmlGrammar) -> (r: Self)
        ensures
            r.grammar_rules() == rules_view(grammar.rules@),
    {
        let rules = build_rule_table(&grammar.rules);
        NativeParser { grammar, rules }
    }

    /// The number of rules, one per distinct name.
    pub fn rule_count(&self) -> (r: usize)
        ensures
            r == rule_table(self.grammar_rules()).len(),
    {
        proof {
            use_type_invariant(self);
        }
        self.rules.len()
    }

    /// Whether the grammar has a rule named `name`.
    pub fn has_rule(&self, name: &str) -> (r: bool)
        ensures
            r == names_of(rule_table(self.grammar_rules())).contains(name@),
    {
        proof {
            use_type_invariant(self);
            lemma_find_rule(self.table(), name@, 0);
        }
        let found = find_rule_index(&self.rules, name);
        proof {
            let t = self.table();
            if names_of(t).contains(name@) {
                let w = choose|w: int| 0 <= w < names_of(t).len() && names_of(t)[w] == name@;
                assert(t[w].name == name@);
            }
            match found {
                Some(j) => {
                    assert(names_of(t)[j as int] == name@);
                },
                None => {},
            }
        }
        found.is_some()
    }

    /// Merges consecutive text nodes and returns the node of the list.
    fn merge_nodes(&self, children: &Vec<XmlNode>) -> (r: Option<XmlNode>)
        ensures
            opt_view(r) == merge_s(xmls_view(children@)),
    {
        proof {
            crate::xml_node::lemma_xmls_view_len(children@);
        }
        if children.len() == 0 {
            return None;
        }
        let mut merged: Vec<XmlNode> = Vec::new();
        let mut buf = String::new();
        let mut i: usize = 0;
        proof {
            assert(children@.subrange(0, 0) =~= Seq::<XmlNode>::empty());
            assert(xmls_view(merged@) =~= Seq::empty());
        }
        while i < children.len()
            invariant
                i <= children.len(),
                merge_fold(xmls_view(children@.subrange(0, i as int))).0 == xmls_view(merged@),
                merge_fold(xmls_view(children@.subrange(0, i as int))).1 == buf@,
            decreases children.len() - i,
        {
            let ghost sub = children@.subrange(0, i as int);
            proof {
                assert(children@.subrange(0, i + 1) == sub.push(children@[i as int]));
                lemma_xmls_view_push(sub, children@[i as int]);
                let xs = xmls_view(sub);
                assert(xs.push(xml_view(children@[i as int])).drop_last() == xs);
            }
            match &children[i] {
                XmlNode::Text(t) => {
                    append_str(&mut buf, t.as_str());
                },
                other => {
                    if !buf.as_str().is_empty() {
                        let tn = XmlNode::Text(buf);
                        let ghost before = merged@;
                        merged.push(tn);
                        proof {
                            lemma_xmls_view_push(before, tn);
                        }
                    }
                    let c = clone_xml(other);
                    let ghost before = merged@;
                    merged.push(c);
                    proof {
                        lemma_xmls_view_push(before, c);
                    }
                    buf = String::new();
                },
            }
            i = i + 1;
        }
        proof {
            assert(children@.subrange(0, children.len() as int) == children@);
        }
        if !buf.as_str().is_empty() {
            let tn = XmlNode::Text(buf);
            let ghost before = merged@;
            merged.push(tn);
            proof {
                lemma_xmls_view_push(before, tn);
            }
        }
        sequence_node(merged)
    }

    /// Replaces every `_sequence` wrapper in a list by its flattened children.
    fn flatten_sequences(&self, children: &Vec<XmlNode>) -> (r: Vec<XmlNode>)
        ensures
            xmls_view(r@) == flat_s(xmls_view(children@)),
    {
        let mut out: Vec<XmlNode> = Vec::new();
        let mut i: usize = 0;
        proof {
            assert(xmls_view(children@.subrange(0, 0)) =~= Seq::empty());
            assert(xmls_view(out@) =~= Seq::empty());
        }
        while i < children.len()
            invariant
                i <= children.len(),
                xmls_view(out@) == flat_s(xmls_view(children@.subrange(0, i as int))),
            decreases children.len() - i,
        {
            flatten_into(&children[i], &mut out);
            proof {
                let sub = children@.subrange(0, i as int);
                assert(children@.subrange(0, i + 1) == sub.push(children@[i as int]));
                lemma_xmls_view_push(sub, children@[i as int]);
                let xs = xmls_view(sub);
                assert(xs.push(xml_view(children@[i as int])).drop_last() == xs);
            }
            i = i + 1;
        }
        proof {
            assert(children@.subrange(0, children.len() as int) == children@);
        }
        out
    }

    /// Applies a rule's own mark to the result of its alternatives.
    fn apply_rule_mark(&self, result: ParseResult, rule: &Rule) -> (r: ParseResult)
        ensures
            opt_view(r.node) == rule_mark_s(opt_view(result.node), rule.name@, rule.mark),
            r.consumed == result.consumed,
    {
        let consumed = result.consumed;
        let node = match rule.mark {
            Mark::Hidden => result.node,
            Mark::Promoted => result.node,
            Mark::Attribute => {
                let text = match &result.node {
                    Some(n) => n.text_content(),
                    None => String::new(),
                };
                Some(XmlNode::Attribute { name: rule.name.clone(), value: text })
            },
            Mark::Unmarked => {
                let children0 = match result.node {
                    Some(n) => unwrap_sequence(n),
                    None => Vec::new(),
                };
                proof {
                    assert(xmls_view(Seq::<XmlNode>::empty()) =~= Seq::empty());
                }
                let children = self.flatten_sequences(&children0);
                let (attrs, rest) = partition_attributes(&children);
                Some(XmlNode::Element { name: rule.name.clone(), attributes: attrs, children: rest })
            },
        };
        ParseResult::new(node, consumed)
    }

    /// Matches a literal (or produces an insertion).
    fn parse_terminal(&self, stream: &mut InputStream, value: &str, mark: Mark, insertion: bool) -> (r:
        Result<ParseResult, ParseError>)
        requires
            old(stream).wf(),
        ensures
            res_view(r) == terminal_s(value@, insertion, mark, old(stream).text(), old(stream).pos()),
            stepped(*old(stream), *final(stream), r),
    {
        let start_pos = stream.position();
        if insertion {
            let node = if mark == Mark::Hidden {
                None
            } else {
                Some(XmlNode::Text(String::from_str(value)))
            };
            return Ok(ParseResult::new(node, 0));
        }
        let value_chars = str_to_chars(value);
        let ghost text = stream.text();
        let mut k: usize = 0;
        while k < value_chars.len()
            invariant
                value_chars@ == value@,
                stream.text() == text,
                text == old(stream).text(),
                !insertion,
                stream.wf(),
                start_pos as int == old(stream).pos(),
                k <= value_chars.len(),
                stream.pos() == start_pos + k,
                lit_mismatch(value@, text, start_pos as int, 0) == lit_mismatch(
                    value@,
                    text,
                    start_pos as int,
                    k as int,
                ),
            decreases value_chars.len() - k,
        {
            match stream.current() {
                Some(actual) => {
                    if actual == value_chars[k] {
                        stream.advance();
                    } else {
                        stream.set_position(start_pos);
                        proof {
                            assert(text[start_pos + k] != value@[k as int]);
                            assert(lit_mismatch(value@, text, start_pos as int, k as int) == k);
                        }
                        return Err(
                            ParseError::TerminalMismatch {
                                expected: String::from_str(value),
                                actual: char_to_string(actual),
                                position: start_pos,
                            },
                        );
                    }
                },
                None => {
                    stream.set_position(start_pos);
                    return Err(
                        ParseError::UnexpectedEof {
                            expected: String::from_str(value),
                            position: start_pos,
                        },
                    );
                },
            }
            k = k + 1;
        }
        let consumed = value_chars.len();
        let node = if mark == Mark::Hidden {
            None
        } else {
            Some(XmlNode::Text(String::from_str(value)))
        };
        Ok(ParseResult::new(node, consumed))
    }

    /// Matches one character of a class.
    fn parse_charclass(&self, stream: &mut InputStream, content: &str, negated: bool, mark: Mark) -> (r:
        Result<ParseResult, ParseError>)
        requires
            old(stream).wf(),
        ensures
            res_view(r) == charclass_s(content@, negated, mark, old(stream).text(), old(stream).pos()),
            stepped(*old(stream), *final(stream), r),
    {
        let start_pos = stream.position();
        let ch = match stream.current() {
            Some(c) => c,
            None => {
                let mut expected = String::from_str("character matching class [");
                if negated {
                    append_str(&mut expected, "^");
                }
                append_str(&mut expected, content);
                append_str(&mut expected, "]");
                proof {
                    if !negated {
                        assert(expected@ =~= "character matching class ["@ + Seq::<char>::empty()
                            + content@ + "]"@);
                    }
                }
                return Err(ParseError::UnexpectedEof { expected, position: start_pos });
            },
        };
        let matches = class_admits_exec(content, ch);
        let actual_match = if negated {
            !matches
        } else {
            matches
        };
        if !actual_match {
            return Err(
                ParseError::CharClassMismatch {
                    charclass: String::from_str(content),
                    negated,
                    actual: ch,
                    position: start_pos,
                },
            );
        }
        stream.advance();
        let node = if mark == Mark::Hidden {
            None
        } else {
            Some(XmlNode::Text(char_to_string(ch)))
        };
        Ok(ParseResult::new(node, 1))
    }

    /// Parses a rule: fails as left recursion if the rule is being parsed at
    /// this position already; otherwise parses its alternatives and applies
    /// its mark.
    fn parse_rule(&self, stream: &mut InputStream, rule: &Rule, ctx: &mut ParseContext) -> (r: Result<
        ParseResult,
        ParseError,
    >)
        requires
            old(stream).wf(),
            names_of(self.table()).contains(rule.name@),
        ensures
            outcome(r, final(ctx).rule_name@) == rule_s(
                self.env(old(stream).text()),
                rule_view(*rule),
                old(stream).pos(),
                old(ctx).rule_name@,
                old(ctx).active_view(),
            ),
            stepped(*old(stream), *final(stream), r),
            final(ctx).active_view() == old(ctx).active_view(),
        decreases old(stream).text().len() - old(stream).pos(), count_free(
            names_of(self.table()),
            old(ctx).active_view(),
            old(stream).pos(),
        ), 0nat,
    {
        let start_pos = stream.position();
        if !ctx.enter_rule_at(rule.name.as_str(), start_pos) {
            return Err(ParseError::LeftRecursion { rule: rule.name.clone(), position: start_pos });
        }
        proof {
            lemma_count_free_insert(
                names_of(self.table()),
                old(ctx).active_view(),
                rule.name@,
                start_pos as int,
            );
        }
        let result = self.parse_alternatives(stream, &rule.alternatives, ctx);
        ctx.exit_rule_at(rule.name.as_str(), start_pos);
        proof {
            assert(ctx.active_view() =~= old(ctx).active_view());
        }
        match result {
            Ok(res) => Ok(self.apply_rule_mark(res, rule)),
            Err(e) => Err(e),
        }
    }

    /// Parses alternatives: tries them all and keeps the longest match.
    #[verifier::loop_isolation(false)]
    fn parse_alternatives(
        &self,
        stream: &mut InputStream,
        alts: &Alternatives,
        ctx: &mut ParseContext,
    ) -> (r: Result<ParseResult, ParseError>)
        requires
            old(stream).wf(),
        ensures
            outcome(r, final(ctx).rule_name@) == alts_s(
                self.env(old(stream).text()),
                alts_view(*alts),
                old(stream).pos(),
                old(ctx).rule_name@,
                old(ctx).active_view(),
            ),
            stepped(*old(stream), *final(stream), r),
            final(ctx).active_view() == old(ctx).active_view(),
        decreases old(stream).text().len() - old(stream).pos(), count_free(
            names_of(self.table()),
            old(ctx).active_view(),
            old(stream).pos(),
        ), size_alts(alts_view(*alts)),
    {
        let ghost env = self.env(stream.text());
        let ghost active = ctx.active_view();
        let ghost av = alts_view(*alts);
        let ghost last0 = ctx.rule_name@;
        proof {
            crate::ast::lemma_seqs_view_index(alts.alts@);
        }
        let start_pos = stream.position();
        let mut best: Option<(ParseResult, usize)> = None;
        let mut attempts: usize = 0;
        let n = alts.alts.len();
        let mut i: usize = 0;
        while i < n
            invariant
                n == alts.alts.len(),
                n == av.alts.len(),
                i <= n,
                attempts == i,
                stream.text() == env.input,
                stream.wf(),
                ctx.active_view() == active,
                match best {
                    Some((p, e)) => e == start_pos + p.consumed && e <= env.input.len(),
                    None => stream.pos() == start_pos,
                },
                alts_s(env, av, start_pos as int, last0, active) == alt_loop(
                    env,
                    av.alts,
                    i as int,
                    start_pos as int,
                    ctx.rule_name@,
                    active,
                    best_view(best),
                ),
            decreases n - i,
        {
            stream.set_position(start_pos);
            attempts = attempts + 1;
            proof {
                lemma_size_seqs_from(av.alts, 0, i as int);
            }
            let res = self.parse_sequence(stream, &alts.alts[i], ctx);
            match res {
                Ok(result) => {
                    let end_pos = stream.position();
                    let replace = match &best {
                        None => true,
                        Some((_, be)) => end_pos > *be,
                    };
                    if replace {
                        best = Some((result, end_pos));
                    }
                },
                Err(_) => {},
            }
            i = i + 1;
        }
        match best {
            Some((result, end_pos)) => {
                stream.set_position(end_pos);
                Ok(result)
            },
            None => Err(
                ParseError::NoAlternativeMatched {
                    position: start_pos,
                    rule: ctx.rule_name.clone(),
                    attempts,
                },
            ),
        }
    }

    /// Parses a sequence: every factor in turn.
    #[verifier::loop_isolation(false)]
    fn parse_sequence(&self, stream: &mut InputStream, seq: &Sequence, ctx: &mut ParseContext) -> (r:
        Result<ParseResult, ParseError>)
        requires
            old(stream).wf(),
        ensures
            outcome(r, final(ctx).rule_name@) == seq_s(
                self.env(old(stream).text()),
                sequence_view(*seq),
                old(stream).pos(),
                old(ctx).rule_name@,
                old(ctx).active_view(),
            ),
            stepped(*old(stream), *final(stream), r),
            final(ctx).active_view() == old(ctx).active_view(),
        decreases old(stream).text().len() - old(stream).pos(), count_free(
            names_of(self.table()),
            old(ctx).active_view(),
            old(stream).pos(),
        ), size_seq(sequence_view(*seq)),
    {
        let ghost env = self.env(stream.text());
        let ghost active = ctx.active_view();
        let ghost qv = sequence_view(*seq);
        let ghost last0 = ctx.rule_name@;
        proof {
            crate::ast::lemma_factors_view_index(seq.factors@);
            assert(xmls_view(Seq::<XmlNode>::empty()) =~= Seq::empty());
        }
        let start_pos = stream.position();
        let mut children: Vec<XmlNode> = Vec::new();
        let mut total: usize = 0;
        let n = seq.factors.len();
        let mut i: usize = 0;
        while i < n
            invariant
                n == seq.factors.len(),
                n == qv.factors.len(),
                i <= n,
                stream.text() == env.input,
                stream.wf(),
                ctx.active_view() == active,
                stream.pos() == start_pos + total,
                seq_s(env, qv, start_pos as int, last0, active) == seq_loop(
                    env,
                    qv.factors,
                    i as int,
                    stream.pos(),
                    ctx.rule_name@,
                    active,
                    xmls_view(children@),
                    total as nat,
                ),
            decreases n - i,
        {
            proof {
                lemma_size_factors_from(qv.factors, 0, i as int);
            }
            let res = self.parse_factor(stream, &seq.factors[i], ctx);
            match res {
                Ok(result) => {
                    let p = stream.position();
                    total = total + result.consumed;
                    match result.node {
                        Some(node) => {
                            let ghost before = children@;
                            children.push(node);
                            proof {
                                lemma_xmls_view_push(before, node);
                            }
                        },
                        None => {},
                    }
                },
                Err(e) => {
                    stream.set_position(start_pos);
                    return Err(e);
                },
            }
            i = i + 1;
        }
        let node = sequence_node(children);
        Ok(ParseResult::new(node, total))
    }

    /// Parses a factor according to its repetition.
    fn parse_factor(&self, stream: &mut InputStream, factor: &Factor, ctx: &mut ParseContext) -> (r:
        Result<ParseResult, ParseError>)
        requires
            old(stream).wf(),
        ensures
            outcome(r, final(ctx).rule_name@) == factor_s(
                self.env(old(stream).text()),
                factor_view(*factor),
                old(stream).pos(),
                old(ctx).rule_name@,
                old(ctx).active_view(),
            ),
            stepped(*old(stream), *final(stream), r),
            final(ctx).active_view() == old(ctx).active_view(),
        decreases old(stream).text().len() - old(stream).pos(), count_free(
            names_of(self.table()),
            old(ctx).active_view(),
            old(stream).pos(),
        ), size_factor(factor_view(*factor)),
    {
        proof {
            assert(xmls_view(Seq::<XmlNode>::empty()) =~= Seq::empty());
        }
        match &factor.repetition {
            Repetition::Once => self.parse_base_factor(stream, &factor.base, ctx),
            Repetition::ZeroOrMore => self.parse_zero_or_more(stream, &factor.base, ctx),
            Repetition::OneOrMore => self.parse_one_or_more(stream, &factor.base, ctx),
            Repetition::Optional => self.parse_optional(stream, &factor.base, ctx),
            Repetition::SeparatedZeroOrMore(sep) => self.parse_separated_zero_or_more(
                stream,
                &factor.base,
                sep,
                ctx,
            ),
            Repetition::SeparatedOneOrMore(sep) => self.parse_separated_one_or_more(
                stream,
                &factor.base,
                sep,
                ctx,
            ),
        }
    }

    /// Parses a base factor: a literal, a nonterminal, a class or a group.
    fn parse_base_factor(&self, stream: &mut InputStream, base: &BaseFactor, ctx: &mut ParseContext) -> (r:
        Result<ParseResult, ParseError>)
        requires
            old(stream).wf(),
        ensures
            outcome(r, final(ctx).rule_name@) == base_s(
                self.env(old(stream).text()),
                base_view(*base),
                old(stream).pos(),
                old(ctx).rule_name@,
                old(ctx).active_view(),
            ),
            stepped(*old(stream), *final(stream), r),
            final(ctx).active_view() == old(ctx).active_view(),
        decreases old(stream).text().len() - old(stream).pos(), count_free(
            names_of(self.table()),
            old(ctx).active_view(),
            old(stream).pos(),
        ), size_base(base_view(*base)),
    {
        match base {
            BaseFactor::Literal { value, insertion, mark } => {
                self.parse_terminal(stream, value.as_str(), *mark, *insertion)
            },
            BaseFactor::Nonterminal { name, mark } => {
                self.parse_nonterminal(stream, name.as_str(), *mark, ctx)
            },
            BaseFactor::CharClass { content, negated, mark } => {
                self.parse_charclass(stream, content.as_str(), *negated, *mark)
            },
            BaseFactor::Group { alternatives } => self.parse_alternatives(stream, alternatives, ctx),
        }
    }

    /// Parses a nonterminal: the rule of that name, with the nonterminal's
    /// mark applied.
    fn parse_nonterminal(&self, stream: &mut InputStream, name: &str, mark: Mark, ctx: &mut ParseContext) -> (r:
        Result<ParseResult, ParseError>)
        requires
            old(stream).wf(),
        ensures
            outcome(r, final(ctx).rule_name@) == nonterm_s(
                self.env(old(stream).text()),
                name@,
                mark,
                old(stream).pos(),
                old(ctx).rule_name@,
                old(ctx).active_view(),
            ),
            stepped(*old(stream), *final(stream), r),
            final(ctx).active_view() == old(ctx).active_view(),
        decreases old(stream).text().len() - old(stream).pos(), count_free(
            names_of(self.table()),
            old(ctx).active_view(),
            old(stream).pos(),
        ), 1nat,
    {
        let start_pos = stream.position();
        match find_rule_index(&self.rules, name) {
            None => {
                let mut message = String::from_str("Undefined rule: ");
                append_str(&mut message, name);
                Err(ParseError::Custom { message, position: start_pos })
            },
            Some(j) => {
                proof {
                    lemma_find_rule(self.table(), name@, 0);
                    assert(names_of(self.table())[j as int] == name@);
                }
                let rule = &self.rules[j];
                let char_rule = is_char_rule_exec(rule);
                let result = self.parse_rule(stream, rule, ctx);
                match result {
                    Err(e) => Err(e),
                    Ok(res) => {
                        let consumed = res.consumed;
                        let node = match res.node {
                            Some(n) => {
                                let n = if char_rule {
                                    XmlNode::Text(n.text_content())
                                } else {
                                    n
                                };
                                factor_mark(n, name, mark)
                            },
                            None => None,
                        };
                        Ok(ParseResult::new(node, consumed))
                    },
                }
            },
        }
    }

    /// Matches `base` again and again until a match fails or matches
    /// nothing, after the nodes and count of earlier matches.
    #[verifier::loop_isolation(false)]
    fn star_from(
        &self,
        stream: &mut InputStream,
        base: &BaseFactor,
        ctx: &mut ParseContext,
        children: Vec<XmlNode>,
        total: usize,
    ) -> (r: Result<ParseResult, ParseError>)
        requires
            old(stream).wf(),
            total <= old(stream).pos(),
        ensures
            outcome(r, final(ctx).rule_name@) == star_loop(
                self.env(old(stream).text()),
                base_view(*base),
                old(stream).pos(),
                old(ctx).rule_name@,
                old(ctx).active_view(),
                xmls_view(children@),
                total as nat,
            ),
            final(stream).text() == old(stream).text(),
            final(stream).wf(),
            match r {
                Ok(p) => final(stream).pos() == old(stream).pos() + p.consumed - total,
                Err(_) => false,
            },
            final(ctx).active_view() == old(ctx).active_view(),
        decreases old(stream).text().len() - old(stream).pos(), count_free(
            names_of(self.table()),
            old(ctx).active_view(),
            old(stream).pos(),
        ), size_base(base_view(*base)) + 1,
    {
        let ghost env = self.env(stream.text());
        let ghost active = ctx.active_view();
        let ghost bv = base_view(*base);
        let ghost pos0 = stream.pos();
        let ghost start = star_loop(env, bv, pos0, ctx.rule_name@, active, xmls_view(children@), total as nat);
        let total0 = total;
        let mut children = children;
        let mut total = total;
        let mut done = false;
        while !done
            invariant
                stream.text() == env.input,
                stream.wf(),
                ctx.active_view() == active,
                total0 <= total,
                stream.pos() == pos0 + total - total0,
                !done ==> start == star_loop(
                    env,
                    bv,
                    stream.pos(),
                    ctx.rule_name@,
                    active,
                    xmls_view(children@),
                    total as nat,
                ),
                done ==> start == (Out {
                    res: Ok((merge_s(xmls_view(children@)), total as nat)),
                    last: ctx.rule_name@,
                }),
            decreases env.input.len() - stream.pos() + (if done {
                0int
            } else {
                1int
            }),
        {
            let loop_start = stream.position();
            let res = self.parse_base_factor(stream, base, ctx);
            match res {
                Ok(result) => {
                    let c = result.consumed;
                    match result.node {
                        Some(node) => {
                            let ghost before = children@;
                            children.push(node);
                            proof {
                                lemma_xmls_view_push(before, node);
                            }
                        },
                        None => {},
                    }
                    if c == 0 {
                        done = true;
                    } else {
                        let p = stream.position();
                        total = total + c;
                    }
                },
                Err(_) => {
                    stream.set_position(loop_start);
                    done = true;
                },
            }
        }
        let node = self.merge_nodes(&children);
        Ok(ParseResult::new(node, total))
    }

    /// Parses zero or more repetitions (`*`).
    fn parse_zero_or_more(&self, stream: &mut InputStream, base: &BaseFactor, ctx: &mut ParseContext) -> (r:
        Result<ParseResult, ParseError>)
        requires
            old(stream).wf(),
        ensures
            outcome(r, final(ctx).rule_name@) == star_loop(
                self.env(old(stream).text()),
                base_view(*base),
                old(stream).pos(),
                old(ctx).rule_name@,
                old(ctx).active_view(),
                Seq::empty(),
                0,
            ),
            stepped(*old(stream), *final(stream), r),
            final(ctx).active_view() == old(ctx).active_view(),
        decreases old(stream).text().len() - old(stream).pos(), count_free(
            names_of(self.table()),
            old(ctx).active_view(),
            old(stream).pos(),
        ), size_base(base_view(*base)) + 2,
    {
        let children: Vec<XmlNode> = Vec::new();
        proof {
            assert(xmls_view(children@) =~= Seq::empty());
        }
        self.star_from(stream, base, ctx, children, 0)
    }

    /// Parses one or more repetitions (`+`).
    fn parse_one_or_more(&self, stream: &mut InputStream, base: &BaseFactor, ctx: &mut ParseContext) -> (r:
        Result<ParseResult, ParseError>)
        requires
            old(stream).wf(),
        ensures
            outcome(r, final(ctx).rule_name@) == plus_s(
                self.env(old(stream).text()),
                base_view(*base),
                old(stream).pos(),
                old(ctx).rule_name@,
                old(ctx).active_view(),
            ),
            stepped(*old(stream), *final(stream), r),
            final(ctx).active_view() == old(ctx).active_view(),
        decreases old(stream).text().len() - old(stream).pos(), count_free(
            names_of(self.table()),
            old(ctx).active_view(),
            old(stream).pos(),
        ), size_base(base_view(*base)) + 1,
    {
        let first = self.parse_base_factor(stream, base, ctx);
        match first {
            Err(e) => Err(e),
            Ok(first_result) => {
                let consumed = first_result.consumed;
                if consumed == 0 {
                    return Ok(ParseResult::new(first_result.node, 0));
                }
                let p = stream.position();
                let mut children: Vec<XmlNode> = Vec::new();
                proof {
                    assert(xmls_view(children@) =~= Seq::empty());
                }
                match first_result.node {
                    Some(node) => {
                        children.push(node);
                        proof {
                            lemma_xmls_view_push(Seq::empty(), node);
                            assert(children@ == Seq::<XmlNode>::empty().push(node));
                        }
                    },
                    None => {},
                }
                self.star_from(stream, base, ctx, children, consumed)
            },
        }
    }

    /// Parses an optional factor (`?`).
    fn parse_optional(&self, stream: &mut InputStream, base: &BaseFactor, ctx: &mut ParseContext) -> (r:
        Result<ParseResult, ParseError>)
        requires
            old(stream).wf(),
        ensures
            outcome(r, final(ctx).rule_name@) == opt_s(
                self.env(old(stream).text()),
                base_view(*base),
                old(stream).pos(),
                old(ctx).rule_name@,
                old(ctx).active_view(),
            ),
            stepped(*old(stream), *final(stream), r),
            final(ctx).active_view() == old(ctx).active_view(),
        decreases old(stream).text().len() - old(stream).pos(), count_free(
            names_of(self.table()),
            old(ctx).active_view(),
            old(stream).pos(),
        ), size_base(base_view(*base)) + 1,
    {
        let start_pos = stream.position();
        match self.parse_base_factor(stream, base, ctx) {
            Ok(result) => Ok(result),
            Err(_) => {
                stream.set_position(start_pos);
                Ok(ParseResult::new(None, 0))
            },
        }
    }

    /// Matches (separator, element) pairs again and again after the nodes
    /// and count of earlier matches.
    #[verifier::loop_isolation(false)]
    fn sep_from(
        &self,
        stream: &mut InputStream,
        base: &BaseFactor,
        separator: &Sequence,
        ctx: &mut ParseContext,
        children: Vec<XmlNode>,
        total: usize,
    ) -> (r: Result<ParseResult, ParseError>)
        requires
            old(stream).wf(),
            total <= old(stream).pos(),
        ensures
            outcome(r, final(ctx).rule_name@) == sep_loop(
                self.env(old(stream).text()),
                base_view(*base),
                sequence_view(*separator),
                old(stream).pos(),
                old(ctx).rule_name@,
                old(ctx).active_view(),
                xmls_view(children@),
                total as nat,
            ),
            final(stream).text() == old(stream).text(),
            final(stream).wf(),
            match r {
                Ok(p) => final(stream).pos() == old(stream).pos() + p.consumed - total,
                Err(_) => false,
            },
            final(ctx).active_view() == old(ctx).active_view(),
        decreases old(stream).text().len() - old(stream).pos(), count_free(
            names_of(self.table()),
            old(ctx).active_view(),
            old(stream).pos(),
        ), size_base(base_view(*base)) + size_seq(sequence_view(*separator)) + 1,
    {
        let ghost env = self.env(stream.text());
        let ghost active = ctx.active_view();
        let ghost bv = base_view(*base);
        let ghost sv = sequence_view(*separator);
        let ghost pos0 = stream.pos();
        let ghost start = sep_loop(
            env,
            bv,
            sv,
            pos0,
            ctx.rule_name@,
            active,
            xmls_view(children@),
            total as nat,
        );
        let total0 = total;
        let mut children = children;
        let mut total = total;
        let mut done = false;
        while !done
            invariant
                stream.text() == env.input,
                stream.wf(),
                ctx.active_view() == active,
                total0 <= total,
                stream.pos() == pos0 + total - total0,
                !done ==> start == sep_loop(
                    env,
                    bv,
                    sv,
                    stream.pos(),
                    ctx.rule_name@,
                    active,
                    xmls_view(children@),
                    total as nat,
                ),
                done ==> start == (Out {
                    res: Ok((merge_s(xmls_view(children@)), total as nat)),
                    last: ctx.rule_name@,
                }),
            decreases env.input.len() - stream.pos() + (if done {
                0int
            } else {
                1int
            }),
        {
            let loop_start = stream.position();
            let sep_res = self.parse_sequence(stream, separator, ctx);
            match sep_res {
                Ok(sep_result) => {
                    let c1 = sep_result.consumed;
                    match sep_result.node {
                        Some(node) => {
                            let ghost before = children@;
                            children.push(node);
                            proof {
                                lemma_xmls_view_push(before, node);
                            }
                        },
                        None => {},
                    }
                    let elem_res = self.parse_base_factor(stream, base, ctx);
                    match elem_res {
                        Ok(elem_result) => {
                            let c2 = elem_result.consumed;
                            match elem_result.node {
                                Some(node) => {
                                    let ghost before = children@;
                                    children.push(node);
                                    proof {
                                        lemma_xmls_view_push(before, node);
                                    }
                                },
                                None => {},
                            }
                            let p = stream.position();
                            total = total + c1 + c2;
                            if c2 == 0 {
                                done = true;
                            }
                        },
                        Err(_) => {
                            stream.set_position(loop_start);
                            done = true;
                        },
                    }
                },
                Err(_) => {
                    stream.set_position(loop_start);
                    done = true;
                },
            }
        }
        let node = self.merge_nodes(&children);
        Ok(ParseResult::new(node, total))
    }

    /// Parses zero or more repetitions with a separator (`**`).
    fn parse_separated_zero_or_more(
        &self,
        stream: &mut InputStream,
        base: &BaseFactor,
        separator: &Sequence,
        ctx: &mut ParseContext,
    ) -> (r: Result<ParseResult, ParseError>)
        requires
            old(stream).wf(),
        ensures
            outcome(r, final(ctx).rule_name@) == sep_star_s(
                self.env(old(stream).text()),
                base_view(*base),
                sequence_view(*separator),
                old(stream).pos(),
                old(ctx).rule_name@,
                old(ctx).active_view(),
            ),
            stepped(*old(stream), *final(stream), r),
            final(ctx).active_view() == old(ctx).active_view(),
        decreases old(stream).text().len() - old(stream).pos(), count_free(
            names_of(self.table()),
            old(ctx).active_view(),
            old(stream).pos(),
        ), size_base(base_view(*base)) + size_seq(sequence_view(*separator)) + 2,
    {
        let first_pos = stream.position();
        match self.parse_base_factor(stream, base, ctx) {
            Ok(result) => {
                let consumed = result.consumed;
                if consumed == 0 {
                    return Ok(ParseResult::new(result.node, 0));
                }
                let p = stream.position();
                let mut children: Vec<XmlNode> = Vec::new();
                proof {
                    assert(xmls_view(children@) =~= Seq::empty());
                }
                match result.node {
                    Some(node) => {
                        children.push(node);
                        proof {
                            lemma_xmls_view_push(Seq::empty(), node);
                            assert(children@ == Seq::<XmlNode>::empty().push(node));
                        }
                    },
                    None => {},
                }
                self.sep_from(stream, base, separator, ctx, children, consumed)
            },
            Err(_) => {
                stream.set_position(first_pos);
                Ok(ParseResult::new(None, 0))
            },
        }
    }

    /// Parses one or more repetitions with a separator (`++`).
    fn parse_separated_one_or_more(
        &self,
        stream: &mut InputStream,
        base: &BaseFactor,
        separator: &Sequence,
        ctx: &mut ParseContext,
    ) -> (r: Result<ParseResult, ParseError>)
        requires
            old(stream).wf(),
        ensures
            outcome(r, final(ctx).rule_name@) == sep_plus_s(
                self.env(old(stream).text()),
                base_view(*base),
                sequence_view(*separator),
                old(stream).pos(),
                old(ctx).rule_name@,
                old(ctx).active_view(),
            ),
            stepped(*old(stream), *final(stream), r),
            final(ctx).active_view() == old(ctx).active_view(),
        decreases old(stream).text().len() - old(stream).pos(), count_free(
            names_of(self.table()),
            old(ctx).active_view(),
            old(stream).pos(),
        ), size_base(base_view(*base)) + size_seq(sequence_view(*separator)) + 2,
    {
        let first = self.parse_base_factor(stream, base, ctx);
        match first {
            Err(e) => Err(e),
            Ok(first_result) => {
                let consumed = first_result.consumed;
                if consumed == 0 {
                    return Ok(ParseResult::new(first_result.node, 0));
                }
                let p = stream.position();
                let mut children: Vec<XmlNode> = Vec::new();
                proof {
                    assert(xmls_view(children@) =~= Seq::empty());
                }
                match first_result.node {
                    Some(node) => {
                        children.push(node);
                        proof {
                            lemma_xmls_view_push(Seq::empty(), node);
                            assert(children@ == Seq::<XmlNode>::empty().push(node));
                        }
                    },
                    None => {},
                }
                self.sep_from(stream, base, separator, ctx, children, consumed)
            },
        }
    }

    /// Parses `input` from the grammar's first rule; the whole input must be
    /// matched.  Returns the XML of the result, or an error message.
    pub fn parse(&self, input: &str) -> (r: Result<String, String>)
        requires
            input@.len() < usize::MAX,
        ensures
            answer_view(r) == parse_s(self.grammar_rules(), input@),
    {
        proof {
            use_type_invariant(self);
        }
        let mut stream = InputStream::new(input);
        let mut ctx = ParseContext::new();
        if self.grammar.rules.len() == 0 {
            return Err(String::from_str("Grammar has no rules"));
        }
        let start_rule = &self.grammar.rules[0];
        proof {
            let rs = self.grammar_rules();
            lemma_rule_table(rs);
            assert(rs[0].name == start_rule.name@);
            assert(names_of(rule_table(rs)).contains(rs[0].name));
            assert(ctx.active_view() == Set::<(Seq<char>, int)>::empty());
        }
        let result = self.parse_rule(&mut stream, start_rule, &mut ctx);
        match result {
            Ok(res) => {
                if !stream.is_eof() {
                    let remaining = stream.remaining();
                    let cs = str_to_chars(remaining.as_str());
                    let end = if cs.len() >= 20 {
                        20
                    } else {
                        cs.len()
                    };
                    let head = chars_to_string(&cs, 0, end);
                    proof {
                        assert(head@ =~= head20(input@, res.consumed as int));
                    }
                    let mut message = String::from_str("Parse succeeded but input remains: ");
                    let shown = debug_str(head.as_str());
                    append_str(&mut message, shown.as_str());
                    return Err(message);
                }
                match res.node {
                    Some(node) => Ok(node.to_xml()),
                    None => Err(
                        String::from_str("Parse succeeded but produced no output (fully suppressed)"),
                    ),
                }
            },
            Err(e) => Err(e.format_with_context(input)),
        }
    }
}

// ---------------------------------------------------------------------------
// Laws
// ---------------------------------------------------------------------------

/// A grammar without rules rejects every input.
pub proof fn law_empty_grammar_rejects(input: Seq<char>)
    ensures
        parse_s(Seq::empty(), input) is Err,
{
}

/// When the start rule carries no mark, the output of a successful parse is
/// the element of the start rule: it begins with `<` and the rule's name.
pub proof fn law_output_is_start_element(rules: Seq<RuleV>, input: Seq<char>)
    requires
        rules.len() > 0,
        rules[0].mark == Mark::Unmarked,
    ensures
        parse_s(rules, input) matches Ok(x) ==> x.len() > rules[0].name.len() && x.subrange(
            0,
            rules[0].name.len() + 1 as int,
        ) == seq!['<'] + rules[0].name,
{
    lemma_rule_table(rules);
    let name = rules[0].name;
    assert(names_of(rule_table(rules)).contains(name));
    let env = Env { table: rule_table(rules), input };
    let o = rule_s(env, rules[0], 0, Seq::empty(), Set::empty());
    if let Ok((n, c)) = o.res {
        if c >= input.len() {
            let x = rule_mark_s(n, name, Mark::Unmarked);
            assert(x is Some);
            let e = x->0;
            let s = crate::xml_node::compact_xml(e);
            reveal_strlit("<");
            assert("<"@ =~= seq!['<']);
            if let XmlV::Element { name: nm, attributes, children } = e {
                assert(nm == name);
                let tail = if children.len() == 0 {
                    crate::xml_node::attrs_part(attributes) + "/>"@
                } else {
                    crate::xml_node::attrs_part(attributes) + ">"@ + crate::xml_node::compact_xmls(children)
                        + "</"@ + name + ">"@
                };
                assert(s =~= seq!['<'] + name + tail);
                assert(s.subrange(0, name.len() + 1 as int) =~= seq!['<'] + name);
            }
        }
    }
}

/// The parser keeps one rule per distinct rule name of the grammar: the
/// names it knows are those of the grammar, and their number is the number
/// of distinct names.
pub proof fn law_one_rule_per_name(rs: Seq<RuleV>)
    ensures
        forall|n: Seq<char>| names_of(rule_table(rs)).contains(n) <==> names_of(rs).contains(n),
        rule_table(rs).len() == names_of(rs).to_set().len(),
{
    lemma_rule_table(rs);
    let t = rule_table(rs);
    assert forall|n: Seq<char>| names_of(t).contains(n) <==> names_of(rs).contains(n) by {
        if names_of(t).contains(n) {
            let j = choose|j: int| 0 <= j < names_of(t).len() && names_of(t)[j] == n;
            let m = choose|m: int| 0 <= m < rs.len() && (#[trigger] t[j]).name == rs[m].name;
            assert(names_of(rs)[m] == n);
        }
        if names_of(rs).contains(n) {
            let m = choose|m: int| 0 <= m < names_of(rs).len() && names_of(rs)[m] == n;
            assert(names_of(t).contains(rs[m].name));
        }
    }
    assert(names_of(t).no_duplicates()) by {
        assert forall|a: int, b: int| 0 <= a < names_of(t).len() && 0 <= b < names_of(t).len() && a != b
            implies names_of(t)[a] != names_of(t)[b] by {
            if a < b {
                assert(t[a].name != t[b].name);
            } else {
                assert(t[b].name != t[a].name);
            }
        }
    }
    names_of(t).unique_seq_to_set();
    assert(names_of(t).to_set() =~= names_of(rs).to_set());
}

} // verus!
