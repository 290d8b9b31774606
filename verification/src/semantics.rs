//! The meaning of a grammar on an input, as the native interpreter reads it.
//!
//! Parsing is recursive descent with backtracking: alternatives are all tried
//! and the longest match wins (the first of equally long ones), repetitions
//! are greedy, and a rule entered again at the same input position fails as
//! left recursion.  The state threaded through a parse is the input
//! position, the name of the rule entered last (it appears in error
//! messages), and the set of (rule, position) pairs being parsed.
//!
//! Every function below takes that state and gives an `Out`: the result
//! (a node, if any, and the number of characters consumed, or an error) and
//! the name of the rule entered last.  On success the position moves by the
//! number consumed; on failure it stays.
use vstd::prelude::*;

use crate::ast::{AltsV, BaseV, FactorV, Mark, RepV, RuleV, SeqV};
use crate::charclass::class_admits;
use crate::parse_context::{error_report, ParseErrorV};
use crate::text::debug_text;
use crate::xml_node::{compact_xml, lemma_texts_of_push, text_of, texts_of, XmlV};

verus! {

/// What a grammar is parsed against: its table of rules (one per name) and
/// the input characters.
pub struct Env {
    pub table: Seq<RuleV>,
    pub input: Seq<char>,
}

/// A result with the name of the rule entered last.
pub struct Out {
    pub res: Result<(Option<XmlV>, nat), ParseErrorV>,
    pub last: Seq<char>,
}

/// The set of (rule name, position) pairs of the rules being parsed.
pub type Active = Set<(Seq<char>, int)>;

// ---------------------------------------------------------------------------
// The rule table
// ---------------------------------------------------------------------------

/// The names of the rules of a table, in order.
pub open spec fn names_of(t: Seq<RuleV>) -> Seq<Seq<char>> {
    t.map_values(|r: RuleV| r.name)
}

/// The index of the first rule named `name` at or after `k`, or -1.
pub open spec fn find_rule(t: Seq<RuleV>, name: Seq<char>, k: int) -> int
    decreases t.len() - k,
{
    if k < 0 || k >= t.len() {
        -1
    } else if t[k].name == name {
        k
    } else {
        find_rule(t, name, k + 1)
    }
}

/// A table with `r` added: it replaces the rule of the same name, if any.
pub open spec fn upsert(t: Seq<RuleV>, r: RuleV) -> Seq<RuleV> {
    let j = find_rule(t, r.name, 0);
    if j >= 0 {
        t.update(j, r)
    } else {
        t.push(r)
    }
}

/// The table of a list of rules: one rule per name, in order of first
/// appearance; the last definition of a name wins.
pub open spec fn rule_table(rs: Seq<RuleV>) -> Seq<RuleV>
    decreases rs.len(),
{
    if rs.len() == 0 {
        Seq::empty()
    } else {
        upsert(rule_table(rs.drop_last()), rs.last())
    }
}

pub proof fn lemma_find_rule(t: Seq<RuleV>, name: Seq<char>, k: int)
    requires
        0 <= k,
    ensures
        find_rule(t, name, k) == -1 || (k <= find_rule(t, name, k) < t.len() && t[find_rule(
            t,
            name,
            k,
        )].name == name),
        find_rule(t, name, k) == -1 ==> forall|j: int| k <= j < t.len() ==> t[j].name != name,
        forall|j: int| k <= j < t.len() && t[j].name == name ==> find_rule(t, name, k) != -1,
    decreases t.len() - k,
{
    if k < t.len() {
        lemma_find_rule(t, name, k + 1);
    }
}

/// Every name of the list has a rule in the table, and no name has two.
pub proof fn lemma_rule_table(rs: Seq<RuleV>)
    ensures
        forall|m: int| 0 <= m < rs.len() ==> names_of(rule_table(rs)).contains(#[trigger] rs[m].name),
        forall|a: int, b: int|
            0 <= a < b < rule_table(rs).len() ==> rule_table(rs)[a].name != rule_table(rs)[b].name,
        forall|j: int|
            0 <= j < rule_table(rs).len() ==> exists|m: int|
                0 <= m < rs.len() && (#[trigger] rule_table(rs)[j]).name == rs[m].name,
    decreases rs.len(),
{
    if rs.len() > 0 {
        let p = rs.drop_last();
        let t = rule_table(p);
        let r = rs.last();
        lemma_rule_table(p);
        lemma_find_rule(t, r.name, 0);
        let j = find_rule(t, r.name, 0);
        let u = rule_table(rs);
        assert(u == upsert(t, r));
        if j >= 0 {
            assert(names_of(u) =~= names_of(t));
        } else {
            assert(names_of(u) =~= names_of(t).push(r.name));
        }
        assert forall|m: int| 0 <= m < rs.len() implies names_of(u).contains(#[trigger] rs[m].name) by {
            if m < rs.len() - 1 {
                assert(rs[m] == p[m]);
                assert(names_of(t).contains(p[m].name));
                let w = choose|w: int| 0 <= w < names_of(t).len() && names_of(t)[w] == p[m].name;
                assert(names_of(u)[w] == p[m].name);
            } else {
                if j >= 0 {
                    assert(names_of(u)[j] == r.name);
                } else {
                    assert(names_of(u)[t.len() as int] == r.name);
                }
            }
        }
        assert forall|i: int| 0 <= i < u.len() implies exists|m: int|
            0 <= m < rs.len() && (#[trigger] u[i]).name == rs[m].name by {
            if j >= 0 && i == j {
                assert(u[i].name == rs[rs.len() - 1].name);
            } else if j < 0 && i == t.len() {
                assert(u[i].name == rs[rs.len() - 1].name);
            } else {
                assert(u[i] == t[i]);
                let m = choose|m: int| 0 <= m < p.len() && (#[trigger] t[i]).name == p[m].name;
                assert(rs[m] == p[m]);
            }
        }
    }
}

// ---------------------------------------------------------------------------
// Measures for termination
// ---------------------------------------------------------------------------

/// The number of names not being parsed at `pos`.
pub open spec fn count_free(names: Seq<Seq<char>>, active: Active, pos: int) -> nat
    decreases names.len(),
{
    if names.len() == 0 {
        0
    } else {
        count_free(names.drop_last(), active, pos) + (if active.contains((names.last(), pos)) {
            0nat
        } else {
            1nat
        })
    }
}

pub proof fn lemma_count_free_le(names: Seq<Seq<char>>, active: Active, n: Seq<char>, pos: int)
    ensures
        count_free(names, active.insert((n, pos)), pos) <= count_free(names, active, pos),
    decreases names.len(),
{
    if names.len() > 0 {
        lemma_count_free_le(names.drop_last(), active, n, pos);
    }
}

/// Entering a rule of the table at a position where it is not being parsed
/// leaves fewer free names there.
pub proof fn lemma_count_free_insert(names: Seq<Seq<char>>, active: Active, n: Seq<char>, pos: int)
    requires
        names.contains(n),
        !active.contains((n, pos)),
    ensures
        count_free(names, active.insert((n, pos)), pos) < count_free(names, active, pos),
    decreases names.len(),
{
    let p = names.drop_last();
    if names.last() == n {
        lemma_count_free_le(p, active, n, pos);
    } else {
        let w = choose|w: int| 0 <= w < names.len() && names[w] == n;
        assert(p[w] == n);
        lemma_count_free_insert(p, active, n, pos);
    }
}

pub open spec fn size_alts(a: AltsV) -> nat
    decreases a, 0nat,
{
    1 + size_seqs_from(a.alts, 0)
}

pub open spec fn size_seqs_from(s: Seq<SeqV>, i: int) -> nat
    decreases s, s.len() - i,
{
    if 0 <= i < s.len() {
        1 + size_seq(s[i]) + size_seqs_from(s, i + 1)
    } else {
        0
    }
}

pub open spec fn size_seq(q: SeqV) -> nat
    decreases q, 0nat,
{
    1 + size_factors_from(q.factors, 0)
}

pub open spec fn size_factors_from(s: Seq<FactorV>, i: int) -> nat
    decreases s, s.len() - i,
{
    if 0 <= i < s.len() {
        1 + size_factor(s[i]) + size_factors_from(s, i + 1)
    } else {
        0
    }
}

pub open spec fn size_factor(f: FactorV) -> nat
    decreases f, 0nat,
{
    2 + size_base(f.base) + size_rep(f.repetition)
}

pub open spec fn size_base(b: BaseV) -> nat
    decreases b, 0nat,
{
    match b {
        BaseV::Nonterminal { .. } => 2,
        BaseV::Group { alternatives } => 1 + size_alts(alternatives),
        _ => 1,
    }
}

pub open spec fn size_rep(r: RepV) -> nat
    decreases r, 0nat,
{
    match r {
        RepV::SeparatedZeroOrMore(q) => 1 + size_seq(q),
        RepV::SeparatedOneOrMore(q) => 1 + size_seq(q),
        _ => 1,
    }
}

pub proof fn lemma_size_seqs_from(s: Seq<SeqV>, k: int, i: int)
    requires
        0 <= k <= i < s.len(),
    ensures
        size_seq(s[i]) < size_seqs_from(s, k),
        size_seqs_from(s, k) == 1 + size_seq(s[k]) + size_seqs_from(s, k + 1),
    decreases i - k,
{
    if k < i {
        lemma_size_seqs_from(s, k + 1, i);
    }
}

pub proof fn lemma_size_factors_from(s: Seq<FactorV>, k: int, i: int)
    requires
        0 <= k <= i < s.len(),
    ensures
        size_factor(s[i]) < size_factors_from(s, k),
        size_factors_from(s, k) == 1 + size_factor(s[k]) + size_factors_from(s, k + 1),
    decreases i - k,
{
    if k < i {
        lemma_size_factors_from(s, k + 1, i);
    }
}

// ---------------------------------------------------------------------------
// Nodes
// ---------------------------------------------------------------------------

/// The node of a matched terminal: none if hidden, else its text.
pub open spec fn node_for(mark: Mark, text: Seq<char>) -> Option<XmlV> {
    if mark == Mark::Hidden {
        None
    } else {
        Some(XmlV::Text(text))
    }
}

/// The children of a `_sequence` wrapper, or the node alone.
pub open spec fn unwrap_seq(n: XmlV) -> Seq<XmlV> {
    match n {
        XmlV::Element { name, attributes, children } => if name == "_sequence"@ {
            children
        } else {
            seq![n]
        },
        _ => seq![n],
    }
}

/// The sequence with the node appended, if there is one.
pub open spec fn push_opt(s: Seq<XmlV>, n: Option<XmlV>) -> Seq<XmlV> {
    match n {
        Some(x) => s.push(x),
        None => s,
    }
}

/// The node of a list of nodes: none, the only one, or a `_sequence`
/// wrapper of them all.
pub open spec fn seq_node(children: Seq<XmlV>) -> Option<XmlV> {
    if children.len() == 0 {
        None
    } else if children.len() == 1 {
        Some(children[0])
    } else {
        Some(XmlV::Element { name: "_sequence"@, attributes: Seq::empty(), children })
    }
}

/// Left to right: the nodes kept so far and the text not yet flushed.
/// Consecutive text nodes are joined; empty text disappears.
pub open spec fn merge_fold(s: Seq<XmlV>) -> (Seq<XmlV>, Seq<char>)
    decreases s.len(),
{
    if s.len() == 0 {
        (Seq::empty(), Seq::empty())
    } else {
        let (m, b) = merge_fold(s.drop_last());
        match s.last() {
            XmlV::Text(t) => (m, b + t),
            other => (if b.len() > 0 {
                m.push(XmlV::Text(b))
            } else {
                m
            }.push(other), Seq::empty()),
        }
    }
}

/// The nodes of a list with consecutive text joined.
pub open spec fn merged(s: Seq<XmlV>) -> Seq<XmlV> {
    let (m, b) = merge_fold(s);
    if b.len() > 0 {
        m.push(XmlV::Text(b))
    } else {
        m
    }
}

/// The node of the matches of a repetition.
pub open spec fn merge_s(s: Seq<XmlV>) -> Option<XmlV> {
    if s.len() == 0 {
        None
    } else {
        seq_node(merged(s))
    }
}

/// A list with every `_sequence` wrapper replaced by its (flattened) children.
pub open spec fn flat_s(s: Seq<XmlV>) -> Seq<XmlV>
    decreases s,
{
    if s.len() == 0 {
        Seq::empty()
    } else {
        flat_s(s.drop_last()) + flat_one(s.last())
    }
}

pub open spec fn flat_one(n: XmlV) -> Seq<XmlV>
    decreases n,
{
    match n {
        XmlV::Element { name, attributes, children } => if name == "_sequence"@ {
            flat_s(children)
        } else {
            seq![n]
        },
        _ => seq![n],
    }
}

/// The attribute nodes of a list, as (name, value) pairs.
pub open spec fn attrs_of(s: Seq<XmlV>) -> Seq<(Seq<char>, Seq<char>)>
    decreases s.len(),
{
    if s.len() == 0 {
        Seq::empty()
    } else {
        match s.last() {
            XmlV::Attribute { name, value } => attrs_of(s.drop_last()).push((name, value)),
            _ => attrs_of(s.drop_last()),
        }
    }
}

/// The nodes of a list that are not attributes.
pub open spec fn non_attrs_of(s: Seq<XmlV>) -> Seq<XmlV>
    decreases s.len(),
{
    if s.len() == 0 {
        Seq::empty()
    } else {
        match s.last() {
            XmlV::Attribute { .. } => non_attrs_of(s.drop_last()),
            other => non_attrs_of(s.drop_last()).push(other),
        }
    }
}

/// What a rule's own mark makes of the node its alternatives produced.
/// Unmarked: an element named after the rule, whose attributes are the
/// attribute nodes among the (flattened) children and whose children are the
/// rest.  `@`: an attribute holding the text.  `-` and `^`: the node as is.
pub open spec fn rule_mark_s(n: Option<XmlV>, name: Seq<char>, mark: Mark) -> Option<XmlV> {
    match mark {
        Mark::Hidden => n,
        Mark::Promoted => n,
        Mark::Attribute => Some(
            XmlV::Attribute {
                name,
                value: match n {
                    Some(x) => text_of(x),
                    None => Seq::empty(),
                },
            },
        ),
        Mark::Unmarked => {
            let children = flat_s(
                match n {
                    Some(x) => unwrap_seq(x),
                    None => Seq::empty(),
                },
            );
            Some(
                XmlV::Element {
                    name,
                    attributes: attrs_of(children),
                    children: non_attrs_of(children),
                },
            )
        },
    }
}

/// The attributes of an element as attribute nodes.
pub open spec fn attr_nodes(a: Seq<(Seq<char>, Seq<char>)>) -> Seq<XmlV> {
    a.map_values(|p: (Seq<char>, Seq<char>)| XmlV::Attribute { name: p.0, value: p.1 })
}

/// What the mark on a nonterminal makes of the node of the rule named `name`.
/// `-`: an element gives way to its attributes (as nodes) and children.
/// `@`: an attribute holding the text.  `^`: an element named after the rule
/// (unless it is one already).  Unmarked: the node as is.
pub open spec fn factor_mark_one(n: XmlV, name: Seq<char>, mark: Mark) -> Option<XmlV> {
    match mark {
        Mark::Hidden => match n {
            XmlV::Element { attributes, children, .. } => seq_node(attr_nodes(attributes) + children),
            other => Some(other),
        },
        Mark::Attribute => Some(XmlV::Attribute { name, value: text_of(n) }),
        Mark::Promoted => match n {
            XmlV::Element { name: en, .. } => if en == name {
                Some(n)
            } else {
                Some(XmlV::Element { name, attributes: Seq::empty(), children: unwrap_seq(n) })
            },
            _ => Some(XmlV::Element { name, attributes: Seq::empty(), children: seq![n] }),
        },
        Mark::Unmarked => Some(n),
    }
}

pub open spec fn factor_mark_s(n: Option<XmlV>, name: Seq<char>, mark: Mark) -> Option<XmlV> {
    match n {
        Some(x) => factor_mark_one(x, name, mark),
        None => None,
    }
}

// ---------------------------------------------------------------------------
// Terminals
// ---------------------------------------------------------------------------

/// The first `k' >= k` at which `value` and the input from `pos` differ (or
/// the input ends), or `value.len()` if they agree to the end of `value`.
pub open spec fn lit_mismatch(value: Seq<char>, input: Seq<char>, pos: int, k: int) -> int
    decreases value.len() - k,
{
    if k >= value.len() {
        k
    } else if pos + k >= input.len() || input[pos + k] != value[k] {
        k
    } else {
        lit_mismatch(value, input, pos, k + 1)
    }
}

/// A literal at `pos`: an insertion matches nothing and yields its text; a
/// literal matches its characters.
pub open spec fn terminal_s(
    value: Seq<char>,
    insertion: bool,
    mark: Mark,
    input: Seq<char>,
    pos: int,
) -> Result<(Option<XmlV>, nat), ParseErrorV> {
    if insertion {
        Ok((node_for(mark, value), 0))
    } else {
        let k = lit_mismatch(value, input, pos, 0);
        if k >= value.len() {
            Ok((node_for(mark, value), value.len()))
        } else if pos + k >= input.len() {
            Err(ParseErrorV::UnexpectedEof { position: pos, expected: value })
        } else {
            Err(
                ParseErrorV::TerminalMismatch {
                    expected: value,
                    actual: seq![input[pos + k]],
                    position: pos,
                },
            )
        }
    }
}

/// A character class at `pos`: one character that the class admits (or, if
/// negated, does not admit).
pub open spec fn charclass_s(
    content: Seq<char>,
    negated: bool,
    mark: Mark,
    input: Seq<char>,
    pos: int,
) -> Result<(Option<XmlV>, nat), ParseErrorV> {
    if pos < 0 || pos >= input.len() {
        Err(
            ParseErrorV::UnexpectedEof {
                position: pos,
                expected: "character matching class ["@ + (if negated {
                    "^"@
                } else {
                    Seq::empty()
                }) + content + "]"@,
            },
        )
    } else if class_admits(content, input[pos]) == negated {
        Err(
            ParseErrorV::CharClassMismatch {
                charclass: content,
                negated,
                actual: input[pos],
                position: pos,
            },
        )
    } else {
        Ok((node_for(mark, seq![input[pos]]), 1))
    }
}

// ---------------------------------------------------------------------------
// The parse
// ---------------------------------------------------------------------------

/// A rule at `pos`: left recursion if it is being parsed there already, else
/// its alternatives, with the rule's mark applied.
pub open spec fn rule_s(env: Env, r: RuleV, pos: int, last: Seq<char>, active: Active) -> Out
    decreases env.input.len() - pos, count_free(names_of(env.table), active, pos), 0nat
    when names_of(env.table).contains(r.name)
{
    if active.contains((r.name, pos)) {
        Out { res: Err(ParseErrorV::LeftRecursion { rule: r.name, position: pos }), last: r.name }
    } else {
        proof {
            lemma_count_free_insert(names_of(env.table), active, r.name, pos);
        }
        let o = alts_s(env, r.alternatives, pos, r.name, active.insert((r.name, pos)));
        Out {
            res: match o.res {
                Ok((n, c)) => Ok((rule_mark_s(n, r.name, r.mark), c)),
                Err(e) => Err(e),
            },
            last: o.last,
        }
    }
}

/// Alternatives at `pos`: the longest match of all of them.
pub open spec fn alts_s(env: Env, a: AltsV, pos: int, last: Seq<char>, active: Active) -> Out
    decreases env.input.len() - pos, count_free(names_of(env.table), active, pos), size_alts(a),
{
    alt_loop(env, a.alts, 0, pos, last, active, None)
}

/// Tries the alternatives from `i` on, with `best` the longest match so far;
/// a later match replaces it only if strictly longer.  If none matched, the
/// error names the rule entered last and counts every alternative.
pub open spec fn alt_loop(
    env: Env,
    alts: Seq<SeqV>,
    i: int,
    pos: int,
    last: Seq<char>,
    active: Active,
    best: Option<(Option<XmlV>, nat)>,
) -> Out
    decreases env.input.len() - pos, count_free(names_of(env.table), active, pos),
        size_seqs_from(alts, i),
{
    if i < 0 || i >= alts.len() {
        match best {
            Some(b) => Out { res: Ok(b), last },
            None => Out {
                res: Err(
                    ParseErrorV::NoAlternativeMatched {
                        position: pos,
                        rule: last,
                        attempts: alts.len() as int,
                    },
                ),
                last,
            },
        }
    } else {
        let o = seq_s(env, alts[i], pos, last, active);
        let nb = match o.res {
            Ok((n, c)) => match best {
                None => Some((n, c)),
                Some((bn, bc)) => if c > bc {
                    Some((n, c))
                } else {
                    best
                },
            },
            Err(_) => best,
        };
        alt_loop(env, alts, i + 1, pos, o.last, active, nb)
    }
}

/// A sequence at `pos`: its factors one after the other; the first failure
/// fails it.
pub open spec fn seq_s(env: Env, q: SeqV, pos: int, last: Seq<char>, active: Active) -> Out
    decreases env.input.len() - pos, count_free(names_of(env.table), active, pos), size_seq(q),
{
    seq_loop(env, q.factors, 0, pos, last, active, Seq::empty(), 0)
}

/// Parses factors from `i` on, with the nodes and count gathered so far.
pub open spec fn seq_loop(
    env: Env,
    fs: Seq<FactorV>,
    i: int,
    pos: int,
    last: Seq<char>,
    active: Active,
    children: Seq<XmlV>,
    total: nat,
) -> Out
    decreases env.input.len() - pos, count_free(names_of(env.table), active, pos),
        size_factors_from(fs, i),
{
    if i < 0 || i >= fs.len() {
        Out { res: Ok((seq_node(children), total)), last }
    } else {
        let o = factor_s(env, fs[i], pos, last, active);
        match o.res {
            Err(e) => Out { res: Err(e), last: o.last },
            Ok((n, c)) => if pos + c > env.input.len() {
                // a step never passes the end of the input
                o
            } else {
                seq_loop(env, fs, i + 1, pos + c, o.last, active, push_opt(children, n), total + c)
            },
        }
    }
}

/// A factor at `pos`, by its repetition.
pub open spec fn factor_s(env: Env, f: FactorV, pos: int, last: Seq<char>, active: Active) -> Out
    decreases env.input.len() - pos, count_free(names_of(env.table), active, pos), size_factor(f),
{
    match f.repetition {
        RepV::Once => base_s(env, f.base, pos, last, active),
        RepV::ZeroOrMore => star_loop(env, f.base, pos, last, active, Seq::empty(), 0),
        RepV::OneOrMore => plus_s(env, f.base, pos, last, active),
        RepV::Optional => opt_s(env, f.base, pos, last, active),
        RepV::SeparatedZeroOrMore(sep) => sep_star_s(env, f.base, sep, pos, last, active),
        RepV::SeparatedOneOrMore(sep) => sep_plus_s(env, f.base, sep, pos, last, active),
    }
}

/// Matches of `b` from `pos` on until one fails or matches nothing, with
/// the nodes and count gathered so far.  Never fails.
pub open spec fn star_loop(
    env: Env,
    b: BaseV,
    pos: int,
    last: Seq<char>,
    active: Active,
    children: Seq<XmlV>,
    total: nat,
) -> Out
    decreases env.input.len() - pos, count_free(names_of(env.table), active, pos), size_base(b) + 1,
{
    let o = base_s(env, b, pos, last, active);
    match o.res {
        Err(_) => Out { res: Ok((merge_s(children), total)), last: o.last },
        Ok((n, c)) => if c == 0 {
            Out { res: Ok((merge_s(push_opt(children, n)), total)), last: o.last }
        } else if pos + c > env.input.len() {
            o
        } else {
            star_loop(env, b, pos + c, o.last, active, push_opt(children, n), total + c)
        },
    }
}

/// One or more matches of `b`.
pub open spec fn plus_s(env: Env, b: BaseV, pos: int, last: Seq<char>, active: Active) -> Out
    decreases env.input.len() - pos, count_free(names_of(env.table), active, pos), size_base(b) + 1,
{
    let o = base_s(env, b, pos, last, active);
    match o.res {
        Err(e) => Out { res: Err(e), last: o.last },
        Ok((n, c)) => if c == 0 {
            Out { res: Ok((n, 0)), last: o.last }
        } else if pos + c > env.input.len() {
            o
        } else {
            star_loop(env, b, pos + c, o.last, active, push_opt(Seq::empty(), n), c)
        },
    }
}

/// An optional `b`: its match, or nothing.
pub open spec fn opt_s(env: Env, b: BaseV, pos: int, last: Seq<char>, active: Active) -> Out
    decreases env.input.len() - pos, count_free(names_of(env.table), active, pos), size_base(b) + 1,
{
    let o = base_s(env, b, pos, last, active);
    match o.res {
        Ok(x) => Out { res: Ok(x), last: o.last },
        Err(_) => Out { res: Ok((None, 0)), last: o.last },
    }
}

/// Zero or more matches of `b` separated by `sep`.
pub open spec fn sep_star_s(
    env: Env,
    b: BaseV,
    sep: SeqV,
    pos: int,
    last: Seq<char>,
    active: Active,
) -> Out
    decreases env.input.len() - pos, count_free(names_of(env.table), active, pos),
        size_base(b) + size_seq(sep) + 2,
{
    let o = base_s(env, b, pos, last, active);
    match o.res {
        Err(_) => Out { res: Ok((None, 0)), last: o.last },
        Ok((n, c)) => if c == 0 {
            Out { res: Ok((n, 0)), last: o.last }
        } else if pos + c > env.input.len() {
            o
        } else {
            sep_loop(env, b, sep, pos + c, o.last, active, push_opt(Seq::empty(), n), c)
        },
    }
}

/// One or more matches of `b` separated by `sep`.
pub open spec fn sep_plus_s(
    env: Env,
    b: BaseV,
    sep: SeqV,
    pos: int,
    last: Seq<char>,
    active: Active,
) -> Out
    decreases env.input.len() - pos, count_free(names_of(env.table), active, pos),
        size_base(b) + size_seq(sep) + 2,
{
    let o = base_s(env, b, pos, last, active);
    match o.res {
        Err(e) => Out { res: Err(e), last: o.last },
        Ok((n, c)) => if c == 0 {
            Out { res: Ok((n, 0)), last: o.last }
        } else if pos + c > env.input.len() {
            o
        } else {
            sep_loop(env, b, sep, pos + c, o.last, active, push_opt(Seq::empty(), n), c)
        },
    }
}

/// Further (separator, element) pairs from `pos` on.  A separator that
/// matches keeps its node even if the element after it then fails (the
/// input it matched is given back).
pub open spec fn sep_loop(
    env: Env,
    b: BaseV,
    sep: SeqV,
    pos: int,
    last: Seq<char>,
    active: Active,
    children: Seq<XmlV>,
    total: nat,
) -> Out
    decreases env.input.len() - pos, count_free(names_of(env.table), active, pos),
        size_base(b) + size_seq(sep) + 1,
{
    let o1 = seq_s(env, sep, pos, last, active);
    match o1.res {
        Err(_) => Out { res: Ok((merge_s(children), total)), last: o1.last },
        Ok((n1, c1)) => {
            let ch1 = push_opt(children, n1);
            if pos + c1 > env.input.len() {
                o1
            } else {
                let o2 = base_s(env, b, pos + c1, o1.last, active);
                match o2.res {
                    Err(_) => Out { res: Ok((merge_s(ch1), total)), last: o2.last },
                    Ok((n2, c2)) => {
                        let ch2 = push_opt(ch1, n2);
                        if c2 == 0 {
                            Out { res: Ok((merge_s(ch2), total + c1)), last: o2.last }
                        } else if pos + c1 + c2 > env.input.len() {
                            o2
                        } else {
                            sep_loop(env, b, sep, pos + c1 + c2, o2.last, active, ch2, total + c1 + c2)
                        }
                    },
                }
            }
        },
    }
}

/// A base factor at `pos`.
pub open spec fn base_s(env: Env, b: BaseV, pos: int, last: Seq<char>, active: Active) -> Out
    decreases env.input.len() - pos, count_free(names_of(env.table), active, pos), size_base(b),
{
    match b {
        BaseV::Literal { value, insertion, mark } => Out {
            res: terminal_s(value, insertion, mark, env.input, pos),
            last,
        },
        BaseV::Nonterminal { name, mark } => nonterm_s(env, name, mark, pos, last, active),
        BaseV::CharClass { content, negated, mark } => Out {
            res: charclass_s(content, negated, mark, env.input, pos),
            last,
        },
        BaseV::Group { alternatives } => alts_s(env, alternatives, pos, last, active),
    }
}

/// A nonterminal at `pos`: the rule of that name, with the nonterminal's
/// mark applied; an error if the table has no such rule.
pub open spec fn nonterm_s(
    env: Env,
    name: Seq<char>,
    mark: Mark,
    pos: int,
    last: Seq<char>,
    active: Active,
) -> Out
    decreases env.input.len() - pos, count_free(names_of(env.table), active, pos), 1nat,
{
    let j = find_rule(env.table, name, 0);
    if j < 0 || j >= env.table.len() {
        Out {
            res: Err(ParseErrorV::Custom { message: "Undefined rule: "@ + name, position: pos }),
            last,
        }
    } else {
        let o = rule_s(env, env.table[j], pos, last, active);
        match o.res {
            Err(e) => Out { res: Err(e), last: o.last },
            Ok((n, c)) => Out {
                res: Ok((factor_mark_s(referenced_node(env.table[j], n), name, mark), c)),
                last: o.last,
            },
        }
    }
}

/// A character rule: an unmarked rule whose whole body is one unmarked,
/// unrepeated character class, such as `letter: ["A"-"Z"; "a"-"z"].`
pub open spec fn is_char_rule(r: RuleV) -> bool {
    &&& r.mark == Mark::Unmarked
    &&& r.alternatives.alts.len() == 1
    &&& r.alternatives.alts[0].factors.len() == 1
    &&& r.alternatives.alts[0].factors[0].repetition == RepV::Once
    &&& r.alternatives.alts[0].factors[0].base matches BaseV::CharClass { mark, .. }
    &&& mark == Mark::Unmarked
}

/// What a nonterminal receives from the rule it names: a character rule
/// gives the character it matched as text, other rules their node.
pub open spec fn referenced_node(r: RuleV, n: Option<XmlV>) -> Option<XmlV> {
    if is_char_rule(r) {
        match n {
            Some(x) => Some(XmlV::Text(text_of(x))),
            None => None,
        }
    } else {
        n
    }
}

/// At most 20 characters of `s` from `start` on.
pub open spec fn head20(s: Seq<char>, start: int) -> Seq<char> {
    let end = if start + 20 <= s.len() {
        start + 20
    } else {
        s.len() as int
    };
    s.subrange(start, end)
}

/// Parsing `input` with a grammar whose rules are `rules`: from the first
/// rule, at position 0, nothing being parsed; the whole input must be
/// matched, and the XML of the node is the answer.
pub open spec fn parse_s(rules: Seq<RuleV>, input: Seq<char>) -> Result<Seq<char>, Seq<char>> {
    if rules.len() == 0 {
        Err("Grammar has no rules"@)
    } else {
        let env = Env { table: rule_table(rules), input };
        let o = rule_s(env, rules[0], 0, Seq::empty(), Set::empty());
        match o.res {
            Err(e) => Err(error_report(e, input)),
            Ok((n, c)) => if c < input.len() {
                Err("Parse succeeded but input remains: "@ + debug_text(head20(input, c as int)))
            } else {
                match n {
                    Some(x) => Ok(compact_xml(x)),
                    None => Err("Parse succeeded but produced no output (fully suppressed)"@),
                }
            },
        }
    }
}

// ---------------------------------------------------------------------------
// Laws
// ---------------------------------------------------------------------------

/// Inside the input, a character class and its negation split the
/// characters: exactly one of them matches the character at `pos`, and a
/// match consumes that one character.
pub proof fn law_class_and_negation_split(content: Seq<char>, mark: Mark, input: Seq<char>, pos: int)
    requires
        0 <= pos < input.len(),
    ensures
        (charclass_s(content, false, mark, input, pos) is Ok) != (charclass_s(content, true, mark, input, pos) is Ok),
        charclass_s(content, false, mark, input, pos) matches Ok((_, c)) ==> c == 1,
        charclass_s(content, true, mark, input, pos) matches Ok((_, c)) ==> c == 1,
{
}

/// An insertion matches anywhere, the end of the input included, and
/// consumes nothing.
pub proof fn law_insertion_consumes_nothing(value: Seq<char>, mark: Mark, input: Seq<char>, pos: int)
    ensures
        terminal_s(value, true, mark, input, pos) == Ok::<(Option<XmlV>, nat), ParseErrorV>(
            (node_for(mark, value), 0),
        ),
{
}


// ---------------------------------------------------------------------------
// Separated repetitions keep what they match
// ---------------------------------------------------------------------------

/// The text of an optional node (nothing for none).
pub open spec fn node_text(n: Option<XmlV>) -> Seq<char> {
    match n {
        Some(x) => text_of(x),
        None => Seq::empty(),
    }
}

/// A separator made of one plain literal.
pub open spec fn literal_separator(v: Seq<char>) -> SeqV {
    SeqV {
        factors: seq![
            FactorV {
                base: BaseV::Literal { value: v, insertion: false, mark: Mark::Unmarked },
                repetition: RepV::Once,
            },
        ],
    }
}

/// An unmarked character class.
pub open spec fn plain_class(content: Seq<char>, negated: bool) -> BaseV {
    BaseV::CharClass { content, negated, mark: Mark::Unmarked }
}

proof fn lemma_merge_fold_text(s: Seq<XmlV>)
    ensures
        texts_of(merge_fold(s).0) + merge_fold(s).1 == texts_of(s),
    decreases s.len(),
{
    if s.len() > 0 {
        lemma_merge_fold_text(s.drop_last());
        let (m, b) = merge_fold(s.drop_last());
        assert(texts_of(s) == texts_of(s.drop_last()) + text_of(s.last()));
        match s.last() {
            XmlV::Text(t) => {
                assert(merge_fold(s) == (m, b + t));
                assert(texts_of(m) + (b + t) =~= (texts_of(m) + b) + t);
            },
            other => {
                if b.len() > 0 {
                    lemma_texts_of_push(m, XmlV::Text(b));
                    lemma_texts_of_push(m.push(XmlV::Text(b)), other);
                } else {
                    lemma_texts_of_push(m, other);
                    assert(texts_of(m) + b =~= texts_of(m));
                }
                assert(texts_of(merge_fold(s).0) + merge_fold(s).1 =~= texts_of(s));
            },
        }
    }
}

/// Gathering the matches of a repetition into one node keeps their text.
proof fn lemma_merge_s_text(s: Seq<XmlV>)
    ensures
        node_text(merge_s(s)) == texts_of(s),
{
    if s.len() > 0 {
        lemma_merge_fold_text(s);
        let (m0, b) = merge_fold(s);
        let m = merged(s);
        if b.len() > 0 {
            lemma_texts_of_push(m0, XmlV::Text(b));
        } else {
            assert(texts_of(m0) + b =~= texts_of(m0));
        }
        assert(texts_of(m) == texts_of(s));
        if m.len() == 0 {
            assert(texts_of(m) == Seq::<char>::empty());
        } else if m.len() == 1 {
            assert(m.drop_last() =~= Seq::<XmlV>::empty());
            assert(texts_of(m) == texts_of(m.drop_last()) + text_of(m[0]));
            assert(texts_of(m) =~= text_of(m[0]));
        }
    }
}

proof fn lemma_lit_matched(v: Seq<char>, input: Seq<char>, pos: int, k: int, j: int)
    requires
        0 <= k <= j < v.len(),
        0 <= pos,
        lit_mismatch(v, input, pos, k) >= v.len(),
    ensures
        pos + j < input.len(),
        input[pos + j] == v[j],
    decreases j - k,
{
    if !(pos + k < input.len() && input[pos + k] == v[k]) {
        assert(lit_mismatch(v, input, pos, k) == k);
    } else if k < j {
        assert(lit_mismatch(v, input, pos, k) == lit_mismatch(v, input, pos, k + 1));
        lemma_lit_matched(v, input, pos, k + 1, j);
    }
}

/// A plain literal separator matches exactly its text, and its node holds it.
proof fn lemma_literal_separator(env: Env, v: Seq<char>, pos: int, last: Seq<char>, active: Active)
    requires
        v.len() > 0,
        0 <= pos,
    ensures
        seq_s(env, literal_separator(v), pos, last, active).res matches Ok((n, c)) ==> c == v.len() && pos + c
            <= env.input.len() && env.input.subrange(pos, pos + c) == v && n == Some(XmlV::Text(v)),
{
    let q = literal_separator(v);
    let o = factor_s(env, q.factors[0], pos, last, active);
    assert(o.res == terminal_s(v, false, Mark::Unmarked, env.input, pos));
    if o.res is Ok {
        lemma_lit_matched(v, env.input, pos, 0, v.len() - 1);
        assert(env.input.subrange(pos, pos + v.len()) =~= v) by {
            assert forall|j: int| 0 <= j < v.len() implies env.input.subrange(pos, pos + v.len())[j] == v[j] by {
                lemma_lit_matched(v, env.input, pos, 0, j);
            }
        }
        let c = v.len();
        assert(seq_loop(env, q.factors, 0, pos, last, active, Seq::empty(), 0) == seq_loop(
            env,
            q.factors,
            1,
            pos + c,
            o.last,
            active,
            seq![XmlV::Text(v)],
            c,
        )) by {
            assert(push_opt(Seq::<XmlV>::empty(), Some(XmlV::Text(v))) =~= seq![XmlV::Text(v)]);
        }
    }
}

proof fn lemma_sep_loop_text(
    env: Env,
    content: Seq<char>,
    negated: bool,
    v: Seq<char>,
    pos: int,
    last: Seq<char>,
    active: Active,
    children: Seq<XmlV>,
    total: nat,
    start: int,
)
    requires
        v.len() > 0,
        0 <= start <= pos <= env.input.len(),
        total == pos - start,
        texts_of(children) == env.input.subrange(start, pos),
    ensures
        sep_loop(env, plain_class(content, negated), literal_separator(v), pos, last, active, children, total).res
            matches Ok((n, c)) ==> (start + c == env.input.len() ==> node_text(n) == env.input.subrange(
            start,
            start + c,
        )),
    decreases env.input.len() - pos,
{
    let b = plain_class(content, negated);
    let q = literal_separator(v);
    let o1 = seq_s(env, q, pos, last, active);
    lemma_literal_separator(env, v, pos, last, active);
    match o1.res {
        Err(_) => {
            lemma_merge_s_text(children);
        },
        Ok((n1, c1)) => {
            let with_sep = push_opt(children, n1);
            let p1 = pos + c1;
            let o2 = base_s(env, b, p1, o1.last, active);
            assert(o2.res == charclass_s(content, negated, Mark::Unmarked, env.input, p1));
            match o2.res {
                Err(_) => {},
                Ok((n2, c2)) => {
                    let x = env.input[p1];
                    assert(c2 == 1 && n2 == Some(XmlV::Text(seq![x])));
                    let ch2 = push_opt(with_sep, n2);
                    lemma_texts_of_push(children, XmlV::Text(v));
                    lemma_texts_of_push(with_sep, XmlV::Text(seq![x]));
                    assert(env.input.subrange(start, p1 + 1) =~= env.input.subrange(start, pos)
                        + env.input.subrange(pos, p1) + seq![x]);
                    lemma_sep_loop_text(
                        env,
                        content,
                        negated,
                        v,
                        p1 + 1,
                        o2.last,
                        active,
                        ch2,
                        (total + c1 + c2) as nat,
                        start,
                    );
                },
            }
        },
    }
}

/// A separated repetition of a plain character class with a plain literal
/// separator (`[..]++"s"` or `[..]**"s"`) keeps everything it matched: when
/// it runs to the end of the input, the text of its node is exactly the
/// input it consumed, separators included.
pub proof fn law_separated_repetition_keeps_its_text(
    env: Env,
    content: Seq<char>,
    negated: bool,
    v: Seq<char>,
    pos: int,
    last: Seq<char>,
    active: Active,
)
    requires
        v.len() > 0,
        0 <= pos <= env.input.len(),
    ensures
        sep_plus_s(env, plain_class(content, negated), literal_separator(v), pos, last, active).res matches Ok(
            (n, c),
        ) ==> (pos + c == env.input.len() ==> node_text(n) == env.input.subrange(pos, pos + c)),
        sep_star_s(env, plain_class(content, negated), literal_separator(v), pos, last, active).res matches Ok(
            (n, c),
        ) ==> (pos + c == env.input.len() ==> node_text(n) == env.input.subrange(pos, pos + c)),
{
    let b = plain_class(content, negated);
    let o = base_s(env, b, pos, last, active);
    assert(o.res == charclass_s(content, negated, Mark::Unmarked, env.input, pos));
    match o.res {
        Err(_) => {
            assert(env.input.subrange(pos, pos) =~= Seq::<char>::empty());
        },
        Ok((n, c)) => {
            let x = env.input[pos];
            assert(c == 1 && n == Some(XmlV::Text(seq![x])));
            let ch = push_opt(Seq::empty(), n);
            lemma_texts_of_push(Seq::empty(), XmlV::Text(seq![x]));
            assert(texts_of(Seq::<XmlV>::empty()) =~= Seq::<char>::empty());
            assert(env.input.subrange(pos, pos + 1) =~= seq![x]);
            lemma_sep_loop_text(env, content, negated, v, pos + 1, o.last, active, ch, 1, pos);
        },
    }
}

} // verus!
