//! Turning a whole grammar into a grammar of the Earley parser: first the
//! terminals of the literal characters and of the character classes, the
//! wrappers of marked literals, then the nonterminals (rules, literal
//! sequences, repetition helpers), and last each rule's productions.
//!
//! What must be declared is gathered from the grammar as items, in the
//! order in which they occur; each kind is declared once per item, in order
//! of first occurrence.
use vstd::prelude::*;

use crate::ast::{
    alts_view, factor_view, lemma_factors_view_index, lemma_seqs_view_index, rules_view,
    sequence_view, Alternatives, BaseFactor, FactorV, IxmlGrammar, Mark, RepV, Repetition,
    RuleV, SeqV, Sequence, BaseV,
};
use crate::earley::{
    add_nonterm, add_rule, apply_ops, bstate, lemma_apply_one, builder_char_terminal, builder_class_terminal,
    builder_default, char_symbol, char_symbol_exec, class_symbol, class_symbol_exec,
    convert_group_alts, group_alts_s, lemma_step, lit_seq_symbol, lit_seq_symbol_exec,
    literal_base, mark_suffix, names_view, no_rules, no_symbols, push_mark_suffix, seq_id_exec,
    seq_id_from, BState, EarleyBuilder, OpV,
};
use crate::text::{append_str, str_to_chars, string_eq};

verus! {


/// Something that must be declared before the productions are added.
pub enum ItemV {
    /// A literal character: its terminal.
    Ch(char),
    /// A character class: its terminal.
    Class(Seq<char>, bool),
    /// A marked literal, by its name and mark: the wrapper nonterminal.
    Marked(Seq<char>, Mark),
    /// A literal of more than one byte: its sequence nonterminal.
    LitSeq(Seq<char>),
    /// A repetition helper nonterminal.
    Helper(Seq<char>),
}

pub open spec fn item_kind(x: ItemV) -> nat {
    match x {
        ItemV::Ch(_) => 0,
        ItemV::Class(..) => 1,
        ItemV::Marked(..) => 2,
        ItemV::LitSeq(_) => 3,
        ItemV::Helper(_) => 4,
    }
}

/// Whether a literal has more than one byte in UTF-8.
pub open spec fn multi_byte(value: Seq<char>) -> bool {
    value.len() >= 2 || (value.len() == 1 && (value[0] as u32) >= 0x80)
}

/// A literal's name as its helpers see it: a literal of one byte is its
/// character's terminal, any other its sequence.
pub open spec fn byte_base(value: Seq<char>) -> Seq<char> {
    if value.len() == 1 && (value[0] as u32) < 0x80 {
        char_symbol(value[0])
    } else {
        lit_seq_symbol(value)
    }
}

/// The helper nonterminals of a factor's repetition over base `b`.
pub open spec fn helper_items(f: FactorV, b: Seq<char>) -> Seq<ItemV> {
    match f.repetition {
        RepV::Once => Seq::empty(),
        RepV::OneOrMore => seq![ItemV::Helper(b + "_plus"@)],
        RepV::ZeroOrMore => seq![ItemV::Helper(b + "_star"@)],
        RepV::Optional => seq![ItemV::Helper(b + "_opt"@)],
        RepV::SeparatedZeroOrMore(sep) => {
            let id = seq_id_from(sep.factors, 0);
            seq![ItemV::Helper(b + "_sep_"@ + id + "_star"@), ItemV::Helper(b + "_sep_"@ + id + "_plus"@)]
        },
        RepV::SeparatedOneOrMore(sep) => seq![
            ItemV::Helper(b + "_sep_"@ + seq_id_from(sep.factors, 0) + "_plus"@),
        ],
    }
}

/// The characters of a literal, as items.
pub open spec fn ch_items(value: Seq<char>) -> Seq<ItemV>
    decreases value.len(),
{
    if value.len() == 0 {
        Seq::empty()
    } else {
        ch_items(value.drop_last()).push(ItemV::Ch(value.last()))
    }
}

/// The items of a literal: its characters, its wrapper when marked, its
/// sequence when it has more than one byte (not inside a separator).
pub open spec fn literal_items(value: Seq<char>, mark: Mark, in_sep: bool) -> Seq<ItemV> {
    ch_items(value) + (if mark != Mark::Unmarked {
        seq![ItemV::Marked(literal_base(value).1, mark)]
    } else {
        Seq::empty()
    }) + (if !in_sep && multi_byte(value) {
        seq![ItemV::LitSeq(lit_seq_symbol(value))]
    } else {
        Seq::empty()
    })
}

/// The items of a factor: those of its base (a group's alternatives for a
/// group), its helpers (none for a group, nor below a group's separator),
/// then those of its separator.
pub open spec fn items_f(f: FactorV, in_sep: bool, helpers: bool) -> Seq<ItemV>
    decreases f, 0int, 0int,
{
    let own = match f.base {
        BaseV::Literal { value, mark, .. } => literal_items(value, mark, in_sep) + (if helpers {
            helper_items(f, byte_base(value))
        } else {
            Seq::empty()
        }),
        BaseV::Nonterminal { name, .. } => if helpers {
            helper_items(f, name)
        } else {
            Seq::empty()
        },
        BaseV::CharClass { content, negated, .. } => seq![ItemV::Class(content, negated)] + (if helpers {
            helper_items(f, class_symbol(content, negated))
        } else {
            Seq::empty()
        }),
        BaseV::Group { alternatives } => items_alts(alternatives.alts, 0, in_sep, helpers),
    };
    let below = helpers && !(f.base is Group);
    own + match f.repetition {
        RepV::SeparatedZeroOrMore(sep) => items_fs(sep.factors, 0, true, below),
        RepV::SeparatedOneOrMore(sep) => items_fs(sep.factors, 0, true, below),
        _ => Seq::empty(),
    }
}

pub open spec fn items_fs(fs: Seq<FactorV>, k: int, in_sep: bool, helpers: bool) -> Seq<ItemV>
    decreases fs, fs.len() - k, 0int,
{
    if 0 <= k < fs.len() {
        items_f(fs[k], in_sep, helpers) + items_fs(fs, k + 1, in_sep, helpers)
    } else {
        Seq::empty()
    }
}

pub open spec fn items_alts(qs: Seq<SeqV>, i: int, in_sep: bool, helpers: bool) -> Seq<ItemV>
    decreases qs, qs.len() - i, 0int,
{
    if 0 <= i < qs.len() {
        items_fs(qs[i].factors, 0, in_sep, helpers) + items_alts(qs, i + 1, in_sep, helpers)
    } else {
        Seq::empty()
    }
}

/// The items of the rules from `j` on.
pub open spec fn items_rules(rules: Seq<RuleV>, j: int) -> Seq<ItemV>
    decreases rules.len() - j,
{
    if 0 <= j < rules.len() {
        items_alts(rules[j].alternatives.alts, 0, false, true) + items_rules(rules, j + 1)
    } else {
        Seq::empty()
    }
}

/// The items of kind `k`, each at its first occurrence.
pub open spec fn firsts(s: Seq<ItemV>, k: nat) -> Seq<ItemV>
    decreases s.len(),
{
    if s.len() == 0 {
        Seq::empty()
    } else {
        let d = firsts(s.drop_last(), k);
        if item_kind(s.last()) == k && !d.contains(s.last()) {
            d.push(s.last())
        } else {
            d
        }
    }
}

/// The steps that declare an item.
pub open spec fn item_ops(x: ItemV) -> Seq<OpV> {
    match x {
        ItemV::Ch(c) => seq![OpV::Term(char_symbol(c))],
        ItemV::Class(content, negated) => seq![OpV::Term(class_symbol(content, negated))],
        ItemV::Marked(b, m) => {
            let n = b + "_"@ + mark_suffix(m);
            seq![OpV::NonTerm(n), OpV::Rule(n, seq![b])]
        },
        ItemV::LitSeq(n) => seq![OpV::NonTerm(n)],
        ItemV::Helper(n) => seq![OpV::NonTerm(n)],
    }
}

pub open spec fn items_ops(s: Seq<ItemV>) -> Seq<OpV>
    decreases s.len(),
{
    if s.len() == 0 {
        Seq::empty()
    } else {
        items_ops(s.drop_last()) + item_ops(s.last())
    }
}

/// The declarations of the rules' names.
pub open spec fn rule_decls(rules: Seq<RuleV>) -> Seq<OpV> {
    rules.map_values(|r: RuleV| OpV::NonTerm(r.name))
}

/// The steps of the rules' productions from `i` on, and the next group
/// number.
pub open spec fn convert_rules_s(rules: Seq<RuleV>, i: int, c: nat) -> (Seq<OpV>, nat)
    decreases rules.len() - i,
{
    if 0 <= i < rules.len() {
        let (o1, c1) = group_alts_s(rules[i].alternatives.alts, 0, rules[i].name, c);
        let (o2, c2) = convert_rules_s(rules, i + 1, c1);
        (o1 + o2, c2)
    } else {
        (Seq::empty(), c)
    }
}

/// All the steps that build the grammar of `rules`.
pub open spec fn plan_s(rules: Seq<RuleV>) -> Seq<OpV> {
    let its = items_rules(rules, 0);
    items_ops(firsts(its, 0)) + items_ops(firsts(its, 1)) + items_ops(firsts(its, 2)) + rule_decls(rules)
        + items_ops(firsts(its, 3)) + items_ops(firsts(its, 4)) + convert_rules_s(rules, 0, 0).0
}

/// A builder with nothing in it.
pub open spec fn empty_state() -> BState {
    BState { symbols: no_symbols(), rules: no_rules() }
}

// ---------------------------------------------------------------------------
// Gathering the items
// ---------------------------------------------------------------------------

/// An item, as a value.
pub enum Decl {
    Ch(char),
    Class(String, bool),
    Marked(String, Mark),
    LitSeq(String),
    Helper(String),
}

pub open spec fn item_view(x: Decl) -> ItemV {
    match x {
        Decl::Ch(c) => ItemV::Ch(c),
        Decl::Class(s, n) => ItemV::Class(s@, n),
        Decl::Marked(s, m) => ItemV::Marked(s@, m),
        Decl::LitSeq(s) => ItemV::LitSeq(s@),
        Decl::Helper(s) => ItemV::Helper(s@),
    }
}

pub open spec fn items_view(s: Seq<Decl>) -> Seq<ItemV>
    decreases s.len(),
{
    if s.len() == 0 {
        Seq::empty()
    } else {
        items_view(s.drop_last()).push(item_view(s.last()))
    }
}

proof fn lemma_items_view_append(a: Seq<Decl>, b: Seq<Decl>)
    ensures
        items_view(a + b) == items_view(a) + items_view(b),
    decreases b.len(),
{
    if b.len() == 0 {
        assert(a + b =~= a);
        assert(items_view(b) =~= Seq::<ItemV>::empty());
        assert(items_view(a) + items_view(b) =~= items_view(a));
    } else {
        lemma_items_view_append(a, b.drop_last());
        assert((a + b).drop_last() =~= a + b.drop_last());
        assert((a + b).last() == b.last());
        assert(items_view(a) + items_view(b) =~= (items_view(a) + items_view(b.drop_last())).push(
            item_view(b.last()),
        ));
    }
}

/// Appends an item.
fn push_item(out: &mut Vec<Decl>, x: Decl)
    ensures
        items_view(final(out)@) == items_view(old(out)@).push(item_view(x)),
{
    out.push(x);
    proof {
        assert(out@.drop_last() =~= old(out)@);
        assert(out@.last() == x);
    }
}

/// Appends the helper items of a factor over base `b`.
fn push_helpers(f: &crate::ast::Factor, b: &String, out: &mut Vec<Decl>)
    ensures
        items_view(final(out)@) == items_view(old(out)@) + helper_items(factor_view(*f), b@),
{
    let ghost o0 = items_view(out@);
    match &f.repetition {
        Repetition::Once => {
            proof {
                assert(o0 + Seq::<ItemV>::empty() =~= o0);
            }
        },
        Repetition::OneOrMore => {
            let mut n = b.clone();
            append_str(&mut n, "_plus");
            push_item(out, Decl::Helper(n));
            proof {
                assert(items_view(out@) =~= o0 + helper_items(factor_view(*f), b@));
            }
        },
        Repetition::ZeroOrMore => {
            let mut n = b.clone();
            append_str(&mut n, "_star");
            push_item(out, Decl::Helper(n));
            proof {
                assert(items_view(out@) =~= o0 + helper_items(factor_view(*f), b@));
            }
        },
        Repetition::Optional => {
            let mut n = b.clone();
            append_str(&mut n, "_opt");
            push_item(out, Decl::Helper(n));
            proof {
                assert(items_view(out@) =~= o0 + helper_items(factor_view(*f), b@));
            }
        },
        Repetition::SeparatedZeroOrMore(sep) => {
            let id = seq_id_exec(sep);
            let mut n = b.clone();
            append_str(&mut n, "_sep_");
            append_str(&mut n, id.as_str());
            let mut p = n.clone();
            append_str(&mut n, "_star");
            append_str(&mut p, "_plus");
            push_item(out, Decl::Helper(n));
            push_item(out, Decl::Helper(p));
            proof {
                assert(items_view(out@) =~= o0 + helper_items(factor_view(*f), b@));
            }
        },
        Repetition::SeparatedOneOrMore(sep) => {
            let id = seq_id_exec(sep);
            let mut p = b.clone();
            append_str(&mut p, "_sep_");
            append_str(&mut p, id.as_str());
            append_str(&mut p, "_plus");
            push_item(out, Decl::Helper(p));
            proof {
                assert(items_view(out@) =~= o0 + helper_items(factor_view(*f), b@));
            }
        },
    }
}

proof fn lemma_items_view_push(s: Seq<Decl>, x: Decl)
    ensures
        items_view(s.push(x)) == items_view(s).push(item_view(x)),
{
    assert(s.push(x).drop_last() =~= s);
}

proof fn lemma_ch_items_push(s: Seq<char>, c: char)
    ensures
        ch_items(s.push(c)) == ch_items(s).push(ItemV::Ch(c)),
{
    assert(s.push(c).drop_last() =~= s);
}

/// The characters as items.
fn char_items_exec(cs: &Vec<char>) -> (r: Vec<Decl>)
    ensures
        items_view(r@) == ch_items(cs@),
{
    let mut out: Vec<Decl> = Vec::new();
    let n = cs.len();
    let mut i: usize = 0;
    proof {
        assert(cs@.subrange(0, 0) =~= Seq::<char>::empty());
        assert(items_view(out@) =~= Seq::<ItemV>::empty());
    }
    while i < n
        invariant
            n == cs.len(),
            i <= n,
            items_view(out@) == ch_items(cs@.subrange(0, i as int)),
        decreases n - i,
    {
        let ghost prev = out@;
        let ghost sub = cs@.subrange(0, i as int);
        let it = Decl::Ch(cs[i]);
        out.push(it);
        proof {
            lemma_items_view_push(prev, it);
            lemma_ch_items_push(sub, cs@[i as int]);
            assert(cs@.subrange(0, i + 1) =~= sub.push(cs@[i as int]));
        }
        i = i + 1;
    }
    proof {
        assert(cs@.subrange(0, n as int) =~= cs@);
    }
    out
}

/// Appends the items of a literal.
fn push_literal(value: &String, mark: Mark, in_sep: bool, out: &mut Vec<Decl>)
    ensures
        items_view(final(out)@) == items_view(old(out)@) + literal_items(value@, mark, in_sep),
{
    let ghost o0 = items_view(out@);
    let cs = str_to_chars(value.as_str());
    let n = cs.len();
    let mut chars = char_items_exec(&cs);
    let ghost cv = chars@;
    let ghost ov = out@;
    out.append(&mut chars);
    proof {
        lemma_items_view_append(ov, cv);
    }
    let ghost o1 = items_view(out@);
    let ghost mk = if mark != Mark::Unmarked {
        seq![ItemV::Marked(literal_base(value@).1, mark)]
    } else {
        Seq::<ItemV>::empty()
    };
    if mark != Mark::Unmarked {
        let bn = if n == 1 {
            char_symbol_exec(cs[0])
        } else {
            lit_seq_symbol_exec(value.as_str())
        };
        push_item(out, Decl::Marked(bn, mark));
    }
    let ghost o2 = items_view(out@);
    proof {
        assert(o2 =~= o1 + mk);
    }
    let multi = n >= 2 || (n == 1 && (cs[0] as u32) >= 0x80);
    if !in_sep && multi {
        let ls = lit_seq_symbol_exec(value.as_str());
        push_item(out, Decl::LitSeq(ls));
    }
    proof {
        assert(items_view(out@) =~= o0 + literal_items(value@, mark, in_sep));
    }
}

/// Appends the items of a factor (see `items_f`).
#[verifier::rlimit(60)]
#[verifier::spinoff_prover]
fn collect_factor(f: &crate::ast::Factor, in_sep: bool, helpers: bool, out: &mut Vec<Decl>)
    ensures
        items_view(final(out)@) == items_view(old(out)@) + items_f(factor_view(*f), in_sep, helpers),
    decreases f, 1int,
{
    let ghost o0 = items_view(out@);
    let mut is_group = false;
    match &f.base {
        BaseFactor::Literal { value, mark, .. } => {
            push_literal(value, *mark, in_sep, out);
            if helpers {
                let cs = str_to_chars(value.as_str());
                let b = if cs.len() == 1 && (cs[0] as u32) < 0x80 {
                    char_symbol_exec(cs[0])
                } else {
                    lit_seq_symbol_exec(value.as_str())
                };
                push_helpers(f, &b, out);
            }
        },
        BaseFactor::Nonterminal { name, .. } => {
            if helpers {
                push_helpers(f, name, out);
            }
        },
        BaseFactor::CharClass { content, negated, .. } => {
            push_item(out, Decl::Class(content.clone(), *negated));
            if helpers {
                let b = class_symbol_exec(content.as_str(), *negated);
                push_helpers(f, &b, out);
            }
        },
        BaseFactor::Group { alternatives } => {
            is_group = true;
            collect_alts(alternatives, in_sep, helpers, out);
        },
    }
    let ghost o1 = items_view(out@);
    proof {
        let fv = factor_view(*f);
        let own = match fv.base {
            BaseV::Literal { value, mark, .. } => literal_items(value, mark, in_sep) + (if helpers {
                helper_items(fv, byte_base(value))
            } else {
                Seq::empty()
            }),
            BaseV::Nonterminal { name, .. } => if helpers {
                helper_items(fv, name)
            } else {
                Seq::empty()
            },
            BaseV::CharClass { content, negated, .. } => seq![ItemV::Class(content, negated)] + (if helpers {
                helper_items(fv, class_symbol(content, negated))
            } else {
                Seq::empty()
            }),
            BaseV::Group { alternatives } => items_alts(alternatives.alts, 0, in_sep, helpers),
        };
        assert(o1 =~= o0 + own);
        assert(is_group == (fv.base is Group));
    }
    let below = helpers && !is_group;
    match &f.repetition {
        Repetition::SeparatedZeroOrMore(sep) => collect_seq(sep, true, below, out),
        Repetition::SeparatedOneOrMore(sep) => collect_seq(sep, true, below, out),
        _ => {},
    }
    proof {
        assert(items_view(out@) =~= o0 + items_f(factor_view(*f), in_sep, helpers));
    }
}

/// Appends the items of a sequence's factors.
fn collect_seq(q: &Sequence, in_sep: bool, helpers: bool, out: &mut Vec<Decl>)
    ensures
        items_view(final(out)@) == items_view(old(out)@) + items_fs(sequence_view(*q).factors, 0, in_sep, helpers),
    decreases q, 0int,
{
    let ghost fs = sequence_view(*q).factors;
    let ghost o0 = items_view(out@);
    proof {
        lemma_factors_view_index(q.factors@);
    }
    let mut k: usize = 0;
    while k < q.factors.len()
        invariant
            k <= q.factors.len(),
            fs == sequence_view(*q).factors,
            fs.len() == q.factors.len(),
            forall|x: int| 0 <= x < q.factors.len() ==> #[trigger] fs[x] == factor_view(q.factors@[x]),
            o0 + items_fs(fs, 0, in_sep, helpers) == items_view(out@) + items_fs(fs, k as int, in_sep, helpers),
        decreases q.factors.len() - k,
    {
        let ghost ok = items_view(out@);
        collect_factor(&q.factors[k], in_sep, helpers, out);
        proof {
            assert(items_fs(fs, k as int, in_sep, helpers) == items_f(fs[k as int], in_sep, helpers) + items_fs(
                fs,
                k + 1,
                in_sep,
                helpers,
            ));
            assert(ok + (items_f(fs[k as int], in_sep, helpers) + items_fs(fs, k + 1, in_sep, helpers))
                =~= items_view(out@) + items_fs(fs, k + 1, in_sep, helpers));
        }
        k = k + 1;
    }
    proof {
        assert(items_view(out@) + Seq::<ItemV>::empty() =~= items_view(out@));
    }
}

/// Appends the items of alternatives.
fn collect_alts(a: &Alternatives, in_sep: bool, helpers: bool, out: &mut Vec<Decl>)
    ensures
        items_view(final(out)@) == items_view(old(out)@) + items_alts(alts_view(*a).alts, 0, in_sep, helpers),
    decreases a, 0int,
{
    let ghost qs = alts_view(*a).alts;
    let ghost o0 = items_view(out@);
    proof {
        lemma_seqs_view_index(a.alts@);
    }
    let mut i: usize = 0;
    while i < a.alts.len()
        invariant
            i <= a.alts.len(),
            qs == alts_view(*a).alts,
            qs.len() == a.alts.len(),
            forall|x: int| 0 <= x < a.alts.len() ==> #[trigger] qs[x] == sequence_view(a.alts@[x]),
            o0 + items_alts(qs, 0, in_sep, helpers) == items_view(out@) + items_alts(qs, i as int, in_sep, helpers),
        decreases a.alts.len() - i,
    {
        let ghost oi = items_view(out@);
        collect_seq(&a.alts[i], in_sep, helpers, out);
        proof {
            assert(items_alts(qs, i as int, in_sep, helpers) == items_fs(qs[i as int].factors, 0, in_sep, helpers)
                + items_alts(qs, i + 1, in_sep, helpers));
            assert(oi + (items_fs(qs[i as int].factors, 0, in_sep, helpers) + items_alts(qs, i + 1, in_sep, helpers))
                =~= items_view(out@) + items_alts(qs, i + 1, in_sep, helpers));
        }
        i = i + 1;
    }
    proof {
        assert(items_view(out@) + Seq::<ItemV>::empty() =~= items_view(out@));
    }
}

/// The items of all rules.
fn collect_rules(rules: &Vec<crate::ast::Rule>) -> (r: Vec<Decl>)
    ensures
        items_view(r@) == items_rules(rules_view(rules@), 0),
{
    let ghost rv = rules_view(rules@);
    let mut out: Vec<Decl> = Vec::new();
    proof {
        assert(items_view(out@) =~= Seq::<ItemV>::empty());
    }
    let mut j: usize = 0;
    while j < rules.len()
        invariant
            j <= rules.len(),
            rv == rules_view(rules@),
            items_rules(rv, 0) == items_view(out@) + items_rules(rv, j as int),
        decreases rules.len() - j,
    {
        let ghost oj = items_view(out@);
        collect_alts(&rules[j].alternatives, false, true, &mut out);
        proof {
            assert(rv[j as int].alternatives == alts_view(rules@[j as int].alternatives));
            assert(items_rules(rv, j as int) == items_alts(rv[j as int].alternatives.alts, 0, false, true)
                + items_rules(rv, j + 1));
            assert(oj + (items_alts(rv[j as int].alternatives.alts, 0, false, true) + items_rules(rv, j + 1))
                =~= items_view(out@) + items_rules(rv, j + 1));
        }
        j = j + 1;
    }
    proof {
        assert(items_view(out@) + Seq::<ItemV>::empty() =~= items_view(out@));
    }
    out
}

// ---------------------------------------------------------------------------
// Declaring them, and the whole grammar
// ---------------------------------------------------------------------------

fn decl_kind(x: &Decl) -> (r: usize)
    ensures
        r as nat == item_kind(item_view(*x)),
{
    match x {
        Decl::Ch(_) => 0,
        Decl::Class(..) => 1,
        Decl::Marked(..) => 2,
        Decl::LitSeq(_) => 3,
        Decl::Helper(_) => 4,
    }
}

fn decl_eq(a: &Decl, b: &Decl) -> (r: bool)
    ensures
        r == (item_view(*a) == item_view(*b)),
{
    match (a, b) {
        (Decl::Ch(x), Decl::Ch(y)) => *x == *y,
        (Decl::Class(x, m), Decl::Class(y, n)) => string_eq(x, y.as_str()) && *m == *n,
        (Decl::Marked(x, m), Decl::Marked(y, n)) => string_eq(x, y.as_str()) && *m == *n,
        (Decl::LitSeq(x), Decl::LitSeq(y)) => string_eq(x, y.as_str()),
        (Decl::Helper(x), Decl::Helper(y)) => string_eq(x, y.as_str()),
        _ => false,
    }
}

fn clone_decl(a: &Decl) -> (r: Decl)
    ensures
        item_view(r) == item_view(*a),
{
    match a {
        Decl::Ch(x) => Decl::Ch(*x),
        Decl::Class(x, m) => Decl::Class(x.clone(), *m),
        Decl::Marked(x, m) => Decl::Marked(x.clone(), *m),
        Decl::LitSeq(x) => Decl::LitSeq(x.clone()),
        Decl::Helper(x) => Decl::Helper(x.clone()),
    }
}

proof fn lemma_items_view_index(s: Seq<Decl>)
    ensures
        items_view(s).len() == s.len(),
        forall|j: int| 0 <= j < s.len() ==> #[trigger] items_view(s)[j] == item_view(s[j]),
    decreases s.len(),
{
    if s.len() > 0 {
        lemma_items_view_index(s.drop_last());
    }
}

/// Whether `s` holds an item equal to `x`.
fn has_decl(s: &Vec<Decl>, x: &Decl) -> (r: bool)
    ensures
        r == items_view(s@).contains(item_view(*x)),
{
    proof {
        lemma_items_view_index(s@);
    }
    let mut i: usize = 0;
    while i < s.len()
        invariant
            i <= s.len(),
            items_view(s@).len() == s.len(),
            forall|j: int| 0 <= j < s.len() ==> #[trigger] items_view(s@)[j] == item_view(s@[j]),
            forall|j: int| 0 <= j < i ==> items_view(s@)[j] != item_view(*x),
        decreases s.len() - i,
    {
        if decl_eq(&s[i], x) {
            proof {
                assert(items_view(s@)[i as int] == item_view(*x));
            }
            return true;
        }
        i = i + 1;
    }
    false
}

/// The items of kind `kind`, each at its first occurrence.
fn firsts_exec(items: &Vec<Decl>, kind: usize) -> (r: Vec<Decl>)
    ensures
        items_view(r@) == firsts(items_view(items@), kind as nat),
{
    let mut out: Vec<Decl> = Vec::new();
    let ghost iv = items_view(items@);
    proof {
        lemma_items_view_index(items@);
        assert(items_view(out@) =~= Seq::<ItemV>::empty());
        assert(iv.subrange(0, 0) =~= Seq::<ItemV>::empty());
    }
    let mut i: usize = 0;
    while i < items.len()
        invariant
            i <= items.len(),
            iv == items_view(items@),
            iv.len() == items.len(),
            forall|j: int| 0 <= j < items.len() ==> #[trigger] iv[j] == item_view(items@[j]),
            items_view(out@) == firsts(iv.subrange(0, i as int), kind as nat),
        decreases items.len() - i,
    {
        let ghost sub = iv.subrange(0, i as int);
        proof {
            assert(iv.subrange(0, i + 1).drop_last() =~= sub);
            assert(iv.subrange(0, i + 1).last() == item_view(items@[i as int]));
        }
        let x = &items[i];
        if decl_kind(x) == kind && !has_decl(&out, x) {
            let ghost prev = out@;
            let c = clone_decl(x);
            out.push(c);
            proof {
                lemma_items_view_push(prev, c);
            }
        }
        i = i + 1;
    }
    proof {
        assert(iv.subrange(0, items.len() as int) =~= iv);
    }
    out
}

/// Declares the items, in order.
fn declare_items(b: &mut EarleyBuilder, items: &Vec<Decl>)
    ensures
        final(b).state() == apply_ops(old(b).state(), items_ops(items_view(items@))),
        final(b).next_group == old(b).next_group,
{
    let ghost st0 = b.state();
    let ghost iv = items_view(items@);
    proof {
        lemma_items_view_index(items@);
        assert(iv.subrange(0, 0) =~= Seq::<ItemV>::empty());
        assert(apply_ops(st0, Seq::<OpV>::empty()) == st0);
    }
    let mut i: usize = 0;
    while i < items.len()
        invariant
            i <= items.len(),
            iv == items_view(items@),
            iv.len() == items.len(),
            forall|j: int| 0 <= j < items.len() ==> #[trigger] iv[j] == item_view(items@[j]),
            b.state() == apply_ops(st0, items_ops(iv.subrange(0, i as int))),
            b.next_group == old(b).next_group,
        decreases items.len() - i,
    {
        let ghost done = items_ops(iv.subrange(0, i as int));
        let ghost before = b.state();
        let x = &items[i];
        proof {
            assert(iv.subrange(0, i + 1).drop_last() =~= iv.subrange(0, i as int));
            assert(iv.subrange(0, i + 1).last() == item_view(*x));
            lemma_step(st0, done, item_ops(item_view(*x)));
        }
        match x {
            Decl::Ch(c) => {
                let name = char_symbol_exec(*c);
                builder_char_terminal(&mut b.builder, name.as_str(), *c);
                proof {
                    lemma_apply_one(before, OpV::Term(name@));
                }
            },
            Decl::Class(content, negated) => {
                let name = class_symbol_exec(content.as_str(), *negated);
                builder_class_terminal(&mut b.builder, name.as_str(), content.as_str(), *negated);
                proof {
                    lemma_apply_one(before, OpV::Term(name@));
                }
            },
            Decl::Marked(base, m) => {
                let mut n = base.clone();
                append_str(&mut n, "_");
                push_mark_suffix(&mut n, *m);
                add_nonterm(b, &n);
                let ghost mid = b.state();
                let body = vec![base.clone()];
                proof {
                    assert(names_view(body@) =~= seq![base@]);
                }
                add_rule(b, &n, &body);
                proof {
                    lemma_step(before, seq![OpV::NonTerm(n@)], seq![OpV::Rule(n@, seq![base@])]);
                    assert(seq![OpV::NonTerm(n@)] + seq![OpV::Rule(n@, seq![base@])] =~= item_ops(item_view(*x)));
                }
            },
            Decl::LitSeq(n) => {
                add_nonterm(b, n);
            },
            Decl::Helper(n) => {
                add_nonterm(b, n);
            },
        }
        i = i + 1;
    }
    proof {
        assert(iv.subrange(0, items.len() as int) =~= iv);
    }
}

/// Converts `grammar` into a grammar builder for the Earley parser: the
/// declarations of its items (literal characters, classes, marked-literal
/// wrappers), its rules' names, its literal sequences and repetition
/// helpers, then every rule's productions, with groups numbered from 0.
pub fn ast_to_earlgrey(grammar: &IxmlGrammar) -> (r: Result<earlgrey::GrammarBuilder, String>)
    ensures
        r matches Ok(g) && bstate(g) == apply_ops(empty_state(), plan_s(rules_view(grammar.rules@))),
{
    let ghost rv = rules_view(grammar.rules@);
    let items = collect_rules(&grammar.rules);
    let ghost its = items_view(items@);
    let mut b = EarleyBuilder { builder: builder_default(), next_group: 0 };
    proof {
        assert(b.state() == empty_state());
    }
    let ghost mut done: Seq<OpV> = Seq::empty();
    proof {
        assert(apply_ops(empty_state(), done) == empty_state());
    }
    let mut kind: usize = 0;
    while kind < 3
        invariant
            kind <= 3,
            its == items_view(items@),
            b.state() == apply_ops(empty_state(), done),
            b.next_group == 0,
            kind == 0 ==> done == Seq::<OpV>::empty(),
            kind == 1 ==> done == items_ops(firsts(its, 0)),
            kind == 2 ==> done == items_ops(firsts(its, 0)) + items_ops(firsts(its, 1)),
            kind == 3 ==> done == items_ops(firsts(its, 0)) + items_ops(firsts(its, 1)) + items_ops(firsts(its, 2)),
        decreases 3 - kind,
    {
        let d = firsts_exec(&items, kind);
        declare_items(&mut b, &d);
        proof {
            lemma_step(empty_state(), done, items_ops(firsts(its, kind as nat)));
            if kind == 0 {
                assert(done + items_ops(firsts(its, 0)) =~= items_ops(firsts(its, 0)));
            }
            done = done + items_ops(firsts(its, kind as nat));
        }
        kind = kind + 1;
    }
    let ghost d3 = done;
    let mut j: usize = 0;
    while j < grammar.rules.len()
        invariant
            j <= grammar.rules.len(),
            rv == rules_view(grammar.rules@),
            rv.len() == grammar.rules.len(),
            b.state() == apply_ops(empty_state(), d3 + rule_decls(rv).subrange(0, j as int)),
            b.next_group == 0,
        decreases grammar.rules.len() - j,
    {
        let ghost before = b.state();
        add_nonterm(&mut b, &grammar.rules[j].name);
        proof {
            let sub = rule_decls(rv).subrange(0, j as int);
            assert(rule_decls(rv).subrange(0, j + 1) =~= sub.push(OpV::NonTerm(rv[j as int].name)));
            assert(d3 + rule_decls(rv).subrange(0, j + 1) =~= (d3 + sub) + seq![OpV::NonTerm(rv[j as int].name)]);
            lemma_step(empty_state(), d3 + sub, seq![OpV::NonTerm(rv[j as int].name)]);
        }
        j = j + 1;
    }
    proof {
        assert(rule_decls(rv).subrange(0, rv.len() as int) =~= rule_decls(rv));
        done = d3 + rule_decls(rv);
    }
    let d = firsts_exec(&items, 3);
    declare_items(&mut b, &d);
    proof {
        lemma_step(empty_state(), done, items_ops(firsts(its, 3)));
        done = done + items_ops(firsts(its, 3));
    }
    let d = firsts_exec(&items, 4);
    declare_items(&mut b, &d);
    proof {
        lemma_step(empty_state(), done, items_ops(firsts(its, 4)));
        done = done + items_ops(firsts(its, 4));
    }
    let ghost d6 = done;
    let mut k: usize = 0;
    while k < grammar.rules.len()
        invariant
            k <= grammar.rules.len(),
            rv == rules_view(grammar.rules@),
            rv.len() == grammar.rules.len(),
            b.state() == apply_ops(empty_state(), done),
            convert_rules_s(rv, 0, 0).0 =~= done.subrange(d6.len() as int, done.len() as int) + convert_rules_s(
                rv,
                k as int,
                b.next_group as nat,
            ).0,
            done.len() >= d6.len(),
            done.subrange(0, d6.len() as int) == d6,
        decreases grammar.rules.len() - k,
    {
        let ghost ck = b.next_group as nat;
        let ghost before = done;
        convert_group_alts(&mut b, &grammar.rules[k].alternatives, &grammar.rules[k].name);
        proof {
            assert(rv[k as int].alternatives == alts_view(grammar.rules@[k as int].alternatives));
            let (o1, c1) = group_alts_s(rv[k as int].alternatives.alts, 0, rv[k as int].name, ck);
            let (o2, c2) = convert_rules_s(rv, k + 1, c1);
            assert(convert_rules_s(rv, k as int, ck) == (o1 + o2, c2));
            lemma_step(empty_state(), done, o1);
            done = done + o1;
            assert(done.subrange(d6.len() as int, done.len() as int) =~= before.subrange(
                d6.len() as int,
                before.len() as int,
            ) + o1);
            assert(done.subrange(0, d6.len() as int) =~= before.subrange(0, d6.len() as int));
        }
        k = k + 1;
    }
    proof {
        assert(convert_rules_s(rv, rv.len() as int, b.next_group as nat).0 =~= Seq::<OpV>::empty());
        assert(done =~= done.subrange(0, d6.len() as int) + done.subrange(d6.len() as int, done.len() as int));
        assert(done =~= plan_s(rv));
    }
    Ok(b.builder)
}

} // verus!
