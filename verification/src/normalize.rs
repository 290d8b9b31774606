//! Grammar normalisation: every reference to a rule that is not recursive is
//! replaced by a group holding that rule's (normalised) alternatives; then
//! only the recursive rules and the start rule are kept.
//!
//! A rule is recursive when it is on a cycle of references, or reaches one;
//! references are looked for in groups of any depth (see
//! `crate::grammar_analysis::recursive_at` with `deep`).
use vstd::prelude::*;

use crate::ast::{
    alts_view, base_view, factor_view, factors_view, lemma_factors_view_index,
    lemma_factors_view_push, lemma_seqs_view_index, lemma_seqs_view_push, rule_view, rules_view,
    seqs_view, sequence_view, AltsV, Alternatives, BaseFactor, BaseV, Factor, FactorV, IxmlGrammar,
    Rule, RuleV, SeqV, Sequence,
};
use crate::grammar_analysis::{name_recursive, recursive_at, recursive_flags};
use crate::native_parser::{build_rule_table, find_rule_index};
use crate::parse_context::NameSet;
use crate::semantics::{find_rule, lemma_find_rule, rule_table};
use crate::text::string_eq;

verus! {

/// Alternatives with references to rules that are not recursive inlined,
/// at most `fuel` rules deep.
pub open spec fn inl_alts(t: Seq<RuleV>, a: AltsV, fuel: nat) -> AltsV
    decreases fuel, a, 0int,
{
    AltsV { alts: inl_seqs(t, a.alts, 0, fuel) }
}

pub open spec fn inl_seqs(t: Seq<RuleV>, s: Seq<SeqV>, i: int, fuel: nat) -> Seq<SeqV>
    decreases fuel, s, s.len() - i,
{
    if 0 <= i < s.len() {
        seq![inl_seq(t, s[i], fuel)] + inl_seqs(t, s, i + 1, fuel)
    } else {
        Seq::empty()
    }
}

pub open spec fn inl_seq(t: Seq<RuleV>, q: SeqV, fuel: nat) -> SeqV
    decreases fuel, q, 0int,
{
    SeqV { factors: inl_factors(t, q.factors, 0, fuel) }
}

pub open spec fn inl_factors(t: Seq<RuleV>, fs: Seq<FactorV>, k: int, fuel: nat) -> Seq<FactorV>
    decreases fuel, fs, fs.len() - k,
{
    if 0 <= k < fs.len() {
        seq![inl_factor(t, fs[k], fuel)] + inl_factors(t, fs, k + 1, fuel)
    } else {
        Seq::empty()
    }
}

/// A factor with inlining: a reference to a defined rule that is not
/// recursive becomes a group of its alternatives (inlined in turn), with the
/// factor's repetition; a group is inlined inside; anything else stays.
pub open spec fn inl_factor(t: Seq<RuleV>, f: FactorV, fuel: nat) -> FactorV
    decreases fuel, f, 0int,
{
    match f.base {
        BaseV::Nonterminal { name, .. } => {
            let j = find_rule(t, name, 0);
            if name_recursive(t, true, name) || j < 0 || j >= t.len() || fuel == 0 {
                f
            } else {
                FactorV {
                    base: BaseV::Group { alternatives: inl_alts(t, t[j].alternatives, (fuel - 1) as nat) },
                    repetition: f.repetition,
                }
            }
        },
        BaseV::Group { alternatives } => FactorV {
            base: BaseV::Group { alternatives: inl_alts(t, alternatives, fuel) },
            repetition: f.repetition,
        },
        _ => f,
    }
}

/// Whether a rule is kept: it is recursive, or it is the start rule.
pub open spec fn kept(rs: Seq<RuleV>, r: RuleV) -> bool {
    name_recursive(rule_table(rs), true, r.name) || (rs.len() > 0 && r.name == rs[0].name)
}

/// The kept rules from `i` on, with their references inlined (at most as
/// many rules deep as the table has).
pub open spec fn normalized_from(rs: Seq<RuleV>, i: int) -> Seq<RuleV>
    decreases rs.len() - i,
{
    if 0 <= i < rs.len() {
        (if kept(rs, rs[i]) {
            seq![
                RuleV {
                    name: rs[i].name,
                    mark: rs[i].mark,
                    alternatives: inl_alts(rule_table(rs), rs[i].alternatives, rule_table(rs).len()),
                },
            ]
        } else {
            Seq::empty()
        }) + normalized_from(rs, i + 1)
    } else {
        Seq::empty()
    }
}

/// The names of the grammar's rules that are recursive (through groups of
/// any depth).
pub open spec fn deep_recursive_names(rs: Seq<RuleV>) -> Set<Seq<char>> {
    Set::new(
        |n: Seq<char>|
            exists|m: int|
                0 <= m < rs.len() && (#[trigger] rs[m]).name == n && name_recursive(rule_table(rs), true, n),
    )
}

/// Whether the rule named `name` is recursive, given the flags of the table.
fn is_recursive_name(t: &Vec<Rule>, rec: &Vec<bool>, name: &str) -> (r: bool)
    requires
        rec.len() == t.len(),
        forall|i: int| 0 <= i < t.len() ==> #[trigger] rec@[i] == recursive_at(rules_view(t@), true, i),
    ensures
        r == name_recursive(rules_view(t@), true, name@),
{
    proof {
        lemma_find_rule(rules_view(t@), name@, 0);
    }
    match find_rule_index(t, name) {
        Some(j) => rec[j],
        None => false,
    }
}

/// Finds the rules that are directly or indirectly recursive.
pub fn find_recursive_rules(grammar: &IxmlGrammar) -> (r: NameSet)
    ensures
        r.wf(),
        r.view() == deep_recursive_names(rules_view(grammar.rules@)),
{
    let ghost rs = rules_view(grammar.rules@);
    let t = build_rule_table(&grammar.rules);
    let rec = recursive_flags(&t, true);
    let mut out = NameSet::new();
    let mut m: usize = 0;
    while m < grammar.rules.len()
        invariant
            m <= grammar.rules.len(),
            rs == rules_view(grammar.rules@),
            rules_view(t@) == rule_table(rs),
            rec.len() == t.len(),
            forall|i: int| 0 <= i < t.len() ==> #[trigger] rec@[i] == recursive_at(rules_view(t@), true, i),
            out.wf(),
            out.view() == Set::new(
                |n: Seq<char>|
                    exists|x: int| 0 <= x < m && (#[trigger] rs[x]).name == n && name_recursive(rule_table(rs), true, n),
            ),
        decreases grammar.rules.len() - m,
    {
        let name = grammar.rules[m].name.as_str();
        let ghost before = out.view();
        proof {
            assert(rs[m as int] == rule_view(grammar.rules@[m as int]));
        }
        let is_rec = is_recursive_name(&t, &rec, name);
        if is_rec {
            out.insert(name);
        }
        proof {
            assert(out.view() =~= Set::new(
                |n: Seq<char>|
                    exists|x: int| 0 <= x < m + 1 && (#[trigger] rs[x]).name == n && name_recursive(rule_table(rs), true, n),
            )) by {
                assert forall|n: Seq<char>| out.view().contains(n) <==> (exists|x: int| 0 <= x < m + 1 && (#[trigger] rs[x]).name == n && name_recursive(rule_table(rs), true, n)) by {
                    if exists|x: int| 0 <= x < m + 1 && (#[trigger] rs[x]).name == n && name_recursive(rule_table(rs), true, n) {
                        let x = choose|x: int| 0 <= x < m + 1 && (#[trigger] rs[x]).name == n && name_recursive(rule_table(rs), true, n);
                        if x < m {
                            assert(before.contains(n));
                        }
                    }
                    if before.contains(n) {
                        let x = choose|x: int| 0 <= x < m && (#[trigger] rs[x]).name == n && name_recursive(rule_table(rs), true, n);
                    }
                }
            }
        }
        m = m + 1;
    }
    proof {
        assert(out.view() =~= deep_recursive_names(rs));
    }
    out
}

// ---------------------------------------------------------------------------
// Inlining
// ---------------------------------------------------------------------------

fn inline_alternatives(t: &Vec<Rule>, rec: &Vec<bool>, a: &Alternatives, fuel: usize) -> (r: Alternatives)
    requires
        rec.len() == t.len(),
        forall|i: int| 0 <= i < t.len() ==> #[trigger] rec@[i] == recursive_at(rules_view(t@), true, i),
    ensures
        alts_view(r) == inl_alts(rules_view(t@), alts_view(*a), fuel as nat),
    decreases fuel, a, 0int,
{
    let ghost tv = rules_view(t@);
    let ghost qs = alts_view(*a).alts;
    proof {
        lemma_seqs_view_index(a.alts@);
        assert(seqs_view(Seq::<Sequence>::empty()) =~= Seq::<SeqV>::empty());
    }
    let mut out: Vec<Sequence> = Vec::new();
    let mut i: usize = 0;
    while i < a.alts.len()
        invariant
            rec.len() == t.len(),
            forall|x: int| 0 <= x < t.len() ==> #[trigger] rec@[x] == recursive_at(rules_view(t@), true, x),
            i <= a.alts.len(),
            tv == rules_view(t@),
            qs == alts_view(*a).alts,
            qs.len() == a.alts.len(),
            forall|x: int| 0 <= x < a.alts.len() ==> #[trigger] qs[x] == sequence_view(a.alts@[x]),
            seqs_view(out@) + inl_seqs(tv, qs, i as int, fuel as nat) == inl_seqs(tv, qs, 0, fuel as nat),
        decreases a.alts.len() - i,
    {
        let q = inline_sequence(t, rec, &a.alts[i], fuel);
        let ghost before = out@;
        out.push(q);
        proof {
            lemma_seqs_view_push(before, q);
            assert(seqs_view(out@) + inl_seqs(tv, qs, i + 1, fuel as nat) =~= seqs_view(before) + inl_seqs(
                tv,
                qs,
                i as int,
                fuel as nat,
            ));
        }
        i = i + 1;
    }
    proof {
        assert(seqs_view(out@) =~= inl_seqs(tv, qs, 0, fuel as nat));
    }
    Alternatives::new(out)
}

fn inline_sequence(t: &Vec<Rule>, rec: &Vec<bool>, q: &Sequence, fuel: usize) -> (r: Sequence)
    requires
        rec.len() == t.len(),
        forall|i: int| 0 <= i < t.len() ==> #[trigger] rec@[i] == recursive_at(rules_view(t@), true, i),
    ensures
        sequence_view(r) == inl_seq(rules_view(t@), sequence_view(*q), fuel as nat),
    decreases fuel, q, 0int,
{
    let ghost tv = rules_view(t@);
    let ghost fs = sequence_view(*q).factors;
    proof {
        lemma_factors_view_index(q.factors@);
        assert(factors_view(Seq::<Factor>::empty()) =~= Seq::<FactorV>::empty());
    }
    let mut out: Vec<Factor> = Vec::new();
    let mut k: usize = 0;
    while k < q.factors.len()
        invariant
            rec.len() == t.len(),
            forall|x: int| 0 <= x < t.len() ==> #[trigger] rec@[x] == recursive_at(rules_view(t@), true, x),
            k <= q.factors.len(),
            tv == rules_view(t@),
            fs == sequence_view(*q).factors,
            fs.len() == q.factors.len(),
            forall|x: int| 0 <= x < q.factors.len() ==> #[trigger] fs[x] == factor_view(q.factors@[x]),
            factors_view(out@) + inl_factors(tv, fs, k as int, fuel as nat) == inl_factors(tv, fs, 0, fuel as nat),
        decreases q.factors.len() - k,
    {
        let f = inline_factor(t, rec, &q.factors[k], fuel);
        let ghost before = out@;
        out.push(f);
        proof {
            lemma_factors_view_push(before, f);
            assert(factors_view(out@) + inl_factors(tv, fs, k + 1, fuel as nat) =~= factors_view(before)
                + inl_factors(tv, fs, k as int, fuel as nat));
        }
        k = k + 1;
    }
    proof {
        assert(factors_view(out@) =~= inl_factors(tv, fs, 0, fuel as nat));
    }
    Sequence::new(out)
}

fn inline_factor(t: &Vec<Rule>, rec: &Vec<bool>, f: &Factor, fuel: usize) -> (r: Factor)
    requires
        rec.len() == t.len(),
        forall|i: int| 0 <= i < t.len() ==> #[trigger] rec@[i] == recursive_at(rules_view(t@), true, i),
    ensures
        factor_view(r) == inl_factor(rules_view(t@), factor_view(*f), fuel as nat),
    decreases fuel, f, 0int,
{
    let ghost tv = rules_view(t@);
    match &f.base {
        BaseFactor::Nonterminal { name, .. } => {
            if is_recursive_name(t, rec, name.as_str()) || fuel == 0 {
                return crate::ast::clone_factor(f);
            }
            proof {
                lemma_find_rule(tv, name@, 0);
            }
            match find_rule_index(t, name.as_str()) {
                None => crate::ast::clone_factor(f),
                Some(j) => {
                    proof {
                        assert(tv[j as int] == rule_view(t@[j as int]));
                    }
                    let inner = inline_alternatives(t, rec, &t[j].alternatives, fuel - 1);
                    Factor::new(BaseFactor::group(inner), crate::ast::clone_repetition(&f.repetition))
                },
            }
        },
        BaseFactor::Group { alternatives } => {
            let inner = inline_alternatives(t, rec, alternatives, fuel);
            Factor::new(BaseFactor::group(inner), crate::ast::clone_repetition(&f.repetition))
        },
        _ => crate::ast::clone_factor(f),
    }
}

/// Normalises a grammar: inlines the rules that are not recursive and keeps
/// the recursive rules and the start rule.
pub fn normalize_grammar(grammar: &IxmlGrammar) -> (r: IxmlGrammar)
    ensures
        rules_view(r.rules@) == normalized_from(rules_view(grammar.rules@), 0),
{
    let ghost rs = rules_view(grammar.rules@);
    let t = build_rule_table(&grammar.rules);
    let rec = recursive_flags(&t, true);
    let fuel = t.len();
    let mut out: Vec<Rule> = Vec::new();
    let mut m: usize = 0;
    proof {
        assert(rules_view(out@) =~= Seq::<RuleV>::empty());
        assert(rules_view(out@) + normalized_from(rs, 0) =~= normalized_from(rs, 0));
    }
    while m < grammar.rules.len()
        invariant
            m <= grammar.rules.len(),
            rs == rules_view(grammar.rules@),
            rules_view(t@) == rule_table(rs),
            fuel == t.len(),
            rec.len() == t.len(),
            forall|i: int| 0 <= i < t.len() ==> #[trigger] rec@[i] == recursive_at(rules_view(t@), true, i),
            rules_view(out@) + normalized_from(rs, m as int) == normalized_from(rs, 0),
        decreases grammar.rules.len() - m,
    {
        let rule = &grammar.rules[m];
        let ghost before = out@;
        proof {
            assert(rs[m as int] == rule_view(*rule));
            assert(rs[0] == rule_view(grammar.rules@[0]));
        }
        let keep = is_recursive_name(&t, &rec, rule.name.as_str()) || string_eq(
            &grammar.rules[0].name,
            rule.name.as_str(),
        );
        if keep {
            let alts = inline_alternatives(&t, &rec, &rule.alternatives, fuel);
            let nr = Rule::new(rule.name.clone(), rule.mark, alts);
            out.push(nr);
            proof {
                assert(rules_view(out@) =~= rules_view(before).push(rule_view(nr)));
            }
        }
        proof {
            assert(rules_view(out@) + normalized_from(rs, m + 1) =~= rules_view(before) + normalized_from(
                rs,
                m as int,
            ));
        }
        m = m + 1;
    }
    proof {
        assert(rules_view(out@) =~= normalized_from(rs, 0));
    }
    IxmlGrammar::new(out)
}

// ---------------------------------------------------------------------------
// Laws
// ---------------------------------------------------------------------------

proof fn lemma_normalized_from_kept(rs: Seq<RuleV>, i: int)
    requires
        0 <= i,
    ensures
        forall|k: int|
            0 <= k < normalized_from(rs, i).len() ==> (#[trigger] normalized_from(rs, i)[k]).name
                == rs[0].name || name_recursive(rule_table(rs), true, normalized_from(rs, i)[k].name),
        forall|m: int|
            i <= m < rs.len() && kept(rs, rs[m]) ==> exists|k: int|
                0 <= k < normalized_from(rs, i).len() && (#[trigger] normalized_from(rs, i)[k]).name
                    == rs[m].name,
    decreases rs.len() - i,
{
    if i < rs.len() {
        lemma_normalized_from_kept(rs, i + 1);
        let head: Seq<RuleV> = if kept(rs, rs[i]) {
            seq![
                RuleV {
                    name: rs[i].name,
                    mark: rs[i].mark,
                    alternatives: inl_alts(rule_table(rs), rs[i].alternatives, rule_table(rs).len()),
                },
            ]
        } else {
            Seq::empty()
        };
        let rest = normalized_from(rs, i + 1);
        let all = normalized_from(rs, i);
        assert(all == head + rest);
        assert forall|k: int| 0 <= k < all.len() implies (#[trigger] all[k]).name == rs[0].name
            || name_recursive(rule_table(rs), true, all[k].name) by {
            if k >= head.len() {
                assert(all[k] == rest[k - head.len()]);
            }
        }
        assert forall|m: int| i <= m < rs.len() && kept(rs, rs[m]) implies exists|k: int|
            0 <= k < all.len() && (#[trigger] all[k]).name == rs[m].name by {
            if m == i {
                assert(all[0].name == rs[m].name);
            } else {
                let k = choose|k: int| 0 <= k < rest.len() && (#[trigger] rest[k]).name == rs[m].name;
                assert(all[k + head.len()] == rest[k]);
            }
        }
    }
}

/// Normalisation keeps the start rule, first and with its mark, and keeps
/// exactly the start rule and the recursive rules: every rule it keeps is one
/// of them, and every rule that is one of them is kept.
pub proof fn law_normalize_keeps_start_and_recursive(rs: Seq<RuleV>)
    ensures
        rs.len() > 0 ==> normalized_from(rs, 0).len() > 0 && normalized_from(rs, 0)[0].name
            == rs[0].name && normalized_from(rs, 0)[0].mark == rs[0].mark,
        forall|k: int|
            0 <= k < normalized_from(rs, 0).len() ==> (#[trigger] normalized_from(rs, 0)[k]).name
                == rs[0].name || name_recursive(rule_table(rs), true, normalized_from(rs, 0)[k].name),
        forall|m: int|
            0 <= m < rs.len() && (m == 0 || name_recursive(rule_table(rs), true, rs[m].name))
                ==> exists|k: int|
                0 <= k < normalized_from(rs, 0).len() && (#[trigger] normalized_from(rs, 0)[k]).name
                    == rs[m].name,
{
    lemma_normalized_from_kept(rs, 0);
    if rs.len() > 0 {
        assert(kept(rs, rs[0]));
    }
    assert forall|m: int|
        0 <= m < rs.len() && (m == 0 || name_recursive(rule_table(rs), true, rs[m].name)) implies exists|k: int|
            0 <= k < normalized_from(rs, 0).len() && (#[trigger] normalized_from(rs, 0)[k]).name
                == rs[m].name by {
        assert(kept(rs, rs[m]));
    }
}

} // verus!
