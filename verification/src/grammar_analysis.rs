//! Grammar analysis: what a grammar's structure tells without parsing
//! anything.  Which rules are recursive or left-recursive, which are
//! hidden, promoted or attributes, how complex each rule is, and whether the
//! grammar may be ambiguous.
//!
//! Rules are looked up by name in the grammar's rule table (one rule per
//! name, the last definition winning; see `crate::semantics::rule_table`).
//! Sets of rules over the table are sequences of booleans indexed like it.
use vstd::prelude::*;

use crate::ast::{
    alts_view, base_view, factor_view, factors_view, lemma_factors_view_index, lemma_factors_view_push,
    lemma_seqs_view_index, lemma_seqs_view_push, seqs_view,
    rule_view, rules_view, sequence_view, AltsV, Alternatives, BaseFactor, BaseV, Factor, FactorV,
    IxmlGrammar, Mark, RepV, Repetition, Rule, RuleV, SeqV, Sequence,
};
use crate::parse_context::NameSet;
use crate::semantics::{find_rule, lemma_find_rule, lemma_rule_table, names_of, rule_table, upsert};
use crate::native_parser::{build_rule_table, find_rule_index};
use crate::text::{append_str, decimal, push_decimal, string_eq};

verus! {

// ---------------------------------------------------------------------------
// Nullable rules
// ---------------------------------------------------------------------------

/// Whether the rule named `name` is in the set `s` (over the table `t`).
pub open spec fn in_set(t: Seq<RuleV>, s: Seq<bool>, name: Seq<char>) -> bool {
    let j = find_rule(t, name, 0);
    0 <= j < s.len() && s[j]
}

/// Repetitions that match the empty string whatever they repeat.
pub open spec fn rep_nullable(r: RepV) -> bool {
    r is ZeroOrMore || r is Optional || r is SeparatedZeroOrMore
}

/// Whether a factor inside a group matches the empty string, given the
/// nullable rules `s` (a group nested in a group counts as not nullable).
pub open spec fn inner_nullable(t: Seq<RuleV>, s: Seq<bool>, f: FactorV) -> bool {
    rep_nullable(f.repetition) || match f.base {
        BaseV::Literal { value, .. } => value.len() == 0,
        BaseV::CharClass { .. } => false,
        BaseV::Nonterminal { name, .. } => in_set(t, s, name),
        BaseV::Group { .. } => false,
    }
}

/// Whether all factors of a sequence inside a group are nullable.
pub open spec fn inner_seq_nullable(t: Seq<RuleV>, s: Seq<bool>, q: SeqV) -> bool {
    forall|k: int| 0 <= k < q.factors.len() ==> inner_nullable(t, s, #[trigger] q.factors[k])
}

/// Whether a factor matches the empty string, given the nullable rules `s`.
pub open spec fn factor_nullable(t: Seq<RuleV>, s: Seq<bool>, f: FactorV) -> bool {
    rep_nullable(f.repetition) || match f.base {
        BaseV::Literal { value, .. } => value.len() == 0,
        BaseV::CharClass { .. } => false,
        BaseV::Nonterminal { name, .. } => in_set(t, s, name),
        BaseV::Group { alternatives } => group_nullable(t, s, alternatives),
    }
}

/// Whether some alternative of a group is nullable (looking one level in).
pub open spec fn group_nullable(t: Seq<RuleV>, s: Seq<bool>, a: AltsV) -> bool {
    exists|i: int| 0 <= i < a.alts.len() && inner_seq_nullable(t, s, #[trigger] a.alts[i])
}

/// Whether all factors of a sequence are nullable.
pub open spec fn seq_nullable(t: Seq<RuleV>, s: Seq<bool>, q: SeqV) -> bool {
    forall|k: int| 0 <= k < q.factors.len() ==> factor_nullable(t, s, #[trigger] q.factors[k])
}

/// Whether some alternative is nullable.
pub open spec fn alts_nullable(t: Seq<RuleV>, s: Seq<bool>, a: AltsV) -> bool {
    exists|i: int| 0 <= i < a.alts.len() && seq_nullable(t, s, #[trigger] a.alts[i])
}

/// One round: a rule is nullable if it was, or if one of its alternatives is.
pub open spec fn nullable_step(t: Seq<RuleV>, s: Seq<bool>) -> Seq<bool> {
    Seq::new(t.len(), |i: int| s[i] || alts_nullable(t, s, t[i].alternatives))
}

/// Rounds until nothing changes (at most `fuel` of them).
pub open spec fn nullable_iter(t: Seq<RuleV>, s: Seq<bool>, fuel: nat) -> Seq<bool>
    decreases fuel,
{
    if fuel == 0 {
        s
    } else {
        let next = nullable_step(t, s);
        if next == s {
            s
        } else {
            nullable_iter(t, next, (fuel - 1) as nat)
        }
    }
}

/// The nullable rules of a table: the rounds from the empty set (each round
/// that changes something adds a rule, so the rounds stop in time).
pub open spec fn nullable_set(t: Seq<RuleV>) -> Seq<bool> {
    nullable_iter(t, Seq::new(t.len(), |i: int| false), t.len() + 1)
}

// ---------------------------------------------------------------------------
// Complexity
// ---------------------------------------------------------------------------

/// Complexity: the number of alternatives, plus each sequence's length, plus
/// one for each factor (a group's own complexity for a group).
pub open spec fn cx_alts(a: AltsV) -> nat
    decreases a, 0int,
{
    a.alts.len() + cx_seqs(a.alts, 0)
}

pub open spec fn cx_seqs(s: Seq<SeqV>, i: int) -> nat
    decreases s, s.len() - i,
{
    if 0 <= i < s.len() {
        s[i].factors.len() + cx_factors(s[i].factors, 0) + cx_seqs(s, i + 1)
    } else {
        0
    }
}

pub open spec fn cx_factors(fs: Seq<FactorV>, k: int) -> nat
    decreases fs, fs.len() - k,
{
    if 0 <= k < fs.len() {
        match fs[k].base {
            BaseV::Group { alternatives } => cx_alts(alternatives) + cx_factors(fs, k + 1),
            _ => 1 + cx_factors(fs, k + 1),
        }
    } else {
        0
    }
}

// ---------------------------------------------------------------------------
// References between rules
// ---------------------------------------------------------------------------

/// Whether a factor is the nonterminal `n`.
pub open spec fn is_named(f: FactorV, n: Seq<char>) -> bool {
    f.base matches BaseV::Nonterminal { name, .. } && name == n
}

/// Whether a sequence has the nonterminal `n` among its factors.
pub open spec fn seq_names(q: SeqV, n: Seq<char>) -> bool {
    exists|k: int| 0 <= k < q.factors.len() && is_named(#[trigger] q.factors[k], n)
}

/// Whether a group has the nonterminal `n` among the factors of an
/// alternative.
pub open spec fn group_names(a: AltsV, n: Seq<char>) -> bool {
    exists|i: int| 0 <= i < a.alts.len() && seq_names(#[trigger] a.alts[i], n)
}

/// Whether a factor is `n`, or a group with `n` among its factors.
pub open spec fn factor_mentions(f: FactorV, n: Seq<char>) -> bool {
    match f.base {
        BaseV::Nonterminal { name, .. } => name == n,
        BaseV::Group { alternatives } => group_names(alternatives, n),
        _ => false,
    }
}

/// Whether a sequence has a factor that mentions `n`.
pub open spec fn seq_mentions(q: SeqV, n: Seq<char>) -> bool {
    exists|k: int| 0 <= k < q.factors.len() && factor_mentions(#[trigger] q.factors[k], n)
}

/// Whether alternatives mention `n` directly or in a group one level down.
pub open spec fn mentions_shallow(a: AltsV, n: Seq<char>) -> bool {
    exists|i: int| 0 <= i < a.alts.len() && seq_mentions(#[trigger] a.alts[i], n)
}

/// Whether alternatives mention `n`, at any depth of groups.
pub open spec fn mentions_deep(a: AltsV, n: Seq<char>) -> bool
    decreases a, 0int,
{
    mentions_seqs(a.alts, 0, n)
}

pub open spec fn mentions_seqs(s: Seq<SeqV>, i: int, n: Seq<char>) -> bool
    decreases s, s.len() - i,
{
    if 0 <= i < s.len() {
        mentions_factors(s[i].factors, 0, n) || mentions_seqs(s, i + 1, n)
    } else {
        false
    }
}

pub open spec fn mentions_factors(fs: Seq<FactorV>, k: int, n: Seq<char>) -> bool
    decreases fs, fs.len() - k,
{
    if 0 <= k < fs.len() {
        (match fs[k].base {
            BaseV::Nonterminal { name, .. } => name == n,
            BaseV::Group { alternatives } => mentions_deep(alternatives, n),
            _ => false,
        }) || mentions_factors(fs, k + 1, n)
    } else {
        false
    }
}

/// Whether rule `i` of the table refers to rule `j` (through groups of any
/// depth if `deep`, else at most one level down).
pub open spec fn refers(t: Seq<RuleV>, deep: bool, i: int, j: int) -> bool {
    if deep {
        mentions_deep(t[i].alternatives, t[j].name)
    } else {
        mentions_shallow(t[i].alternatives, t[j].name)
    }
}

/// The rules that rule `i` refers to.
pub open spec fn successors(t: Seq<RuleV>, deep: bool, i: int) -> Seq<bool> {
    Seq::new(t.len(), |j: int| refers(t, deep, i, j))
}

/// The rules reached from rule `i` in one to `k` steps (`k >= 1`).
pub open spec fn reach(t: Seq<RuleV>, deep: bool, i: int, k: nat) -> Seq<bool>
    decreases k,
{
    if k <= 1 {
        successors(t, deep, i)
    } else {
        let r = reach(t, deep, i, (k - 1) as nat);
        Seq::new(
            t.len(),
            |j: int| r[j] || exists|m: int| 0 <= m < t.len() && r[m] && refers(t, deep, m, j),
        )
    }
}

/// Whether rule `i` reaches itself (in at most as many steps as there are
/// rules).
pub open spec fn on_cycle(t: Seq<RuleV>, deep: bool, i: int) -> bool {
    reach(t, deep, i, t.len())[i]
}

/// Whether rule `i` is recursive: it is on a cycle, or it reaches a rule that
/// is.
pub open spec fn recursive_at(t: Seq<RuleV>, deep: bool, i: int) -> bool {
    on_cycle(t, deep, i) || exists|j: int|
        0 <= j < t.len() && reach(t, deep, i, t.len())[j] && on_cycle(t, deep, j)
}

/// Whether the rule named `n` derives itself: it is on a cycle of references
/// (one level into groups).
pub open spec fn name_on_cycle(t: Seq<RuleV>, n: Seq<char>) -> bool {
    let j = find_rule(t, n, 0);
    0 <= j < t.len() && on_cycle(t, false, j)
}

/// Whether the rule named `n` is recursive: on a cycle, or reaching one.
pub open spec fn name_recursive(t: Seq<RuleV>, deep: bool, n: Seq<char>) -> bool {
    let j = find_rule(t, n, 0);
    0 <= j < t.len() && recursive_at(t, deep, j)
}

// ---------------------------------------------------------------------------
// Left recursion
// ---------------------------------------------------------------------------

/// The names that can come first in factors from `k` on, looking through
/// nullable names, empty literals and nullable groups (one pass, groups
/// looked into).
pub open spec fn first_names(t: Seq<RuleV>, s: Seq<bool>, fs: Seq<FactorV>, k: int, n: Seq<char>) -> bool
    decreases fs, fs.len() - k,
{
    if 0 <= k < fs.len() {
        match fs[k].base {
            BaseV::Nonterminal { name, .. } => name == n || (in_set(t, s, name) && first_names(
                t,
                s,
                fs,
                k + 1,
                n,
            )),
            BaseV::Literal { value, .. } => value.len() == 0 && first_names(t, s, fs, k + 1, n),
            BaseV::CharClass { .. } => false,
            BaseV::Group { alternatives } => first_names_alts(t, s, alternatives, n) || (
            alts_nullable(t, s, alternatives) && first_names(t, s, fs, k + 1, n)),
        }
    } else {
        false
    }
}

/// Whether `n` can come first in some alternative.
pub open spec fn first_names_alts(t: Seq<RuleV>, s: Seq<bool>, a: AltsV, n: Seq<char>) -> bool
    decreases a, 0int,
{
    first_names_seqs(t, s, a.alts, 0, n)
}

pub open spec fn first_names_seqs(t: Seq<RuleV>, s: Seq<bool>, qs: Seq<SeqV>, i: int, n: Seq<char>) -> bool
    decreases qs, qs.len() - i,
{
    if 0 <= i < qs.len() {
        first_names(t, s, qs[i].factors, 0, n) || first_names_seqs(t, s, qs, i + 1, n)
    } else {
        false
    }
}

/// The rules of the table whose names can come first in `a`.
pub open spec fn left_start(t: Seq<RuleV>, s: Seq<bool>, a: AltsV) -> Seq<bool> {
    Seq::new(t.len(), |j: int| first_names_alts(t, s, a, t[j].name))
}

/// One more step: the rules reached so far, and the rules whose names can
/// come first in one of them.
pub open spec fn left_step(t: Seq<RuleV>, s: Seq<bool>, c: Seq<bool>) -> Seq<bool> {
    Seq::new(
        t.len(),
        |j: int|
            c[j] || exists|m: int|
                0 <= m < t.len() && c[m] && #[trigger] first_names_alts(t, s, t[m].alternatives, t[j].name),
    )
}

/// `k` more steps from `c`.
pub open spec fn left_closure(t: Seq<RuleV>, s: Seq<bool>, c: Seq<bool>, k: nat) -> Seq<bool>
    decreases k,
{
    if k == 0 {
        c
    } else {
        left_closure(t, s, left_step(t, s, c), (k - 1) as nat)
    }
}

/// Whether the rule named `n` is left-reachable from `a`: its name can come
/// first in `a`, or in a rule whose name can, and so on (as many steps as
/// the table has rules).
pub open spec fn left_reaches(t: Seq<RuleV>, s: Seq<bool>, a: AltsV, n: Seq<char>) -> bool {
    let j = find_rule(t, n, 0);
    0 <= j < t.len() && left_closure(t, s, left_start(t, s, a), t.len() as nat)[j]
}

/// Whether a definition is left-recursive: its rule is recursive and its
/// name is left-reachable from its alternatives.
pub open spec fn def_left_recursive(t: Seq<RuleV>, r: RuleV) -> bool {
    name_on_cycle(t, r.name) && left_reaches(t, nullable_set(t), r.alternatives, r.name)
}

// ---------------------------------------------------------------------------
// Normalisation for the ambiguity check
// ---------------------------------------------------------------------------

/// Whether some definition of `n` is hidden or promoted (such rules are
/// inlined).
pub open spec fn inline_marked(rs: Seq<RuleV>, n: Seq<char>) -> bool {
    exists|m: int|
        0 <= m < rs.len() && (#[trigger] rs[m]).name == n && (rs[m].mark == Mark::Hidden
            || rs[m].mark == Mark::Promoted)
}

/// All factors of all alternatives, in order.
pub open spec fn all_factors(qs: Seq<SeqV>) -> Seq<FactorV>
    decreases qs.len(),
{
    if qs.len() == 0 {
        Seq::empty()
    } else {
        all_factors(qs.drop_last()) + qs.last().factors
    }
}

/// Every sequence of `acc` extended by each factor of `nf` in turn.
pub open spec fn product(acc: Seq<Seq<FactorV>>, nf: Seq<FactorV>) -> Seq<Seq<FactorV>>
    decreases acc.len(),
{
    if acc.len() == 0 {
        Seq::empty()
    } else {
        product(acc.drop_last(), nf) + nf.map_values(|x: FactorV| acc.last().push(x))
    }
}

/// Alternatives with hidden and promoted names inlined, `d` levels down
/// (past ten levels they stay as they are).
pub open spec fn norm_alts(t: Seq<RuleV>, rs: Seq<RuleV>, a: AltsV, d: int) -> AltsV
    decreases 11 - d, 0int, 0int,
{
    if d > 10 || d < 0 {
        a
    } else {
        AltsV { alts: norm_seqs(t, rs, a.alts, 0, d + 1) }
    }
}

/// The normalised sequences of `s[i..]`, each giving one or more.
pub open spec fn norm_seqs(t: Seq<RuleV>, rs: Seq<RuleV>, s: Seq<SeqV>, i: int, d: int) -> Seq<SeqV>
    decreases 11 - d, 2int, s.len() - i,
{
    if 0 <= i < s.len() {
        norm_seq(t, rs, s[i], d) + norm_seqs(t, rs, s, i + 1, d)
    } else {
        Seq::empty()
    }
}

/// A normalised sequence: the product of the normalisations of its factors.
pub open spec fn norm_seq(t: Seq<RuleV>, rs: Seq<RuleV>, q: SeqV, d: int) -> Seq<SeqV>
    decreases 11 - d, 1int, 0int,
{
    if d > 10 || d < 0 {
        seq![q]
    } else {
        norm_product(t, rs, q.factors, 0, seq![Seq::empty()], d).map_values(
            |fs: Seq<FactorV>| SeqV { factors: fs },
        )
    }
}

/// Extends the sequences of `acc` by the normalisations of `fs[k..]`.
pub open spec fn norm_product(
    t: Seq<RuleV>,
    rs: Seq<RuleV>,
    fs: Seq<FactorV>,
    k: int,
    acc: Seq<Seq<FactorV>>,
    d: int,
) -> Seq<Seq<FactorV>>
    decreases 11 - d, 0int, fs.len() - k,
{
    if 0 <= k < fs.len() && 0 <= d <= 10 {
        let nf = norm_factor(t, rs, fs[k], d + 1);
        let next = if nf.len() == 1 {
            acc.map_values(|q: Seq<FactorV>| q.push(nf[0]))
        } else {
            product(acc, nf)
        };
        norm_product(t, rs, fs, k + 1, next, d)
    } else {
        acc
    }
}

/// A normalised factor: an inlined hidden or promoted name without
/// repetition gives all the factors of its rule; a group is normalised
/// inside; anything else stays.
pub open spec fn norm_factor(t: Seq<RuleV>, rs: Seq<RuleV>, f: FactorV, d: int) -> Seq<FactorV>
    decreases 11 - d, 0int, 0int,
{
    if d > 10 || d < 0 {
        seq![f]
    } else {
        match f.base {
            BaseV::Nonterminal { name, .. } => {
                let j = find_rule(t, name, 0);
                if inline_marked(rs, name) && 0 <= j < t.len() && f.repetition is Once {
                    all_factors(t[j].alternatives.alts)
                } else {
                    seq![f]
                }
            },
            BaseV::Group { alternatives } => seq![
                FactorV {
                    base: BaseV::Group { alternatives: norm_alts(t, rs, alternatives, d + 1) },
                    repetition: f.repetition,
                },
            ],
            _ => seq![f],
        }
    }
}

/// The rules from `i` on that are not inlined, normalised.
pub open spec fn norm_rules(t: Seq<RuleV>, rs: Seq<RuleV>, i: int) -> Seq<RuleV>
    decreases rs.len() - i,
{
    if 0 <= i < rs.len() {
        (if inline_marked(rs, rs[i].name) {
            Seq::empty()
        } else {
            seq![
                RuleV {
                    name: rs[i].name,
                    mark: rs[i].mark,
                    alternatives: norm_alts(t, rs, rs[i].alternatives, 0),
                },
            ]
        }) + norm_rules(t, rs, i + 1)
    } else {
        Seq::empty()
    }
}

/// The normalised grammar.
pub open spec fn normalized(rs: Seq<RuleV>) -> Seq<RuleV> {
    norm_rules(rule_table(rs), rs, 0)
}

// ---------------------------------------------------------------------------
// Ambiguity patterns
// ---------------------------------------------------------------------------

/// The number of nullable alternatives from `i` on.
pub open spec fn count_nullable(t: Seq<RuleV>, s: Seq<bool>, qs: Seq<SeqV>, i: int) -> nat
    decreases qs.len() - i,
{
    if 0 <= i < qs.len() {
        (if seq_nullable(t, s, qs[i]) {
            1nat
        } else {
            0nat
        }) + count_nullable(t, s, qs, i + 1)
    } else {
        0
    }
}

/// Whether an alternative starts with the nullable name `n`.
pub open spec fn starts_nullable(t: Seq<RuleV>, s: Seq<bool>, q: SeqV, n: Seq<char>) -> bool {
    q.factors.len() > 0 && is_named(q.factors[0], n) && in_set(t, s, n)
}

/// Whether a factor could start with the nullable name `n`: it is `n`, or
/// names a rule with an alternative starting with `n`.
pub open spec fn could_start(t: Seq<RuleV>, s: Seq<bool>, f: FactorV, n: Seq<char>) -> bool {
    match f.base {
        BaseV::Nonterminal { name, .. } => (name == n && in_set(t, s, name)) || {
            let j = find_rule(t, name, 0);
            0 <= j < t.len() && alts_start_with(t, s, t[j].alternatives, n)
        },
        _ => false,
    }
}

/// Whether some alternative starts with the nullable name `n`.
pub open spec fn alts_start_with(t: Seq<RuleV>, s: Seq<bool>, a: AltsV, n: Seq<char>) -> bool {
    exists|i: int| 0 <= i < a.alts.len() && starts_nullable(t, s, #[trigger] a.alts[i], n)
}

/// Pattern: a nullable name followed by a factor that could start with it.
pub open spec fn nullable_then_same(t: Seq<RuleV>, s: Seq<bool>, q: SeqV) -> bool {
    exists|k: int|
        0 <= k < q.factors.len() - 1 && nullable_pair(t, s, #[trigger] q.factors[k], q.factors[k + 1])
}

/// Whether `f1` is a nullable name with which `f2` could start.
pub open spec fn nullable_pair(t: Seq<RuleV>, s: Seq<bool>, f1: FactorV, f2: FactorV) -> bool {
    match f1.base {
        BaseV::Nonterminal { name, .. } => in_set(t, s, name) && could_start(t, s, f2, name),
        _ => false,
    }
}

/// Whether a rule shows a pattern of ambiguity: two nullable alternatives;
/// two alternatives starting with the same nullable name; or a nullable name
/// followed by a factor that could start with it.
pub open spec fn rule_ambiguous(t: Seq<RuleV>, s: Seq<bool>, r: RuleV) -> bool {
    let qs = r.alternatives.alts;
    ||| qs.len() > 1 && count_nullable(t, s, qs, 0) > 1
    ||| qs.len() > 1 && exists|a: int, b: int, n: Seq<char>|
        0 <= a < b < qs.len() && #[trigger] starts_nullable(t, s, qs[a], n) && #[trigger] starts_nullable(
            t,
            s,
            qs[b],
            n,
        )
    ||| exists|i: int| 0 <= i < qs.len() && nullable_then_same(t, s, #[trigger] qs[i])
}

/// Whether the grammar may be ambiguous: a rule of its normalised form shows
/// a pattern (over the normalised rules and their nullable set).
pub open spec fn ambiguous_s(rs: Seq<RuleV>) -> bool {
    let ng = normalized(rs);
    let t2 = rule_table(ng);
    exists|i: int| 0 <= i < ng.len() && rule_ambiguous(t2, nullable_set(t2), #[trigger] ng[i])
}

// ---------------------------------------------------------------------------
// Computing nullable rules
// ---------------------------------------------------------------------------

/// Whether the rule named `name` is in the set `s` over the table.
fn in_set_exec(t: &Vec<Rule>, s: &Vec<bool>, name: &str) -> (r: bool)
    requires
        s.len() == t.len(),
    ensures
        r == in_set(rules_view(t@), s@, name@),
{
    proof {
        lemma_find_rule(rules_view(t@), name@, 0);
    }
    match find_rule_index(t, name) {
        Some(j) => s[j],
        None => false,
    }
}

fn rep_nullable_exec(r: &Repetition) -> (b: bool)
    ensures
        b == rep_nullable(crate::ast::rep_view(*r)),
{
    match r {
        Repetition::ZeroOrMore | Repetition::Optional | Repetition::SeparatedZeroOrMore(_) => true,
        _ => false,
    }
}

fn inner_nullable_exec(t: &Vec<Rule>, s: &Vec<bool>, f: &Factor) -> (r: bool)
    requires
        s.len() == t.len(),
    ensures
        r == inner_nullable(rules_view(t@), s@, factor_view(*f)),
{
    if rep_nullable_exec(&f.repetition) {
        return true;
    }
    match &f.base {
        BaseFactor::Literal { value, .. } => value.as_str().is_empty(),
        BaseFactor::CharClass { .. } => false,
        BaseFactor::Nonterminal { name, .. } => in_set_exec(t, s, name.as_str()),
        BaseFactor::Group { .. } => false,
    }
}

#[verifier::loop_isolation(false)]
fn inner_seq_nullable_exec(t: &Vec<Rule>, s: &Vec<bool>, q: &Sequence) -> (r: bool)
    requires
        s.len() == t.len(),
    ensures
        r == inner_seq_nullable(rules_view(t@), s@, sequence_view(*q)),
{
    proof {
        lemma_factors_view_index(q.factors@);
    }
    let mut k: usize = 0;
    while k < q.factors.len()
        invariant
            s.len() == t.len(),
            k <= q.factors.len(),
            crate::ast::factors_view(q.factors@).len() == q.factors.len(),
            forall|j: int| 0 <= j < k ==> inner_nullable(rules_view(t@), s@, #[trigger] sequence_view(*q).factors[j]),
        decreases q.factors.len() - k,
    {
        if !inner_nullable_exec(t, s, &q.factors[k]) {
            proof {
                assert(sequence_view(*q).factors[k as int] == factor_view(q.factors@[k as int]));
            }
            return false;
        }
        k = k + 1;
    }
    true
}

#[verifier::loop_isolation(false)]
fn factor_nullable_exec(t: &Vec<Rule>, s: &Vec<bool>, f: &Factor) -> (r: bool)
    requires
        s.len() == t.len(),
    ensures
        r == factor_nullable(rules_view(t@), s@, factor_view(*f)),
{
    if rep_nullable_exec(&f.repetition) {
        return true;
    }
    match &f.base {
        BaseFactor::Literal { value, .. } => value.as_str().is_empty(),
        BaseFactor::CharClass { .. } => false,
        BaseFactor::Nonterminal { name, .. } => in_set_exec(t, s, name.as_str()),
        BaseFactor::Group { alternatives } => {
            let ghost av = alts_view(**alternatives);
            proof {
                lemma_seqs_view_index(alternatives.alts@);
            }
            let mut a: usize = 0;
            while a < alternatives.alts.len()
                invariant
                    s.len() == t.len(),
                    a <= alternatives.alts.len(),
                    av == alts_view(**alternatives),
                    av.alts.len() == alternatives.alts.len(),
                    forall|i: int| 0 <= i < av.alts.len() ==> #[trigger] av.alts[i] == sequence_view(alternatives.alts@[i]),
                    forall|j: int| 0 <= j < a ==> !inner_seq_nullable(rules_view(t@), s@, #[trigger] av.alts[j]),
                decreases alternatives.alts.len() - a,
            {
                if inner_seq_nullable_exec(t, s, &alternatives.alts[a]) {
                    proof {
                        assert(av.alts[a as int] == sequence_view(alternatives.alts@[a as int]));
                        assert(inner_seq_nullable(rules_view(t@), s@, av.alts[a as int]));
                        assert(factor_view(*f).base == BaseV::Group { alternatives: av });
                    }
                    return true;
                }
                a = a + 1;
            }
            false
        },
    }
}

#[verifier::loop_isolation(false)]
fn seq_nullable_exec(t: &Vec<Rule>, s: &Vec<bool>, q: &Sequence) -> (r: bool)
    requires
        s.len() == t.len(),
    ensures
        r == seq_nullable(rules_view(t@), s@, sequence_view(*q)),
{
    proof {
        lemma_factors_view_index(q.factors@);
    }
    let mut k: usize = 0;
    while k < q.factors.len()
        invariant
            s.len() == t.len(),
            k <= q.factors.len(),
            crate::ast::factors_view(q.factors@).len() == q.factors.len(),
            forall|j: int| 0 <= j < k ==> factor_nullable(rules_view(t@), s@, #[trigger] sequence_view(*q).factors[j]),
        decreases q.factors.len() - k,
    {
        if !factor_nullable_exec(t, s, &q.factors[k]) {
            proof {
                assert(sequence_view(*q).factors[k as int] == factor_view(q.factors@[k as int]));
            }
            return false;
        }
        k = k + 1;
    }
    true
}

#[verifier::loop_isolation(false)]
fn alts_nullable_exec(t: &Vec<Rule>, s: &Vec<bool>, a: &Alternatives) -> (r: bool)
    requires
        s.len() == t.len(),
    ensures
        r == alts_nullable(rules_view(t@), s@, alts_view(*a)),
{
    let ghost av = alts_view(*a);
    proof {
        lemma_seqs_view_index(a.alts@);
    }
    let mut i: usize = 0;
    while i < a.alts.len()
        invariant
            s.len() == t.len(),
            i <= a.alts.len(),
            av == alts_view(*a),
            av.alts.len() == a.alts.len(),
            forall|j: int| 0 <= j < av.alts.len() ==> #[trigger] av.alts[j] == sequence_view(a.alts@[j]),
            forall|j: int| 0 <= j < i ==> !seq_nullable(rules_view(t@), s@, #[trigger] av.alts[j]),
        decreases a.alts.len() - i,
    {
        if seq_nullable_exec(t, s, &a.alts[i]) {
            proof {
                assert(seq_nullable(rules_view(t@), s@, av.alts[i as int]));
            }
            return true;
        }
        i = i + 1;
    }
    false
}

/// The nullable rules of a rule table.
fn compute_nullable_set(t: &Vec<Rule>) -> (r: Vec<bool>)
    ensures
        r@ == nullable_set(rules_view(t@)),
        r.len() == t.len(),
{
    let ghost tv = rules_view(t@);
    let n = t.len();
    let mut s: Vec<bool> = Vec::new();
    let mut i: usize = 0;
    while i < n
        invariant
            i <= n,
            n == t.len(),
            s.len() == i,
            forall|j: int| 0 <= j < i ==> !s@[j],
        decreases n - i,
    {
        s.push(false);
        i = i + 1;
    }
    proof {
        assert(s@ =~= Seq::new(tv.len(), |i: int| false));
    }
    let mut fuel: usize = n;
    let mut fuel_left: bool = true;
    loop
        invariant
            n == t.len(),
            tv == rules_view(t@),
            s.len() == n,
            fuel <= n,
            nullable_set(tv) == nullable_iter(tv, s@, (fuel + 1) as nat),
        decreases fuel,
    {
        let mut next: Vec<bool> = Vec::new();
        let mut changed = false;
        let mut i: usize = 0;
        while i < n
            invariant
                n == t.len(),
                tv == rules_view(t@),
                s.len() == n,
                i <= n,
                next.len() == i,
                forall|j: int| 0 <= j < i ==> #[trigger] next@[j] == nullable_step(tv, s@)[j],
                changed == exists|j: int| 0 <= j < i && next@[j] != s@[j],
            decreases n - i,
        {
            let b = s[i] || alts_nullable_exec(t, &s, &t[i].alternatives);
            proof {
                assert(tv[i as int] == rule_view(t@[i as int]));
            }
            if b != s[i] {
                changed = true;
            }
            next.push(b);
            i = i + 1;
        }
        proof {
            assert(next@ =~= nullable_step(tv, s@));
        }
        if !changed {
            proof {
                assert(next@ =~= s@);
            }
            return s;
        }
        if fuel == 0 {
            proof {
                assert(nullable_iter(tv, s@, 1) == nullable_iter(tv, next@, 0));
            }
            return next;
        }
        s = next;
        fuel = fuel - 1;
    }
}

// ---------------------------------------------------------------------------
// Computing complexity
// ---------------------------------------------------------------------------

proof fn lemma_cx_seqs_split(s: Seq<SeqV>, i: int)
    requires
        0 <= i < s.len(),
    ensures
        cx_seqs(s, i) == s[i].factors.len() + cx_factors(s[i].factors, 0) + cx_seqs(s, i + 1),
{
}

/// The complexity of alternatives.
#[verifier::loop_isolation(false)]
fn calculate_complexity(a: &Alternatives) -> (r: usize)
    requires
        cx_alts(alts_view(*a)) <= usize::MAX,
    ensures
        r == cx_alts(alts_view(*a)),
    decreases a,
{
    let ghost av = alts_view(*a);
    proof {
        lemma_seqs_view_index(a.alts@);
    }
    let mut score: usize = a.alts.len();
    let mut i: usize = 0;
    while i < a.alts.len()
        invariant
            i <= a.alts.len(),
            av.alts.len() == a.alts.len(),
            score + cx_seqs(av.alts, i as int) == cx_alts(av),
            cx_alts(av) <= usize::MAX,
        decreases a.alts.len() - i,
    {
        let q = &a.alts[i];
        let ghost qv = av.alts[i as int];
        proof {
            assert(qv == sequence_view(*q));
            lemma_factors_view_index(q.factors@);
            lemma_cx_seqs_split(av.alts, i as int);
        }
        score = score + q.factors.len();
        let mut k: usize = 0;
        while k < q.factors.len()
            invariant
                k <= q.factors.len(),
                qv.factors.len() == q.factors.len(),
                forall|j: int| 0 <= j < q.factors.len() ==> #[trigger] qv.factors[j] == factor_view(q.factors@[j]),
                score + cx_factors(qv.factors, k as int) + cx_seqs(av.alts, i + 1) == cx_alts(av),
                cx_alts(av) <= usize::MAX,
            decreases q.factors.len() - k,
        {
            let f = &q.factors[k];
            proof {
                assert(qv.factors[k as int] == factor_view(*f));
            }
            match &f.base {
                BaseFactor::Group { alternatives } => {
                    let c = calculate_complexity(alternatives);
                    score = score + c;
                },
                _ => {
                    score = score + 1;
                },
            }
            k = k + 1;
        }
        i = i + 1;
    }
    score
}

// ---------------------------------------------------------------------------
// Computing references and recursion
// ---------------------------------------------------------------------------

#[verifier::loop_isolation(false)]
fn seq_names_exec(q: &Sequence, n: &str) -> (r: bool)
    ensures
        r == seq_names(sequence_view(*q), n@),
{
    proof {
        lemma_factors_view_index(q.factors@);
    }
    let mut k: usize = 0;
    while k < q.factors.len()
        invariant
            k <= q.factors.len(),
            forall|j: int| 0 <= j < k ==> !is_named(#[trigger] sequence_view(*q).factors[j], n@),
        decreases q.factors.len() - k,
    {
        proof {
            assert(sequence_view(*q).factors[k as int] == factor_view(q.factors@[k as int]));
        }
        match &q.factors[k].base {
            BaseFactor::Nonterminal { name, .. } => {
                if string_eq(name, n) {
                    return true;
                }
            },
            _ => {},
        }
        k = k + 1;
    }
    false
}

#[verifier::loop_isolation(false)]
fn group_names_exec(a: &Alternatives, n: &str) -> (r: bool)
    ensures
        r == group_names(alts_view(*a), n@),
{
    proof {
        lemma_seqs_view_index(a.alts@);
    }
    let mut i: usize = 0;
    while i < a.alts.len()
        invariant
            i <= a.alts.len(),
            forall|j: int| 0 <= j < i ==> !seq_names(#[trigger] alts_view(*a).alts[j], n@),
        decreases a.alts.len() - i,
    {
        proof {
            assert(alts_view(*a).alts[i as int] == sequence_view(a.alts@[i as int]));
        }
        if seq_names_exec(&a.alts[i], n) {
            return true;
        }
        i = i + 1;
    }
    false
}

#[verifier::loop_isolation(false)]
fn seq_mentions_exec(q: &Sequence, n: &str) -> (r: bool)
    ensures
        r == seq_mentions(sequence_view(*q), n@),
{
    proof {
        lemma_factors_view_index(q.factors@);
    }
    let mut k: usize = 0;
    while k < q.factors.len()
        invariant
            k <= q.factors.len(),
            forall|j: int| 0 <= j < k ==> !factor_mentions(#[trigger] sequence_view(*q).factors[j], n@),
        decreases q.factors.len() - k,
    {
        proof {
            assert(sequence_view(*q).factors[k as int] == factor_view(q.factors@[k as int]));
        }
        let hit = match &q.factors[k].base {
            BaseFactor::Nonterminal { name, .. } => string_eq(name, n),
            BaseFactor::Group { alternatives } => group_names_exec(alternatives, n),
            _ => false,
        };
        if hit {
            return true;
        }
        k = k + 1;
    }
    false
}

#[verifier::loop_isolation(false)]
fn mentions_shallow_exec(a: &Alternatives, n: &str) -> (r: bool)
    ensures
        r == mentions_shallow(alts_view(*a), n@),
{
    proof {
        lemma_seqs_view_index(a.alts@);
    }
    let mut i: usize = 0;
    while i < a.alts.len()
        invariant
            i <= a.alts.len(),
            forall|j: int| 0 <= j < i ==> !seq_mentions(#[trigger] alts_view(*a).alts[j], n@),
        decreases a.alts.len() - i,
    {
        proof {
            assert(alts_view(*a).alts[i as int] == sequence_view(a.alts@[i as int]));
        }
        if seq_mentions_exec(&a.alts[i], n) {
            return true;
        }
        i = i + 1;
    }
    false
}

#[verifier::loop_isolation(false)]
fn mentions_deep_exec(a: &Alternatives, n: &str) -> (r: bool)
    ensures
        r == mentions_deep(alts_view(*a), n@),
    decreases a,
{
    let ghost qs = alts_view(*a).alts;
    proof {
        lemma_seqs_view_index(a.alts@);
    }
    let mut i: usize = 0;
    while i < a.alts.len()
        invariant
            i <= a.alts.len(),
            mentions_seqs(qs, 0, n@) == mentions_seqs(qs, i as int, n@),
        decreases a.alts.len() - i,
    {
        let q = &a.alts[i];
        let ghost fs = qs[i as int].factors;
        proof {
            assert(qs[i as int] == sequence_view(*q));
            lemma_factors_view_index(q.factors@);
        }
        let mut k: usize = 0;
        while k < q.factors.len()
            invariant
                k <= q.factors.len(),
                fs == sequence_view(*q).factors,
                mentions_factors(fs, 0, n@) == mentions_factors(fs, k as int, n@),
            decreases q.factors.len() - k,
        {
            proof {
                assert(fs[k as int] == factor_view(q.factors@[k as int]));
            }
            let hit = match &q.factors[k].base {
                BaseFactor::Nonterminal { name, .. } => string_eq(name, n),
                BaseFactor::Group { alternatives } => mentions_deep_exec(alternatives, n),
                _ => false,
            };
            if hit {
                return true;
            }
            k = k + 1;
        }
        i = i + 1;
    }
    false
}

/// Whether rule `i` of the table refers to rule `j`.
fn refers_exec(t: &Vec<Rule>, deep: bool, i: usize, j: usize) -> (r: bool)
    requires
        i < t.len(),
        j < t.len(),
    ensures
        r == refers(rules_view(t@), deep, i as int, j as int),
{
    proof {
        assert(rules_view(t@)[i as int] == rule_view(t@[i as int]));
        assert(rules_view(t@)[j as int] == rule_view(t@[j as int]));
    }
    if deep {
        mentions_deep_exec(&t[i].alternatives, t[j].name.as_str())
    } else {
        mentions_shallow_exec(&t[i].alternatives, t[j].name.as_str())
    }
}

/// The rules that rule `i` refers to.
fn successors_exec(t: &Vec<Rule>, deep: bool, i: usize) -> (r: Vec<bool>)
    requires
        i < t.len(),
    ensures
        r@ == successors(rules_view(t@), deep, i as int),
{
    let mut out: Vec<bool> = Vec::new();
    let mut j: usize = 0;
    while j < t.len()
        invariant
            i < t.len(),
            j <= t.len(),
            out.len() == j,
            forall|m: int| 0 <= m < j ==> #[trigger] out@[m] == refers(rules_view(t@), deep, i as int, m),
        decreases t.len() - j,
    {
        out.push(refers_exec(t, deep, i, j));
        j = j + 1;
    }
    proof {
        assert(out@ =~= successors(rules_view(t@), deep, i as int));
    }
    out
}

/// For each rule of the table, the rules it reaches in one to as many
/// steps as the table has rules.
#[verifier::loop_isolation(false)]
fn reach_table(t: &Vec<Rule>, deep: bool) -> (reached: Vec<Vec<bool>>)
    ensures
        reached.len() == t.len(),
        forall|m: int| 0 <= m < t.len() ==> #[trigger] reached@[m]@ == reach(rules_view(t@), deep, m, t.len() as nat),
        forall|m: int| 0 <= m < t.len() ==> (#[trigger] reached@[m]).len() == t.len(),
{
    let ghost tv = rules_view(t@);
    let n = t.len();
    assert(tv.len() == n);
    let mut succ: Vec<Vec<bool>> = Vec::new();
    let mut i: usize = 0;
    while i < n
        invariant
            n == t.len(),
            i <= n,
            succ.len() == i,
            forall|m: int| 0 <= m < i ==> #[trigger] succ@[m]@ == successors(tv, deep, m),
        decreases n - i,
    {
        succ.push(successors_exec(t, deep, i));
        i = i + 1;
    }
    // the rules reached from each rule
    let mut reached: Vec<Vec<bool>> = Vec::new();
    let mut i: usize = 0;
    while i < n
        invariant
            n == t.len(),
            i <= n,
            succ.len() == n,
            forall|m: int| 0 <= m < n ==> #[trigger] succ@[m]@ == successors(tv, deep, m),
            reached.len() == i,
            forall|m: int| 0 <= m < i ==> #[trigger] reached@[m]@ == reach(tv, deep, m, n as nat),
        decreases n - i,
    {
        let mut cur: Vec<bool> = Vec::new();
        let mut j: usize = 0;
        while j < n
            invariant
                n == t.len(),
                i < n,
                succ.len() == n,
                forall|m: int| 0 <= m < n ==> #[trigger] succ@[m]@ == successors(tv, deep, m),
                j <= n,
                cur.len() == j,
                forall|m: int| 0 <= m < j ==> #[trigger] cur@[m] == successors(tv, deep, i as int)[m],
            decreases n - j,
        {
            cur.push(succ[i][j]);
            j = j + 1;
        }
        proof {
            assert(cur@ =~= reach(tv, deep, i as int, 1));
        }
        let mut k: usize = 1;
        while k < n
            invariant
                n == t.len(),
                i < n,
                1 <= k <= n,
                succ.len() == n,
                forall|m: int| 0 <= m < n ==> #[trigger] succ@[m]@ == successors(tv, deep, m),
                cur@ == reach(tv, deep, i as int, k as nat),
                cur.len() == n,
            decreases n - k,
        {
            let mut next: Vec<bool> = Vec::new();
            let mut j: usize = 0;
            while j < n
                invariant
                    n == t.len(),
                    j <= n,
                    cur.len() == n,
                    succ.len() == n,
                    forall|m: int| 0 <= m < n ==> #[trigger] succ@[m]@ == successors(tv, deep, m),
                    next.len() == j,
                    forall|x: int| 0 <= x < j ==> #[trigger] next@[x] == (cur@[x] || exists|m: int|
                        0 <= m < tv.len() && cur@[m] && refers(tv, deep, m, x)),
                decreases n - j,
            {
                let mut hit = cur[j];
                let mut m: usize = 0;
                while m < n && !hit
                    invariant
                        n == t.len(),
                        m <= n,
                        j < n,
                        cur.len() == n,
                        succ.len() == n,
                        forall|y: int| 0 <= y < n ==> #[trigger] succ@[y]@ == successors(tv, deep, y),
                        hit == (cur@[j as int] || exists|y: int|
                            0 <= y < m && cur@[y] && refers(tv, deep, y, j as int)),
                    decreases n - m,
                {
                    proof {
                        assert(succ@[m as int]@[j as int] == refers(tv, deep, m as int, j as int));
                    }
                    if cur[m] && succ[m][j] {
                        hit = true;
                    }
                    m = m + 1;
                }
                next.push(hit);
                j = j + 1;
            }
            proof {
                assert(next@ =~= reach(tv, deep, i as int, (k + 1) as nat));
            }
            cur = next;
            k = k + 1;
        }
        reached.push(cur);
        i = i + 1;
    }
    proof {
        assert forall|m: int| 0 <= m < n implies (#[trigger] reached@[m]).len() == n by {
            lemma_reach_len(tv, deep, m, n as nat);
        }
    }
    reached
}

/// For each rule of the table, whether it is recursive: on a cycle, or
/// reaching one.
pub fn recursive_flags(t: &Vec<Rule>, deep: bool) -> (r: Vec<bool>)
    ensures
        r.len() == t.len(),
        forall|i: int| 0 <= i < t.len() ==> #[trigger] r@[i] == recursive_at(rules_view(t@), deep, i),
{
    let ghost tv = rules_view(t@);
    let n = t.len();
    let reached = reach_table(t, deep);
    let mut out: Vec<bool> = Vec::new();
    let mut i: usize = 0;
    while i < n
        invariant
            n == t.len(),
            i <= n,
            reached.len() == n,
            forall|m: int| 0 <= m < n ==> #[trigger] reached@[m]@ == reach(tv, deep, m, n as nat),
            forall|m: int| 0 <= m < n ==> (#[trigger] reached@[m]).len() == n,
            out.len() == i,
            forall|m: int| 0 <= m < i ==> #[trigger] out@[m] == recursive_at(tv, deep, m),
        decreases n - i,
    {
        let mut hit = reached[i][i];
        let mut j: usize = 0;
        while j < n && !hit
            invariant
                n == t.len(),
                i < n,
                j <= n,
                reached.len() == n,
                forall|m: int| 0 <= m < n ==> #[trigger] reached@[m]@ == reach(tv, deep, m, n as nat),
                forall|m: int| 0 <= m < n ==> (#[trigger] reached@[m]).len() == n,
                hit == (on_cycle(tv, deep, i as int) || exists|y: int|
                    0 <= y < j && reach(tv, deep, i as int, n as nat)[y] && on_cycle(tv, deep, y)),
            decreases n - j,
        {
            proof {
                assert(reached@[i as int]@[j as int] == reach(tv, deep, i as int, n as nat)[j as int]);
                assert(reached@[j as int]@[j as int] == on_cycle(tv, deep, j as int));
            }
            if reached[i][j] && reached[j][j] {
                hit = true;
            }
            j = j + 1;
        }
        out.push(hit);
        i = i + 1;
    }
    out
}

/// For each rule of the table, whether it derives itself: whether it is on
/// a cycle of references.
pub fn cycle_flags(t: &Vec<Rule>, deep: bool) -> (r: Vec<bool>)
    ensures
        r.len() == t.len(),
        forall|i: int| 0 <= i < t.len() ==> #[trigger] r@[i] == on_cycle(rules_view(t@), deep, i),
{
    let ghost tv = rules_view(t@);
    let n = t.len();
    let reached = reach_table(t, deep);
    let mut out: Vec<bool> = Vec::new();
    let mut i: usize = 0;
    while i < n
        invariant
            n == t.len(),
            i <= n,
            reached.len() == n,
            forall|m: int| 0 <= m < n ==> #[trigger] reached@[m]@ == reach(tv, deep, m, n as nat),
            forall|m: int| 0 <= m < n ==> (#[trigger] reached@[m]).len() == n,
            out.len() == i,
            forall|m: int| 0 <= m < i ==> #[trigger] out@[m] == on_cycle(tv, deep, m),
        decreases n - i,
    {
        proof {
            assert(reached@[i as int]@[i as int] == reach(tv, deep, i as int, n as nat)[i as int]);
        }
        out.push(reached[i][i]);
        i = i + 1;
    }
    out
}

// ---------------------------------------------------------------------------
// Computing left recursion
// ---------------------------------------------------------------------------

#[verifier::loop_isolation(false)]
fn first_names_exec(t: &Vec<Rule>, s: &Vec<bool>, q: &Sequence, n: &str) -> (r: bool)
    requires
        s.len() == t.len(),
    ensures
        r == first_names(rules_view(t@), s@, sequence_view(*q).factors, 0, n@),
    decreases q,
{
    let ghost fs = sequence_view(*q).factors;
    let ghost tv = rules_view(t@);
    proof {
        lemma_factors_view_index(q.factors@);
    }
    let mut k: usize = 0;
    while k < q.factors.len()
        invariant
            k <= q.factors.len(),
            first_names(tv, s@, fs, 0, n@) == first_names(tv, s@, fs, k as int, n@),
        decreases q.factors.len() - k,
    {
        proof {
            assert(fs[k as int] == factor_view(q.factors@[k as int]));
        }
        match &q.factors[k].base {
            BaseFactor::Nonterminal { name, .. } => {
                if string_eq(name, n) {
                    return true;
                }
                if !in_set_exec(t, s, name.as_str()) {
                    return false;
                }
            },
            BaseFactor::Literal { value, .. } => {
                if !value.as_str().is_empty() {
                    return false;
                }
            },
            BaseFactor::CharClass { .. } => {
                return false;
            },
            BaseFactor::Group { alternatives } => {
                if first_names_alts_exec(t, s, alternatives, n) {
                    return true;
                }
                if !alts_nullable_exec(t, s, alternatives) {
                    return false;
                }
            },
        }
        k = k + 1;
    }
    false
}

#[verifier::loop_isolation(false)]
fn first_names_alts_exec(t: &Vec<Rule>, s: &Vec<bool>, a: &Alternatives, n: &str) -> (r: bool)
    requires
        s.len() == t.len(),
    ensures
        r == first_names_alts(rules_view(t@), s@, alts_view(*a), n@),
    decreases a,
{
    let ghost qs = alts_view(*a).alts;
    let ghost tv = rules_view(t@);
    proof {
        lemma_seqs_view_index(a.alts@);
    }
    let mut i: usize = 0;
    while i < a.alts.len()
        invariant
            i <= a.alts.len(),
            first_names_seqs(tv, s@, qs, 0, n@) == first_names_seqs(tv, s@, qs, i as int, n@),
        decreases a.alts.len() - i,
    {
        proof {
            assert(qs[i as int] == sequence_view(a.alts@[i as int]));
        }
        if first_names_exec(t, s, &a.alts[i], n) {
            return true;
        }
        i = i + 1;
    }
    false
}

/// For each pair of rules of the table, whether the name of the second can
/// come first in the first.
fn left_matrix(t: &Vec<Rule>, s: &Vec<bool>) -> (adj: Vec<Vec<bool>>)
    requires
        s.len() == t.len(),
    ensures
        adj.len() == t.len(),
        forall|m: int| 0 <= m < t.len() ==> (#[trigger] adj@[m]).len() == t.len(),
        forall|m: int, j: int|
            0 <= m < t.len() && 0 <= j < t.len() ==> #[trigger] adj@[m]@[j] == first_names_alts(
                rules_view(t@),
                s@,
                rules_view(t@)[m].alternatives,
                rules_view(t@)[j].name,
            ),
{
    let ghost tv = rules_view(t@);
    let n = t.len();
    let mut adj: Vec<Vec<bool>> = Vec::new();
    let mut m: usize = 0;
    while m < n
        invariant
            n == t.len(),
            s.len() == n,
            tv == rules_view(t@),
            m <= n,
            adj.len() == m,
            forall|x: int| 0 <= x < m ==> (#[trigger] adj@[x]).len() == n,
            forall|x: int, j: int|
                0 <= x < m && 0 <= j < n ==> #[trigger] adj@[x]@[j] == first_names_alts(
                    tv,
                    s@,
                    tv[x].alternatives,
                    tv[j].name,
                ),
        decreases n - m,
    {
        let mut row: Vec<bool> = Vec::new();
        let mut j: usize = 0;
        while j < n
            invariant
                n == t.len(),
                s.len() == n,
                tv == rules_view(t@),
                m < n,
                j <= n,
                row.len() == j,
                forall|y: int| 0 <= y < j ==> #[trigger] row@[y] == first_names_alts(
                    tv,
                    s@,
                    tv[m as int].alternatives,
                    tv[y].name,
                ),
            decreases n - j,
        {
            proof {
                assert(tv[m as int] == rule_view(t@[m as int]));
                assert(tv[j as int] == rule_view(t@[j as int]));
            }
            row.push(first_names_alts_exec(t, s, &t[m].alternatives, t[j].name.as_str()));
            j = j + 1;
        }
        adj.push(row);
        m = m + 1;
    }
    adj
}

/// Whether the rule named `n` is left-reachable from `a`, given the matrix
/// of `left_matrix`.
fn left_reaches_exec(t: &Vec<Rule>, s: &Vec<bool>, adj: &Vec<Vec<bool>>, a: &Alternatives, n: &str) -> (r: bool)
    requires
        s.len() == t.len(),
        adj.len() == t.len(),
        forall|m: int| 0 <= m < t.len() ==> (#[trigger] adj@[m]).len() == t.len(),
        forall|m: int, j: int|
            0 <= m < t.len() && 0 <= j < t.len() ==> #[trigger] adj@[m]@[j] == first_names_alts(
                rules_view(t@),
                s@,
                rules_view(t@)[m].alternatives,
                rules_view(t@)[j].name,
            ),
    ensures
        r == left_reaches(rules_view(t@), s@, alts_view(*a), n@),
{
    let ghost tv = rules_view(t@);
    let len = t.len();
    let mut c: Vec<bool> = Vec::new();
    let mut j: usize = 0;
    while j < len
        invariant
            len == t.len(),
            s.len() == len,
            tv == rules_view(t@),
            j <= len,
            c.len() == j,
            forall|y: int| 0 <= y < j ==> #[trigger] c@[y] == first_names_alts(tv, s@, alts_view(*a), tv[y].name),
        decreases len - j,
    {
        proof {
            assert(tv[j as int] == rule_view(t@[j as int]));
        }
        c.push(first_names_alts_exec(t, s, a, t[j].name.as_str()));
        j = j + 1;
    }
    let ghost start = left_start(tv, s@, alts_view(*a));
    proof {
        assert(c@ =~= start);
    }
    let mut k: usize = 0;
    while k < len
        invariant
            len == t.len(),
            tv == rules_view(t@),
            adj.len() == len,
            forall|m: int| 0 <= m < len ==> (#[trigger] adj@[m]).len() == len,
            forall|m: int, y: int|
                0 <= m < len && 0 <= y < len ==> #[trigger] adj@[m]@[y] == first_names_alts(
                    tv,
                    s@,
                    tv[m].alternatives,
                    tv[y].name,
                ),
            k <= len,
            c.len() == len,
            left_closure(tv, s@, start, len as nat) == left_closure(tv, s@, c@, (len - k) as nat),
        decreases len - k,
    {
        let mut next: Vec<bool> = Vec::new();
        let mut y: usize = 0;
        while y < len
            invariant
                len == t.len(),
                tv == rules_view(t@),
                adj.len() == len,
                forall|m: int| 0 <= m < len ==> (#[trigger] adj@[m]).len() == len,
                forall|m: int, x: int|
                    0 <= m < len && 0 <= x < len ==> #[trigger] adj@[m]@[x] == first_names_alts(
                        tv,
                        s@,
                        tv[m].alternatives,
                        tv[x].name,
                    ),
                c.len() == len,
                y <= len,
                next.len() == y,
                forall|x: int| 0 <= x < y ==> #[trigger] next@[x] == left_step(tv, s@, c@)[x],
            decreases len - y,
        {
            let mut hit = c[y];
            let mut m: usize = 0;
            while m < len && !hit
                invariant
                    len == t.len(),
                    y < len,
                    m <= len,
                    adj.len() == len,
                    forall|q: int| 0 <= q < len ==> (#[trigger] adj@[q]).len() == len,
                    forall|q: int, x: int|
                        0 <= q < len && 0 <= x < len ==> #[trigger] adj@[q]@[x] == first_names_alts(
                            tv,
                            s@,
                            tv[q].alternatives,
                            tv[x].name,
                        ),
                    c.len() == len,
                    hit == (c@[y as int] || exists|q: int|
                        0 <= q < m && c@[q] && #[trigger] first_names_alts(tv, s@, tv[q].alternatives, tv[y as int].name)),
                decreases len - m,
            {
                proof {
                    assert(adj@[m as int]@[y as int] == first_names_alts(tv, s@, tv[m as int].alternatives, tv[y as int].name));
                }
                if c[m] && adj[m][y] {
                    hit = true;
                }
                m = m + 1;
            }
            proof {
                if !hit {
                    assert(!(exists|q: int|
                        0 <= q < tv.len() && c@[q] && #[trigger] first_names_alts(tv, s@, tv[q].alternatives, tv[y as int].name)));
                }
            }
            next.push(hit);
            y = y + 1;
        }
        proof {
            assert(next@ =~= left_step(tv, s@, c@));
            assert((len - k) as nat > 0);
        }
        c = next;
        k = k + 1;
    }
    proof {
        assert(left_closure(tv, s@, c@, 0) == c@);
    }
    match crate::native_parser::find_rule_index(t, n) {
        Some(j) => c[j],
        None => false,
    }
}

// ---------------------------------------------------------------------------
// Computing the normalised grammar
// ---------------------------------------------------------------------------

/// The views of a list of factor lists.
pub open spec fn fss_view(v: Seq<Vec<Factor>>) -> Seq<Seq<FactorV>> {
    v.map_values(|x: Vec<Factor>| factors_view(x@))
}

/// Whether some definition of `n` is hidden or promoted.
fn is_inline(rules: &Vec<Rule>, n: &str) -> (r: bool)
    ensures
        r == inline_marked(rules_view(rules@), n@),
{
    let ghost rs = rules_view(rules@);
    let mut m: usize = 0;
    while m < rules.len()
        invariant
            m <= rules.len(),
            rs == rules_view(rules@),
            forall|x: int|
                0 <= x < m ==> !((#[trigger] rs[x]).name == n@ && (rs[x].mark == Mark::Hidden
                    || rs[x].mark == Mark::Promoted)),
        decreases rules.len() - m,
    {
        proof {
            assert(rs[m as int] == rule_view(rules@[m as int]));
        }
        let marked = match rules[m].mark {
            Mark::Hidden | Mark::Promoted => true,
            _ => false,
        };
        if marked && string_eq(&rules[m].name, n) {
            return true;
        }
        m = m + 1;
    }
    false
}

/// A copy of a list of factors.
fn clone_factor_vec(v: &Vec<Factor>) -> (r: Vec<Factor>)
    ensures
        factors_view(r@) == factors_view(v@),
{
    let mut out: Vec<Factor> = Vec::new();
    let mut i: usize = 0;
    proof {
        assert(v@.take(0) =~= Seq::<Factor>::empty());
    }
    while i < v.len()
        invariant
            i <= v.len(),
            factors_view(out@) == factors_view(v@.take(i as int)),
        decreases v.len() - i,
    {
        let c = crate::ast::clone_factor(&v[i]);
        let ghost before = out@;
        out.push(c);
        proof {
            lemma_factors_view_push(before, c);
            lemma_factors_view_push(v@.take(i as int), v@[i as int]);
            assert(v@.take(i + 1) =~= v@.take(i as int).push(v@[i as int]));
        }
        i = i + 1;
    }
    proof {
        assert(v@.take(v.len() as int) =~= v@);
    }
    out
}

/// All factors of all alternatives, in order.
#[verifier::loop_isolation(false)]
fn all_factors_exec(a: &Alternatives) -> (r: Vec<Factor>)
    ensures
        factors_view(r@) == all_factors(alts_view(*a).alts),
{
    let ghost qs = alts_view(*a).alts;
    proof {
        lemma_seqs_view_index(a.alts@);
        assert(qs.take(0) =~= Seq::<SeqV>::empty());
    }
    let mut out: Vec<Factor> = Vec::new();
    let mut i: usize = 0;
    while i < a.alts.len()
        invariant
            i <= a.alts.len(),
            factors_view(out@) == all_factors(qs.take(i as int)),
        decreases a.alts.len() - i,
    {
        let ghost mid = factors_view(out@);
        let q = &a.alts[i];
        proof {
            assert(qs[i as int] == sequence_view(*q));
            lemma_factors_view_index(q.factors@);
            assert(qs.take(i + 1).drop_last() =~= qs.take(i as int));
            assert(qs.take(i + 1).last() == qs[i as int]);
            assert(q.factors@.take(0) =~= Seq::<Factor>::empty());
        }
        let mut k: usize = 0;
        while k < q.factors.len()
            invariant
                k <= q.factors.len(),
                factors_view(out@) == mid + factors_view(q.factors@.take(k as int)),
            decreases q.factors.len() - k,
        {
            let c = crate::ast::clone_factor(&q.factors[k]);
            let ghost before = out@;
            out.push(c);
            proof {
                lemma_factors_view_push(before, c);
                lemma_factors_view_push(q.factors@.take(k as int), q.factors@[k as int]);
                assert(q.factors@.take(k + 1) =~= q.factors@.take(k as int).push(q.factors@[k as int]));
                assert(factors_view(out@) =~= mid + factors_view(q.factors@.take(k + 1)));
            }
            k = k + 1;
        }
        proof {
            assert(q.factors@.take(q.factors.len() as int) =~= q.factors@);
        }
        i = i + 1;
    }
    proof {
        assert(qs.take(a.alts.len() as int) =~= qs);
    }
    out
}

/// Every list of `acc` extended by each factor of `nf` in turn.
fn product_exec(acc: &Vec<Vec<Factor>>, nf: &Vec<Factor>) -> (r: Vec<Vec<Factor>>)
    ensures
        fss_view(r@) == product(fss_view(acc@), factors_view(nf@)),
{
    let ghost av = fss_view(acc@);
    let ghost nv = factors_view(nf@);
    proof {
        crate::ast::lemma_factors_view_index(nf@);
        assert(av.take(0) =~= Seq::<Seq<FactorV>>::empty());
        assert(fss_view(Seq::<Vec<Factor>>::empty()) =~= Seq::empty());
    }
    let mut out: Vec<Vec<Factor>> = Vec::new();
    let mut i: usize = 0;
    while i < acc.len()
        invariant
            i <= acc.len(),
            av == fss_view(acc@),
            nv == factors_view(nf@),
            nv.len() == nf.len(),
            forall|k: int| 0 <= k < nf.len() ==> #[trigger] nv[k] == factor_view(nf@[k]),
            fss_view(out@) == product(av.take(i as int), nv),
        decreases acc.len() - i,
    {
        let ghost mid = fss_view(out@);
        let ghost base = av[i as int];
        proof {
            assert(av.take(i + 1).drop_last() =~= av.take(i as int));
            assert(av.take(i + 1).last() == base);
        }
        let mut k: usize = 0;
        while k < nf.len()
            invariant
                i < acc.len(),
                k <= nf.len(),
                av == fss_view(acc@),
                base == av[i as int],
                nv == factors_view(nf@),
                nv.len() == nf.len(),
                forall|x: int| 0 <= x < nf.len() ==> #[trigger] nv[x] == factor_view(nf@[x]),
                fss_view(out@) == mid + nv.take(k as int).map_values(|x: FactorV| base.push(x)),
            decreases nf.len() - k,
        {
            let mut combined = clone_factor_vec(&acc[i]);
            let c = crate::ast::clone_factor(&nf[k]);
            let ghost before_c = combined@;
            combined.push(c);
            proof {
                lemma_factors_view_push(before_c, c);
                assert(factors_view(combined@) == base.push(nv[k as int]));
            }
            let ghost before = out@;
            out.push(combined);
            proof {
                assert(fss_view(out@) =~= fss_view(before).push(factors_view(combined@)));
                assert(nv.take(k + 1).map_values(|x: FactorV| base.push(x)) =~= nv.take(k as int).map_values(
                    |x: FactorV| base.push(x),
                ).push(base.push(nv[k as int])));
                assert(fss_view(out@) =~= mid + nv.take(k + 1).map_values(|x: FactorV| base.push(x)));
            }
            k = k + 1;
        }
        proof {
            assert(nv.take(nf.len() as int) =~= nv);
        }
        i = i + 1;
    }
    proof {
        assert(av.take(acc.len() as int) =~= av);
    }
    out
}

/// Every list of `acc` extended by `x`.
fn extend_each(acc: &Vec<Vec<Factor>>, x: &Factor) -> (r: Vec<Vec<Factor>>)
    ensures
        fss_view(r@) == fss_view(acc@).map_values(|q: Seq<FactorV>| q.push(factor_view(*x))),
{
    let mut out: Vec<Vec<Factor>> = Vec::new();
    let mut i: usize = 0;
    while i < acc.len()
        invariant
            i <= acc.len(),
            fss_view(out@) == fss_view(acc@).take(i as int).map_values(
                |q: Seq<FactorV>| q.push(factor_view(*x)),
            ),
        decreases acc.len() - i,
    {
        let mut combined = clone_factor_vec(&acc[i]);
        let c = crate::ast::clone_factor(x);
        let ghost before_c = combined@;
        combined.push(c);
        proof {
            lemma_factors_view_push(before_c, c);
        }
        let ghost before = out@;
        out.push(combined);
        proof {
            assert(factors_view(combined@) == fss_view(acc@)[i as int].push(factor_view(*x)));
            assert(fss_view(out@) =~= fss_view(before).push(factors_view(combined@)));
            assert(fss_view(out@) =~= fss_view(acc@).take(i + 1).map_values(
                |q: Seq<FactorV>| q.push(factor_view(*x)),
            ));
        }
        i = i + 1;
    }
    proof {
        assert(fss_view(acc@).take(acc.len() as int) =~= fss_view(acc@));
    }
    out
}

/// Normalised alternatives (see `norm_alts`).
fn norm_alts_exec(t: &Vec<Rule>, rules: &Vec<Rule>, a: &Alternatives, d: usize) -> (r: Alternatives)
    requires
        d <= 11,
    ensures
        alts_view(r) == norm_alts(rules_view(t@), rules_view(rules@), alts_view(*a), d as int),
    decreases 11 - d, 0int, 0int,
{
    if d > 10 {
        return crate::ast::clone_alternatives(a);
    }
    let ghost tv = rules_view(t@);
    let ghost rv = rules_view(rules@);
    let ghost qs = alts_view(*a).alts;
    proof {
        lemma_seqs_view_index(a.alts@);
    }
    let mut out: Vec<Sequence> = Vec::new();
    let mut i: usize = 0;
    proof {
        assert(seqs_view(out@) =~= Seq::<SeqV>::empty());
        assert(seqs_view(out@) + norm_seqs(tv, rv, qs, 0, d + 1) =~= norm_seqs(tv, rv, qs, 0, d + 1));
    }
    while i < a.alts.len()
        invariant
            d <= 10,
            i <= a.alts.len(),
            tv == rules_view(t@),
            rv == rules_view(rules@),
            qs == alts_view(*a).alts,
            qs.len() == a.alts.len(),
            forall|j: int| 0 <= j < a.alts.len() ==> #[trigger] qs[j] == sequence_view(a.alts@[j]),
            seqs_view(out@) + norm_seqs(tv, rv, qs, i as int, (d + 1) as int) == norm_seqs(
                tv,
                rv,
                qs,
                0,
                (d + 1) as int,
            ),
        decreases a.alts.len() - i,
    {
        let v = norm_seq_exec(t, rules, &a.alts[i], d + 1);
        let ghost mid = seqs_view(out@);
        proof {
            lemma_seqs_view_index(v@);
            assert(v@.take(0) =~= Seq::<Sequence>::empty());
        }
        let mut k: usize = 0;
        while k < v.len()
            invariant
                k <= v.len(),
                seqs_view(out@) == mid + seqs_view(v@.take(k as int)),
            decreases v.len() - k,
        {
            let c = crate::ast::clone_sequence(&v[k]);
            let ghost before = out@;
            out.push(c);
            proof {
                lemma_seqs_view_push(before, c);
                lemma_seqs_view_push(v@.take(k as int), v@[k as int]);
                assert(v@.take(k + 1) =~= v@.take(k as int).push(v@[k as int]));
                assert(seqs_view(out@) =~= mid + seqs_view(v@.take(k + 1)));
            }
            k = k + 1;
        }
        proof {
            assert(v@.take(v.len() as int) =~= v@);
            assert(norm_seqs(tv, rv, qs, i as int, (d + 1) as int) == norm_seq(tv, rv, qs[i as int], (d + 1) as int)
                + norm_seqs(tv, rv, qs, i + 1, (d + 1) as int));
            assert(seqs_view(out@) + norm_seqs(tv, rv, qs, i + 1, (d + 1) as int) =~= mid + norm_seqs(
                tv,
                rv,
                qs,
                i as int,
                (d + 1) as int,
            ));
        }
        i = i + 1;
    }
    proof {
        assert(seqs_view(out@) =~= norm_seqs(tv, rv, qs, 0, (d + 1) as int));
    }
    Alternatives::new(out)
}

/// A normalised sequence (see `norm_seq`).
fn norm_seq_exec(t: &Vec<Rule>, rules: &Vec<Rule>, q: &Sequence, d: usize) -> (r: Vec<Sequence>)
    requires
        d <= 11,
    ensures
        seqs_view(r@) == norm_seq(rules_view(t@), rules_view(rules@), sequence_view(*q), d as int),
    decreases 11 - d, 1int, 0int,
{
    let ghost tv = rules_view(t@);
    let ghost rv = rules_view(rules@);
    if d > 10 {
        let c = crate::ast::clone_sequence(q);
        let mut out: Vec<Sequence> = Vec::new();
        out.push(c);
        proof {
            lemma_seqs_view_push(Seq::empty(), c);
            assert(out@ =~= Seq::<Sequence>::empty().push(c));
        }
        return out;
    }
    let ghost fs = sequence_view(*q).factors;
    proof {
        lemma_factors_view_index(q.factors@);
    }
    let mut acc: Vec<Vec<Factor>> = Vec::new();
    acc.push(Vec::new());
    proof {
        assert(fss_view(acc@) =~= seq![Seq::<FactorV>::empty()]);
    }
    let mut k: usize = 0;
    while k < q.factors.len()
        invariant
            d <= 10,
            k <= q.factors.len(),
            tv == rules_view(t@),
            rv == rules_view(rules@),
            fs == sequence_view(*q).factors,
            fs.len() == q.factors.len(),
            forall|j: int| 0 <= j < q.factors.len() ==> #[trigger] fs[j] == factor_view(q.factors@[j]),
            norm_product(tv, rv, fs, k as int, fss_view(acc@), d as int) == norm_product(
                tv,
                rv,
                fs,
                0,
                seq![Seq::<FactorV>::empty()],
                d as int,
            ),
        decreases q.factors.len() - k,
    {
        let nf = norm_factor_exec(t, rules, &q.factors[k], d + 1);
        proof {
            crate::ast::lemma_factors_view_index(nf@);
        }
        if nf.len() == 1 {
            acc = extend_each(&acc, &nf[0]);
        } else {
            acc = product_exec(&acc, &nf);
        }
        k = k + 1;
    }
    let mut out: Vec<Sequence> = Vec::new();
    let mut i: usize = 0;
    let ghost res = fss_view(acc@);
    proof {
        assert(seqs_view(out@) =~= Seq::<SeqV>::empty());
        assert(res.take(0).map_values(|x: Seq<FactorV>| SeqV { factors: x }) =~= Seq::<SeqV>::empty());
    }
    while i < acc.len()
        invariant
            i <= acc.len(),
            res == fss_view(acc@),
            seqs_view(out@) == res.take(i as int).map_values(|x: Seq<FactorV>| SeqV { factors: x }),
        decreases acc.len() - i,
    {
        let c = Sequence::new(clone_factor_vec(&acc[i]));
        let ghost before = out@;
        out.push(c);
        proof {
            lemma_seqs_view_push(before, c);
            assert(res.take(i + 1).map_values(|x: Seq<FactorV>| SeqV { factors: x }) =~= res.take(
                i as int,
            ).map_values(|x: Seq<FactorV>| SeqV { factors: x }).push(SeqV { factors: res[i as int] }));
        }
        i = i + 1;
    }
    proof {
        assert(res.take(acc.len() as int) =~= res);
    }
    out
}

/// A normalised factor (see `norm_factor`).
fn norm_factor_exec(t: &Vec<Rule>, rules: &Vec<Rule>, f: &Factor, d: usize) -> (r: Vec<Factor>)
    requires
        d <= 11,
    ensures
        factors_view(r@) == norm_factor(rules_view(t@), rules_view(rules@), factor_view(*f), d as int),
    decreases 11 - d, 0int, 0int,
{
    let ghost tv = rules_view(t@);
    let mut single: Vec<Factor> = Vec::new();
    if d > 10 {
        let c = crate::ast::clone_factor(f);
        single.push(c);
        proof {
            lemma_factors_view_push(Seq::empty(), c);
            assert(single@ =~= Seq::<Factor>::empty().push(c));
        }
        return single;
    }
    match &f.base {
        BaseFactor::Nonterminal { name, .. } => {
            proof {
                lemma_find_rule(tv, name@, 0);
            }
            let once = match &f.repetition {
                Repetition::Once => true,
                _ => false,
            };
            if is_inline(rules, name.as_str()) && once {
                match find_rule_index(t, name.as_str()) {
                    Some(j) => {
                        proof {
                            assert(tv[j as int] == rule_view(t@[j as int]));
                        }
                        return all_factors_exec(&t[j].alternatives);
                    },
                    None => {},
                }
            }
            let c = crate::ast::clone_factor(f);
            single.push(c);
            proof {
                lemma_factors_view_push(Seq::empty(), c);
                assert(single@ =~= Seq::<Factor>::empty().push(c));
            }
            single
        },
        BaseFactor::Group { alternatives } => {
            let inner = norm_alts_exec(t, rules, alternatives, d + 1);
            let c = Factor::new(
                BaseFactor::group(inner),
                crate::ast::clone_repetition(&f.repetition),
            );
            single.push(c);
            proof {
                lemma_factors_view_push(Seq::empty(), c);
                assert(single@ =~= Seq::<Factor>::empty().push(c));
            }
            single
        },
        _ => {
            let c = crate::ast::clone_factor(f);
            single.push(c);
            proof {
                lemma_factors_view_push(Seq::empty(), c);
                assert(single@ =~= Seq::<Factor>::empty().push(c));
            }
            single
        },
    }
}

/// The normalised grammar (rules not inlined, normalised).
fn normalize_rules(t: &Vec<Rule>, rules: &Vec<Rule>) -> (r: Vec<Rule>)
    ensures
        rules_view(r@) == norm_rules(rules_view(t@), rules_view(rules@), 0),
{
    let ghost tv = rules_view(t@);
    let ghost rv = rules_view(rules@);
    let mut out: Vec<Rule> = Vec::new();
    let mut i: usize = 0;
    proof {
        assert(rules_view(out@) =~= Seq::<RuleV>::empty());
        assert(rules_view(out@) + norm_rules(tv, rv, 0) =~= norm_rules(tv, rv, 0));
    }
    while i < rules.len()
        invariant
            i <= rules.len(),
            tv == rules_view(t@),
            rv == rules_view(rules@),
            rules_view(out@) + norm_rules(tv, rv, i as int) == norm_rules(tv, rv, 0),
        decreases rules.len() - i,
    {
        let ghost before = out@;
        proof {
            assert(rv[i as int] == rule_view(rules@[i as int]));
        }
        if !is_inline(rules, rules[i].name.as_str()) {
            let alts = norm_alts_exec(t, rules, &rules[i].alternatives, 0);
            let r = Rule::new(rules[i].name.clone(), rules[i].mark, alts);
            out.push(r);
            proof {
                assert(rules_view(out@) =~= rules_view(before).push(rule_view(r)));
                assert(rules_view(out@) + norm_rules(tv, rv, i + 1) =~= rules_view(before) + norm_rules(
                    tv,
                    rv,
                    i as int,
                ));
            }
        } else {
            proof {
                assert(rules_view(out@) + norm_rules(tv, rv, i + 1) =~= rules_view(before) + norm_rules(
                    tv,
                    rv,
                    i as int,
                ));
            }
        }
        i = i + 1;
    }
    proof {
        assert(rules_view(out@) =~= norm_rules(tv, rv, 0));
    }
    out
}

// ---------------------------------------------------------------------------
// Computing the ambiguity patterns
// ---------------------------------------------------------------------------

/// Whether an alternative starts with the nullable name `n`.
fn starts_nullable_exec(t: &Vec<Rule>, s: &Vec<bool>, q: &Sequence, n: &str) -> (r: bool)
    requires
        s.len() == t.len(),
    ensures
        r == starts_nullable(rules_view(t@), s@, sequence_view(*q), n@),
{
    proof {
        lemma_factors_view_index(q.factors@);
    }
    if q.factors.len() == 0 {
        return false;
    }
    proof {
        assert(sequence_view(*q).factors[0] == factor_view(q.factors@[0]));
    }
    match &q.factors[0].base {
        BaseFactor::Nonterminal { name, .. } => string_eq(name, n) && in_set_exec(t, s, n),
        _ => false,
    }
}

/// The nullable name an alternative starts with, if any.
fn first_nullable_name(t: &Vec<Rule>, s: &Vec<bool>, q: &Sequence) -> (r: Option<String>)
    requires
        s.len() == t.len(),
    ensures
        forall|n: Seq<char>| starts_nullable(rules_view(t@), s@, sequence_view(*q), n) <==> (r matches Some(x) && x@ == n),
{
    proof {
        lemma_factors_view_index(q.factors@);
    }
    if q.factors.len() == 0 {
        return None;
    }
    proof {
        assert(sequence_view(*q).factors[0] == factor_view(q.factors@[0]));
    }
    match &q.factors[0].base {
        BaseFactor::Nonterminal { name, .. } => {
            if in_set_exec(t, s, name.as_str()) {
                Some(name.clone())
            } else {
                None
            }
        },
        _ => None,
    }
}

/// Whether a factor could start with the nullable name `n`.
#[verifier::loop_isolation(false)]
fn could_start_exec(t: &Vec<Rule>, s: &Vec<bool>, f: &Factor, n: &str) -> (r: bool)
    requires
        s.len() == t.len(),
    ensures
        r == could_start(rules_view(t@), s@, factor_view(*f), n@),
{
    let ghost tv = rules_view(t@);
    match &f.base {
        BaseFactor::Nonterminal { name, mark } => {
            proof {
                assert(factor_view(*f).base == BaseV::Nonterminal { name: name@, mark: *mark });
            }
            if string_eq(name, n) && in_set_exec(t, s, name.as_str()) {
                return true;
            }
            proof {
                lemma_find_rule(tv, name@, 0);
            }
            match find_rule_index(t, name.as_str()) {
                None => false,
                Some(j) => {
                    let alts = &t[j].alternatives;
                    proof {
                        assert(tv[j as int] == rule_view(t@[j as int]));
                        lemma_seqs_view_index(alts.alts@);
                    }
                    let mut a: usize = 0;
                    while a < alts.alts.len()
                        invariant
                            s.len() == t.len(),
                            a <= alts.alts.len(),
                            tv == rules_view(t@),
                            j < t.len(),
                            alts == &t@[j as int].alternatives,
                            tv[j as int].alternatives == alts_view(*alts),
                            alts_view(*alts).alts.len() == alts.alts.len(),
                            forall|x: int| 0 <= x < alts.alts.len() ==> #[trigger] alts_view(*alts).alts[x] == sequence_view(alts.alts@[x]),
                            forall|x: int| 0 <= x < a ==> !starts_nullable(tv, s@, #[trigger] tv[j as int].alternatives.alts[x], n@),
                            find_rule(tv, name@, 0) == j as int,
                            !(name@ == n@ && in_set(tv, s@, name@)),
                        decreases alts.alts.len() - a,
                    {
                        if starts_nullable_exec(t, s, &alts.alts[a], n) {
                            proof {
                                assert(starts_nullable(tv, s@, tv[j as int].alternatives.alts[a as int], n@));
                                assert(alts_start_with(tv, s@, tv[j as int].alternatives, n@));
                            }
                            return true;
                        }
                        a = a + 1;
                    }
                    false
                },
            }
        },
        _ => false,
    }
}

/// Whether a rule shows a pattern of ambiguity.
#[verifier::loop_isolation(false)]
fn rule_ambiguous_exec(t: &Vec<Rule>, s: &Vec<bool>, rule: &Rule) -> (r: bool)
    requires
        s.len() == t.len(),
    ensures
        r == rule_ambiguous(rules_view(t@), s@, rule_view(*rule)),
{
    let ghost tv = rules_view(t@);
    let alts = &rule.alternatives.alts;
    let ghost qs = alts_view(rule.alternatives).alts;
    proof {
        lemma_seqs_view_index(alts@);
    }
    let n = alts.len();
    // two nullable alternatives
    let mut p1 = false;
    if n > 1 {
        let mut count: usize = 0;
        let mut i: usize = 0;
        while i < n
            invariant
                i <= n,
                count <= i,
                count + count_nullable(tv, s@, qs, i as int) == count_nullable(tv, s@, qs, 0),
            decreases n - i,
        {
            if seq_nullable_exec(t, s, &alts[i]) {
                count = count + 1;
            }
            i = i + 1;
        }
        p1 = count > 1;
    }
    // two alternatives starting with the same nullable name
    let mut p2 = false;
    if n > 1 {
        let mut a: usize = 0;
        while a < n && !p2
            invariant
                a <= n,
                !p2 ==> forall|x: int, y: int, m: Seq<char>|
                    0 <= x < y < n && x < a ==> !(#[trigger] starts_nullable(tv, s@, qs[x], m) && #[trigger] starts_nullable(tv, s@, qs[y], m)),
                p2 ==> exists|x: int, y: int, m: Seq<char>|
                    0 <= x < y < n && #[trigger] starts_nullable(tv, s@, qs[x], m) && #[trigger] starts_nullable(tv, s@, qs[y], m),
            decreases n - a,
        {
            match first_nullable_name(t, s, &alts[a]) {
                None => {
                    proof {
                        assert forall|y: int, m: Seq<char>| a < y < n implies !(#[trigger] starts_nullable(tv, s@, qs[a as int], m) && #[trigger] starts_nullable(tv, s@, qs[y], m)) by {
                            assert(!starts_nullable(tv, s@, sequence_view(alts@[a as int]), m));
                        }
                    }
                },
                Some(na) => {
                    let mut b: usize = a + 1;
                    while b < n && !p2
                        invariant
                            a < b <= n,
                            forall|m: Seq<char>| starts_nullable(tv, s@, qs[a as int], m) <==> m == na@,
                            p2 == exists|y: int| a < y < b && #[trigger] starts_nullable(tv, s@, qs[y], na@),
                        decreases n - b,
                    {
                        if starts_nullable_exec(t, s, &alts[b], na.as_str()) {
                            proof {
                                assert(starts_nullable(tv, s@, qs[b as int], na@));
                            }
                            p2 = true;
                        }
                        b = b + 1;
                    }
                    proof {
                        if p2 {
                            let y = choose|y: int| a < y < b && #[trigger] starts_nullable(tv, s@, qs[y], na@);
                            assert(starts_nullable(tv, s@, qs[a as int], na@));
                        } else {
                            assert forall|y: int, m: Seq<char>| a < y < n implies !(#[trigger] starts_nullable(tv, s@, qs[a as int], m) && #[trigger] starts_nullable(tv, s@, qs[y], m)) by {
                                if starts_nullable(tv, s@, qs[a as int], m) {
                                    assert(m == na@);
                                }
                            }
                        }
                    }
                },
            }
            a = a + 1;
        }
    }
    // a nullable name followed by a factor that could start with it
    let mut p3 = false;
    let mut i: usize = 0;
    while i < n && !p3
        invariant
            i <= n,
            p3 == exists|x: int| 0 <= x < i && nullable_then_same(tv, s@, #[trigger] qs[x]),
        decreases n - i,
    {
        let q = &alts[i];
        proof {
            assert(qs[i as int] == sequence_view(*q));
            lemma_factors_view_index(q.factors@);
        }
        let mut k: usize = 0;
        let mut found = false;
        while q.factors.len() > 0 && k < q.factors.len() - 1 && !found
            invariant
                k <= q.factors.len(),
                found == exists|y: int| 0 <= y < k && y < q.factors.len() - 1 && nullable_pair(tv, s@, #[trigger] qs[i as int].factors[y], qs[i as int].factors[y + 1]),
            decreases q.factors.len() - k,
        {
            proof {
                assert(qs[i as int].factors[k as int] == factor_view(q.factors@[k as int]));
                assert(qs[i as int].factors[k + 1] == factor_view(q.factors@[k + 1]));
            }
            let hit = match &q.factors[k].base {
                BaseFactor::Nonterminal { name, .. } => in_set_exec(t, s, name.as_str()) && could_start_exec(t, s, &q.factors[k + 1], name.as_str()),
                _ => false,
            };
            if hit {
                proof {
                    assert(nullable_pair(tv, s@, qs[i as int].factors[k as int], qs[i as int].factors[k + 1]));
                }
                found = true;
            }
            k = k + 1;
        }
        if found {
            proof {
                assert(nullable_then_same(tv, s@, qs[i as int]));
            }
            p3 = true;
        }
        i = i + 1;
    }
    proof {
        assert(rule_view(*rule).alternatives.alts == qs);
    }
    p1 || p2 || p3
}

/// Whether the grammar may be ambiguous.
#[verifier::loop_isolation(false)]
fn detect_ambiguity_patterns(rules: &Vec<Rule>) -> (r: bool)
    ensures
        r == ambiguous_s(rules_view(rules@)),
{
    let t = build_rule_table(rules);
    let ng = normalize_rules(&t, rules);
    let t2 = build_rule_table(&ng);
    let s2 = compute_nullable_set(&t2);
    let ghost ngv = rules_view(ng@);
    let mut i: usize = 0;
    while i < ng.len()
        invariant
            i <= ng.len(),
            s2.len() == t2.len(),
            ngv == rules_view(ng@),
            forall|x: int| 0 <= x < i ==> !rule_ambiguous(rules_view(t2@), s2@, #[trigger] ngv[x]),
        decreases ng.len() - i,
    {
        proof {
            assert(ngv[i as int] == rule_view(ng@[i as int]));
        }
        if rule_ambiguous_exec(&t2, &s2, &ng[i]) {
            proof {
                assert(ngv == normalized(rules_view(rules@)));
                assert(rules_view(t2@) == rule_table(ngv));
                assert(rule_ambiguous(rule_table(ngv), nullable_set(rule_table(ngv)), ngv[i as int]));
            }
            return true;
        }
        i = i + 1;
    }
    false
}

// ---------------------------------------------------------------------------
// The analysis
// ---------------------------------------------------------------------------

/// The names of the first `m` rules whose index satisfies `p`.
pub open spec fn names_upto(rs: Seq<RuleV>, m: int, p: spec_fn(int) -> bool) -> Set<Seq<char>> {
    Set::new(|n: Seq<char>| exists|x: int| 0 <= x < m && (#[trigger] rs[x]).name == n && p(x))
}

proof fn lemma_names_upto_step(rs: Seq<RuleV>, m: int, p: spec_fn(int) -> bool)
    requires
        0 <= m < rs.len(),
    ensures
        names_upto(rs, m + 1, p) == (if p(m) {
            names_upto(rs, m, p).insert(rs[m].name)
        } else {
            names_upto(rs, m, p)
        }),
{
    let a = names_upto(rs, m + 1, p);
    let b = if p(m) {
        names_upto(rs, m, p).insert(rs[m].name)
    } else {
        names_upto(rs, m, p)
    };
    assert forall|n: Seq<char>| a.contains(n) <==> b.contains(n) by {
        if a.contains(n) {
            let x = choose|x: int| 0 <= x < m + 1 && (#[trigger] rs[x]).name == n && p(x);
            if x < m {
                assert(names_upto(rs, m, p).contains(n));
            }
        }
        if names_upto(rs, m, p).contains(n) {
            let x = choose|x: int| 0 <= x < m && (#[trigger] rs[x]).name == n && p(x);
            assert(a.contains(n));
        }
        if p(m) && n == rs[m].name {
            assert(a.contains(n));
        }
    }
    assert(a =~= b);
}

/// The names of the grammar's rules that are recursive.
pub open spec fn recursive_names(rs: Seq<RuleV>) -> Set<Seq<char>> {
    Set::new(
        |n: Seq<char>|
            exists|m: int|
                0 <= m < rs.len() && (#[trigger] rs[m]).name == n && name_on_cycle(rule_table(rs), n),
    )
}

/// The names of the grammar's rules with a left-recursive definition.
pub open spec fn left_recursive_names(rs: Seq<RuleV>) -> Set<Seq<char>> {
    Set::new(
        |n: Seq<char>|
            exists|m: int|
                0 <= m < rs.len() && (#[trigger] rs[m]).name == n && def_left_recursive(rule_table(rs), rs[m]),
    )
}

/// The names of the grammar's rules with a definition carrying `mark`.
pub open spec fn marked_names(rs: Seq<RuleV>, mark: Mark) -> Set<Seq<char>> {
    Set::new(|n: Seq<char>| exists|m: int| 0 <= m < rs.len() && (#[trigger] rs[m]).name == n && rs[m].mark == mark)
}

/// The complexity of each rule of a table, in table order.
pub open spec fn score_table(t: Seq<RuleV>) -> Seq<(Seq<char>, nat)> {
    t.map_values(|r: RuleV| (r.name, cx_alts(r.alternatives)))
}

/// The view of a list of scores.
pub open spec fn scores_view(v: Seq<(String, usize)>) -> Seq<(Seq<char>, nat)> {
    v.map_values(|p: (String, usize)| (p.0@, p.1 as nat))
}

/// The score recorded for `n` at or after `k`, or 0.
pub open spec fn score_of(v: Seq<(Seq<char>, nat)>, n: Seq<char>, k: int) -> nat
    decreases v.len() - k,
{
    if k < 0 || k >= v.len() {
        0
    } else if v[k].0 == n {
        v[k].1
    } else {
        score_of(v, n, k + 1)
    }
}

/// Analysis results for an iXML grammar.
#[derive(Debug)]
pub struct GrammarAnalysis {
    /// Rules that derive themselves (directly or through other rules).
    pub recursive_rules: NameSet,
    /// Rules that derive themselves in the first position.
    pub left_recursive_rules: NameSet,
    /// Rules marked hidden (`-name`).
    pub hidden_rules: NameSet,
    /// Rules marked promoted (`^name`).
    pub promoted_rules: NameSet,
    /// Rules marked as attributes (`@name`).
    pub attribute_rules: NameSet,
    /// The complexity of each rule.
    pub complexity_scores: Vec<(String, usize)>,
    /// Whether the grammar may be ambiguous.
    pub is_potentially_ambiguous: bool,
}

impl GrammarAnalysis {
    /// Analyzes a grammar.
    pub fn analyze(grammar: &IxmlGrammar) -> (r: Self)
        requires
            forall|i: int|
                0 <= i < rule_table(rules_view(grammar.rules@)).len() ==> cx_alts(
                    #[trigger] rule_table(rules_view(grammar.rules@))[i].alternatives,
                ) <= usize::MAX,
        ensures
            r.recursive_rules.wf(),
            r.recursive_rules.view() == recursive_names(rules_view(grammar.rules@)),
            r.left_recursive_rules.wf(),
            r.left_recursive_rules.view() == left_recursive_names(rules_view(grammar.rules@)),
            r.hidden_rules.wf(),
            r.hidden_rules.view() == marked_names(rules_view(grammar.rules@), Mark::Hidden),
            r.promoted_rules.wf(),
            r.promoted_rules.view() == marked_names(rules_view(grammar.rules@), Mark::Promoted),
            r.attribute_rules.wf(),
            r.attribute_rules.view() == marked_names(rules_view(grammar.rules@), Mark::Attribute),
            scores_view(r.complexity_scores@) == score_table(rule_table(rules_view(grammar.rules@))),
            r.is_potentially_ambiguous == ambiguous_s(rules_view(grammar.rules@)),
    {
        let ghost rs = rules_view(grammar.rules@);
        let rules = &grammar.rules;
        let t = build_rule_table(rules);
        let ghost tv = rules_view(t@);
        proof {
            lemma_rule_table(rs);
        }
        let rec = cycle_flags(&t, false);
        let nullable = compute_nullable_set(&t);
        let adj = left_matrix(&t, &nullable);
        let mut recursive_rules = NameSet::new();
        let mut left_recursive_rules = NameSet::new();
        let mut hidden_rules = NameSet::new();
        let mut promoted_rules = NameSet::new();
        let mut attribute_rules = NameSet::new();
        let mut m: usize = 0;
        let ghost p_rec = |x: int| name_on_cycle(tv, rs[x].name);
        let ghost p_left = |x: int| def_left_recursive(tv, rs[x]);
        let ghost p_hidden = |x: int| rs[x].mark == Mark::Hidden;
        let ghost p_promoted = |x: int| rs[x].mark == Mark::Promoted;
        let ghost p_attr = |x: int| rs[x].mark == Mark::Attribute;
        proof {
            assert(recursive_rules.view() =~= names_upto(rs, 0, p_rec));
            assert(left_recursive_rules.view() =~= names_upto(rs, 0, p_left));
            assert(hidden_rules.view() =~= names_upto(rs, 0, p_hidden));
            assert(promoted_rules.view() =~= names_upto(rs, 0, p_promoted));
            assert(attribute_rules.view() =~= names_upto(rs, 0, p_attr));
        }
        while m < rules.len()
            invariant
                m <= rules.len(),
                rs == rules_view(rules@),
                tv == rules_view(t@),
                tv == rule_table(rs),
                rec.len() == t.len(),
                forall|i: int| 0 <= i < t.len() ==> #[trigger] rec@[i] == on_cycle(tv, false, i),
                nullable@ == nullable_set(tv),
                nullable.len() == t.len(),
                adj.len() == t.len(),
                forall|x: int| 0 <= x < t.len() ==> (#[trigger] adj@[x]).len() == t.len(),
                forall|x: int, j: int|
                    0 <= x < t.len() && 0 <= j < t.len() ==> #[trigger] adj@[x]@[j] == first_names_alts(
                        tv,
                        nullable@,
                        tv[x].alternatives,
                        tv[j].name,
                    ),
                forall|x: int| 0 <= x < rs.len() ==> names_of(tv).contains(#[trigger] rs[x].name),
                recursive_rules.wf(),
                left_recursive_rules.wf(),
                hidden_rules.wf(),
                promoted_rules.wf(),
                attribute_rules.wf(),
                forall|x: int| #[trigger] p_rec(x) == name_on_cycle(tv, rs[x].name),
                forall|x: int| #[trigger] p_left(x) == def_left_recursive(tv, rs[x]),
                forall|x: int| #[trigger] p_hidden(x) == (rs[x].mark == Mark::Hidden),
                forall|x: int| #[trigger] p_promoted(x) == (rs[x].mark == Mark::Promoted),
                forall|x: int| #[trigger] p_attr(x) == (rs[x].mark == Mark::Attribute),
                recursive_rules.view() == names_upto(rs, m as int, p_rec),
                left_recursive_rules.view() == names_upto(rs, m as int, p_left),
                hidden_rules.view() == names_upto(rs, m as int, p_hidden),
                promoted_rules.view() == names_upto(rs, m as int, p_promoted),
                attribute_rules.view() == names_upto(rs, m as int, p_attr),
            decreases rules.len() - m,
        {
            let rule = &rules[m];
            let name = rule.name.as_str();
            let ghost rv = rs[m as int];
            proof {
                assert(rv == rule_view(*rule));
                lemma_find_rule(tv, name@, 0);
                assert(names_of(tv).contains(rv.name));
                let w = choose|w: int| 0 <= w < names_of(tv).len() && names_of(tv)[w] == rv.name;
                assert(tv[w].name == rv.name);
            }
            let is_rec = match find_rule_index(&t, name) {
                Some(j) => rec[j],
                None => false,
            };
            let ghost old_rec = recursive_rules.view();
            let ghost old_left = left_recursive_rules.view();
            let ghost old_hidden = hidden_rules.view();
            let ghost old_promoted = promoted_rules.view();
            let ghost old_attr = attribute_rules.view();
            if is_rec {
                recursive_rules.insert(name);
            }
            if is_rec && left_reaches_exec(&t, &nullable, &adj, &rule.alternatives, name) {
                left_recursive_rules.insert(name);
            }
            match rule.mark {
                Mark::Hidden => {
                    hidden_rules.insert(name);
                },
                Mark::Promoted => {
                    promoted_rules.insert(name);
                },
                Mark::Attribute => {
                    attribute_rules.insert(name);
                },
                Mark::Unmarked => {},
            }
            proof {
                assert(p_rec(m as int) == name_on_cycle(tv, rv.name));
                assert(is_rec == p_rec(m as int));
                assert(rv.alternatives == alts_view(rule.alternatives));
                assert(p_left(m as int) == (is_rec && left_reaches(tv, nullable@, alts_view(rule.alternatives), name@)));
                lemma_names_upto_step(rs, m as int, p_rec);
                lemma_names_upto_step(rs, m as int, p_left);
                lemma_names_upto_step(rs, m as int, p_hidden);
                lemma_names_upto_step(rs, m as int, p_promoted);
                lemma_names_upto_step(rs, m as int, p_attr);
            }
            m = m + 1;
        }
        proof {
            assert(recursive_rules.view() =~= recursive_names(rs)) by {
                assert forall|n: Seq<char>| recursive_rules.view().contains(n) <==> recursive_names(rs).contains(n) by {
                    if recursive_names(rs).contains(n) {
                        let x = choose|x: int| 0 <= x < rs.len() && (#[trigger] rs[x]).name == n && name_on_cycle(rule_table(rs), n);
                        assert(p_rec(x));
                    }
                }
            }
            assert(left_recursive_rules.view() =~= left_recursive_names(rs));
            assert(hidden_rules.view() =~= marked_names(rs, Mark::Hidden));
            assert(promoted_rules.view() =~= marked_names(rs, Mark::Promoted));
            assert(attribute_rules.view() =~= marked_names(rs, Mark::Attribute));
        }
        let mut complexity_scores: Vec<(String, usize)> = Vec::new();
        let mut i: usize = 0;
        while i < t.len()
            invariant
                i <= t.len(),
                tv == rules_view(t@),
                tv == rule_table(rs),
                forall|x: int| 0 <= x < tv.len() ==> cx_alts(#[trigger] tv[x].alternatives) <= usize::MAX,
                scores_view(complexity_scores@) == score_table(tv).take(i as int),
            decreases t.len() - i,
        {
            proof {
                assert(tv[i as int] == rule_view(t@[i as int]));
                assert(tv[i as int].alternatives == alts_view(t@[i as int].alternatives));
                assert(cx_alts(tv[i as int].alternatives) <= usize::MAX);
            }
            let score = calculate_complexity(&t[i].alternatives);
            let ghost before = complexity_scores@;
            complexity_scores.push((t[i].name.clone(), score));
            proof {
                assert(scores_view(complexity_scores@) =~= scores_view(before).push((t@[i as int].name@, score as nat)));
                assert(score_table(tv)[i as int] == (tv[i as int].name, cx_alts(tv[i as int].alternatives)));
                assert(score_table(tv).take(i + 1) =~= score_table(tv).take(i as int).push(score_table(tv)[i as int]));
                assert(scores_view(complexity_scores@) =~= score_table(tv).take(i + 1));
            }
            i = i + 1;
        }
        proof {
            assert(score_table(tv).take(t.len() as int) =~= score_table(tv));
        }
        let is_potentially_ambiguous = detect_ambiguity_patterns(rules);
        GrammarAnalysis {
            recursive_rules,
            left_recursive_rules,
            hidden_rules,
            promoted_rules,
            attribute_rules,
            complexity_scores,
            is_potentially_ambiguous,
        }
    }

    /// Whether a rule is recursive.
    pub fn is_recursive(&self, rule_name: &str) -> (r: bool)
        ensures
            r == self.recursive_rules.view().contains(rule_name@),
    {
        self.recursive_rules.contains(rule_name)
    }

    /// Whether a rule is left-recursive.
    pub fn is_left_recursive(&self, rule_name: &str) -> (r: bool)
        ensures
            r == self.left_recursive_rules.view().contains(rule_name@),
    {
        self.left_recursive_rules.contains(rule_name)
    }

    /// The complexity of a rule (0 for an unknown rule).
    pub fn complexity(&self, rule_name: &str) -> (r: usize)
        ensures
            r == score_of(scores_view(self.complexity_scores@), rule_name@, 0),
    {
        let ghost v = scores_view(self.complexity_scores@);
        let mut i: usize = 0;
        while i < self.complexity_scores.len()
            invariant
                i <= self.complexity_scores.len(),
                v == scores_view(self.complexity_scores@),
                score_of(v, rule_name@, 0) == score_of(v, rule_name@, i as int),
            decreases self.complexity_scores.len() - i,
        {
            if string_eq(&self.complexity_scores[i].0, rule_name) {
                return self.complexity_scores[i].1;
            }
            i = i + 1;
        }
        0
    }
}

// ---------------------------------------------------------------------------
// The report
// ---------------------------------------------------------------------------

/// One line per name, `   - name`, for the names not in `skip`.
pub open spec fn name_lines(names: Seq<String>, skip: Set<Seq<char>>) -> Seq<char>
    decreases names.len(),
{
    if names.len() == 0 {
        Seq::empty()
    } else {
        name_lines(names.drop_last(), skip) + (if skip.contains(names.last()@) {
            Seq::empty()
        } else {
            "   - "@ + names.last()@ + seq!['\n']
        })
    }
}

/// One line per score above 10: `   - name (complexity: score)`.
pub open spec fn score_lines(scores: Seq<(String, usize)>) -> Seq<char>
    decreases scores.len(),
{
    if scores.len() == 0 {
        Seq::empty()
    } else {
        score_lines(scores.drop_last()) + (if scores.last().1 > 10 {
            "   - "@ + scores.last().0@ + " (complexity: "@ + decimal(scores.last().1 as nat)
                + ")\n"@
        } else {
            Seq::empty()
        })
    }
}

/// Whether some score is above 10.
pub open spec fn any_high(scores: Seq<(String, usize)>) -> bool {
    exists|i: int| 0 <= i < scores.len() && (#[trigger] scores[i]).1 > 10
}

/// The section on ambiguity.
pub open spec fn sec_amb(ambiguous: bool) -> Seq<char> {
    if ambiguous {
        "⚠️  Grammar may be ambiguous (multiple parse trees possible)\n"@
            + "   Parse output will be marked with ixml:state=\"ambiguous\"\n"@ + seq!['\n']
    } else {
        Seq::empty()
    }
}

/// The section on left-recursive rules.
pub open spec fn sec_left(left: Seq<String>) -> Seq<char> {
    if left.len() > 0 {
        "⚠️  Left-recursive rules (may cause infinite loops):\n"@ + name_lines(left, Set::empty())
            + seq!['\n']
    } else {
        Seq::empty()
    }
}

/// The section on the other recursive rules.
pub open spec fn sec_rec(recursive: Seq<String>, left_set: Set<Seq<char>>) -> Seq<char> {
    if recursive.len() > 0 {
        "ℹ️  Recursive rules (normal, but watch for performance):\n"@ + name_lines(recursive, left_set)
            + seq!['\n']
    } else {
        Seq::empty()
    }
}

/// The section on complex rules.
pub open spec fn sec_high(scores: Seq<(String, usize)>) -> Seq<char> {
    if any_high(scores) {
        "ℹ️  High complexity rules (may be slow to parse):\n"@ + score_lines(scores) + seq!['\n']
    } else {
        Seq::empty()
    }
}

/// The report of an analysis: ambiguity, left-recursive rules, the other
/// recursive rules and the complex rules, each in a section of its own; or
/// that there is nothing to report.
pub open spec fn report_s(
    ambiguous: bool,
    left: Seq<String>,
    left_set: Set<Seq<char>>,
    recursive: Seq<String>,
    scores: Seq<(String, usize)>,
) -> Seq<char> {
    let body = sec_amb(ambiguous) + sec_left(left) + sec_rec(recursive, left_set) + sec_high(scores);
    if body.len() == 0 {
        "✅ No issues detected\n"@
    } else {
        body
    }
}

/// Appends the lines for `names` not in `skip`.
fn push_name_lines(out: &mut String, names: &Vec<String>, skip: &NameSet)
    ensures
        final(out)@ == old(out)@ + name_lines(names@, skip.view()),
{
    let ghost start = out@;
    let mut i: usize = 0;
    while i < names.len()
        invariant
            i <= names.len(),
            out@ == start + name_lines(names@.take(i as int), skip.view()),
        decreases names.len() - i,
    {
        proof {
            assert(names@.take(i + 1).drop_last() =~= names@.take(i as int));
            assert(names@.take(i + 1).last() == names@[i as int]);
        }
        if !skip.contains(names[i].as_str()) {
            append_str(out, "   - ");
            append_str(out, names[i].as_str());
            crate::text::push_char(out, '\n');
        }
        proof {
            assert(out@ =~= start + name_lines(names@.take(i + 1), skip.view()));
        }
        i = i + 1;
    }
    proof {
        assert(names@.take(names.len() as int) =~= names@);
    }
}

impl GrammarAnalysis {
    /// A human-readable report of the grammar's issues.
    #[verifier::rlimit(40)]
    pub fn report(&self) -> (r: String)
        requires
            self.left_recursive_rules.wf(),
        ensures
            r@ == report_s(
                self.is_potentially_ambiguous,
                self.left_recursive_rules.list(),
                self.left_recursive_rules.view(),
                self.recursive_rules.list(),
                self.complexity_scores@,
            ),
    {
        let mut report = String::new();
        if self.is_potentially_ambiguous {
            append_str(&mut report, "⚠️  Grammar may be ambiguous (multiple parse trees possible)\n");
            append_str(&mut report, "   Parse output will be marked with ixml:state=\"ambiguous\"\n");
            crate::text::push_char(&mut report, '\n');
        }
        let ghost after_amb = report@;
        proof {
            assert(after_amb =~= sec_amb(self.is_potentially_ambiguous));
        }
        let left = self.left_recursive_rules.names();
        if left.len() > 0 {
            append_str(&mut report, "⚠️  Left-recursive rules (may cause infinite loops):\n");
            let none = NameSet::new();
            push_name_lines(&mut report, left, &none);
            crate::text::push_char(&mut report, '\n');
        }
        let ghost after_left = report@;
        proof {
            assert(after_left =~= after_amb + sec_left(self.left_recursive_rules.list()));
        }
        let recursive = self.recursive_rules.names();
        if recursive.len() > 0 {
            append_str(&mut report, "ℹ️  Recursive rules (normal, but watch for performance):\n");
            push_name_lines(&mut report, recursive, &self.left_recursive_rules);
            crate::text::push_char(&mut report, '\n');
        }
        let ghost after_rec = report@;
        proof {
            assert(after_rec =~= after_left + sec_rec(self.recursive_rules.list(), self.left_recursive_rules.view()));
        }
        let scores = &self.complexity_scores;
        let mut high = false;
        let mut i: usize = 0;
        while i < scores.len()
            invariant
                i <= scores.len(),
                high == exists|x: int| 0 <= x < i && (#[trigger] scores@[x]).1 > 10,
            decreases scores.len() - i,
        {
            if scores[i].1 > 10 {
                high = true;
            }
            i = i + 1;
        }
        if high {
            append_str(&mut report, "ℹ️  High complexity rules (may be slow to parse):\n");
            let ghost start = report@;
            let mut i: usize = 0;
            while i < scores.len()
                invariant
                    i <= scores.len(),
                    report@ == start + score_lines(scores@.take(i as int)),
                decreases scores.len() - i,
            {
                proof {
                    assert(scores@.take(i + 1).drop_last() =~= scores@.take(i as int));
                    assert(scores@.take(i + 1).last() == scores@[i as int]);
                }
                if scores[i].1 > 10 {
                    append_str(&mut report, "   - ");
                    append_str(&mut report, scores[i].0.as_str());
                    append_str(&mut report, " (complexity: ");
                    push_decimal(&mut report, scores[i].1);
                    append_str(&mut report, ")\n");
                }
                proof {
                    assert(report@ =~= start + score_lines(scores@.take(i + 1)));
                }
                i = i + 1;
            }
            proof {
                assert(scores@.take(scores.len() as int) =~= scores@);
            }
            crate::text::push_char(&mut report, '\n');
        }
        proof {
            assert(report@ =~= after_rec + sec_high(self.complexity_scores@));
        }
        if report.as_str().is_empty() {
            return String::from_str("✅ No issues detected\n");
        }
        report
    }
}

// ---------------------------------------------------------------------------
// Laws
// ---------------------------------------------------------------------------

/// Every rule that the analysis finds left-recursive it also finds recursive.
pub proof fn law_left_recursive_rules_are_recursive(rs: Seq<RuleV>)
    ensures
        left_recursive_names(rs).subset_of(recursive_names(rs)),
{
    assert forall|n: Seq<char>| left_recursive_names(rs).contains(n) implies recursive_names(rs).contains(n) by {
        let m = choose|m: int|
            0 <= m < rs.len() && (#[trigger] rs[m]).name == n && def_left_recursive(rule_table(rs), rs[m]);
        assert(name_on_cycle(rule_table(rs), n));
    }
}

/// Whether every rule in `a` is in `b` (sets of the same table).
pub open spec fn within(a: Seq<bool>, b: Seq<bool>) -> bool {
    a.len() == b.len() && forall|i: int| 0 <= i < a.len() && #[trigger] a[i] ==> b[i]
}

/// The number of rules in a set.
pub open spec fn members(s: Seq<bool>) -> nat
    decreases s.len(),
{
    if s.len() == 0 {
        0
    } else {
        members(s.drop_last()) + if s.last() {
            1nat
        } else {
            0nat
        }
    }
}

proof fn lemma_members_bound(s: Seq<bool>)
    ensures
        members(s) <= s.len(),
    decreases s.len(),
{
    if s.len() > 0 {
        lemma_members_bound(s.drop_last());
    }
}

proof fn lemma_members_grow(a: Seq<bool>, b: Seq<bool>)
    requires
        within(a, b),
    ensures
        members(a) <= members(b),
        a != b ==> members(a) < members(b),
    decreases a.len(),
{
    if a.len() > 0 {
        let a0 = a.drop_last();
        let b0 = b.drop_last();
        assert(within(a0, b0)) by {
            assert forall|i: int| 0 <= i < a0.len() && #[trigger] a0[i] implies b0[i] by {
                assert(a[i]);
            }
        }
        lemma_members_grow(a0, b0);
        assert(a.last() ==> b.last()) by {
            assert(a[a.len() - 1] ==> b[a.len() - 1]);
        }
        if a != b && a0 == b0 {
            if a.last() == b.last() {
                assert(a =~= b) by {
                    assert forall|i: int| 0 <= i < a.len() implies a[i] == b[i] by {
                        if i < a.len() - 1 {
                            assert(a[i] == a0[i] && b[i] == b0[i]);
                        }
                    }
                }
            }
        }
    } else {
        assert(a =~= b);
    }
}

proof fn lemma_inner_nullable_monotone(t: Seq<RuleV>, a: Seq<bool>, b: Seq<bool>, f: FactorV)
    requires
        within(a, b),
    ensures
        inner_nullable(t, a, f) ==> inner_nullable(t, b, f),
{
    if let BaseV::Nonterminal { name, .. } = f.base {
        let j = find_rule(t, name, 0);
        if 0 <= j < a.len() && a[j] {
            assert(b[j]);
        }
    }
}

proof fn lemma_factor_nullable_monotone(t: Seq<RuleV>, a: Seq<bool>, b: Seq<bool>, f: FactorV)
    requires
        within(a, b),
    ensures
        factor_nullable(t, a, f) ==> factor_nullable(t, b, f),
{
    match f.base {
        BaseV::Nonterminal { name, .. } => {
            let j = find_rule(t, name, 0);
            if 0 <= j < a.len() && a[j] {
                assert(b[j]);
            }
        },
        BaseV::Group { alternatives } => {
            if group_nullable(t, a, alternatives) {
                let i = choose|i: int|
                    0 <= i < alternatives.alts.len() && inner_seq_nullable(t, a, #[trigger] alternatives.alts[i]);
                assert forall|k: int| 0 <= k < alternatives.alts[i].factors.len() implies inner_nullable(
                    t,
                    b,
                    #[trigger] alternatives.alts[i].factors[k],
                ) by {
                    lemma_inner_nullable_monotone(t, a, b, alternatives.alts[i].factors[k]);
                }
                assert(inner_seq_nullable(t, b, alternatives.alts[i]));
            }
        },
        _ => {},
    }
}

proof fn lemma_step_monotone(t: Seq<RuleV>, a: Seq<bool>, b: Seq<bool>)
    requires
        within(a, b),
        a.len() == t.len(),
    ensures
        within(nullable_step(t, a), nullable_step(t, b)),
{
    assert forall|i: int| 0 <= i < t.len() && #[trigger] nullable_step(t, a)[i] implies nullable_step(t, b)[i] by {
        if !a[i] {
            let alts = t[i].alternatives;
            let x = choose|x: int| 0 <= x < alts.alts.len() && seq_nullable(t, a, #[trigger] alts.alts[x]);
            assert forall|k: int| 0 <= k < alts.alts[x].factors.len() implies factor_nullable(
                t,
                b,
                #[trigger] alts.alts[x].factors[k],
            ) by {
                lemma_factor_nullable_monotone(t, a, b, alts.alts[x].factors[k]);
            }
            assert(seq_nullable(t, b, alts.alts[x]));
        }
    }
}

proof fn lemma_iter_fixpoint(t: Seq<RuleV>, s: Seq<bool>, fuel: nat)
    requires
        s.len() == t.len(),
        fuel + members(s) > t.len(),
    ensures
        nullable_step(t, nullable_iter(t, s, fuel)) == nullable_iter(t, s, fuel),
        nullable_iter(t, s, fuel).len() == t.len(),
    decreases fuel,
{
    lemma_members_bound(s);
    if fuel > 0 {
        let next = nullable_step(t, s);
        if next != s {
            assert(within(s, next));
            lemma_members_grow(s, next);
            lemma_iter_fixpoint(t, next, (fuel - 1) as nat);
        }
    }
}

proof fn lemma_iter_below(t: Seq<RuleV>, s: Seq<bool>, fuel: nat, f: Seq<bool>)
    requires
        s.len() == t.len(),
        within(s, f),
        nullable_step(t, f) == f,
    ensures
        within(nullable_iter(t, s, fuel), f),
    decreases fuel,
{
    if fuel > 0 {
        let next = nullable_step(t, s);
        if next != s {
            lemma_step_monotone(t, s, f);
            lemma_iter_below(t, next, (fuel - 1) as nat, f);
        }
    }
}

/// The nullable rules are the least set that one more round leaves
/// unchanged: a round adds nothing to them, and they are within every set
/// that a round leaves unchanged.  Rounds repeated until nothing changes
/// give exactly this set, in whatever order the rules are visited.
pub proof fn law_nullable_set_is_least_fixpoint(t: Seq<RuleV>)
    ensures
        nullable_step(t, nullable_set(t)) == nullable_set(t),
        forall|f: Seq<bool>|
            f.len() == t.len() && #[trigger] nullable_step(t, f) == f ==> within(nullable_set(t), f),
{
    let empty = Seq::new(t.len(), |i: int| false);
    lemma_iter_fixpoint(t, empty, t.len() + 1);
    assert forall|f: Seq<bool>| f.len() == t.len() && #[trigger] nullable_step(t, f) == f implies within(
        nullable_set(t),
        f,
    ) by {
        lemma_iter_below(t, empty, t.len() + 1, f);
    }
}

proof fn lemma_reach_len(t: Seq<RuleV>, deep: bool, i: int, k: nat)
    ensures
        reach(t, deep, i, k).len() == t.len(),
    decreases k,
{
    if k > 1 {
        lemma_reach_len(t, deep, i, (k - 1) as nat);
    }
}

/// One more step of reachability only adds rules.
proof fn lemma_reach_grows(t: Seq<RuleV>, deep: bool, i: int, k: nat)
    requires
        k >= 1,
    ensures
        within(reach(t, deep, i, k), reach(t, deep, i, k + 1)),
{
    lemma_reach_len(t, deep, i, k);
    lemma_reach_len(t, deep, i, k + 1);
}

/// Once a step adds nothing, no later step does.
proof fn lemma_reach_stable(t: Seq<RuleV>, deep: bool, i: int, k: nat, m: nat)
    requires
        k >= 1,
        m >= k,
        reach(t, deep, i, k) == reach(t, deep, i, k + 1),
    ensures
        reach(t, deep, i, m) == reach(t, deep, i, k),
    decreases m - k,
{
    if m > k {
        lemma_reach_stable(t, deep, i, k, (m - 1) as nat);
        let r = reach(t, deep, i, (m - 1) as nat);
        assert(reach(t, deep, i, m) =~= reach(t, deep, i, k + 1)) by {
            lemma_reach_len(t, deep, i, m);
            lemma_reach_len(t, deep, i, k + 1);
            assert(r == reach(t, deep, i, k));
        }
    }
}

proof fn lemma_reach_chain(t: Seq<RuleV>, deep: bool, i: int, k: nat)
    requires
        k >= 1,
        forall|m: nat| 1 <= m < k ==> #[trigger] reach(t, deep, i, m) != reach(t, deep, i, m + 1),
    ensures
        members(reach(t, deep, i, k)) >= k - 1 + members(reach(t, deep, i, 1)),
    decreases k,
{
    if k > 1 {
        let p = (k - 1) as nat;
        lemma_reach_chain(t, deep, i, p);
        lemma_reach_grows(t, deep, i, p);
        assert(reach(t, deep, i, p) != reach(t, deep, i, p + 1));
        lemma_members_grow(reach(t, deep, i, p), reach(t, deep, i, k));
    }
}

/// Reachability settles within as many steps as the table has rules: a
/// rule reached in any number of steps is reached in that many.  So
/// `on_cycle` and `recursive_at`, which look that far, find every cycle.
pub proof fn law_reach_settles(t: Seq<RuleV>, deep: bool, i: int, k: nat)
    requires
        k >= t.len(),
    ensures
        reach(t, deep, i, k) == reach(t, deep, i, t.len()),
{
    let n = t.len();
    lemma_reach_len(t, deep, i, k);
    lemma_reach_len(t, deep, i, n);
    if n == 0 {
        assert(reach(t, deep, i, k) =~= reach(t, deep, i, n));
    } else if exists|m: nat| 1 <= m <= n && #[trigger] reach(t, deep, i, m) == reach(t, deep, i, m + 1) {
        let m = choose|m: nat| 1 <= m <= n && #[trigger] reach(t, deep, i, m) == reach(t, deep, i, m + 1);
        lemma_reach_stable(t, deep, i, m, k);
        lemma_reach_stable(t, deep, i, m, n);
    } else {
        lemma_reach_chain(t, deep, i, n + 1);
        lemma_members_bound(reach(t, deep, i, n + 1));
        lemma_reach_len(t, deep, i, n + 1);
        lemma_reach_len(t, deep, i, 1);
        lemma_reach_len(t, deep, i, 2);
        // The first step reaches some rule, or the second step adds nothing.
        if members(reach(t, deep, i, 1)) == 0 {
            let r = reach(t, deep, i, 1);
            assert(forall|j: int| 0 <= j < r.len() ==> !r[j]) by {
                lemma_members_zero(r);
            }
            assert(reach(t, deep, i, 2) =~= r);
            assert(reach(t, deep, i, 1) == reach(t, deep, i, 1 + 1));
        }
    }
}

proof fn lemma_members_zero(s: Seq<bool>)
    requires
        members(s) == 0,
    ensures
        forall|j: int| 0 <= j < s.len() ==> !s[j],
    decreases s.len(),
{
    if s.len() > 0 {
        lemma_members_zero(s.drop_last());
        assert forall|j: int| 0 <= j < s.len() implies !s[j] by {
            if j < s.len() - 1 {
                assert(s[j] == s.drop_last()[j]);
            }
        }
    }
}

/// The analysis speaks only of the grammar's rules: every rule it finds
/// recursive is one of them, and the complexity table holds each distinct
/// rule name once.
pub proof fn law_analysis_covers_rule_names(rs: Seq<RuleV>)
    ensures
        forall|n: Seq<char>| recursive_names(rs).contains(n) ==> names_of(rs).contains(n),
        left_recursive_names(rs).subset_of(recursive_names(rs)),
        forall|n: Seq<char>|
            score_table(rule_table(rs)).map_values(|p: (Seq<char>, nat)| p.0).contains(n)
                <==> names_of(rs).contains(n),
        score_table(rule_table(rs)).map_values(|p: (Seq<char>, nat)| p.0).no_duplicates(),
{
    law_left_recursive_rules_are_recursive(rs);
    crate::native_parser::law_one_rule_per_name(rs);
    lemma_rule_table(rs);
    let t = rule_table(rs);
    let keys = score_table(t).map_values(|p: (Seq<char>, nat)| p.0);
    assert(keys =~= names_of(t));
    assert forall|n: Seq<char>| recursive_names(rs).contains(n) implies names_of(rs).contains(n) by {
        let m = choose|m: int| 0 <= m < rs.len() && (#[trigger] rs[m]).name == n && name_on_cycle(rule_table(rs), n);
        assert(names_of(rs)[m] == n);
    }
    assert(names_of(t).no_duplicates()) by {
        assert forall|a: int, b: int| 0 <= a < names_of(t).len() && 0 <= b < names_of(t).len() && a != b
            implies names_of(t)[a] != names_of(t)[b] by {
            if a < b {
                assert(t[a].name != t[b].name);
            } else {
                assert(t[b].name != t[a].name);
            }
        }
    }
}

/// The report says "✅ No issues detected" exactly when there is nothing to
/// report: the grammar is not flagged as ambiguous, no rule is recursive or
/// left-recursive, and no rule's complexity is above 10.
pub proof fn law_report_no_issues(
    ambiguous: bool,
    left: Seq<String>,
    left_set: Set<Seq<char>>,
    recursive: Seq<String>,
    scores: Seq<(String, usize)>,
)
    ensures
        (report_s(ambiguous, left, left_set, recursive, scores) == "✅ No issues detected\n"@) <==> (
        !ambiguous && left.len() == 0 && recursive.len() == 0 && !any_high(scores)),
{
    reveal_strlit("✅ No issues detected\n");
    reveal_strlit("⚠️  Grammar may be ambiguous (multiple parse trees possible)\n");
    reveal_strlit("⚠️  Left-recursive rules (may cause infinite loops):\n");
    reveal_strlit("ℹ️  Recursive rules (normal, but watch for performance):\n");
    reveal_strlit("ℹ️  High complexity rules (may be slow to parse):\n");
    let a = sec_amb(ambiguous);
    let l = sec_left(left);
    let r = sec_rec(recursive, left_set);
    let h = sec_high(scores);
    let body = a + l + r + h;
    let msg = "✅ No issues detected\n"@;
    if ambiguous || left.len() > 0 || recursive.len() > 0 || any_high(scores) {
        let first = if ambiguous {
            a
        } else if left.len() > 0 {
            l
        } else if recursive.len() > 0 {
            r
        } else {
            h
        };
        assert(first.len() > 0 && (first[0] == '⚠' || first[0] == 'ℹ'));
        if ambiguous {
            assert(body[0] == a[0]);
        } else if left.len() > 0 {
            assert(a.len() == 0);
            assert(body[0] == l[0]);
        } else if recursive.len() > 0 {
            assert(a.len() == 0 && l.len() == 0);
            assert(body[0] == r[0]);
        } else {
            assert(a.len() == 0 && l.len() == 0 && r.len() == 0);
            assert(body[0] == h[0]);
        }
        assert(body.len() > 0);
        assert(msg[0] == '✅');
        assert(body != msg);
    } else {
        assert(body.len() == 0);
    }
}


/// What one step reaches stays reached after more steps.
proof fn lemma_successor_reached(t: Seq<RuleV>, deep: bool, i: int, j: int, k: nat)
    requires
        k >= 1,
        0 <= j < t.len(),
        refers(t, deep, i, j),
    ensures
        reach(t, deep, i, k)[j],
    decreases k,
{
    if k > 1 {
        lemma_successor_reached(t, deep, i, j, (k - 1) as nat);
        lemma_reach_grows(t, deep, i, (k - 1) as nat);
        lemma_reach_len(t, deep, i, (k - 1) as nat);
    }
}

/// Whether factor `f` names `n`: it is the nonterminal `n`, or a group
/// with the nonterminal `n` among the factors of one of its alternatives.
pub open spec fn names_directly_or_in_group(f: FactorV, n: Seq<char>) -> bool {
    ||| is_named(f, n)
    ||| f.base matches BaseV::Group { alternatives } && exists|i: int, k: int|
        0 <= i < alternatives.alts.len() && 0 <= k < alternatives.alts[i].factors.len()
            && is_named(#[trigger] alternatives.alts[i].factors[k], n)
}

/// A rule of the grammar that refers to itself, directly or inside a group
/// among its factors, is recursive: its name is among the recursive names.
pub proof fn law_self_reference_is_recursive(rs: Seq<RuleV>, j: int, i: int, k: int)
    requires
        0 <= j < rule_table(rs).len(),
        0 <= i < rule_table(rs)[j].alternatives.alts.len(),
        0 <= k < rule_table(rs)[j].alternatives.alts[i].factors.len(),
        names_directly_or_in_group(rule_table(rs)[j].alternatives.alts[i].factors[k], rule_table(rs)[j].name),
    ensures
        recursive_names(rs).contains(rule_table(rs)[j].name),
{
    let t = rule_table(rs);
    let n = t[j].name;
    let q = t[j].alternatives.alts[i];
    let f = q.factors[k];
    lemma_rule_table(rs);
    match f.base {
        BaseV::Group { alternatives } => {
            if !is_named(f, n) {
                let (i2, k2) = choose|i2: int, k2: int|
                    0 <= i2 < alternatives.alts.len() && 0 <= k2 < alternatives.alts[i2].factors.len()
                        && is_named(#[trigger] alternatives.alts[i2].factors[k2], n);
                assert(seq_names(alternatives.alts[i2], n));
                assert(group_names(alternatives, n));
            }
        },
        _ => {},
    }
    assert(factor_mentions(f, n));
    assert(seq_mentions(q, n));
    assert(mentions_shallow(t[j].alternatives, n));
    assert(refers(t, false, j, j));
    lemma_successor_reached(t, false, j, j, t.len());
    assert(on_cycle(t, false, j));
    lemma_find_rule(t, n, 0);
    let f0 = find_rule(t, n, 0);
    assert(f0 == j) by {
        if f0 != j {
            assert(t[f0].name == n);
            if f0 < j {
                assert(t[f0].name != t[j].name);
            } else {
                assert(t[j].name != t[f0].name);
            }
        }
    }
    assert(name_on_cycle(t, n));
    let m = choose|m: int| 0 <= m < rs.len() && (#[trigger] rule_table(rs)[j]).name == rs[m].name;
    assert(rs[m].name == n);
}

} // verus!
