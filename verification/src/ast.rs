//! Abstract syntax of an iXML grammar.
//!
//! A grammar is a list of rules; a rule has a name, a mark and a set of
//! alternatives; an alternative is a sequence of factors; a factor is a base
//! factor with an optional repetition.  Every type has a mathematical view in
//! which strings are character sequences and vectors are `Seq`s.
use vstd::prelude::*;

verus! {

/// The mark in front of a rule or a factor.
#[derive(Debug, Clone, Copy, PartialEq, Eq, Hash, Structural)]
pub enum Mark {
    /// No mark: the rule produces an element.
    Unmarked,
    /// `@`: the rule produces an attribute.
    Attribute,
    /// `-`: the rule is hidden.
    Hidden,
    /// `^`: the rule is promoted.
    Promoted,
}

/// An iXML grammar.
#[derive(Debug, PartialEq)]
pub struct IxmlGrammar {
    pub rules: Vec<Rule>,
}

/// One rule `name: alternatives.`
#[derive(Debug, PartialEq)]
pub struct Rule {
    pub name: String,
    pub mark: Mark,
    pub alternatives: Alternatives,
}

/// Alternatives separated by `|` or `;`.
#[derive(Debug, PartialEq)]
pub struct Alternatives {
    pub alts: Vec<Sequence>,
}

/// A sequence of factors.
#[derive(Debug, PartialEq)]
pub struct Sequence {
    pub factors: Vec<Factor>,
}

/// A base factor with its repetition.
#[derive(Debug, PartialEq)]
pub struct Factor {
    pub base: BaseFactor,
    pub repetition: Repetition,
}

/// The four kinds of base factor.
#[derive(Debug, PartialEq)]
pub enum BaseFactor {
    Literal { value: String, insertion: bool, mark: Mark },
    Nonterminal { name: String, mark: Mark },
    CharClass { content: String, negated: bool, mark: Mark },
    Group { alternatives: Box<Alternatives> },
}

/// Repetition operators.
#[derive(Debug, PartialEq)]
pub enum Repetition {
    /// Exactly once (no operator).
    Once,
    ZeroOrMore,
    OneOrMore,
    Optional,
    SeparatedZeroOrMore(Box<Sequence>),
    SeparatedOneOrMore(Box<Sequence>),
}

// ---------------------------------------------------------------------------
// Constructors
// ---------------------------------------------------------------------------

impl IxmlGrammar {
    pub fn new(rules: Vec<Rule>) -> (r: Self)
        ensures
            r.rules == rules,
    {
        IxmlGrammar { rules }
    }
}

impl Rule {
    pub fn new(name: String, mark: Mark, alternatives: Alternatives) -> (r: Self)
        ensures
            r.name == name,
            r.mark == mark,
            r.alternatives == alternatives,
    {
        Rule { name, mark, alternatives }
    }
}

impl Alternatives {
    pub fn new(alts: Vec<Sequence>) -> (r: Self)
        ensures
            r.alts == alts,
    {
        Alternatives { alts }
    }

    /// Alternatives with one sequence.
    pub fn single(seq: Sequence) -> (r: Self)
        ensures
            r.alts@ == seq![seq],
    {
        let mut alts: Vec<Sequence> = Vec::new();
        alts.push(seq);
        Alternatives { alts }
    }
}

impl Sequence {
    pub fn new(factors: Vec<Factor>) -> (r: Self)
        ensures
            r.factors == factors,
    {
        Sequence { factors }
    }
}

impl Factor {
    pub fn new(base: BaseFactor, repetition: Repetition) -> (r: Self)
        ensures
            r.base == base,
            r.repetition == repetition,
    {
        Factor { base, repetition }
    }

    /// A factor without repetition.
    pub fn simple(base: BaseFactor) -> (r: Self)
        ensures
            r.base == base,
            r.repetition == Repetition::Once,
    {
        Factor { base, repetition: Repetition::Once }
    }
}

impl BaseFactor {
    /// A literal to be matched.
    pub fn literal(value: String) -> (r: Self)
        ensures
            r == (BaseFactor::Literal { value, insertion: false, mark: Mark::Unmarked }),
    {
        BaseFactor::Literal { value, insertion: false, mark: Mark::Unmarked }
    }

    /// A literal with a mark.
    pub fn marked_literal(value: String, mark: Mark) -> (r: Self)
        ensures
            r == (BaseFactor::Literal { value, insertion: false, mark }),
    {
        BaseFactor::Literal { value, insertion: false, mark }
    }

    /// An insertion (`+"..."`): output without input.
    pub fn insertion(value: String) -> (r: Self)
        ensures
            r == (BaseFactor::Literal { value, insertion: true, mark: Mark::Unmarked }),
    {
        BaseFactor::Literal { value, insertion: true, mark: Mark::Unmarked }
    }

    /// A reference to a rule.
    pub fn nonterminal(name: String) -> (r: Self)
        ensures
            r == (BaseFactor::Nonterminal { name, mark: Mark::Unmarked }),
    {
        BaseFactor::Nonterminal { name, mark: Mark::Unmarked }
    }

    /// A reference to a rule, with a mark.
    pub fn marked_nonterminal(name: String, mark: Mark) -> (r: Self)
        ensures
            r == (BaseFactor::Nonterminal { name, mark }),
    {
        BaseFactor::Nonterminal { name, mark }
    }

    /// A character class.
    pub fn charclass(content: String) -> (r: Self)
        ensures
            r == (BaseFactor::CharClass { content, negated: false, mark: Mark::Unmarked }),
    {
        BaseFactor::CharClass { content, negated: false, mark: Mark::Unmarked }
    }

    /// An excluded character class (`~[...]`).
    pub fn negated_charclass(content: String) -> (r: Self)
        ensures
            r == (BaseFactor::CharClass { content, negated: true, mark: Mark::Unmarked }),
    {
        BaseFactor::CharClass { content, negated: true, mark: Mark::Unmarked }
    }

    /// A character class with a mark.
    pub fn marked_charclass(content: String, negated: bool, mark: Mark) -> (r: Self)
        ensures
            r == (BaseFactor::CharClass { content, negated, mark }),
    {
        BaseFactor::CharClass { content, negated, mark }
    }

    /// A parenthesised group of alternatives.
    pub fn group(alternatives: Alternatives) -> (r: Self)
        ensures
            r == (BaseFactor::Group { alternatives: Box::new(alternatives) }),
    {
        BaseFactor::Group { alternatives: Box::new(alternatives) }
    }
}

// ---------------------------------------------------------------------------
// Mathematical views
// ---------------------------------------------------------------------------

/// The view of a rule.
pub struct RuleV {
    pub name: Seq<char>,
    pub mark: Mark,
    pub alternatives: AltsV,
}

pub struct AltsV {
    pub alts: Seq<SeqV>,
}

pub struct SeqV {
    pub factors: Seq<FactorV>,
}

pub struct FactorV {
    pub base: BaseV,
    pub repetition: RepV,
}

pub enum BaseV {
    Literal { value: Seq<char>, insertion: bool, mark: Mark },
    Nonterminal { name: Seq<char>, mark: Mark },
    CharClass { content: Seq<char>, negated: bool, mark: Mark },
    Group { alternatives: AltsV },
}

pub enum RepV {
    Once,
    ZeroOrMore,
    OneOrMore,
    Optional,
    SeparatedZeroOrMore(SeqV),
    SeparatedOneOrMore(SeqV),
}

pub open spec fn rules_view(rs: Seq<Rule>) -> Seq<RuleV> {
    rs.map_values(|r: Rule| rule_view(r))
}

pub open spec fn rule_view(r: Rule) -> RuleV {
    RuleV { name: r.name@, mark: r.mark, alternatives: alts_view(r.alternatives) }
}

pub open spec fn alts_view(a: Alternatives) -> AltsV
    decreases a,
{
    AltsV { alts: seqs_view(a.alts@) }
}

pub open spec fn seqs_view(s: Seq<Sequence>) -> Seq<SeqV>
    decreases s,
{
    if s.len() == 0 {
        Seq::empty()
    } else {
        seqs_view(s.drop_last()).push(sequence_view(s.last()))
    }
}

pub open spec fn sequence_view(s: Sequence) -> SeqV
    decreases s,
{
    SeqV { factors: factors_view(s.factors@) }
}

pub open spec fn factors_view(s: Seq<Factor>) -> Seq<FactorV>
    decreases s,
{
    if s.len() == 0 {
        Seq::empty()
    } else {
        factors_view(s.drop_last()).push(factor_view(s.last()))
    }
}

pub open spec fn factor_view(f: Factor) -> FactorV
    decreases f,
{
    FactorV { base: base_view(f.base), repetition: rep_view(f.repetition) }
}

pub open spec fn base_view(b: BaseFactor) -> BaseV
    decreases b,
{
    match b {
        BaseFactor::Literal { value, insertion, mark } => BaseV::Literal {
            value: value@,
            insertion,
            mark,
        },
        BaseFactor::Nonterminal { name, mark } => BaseV::Nonterminal { name: name@, mark },
        BaseFactor::CharClass { content, negated, mark } => BaseV::CharClass {
            content: content@,
            negated,
            mark,
        },
        BaseFactor::Group { alternatives } => BaseV::Group { alternatives: alts_view(*alternatives) },
    }
}

pub open spec fn rep_view(r: Repetition) -> RepV
    decreases r,
{
    match r {
        Repetition::Once => RepV::Once,
        Repetition::ZeroOrMore => RepV::ZeroOrMore,
        Repetition::OneOrMore => RepV::OneOrMore,
        Repetition::Optional => RepV::Optional,
        Repetition::SeparatedZeroOrMore(s) => RepV::SeparatedZeroOrMore(sequence_view(*s)),
        Repetition::SeparatedOneOrMore(s) => RepV::SeparatedOneOrMore(sequence_view(*s)),
    }
}


pub proof fn lemma_seqs_view_push(s: Seq<Sequence>, x: Sequence)
    ensures
        seqs_view(s.push(x)) == seqs_view(s).push(sequence_view(x)),
{
    assert(s.push(x).drop_last() == s);
}

pub proof fn lemma_factors_view_push(s: Seq<Factor>, x: Factor)
    ensures
        factors_view(s.push(x)) == factors_view(s).push(factor_view(x)),
{
    assert(s.push(x).drop_last() == s);
}

pub proof fn lemma_seqs_view_index(s: Seq<Sequence>)
    ensures
        seqs_view(s).len() == s.len(),
        forall|i: int| 0 <= i < s.len() ==> #[trigger] seqs_view(s)[i] == sequence_view(s[i]),
    decreases s.len(),
{
    if s.len() > 0 {
        lemma_seqs_view_index(s.drop_last());
        assert forall|i: int| 0 <= i < s.len() implies #[trigger] seqs_view(s)[i] == sequence_view(
            s[i],
        ) by {
            if i < s.len() - 1 {
                assert(s.drop_last()[i] == s[i]);
            }
        }
    }
}

pub proof fn lemma_factors_view_index(s: Seq<Factor>)
    ensures
        factors_view(s).len() == s.len(),
        forall|i: int| 0 <= i < s.len() ==> #[trigger] factors_view(s)[i] == factor_view(s[i]),
    decreases s.len(),
{
    if s.len() > 0 {
        lemma_factors_view_index(s.drop_last());
        assert forall|i: int| 0 <= i < s.len() implies #[trigger] factors_view(s)[i] == factor_view(
            s[i],
        ) by {
            if i < s.len() - 1 {
                assert(s.drop_last()[i] == s[i]);
            }
        }
    }
}

// ---------------------------------------------------------------------------
// Copies
// ---------------------------------------------------------------------------

pub fn copy_string(s: &String) -> (r: String)
    ensures
        r@ == s@,
{
    s.clone()
}

pub fn clone_alternatives(a: &Alternatives) -> (r: Alternatives)
    ensures
        alts_view(r) == alts_view(*a),
    decreases a,
{
    let mut out: Vec<Sequence> = Vec::new();
    let n = a.alts.len();
    let mut i: usize = 0;
    while i < n
        invariant
            n == a.alts.len(),
            i <= n,
            seqs_view(out@) == seqs_view(a.alts@.take(i as int)),
        decreases n - i,
    {
        let s = clone_sequence(&a.alts[i]);
        let ghost prev = out@;
        out.push(s);
        proof {
            lemma_seqs_view_push(prev, s);
            lemma_seqs_view_push(a.alts@.take(i as int), a.alts@[i as int]);
            assert(a.alts@.take(i + 1) == a.alts@.take(i as int).push(a.alts@[i as int]));
        }
        i = i + 1;
    }
    proof {
        assert(a.alts@.take(n as int) == a.alts@);
    }
    Alternatives { alts: out }
}

pub fn clone_sequence(s: &Sequence) -> (r: Sequence)
    ensures
        sequence_view(r) == sequence_view(*s),
    decreases s,
{
    let mut out: Vec<Factor> = Vec::new();
    let n = s.factors.len();
    let mut i: usize = 0;
    while i < n
        invariant
            n == s.factors.len(),
            i <= n,
            factors_view(out@) == factors_view(s.factors@.take(i as int)),
        decreases n - i,
    {
        let f = clone_factor(&s.factors[i]);
        let ghost prev = out@;
        out.push(f);
        proof {
            lemma_factors_view_push(prev, f);
            lemma_factors_view_push(s.factors@.take(i as int), s.factors@[i as int]);
            assert(s.factors@.take(i + 1) == s.factors@.take(i as int).push(s.factors@[i as int]));
        }
        i = i + 1;
    }
    proof {
        assert(s.factors@.take(n as int) == s.factors@);
    }
    Sequence { factors: out }
}

pub fn clone_factor(f: &Factor) -> (r: Factor)
    ensures
        factor_view(r) == factor_view(*f),
    decreases f,
{
    Factor { base: clone_base(&f.base), repetition: clone_repetition(&f.repetition) }
}

pub fn clone_base(b: &BaseFactor) -> (r: BaseFactor)
    ensures
        base_view(r) == base_view(*b),
    decreases b,
{
    match b {
        BaseFactor::Literal { value, insertion, mark } => BaseFactor::Literal {
            value: copy_string(value),
            insertion: *insertion,
            mark: *mark,
        },
        BaseFactor::Nonterminal { name, mark } => BaseFactor::Nonterminal {
            name: copy_string(name),
            mark: *mark,
        },
        BaseFactor::CharClass { content, negated, mark } => BaseFactor::CharClass {
            content: copy_string(content),
            negated: *negated,
            mark: *mark,
        },
        BaseFactor::Group { alternatives } => BaseFactor::Group {
            alternatives: Box::new(clone_alternatives(alternatives)),
        },
    }
}

pub fn clone_repetition(r: &Repetition) -> (o: Repetition)
    ensures
        rep_view(o) == rep_view(*r),
    decreases r,
{
    match r {
        Repetition::Once => Repetition::Once,
        Repetition::ZeroOrMore => Repetition::ZeroOrMore,
        Repetition::OneOrMore => Repetition::OneOrMore,
        Repetition::Optional => Repetition::Optional,
        Repetition::SeparatedZeroOrMore(s) => Repetition::SeparatedZeroOrMore(
            Box::new(clone_sequence(s)),
        ),
        Repetition::SeparatedOneOrMore(s) => Repetition::SeparatedOneOrMore(
            Box::new(clone_sequence(s)),
        ),
    }
}

pub fn clone_rule(r: &Rule) -> (o: Rule)
    ensures
        rule_view(o) == rule_view(*r),
{
    Rule { name: copy_string(&r.name), mark: r.mark, alternatives: clone_alternatives(&r.alternatives) }
}

impl Clone for Alternatives {
    fn clone(&self) -> (r: Self)
        ensures
            alts_view(r) == alts_view(*self),
    {
        clone_alternatives(self)
    }
}

} // verus!
