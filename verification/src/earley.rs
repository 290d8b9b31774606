//! The grammar of an Earley parser (the `earlgrey` crate) built from an iXML
//! grammar: the symbol that stands for each factor, and the productions that
//! define it.
//!
//! A single character of a literal is the terminal `char_…`; a longer literal
//! is the nonterminal `lit_seq_…` with one production over its characters; a
//! marked literal is the wrapper `…_attr`, `…_hidden` or `…_promoted`; a
//! class is the terminal `charclass_…`; a group is `group_N`, numbered in the
//! order groups are met, with one production per alternative.  A repeated
//! factor is a helper nonterminal (`…_plus`, `…_star`, `…_opt`,
//! `…_sep_…_star`, `…_sep_…_plus`) with left-recursive productions.
use vstd::prelude::*;

use crate::ast::{
    alts_view, base_view, factor_view, factors_view, lemma_factors_view_index, lemma_seqs_view_index,
    sequence_view, AltsV, BaseFactor, BaseV, Factor, FactorV, Mark, RepV, Repetition, SeqV, Sequence,
};
use crate::text::{append_str, decimal, is_alphanumeric, push_char, push_decimal, unicode_alphanumeric};

verus! {

// ---------------------------------------------------------------------------
// The builder of the outside crate
// ---------------------------------------------------------------------------

#[verifier::external_type_specification]
#[verifier::external_body]
pub struct ExGrammarBuilder(earlgrey::GrammarBuilder);

/// The symbols a builder holds: each name, and whether it is a terminal.
pub uninterp spec fn builder_symbols(b: earlgrey::GrammarBuilder) -> Map<Seq<char>, bool>;

/// The productions a builder holds, in the order they were added: the head
/// and the names of the body.
pub uninterp spec fn builder_rules(b: earlgrey::GrammarBuilder) -> Seq<(Seq<char>, Seq<Seq<char>>)>;

/// The symbols and productions of a builder.
pub open spec fn bstate(b: earlgrey::GrammarBuilder) -> BState {
    BState { symbols: builder_symbols(b), rules: builder_rules(b) }
}

/// What a builder holds, as plain values.
pub struct BState {
    pub symbols: Map<Seq<char>, bool>,
    pub rules: Seq<(Seq<char>, Seq<Seq<char>>)>,
}

/// Whether a production is added: every name in it is a symbol, the head is
/// not a terminal, and the same production is not there already.
pub open spec fn rule_added(st: BState, head: Seq<char>, body: Seq<Seq<char>>) -> bool {
    &&& forall|k: int| 0 <= k < body.len() ==> st.symbols.dom().contains(#[trigger] body[k])
    &&& st.symbols.dom().contains(head)
    &&& !st.symbols[head]
    &&& !st.rules.contains((head, body))
}

/// A step of building a grammar.
pub enum OpV {
    NonTerm(Seq<char>),
    Term(Seq<char>),
    Rule(Seq<char>, Seq<Seq<char>>),
}

/// What a step does to the builder: a symbol is added if its name is new; a
/// production is added if `rule_added`.
pub open spec fn apply_op(st: BState, op: OpV) -> BState {
    match op {
        OpV::NonTerm(n) => BState {
            symbols: if st.symbols.dom().contains(n) {
                st.symbols
            } else {
                st.symbols.insert(n, false)
            },
            rules: st.rules,
        },
        OpV::Term(n) => BState {
            symbols: if st.symbols.dom().contains(n) {
                st.symbols
            } else {
                st.symbols.insert(n, true)
            },
            rules: st.rules,
        },
        OpV::Rule(h, body) => BState {
            symbols: st.symbols,
            rules: if rule_added(st, h, body) {
                st.rules.push((h, body))
            } else {
                st.rules
            },
        },
    }
}

/// The steps one after the other.
pub open spec fn apply_ops(st: BState, ops: Seq<OpV>) -> BState
    decreases ops.len(),
{
    if ops.len() == 0 {
        st
    } else {
        apply_op(apply_ops(st, ops.drop_last()), ops.last())
    }
}

pub proof fn lemma_apply_ops_append(st: BState, a: Seq<OpV>, b: Seq<OpV>)
    ensures
        apply_ops(st, a + b) == apply_ops(apply_ops(st, a), b),
    decreases b.len(),
{
    if b.len() == 0 {
        assert(a + b =~= a);
    } else {
        lemma_apply_ops_append(st, a, b.drop_last());
        assert((a + b).drop_last() =~= a + b.drop_last());
        assert((a + b).last() == b.last());
    }
}

pub(crate) proof fn lemma_apply_one(st: BState, op: OpV)
    ensures
        apply_ops(st, seq![op]) == apply_op(st, op),
{
    assert(seq![op].drop_last() =~= Seq::<OpV>::empty());
    assert(apply_ops(st, Seq::<OpV>::empty()) == st);
    assert(seq![op].last() == op);
}

/// `GrammarBuilder::nonterm`: the name becomes a nonterminal symbol unless
/// it is a symbol already; the productions stay.  (A name given twice also
/// records an error that `into_grammar` reports; that record is not stated.)
#[verifier::external_body]
pub(crate) fn builder_nonterm(b: &mut earlgrey::GrammarBuilder, name: &str)
    ensures
        (BState { symbols: builder_symbols(*final(b)), rules: builder_rules(*final(b)) }) == apply_op(
            (BState { symbols: builder_symbols(*old(b)), rules: builder_rules(*old(b)) }),
            OpV::NonTerm(name@),
        ),
{
    let old = std::mem::take(b);
    *b = old.nonterm(name);
}

/// No symbols.
pub open spec fn no_symbols() -> Map<Seq<char>, bool> {
    Map::empty()
}

/// No productions.
pub open spec fn no_rules() -> Seq<(Seq<char>, Seq<Seq<char>>)> {
    Seq::empty()
}

/// `GrammarBuilder::default`: no symbols and no productions.
#[verifier::external_body]
pub(crate) fn builder_default() -> (r: earlgrey::GrammarBuilder)
    ensures
        builder_symbols(r) == no_symbols(),
        builder_rules(r) == no_rules(),
{
    earlgrey::GrammarBuilder::default()
}

/// `GrammarBuilder::terminal` with the predicate of `char_token` for `ch`:
/// the name becomes a terminal symbol unless it is a symbol already; the
/// productions stay.  (A name given twice also records an error that
/// `into_grammar` reports; that record is not stated.)
#[verifier::external_body]
pub(crate) fn builder_char_terminal(b: &mut earlgrey::GrammarBuilder, name: &str, ch: char)
    ensures
        (BState { symbols: builder_symbols(*final(b)), rules: builder_rules(*final(b)) }) == apply_op(
            (BState { symbols: builder_symbols(*old(b)), rules: builder_rules(*old(b)) }),
            OpV::Term(name@),
        ),
{
    let old = std::mem::take(b);
    *b = old.terminal(name, move |s: &str| char_token(s, ch));
}

/// `GrammarBuilder::terminal` with the predicate of `class_token` for the
/// class: as `builder_char_terminal`.
#[verifier::external_body]
pub(crate) fn builder_class_terminal(b: &mut earlgrey::GrammarBuilder, name: &str, content: &str, negated: bool)
    ensures
        (BState { symbols: builder_symbols(*final(b)), rules: builder_rules(*final(b)) }) == apply_op(
            (BState { symbols: builder_symbols(*old(b)), rules: builder_rules(*old(b)) }),
            OpV::Term(name@),
        ),
{
    let content = content.to_string();
    let old = std::mem::take(b);
    *b = old.terminal(name, move |s: &str| class_token(&content, negated, s));
}

/// `GrammarBuilder::rule`: the production is added when every name in it is
/// a symbol, its head is no terminal and it is not there already; the
/// symbols stay.  (A refused production also records an error that
/// `into_grammar` reports; that record is not stated.)
#[verifier::external_body]
pub(crate) fn builder_rule(b: &mut earlgrey::GrammarBuilder, head: &str, body: &Vec<String>)
    ensures
        (BState { symbols: builder_symbols(*final(b)), rules: builder_rules(*final(b)) }) == apply_op(
            (BState { symbols: builder_symbols(*old(b)), rules: builder_rules(*old(b)) }),
            OpV::Rule(head@, body@.map_values(|s: String| s@)),
        ),
{
    let refs: Vec<&str> = body.iter().map(|s| s.as_str()).collect();
    let old = std::mem::take(b);
    *b = old.rule(head, &refs);
}

// ---------------------------------------------------------------------------
// What the terminals accept
// ---------------------------------------------------------------------------

/// Whether the token `s` is the one-byte text of `ch`.
pub open spec fn char_token_s(s: Seq<char>, ch: char) -> bool {
    s.len() == 1 && s[0] == ch && (ch as u32) < 0x80
}

/// The predicate of a character's terminal: the token is exactly that
/// character, written in one byte.
pub fn char_token(s: &str, ch: char) -> (r: bool)
    ensures
        r == char_token_s(s@, ch),
{
    let cs = crate::text::str_to_chars(s);
    cs.len() == 1 && cs[0] == ch && (ch as u32) < 0x80
}

/// Whether the token `s` is one character that the class admits (or, for
/// a negated class, does not admit).
pub open spec fn class_token_s(content: Seq<char>, negated: bool, s: Seq<char>) -> bool {
    s.len() == 1 && (crate::charclass::class_admits(content, s[0]) != negated)
}

/// The predicate of a class's terminal.
pub fn class_token(content: &str, negated: bool, s: &str) -> (r: bool)
    ensures
        r == class_token_s(content@, negated, s@),
{
    let cs = crate::text::str_to_chars(s);
    if cs.len() != 1 {
        return false;
    }
    let m = crate::charclass::class_admits_exec(content, cs[0]);
    if negated {
        !m
    } else {
        m
    }
}

/// A class and its negation split the tokens of one character, and accept
/// no other token.
pub proof fn law_class_token_negation(content: Seq<char>, s: Seq<char>)
    ensures
        s.len() == 1 ==> class_token_s(content, true, s) == !class_token_s(content, false, s),
        s.len() != 1 ==> !class_token_s(content, true, s) && !class_token_s(content, false, s),
{
}

// ---------------------------------------------------------------------------
// Symbol names
// ---------------------------------------------------------------------------

pub open spec fn hex_digit_char(d: nat) -> char {
    if d < 10 {
        crate::text::digit_char(d)
    } else if d == 10 {
        'A'
    } else if d == 11 {
        'B'
    } else if d == 12 {
        'C'
    } else if d == 13 {
        'D'
    } else if d == 14 {
        'E'
    } else {
        'F'
    }
}

/// The upper-case hexadecimal digits of `n`, as `{:X}` writes them.
pub open spec fn hex_upper(n: nat) -> Seq<char>
    decreases n,
{
    if n < 16 {
        seq![hex_digit_char(n)]
    } else {
        hex_upper(n / 16) + seq![hex_digit_char(n % 16)]
    }
}

/// As `{:04X}` writes `n`: padded with zeros to four digits.
pub open spec fn hex4(n: nat) -> Seq<char> {
    let h = hex_upper(n);
    if h.len() < 4 {
        Seq::new((4 - h.len()) as nat, |i: int| '0') + h
    } else {
        h
    }
}

/// The terminal for one character.
pub open spec fn char_symbol(c: char) -> Seq<char> {
    if c == ' ' {
        "char_SPACE"@
    } else if c == '\t' {
        "char_TAB"@
    } else if c == '\n' {
        "char_NEWLINE"@
    } else if c == '\r' {
        "char_RETURN"@
    } else if c == '"' {
        "char_QUOTE"@
    } else if c == '\'' {
        "char_APOS"@
    } else if c == '<' {
        "char_LT"@
    } else if c == '>' {
        "char_GT"@
    } else if c == '&' {
        "char_AMP"@
    } else if unicode_alphanumeric(c) {
        "char_"@.push(c)
    } else {
        "char_U"@ + hex4(c as nat)
    }
}

/// How a character of a literal is written in the name of its sequence.
pub open spec fn lit_name_char(c: char) -> Seq<char> {
    if c == ' ' {
        "_SPACE_"@
    } else if c == '"' {
        "_QUOTE_"@
    } else {
        seq![c]
    }
}

pub open spec fn lit_name_chars(s: Seq<char>) -> Seq<char>
    decreases s.len(),
{
    if s.len() == 0 {
        Seq::empty()
    } else {
        lit_name_chars(s.drop_last()) + lit_name_char(s.last())
    }
}

/// The nonterminal for a literal of several characters.
pub open spec fn lit_seq_symbol(value: Seq<char>) -> Seq<char> {
    "lit_seq_"@ + lit_name_chars(value)
}

/// How a character of a class is written in its name: `-` as `_`, quotes
/// and spaces left out.
pub open spec fn class_name_char(c: char) -> Seq<char> {
    if c == '-' {
        seq!['_']
    } else if c == '\'' || c == '"' || c == ' ' {
        Seq::empty()
    } else {
        seq![c]
    }
}

pub open spec fn class_name_chars(s: Seq<char>) -> Seq<char>
    decreases s.len(),
{
    if s.len() == 0 {
        Seq::empty()
    } else {
        class_name_chars(s.drop_last()) + class_name_char(s.last())
    }
}

/// The terminal for a class.
pub open spec fn class_symbol(content: Seq<char>, negated: bool) -> Seq<char> {
    if negated {
        "charclass_neg_"@ + class_name_chars(content)
    } else {
        "charclass_"@ + class_name_chars(content)
    }
}

/// The suffix of a marked literal's wrapper.
pub open spec fn mark_suffix(m: Mark) -> Seq<char> {
    match m {
        Mark::Unmarked => Seq::empty(),
        Mark::Attribute => "attr"@,
        Mark::Hidden => "hidden"@,
        Mark::Promoted => "promoted"@,
    }
}

/// How a literal is written in a separator's name: its characters in
/// upper-case hexadecimal.
pub open spec fn hex_chars(s: Seq<char>) -> Seq<char>
    decreases s.len(),
{
    if s.len() == 0 {
        Seq::empty()
    } else {
        hex_chars(s.drop_last()) + hex_upper((s.last() as u32) as nat)
    }
}

/// The part of a separator's name that stands for one factor.
pub open spec fn factor_id(f: FactorV) -> Seq<char> {
    match f.base {
        BaseV::Literal { value, .. } => hex_chars(value),
        BaseV::Nonterminal { name, .. } => name,
        BaseV::CharClass { content, negated, .. } => (if negated {
            "NEG"@
        } else {
            "CC"@
        }) + class_name_chars(content),
        BaseV::Group { .. } => "GRP"@,
    }
}

/// The name of a separator: the ids of its factors from `k` on, joined by `_`.
pub open spec fn seq_id_from(fs: Seq<FactorV>, k: int) -> Seq<char>
    decreases fs.len() - k,
{
    if k < 0 || k >= fs.len() {
        Seq::empty()
    } else if k == fs.len() - 1 {
        factor_id(fs[k])
    } else {
        factor_id(fs[k]) + "_"@ + seq_id_from(fs, k + 1)
    }
}

/// The next group number (the counter wraps around as an atomic counter
/// does).
pub open spec fn next_group(c: nat) -> nat {
    if c >= usize::MAX {
        0
    } else {
        c + 1
    }
}

/// Whether a name is that of a group.
pub open spec fn is_group_name(n: Seq<char>) -> bool {
    n.len() >= 6 && n.subrange(0, 6) == "group_"@
}

/// The steps and the name of a literal without its mark: one character is
/// its terminal; a longer literal (or an empty one) is its sequence, defined
/// by one production over its characters.
pub open spec fn literal_base(value: Seq<char>) -> (Seq<OpV>, Seq<char>) {
    if value.len() == 1 {
        (Seq::empty(), char_symbol(value[0]))
    } else {
        (
            seq![OpV::Rule(lit_seq_symbol(value), value.map_values(|c: char| char_symbol(c)))],
            lit_seq_symbol(value),
        )
    }
}

/// A helper nonterminal is declared here only for a group (the others are
/// declared before the productions are added).
pub open spec fn declare_for(base: Seq<char>, names: Seq<Seq<char>>) -> Seq<OpV> {
    if is_group_name(base) {
        names.map_values(|n: Seq<char>| OpV::NonTerm(n))
    } else {
        Seq::empty()
    }
}

/// The steps, the symbol and the next group number of a factor, from group
/// number `c` on.
pub open spec fn factor_s(f: FactorV, c: nat) -> (Seq<OpV>, Seq<char>, nat)
    decreases f, 1int, 0int,
{
    let (bops, base, c1) = base_s(f, c);
    rep_s(f, bops, base, c1)
}

/// The steps, the name and the next group number of a factor without its
/// repetition.
pub open spec fn base_s(f: FactorV, c: nat) -> (Seq<OpV>, Seq<char>, nat)
    decreases f, 0int, 0int,
{
    match f.base {
        BaseV::Literal { value, mark, .. } => {
            let (o, b) = literal_base(value);
            (o, if mark == Mark::Unmarked {
                b
            } else {
                b + "_"@ + mark_suffix(mark)
            }, c)
        },
        BaseV::Nonterminal { name, .. } => (Seq::empty(), name, c),
        BaseV::CharClass { content, negated, .. } => (Seq::empty(), class_symbol(content, negated), c),
        BaseV::Group { alternatives } => {
            let g = "group_"@ + decimal(c);
            let (o, c2) = group_alts_s(alternatives.alts, 0, g, next_group(c));
            (seq![OpV::NonTerm(g)] + o, g, c2)
        },
    }
}

/// The steps, the symbol and the next group number of a factor's
/// repetition, after the steps `bops` of its base `base`.
pub open spec fn rep_s(f: FactorV, bops: Seq<OpV>, base: Seq<char>, c1: nat) -> (Seq<OpV>, Seq<char>, nat)
    decreases f, 0int, 0int,
{
    match f.repetition {
        RepV::Once => (bops, base, c1),
        RepV::OneOrMore => {
            let p = base + "_plus"@;
            (
                bops + declare_for(base, seq![p]) + seq![OpV::Rule(p, seq![base]), OpV::Rule(p, seq![p, base])],
                p,
                c1,
            )
        },
        RepV::ZeroOrMore => {
            let st = base + "_star"@;
            (
                bops + declare_for(base, seq![st]) + seq![OpV::Rule(st, Seq::empty()), OpV::Rule(st, seq![st, base])],
                st,
                c1,
            )
        },
        RepV::Optional => {
            let o = base + "_opt"@;
            (
                bops + declare_for(base, seq![o]) + seq![OpV::Rule(o, Seq::empty()), OpV::Rule(o, seq![base])],
                o,
                c1,
            )
        },
        RepV::SeparatedZeroOrMore(sep) => {
            let id = seq_id_from(sep.factors, 0);
            let st = base + "_sep_"@ + id + "_star"@;
            let p = base + "_sep_"@ + id + "_plus"@;
            let (sops, ssyms, c2) = seq_syms_s(sep.factors, 0, c1);
            (
                bops + sops + declare_for(base, seq![st, p]) + seq![
                    OpV::Rule(st, Seq::empty()),
                    OpV::Rule(st, seq![p]),
                    OpV::Rule(p, seq![base]),
                    OpV::Rule(p, seq![p] + ssyms + seq![base]),
                ],
                st,
                c2,
            )
        },
        RepV::SeparatedOneOrMore(sep) => {
            let id = seq_id_from(sep.factors, 0);
            let p = base + "_sep_"@ + id + "_plus"@;
            let (sops, ssyms, c2) = seq_syms_s(sep.factors, 0, c1);
            (
                bops + sops + declare_for(base, seq![p]) + seq![
                    OpV::Rule(p, seq![base]),
                    OpV::Rule(p, seq![p] + ssyms + seq![base]),
                ],
                p,
                c2,
            )
        },
    }
}

/// The steps, the symbols and the next group number of the factors from `k`
/// on.
pub open spec fn seq_syms_s(fs: Seq<FactorV>, k: int, c: nat) -> (Seq<OpV>, Seq<Seq<char>>, nat)
    decreases fs, fs.len() - k, 0int,
{
    if 0 <= k < fs.len() {
        let (o1, n1, c1) = factor_s(fs[k], c);
        let (o2, ns, c2) = seq_syms_s(fs, k + 1, c1);
        (o1 + o2, seq![n1] + ns, c2)
    } else {
        (Seq::empty(), Seq::empty(), c)
    }
}

/// The steps and the next group number of the alternatives of group `g`
/// from `i` on: each alternative's steps, then its production.
pub open spec fn group_alts_s(qs: Seq<SeqV>, i: int, g: Seq<char>, c: nat) -> (Seq<OpV>, nat)
    decreases qs, qs.len() - i, 0int,
{
    if 0 <= i < qs.len() {
        let (o1, ns, c1) = seq_syms_s(qs[i].factors, 0, c);
        let (o2, c2) = group_alts_s(qs, i + 1, g, c1);
        (o1 + seq![OpV::Rule(g, ns)] + o2, c2)
    } else {
        (Seq::empty(), c)
    }
}

// ---------------------------------------------------------------------------
// Writing names
// ---------------------------------------------------------------------------

fn hex_digit(d: u32) -> (c: char)
    requires
        d < 16,
    ensures
        c == hex_digit_char(d as nat),
{
    if d == 0 {
        '0'
    } else if d == 1 {
        '1'
    } else if d == 2 {
        '2'
    } else if d == 3 {
        '3'
    } else if d == 4 {
        '4'
    } else if d == 5 {
        '5'
    } else if d == 6 {
        '6'
    } else if d == 7 {
        '7'
    } else if d == 8 {
        '8'
    } else if d == 9 {
        '9'
    } else if d == 10 {
        'A'
    } else if d == 11 {
        'B'
    } else if d == 12 {
        'C'
    } else if d == 13 {
        'D'
    } else if d == 14 {
        'E'
    } else {
        'F'
    }
}

fn push_hex_upper(out: &mut String, n: u32)
    ensures
        final(out)@ == old(out)@ + hex_upper(n as nat),
    decreases n,
{
    if n < 16 {
        push_char(out, hex_digit(n));
    } else {
        push_hex_upper(out, n / 16);
        push_char(out, hex_digit(n % 16));
    }
}

proof fn lemma_hex_len(n: nat)
    ensures
        n < 16 ==> hex_upper(n).len() == 1,
        16 <= n < 256 ==> hex_upper(n).len() == 2,
        256 <= n < 4096 ==> hex_upper(n).len() == 3,
        n >= 4096 ==> hex_upper(n).len() >= 4,
    decreases n,
{
    if n >= 16 {
        lemma_hex_len(n / 16);
    }
}

fn push_hex4(out: &mut String, n: u32)
    ensures
        final(out)@ == old(out)@ + hex4(n as nat),
{
    proof {
        lemma_hex_len(n as nat);
        reveal_strlit("000");
        reveal_strlit("00");
        reveal_strlit("0");
    }
    let ghost start = out@;
    if n < 16 {
        append_str(out, "000");
        proof {
            assert(Seq::new(3nat, |i: int| '0') =~= "000"@);
        }
    } else if n < 256 {
        append_str(out, "00");
        proof {
            assert(Seq::new(2nat, |i: int| '0') =~= "00"@);
        }
    } else if n < 4096 {
        append_str(out, "0");
        proof {
            assert(Seq::new(1nat, |i: int| '0') =~= "0"@);
        }
    }
    push_hex_upper(out, n);
    proof {
        assert(out@ =~= start + hex4(n as nat));
    }
}

/// The terminal for one character.
pub fn char_symbol_exec(c: char) -> (r: String)
    ensures
        r@ == char_symbol(c),
{
    if c == ' ' {
        String::from_str("char_SPACE")
    } else if c == '\t' {
        String::from_str("char_TAB")
    } else if c == '\n' {
        String::from_str("char_NEWLINE")
    } else if c == '\r' {
        String::from_str("char_RETURN")
    } else if c == '"' {
        String::from_str("char_QUOTE")
    } else if c == '\'' {
        String::from_str("char_APOS")
    } else if c == '<' {
        String::from_str("char_LT")
    } else if c == '>' {
        String::from_str("char_GT")
    } else if c == '&' {
        String::from_str("char_AMP")
    } else if is_alphanumeric(c) {
        let mut r = String::from_str("char_");
        push_char(&mut r, c);
        r
    } else {
        let mut r = String::from_str("char_U");
        push_hex4(&mut r, c as u32);
        r
    }
}

/// The nonterminal for a literal of several characters.
pub fn lit_seq_symbol_exec(value: &str) -> (r: String)
    ensures
        r@ == lit_seq_symbol(value@),
{
    let cs = crate::text::str_to_chars(value);
    let mut r = String::from_str("lit_seq_");
    let ghost start = r@;
    let mut i: usize = 0;
    while i < cs.len()
        invariant
            cs@ == value@,
            i <= cs.len(),
            r@ == start + lit_name_chars(value@.subrange(0, i as int)),
        decreases cs.len() - i,
    {
        let c = cs[i];
        if c == ' ' {
            append_str(&mut r, "_SPACE_");
        } else if c == '"' {
            append_str(&mut r, "_QUOTE_");
        } else {
            push_char(&mut r, c);
        }
        proof {
            let t = value@.subrange(0, i + 1);
            assert(t.drop_last() == value@.subrange(0, i as int));
            assert(t.last() == c);
        }
        i = i + 1;
    }
    proof {
        assert(value@.subrange(0, cs.len() as int) == value@);
    }
    r
}

fn push_class_name_chars(out: &mut String, content: &str)
    ensures
        final(out)@ == old(out)@ + class_name_chars(content@),
{
    let cs = crate::text::str_to_chars(content);
    let ghost start = out@;
    let mut i: usize = 0;
    while i < cs.len()
        invariant
            cs@ == content@,
            i <= cs.len(),
            out@ == start + class_name_chars(content@.subrange(0, i as int)),
        decreases cs.len() - i,
    {
        let c = cs[i];
        if c == '-' {
            push_char(out, '_');
        } else if c == '\'' || c == '"' || c == ' ' {
        } else {
            push_char(out, c);
        }
        proof {
            let t = content@.subrange(0, i + 1);
            assert(t.drop_last() == content@.subrange(0, i as int));
            assert(t.last() == c);
            assert(class_name_chars(t) == class_name_chars(t.drop_last()) + class_name_char(c));
            assert(out@ =~= start + class_name_chars(t));
        }
        i = i + 1;
    }
    proof {
        assert(content@.subrange(0, cs.len() as int) == content@);
    }
}

/// The terminal for a class.
pub fn class_symbol_exec(content: &str, negated: bool) -> (r: String)
    ensures
        r@ == class_symbol(content@, negated),
{
    let mut r = if negated {
        String::from_str("charclass_neg_")
    } else {
        String::from_str("charclass_")
    };
    push_class_name_chars(&mut r, content);
    r
}

pub(crate) fn push_mark_suffix(out: &mut String, m: Mark)
    ensures
        final(out)@ == old(out)@ + mark_suffix(m),
{
    match m {
        Mark::Unmarked => {
            proof {
                assert(old(out)@ + Seq::<char>::empty() =~= old(out)@);
            }
        },
        Mark::Attribute => append_str(out, "attr"),
        Mark::Hidden => append_str(out, "hidden"),
        Mark::Promoted => append_str(out, "promoted"),
    }
}

fn push_hex_chars(out: &mut String, value: &str)
    ensures
        final(out)@ == old(out)@ + hex_chars(value@),
{
    let cs = crate::text::str_to_chars(value);
    let ghost start = out@;
    let mut i: usize = 0;
    while i < cs.len()
        invariant
            cs@ == value@,
            i <= cs.len(),
            out@ == start + hex_chars(value@.subrange(0, i as int)),
        decreases cs.len() - i,
    {
        let c = cs[i];
        push_hex_upper(out, c as u32);
        proof {
            let t = value@.subrange(0, i + 1);
            assert(t.drop_last() == value@.subrange(0, i as int));
            assert(t.last() == c);
            assert(out@ =~= start + hex_chars(t));
        }
        i = i + 1;
    }
    proof {
        assert(value@.subrange(0, cs.len() as int) == value@);
    }
}

fn push_factor_id(out: &mut String, f: &Factor)
    ensures
        final(out)@ == old(out)@ + factor_id(factor_view(*f)),
{
    match &f.base {
        BaseFactor::Literal { value, .. } => push_hex_chars(out, value.as_str()),
        BaseFactor::Nonterminal { name, .. } => append_str(out, name.as_str()),
        BaseFactor::CharClass { content, negated, .. } => {
            if *negated {
                append_str(out, "NEG");
            } else {
                append_str(out, "CC");
            }
            push_class_name_chars(out, content.as_str());
        },
        BaseFactor::Group { .. } => append_str(out, "GRP"),
    }
}

/// The name of a separator.
pub(crate) fn seq_id_exec(q: &Sequence) -> (r: String)
    ensures
        r@ == seq_id_from(sequence_view(*q).factors, 0),
{
    let ghost fs = sequence_view(*q).factors;
    proof {
        lemma_factors_view_index(q.factors@);
    }
    let n = q.factors.len();
    let mut r = String::new();
    if n == 0 {
        return r;
    }
    // Built from the end: `r` is the id of the factors from `k` on.
    let mut k: usize = n - 1;
    push_factor_id(&mut r, &q.factors[k]);
    proof {
        assert(fs[k as int] == factor_view(q.factors@[k as int]));
    }
    while k > 0
        invariant
            n == q.factors.len(),
            fs == sequence_view(*q).factors,
            fs.len() == n,
            forall|x: int| 0 <= x < n ==> #[trigger] fs[x] == factor_view(q.factors@[x]),
            0 <= k < n,
            r@ == seq_id_from(fs, k as int),
        decreases k,
    {
        let mut h = String::new();
        push_factor_id(&mut h, &q.factors[k - 1]);
        append_str(&mut h, "_");
        append_str(&mut h, r.as_str());
        r = h;
        k = k - 1;
    }
    r
}

fn name_is_group(n: &String) -> (r: bool)
    ensures
        r == is_group_name(n@),
{
    let cs = crate::text::str_to_chars(n.as_str());
    proof {
        reveal_strlit("group_");
    }
    if cs.len() < 6 {
        return false;
    }
    let r = cs[0] == 'g' && cs[1] == 'r' && cs[2] == 'o' && cs[3] == 'u' && cs[4] == 'p' && cs[5] == '_';
    proof {
        assert(cs@ == n@);
        let g = "group_"@;
        assert(g.len() == 6 && g[0] == 'g' && g[1] == 'r' && g[2] == 'o' && g[3] == 'u' && g[4] == 'p' && g[5] == '_');
        if r {
            assert(n@.subrange(0, 6) =~= g);
        } else {
            if n@.subrange(0, 6) == g {
                assert(n@.subrange(0, 6)[0] == n@[0]);
                assert(n@.subrange(0, 6)[1] == n@[1]);
                assert(n@.subrange(0, 6)[2] == n@[2]);
                assert(n@.subrange(0, 6)[3] == n@[3]);
                assert(n@.subrange(0, 6)[4] == n@[4]);
                assert(n@.subrange(0, 6)[5] == n@[5]);
            }
        }
    }
    r
}

// ---------------------------------------------------------------------------
// Converting factors
// ---------------------------------------------------------------------------

/// A grammar being built for the Earley parser, and the number the next
/// group gets.
pub struct EarleyBuilder {
    pub builder: earlgrey::GrammarBuilder,
    pub next_group: usize,
}

impl EarleyBuilder {
    /// The symbols and productions built so far.
    pub open spec fn state(&self) -> BState {
        BState { symbols: builder_symbols(self.builder), rules: builder_rules(self.builder) }
    }
}

pub open spec fn names_view(v: Seq<String>) -> Seq<Seq<char>> {
    v.map_values(|s: String| s@)
}

proof fn lemma_names_push(v: Seq<String>, x: String)
    ensures
        names_view(v.push(x)) == names_view(v).push(x@),
{
    assert(names_view(v.push(x)) =~= names_view(v).push(x@));
}

pub(crate) proof fn lemma_step(st0: BState, done: Seq<OpV>, more: Seq<OpV>)
    ensures
        apply_ops(st0, done + more) == apply_ops(apply_ops(st0, done), more),
{
    lemma_apply_ops_append(st0, done, more);
}

/// Adds the production `head -> body`.
pub(crate) fn add_rule(b: &mut EarleyBuilder, head: &String, body: &Vec<String>)
    ensures
        final(b).state() == apply_ops(old(b).state(), seq![OpV::Rule(head@, names_view(body@))]),
        final(b).next_group == old(b).next_group,
{
    builder_rule(&mut b.builder, head.as_str(), body);
    proof {
        lemma_apply_one(old(b).state(), OpV::Rule(head@, names_view(body@)));
    }
}

/// Declares the nonterminal `name`.
pub(crate) fn add_nonterm(b: &mut EarleyBuilder, name: &String)
    ensures
        final(b).state() == apply_ops(old(b).state(), seq![OpV::NonTerm(name@)]),
        final(b).next_group == old(b).next_group,
{
    builder_nonterm(&mut b.builder, name.as_str());
    proof {
        lemma_apply_one(old(b).state(), OpV::NonTerm(name@));
    }
}

fn concat3(a: &String, m: &str, z: &str) -> (r: String)
    ensures
        r@ == a@ + m@ + z@,
{
    let mut r = a.clone();
    append_str(&mut r, m);
    append_str(&mut r, z);
    r
}

/// Converts a factor without its repetition, and returns its name.
fn convert_base(b: &mut EarleyBuilder, factor: &Factor) -> (r: String)
    ensures
        ({
            let (ops, n, c) = base_s(factor_view(*factor), old(b).next_group as nat);
            &&& final(b).state() == apply_ops(old(b).state(), ops)
            &&& r@ == n
            &&& final(b).next_group == c
        }),
    decreases factor, 0int,
{
    let ghost st0 = b.state();
    let ghost c0 = b.next_group as nat;
    let ghost fv = factor_view(*factor);
    match &factor.base {
        BaseFactor::Literal { value, mark, .. } => {
            let cs = crate::text::str_to_chars(value.as_str());
            let bname = if cs.len() == 1 {
                proof {
                    assert(apply_ops(st0, Seq::<OpV>::empty()) == st0);
                }
                char_symbol_exec(cs[0])
            } else {
                let seqn = lit_seq_symbol_exec(value.as_str());
                let mut body: Vec<String> = Vec::new();
                let mut i: usize = 0;
                while i < cs.len()
                    invariant
                        i <= cs.len(),
                        cs@ == value@,
                        names_view(body@) == cs@.subrange(0, i as int).map_values(|c: char| char_symbol(c)),
                    decreases cs.len() - i,
                {
                    let nm = char_symbol_exec(cs[i]);
                    let ghost bb = body@;
                    body.push(nm);
                    proof {
                        lemma_names_push(bb, nm);
                        assert(cs@.subrange(0, i + 1).map_values(|c: char| char_symbol(c)) =~= cs@.subrange(
                            0,
                            i as int,
                        ).map_values(|c: char| char_symbol(c)).push(char_symbol(cs@[i as int])));
                    }
                    i = i + 1;
                }
                proof {
                    assert(cs@.subrange(0, cs.len() as int) == cs@);
                }
                add_rule(b, &seqn, &body);
                seqn
            };
            match mark {
                Mark::Unmarked => bname,
                _ => {
                    let mut m = bname;
                    append_str(&mut m, "_");
                    push_mark_suffix(&mut m, *mark);
                    m
                },
            }
        },
        BaseFactor::Nonterminal { name, .. } => {
            proof {
                assert(apply_ops(st0, Seq::<OpV>::empty()) == st0);
            }
            name.clone()
        },
        BaseFactor::CharClass { content, negated, .. } => {
            proof {
                assert(apply_ops(st0, Seq::<OpV>::empty()) == st0);
            }
            class_symbol_exec(content.as_str(), *negated)
        },
        BaseFactor::Group { alternatives } => {
            let mut g = String::from_str("group_");
            push_decimal(&mut g, b.next_group);
            b.next_group = if b.next_group == usize::MAX {
                0
            } else {
                b.next_group + 1
            };
            add_nonterm(b, &g);
            let ghost st1 = b.state();
            convert_group_alts(b, alternatives, &g);
            proof {
                let (o, c2) = group_alts_s(alts_view(**alternatives).alts, 0, g@, next_group(c0));
                lemma_step(st0, seq![OpV::NonTerm(g@)], o);
            }
            g
        },
    }
}

/// Converts a factor's repetition, after its base `base` was converted by
/// the steps `bops` from the state `st0`; returns the factor's symbol.
fn convert_rep(b: &mut EarleyBuilder, factor: &Factor, base: String, Ghost(st0): Ghost<BState>, Ghost(bops): Ghost<Seq<OpV>>) -> (r: String)
    requires
        old(b).state() == apply_ops(st0, bops),
    ensures
        ({
            let (ops, n, c) = rep_s(factor_view(*factor), bops, base@, old(b).next_group as nat);
            &&& final(b).state() == apply_ops(st0, ops)
            &&& r@ == n
            &&& final(b).next_group == c
        }),
    decreases factor, 0int,
{
    let ghost st_b = b.state();
    proof {
        reveal_strlit("");
        assert(""@ =~= Seq::<char>::empty());
    }
    match &factor.repetition {
        Repetition::Once => base,
        Repetition::OneOrMore => {
            let p = concat3(&base, "_plus", "");
            proof {
                assert(p@ =~= base@ + "_plus"@);
            }
            let ghost decl = declare_for(base@, seq![p@]);
            if name_is_group(&base) {
                add_nonterm(b, &p);
                proof {
                    assert(decl =~= seq![OpV::NonTerm(p@)]);
                }
            } else {
                proof {
                    assert(decl =~= Seq::<OpV>::empty());
                    assert(apply_ops(st_b, decl) == st_b);
                }
            }
            let ghost st_d = b.state();
            let v1 = vec![base.clone()];
            add_rule(b, &p, &v1);
            let ghost st_e = b.state();
            let v2 = vec![p.clone(), base.clone()];
            add_rule(b, &p, &v2);
            proof {
                assert(names_view(v1@) =~= seq![base@]);
                assert(names_view(v2@) =~= seq![p@, base@]);
                let r1 = seq![OpV::Rule(p@, seq![base@])];
                let r2 = seq![OpV::Rule(p@, seq![p@, base@])];
                lemma_step(st0, bops, decl);
                lemma_step(st0, bops + decl, r1);
                lemma_step(st0, bops + decl + r1, r2);
                assert(bops + decl + r1 + r2 =~= bops + decl + seq![OpV::Rule(p@, seq![base@]), OpV::Rule(p@, seq![p@, base@])]);
            }
            p
        },
        Repetition::ZeroOrMore => {
            let p = concat3(&base, "_star", "");
            proof {
                assert(p@ =~= base@ + "_star"@);
            }
            let ghost decl = declare_for(base@, seq![p@]);
            if name_is_group(&base) {
                add_nonterm(b, &p);
                proof {
                    assert(decl =~= seq![OpV::NonTerm(p@)]);
                }
            } else {
                proof {
                    assert(decl =~= Seq::<OpV>::empty());
                    assert(apply_ops(st_b, decl) == st_b);
                }
            }
            let v1: Vec<String> = Vec::new();
            add_rule(b, &p, &v1);
            let v2 = vec![p.clone(), base.clone()];
            add_rule(b, &p, &v2);
            proof {
                assert(names_view(v1@) =~= Seq::<Seq<char>>::empty());
                assert(names_view(v2@) =~= seq![p@, base@]);
                let r1 = seq![OpV::Rule(p@, Seq::<Seq<char>>::empty())];
                let r2 = seq![OpV::Rule(p@, seq![p@, base@])];
                lemma_step(st0, bops, decl);
                lemma_step(st0, bops + decl, r1);
                lemma_step(st0, bops + decl + r1, r2);
                assert(bops + decl + r1 + r2 =~= bops + decl + seq![OpV::Rule(p@, Seq::<Seq<char>>::empty()), OpV::Rule(p@, seq![p@, base@])]);
            }
            p
        },
        Repetition::Optional => {
            let p = concat3(&base, "_opt", "");
            proof {
                assert(p@ =~= base@ + "_opt"@);
            }
            let ghost decl = declare_for(base@, seq![p@]);
            if name_is_group(&base) {
                add_nonterm(b, &p);
                proof {
                    assert(decl =~= seq![OpV::NonTerm(p@)]);
                }
            } else {
                proof {
                    assert(decl =~= Seq::<OpV>::empty());
                    assert(apply_ops(st_b, decl) == st_b);
                }
            }
            let v1: Vec<String> = Vec::new();
            add_rule(b, &p, &v1);
            let v2 = vec![base.clone()];
            add_rule(b, &p, &v2);
            proof {
                assert(names_view(v1@) =~= Seq::<Seq<char>>::empty());
                assert(names_view(v2@) =~= seq![base@]);
                let r1 = seq![OpV::Rule(p@, Seq::<Seq<char>>::empty())];
                let r2 = seq![OpV::Rule(p@, seq![base@])];
                lemma_step(st0, bops, decl);
                lemma_step(st0, bops + decl, r1);
                lemma_step(st0, bops + decl + r1, r2);
                assert(bops + decl + r1 + r2 =~= bops + decl + seq![OpV::Rule(p@, Seq::<Seq<char>>::empty()), OpV::Rule(p@, seq![base@])]);
            }
            p
        },
        Repetition::SeparatedZeroOrMore(sep) => {
            let id = seq_id_exec(sep);
            let mid = concat3(&base, "_sep_", id.as_str());
            let st = concat3(&mid, "_star", "");
            let p = concat3(&mid, "_plus", "");
            proof {
                assert(st@ =~= base@ + "_sep_"@ + id@ + "_star"@);
                assert(p@ =~= base@ + "_sep_"@ + id@ + "_plus"@);
            }
            let ghost st_s0 = b.state();
            let ghost c1 = b.next_group as nat;
            let ssyms = convert_symbols(b, sep);
            let ghost sops = seq_syms_s(sequence_view(**sep).factors, 0, c1).0;
            let ghost st_s = b.state();
            let ghost decl = declare_for(base@, seq![st@, p@]);
            if name_is_group(&base) {
                add_nonterm(b, &st);
                let ghost st_x = b.state();
                add_nonterm(b, &p);
                proof {
                    assert(decl =~= seq![OpV::NonTerm(st@), OpV::NonTerm(p@)]);
                    lemma_step(st_s, seq![OpV::NonTerm(st@)], seq![OpV::NonTerm(p@)]);
                    assert(seq![OpV::NonTerm(st@)] + seq![OpV::NonTerm(p@)] =~= decl);
                }
            } else {
                proof {
                    assert(decl =~= Seq::<OpV>::empty());
                    assert(apply_ops(st_s, decl) == st_s);
                }
            }
            let ghost st_d = b.state();
            let v1: Vec<String> = Vec::new();
            add_rule(b, &st, &v1);
            let v2 = vec![p.clone()];
            add_rule(b, &st, &v2);
            let v3 = vec![base.clone()];
            add_rule(b, &p, &v3);
            let mut v4 = vec![p.clone()];
            let mut i: usize = 0;
            while i < ssyms.len()
                invariant
                    i <= ssyms.len(),
                    names_view(v4@) == seq![p@] + names_view(ssyms@.subrange(0, i as int)),
                decreases ssyms.len() - i,
            {
                let ghost vv = v4@;
                let x = ssyms[i].clone();
                v4.push(x);
                proof {
                    lemma_names_push(vv, x);
                    assert(ssyms@.subrange(0, i + 1) =~= ssyms@.subrange(0, i as int).push(ssyms@[i as int]));
                    lemma_names_push(ssyms@.subrange(0, i as int), ssyms@[i as int]);
                    assert(names_view(v4@) =~= seq![p@] + names_view(ssyms@.subrange(0, i + 1)));
                }
                i = i + 1;
            }
            v4.push(base.clone());
            add_rule(b, &p, &v4);
            proof {
                assert(ssyms@.subrange(0, ssyms.len() as int) == ssyms@);
                assert(names_view(v1@) =~= Seq::<Seq<char>>::empty());
                assert(names_view(v2@) =~= seq![p@]);
                assert(names_view(v3@) =~= seq![base@]);
                assert(names_view(v4@) =~= seq![p@] + names_view(ssyms@) + seq![base@]);
                let r1 = seq![OpV::Rule(st@, Seq::<Seq<char>>::empty())];
                let r2 = seq![OpV::Rule(st@, seq![p@])];
                let r3 = seq![OpV::Rule(p@, seq![base@])];
                let r4 = seq![OpV::Rule(p@, seq![p@] + names_view(ssyms@) + seq![base@])];
                lemma_step(st0, bops, sops);
                lemma_step(st0, bops + sops, decl);
                lemma_step(st0, bops + sops + decl, r1);
                lemma_step(st0, bops + sops + decl + r1, r2);
                lemma_step(st0, bops + sops + decl + r1 + r2, r3);
                lemma_step(st0, bops + sops + decl + r1 + r2 + r3, r4);
                assert(bops + sops + decl + r1 + r2 + r3 + r4 =~= bops + sops + decl + seq![
                    OpV::Rule(st@, Seq::<Seq<char>>::empty()),
                    OpV::Rule(st@, seq![p@]),
                    OpV::Rule(p@, seq![base@]),
                    OpV::Rule(p@, seq![p@] + names_view(ssyms@) + seq![base@]),
                ]);
            }
            st
        },
        Repetition::SeparatedOneOrMore(sep) => {
            let id = seq_id_exec(sep);
            let mid = concat3(&base, "_sep_", id.as_str());
            let p = concat3(&mid, "_plus", "");
            proof {
                assert(p@ =~= base@ + "_sep_"@ + id@ + "_plus"@);
            }
            let ghost c1 = b.next_group as nat;
            let ssyms = convert_symbols(b, sep);
            let ghost sops = seq_syms_s(sequence_view(**sep).factors, 0, c1).0;
            let ghost st_s = b.state();
            let ghost decl = declare_for(base@, seq![p@]);
            if name_is_group(&base) {
                add_nonterm(b, &p);
                proof {
                    assert(decl =~= seq![OpV::NonTerm(p@)]);
                }
            } else {
                proof {
                    assert(decl =~= Seq::<OpV>::empty());
                    assert(apply_ops(st_s, decl) == st_s);
                }
            }
            let v3 = vec![base.clone()];
            add_rule(b, &p, &v3);
            let mut v4 = vec![p.clone()];
            let mut i: usize = 0;
            while i < ssyms.len()
                invariant
                    i <= ssyms.len(),
                    names_view(v4@) == seq![p@] + names_view(ssyms@.subrange(0, i as int)),
                decreases ssyms.len() - i,
            {
                let ghost vv = v4@;
                let x = ssyms[i].clone();
                v4.push(x);
                proof {
                    lemma_names_push(vv, x);
                    assert(ssyms@.subrange(0, i + 1) =~= ssyms@.subrange(0, i as int).push(ssyms@[i as int]));
                    lemma_names_push(ssyms@.subrange(0, i as int), ssyms@[i as int]);
                    assert(names_view(v4@) =~= seq![p@] + names_view(ssyms@.subrange(0, i + 1)));
                }
                i = i + 1;
            }
            v4.push(base.clone());
            add_rule(b, &p, &v4);
            proof {
                assert(ssyms@.subrange(0, ssyms.len() as int) == ssyms@);
                assert(names_view(v3@) =~= seq![base@]);
                assert(names_view(v4@) =~= seq![p@] + names_view(ssyms@) + seq![base@]);
                let r3 = seq![OpV::Rule(p@, seq![base@])];
                let r4 = seq![OpV::Rule(p@, seq![p@] + names_view(ssyms@) + seq![base@])];
                lemma_step(st0, bops, sops);
                lemma_step(st0, bops + sops, decl);
                lemma_step(st0, bops + sops + decl, r3);
                lemma_step(st0, bops + sops + decl + r3, r4);
                assert(bops + sops + decl + r3 + r4 =~= bops + sops + decl + seq![
                    OpV::Rule(p@, seq![base@]),
                    OpV::Rule(p@, seq![p@] + names_view(ssyms@) + seq![base@]),
                ]);
            }
            p
        },
    }
}

/// Converts a factor: adds the productions (and, for groups, the
/// declarations) that define its symbol, and returns the symbol.
pub fn convert_factor(b: &mut EarleyBuilder, factor: &Factor) -> (r: Result<String, String>)
    ensures
        ({
            let (ops, n, c) = factor_s(factor_view(*factor), old(b).next_group as nat);
            &&& final(b).state() == apply_ops(old(b).state(), ops)
            &&& r matches Ok(s) && s@ == n
            &&& final(b).next_group == c
        }),
    decreases factor, 1int,
{
    let ghost st0 = b.state();
    let ghost c0 = b.next_group as nat;
    let base = convert_base(b, factor);
    let ghost bops = base_s(factor_view(*factor), c0).0;
    let sym = convert_rep(b, factor, base, Ghost(st0), Ghost(bops));
    Ok(sym)
}

/// Converts the factors of a sequence, in order, and returns their symbols.
pub fn convert_symbols(b: &mut EarleyBuilder, q: &Sequence) -> (r: Vec<String>)
    ensures
        ({
            let (ops, ns, c) = seq_syms_s(sequence_view(*q).factors, 0, old(b).next_group as nat);
            &&& final(b).state() == apply_ops(old(b).state(), ops)
            &&& names_view(r@) == ns
            &&& final(b).next_group == c
        }),
    decreases q, 0int,
{
    let ghost fs = sequence_view(*q).factors;
    let ghost st0 = b.state();
    let ghost c0 = b.next_group as nat;
    proof {
        lemma_factors_view_index(q.factors@);
        assert(apply_ops(st0, Seq::<OpV>::empty()) == st0);
    }
    let mut names: Vec<String> = Vec::new();
    let ghost mut done: Seq<OpV> = Seq::empty();
    let mut k: usize = 0;
    while k < q.factors.len()
        invariant
            k <= q.factors.len(),
            fs == sequence_view(*q).factors,
            fs.len() == q.factors.len(),
            forall|x: int| 0 <= x < q.factors.len() ==> #[trigger] fs[x] == factor_view(q.factors@[x]),
            b.state() == apply_ops(st0, done),
            seq_syms_s(fs, 0, c0).0 == done + seq_syms_s(fs, k as int, b.next_group as nat).0,
            seq_syms_s(fs, 0, c0).1 == names_view(names@) + seq_syms_s(fs, k as int, b.next_group as nat).1,
            seq_syms_s(fs, 0, c0).2 == seq_syms_s(fs, k as int, b.next_group as nat).2,
        decreases q.factors.len() - k,
    {
        let ghost ck = b.next_group as nat;
        let ghost before = b.state();
        let n = convert_factor(b, &q.factors[k]);
        let n = match n {
            Ok(s) => s,
            Err(e) => e,
        };
        proof {
            let (o1, n1, c1) = factor_s(fs[k as int], ck);
            let (o2, ns, c2) = seq_syms_s(fs, k + 1, c1);
            assert(seq_syms_s(fs, k as int, ck) == (o1 + o2, seq![n1] + ns, c2));
            lemma_step(st0, done, o1);
            assert(done + (o1 + o2) =~= (done + o1) + o2);
        }
        let ghost nb = names@;
        names.push(n);
        proof {
            let (o1, n1, c1) = factor_s(fs[k as int], ck);
            let (o2, ns, c2) = seq_syms_s(fs, k + 1, c1);
            assert(names_view(names@) =~= names_view(nb).push(n1));
            assert(names_view(nb) + (seq![n1] + ns) =~= names_view(names@) + ns);
            done = done + o1;
        }
        k = k + 1;
    }
    proof {
        assert(done + Seq::<OpV>::empty() =~= done);
        assert(names_view(names@) + Seq::<Seq<char>>::empty() =~= names_view(names@));
    }
    names
}

/// Converts the alternatives of group `g`: each alternative's factors, then
/// its production.
pub(crate) fn convert_group_alts(b: &mut EarleyBuilder, a: &crate::ast::Alternatives, g: &String)
    ensures
        ({
            let (ops, c) = group_alts_s(alts_view(*a).alts, 0, g@, old(b).next_group as nat);
            &&& final(b).state() == apply_ops(old(b).state(), ops)
            &&& final(b).next_group == c
        }),
    decreases a, 0int,
{
    let ghost qs = alts_view(*a).alts;
    let ghost st0 = b.state();
    let ghost c0 = b.next_group as nat;
    proof {
        lemma_seqs_view_index(a.alts@);
        assert(apply_ops(st0, Seq::<OpV>::empty()) == st0);
    }
    let ghost mut done: Seq<OpV> = Seq::empty();
    let mut i: usize = 0;
    while i < a.alts.len()
        invariant
            i <= a.alts.len(),
            qs == alts_view(*a).alts,
            qs.len() == a.alts.len(),
            forall|x: int| 0 <= x < a.alts.len() ==> #[trigger] qs[x] == sequence_view(a.alts@[x]),
            b.state() == apply_ops(st0, done),
            group_alts_s(qs, 0, g@, c0).0 == done + group_alts_s(qs, i as int, g@, b.next_group as nat).0,
            group_alts_s(qs, 0, g@, c0).1 == group_alts_s(qs, i as int, g@, b.next_group as nat).1,
        decreases a.alts.len() - i,
    {
        let ghost ci = b.next_group as nat;
        let syms = convert_symbols(b, &a.alts[i]);
        let ghost mid = b.state();
        add_rule(b, g, &syms);
        proof {
            let (o1, ns, c1) = seq_syms_s(qs[i as int].factors, 0, ci);
            let (o2, c2) = group_alts_s(qs, i + 1, g@, c1);
            assert(group_alts_s(qs, i as int, g@, ci) == (o1 + seq![OpV::Rule(g@, ns)] + o2, c2));
            lemma_step(st0, done, o1);
            lemma_step(st0, done + o1, seq![OpV::Rule(g@, ns)]);
            assert(done + (o1 + seq![OpV::Rule(g@, ns)] + o2) =~= (done + o1 + seq![OpV::Rule(g@, ns)]) + o2);
            done = done + o1 + seq![OpV::Rule(g@, ns)];
        }
        i = i + 1;
    }
    proof {
        assert(done + Seq::<OpV>::empty() =~= done);
    }
}

} // verus!
