//! Parsing an iXML grammar into a textual outline of its structure:
//! `GRAMMAR[ RULE:name=ALTS(ALT[...] | ...) ... ]`, with base factors written
//! `LIT:`, `+LIT:`, `NT:` (or `@NT:`, `-NT:`, `^NT:`), `CHARCLASS:[...]`,
//! `~CHARCLASS:[...]` and `(ALTS(...))`, each followed by its repetition
//! operator.  The grammar of grammars is that of `crate::grammar_ast`.
use vstd::prelude::*;

use crate::ast::{
    alts_view, base_view, factor_view, lemma_factors_view_index, lemma_seqs_view_index, rule_view,
    rules_view, sequence_view, Alternatives, AltsV, BaseFactor, BaseV, Factor, FactorV, Mark, RepV,
    Repetition, Rule, RuleV, SeqV, Sequence,
};
use crate::grammar_ast::{parse_grammar_s, parse_tokens_s};
use crate::lexer::{lex, tokens_view, Lexer, Token};
use crate::text::append_str;

verus! {

/// The outline of a base factor.
pub open spec fn render_base(b: BaseV) -> Seq<char>
    decreases b,
{
    match b {
        BaseV::Literal { value, insertion, .. } => if insertion {
            "+LIT:"@ + value
        } else {
            "LIT:"@ + value
        },
        BaseV::Nonterminal { name, mark } => match mark {
            Mark::Attribute => "@NT:"@ + name,
            Mark::Hidden => "-NT:"@ + name,
            Mark::Promoted => "^NT:"@ + name,
            Mark::Unmarked => "NT:"@ + name,
        },
        BaseV::CharClass { content, negated, .. } => if negated {
            "~CHARCLASS:["@ + content + "]"@
        } else {
            "CHARCLASS:["@ + content + "]"@
        },
        BaseV::Group { alternatives } => "("@ + render_alts(alternatives) + ")"@,
    }
}

/// The operator written after a factor.
pub open spec fn rep_suffix(r: RepV) -> Seq<char> {
    match r {
        RepV::OneOrMore => "+"@,
        RepV::ZeroOrMore => "*"@,
        RepV::Optional => "?"@,
        _ => Seq::empty(),
    }
}

/// The factors of a sequence, separated by spaces.
pub open spec fn render_factors(s: Seq<FactorV>) -> Seq<char>
    decreases s,
{
    if s.len() == 0 {
        Seq::empty()
    } else if s.len() == 1 {
        render_base(s[0].base) + rep_suffix(s[0].repetition)
    } else {
        render_factors(s.drop_last()) + " "@ + render_base(s.last().base) + rep_suffix(
            s.last().repetition,
        )
    }
}

/// The alternatives, each as `ALT[...]`, separated by ` | `.
pub open spec fn render_alt_list(s: Seq<SeqV>) -> Seq<char>
    decreases s,
{
    if s.len() == 0 {
        Seq::empty()
    } else if s.len() == 1 {
        "ALT["@ + render_factors(s[0].factors) + "]"@
    } else {
        render_alt_list(s.drop_last()) + " | "@ + "ALT["@ + render_factors(s.last().factors) + "]"@
    }
}

/// `ALTS(...)`.
pub open spec fn render_alts(a: AltsV) -> Seq<char>
    decreases a,
{
    "ALTS("@ + render_alt_list(a.alts) + ")"@
}

/// `RULE:name=ALTS(...)`.
pub open spec fn render_rule(r: RuleV) -> Seq<char> {
    "RULE:"@ + r.name + "="@ + render_alts(r.alternatives)
}

/// The rules, one per line.
pub open spec fn render_rule_list(s: Seq<RuleV>) -> Seq<char>
    decreases s.len(),
{
    if s.len() == 0 {
        Seq::empty()
    } else if s.len() == 1 {
        render_rule(s[0])
    } else {
        render_rule_list(s.drop_last()) + "\n  "@ + render_rule(s.last())
    }
}

/// The outline of a grammar.
pub open spec fn render_grammar(rs: Seq<RuleV>) -> Seq<char> {
    "GRAMMAR[\n  "@ + render_rule_list(rs) + "\n]"@
}

/// The outline of the grammar a token stream holds, or why it holds none.
pub open spec fn outline_tokens_s(ts: Seq<crate::lexer::TokenV>) -> Result<Seq<char>, Seq<char>> {
    match parse_tokens_s(ts) {
        Ok(rs) => Ok(render_grammar(rs)),
        Err(e) => Err(e),
    }
}

/// The outline of the grammar a text holds, or why it holds none.
pub open spec fn outline_grammar_s(input: Seq<char>) -> Result<Seq<char>, Seq<char>> {
    match parse_grammar_s(input) {
        Ok(rs) => Ok(render_grammar(rs)),
        Err(e) => Err(e),
    }
}

/// The view of a textual result.
pub open spec fn text_result_view(r: Result<String, String>) -> Result<Seq<char>, Seq<char>> {
    match r {
        Ok(s) => Ok(s@),
        Err(e) => Err(e@),
    }
}

// ---------------------------------------------------------------------------
// Writing the outline
// ---------------------------------------------------------------------------

fn write_base(b: &BaseFactor, out: &mut String)
    ensures
        final(out)@ == old(out)@ + render_base(base_view(*b)),
    decreases b,
{
    let ghost start = out@;
    match b {
        BaseFactor::Literal { value, insertion, .. } => {
            if *insertion {
                append_str(out, "+LIT:");
            } else {
                append_str(out, "LIT:");
            }
            append_str(out, value.as_str());
        },
        BaseFactor::Nonterminal { name, mark } => {
            match mark {
                Mark::Attribute => append_str(out, "@NT:"),
                Mark::Hidden => append_str(out, "-NT:"),
                Mark::Promoted => append_str(out, "^NT:"),
                Mark::Unmarked => append_str(out, "NT:"),
            }
            append_str(out, name.as_str());
        },
        BaseFactor::CharClass { content, negated, .. } => {
            if *negated {
                append_str(out, "~CHARCLASS:[");
            } else {
                append_str(out, "CHARCLASS:[");
            }
            append_str(out, content.as_str());
            append_str(out, "]");
        },
        BaseFactor::Group { alternatives } => {
            append_str(out, "(");
            write_alts(alternatives, out);
            append_str(out, ")");
        },
    }
    proof {
        assert(out@ =~= start + render_base(base_view(*b)));
    }
}

fn write_factor(f: &Factor, out: &mut String)
    ensures
        final(out)@ == old(out)@ + render_base(factor_view(*f).base) + rep_suffix(
            factor_view(*f).repetition,
        ),
    decreases f,
{
    let ghost start = out@;
    write_base(&f.base, out);
    match &f.repetition {
        Repetition::OneOrMore => append_str(out, "+"),
        Repetition::ZeroOrMore => append_str(out, "*"),
        Repetition::Optional => append_str(out, "?"),
        _ => {},
    }
    proof {
        assert(out@ =~= start + render_base(factor_view(*f).base) + rep_suffix(
            factor_view(*f).repetition,
        ));
    }
}

#[verifier::loop_isolation(false)]
fn write_seq(q: &Sequence, out: &mut String)
    ensures
        final(out)@ == old(out)@ + render_factors(sequence_view(*q).factors),
    decreases q,
{
    let ghost start = out@;
    let ghost fs = sequence_view(*q).factors;
    proof {
        lemma_factors_view_index(q.factors@);
    }
    let mut i: usize = 0;
    while i < q.factors.len()
        invariant
            i <= q.factors.len(),
            fs.len() == q.factors.len(),
            out@ == start + render_factors(fs.take(i as int)),
        decreases q.factors.len() - i,
    {
        proof {
            let t = fs.take(i + 1);
            assert(t.drop_last() =~= fs.take(i as int));
            assert(t.last() == fs[i as int]);
            assert(fs[i as int] == factor_view(q.factors@[i as int]));
        }
        if i > 0 {
            append_str(out, " ");
        }
        write_factor(&q.factors[i], out);
        proof {
            let t = fs.take(i + 1);
            if i == 0 {
                assert(t.len() == 1);
                assert(t[0] == fs[0]);
            }
            assert(out@ =~= start + render_factors(t));
        }
        i = i + 1;
    }
    proof {
        assert(fs.take(q.factors.len() as int) =~= fs);
    }
}

#[verifier::loop_isolation(false)]
fn write_alts(a: &Alternatives, out: &mut String)
    ensures
        final(out)@ == old(out)@ + render_alts(alts_view(*a)),
    decreases a,
{
    let ghost start = out@;
    let ghost qs = alts_view(*a).alts;
    proof {
        lemma_seqs_view_index(a.alts@);
    }
    append_str(out, "ALTS(");
    let mut i: usize = 0;
    while i < a.alts.len()
        invariant
            i <= a.alts.len(),
            qs.len() == a.alts.len(),
            out@ == start + "ALTS("@ + render_alt_list(qs.take(i as int)),
        decreases a.alts.len() - i,
    {
        proof {
            let t = qs.take(i + 1);
            assert(t.drop_last() =~= qs.take(i as int));
            assert(t.last() == qs[i as int]);
            assert(qs[i as int] == sequence_view(a.alts@[i as int]));
        }
        if i > 0 {
            append_str(out, " | ");
        }
        append_str(out, "ALT[");
        write_seq(&a.alts[i], out);
        append_str(out, "]");
        proof {
            let t = qs.take(i + 1);
            if i == 0 {
                assert(t.len() == 1);
                assert(t[0] == qs[0]);
            }
            assert(out@ =~= start + "ALTS("@ + render_alt_list(t));
        }
        i = i + 1;
    }
    append_str(out, ")");
    proof {
        assert(qs.take(a.alts.len() as int) =~= qs);
        assert(out@ =~= start + render_alts(alts_view(*a)));
    }
}

fn write_rule(r: &Rule, out: &mut String)
    ensures
        final(out)@ == old(out)@ + render_rule(rule_view(*r)),
{
    let ghost start = out@;
    append_str(out, "RULE:");
    append_str(out, r.name.as_str());
    append_str(out, "=");
    write_alts(&r.alternatives, out);
    proof {
        assert(out@ =~= start + render_rule(rule_view(*r)));
    }
}

/// The outline of a list of rules.
fn write_grammar(rules: &Vec<Rule>) -> (r: String)
    ensures
        r@ == render_grammar(rules_view(rules@)),
{
    let ghost rs = rules_view(rules@);
    let mut out = String::from_str("GRAMMAR[\n  ");
    let ghost start = out@;
    let mut i: usize = 0;
    while i < rules.len()
        invariant
            i <= rules.len(),
            rs == rules_view(rules@),
            out@ == start + render_rule_list(rs.take(i as int)),
        decreases rules.len() - i,
    {
        proof {
            let t = rs.take(i + 1);
            assert(t.drop_last() =~= rs.take(i as int));
            assert(t.last() == rule_view(rules@[i as int]));
        }
        if i > 0 {
            append_str(&mut out, "\n  ");
        }
        write_rule(&rules[i], &mut out);
        proof {
            let t = rs.take(i + 1);
            if i == 0 {
                assert(t.len() == 1);
                assert(t[0] == rule_view(rules@[0]));
            }
            assert(out@ =~= start + render_rule_list(t));
        }
        i = i + 1;
    }
    append_str(&mut out, "\n]");
    proof {
        assert(rs.take(rules.len() as int) =~= rs);
        assert(out@ =~= render_grammar(rs));
    }
    out
}

/// Parses a token stream into the outline of its grammar.
pub fn parse_tokens(tokens: Vec<Token>) -> (r: Result<String, String>)
    ensures
        text_result_view(r) == outline_tokens_s(tokens_view(tokens@)),
{
    match crate::grammar_ast::parse_tokens(tokens) {
        Ok(g) => Ok(write_grammar(&g.rules)),
        Err(e) => Err(e),
    }
}

/// Parses a grammar text into the outline of its structure.
pub fn parse_ixml_grammar_v2(input: &str) -> (r: Result<String, String>)
    ensures
        text_result_view(r) == outline_grammar_s(input@),
{
    let mut lexer = Lexer::new(input);
    match lexer.tokenize() {
        Err(e) => Err(e),
        Ok(ts) => parse_tokens(ts),
    }
}

} // verus!
