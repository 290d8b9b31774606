//! Parsing the token stream of an iXML grammar into its abstract syntax.
//!
//! The grammar of grammars, over tokens:
//!
//! ```text
//! Grammar      := Rule+
//! Rule         := ident ':' Alternatives '.'
//! Alternatives := Sequence ('|' Sequence)*
//! Sequence     := Factor+
//! Factor       := BaseFactor ('+' | '*' | '?')?
//! BaseFactor   := string | '+' string | ident | ('@' | '-' | '^') ident
//!               | '(' Alternatives ')' | charclass | '~' charclass
//! ```
//!
//! A `+` after a factor that is followed by a string is an insertion, not a
//! repetition.  Tokens after the first end-of-input token are ignored.
use vstd::prelude::*;

use crate::ast::{
    factors_view, lemma_factors_view_push, lemma_seqs_view_push, rule_view, rules_view, seqs_view,
    AltsV, Alternatives, BaseFactor, BaseV, Factor, FactorV, IxmlGrammar, Mark, RepV, Repetition,
    Rule, RuleV, SeqV, Sequence, base_view, factor_view, sequence_view, alts_view,
};
use crate::lexer::{lex, lex_result_is, tokens_view, Lexer, Token, TokenV};
use crate::text::{append_str, decimal, push_decimal};

verus! {

// ---------------------------------------------------------------------------
// Specification
// ---------------------------------------------------------------------------

/// The token at `i`, if any.
pub open spec fn tok(ts: Seq<TokenV>, i: int) -> Option<TokenV> {
    if 0 <= i < ts.len() {
        Some(ts[i])
    } else {
        None
    }
}

/// The index of the first end-of-input token at or after `k` (the length if
/// there is none).
pub open spec fn first_eof(ts: Seq<TokenV>, k: int) -> int
    decreases ts.len() - k,
{
    if k < 0 || k >= ts.len() {
        ts.len() as int
    } else if ts[k] is Eof {
        k
    } else {
        first_eof(ts, k + 1)
    }
}

/// The tokens before the first end-of-input token.
pub open spec fn until_eof(ts: Seq<TokenV>) -> Seq<TokenV> {
    ts.take(first_eof(ts, 0))
}

/// Whether a token can start a factor.
pub open spec fn starts_factor(t: TokenV) -> bool {
    ||| t is Str
    ||| t is Plus
    ||| t is Ident
    ||| t is At
    ||| t is Minus
    ||| t is Caret
    ||| t is LParen
    ||| t is CharClass
    ||| t is Tilde
}

/// Whether the token at `i` is a string.
pub open spec fn is_str_at(ts: Seq<TokenV>, i: int) -> bool {
    tok(ts, i) matches Some(TokenV::Str(_))
}

/// The mark a prefix token stands for.
pub open spec fn prefix_mark(t: TokenV) -> Mark {
    match t {
        TokenV::At => Mark::Attribute,
        TokenV::Minus => Mark::Hidden,
        _ => Mark::Promoted,
    }
}

/// A base factor at `i`: the factor and the index after it, or the index
/// of the token that does not fit.
pub open spec fn g_base(ts: Seq<TokenV>, i: int) -> Result<(BaseV, int), int>
    decreases ts.len() - i, 0int,
{
    match tok(ts, i) {
        Some(TokenV::Str(s)) => Ok((BaseV::Literal { value: s, insertion: false, mark: Mark::Unmarked }, i + 1)),
        Some(TokenV::Plus) => match tok(ts, i + 1) {
            Some(TokenV::Str(s)) => Ok((BaseV::Literal { value: s, insertion: true, mark: Mark::Unmarked }, i + 2)),
            _ => Err(i + 1),
        },
        Some(TokenV::Ident(n)) => Ok((BaseV::Nonterminal { name: n, mark: Mark::Unmarked }, i + 1)),
        Some(TokenV::At) | Some(TokenV::Minus) | Some(TokenV::Caret) => match tok(ts, i + 1) {
            Some(TokenV::Ident(n)) => Ok((BaseV::Nonterminal { name: n, mark: prefix_mark(ts[i]) }, i + 2)),
            _ => Err(i + 1),
        },
        Some(TokenV::LParen) => match g_alts(ts, i + 1) {
            Err(k) => Err(k),
            Ok((a, j)) => if tok(ts, j) matches Some(TokenV::RParen) {
                Ok((BaseV::Group { alternatives: a }, j + 1))
            } else {
                Err(j)
            },
        },
        Some(TokenV::CharClass(c)) => Ok((BaseV::CharClass { content: c, negated: false, mark: Mark::Unmarked }, i + 1)),
        Some(TokenV::Tilde) => match tok(ts, i + 1) {
            Some(TokenV::CharClass(c)) => Ok((BaseV::CharClass { content: c, negated: true, mark: Mark::Unmarked }, i + 2)),
            _ => Err(i + 1),
        },
        _ => Err(i),
    }
}

/// A factor at `i`: a base factor and its repetition.
pub open spec fn g_factor(ts: Seq<TokenV>, i: int) -> Result<(FactorV, int), int>
    decreases ts.len() - i, 1int,
{
    match g_base(ts, i) {
        Err(k) => Err(k),
        Ok((b, j)) => match tok(ts, j) {
            Some(TokenV::Star) => Ok((FactorV { base: b, repetition: RepV::ZeroOrMore }, j + 1)),
            Some(TokenV::Question) => Ok((FactorV { base: b, repetition: RepV::Optional }, j + 1)),
            Some(TokenV::Plus) => if is_str_at(ts, j + 1) {
                Ok((FactorV { base: b, repetition: RepV::Once }, j))
            } else {
                Ok((FactorV { base: b, repetition: RepV::OneOrMore }, j + 1))
            },
            _ => Ok((FactorV { base: b, repetition: RepV::Once }, j)),
        },
    }
}

/// More factors of a sequence from `i` on, after `acc`.
pub open spec fn g_seq_more(ts: Seq<TokenV>, i: int, acc: Seq<FactorV>) -> Result<(SeqV, int), int>
    decreases ts.len() - i, 2int,
{
    if tok(ts, i) matches Some(t) && starts_factor(t) {
        match g_factor(ts, i) {
            Err(k) => Err(k),
            Ok((f, j)) => if i < j <= ts.len() {
                g_seq_more(ts, j, acc.push(f))
            } else {
                Err(j)
            },
        }
    } else {
        Ok((SeqV { factors: acc }, i))
    }
}

/// A sequence at `i`: one factor or more.
pub open spec fn g_seq(ts: Seq<TokenV>, i: int) -> Result<(SeqV, int), int>
    decreases ts.len() - i, 3int,
{
    match g_factor(ts, i) {
        Err(k) => Err(k),
        Ok((f, j)) => if i < j <= ts.len() {
            g_seq_more(ts, j, seq![f])
        } else {
            Err(j)
        },
    }
}

/// More alternatives from `i` on, after `acc`.
pub open spec fn g_alts_more(ts: Seq<TokenV>, i: int, acc: Seq<SeqV>) -> Result<(AltsV, int), int>
    decreases ts.len() - i, 4int,
{
    if tok(ts, i) matches Some(TokenV::Pipe) {
        match g_seq(ts, i + 1) {
            Err(k) => Err(k),
            Ok((q, j)) => if i < j <= ts.len() {
                g_alts_more(ts, j, acc.push(q))
            } else {
                Err(j)
            },
        }
    } else {
        Ok((AltsV { alts: acc }, i))
    }
}

/// Alternatives at `i`: sequences separated by `|`.
pub open spec fn g_alts(ts: Seq<TokenV>, i: int) -> Result<(AltsV, int), int>
    decreases ts.len() - i, 5int,
{
    match g_seq(ts, i) {
        Err(k) => Err(k),
        Ok((q, j)) => if i < j <= ts.len() {
            g_alts_more(ts, j, seq![q])
        } else {
            Err(j)
        },
    }
}

/// A rule at `i`.
pub open spec fn g_rule(ts: Seq<TokenV>, i: int) -> Result<(RuleV, int), int> {
    match tok(ts, i) {
        Some(TokenV::Ident(n)) => if tok(ts, i + 1) matches Some(TokenV::Colon) {
            match g_alts(ts, i + 2) {
                Err(k) => Err(k),
                Ok((a, j)) => if tok(ts, j) matches Some(TokenV::Period) {
                    Ok((RuleV { name: n, mark: Mark::Unmarked, alternatives: a }, j + 1))
                } else {
                    Err(j)
                },
            }
        } else {
            Err(i + 1)
        },
        _ => Err(i),
    }
}

/// Rules from `i` to the end, after `acc`.
pub open spec fn g_rules(ts: Seq<TokenV>, i: int, acc: Seq<RuleV>) -> Result<Seq<RuleV>, int>
    decreases ts.len() - i,
{
    match g_rule(ts, i) {
        Err(k) => Err(k),
        Ok((r, j)) => if j >= ts.len() {
            Ok(acc.push(r))
        } else if i < j {
            g_rules(ts, j, acc.push(r))
        } else {
            Err(j)
        },
    }
}

/// The message for a token stream of length `n` that does not fit at `k`.
pub open spec fn syntax_error(k: int, n: int) -> Seq<char> {
    if k >= n {
        "Accept error: unexpected end of input"@
    } else {
        "Parse error: unexpected token at index "@ + decimal(k as nat)
    }
}

/// The rules of a token stream, or the message of why it is no grammar.
pub open spec fn parse_tokens_s(ts: Seq<TokenV>) -> Result<Seq<RuleV>, Seq<char>> {
    let t = until_eof(ts);
    match g_rules(t, 0, Seq::empty()) {
        Ok(rs) => Ok(rs),
        Err(k) => Err(syntax_error(k, t.len() as int)),
    }
}

/// The rules of a grammar text, or the message of why it is no grammar.
pub open spec fn parse_grammar_s(input: Seq<char>) -> Result<Seq<RuleV>, Seq<char>> {
    match lex(input) {
        Err(e) => Err(e),
        Ok(ts) => parse_tokens_s(ts),
    }
}

/// The view of a parsed grammar.
pub open spec fn grammar_result_view(r: Result<IxmlGrammar, String>) -> Result<Seq<RuleV>, Seq<char>> {
    match r {
        Ok(g) => Ok(rules_view(g.rules@)),
        Err(e) => Err(e@),
    }
}

// ---------------------------------------------------------------------------
// The parser
// ---------------------------------------------------------------------------

/// The view of the first `n` tokens.
pub open spec fn window(ts: Seq<Token>, n: int) -> Seq<TokenV> {
    tokens_view(ts).take(n)
}

/// Whether the token at `i` (below `n`) is a string.
fn is_string_at(ts: &Vec<Token>, n: usize, i: usize) -> (r: bool)
    requires
        n <= ts.len(),
    ensures
        r == is_str_at(window(ts@, n as int), i as int),
{
    if i < n {
        match &ts[i] {
            Token::String(_) => true,
            _ => false,
        }
    } else {
        false
    }
}

/// Parses a base factor at `i`.
fn p_base(ts: &Vec<Token>, n: usize, i: usize) -> (r: Result<(BaseFactor, usize), usize>)
    requires
        n <= ts.len(),
        i <= n,
    ensures
        match r {
            Ok((b, j)) => g_base(window(ts@, n as int), i as int) == Ok::<(BaseV, int), int>((base_view(b), j as int)) && i < j <= n,
            Err(k) => g_base(window(ts@, n as int), i as int) == Err::<(BaseV, int), int>(k as int),
        },
    decreases n - i, 0int,
{
    let ghost t = window(ts@, n as int);
    if i >= n {
        return Err(i);
    }
    proof {
        assert(t[i as int] == ts@[i as int]@);
        if i + 1 < n {
            assert(t[i + 1] == ts@[i + 1]@);
        }
    }
    match &ts[i] {
        Token::String(s) => Ok((BaseFactor::literal(s.clone()), i + 1)),
        Token::Plus => {
            if i + 1 < n {
                match &ts[i + 1] {
                    Token::String(s) => {
                        return Ok((BaseFactor::insertion(s.clone()), i + 2));
                    },
                    _ => {},
                }
            }
            Err(i + 1)
        },
        Token::Ident(name) => Ok((BaseFactor::nonterminal(name.clone()), i + 1)),
        Token::At | Token::Minus | Token::Caret => {
            let mark = match &ts[i] {
                Token::At => Mark::Attribute,
                Token::Minus => Mark::Hidden,
                _ => Mark::Promoted,
            };
            if i + 1 < n {
                match &ts[i + 1] {
                    Token::Ident(name) => {
                        return Ok((BaseFactor::marked_nonterminal(name.clone(), mark), i + 2));
                    },
                    _ => {},
                }
            }
            Err(i + 1)
        },
        Token::LParen => {
            match p_alts(ts, n, i + 1) {
                Err(k) => Err(k),
                Ok((alts, j)) => {
                    if j < n {
                        proof {
                            assert(t[j as int] == ts@[j as int]@);
                        }
                        match &ts[j] {
                            Token::RParen => {
                                return Ok((BaseFactor::group(alts), j + 1));
                            },
                            _ => {},
                        }
                    }
                    Err(j)
                },
            }
        },
        Token::CharClass(c) => Ok((BaseFactor::charclass(c.clone()), i + 1)),
        Token::Tilde => {
            if i + 1 < n {
                match &ts[i + 1] {
                    Token::CharClass(c) => {
                        return Ok((BaseFactor::negated_charclass(c.clone()), i + 2));
                    },
                    _ => {},
                }
            }
            Err(i + 1)
        },
        _ => Err(i),
    }
}

/// Parses a factor at `i`.
fn p_factor(ts: &Vec<Token>, n: usize, i: usize) -> (r: Result<(Factor, usize), usize>)
    requires
        n <= ts.len(),
        i <= n,
    ensures
        match r {
            Ok((f, j)) => g_factor(window(ts@, n as int), i as int) == Ok::<(FactorV, int), int>((factor_view(f), j as int)) && i < j <= n,
            Err(k) => g_factor(window(ts@, n as int), i as int) == Err::<(FactorV, int), int>(k as int),
        },
    decreases n - i, 1int,
{
    let ghost t = window(ts@, n as int);
    match p_base(ts, n, i) {
        Err(k) => Err(k),
        Ok((base, j)) => {
            if j < n {
                proof {
                    assert(t[j as int] == ts@[j as int]@);
                }
                match &ts[j] {
                    Token::Star => {
                        return Ok((Factor::new(base, Repetition::ZeroOrMore), j + 1));
                    },
                    Token::Question => {
                        return Ok((Factor::new(base, Repetition::Optional), j + 1));
                    },
                    Token::Plus => {
                        if is_string_at(ts, n, j + 1) {
                            return Ok((Factor::simple(base), j));
                        } else {
                            return Ok((Factor::new(base, Repetition::OneOrMore), j + 1));
                        }
                    },
                    _ => {},
                }
            }
            Ok((Factor::simple(base), j))
        },
    }
}

/// Whether the token at `i` (below `n`) can start a factor.
fn starts_factor_at(ts: &Vec<Token>, n: usize, i: usize) -> (r: bool)
    requires
        n <= ts.len(),
    ensures
        r == (tok(window(ts@, n as int), i as int) matches Some(x) && starts_factor(x)),
{
    if i < n {
        match &ts[i] {
            Token::String(_) | Token::Plus | Token::Ident(_) | Token::At | Token::Minus
            | Token::Caret | Token::LParen | Token::CharClass(_) | Token::Tilde => true,
            _ => false,
        }
    } else {
        false
    }
}

/// Parses a sequence at `i`.
fn p_seq(ts: &Vec<Token>, n: usize, i: usize) -> (r: Result<(Sequence, usize), usize>)
    requires
        n <= ts.len(),
        i <= n,
    ensures
        match r {
            Ok((q, j)) => g_seq(window(ts@, n as int), i as int) == Ok::<(SeqV, int), int>((sequence_view(q), j as int)) && i < j <= n,
            Err(k) => g_seq(window(ts@, n as int), i as int) == Err::<(SeqV, int), int>(k as int),
        },
    decreases n - i, 3int,
{
    let ghost t = window(ts@, n as int);
    let (first, j0) = match p_factor(ts, n, i) {
        Err(k) => {
            return Err(k);
        },
        Ok(x) => x,
    };
    let mut factors: Vec<Factor> = Vec::new();
    factors.push(first);
    proof {
        lemma_factors_view_push(Seq::empty(), first);
        assert(Seq::<Factor>::empty().push(first) == factors@);
        assert(factors_view(Seq::<Factor>::empty()) == Seq::<FactorV>::empty());
        assert(seq![factor_view(first)] == Seq::<FactorV>::empty().push(factor_view(first)));
    }
    let mut j = j0;
    while starts_factor_at(ts, n, j)
        invariant
            n <= ts.len(),
            i < j <= n,
            t == window(ts@, n as int),
            g_seq(t, i as int) == g_seq_more(t, j as int, factors_view(factors@)),
        decreases n - j,
    {
        match p_factor(ts, n, j) {
            Err(k) => {
                return Err(k);
            },
            Ok((f, j2)) => {
                let ghost before = factors@;
                factors.push(f);
                proof {
                    lemma_factors_view_push(before, f);
                }
                j = j2;
            },
        }
    }
    Ok((Sequence::new(factors), j))
}

/// Whether the token at `i` (below `n`) is `|`.
fn is_pipe_at(ts: &Vec<Token>, n: usize, i: usize) -> (r: bool)
    requires
        n <= ts.len(),
    ensures
        r == (tok(window(ts@, n as int), i as int) matches Some(TokenV::Pipe)),
{
    if i < n {
        match &ts[i] {
            Token::Pipe => true,
            _ => false,
        }
    } else {
        false
    }
}

/// Whether the token at `i` is the end-of-input token.
fn is_eof_at(ts: &Vec<Token>, i: usize) -> (r: bool)
    requires
        i < ts.len(),
    ensures
        r == (ts@[i as int]@ is Eof),
{
    match &ts[i] {
        Token::Eof => true,
        _ => false,
    }
}

/// Parses alternatives at `i`.
fn p_alts(ts: &Vec<Token>, n: usize, i: usize) -> (r: Result<(Alternatives, usize), usize>)
    requires
        n <= ts.len(),
        i <= n,
    ensures
        match r {
            Ok((a, j)) => g_alts(window(ts@, n as int), i as int) == Ok::<(AltsV, int), int>((alts_view(a), j as int)) && i < j <= n,
            Err(k) => g_alts(window(ts@, n as int), i as int) == Err::<(AltsV, int), int>(k as int),
        },
    decreases n - i, 5int,
{
    let ghost t = window(ts@, n as int);
    let (first, j0) = match p_seq(ts, n, i) {
        Err(k) => {
            return Err(k);
        },
        Ok(x) => x,
    };
    let mut alts: Vec<Sequence> = Vec::new();
    alts.push(first);
    proof {
        lemma_seqs_view_push(Seq::empty(), first);
        assert(Seq::<Sequence>::empty().push(first) == alts@);
        assert(seqs_view(Seq::<Sequence>::empty()) == Seq::<SeqV>::empty());
        assert(seq![sequence_view(first)] == Seq::<SeqV>::empty().push(sequence_view(first)));
    }
    let mut j = j0;
    while is_pipe_at(ts, n, j)
        invariant
            n <= ts.len(),
            i < j <= n,
            t == window(ts@, n as int),
            g_alts(t, i as int) == g_alts_more(t, j as int, seqs_view(alts@)),
        decreases n - j,
    {
        match p_seq(ts, n, j + 1) {
            Err(k) => {
                return Err(k);
            },
            Ok((q, j2)) => {
                let ghost before = alts@;
                alts.push(q);
                proof {
                    lemma_seqs_view_push(before, q);
                }
                j = j2;
            },
        }
    }
    Ok((Alternatives::new(alts), j))
}

/// Parses a rule at `i`.
fn p_rule(ts: &Vec<Token>, n: usize, i: usize) -> (r: Result<(Rule, usize), usize>)
    requires
        n <= ts.len(),
        i <= n,
    ensures
        match r {
            Ok((x, j)) => g_rule(window(ts@, n as int), i as int) == Ok::<(RuleV, int), int>((rule_view(x), j as int)) && i < j <= n,
            Err(k) => g_rule(window(ts@, n as int), i as int) == Err::<(RuleV, int), int>(k as int),
        },
{
    let ghost t = window(ts@, n as int);
    if i >= n {
        return Err(i);
    }
    proof {
        assert(t[i as int] == ts@[i as int]@);
    }
    let name = match &ts[i] {
        Token::Ident(s) => s.clone(),
        _ => {
            return Err(i);
        },
    };
    let colon = if i + 1 < n {
        proof {
            assert(t[i + 1] == ts@[i + 1]@);
        }
        match &ts[i + 1] {
            Token::Colon => true,
            _ => false,
        }
    } else {
        false
    };
    if !colon {
        return Err(i + 1);
    }
    match p_alts(ts, n, i + 2) {
        Err(k) => Err(k),
        Ok((alts, j)) => {
            if j < n {
                proof {
                    assert(t[j as int] == ts@[j as int]@);
                }
                match &ts[j] {
                    Token::Period => {
                        return Ok((Rule::new(name, Mark::Unmarked, alts), j + 1));
                    },
                    _ => {},
                }
            }
            Err(j)
        },
    }
}

/// The message for a token stream of length `n` that does not fit at `k`.
fn syntax_error_message(k: usize, n: usize) -> (r: String)
    ensures
        r@ == syntax_error(k as int, n as int),
{
    if k >= n {
        String::from_str("Accept error: unexpected end of input")
    } else {
        let mut m = String::from_str("Parse error: unexpected token at index ");
        push_decimal(&mut m, k);
        m
    }
}

/// Parses a token stream into a grammar.
pub fn parse_tokens(tokens: Vec<Token>) -> (r: Result<IxmlGrammar, String>)
    ensures
        grammar_result_view(r) == parse_tokens_s(tokens_view(tokens@)),
{
    let ghost tv = tokens_view(tokens@);
    let mut n: usize = 0;
    while n < tokens.len() && !is_eof_at(&tokens, n)
        invariant
            n <= tokens.len(),
            tv == tokens_view(tokens@),
            first_eof(tv, 0) == first_eof(tv, n as int),
        decreases tokens.len() - n,
    {
        n = n + 1;
    }
    proof {
        assert(first_eof(tv, n as int) == n);
        assert(until_eof(tv) == window(tokens@, n as int));
    }
    let ghost t = window(tokens@, n as int);
    let mut rules: Vec<Rule> = Vec::new();
    let mut i: usize = 0;
    proof {
        assert(rules_view(rules@) =~= Seq::empty());
    }
    loop
        invariant
            n <= tokens.len(),
            i <= n,
            t == window(tokens@, n as int),
            t == until_eof(tokens_view(tokens@)),
            t.len() == n,
            g_rules(t, 0, Seq::empty()) == g_rules(t, i as int, rules_view(rules@)),
        decreases n - i,
    {
        match p_rule(&tokens, n, i) {
            Err(k) => {
                return Err(syntax_error_message(k, n));
            },
            Ok((rule, j)) => {
                let ghost before = rules@;
                rules.push(rule);
                proof {
                    assert(rules_view(rules@) =~= rules_view(before).push(rule_view(rule)));
                }
                if j >= n {
                    return Ok(IxmlGrammar::new(rules));
                }
                i = j;
            },
        }
    }
}

/// Parses an iXML grammar from its text.
pub fn parse_ixml_grammar(input: &str) -> (r: Result<IxmlGrammar, String>)
    ensures
        grammar_result_view(r) == parse_grammar_s(input@),
{
    let mut lexer = Lexer::new(input);
    let tokens = lexer.tokenize();
    match tokens {
        Err(e) => Err(e),
        Ok(ts) => parse_tokens(ts),
    }
}

} // verus!
