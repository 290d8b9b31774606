//! Handwritten recursive descent parser for iXML grammars.
//!
//! ```text
//! Grammar      := Rule+
//! Rule         := ('@' | '-' | '^')? ident ':' Alternatives '.'
//! Alternatives := Sequence (('|' | ';') Sequence)*
//! Sequence     := (empty, before '.', '|', ';' or ')')
//!               | Factor (',' Factor)*  |  Factor+
//! Factor       := BaseFactor ('?' | '*' | '+' | '**' Sep | '++' Sep)?
//! Sep          := '(' Sequence ')' | BaseFactor
//! BaseFactor   := ('@' | '-' | '^') (string | hex | charclass | ident)
//!               | '+' string | '~' charclass
//!               | ident | string | charclass | hex | '(' Alternatives ')'
//! ```
//!
//! A sequence whose second factor is introduced by `,` takes further
//! factors only after commas; otherwise it takes factors up to one of the
//! tokens that end a sequence.  On an error the parser stops where it found
//! it; the message names what was expected and, often, the token found (in
//! its `Debug` form).
use vstd::prelude::*;

use crate::ast::{
    alts_view, base_view, factor_view, factors_view, lemma_factors_view_push, lemma_seqs_view_push,
    rule_view, rules_view, seqs_view, sequence_view, Alternatives, AltsV, BaseFactor, BaseV,
    Factor, FactorV, IxmlGrammar, Mark, RepV, Repetition, Rule, RuleV, SeqV, Sequence,
};
use crate::charclass::{char_from_u32, hex_digit, hex_digit_exec, is_scalar};
use crate::grammar_ast::{prefix_mark, tok};
use crate::lexer::{lex, tokens_view, Lexer, Token, TokenV};
use crate::text::{append_str, char_to_string, debug_str, debug_text, str_to_chars};

verus! {

// ---------------------------------------------------------------------------
// Token descriptions
// ---------------------------------------------------------------------------

/// A token as its `Debug` form writes it.
pub open spec fn token_debug(t: TokenV) -> Seq<char> {
    match t {
        TokenV::Ident(s) => "Ident("@ + debug_text(s) + ")"@,
        TokenV::Str(s) => "String("@ + debug_text(s) + ")"@,
        TokenV::CharClass(s) => "CharClass("@ + debug_text(s) + ")"@,
        TokenV::HexChar(s) => "HexChar("@ + debug_text(s) + ")"@,
        TokenV::Colon => "Colon"@,
        TokenV::Period => "Period"@,
        TokenV::Semicolon => "Semicolon"@,
        TokenV::Pipe => "Pipe"@,
        TokenV::Plus => "Plus"@,
        TokenV::Star => "Star"@,
        TokenV::Question => "Question"@,
        TokenV::At => "At"@,
        TokenV::Minus => "Minus"@,
        TokenV::Caret => "Caret"@,
        TokenV::Tilde => "Tilde"@,
        TokenV::LParen => "LParen"@,
        TokenV::RParen => "RParen"@,
        TokenV::LBracket => "LBracket"@,
        TokenV::RBracket => "RBracket"@,
        TokenV::Comma => "Comma"@,
        TokenV::Equals => "Equals"@,
        TokenV::DoubleStar => "DoubleStar"@,
        TokenV::DoublePlus => "DoublePlus"@,
        TokenV::Eof => "Eof"@,
    }
}

/// An optional token as its `Debug` form writes it.
pub open spec fn opt_token_debug(t: Option<TokenV>) -> Seq<char> {
    match t {
        Some(x) => "Some("@ + token_debug(x) + ")"@,
        None => "None"@,
    }
}

fn write_token_debug(t: &Token) -> (r: String)
    ensures
        r@ == token_debug(t@),
{
    match t {
        Token::Ident(s) => with_payload("Ident(", s),
        Token::String(s) => with_payload("String(", s),
        Token::CharClass(s) => with_payload("CharClass(", s),
        Token::HexChar(s) => with_payload("HexChar(", s),
        Token::Colon => String::from_str("Colon"),
        Token::Period => String::from_str("Period"),
        Token::Semicolon => String::from_str("Semicolon"),
        Token::Pipe => String::from_str("Pipe"),
        Token::Plus => String::from_str("Plus"),
        Token::Star => String::from_str("Star"),
        Token::Question => String::from_str("Question"),
        Token::At => String::from_str("At"),
        Token::Minus => String::from_str("Minus"),
        Token::Caret => String::from_str("Caret"),
        Token::Tilde => String::from_str("Tilde"),
        Token::LParen => String::from_str("LParen"),
        Token::RParen => String::from_str("RParen"),
        Token::LBracket => String::from_str("LBracket"),
        Token::RBracket => String::from_str("RBracket"),
        Token::Comma => String::from_str("Comma"),
        Token::Equals => String::from_str("Equals"),
        Token::DoubleStar => String::from_str("DoubleStar"),
        Token::DoublePlus => String::from_str("DoublePlus"),
        Token::Eof => String::from_str("Eof"),
    }
}

/// `prefix`, the `Debug` form of `s`, and `)`.
fn with_payload(prefix: &str, s: &String) -> (r: String)
    ensures
        r@ == prefix@ + debug_text(s@) + ")"@,
{
    let mut out = String::from_str(prefix);
    let d = debug_str(s.as_str());
    append_str(&mut out, d.as_str());
    append_str(&mut out, ")");
    out
}

fn write_opt_token_debug(t: &Option<Token>) -> (r: String)
    ensures
        r@ == opt_token_debug(
            match t {
                Some(x) => Some(x@),
                None => None,
            },
        ),
{
    match t {
        Some(x) => {
            let mut out = String::from_str("Some(");
            let d = write_token_debug(x);
            append_str(&mut out, d.as_str());
            append_str(&mut out, ")");
            out
        },
        None => String::from_str("None"),
    }
}

// ---------------------------------------------------------------------------
// Hexadecimal characters
// ---------------------------------------------------------------------------

/// Hex digits from `k` on, after the value `acc`: the value, or why there is
/// none (a digit that is not hexadecimal, or a value past `u32::MAX`), read
/// left to right.
pub open spec fn radix16_from(s: Seq<char>, k: int, acc: nat) -> Result<u32, Seq<char>>
    decreases s.len() - k,
{
    if k < 0 || k >= s.len() {
        Ok(acc as u32)
    } else {
        match hex_digit(s[k]) {
            None => Err("invalid digit found in string"@),
            Some(d) => if acc * 16 + d > u32::MAX {
                Err("number too large to fit in target type"@)
            } else {
                radix16_from(s, k + 1, (acc * 16 + d) as nat)
            },
        }
    }
}

/// `u32::from_str_radix(s, 16)`: an optional `+`, then hex digits.
pub open spec fn u32_from_hex(s: Seq<char>) -> Result<u32, Seq<char>> {
    if s.len() == 0 {
        Err("cannot parse integer from empty string"@)
    } else if (s[0] == '+' || s[0] == '-') && s.len() == 1 {
        Err("invalid digit found in string"@)
    } else if s[0] == '+' {
        radix16_from(s, 1, 0)
    } else {
        radix16_from(s, 0, 0)
    }
}

/// The character of a hexadecimal code.
pub open spec fn hex_to_char_s(h: Seq<char>) -> Result<char, Seq<char>> {
    match u32_from_hex(h) {
        Err(m) => Err("Invalid hex value: "@ + m),
        Ok(v) => if is_scalar(v as nat) {
            Ok(v as char)
        } else {
            Err("Invalid Unicode code point: #"@ + h)
        },
    }
}

fn parse_hex_u32(s: &str) -> (r: Result<u32, String>)
    ensures
        match r {
            Ok(v) => u32_from_hex(s@) == Ok::<u32, Seq<char>>(v),
            Err(m) => u32_from_hex(s@) == Err::<u32, Seq<char>>(m@),
        },
{
    let cs = str_to_chars(s);
    if cs.len() == 0 {
        return Err(String::from_str("cannot parse integer from empty string"));
    }
    if (cs[0] == '+' || cs[0] == '-') && cs.len() == 1 {
        return Err(String::from_str("invalid digit found in string"));
    }
    let mut k: usize = if cs[0] == '+' {
        1
    } else {
        0
    };
    let ghost k0 = k as int;
    let mut acc: u32 = 0;
    while k < cs.len()
        invariant
            cs@ == s@,
            k <= cs.len(),
            u32_from_hex(s@) == radix16_from(s@, k as int, acc as nat),
        decreases cs.len() - k,
    {
        match hex_digit_exec(cs[k]) {
            None => {
                return Err(String::from_str("invalid digit found in string"));
            },
            Some(d) => {
                proof {
                    assert(d < 16) by {
                        assert(hex_digit(cs@[k as int]) == Some(d));
                    }
                }
                if acc > (u32::MAX - d) / 16 {
                    proof {
                        assert(acc * 16 + d > u32::MAX) by (nonlinear_arith)
                            requires
                                acc > (u32::MAX - d) / 16,
                                d < 16,
                        ;
                    }
                    return Err(String::from_str("number too large to fit in target type"));
                }
                proof {
                    assert(acc * 16 + d <= u32::MAX) by (nonlinear_arith)
                        requires
                            acc <= (u32::MAX - d) / 16,
                            d < 16,
                    ;
                }
                acc = acc * 16 + d;
            },
        }
        k = k + 1;
    }
    Ok(acc)
}

// ---------------------------------------------------------------------------
// Specification of the parser
// ---------------------------------------------------------------------------

/// The message for a token that is missing at the end of the input.
pub open spec fn expect_error(description: Seq<char>) -> Seq<char> {
    "Expected "@ + description + " but reached end of input"@
}

/// Whether the token at `i` ends a sequence.
pub open spec fn ends_seq(ts: Seq<TokenV>, i: int) -> bool {
    ||| tok(ts, i) == Some(TokenV::Period)
    ||| tok(ts, i) == Some(TokenV::Pipe)
    ||| tok(ts, i) == Some(TokenV::Semicolon)
    ||| tok(ts, i) == Some(TokenV::RParen)
}

/// Whether the token at `i` is a mark prefix.
pub open spec fn is_prefix(ts: Seq<TokenV>, i: int) -> bool {
    ||| tok(ts, i) == Some(TokenV::At)
    ||| tok(ts, i) == Some(TokenV::Minus)
    ||| tok(ts, i) == Some(TokenV::Caret)
}

/// A base factor at `i`: the factor and the position after it, or the
/// message and the position where parsing stopped.
pub open spec fn pg_base(ts: Seq<TokenV>, i: int) -> Result<(BaseV, int), (Seq<char>, int)>
    decreases ts.len() - i, 0int,
{
    if is_prefix(ts, i) {
        let mark = prefix_mark(ts[i]);
        let j = i + 1;
        match tok(ts, j) {
            Some(TokenV::Str(s)) => Ok((BaseV::Literal { value: s, insertion: false, mark }, j + 1)),
            Some(TokenV::HexChar(h)) => match hex_to_char_s(h) {
                Ok(c) => Ok((BaseV::Literal { value: seq![c], insertion: false, mark }, j + 1)),
                Err(m) => Err((m, j + 1)),
            },
            Some(TokenV::CharClass(s)) => Ok((BaseV::CharClass { content: s, negated: false, mark }, j + 1)),
            Some(TokenV::Ident(s)) => Ok((BaseV::Nonterminal { name: s, mark }, j + 1)),
            other => Err((
                "Expected string, hex char, character class, or identifier after mark, got "@
                    + opt_token_debug(other),
                j,
            )),
        }
    } else if tok(ts, i) == Some(TokenV::Plus) {
        match tok(ts, i + 1) {
            None => Err((expect_error("string after '+'"@), i + 1)),
            Some(TokenV::Str(s)) => Ok((BaseV::Literal { value: s, insertion: true, mark: Mark::Unmarked }, i + 2)),
            Some(o) => Err(("Expected string after '+', got "@ + token_debug(o), i + 2)),
        }
    } else if tok(ts, i) == Some(TokenV::Tilde) {
        match tok(ts, i + 1) {
            None => Err((expect_error("character class after '~'"@), i + 1)),
            Some(TokenV::CharClass(s)) => Ok((BaseV::CharClass { content: s, negated: true, mark: Mark::Unmarked }, i + 2)),
            Some(o) => Err(("Expected character class after '~', got "@ + token_debug(o), i + 2)),
        }
    } else {
        match tok(ts, i) {
            Some(TokenV::Ident(s)) => Ok((BaseV::Nonterminal { name: s, mark: Mark::Unmarked }, i + 1)),
            Some(TokenV::Str(s)) => Ok((BaseV::Literal { value: s, insertion: false, mark: Mark::Unmarked }, i + 1)),
            Some(TokenV::CharClass(s)) => Ok((BaseV::CharClass { content: s, negated: false, mark: Mark::Unmarked }, i + 1)),
            Some(TokenV::HexChar(h)) => match hex_to_char_s(h) {
                Ok(c) => Ok((BaseV::Literal { value: seq![c], insertion: false, mark: Mark::Unmarked }, i + 1)),
                Err(m) => Err((m, i + 1)),
            },
            Some(TokenV::LParen) => match pg_alts(ts, i + 1) {
                Err(e) => Err(e),
                Ok((a, j)) => if tok(ts, j) == Some(TokenV::RParen) {
                    Ok((BaseV::Group { alternatives: a }, j + 1))
                } else {
                    Err(("Expected ')' after grouped alternatives"@, j))
                },
            },
            other => Err(("Expected factor, got "@ + opt_token_debug(other), i)),
        }
    }
}

/// The separator after `**` or `++` at `i`: a parenthesised sequence or a
/// base factor.
pub open spec fn pg_sep(ts: Seq<TokenV>, i: int) -> Result<(SeqV, int), (Seq<char>, int)>
    decreases ts.len() - i, 1int,
{
    if tok(ts, i) == Some(TokenV::LParen) {
        match pg_seq(ts, i + 1) {
            Err(e) => Err(e),
            Ok((q, j)) => if tok(ts, j) == Some(TokenV::RParen) {
                Ok((q, j + 1))
            } else {
                Err(("Expected ')' after separator"@, j))
            },
        }
    } else {
        match pg_base(ts, i) {
            Err(e) => Err(e),
            Ok((b, j)) => Ok((SeqV { factors: seq![FactorV { base: b, repetition: RepV::Once }] }, j)),
        }
    }
}

/// A factor at `i`: a base factor and its repetition.
pub open spec fn pg_factor(ts: Seq<TokenV>, i: int) -> Result<(FactorV, int), (Seq<char>, int)>
    decreases ts.len() - i, 2int,
{
    match pg_base(ts, i) {
        Err(e) => Err(e),
        Ok((b, j)) => if !(i < j <= ts.len()) {
            // a base factor always takes a token
            Err((Seq::empty(), j))
        } else if tok(ts, j) == Some(TokenV::Question) {
            Ok((FactorV { base: b, repetition: RepV::Optional }, j + 1))
        } else if tok(ts, j) == Some(TokenV::DoubleStar) {
            match pg_sep(ts, j + 1) {
                Err(e) => Err(e),
                Ok((q, k)) => Ok((FactorV { base: b, repetition: RepV::SeparatedZeroOrMore(q) }, k)),
            }
        } else if tok(ts, j) == Some(TokenV::DoublePlus) {
            match pg_sep(ts, j + 1) {
                Err(e) => Err(e),
                Ok((q, k)) => Ok((FactorV { base: b, repetition: RepV::SeparatedOneOrMore(q) }, k)),
            }
        } else if tok(ts, j) == Some(TokenV::Star) {
            Ok((FactorV { base: b, repetition: RepV::ZeroOrMore }, j + 1))
        } else if tok(ts, j) == Some(TokenV::Plus) {
            Ok((FactorV { base: b, repetition: RepV::OneOrMore }, j + 1))
        } else {
            Ok((FactorV { base: b, repetition: RepV::Once }, j))
        },
    }
}

/// The operator written after a base factor decides its repetition: `?`
/// optional, `*` zero or more, `+` one or more, `**` zero or more with the
/// separator that follows, `++` one or more with it; the factor ends after
/// the operator (and its separator).
pub proof fn law_repetition_operators(ts: Seq<TokenV>, i: int, b: BaseV, j: int)
    requires
        pg_base(ts, i) == Ok::<(BaseV, int), (Seq<char>, int)>((b, j)),
        i < j <= ts.len(),
    ensures
        tok(ts, j) == Some(TokenV::Question) ==> pg_factor(ts, i) == Ok::<(FactorV, int), (Seq<char>, int)>(
            (FactorV { base: b, repetition: RepV::Optional }, j + 1),
        ),
        tok(ts, j) == Some(TokenV::Star) ==> pg_factor(ts, i) == Ok::<(FactorV, int), (Seq<char>, int)>(
            (FactorV { base: b, repetition: RepV::ZeroOrMore }, j + 1),
        ),
        tok(ts, j) == Some(TokenV::Plus) ==> pg_factor(ts, i) == Ok::<(FactorV, int), (Seq<char>, int)>(
            (FactorV { base: b, repetition: RepV::OneOrMore }, j + 1),
        ),
        tok(ts, j) == Some(TokenV::DoubleStar) ==> (pg_sep(ts, j + 1) matches Ok((q, k)) ==> pg_factor(ts, i)
            == Ok::<(FactorV, int), (Seq<char>, int)>(
            (FactorV { base: b, repetition: RepV::SeparatedZeroOrMore(q) }, k),
        )),
        tok(ts, j) == Some(TokenV::DoublePlus) ==> (pg_sep(ts, j + 1) matches Ok((q, k)) ==> pg_factor(ts, i)
            == Ok::<(FactorV, int), (Seq<char>, int)>(
            (FactorV { base: b, repetition: RepV::SeparatedOneOrMore(q) }, k),
        )),
{
}

/// More comma-separated factors from `i` on, after `acc`.
pub open spec fn pg_comma_more(ts: Seq<TokenV>, i: int, acc: Seq<FactorV>) -> Result<(SeqV, int), (Seq<char>, int)>
    decreases ts.len() - i, 3int,
{
    if tok(ts, i) == Some(TokenV::Comma) {
        match pg_factor(ts, i + 1) {
            Err(e) => Err(e),
            Ok((f, j)) => if i < j <= ts.len() {
                pg_comma_more(ts, j, acc.push(f))
            } else {
                Err((Seq::empty(), j))
            },
        }
    } else {
        Ok((SeqV { factors: acc }, i))
    }
}

/// More factors from `i` on, up to the end of the sequence, after `acc`.
pub open spec fn pg_ws_more(ts: Seq<TokenV>, i: int, acc: Seq<FactorV>) -> Result<(SeqV, int), (Seq<char>, int)>
    decreases ts.len() - i, 3int,
{
    if 0 <= i < ts.len() && !ends_seq(ts, i) {
        match pg_factor(ts, i) {
            Err(e) => Err(e),
            Ok((f, j)) => if i < j <= ts.len() {
                pg_ws_more(ts, j, acc.push(f))
            } else {
                Err((Seq::empty(), j))
            },
        }
    } else {
        Ok((SeqV { factors: acc }, i))
    }
}

/// A sequence at `i`.
pub open spec fn pg_seq(ts: Seq<TokenV>, i: int) -> Result<(SeqV, int), (Seq<char>, int)>
    decreases ts.len() - i, 4int,
{
    if ends_seq(ts, i) {
        Ok((SeqV { factors: Seq::empty() }, i))
    } else {
        match pg_factor(ts, i) {
            Err(e) => Err(e),
            Ok((f, j)) => if !(i < j <= ts.len()) {
                Err((Seq::empty(), j))
            } else if tok(ts, j) == Some(TokenV::Comma) {
                pg_comma_more(ts, j, seq![f])
            } else {
                pg_ws_more(ts, j, seq![f])
            },
        }
    }
}

/// More alternatives from `i` on, after `acc`.
pub open spec fn pg_alts_more(ts: Seq<TokenV>, i: int, acc: Seq<SeqV>) -> Result<(AltsV, int), (Seq<char>, int)>
    decreases ts.len() - i, 5int,
{
    if tok(ts, i) == Some(TokenV::Pipe) || tok(ts, i) == Some(TokenV::Semicolon) {
        match pg_seq(ts, i + 1) {
            Err(e) => Err(e),
            Ok((q, j)) => if i < j <= ts.len() {
                pg_alts_more(ts, j, acc.push(q))
            } else {
                Err((Seq::empty(), j))
            },
        }
    } else {
        Ok((AltsV { alts: acc }, i))
    }
}

/// Alternatives at `i`.
pub open spec fn pg_alts(ts: Seq<TokenV>, i: int) -> Result<(AltsV, int), (Seq<char>, int)>
    decreases ts.len() - i, 6int,
{
    match pg_seq(ts, i) {
        Err(e) => Err(e),
        Ok((q, j)) => if i <= j <= ts.len() {
            pg_alts_more(ts, j, seq![q])
        } else {
            Err((Seq::empty(), j))
        },
    }
}

/// A rule at `i`.
pub open spec fn pg_rule(ts: Seq<TokenV>, i: int) -> Result<(RuleV, int), (Seq<char>, int)> {
    let mark = if is_prefix(ts, i) {
        prefix_mark(ts[i])
    } else {
        Mark::Unmarked
    };
    let i1 = if is_prefix(ts, i) {
        i + 1
    } else {
        i
    };
    match tok(ts, i1) {
        None => Err((expect_error("identifier"@), i1)),
        Some(TokenV::Ident(n)) => if tok(ts, i1 + 1) != Some(TokenV::Colon) {
            Err(("Expected ':' after rule name '"@ + n + "'"@, i1 + 1))
        } else {
            match pg_alts(ts, i1 + 2) {
                Err(e) => Err(e),
                Ok((a, j)) => if tok(ts, j) != Some(TokenV::Period) {
                    Err(("Expected '.' at end of rule '"@ + n + "'"@, j))
                } else {
                    Ok((RuleV { name: n, mark, alternatives: a }, j + 1))
                },
            }
        },
        Some(o) => Err(("Expected identifier, got "@ + token_debug(o), i1 + 1)),
    }
}

/// Rules from `i` to the end of the tokens, after `acc`.
pub open spec fn pg_rules(ts: Seq<TokenV>, i: int, acc: Seq<RuleV>) -> Result<(Seq<RuleV>, int), (Seq<char>, int)>
    decreases ts.len() - i,
{
    if i >= ts.len() {
        if acc.len() == 0 {
            Err(("Grammar must contain at least one rule"@, i))
        } else {
            Ok((acc, i))
        }
    } else {
        match pg_rule(ts, i) {
            Err(e) => Err(e),
            Ok((r, j)) => if i < j {
                pg_rules(ts, j, acc.push(r))
            } else {
                Err((Seq::empty(), j))
            },
        }
    }
}

/// The tokens that are not end-of-input tokens.
pub open spec fn without_eof(ts: Seq<TokenV>) -> Seq<TokenV>
    decreases ts.len(),
{
    if ts.len() == 0 {
        Seq::empty()
    } else if ts.last() is Eof {
        without_eof(ts.drop_last())
    } else {
        without_eof(ts.drop_last()).push(ts.last())
    }
}

/// The rules of a grammar text, or why it holds none.
pub open spec fn parse_grammar_text_s(input: Seq<char>) -> Result<Seq<RuleV>, Seq<char>> {
    match lex(input) {
        Err(e) => Err("Lexer error: "@ + e),
        Ok(ts) => match pg_rules(without_eof(ts), 0, Seq::empty()) {
            Ok((rs, _)) => Ok(rs),
            Err((m, _)) => Err(m),
        },
    }
}

// ---------------------------------------------------------------------------
// Views of results
// ---------------------------------------------------------------------------

pub open spec fn base_out(r: Result<BaseFactor, String>, p: int) -> Result<(BaseV, int), (Seq<char>, int)> {
    match r {
        Ok(b) => Ok((base_view(b), p)),
        Err(e) => Err((e@, p)),
    }
}

pub open spec fn factor_out(r: Result<Factor, String>, p: int) -> Result<(FactorV, int), (Seq<char>, int)> {
    match r {
        Ok(f) => Ok((factor_view(f), p)),
        Err(e) => Err((e@, p)),
    }
}

pub open spec fn seq_out(r: Result<Sequence, String>, p: int) -> Result<(SeqV, int), (Seq<char>, int)> {
    match r {
        Ok(q) => Ok((sequence_view(q), p)),
        Err(e) => Err((e@, p)),
    }
}

pub open spec fn alts_out(r: Result<Alternatives, String>, p: int) -> Result<(AltsV, int), (Seq<char>, int)> {
    match r {
        Ok(a) => Ok((alts_view(a), p)),
        Err(e) => Err((e@, p)),
    }
}

pub open spec fn rule_out(r: Result<Rule, String>, p: int) -> Result<(RuleV, int), (Seq<char>, int)> {
    match r {
        Ok(x) => Ok((rule_view(x), p)),
        Err(e) => Err((e@, p)),
    }
}

pub open spec fn grammar_out(r: Result<IxmlGrammar, String>, p: int) -> Result<(Seq<RuleV>, int), (Seq<char>, int)> {
    match r {
        Ok(g) => Ok((rules_view(g.rules@), p)),
        Err(e) => Err((e@, p)),
    }
}

// ---------------------------------------------------------------------------
// The parser
// ---------------------------------------------------------------------------

/// A recursive descent parser over a list of tokens.
pub struct Parser {
    tokens: Vec<Token>,
    pos: usize,
}

impl Parser {
    /// The tokens.
    pub closed spec fn toks(&self) -> Seq<TokenV> {
        tokens_view(self.tokens@)
    }

    /// The index of the next token.
    pub closed spec fn at(&self) -> int {
        self.pos as int
    }

    /// The position is within the tokens.
    pub open spec fn wf(&self) -> bool {
        0 <= self.at() <= self.toks().len()
    }

    /// A parser at the first of `tokens`.
    pub fn new(tokens: Vec<Token>) -> (r: Self)
        ensures
            r.toks() == tokens_view(tokens@),
            r.at() == 0,
            r.wf(),
    {
        Parser { tokens, pos: 0 }
    }

    /// The next token, if any.
    fn peek(&self) -> (r: Option<&Token>)
        ensures
            match r {
                Some(t) => tok(self.toks(), self.at()) == Some(t@),
                None => tok(self.toks(), self.at()) is None,
            },
    {
        if self.pos < self.tokens.len() {
            Some(&self.tokens[self.pos])
        } else {
            None
        }
    }

    /// Takes the next token, if any.
    fn consume(&mut self) -> (r: Option<Token>)
        requires
            old(self).wf(),
        ensures
            final(self).toks() == old(self).toks(),
            final(self).wf(),
            match r {
                Some(t) => tok(old(self).toks(), old(self).at()) == Some(t@) && final(self).at()
                    == old(self).at() + 1,
                None => tok(old(self).toks(), old(self).at()) is None && final(self).at() == old(
                    self,
                ).at(),
            },
    {
        if self.pos < self.tokens.len() {
            let token = clone_token(&self.tokens[self.pos]);
            self.pos = self.pos + 1;
            Some(token)
        } else {
            None
        }
    }

    /// Takes the next token; an error naming `description` at the end.
    fn expect(&mut self, description: &str) -> (r: Result<Token, String>)
        requires
            old(self).wf(),
        ensures
            final(self).toks() == old(self).toks(),
            final(self).wf(),
            match r {
                Ok(t) => tok(old(self).toks(), old(self).at()) == Some(t@) && final(self).at()
                    == old(self).at() + 1,
                Err(e) => tok(old(self).toks(), old(self).at()) is None && final(self).at()
                    == old(self).at() && e@ == "Expected "@ + description@
                    + " but reached end of input"@,
            },
    {
        match self.consume() {
            Some(t) => Ok(t),
            None => {
                let mut m = String::from_str("Expected ");
                append_str(&mut m, description);
                append_str(&mut m, " but reached end of input");
                Err(m)
            },
        }
    }

    /// Whether the next token is `expected` (a token without content).
    fn matches(&self, expected: &Token) -> (r: bool)
        requires
            !(expected@ is Ident || expected@ is Str || expected@ is CharClass
                || expected@ is HexChar),
        ensures
            r == (tok(self.toks(), self.at()) == Some(expected@)),
    {
        match self.peek() {
            Some(t) => same_kind(t, expected),
            None => false,
        }
    }

    /// Whether all tokens are taken.
    fn at_end(&self) -> (r: bool)
        ensures
            r == (self.at() >= self.toks().len()),
    {
        self.pos >= self.tokens.len()
    }

    /// The character of a hexadecimal code.
    fn hex_to_char(hex: &str) -> (r: Result<char, String>)
        ensures
            match r {
                Ok(c) => hex_to_char_s(hex@) == Ok::<char, Seq<char>>(c),
                Err(e) => hex_to_char_s(hex@) == Err::<char, Seq<char>>(e@),
            },
    {
        match parse_hex_u32(hex) {
            Err(m) => {
                let mut e = String::from_str("Invalid hex value: ");
                append_str(&mut e, m.as_str());
                Err(e)
            },
            Ok(code_point) => match char_from_u32(code_point) {
                Some(c) => Ok(c),
                None => {
                    let mut e = String::from_str("Invalid Unicode code point: #");
                    append_str(&mut e, hex);
                    Err(e)
                },
            },
        }
    }
}

/// A copy of a token.
fn clone_token(t: &Token) -> (r: Token)
    ensures
        r@ == t@,
{
    match t {
        Token::Ident(s) => Token::Ident(s.clone()),
        Token::String(s) => Token::String(s.clone()),
        Token::CharClass(s) => Token::CharClass(s.clone()),
        Token::HexChar(s) => Token::HexChar(s.clone()),
        Token::Colon => Token::Colon,
        Token::Period => Token::Period,
        Token::Semicolon => Token::Semicolon,
        Token::Pipe => Token::Pipe,
        Token::Plus => Token::Plus,
        Token::Star => Token::Star,
        Token::Question => Token::Question,
        Token::At => Token::At,
        Token::Minus => Token::Minus,
        Token::Caret => Token::Caret,
        Token::Tilde => Token::Tilde,
        Token::LParen => Token::LParen,
        Token::RParen => Token::RParen,
        Token::LBracket => Token::LBracket,
        Token::RBracket => Token::RBracket,
        Token::Comma => Token::Comma,
        Token::Equals => Token::Equals,
        Token::DoubleStar => Token::DoubleStar,
        Token::DoublePlus => Token::DoublePlus,
        Token::Eof => Token::Eof,
    }
}

/// Whether two tokens are of the same kind, the second without content.
fn same_kind(t: &Token, expected: &Token) -> (r: bool)
    requires
        !(expected@ is Ident || expected@ is Str || expected@ is CharClass || expected@ is HexChar),
    ensures
        r == (t@ == expected@),
{
    match (t, expected) {
        (Token::Colon, Token::Colon) => true,
        (Token::Period, Token::Period) => true,
        (Token::Semicolon, Token::Semicolon) => true,
        (Token::Pipe, Token::Pipe) => true,
        (Token::Plus, Token::Plus) => true,
        (Token::Star, Token::Star) => true,
        (Token::Question, Token::Question) => true,
        (Token::At, Token::At) => true,
        (Token::Minus, Token::Minus) => true,
        (Token::Caret, Token::Caret) => true,
        (Token::Tilde, Token::Tilde) => true,
        (Token::LParen, Token::LParen) => true,
        (Token::RParen, Token::RParen) => true,
        (Token::LBracket, Token::LBracket) => true,
        (Token::RBracket, Token::RBracket) => true,
        (Token::Comma, Token::Comma) => true,
        (Token::Equals, Token::Equals) => true,
        (Token::DoubleStar, Token::DoubleStar) => true,
        (Token::DoublePlus, Token::DoublePlus) => true,
        (Token::Eof, Token::Eof) => true,
        _ => false,
    }
}

/// The view of an optional token.
pub open spec fn opt_view(t: Option<Token>) -> Option<TokenV> {
    match t {
        Some(x) => Some(x@),
        None => None,
    }
}

impl Parser {
    /// The next token, copied.
    fn peek_token(&self) -> (r: Option<Token>)
        ensures
            opt_view(r) == tok(self.toks(), self.at()),
    {
        match self.peek() {
            Some(t) => Some(clone_token(t)),
            None => None,
        }
    }

    /// Grammar: one rule or more, up to the end of the tokens.
    pub fn parse_grammar(&mut self) -> (r: Result<IxmlGrammar, String>)
        requires
            old(self).wf(),
        ensures
            final(self).toks() == old(self).toks(),
            final(self).wf(),
            grammar_out(r, final(self).at()) == pg_rules(old(self).toks(), old(self).at(), Seq::empty()),
    {
        let ghost ts = self.toks();
        let mut rules: Vec<Rule> = Vec::new();
        proof {
            assert(rules_view(rules@) =~= Seq::empty());
        }
        while !self.at_end()
            invariant
                self.toks() == ts,
                self.wf(),
                ts == old(self).toks(),
                pg_rules(ts, old(self).at(), Seq::empty()) == pg_rules(ts, self.at(), rules_view(rules@)),
            decreases ts.len() - self.at(),
        {
            match self.parse_rule() {
                Err(e) => {
                    return Err(e);
                },
                Ok(rule) => {
                    let ghost before = rules@;
                    rules.push(rule);
                    proof {
                        assert(rules_view(rules@) =~= rules_view(before).push(rule_view(rule)));
                    }
                },
            }
        }
        if rules.len() == 0 {
            return Err(String::from_str("Grammar must contain at least one rule"));
        }
        Ok(IxmlGrammar::new(rules))
    }

    /// Rule: an optional mark, a name, `:`, alternatives and `.`.
    fn parse_rule(&mut self) -> (r: Result<Rule, String>)
        requires
            old(self).wf(),
        ensures
            final(self).toks() == old(self).toks(),
            final(self).wf(),
            rule_out(r, final(self).at()) == pg_rule(old(self).toks(), old(self).at()),
            r is Ok ==> final(self).at() > old(self).at(),
    {
        let mark = if self.matches(&Token::At) {
            self.consume();
            Mark::Attribute
        } else if self.matches(&Token::Minus) {
            self.consume();
            Mark::Hidden
        } else if self.matches(&Token::Caret) {
            self.consume();
            Mark::Promoted
        } else {
            Mark::Unmarked
        };
        let name = match self.expect("identifier") {
            Err(e) => {
                return Err(e);
            },
            Ok(Token::Ident(s)) => s,
            Ok(other) => {
                let mut m = String::from_str("Expected identifier, got ");
                let d = write_token_debug(&other);
                append_str(&mut m, d.as_str());
                return Err(m);
            },
        };
        if !self.matches(&Token::Colon) {
            let mut m = String::from_str("Expected ':' after rule name '");
            append_str(&mut m, name.as_str());
            append_str(&mut m, "'");
            return Err(m);
        }
        self.consume();
        let alternatives = match self.parse_alternatives() {
            Err(e) => {
                return Err(e);
            },
            Ok(a) => a,
        };
        if !self.matches(&Token::Period) {
            let mut m = String::from_str("Expected '.' at end of rule '");
            append_str(&mut m, name.as_str());
            append_str(&mut m, "'");
            return Err(m);
        }
        self.consume();
        Ok(Rule::new(name, mark, alternatives))
    }

    /// Alternatives: sequences separated by `|` or `;`.
    fn parse_alternatives(&mut self) -> (r: Result<Alternatives, String>)
        requires
            old(self).wf(),
        ensures
            final(self).toks() == old(self).toks(),
            final(self).wf(),
            alts_out(r, final(self).at()) == pg_alts(old(self).toks(), old(self).at()),
            final(self).at() >= old(self).at(),
        decreases old(self).toks().len() - old(self).at(), 6int,
    {
        let ghost ts = self.toks();
        let ghost i0 = self.at();
        let first = match self.parse_sequence() {
            Err(e) => {
                return Err(e);
            },
            Ok(q) => q,
        };
        let mut alts: Vec<Sequence> = Vec::new();
        alts.push(first);
        proof {
            lemma_seqs_view_push(Seq::empty(), first);
            assert(Seq::<Sequence>::empty().push(first) == alts@);
            assert(seqs_view(Seq::<Sequence>::empty()) == Seq::<SeqV>::empty());
            assert(seq![sequence_view(first)] == Seq::<SeqV>::empty().push(sequence_view(first)));
        }
        while self.matches(&Token::Pipe) || self.matches(&Token::Semicolon)
            invariant
                self.toks() == ts,
                self.wf(),
                ts == old(self).toks(),
                i0 == old(self).at(),
                self.at() >= i0,
                pg_alts(ts, i0) == pg_alts_more(ts, self.at(), seqs_view(alts@)),
            decreases ts.len() - self.at(),
        {
            self.consume();
            match self.parse_sequence() {
                Err(e) => {
                    return Err(e);
                },
                Ok(q) => {
                    let ghost before = alts@;
                    alts.push(q);
                    proof {
                        lemma_seqs_view_push(before, q);
                    }
                },
            }
        }
        Ok(Alternatives::new(alts))
    }

    /// Sequence: nothing before a token that ends it, or factors (all
    /// after commas if the second is).
    fn parse_sequence(&mut self) -> (r: Result<Sequence, String>)
        requires
            old(self).wf(),
        ensures
            final(self).toks() == old(self).toks(),
            final(self).wf(),
            seq_out(r, final(self).at()) == pg_seq(old(self).toks(), old(self).at()),
            final(self).at() >= old(self).at(),
        decreases old(self).toks().len() - old(self).at(), 4int,
    {
        let ghost ts = self.toks();
        let ghost i0 = self.at();
        if self.matches(&Token::Period) || self.matches(&Token::Pipe) || self.matches(
            &Token::Semicolon,
        ) || self.matches(&Token::RParen) {
            let empty: Vec<Factor> = Vec::new();
            proof {
                assert(factors_view(empty@) =~= Seq::empty());
            }
            return Ok(Sequence::new(empty));
        }
        let first = match self.parse_factor() {
            Err(e) => {
                return Err(e);
            },
            Ok(f) => f,
        };
        let mut factors: Vec<Factor> = Vec::new();
        factors.push(first);
        proof {
            lemma_factors_view_push(Seq::empty(), first);
            assert(Seq::<Factor>::empty().push(first) == factors@);
            assert(factors_view(Seq::<Factor>::empty()) == Seq::<FactorV>::empty());
            assert(seq![factor_view(first)] == Seq::<FactorV>::empty().push(factor_view(first)));
        }
        let comma_separated = self.matches(&Token::Comma);
        if comma_separated {
            while self.matches(&Token::Comma)
                invariant
                    self.toks() == ts,
                    self.wf(),
                    ts == old(self).toks(),
                    i0 == old(self).at(),
                    self.at() >= i0,
                    pg_seq(ts, i0) == pg_comma_more(ts, self.at(), factors_view(factors@)),
                decreases ts.len() - self.at(),
            {
                self.consume();
                match self.parse_factor() {
                    Err(e) => {
                        return Err(e);
                    },
                    Ok(f) => {
                        let ghost before = factors@;
                        factors.push(f);
                        proof {
                            lemma_factors_view_push(before, f);
                        }
                    },
                }
            }
        } else {
            while !self.at_end() && !self.matches(&Token::Period) && !self.matches(&Token::Pipe)
                && !self.matches(&Token::Semicolon) && !self.matches(&Token::RParen)
                invariant
                    self.toks() == ts,
                    self.wf(),
                    ts == old(self).toks(),
                    i0 == old(self).at(),
                    self.at() >= i0,
                    pg_seq(ts, i0) == pg_ws_more(ts, self.at(), factors_view(factors@)),
                decreases ts.len() - self.at(),
            {
                match self.parse_factor() {
                    Err(e) => {
                        return Err(e);
                    },
                    Ok(f) => {
                        let ghost before = factors@;
                        factors.push(f);
                        proof {
                            lemma_factors_view_push(before, f);
                        }
                    },
                }
            }
        }
        Ok(Sequence::new(factors))
    }

    /// The separator after `**` or `++`.
    fn parse_separator(&mut self) -> (r: Result<Sequence, String>)
        requires
            old(self).wf(),
        ensures
            final(self).toks() == old(self).toks(),
            final(self).wf(),
            seq_out(r, final(self).at()) == pg_sep(old(self).toks(), old(self).at()),
            final(self).at() >= old(self).at(),
        decreases old(self).toks().len() - old(self).at(), 1int,
    {
        if self.matches(&Token::LParen) {
            self.consume();
            let s = match self.parse_sequence() {
                Err(e) => {
                    return Err(e);
                },
                Ok(q) => q,
            };
            if !self.matches(&Token::RParen) {
                return Err(String::from_str("Expected ')' after separator"));
            }
            self.consume();
            Ok(s)
        } else {
            let factor = match self.parse_base_factor() {
                Err(e) => {
                    return Err(e);
                },
                Ok(b) => b,
            };
            let f = Factor::simple(factor);
            let mut fs: Vec<Factor> = Vec::new();
            fs.push(f);
            proof {
                lemma_factors_view_push(Seq::empty(), f);
                assert(Seq::<Factor>::empty().push(f) == fs@);
                assert(factors_view(Seq::<Factor>::empty()) == Seq::<FactorV>::empty());
            }
            Ok(Sequence::new(fs))
        }
    }

    /// Factor: a base factor and an optional repetition.
    fn parse_factor(&mut self) -> (r: Result<Factor, String>)
        requires
            old(self).wf(),
        ensures
            final(self).toks() == old(self).toks(),
            final(self).wf(),
            factor_out(r, final(self).at()) == pg_factor(old(self).toks(), old(self).at()),
            final(self).at() >= old(self).at(),
            r is Ok ==> final(self).at() > old(self).at(),
        decreases old(self).toks().len() - old(self).at(), 2int,
    {
        let base = match self.parse_base_factor() {
            Err(e) => {
                return Err(e);
            },
            Ok(b) => b,
        };
        let repetition = if self.matches(&Token::Question) {
            self.consume();
            Repetition::Optional
        } else if self.matches(&Token::DoubleStar) {
            self.consume();
            let sep = match self.parse_separator() {
                Err(e) => {
                    return Err(e);
                },
                Ok(q) => q,
            };
            Repetition::SeparatedZeroOrMore(Box::new(sep))
        } else if self.matches(&Token::DoublePlus) {
            self.consume();
            let sep = match self.parse_separator() {
                Err(e) => {
                    return Err(e);
                },
                Ok(q) => q,
            };
            Repetition::SeparatedOneOrMore(Box::new(sep))
        } else if self.matches(&Token::Star) {
            self.consume();
            Repetition::ZeroOrMore
        } else if self.matches(&Token::Plus) {
            self.consume();
            Repetition::OneOrMore
        } else {
            Repetition::Once
        };
        Ok(Factor::new(base, repetition))
    }

    /// Base factor: a marked or plain literal, class or name, an insertion,
    /// an excluded class, or a group.
    fn parse_base_factor(&mut self) -> (r: Result<BaseFactor, String>)
        requires
            old(self).wf(),
        ensures
            final(self).toks() == old(self).toks(),
            final(self).wf(),
            base_out(r, final(self).at()) == pg_base(old(self).toks(), old(self).at()),
            final(self).at() >= old(self).at(),
            r is Ok ==> final(self).at() > old(self).at(),
        decreases old(self).toks().len() - old(self).at(), 0int,
    {
        if self.matches(&Token::At) || self.matches(&Token::Minus) || self.matches(&Token::Caret) {
            let mark = if self.matches(&Token::At) {
                self.consume();
                Mark::Attribute
            } else if self.matches(&Token::Minus) {
                self.consume();
                Mark::Hidden
            } else {
                self.consume();
                Mark::Promoted
            };
            let next = self.peek_token();
            match next {
                Some(Token::String(s)) => {
                    self.consume();
                    Ok(BaseFactor::marked_literal(s, mark))
                },
                Some(Token::HexChar(h)) => {
                    self.consume();
                    match Self::hex_to_char(h.as_str()) {
                        Err(e) => Err(e),
                        Ok(ch) => Ok(BaseFactor::marked_literal(char_to_string(ch), mark)),
                    }
                },
                Some(Token::CharClass(s)) => {
                    self.consume();
                    Ok(BaseFactor::marked_charclass(s, false, mark))
                },
                Some(Token::Ident(s)) => {
                    self.consume();
                    Ok(BaseFactor::marked_nonterminal(s, mark))
                },
                other => {
                    let mut m = String::from_str(
                        "Expected string, hex char, character class, or identifier after mark, got ",
                    );
                    let d = write_opt_token_debug(&other);
                    append_str(&mut m, d.as_str());
                    Err(m)
                },
            }
        } else if self.matches(&Token::Plus) {
            self.consume();
            match self.expect("string after '+'") {
                Err(e) => Err(e),
                Ok(Token::String(s)) => Ok(BaseFactor::insertion(s)),
                Ok(other) => {
                    let mut m = String::from_str("Expected string after '+', got ");
                    let d = write_token_debug(&other);
                    append_str(&mut m, d.as_str());
                    Err(m)
                },
            }
        } else if self.matches(&Token::Tilde) {
            self.consume();
            match self.expect("character class after '~'") {
                Err(e) => Err(e),
                Ok(Token::CharClass(s)) => Ok(BaseFactor::negated_charclass(s)),
                Ok(other) => {
                    let mut m = String::from_str("Expected character class after '~', got ");
                    let d = write_token_debug(&other);
                    append_str(&mut m, d.as_str());
                    Err(m)
                },
            }
        } else {
            let next = self.peek_token();
            match next {
                Some(Token::Ident(s)) => {
                    self.consume();
                    Ok(BaseFactor::nonterminal(s))
                },
                Some(Token::String(s)) => {
                    self.consume();
                    Ok(BaseFactor::literal(s))
                },
                Some(Token::CharClass(s)) => {
                    self.consume();
                    Ok(BaseFactor::charclass(s))
                },
                Some(Token::HexChar(h)) => {
                    self.consume();
                    match Self::hex_to_char(h.as_str()) {
                        Err(e) => Err(e),
                        Ok(ch) => Ok(BaseFactor::literal(char_to_string(ch))),
                    }
                },
                Some(Token::LParen) => {
                    self.consume();
                    let alts = match self.parse_alternatives() {
                        Err(e) => {
                            return Err(e);
                        },
                        Ok(a) => a,
                    };
                    if !self.matches(&Token::RParen) {
                        return Err(String::from_str("Expected ')' after grouped alternatives"));
                    }
                    self.consume();
                    Ok(BaseFactor::group(alts))
                },
                other => {
                    let mut m = String::from_str("Expected factor, got ");
                    let d = write_opt_token_debug(&other);
                    append_str(&mut m, d.as_str());
                    Err(m)
                },
            }
        }
    }
}

/// Parses an iXML grammar from its text, with this module's parser.
pub fn parse_ixml_grammar(input: &str) -> (r: Result<IxmlGrammar, String>)
    ensures
        crate::grammar_ast::grammar_result_view(r) == parse_grammar_text_s(input@),
{
    let mut lexer = Lexer::new(input);
    let tokens = match lexer.tokenize() {
        Err(e) => {
            let mut m = String::from_str("Lexer error: ");
            append_str(&mut m, e.as_str());
            return Err(m);
        },
        Ok(ts) => ts,
    };
    let ghost tv = tokens_view(tokens@);
    let mut kept: Vec<Token> = Vec::new();
    let mut i: usize = 0;
    proof {
        assert(tv.take(0) =~= Seq::<TokenV>::empty());
        assert(tokens_view(kept@) =~= Seq::empty());
    }
    while i < tokens.len()
        invariant
            i <= tokens.len(),
            tv == tokens_view(tokens@),
            tokens_view(kept@) == without_eof(tv.take(i as int)),
        decreases tokens.len() - i,
    {
        proof {
            assert(tv.take(i + 1).drop_last() =~= tv.take(i as int));
            assert(tv.take(i + 1).last() == tokens@[i as int]@);
        }
        match &tokens[i] {
            Token::Eof => {},
            t => {
                let c = clone_token(t);
                let ghost before = kept@;
                kept.push(c);
                proof {
                    assert(tokens_view(kept@) =~= tokens_view(before).push(c@));
                }
            },
        }
        i = i + 1;
    }
    proof {
        assert(tv.take(tokens.len() as int) =~= tv);
    }
    let mut parser = Parser::new(kept);
    parser.parse_grammar()
}

// ---------------------------------------------------------------------------
// Laws
// ---------------------------------------------------------------------------

proof fn lemma_pg_rules_ok(ts: Seq<TokenV>, i: int, acc: Seq<RuleV>)
    ensures
        pg_rules(ts, i, acc) matches Ok((rs, j)) ==> rs.len() >= 1 && rs.len() >= acc.len() && rs.subrange(
            0,
            acc.len() as int,
        ) == acc && j >= ts.len(),
    decreases ts.len() - i,
{
    if i < ts.len() {
        if let Ok((r, j)) = pg_rule(ts, i) {
            if i < j {
                lemma_pg_rules_ok(ts, j, acc.push(r));
                if let Ok((rs, _)) = pg_rules(ts, j, acc.push(r)) {
                    assert(rs.subrange(0, acc.len() as int) =~= acc.push(r).subrange(0, acc.len() as int));
                }
            }
        }
    } else if acc.len() > 0 {
        assert(acc.subrange(0, acc.len() as int) =~= acc);
    }
}

/// A grammar has at least one rule: no tokens give the error "Grammar must
/// contain at least one rule", and a grammar that is read has one rule or
/// more and takes up every token.
pub proof fn law_grammar_has_a_rule(ts: Seq<TokenV>)
    ensures
        ts.len() == 0 ==> pg_rules(ts, 0, Seq::empty()) == Err::<(Seq<RuleV>, int), (Seq<char>, int)>(
            ("Grammar must contain at least one rule"@, 0),
        ),
        pg_rules(ts, 0, Seq::empty()) matches Ok((rs, j)) ==> rs.len() >= 1 && j == ts.len(),
{
    lemma_pg_rules_ok(ts, 0, Seq::empty());
    lemma_pg_rules_end(ts, 0, Seq::empty());
}

proof fn lemma_pg_rules_end(ts: Seq<TokenV>, i: int, acc: Seq<RuleV>)
    requires
        i <= ts.len(),
    ensures
        pg_rules(ts, i, acc) matches Ok((rs, j)) ==> j == ts.len(),
    decreases ts.len() - i,
{
    if i < ts.len() {
        if let Ok((r, j)) = pg_rule(ts, i) {
            if i < j {
                if j <= ts.len() {
                    lemma_pg_rules_end(ts, j, acc.push(r));
                }
            }
        }
    }
}

} // verus!
