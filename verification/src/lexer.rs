//! Lexer for iXML grammar syntax.
//!
//! Converts grammar text into a stream of tokens.  Whitespace and (nested)
//! `{comments}` between tokens are skipped.
use vstd::prelude::*;

use crate::text::{
    char_is_alphabetic, char_to_string, is_alphanumeric, is_white_space, push_char,
    str_to_chars, unicode_alphabetic, unicode_alphanumeric, white_space,
};

verus! {

/// A token of iXML grammar text.
#[derive(Debug, PartialEq, Eq)]
pub enum Token {
    Ident(String),
    String(String),
    /// Content between `[` and `]`, e.g. `'a'-'z'` or `Ll`.
    CharClass(String),
    /// A hexadecimal character such as `#a` (its digits).
    HexChar(String),
    Colon,
    Period,
    Semicolon,
    Pipe,
    Plus,
    Star,
    Question,
    At,
    Minus,
    Caret,
    Tilde,
    LParen,
    RParen,
    LBracket,
    RBracket,
    Comma,
    Equals,
    DoubleStar,
    DoublePlus,
    Eof,
}

/// The mathematical view of a token.
pub enum TokenV {
    Ident(Seq<char>),
    Str(Seq<char>),
    CharClass(Seq<char>),
    HexChar(Seq<char>),
    Colon,
    Period,
    Semicolon,
    Pipe,
    Plus,
    Star,
    Question,
    At,
    Minus,
    Caret,
    Tilde,
    LParen,
    RParen,
    LBracket,
    RBracket,
    Comma,
    Equals,
    DoubleStar,
    DoublePlus,
    Eof,
}

impl View for Token {
    type V = TokenV;

    open spec fn view(&self) -> TokenV {
        match self {
            Token::Ident(s) => TokenV::Ident(s@),
            Token::String(s) => TokenV::Str(s@),
            Token::CharClass(s) => TokenV::CharClass(s@),
            Token::HexChar(s) => TokenV::HexChar(s@),
            Token::Colon => TokenV::Colon,
            Token::Period => TokenV::Period,
            Token::Semicolon => TokenV::Semicolon,
            Token::Pipe => TokenV::Pipe,
            Token::Plus => TokenV::Plus,
            Token::Star => TokenV::Star,
            Token::Question => TokenV::Question,
            Token::At => TokenV::At,
            Token::Minus => TokenV::Minus,
            Token::Caret => TokenV::Caret,
            Token::Tilde => TokenV::Tilde,
            Token::LParen => TokenV::LParen,
            Token::RParen => TokenV::RParen,
            Token::LBracket => TokenV::LBracket,
            Token::RBracket => TokenV::RBracket,
            Token::Comma => TokenV::Comma,
            Token::Equals => TokenV::Equals,
            Token::DoubleStar => TokenV::DoubleStar,
            Token::DoublePlus => TokenV::DoublePlus,
            Token::Eof => TokenV::Eof,
        }
    }
}

/// The views of a sequence of tokens.
pub open spec fn tokens_view(ts: Seq<Token>) -> Seq<TokenV> {
    ts.map_values(|t: Token| t@)
}

// ---------------------------------------------------------------------------
// Specification of lexing
// ---------------------------------------------------------------------------

/// The first position at or after `pos` that is not whitespace.
pub open spec fn skip_ws(s: Seq<char>, pos: int) -> int
    decreases s.len() - pos,
{
    if pos < s.len() && white_space(s[pos]) {
        skip_ws(s, pos + 1)
    } else {
        pos
    }
}

/// Scans the inside of a comment at nesting `depth`: the position just after
/// the brace that closes it, or `None` if the text ends first.
pub open spec fn comment_end(s: Seq<char>, pos: int, depth: nat) -> Option<int>
    decreases s.len() - pos,
{
    if depth == 0 {
        Some(pos)
    } else if pos < 0 || pos >= s.len() {
        None
    } else if s[pos] == '{' {
        comment_end(s, pos + 1, depth + 1)
    } else if s[pos] == '}' {
        comment_end(s, pos + 1, (depth - 1) as nat)
    } else {
        comment_end(s, pos + 1, depth)
    }
}

pub proof fn lemma_comment_end_bounds(s: Seq<char>, pos: int, depth: nat)
    requires
        0 <= pos <= s.len(),
    ensures
        comment_end(s, pos, depth) matches Some(q) ==> pos <= q <= s.len() && (depth > 0
            ==> pos < q),
    decreases s.len() - pos,
{
    if depth == 0 {
    } else if pos >= s.len() {
    } else if s[pos] == '{' {
        lemma_comment_end_bounds(s, pos + 1, depth + 1);
    } else if s[pos] == '}' {
        lemma_comment_end_bounds(s, pos + 1, (depth - 1) as nat);
    } else {
        lemma_comment_end_bounds(s, pos + 1, depth);
    }
}

pub proof fn lemma_skip_ws_bounds(s: Seq<char>, pos: int)
    requires
        0 <= pos <= s.len(),
    ensures
        pos <= skip_ws(s, pos) <= s.len(),
        skip_ws(s, pos) < s.len() ==> !white_space(s[skip_ws(s, pos)]),
    decreases s.len() - pos,
{
    if pos < s.len() && white_space(s[pos]) {
        lemma_skip_ws_bounds(s, pos + 1);
    }
}

/// Skips whitespace and comments: the position of the next token, or an error
/// if a comment is not closed.
pub open spec fn skip_trivia(s: Seq<char>, pos: int) -> Result<int, Seq<char>>
    decreases s.len() - pos,
{
    let p = skip_ws(s, pos);
    if 0 <= pos && p < s.len() && s[p] == '{' {
        match comment_end(s, p + 1, 1) {
            Some(q) => if pos < q <= s.len() {
                skip_trivia(s, q)
            } else {
                Ok(q)
            },
            None => Err("Unclosed comment"@),
        }
    } else {
        Ok(p)
    }
}

/// Reads the body of a quoted string whose opening quote `q` has been
/// consumed; a doubled quote stands for one quote character.  Gives the text
/// and the position after the closing quote.
pub open spec fn read_quoted(s: Seq<char>, pos: int, q: char, acc: Seq<char>) -> Option<
    (Seq<char>, int),
>
    decreases s.len() - pos,
{
    if pos < 0 || pos >= s.len() {
        None
    } else if s[pos] == q {
        if pos + 1 < s.len() && s[pos + 1] == q {
            read_quoted(s, pos + 2, q, acc.push(q))
        } else {
            Some((acc, pos + 1))
        }
    } else {
        read_quoted(s, pos + 1, q, acc.push(s[pos]))
    }
}

pub open spec fn ident_char(c: char) -> bool {
    unicode_alphanumeric(c) || c == '_' || c == '-'
}

/// The end of the identifier that starts at `pos`.
pub open spec fn ident_end(s: Seq<char>, pos: int) -> int
    decreases s.len() - pos,
{
    if 0 <= pos < s.len() && ident_char(s[pos]) {
        ident_end(s, pos + 1)
    } else {
        pos
    }
}

/// The position of the first `]` at or after `pos`.
pub open spec fn class_end(s: Seq<char>, pos: int) -> Option<int>
    decreases s.len() - pos,
{
    if pos < 0 || pos >= s.len() {
        None
    } else if s[pos] == ']' {
        Some(pos)
    } else {
        class_end(s, pos + 1)
    }
}

/// The single-character punctuation tokens.
pub open spec fn punct_token(c: char) -> Option<TokenV> {
    if c == ':' {
        Some(TokenV::Colon)
    } else if c == '.' {
        Some(TokenV::Period)
    } else if c == ';' {
        Some(TokenV::Semicolon)
    } else if c == '|' {
        Some(TokenV::Pipe)
    } else if c == '+' {
        Some(TokenV::Plus)
    } else if c == '*' {
        Some(TokenV::Star)
    } else if c == '?' {
        Some(TokenV::Question)
    } else if c == '@' {
        Some(TokenV::At)
    } else if c == '-' {
        Some(TokenV::Minus)
    } else if c == '~' {
        Some(TokenV::Tilde)
    } else if c == '^' {
        Some(TokenV::Caret)
    } else if c == '(' {
        Some(TokenV::LParen)
    } else if c == ')' {
        Some(TokenV::RParen)
    } else if c == ',' {
        Some(TokenV::Comma)
    } else if c == '=' {
        Some(TokenV::Equals)
    } else {
        None
    }
}

/// The token that starts at `pos` and the position after it.
pub open spec fn next_token(s: Seq<char>, pos: int) -> Result<(TokenV, int), Seq<char>> {
    if pos < 0 || pos >= s.len() {
        Err("Unexpected end of input"@)
    } else {
        let c = s[pos];
        if c == '"' {
            match read_quoted(s, pos + 1, '"', Seq::empty()) {
                Some((t, q)) => Ok((TokenV::Str(t), q)),
                None => Err("Unterminated string"@),
            }
        } else if c == '\'' {
            match read_quoted(s, pos + 1, '\'', Seq::empty()) {
                Some((t, q)) => Ok((TokenV::Str(t), q)),
                None => Err("Unterminated character literal"@),
            }
        } else if c == '[' {
            match class_end(s, pos + 1) {
                Some(e) => Ok((TokenV::CharClass(s.subrange(pos + 1, e)), e + 1)),
                None => Err("Unterminated character class"@),
            }
        } else if c == ']' {
            Err("Unexpected ] outside character class"@)
        } else if punct_token(c) is Some {
            Ok((punct_token(c)->0, pos + 1))
        } else if unicode_alphabetic(c) || c == '_' {
            Ok((TokenV::Ident(s.subrange(pos, ident_end(s, pos))), ident_end(s, pos)))
        } else {
            Err("Unexpected character: "@.push(c))
        }
    }
}

/// The tokens of `s` from `pos` on, ending with `Eof`, or the first error.
pub open spec fn lex_from(s: Seq<char>, pos: int) -> Result<Seq<TokenV>, Seq<char>>
    decreases s.len() - pos,
{
    match skip_trivia(s, pos) {
        Err(e) => Err(e),
        Ok(p) => if p < 0 || p >= s.len() {
            Ok(seq![TokenV::Eof])
        } else {
            match next_token(s, p) {
                Err(e) => Err(e),
                Ok((t, q)) => if pos < q <= s.len() {
                    match lex_from(s, q) {
                        Ok(rest) => Ok(seq![t] + rest),
                        Err(e) => Err(e),
                    }
                } else {
                    Err(e_stalled())
                },
            }
        },
    }
}

/// Never produced (every token consumes input); it only closes the definition.
pub open spec fn e_stalled() -> Seq<char> {
    Seq::empty()
}

/// What `tokenize` returns on the characters `s`.
pub open spec fn lex(s: Seq<char>) -> Result<Seq<TokenV>, Seq<char>> {
    lex_from(s, 0)
}

/// A lexing result with its views equal to the specification.
pub open spec fn lex_result_is(r: Result<Vec<Token>, String>, spec: Result<Seq<TokenV>, Seq<char>>) -> bool {
    match (r, spec) {
        (Ok(v), Ok(sv)) => tokens_view(v@) == sv,
        (Err(e), Err(se)) => e@ == se,
        _ => false,
    }
}

// ---------------------------------------------------------------------------
// Lemmas
// ---------------------------------------------------------------------------

pub proof fn lemma_read_quoted_bounds(s: Seq<char>, pos: int, q: char, acc: Seq<char>)
    requires
        0 <= pos,
    ensures
        read_quoted(s, pos, q, acc) matches Some((_, e)) ==> pos < e <= s.len(),
    decreases s.len() - pos,
{
    if pos >= s.len() {
    } else if s[pos] == q {
        if pos + 1 < s.len() && s[pos + 1] == q {
            lemma_read_quoted_bounds(s, pos + 2, q, acc.push(q));
        }
    } else {
        lemma_read_quoted_bounds(s, pos + 1, q, acc.push(s[pos]));
    }
}

pub proof fn lemma_ident_end_bounds(s: Seq<char>, pos: int)
    requires
        0 <= pos <= s.len(),
    ensures
        pos <= ident_end(s, pos) <= s.len(),
    decreases s.len() - pos,
{
    if 0 <= pos < s.len() && ident_char(s[pos]) {
        lemma_ident_end_bounds(s, pos + 1);
    }
}

pub proof fn lemma_class_end_bounds(s: Seq<char>, pos: int)
    requires
        0 <= pos,
    ensures
        class_end(s, pos) matches Some(e) ==> pos <= e < s.len() && s[e] == ']',
    decreases s.len() - pos,
{
    if pos < 0 || pos >= s.len() {
    } else if s[pos] == ']' {
    } else {
        lemma_class_end_bounds(s, pos + 1);
    }
}

pub proof fn lemma_next_token_advances(s: Seq<char>, pos: int)
    requires
        0 <= pos < s.len(),
    ensures
        next_token(s, pos) matches Ok((_, q)) ==> pos < q <= s.len(),
{
    let c = s[pos];
    lemma_read_quoted_bounds(s, pos + 1, '"', Seq::empty());
    lemma_read_quoted_bounds(s, pos + 1, '\'', Seq::empty());
    lemma_class_end_bounds(s, pos + 1);
    lemma_ident_end_bounds(s, pos);
    if unicode_alphabetic(c) || c == '_' {
        assert(ident_char(c));
        lemma_ident_end_bounds(s, pos + 1);
    }
}

pub proof fn lemma_skip_trivia_bounds(s: Seq<char>, pos: int)
    requires
        0 <= pos <= s.len(),
    ensures
        skip_trivia(s, pos) matches Ok(p) ==> pos <= p <= s.len() && (p < s.len() ==> !white_space(s[p]) && s[p] != '{'),
    decreases s.len() - pos,
{
    let p = skip_ws(s, pos);
    lemma_skip_ws_bounds(s, pos);
    if p < s.len() && s[p] == '{' {
        lemma_comment_end_bounds(s, p + 1, 1);
        match comment_end(s, p + 1, 1) {
            Some(q) => {
                lemma_skip_trivia_bounds(s, q);
            },
            None => {},
        }
    }
}

// ---------------------------------------------------------------------------
// The lexer
// ---------------------------------------------------------------------------

/// Lexer state: the characters of the grammar text and a position in them.
pub struct Lexer {
    input: Vec<char>,
    pos: usize,
}

impl Lexer {
    /// The characters being lexed.
    pub closed spec fn chars(&self) -> Seq<char> {
        self.input@
    }

    /// The current position.
    pub closed spec fn position(&self) -> int {
        self.pos as int
    }

    /// A lexer at the start of `input`.
    pub fn new(input: &str) -> (r: Self)
        ensures
            r.chars() == input@,
            r.position() == 0,
    {
        Lexer { input: str_to_chars(input), pos: 0 }
    }

    /// Splits the remaining text into tokens, ending with `Token::Eof`.
    pub fn tokenize(&mut self) -> (r: Result<Vec<Token>, String>)
        requires
            old(self).position() <= old(self).chars().len(),
        ensures
            lex_result_is(r, lex_from(old(self).chars(), old(self).position())),
            final(self).chars() == old(self).chars(),
            final(self).position() <= final(self).chars().len(),
    {
        let ghost s = self.input@;
        let ghost start = self.pos as int;
        let mut tokens: Vec<Token> = Vec::new();
        while self.pos < self.input.len()
            invariant_except_break
                self.input@ == s,
                s == old(self).input@,
                start == old(self).pos,
                start <= self.pos <= s.len(),
                match lex_from(s, self.pos as int) {
                    Ok(rest) => lex_from(s, start) == Ok::<Seq<TokenV>, Seq<char>>(
                        tokens_view(tokens@) + rest,
                    ),
                    Err(e) => lex_from(s, start) == Err::<Seq<TokenV>, Seq<char>>(e),
                },
            ensures
                self.input@ == s,
                s == old(self).input@,
                start == old(self).pos,
                self.pos == s.len(),
                match lex_from(s, self.pos as int) {
                    Ok(rest) => lex_from(s, start) == Ok::<Seq<TokenV>, Seq<char>>(
                        tokens_view(tokens@) + rest,
                    ),
                    Err(e) => lex_from(s, start) == Err::<Seq<TokenV>, Seq<char>>(e),
                },
                self.pos >= s.len() ==> lex_from(s, self.pos as int) == Ok::<
                    Seq<TokenV>,
                    Seq<char>,
                >(seq![TokenV::Eof]),
            decreases s.len() - self.pos,
        {
            let ghost before = self.pos as int;
            proof {
                lemma_skip_trivia_bounds(s, before);
            }
            match self.skip_whitespace_and_comments() {
                Ok(()) => {},
                Err(e) => {
                    return Err(e);
                },
            }
            if self.pos >= self.input.len() {
                break;
            }
            let ghost p = self.pos as int;
            proof {
                lemma_next_token_advances(s, p);
            }
            let token = match self.next_token() {
                Ok(t) => t,
                Err(e) => {
                    return Err(e);
                },
            };
            let ghost prev = tokens@;
            tokens.push(token);
            proof {
                assert(tokens_view(tokens@) == tokens_view(prev) + seq![token@]);
                match lex_from(s, self.pos as int) {
                    Ok(rest) => {
                        assert(tokens_view(prev) + seq![token@] + rest == tokens_view(prev) + (
                        seq![token@] + rest));
                    },
                    Err(e) => {},
                }
            }
        }
        let ghost prev = tokens@;
        tokens.push(Token::Eof);
        proof {
            assert(tokens_view(tokens@) =~= tokens_view(prev) + seq![TokenV::Eof]);
            assert(lex_from(s, self.pos as int) == Ok::<Seq<TokenV>, Seq<char>>(seq![TokenV::Eof]));
            assert(lex_from(s, start) == Ok::<Seq<TokenV>, Seq<char>>(tokens_view(tokens@)));
        }
        Ok(tokens)
    }

    /// Skips whitespace and comments.
    fn skip_whitespace_and_comments(&mut self) -> (r: Result<(), String>)
        requires
            old(self).pos <= old(self).input.len(),
        ensures
            final(self).input@ == old(self).input@,
            match skip_trivia(old(self).input@, old(self).pos as int) {
                Ok(p) => r is Ok && final(self).pos == p,
                Err(e) => r matches Err(m) && m@ == e,
            },
            final(self).pos <= final(self).input.len(),
    {
        let ghost s = self.input@;
        let ghost start = self.pos as int;
        loop
            invariant
                self.input@ == s,
                s == old(self).input@,
                start == old(self).pos,
                start <= self.pos <= s.len(),
                skip_trivia(s, start) == skip_trivia(s, self.pos as int),
            decreases s.len() - self.pos,
        {
            let ghost cur = self.pos as int;
            self.skip_whitespace();
            proof {
                lemma_skip_ws_bounds(s, cur);
            }
            if self.peek() == Some('{') {
                let ghost p = self.pos as int;
                proof {
                    lemma_comment_end_bounds(s, p + 1, 1);
                }
                match self.skip_comment() {
                    Ok(()) => {},
                    Err(e) => {
                        return Err(e);
                    },
                }
            } else {
                return Ok(());
            }
        }
    }

    /// Skips one (possibly nested) comment starting at `{`.
    fn skip_comment(&mut self) -> (r: Result<(), String>)
        requires
            old(self).pos < old(self).input.len(),
            old(self).input@[old(self).pos as int] == '{',
        ensures
            final(self).input@ == old(self).input@,
            match comment_end(old(self).input@, old(self).pos + 1, 1) {
                Some(q) => r is Ok && final(self).pos == q,
                None => r matches Err(m) && m@ == "Unclosed comment"@,
            },
            final(self).pos <= final(self).input.len(),
    {
        let ghost s = self.input@;
        let ghost start = self.pos as int;
        self.advance();
        let mut depth: usize = 1;
        while depth > 0 && self.pos < self.input.len()
            invariant
                self.input@ == s,
                0 <= start < self.pos <= s.len(),
                depth <= self.pos - start,
                comment_end(s, start + 1, 1) == comment_end(s, self.pos as int, depth as nat),
            decreases s.len() - self.pos,
        {
            let ch = self.input[self.pos];
            assert(depth <= self.pos - start);
            if ch == '{' {
                depth = depth + 1;
            } else if ch == '}' {
                depth = depth - 1;
            }
            self.advance();
        }
        if depth > 0 {
            return Err(String::from_str("Unclosed comment"));
        }
        Ok(())
    }

    /// Skips whitespace.
    fn skip_whitespace(&mut self)
        requires
            old(self).pos <= old(self).input.len(),
        ensures
            final(self).input@ == old(self).input@,
            final(self).pos == skip_ws(old(self).input@, old(self).pos as int),
            final(self).pos <= final(self).input.len(),
    {
        let ghost s = self.input@;
        let ghost start = self.pos as int;
        while self.pos < self.input.len() && is_white_space(self.input[self.pos])
            invariant
                self.input@ == s,
                start <= self.pos <= s.len(),
                skip_ws(s, start) == skip_ws(s, self.pos as int),
            decreases s.len() - self.pos,
        {
            self.pos = self.pos + 1;
        }
    }

    /// The current character, if any.
    fn peek(&self) -> (r: Option<char>)
        ensures
            self.pos < self.input.len() ==> r == Some(self.input@[self.pos as int]),
            self.pos >= self.input.len() ==> r is None,
    {
        if self.pos < self.input.len() {
            Some(self.input[self.pos])
        } else {
            None
        }
    }

    /// Consumes the current character, if any.
    fn advance(&mut self) -> (r: Option<char>)
        ensures
            final(self).input@ == old(self).input@,
            old(self).pos < old(self).input.len() ==> r == Some(old(self).input@[old(self).pos as int])
                && final(self).pos == old(self).pos + 1,
            old(self).pos >= old(self).input.len() ==> r is None && final(self).pos == old(self).pos,
    {
        if self.pos < self.input.len() {
            let ch = self.input[self.pos];
            self.pos = self.pos + 1;
            Some(ch)
        } else {
            None
        }
    }

    /// Reads the token at the current position.
    fn next_token(&mut self) -> (r: Result<Token, String>)
        requires
            old(self).pos < old(self).input.len(),
        ensures
            final(self).input@ == old(self).input@,
            final(self).pos <= final(self).input.len(),
            match next_token(old(self).input@, old(self).pos as int) {
                Ok((t, q)) => r matches Ok(tok) && tok@ == t && final(self).pos == q,
                Err(e) => r matches Err(m) && m@ == e,
            },
    {
        let ghost s = self.input@;
        let ghost p = self.pos as int;
        let c = self.input[self.pos];
        if c == '"' {
            self.read_quoted('"', "Unterminated string")
        } else if c == '\'' {
            self.read_quoted('\'', "Unterminated character literal")
        } else if c == '[' {
            self.read_char_class()
        } else if c == ']' {
            Err(String::from_str("Unexpected ] outside character class"))
        } else if c == ':' {
            self.advance();
            Ok(Token::Colon)
        } else if c == '.' {
            self.advance();
            Ok(Token::Period)
        } else if c == ';' {
            self.advance();
            Ok(Token::Semicolon)
        } else if c == '|' {
            self.advance();
            Ok(Token::Pipe)
        } else if c == '+' {
            self.advance();
            Ok(Token::Plus)
        } else if c == '*' {
            self.advance();
            Ok(Token::Star)
        } else if c == '?' {
            self.advance();
            Ok(Token::Question)
        } else if c == '@' {
            self.advance();
            Ok(Token::At)
        } else if c == '-' {
            self.advance();
            Ok(Token::Minus)
        } else if c == '~' {
            self.advance();
            Ok(Token::Tilde)
        } else if c == '^' {
            self.advance();
            Ok(Token::Caret)
        } else if c == '(' {
            self.advance();
            Ok(Token::LParen)
        } else if c == ')' {
            self.advance();
            Ok(Token::RParen)
        } else if c == ',' {
            self.advance();
            Ok(Token::Comma)
        } else if c == '=' {
            self.advance();
            Ok(Token::Equals)
        } else if char_is_alphabetic(c) || c == '_' {
            self.read_ident()
        } else {
            let mut m = String::from_str("Unexpected character: ");
            push_char(&mut m, c);
            Err(m)
        }
    }

    /// Reads a quoted literal whose opening quote is `q`; `unterminated` is
    /// the error when the text ends first.
    fn read_quoted(&mut self, q: char, unterminated: &str) -> (r: Result<Token, String>)
        requires
            old(self).pos < old(self).input.len(),
            old(self).input@[old(self).pos as int] == q,
        ensures
            final(self).input@ == old(self).input@,
            final(self).pos <= final(self).input.len(),
            match read_quoted(old(self).input@, old(self).pos + 1, q, Seq::empty()) {
                Some((t, e)) => r matches Ok(tok) && tok@ == TokenV::Str(t) && final(self).pos == e,
                None => r matches Err(m) && m@ == unterminated@,
            },
    {
        let ghost s = self.input@;
        self.advance();
        let mut text = String::new();
        while self.pos < self.input.len()
            invariant
                self.input@ == s,
                s == old(self).input@,
                0 < self.pos <= s.len(),
                read_quoted(s, old(self).pos + 1, q, Seq::empty()) == read_quoted(
                    s,
                    self.pos as int,
                    q,
                    text@,
                ),
            decreases s.len() - self.pos,
        {
            let ch = self.input[self.pos];
            if ch == q {
                self.advance();
                if self.peek() == Some(q) {
                    push_char(&mut text, q);
                    self.advance();
                } else {
                    return Ok(Token::String(text));
                }
            } else {
                push_char(&mut text, ch);
                self.advance();
            }
        }
        Err(String::from_str(unterminated))
    }

    /// Reads an identifier.
    fn read_ident(&mut self) -> (r: Result<Token, String>)
        requires
            old(self).pos < old(self).input.len(),
        ensures
            final(self).input@ == old(self).input@,
            final(self).pos == ident_end(old(self).input@, old(self).pos as int),
            final(self).pos <= final(self).input.len(),
            r matches Ok(tok) && tok@ == TokenV::Ident(
                old(self).input@.subrange(old(self).pos as int, final(self).pos as int),
            ),
    {
        let ghost s = self.input@;
        let ghost start = self.pos as int;
        let mut ident = String::new();
        while self.pos < self.input.len() && (is_alphanumeric(self.input[self.pos])
            || self.input[self.pos] == '_' || self.input[self.pos] == '-')
            invariant
                self.input@ == s,
                s == old(self).input@,
                start == old(self).pos,
                start <= self.pos <= s.len(),
                ident_end(s, start) == ident_end(s, self.pos as int),
                ident@ == s.subrange(start, self.pos as int),
            decreases s.len() - self.pos,
        {
            let ch = self.input[self.pos];
            push_char(&mut ident, ch);
            proof {
                assert(s.subrange(start, self.pos + 1) == s.subrange(start, self.pos as int).push(ch));
            }
            self.advance();
        }
        Ok(Token::Ident(ident))
    }

    /// Reads a character class `[...]`.
    fn read_char_class(&mut self) -> (r: Result<Token, String>)
        requires
            old(self).pos < old(self).input.len(),
        ensures
            final(self).input@ == old(self).input@,
            final(self).pos <= final(self).input.len(),
            match class_end(old(self).input@, old(self).pos + 1) {
                Some(e) => r matches Ok(tok) && tok@ == TokenV::CharClass(
                    old(self).input@.subrange(old(self).pos + 1, e),
                ) && final(self).pos == e + 1,
                None => r matches Err(m) && m@ == "Unterminated character class"@,
            },
    {
        let ghost s = self.input@;
        let ghost start = self.pos as int + 1;
        self.advance();
        let mut content = String::new();
        while self.pos < self.input.len()
            invariant
                self.input@ == s,
                s == old(self).input@,
                start == old(self).pos + 1,
                start <= self.pos <= s.len(),
                class_end(s, start) == class_end(s, self.pos as int),
                content@ == s.subrange(start, self.pos as int),
            decreases s.len() - self.pos,
        {
            let ch = self.input[self.pos];
            if ch == ']' {
                self.advance();
                return Ok(Token::CharClass(content));
            }
            push_char(&mut content, ch);
            proof {
                assert(s.subrange(start, self.pos + 1) == s.subrange(start, self.pos as int).push(ch));
            }
            self.advance();
        }
        Err(String::from_str("Unterminated character class"))
    }
}

/// Whether `ts` ends with `Eof` and holds no other `Eof`.
pub open spec fn ends_with_single_eof(ts: Seq<TokenV>) -> bool {
    &&& ts.len() >= 1
    &&& ts.last() == TokenV::Eof
    &&& forall|i: int| 0 <= i < ts.len() - 1 ==> ts[i] != TokenV::Eof
}

proof fn lemma_lex_from_single_eof(s: Seq<char>, pos: int)
    ensures
        lex_from(s, pos) matches Ok(ts) ==> ends_with_single_eof(ts),
    decreases s.len() - pos,
{
    if let Ok(p) = skip_trivia(s, pos) {
        if 0 <= p < s.len() {
            if let Ok((t, q)) = next_token(s, p) {
                if pos < q <= s.len() {
                    lemma_lex_from_single_eof(s, q);
                    if let Ok(rest) = lex_from(s, q) {
                        let ts = seq![t] + rest;
                        assert(t != TokenV::Eof);
                        assert forall|i: int| 0 <= i < ts.len() - 1 implies ts[i] != TokenV::Eof by {
                            if i > 0 {
                                assert(ts[i] == rest[i - 1]);
                            }
                        }
                    }
                }
            }
        }
    }
}

/// A successful tokenization ends with `Eof`, and `Eof` occurs nowhere else
/// in the token list.
pub proof fn law_tokenize_ends_with_single_eof(s: Seq<char>)
    ensures
        lex(s) matches Ok(ts) ==> ends_with_single_eof(ts),
{
    lemma_lex_from_single_eof(s, 0);
}

} // verus!

