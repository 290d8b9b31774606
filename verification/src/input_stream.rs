//! Input stream with position tracking and backtracking support.
//!
//! Holds the input text as a sequence of Unicode characters and a position in
//! it, for recursive descent parsing.
use vstd::prelude::*;

use crate::text::{append_str, chars_to_string, debug_str, debug_text, decimal, push_decimal, str_to_chars};

verus! {

/// The line and column (both from 1) of character position `pos`: every
/// newline before `pos` starts a new line, every other character moves one
/// column right.
pub open spec fn line_col_of(s: Seq<char>, pos: int) -> (int, int)
    decreases pos,
{
    if pos <= 0 || s.len() == 0 {
        (1, 1)
    } else if pos > s.len() {
        line_col_of(s, s.len() as int)
    } else {
        let (l, c) = line_col_of(s, pos - 1);
        if s[pos - 1] == '\n' {
            (l + 1, 1)
        } else {
            (l, c + 1)
        }
    }
}

/// Input stream that tracks a position in text for parsing with backtracking.
pub struct InputStream {
    chars: Vec<char>,
    position: usize,
}

impl InputStream {
    #[verifier::type_invariant]
    spec fn stream_inv(self) -> bool {
        self.position <= self.chars.len()
    }

    /// The characters of the stream.
    pub closed spec fn text(&self) -> Seq<char> {
        self.chars@
    }

    /// The current position.
    pub closed spec fn pos(&self) -> int {
        self.position as int
    }

    /// The position never passes the end.
    pub open spec fn wf(&self) -> bool {
        0 <= self.pos() <= self.text().len()
    }

    /// A stream at the start of `input`.
    pub fn new(input: &str) -> (r: Self)
        ensures
            r.text() == input@,
            r.pos() == 0,
            r.wf(),
    {
        InputStream { chars: str_to_chars(input), position: 0 }
    }

    /// The current character, without advancing.
    pub fn current(&self) -> (r: Option<char>)
        ensures
            r == (if self.pos() < self.text().len() {
                Some(self.text()[self.pos()])
            } else {
                None
            }),
    {
        if self.position < self.chars.len() {
            Some(self.chars[self.position])
        } else {
            None
        }
    }

    /// The current character; the position moves past it if there is one.
    pub fn advance(&mut self) -> (r: Option<char>)
        ensures
            r == (if old(self).pos() < old(self).text().len() {
                Some(old(self).text()[old(self).pos()])
            } else {
                None
            }),
            final(self).text() == old(self).text(),
            final(self).pos() == (if r is Some {
                old(self).pos() + 1
            } else {
                old(self).pos()
            }),
            old(self).wf() ==> final(self).wf(),
    {
        let ch = self.current();
        if ch.is_some() {
            assert(self.position < self.chars.len());
            self.position = self.position + 1;
        }
        ch
    }

    /// The character `offset` places after the current one, if any.
    pub fn peek(&self, offset: usize) -> (r: Option<char>)
        requires
            self.pos() + offset <= usize::MAX,
        ensures
            r == (if self.pos() + offset < self.text().len() {
                Some(self.text()[self.pos() + offset])
            } else {
                None
            }),
    {
        let i = self.position + offset;
        if i < self.chars.len() {
            Some(self.chars[i])
        } else {
            None
        }
    }

    /// The current position (a character index).
    pub fn position(&self) -> (r: usize)
        ensures
            r == self.pos(),
    {
        self.position
    }

    /// Moves to `pos`, or to the end if `pos` is past it.
    pub fn set_position(&mut self, pos: usize)
        ensures
            final(self).text() == old(self).text(),
            final(self).pos() == (if pos <= old(self).text().len() {
                pos as int
            } else {
                old(self).text().len() as int
            }),
            final(self).wf(),
    {
        self.position = if pos <= self.chars.len() {
            pos
        } else {
            self.chars.len()
        };
    }

    /// The text from the current position to the end.
    pub fn remaining(&self) -> (r: String)
        ensures
            r@ == self.text().subrange(self.pos(), self.text().len() as int),
    {
        proof {
            use_type_invariant(self);
        }
        chars_to_string(&self.chars, self.position, self.chars.len())
    }

    /// Whether the position is at (or past) the end.
    pub fn is_eof(&self) -> (r: bool)
        ensures
            r == (self.pos() >= self.text().len()),
    {
        self.position >= self.chars.len()
    }

    /// The number of characters.
    pub fn len(&self) -> (r: usize)
        ensures
            r == self.text().len(),
    {
        self.chars.len()
    }

    /// Whether the text is empty.
    pub fn is_empty(&self) -> (r: bool)
        ensures
            r == (self.text().len() == 0),
    {
        self.chars.len() == 0
    }

    /// The characters from `start` to `end`, both clamped to the length.
    pub fn substring(&self, start: usize, end: usize) -> (r: String)
        requires
            (if start <= self.text().len() {
                start as int
            } else {
                self.text().len() as int
            }) <= (if end <= self.text().len() {
                end as int
            } else {
                self.text().len() as int
            }),
        ensures
            ({
                let n = self.text().len() as int;
                let a = if start <= n {
                    start as int
                } else {
                    n
                };
                let b = if end <= n {
                    end as int
                } else {
                    n
                };
                r@ == self.text().subrange(a, b)
            }),
    {
        let n = self.chars.len();
        let a = if start <= n {
            start
        } else {
            n
        };
        let b = if end <= n {
            end
        } else {
            n
        };
        chars_to_string(&self.chars, a, b)
    }

    /// The line and column of position `pos`, for error messages.
    pub fn line_col(&self, pos: usize) -> (r: (usize, usize))
        requires
            self.text().len() < usize::MAX,
        ensures
            r.0 as int == line_col_of(self.text(), pos as int).0,
            r.1 as int == line_col_of(self.text(), pos as int).1,
    {
        let mut line: usize = 1;
        let mut col: usize = 1;
        let n = self.chars.len();
        let mut i: usize = 0;
        while i < n && i < pos
            invariant
                n == self.chars.len(),
                n < usize::MAX,
                i <= n,
                i <= pos,
                (line as int, col as int) == line_col_of(self.chars@, i as int),
                line + col <= i + 2,
                line >= 1,
                col >= 1,
            decreases n - i,
        {
            if self.chars[i] == '\n' {
                line = line + 1;
                col = 1;
            } else {
                col = col + 1;
            }
            i = i + 1;
        }
        proof {
            lemma_line_col_clamp(self.chars@, i as int, pos as int);
        }
        (line, col)
    }
}

impl InputStream {
    /// The debugging form of the stream: its position and, quoted, up to
    /// twenty characters that follow it.
    pub fn debug_string(&self) -> (r: String)
        ensures
            r@ == "InputStream(pos="@ + decimal(self.pos() as nat) + ", remaining="@ + debug_text(
                self.text().subrange(
                    self.pos(),
                    if self.pos() + 20 <= self.text().len() {
                        self.pos() + 20
                    } else {
                        self.text().len() as int
                    },
                ),
            ) + ")"@,
    {
        proof {
            use_type_invariant(self);
        }
        let n = self.chars.len();
        let end = if n - self.position >= 20 {
            self.position + 20
        } else {
            n
        };
        let head = chars_to_string(&self.chars, self.position, end);
        let mut out = String::from_str("InputStream(pos=");
        push_decimal(&mut out, self.position);
        append_str(&mut out, ", remaining=");
        let quoted = debug_str(head.as_str());
        append_str(&mut out, quoted.as_str());
        append_str(&mut out, ")");
        out
    }
}

/// Past the end of the text the line and column stop changing.
pub proof fn lemma_line_col_clamp(s: Seq<char>, i: int, pos: int)
    requires
        0 <= i <= s.len(),
        i <= pos,
        i == s.len() || i == pos,
    ensures
        line_col_of(s, pos) == line_col_of(s, i),
    decreases pos - i,
{
    if pos > i {
        if s.len() == 0 {
        } else if pos > s.len() {
            lemma_line_col_clamp(s, i, s.len() as int);
        } else {
        }
    }
}

} // verus!
