//! A character-level parser for one factor of an iXML rule, with an
//! optional `+` repetition: a name (`foo`) or an insertion (`+"text"`),
//! then optionally `+`, with white space around.  It reads the text one
//! character at a time and gives `NT:name` or `INSERT:text`, wrapped as
//! `REPEAT1:...` when repeated.
//!
//! ```text
//! Rule        := WS Repeat1 WS
//! Repeat1     := Factor WS '+' WS | Factor
//! Factor      := '+' WS '"' [^"]+ '"' WS | Ident WS
//! Ident       := [a-zA-Z_] [a-zA-Z0-9_]*
//! ```
use vstd::prelude::*;

use crate::text::{append_str, push_char};

verus! {

/// Where the reader stands.
#[derive(Debug, Clone, Copy, PartialEq, Eq, Structural)]
pub enum ReadState {
    /// Before the factor.
    Start,
    /// After the `+` of an insertion.
    InsertionPlus,
    /// After the opening quote.
    QuoteOpen,
    /// Inside the quoted text.
    QuoteBody,
    /// Inside a name.
    Name,
    /// After a complete factor.
    FactorDone,
    /// After the repetition `+`.
    Repeated,
}

/// White space.
pub open spec fn is_ws(c: char) -> bool {
    c == ' ' || c == '\t' || c == '\n' || c == '\r'
}

/// A character that can start a name.
pub open spec fn is_ident_start(c: char) -> bool {
    ('a' <= c && c <= 'z') || ('A' <= c && c <= 'Z') || c == '_'
}

/// A character that can continue a name.
pub open spec fn is_ident_rest(c: char) -> bool {
    is_ident_start(c) || ('0' <= c && c <= '9')
}

/// The state after reading `c`, or none if `c` cannot come next.
pub open spec fn next_state(s: ReadState, c: char) -> Option<ReadState> {
    match s {
        ReadState::Start => if is_ws(c) {
            Some(ReadState::Start)
        } else if c == '+' {
            Some(ReadState::InsertionPlus)
        } else if is_ident_start(c) {
            Some(ReadState::Name)
        } else {
            None
        },
        ReadState::InsertionPlus => if is_ws(c) {
            Some(ReadState::InsertionPlus)
        } else if c == '"' {
            Some(ReadState::QuoteOpen)
        } else {
            None
        },
        ReadState::QuoteOpen => if c == '"' {
            None
        } else {
            Some(ReadState::QuoteBody)
        },
        ReadState::QuoteBody => if c == '"' {
            Some(ReadState::FactorDone)
        } else {
            Some(ReadState::QuoteBody)
        },
        ReadState::Name => if is_ident_rest(c) {
            Some(ReadState::Name)
        } else if is_ws(c) {
            Some(ReadState::FactorDone)
        } else if c == '+' {
            Some(ReadState::Repeated)
        } else {
            None
        },
        ReadState::FactorDone => if is_ws(c) {
            Some(ReadState::FactorDone)
        } else if c == '+' {
            Some(ReadState::Repeated)
        } else {
            None
        },
        ReadState::Repeated => if is_ws(c) {
            Some(ReadState::Repeated)
        } else {
            None
        },
    }
}

/// Whether the text read so far is a complete rule.
pub open spec fn accepting(s: ReadState) -> bool {
    s == ReadState::Name || s == ReadState::FactorDone || s == ReadState::Repeated
}

/// The characters that make up the factor's value: the name's characters,
/// or the quoted text.
pub open spec fn keeps(s: ReadState, c: char) -> bool {
    (s == ReadState::Start && is_ident_start(c)) || (s == ReadState::Name && is_ident_rest(c)) || (
    (s == ReadState::QuoteOpen || s == ReadState::QuoteBody) && c != '"')
}

/// The result of a complete rule read with state `s`, kind of factor
/// `insertion` and value `v`.
pub open spec fn rule_value(s: ReadState, insertion: bool, v: Seq<char>) -> Seq<char> {
    let f = if insertion {
        "INSERT:"@ + v
    } else {
        "NT:"@ + v
    };
    if s == ReadState::Repeated {
        "REPEAT1:"@ + f
    } else {
        f
    }
}

/// The parser's tables (it has no state of its own).
pub struct RuleParser {}

impl RuleParser {
    pub fn new() -> (r: Self) {
        RuleParser {  }
    }
}

/// The reading so far.
pub struct RuleContext {
    pub state: ReadState,
    /// Whether the factor is an insertion.
    pub insertion: bool,
    /// The factor's value so far.
    pub value: String,
}

impl RuleContext {
    /// A context before any character.
    pub fn new() -> (r: Self)
        ensures
            r.state == ReadState::Start,
            !r.insertion,
            r.value@ == Seq::<char>::empty(),
    {
        RuleContext { state: ReadState::Start, insertion: false, value: String::new() }
    }

    /// Reads one character; an error if it cannot come next (the context is
    /// then unchanged).
    pub fn feed(&mut self, parser: &RuleParser, c: char, data: &mut ()) -> (r: Result<(), String>)
        ensures
            r is Ok <==> next_state(old(self).state, c) is Some,
            r is Ok ==> final(self).state == next_state(old(self).state, c)->0 && final(self).insertion
                == (old(self).insertion || (old(self).state == ReadState::Start && c == '+'))
                && final(self).value@ == (if keeps(old(self).state, c) {
                old(self).value@.push(c)
            } else {
                old(self).value@
            }),
            r is Err ==> *final(self) == *old(self),
    {
        let next = match self.state {
            ReadState::Start => if is_ws_exec(c) {
                Some(ReadState::Start)
            } else if c == '+' {
                Some(ReadState::InsertionPlus)
            } else if is_ident_start_exec(c) {
                Some(ReadState::Name)
            } else {
                None
            },
            ReadState::InsertionPlus => if is_ws_exec(c) {
                Some(ReadState::InsertionPlus)
            } else if c == '"' {
                Some(ReadState::QuoteOpen)
            } else {
                None
            },
            ReadState::QuoteOpen => if c == '"' {
                None
            } else {
                Some(ReadState::QuoteBody)
            },
            ReadState::QuoteBody => if c == '"' {
                Some(ReadState::FactorDone)
            } else {
                Some(ReadState::QuoteBody)
            },
            ReadState::Name => if is_ident_start_exec(c) || ('0' <= c && c <= '9') {
                Some(ReadState::Name)
            } else if is_ws_exec(c) {
                Some(ReadState::FactorDone)
            } else if c == '+' {
                Some(ReadState::Repeated)
            } else {
                None
            },
            ReadState::FactorDone => if is_ws_exec(c) {
                Some(ReadState::FactorDone)
            } else if c == '+' {
                Some(ReadState::Repeated)
            } else {
                None
            },
            ReadState::Repeated => if is_ws_exec(c) {
                Some(ReadState::Repeated)
            } else {
                None
            },
        };
        match next {
            None => {
                let mut m = String::from_str("unexpected character '");
                push_char(&mut m, c);
                append_str(&mut m, "'");
                Err(m)
            },
            Some(s) => {
                let keep = (self.state == ReadState::Start && is_ident_start_exec(c)) || (
                self.state == ReadState::Name && (is_ident_start_exec(c) || ('0' <= c && c
                    <= '9'))) || ((self.state == ReadState::QuoteOpen || self.state
                    == ReadState::QuoteBody) && c != '"');
                if keep {
                    push_char(&mut self.value, c);
                }
                if self.state == ReadState::Start && c == '+' {
                    self.insertion = true;
                }
                self.state = s;
                Ok(())
            },
        }
    }

    /// Ends the input: the results of the complete rule, or an error if the
    /// rule is incomplete.
    pub fn accept(self, parser: &RuleParser, data: &mut ()) -> (r: Result<Vec<String>, String>)
        ensures
            r is Ok <==> accepting(self.state),
            r matches Ok(v) ==> v@.len() == 1 && v@[0]@ == rule_value(
                self.state,
                self.insertion,
                self.value@,
            ),
    {
        if !(self.state == ReadState::Name || self.state == ReadState::FactorDone || self.state
            == ReadState::Repeated) {
            return Err(String::from_str("unexpected end of input"));
        }
        let mut f = if self.insertion {
            String::from_str("INSERT:")
        } else {
            String::from_str("NT:")
        };
        append_str(&mut f, self.value.as_str());
        let out = if self.state == ReadState::Repeated {
            let mut r = String::from_str("REPEAT1:");
            append_str(&mut r, f.as_str());
            r
        } else {
            f
        };
        let mut results: Vec<String> = Vec::new();
        results.push(out);
        Ok(results)
    }
}

fn is_ws_exec(c: char) -> (r: bool)
    ensures
        r == is_ws(c),
{
    c == ' ' || c == '\t' || c == '\n' || c == '\r'
}

fn is_ident_start_exec(c: char) -> (r: bool)
    ensures
        r == is_ident_start(c),
{
    ('a' <= c && c <= 'z') || ('A' <= c && c <= 'Z') || c == '_'
}

} // verus!
