//! Parse context, results and errors of the native interpreter.
//!
//! The context tracks which rules are being parsed (for left-recursion
//! detection); results carry a node and the number of characters consumed.
use vstd::prelude::*;

use crate::input_stream::{line_col_of, InputStream};
use crate::text::{append_str, decimal, push_char, push_decimal, str_eq, string_eq};
use crate::xml_node::{xml_view, XmlNode, XmlV};

verus! {

// ---------------------------------------------------------------------------
// A set of rule names
// ---------------------------------------------------------------------------

/// A set of rule names, kept as a list without repetitions.
#[derive(Debug)]
pub struct NameSet {
    names: Vec<String>,
}

impl NameSet {
    /// The names in the set.
    pub closed spec fn view(&self) -> Set<Seq<char>> {
        Set::new(|n: Seq<char>| exists|i: int| 0 <= i < self.names@.len() && #[trigger] self.names@[i]@ == n)
    }

    /// The list holds each name once.
    pub closed spec fn wf(&self) -> bool {
        forall|i: int, j: int|
            0 <= i < self.names@.len() && 0 <= j < self.names@.len() && i != j
                ==> #[trigger] self.names@[i]@ != #[trigger] self.names@[j]@
    }

    /// The number of names.
    pub closed spec fn size(&self) -> nat {
        self.names@.len()
    }

    /// An empty set.
    pub fn new() -> (r: Self)
        ensures
            r.view() == Set::<Seq<char>>::empty(),
            r.wf(),
            r.size() == 0,
            r.list() == Seq::<String>::empty(),
    {
        let r = NameSet { names: Vec::new() };
        proof {
            assert(r.view() =~= Set::<Seq<char>>::empty());
        }
        r
    }

    /// Whether `name` is in the set.
    pub fn contains(&self, name: &str) -> (r: bool)
        ensures
            r == self.view().contains(name@),
    {
        let mut i: usize = 0;
        while i < self.names.len()
            invariant
                i <= self.names.len(),
                forall|j: int| 0 <= j < i ==> self.names@[j]@ != name@,
            decreases self.names.len() - i,
        {
            if string_eq(&self.names[i], name) {
                return true;
            }
            i = i + 1;
        }
        false
    }

    /// Whether the set is empty.
    pub fn is_empty(&self) -> (r: bool)
        ensures
            r == (self.view() == Set::<Seq<char>>::empty()),
    {
        if self.names.len() == 0 {
            proof {
                assert(self.view() =~= Set::<Seq<char>>::empty());
            }
            true
        } else {
            proof {
                assert(self.view().contains(self.names@[0]@));
            }
            false
        }
    }

    /// The number of names in the set.
    pub fn len(&self) -> (r: usize)
        ensures
            r == self.size(),
    {
        self.names.len()
    }

    /// The names, in the order they were added.
    pub fn names(&self) -> (r: &Vec<String>)
        ensures
            r@ == self.list(),
            forall|n: Seq<char>| self.view().contains(n) <==> exists|i: int| 0 <= i < r@.len() && #[trigger] r@[i]@ == n,
    {
        &self.names
    }

    /// The list behind the set.
    pub closed spec fn list(&self) -> Seq<String> {
        self.names@
    }

    /// Adds `name`; returns whether it was new.
    pub fn insert(&mut self, name: &str) -> (r: bool)
        requires
            old(self).wf(),
        ensures
            r == !old(self).view().contains(name@),
            final(self).view() == old(self).view().insert(name@),
            final(self).wf(),
            final(self).list() == (if r { old(self).list().push(final(self).list().last()) } else { old(self).list() }),
            r ==> final(self).list().last()@ == name@,
    {
        if self.contains(name) {
            proof {
                assert(self.view().insert(name@) =~= self.view());
            }
            return false;
        }
        let ghost prev = *self;
        self.names.push(String::from_str(name));
        proof {
            assert(self.view() =~= prev.view().insert(name@)) by {
                assert forall|n: Seq<char>| self.view().contains(n) implies prev.view().insert(name@).contains(n) by {
                    let i = choose|i: int| 0 <= i < self.names@.len() && #[trigger] self.names@[i]@ == n;
                    if i < prev.names@.len() {
                        assert(prev.names@[i] == self.names@[i]);
                    }
                }
                assert forall|n: Seq<char>| prev.view().insert(name@).contains(n) implies self.view().contains(n) by {
                    if n == name@ {
                        assert(self.names@[prev.names@.len() as int]@ == n);
                    } else {
                        let i = choose|i: int| 0 <= i < prev.names@.len() && #[trigger] prev.names@[i]@ == n;
                        assert(self.names@[i] == prev.names@[i]);
                    }
                }
            }
            assert forall|i: int, j: int|
                0 <= i < self.names@.len() && 0 <= j < self.names@.len() && i != j
                    implies #[trigger] self.names@[i]@ != #[trigger] self.names@[j]@ by {
                if i < prev.names@.len() && j < prev.names@.len() {
                    assert(prev.names@[i] == self.names@[i]);
                    assert(prev.names@[j] == self.names@[j]);
                } else if i < prev.names@.len() {
                    assert(prev.names@[i] == self.names@[i]);
                    assert(prev.view().contains(self.names@[i]@));
                } else if j < prev.names@.len() {
                    assert(prev.names@[j] == self.names@[j]);
                    assert(prev.view().contains(self.names@[j]@));
                }
            }
            assert(self.names@.drop_last() == prev.names@);
        }
        true
    }

    /// Removes `name` if present.
    pub fn remove(&mut self, name: &str)
        requires
            old(self).wf(),
        ensures
            final(self).view() == old(self).view().remove(name@),
            final(self).wf(),
    {
        let ghost prev = self.names@;
        let mut i: usize = 0;
        while i < self.names.len()
            invariant
                self.names@ == prev,
                prev == old(self).names@,
                old(self).wf(),
                i <= self.names.len(),
                forall|j: int| 0 <= j < i ==> #[trigger] prev[j]@ != name@,
            decreases self.names.len() - i,
        {
            if string_eq(&self.names[i], name) {
                self.names.remove(i);
                proof {
                    let cur = self.names@;
                    assert(cur == prev.remove(i as int));
                    assert forall|n: Seq<char>| self.view().contains(n) <==> old(self).view().remove(name@).contains(n) by {
                        if self.view().contains(n) {
                            let k = choose|k: int| 0 <= k < cur.len() && #[trigger] cur[k]@ == n;
                            if k < i {
                                assert(cur[k] == prev[k]);
                            } else {
                                assert(cur[k] == prev[k + 1]);
                            }
                        }
                        if old(self).view().remove(name@).contains(n) {
                            let k = choose|k: int| 0 <= k < prev.len() && #[trigger] prev[k]@ == n;
                            if k < i {
                                assert(cur[k] == prev[k]);
                            } else if k > i {
                                assert(cur[k - 1] == prev[k]);
                            }
                        }
                    }
                    assert(self.view() =~= old(self).view().remove(name@));
                    assert forall|a: int, b: int|
                        0 <= a < cur.len() && 0 <= b < cur.len() && a != b implies #[trigger] cur[a]@ != #[trigger] cur[b]@ by {
                        let a2 = if a < i { a } else { a + 1 };
                        let b2 = if b < i { b } else { b + 1 };
                        assert(cur[a] == prev[a2]);
                        assert(cur[b] == prev[b2]);
                    }
                }
                return;
            }
            i = i + 1;
        }
        proof {
            assert(self.view() =~= old(self).view().remove(name@));
        }
    }
}

// ---------------------------------------------------------------------------
// The context
// ---------------------------------------------------------------------------

/// Context maintained during parsing for tracking and error reporting.
#[derive(Debug)]
pub struct ParseContext {
    /// The rule entered last (for error messages).
    pub rule_name: String,
    /// Recursion depth.
    pub depth: usize,
    /// Rules currently being parsed (for left-recursion detection).
    pub left_recursion: NameSet,
    /// Rules currently being parsed, with the position each started at.
    pub active: Vec<(String, usize)>,
}

/// A list of (rule, position) pairs viewed as a set.
pub open spec fn pairs_view(v: Seq<(String, usize)>) -> Set<(Seq<char>, int)> {
    Set::new(|p: (Seq<char>, int)| exists|i: int| 0 <= i < v.len() && (#[trigger] v[i]).0@ == p.0 && v[i].1 as int == p.1)
}

impl ParseContext {
    /// The (rule, position) pairs of the rules being parsed.
    pub closed spec fn active_view(&self) -> Set<(Seq<char>, int)> {
        pairs_view(self.active@)
    }

    /// The context is consistent.
    pub closed spec fn wf(&self) -> bool {
        self.left_recursion.wf()
    }

    /// A fresh context: no rule name, depth 0, nothing being parsed.
    pub fn new() -> (r: Self)
        ensures
            r.rule_name@ == Seq::<char>::empty(),
            r.depth == 0,
            r.left_recursion.view() == Set::<Seq<char>>::empty(),
            r.left_recursion.list() == Seq::<String>::empty(),
            r.active@ == Seq::<(String, usize)>::empty(),
            r.active_view() == Set::<(Seq<char>, int)>::empty(),
            r.wf(),
    {
        let r = ParseContext {
            rule_name: String::new(),
            depth: 0,
            left_recursion: NameSet::new(),
            active: Vec::new(),
        };
        proof {
            assert(r.active_view() =~= Set::<(Seq<char>, int)>::empty());
        }
        r
    }

    /// Enters a rule: the depth grows by one and the rule becomes the current
    /// one; returns `false` if the rule was already being parsed (direct left
    /// recursion), and records it otherwise.
    pub fn enter_rule(&mut self, rule_name: &str) -> (r: bool)
        requires
            old(self).wf(),
            old(self).depth < usize::MAX,
        ensures
            r == !old(self).left_recursion.view().contains(rule_name@),
            final(self).depth == old(self).depth + 1,
            final(self).rule_name@ == rule_name@,
            final(self).left_recursion.view() == old(self).left_recursion.view().insert(rule_name@),
            final(self).active_view() == old(self).active_view(),
            final(self).wf(),
    {
        self.depth = self.depth + 1;
        self.rule_name = String::from_str(rule_name);
        self.left_recursion.insert(rule_name)
    }

    /// Exits a rule: the depth shrinks by one (not below zero) and the rule
    /// is no longer being parsed.
    pub fn exit_rule(&mut self, rule_name: &str)
        requires
            old(self).wf(),
        ensures
            final(self).depth == (if old(self).depth > 0 { old(self).depth - 1 } else { 0 }),
            final(self).rule_name == old(self).rule_name,
            final(self).left_recursion.view() == old(self).left_recursion.view().remove(rule_name@),
            final(self).active_view() == old(self).active_view(),
            final(self).wf(),
    {
        self.depth = if self.depth > 0 { self.depth - 1 } else { 0 };
        self.left_recursion.remove(rule_name);
    }

    /// Enters `rule_name` at input position `pos`: the depth grows by one (it
    /// stays at its maximum) and the rule becomes the current one; returns
    /// `false` if that rule is already being parsed at that position, and
    /// records the pair otherwise.
    #[verifier::loop_isolation(false)]
    pub fn enter_rule_at(&mut self, rule_name: &str, pos: usize) -> (r: bool)
        ensures
            r == !old(self).active_view().contains((rule_name@, pos as int)),
            final(self).rule_name@ == rule_name@,
            final(self).active_view() == old(self).active_view().insert((rule_name@, pos as int)),
            final(self).left_recursion == old(self).left_recursion,
            final(self).depth == (if old(self).depth < usize::MAX { old(self).depth + 1 } else { old(self).depth as int }),
    {
        self.depth = if self.depth < usize::MAX { self.depth + 1 } else { self.depth };
        self.rule_name = String::from_str(rule_name);
        let mut i: usize = 0;
        while i < self.active.len()
            invariant
                i <= self.active.len(),
                forall|j: int| 0 <= j < i ==> !((#[trigger] self.active@[j]).0@ == rule_name@ && self.active@[j].1 == pos),
            decreases self.active.len() - i,
        {
            if self.active[i].1 == pos && string_eq(&self.active[i].0, rule_name) {
                proof {
                    assert(self.active_view().contains((rule_name@, pos as int)));
                    assert(self.active_view().insert((rule_name@, pos as int)) =~= self.active_view());
                }
                return false;
            }
            i = i + 1;
        }
        let ghost prev = self.active@;
        self.active.push((String::from_str(rule_name), pos));
        proof {
            assert(!pairs_view(prev).contains((rule_name@, pos as int)));
            assert(pairs_view(self.active@) =~= pairs_view(prev).insert((rule_name@, pos as int))) by {
                assert forall|p: (Seq<char>, int)| pairs_view(self.active@).contains(p) implies pairs_view(prev).insert((rule_name@, pos as int)).contains(p) by {
                    let k = choose|k: int| 0 <= k < self.active@.len() && (#[trigger] self.active@[k]).0@ == p.0 && self.active@[k].1 as int == p.1;
                    if k < prev.len() {
                        assert(prev[k] == self.active@[k]);
                    }
                }
                assert forall|p: (Seq<char>, int)| pairs_view(prev).insert((rule_name@, pos as int)).contains(p) implies pairs_view(self.active@).contains(p) by {
                    if p == (rule_name@, pos as int) {
                        assert(self.active@[prev.len() as int].0@ == p.0);
                    } else {
                        let k = choose|k: int| 0 <= k < prev.len() && (#[trigger] prev[k]).0@ == p.0 && prev[k].1 as int == p.1;
                        assert(prev[k] == self.active@[k]);
                    }
                }
            }
        }
        true
    }

    /// Exits `rule_name` entered at `pos`: the depth shrinks by one (not below
    /// zero) and the pair is no longer recorded.
    #[verifier::loop_isolation(false)]
    pub fn exit_rule_at(&mut self, rule_name: &str, pos: usize)
        ensures
            final(self).rule_name == old(self).rule_name,
            final(self).active_view() == old(self).active_view().remove((rule_name@, pos as int)),
            final(self).left_recursion == old(self).left_recursion,
            final(self).depth == (if old(self).depth > 0 { old(self).depth - 1 } else { 0 }),
    {
        self.depth = if self.depth > 0 { self.depth - 1 } else { 0 };
        let ghost prev = self.active@;
        let mut kept: Vec<(String, usize)> = Vec::new();
        let mut i: usize = 0;
        while i < self.active.len()
            invariant
                self.active@ == prev,
                i <= self.active.len(),
                pairs_view(kept@) == pairs_view(prev.subrange(0, i as int)).remove((rule_name@, pos as int)),
            decreases self.active.len() - i,
        {
            let ghost before = kept@;
            if !(self.active[i].1 == pos && string_eq(&self.active[i].0, rule_name)) {
                let name = self.active[i].0.clone();
                kept.push((name, self.active[i].1));
                proof {
                    assert(pairs_view(kept@) =~= pairs_view(prev.subrange(0, i + 1)).remove((rule_name@, pos as int))) by {
                        assert forall|p: (Seq<char>, int)| pairs_view(kept@).contains(p) implies pairs_view(prev.subrange(0, i + 1)).remove((rule_name@, pos as int)).contains(p) by {
                            let k = choose|k: int| 0 <= k < kept@.len() && (#[trigger] kept@[k]).0@ == p.0 && kept@[k].1 as int == p.1;
                            if k < before.len() {
                                assert(before[k] == kept@[k]);
                                assert(pairs_view(before).contains(p));
                                let k2 = choose|k2: int| 0 <= k2 < i && (#[trigger] prev.subrange(0, i as int)[k2]).0@ == p.0 && prev.subrange(0, i as int)[k2].1 as int == p.1;
                                assert(prev.subrange(0, i + 1)[k2] == prev.subrange(0, i as int)[k2]);
                            } else {
                                assert(prev.subrange(0, i + 1)[i as int] == prev[i as int]);
                            }
                        }
                        assert forall|p: (Seq<char>, int)| pairs_view(prev.subrange(0, i + 1)).remove((rule_name@, pos as int)).contains(p) implies pairs_view(kept@).contains(p) by {
                            let k = choose|k: int| 0 <= k < i + 1 && (#[trigger] prev.subrange(0, i + 1)[k]).0@ == p.0 && prev.subrange(0, i + 1)[k].1 as int == p.1;
                            if k < i {
                                assert(prev.subrange(0, i + 1)[k] == prev.subrange(0, i as int)[k]);
                                assert(pairs_view(before).contains(p));
                                let k2 = choose|k2: int| 0 <= k2 < before.len() && (#[trigger] before[k2]).0@ == p.0 && before[k2].1 as int == p.1;
                                assert(kept@[k2] == before[k2]);
                            } else {
                                assert(kept@[before.len() as int].0@ == p.0);
                            }
                        }
                    }
                }
            } else {
                proof {
                    assert(pairs_view(kept@) =~= pairs_view(prev.subrange(0, i + 1)).remove((rule_name@, pos as int))) by {
                        assert forall|p: (Seq<char>, int)| pairs_view(kept@).contains(p) implies pairs_view(prev.subrange(0, i + 1)).remove((rule_name@, pos as int)).contains(p) by {
                            let k2 = choose|k2: int| 0 <= k2 < i && (#[trigger] prev.subrange(0, i as int)[k2]).0@ == p.0 && prev.subrange(0, i as int)[k2].1 as int == p.1;
                            assert(prev.subrange(0, i + 1)[k2] == prev.subrange(0, i as int)[k2]);
                        }
                        assert forall|p: (Seq<char>, int)| pairs_view(prev.subrange(0, i + 1)).remove((rule_name@, pos as int)).contains(p) implies pairs_view(kept@).contains(p) by {
                            let k = choose|k: int| 0 <= k < i + 1 && (#[trigger] prev.subrange(0, i + 1)[k]).0@ == p.0 && prev.subrange(0, i + 1)[k].1 as int == p.1;
                            if k < i {
                                assert(prev.subrange(0, i + 1)[k] == prev.subrange(0, i as int)[k]);
                            }
                        }
                    }
                }
            }
            i = i + 1;
        }
        proof {
            assert(prev.subrange(0, prev.len() as int) == prev);
        }
        self.active = kept;
    }
}

impl Default for ParseContext {
    fn default() -> (r: Self)
        ensures
            r.rule_name@ == Seq::<char>::empty(),
            r.depth == 0,
            r.left_recursion.view() == Set::<Seq<char>>::empty(),
            r.active_view() == Set::<(Seq<char>, int)>::empty(),
            r.wf(),
    {
        Self::new()
    }
}

// ---------------------------------------------------------------------------
// Results
// ---------------------------------------------------------------------------

/// Result of a parsing step: the node (none if suppressed) and the number of
/// characters consumed.
#[derive(Debug)]
pub struct ParseResult {
    pub node: Option<XmlNode>,
    pub consumed: usize,
}

/// The view of an optional node.
pub open spec fn opt_view(n: Option<XmlNode>) -> Option<XmlV> {
    match n {
        Some(x) => Some(xml_view(x)),
        None => None,
    }
}

impl ParseResult {
    /// A result with the given node and count.
    pub fn new(node: Option<XmlNode>, consumed: usize) -> (r: Self)
        ensures
            r.node == node,
            r.consumed == consumed,
    {
        ParseResult { node, consumed }
    }

    /// A result without a node.
    pub fn suppressed(consumed: usize) -> (r: Self)
        ensures
            r.node is None,
            r.consumed == consumed,
    {
        ParseResult { node: None, consumed }
    }

    /// A result with a node.
    pub fn with_node(node: XmlNode, consumed: usize) -> (r: Self)
        ensures
            r.node == Some(node),
            r.consumed == consumed,
    {
        ParseResult { node: Some(node), consumed }
    }

    /// A result for an insertion: a node, nothing consumed.
    pub fn insertion(node: XmlNode) -> (r: Self)
        ensures
            r.node == Some(node),
            r.consumed == 0,
    {
        ParseResult { node: Some(node), consumed: 0 }
    }
}

// ---------------------------------------------------------------------------
// Errors
// ---------------------------------------------------------------------------

/// Error type for parsing failures.
#[derive(Debug)]
pub enum ParseError {
    UnexpectedEof { position: usize, expected: String },
    TerminalMismatch { expected: String, actual: String, position: usize },
    CharClassMismatch { charclass: String, negated: bool, actual: char, position: usize },
    NoAlternativeMatched { position: usize, rule: String, attempts: usize },
    UndefinedRule { rule: String, position: usize },
    LeftRecursion { rule: String, position: usize },
    Custom { message: String, position: usize },
}

/// The view of a parse error.
pub enum ParseErrorV {
    UnexpectedEof { position: int, expected: Seq<char> },
    TerminalMismatch { expected: Seq<char>, actual: Seq<char>, position: int },
    CharClassMismatch { charclass: Seq<char>, negated: bool, actual: char, position: int },
    NoAlternativeMatched { position: int, rule: Seq<char>, attempts: int },
    UndefinedRule { rule: Seq<char>, position: int },
    LeftRecursion { rule: Seq<char>, position: int },
    Custom { message: Seq<char>, position: int },
}

impl View for ParseError {
    type V = ParseErrorV;

    open spec fn view(&self) -> ParseErrorV {
        match self {
            ParseError::UnexpectedEof { position, expected } => ParseErrorV::UnexpectedEof {
                position: *position as int,
                expected: expected@,
            },
            ParseError::TerminalMismatch { expected, actual, position } => ParseErrorV::TerminalMismatch {
                expected: expected@,
                actual: actual@,
                position: *position as int,
            },
            ParseError::CharClassMismatch { charclass, negated, actual, position } => ParseErrorV::CharClassMismatch {
                charclass: charclass@,
                negated: *negated,
                actual: *actual,
                position: *position as int,
            },
            ParseError::NoAlternativeMatched { position, rule, attempts } => ParseErrorV::NoAlternativeMatched {
                position: *position as int,
                rule: rule@,
                attempts: *attempts as int,
            },
            ParseError::UndefinedRule { rule, position } => ParseErrorV::UndefinedRule {
                rule: rule@,
                position: *position as int,
            },
            ParseError::LeftRecursion { rule, position } => ParseErrorV::LeftRecursion {
                rule: rule@,
                position: *position as int,
            },
            ParseError::Custom { message, position } => ParseErrorV::Custom {
                message: message@,
                position: *position as int,
            },
        }
    }
}

/// The position where an error occurred.
pub open spec fn error_position(e: ParseErrorV) -> int {
    match e {
        ParseErrorV::UnexpectedEof { position, .. } => position,
        ParseErrorV::TerminalMismatch { position, .. } => position,
        ParseErrorV::CharClassMismatch { position, .. } => position,
        ParseErrorV::NoAlternativeMatched { position, .. } => position,
        ParseErrorV::UndefinedRule { position, .. } => position,
        ParseErrorV::LeftRecursion { position, .. } => position,
        ParseErrorV::Custom { position, .. } => position,
    }
}

/// The text around an error position: up to 20 characters on each side.
pub open spec fn error_context(input: Seq<char>, p: int) -> Seq<char> {
    let n = input.len() as int;
    let a0 = if p >= 20 { p - 20 } else { 0 };
    let b0 = if p + 20 <= n { p + 20 } else { n };
    let a = if a0 <= n { a0 } else { n };
    let b = if b0 <= n { b0 } else { n };
    input.subrange(a, b)
}

/// "Parse error at line L, column C: "
pub open spec fn error_prefix(input: Seq<char>, p: int) -> Seq<char> {
    let lc = line_col_of(input, p);
    "Parse error at line "@ + decimal(lc.0 as nat) + ", column "@ + decimal(lc.1 as nat) + ": "@
}

/// The part of the `format_with_context` message after the line and column,
/// given the text around the error.
pub open spec fn error_detail(e: ParseErrorV, context: Seq<char>) -> Seq<char> {
    let ctx = "\nContext: ..."@ + context + "..."@;
    match e {
        ParseErrorV::UnexpectedEof { expected, .. } => "Unexpected end of input, expected "@
            + expected,
        ParseErrorV::TerminalMismatch { expected, actual, .. } => "Expected '"@ + expected
            + "' but found '"@ + actual + "'"@ + ctx,
        ParseErrorV::CharClassMismatch { charclass, negated, actual, .. } => "Expected "@
            + (if negated { "not "@ } else { Seq::empty() }) + "["@ + charclass + "] but found '"@
            + seq![actual] + "'"@ + ctx,
        ParseErrorV::NoAlternativeMatched { rule, attempts, .. } =>
            "No alternative matched in rule '"@ + rule + "' ("@ + decimal(attempts as nat)
            + " alternatives tried)"@ + ctx,
        ParseErrorV::UndefinedRule { rule, .. } => "Undefined rule '"@ + rule + "'"@,
        ParseErrorV::LeftRecursion { rule, .. } => "Left recursion detected in rule '"@ + rule
            + "'"@,
        ParseErrorV::Custom { message, .. } => message + ctx,
    }
}

/// The message of `format_with_context`.
pub open spec fn error_report(e: ParseErrorV, input: Seq<char>) -> Seq<char> {
    let p = error_position(e);
    error_prefix(input, p) + error_detail(e, error_context(input, p))
}

/// The short message of an error (what `Display` writes).
pub open spec fn error_message(e: ParseErrorV) -> Seq<char> {
    match e {
        ParseErrorV::UnexpectedEof { expected, .. } => "Unexpected EOF, expected "@ + expected,
        ParseErrorV::TerminalMismatch { expected, actual, .. } => "Expected '"@ + expected
            + "' but found '"@ + actual + "'"@,
        ParseErrorV::CharClassMismatch { charclass, negated, actual, .. } => "Expected "@ + (if negated {
            "not "@
        } else {
            Seq::empty()
        }) + "["@ + charclass + "] but found '"@ + seq![actual] + "'"@,
        ParseErrorV::NoAlternativeMatched { rule, attempts, .. } => "No alternative matched in '"@
            + rule + "' ("@ + decimal(attempts as nat) + " tried)"@,
        ParseErrorV::UndefinedRule { rule, .. } => "Undefined rule '"@ + rule + "'"@,
        ParseErrorV::LeftRecursion { rule, .. } => "Left recursion in rule '"@ + rule + "'"@,
        ParseErrorV::Custom { message, .. } => message,
    }
}

impl ParseError {
    /// The position where the error occurred.
    pub fn position(&self) -> (r: usize)
        ensures
            r as int == error_position(self@),
    {
        match self {
            ParseError::UnexpectedEof { position, .. } => *position,
            ParseError::TerminalMismatch { position, .. } => *position,
            ParseError::CharClassMismatch { position, .. } => *position,
            ParseError::NoAlternativeMatched { position, .. } => *position,
            ParseError::UndefinedRule { position, .. } => *position,
            ParseError::LeftRecursion { position, .. } => *position,
            ParseError::Custom { position, .. } => *position,
        }
    }

    /// The error with its line, column and surrounding text in `input`.
    pub fn format_with_context(&self, input: &str) -> (r: String)
        requires
            input@.len() < usize::MAX,
        ensures
            r@ == error_report(self@, input@),
    {
        let stream = InputStream::new(input);
        let p = self.position();
        let (line, col) = stream.line_col(p);
        let a = if p >= 20 { p - 20 } else { 0 };
        let b0 = if p <= stream.len() && stream.len() - p >= 20 { p + 20 } else { stream.len() };
        let context = stream.substring(a, b0);
        proof {
            assert(error_context(input@, p as int) == context@);
        }
        let mut out = String::from_str("Parse error at line ");
        push_decimal(&mut out, line);
        append_str(&mut out, ", column ");
        push_decimal(&mut out, col);
        append_str(&mut out, ": ");
        let ghost head = out@;
        self.push_detail(&mut out, &context);
        proof {
            assert(head == error_prefix(input@, p as int));
        }
        out
    }

    /// Appends the part of the report after the line and column.
    fn push_detail(&self, out: &mut String, context: &String)
        ensures
            final(out)@ == old(out)@ + error_detail(self@, context@),
    {
        match self {
            ParseError::UnexpectedEof { expected, .. } => {
                append_str(out, "Unexpected end of input, expected ");
                append_str(out, expected.as_str());
            },
            ParseError::TerminalMismatch { expected, actual, .. } => {
                append_str(out, "Expected '");
                append_str(out, expected.as_str());
                append_str(out, "' but found '");
                append_str(out, actual.as_str());
                append_str(out, "'");
                push_context(out, context);
            },
            ParseError::CharClassMismatch { charclass, negated, actual, .. } => {
                append_str(out, "Expected ");
                if *negated {
                    append_str(out, "not ");
                }
                append_str(out, "[");
                append_str(out, charclass.as_str());
                append_str(out, "] but found '");
                push_char(out, *actual);
                append_str(out, "'");
                push_context(out, context);
            },
            ParseError::NoAlternativeMatched { rule, attempts, .. } => {
                append_str(out, "No alternative matched in rule '");
                append_str(out, rule.as_str());
                append_str(out, "' (");
                push_decimal(out, *attempts);
                append_str(out, " alternatives tried)");
                push_context(out, context);
            },
            ParseError::UndefinedRule { rule, .. } => {
                append_str(out, "Undefined rule '");
                append_str(out, rule.as_str());
                append_str(out, "'");
            },
            ParseError::LeftRecursion { rule, .. } => {
                append_str(out, "Left recursion detected in rule '");
                append_str(out, rule.as_str());
                append_str(out, "'");
            },
            ParseError::Custom { message, .. } => {
                append_str(out, message.as_str());
                push_context(out, context);
            },
        }
    }

    /// The short message of the error, as written for display.
    pub fn message(&self) -> (r: String)
        ensures
            r@ == error_message(self@),
    {
        let mut out = String::new();
        match self {
            ParseError::UnexpectedEof { expected, .. } => {
                append_str(&mut out, "Unexpected EOF, expected ");
                append_str(&mut out, expected.as_str());
            },
            ParseError::TerminalMismatch { expected, actual, .. } => {
                append_str(&mut out, "Expected '");
                append_str(&mut out, expected.as_str());
                append_str(&mut out, "' but found '");
                append_str(&mut out, actual.as_str());
                append_str(&mut out, "'");
            },
            ParseError::CharClassMismatch { charclass, negated, actual, .. } => {
                append_str(&mut out, "Expected ");
                if *negated {
                    append_str(&mut out, "not ");
                }
                append_str(&mut out, "[");
                append_str(&mut out, charclass.as_str());
                append_str(&mut out, "] but found '");
                push_char(&mut out, *actual);
                append_str(&mut out, "'");
            },
            ParseError::NoAlternativeMatched { rule, attempts, .. } => {
                append_str(&mut out, "No alternative matched in '");
                append_str(&mut out, rule.as_str());
                append_str(&mut out, "' (");
                push_decimal(&mut out, *attempts);
                append_str(&mut out, " tried)");
            },
            ParseError::UndefinedRule { rule, .. } => {
                append_str(&mut out, "Undefined rule '");
                append_str(&mut out, rule.as_str());
                append_str(&mut out, "'");
            },
            ParseError::LeftRecursion { rule, .. } => {
                append_str(&mut out, "Left recursion in rule '");
                append_str(&mut out, rule.as_str());
                append_str(&mut out, "'");
            },
            ParseError::Custom { message, .. } => {
                append_str(&mut out, message.as_str());
            },
        }
        out
    }
}

/// Appends "\nContext: ...<context>...".
fn push_context(out: &mut String, context: &String)
    ensures
        final(out)@ == old(out)@ + "\nContext: ..."@ + context@ + "..."@,
{
    append_str(out, "\nContext: ...");
    append_str(out, context.as_str());
    append_str(out, "...");
}

// ---------------------------------------------------------------------------
// Laws
// ---------------------------------------------------------------------------

/// Entering a rule that is not being parsed and then exiting it gives back
/// the set of rules being parsed and the depth; while inside, entering the
/// rule again is reported as left recursion.
pub proof fn law_enter_then_exit_restores(parsing: Set<Seq<char>>, depth: nat, name: Seq<char>)
    requires
        !parsing.contains(name),
    ensures
        parsing.insert(name).remove(name) == parsing,
        parsing.insert(name).contains(name),
        (if depth + 1 > 0 { (depth + 1 - 1) as nat } else { 0 }) == depth,
{
    assert(parsing.insert(name).remove(name) =~= parsing);
}

} // verus!
