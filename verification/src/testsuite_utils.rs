//! The records of a conformance test: the test itself and its outcome.
use vstd::prelude::*;

use crate::charclass::{trim, trim_vec};
use crate::runtime_parser::{rt_view, ser, unwrap_tree, XmlNode};
use crate::text::{chars_to_string, str_eq, str_to_chars};

verus! {

/// One conformance test: a grammar, an input, and what should come out.
#[derive(Clone, Debug)]
pub struct TestCase {
    pub name: String,
    pub grammar: String,
    pub input: String,
    pub expected_xml: Option<String>,
    /// The input is not a sentence of the grammar.
    pub expect_failure: bool,
}

/// How a conformance test went.
#[derive(Clone, Debug)]
pub enum TestOutcome {
    Pass,
    Fail { expected: String, actual: String },
    GrammarParseError(String),
    InputParseError(String),
    Skip(String),
}

/// The view of an outcome: the texts it carries, as character sequences.
pub enum OutcomeV {
    Pass,
    Fail { expected: Seq<char>, actual: Seq<char> },
    GrammarParseError(Seq<char>),
    InputParseError(Seq<char>),
    Skip(Seq<char>),
}

pub open spec fn outcome_view(o: TestOutcome) -> OutcomeV {
    match o {
        TestOutcome::Pass => OutcomeV::Pass,
        TestOutcome::Fail { expected, actual } => OutcomeV::Fail { expected: expected@, actual: actual@ },
        TestOutcome::GrammarParseError(e) => OutcomeV::GrammarParseError(e@),
        TestOutcome::InputParseError(e) => OutcomeV::InputParseError(e@),
        TestOutcome::Skip(e) => OutcomeV::Skip(e@),
    }
}

/// The outcome of a test, given whether its input must be rejected, what
/// parsing the input gave (an error, or a tree or the error of building
/// it), the expected output, and whether the expected and the actual output
/// (both trimmed) are equal as XML documents.
///
/// A rejected input passes a test that expects it and is an input error
/// otherwise; an accepted input fails a test that expects a rejection.
/// Otherwise the canonical XML of the tree, trimmed, is compared with the
/// expected output, trimmed: the test passes if they are the same text or
/// equal as XML, and fails with both texts otherwise; without an expected
/// output it passes.
pub open spec fn outcome_s(
    expect_failure: bool,
    parsed: Result<Result<XmlNode, Seq<char>>, Seq<char>>,
    expected_xml: Option<Seq<char>>,
    equal: bool,
) -> OutcomeV {
    match parsed {
        Err(e) => if expect_failure {
            OutcomeV::Pass
        } else {
            OutcomeV::InputParseError(e)
        },
        Ok(built) => if expect_failure {
            OutcomeV::Fail { expected: "(parse failure expected)"@, actual: "(parse succeeded)"@ }
        } else {
            match built {
                Err(e) => OutcomeV::InputParseError(e),
                Ok(node) => match expected_xml {
                    None => OutcomeV::Pass,
                    Some(exp) => {
                        let et = trim(exp);
                        let at = trim(ser(unwrap_tree(rt_view(node)), 0, true, false));
                        if et == at || equal {
                            OutcomeV::Pass
                        } else {
                            OutcomeV::Fail { expected: et, actual: at }
                        }
                    },
                },
            }
        },
    }
}

pub open spec fn parsed_view(p: Result<Result<XmlNode, String>, String>) -> Result<Result<XmlNode, Seq<char>>, Seq<char>> {
    match p {
        Ok(Ok(n)) => Ok(Ok(n)),
        Ok(Err(e)) => Ok(Err(e@)),
        Err(e) => Err(e@),
    }
}

pub open spec fn opt_text(o: Option<String>) -> Option<Seq<char>> {
    match o {
        Some(s) => Some(s@),
        None => None,
    }
}

/// `s` with whitespace removed at both ends.
fn trimmed(s: &str) -> (r: String)
    ensures
        r@ == trim(s@),
{
    let v = str_to_chars(s);
    let t = trim_vec(&v);
    chars_to_string(&t, 0, t.len())
}

/// Decides the outcome of a test from what its outside steps gave: the
/// input's parse (`Err` when it was rejected, else the tree built from it,
/// or the error of building it) and whether the trimmed expected and actual
/// outputs are equal as XML documents.
pub fn test_outcome(
    expect_failure: bool,
    parsed: Result<Result<XmlNode, String>, String>,
    expected_xml: Option<String>,
    equal: bool,
) -> (r: TestOutcome)
    ensures
        outcome_view(r) == outcome_s(expect_failure, parsed_view(parsed), opt_text(expected_xml), equal),
{
    match parsed {
        Err(e) => if expect_failure {
            TestOutcome::Pass
        } else {
            TestOutcome::InputParseError(e)
        },
        Ok(built) => if expect_failure {
            TestOutcome::Fail {
                expected: String::from_str("(parse failure expected)"),
                actual: String::from_str("(parse succeeded)"),
            }
        } else {
            match built {
                Err(e) => TestOutcome::InputParseError(e),
                Ok(node) => match expected_xml {
                    None => TestOutcome::Pass,
                    Some(exp) => {
                        let et = trimmed(exp.as_str());
                        let xml = node.to_xml();
                        let at = trimmed(xml.as_str());
                        if str_eq(et.as_str(), at.as_str()) || equal {
                            TestOutcome::Pass
                        } else {
                            TestOutcome::Fail { expected: et, actual: at }
                        }
                    },
                },
            }
        },
    }
}

/// The tests whose input must be rejected (they come without an output
/// file): `xpath`, `parse-error`, `url` and `url1`.
pub open spec fn known_failure(name: Seq<char>) -> bool {
    name == "xpath"@ || name == "parse-error"@ || name == "url"@ || name == "url1"@
}

/// Whether the test named `name` expects its input to be rejected.
pub fn expects_failure(name: &str) -> (r: bool)
    ensures
        r == known_failure(name@),
{
    str_eq(name, "xpath") || str_eq(name, "parse-error") || str_eq(name, "url") || str_eq(name, "url1")
}

impl TestCase {
    /// The test named `name` with the texts read for it; whether its input
    /// must be rejected follows from its name.
    pub fn new(name: &str, grammar: String, input: String, expected_xml: Option<String>) -> (r: Self)
        ensures
            r.name@ == name@,
            r.grammar == grammar,
            r.input == input,
            r.expected_xml == expected_xml,
            r.expect_failure == known_failure(name@),
    {
        TestCase {
            name: String::from_str(name),
            grammar,
            input,
            expected_xml,
            expect_failure: expects_failure(name),
        }
    }
}

} // verus!
