use vstd::prelude::*;

pub mod text;
pub mod ast;
pub mod lexer;
pub mod input_stream;
pub mod xml_node;
pub mod parse_context;
pub mod charclass;
pub mod semantics;
pub mod native_parser;
pub mod grammar_ast;
pub mod grammar_v2;
pub mod grammar_parser;
pub mod grammar_analysis;
pub mod normalize;
pub mod runtime_parser;
pub mod working_test;
pub mod testsuite_utils;
pub mod web;
pub mod earley;
pub mod forest;
pub mod grammar_plan;

pub use ast::IxmlGrammar;
pub use grammar_parser::parse_ixml_grammar;
pub use native_parser::NativeParser;
pub use parse_context::{ParseContext, ParseError, ParseResult};

verus! {
} // verus!
