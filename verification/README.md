# rustixml

An Invisible XML (iXML) implementation: a grammar written in iXML is parsed
into an abstract syntax tree, and a recursive descent interpreter turns input
text into XML according to it.  The library is verified with Verus: every
public function carries a contract over a mathematical model of its data, and
the laws that relate the functions are proved.

Layout:

- `src/` — the verified library
  - `lexer`, `grammar_parser`, `grammar_ast`, `grammar_v2`: grammar text to
    tokens and to the syntax tree (`ast`);
  - `semantics`: the meaning of a grammar applied to an input, as spec
    functions; `native_parser` is proved to compute it;
  - `grammar_analysis`, `normalize`: recursion, left recursion, nullability,
    complexity and ambiguity checks, and inlining of rules that are not
    recursive;
  - `xml_node`, `runtime_parser`: XML trees and their compact and canonical
    serialisations;
  - `earley`, `grammar_plan`: the grammar translated for the Earley parser of
    the `earlgrey` crate (terminals, helper nonterminals and productions,
    stated as the steps applied to the crate's grammar builder);
  - `forest`: the semantic actions of the Earley parse forest — the XML node
    each production builds — and their registration under production names;
  - `testsuite_utils`: conformance test cases and the decision of a test's
    outcome from the results of its steps;
  - `charclass`, `text`, `input_stream`, `parse_context`, `web`,
    `working_test`: the pieces these rest on.
- `tests/` — the test suite.
- `app/` — WebAssembly bindings for the browser and reading conformance tests
  from disk.

The conformance runner itself (parsing with the Earley parser, evaluating the
forest and comparing documents with `roxmltree`) is not part of this crate;
the decision of a test's outcome from the results of those steps
(`testsuite_utils::test_outcome`) is.
