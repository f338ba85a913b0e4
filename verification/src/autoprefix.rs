//! The whole pipeline: CSS text in, prefixed CSS text out.

use vstd::prelude::*;
use crate::generator::{Generator, gen_nodes, lemma_parsed_tree_depth};
use crate::lexer::{Lexer, cursor_fits, lex_from, start_cursor};
use crate::parser::{AST, NodeView, ParseError, Parser, ast_result, lemma_parse_tree_shape, parse_spec};

verus! {

/// The tree of a CSS text: its tokens, parsed from the first one.
pub open spec fn parse_css_spec(css: Seq<char>) -> Result<Seq<NodeView>, ParseError> {
    parse_spec(lex_from(css, start_cursor()), 0).0
}

/// The text is short enough for the line and column counters (which count
/// UTF-8 bytes) to stay within `usize`.
pub open spec fn fits_counters(css: Seq<char>) -> bool {
    cursor_fits(css, start_cursor())
}

/// Tokenizes and parses `input`.
pub fn parse_css(input: &str) -> (r: Result<AST, ParseError>)
    requires
        fits_counters(input@),
    ensures
        ast_result(r) == parse_css_spec(input@),
{
    let mut lexer = Lexer::new(input);
    proof {
        lexer.lemma_wf();
    }
    let tokens = lexer.tokenize();
    let mut parser = Parser::new(tokens);
    parser.to_ast()
}


/// The prefixed CSS of a text: its tree printed by the generator.
pub open spec fn autoprefix_spec(css: Seq<char>) -> Result<Seq<char>, ParseError> {
    match parse_css_spec(css) {
        Ok(tree) => Ok(gen_nodes(tree, 0)),
        Err(e) => Err(e),
    }
}

/// Tokenizes, parses and prints `input` with vendor prefixes.
pub fn autoprefix(input: &str) -> (r: Result<String, ParseError>)
    requires
        fits_counters(input@),
    ensures
        match r {
            Ok(out) => autoprefix_spec(input@) == Ok::<Seq<char>, ParseError>(out@),
            Err(e) => autoprefix_spec(input@) == Err::<Seq<char>, ParseError>(e),
        },
{
    match parse_css(input) {
        Ok(ast) => {
            proof {
                lemma_parse_tree_shape(lex_from(input@, start_cursor()), 0);
                lemma_parsed_tree_depth(ast@);
            }
            let mut generator = Generator::new(ast);
            Ok(generator.generate())
        },
        Err(e) => Err(e),
    }
}

} // verus!
