//! The front end's text layer: tokens and the lexer that produces them.
pub mod ast;
pub mod grammar;
pub mod lexer;
pub mod token;
pub mod walk;

use vstd::prelude::*;

use crate::reporting::{Diagnostic, Source};
use crate::text::utf8_len;
use lexer::lexed;
use token::Token;

verus! {

/// The tokens of one source text.
#[derive(Debug, Clone, PartialEq, Eq)]
pub struct LexedSource {
    pub tokens: Vec<Token>,
}

impl LexedSource {
    pub fn new(tokens: Vec<Token>) -> (lexed: LexedSource)
        ensures
            lexed.tokens@ == tokens@,
    {
        LexedSource { tokens }
    }
}

/// Lex a source text: its tokens, with the diagnostics the lexer reported.
pub fn lex_source(source: Source, text: &str) -> (out: (LexedSource, Vec<Diagnostic>))
    requires
        utf8_len(text@) <= usize::MAX,
    ensures
        lexed(source, text@, out.0.tokens@, out.1@),
{
    let (tokens, diagnostics) = lexer::lex(source, text);
    (LexedSource::new(tokens), diagnostics)
}

/// The tokens of a source text.
pub fn lex_text(source: Source, text: &str) -> (out: LexedSource)
    requires
        utf8_len(text@) <= usize::MAX,
    ensures
        exists|diagnostics: Seq<Diagnostic>| lexed(source, text@, out.tokens@, diagnostics),
{
    let (lexed, _) = lex_source(source, text);
    lexed
}

/// The diagnostics lexing a source text reports.
pub fn lex_diagnostics(source: Source, text: &str) -> (out: Vec<Diagnostic>)
    requires
        utf8_len(text@) <= usize::MAX,
    ensures
        exists|tokens: Seq<Token>| lexed(source, text@, tokens, out@),
{
    let (lexed, diagnostics) = lex_source(source, text);
    diagnostics
}

} // verus!
