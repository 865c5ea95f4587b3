use ruddy::parser::token::{Keyword, Operator, Punct, TokenKind};
use ruddy::parser::{lex_diagnostics, lex_source};
use ruddy::reporting::Source;

fn token_kinds(source: Source, text: &str) -> Vec<TokenKind> {
    let (lexed, _) = lex_source(source, text);
    lexed.tokens.iter().map(|token| token.kind).collect()
}

#[test]
fn lex_query_tracks_source_contents() {
    let source = Source(1);
    let first = token_kinds(source, "let x = 1");
    assert_eq!(
        first,
        vec![
            TokenKind::Keyword(Keyword::Let),
            TokenKind::Ident,
            TokenKind::Punct(Punct::Equals),
            TokenKind::IntegerLiteral,
            TokenKind::EndOfFile,
        ]
    );

    let (second, _) = lex_source(source, "let x = 10");
    assert_eq!(second.tokens.len(), 5);
}

#[test]
fn lex_query_allows_kebab_case_identifiers() {
    let source = Source(2);
    let text = "let foo-bar = baz-qux";
    assert_eq!(
        token_kinds(source, text),
        vec![
            TokenKind::Keyword(Keyword::Let),
            TokenKind::Ident,
            TokenKind::Punct(Punct::Equals),
            TokenKind::Ident,
            TokenKind::EndOfFile,
        ]
    );

    assert!(lex_diagnostics(source, text).is_empty());
}

#[test]
fn lex_query_treats_edge_hyphens_as_minus_tokens() {
    let source = Source(3);
    assert_eq!(
        token_kinds(source, "-foo foo-"),
        vec![
            TokenKind::Operator(Operator::Minus),
            TokenKind::Ident,
            TokenKind::Ident,
            TokenKind::Operator(Operator::Minus),
            TokenKind::EndOfFile,
        ]
    );
}
