use ruddy::parser::lex_source;
use ruddy::parser::token::{Keyword, Operator, Punct, TokenKind};
use ruddy::reporting::{Source, TextRange, TextSize};

fn kinds(source_text: &str) -> (Vec<TokenKind>, Vec<String>) {
    let source = Source(0);
    let (lexed, diagnostics) = lex_source(source, source_text);
    let kinds = lexed.tokens.into_iter().map(|token| token.kind).collect();
    let messages = diagnostics
        .into_iter()
        .map(|diagnostic| diagnostic.message)
        .collect();
    (kinds, messages)
}

#[test]
fn lexes_keywords_and_identifiers() {
    let (kinds, diagnostics) = kinds("bundle demo use root as alias");
    assert!(diagnostics.is_empty());
    assert_eq!(
        kinds,
        vec![
            TokenKind::Keyword(Keyword::Bundle),
            TokenKind::Ident,
            TokenKind::Keyword(Keyword::Use),
            TokenKind::Keyword(Keyword::Root),
            TokenKind::Keyword(Keyword::As),
            TokenKind::Ident,
            TokenKind::EndOfFile,
        ]
    );
}

#[test]
fn lexes_unicode_identifiers() {
    let (kinds, diagnostics) = kinds("let λ = 漢字");
    assert!(diagnostics.is_empty());
    assert_eq!(
        kinds,
        vec![
            TokenKind::Keyword(Keyword::Let),
            TokenKind::Ident,
            TokenKind::Punct(Punct::Equals),
            TokenKind::Ident,
            TokenKind::EndOfFile,
        ]
    );
}

#[test]
fn lexes_operators_and_punctuation_with_longest_match() {
    let (kinds, diagnostics) =
        kinds(":: .. => -> == != <= >= << >> |> +> *> + - * / < > ; . | = : , ( ) { } [ ] ~ $");
    assert!(diagnostics.is_empty());
    assert_eq!(
        kinds,
        vec![
            TokenKind::Operator(Operator::PathSep),
            TokenKind::Operator(Operator::Spread),
            TokenKind::Operator(Operator::FatArrow),
            TokenKind::Operator(Operator::Arrow),
            TokenKind::Operator(Operator::EqualEqual),
            TokenKind::Operator(Operator::BangEqual),
            TokenKind::Operator(Operator::LessEqual),
            TokenKind::Operator(Operator::GreaterEqual),
            TokenKind::Operator(Operator::ComposeLeft),
            TokenKind::Operator(Operator::ComposeRight),
            TokenKind::Operator(Operator::PipeRight),
            TokenKind::Operator(Operator::PlusPipe),
            TokenKind::Operator(Operator::StarPipe),
            TokenKind::Operator(Operator::Plus),
            TokenKind::Operator(Operator::Minus),
            TokenKind::Operator(Operator::Star),
            TokenKind::Operator(Operator::Slash),
            TokenKind::Operator(Operator::Less),
            TokenKind::Operator(Operator::Greater),
            TokenKind::Operator(Operator::Semicolon),
            TokenKind::Punct(Punct::Dot),
            TokenKind::Punct(Punct::Pipe),
            TokenKind::Punct(Punct::Equals),
            TokenKind::Punct(Punct::Colon),
            TokenKind::Punct(Punct::Comma),
            TokenKind::Punct(Punct::LParen),
            TokenKind::Punct(Punct::RParen),
            TokenKind::Punct(Punct::LBrace),
            TokenKind::Punct(Punct::RBrace),
            TokenKind::Punct(Punct::LBracket),
            TokenKind::Punct(Punct::RBracket),
            TokenKind::Punct(Punct::Tilde),
            TokenKind::Punct(Punct::Dollar),
            TokenKind::EndOfFile,
        ]
    );
}

#[test]
fn skips_line_and_nested_block_comments() {
    let (kinds, diagnostics) = kinds("let x = 1 -- trailing\n(* outer (* inner *) done *) in");
    assert!(diagnostics.is_empty());
    assert_eq!(
        kinds,
        vec![
            TokenKind::Keyword(Keyword::Let),
            TokenKind::Ident,
            TokenKind::Punct(Punct::Equals),
            TokenKind::IntegerLiteral,
            TokenKind::Keyword(Keyword::In),
            TokenKind::EndOfFile,
        ]
    );
}

#[test]
fn lexes_numeric_literals() {
    let (kinds, diagnostics) = kinds("0 1_024 0b1010 0o755 0xFF 99n 0x10n 1.5 2e10 3.5e-2");
    assert!(diagnostics.is_empty());
    assert_eq!(
        kinds,
        vec![
            TokenKind::IntegerLiteral,
            TokenKind::IntegerLiteral,
            TokenKind::IntegerLiteral,
            TokenKind::IntegerLiteral,
            TokenKind::IntegerLiteral,
            TokenKind::NaturalLiteral,
            TokenKind::NaturalLiteral,
            TokenKind::RealLiteral,
            TokenKind::RealLiteral,
            TokenKind::RealLiteral,
            TokenKind::EndOfFile,
        ]
    );
}

#[test]
fn lexes_string_glyph_and_format_literals() {
    let (kinds, diagnostics) = kinds("\"ok\\n\" 'x' `{}{{}}`");
    assert!(diagnostics.is_empty());
    assert_eq!(
        kinds,
        vec![
            TokenKind::StringLiteral,
            TokenKind::GlyphLiteral,
            TokenKind::FormatStringLiteral,
            TokenKind::EndOfFile,
        ]
    );
}

#[test]
fn reports_unterminated_block_comment() {
    let (kinds, diagnostics) = kinds("(* never closes");
    assert_eq!(kinds, vec![TokenKind::EndOfFile]);
    assert_eq!(diagnostics.len(), 1);
    assert!(diagnostics[0].contains("unterminated block comment"));
}

#[test]
fn reports_invalid_escape_sequence() {
    let (kinds, diagnostics) = kinds("\"bad\\q\"");
    assert_eq!(kinds, vec![TokenKind::Error, TokenKind::EndOfFile,]);
    assert_eq!(diagnostics.len(), 1);
    assert!(diagnostics[0].contains("invalid escape sequence"));
}

#[test]
fn reports_unexpected_character() {
    let (kinds, diagnostics) = kinds("@");
    assert_eq!(kinds, vec![TokenKind::Error, TokenKind::EndOfFile,]);
    assert_eq!(diagnostics.len(), 1);
    assert!(diagnostics[0].contains("unexpected character"));
}

#[test]
fn token_ranges_are_byte_offsets() {
    let (lexed, _) = lex_source(Source(3), "let λ = 漢字");
    let ranges: Vec<(u32, u32)> = lexed
        .tokens
        .iter()
        .map(|token| match token.range {
            TextRange::Located { start, length, .. } => (start.as_u32(), length.as_u32()),
            TextRange::Generated => panic!("a lexed token is located"),
        })
        .collect();
    assert_eq!(ranges, vec![(0, 3), (4, 2), (7, 1), (9, 6), (15, 0)]);
    assert_eq!(lexed.tokens[4].range, TextRange::empty(Source(3), TextSize::new(15)));
}

#[test]
fn lexes_kebab_identifiers_and_bracketed_operators() {
    let (kinds, diagnostics) = kinds("my-name [ + ] [mod] a-1");
    assert!(diagnostics.is_empty());
    assert_eq!(
        kinds,
        vec![
            TokenKind::Ident,
            TokenKind::BracketedIdent,
            TokenKind::BracketedIdent,
            TokenKind::Ident,
            TokenKind::Operator(Operator::Minus),
            TokenKind::IntegerLiteral,
            TokenKind::EndOfFile,
        ]
    );
}

#[test]
fn bracket_without_operator_is_punctuation() {
    let (kinds, diagnostics) = kinds("[x]");
    assert!(diagnostics.is_empty());
    assert_eq!(
        kinds,
        vec![
            TokenKind::Punct(Punct::LBracket),
            TokenKind::Ident,
            TokenKind::Punct(Punct::RBracket),
            TokenKind::EndOfFile,
        ]
    );
}

#[test]
fn reports_numeric_literal_errors() {
    let (kinds, diagnostics) = kinds("1__0 0b 0x1_ 1e5_");
    assert_eq!(
        kinds,
        vec![
            TokenKind::Error,
            TokenKind::Error,
            TokenKind::Error,
            TokenKind::Error,
            TokenKind::EndOfFile,
        ]
    );
    assert_eq!(
        diagnostics,
        vec![
            "invalid decimal literal".to_string(),
            "expected digits after binary prefix".to_string(),
            "invalid hex literal".to_string(),
            "invalid exponent literal".to_string(),
        ]
    );
}

#[test]
fn unicode_escapes_must_name_scalar_values() {
    let (kinds, diagnostics) = kinds("\"\\u{41}\" \"\\u{D800}\" \"\\u{110000}\" \"\\u{}\"");
    assert_eq!(
        kinds,
        vec![
            TokenKind::StringLiteral,
            TokenKind::Error,
            TokenKind::Error,
            TokenKind::Error,
            TokenKind::EndOfFile,
        ]
    );
    assert_eq!(
        diagnostics,
        vec![
            "invalid unicode scalar value".to_string(),
            "invalid unicode scalar value".to_string(),
            "empty unicode escape".to_string(),
        ]
    );
}

#[test]
fn glyphs_hold_exactly_one_scalar() {
    let (kinds, diagnostics) = kinds("'ab' '\\n' ''");
    assert_eq!(
        kinds,
        vec![
            TokenKind::Error,
            TokenKind::GlyphLiteral,
            TokenKind::Error,
            TokenKind::EndOfFile,
        ]
    );
    assert_eq!(diagnostics.len(), 2);
    assert!(diagnostics[0].contains("one scalar value"));
}

#[test]
fn format_strings_reject_stray_braces() {
    let (kinds, diagnostics) = kinds("`a}b` `{x}` `open");
    assert_eq!(
        kinds,
        vec![
            TokenKind::Error,
            TokenKind::Error,
            TokenKind::Error,
            TokenKind::EndOfFile,
        ]
    );
    assert_eq!(
        diagnostics,
        vec![
            "unescaped `}` in format string".to_string(),
            "invalid format placeholder; expected `{}` or `{{`".to_string(),
            "unescaped `}` in format string".to_string(),
            "unterminated format string".to_string(),
        ]
    );
}

#[test]
fn unexpected_character_message_names_it() {
    let (_, diagnostics) = kinds("#");
    assert_eq!(diagnostics, vec!["unexpected character `#`".to_string()]);
}

#[test]
fn natural_suffix_needs_a_boundary() {
    let (kinds, _) = kinds("5n 5nx");
    assert_eq!(
        kinds,
        vec![
            TokenKind::NaturalLiteral,
            TokenKind::IntegerLiteral,
            TokenKind::Ident,
            TokenKind::EndOfFile,
        ]
    );
}
