use ruddy::token::{lex, ErrorKind, Kind};
use ruddy::tracking::FileID;

fn kinds(text: &str) -> Vec<Kind> {
    lex(text, FileID(1)).tokens.into_iter().map(|token| token.item).collect()
}

fn errors(text: &str) -> Vec<ErrorKind> {
    lex(text, FileID(1)).errors.into_iter().map(|error| error.kind).collect()
}

fn ident(name: &str) -> Kind {
    Kind::Identifier(name.to_string())
}

#[test]
fn keywords_names_and_punctuation() {
    assert_eq!(
        kinds("let x = fn y => y |> f :: g -> h"),
        vec![
            Kind::Let,
            ident("x"),
            Kind::Equal,
            Kind::Fn,
            ident("y"),
            Kind::FatArrow,
            ident("y"),
            Kind::PipeForward,
            ident("f"),
            Kind::ColonColon,
            ident("g"),
            Kind::Arrow,
            ident("h"),
        ]
    );
    assert_eq!(
        kinds("true false _ __ match effect handle raise extern"),
        vec![
            Kind::Boolean(true),
            Kind::Boolean(false),
            Kind::Underscore,
            ident("__"),
            Kind::Match,
            Kind::Effect,
            Kind::Handle,
            Kind::Raise,
            Kind::Extern,
        ]
    );
}

#[test]
fn numbers_by_suffix() {
    assert_eq!(
        kinds("5n 7i 3 1.5"),
        vec![
            Kind::Natural(5),
            Kind::Integer(7),
            Kind::Real("3".to_string()),
            Kind::Real("1.5".to_string()),
        ]
    );
    assert_eq!(kinds("1.x"), vec![Kind::Real("1".to_string()), Kind::Dot, ident("x")]);
}

#[test]
fn numeric_literal_errors() {
    assert_eq!(
        errors("1thing 1.5n 18446744073709551616n 9223372036854775808i"),
        vec![
            ErrorKind::NumberFollowedByName,
            ErrorKind::DecimalWithWholeSuffix { suffix: 'n' },
            ErrorKind::NaturalTooLarge,
            ErrorKind::IntegerTooLarge,
        ]
    );
    assert_eq!(
        kinds("18446744073709551615n 9223372036854775807i"),
        vec![Kind::Natural(u64::MAX), Kind::Integer(i64::MAX)]
    );
}

#[test]
fn reals_too_large_for_a_double() {
    let limit = "179769313486231580793728971405303415079934132710037826936173778980444968292764750946649017977587207096330286416692887910946555547851940402630657488671505820681908902000708383676273854845817711531764475730270069855571366959622842914819860834936475292719074168444365510704342711559699508093042880177904174497792";
    assert_eq!(errors(limit), vec![ErrorKind::RealTooLarge]);
    let below = "179769313486231580793728971405303415079934132710037826936173778980444968292764750946649017977587207096330286416692887910946555547851940402630657488671505820681908902000708383676273854845817711531764475730270069855571366959622842914819860834936475292719074168444365510704342711559699508093042880177904174497791.99";
    assert_eq!(errors(below), vec![]);
    assert_eq!(errors(&format!("000{limit}")), vec![ErrorKind::RealTooLarge]);
    assert_eq!(errors(&format!("1{limit}")), vec![ErrorKind::RealTooLarge]);
    let value: f64 = below.parse().unwrap();
    assert!(value.is_finite());
    let over: f64 = limit.parse().unwrap();
    assert!(over.is_infinite());
}

#[test]
fn numeric_fields_after_dots_and_in_braces() {
    assert_eq!(
        kinds("p.0 {0: x, 1: y} (1, 2)"),
        vec![
            ident("p"),
            Kind::Dot,
            Kind::NumericField(0),
            Kind::LeftBrace,
            Kind::NumericField(0),
            Kind::Colon,
            ident("x"),
            Kind::Comma,
            Kind::NumericField(1),
            Kind::Colon,
            ident("y"),
            Kind::RightBrace,
            Kind::LeftParen,
            Kind::Real("1".to_string()),
            Kind::Comma,
            Kind::Real("2".to_string()),
            Kind::RightParen,
        ]
    );
    assert_eq!(errors("p.0n"), vec![ErrorKind::MalformedNumericField]);
}

#[test]
fn sigilled_labels() {
    assert_eq!(
        kinds("#Some #\"a b\" !Log != 'a"),
        vec![
            Kind::Tag("Some".to_string()),
            Kind::Tag("a b".to_string()),
            Kind::EffectLabel("Log".to_string()),
            Kind::NotEqual,
            Kind::Variable("a".to_string()),
        ]
    );
    assert_eq!(
        errors("#1x ! '"),
        vec![
            ErrorKind::MalformedTag,
            ErrorKind::MalformedEffectLabel,
            ErrorKind::MalformedVariable,
        ]
    );
}

#[test]
fn strings_decode_escapes() {
    assert_eq!(kinds("\"a\\nb\\t\\\"\""), vec![Kind::String("a\nb\t\"".to_string())]);
    assert_eq!(errors("\"bad\\q\""), vec![ErrorKind::UnknownStringEscape { escape: 'q' }]);
    assert_eq!(errors("\"open"), vec![ErrorKind::MissingClosingQuote]);
    assert_eq!(kinds("\"line\nx"), vec![Kind::Invalid, ident("x")]);
}

#[test]
fn raw_string_lines_join() {
    assert_eq!(
        kinds("\\\\ one\n   \\\\two\nx"),
        vec![Kind::String(" one\ntwo".to_string()), ident("x")]
    );
    assert_eq!(kinds("\\ y"), vec![Kind::Backslash, ident("y")]);
}

#[test]
fn comments_nest_and_report_when_open() {
    assert_eq!(kinds("(* a (* b *) c *) x -- rest\ny"), vec![ident("x"), ident("y")]);
    assert_eq!(kinds("(* open"), vec![Kind::Invalid]);
    assert_eq!(errors("(* open"), vec![ErrorKind::MissingClosingComment]);
}

#[test]
fn every_error_keeps_an_invalid_token_at_its_span() {
    let out = lex("@ x #", FileID(2));
    assert_eq!(out.errors.len(), 2);
    assert_eq!(out.errors[0].kind, ErrorKind::InvalidCharacter { character: '@' });
    let invalid: Vec<_> = out
        .tokens
        .iter()
        .filter(|token| token.item == Kind::Invalid)
        .map(|token| token.span)
        .collect();
    let spans: Vec<_> = out.errors.iter().map(|error| error.span).collect();
    assert_eq!(invalid, spans);
}

#[test]
fn spans_are_byte_ranges() {
    let out = lex("let λ", FileID(3));
    let spans: Vec<(usize, usize)> = out
        .tokens
        .iter()
        .map(|token| (token.span.start, token.span.width))
        .collect();
    assert_eq!(spans, vec![(0, 3), (4, 2)]);
    assert_eq!(out.tokens[1].span.file_id, FileID(3));
}

#[test]
fn comments_carry_no_token() {
    let out = lex("let x = 1 -- trailing\n(* outer (* inner *) done *) in", FileID(7));
    assert!(out.errors.is_empty());
    let seen: Vec<(Kind, usize, usize)> =
        out.tokens.iter().map(|token| (token.item.clone(), token.span.start, token.span.width)).collect();
    assert_eq!(
        seen,
        vec![
            (Kind::Let, 0, 3),
            (ident("x"), 4, 1),
            (Kind::Equal, 6, 1),
            (Kind::Real("1".to_string()), 8, 1),
            (Kind::In, 51, 2),
        ]
    );
    assert!(out.tokens.iter().all(|token| token.span.file_id == FileID(7)));
}
