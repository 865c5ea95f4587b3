//! The core language's lexer: source text in, tracked tokens and the errors
//! of the lexemes it could not read out.
//!
//! A diagnosed lexeme keeps its place in the token stream as an `Invalid`
//! token, so the parser recovers without inventing a second complaint.
use vstd::prelude::*;

use crate::text::{
    all_digits, byte_offset, char_width, chars_of, decimal_value, is_ascii_digit,
    is_ascii_digit_spec, is_white_space, is_whitespace, lemma_offset_full, lemma_offset_monotone,
    lemma_offset_step, parse_decimal, spells, text_of, utf8_len,
};
use crate::tracking::{FileID, Span, Spanned};

verus! {

/// Whether `c` has the Unicode `Alphabetic` property.
pub uninterp spec fn alphabetic(c: char) -> bool;

/// Whether `c` has the Unicode `Alphabetic` property or a `Numeric_Type`.
pub uninterp spec fn alphanumeric(c: char) -> bool;

/// `char::is_alphabetic`, which looks `c` up in the Unicode tables of the
/// `Alphabetic` property; its answer is named `alphabetic`.
#[verifier::external_body]
fn is_alphabetic(c: char) -> (b: bool)
    ensures
        b == alphabetic(c),
{
    c.is_alphabetic()
}

/// `char::is_alphanumeric`, which looks `c` up in the Unicode tables; its
/// answer is named `alphanumeric`. As documented, it holds of every
/// alphabetic character.
#[verifier::external_body]
fn is_alphanumeric(c: char) -> (b: bool)
    ensures
        b == alphanumeric(c),
        alphabetic(c) ==> b,
{
    c.is_alphanumeric()
}

pub type Token = Spanned<Kind>;

#[derive(Debug, Clone, PartialEq)]
pub enum Kind {
    Let,
    /// `extern`, declaring a target-provided top-level value.
    Extern,
    In,
    Type,
    End,
    With,
    Match,
    If,
    Then,
    Else,
    Fn,
    Effect,
    Handle,
    Raise,
    And,
    Or,
    Xor,
    Not,
    Module,
    Equal,
    FatArrow,
    Arrow,
    Colon,
    ColonColon,
    Comma,
    Semicolon,
    Dot,
    DotDot,
    NotEqual,
    Plus,
    Minus,
    Star,
    Slash,
    Backslash,
    Pipe,
    PipeForward,
    LeftBrace,
    RightBrace,
    LeftParen,
    RightParen,
    Identifier(String),
    /// `_`, the wildcard.
    Underscore,
    /// `#Some` or `#"some case"`, with the decoded name.
    Tag(String),
    /// `!Log`, with the name.
    EffectLabel(String),
    /// `'a`, with the name.
    Variable(String),
    /// A natural literal, written with an `n` suffix.
    Natural(u64),
    /// An integer literal, written with an `i` suffix.
    Integer(i64),
    /// A numeric field after a projection dot or in a field-label position.
    NumericField(u64),
    /// A real literal, as written: decimal digits with an optional fraction,
    /// whose value is the nearest 64-bit float, and which is known to be
    /// finite.
    Real(String),
    /// Text between double quotes, or raw `\\` lines, with escapes decoded.
    String(String),
    Boolean(bool),
    /// A lexeme the lexer diagnosed.
    Invalid,
}

#[derive(Debug, Clone, Copy, PartialEq, Eq)]
pub struct Error {
    pub span: Span,
    pub kind: ErrorKind,
}

#[derive(Debug, Clone, Copy, PartialEq, Eq, Structural)]
pub enum ErrorKind {
    /// A character that begins no token at all.
    InvalidCharacter { character: char },
    /// `#` was not followed by an identifier-shaped (or quoted) tag name.
    MalformedTag,
    /// `!` was not followed by an identifier-shaped effect name.
    MalformedEffectLabel,
    /// `'` was not followed by an identifier-shaped variable name.
    MalformedVariable,
    /// A number ran directly into identifier characters, as in `1thing`.
    NumberFollowedByName,
    /// A whole-number suffix was attached to a decimal, as in `1.5n`.
    DecimalWithWholeSuffix { suffix: char },
    /// A structural numeric field used something other than decimal digits.
    MalformedNumericField,
    /// A natural literal too large for a `u64`.
    NaturalTooLarge,
    /// An integer literal too large for an `i64`.
    IntegerTooLarge,
    /// A real literal outside the finite range of a 64-bit float.
    RealTooLarge,
    /// A numeric field too large for a `u64`.
    NumericFieldTooLarge,
    /// A string escape the language does not define.
    UnknownStringEscape { escape: char },
    /// A string reached a line boundary or the end of input before its quote.
    MissingClosingQuote,
    /// A block comment reached the end of input still open.
    MissingClosingComment,
}

pub struct Output {
    pub tokens: Vec<Token>,
    pub errors: Vec<Error>,
}

#[derive(Clone, Copy, PartialEq, Eq, Structural)]
enum Delimiter {
    Brace,
    Paren,
}

pub open spec fn identifier_start_spec(c: char) -> bool {
    c == '_' || alphabetic(c)
}

pub open spec fn identifier_continue_spec(c: char) -> bool {
    c == '_' || alphanumeric(c)
}

fn identifier_start(c: char) -> (b: bool)
    ensures
        b == identifier_start_spec(c),
{
    if c == '_' {
        true
    } else {
        is_alphabetic(c)
    }
}

fn identifier_continue(c: char) -> (b: bool)
    ensures
        b == identifier_continue_spec(c),
        alphabetic(c) ==> b,
{
    if c == '_' {
        true
    } else {
        is_alphanumeric(c)
    }
}

/// The keyword (or the wildcard, or a boolean) a word spells, if any.
pub open spec fn word_kind(t: Seq<char>) -> Option<Kind> {
    if t == "let"@ {
        Some(Kind::Let)
    } else if t == "extern"@ {
        Some(Kind::Extern)
    } else if t == "in"@ {
        Some(Kind::In)
    } else if t == "type"@ {
        Some(Kind::Type)
    } else if t == "end"@ {
        Some(Kind::End)
    } else if t == "with"@ {
        Some(Kind::With)
    } else if t == "match"@ {
        Some(Kind::Match)
    } else if t == "if"@ {
        Some(Kind::If)
    } else if t == "then"@ {
        Some(Kind::Then)
    } else if t == "else"@ {
        Some(Kind::Else)
    } else if t == "fn"@ {
        Some(Kind::Fn)
    } else if t == "effect"@ {
        Some(Kind::Effect)
    } else if t == "handle"@ {
        Some(Kind::Handle)
    } else if t == "raise"@ {
        Some(Kind::Raise)
    } else if t == "and"@ {
        Some(Kind::And)
    } else if t == "or"@ {
        Some(Kind::Or)
    } else if t == "xor"@ {
        Some(Kind::Xor)
    } else if t == "not"@ {
        Some(Kind::Not)
    } else if t == "module"@ {
        Some(Kind::Module)
    } else if t == "true"@ {
        Some(Kind::Boolean(true))
    } else if t == "false"@ {
        Some(Kind::Boolean(false))
    } else if t == "_"@ {
        Some(Kind::Underscore)
    } else {
        None
    }
}

/// How each reserved word of the core language is spelled: the keywords,
/// the two booleans and the wildcard.
pub open spec fn reserved_spelling(k: Kind) -> Option<Seq<char>> {
    match k {
        Kind::Let => Some("let"@),
        Kind::Extern => Some("extern"@),
        Kind::In => Some("in"@),
        Kind::Type => Some("type"@),
        Kind::End => Some("end"@),
        Kind::With => Some("with"@),
        Kind::Match => Some("match"@),
        Kind::If => Some("if"@),
        Kind::Then => Some("then"@),
        Kind::Else => Some("else"@),
        Kind::Fn => Some("fn"@),
        Kind::Effect => Some("effect"@),
        Kind::Handle => Some("handle"@),
        Kind::Raise => Some("raise"@),
        Kind::And => Some("and"@),
        Kind::Or => Some("or"@),
        Kind::Xor => Some("xor"@),
        Kind::Not => Some("not"@),
        Kind::Module => Some("module"@),
        Kind::Boolean(b) => Some(if b { "true"@ } else { "false"@ }),
        Kind::Underscore => Some("_"@),
        _ => None,
    }
}

proof fn lemma_whole_len_digits(d: Seq<char>)
    requires
        all_digits(d),
    ensures
        whole_len(d) == d.len(),
    decreases d.len(),
{
    if d.len() > 0 {
        assert(is_ascii_digit_spec(d[0]));
        assert(all_digits(d.drop_first())) by {
            assert forall|i: int| 0 <= i < d.drop_first().len() implies is_ascii_digit_spec(#[trigger] d.drop_first()[i]) by {
                assert(d.drop_first()[i] == d[i + 1]);
            }
        }
        lemma_whole_len_digits(d.drop_first());
    }
}

/// Decimal digits read as a real by default, as a natural with an `n`
/// after them and as an integer with an `i`, each with the digits' value,
/// and as too large where the value does not fit.
pub proof fn lemma_numeral_suffixes(d: Seq<char>)
    requires
        d.len() > 0,
        all_digits(d),
    ensures
        decimal_value(d) <= u64::MAX ==> numeric_reading(d + seq!['n']) == Some(
            Ok::<Kind, ErrorKind>(Kind::Natural(decimal_value(d) as u64)),
        ),
        decimal_value(d) > u64::MAX ==> numeric_reading(d + seq!['n']) == Some(
            Err::<Kind, ErrorKind>(ErrorKind::NaturalTooLarge),
        ),
        decimal_value(d) <= i64::MAX ==> numeric_reading(d + seq!['i']) == Some(
            Ok::<Kind, ErrorKind>(Kind::Integer(decimal_value(d) as i64)),
        ),
        decimal_value(d) > i64::MAX ==> numeric_reading(d + seq!['i']) == Some(
            Err::<Kind, ErrorKind>(ErrorKind::IntegerTooLarge),
        ),
        numeric_reading(d) is None <==> !numeral_at_least(d, real_limit()),
{
    let a = d + seq!['n'];
    let b = d + seq!['i'];
    assert(a.drop_last() =~= d);
    assert(b.drop_last() =~= d);
    assert(numeral_suffix(a) == Some('n'));
    assert(numeral_suffix(b) == Some('i'));
    assert(numeral_body(a) =~= d);
    assert(numeral_body(b) =~= d);
    assert(numeral_suffix(d) is None);
    assert(numeral_body(d) == d);
    lemma_whole_len_digits(d);
    assert(d.take(d.len() as int) =~= d);
}

proof fn lemma_word_run(s: Seq<char>, a: int, b: int)
    requires
        0 <= a <= b <= s.len(),
        forall|k: int| a <= k < b ==> identifier_continue_spec(#[trigger] s[k]),
        b < s.len() ==> !identifier_continue_spec(s[b]),
    ensures
        word_end(s, a) == b,
    decreases b - a,
{
    if a < b {
        lemma_word_run(s, a + 1, b);
    }
}

/// A sigil directly before a name lexes as one label of that sigil with
/// that name: `#` a tag, `!` an effect label, `'` a variable.
pub proof fn lemma_label_spellings(n: Seq<char>, field: bool, k: Kind)
    requires
        n.len() > 0,
        identifier_start_spec(n[0]),
        forall|i: int| 0 <= i < n.len() ==> identifier_continue_spec(#[trigger] n[i]),
        n[0] != '"',
        n[0] != '=',
    ensures
        scan_end(seq!['#'] + n, 0) == n.len() + 1,
        scan_emits(seq!['#'] + n, 0),
        scan_kind(seq!['#'] + n, 0, field, k) <==> (k is Tag && k->Tag_0@ == n),
        scan_end(seq!['!'] + n, 0) == n.len() + 1,
        scan_emits(seq!['!'] + n, 0),
        scan_kind(seq!['!'] + n, 0, field, k) <==> (k is EffectLabel && k->EffectLabel_0@ == n),
        scan_end(seq!['\''] + n, 0) == n.len() + 1,
        scan_emits(seq!['\''] + n, 0),
        scan_kind(seq!['\''] + n, 0, field, k) <==> (k is Variable && k->Variable_0@ == n),
{
    let a = seq!['#'] + n;
    let b = seq!['!'] + n;
    let c = seq!['\''] + n;
    assert forall|i: int| 1 <= i < a.len() implies identifier_continue_spec(#[trigger] a[i]) by {
        assert(a[i] == n[i - 1]);
    }
    assert forall|i: int| 1 <= i < b.len() implies identifier_continue_spec(#[trigger] b[i]) by {
        assert(b[i] == n[i - 1]);
    }
    assert forall|i: int| 1 <= i < c.len() implies identifier_continue_spec(#[trigger] c[i]) by {
        assert(c[i] == n[i - 1]);
    }
    lemma_word_run(a, 1, a.len() as int);
    lemma_word_run(b, 1, b.len() as int);
    lemma_word_run(c, 1, c.len() as int);
    assert(a.subrange(1, a.len() as int) =~= n);
    assert(b.subrange(1, b.len() as int) =~= n);
    assert(c.subrange(1, c.len() as int) =~= n);
    assert(a[1] == n[0] && b[1] == n[0] && c[1] == n[0]);
}

/// Whitespace and comments make no token: a whitespace character, a `--`
/// comment, and a block comment that closes.
pub proof fn lemma_trivia_makes_no_token(s: Seq<char>)
    requires
        s.len() > 0,
    ensures
        is_white_space(s[0]) ==> !scan_emits(s, 0),
        s.len() > 1 && s[0] == '-' && s[1] == '-' ==> !scan_emits(s, 0),
        s.len() > 1 && s[0] == '(' && s[1] == '*' && block_end(s, 2, 1).1 ==> !scan_emits(s, 0),
{
}

/// How a character is written inside a core string literal: a backslash
/// and a letter for a tab, a newline, a carriage return, a backslash and a
/// double quote; itself otherwise.
pub open spec fn core_quoted_char(c: char) -> Seq<char> {
    if c == '\t' {
        seq!['\\', 't']
    } else if c == '\n' {
        seq!['\\', 'n']
    } else if c == '\r' {
        seq!['\\', 'r']
    } else if c == '\\' {
        seq!['\\', '\\']
    } else if c == '"' {
        seq!['\\', '"']
    } else {
        seq![c]
    }
}

/// How a text is written between the quotes of a core string literal.
pub open spec fn core_quoted_text(s: Seq<char>) -> Seq<char>
    decreases s.len(),
{
    if s.len() == 0 {
        Seq::empty()
    } else {
        core_quoted_char(s[0]) + core_quoted_text(s.drop_first())
    }
}

proof fn lemma_core_quoted(pre: Seq<char>, s: Seq<char>, v: Seq<char>)
    ensures
        string_scan(pre + core_quoted_text(s) + seq!['"'], pre.len() as int, v, None) == (
            (pre + core_quoted_text(s)).len() + 1int,
            Ok::<Seq<char>, ErrorKind>(v + s),
        ),
    decreases s.len(),
{
    let t = pre + core_quoted_text(s) + seq!['"'];
    let i = pre.len() as int;
    if s.len() == 0 {
        assert(t[i] == '"');
        assert(v + s =~= v);
    } else {
        let c = s[0];
        let rest = s.drop_first();
        let q = core_quoted_char(c);
        assert(core_quoted_text(s) == q + core_quoted_text(rest));
        assert(t =~= (pre + q) + core_quoted_text(rest) + seq!['"']);
        assert((pre + core_quoted_text(s)) =~= (pre + q) + core_quoted_text(rest));
        lemma_core_quoted(pre + q, rest, v.push(c));
        assert(v.push(c) + rest =~= v + s);
        assert(t[i] == q[0]);
        if q.len() == 2 {
            assert(t[i + 1] == q[1]);
            assert(unescaped(q[1]) == Some(c));
        }
    }
}

/// A core string literal written from any text reads back as that text,
/// ending just after its closing quote: every escape reads as the
/// character it stands for.
pub proof fn lemma_core_string_round_trip(s: Seq<char>)
    ensures
        string_scan(seq!['"'] + core_quoted_text(s) + seq!['"'], 1, Seq::empty(), None) == (
            core_quoted_text(s).len() + 2int,
            Ok::<Seq<char>, ErrorKind>(s),
        ),
{
    lemma_core_quoted(seq!['"'], s, Seq::empty());
    assert(Seq::<char>::empty() + s =~= s);
}

/// How each punctuation token of the core language is spelled.
pub open spec fn punct_spelling(k: Kind) -> Option<Seq<char>> {
    match k {
        Kind::Equal => Some(seq!['=']),
        Kind::Colon => Some(seq![':']),
        Kind::Comma => Some(seq![',']),
        Kind::Semicolon => Some(seq![';']),
        Kind::Dot => Some(seq!['.']),
        Kind::Plus => Some(seq!['+']),
        Kind::Minus => Some(seq!['-']),
        Kind::Star => Some(seq!['*']),
        Kind::Slash => Some(seq!['/']),
        Kind::Backslash => Some(seq!['\\']),
        Kind::Pipe => Some(seq!['|']),
        Kind::LeftBrace => Some(seq!['{']),
        Kind::RightBrace => Some(seq!['}']),
        Kind::LeftParen => Some(seq!['(']),
        Kind::RightParen => Some(seq![')']),
        Kind::FatArrow => Some(seq!['=', '>']),
        Kind::Arrow => Some(seq!['-', '>']),
        Kind::ColonColon => Some(seq![':', ':']),
        Kind::DotDot => Some(seq!['.', '.']),
        Kind::NotEqual => Some(seq!['!', '=']),
        Kind::PipeForward => Some(seq!['|', '>']),
        _ => None,
    }
}

/// A text that spells a punctuation token scans as that token and no
/// other, the whole text long: longer spellings win over their prefixes.
pub proof fn lemma_punct_spellings(k: Kind, field: bool, other: Kind)
    ensures
        punct_spelling(k) matches Some(w) ==> {
            &&& scan_end(w, 0) == w.len()
            &&& scan_emits(w, 0)
            &&& scan_kind(w, 0, field, k)
            &&& (scan_kind(w, 0, field, other) ==> other == k)
        },
{
    match punct_spelling(k) {
        Some(w) => {
            assert(w.subrange(0, w.len() as int) =~= w);
        },
        None => {},
    }
}

/// Every reserved word lexes as its own token and never as an identifier,
/// and a word lexes as a reserved token only when it is that token's
/// spelling.
#[verifier::rlimit(60)]
#[verifier::spinoff_prover]
pub proof fn lemma_reserved_words(k: Kind, t: Seq<char>)
    ensures
        reserved_spelling(k) matches Some(w) ==> word_kind(w) == Some(k),
        word_kind(t) == Some(k) ==> reserved_spelling(k) == Some(t),
{
    reveal_strlit("let");
    reveal_strlit("extern");
    reveal_strlit("in");
    reveal_strlit("type");
    reveal_strlit("end");
    reveal_strlit("with");
    reveal_strlit("match");
    reveal_strlit("if");
    reveal_strlit("then");
    reveal_strlit("else");
    reveal_strlit("fn");
    reveal_strlit("effect");
    reveal_strlit("handle");
    reveal_strlit("raise");
    reveal_strlit("and");
    reveal_strlit("or");
    reveal_strlit("xor");
    reveal_strlit("not");
    reveal_strlit("module");
    reveal_strlit("true");
    reveal_strlit("false");
    reveal_strlit("_");
    assert("let"@[0] != "extern"@[0]);
    assert("let"@[0] != "in"@[0]);
    assert("let"@[0] != "type"@[0]);
    assert("let"@[0] != "end"@[0]);
    assert("let"@[0] != "with"@[0]);
    assert("let"@[0] != "match"@[0]);
    assert("let"@[0] != "if"@[0]);
    assert("let"@[0] != "then"@[0]);
    assert("let"@[0] != "else"@[0]);
    assert("let"@[0] != "fn"@[0]);
    assert("let"@[0] != "effect"@[0]);
    assert("let"@[0] != "handle"@[0]);
    assert("let"@[0] != "raise"@[0]);
    assert("let"@[0] != "and"@[0]);
    assert("let"@[0] != "or"@[0]);
    assert("let"@[0] != "xor"@[0]);
    assert("let"@[0] != "not"@[0]);
    assert("let"@[0] != "module"@[0]);
    assert("let"@[0] != "true"@[0]);
    assert("let"@[0] != "false"@[0]);
    assert("let"@[0] != "_"@[0]);
    assert("extern"@[0] != "in"@[0]);
    assert("extern"@[0] != "type"@[0]);
    assert("extern"@[1] != "end"@[1]);
    assert("extern"@[0] != "with"@[0]);
    assert("extern"@[0] != "match"@[0]);
    assert("extern"@[0] != "if"@[0]);
    assert("extern"@[0] != "then"@[0]);
    assert("extern"@[1] != "else"@[1]);
    assert("extern"@[0] != "fn"@[0]);
    assert("extern"@[1] != "effect"@[1]);
    assert("extern"@[0] != "handle"@[0]);
    assert("extern"@[0] != "raise"@[0]);
    assert("extern"@[0] != "and"@[0]);
    assert("extern"@[0] != "or"@[0]);
    assert("extern"@[0] != "xor"@[0]);
    assert("extern"@[0] != "not"@[0]);
    assert("extern"@[0] != "module"@[0]);
    assert("extern"@[0] != "true"@[0]);
    assert("extern"@[0] != "false"@[0]);
    assert("extern"@[0] != "_"@[0]);
    assert("in"@[0] != "type"@[0]);
    assert("in"@[0] != "end"@[0]);
    assert("in"@[0] != "with"@[0]);
    assert("in"@[0] != "match"@[0]);
    assert("in"@[1] != "if"@[1]);
    assert("in"@[0] != "then"@[0]);
    assert("in"@[0] != "else"@[0]);
    assert("in"@[0] != "fn"@[0]);
    assert("in"@[0] != "effect"@[0]);
    assert("in"@[0] != "handle"@[0]);
    assert("in"@[0] != "raise"@[0]);
    assert("in"@[0] != "and"@[0]);
    assert("in"@[0] != "or"@[0]);
    assert("in"@[0] != "xor"@[0]);
    assert("in"@[0] != "not"@[0]);
    assert("in"@[0] != "module"@[0]);
    assert("in"@[0] != "true"@[0]);
    assert("in"@[0] != "false"@[0]);
    assert("in"@[0] != "_"@[0]);
    assert("type"@[0] != "end"@[0]);
    assert("type"@[0] != "with"@[0]);
    assert("type"@[0] != "match"@[0]);
    assert("type"@[0] != "if"@[0]);
    assert("type"@[1] != "then"@[1]);
    assert("type"@[0] != "else"@[0]);
    assert("type"@[0] != "fn"@[0]);
    assert("type"@[0] != "effect"@[0]);
    assert("type"@[0] != "handle"@[0]);
    assert("type"@[0] != "raise"@[0]);
    assert("type"@[0] != "and"@[0]);
    assert("type"@[0] != "or"@[0]);
    assert("type"@[0] != "xor"@[0]);
    assert("type"@[0] != "not"@[0]);
    assert("type"@[0] != "module"@[0]);
    assert("type"@[1] != "true"@[1]);
    assert("type"@[0] != "false"@[0]);
    assert("type"@[0] != "_"@[0]);
    assert("end"@[0] != "with"@[0]);
    assert("end"@[0] != "match"@[0]);
    assert("end"@[0] != "if"@[0]);
    assert("end"@[0] != "then"@[0]);
    assert("end"@[1] != "else"@[1]);
    assert("end"@[0] != "fn"@[0]);
    assert("end"@[1] != "effect"@[1]);
    assert("end"@[0] != "handle"@[0]);
    assert("end"@[0] != "raise"@[0]);
    assert("end"@[0] != "and"@[0]);
    assert("end"@[0] != "or"@[0]);
    assert("end"@[0] != "xor"@[0]);
    assert("end"@[0] != "not"@[0]);
    assert("end"@[0] != "module"@[0]);
    assert("end"@[0] != "true"@[0]);
    assert("end"@[0] != "false"@[0]);
    assert("end"@[0] != "_"@[0]);
    assert("with"@[0] != "match"@[0]);
    assert("with"@[0] != "if"@[0]);
    assert("with"@[0] != "then"@[0]);
    assert("with"@[0] != "else"@[0]);
    assert("with"@[0] != "fn"@[0]);
    assert("with"@[0] != "effect"@[0]);
    assert("with"@[0] != "handle"@[0]);
    assert("with"@[0] != "raise"@[0]);
    assert("with"@[0] != "and"@[0]);
    assert("with"@[0] != "or"@[0]);
    assert("with"@[0] != "xor"@[0]);
    assert("with"@[0] != "not"@[0]);
    assert("with"@[0] != "module"@[0]);
    assert("with"@[0] != "true"@[0]);
    assert("with"@[0] != "false"@[0]);
    assert("with"@[0] != "_"@[0]);
    assert("match"@[0] != "if"@[0]);
    assert("match"@[0] != "then"@[0]);
    assert("match"@[0] != "else"@[0]);
    assert("match"@[0] != "fn"@[0]);
    assert("match"@[0] != "effect"@[0]);
    assert("match"@[0] != "handle"@[0]);
    assert("match"@[0] != "raise"@[0]);
    assert("match"@[0] != "and"@[0]);
    assert("match"@[0] != "or"@[0]);
    assert("match"@[0] != "xor"@[0]);
    assert("match"@[0] != "not"@[0]);
    assert("match"@[1] != "module"@[1]);
    assert("match"@[0] != "true"@[0]);
    assert("match"@[0] != "false"@[0]);
    assert("match"@[0] != "_"@[0]);
    assert("if"@[0] != "then"@[0]);
    assert("if"@[0] != "else"@[0]);
    assert("if"@[0] != "fn"@[0]);
    assert("if"@[0] != "effect"@[0]);
    assert("if"@[0] != "handle"@[0]);
    assert("if"@[0] != "raise"@[0]);
    assert("if"@[0] != "and"@[0]);
    assert("if"@[0] != "or"@[0]);
    assert("if"@[0] != "xor"@[0]);
    assert("if"@[0] != "not"@[0]);
    assert("if"@[0] != "module"@[0]);
    assert("if"@[0] != "true"@[0]);
    assert("if"@[0] != "false"@[0]);
    assert("if"@[0] != "_"@[0]);
    assert("then"@[0] != "else"@[0]);
    assert("then"@[0] != "fn"@[0]);
    assert("then"@[0] != "effect"@[0]);
    assert("then"@[0] != "handle"@[0]);
    assert("then"@[0] != "raise"@[0]);
    assert("then"@[0] != "and"@[0]);
    assert("then"@[0] != "or"@[0]);
    assert("then"@[0] != "xor"@[0]);
    assert("then"@[0] != "not"@[0]);
    assert("then"@[0] != "module"@[0]);
    assert("then"@[1] != "true"@[1]);
    assert("then"@[0] != "false"@[0]);
    assert("then"@[0] != "_"@[0]);
    assert("else"@[0] != "fn"@[0]);
    assert("else"@[1] != "effect"@[1]);
    assert("else"@[0] != "handle"@[0]);
    assert("else"@[0] != "raise"@[0]);
    assert("else"@[0] != "and"@[0]);
    assert("else"@[0] != "or"@[0]);
    assert("else"@[0] != "xor"@[0]);
    assert("else"@[0] != "not"@[0]);
    assert("else"@[0] != "module"@[0]);
    assert("else"@[0] != "true"@[0]);
    assert("else"@[0] != "false"@[0]);
    assert("else"@[0] != "_"@[0]);
    assert("fn"@[0] != "effect"@[0]);
    assert("fn"@[0] != "handle"@[0]);
    assert("fn"@[0] != "raise"@[0]);
    assert("fn"@[0] != "and"@[0]);
    assert("fn"@[0] != "or"@[0]);
    assert("fn"@[0] != "xor"@[0]);
    assert("fn"@[0] != "not"@[0]);
    assert("fn"@[0] != "module"@[0]);
    assert("fn"@[0] != "true"@[0]);
    assert("fn"@[1] != "false"@[1]);
    assert("fn"@[0] != "_"@[0]);
    assert("effect"@[0] != "handle"@[0]);
    assert("effect"@[0] != "raise"@[0]);
    assert("effect"@[0] != "and"@[0]);
    assert("effect"@[0] != "or"@[0]);
    assert("effect"@[0] != "xor"@[0]);
    assert("effect"@[0] != "not"@[0]);
    assert("effect"@[0] != "module"@[0]);
    assert("effect"@[0] != "true"@[0]);
    assert("effect"@[0] != "false"@[0]);
    assert("effect"@[0] != "_"@[0]);
    assert("handle"@[0] != "raise"@[0]);
    assert("handle"@[0] != "and"@[0]);
    assert("handle"@[0] != "or"@[0]);
    assert("handle"@[0] != "xor"@[0]);
    assert("handle"@[0] != "not"@[0]);
    assert("handle"@[0] != "module"@[0]);
    assert("handle"@[0] != "true"@[0]);
    assert("handle"@[0] != "false"@[0]);
    assert("handle"@[0] != "_"@[0]);
    assert("raise"@[0] != "and"@[0]);
    assert("raise"@[0] != "or"@[0]);
    assert("raise"@[0] != "xor"@[0]);
    assert("raise"@[0] != "not"@[0]);
    assert("raise"@[0] != "module"@[0]);
    assert("raise"@[0] != "true"@[0]);
    assert("raise"@[0] != "false"@[0]);
    assert("raise"@[0] != "_"@[0]);
    assert("and"@[0] != "or"@[0]);
    assert("and"@[0] != "xor"@[0]);
    assert("and"@[0] != "not"@[0]);
    assert("and"@[0] != "module"@[0]);
    assert("and"@[0] != "true"@[0]);
    assert("and"@[0] != "false"@[0]);
    assert("and"@[0] != "_"@[0]);
    assert("or"@[0] != "xor"@[0]);
    assert("or"@[0] != "not"@[0]);
    assert("or"@[0] != "module"@[0]);
    assert("or"@[0] != "true"@[0]);
    assert("or"@[0] != "false"@[0]);
    assert("or"@[0] != "_"@[0]);
    assert("xor"@[0] != "not"@[0]);
    assert("xor"@[0] != "module"@[0]);
    assert("xor"@[0] != "true"@[0]);
    assert("xor"@[0] != "false"@[0]);
    assert("xor"@[0] != "_"@[0]);
    assert("not"@[0] != "module"@[0]);
    assert("not"@[0] != "true"@[0]);
    assert("not"@[0] != "false"@[0]);
    assert("not"@[0] != "_"@[0]);
    assert("module"@[0] != "true"@[0]);
    assert("module"@[0] != "false"@[0]);
    assert("module"@[0] != "_"@[0]);
    assert("true"@[0] != "false"@[0]);
    assert("true"@[0] != "_"@[0]);
    assert("false"@[0] != "_"@[0]);
    assert(word_kind("let"@) == Some(Kind::Let));
    assert(word_kind("extern"@) == Some(Kind::Extern));
    assert(word_kind("in"@) == Some(Kind::In));
    assert(word_kind("type"@) == Some(Kind::Type));
    assert(word_kind("end"@) == Some(Kind::End));
    assert(word_kind("with"@) == Some(Kind::With));
    assert(word_kind("match"@) == Some(Kind::Match));
    assert(word_kind("if"@) == Some(Kind::If));
    assert(word_kind("then"@) == Some(Kind::Then));
    assert(word_kind("else"@) == Some(Kind::Else));
    assert(word_kind("fn"@) == Some(Kind::Fn));
    assert(word_kind("effect"@) == Some(Kind::Effect));
    assert(word_kind("handle"@) == Some(Kind::Handle));
    assert(word_kind("raise"@) == Some(Kind::Raise));
    assert(word_kind("and"@) == Some(Kind::And));
    assert(word_kind("or"@) == Some(Kind::Or));
    assert(word_kind("xor"@) == Some(Kind::Xor));
    assert(word_kind("not"@) == Some(Kind::Not));
    assert(word_kind("module"@) == Some(Kind::Module));
    assert(word_kind("true"@) == Some(Kind::Boolean(true)));
    assert(word_kind("false"@) == Some(Kind::Boolean(false)));
    assert(word_kind("_"@) == Some(Kind::Underscore));
}

/// The punctuation token a character spells on its own, if any.
pub open spec fn single_punct(c: char) -> Option<Kind> {
    if c == '=' {
        Some(Kind::Equal)
    } else if c == ':' {
        Some(Kind::Colon)
    } else if c == ',' {
        Some(Kind::Comma)
    } else if c == ';' {
        Some(Kind::Semicolon)
    } else if c == '.' {
        Some(Kind::Dot)
    } else if c == '+' {
        Some(Kind::Plus)
    } else if c == '-' {
        Some(Kind::Minus)
    } else if c == '*' {
        Some(Kind::Star)
    } else if c == '/' {
        Some(Kind::Slash)
    } else if c == '\\' {
        Some(Kind::Backslash)
    } else if c == '|' {
        Some(Kind::Pipe)
    } else if c == '{' {
        Some(Kind::LeftBrace)
    } else if c == '}' {
        Some(Kind::RightBrace)
    } else if c == '(' {
        Some(Kind::LeftParen)
    } else if c == ')' {
        Some(Kind::RightParen)
    } else {
        None
    }
}

/// The punctuation token two characters spell together, if any.
pub open spec fn double_punct(a: char, b: char) -> Option<Kind> {
    if a == '=' && b == '>' {
        Some(Kind::FatArrow)
    } else if a == '-' && b == '>' {
        Some(Kind::Arrow)
    } else if a == ':' && b == ':' {
        Some(Kind::ColonColon)
    } else if a == '.' && b == '.' {
        Some(Kind::DotDot)
    } else if a == '!' && b == '=' {
        Some(Kind::NotEqual)
    } else if a == '|' && b == '>' {
        Some(Kind::PipeForward)
    } else {
        None
    }
}

/// The punctuation token a text spells, if any.
pub open spec fn punct_kind(t: Seq<char>) -> Option<Kind> {
    if t.len() == 1 {
        single_punct(t[0])
    } else if t.len() == 2 {
        double_punct(t[0], t[1])
    } else {
        None
    }
}

/// What the text of a token of each kind looks like.
pub open spec fn lexeme_fits(kind: Kind, t: Seq<char>) -> bool {
    match kind {
        Kind::Identifier(name) => name@ == t && t.len() > 0 && identifier_start_spec(t[0])
            && word_kind(t) is None,
        Kind::Tag(_) => t.len() > 1 && t[0] == '#',
        Kind::EffectLabel(name) => t == seq!['!'] + name@ && name@.len() > 0
            && identifier_start_spec(name@[0]),
        Kind::Variable(name) => t == seq!['\''] + name@ && name@.len() > 0
            && identifier_start_spec(name@[0]),
        Kind::Natural(v) => t.len() > 1 && t.last() == 'n' && all_digits(t.drop_last())
            && v == decimal_value(t.drop_last()),
        Kind::Integer(v) => t.len() > 1 && t.last() == 'i' && all_digits(t.drop_last())
            && v == decimal_value(t.drop_last()),
        Kind::NumericField(v) => t.len() > 0 && all_digits(t) && v == decimal_value(t),
        Kind::Real(text) => text@ == t && t.len() > 0 && is_ascii_digit_spec(t[0]),
        Kind::String(_) => t.len() > 0 && (t[0] == '"' || t[0] == '\\'),
        Kind::Invalid => t.len() > 0,
        _ => word_kind(t) == Some(kind) || punct_kind(t) == Some(kind),
    }
}

/// The span of the characters `a..b` of `s` in a file.
pub open spec fn char_span(file_id: FileID, s: Seq<char>, a: int, b: int) -> Span {
    Span {
        file_id,
        start: byte_offset(s, a) as usize,
        width: (byte_offset(s, b) - byte_offset(s, a)) as usize,
    }
}

pub open spec fn lexeme_ok(file_id: FileID, s: Seq<char>, tok: Token, span: (int, int), limit: int) -> bool {
    &&& 0 <= span.0 < span.1 <= limit
    &&& tok.span == char_span(file_id, s, span.0, span.1)
    &&& lexeme_fits(tok.item, s.subrange(span.0, span.1))
}

/// Tokens on disjoint, ordered character spans of the text, each spanned
/// by the bytes of its characters and with a text its kind allows.
pub open spec fn lexemes_ok(
    file_id: FileID,
    s: Seq<char>,
    toks: Seq<Token>,
    spans: Seq<(int, int)>,
    limit: int,
) -> bool {
    &&& spans.len() == toks.len()
    &&& forall|i: int|
        0 <= i < toks.len() ==> #[trigger] lexeme_ok(file_id, s, toks[i], spans[i], limit)
    &&& forall|i: int, j: int|
        0 <= i < j < toks.len() ==> #[trigger] spans[i].1 <= #[trigger] spans[j].0
}

/// The spans of the invalid tokens, in order.
pub open spec fn invalid_spans(toks: Seq<Token>) -> Seq<Span>
    decreases toks.len(),
{
    if toks.len() == 0 {
        Seq::empty()
    } else if toks.last().item is Invalid {
        invalid_spans(toks.drop_last()).push(toks.last().span)
    } else {
        invalid_spans(toks.drop_last())
    }
}

/// The last span of an invalid token is the span of an invalid token, at
/// or after every other.
proof fn lemma_last_invalid(toks: Seq<Token>) -> (i: int)
    requires
        invalid_spans(toks).len() > 0,
    ensures
        0 <= i < toks.len(),
        toks[i].item is Invalid,
        toks[i].span == invalid_spans(toks).last(),
        forall|j: int| i < j < toks.len() ==> !(#[trigger] toks[j].item is Invalid),
    decreases toks.len(),
{
    if toks.last().item is Invalid {
        (toks.len() - 1) as int
    } else {
        let i = lemma_last_invalid(toks.drop_last());
        assert forall|j: int| i < j < toks.len() implies !(#[trigger] toks[j].item is Invalid) by {
            if j < toks.len() - 1 {
                assert(toks[j] == toks.drop_last()[j]);
            }
        }
        i
    }
}

/// The spans of errors, in order.
pub open spec fn error_spans(errors: Seq<Error>) -> Seq<Span> {
    errors.map_values(|e: Error| e.span)
}

/// What the lexer promises of its output for a text: tokens on disjoint,
/// ordered spans of the text with texts their kinds allow, and exactly one
/// error for each invalid token, at its span, in the same order.
pub open spec fn lexed(file_id: FileID, s: Seq<char>, out: Output) -> bool {
    &&& exists|spans: Seq<(int, int)>|
        #![trigger lexemes_ok(file_id, s, out.tokens@, spans, s.len() as int)]
        lexemes_ok(file_id, s, out.tokens@, spans, s.len() as int) && scanned(
            s,
            0,
            0,
            Seq::empty(),
            out.tokens@,
            spans,
        )
    &&& error_spans(out.errors@) == invalid_spans(out.tokens@)
}

/// Where a run of identifier-continue characters from `k` ends.
pub open spec fn word_end(s: Seq<char>, k: int) -> int
    decreases s.len() - k,
{
    if 0 <= k < s.len() && identifier_continue_spec(s[k]) {
        word_end(s, k + 1)
    } else {
        k
    }
}

/// Where a run of decimal digits from `k` ends.
pub open spec fn digits_end(s: Seq<char>, k: int) -> int
    decreases s.len() - k,
{
    if 0 <= k < s.len() && is_ascii_digit_spec(s[k]) {
        digits_end(s, k + 1)
    } else {
        k
    }
}

/// Where the number-shaped lexeme from the digit at `p` ends: digits, a
/// fraction when a digit follows the point, and identifier characters run
/// into it.
pub open spec fn number_end(s: Seq<char>, p: int) -> int {
    let e1 = digits_end(s, p);
    let e2 = if e1 + 1 < s.len() && s[e1] == '.' && is_ascii_digit_spec(s[e1 + 1]) {
        digits_end(s, e1 + 1)
    } else {
        e1
    };
    word_end(s, e2)
}

/// Where a line comment's text from `k` ends: at the newline, or the end.
pub open spec fn line_end(s: Seq<char>, k: int) -> int
    decreases s.len() - k,
{
    if 0 <= k < s.len() && s[k] != '\n' {
        line_end(s, k + 1)
    } else {
        k
    }
}

/// Where a nested block comment, `depth` deep at `k`, ends, and whether it
/// closed.
pub open spec fn block_end(s: Seq<char>, k: int, depth: nat) -> (int, bool)
    decreases s.len() - k, depth,
{
    if depth == 0 {
        (k, true)
    } else if k < 0 || k >= s.len() {
        (k, false)
    } else if s[k] == '(' && k + 1 < s.len() && s[k + 1] == '*' {
        block_end(s, k + 2, depth + 1)
    } else if s[k] == '*' && k + 1 < s.len() && s[k + 1] == ')' {
        block_end(s, k + 2, (depth - 1) as nat)
    } else {
        block_end(s, k + 1, depth)
    }
}

/// The character a string escape stands for, if the language defines it.
pub open spec fn unescaped(e: char) -> Option<char> {
    if e == '"' {
        Some('"')
    } else if e == '\\' {
        Some('\\')
    } else if e == 'n' {
        Some('\n')
    } else if e == 'r' {
        Some('\r')
    } else if e == 't' {
        Some('\t')
    } else {
        None
    }
}

/// The error of a string: its first unknown escape, or its missing closing
/// quote.
pub open spec fn string_error(error: Option<char>) -> ErrorKind {
    match error {
        Some(e) => ErrorKind::UnknownStringEscape { escape: e },
        None => ErrorKind::MissingClosingQuote,
    }
}

/// Where a double-quoted string's body from `k` ends, and its decoded value
/// or first error, with `v` decoded and `error` found so far. A line
/// boundary ends it unclosed and is left unread.
/// The escape character of an unknown-escape error.
pub open spec fn escape_of(error: Option<ErrorKind>) -> Option<char> {
    match error {
        Some(ErrorKind::UnknownStringEscape { escape }) => Some(escape),
        _ => None,
    }
}

pub open spec fn string_scan(s: Seq<char>, k: int, v: Seq<char>, error: Option<char>) -> (int, Result<Seq<char>, ErrorKind>)
    decreases s.len() - k,
{
    if k < 0 || k >= s.len() || s[k] == '\n' || s[k] == '\r' {
        (k, Err(string_error(error)))
    } else if s[k] == '"' {
        (k + 1, match error {
            Some(e) => Err(ErrorKind::UnknownStringEscape { escape: e }),
            None => Ok(v),
        })
    } else if s[k] == '\\' {
        if k + 1 >= s.len() || s[k + 1] == '\n' || s[k + 1] == '\r' {
            (k + 1, Err(string_error(error)))
        } else {
            if unescaped(s[k + 1]) is Some {
                string_scan(s, k + 2, v.push(unescaped(s[k + 1])->0), error)
            } else if error is None {
                string_scan(s, k + 2, v, Some(s[k + 1]))
            } else {
                string_scan(s, k + 2, v, error)
            }
        }
    } else {
        string_scan(s, k + 1, v.push(s[k]), error)
    }
}

/// Where the characters from `k` up to a line boundary end.
pub open spec fn raw_line_end(s: Seq<char>, k: int) -> int
    decreases s.len() - k,
{
    if 0 <= k < s.len() && s[k] != '\n' && s[k] != '\r' {
        raw_line_end(s, k + 1)
    } else {
        k
    }
}

/// Where a run of whitespace from `k` ends.
pub open spec fn space_end(s: Seq<char>, k: int) -> int
    decreases s.len() - k,
{
    if 0 <= k < s.len() && is_white_space(s[k]) {
        space_end(s, k + 1)
    } else {
        k
    }
}

/// Where raw string lines from the `\\` at `p` end, and their value after
/// `v`: each line's text after its `\\`, lines joined by a newline when only
/// whitespace stands between them.
pub open spec fn raw_scan(s: Seq<char>, p: int, v: Seq<char>) -> (int, Seq<char>)
    decreases s.len() - p,
{
    let e = raw_line_end(s, p + 2);
    let a = space_end(s, e);
    let w = v + s.subrange(p + 2, e);
    if 0 <= p && p + 2 <= e <= a && a + 1 < s.len() && s[a] == '\\' && s[a + 1] == '\\' {
        raw_scan(s, a, w.push('\n'))
    } else {
        (e, w)
    }
}

/// Whether a token of this kind puts a numeric field label next: `1` after a
/// projection dot or an opening brace, `2` after a comma or an absence mark
/// (a field label only directly inside braces), `0` otherwise.
pub open spec fn field_mark(k: Kind) -> int {
    match k {
        Kind::Dot | Kind::LeftBrace => 1,
        Kind::Comma | Kind::Backslash => 2,
        _ => 0,
    }
}

/// Whether a digit at this point starts a numeric field label, given the
/// mark of the previous token and the open delimiters (`true` for a brace).
pub open spec fn at_field(mark: int, stack: Seq<bool>) -> bool {
    mark == 1 || (mark == 2 && stack.len() > 0 && stack.last())
}

/// Where the scan step at `p` ends.
pub open spec fn scan_end(s: Seq<char>, p: int) -> int {
    let c = s[p];
    let n = if p + 1 < s.len() { Some(s[p + 1]) } else { None };
    if is_white_space(c) {
        p + 1
    } else if c == '=' || c == ':' || c == '.' || c == '|' {
        if (c == '=' && n == Some('>')) || (c == ':' && n == Some(':')) || (c == '.' && n == Some('.'))
            || (c == '|' && n == Some('>')) {
            p + 2
        } else {
            p + 1
        }
    } else if c == '-' {
        if n == Some('>') {
            p + 2
        } else if n == Some('-') {
            line_end(s, p + 2)
        } else {
            p + 1
        }
    } else if c == ',' || c == ';' || c == '+' || c == '*' || c == '/' || c == '{' || c == '}' || c
        == ')' || (c == '(' && n != Some('*')) || (c == '\\' && n != Some('\\')) {
        p + 1
    } else if c == '!' && n == Some('=') {
        p + 2
    } else if c == '!' || c == '\'' || (c == '#' && n != Some('"')) {
        word_end(s, p + 1)
    } else if c == '\\' && n == Some('\\') {
        raw_scan(s, p, Seq::empty()).0
    } else if c == '#' {
        string_scan(s, p + 2, Seq::empty(), None).0
    } else if c == '"' {
        string_scan(s, p + 1, Seq::empty(), None).0
    } else if c == '(' && n == Some('*') {
        block_end(s, p + 2, 1).0
    } else if c == '_' || alphabetic(c) {
        word_end(s, p)
    } else if is_ascii_digit_spec(c) {
        number_end(s, p)
    } else {
        p + 1
    }
}

/// Whether the scan step at `p` makes a token, rather than skipping
/// whitespace or a comment.
pub open spec fn scan_emits(s: Seq<char>, p: int) -> bool {
    let c = s[p];
    let n = if p + 1 < s.len() { Some(s[p + 1]) } else { None };
    !(is_white_space(c) || (c == '-' && n == Some('-')) || (c == '(' && n == Some('*') && block_end(
        s,
        p + 2,
        1,
    ).1))
}

/// The open delimiters after the scan step at `p`: braces and parentheses
/// open, and close the innermost of their own kind.
pub open spec fn scan_stack(s: Seq<char>, p: int, stack: Seq<bool>) -> Seq<bool> {
    let c = s[p];
    let n = if p + 1 < s.len() { Some(s[p + 1]) } else { None };
    if is_white_space(c) {
        stack
    } else if c == '{' {
        stack.push(true)
    } else if c == '}' {
        if stack.len() > 0 && stack.last() { stack.drop_last() } else { stack }
    } else if c == '(' && n != Some('*') {
        stack.push(false)
    } else if c == ')' {
        if stack.len() > 0 && !stack.last() { stack.drop_last() } else { stack }
    } else {
        stack
    }
}

/// The kind of a label after a sigil, or the error its malformed name gives.
pub open spec fn label_kind_ok(s: Seq<char>, p: int, k: Kind) -> bool {
    let e = word_end(s, p + 1);
    let name = s.subrange(p + 1, e);
    if e > p + 1 && identifier_start_spec(s[p + 1]) {
        if s[p] == '#' {
            k is Tag && k->Tag_0@ == name
        } else if s[p] == '!' {
            k is EffectLabel && k->EffectLabel_0@ == name
        } else {
            k is Variable && k->Variable_0@ == name
        }
    } else {
        k is Invalid
    }
}

/// Whether `k` is the kind of the token the scan step at `p` makes, where
/// `field` says whether a digit there starts a numeric field label.
pub open spec fn scan_kind(s: Seq<char>, p: int, field: bool, k: Kind) -> bool {
    let c = s[p];
    let n = if p + 1 < s.len() { Some(s[p + 1]) } else { None };
    let t = s.subrange(p, scan_end(s, p));
    if c == '=' || c == ':' || c == '.' || c == '|' || c == ',' || c == ';' || c == '+' || c == '*'
        || c == '/' || c == '{' || c == '}' || c == ')' || (c == '(' && n != Some('*')) || (c == '-'
        && n != Some('-')) || (c == '!' && n == Some('=')) || (c == '\\' && n != Some('\\')) {
        punct_kind(t) == Some(k)
    } else if c == '!' || c == '\'' || (c == '#' && n != Some('"')) {
        label_kind_ok(s, p, k)
    } else if c == '\\' {
        k is String && k->String_0@ == raw_scan(s, p, Seq::empty()).1
    } else if c == '#' {
        match string_scan(s, p + 2, Seq::empty(), None).1 {
            Ok(v) => k is Tag && k->Tag_0@ == v,
            Err(_) => k is Invalid,
        }
    } else if c == '"' {
        match string_scan(s, p + 1, Seq::empty(), None).1 {
            Ok(v) => k is String && k->String_0@ == v,
            Err(_) => k is Invalid,
        }
    } else if c == '(' {
        k is Invalid
    } else if c == '_' || alphabetic(c) {
        match word_kind(t) {
            Some(w) => k == w,
            None => k is Identifier && k->Identifier_0@ == t,
        }
    } else if is_ascii_digit_spec(c) && field {
        match numeric_field_reading(t) {
            Ok(f) => k == f,
            Err(_) => k is Invalid,
        }
    } else if is_ascii_digit_spec(c) {
        match numeric_reading(t) {
            Some(Ok(f)) => k == f,
            Some(Err(_)) => k is Invalid,
            None => k is Real && k->Real_0@ == t,
        }
    } else {
        k is Invalid
    }
}

/// The tokens and their character spans that scanning the text from `p`
/// makes, with `mark` from the previous token and `stack` the open
/// delimiters: one scan step at a time, the longest lexeme each.
pub open spec fn scanned(
    s: Seq<char>,
    p: int,
    mark: int,
    stack: Seq<bool>,
    toks: Seq<Token>,
    spans: Seq<(int, int)>,
) -> bool
    decreases s.len() - p,
{
    if p < 0 || p >= s.len() {
        toks.len() == 0 && spans.len() == 0
    } else {
        let e = scan_end(s, p);
        let next = scan_stack(s, p, stack);
        if !(p < e <= s.len()) {
            false
        } else if scan_emits(s, p) {
            &&& toks.len() > 0
            &&& spans.len() > 0
            &&& spans[0] == (p, e)
            &&& scan_kind(s, p, at_field(mark, stack), toks[0].item)
            &&& scanned(s, e, field_mark(toks[0].item), next, toks.drop_first(), spans.drop_first())
        } else {
            scanned(s, e, mark, next, toks, spans)
        }
    }
}

struct Scanner {
    file_id: FileID,
    chars: Vec<char>,
    pos: usize,
    byte: usize,
    tokens: Vec<Token>,
    spans: Ghost<Seq<(int, int)>>,
    errors: Vec<Error>,
    delimiters: Vec<Delimiter>,
}

impl Scanner {
    spec fn wf(&self) -> bool {
        &&& self.pos <= self.chars.len()
        &&& self.byte == byte_offset(self.chars@, self.pos as int)
        &&& utf8_len(self.chars@) <= usize::MAX
        &&& lexemes_ok(self.file_id, self.chars@, self.tokens@, self.spans@, self.pos as int)
        &&& error_spans(self.errors@) == invalid_spans(self.tokens@)
    }

    /// The same text and file, and the position no further back.
    spec fn after(&self, before: &Scanner) -> bool {
        &&& self.wf()
        &&& self.file_id == before.file_id
        &&& self.chars@ == before.chars@
        &&& self.pos >= before.pos
    }

    /// Only the position moved.
    spec fn moved(&self, before: &Scanner) -> bool {
        &&& self.after(before)
        &&& self.tokens@ == before.tokens@
        &&& self.spans@ == before.spans@
        &&& self.errors@ == before.errors@
        &&& self.delimiters@ == before.delimiters@
    }

    /// The field mark of the previous token.
    spec fn mark(&self) -> int {
        if self.tokens@.len() == 0 {
            0
        } else {
            field_mark(self.tokens@.last().item)
        }
    }

    /// The open delimiters, `true` for a brace.
    spec fn stack(&self) -> Seq<bool> {
        self.delimiters@.map_values(|d: Delimiter| d == Delimiter::Brace)
    }

    /// Whether the previous token puts the next one where a numeric field
    /// label stands.
    spec fn at_numeric_field(&self) -> bool {
        &&& self.tokens@.len() > 0
        &&& match self.tokens@.last().item {
            Kind::Dot | Kind::LeftBrace => true,
            Kind::Comma | Kind::Backslash => self.delimiters@.len() > 0 && self.delimiters@.last()
                == Delimiter::Brace,
            _ => false,
        }
    }

    spec fn at(&self, k: int, c: char) -> bool {
        0 <= k < self.chars.len() && self.chars@[k] == c
    }

    proof fn lemma_ends(&self)
        requires
            self.wf(),
        ensures
            forall|i: int| 0 <= i < self.spans@.len() ==> #[trigger] self.spans@[i].1 <= self.pos,
    {
        assert forall|i: int| 0 <= i < self.spans@.len() implies #[trigger] self.spans@[i].1
            <= self.pos by {
            assert(lexeme_ok(self.file_id, self.chars@, self.tokens@[i], self.spans@[i], self.pos as int));
        }
    }

    /// An error comes before a valid previous token: errors sit on invalid
    /// tokens, whose spans come earlier.
    proof fn lemma_clean(&self)
        requires
            self.wf(),
            self.tokens@.len() > 0,
            !(self.tokens@.last().item is Invalid),
            self.errors@.len() > 0,
        ensures
            self.errors@.last().span.start < self.tokens@.last().span.start,
    {
        let n = self.tokens@.len() - 1;
        assert(error_spans(self.errors@).len() == self.errors@.len());
        let i = lemma_last_invalid(self.tokens@);
        assert(error_spans(self.errors@).last() == self.errors@.last().span);
        assert(i < n);
        assert(lexeme_ok(self.file_id, self.chars@, self.tokens@[i], self.spans@[i], self.pos as int));
        assert(lexeme_ok(self.file_id, self.chars@, self.tokens@[n], self.spans@[n], self.pos as int));
        assert(self.spans@[i].1 <= self.spans@[n].0);
        lemma_offset_monotone(self.chars@, self.spans@[i].0, self.spans@[n].0);
        lemma_offset_monotone(self.chars@, self.spans@[n].0, self.chars.len() as int);
        lemma_offset_full(self.chars@);
    }

    fn peek(&self, k: usize) -> (c: Option<char>)
        ensures
            c == if self.pos + k < self.chars.len() {
                Some(self.chars@[self.pos + k])
            } else {
                None::<char>
            },
    {
        if k < self.chars.len() && self.pos < self.chars.len() - k {
            Some(self.chars[self.pos + k])
        } else {
            None
        }
    }

    fn bump(&mut self)
        requires
            old(self).wf(),
            old(self).pos < old(self).chars.len(),
        ensures
            final(self).moved(old(self)),
            final(self).pos == old(self).pos + 1,
    {
        let w = char_width(self.chars[self.pos]);
        proof {
            lemma_offset_step(self.chars@, self.pos as int);
            lemma_offset_monotone(self.chars@, self.pos + 1, self.chars.len() as int);
            lemma_offset_full(self.chars@);
            assert forall|i: int| 0 <= i < self.tokens@.len() implies #[trigger] lexeme_ok(
                self.file_id,
                self.chars@,
                self.tokens@[i],
                self.spans@[i],
                self.pos + 1,
            ) by {
                assert(lexeme_ok(self.file_id, self.chars@, self.tokens@[i], self.spans@[i], self.pos as int));
            }
        }
        self.byte = self.byte + w;
        self.pos = self.pos + 1;
    }

    /// Push a token for the characters `start..pos`.
    fn push(&mut self, start: usize, start_byte: usize, kind: Kind)
        requires
            old(self).wf(),
            start < old(self).pos,
            start_byte == byte_offset(old(self).chars@, start as int),
            forall|i: int| 0 <= i < old(self).spans@.len() ==> #[trigger] old(self).spans@[i].1 <= start,
            lexeme_fits(kind, old(self).chars@.subrange(start as int, old(self).pos as int)),
            !(kind is Invalid),
        ensures
            final(self).after(old(self)),
            final(self).pos == old(self).pos,
            final(self).errors@ == old(self).errors@,
            final(self).delimiters@ == old(self).delimiters@,
            final(self).tokens@.len() == old(self).tokens@.len() + 1,
            final(self).tokens@.last().item == kind,
            final(self).tokens@.drop_last() == old(self).tokens@,
            final(self).spans@ == old(self).spans@.push((start as int, old(self).pos as int)),
    {
        proof {
            lemma_offset_monotone(self.chars@, start as int, self.pos as int);
        }
        let span = self.file_id.span(start_byte, self.byte - start_byte);
        let ghost old_tokens = self.tokens@;
        let ghost old_spans = self.spans@;
        let ghost kind_copy = kind;
        self.tokens.push(span.track(kind));
        self.spans = Ghost(self.spans@.push((start as int, self.pos as int)));
        proof {
            self.lemma_pushed(old_tokens, old_spans, start as int);
            assert(self.tokens@.drop_last() =~= old_tokens);
        }
    }

    proof fn lemma_pushed(&self, old_tokens: Seq<Token>, old_spans: Seq<(int, int)>, start: int)
        requires
            self.pos <= self.chars.len(),
            self.tokens@.len() == old_tokens.len() + 1,
            forall|i: int| 0 <= i < old_tokens.len() ==> self.tokens@[i] == old_tokens[i],
            self.spans@ == old_spans.push((start, self.pos as int)),
            lexemes_ok(self.file_id, self.chars@, old_tokens, old_spans, self.pos as int),
            forall|i: int| 0 <= i < old_spans.len() ==> #[trigger] old_spans[i].1 <= start,
            lexeme_ok(self.file_id, self.chars@, self.tokens@.last(), (start, self.pos as int), self.pos as int),
        ensures
            lexemes_ok(self.file_id, self.chars@, self.tokens@, self.spans@, self.pos as int),
    {
        assert forall|i: int| 0 <= i < self.tokens@.len() implies #[trigger] lexeme_ok(
            self.file_id,
            self.chars@,
            self.tokens@[i],
            self.spans@[i],
            self.pos as int,
        ) by {
            if i < old_tokens.len() {
                assert(lexeme_ok(self.file_id, self.chars@, old_tokens[i], old_spans[i], self.pos as int));
            }
        }
        assert forall|i: int, j: int| 0 <= i < j < self.tokens@.len() implies #[trigger] self.spans@[i].1
            <= #[trigger] self.spans@[j].0 by {
            if j < old_tokens.len() {
                assert(old_spans[i].1 <= old_spans[j].0);
            } else {
                assert(old_spans[i].1 <= start);
            }
        }
    }

    /// Push an invalid token for the characters `start..pos`, and the error
    /// at its span.
    fn invalid(&mut self, start: usize, start_byte: usize, kind: ErrorKind)
        requires
            old(self).wf(),
            start < old(self).pos,
            start_byte == byte_offset(old(self).chars@, start as int),
            forall|i: int| 0 <= i < old(self).spans@.len() ==> #[trigger] old(self).spans@[i].1 <= start,
        ensures
            final(self).after(old(self)),
            final(self).pos == old(self).pos,
            final(self).delimiters@ == old(self).delimiters@,
            final(self).tokens@.len() == old(self).tokens@.len() + 1,
            final(self).tokens@.last().item is Invalid,
            final(self).tokens@.drop_last() == old(self).tokens@,
            final(self).spans@ == old(self).spans@.push((start as int, old(self).pos as int)),
    {
        proof {
            lemma_offset_monotone(self.chars@, start as int, self.pos as int);
        }
        let span = self.file_id.span(start_byte, self.byte - start_byte);
        let ghost old_tokens = self.tokens@;
        let ghost old_spans = self.spans@;
        let ghost old_errors = self.errors@;
        self.tokens.push(span.track(Kind::Invalid));
        self.spans = Ghost(self.spans@.push((start as int, self.pos as int)));
        self.errors.push(Error { span, kind });
        proof {
            self.lemma_pushed(old_tokens, old_spans, start as int);
            assert(self.tokens@.drop_last() =~= old_tokens);
            assert(error_spans(self.errors@) =~= error_spans(old_errors).push(span));
        }
    }

    /// The run of characters an identifier continues with.
    fn word(&mut self) -> (w: Vec<char>)
        requires
            old(self).wf(),
        ensures
            final(self).moved(old(self)),
            w@ == final(self).chars@.subrange(old(self).pos as int, final(self).pos as int),
            forall|k: int| 0 <= k < w@.len() ==> identifier_continue_spec(#[trigger] w@[k]),
            old(self).pos < old(self).chars.len() && identifier_continue_spec(
                old(self).chars@[old(self).pos as int],
            ) ==> final(self).pos > old(self).pos,
            final(self).pos == word_end(old(self).chars@, old(self).pos as int),
    {
        let ghost before = *self;
        let mut w: Vec<char> = Vec::new();
        while self.pos < self.chars.len() && identifier_continue(self.chars[self.pos])
            invariant
                self.moved(&before),
                word_end(self.chars@, self.pos as int) == word_end(before.chars@, before.pos as int),
                w@ == self.chars@.subrange(before.pos as int, self.pos as int),
                forall|k: int| 0 <= k < w@.len() ==> identifier_continue_spec(#[trigger] w@[k]),
            decreases self.chars.len() - self.pos,
        {
            w.push(self.chars[self.pos]);
            self.bump();
            proof {
                assert(w@ =~= self.chars@.subrange(before.pos as int, self.pos as int));
            }
        }
        w
    }

    /// Consume a run of decimal digits.
    fn digits(&mut self)
        requires
            old(self).wf(),
        ensures
            final(self).moved(old(self)),
            all_digits(final(self).chars@.subrange(old(self).pos as int, final(self).pos as int)),
            old(self).pos < old(self).chars.len() && is_ascii_digit_spec(
                old(self).chars@[old(self).pos as int],
            ) ==> final(self).pos > old(self).pos,
            final(self).pos == digits_end(old(self).chars@, old(self).pos as int),
    {
        let ghost before = *self;
        while self.pos < self.chars.len() && is_ascii_digit(self.chars[self.pos])
            invariant
                self.moved(&before),
                digits_end(self.chars@, self.pos as int) == digits_end(before.chars@, before.pos as int),
                all_digits(self.chars@.subrange(before.pos as int, self.pos as int)),
            decreases self.chars.len() - self.pos,
        {
            let ghost prev = self.pos;
            self.bump();
            proof {
                assert forall|k: int| 0 <= k < self.pos - before.pos implies is_ascii_digit_spec(
                    #[trigger] self.chars@.subrange(before.pos as int, self.pos as int)[k],
                ) by {
                    if k < prev - before.pos {
                        assert(self.chars@.subrange(before.pos as int, prev as int)[k] == self.chars@[before.pos + k]);
                    }
                }
            }
        }
    }

    /// A sigil's label: the sigil, then a name made of identifier
    /// characters, which must begin as an identifier does.
    fn sigilled(&mut self, sigil: Sigil)
        requires
            old(self).wf(),
            old(self).pos < old(self).chars.len(),
            old(self).chars@[old(self).pos as int] == sigil_char(sigil),
        ensures
            final(self).after(old(self)),
            final(self).pos > old(self).pos,
            final(self).delimiters@ == old(self).delimiters@,
            final(self).tokens@.len() == old(self).tokens@.len() + 1,
            final(self).tokens@.drop_last() == old(self).tokens@,
            final(self).spans@ == old(self).spans@.push((old(self).pos as int, final(self).pos as int)),
            final(self).pos == word_end(old(self).chars@, old(self).pos + 1),
            label_kind_ok(old(self).chars@, old(self).pos as int, final(self).tokens@.last().item),
    {
        let start = self.pos;
        let start_byte = self.byte;
        proof {
            self.lemma_ends();
        }
        self.bump();
        let name = self.word();
        if name.len() > 0 && identifier_start(name[0]) {
            let text = text_of(&name);
            let kind = match sigil {
                Sigil::Tag => Kind::Tag(text),
                Sigil::Effect => Kind::EffectLabel(text),
                Sigil::Variable => Kind::Variable(text),
            };
            proof {
                assert(self.chars@.subrange(start as int, self.pos as int) =~= seq![sigil_char(sigil)] + name@);
            }
            self.push(start, start_byte, kind);
        } else {
            let malformed = match sigil {
                Sigil::Tag => ErrorKind::MalformedTag,
                Sigil::Effect => ErrorKind::MalformedEffectLabel,
                Sigil::Variable => ErrorKind::MalformedVariable,
            };
            self.invalid(start, start_byte, malformed);
        }
    }

    /// A double-quoted string from its opening quote: the decoded value, or
    /// the first thing wrong with it. A line boundary ends it unclosed and is
    /// left unread.
    fn string(&mut self) -> (value: Result<Vec<char>, ErrorKind>)
        requires
            old(self).wf(),
            old(self).pos < old(self).chars.len(),
        ensures
            final(self).moved(old(self)),
            final(self).pos > old(self).pos,
            final(self).pos == string_scan(old(self).chars@, old(self).pos + 1, Seq::empty(), None).0,
            value matches Ok(v) ==> string_scan(old(self).chars@, old(self).pos + 1, Seq::empty(), None).1
                == Ok::<Seq<char>, ErrorKind>(v@),
            value matches Err(e) ==> string_scan(old(self).chars@, old(self).pos + 1, Seq::empty(), None).1
                == Err::<Seq<char>, ErrorKind>(e),
    {
        let ghost before = *self;
        self.bump();
        let mut value: Vec<char> = Vec::new();
        let mut error: Option<ErrorKind> = None;
        proof {
            assert(value@ =~= Seq::<char>::empty());
        }
        loop
            invariant
                before == *old(self),
                self.moved(&before),
                self.pos > before.pos,
                error matches Some(e) ==> e is UnknownStringEscape,
                string_scan(self.chars@, self.pos as int, value@, escape_of(error)) == string_scan(
                    before.chars@,
                    before.pos + 1,
                    Seq::empty(),
                    None,
                ),
            decreases self.chars.len() - self.pos,
        {
            let c = match self.peek(0) {
                Some(c) => c,
                None => {
                    return Err(
                        match error {
                            Some(e) => e,
                            None => ErrorKind::MissingClosingQuote,
                        },
                    );
                },
            };
            if c == '\n' || c == '\r' {
                return Err(
                    match error {
                        Some(e) => e,
                        None => ErrorKind::MissingClosingQuote,
                    },
                );
            }
            let ghost k = self.pos as int;
            let ghost v0 = value@;
            let ghost e0 = error;
            self.bump();
            if c == '"' {
                return match error {
                    Some(e) => Err(e),
                    None => Ok(value),
                };
            } else if c == '\\' {
                let escaped = match self.peek(0) {
                    Some(e) => e,
                    None => {
                        return Err(
                            match error {
                                Some(e) => e,
                                None => ErrorKind::MissingClosingQuote,
                            },
                        );
                    },
                };
                if escaped == '\n' || escaped == '\r' {
                    return Err(
                        match error {
                            Some(e) => e,
                            None => ErrorKind::MissingClosingQuote,
                        },
                    );
                }
                self.bump();
                if escaped == '"' {
                    value.push('"');
                } else if escaped == '\\' {
                    value.push('\\');
                } else if escaped == 'n' {
                    value.push('\n');
                } else if escaped == 'r' {
                    value.push('\r');
                } else if escaped == 't' {
                    value.push('\t');
                } else if error.is_none() {
                    error = Some(ErrorKind::UnknownStringEscape { escape: escaped });
                }
                proof {
                    assert(self.pos == k + 2);
                    assert(self.chars@[k] == '\\' && self.chars@[k + 1] == escaped);
                    assert(k + 1 < self.chars.len() && escaped != '\n' && escaped != '\r');
                    if unescaped(escaped) is Some {
                        assert(value@ =~= v0.push(unescaped(escaped)->0));
                        assert(error == e0);
                    } else {
                        assert(value@ =~= v0);
                        assert(error == (if e0 is None {
                            Some(ErrorKind::UnknownStringEscape { escape: escaped })
                        } else {
                            e0
                        }));
                    }
                    assert(0 <= k < self.chars.len() && self.chars@[k] != '\n' && self.chars@[k] != '\r' && self.chars@[k] != '"');
                    assert(string_scan(self.chars@, k, v0, escape_of(e0)) == string_scan(self.chars@, k + 2, value@, escape_of(error)));
                }
            } else {
                value.push(c);
            }
        }
    }

    /// Raw string lines from the first `\\`: each runs verbatim from after
    /// its `\\` to the end of its line, and lines with only whitespace
    /// between them join with a newline.
    fn raw_string(&mut self) -> (value: Vec<char>)
        requires
            old(self).wf(),
            old(self).at(old(self).pos as int, '\\'),
            old(self).at(old(self).pos + 1, '\\'),
        ensures
            final(self).moved(old(self)),
            final(self).pos > old(self).pos,
            (final(self).pos as int, value@) == raw_scan(old(self).chars@, old(self).pos as int, Seq::empty()),
    {
        let ghost before = *self;
        let mut value: Vec<char> = Vec::new();
        proof {
            assert(value@ =~= Seq::<char>::empty());
        }
        loop
            invariant
                before == *old(self),
                self.pos >= before.pos,
                self.moved(&before),
                self.at(self.pos as int, '\\'),
                self.at(self.pos + 1, '\\'),
                raw_scan(self.chars@, self.pos as int, value@) == raw_scan(before.chars@, before.pos as int, Seq::empty()),
            decreases self.chars.len() - self.pos,
        {
            let ghost iteration = self.pos;
            let ghost v0 = value@;
            self.bump();
            self.bump();
            while self.pos < self.chars.len() && !(self.chars[self.pos] == '\n' || self.chars[self.pos]
                == '\r')
                invariant
                    self.moved(&before),
                    before == *old(self),
                    self.pos >= iteration + 2,
                    iteration >= before.pos,
                    value@ == v0 + self.chars@.subrange(iteration + 2, self.pos as int),
                    raw_line_end(self.chars@, self.pos as int) == raw_line_end(self.chars@, iteration + 2),
                decreases self.chars.len() - self.pos,
            {
                value.push(self.chars[self.pos]);
                proof {
                    assert(value@ =~= v0 + self.chars@.subrange(iteration + 2, self.pos + 1));
                }
                self.bump();
            }
            let mut ahead = self.pos;
            while ahead < self.chars.len() && is_whitespace(self.chars[ahead])
                invariant
                    self.pos <= ahead <= self.chars.len(),
                    space_end(self.chars@, ahead as int) == space_end(self.chars@, self.pos as int),
                decreases self.chars.len() - ahead,
            {
                ahead = ahead + 1;
            }
            let continues = ahead < self.chars.len() && ahead + 1 < self.chars.len() && self.chars[ahead] == '\\'
                && self.chars[ahead + 1] == '\\';
            if !continues {
                return value;
            }
            while self.pos < ahead
                invariant
                    self.moved(&before),
                    before == *old(self),
                    self.pos >= iteration + 2,
                    self.pos <= ahead,
                    ahead + 1 < self.chars.len(),
                    self.chars@[ahead as int] == '\\',
                    self.chars@[ahead + 1] == '\\',
                decreases ahead - self.pos,
            {
                self.bump();
            }
            value.push('\n');
        }
    }

    /// The rest of a `--` comment's line, up to the newline.
    fn line_comment(&mut self)
        requires
            old(self).wf(),
        ensures
            final(self).moved(old(self)),
            forall|k: int| old(self).pos <= k < final(self).pos ==> #[trigger] final(self).chars@[k] != '\n',
            final(self).pos == final(self).chars.len() || final(self).chars@[final(self).pos as int] == '\n',
            final(self).pos == line_end(old(self).chars@, old(self).pos as int),
    {
        let ghost before = *self;
        while self.pos < self.chars.len() && self.chars[self.pos] != '\n'
            invariant
                self.moved(&before),
                line_end(self.chars@, self.pos as int) == line_end(before.chars@, before.pos as int),
                forall|k: int| before.pos <= k < self.pos ==> #[trigger] self.chars@[k] != '\n',
            decreases self.chars.len() - self.pos,
        {
            self.bump();
        }
    }

    /// A `(* *)` comment from its opening `(*`, nesting: whether it closed.
    fn block_comment(&mut self) -> (closed: bool)
        requires
            old(self).wf(),
            old(self).at(old(self).pos as int, '('),
            old(self).at(old(self).pos + 1, '*'),
        ensures
            final(self).moved(old(self)),
            final(self).pos >= old(self).pos + 2,
            (final(self).pos as int, closed) == block_end(old(self).chars@, old(self).pos + 2, 1),
    {
        let ghost before = *self;
        self.bump();
        self.bump();
        let mut depth: usize = 1;
        while depth > 0
            invariant
                before == *old(self),
                self.moved(&before),
                self.pos >= before.pos + 2,
                depth <= self.pos,
                block_end(self.chars@, self.pos as int, depth as nat) == block_end(before.chars@, before.pos + 2, 1),
            decreases self.chars.len() - self.pos, depth,
        {
            let c = match self.peek(0) {
                Some(c) => c,
                None => return false,
            };
            self.bump();
            if c == '(' && self.peek(0) == Some('*') {
                self.bump();
                depth = depth + 1;
            } else if c == '*' && self.peek(0) == Some(')') {
                self.bump();
                depth = depth - 1;
            }
        }
        true
    }

    /// One number-shaped lexeme: digits, a fraction when a digit follows
    /// the point, and any identifier characters run into it.
    fn number(&mut self)
        requires
            old(self).wf(),
            old(self).pos < old(self).chars.len(),
            is_ascii_digit_spec(old(self).chars@[old(self).pos as int]),
        ensures
            final(self).moved(old(self)),
            final(self).pos > old(self).pos,
            final(self).pos == number_end(old(self).chars@, old(self).pos as int),
    {
        self.digits();
        if self.peek(0) == Some('.') {
            match self.peek(1) {
                Some(c) => {
                    if is_ascii_digit(c) {
                        self.bump();
                        self.digits();
                    }
                },
                None => {},
            }
        }
        let ghost before = *self;
        while self.pos < self.chars.len() && identifier_continue(self.chars[self.pos])
            invariant
                self.moved(&before),
                word_end(self.chars@, self.pos as int) == word_end(before.chars@, before.pos as int),
            decreases self.chars.len() - self.pos,
        {
            self.bump();
        }
    }

    /// Push a one- or two-character punctuation token spelled by the
    /// characters `start..pos`.
    fn punct(&mut self, start: usize, start_byte: usize, kind: Kind)
        requires
            old(self).wf(),
            start < old(self).pos,
            start_byte == byte_offset(old(self).chars@, start as int),
            forall|i: int| 0 <= i < old(self).spans@.len() ==> #[trigger] old(self).spans@[i].1 <= start,
            punct_kind(old(self).chars@.subrange(start as int, old(self).pos as int)) == Some(kind),
        ensures
            final(self).after(old(self)),
            final(self).pos == old(self).pos,
            final(self).delimiters@ == old(self).delimiters@,
            final(self).errors@ == old(self).errors@,
            final(self).tokens@.len() == old(self).tokens@.len() + 1,
            final(self).tokens@.drop_last() == old(self).tokens@,
            final(self).tokens@.last().item == kind,
            final(self).spans@ == old(self).spans@.push((start as int, old(self).pos as int)),
    {
        self.push(start, start_byte, kind);
    }

    /// Whether the previous token puts the next one where a numeric field
    /// label stands: after a projection dot, at the start of a braced
    /// entry, or after a comma or absence mark directly inside braces.
    fn numeric_field_position(&self) -> (b: bool)
        ensures
            b == self.at_numeric_field(),
    {
        if self.tokens.len() == 0 {
            return false;
        }
        let previous = &self.tokens[self.tokens.len() - 1].item;
        let brace = self.delimiters.len() > 0 && self.delimiters[self.delimiters.len() - 1]
            == Delimiter::Brace;
        match previous {
            Kind::Dot | Kind::LeftBrace => true,
            Kind::Comma | Kind::Backslash => brace,
            _ => false,
        }
    }

    /// Whether no error was reported at or after the previous token's start.
    fn previous_token_clean(&self) -> (b: bool)
        ensures
            b == (self.tokens@.len() > 0 && (self.errors@.len() == 0
                || self.errors@.last().span.start < self.tokens@.last().span.start)),
    {
        if self.tokens.len() == 0 {
            return false;
        }
        let start = self.tokens[self.tokens.len() - 1].span.start;
        if self.errors.len() == 0 {
            return true;
        }
        self.errors[self.errors.len() - 1].span.start < start
    }

    /// Read one lexeme, or skip one piece of trivia.
    #[verifier::rlimit(100)]
    #[verifier::spinoff_prover]
    fn step(&mut self)
        requires
            old(self).wf(),
            old(self).pos < old(self).chars.len(),
        ensures
            final(self).after(old(self)),
            final(self).pos > old(self).pos,
            final(self).pos == scan_end(old(self).chars@, old(self).pos as int),
            final(self).stack() == scan_stack(old(self).chars@, old(self).pos as int, old(self).stack()),
            scan_emits(old(self).chars@, old(self).pos as int) ==> {
                &&& final(self).tokens@.len() == old(self).tokens@.len() + 1
                &&& final(self).tokens@.drop_last() == old(self).tokens@
                &&& final(self).spans@ == old(self).spans@.push((old(self).pos as int, final(self).pos as int))
                &&& scan_kind(
                    old(self).chars@,
                    old(self).pos as int,
                    at_field(old(self).mark(), old(self).stack()),
                    final(self).tokens@.last().item,
                )
            },
            !scan_emits(old(self).chars@, old(self).pos as int) ==> final(self).tokens@ == old(self).tokens@
                && final(self).spans@ == old(self).spans@,
    {
        let start = self.pos;
        let start_byte = self.byte;
        let ghost old_stack = self.stack();
        let ghost field = at_field(self.mark(), self.stack());
        proof {
            self.lemma_ends();
            if self.tokens@.len() > 0 && self.delimiters@.len() > 0 {
                assert(self.stack().last() == (self.delimiters@.last() == Delimiter::Brace));
            }
            assert(self.at_numeric_field() == field);
            if field && self.errors@.len() > 0 {
                self.lemma_clean();
            }
        }
        let c = self.chars[start];
        if is_whitespace(c) {
            self.bump();
        } else if c == '=' {
            self.bump();
            if self.peek(0) == Some('>') {
                self.bump();
                proof { assert(self.chars@.subrange(start as int, self.pos as int) =~= seq!['=', '>']); }
                self.punct(start, start_byte, Kind::FatArrow);
            } else {
                proof { assert(self.chars@.subrange(start as int, self.pos as int) =~= seq!['=']); }
                self.punct(start, start_byte, Kind::Equal);
            }
        } else if c == '-' {
            self.bump();
            if self.peek(0) == Some('>') {
                self.bump();
                proof { assert(self.chars@.subrange(start as int, self.pos as int) =~= seq!['-', '>']); }
                self.punct(start, start_byte, Kind::Arrow);
            } else if self.peek(0) == Some('-') {
                self.bump();
                self.line_comment();
            } else {
                proof { assert(self.chars@.subrange(start as int, self.pos as int) =~= seq!['-']); }
                self.punct(start, start_byte, Kind::Minus);
            }
        } else if c == ':' {
            self.bump();
            if self.peek(0) == Some(':') {
                self.bump();
                proof { assert(self.chars@.subrange(start as int, self.pos as int) =~= seq![':', ':']); }
                self.punct(start, start_byte, Kind::ColonColon);
            } else {
                proof { assert(self.chars@.subrange(start as int, self.pos as int) =~= seq![':']); }
                self.punct(start, start_byte, Kind::Colon);
            }
        } else if c == ',' {
            self.bump();
            proof { assert(self.chars@.subrange(start as int, self.pos as int) =~= seq![',']); }
            self.punct(start, start_byte, Kind::Comma);
        } else if c == ';' {
            self.bump();
            proof { assert(self.chars@.subrange(start as int, self.pos as int) =~= seq![';']); }
            self.punct(start, start_byte, Kind::Semicolon);
        } else if c == '.' {
            self.bump();
            if self.peek(0) == Some('.') {
                self.bump();
                proof { assert(self.chars@.subrange(start as int, self.pos as int) =~= seq!['.', '.']); }
                self.punct(start, start_byte, Kind::DotDot);
            } else {
                proof { assert(self.chars@.subrange(start as int, self.pos as int) =~= seq!['.']); }
                self.punct(start, start_byte, Kind::Dot);
            }
        } else if c == '!' {
            if self.peek(1) == Some('=') {
                self.bump();
                self.bump();
                proof { assert(self.chars@.subrange(start as int, self.pos as int) =~= seq!['!', '=']); }
                self.punct(start, start_byte, Kind::NotEqual);
            } else {
                self.sigilled(Sigil::Effect);
            }
        } else if c == '\'' {
            self.sigilled(Sigil::Variable);
        } else if c == '+' {
            self.bump();
            proof { assert(self.chars@.subrange(start as int, self.pos as int) =~= seq!['+']); }
            self.punct(start, start_byte, Kind::Plus);
        } else if c == '*' {
            self.bump();
            proof { assert(self.chars@.subrange(start as int, self.pos as int) =~= seq!['*']); }
            self.punct(start, start_byte, Kind::Star);
        } else if c == '/' {
            self.bump();
            proof { assert(self.chars@.subrange(start as int, self.pos as int) =~= seq!['/']); }
            self.punct(start, start_byte, Kind::Slash);
        } else if c == '|' {
            self.bump();
            if self.peek(0) == Some('>') {
                self.bump();
                proof { assert(self.chars@.subrange(start as int, self.pos as int) =~= seq!['|', '>']); }
                self.punct(start, start_byte, Kind::PipeForward);
            } else {
                proof { assert(self.chars@.subrange(start as int, self.pos as int) =~= seq!['|']); }
                self.punct(start, start_byte, Kind::Pipe);
            }
        } else if c == '\\' && self.peek(1) == Some('\\') {
            let value = self.raw_string();
            let text = text_of(&value);
            self.push(start, start_byte, Kind::String(text));
        } else if c == '\\' {
            self.bump();
            proof { assert(self.chars@.subrange(start as int, self.pos as int) =~= seq!['\\']); }
            self.punct(start, start_byte, Kind::Backslash);
        } else if c == '#' {
            if self.peek(1) == Some('"') {
                self.bump();
                match self.string() {
                    Ok(value) => {
                        let text = text_of(&value);
                        self.push(start, start_byte, Kind::Tag(text));
                    },
                    Err(kind) => self.invalid(start, start_byte, kind),
                }
            } else {
                self.sigilled(Sigil::Tag);
            }
        } else if c == '"' {
            match self.string() {
                Ok(value) => {
                    let text = text_of(&value);
                    self.push(start, start_byte, Kind::String(text));
                },
                Err(kind) => self.invalid(start, start_byte, kind),
            }
        } else if c == '{' {
            self.bump();
            proof { assert(self.chars@.subrange(start as int, self.pos as int) =~= seq!['{']); }
            self.punct(start, start_byte, Kind::LeftBrace);
            self.delimiters.push(Delimiter::Brace);
        } else if c == '}' {
            self.bump();
            proof { assert(self.chars@.subrange(start as int, self.pos as int) =~= seq!['}']); }
            self.punct(start, start_byte, Kind::RightBrace);
            if self.delimiters.len() > 0 && self.delimiters[self.delimiters.len() - 1]
                == Delimiter::Brace {
                self.delimiters.pop();
            }
        } else if c == '(' && self.peek(1) == Some('*') {
            if !self.block_comment() {
                self.invalid(start, start_byte, ErrorKind::MissingClosingComment);
            }
        } else if c == '(' {
            self.bump();
            proof { assert(self.chars@.subrange(start as int, self.pos as int) =~= seq!['(']); }
            self.punct(start, start_byte, Kind::LeftParen);
            self.delimiters.push(Delimiter::Paren);
        } else if c == ')' {
            self.bump();
            proof { assert(self.chars@.subrange(start as int, self.pos as int) =~= seq![')']); }
            self.punct(start, start_byte, Kind::RightParen);
            if self.delimiters.len() > 0 && self.delimiters[self.delimiters.len() - 1]
                == Delimiter::Paren {
                self.delimiters.pop();
            }
        } else if c == '_' || is_alphabetic(c) {
            let continues = identifier_continue(c);
            let ident = self.word();
            let kind = match word_kind_of(&self.chars, start, self.pos) {
                Some(kind) => kind,
                None => Kind::Identifier(text_of(&ident)),
            };
            self.push(start, start_byte, kind);
        } else if is_ascii_digit(c) && self.numeric_field_position() && self.previous_token_clean() {
            self.number();
            match numeric_field(&self.chars, start, self.pos) {
                Ok(kind) => self.push(start, start_byte, kind),
                Err(kind) => self.invalid(start, start_byte, kind),
            }
        } else if is_ascii_digit(c) {
            self.number();
            match numeric(&self.chars, start, self.pos) {
                Ok(kind) => self.push(start, start_byte, kind),
                Err(kind) => self.invalid(start, start_byte, kind),
            }
        } else {
            self.bump();
            self.invalid(start, start_byte, ErrorKind::InvalidCharacter { character: c });
        }
    }
}

/// The three sigils a label can carry.
#[derive(Clone, Copy, PartialEq, Eq)]
enum Sigil {
    Tag,
    Effect,
    Variable,
}

spec fn sigil_char(sigil: Sigil) -> char {
    match sigil {
        Sigil::Tag => '#',
        Sigil::Effect => '!',
        Sigil::Variable => '\'',
    }
}

/// The least integer part a real literal rounds to infinity from:
/// `2^1024 - 2^970`, halfway between the largest finite double and `2^1024`,
/// which round-half-to-even sends up.
pub open spec fn real_limit() -> Seq<char> {
    "179769313486231580793728971405303415079934132710037826936173778980444968292764750946649017977587207096330286416692887910946555547851940402630657488671505820681908902000708383676273854845817711531764475730270069855571366959622842914819860834936475292719074168444365510704342711559699508093042880177904174497792"@
}

/// Whether the digit run `t` (leading zeros allowed) spells at least the
/// number `limit` spells, when `limit` has no leading zero: more significant
/// digits means more, and equally many compare digit by digit.
pub open spec fn numeral_at_least(t: Seq<char>, limit: Seq<char>) -> bool {
    let significant = t.skip(leading_zeros(t));
    significant.len() > limit.len() || (significant.len() == limit.len() && !lexically_below(
        significant,
        limit,
    ))
}

/// How many zeros a digit run starts with.
pub open spec fn leading_zeros(t: Seq<char>) -> int
    decreases t.len(),
{
    if t.len() > 0 && t[0] == '0' {
        1 + leading_zeros(t.drop_first())
    } else {
        0
    }
}

/// Whether `a` sorts before `b` character by character (equal lengths).
pub open spec fn lexically_below(a: Seq<char>, b: Seq<char>) -> bool
    decreases a.len(),
{
    if a.len() == 0 || b.len() == 0 {
        false
    } else if a[0] != b[0] {
        a[0] < b[0]
    } else {
        lexically_below(a.drop_first(), b.drop_first())
    }
}

proof fn lemma_leading_zeros_bound(t: Seq<char>)
    ensures
        0 <= leading_zeros(t) <= t.len(),
        forall|k: int| 0 <= k < leading_zeros(t) ==> t[k] == '0',
        leading_zeros(t) < t.len() ==> t[leading_zeros(t)] != '0',
    decreases t.len(),
{
    if t.len() > 0 && t[0] == '0' {
        lemma_leading_zeros_bound(t.drop_first());
        assert forall|k: int| 0 <= k < leading_zeros(t) implies t[k] == '0' by {
            if k > 0 {
                assert(t.drop_first()[k - 1] == t[k]);
            }
        }
    }
}

/// What a numeric field's text reads as: its value when it is decimal
/// digits within a `u64`.
pub open spec fn numeric_field_reading(t: Seq<char>) -> Result<Kind, ErrorKind> {
    if !all_digits(t) {
        Err(ErrorKind::MalformedNumericField)
    } else if decimal_value(t) <= u64::MAX {
        Ok(Kind::NumericField(decimal_value(t) as u64))
    } else {
        Err(ErrorKind::NumericFieldTooLarge)
    }
}

/// Whether every character is a decimal digit or a point.
pub open spec fn digits_or_points(t: Seq<char>) -> bool {
    forall|i: int| 0 <= i < t.len() ==> is_ascii_digit_spec(#[trigger] t[i]) || t[i] == '.'
}

/// The whole-number suffix a numeric literal ends with, if any: an `i` or
/// an `n` after at least one other character.
pub open spec fn numeral_suffix(t: Seq<char>) -> Option<char> {
    if t.len() > 1 && (t.last() == 'i' || t.last() == 'n') {
        Some(t.last())
    } else {
        None
    }
}

/// A numeric literal without its suffix.
pub open spec fn numeral_body(t: Seq<char>) -> Seq<char> {
    if numeral_suffix(t) is Some {
        t.drop_last()
    } else {
        t
    }
}

/// How many characters come before the first point.
pub open spec fn whole_len(t: Seq<char>) -> int
    decreases t.len(),
{
    if t.len() == 0 || t[0] == '.' {
        0
    } else {
        1 + whole_len(t.drop_first())
    }
}

/// What a numeric literal's text reads as, short of the text a real
/// keeps: `Some(Ok(kind))` for a natural or an integer, `Some(Err(e))` for
/// an error, `None` for a real.
pub open spec fn numeric_reading(t: Seq<char>) -> Option<Result<Kind, ErrorKind>> {
    let body = numeral_body(t);
    if !digits_or_points(body) {
        Some(Err(ErrorKind::NumberFollowedByName))
    } else if numeral_suffix(t) is Some && !all_digits(body) {
        Some(Err(ErrorKind::DecimalWithWholeSuffix { suffix: numeral_suffix(t)->0 }))
    } else if numeral_suffix(t) == Some('n') {
        if decimal_value(body) <= u64::MAX {
            Some(Ok(Kind::Natural(decimal_value(body) as u64)))
        } else {
            Some(Err(ErrorKind::NaturalTooLarge))
        }
    } else if numeral_suffix(t) == Some('i') {
        if decimal_value(body) <= i64::MAX {
            Some(Ok(Kind::Integer(decimal_value(body) as i64)))
        } else {
            Some(Err(ErrorKind::IntegerTooLarge))
        }
    } else if numeral_at_least(t.take(whole_len(t)), real_limit()) {
        Some(Err(ErrorKind::RealTooLarge))
    } else {
        None
    }
}

/// Whether the digits `from..to` spell at least the digits of `limit`.
fn at_least(chars: &Vec<char>, from: usize, to: usize, limit: &str) -> (b: bool)
    requires
        from <= to <= chars.len(),
    ensures
        b == numeral_at_least(chars@.subrange(from as int, to as int), limit@),
{
    let ghost t = chars@.subrange(from as int, to as int);
    let lim = chars_of(limit);
    let mut a = from;
    while a < to && chars[a] == '0'
        invariant
            from <= a <= to <= chars.len(),
            t == chars@.subrange(from as int, to as int),
            leading_zeros(t) == (a - from) + leading_zeros(chars@.subrange(a as int, to as int)),
        decreases to - a,
    {
        assert(chars@.subrange(a as int, to as int).drop_first() =~= chars@.subrange(a + 1, to as int));
        a = a + 1;
    }
    proof {
        assert(leading_zeros(chars@.subrange(a as int, to as int)) == 0);
        assert(t.skip(leading_zeros(t)) =~= chars@.subrange(a as int, to as int));
    }
    let n = to - a;
    if n > lim.len() {
        return true;
    }
    if n < lim.len() {
        return false;
    }
    let mut i: usize = 0;
    proof {
        assert(lim@.skip(0) =~= lim@);
        assert(chars@.subrange(a + 0, to as int) =~= chars@.subrange(a as int, to as int));
    }
    while i < n
        invariant
            0 <= i <= n,
            n == to - a,
            from <= a,
            t == chars@.subrange(from as int, to as int),
            t.skip(leading_zeros(t)) == chars@.subrange(a as int, to as int),
            a <= to <= chars.len(),
            lim@ == limit@,
            n == lim.len(),
            forall|k: int| 0 <= k < i ==> chars@[a + k] == lim@[k],
            lexically_below(chars@.subrange(a as int, to as int), lim@) == lexically_below(
                chars@.subrange(a + i, to as int),
                lim@.skip(i as int),
            ),
        decreases n - i,
    {
        let c = chars[a + i];
        let d = lim[i];
        proof {
            assert(chars@.subrange(a + i, to as int)[0] == c);
            assert(lim@.skip(i as int)[0] == d);
        }
        if c != d {
            proof {
                let x = chars@.subrange(a + i, to as int);
                let y = lim@.skip(i as int);
                assert(x.len() > 0 && y.len() > 0 && x[0] == c && y[0] == d);
                assert(lexically_below(x, y) == (c < d));
            }
            return !(c < d);
        }
        proof {
            assert(chars@.subrange(a + i, to as int).drop_first() =~= chars@.subrange(a + i + 1, to as int));
            assert(lim@.skip(i as int).drop_first() =~= lim@.skip(i + 1));
        }
        i = i + 1;
    }
    true
}

/// A numeric field: decimal digits only, within a `u64`.
fn numeric_field(chars: &Vec<char>, from: usize, to: usize) -> (kind: Result<Kind, ErrorKind>)
    requires
        from < to <= chars.len(),
    ensures
        kind == numeric_field_reading(chars@.subrange(from as int, to as int)),
        kind matches Ok(k) ==> lexeme_fits(k, chars@.subrange(from as int, to as int)) && k is NumericField,
{
    let ghost t = chars@.subrange(from as int, to as int);
    let mut i = from;
    while i < to
        invariant
            from <= i <= to <= chars.len(),
            t == chars@.subrange(from as int, to as int),
            forall|k: int| from <= k < i ==> is_ascii_digit_spec(#[trigger] chars@[k]),
        decreases to - i,
    {
        if !is_ascii_digit(chars[i]) {
            proof {
                assert(t[i - from] == chars@[i as int]);
            }
            return Err(ErrorKind::MalformedNumericField);
        }
        i = i + 1;
    }
    proof {
        assert(all_digits(t));
    }
    match parse_decimal(chars, from, to, u64::MAX) {
        Some(v) => Ok(Kind::NumericField(v)),
        None => Err(ErrorKind::NumericFieldTooLarge),
    }
}

/// A numeric literal: a real by default, an integer with an `i` suffix, a
/// natural with an `n` suffix.
fn numeric(chars: &Vec<char>, from: usize, to: usize) -> (kind: Result<Kind, ErrorKind>)
    requires
        from < to <= chars.len(),
        is_ascii_digit_spec(chars@[from as int]),
    ensures
        numeric_reading(chars@.subrange(from as int, to as int)) matches Some(r) ==> kind == r,
        numeric_reading(chars@.subrange(from as int, to as int)) is None ==> (kind matches Ok(
            Kind::Real(text),
        ) && text@ == chars@.subrange(from as int, to as int)),
        kind matches Ok(k) ==> lexeme_fits(k, chars@.subrange(from as int, to as int)) && (k is Natural
            || k is Integer || k is Real),
{
    let ghost t = chars@.subrange(from as int, to as int);
    let last = chars[to - 1];
    let (end, suffix) = if to - from > 1 && last == 'i' {
        (to - 1, Some('i'))
    } else if to - from > 1 && last == 'n' {
        (to - 1, Some('n'))
    } else {
        (to, None)
    };
    proof {
        assert(t.last() == last);
        assert(numeral_suffix(t) == suffix);
        if suffix is Some {
            assert(numeral_body(t) =~= chars@.subrange(from as int, end as int));
        } else {
            assert(numeral_body(t) =~= chars@.subrange(from as int, end as int));
        }
    }
    let mut i = from;
    let mut dotted = false;
    while i < end
        invariant
            from <= i <= end <= to <= chars.len(),
            t == chars@.subrange(from as int, to as int),
            numeral_body(t) == chars@.subrange(from as int, end as int),
            forall|k: int| from <= k < i ==> is_ascii_digit_spec(#[trigger] chars@[k]) || chars@[k] == '.',
            !dotted ==> forall|k: int| from <= k < i ==> is_ascii_digit_spec(#[trigger] chars@[k]),
            dotted ==> exists|k: int| from <= k < i && #[trigger] chars@[k] == '.',
        decreases end - i,
    {
        let c = chars[i];
        if c == '.' {
            dotted = true;
        } else if !is_ascii_digit(c) {
            proof {
                assert(numeral_body(t)[i - from] == c);
                assert(!digits_or_points(numeral_body(t)));
            }
            return Err(ErrorKind::NumberFollowedByName);
        }
        i = i + 1;
    }
    proof {
        assert(digits_or_points(numeral_body(t))) by {
            assert forall|j: int| 0 <= j < numeral_body(t).len() implies is_ascii_digit_spec(
                #[trigger] numeral_body(t)[j],
            ) || numeral_body(t)[j] == '.' by {
                assert(numeral_body(t)[j] == chars@[from + j]);
            }
        }
        if dotted {
            let k = choose|k: int| from <= k < i && #[trigger] chars@[k] == '.';
            assert(numeral_body(t)[k - from] == '.');
            assert(!all_digits(numeral_body(t)));
        }
    }
    match suffix {
        Some(s) => {
            if dotted {
                return Err(ErrorKind::DecimalWithWholeSuffix { suffix: s });
            }
            proof {
                assert(all_digits(chars@.subrange(from as int, end as int)));
                assert(chars@.subrange(from as int, to as int).drop_last() =~= chars@.subrange(from as int, end as int));
            }
            if s == 'n' {
                match parse_decimal(chars, from, end, u64::MAX) {
                    Some(v) => Ok(Kind::Natural(v)),
                    None => Err(ErrorKind::NaturalTooLarge),
                }
            } else {
                match parse_decimal(chars, from, end, 0x7FFF_FFFF_FFFF_FFFF) {
                    Some(v) => Ok(Kind::Integer(v as i64)),
                    None => Err(ErrorKind::IntegerTooLarge),
                }
            }
        },
        None => {
            let mut whole = from;
            proof {
                assert(chars@.subrange(from as int, to as int) =~= t);
            }
            while whole < to && chars[whole] != '.'
                invariant
                    from <= whole <= to <= chars.len(),
                    t == chars@.subrange(from as int, to as int),
                    whole_len(t) == (whole - from) + whole_len(chars@.subrange(whole as int, to as int)),
                    forall|k: int| from <= k < whole ==> #[trigger] chars@[k] != '.',
                decreases to - whole,
            {
                assert(chars@.subrange(whole as int, to as int).drop_first() =~= chars@.subrange(
                    whole + 1,
                    to as int,
                ));
                whole = whole + 1;
            }
            proof {
                assert(whole_len(chars@.subrange(whole as int, to as int)) == 0);
                assert(t.take(whole_len(t)) =~= chars@.subrange(from as int, whole as int));
            }
            if at_least(chars, from, whole, "179769313486231580793728971405303415079934132710037826936173778980444968292764750946649017977587207096330286416692887910946555547851940402630657488671505820681908902000708383676273854845817711531764475730270069855571366959622842914819860834936475292719074168444365510704342711559699508093042880177904174497792") {
                return Err(ErrorKind::RealTooLarge);
            }
            let mut text: Vec<char> = Vec::new();
            let mut k = from;
            while k < to
                invariant
                    from <= k <= to <= chars.len(),
                    text@ == chars@.subrange(from as int, k as int),
                decreases to - k,
            {
                text.push(chars[k]);
                k = k + 1;
                proof {
                    assert(text@ =~= chars@.subrange(from as int, k as int));
                }
            }
            Ok(Kind::Real(text_of(&text)))
        },
    }
}


/// The keyword (or wildcard, or boolean) the characters `from..to` spell.
fn word_kind_of(chars: &Vec<char>, from: usize, to: usize) -> (kind: Option<Kind>)
    requires
        from <= to <= chars.len(),
    ensures
        kind == word_kind(chars@.subrange(from as int, to as int)),
{
    if spells(chars, from, to, "let") {
        Some(Kind::Let)
    } else if spells(chars, from, to, "extern") {
        Some(Kind::Extern)
    } else if spells(chars, from, to, "in") {
        Some(Kind::In)
    } else if spells(chars, from, to, "type") {
        Some(Kind::Type)
    } else if spells(chars, from, to, "end") {
        Some(Kind::End)
    } else if spells(chars, from, to, "with") {
        Some(Kind::With)
    } else if spells(chars, from, to, "match") {
        Some(Kind::Match)
    } else if spells(chars, from, to, "if") {
        Some(Kind::If)
    } else if spells(chars, from, to, "then") {
        Some(Kind::Then)
    } else if spells(chars, from, to, "else") {
        Some(Kind::Else)
    } else if spells(chars, from, to, "fn") {
        Some(Kind::Fn)
    } else if spells(chars, from, to, "effect") {
        Some(Kind::Effect)
    } else if spells(chars, from, to, "handle") {
        Some(Kind::Handle)
    } else if spells(chars, from, to, "raise") {
        Some(Kind::Raise)
    } else if spells(chars, from, to, "and") {
        Some(Kind::And)
    } else if spells(chars, from, to, "or") {
        Some(Kind::Or)
    } else if spells(chars, from, to, "xor") {
        Some(Kind::Xor)
    } else if spells(chars, from, to, "not") {
        Some(Kind::Not)
    } else if spells(chars, from, to, "module") {
        Some(Kind::Module)
    } else if spells(chars, from, to, "true") {
        Some(Kind::Boolean(true))
    } else if spells(chars, from, to, "false") {
        Some(Kind::Boolean(false))
    } else if spells(chars, from, to, "_") {
        Some(Kind::Underscore)
    } else {
        None
    }
}

/// Lex a whole source text.
pub fn lex(input: &str, file_id: FileID) -> (out: Output)
    requires
        utf8_len(input@) <= usize::MAX,
    ensures
        lexed(file_id, input@, out),
{
    let chars = chars_of(input);
    proof {
        assert(chars@.take(0) =~= Seq::<char>::empty());
        assert(invalid_spans(Seq::<Token>::empty()) =~= Seq::<Span>::empty());
        assert(error_spans(Seq::<Error>::empty()) =~= Seq::<Span>::empty());
    }
    let mut scanner = Scanner {
        file_id,
        chars,
        pos: 0,
        byte: 0,
        tokens: Vec::new(),
        spans: Ghost(Seq::empty()),
        errors: Vec::new(),
        delimiters: Vec::new(),
    };
    proof {
        assert(scanner.stack() =~= Seq::<bool>::empty());
        assert forall|t: Seq<Token>, sp: Seq<(int, int)>| #[trigger] scanned(input@, 0, 0, Seq::empty(), t, sp)
            implies scanned(input@, 0, 0, Seq::empty(), scanner.tokens@ + t, scanner.spans@ + sp) by {
            assert(scanner.tokens@ + t =~= t);
            assert(scanner.spans@ + sp =~= sp);
        }
    }
    while scanner.pos < scanner.chars.len()
        invariant
            scanner.wf(),
            scanner.chars@ == input@,
            scanner.file_id == file_id,
            forall|t: Seq<Token>, sp: Seq<(int, int)>|
                #[trigger] scanned(input@, scanner.pos as int, scanner.mark(), scanner.stack(), t, sp) ==> scanned(
                    input@,
                    0,
                    0,
                    Seq::empty(),
                    scanner.tokens@ + t,
                    scanner.spans@ + sp,
                ),
        decreases scanner.chars.len() - scanner.pos,
    {
        let ghost p = scanner.pos as int;
        let ghost old_tokens = scanner.tokens@;
        let ghost old_spans = scanner.spans@;
        let ghost old_mark = scanner.mark();
        let ghost old_stack = scanner.stack();
        scanner.step();
        proof {
            let e = scanner.pos as int;
            assert forall|t: Seq<Token>, sp: Seq<(int, int)>|
                #[trigger] scanned(input@, e, scanner.mark(), scanner.stack(), t, sp) implies scanned(
                input@,
                0,
                0,
                Seq::empty(),
                scanner.tokens@ + t,
                scanner.spans@ + sp,
            ) by {
                if scan_emits(input@, p) {
                    let tok = scanner.tokens@.last();
                    let t2 = seq![tok] + t;
                    let sp2 = seq![(p, e)] + sp;
                    assert(t2.drop_first() =~= t);
                    assert(sp2.drop_first() =~= sp);
                    assert(t2[0] == tok);
                    assert(scanner.mark() == field_mark(tok.item));
                    assert(scanned(input@, p, old_mark, old_stack, t2, sp2));
                    assert(old_tokens + t2 =~= scanner.tokens@ + t);
                    assert(old_spans + sp2 =~= scanner.spans@ + sp);
                } else {
                    assert(scanned(input@, p, old_mark, old_stack, t, sp));
                }
            }
        }
    }
    proof {
        assert forall|i: int| 0 <= i < scanner.tokens@.len() implies #[trigger] lexeme_ok(
            file_id,
            input@,
            scanner.tokens@[i],
            scanner.spans@[i],
            input@.len() as int,
        ) by {
            assert(lexeme_ok(file_id, input@, scanner.tokens@[i], scanner.spans@[i], scanner.pos as int));
        }
        assert(lexemes_ok(file_id, input@, scanner.tokens@, scanner.spans@, input@.len() as int));
        assert(scanned(input@, scanner.pos as int, scanner.mark(), scanner.stack(), Seq::empty(), Seq::empty()));
        assert(scanner.tokens@ + Seq::<Token>::empty() =~= scanner.tokens@);
        assert(scanner.spans@ + Seq::<(int, int)>::empty() =~= scanner.spans@);
        assert(scanned(input@, 0, 0, Seq::empty(), scanner.tokens@, scanner.spans@));
    }
    Output { tokens: scanner.tokens, errors: scanner.errors }
}

} // verus!
