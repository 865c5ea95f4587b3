//! The lexer: source text in, tokens and diagnostics out.
//!
//! The lexer walks the text character by character, keeping the byte offset
//! of its position beside the character index, because every range it reports
//! is written in bytes.
use vstd::prelude::*;

use super::grammar::{quoted_char, quoted_text};
use super::token::{Keyword, Operator, Punct, Token, TokenKind, keyword_text, operator_text, punct_text};
use crate::reporting::{Diagnostic, Source, TextRange, TextSize, saturate};
use vstd::string::StringExecFns;
use crate::text::{
    byte_offset, char_width, chars_of, spells, is_ascii_digit, is_ascii_digit_spec, is_ascii_hexdigit,
    is_hex_digit_spec, is_white_space, is_whitespace, lemma_char_index, lemma_offset_full,
    lemma_offset_monotone, lemma_offset_step, utf8_len, is_boundary, char_index,
};

verus! {

/// Whether `c` has the Unicode `XID_Start` property.
pub uninterp spec fn xid_start(c: char) -> bool;

/// Whether `c` has the Unicode `XID_Continue` property.
pub uninterp spec fn xid_continue(c: char) -> bool;

/// `unicode_ident::is_xid_start`, which looks `c` up in the Unicode tables of
/// the `XID_Start` property; its answer is named `xid_start`. For an ASCII
/// character its table holds exactly the letters.
#[verifier::external_body]
fn xid_start_of(c: char) -> (b: bool)
    ensures
        b == xid_start(c),
        (c as u32) < 128 ==> (b <==> (('a' <= c && c <= 'z') || ('A' <= c && c <= 'Z'))),
{
    unicode_ident::is_xid_start(c)
}

/// `unicode_ident::is_xid_continue`, which looks `c` up in the Unicode tables
/// of the `XID_Continue` property; its answer is named `xid_continue`. For an
/// ASCII character its table holds exactly the letters, the digits and `_`.
#[verifier::external_body]
fn xid_continue_of(c: char) -> (b: bool)
    ensures
        b == xid_continue(c),
        (c as u32) < 128 ==> (b <==> (('a' <= c && c <= 'z') || ('A' <= c && c <= 'Z') || ('0' <= c
            && c <= '9') || c == '_')),
{
    unicode_ident::is_xid_continue(c)
}

/// `char::to_string`: the string holding just `c`.
#[verifier::external_body]
fn char_string(c: char) -> (s: String)
    ensures
        s@ == seq![c],
{
    c.to_string()
}

/// An identifier starts with `_` or an `XID_Start` character: among ASCII,
/// a letter.
pub open spec fn is_ident_start_spec(c: char) -> bool {
    c == '_' || if (c as u32) < 128 {
        ('a' <= c && c <= 'z') || ('A' <= c && c <= 'Z')
    } else {
        xid_start(c)
    }
}

/// An identifier continues with `XID_Continue` characters: among ASCII,
/// letters, digits and `_`.
pub open spec fn is_ident_continue_spec(c: char) -> bool {
    if (c as u32) < 128 {
        ('a' <= c && c <= 'z') || ('A' <= c && c <= 'Z') || ('0' <= c && c <= '9') || c == '_'
    } else {
        xid_continue(c)
    }
}

pub fn is_ident_start(c: char) -> (b: bool)
    ensures
        b == is_ident_start_spec(c),
{
    c == '_' || xid_start_of(c)
}

pub fn is_ident_continue(c: char) -> (b: bool)
    ensures
        b == is_ident_continue_spec(c),
{
    xid_continue_of(c)
}

/// The keyword a word spells, if any.
pub open spec fn keyword_of(t: Seq<char>) -> Option<Keyword> {
    if t == "bundle"@ {
        Some(Keyword::Bundle)
    } else if t == "module"@ {
        Some(Keyword::Module)
    } else if t == "end"@ {
        Some(Keyword::End)
    } else if t == "let"@ {
        Some(Keyword::Let)
    } else if t == "do"@ {
        Some(Keyword::Do)
    } else if t == "use"@ {
        Some(Keyword::Use)
    } else if t == "as"@ {
        Some(Keyword::As)
    } else if t == "in"@ {
        Some(Keyword::In)
    } else if t == "type"@ {
        Some(Keyword::Type)
    } else if t == "trait"@ {
        Some(Keyword::Trait)
    } else if t == "impl"@ {
        Some(Keyword::Impl)
    } else if t == "for"@ {
        Some(Keyword::For)
    } else if t == "where"@ {
        Some(Keyword::Where)
    } else if t == "fn"@ {
        Some(Keyword::Fn)
    } else if t == "if"@ {
        Some(Keyword::If)
    } else if t == "then"@ {
        Some(Keyword::Then)
    } else if t == "else"@ {
        Some(Keyword::Else)
    } else if t == "match"@ {
        Some(Keyword::Match)
    } else if t == "with"@ {
        Some(Keyword::With)
    } else if t == "wasm"@ {
        Some(Keyword::Wasm)
    } else if t == "root"@ {
        Some(Keyword::Root)
    } else if t == "true"@ {
        Some(Keyword::True)
    } else if t == "false"@ {
        Some(Keyword::False)
    } else if t == "mod"@ {
        Some(Keyword::Mod)
    } else if t == "xor"@ {
        Some(Keyword::Xor)
    } else if t == "or"@ {
        Some(Keyword::Or)
    } else if t == "and"@ {
        Some(Keyword::And)
    } else if t == "not"@ {
        Some(Keyword::Not)
    } else {
        None
    }
}

/// Whitespace dropped from both ends of a character sequence, as `str::trim`
/// drops it.
pub open spec fn trim_start(t: Seq<char>) -> Seq<char>
    decreases t.len(),
{
    if t.len() > 0 && is_white_space(t[0]) {
        trim_start(t.drop_first())
    } else {
        t
    }
}

pub open spec fn trim_end(t: Seq<char>) -> Seq<char>
    decreases t.len(),
{
    if t.len() > 0 && is_white_space(t.last()) {
        trim_end(t.drop_last())
    } else {
        t
    }
}

pub open spec fn trim(t: Seq<char>) -> Seq<char> {
    trim_end(trim_start(t))
}

/// The operator spellings a bracketed identifier such as `[+]` may hold.
pub open spec fn operator_word(t: Seq<char>) -> bool {
    t == "+"@ || t == "-"@ || t == "*"@ || t == "/"@ || t == "mod"@ || t == "xor"@ || t == "or"@
        || t == "and"@ || t == "not"@ || t == "~"@ || t == ">>"@ || t == "<<"@ || t == "|>"@
        || t == "+>"@ || t == "*>"@ || t == ";"@ || t == "=="@ || t == "!="@ || t == "<"@ || t
        == "<="@ || t == ">"@ || t == ">="@
}

pub open spec fn operator_like(t: Seq<char>) -> bool {
    operator_word(trim(t))
}

/// What the text of a token of each kind looks like.
pub open spec fn fits(kind: TokenKind, t: Seq<char>) -> bool {
    match kind {
        TokenKind::Keyword(k) => t == keyword_text(k),
        TokenKind::Operator(op) => t == operator_text(op),
        TokenKind::Punct(p) => t == punct_text(p),
        TokenKind::Ident => t.len() > 0 && is_ident_start_spec(t[0]) && keyword_of(t) is None,
        TokenKind::BracketedIdent => t.len() >= 2 && t[0] == '[' && t.last() == ']'
            && operator_like(t.subrange(1, t.len() - 1)),
        TokenKind::IntegerLiteral => t.len() > 0 && is_ascii_digit_spec(t[0]),
        TokenKind::RealLiteral => t.len() > 0 && is_ascii_digit_spec(t[0]),
        TokenKind::NaturalLiteral => t.len() > 1 && is_ascii_digit_spec(t[0]) && t.last() == 'n',
        TokenKind::StringLiteral => t.len() >= 2 && t[0] == '"' && t.last() == '"',
        TokenKind::GlyphLiteral => t.len() >= 2 && t[0] == '\'' && t.last() == '\'',
        TokenKind::FormatStringLiteral => t.len() >= 2 && t[0] == '`' && t.last() == '`',
        TokenKind::EndOfFile => t.len() == 0,
        TokenKind::Error => t.len() > 0,
    }
}

/// The range `from_bounds` makes of two byte offsets.
pub open spec fn bounds_range(source: Source, lo: int, hi: int) -> TextRange {
    TextRange::Located {
        source,
        start: TextSize(saturate(lo)),
        length: TextSize(
            if saturate(hi) >= saturate(lo) {
                (saturate(hi) - saturate(lo)) as u32
            } else {
                0
            },
        ),
    }
}

/// The digits a numeric literal may be written in.
#[derive(Clone, Copy, PartialEq, Eq, Structural)]
pub enum Base {
    Binary,
    Octal,
    Decimal,
    Hex,
}

pub open spec fn is_digit_in(c: char, base: Base) -> bool {
    match base {
        Base::Binary => c == '0' || c == '1',
        Base::Octal => '0' <= c && c <= '7',
        Base::Decimal => is_ascii_digit_spec(c),
        Base::Hex => is_hex_digit_spec(c),
    }
}

fn is_digit(c: char, base: Base) -> (b: bool)
    ensures
        b == is_digit_in(c, base),
{
    match base {
        Base::Binary => is_binary_digit(c),
        Base::Octal => is_octal_digit(c),
        Base::Decimal => is_ascii_digit(c),
        Base::Hex => is_hex_digit(c),
    }
}

fn is_binary_digit(c: char) -> (b: bool)
    ensures
        b == is_digit_in(c, Base::Binary),
{
    c == '0' || c == '1'
}

fn is_octal_digit(c: char) -> (b: bool)
    ensures
        b == is_digit_in(c, Base::Octal),
{
    '0' <= c && c <= '7'
}

fn is_hex_digit(c: char) -> (b: bool)
    ensures
        b == is_digit_in(c, Base::Hex),
{
    is_ascii_hexdigit(c)
}

/// A run of digits with single underscores between them: it starts and ends
/// with a digit, and no two underscores touch.
pub open spec fn valid_digits(t: Seq<char>, base: Base) -> bool {
    &&& t.len() > 0
    &&& is_digit_in(t[0], base)
    &&& is_digit_in(t.last(), base)
    &&& forall|i: int| 0 <= i < t.len() ==> is_digit_in(#[trigger] t[i], base) || t[i] == '_'
    &&& forall|i: int| 0 <= i < t.len() - 1 && #[trigger] t[i] == '_' ==> t[i + 1] != '_'
}

/// The characters a run is made of, for the runs the lexer skips over.
#[derive(Clone, Copy, PartialEq, Eq, Structural)]
enum Run {
    Digits(Base),
    DigitsOrUnderscore(Base),
    IdentContinue,
    Whitespace,
    NotNewline,
}

spec fn in_run(c: char, run: Run) -> bool {
    match run {
        Run::Digits(base) => is_digit_in(c, base),
        Run::DigitsOrUnderscore(base) => is_digit_in(c, base) || c == '_',
        Run::IdentContinue => is_ident_continue_spec(c),
        Run::Whitespace => is_white_space(c),
        Run::NotNewline => c != '\n',
    }
}

fn run_has(c: char, run: Run) -> (b: bool)
    ensures
        b == in_run(c, run),
{
    match run {
        Run::Digits(base) => is_digit(c, base),
        Run::DigitsOrUnderscore(base) => is_digit(c, base) || c == '_',
        Run::IdentContinue => is_ident_continue(c),
        Run::Whitespace => is_whitespace(c),
        Run::NotNewline => c != '\n',
    }
}

/// Whether a digit run is well formed.
fn is_valid_digit_sequence(chars: &Vec<char>, from: usize, to: usize, base: Base) -> (b: bool)
    requires
        from <= to <= chars.len(),
    ensures
        b == valid_digits(chars@.subrange(from as int, to as int), base),
{
    let ghost t = chars@.subrange(from as int, to as int);
    if from == to {
        return false;
    }
    if !is_digit(chars[from], base) {
        return false;
    }
    let mut prev_underscore = false;
    let mut i = from + 1;
    while i < to
        invariant
            from < i <= to <= chars.len(),
            t == chars@.subrange(from as int, to as int),
            is_digit_in(t[0], base),
            forall|k: int| 0 <= k < i - from ==> is_digit_in(#[trigger] t[k], base) || t[k] == '_',
            forall|k: int| 0 <= k < i - from - 1 && #[trigger] t[k] == '_' ==> t[k + 1] != '_',
            prev_underscore == (t[i - from - 1] == '_'),
        decreases to - i,
    {
        let c = chars[i];
        if is_digit(c, base) {
            prev_underscore = false;
        } else if c == '_' {
            if prev_underscore {
                assert(t[i - from - 1] == '_' && t[i - from] == '_');
                return false;
            }
            prev_underscore = true;
        } else {
            assert(!(is_digit_in(t[i - from], base) || t[i - from] == '_'));
            return false;
        }
        i = i + 1;
    }
    !prev_underscore
}

fn keyword_kind(chars: &Vec<char>, from: usize, to: usize) -> (k: Option<Keyword>)
    requires
        from <= to <= chars.len(),
    ensures
        k == keyword_of(chars@.subrange(from as int, to as int)),
{
    let ghost t = chars@.subrange(from as int, to as int);
    if spells(chars, from, to, "bundle") {
        Some(Keyword::Bundle)
    } else if spells(chars, from, to, "module") {
        Some(Keyword::Module)
    } else if spells(chars, from, to, "end") {
        Some(Keyword::End)
    } else if spells(chars, from, to, "let") {
        Some(Keyword::Let)
    } else if spells(chars, from, to, "do") {
        Some(Keyword::Do)
    } else if spells(chars, from, to, "use") {
        Some(Keyword::Use)
    } else if spells(chars, from, to, "as") {
        Some(Keyword::As)
    } else if spells(chars, from, to, "in") {
        Some(Keyword::In)
    } else if spells(chars, from, to, "type") {
        Some(Keyword::Type)
    } else if spells(chars, from, to, "trait") {
        Some(Keyword::Trait)
    } else if spells(chars, from, to, "impl") {
        Some(Keyword::Impl)
    } else if spells(chars, from, to, "for") {
        Some(Keyword::For)
    } else if spells(chars, from, to, "where") {
        Some(Keyword::Where)
    } else if spells(chars, from, to, "fn") {
        Some(Keyword::Fn)
    } else if spells(chars, from, to, "if") {
        Some(Keyword::If)
    } else if spells(chars, from, to, "then") {
        Some(Keyword::Then)
    } else if spells(chars, from, to, "else") {
        Some(Keyword::Else)
    } else if spells(chars, from, to, "match") {
        Some(Keyword::Match)
    } else if spells(chars, from, to, "with") {
        Some(Keyword::With)
    } else if spells(chars, from, to, "wasm") {
        Some(Keyword::Wasm)
    } else if spells(chars, from, to, "root") {
        Some(Keyword::Root)
    } else if spells(chars, from, to, "true") {
        Some(Keyword::True)
    } else if spells(chars, from, to, "false") {
        Some(Keyword::False)
    } else if spells(chars, from, to, "mod") {
        Some(Keyword::Mod)
    } else if spells(chars, from, to, "xor") {
        Some(Keyword::Xor)
    } else if spells(chars, from, to, "or") {
        Some(Keyword::Or)
    } else if spells(chars, from, to, "and") {
        Some(Keyword::And)
    } else if spells(chars, from, to, "not") {
        Some(Keyword::Not)
    } else {
        None
    }
}

/// Whether the characters `from..to`, trimmed, are an operator spelling.
fn is_operator_like_bracketed_identifier(chars: &Vec<char>, from: usize, to: usize) -> (b: bool)
    requires
        from <= to <= chars.len(),
    ensures
        b == operator_like(chars@.subrange(from as int, to as int)),
{
    let ghost t = chars@.subrange(from as int, to as int);
    let mut a = from;
    while a < to && is_whitespace(chars[a])
        invariant
            from <= a <= to <= chars.len(),
            t == chars@.subrange(from as int, to as int),
            trim_start(t) == trim_start(chars@.subrange(a as int, to as int)),
        decreases to - a,
    {
        assert(chars@.subrange(a as int, to as int).drop_first() =~= chars@.subrange(
            a + 1,
            to as int,
        ));
        a = a + 1;
    }
    let mut b = to;
    while b > a && is_whitespace(chars[b - 1])
        invariant
            from <= a <= b <= to <= chars.len(),
            trim(t) == trim_end(chars@.subrange(a as int, b as int)),
        decreases b - a,
    {
        assert(chars@.subrange(a as int, b as int).drop_last() =~= chars@.subrange(
            a as int,
            b - 1,
        ));
        b = b - 1;
    }
    spells(chars, a, b, "+") || spells(chars, a, b, "-") || spells(chars, a, b, "*") || spells(
        chars,
        a,
        b,
        "/",
    ) || spells(chars, a, b, "mod") || spells(chars, a, b, "xor") || spells(chars, a, b, "or")
        || spells(chars, a, b, "and") || spells(chars, a, b, "not") || spells(chars, a, b, "~")
        || spells(chars, a, b, ">>") || spells(chars, a, b, "<<") || spells(chars, a, b, "|>")
        || spells(chars, a, b, "+>") || spells(chars, a, b, "*>") || spells(chars, a, b, ";")
        || spells(chars, a, b, "==") || spells(chars, a, b, "!=") || spells(chars, a, b, "<")
        || spells(chars, a, b, "<=") || spells(chars, a, b, ">") || spells(chars, a, b, ">=")
}

/// The token a character makes on its own, if it makes one.
pub open spec fn single_kind(c: char) -> Option<TokenKind> {
    if c == '+' {
        Some(TokenKind::Operator(Operator::Plus))
    } else if c == '-' {
        Some(TokenKind::Operator(Operator::Minus))
    } else if c == '*' {
        Some(TokenKind::Operator(Operator::Star))
    } else if c == '/' {
        Some(TokenKind::Operator(Operator::Slash))
    } else if c == '<' {
        Some(TokenKind::Operator(Operator::Less))
    } else if c == '>' {
        Some(TokenKind::Operator(Operator::Greater))
    } else if c == ';' {
        Some(TokenKind::Operator(Operator::Semicolon))
    } else if c == '(' {
        Some(TokenKind::Punct(Punct::LParen))
    } else if c == ')' {
        Some(TokenKind::Punct(Punct::RParen))
    } else if c == '{' {
        Some(TokenKind::Punct(Punct::LBrace))
    } else if c == '}' {
        Some(TokenKind::Punct(Punct::RBrace))
    } else if c == '[' {
        Some(TokenKind::Punct(Punct::LBracket))
    } else if c == ']' {
        Some(TokenKind::Punct(Punct::RBracket))
    } else if c == ',' {
        Some(TokenKind::Punct(Punct::Comma))
    } else if c == ':' {
        Some(TokenKind::Punct(Punct::Colon))
    } else if c == '.' {
        Some(TokenKind::Punct(Punct::Dot))
    } else if c == '|' {
        Some(TokenKind::Punct(Punct::Pipe))
    } else if c == '=' {
        Some(TokenKind::Punct(Punct::Equals))
    } else if c == '~' {
        Some(TokenKind::Punct(Punct::Tilde))
    } else if c == '$' {
        Some(TokenKind::Punct(Punct::Dollar))
    } else {
        None
    }
}

fn single_char_token_kind(c: char) -> (k: Option<TokenKind>)
    ensures
        k == single_kind(c),
        k matches Some(kind) ==> fits(kind, seq![c]),
{
    if c == '+' {
        Some(TokenKind::Operator(Operator::Plus))
    } else if c == '-' {
        Some(TokenKind::Operator(Operator::Minus))
    } else if c == '*' {
        Some(TokenKind::Operator(Operator::Star))
    } else if c == '/' {
        Some(TokenKind::Operator(Operator::Slash))
    } else if c == '<' {
        Some(TokenKind::Operator(Operator::Less))
    } else if c == '>' {
        Some(TokenKind::Operator(Operator::Greater))
    } else if c == ';' {
        Some(TokenKind::Operator(Operator::Semicolon))
    } else if c == '(' {
        Some(TokenKind::Punct(Punct::LParen))
    } else if c == ')' {
        Some(TokenKind::Punct(Punct::RParen))
    } else if c == '{' {
        Some(TokenKind::Punct(Punct::LBrace))
    } else if c == '}' {
        Some(TokenKind::Punct(Punct::RBrace))
    } else if c == '[' {
        Some(TokenKind::Punct(Punct::LBracket))
    } else if c == ']' {
        Some(TokenKind::Punct(Punct::RBracket))
    } else if c == ',' {
        Some(TokenKind::Punct(Punct::Comma))
    } else if c == ':' {
        Some(TokenKind::Punct(Punct::Colon))
    } else if c == '.' {
        Some(TokenKind::Punct(Punct::Dot))
    } else if c == '|' {
        Some(TokenKind::Punct(Punct::Pipe))
    } else if c == '=' {
        Some(TokenKind::Punct(Punct::Equals))
    } else if c == '~' {
        Some(TokenKind::Punct(Punct::Tilde))
    } else if c == '$' {
        Some(TokenKind::Punct(Punct::Dollar))
    } else {
        None
    }
}

/// The operator two characters make together, if they make one; longer
/// spellings win over their one-character prefixes.
pub open spec fn double_kind(a: char, b: char) -> Option<Operator> {
    if a == ':' && b == ':' {
        Some(Operator::PathSep)
    } else if a == '.' && b == '.' {
        Some(Operator::Spread)
    } else if a == '=' && b == '>' {
        Some(Operator::FatArrow)
    } else if a == '-' && b == '>' {
        Some(Operator::Arrow)
    } else if a == '=' && b == '=' {
        Some(Operator::EqualEqual)
    } else if a == '!' && b == '=' {
        Some(Operator::BangEqual)
    } else if a == '<' && b == '=' {
        Some(Operator::LessEqual)
    } else if a == '>' && b == '=' {
        Some(Operator::GreaterEqual)
    } else if a == '<' && b == '<' {
        Some(Operator::ComposeLeft)
    } else if a == '>' && b == '>' {
        Some(Operator::ComposeRight)
    } else if a == '|' && b == '>' {
        Some(Operator::PipeRight)
    } else if a == '+' && b == '>' {
        Some(Operator::PlusPipe)
    } else if a == '*' && b == '>' {
        Some(Operator::StarPipe)
    } else {
        None
    }
}

fn double_char_operator(a: char, b: char) -> (op: Option<Operator>)
    ensures
        op == double_kind(a, b),
        op matches Some(o) ==> operator_text(o) == seq![a, b],
{
    if a == ':' && b == ':' {
        Some(Operator::PathSep)
    } else if a == '.' && b == '.' {
        Some(Operator::Spread)
    } else if a == '=' && b == '>' {
        Some(Operator::FatArrow)
    } else if a == '-' && b == '>' {
        Some(Operator::Arrow)
    } else if a == '=' && b == '=' {
        Some(Operator::EqualEqual)
    } else if a == '!' && b == '=' {
        Some(Operator::BangEqual)
    } else if a == '<' && b == '=' {
        Some(Operator::LessEqual)
    } else if a == '>' && b == '=' {
        Some(Operator::GreaterEqual)
    } else if a == '<' && b == '<' {
        Some(Operator::ComposeLeft)
    } else if a == '>' && b == '>' {
        Some(Operator::ComposeRight)
    } else if a == '|' && b == '>' {
        Some(Operator::PipeRight)
    } else if a == '+' && b == '>' {
        Some(Operator::PlusPipe)
    } else if a == '*' && b == '>' {
        Some(Operator::StarPipe)
    } else {
        None
    }
}


/// A token that sits on the characters `span.0..span.1` of `s`, before
/// `limit`, with the byte range those characters have and a text its kind
/// allows.
pub open spec fn span_ok(source: Source, s: Seq<char>, tok: Token, span: (int, int), limit: int) -> bool {
    &&& 0 <= span.0 < span.1 <= limit
    &&& tok.range == bounds_range(
        source,
        byte_offset(s, span.0) as int,
        byte_offset(s, span.1) as int,
    )
    &&& fits(tok.kind, s.subrange(span.0, span.1))
    &&& tok.kind != TokenKind::EndOfFile
}

/// Tokens on disjoint character spans, in the order of the text.
pub open spec fn spans_ok(
    source: Source,
    s: Seq<char>,
    toks: Seq<Token>,
    spans: Seq<(int, int)>,
    limit: int,
) -> bool {
    &&& spans.len() == toks.len()
    &&& forall|i: int|
        0 <= i < toks.len() ==> #[trigger] span_ok(source, s, toks[i], spans[i], limit)
    &&& forall|i: int, j: int|
        0 <= i < j < toks.len() ==> #[trigger] spans[i].1 <= #[trigger] spans[j].0
}

pub open spec fn has_error(toks: Seq<Token>) -> bool {
    exists|i: int| 0 <= i < toks.len() && #[trigger] toks[i].kind == TokenKind::Error
}

/// What the lexer promises of its output for a text: tokens on disjoint,
/// ordered, nonempty spans of the text, each with the byte range of its span
/// and a text its kind allows, then one end-of-file token at the end of the
/// text; and a diagnostic wherever an error token was made.
pub open spec fn lexed(
    source: Source,
    s: Seq<char>,
    tokens: Seq<Token>,
    diagnostics: Seq<Diagnostic>,
) -> bool {
    &&& tokens.len() >= 1
    &&& tokens.last() == (Token {
        kind: TokenKind::EndOfFile,
        range: TextRange::Located {
            source,
            start: TextSize(saturate(utf8_len(s) as int)),
            length: TextSize(0),
        },
    })
    &&& exists|spans: Seq<(int, int)>| spans_ok(source, s, tokens.drop_last(), spans, s.len() as int)
    &&& kinds(tokens.drop_last()) == tokenize(s, 0)
    &&& diagnostics.len() > 0 <==> has_error(tokens) || comment_open(s, 0)
}

proof fn lemma_spans_widen(source: Source, s: Seq<char>, toks: Seq<Token>, spans: Seq<(int, int)>, a: int, b: int)
    requires
        spans_ok(source, s, toks, spans, a),
        a <= b,
    ensures
        spans_ok(source, s, toks, spans, b),
{
    assert forall|i: int| 0 <= i < toks.len() implies #[trigger] span_ok(source, s, toks[i], spans[i], b) by {
        assert(span_ok(source, s, toks[i], spans[i], a));
    }
}

proof fn lemma_string_body(pre: Seq<char>, s: Seq<char>)
    ensures
        string_from(pre + quoted_text(s) + seq!['"'], pre.len() as int, false) == (
            (pre + quoted_text(s)).len() + 1int,
            false,
        ),
    decreases s.len(),
{
    let t = pre + quoted_text(s) + seq!['"'];
    let i = pre.len() as int;
    if s.len() == 0 {
        assert(t[i] == '"');
    } else {
        let c = s[0];
        let rest = s.drop_first();
        let q = quoted_char(c);
        assert(quoted_text(s) == q + quoted_text(rest));
        assert(t =~= (pre + q) + quoted_text(rest) + seq!['"']);
        assert((pre + quoted_text(s)) =~= (pre + q) + quoted_text(rest));
        lemma_string_body(pre + q, rest);
        assert(t[i] == q[0]);
        if q.len() == 2 {
            assert(t[i + 1] == q[1]);
            assert(escape(t, i + 1) == (i + 2, true));
        }
    }
}

/// A string literal written from any text, each quote, backslash and
/// control character escaped, lexes as one string literal; a glyph literal
/// written from any one character lexes as one glyph literal.
pub proof fn lemma_quoted_literals(s: Seq<char>, c: char)
    ensures
        lexeme(seq!['"'] + quoted_text(s) + seq!['"'], 0) == (
            quoted_text(s).len() + 2int,
            TokenKind::StringLiteral,
        ),
        lexeme(seq!['\''] + quoted_char(c) + seq!['\''], 0) == (
            quoted_char(c).len() + 2int,
            TokenKind::GlyphLiteral,
        ),
{
    lemma_string_body(seq!['"'], s);
    let t = seq!['"'] + quoted_text(s) + seq!['"'];
    assert(t[0] == '"');
    let g = seq!['\''] + quoted_char(c) + seq!['\''];
    let q = quoted_char(c);
    assert(g[0] == '\'');
    assert(g[1] == q[0]);
    if q.len() == 2 {
        assert(g[2] == q[1]);
        assert(escape(g, 2) == (3int, true));
        assert(glyph_from(g, 3, 1, false) == (4int, false));
    } else {
        assert(glyph_from(g, 2, 1, false) == (3int, false));
    }
}

/// A run of decimal digits lexes as one integer literal, with an `n` after
/// it as one natural literal, and with a point and more digits as one real
/// literal.
pub proof fn lemma_number_spellings(d: Seq<char>, e: Seq<char>)
    requires
        d.len() > 0,
        e.len() > 0,
        forall|i: int| 0 <= i < d.len() ==> is_ascii_digit_spec(#[trigger] d[i]),
        forall|i: int| 0 <= i < e.len() ==> is_ascii_digit_spec(#[trigger] e[i]),
    ensures
        lexeme(d, 0) == (d.len() as int, TokenKind::IntegerLiteral),
        lexeme(d + seq!['n'], 0) == (d.len() + 1int, TokenKind::NaturalLiteral),
        lexeme(d + seq!['.'] + e, 0) == (d.len() + e.len() + 1int, TokenKind::RealLiteral),
{
    let n = d.len() as int;
    assert(valid_digits(d, Base::Decimal));
    assert(valid_digits(e, Base::Decimal));
    lemma_digits_run(d, 0, n, Base::Decimal);
    assert(d.subrange(0, n) =~= d);
    let s1 = d + seq!['n'];
    lemma_digits_run(s1, 0, n, Base::Decimal);
    assert(s1.subrange(0, n) =~= d);
    assert(s1[n] == 'n');
    let s2 = d + seq!['.'] + e;
    lemma_digits_run(s2, 0, n, Base::Decimal);
    assert(s2.subrange(0, n) =~= d);
    assert(s2[n] == '.');
    assert(s2[n + 1] == e[0]);
    lemma_digits_run(s2, n + 1, s2.len() as int, Base::Decimal);
    assert(s2.subrange(n + 1, s2.len() as int) =~= e);
}

/// A text of whitespace alone has no tokens.
pub proof fn lemma_blank_text(s: Seq<char>)
    requires
        forall|i: int| 0 <= i < s.len() ==> is_white_space(#[trigger] s[i]),
    ensures
        tokenize(s, 0) == Seq::<TokenKind>::empty(),
{
    lemma_trivia_space(s, 0, s.len() as int);
}

/// A word that starts as an identifier, continues as one and is no
/// keyword lexes as one identifier; a keyword's spelling lexes as that
/// keyword.
pub proof fn lemma_word_spellings(w: Seq<char>)
    requires
        w.len() > 0,
        is_ident_start_spec(w[0]),
        forall|i: int| 0 <= i < w.len() ==> is_ident_continue_spec(#[trigger] w[i]),
    ensures
        keyword_of(w) is None ==> lexeme(w, 0) == (w.len() as int, TokenKind::Ident),
        keyword_of(w) matches Some(k) ==> lexeme(w, 0) == (w.len() as int, TokenKind::Keyword(k)),
{
    lemma_ident_tail_run(w, 1, w.len() as int);
    assert(w.subrange(0, w.len() as int) =~= w);
}

/// A text that spells an operator or a punctuation mark lexes as that
/// token, the whole text long: longer spellings win over their prefixes.
pub proof fn lemma_symbol_spellings(op: Operator, p: Punct)
    ensures
        lexeme(operator_text(op), 0) == (operator_text(op).len() as int, TokenKind::Operator(op)),
        lexeme(punct_text(p), 0) == (1int, TokenKind::Punct(p)),
{
}

/// Every keyword lexes as its keyword, except `import`, which the lexer
/// leaves an identifier; and a word lexes as a keyword only when it is that
/// keyword's spelling.
#[verifier::rlimit(60)]
#[verifier::spinoff_prover]
pub proof fn lemma_keyword_spellings(k: Keyword, t: Seq<char>)
    ensures
        k != Keyword::Import ==> keyword_of(keyword_text(k)) == Some(k),
        keyword_of(keyword_text(Keyword::Import)) is None,
        keyword_of(t) == Some(k) ==> keyword_text(k) == t,
{
    reveal_strlit("bundle");
    reveal_strlit("module");
    reveal_strlit("end");
    reveal_strlit("let");
    reveal_strlit("do");
    reveal_strlit("use");
    reveal_strlit("as");
    reveal_strlit("in");
    reveal_strlit("type");
    reveal_strlit("trait");
    reveal_strlit("impl");
    reveal_strlit("for");
    reveal_strlit("where");
    reveal_strlit("fn");
    reveal_strlit("if");
    reveal_strlit("then");
    reveal_strlit("else");
    reveal_strlit("match");
    reveal_strlit("with");
    reveal_strlit("wasm");
    reveal_strlit("root");
    reveal_strlit("true");
    reveal_strlit("false");
    reveal_strlit("mod");
    reveal_strlit("xor");
    reveal_strlit("or");
    reveal_strlit("and");
    reveal_strlit("not");
    reveal_strlit("import");
    assert("bundle"@[0] != "module"@[0]);
    assert("bundle"@[0] != "end"@[0]);
    assert("bundle"@[0] != "let"@[0]);
    assert("bundle"@[0] != "do"@[0]);
    assert("bundle"@[0] != "use"@[0]);
    assert("bundle"@[0] != "as"@[0]);
    assert("bundle"@[0] != "in"@[0]);
    assert("bundle"@[0] != "type"@[0]);
    assert("bundle"@[0] != "trait"@[0]);
    assert("bundle"@[0] != "impl"@[0]);
    assert("bundle"@[0] != "for"@[0]);
    assert("bundle"@[0] != "where"@[0]);
    assert("bundle"@[0] != "fn"@[0]);
    assert("bundle"@[0] != "if"@[0]);
    assert("bundle"@[0] != "then"@[0]);
    assert("bundle"@[0] != "else"@[0]);
    assert("bundle"@[0] != "match"@[0]);
    assert("bundle"@[0] != "with"@[0]);
    assert("bundle"@[0] != "wasm"@[0]);
    assert("bundle"@[0] != "root"@[0]);
    assert("bundle"@[0] != "true"@[0]);
    assert("bundle"@[0] != "false"@[0]);
    assert("bundle"@[0] != "mod"@[0]);
    assert("bundle"@[0] != "xor"@[0]);
    assert("bundle"@[0] != "or"@[0]);
    assert("bundle"@[0] != "and"@[0]);
    assert("bundle"@[0] != "not"@[0]);
    assert("bundle"@[0] != "import"@[0]);
    assert("module"@[0] != "end"@[0]);
    assert("module"@[0] != "let"@[0]);
    assert("module"@[0] != "do"@[0]);
    assert("module"@[0] != "use"@[0]);
    assert("module"@[0] != "as"@[0]);
    assert("module"@[0] != "in"@[0]);
    assert("module"@[0] != "type"@[0]);
    assert("module"@[0] != "trait"@[0]);
    assert("module"@[0] != "impl"@[0]);
    assert("module"@[0] != "for"@[0]);
    assert("module"@[0] != "where"@[0]);
    assert("module"@[0] != "fn"@[0]);
    assert("module"@[0] != "if"@[0]);
    assert("module"@[0] != "then"@[0]);
    assert("module"@[0] != "else"@[0]);
    assert("module"@[1] != "match"@[1]);
    assert("module"@[0] != "with"@[0]);
    assert("module"@[0] != "wasm"@[0]);
    assert("module"@[0] != "root"@[0]);
    assert("module"@[0] != "true"@[0]);
    assert("module"@[0] != "false"@[0]);
    assert("module"@.len() != "mod"@.len());
    assert("module"@[0] != "xor"@[0]);
    assert("module"@[0] != "or"@[0]);
    assert("module"@[0] != "and"@[0]);
    assert("module"@[0] != "not"@[0]);
    assert("module"@[0] != "import"@[0]);
    assert("end"@[0] != "let"@[0]);
    assert("end"@[0] != "do"@[0]);
    assert("end"@[0] != "use"@[0]);
    assert("end"@[0] != "as"@[0]);
    assert("end"@[0] != "in"@[0]);
    assert("end"@[0] != "type"@[0]);
    assert("end"@[0] != "trait"@[0]);
    assert("end"@[0] != "impl"@[0]);
    assert("end"@[0] != "for"@[0]);
    assert("end"@[0] != "where"@[0]);
    assert("end"@[0] != "fn"@[0]);
    assert("end"@[0] != "if"@[0]);
    assert("end"@[0] != "then"@[0]);
    assert("end"@[1] != "else"@[1]);
    assert("end"@[0] != "match"@[0]);
    assert("end"@[0] != "with"@[0]);
    assert("end"@[0] != "wasm"@[0]);
    assert("end"@[0] != "root"@[0]);
    assert("end"@[0] != "true"@[0]);
    assert("end"@[0] != "false"@[0]);
    assert("end"@[0] != "mod"@[0]);
    assert("end"@[0] != "xor"@[0]);
    assert("end"@[0] != "or"@[0]);
    assert("end"@[0] != "and"@[0]);
    assert("end"@[0] != "not"@[0]);
    assert("end"@[0] != "import"@[0]);
    assert("let"@[0] != "do"@[0]);
    assert("let"@[0] != "use"@[0]);
    assert("let"@[0] != "as"@[0]);
    assert("let"@[0] != "in"@[0]);
    assert("let"@[0] != "type"@[0]);
    assert("let"@[0] != "trait"@[0]);
    assert("let"@[0] != "impl"@[0]);
    assert("let"@[0] != "for"@[0]);
    assert("let"@[0] != "where"@[0]);
    assert("let"@[0] != "fn"@[0]);
    assert("let"@[0] != "if"@[0]);
    assert("let"@[0] != "then"@[0]);
    assert("let"@[0] != "else"@[0]);
    assert("let"@[0] != "match"@[0]);
    assert("let"@[0] != "with"@[0]);
    assert("let"@[0] != "wasm"@[0]);
    assert("let"@[0] != "root"@[0]);
    assert("let"@[0] != "true"@[0]);
    assert("let"@[0] != "false"@[0]);
    assert("let"@[0] != "mod"@[0]);
    assert("let"@[0] != "xor"@[0]);
    assert("let"@[0] != "or"@[0]);
    assert("let"@[0] != "and"@[0]);
    assert("let"@[0] != "not"@[0]);
    assert("let"@[0] != "import"@[0]);
    assert("do"@[0] != "use"@[0]);
    assert("do"@[0] != "as"@[0]);
    assert("do"@[0] != "in"@[0]);
    assert("do"@[0] != "type"@[0]);
    assert("do"@[0] != "trait"@[0]);
    assert("do"@[0] != "impl"@[0]);
    assert("do"@[0] != "for"@[0]);
    assert("do"@[0] != "where"@[0]);
    assert("do"@[0] != "fn"@[0]);
    assert("do"@[0] != "if"@[0]);
    assert("do"@[0] != "then"@[0]);
    assert("do"@[0] != "else"@[0]);
    assert("do"@[0] != "match"@[0]);
    assert("do"@[0] != "with"@[0]);
    assert("do"@[0] != "wasm"@[0]);
    assert("do"@[0] != "root"@[0]);
    assert("do"@[0] != "true"@[0]);
    assert("do"@[0] != "false"@[0]);
    assert("do"@[0] != "mod"@[0]);
    assert("do"@[0] != "xor"@[0]);
    assert("do"@[0] != "or"@[0]);
    assert("do"@[0] != "and"@[0]);
    assert("do"@[0] != "not"@[0]);
    assert("do"@[0] != "import"@[0]);
    assert("use"@[0] != "as"@[0]);
    assert("use"@[0] != "in"@[0]);
    assert("use"@[0] != "type"@[0]);
    assert("use"@[0] != "trait"@[0]);
    assert("use"@[0] != "impl"@[0]);
    assert("use"@[0] != "for"@[0]);
    assert("use"@[0] != "where"@[0]);
    assert("use"@[0] != "fn"@[0]);
    assert("use"@[0] != "if"@[0]);
    assert("use"@[0] != "then"@[0]);
    assert("use"@[0] != "else"@[0]);
    assert("use"@[0] != "match"@[0]);
    assert("use"@[0] != "with"@[0]);
    assert("use"@[0] != "wasm"@[0]);
    assert("use"@[0] != "root"@[0]);
    assert("use"@[0] != "true"@[0]);
    assert("use"@[0] != "false"@[0]);
    assert("use"@[0] != "mod"@[0]);
    assert("use"@[0] != "xor"@[0]);
    assert("use"@[0] != "or"@[0]);
    assert("use"@[0] != "and"@[0]);
    assert("use"@[0] != "not"@[0]);
    assert("use"@[0] != "import"@[0]);
    assert("as"@[0] != "in"@[0]);
    assert("as"@[0] != "type"@[0]);
    assert("as"@[0] != "trait"@[0]);
    assert("as"@[0] != "impl"@[0]);
    assert("as"@[0] != "for"@[0]);
    assert("as"@[0] != "where"@[0]);
    assert("as"@[0] != "fn"@[0]);
    assert("as"@[0] != "if"@[0]);
    assert("as"@[0] != "then"@[0]);
    assert("as"@[0] != "else"@[0]);
    assert("as"@[0] != "match"@[0]);
    assert("as"@[0] != "with"@[0]);
    assert("as"@[0] != "wasm"@[0]);
    assert("as"@[0] != "root"@[0]);
    assert("as"@[0] != "true"@[0]);
    assert("as"@[0] != "false"@[0]);
    assert("as"@[0] != "mod"@[0]);
    assert("as"@[0] != "xor"@[0]);
    assert("as"@[0] != "or"@[0]);
    assert("as"@[1] != "and"@[1]);
    assert("as"@[0] != "not"@[0]);
    assert("as"@[0] != "import"@[0]);
    assert("in"@[0] != "type"@[0]);
    assert("in"@[0] != "trait"@[0]);
    assert("in"@[1] != "impl"@[1]);
    assert("in"@[0] != "for"@[0]);
    assert("in"@[0] != "where"@[0]);
    assert("in"@[0] != "fn"@[0]);
    assert("in"@[1] != "if"@[1]);
    assert("in"@[0] != "then"@[0]);
    assert("in"@[0] != "else"@[0]);
    assert("in"@[0] != "match"@[0]);
    assert("in"@[0] != "with"@[0]);
    assert("in"@[0] != "wasm"@[0]);
    assert("in"@[0] != "root"@[0]);
    assert("in"@[0] != "true"@[0]);
    assert("in"@[0] != "false"@[0]);
    assert("in"@[0] != "mod"@[0]);
    assert("in"@[0] != "xor"@[0]);
    assert("in"@[0] != "or"@[0]);
    assert("in"@[0] != "and"@[0]);
    assert("in"@[0] != "not"@[0]);
    assert("in"@[1] != "import"@[1]);
    assert("type"@[1] != "trait"@[1]);
    assert("type"@[0] != "impl"@[0]);
    assert("type"@[0] != "for"@[0]);
    assert("type"@[0] != "where"@[0]);
    assert("type"@[0] != "fn"@[0]);
    assert("type"@[0] != "if"@[0]);
    assert("type"@[1] != "then"@[1]);
    assert("type"@[0] != "else"@[0]);
    assert("type"@[0] != "match"@[0]);
    assert("type"@[0] != "with"@[0]);
    assert("type"@[0] != "wasm"@[0]);
    assert("type"@[0] != "root"@[0]);
    assert("type"@[1] != "true"@[1]);
    assert("type"@[0] != "false"@[0]);
    assert("type"@[0] != "mod"@[0]);
    assert("type"@[0] != "xor"@[0]);
    assert("type"@[0] != "or"@[0]);
    assert("type"@[0] != "and"@[0]);
    assert("type"@[0] != "not"@[0]);
    assert("type"@[0] != "import"@[0]);
    assert("trait"@[0] != "impl"@[0]);
    assert("trait"@[0] != "for"@[0]);
    assert("trait"@[0] != "where"@[0]);
    assert("trait"@[0] != "fn"@[0]);
    assert("trait"@[0] != "if"@[0]);
    assert("trait"@[1] != "then"@[1]);
    assert("trait"@[0] != "else"@[0]);
    assert("trait"@[0] != "match"@[0]);
    assert("trait"@[0] != "with"@[0]);
    assert("trait"@[0] != "wasm"@[0]);
    assert("trait"@[0] != "root"@[0]);
    assert("trait"@[2] != "true"@[2]);
    assert("trait"@[0] != "false"@[0]);
    assert("trait"@[0] != "mod"@[0]);
    assert("trait"@[0] != "xor"@[0]);
    assert("trait"@[0] != "or"@[0]);
    assert("trait"@[0] != "and"@[0]);
    assert("trait"@[0] != "not"@[0]);
    assert("trait"@[0] != "import"@[0]);
    assert("impl"@[0] != "for"@[0]);
    assert("impl"@[0] != "where"@[0]);
    assert("impl"@[0] != "fn"@[0]);
    assert("impl"@[1] != "if"@[1]);
    assert("impl"@[0] != "then"@[0]);
    assert("impl"@[0] != "else"@[0]);
    assert("impl"@[0] != "match"@[0]);
    assert("impl"@[0] != "with"@[0]);
    assert("impl"@[0] != "wasm"@[0]);
    assert("impl"@[0] != "root"@[0]);
    assert("impl"@[0] != "true"@[0]);
    assert("impl"@[0] != "false"@[0]);
    assert("impl"@[0] != "mod"@[0]);
    assert("impl"@[0] != "xor"@[0]);
    assert("impl"@[0] != "or"@[0]);
    assert("impl"@[0] != "and"@[0]);
    assert("impl"@[0] != "not"@[0]);
    assert("impl"@[3] != "import"@[3]);
    assert("for"@[0] != "where"@[0]);
    assert("for"@[1] != "fn"@[1]);
    assert("for"@[0] != "if"@[0]);
    assert("for"@[0] != "then"@[0]);
    assert("for"@[0] != "else"@[0]);
    assert("for"@[0] != "match"@[0]);
    assert("for"@[0] != "with"@[0]);
    assert("for"@[0] != "wasm"@[0]);
    assert("for"@[0] != "root"@[0]);
    assert("for"@[0] != "true"@[0]);
    assert("for"@[1] != "false"@[1]);
    assert("for"@[0] != "mod"@[0]);
    assert("for"@[0] != "xor"@[0]);
    assert("for"@[0] != "or"@[0]);
    assert("for"@[0] != "and"@[0]);
    assert("for"@[0] != "not"@[0]);
    assert("for"@[0] != "import"@[0]);
    assert("where"@[0] != "fn"@[0]);
    assert("where"@[0] != "if"@[0]);
    assert("where"@[0] != "then"@[0]);
    assert("where"@[0] != "else"@[0]);
    assert("where"@[0] != "match"@[0]);
    assert("where"@[1] != "with"@[1]);
    assert("where"@[1] != "wasm"@[1]);
    assert("where"@[0] != "root"@[0]);
    assert("where"@[0] != "true"@[0]);
    assert("where"@[0] != "false"@[0]);
    assert("where"@[0] != "mod"@[0]);
    assert("where"@[0] != "xor"@[0]);
    assert("where"@[0] != "or"@[0]);
    assert("where"@[0] != "and"@[0]);
    assert("where"@[0] != "not"@[0]);
    assert("where"@[0] != "import"@[0]);
    assert("fn"@[0] != "if"@[0]);
    assert("fn"@[0] != "then"@[0]);
    assert("fn"@[0] != "else"@[0]);
    assert("fn"@[0] != "match"@[0]);
    assert("fn"@[0] != "with"@[0]);
    assert("fn"@[0] != "wasm"@[0]);
    assert("fn"@[0] != "root"@[0]);
    assert("fn"@[0] != "true"@[0]);
    assert("fn"@[1] != "false"@[1]);
    assert("fn"@[0] != "mod"@[0]);
    assert("fn"@[0] != "xor"@[0]);
    assert("fn"@[0] != "or"@[0]);
    assert("fn"@[0] != "and"@[0]);
    assert("fn"@[0] != "not"@[0]);
    assert("fn"@[0] != "import"@[0]);
    assert("if"@[0] != "then"@[0]);
    assert("if"@[0] != "else"@[0]);
    assert("if"@[0] != "match"@[0]);
    assert("if"@[0] != "with"@[0]);
    assert("if"@[0] != "wasm"@[0]);
    assert("if"@[0] != "root"@[0]);
    assert("if"@[0] != "true"@[0]);
    assert("if"@[0] != "false"@[0]);
    assert("if"@[0] != "mod"@[0]);
    assert("if"@[0] != "xor"@[0]);
    assert("if"@[0] != "or"@[0]);
    assert("if"@[0] != "and"@[0]);
    assert("if"@[0] != "not"@[0]);
    assert("if"@[1] != "import"@[1]);
    assert("then"@[0] != "else"@[0]);
    assert("then"@[0] != "match"@[0]);
    assert("then"@[0] != "with"@[0]);
    assert("then"@[0] != "wasm"@[0]);
    assert("then"@[0] != "root"@[0]);
    assert("then"@[1] != "true"@[1]);
    assert("then"@[0] != "false"@[0]);
    assert("then"@[0] != "mod"@[0]);
    assert("then"@[0] != "xor"@[0]);
    assert("then"@[0] != "or"@[0]);
    assert("then"@[0] != "and"@[0]);
    assert("then"@[0] != "not"@[0]);
    assert("then"@[0] != "import"@[0]);
    assert("else"@[0] != "match"@[0]);
    assert("else"@[0] != "with"@[0]);
    assert("else"@[0] != "wasm"@[0]);
    assert("else"@[0] != "root"@[0]);
    assert("else"@[0] != "true"@[0]);
    assert("else"@[0] != "false"@[0]);
    assert("else"@[0] != "mod"@[0]);
    assert("else"@[0] != "xor"@[0]);
    assert("else"@[0] != "or"@[0]);
    assert("else"@[0] != "and"@[0]);
    assert("else"@[0] != "not"@[0]);
    assert("else"@[0] != "import"@[0]);
    assert("match"@[0] != "with"@[0]);
    assert("match"@[0] != "wasm"@[0]);
    assert("match"@[0] != "root"@[0]);
    assert("match"@[0] != "true"@[0]);
    assert("match"@[0] != "false"@[0]);
    assert("match"@[1] != "mod"@[1]);
    assert("match"@[0] != "xor"@[0]);
    assert("match"@[0] != "or"@[0]);
    assert("match"@[0] != "and"@[0]);
    assert("match"@[0] != "not"@[0]);
    assert("match"@[0] != "import"@[0]);
    assert("with"@[1] != "wasm"@[1]);
    assert("with"@[0] != "root"@[0]);
    assert("with"@[0] != "true"@[0]);
    assert("with"@[0] != "false"@[0]);
    assert("with"@[0] != "mod"@[0]);
    assert("with"@[0] != "xor"@[0]);
    assert("with"@[0] != "or"@[0]);
    assert("with"@[0] != "and"@[0]);
    assert("with"@[0] != "not"@[0]);
    assert("with"@[0] != "import"@[0]);
    assert("wasm"@[0] != "root"@[0]);
    assert("wasm"@[0] != "true"@[0]);
    assert("wasm"@[0] != "false"@[0]);
    assert("wasm"@[0] != "mod"@[0]);
    assert("wasm"@[0] != "xor"@[0]);
    assert("wasm"@[0] != "or"@[0]);
    assert("wasm"@[0] != "and"@[0]);
    assert("wasm"@[0] != "not"@[0]);
    assert("wasm"@[0] != "import"@[0]);
    assert("root"@[0] != "true"@[0]);
    assert("root"@[0] != "false"@[0]);
    assert("root"@[0] != "mod"@[0]);
    assert("root"@[0] != "xor"@[0]);
    assert("root"@[0] != "or"@[0]);
    assert("root"@[0] != "and"@[0]);
    assert("root"@[0] != "not"@[0]);
    assert("root"@[0] != "import"@[0]);
    assert("true"@[0] != "false"@[0]);
    assert("true"@[0] != "mod"@[0]);
    assert("true"@[0] != "xor"@[0]);
    assert("true"@[0] != "or"@[0]);
    assert("true"@[0] != "and"@[0]);
    assert("true"@[0] != "not"@[0]);
    assert("true"@[0] != "import"@[0]);
    assert("false"@[0] != "mod"@[0]);
    assert("false"@[0] != "xor"@[0]);
    assert("false"@[0] != "or"@[0]);
    assert("false"@[0] != "and"@[0]);
    assert("false"@[0] != "not"@[0]);
    assert("false"@[0] != "import"@[0]);
    assert("mod"@[0] != "xor"@[0]);
    assert("mod"@[0] != "or"@[0]);
    assert("mod"@[0] != "and"@[0]);
    assert("mod"@[0] != "not"@[0]);
    assert("mod"@[0] != "import"@[0]);
    assert("xor"@[0] != "or"@[0]);
    assert("xor"@[0] != "and"@[0]);
    assert("xor"@[0] != "not"@[0]);
    assert("xor"@[0] != "import"@[0]);
    assert("or"@[0] != "and"@[0]);
    assert("or"@[0] != "not"@[0]);
    assert("or"@[0] != "import"@[0]);
    assert("and"@[0] != "not"@[0]);
    assert("and"@[0] != "import"@[0]);
    assert("not"@[0] != "import"@[0]);
    assert(keyword_of("bundle"@) == Some(Keyword::Bundle));
    assert(keyword_of("module"@) == Some(Keyword::Module));
    assert(keyword_of("end"@) == Some(Keyword::End));
    assert(keyword_of("let"@) == Some(Keyword::Let));
    assert(keyword_of("do"@) == Some(Keyword::Do));
    assert(keyword_of("use"@) == Some(Keyword::Use));
    assert(keyword_of("as"@) == Some(Keyword::As));
    assert(keyword_of("in"@) == Some(Keyword::In));
    assert(keyword_of("type"@) == Some(Keyword::Type));
    assert(keyword_of("trait"@) == Some(Keyword::Trait));
    assert(keyword_of("impl"@) == Some(Keyword::Impl));
    assert(keyword_of("for"@) == Some(Keyword::For));
    assert(keyword_of("where"@) == Some(Keyword::Where));
    assert(keyword_of("fn"@) == Some(Keyword::Fn));
    assert(keyword_of("if"@) == Some(Keyword::If));
    assert(keyword_of("then"@) == Some(Keyword::Then));
    assert(keyword_of("else"@) == Some(Keyword::Else));
    assert(keyword_of("match"@) == Some(Keyword::Match));
    assert(keyword_of("with"@) == Some(Keyword::With));
    assert(keyword_of("wasm"@) == Some(Keyword::Wasm));
    assert(keyword_of("root"@) == Some(Keyword::Root));
    assert(keyword_of("true"@) == Some(Keyword::True));
    assert(keyword_of("false"@) == Some(Keyword::False));
    assert(keyword_of("mod"@) == Some(Keyword::Mod));
    assert(keyword_of("xor"@) == Some(Keyword::Xor));
    assert(keyword_of("or"@) == Some(Keyword::Or));
    assert(keyword_of("and"@) == Some(Keyword::And));
    assert(keyword_of("not"@) == Some(Keyword::Not));
    assert(keyword_of("import"@) is None);
}

proof fn lemma_keyword_text(t: Seq<char>)
    requires
        keyword_of(t) is Some,
    ensures
        t == keyword_text(keyword_of(t)->0),
{
}

/// Where an identifier's tail that starts at `p` ends: continue
/// characters, and a `-` that joins another identifier start.
pub open spec fn ident_tail_end(s: Seq<char>, p: int) -> int
    decreases s.len() - p,
{
    if 0 <= p < s.len() && is_ident_continue_spec(s[p]) {
        ident_tail_end(s, p + 1)
    } else if 0 <= p && p + 1 < s.len() && s[p] == '-' && is_ident_start_spec(s[p + 1]) {
        ident_tail_end(s, p + 2)
    } else {
        p
    }
}

/// The `]` that closes a bracket whose inside starts at `k`, when it comes
/// before any line break.
pub open spec fn closing_bracket(s: Seq<char>, k: int) -> Option<int>
    decreases s.len() - k,
{
    if k < 0 || k >= s.len() {
        None
    } else if s[k] == ']' {
        Some(k)
    } else if s[k] == '\n' || s[k] == '\r' {
        None
    } else {
        closing_bracket(s, k + 1)
    }
}

/// Where the exponent's digits start, when an `e` or `E` at `p`, with an
/// optional sign, is followed by a digit.
pub open spec fn exponent_digits(s: Seq<char>, p: int) -> Option<int> {
    if 0 <= p < s.len() && (s[p] == 'e' || s[p] == 'E') {
        let q = if p + 1 < s.len() && (s[p + 1] == '+' || s[p + 1] == '-') {
            p + 2
        } else {
            p + 1
        };
        if q < s.len() && is_ascii_digit_spec(s[q]) {
            Some(q)
        } else {
            None
        }
    } else {
        None
    }
}

/// Where a run of hexadecimal digits that starts at `k` ends.
pub open spec fn hex_run_end(s: Seq<char>, k: int) -> int
    decreases s.len() - k,
{
    if 0 <= k < s.len() && is_hex_digit_spec(s[k]) {
        hex_run_end(s, k + 1)
    } else {
        k
    }
}

/// Where the braced part of a `\u` escape that starts at `p` ends, and
/// whether it names a Unicode scalar value.
pub open spec fn unicode_escape(s: Seq<char>, p: int) -> (int, bool) {
    if !(0 <= p < s.len() && s[p] == '{') {
        (p, false)
    } else {
        let e = hex_run_end(s, p + 1);
        if e == p + 1 {
            (e, false)
        } else if !(e < s.len() && s[e] == '}') {
            (e, false)
        } else {
            (e + 1, is_scalar_value(hex_value(s.subrange(p + 1, e))))
        }
    }
}

/// Where the escape after a backslash that starts at `p` ends, and whether
/// the language defines it.
pub open spec fn escape(s: Seq<char>, p: int) -> (int, bool) {
    if !(0 <= p < s.len()) {
        (p, false)
    } else if s[p] == 'n' || s[p] == 't' || s[p] == 'r' || s[p] == '\\' || s[p] == '"' || s[p]
        == '\'' {
        (p + 1, true)
    } else if s[p] == 'u' {
        unicode_escape(s, p + 1)
    } else {
        (p + 1, false)
    }
}

/// Where the trivia met at `p` ends: whitespace, `--` comments to the end
/// of their line, and nested `(* *)` comments, which may run to the end of
/// the text. `depth` counts the block comments open at `p`, and `line` says
/// whether `p` is inside a line comment.
pub open spec fn trivia_from(s: Seq<char>, p: int, depth: nat, line: bool) -> int
    decreases s.len() - p,
{
    if p < 0 || p >= s.len() {
        p
    } else if line {
        if s[p] == '\n' {
            trivia_from(s, p + 1, 0, false)
        } else {
            trivia_from(s, p + 1, 0, true)
        }
    } else if depth > 0 {
        if p + 1 < s.len() && s[p] == '(' && s[p + 1] == '*' {
            trivia_from(s, p + 2, depth + 1, false)
        } else if p + 1 < s.len() && s[p] == '*' && s[p + 1] == ')' {
            trivia_from(s, p + 2, (depth - 1) as nat, false)
        } else {
            trivia_from(s, p + 1, depth, false)
        }
    } else if is_white_space(s[p]) {
        trivia_from(s, p + 1, 0, false)
    } else if p + 1 < s.len() && s[p] == '-' && s[p + 1] == '-' {
        trivia_from(s, p + 2, 0, true)
    } else if p + 1 < s.len() && s[p] == '(' && s[p + 1] == '*' {
        trivia_from(s, p + 2, 1, false)
    } else {
        p
    }
}

/// Whether the trivia met at `p` runs to the end of the text inside a block
/// comment that never closes.
pub open spec fn trivia_open(s: Seq<char>, p: int, depth: nat, line: bool) -> bool
    decreases s.len() - p,
{
    if p < 0 || p >= s.len() {
        depth > 0
    } else if line {
        if s[p] == '\n' {
            trivia_open(s, p + 1, 0, false)
        } else {
            trivia_open(s, p + 1, 0, true)
        }
    } else if depth > 0 {
        if p + 1 < s.len() && s[p] == '(' && s[p + 1] == '*' {
            trivia_open(s, p + 2, depth + 1, false)
        } else if p + 1 < s.len() && s[p] == '*' && s[p + 1] == ')' {
            trivia_open(s, p + 2, (depth - 1) as nat, false)
        } else {
            trivia_open(s, p + 1, depth, false)
        }
    } else if is_white_space(s[p]) {
        trivia_open(s, p + 1, 0, false)
    } else if p + 1 < s.len() && s[p] == '-' && s[p + 1] == '-' {
        trivia_open(s, p + 2, 0, true)
    } else if p + 1 < s.len() && s[p] == '(' && s[p + 1] == '*' {
        trivia_open(s, p + 2, 1, false)
    } else {
        false
    }
}

/// Where a run of digits of `base` and underscores that starts at `k` ends.
pub open spec fn digits_run_end(s: Seq<char>, k: int, base: Base) -> int
    decreases s.len() - k,
{
    if 0 <= k < s.len() && (is_digit_in(s[k], base) || s[k] == '_') {
        digits_run_end(s, k + 1, base)
    } else {
        k
    }
}

/// Whether an `n` at `k` ends a literal as its suffix: it does not run into
/// an identifier.
pub open spec fn n_suffix_at(s: Seq<char>, k: int) -> bool {
    0 <= k < s.len() && s[k] == 'n' && !(k + 1 < s.len() && is_ident_continue_spec(s[k + 1]))
}

/// The end and kind of a number with a base prefix at `p`, its digits from
/// `p + 2`.
pub open spec fn prefixed_lexeme(s: Seq<char>, p: int, base: Base) -> (int, TokenKind) {
    let e = digits_run_end(s, p + 2, base);
    if e == p + 2 || !valid_digits(s.subrange(p + 2, e), base) {
        (e, TokenKind::Error)
    } else if n_suffix_at(s, e) {
        (e + 1, TokenKind::NaturalLiteral)
    } else {
        (e, TokenKind::IntegerLiteral)
    }
}

/// The end and kind of a decimal number at `p`, once its integer part, up
/// to `e1`, is well formed: a fraction when a digit follows a point, then
/// an exponent, then an `n` suffix on an integer.
pub open spec fn decimal_tail(s: Seq<char>, e1: int) -> (int, TokenKind) {
    let fraction = e1 + 1 < s.len() && s[e1] == '.' && is_ascii_digit_spec(s[e1 + 1]);
    let e2 = if fraction { digits_run_end(s, e1 + 1, Base::Decimal) } else { e1 };
    if fraction && !valid_digits(s.subrange(e1 + 1, e2), Base::Decimal) {
        (e2, TokenKind::Error)
    } else {
        match exponent_digits(s, e2) {
            Some(q) => {
                let e3 = digits_run_end(s, q, Base::Decimal);
                if valid_digits(s.subrange(q, e3), Base::Decimal) {
                    (e3, TokenKind::RealLiteral)
                } else {
                    (e3, TokenKind::Error)
                }
            },
            None => if fraction {
                (e2, TokenKind::RealLiteral)
            } else if n_suffix_at(s, e2) {
                (e2 + 1, TokenKind::NaturalLiteral)
            } else {
                (e2, TokenKind::IntegerLiteral)
            },
        }
    }
}

/// The end and kind of the number that starts with the digit at `p`.
pub open spec fn number_lexeme(s: Seq<char>, p: int) -> (int, TokenKind) {
    if s[p] == '0' && p + 1 < s.len() && (s[p + 1] == 'b' || s[p + 1] == 'B') {
        prefixed_lexeme(s, p, Base::Binary)
    } else if s[p] == '0' && p + 1 < s.len() && (s[p + 1] == 'o' || s[p + 1] == 'O') {
        prefixed_lexeme(s, p, Base::Octal)
    } else if s[p] == '0' && p + 1 < s.len() && (s[p + 1] == 'x' || s[p + 1] == 'X') {
        prefixed_lexeme(s, p, Base::Hex)
    } else {
        let e1 = digits_run_end(s, p, Base::Decimal);
        if !valid_digits(s.subrange(p, e1), Base::Decimal) {
            (e1, TokenKind::Error)
        } else {
            decimal_tail(s, e1)
        }
    }
}

/// Where the body of a string literal from `k` ends, and whether it went
/// wrong: an unknown escape, or no closing quote.
pub open spec fn string_from(s: Seq<char>, k: int, bad: bool) -> (int, bool)
    decreases s.len() - k,
{
    if k < 0 || k >= s.len() {
        (k, true)
    } else if s[k] == '"' {
        (k + 1, bad)
    } else if s[k] == '\\' {
        let e = escape(s, k + 1);
        if e.0 > k && e.0 <= s.len() {
            string_from(s, e.0, bad || !e.1)
        } else {
            (k, true)
        }
    } else {
        string_from(s, k + 1, bad)
    }
}

/// Where the body of a glyph literal from `k` ends, and whether it went
/// wrong: an unknown escape, no closing quote, or other than one scalar.
pub open spec fn glyph_from(s: Seq<char>, k: int, count: nat, bad: bool) -> (int, bool)
    decreases s.len() - k,
{
    if k < 0 || k >= s.len() {
        (k, true)
    } else if s[k] == '\'' {
        (k + 1, bad || count != 1)
    } else if s[k] == '\\' {
        let e = escape(s, k + 1);
        if e.0 > k && e.0 <= s.len() {
            if e.1 {
                glyph_from(s, e.0, count + 1, bad)
            } else {
                glyph_from(s, e.0, count, true)
            }
        } else {
            (k, true)
        }
    } else {
        glyph_from(s, k + 1, count + 1, bad)
    }
}

/// Where the body of a format string from `k` ends, and whether it went
/// wrong: a brace that is not `{}`, `{{` or `}}`, or no closing backquote.
pub open spec fn format_from(s: Seq<char>, k: int, bad: bool) -> (int, bool)
    decreases s.len() - k,
{
    if k < 0 || k >= s.len() {
        (k, true)
    } else if s[k] == '`' {
        (k + 1, bad)
    } else if s[k] == '{' {
        if k + 1 < s.len() && (s[k + 1] == '{' || s[k + 1] == '}') {
            format_from(s, k + 2, bad)
        } else {
            format_from(s, k + 1, true)
        }
    } else if s[k] == '}' {
        if k + 1 < s.len() && s[k + 1] == '}' {
            format_from(s, k + 2, bad)
        } else {
            format_from(s, k + 1, true)
        }
    } else {
        format_from(s, k + 1, bad)
    }
}

/// The kind a quoted literal gets: its own, or an error where it went
/// wrong.
pub open spec fn quoted(r: (int, bool), kind: TokenKind) -> (int, TokenKind) {
    (r.0, if r.1 { TokenKind::Error } else { kind })
}

/// The end and kind of the lexeme that starts at `p`, a position past any
/// trivia: the longest match the grammar allows.
pub open spec fn lexeme(s: Seq<char>, p: int) -> (int, TokenKind) {
    let c = s[p];
    if is_ident_start_spec(c) {
        let e = ident_tail_end(s, p + 1);
        (e, match keyword_of(s.subrange(p, e)) {
            Some(k) => TokenKind::Keyword(k),
            None => TokenKind::Ident,
        })
    } else if c == '[' && closing_bracket(s, p + 1) is Some && operator_like(
        s.subrange(p + 1, closing_bracket(s, p + 1)->0),
    ) {
        (closing_bracket(s, p + 1)->0 + 1, TokenKind::BracketedIdent)
    } else if is_ascii_digit_spec(c) {
        number_lexeme(s, p)
    } else if c == '"' {
        quoted(string_from(s, p + 1, false), TokenKind::StringLiteral)
    } else if c == '\'' {
        quoted(glyph_from(s, p + 1, 0, false), TokenKind::GlyphLiteral)
    } else if c == '`' {
        quoted(format_from(s, p + 1, false), TokenKind::FormatStringLiteral)
    } else if p + 1 < s.len() && double_kind(c, s[p + 1]) is Some {
        (p + 2, TokenKind::Operator(double_kind(c, s[p + 1])->0))
    } else {
        (p + 1, match single_kind(c) {
            Some(k) => k,
            None => TokenKind::Error,
        })
    }
}

/// The kinds of the tokens of the text from `p` on: trivia skipped, then
/// one lexeme at a time.
pub open spec fn tokenize(s: Seq<char>, p: int) -> Seq<TokenKind>
    decreases s.len() - p,
{
    let q = trivia_from(s, p, 0, false);
    if 0 <= p <= q < s.len() {
        let l = lexeme(s, q);
        if q < l.0 <= s.len() {
            seq![l.1] + tokenize(s, l.0)
        } else {
            Seq::empty()
        }
    } else {
        Seq::empty()
    }
}

/// Whether some trivia of the text from `p` on is a block comment left
/// open at the end of the text.
pub open spec fn comment_open(s: Seq<char>, p: int) -> bool
    decreases s.len() - p,
{
    let q = trivia_from(s, p, 0, false);
    if trivia_open(s, p, 0, false) {
        true
    } else if 0 <= p <= q < s.len() {
        let l = lexeme(s, q);
        if q < l.0 <= s.len() {
            comment_open(s, l.0)
        } else {
            false
        }
    } else {
        false
    }
}

/// The kinds of a list of tokens.
pub open spec fn kinds(tokens: Seq<Token>) -> Seq<TokenKind> {
    tokens.map_values(|t: Token| t.kind)
}

/// Whitespace from `a` to `b` is skipped as trivia.
proof fn lemma_trivia_space(s: Seq<char>, a: int, b: int)
    requires
        0 <= a <= b <= s.len(),
        forall|k: int| a <= k < b ==> is_white_space(#[trigger] s[k]),
    ensures
        trivia_from(s, a, 0, false) == trivia_from(s, b, 0, false),
        trivia_open(s, a, 0, false) == trivia_open(s, b, 0, false),
    decreases b - a,
{
    if a < b {
        lemma_trivia_space(s, a + 1, b);
    }
}

/// A line comment runs over characters other than a newline, and ends
/// where its line or the text does.
proof fn lemma_trivia_line(s: Seq<char>, a: int, b: int)
    requires
        0 <= a <= b <= s.len(),
        forall|k: int| a <= k < b ==> #[trigger] s[k] != '\n',
        b < s.len() ==> s[b] == '\n',
    ensures
        trivia_from(s, a, 0, true) == trivia_from(s, b, 0, false),
        trivia_open(s, a, 0, true) == trivia_open(s, b, 0, false),
    decreases b - a,
{
    if a < b {
        lemma_trivia_line(s, a + 1, b);
    } else if b < s.len() {
        assert(is_white_space('\n'));
    }
}

/// A run of digits of `base` and underscores from `a` that stops at `b`
/// ends at `b`.
proof fn lemma_digits_run(s: Seq<char>, a: int, b: int, base: Base)
    requires
        0 <= a <= b <= s.len(),
        forall|k: int| a <= k < b ==> is_digit_in(#[trigger] s[k], base) || s[k] == '_',
        b < s.len() ==> !(is_digit_in(s[b], base) || s[b] == '_'),
    ensures
        digits_run_end(s, a, base) == b,
    decreases b - a,
{
    if a < b {
        lemma_digits_run(s, a + 1, b, base);
    }
}

/// Characters of a class from `a` to `b` make no difference to where an
/// identifier's tail ends.
proof fn lemma_ident_tail_run(s: Seq<char>, a: int, b: int)
    requires
        0 <= a <= b <= s.len(),
        forall|k: int| a <= k < b ==> is_ident_continue_spec(#[trigger] s[k]),
    ensures
        ident_tail_end(s, a) == ident_tail_end(s, b),
    decreases b - a,
{
    if a < b {
        lemma_ident_tail_run(s, a + 1, b);
    }
}

/// A run of hexadecimal digits from `a` that stops at `b` ends at `b`.
proof fn lemma_hex_run(s: Seq<char>, a: int, b: int)
    requires
        0 <= a <= b <= s.len(),
        forall|k: int| a <= k < b ==> is_hex_digit_spec(#[trigger] s[k]),
        b < s.len() ==> !is_hex_digit_spec(s[b]),
    ensures
        hex_run_end(s, a) == b,
    decreases b - a,
{
    if a < b {
        lemma_hex_run(s, a + 1, b);
    }
}

/// A bracket's search moves past characters that neither close it nor
/// break the line.
proof fn lemma_closing_bracket_step(s: Seq<char>, k: int)
    requires
        0 <= k < s.len(),
        s[k] != ']',
        s[k] != '\n',
        s[k] != '\r',
    ensures
        closing_bracket(s, k) == closing_bracket(s, k + 1),
{
}

/// What a scan for an exponent found.
enum Exponent {
    Absent,
    Present,
    Invalid,
}

struct Lexer {
    source_file: Source,
    chars: Vec<char>,
    pos: usize,
    cursor: usize,
    tokens: Vec<Token>,
    spans: Ghost<Seq<(int, int)>>,
    diagnostics: Vec<Diagnostic>,
}

impl Lexer {
    spec fn wf(&self) -> bool {
        &&& self.pos <= self.chars.len()
        &&& self.cursor == byte_offset(self.chars@, self.pos as int)
        &&& utf8_len(self.chars@) <= usize::MAX
        &&& spans_ok(self.source_file, self.chars@, self.tokens@, self.spans@, self.pos as int)
        &&& has_error(self.tokens@) ==> self.diagnostics.len() > 0
    }

    /// Nothing but the position moved forward, over characters.
    spec fn moved(&self, before: &Lexer) -> bool {
        &&& self.wf()
        &&& self.source_file == before.source_file
        &&& self.chars@ == before.chars@
        &&& self.pos >= before.pos
        &&& self.tokens@ == before.tokens@
        &&& self.spans@ == before.spans@
        &&& self.diagnostics.len() >= before.diagnostics.len()
    }

    /// Exactly one token was added, and the position moved past it.
    spec fn made_one(&self, before: &Lexer) -> bool {
        &&& self.wf()
        &&& self.source_file == before.source_file
        &&& self.chars@ == before.chars@
        &&& self.pos > before.pos
        &&& self.tokens.len() == before.tokens.len() + 1
        &&& self.tokens@.drop_last() == before.tokens@
        &&& self.diagnostics.len() >= before.diagnostics.len()
    }

    spec fn at(&self, k: int, c: char) -> bool {
        0 <= k < self.chars.len() && self.chars@[k] == c
    }

    proof fn lemma_ends(&self)
        requires
            self.wf(),
        ensures
            forall|i: int| 0 <= i < self.spans@.len() ==> #[trigger] self.spans@[i].1 <= self.pos,
    {
        assert forall|i: int| 0 <= i < self.spans@.len() implies #[trigger] self.spans@[i].1 <= self.pos by {
            assert(span_ok(self.source_file, self.chars@, self.tokens@[i], self.spans@[i], self.pos as int));
        }
    }

    fn new(source_file: Source, source: &str) -> (lexer: Lexer)
        requires
            utf8_len(source@) <= usize::MAX,
        ensures
            lexer.wf(),
            lexer.pos == 0,
            lexer.chars@ == source@,
            lexer.source_file == source_file,
            lexer.tokens@.len() == 0,
            lexer.diagnostics@.len() == 0,
    {
        let chars = chars_of(source);
        proof {
            assert(chars@.take(0) =~= Seq::<char>::empty());
        }
        Lexer {
            source_file,
            chars,
            pos: 0,
            cursor: 0,
            tokens: Vec::new(),
            spans: Ghost(Seq::empty()),
            diagnostics: Vec::new(),
        }
    }

    fn bump(&mut self)
        requires
            old(self).wf(),
            old(self).pos < old(self).chars.len(),
        ensures
            final(self).moved(old(self)),
            final(self).pos == old(self).pos + 1,
            final(self).diagnostics@ == old(self).diagnostics@,
    {
        let w = char_width(self.chars[self.pos]);
        proof {
            lemma_offset_step(self.chars@, self.pos as int);
            lemma_offset_monotone(self.chars@, self.pos + 1, self.chars.len() as int);
            lemma_offset_full(self.chars@);
            lemma_spans_widen(self.source_file, self.chars@, self.tokens@, self.spans@, self.pos as int, self.pos + 1);
        }
        self.cursor = self.cursor + w;
        self.pos = self.pos + 1;
    }

    fn emit(&mut self, start: usize, start_byte: usize, kind: TokenKind)
        requires
            old(self).wf(),
            start < old(self).pos,
            start_byte == byte_offset(old(self).chars@, start as int),
            forall|i: int| 0 <= i < old(self).spans@.len() ==> #[trigger] old(self).spans@[i].1 <= start,
            fits(kind, old(self).chars@.subrange(start as int, old(self).pos as int)),
            kind != TokenKind::EndOfFile,
            kind == TokenKind::Error ==> old(self).diagnostics.len() > 0,
        ensures
            final(self).wf(),
            final(self).source_file == old(self).source_file,
            final(self).chars@ == old(self).chars@,
            final(self).pos == old(self).pos,
            final(self).tokens.len() == old(self).tokens.len() + 1,
            final(self).tokens@.drop_last() == old(self).tokens@,
            final(self).tokens@.last().kind == kind,
            final(self).diagnostics@ == old(self).diagnostics@,
    {
        let range = TextRange::from_bounds(
            self.source_file,
            TextSize::from_usize(start_byte),
            TextSize::from_usize(self.cursor),
        );
        let token = Token::new(kind, range);
        let ghost span = (start as int, self.pos as int);
        let ghost old_tokens = self.tokens@;
        let ghost old_spans = self.spans@;
        self.tokens.push(token);
        self.spans = Ghost(self.spans@.push(span));
        proof {
            let s = self.chars@;
            assert(self.tokens@.drop_last() =~= old_tokens);
            assert forall|i: int| 0 <= i < self.tokens.len() implies #[trigger] span_ok(self.source_file, s, self.tokens@[i], self.spans@[i], self.pos as int) by {
                if i < old_tokens.len() {
                    assert(self.tokens@[i] == old_tokens[i]);
                    assert(self.spans@[i] == old_spans[i]);
                    assert(span_ok(self.source_file, s, old_tokens[i], old_spans[i], self.pos as int));
                }
            }
            assert forall|i: int, j: int| 0 <= i < j < self.tokens.len() implies #[trigger] self.spans@[i].1 <= #[trigger] self.spans@[j].0 by {
                if j < old_tokens.len() {
                    assert(old_spans[i].1 <= old_spans[j].0);
                } else {
                    assert(old_spans[i].1 <= start);
                }
            }
            if has_error(self.tokens@) {
                let i = choose|i: int| 0 <= i < self.tokens@.len() && #[trigger] self.tokens@[i].kind == TokenKind::Error;
                if i < old_tokens.len() {
                    assert(old_tokens[i].kind == TokenKind::Error);
                    assert(has_error(old_tokens));
                }
            }
        }
    }

    fn report(&mut self, from: usize, to: usize, message: String)
        requires
            old(self).wf(),
        ensures
            final(self).moved(old(self)),
            final(self).pos == old(self).pos,
            final(self).diagnostics.len() == old(self).diagnostics.len() + 1,
    {
        let range = TextRange::from_bounds(
            self.source_file,
            TextSize::from_usize(from),
            TextSize::from_usize(to),
        );
        self.diagnostics.push(Diagnostic::error(range, message));
    }

    /// Skip the longest run of characters of one class.
    fn consume_run(&mut self, run: Run)
        requires
            old(self).wf(),
        ensures
            final(self).moved(old(self)),
            final(self).diagnostics@ == old(self).diagnostics@,
            forall|k: int| old(self).pos <= k < final(self).pos ==> in_run(#[trigger] final(self).chars@[k], run),
            final(self).pos < final(self).chars.len() ==> !in_run(final(self).chars@[final(self).pos as int], run),
    {
        let ghost before = *self;
        while self.pos < self.chars.len() && run_has(self.chars[self.pos], run)
            invariant
                self.moved(&before),
                self.diagnostics@ == before.diagnostics@,
                forall|k: int| before.pos <= k < self.pos ==> in_run(#[trigger] self.chars@[k], run),
            decreases self.chars.len() - self.pos,
        {
            self.bump();
        }
    }

    /// The ident's tail: continue characters, and `-` joining another ident
    /// start (kebab case).
    fn consume_ident_tail(&mut self)
        requires
            old(self).wf(),
        ensures
            final(self).moved(old(self)),
            final(self).diagnostics@ == old(self).diagnostics@,
            final(self).pos == ident_tail_end(old(self).chars@, old(self).pos as int),
    {
        let ghost before = *self;
        loop
            invariant
                self.moved(&before),
                self.diagnostics@ == before.diagnostics@,
                ident_tail_end(self.chars@, self.pos as int) == ident_tail_end(
                    before.chars@,
                    before.pos as int,
                ),
            ensures
                self.pos == ident_tail_end(before.chars@, before.pos as int),
            decreases self.chars.len() - self.pos,
        {
            let ghost run_start = self.pos;
            self.consume_run(Run::IdentContinue);
            proof {
                lemma_ident_tail_run(self.chars@, run_start as int, self.pos as int);
            }
            if self.pos < self.chars.len() && self.pos + 1 < self.chars.len() && self.chars[self.pos] == '-' && is_ident_start(
                self.chars[self.pos + 1],
            ) {
                self.bump();
                self.bump();
                continue;
            }
            proof {
                assert(ident_tail_end(self.chars@, self.pos as int) == self.pos);
            }
            break;
        }
    }

    fn lex_ident_or_keyword(&mut self)
        requires
            old(self).wf(),
            old(self).pos < old(self).chars.len(),
            is_ident_start_spec(old(self).chars@[old(self).pos as int]),
        ensures
            final(self).made_one(old(self)),
            final(self).tokens@.last().kind != TokenKind::Error ==> final(self).diagnostics@ == old(self).diagnostics@,
            final(self).pos == lexeme(old(self).chars@, old(self).pos as int).0,
            final(self).tokens@.last().kind == lexeme(old(self).chars@, old(self).pos as int).1,
    {
        let start = self.pos;
        let start_byte = self.cursor;
        proof {
            self.lemma_ends();
        }
        self.bump();
        self.consume_ident_tail();
        let kind = match keyword_kind(&self.chars, start, self.pos) {
            Some(k) => TokenKind::Keyword(k),
            None => TokenKind::Ident,
        };
        proof {
            let t = self.chars@.subrange(start as int, self.pos as int);
            if keyword_of(t) is Some {
                lemma_keyword_text(t);
            }
        }
        self.emit(start, start_byte, kind);
    }

    /// A bracketed operator name such as `[+]`, on one line. Leaves the lexer
    /// as it was and answers false when the brackets hold anything else.
    fn lex_bracketed_operator_ident(&mut self) -> (made: bool)
        requires
            old(self).wf(),
            old(self).pos < old(self).chars.len(),
            old(self).chars@[old(self).pos as int] == '[',
        ensures
            made == (closing_bracket(old(self).chars@, old(self).pos + 1) matches Some(c)
                && operator_like(old(self).chars@.subrange(old(self).pos + 1, c))),
            made ==> final(self).made_one(old(self)),
            made ==> final(self).diagnostics@ == old(self).diagnostics@,
            made ==> final(self).pos == closing_bracket(old(self).chars@, old(self).pos + 1)->0 + 1,
            made ==> final(self).tokens@.last().kind == TokenKind::BracketedIdent,
            !made ==> *final(self) == *old(self),
    {
        let start = self.pos;
        let start_byte = self.cursor;
        proof {
            self.lemma_ends();
        }
        if start + 1 >= self.chars.len() {
            return false;
        }
        let mut k = start + 1;
        let mut close: Option<usize> = None;
        while k < self.chars.len()
            invariant_except_break
                close is None,
            invariant
                start < k <= self.chars.len(),
                start == self.pos,
                closing_bracket(self.chars@, start + 1) == closing_bracket(self.chars@, k as int),
            ensures
                close matches Some(c) ==> start < c < self.chars.len() && self.chars@[c as int] == ']',
                close matches Some(c) ==> closing_bracket(self.chars@, start + 1) == Some(c as int),
                close is None ==> closing_bracket(self.chars@, start + 1) is None,
            decreases self.chars.len() - k,
        {
            let c = self.chars[k];
            if c == ']' {
                close = Some(k);
                break;
            }
            if c == '\n' || c == '\r' {
                return false;
            }
            proof {
                lemma_closing_bracket_step(self.chars@, k as int);
            }
            k = k + 1;
        }
        let close = match close {
            Some(close) => close,
            None => return false,
        };
        if !is_operator_like_bracketed_identifier(&self.chars, start + 1, close) {
            return false;
        }
        let ghost before = *self;
        while self.pos <= close
            invariant
                self.moved(&before),
                self.diagnostics@ == before.diagnostics@,
                start <= self.pos <= close + 1,
                close < self.chars.len(),
            decreases close + 1 - self.pos,
        {
            self.bump();
        }
        proof {
            let t = self.chars@.subrange(start as int, close + 1);
            assert(t.subrange(1, t.len() - 1) =~= self.chars@.subrange(start + 1, close as int));
        }
        self.emit(start, start_byte, TokenKind::BracketedIdent);
        true
    }

    /// Whether an `n` suffix follows that does not run into an identifier.
    fn can_consume_n_suffix(&self) -> (b: bool)
        ensures
            b == (self.at(self.pos as int, 'n') && !(self.pos + 1 < self.chars.len()
                && is_ident_continue_spec(self.chars@[self.pos + 1]))),
    {
        if !(self.pos < self.chars.len() && self.chars[self.pos] == 'n') {
            return false;
        }
        !(self.pos + 1 < self.chars.len() && is_ident_continue(self.chars[self.pos + 1]))
    }

    /// An exponent: `e` or `E`, an optional sign, and a digit run. Without a
    /// digit after the sign nothing is consumed.
    fn try_consume_exponent(&mut self) -> (found: Exponent)
        requires
            old(self).wf(),
        ensures
            final(self).moved(old(self)),
            final(self).diagnostics@ == old(self).diagnostics@,
            exponent_digits(old(self).chars@, old(self).pos as int) is None ==> found is Absent
                && final(self).pos == old(self).pos,
            exponent_digits(old(self).chars@, old(self).pos as int) matches Some(q) ==> {
                &&& !(found is Absent)
                &&& final(self).pos > q
                &&& forall|k: int|
                    q <= k < final(self).pos ==> is_ascii_digit_spec(#[trigger] final(self).chars@[k])
                        || final(self).chars@[k] == '_'
                &&& final(self).pos < final(self).chars.len() ==> !(is_ascii_digit_spec(
                    final(self).chars@[final(self).pos as int],
                ) || final(self).chars@[final(self).pos as int] == '_')
                &&& (found is Present <==> valid_digits(
                    final(self).chars@.subrange(q, final(self).pos as int),
                    Base::Decimal,
                ))
            },
    {
        if !(self.pos < self.chars.len() && (self.chars[self.pos] == 'e' || self.chars[self.pos]
            == 'E')) {
            return Exponent::Absent;
        }
        let ghost before = *self;
        let checkpoint = self.pos;
        let checkpoint_byte = self.cursor;
        self.bump();
        if self.pos < self.chars.len() && (self.chars[self.pos] == '+' || self.chars[self.pos]
            == '-') {
            self.bump();
        }
        if !(self.pos < self.chars.len() && is_ascii_digit(self.chars[self.pos])) {
            self.pos = checkpoint;
            self.cursor = checkpoint_byte;
            return Exponent::Absent;
        }
        let exp_start = self.pos;
        self.consume_run(Run::DigitsOrUnderscore(Base::Decimal));
        if is_valid_digit_sequence(&self.chars, exp_start, self.pos, Base::Decimal) {
            Exponent::Present
        } else {
            Exponent::Invalid
        }
    }

    fn lex_prefixed_number(&mut self, base: Base, base_name: &str)
        requires
            old(self).wf(),
            old(self).pos + 1 < old(self).chars.len(),
            is_ascii_digit_spec(old(self).chars@[old(self).pos as int]),
        ensures
            final(self).made_one(old(self)),
            final(self).tokens@.last().kind != TokenKind::Error ==> final(self).diagnostics@ == old(self).diagnostics@,
            final(self).pos == prefixed_lexeme(old(self).chars@, old(self).pos as int, base).0,
            final(self).tokens@.last().kind == prefixed_lexeme(old(self).chars@, old(self).pos as int, base).1,
    {
        let start = self.pos;
        let start_byte = self.cursor;
        proof {
            self.lemma_ends();
        }
        self.bump();
        self.bump();
        let digits_start = self.pos;
        self.consume_run(Run::DigitsOrUnderscore(base));
        proof {
            lemma_digits_run(self.chars@, digits_start as int, self.pos as int, base);
        }
        if self.pos == digits_start {
            let mut message = "expected digits after ".to_owned();
            message.append(base_name);
            message.append(" prefix");
            self.report(start_byte, self.cursor, message);
            self.emit(start, start_byte, TokenKind::Error);
            return;
        }
        if !is_valid_digit_sequence(&self.chars, digits_start, self.pos, base) {
            let mut message = "invalid ".to_owned();
            message.append(base_name);
            message.append(" literal");
            self.report(start_byte, self.cursor, message);
            self.emit(start, start_byte, TokenKind::Error);
            return;
        }
        let mut kind = TokenKind::IntegerLiteral;
        if self.can_consume_n_suffix() {
            self.bump();
            kind = TokenKind::NaturalLiteral;
        }
        self.emit(start, start_byte, kind);
    }

    fn lex_number(&mut self)
        requires
            old(self).wf(),
            old(self).pos < old(self).chars.len(),
            is_ascii_digit_spec(old(self).chars@[old(self).pos as int]),
        ensures
            final(self).made_one(old(self)),
            final(self).tokens@.last().kind != TokenKind::Error ==> final(self).diagnostics@ == old(self).diagnostics@,
            final(self).pos == number_lexeme(old(self).chars@, old(self).pos as int).0,
            final(self).tokens@.last().kind == number_lexeme(old(self).chars@, old(self).pos as int).1,
    {
        let start = self.pos;
        let start_byte = self.cursor;
        proof {
            self.lemma_ends();
        }
        if self.chars[start] == '0' && start + 1 < self.chars.len() {
            let next = self.chars[start + 1];
            if next == 'b' || next == 'B' {
                self.lex_prefixed_number(Base::Binary, "binary");
                return;
            }
            if next == 'o' || next == 'O' {
                self.lex_prefixed_number(Base::Octal, "octal");
                return;
            }
            if next == 'x' || next == 'X' {
                self.lex_prefixed_number(Base::Hex, "hex");
                return;
            }
        }
        self.consume_run(Run::DigitsOrUnderscore(Base::Decimal));
        proof {
            lemma_digits_run(self.chars@, start as int, self.pos as int, Base::Decimal);
        }
        let ghost e1 = self.pos;
        if !is_valid_digit_sequence(&self.chars, start, self.pos, Base::Decimal) {
            self.report(start_byte, self.cursor, "invalid decimal literal".to_owned());
            self.emit(start, start_byte, TokenKind::Error);
            return;
        }
        let mut kind = TokenKind::IntegerLiteral;
        if self.pos < self.chars.len() && self.pos + 1 < self.chars.len() && self.chars[self.pos] == '.' && is_ascii_digit(
            self.chars[self.pos + 1],
        ) {
            self.bump();
            let frac_start = self.pos;
            self.consume_run(Run::DigitsOrUnderscore(Base::Decimal));
            proof {
                lemma_digits_run(self.chars@, frac_start as int, self.pos as int, Base::Decimal);
            }
            if !is_valid_digit_sequence(&self.chars, frac_start, self.pos, Base::Decimal) {
                self.report(start_byte, self.cursor, "invalid real literal".to_owned());
                self.emit(start, start_byte, TokenKind::Error);
                return;
            }
            kind = TokenKind::RealLiteral;
        }
        let ghost e2 = self.pos;
        let found = self.try_consume_exponent();
        proof {
            if exponent_digits(self.chars@, e2 as int) is Some {
                lemma_digits_run(self.chars@, exponent_digits(self.chars@, e2 as int)->0, self.pos as int, Base::Decimal);
            }
        }
        match found {
            Exponent::Present => {
                kind = TokenKind::RealLiteral;
            },
            Exponent::Absent => {},
            Exponent::Invalid => {
                self.report(start_byte, self.cursor, "invalid exponent literal".to_owned());
                self.emit(start, start_byte, TokenKind::Error);
                return;
            },
        }
        if kind == TokenKind::IntegerLiteral && self.can_consume_n_suffix() {
            self.bump();
            kind = TokenKind::NaturalLiteral;
        }
        self.emit(start, start_byte, kind);
    }

    /// An escape after a backslash: one of `n t r \ " '`, or a `\u{...}`
    /// scalar. Reports what is wrong with it, if anything.
    fn consume_escape_sequence(&mut self, escape_start: usize) -> (ok: bool)
        requires
            old(self).wf(),
        ensures
            final(self).moved(old(self)),
            final(self).pos == escape(old(self).chars@, old(self).pos as int).0,
            ok == escape(old(self).chars@, old(self).pos as int).1,
            ok ==> final(self).diagnostics@ == old(self).diagnostics@,
            !ok ==> final(self).diagnostics.len() == old(self).diagnostics.len() + 1,
    {
        if self.pos >= self.chars.len() {
            self.report(escape_start, self.cursor, "unterminated escape sequence".to_owned());
            return false;
        }
        let c = self.chars[self.pos];
        if c == 'n' || c == 't' || c == 'r' || c == '\\' || c == '"' || c == '\'' {
            self.bump();
            true
        } else if c == 'u' {
            self.bump();
            self.consume_unicode_escape(escape_start)
        } else {
            self.bump();
            self.report(escape_start, self.cursor, "invalid escape sequence".to_owned());
            false
        }
    }

    fn consume_unicode_escape(&mut self, escape_start: usize) -> (ok: bool)
        requires
            old(self).wf(),
        ensures
            final(self).moved(old(self)),
            final(self).pos == unicode_escape(old(self).chars@, old(self).pos as int).0,
            ok == unicode_escape(old(self).chars@, old(self).pos as int).1,
            ok ==> final(self).diagnostics@ == old(self).diagnostics@,
            !ok ==> final(self).diagnostics.len() == old(self).diagnostics.len() + 1,
    {
        if !(self.pos < self.chars.len() && self.chars[self.pos] == '{') {
            self.report(escape_start, self.cursor, "expected `{` after `\\u`".to_owned());
            return false;
        }
        self.bump();
        let digits_start = self.pos;
        self.consume_run(Run::Digits(Base::Hex));
        proof {
            lemma_hex_run(self.chars@, digits_start as int, self.pos as int);
        }
        if digits_start == self.pos {
            self.report(escape_start, self.cursor, "empty unicode escape".to_owned());
            return false;
        }
        if !(self.pos < self.chars.len() && self.chars[self.pos] == '}') {
            self.report(escape_start, self.cursor, "unterminated unicode escape".to_owned());
            return false;
        }
        let digits_end = self.pos;
        self.bump();
        if !hex_scalar(&self.chars, digits_start, digits_end) {
            self.report(escape_start, self.cursor, "invalid unicode scalar value".to_owned());
            return false;
        }
        true
    }

    fn lex_string(&mut self)
        requires
            old(self).wf(),
            old(self).pos < old(self).chars.len(),
            old(self).chars@[old(self).pos as int] == '"',
        ensures
            final(self).made_one(old(self)),
            final(self).tokens@.last().kind != TokenKind::Error ==> final(self).diagnostics@ == old(self).diagnostics@,
            final(self).pos == string_from(old(self).chars@, old(self).pos + 1, false).0,
            final(self).tokens@.last().kind == quoted(
                string_from(old(self).chars@, old(self).pos + 1, false),
                TokenKind::StringLiteral,
            ).1,
    {
        let start = self.pos;
        let start_byte = self.cursor;
        proof {
            self.lemma_ends();
        }
        self.bump();
        let ghost before = *self;
        let mut had_error = false;
        let mut terminated = false;
        while !terminated && self.pos < self.chars.len()
            invariant
                self.moved(&before),
                before.pos == start + 1,
                before.chars@[start as int] == '"',
                forall|i: int| 0 <= i < self.spans@.len() ==> #[trigger] self.spans@[i].1 <= start,
                terminated ==> self.pos >= start + 2 && self.chars@[self.pos - 1] == '"',
                had_error ==> self.diagnostics.len() > 0,
                !had_error ==> self.diagnostics@ == before.diagnostics@,
                !terminated ==> string_from(self.chars@, self.pos as int, had_error) == string_from(
                    before.chars@,
                    before.pos as int,
                    false,
                ),
                terminated ==> (self.pos as int, had_error) == string_from(
                    before.chars@,
                    before.pos as int,
                    false,
                ),
            decreases self.chars.len() - self.pos,
        {
            let c = self.chars[self.pos];
            if c == '"' {
                self.bump();
                terminated = true;
            } else if c == '\\' {
                let escape_start = self.cursor;
                self.bump();
                if !self.consume_escape_sequence(escape_start) {
                    had_error = true;
                }
            } else {
                self.bump();
            }
        }
        if !terminated {
            self.report(start_byte, self.cursor, "unterminated string literal".to_owned());
            had_error = true;
        }
        let kind = if had_error {
            TokenKind::Error
        } else {
            TokenKind::StringLiteral
        };
        self.emit(start, start_byte, kind);
    }

    fn lex_glyph(&mut self)
        requires
            old(self).wf(),
            old(self).pos < old(self).chars.len(),
            old(self).chars@[old(self).pos as int] == '\'',
        ensures
            final(self).made_one(old(self)),
            final(self).tokens@.last().kind != TokenKind::Error ==> final(self).diagnostics@ == old(self).diagnostics@,
            final(self).pos == glyph_from(old(self).chars@, old(self).pos + 1, 0, false).0,
            final(self).tokens@.last().kind == quoted(
                glyph_from(old(self).chars@, old(self).pos + 1, 0, false),
                TokenKind::GlyphLiteral,
            ).1,
    {
        let start = self.pos;
        let start_byte = self.cursor;
        proof {
            self.lemma_ends();
        }
        self.bump();
        let ghost before = *self;
        let mut scalar_count: usize = 0;
        let mut had_error = false;
        let mut terminated = false;
        while !terminated && self.pos < self.chars.len()
            invariant
                self.moved(&before),
                before.pos == start + 1,
                before.chars@[start as int] == '\'',
                forall|i: int| 0 <= i < self.spans@.len() ==> #[trigger] self.spans@[i].1 <= start,
                terminated ==> self.pos >= start + 2 && self.chars@[self.pos - 1] == '\'',
                had_error ==> self.diagnostics.len() > 0,
                !had_error ==> self.diagnostics@ == before.diagnostics@,
                scalar_count <= self.pos - before.pos,
                !terminated ==> glyph_from(self.chars@, self.pos as int, scalar_count as nat, had_error)
                    == glyph_from(before.chars@, before.pos as int, 0, false),
                terminated ==> (self.pos as int, had_error || scalar_count != 1) == glyph_from(
                    before.chars@,
                    before.pos as int,
                    0,
                    false,
                ),
            decreases self.chars.len() - self.pos,
        {
            let c = self.chars[self.pos];
            if c == '\'' {
                self.bump();
                terminated = true;
            } else if c == '\\' {
                let escape_start = self.cursor;
                self.bump();
                if self.consume_escape_sequence(escape_start) {
                    scalar_count = scalar_count + 1;
                } else {
                    had_error = true;
                }
            } else {
                self.bump();
                scalar_count = scalar_count + 1;
            }
        }
        if !terminated {
            self.report(start_byte, self.cursor, "unterminated glyph literal".to_owned());
            had_error = true;
        } else if scalar_count != 1 {
            self.report(
                start_byte,
                self.cursor,
                "glyph literal must decode to one scalar value".to_owned(),
            );
            had_error = true;
        }
        let kind = if had_error {
            TokenKind::Error
        } else {
            TokenKind::GlyphLiteral
        };
        self.emit(start, start_byte, kind);
    }

    fn lex_format_string(&mut self)
        requires
            old(self).wf(),
            old(self).pos < old(self).chars.len(),
            old(self).chars@[old(self).pos as int] == '`',
        ensures
            final(self).made_one(old(self)),
            final(self).tokens@.last().kind != TokenKind::Error ==> final(self).diagnostics@ == old(self).diagnostics@,
            final(self).pos == format_from(old(self).chars@, old(self).pos + 1, false).0,
            final(self).tokens@.last().kind == quoted(
                format_from(old(self).chars@, old(self).pos + 1, false),
                TokenKind::FormatStringLiteral,
            ).1,
    {
        let start = self.pos;
        let start_byte = self.cursor;
        proof {
            self.lemma_ends();
        }
        self.bump();
        let ghost before = *self;
        let mut had_error = false;
        let mut terminated = false;
        while !terminated && self.pos < self.chars.len()
            invariant
                self.moved(&before),
                before.pos == start + 1,
                before.chars@[start as int] == '`',
                forall|i: int| 0 <= i < self.spans@.len() ==> #[trigger] self.spans@[i].1 <= start,
                terminated ==> self.pos >= start + 2 && self.chars@[self.pos - 1] == '`',
                had_error ==> self.diagnostics.len() > 0,
                !had_error ==> self.diagnostics@ == before.diagnostics@,
                !terminated ==> format_from(self.chars@, self.pos as int, had_error) == format_from(
                    before.chars@,
                    before.pos as int,
                    false,
                ),
                terminated ==> (self.pos as int, had_error) == format_from(
                    before.chars@,
                    before.pos as int,
                    false,
                ),
            decreases self.chars.len() - self.pos,
        {
            let c = self.chars[self.pos];
            if c == '`' {
                self.bump();
                terminated = true;
            } else if c == '{' {
                let brace_start = self.cursor;
                self.bump();
                if self.pos < self.chars.len() && (self.chars[self.pos] == '{' || self.chars[self.pos]
                    == '}') {
                    self.bump();
                } else {
                    self.report(
                        brace_start,
                        self.cursor,
                        "invalid format placeholder; expected `{}` or `{{`".to_owned(),
                    );
                    had_error = true;
                }
            } else if c == '}' {
                let brace_start = self.cursor;
                self.bump();
                if self.pos < self.chars.len() && self.chars[self.pos] == '}' {
                    self.bump();
                } else {
                    self.report(
                        brace_start,
                        self.cursor,
                        "unescaped `}` in format string".to_owned(),
                    );
                    had_error = true;
                }
            } else {
                self.bump();
            }
        }
        if !terminated {
            self.report(start_byte, self.cursor, "unterminated format string".to_owned());
            had_error = true;
        }
        let kind = if had_error {
            TokenKind::Error
        } else {
            TokenKind::FormatStringLiteral
        };
        self.emit(start, start_byte, kind);
    }

    /// A two-character operator, which wins over the one-character tokens
    /// it begins with.
    fn lex_multi_char_operator(&mut self) -> (made: bool)
        requires
            old(self).wf(),
        ensures
            made == (old(self).pos + 1 < old(self).chars.len() && double_kind(
                old(self).chars@[old(self).pos as int],
                old(self).chars@[old(self).pos + 1],
            ) is Some),
            made ==> final(self).made_one(old(self)),
            made ==> final(self).diagnostics@ == old(self).diagnostics@,
            made ==> final(self).pos == old(self).pos + 2,
            made ==> final(self).tokens@.last().kind == TokenKind::Operator(
                double_kind(old(self).chars@[old(self).pos as int], old(self).chars@[old(self).pos + 1])->0,
            ),
            !made ==> *final(self) == *old(self),
    {
        let start = self.pos;
        let start_byte = self.cursor;
        proof {
            self.lemma_ends();
        }
        if !(self.pos < self.chars.len() && self.pos + 1 < self.chars.len()) {
            return false;
        }
        let a = self.chars[self.pos];
        let b = self.chars[self.pos + 1];
        match double_char_operator(a, b) {
            Some(op) => {
                self.bump();
                self.bump();
                proof {
                    assert(self.chars@.subrange(start as int, self.pos as int) =~= seq![a, b]);
                }
                self.emit(start, start_byte, TokenKind::Operator(op));
                true
            },
            None => false,
        }
    }

    /// Whitespace, `--` line comments and nested `(* *)` block comments.
    fn skip_trivia(&mut self)
        requires
            old(self).wf(),
        ensures
            final(self).moved(old(self)),
            final(self).pos < final(self).chars.len() ==> !is_white_space(
                final(self).chars@[final(self).pos as int],
            ),
            !(final(self).at(final(self).pos as int, '-') && final(self).at(final(self).pos + 1, '-')),
            !(final(self).at(final(self).pos as int, '(') && final(self).at(final(self).pos + 1, '*')),
            final(self).pos == trivia_from(old(self).chars@, old(self).pos as int, 0, false),
            trivia_open(old(self).chars@, old(self).pos as int, 0, false) == (final(self).diagnostics.len()
                > old(self).diagnostics.len()),
            final(self).diagnostics.len() == old(self).diagnostics.len() ==> final(self).diagnostics@
                == old(self).diagnostics@,
    {
        let ghost before = *self;
        loop
            invariant
                self.moved(&before),
                trivia_open(before.chars@, before.pos as int, 0, false) == (trivia_open(
                    self.chars@,
                    self.pos as int,
                    0,
                    false,
                ) || self.diagnostics.len() > before.diagnostics.len()),
                self.diagnostics.len() == before.diagnostics.len() ==> self.diagnostics@
                    == before.diagnostics@,
                trivia_from(self.chars@, self.pos as int, 0, false) == trivia_from(
                    before.chars@,
                    before.pos as int,
                    0,
                    false,
                ),
            ensures
                self.moved(&before),
                self.pos == trivia_from(before.chars@, before.pos as int, 0, false),
                trivia_open(before.chars@, before.pos as int, 0, false) == (self.diagnostics.len()
                    > before.diagnostics.len()),
                self.diagnostics.len() == before.diagnostics.len() ==> self.diagnostics@
                    == before.diagnostics@,
                self.pos < self.chars.len() ==> !is_white_space(self.chars@[self.pos as int]),
                !(self.at(self.pos as int, '-') && self.at(self.pos + 1, '-')),
                !(self.at(self.pos as int, '(') && self.at(self.pos + 1, '*')),
            decreases self.chars.len() - self.pos,
        {
            let ghost run_start = self.pos;
            self.consume_run(Run::Whitespace);
            proof {
                lemma_trivia_space(self.chars@, run_start as int, self.pos as int);
            }
            if self.pos < self.chars.len() && self.pos + 1 < self.chars.len() && self.chars[self.pos]
                == '-' && self.chars[self.pos + 1] == '-' {
                self.bump();
                self.bump();
                let ghost line_start = self.pos;
                self.consume_run(Run::NotNewline);
                proof {
                    lemma_trivia_line(self.chars@, line_start as int, self.pos as int);
                }
                continue;
            }
            if self.pos < self.chars.len() && self.pos + 1 < self.chars.len() && self.chars[self.pos]
                == '(' && self.chars[self.pos + 1] == '*' {
                self.skip_block_comment();
                continue;
            }
            proof {
                assert(trivia_from(self.chars@, self.pos as int, 0, false) == self.pos);
                assert(!trivia_open(self.chars@, self.pos as int, 0, false));
            }
            break;
        }
    }

    fn skip_block_comment(&mut self)
        requires
            old(self).wf(),
            old(self).pos + 1 < old(self).chars.len(),
            old(self).chars@[old(self).pos as int] == '(',
            old(self).chars@[old(self).pos + 1] == '*',
        ensures
            final(self).moved(old(self)),
            final(self).pos > old(self).pos,
            trivia_from(final(self).chars@, final(self).pos as int, 0, false) == trivia_from(
                old(self).chars@,
                old(self).pos as int,
                0,
                false,
            ),
            trivia_open(old(self).chars@, old(self).pos as int, 0, false) == (trivia_open(
                final(self).chars@,
                final(self).pos as int,
                0,
                false,
            ) || final(self).diagnostics.len() > old(self).diagnostics.len()),
            final(self).diagnostics.len() == old(self).diagnostics.len() ==> final(self).diagnostics@
                == old(self).diagnostics@,
    {
        let start_byte = self.cursor;
        let ghost before = *self;
        proof {
            assert(!is_white_space('('));
        }
        self.bump();
        self.bump();
        let mut depth: usize = 1;
        while depth > 0 && self.pos < self.chars.len()
            invariant
                self.moved(&before),
                self.pos >= before.pos + 2,
                depth <= self.pos,
                trivia_from(self.chars@, self.pos as int, depth as nat, false) == trivia_from(
                    before.chars@,
                    before.pos as int,
                    0,
                    false,
                ),
                trivia_open(self.chars@, self.pos as int, depth as nat, false) == trivia_open(
                    before.chars@,
                    before.pos as int,
                    0,
                    false,
                ),
                self.diagnostics@ == before.diagnostics@,
            decreases self.chars.len() - self.pos,
        {
            if self.pos + 1 < self.chars.len() && self.chars[self.pos] == '(' && self.chars[self.pos
                + 1] == '*' {
                self.bump();
                self.bump();
                depth = depth + 1;
                continue;
            }
            if self.pos + 1 < self.chars.len() && self.chars[self.pos] == '*' && self.chars[self.pos
                + 1] == ')' {
                self.bump();
                self.bump();
                depth = depth - 1;
                continue;
            }
            self.bump();
        }
        if depth > 0 {
            self.report(start_byte, self.cursor, "unterminated block comment".to_owned());
        }
    }

    fn lex_token(&mut self)
        requires
            old(self).wf(),
            old(self).pos < old(self).chars.len(),
        ensures
            final(self).made_one(old(self)),
            final(self).tokens@.last().kind != TokenKind::Error ==> final(self).diagnostics@ == old(self).diagnostics@,
            final(self).pos == lexeme(old(self).chars@, old(self).pos as int).0,
            final(self).tokens@.last().kind == lexeme(old(self).chars@, old(self).pos as int).1,
    {
        let c = self.chars[self.pos];
        if is_ident_start(c) {
            self.lex_ident_or_keyword();
            return;
        }
        if c == '[' {
            if self.lex_bracketed_operator_ident() {
                return;
            }
        }
        if is_ascii_digit(c) {
            self.lex_number();
            return;
        }
        if c == '"' {
            self.lex_string();
            return;
        }
        if c == '\'' {
            self.lex_glyph();
            return;
        }
        if c == '`' {
            self.lex_format_string();
            return;
        }
        if self.lex_multi_char_operator() {
            return;
        }
        let start = self.pos;
        let start_byte = self.cursor;
        proof {
            self.lemma_ends();
        }
        self.bump();
        proof {
            assert(self.chars@.subrange(start as int, self.pos as int) =~= seq![c]);
        }
        match single_char_token_kind(c) {
            Some(kind) => self.emit(start, start_byte, kind),
            None => {
                let mut message = "unexpected character `".to_owned();
                let shown = char_string(c);
                message.append(shown.as_str());
                message.append("`");
                self.report(start_byte, self.cursor, message);
                self.emit(start, start_byte, TokenKind::Error);
            },
        }
    }
}

/// The value of a hexadecimal digit.
pub open spec fn hex_digit_value(c: char) -> nat {
    if '0' <= c && c <= '9' {
        (c as nat - '0' as nat) as nat
    } else if 'a' <= c && c <= 'f' {
        (c as nat - 'a' as nat + 10) as nat
    } else {
        (c as nat - 'A' as nat + 10) as nat
    }
}

/// The number a run of hexadecimal digits spells.
pub open spec fn hex_value(t: Seq<char>) -> nat
    decreases t.len(),
{
    if t.len() == 0 {
        0
    } else {
        hex_value(t.drop_last()) * 16 + hex_digit_value(t.last())
    }
}

/// Whether a number is a Unicode scalar value: at most `0x10FFFF`, and not
/// a surrogate.
pub open spec fn is_scalar_value(v: nat) -> bool {
    v <= 0x10FFFF && !(0xD800 <= v && v <= 0xDFFF)
}

/// Whether the hexadecimal digits `from..to` spell a Unicode scalar value.
fn hex_scalar(chars: &Vec<char>, from: usize, to: usize) -> (b: bool)
    requires
        from <= to <= chars.len(),
        forall|k: int| from <= k < to ==> is_hex_digit_spec(#[trigger] chars@[k]),
    ensures
        b == is_scalar_value(hex_value(chars@.subrange(from as int, to as int))),
{
    let mut value: u32 = 0;
    let mut big = false;
    let mut i = from;
    proof {
        assert(chars@.subrange(from as int, from as int) =~= Seq::<char>::empty());
    }
    while i < to
        invariant
            from <= i <= to <= chars.len(),
            forall|k: int| from <= k < to ==> is_hex_digit_spec(#[trigger] chars@[k]),
            big ==> hex_value(chars@.subrange(from as int, i as int)) > 0x10FFFF,
            !big ==> value == hex_value(chars@.subrange(from as int, i as int)) && value <= 0x10FFFF,
        decreases to - i,
    {
        let c = chars[i];
        let digit: u32 = if '0' <= c && c <= '9' {
            (c as u32) - ('0' as u32)
        } else if 'a' <= c && c <= 'f' {
            (c as u32) - ('a' as u32) + 10
        } else {
            (c as u32) - ('A' as u32) + 10
        };
        proof {
            assert(is_hex_digit_spec(chars@[i as int]));
            assert(chars@.subrange(from as int, i + 1).drop_last() =~= chars@.subrange(
                from as int,
                i as int,
            ));
            assert(digit == hex_digit_value(c));
        }
        if !big {
            let next = value * 16 + digit;
            if next > 0x10FFFF {
                big = true;
            } else {
                value = next;
            }
        }
        i = i + 1;
    }
    !big && !(0xD800 <= value && value <= 0xDFFF)
}

/// Lex a whole source text.
pub fn lex(source_file: Source, source: &str) -> (out: (Vec<Token>, Vec<Diagnostic>))
    requires
        utf8_len(source@) <= usize::MAX,
    ensures
        lexed(source_file, source@, out.0@, out.1@),
{
    let mut lexer = Lexer::new(source_file, source);
    let ghost mut opened = false;
    while lexer.pos < lexer.chars.len()
        invariant
            lexer.wf(),
            lexer.chars@ == source@,
            lexer.source_file == source_file,
            kinds(lexer.tokens@) + tokenize(source@, lexer.pos as int) == tokenize(source@, 0),
            comment_open(source@, 0) == (opened || comment_open(source@, lexer.pos as int)),
            lexer.diagnostics.len() > 0 <==> has_error(lexer.tokens@) || opened,
        decreases lexer.chars.len() - lexer.pos,
    {
        let ghost p = lexer.pos;
        let ghost before = lexer.tokens@;
        let ghost diagnostics_before = lexer.diagnostics@;
        lexer.skip_trivia();
        proof {
            if trivia_open(source@, p as int, 0, false) {
                opened = true;
            }
        }
        if lexer.pos < lexer.chars.len() {
            let ghost q = lexer.pos;
            let ghost mid = lexer.diagnostics@;
            lexer.lex_token();
            proof {
                if lexer.tokens@.last().kind == TokenKind::Error {
                    assert(lexer.tokens@[lexer.tokens@.len() - 1].kind == TokenKind::Error);
                }
                if has_error(before) {
                    let i = choose|i: int| 0 <= i < before.len() && #[trigger] before[i].kind == TokenKind::Error;
                    assert(lexer.tokens@[i].kind == TokenKind::Error);
                }
                let l = lexeme(source@, q as int);
                assert(tokenize(source@, p as int) == seq![l.1] + tokenize(source@, l.0));
                assert(lexer.tokens@ == before.push(lexer.tokens@.last()));
                assert(kinds(lexer.tokens@) =~= kinds(before).push(l.1));
                assert(kinds(lexer.tokens@) + tokenize(source@, lexer.pos as int) =~= kinds(before) + tokenize(source@, p as int));
            }
        } else {
            proof {
                assert(tokenize(source@, p as int) =~= Seq::<TokenKind>::empty());
                assert(tokenize(source@, lexer.pos as int) =~= Seq::<TokenKind>::empty());
            }
        }
    }
    let eof = TextSize::from_usize(lexer.cursor);
    let ghost before = lexer.tokens@;
    lexer.tokens.push(Token::new(TokenKind::EndOfFile, TextRange::empty(source_file, eof)));
    proof {
        lemma_offset_full(lexer.chars@);
        assert(lexer.tokens@.drop_last() =~= before);
        assert(tokenize(source@, lexer.pos as int) =~= Seq::<TokenKind>::empty());
        assert(kinds(before) + tokenize(source@, lexer.pos as int) =~= kinds(before));
        assert(spans_ok(source_file, source@, lexer.tokens@.drop_last(), lexer.spans@, source@.len() as int));
        if has_error(lexer.tokens@) {
            let i = choose|i: int| 0 <= i < lexer.tokens@.len() && #[trigger] lexer.tokens@[i].kind == TokenKind::Error;
            assert(i < before.len());
            assert(before[i].kind == TokenKind::Error);
            assert(has_error(before));
        }
    }
    (lexer.tokens, lexer.diagnostics)
}

} // verus!
