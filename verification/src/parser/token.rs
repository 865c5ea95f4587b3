//! The tokens of the surface language.
use vstd::prelude::*;

use crate::reporting::TextRange;

verus! {

#[derive(Debug, Clone, Copy, PartialEq, Eq, Structural, Hash)]
pub enum Keyword {
    Bundle,
    Import,
    Module,
    End,
    Let,
    Do,
    Use,
    As,
    In,
    Type,
    Trait,
    Impl,
    For,
    Where,
    Fn,
    If,
    Then,
    Else,
    Match,
    With,
    Wasm,
    Root,
    True,
    False,
    Mod,
    Xor,
    Or,
    And,
    Not,
}

#[derive(Debug, Clone, Copy, PartialEq, Eq, Structural, Hash)]
pub enum Operator {
    Plus,
    Minus,
    Star,
    Slash,
    ComposeRight,
    ComposeLeft,
    PipeRight,
    PlusPipe,
    StarPipe,
    EqualEqual,
    BangEqual,
    Less,
    LessEqual,
    Greater,
    GreaterEqual,
    Semicolon,
    Arrow,
    FatArrow,
    PathSep,
    Spread,
}

#[derive(Debug, Clone, Copy, PartialEq, Eq, Structural, Hash)]
pub enum Punct {
    LParen,
    RParen,
    LBrace,
    RBrace,
    LBracket,
    RBracket,
    Comma,
    Colon,
    Dot,
    Pipe,
    Equals,
    Tilde,
    Dollar,
}

#[derive(Debug, Clone, Copy, PartialEq, Eq, Structural, Hash)]
pub enum TokenKind {
    Keyword(Keyword),
    Operator(Operator),
    Punct(Punct),
    Ident,
    BracketedIdent,
    IntegerLiteral,
    NaturalLiteral,
    RealLiteral,
    StringLiteral,
    GlyphLiteral,
    FormatStringLiteral,
    EndOfFile,
    Error,
}

#[derive(Debug, Clone, Copy, PartialEq, Eq, Structural, Hash)]
pub struct Token {
    pub kind: TokenKind,
    pub range: TextRange,
}

impl Token {
    pub fn new(kind: TokenKind, range: TextRange) -> (token: Token)
        ensures
            token == (Token { kind, range }),
    {
        Token { kind, range }
    }
}

/// How each keyword is spelled.
pub open spec fn keyword_text(k: Keyword) -> Seq<char> {
    match k {
        Keyword::Bundle => "bundle"@,
        Keyword::Import => "import"@,
        Keyword::Module => "module"@,
        Keyword::End => "end"@,
        Keyword::Let => "let"@,
        Keyword::Do => "do"@,
        Keyword::Use => "use"@,
        Keyword::As => "as"@,
        Keyword::In => "in"@,
        Keyword::Type => "type"@,
        Keyword::Trait => "trait"@,
        Keyword::Impl => "impl"@,
        Keyword::For => "for"@,
        Keyword::Where => "where"@,
        Keyword::Fn => "fn"@,
        Keyword::If => "if"@,
        Keyword::Then => "then"@,
        Keyword::Else => "else"@,
        Keyword::Match => "match"@,
        Keyword::With => "with"@,
        Keyword::Wasm => "wasm"@,
        Keyword::Root => "root"@,
        Keyword::True => "true"@,
        Keyword::False => "false"@,
        Keyword::Mod => "mod"@,
        Keyword::Xor => "xor"@,
        Keyword::Or => "or"@,
        Keyword::And => "and"@,
        Keyword::Not => "not"@,
    }
}

/// How each operator is spelled.
pub open spec fn operator_text(op: Operator) -> Seq<char> {
    match op {
        Operator::Plus => seq!['+'],
        Operator::Minus => seq!['-'],
        Operator::Star => seq!['*'],
        Operator::Slash => seq!['/'],
        Operator::ComposeRight => seq!['>', '>'],
        Operator::ComposeLeft => seq!['<', '<'],
        Operator::PipeRight => seq!['|', '>'],
        Operator::PlusPipe => seq!['+', '>'],
        Operator::StarPipe => seq!['*', '>'],
        Operator::EqualEqual => seq!['=', '='],
        Operator::BangEqual => seq!['!', '='],
        Operator::Less => seq!['<'],
        Operator::LessEqual => seq!['<', '='],
        Operator::Greater => seq!['>'],
        Operator::GreaterEqual => seq!['>', '='],
        Operator::Semicolon => seq![';'],
        Operator::Arrow => seq!['-', '>'],
        Operator::FatArrow => seq!['=', '>'],
        Operator::PathSep => seq![':', ':'],
        Operator::Spread => seq!['.', '.'],
    }
}

/// How each punctuation mark is spelled.
pub open spec fn punct_text(p: Punct) -> Seq<char> {
    match p {
        Punct::LParen => seq!['('],
        Punct::RParen => seq![')'],
        Punct::LBrace => seq!['{'],
        Punct::RBrace => seq!['}'],
        Punct::LBracket => seq!['['],
        Punct::RBracket => seq![']'],
        Punct::Comma => seq![','],
        Punct::Colon => seq![':'],
        Punct::Dot => seq!['.'],
        Punct::Pipe => seq!['|'],
        Punct::Equals => seq!['='],
        Punct::Tilde => seq!['~'],
        Punct::Dollar => seq!['$'],
    }
}

} // verus!
