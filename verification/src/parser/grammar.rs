//! The pieces of the surface grammar that stand on their own: which
//! keywords open or close a statement, where an expression stops, and what a
//! quoted string literal spells.
use vstd::prelude::*;

use super::ast::Statement;
use super::token::Keyword;
use crate::reporting::TextRange;
use crate::text::{char_from_u32, chars_of, text_of};

verus! {

/// Where an expression is being parsed: among statements, or among the
/// items of an `impl`.
#[derive(Debug, Clone, Copy, PartialEq, Eq, Structural)]
pub enum ExprBoundary {
    Statement,
    ImplItem,
}

/// The tokens an expression stops at, beyond its boundary's keywords.
#[derive(Debug, Clone, Copy, PartialEq, Eq, Structural)]
pub struct ExprStop {
    pub boundary: ExprBoundary,
    pub stop_on_in: bool,
    pub stop_on_then: bool,
    pub stop_on_else: bool,
    pub stop_on_with: bool,
    pub stop_on_pipe: bool,
    pub stop_on_comma: bool,
    pub stop_on_rparen: bool,
    pub stop_on_rbracket: bool,
    pub stop_on_rbrace: bool,
}

impl ExprStop {
    /// Stop only at the boundary's keywords.
    pub fn for_boundary(boundary: ExprBoundary) -> (stop: ExprStop)
        ensures
            stop == (ExprStop {
                boundary,
                stop_on_in: false,
                stop_on_then: false,
                stop_on_else: false,
                stop_on_with: false,
                stop_on_pipe: false,
                stop_on_comma: false,
                stop_on_rparen: false,
                stop_on_rbracket: false,
                stop_on_rbrace: false,
            }),
    {
        ExprStop {
            boundary,
            stop_on_in: false,
            stop_on_then: false,
            stop_on_else: false,
            stop_on_with: false,
            stop_on_pipe: false,
            stop_on_comma: false,
            stop_on_rparen: false,
            stop_on_rbracket: false,
            stop_on_rbrace: false,
        }
    }

    pub fn with_in(self) -> (stop: ExprStop)
        ensures
            stop == (ExprStop { stop_on_in: true, ..self }),
    {
        ExprStop { stop_on_in: true, ..self }
    }

    pub fn with_then(self) -> (stop: ExprStop)
        ensures
            stop == (ExprStop { stop_on_then: true, ..self }),
    {
        ExprStop { stop_on_then: true, ..self }
    }

    pub fn with_else(self) -> (stop: ExprStop)
        ensures
            stop == (ExprStop { stop_on_else: true, ..self }),
    {
        ExprStop { stop_on_else: true, ..self }
    }

    pub fn with_with(self) -> (stop: ExprStop)
        ensures
            stop == (ExprStop { stop_on_with: true, ..self }),
    {
        ExprStop { stop_on_with: true, ..self }
    }

    pub fn with_pipe(self) -> (stop: ExprStop)
        ensures
            stop == (ExprStop { stop_on_pipe: true, ..self }),
    {
        ExprStop { stop_on_pipe: true, ..self }
    }

    pub fn with_comma(self) -> (stop: ExprStop)
        ensures
            stop == (ExprStop { stop_on_comma: true, ..self }),
    {
        ExprStop { stop_on_comma: true, ..self }
    }

    pub fn with_rparen(self) -> (stop: ExprStop)
        ensures
            stop == (ExprStop { stop_on_rparen: true, ..self }),
    {
        ExprStop { stop_on_rparen: true, ..self }
    }

    pub fn with_rbracket(self) -> (stop: ExprStop)
        ensures
            stop == (ExprStop { stop_on_rbracket: true, ..self }),
    {
        ExprStop { stop_on_rbracket: true, ..self }
    }

    pub fn with_rbrace(self) -> (stop: ExprStop)
        ensures
            stop == (ExprStop { stop_on_rbrace: true, ..self }),
    {
        ExprStop { stop_on_rbrace: true, ..self }
    }
}

/// The keywords that open a statement.
pub open spec fn starts_statement(keyword: Keyword) -> bool {
    match keyword {
        Keyword::Bundle | Keyword::Module | Keyword::Let | Keyword::Do | Keyword::Use
        | Keyword::Type | Keyword::Trait | Keyword::Impl | Keyword::Wasm => true,
        _ => false,
    }
}

pub fn is_statement_start_keyword(keyword: Keyword) -> (b: bool)
    ensures
        b == starts_statement(keyword),
{
    match keyword {
        Keyword::Bundle | Keyword::Module | Keyword::Let | Keyword::Do | Keyword::Use
        | Keyword::Type | Keyword::Trait | Keyword::Impl | Keyword::Wasm => true,
        _ => false,
    }
}

/// A keyword that opens a statement, or `end`.
pub fn is_statement_boundary_keyword(keyword: Keyword) -> (b: bool)
    ensures
        b == (starts_statement(keyword) || keyword == Keyword::End),
{
    is_statement_start_keyword(keyword) || keyword == Keyword::End
}

/// The keyword a statement of each form is written with; an erroneous
/// statement has none.
pub open spec fn statement_keyword(st: Statement) -> Option<Keyword> {
    match st {
        Statement::Bundle { .. } => Some(Keyword::Bundle),
        Statement::Module { .. } | Statement::ModuleRef { .. } => Some(Keyword::Module),
        Statement::Let { .. } => Some(Keyword::Let),
        Statement::Do { .. } => Some(Keyword::Do),
        Statement::Use { .. } => Some(Keyword::Use),
        Statement::Type { .. } => Some(Keyword::Type),
        Statement::Trait { .. } | Statement::TraitAlias { .. } => Some(Keyword::Trait),
        Statement::Impl { .. } => Some(Keyword::Impl),
        Statement::Wasm { .. } => Some(Keyword::Wasm),
        Statement::Error(_) => None,
    }
}

/// The keywords that open a statement are exactly those some statement
/// form is written with; `end` closes a body without opening one, and is a
/// boundary all the same.
pub proof fn lemma_statement_keywords(st: Statement, k: Keyword)
    ensures
        statement_keyword(st) matches Some(w) ==> starts_statement(w),
        starts_statement(k) ==> exists|s: Statement| statement_keyword(s) == Some(k),
        !starts_statement(Keyword::End),
{
    if starts_statement(k) {
        let r = TextRange::Generated;
        let s = match k {
            Keyword::Bundle => Statement::Bundle { name: None, range: r },
            Keyword::Module => Statement::ModuleRef { name: None, in_loc: None, range: r },
            Keyword::Let => Statement::Let {
                kind: super::ast::LetStatementKind::ConstructorAlias { alias: None, target: None },
                range: r,
            },
            Keyword::Do => Statement::Do { expr: super::ast::Expr::Unit { range: r }, range: r },
            Keyword::Use => Statement::Use { target: None, alias: None, range: r },
            Keyword::Type => Statement::Type {
                name: None,
                params: vstd::pervasive::arbitrary(),
                kind: super::ast::TypeStatementKind::Alias { value: super::ast::TypeExpr::Unit { range: r } },
                range: r,
            },
            Keyword::Trait => Statement::TraitAlias { name: None, target: None, range: r },
            Keyword::Impl => Statement::Impl {
                trait_ref: None,
                for_types: vstd::pervasive::arbitrary(),
                items: vstd::pervasive::arbitrary(),
                range: r,
            },
            _ => Statement::Wasm { declarations: vstd::pervasive::arbitrary(), range: r },
        };
        assert(statement_keyword(s) == Some(k));
    }
}

/// The character a one-letter escape stands for.
pub open spec fn simple_escape(c: char) -> Option<char> {
    if c == 'n' {
        Some('\n')
    } else if c == 't' {
        Some('\t')
    } else if c == 'r' {
        Some('\r')
    } else if c == '\\' {
        Some('\\')
    } else if c == '"' {
        Some('"')
    } else if c == '\'' {
        Some('\'')
    } else {
        None
    }
}

/// A hexadecimal digit of either case.
pub open spec fn is_hex_char(c: char) -> bool {
    ('0' <= c && c <= '9') || ('a' <= c && c <= 'f') || ('A' <= c && c <= 'F')
}

pub open spec fn hex_char_value(c: char) -> nat {
    if c <= '9' {
        (c as nat - 48) as nat
    } else if c <= 'F' {
        (c as nat - 55) as nat
    } else {
        (c as nat - 87) as nat
    }
}

/// The number hexadecimal digits spell.
pub open spec fn hex_digits_value(t: Seq<char>) -> nat
    decreases t.len(),
{
    if t.len() == 0 {
        0
    } else {
        hex_digits_value(t.drop_last()) * 16 + hex_char_value(t.last())
    }
}

/// What `u32::from_str_radix(t, 16)` reads: an optional `+`, then one or
/// more hexadecimal digits of either case, whose number fits in 32 bits.
pub open spec fn hex_u32(t: Seq<char>) -> Option<u32> {
    unsigned_hex(
        if t.len() > 0 && t[0] == '+' {
            t.drop_first()
        } else {
            t
        },
    )
}

/// One or more hexadecimal digits of either case, whose number fits in 32
/// bits.
pub open spec fn unsigned_hex(digits: Seq<char>) -> Option<u32> {
    if digits.len() > 0 && (forall|i: int| 0 <= i < digits.len() ==> is_hex_char(#[trigger] digits[i]))
        && hex_digits_value(digits) <= u32::MAX {
        Some(hex_digits_value(digits) as u32)
    } else {
        None
    }
}

/// The first `}` at or after `i`.
pub open spec fn closing_brace(t: Seq<char>, i: int) -> Option<int>
    decreases t.len() - i,
{
    if i < 0 || i >= t.len() {
        None
    } else if t[i] == '}' {
        Some(i)
    } else {
        closing_brace(t, i + 1)
    }
}

/// A Unicode scalar value.
pub open spec fn is_scalar_value(v: u32) -> bool {
    v <= 0xD7FF || (0xE000 <= v && v <= 0x10FFFF)
}

/// Prepend a character to a decoded rest, if there is one.
pub open spec fn prepend(c: char, rest: Option<Seq<char>>) -> Option<Seq<char>> {
    match rest {
        Some(r) => Some(seq![c] + r),
        None => None,
    }
}

/// The characters the body of a string literal spells from `i` on: plain
/// characters stand for themselves, `\` and a letter for the character
/// the letter names, and `\u{...}` for the codepoint its hexadecimal digits
/// spell. None where an escape is malformed.
pub open spec fn decode_from(t: Seq<char>, i: int) -> Option<Seq<char>>
    decreases t.len() - i, 1int,
{
    if i < 0 || i >= t.len() {
        Some(Seq::empty())
    } else if t[i] != '\\' {
        prepend(t[i], decode_from(t, i + 1))
    } else if i + 1 >= t.len() {
        None
    } else if simple_escape(t[i + 1]) is Some {
        prepend(simple_escape(t[i + 1])->0, decode_from(t, i + 2))
    } else if t[i + 1] == 'u' {
        decode_unicode_escape(t, i)
    } else {
        None
    }
}

/// A `\u{...}` escape starting at `i`, and what follows it.
pub open spec fn decode_unicode_escape(t: Seq<char>, i: int) -> Option<Seq<char>>
    decreases t.len() - i, 0int,
{
    if 0 <= i && i + 2 < t.len() && t[i + 2] == '{' {
        match closing_brace(t, i + 3) {
            Some(k) => if k > i + 3 && k < t.len() {
                match hex_u32(t.subrange(i + 3, k)) {
                    Some(v) => if is_scalar_value(v) {
                        prepend(v as char, decode_from(t, k + 1))
                    } else {
                        None
                    },
                    None => None,
                }
            } else {
                None
            },
            None => None,
        }
    } else {
        None
    }
}

/// The value of a quoted string literal: none unless it is quoted at both
/// ends and every escape in it is well formed.
pub open spec fn string_literal_value(raw: Seq<char>) -> Option<Seq<char>> {
    if raw.len() >= 2 && raw[0] == '"' && raw.last() == '"' {
        decode_from(raw.subrange(1, raw.len() - 1), 0)
    } else {
        None
    }
}

/// How a character is written inside a string literal: a backslash and a
/// letter for a tab, a newline, a carriage return, a backslash and the two
/// quotes; itself otherwise.
pub open spec fn quoted_char(c: char) -> Seq<char> {
    if c == '\t' {
        seq!['\\', 't']
    } else if c == '\n' {
        seq!['\\', 'n']
    } else if c == '\r' {
        seq!['\\', 'r']
    } else if c == '\\' {
        seq!['\\', '\\']
    } else if c == '"' {
        seq!['\\', '"']
    } else if c == '\'' {
        seq!['\\', '\'']
    } else {
        seq![c]
    }
}

/// How a text is written between the quotes of a string literal.
pub open spec fn quoted_text(s: Seq<char>) -> Seq<char>
    decreases s.len(),
{
    if s.len() == 0 {
        Seq::empty()
    } else {
        quoted_char(s[0]) + quoted_text(s.drop_first())
    }
}

/// Decoding from the start of a quoted text, after any prefix, reads the
/// text back.
proof fn lemma_decode_quoted(pre: Seq<char>, s: Seq<char>)
    ensures
        decode_from(pre + quoted_text(s), pre.len() as int) == Some(s),
    decreases s.len(),
{
    let t = pre + quoted_text(s);
    if s.len() == 0 {
        assert(t =~= pre);
        assert(s =~= Seq::<char>::empty());
    } else {
        let c = s[0];
        let rest = s.drop_first();
        let q = quoted_char(c);
        assert(t =~= (pre + q) + quoted_text(rest));
        lemma_decode_quoted(pre + q, rest);
        let i = pre.len() as int;
        assert(t[i] == q[0]);
        if q.len() == 2 {
            assert(t[i + 1] == q[1]);
            assert(simple_escape(q[1]) == Some(c));
        }
        assert(seq![c] + rest =~= s);
    }
}

/// A string literal written from any text decodes back to that text: every
/// escape reads as the character it stands for.
pub proof fn lemma_string_literal_round_trip(s: Seq<char>)
    ensures
        string_literal_value(seq!['"'] + quoted_text(s) + seq!['"']) == Some(s),
{
    let raw = seq!['"'] + quoted_text(s) + seq!['"'];
    assert(raw.subrange(1, raw.len() - 1) =~= Seq::<char>::empty() + quoted_text(s));
    lemma_decode_quoted(Seq::empty(), s);
}

/// The number the hexadecimal digits `from..to` spell, read as
/// `u32::from_str_radix` reads them.
fn parse_hex_u32(t: &Vec<char>, from: usize, to: usize) -> (v: Option<u32>)
    requires
        from <= to <= t.len(),
    ensures
        v == hex_u32(t@.subrange(from as int, to as int)),
{
    let ghost whole = t@.subrange(from as int, to as int);
    let mut start = from;
    if from < to && t[from] == '+' {
        start = from + 1;
    }
    let ghost digits = t@.subrange(start as int, to as int);
    proof {
        if from < to && t@[from as int] == '+' {
            assert(whole.drop_first() =~= digits);
        } else {
            assert(whole =~= digits);
        }
        assert(hex_u32(whole) == unsigned_hex(digits));
    }
    if start == to {
        return None;
    }
    let mut value: u64 = 0;
    let mut i = start;
    proof {
        assert(t@.subrange(start as int, start as int) =~= Seq::<char>::empty());
    }
    while i < to
        invariant
            from <= start <= i <= to <= t.len(),
            digits == t@.subrange(start as int, to as int),
            forall|k: int| start <= k < i ==> is_hex_char(#[trigger] t@[k]),
            value == hex_digits_value(t@.subrange(start as int, i as int)),
            value <= u32::MAX,
            hex_u32(whole) == unsigned_hex(digits),
            whole == t@.subrange(from as int, to as int),
        decreases to - i,
    {
        let c = t[i];
        let d: u64 = if '0' <= c && c <= '9' {
            (c as u32 - 48) as u64
        } else if 'a' <= c && c <= 'f' {
            (c as u32 - 87) as u64
        } else if 'A' <= c && c <= 'F' {
            (c as u32 - 55) as u64
        } else {
            proof {
                assert(digits[i - start] == c);
                assert(!is_hex_char(digits[i - start]));
            }
            return None;
        };
        proof {
            let next = t@.subrange(start as int, i + 1);
            assert(next.drop_last() =~= t@.subrange(start as int, i as int));
            assert(next.last() == c);
            assert(d == hex_char_value(c));
        }
        if value > (0xFFFF_FFFFu64 - d) / 16 {
            proof {
                let n = hex_digits_value(t@.subrange(start as int, i + 1));
                assert(n > u32::MAX) by (nonlinear_arith)
                    requires
                        n == value * 16 + d,
                        value > (0xFFFF_FFFFu64 - d) / 16,
                        d < 16,
                ;
                lemma_hex_digits_grow(digits, i + 1 - start);
                assert(digits.take(i + 1 - start) =~= t@.subrange(start as int, i + 1));
            }
            return None;
        }
        proof {
            assert(value * 16 + d <= u32::MAX) by (nonlinear_arith)
                requires
                    value <= (0xFFFF_FFFFu64 - d) / 16,
                    d < 16,
            ;
        }
        value = value * 16 + d;
        i = i + 1;
    }
    proof {
        assert(t@.subrange(start as int, i as int) =~= digits);
    }
    Some(value as u32)
}

/// A run of hexadecimal digits spells at least what any prefix of it
/// spells.
proof fn lemma_hex_digits_grow(t: Seq<char>, k: int)
    requires
        0 <= k <= t.len(),
    ensures
        hex_digits_value(t.take(k)) <= hex_digits_value(t),
    decreases t.len() - k,
{
    if k < t.len() {
        lemma_hex_digits_grow(t, k + 1);
        assert(t.take(k + 1).drop_last() =~= t.take(k));
        assert(hex_digits_value(t.take(k)) <= hex_digits_value(t.take(k)) * 16) by (nonlinear_arith);
    } else {
        assert(t.take(k) =~= t);
    }
}

/// The value of a quoted string literal, where it is one.
pub fn decode_string_literal(raw: &str) -> (value: Option<String>)
    ensures
        value matches Some(v) ==> string_literal_value(raw@) == Some(v@),
        value is None ==> string_literal_value(raw@) is None,
{
    let chars = chars_of(raw);
    let n = chars.len();
    if n < 2 || chars[0] != '"' || chars[n - 1] != '"' {
        return None;
    }
    let mut content: Vec<char> = Vec::new();
    let mut k: usize = 1;
    while k < n - 1
        invariant
            chars@ == raw@,
            n == chars.len(),
            n >= 2,
            1 <= k <= n - 1,
            content@ == chars@.subrange(1, k as int),
        decreases n - 1 - k,
    {
        content.push(chars[k]);
        proof {
            assert(chars@.subrange(1, k + 1) =~= chars@.subrange(1, k as int).push(chars@[k as int]));
        }
        k = k + 1;
    }
    let ghost t = content@;
    let mut out: Vec<char> = Vec::new();
    let mut i: usize = 0;
    proof {
        assert(raw@.subrange(1, raw@.len() - 1) =~= t);
    }
    while i < content.len()
        invariant
            t == content@,
            i <= content.len(),
            string_literal_value(raw@) == decode_from(t, 0),
            decode_from(t, 0) == match decode_from(t, i as int) {
                Some(r) => Some(out@ + r),
                None => None,
            },
        decreases content.len() - i,
    {
        let c = content[i];
        if c != '\\' {
            out.push(c);
            proof {
                assert(decode_from(t, i as int) == prepend(c, decode_from(t, i + 1)));
                match decode_from(t, i + 1) {
                    Some(r) => {
                        assert(out@ + r =~= out@.drop_last() + (seq![c] + r));
                    },
                    None => {},
                }
            }
            i = i + 1;
        } else {
            if i + 1 >= content.len() {
                proof {
                    assert(decode_from(t, i as int) is None);
                }
                return None;
            }
            let e = content[i + 1];
            let simple = if e == 'n' {
                Some('\n')
            } else if e == 't' {
                Some('\t')
            } else if e == 'r' {
                Some('\r')
            } else if e == '\\' {
                Some('\\')
            } else if e == '"' {
                Some('"')
            } else if e == '\'' {
                Some('\'')
            } else {
                None
            };
            match simple {
                Some(decoded) => {
                    out.push(decoded);
                    proof {
                        assert(decode_from(t, i as int) == prepend(decoded, decode_from(t, i + 2)));
                        match decode_from(t, i + 2) {
                            Some(r) => {
                                assert(out@ + r =~= out@.drop_last() + (seq![decoded] + r));
                            },
                            None => {},
                        }
                    }
                    i = i + 2;
                },
                None => {
                    if e != 'u' {
                        proof {
                            assert(decode_from(t, i as int) is None);
                        }
                        return None;
                    }
                    if i + 2 >= content.len() || content[i + 2] != '{' {
                        proof {
                            assert(decode_from(t, i as int) == decode_unicode_escape(t, i as int));
                        }
                        return None;
                    }
                    let mut close = i + 3;
                    while close < content.len() && content[close] != '}'
                        invariant
                            t == content@,
                            i + 3 <= close <= content.len(),
                            closing_brace(t, i + 3) == closing_brace(t, close as int),
                        decreases content.len() - close,
                    {
                        close = close + 1;
                    }
                    proof {
                        assert(decode_from(t, i as int) == decode_unicode_escape(t, i as int));
                        if close < content.len() {
                            assert(closing_brace(t, close as int) == Some(close as int));
                        }
                    }
                    if close >= content.len() {
                        proof {
                            assert(closing_brace(t, close as int) is None);
                        }
                        return None;
                    }
                    if close == i + 3 {
                        return None;
                    }
                    let value = match parse_hex_u32(&content, i + 3, close) {
                        Some(v) => v,
                        None => {
                            return None;
                        },
                    };
                    let decoded = match char_from_u32(value) {
                        Some(d) => d,
                        None => {
                            return None;
                        },
                    };
                    out.push(decoded);
                    proof {
                        assert(decode_from(t, i as int) == decode_unicode_escape(t, i as int));
                        assert(decode_unicode_escape(t, i as int) == prepend(decoded, decode_from(t, close + 1)));
                        match decode_from(t, close + 1) {
                            Some(r) => {
                                assert(out@ + r =~= out@.drop_last() + (seq![decoded] + r));
                            },
                            None => {},
                        }
                    }
                    i = close + 1;
                },
            }
        }
    }
    proof {
        assert(decode_from(t, i as int) == Some(Seq::<char>::empty()));
        assert(out@ + Seq::<char>::empty() =~= out@);
    }
    Some(text_of(&out))
}

} // verus!
