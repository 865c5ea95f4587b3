//! The escaping of names in mangled symbols. A name is rewritten as ASCII
//! letters and digits: every other character, and a leading digit, becomes
//! `_`, its codepoint in uppercase hexadecimal, `_`. Every `_` in an escaped
//! name opens or closes an escape, and escapes are never empty and carry no
//! leading zero, so the escaping is undone exactly.
use vstd::prelude::*;

use crate::symbol::is_ascii_alnum;
use crate::text::{char_from_u32, chars_of, decimal_of, is_ascii_digit_spec, push_decimal, text_of};
use vstd::string::StringExecFns;

verus! {

/// Whether `c` is escaped at its position: anything but an ASCII letter or
/// digit, and a digit that opens the name.
pub open spec fn escapes(c: char, first: bool) -> bool {
    !is_ascii_alnum(c) || (first && is_ascii_digit_spec(c))
}

/// The uppercase hexadecimal digit for a value below sixteen.
pub open spec fn hex_digit(v: nat) -> char {
    if v < 10 {
        (v + 48) as char
    } else {
        (v + 55) as char
    }
}

/// An uppercase hexadecimal digit.
pub open spec fn is_upper_hex(c: char) -> bool {
    ('0' <= c && c <= '9') || ('A' <= c && c <= 'F')
}

/// The value of an uppercase hexadecimal digit.
pub open spec fn hex_value(c: char) -> nat {
    if c <= '9' {
        (c as nat - 48) as nat
    } else {
        (c as nat - 55) as nat
    }
}

/// A value in uppercase hexadecimal, with no leading zero.
pub open spec fn hex_of(v: nat) -> Seq<char>
    decreases v,
{
    if v < 16 {
        seq![hex_digit(v)]
    } else {
        hex_of(v / 16).push(hex_digit(v % 16))
    }
}

/// The number a run of hexadecimal digits spells.
pub open spec fn hex_number(t: Seq<char>) -> nat
    decreases t.len(),
{
    if t.len() == 0 {
        0
    } else {
        hex_number(t.drop_last()) * 16 + hex_value(t.last())
    }
}

/// The codepoint of a character.
pub open spec fn code(c: char) -> nat {
    (c as u32) as nat
}

/// One character as it stands in an escaped name.
pub open spec fn escaped(c: char, first: bool) -> Seq<char> {
    if escapes(c, first) {
        seq!['_'] + hex_of(code(c)) + seq!['_']
    } else {
        seq![c]
    }
}

/// The escaping of `s`, its first character opening the name when `first`.
pub open spec fn escape_from(s: Seq<char>, first: bool) -> Seq<char>
    decreases s.len(),
{
    if s.len() == 0 {
        Seq::empty()
    } else {
        escaped(s[0], first) + escape_from(s.drop_first(), false)
    }
}

/// The escaping of a whole name.
pub open spec fn escape_text(s: Seq<char>) -> Seq<char> {
    escape_from(s, true)
}

proof fn lemma_hex_digit(v: nat)
    requires
        v < 16,
    ensures
        is_upper_hex(hex_digit(v)),
        hex_value(hex_digit(v)) == v,
        hex_digit(v) != '_',
{
}

proof fn lemma_hex_of(v: nat)
    ensures
        hex_of(v).len() > 0,
        forall|i: int| 0 <= i < hex_of(v).len() ==> is_upper_hex(#[trigger] hex_of(v)[i]),
        hex_of(v).len() > 1 ==> hex_of(v)[0] != '0',
        hex_number(hex_of(v)) == v,
    decreases v,
{
    assert(hex_number(Seq::<char>::empty()) == 0);
    if v < 16 {
        lemma_hex_digit(v);
        assert(hex_of(v).drop_last() =~= Seq::<char>::empty());
        assert(hex_number(hex_of(v)) == hex_value(hex_digit(v)));
    } else {
        lemma_hex_of(v / 16);
        lemma_hex_digit(v % 16);
        let h = hex_of(v);
        assert(h.drop_last() =~= hex_of(v / 16));
        assert(h.last() == hex_digit(v % 16));
        assert(hex_number(h) == hex_number(hex_of(v / 16)) * 16 + hex_value(hex_digit(v % 16)));
        assert(hex_number(h) == v);
        assert forall|i: int| 0 <= i < h.len() implies is_upper_hex(#[trigger] h[i]) by {
            if i < h.len() - 1 {
                assert(h[i] == hex_of(v / 16)[i]);
            }
        }
        if hex_of(v / 16).len() == 1 {
            assert(v / 16 >= 1);
            assert(v / 16 < 16) by {
                if v / 16 >= 16 {
                    lemma_hex_of(v / 16 / 16);
                }
            }
            lemma_hex_digit(v / 16);
            assert(hex_digit(v / 16) != '0');
        }
        assert(h[0] == hex_of(v / 16)[0]);
    }
}

/// A run of hexadecimal digits with no leading zero is the hexadecimal
/// spelling of its number.
proof fn lemma_hex_canonical(t: Seq<char>)
    requires
        t.len() > 0,
        forall|i: int| 0 <= i < t.len() ==> is_upper_hex(#[trigger] t[i]),
        t.len() > 1 ==> t[0] != '0',
    ensures
        hex_of(hex_number(t)) == t,
        t.len() > 1 ==> hex_number(t) >= 16,
    decreases t.len(),
{
    let d = t.last();
    assert(is_upper_hex(t[t.len() - 1]));
    assert(hex_value(d) < 16);
    assert(hex_digit(hex_value(d)) == d);
    assert(hex_number(Seq::<char>::empty()) == 0);
    if t.len() == 1 {
        assert(t.drop_last() =~= Seq::<char>::empty());
        assert(hex_number(t) == hex_value(d));
        assert(t =~= seq![d]);
    } else {
        let u = t.drop_last();
        assert forall|i: int| 0 <= i < u.len() implies is_upper_hex(#[trigger] u[i]) by {
            assert(u[i] == t[i]);
        }
        lemma_hex_canonical(u);
        lemma_hex_positive(u);
        let n = hex_number(t);
        assert(n == hex_number(u) * 16 + hex_value(d));
        assert(n / 16 == hex_number(u) && n % 16 == hex_value(d)) by (nonlinear_arith)
            requires
                n == hex_number(u) * 16 + hex_value(d),
                hex_value(d) < 16,
        ;
        assert(t =~= u.push(d));
        assert(hex_of(n) == hex_of(n / 16).push(hex_digit(n % 16)));
    }
}

proof fn lemma_hex_positive(t: Seq<char>)
    requires
        t.len() > 0,
        forall|i: int| 0 <= i < t.len() ==> is_upper_hex(#[trigger] t[i]),
        t[0] != '0',
    ensures
        hex_number(t) >= 1,
    decreases t.len(),
{
    if t.len() > 1 {
        let u = t.drop_last();
        assert forall|i: int| 0 <= i < u.len() implies is_upper_hex(#[trigger] u[i]) by {
            assert(u[i] == t[i]);
        }
        assert(u[0] == t[0]);
        lemma_hex_positive(u);
    } else {
        assert(t.drop_last() =~= Seq::<char>::empty());
        assert(is_upper_hex(t[0]));
    }
}

/// Escaping a sequence extended by one character extends its escaping.
proof fn lemma_escape_push(s: Seq<char>, c: char, first: bool)
    ensures
        escape_from(s.push(c), first) == escape_from(s, first) + escaped(c, first && s.len() == 0),
    decreases s.len(),
{
    if s.len() == 0 {
        assert(s.push(c).drop_first() =~= Seq::<char>::empty());
        assert(escape_from(Seq::<char>::empty(), false) =~= Seq::<char>::empty());
        assert(s.push(c)[0] == c);
        assert(escape_from(s.push(c), first) =~= escaped(c, first));
    } else {
        assert(s.push(c).drop_first() =~= s.drop_first().push(c));
        lemma_escape_push(s.drop_first(), c, false);
        assert(escape_from(s.push(c), first) =~= escape_from(s, first) + escaped(c, false));
    }
}

/// Escaping a concatenation concatenates the escapings.
proof fn lemma_escape_concat(a: Seq<char>, b: Seq<char>, first: bool)
    ensures
        escape_from(a + b, first) == escape_from(a, first) + escape_from(b, first && a.len() == 0),
    decreases a.len(),
{
    if a.len() == 0 {
        assert(a + b =~= b);
    } else {
        assert((a + b).drop_first() =~= a.drop_first() + b);
        lemma_escape_concat(a.drop_first(), b, false);
        assert(escape_from(a + b, first) =~= escape_from(a, first) + escape_from(b, false));
    }
}

/// The escaping of a nonempty sequence opens with its first character's.
proof fn lemma_escape_first(s: Seq<char>, first: bool)
    requires
        s.len() > 0,
    ensures
        escape_from(s, first) == escaped(s[0], first) + escape_from(s.drop_first(), false),
{
}

/// Escaping loses nothing: no two names escape alike.
pub proof fn lemma_escape_injective(a: Seq<char>, b: Seq<char>)
    requires
        escape_text(a) == escape_text(b),
    ensures
        a == b,
{
    lemma_escape_injective_from(a, b, true);
}

proof fn lemma_escape_injective_from(a: Seq<char>, b: Seq<char>, first: bool)
    requires
        escape_from(a, first) == escape_from(b, first),
    ensures
        a == b,
    decreases a.len(),
{
    if a.len() == 0 {
        if b.len() > 0 {
            assert(escape_from(b, first).len() > 0);
        }
        assert(b =~= a);
    } else {
        if b.len() == 0 {
            assert(escape_from(a, first).len() > 0);
        }
        let x = escape_from(a, first);
        let ea = escaped(a[0], first);
        let eb = escaped(b[0], first);
        lemma_escape_first(a, first);
        lemma_escape_first(b, first);
        assert(x.take(ea.len() as int) =~= ea);
        assert(x.take(eb.len() as int) =~= eb);
        lemma_unit_unique(a[0], b[0], first, x);
        assert(x.skip(ea.len() as int) =~= escape_from(a.drop_first(), false));
        assert(x.skip(eb.len() as int) =~= escape_from(b.drop_first(), false));
        lemma_escape_injective_from(a.drop_first(), b.drop_first(), false);
        assert(a =~= seq![a[0]] + a.drop_first());
        assert(b =~= seq![b[0]] + b.drop_first());
    }
}

/// Two characters whose escapings both open `x` are the same character.
proof fn lemma_unit_unique(c: char, d: char, first: bool, x: Seq<char>)
    requires
        escaped(c, first).len() <= x.len(),
        escaped(d, first).len() <= x.len(),
        x.take(escaped(c, first).len() as int) == escaped(c, first),
        x.take(escaped(d, first).len() as int) == escaped(d, first),
    ensures
        c == d,
{
    let ec = escaped(c, first);
    let ed = escaped(d, first);
    assert(ec[0] == x[0]);
    assert(ed[0] == x[0]);
    if escapes(c, first) && escapes(d, first) {
        lemma_hex_of(code(c));
        lemma_hex_of(code(d));
        let hc = hex_of(code(c));
        let hd = hex_of(code(d));
        // The digits run to the first `_` after the opening one.
        if hc.len() < hd.len() {
            assert(ec[hc.len() as int + 1] == '_');
            assert(x[hc.len() as int + 1] == ec[hc.len() as int + 1]);
            assert(x[hc.len() as int + 1] == ed[hc.len() as int + 1]);
            assert(ed[hc.len() as int + 1] == hd[hc.len() as int]);
            assert(is_upper_hex(hd[hc.len() as int]));
        } else if hd.len() < hc.len() {
            assert(ed[hd.len() as int + 1] == '_');
            assert(x[hd.len() as int + 1] == ed[hd.len() as int + 1]);
            assert(x[hd.len() as int + 1] == ec[hd.len() as int + 1]);
            assert(ec[hd.len() as int + 1] == hc[hd.len() as int]);
            assert(is_upper_hex(hc[hd.len() as int]));
        } else {
            assert forall|i: int| 0 <= i < hc.len() implies hc[i] == hd[i] by {
                assert(ec[i + 1] == hc[i]);
                assert(ed[i + 1] == hd[i]);
                assert(x[i + 1] == ec[i + 1]);
                assert(x[i + 1] == ed[i + 1]);
            }
            assert(hc =~= hd);
            lemma_hex_number_inj(code(c), code(d));
            vstd::utf8::char_u32_cast(c, c as u32);
            vstd::utf8::char_u32_cast(d, d as u32);
        }
    } else if escapes(c, first) {
        assert(!escapes(d, first));
        assert(x[0] == '_');
        assert(d == '_');
    } else if escapes(d, first) {
        assert(x[0] == '_');
        assert(c == '_');
    }
}

/// Whether `c` is escaped at its position.
fn needs_escape(c: char, first: bool) -> (b: bool)
    ensures
        b == escapes(c, first),
{
    !(('a' <= c && c <= 'z') || ('A' <= c && c <= 'Z') || ('0' <= c && c <= '9')) || (first && '0'
        <= c && c <= '9')
}

fn hex_digit_of(v: u32) -> (c: char)
    requires
        v < 16,
    ensures
        c == hex_digit(v as nat),
{
    match v {
        0 => '0',
        1 => '1',
        2 => '2',
        3 => '3',
        4 => '4',
        5 => '5',
        6 => '6',
        7 => '7',
        8 => '8',
        9 => '9',
        10 => 'A',
        11 => 'B',
        12 => 'C',
        13 => 'D',
        14 => 'E',
        _ => 'F',
    }
}

/// Append the uppercase hexadecimal spelling of `v`.
fn push_hex(out: &mut Vec<char>, v: u32)
    ensures
        final(out)@ == old(out)@ + hex_of(v as nat),
    decreases v,
{
    if v >= 16 {
        push_hex(out, v / 16);
        out.push(hex_digit_of(v % 16));
        proof {
            assert(hex_of(v as nat) == hex_of((v / 16) as nat).push(hex_digit((v % 16) as nat)));
        }
    } else {
        out.push(hex_digit_of(v));
    }
}

/// The escaping of a name, as ASCII: each character that is not an ASCII
/// letter or digit, and a leading digit, as `_`, its code point in
/// uppercase hex, `_`.
pub fn escape(name: &str) -> (out: String)
    ensures
        out@ == escape_text(name@),
{
    let chars = escape_chars(name);
    text_of(&chars)
}

fn escape_chars(name: &str) -> (out: Vec<char>)
    ensures
        out@ == escape_text(name@),
{
    let chars = chars_of(name);
    let mut out: Vec<char> = Vec::new();
    let mut i: usize = 0;
    while i < chars.len()
        invariant
            chars@ == name@,
            i <= chars.len(),
            out@ == escape_text(chars@.take(i as int)),
        decreases chars.len() - i,
    {
        let c = chars[i];
        let ghost before = out@;
        if needs_escape(c, i == 0) {
            out.push('_');
            push_hex(&mut out, c as u32);
            out.push('_');
        } else {
            out.push(c);
        }
        proof {
            assert(out@ =~= before + escaped(c, i == 0));
            lemma_escape_push(chars@.take(i as int), c, true);
            assert(chars@.take(i + 1) =~= chars@.take(i as int).push(c));
        }
        i = i + 1;
    }
    proof {
        assert(chars@.take(chars.len() as int) =~= chars@);
    }
    out
}

/// The prefix `out` of `s` is decoded, and the escaping of the rest of `s`
/// is what `chars` holds from `at` on.
spec fn decoded_up_to(s: Seq<char>, out: Seq<char>, chars: Seq<char>, at: int) -> bool {
    &&& out.len() <= s.len()
    &&& s.take(out.len() as int) == out
    &&& escape_from(s.skip(out.len() as int), out.len() == 0) == chars.skip(at)
}

/// The hexadecimal digits of the character of `s` after the prefix `out`.
spec fn next_digits(s: Seq<char>, out: Seq<char>) -> Seq<char> {
    hex_of(code(s[out.len() as int]))
}

/// The name an escaped body spells, where it is the escaping of a name.
#[verifier::rlimit(40)]
#[verifier::spinoff_prover]
pub fn unescape(body: &str) -> (r: Option<String>)
    ensures
        forall|s: Seq<char>| (escape_text(s) == body@) <==> (r matches Some(t) && t@ == s),
{
    let chars = chars_of(body);
    let mut out: Vec<char> = Vec::new();
    let mut pos: usize = 0;
    proof {
        assert(chars@.take(0) =~= Seq::<char>::empty());
        assert forall|s: Seq<char>| escape_text(s) == chars@ implies decoded_up_to(s, out@, chars@, 0) by {
            assert(s.take(0) =~= out@);
            assert(s.skip(0) =~= s);
            assert(chars@.skip(0) =~= chars@);
        }
    }
    while pos < chars.len()
        invariant
            chars@ == body@,
            pos <= chars.len(),
            escape_text(out@) == chars@.take(pos as int),
            forall|s: Seq<char>| escape_text(s) == chars@ ==> decoded_up_to(s, out@, chars@, pos as int),
        decreases chars.len() - pos,
    {
        let first = out.len() == 0;
        let c = chars[pos];
        let start = pos;
        pos = pos + 1;
        if c != '_' {
            if needs_escape(c, first) {
                proof {
                    assert forall|s: Seq<char>| escape_text(s) != chars@ by {
                        if escape_text(s) == chars@ {
                            lemma_no_plain_escape(s, out@, chars@, start as int);
                        }
                    }
                }
                return None;
            }
            let ghost before = out@;
            out.push(c);
            proof {
                lemma_escape_push(before, c, true);
                assert(chars@.take(pos as int) =~= chars@.take(start as int) + seq![c]);
                lemma_plain_step(out@, before, c, chars@, start as int);
            }
        } else {
            proof {
                assert forall|s: Seq<char>| escape_text(s) == chars@ implies out@.len() < s.len()
                    && escapes(s[out@.len() as int], first) && start + 1 + next_digits(s, out@).len()
                    < chars.len() && chars@[start + 1 + next_digits(s, out@).len()] == '_'
                    && forall|i: int| 0 <= i < next_digits(s, out@).len() ==> chars@[start + 1 + i]
                    == #[trigger] next_digits(s, out@)[i] by {
                    lemma_escape_opens(s, out@, chars@, start as int);
                }
            }
            let digits_start = pos;
            let mut value: u64 = 0;
            proof {
                assert(chars@.subrange(digits_start as int, pos as int) =~= Seq::<char>::empty());
                assert forall|s: Seq<char>| escape_text(s) == chars@ implies chars@.subrange(digits_start as int, pos as int)
                    == next_digits(s, out@).take(0) by {
                    assert(next_digits(s, out@).take(0) =~= Seq::<char>::empty());
                }
            }
            loop
                invariant_except_break
                    forall|i: int| digits_start <= i < pos ==> is_upper_hex(#[trigger] chars@[i]),
                    hex_number(chars@.subrange(digits_start as int, pos as int)) <= u32::MAX ==> value
                        == hex_number(chars@.subrange(digits_start as int, pos as int)),
                    hex_number(chars@.subrange(digits_start as int, pos as int)) > u32::MAX ==> value
                        > u32::MAX,
                    forall|s: Seq<char>|
                        escape_text(s) == chars@ ==> decoded_up_to(s, out@, chars@, start as int)
                            && out@.len() < s.len() && escapes(s[out@.len() as int], first)
                            && start + 1 + next_digits(s, out@).len() < chars.len()
                            && chars@[start + 1 + next_digits(s, out@).len()] == '_'
                            && (forall|i: int| 0 <= i < next_digits(s, out@).len() ==> chars@[start + 1 + i]
                            == #[trigger] next_digits(s, out@)[i])
                            && pos - digits_start <= next_digits(s, out@).len()
                            && chars@.subrange(digits_start as int, pos as int) == next_digits(s, out@).take(pos - digits_start),
                invariant
                    chars@ == body@,
                    chars@[start as int] == '_',
                    digits_start == start + 1,
                    digits_start <= pos <= chars.len(),
                    escape_text(out@) == chars@.take(start as int),
                    first == (out@.len() == 0),
                    value <= 16 * 0xFFFF_FFFFu64 + 15,
                ensures
                    digits_start < pos <= chars.len(),
                    chars@[pos - 1] == '_',
                    forall|i: int| digits_start <= i < pos - 1 ==> is_upper_hex(#[trigger] chars@[i]),
                    hex_number(chars@.subrange(digits_start as int, pos - 1)) <= u32::MAX ==> value
                        == hex_number(chars@.subrange(digits_start as int, pos - 1)),
                    hex_number(chars@.subrange(digits_start as int, pos - 1)) > u32::MAX ==> value
                        > u32::MAX,
                    forall|s: Seq<char>|
                        escape_text(s) == chars@ ==> decoded_up_to(s, out@, chars@, start as int)
                            && out@.len() < s.len() && escapes(s[out@.len() as int], first)
                            && chars@.subrange(digits_start as int, pos - 1) == next_digits(s, out@),
                decreases chars.len() - pos,
            {
                if pos >= chars.len() {
                    proof {
                        assert forall|s: Seq<char>| escape_text(s) != chars@ by {
                            if escape_text(s) == chars@ {
                                assert(pos - digits_start <= next_digits(s, out@).len());
                            }
                        }
                    }
                    return None;
                }
                let d = chars[pos];
                let ghost old_pos = pos;
                pos = pos + 1;
                if d == '_' {
                    proof {
                        assert(chars@.subrange(digits_start as int, pos - 1) =~= chars@.subrange(digits_start as int, old_pos as int));
                        assert forall|s: Seq<char>| escape_text(s) == chars@ implies chars@.subrange(digits_start as int, pos - 1)
                            == next_digits(s, out@) by {
                            let h = next_digits(s, out@);
                            lemma_hex_of(code(s[out@.len() as int]));
                            if old_pos - digits_start < h.len() {
                                assert(chars@[start + 1 + (old_pos - digits_start)] == h[old_pos - digits_start]);
                                assert(is_upper_hex(h[old_pos - digits_start]));
                            }
                            assert(h.take(h.len() as int) =~= h);
                        }
                    }
                    break;
                } else if ('0' <= d && d <= '9') || ('A' <= d && d <= 'F') {
                    let digit: u64 = if d <= '9' {
                        (d as u32 - 48) as u64
                    } else {
                        (d as u32 - 55) as u64
                    };
                    proof {
                        let prev = chars@.subrange(digits_start as int, old_pos as int);
                        let next = chars@.subrange(digits_start as int, pos as int);
                        assert(next.drop_last() =~= prev);
                        assert(next.last() == d);
                        assert(hex_number(next) == hex_number(prev) * 16 + hex_value(d));
                        assert(digit == hex_value(d));
                    }
                    if value <= 0xFFFF_FFFF {
                        value = value * 16 + digit;
                    }
                    proof {
                        assert forall|s: Seq<char>| escape_text(s) == chars@ implies pos - digits_start <= next_digits(s, out@).len()
                            && chars@.subrange(digits_start as int, pos as int) == next_digits(s, out@).take(pos - digits_start) by {
                            let h = next_digits(s, out@);
                            if old_pos - digits_start == h.len() {
                                assert(chars@[start + 1 + h.len()] == '_');
                            }
                            assert(chars@[start + 1 + (old_pos - digits_start)] == h[old_pos - digits_start]);
                            assert(chars@.subrange(digits_start as int, pos as int) =~= h.take(pos - digits_start));
                        }
                    }
                } else {
                    proof {
                        assert forall|s: Seq<char>| escape_text(s) != chars@ by {
                            if escape_text(s) == chars@ {
                                let h = next_digits(s, out@);
                                lemma_hex_of(code(s[out@.len() as int]));
                                if old_pos - digits_start == h.len() {
                                    assert(chars@[start + 1 + h.len()] == '_');
                                } else {
                                    assert(chars@[start + 1 + (old_pos - digits_start)] == h[old_pos - digits_start]);
                                    assert(is_upper_hex(h[old_pos - digits_start]));
                                }
                            }
                        }
                    }
                    return None;
                }
            }
            let len = pos - 1 - digits_start;
            let ghost digits = chars@.subrange(digits_start as int, pos - 1);
            if len == 0 || (len > 1 && chars[digits_start] == '0') || value > 0xFFFF_FFFF {
                proof {
                    assert forall|s: Seq<char>| escape_text(s) != chars@ by {
                        if escape_text(s) == chars@ {
                            lemma_hex_of(code(s[out@.len() as int]));
                            assert(digits == next_digits(s, out@));
                            assert(digits[0] == chars@[digits_start as int]);
                        }
                    }
                }
                return None;
            }
            let decoded = match char_from_u32(value as u32) {
                Some(decoded) => decoded,
                None => {
                    proof {
                        assert forall|s: Seq<char>| escape_text(s) != chars@ by {
                            if escape_text(s) == chars@ {
                                lemma_hex_of(code(s[out@.len() as int]));
                                assert(digits == next_digits(s, out@));
                                vstd::utf8::char_is_scalar(s[out@.len() as int]);
                                assert(value == code(s[out@.len() as int]));
                            }
                        }
                    }
                    return None;
                },
            };
            proof {
                assert forall|i: int| 0 <= i < digits.len() implies is_upper_hex(#[trigger] digits[i]) by {
                    assert(digits[i] == chars@[digits_start + i]);
                }
                assert(len > 1 ==> digits[0] == chars@[digits_start as int]);
                lemma_hex_canonical(digits);
                assert(code(decoded) == hex_number(digits));
                assert(hex_of(code(decoded)) == digits);
            }
            if !needs_escape(decoded, first) {
                proof {
                    assert forall|s: Seq<char>| escape_text(s) != chars@ by {
                        if escape_text(s) == chars@ {
                            lemma_hex_of(code(s[out@.len() as int]));
                            assert(digits == next_digits(s, out@));
                            lemma_hex_number_inj(code(decoded), code(s[out@.len() as int]));
                            vstd::utf8::char_u32_cast(decoded, decoded as u32);
                            vstd::utf8::char_u32_cast(s[out@.len() as int], s[out@.len() as int] as u32);
                        }
                    }
                }
                return None;
            }
            let ghost before = out@;
            out.push(decoded);
            proof {
                lemma_escape_push(before, decoded, true);
                assert(escaped(decoded, first) =~= seq!['_'] + digits + seq!['_']);
                assert(chars@.take(pos as int) =~= chars@.take(start as int) + escaped(decoded, first));
                assert forall|s: Seq<char>| escape_text(s) == chars@ implies decoded_up_to(s, out@, chars@, pos as int) by {
                    let d2 = s[before.len() as int];
                    lemma_hex_of(code(d2));
                    lemma_hex_number_inj(code(decoded), code(d2));
                    vstd::utf8::char_u32_cast(decoded, decoded as u32);
                    vstd::utf8::char_u32_cast(d2, d2 as u32);
                    lemma_escape_unit_bounds(s, before, chars@, start as int);
                    assert(s.take(out@.len() as int) =~= s.take(before.len() as int).push(d2));
                    assert(escaped(d2, first).len() == pos - start);
                }
            }
        }
    }
    proof {
        assert(chars@.take(pos as int) =~= chars@);
        assert forall|s: Seq<char>| escape_text(s) == body@ implies s == out@ by {
            assert(chars@.skip(pos as int) =~= Seq::<char>::empty());
            let rest = s.skip(out@.len() as int);
            if rest.len() > 0 {
                lemma_escape_first(rest, out@.len() == 0);
            }
            assert(s =~= s.take(out@.len() as int));
        }
    }
    Some(text_of(&out))
}

/// Where the escaping of `s` after `out` starts at `at` with `_`, the
/// character after `out` is escaped, and its digits and closing `_` follow.
proof fn lemma_escape_opens(s: Seq<char>, out: Seq<char>, chars: Seq<char>, at: int)
    requires
        0 <= at < chars.len(),
        chars[at] == '_',
        decoded_up_to(s, out, chars, at),
    ensures
        out.len() < s.len(),
        escapes(s[out.len() as int], out.len() == 0),
        at + 1 + next_digits(s, out).len() < chars.len(),
        chars[at + 1 + next_digits(s, out).len()] == '_',
        forall|i: int| 0 <= i < next_digits(s, out).len() ==> chars[at + 1 + i] == #[trigger] next_digits(s, out)[i],
{
    if out.len() == s.len() {
        assert(s.skip(out.len() as int) =~= Seq::<char>::empty());
        assert(chars.skip(at).len() > 0);
    }
    lemma_escape_unit_bounds(s, out, chars, at);
    let d = s[out.len() as int];
    let e = escaped(d, out.len() == 0);
    assert(chars[at + 0] == e[0]);
    if !escapes(d, out.len() == 0) {
        assert(d == '_');
    }
    let h = next_digits(s, out);
    assert(e[h.len() as int + 1] == '_');
    assert(chars[at + (h.len() as int + 1)] == e[h.len() as int + 1]);
    assert forall|i: int| 0 <= i < h.len() implies chars[at + 1 + i] == #[trigger] h[i] by {
        assert(e[i + 1] == h[i]);
        assert(chars[at + (i + 1)] == e[i + 1]);
    }
}

/// Where the escaping of `s` continues at `at` of `chars` with the escaping
/// of its character after the prefix `out`, that character's escape lies
/// within `chars`.
proof fn lemma_escape_unit_bounds(s: Seq<char>, out: Seq<char>, chars: Seq<char>, at: int)
    requires
        0 <= at < chars.len(),
        out.len() < s.len(),
        escape_from(s.skip(out.len() as int), out.len() == 0) == chars.skip(at),
    ensures
        ({
            let e = escaped(s[out.len() as int], out.len() == 0);
            &&& at + e.len() <= chars.len()
            &&& forall|i: int| 0 <= i < e.len() ==> chars[at + i] == #[trigger] e[i]
            &&& escape_from(s.skip(out.len() as int + 1), false) == chars.skip(at + e.len())
        }),
{
    let rest = s.skip(out.len() as int);
    lemma_escape_first(rest, out.len() == 0);
    let e = escaped(rest[0], out.len() == 0);
    assert(rest[0] == s[out.len() as int]);
    assert(rest.drop_first() =~= s.skip(out.len() as int + 1));
    let r = escape_from(rest.drop_first(), false);
    assert(chars.skip(at) == e + r);
    assert forall|i: int| 0 <= i < e.len() implies chars[at + i] == #[trigger] e[i] by {
        assert((e + r)[i] == e[i]);
        assert(i < chars.skip(at).len());
        assert(chars.skip(at) =~= chars.subrange(at, chars.len() as int));
        assert(chars.subrange(at, chars.len() as int)[i] == chars[at + i]);
    }
    assert(chars.skip(at + e.len()) =~= chars.skip(at).skip(e.len() as int));
}

/// A plain character that should have been escaped opens no escaping.
proof fn lemma_no_plain_escape(s: Seq<char>, out: Seq<char>, chars: Seq<char>, at: int)
    requires
        0 <= at < chars.len(),
        chars[at] != '_',
        escapes(chars[at], out.len() == 0),
        out.len() <= s.len(),
    ensures
        escape_from(s.skip(out.len() as int), out.len() == 0) != chars.skip(at),
{
    if escape_from(s.skip(out.len() as int), out.len() == 0) == chars.skip(at) {
        if out.len() == s.len() {
            assert(s.skip(out.len() as int) =~= Seq::<char>::empty());
            assert(chars.skip(at).len() > 0);
        } else {
            lemma_escape_unit_bounds(s, out, chars, at);
            let c = s[out.len() as int];
            let e = escaped(c, out.len() == 0);
            assert(chars[at + 0] == e[0]);
            if !escapes(c, out.len() == 0) {
                assert(c == chars[at]);
            }
        }
    }
}

/// After a plain character, the prefix decoded so far still opens every
/// name whose escaping is `chars`.
proof fn lemma_plain_step(out: Seq<char>, before: Seq<char>, c: char, chars: Seq<char>, at: int)
    requires
        0 <= at < chars.len(),
        chars[at] == c,
        c != '_',
        !escapes(c, before.len() == 0),
        out == before.push(c),
        forall|s: Seq<char>|
            escape_text(s) == chars ==> before.len() <= s.len() && s.take(before.len() as int) == before
                && escape_from(s.skip(before.len() as int), before.len() == 0) == chars.skip(at),
    ensures
        forall|s: Seq<char>|
            escape_text(s) == chars ==> out.len() <= s.len() && s.take(out.len() as int) == out
                && escape_from(s.skip(out.len() as int), out.len() == 0) == chars.skip(at + 1),
{
    assert forall|s: Seq<char>| escape_text(s) == chars implies out.len() <= s.len() && s.take(
        out.len() as int,
    ) == out && escape_from(s.skip(out.len() as int), out.len() == 0) == chars.skip(at + 1) by {
        if before.len() == s.len() {
            assert(s.skip(before.len() as int) =~= Seq::<char>::empty());
            assert(chars.skip(at).len() > 0);
        }
        lemma_escape_unit_bounds(s, before, chars, at);
        let d = s[before.len() as int];
        let e = escaped(d, before.len() == 0);
        assert(chars[at] == e[0]);
        if escapes(d, before.len() == 0) {
            assert(e[0] == '_');
        }
        assert(d == c);
        assert(s.take(out.len() as int) =~= s.take(before.len() as int).push(d));
    }
}

proof fn lemma_hex_number_inj(a: nat, b: nat)
    requires
        hex_of(a) == hex_of(b),
    ensures
        a == b,
{
    lemma_hex_of(a);
    lemma_hex_of(b);
}

/// Append a mangled component: its tag, the length of its escaped name, the
/// escaped name, and `s` with its disambiguator where it has one.
fn write_component(out: &mut String, tag: char, name: &str, disambiguator: Option<u32>)
    ensures
        final(out)@ == old(out)@ + seq![tag] + decimal_of(escape_text(name@).len()) + escape_text(
            name@,
        ) + match disambiguator {
            Some(d) => seq!['s'] + decimal_of(d as nat),
            None => Seq::empty(),
        },
{
    let escaped_name = escape_chars(name);
    let body = text_of(&escaped_name);
    let mut piece: Vec<char> = Vec::new();
    piece.push(tag);
    push_decimal(&mut piece, escaped_name.len() as u64);
    let head = text_of(&piece);
    out.append(head.as_str());
    out.append(body.as_str());
    match disambiguator {
        Some(d) => {
            let mut tail: Vec<char> = Vec::new();
            tail.push('s');
            push_decimal(&mut tail, d as u64);
            let tail_text = text_of(&tail);
            out.append(tail_text.as_str());
        },
        None => {},
    }
    proof {
        assert(piece@ =~= seq![tag] + decimal_of(escape_text(name@).len()));
    }
}

} // verus!
