//! The semantic type language's small pieces: primitives, fixed-width
//! integers, effect identities, presences, and the propositional formulas
//! written about presences.
use vstd::prelude::*;

use std::sync::Arc;

use crate::symbol::Symbol;
use crate::text::{
    all_digits, chars_of, decimal_of, decimal_value, is_ascii_digit_spec, lemma_decimal_of,
    lemma_utf8_len_concat, push_decimal, text_of, utf8_len,
};
use vstd::string::StrSliceExecFns;

verus! {

/// A type built into the language rather than declared in it.
#[derive(Debug, Clone, Copy, PartialEq, Eq, Structural, Hash)]
pub enum Prim {
    Nat,
    Int,
    Fixed(FixedInt),
    Real,
    String,
    Bool,
    Any,
    ForeignValue,
}

/// A target-independent integer width and signedness.
#[derive(Debug, Clone, Copy, PartialEq, Eq, Structural, Hash)]
pub enum FixedInt {
    Nat8,
    Nat16,
    Nat32,
    Nat64,
    Int8,
    Int16,
    Int32,
    Int64,
}

pub open spec fn fixed_name(kind: FixedInt) -> Seq<char> {
    match kind {
        FixedInt::Nat8 => "Nat8"@,
        FixedInt::Nat16 => "Nat16"@,
        FixedInt::Nat32 => "Nat32"@,
        FixedInt::Nat64 => "Nat64"@,
        FixedInt::Int8 => "Int8"@,
        FixedInt::Int16 => "Int16"@,
        FixedInt::Int32 => "Int32"@,
        FixedInt::Int64 => "Int64"@,
    }
}

pub open spec fn fixed_suffix(kind: FixedInt) -> Seq<char> {
    match kind {
        FixedInt::Nat8 => "n8"@,
        FixedInt::Nat16 => "n16"@,
        FixedInt::Nat32 => "n32"@,
        FixedInt::Nat64 => "n64"@,
        FixedInt::Int8 => "i8"@,
        FixedInt::Int16 => "i16"@,
        FixedInt::Int32 => "i32"@,
        FixedInt::Int64 => "i64"@,
    }
}

pub open spec fn fixed_bits(kind: FixedInt) -> u32 {
    match kind {
        FixedInt::Nat8 | FixedInt::Int8 => 8,
        FixedInt::Nat16 | FixedInt::Int16 => 16,
        FixedInt::Nat32 | FixedInt::Int32 => 32,
        FixedInt::Nat64 | FixedInt::Int64 => 64,
    }
}

pub open spec fn fixed_signed(kind: FixedInt) -> bool {
    matches!(kind, FixedInt::Int8 | FixedInt::Int16 | FixedInt::Int32 | FixedInt::Int64)
}

/// The smallest value of the kind: `-2^(bits-1)` when signed, else zero.
pub open spec fn fixed_min(kind: FixedInt) -> int {
    if fixed_signed(kind) {
        -vstd::arithmetic::power2::pow2((fixed_bits(kind) - 1) as nat)
    } else {
        0
    }
}

/// The largest value of the kind: `2^(bits-1) - 1` when signed, else
/// `2^bits - 1`.
pub open spec fn fixed_max(kind: FixedInt) -> int {
    vstd::arithmetic::power2::pow2(
        (fixed_bits(kind) - if fixed_signed(kind) {
            1int
        } else {
            0int
        }) as nat,
    ) - 1
}

impl FixedInt {
    pub fn name(self) -> (name: &'static str)
        ensures
            name@ == fixed_name(self),
    {
        match self {
            FixedInt::Nat8 => "Nat8",
            FixedInt::Nat16 => "Nat16",
            FixedInt::Nat32 => "Nat32",
            FixedInt::Nat64 => "Nat64",
            FixedInt::Int8 => "Int8",
            FixedInt::Int16 => "Int16",
            FixedInt::Int32 => "Int32",
            FixedInt::Int64 => "Int64",
        }
    }

    pub fn suffix(self) -> (suffix: &'static str)
        ensures
            suffix@ == fixed_suffix(self),
    {
        match self {
            FixedInt::Nat8 => "n8",
            FixedInt::Nat16 => "n16",
            FixedInt::Nat32 => "n32",
            FixedInt::Nat64 => "n64",
            FixedInt::Int8 => "i8",
            FixedInt::Int16 => "i16",
            FixedInt::Int32 => "i32",
            FixedInt::Int64 => "i64",
        }
    }

    pub fn bits(self) -> (bits: u32)
        ensures
            bits == fixed_bits(self),
    {
        match self {
            FixedInt::Nat8 | FixedInt::Int8 => 8,
            FixedInt::Nat16 | FixedInt::Int16 => 16,
            FixedInt::Nat32 | FixedInt::Int32 => 32,
            FixedInt::Nat64 | FixedInt::Int64 => 64,
        }
    }

    pub fn signed(self) -> (signed: bool)
        ensures
            signed == fixed_signed(self),
    {
        matches!(self, FixedInt::Int8 | FixedInt::Int16 | FixedInt::Int32 | FixedInt::Int64)
    }

    pub fn min(self) -> (min: i128)
        ensures
            min == fixed_min(self),
    {
        proof {
            lemma_fixed_bounds(self);
        }
        match self {
            FixedInt::Nat8 | FixedInt::Nat16 | FixedInt::Nat32 | FixedInt::Nat64 => 0,
            FixedInt::Int8 => -0x80,
            FixedInt::Int16 => -0x8000,
            FixedInt::Int32 => -0x8000_0000,
            FixedInt::Int64 => -0x8000_0000_0000_0000,
        }
    }

    pub fn max(self) -> (max: i128)
        ensures
            max == fixed_max(self),
    {
        proof {
            lemma_fixed_bounds(self);
        }
        match self {
            FixedInt::Nat8 => 0xFF,
            FixedInt::Nat16 => 0xFFFF,
            FixedInt::Nat32 => 0xFFFF_FFFF,
            FixedInt::Nat64 => 0xFFFF_FFFF_FFFF_FFFF,
            FixedInt::Int8 => 0x7F,
            FixedInt::Int16 => 0x7FFF,
            FixedInt::Int32 => 0x7FFF_FFFF,
            FixedInt::Int64 => 0x7FFF_FFFF_FFFF_FFFF,
        }
    }
}

/// The bounds of each kind, written out.
pub proof fn lemma_fixed_bounds(kind: FixedInt)
    ensures
        fixed_min(kind) == match kind {
            FixedInt::Int8 => -0x80int,
            FixedInt::Int16 => -0x8000int,
            FixedInt::Int32 => -0x8000_0000int,
            FixedInt::Int64 => -0x8000_0000_0000_0000int,
            _ => 0int,
        },
        fixed_max(kind) == match kind {
            FixedInt::Nat8 => 0xFFint,
            FixedInt::Nat16 => 0xFFFFint,
            FixedInt::Nat32 => 0xFFFF_FFFFint,
            FixedInt::Nat64 => 0xFFFF_FFFF_FFFF_FFFFint,
            FixedInt::Int8 => 0x7Fint,
            FixedInt::Int16 => 0x7FFFint,
            FixedInt::Int32 => 0x7FFF_FFFFint,
            FixedInt::Int64 => 0x7FFF_FFFF_FFFF_FFFFint,
        },
{
    vstd::arithmetic::power2::lemma2_to64();
    vstd::arithmetic::power2::lemma2_to64_rest();
}

/// A fixed-width literal: a value within the range of its kind.
#[derive(Debug, Clone, Copy, PartialEq, Eq, Structural, Hash)]
pub struct FixedLiteral {
    kind: FixedInt,
    value: i128,
}

impl FixedLiteral {
    pub closed spec fn spec_kind(self) -> FixedInt {
        self.kind
    }

    pub closed spec fn spec_value(self) -> i128 {
        self.value
    }

    /// The literal, when the value fits the kind.
    pub fn new(kind: FixedInt, value: i128) -> (literal: Option<FixedLiteral>)
        ensures
            literal is Some <==> fixed_min(kind) <= value <= fixed_max(kind),
            literal matches Some(l) ==> l.spec_kind() == kind && l.spec_value() == value,
    {
        if kind.min() <= value && value <= kind.max() {
            Some(FixedLiteral { kind, value })
        } else {
            None
        }
    }

    pub fn kind(self) -> (kind: FixedInt)
        ensures
            kind == self.spec_kind(),
    {
        self.kind
    }

    pub fn value(self) -> (value: i128)
        ensures
            value == self.spec_value(),
    {
        self.value
    }
}

/// How each primitive is spelled in source.
pub open spec fn prim_name(p: Prim) -> Seq<char> {
    match p {
        Prim::Nat => "Nat"@,
        Prim::Int => "Int"@,
        Prim::Fixed(kind) => fixed_name(kind),
        Prim::Real => "Real"@,
        Prim::String => "String"@,
        Prim::Bool => "Bool"@,
        Prim::Any => "Any"@,
        Prim::ForeignValue => "ForeignValue"@,
    }
}

/// The primitive a spelling denotes, checking them in the order the
/// primitives are listed.
pub open spec fn prim_of_name(t: Seq<char>) -> Option<Prim> {
    if t == "Nat"@ {
        Some(Prim::Nat)
    } else if t == "Int"@ {
        Some(Prim::Int)
    } else if t == "Nat8"@ {
        Some(Prim::Fixed(FixedInt::Nat8))
    } else if t == "Nat16"@ {
        Some(Prim::Fixed(FixedInt::Nat16))
    } else if t == "Nat32"@ {
        Some(Prim::Fixed(FixedInt::Nat32))
    } else if t == "Nat64"@ {
        Some(Prim::Fixed(FixedInt::Nat64))
    } else if t == "Int8"@ {
        Some(Prim::Fixed(FixedInt::Int8))
    } else if t == "Int16"@ {
        Some(Prim::Fixed(FixedInt::Int16))
    } else if t == "Int32"@ {
        Some(Prim::Fixed(FixedInt::Int32))
    } else if t == "Int64"@ {
        Some(Prim::Fixed(FixedInt::Int64))
    } else if t == "Real"@ {
        Some(Prim::Real)
    } else if t == "String"@ {
        Some(Prim::String)
    } else if t == "Bool"@ {
        Some(Prim::Bool)
    } else if t == "Any"@ {
        Some(Prim::Any)
    } else if t == "ForeignValue"@ {
        Some(Prim::ForeignValue)
    } else {
        None
    }
}

/// Whether two strings have the same characters.
fn same_text(a: &str, b: &str) -> (same: bool)
    ensures
        same == (a@ == b@),
{
    let x = crate::text::chars_of(a);
    let y = crate::text::chars_of(b);
    if x.len() != y.len() {
        return false;
    }
    let mut i: usize = 0;
    while i < x.len()
        invariant
            x@ == a@,
            y@ == b@,
            x.len() == y.len(),
            i <= x.len(),
            forall|k: int| 0 <= k < i ==> x@[k] == y@[k],
        decreases x.len() - i,
    {
        if x[i] != y[i] {
            return false;
        }
        i = i + 1;
    }
    assert(x@ =~= y@);
    true
}

impl Prim {
    /// The spelling that denotes this primitive in source.
    pub fn name(self) -> (name: &'static str)
        ensures
            name@ == prim_name(self),
    {
        match self {
            Prim::Nat => "Nat",
            Prim::Int => "Int",
            Prim::Fixed(kind) => kind.name(),
            Prim::Real => "Real",
            Prim::String => "String",
            Prim::Bool => "Bool",
            Prim::Any => "Any",
            Prim::ForeignValue => "ForeignValue",
        }
    }

    /// The primitive a spelling denotes, if any.
    pub fn from_name(name: &str) -> (prim: Option<Prim>)
        ensures
            prim == prim_of_name(name@),
    {
        if same_text(name, "Nat") {
            Some(Prim::Nat)
        } else if same_text(name, "Int") {
            Some(Prim::Int)
        } else if same_text(name, "Nat8") {
            Some(Prim::Fixed(FixedInt::Nat8))
        } else if same_text(name, "Nat16") {
            Some(Prim::Fixed(FixedInt::Nat16))
        } else if same_text(name, "Nat32") {
            Some(Prim::Fixed(FixedInt::Nat32))
        } else if same_text(name, "Nat64") {
            Some(Prim::Fixed(FixedInt::Nat64))
        } else if same_text(name, "Int8") {
            Some(Prim::Fixed(FixedInt::Int8))
        } else if same_text(name, "Int16") {
            Some(Prim::Fixed(FixedInt::Int16))
        } else if same_text(name, "Int32") {
            Some(Prim::Fixed(FixedInt::Int32))
        } else if same_text(name, "Int64") {
            Some(Prim::Fixed(FixedInt::Int64))
        } else if same_text(name, "Real") {
            Some(Prim::Real)
        } else if same_text(name, "String") {
            Some(Prim::String)
        } else if same_text(name, "Bool") {
            Some(Prim::Bool)
        } else if same_text(name, "Any") {
            Some(Prim::Any)
        } else if same_text(name, "ForeignValue") {
            Some(Prim::ForeignValue)
        } else {
            None
        }
    }
}

/// A primitive's spelling reads back as that primitive: the spellings are
/// distinct, so `from_name` inverts `name`.
pub proof fn lemma_prim_name_round_trip(p: Prim)
    ensures
        prim_of_name(prim_name(p)) == Some(p),
{
    reveal_strlit("Nat");
    reveal_strlit("Int");
    reveal_strlit("Nat8");
    reveal_strlit("Nat16");
    reveal_strlit("Nat32");
    reveal_strlit("Nat64");
    reveal_strlit("Int8");
    reveal_strlit("Int16");
    reveal_strlit("Int32");
    reveal_strlit("Int64");
    reveal_strlit("Real");
    reveal_strlit("String");
    reveal_strlit("Bool");
    reveal_strlit("Any");
    reveal_strlit("ForeignValue");
    match p {
        Prim::Nat => {

        },
        Prim::Int => {
            assert("Int"@[0] != "Nat"@[0]);
        },
        Prim::Fixed(FixedInt::Nat8) => {
            assert("Nat8"@.len() != "Nat"@.len());
            assert("Nat8"@.len() != "Int"@.len());
        },
        Prim::Fixed(FixedInt::Nat16) => {
            assert("Nat16"@.len() != "Nat"@.len());
            assert("Nat16"@.len() != "Int"@.len());
            assert("Nat16"@.len() != "Nat8"@.len());
        },
        Prim::Fixed(FixedInt::Nat32) => {
            assert("Nat32"@.len() != "Nat"@.len());
            assert("Nat32"@.len() != "Int"@.len());
            assert("Nat32"@.len() != "Nat8"@.len());
            assert("Nat32"@[3] != "Nat16"@[3]);
        },
        Prim::Fixed(FixedInt::Nat64) => {
            assert("Nat64"@.len() != "Nat"@.len());
            assert("Nat64"@.len() != "Int"@.len());
            assert("Nat64"@.len() != "Nat8"@.len());
            assert("Nat64"@[3] != "Nat16"@[3]);
            assert("Nat64"@[3] != "Nat32"@[3]);
        },
        Prim::Fixed(FixedInt::Int8) => {
            assert("Int8"@.len() != "Nat"@.len());
            assert("Int8"@.len() != "Int"@.len());
            assert("Int8"@[0] != "Nat8"@[0]);
            assert("Int8"@.len() != "Nat16"@.len());
            assert("Int8"@.len() != "Nat32"@.len());
            assert("Int8"@.len() != "Nat64"@.len());
        },
        Prim::Fixed(FixedInt::Int16) => {
            assert("Int16"@.len() != "Nat"@.len());
            assert("Int16"@.len() != "Int"@.len());
            assert("Int16"@.len() != "Nat8"@.len());
            assert("Int16"@[0] != "Nat16"@[0]);
            assert("Int16"@[0] != "Nat32"@[0]);
            assert("Int16"@[0] != "Nat64"@[0]);
            assert("Int16"@.len() != "Int8"@.len());
        },
        Prim::Fixed(FixedInt::Int32) => {
            assert("Int32"@.len() != "Nat"@.len());
            assert("Int32"@.len() != "Int"@.len());
            assert("Int32"@.len() != "Nat8"@.len());
            assert("Int32"@[0] != "Nat16"@[0]);
            assert("Int32"@[0] != "Nat32"@[0]);
            assert("Int32"@[0] != "Nat64"@[0]);
            assert("Int32"@.len() != "Int8"@.len());
            assert("Int32"@[3] != "Int16"@[3]);
        },
        Prim::Fixed(FixedInt::Int64) => {
            assert("Int64"@.len() != "Nat"@.len());
            assert("Int64"@.len() != "Int"@.len());
            assert("Int64"@.len() != "Nat8"@.len());
            assert("Int64"@[0] != "Nat16"@[0]);
            assert("Int64"@[0] != "Nat32"@[0]);
            assert("Int64"@[0] != "Nat64"@[0]);
            assert("Int64"@.len() != "Int8"@.len());
            assert("Int64"@[3] != "Int16"@[3]);
            assert("Int64"@[3] != "Int32"@[3]);
        },
        Prim::Real => {
            assert("Real"@.len() != "Nat"@.len());
            assert("Real"@.len() != "Int"@.len());
            assert("Real"@[0] != "Nat8"@[0]);
            assert("Real"@.len() != "Nat16"@.len());
            assert("Real"@.len() != "Nat32"@.len());
            assert("Real"@.len() != "Nat64"@.len());
            assert("Real"@[0] != "Int8"@[0]);
            assert("Real"@.len() != "Int16"@.len());
            assert("Real"@.len() != "Int32"@.len());
            assert("Real"@.len() != "Int64"@.len());
        },
        Prim::String => {
            assert("String"@.len() != "Nat"@.len());
            assert("String"@.len() != "Int"@.len());
            assert("String"@.len() != "Nat8"@.len());
            assert("String"@.len() != "Nat16"@.len());
            assert("String"@.len() != "Nat32"@.len());
            assert("String"@.len() != "Nat64"@.len());
            assert("String"@.len() != "Int8"@.len());
            assert("String"@.len() != "Int16"@.len());
            assert("String"@.len() != "Int32"@.len());
            assert("String"@.len() != "Int64"@.len());
            assert("String"@.len() != "Real"@.len());
        },
        Prim::Bool => {
            assert("Bool"@.len() != "Nat"@.len());
            assert("Bool"@.len() != "Int"@.len());
            assert("Bool"@[0] != "Nat8"@[0]);
            assert("Bool"@.len() != "Nat16"@.len());
            assert("Bool"@.len() != "Nat32"@.len());
            assert("Bool"@.len() != "Nat64"@.len());
            assert("Bool"@[0] != "Int8"@[0]);
            assert("Bool"@.len() != "Int16"@.len());
            assert("Bool"@.len() != "Int32"@.len());
            assert("Bool"@.len() != "Int64"@.len());
            assert("Bool"@[0] != "Real"@[0]);
            assert("Bool"@.len() != "String"@.len());
        },
        Prim::Any => {
            assert("Any"@[0] != "Nat"@[0]);
            assert("Any"@[0] != "Int"@[0]);
            assert("Any"@.len() != "Nat8"@.len());
            assert("Any"@.len() != "Nat16"@.len());
            assert("Any"@.len() != "Nat32"@.len());
            assert("Any"@.len() != "Nat64"@.len());
            assert("Any"@.len() != "Int8"@.len());
            assert("Any"@.len() != "Int16"@.len());
            assert("Any"@.len() != "Int32"@.len());
            assert("Any"@.len() != "Int64"@.len());
            assert("Any"@.len() != "Real"@.len());
            assert("Any"@.len() != "String"@.len());
            assert("Any"@.len() != "Bool"@.len());
        },
        Prim::ForeignValue => {
            assert("ForeignValue"@.len() != "Nat"@.len());
            assert("ForeignValue"@.len() != "Int"@.len());
            assert("ForeignValue"@.len() != "Nat8"@.len());
            assert("ForeignValue"@.len() != "Nat16"@.len());
            assert("ForeignValue"@.len() != "Nat32"@.len());
            assert("ForeignValue"@.len() != "Nat64"@.len());
            assert("ForeignValue"@.len() != "Int8"@.len());
            assert("ForeignValue"@.len() != "Int16"@.len());
            assert("ForeignValue"@.len() != "Int32"@.len());
            assert("ForeignValue"@.len() != "Int64"@.len());
            assert("ForeignValue"@.len() != "Real"@.len());
            assert("ForeignValue"@.len() != "String"@.len());
            assert("ForeignValue"@.len() != "Bool"@.len());
            assert("ForeignValue"@.len() != "Any"@.len());
        },
    }
}

#[derive(Debug, Clone, Copy, PartialEq, Eq, Structural, Hash)]
pub enum Shape {
    Struct,
    Sum,
    Effect,
}

#[derive(Debug, Clone, Copy, PartialEq, Eq, Structural, Hash)]
pub enum Sense {
    Region,
    Type,
    Fields,
    Cases,
    Effects,
    Presence,
}


/// One variable a formula names: one the solver still owns, or one a scheme
/// quantified.
#[derive(Debug, Clone, Copy, PartialEq, Eq, Structural, Hash, PartialOrd, Ord)]
pub enum Atom {
    Var(u32),
    Bound(u32),
}

/// A propositional formula over presence variables.
#[derive(Debug, Clone, PartialEq, Eq, Hash)]
pub enum Formula {
    True,
    False,
    Atom(Atom),
    /// A constraint owned by the package at this preorder position of the
    /// enclosing scheme's body; logically transparent.
    Owned(u32, Arc<Formula>),
    Not(Arc<Formula>),
    And(Arc<Formula>, Arc<Formula>),
    Or(Arc<Formula>, Arc<Formula>),
    /// Both or neither.
    Iff(Arc<Formula>, Arc<Formula>),
    /// Exactly one.
    Xor(Arc<Formula>, Arc<Formula>),
}

/// Whether a formula holds when each atom is read by `env`.
pub open spec fn holds(f: Formula, env: spec_fn(Atom) -> bool) -> bool
    decreases f,
{
    match f {
        Formula::True => true,
        Formula::False => false,
        Formula::Atom(a) => env(a),
        Formula::Owned(_, inner) => holds(*inner, env),
        Formula::Not(inner) => !holds(*inner, env),
        Formula::And(l, r) => holds(*l, env) && holds(*r, env),
        Formula::Or(l, r) => holds(*l, env) || holds(*r, env),
        Formula::Iff(l, r) => holds(*l, env) == holds(*r, env),
        Formula::Xor(l, r) => holds(*l, env) != holds(*r, env),
    }
}

/// The negation, with the constants and a double negative folded away.
pub open spec fn not_of(f: Formula) -> Formula {
    match f {
        Formula::True => Formula::False,
        Formula::False => Formula::True,
        Formula::Not(inner) => *inner,
        _ => Formula::Not(Arc::new(f)),
    }
}

/// Both, with the constants folded away.
pub open spec fn and_of(a: Formula, b: Formula) -> Formula {
    if a is False {
        Formula::False
    } else if a is True {
        b
    } else if b is False {
        Formula::False
    } else if b is True {
        a
    } else {
        Formula::And(Arc::new(a), Arc::new(b))
    }
}

/// Either, with the constants folded away.
pub open spec fn or_of(a: Formula, b: Formula) -> Formula {
    if a is True {
        Formula::True
    } else if a is False {
        b
    } else if b is True {
        Formula::True
    } else if b is False {
        a
    } else {
        Formula::Or(Arc::new(a), Arc::new(b))
    }
}

/// The conjunction of a list, folded from the left starting at `True`.
pub open spec fn all_of(parts: Seq<Formula>) -> Formula
    decreases parts.len(),
{
    if parts.len() == 0 {
        Formula::True
    } else {
        and_of(all_of(parts.drop_last()), parts.last())
    }
}

/// The disjunction of a list, folded from the left starting at `False`.
pub open spec fn any_of(parts: Seq<Formula>) -> Formula
    decreases parts.len(),
{
    if parts.len() == 0 {
        Formula::False
    } else {
        or_of(any_of(parts.drop_last()), parts.last())
    }
}

/// Each atom replaced by what `replace` makes of it, rebuilt through the folding
/// constructors.
pub open spec fn substituted(f: Formula, replace: spec_fn(Atom) -> Formula) -> Formula
    decreases f,
{
    match f {
        Formula::True => Formula::True,
        Formula::False => Formula::False,
        Formula::Atom(a) => replace(a),
        Formula::Owned(owner, inner) => Formula::Owned(owner, Arc::new(substituted(*inner, replace))),
        Formula::Not(inner) => not_of(substituted(*inner, replace)),
        Formula::And(l, r) => and_of(substituted(*l, replace), substituted(*r, replace)),
        Formula::Or(l, r) => or_of(substituted(*l, replace), substituted(*r, replace)),
        Formula::Iff(l, r) => Formula::Iff(
            Arc::new(substituted(*l, replace)),
            Arc::new(substituted(*r, replace)),
        ),
        Formula::Xor(l, r) => Formula::Xor(
            Arc::new(substituted(*l, replace)),
            Arc::new(substituted(*r, replace)),
        ),
    }
}

/// The atoms a formula names, in the order a left-to-right walk meets them,
/// repeats included.
pub open spec fn atom_walk(f: Formula) -> Seq<Atom>
    decreases f,
{
    match f {
        Formula::True | Formula::False => Seq::empty(),
        Formula::Atom(a) => seq![a],
        Formula::Owned(_, inner) | Formula::Not(inner) => atom_walk(*inner),
        Formula::And(l, r) | Formula::Or(l, r) | Formula::Iff(l, r) | Formula::Xor(l, r) => atom_walk(*l) + atom_walk(*r),
    }
}

/// `seen` followed by each of `more` that is not already there, in order.
pub open spec fn add_new(seen: Seq<Atom>, more: Seq<Atom>) -> Seq<Atom>
    decreases more.len(),
{
    if more.len() == 0 {
        seen
    } else {
        let before = add_new(seen, more.drop_last());
        if before.contains(more.last()) {
            before
        } else {
            before.push(more.last())
        }
    }
}

proof fn lemma_add_new_concat(seen: Seq<Atom>, a: Seq<Atom>, b: Seq<Atom>)
    ensures
        add_new(seen, a + b) == add_new(add_new(seen, a), b),
    decreases b.len(),
{
    if b.len() == 0 {
        assert(a + b =~= a);
    } else {
        assert((a + b).drop_last() =~= a + b.drop_last());
        lemma_add_new_concat(seen, a, b.drop_last());
    }
}

/// The folding constructors keep the meaning of the connective they fold.
pub proof fn lemma_connectives(a: Formula, b: Formula, env: spec_fn(Atom) -> bool)
    ensures
        holds(not_of(a), env) == !holds(a, env),
        holds(and_of(a, b), env) == (holds(a, env) && holds(b, env)),
        holds(or_of(a, b), env) == (holds(a, env) || holds(b, env)),
{
}

/// Exactly one of two holds when not both or neither do; a formula is
/// always equivalent to itself, never to its negation; an owner's mark
/// changes no meaning.
pub proof fn lemma_equivalence(a: Formula, b: Formula, owner: u32, env: spec_fn(Atom) -> bool)
    ensures
        holds(Formula::Xor(Arc::new(a), Arc::new(b)), env) == !holds(Formula::Iff(Arc::new(a), Arc::new(b)), env),
        holds(Formula::Iff(Arc::new(a), Arc::new(a)), env),
        !holds(Formula::Iff(Arc::new(a), Arc::new(not_of(a))), env),
        holds(Formula::Owned(owner, Arc::new(a)), env) == holds(a, env),
{
    lemma_connectives(a, b, env);
}

/// A conjunction of a list holds exactly when every part does, and a
/// disjunction when some part does.
pub proof fn lemma_all_any(parts: Seq<Formula>, env: spec_fn(Atom) -> bool)
    ensures
        holds(all_of(parts), env) <==> (forall|i: int| 0 <= i < parts.len() ==> #[trigger] holds(parts[i], env)),
        holds(any_of(parts), env) <==> (exists|i: int| 0 <= i < parts.len() && #[trigger] holds(parts[i], env)),
    decreases parts.len(),
{
    if parts.len() > 0 {
        lemma_all_any(parts.drop_last(), env);
        lemma_connectives(all_of(parts.drop_last()), parts.last(), env);
        lemma_connectives(any_of(parts.drop_last()), parts.last(), env);
        let n = parts.len() - 1;
        assert(forall|i: int| 0 <= i < n ==> parts.drop_last()[i] == parts[i]);
        if holds(any_of(parts), env) {
            if !holds(parts.last(), env) {
                let i = choose|i: int| 0 <= i < n && #[trigger] holds(parts.drop_last()[i], env);
                assert(holds(parts[i], env));
            }
        }
    }
}

/// Substituting and then evaluating is evaluating with each atom read as
/// what it was replaced by.
/// The formula behind a shared pointer.
pub open spec fn inside(shared: Arc<Formula>) -> Formula {
    *shared
}

pub proof fn lemma_substitution(f: Formula, replace: spec_fn(Atom) -> Formula, env: spec_fn(Atom) -> bool)
    ensures
        holds(substituted(f, replace), env) == holds(f, |a: Atom| holds(replace(a), env)),
    decreases f,
{
    match f {
        Formula::True | Formula::False | Formula::Atom(_) => {},
        Formula::Owned(_, inner) => {
            lemma_substitution(inside(inner), replace, env);
        },
        Formula::Not(inner) => {
            lemma_substitution(inside(inner), replace, env);
            lemma_connectives(substituted(inside(inner), replace), Formula::True, env);
        },
        Formula::And(l, r) | Formula::Or(l, r) | Formula::Iff(l, r) | Formula::Xor(l, r) => {
            lemma_substitution(inside(l), replace, env);
            lemma_substitution(inside(r), replace, env);
            lemma_connectives(substituted(inside(l), replace), substituted(inside(r), replace), env);
        },
    }
}

/// `Arc::unwrap_or_clone`: the value behind the pointer, moved out when the
/// pointer was the only one and cloned otherwise; a formula's clone is the
/// same formula.
#[verifier::external_body]
fn unwrap_shared(shared: Arc<Formula>) -> (f: Formula)
    ensures
        f == *shared,
{
    Arc::unwrap_or_clone(shared)
}

impl Formula {
    /// Mark a constraint with its package owner.
    pub fn owned(owner: u32, formula: Formula) -> (f: Formula)
        ensures
            f == Formula::Owned(owner, Arc::new(formula)),
    {
        Formula::Owned(owner, Arc::new(formula))
    }

    /// The formula naming one solver variable.
    pub fn var(var: u32) -> (f: Formula)
        ensures
            f == Formula::Atom(Atom::Var(var)),
    {
        Formula::Atom(Atom::Var(var))
    }

    /// The formula naming one variable a scheme quantified.
    pub fn bound(index: u32) -> (f: Formula)
        ensures
            f == Formula::Atom(Atom::Bound(index)),
    {
        Formula::Atom(Atom::Bound(index))
    }

    /// Whether this formula says nothing.
    pub fn is_true(&self) -> (b: bool)
        ensures
            b == (*self is True),
    {
        matches!(self, Formula::True)
    }

    /// The negation, with the two constants and a double negative folded
    /// away.
    pub fn not(self) -> (f: Formula)
        ensures
            f == not_of(self),
    {
        match self {
            Formula::True => Formula::False,
            Formula::False => Formula::True,
            Formula::Not(inner) => unwrap_shared(inner),
            other => Formula::Not(Arc::new(other)),
        }
    }

    /// Both, with the constants folded away.
    pub fn and(self, other: Formula) -> (f: Formula)
        ensures
            f == and_of(self, other),
    {
        if matches!(self, Formula::False) {
            return Formula::False;
        }
        if matches!(self, Formula::True) {
            return other;
        }
        if matches!(other, Formula::False) {
            return Formula::False;
        }
        if matches!(other, Formula::True) {
            return self;
        }
        Formula::And(Arc::new(self), Arc::new(other))
    }

    /// Either, folded the same way.
    pub fn or(self, other: Formula) -> (f: Formula)
        ensures
            f == or_of(self, other),
    {
        if matches!(self, Formula::True) {
            return Formula::True;
        }
        if matches!(self, Formula::False) {
            return other;
        }
        if matches!(other, Formula::True) {
            return Formula::True;
        }
        if matches!(other, Formula::False) {
            return self;
        }
        Formula::Or(Arc::new(self), Arc::new(other))
    }

    /// Both or neither.
    pub fn iff(self, other: Formula) -> (f: Formula)
        ensures
            f == Formula::Iff(Arc::new(self), Arc::new(other)),
    {
        Formula::Iff(Arc::new(self), Arc::new(other))
    }

    /// Exactly one.
    pub fn xor(self, other: Formula) -> (f: Formula)
        ensures
            f == Formula::Xor(Arc::new(self), Arc::new(other)),
    {
        Formula::Xor(Arc::new(self), Arc::new(other))
    }

    /// Every one of them, left to right.
    pub fn all(parts: Vec<Formula>) -> (f: Formula)
        ensures
            f == all_of(parts@),
    {
        let mut result = Formula::True;
        let ghost whole = parts@;
        for next in it: parts
            invariant
                it.seq() == whole,
                result == all_of(whole.take(it.index() as int)),
        {
            proof {
                assert(whole.take(it.index() + 1).drop_last() =~= whole.take(it.index() as int));
            }
            result = result.and(next);
        }
        proof {
            assert(whole.take(whole.len() as int) =~= whole);
        }
        result
    }

    /// Any one of them, left to right.
    pub fn any(parts: Vec<Formula>) -> (f: Formula)
        ensures
            f == any_of(parts@),
    {
        let mut result = Formula::False;
        let ghost whole = parts@;
        for next in it: parts
            invariant
                it.seq() == whole,
                result == any_of(whole.take(it.index() as int)),
        {
            proof {
                assert(whole.take(it.index() + 1).drop_last() =~= whole.take(it.index() as int));
            }
            result = result.or(next);
        }
        proof {
            assert(whole.take(whole.len() as int) =~= whole);
        }
        result
    }

    /// Append to `out` every atom this formula names that `out` lacks, in
    /// the order the formula first names them.
    pub fn atoms(&self, out: &mut Vec<Atom>)
        ensures
            final(out)@ == add_new(old(out)@, atom_walk(*self)),
    {
        let mut seen: Vec<Atom> = Vec::new();
        std::mem::swap(out, &mut seen);
        let collected = self.atoms_after(seen);
        *out = collected;
    }

    /// `known`, followed by the atoms of this formula it lacks.
    fn atoms_after(&self, known: Vec<Atom>) -> (collected: Vec<Atom>)
        ensures
            collected@ == add_new(known@, atom_walk(*self)),
        decreases *self,
    {
        match self {
            Formula::True | Formula::False => {
                assert(atom_walk(*self) =~= Seq::<Atom>::empty());
                known
            },
            Formula::Atom(atom) => {
                let mut found = false;
                let mut i: usize = 0;
                while i < known.len()
                    invariant
                        i <= known.len(),
                        found == exists|k: int| 0 <= k < i && known@[k] == *atom,
                    decreases known.len() - i,
                {
                    if known[i] == *atom {
                        found = true;
                    }
                    i = i + 1;
                }
                proof {
                    assert(seq![*atom].drop_last() =~= Seq::<Atom>::empty());
                    assert(add_new(known@, Seq::<Atom>::empty()) == known@);
                    assert(atom_walk(*self) == seq![*atom]);
                    if found {
                        let k = choose|k: int| 0 <= k < i && known@[k] == *atom;
                        assert(known@.contains(*atom));
                    } else {
                        assert(!known@.contains(*atom));
                    }
                }
                let mut grown = known;
                if !found {
                    grown.push(*atom);
                }
                grown
            },
            Formula::Owned(_, inner) | Formula::Not(inner) => inner.atoms_after(known),
            Formula::And(l, r) | Formula::Or(l, r) | Formula::Iff(l, r) | Formula::Xor(l, r) => {
                let ghost start = known@;
                let middle = l.atoms_after(known);
                let all = r.atoms_after(middle);
                proof {
                    lemma_add_new_concat(start, atom_walk(inside(*l)), atom_walk(inside(*r)));
                }
                all
            },
        }
    }

    /// Whether this formula holds when each atom is read by `assign`, which
    /// must answer the same for the same atom.
    pub fn eval<F: Fn(Atom) -> bool>(&self, assign: &F) -> (b: bool)
        requires
            forall|a: Atom| #[trigger] assign.requires((a,)),
            forall|a: Atom, x: bool, y: bool|
                assign.ensures((a,), x) && assign.ensures((a,), y) ==> x == y,
        ensures
            b == holds(*self, |a: Atom| assign.ensures((a,), true)),
            forall|v: spec_fn(Atom) -> bool|
                (forall|a: Atom, x: bool| #[trigger] assign.ensures((a,), x) ==> x == v(a)) ==> b == #[trigger] holds(
                    *self,
                    v,
                ),
        decreases *self,
    {
        match self {
            Formula::True => {
                proof {
                    assert forall|v: spec_fn(Atom) -> bool|
                        (forall|a: Atom, x: bool| #[trigger] assign.ensures((a,), x) ==> x == v(a)) implies true
                        == #[trigger] holds(*self, v) by {}
                }
                true
            },
            Formula::False => false,
            Formula::Atom(atom) => {
                let r = assign(*atom);
                proof {
                    assert forall|v: spec_fn(Atom) -> bool|
                        (forall|a: Atom, x: bool| #[trigger] assign.ensures((a,), x) ==> x == v(a)) implies r
                        == #[trigger] holds(*self, v) by {
                        assert(assign.ensures((*atom,), r));
                    }
                }
                r
            },
            Formula::Owned(_, inner) => {
                let x = inner.eval(assign);
                proof {
                    assert forall|v: spec_fn(Atom) -> bool|
                        (forall|a: Atom, z: bool| #[trigger] assign.ensures((a,), z) ==> z == v(a)) implies x
                        == #[trigger] holds(*self, v) by {
                        assert(x == holds(**inner, v));
                    }
                }
                x
            },
            Formula::Not(inner) => {
                let x = inner.eval(assign);
                proof {
                    assert forall|v: spec_fn(Atom) -> bool|
                        (forall|a: Atom, z: bool| #[trigger] assign.ensures((a,), z) ==> z == v(a)) implies !x
                        == #[trigger] holds(*self, v) by {
                        assert(x == holds(**inner, v));
                    }
                }
                !x
            },
            Formula::And(l, r) => {
                let x = l.eval(assign);
                let y = r.eval(assign);
                proof {
                    assert forall|v: spec_fn(Atom) -> bool|
                        (forall|a: Atom, z: bool| #[trigger] assign.ensures((a,), z) ==> z == v(a)) implies (x && y)
                        == #[trigger] holds(*self, v) by {
                        assert(x == holds(**l, v));
                        assert(y == holds(**r, v));
                    }
                }
                x && y
            },
            Formula::Or(l, r) => {
                let x = l.eval(assign);
                let y = r.eval(assign);
                proof {
                    assert forall|v: spec_fn(Atom) -> bool|
                        (forall|a: Atom, z: bool| #[trigger] assign.ensures((a,), z) ==> z == v(a)) implies (x || y)
                        == #[trigger] holds(*self, v) by {
                        assert(x == holds(**l, v));
                        assert(y == holds(**r, v));
                    }
                }
                x || y
            },
            Formula::Iff(l, r) => {
                let x = l.eval(assign);
                let y = r.eval(assign);
                proof {
                    assert forall|v: spec_fn(Atom) -> bool|
                        (forall|a: Atom, z: bool| #[trigger] assign.ensures((a,), z) ==> z == v(a)) implies (x == y)
                        == #[trigger] holds(*self, v) by {
                        assert(x == holds(**l, v));
                        assert(y == holds(**r, v));
                    }
                }
                x == y
            },
            Formula::Xor(l, r) => {
                let x = l.eval(assign);
                let y = r.eval(assign);
                proof {
                    assert forall|v: spec_fn(Atom) -> bool|
                        (forall|a: Atom, z: bool| #[trigger] assign.ensures((a,), z) ==> z == v(a)) implies (x != y)
                        == #[trigger] holds(*self, v) by {
                        assert(x == holds(**l, v));
                        assert(y == holds(**r, v));
                    }
                }
                x != y
            },
        }
    }

    /// Each atom replaced by what `of` makes of it (which must be the same
    /// formula for the same atom), rebuilt through the constructors so the
    /// constants fold on the way out.
    pub fn substitute<F: Fn(Atom) -> Formula>(&self, of: &F) -> (f: Formula)
        requires
            forall|a: Atom| #[trigger] of.requires((a,)),
            forall|a: Atom, x: Formula, y: Formula|
                of.ensures((a,), x) && of.ensures((a,), y) ==> x == y,
        ensures
            f == substituted(*self, |a: Atom| choose|g: Formula| of.ensures((a,), g)),
        decreases *self,
    {
        match self {
            Formula::True => Formula::True,
            Formula::False => Formula::False,
            Formula::Atom(atom) => {
                let g = of(*atom);
                proof {
                    let chosen = choose|x: Formula| of.ensures((*atom,), x);
                    assert(of.ensures((*atom,), chosen));
                }
                g
            },
            Formula::Owned(owner, inner) => Formula::owned(*owner, inner.substitute(of)),
            Formula::Not(inner) => inner.substitute(of).not(),
            Formula::And(l, r) => {
                let x = l.substitute(of);
                let y = r.substitute(of);
                x.and(y)
            },
            Formula::Or(l, r) => {
                let x = l.substitute(of);
                let y = r.substitute(of);
                x.or(y)
            },
            Formula::Iff(l, r) => {
                let x = l.substitute(of);
                let y = r.substitute(of);
                x.iff(y)
            },
            Formula::Xor(l, r) => {
                let x = l.substitute(of);
                let y = r.substitute(of);
                x.xor(y)
            },
        }
    }

    /// `substitute` over the solver's variables alone: a variable a scheme
    /// quantified stays where it stands.
    pub fn rename<F: Fn(u32) -> Formula>(&self, of: &F) -> (f: Formula)
        requires
            forall|v: u32| #[trigger] of.requires((v,)),
            forall|v: u32, x: Formula, y: Formula|
                of.ensures((v,), x) && of.ensures((v,), y) ==> x == y,
        ensures
            f == substituted(*self, |a: Atom| renamed_atom(a, |v: u32| choose|g: Formula| of.ensures((v,), g))),
        decreases *self,
    {
        match self {
            Formula::True => Formula::True,
            Formula::False => Formula::False,
            Formula::Atom(Atom::Var(var)) => {
                let g = of(*var);
                proof {
                    let chosen = choose|x: Formula| of.ensures((*var,), x);
                    assert(of.ensures((*var,), chosen));
                }
                g
            },
            Formula::Atom(Atom::Bound(index)) => Formula::bound(*index),
            Formula::Owned(owner, inner) => Formula::owned(*owner, inner.rename(of)),
            Formula::Not(inner) => inner.rename(of).not(),
            Formula::And(l, r) => {
                let x = l.rename(of);
                let y = r.rename(of);
                x.and(y)
            },
            Formula::Or(l, r) => {
                let x = l.rename(of);
                let y = r.rename(of);
                x.or(y)
            },
            Formula::Iff(l, r) => {
                let x = l.rename(of);
                let y = r.rename(of);
                x.iff(y)
            },
            Formula::Xor(l, r) => {
                let x = l.rename(of);
                let y = r.rename(of);
                x.xor(y)
            },
        }
    }
}

/// What renaming makes of one atom: a solver variable becomes what `of`
/// makes of it, and a bound one stays.
pub open spec fn renamed_atom(a: Atom, of: spec_fn(u32) -> Formula) -> Formula {
    match a {
        Atom::Var(v) => of(v),
        Atom::Bound(i) => Formula::Atom(Atom::Bound(i)),
    }
}

/// Whether one label is there.
#[derive(Debug, Clone, Default, PartialEq, Eq, Structural, Hash)]
pub enum Presence {
    Present,
    Absent,
    Var(u32),
    /// A foreign solver variable kept only until an imported interface is
    /// canonical.
    Recovered(u32),
    /// A presence a scheme quantified.
    Bound(u32),
    /// A question a failure abandoned.
    #[default]
    Undecided,
}

/// What a literal about a label says, by its presence.
pub open spec fn presence_formula(p: Presence) -> Formula {
    match p {
        Presence::Present => Formula::True,
        Presence::Absent => Formula::False,
        Presence::Var(v) => Formula::Atom(Atom::Var(v)),
        Presence::Bound(i) => Formula::Atom(Atom::Bound(i)),
        Presence::Recovered(_) | Presence::Undecided => Formula::True,
    }
}

/// A presence read as a formula holds exactly when the label is there:
/// always for a present label, never for an absent one, and as its atom
/// says for a variable.
pub proof fn lemma_presence_meaning(env: spec_fn(Atom) -> bool, v: u32)
    ensures
        holds(presence_formula(Presence::Present), env),
        !holds(presence_formula(Presence::Absent), env),
        holds(presence_formula(Presence::Var(v)), env) == env(Atom::Var(v)),
        holds(presence_formula(Presence::Bound(v)), env) == env(Atom::Bound(v)),
{
}

impl Presence {
    /// This presence read as a formula.
    pub fn formula(&self) -> (f: Formula)
        ensures
            f == presence_formula(*self),
    {
        match self {
            Presence::Present => Formula::True,
            Presence::Absent => Formula::False,
            Presence::Var(var) => Formula::var(*var),
            Presence::Bound(index) => Formula::bound(*index),
            Presence::Recovered(_) | Presence::Undecided => Formula::True,
        }
    }
}


/// Which effect an effect row names: one still waiting for its declaration
/// to be resolved, or a resolved one by its name and interface text.
#[derive(Debug, Clone, PartialEq, Eq, Hash)]
pub enum EffectId {
    Pending(Symbol),
    Structured { name: String, interface: String },
}

/// The effect of mutating a cell.
pub fn mutation_effect() -> (effect: EffectId)
    ensures
        effect matches EffectId::Structured { name, interface } && name@ == "mut"@ && interface@
            == "0#13:<builtin:mut>;"@,
{
    EffectId::structural("mut".to_owned(), "0#13:<builtin:mut>;".to_owned())
}

/// The name of an unresolved effect.
pub open spec fn unresolved_name() -> Seq<char> {
    "<unresolved effect>"@
}

/// The text the derived `Debug` writes for a symbol with these fields:
/// `Symbol { bundle: BundleHash(B), path: P }` with both numbers in decimal.
pub open spec fn symbol_debug(bundle: u64, path: u64) -> Seq<char> {
    "Symbol { bundle: BundleHash("@ + decimal_of(bundle as nat) + "), path: "@ + decimal_of(path as nat)
        + " }"@
}

/// The `Debug` text of a symbol.
fn symbol_debug_text(symbol: &Symbol) -> (text: String)
    ensures
        text@ == symbol_debug(symbol.spec_bundle()@, symbol.spec_path()),
{
    let mut out: Vec<char> = Vec::new();
    append_chars(&mut out, "Symbol { bundle: BundleHash(");
    push_decimal(&mut out, symbol.bundle().bits());
    append_chars(&mut out, "), path: ");
    push_decimal(&mut out, symbol.bits());
    append_chars(&mut out, " }");
    text_of(&out)
}

/// No two symbols write the same `Debug` text.
pub proof fn lemma_symbol_debug_injective(b1: u64, p1: u64, b2: u64, p2: u64)
    requires
        symbol_debug(b1, p1) == symbol_debug(b2, p2),
    ensures
        b1 == b2,
        p1 == p2,
{
    reveal_strlit("Symbol { bundle: BundleHash(");
    reveal_strlit("), path: ");
    reveal_strlit(" }");
    lemma_decimal_of(b1 as nat);
    lemma_decimal_of(b2 as nat);
    lemma_decimal_of(p1 as nat);
    lemma_decimal_of(p2 as nat);
    let pre = "Symbol { bundle: BundleHash("@;
    let pl = pre.len() as int;
    let mid = "), path: "@;
    let end = " }"@;
    let d1 = decimal_of(b1 as nat);
    let d2 = decimal_of(b2 as nat);
    let l1 = d1.len() as int;
    let l2 = d2.len() as int;
    let ml = mid.len() as int;
    let s = symbol_debug(b1, p1);
    let t = symbol_debug(b2, p2);
    assert(s =~= pre + d1 + mid + decimal_of(p1 as nat) + end);
    assert(t =~= pre + d2 + mid + decimal_of(p2 as nat) + end);
    if l1 < l2 {
        assert(s[pl + l1] == ')');
        assert(t[pl + l1] == d2[l1]);
        assert(is_ascii_digit_spec(d2[l1]));
    }
    if l2 < l1 {
        assert(t[pl + l2] == ')');
        assert(s[pl + l2] == d1[l2]);
        assert(is_ascii_digit_spec(d1[l2]));
    }
    assert(l1 == l2);
    assert(s.subrange(pl, pl + l1) =~= d1);
    assert(t.subrange(pl, pl + l2) =~= d2);
    let r1 = decimal_of(p1 as nat) + end;
    let r2 = decimal_of(p2 as nat) + end;
    assert(s.skip(pl + l1 + ml) =~= r1);
    assert(t.skip(pl + l2 + ml) =~= r2);
    assert(r1.take(r1.len() - 2) =~= decimal_of(p1 as nat));
    assert(r2.take(r2.len() - 2) =~= decimal_of(p2 as nat));
}

/// The canonical row key of a named effect: a record separator and `e`,
/// then its name and its interface, each after its length in UTF-8 bytes
/// and a `:`.
pub open spec fn row_key_text(name: Seq<char>, interface: Seq<char>) -> Seq<char> {
    seq!['\u{1e}', 'e'] + decimal_of(utf8_len(name)) + seq![':'] + name + decimal_of(utf8_len(interface))
        + seq![':'] + interface
}

/// A run of digits that gives the UTF-8 length of `text`.
pub open spec fn length_digits(digits: Seq<char>, text: Seq<char>) -> bool {
    digits.len() > 0 && all_digits(digits) && decimal_value(digits) == utf8_len(text)
}

/// `key` spells a row key of `name` and `interface`: the lengths may carry
/// leading zeros, which reading accepts.
pub open spec fn spells_row_key(key: Seq<char>, name: Seq<char>, interface: Seq<char>) -> bool {
    exists|d1: Seq<char>, d2: Seq<char>|
        #![trigger length_digits(d1, name), length_digits(d2, interface)]
        length_digits(d1, name) && length_digits(d2, interface) && key == seq!['\u{1e}', 'e'] + d1
            + seq![':'] + name + d2 + seq![':'] + interface
}

/// The key of an effect still being resolved: a record separator and `p`,
/// then the symbol's `Debug` text.
pub open spec fn pending_key_text(symbol: Symbol) -> Seq<char> {
    seq!['\u{1e}', 'p'] + symbol_debug(symbol.spec_bundle()@, symbol.spec_path())
}

/// Two different pending effects have different provisional keys.
pub proof fn lemma_pending_keys_distinct(a: Symbol, b: Symbol)
    requires
        a != b,
    ensures
        pending_key_text(a) != pending_key_text(b),
{
    if pending_key_text(a) == pending_key_text(b) {
        let da = symbol_debug(a.spec_bundle()@, a.spec_path());
        let db = symbol_debug(b.spec_bundle()@, b.spec_path());
        assert(pending_key_text(a).skip(2) =~= da);
        assert(pending_key_text(b).skip(2) =~= db);
        lemma_symbol_debug_injective(a.spec_bundle()@, a.spec_path(), b.spec_bundle()@, b.spec_path());
        crate::symbol::lemma_symbol_fields(a, b);
    }
}

/// The canonical row key reads back as the name and interface it was made
/// of.
pub proof fn lemma_row_key_reads_back(name: Seq<char>, interface: Seq<char>)
    ensures
        spells_row_key(row_key_text(name, interface), name, interface),
{
    lemma_decimal_of(utf8_len(name));
    lemma_decimal_of(utf8_len(interface));
    let d1 = decimal_of(utf8_len(name));
    let d2 = decimal_of(utf8_len(interface));
    assert(length_digits(d1, name) && length_digits(d2, interface));
}

/// Row keys and the keys of unresolved effects never coincide.
pub proof fn lemma_pending_keys_apart(symbol: Symbol, name: Seq<char>, interface: Seq<char>)
    ensures
        pending_key_text(symbol) != row_key_text(name, interface),
{
    assert(pending_key_text(symbol)[1] == 'p');
    assert(row_key_text(name, interface)[1] == 'e');
}

/// A length prefix and its name: from `at`, a run of digits, a `:`, and as
/// many characters as make up the byte length the digits spell. The name's
/// character range, or none.
fn length_prefixed(chars: &Vec<char>, at: usize) -> (r: Option<(usize, usize)>)
    requires
        at <= chars.len(),
        utf8_len(chars@) <= usize::MAX,
    ensures
        r matches Some((from, to)) ==> at < from <= to <= chars.len() && chars@[from - 1] == ':'
            && length_digits(chars@.subrange(at as int, from - 1), chars@.subrange(from as int, to as int)),
        forall|d: Seq<char>, x: Seq<char>, rest: Seq<char>|
            length_digits(d, x) && chars@.skip(at as int) == d + seq![':'] + x + rest ==> r == Some(
                ((at + d.len() + 1) as usize, (at + d.len() + 1 + x.len()) as usize),
            ),
{
    let mut end = at;
    while end < chars.len() && '0' <= chars[end] && chars[end] <= '9'
        invariant
            at <= end <= chars.len(),
            forall|i: int| at <= i < end ==> is_ascii_digit_spec(#[trigger] chars@[i]),
        decreases chars.len() - end,
    {
        end = end + 1;
    }
    proof {
        assert forall|d: Seq<char>, x: Seq<char>, rest: Seq<char>|
            length_digits(d, x) && chars@.skip(at as int) == d + seq![':'] + x + rest implies end == at + d.len() by {
            lemma_skip_after(chars@, at as int, d, x, rest);
            if end < at + d.len() {
                assert(is_ascii_digit_spec(d[end - at]));
            } else if end > at + d.len() {
                assert(is_ascii_digit_spec(chars@[at + d.len()]));
            }
        }
    }
    if end == at || end >= chars.len() || chars[end] != ':' {
        proof {
            assert forall|d: Seq<char>, x: Seq<char>, rest: Seq<char>|
                !(length_digits(d, x) && chars@.skip(at as int) == d + seq![':'] + x + rest) by {
                if length_digits(d, x) && chars@.skip(at as int) == d + seq![':'] + x + rest {
                    assert(chars@.skip(at as int)[d.len() as int] == ':');
                    assert(chars@[at + d.len()] == ':');
                }
            }
        }
        return None;
    }
    proof {
        assert(all_digits(chars@.subrange(at as int, end as int)));
    }
    let length = match crate::text::parse_decimal(chars, at, end, usize::MAX as u64) {
        Some(length) => length,
        None => {
            proof {
                assert forall|d: Seq<char>, x: Seq<char>, rest: Seq<char>|
                    !(length_digits(d, x) && chars@.skip(at as int) == d + seq![':'] + x + rest) by {
                    if length_digits(d, x) && chars@.skip(at as int) == d + seq![':'] + x + rest {
                        assert(chars@.subrange(at as int, end as int) =~= d);
                        lemma_utf8_len_concat(chars@.take(at as int), chars@.skip(at as int));
                        assert(chars@.take(at as int) + chars@.skip(at as int) =~= chars@);
                        lemma_utf8_len_concat(d + seq![':'], x + rest);
                        assert(d + seq![':'] + x + rest =~= (d + seq![':']) + (x + rest));
                        lemma_utf8_len_concat(x, rest);
                    }
                }
            }
            return None;
        },
    };
    let from = end + 1;
    let mut to = from;
    let mut bytes: u64 = 0;
    proof {
        assert(chars@.subrange(from as int, from as int) =~= Seq::<char>::empty());
    }
    while bytes < length
        invariant
            from <= to <= chars.len(),
            from == end + 1,
            length <= usize::MAX,
            bytes == utf8_len(chars@.subrange(from as int, to as int)),
            bytes <= length + 3,
            at < end < chars.len(),
            chars@[end as int] == ':',
            length == decimal_value(chars@.subrange(at as int, end as int)),
            forall|d: Seq<char>, x: Seq<char>, rest: Seq<char>|
                length_digits(d, x) && chars@.skip(at as int) == d + seq![':'] + x + rest ==> end == at + d.len(),
            to == from || utf8_len(chars@.subrange(from as int, to - 1)) < length,
            utf8_len(chars@) <= usize::MAX,
        decreases chars.len() - to,
    {
        if to >= chars.len() {
            proof {
                assert forall|d: Seq<char>, x: Seq<char>, rest: Seq<char>|
                    !(length_digits(d, x) && chars@.skip(at as int) == d + seq![':'] + x + rest) by {
                    if length_digits(d, x) && chars@.skip(at as int) == d + seq![':'] + x + rest {
                        lemma_skip_after(chars@, at as int, d, x, rest);
                        assert(chars@.subrange(at as int, end as int) =~= d);
                        lemma_prefix_bytes(chars@, from as int, to as int, x, rest);
                    }
                }
            }
            return None;
        }
        let w = crate::text::char_width(chars[to]);
        proof {
            assert(chars@.subrange(from as int, to + 1).drop_last() =~= chars@.subrange(from as int, to as int));
            let mid = chars@.subrange(from as int, to + 1);
            lemma_utf8_len_concat(chars@.take(from as int), mid);
            lemma_utf8_len_concat(chars@.take(from as int) + mid, chars@.skip(to + 1));
            assert(chars@.take(from as int) + mid + chars@.skip(to + 1) =~= chars@);
        }
        bytes = bytes + w as u64;
        to = to + 1;
    }
    if bytes != length {
        proof {
            assert forall|d: Seq<char>, x: Seq<char>, rest: Seq<char>|
                !(length_digits(d, x) && chars@.skip(at as int) == d + seq![':'] + x + rest) by {
                if length_digits(d, x) && chars@.skip(at as int) == d + seq![':'] + x + rest {
                    lemma_skip_after(chars@, at as int, d, x, rest);
                    assert(chars@.subrange(at as int, end as int) =~= d);
                    lemma_prefix_bytes(chars@, from as int, to as int, x, rest);
                    if to > from {
                        lemma_prefix_bytes(chars@, from as int, to - 1, x, rest);
                    }
                }
            }
        }
        return None;
    }
    proof {
        assert(chars@.subrange(at as int, end as int) == chars@.subrange(at as int, from - 1));
        assert forall|d: Seq<char>, x: Seq<char>, rest: Seq<char>|
            length_digits(d, x) && chars@.skip(at as int) == d + seq![':'] + x + rest implies to == at + d.len() + 1 + x.len() by {
            lemma_skip_after(chars@, at as int, d, x, rest);
            assert(chars@.subrange(at as int, end as int) =~= d);
            lemma_prefix_bytes(chars@, from as int, to as int, x, rest);
            if to > from {
                lemma_prefix_bytes(chars@, from as int, to - 1, x, rest);
            }
        }
    }
    Some((from, to))
}

/// Where `chars` holds digits `d`, a `:`, `x` and `rest` from `at` on, it
/// holds `x` and `rest` after the `:`.
proof fn lemma_skip_after(chars: Seq<char>, at: int, d: Seq<char>, x: Seq<char>, rest: Seq<char>)
    requires
        0 <= at <= chars.len(),
        chars.skip(at) == d + seq![':'] + x + rest,
    ensures
        at + d.len() < chars.len(),
        chars[at + d.len()] == ':',
        chars.subrange(at, at + d.len()) == d,
        chars.skip(at + d.len() + 1) == x + rest,
        forall|i: int| 0 <= i < d.len() ==> chars[at + i] == #[trigger] d[i],
{
    let t = d + seq![':'] + x + rest;
    assert(chars.skip(at).len() == chars.len() - at);
    assert(t.len() == d.len() + 1 + x.len() + rest.len());
    assert(t[d.len() as int] == ':');
    assert(chars.skip(at)[d.len() as int] == chars[at + d.len()]);
    assert(chars.subrange(at, at + d.len()) =~= d) by {
        assert forall|i: int| 0 <= i < d.len() implies chars.subrange(at, at + d.len())[i] == d[i] by {
            assert(t[i] == d[i]);
            assert(chars.skip(at)[i] == chars[at + i]);
        }
    }
    assert forall|i: int| 0 <= i < d.len() implies chars[at + i] == #[trigger] d[i] by {
        assert(t[i] == d[i]);
        assert(chars.skip(at)[i] == chars[at + i]);
    }
    assert(chars.skip(at + d.len() + 1) =~= t.skip(d.len() as int + 1));
    assert(t.skip(d.len() as int + 1) =~= x + rest);
}

/// Where `chars` holds `x` from `from` on, the byte length of `from..to`
/// reaches that of `x` only at the end of `x`, and falls short before it.
proof fn lemma_prefix_bytes(chars: Seq<char>, from: int, to: int, x: Seq<char>, rest: Seq<char>)
    requires
        0 <= from <= to <= chars.len(),
        chars.skip(from) == x + rest,
    ensures
        to < from + x.len() ==> utf8_len(chars.subrange(from, to)) < utf8_len(x),
        to == from + x.len() ==> utf8_len(chars.subrange(from, to)) == utf8_len(x),
        to > from + x.len() ==> utf8_len(chars.subrange(from, to)) > utf8_len(x),
{
    let k = to - from;
    if k <= x.len() {
        assert(chars.subrange(from, to) =~= x.take(k));
        lemma_utf8_len_concat(x.take(k), x.skip(k));
        assert(x.take(k) + x.skip(k) =~= x);
        if k < x.len() {
            lemma_utf8_len_positive(x.skip(k));
        }
    } else {
        let y = x + rest;
        assert(y.len() == chars.len() - from);
        assert(chars.subrange(from, to) =~= y.take(k));
        assert forall|i: int| 0 <= i < k implies y.take(k)[i] == (x + rest.take(k - x.len()))[i] by {
            if i < x.len() {
            } else {
                assert(rest.take(k - x.len())[i - x.len()] == rest[i - x.len()]);
            }
        }
        assert(y.take(k) =~= x + rest.take(k - x.len()));
        lemma_utf8_len_concat(x, rest.take(k - x.len()));
        lemma_utf8_len_positive(rest.take(k - x.len()));
    }
}

proof fn lemma_utf8_len_positive(s: Seq<char>)
    requires
        s.len() > 0,
    ensures
        utf8_len(s) > 0,
{
}

impl EffectId {
    /// The canonical row key of a named effect.
    pub fn row_key(&self) -> (key: String)
        requires
            self is Structured,
            utf8_len(self->name@) <= usize::MAX,
            utf8_len(self->interface@) <= usize::MAX,
        ensures
            key@ == row_key_text(self->name@, self->interface@),
    {
        match self {
            EffectId::Structured { name, interface } => {
                let mut out: Vec<char> = Vec::new();
                out.push('\u{1e}');
                out.push('e');
                push_decimal(&mut out, byte_length(name.as_str()) as u64);
                out.push(':');
                append_chars(&mut out, name.as_str());
                push_decimal(&mut out, byte_length(interface.as_str()) as u64);
                out.push(':');
                append_chars(&mut out, interface.as_str());
                proof {
                    assert(out@ =~= row_key_text(name@, interface@));
                }
                text_of(&out)
            },
            EffectId::Pending(_) => {
                proof {
                    assert(false);
                }
                String::new()
            },
        }
    }

    /// Read a canonical row key back into its name and interface.
    pub fn parse_canonical_row_key(key: &str) -> (r: Option<(&str, &str)>)
        requires
            utf8_len(key@) <= usize::MAX,
        ensures
            forall|name: Seq<char>, interface: Seq<char>|
                spells_row_key(key@, name, interface) <==> (r matches Some((n, i)) && n@ == name
                    && i@ == interface),
    {
        let chars = chars_of(key);
        if chars.len() < 2 || chars[0] != '\u{1e}' || chars[1] != 'e' {
            proof {
                assert forall|name: Seq<char>, interface: Seq<char>| !spells_row_key(key@, name, interface) by {
                    if spells_row_key(key@, name, interface) {
                        let (d1, d2) = choose|d1: Seq<char>, d2: Seq<char>|
                            length_digits(d1, name) && length_digits(d2, interface) && key@ == seq!['\u{1e}', 'e'] + d1
                                + seq![':'] + name + d2 + seq![':'] + interface;
                        assert(key@[0] == '\u{1e}' && key@[1] == 'e');
                    }
                }
            }
            return None;
        }
        let first = length_prefixed(&chars, 2);
        let (name_from, name_to) = match first {
            Some(range) => range,
            None => {
                proof {
                    assert forall|name: Seq<char>, interface: Seq<char>| !spells_row_key(key@, name, interface) by {
                        if spells_row_key(key@, name, interface) {
                            let (d1, d2) = lemma_split_row_key(key@, name, interface);
                            assert(chars@.skip(2) == d1 + seq![':'] + name + (d2 + seq![':'] + interface));
                        }
                    }
                }
                return None;
            },
        };
        proof {
            assert forall|name: Seq<char>, interface: Seq<char>| spells_row_key(key@, name, interface) implies {
                let (d1, d2) = row_key_digits(key@, name, interface);
                &&& name_from == 2 + d1.len() + 1
                &&& name_to == name_from + name.len()
            } by {
                let (d1, d2) = lemma_split_row_key(key@, name, interface);
                assert(chars@.skip(2) == d1 + seq![':'] + name + (d2 + seq![':'] + interface));
            }
        }
        let second = length_prefixed(&chars, name_to);
        let (interface_from, interface_to) = match second {
            Some(range) => range,
            None => {
                proof {
                    assert forall|name: Seq<char>, interface: Seq<char>| !spells_row_key(key@, name, interface) by {
                        if spells_row_key(key@, name, interface) {
                            let (d1, d2) = lemma_split_row_key(key@, name, interface);
                            assert(chars@.skip(name_to as int) == d2 + seq![':'] + interface + Seq::<char>::empty());
                        }
                    }
                }
                return None;
            },
        };
        proof {
            assert forall|name: Seq<char>, interface: Seq<char>| spells_row_key(key@, name, interface) implies {
                let (d1, d2) = row_key_digits(key@, name, interface);
                &&& interface_from == name_to + d2.len() + 1
                &&& interface_to == interface_from + interface.len()
            } by {
                let (d1, d2) = lemma_split_row_key(key@, name, interface);
                assert(chars@.skip(name_to as int) == d2 + seq![':'] + interface + Seq::<char>::empty());
            }
        }
        if interface_to != chars.len() {
            proof {
                assert forall|name: Seq<char>, interface: Seq<char>| !spells_row_key(key@, name, interface) by {
                    if spells_row_key(key@, name, interface) {
                        let (d1, d2) = lemma_split_row_key(key@, name, interface);
                    }
                }
            }
            return None;
        }
        let n = key.substring_char(name_from, name_to);
        let i = key.substring_char(interface_from, interface_to);
        proof {
            let d1 = chars@.subrange(2, name_from - 1);
            let d2 = chars@.subrange(name_to as int, interface_from - 1);
            assert(key@ =~= seq!['\u{1e}', 'e'] + d1 + seq![':'] + n@ + d2 + seq![':'] + i@);
            assert(length_digits(d1, n@) && length_digits(d2, i@));
            assert forall|name: Seq<char>, interface: Seq<char>| spells_row_key(key@, name, interface)
                implies n@ == name && i@ == interface by {
                let (e1, e2) = lemma_split_row_key(key@, name, interface);
                assert(key@.subrange(name_from as int, name_to as int) =~= name);
                assert(key@.subrange(interface_from as int, interface_to as int) =~= interface);
            }
        }
        Some((n, i))
    }

    /// Read a row key: the canonical spelling, or else the older one that
    /// separates name and interface at the first unit separator.
    pub fn parse_row_key(key: &str) -> (r: Option<(&str, &str)>)
        requires
            utf8_len(key@) <= usize::MAX,
        ensures
            (exists|name: Seq<char>, interface: Seq<char>| spells_row_key(key@, name, interface))
                ==> forall|name: Seq<char>, interface: Seq<char>|
                spells_row_key(key@, name, interface) <==> (r matches Some((n, i)) && n@ == name
                    && i@ == interface),
            !(exists|name: Seq<char>, interface: Seq<char>| spells_row_key(key@, name, interface))
                ==> match r {
                Some((n, i)) => key@.contains('\u{1f}') && !n@.contains('\u{1f}') && key@ == n@
                    + seq!['\u{1f}'] + i@,
                None => !key@.contains('\u{1f}'),
            },
    {
        match EffectId::parse_canonical_row_key(key) {
            Some(parts) => {
                proof {
                    assert(spells_row_key(key@, parts.0@, parts.1@));
                }
                Some(parts)
            },
            None => {
                proof {
                    if exists|name: Seq<char>, interface: Seq<char>| spells_row_key(key@, name, interface) {
                        let (name, interface) = choose|name: Seq<char>, interface: Seq<char>| spells_row_key(key@, name, interface);
                        assert(spells_row_key(key@, name, interface));
                    }
                }
                split_at_unit_separator(key)
            },
        }
    }

    /// The row key, or a provisional key for an effect whose identity is
    /// still being computed.
    pub fn label_key(&self) -> (key: String)
        requires
            self is Structured ==> utf8_len(self->name@) <= usize::MAX && utf8_len(self->interface@) <= usize::MAX,
        ensures
            key@ == match self {
                EffectId::Structured { name, interface } => row_key_text(name@, interface@),
                EffectId::Pending(symbol) => pending_key_text(*symbol),
            },
    {
        match self {
            EffectId::Structured { .. } => self.row_key(),
            EffectId::Pending(symbol) => {
                let mut out: Vec<char> = Vec::new();
                out.push('\u{1e}');
                out.push('p');
                let text = symbol_debug_text(symbol);
                append_chars(&mut out, text.as_str());
                proof {
                    assert(out@ =~= pending_key_text(*symbol));
                }
                text_of(&out)
            },
        }
    }
}

/// The length digits a spelling of a row key was written with.
spec fn row_key_digits(key: Seq<char>, name: Seq<char>, interface: Seq<char>) -> (Seq<char>, Seq<char>) {
    choose|d1: Seq<char>, d2: Seq<char>|
        length_digits(d1, name) && length_digits(d2, interface) && key == seq!['\u{1e}', 'e'] + d1
            + seq![':'] + name + d2 + seq![':'] + interface
}

/// A spelling of a row key splits at its two length prefixes.
proof fn lemma_split_row_key(key: Seq<char>, name: Seq<char>, interface: Seq<char>) -> (ds: (Seq<char>, Seq<char>))
    requires
        spells_row_key(key, name, interface),
    ensures
        ds == row_key_digits(key, name, interface),
        length_digits(ds.0, name),
        length_digits(ds.1, interface),
        key.len() >= 2,
        key[0] == '\u{1e}' && key[1] == 'e',
        key.skip(2) == ds.0 + seq![':'] + name + (ds.1 + seq![':'] + interface),
        key.skip(2 + ds.0.len() as int + 1 + name.len()) == ds.1 + seq![':'] + interface + Seq::<char>::empty(),
        key.len() == 2 + ds.0.len() + 1 + name.len() + ds.1.len() + 1 + interface.len(),
{
    let (d1, d2) = row_key_digits(key, name, interface);
    assert(key.skip(2) =~= d1 + seq![':'] + name + (d2 + seq![':'] + interface));
    assert(key.skip(2 + d1.len() as int + 1 + name.len()) =~= d2 + seq![':'] + interface + Seq::<char>::empty());
    (d1, d2)
}

/// The UTF-8 byte length of a string.
fn byte_length(s: &str) -> (n: usize)
    requires
        utf8_len(s@) <= usize::MAX,
    ensures
        n == utf8_len(s@),
{
    let chars = chars_of(s);
    let mut n: usize = 0;
    let mut i: usize = 0;
    proof {
        assert(chars@.take(0) =~= Seq::<char>::empty());
    }
    while i < chars.len()
        invariant
            chars@ == s@,
            i <= chars.len(),
            n == utf8_len(chars@.take(i as int)),
            utf8_len(s@) <= usize::MAX,
        decreases chars.len() - i,
    {
        proof {
            assert(chars@.take(i + 1).drop_last() =~= chars@.take(i as int));
            lemma_utf8_len_concat(chars@.take(i + 1), chars@.skip(i + 1));
            assert(chars@.take(i + 1) + chars@.skip(i + 1) =~= chars@);
        }
        n = n + crate::text::char_width(chars[i]);
        i = i + 1;
    }
    proof {
        assert(chars@.take(i as int) =~= chars@);
    }
    n
}

/// Append the characters of `s`.
fn append_chars(out: &mut Vec<char>, s: &str)
    ensures
        final(out)@ == old(out)@ + s@,
{
    let chars = chars_of(s);
    let mut i: usize = 0;
    while i < chars.len()
        invariant
            chars@ == s@,
            i <= chars.len(),
            out@ == old(out)@ + chars@.take(i as int),
        decreases chars.len() - i,
    {
        out.push(chars[i]);
        proof {
            assert(chars@.take(i + 1) =~= chars@.take(i as int).push(chars@[i as int]));
        }
        i = i + 1;
    }
    proof {
        assert(chars@.take(i as int) =~= chars@);
    }
}

/// `str::split_once` at the first unit separator.
fn split_at_unit_separator(key: &str) -> (r: Option<(&str, &str)>)
    ensures
        match r {
            Some((n, i)) => key@.contains('\u{1f}') && !n@.contains('\u{1f}') && key@ == n@ + seq!['\u{1f}'] + i@,
            None => !key@.contains('\u{1f}'),
        },
{
    let chars = chars_of(key);
    let mut i: usize = 0;
    while i < chars.len() && chars[i] != '\u{1f}'
        invariant
            chars@ == key@,
            i <= chars.len(),
            forall|k: int| 0 <= k < i ==> chars@[k] != '\u{1f}',
        decreases chars.len() - i,
    {
        i = i + 1;
    }
    if i == chars.len() {
        return None;
    }
    let n = key.substring_char(0, i);
    let rest = key.substring_char(i + 1, chars.len());
    proof {
        assert(key@ =~= n@ + seq!['\u{1f}'] + rest@);
        assert(key@[i as int] == '\u{1f}');
    }
    Some((n, rest))
}

impl EffectId {
    pub fn pending(symbol: Symbol) -> (effect: EffectId)
        ensures
            effect == EffectId::Pending(symbol),
    {
        EffectId::Pending(symbol)
    }

    pub fn structural(name: String, interface: String) -> (effect: EffectId)
        ensures
            effect matches EffectId::Structured { name: n, interface: i } && n@ == name@ && i@
                == interface@,
    {
        EffectId::Structured { name, interface }
    }

    /// The effect's name, or a placeholder while it is unresolved.
    pub fn name(&self) -> (name: &str)
        ensures
            name@ == match self {
                EffectId::Structured { name, .. } => name@,
                EffectId::Pending(_) => unresolved_name(),
            },
    {
        match self {
            EffectId::Structured { name, .. } => name.as_str(),
            EffectId::Pending(_) => "<unresolved effect>",
        }
    }
}

} // verus!
