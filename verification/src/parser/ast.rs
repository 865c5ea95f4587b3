//! The syntax tree the parser builds: every node records the range of text
//! it was parsed from.
use vstd::prelude::*;

use crate::reporting::TextRange;

verus! {


#[derive(Debug, PartialEq, Eq)]
pub struct AstFile {
    /// `Some` if this is a bundle root
    pub bundle_name: Option<Identifier>,
    pub range: TextRange,
    pub statements: Vec<Statement>,
}

#[derive(Debug, Clone, PartialEq, Eq)]
pub struct ErrorNode {
    pub range: TextRange,
}

impl ErrorNode {
    pub fn new(range: TextRange) -> (node: ErrorNode)
        ensures
            node.range == range,
    {
        ErrorNode { range }
    }
}

#[derive(Debug, Clone, Copy, PartialEq, Eq, Structural, Hash)]
pub enum IdentifierKind {
    Bare,
    Bracketed,
}

#[derive(Debug, Clone, PartialEq, Eq)]
pub struct Identifier {
    pub kind: IdentifierKind,
    pub range: TextRange,
}

#[derive(Debug, Clone, Copy, PartialEq, Eq, Structural, Hash)]
pub enum PathRoot {
    Relative,
    Root,
    Bundle,
}

#[derive(Debug, Clone, PartialEq, Eq)]
pub struct Path {
    pub root: PathRoot,
    pub segments: Vec<Identifier>,
    pub range: TextRange,
}

#[derive(Debug, Clone, PartialEq, Eq)]
pub enum NameRef {
    Identifier(Identifier),
    Path(Path),
}

impl NameRef {
    /// Where the node was written.
    pub open spec fn range_of(&self) -> TextRange {
        match self {
            Self::Identifier(identifier) => identifier.range,
            Self::Path(path) => path.range,
        }
    }

    pub fn range(&self) -> (range: TextRange)
        ensures
            range == self.range_of(),
    {
        match self {
            Self::Identifier(identifier) => identifier.range,
            Self::Path(path) => path.range,
        }
    }
}

#[derive(Debug, Clone, Copy, PartialEq, Eq, Structural, Hash)]
pub enum LiteralKind {
    Integer,
    Natural,
    Real,
    String,
    Glyph,
    FormatString,
    BoolTrue,
    BoolFalse,
}

#[derive(Debug, Clone, PartialEq, Eq)]
pub struct Literal {
    pub kind: LiteralKind,
    pub range: TextRange,
}

impl Literal {
    /// Where the node was written.
    pub open spec fn range_of(&self) -> TextRange {
        self.range
    }

    pub fn range(&self) -> (range: TextRange)
        ensures
            range == self.range_of(),
    {
        self.range
    }
}

#[derive(Debug, PartialEq, Eq)]
pub enum Statement {
    Bundle {
        name: Option<Identifier>,
        range: TextRange,
    },
    Module {
        name: Option<Identifier>,
        body: Vec<Statement>,
        range: TextRange,
    },
    ModuleRef {
        name: Option<Identifier>,
        in_loc: Option<Literal>,
        range: TextRange,
    },
    Let {
        kind: LetStatementKind,
        range: TextRange,
    },
    Do {
        expr: Expr,
        range: TextRange,
    },
    Use {
        target: Option<NameRef>,
        alias: Option<Identifier>,
        range: TextRange,
    },
    Type {
        name: Option<Identifier>,
        params: Vec<Identifier>,
        kind: TypeStatementKind,
        range: TextRange,
    },
    Trait {
        name: Option<Identifier>,
        params: Vec<Identifier>,
        items: Vec<TraitItem>,
        range: TextRange,
    },
    TraitAlias {
        name: Option<Identifier>,
        target: Option<NameRef>,
        range: TextRange,
    },
    Impl {
        trait_ref: Option<NameRef>,
        for_types: Vec<TypeExpr>,
        items: Vec<ImplItem>,
        range: TextRange,
    },
    Wasm {
        declarations: Vec<SExpr>,
        range: TextRange,
    },
    Error(ErrorNode),
}

impl Statement {
    /// Where the node was written.
    pub open spec fn range_of(&self) -> TextRange {
        match self {
            Self::Bundle { range, .. }
            | Self::Module { range, .. }
            | Self::ModuleRef { range, .. }
            | Self::Let { range, .. }
            | Self::Do { range, .. }
            | Self::Use { range, .. }
            | Self::Type { range, .. }
            | Self::Trait { range, .. }
            | Self::TraitAlias { range, .. }
            | Self::Impl { range, .. }
            | Self::Wasm { range, .. } => *range,
            Self::Error(error) => error.range,
        }
    }

    pub fn range(&self) -> (range: TextRange)
        ensures
            range == self.range_of(),
    {
        match self {
            Self::Bundle { range, .. }
            | Self::Module { range, .. }
            | Self::ModuleRef { range, .. }
            | Self::Let { range, .. }
            | Self::Do { range, .. }
            | Self::Use { range, .. }
            | Self::Type { range, .. }
            | Self::Trait { range, .. }
            | Self::TraitAlias { range, .. }
            | Self::Impl { range, .. }
            | Self::Wasm { range, .. } => *range,
            Self::Error(error) => error.range,
        }
    }
}

#[derive(Debug, PartialEq, Eq)]
pub enum LetStatementKind {
    PatternBinding {
        pattern: Pattern,
        value: Expr,
    },
    ConstructorAlias {
        alias: Option<Identifier>,
        target: Option<NameRef>,
    },
}

#[derive(Debug, PartialEq, Eq)]
pub enum TypeStatementKind {
    Alias { value: TypeExpr },
    Nominal { definition: TypeDefinition },
}

#[derive(Debug, PartialEq, Eq)]
pub enum TypeDefinition {
    Struct {
        members: Vec<RecordTypeMember>,
        range: TextRange,
    },
    Sum {
        variants: Vec<SumVariant>,
        range: TextRange,
    },
    Expr(TypeExpr),
}

impl TypeDefinition {
    /// Where the node was written.
    pub open spec fn range_of(&self) -> TextRange {
        match self {
            Self::Struct { range, .. } | Self::Sum { range, .. } => *range,
            Self::Expr(expr) => expr.range_of(),
        }
    }

    pub fn range(&self) -> (range: TextRange)
        ensures
            range == self.range_of(),
    {
        match self {
            Self::Struct { range, .. } | Self::Sum { range, .. } => *range,
            Self::Expr(expr) => expr.range(),
        }
    }
}

#[derive(Debug, PartialEq, Eq)]
pub enum RecordTypeMember {
    Field {
        name: Option<Identifier>,
        ty: TypeExpr,
        range: TextRange,
    },
    Spread {
        ty: TypeExpr,
        range: TextRange,
    },
}

impl RecordTypeMember {
    /// Where the node was written.
    pub open spec fn range_of(&self) -> TextRange {
        match self {
            Self::Field { range, .. } | Self::Spread { range, .. } => *range,
        }
    }

    pub fn range(&self) -> (range: TextRange)
        ensures
            range == self.range_of(),
    {
        match self {
            Self::Field { range, .. } | Self::Spread { range, .. } => *range,
        }
    }
}

#[derive(Debug, PartialEq, Eq)]
pub struct SumVariant {
    pub name: Option<Identifier>,
    pub argument: Option<TypeExpr>,
    pub range: TextRange,
}

#[derive(Debug, PartialEq, Eq)]
pub enum TraitItem {
    Method {
        name: Option<Identifier>,
        ty: TypeExpr,
        range: TextRange,
    },
    Type {
        name: Option<Identifier>,
        range: TextRange,
    },
    Error(ErrorNode),
}

impl TraitItem {
    /// Where the node was written.
    pub open spec fn range_of(&self) -> TextRange {
        match self {
            Self::Method { range, .. } | Self::Type { range, .. } => *range,
            Self::Error(error) => error.range,
        }
    }

    pub fn range(&self) -> (range: TextRange)
        ensures
            range == self.range_of(),
    {
        match self {
            Self::Method { range, .. } | Self::Type { range, .. } => *range,
            Self::Error(error) => error.range,
        }
    }
}

#[derive(Debug, PartialEq, Eq)]
pub enum ImplItem {
    Method {
        name: Option<Identifier>,
        value: Expr,
        range: TextRange,
    },
    Type {
        name: Option<Identifier>,
        value: TypeExpr,
        range: TextRange,
    },
    Error(ErrorNode),
}

impl ImplItem {
    /// Where the node was written.
    pub open spec fn range_of(&self) -> TextRange {
        match self {
            Self::Method { range, .. } | Self::Type { range, .. } => *range,
            Self::Error(error) => error.range,
        }
    }

    pub fn range(&self) -> (range: TextRange)
        ensures
            range == self.range_of(),
    {
        match self {
            Self::Method { range, .. } | Self::Type { range, .. } => *range,
            Self::Error(error) => error.range,
        }
    }
}

#[derive(Debug, PartialEq, Eq)]
pub enum TypeExpr {
    Forall {
        params: Vec<Identifier>,
        body: Box<TypeExpr>,
        constraints: Vec<TraitConstraint>,
        range: TextRange,
    },
    Function {
        param: Box<TypeExpr>,
        result: Box<TypeExpr>,
        range: TextRange,
    },
    Apply {
        callee: Box<TypeExpr>,
        argument: Box<TypeExpr>,
        range: TextRange,
    },
    Name(NameRef),
    Grouped {
        inner: Box<TypeExpr>,
        range: TextRange,
    },
    Tuple {
        elements: Vec<TypeExpr>,
        range: TextRange,
    },
    Unit {
        range: TextRange,
    },
    Array {
        range: TextRange,
    },
    Error(ErrorNode),
}

impl TypeExpr {
    /// Where the node was written.
    pub open spec fn range_of(&self) -> TextRange {
        match self {
            Self::Forall { range, .. }
            | Self::Function { range, .. }
            | Self::Apply { range, .. }
            | Self::Grouped { range, .. }
            | Self::Tuple { range, .. }
            | Self::Unit { range }
            | Self::Array { range } => *range,
            Self::Name(name) => name.range_of(),
            Self::Error(error) => error.range,
        }
    }

    pub fn range(&self) -> (range: TextRange)
        ensures
            range == self.range_of(),
    {
        match self {
            Self::Forall { range, .. }
            | Self::Function { range, .. }
            | Self::Apply { range, .. }
            | Self::Grouped { range, .. }
            | Self::Tuple { range, .. }
            | Self::Unit { range }
            | Self::Array { range } => *range,
            Self::Name(name) => name.range(),
            Self::Error(error) => error.range,
        }
    }
}

#[derive(Debug, PartialEq, Eq)]
pub struct TraitConstraint {
    pub trait_ref: Option<NameRef>,
    pub args: Vec<TypeExpr>,
    pub range: TextRange,
}

#[derive(Debug, PartialEq, Eq)]
pub enum Pattern {
    Constructor {
        constructor: NameRef,
        argument: Box<Pattern>,
        range: TextRange,
    },
    Annotated {
        pattern: Box<Pattern>,
        ty: TypeExpr,
        range: TextRange,
    },
    Name(NameRef),
    Literal(Literal),
    Grouped {
        inner: Box<Pattern>,
        range: TextRange,
    },
    Tuple {
        elements: Vec<Pattern>,
        range: TextRange,
    },
    Array {
        elements: Vec<ArrayPatternElement>,
        range: TextRange,
    },
    Record {
        fields: Vec<RecordPatternField>,
        open: bool,
        range: TextRange,
    },
    Error(ErrorNode),
}

impl Pattern {
    /// Where the node was written.
    pub open spec fn range_of(&self) -> TextRange {
        match self {
            Self::Constructor { range, .. }
            | Self::Annotated { range, .. }
            | Self::Grouped { range, .. }
            | Self::Tuple { range, .. }
            | Self::Array { range, .. }
            | Self::Record { range, .. } => *range,
            Self::Name(name) => name.range_of(),
            Self::Literal(literal) => literal.range,
            Self::Error(error) => error.range,
        }
    }

    pub fn range(&self) -> (range: TextRange)
        ensures
            range == self.range_of(),
    {
        match self {
            Self::Constructor { range, .. }
            | Self::Annotated { range, .. }
            | Self::Grouped { range, .. }
            | Self::Tuple { range, .. }
            | Self::Array { range, .. }
            | Self::Record { range, .. } => *range,
            Self::Name(name) => name.range(),
            Self::Literal(literal) => literal.range,
            Self::Error(error) => error.range,
        }
    }
}

#[derive(Debug, PartialEq, Eq)]
pub enum ArrayPatternElement {
    Item(Pattern),
    Rest {
        binding: Option<Identifier>,
        range: TextRange,
    },
}

impl ArrayPatternElement {
    /// Where the node was written.
    pub open spec fn range_of(&self) -> TextRange {
        match self {
            Self::Item(pattern) => pattern.range_of(),
            Self::Rest { range, .. } => *range,
        }
    }

    pub fn range(&self) -> (range: TextRange)
        ensures
            range == self.range_of(),
    {
        match self {
            Self::Item(pattern) => pattern.range(),
            Self::Rest { range, .. } => *range,
        }
    }
}

#[derive(Debug, PartialEq, Eq)]
pub struct RecordPatternField {
    pub name: Option<Identifier>,
    pub value: Option<Pattern>,
    pub range: TextRange,
}

#[derive(Debug, Clone, Copy, PartialEq, Eq, Structural, Hash)]
pub enum BinaryOperator {
    Sequence,
    And,
    Or,
    PipeRight,
    PlusPipe,
    StarPipe,
    Xor,
    ShiftRight,
    ShiftLeft,
    Add,
    Subtract,
    Multiply,
    Divide,
    Modulo,
    Equal,
    NotEqual,
    Less,
    LessEqual,
    Greater,
    GreaterEqual,
}

#[derive(Debug, Clone, Copy, PartialEq, Eq, Structural, Hash)]
pub enum UnaryOperator {
    Not,
    Negate,
}

#[derive(Debug, PartialEq, Eq)]
pub enum Expr {
    Let {
        pattern: Pattern,
        value: Box<Expr>,
        body: Box<Expr>,
        range: TextRange,
    },
    Use {
        target: Option<NameRef>,
        alias: Option<Identifier>,
        body: Box<Expr>,
        range: TextRange,
    },
    Function {
        params: Vec<Parameter>,
        body: FunctionBody,
        range: TextRange,
    },
    If {
        condition: Box<Expr>,
        then_branch: Box<Expr>,
        else_branch: Box<Expr>,
        range: TextRange,
    },
    Match {
        scrutinee: Box<Expr>,
        arms: Vec<MatchArm>,
        range: TextRange,
    },
    Binary {
        op: BinaryOperator,
        lhs: Box<Expr>,
        rhs: Box<Expr>,
        range: TextRange,
    },
    Unary {
        op: UnaryOperator,
        expr: Box<Expr>,
        range: TextRange,
    },
    Apply {
        callee: Box<Expr>,
        argument: Box<Expr>,
        range: TextRange,
    },
    FieldAccess {
        expr: Box<Expr>,
        field: Option<Identifier>,
        range: TextRange,
    },
    Name(NameRef),
    Literal(Literal),
    Grouped {
        inner: Box<Expr>,
        range: TextRange,
    },
    Unit {
        range: TextRange,
    },
    Tuple {
        elements: Vec<Expr>,
        range: TextRange,
    },
    Array {
        elements: Vec<ArrayElement>,
        range: TextRange,
    },
    Record {
        fields: Vec<RecordField>,
        range: TextRange,
    },
    InlineWasm {
        result_type: TypeExpr,
        body: Option<SExpr>,
        range: TextRange,
    },
    Error(ErrorNode),
}

impl Expr {
    /// Where the node was written.
    pub open spec fn range_of(&self) -> TextRange {
        match self {
            Self::Let { range, .. }
            | Self::Use { range, .. }
            | Self::Function { range, .. }
            | Self::If { range, .. }
            | Self::Match { range, .. }
            | Self::Binary { range, .. }
            | Self::Unary { range, .. }
            | Self::Apply { range, .. }
            | Self::FieldAccess { range, .. }
            | Self::Grouped { range, .. }
            | Self::Unit { range }
            | Self::Tuple { range, .. }
            | Self::Array { range, .. }
            | Self::Record { range, .. }
            | Self::InlineWasm { range, .. } => *range,
            Self::Name(name) => name.range_of(),
            Self::Literal(literal) => literal.range,
            Self::Error(error) => error.range,
        }
    }

    pub fn range(&self) -> (range: TextRange)
        ensures
            range == self.range_of(),
    {
        match self {
            Self::Let { range, .. }
            | Self::Use { range, .. }
            | Self::Function { range, .. }
            | Self::If { range, .. }
            | Self::Match { range, .. }
            | Self::Binary { range, .. }
            | Self::Unary { range, .. }
            | Self::Apply { range, .. }
            | Self::FieldAccess { range, .. }
            | Self::Grouped { range, .. }
            | Self::Unit { range }
            | Self::Tuple { range, .. }
            | Self::Array { range, .. }
            | Self::Record { range, .. }
            | Self::InlineWasm { range, .. } => *range,
            Self::Name(name) => name.range(),
            Self::Literal(literal) => literal.range,
            Self::Error(error) => error.range,
        }
    }
}

#[derive(Debug, PartialEq, Eq)]
pub enum FunctionBody {
    Expr(Box<Expr>),
    MatchArms(Vec<MatchArm>),
}

#[derive(Debug, PartialEq, Eq)]
pub enum Parameter {
    Named(Identifier),
    Typed {
        name: Option<Identifier>,
        ty: TypeExpr,
        range: TextRange,
    },
    Error(ErrorNode),
}

impl Parameter {
    /// Where the node was written.
    pub open spec fn range_of(&self) -> TextRange {
        match self {
            Self::Named(identifier) => identifier.range,
            Self::Typed { range, .. } => *range,
            Self::Error(error) => error.range,
        }
    }

    pub fn range(&self) -> (range: TextRange)
        ensures
            range == self.range_of(),
    {
        match self {
            Self::Named(identifier) => identifier.range,
            Self::Typed { range, .. } => *range,
            Self::Error(error) => error.range,
        }
    }
}

#[derive(Debug, PartialEq, Eq)]
pub struct MatchArm {
    pub pattern: Pattern,
    pub body: Expr,
    pub range: TextRange,
}

#[derive(Debug, PartialEq, Eq)]
pub enum ArrayElement {
    Item(Expr),
    Spread { expr: Expr, range: TextRange },
}

impl ArrayElement {
    /// Where the node was written.
    pub open spec fn range_of(&self) -> TextRange {
        match self {
            Self::Item(expr) => expr.range_of(),
            Self::Spread { range, .. } => *range,
        }
    }

    pub fn range(&self) -> (range: TextRange)
        ensures
            range == self.range_of(),
    {
        match self {
            Self::Item(expr) => expr.range(),
            Self::Spread { range, .. } => *range,
        }
    }
}

#[derive(Debug, Clone, Copy, PartialEq, Eq, Structural, Hash)]
pub enum RecordFieldSeparator {
    Equals,
    Colon,
    Missing,
}

#[derive(Debug, PartialEq, Eq)]
pub struct RecordField {
    pub name: Option<Identifier>,
    pub separator: RecordFieldSeparator,
    pub value: Expr,
    pub range: TextRange,
}

#[derive(Debug, Clone, Copy, PartialEq, Eq, Structural, Hash)]
pub enum SExprAtomKind {
    Path,
    Ident,
    String,
    Integer,
    Natural,
    Real,
    BoolTrue,
    BoolFalse,
}

#[derive(Debug, PartialEq, Eq)]
pub enum SExpr {
    List {
        items: Vec<SExpr>,
        range: TextRange,
    },
    Atom {
        kind: SExprAtomKind,
        range: TextRange,
    },
    Error(ErrorNode),
}

impl SExpr {
    /// Where the node was written.
    pub open spec fn range_of(&self) -> TextRange {
        match self {
            Self::List { range, .. } | Self::Atom { range, .. } => *range,
            Self::Error(error) => error.range,
        }
    }

    pub fn range(&self) -> (range: TextRange)
        ensures
            range == self.range_of(),
    {
        match self {
            Self::List { range, .. } | Self::Atom { range, .. } => *range,
            Self::Error(error) => error.range,
        }
    }
}


} // verus!
