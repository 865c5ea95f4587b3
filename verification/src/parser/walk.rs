//! The order in which a traversal meets the nodes of a syntax tree: each
//! node before what it holds, its parts from left to right, and a named
//! module's statements between entering and leaving it.
use vstd::prelude::*;

use super::ast::{
    ArrayElement, ArrayPatternElement, AstFile, Expr, FunctionBody, Identifier, ImplItem, LetStatementKind, MatchArm, Parameter, Pattern,
    RecordField, RecordPatternField, RecordTypeMember, SExpr, Statement, SumVariant, TraitConstraint, TraitItem, TypeDefinition, TypeExpr,
    TypeStatementKind,
};

verus! {

/// A node a traversal meets, or the entry to and exit from a named module.
#[derive(Debug, Clone, Copy)]
pub enum Visit<'a> {
    Statement(&'a Statement),
    Expr(&'a Expr),
    Pattern(&'a Pattern),
    TypeExpr(&'a TypeExpr),
    TypeDef(&'a TypeDefinition),
    SExpr(&'a SExpr),
    EnterModule(&'a Identifier),
    LeaveModule,
}

/// What a traversal of an S-expression meets: the node, then its items.
pub open spec fn sexpr_visits<'a>(sexpr: &'a SExpr) -> Seq<Visit<'a>>
    decreases sexpr,
{
    seq![Visit::SExpr(sexpr)] + match sexpr {
        SExpr::List { items, .. } => sexprs_visits(items@, items@.len() as int),
        _ => Seq::empty(),
    }
}

/// What traversals of the first `k` S-expressions meet, in turn.
pub open spec fn sexprs_visits<'a>(items: Seq<SExpr>, k: int) -> Seq<Visit<'a>>
    decreases items, k,
{
    if k <= 0 || k > items.len() {
        Seq::empty()
    } else {
        sexprs_visits(items, k - 1) + sexpr_visits(&items[k - 1])
    }
}

/// What a traversal of a type expression meets: the node, then its parts.
pub open spec fn type_expr_visits<'a>(ty: &'a TypeExpr) -> Seq<Visit<'a>>
    decreases ty,
{
    seq![Visit::TypeExpr(ty)] + match ty {
        TypeExpr::Forall { body, constraints, .. } => type_expr_visits(&**body) + constraints_visits(constraints@, constraints@.len() as int),
        TypeExpr::Function { param, result, .. } => type_expr_visits(&**param) + type_expr_visits(&**result),
        TypeExpr::Apply { callee, argument, .. } => type_expr_visits(&**callee) + type_expr_visits(&**argument),
        TypeExpr::Grouped { inner, .. } => type_expr_visits(&**inner),
        TypeExpr::Tuple { elements, .. } => type_exprs_visits(elements@, elements@.len() as int),
        _ => Seq::empty(),
    }
}

/// What traversals of the first `k` type expressions meet, in turn.
pub open spec fn type_exprs_visits<'a>(items: Seq<TypeExpr>, k: int) -> Seq<Visit<'a>>
    decreases items, k,
{
    if k <= 0 || k > items.len() {
        Seq::empty()
    } else {
        type_exprs_visits(items, k - 1) + type_expr_visits(&items[k - 1])
    }
}

/// What traversals of the arguments of the first `k` constraints meet.
pub open spec fn constraints_visits<'a>(items: Seq<TraitConstraint>, k: int) -> Seq<Visit<'a>>
    decreases items, k,
{
    if k <= 0 || k > items.len() {
        Seq::empty()
    } else {
        constraints_visits(items, k - 1) + type_exprs_visits(items[k - 1].args@, items[k - 1].args@.len() as int)
    }
}

/// What a traversal of a pattern meets: the node, then its parts.
pub open spec fn pattern_visits<'a>(pattern: &'a Pattern) -> Seq<Visit<'a>>
    decreases pattern,
{
    seq![Visit::Pattern(pattern)] + match pattern {
        Pattern::Constructor { argument, .. } => pattern_visits(&**argument),
        Pattern::Grouped { inner, .. } => pattern_visits(&**inner),
        Pattern::Annotated { pattern: inner, ty, .. } => pattern_visits(&**inner) + type_expr_visits(ty),
        Pattern::Tuple { elements, .. } => patterns_visits(elements@, elements@.len() as int),
        Pattern::Array { elements, .. } => array_pattern_visits(elements@, elements@.len() as int),
        Pattern::Record { fields, .. } => record_pattern_visits(fields@, fields@.len() as int),
        _ => Seq::empty(),
    }
}

/// What traversals of the first `k` patterns meet, in turn.
pub open spec fn patterns_visits<'a>(items: Seq<Pattern>, k: int) -> Seq<Visit<'a>>
    decreases items, k,
{
    if k <= 0 || k > items.len() {
        Seq::empty()
    } else {
        patterns_visits(items, k - 1) + pattern_visits(&items[k - 1])
    }
}

/// What traversals of the items among the first `k` elements of an array
/// pattern meet; a rest element holds no pattern.
pub open spec fn array_pattern_visits<'a>(items: Seq<ArrayPatternElement>, k: int) -> Seq<Visit<'a>>
    decreases items, k,
{
    if k <= 0 || k > items.len() {
        Seq::empty()
    } else {
        array_pattern_visits(items, k - 1) + match items[k - 1] {
            ArrayPatternElement::Item(item) => pattern_visits(&item),
            ArrayPatternElement::Rest { .. } => Seq::empty(),
        }
    }
}

/// What traversals of the values among the first `k` fields of a record
/// pattern meet.
pub open spec fn record_pattern_visits<'a>(items: Seq<RecordPatternField>, k: int) -> Seq<Visit<'a>>
    decreases items, k,
{
    if k <= 0 || k > items.len() {
        Seq::empty()
    } else {
        record_pattern_visits(items, k - 1) + match items[k - 1].value {
            Some(value) => pattern_visits(&value),
            None => Seq::empty(),
        }
    }
}

/// What a traversal of an expression meets: the node, then its parts.
pub open spec fn expr_visits<'a>(expr: &'a Expr) -> Seq<Visit<'a>>
    decreases expr,
{
    seq![Visit::Expr(expr)] + match expr {
        Expr::Let { pattern, value, body, .. } => pattern_visits(pattern) + expr_visits(&**value) + expr_visits(&**body),
        Expr::Use { body, .. } => expr_visits(&**body),
        Expr::Function { params, body, .. } => params_visits(params@, params@.len() as int) + match body {
            FunctionBody::Expr(inner) => expr_visits(&**inner),
            FunctionBody::MatchArms(arms) => arms_visits(arms@, arms@.len() as int),
        },
        Expr::If { condition, then_branch, else_branch, .. } => expr_visits(&**condition) + expr_visits(&**then_branch) + expr_visits(
            &**else_branch,
        ),
        Expr::Match { scrutinee, arms, .. } => expr_visits(&**scrutinee) + arms_visits(arms@, arms@.len() as int),
        Expr::Binary { lhs, rhs, .. } => expr_visits(&**lhs) + expr_visits(&**rhs),
        Expr::Apply { callee, argument, .. } => expr_visits(&**callee) + expr_visits(&**argument),
        Expr::Unary { expr: inner, .. } => expr_visits(&**inner),
        Expr::Grouped { inner, .. } => expr_visits(&**inner),
        Expr::FieldAccess { expr: inner, .. } => expr_visits(&**inner),
        Expr::Tuple { elements, .. } => exprs_visits(elements@, elements@.len() as int),
        Expr::Array { elements, .. } => array_elements_visits(elements@, elements@.len() as int),
        Expr::Record { fields, .. } => record_fields_visits(fields@, fields@.len() as int),
        Expr::InlineWasm { result_type, body, .. } => type_expr_visits(result_type) + match body {
            Some(sexpr) => sexpr_visits(sexpr),
            None => Seq::empty(),
        },
        _ => Seq::empty(),
    }
}

/// What traversals of the first `k` expressions meet, in turn.
pub open spec fn exprs_visits<'a>(items: Seq<Expr>, k: int) -> Seq<Visit<'a>>
    decreases items, k,
{
    if k <= 0 || k > items.len() {
        Seq::empty()
    } else {
        exprs_visits(items, k - 1) + expr_visits(&items[k - 1])
    }
}

/// What traversals of the annotations of the first `k` parameters meet.
pub open spec fn params_visits<'a>(items: Seq<Parameter>, k: int) -> Seq<Visit<'a>>
    decreases items, k,
{
    if k <= 0 || k > items.len() {
        Seq::empty()
    } else {
        params_visits(items, k - 1) + match items[k - 1] {
            Parameter::Typed { ty, .. } => type_expr_visits(&ty),
            _ => Seq::empty(),
        }
    }
}

/// What traversals of the first `k` arms meet: each arm's pattern, then
/// its body.
pub open spec fn arms_visits<'a>(items: Seq<MatchArm>, k: int) -> Seq<Visit<'a>>
    decreases items, k,
{
    if k <= 0 || k > items.len() {
        Seq::empty()
    } else {
        arms_visits(items, k - 1) + pattern_visits(&items[k - 1].pattern) + expr_visits(&items[k - 1].body)
    }
}

/// What traversals of the first `k` array elements meet, spreads included.
pub open spec fn array_elements_visits<'a>(items: Seq<ArrayElement>, k: int) -> Seq<Visit<'a>>
    decreases items, k,
{
    if k <= 0 || k > items.len() {
        Seq::empty()
    } else {
        array_elements_visits(items, k - 1) + match items[k - 1] {
            ArrayElement::Item(item) => expr_visits(&item),
            ArrayElement::Spread { expr, .. } => expr_visits(&expr),
        }
    }
}

/// What traversals of the values of the first `k` record fields meet.
pub open spec fn record_fields_visits<'a>(items: Seq<RecordField>, k: int) -> Seq<Visit<'a>>
    decreases items, k,
{
    if k <= 0 || k > items.len() {
        Seq::empty()
    } else {
        record_fields_visits(items, k - 1) + expr_visits(&items[k - 1].value)
    }
}

/// What a traversal of a type definition meets: the definition, then the
/// types of its members or cases.
pub open spec fn type_def_visits<'a>(definition: &'a TypeDefinition) -> Seq<Visit<'a>> {
    seq![Visit::TypeDef(definition)] + match definition {
        TypeDefinition::Expr(ty) => type_expr_visits(ty),
        TypeDefinition::Struct { members, .. } => members_visits(members@, members@.len() as int),
        TypeDefinition::Sum { variants, .. } => variants_visits(variants@, variants@.len() as int),
    }
}

/// What traversals of the types of the first `k` record members meet.
pub open spec fn members_visits<'a>(items: Seq<RecordTypeMember>, k: int) -> Seq<Visit<'a>>
    decreases k,
{
    if k <= 0 || k > items.len() {
        Seq::empty()
    } else {
        members_visits(items, k - 1) + match items[k - 1] {
            RecordTypeMember::Field { ty, .. } => type_expr_visits(&ty),
            RecordTypeMember::Spread { ty, .. } => type_expr_visits(&ty),
        }
    }
}

/// What traversals of the arguments of the first `k` variants meet.
pub open spec fn variants_visits<'a>(items: Seq<SumVariant>, k: int) -> Seq<Visit<'a>>
    decreases k,
{
    if k <= 0 || k > items.len() {
        Seq::empty()
    } else {
        variants_visits(items, k - 1) + match items[k - 1].argument {
            Some(argument) => type_expr_visits(&argument),
            None => Seq::empty(),
        }
    }
}

/// What a traversal of a statement meets: the statement, then its parts;
/// a named module's statements between entering and leaving it.
pub open spec fn statement_visits<'a>(statement: &'a Statement) -> Seq<Visit<'a>>
    decreases statement,
{
    seq![Visit::Statement(statement)] + match statement {
        Statement::Module { name, body, .. } => match name {
            Some(id) => seq![Visit::EnterModule(id)] + statements_visits(body@, body@.len() as int) + seq![Visit::LeaveModule],
            None => statements_visits(body@, body@.len() as int),
        },
        Statement::Let { kind, .. } => match kind {
            LetStatementKind::PatternBinding { pattern, value } => pattern_visits(pattern) + expr_visits(value),
            LetStatementKind::ConstructorAlias { .. } => Seq::empty(),
        },
        Statement::Do { expr, .. } => expr_visits(expr),
        Statement::Type { kind, .. } => match kind {
            TypeStatementKind::Alias { value } => type_expr_visits(value),
            TypeStatementKind::Nominal { definition } => type_def_visits(definition),
        },
        Statement::Trait { items, .. } => trait_items_visits(items@, items@.len() as int),
        Statement::Impl { for_types, items, .. } => type_exprs_visits(for_types@, for_types@.len() as int) + impl_items_visits(
            items@,
            items@.len() as int,
        ),
        Statement::Wasm { declarations, .. } => sexprs_visits(declarations@, declarations@.len() as int),
        _ => Seq::empty(),
    }
}

/// What traversals of the first `k` statements meet, in turn.
pub open spec fn statements_visits<'a>(items: Seq<Statement>, k: int) -> Seq<Visit<'a>>
    decreases items, k,
{
    if k <= 0 || k > items.len() {
        Seq::empty()
    } else {
        statements_visits(items, k - 1) + statement_visits(&items[k - 1])
    }
}

/// What traversals of the method types of the first `k` trait items meet.
pub open spec fn trait_items_visits<'a>(items: Seq<TraitItem>, k: int) -> Seq<Visit<'a>>
    decreases k,
{
    if k <= 0 || k > items.len() {
        Seq::empty()
    } else {
        trait_items_visits(items, k - 1) + match items[k - 1] {
            TraitItem::Method { ty, .. } => type_expr_visits(&ty),
            _ => Seq::empty(),
        }
    }
}

/// What traversals of the values of the first `k` impl items meet.
pub open spec fn impl_items_visits<'a>(items: Seq<ImplItem>, k: int) -> Seq<Visit<'a>>
    decreases k,
{
    if k <= 0 || k > items.len() {
        Seq::empty()
    } else {
        impl_items_visits(items, k - 1) + match items[k - 1] {
            ImplItem::Method { value, .. } => expr_visits(&value),
            ImplItem::Type { value, .. } => type_expr_visits(&value),
            ImplItem::Error(_) => Seq::empty(),
        }
    }
}

/// What a traversal of a file meets: its statements, in turn.
pub open spec fn file_visits<'a>(file: &'a AstFile) -> Seq<Visit<'a>> {
    statements_visits(file.statements@, file.statements@.len() as int)
}

/// Meets an S-expression, then its items.
pub fn walk_sexpr<'a>(sexpr: &'a SExpr, visits: &mut Vec<Visit<'a>>)
    ensures
        final(visits)@ == old(visits)@ + sexpr_visits(sexpr),
    decreases sexpr,
{
    let ghost start = visits@;
    visits.push(Visit::SExpr(sexpr));
    if let SExpr::List { items, .. } = sexpr {
        let mut k: usize = 0;
        while k < items.len()
            invariant
                k <= items.len(),
                sexpr is List && sexpr->items == *items,
                visits@ == start + seq![Visit::SExpr(sexpr)] + sexprs_visits(items@, k as int),
            decreases items.len() - k,
        {
            proof {
                assert(decreases_to!(sexpr => items@[k as int]));
            }
            walk_sexpr(&items[k], visits);
            k = k + 1;
        }
    }
}

/// Meets each of a list of type expressions in turn.
fn walk_type_exprs<'a>(items: &'a Vec<TypeExpr>, visits: &mut Vec<Visit<'a>>)
    ensures
        final(visits)@ == old(visits)@ + type_exprs_visits(items@, items@.len() as int),
{
    let ghost start = visits@;
    let mut k: usize = 0;
    while k < items.len()
        invariant
            k <= items.len(),
            visits@ == start + type_exprs_visits(items@, k as int),
        decreases items.len() - k,
    {
        walk_type_expr(&items[k], visits);
        k = k + 1;
    }
}

/// Meets a type expression, then its parts.
pub fn walk_type_expr<'a>(ty: &'a TypeExpr, visits: &mut Vec<Visit<'a>>)
    ensures
        final(visits)@ == old(visits)@ + type_expr_visits(ty),
    decreases ty, 1int,
{
    let ghost start = visits@;
    visits.push(Visit::TypeExpr(ty));
    let ghost head = start + seq![Visit::TypeExpr(ty)];
    match ty {
        TypeExpr::Forall { body, constraints, .. } => {
            walk_type_expr(body, visits);
            let ghost middle = visits@;
            let mut k: usize = 0;
            while k < constraints.len()
                invariant
                    k <= constraints.len(),
                    ty is Forall && ty->constraints == *constraints,
                    visits@ == middle + constraints_visits(constraints@, k as int),
                decreases constraints.len() - k,
            {
                proof {
                    assert(decreases_to!(ty => constraints@[k as int]));
                }
                walk_constraint(&constraints[k], visits, Ghost(ty));
                k = k + 1;
            }
        },
        TypeExpr::Function { param, result, .. } => {
            walk_type_expr(param, visits);
            walk_type_expr(result, visits);
        },
        TypeExpr::Apply { callee, argument, .. } => {
            walk_type_expr(callee, visits);
            walk_type_expr(argument, visits);
        },
        TypeExpr::Grouped { inner, .. } => {
            walk_type_expr(inner, visits);
        },
        TypeExpr::Tuple { elements, .. } => {
            let mut k: usize = 0;
            while k < elements.len()
                invariant
                    k <= elements.len(),
                    ty is Tuple && ty->elements == *elements,
                    visits@ == head + type_exprs_visits(elements@, k as int),
                decreases elements.len() - k,
            {
                proof {
                    assert(decreases_to!(ty => elements@[k as int]));
                }
                walk_type_expr(&elements[k], visits);
                k = k + 1;
            }
        },
        _ => {},
    }
}

/// Meets the arguments of a constraint within `ty`.
fn walk_constraint<'a>(constraint: &'a TraitConstraint, visits: &mut Vec<Visit<'a>>, Ghost(ty): Ghost<&'a TypeExpr>)
    requires
        decreases_to!(ty => *constraint),
    ensures
        final(visits)@ == old(visits)@ + type_exprs_visits(constraint.args@, constraint.args@.len() as int),
    decreases ty, 0int,
{
    let ghost start = visits@;
    let mut j: usize = 0;
    while j < constraint.args.len()
        invariant
            j <= constraint.args.len(),
            decreases_to!(ty => *constraint),
            visits@ == start + type_exprs_visits(constraint.args@, j as int),
        decreases constraint.args.len() - j,
    {
        proof {
            assert(decreases_to!(*constraint => constraint.args@[j as int]));
        }
        walk_type_expr(&constraint.args[j], visits);
        j = j + 1;
    }
}


/// Meets a pattern, then its parts.
pub fn walk_pattern<'a>(pattern: &'a Pattern, visits: &mut Vec<Visit<'a>>)
    ensures
        final(visits)@ == old(visits)@ + pattern_visits(pattern),
    decreases pattern,
{
    let ghost start = visits@;
    visits.push(Visit::Pattern(pattern));
    let ghost head = start + seq![Visit::Pattern(pattern)];
    match pattern {
        Pattern::Constructor { argument, .. } => {
            walk_pattern(argument, visits);
        },
        Pattern::Grouped { inner, .. } => {
            walk_pattern(inner, visits);
        },
        Pattern::Annotated { pattern: inner, ty, .. } => {
            walk_pattern(inner, visits);
            walk_type_expr(ty, visits);
        },
        Pattern::Tuple { elements, .. } => {
            let mut k: usize = 0;
            while k < elements.len()
                invariant
                    k <= elements.len(),
                    pattern is Tuple && pattern->Tuple_elements == *elements,
                    visits@ == head + patterns_visits(elements@, k as int),
                decreases elements.len() - k,
            {
                proof {
                    assert(decreases_to!(pattern => elements@[k as int]));
                }
                walk_pattern(&elements[k], visits);
                k = k + 1;
            }
        },
        Pattern::Array { elements, .. } => {
            let mut k: usize = 0;
            while k < elements.len()
                invariant
                    k <= elements.len(),
                    pattern is Array && pattern->Array_elements == *elements,
                    visits@ == head + array_pattern_visits(elements@, k as int),
                decreases elements.len() - k,
            {
                proof {
                    assert(decreases_to!(pattern => elements@[k as int]));
                }
                match &elements[k] {
                    ArrayPatternElement::Item(item) => {
                        proof {
                            assert(decreases_to!(pattern => *item));
                        }
                        walk_pattern(item, visits);
                    },
                    ArrayPatternElement::Rest { .. } => {},
                }
                k = k + 1;
            }
        },
        Pattern::Record { fields, .. } => {
            let mut k: usize = 0;
            while k < fields.len()
                invariant
                    k <= fields.len(),
                    pattern is Record && pattern->fields == *fields,
                    visits@ == head + record_pattern_visits(fields@, k as int),
                decreases fields.len() - k,
            {
                proof {
                    assert(decreases_to!(pattern => fields@[k as int]));
                }
                match &fields[k].value {
                    Some(value) => {
                        proof {
                            assert(decreases_to!(pattern => fields@[k as int].value));
                            assert(decreases_to!(pattern => *value));
                        }
                        walk_pattern(value, visits);
                    },
                    None => {},
                }
                k = k + 1;
            }
        },
        _ => {},
    }
}


/// Meets the arms of a match or a function within `expr`: each arm's
/// pattern, then its body.
fn walk_arms<'a>(arms: &'a Vec<MatchArm>, visits: &mut Vec<Visit<'a>>, Ghost(expr): Ghost<&'a Expr>)
    requires
        decreases_to!(expr => *arms),
    ensures
        final(visits)@ == old(visits)@ + arms_visits(arms@, arms@.len() as int),
    decreases expr, 0int,
{
    let ghost start = visits@;
    let mut k: usize = 0;
    while k < arms.len()
        invariant
            k <= arms.len(),
            decreases_to!(expr => *arms),
            visits@ == start + arms_visits(arms@, k as int),
        decreases arms.len() - k,
    {
        proof {
            assert(decreases_to!(*arms => arms@[k as int]));
            assert(decreases_to!(expr => arms@[k as int].body));
        }
        walk_pattern(&arms[k].pattern, visits);
        walk_expr(&arms[k].body, visits);
        k = k + 1;
    }
}

/// Meets an expression, then its parts.
pub fn walk_expr<'a>(expr: &'a Expr, visits: &mut Vec<Visit<'a>>)
    ensures
        final(visits)@ == old(visits)@ + expr_visits(expr),
    decreases expr, 1int,
{
    let ghost start = visits@;
    visits.push(Visit::Expr(expr));
    let ghost head = start + seq![Visit::Expr(expr)];
    match expr {
        Expr::Let { pattern, value, body, .. } => {
            walk_pattern(pattern, visits);
            walk_expr(value, visits);
            walk_expr(body, visits);
        },
        Expr::Use { body, .. } => {
            walk_expr(body, visits);
        },
        Expr::Function { params, body, .. } => {
            let mut k: usize = 0;
            while k < params.len()
                invariant
                    k <= params.len(),
                    visits@ == head + params_visits(params@, k as int),
                decreases params.len() - k,
            {
                match &params[k] {
                    Parameter::Typed { ty, .. } => {
                        walk_type_expr(ty, visits);
                    },
                    _ => {},
                }
                k = k + 1;
            }
            match body {
                FunctionBody::Expr(inner) => {
                    walk_expr(inner, visits);
                },
                FunctionBody::MatchArms(arms) => {
                    walk_arms(arms, visits, Ghost(expr));
                },
            }
        },
        Expr::If { condition, then_branch, else_branch, .. } => {
            walk_expr(condition, visits);
            walk_expr(then_branch, visits);
            walk_expr(else_branch, visits);
        },
        Expr::Match { scrutinee, arms, .. } => {
            walk_expr(scrutinee, visits);
            walk_arms(arms, visits, Ghost(expr));
        },
        Expr::Binary { lhs, rhs, .. } => {
            walk_expr(lhs, visits);
            walk_expr(rhs, visits);
        },
        Expr::Apply { callee, argument, .. } => {
            walk_expr(callee, visits);
            walk_expr(argument, visits);
        },
        Expr::Unary { expr: inner, .. } => {
            walk_expr(inner, visits);
        },
        Expr::Grouped { inner, .. } => {
            walk_expr(inner, visits);
        },
        Expr::FieldAccess { expr: inner, .. } => {
            walk_expr(inner, visits);
        },
        Expr::Tuple { elements, .. } => {
            let mut k: usize = 0;
            while k < elements.len()
                invariant
                    k <= elements.len(),
                    expr is Tuple && expr->Tuple_elements == *elements,
                    visits@ == head + exprs_visits(elements@, k as int),
                decreases elements.len() - k,
            {
                proof {
                    assert(decreases_to!(expr => elements@[k as int]));
                }
                walk_expr(&elements[k], visits);
                k = k + 1;
            }
        },
        Expr::Array { elements, .. } => {
            let mut k: usize = 0;
            while k < elements.len()
                invariant
                    k <= elements.len(),
                    expr is Array && expr->Array_elements == *elements,
                    visits@ == head + array_elements_visits(elements@, k as int),
                decreases elements.len() - k,
            {
                proof {
                    assert(decreases_to!(expr => elements@[k as int]));
                }
                match &elements[k] {
                    ArrayElement::Item(item) => {
                        proof {
                            assert(decreases_to!(expr => *item));
                        }
                        walk_expr(item, visits);
                    },
                    ArrayElement::Spread { expr: inner, .. } => {
                        proof {
                            assert(decreases_to!(expr => *inner));
                        }
                        walk_expr(inner, visits);
                    },
                }
                k = k + 1;
            }
        },
        Expr::Record { fields, .. } => {
            let mut k: usize = 0;
            while k < fields.len()
                invariant
                    k <= fields.len(),
                    expr is Record && expr->fields == *fields,
                    visits@ == head + record_fields_visits(fields@, k as int),
                decreases fields.len() - k,
            {
                proof {
                    assert(decreases_to!(expr => fields@[k as int]));
                    assert(decreases_to!(expr => fields@[k as int].value));
                }
                walk_expr(&fields[k].value, visits);
                k = k + 1;
            }
        },
        Expr::InlineWasm { result_type, body, .. } => {
            walk_type_expr(result_type, visits);
            match body {
                Some(sexpr) => {
                    walk_sexpr(sexpr, visits);
                },
                None => {},
            }
        },
        _ => {},
    }
}


/// Meets a type definition, then the types of its members or cases.
fn walk_type_definition<'a>(definition: &'a TypeDefinition, visits: &mut Vec<Visit<'a>>)
    ensures
        final(visits)@ == old(visits)@ + type_def_visits(definition),
{
    let ghost start = visits@;
    visits.push(Visit::TypeDef(definition));
    let ghost head = start + seq![Visit::TypeDef(definition)];
    match definition {
        TypeDefinition::Expr(ty) => {
            walk_type_expr(ty, visits);
        },
        TypeDefinition::Struct { members, .. } => {
            let mut k: usize = 0;
            while k < members.len()
                invariant
                    k <= members.len(),
                    visits@ == head + members_visits(members@, k as int),
                decreases members.len() - k,
            {
                match &members[k] {
                    RecordTypeMember::Field { ty, .. } => {
                        walk_type_expr(ty, visits);
                    },
                    RecordTypeMember::Spread { ty, .. } => {
                        walk_type_expr(ty, visits);
                    },
                }
                k = k + 1;
            }
        },
        TypeDefinition::Sum { variants, .. } => {
            let mut k: usize = 0;
            while k < variants.len()
                invariant
                    k <= variants.len(),
                    visits@ == head + variants_visits(variants@, k as int),
                decreases variants.len() - k,
            {
                match &variants[k].argument {
                    Some(argument) => {
                        walk_type_expr(argument, visits);
                    },
                    None => {},
                }
                k = k + 1;
            }
        },
    }
}

/// Meets a statement, then its parts; a named module's statements between
/// entering and leaving it.
pub fn walk_statement<'a>(statement: &'a Statement, visits: &mut Vec<Visit<'a>>)
    ensures
        final(visits)@ == old(visits)@ + statement_visits(statement),
    decreases statement,
{
    let ghost start = visits@;
    visits.push(Visit::Statement(statement));
    let ghost head = start + seq![Visit::Statement(statement)];
    match statement {
        Statement::Module { name, body, .. } => {
            match name {
                Some(id) => {
                    visits.push(Visit::EnterModule(id));
                },
                None => {},
            }
            let ghost entered = visits@;
            let mut k: usize = 0;
            while k < body.len()
                invariant
                    k <= body.len(),
                    statement is Module && statement->body == *body,
                    visits@ == entered + statements_visits(body@, k as int),
                decreases body.len() - k,
            {
                proof {
                    assert(decreases_to!(statement => body@[k as int]));
                }
                walk_statement(&body[k], visits);
                k = k + 1;
            }
            if name.is_some() {
                visits.push(Visit::LeaveModule);
            }
        },
        Statement::Let { kind, .. } => {
            match kind {
                LetStatementKind::PatternBinding { pattern, value } => {
                    walk_pattern(pattern, visits);
                    walk_expr(value, visits);
                },
                LetStatementKind::ConstructorAlias { .. } => {},
            }
        },
        Statement::Do { expr, .. } => {
            walk_expr(expr, visits);
        },
        Statement::Type { kind, .. } => {
            match kind {
                TypeStatementKind::Alias { value } => {
                    walk_type_expr(value, visits);
                },
                TypeStatementKind::Nominal { definition } => {
                    walk_type_definition(definition, visits);
                },
            }
        },
        Statement::Trait { items, .. } => {
            let mut k: usize = 0;
            while k < items.len()
                invariant
                    k <= items.len(),
                    visits@ == head + trait_items_visits(items@, k as int),
                decreases items.len() - k,
            {
                match &items[k] {
                    TraitItem::Method { ty, .. } => {
                        walk_type_expr(ty, visits);
                    },
                    _ => {},
                }
                k = k + 1;
            }
        },
        Statement::Impl { for_types, items, .. } => {
            walk_type_exprs(for_types, visits);
            let ghost typed = visits@;
            let mut k: usize = 0;
            while k < items.len()
                invariant
                    k <= items.len(),
                    visits@ == typed + impl_items_visits(items@, k as int),
                decreases items.len() - k,
            {
                match &items[k] {
                    ImplItem::Method { value, .. } => {
                        walk_expr(value, visits);
                    },
                    ImplItem::Type { value, .. } => {
                        walk_type_expr(value, visits);
                    },
                    ImplItem::Error(_) => {},
                }
                k = k + 1;
            }
        },
        Statement::Wasm { declarations, .. } => {
            let mut k: usize = 0;
            while k < declarations.len()
                invariant
                    k <= declarations.len(),
                    visits@ == head + sexprs_visits(declarations@, k as int),
                decreases declarations.len() - k,
            {
                walk_sexpr(&declarations[k], visits);
                k = k + 1;
            }
        },
        _ => {},
    }
}

impl AstFile {
    /// Meets the file's statements in turn: the order a visitor sees the
    /// tree in.
    pub fn walk<'a>(&'a self, visits: &mut Vec<Visit<'a>>)
        ensures
            final(visits)@ == old(visits)@ + file_visits(self),
    {
        let ghost start = visits@;
        let mut k: usize = 0;
        while k < self.statements.len()
            invariant
                k <= self.statements.len(),
                visits@ == start + statements_visits(self.statements@, k as int),
            decreases self.statements.len() - k,
        {
            walk_statement(&self.statements[k], visits);
            k = k + 1;
        }
    }
}



/// The expressions an expression holds directly: its operands, branches,
/// bodies, elements and field values.
pub open spec fn child_exprs(e: Expr) -> Seq<Expr> {
    match e {
        Expr::Let { value, body, .. } => seq![*value, *body],
        Expr::Use { body, .. } => seq![*body],
        Expr::Function { body, .. } => match body {
            FunctionBody::Expr(inner) => seq![*inner],
            FunctionBody::MatchArms(arms) => arms@.map_values(|a: MatchArm| a.body),
        },
        Expr::If { condition, then_branch, else_branch, .. } => seq![*condition, *then_branch, *else_branch],
        Expr::Match { scrutinee, arms, .. } => seq![*scrutinee] + arms@.map_values(|a: MatchArm| a.body),
        Expr::Binary { lhs, rhs, .. } => seq![*lhs, *rhs],
        Expr::Apply { callee, argument, .. } => seq![*callee, *argument],
        Expr::Unary { expr: inner, .. } => seq![*inner],
        Expr::Grouped { inner, .. } => seq![*inner],
        Expr::FieldAccess { expr: inner, .. } => seq![*inner],
        Expr::Tuple { elements, .. } => elements@,
        Expr::Array { elements, .. } => elements@.map_values(|a: ArrayElement| match a {
            ArrayElement::Item(item) => item,
            ArrayElement::Spread { expr, .. } => expr,
        }),
        Expr::Record { fields, .. } => fields@.map_values(|f: RecordField| f.value),
        _ => Seq::empty(),
    }
}

/// Whether a traversal met the expression `c`.
pub open spec fn visits_expr<'a>(visits: Seq<Visit<'a>>, c: Expr) -> bool {
    exists|j: int| #![trigger visits[j]] 0 <= j < visits.len() && (visits[j] matches Visit::Expr(x) && *x == c)
}

proof fn lemma_visits_self<'a>(c: &'a Expr)
    ensures
        visits_expr(expr_visits(c), *c),
{
    assert(expr_visits(c)[0] == Visit::Expr(c));
}

proof fn lemma_visits_after<'a>(a: Seq<Visit<'a>>, b: Seq<Visit<'a>>, c: Expr)
    requires
        visits_expr(b, c),
    ensures
        visits_expr(a + b, c),
{
    let j = choose|j: int| #![trigger b[j]] 0 <= j < b.len() && (b[j] matches Visit::Expr(x) && *x == c);
    assert((a + b)[a.len() + j] == b[j]);
}

proof fn lemma_visits_before<'a>(a: Seq<Visit<'a>>, b: Seq<Visit<'a>>, c: Expr)
    requires
        visits_expr(a, c),
    ensures
        visits_expr(a + b, c),
{
    let j = choose|j: int| #![trigger a[j]] 0 <= j < a.len() && (a[j] matches Visit::Expr(x) && *x == c);
    assert((a + b)[j] == a[j]);
}

proof fn lemma_exprs_visit(items: Seq<Expr>, k: int, i: int)
    requires
        0 <= i < k <= items.len(),
    ensures
        visits_expr(exprs_visits(items, k), items[i]),
    decreases k,
{
    lemma_visits_self(&items[k - 1]);
    if i < k - 1 {
        lemma_exprs_visit(items, k - 1, i);
        lemma_visits_before(exprs_visits(items, k - 1), expr_visits(&items[k - 1]), items[i]);
    } else {
        lemma_visits_after(exprs_visits(items, k - 1), expr_visits(&items[k - 1]), items[i]);
    }
}

proof fn lemma_arms_visit(items: Seq<MatchArm>, k: int, i: int)
    requires
        0 <= i < k <= items.len(),
    ensures
        visits_expr(arms_visits(items, k), items[i].body),
    decreases k,
{
    let last = arms_visits(items, k - 1) + pattern_visits(&items[k - 1].pattern);
    lemma_visits_self(&items[k - 1].body);
    if i < k - 1 {
        lemma_arms_visit(items, k - 1, i);
        lemma_visits_before(arms_visits(items, k - 1), pattern_visits(&items[k - 1].pattern), items[i].body);
        lemma_visits_before(last, expr_visits(&items[k - 1].body), items[i].body);
    } else {
        lemma_visits_after(last, expr_visits(&items[k - 1].body), items[i].body);
    }
}

spec fn element_expr(a: ArrayElement) -> Expr {
    match a {
        ArrayElement::Item(item) => item,
        ArrayElement::Spread { expr, .. } => expr,
    }
}

proof fn lemma_array_visit(items: Seq<ArrayElement>, k: int, i: int)
    requires
        0 <= i < k <= items.len(),
    ensures
        visits_expr(array_elements_visits(items, k), element_expr(items[i])),
    decreases k,
{
    let e = element_expr(items[k - 1]);
    match items[k - 1] {
        ArrayElement::Item(item) => lemma_visits_self(&item),
        ArrayElement::Spread { expr, .. } => lemma_visits_self(&expr),
    }
    let tail = match items[k - 1] {
        ArrayElement::Item(item) => expr_visits(&item),
        ArrayElement::Spread { expr, .. } => expr_visits(&expr),
    };
    assert(array_elements_visits(items, k) == array_elements_visits(items, k - 1) + tail);
    if i < k - 1 {
        lemma_array_visit(items, k - 1, i);
        lemma_visits_before(array_elements_visits(items, k - 1), tail, element_expr(items[i]));
    } else {
        lemma_visits_after(array_elements_visits(items, k - 1), tail, element_expr(items[i]));
    }
}

proof fn lemma_record_visit(items: Seq<RecordField>, k: int, i: int)
    requires
        0 <= i < k <= items.len(),
    ensures
        visits_expr(record_fields_visits(items, k), items[i].value),
    decreases k,
{
    lemma_visits_self(&items[k - 1].value);
    if i < k - 1 {
        lemma_record_visit(items, k - 1, i);
        lemma_visits_before(record_fields_visits(items, k - 1), expr_visits(&items[k - 1].value), items[i].value);
    } else {
        lemma_visits_after(record_fields_visits(items, k - 1), expr_visits(&items[k - 1].value), items[i].value);
    }
}

/// A walk meets an expression first, and meets every expression it holds
/// directly: every operand, branch, body, element and field value.
pub proof fn lemma_walk_meets_children<'a>(e: &'a Expr)
    ensures
        expr_visits(e)[0] == Visit::Expr(e),
        forall|i: int| 0 <= i < child_exprs(*e).len() ==> visits_expr(expr_visits(e), #[trigger] child_exprs(*e)[i]),
{
    let v = expr_visits(e);
    let head: Seq<Visit<'a>> = seq![Visit::Expr(e)];
    assert forall|i: int| 0 <= i < child_exprs(*e).len() implies visits_expr(v, #[trigger] child_exprs(*e)[i]) by {
        let c = child_exprs(*e)[i];
        match e {
            Expr::Let { pattern, value, body, .. } => {
                let a = head + pattern_visits(pattern);
                assert(v =~= a + expr_visits(&**value) + expr_visits(&**body));
                lemma_visits_self(&**value);
                lemma_visits_self(&**body);
                if i == 0 {
                    lemma_visits_after(a, expr_visits(&**value), c);
                    lemma_visits_before(a + expr_visits(&**value), expr_visits(&**body), c);
                } else {
                    lemma_visits_after(a + expr_visits(&**value), expr_visits(&**body), c);
                }
                assert(visits_expr(v, c));
            },
            Expr::Use { body, .. } => {
                lemma_visits_self(&**body);
                lemma_visits_after(head, expr_visits(&**body), c);
                assert(visits_expr(v, c));
            },
            Expr::Function { params, body, .. } => {
                let a = head + params_visits(params@, params@.len() as int);
                match body {
                    FunctionBody::Expr(inner) => {
                        assert(v =~= a + expr_visits(&**inner));
                        lemma_visits_self(&**inner);
                        lemma_visits_after(a, expr_visits(&**inner), c);
                    },
                    FunctionBody::MatchArms(arms) => {
                        assert(v =~= a + arms_visits(arms@, arms@.len() as int));
                        assert(c == arms@[i].body);
                        lemma_arms_visit(arms@, arms@.len() as int, i);
                        lemma_visits_after(a, arms_visits(arms@, arms@.len() as int), c);
                    },
                }
                assert(visits_expr(v, c));
            },
            Expr::If { condition, then_branch, else_branch, .. } => {
                lemma_visits_self(&**condition);
                lemma_visits_self(&**then_branch);
                lemma_visits_self(&**else_branch);
                let a = head + expr_visits(&**condition);
                let b = a + expr_visits(&**then_branch);
                assert(v =~= b + expr_visits(&**else_branch));
                if i == 0 {
                    lemma_visits_after(head, expr_visits(&**condition), c);
                    lemma_visits_before(a, expr_visits(&**then_branch), c);
                    lemma_visits_before(b, expr_visits(&**else_branch), c);
                } else if i == 1 {
                    lemma_visits_after(a, expr_visits(&**then_branch), c);
                    lemma_visits_before(b, expr_visits(&**else_branch), c);
                } else {
                    lemma_visits_after(b, expr_visits(&**else_branch), c);
                }
                assert(visits_expr(v, c));
            },
            Expr::Match { scrutinee, arms, .. } => {
                lemma_visits_self(&**scrutinee);
                let a = head + expr_visits(&**scrutinee);
                assert(v =~= a + arms_visits(arms@, arms@.len() as int));
                if i == 0 {
                    lemma_visits_after(head, expr_visits(&**scrutinee), c);
                    lemma_visits_before(a, arms_visits(arms@, arms@.len() as int), c);
                } else {
                    assert(c == arms@[i - 1].body);
                    lemma_arms_visit(arms@, arms@.len() as int, i - 1);
                    lemma_visits_after(a, arms_visits(arms@, arms@.len() as int), c);
                }
                assert(visits_expr(v, c));
            },
            Expr::Binary { lhs, rhs, .. } => {
                lemma_visits_self(&**lhs);
                lemma_visits_self(&**rhs);
                let a = head + expr_visits(&**lhs);
                assert(v =~= a + expr_visits(&**rhs));
                if i == 0 {
                    lemma_visits_after(head, expr_visits(&**lhs), c);
                    lemma_visits_before(a, expr_visits(&**rhs), c);
                } else {
                    lemma_visits_after(a, expr_visits(&**rhs), c);
                }
                assert(visits_expr(v, c));
            },
            Expr::Apply { callee, argument, .. } => {
                lemma_visits_self(&**callee);
                lemma_visits_self(&**argument);
                let a = head + expr_visits(&**callee);
                assert(v =~= a + expr_visits(&**argument));
                if i == 0 {
                    lemma_visits_after(head, expr_visits(&**callee), c);
                    lemma_visits_before(a, expr_visits(&**argument), c);
                } else {
                    lemma_visits_after(a, expr_visits(&**argument), c);
                }
                assert(visits_expr(v, c));
            },
            Expr::Unary { expr: inner, .. } => {
                lemma_visits_self(&**inner);
                lemma_visits_after(head, expr_visits(&**inner), c);
                assert(visits_expr(v, c));
            },
            Expr::Grouped { inner, .. } => {
                lemma_visits_self(&**inner);
                lemma_visits_after(head, expr_visits(&**inner), c);
                assert(visits_expr(v, c));
            },
            Expr::FieldAccess { expr: inner, .. } => {
                lemma_visits_self(&**inner);
                lemma_visits_after(head, expr_visits(&**inner), c);
                assert(visits_expr(v, c));
            },
            Expr::Tuple { elements, .. } => {
                lemma_exprs_visit(elements@, elements@.len() as int, i);
                lemma_visits_after(head, exprs_visits(elements@, elements@.len() as int), c);
                assert(visits_expr(v, c));
            },
            Expr::Array { elements, .. } => {
                lemma_array_visit(elements@, elements@.len() as int, i);
                assert(c == element_expr(elements@[i]));
                lemma_visits_after(head, array_elements_visits(elements@, elements@.len() as int), c);
                assert(visits_expr(v, c));
            },
            Expr::Record { fields, .. } => {
                lemma_record_visit(fields@, fields@.len() as int, i);
                lemma_visits_after(head, record_fields_visits(fields@, fields@.len() as int), c);
                assert(visits_expr(v, c));
            },
            _ => {},
        }
    }
}


/// Whether a traversal met the statement `c`.
pub open spec fn visits_statement<'a>(visits: Seq<Visit<'a>>, c: Statement) -> bool {
    exists|j: int| #![trigger visits[j]] 0 <= j < visits.len() && (visits[j] matches Visit::Statement(x) && *x == c)
}

proof fn lemma_statement_self<'a>(c: &'a Statement)
    ensures
        visits_statement(statement_visits(c), *c),
{
    assert(statement_visits(c)[0] == Visit::Statement(c));
}

proof fn lemma_statement_after<'a>(a: Seq<Visit<'a>>, b: Seq<Visit<'a>>, c: Statement)
    requires
        visits_statement(b, c),
    ensures
        visits_statement(a + b, c),
{
    let j = choose|j: int| #![trigger b[j]] 0 <= j < b.len() && (b[j] matches Visit::Statement(x) && *x == c);
    assert((a + b)[a.len() + j] == b[j]);
}

proof fn lemma_statement_before<'a>(a: Seq<Visit<'a>>, b: Seq<Visit<'a>>, c: Statement)
    requires
        visits_statement(a, c),
    ensures
        visits_statement(a + b, c),
{
    let j = choose|j: int| #![trigger a[j]] 0 <= j < a.len() && (a[j] matches Visit::Statement(x) && *x == c);
    assert((a + b)[j] == a[j]);
}

proof fn lemma_statements_visit(items: Seq<Statement>, k: int, i: int)
    requires
        0 <= i < k <= items.len(),
    ensures
        visits_statement(statements_visits(items, k), items[i]),
    decreases k,
{
    lemma_statement_self(&items[k - 1]);
    if i < k - 1 {
        lemma_statements_visit(items, k - 1, i);
        lemma_statement_before(statements_visits(items, k - 1), statement_visits(&items[k - 1]), items[i]);
    } else {
        lemma_statement_after(statements_visits(items, k - 1), statement_visits(&items[k - 1]), items[i]);
    }
}

/// A walk of a file meets every one of its statements.
pub proof fn lemma_file_meets_statements<'a>(file: &'a AstFile)
    ensures
        forall|i: int| 0 <= i < file.statements@.len() ==> visits_statement(file_visits(file), #[trigger] file.statements@[i]),
{
    assert forall|i: int| 0 <= i < file.statements@.len() implies visits_statement(file_visits(file), #[trigger] file.statements@[i]) by {
        lemma_statements_visit(file.statements@, file.statements@.len() as int, i);
    }
}

/// A walk meets a statement first, then the expression a `do` or a `let`
/// statement holds, and every statement of a module's body.
pub proof fn lemma_statement_meets_parts<'a>(st: &'a Statement)
    ensures
        statement_visits(st)[0] == Visit::Statement(st),
        st matches Statement::Do { expr, .. } ==> visits_expr(statement_visits(st), *expr),
        st matches Statement::Let { kind: LetStatementKind::PatternBinding { value, .. }, .. } ==> visits_expr(
            statement_visits(st),
            *value,
        ),
        st matches Statement::Module { body, .. } ==> forall|i: int|
            0 <= i < body@.len() ==> visits_statement(statement_visits(st), #[trigger] body@[i]),
{
    let v = statement_visits(st);
    let head: Seq<Visit<'a>> = seq![Visit::Statement(st)];
    match st {
        Statement::Do { expr, .. } => {
            assert(v =~= head + expr_visits(expr));
            lemma_visits_self(expr);
            lemma_visits_after(head, expr_visits(expr), *expr);
        },
        Statement::Let { kind, .. } => {
            match kind {
                LetStatementKind::PatternBinding { pattern, value } => {
                    let a = head + pattern_visits(pattern);
                    assert(v =~= a + expr_visits(value));
                    lemma_visits_self(value);
                    lemma_visits_after(a, expr_visits(value), *value);
                },
                _ => {},
            }
        },
        Statement::Module { name, body, .. } => {
            assert forall|i: int| 0 <= i < body@.len() implies visits_statement(v, #[trigger] body@[i]) by {
                lemma_statements_visit(body@, body@.len() as int, i);
                let inner = statements_visits(body@, body@.len() as int);
                match name {
                    Some(id) => {
                        let a = head + seq![Visit::EnterModule(id)];
                        assert(v =~= a + inner + seq![Visit::LeaveModule]);
                        lemma_statement_after(a, inner, body@[i]);
                        lemma_statement_before(a + inner, seq![Visit::LeaveModule], body@[i]);
                    },
                    None => {
                        assert(v =~= head + inner);
                        lemma_statement_after(head, inner, body@[i]);
                    },
                }
            }
        },
        _ => {},
    }
}

/// Whether a traversal met the type expression `c`.
pub open spec fn visits_type<'a>(visits: Seq<Visit<'a>>, c: TypeExpr) -> bool {
    exists|j: int| #![trigger visits[j]] 0 <= j < visits.len() && (visits[j] matches Visit::TypeExpr(x) && *x == c)
}

proof fn lemma_type_self<'a>(c: &'a TypeExpr)
    ensures
        visits_type(type_expr_visits(c), *c),
{
    assert(type_expr_visits(c)[0] == Visit::TypeExpr(c));
}

proof fn lemma_type_after<'a>(a: Seq<Visit<'a>>, b: Seq<Visit<'a>>, c: TypeExpr)
    requires
        visits_type(b, c),
    ensures
        visits_type(a + b, c),
{
    let j = choose|j: int| #![trigger b[j]] 0 <= j < b.len() && (b[j] matches Visit::TypeExpr(x) && *x == c);
    assert((a + b)[a.len() + j] == b[j]);
}

proof fn lemma_type_before<'a>(a: Seq<Visit<'a>>, b: Seq<Visit<'a>>, c: TypeExpr)
    requires
        visits_type(a, c),
    ensures
        visits_type(a + b, c),
{
    let j = choose|j: int| #![trigger a[j]] 0 <= j < a.len() && (a[j] matches Visit::TypeExpr(x) && *x == c);
    assert((a + b)[j] == a[j]);
}

proof fn lemma_types_visit(items: Seq<TypeExpr>, k: int, i: int)
    requires
        0 <= i < k <= items.len(),
    ensures
        visits_type(type_exprs_visits(items, k), items[i]),
    decreases k,
{
    lemma_type_self(&items[k - 1]);
    if i < k - 1 {
        lemma_types_visit(items, k - 1, i);
        lemma_type_before(type_exprs_visits(items, k - 1), type_expr_visits(&items[k - 1]), items[i]);
    } else {
        lemma_type_after(type_exprs_visits(items, k - 1), type_expr_visits(&items[k - 1]), items[i]);
    }
}

/// The type expressions a type expression holds directly.
pub open spec fn child_types(t: TypeExpr) -> Seq<TypeExpr> {
    match t {
        TypeExpr::Forall { body, .. } => seq![*body],
        TypeExpr::Function { param, result, .. } => seq![*param, *result],
        TypeExpr::Apply { callee, argument, .. } => seq![*callee, *argument],
        TypeExpr::Grouped { inner, .. } => seq![*inner],
        TypeExpr::Tuple { elements, .. } => elements@,
        _ => Seq::empty(),
    }
}

/// A walk meets a type expression first, and every type expression it
/// holds directly.
pub proof fn lemma_walk_meets_child_types<'a>(t: &'a TypeExpr)
    ensures
        type_expr_visits(t)[0] == Visit::TypeExpr(t),
        forall|i: int| 0 <= i < child_types(*t).len() ==> visits_type(type_expr_visits(t), #[trigger] child_types(*t)[i]),
{
    let v = type_expr_visits(t);
    let head: Seq<Visit<'a>> = seq![Visit::TypeExpr(t)];
    assert forall|i: int| 0 <= i < child_types(*t).len() implies visits_type(v, #[trigger] child_types(*t)[i]) by {
        let c = child_types(*t)[i];
        match t {
            TypeExpr::Forall { body, constraints, .. } => {
                let rest = constraints_visits(constraints@, constraints@.len() as int);
                assert(v =~= head + type_expr_visits(&**body) + rest);
                lemma_type_self(&**body);
                lemma_type_after(head, type_expr_visits(&**body), c);
                lemma_type_before(head + type_expr_visits(&**body), rest, c);
            },
            TypeExpr::Function { param, result, .. } => {
                lemma_type_self(&**param);
                lemma_type_self(&**result);
                let a = head + type_expr_visits(&**param);
                assert(v =~= a + type_expr_visits(&**result));
                if i == 0 {
                    lemma_type_after(head, type_expr_visits(&**param), c);
                    lemma_type_before(a, type_expr_visits(&**result), c);
                } else {
                    lemma_type_after(a, type_expr_visits(&**result), c);
                }
            },
            TypeExpr::Apply { callee, argument, .. } => {
                lemma_type_self(&**callee);
                lemma_type_self(&**argument);
                let a = head + type_expr_visits(&**callee);
                assert(v =~= a + type_expr_visits(&**argument));
                if i == 0 {
                    lemma_type_after(head, type_expr_visits(&**callee), c);
                    lemma_type_before(a, type_expr_visits(&**argument), c);
                } else {
                    lemma_type_after(a, type_expr_visits(&**argument), c);
                }
            },
            TypeExpr::Grouped { inner, .. } => {
                lemma_type_self(&**inner);
                assert(v =~= head + type_expr_visits(&**inner));
                lemma_type_after(head, type_expr_visits(&**inner), c);
            },
            TypeExpr::Tuple { elements, .. } => {
                lemma_types_visit(elements@, elements@.len() as int, i);
                assert(v =~= head + type_exprs_visits(elements@, elements@.len() as int));
                lemma_type_after(head, type_exprs_visits(elements@, elements@.len() as int), c);
            },
            _ => {},
        }
    }
}

/// Whether a traversal met the pattern `c`.
pub open spec fn visits_pattern<'a>(visits: Seq<Visit<'a>>, c: Pattern) -> bool {
    exists|j: int| #![trigger visits[j]] 0 <= j < visits.len() && (visits[j] matches Visit::Pattern(x) && *x == c)
}

proof fn lemma_pattern_self<'a>(c: &'a Pattern)
    ensures
        visits_pattern(pattern_visits(c), *c),
{
    assert(pattern_visits(c)[0] == Visit::Pattern(c));
}

proof fn lemma_pattern_after<'a>(a: Seq<Visit<'a>>, b: Seq<Visit<'a>>, c: Pattern)
    requires
        visits_pattern(b, c),
    ensures
        visits_pattern(a + b, c),
{
    let j = choose|j: int| #![trigger b[j]] 0 <= j < b.len() && (b[j] matches Visit::Pattern(x) && *x == c);
    assert((a + b)[a.len() + j] == b[j]);
}

proof fn lemma_pattern_before<'a>(a: Seq<Visit<'a>>, b: Seq<Visit<'a>>, c: Pattern)
    requires
        visits_pattern(a, c),
    ensures
        visits_pattern(a + b, c),
{
    let j = choose|j: int| #![trigger a[j]] 0 <= j < a.len() && (a[j] matches Visit::Pattern(x) && *x == c);
    assert((a + b)[j] == a[j]);
}

proof fn lemma_patterns_visit(items: Seq<Pattern>, k: int, i: int)
    requires
        0 <= i < k <= items.len(),
    ensures
        visits_pattern(patterns_visits(items, k), items[i]),
    decreases k,
{
    lemma_pattern_self(&items[k - 1]);
    if i < k - 1 {
        lemma_patterns_visit(items, k - 1, i);
        lemma_pattern_before(patterns_visits(items, k - 1), pattern_visits(&items[k - 1]), items[i]);
    } else {
        lemma_pattern_after(patterns_visits(items, k - 1), pattern_visits(&items[k - 1]), items[i]);
    }
}

/// The patterns a pattern holds directly.
pub open spec fn child_patterns(p: Pattern) -> Seq<Pattern> {
    match p {
        Pattern::Constructor { argument, .. } => seq![*argument],
        Pattern::Annotated { pattern, .. } => seq![*pattern],
        Pattern::Grouped { inner, .. } => seq![*inner],
        Pattern::Tuple { elements, .. } => elements@,
        _ => Seq::empty(),
    }
}

/// A walk meets a pattern first, every pattern it holds directly, and the
/// type an annotated pattern carries.
pub proof fn lemma_walk_meets_child_patterns<'a>(p: &'a Pattern)
    ensures
        pattern_visits(p)[0] == Visit::Pattern(p),
        forall|i: int| 0 <= i < child_patterns(*p).len() ==> visits_pattern(pattern_visits(p), #[trigger] child_patterns(*p)[i]),
        p matches Pattern::Annotated { ty, .. } ==> visits_type(pattern_visits(p), *ty),
{
    let v = pattern_visits(p);
    let head: Seq<Visit<'a>> = seq![Visit::Pattern(p)];
    assert forall|i: int| 0 <= i < child_patterns(*p).len() implies visits_pattern(v, #[trigger] child_patterns(*p)[i]) by {
        let c = child_patterns(*p)[i];
        match p {
            Pattern::Constructor { argument, .. } => {
                lemma_pattern_self(&**argument);
                assert(v =~= head + pattern_visits(&**argument));
                lemma_pattern_after(head, pattern_visits(&**argument), c);
            },
            Pattern::Annotated { pattern: inner, ty, .. } => {
                lemma_pattern_self(&**inner);
                assert(v =~= head + pattern_visits(&**inner) + type_expr_visits(ty));
                lemma_pattern_after(head, pattern_visits(&**inner), c);
                lemma_pattern_before(head + pattern_visits(&**inner), type_expr_visits(ty), c);
            },
            Pattern::Grouped { inner, .. } => {
                lemma_pattern_self(&**inner);
                assert(v =~= head + pattern_visits(&**inner));
                lemma_pattern_after(head, pattern_visits(&**inner), c);
            },
            Pattern::Tuple { elements, .. } => {
                lemma_patterns_visit(elements@, elements@.len() as int, i);
                assert(v =~= head + patterns_visits(elements@, elements@.len() as int));
                lemma_pattern_after(head, patterns_visits(elements@, elements@.len() as int), c);
            },
            _ => {},
        }
    }
    match p {
        Pattern::Annotated { pattern: inner, ty, .. } => {
            let a = head + pattern_visits(&**inner);
            assert(v =~= a + type_expr_visits(ty));
            lemma_type_self(ty);
            lemma_type_after(a, type_expr_visits(ty), *ty);
        },
        _ => {},
    }
}

} // verus!
