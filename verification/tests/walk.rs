use ruddy::parser::ast::{
    AstFile, BinaryOperator, ErrorNode, Expr, Identifier, IdentifierKind, LetStatementKind, Pattern, SExpr, SExprAtomKind, Statement,
    TypeExpr,
};
use ruddy::parser::walk::{walk_expr, Visit};
use ruddy::reporting::TextRange;

fn tag(visit: &Visit) -> &'static str {
    match visit {
        Visit::Statement(_) => "statement",
        Visit::Expr(_) => "expr",
        Visit::Pattern(_) => "pattern",
        Visit::TypeExpr(_) => "type",
        Visit::TypeDef(_) => "typedef",
        Visit::SExpr(_) => "sexpr",
        Visit::EnterModule(_) => "enter",
        Visit::LeaveModule => "leave",
    }
}

fn unit() -> Expr {
    Expr::Unit { range: TextRange::generated() }
}

#[test]
fn walk_meets_each_node_before_its_parts() {
    let r = TextRange::generated();
    let expr = Expr::Binary { op: BinaryOperator::Sequence, lhs: Box::new(unit()), rhs: Box::new(Expr::Error(ErrorNode::new(r))), range: r };
    let mut visits = Vec::new();
    walk_expr(&expr, &mut visits);
    let tags: Vec<_> = visits.iter().map(tag).collect();
    assert_eq!(tags, vec!["expr", "expr", "expr"]);
    assert!(matches!(visits[0], Visit::Expr(Expr::Binary { .. })));
    assert!(matches!(visits[1], Visit::Expr(Expr::Unit { .. })));
    assert!(matches!(visits[2], Visit::Expr(Expr::Error(_))));
}

#[test]
fn walk_enters_and_leaves_named_modules() {
    let r = TextRange::generated();
    let module = Statement::Module {
        name: Some(Identifier { kind: IdentifierKind::Bare, range: r }),
        body: vec![Statement::Bundle { name: None, range: r }, Statement::Do { expr: unit(), range: r }],
        range: r,
    };
    let anonymous = Statement::Module { name: None, body: vec![Statement::Bundle { name: None, range: r }], range: r };
    let file = AstFile { bundle_name: None, range: r, statements: vec![module, anonymous] };
    let mut visits = Vec::new();
    file.walk(&mut visits);
    let tags: Vec<_> = visits.iter().map(tag).collect();
    assert_eq!(tags, vec!["statement", "enter", "statement", "statement", "expr", "leave", "statement", "statement"]);
}

#[test]
fn walk_reads_patterns_types_and_wasm() {
    let r = TextRange::generated();
    let binding = Statement::Let {
        kind: LetStatementKind::PatternBinding {
            pattern: Pattern::Annotated { pattern: Box::new(Pattern::Error(ErrorNode::new(r))), ty: TypeExpr::Unit { range: r }, range: r },
            value: Expr::Tuple { elements: vec![unit(), unit()], range: r },
        },
        range: r,
    };
    let wasm = Statement::Wasm {
        declarations: vec![SExpr::List { items: vec![SExpr::Atom { kind: SExprAtomKind::Ident, range: r }], range: r }],
        range: r,
    };
    let file = AstFile { bundle_name: None, range: r, statements: vec![binding, wasm] };
    let mut visits = Vec::new();
    file.walk(&mut visits);
    let tags: Vec<_> = visits.iter().map(tag).collect();
    assert_eq!(tags, vec!["statement", "pattern", "pattern", "type", "expr", "expr", "expr", "statement", "sexpr", "sexpr"]);
}

#[test]
fn walk_counts_statements_and_expressions() {
    let r = TextRange::generated();
    let value = Expr::Binary { op: BinaryOperator::Sequence, lhs: Box::new(unit()), rhs: Box::new(unit()), range: r };
    let file = AstFile {
        bundle_name: None,
        range: r,
        statements: vec![
            Statement::Bundle { name: None, range: r },
            Statement::Do { expr: value, range: r },
            Statement::Do { expr: unit(), range: r },
        ],
    };
    let mut visits = Vec::new();
    file.walk(&mut visits);
    let statements = visits.iter().filter(|v| matches!(v, Visit::Statement(_))).count();
    let exprs = visits.iter().filter(|v| matches!(v, Visit::Expr(_))).count();
    assert_eq!(statements, 3);
    assert_eq!(exprs, 4);
}
