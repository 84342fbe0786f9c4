use resid::capture::collect_ids_expr;
use resid::types::{AstBlock, AstExpr, AstIntKind, AstStmt, AstStmtKind, BinOp, Span};

fn id(n: &str) -> AstExpr {
    AstExpr::Id(n.to_string())
}

fn lit(v: u128) -> AstExpr {
    AstExpr::Literal { value: v, kind: AstIntKind::Decimal, span: Span::unknown() }
}

#[test]
fn collects_identifiers_in_preorder() {
    let call = AstExpr::Call {
        func: Box::new(id("f")),
        args: vec![
            (None, id("x")),
            (
                Some("k".to_string()),
                AstExpr::BinaryOp { op: BinOp::Add, lhs: Box::new(id("y")), rhs: Box::new(lit(1)), span: Span::unknown() },
            ),
        ],
        span: Span::unknown(),
    };
    let mut out = vec!["before".to_string()];
    collect_ids_expr(&call, &mut out);
    assert_eq!(out, vec!["before", "f", "x", "y"]);
}

#[test]
fn collects_identifiers_of_nested_blocks() {
    let body = AstBlock {
        statements: vec![AstStmt {
            kind: AstStmtKind::Bind { type_: None, name: "t".to_string(), value: Box::new(id("a")) },
            span: Span::unknown(),
        }],
        ret: Some(Box::new(id("t"))),
    };
    let e = AstExpr::If {
        cond: Box::new(id("c")),
        then_block: Box::new(body),
        else_block: None,
        span: Span::unknown(),
    };
    let mut out = Vec::new();
    collect_ids_expr(&e, &mut out);
    assert_eq!(out, vec!["c", "a", "t"]);
    let mut none = Vec::new();
    collect_ids_expr(&lit(3), &mut none);
    assert!(none.is_empty());
}
