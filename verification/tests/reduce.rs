use resid::graph::{GraphKey, KnowledgeGraph, KnowledgeState, NodeKind};
use resid::reduce::{bitnot_int, ReductionContext, ReductionError, ReductionResult};
use resid::retro::{graph_reduce, retrofit};
use resid::types::{
    AstBlock, AstExpr, AstFuncDef, AstIntKind, AstParam, AstStmt, AstStmtKind, AstTranslationUnit,
    BinOp, Identifier, IntWidth, LiteralValue, NumericType, Provenance, Span, Type, UnaryOp,
};
use resid::convert::{numeric_type_from_str, type_from_str, AstConverter};
use std::collections::{HashMap, HashSet};

fn make_span() -> Span {
    Span { file: "test".into(), line: 1, col_start: 0, col_end: 2 }
}

fn make_int_lit(g: &mut KnowledgeGraph, value: u128, width: IntWidth, signed: bool) -> GraphKey {
    g.add_node(
        NodeKind::Literal(LiteralValue::Int { value, width, signed }),
        Type::Numeric(NumericType::Int(width)),
        KnowledgeState::Known,
        vec![],
        HashSet::new(),
        HashSet::new(),
        Provenance::Inferred,
        make_span(),
    )
}

fn make_bool_lit(g: &mut KnowledgeGraph, value: bool) -> GraphKey {
    g.add_node(
        NodeKind::Literal(LiteralValue::Bool(value)),
        Type::Bool,
        KnowledgeState::Known,
        vec![],
        HashSet::new(),
        HashSet::new(),
        Provenance::Inferred,
        make_span(),
    )
}

fn pending(g: &mut KnowledgeGraph, kind: NodeKind, ty: Type, deps: Vec<GraphKey>) -> GraphKey {
    g.add_node(
        kind,
        ty,
        KnowledgeState::Invalid,
        deps,
        HashSet::new(),
        HashSet::new(),
        Provenance::Inferred,
        make_span(),
    )
}

fn reduced(g: KnowledgeGraph, key: GraphKey) -> KnowledgeGraph {
    let mut rc = ReductionContext::new(g);
    rc.reduce_all(key).unwrap();
    rc.into_graph()
}

#[test]
fn test_reduce_binop_add() {
    let mut g = KnowledgeGraph::new();
    let a = make_int_lit(&mut g, 2, IntWidth::B8, true);
    let b = make_int_lit(&mut g, 3, IntWidth::B8, true);
    let add = pending(
        &mut g,
        NodeKind::BinaryOp { op: BinOp::Add, lhs: a, rhs: b },
        Type::Numeric(NumericType::Int(IntWidth::B8)),
        vec![a, b],
    );
    let g = reduced(g, add);
    let node = g.get_node(add);
    match &node.kind {
        NodeKind::Literal(LiteralValue::Int { value, .. }) => assert_eq!(*value, 5),
        _ => panic!("expected literal 5, got {:?}", node.kind),
    }
}

#[test]
fn test_reduce_binop_mul() {
    let mut g = KnowledgeGraph::new();
    let a = make_int_lit(&mut g, 4, IntWidth::B16, true);
    let b = make_int_lit(&mut g, 5, IntWidth::B16, true);
    let mul = pending(
        &mut g,
        NodeKind::BinaryOp { op: BinOp::Mul, lhs: a, rhs: b },
        Type::Numeric(NumericType::Int(IntWidth::B16)),
        vec![a, b],
    );
    let g = reduced(g, mul);
    let node = g.get_node(mul);
    match &node.kind {
        NodeKind::Literal(LiteralValue::Int { value, .. }) => assert_eq!(*value, 20),
        _ => panic!("expected literal 20"),
    }
}

#[test]
fn test_reduce_binop_bool_and() {
    let mut g = KnowledgeGraph::new();
    let a = make_bool_lit(&mut g, true);
    let b = make_bool_lit(&mut g, false);
    let and = pending(&mut g, NodeKind::BinaryOp { op: BinOp::And, lhs: a, rhs: b }, Type::Bool, vec![a, b]);
    let g = reduced(g, and);
    let node = g.get_node(and);
    match &node.kind {
        NodeKind::Literal(LiteralValue::Bool(v)) => assert!(!v),
        _ => panic!("expected literal false"),
    }
}

#[test]
fn test_reduce_binop_bool_or() {
    let mut g = KnowledgeGraph::new();
    let a = make_bool_lit(&mut g, true);
    let b = make_bool_lit(&mut g, false);
    let or = pending(&mut g, NodeKind::BinaryOp { op: BinOp::Or, lhs: a, rhs: b }, Type::Bool, vec![a, b]);
    let g = reduced(g, or);
    let node = g.get_node(or);
    match &node.kind {
        NodeKind::Literal(LiteralValue::Bool(v)) => assert!(v),
        _ => panic!("expected literal true"),
    }
}

#[test]
fn test_reduce_unary_neg() {
    let mut g = KnowledgeGraph::new();
    let a = make_int_lit(&mut g, 42, IntWidth::B16, true);
    let neg = pending(
        &mut g,
        NodeKind::UnaryOp { op: UnaryOp::Neg, operand: a },
        Type::Numeric(NumericType::Int(IntWidth::B16)),
        vec![a],
    );
    let g = reduced(g, neg);
    let node = g.get_node(neg);
    match &node.kind {
        NodeKind::Literal(LiteralValue::Int { value, signed, .. }) => {
            assert!(*signed);
            // the negation is taken on i128, so -42 is stored as 2^128 - 42
            assert_eq!(*value, 340282366920938463463374607431768211414u128);
        }
        _ => panic!("expected literal"),
    }
}

#[test]
fn test_reduce_unary_not() {
    let mut g = KnowledgeGraph::new();
    let a = make_bool_lit(&mut g, true);
    let not = pending(&mut g, NodeKind::UnaryOp { op: UnaryOp::Not, operand: a }, Type::Bool, vec![a]);
    let g = reduced(g, not);
    let node = g.get_node(not);
    match &node.kind {
        NodeKind::Literal(LiteralValue::Bool(v)) => assert!(!v),
        _ => panic!("expected literal false"),
    }
}

#[test]
fn test_reduce_irreducible() {
    let mut g = KnowledgeGraph::new();
    let a = make_int_lit(&mut g, 1, IntWidth::B8, true);
    let b = make_int_lit(&mut g, 2, IntWidth::B8, true);
    let add = pending(
        &mut g,
        NodeKind::BinaryOp { op: BinOp::Add, lhs: a, rhs: b },
        Type::Numeric(NumericType::Int(IntWidth::B8)),
        vec![a, b],
    );
    let mut rc = ReductionContext::new(g);
    let result = rc.reduce_node(add).unwrap();
    assert!(matches!(result, ReductionResult::Reduced(_)));
}

#[test]
fn test_reduce_cast_int() {
    let mut g = KnowledgeGraph::new();
    let a = make_int_lit(&mut g, 300, IntWidth::B16, true);
    let cast = pending(
        &mut g,
        NodeKind::Cast { type_: Type::Numeric(NumericType::Int(IntWidth::B8)), operand: a },
        Type::Numeric(NumericType::Int(IntWidth::B8)),
        vec![a],
    );
    let g = reduced(g, cast);
    let node = g.get_node(cast);
    match &node.kind {
        NodeKind::Literal(LiteralValue::Int { value, .. }) => assert_eq!(*value, 44),
        _ => panic!("expected literal, got {:?}", node.kind),
    }
}

#[test]
fn test_reduce_binding() {
    let mut g = KnowledgeGraph::new();
    let lit = make_int_lit(&mut g, 100, IntWidth::B16, true);
    let name = Identifier::new("x", 1);
    let binding = pending(
        &mut g,
        NodeKind::Binding { name, def: lit },
        Type::Numeric(NumericType::Int(IntWidth::B16)),
        vec![lit],
    );
    let g = reduced(g, binding);
    let node = g.get_node(binding);
    // a binding is reduced to its definition
    assert!(matches!(node.kind, NodeKind::Literal(_)));
}

// ─── End to end: convert, reduce, retrofit ──────────────────────────

fn span() -> Span {
    Span { file: "test".into(), line: 1, col_start: 0, col_end: 1 }
}

fn func(name: &str, body: AstBlock, ret: Option<String>) -> AstFuncDef {
    AstFuncDef {
        public: false,
        name: name.to_string(),
        params: vec![],
        ret,
        body,
        doc_comments: vec![],
        capabilities: vec![],
        span: span(),
    }
}

fn bind_stmt(name: &str, value: AstExpr) -> AstStmt {
    AstStmt {
        kind: AstStmtKind::Bind { type_: None, name: name.to_string(), value: Box::new(value) },
        span: span(),
    }
}

fn ilit(v: u128) -> AstExpr {
    AstExpr::Literal { value: v, kind: AstIntKind::Decimal, span: span() }
}

fn bin(op: BinOp, l: AstExpr, r: AstExpr) -> AstExpr {
    AstExpr::BinaryOp { op, lhs: Box::new(l), rhs: Box::new(r), span: span() }
}

fn unit_with(fs: Vec<AstFuncDef>) -> AstTranslationUnit {
    AstTranslationUnit { imports: vec![], functions: fs }
}

fn as_int(e: &AstExpr) -> Option<u128> {
    if let AstExpr::Literal { value, .. } = e {
        Some(*value)
    } else {
        None
    }
}

fn as_cast_int(e: &AstExpr) -> Option<u128> {
    if let AstExpr::UnaryOp { op: UnaryOp::Cast(_), operand, .. } = e {
        as_int(operand)
    } else {
        as_int(e)
    }
}

/// `2 + 3` must fold to the literal 5 at compile time.
#[test]
fn folds_binary_literal() {
    let body = AstBlock {
        statements: vec![bind_stmt("x", bin(BinOp::Add, ilit(2), ilit(3)))],
        ret: Some(Box::new(AstExpr::Id("x".into()))),
    };
    let u = graph_reduce(unit_with(vec![func("main", body, None)]), &[]).expect("reduce");
    let main = u.functions.iter().find(|f| f.name == "main").unwrap();
    match main.body.ret.as_deref().map(|e| as_int(e)) {
        Some(Some(5)) => {}
        other => panic!("expected 5, got {:?}", other),
    }
}

/// `120 / 254` on UInt(8) folds to 0 (checked division, no overflow).
#[test]
fn folds_division_to_zero() {
    let lhs = AstExpr::UnaryOp {
        op: UnaryOp::Cast(Box::new(Type::Numeric(NumericType::UInt(IntWidth::B8)))),
        operand: Box::new(ilit(120)),
        span: span(),
    };
    let rhs = AstExpr::UnaryOp {
        op: UnaryOp::Cast(Box::new(Type::Numeric(NumericType::UInt(IntWidth::B8)))),
        operand: Box::new(ilit(254)),
        span: span(),
    };
    let body = AstBlock { statements: vec![], ret: Some(Box::new(bin(BinOp::Div, lhs, rhs))) };
    let u = graph_reduce(unit_with(vec![func("main", body, Some("UInt(8)".into()))]), &[]).expect("reduce");
    let main = u.functions.iter().find(|f| f.name == "main").unwrap();
    match main.body.ret.as_deref().map(|e| as_cast_int(e)) {
        Some(Some(0)) => {}
        other => panic!("expected 0, got {:?}", other),
    }
}

/// A residual use (parameter-dependent) must survive reduction unchanged.
#[test]
fn keeps_residual_param() {
    let param = AstParam { type_: Some("Int".into()), name: "n".into(), default: None };
    let body = AstBlock { statements: vec![], ret: Some(Box::new(AstExpr::Id("n".into()))) };
    let f = AstFuncDef {
        public: false,
        name: "identity".to_string(),
        params: vec![param],
        ret: Some("Int".into()),
        body,
        doc_comments: vec![],
        capabilities: vec![],
        span: span(),
    };
    let u = graph_reduce(unit_with(vec![f]), &[]).expect("reduce");
    let id = u.functions.iter().find(|f| f.name == "identity").unwrap();
    assert_eq!(id.params.len(), 1);
    assert!(matches!(
        id.body.ret.as_deref(),
        Some(AstExpr::Id(name)) if name == "n"
    ));
}

/// Compile-time if with a known constant condition collapses to its branch.
#[test]
fn collapses_constant_if() {
    let then_block = AstBlock { statements: vec![], ret: Some(Box::new(ilit(42))) };
    let else_block = AstBlock { statements: vec![], ret: Some(Box::new(ilit(7))) };
    let e = AstExpr::If {
        cond: Box::new(AstExpr::BoolLit(true, span())),
        then_block: Box::new(then_block),
        else_block: Some(Box::new(else_block)),
        span: span(),
    };
    let body = AstBlock { statements: vec![], ret: Some(Box::new(e)) };
    let u = graph_reduce(unit_with(vec![func("main", body, None)]), &[]).expect("reduce");
    let main = u.functions.iter().find(|f| f.name == "main").unwrap();
    assert_eq!(main.body.ret.as_deref().map(|e| as_int(e)), Some(Some(42)));
}

/// A pure call with constant argument inlines to its body's result.
#[test]
fn inlines_pure_call() {
    let callee = AstFuncDef {
        public: false,
        name: "doubler".to_string(),
        params: vec![AstParam { type_: Some("Int".into()), name: "x".into(), default: None }],
        ret: Some("Int".into()),
        body: AstBlock {
            statements: vec![],
            ret: Some(Box::new(bin(BinOp::Add, AstExpr::Id("x".into()), AstExpr::Id("x".into())))),
        },
        doc_comments: vec![],
        capabilities: vec![],
        span: span(),
    };
    let call = AstExpr::Call {
        func: Box::new(AstExpr::Id("doubler".into())),
        args: vec![(None, ilit(21))],
        span: span(),
    };
    let body = AstBlock { statements: vec![], ret: Some(Box::new(call)) };
    let u = graph_reduce(unit_with(vec![callee, func("main", body, None)]), &[]).expect("reduce");
    let main = u.functions.iter().find(|f| f.name == "main").unwrap();
    assert_eq!(main.body.ret.as_deref().map(|e| as_int(e)), Some(Some(42)));
}

// ─── Copies, references, whole-graph reduction ──────────────────────

#[test]
fn clone_subgraph_overrides_and_shares() {
    let mut g = KnowledgeGraph::new();
    let a = make_int_lit(&mut g, 2, IntWidth::B8, true);
    let b = make_int_lit(&mut g, 3, IntWidth::B8, true);
    let add = pending(
        &mut g,
        NodeKind::BinaryOp { op: BinOp::Add, lhs: a, rhs: b },
        Type::Numeric(NumericType::Int(IntWidth::B8)),
        vec![a, b],
    );
    let c = make_int_lit(&mut g, 7, IntWidth::B8, true);
    let before = g.num_nodes();
    let mut overrides: HashMap<u64, u64> = HashMap::new();
    overrides.insert(b.0, c.0);
    let (root, copies) = g.clone_subgraph(add, &overrides).unwrap();
    assert_ne!(root, add);
    assert_eq!(copies, vec![root]);
    assert_eq!(g.num_nodes(), before + 1);
    match &g.get_node(root).kind {
        NodeKind::BinaryOp { lhs, rhs, .. } => {
            assert_eq!(*lhs, a);
            assert_eq!(*rhs, c);
        }
        other => panic!("expected a copy of the addition, got {:?}", other),
    }
    assert!(matches!(g.get_node(root).provenance, Provenance::Inferred));
    // A literal root is shared, not copied.
    let (same, none) = g.clone_subgraph(a, &HashMap::new()).unwrap();
    assert_eq!(same, a);
    assert!(none.is_empty());
}

#[test]
fn reference_takes_a_known_literal() {
    let mut g = KnowledgeGraph::new();
    let lit = make_int_lit(&mut g, 9, IntWidth::B8, true);
    let r = g.add_node(
        NodeKind::Reference { name: Identifier::new("v", 0), def: lit },
        Type::Numeric(NumericType::Int(IntWidth::B8)),
        KnowledgeState::Residual,
        vec![lit],
        HashSet::new(),
        HashSet::new(),
        Provenance::Inferred,
        make_span(),
    );
    let mut rc = ReductionContext::new(g);
    rc.reduce_all_nodes().unwrap();
    let g = rc.into_graph();
    assert!(matches!(g.get_node(r).kind, NodeKind::Literal(LiteralValue::Int { value: 9, .. })));
}

#[test]
fn undefined_name_is_reported() {
    let body = AstBlock { statements: vec![], ret: Some(Box::new(AstExpr::Id("y".into()))) };
    let errs = graph_reduce(unit_with(vec![func("main", body, None)]), &[]).unwrap_err();
    assert_eq!(errs, vec!["undefined 'y'".to_string()]);
}

#[test]
fn nested_pure_calls_inline() {
    let inc = AstFuncDef {
        public: false,
        name: "inc".to_string(),
        params: vec![AstParam { type_: Some("Int".into()), name: "x".into(), default: None }],
        ret: Some("Int".into()),
        body: AstBlock { statements: vec![], ret: Some(Box::new(bin(BinOp::Add, AstExpr::Id("x".into()), ilit(1)))) },
        doc_comments: vec![],
        capabilities: vec![],
        span: span(),
    };
    let call = AstExpr::Call {
        func: Box::new(AstExpr::Id("inc".into())),
        args: vec![(None, bin(BinOp::Mul, ilit(4), ilit(10)))],
        span: span(),
    };
    let body = AstBlock { statements: vec![bind_stmt("r", call)], ret: Some(Box::new(AstExpr::Id("r".into()))) };
    let u = graph_reduce(unit_with(vec![inc, func("main", body, None)]), &[]).expect("reduce");
    assert_eq!(u.functions[0].name, "main");
    assert_eq!(u.functions.len(), 2);
    let main = &u.functions[0];
    assert_eq!(main.body.ret.as_deref().map(|e| as_int(e)), Some(Some(41)));
}

#[test]
fn false_branch_without_else_is_null() {
    let then_block = AstBlock { statements: vec![], ret: Some(Box::new(ilit(1))) };
    let e = AstExpr::If {
        cond: Box::new(AstExpr::BoolLit(false, span())),
        then_block: Box::new(then_block),
        else_block: None,
        span: span(),
    };
    let body = AstBlock { statements: vec![], ret: Some(Box::new(e)) };
    let u = graph_reduce(unit_with(vec![func("main", body, None)]), &[]).expect("reduce");
    assert!(matches!(u.functions[0].body.ret.as_deref(), Some(AstExpr::NullLit(_))));
}

#[test]
fn type_names_parse() {
    assert_eq!(numeric_type_from_str("UInt(8)"), Some(NumericType::UInt(IntWidth::B8)));
    assert_eq!(numeric_type_from_str("Int"), Some(NumericType::Int(IntWidth::B64)));
    assert_eq!(numeric_type_from_str("Int(7)"), None);
    assert!(matches!(type_from_str("Bool"), Type::Bool));
    assert!(matches!(type_from_str("Option(Str)"), Type::Option(t) if matches!(*t, Type::Str)));
    assert!(matches!(type_from_str("Widget"), Type::UserDefined(n) if n == "Widget"));
}

#[test]
fn retrofit_puts_entry_first_then_names_in_order() {
    let empty = || AstBlock { statements: vec![], ret: Some(Box::new(ilit(0))) };
    let u = graph_reduce(
        unit_with(vec![func("zeta", empty(), None), func("main", empty(), None), func("alpha", empty(), None)]),
        &[],
    )
    .expect("reduce");
    let names: Vec<&str> = u.functions.iter().map(|f| f.name.as_str()).collect();
    assert_eq!(names, vec!["main", "alpha", "zeta"]);
}

#[test]
fn labels_and_messages() {
    let k = NodeKind::Binding { name: Identifier::new("x", 3), def: GraphKey(1) };
    assert_eq!(k.label(), "binding(x)");
    assert_eq!(NodeKind::BinaryOp { op: BinOp::Add, lhs: GraphKey(1), rhs: GraphKey(2) }.label(), "binary(Add)");
    assert_eq!(
        NodeKind::Cast { type_: Type::Numeric(NumericType::Int(IntWidth::B8)), operand: GraphKey(1) }.label(),
        "cast(Int(8))"
    );
    assert_eq!(NodeKind::Unimplemented.label(), "unimp");
    assert_eq!(KnowledgeState::Residual.name(), "residual");
    assert_eq!(ReductionError::DivByZero.message(), "div by zero");
    assert_eq!(ReductionError::Overflow { op: BinOp::Mul, width: 16 }.message(), "overflow Mul on 16-bit");
    assert_eq!(ReductionError::UnknownNode(GraphKey((3u64 << 32) | 5)).message(), "unknown node GraphKey(5v3)");
}

#[test]
fn folding_rewrites_in_place_and_leaves_residue() {
    let mut g = KnowledgeGraph::new();
    let a = make_int_lit(&mut g, 6, IntWidth::B8, true);
    let b = make_int_lit(&mut g, 7, IntWidth::B8, true);
    let add = pending(
        &mut g,
        NodeKind::BinaryOp { op: BinOp::Mul, lhs: a, rhs: b },
        Type::Numeric(NumericType::Int(IntWidth::B8)),
        vec![a, b],
    );
    let residual = g.add_node(
        NodeKind::BinaryOp { op: BinOp::Add, lhs: a, rhs: b },
        Type::Numeric(NumericType::Int(IntWidth::B8)),
        KnowledgeState::Residual,
        vec![a, b],
        HashSet::new(),
        HashSet::new(),
        Provenance::Residual,
        make_span(),
    );
    let mut rc = ReductionContext::new(g);
    rc.reduce_all_nodes().unwrap();
    let g = rc.into_graph();
    let folded = g.get_node(add);
    assert!(matches!(folded.kind, NodeKind::Literal(LiteralValue::Int { value: 42, .. })));
    assert_eq!(folded.deps, vec![a, b]);
    assert_eq!(folded.span, make_span());
    let kept = g.get_node(residual);
    assert!(matches!(kept.kind, NodeKind::BinaryOp { op: BinOp::Add, .. }));
    assert_eq!(kept.knowledge, KnowledgeState::Residual);
}

#[test]
fn converted_body_mirrors_the_return_expression() {
    let body = AstBlock { statements: vec![], ret: Some(Box::new(bin(BinOp::Sub, ilit(9), ilit(4)))) };
    let g = AstConverter::new().convert(unit_with(vec![func("main", body, None)])).expect("convert");
    let f = g.lookup_function_key("main").unwrap();
    assert_eq!(g.get_entry(), Some(f));
    let body_key = match &g.get_node(f).kind {
        NodeKind::Function { body, .. } => *body,
        other => panic!("expected a function, got {:?}", other),
    };
    let root = g.get_node(body_key);
    match &root.kind {
        NodeKind::BinaryOp { op: BinOp::Sub, lhs, rhs } => {
            assert!(matches!(g.get_node(*lhs).kind, NodeKind::Literal(LiteralValue::Int { value: 9, .. })));
            assert!(matches!(g.get_node(*rhs).kind, NodeKind::Literal(LiteralValue::Int { value: 4, .. })));
        }
        other => panic!("expected a subtraction, got {:?}", other),
    }
    assert_eq!(root.knowledge, KnowledgeState::Known);
}

#[test]
fn convert_then_retrofit_keeps_surface() {
    let call = AstExpr::MethodCall {
        target: Box::new(ilit(1)),
        method: "shifted".to_string(),
        args: vec![ilit(2), ilit(3)],
        span: span(),
    };
    let body = AstBlock { statements: vec![], ret: Some(Box::new(call)) };
    let g = AstConverter::new().convert(unit_with(vec![func("main", body, None)])).expect("convert");
    let u = retrofit(&g);
    match u.functions[0].body.ret.as_deref() {
        Some(AstExpr::MethodCall { method, args, .. }) => {
            assert_eq!(method, "shifted");
            assert_eq!(args.len(), 2);
        }
        other => panic!("expected a method call, got {:?}", other),
    }
}

#[test]
fn bitnot_folds_to_complement() {
    let zero = LiteralValue::Int { value: 0, width: IntWidth::B8, signed: true };
    assert_eq!(
        bitnot_int(&zero),
        Some(LiteralValue::Int { value: u128::MAX, width: IntWidth::B8, signed: true })
    );
    let five = LiteralValue::Int { value: 5, width: IntWidth::B32, signed: false };
    assert_eq!(
        bitnot_int(&five),
        Some(LiteralValue::Int { value: !5u128, width: IntWidth::B32, signed: false })
    );
    assert_eq!(bitnot_int(&LiteralValue::Bool(true)), None);
}
