use resid::graph::{invalid_key, remap_kind, GraphKey, KnowledgeGraph, KnowledgeState, NodeKind};
use resid::types::{BinOp, Identifier, IntWidth, LiteralValue, NumericType, Provenance, Span, Type};
use std::collections::{HashMap, HashSet};

fn make_span() -> Span {
    Span { file: "test".into(), line: 1, col_start: 0, col_end: 2 }
}

fn int8(g: &mut KnowledgeGraph, value: u128, deps: Vec<GraphKey>) -> GraphKey {
    g.add_node(
        NodeKind::Literal(LiteralValue::Int { value, width: IntWidth::B8, signed: true }),
        Type::Numeric(NumericType::Int(IntWidth::B8)),
        KnowledgeState::Known,
        deps,
        HashSet::new(),
        HashSet::new(),
        Provenance::Inferred,
        make_span(),
    )
}

fn add(g: &mut KnowledgeGraph, a: GraphKey, b: GraphKey) -> GraphKey {
    g.add_node(
        NodeKind::BinaryOp { op: BinOp::Add, lhs: a, rhs: b },
        Type::Numeric(NumericType::Int(IntWidth::B8)),
        KnowledgeState::Known,
        vec![a, b],
        HashSet::new(),
        HashSet::new(),
        Provenance::Inferred,
        make_span(),
    )
}

#[test]
fn test_graph_new() {
    let g = KnowledgeGraph::new();
    assert_eq!(g.num_nodes(), 0);
    assert_eq!(g.next_id, 0);
}

#[test]
fn test_graph_add_node() {
    let mut g = KnowledgeGraph::new();
    let lit = LiteralValue::Int { value: 42, width: IntWidth::B64, signed: true };
    let key = g.add_node(
        NodeKind::Literal(LiteralValue::Int { value: 42, width: IntWidth::B64, signed: true }),
        Type::Numeric(NumericType::Int(IntWidth::B64)),
        KnowledgeState::Known,
        vec![],
        HashSet::new(),
        HashSet::new(),
        Provenance::Inferred,
        make_span(),
    );
    assert_eq!(g.num_nodes(), 1);
    let node = g.get_node(key);
    match &node.kind {
        NodeKind::Literal(l) => assert_eq!(l, &lit),
        _ => panic!("expected literal"),
    }
}

#[test]
fn test_graph_set_knowledge() {
    let mut g = KnowledgeGraph::new();
    let key = int8(&mut g, 1, vec![]);
    assert_eq!(g.get_node(key).knowledge, KnowledgeState::Known);
    g.set_knowledge(key, KnowledgeState::Residual);
    assert_eq!(g.get_node(key).knowledge, KnowledgeState::Residual);
}

#[test]
fn test_graph_topological_order() {
    let mut g = KnowledgeGraph::new();
    let a = int8(&mut g, 1, vec![]);
    let b = int8(&mut g, 2, vec![]);
    let c = add(&mut g, a, b);
    let order = g.topological_order(c);
    assert_eq!(order.len(), 3);
    let c_pos = order.iter().position(|&k| k == c).unwrap();
    let a_pos = order.iter().position(|&k| k == a).unwrap();
    let b_pos = order.iter().position(|&k| k == b).unwrap();
    assert!(c_pos < a_pos, "c must come before a in reverse topo order");
    assert!(c_pos < b_pos, "c must come before b in reverse topo order");
}

#[test]
fn test_graph_reachable() {
    let mut g = KnowledgeGraph::new();
    let a = int8(&mut g, 1, vec![]);
    let b = int8(&mut g, 2, vec![]);
    let c = add(&mut g, a, b);
    let reachable = g.reachable(c);
    assert!(reachable.contains(&c));
    assert!(reachable.contains(&a));
    assert!(reachable.contains(&b));
}

#[test]
fn test_graph_identifiers() {
    let mut g = KnowledgeGraph::new();
    let lit = int8(&mut g, 1, vec![]);
    let name = Identifier::new("x", 1);
    let binding = g.add_node(
        NodeKind::Binding { name, def: lit },
        Type::Numeric(NumericType::Int(IntWidth::B8)),
        KnowledgeState::Known,
        vec![lit],
        HashSet::new(),
        HashSet::new(),
        Provenance::Inferred,
        make_span(),
    );
    let dup_name = Identifier::new("x", 2);
    let binding2 = g.add_node(
        NodeKind::Binding { name: dup_name, def: lit },
        Type::Numeric(NumericType::Int(IntWidth::B8)),
        KnowledgeState::Known,
        vec![lit],
        HashSet::new(),
        HashSet::new(),
        Provenance::Inferred,
        make_span(),
    );
    let dupes = g.check_uniqueness();
    assert_eq!(dupes.len(), 1);
    assert_eq!(dupes[0].0, "x");
    assert_eq!(dupes[0].1.len(), 2);
    let _ = binding;
    let _ = binding2;
}

#[test]
fn test_graph_function_registration() {
    let mut g = KnowledgeGraph::new();
    let body = int8(&mut g, 0, vec![]);
    let key = g.add_node(
        NodeKind::Function {
            name: Identifier::new("main", 0),
            public: true,
            params: vec![],
            ret: Type::Numeric(NumericType::Int(IntWidth::B64)),
            body,
            capabilities: HashSet::new(),
        },
        Type::Numeric(NumericType::Int(IntWidth::B64)),
        KnowledgeState::Known,
        vec![body],
        HashSet::new(),
        HashSet::new(),
        Provenance::Inferred,
        make_span(),
    );
    g.register_function("main".into(), key);
    assert!(g.lookup_function("main").is_some());
    assert!(g.lookup_function("nonexistent").is_none());
}

#[test]
fn test_invalid_key() {
    let mut g = KnowledgeGraph::new();
    let key = invalid_key(&mut g);
    let node = g.get_node(key);
    assert_eq!(node.type_, Type::Numeric(NumericType::Int(IntWidth::B64)));
}

#[test]
fn test_replace_node() {
    let mut g = KnowledgeGraph::new();
    let key = int8(&mut g, 1, vec![]);
    g.replace_node(
        key,
        NodeKind::Literal(LiteralValue::Int { value: 2, width: IntWidth::B8, signed: true }),
        Type::Numeric(NumericType::Int(IntWidth::B8)),
        KnowledgeState::Known,
    );
    let node = g.get_node(key);
    match &node.kind {
        NodeKind::Literal(LiteralValue::Int { value, .. }) => assert_eq!(*value, 2),
        _ => panic!("expected literal"),
    }
}

#[test]
fn test_entry_point() {
    let mut g = KnowledgeGraph::new();
    assert!(g.get_entry().is_none());
    let key = g.add_node(
        NodeKind::Literal(LiteralValue::Int { value: 0, width: IntWidth::B8, signed: true }),
        Type::Void,
        KnowledgeState::Known,
        vec![],
        HashSet::new(),
        HashSet::new(),
        Provenance::Inferred,
        make_span(),
    );
    g.set_entry(key);
    assert_eq!(g.get_entry(), Some(key));
}

#[test]
fn test_doc_comments() {
    let mut g = KnowledgeGraph::new();
    let key = g.add_node(
        NodeKind::Literal(LiteralValue::Int { value: 0, width: IntWidth::B8, signed: true }),
        Type::Void,
        KnowledgeState::Known,
        vec![],
        HashSet::new(),
        HashSet::new(),
        Provenance::Inferred,
        make_span(),
    );
    assert!(g.get_node(key).doc_comments.is_none());
    g.set_doc_comments(key, vec!["Hello".into(), "World".into()]);
    assert_eq!(g.get_node(key).doc_comments, Some(vec!["Hello".into(), "World".into()]));
}

#[test]
fn test_all_keys() {
    let mut g = KnowledgeGraph::new();
    let a = int8(&mut g, 1, vec![]);
    let b = int8(&mut g, 2, vec![]);
    let keys = g.all_keys();
    assert_eq!(keys.len(), 2);
    assert!(keys.contains(&a));
    assert!(keys.contains(&b));
}

// ─── further cases ────────────────────────────────────────────────

#[test]
fn reachable_starts_with_start_and_has_no_repeats() {
    let mut g = KnowledgeGraph::new();
    let a = int8(&mut g, 1, vec![]);
    let b = add(&mut g, a, a);
    let c = add(&mut g, b, a);
    let r = g.reachable(c);
    assert_eq!(r[0], c);
    assert_eq!(r.len(), 3);
    // A key that names no node is reachable only from itself.
    let r2 = g.reachable(GraphKey(7));
    assert_eq!(r2, vec![GraphKey(7)]);
}

#[test]
fn topological_order_of_a_diamond() {
    let mut g = KnowledgeGraph::new();
    let a = int8(&mut g, 1, vec![]);
    let b = int8(&mut g, 2, vec![a]);
    let c = int8(&mut g, 3, vec![a]);
    let d = int8(&mut g, 4, vec![b, c, b]);
    let order = g.topological_order(d);
    assert_eq!(order.len(), 4);
    let pos = |k: GraphKey| order.iter().position(|&x| x == k).unwrap();
    assert_eq!(pos(d), 0);
    assert!(pos(b) < pos(a));
    assert!(pos(c) < pos(a));
    assert_eq!(pos(a), 3);
}

#[test]
fn topological_order_leaves_out_cycles() {
    let mut g = KnowledgeGraph::new();
    let a = int8(&mut g, 1, vec![]);
    let b = int8(&mut g, 2, vec![a]);
    // Make `a` depend on `b`: a two-node cycle.
    g.get_node_mut(a).deps.push(b);
    let top = int8(&mut g, 3, vec![b]);
    let order = g.topological_order(top);
    assert_eq!(order, vec![top]);
}

#[test]
fn remap_kind_rewrites_every_key() {
    let mut m: HashMap<u64, u64> = HashMap::new();
    m.insert(1, 10);
    m.insert(2, 20);
    let k = NodeKind::If { cond: GraphKey(1), then_branch: GraphKey(2), else_branch: Some(GraphKey(3)) };
    match remap_kind(k, &m) {
        NodeKind::If { cond, then_branch, else_branch } => {
            assert_eq!(cond, GraphKey(10));
            assert_eq!(then_branch, GraphKey(20));
            assert_eq!(else_branch, Some(GraphKey(3)));
        }
        _ => panic!("expected if"),
    }
    match remap_kind(NodeKind::List { elements: vec![GraphKey(2), GraphKey(5)] }, &m) {
        NodeKind::List { elements } => assert_eq!(elements, vec![GraphKey(20), GraphKey(5)]),
        _ => panic!("expected list"),
    }
}

#[test]
fn get_node_checked_of_missing_key() {
    let mut g = KnowledgeGraph::new();
    let a = int8(&mut g, 1, vec![]);
    assert!(g.get_node_checked(a).is_some());
    assert!(g.get_node_checked(GraphKey(a.0 + 1)).is_none());
}

#[test]
fn register_function_replaces_earlier_registration() {
    let mut g = KnowledgeGraph::new();
    let a = int8(&mut g, 1, vec![]);
    let b = int8(&mut g, 2, vec![]);
    g.register_function("f".into(), a);
    g.register_function("f".into(), b);
    assert_eq!(g.lookup_function_key("f"), Some(b));
    assert_eq!(g.function_keys(), vec![b]);
}
