//! The knowledge graph: an enriched expression DAG whose nodes live in a
//! slot map (`slotmap::SlotMap`).

use vstd::prelude::*;

use slotmap::{DefaultKey, Key, KeyData, SlotMap};
use std::collections::{HashMap, HashSet};

use crate::text::{push_str, string_of};
use crate::types::{
    binop_name, type_text, BehaviorRef, BinOp, Capability, Effect, Identifier, IntWidth, LiteralValue,
    NumericType, Pattern, Provenance, Provider, Span, Type, UnaryOp,
};

verus! {

/// Key of a node in a [`KnowledgeGraph`]: the slot map key in its stable
/// 64-bit form (`KeyData::as_ffi`: version in the high half, slot index in
/// the low half).
#[derive(Clone, Copy, Debug, PartialEq, Eq, Hash, Structural)]
pub struct GraphKey(pub u64);

// ─── The slot map ──────────────────────────────────────────────────

/// The slot map that stores the nodes of a graph (`slotmap::SlotMap` with
/// its default key type).
#[verifier::external_body]
pub struct NodeSlots {
    slots: SlotMap<DefaultKey, Node>,
}

/// What a slot map holds: the value of each occupied slot, by the 64-bit
/// form of its key.
pub uninterp spec fn slot_contents(m: NodeSlots) -> Map<u64, Node>;

/// The key `KeyData::from_ffi` makes of a 64-bit value: the same slot
/// index, the version forced odd (occupied slots have odd versions).
pub open spec fn canon(k: u64) -> u64 {
    if (k / 0x1_0000_0000) % 2 == 1 {
        k
    } else {
        (k + 0x1_0000_0000) as u64
    }
}

/// The slot map holds a value under the key that `k` names.
pub open spec fn slot_has(m: NodeSlots, k: u64) -> bool {
    slot_contents(m).contains_key(canon(k))
}

/// The value stored under the key that `k` names, if any.
pub open spec fn slot_lookup(m: NodeSlots, k: u64) -> Option<&'static Node> {
    if slot_has(m, k) {
        Some(&slot_contents(m)[canon(k)])
    } else {
        None
    }
}

/// `SlotMap::with_key`: an empty slot map.
#[verifier::external_body]
fn slots_new() -> (m: NodeSlots)
    ensures
        slot_contents(m).is_empty(),
{
    NodeSlots { slots: SlotMap::with_key() }
}

/// `SlotMap::insert`: stores `v` in a free slot and returns its key, which
/// held no value before and has an odd version. The map keeps a sentinel in
/// slot 0 and panics once its slots reach 2^32 - 1, so it is called with
/// fewer than 2^32 - 2 stored values.
#[verifier::external_body]
fn slots_insert(m: &mut NodeSlots, v: Node) -> (k: u64)
    requires
        slot_contents(*old(m)).dom().finite(),
        slot_contents(*old(m)).dom().len() < u32::MAX - 1,
    ensures
        !slot_contents(*old(m)).contains_key(k),
        canon(k) == k,
        slot_contents(*final(m)) == slot_contents(*old(m)).insert(k, v),
{
    m.slots.insert(v).data().as_ffi()
}

/// `SlotMap::get` with the key `KeyData::from_ffi(k)`.
#[verifier::external_body]
fn slots_get<'a>(m: &'a NodeSlots, k: u64) -> (r: Option<&'a Node>)
    ensures
        r == slot_lookup(*m, k),
{
    m.slots.get(KeyData::from_ffi(k).into())
}

/// `SlotMap::get_mut` with the key `KeyData::from_ffi(k)`, the value there
/// replaced by `v`; the old value is returned.
#[verifier::external_body]
fn slots_replace(m: &mut NodeSlots, k: u64, v: Node) -> (r: Option<Node>)
    ensures
        slot_has(*old(m), k) ==> (r matches Some(n) && n == slot_contents(*old(m))[canon(k)]
            && slot_contents(*final(m)) == slot_contents(*old(m)).insert(canon(k), v)),
        !slot_has(*old(m), k) ==> r is None && slot_contents(*final(m)) == slot_contents(*old(m)),
{
    match m.slots.get_mut(KeyData::from_ffi(k).into()) {
        Some(slot) => Some(std::mem::replace(slot, v)),
        None => None,
    }
}

/// `SlotMap::get_mut` with the key `KeyData::from_ffi(k)`, which must name
/// a stored value: a mutable reference to it.
#[verifier::external_body]
fn slots_get_mut<'a>(m: &'a mut NodeSlots, k: u64) -> (r: &'a mut Node)
    requires
        slot_has(*old(m), k),
    ensures
        *r == slot_contents(*old(m))[canon(k)],
        slot_contents(*final(m)) == slot_contents(*old(m)).insert(canon(k), *final(r)),
{
    m.slots.get_mut(KeyData::from_ffi(k).into()).unwrap()
}

/// `SlotMap::len`: the number of stored values.
#[verifier::external_body]
fn slots_len(m: &NodeSlots) -> (r: usize)
    ensures
        r == slot_contents(*m).dom().len(),
{
    m.slots.len()
}

/// `SlotMap::keys`: the keys of all stored values, each once, in slot
/// order.
#[verifier::external_body]
fn slots_keys(m: &NodeSlots) -> (r: Vec<u64>)
    ensures
        r@.to_set() == slot_contents(*m).dom(),
        r@.no_duplicates(),
{
    m.slots.keys().map(|k| k.data().as_ffi()).collect()
}

// ─── Nodes ─────────────────────────────────────────────────────────

/// Knowledge state of a node.
#[derive(Clone, Copy, Debug, PartialEq, Eq, Hash, Structural)]
pub enum KnowledgeState {
    Known,
    Effect,
    Residual,
    Invalid,
}

/// The name of a knowledge state.
pub open spec fn knowledge_name(k: KnowledgeState) -> Seq<char> {
    match k {
        KnowledgeState::Known => "known"@,
        KnowledgeState::Effect => "effect"@,
        KnowledgeState::Residual => "residual"@,
        KnowledgeState::Invalid => "invalid"@,
    }
}

impl KnowledgeState {
    /// The state's name: `known`, `effect`, `residual` or `invalid`.
    pub fn name(&self) -> (s: &'static str)
        ensures
            s@ == knowledge_name(*self),
    {
        match self {
            KnowledgeState::Known => "known",
            KnowledgeState::Effect => "effect",
            KnowledgeState::Residual => "residual",
            KnowledgeState::Invalid => "invalid",
        }
    }
}

/// What a node computes.
#[derive(Debug)]
pub enum NodeKind {
    Literal(LiteralValue),
    Location,
    Binding { name: Identifier, def: GraphKey },
    /// A compile-time reference to a binding cell; `def` is the key of the
    /// definition it resolves to (a `Binding` cell, a param cell, or a
    /// `Function` node).
    Reference { name: Identifier, def: GraphKey },
    Discard { source: GraphKey },
    Break,
    Continue,
    Function {
        name: Identifier,
        public: bool,
        params: Vec<(Identifier, Type, Option<GraphKey>)>,
        ret: Type,
        body: GraphKey,
        capabilities: HashSet<Capability>,
    },
    Call { func: GraphKey, args: Vec<GraphKey> },
    Rt(GraphKey),
    AtResidual { type_: Type, inner: GraphKey },
    BinaryOp { op: BinOp, lhs: GraphKey, rhs: GraphKey },
    UnaryOp { op: UnaryOp, operand: GraphKey },
    Cast { type_: Type, operand: GraphKey },
    If { cond: GraphKey, then_branch: GraphKey, else_branch: Option<GraphKey> },
    While { cond: GraphKey, body: GraphKey },
    For { init: GraphKey, cond: GraphKey, step: GraphKey, body: GraphKey },
    ForIn { iter: GraphKey, name: Identifier, body: GraphKey },
    Match { scrutinee: GraphKey, arms: Vec<(Pattern, GraphKey)>, default_arm: Option<GraphKey> },
    Spawn { capabilities: Vec<Capability>, body: GraphKey, ret: Type },
    Assert { cond: GraphKey, message: GraphKey },
    RtAssert { cond: GraphKey, message: GraphKey },
    Known(GraphKey),
    RtKnown(GraphKey),
    ComptimePrint(GraphKey),
    Todo,
    Unimplemented,
    Struct { name: Identifier, fields: Vec<(Identifier, GraphKey)> },
    List { elements: Vec<GraphKey> },
    MapOf { entries: Vec<(GraphKey, GraphKey)> },
    SetOf { elements: Vec<GraphKey> },
    Range { start: GraphKey, end: GraphKey, closed: bool },
    FString { parts: Vec<FStringPartNode> },
    RawString(String),
    ByteString(Vec<u8>),
    FieldAccess { target: GraphKey, field: Identifier },
    Index { target: GraphKey, index: GraphKey },
    Slice { target: GraphKey, range: GraphKey },
    MethodCall { target: GraphKey, method: Identifier, args: Vec<GraphKey> },
    EarlyReturn { value: GraphKey },
    ElseFallback { value: GraphKey, fallback: GraphKey },
    Destructure { pattern: Pattern, source: GraphKey, bindings: Vec<(Identifier, GraphKey)> },
    With { bindings: Vec<WithBindingNode>, body: GraphKey },
    ProviderCall { provider: Provider, verb: Identifier, args: Vec<GraphKey> },
    BehaviorInstance { behavior: BehaviorRef, type_: Type },
    Using { value: GraphKey, behavior: BehaviorRef },
    RegionError(GraphKey),
}

/// One part of an f-string: literal text and an optional interpolated
/// expression.
#[derive(Debug)]
pub struct FStringPartNode {
    pub text: String,
    pub expr: Option<GraphKey>,
}

/// One binding of a `with` block.
#[derive(Debug)]
pub struct WithBindingNode {
    pub type_: Type,
    pub name: Identifier,
    pub init: GraphKey,
}

/// Per-block statement layout recorded during AST conversion, keyed by the
/// block's last (root) node: the statement nodes in source order and the
/// block's trailing return expression, if any (then the last anchor).
#[derive(Debug)]
pub struct BlockInfo {
    pub anchors: Vec<GraphKey>,
    pub tail: Option<GraphKey>,
}

/// Single node in the knowledge graph.
#[derive(Debug)]
pub struct Node {
    pub kind: NodeKind,
    pub type_: Type,
    pub knowledge: KnowledgeState,
    pub deps: Vec<GraphKey>,
    pub effects: HashSet<Effect>,
    pub capabilities: HashSet<Capability>,
    pub provenance: Provenance,
    pub span: Span,
    pub doc_comments: Option<Vec<String>>,
}

// ─── The graph ─────────────────────────────────────────────────────

broadcast use vstd::std_specs::hash::group_hash_axioms;

/// The knowledge graph: an enriched expression DAG.
pub struct KnowledgeGraph {
    nodes: NodeSlots,
    pub next_id: u64,
    identifiers: Vec<(String, Vec<u64>)>,
    entry_point: Option<GraphKey>,
    functions: Vec<(String, GraphKey)>,
    block_info: HashMap<u64, BlockInfo>,
    param_cells: HashMap<u64, Vec<GraphKey>>,
}

/// A placeholder node, put in a slot while its node is rebuilt.
fn blank_node() -> (n: Node)
    ensures
        n.kind is Todo,
{
    Node {
        kind: NodeKind::Todo,
        type_: Type::Void,
        knowledge: KnowledgeState::Known,
        deps: Vec::new(),
        effects: HashSet::new(),
        capabilities: HashSet::new(),
        provenance: Provenance::Inferred,
        span: Span::unknown(),
        doc_comments: None,
    }
}

/// Each name occurs once in the table.
pub open spec fn names_unique<V>(t: Seq<(String, V)>) -> bool {
    forall|i: int, j: int|
        0 <= i < t.len() && 0 <= j < t.len() && i != j ==> (#[trigger] t[i]).0@ != (
        #[trigger] t[j]).0@
}

/// The name table as a map from names to values.
pub open spec fn table_map<V>(t: Seq<(String, V)>) -> Map<Seq<char>, V>
    decreases t.len(),
{
    if t.len() == 0 {
        Map::empty()
    } else {
        table_map(t.drop_last()).insert(t.last().0@, t.last().1)
    }
}

/// The graph node that `n` becomes with its knowledge state replaced.
pub open spec fn with_knowledge(n: Node, s: KnowledgeState) -> Node {
    Node { knowledge: s, ..n }
}

impl KnowledgeGraph {
    /// The nodes of the graph, by key.
    pub closed spec fn nodes(&self) -> Map<u64, Node> {
        slot_contents(self.nodes)
    }

    /// The graph holds a node under `k`.
    pub open spec fn has(&self, k: GraphKey) -> bool {
        self.nodes().contains_key(canon(k.0))
    }

    /// The node under `k` (meaningful when [`Self::has`] holds).
    pub open spec fn node(&self, k: GraphKey) -> Node {
        self.nodes()[canon(k.0)]
    }

    /// The registered functions, by name.
    pub closed spec fn functions(&self) -> Map<Seq<char>, GraphKey> {
        table_map(self.functions@)
    }

    /// The identifier ids recorded for each binding name.
    pub closed spec fn identifier_ids(&self) -> Map<Seq<char>, Seq<u64>> {
        table_map(self.identifiers@).map_values(|v: Vec<u64>| v@)
    }

    /// The identifier table in recording order: names with their ids.
    pub closed spec fn identifier_table(&self) -> Seq<(Seq<char>, Seq<u64>)> {
        self.identifiers@.map_values(|e: (String, Vec<u64>)| (e.0@, e.1@))
    }

    /// The entry point, if set.
    pub closed spec fn entry(&self) -> Option<GraphKey> {
        self.entry_point
    }

    /// The recorded block layouts, by root key.
    pub closed spec fn blocks(&self) -> Map<u64, BlockInfo> {
        self.block_info@
    }

    /// The recorded parameter cells, by function key.
    pub closed spec fn cells(&self) -> Map<u64, Vec<GraphKey>> {
        self.param_cells@
    }

    /// Internal consistency: finitely many nodes, each name once in the
    /// name tables.
    pub closed spec fn wf(&self) -> bool {
        &&& self.nodes().dom().finite()
        &&& names_unique(self.functions@)
        &&& names_unique(self.identifiers@)
    }

    /// The next identifier id to hand out.
    pub closed spec fn id_counter(&self) -> u64 {
        self.next_id
    }

    /// The number of nodes.
    pub open spec fn node_count(&self) -> nat {
        self.nodes().dom().len()
    }

    /// An empty graph.
    pub fn new() -> (g: KnowledgeGraph)
        ensures
            g.wf(),
            g.nodes().is_empty(),
            g.id_counter() == 0,
            g.functions().is_empty(),
            g.identifier_ids().is_empty(),
            g.entry() is None,
            g.blocks().is_empty(),
            g.cells().is_empty(),
    {
        let g = KnowledgeGraph {
            nodes: slots_new(),
            next_id: 0,
            identifiers: Vec::new(),
            entry_point: None,
            functions: Vec::new(),
            block_info: HashMap::new(),
            param_cells: HashMap::new(),
        };
        assert(g.functions() =~= Map::<Seq<char>, GraphKey>::empty());
        assert(g.identifier_ids() =~= Map::<Seq<char>, Seq<u64>>::empty());
        g
    }
}

/// The node `add_node` stores.
pub open spec fn new_node(
    kind: NodeKind,
    type_: Type,
    knowledge: KnowledgeState,
    deps: Vec<GraphKey>,
    effects: HashSet<Effect>,
    capabilities: HashSet<Capability>,
    provenance: Provenance,
    span: Span,
) -> Node {
    Node { kind, type_, knowledge, deps, effects, capabilities, provenance, span, doc_comments: None }
}

/// The identifier table after recording `id` under `name`.
pub open spec fn record_id(ids: Map<Seq<char>, Seq<u64>>, name: Seq<char>, id: u64) -> Map<
    Seq<char>,
    Seq<u64>,
> {
    if ids.contains_key(name) {
        ids.insert(name, ids[name].push(id))
    } else {
        ids.insert(name, seq![id])
    }
}

proof fn lemma_table_map_unique_index<V>(t: Seq<(String, V)>, i: int)
    requires
        names_unique(t),
        0 <= i < t.len(),
    ensures
        table_map(t).contains_key(t[i].0@),
        table_map(t)[t[i].0@] == t[i].1,
    decreases t.len(),
{
    if i < t.len() - 1 {
        let u = t.drop_last();
        assert(names_unique(u)) by {
            assert forall|a: int, b: int|
                0 <= a < u.len() && 0 <= b < u.len() && a != b implies (#[trigger] u[a]).0@ != (
                #[trigger] u[b]).0@ by {
                assert(u[a] == t[a] && u[b] == t[b]);
            }
        }
        assert(u[i] == t[i]);
        lemma_table_map_unique_index(u, i);
        assert(t.last().0@ != t[i].0@);
    }
}

proof fn lemma_table_map_absent<V>(t: Seq<(String, V)>, name: Seq<char>)
    requires
        forall|i: int| 0 <= i < t.len() ==> (#[trigger] t[i]).0@ != name,
    ensures
        !table_map(t).contains_key(name),
    decreases t.len(),
{
    if t.len() > 0 {
        let u = t.drop_last();
        assert forall|i: int| 0 <= i < u.len() implies (#[trigger] u[i]).0@ != name by {
            assert(u[i] == t[i]);
        }
        lemma_table_map_absent(u, name);
    }
}

proof fn lemma_table_map_dom<V>(t: Seq<(String, V)>, name: Seq<char>)
    requires
        table_map(t).contains_key(name),
    ensures
        exists|i: int| 0 <= i < t.len() && (#[trigger] t[i]).0@ == name,
    decreases t.len(),
{
    if t.len() > 0 {
        if t.last().0@ != name {
            lemma_table_map_dom(t.drop_last(), name);
            let i = choose|i: int| 0 <= i < t.drop_last().len() && (#[trigger] t.drop_last()[i]).0@
                == name;
            assert(t[i] == t.drop_last()[i]);
        } else {
            assert(t[t.len() - 1].0@ == name);
        }
    }
}

proof fn lemma_table_map_update<V>(t: Seq<(String, V)>, i: int, v: V)
    requires
        names_unique(t),
        0 <= i < t.len(),
    ensures
        names_unique(t.update(i, (t[i].0, v))),
        table_map(t.update(i, (t[i].0, v))) == table_map(t).insert(t[i].0@, v),
    decreases t.len(),
{
    let t2 = t.update(i, (t[i].0, v));
    assert(names_unique(t2)) by {
        assert forall|a: int, b: int|
            0 <= a < t2.len() && 0 <= b < t2.len() && a != b implies (#[trigger] t2[a]).0@ != (
            #[trigger] t2[b]).0@ by {
            assert(t2[a].0 == t[a].0 && t2[b].0 == t[b].0);
        }
    }
    let u = t.drop_last();
    assert(names_unique(u)) by {
        assert forall|a: int, b: int|
            0 <= a < u.len() && 0 <= b < u.len() && a != b implies (#[trigger] u[a]).0@ != (
            #[trigger] u[b]).0@ by {
            assert(u[a] == t[a] && u[b] == t[b]);
        }
    }
    if i == t.len() - 1 {
        assert(t2.drop_last() =~= u);
        assert forall|a: int| 0 <= a < u.len() implies (#[trigger] u[a]).0@ != t[i].0@ by {
            assert(u[a] == t[a]);
        }
        lemma_table_map_absent(u, t[i].0@);
        assert(table_map(t2) =~= table_map(t).insert(t[i].0@, v));
    } else {
        lemma_table_map_update(u, i, v);
        assert(t2.drop_last() =~= u.update(i, (u[i].0, v)));
        assert(t.last().0@ != t[i].0@);
        assert(table_map(t2) =~= table_map(t).insert(t[i].0@, v));
    }
}

proof fn lemma_table_map_push<V>(t: Seq<(String, V)>, e: (String, V))
    requires
        names_unique(t),
        !table_map(t).contains_key(e.0@),
    ensures
        names_unique(t.push(e)),
        table_map(t.push(e)) == table_map(t).insert(e.0@, e.1),
{
    let t2 = t.push(e);
    assert(t2.drop_last() =~= t);
    assert(names_unique(t2)) by {
        assert forall|a: int, b: int|
            0 <= a < t2.len() && 0 <= b < t2.len() && a != b implies (#[trigger] t2[a]).0@ != (
            #[trigger] t2[b]).0@ by {
            if a < t.len() && b < t.len() {
                assert(t2[a] == t[a] && t2[b] == t[b]);
            } else if a < t.len() {
                assert(t2[a] == t[a]);
                lemma_table_map_unique_index(t, a);
            } else if b < t.len() {
                assert(t2[b] == t[b]);
                lemma_table_map_unique_index(t, b);
            }
        }
    }
}

impl KnowledgeGraph {
    /// Adds a node and returns its key. A binding node's name records the
    /// id this node receives.
    pub fn add_node(
        &mut self,
        kind: NodeKind,
        type_: Type,
        knowledge: KnowledgeState,
        deps: Vec<GraphKey>,
        effects: HashSet<Effect>,
        capabilities: HashSet<Capability>,
        provenance: Provenance,
        span: Span,
    ) -> (k: GraphKey)
        requires
            old(self).wf(),
            old(self).node_count() < u32::MAX - 1,
            old(self).id_counter() < u64::MAX,
        ensures
            final(self).wf(),
            !old(self).has(k),
            canon(k.0) == k.0,
            final(self).nodes() == old(self).nodes().insert(
                k.0,
                new_node(kind, type_, knowledge, deps, effects, capabilities, provenance, span),
            ),
            final(self).id_counter() == old(self).id_counter() + 1,
            final(self).identifier_ids() == match kind {
                NodeKind::Binding { name, .. } => record_id(
                    old(self).identifier_ids(),
                    name.name@,
                    old(self).id_counter(),
                ),
                _ => old(self).identifier_ids(),
            },
            final(self).functions() == old(self).functions(),
            final(self).entry() == old(self).entry(),
            final(self).blocks() == old(self).blocks(),
            final(self).cells() == old(self).cells(),
    {
        let id = self.next_id;
        self.next_id = self.next_id + 1;
        match &kind {
            NodeKind::Binding { name, .. } => {
                self.record_identifier(&name.name, id);
            },
            _ => {},
        }
        let node = Node {
            kind,
            type_,
            knowledge,
            deps,
            effects,
            capabilities,
            provenance,
            span,
            doc_comments: None,
        };
        let k = slots_insert(&mut self.nodes, node);
        GraphKey(k)
    }

    fn record_identifier(&mut self, name: &String, id: u64)
        requires
            old(self).wf(),
        ensures
            final(self).wf(),
            final(self).identifier_ids() == record_id(old(self).identifier_ids(), name@, id),
            final(self).nodes() == old(self).nodes(),
            final(self).id_counter() == old(self).id_counter(),
            final(self).functions() == old(self).functions(),
            final(self).entry() == old(self).entry(),
            final(self).blocks() == old(self).blocks(),
            final(self).cells() == old(self).cells(),
    {
        let ghost t = self.identifiers@;
        let mut i: usize = 0;
        while i < self.identifiers.len()
            invariant
                i <= self.identifiers@.len(),
                t == self.identifiers@,
                *self == *old(self),
                old(self).wf(),
                forall|j: int| 0 <= j < i ==> (#[trigger] t[j]).0@ != name@,
            decreases self.identifiers@.len() - i,
        {
            if crate::text::str_eq(self.identifiers[i].0.as_str(), name.as_str()) {
                let mut entry = self.identifiers.remove(i);
                entry.1.push(id);
                let ghost e2 = (t[i as int].0, entry.1);
                self.identifiers.insert(i, entry);
                proof {
                    assert(self.identifiers@ =~= t.update(i as int, (t[i as int].0, entry.1)));
                    lemma_table_map_update(t, i as int, entry.1);
                    lemma_table_map_unique_index(t, i as int);
                    assert(self.identifier_ids() =~= record_id(
                        table_map(t).map_values(|v: Vec<u64>| v@),
                        name@,
                        id,
                    ));
                }
                return;
            }
            i += 1;
        }
        proof {
            lemma_table_map_absent(t, name@);
        }
        let mut ids: Vec<u64> = Vec::new();
        ids.push(id);
        let e = (name.clone(), ids);
        self.identifiers.push(e);
        proof {
            lemma_table_map_push(t, e);
            assert(self.identifier_ids() =~= record_id(
                table_map(t).map_values(|v: Vec<u64>| v@),
                name@,
                id,
            ));
        }
    }

    /// The node under `key` (the key must name a node).
    pub fn get_node(&self, key: GraphKey) -> (n: &Node)
        requires
            self.has(key),
        ensures
            *n == self.node(key),
    {
        match slots_get(&self.nodes, key.0) {
            Some(n) => n,
            None => {
                assert(false);
                slots_get(&self.nodes, key.0).unwrap()
            },
        }
    }

    /// The node under `key`, if there is one.
    pub fn get_node_checked(&self, key: GraphKey) -> (r: Option<&Node>)
        ensures
            self.has(key) ==> (r matches Some(n) && *n == self.node(key)),
            !self.has(key) ==> r is None,
    {
        slots_get(&self.nodes, key.0)
    }

    fn take_node(&mut self, key: GraphKey) -> (n: Node)
        requires
            old(self).has(key),
        ensures
            n == old(self).node(key),
            final(self).has(key),
            final(self).nodes().dom() == old(self).nodes().dom(),
            final(self).nodes() == old(self).nodes().insert(canon(key.0), final(self).node(key)),
            final(self).id_counter() == old(self).id_counter(),
            final(self).functions@ == old(self).functions@,
            final(self).identifiers@ == old(self).identifiers@,
            final(self).entry() == old(self).entry(),
            final(self).blocks() == old(self).blocks(),
            final(self).cells() == old(self).cells(),
    {
        match slots_replace(&mut self.nodes, key.0, blank_node()) {
            Some(n) => {
                assert(self.nodes().dom() =~= old(self).nodes().dom());
                n
            },
            None => {
                assert(false);
                blank_node()
            },
        }
    }

    fn put_node(&mut self, key: GraphKey, n: Node)
        requires
            old(self).has(key),
        ensures
            final(self).nodes() == old(self).nodes().insert(canon(key.0), n),
            final(self).nodes().dom() == old(self).nodes().dom(),
            final(self).id_counter() == old(self).id_counter(),
            final(self).functions@ == old(self).functions@,
            final(self).identifiers@ == old(self).identifiers@,
            final(self).entry() == old(self).entry(),
            final(self).blocks() == old(self).blocks(),
            final(self).cells() == old(self).cells(),
    {
        let _ = slots_replace(&mut self.nodes, key.0, n);
        assert(self.nodes().dom() =~= old(self).nodes().dom());
    }

    /// Sets the knowledge state of a node (the key must name a node).
    pub fn set_knowledge(&mut self, key: GraphKey, state: KnowledgeState)
        requires
            old(self).wf(),
            old(self).has(key),
        ensures
            final(self).wf(),
            final(self).nodes() == old(self).nodes().insert(
                canon(key.0),
                with_knowledge(old(self).node(key), state),
            ),
            final(self).functions() == old(self).functions(),
            final(self).identifier_ids() == old(self).identifier_ids(),
            final(self).id_counter() == old(self).id_counter(),
            final(self).entry() == old(self).entry(),
            final(self).blocks() == old(self).blocks(),
            final(self).cells() == old(self).cells(),
    {
        let mut n = self.take_node(key);
        n.knowledge = state;
        self.put_node(key, n);
        proof {
            assert(self.nodes() =~= old(self).nodes().insert(
                canon(key.0),
                with_knowledge(old(self).node(key), state),
            ));
            assert(self.nodes().dom().finite());
        }
    }

    /// Attaches doc comments to a node (the key must name a node).
    pub fn set_doc_comments(&mut self, key: GraphKey, comments: Vec<String>)
        requires
            old(self).wf(),
            old(self).has(key),
        ensures
            final(self).wf(),
            final(self).nodes() == old(self).nodes().insert(
                canon(key.0),
                Node { doc_comments: Some(comments), ..old(self).node(key) },
            ),
            final(self).functions() == old(self).functions(),
            final(self).identifier_ids() == old(self).identifier_ids(),
            final(self).id_counter() == old(self).id_counter(),
            final(self).entry() == old(self).entry(),
            final(self).blocks() == old(self).blocks(),
            final(self).cells() == old(self).cells(),
    {
        let mut n = self.take_node(key);
        n.doc_comments = Some(comments);
        self.put_node(key, n);
        proof {
            assert(self.nodes() =~= old(self).nodes().insert(
                canon(key.0),
                Node { doc_comments: Some(comments), ..old(self).node(key) },
            ));
        }
    }

    /// Replaces a node's kind, type and knowledge state, keeping its
    /// dependencies, effects, capabilities, provenance, span and doc
    /// comments (the key must name a node); returns the key.
    pub fn replace_node(
        &mut self,
        key: GraphKey,
        kind: NodeKind,
        type_: Type,
        knowledge: KnowledgeState,
    ) -> (r: GraphKey)
        requires
            old(self).wf(),
            old(self).has(key),
        ensures
            r == key,
            final(self).wf(),
            final(self).nodes() == old(self).nodes().insert(
                canon(key.0),
                Node { kind, type_, knowledge, ..old(self).node(key) },
            ),
            final(self).functions() == old(self).functions(),
            final(self).identifier_ids() == old(self).identifier_ids(),
            final(self).id_counter() == old(self).id_counter(),
            final(self).entry() == old(self).entry(),
            final(self).blocks() == old(self).blocks(),
            final(self).cells() == old(self).cells(),
    {
        let mut n = self.take_node(key);
        n.kind = kind;
        n.type_ = type_;
        n.knowledge = knowledge;
        self.put_node(key, n);
        proof {
            assert(self.nodes() =~= old(self).nodes().insert(
                canon(key.0),
                Node { kind, type_, knowledge, ..old(self).node(key) },
            ));
        }
        key
    }

    /// Sets the entry point.
    pub fn set_entry(&mut self, key: GraphKey)
        ensures
            final(self).entry() == Some(key),
            final(self).nodes() == old(self).nodes(),
            final(self).functions() == old(self).functions(),
            final(self).identifier_ids() == old(self).identifier_ids(),
            final(self).wf() == old(self).wf(),
            final(self).id_counter() == old(self).id_counter(),
            final(self).blocks() == old(self).blocks(),
            final(self).cells() == old(self).cells(),
    {
        self.entry_point = Some(key);
    }

    /// The entry point, if set.
    pub fn get_entry(&self) -> (r: Option<GraphKey>)
        ensures
            r == self.entry(),
    {
        self.entry_point
    }
}

/// The dependencies `set_function_parts` records: the body, then each
/// parameter default in order.
pub open spec fn function_deps(body: GraphKey, params: Seq<(Identifier, Type, Option<GraphKey>)>) -> Seq<
    GraphKey,
>
    decreases params.len(),
{
    if params.len() == 0 {
        seq![body]
    } else {
        match params.last().2 {
            Some(d) => function_deps(body, params.drop_last()).push(d),
            None => function_deps(body, params.drop_last()),
        }
    }
}

/// The names that were recorded for more than one node.
pub open spec fn duplicated(t: Seq<(Seq<char>, Seq<u64>)>) -> Seq<(Seq<char>, Seq<u64>)>
    decreases t.len(),
{
    if t.len() == 0 {
        Seq::empty()
    } else if t.last().1.len() > 1 {
        duplicated(t.drop_last()).push(t.last())
    } else {
        duplicated(t.drop_last())
    }
}

impl KnowledgeGraph {
    /// Sets the body and parameters of a function node and makes its
    /// dependencies the body and the parameter defaults (the key must name
    /// a node; a node that is no function only gets the dependencies).
    pub fn set_function_parts(
        &mut self,
        key: GraphKey,
        body: GraphKey,
        params: Vec<(Identifier, Type, Option<GraphKey>)>,
    )
        requires
            old(self).wf(),
            old(self).has(key),
        ensures
            final(self).wf(),
            final(self).has(key),
            final(self).nodes() == old(self).nodes().insert(canon(key.0), final(self).node(key)),
            final(self).node(key).deps@ == function_deps(body, params@),
            old(self).node(key).kind matches NodeKind::Function { name, public, ret, capabilities, .. }
                ==> final(self).node(key).kind == (NodeKind::Function { name, public, params, ret, body, capabilities }),
            !(old(self).node(key).kind is Function) ==> final(self).node(key).kind == old(self).node(key).kind,
            final(self).node(key).type_ == old(self).node(key).type_,
            final(self).node(key).knowledge == old(self).node(key).knowledge,
            final(self).node(key).effects == old(self).node(key).effects,
            final(self).node(key).capabilities == old(self).node(key).capabilities,
            final(self).node(key).provenance == old(self).node(key).provenance,
            final(self).node(key).span == old(self).node(key).span,
            final(self).node(key).doc_comments == old(self).node(key).doc_comments,
            final(self).functions() == old(self).functions(),
            final(self).identifier_ids() == old(self).identifier_ids(),
            final(self).id_counter() == old(self).id_counter(),
            final(self).entry() == old(self).entry(),
            final(self).blocks() == old(self).blocks(),
            final(self).cells() == old(self).cells(),
    {
        let mut deps: Vec<GraphKey> = Vec::new();
        deps.push(body);
        let mut i: usize = 0;
        assert(params@.take(0) =~= Seq::<(Identifier, Type, Option<GraphKey>)>::empty());
        while i < params.len()
            invariant
                i <= params@.len(),
                deps@ == function_deps(body, params@.take(i as int)),
            decreases params@.len() - i,
        {
            assert(params@.take(i + 1).drop_last() =~= params@.take(i as int));
            match &params[i].2 {
                Some(dk) => {
                    deps.push(*dk);
                },
                None => {},
            }
            i += 1;
        }
        assert(params@.take(i as int) =~= params@);
        let mut n = self.take_node(key);
        let mut old_kind = NodeKind::Todo;
        std::mem::swap(&mut old_kind, &mut n.kind);
        n.kind = match old_kind {
            NodeKind::Function { name, public, params: _, ret, body: _, capabilities } => {
                NodeKind::Function { name, public, params, ret, body, capabilities }
            },
            other => other,
        };
        n.deps = deps;
        self.put_node(key, n);
        assert(self.nodes().dom().finite());
    }

    /// Registers `key` as the function named `name`, replacing an earlier
    /// registration of the name.
    pub fn register_function(&mut self, name: String, key: GraphKey)
        requires
            old(self).wf(),
        ensures
            final(self).wf(),
            final(self).functions() == old(self).functions().insert(name@, key),
            final(self).nodes() == old(self).nodes(),
            final(self).identifier_ids() == old(self).identifier_ids(),
            final(self).id_counter() == old(self).id_counter(),
            final(self).entry() == old(self).entry(),
            final(self).blocks() == old(self).blocks(),
            final(self).cells() == old(self).cells(),
    {
        let ghost t = self.functions@;
        let mut i: usize = 0;
        while i < self.functions.len()
            invariant
                i <= self.functions@.len(),
                t == self.functions@,
                *self == *old(self),
                old(self).wf(),
                forall|j: int| 0 <= j < i ==> (#[trigger] t[j]).0@ != name@,
            decreases self.functions@.len() - i,
        {
            if crate::text::str_eq(self.functions[i].0.as_str(), name.as_str()) {
                let ghost n0 = t[i as int].0;
                self.functions.set(i, (name, key));
                proof {
                    let u = t.update(i as int, (n0, key));
                    lemma_table_map_update(t, i as int, key);
                    assert forall|j: int| 0 <= j < self.functions@.len() implies (
                    #[trigger] self.functions@[j]).0@ == u[j].0@ && self.functions@[j].1 == u[j].1 by {
                        if j != i {
                            assert(self.functions@[j] == t[j]);
                        }
                    }
                    lemma_table_map_same_names(self.functions@, u);
                    assert(names_unique(self.functions@)) by {
                        assert forall|a: int, b: int|
                            0 <= a < t.len() && 0 <= b < t.len() && a != b implies (
                            #[trigger] self.functions@[a]).0@ != (#[trigger] self.functions@[b]).0@ by {
                            assert(u[a].0@ == self.functions@[a].0@);
                            assert(u[b].0@ == self.functions@[b].0@);
                        }
                    }
                }
                return;
            }
            i += 1;
        }
        proof {
            lemma_table_map_absent(t, name@);
        }
        let ghost e = (name, key);
        self.functions.push((name, key));
        proof {
            lemma_table_map_push(t, e);
        }
    }

    /// The node of the function named `name`, if one is registered (the
    /// registered key must name a node).
    pub fn lookup_function(&self, name: &str) -> (r: Option<&Node>)
        requires
            self.wf(),
            self.functions().contains_key(name@) ==> self.has(self.functions()[name@]),
        ensures
            match self.functions().get(name@) {
                Some(k) => (r matches Some(n) && *n == self.node(k)),
                None => r is None,
            },
    {
        match self.lookup_function_key(name) {
            Some(k) => Some(self.get_node(k)),
            None => None,
        }
    }

    /// The key of the function named `name`, if one is registered.
    pub fn lookup_function_key(&self, name: &str) -> (r: Option<GraphKey>)
        requires
            self.wf(),
        ensures
            r == self.functions().get(name@),
    {
        let mut i: usize = 0;
        while i < self.functions.len()
            invariant
                i <= self.functions@.len(),
                self.wf(),
                forall|j: int| 0 <= j < i ==> (#[trigger] self.functions@[j]).0@ != name@,
            decreases self.functions@.len() - i,
        {
            if crate::text::str_eq(self.functions[i].0.as_str(), name) {
                proof {
                    lemma_table_map_unique_index(self.functions@, i as int);
                }
                return Some(self.functions[i].1);
            }
            i += 1;
        }
        proof {
            lemma_table_map_absent(self.functions@, name@);
        }
        None
    }

    /// The keys of all registered functions, in registration order.
    pub fn function_keys(&self) -> (r: Vec<GraphKey>)
        requires
            self.wf(),
        ensures
            r@.len() == self.functions().len(),
            forall|k: GraphKey| r@.contains(k) <==> self.functions().values().contains(k),
    {
        let mut r: Vec<GraphKey> = Vec::new();
        let mut i: usize = 0;
        while i < self.functions.len()
            invariant
                i <= self.functions@.len(),
                r@ == self.functions@.take(i as int).map_values(|e: (String, GraphKey)| e.1),
            decreases self.functions@.len() - i,
        {
            r.push(self.functions[i].1);
            assert(self.functions@.take(i + 1).map_values(|e: (String, GraphKey)| e.1) =~= self.functions@.take(
                i as int,
            ).map_values(|e: (String, GraphKey)| e.1).push(self.functions@[i as int].1));
            i += 1;
        }
        assert(self.functions@.take(i as int) =~= self.functions@);
        proof {
            lemma_table_map_values(self.functions@);
        }
        r
    }

    /// The keys of all nodes, each once.
    pub fn all_keys(&self) -> (r: Vec<GraphKey>)
        ensures
            forall|k: GraphKey| r@.contains(k) <==> self.nodes().contains_key(k.0),
            r@.no_duplicates(),
    {
        let ks = slots_keys(&self.nodes);
        let mut r: Vec<GraphKey> = Vec::new();
        let mut i: usize = 0;
        while i < ks.len()
            invariant
                i <= ks@.len(),
                ks@.no_duplicates(),
                r@ == ks@.take(i as int).map_values(|x: u64| GraphKey(x)),
            decreases ks@.len() - i,
        {
            r.push(GraphKey(ks[i]));
            assert(ks@.take(i + 1).map_values(|x: u64| GraphKey(x)) =~= ks@.take(i as int).map_values(
                |x: u64| GraphKey(x),
            ).push(GraphKey(ks@[i as int])));
            i += 1;
        }
        assert(ks@.take(i as int) =~= ks@);
        assert forall|k: GraphKey| r@.contains(k) <==> self.nodes().contains_key(k.0) by {
            if r@.contains(k) {
                let j = choose|j: int| 0 <= j < r@.len() && r@[j] == k;
                assert(ks@.to_set().contains(ks@[j]));
            }
            if self.nodes().contains_key(k.0) {
                assert(ks@.to_set().contains(k.0));
                let j = choose|j: int| 0 <= j < ks@.len() && ks@[j] == k.0;
                assert(r@[j] == k);
            }
        }
        assert(r@.no_duplicates()) by {
            assert forall|a: int, b: int| 0 <= a < r@.len() && 0 <= b < r@.len() && a != b implies r@[a]
                != r@[b] by {
                assert(ks@[a] != ks@[b]);
            }
        }
        r
    }

    /// Records the statement layout of a converted block under its root.
    pub fn set_block_info(&mut self, root: GraphKey, info: BlockInfo)
        ensures
            final(self).blocks() == old(self).blocks().insert(root.0, info),
            final(self).nodes() == old(self).nodes(),
            final(self).functions() == old(self).functions(),
            final(self).identifier_ids() == old(self).identifier_ids(),
            final(self).wf() == old(self).wf(),
            final(self).id_counter() == old(self).id_counter(),
            final(self).entry() == old(self).entry(),
            final(self).cells() == old(self).cells(),
    {
        self.block_info.insert(root.0, info);
    }

    /// The statement layout recorded for a block root, if any.
    pub fn block_info(&self, key: GraphKey) -> (r: Option<&BlockInfo>)
        ensures
            match self.blocks().get(key.0) {
                Some(b) => (r matches Some(x) && *x == b),
                None => r is None,
            },
    {
        self.block_info.get(&key.0)
    }

    /// Records which parameter cells belong to a function.
    pub fn set_param_cells(&mut self, func: GraphKey, cells: Vec<GraphKey>)
        ensures
            final(self).cells() == old(self).cells().insert(func.0, cells),
            final(self).nodes() == old(self).nodes(),
            final(self).functions() == old(self).functions(),
            final(self).identifier_ids() == old(self).identifier_ids(),
            final(self).wf() == old(self).wf(),
            final(self).id_counter() == old(self).id_counter(),
            final(self).entry() == old(self).entry(),
            final(self).blocks() == old(self).blocks(),
    {
        self.param_cells.insert(func.0, cells);
    }

    /// The parameter cells recorded for a function, if any.
    pub fn param_cells(&self, func: GraphKey) -> (r: Option<&Vec<GraphKey>>)
        ensures
            match self.cells().get(func.0) {
                Some(c) => (r matches Some(x) && *x == c),
                None => r is None,
            },
    {
        self.param_cells.get(&func.0)
    }

    /// The binding names that were recorded for more than one node, with
    /// their ids, in the order the names were first recorded.
    pub fn check_uniqueness(&self) -> (r: Vec<(String, Vec<u64>)>)
        ensures
            r@.map_values(|e: (String, Vec<u64>)| (e.0@, e.1@)) == duplicated(self.identifier_table()),
    {
        let mut r: Vec<(String, Vec<u64>)> = Vec::new();
        let mut i: usize = 0;
        assert(self.identifier_table().take(0) =~= Seq::<(Seq<char>, Seq<u64>)>::empty());
        assert(r@.map_values(|e: (String, Vec<u64>)| (e.0@, e.1@)) =~= Seq::<(Seq<char>, Seq<u64>)>::empty());
        while i < self.identifiers.len()
            invariant
                i <= self.identifiers@.len(),
                r@.map_values(|e: (String, Vec<u64>)| (e.0@, e.1@)) == duplicated(
                    self.identifier_table().take(i as int),
                ),
            decreases self.identifiers@.len() - i,
        {
            assert(self.identifier_table().take(i + 1).drop_last() =~= self.identifier_table().take(i as int));
            assert(self.identifier_table().take(i + 1).last() == (self.identifiers@[i as int].0@, self.identifiers@[i as int].1@));
            let e = &self.identifiers[i];
            if e.1.len() > 1 {
                let ghost before = r@.map_values(|e: (String, Vec<u64>)| (e.0@, e.1@));
                let ids = e.1.clone();
                assert(ids@ =~= e.1@);
                r.push((e.0.clone(), ids));
                assert(r@.map_values(|e: (String, Vec<u64>)| (e.0@, e.1@)) =~= before.push((e.0@, e.1@)));
            }
            i += 1;
        }
        assert(self.identifier_table().take(i as int) =~= self.identifier_table());
        r
    }
}

proof fn lemma_table_map_same_names<V>(a: Seq<(String, V)>, b: Seq<(String, V)>)
    requires
        a.len() == b.len(),
        forall|i: int| 0 <= i < a.len() ==> (#[trigger] a[i]).0@ == b[i].0@ && a[i].1 == b[i].1,
    ensures
        table_map(a) == table_map(b),
    decreases a.len(),
{
    if a.len() > 0 {
        assert forall|i: int| 0 <= i < a.len() - 1 implies (#[trigger] a.drop_last()[i]).0@ == b.drop_last()[i].0@
            && a.drop_last()[i].1 == b.drop_last()[i].1 by {
            assert(a.drop_last()[i] == a[i]);
            assert(b.drop_last()[i] == b[i]);
        }
        lemma_table_map_same_names(a.drop_last(), b.drop_last());
    }
}

proof fn lemma_table_map_values<V>(t: Seq<(String, V)>)
    requires
        names_unique(t),
    ensures
        table_map(t).len() == t.len(),
        table_map(t).dom().finite(),
        forall|v: V|
            t.map_values(|e: (String, V)| e.1).contains(v) <==> table_map(t).values().contains(v),
    decreases t.len(),
{
    if t.len() > 0 {
        let u = t.drop_last();
        assert(names_unique(u)) by {
            assert forall|a: int, b: int|
                0 <= a < u.len() && 0 <= b < u.len() && a != b implies (#[trigger] u[a]).0@ != (
                #[trigger] u[b]).0@ by {
                assert(u[a] == t[a] && u[b] == t[b]);
            }
        }
        lemma_table_map_values(u);
        assert forall|i: int| 0 <= i < u.len() implies (#[trigger] u[i]).0@ != t.last().0@ by {
            assert(u[i] == t[i]);
        }
        lemma_table_map_absent(u, t.last().0@);
        let m = table_map(t);
        assert forall|v: V|
            t.map_values(|e: (String, V)| e.1).contains(v) <==> m.values().contains(v) by {
            let tv = t.map_values(|e: (String, V)| e.1);
            let uv = u.map_values(|e: (String, V)| e.1);
            assert(tv =~= uv.push(t.last().1));
            if tv.contains(v) {
                let j = choose|j: int| 0 <= j < tv.len() && tv[j] == v;
                if j == tv.len() - 1 {
                    assert(m.contains_key(t.last().0@) && m[t.last().0@] == v);
                } else {
                    assert(uv[j] == v);
                    assert(uv.contains(v));
                    assert(table_map(u).values().contains(v));
                    let k = choose|k: Seq<char>| table_map(u).contains_key(k) && table_map(u)[k] == v;
                    assert(k != t.last().0@);
                    assert(m.contains_key(k) && m[k] == v);
                }
                assert(m.values().contains(v));
            }
            if m.values().contains(v) {
                let k = choose|k: Seq<char>| m.contains_key(k) && m[k] == v;
                if k == t.last().0@ {
                    assert(tv[tv.len() - 1] == v);
                } else {
                    assert(table_map(u).contains_key(k) && table_map(u)[k] == v);
                    assert(table_map(u).values().contains(v));
                    assert(uv.contains(v));
                    let j = choose|j: int| 0 <= j < uv.len() && uv[j] == v;
                    assert(tv[j] == v);
                }
                assert(tv.contains(v));
            }
        }
    } else {
        assert(table_map(t) =~= Map::<Seq<char>, V>::empty());
    }
}


impl KnowledgeGraph {
    /// A mutable reference to the node under `key` (the key must name a
    /// node); whatever is written through it becomes that node.
    pub fn get_node_mut(&mut self, key: GraphKey) -> (n: &mut Node)
        requires
            old(self).has(key),
        ensures
            *n == old(self).node(key),
            final(self).nodes() == old(self).nodes().insert(canon(key.0), *final(n)),
            final(self).wf() == old(self).wf(),
            final(self).functions() == old(self).functions(),
            final(self).identifier_ids() == old(self).identifier_ids(),
            final(self).id_counter() == old(self).id_counter(),
            final(self).entry() == old(self).entry(),
            final(self).blocks() == old(self).blocks(),
            final(self).cells() == old(self).cells(),
    {
        proof {
            assert(old(self).nodes().insert(canon(key.0), old(self).node(key)).dom() =~= old(self).nodes().dom());
        }
        slots_get_mut(&mut self.nodes, key.0)
    }
}

impl KnowledgeGraph {
    /// Hands out the next identifier id.
    pub fn fresh_id(&mut self) -> (id: u64)
        requires
            old(self).id_counter() < u64::MAX,
        ensures
            id == old(self).id_counter(),
            final(self).id_counter() == id + 1,
            final(self).wf() == old(self).wf(),
            final(self).nodes() == old(self).nodes(),
            final(self).functions() == old(self).functions(),
            final(self).identifier_ids() == old(self).identifier_ids(),
            final(self).entry() == old(self).entry(),
            final(self).blocks() == old(self).blocks(),
            final(self).cells() == old(self).cells(),
    {
        let id = self.next_id;
        self.next_id = id + 1;
        id
    }

    /// The next identifier id, without handing it out.
    pub fn peek_id(&self) -> (id: u64)
        ensures
            id == self.id_counter(),
    {
        self.next_id
    }
}

impl KnowledgeGraph {
    /// The number of nodes.
    pub fn num_nodes(&self) -> (n: usize)
        ensures
            n == self.node_count(),
    {
        slots_len(&self.nodes)
    }
}

/// Adds a placeholder node for "no definition" cases and returns its key.
pub fn invalid_key(graph: &mut KnowledgeGraph) -> (k: GraphKey)
    requires
        old(graph).wf(),
        old(graph).node_count() < u32::MAX - 1,
        old(graph).id_counter() < u64::MAX,
    ensures
        final(graph).wf(),
        !old(graph).has(k),
        canon(k.0) == k.0,
        final(graph).has(k),
        final(graph).node(k).kind == NodeKind::Literal(LiteralValue::Int { value: 0, width: IntWidth::B64, signed: true }),
        final(graph).node(k).type_ == Type::Numeric(NumericType::Int(IntWidth::B64)),
        final(graph).node(k).knowledge == KnowledgeState::Known,
        final(graph).node(k).deps@.len() == 0,
        final(graph).node(k).provenance == Provenance::Inferred,
        final(graph).node(k).doc_comments is None,
        final(graph).nodes() == old(graph).nodes().insert(k.0, final(graph).node(k)),
        final(graph).id_counter() == old(graph).id_counter() + 1,
        final(graph).identifier_ids() == old(graph).identifier_ids(),
        final(graph).functions() == old(graph).functions(),
        final(graph).entry() == old(graph).entry(),
        final(graph).blocks() == old(graph).blocks(),
        final(graph).cells() == old(graph).cells(),
{
    let n = NodeKind::Literal(LiteralValue::Int { value: 0, width: IntWidth::B64, signed: true });
    graph.add_node(
        n,
        Type::Numeric(NumericType::Int(IntWidth::B64)),
        KnowledgeState::Known,
        Vec::new(),
        HashSet::new(),
        HashSet::new(),
        Provenance::Inferred,
        Span::unknown(),
    )
}

// ─── Reachability ──────────────────────────────────────────────────

impl KnowledgeGraph {
    /// There is a dependency edge from `u` to `v`: the graph holds a node
    /// under `u` and `v` is one of its dependencies.
    pub open spec fn edge(&self, u: GraphKey, v: GraphKey) -> bool {
        self.has(u) && self.node(u).deps@.contains(v)
    }

    /// Step `i` of `p` follows a dependency edge.
    pub open spec fn link(&self, p: Seq<GraphKey>, i: int) -> bool {
        self.edge(p[i], p[i + 1])
    }

    /// `p` is a non-empty walk along dependency edges.
    pub open spec fn is_path(&self, p: Seq<GraphKey>) -> bool {
        &&& p.len() >= 1
        &&& forall|i: int| 0 <= i < p.len() - 1 ==> #[trigger] self.link(p, i)
    }

    /// `k` can be reached from `start` by following dependency edges
    /// (every key reaches itself).
    pub open spec fn reaches(&self, start: GraphKey, k: GraphKey) -> bool {
        exists|p: Seq<GraphKey>| #[trigger] self.is_path(p) && p[0] == start && p.last() == k
    }

    /// The nodes (by canonical key) of the keys in `s` that name a node.
    pub open spec fn expanded(&self, s: Seq<GraphKey>) -> Set<u64> {
        Set::new(|c: u64| exists|j: int| 0 <= j < s.len() && self.has(s[j]) && canon(s[j].0) == c)
    }

    proof fn lemma_path_push(&self, p: Seq<GraphKey>, v: GraphKey)
        requires
            self.is_path(p),
            self.edge(p.last(), v),
        ensures
            self.is_path(p.push(v)),
            p.push(v)[0] == p[0],
            p.push(v).last() == v,
    {
        let q = p.push(v);
        assert forall|i: int| 0 <= i < q.len() - 1 implies #[trigger] self.link(q, i) by {
            if i < p.len() - 1 {
                assert(self.link(p, i));
                assert(q[i] == p[i] && q[i + 1] == p[i + 1]);
            } else {
                assert(q[i] == p.last());
            }
        }
    }

    proof fn lemma_closed_contains_paths(&self, r: Seq<GraphKey>, p: Seq<GraphKey>)
        requires
            self.is_path(p),
            r.contains(p[0]),
            forall|j: int, v: GraphKey| 0 <= j < r.len() && #[trigger] self.edge(r[j], v) ==> r.contains(v),
        ensures
            r.contains(p.last()),
        decreases p.len(),
    {
        if p.len() > 1 {
            let q = p.drop_last();
            assert forall|i: int| 0 <= i < q.len() - 1 implies #[trigger] self.link(q, i) by {
                assert(self.link(p, i));
            }
            self.lemma_closed_contains_paths(r, q);
            assert(self.link(p, p.len() - 2));
            let j = choose|j: int| 0 <= j < r.len() && r[j] == q.last();
            assert(self.edge(r[j], p.last()));
        }
    }

    proof fn lemma_expanded_bound(&self, s: Seq<GraphKey>)
        requires
            self.wf(),
        ensures
            self.expanded(s).subset_of(self.nodes().dom()),
            self.expanded(s).finite(),
            self.expanded(s).len() <= self.nodes().dom().len(),
    {
        vstd::set_lib::lemma_len_subset(self.expanded(s), self.nodes().dom());
    }

    /// All keys reachable from `start` along dependency edges, each once,
    /// `start` first, in breadth-first order.
    #[verifier::spinoff_prover]
    #[verifier::rlimit(40)]
    pub fn reachable(&self, start: GraphKey) -> (r: Vec<GraphKey>)
        requires
            self.wf(),
        ensures
            r@.no_duplicates(),
            r@.len() >= 1,
            r@[0] == start,
            forall|k: GraphKey| r@.contains(k) <==> self.reaches(start, k),
    {
        let mut r: Vec<GraphKey> = Vec::new();
        r.push(start);
        proof {
            assert(self.is_path(seq![start]));
            assert(r@.contains(start) ==> self.reaches(start, start));
            assert forall|k: GraphKey| r@.contains(k) implies self.reaches(start, k) by {
                assert(r@[0] == k);
                assert(self.is_path(seq![start]));
            }
        }
        let mut head: usize = 0;
        while head < r.len()
            invariant
                self.wf(),
                head <= r@.len(),
                r@.len() >= 1,
                r@[0] == start,
                r@.no_duplicates(),
                forall|k: GraphKey| r@.contains(k) ==> self.reaches(start, k),
                forall|j: int, v: GraphKey|
                    0 <= j < head && #[trigger] self.edge(r@[j], v) ==> r@.contains(v),
            decreases
                self.nodes().dom().len() - self.expanded(r@.take(head as int)).len(),
                r@.len() - head,
        {
            let key = r[head];
            let ghost before = r@;
            let ghost seen = self.expanded(before.take(head as int));
            proof {
                self.lemma_expanded_bound(before.take(head as int));
            }
            match self.get_node_checked(key) {
                Some(node) => {
                    let ghost again = seen.contains(canon(key.0));
                    proof {
                        if again {
                            let s0 = before.take(head as int);
                            let j = choose|j: int| 0 <= j < s0.len() && self.has(#[trigger] s0[j]) && canon(s0[j].0) == canon(key.0);
                            assert(before[j] == s0[j]);
                            assert forall|v: GraphKey| node.deps@.contains(v) implies before.contains(v) by {
                                assert(self.edge(before[j], v));
                            }
                        }
                    }
                    let mut i: usize = 0;
                    while i < node.deps.len()
                        invariant
                            self.wf(),
                            *node == self.node(key),
                            self.has(key),
                            self.reaches(start, key),
                            i <= node.deps@.len(),
                            r@.len() >= before.len(),
                            r@.take(before.len() as int) == before,
                            r@.no_duplicates(),
                            forall|k: GraphKey| r@.contains(k) ==> self.reaches(start, k),
                            forall|i2: int| 0 <= i2 < i ==> r@.contains(#[trigger] node.deps@[i2]),
                            again ==> forall|v: GraphKey| node.deps@.contains(v) ==> before.contains(v),
                            again ==> r@ == before,
                        decreases node.deps@.len() - i,
                    {
                        let d = node.deps[i];
                        if !key_listed(&r, d) {
                            let ghost prev = r@;
                            r.push(d);
                            proof {
                                if again {
                                    assert(node.deps@[i as int] == d);
                                    assert(before.contains(d));
                                }
                                assert(r@.take(before.len() as int) =~= prev.take(before.len() as int));
                                let p = choose|p: Seq<GraphKey>| #[trigger] self.is_path(p) && p[0] == start
                                    && p.last() == key;
                                assert(node.deps@[i as int] == d);
                                assert(self.edge(p.last(), d));
                                self.lemma_path_push(p, d);
                                assert forall|k: GraphKey| r@.contains(k) implies self.reaches(start, k) by {
                                    if k != d {
                                        let j = choose|j: int| 0 <= j < r@.len() && r@[j] == k;
                                        assert(prev[j] == k);
                                    } else {
                                        assert(self.is_path(p.push(d)));
                                    }
                                }
                                assert forall|i2: int| 0 <= i2 < i + 1 implies r@.contains(
                                    #[trigger] node.deps@[i2],
                                ) by {
                                    if i2 < i {
                                        let j = choose|j: int| 0 <= j < prev.len() && prev[j] == node.deps@[i2];
                                        assert(r@[j] == prev[j]);
                                    } else {
                                        assert(r@[prev.len() as int] == d);
                                    }
                                }
                            }
                        } else {
                            proof {
                                assert(node.deps@[i as int] == d);
                            }
                        }
                        i += 1;
                    }
                    proof {
                        assert forall|j: int, v: GraphKey|
                            0 <= j < head + 1 && #[trigger] self.edge(r@[j], v) implies r@.contains(v) by {
                            assert(r@[j] == before[j]);
                            if j < head {
                                assert(before.contains(v));
                                let jj = choose|jj: int| 0 <= jj < before.len() && before[jj] == v;
                                assert(r@[jj] == before[jj]);
                            } else {
                                let i2 = choose|i2: int| 0 <= i2 < node.deps@.len() && node.deps@[i2] == v;
                                assert(r@.contains(node.deps@[i2]));
                            }
                        }
                    }
                },
                None => {
                    proof {
                        assert forall|j: int, v: GraphKey|
                            0 <= j < head + 1 && #[trigger] self.edge(r@[j], v) implies r@.contains(v) by {
                            if j == head {
                                assert(!self.has(key));
                            }
                        }
                    }
                },
            }
            proof {
                let s0 = before.take(head as int);
                let s1 = r@.take(head + 1);
                assert(r@.take(head as int) =~= s0);
                assert(s1 =~= s0.push(key));
                let now = self.expanded(s1);
                self.lemma_expanded_bound(s1);
                if self.has(key) {
                    assert(now =~= seen.insert(canon(key.0))) by {
                        assert forall|c: u64| now.contains(c) implies seen.insert(canon(key.0)).contains(c) by {
                            let j = choose|j: int| 0 <= j < s1.len() && self.has(#[trigger] s1[j]) && canon(s1[j].0) == c;
                            if j < head {
                                assert(s1[j] == s0[j]);
                            }
                        }
                        assert forall|c: u64| seen.insert(canon(key.0)).contains(c) implies now.contains(c) by {
                            if c == canon(key.0) {
                                assert(s1[head as int] == key);
                            } else {
                                let j = choose|j: int| 0 <= j < s0.len() && self.has(#[trigger] s0[j]) && canon(s0[j].0) == c;
                                assert(s1[j] == s0[j]);
                            }
                        }
                    }
                } else {
                    assert(now =~= seen) by {
                        assert forall|c: u64| now.contains(c) implies seen.contains(c) by {
                            let j = choose|j: int| 0 <= j < s1.len() && self.has(#[trigger] s1[j]) && canon(s1[j].0) == c;
                            assert(j != head);
                            assert(s1[j] == s0[j]);
                        }
                        assert forall|c: u64| seen.contains(c) implies now.contains(c) by {
                            let j = choose|j: int| 0 <= j < s0.len() && self.has(#[trigger] s0[j]) && canon(s0[j].0) == c;
                            assert(s1[j] == s0[j]);
                        }
                    }
                }
            }
            head += 1;
        }
        proof {
            assert forall|k: GraphKey| self.reaches(start, k) implies r@.contains(k) by {
                let p = choose|p: Seq<GraphKey>| #[trigger] self.is_path(p) && p[0] == start && p.last() == k;
                assert(r@[0] == start);
                self.lemma_closed_contains_paths(r@, p);
            }
        }
        r
    }
}

/// `v` holds `k`.
fn key_listed(v: &Vec<GraphKey>, k: GraphKey) -> (b: bool)
    ensures
        b == v@.contains(k),
{
    let mut i: usize = 0;
    while i < v.len()
        invariant
            i <= v@.len(),
            forall|j: int| 0 <= j < i ==> v@[j] != k,
        decreases v@.len() - i,
    {
        if v[i] == k {
            assert(v@[i as int] == k);
            return true;
        }
        i += 1;
    }
    false
}


// ─── Topological order ─────────────────────────────────────────────

/// The number of times `v` occurs in `s`.
pub open spec fn occurrences(s: Seq<GraphKey>, v: GraphKey) -> nat
    decreases s.len(),
{
    if s.len() == 0 {
        0
    } else {
        occurrences(s.drop_last(), v) + if s.last() == v {
            1nat
        } else {
            0nat
        }
    }
}

proof fn lemma_occurrences_step(s: Seq<GraphKey>, j: int, v: GraphKey)
    requires
        0 <= j < s.len(),
    ensures
        occurrences(s.take(j + 1), v) == occurrences(s.take(j), v) + if s[j] == v {
            1nat
        } else {
            0nat
        },
{
    assert(s.take(j + 1).drop_last() =~= s.take(j));
}

proof fn lemma_occurrences_facts(s: Seq<GraphKey>, j: int, v: GraphKey)
    requires
        0 <= j <= s.len(),
    ensures
        occurrences(s.take(j), v) <= occurrences(s, v),
        occurrences(s, v) <= s.len(),
        occurrences(s, v) > 0 <==> s.contains(v),
    decreases s.len(),
{
    if s.len() > 0 {
        let u = s.drop_last();
        if j == s.len() {
            assert(s.take(j) =~= s);
            lemma_occurrences_facts(u, 0, v);
        } else {
            assert(s.take(j) =~= u.take(j));
            lemma_occurrences_facts(u, j, v);
        }
        if s.contains(v) && s.last() != v {
            let i = choose|i: int| 0 <= i < s.len() && s[i] == v;
            assert(u[i] == v);
        }
        if u.contains(v) {
            let i = choose|i: int| 0 <= i < u.len() && u[i] == v;
            assert(s[i] == v);
        }
        if s.last() == v {
            assert(s[s.len() - 1] == v);
        }
    } else {
        assert(s.take(j) =~= s);
    }
}

/// A sequence without repeats whose elements all occur in another sequence
/// without repeats is no longer than it.
proof fn lemma_distinct_within(a: Seq<GraphKey>, b: Seq<GraphKey>)
    requires
        a.no_duplicates(),
        b.no_duplicates(),
        forall|x: GraphKey| a.contains(x) ==> b.contains(x),
    ensures
        a.len() <= b.len(),
{
    a.unique_seq_to_set();
    b.unique_seq_to_set();
    vstd::seq_lib::seq_to_set_is_finite(b);
    assert(a.to_set().subset_of(b.to_set())) by {
        assert forall|x: GraphKey| a.to_set().contains(x) implies b.to_set().contains(x) by {
            assert(a.contains(x));
        }
    }
    vstd::set_lib::lemma_len_subset(a.to_set(), b.to_set());
}

impl KnowledgeGraph {
    /// The dependency-edge occurrences into `v` from those of the first `n`
    /// keys of `keys` that are not in `done`.
    pub open spec fn pending(&self, keys: Seq<GraphKey>, done: Seq<GraphKey>, v: GraphKey, n: int) -> nat
        decreases n,
    {
        if n <= 0 {
            0
        } else {
            self.pending(keys, done, v, n - 1) + if !done.contains(keys[n - 1]) && self.has(keys[n - 1]) {
                occurrences(self.node(keys[n - 1]).deps@, v)
            } else {
                0nat
            }
        }
    }

    /// The walk `p` returns to where it started after at least one edge.
    pub open spec fn is_cycle(&self, p: Seq<GraphKey>) -> bool {
        self.is_path(p) && p.len() >= 2 && p[0] == p.last()
    }

    /// Some cycle passes through a key reachable from `start`.
    pub open spec fn cycle_from(&self, start: GraphKey) -> bool {
        exists|p: Seq<GraphKey>| #[trigger] self.is_cycle(p) && self.reaches(start, p[0])
    }

    #[verifier::spinoff_prover]
    #[verifier::rlimit(40)]
    proof fn lemma_pending_done_push(
        &self,
        keys: Seq<GraphKey>,
        done: Seq<GraphKey>,
        u: GraphKey,
        v: GraphKey,
        n: int,
    )
        requires
            keys.no_duplicates(),
            !done.contains(u),
            0 <= n <= keys.len(),
        ensures
            self.pending(keys, done.push(u), v, n) + (if keys.take(n).contains(u) && self.has(u) {
                occurrences(self.node(u).deps@, v)
            } else {
                0nat
            }) == self.pending(keys, done, v, n),
        decreases n,
    {
        if n > 0 {
            self.lemma_pending_done_push(keys, done, u, v, n - 1);
            let x = keys[n - 1];
            assert(done.push(u).contains(x) <==> done.contains(x) || x == u) by {
                if done.push(u).contains(x) {
                    let i = choose|i: int| 0 <= i < done.push(u).len() && done.push(u)[i] == x;
                    if i < done.len() {
                        assert(done[i] == x);
                    }
                }
                if done.contains(x) {
                    let i = choose|i: int| 0 <= i < done.len() && done[i] == x;
                    assert(done.push(u)[i] == x);
                }
                if x == u {
                    assert(done.push(u)[done.len() as int] == x);
                }
            }
            let tn = keys.take(n);
            let tm = keys.take(n - 1);
            assert(tn.contains(u) <==> tm.contains(u) || x == u) by {
                if tn.contains(u) {
                    let i = choose|i: int| 0 <= i < tn.len() && tn[i] == u;
                    if i < n - 1 {
                        assert(tm[i] == u);
                    }
                }
                if tm.contains(u) {
                    let i = choose|i: int| 0 <= i < tm.len() && tm[i] == u;
                    assert(tn[i] == u);
                }
                if x == u {
                    assert(tn[n - 1] == u);
                }
            }
            if x == u {
                assert(!tm.contains(u)) by {
                    if tm.contains(u) {
                        let i = choose|i: int| 0 <= i < tm.len() && tm[i] == u;
                        assert(keys[i] == keys[n - 1]);
                    }
                }
            }
        }
    }

    proof fn lemma_pending_zero(&self, keys: Seq<GraphKey>, done: Seq<GraphKey>, v: GraphKey, n: int)
        requires
            0 <= n <= keys.len(),
            self.pending(keys, done, v, n) == 0,
        ensures
            forall|i: int| 0 <= i < n && #[trigger] self.edge(keys[i], v) ==> done.contains(keys[i]),
        decreases n,
    {
        if n > 0 {
            self.lemma_pending_zero(keys, done, v, n - 1);
            let x = keys[n - 1];
            if self.edge(x, v) && !done.contains(x) {
                lemma_occurrences_facts(self.node(x).deps@, 0, v);
            }
        }
    }

    proof fn lemma_pending_positive(&self, keys: Seq<GraphKey>, done: Seq<GraphKey>, v: GraphKey, n: int)
        requires
            0 <= n <= keys.len(),
            self.pending(keys, done, v, n) > 0,
        ensures
            exists|i: int| 0 <= i < n && #[trigger] self.edge(keys[i], v) && !done.contains(keys[i]),
        decreases n,
    {
        if n > 0 {
            let x = keys[n - 1];
            if self.pending(keys, done, v, n - 1) > 0 {
                self.lemma_pending_positive(keys, done, v, n - 1);
            } else {
                lemma_occurrences_facts(self.node(x).deps@, 0, v);
                assert(self.edge(keys[n - 1], v));
            }
        }
    }

    proof fn lemma_pending_bound(&self, keys: Seq<GraphKey>, done: Seq<GraphKey>, v: GraphKey, n: int)
        requires
            0 <= n <= keys.len(),
        ensures
            self.pending(keys, done, v, n) <= n * 0x1_0000_0000_0000_0000,
        decreases n,
    {
        if n > 0 {
            self.lemma_pending_bound(keys, done, v, n - 1);
            let x = keys[n - 1];
            if self.has(x) {
                lemma_occurrences_facts(self.node(x).deps@, 0, v);
                assert(self.node(x).deps.len() == self.node(x).deps@.len());
            }
        }
    }

    /// A key that is unfinished (in `keys`, not in `out`) always has an
    /// unfinished predecessor; then a cycle runs through `keys`.
    #[verifier::spinoff_prover]
    #[verifier::rlimit(40)]
    proof fn lemma_unfinished_cycle(&self, keys: Seq<GraphKey>, out: Seq<GraphKey>, v: GraphKey)
        requires
            keys.no_duplicates(),
            keys.contains(v),
            !out.contains(v),
            forall|w: GraphKey|
                #![trigger keys.contains(w), out.contains(w)]
                keys.contains(w) && !out.contains(w) ==> exists|u: GraphKey|
                    keys.contains(u) && !out.contains(u) && #[trigger] self.edge(u, w),
        ensures
            exists|p: Seq<GraphKey>| #[trigger] self.is_cycle(p) && keys.contains(p[0]),
    {
        let m = keys.len() + 1;
        let c = self.back_chain(keys, out, v, m);
        self.lemma_back_chain(keys, out, v, m);
        assert(c.len() == m);
        assert(forall|t: int| 0 <= t < m ==> keys.contains(#[trigger] c[t]));
        assert(forall|t: int| 0 <= t < m - 1 ==> #[trigger] self.chain_step(c, t));
        assert(!c.no_duplicates()) by {
            if c.no_duplicates() {
                assert forall|x: GraphKey| c.contains(x) implies keys.contains(x) by {
                    let t = choose|t: int| 0 <= t < c.len() && c[t] == x;
                    assert(keys.contains(c[t]));
                }
                lemma_distinct_within(c, keys);
            }
        }
        let (i, j) = choose|i: int, j: int| 0 <= i < c.len() && 0 <= j < c.len() && i != j && c[i] == c[j];
        if i < j {
            self.lemma_repeat_cycle(c, i, j);
            assert(keys.contains(c[j]));
        } else {
            self.lemma_repeat_cycle(c, j, i);
            assert(keys.contains(c[i]));
        }
    }

    #[verifier::spinoff_prover]
    #[verifier::rlimit(40)]
    proof fn lemma_repeat_cycle(&self, c: Seq<GraphKey>, a: int, b: int)
        requires
            0 <= a < b < c.len(),
            c[a] == c[b],
            forall|t: int| 0 <= t < c.len() - 1 ==> #[trigger] self.chain_step(c, t),
        ensures
            exists|p: Seq<GraphKey>| #[trigger] self.is_cycle(p) && p[0] == c[b],
    {
        let p = Seq::new((b - a + 1) as nat, |t: int| c[b - t]);
        assert forall|t: int| 0 <= t < p.len() - 1 implies #[trigger] self.link(p, t) by {
            assert(p[t] == c[b - t]);
            assert(p[t + 1] == c[b - t - 1]);
            assert(self.chain_step(c, b - t - 1));
        }
        assert(p[0] == c[b]);
        assert(p.last() == c[a]);
        assert(self.is_cycle(p));
    }

    /// Step `t` of the backward chain `c` follows an edge into `c[t]`.
    pub open spec fn chain_step(&self, c: Seq<GraphKey>, t: int) -> bool {
        self.edge(c[t + 1], c[t])
    }

    /// A chain of `m` unfinished keys starting at `v`, each followed by an
    /// unfinished predecessor of it.
    pub open spec fn back_chain(&self, keys: Seq<GraphKey>, out: Seq<GraphKey>, v: GraphKey, m: nat) -> Seq<GraphKey>
        decreases m,
    {
        if m <= 1 {
            seq![v]
        } else {
            let c = self.back_chain(keys, out, v, (m - 1) as nat);
            let w = c.last();
            let u = choose|u: GraphKey| keys.contains(u) && !out.contains(u) && self.edge(u, w);
            c.push(u)
        }
    }

    #[verifier::spinoff_prover]
    #[verifier::rlimit(40)]
    proof fn lemma_back_chain(&self, keys: Seq<GraphKey>, out: Seq<GraphKey>, v: GraphKey, m: nat)
        requires
            m >= 1,
            keys.contains(v),
            !out.contains(v),
            forall|w: GraphKey|
                #![trigger keys.contains(w), out.contains(w)]
                keys.contains(w) && !out.contains(w) ==> exists|u: GraphKey|
                    keys.contains(u) && !out.contains(u) && #[trigger] self.edge(u, w),
        ensures
            self.back_chain(keys, out, v, m).len() == m,
            self.back_chain(keys, out, v, m)[0] == v,
            forall|t: int| 0 <= t < m ==> keys.contains(#[trigger] self.back_chain(keys, out, v, m)[t]),
            forall|t: int| 0 <= t < m ==> !out.contains(#[trigger] self.back_chain(keys, out, v, m)[t]),
            forall|t: int| 0 <= t < m - 1 ==> #[trigger] self.chain_step(self.back_chain(keys, out, v, m), t),
        decreases m,
    {
        if m > 1 {
            let mm = (m - 1) as nat;
            self.lemma_back_chain(keys, out, v, mm);
            let c = self.back_chain(keys, out, v, mm);
            let w = c.last();
            assert(keys.contains(c[mm - 1]) && !out.contains(c[mm - 1]));
            assert(exists|u: GraphKey| keys.contains(u) && !out.contains(u) && #[trigger] self.edge(u, w));
            let u = choose|u: GraphKey| keys.contains(u) && !out.contains(u) && self.edge(u, w);
            let d = self.back_chain(keys, out, v, m);
            assert(d == c.push(u));
            assert forall|t: int| 0 <= t < m - 1 implies #[trigger] self.chain_step(d, t) by {
                if t < mm - 1 {
                    assert(self.chain_step(c, t));
                    assert(d[t] == c[t] && d[t + 1] == c[t + 1]);
                } else {
                    assert(d[t] == w && d[t + 1] == u);
                }
            }
            assert forall|t: int| 0 <= t < m implies keys.contains(#[trigger] d[t]) && !out.contains(d[t]) by {
                if t < mm {
                    assert(d[t] == c[t]);
                }
            }
        }
    }
}

impl KnowledgeGraph {
    /// The keys reachable from `start`, ordered so that every node comes
    /// before its dependencies (Kahn's algorithm over the reachable part of
    /// the graph; each node is emitted once all nodes that depend on it
    /// have been). Keys on a dependency cycle, or behind one, are never
    /// emitted; when no cycle is reachable, every reachable key is.
    #[verifier::spinoff_prover]
    #[verifier::rlimit(40)]
    pub fn topological_order(&self, start: GraphKey) -> (r: Vec<GraphKey>)
        requires
            self.wf(),
        ensures
            r@.no_duplicates(),
            forall|k: GraphKey| r@.contains(k) ==> self.reaches(start, k),
            forall|j: int, u: GraphKey|
                0 <= j < r@.len() && self.reaches(start, u) && #[trigger] self.edge(u, r@[j])
                    ==> r@.take(j).contains(u),
            !self.cycle_from(start) ==> forall|k: GraphKey| self.reaches(start, k) ==> r@.contains(k),
    {
        let keys = self.reachable(start);
        let n = keys.len();
        let ghost none: Seq<GraphKey> = Seq::empty();
        let mut deg: Vec<u128> = Vec::new();
        let mut t: usize = 0;
        while t < n
            invariant
                t <= n,
                n == keys@.len(),
                deg@.len() == t,
                forall|x: int| 0 <= x < t ==> #[trigger] deg@[x] == self.pending(keys@, none, keys@[x], 0),
            decreases n - t,
        {
            deg.push(0);
            t += 1;
        }
        // Count, for each reachable key, the dependency edges into it.
        let mut i: usize = 0;
        while i < n
            invariant
                self.wf(),
                n == keys@.len(),
                keys@.no_duplicates(),
                i <= n,
                deg@.len() == n,
                none == Seq::<GraphKey>::empty(),
                forall|x: int| 0 <= x < n ==> #[trigger] deg@[x] == self.pending(keys@, none, keys@[x], i as int),
            decreases n - i,
        {
            let key = keys[i];
            assert(!none.contains(key));
            match self.get_node_checked(key) {
                Some(node) => {
                    let mut j: usize = 0;
                    while j < node.deps.len()
                        invariant
                            self.wf(),
                            n == keys@.len(),
                            keys@.no_duplicates(),
                            i < n,
                            key == keys@[i as int],
                            self.has(key),
                            *node == self.node(key),
                            !none.contains(key),
                            j <= node.deps@.len(),
                            deg@.len() == n,
                            forall|x: int|
                                0 <= x < n ==> #[trigger] deg@[x] == self.pending(keys@, none, keys@[x], i as int)
                                    + occurrences(node.deps@.take(j as int), keys@[x]),
                        decreases node.deps@.len() - j,
                    {
                        let d = node.deps[j];
                        let ghost before = deg@;
                        proof {
                            assert forall|x: int| 0 <= x < n implies occurrences(node.deps@.take(j + 1), keys@[x])
                                == occurrences(node.deps@.take(j as int), keys@[x]) + if d == keys@[x] {
                                1nat
                            } else {
                                0nat
                            } by {
                                lemma_occurrences_step(node.deps@, j as int, keys@[x]);
                            }
                        }
                        match position_of(&keys, d) {
                            Some(x) => {
                                proof {
                                    lemma_occurrences_facts(node.deps@, j + 1, d);
                                    self.lemma_pending_bound(keys@, none, d, i + 1);
                                    assert(self.pending(keys@, none, d, i + 1) == self.pending(keys@, none, d, i as int)
                                        + occurrences(node.deps@, d));
                                    assert(deg@[x as int] + 1 <= (i + 1) * 0x1_0000_0000_0000_0000);
                                    assert((i + 1) * 0x1_0000_0000_0000_0000 <= 0xffff_ffff_ffff_ffff * 0x1_0000_0000_0000_0000);
                                }
                                deg.set(x, deg[x] + 1);
                                proof {
                                    assert forall|y: int| 0 <= y < n implies #[trigger] deg@[y] == self.pending(
                                        keys@,
                                        none,
                                        keys@[y],
                                        i as int,
                                    ) + occurrences(node.deps@.take(j + 1), keys@[y]) by {
                                        if y != x {
                                            assert(keys@[y] != keys@[x as int]);
                                        }
                                    }
                                }
                            },
                            None => {
                                proof {
                                    assert forall|y: int| 0 <= y < n implies #[trigger] deg@[y] == self.pending(
                                        keys@,
                                        none,
                                        keys@[y],
                                        i as int,
                                    ) + occurrences(node.deps@.take(j + 1), keys@[y]) by {
                                        assert(keys@[y] != d);
                                    }
                                }
                            },
                        }
                        j += 1;
                    }
                    proof {
                        assert(node.deps@.take(j as int) =~= node.deps@);
                    }
                },
                None => {},
            }
            i += 1;
        }
        // Start with the keys nothing reachable depends on.
        let mut order: Vec<GraphKey> = Vec::new();
        let mut t: usize = 0;
        while t < n
            invariant
                self.wf(),
                n == keys@.len(),
                keys@.no_duplicates(),
                t <= n,
                deg@.len() == n,
                none == Seq::<GraphKey>::empty(),
                forall|x: int| 0 <= x < n ==> #[trigger] deg@[x] == self.pending(keys@, none, keys@[x], n as int),
                order@.no_duplicates(),
                forall|k: GraphKey| order@.contains(k) ==> keys@.take(t as int).contains(k),
                forall|x: int| 0 <= x < n && order@.contains(keys@[x]) ==> #[trigger] deg@[x] == 0,
                forall|x: int| 0 <= x < t && #[trigger] deg@[x] == 0 ==> order@.contains(keys@[x]),
                forall|k: GraphKey| #[trigger] order@.contains(k) ==> forall|u: GraphKey|
                    keys@.contains(u) ==> !self.edge(u, k),
            decreases n - t,
        {
            if deg[t] == 0 {
                let ghost prev = order@;
                proof {
                    if prev.contains(keys@[t as int]) {
                        let kt = keys@.take(t as int);
                        let y = choose|y: int| 0 <= y < kt.len() && kt[y] == keys@[t as int];
                        assert(keys@[y] == keys@[t as int]);
                    }
                    self.lemma_pending_zero(keys@, none, keys@[t as int], n as int);
                }
                order.push(keys[t]);
                proof {
                    let kt = keys@.take(t as int);
                    let kt1 = keys@.take(t + 1);
                    assert forall|k: GraphKey| order@.contains(k) implies kt1.contains(k) by {
                        let y = choose|y: int| 0 <= y < order@.len() && order@[y] == k;
                        if y < prev.len() {
                            assert(prev[y] == k);
                            assert(prev.contains(k));
                            let z = choose|z: int| 0 <= z < kt.len() && kt[z] == k;
                            assert(kt1[z] == k);
                        } else {
                            assert(kt1[t as int] == k);
                        }
                    }
                    assert forall|x: int| 0 <= x < n && order@.contains(keys@[x]) implies #[trigger] deg@[x] == 0 by {
                        let y = choose|y: int| 0 <= y < order@.len() && order@[y] == keys@[x];
                        if y < prev.len() {
                            assert(prev[y] == keys@[x]);
                        }
                    }
                    assert forall|x: int| 0 <= x < t + 1 && #[trigger] deg@[x] == 0 implies order@.contains(keys@[x]) by {
                        if x < t {
                            let y = choose|y: int| 0 <= y < prev.len() && prev[y] == keys@[x];
                            assert(order@[y] == keys@[x]);
                        } else {
                            assert(order@[prev.len() as int] == keys@[x]);
                        }
                    }
                    assert forall|k: GraphKey| #[trigger] order@.contains(k) implies forall|u: GraphKey|
                        keys@.contains(u) ==> !self.edge(u, k) by {
                        let y = choose|y: int| 0 <= y < order@.len() && order@[y] == k;
                        if y < prev.len() {
                            assert(prev[y] == k);
                            assert(prev.contains(k));
                        } else {
                            assert forall|u: GraphKey| keys@.contains(u) implies !self.edge(u, k) by {
                                let z = choose|z: int| 0 <= z < n && keys@[z] == u;
                                if self.edge(keys@[z], keys@[t as int]) {
                                    assert(!none.contains(keys@[z]));
                                }
                            }
                        }
                    }
                }
            } else {
                proof {
                    let kt = keys@.take(t as int);
                    let kt1 = keys@.take(t + 1);
                    assert forall|k: GraphKey| order@.contains(k) implies kt1.contains(k) by {
                        let z = choose|z: int| 0 <= z < kt.len() && kt[z] == k;
                        assert(kt1[z] == k);
                    }
                }
            }
            t += 1;
        }
        proof {
            assert(keys@.take(n as int) =~= keys@);
            assert(order@.take(0) =~= none);
            lemma_distinct_within(order@, keys@);
            assert forall|pv: int, u: GraphKey|
                0 <= pv < order@.len() && keys@.contains(u) && #[trigger] self.edge(u, order@[pv])
                    implies order@.take(pv).contains(u) by {
                assert(order@.contains(order@[pv]));
            }
        }
        // Emit keys in queue order, releasing dependencies as their last
        // dependent is emitted.
        let mut head: usize = 0;
        while head < order.len()
            invariant
                self.wf(),
                n == keys@.len(),
                keys@.no_duplicates(),
                deg@.len() == n,
                head <= order@.len(),
                order@.len() <= n,
                order@.no_duplicates(),
                forall|k: GraphKey| order@.contains(k) ==> keys@.contains(k),
                forall|x: int| 0 <= x < n && order@.contains(keys@[x]) ==> #[trigger] deg@[x] == 0,
                forall|x: int| 0 <= x < n && #[trigger] deg@[x] == 0 ==> order@.contains(keys@[x]),
                forall|pv: int, u: GraphKey|
                    0 <= pv < order@.len() && keys@.contains(u) && #[trigger] self.edge(u, order@[pv])
                        ==> order@.take(pv).contains(u),
                forall|x: int|
                    0 <= x < n ==> #[trigger] deg@[x] == self.pending(keys@, order@.take(head as int), keys@[x], n as int),
            decreases n - head,
        {
            let u = order[head];
            let ghost done = order@.take(head as int);
            let ghost done2 = order@.take(head + 1);
            proof {
                assert(done2 =~= done.push(u));
                assert(!done.contains(u)) by {
                    if done.contains(u) {
                        let y = choose|y: int| 0 <= y < done.len() && done[y] == u;
                        assert(order@[y] == order@[head as int]);
                    }
                }
                assert(keys@.take(n as int) =~= keys@);
                assert(keys@.contains(u));
                assert forall|v: GraphKey| #![auto] self.pending(keys@, done2, v, n as int) + (if self.has(u) {
                    occurrences(self.node(u).deps@, v)
                } else {
                    0nat
                }) == self.pending(keys@, done, v, n as int) by {
                    self.lemma_pending_done_push(keys@, done, u, v, n as int);
                }
            }
            match self.get_node_checked(u) {
                Some(node) => {
                    let mut j: usize = 0;
                    while j < node.deps.len()
                        invariant
                            self.wf(),
                            n == keys@.len(),
                            keys@.no_duplicates(),
                            deg@.len() == n,
                            head < order@.len(),
                            order@.len() <= n,
                            order@.take(head as int) == done,
                            order@.take(head + 1) == done2,
                            self.has(u),
                            *node == self.node(u),
                            j <= node.deps@.len(),
                            order@.no_duplicates(),
                            forall|k: GraphKey| order@.contains(k) ==> keys@.contains(k),
                            forall|x: int| 0 <= x < n && order@.contains(keys@[x]) ==> #[trigger] deg@[x] == 0,
                            forall|x: int| 0 <= x < n && #[trigger] deg@[x] == 0 ==> order@.contains(keys@[x]),
                            forall|pv: int, w: GraphKey|
                                0 <= pv < order@.len() && keys@.contains(w) && #[trigger] self.edge(w, order@[pv])
                                    ==> order@.take(pv).contains(w),
                            forall|v: GraphKey| #![auto] self.pending(keys@, done2, v, n as int)
                                + occurrences(node.deps@, v) == self.pending(keys@, done, v, n as int),
                            forall|x: int|
                                0 <= x < n ==> #[trigger] deg@[x] + occurrences(node.deps@.take(j as int), keys@[x])
                                    == self.pending(keys@, done, keys@[x], n as int),
                        decreases node.deps@.len() - j,
                    {
                        let d = node.deps[j];
                        proof {
                            assert forall|x: int| 0 <= x < n implies occurrences(node.deps@.take(j + 1), keys@[x])
                                == occurrences(node.deps@.take(j as int), keys@[x]) + if d == keys@[x] {
                                1nat
                            } else {
                                0nat
                            } by {
                                lemma_occurrences_step(node.deps@, j as int, keys@[x]);
                            }
                        }
                        match position_of(&keys, d) {
                            Some(x) => {
                                proof {
                                    lemma_occurrences_facts(node.deps@, j + 1, d);
                                    assert(self.pending(keys@, done2, d, n as int) + occurrences(node.deps@, d)
                                        == self.pending(keys@, done, d, n as int));
                                    assert(deg@[x as int] >= 1);
                                }
                                let ghost prev = order@;
                                let ghost pdeg = deg@;
                                deg.set(x, deg[x] - 1);
                                if deg[x] == 0 {
                                    proof {
                                        assert(!prev.contains(d)) by {
                                            if prev.contains(d) {
                                                assert(pdeg[x as int] == 0);
                                            }
                                        }
                                        assert(self.pending(keys@, done2, d, n as int) == 0);
                                        self.lemma_pending_zero(keys@, done2, d, n as int);
                                    }
                                    order.push(d);
                                    proof {
                                        assert(order@.take(head as int) =~= prev.take(head as int));
                                        assert(order@.take(head + 1) =~= prev.take(head + 1));
                                        assert forall|k: GraphKey| order@.contains(k) implies keys@.contains(k) by {
                                            let y = choose|y: int| 0 <= y < order@.len() && order@[y] == k;
                                            if y < prev.len() {
                                                assert(prev[y] == k);
                                            }
                                        }
                                        assert forall|y: int| 0 <= y < n && order@.contains(keys@[y]) implies #[trigger] deg@[y] == 0 by {
                                            let z = choose|z: int| 0 <= z < order@.len() && order@[z] == keys@[y];
                                            if z < prev.len() {
                                                assert(prev[z] == keys@[y]);
                                                assert(prev.contains(keys@[y]));
                                                assert(y != x);
                                            } else {
                                                assert(keys@[y] == d);
                                            }
                                        }
                                        assert forall|y: int| 0 <= y < n && #[trigger] deg@[y] == 0 implies order@.contains(keys@[y]) by {
                                            if y != x {
                                                assert(pdeg[y] == 0);
                                                let z = choose|z: int| 0 <= z < prev.len() && prev[z] == keys@[y];
                                                assert(order@[z] == keys@[y]);
                                            } else {
                                                assert(order@[prev.len() as int] == keys@[y]);
                                            }
                                        }
                                        assert forall|pv: int, w: GraphKey|
                                            0 <= pv < order@.len() && keys@.contains(w) && #[trigger] self.edge(w, order@[pv])
                                                implies order@.take(pv).contains(w) by {
                                            if pv < prev.len() {
                                                assert(order@[pv] == prev[pv]);
                                                assert(order@.take(pv) =~= prev.take(pv));
                                            } else {
                                                let z = choose|z: int| 0 <= z < n && keys@[z] == w;
                                                assert(self.edge(keys@[z], d));
                                                assert(done2.contains(w));
                                                let q = choose|q: int| 0 <= q < done2.len() && done2[q] == w;
                                                assert(order@.take(pv)[q] == w);
                                            }
                                        }
                                        lemma_distinct_within(order@, keys@);
                                    }
                                } else {
                                    proof {
                                        assert forall|y: int| 0 <= y < n && #[trigger] deg@[y] == 0 implies order@.contains(keys@[y]) by {
                                            assert(y != x);
                                            assert(pdeg[y] == 0);
                                        }
                                        assert forall|y: int| 0 <= y < n && order@.contains(keys@[y]) implies #[trigger] deg@[y] == 0 by {
                                            if y == x {
                                                assert(pdeg[y] == 0);
                                            }
                                        }
                                    }
                                }
                                proof {
                                    assert forall|y: int|
                                        0 <= y < n implies #[trigger] deg@[y] + occurrences(node.deps@.take(j + 1), keys@[y])
                                            == self.pending(keys@, done, keys@[y], n as int) by {
                                        if y != x {
                                            assert(keys@[y] != keys@[x as int]);
                                            assert(deg@[y] == pdeg[y]);
                                        }
                                    }
                                }
                            },
                            None => {
                                proof {
                                    assert forall|y: int|
                                        0 <= y < n implies #[trigger] deg@[y] + occurrences(node.deps@.take(j + 1), keys@[y])
                                            == self.pending(keys@, done, keys@[y], n as int) by {
                                        assert(keys@[y] != d);
                                    }
                                }
                            },
                        }
                        j += 1;
                    }
                    proof {
                        assert(node.deps@.take(j as int) =~= node.deps@);
                    }
                },
                None => {},
            }
            head += 1;
        }
        proof {
            assert(order@.take(head as int) =~= order@);
            assert forall|j: int, u: GraphKey|
                0 <= j < order@.len() && self.reaches(start, u) && #[trigger] self.edge(u, order@[j])
                    implies order@.take(j).contains(u) by {
                assert(keys@.contains(u));
            }
            if !self.cycle_from(start) {
                assert forall|k: GraphKey| self.reaches(start, k) implies order@.contains(k) by {
                    if !order@.contains(k) {
                        assert forall|w: GraphKey|
                            #![trigger keys@.contains(w), order@.contains(w)]
                            keys@.contains(w) && !order@.contains(w) implies exists|u: GraphKey|
                                keys@.contains(u) && !order@.contains(u) && #[trigger] self.edge(u, w) by {
                            let x = choose|x: int| 0 <= x < n && keys@[x] == w;
                            assert(deg@[x] != 0);
                            self.lemma_pending_positive(keys@, order@, w, n as int);
                            let i2 = choose|i2: int| 0 <= i2 < n && #[trigger] self.edge(keys@[i2], w)
                                && !order@.contains(keys@[i2]);
                            assert(keys@.contains(keys@[i2]));
                        }
                        self.lemma_unfinished_cycle(keys@, order@, k);
                        let p = choose|p: Seq<GraphKey>| #[trigger] self.is_cycle(p) && keys@.contains(p[0]);
                        assert(self.reaches(start, p[0]));
                        assert(self.cycle_from(start));
                    }
                }
            }
        }
        order
    }
}

// ─── Remapping keys ────────────────────────────────────────────────

/// `k` sent through the key map `m` (keys it does not map stay as they are).
pub open spec fn map_key(m: Map<u64, u64>, k: GraphKey) -> GraphKey {
    if m.contains_key(k.0) {
        GraphKey(m[k.0])
    } else {
        k
    }
}

/// Each key of `s` sent through `m`.
pub open spec fn map_keys(m: Map<u64, u64>, s: Seq<GraphKey>) -> Seq<GraphKey> {
    s.map_values(|k: GraphKey| map_key(m, k))
}

/// An optional key sent through `m`.
pub open spec fn map_opt(m: Map<u64, u64>, o: Option<GraphKey>) -> Option<GraphKey> {
    match o {
        Some(k) => Some(map_key(m, k)),
        None => None,
    }
}

/// Pairs whose key (second part) is sent through `m`.
pub open spec fn map_tagged<T>(m: Map<u64, u64>, s: Seq<(T, GraphKey)>) -> Seq<(T, GraphKey)> {
    s.map_values(|e: (T, GraphKey)| (e.0, map_key(m, e.1)))
}

/// `b` is `a` with every graph key inside it sent through `m`; everything
/// else is unchanged.
pub open spec fn remapped(a: NodeKind, b: NodeKind, m: Map<u64, u64>) -> bool {
    match a {
        NodeKind::Binding { name, def } => b == NodeKind::Binding { name, def: map_key(m, def) },
        NodeKind::Reference { name, def } => b == NodeKind::Reference { name, def: map_key(m, def) },
        NodeKind::Discard { source } => b == NodeKind::Discard { source: map_key(m, source) },
        NodeKind::Function { name, public, params, ret, body, capabilities } => b matches NodeKind::Function {
            name: n2,
            public: p2,
            params: q2,
            ret: r2,
            body: b2,
            capabilities: c2,
        } && n2 == name && p2 == public && r2 == ret && c2 == capabilities && b2 == map_key(m, body)
            && q2@ == params@.map_values(
            |e: (Identifier, Type, Option<GraphKey>)| (e.0, e.1, map_opt(m, e.2)),
        ),
        NodeKind::Call { func, args } => b matches NodeKind::Call { func: f2, args: a2 } && f2 == map_key(
            m,
            func,
        ) && a2@ == map_keys(m, args@),
        NodeKind::Rt(k) => b == NodeKind::Rt(map_key(m, k)),
        NodeKind::AtResidual { type_, inner } => b == NodeKind::AtResidual { type_, inner: map_key(m, inner) },
        NodeKind::BinaryOp { op, lhs, rhs } => b == NodeKind::BinaryOp {
            op,
            lhs: map_key(m, lhs),
            rhs: map_key(m, rhs),
        },
        NodeKind::UnaryOp { op, operand } => b == NodeKind::UnaryOp { op, operand: map_key(m, operand) },
        NodeKind::Cast { type_, operand } => b == NodeKind::Cast { type_, operand: map_key(m, operand) },
        NodeKind::If { cond, then_branch, else_branch } => b == NodeKind::If {
            cond: map_key(m, cond),
            then_branch: map_key(m, then_branch),
            else_branch: map_opt(m, else_branch),
        },
        NodeKind::While { cond, body } => b == NodeKind::While { cond: map_key(m, cond), body: map_key(m, body) },
        NodeKind::For { init, cond, step, body } => b == NodeKind::For {
            init: map_key(m, init),
            cond: map_key(m, cond),
            step: map_key(m, step),
            body: map_key(m, body),
        },
        NodeKind::ForIn { iter, name, body } => b == NodeKind::ForIn {
            iter: map_key(m, iter),
            name,
            body: map_key(m, body),
        },
        NodeKind::Match { scrutinee, arms, default_arm } => b matches NodeKind::Match {
            scrutinee: s2,
            arms: a2,
            default_arm: d2,
        } && s2 == map_key(m, scrutinee) && a2@ == map_tagged(m, arms@) && d2 == map_opt(m, default_arm),
        NodeKind::Spawn { capabilities, body, ret } => b == NodeKind::Spawn {
            capabilities,
            body: map_key(m, body),
            ret,
        },
        NodeKind::Assert { cond, message } => b == NodeKind::Assert {
            cond: map_key(m, cond),
            message: map_key(m, message),
        },
        NodeKind::RtAssert { cond, message } => b == NodeKind::RtAssert {
            cond: map_key(m, cond),
            message: map_key(m, message),
        },
        NodeKind::Known(k) => b == NodeKind::Known(map_key(m, k)),
        NodeKind::RtKnown(k) => b == NodeKind::RtKnown(map_key(m, k)),
        NodeKind::ComptimePrint(k) => b == NodeKind::ComptimePrint(map_key(m, k)),
        NodeKind::Struct { name, fields } => b matches NodeKind::Struct { name: n2, fields: f2 } && n2 == name
            && f2@ == map_tagged(m, fields@),
        NodeKind::List { elements } => b matches NodeKind::List { elements: e2 } && e2@ == map_keys(
            m,
            elements@,
        ),
        NodeKind::MapOf { entries } => b matches NodeKind::MapOf { entries: e2 } && e2@ == entries@.map_values(
            |e: (GraphKey, GraphKey)| (map_key(m, e.0), map_key(m, e.1)),
        ),
        NodeKind::SetOf { elements } => b matches NodeKind::SetOf { elements: e2 } && e2@ == map_keys(
            m,
            elements@,
        ),
        NodeKind::Range { start, end, closed } => b == NodeKind::Range {
            start: map_key(m, start),
            end: map_key(m, end),
            closed,
        },
        NodeKind::FString { parts } => b matches NodeKind::FString { parts: p2 } && p2@ == parts@.map_values(
            |p: FStringPartNode| FStringPartNode { text: p.text, expr: map_opt(m, p.expr) },
        ),
        NodeKind::FieldAccess { target, field } => b == NodeKind::FieldAccess {
            target: map_key(m, target),
            field,
        },
        NodeKind::Index { target, index } => b == NodeKind::Index {
            target: map_key(m, target),
            index: map_key(m, index),
        },
        NodeKind::Slice { target, range } => b == NodeKind::Slice {
            target: map_key(m, target),
            range: map_key(m, range),
        },
        NodeKind::MethodCall { target, method, args } => b matches NodeKind::MethodCall {
            target: t2,
            method: m2,
            args: a2,
        } && t2 == map_key(m, target) && m2 == method && a2@ == map_keys(m, args@),
        NodeKind::EarlyReturn { value } => b == NodeKind::EarlyReturn { value: map_key(m, value) },
        NodeKind::ElseFallback { value, fallback } => b == NodeKind::ElseFallback {
            value: map_key(m, value),
            fallback: map_key(m, fallback),
        },
        NodeKind::Destructure { pattern, source, bindings } => b matches NodeKind::Destructure {
            pattern: p2,
            source: s2,
            bindings: b2,
        } && p2 == pattern && s2 == map_key(m, source) && b2@ == map_tagged(m, bindings@),
        NodeKind::With { bindings, body } => b matches NodeKind::With { bindings: b2, body: d2 } && d2
            == map_key(m, body) && b2@ == bindings@.map_values(
            |w: WithBindingNode| WithBindingNode { type_: w.type_, name: w.name, init: map_key(m, w.init) },
        ),
        NodeKind::ProviderCall { provider, verb, args } => b matches NodeKind::ProviderCall {
            provider: p2,
            verb: v2,
            args: a2,
        } && p2 == provider && v2 == verb && a2@ == map_keys(m, args@),
        NodeKind::Using { value, behavior } => b == NodeKind::Using { value: map_key(m, value), behavior },
        NodeKind::RegionError(k) => b == NodeKind::RegionError(map_key(m, k)),
        _ => b == a,
    }
}

/// `k` sent through the key map.
fn remap_one(m: &HashMap<u64, u64>, k: GraphKey) -> (r: GraphKey)
    ensures
        r == map_key(m@, k),
{
    match m.get(&k.0) {
        Some(v) => GraphKey(*v),
        None => k,
    }
}

fn remap_opt(m: &HashMap<u64, u64>, o: Option<GraphKey>) -> (r: Option<GraphKey>)
    ensures
        r == map_opt(m@, o),
{
    match o {
        Some(k) => Some(remap_one(m, k)),
        None => None,
    }
}

fn remap_keys(m: &HashMap<u64, u64>, v: Vec<GraphKey>) -> (r: Vec<GraphKey>)
    ensures
        r@ == map_keys(m@, v@),
{
    let ghost s = v@;
    let mut r: Vec<GraphKey> = Vec::new();
    for k in it: v.into_iter()
        invariant
            it.seq() == s,
            r@ == map_keys(m@, s.take(it.index())),
    {
        r.push(remap_one(m, k));
        assert(map_keys(m@, s.take(it.index() + 1)) =~= r@);
    }
    assert(s.take(s.len() as int) =~= s);
    r
}

fn remap_tagged<T>(m: &HashMap<u64, u64>, v: Vec<(T, GraphKey)>) -> (r: Vec<(T, GraphKey)>)
    ensures
        r@ == map_tagged(m@, v@),
{
    let ghost s = v@;
    let mut r: Vec<(T, GraphKey)> = Vec::new();
    for e in it: v.into_iter()
        invariant
            it.seq() == s,
            r@ == map_tagged(m@, s.take(it.index())),
    {
        let (a, k) = e;
        r.push((a, remap_one(m, k)));
        assert(map_tagged(m@, s.take(it.index() + 1)) =~= r@);
    }
    assert(s.take(s.len() as int) =~= s);
    r
}

fn remap_pairs(m: &HashMap<u64, u64>, v: Vec<(GraphKey, GraphKey)>) -> (r: Vec<(GraphKey, GraphKey)>)
    ensures
        r@ == v@.map_values(|e: (GraphKey, GraphKey)| (map_key(m@, e.0), map_key(m@, e.1))),
{
    let ghost s = v@;
    let mut r: Vec<(GraphKey, GraphKey)> = Vec::new();
    for e in it: v.into_iter()
        invariant
            it.seq() == s,
            r@ == s.take(it.index()).map_values(
                |e: (GraphKey, GraphKey)| (map_key(m@, e.0), map_key(m@, e.1)),
            ),
    {
        r.push((remap_one(m, e.0), remap_one(m, e.1)));
        assert(s.take(it.index() + 1).map_values(
            |e: (GraphKey, GraphKey)| (map_key(m@, e.0), map_key(m@, e.1)),
        ) =~= r@);
    }
    assert(s.take(s.len() as int) =~= s);
    r
}

fn remap_params(m: &HashMap<u64, u64>, v: Vec<(Identifier, Type, Option<GraphKey>)>) -> (r: Vec<(Identifier, Type, Option<GraphKey>)>)
    ensures
        r@ == v@.map_values(|e: (Identifier, Type, Option<GraphKey>)| (e.0, e.1, map_opt(m@, e.2))),
{
    let ghost s = v@;
    let mut r: Vec<(Identifier, Type, Option<GraphKey>)> = Vec::new();
    for e in it: v.into_iter()
        invariant
            it.seq() == s,
            r@ == s.take(it.index()).map_values(
                |e: (Identifier, Type, Option<GraphKey>)| (e.0, e.1, map_opt(m@, e.2)),
            ),
    {
        let (a, t, d) = e;
        r.push((a, t, remap_opt(m, d)));
        assert(s.take(it.index() + 1).map_values(
            |e: (Identifier, Type, Option<GraphKey>)| (e.0, e.1, map_opt(m@, e.2)),
        ) =~= r@);
    }
    assert(s.take(s.len() as int) =~= s);
    r
}

fn remap_parts(m: &HashMap<u64, u64>, v: Vec<FStringPartNode>) -> (r: Vec<FStringPartNode>)
    ensures
        r@ == v@.map_values(|p: FStringPartNode| FStringPartNode { text: p.text, expr: map_opt(m@, p.expr) }),
{
    let ghost s = v@;
    let mut r: Vec<FStringPartNode> = Vec::new();
    for p in it: v.into_iter()
        invariant
            it.seq() == s,
            r@ == s.take(it.index()).map_values(
                |p: FStringPartNode| FStringPartNode { text: p.text, expr: map_opt(m@, p.expr) },
            ),
    {
        r.push(FStringPartNode { text: p.text, expr: remap_opt(m, p.expr) });
        assert(s.take(it.index() + 1).map_values(
            |p: FStringPartNode| FStringPartNode { text: p.text, expr: map_opt(m@, p.expr) },
        ) =~= r@);
    }
    assert(s.take(s.len() as int) =~= s);
    r
}

fn remap_with(m: &HashMap<u64, u64>, v: Vec<WithBindingNode>) -> (r: Vec<WithBindingNode>)
    ensures
        r@ == v@.map_values(
            |w: WithBindingNode| WithBindingNode { type_: w.type_, name: w.name, init: map_key(m@, w.init) },
        ),
{
    let ghost s = v@;
    let mut r: Vec<WithBindingNode> = Vec::new();
    for w in it: v.into_iter()
        invariant
            it.seq() == s,
            r@ == s.take(it.index()).map_values(
                |w: WithBindingNode| WithBindingNode { type_: w.type_, name: w.name, init: map_key(m@, w.init) },
            ),
    {
        r.push(WithBindingNode { type_: w.type_, name: w.name, init: remap_one(m, w.init) });
        assert(s.take(it.index() + 1).map_values(
            |w: WithBindingNode| WithBindingNode { type_: w.type_, name: w.name, init: map_key(m@, w.init) },
        ) =~= r@);
    }
    assert(s.take(s.len() as int) =~= s);
    r
}

/// Rewrites every graph key inside a node kind through `remap` (keys it
/// does not map are kept).
pub fn remap_kind(kind: NodeKind, remap: &HashMap<u64, u64>) -> (r: NodeKind)
    ensures
        remapped(kind, r, remap@),
{
    let m = remap;
    match kind {
        NodeKind::Binding { name, def } => NodeKind::Binding { name, def: remap_one(m, def) },
        NodeKind::Reference { name, def } => NodeKind::Reference { name, def: remap_one(m, def) },
        NodeKind::Discard { source } => NodeKind::Discard { source: remap_one(m, source) },
        NodeKind::Function { name, public, params, ret, body, capabilities } => NodeKind::Function {
            name,
            public,
            params: remap_params(m, params),
            ret,
            body: remap_one(m, body),
            capabilities,
        },
        NodeKind::Call { func, args } => NodeKind::Call { func: remap_one(m, func), args: remap_keys(m, args) },
        NodeKind::Rt(k) => NodeKind::Rt(remap_one(m, k)),
        NodeKind::AtResidual { type_, inner } => NodeKind::AtResidual { type_, inner: remap_one(m, inner) },
        NodeKind::BinaryOp { op, lhs, rhs } => NodeKind::BinaryOp {
            op,
            lhs: remap_one(m, lhs),
            rhs: remap_one(m, rhs),
        },
        NodeKind::UnaryOp { op, operand } => NodeKind::UnaryOp { op, operand: remap_one(m, operand) },
        NodeKind::Cast { type_, operand } => NodeKind::Cast { type_, operand: remap_one(m, operand) },
        NodeKind::If { cond, then_branch, else_branch } => NodeKind::If {
            cond: remap_one(m, cond),
            then_branch: remap_one(m, then_branch),
            else_branch: remap_opt(m, else_branch),
        },
        NodeKind::While { cond, body } => NodeKind::While { cond: remap_one(m, cond), body: remap_one(m, body) },
        NodeKind::For { init, cond, step, body } => NodeKind::For {
            init: remap_one(m, init),
            cond: remap_one(m, cond),
            step: remap_one(m, step),
            body: remap_one(m, body),
        },
        NodeKind::ForIn { iter, name, body } => NodeKind::ForIn {
            iter: remap_one(m, iter),
            name,
            body: remap_one(m, body),
        },
        NodeKind::Match { scrutinee, arms, default_arm } => NodeKind::Match {
            scrutinee: remap_one(m, scrutinee),
            arms: remap_tagged(m, arms),
            default_arm: remap_opt(m, default_arm),
        },
        NodeKind::Spawn { capabilities, body, ret } => NodeKind::Spawn {
            capabilities,
            body: remap_one(m, body),
            ret,
        },
        NodeKind::Assert { cond, message } => NodeKind::Assert {
            cond: remap_one(m, cond),
            message: remap_one(m, message),
        },
        NodeKind::RtAssert { cond, message } => NodeKind::RtAssert {
            cond: remap_one(m, cond),
            message: remap_one(m, message),
        },
        NodeKind::Known(k) => NodeKind::Known(remap_one(m, k)),
        NodeKind::RtKnown(k) => NodeKind::RtKnown(remap_one(m, k)),
        NodeKind::ComptimePrint(k) => NodeKind::ComptimePrint(remap_one(m, k)),
        NodeKind::Struct { name, fields } => NodeKind::Struct { name, fields: remap_tagged(m, fields) },
        NodeKind::List { elements } => NodeKind::List { elements: remap_keys(m, elements) },
        NodeKind::MapOf { entries } => NodeKind::MapOf { entries: remap_pairs(m, entries) },
        NodeKind::SetOf { elements } => NodeKind::SetOf { elements: remap_keys(m, elements) },
        NodeKind::Range { start, end, closed } => NodeKind::Range {
            start: remap_one(m, start),
            end: remap_one(m, end),
            closed,
        },
        NodeKind::FString { parts } => NodeKind::FString { parts: remap_parts(m, parts) },
        NodeKind::FieldAccess { target, field } => NodeKind::FieldAccess { target: remap_one(m, target), field },
        NodeKind::Index { target, index } => NodeKind::Index {
            target: remap_one(m, target),
            index: remap_one(m, index),
        },
        NodeKind::Slice { target, range } => NodeKind::Slice {
            target: remap_one(m, target),
            range: remap_one(m, range),
        },
        NodeKind::MethodCall { target, method, args } => NodeKind::MethodCall {
            target: remap_one(m, target),
            method,
            args: remap_keys(m, args),
        },
        NodeKind::EarlyReturn { value } => NodeKind::EarlyReturn { value: remap_one(m, value) },
        NodeKind::ElseFallback { value, fallback } => NodeKind::ElseFallback {
            value: remap_one(m, value),
            fallback: remap_one(m, fallback),
        },
        NodeKind::Destructure { pattern, source, bindings } => NodeKind::Destructure {
            pattern,
            source: remap_one(m, source),
            bindings: remap_tagged(m, bindings),
        },
        NodeKind::With { bindings, body } => NodeKind::With {
            bindings: remap_with(m, bindings),
            body: remap_one(m, body),
        },
        NodeKind::ProviderCall { provider, verb, args } => NodeKind::ProviderCall {
            provider,
            verb,
            args: remap_keys(m, args),
        },
        NodeKind::Using { value, behavior } => NodeKind::Using { value: remap_one(m, value), behavior },
        NodeKind::RegionError(k) => NodeKind::RegionError(remap_one(m, k)),
        other => other,
    }
}

/// The index of `k` in `v`, if `v` holds it.
fn position_of(v: &Vec<GraphKey>, k: GraphKey) -> (r: Option<usize>)
    ensures
        match r {
            Some(t) => t < v@.len() && v@[t as int] == k,
            None => !v@.contains(k),
        },
{
    let mut i: usize = 0;
    while i < v.len()
        invariant
            i <= v@.len(),
            forall|j: int| 0 <= j < i ==> v@[j] != k,
        decreases v@.len() - i,
    {
        if v[i] == k {
            return Some(i);
        }
        i += 1;
    }
    None
}

// ─── Growth ────────────────────────────────────────────────────────

/// `b` is `a` with nodes added: every node of `a` is still there,
/// unchanged, the function table and entry point are the same, and no id
/// was taken back.
pub open spec fn grows(a: KnowledgeGraph, b: KnowledgeGraph) -> bool {
    &&& a.nodes().submap_of(b.nodes())
    &&& b.functions() == a.functions()
    &&& b.entry() == a.entry()
    &&& a.id_counter() <= b.id_counter()
}

/// The graph can take no more nodes, or has handed out its last id.
pub open spec fn graph_full(g: KnowledgeGraph) -> bool {
    g.node_count() >= 0xFFFF_FFFE || g.id_counter() == u64::MAX
}

/// How much of the graph's capacity is taken: its nodes and the ids it has
/// handed out. A graph that has taken less than `0xFFFF_FFFE` is not full.
pub open spec fn used(g: KnowledgeGraph) -> int {
    g.node_count() + g.id_counter()
}

/// A consistent graph has finitely many nodes.
pub proof fn lemma_wf_finite(g: KnowledgeGraph)
    requires
        g.wf(),
    ensures
        g.nodes().dom().finite(),
{
}

/// A full graph stays full as it grows.
pub broadcast proof fn lemma_grows_full(a: KnowledgeGraph, b: KnowledgeGraph)
    requires
        #[trigger] grows(a, b),
        b.wf(),
    ensures
        graph_full(a) ==> graph_full(b),
{
    vstd::set_lib::lemma_len_subset(a.nodes().dom(), b.nodes().dom());
}

/// Growth keeps every node: a key that names a node still does.
pub broadcast proof fn lemma_grows_has(a: KnowledgeGraph, b: KnowledgeGraph, k: GraphKey)
    requires
        #[trigger] grows(a, b),
        a.has(k),
    ensures
        #[trigger] b.has(k),
        b.node(k) == a.node(k),
{
    assert(a.nodes().dom().contains(canon(k.0)));
}

/// Growth keeps the node under every key that named one.
pub broadcast proof fn lemma_grows_node(a: KnowledgeGraph, b: KnowledgeGraph, k: GraphKey)
    requires
        #[trigger] grows(a, b),
        a.has(k),
    ensures
        b.has(k),
        #[trigger] b.node(k) == a.node(k),
{
    assert(a.nodes().dom().contains(canon(k.0)));
}

/// Growth is transitive.
pub broadcast proof fn lemma_grows_trans(a: KnowledgeGraph, b: KnowledgeGraph, c: KnowledgeGraph)
    requires
        #[trigger] grows(a, b),
        #[trigger] grows(b, c),
    ensures
        grows(a, c),
{
    vstd::map_lib::lemma_submap_of_trans(a.nodes(), b.nodes(), c.nodes());
}


// ─── Labels ────────────────────────────────────────────────────────

/// The name of a provider, as a label shows it.
pub open spec fn provider_label(p: Provider) -> Seq<char> {
    match p {
        Provider::Filesystem => "Filesystem"@,
        Provider::Environment => "Environment"@,
        Provider::Git => "Git"@,
    }
}

/// `head(inner)`.
pub open spec fn label_of(head: Seq<char>, inner: Seq<char>) -> Seq<char> {
    head + "("@ + inner + ")"@
}

/// A unary operator as a label shows it (a cast shows its target type).
pub open spec fn unary_label(op: UnaryOp) -> Seq<char> {
    match op {
        UnaryOp::Neg => "Neg"@,
        UnaryOp::Not => "Not"@,
        UnaryOp::BitNot => "BitNot"@,
        UnaryOp::Cast(t) => label_of("Cast"@, type_text(*t)),
    }
}

/// The short label of a node kind used in diagnostics, e.g. `binding(x)`,
/// `binary(Add)` or `cast(Int(8))`.
pub open spec fn kind_label(k: NodeKind) -> Seq<char> {
    match k {
        NodeKind::Literal(_) => "literal"@,
        NodeKind::Location => "#location"@,
        NodeKind::Binding { name, .. } => label_of("binding"@, name.name@),
        NodeKind::Reference { name, .. } => label_of("ref"@, name.name@),
        NodeKind::Discard { .. } => "discard"@,
        NodeKind::Break => "break"@,
        NodeKind::Continue => "continue"@,
        NodeKind::Function { name, .. } => label_of("function"@, name.name@),
        NodeKind::Call { .. } => "call"@,
        NodeKind::Rt(_) => "rt"@,
        NodeKind::AtResidual { .. } => "@residual"@,
        NodeKind::BinaryOp { op, .. } => label_of("binary"@, binop_name(op)),
        NodeKind::UnaryOp { op, .. } => label_of("unary"@, unary_label(op)),
        NodeKind::Cast { type_, .. } => label_of("cast"@, type_text(type_)),
        NodeKind::If { .. } => "if"@,
        NodeKind::While { .. } => "while"@,
        NodeKind::For { .. } => "for"@,
        NodeKind::ForIn { name, .. } => label_of("for-in"@, name.name@),
        NodeKind::Match { .. } => "match"@,
        NodeKind::Spawn { .. } => "spawn"@,
        NodeKind::Assert { .. } => "assert"@,
        NodeKind::RtAssert { .. } => "rt_assert"@,
        NodeKind::Known(_) => "known"@,
        NodeKind::RtKnown(_) => "rt_known"@,
        NodeKind::ComptimePrint(_) => "comptime_print"@,
        NodeKind::Todo => "todo"@,
        NodeKind::Unimplemented => "unimp"@,
        NodeKind::Struct { name, .. } => label_of("struct"@, name.name@),
        NodeKind::List { .. } => "list"@,
        NodeKind::MapOf { .. } => "map"@,
        NodeKind::SetOf { .. } => "set"@,
        NodeKind::Range { .. } => "range"@,
        NodeKind::FString { .. } => "fstring"@,
        NodeKind::RawString(_) => "raw_string"@,
        NodeKind::ByteString(_) => "byte_string"@,
        NodeKind::FieldAccess { field, .. } => label_of("field"@, field.name@),
        NodeKind::Index { .. } => "index"@,
        NodeKind::Slice { .. } => "slice"@,
        NodeKind::MethodCall { method, .. } => label_of("method"@, method.name@),
        NodeKind::EarlyReturn { .. } => "early_return"@,
        NodeKind::ElseFallback { .. } => "else_fallback"@,
        NodeKind::Destructure { .. } => "destructure"@,
        NodeKind::With { .. } => "with"@,
        NodeKind::ProviderCall { provider, .. } => label_of("provider"@, provider_label(provider)),
        NodeKind::BehaviorInstance { behavior, .. } => label_of("behavior"@, behavior.name.name@),
        NodeKind::Using { .. } => "using"@,
        NodeKind::RegionError(_) => "region_error"@,
    }
}

fn labelled(head: &str, inner: &str) -> (s: String)
    ensures
        s@ == label_of(head@, inner@),
{
    let mut s = string_of(head);
    push_str(&mut s, "(");
    push_str(&mut s, inner);
    push_str(&mut s, ")");
    s
}

impl NodeKind {
    /// The short label of this kind (see [`kind_label`]).
    pub fn label(&self) -> (s: String)
        ensures
            s@ == kind_label(*self),
    {
        match self {
            NodeKind::Literal(_) => string_of("literal"),
            NodeKind::Location => string_of("#location"),
            NodeKind::Binding { name, .. } => labelled("binding", name.name.as_str()),
            NodeKind::Reference { name, .. } => labelled("ref", name.name.as_str()),
            NodeKind::Discard { .. } => string_of("discard"),
            NodeKind::Break => string_of("break"),
            NodeKind::Continue => string_of("continue"),
            NodeKind::Function { name, .. } => labelled("function", name.name.as_str()),
            NodeKind::Call { .. } => string_of("call"),
            NodeKind::Rt(_) => string_of("rt"),
            NodeKind::AtResidual { .. } => string_of("@residual"),
            NodeKind::BinaryOp { op, .. } => labelled("binary", op.name()),
            NodeKind::UnaryOp { op, .. } => {
                let inner = match op {
                    UnaryOp::Neg => string_of("Neg"),
                    UnaryOp::Not => string_of("Not"),
                    UnaryOp::BitNot => string_of("BitNot"),
                    UnaryOp::Cast(t) => labelled("Cast", t.to_display().as_str()),
                };
                assert(inner@ == unary_label(*op));
                labelled("unary", inner.as_str())
            },
            NodeKind::Cast { type_, .. } => labelled("cast", type_.to_display().as_str()),
            NodeKind::If { .. } => string_of("if"),
            NodeKind::While { .. } => string_of("while"),
            NodeKind::For { .. } => string_of("for"),
            NodeKind::ForIn { name, .. } => labelled("for-in", name.name.as_str()),
            NodeKind::Match { .. } => string_of("match"),
            NodeKind::Spawn { .. } => string_of("spawn"),
            NodeKind::Assert { .. } => string_of("assert"),
            NodeKind::RtAssert { .. } => string_of("rt_assert"),
            NodeKind::Known(_) => string_of("known"),
            NodeKind::RtKnown(_) => string_of("rt_known"),
            NodeKind::ComptimePrint(_) => string_of("comptime_print"),
            NodeKind::Todo => string_of("todo"),
            NodeKind::Unimplemented => string_of("unimp"),
            NodeKind::Struct { name, .. } => labelled("struct", name.name.as_str()),
            NodeKind::List { .. } => string_of("list"),
            NodeKind::MapOf { .. } => string_of("map"),
            NodeKind::SetOf { .. } => string_of("set"),
            NodeKind::Range { .. } => string_of("range"),
            NodeKind::FString { .. } => string_of("fstring"),
            NodeKind::RawString(_) => string_of("raw_string"),
            NodeKind::ByteString(_) => string_of("byte_string"),
            NodeKind::FieldAccess { field, .. } => labelled("field", field.name.as_str()),
            NodeKind::Index { .. } => string_of("index"),
            NodeKind::Slice { .. } => string_of("slice"),
            NodeKind::MethodCall { method, .. } => labelled("method", method.name.as_str()),
            NodeKind::EarlyReturn { .. } => string_of("early_return"),
            NodeKind::ElseFallback { .. } => string_of("else_fallback"),
            NodeKind::Destructure { .. } => string_of("destructure"),
            NodeKind::With { .. } => string_of("with"),
            NodeKind::ProviderCall { provider, .. } => {
                let p = match provider {
                    Provider::Filesystem => "Filesystem",
                    Provider::Environment => "Environment",
                    Provider::Git => "Git",
                };
                assert(p@ == provider_label(*provider));
                labelled("provider", p)
            },
            NodeKind::BehaviorInstance { behavior, .. } => labelled("behavior", behavior.name.name.as_str()),
            NodeKind::Using { .. } => string_of("using"),
            NodeKind::RegionError(_) => string_of("region_error"),
        }
    }
}

// ─── Copying subgraphs ─────────────────────────────────────────────

/// `HashSet::clone`. Nothing is stated of the copy: effect and capability
/// sets are carried along with the nodes, never inspected.
#[verifier::external_body]
pub(crate) fn set_copied<T: Clone + Eq + std::hash::Hash>(s: &HashSet<T>) -> (r: HashSet<T>) {
    s.clone()
}

/// A copy of a list of keys.
pub(crate) fn copy_keys(v: &Vec<GraphKey>) -> (r: Vec<GraphKey>)
    ensures
        r@ == v@,
{
    let mut r: Vec<GraphKey> = Vec::new();
    let mut i: usize = 0;
    while i < v.len()
        invariant
            i <= v@.len(),
            r@ == v@.take(i as int),
        decreases v@.len() - i,
    {
        r.push(v[i]);
        assert(r@ =~= v@.take(i + 1));
        i += 1;
    }
    assert(r@ =~= v@);
    r
}

/// A node that copies of a subgraph share instead of copying: one that
/// holds no key of another node (functions are shared whole).
pub open spec fn shared_leaf(k: NodeKind) -> bool {
    k is Function || k is Literal || k is RawString || k is ByteString || k is Location || k is Todo
        || k is Unimplemented
}

/// The key sets of `a` and `b` (canonical forms) differ exactly by the
/// keys in `added`.
pub open spec fn dom_added(a: KnowledgeGraph, b: KnowledgeGraph, added: Seq<GraphKey>) -> bool {
    b.nodes().dom() == a.nodes().dom() + Set::new(|c: u64| exists|j: int| 0 <= j < added.len() && added[j].0 == c)
}

impl KnowledgeGraph {
    /// Every key that `root` reaches names a node or is overridden by `m`.
    pub open spec fn covered_from(&self, root: GraphKey, m: Map<u64, u64>) -> bool {
        forall|k: GraphKey| #[trigger] self.reaches(root, k) ==> self.has(k) || m.contains_key(k.0)
    }

    /// Copies the part of the graph that `root` reaches, dependencies
    /// first, sending every key through `overrides` (parameter cells to
    /// argument nodes when a call is inlined) and through the keys of the
    /// copies made so far. Nodes that hold no other key (functions,
    /// literals, raw and byte strings, locations, `todo`, `unimplemented`)
    /// are shared instead of copied; copies are marked inferred. Returns
    /// the key that stands for `root` and the new keys, dependencies first.
    ///
    /// There is no copy when a key that `root` reaches names no node and is
    /// not overridden, when `root` lies on a dependency cycle without being
    /// overridden, or when the graph is full; nodes copied by then stay.
    pub fn clone_subgraph(&mut self, root: GraphKey, overrides: &HashMap<u64, u64>) -> (r: Option<(GraphKey, Vec<GraphKey>)>)
        requires
            old(self).wf(),
            forall|k: u64| #[trigger] overrides@.contains_key(k) ==> old(self).has(GraphKey(overrides@[k])),
        ensures
            final(self).wf(),
            grows(*old(self), *final(self)),
            final(self).blocks() == old(self).blocks(),
            final(self).cells() == old(self).cells(),
            r is None ==> final(self).node_count() + 1 >= u32::MAX || final(self).id_counter() + 1 >= u64::MAX
                || !old(self).covered_from(root, overrides@) || (!overrides@.contains_key(root.0)
                && old(self).cycle_from(root)),
            r matches Some((nr, cl)) ==> {
                &&& final(self).has(nr)
                &&& overrides@.contains_key(root.0) ==> nr == GraphKey(overrides@[root.0])
                &&& !overrides@.contains_key(root.0) ==> (nr == root && shared_leaf(final(self).node(root).kind))
                    || cl@.contains(nr)
                &&& cl@.no_duplicates()
                &&& dom_added(*old(self), *final(self), cl@)
                &&& forall|j: int|
                    0 <= j < cl@.len() ==> !old(self).has(#[trigger] cl@[j]) && final(self).has(cl@[j])
                        && canon(cl@[j].0) == cl@[j].0 && final(self).node(cl@[j]).provenance
                        == Provenance::Inferred
            },
    {
        let ghost g0 = *self;
        let mut remap: HashMap<u64, u64> = overrides.clone();
        let order = self.topological_order(root);
        let n = order.len();
        let mut cloned: Vec<GraphKey> = Vec::new();
        let mut j: usize = 0;
        proof {
            assert(self.nodes().dom() =~= g0.nodes().dom() + Set::new(
                |c: u64| exists|t: int| 0 <= t < cloned@.len() && cloned@[t].0 == c,
            ));
        }
        while j < n
            invariant
                n == order@.len(),
                j <= n,
                g0 == *old(self),
                forall|k: GraphKey| order@.contains(k) ==> g0.reaches(root, k),
                !g0.cycle_from(root) ==> forall|k: GraphKey| g0.reaches(root, k) ==> order@.contains(k),
                g0.wf(),
                self.wf(),
                grows(g0, *self),
                self.blocks() == g0.blocks(),
                self.cells() == g0.cells(),
                overrides@.submap_of(remap@),
                forall|k: u64| #[trigger] remap@.contains_key(k) ==> self.has(GraphKey(remap@[k])),
                forall|k: u64|
                    #[trigger] remap@.contains_key(k) && !overrides@.contains_key(k) ==> (remap@[k] == k
                        && self.has(GraphKey(k)) && shared_leaf(self.node(GraphKey(k)).kind)) || cloned@.contains(
                        GraphKey(remap@[k]),
                    ),
                forall|t: int| n - j <= t < n ==> remap@.contains_key((#[trigger] order@[t]).0),
                cloned@.no_duplicates(),
                forall|t: int|
                    0 <= t < cloned@.len() ==> !g0.has(#[trigger] cloned@[t]) && self.has(cloned@[t]) && canon(
                        cloned@[t].0,
                    ) == cloned@[t].0 && self.node(cloned@[t]).provenance == Provenance::Inferred,
                dom_added(g0, *self, cloned@),
                self.node_count() == g0.node_count() + cloned@.len(),
                self.id_counter() == g0.id_counter() + cloned@.len(),
                forall|k: u64| #[trigger] overrides@.contains_key(k) ==> g0.has(GraphKey(overrides@[k])),
            decreases n - j,
        {
            let key = order[n - 1 - j];
            let ghost before = *self;
            if !remap.contains_key(&key.0) {
                let (kind, type_, knowledge, deps, effects, capabilities, span, shared) = match self.get_node_checked(
                    key,
                ) {
                    Some(node) => {
                        let shared = match &node.kind {
                            NodeKind::Function { .. } => true,
                            NodeKind::Literal(_) => true,
                            NodeKind::RawString(_) => true,
                            NodeKind::ByteString(_) => true,
                            NodeKind::Location => true,
                            NodeKind::Todo => true,
                            NodeKind::Unimplemented => true,
                            _ => false,
                        };
                        (
                            crate::reduce::copy_kind(&node.kind),
                            node.type_.copy(),
                            node.knowledge,
                            copy_keys(&node.deps),
                            set_copied(&node.effects),
                            set_copied(&node.capabilities),
                            node.span.copy(),
                            shared,
                        )
                    },
                    None => {
                        proof {
                            assert(order@[n - 1 - j as int] == key);
                            assert(order@.contains(key));
                            assert(g0.reaches(root, key));
                            assert(!g0.has(key));
                            assert(!overrides@.contains_key(key.0));
                        }
                        return None;
                    },
                };
                if shared {
                    remap.insert(key.0, key.0);
                    proof {
                        assert(self.has(key));
                    }
                } else {
                    if self.num_nodes() >= 0xFFFF_FFFE || self.peek_id() >= 0xFFFF_FFFF_FFFF_FFFE {
                        return None;
                    }
                    let new_kind = remap_kind(kind, &remap);
                    let new_deps = remap_keys(&remap, deps);
                    let new_key = self.add_node(
                        new_kind,
                        type_,
                        knowledge,
                        new_deps,
                        effects,
                        capabilities,
                        Provenance::Inferred,
                        span,
                    );
                    remap.insert(key.0, new_key.0);
                    proof {
                        assert(!before.nodes().dom().contains(new_key.0));
                        assert(before.nodes().submap_of(self.nodes()));
                        assert(grows(before, *self));
                        lemma_grows_trans(g0, before, *self);
                        assert(!cloned@.contains(new_key)) by {
                            if cloned@.contains(new_key) {
                                let t = choose|t: int| 0 <= t < cloned@.len() && cloned@[t] == new_key;
                                assert(before.has(cloned@[t]));
                            }
                        }
                    }
                    let ghost old_cloned = cloned@;
                    cloned.push(new_key);
                    proof {
                        let old_set = Set::new(|c: u64| exists|t: int| 0 <= t < old_cloned.len() && old_cloned[t].0 == c);
                        let new_set = Set::new(|c: u64| exists|t: int| 0 <= t < cloned@.len() && cloned@[t].0 == c);
                        assert(before.nodes().dom() == g0.nodes().dom() + old_set);
                        assert(new_set =~= old_set.insert(new_key.0)) by {
                            assert forall|c: u64| new_set.contains(c) <==> old_set.contains(c) || c == new_key.0 by {
                                if new_set.contains(c) {
                                    let t = choose|t: int| 0 <= t < cloned@.len() && cloned@[t].0 == c;
                                    if t < old_cloned.len() {
                                        assert(old_cloned[t] == cloned@[t]);
                                    }
                                }
                                if old_set.contains(c) {
                                    let t = choose|t: int| 0 <= t < old_cloned.len() && old_cloned[t].0 == c;
                                    assert(cloned@[t] == old_cloned[t]);
                                }
                                if c == new_key.0 {
                                    assert(cloned@[old_cloned.len() as int] == new_key);
                                }
                            }
                        }
                        assert(self.nodes().dom() =~= g0.nodes().dom() + new_set);
                        assert(self.node_count() == before.node_count() + 1);
                        assert forall|t: int| 0 <= t < cloned@.len() implies !g0.has(#[trigger] cloned@[t])
                            && self.has(cloned@[t]) && canon(cloned@[t].0) == cloned@[t].0 && self.node(
                            cloned@[t],
                        ).provenance == Provenance::Inferred by {
                            if t < old_cloned.len() {
                                assert(cloned@[t] == old_cloned[t]);
                                assert(before.has(old_cloned[t]));
                                assert(old_cloned[t] != new_key);
                            } else {
                                assert(cloned@[t] == new_key);
                                assert(!g0.has(new_key)) by {
                                    if g0.has(new_key) {
                                        assert(before.has(new_key));
                                    }
                                }
                            }
                        }
                    }
                }
            }
            proof {
                assert forall|k: u64| #[trigger] remap@.contains_key(k) implies self.has(GraphKey(remap@[k])) by {
                    if self.has(GraphKey(remap@[k])) {
                    } else {
                        assert(before.has(GraphKey(remap@[k])) || remap@[k] == key.0);
                    }
                }
            }
            j += 1;
        }
        match remap.get(&root.0) {
            Some(v) => {
                proof {
                    if overrides@.contains_key(root.0) {
                        assert(remap@[root.0] == overrides@[root.0]);
                    }
                }
                Some((GraphKey(*v), cloned))
            },
            None => {
                proof {
                    assert(!overrides@.contains_key(root.0));
                    if !g0.cycle_from(root) {
                        assert(g0.is_path(seq![root]));
                        assert(g0.reaches(root, root));
                        assert(order@.contains(root));
                        let t = choose|t: int| 0 <= t < order@.len() && order@[t] == root;
                        assert(remap@.contains_key(order@[t].0));
                    }
                }
                None
            },
        }
    }
}

} // verus!
