//! The identifiers an expression mentions, in order: what a spawned block
//! captures from the code around it.

use vstd::prelude::*;

use crate::types::{AstBlock, AstExpr, AstFStringPart, AstPattern, AstRange, AstStmt, AstStmtKind, AstWithBinding};

verus! {

// ─── The identifiers, as sequences ─────────────────────────────────

/// Every identifier `e` mentions, in pre-order (a callee, the arguments,
/// the operands and the nested blocks all count).
pub open spec fn expr_ids(e: AstExpr) -> Seq<Seq<char>>
    decreases e,
{
    match e {
        AstExpr::Id(n) => seq![n@],
        AstExpr::BinaryOp { lhs, rhs, .. } => expr_ids(*lhs) + expr_ids(*rhs),
        AstExpr::UnaryOp { operand, .. } => expr_ids(*operand),
        AstExpr::Call { func, args, .. } => expr_ids(*func) + args_ids(args@),
        AstExpr::Rt(inner, _) => expr_ids(*inner),
        AstExpr::Known(inner, _) => expr_ids(*inner),
        AstExpr::RtKnown(inner, _) => expr_ids(*inner),
        AstExpr::ComptimePrint(inner, _) => expr_ids(*inner),
        AstExpr::Discard(inner, _) => expr_ids(*inner),
        AstExpr::AtResidual { inner, .. } => expr_ids(*inner),
        AstExpr::If { cond, then_block, else_block, .. } => expr_ids(*cond) + block_ids(*then_block) + match else_block {
            Some(b) => block_ids(*b),
            None => Seq::empty(),
        },
        AstExpr::While { cond, body, .. } => expr_ids(*cond) + block_ids(*body),
        AstExpr::ForIn { collection, body, .. } => expr_ids(*collection) + block_ids(*body),
        AstExpr::Match { scrutinee, arms, .. } => expr_ids(*scrutinee) + arms_ids(arms@),
        AstExpr::For { init, cond, step, body, .. } => (match init {
            Some(s) => stmt_ids(*s),
            None => Seq::empty(),
        }) + expr_ids(*cond) + (match step {
            Some(s) => stmt_ids(*s),
            None => Seq::empty(),
        }) + block_ids(*body),
        AstExpr::Spawn { body, .. } => block_ids(body),
        AstExpr::Assert { cond, message, .. } => expr_ids(*cond) + expr_ids(*message),
        AstExpr::RtAssert { cond, message, .. } => expr_ids(*cond) + expr_ids(*message),
        AstExpr::StructLit { fields, .. } => fields_ids(fields@),
        AstExpr::ListLit(elts, _) => list_ids(elts@),
        AstExpr::SetLit(elts, _) => list_ids(elts@),
        AstExpr::MapLit(entries, _) => entries_ids(entries@),
        AstExpr::Range { start, end, .. } => expr_ids(*start) + expr_ids(*end),
        AstExpr::FString(parts, _) => parts_ids(parts@),
        AstExpr::FieldAccess { target, .. } => expr_ids(*target),
        AstExpr::Index { target, index, .. } => expr_ids(*target) + expr_ids(*index),
        AstExpr::Slice { target, range, .. } => expr_ids(*target) + range_ids(*range),
        AstExpr::MethodCall { target, args, .. } => expr_ids(*target) + list_ids(args@),
        AstExpr::EarlyReturn(inner, _) => expr_ids(*inner),
        AstExpr::ElseFallback { value, fallback, .. } => expr_ids(*value) + block_ids(fallback),
        AstExpr::Destructure { source, .. } => expr_ids(*source),
        AstExpr::IfLet { source, then_block, else_block, .. } => expr_ids(*source) + block_ids(*then_block) + match else_block {
            Some(b) => block_ids(*b),
            None => Seq::empty(),
        },
        AstExpr::WhileLet { source, body, .. } => expr_ids(*source) + block_ids(*body),
        AstExpr::With { bindings, body, .. } => withs_ids(bindings@) + block_ids(body),
        AstExpr::Using { value, .. } => expr_ids(*value),
        AstExpr::ProviderCall { args, .. } => list_ids(args@),
        _ => Seq::empty(),
    }
}

/// The identifiers of a list of expressions, in order.
pub open spec fn list_ids(s: Seq<AstExpr>) -> Seq<Seq<char>>
    decreases s,
{
    if s.len() == 0 {
        Seq::empty()
    } else {
        list_ids(s.subrange(0, s.len() - 1)) + expr_ids(s[s.len() - 1])
    }
}

/// The identifiers of the arguments of a call, in order.
pub open spec fn args_ids(s: Seq<(Option<String>, AstExpr)>) -> Seq<Seq<char>>
    decreases s,
{
    if s.len() == 0 {
        Seq::empty()
    } else {
        args_ids(s.subrange(0, s.len() - 1)) + expr_ids(s[s.len() - 1].1)
    }
}

/// The identifiers of the arm bodies of a `match`, in order.
pub open spec fn arms_ids(s: Seq<(AstPattern, AstExpr)>) -> Seq<Seq<char>>
    decreases s,
{
    if s.len() == 0 {
        Seq::empty()
    } else {
        arms_ids(s.subrange(0, s.len() - 1)) + expr_ids(s[s.len() - 1].1)
    }
}

/// The identifiers of the field values of a struct literal, in order.
pub open spec fn fields_ids(s: Seq<(String, AstExpr)>) -> Seq<Seq<char>>
    decreases s,
{
    if s.len() == 0 {
        Seq::empty()
    } else {
        fields_ids(s.subrange(0, s.len() - 1)) + expr_ids(s[s.len() - 1].1)
    }
}

/// The identifiers of the keys and values of a map literal, in order.
pub open spec fn entries_ids(s: Seq<(AstExpr, AstExpr)>) -> Seq<Seq<char>>
    decreases s,
{
    if s.len() == 0 {
        Seq::empty()
    } else {
        entries_ids(s.subrange(0, s.len() - 1)) + expr_ids(s[s.len() - 1].0) + expr_ids(s[s.len() - 1].1)
    }
}

/// The identifiers of the interpolated parts of an f-string, in order.
pub open spec fn parts_ids(s: Seq<AstFStringPart>) -> Seq<Seq<char>>
    decreases s,
{
    if s.len() == 0 {
        Seq::empty()
    } else {
        parts_ids(s.subrange(0, s.len() - 1)) + match s[s.len() - 1] {
            AstFStringPart::Expr(e) => expr_ids(*e),
            AstFStringPart::Text(_) => Seq::empty(),
        }
    }
}

/// The identifiers of the initialisers of a `with`, in order.
pub open spec fn withs_ids(s: Seq<AstWithBinding>) -> Seq<Seq<char>>
    decreases s,
{
    if s.len() == 0 {
        Seq::empty()
    } else {
        withs_ids(s.subrange(0, s.len() - 1)) + expr_ids(*s[s.len() - 1].init)
    }
}

/// The identifiers of the bounds of a range, start first.
pub open spec fn range_ids(r: AstRange) -> Seq<Seq<char>>
    decreases r,
{
    (match r.start {
        Some(e) => expr_ids(e),
        None => Seq::empty(),
    }) + match r.end {
        Some(e) => expr_ids(e),
        None => Seq::empty(),
    }
}

/// The identifiers a statement mentions.
pub open spec fn stmt_ids(s: AstStmt) -> Seq<Seq<char>>
    decreases s,
{
    match s.kind {
        AstStmtKind::Bind { value, .. } => expr_ids(*value),
        AstStmtKind::Discard(e) => expr_ids(*e),
        AstStmtKind::Destructure { source, .. } => expr_ids(*source),
        AstStmtKind::Expr(e) => expr_ids(*e),
        AstStmtKind::Return(v) => match v {
            Some(e) => expr_ids(*e),
            None => Seq::empty(),
        },
        _ => Seq::empty(),
    }
}

/// The identifiers of a list of statements, in order.
pub open spec fn stmts_ids(s: Seq<AstStmt>) -> Seq<Seq<char>>
    decreases s,
{
    if s.len() == 0 {
        Seq::empty()
    } else {
        stmts_ids(s.subrange(0, s.len() - 1)) + stmt_ids(s[s.len() - 1])
    }
}

/// The identifiers a block mentions: its statements', then its tail's.
pub open spec fn block_ids(b: AstBlock) -> Seq<Seq<char>>
    decreases b,
{
    stmts_ids(b.statements@) + match b.ret {
        Some(e) => expr_ids(*e),
        None => Seq::empty(),
    }
}

/// The texts of a list of strings.
pub open spec fn texts(v: Seq<String>) -> Seq<Seq<char>> {
    v.map_values(|s: String| s@)
}


/// Appends the identifiers of each expression of `v`, in order.
fn collect_ids_list(v: &Vec<AstExpr>, out: &mut Vec<String>)
    ensures
        texts(final(out)@) == texts(old(out)@) + list_ids(v@),
    decreases v,
{
    let ghost start = texts(out@);
    let mut i: usize = 0;
    assert(v@.subrange(0, 0) =~= Seq::<AstExpr>::empty());
    while i < v.len()
        invariant
            i <= v@.len(),
            texts(out@) == start + list_ids(v@.subrange(0, i as int)),
            start == texts(old(out)@),
        decreases v@.len() - i,
    {
        proof {
            vstd::std_specs::vec::axiom_vec_index_decreases(*v, i as int);
        }
        let ghost before = texts(out@);
        collect_ids_expr(&v[i], out);
        proof {
            let w = v@.subrange(0, i + 1);
            assert(w.subrange(0, w.len() - 1) =~= v@.subrange(0, i as int));
            assert(w[w.len() - 1] == v@[i as int]);
            assert(texts(out@) =~= start + list_ids(w));
        }
        i += 1;
    }
    assert(v@.subrange(0, v@.len() as int) =~= v@);
}

/// Appends the identifiers of each argument of `v`, in order.
fn collect_ids_args(v: &Vec<(Option<String>, AstExpr)>, out: &mut Vec<String>)
    ensures
        texts(final(out)@) == texts(old(out)@) + args_ids(v@),
    decreases v,
{
    let ghost start = texts(out@);
    let mut i: usize = 0;
    assert(v@.subrange(0, 0) =~= Seq::<(Option<String>, AstExpr)>::empty());
    while i < v.len()
        invariant
            i <= v@.len(),
            texts(out@) == start + args_ids(v@.subrange(0, i as int)),
            start == texts(old(out)@),
        decreases v@.len() - i,
    {
        proof {
            vstd::std_specs::vec::axiom_vec_index_decreases(*v, i as int);
        }
        let ghost before = texts(out@);
        collect_ids_expr(&v[i].1, out);
        proof {
            let w = v@.subrange(0, i + 1);
            assert(w.subrange(0, w.len() - 1) =~= v@.subrange(0, i as int));
            assert(w[w.len() - 1] == v@[i as int]);
            assert(texts(out@) =~= start + args_ids(w));
        }
        i += 1;
    }
    assert(v@.subrange(0, v@.len() as int) =~= v@);
}

/// Appends the identifiers of each arm body of `v`, in order.
fn collect_ids_arms(v: &Vec<(AstPattern, AstExpr)>, out: &mut Vec<String>)
    ensures
        texts(final(out)@) == texts(old(out)@) + arms_ids(v@),
    decreases v,
{
    let ghost start = texts(out@);
    let mut i: usize = 0;
    assert(v@.subrange(0, 0) =~= Seq::<(AstPattern, AstExpr)>::empty());
    while i < v.len()
        invariant
            i <= v@.len(),
            texts(out@) == start + arms_ids(v@.subrange(0, i as int)),
            start == texts(old(out)@),
        decreases v@.len() - i,
    {
        proof {
            vstd::std_specs::vec::axiom_vec_index_decreases(*v, i as int);
        }
        let ghost before = texts(out@);
        collect_ids_expr(&v[i].1, out);
        proof {
            let w = v@.subrange(0, i + 1);
            assert(w.subrange(0, w.len() - 1) =~= v@.subrange(0, i as int));
            assert(w[w.len() - 1] == v@[i as int]);
            assert(texts(out@) =~= start + arms_ids(w));
        }
        i += 1;
    }
    assert(v@.subrange(0, v@.len() as int) =~= v@);
}

/// Appends the identifiers of each field value of `v`, in order.
fn collect_ids_fields(v: &Vec<(String, AstExpr)>, out: &mut Vec<String>)
    ensures
        texts(final(out)@) == texts(old(out)@) + fields_ids(v@),
    decreases v,
{
    let ghost start = texts(out@);
    let mut i: usize = 0;
    assert(v@.subrange(0, 0) =~= Seq::<(String, AstExpr)>::empty());
    while i < v.len()
        invariant
            i <= v@.len(),
            texts(out@) == start + fields_ids(v@.subrange(0, i as int)),
            start == texts(old(out)@),
        decreases v@.len() - i,
    {
        proof {
            vstd::std_specs::vec::axiom_vec_index_decreases(*v, i as int);
        }
        let ghost before = texts(out@);
        collect_ids_expr(&v[i].1, out);
        proof {
            let w = v@.subrange(0, i + 1);
            assert(w.subrange(0, w.len() - 1) =~= v@.subrange(0, i as int));
            assert(w[w.len() - 1] == v@[i as int]);
            assert(texts(out@) =~= start + fields_ids(w));
        }
        i += 1;
    }
    assert(v@.subrange(0, v@.len() as int) =~= v@);
}

/// Appends the identifiers of each key and value of `v`, in order.
fn collect_ids_entries(v: &Vec<(AstExpr, AstExpr)>, out: &mut Vec<String>)
    ensures
        texts(final(out)@) == texts(old(out)@) + entries_ids(v@),
    decreases v,
{
    let ghost start = texts(out@);
    let mut i: usize = 0;
    assert(v@.subrange(0, 0) =~= Seq::<(AstExpr, AstExpr)>::empty());
    while i < v.len()
        invariant
            i <= v@.len(),
            texts(out@) == start + entries_ids(v@.subrange(0, i as int)),
            start == texts(old(out)@),
        decreases v@.len() - i,
    {
        proof {
            vstd::std_specs::vec::axiom_vec_index_decreases(*v, i as int);
        }
        let ghost before = texts(out@);
        collect_ids_expr(&v[i].0, out);
        collect_ids_expr(&v[i].1, out);
        proof {
            let w = v@.subrange(0, i + 1);
            assert(w.subrange(0, w.len() - 1) =~= v@.subrange(0, i as int));
            assert(w[w.len() - 1] == v@[i as int]);
            assert(texts(out@) =~= start + entries_ids(w));
        }
        i += 1;
    }
    assert(v@.subrange(0, v@.len() as int) =~= v@);
}

/// Appends the identifiers of each interpolated part of `v`, in order.
fn collect_ids_parts(v: &Vec<AstFStringPart>, out: &mut Vec<String>)
    ensures
        texts(final(out)@) == texts(old(out)@) + parts_ids(v@),
    decreases v,
{
    let ghost start = texts(out@);
    let mut i: usize = 0;
    assert(v@.subrange(0, 0) =~= Seq::<AstFStringPart>::empty());
    while i < v.len()
        invariant
            i <= v@.len(),
            texts(out@) == start + parts_ids(v@.subrange(0, i as int)),
            start == texts(old(out)@),
        decreases v@.len() - i,
    {
        proof {
            vstd::std_specs::vec::axiom_vec_index_decreases(*v, i as int);
        }
        let ghost before = texts(out@);
        match &v[i] {
            AstFStringPart::Expr(e) => collect_ids_expr(e, out),
            AstFStringPart::Text(_) => {},
        }
        proof {
            let w = v@.subrange(0, i + 1);
            assert(w.subrange(0, w.len() - 1) =~= v@.subrange(0, i as int));
            assert(w[w.len() - 1] == v@[i as int]);
            assert(texts(out@) =~= start + parts_ids(w));
        }
        i += 1;
    }
    assert(v@.subrange(0, v@.len() as int) =~= v@);
}

/// Appends the identifiers of each initialiser of `v`, in order.
fn collect_ids_withs(v: &Vec<AstWithBinding>, out: &mut Vec<String>)
    ensures
        texts(final(out)@) == texts(old(out)@) + withs_ids(v@),
    decreases v,
{
    let ghost start = texts(out@);
    let mut i: usize = 0;
    assert(v@.subrange(0, 0) =~= Seq::<AstWithBinding>::empty());
    while i < v.len()
        invariant
            i <= v@.len(),
            texts(out@) == start + withs_ids(v@.subrange(0, i as int)),
            start == texts(old(out)@),
        decreases v@.len() - i,
    {
        proof {
            vstd::std_specs::vec::axiom_vec_index_decreases(*v, i as int);
        }
        let ghost before = texts(out@);
        collect_ids_expr(&v[i].init, out);
        proof {
            let w = v@.subrange(0, i + 1);
            assert(w.subrange(0, w.len() - 1) =~= v@.subrange(0, i as int));
            assert(w[w.len() - 1] == v@[i as int]);
            assert(texts(out@) =~= start + withs_ids(w));
        }
        i += 1;
    }
    assert(v@.subrange(0, v@.len() as int) =~= v@);
}

/// Appends the identifiers of each statement of `v`, in order.
fn collect_ids_stmts(v: &Vec<AstStmt>, out: &mut Vec<String>)
    ensures
        texts(final(out)@) == texts(old(out)@) + stmts_ids(v@),
    decreases v,
{
    let ghost start = texts(out@);
    let mut i: usize = 0;
    assert(v@.subrange(0, 0) =~= Seq::<AstStmt>::empty());
    while i < v.len()
        invariant
            i <= v@.len(),
            texts(out@) == start + stmts_ids(v@.subrange(0, i as int)),
            start == texts(old(out)@),
        decreases v@.len() - i,
    {
        proof {
            vstd::std_specs::vec::axiom_vec_index_decreases(*v, i as int);
        }
        let ghost before = texts(out@);
        collect_ids_stmt(&v[i], out);
        proof {
            let w = v@.subrange(0, i + 1);
            assert(w.subrange(0, w.len() - 1) =~= v@.subrange(0, i as int));
            assert(w[w.len() - 1] == v@[i as int]);
            assert(texts(out@) =~= start + stmts_ids(w));
        }
        i += 1;
    }
    assert(v@.subrange(0, v@.len() as int) =~= v@);
}

/// Appends the identifiers a block mentions: its statements', then its
/// tail's.
pub fn collect_ids_block(b: &AstBlock, out: &mut Vec<String>)
    ensures
        texts(final(out)@) == texts(old(out)@) + block_ids(*b),
    decreases b,
{
    let ghost start = texts(out@);
    collect_ids_stmts(&b.statements, out);
    let ghost mid = texts(out@);
    if let Some(r) = &b.ret {
        collect_ids_expr(r, out);
        assert(texts(out@) =~= start + block_ids(*b));
    } else {
        assert(texts(out@) =~= start + block_ids(*b));
    }
}

/// Appends the identifiers a statement mentions.
pub fn collect_ids_stmt(s: &AstStmt, out: &mut Vec<String>)
    ensures
        texts(final(out)@) == texts(old(out)@) + stmt_ids(*s),
    decreases s,
{
    let ghost start = texts(out@);
    match &s.kind {
        AstStmtKind::Bind { value, .. } => collect_ids_expr(value, out),
        AstStmtKind::Discard(e) => collect_ids_expr(e, out),
        AstStmtKind::Destructure { source, .. } => collect_ids_expr(source, out),
        AstStmtKind::Expr(e) => collect_ids_expr(e, out),
        AstStmtKind::Return(v) => {
            if let Some(e) = v {
                collect_ids_expr(e, out);
            } else {
                assert(texts(out@) =~= start + stmt_ids(*s));
            }
        },
        _ => {
            assert(texts(out@) =~= start + stmt_ids(*s));
        },
    }
}

/// Appends the identifiers of the bounds of a range, start first.
fn collect_ids_range(r: &AstRange, out: &mut Vec<String>)
    ensures
        texts(final(out)@) == texts(old(out)@) + range_ids(*r),
    decreases r,
{
    let ghost t0 = texts(out@);
    if let Some(lo) = &r.start {
        collect_ids_expr(lo, out);
    }
    let ghost t1 = texts(out@);
    assert(t1 == t0 + match r.start {
        Some(x) => expr_ids(x),
        None => Seq::empty(),
    }) by {
        if r.start is None {
            assert(t1 =~= t0 + Seq::<Seq<char>>::empty());
        }
    }
    if let Some(hi) = &r.end {
        collect_ids_expr(hi, out);
    }
    assert(texts(out@) =~= t0 + range_ids(*r)) by {
        if r.end is None {
            assert(texts(out@) =~= t1 + Seq::<Seq<char>>::empty());
        }
    }
}

/// Appends every identifier `e` mentions to `out`, in pre-order: what a
/// spawned block that holds `e` captures.
#[verifier::rlimit(60)]
pub fn collect_ids_expr(e: &AstExpr, out: &mut Vec<String>)
    ensures
        texts(final(out)@) == texts(old(out)@) + expr_ids(*e),
    decreases e,
{
    let ghost start = texts(out@);
    match e {
        AstExpr::Id(n) => {
            out.push(n.clone());
            assert(texts(out@) =~= start + seq![n@]);
            assert(texts(out@) =~= start + expr_ids(*e));
        },
        AstExpr::BinaryOp { lhs, rhs, .. } => {
            collect_ids_expr(lhs, out);
            collect_ids_expr(rhs, out);
            assert(texts(out@) =~= start + expr_ids(*e));
        },
        AstExpr::UnaryOp { operand, .. } => {
            collect_ids_expr(operand, out);
            assert(texts(out@) =~= start + expr_ids(*e));
        },
        AstExpr::Call { func, args, .. } => {
            collect_ids_expr(func, out);
            collect_ids_args(args, out);
            assert(texts(out@) =~= start + expr_ids(*e));
        },
        AstExpr::Rt(inner, _) | AstExpr::Known(inner, _) | AstExpr::RtKnown(inner, _) | AstExpr::ComptimePrint(inner, _)
        | AstExpr::Discard(inner, _) | AstExpr::EarlyReturn(inner, _) => {
            collect_ids_expr(inner, out);
            assert(texts(out@) =~= start + expr_ids(*e));
        },
        AstExpr::AtResidual { inner, .. } => {
            collect_ids_expr(inner, out);
            assert(texts(out@) =~= start + expr_ids(*e));
        },
        AstExpr::If { cond, then_block, else_block, .. } => {
            collect_ids_expr(cond, out);
            collect_ids_block(then_block, out);
            if let Some(b) = else_block {
                collect_ids_block(b, out);
            }
            assert(texts(out@) =~= start + expr_ids(*e));
        },
        AstExpr::While { cond, body, .. } => {
            collect_ids_expr(cond, out);
            collect_ids_block(body, out);
            assert(texts(out@) =~= start + expr_ids(*e));
        },
        AstExpr::ForIn { collection, body, .. } => {
            collect_ids_expr(collection, out);
            collect_ids_block(body, out);
            assert(texts(out@) =~= start + expr_ids(*e));
        },
        AstExpr::Match { scrutinee, arms, .. } => {
            collect_ids_expr(scrutinee, out);
            collect_ids_arms(arms, out);
            assert(texts(out@) =~= start + expr_ids(*e));
        },
        AstExpr::For { init, cond, step, body, .. } => {
            if let Some(st) = init {
                collect_ids_stmt(st, out);
            }
            collect_ids_expr(cond, out);
            if let Some(st) = step {
                collect_ids_stmt(st, out);
            }
            collect_ids_block(body, out);
            assert(texts(out@) =~= start + expr_ids(*e));
        },
        AstExpr::Spawn { body, .. } => {
            collect_ids_block(body, out);
            assert(texts(out@) =~= start + expr_ids(*e));
        },
        AstExpr::Assert { cond, message, .. } | AstExpr::RtAssert { cond, message, .. } => {
            collect_ids_expr(cond, out);
            collect_ids_expr(message, out);
            assert(texts(out@) =~= start + expr_ids(*e));
        },
        AstExpr::StructLit { fields, .. } => {
            collect_ids_fields(fields, out);
            assert(texts(out@) =~= start + expr_ids(*e));
        },
        AstExpr::ListLit(elts, _) | AstExpr::SetLit(elts, _) => {
            collect_ids_list(elts, out);
            assert(texts(out@) =~= start + expr_ids(*e));
        },
        AstExpr::MapLit(entries, _) => {
            collect_ids_entries(entries, out);
            assert(texts(out@) =~= start + expr_ids(*e));
        },
        AstExpr::Range { start: lo, end: hi, .. } => {
            collect_ids_expr(lo, out);
            collect_ids_expr(hi, out);
            assert(texts(out@) =~= start + expr_ids(*e));
        },
        AstExpr::FString(parts, _) => {
            collect_ids_parts(parts, out);
            assert(texts(out@) =~= start + expr_ids(*e));
        },
        AstExpr::FieldAccess { target, .. } => {
            collect_ids_expr(target, out);
            assert(texts(out@) =~= start + expr_ids(*e));
        },
        AstExpr::Index { target, index, .. } => {
            collect_ids_expr(target, out);
            collect_ids_expr(index, out);
            assert(texts(out@) =~= start + expr_ids(*e));
        },
        AstExpr::Slice { target, range, .. } => {
            collect_ids_expr(target, out);
            collect_ids_range(range, out);
            assert(texts(out@) =~= start + expr_ids(*e));
        },
        AstExpr::MethodCall { target, args, .. } => {
            collect_ids_expr(target, out);
            collect_ids_list(args, out);
            assert(texts(out@) =~= start + expr_ids(*e));
        },
        AstExpr::ElseFallback { value, fallback, .. } => {
            collect_ids_expr(value, out);
            collect_ids_block(fallback, out);
            assert(texts(out@) =~= start + expr_ids(*e));
        },
        AstExpr::Destructure { source, .. } => {
            collect_ids_expr(source, out);
            assert(texts(out@) =~= start + expr_ids(*e));
        },
        AstExpr::IfLet { source, then_block, else_block, .. } => {
            collect_ids_expr(source, out);
            collect_ids_block(then_block, out);
            if let Some(b) = else_block {
                collect_ids_block(b, out);
            }
            assert(texts(out@) =~= start + expr_ids(*e));
        },
        AstExpr::WhileLet { source, body, .. } => {
            collect_ids_expr(source, out);
            collect_ids_block(body, out);
            assert(texts(out@) =~= start + expr_ids(*e));
        },
        AstExpr::With { bindings, body, .. } => {
            collect_ids_withs(bindings, out);
            collect_ids_block(body, out);
            assert(texts(out@) =~= start + expr_ids(*e));
        },
        AstExpr::Using { value, .. } => {
            collect_ids_expr(value, out);
            assert(texts(out@) =~= start + expr_ids(*e));
        },
        AstExpr::ProviderCall { args, .. } => {
            collect_ids_list(args, out);
            assert(texts(out@) =~= start + expr_ids(*e));
        },
        _ => {},
    }
    assert(texts(out@) =~= start + expr_ids(*e));
}

} // verus!
