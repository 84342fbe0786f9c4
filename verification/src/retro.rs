//! Back-translation helpers: turning graph values back into source syntax
//! (type annotations, literals, patterns, provider names).

use vstd::prelude::*;

use std::collections::HashSet;

use crate::convert::{
    entry_name, error_text, expr_node, functions_named, graph_full_message, looked_up, names_function, self_contained,
    unit_converted, unit_resolves, AstConverter, ConversionError, no_full, unit_cost,
};
use crate::graph::{GraphKey, KnowledgeGraph, Node, NodeKind};
use crate::reduce::{reduction_of, ReductionContext};
use crate::text::{push_str, string_of};
use crate::types::{
    numeric_type_text, same_capability, type_size, types_size, AstBlock, AstExpr, AstFStringPart, AstFuncDef,
    AstIntKind, AstParam, AstPattern, AstPatternKind, AstRange, AstStmt, AstStmtKind,
    AstTranslationUnit, AstWithBinding, Capability, FloatWidth, Identifier, IntWidth, LiteralValue,
    NumericType, Pattern, PatternKind, Provider, Span, Type, UnaryOp,
};

verus! {

/// The source name of a provider.
pub open spec fn provider_text(p: Provider) -> Seq<char> {
    match p {
        Provider::Filesystem => "filesystem"@,
        Provider::Environment => "environment"@,
        Provider::Git => "git"@,
    }
}

/// The source name of a provider.
pub fn provider_name(p: &Provider) -> (s: String)
    ensures
        s@ == provider_text(*p),
{
    match p {
        Provider::Filesystem => string_of("filesystem"),
        Provider::Environment => string_of("environment"),
        Provider::Git => string_of("git"),
    }
}

/// The source spelling of a type, as annotations write it and
/// `type_from_str` reads it: `Bool`, `Int(64)`, `List(Str)`,
/// `Map(Str, Int(64))`, a named type by its name.
pub open spec fn type_src(t: Type) -> Seq<char>
    decreases t,
{
    match t {
        Type::Bool => "Bool"@,
        Type::Numeric(nt) => numeric_type_text(nt),
        Type::Str => "Str"@,
        Type::Bytes => "Bytes"@,
        Type::Null => "Null"@,
        Type::Void => "Void"@,
        Type::Option(a) => "Option("@ + type_src(*a) + ")"@,
        Type::Result(a, b) => "Result("@ + type_src(*a) + ", "@ + type_src(*b) + ")"@,
        Type::List(a) => "List("@ + type_src(*a) + ")"@,
        Type::MapOf(a, b) => "Map("@ + type_src(*a) + ", "@ + type_src(*b) + ")"@,
        Type::SetOf(a) => "Set("@ + type_src(*a) + ")"@,
        Type::Struct(name, _) => name.name@,
        Type::Enum(name, _) => name.name@,
        Type::Constrained(a, _) => type_src(*a),
        Type::Residual(a) => type_src(*a),
        Type::Behavior(b) => b.name.name@,
        Type::Handle(name, _) => name.name@,
        Type::Function { .. } => "Fn"@,
        Type::SourceLoc => "SourceLoc"@,
        Type::Range { start_type, .. } => "Range("@ + type_src(*start_type) + ")"@,
        Type::Slice { element_type } => "Slice("@ + type_src(*element_type) + ")"@,
        Type::RegionError => "RegionError"@,
        Type::UserDefined(s) => s@,
    }
}

fn write_type_src(t: &Type, out: &mut String)
    ensures
        final(out)@ == old(out)@ + type_src(*t),
    decreases type_size(*t),
{
    let ghost start = out@;
    match t {
        Type::Bool => push_str(out, "Bool"),
        Type::Numeric(nt) => nt.write_text(out),
        Type::Str => push_str(out, "Str"),
        Type::Bytes => push_str(out, "Bytes"),
        Type::Null => push_str(out, "Null"),
        Type::Void => push_str(out, "Void"),
        Type::Option(a) => {
            push_str(out, "Option(");
            write_type_src(a, out);
            push_str(out, ")");
        },
        Type::Result(a, b) => {
            push_str(out, "Result(");
            write_type_src(a, out);
            push_str(out, ", ");
            write_type_src(b, out);
            push_str(out, ")");
        },
        Type::List(a) => {
            push_str(out, "List(");
            write_type_src(a, out);
            push_str(out, ")");
        },
        Type::MapOf(a, b) => {
            push_str(out, "Map(");
            write_type_src(a, out);
            push_str(out, ", ");
            write_type_src(b, out);
            push_str(out, ")");
        },
        Type::SetOf(a) => {
            push_str(out, "Set(");
            write_type_src(a, out);
            push_str(out, ")");
        },
        Type::Struct(name, _) => push_str(out, name.name.as_str()),
        Type::Enum(name, _) => push_str(out, name.name.as_str()),
        Type::Constrained(a, _) => write_type_src(a, out),
        Type::Residual(a) => write_type_src(a, out),
        Type::Behavior(b) => push_str(out, b.name.name.as_str()),
        Type::Handle(name, _) => push_str(out, name.name.as_str()),
        Type::Function { .. } => push_str(out, "Fn"),
        Type::SourceLoc => push_str(out, "SourceLoc"),
        Type::Range { start_type, .. } => {
            push_str(out, "Range(");
            write_type_src(start_type, out);
            push_str(out, ")");
        },
        Type::Slice { element_type } => {
            push_str(out, "Slice(");
            write_type_src(element_type, out);
            push_str(out, ")");
        },
        Type::RegionError => push_str(out, "RegionError"),
        Type::UserDefined(s) => push_str(out, s.as_str()),
    }
    assert(out@ =~= start + type_src(*t));
}

/// The source spelling of a type (see [`type_src`]).
pub fn type_to_str(t: &Type) -> (s: String)
    ensures
        s@ == type_src(*t),
{
    let mut s = String::new();
    write_type_src(t, &mut s);
    assert(s@ =~= type_src(*t));
    s
}

/// Whether a binding or parameter of this type gets a written annotation:
/// residual, function, behavior, handle, void, null, constrained and
/// region-error types are left to inference.
pub open spec fn annotated(t: Type) -> bool {
    !(t is Residual || t is Function || t is Behavior || t is Handle || t is Void || t is Null
        || t is Constrained || t is RegionError)
}

/// The annotation for a binding or parameter: concrete types only.
pub fn type_ann(t: &Type) -> (r: Option<String>)
    ensures
        annotated(*t) ==> (r matches Some(s) && s@ == type_src(*t)),
        !annotated(*t) ==> r is None,
{
    match t {
        Type::Residual(_) | Type::Function { .. } | Type::Behavior(_) | Type::Handle(_, _) => None,
        Type::Void | Type::Null => None,
        Type::Constrained(_, _) | Type::RegionError => None,
        _ => Some(type_to_str(t)),
    }
}

/// The element type of a collection for a `for x: T in …` annotation.
pub fn type_to_str_el(t: &Type) -> (s: String)
    ensures
        s@ == match *t {
            Type::List(inner) => type_src(*inner),
            Type::Str => "Char"@,
            Type::Bytes => "UInt(8)"@,
            other => type_src(other),
        },
{
    match t {
        Type::List(inner) => type_to_str(inner),
        Type::Str => string_of("Char"),
        Type::Bytes => string_of("UInt(8)"),
        other => type_to_str(other),
    }
}

/// The type of a literal value.
pub open spec fn lit_type(l: LiteralValue) -> Type {
    match l {
        LiteralValue::Int { width, signed, .. } => if signed {
            Type::Numeric(NumericType::Int(width))
        } else {
            Type::Numeric(NumericType::UInt(width))
        },
        LiteralValue::UInt(_, w) => Type::Numeric(NumericType::UInt(w)),
        LiteralValue::Float { width, .. } => Type::Numeric(NumericType::Float(width)),
        LiteralValue::Str(_) => Type::Str,
        LiteralValue::Bool(_) => Type::Bool,
        LiteralValue::Null => Type::Null,
        LiteralValue::Bytes(_) => Type::Bytes,
        LiteralValue::Char(_) => Type::Numeric(NumericType::Int(IntWidth::B16)),
        LiteralValue::Struct { name, .. } => Type::UserDefined(name.name),
        LiteralValue::List(_) => Type::Void,
    }
}

/// The type of a literal value.
pub fn type_of_lit(lit: &LiteralValue) -> (t: Type)
    ensures
        t == lit_type(*lit),
{
    match lit {
        LiteralValue::Int { width, signed, .. } => if *signed {
            Type::Numeric(NumericType::Int(*width))
        } else {
            Type::Numeric(NumericType::UInt(*width))
        },
        LiteralValue::UInt(_, w) => Type::Numeric(NumericType::UInt(*w)),
        LiteralValue::Float { width, .. } => Type::Numeric(NumericType::Float(*width)),
        LiteralValue::Str(_) => Type::Str,
        LiteralValue::Bool(_) => Type::Bool,
        LiteralValue::Null => Type::Null,
        LiteralValue::Bytes(_) => Type::Bytes,
        LiteralValue::Char(_) => Type::Numeric(NumericType::Int(IntWidth::B16)),
        LiteralValue::Struct { name, .. } => Type::UserDefined(name.name.clone()),
        LiteralValue::List(_) => Type::Void,
    }
}

/// A unary expression over an operand that may have failed to convert
/// (a failed operand becomes `todo`).
pub fn unary_expr(op: UnaryOp, operand: Result<AstExpr, Vec<String>>, sp: Span) -> (e: AstExpr)
    ensures
        e matches AstExpr::UnaryOp { op: o, operand: x, span: s } && o == op && s == sp && match operand {
            Ok(a) => *x == a,
            Err(_) => *x matches AstExpr::Todo(t) && t == sp,
        },
{
    let operand = match operand {
        Ok(a) => a,
        Err(_) => AstExpr::Todo(sp.copy()),
    };
    AstExpr::UnaryOp { op, operand: Box::new(operand), span: sp }
}

/// The span of back-translated patterns: `<unknown>:0:0`.
pub open spec fn unknown_span(s: Span) -> bool {
    s.file@ == "<unknown>"@ && s.line == 0 && s.col_start == 0 && s.col_end == 0
}

/// `a` is the source pattern of graph pattern `p`: names carried over,
/// integer and boolean literal patterns kept (other literals and ranges
/// become wildcards), every pattern at the unknown span.
pub open spec fn pattern_conv(p: Pattern, a: AstPattern) -> bool
    decreases p,
{
    &&& unknown_span(a.span)
    &&& match p.kind {
        PatternKind::Wildcard => a.kind is Wildcard,
        PatternKind::Bind(id) => (a.kind matches AstPatternKind::Bind(n) && n@ == id.name@),
        PatternKind::Variant { name, param } => (a.kind matches AstPatternKind::Variant {
            name: n,
            param: q,
        } && n@ == name.name@ && match param {
            Some(i) => (q matches Some(x) && x@ == i.name@),
            None => q is None,
        }),
        PatternKind::Literal(l) => match l {
            LiteralValue::Int { value, .. } => a.kind == AstPatternKind::Literal(value),
            LiteralValue::UInt(value, _) => a.kind == AstPatternKind::Literal(value),
            LiteralValue::Bool(b) => a.kind == AstPatternKind::Literal(
                if b {
                    1
                } else {
                    0
                },
            ),
            _ => a.kind is Wildcard,
        },
        PatternKind::Struct { name, fields } => (a.kind matches AstPatternKind::Struct {
            name: n,
            fields: fs,
        } && n@ == name.name@ && fs@.len() == fields@.len() && forall|i: int|
            0 <= i < fields@.len() ==> (#[trigger] fs@[i]).0@ == fields@[i].0.name@
                && pattern_conv(fields@[i].1, fs@[i].1)),
        PatternKind::RangePattern { .. } => a.kind is Wildcard,
    }
}

/// The number of pattern constructors that conversion goes through.
pub open spec fn pattern_size(p: Pattern) -> nat
    decreases p,
{
    match p.kind {
        PatternKind::Struct { fields, .. } => 1 + pattern_fields_size(fields@, fields@.len() as int),
        _ => 1,
    }
}

/// The sizes of the first `n` field patterns, summed.
pub open spec fn pattern_fields_size(fs: Seq<(Identifier, Pattern)>, n: int) -> nat
    decreases fs, n,
{
    if n <= 0 || n > fs.len() {
        0
    } else {
        pattern_fields_size(fs, n - 1) + pattern_size(fs[n - 1].1)
    }
}

proof fn lemma_pattern_fields_size(fs: Seq<(Identifier, Pattern)>, n: int, i: int)
    requires
        0 <= i < n <= fs.len(),
    ensures
        pattern_size(fs[i].1) <= pattern_fields_size(fs, n),
    decreases n,
{
    if i < n - 1 {
        lemma_pattern_fields_size(fs, n - 1, i);
    }
}

/// The source pattern of a graph pattern (see [`pattern_conv`]).
pub fn conv_pattern(p: &Pattern) -> (a: AstPattern)
    ensures
        pattern_conv(*p, a),
    decreases pattern_size(*p),
{
    let sp = Span::unknown();
    proof {
        reveal_strlit("<unknown>");
        assert(sp.file@ =~= "<unknown>"@);
    }
    let kind = match &p.kind {
        PatternKind::Wildcard => AstPatternKind::Wildcard,
        PatternKind::Bind(id) => AstPatternKind::Bind(id.name.clone()),
        PatternKind::Variant { name, param } => AstPatternKind::Variant {
            name: name.name.clone(),
            param: match param {
                Some(i) => Some(i.name.clone()),
                None => None,
            },
        },
        PatternKind::Literal(l) => match l {
            LiteralValue::Int { value, .. } => AstPatternKind::Literal(*value),
            LiteralValue::UInt(value, _) => AstPatternKind::Literal(*value),
            LiteralValue::Bool(b) => AstPatternKind::Literal(
                if *b {
                    1
                } else {
                    0
                },
            ),
            _ => AstPatternKind::Wildcard,
        },
        PatternKind::Struct { name, fields } => {
            let mut out: Vec<(String, AstPattern)> = Vec::new();
            let mut i: usize = 0;
            while i < fields.len()
                invariant
                    i <= fields@.len(),
                    out@.len() == i,
                    pattern_fields_size(fields@, fields@.len() as int) < pattern_size(*p),
                    forall|j: int|
                        0 <= j < i ==> (#[trigger] out@[j]).0@ == fields@[j].0.name@ && pattern_conv(
                            fields@[j].1,
                            out@[j].1,
                        ),
                decreases fields@.len() - i,
            {
                proof {
                    lemma_pattern_fields_size(fields@, fields@.len() as int, i as int);
                }
                let sub = conv_pattern(&fields[i].1);
                out.push((fields[i].0.name.clone(), sub));
                i += 1;
            }
            AstPatternKind::Struct { name: name.name.clone(), fields: out }
        },
        PatternKind::RangePattern { .. } => AstPatternKind::Wildcard,
    };
    AstPattern { kind, span: sp }
}

/// An integer literal in decimal at `sp`.
pub open spec fn dec_lit(value: u128, sp: Span) -> AstExpr {
    AstExpr::Literal { value, kind: AstIntKind::Decimal, span: sp }
}

/// `e` cast to numeric type `nt` at `sp`.
pub open spec fn cast_to(nt: NumericType, e: AstExpr, sp: Span) -> AstExpr {
    AstExpr::UnaryOp { op: UnaryOp::Cast(Box::new(Type::Numeric(nt))), operand: Box::new(e), span: sp }
}

/// `e` is the source expression of literal `lit` where a value of type
/// `ty` is expected: integers and floats get a cast unless they have the
/// default type (`Int(64)`, `UInt(64)`, `Float(64)`); struct fields and list
/// elements are written at their own literal types.
pub open spec fn lit_conv(lit: LiteralValue, ty: Type, sp: Span, e: AstExpr) -> bool
    decreases lit,
{
    match lit {
        LiteralValue::Int { value, width, signed } => if signed {
            if ty == Type::Numeric(NumericType::Int(IntWidth::B64)) {
                e == dec_lit(value, sp)
            } else {
                e == cast_to(NumericType::Int(width), dec_lit(value, sp), sp)
            }
        } else {
            e == cast_to(NumericType::UInt(width), dec_lit(value, sp), sp)
        },
        LiteralValue::UInt(value, width) => if ty == Type::Numeric(NumericType::UInt(IntWidth::B64)) {
            e == dec_lit(value, sp)
        } else {
            e == cast_to(NumericType::UInt(width), dec_lit(value, sp), sp)
        },
        LiteralValue::Float { value, width } => if ty == Type::Numeric(
            NumericType::Float(FloatWidth::F64),
        ) {
            e == AstExpr::FloatLit { value, span: sp }
        } else {
            e == cast_to(NumericType::Float(width), AstExpr::FloatLit { value, span: sp }, sp)
        },
        LiteralValue::Str(s) => e == AstExpr::StrLit { value: s, span: sp },
        LiteralValue::Bool(b) => e == AstExpr::BoolLit(b, sp),
        LiteralValue::Null => e == AstExpr::NullLit(sp),
        LiteralValue::Bytes(b) => e == AstExpr::ByteString(b, sp),
        LiteralValue::Char(c) => e == AstExpr::CharLit(c, sp),
        LiteralValue::Struct { name, fields } => (e matches AstExpr::StructLit {
            name: n,
            fields: fs,
            span: s,
        } && n == name.name && s == sp && fs@.len() == fields@.len() && forall|i: int|
            0 <= i < fields@.len() ==> (#[trigger] fs@[i]).0 == fields@[i].0.name && lit_conv(
                fields@[i].1,
                lit_type(fields@[i].1),
                sp,
                fs@[i].1,
            )),
        LiteralValue::List(elts) => (e matches AstExpr::ListLit(es, s) && s == sp && es@.len()
            == elts@.len() && forall|i: int|
            0 <= i < elts@.len() ==> lit_conv(
                elts@[i],
                lit_type(elts@[i]),
                sp,
                #[trigger] es@[i],
            )),
    }
}

fn cast_expr(nt: NumericType, e: AstExpr, sp: Span) -> (r: AstExpr)
    ensures
        r == cast_to(nt, e, sp),
{
    AstExpr::UnaryOp { op: UnaryOp::Cast(Box::new(Type::Numeric(nt))), operand: Box::new(e), span: sp }
}

/// A scalar literal written back as source converts again to a node
/// holding the same literal: a `bool`, string, `null` or character keeps
/// its value, and a signed 64-bit integer of the default type keeps its
/// value.
pub proof fn lemma_literal_reconverts(lit: LiteralValue, ty: Type, sp: Span, e: AstExpr, n: Node)
    requires
        lit_conv(lit, ty, sp, e),
        lit is Bool || lit is Str || lit is Null || lit is Char || (lit matches LiteralValue::Int { width, signed, .. }
            && width == IntWidth::B64 && signed && ty == Type::Numeric(NumericType::Int(IntWidth::B64))),
        n.kind == NodeKind::Literal(lit),
        n.knowledge == crate::graph::KnowledgeState::Known,
        lit is Int ==> n.type_ == ty,
    ensures
        expr_node(e, n),
{
}

/// The source expression of a literal (see [`lit_conv`]).
pub fn literal_expr(lit: LiteralValue, ty: &Type, span: &Span) -> (e: AstExpr)
    ensures
        lit_conv(lit, *ty, *span, e),
    decreases crate::types::literal_size(lit),
{
    let ghost orig = lit;
    let sp = span.copy();
    match lit {
        LiteralValue::Int { value, width, signed } => {
            let default_lit = AstExpr::Literal { value, kind: AstIntKind::Decimal, span: sp.copy() };
            if signed {
                if matches!(ty, Type::Numeric(NumericType::Int(IntWidth::B64))) {
                    return default_lit;
                }
                return cast_expr(NumericType::Int(width), default_lit, sp);
            }
            cast_expr(NumericType::UInt(width), default_lit, sp)
        },
        LiteralValue::UInt(value, width) => {
            let default_lit = AstExpr::Literal { value, kind: AstIntKind::Decimal, span: sp.copy() };
            if matches!(ty, Type::Numeric(NumericType::UInt(IntWidth::B64))) {
                return default_lit;
            }
            cast_expr(NumericType::UInt(width), default_lit, sp)
        },
        LiteralValue::Float { value, width } => {
            if matches!(ty, Type::Numeric(NumericType::Float(FloatWidth::F64))) {
                AstExpr::FloatLit { value, span: sp }
            } else {
                let f = AstExpr::FloatLit { value, span: sp.copy() };
                cast_expr(NumericType::Float(width), f, sp)
            }
        },
        LiteralValue::Str(s) => AstExpr::StrLit { value: s, span: sp },
        LiteralValue::Bool(b) => AstExpr::BoolLit(b, sp),
        LiteralValue::Null => AstExpr::NullLit(sp),
        LiteralValue::Bytes(b) => AstExpr::ByteString(b, sp),
        LiteralValue::Char(c) => AstExpr::CharLit(c, sp),
        LiteralValue::Struct { name, fields } => {
            let ghost fv = fields@;
            let mut rest = fields;
            let mut out: Vec<(String, AstExpr)> = Vec::new();
            let mut k: usize = 0;
            let n = rest.len();
            assert(fv.skip(0) =~= fv);
            while rest.len() > 0
                invariant
                    k + rest@.len() == n,
                    n == fv.len(),
                    rest@ == fv.skip(k as int),
                    out@.len() == k,
                    crate::types::fields_size(fv, fv.len() as int) < crate::types::literal_size(orig),
                    crate::types::literal_size(orig) == crate::types::literal_size(lit),
                    forall|j: int|
                        0 <= j < k ==> (#[trigger] out@[j]).0 == fv[j].0.name && lit_conv(
                            fv[j].1,
                            lit_type(fv[j].1),
                            *span,
                            out@[j].1,
                        ),
                decreases rest@.len(),
            {
                let ghost before = rest@;
                let (key, v) = rest.remove(0);
                assert(before[0] == fv[k as int]);
                assert(rest@ =~= fv.skip(k + 1));
                proof {
                    crate::types::lemma_fields_size_elem(fv, fv.len() as int, k as int);
                }
                let t = type_of_lit(&v);
                let ex = literal_expr(v, &t, span);
                out.push((key.name, ex));
                k += 1;
            }
            AstExpr::StructLit { name: name.name, fields: out, span: sp }
        },
        LiteralValue::List(elts) => {
            let ghost ev = elts@;
            let mut rest = elts;
            let mut out: Vec<AstExpr> = Vec::new();
            let mut k: usize = 0;
            let n = rest.len();
            assert(ev.skip(0) =~= ev);
            while rest.len() > 0
                invariant
                    k + rest@.len() == n,
                    n == ev.len(),
                    rest@ == ev.skip(k as int),
                    out@.len() == k,
                    crate::types::literals_size(ev, ev.len() as int) < crate::types::literal_size(orig),
                    crate::types::literal_size(orig) == crate::types::literal_size(lit),
                    forall|j: int|
                        0 <= j < k ==> lit_conv(ev[j], lit_type(ev[j]), *span, #[trigger] out@[j]),
                decreases rest@.len(),
            {
                let ghost before = rest@;
                let v = rest.remove(0);
                assert(before[0] == ev[k as int]);
                assert(rest@ =~= ev.skip(k + 1));
                proof {
                    crate::types::lemma_literals_size_elem(ev, ev.len() as int, k as int);
                }
                let t = type_of_lit(&v);
                let ex = literal_expr(v, &t, span);
                out.push(ex);
                k += 1;
            }
            AstExpr::ListLit(out, sp)
        },
    }
}


// ─── Retrofit: graph → source AST ──────────────────────────────────

/// The source form retrofit writes for a node of kind `k`: which
/// expression it becomes, with names and list lengths carried over (a
/// literal's form is [`lit_conv`]; bindings, region errors and unary
/// operators take the form of what they wrap or produce).
pub open spec fn retro_shape(k: NodeKind, e: AstExpr) -> bool {
    match k {
        NodeKind::Reference { name, .. } => e matches AstExpr::Id(n) && n@ == name.name@,
        NodeKind::Function { name, .. } => e matches AstExpr::Id(n) && n@ == name.name@,
        NodeKind::BehaviorInstance { behavior, .. } => e matches AstExpr::Id(n) && n@ == behavior.name.name@,
        NodeKind::Call { args, .. } => e matches AstExpr::Call { args: a2, .. } && a2@.len() == args@.len(),
        NodeKind::Rt(_) => e is Rt,
        NodeKind::AtResidual { .. } => e is AtResidual,
        NodeKind::BinaryOp { op, .. } => e matches AstExpr::BinaryOp { op: o, .. } && o == op,
        NodeKind::Cast { .. } => e matches AstExpr::UnaryOp { op: UnaryOp::Cast(_), .. },
        NodeKind::If { else_branch, .. } => e matches AstExpr::If { else_block, .. } && (else_block is Some
            <==> else_branch is Some),
        NodeKind::While { .. } => e is While,
        NodeKind::For { .. } => e is For,
        NodeKind::ForIn { name, .. } => e matches AstExpr::ForIn { name: n, .. } && n@ == name.name@,
        NodeKind::Match { arms, default_arm, .. } => e matches AstExpr::Match { arms: a2, .. } && a2@.len()
            == arms@.len() + if default_arm is Some {
            1int
        } else {
            0int
        },
        NodeKind::Spawn { .. } => e is Spawn,
        NodeKind::Assert { .. } => e is Assert,
        NodeKind::RtAssert { .. } => e is RtAssert,
        NodeKind::Known(_) => e is Known,
        NodeKind::RtKnown(_) => e is RtKnown,
        NodeKind::ComptimePrint(_) => e is ComptimePrint,
        NodeKind::Todo => e is Todo,
        NodeKind::Unimplemented => e is Unimplemented,
        NodeKind::Location => e is Location,
        NodeKind::Struct { name, fields } => e matches AstExpr::StructLit { name: n, fields: f2, .. } && n@
            == name.name@ && f2@.len() == fields@.len(),
        NodeKind::List { elements } => e matches AstExpr::ListLit(es, _) && es@.len() == elements@.len(),
        NodeKind::MapOf { entries } => e matches AstExpr::MapLit(es, _) && es@.len() == entries@.len(),
        NodeKind::SetOf { elements } => e matches AstExpr::SetLit(es, _) && es@.len() == elements@.len(),
        NodeKind::Range { closed, .. } => e matches AstExpr::Range { closed: c, .. } && c == closed,
        NodeKind::FString { parts } => e matches AstExpr::FString(ps, _) && ps@.len() == parts@.len(),
        NodeKind::RawString(s) => e matches AstExpr::RawString(t, _) && t@ == s@,
        NodeKind::ByteString(b) => e matches AstExpr::ByteString(c, _) && c@ == b@,
        NodeKind::FieldAccess { field, .. } => e matches AstExpr::FieldAccess { field: f, .. } && f@ == field.name@,
        NodeKind::Index { .. } => e is Index,
        NodeKind::Slice { .. } => e is Slice,
        NodeKind::MethodCall { method, args, .. } => e matches AstExpr::MethodCall { method: m, args: a2, .. }
            && m@ == method.name@ && a2@.len() == args@.len(),
        NodeKind::EarlyReturn { .. } => e is EarlyReturn,
        NodeKind::ElseFallback { .. } => e is ElseFallback,
        NodeKind::Destructure { .. } => e is Destructure,
        NodeKind::With { bindings, .. } => e matches AstExpr::With { bindings: b2, .. } && b2@.len() == bindings@.len(),
        NodeKind::ProviderCall { provider, verb, args } => e matches AstExpr::ProviderCall {
            provider: p,
            verb: v,
            args: a2,
            ..
        } && p@ == provider_text(provider) && v@ == verb.name@ && a2@.len() == args@.len(),
        NodeKind::Using { behavior, .. } => e matches AstExpr::Using { behavior: b, .. } && b@ == behavior.name.name@,
        NodeKind::Discard { .. } => e is Discard,
        NodeKind::Break => e is Todo,
        NodeKind::Continue => e is Todo,
        NodeKind::UnaryOp { op, .. } => e matches AstExpr::UnaryOp { op: o, .. } && (op is Neg ==> o is Neg) && (op is Not
            ==> o is Not) && (op is BitNot ==> o is BitNot) && (op is Cast ==> o is Cast),
        _ => true,
    }
}

/// `sub` is what the child node `c` rebuilds to, as far as its shape goes,
/// whenever `c` converts.
pub open spec fn child_ok(g: KnowledgeGraph, c: GraphKey, fuel: u64, sub: AstExpr) -> bool {
    g.has(c) && fuel > 0 ==> retro_shape(g.node(c).kind, sub)
}

/// The operands of `e` are rebuilt from the children of node kind `k`, in
/// place: each operand has the shape of the child it stands for, and the
/// blocks of a conditional or a loop are the blocks rebuilt from its
/// branches and body.
pub open spec fn retro_children(g: KnowledgeGraph, k: NodeKind, e: AstExpr, fuel: u64) -> bool {
    match k {
        NodeKind::BinaryOp { lhs, rhs, .. } => e matches AstExpr::BinaryOp { lhs: l, rhs: r, .. } && child_ok(
            g,
            lhs,
            fuel,
            *l,
        ) && child_ok(g, rhs, fuel, *r),
        NodeKind::UnaryOp { operand, .. } => e matches AstExpr::UnaryOp { operand: o, .. } && child_ok(g, operand, fuel, *o),
        NodeKind::Cast { operand, .. } => e matches AstExpr::UnaryOp { operand: o, .. } && child_ok(g, operand, fuel, *o),
        NodeKind::Call { func, args } => e matches AstExpr::Call { func: f, args: a2, .. } && child_ok(g, func, fuel, *f)
            && a2@.len() == args@.len() && forall|i: int|
            0 <= i < args@.len() ==> (#[trigger] a2@[i]).0 is None && child_ok(g, args@[i], fuel, a2@[i].1),
        NodeKind::If { cond, then_branch, else_branch } => e matches AstExpr::If { cond: c, then_block: t, else_block: el, .. }
            && child_ok(g, cond, fuel, *c) && block_conv(g, then_branch, fuel, *t) && match else_branch {
            Some(b) => el matches Some(x) && block_conv(g, b, fuel, *x),
            None => el is None,
        },
        NodeKind::While { cond, body } => e matches AstExpr::While { cond: c, body: b, .. } && child_ok(g, cond, fuel, *c)
            && block_conv(g, body, fuel, *b),
        NodeKind::FieldAccess { target, .. } => e matches AstExpr::FieldAccess { target: t, .. } && child_ok(
            g,
            target,
            fuel,
            *t,
        ),
        NodeKind::Index { target, index } => e matches AstExpr::Index { target: t, index: i, .. } && child_ok(
            g,
            target,
            fuel,
            *t,
        ) && child_ok(g, index, fuel, *i),
        NodeKind::Assert { cond, message } => e matches AstExpr::Assert { cond: c, message: m, .. } && child_ok(
            g,
            cond,
            fuel,
            *c,
        ) && child_ok(g, message, fuel, *m),
        NodeKind::Known(inner) => e matches AstExpr::Known(x, _) && child_ok(g, inner, fuel, *x),
        NodeKind::ComptimePrint(inner) => e matches AstExpr::ComptimePrint(x, _) && child_ok(g, inner, fuel, *x),
        _ => true,
    }
}

/// `e2` has the surface form of `e`: the same kind of expression with the
/// same operator, names and number of operands (a `while let` shows as a
/// `while`, an `if let` as an `if`).
pub open spec fn same_surface(e: AstExpr, e2: AstExpr) -> bool {
    match e {
        AstExpr::Id(n) => e2 matches AstExpr::Id(m) && m@ == n@,
        AstExpr::BinaryOp { op, .. } => e2 matches AstExpr::BinaryOp { op: o, .. } && o == op,
        AstExpr::Call { args, .. } => e2 matches AstExpr::Call { args: a, .. } && a@.len() == args@.len(),
        AstExpr::If { else_block, .. } => e2 matches AstExpr::If { else_block: b, .. } && (b is Some <==> else_block is Some),
        AstExpr::IfLet { else_block, .. } => e2 matches AstExpr::If { else_block: b, .. } && (b is Some
            <==> else_block is Some),
        AstExpr::While { .. } => e2 is While,
        AstExpr::WhileLet { .. } => e2 is While,
        AstExpr::For { .. } => e2 is For,
        AstExpr::ForIn { name, .. } => e2 matches AstExpr::ForIn { name: n, .. } && n@ == name@,
        AstExpr::Match { arms, .. } => e2 matches AstExpr::Match { arms: a, .. } && a@.len() == arms@.len(),
        AstExpr::Spawn { .. } => e2 is Spawn,
        AstExpr::Assert { .. } => e2 is Assert,
        AstExpr::RtAssert { .. } => e2 is RtAssert,
        AstExpr::Rt(..) => e2 is Rt,
        AstExpr::AtResidual { .. } => e2 is AtResidual,
        AstExpr::Known(..) => e2 is Known,
        AstExpr::RtKnown(..) => e2 is RtKnown,
        AstExpr::ComptimePrint(..) => e2 is ComptimePrint,
        AstExpr::Todo(..) => e2 is Todo,
        AstExpr::Unimplemented(..) => e2 is Unimplemented,
        AstExpr::Location(..) => e2 is Location,
        AstExpr::StructLit { name, fields, .. } => e2 matches AstExpr::StructLit { name: n, fields: f, .. } && n@
            == name@ && f@.len() == fields@.len(),
        AstExpr::ListLit(es, _) => e2 matches AstExpr::ListLit(x, _) && x@.len() == es@.len(),
        AstExpr::SetLit(es, _) => e2 matches AstExpr::SetLit(x, _) && x@.len() == es@.len(),
        AstExpr::MapLit(es, _) => e2 matches AstExpr::MapLit(x, _) && x@.len() == es@.len(),
        AstExpr::Range { closed, .. } => e2 matches AstExpr::Range { closed: c, .. } && c == closed,
        AstExpr::RawString(v, _) => e2 matches AstExpr::RawString(w, _) && w@ == v@,
        AstExpr::ByteString(v, _) => e2 matches AstExpr::ByteString(w, _) && w@ == v@,
        AstExpr::FieldAccess { field, .. } => e2 matches AstExpr::FieldAccess { field: f, .. } && f@ == field@,
        AstExpr::Index { .. } => e2 is Index,
        AstExpr::Slice { .. } => e2 is Slice,
        AstExpr::MethodCall { method, args, .. } => e2 matches AstExpr::MethodCall { method: m, args: a, .. } && m@
            == method@ && a@.len() == args@.len(),
        AstExpr::EarlyReturn(..) => e2 is EarlyReturn,
        AstExpr::ElseFallback { .. } => e2 is ElseFallback,
        AstExpr::Destructure { .. } => e2 is Destructure,
        AstExpr::Using { behavior, .. } => e2 matches AstExpr::Using { behavior: b, .. } && b@ == behavior@,
        AstExpr::Discard(..) => e2 is Discard,
        _ => true,
    }
}

/// Converting an expression and rebuilding source from its node keeps the
/// expression's surface form: whatever `conv` rebuilds from the node that
/// `convert` made of `e` (before reduction rewrites it) is an expression
/// of the same kind, operator, names and number of operands.
pub proof fn lemma_convert_then_retrofit(e: AstExpr, n: Node, e2: AstExpr)
    requires
        expr_node(e, n),
        retro_shape(n.kind, e2),
    ensures
        same_surface(e, e2),
{
}

/// A copy of a list of capabilities, in order.
pub(crate) fn capabilities_listed(caps: &Vec<Capability>) -> (v: Vec<Capability>)
    ensures
        v@.len() == caps@.len(),
        forall|i: int| 0 <= i < caps@.len() ==> same_capability(caps@[i], #[trigger] v@[i]),
{
    let mut v: Vec<Capability> = Vec::new();
    let mut i: usize = 0;
    while i < caps.len()
        invariant
            i <= caps@.len(),
            v@.len() == i,
            forall|j: int| 0 <= j < i ==> same_capability(caps@[j], #[trigger] v@[j]),
        decreases caps@.len() - i,
    {
        v.push(caps[i].copy());
        i += 1;
    }
    v
}

fn depth_error() -> (e: Vec<String>)
    ensures
        e@.len() == 1,
{
    let mut e: Vec<String> = Vec::new();
    e.push(string_of("nesting too deep"));
    e
}

/// The source expression of the node under `key`, rebuilt with a depth
/// budget of `fuel` nested conversions; it fails for a key that names no
/// node or when the budget runs out.
pub fn conv(g: &KnowledgeGraph, key: GraphKey, fuel: u64) -> (r: Result<AstExpr, Vec<String>>)
    ensures
        g.has(key) && fuel > 0 ==> (r matches Ok(e) && retro_shape(g.node(key).kind, e) && retro_children(
            *g,
            g.node(key).kind,
            e,
            (fuel - 1) as u64,
        )),
        !g.has(key) ==> r is Err,
        fuel == 0 ==> r is Err,
    decreases fuel, 0nat,
{
    if fuel == 0 {
        return Err(depth_error());
    }
    match g.get_node_checked(key) {
        Some(node) => Ok(conv_typed(g, &node.kind, &node.type_, &node.span, fuel - 1)),
        None => Err(depth_error()),
    }
}

/// The source expression of a node, or `todo` at `sp` when it cannot be
/// rebuilt.
fn conv_or_todo(g: &KnowledgeGraph, key: GraphKey, sp: &Span, fuel: u64) -> (e: AstExpr)
    ensures
        g.has(key) && fuel > 0 ==> retro_shape(g.node(key).kind, e),
    decreases fuel, 1nat,
{
    match conv(g, key, fuel) {
        Ok(e) => e,
        Err(_) => AstExpr::Todo(sp.copy()),
    }
}

fn conv_all(g: &KnowledgeGraph, keys: &Vec<GraphKey>, sp: &Span, fuel: u64) -> (r: Vec<AstExpr>)
    ensures
        r@.len() == keys@.len(),
    decreases fuel, 2nat,
{
    let mut out: Vec<AstExpr> = Vec::new();
    let mut i: usize = 0;
    while i < keys.len()
        invariant
            i <= keys@.len(),
            out@.len() == i,
        decreases keys@.len() - i,
    {
        out.push(conv_or_todo(g, keys[i], sp, fuel));
        i += 1;
    }
    out
}

/// The source expression for a node of kind `kind` and type `ty` located
/// at `span` (see [`retro_shape`]).
pub fn conv_typed(g: &KnowledgeGraph, kind: &NodeKind, ty: &Type, span: &Span, fuel: u64) -> (e: AstExpr)
    ensures
        retro_shape(*kind, e),
        retro_children(*g, *kind, e, fuel),
        *kind matches NodeKind::Literal(l) ==> exists|c: LiteralValue| crate::types::same_lit(l, c) && lit_conv(c, *ty, *span, e),
    decreases fuel, 3nat,
{
    let sp = span.copy();
    match kind {
        NodeKind::Literal(lit) => {
            let c = lit.copy();
            let e = literal_expr(c, ty, span);
            proof {
                assert(crate::types::same_lit(*lit, c) && lit_conv(c, *ty, *span, e));
            }
            e
        },
        NodeKind::Reference { name, .. } => AstExpr::Id(name.name.clone()),
        NodeKind::Function { name, .. } => AstExpr::Id(name.name.clone()),
        NodeKind::Call { func, args } => {
            let f = conv_or_todo(g, *func, &sp, fuel);
            let mut a2: Vec<(Option<String>, AstExpr)> = Vec::new();
            let mut i: usize = 0;
            while i < args.len()
                invariant
                    i <= args@.len(),
                    a2@.len() == i,
                    forall|j: int| 0 <= j < i ==> (#[trigger] a2@[j]).0 is None && child_ok(*g, args@[j], fuel, a2@[j].1),
                decreases args@.len() - i,
            {
                a2.push((None, conv_or_todo(g, args[i], &sp, fuel)));
                i += 1;
            }
            AstExpr::Call { func: Box::new(f), args: a2, span: sp }
        },
        NodeKind::Rt(inner) => AstExpr::Rt(Box::new(conv_or_todo(g, *inner, &sp, fuel)), sp),
        NodeKind::AtResidual { type_, inner } => AstExpr::AtResidual {
            type_: type_.copy(),
            inner: Box::new(conv_or_todo(g, *inner, &sp, fuel)),
            span: sp,
        },
        NodeKind::BinaryOp { op, lhs, rhs } => AstExpr::BinaryOp {
            op: *op,
            lhs: Box::new(conv_or_todo(g, *lhs, &sp, fuel)),
            rhs: Box::new(conv_or_todo(g, *rhs, &sp, fuel)),
            span: sp,
        },
        NodeKind::UnaryOp { op, operand } => unary_expr(op.copy(), conv(g, *operand, fuel), sp),
        NodeKind::Cast { type_, operand } => AstExpr::UnaryOp {
            op: UnaryOp::Cast(Box::new(type_.copy())),
            operand: Box::new(conv_or_todo(g, *operand, &sp, fuel)),
            span: sp,
        },
        NodeKind::If { cond, then_branch, else_branch } => {
            let c = conv_or_todo(g, *cond, &sp, fuel);
            let t = block(g, *then_branch, fuel);
            let el = match else_branch {
                Some(k) => Some(Box::new(block(g, *k, fuel))),
                None => None,
            };
            AstExpr::If { cond: Box::new(c), then_block: Box::new(t), else_block: el, span: sp }
        },
        NodeKind::While { cond, body } => AstExpr::While {
            cond: Box::new(conv_or_todo(g, *cond, &sp, fuel)),
            body: Box::new(block(g, *body, fuel)),
            span: sp,
        },
        NodeKind::For { init, cond, step, body } => {
            let i0 = match node_to_stmt(g, *init, fuel) {
                Some(s) => Some(Box::new(s)),
                None => None,
            };
            let c = conv_or_todo(g, *cond, &sp, fuel);
            let s0 = match node_to_stmt(g, *step, fuel) {
                Some(s) => Some(Box::new(s)),
                None => None,
            };
            AstExpr::For { init: i0, cond: Box::new(c), step: s0, body: Box::new(block(g, *body, fuel)), span: sp }
        },
        NodeKind::ForIn { iter, name, body } => {
            let elem = match g.get_node_checked(*iter) {
                Some(n) => type_to_str_el(&n.type_),
                None => string_of(""),
            };
            AstExpr::ForIn {
                type_: elem,
                name: name.name.clone(),
                collection: Box::new(conv_or_todo(g, *iter, &sp, fuel)),
                body: Box::new(block(g, *body, fuel)),
                span: sp,
            }
        },
        NodeKind::Match { scrutinee, arms, default_arm } => {
            let mut out: Vec<(AstPattern, AstExpr)> = Vec::new();
            let mut i: usize = 0;
            while i < arms.len()
                invariant
                    i <= arms@.len(),
                    out@.len() == i,
                decreases arms@.len() - i,
            {
                let pat = conv_pattern(&arms[i].0);
                out.push((pat, conv_or_todo(g, arms[i].1, &sp, fuel)));
                i += 1;
            }
            if let Some(d) = default_arm {
                out.push((AstPattern { kind: AstPatternKind::Wildcard, span: sp.copy() }, conv_or_todo(g, *d, &sp, fuel)));
            }
            AstExpr::Match { scrutinee: Box::new(conv_or_todo(g, *scrutinee, &sp, fuel)), arms: out, span: sp }
        },
        NodeKind::Spawn { capabilities, body, .. } => AstExpr::Spawn {
            capabilities: capabilities_listed(capabilities),
            body: block(g, *body, fuel),
            span: sp,
        },
        NodeKind::Assert { cond, message } => AstExpr::Assert {
            cond: Box::new(conv_or_todo(g, *cond, &sp, fuel)),
            message: Box::new(conv_or_todo(g, *message, &sp, fuel)),
            span: sp,
        },
        NodeKind::RtAssert { cond, message } => AstExpr::RtAssert {
            cond: Box::new(conv_or_todo(g, *cond, &sp, fuel)),
            message: Box::new(conv_or_todo(g, *message, &sp, fuel)),
            span: sp,
        },
        NodeKind::Known(inner) => AstExpr::Known(Box::new(conv_or_todo(g, *inner, &sp, fuel)), sp),
        NodeKind::RtKnown(inner) => AstExpr::RtKnown(Box::new(conv_or_todo(g, *inner, &sp, fuel)), sp),
        NodeKind::ComptimePrint(inner) => AstExpr::ComptimePrint(Box::new(conv_or_todo(g, *inner, &sp, fuel)), sp),
        NodeKind::Todo => AstExpr::Todo(sp),
        NodeKind::Unimplemented => AstExpr::Unimplemented(sp),
        NodeKind::Location => AstExpr::Location(sp),
        NodeKind::Struct { name, fields } => {
            let mut out: Vec<(String, AstExpr)> = Vec::new();
            let mut i: usize = 0;
            while i < fields.len()
                invariant
                    i <= fields@.len(),
                    out@.len() == i,
                decreases fields@.len() - i,
            {
                out.push((fields[i].0.name.clone(), conv_or_todo(g, fields[i].1, &sp, fuel)));
                i += 1;
            }
            AstExpr::StructLit { name: name.name.clone(), fields: out, span: sp }
        },
        NodeKind::List { elements } => AstExpr::ListLit(conv_all(g, elements, &sp, fuel), sp),
        NodeKind::MapOf { entries } => {
            let mut out: Vec<(AstExpr, AstExpr)> = Vec::new();
            let mut i: usize = 0;
            while i < entries.len()
                invariant
                    i <= entries@.len(),
                    out@.len() == i,
                decreases entries@.len() - i,
            {
                let k = conv_or_todo(g, entries[i].0, &sp, fuel);
                let v = conv_or_todo(g, entries[i].1, &sp, fuel);
                out.push((k, v));
                i += 1;
            }
            AstExpr::MapLit(out, sp)
        },
        NodeKind::SetOf { elements } => AstExpr::SetLit(conv_all(g, elements, &sp, fuel), sp),
        NodeKind::Range { start, end, closed } => AstExpr::Range {
            start: Box::new(conv_or_todo(g, *start, &sp, fuel)),
            end: Box::new(conv_or_todo(g, *end, &sp, fuel)),
            closed: *closed,
            span: sp,
        },
        NodeKind::FString { parts } => {
            let mut out: Vec<AstFStringPart> = Vec::new();
            let mut i: usize = 0;
            while i < parts.len()
                invariant
                    i <= parts@.len(),
                    out@.len() == i,
                decreases parts@.len() - i,
            {
                match parts[i].expr {
                    Some(ek) => out.push(AstFStringPart::Expr(Box::new(conv_or_todo(g, ek, &sp, fuel)))),
                    None => out.push(AstFStringPart::Text(parts[i].text.clone())),
                }
                i += 1;
            }
            AstExpr::FString(out, sp)
        },
        NodeKind::RawString(s) => AstExpr::RawString(s.clone(), sp),
        NodeKind::ByteString(b) => {
            let mut c: Vec<u8> = Vec::new();
            let mut i: usize = 0;
            while i < b.len()
                invariant
                    i <= b@.len(),
                    c@ == b@.take(i as int),
                decreases b@.len() - i,
            {
                c.push(b[i]);
                assert(c@ =~= b@.take(i + 1));
                i += 1;
            }
            assert(c@ =~= b@);
            AstExpr::ByteString(c, sp)
        },
        NodeKind::FieldAccess { target, field } => AstExpr::FieldAccess {
            target: Box::new(conv_or_todo(g, *target, &sp, fuel)),
            field: field.name.clone(),
            span: sp,
        },
        NodeKind::Index { target, index } => AstExpr::Index {
            target: Box::new(conv_or_todo(g, *target, &sp, fuel)),
            index: Box::new(conv_or_todo(g, *index, &sp, fuel)),
            span: sp,
        },
        NodeKind::Slice { target, range } => AstExpr::Slice {
            target: Box::new(conv_or_todo(g, *target, &sp, fuel)),
            range: Box::new(conv_range_key(g, *range, fuel)),
            span: sp,
        },
        NodeKind::MethodCall { target, method, args } => AstExpr::MethodCall {
            target: Box::new(conv_or_todo(g, *target, &sp, fuel)),
            method: method.name.clone(),
            args: conv_all(g, args, &sp, fuel),
            span: sp,
        },
        NodeKind::EarlyReturn { value } => AstExpr::EarlyReturn(Box::new(conv_or_todo(g, *value, &sp, fuel)), sp),
        NodeKind::ElseFallback { value, fallback } => AstExpr::ElseFallback {
            value: Box::new(conv_or_todo(g, *value, &sp, fuel)),
            fallback: block(g, *fallback, fuel),
            span: sp,
        },
        NodeKind::Destructure { pattern, source, .. } => AstExpr::Destructure {
            pattern: conv_pattern(pattern),
            source: Box::new(conv_or_todo(g, *source, &sp, fuel)),
            span: sp,
        },
        NodeKind::With { bindings, body } => {
            let mut out: Vec<AstWithBinding> = Vec::new();
            let mut i: usize = 0;
            while i < bindings.len()
                invariant
                    i <= bindings@.len(),
                    out@.len() == i,
                decreases bindings@.len() - i,
            {
                out.push(AstWithBinding {
                    type_: type_ann(&bindings[i].type_),
                    name: bindings[i].name.name.clone(),
                    init: Box::new(conv_or_todo(g, bindings[i].init, &sp, fuel)),
                });
                i += 1;
            }
            AstExpr::With { bindings: out, body: block(g, *body, fuel), span: sp }
        },
        NodeKind::ProviderCall { provider, verb, args } => AstExpr::ProviderCall {
            provider: provider_name(provider),
            verb: verb.name.clone(),
            args: conv_all(g, args, &sp, fuel),
            span: sp,
        },
        NodeKind::BehaviorInstance { behavior, .. } => AstExpr::Id(behavior.name.name.clone()),
        NodeKind::Using { value, behavior } => AstExpr::Using {
            value: Box::new(conv_or_todo(g, *value, &sp, fuel)),
            behavior: behavior.name.name.clone(),
            span: sp,
        },
        NodeKind::RegionError(inner) => conv_or_todo(g, *inner, &sp, fuel),
        NodeKind::Binding { def, .. } => conv_or_todo(g, *def, &sp, fuel),
        NodeKind::Discard { source } => AstExpr::Discard(Box::new(conv_or_todo(g, *source, &sp, fuel)), sp),
        NodeKind::Break => AstExpr::Todo(sp),
        NodeKind::Continue => AstExpr::Todo(sp),
    }
}

/// `conv` succeeds on `k` with budget `fuel`.
pub open spec fn converts(g: KnowledgeGraph, k: GraphKey, fuel: u64) -> bool {
    g.has(k) && fuel > 0
}

/// The node under `k` is the literal `null`.
pub open spec fn null_at(g: KnowledgeGraph, k: GraphKey) -> bool {
    g.has(k) && g.node(k).kind == NodeKind::Literal(LiteralValue::Null)
}

/// The type annotation written for type `t`.
pub open spec fn ann_is(t: Type, a: Option<String>) -> bool {
    if annotated(t) {
        a matches Some(s) && s@ == type_src(t)
    } else {
        a is None
    }
}

/// Whether the statement anchor `key` gives a statement: not a bare
/// literal, and every part it rebuilds converts (a `return` of `null`
/// needs none).
pub open spec fn stmt_yields(g: KnowledgeGraph, key: GraphKey, fuel: u64) -> bool {
    g.has(key) && match g.node(key).kind {
        NodeKind::Literal(_) => false,
        NodeKind::Break => true,
        NodeKind::Continue => true,
        NodeKind::Binding { def, .. } => converts(g, def, fuel),
        NodeKind::Discard { source } => converts(g, source, fuel),
        NodeKind::Destructure { source, .. } => converts(g, source, fuel),
        NodeKind::EarlyReturn { value } => null_at(g, value) || converts(g, value, fuel),
        NodeKind::ComptimePrint(inner) => converts(g, inner, fuel),
        _ => fuel > 0,
    }
}

/// `s` is the statement the anchor `key` gives: the node's span, and a
/// binding, discard, destructuring, `return`, `break`, `continue` or
/// compile-time print for those nodes, an expression statement for any
/// other; each rebuilt part has the shape of its node.
pub open spec fn stmt_shape(g: KnowledgeGraph, key: GraphKey, s: AstStmt) -> bool {
    let n = g.node(key);
    &&& s.span == n.span
    &&& match n.kind {
        NodeKind::Break => s.kind is Break,
        NodeKind::Continue => s.kind is Continue,
        NodeKind::Binding { name, def } => s.kind matches AstStmtKind::Bind { type_, name: nm, value } && nm@
            == name.name@ && ann_is(n.type_, type_) && retro_shape(g.node(def).kind, *value),
        NodeKind::Discard { source } => s.kind matches AstStmtKind::Discard(e) && retro_shape(g.node(source).kind, *e),
        NodeKind::Destructure { pattern, source, .. } => s.kind matches AstStmtKind::Destructure { pattern: p, source: e }
            && pattern_conv(pattern, p) && retro_shape(g.node(source).kind, *e),
        NodeKind::EarlyReturn { value } => if null_at(g, value) {
            s.kind == AstStmtKind::Return(None)
        } else {
            s.kind matches AstStmtKind::Return(Some(e)) && retro_shape(g.node(value).kind, *e)
        },
        NodeKind::ComptimePrint(inner) => s.kind matches AstStmtKind::Expr(b) && (*b matches AstExpr::ComptimePrint(
            e,
            _,
        ) && retro_shape(g.node(inner).kind, *e)),
        _ => s.kind matches AstStmtKind::Expr(e) && retro_shape(n.kind, *e),
    }
}

/// `r` is the range `conv_range_key` gives for `range`: each bound of a
/// range node that converts, with its shape, and the node's closedness;
/// empty bounds, open, for anything else.
pub open spec fn range_conv(g: KnowledgeGraph, range: GraphKey, fuel: u64, r: AstRange) -> bool {
    if g.has(range) && g.node(range).kind is Range {
        let k = g.node(range).kind;
        &&& r.closed == k->Range_closed
        &&& if converts(g, k->Range_start, fuel) {
            r.start matches Some(e) && retro_shape(g.node(k->Range_start).kind, e)
        } else {
            r.start is None
        }
        &&& if converts(g, k->Range_end, fuel) {
            r.end matches Some(e) && retro_shape(g.node(k->Range_end).kind, e)
        } else {
            r.end is None
        }
    } else {
        r.start is None && r.end is None && !r.closed
    }
}

/// The source range of a range node (empty bounds for anything else).
fn conv_range_key(g: &KnowledgeGraph, range: GraphKey, fuel: u64) -> (r: AstRange)
    ensures
        range_conv(*g, range, fuel, r),
    decreases fuel, 2nat,
{
    match g.get_node_checked(range) {
        Some(n) => match &n.kind {
            NodeKind::Range { start, end, closed } => {
                let s = match conv(g, *start, fuel) {
                    Ok(e) => Some(e),
                    Err(_) => None,
                };
                let e = match conv(g, *end, fuel) {
                    Ok(x) => Some(x),
                    Err(_) => None,
                };
                AstRange { start: s, end: e, closed: *closed }
            },
            _ => AstRange { start: None, end: None, closed: false },
        },
        None => AstRange { start: None, end: None, closed: false },
    }
}

/// The node under `key` is the literal `null`.
fn known_null(g: &KnowledgeGraph, key: GraphKey) -> (b: bool)
    ensures
        b == (g.has(key) && g.node(key).kind == NodeKind::Literal(LiteralValue::Null)),
{
    match g.get_node_checked(key) {
        Some(n) => match &n.kind {
            NodeKind::Literal(LiteralValue::Null) => true,
            _ => false,
        },
        None => false,
    }
}

/// A statement anchor as a statement; `None` for a bare known literal (a
/// value that folded away) or when a part cannot be rebuilt.
fn stmt(g: &KnowledgeGraph, key: GraphKey, fuel: u64) -> (r: Option<AstStmt>)
    ensures
        r is Some <==> stmt_yields(*g, key, fuel),
        r matches Some(st) ==> stmt_shape(*g, key, st),
    decreases fuel, 1nat,
{
    let node = match g.get_node_checked(key) {
        Some(n) => n,
        None => {
            return None;
        },
    };
    let span = node.span.copy();
    let kind = match &node.kind {
        NodeKind::Binding { name, def } => {
            let v = match conv(g, *def, fuel) {
                Ok(e) => e,
                Err(_) => {
                    return None;
                },
            };
            AstStmtKind::Bind { type_: type_ann(&node.type_), name: name.name.clone(), value: Box::new(v) }
        },
        NodeKind::Discard { source } => match conv(g, *source, fuel) {
            Ok(e) => AstStmtKind::Discard(Box::new(e)),
            Err(_) => {
                return None;
            },
        },
        NodeKind::Destructure { pattern, source, .. } => match conv(g, *source, fuel) {
            Ok(e) => AstStmtKind::Destructure { pattern: conv_pattern(pattern), source: Box::new(e) },
            Err(_) => {
                return None;
            },
        },
        NodeKind::EarlyReturn { value } => {
            if known_null(g, *value) {
                AstStmtKind::Return(None)
            } else {
                match conv(g, *value, fuel) {
                    Ok(e) => AstStmtKind::Return(Some(Box::new(e))),
                    Err(_) => {
                        return None;
                    },
                }
            }
        },
        NodeKind::Break => AstStmtKind::Break,
        NodeKind::Continue => AstStmtKind::Continue,
        NodeKind::ComptimePrint(inner) => {
            let e = match conv(g, *inner, fuel) {
                Ok(e) => e,
                Err(_) => {
                    return None;
                },
            };
            let isp = match g.get_node_checked(*inner) {
                Some(n) => n.span.copy(),
                None => Span::unknown(),
            };
            AstStmtKind::Expr(Box::new(AstExpr::ComptimePrint(Box::new(e), isp)))
        },
        NodeKind::Literal(_) => {
            return None;
        },
        other => {
            if fuel == 0 {
                return None;
            }
            AstStmtKind::Expr(Box::new(conv_typed(g, other, &node.type_, &node.span, fuel - 1)))
        },
    };
    Some(AstStmt { kind, span })
}

/// A node in statement position (a `for` loop's init or step) as a
/// statement; `None` for a bare literal.
fn node_to_stmt(g: &KnowledgeGraph, key: GraphKey, fuel: u64) -> (r: Option<AstStmt>)
    ensures
        r is Some <==> (g.has(key) && !(g.node(key).kind is Literal) && (g.node(key).kind is Binding || fuel > 0)),
        r matches Some(st) ==> st.span == g.node(key).span && match g.node(key).kind {
            NodeKind::Binding { name, def } => st.kind matches AstStmtKind::Bind { type_, name: nm, value } && nm@
                == name.name@ && ann_is(g.node(key).type_, type_) && if converts(*g, def, fuel) {
                retro_shape(g.node(def).kind, *value)
            } else {
                *value == AstExpr::Todo(g.node(key).span)
            },
            _ => st.kind matches AstStmtKind::Expr(e) && retro_shape(g.node(key).kind, *e),
        },
    decreases fuel, 2nat,
{
    let node = match g.get_node_checked(key) {
        Some(n) => n,
        None => {
            return None;
        },
    };
    let span = node.span.copy();
    let kind = match &node.kind {
        NodeKind::Binding { name, def } => {
            let v = match conv(g, *def, fuel) {
                Ok(e) => e,
                Err(_) => AstExpr::Todo(span.copy()),
            };
            AstStmtKind::Bind { type_: type_ann(&node.type_), name: name.name.clone(), value: Box::new(v) }
        },
        NodeKind::Literal(_) => {
            return None;
        },
        other => {
            if fuel == 0 {
                return None;
            }
            AstStmtKind::Expr(Box::new(conv_typed(g, other, &node.type_, &node.span, fuel - 1)))
        },
    };
    Some(AstStmt { kind, span })
}

/// The anchors among `a` that give statements (see [`stmt_yields`]),
/// in order, the tail anchor left out.
pub open spec fn stmt_anchors(g: KnowledgeGraph, a: Seq<GraphKey>, tail: Option<GraphKey>, fuel: u64) -> Seq<GraphKey>
    decreases a.len(),
{
    if a.len() == 0 {
        Seq::empty()
    } else {
        let p = stmt_anchors(g, a.drop_last(), tail, fuel);
        if tail != Some(a.last()) && stmt_yields(g, a.last(), fuel) {
            p.push(a.last())
        } else {
            p
        }
    }
}

/// `ret` is what `conv` gives for `k`, when it converts.
pub open spec fn ret_conv(g: KnowledgeGraph, k: GraphKey, fuel: u64, ret: Option<Box<AstExpr>>) -> bool {
    if converts(g, k, fuel) {
        ret matches Some(e) && retro_shape(g.node(k).kind, *e)
    } else {
        ret is None
    }
}

/// The return expression of a block whose recorded anchors are `a`, up to
/// the point where the anchors seen are `a`: the tail anchor's conversion
/// once it has been seen, nothing before.
pub open spec fn tail_ret(g: KnowledgeGraph, a: Seq<GraphKey>, tail: Option<GraphKey>, fuel: u64, ret: Option<Box<AstExpr>>) -> bool {
    match tail {
        Some(t) => if a.contains(t) {
            ret_conv(g, t, fuel, ret)
        } else {
            ret is None
        },
        None => ret is None,
    }
}

/// `b` is the block rebuilt from `root`: without recorded anchors (and no
/// tail), the root converted as its return expression; otherwise one
/// statement per anchor that gives one, in order, and the tail anchor's
/// conversion as the return expression.
pub open spec fn block_conv(g: KnowledgeGraph, root: GraphKey, fuel: u64, b: AstBlock) -> bool {
    match g.blocks().get(root.0) {
        Some(info) => if info.anchors@.len() == 0 && info.tail is None {
            b.statements@.len() == 0 && ret_conv(g, root, fuel, b.ret)
        } else {
            let sa = stmt_anchors(g, info.anchors@, info.tail, fuel);
            &&& b.statements@.len() == sa.len()
            &&& forall|i: int| 0 <= i < sa.len() ==> stmt_shape(g, sa[i], #[trigger] b.statements@[i])
            &&& tail_ret(g, info.anchors@, info.tail, fuel, b.ret)
        },
        None => b.statements@.len() == 0 && ret_conv(g, root, fuel, b.ret),
    }
}

/// A block rebuilt from the statement anchors recorded under its root:
/// statements in order, the tail anchor as the return expression. Without
/// recorded anchors the whole block folded into its root, which becomes the
/// return expression.
pub fn block(g: &KnowledgeGraph, root: GraphKey, fuel: u64) -> (b: AstBlock)
    ensures
        g.blocks().contains_key(root.0) ==> b.statements@.len() <= g.blocks()[root.0].anchors@.len(),
        block_conv(*g, root, fuel, b),
    decreases fuel, 2nat,
{
    let mut statements: Vec<AstStmt> = Vec::new();
    let mut ret: Option<Box<AstExpr>> = None;
    match g.block_info(root) {
        Some(info) => {
            let mut i: usize = 0;
            proof {
                assert(info.anchors@.take(0) =~= Seq::<GraphKey>::empty());
            }
            while i < info.anchors.len()
                invariant
                    i <= info.anchors@.len(),
                    statements@.len() <= i,
                    ({
                        let sa = stmt_anchors(*g, info.anchors@.take(i as int), info.tail, fuel);
                        &&& statements@.len() == sa.len()
                        &&& forall|j: int| 0 <= j < sa.len() ==> stmt_shape(*g, sa[j], #[trigger] statements@[j])
                    }),
                    tail_ret(*g, info.anchors@.take(i as int), info.tail, fuel, ret),
                decreases info.anchors@.len() - i,
            {
                proof {
                    let a = info.anchors@;
                    assert(a.take(i + 1).drop_last() =~= a.take(i as int));
                    assert(a.take(i + 1).last() == a[i as int]);
                    assert forall|t: GraphKey| a.take(i + 1).contains(t) <==> (a.take(i as int).contains(t) || t == a[i as int]) by {
                        if a.take(i + 1).contains(t) {
                            let j = choose|j: int| 0 <= j < i + 1 && #[trigger] a.take(i + 1)[j] == t;
                            if j < i {
                                assert(a.take(i as int)[j] == t);
                            }
                        }
                        if a.take(i as int).contains(t) {
                            let j = choose|j: int| 0 <= j < i && #[trigger] a.take(i as int)[j] == t;
                            assert(a.take(i + 1)[j] == t);
                        }
                        if t == a[i as int] {
                            assert(a.take(i + 1)[i as int] == t);
                        }
                    }
                }
                let anchor = info.anchors[i];
                let is_tail = match info.tail {
                    Some(t) => t == anchor,
                    None => false,
                };
                if is_tail {
                    ret = match conv(g, anchor, fuel) {
                        Ok(e) => Some(Box::new(e)),
                        Err(_) => None,
                    };
                } else {
                    match stmt(g, anchor, fuel) {
                        Some(s) => statements.push(s),
                        None => {},
                    }
                }
                i += 1;
            }
            proof {
                assert(info.anchors@.take(i as int) =~= info.anchors@);
            }
            if info.anchors.len() == 0 && info.tail.is_none() {
                ret = match conv(g, root, fuel) {
                    Ok(e) => Some(Box::new(e)),
                    Err(_) => None,
                };
            }
        },
        None => {
            ret = match conv(g, root, fuel) {
                Ok(e) => Some(Box::new(e)),
                Err(_) => None,
            };
        },
    }
    AstBlock { statements, ret }
}


/// The name a key sorts by: its function's name (empty for other nodes).
pub open spec fn sort_name(g: KnowledgeGraph, k: GraphKey) -> Seq<char> {
    if g.has(k) && g.node(k).kind is Function {
        g.node(k).kind->Function_name.name@
    } else {
        Seq::empty()
    }
}

fn fn_name(g: &KnowledgeGraph, k: GraphKey) -> (s: String)
    ensures
        s@ == sort_name(*g, k),
{
    match g.get_node_checked(k) {
        Some(n) => match &n.kind {
            NodeKind::Function { name, .. } => name.name.clone(),
            _ => String::new(),
        },
        None => String::new(),
    }
}

/// `x` inserted after every key whose name sorts before or with its own.
pub open spec fn insert_key(g: KnowledgeGraph, s: Seq<GraphKey>, x: GraphKey) -> Seq<GraphKey>
    decreases s.len(),
{
    if s.len() == 0 {
        seq![x]
    } else if crate::text::chars_le(sort_name(g, s.last()), sort_name(g, x)) {
        s.push(x)
    } else {
        insert_key(g, s.drop_last(), x).push(s.last())
    }
}

/// The stable sort of keys by function name.
pub open spec fn sort_keys(g: KnowledgeGraph, s: Seq<GraphKey>) -> Seq<GraphKey>
    decreases s.len(),
{
    if s.len() == 0 {
        Seq::empty()
    } else {
        insert_key(g, sort_keys(g, s.drop_last()), s.last())
    }
}

proof fn lemma_insert_key_split(g: KnowledgeGraph, s: Seq<GraphKey>, x: GraphKey, p: int)
    requires
        0 <= p <= s.len(),
        forall|j: int| p <= j < s.len() ==> !crate::text::chars_le(#[trigger] sort_name(g, s[j]), sort_name(g, x)),
        p == 0 || crate::text::chars_le(sort_name(g, s[p - 1]), sort_name(g, x)),
    ensures
        insert_key(g, s, x) == s.take(p).push(x) + s.skip(p),
    decreases s.len(),
{
    if s.len() == 0 {
        assert(s.take(p).push(x) + s.skip(p) =~= seq![x]);
    } else if p == s.len() {
        assert(s.take(p) =~= s);
        assert(s.skip(p) =~= Seq::<GraphKey>::empty());
        assert(s.take(p).push(x) + s.skip(p) =~= s.push(x));
    } else {
        let t = s.drop_last();
        assert(!crate::text::chars_le(sort_name(g, s[s.len() - 1]), sort_name(g, x)));
        assert forall|j: int| p <= j < t.len() implies !crate::text::chars_le(#[trigger] sort_name(g, t[j]), sort_name(g, x)) by {
            assert(t[j] == s[j]);
            assert(!crate::text::chars_le(sort_name(g, s[j]), sort_name(g, x)));
        }
        if p > 0 {
            assert(t[p - 1] == s[p - 1]);
        }
        lemma_insert_key_split(g, t, x, p);
        assert(t.take(p) =~= s.take(p));
        assert(s.take(p).push(x) + s.skip(p) =~= (t.take(p).push(x) + t.skip(p)).push(s.last()));
    }
}

/// The keys of `s` are in function-name order.
pub open spec fn names_sorted(g: KnowledgeGraph, s: Seq<GraphKey>) -> bool {
    forall|i: int, j: int|
        0 <= i < j < s.len() ==> crate::text::chars_le(#[trigger] sort_name(g, s[i]), #[trigger] sort_name(g, s[j]))
}

proof fn lemma_insert_key_members(g: KnowledgeGraph, s: Seq<GraphKey>, x: GraphKey, i: int)
    requires
        0 <= i < insert_key(g, s, x).len(),
    ensures
        insert_key(g, s, x)[i] == x || s.contains(insert_key(g, s, x)[i]),
    decreases s.len(),
{
    lemma_insert_key_len(g, s, x);
    if s.len() > 0 && !crate::text::chars_le(sort_name(g, s.last()), sort_name(g, x)) {
        let t = s.drop_last();
        lemma_insert_key_len(g, t, x);
        if i < insert_key(g, t, x).len() {
            lemma_insert_key_members(g, t, x, i);
            if insert_key(g, t, x)[i] != x {
                let y = insert_key(g, t, x)[i];
                let k = choose|k: int| 0 <= k < t.len() && t[k] == y;
                assert(s[k] == y);
            }
        } else {
            assert(s[s.len() - 1] == s.last());
        }
    } else if s.len() > 0 {
        if i < s.len() {
            assert(s.contains(s[i]));
        }
    }
}

proof fn lemma_insert_key_sorted(g: KnowledgeGraph, s: Seq<GraphKey>, x: GraphKey)
    requires
        names_sorted(g, s),
    ensures
        names_sorted(g, insert_key(g, s, x)),
    decreases s.len(),
{
    let r = insert_key(g, s, x);
    if s.len() == 0 {
    } else if crate::text::chars_le(sort_name(g, s.last()), sort_name(g, x)) {
        assert forall|i: int, j: int| 0 <= i < j < r.len() implies crate::text::chars_le(
            #[trigger] sort_name(g, r[i]),
            #[trigger] sort_name(g, r[j]),
        ) by {
            if j == s.len() {
                if i < s.len() - 1 {
                    crate::text::lemma_chars_le_trans(sort_name(g, s[i]), sort_name(g, s.last()), sort_name(g, x));
                }
            } else {
                assert(r[i] == s[i] && r[j] == s[j]);
            }
        }
    } else {
        let t = s.drop_last();
        assert(names_sorted(g, t)) by {
            assert forall|i: int, j: int| 0 <= i < j < t.len() implies crate::text::chars_le(
                #[trigger] sort_name(g, t[i]),
                #[trigger] sort_name(g, t[j]),
            ) by {
                assert(t[i] == s[i] && t[j] == s[j]);
            }
        }
        lemma_insert_key_sorted(g, t, x);
        let q = insert_key(g, t, x);
        lemma_insert_key_len(g, t, x);
        crate::text::lemma_chars_le_total(sort_name(g, s.last()), sort_name(g, x));
        assert forall|i: int, j: int| 0 <= i < j < r.len() implies crate::text::chars_le(
            #[trigger] sort_name(g, r[i]),
            #[trigger] sort_name(g, r[j]),
        ) by {
            if j == q.len() {
                assert(r[j] == s.last());
                assert(r[i] == q[i]);
                lemma_insert_key_members(g, t, x, i);
                if q[i] != x {
                    let k = choose|k: int| 0 <= k < t.len() && t[k] == q[i];
                    assert(s[k] == t[k]);
                    assert(s[s.len() - 1] == s.last());
                    assert(crate::text::chars_le(sort_name(g, s[k]), sort_name(g, s[s.len() - 1])));
                }
            } else {
                assert(r[i] == q[i] && r[j] == q[j]);
            }
        }
    }
}

proof fn lemma_sort_keys_members(g: KnowledgeGraph, s: Seq<GraphKey>, i: int)
    requires
        0 <= i < sort_keys(g, s).len(),
    ensures
        s.contains(sort_keys(g, s)[i]),
    decreases s.len(),
{
    if s.len() > 0 {
        let t = s.drop_last();
        let q = sort_keys(g, t);
        lemma_insert_key_members(g, q, s.last(), i);
        let y = sort_keys(g, s)[i];
        if y == s.last() {
            assert(s[s.len() - 1] == y);
        } else {
            let k = choose|k: int| 0 <= k < q.len() && q[k] == y;
            lemma_sort_keys_members(g, t, k);
            let m = choose|m: int| 0 <= m < t.len() && t[m] == y;
            assert(s[m] == y);
        }
    }
}

proof fn lemma_insert_key_has(g: KnowledgeGraph, s: Seq<GraphKey>, x: GraphKey, y: GraphKey)
    requires
        s.contains(y) || y == x,
    ensures
        insert_key(g, s, x).contains(y),
    decreases s.len(),
{
    let r = insert_key(g, s, x);
    if s.len() == 0 {
        assert(r[0] == x);
    } else if crate::text::chars_le(sort_name(g, s.last()), sort_name(g, x)) {
        if y == x {
            assert(r[s.len() as int] == x);
        } else {
            let k = choose|k: int| 0 <= k < s.len() && s[k] == y;
            assert(r[k] == y);
        }
    } else {
        let t = s.drop_last();
        let it = insert_key(g, t, x);
        if y == s.last() {
            assert(r[it.len() as int] == y);
        } else {
            if y != x {
                let k = choose|k: int| 0 <= k < s.len() && s[k] == y;
                assert(k < s.len() - 1);
                assert(t[k] == y);
            }
            lemma_insert_key_has(g, t, x, y);
            let q = choose|q: int| 0 <= q < it.len() && it[q] == y;
            assert(r[q] == y);
        }
    }
}

proof fn lemma_sort_keys_has(g: KnowledgeGraph, s: Seq<GraphKey>, y: GraphKey)
    requires
        s.contains(y),
    ensures
        sort_keys(g, s).contains(y),
    decreases s.len(),
{
    let t = s.drop_last();
    if y != s.last() {
        let k = choose|k: int| 0 <= k < s.len() && s[k] == y;
        assert(k < s.len() - 1);
        assert(t[k] == y);
        lemma_sort_keys_has(g, t, y);
    }
    lemma_insert_key_has(g, sort_keys(g, t), s.last(), y);
}

proof fn lemma_sort_keys_sorted(g: KnowledgeGraph, s: Seq<GraphKey>)
    ensures
        names_sorted(g, sort_keys(g, s)),
    decreases s.len(),
{
    if s.len() > 0 {
        lemma_sort_keys_sorted(g, s.drop_last());
        lemma_insert_key_sorted(g, sort_keys(g, s.drop_last()), s.last());
    }
}

fn insert_key_sorted(g: &KnowledgeGraph, v: &mut Vec<GraphKey>, x: GraphKey)
    ensures
        final(v)@ == insert_key(*g, old(v)@, x),
{
    let ghost s = v@;
    let xn = fn_name(g, x);
    let mut p: usize = v.len();
    while p > 0 && !crate::text::str_le(fn_name(g, v[p - 1]).as_str(), xn.as_str())
        invariant
            p <= v@.len(),
            s == v@,
            s == old(v)@,
            xn@ == sort_name(*g, x),
            forall|j: int| p <= j < s.len() ==> !crate::text::chars_le(#[trigger] sort_name(*g, s[j]), sort_name(*g, x)),
        decreases p,
    {
        p -= 1;
    }
    proof {
        lemma_insert_key_split(*g, s, x, p as int);
    }
    v.insert(p, x);
    assert(v@ =~= s.take(p as int).push(x) + s.skip(p as int));
}

/// The keys stably sorted by function name.
fn sorted_by_name(g: &KnowledgeGraph, v: &Vec<GraphKey>) -> (r: Vec<GraphKey>)
    ensures
        r@ == sort_keys(*g, v@),
{
    let mut r: Vec<GraphKey> = Vec::new();
    let mut i: usize = 0;
    while i < v.len()
        invariant
            i <= v@.len(),
            r@ == sort_keys(*g, v@.take(i as int)),
        decreases v@.len() - i,
    {
        assert(v@.take(i + 1).drop_last() =~= v@.take(i as int));
        insert_key_sorted(g, &mut r, v[i]);
        i += 1;
    }
    assert(v@.take(i as int) =~= v@);
    r
}

/// The source definition of a function node; a key that names no
/// function gives a placeholder definition named `<invalid>`.
/// `d` is rebuilt from the function node under `key`: its parameters carry
/// the node's parameter names, in order, and its body is the block
/// rebuilt from the node's body (see [`block_conv`]).
pub open spec fn fn_def_conv(g: KnowledgeGraph, key: GraphKey, fuel: u64, d: AstFuncDef) -> bool {
    let ps = g.node(key).kind->Function_params@;
    &&& d.params@.len() == ps.len()
    &&& forall|j: int| 0 <= j < ps.len() ==> (#[trigger] d.params@[j]).name@ == ps[j].0.name@
    &&& block_conv(g, g.node(key).kind->Function_body, fuel, d.body)
}

/// The nesting budget the back-translation of `g` gets: four steps per
/// node and four more.
pub open spec fn retro_fuel(g: KnowledgeGraph) -> u64 {
    if g.node_count() > 0x3FFF_FFFF_FFFF_FFFE {
        u64::MAX
    } else {
        (g.node_count() * 4 + 4) as u64
    }
}

fn func_def(g: &KnowledgeGraph, key: GraphKey, fuel: u64) -> (d: AstFuncDef)
    ensures
        (g.has(key) && g.node(key).kind is Function) ==> d.name@ == sort_name(*g, key)
            && d.params@.len() == g.node(key).kind->Function_params@.len() && fn_def_conv(*g, key, fuel, d),
{
    let node = match g.get_node_checked(key) {
        Some(n) => n,
        None => {
            return AstFuncDef {
                public: false,
                name: string_of("<invalid>"),
                params: Vec::new(),
                ret: None,
                body: AstBlock { statements: Vec::new(), ret: None },
                doc_comments: Vec::new(),
                capabilities: Vec::new(),
                span: Span::unknown(),
            };
        },
    };
    match &node.kind {
        NodeKind::Function { name, public, params, ret, body, .. } => {
            let span = node.span.copy();
            let b = block(g, *body, fuel);
            let mut ps: Vec<AstParam> = Vec::new();
            let mut i: usize = 0;
            while i < params.len()
                invariant
                    i <= params@.len(),
                    ps@.len() == i,
                    forall|j: int| 0 <= j < i ==> (#[trigger] ps@[j]).name@ == params@[j].0.name@,
                decreases params@.len() - i,
            {
                let default = match params[i].2 {
                    Some(dk) => match conv(g, dk, fuel) {
                        Ok(e) => Some(e),
                        Err(_) => None,
                    },
                    None => None,
                };
                ps.push(AstParam { type_: Some(type_to_str(&params[i].1)), name: params[i].0.name.clone(), default });
                i += 1;
            }
            let r = if ret.same_as(&Type::Void) {
                None
            } else {
                Some(type_to_str(ret))
            };
            let docs = match &node.doc_comments {
                Some(d) => d.clone(),
                None => Vec::new(),
            };
            AstFuncDef {
                public: *public,
                name: name.name.clone(),
                params: ps,
                ret: r,
                body: b,
                doc_comments: docs,
                capabilities: Vec::new(),
                span,
            }
        },
        _ => AstFuncDef {
            public: false,
            name: string_of("<invalid>"),
            params: Vec::new(),
            ret: None,
            body: AstBlock { statements: Vec::new(), ret: None },
            doc_comments: Vec::new(),
            capabilities: Vec::new(),
            span: node.span.copy(),
        },
    }
}

/// Rebuilds a source translation unit from a (reduced) knowledge graph:
/// one definition per registered function, the entry point first (or,
/// without one, the first registered function), then the others stably
/// sorted by name. Expressions are rebuilt with a nesting budget of four
/// levels per node.
pub fn retrofit(g: &KnowledgeGraph) -> (u: AstTranslationUnit)
    requires
        g.wf(),
    ensures
        u.functions@.len() == g.functions().len(),
        u.imports@.len() == 0,
        (g.entry() is Some && g.functions().values().contains(g.entry().unwrap()) && g.has(g.entry().unwrap())
            && g.node(g.entry().unwrap()).kind is Function) ==> u.functions@.len() > 0 && u.functions@[0].name@
            == sort_name(*g, g.entry().unwrap()),
        (forall|k: GraphKey| #[trigger] g.functions().values().contains(k) ==> g.has(k) && g.node(k).kind is Function)
            ==> forall|i: int, j: int|
            1 <= i < j < u.functions@.len() ==> crate::text::chars_le(
                (#[trigger] u.functions@[i]).name@,
                (#[trigger] u.functions@[j]).name@,
            ),
        functions_named(*g) ==> forall|i: int|
            0 <= i < u.functions@.len() ==> g.functions().contains_key((#[trigger] u.functions@[i]).name@),
        functions_named(*g) ==> forall|n: Seq<char>|
            #[trigger] g.functions().contains_key(n) ==> exists|i: int|
                0 <= i < u.functions@.len() && (#[trigger] u.functions@[i]).name@ == n,
        functions_named(*g) ==> forall|i: int|
            0 <= i < u.functions@.len() ==> fn_def_conv(
                *g,
                g.functions()[(#[trigger] u.functions@[i]).name@],
                retro_fuel(*g),
                u.functions@[i],
            ),
{
    let fs0 = g.function_keys();
    let ghost f0 = fs0@;
    let mut fs = fs0;
    match g.get_entry() {
        Some(entry) => {
            match position_of_key(&fs, entry) {
                Some(pos) => {
                    let ghost before = fs@;
                    let e = fs.remove(pos);
                    fs.insert(0, e);
                    proof {
                        assert forall|k: GraphKey| fs@.contains(k) <==> before.contains(k) by {
                            if before.contains(k) {
                                let t = choose|t: int| 0 <= t < before.len() && before[t] == k;
                                if t < pos {
                                    assert(fs@[t + 1] == k);
                                } else if t == pos {
                                    assert(fs@[0] == k);
                                } else {
                                    assert(fs@[t] == k);
                                }
                            }
                            if fs@.contains(k) {
                                let t = choose|t: int| 0 <= t < fs@.len() && fs@[t] == k;
                                if t == 0 {
                                    assert(before[pos as int] == k);
                                } else if t <= pos {
                                    assert(before[t - 1] == k);
                                } else {
                                    assert(before[t] == k);
                                }
                            }
                        }
                    }
                },
                None => {},
            }
        },
        None => {},
    }
    assert(fs@.len() == g.functions().len());
    assert forall|k: GraphKey| #[trigger] fs@.contains(k) implies g.functions().values().contains(k) by {
        assert(f0.contains(k));
    }
    let mut ordered: Vec<GraphKey> = Vec::new();
    if fs.len() > 0 {
        ordered.push(fs[0]);
        let mut rest: Vec<GraphKey> = Vec::new();
        let mut i: usize = 1;
        while i < fs.len()
            invariant
                1 <= i <= fs@.len(),
                rest@ == fs@.subrange(1, i as int),
            ensures
                rest@ == fs@.subrange(1, fs@.len() as int),
            decreases fs@.len() - i,
        {
            rest.push(fs[i]);
            i += 1;
        }
        let sorted = sorted_by_name(g, &rest);
        proof {
            lemma_sort_keys_len(*g, rest@);
        }
        let mut j: usize = 0;
        while j < sorted.len()
            invariant
                j <= sorted@.len(),
                fs@.len() > 0,
                ordered@ == seq![fs@[0]] + sorted@.take(j as int),
            decreases sorted@.len() - j,
        {
            ordered.push(sorted[j]);
            assert(seq![fs@[0]] + sorted@.take(j + 1) =~= (seq![fs@[0]] + sorted@.take(j as int)).push(sorted@[j as int]));
            j += 1;
        }
        proof {
            assert(sorted@.take(j as int) =~= sorted@);
            lemma_sort_keys_sorted(*g, rest@);
            assert forall|t: int| 1 <= t < ordered@.len() implies fs@.contains(#[trigger] ordered@[t]) by {
                assert(ordered@[t] == sorted@[t - 1]);
                lemma_sort_keys_members(*g, rest@, t - 1);
                let m = choose|m: int| 0 <= m < rest@.len() && rest@[m] == ordered@[t];
                assert(fs@[m + 1] == rest@[m]);
            }
            assert(fs@.contains(fs@[0]));
        }
    }
    let ghost ord = ordered@;
    proof {
        assert(forall|t: int| 0 <= t < ord.len() ==> fs@.contains(#[trigger] ord[t]));
        assert forall|k: GraphKey| fs@.contains(k) implies ord.contains(k) by {
            let t = choose|t: int| 0 <= t < fs@.len() && fs@[t] == k;
            if t == 0 {
                assert(ord[0] == k);
            } else {
                let rest = fs@.subrange(1, fs@.len() as int);
                assert(rest[t - 1] == k);
                assert(rest.contains(k));
                lemma_sort_keys_has(*g, rest, k);
                let sk = sort_keys(*g, rest);
                let q = choose|q: int| 0 <= q < sk.len() && sk[q] == k;
                assert(ord[q + 1] == k);
            }
        }
    }
    let n = g.num_nodes();
    let nn = n as u64;
    let fuel: u64 = if nn > 0x3FFF_FFFF_FFFF_FFFE {
        u64::MAX
    } else {
        nn * 4 + 4
    };
    let mut functions: Vec<AstFuncDef> = Vec::new();
    let mut k: usize = 0;
    while k < ordered.len()
        invariant
            k <= ordered@.len(),
            ordered@ == ord,
            functions@.len() == k,
            forall|t: int|
                0 <= t < k && g.has(ord[t]) && g.node(ord[t]).kind is Function ==> (#[trigger] functions@[t]).name@
                    == sort_name(*g, ord[t]) && fn_def_conv(*g, ord[t], fuel, functions@[t]),
            fuel == retro_fuel(*g),
        decreases ordered@.len() - k,
    {
        functions.push(func_def(g, ordered[k], fuel));
        k += 1;
    }
    proof {
        if forall|k: GraphKey| #[trigger] g.functions().values().contains(k) ==> g.has(k) && g.node(k).kind is Function {
            assert forall|i: int, j: int| 1 <= i < j < functions@.len() implies crate::text::chars_le(
                (#[trigger] functions@[i]).name@,
                (#[trigger] functions@[j]).name@,
            ) by {
                assert(g.functions().values().contains(ord[i]));
                assert(g.functions().values().contains(ord[j]));
                assert(ord[i] == ordered@[i]);
            }
        }
        if functions_named(*g) {
            assert forall|i: int| 0 <= i < functions@.len() implies fn_def_conv(
                *g,
                g.functions()[(#[trigger] functions@[i]).name@],
                retro_fuel(*g),
                functions@[i],
            ) by {
                let key = ord[i];
                assert(fs@.contains(key));
                assert(g.functions().values().contains(key));
                let n = choose|n: Seq<char>| g.functions().dom().contains(n) && g.functions()[n] == key;
                assert(g.functions().contains_key(n));
                assert(functions@[i].name@ == sort_name(*g, key));
                assert(sort_name(*g, key) == n);
            }
            assert forall|n: Seq<char>| #[trigger] g.functions().contains_key(n) implies exists|i: int|
                0 <= i < functions@.len() && (#[trigger] functions@[i]).name@ == n by {
                let key = g.functions()[n];
                assert(g.functions().values().contains(key));
                assert(f0.contains(key));
                assert(fs@.contains(key));
                assert(ord.contains(key));
                let t = choose|t: int| 0 <= t < ord.len() && ord[t] == key;
                assert(functions@[t].name@ == sort_name(*g, ord[t]));
            }
        }
    }
    AstTranslationUnit { imports: Vec::new(), functions }
}

proof fn lemma_insert_key_len(g: KnowledgeGraph, s: Seq<GraphKey>, x: GraphKey)
    ensures
        insert_key(g, s, x).len() == s.len() + 1,
    decreases s.len(),
{
    if s.len() > 0 {
        lemma_insert_key_len(g, s.drop_last(), x);
    }
}

proof fn lemma_sort_keys_len(g: KnowledgeGraph, s: Seq<GraphKey>)
    ensures
        sort_keys(g, s).len() == s.len(),
    decreases s.len(),
{
    if s.len() > 0 {
        lemma_sort_keys_len(g, s.drop_last());
        lemma_insert_key_len(g, sort_keys(g, s.drop_last()), s.last());
    }
}

/// The index of `k` in `v`, if `v` holds it.
fn position_of_key(v: &Vec<GraphKey>, k: GraphKey) -> (r: Option<usize>)
    ensures
        match r {
            Some(t) => t < v@.len() && v@[t as int] == k,
            None => !v@.contains(k),
        },
{
    let mut i: usize = 0;
    while i < v.len()
        invariant
            i <= v@.len(),
            forall|j: int| 0 <= j < i ==> v@[j] != k,
        decreases v@.len() - i,
    {
        if v[i] == k {
            return Some(i);
        }
        i += 1;
    }
    None
}


/// `g` is a graph that the translation unit `unit` can be converted and
/// reduced to: well formed, every registered function a function node of
/// that name, every function of `unit` registered, and its entry point
/// `main` (else the first function) when `unit` has functions.
pub open spec fn reduced_from(unit: AstTranslationUnit, g: KnowledgeGraph) -> bool {
    &&& g.wf()
    &&& functions_named(g)
    &&& forall|i: int|
        0 <= i < unit.functions@.len() ==> g.functions().contains_key((#[trigger] unit.functions@[i]).name@)
    &&& unit.functions@.len() > 0 ==> g.entry() == Some(g.functions()[entry_name(unit.functions@)])
}

/// The messages of conversion errors, in order.
fn error_messages(es: &Vec<ConversionError>) -> (m: Vec<String>)
    ensures
        m@.len() == es@.len(),
        forall|i: int| 0 <= i < es@.len() ==> (#[trigger] m@[i])@ == error_text(es@[i]),
{
    let mut m: Vec<String> = Vec::new();
    let mut i: usize = 0;
    while i < es.len()
        invariant
            i <= es@.len(),
            m@.len() == i,
            forall|j: int| 0 <= j < i ==> (#[trigger] m@[j])@ == error_text(es@[j]),
        decreases es@.len() - i,
    {
        m.push(es[i].message());
        i += 1;
    }
    m
}

/// The whole compile-time pipeline on a translation unit: conversion to a
/// knowledge graph, reduction of every node to a fixed point, then
/// retrofit to a translation unit. A conversion failure is answered with
/// the errors' messages. The capability ceilings in `_ok` are not
/// consulted: reduction never performs an effect.
pub fn graph_reduce(unit: AstTranslationUnit, _ok: &[(&str, String, String)]) -> (r: Result<AstTranslationUnit, Vec<String>>)
    ensures
        r matches Err(msgs) ==> msgs@.len() > 0 && exists|es: Seq<ConversionError>|
            #[trigger] messages_of(es, msgs@) && names_outside(unit, es),
        self_contained(unit) && unit_cost(unit) < 0xFFFF_FFFE ==> r is Ok,
        self_contained(unit) ==> (r matches Err(msgs) ==> forall|k: int|
            0 <= k < msgs@.len() ==> (#[trigger] msgs@[k])@ == graph_full_message()),
        r matches Ok(u) ==> u.imports@.len() == 0 && exists|g: KnowledgeGraph|
            reduced_from(unit, g) && u.functions@.len() == g.functions().len(),
        r matches Ok(u) ==> (unit.functions@.len() > 0 ==> u.functions@.len() > 0 && u.functions@[0].name@
            == entry_name(unit.functions@)),
        r matches Ok(u) ==> forall|i: int, j: int|
            1 <= i < j < u.functions@.len() ==> crate::text::chars_le(
                (#[trigger] u.functions@[i]).name@,
                (#[trigger] u.functions@[j]).name@,
            ),
        r matches Ok(u) ==> exists|gi: KnowledgeGraph, g0: KnowledgeGraph, g: KnowledgeGraph|
            #![trigger unit_converted(unit, gi, g0), reduction_of(g0, g)]
            gi.functions().is_empty() && gi.entry() is None && unit_converted(unit, gi, g0) && reduction_of(g0, g)
                && forall|i: int|
                0 <= i < u.functions@.len() ==> fn_def_conv(
                    g,
                    g.functions()[(#[trigger] u.functions@[i]).name@],
                    retro_fuel(g),
                    u.functions@[i],
                ),
        r matches Ok(u) ==> (fn_names(unit.functions@).no_duplicates() ==> {
            &&& u.functions@.len() == unit.functions@.len()
            &&& forall|i: int|
                0 <= i < u.functions@.len() ==> fn_names(unit.functions@).contains((#[trigger] u.functions@[i]).name@)
            &&& forall|i: int|
                0 <= i < unit.functions@.len() ==> fn_names(u.functions@).contains((#[trigger] unit.functions@[i]).name@)
        }),
{
    let conv = AstConverter::new();
    let ghost gi = conv.graph_of();
    let ghost c0 = conv;
    let graph = match conv.convert(unit) {
        Ok(g) => g,
        Err(es) => {
            let m = error_messages(&es);
            proof {
                assert(messages_of(es@, m@));
                assert(crate::convert::undefined_outside(c0, unit, es@));
                assert(m@.len() > 0);
                assert(messages_of(es@, m@) && names_outside(unit, es@));
                if self_contained(unit) && unit_cost(unit) < 0xFFFF_FFFE {
                    assert(unit_resolves(c0, unit));
                }
                if self_contained(unit) {
                    assert(unit_resolves(c0, unit));
                    assert forall|k: int| 0 <= k < m@.len() implies (#[trigger] m@[k])@ == graph_full_message() by {
                        assert(es@[k] is GraphFull);
                    }
                }
            }
            return Err(m);
        },
    };
    let ghost g0 = graph;
    let mut rc = ReductionContext::new(graph);
    let reduced = rc.reduce_all_nodes();
    proof {
        assert(reduced is Ok);
    }
    let g = rc.into_graph();
    let u = retrofit(&g);
    proof {
        assert(functions_named(g)) by {
            assert forall|n: Seq<char>| #[trigger] g.functions().contains_key(n) implies g.has(g.functions()[n])
                && g.node(g.functions()[n]).kind is Function && g.node(g.functions()[n]).kind->Function_name.name@
                == n by {
                assert(g0.functions().contains_key(n));
                let c = crate::graph::canon(g0.functions()[n].0);
                assert(g0.nodes().contains_key(c));
                assert(crate::reduce::stays(g0.nodes()[c]));
            }
        }
        assert(reduced_from(unit, g));
        assert forall|k: GraphKey| #[trigger] g.functions().values().contains(k) implies g.has(k)
            && g.node(k).kind is Function by {
            let n = choose|n: Seq<char>| g.functions().dom().contains(n) && g.functions()[n] == k;
            assert(g.functions().contains_key(n));
        }
        if unit.functions@.len() > 0 {
            let en = entry_name(unit.functions@);
            if exists|i: int| 0 <= i < unit.functions@.len() && (#[trigger] unit.functions@[i]).name@
                == seq!['m', 'a', 'i', 'n'] {
                let i = choose|i: int| 0 <= i < unit.functions@.len() && (#[trigger] unit.functions@[i]).name@
                    == seq!['m', 'a', 'i', 'n'];
                assert(g.functions().contains_key(unit.functions@[i].name@));
            } else {
                assert(g.functions().contains_key(unit.functions@[0].name@));
            }
            assert(g.functions().contains_key(en));
            assert(g.functions().values().contains(g.functions()[en]));
        }
        assert(reduction_of(g0, g));
        assert(gi.functions().is_empty() && gi.entry() is None && unit_converted(unit, gi, g0) && reduction_of(g0, g)
            && forall|i: int|
            0 <= i < u.functions@.len() ==> fn_def_conv(
                g,
                g.functions()[(#[trigger] u.functions@[i]).name@],
                retro_fuel(g),
                u.functions@[i],
            ));
        let names = fn_names(unit.functions@);
        assert(g.functions().dom() =~= names.to_set()) by {
            assert forall|n: Seq<char>| g.functions().dom().contains(n) implies names.to_set().contains(n) by {
                assert(g0.functions().contains_key(n));
                let i = choose|i: int| 0 <= i < unit.functions@.len() && (#[trigger] unit.functions@[i]).name@ == n;
                assert(names[i] == n);
            }
            assert forall|n: Seq<char>| names.to_set().contains(n) implies g.functions().dom().contains(n) by {
                assert(names.contains(n));
                let i = choose|i: int| 0 <= i < names.len() && names[i] == n;
                assert(unit.functions@[i].name@ == n);
            }
        }
        if names.no_duplicates() {
            names.unique_seq_to_set();
            assert forall|i: int| 0 <= i < u.functions@.len() implies names.contains(
                (#[trigger] u.functions@[i]).name@,
            ) by {
                assert(g.functions().contains_key(u.functions@[i].name@));
                assert(names.to_set().contains(u.functions@[i].name@));
            }
            assert forall|i: int| 0 <= i < unit.functions@.len() implies fn_names(u.functions@).contains(
                (#[trigger] unit.functions@[i]).name@,
            ) by {
                let n = unit.functions@[i].name@;
                assert(g.functions().contains_key(n));
                let t = choose|t: int| 0 <= t < u.functions@.len() && (#[trigger] u.functions@[t]).name@ == n;
                assert(fn_names(u.functions@)[t] == n);
            }
        }
    }
    Ok(u)
}

/// `msgs` are the messages of the conversion errors `es`, in order.
pub open spec fn messages_of(es: Seq<ConversionError>, msgs: Seq<String>) -> bool {
    es.len() == msgs.len() && forall|k: int| 0 <= k < es.len() ==> (#[trigger] msgs[k])@ == error_text(es[k])
}

/// Each undefined name reported is one that the body of a function of
/// `unit` looks up from outside, and not the name of a function of `unit`;
/// when the unit fits the graph's capacity, every error is such a name.
pub open spec fn names_outside(unit: AstTranslationUnit, es: Seq<ConversionError>) -> bool {
    &&& forall|i: int|
        0 <= i < es.len() ==> ((#[trigger] es[i]) matches ConversionError::UndefinedIdentifier(n, _)
            ==> !names_function(unit.functions@, n@) && looked_up(unit, n@))
    &&& unit_cost(unit) < 0xFFFF_FFFE ==> no_full(es)
}

/// The names of a list of functions, in order.
pub open spec fn fn_names(fs: Seq<AstFuncDef>) -> Seq<Seq<char>> {
    fs.map_values(|f: AstFuncDef| f.name@)
}

} // verus!
