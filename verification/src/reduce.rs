//! Compile-time folding of literal values: integer and boolean operators,
//! negation, casts between integer widths.

use vstd::prelude::*;

use std::collections::{HashMap, HashSet};

use crate::graph::{
    copy_keys, set_copied, with_knowledge, FStringPartNode, GraphKey, KnowledgeGraph, KnowledgeState, Node, NodeKind,
    WithBindingNode,
};
use crate::text::{decimal, push_decimal, push_str, string_of};
use crate::types::{
    binop_name, literal_text, same_ident, same_lit, same_type, BehaviorRef, BinOp, Capability, Identifier, IntWidth,
    LiteralValue, NumericType, Pattern, PatternKind, Provenance, Span, Type,
};

verus! {

/// The integer a literal holds, read as `i128` (two's complement for
/// values of 2^127 and more).
pub open spec fn lit_int(lit: LiteralValue) -> Option<i128> {
    match lit {
        LiteralValue::Int { value, .. } => Some(value as i128),
        LiteralValue::UInt(v, _) => Some(v as i128),
        _ => None,
    }
}

/// The integer a literal holds, if it holds one.
pub fn int_from_lit(lit: &LiteralValue) -> (r: Option<i128>)
    ensures
        r == lit_int(*lit),
{
    match lit {
        LiteralValue::Int { value, .. } => Some(*value as i128),
        LiteralValue::UInt(v, _) => Some(*v as i128),
        _ => None,
    }
}

/// A `u128` as `usize` (truncating).
pub fn value_to_usize(v: &u128) -> (r: Option<usize>)
    ensures
        r == Some(*v as usize),
{
    Some(*v as usize)
}

/// The magnitude of an `i128`.
pub open spec fn magnitude(v: i128) -> nat {
    if v < 0 {
        (-v) as nat
    } else {
        v as nat
    }
}

/// The narrowest of 8, 16, 32, 64 and 128 bits whose unsigned range holds
/// a magnitude.
pub open spec fn width_for(m: nat) -> IntWidth {
    if m > u64::MAX {
        IntWidth::B128
    } else if m > u32::MAX {
        IntWidth::B64
    } else if m > u16::MAX {
        IntWidth::B32
    } else if m > u8::MAX {
        IntWidth::B16
    } else {
        IntWidth::B8
    }
}

/// A folded integer: signed, at the width its magnitude needs, stored in
/// two's complement.
pub open spec fn int_result(v: i128) -> LiteralValue {
    LiteralValue::Int { value: v as u128, width: width_for(magnitude(v)), signed: true }
}

/// Integer folding of a binary operator: checked arithmetic (`None` on
/// overflow or a zero divisor), shifts by the low 32 bits of the right
/// operand (`None` from 128 on), bitwise operators, and comparisons to a
/// boolean.
pub open spec fn fold_int_spec(op: BinOp, lhs: i128, rhs: i128) -> Option<LiteralValue> {
    let arith = match op {
        BinOp::Add => lhs.checked_add(rhs),
        BinOp::Sub => lhs.checked_sub(rhs),
        BinOp::Mul => lhs.checked_mul(rhs),
        BinOp::Div => lhs.checked_div(rhs),
        BinOp::Rem => lhs.checked_rem(rhs),
        BinOp::ShiftLeft => if (rhs as u32) < 128 {
            Some(lhs << (rhs as u32))
        } else {
            None
        },
        BinOp::ShiftRight => if (rhs as u32) < 128 {
            Some(lhs >> (rhs as u32))
        } else {
            None
        },
        BinOp::And => Some(lhs & rhs),
        BinOp::Or => Some(lhs | rhs),
        BinOp::Xor => Some(lhs ^ rhs),
        _ => None,
    };
    match op {
        BinOp::Eq => Some(LiteralValue::Bool(lhs == rhs)),
        BinOp::Ne => Some(LiteralValue::Bool(lhs != rhs)),
        BinOp::Lt => Some(LiteralValue::Bool(lhs < rhs)),
        BinOp::Le => Some(LiteralValue::Bool(lhs <= rhs)),
        BinOp::Gt => Some(LiteralValue::Bool(lhs > rhs)),
        BinOp::Ge => Some(LiteralValue::Bool(lhs >= rhs)),
        _ => match arith {
            Some(v) => Some(int_result(v)),
            None => None,
        },
    }
}

/// Folding `+`, `-` and `*` over integers computes the sum, the difference
/// (left minus right) and the product: whenever the exact result fits in
/// 128 signed bits, the folded literal is signed and its two's-complement
/// value reads back as that result; comparisons fold to their truth.
pub proof fn lemma_fold_int_arith(a: i128, b: i128)
    ensures
        i128::MIN <= a + b <= i128::MAX ==> (fold_int_spec(BinOp::Add, a, b) matches Some(
            LiteralValue::Int { value, signed, .. },
        ) && signed && value as i128 == a + b),
        i128::MIN <= a - b <= i128::MAX ==> (fold_int_spec(BinOp::Sub, a, b) matches Some(
            LiteralValue::Int { value, signed, .. },
        ) && signed && value as i128 == a - b),
        i128::MIN <= a * b <= i128::MAX ==> (fold_int_spec(BinOp::Mul, a, b) matches Some(
            LiteralValue::Int { value, signed, .. },
        ) && signed && value as i128 == a * b),
        fold_int_spec(BinOp::Lt, a, b) == Some(LiteralValue::Bool(a < b)),
        fold_int_spec(BinOp::Eq, a, b) == Some(LiteralValue::Bool(a == b)),
{
    assert forall|x: i128| #[trigger] ((x as u128) as i128) == x by {
        assert(((x as u128) as i128) == x) by (bit_vector);
    }
    if i128::MIN <= a + b <= i128::MAX {
        assert(((a + b) as i128 as u128) as i128 == (a + b) as i128);
    }
    if i128::MIN <= a - b <= i128::MAX {
        assert(((a - b) as i128 as u128) as i128 == (a - b) as i128);
    }
    if i128::MIN <= a * b <= i128::MAX {
        assert(((a * b) as i128 as u128) as i128 == (a * b) as i128);
    }
}

/// Folding the remaining integer operators: for a non-negative dividend
/// and a positive divisor, `/` and `%` give the quotient and remainder; a
/// zero divisor folds to nothing; `&`, `|` and `^` act bit by bit; the
/// other comparisons fold to their truth.
pub proof fn lemma_fold_int_rest(a: i128, b: i128)
    ensures
        a >= 0 && b > 0 ==> (fold_int_spec(BinOp::Div, a, b) matches Some(LiteralValue::Int { value, signed, .. })
            && signed && value as i128 == a / b),
        a >= 0 && b > 0 ==> (fold_int_spec(BinOp::Rem, a, b) matches Some(LiteralValue::Int { value, signed, .. })
            && signed && value as i128 == a % b),
        fold_int_spec(BinOp::Div, a, 0) is None,
        fold_int_spec(BinOp::Rem, a, 0) is None,
        fold_int_spec(BinOp::And, a, b) matches Some(LiteralValue::Int { value, .. }) && value as i128 == a & b,
        fold_int_spec(BinOp::Or, a, b) matches Some(LiteralValue::Int { value, .. }) && value as i128 == a | b,
        fold_int_spec(BinOp::Xor, a, b) matches Some(LiteralValue::Int { value, .. }) && value as i128 == a ^ b,
        fold_int_spec(BinOp::Ne, a, b) == Some(LiteralValue::Bool(a != b)),
        fold_int_spec(BinOp::Le, a, b) == Some(LiteralValue::Bool(a <= b)),
        fold_int_spec(BinOp::Gt, a, b) == Some(LiteralValue::Bool(a > b)),
        fold_int_spec(BinOp::Ge, a, b) == Some(LiteralValue::Bool(a >= b)),
{
    assert forall|x: i128| #[trigger] ((x as u128) as i128) == x by {
        assert(((x as u128) as i128) == x) by (bit_vector);
    }
    if a >= 0 && b > 0 {
        assert(0 <= a / b <= a) by (nonlinear_arith)
            requires
                a >= 0,
                b > 0,
        ;
        assert(0 <= a % b < b) by (nonlinear_arith)
            requires
                a >= 0,
                b > 0,
        ;
        if a == 0 {
            assert(a % b == 0) by (nonlinear_arith)
                requires
                    a == 0,
                    b > 0,
            ;
        }
        let m = (a as int) % (b as int);
        assert(fold_int_spec(BinOp::Rem, a, b) == Some(int_result(m as i128)));
    }
}

/// Folding boolean operators computes their truth tables.
pub proof fn lemma_fold_bool_table(a: bool, b: bool)
    ensures
        fold_bool_spec(BinOp::And, a, b) == Some(a && b),
        fold_bool_spec(BinOp::Or, a, b) == Some(a || b),
        fold_bool_spec(BinOp::Eq, a, b) == Some(a == b),
        fold_bool_spec(BinOp::Ne, a, b) == Some(a != b),
{
}

fn width_of(v: i128) -> (w: IntWidth)
    ensures
        w == width_for(magnitude(v)),
{
    let m: u128 = if v < 0 {
        ((-(v + 1)) as u128) + 1
    } else {
        v as u128
    };
    assert(m == magnitude(v));
    if m > 0xffff_ffff_ffff_ffff {
        IntWidth::B128
    } else if m > 0xffff_ffff {
        IntWidth::B64
    } else if m > 0xffff {
        IntWidth::B32
    } else if m > 0xff {
        IntWidth::B16
    } else {
        IntWidth::B8
    }
}

/// Folds a binary operator over two integer operands (see
/// [`fold_int_spec`]); the operand type plays no part.
pub fn fold_bin_int(op: BinOp, lhs: i128, rhs: i128, _type_: Type) -> (r: Option<LiteralValue>)
    ensures
        r == fold_int_spec(op, lhs, rhs),
{
    let result: Option<i128> = match op {
        BinOp::Add => lhs.checked_add(rhs),
        BinOp::Sub => lhs.checked_sub(rhs),
        BinOp::Mul => lhs.checked_mul(rhs),
        BinOp::Div => {
            if rhs == 0 {
                return None;
            }
            lhs.checked_div(rhs)
        },
        BinOp::Rem => {
            if rhs == 0 {
                return None;
            }
            lhs.checked_rem(rhs)
        },
        BinOp::ShiftLeft => {
            let s = rhs as u32;
            if s < 128 {
                Some(lhs << s)
            } else {
                None
            }
        },
        BinOp::ShiftRight => {
            let s = rhs as u32;
            if s < 128 {
                Some(lhs >> s)
            } else {
                None
            }
        },
        BinOp::And => Some(lhs & rhs),
        BinOp::Or => Some(lhs | rhs),
        BinOp::Xor => Some(lhs ^ rhs),
        BinOp::Eq => return Some(LiteralValue::Bool(lhs == rhs)),
        BinOp::Ne => return Some(LiteralValue::Bool(lhs != rhs)),
        BinOp::Lt => return Some(LiteralValue::Bool(lhs < rhs)),
        BinOp::Le => return Some(LiteralValue::Bool(lhs <= rhs)),
        BinOp::Gt => return Some(LiteralValue::Bool(lhs > rhs)),
        BinOp::Ge => return Some(LiteralValue::Bool(lhs >= rhs)),
    };
    match result {
        Some(v) => Some(LiteralValue::Int { value: v as u128, width: width_of(v), signed: true }),
        None => None,
    }
}

/// Boolean folding: equality, inequality, and, or.
pub open spec fn fold_bool_spec(op: BinOp, lhs: bool, rhs: bool) -> Option<bool> {
    match op {
        BinOp::Eq => Some(lhs == rhs),
        BinOp::Ne => Some(lhs != rhs),
        BinOp::And => Some(lhs && rhs),
        BinOp::Or => Some(lhs || rhs),
        _ => None,
    }
}

/// Folds a binary operator over two boolean operands.
pub fn fold_bin_bool(op: BinOp, lhs: bool, rhs: bool) -> (r: Option<bool>)
    ensures
        r == fold_bool_spec(op, lhs, rhs),
{
    match op {
        BinOp::Eq => Some(lhs == rhs),
        BinOp::Ne => Some(lhs != rhs),
        BinOp::And => Some(lhs && rhs),
        BinOp::Or => Some(lhs || rhs),
        _ => None,
    }
}

/// Negation of a signed integer literal (its value read as `i128`);
/// `None` for other literals and for `i128::MIN`.
pub open spec fn neg_spec(lit: LiteralValue) -> Option<LiteralValue> {
    match lit {
        LiteralValue::Int { value, width, signed } => if signed && (value as i128) != i128::MIN {
            Some(LiteralValue::Int { value: (-(value as i128)) as u128, width, signed: true })
        } else {
            None
        },
        _ => None,
    }
}

/// Negates a signed integer literal.
pub fn neg_int(lit: &LiteralValue, _type_: &Type) -> (r: Option<LiteralValue>)
    ensures
        r == neg_spec(*lit),
{
    match lit {
        LiteralValue::Int { value, width, signed } => {
            if !*signed {
                return None;
            }
            let x = *value as i128;
            if x == i128::MIN {
                return None;
            }
            let n: i128 = -x;
            Some(LiteralValue::Int { value: n as u128, width: *width, signed: true })
        },
        _ => None,
    }
}

/// The `~` fold: the bitwise complement of an integer literal's 128-bit
/// value (`~0` is all ones), width and signedness kept.
pub open spec fn bitnot_spec(lit: LiteralValue) -> Option<LiteralValue> {
    match lit {
        LiteralValue::Int { value, width, signed } => Some(LiteralValue::Int { value: !value, width, signed }),
        _ => None,
    }
}

/// Negating a signed integer gives its opposite, at the same width, and
/// negating twice gives it back.
pub proof fn lemma_neg_opposite(value: u128, width: IntWidth)
    requires
        (value as i128) != i128::MIN,
    ensures
        neg_spec(LiteralValue::Int { value, width, signed: true }) matches Some(LiteralValue::Int { value: v, width: w, signed: s })
            && s && w == width && v as i128 == -(value as i128),
        neg_spec(LiteralValue::Int { value, width, signed: true }) matches Some(n) && neg_spec(n) == Some(
            LiteralValue::Int { value, width, signed: true },
        ),
{
    let x = value as i128;
    assert(((-x) as i128 as u128) as i128 == -x) by (bit_vector)
        requires
            x != i128::MIN,
    ;
    assert(((-(((-x) as i128 as u128) as i128)) as i128) as u128 == value) by (bit_vector)
        requires
            x == value as i128,
            x != i128::MIN,
    ;
}

/// `~` flips every bit of the 128-bit value (so the value and its
/// complement add up to all ones), and applying it twice gives the literal
/// back.
pub proof fn lemma_bitnot_complement(lit: LiteralValue)
    requires
        lit is Int,
    ensures
        bitnot_spec(lit) matches Some(LiteralValue::Int { value, .. }) && value == u128::MAX - lit->Int_value,
        bitnot_spec(lit) matches Some(n) && bitnot_spec(n) == Some(lit),
{
    let v = lit->Int_value;
    assert(!v == u128::MAX - v) by (bit_vector);
    assert(!(!v) == v) by (bit_vector);
}

/// Folds `~` over an integer literal (see [`bitnot_spec`]).
pub fn bitnot_int(lit: &LiteralValue) -> (r: Option<LiteralValue>)
    ensures
        r == bitnot_spec(*lit),
{
    match lit {
        LiteralValue::Int { value, width, signed } => {
            Some(LiteralValue::Int { value: !*value, width: *width, signed: *signed })
        },
        _ => None,
    }
}

/// `2^n`.
pub open spec fn pow2(n: nat) -> nat
    decreases n,
{
    if n == 0 {
        1
    } else {
        2 * pow2((n - 1) as nat)
    }
}

/// Whether a cast of `lit` to `target` is one `cast_int` folds, and the
/// target integer width if so.
pub open spec fn cast_target(lit: LiteralValue, target: Type) -> Option<(IntWidth, bool)> {
    match (lit, target) {
        (LiteralValue::Int { .. }, Type::Numeric(NumericType::Int(dw))) => Some((dw, true)),
        (LiteralValue::Int { .. }, Type::Numeric(NumericType::UInt(dw))) => Some((dw, false)),
        (LiteralValue::UInt(..), Type::Numeric(NumericType::Int(dw))) => Some((dw, true)),
        (LiteralValue::UInt(..), Type::Numeric(NumericType::UInt(dw))) => Some((dw, false)),
        _ => None,
    }
}

/// Integer casts: the value keeps its low `bits` bits (a signed target
/// gives a signed `Int` literal, an unsigned one a `UInt` literal);
/// other casts are not folded.
pub open spec fn cast_spec(lit: LiteralValue, target: Type) -> Option<LiteralValue> {
    let v: u128 = match lit {
        LiteralValue::Int { value, .. } => value,
        LiteralValue::UInt(value, _) => value,
        _ => 0,
    };
    match cast_target(lit, target) {
        Some((dw, true)) => Some(
            LiteralValue::Int {
                value: (v as nat % pow2(dw.spec_bits() as nat)) as u128,
                width: dw,
                signed: true,
            },
        ),
        Some((dw, false)) => Some(
            LiteralValue::UInt((v as nat % pow2(dw.spec_bits() as nat)) as u128, dw),
        ),
        None => None,
    }
}

/// Casting an integer literal to an integer type whose width holds its
/// value keeps the value, and the target's signedness decides the kind of
/// literal.
pub proof fn lemma_cast_keeps_fitting(v: u128, w: IntWidth, dw: IntWidth)
    requires
        (v as nat) < pow2(dw.spec_bits() as nat),
    ensures
        cast_spec(LiteralValue::UInt(v, w), Type::Numeric(NumericType::UInt(dw))) == Some(LiteralValue::UInt(v, dw)),
        cast_spec(LiteralValue::UInt(v, w), Type::Numeric(NumericType::Int(dw))) == Some(
            LiteralValue::Int { value: v, width: dw, signed: true },
        ),
        cast_spec(LiteralValue::Int { value: v, width: w, signed: true }, Type::Numeric(NumericType::UInt(dw))) == Some(
            LiteralValue::UInt(v, dw),
        ),
{
    vstd::arithmetic::div_mod::lemma_small_mod(v as nat, pow2(dw.spec_bits() as nat));
}

fn low_bits(v: u128, dw: IntWidth) -> (r: u128)
    requires
        dw.spec_bits() < 128,
    ensures
        r as nat == v as nat % pow2(dw.spec_bits() as nat),
{
    let b = dw.bits() as u32;
    assert(1u128 << b >= 1) by (bit_vector)
        requires
            b < 128,
    ;
    let mask: u128 = (1u128 << b) - 1;
    proof {
        reveal_with_fuel(pow2, 65);
        if b == 8 {
            assert(((1u128 << 8u32) - 1) as u128 == 0xff) by (bit_vector);
            assert(v & 0xff == v % 256) by (bit_vector);
            assert(pow2(8) == 256);
        } else if b == 16 {
            assert(((1u128 << 16u32) - 1) as u128 == 0xffff) by (bit_vector);
            assert(v & 0xffff == v % 65536) by (bit_vector);
            assert(pow2(16) == 65536);
        } else if b == 32 {
            assert(((1u128 << 32u32) - 1) as u128 == 0xffff_ffff) by (bit_vector);
            assert(v & 0xffff_ffff == v % 0x1_0000_0000) by (bit_vector);
            assert(pow2(32) == 0x1_0000_0000);
        } else {
            assert(b == 64);
            assert(((1u128 << 64u32) - 1) as u128 == 0xffff_ffff_ffff_ffff) by (bit_vector);
            assert(v & 0xffff_ffff_ffff_ffff == v % 0x1_0000_0000_0000_0000) by (bit_vector);
            assert(pow2(64) == 0x1_0000_0000_0000_0000);
        }
    }
    v & mask
}

/// Folds an integer cast (see [`cast_spec`]). A target of 128 bits or
/// more is left out: the mask computation overflows there.
pub fn cast_int(lit: &LiteralValue, target: &Type) -> (r: Option<LiteralValue>)
    requires
        cast_target(*lit, *target) matches Some((dw, _)) ==> dw.spec_bits() < 128,
    ensures
        r == cast_spec(*lit, *target),
{
    match (lit, target) {
        (LiteralValue::Int { value, .. }, Type::Numeric(NumericType::Int(dw))) => {
            Some(LiteralValue::Int { value: low_bits(*value, *dw), width: *dw, signed: true })
        },
        (LiteralValue::Int { value, .. }, Type::Numeric(NumericType::UInt(dw))) => {
            Some(LiteralValue::UInt(low_bits(*value, *dw), *dw))
        },
        (LiteralValue::UInt(value, _), Type::Numeric(NumericType::Int(dw))) => {
            Some(LiteralValue::Int { value: low_bits(*value, *dw), width: *dw, signed: true })
        },
        (LiteralValue::UInt(value, _), Type::Numeric(NumericType::UInt(dw))) => {
            Some(LiteralValue::UInt(low_bits(*value, *dw), *dw))
        },
        _ => None,
    }
}


// ─── Copies of node kinds ──────────────────────────────────────────

/// Both sequences hold the same keys, each paired with a value of the same
/// name.
pub open spec fn same_named_keys(a: Seq<(Identifier, GraphKey)>, b: Seq<(Identifier, GraphKey)>) -> bool {
    a.len() == b.len() && forall|i: int| #![trigger b[i]] 0 <= i < a.len() ==> same_ident(a[i].0, b[i].0) && a[i].1 == b[i].1
}

/// `b` is a copy of node kind `a`: the same variant, with the same keys,
/// names, types and literal values (pattern contents and capability sets
/// are copied but not compared here).
pub open spec fn same_kind(a: NodeKind, b: NodeKind) -> bool {
    match a {
        NodeKind::Literal(l) => b matches NodeKind::Literal(m) && same_lit(l, m),
        NodeKind::Binding { name, def } => b matches NodeKind::Binding { name: n, def: d } && same_ident(n, name) && d == def,
        NodeKind::Reference { name, def } => b matches NodeKind::Reference { name: n, def: d } && same_ident(n, name) && d == def,
        NodeKind::Function { name, public, params, ret, body, .. } => b matches NodeKind::Function {
            name: n,
            public: p,
            params: q,
            ret: r,
            body: bo,
            ..
        } && same_ident(n, name) && p == public && bo == body && same_type(ret, r) && q@.len() == params@.len()
            && forall|i: int|
            #![trigger q@[i]]
            0 <= i < params@.len() ==> same_ident(q@[i].0, params@[i].0) && same_type(params@[i].1, q@[i].1)
                && q@[i].2 == params@[i].2,
        NodeKind::Call { func, args } => b matches NodeKind::Call { func: f, args: a2 } && f == func && a2@ == args@,
        NodeKind::AtResidual { type_, inner } => b matches NodeKind::AtResidual { type_: t, inner: i } && i == inner
            && same_type(type_, t),
        NodeKind::UnaryOp { op, operand } => b matches NodeKind::UnaryOp { op: o, operand: x } && x == operand && (
        op is Neg ==> o is Neg) && (op is Not ==> o is Not) && (op is BitNot ==> o is BitNot) && (op matches crate::types::UnaryOp::Cast(t)
            ==> (o matches crate::types::UnaryOp::Cast(u) && same_type(*t, *u))),
        NodeKind::Cast { type_, operand } => b matches NodeKind::Cast { type_: t, operand: x } && x == operand && same_type(
            type_,
            t,
        ),
        NodeKind::ForIn { iter, name, body } => b matches NodeKind::ForIn { iter: i, name: n, body: bo } && i == iter
            && bo == body && same_ident(n, name),
        NodeKind::Match { scrutinee, arms, default_arm } => b matches NodeKind::Match {
            scrutinee: s2,
            arms: a2,
            default_arm: d2,
        } && s2 == scrutinee && d2 == default_arm && a2@.len() == arms@.len() && forall|i: int|
            #![trigger a2@[i]]
            0 <= i < arms@.len() ==> a2@[i].1 == arms@[i].1 && same_pattern(arms@[i].0, a2@[i].0),
        NodeKind::Spawn { body, ret, .. } => b matches NodeKind::Spawn { body: bo, ret: r, .. } && bo == body && same_type(ret, r),
        NodeKind::Struct { name, fields } => b matches NodeKind::Struct { name: n, fields: f2 } && same_ident(n, name)
            && same_named_keys(fields@, f2@),
        NodeKind::List { elements } => b matches NodeKind::List { elements: e2 } && e2@ == elements@,
        NodeKind::MapOf { entries } => b matches NodeKind::MapOf { entries: e2 } && e2@ == entries@,
        NodeKind::SetOf { elements } => b matches NodeKind::SetOf { elements: e2 } && e2@ == elements@,
        NodeKind::FString { parts } => b matches NodeKind::FString { parts: p2 } && p2@.len() == parts@.len() && forall|i: int|
            #![trigger p2@[i]]
            0 <= i < parts@.len() ==> p2@[i].text@ == parts@[i].text@ && p2@[i].expr == parts@[i].expr,
        NodeKind::RawString(x) => b matches NodeKind::RawString(y) && y@ == x@,
        NodeKind::ByteString(x) => b matches NodeKind::ByteString(y) && y@ == x@,
        NodeKind::FieldAccess { target, field } => b matches NodeKind::FieldAccess { target: t, field: f } && t == target
            && same_ident(f, field),
        NodeKind::MethodCall { target, method, args } => b matches NodeKind::MethodCall { target: t, method: m, args: a2 }
            && t == target && same_ident(m, method) && a2@ == args@,
        NodeKind::Destructure { source, bindings, .. } => b matches NodeKind::Destructure { source: s2, bindings: b2, .. }
            && s2 == source && same_named_keys(bindings@, b2@),
        NodeKind::With { bindings, body } => b matches NodeKind::With { bindings: b2, body: bo } && bo == body && b2@.len()
            == bindings@.len() && forall|i: int|
            #![trigger b2@[i]]
            0 <= i < bindings@.len() ==> same_type(bindings@[i].type_, b2@[i].type_) && same_ident(
                b2@[i].name,
                bindings@[i].name,
            ) && b2@[i].init == bindings@[i].init,
        NodeKind::ProviderCall { provider, verb, args } => b matches NodeKind::ProviderCall { provider: p, verb: v, args: a2 }
            && p == provider && same_ident(v, verb) && a2@ == args@,
        NodeKind::BehaviorInstance { behavior, type_ } => b matches NodeKind::BehaviorInstance { behavior: bh, type_: t }
            && same_ident(bh.name, behavior.name) && same_type(type_, t),
        NodeKind::Using { value, behavior } => b matches NodeKind::Using { value: v, behavior: bh } && v == value && same_ident(
            bh.name,
            behavior.name,
        ),
        _ => b == a,
    }
}

fn copy_named_keys(v: &Vec<(Identifier, GraphKey)>) -> (r: Vec<(Identifier, GraphKey)>)
    ensures
        same_named_keys(v@, r@),
{
    let mut r: Vec<(Identifier, GraphKey)> = Vec::new();
    let mut i: usize = 0;
    while i < v.len()
        invariant
            i <= v@.len(),
            r@.len() == i,
            forall|j: int| #![trigger r@[j]] 0 <= j < i ==> same_ident(v@[j].0, r@[j].0) && v@[j].1 == r@[j].1,
        decreases v@.len() - i,
    {
        r.push((v[i].0.copy(), v[i].1));
        i += 1;
    }
    r
}

fn copy_behavior(b: &BehaviorRef) -> (r: BehaviorRef)
    ensures
        same_ident(r.name, b.name),
        r.type_params@.len() == b.type_params@.len(),
{
    let mut ts: Vec<Type> = Vec::new();
    let mut i: usize = 0;
    while i < b.type_params.len()
        invariant
            i <= b.type_params@.len(),
            ts@.len() == i,
        decreases b.type_params@.len() - i,
    {
        ts.push(b.type_params[i].copy());
        i += 1;
    }
    BehaviorRef { name: b.name.copy(), type_params: ts }
}

/// `b` is a copy of pattern `a`: the same shape, with names compared by
/// their text and literals by [`same_lit`].
pub open spec fn same_pattern(a: Pattern, b: Pattern) -> bool
    decreases a,
{
    match a.kind {
        PatternKind::Wildcard => b.kind is Wildcard,
        PatternKind::Bind(x) => b.kind matches PatternKind::Bind(y) && same_ident(x, y),
        PatternKind::Variant { name, param } => b.kind matches PatternKind::Variant { name: n, param: q }
            && same_ident(name, n) && match param {
            Some(x) => q matches Some(y) && same_ident(x, y),
            None => q is None,
        },
        PatternKind::Literal(l) => b.kind matches PatternKind::Literal(m) && same_lit(l, m),
        PatternKind::Struct { name, fields } => b.kind matches PatternKind::Struct { name: n, fields: g }
            && same_ident(name, n) && g@.len() == fields@.len() && forall|i: int|
            #![trigger g@[i]]
            0 <= i < fields@.len() ==> same_ident(fields@[i].0, g@[i].0) && same_pattern(fields@[i].1, g@[i].1),
        PatternKind::RangePattern { start, end, closed } => b.kind matches PatternKind::RangePattern {
            start: s2,
            end: e2,
            closed: c2,
        } && same_lit(start, s2) && same_lit(end, e2) && c2 == closed,
    }
}

fn copy_pattern(p: &Pattern) -> (r: Pattern)
    ensures
        same_pattern(*p, r),
    decreases p,
{
    let kind = match &p.kind {
        PatternKind::Wildcard => PatternKind::Wildcard,
        PatternKind::Bind(i) => PatternKind::Bind(i.copy()),
        PatternKind::Variant { name, param } => PatternKind::Variant {
            name: name.copy(),
            param: match param {
                Some(x) => Some(x.copy()),
                None => None,
            },
        },
        PatternKind::Literal(l) => PatternKind::Literal(l.copy()),
        PatternKind::Struct { name, fields } => {
            let mut r: Vec<(Identifier, Pattern)> = Vec::new();
            let mut i: usize = 0;
            while i < fields.len()
                invariant
                    p.kind == (PatternKind::Struct { name: *name, fields: *fields }),
                    i <= fields@.len(),
                    r@.len() == i,
                    forall|j: int| #![trigger r@[j]] 0 <= j < i ==> same_ident(fields@[j].0, r@[j].0) && same_pattern(fields@[j].1, r@[j].1),
                decreases fields@.len() - i,
            {
                proof {
                    vstd::std_specs::vec::axiom_vec_index_decreases(*fields, i as int);
                    assert(decreases_to!(*p => p.kind));
                    assert(decreases_to!(p.kind => p.kind->Struct_fields));
                    assert(decreases_to!(*p => fields@[i as int].1));
                }
                r.push((fields[i].0.copy(), copy_pattern(&fields[i].1)));
                i += 1;
            }
            PatternKind::Struct { name: name.copy(), fields: r }
        },
        PatternKind::RangePattern { start, end, closed } => PatternKind::RangePattern {
            start: start.copy(),
            end: end.copy(),
            closed: *closed,
        },
    };
    Pattern { kind }
}

/// A copy of a node kind (see [`same_kind`]).
pub fn copy_kind(k: &NodeKind) -> (r: NodeKind)
    ensures
        same_kind(*k, r),
{
    match k {
        NodeKind::Literal(l) => NodeKind::Literal(l.copy()),
        NodeKind::Location => NodeKind::Location,
        NodeKind::Binding { name, def } => NodeKind::Binding { name: name.copy(), def: *def },
        NodeKind::Reference { name, def } => NodeKind::Reference { name: name.copy(), def: *def },
        NodeKind::Discard { source } => NodeKind::Discard { source: *source },
        NodeKind::Break => NodeKind::Break,
        NodeKind::Continue => NodeKind::Continue,
        NodeKind::Function { name, public, params, ret, body, capabilities } => {
            let mut q: Vec<(Identifier, Type, Option<GraphKey>)> = Vec::new();
            let mut i: usize = 0;
            while i < params.len()
                invariant
                    i <= params@.len(),
                    q@.len() == i,
                    forall|j: int|
                        #![trigger q@[j]]
                        0 <= j < i ==> same_ident(q@[j].0, params@[j].0) && same_type(params@[j].1, q@[j].1)
                            && q@[j].2 == params@[j].2,
                decreases params@.len() - i,
            {
                q.push((params[i].0.copy(), params[i].1.copy(), params[i].2));
                i += 1;
            }
            NodeKind::Function {
                name: name.copy(),
                public: *public,
                params: q,
                ret: ret.copy(),
                body: *body,
                capabilities: set_copied(capabilities),
            }
        },
        NodeKind::Call { func, args } => NodeKind::Call { func: *func, args: copy_keys(args) },
        NodeKind::Rt(x) => NodeKind::Rt(*x),
        NodeKind::AtResidual { type_, inner } => NodeKind::AtResidual { type_: type_.copy(), inner: *inner },
        NodeKind::BinaryOp { op, lhs, rhs } => NodeKind::BinaryOp { op: *op, lhs: *lhs, rhs: *rhs },
        NodeKind::UnaryOp { op, operand } => NodeKind::UnaryOp { op: op.copy(), operand: *operand },
        NodeKind::Cast { type_, operand } => NodeKind::Cast { type_: type_.copy(), operand: *operand },
        NodeKind::If { cond, then_branch, else_branch } => NodeKind::If {
            cond: *cond,
            then_branch: *then_branch,
            else_branch: *else_branch,
        },
        NodeKind::While { cond, body } => NodeKind::While { cond: *cond, body: *body },
        NodeKind::For { init, cond, step, body } => NodeKind::For { init: *init, cond: *cond, step: *step, body: *body },
        NodeKind::ForIn { iter, name, body } => NodeKind::ForIn { iter: *iter, name: name.copy(), body: *body },
        NodeKind::Match { scrutinee, arms, default_arm } => {
            let mut a2: Vec<(Pattern, GraphKey)> = Vec::new();
            let mut i: usize = 0;
            while i < arms.len()
                invariant
                    i <= arms@.len(),
                    a2@.len() == i,
                    forall|j: int| #![trigger a2@[j]] 0 <= j < i ==> a2@[j].1 == arms@[j].1 && same_pattern(arms@[j].0, a2@[j].0),
                decreases arms@.len() - i,
            {
                a2.push((copy_pattern(&arms[i].0), arms[i].1));
                i += 1;
            }
            NodeKind::Match { scrutinee: *scrutinee, arms: a2, default_arm: *default_arm }
        },
        NodeKind::Spawn { capabilities, body, ret } => NodeKind::Spawn {
            capabilities: crate::retro::capabilities_listed(capabilities),
            body: *body,
            ret: ret.copy(),
        },
        NodeKind::Assert { cond, message } => NodeKind::Assert { cond: *cond, message: *message },
        NodeKind::RtAssert { cond, message } => NodeKind::RtAssert { cond: *cond, message: *message },
        NodeKind::Known(x) => NodeKind::Known(*x),
        NodeKind::RtKnown(x) => NodeKind::RtKnown(*x),
        NodeKind::ComptimePrint(x) => NodeKind::ComptimePrint(*x),
        NodeKind::Todo => NodeKind::Todo,
        NodeKind::Unimplemented => NodeKind::Unimplemented,
        NodeKind::Struct { name, fields } => NodeKind::Struct { name: name.copy(), fields: copy_named_keys(fields) },
        NodeKind::List { elements } => NodeKind::List { elements: copy_keys(elements) },
        NodeKind::MapOf { entries } => {
            let mut e2: Vec<(GraphKey, GraphKey)> = Vec::new();
            let mut i: usize = 0;
            while i < entries.len()
                invariant
                    i <= entries@.len(),
                    e2@ == entries@.take(i as int),
                decreases entries@.len() - i,
            {
                e2.push(entries[i]);
                assert(e2@ =~= entries@.take(i + 1));
                i += 1;
            }
            assert(e2@ =~= entries@);
            NodeKind::MapOf { entries: e2 }
        },
        NodeKind::SetOf { elements } => NodeKind::SetOf { elements: copy_keys(elements) },
        NodeKind::Range { start, end, closed } => NodeKind::Range { start: *start, end: *end, closed: *closed },
        NodeKind::FString { parts } => {
            let mut p2: Vec<FStringPartNode> = Vec::new();
            let mut i: usize = 0;
            while i < parts.len()
                invariant
                    i <= parts@.len(),
                    p2@.len() == i,
                    forall|j: int|
                        #![trigger p2@[j]]
                        0 <= j < i ==> p2@[j].text@ == parts@[j].text@ && p2@[j].expr == parts@[j].expr,
                decreases parts@.len() - i,
            {
                p2.push(FStringPartNode { text: parts[i].text.clone(), expr: parts[i].expr });
                i += 1;
            }
            NodeKind::FString { parts: p2 }
        },
        NodeKind::RawString(x) => NodeKind::RawString(x.clone()),
        NodeKind::ByteString(x) => {
            let mut y: Vec<u8> = Vec::new();
            let mut i: usize = 0;
            while i < x.len()
                invariant
                    i <= x@.len(),
                    y@ == x@.take(i as int),
                decreases x@.len() - i,
            {
                y.push(x[i]);
                assert(y@ =~= x@.take(i + 1));
                i += 1;
            }
            assert(y@ =~= x@);
            NodeKind::ByteString(y)
        },
        NodeKind::FieldAccess { target, field } => NodeKind::FieldAccess { target: *target, field: field.copy() },
        NodeKind::Index { target, index } => NodeKind::Index { target: *target, index: *index },
        NodeKind::Slice { target, range } => NodeKind::Slice { target: *target, range: *range },
        NodeKind::MethodCall { target, method, args } => NodeKind::MethodCall {
            target: *target,
            method: method.copy(),
            args: copy_keys(args),
        },
        NodeKind::EarlyReturn { value } => NodeKind::EarlyReturn { value: *value },
        NodeKind::ElseFallback { value, fallback } => NodeKind::ElseFallback { value: *value, fallback: *fallback },
        NodeKind::Destructure { pattern, source, bindings } => NodeKind::Destructure {
            pattern: copy_pattern(pattern),
            source: *source,
            bindings: copy_named_keys(bindings),
        },
        NodeKind::With { bindings, body } => {
            let mut b2: Vec<WithBindingNode> = Vec::new();
            let mut i: usize = 0;
            while i < bindings.len()
                invariant
                    i <= bindings@.len(),
                    b2@.len() == i,
                    forall|j: int|
                        #![trigger b2@[j]]
                        0 <= j < i ==> same_type(bindings@[j].type_, b2@[j].type_) && same_ident(
                            b2@[j].name,
                            bindings@[j].name,
                        ) && b2@[j].init == bindings@[j].init,
                decreases bindings@.len() - i,
            {
                b2.push(WithBindingNode {
                    type_: bindings[i].type_.copy(),
                    name: bindings[i].name.copy(),
                    init: bindings[i].init,
                });
                i += 1;
            }
            NodeKind::With { bindings: b2, body: *body }
        },
        NodeKind::ProviderCall { provider, verb, args } => NodeKind::ProviderCall {
            provider: *provider,
            verb: verb.copy(),
            args: copy_keys(args),
        },
        NodeKind::BehaviorInstance { behavior, type_ } => NodeKind::BehaviorInstance {
            behavior: copy_behavior(behavior),
            type_: type_.copy(),
        },
        NodeKind::Using { value, behavior } => NodeKind::Using { value: *value, behavior: copy_behavior(behavior) },
        NodeKind::RegionError(x) => NodeKind::RegionError(*x),
    }
}


// ─── Pattern matching ──────────────────────────────────────────────

/// A pattern matches a node kind: wildcards and bindings match anything,
/// a literal pattern an equal literal, variant and struct patterns a
/// struct.
pub open spec fn pattern_matches(p: PatternKind, k: NodeKind) -> bool {
    match p {
        PatternKind::Wildcard => true,
        PatternKind::Bind(_) => true,
        PatternKind::Literal(l) => k matches NodeKind::Literal(n) && same_lit(l, n),
        PatternKind::Variant { .. } => k is Struct,
        PatternKind::Struct { .. } => k is Struct,
        _ => false,
    }
}

/// Whether `pattern` matches `node` (see [`pattern_matches`]).
pub fn matches_pat(pattern: &Pattern, node: &Node) -> (r: bool)
    ensures
        r == pattern_matches(pattern.kind, node.kind),
{
    match (&pattern.kind, &node.kind) {
        (PatternKind::Wildcard, _) => true,
        (PatternKind::Literal(l), NodeKind::Literal(n)) => l.same_as(n),
        (PatternKind::Bind(_), _) => true,
        (PatternKind::Variant { .. }, NodeKind::Struct { .. }) => true,
        (PatternKind::Struct { .. }, NodeKind::Struct { .. }) => true,
        _ => false,
    }
}

// ─── The reduction engine ──────────────────────────────────────────

/// Result of reducing a single node.
#[derive(Clone, Copy, Debug, PartialEq, Eq, Structural)]
pub enum ReductionResult {
    Reduced(GraphKey),
    Irreducible,
    Invalid,
}

/// Reduction errors.
#[derive(Debug, PartialEq, Eq)]
pub enum ReductionError {
    Overflow { op: BinOp, width: u16 },
    DivByZero,
    TypeMismatch { expected: String, got: String },
    UnknownNode(GraphKey),
}

/// `b` is `a` after reduction steps: nodes are rewritten in place and none
/// is removed, functions, literals and residual and effectful nodes (but
/// references) are left alone, the function table and entry point are unchanged, and
/// the graph is still well formed.
pub open spec fn rewrites(a: KnowledgeGraph, b: KnowledgeGraph) -> bool {
    &&& b.wf()
    &&& a.nodes().dom().subset_of(b.nodes().dom())
    &&& kept_in_place(a, b)
    &&& residue_kept(a, b)
    &&& b.functions() == a.functions()
    &&& b.entry() == a.entry()
}

/// How a key shows in messages: `GraphKey(<slot>v<version>)`, or
/// `GraphKey(null)` for the null key.
pub open spec fn key_text(k: GraphKey) -> Seq<char> {
    let idx = k.0 % 0x1_0000_0000;
    let version = k.0 / 0x1_0000_0000;
    if idx == 0xFFFF_FFFF {
        "GraphKey(null)"@
    } else {
        "GraphKey("@ + decimal(idx as nat) + "v"@ + decimal(version as nat) + ")"@
    }
}

/// The message of a reduction error.
pub open spec fn reduction_error_text(e: ReductionError) -> Seq<char> {
    match e {
        ReductionError::Overflow { op, width } => "overflow "@ + binop_name(op) + " on "@ + decimal(width as nat)
            + "-bit"@,
        ReductionError::DivByZero => "div by zero"@,
        ReductionError::TypeMismatch { expected, got } => "type mismatch: "@ + expected@ + " vs "@ + got@,
        ReductionError::UnknownNode(k) => "unknown node "@ + key_text(k),
    }
}

impl ReductionError {
    /// The message the error displays.
    pub fn message(&self) -> (s: String)
        ensures
            s@ == reduction_error_text(*self),
    {
        match self {
            ReductionError::Overflow { op, width } => {
                let mut s = string_of("overflow ");
                push_str(&mut s, op.name());
                push_str(&mut s, " on ");
                push_decimal(&mut s, *width as u128);
                push_str(&mut s, "-bit");
                s
            },
            ReductionError::DivByZero => string_of("div by zero"),
            ReductionError::TypeMismatch { expected, got } => {
                let mut s = string_of("type mismatch: ");
                push_str(&mut s, expected.as_str());
                push_str(&mut s, " vs ");
                push_str(&mut s, got.as_str());
                s
            },
            ReductionError::UnknownNode(k) => {
                let mut s = string_of("unknown node ");
                let idx = k.0 % 0x1_0000_0000;
                let version = k.0 / 0x1_0000_0000;
                if idx == 0xFFFF_FFFF {
                    push_str(&mut s, "GraphKey(null)");
                } else {
                    push_str(&mut s, "GraphKey(");
                    push_decimal(&mut s, idx as u128);
                    push_str(&mut s, "v");
                    push_decimal(&mut s, version as u128);
                    push_str(&mut s, ")");
                }
                s
            },
        }
    }
}

/// A node that reduction leaves alone: a function, a literal, or a
/// residual or effectful node that is no reference.
pub open spec fn stays(n: Node) -> bool {
    n.kind is Function || n.kind is Literal || ((n.knowledge == KnowledgeState::Residual || n.knowledge
        == KnowledgeState::Effect) && !(n.kind is Reference))
}

/// Every node of `a` that stays is unchanged in `b`.
pub open spec fn residue_kept(a: KnowledgeGraph, b: KnowledgeGraph) -> bool {
    forall|c: u64|
        #[trigger] a.nodes().contains_key(c) && stays(a.nodes()[c]) ==> b.nodes().contains_key(c) && b.nodes()[c]
            == a.nodes()[c]
}

/// Every node of `a` is still in `b` under the same key, with the same
/// dependencies, effects, capabilities, provenance and span: only its
/// kind, type, knowledge state and doc comments may differ.
pub open spec fn kept_in_place(a: KnowledgeGraph, b: KnowledgeGraph) -> bool {
    forall|c: u64|
        #[trigger] a.nodes().contains_key(c) ==> b.nodes().contains_key(c) && b.nodes()[c].deps
            == a.nodes()[c].deps && b.nodes()[c].effects == a.nodes()[c].effects && b.nodes()[c].capabilities
            == a.nodes()[c].capabilities && b.nodes()[c].provenance == a.nodes()[c].provenance
            && b.nodes()[c].span == a.nodes()[c].span
}

/// The literal the node under `k` holds, if `g` has a literal node there.
pub open spec fn literal_at(g: KnowledgeGraph, k: GraphKey) -> Option<LiteralValue> {
    if g.has(k) && g.node(k).kind is Literal {
        Some(g.node(k).kind->Literal_0)
    } else {
        None
    }
}

/// The cast folds that reduction makes: integer casts to widths under
/// 128 bits (see [`cast_spec`]).
pub open spec fn cast_fold(lit: LiteralValue, target: Type) -> Option<LiteralValue> {
    match cast_target(lit, target) {
        Some((dw, _)) => if dw.spec_bits() < 128 {
            cast_spec(lit, target)
        } else {
            None
        },
        None => None,
    }
}

/// Arm `i` is the first of `arms` whose pattern matches node kind `k`.
pub open spec fn first_arm(arms: Seq<(Pattern, GraphKey)>, k: NodeKind, i: int) -> bool {
    &&& 0 <= i < arms.len()
    &&& pattern_matches(arms[i].0.kind, k)
    &&& forall|j: int| 0 <= j < i ==> !pattern_matches(#[trigger] arms[j].0.kind, k)
}

/// Field `i` is the first of `fields` named `name`.
pub open spec fn first_field(fields: Seq<(Identifier, GraphKey)>, name: Seq<char>, i: int) -> bool {
    &&& 0 <= i < fields.len()
    &&& fields[i].0.name@ == name
    &&& forall|j: int| 0 <= j < i ==> (#[trigger] fields[j]).0.name@ != name
}

/// The value key of the first field named `name` of the struct node under
/// `target`, if there is one.
pub open spec fn struct_field(g: KnowledgeGraph, target: GraphKey, name: Seq<char>) -> Option<GraphKey> {
    if g.has(target) && g.node(target).kind is Struct && exists|i: int|
        first_field(g.node(target).kind->Struct_fields@, name, i) {
        let fs = g.node(target).kind->Struct_fields@;
        Some(fs[choose|i: int| first_field(fs, name, i)].1)
    } else {
        None
    }
}

/// The element key of the list node under `target` at the position held by
/// the integer literal under `index` (read as `usize`), if in range.
pub open spec fn list_element(g: KnowledgeGraph, target: GraphKey, index: GraphKey) -> Option<GraphKey> {
    if g.has(index) && g.has(target) && (g.node(index).kind is Literal) && (g.node(index).kind->Literal_0 is Int)
        && g.node(target).kind is List {
        let i = (g.node(index).kind->Literal_0->Int_value) as usize;
        let es = g.node(target).kind->List_elements@;
        if i < es.len() {
            Some(es[i as int])
        } else {
            None
        }
    } else {
        None
    }
}

/// The text one f-string part contributes: its own text, or the literal
/// its expression holds (a string as it is, another literal as it
/// displays); `None` when the expression is no literal.
pub open spec fn part_text(g: KnowledgeGraph, p: FStringPartNode) -> Option<Seq<char>> {
    match p.expr {
        Some(ek) => match literal_at(g, ek) {
            Some(LiteralValue::Str(s)) => Some(s@),
            Some(l) => Some(literal_text(l)),
            None => None,
        },
        None => Some(p.text@),
    }
}

/// The text of an f-string whose parts all have one (see [`part_text`]).
pub open spec fn fstring_text(g: KnowledgeGraph, parts: Seq<FStringPartNode>) -> Option<Seq<char>>
    decreases parts.len(),
{
    if parts.len() == 0 {
        Some(Seq::empty())
    } else {
        match (fstring_text(g, parts.drop_last()), part_text(g, parts.last())) {
            (Some(a), Some(b)) => Some(a + b),
            _ => None,
        }
    }
}

proof fn lemma_fstring_same(g: KnowledgeGraph, a: Seq<FStringPartNode>, b: Seq<FStringPartNode>, n: int)
    requires
        0 <= n <= a.len(),
        a.len() == b.len(),
        forall|i: int| #![trigger b[i]] 0 <= i < a.len() ==> b[i].text@ == a[i].text@ && b[i].expr == a[i].expr,
    ensures
        fstring_text(g, a.take(n)) == fstring_text(g, b.take(n)),
    decreases n,
{
    if n > 0 {
        lemma_fstring_same(g, a, b, n - 1);
        assert(a.take(n).drop_last() =~= a.take(n - 1));
        assert(b.take(n).drop_last() =~= b.take(n - 1));
        assert(b[n - 1].text@ == a[n - 1].text@);
        assert(part_text(g, a.take(n).last()) == part_text(g, b.take(n).last()));
    } else {
        assert(a.take(0) =~= b.take(0));
    }
}

proof fn lemma_same_lit_sym(a: LiteralValue, b: LiteralValue)
    requires
        same_lit(a, b),
    ensures
        same_lit(b, a),
    decreases a,
{
    match a {
        LiteralValue::Struct { fields, .. } => {
            let f2 = b->Struct_fields;
            assert forall|i: int| #![trigger fields@[i]] 0 <= i < f2@.len() implies same_ident(fields@[i].0, f2@[i].0)
                && same_lit(f2@[i].1, fields@[i].1) by {
                assert(same_ident(f2@[i].0, fields@[i].0) && same_lit(fields@[i].1, f2@[i].1));
                vstd::std_specs::vec::axiom_vec_index_decreases(fields, i);
                lemma_same_lit_sym(fields@[i].1, f2@[i].1);
            }
        },
        LiteralValue::List(xs) => {
            let ys = b->List_0;
            assert forall|i: int| #![trigger xs@[i]] 0 <= i < ys@.len() implies same_lit(ys@[i], xs@[i]) by {
                assert(same_lit(xs@[i], ys@[i]));
                vstd::std_specs::vec::axiom_vec_index_decreases(xs, i);
                lemma_same_lit_sym(xs@[i], ys@[i]);
            }
        },
        _ => {},
    }
}

proof fn lemma_same_lit_trans(a: LiteralValue, b: LiteralValue, c: LiteralValue)
    requires
        same_lit(a, b),
        same_lit(b, c),
    ensures
        same_lit(a, c),
    decreases a,
{
    match a {
        LiteralValue::Struct { fields, .. } => {
            let f2 = b->Struct_fields;
            let f3 = c->Struct_fields;
            assert forall|i: int| #![trigger f3@[i]] 0 <= i < fields@.len() implies same_ident(f3@[i].0, fields@[i].0)
                && same_lit(fields@[i].1, f3@[i].1) by {
                assert(same_ident(f2@[i].0, fields@[i].0) && same_lit(fields@[i].1, f2@[i].1));
                assert(same_ident(f3@[i].0, f2@[i].0) && same_lit(f2@[i].1, f3@[i].1));
                vstd::std_specs::vec::axiom_vec_index_decreases(fields, i);
                lemma_same_lit_trans(fields@[i].1, f2@[i].1, f3@[i].1);
            }
        },
        LiteralValue::List(xs) => {
            let ys = b->List_0;
            let zs = c->List_0;
            assert forall|i: int| #![trigger zs@[i]] 0 <= i < xs@.len() implies same_lit(xs@[i], zs@[i]) by {
                assert(same_lit(xs@[i], ys@[i]));
                assert(same_lit(ys@[i], zs@[i]));
                vstd::std_specs::vec::axiom_vec_index_decreases(xs, i);
                lemma_same_lit_trans(xs@[i], ys@[i], zs@[i]);
            }
        },
        _ => {},
    }
}

/// Copied patterns match the same node kinds.
proof fn lemma_pattern_matches_same(p: Pattern, q: Pattern, k: NodeKind)
    requires
        same_pattern(p, q),
    ensures
        pattern_matches(p.kind, k) == pattern_matches(q.kind, k),
{
    match p.kind {
        PatternKind::Literal(l) => {
            let m = q.kind->Literal_0;
            if k is Literal {
                let n = k->Literal_0;
                lemma_same_lit_sym(l, m);
                if same_lit(l, n) {
                    lemma_same_lit_trans(m, l, n);
                }
                if same_lit(m, n) {
                    lemma_same_lit_trans(l, m, n);
                }
            }
        },
        _ => {},
    }
}

/// Arms whose patterns are copies of each other, leading to the same
/// keys, have the same first matching arm.
proof fn lemma_first_arm_same(a: Seq<(Pattern, GraphKey)>, b: Seq<(Pattern, GraphKey)>, k: NodeKind)
    requires
        a.len() == b.len(),
        forall|i: int| #![trigger b[i]] 0 <= i < a.len() ==> b[i].1 == a[i].1 && same_pattern(a[i].0, b[i].0),
    ensures
        forall|i: int| first_arm(a, k, i) == first_arm(b, k, i),
        (exists|i: int| first_arm(a, k, i)) == (exists|i: int| first_arm(b, k, i)),
        (exists|i: int| first_arm(a, k, i)) ==> a[choose|i: int| first_arm(a, k, i)].1 == b[choose|i: int|
            first_arm(b, k, i)].1,
{
    assert forall|i: int| 0 <= i < a.len() implies pattern_matches(#[trigger] a[i].0.kind, k) == pattern_matches(
        b[i].0.kind,
        k,
    ) by {
        assert(b[i].1 == a[i].1);
        lemma_pattern_matches_same(a[i].0, b[i].0, k);
    }
    assert forall|i: int| first_arm(a, k, i) == first_arm(b, k, i) by {
        if 0 <= i < a.len() {
            assert(pattern_matches(a[i].0.kind, k) == pattern_matches(b[i].0.kind, k));
            assert forall|j: int| 0 <= j < i implies pattern_matches(#[trigger] a[j].0.kind, k) == pattern_matches(
                b[j].0.kind,
                k,
            ) by {
                assert(pattern_matches(a[j].0.kind, k) == pattern_matches(b[j].0.kind, k));
            }
        }
    }
    if exists|i: int| first_arm(a, k, i) {
        let x = choose|i: int| first_arm(a, k, i);
        assert(first_arm(b, k, x));
        let y = choose|i: int| first_arm(b, k, i);
        assert(first_arm(a, k, y));
        if x < y {
            assert(!pattern_matches(a[x].0.kind, k));
        } else if y < x {
            assert(!pattern_matches(a[y].0.kind, k));
        }
        assert(b[y].1 == a[y].1);
    }
}

proof fn lemma_fstring_none(g: KnowledgeGraph, parts: Seq<FStringPartNode>, n: int)
    requires
        0 <= n <= parts.len(),
        fstring_text(g, parts.take(n)) is None,
    ensures
        fstring_text(g, parts) is None,
    decreases parts.len() - n,
{
    if n == parts.len() {
        assert(parts.take(n) =~= parts);
    } else {
        assert(parts.take(n + 1).drop_last() =~= parts.take(n));
        lemma_fstring_none(g, parts, n + 1);
    }
}

/// In `h`, the node `key` is a copy of the node `src` of `g`: the same
/// kind, type and knowledge state.
pub open spec fn copied_from(g: KnowledgeGraph, h: KnowledgeGraph, key: GraphKey, src: GraphKey) -> bool {
    &&& same_kind(g.node(src).kind, h.node(key).kind)
    &&& same_type(g.node(src).type_, h.node(key).type_)
    &&& h.node(key).knowledge == g.node(src).knowledge
}

/// The node under `def` is a known literal.
pub open spec fn known_literal(g: KnowledgeGraph, def: GraphKey) -> bool {
    g.has(def) && g.node(def).knowledge == KnowledgeState::Known && g.node(def).kind is Literal
}

/// What one reduction step does to the node `key` of kind `kind` (no
/// reference, literal, residual or effectful node), as far as it is stated
/// here: operators on integer literals fold, `!` on a boolean literal
/// folds, integer casts of literals fold, an `if` on `true` takes its then
/// branch, a `match` takes its first matching arm (invalid when none
/// matches), a binding of a known definition takes its value, a
/// compile-time print becomes `null`, an f-string of literal parts becomes
/// its text, a field of a struct and an element of a list at a known index
/// take the value they select, an assertion of `false` is invalid, and
/// ranges, lists, structs, discards, maps and sets become known as they
/// are. `h` is the graph after the step, `r` its result.
pub open spec fn kind_step(g: KnowledgeGraph, h: KnowledgeGraph, key: GraphKey, kind: NodeKind, r: ReductionResult) -> bool {
    match kind {
        NodeKind::BinaryOp { op, lhs, rhs } => (g.has(lhs) && g.has(rhs) && g.node(lhs).kind is Literal
            && g.node(rhs).kind is Literal && lit_int(g.node(lhs).kind->Literal_0) is Some && lit_int(
            g.node(rhs).kind->Literal_0,
        ) is Some) ==> match fold_int_spec(
            op,
            lit_int(g.node(lhs).kind->Literal_0).unwrap(),
            lit_int(g.node(rhs).kind->Literal_0).unwrap(),
        ) {
            Some(v) => r == ReductionResult::Reduced(lhs) && h.node(key).kind == NodeKind::Literal(v)
                && h.node(key).knowledge == KnowledgeState::Known && same_type(g.node(lhs).type_, h.node(key).type_),
            None => r is Invalid && h.node(key).knowledge == KnowledgeState::Invalid,
        },
        NodeKind::If { cond, then_branch, .. } => (g.has(cond) && g.node(cond).kind == NodeKind::Literal(
            LiteralValue::Bool(true),
        ) && g.has(then_branch)) ==> r == ReductionResult::Reduced(then_branch) && same_kind(
            g.node(then_branch).kind,
            h.node(key).kind,
        ),
        NodeKind::Binding { def, .. } => (g.has(def) && g.node(def).knowledge == KnowledgeState::Known) ==> r
            == ReductionResult::Reduced(def) && same_kind(g.node(def).kind, h.node(key).kind) && h.node(key).knowledge
            == KnowledgeState::Known,
        NodeKind::ComptimePrint(_) => match r {
            ReductionResult::Reduced(vk) => !graph_full(g) && !g.has(vk) && h.has(vk) && h.node(vk).kind
                == NodeKind::Literal(LiteralValue::Null) && h.node(key) == replaced(
                g,
                key,
                NodeKind::Literal(LiteralValue::Null),
                Type::Void,
                KnowledgeState::Known,
            ),
            ReductionResult::Irreducible => graph_full(g) && h == g,
            ReductionResult::Invalid => false,
        },
        NodeKind::FieldAccess { target, field } => match struct_field(g, target, field.name@) {
            Some(fk) => if g.has(fk) {
                r == ReductionResult::Reduced(fk) && copied_from(g, h, key, fk)
            } else {
                r is Irreducible && h == g
            },
            None => r is Irreducible && h == g,
        },
        NodeKind::Index { target, index } => match list_element(g, target, index) {
            Some(ek) => if g.has(ek) {
                r == ReductionResult::Reduced(ek) && copied_from(g, h, key, ek)
            } else {
                r is Irreducible && h == g
            },
            None => r is Irreducible && h == g,
        },
        NodeKind::Assert { cond, .. } => (g.has(cond) && g.node(cond).kind == NodeKind::Literal(LiteralValue::Bool(false)))
            ==> r is Invalid && h.node(key).knowledge == KnowledgeState::Invalid,
        NodeKind::Cast { type_, operand } => match literal_at(g, operand) {
            Some(lit) => match cast_fold(lit, type_) {
                Some(v) => r == ReductionResult::Reduced(operand) && h.node(key).kind == NodeKind::Literal(v)
                    && same_type(type_, h.node(key).type_) && h.node(key).knowledge == KnowledgeState::Known,
                None => r is Irreducible && h == g,
            },
            None => r is Irreducible && h == g,
        },
        NodeKind::FString { parts } => match fstring_text(g, parts@) {
            Some(t) => if graph_full(g) {
                r is Irreducible && h == g
            } else {
                &&& r matches ReductionResult::Reduced(sk)
                &&& !g.has(r->Reduced_0) && h.has(r->Reduced_0)
                &&& h.node(r->Reduced_0).kind matches NodeKind::Literal(LiteralValue::Str(x))
                &&& h.node(r->Reduced_0).kind->Literal_0->Str_0@ == t
                &&& h.node(key).kind matches NodeKind::Literal(LiteralValue::Str(y))
                &&& h.node(key).kind->Literal_0->Str_0@ == t
                &&& h.node(key).knowledge == KnowledgeState::Known
            },
            None => r is Irreducible && h == g,
        },
        NodeKind::Match { scrutinee, arms, .. } => if arms@.len() == 0 {
            r is Invalid && h == g
        } else if !g.has(scrutinee) {
            r is Irreducible && h == g
        } else if exists|i: int| first_arm(arms@, g.node(scrutinee).kind, i) {
            let arm = arms@[choose|i: int| first_arm(arms@, g.node(scrutinee).kind, i)].1;
            if g.has(arm) {
                r == ReductionResult::Reduced(arm) && copied_from(g, h, key, arm)
            } else {
                r is Irreducible && h == g
            }
        } else {
            r is Invalid && h == g
        },
        NodeKind::UnaryOp { op, operand } => (op is Not && g.has(operand) && g.node(operand).kind matches NodeKind::Literal(
            LiteralValue::Bool(b),
        )) ==> r == ReductionResult::Reduced(operand) && h.node(key).kind == NodeKind::Literal(
            LiteralValue::Bool(!g.node(operand).kind->Literal_0->Bool_0),
        ),
        NodeKind::Range { .. } => r is Irreducible && h.node(key).knowledge == KnowledgeState::Known,
        NodeKind::List { .. } => r is Irreducible && h.node(key).knowledge == KnowledgeState::Known,
        NodeKind::Struct { .. } => r is Irreducible && h.node(key).knowledge == KnowledgeState::Known,
        NodeKind::Discard { .. } => r is Irreducible && h.node(key).knowledge == KnowledgeState::Known,
        NodeKind::MapOf { .. } => r is Irreducible && h.node(key).knowledge == KnowledgeState::Known,
        NodeKind::SetOf { .. } => r is Irreducible && h.node(key).knowledge == KnowledgeState::Known,
        _ => true,
    }
}

/// What one reduction step does to the node `key` (see [`kind_step`]): a
/// missing node and a literal are left as they are; a reference takes the
/// value of its definition once that is a known literal, and is left as it
/// is otherwise; a residual or effectful node is left as it is.
pub open spec fn within_step(g: KnowledgeGraph, h: KnowledgeGraph, key: GraphKey, r: ReductionResult) -> bool {
    if !g.has(key) {
        r is Irreducible && h == g
    } else {
        match g.node(key).kind {
            NodeKind::Reference { def, .. } => if known_literal(g, def) {
                r == ReductionResult::Reduced(def) && same_kind(g.node(def).kind, h.node(key).kind)
                    && h.node(key).knowledge == KnowledgeState::Known
            } else {
                r is Irreducible && h == g
            },
            NodeKind::Literal(_) => r is Irreducible && h == g,
            _ => if g.node(key).knowledge == KnowledgeState::Residual || g.node(key).knowledge == KnowledgeState::Effect {
                r is Irreducible && h == g
            } else {
                kind_step(g, h, key, g.node(key).kind, r)
            },
        }
    }
}

/// A call of `func` on `args` can be inlined: every argument is a known
/// value, `func` is a function node, its parameter cells (none when none
/// are recorded) are as many as the arguments, and every argument names a
/// node.
pub open spec fn call_ready(g: KnowledgeGraph, known: Set<u64>, func: GraphKey, args: Seq<GraphKey>) -> bool {
    &&& forall|i: int| 0 <= i < args.len() ==> known.contains(#[trigger] args[i].0)
    &&& g.has(func) && g.node(func).kind is Function
    &&& args.len() == match g.cells().get(func.0) {
        Some(c) => c@.len(),
        None => 0,
    }
    &&& forall|i: int| 0 <= i < args.len() ==> g.has(#[trigger] args[i])
}

/// Only the node `key` of `g` may differ in `h` (nodes may be added).
pub open spec fn frame(g: KnowledgeGraph, h: KnowledgeGraph, key: GraphKey) -> bool {
    forall|c: u64|
        #[trigger] g.nodes().contains_key(c) && c != crate::graph::canon(key.0) ==> h.nodes().contains_key(c)
            && h.nodes()[c] == g.nodes()[c]
}

/// The node stored under `c` is a reference whose definition is a known
/// literal.
pub open spec fn ref_to_known_lit(g: KnowledgeGraph, c: u64) -> bool {
    g.nodes().contains_key(c) && g.nodes()[c].kind is Reference && known_literal(g, g.nodes()[c].kind->Reference_def)
}

/// In `h`, the reference stored under `c` in `g` holds the value of its
/// definition: a copy of the definition's literal, known.
pub open spec fn folded(g: KnowledgeGraph, h: KnowledgeGraph, c: u64) -> bool {
    h.nodes().contains_key(c) && same_kind(g.node(g.nodes()[c].kind->Reference_def).kind, h.nodes()[c].kind)
        && h.nodes()[c].knowledge == KnowledgeState::Known
}

/// Every reference of `g` to a known literal is, in `h`, either as it was
/// or folded into the value of its definition.
pub open spec fn refs_fold(g: KnowledgeGraph, h: KnowledgeGraph) -> bool {
    forall|c: u64|
        #[trigger] ref_to_known_lit(g, c) ==> (h.nodes().contains_key(c) && h.nodes()[c] == g.nodes()[c]) || folded(g, h, c)
}

/// `g` is `g0` after a full reduction from no marks: rewritten in place,
/// with every reference to a known literal folded into its value.
pub open spec fn reduction_of(g0: KnowledgeGraph, g: KnowledgeGraph) -> bool {
    &&& rewrites(g0, g)
    &&& refs_fold(g0, g)
    &&& forall|c: u64|
        #![trigger g0.nodes().contains_key(c)]
        g0.nodes().contains_key(c) && ref_to_known_lit(g0, crate::graph::canon(c)) ==> folded(
            g0,
            g,
            crate::graph::canon(c),
        )
}

proof fn lemma_frame_refs_fold(g: KnowledgeGraph, h: KnowledgeGraph, key: GraphKey)
    requires
        frame(g, h, key),
        !ref_to_known_lit(g, crate::graph::canon(key.0)),
    ensures
        refs_fold(g, h),
{
    assert forall|c: u64| #[trigger] ref_to_known_lit(g, c) implies (h.nodes().contains_key(c) && h.nodes()[c]
        == g.nodes()[c]) || folded(g, h, c) by {
        assert(g.nodes().contains_key(c));
    }
}

proof fn lemma_grows_refs_fold(g: KnowledgeGraph, h: KnowledgeGraph)
    requires
        g.nodes().submap_of(h.nodes()),
    ensures
        refs_fold(g, h),
{
    assert forall|c: u64| #[trigger] ref_to_known_lit(g, c) implies (h.nodes().contains_key(c) && h.nodes()[c]
        == g.nodes()[c]) || folded(g, h, c) by {
        assert(g.nodes().contains_key(c));
    }
}

proof fn lemma_frame_refs_fold_at(g: KnowledgeGraph, h: KnowledgeGraph, key: GraphKey)
    requires
        frame(g, h, key),
        ref_to_known_lit(g, crate::graph::canon(key.0)),
        g.has(key),
        same_kind(g.node(g.node(key).kind->Reference_def).kind, h.node(key).kind),
        h.has(key),
        h.node(key).knowledge == KnowledgeState::Known,
    ensures
        refs_fold(g, h),
{
    assert forall|c: u64| #[trigger] ref_to_known_lit(g, c) implies (h.nodes().contains_key(c) && h.nodes()[c]
        == g.nodes()[c]) || folded(g, h, c) by {
        assert(g.nodes().contains_key(c));
    }
}

/// Every key among the first `n` of `order` that is not marked in
/// `marks` and is, in `g`, a reference to a known literal is folded in `h`.
pub open spec fn folds_all(g: KnowledgeGraph, h: KnowledgeGraph, order: Seq<GraphKey>, n: int, marks: Set<u64>) -> bool {
    forall|j: int|
        0 <= j < n && !marks.contains(order[j].0) && #[trigger] ref_to_known_lit(g, crate::graph::canon(order[j].0))
            ==> folded(g, h, crate::graph::canon(order[j].0))
}

/// A step on a reference to a known literal folds it; a node folded
/// before stays folded.
proof fn lemma_step_folds(g: KnowledgeGraph, cur: KnowledgeGraph, next: KnowledgeGraph, key: GraphKey, x: ReductionResult)
    requires
        rewrites(g, cur),
        rewrites(cur, next),
        refs_fold(g, cur),
        within_step(cur, next, key, x),
    ensures
        ref_to_known_lit(g, crate::graph::canon(key.0)) ==> folded(g, next, crate::graph::canon(key.0)),
{
    let c = crate::graph::canon(key.0);
    if ref_to_known_lit(g, c) {
        let def = g.nodes()[c].kind->Reference_def;
        let dc = crate::graph::canon(def.0);
        assert(g.nodes().contains_key(dc) && stays(g.nodes()[dc]));
        assert(cur.nodes()[dc] == g.nodes()[dc]);
        if cur.nodes().contains_key(c) && cur.nodes()[c] == g.nodes()[c] {
            assert(known_literal(cur, def));
        } else {
            assert(folded(g, cur, c));
            assert(stays(cur.nodes()[c]));
            assert(next.nodes()[c] == cur.nodes()[c]);
        }
    }
}

/// Earlier folds stay folded across a step, and the step's own key is
/// folded when it is a reference to a known literal.
proof fn lemma_folds_all_step(
    g: KnowledgeGraph,
    cur: KnowledgeGraph,
    next: KnowledgeGraph,
    order: Seq<GraphKey>,
    i: int,
    marks: Set<u64>,
)
    requires
        0 <= i < order.len(),
        rewrites(cur, next),
        folds_all(g, cur, order, i, marks),
        ref_to_known_lit(g, crate::graph::canon(order[i].0)) ==> folded(g, next, crate::graph::canon(order[i].0)),
    ensures
        folds_all(g, next, order, i + 1, marks),
{
    assert forall|j: int|
        0 <= j < i + 1 && !marks.contains(order[j].0) && #[trigger] ref_to_known_lit(g, crate::graph::canon(order[j].0))
            implies folded(g, next, crate::graph::canon(order[j].0)) by {
        if j < i {
            let c = crate::graph::canon(order[j].0);
            assert(folded(g, cur, c));
            assert(stays(cur.nodes()[c]));
            assert(next.nodes()[c] == cur.nodes()[c]);
        }
    }
}

/// Marking a node invalid after a step that found it invalid keeps every
/// fold: such a node is no reference to a known literal.
proof fn lemma_invalid_keeps(
    g: KnowledgeGraph,
    cur: KnowledgeGraph,
    g1: KnowledgeGraph,
    g2: KnowledgeGraph,
    key: GraphKey,
    order: Seq<GraphKey>,
    i: int,
    marks: Set<u64>,
    fuel: u64,
)
    requires
        rewrites(g, cur),
        refs_fold(g, cur),
        refs_fold(g, g1),
        cur.has(key),
        !stays(cur.node(key)),
        fuel > 0 ==> within_step(cur, g1, key, ReductionResult::Invalid),
        g1.has(key),
        g2.nodes() == g1.nodes().insert(
            crate::graph::canon(key.0),
            with_knowledge(g1.node(key), KnowledgeState::Invalid),
        ),
        fuel > 0 ==> folds_all(g, g1, order, i, marks),
        fuel == 0 ==> false,
    ensures
        refs_fold(g, g2),
        fuel > 0 ==> folds_all(g, g2, order, i, marks),
{
    let c = crate::graph::canon(key.0);
    if ref_to_known_lit(g, c) {
        let def = g.nodes()[c].kind->Reference_def;
        let dc = crate::graph::canon(def.0);
        assert(g.nodes().contains_key(dc) && stays(g.nodes()[dc]));
        assert(cur.nodes()[dc] == g.nodes()[dc]);
        if cur.nodes()[c] == g.nodes()[c] {
            assert(known_literal(cur, def));
        } else {
            assert(folded(g, cur, c));
        }
    }
    assert forall|k: u64| #[trigger] ref_to_known_lit(g, k) implies (g2.nodes().contains_key(k) && g2.nodes()[k]
        == g.nodes()[k]) || folded(g, g2, k) by {
        assert(k != c);
    }
    assert forall|j: int|
        0 <= j < i && !marks.contains(order[j].0) && #[trigger] ref_to_known_lit(g, crate::graph::canon(order[j].0))
            implies folded(g, g2, crate::graph::canon(order[j].0)) by {
        assert(crate::graph::canon(order[j].0) != c);
    }
}

/// A folded reference stays folded: it is a literal, which reduction
/// leaves alone.
proof fn lemma_folded_kept(g: KnowledgeGraph, cur: KnowledgeGraph, next: KnowledgeGraph, c: u64)
    requires
        ref_to_known_lit(g, c),
        folded(g, cur, c),
        rewrites(cur, next),
    ensures
        folded(g, next, c),
{
    assert(cur.nodes()[c].kind is Literal);
    assert(stays(cur.nodes()[c]));
}

proof fn lemma_refs_fold_trans(a: KnowledgeGraph, b: KnowledgeGraph, c: KnowledgeGraph)
    requires
        rewrites(a, b),
        rewrites(b, c),
        refs_fold(a, b),
        refs_fold(b, c),
    ensures
        refs_fold(a, c),
{
    assert forall|k: u64| #[trigger] ref_to_known_lit(a, k) implies (c.nodes().contains_key(k) && c.nodes()[k]
        == a.nodes()[k]) || folded(a, c, k) by {
        let def = a.nodes()[k].kind->Reference_def;
        let dc = crate::graph::canon(def.0);
        assert(a.nodes().contains_key(dc) && stays(a.nodes()[dc]));
        assert(b.nodes()[dc] == a.nodes()[dc]);
        assert(c.nodes()[dc] == a.nodes()[dc]);
        if b.nodes().contains_key(k) && b.nodes()[k] == a.nodes()[k] {
            assert(ref_to_known_lit(b, k));
        } else {
            assert(folded(a, b, k));
            assert(b.nodes()[k].kind is Literal);
            assert(stays(b.nodes()[k]));
            assert(c.nodes()[k] == b.nodes()[k]);
        }
    }
}

/// Every step on `k` in `g` reduces it (see [`within_step`]).
pub open spec fn step_reduces(g: KnowledgeGraph, k: GraphKey) -> bool {
    forall|h: KnowledgeGraph, x: ReductionResult| #[trigger] within_step(g, h, k, x) ==> x is Reduced
}

/// Position `i` holds the first key of `order` that is not marked
/// irreducible in `marks`.
pub open spec fn first_unmarked(marks: Set<u64>, order: Seq<GraphKey>, i: int) -> bool {
    &&& 0 <= i < order.len()
    &&& !marks.contains(order[i].0)
    &&& forall|j: int| 0 <= j < i ==> marks.contains(#[trigger] order[j].0)
}

/// The node `key` holds after it is replaced by a node of kind `kind`,
/// type `ty` and knowledge state `ks` (everything else kept).
pub open spec fn replaced(g: KnowledgeGraph, key: GraphKey, kind: NodeKind, ty: Type, ks: KnowledgeState) -> Node {
    Node { kind, type_: ty, knowledge: ks, ..g.node(key) }
}

/// The reduction context: the graph being reduced, the keys known to hold
/// literal values, and the keys found irreducible since the last change.
pub struct ReductionContext {
    graph: KnowledgeGraph,
    known_values: HashSet<u64>,
    irreducible: HashSet<u64>,
}

broadcast use vstd::std_specs::hash::group_hash_axioms;

/// The largest number of nodes a reduction step adds a node to.
pub const NODE_LIMIT: usize = 0xFFFF_FFFE;

/// The graph has no room for a node a reduction step would add: it holds
/// [`NODE_LIMIT`] nodes or more, or its identifier ids are used up.
pub open spec fn graph_full(g: KnowledgeGraph) -> bool {
    g.node_count() >= NODE_LIMIT || g.id_counter() == u64::MAX
}

impl ReductionContext {
    /// The graph being reduced.
    pub closed spec fn graph_of(&self) -> KnowledgeGraph {
        self.graph
    }

    /// The keys found irreducible since the last change: a reduction pass
    /// skips them.
    pub closed spec fn marked(&self) -> Set<u64> {
        self.irreducible@
    }

    /// A context over `graph`, with nothing known yet.
    pub fn new(graph: KnowledgeGraph) -> (c: ReductionContext)
        ensures
            c.graph_of() == graph,
            c.marked().is_empty(),
    {
        ReductionContext { graph, known_values: HashSet::new(), irreducible: HashSet::new() }
    }

    /// The (reduced) graph, handed back.
    pub fn into_graph(self) -> (g: KnowledgeGraph)
        ensures
            g == self.graph_of(),
    {
        self.graph
    }

    /// Replaces the node `key` in place (kind, type, knowledge).
    fn replace(&mut self, key: GraphKey, kind: NodeKind, ty: Type, ks: KnowledgeState)
        requires
            old(self).graph.wf(),
            old(self).graph.has(key),
            !stays(old(self).graph.node(key)),
        ensures
            rewrites(old(self).graph, final(self).graph),
            final(self).irreducible@ == old(self).irreducible@,
            final(self).graph.nodes() == old(self).graph.nodes().insert(
                crate::graph::canon(key.0),
                replaced(old(self).graph, key, kind, ty, ks),
            ),
    {
        let ghost g0 = self.graph;
        self.graph.replace_node(key, kind, ty, ks);
        proof {
            assert(g0.nodes().dom().subset_of(self.graph.nodes().dom()));
        }
    }

    /// Adds the known literal `lit` of type `ty` as a node of its own, with
    /// no dependencies, effects or capabilities, inferred provenance and an
    /// unknown span; `None` when the graph is full.
    fn add_literal(&mut self, lit: LiteralValue, ty: Type) -> (r: Option<GraphKey>)
        requires
            old(self).graph.wf(),
        ensures
            rewrites(old(self).graph, final(self).graph),
            final(self).irreducible@ == old(self).irreducible@,
            r is None <==> graph_full(old(self).graph),
            r matches Some(k) ==> !old(self).graph.has(k) && final(self).graph.has(k) && final(self).graph.node(k).kind
                == NodeKind::Literal(lit) && final(self).graph.node(k).type_ == ty && final(self).graph.node(k).knowledge
                == KnowledgeState::Known && final(self).graph.node(k).deps@.len() == 0
                && final(self).graph.node(k).provenance == Provenance::Inferred,
            r is None ==> final(self).graph == old(self).graph,
            old(self).graph.nodes().submap_of(final(self).graph.nodes()),
    {
        if self.graph.num_nodes() >= NODE_LIMIT || self.graph.peek_id() == u64::MAX {
            return None;
        }
        let ghost g0 = self.graph;
        let k = self.graph.add_node(
            NodeKind::Literal(lit),
            ty,
            KnowledgeState::Known,
            Vec::new(),
            HashSet::new(),
            HashSet::new(),
            Provenance::Inferred,
            Span::unknown(),
        );
        proof {
            assert(g0.nodes().dom().subset_of(self.graph.nodes().dom()));
        }
        Some(k)
    }

    /// Folds a binary operation on two literal operands: integers by the
    /// checked integer rules (an invalid result makes the node invalid),
    /// booleans by the boolean rules. The node keeps the left operand's
    /// type.
    fn reduce_binop(&mut self, key: GraphKey, op: BinOp, lhs: GraphKey, rhs: GraphKey) -> (r: ReductionResult)
        requires
            old(self).graph.wf(),
            old(self).graph.has(key),
            !stays(old(self).graph.node(key)),
        ensures
            rewrites(old(self).graph, final(self).graph),
            final(self).irreducible@ == old(self).irreducible@,
            frame(old(self).graph, final(self).graph, key),
            r is Invalid ==> final(self).graph.has(key),
            ({
                let g = old(self).graph;
                (g.has(lhs) && g.has(rhs) && g.node(lhs).kind is Literal && g.node(rhs).kind is Literal
                    && lit_int(g.node(lhs).kind->Literal_0) is Some && lit_int(g.node(rhs).kind->Literal_0) is Some)
                    ==> match fold_int_spec(op, lit_int(g.node(lhs).kind->Literal_0).unwrap(), lit_int(g.node(rhs).kind->Literal_0).unwrap()) {
                        Some(v) => r == ReductionResult::Reduced(lhs) && final(self).graph.node(key).kind == NodeKind::Literal(v)
                            && final(self).graph.node(key).knowledge == KnowledgeState::Known
                            && same_type(g.node(lhs).type_, final(self).graph.node(key).type_),
                        None => r is Invalid && final(self).graph.node(key).knowledge == KnowledgeState::Invalid,
                    }
            }),
    {
        let (ll, rl, lt) = match (self.graph.get_node_checked(lhs), self.graph.get_node_checked(rhs)) {
            (Some(ln), Some(rn)) => match (&ln.kind, &rn.kind) {
                (NodeKind::Literal(ll), NodeKind::Literal(rl)) => (ll.copy(), rl.copy(), ln.type_.copy()),
                _ => {
                    return ReductionResult::Irreducible;
                },
            },
            _ => {
                return ReductionResult::Irreducible;
            },
        };
        match (int_from_lit(&ll), int_from_lit(&rl)) {
            (Some(lv), Some(rv)) => {
                proof {
                    assert(lit_int(ll) == lit_int(self.graph.node(lhs).kind->Literal_0)) by {
                        lemma_same_lit_int(self.graph.node(lhs).kind->Literal_0, ll);
                    }
                    assert(lit_int(rl) == lit_int(self.graph.node(rhs).kind->Literal_0)) by {
                        lemma_same_lit_int(self.graph.node(rhs).kind->Literal_0, rl);
                    }
                }
                match fold_bin_int(op, lv, rv, Type::Void) {
                    Some(val) => {
                        self.replace(key, NodeKind::Literal(val), lt, KnowledgeState::Known);
                        return ReductionResult::Reduced(lhs);
                    },
                    None => {
                        let ghost g0 = self.graph;
                        self.graph.set_knowledge(key, KnowledgeState::Invalid);
                        proof {
                            assert(g0.nodes().dom().subset_of(self.graph.nodes().dom()));
                        }
                        return ReductionResult::Invalid;
                    },
                }
            },
            _ => {
                proof {
                    lemma_same_lit_int(self.graph.node(lhs).kind->Literal_0, ll);
                    lemma_same_lit_int(self.graph.node(rhs).kind->Literal_0, rl);
                }
            },
        }
        match (&ll, &rl) {
            (LiteralValue::Bool(b), LiteralValue::Bool(c)) => match fold_bin_bool(op, *b, *c) {
                Some(res) => {
                    self.replace(key, NodeKind::Literal(LiteralValue::Bool(res)), Type::Bool, KnowledgeState::Known);
                    ReductionResult::Reduced(lhs)
                },
                None => ReductionResult::Irreducible,
            },
            _ => ReductionResult::Irreducible,
        }
    }
}

impl ReductionContext {
    /// Replaces `key` by a copy of the node under `src` (with the given
    /// knowledge state, or the copied node's own).
    fn replace_with_copy(&mut self, key: GraphKey, src: GraphKey, ks: Option<KnowledgeState>) -> (done: bool)
        requires
            old(self).graph.wf(),
            old(self).graph.has(key),
            !stays(old(self).graph.node(key)),
        ensures
            rewrites(old(self).graph, final(self).graph),
            final(self).irreducible@ == old(self).irreducible@,
            done == old(self).graph.has(src),
            done ==> same_kind(old(self).graph.node(src).kind, final(self).graph.node(key).kind) && same_type(
                old(self).graph.node(src).type_,
                final(self).graph.node(key).type_,
            ) && final(self).graph.node(key).knowledge == match ks {
                Some(k) => k,
                None => old(self).graph.node(src).knowledge,
            },
            !done ==> final(self).graph == old(self).graph,
            done ==> final(self).graph.nodes() == old(self).graph.nodes().insert(
                crate::graph::canon(key.0),
                final(self).graph.node(key),
            ),
    {
        let (kind, ty, kn) = match self.graph.get_node_checked(src) {
            Some(n) => (copy_kind(&n.kind), n.type_.copy(), n.knowledge),
            None => {
                return false;
            },
        };
        let k2 = match ks {
            Some(k) => k,
            None => kn,
        };
        self.replace(key, kind, ty, k2);
        true
    }

    /// Replaces `key` by the known literal `null`, also added as a node of
    /// its own, whose key is returned (`None` when the graph is full).
    fn collapse_to_null(&mut self, key: GraphKey) -> (r: Option<GraphKey>)
        requires
            old(self).graph.wf(),
            old(self).graph.has(key),
            !stays(old(self).graph.node(key)),
        ensures
            rewrites(old(self).graph, final(self).graph),
            final(self).irreducible@ == old(self).irreducible@,
            frame(old(self).graph, final(self).graph, key),
            r is None <==> graph_full(old(self).graph),
            r is None ==> final(self).graph == old(self).graph,
            r matches Some(vk) ==> !old(self).graph.has(vk) && final(self).graph.has(vk)
                && final(self).graph.node(vk).kind == NodeKind::Literal(LiteralValue::Null)
                && final(self).graph.node(vk).knowledge == KnowledgeState::Known
                && final(self).graph.node(key) == replaced(
                old(self).graph,
                key,
                NodeKind::Literal(LiteralValue::Null),
                Type::Void,
                KnowledgeState::Known,
            ),
    {
        let vk = match self.add_literal(LiteralValue::Null, Type::Void) {
            Some(k) => k,
            None => {
                return None;
            },
        };
        self.replace(key, NodeKind::Literal(LiteralValue::Null), Type::Void, KnowledgeState::Known);
        Some(vk)
    }

    /// Folds a unary operator on a literal operand: integer negation and
    /// bitwise not, boolean not, integer casts (to widths under 128 bits).
    fn reduce_unaryop(&mut self, key: GraphKey, op: crate::types::UnaryOp, operand: GraphKey) -> (r: ReductionResult)
        requires
            old(self).graph.wf(),
            old(self).graph.has(key),
            !stays(old(self).graph.node(key)),
        ensures
            rewrites(old(self).graph, final(self).graph),
            final(self).irreducible@ == old(self).irreducible@,
            frame(old(self).graph, final(self).graph, key),
            r is Invalid ==> final(self).graph.has(key),
            (op is Not && old(self).graph.has(operand)
                && old(self).graph.node(operand).kind matches NodeKind::Literal(LiteralValue::Bool(b)))
                ==> r == ReductionResult::Reduced(operand) && final(self).graph.node(key).kind == NodeKind::Literal(
                LiteralValue::Bool(!old(self).graph.node(operand).kind->Literal_0->Bool_0),
            ),
    {
        let (lit, ty) = match self.graph.get_node_checked(operand) {
            Some(n) => match &n.kind {
                NodeKind::Literal(l) => (l.copy(), n.type_.copy()),
                _ => {
                    return ReductionResult::Irreducible;
                },
            },
            None => {
                return ReductionResult::Irreducible;
            },
        };
        match op {
            crate::types::UnaryOp::Neg => match neg_int(&lit, &ty) {
                Some(v) => {
                    self.replace(key, NodeKind::Literal(v), ty, KnowledgeState::Known);
                    ReductionResult::Reduced(operand)
                },
                None => ReductionResult::Irreducible,
            },
            crate::types::UnaryOp::Not => match lit {
                LiteralValue::Bool(b) => {
                    self.replace(key, NodeKind::Literal(LiteralValue::Bool(!b)), Type::Bool, KnowledgeState::Known);
                    ReductionResult::Reduced(operand)
                },
                _ => ReductionResult::Irreducible,
            },
            crate::types::UnaryOp::BitNot => match bitnot_int(&lit) {
                Some(v) => {
                    self.replace(key, NodeKind::Literal(v), ty, KnowledgeState::Known);
                    ReductionResult::Reduced(operand)
                },
                None => ReductionResult::Irreducible,
            },
            crate::types::UnaryOp::Cast(target) => {
                if !cast_width_ok(&lit, &target) {
                    return ReductionResult::Irreducible;
                }
                match cast_int(&lit, &target) {
                    Some(v) => {
                        self.replace(key, NodeKind::Literal(v), *target, KnowledgeState::Known);
                        ReductionResult::Reduced(operand)
                    },
                    None => ReductionResult::Irreducible,
                }
            },
        }
    }

    /// Folds a cast of a literal operand (to integer widths under 128
    /// bits).
    fn reduce_cast(&mut self, key: GraphKey, cast_type: Type, operand: GraphKey) -> (r: ReductionResult)
        requires
            old(self).graph.wf(),
            old(self).graph.has(key),
            !stays(old(self).graph.node(key)),
        ensures
            rewrites(old(self).graph, final(self).graph),
            final(self).irreducible@ == old(self).irreducible@,
            frame(old(self).graph, final(self).graph, key),
            r is Invalid ==> final(self).graph.has(key),
            match literal_at(old(self).graph, operand) {
                Some(lit) => match cast_fold(lit, cast_type) {
                    Some(v) => r == ReductionResult::Reduced(operand) && final(self).graph.node(key) == replaced(
                        old(self).graph,
                        key,
                        NodeKind::Literal(v),
                        cast_type,
                        KnowledgeState::Known,
                    ),
                    None => r is Irreducible && final(self).graph == old(self).graph,
                },
                None => r is Irreducible && final(self).graph == old(self).graph,
            },
    {
        let lit = match self.graph.get_node_checked(operand) {
            Some(n) => match &n.kind {
                NodeKind::Literal(l) => l.copy(),
                _ => {
                    return ReductionResult::Irreducible;
                },
            },
            None => {
                return ReductionResult::Irreducible;
            },
        };
        proof {
            lemma_same_lit_cast(self.graph.node(operand).kind->Literal_0, lit, cast_type);
        }
        if !cast_width_ok(&lit, &cast_type) {
            return ReductionResult::Irreducible;
        }
        match cast_int(&lit, &cast_type) {
            Some(cl) => {
                self.replace(key, NodeKind::Literal(cl), cast_type, KnowledgeState::Known);
                ReductionResult::Reduced(operand)
            },
            None => ReductionResult::Irreducible,
        }
    }

    /// Collapses an `if` on a known boolean into the branch it takes (a
    /// false condition without an else branch into `null`).
    fn reduce_if(&mut self, key: GraphKey, cond: GraphKey, then_b: GraphKey, els: Option<GraphKey>) -> (r: ReductionResult)
        requires
            old(self).graph.wf(),
            old(self).graph.has(key),
            !stays(old(self).graph.node(key)),
        ensures
            rewrites(old(self).graph, final(self).graph),
            final(self).irreducible@ == old(self).irreducible@,
            frame(old(self).graph, final(self).graph, key),
            r is Invalid ==> final(self).graph.has(key),
            (old(self).graph.has(cond) && old(self).graph.node(cond).kind == NodeKind::Literal(LiteralValue::Bool(true))
                && old(self).graph.has(then_b)) ==> r == ReductionResult::Reduced(then_b) && same_kind(
                old(self).graph.node(then_b).kind,
                final(self).graph.node(key).kind,
            ),
    {
        let b = match self.graph.get_node_checked(cond) {
            Some(n) => match &n.kind {
                NodeKind::Literal(LiteralValue::Bool(b)) => *b,
                _ => {
                    return ReductionResult::Irreducible;
                },
            },
            None => {
                return ReductionResult::Irreducible;
            },
        };
        let sel = if b {
            Some(then_b)
        } else {
            els
        };
        if let Some(s) = sel {
            if self.replace_with_copy(key, s, None) {
                return ReductionResult::Reduced(s);
            }
            return ReductionResult::Irreducible;
        }
        if !b {
            match self.collapse_to_null(key) {
                Some(vk) => {
                    return ReductionResult::Reduced(vk);
                },
                None => {},
            }
        }
        ReductionResult::Irreducible
    }

    /// Replaces a `match` by the first arm whose pattern matches the
    /// scrutinee; with none, the node is invalid.
    fn reduce_match(&mut self, key: GraphKey, scrut: GraphKey, arms: &Vec<(Pattern, GraphKey)>) -> (r: ReductionResult)
        requires
            old(self).graph.wf(),
            old(self).graph.has(key),
            !stays(old(self).graph.node(key)),
        ensures
            rewrites(old(self).graph, final(self).graph),
            final(self).irreducible@ == old(self).irreducible@,
            frame(old(self).graph, final(self).graph, key),
            r is Invalid ==> final(self).graph.has(key),
            ({
                let g = old(self).graph;
                if arms@.len() == 0 {
                    r is Invalid && final(self).graph == g
                } else if !g.has(scrut) {
                    r is Irreducible && final(self).graph == g
                } else if exists|i: int| first_arm(arms@, g.node(scrut).kind, i) {
                    let arm = arms@[choose|i: int| first_arm(arms@, g.node(scrut).kind, i)].1;
                    if g.has(arm) {
                        r == ReductionResult::Reduced(arm) && copied_from(g, final(self).graph, key, arm)
                    } else {
                        r is Irreducible && final(self).graph == g
                    }
                } else {
                    r is Invalid && final(self).graph == g
                }
            }),
    {
        let mut i: usize = 0;
        while i < arms.len()
            invariant
                self.irreducible@ == old(self).irreducible@,
                self.graph == old(self).graph,
                old(self).graph.wf(),
                old(self).graph.has(key),
                !stays(old(self).graph.node(key)),
                i <= arms@.len(),
                i > 0 ==> old(self).graph.has(scrut),
                forall|j: int| 0 <= j < i ==> !pattern_matches(#[trigger] arms@[j].0.kind, old(self).graph.node(scrut).kind),
            decreases arms@.len() - i,
        {
            let hit = match self.graph.get_node_checked(scrut) {
                Some(sn) => matches_pat(&arms[i].0, sn),
                None => {
                    return ReductionResult::Irreducible;
                },
            };
            if hit {
                let arm = arms[i].1;
                proof {
                    let k = self.graph.node(scrut).kind;
                    assert(first_arm(arms@, k, i as int));
                    let c = choose|c: int| first_arm(arms@, k, c);
                    if c < i {
                        assert(!pattern_matches(arms@[c].0.kind, k));
                    } else if c > i {
                        assert(!pattern_matches(arms@[i as int].0.kind, k));
                    }
                }
                if self.replace_with_copy(key, arm, None) {
                    return ReductionResult::Reduced(arm);
                }
                return ReductionResult::Irreducible;
            }
            i += 1;
        }
        ReductionResult::Invalid
    }

    /// Replaces a binding by its definition once that is known.
    fn reduce_binding(&mut self, key: GraphKey, def: GraphKey) -> (r: ReductionResult)
        requires
            old(self).graph.wf(),
            old(self).graph.has(key),
            !stays(old(self).graph.node(key)),
        ensures
            rewrites(old(self).graph, final(self).graph),
            final(self).irreducible@ == old(self).irreducible@,
            frame(old(self).graph, final(self).graph, key),
            r is Invalid ==> final(self).graph.has(key),
            (old(self).graph.has(def) && old(self).graph.node(def).knowledge == KnowledgeState::Known) ==> r
                == ReductionResult::Reduced(def) && same_kind(old(self).graph.node(def).kind, final(self).graph.node(key).kind)
                && final(self).graph.node(key).knowledge == KnowledgeState::Known,
    {
        let known = match self.graph.get_node_checked(def) {
            Some(dn) => dn.knowledge == KnowledgeState::Known,
            None => false,
        };
        if known {
            self.replace_with_copy(key, def, Some(KnowledgeState::Known));
            return ReductionResult::Reduced(def);
        }
        ReductionResult::Irreducible
    }

    /// Marks a node known without reducing it.
    fn mark_known(&mut self, key: GraphKey) -> (r: ReductionResult)
        requires
            old(self).graph.wf(),
            old(self).graph.has(key),
            !stays(old(self).graph.node(key)),
        ensures
            rewrites(old(self).graph, final(self).graph),
            final(self).irreducible@ == old(self).irreducible@,
            frame(old(self).graph, final(self).graph, key),
            r is Irreducible,
            final(self).graph.node(key).knowledge == KnowledgeState::Known,
    {
        let ghost g0 = self.graph;
        self.graph.set_knowledge(key, KnowledgeState::Known);
        proof {
            assert(g0.nodes().dom().subset_of(self.graph.nodes().dom()));
        }
        ReductionResult::Irreducible
    }

    /// A compile-time print: the node becomes `null`.
    fn reduce_comptime_print(&mut self, key: GraphKey) -> (r: ReductionResult)
        requires
            old(self).graph.wf(),
            old(self).graph.has(key),
            !stays(old(self).graph.node(key)),
        ensures
            rewrites(old(self).graph, final(self).graph),
            final(self).irreducible@ == old(self).irreducible@,
            frame(old(self).graph, final(self).graph, key),
            r is Invalid ==> final(self).graph.has(key),
            match r {
                ReductionResult::Reduced(vk) => !graph_full(old(self).graph) && !old(self).graph.has(vk)
                    && final(self).graph.has(vk) && final(self).graph.node(vk).kind == NodeKind::Literal(LiteralValue::Null)
                    && final(self).graph.node(key) == replaced(
                    old(self).graph,
                    key,
                    NodeKind::Literal(LiteralValue::Null),
                    Type::Void,
                    KnowledgeState::Known,
                ),
                ReductionResult::Irreducible => graph_full(old(self).graph) && final(self).graph == old(self).graph,
                ReductionResult::Invalid => false,
            },
    {
        match self.collapse_to_null(key) {
            Some(vk) => ReductionResult::Reduced(vk),
            None => ReductionResult::Irreducible,
        }
    }

    /// A field of a struct node: the node becomes a copy of the field's
    /// value (the first field of that name).
    fn reduce_field_access(&mut self, key: GraphKey, target: GraphKey, field: &Identifier) -> (r: ReductionResult)
        requires
            old(self).graph.wf(),
            old(self).graph.has(key),
            !stays(old(self).graph.node(key)),
        ensures
            rewrites(old(self).graph, final(self).graph),
            final(self).irreducible@ == old(self).irreducible@,
            frame(old(self).graph, final(self).graph, key),
            r is Invalid ==> final(self).graph.has(key),
            match struct_field(old(self).graph, target, field.name@) {
                Some(fk) => if old(self).graph.has(fk) {
                    r == ReductionResult::Reduced(fk) && copied_from(old(self).graph, final(self).graph, key, fk)
                } else {
                    r is Irreducible && final(self).graph == old(self).graph
                },
                None => r is Irreducible && final(self).graph == old(self).graph,
            },
    {
        let found: Option<GraphKey> = match self.graph.get_node_checked(target) {
            Some(tn) => match &tn.kind {
                NodeKind::Struct { fields, .. } => {
                    let mut f: Option<GraphKey> = None;
                    let mut i: usize = 0;
                    while i < fields.len()
                        invariant_except_break
                            i <= fields@.len(),
                            f is None,
                            forall|j: int| 0 <= j < i ==> (#[trigger] fields@[j]).0.name@ != field.name@,
                        ensures
                            match f {
                                Some(x) => first_field(fields@, field.name@, i as int) && x == fields@[i as int].1,
                                None => forall|j: int| 0 <= j < fields@.len() ==> (#[trigger] fields@[j]).0.name@ != field.name@,
                            },
                        decreases fields@.len() - i,
                    {
                        if crate::text::str_eq(fields[i].0.name.as_str(), field.name.as_str()) {
                            f = Some(fields[i].1);
                            break;
                        }
                        i += 1;
                    }
                    proof {
                        if let Some(x) = f {
                            let c = choose|c: int| first_field(fields@, field.name@, c);
                            if c < i {
                                assert(fields@[c].0.name@ != field.name@);
                            } else if c > i {
                                assert(fields@[i as int].0.name@ != field.name@);
                            }
                        } else {
                            if exists|c: int| first_field(fields@, field.name@, c) {
                                let c = choose|c: int| first_field(fields@, field.name@, c);
                                assert(fields@[c].0.name@ != field.name@);
                            }
                        }
                    }
                    f
                },
                _ => None,
            },
            None => None,
        };
        match found {
            Some(fk) => {
                if self.replace_with_copy(key, fk, None) {
                    ReductionResult::Reduced(fk)
                } else {
                    ReductionResult::Irreducible
                }
            },
            None => ReductionResult::Irreducible,
        }
    }

    /// An element of a list node at a known index: the node becomes a copy
    /// of the element.
    fn reduce_index(&mut self, key: GraphKey, target: GraphKey, index: GraphKey) -> (r: ReductionResult)
        requires
            old(self).graph.wf(),
            old(self).graph.has(key),
            !stays(old(self).graph.node(key)),
        ensures
            rewrites(old(self).graph, final(self).graph),
            final(self).irreducible@ == old(self).irreducible@,
            frame(old(self).graph, final(self).graph, key),
            r is Invalid ==> final(self).graph.has(key),
            match list_element(old(self).graph, target, index) {
                Some(ek) => if old(self).graph.has(ek) {
                    r == ReductionResult::Reduced(ek) && copied_from(old(self).graph, final(self).graph, key, ek)
                } else {
                    r is Irreducible && final(self).graph == old(self).graph
                },
                None => r is Irreducible && final(self).graph == old(self).graph,
            },
    {
        let idx: Option<usize> = match self.graph.get_node_checked(index) {
            Some(n) => match &n.kind {
                NodeKind::Literal(LiteralValue::Int { value, .. }) => value_to_usize(value),
                _ => None,
            },
            None => None,
        };
        let elem: Option<GraphKey> = match (self.graph.get_node_checked(target), idx) {
            (Some(tn), Some(i)) => match &tn.kind {
                NodeKind::List { elements } => if i < elements.len() {
                    Some(elements[i])
                } else {
                    None
                },
                _ => None,
            },
            _ => None,
        };
        match elem {
            Some(ek) => {
                if self.replace_with_copy(key, ek, None) {
                    ReductionResult::Reduced(ek)
                } else {
                    ReductionResult::Irreducible
                }
            },
            None => ReductionResult::Irreducible,
        }
    }

    /// An assertion on a known boolean: a true one becomes `null`, a false
    /// one makes the node invalid.
    fn reduce_assert(&mut self, key: GraphKey, cond: GraphKey) -> (r: ReductionResult)
        requires
            old(self).graph.wf(),
            old(self).graph.has(key),
            !stays(old(self).graph.node(key)),
        ensures
            rewrites(old(self).graph, final(self).graph),
            final(self).irreducible@ == old(self).irreducible@,
            frame(old(self).graph, final(self).graph, key),
            r is Invalid ==> final(self).graph.has(key),
            (old(self).graph.has(cond) && old(self).graph.node(cond).kind == NodeKind::Literal(LiteralValue::Bool(false)))
                ==> r is Invalid && final(self).graph.node(key).knowledge == KnowledgeState::Invalid,
    {
        let b = match self.graph.get_node_checked(cond) {
            Some(n) => match &n.kind {
                NodeKind::Literal(LiteralValue::Bool(b)) => *b,
                _ => {
                    return ReductionResult::Irreducible;
                },
            },
            None => {
                return ReductionResult::Irreducible;
            },
        };
        if b {
            match self.collapse_to_null(key) {
                Some(vk) => ReductionResult::Reduced(vk),
                None => ReductionResult::Irreducible,
            }
        } else {
            let ghost g0 = self.graph;
            self.graph.set_knowledge(key, KnowledgeState::Invalid);
            proof {
                assert(g0.nodes().dom().subset_of(self.graph.nodes().dom()));
            }
            ReductionResult::Invalid
        }
    }

    /// An f-string whose interpolated parts are all literals becomes the
    /// string literal of its text.
    fn reduce_fstring(&mut self, key: GraphKey, parts: &Vec<FStringPartNode>) -> (r: ReductionResult)
        requires
            old(self).graph.wf(),
            old(self).graph.has(key),
            !stays(old(self).graph.node(key)),
        ensures
            rewrites(old(self).graph, final(self).graph),
            final(self).irreducible@ == old(self).irreducible@,
            frame(old(self).graph, final(self).graph, key),
            r is Invalid ==> final(self).graph.has(key),
            match fstring_text(old(self).graph, parts@) {
                Some(t) => if graph_full(old(self).graph) {
                    r is Irreducible && final(self).graph == old(self).graph
                } else {
                    &&& r matches ReductionResult::Reduced(sk)
                    &&& !old(self).graph.has(r->Reduced_0) && final(self).graph.has(r->Reduced_0)
                    &&& final(self).graph.node(r->Reduced_0).kind matches NodeKind::Literal(LiteralValue::Str(x))
                    &&& final(self).graph.node(r->Reduced_0).kind->Literal_0->Str_0@ == t
                    &&& final(self).graph.node(key).kind matches NodeKind::Literal(LiteralValue::Str(y))
                    &&& final(self).graph.node(key).kind->Literal_0->Str_0@ == t
                    &&& final(self).graph.node(key).type_ == Type::Str
                    &&& final(self).graph.node(key).knowledge == KnowledgeState::Known
                },
                None => r is Irreducible && final(self).graph == old(self).graph,
            },
    {
        let mut result = String::new();
        let mut i: usize = 0;
        proof {
            assert(parts@.take(0) =~= Seq::<FStringPartNode>::empty());
        }
        while i < parts.len()
            invariant
                self.irreducible@ == old(self).irreducible@,
                self.graph == old(self).graph,
                old(self).graph.wf(),
                old(self).graph.has(key),
                i <= parts@.len(),
                fstring_text(old(self).graph, parts@.take(i as int)) == Some(result@),
            decreases parts@.len() - i,
        {
            proof {
                assert(parts@.take(i + 1).drop_last() =~= parts@.take(i as int));
                assert(parts@.take(i + 1).last() == parts@[i as int]);
            }
            match parts[i].expr {
                Some(ek) => match self.graph.get_node_checked(ek) {
                    Some(en) => match &en.kind {
                        NodeKind::Literal(LiteralValue::Str(s)) => crate::text::push_str(&mut result, s.as_str()),
                        NodeKind::Literal(lit) => {
                            let t = lit.to_display();
                            crate::text::push_str(&mut result, t.as_str());
                        },
                        _ => {
                            proof {
                                lemma_fstring_none(old(self).graph, parts@, i + 1);
                            }
                            return ReductionResult::Irreducible;
                        },
                    },
                    None => {
                        proof {
                            lemma_fstring_none(old(self).graph, parts@, i + 1);
                        }
                        return ReductionResult::Irreducible;
                    },
                },
                None => crate::text::push_str(&mut result, parts[i].text.as_str()),
            }
            i += 1;
        }
        proof {
            assert(parts@.take(i as int) =~= parts@);
        }
        let sk = match self.add_literal(LiteralValue::Str(result.clone()), Type::Str) {
            Some(k) => k,
            None => {
                return ReductionResult::Irreducible;
            },
        };
        self.replace(key, NodeKind::Literal(LiteralValue::Str(result)), Type::Str, KnowledgeState::Known);
        ReductionResult::Reduced(sk)
    }
}

impl ReductionContext {
    /// Inlines a call whose arguments are all known values: the callee's
    /// body is copied with its parameter cells sent to the arguments, the
    /// copy is reduced (dependencies first), and once the copy's result is
    /// known it replaces the call.
    fn reduce_call(&mut self, key: GraphKey, func: GraphKey, args: &Vec<GraphKey>, fuel: u64) -> (r: Result<ReductionResult, Vec<ReductionError>>)
        requires
            old(self).graph.wf(),
            old(self).graph.has(key),
            !stays(old(self).graph.node(key)),
            old(self).graph.node(key).kind is Call,
        ensures
            rewrites(old(self).graph, final(self).graph),
            final(self).irreducible@ == old(self).irreducible@,
            refs_fold(old(self).graph, final(self).graph),
            r is Ok,
            r matches Ok(ReductionResult::Invalid) ==> final(self).graph.has(key),
            !(r matches Ok(ReductionResult::Invalid)),
            !call_ready(old(self).graph, old(self).known_values@, func, args@) ==> r == Ok::<
                ReductionResult,
                Vec<ReductionError>,
            >(ReductionResult::Irreducible) && final(self).graph == old(self).graph,
            r matches Ok(ReductionResult::Reduced(root)) ==> final(self).graph.has(root) && final(self).graph.node(
                key,
            ).knowledge == KnowledgeState::Known && final(self).known_values@.contains(key.0) && (crate::graph::canon(root.0) != crate::graph::canon(
                key.0,
            ) ==> final(self).graph.node(root).knowledge == KnowledgeState::Known && same_kind(
                final(self).graph.node(root).kind,
                final(self).graph.node(key).kind,
            ) && same_type(final(self).graph.node(root).type_, final(self).graph.node(key).type_)),
        decreases fuel, 1nat,
    {
        let mut i: usize = 0;
        while i < args.len()
            invariant
                self.irreducible@ == old(self).irreducible@,
                self.graph == old(self).graph,
                self.known_values@ == old(self).known_values@,
                old(self).graph.wf(),
                old(self).graph.has(key),
                i <= args@.len(),
                forall|j: int| 0 <= j < i ==> old(self).known_values@.contains(#[trigger] args@[j].0),
            decreases args@.len() - i,
        {
            if !self.known_values.contains(&args[i].0) {
                return Ok(ReductionResult::Irreducible);
            }
            i += 1;
        }
        let body_key = match self.graph.get_node_checked(func) {
            Some(fnode) => match &fnode.kind {
                NodeKind::Function { body, .. } => *body,
                _ => {
                    return Ok(ReductionResult::Irreducible);
                },
            },
            None => {
                return Ok(ReductionResult::Irreducible);
            },
        };
        let cells = match self.graph.param_cells(func) {
            Some(c) => copy_keys(c),
            None => Vec::new(),
        };
        if cells.len() != args.len() {
            return Ok(ReductionResult::Irreducible);
        }
        let mut overrides: HashMap<u64, u64> = HashMap::new();
        let mut j: usize = 0;
        while j < cells.len()
            invariant
                self.irreducible@ == old(self).irreducible@,
                self.graph == old(self).graph,
                old(self).graph.wf(),
                old(self).graph.has(key),
                cells@.len() == args@.len(),
                j <= cells@.len(),
                forall|m: int| 0 <= m < j ==> old(self).graph.has(#[trigger] args@[m]),
                forall|k: u64| #[trigger] overrides@.contains_key(k) ==> self.graph.has(GraphKey(overrides@[k])),
            decreases cells@.len() - j,
        {
            if self.graph.get_node_checked(args[j]).is_none() {
                return Ok(ReductionResult::Irreducible);
            }
            overrides.insert(cells[j].0, args[j].0);
            j += 1;
        }
        let (root, copies) = match self.graph.clone_subgraph(body_key, &overrides) {
            Some(c) => c,
            None => {
                proof {
                    lemma_grows_refs_fold(old(self).graph, self.graph);
                }
                return Ok(ReductionResult::Irreducible);
            },
        };
        proof {
            lemma_grows_refs_fold(old(self).graph, self.graph);
        }
        let mut t: usize = 0;
        while t < copies.len()
            invariant
                self.irreducible@ == old(self).irreducible@,
                rewrites(old(self).graph, self.graph),
                refs_fold(old(self).graph, self.graph),
                old(self).graph.has(key),
                old(self).graph.node(key).kind is Call,
                t <= copies@.len(),
            decreases copies@.len() - t,
        {
            let ghost cur = self.graph;
            let _ = self.reduce_within(copies[t], fuel)?;
            proof {
                lemma_refs_fold_trans(old(self).graph, cur, self.graph);
            }
            t += 1;
        }
        assert(self.graph.has(key));
        let known = match self.graph.get_node_checked(root) {
            Some(n) => n.knowledge == KnowledgeState::Known,
            None => false,
        };
        // Reducing the copy may have reached the call itself; a call that
        // became residual on the way is left alone.
        if known && !self.left_alone(key) {
            let ghost mid = self.graph;
            self.replace_with_copy(key, root, Some(KnowledgeState::Known));
            proof {
                if crate::graph::canon(root.0) != crate::graph::canon(key.0) {
                    assert(self.graph.node(root) == mid.node(root));
                }
                let g0 = old(self).graph;
                assert forall|c: u64| #[trigger] ref_to_known_lit(g0, c) implies (self.graph.nodes().contains_key(c)
                    && self.graph.nodes()[c] == g0.nodes()[c]) || folded(g0, self.graph, c) by {
                    assert(ref_to_known_lit(g0, c));
                    assert(c != crate::graph::canon(key.0));
                    assert(self.graph.nodes()[c] == mid.nodes()[c]);
                }
            }
            self.known_values.insert(key.0);
            return Ok(ReductionResult::Reduced(root));
        }
        Ok(ReductionResult::Irreducible)
    }

    /// Whether reduction leaves the node `key` alone (see [`stays`]).
    fn left_alone(&self, key: GraphKey) -> (r: bool)
        requires
            self.graph.has(key),
        ensures
            r == stays(self.graph.node(key)),
    {
        let n = self.graph.get_node(key);
        matches!(n.kind, NodeKind::Function { .. }) || matches!(n.kind, NodeKind::Literal(_)) || ((n.knowledge
            == KnowledgeState::Residual || n.knowledge == KnowledgeState::Effect) && !matches!(
            n.kind,
            NodeKind::Reference { .. }
        ))
    }

    /// Replaces a reference by the value of its definition once that is a
    /// known literal.
    fn reduce_reference(&mut self, key: GraphKey, def: GraphKey) -> (r: ReductionResult)
        requires
            old(self).graph.wf(),
            old(self).graph.has(key),
            old(self).graph.node(key).kind is Reference,
        ensures
            rewrites(old(self).graph, final(self).graph),
            final(self).irreducible@ == old(self).irreducible@,
            frame(old(self).graph, final(self).graph, key),
            r is Invalid ==> final(self).graph.has(key),
            (old(self).graph.has(def) && old(self).graph.node(def).knowledge == KnowledgeState::Known
                && old(self).graph.node(def).kind is Literal) ==> r == ReductionResult::Reduced(def) && same_kind(
                old(self).graph.node(def).kind,
                final(self).graph.node(key).kind,
            ) && final(self).graph.node(key).knowledge == KnowledgeState::Known,
            !(old(self).graph.has(def) && old(self).graph.node(def).knowledge == KnowledgeState::Known
                && old(self).graph.node(def).kind is Literal) ==> r == ReductionResult::Irreducible
                && final(self).graph == old(self).graph,
    {
        let known = match self.graph.get_node_checked(def) {
            Some(dn) => dn.knowledge == KnowledgeState::Known && matches!(dn.kind, NodeKind::Literal(_)),
            None => false,
        };
        if known {
            self.replace_with_copy(key, def, Some(KnowledgeState::Known));
            return ReductionResult::Reduced(def);
        }
        ReductionResult::Irreducible
    }

    /// Reduces one node (with a nesting budget of `fuel`): a reference
    /// takes the value of its definition once that is a known literal;
    /// literals, residual and effectful nodes stay as they are (a known
    /// literal is remembered as a known value); operators on literals fold,
    /// calls with known arguments are inlined, control flow on known
    /// conditions collapses, bindings and projections of known values are
    /// replaced by them.
    fn reduce_within(&mut self, key: GraphKey, fuel: u64) -> (r: Result<ReductionResult, Vec<ReductionError>>)
        requires
            old(self).graph.wf(),
        ensures
            rewrites(old(self).graph, final(self).graph),
            final(self).irreducible@ == old(self).irreducible@,
            refs_fold(old(self).graph, final(self).graph),
            r is Ok,
            r matches Ok(ReductionResult::Invalid) ==> final(self).graph.has(key) && old(self).graph.has(key)
                && !stays(old(self).graph.node(key)),
            fuel == 0 ==> r == Ok::<ReductionResult, Vec<ReductionError>>(ReductionResult::Irreducible)
                && final(self).graph == old(self).graph,
            fuel > 0 ==> (r matches Ok(x) && within_step(old(self).graph, final(self).graph, key, x)),
        decreases fuel, 0nat,
    {
        if fuel == 0 {
            return Ok(ReductionResult::Irreducible);
        }
        let (kind, knowledge) = match self.graph.get_node_checked(key) {
            Some(n) => (copy_kind(&n.kind), n.knowledge),
            None => {
                return Ok(ReductionResult::Irreducible);
            },
        };
        let ghost g0 = self.graph;
        if let NodeKind::Reference { def, .. } = kind {
            let r = self.reduce_reference(key, def);
            proof {
                if !ref_to_known_lit(g0, crate::graph::canon(key.0)) {
                    lemma_frame_refs_fold(g0, self.graph, key);
                } else {
                    lemma_frame_refs_fold_at(g0, self.graph, key);
                }
            }
            return Ok(r);
        }
        proof {
            assert(!ref_to_known_lit(g0, crate::graph::canon(key.0)));
        }
        if matches!(kind, NodeKind::Literal(_)) {
            if knowledge == KnowledgeState::Known {
                self.known_values.insert(key.0);
            }
            proof {
                lemma_grows_refs_fold(g0, self.graph);
            }
            return Ok(ReductionResult::Irreducible);
        }
        if knowledge == KnowledgeState::Residual || knowledge == KnowledgeState::Effect {
            proof {
                lemma_grows_refs_fold(g0, self.graph);
            }
            return Ok(ReductionResult::Irreducible);
        }
        let res = match kind {
            NodeKind::BinaryOp { op, lhs, rhs } => Ok(self.reduce_binop(key, op, lhs, rhs)),
            NodeKind::UnaryOp { op, operand } => Ok(self.reduce_unaryop(key, op, operand)),
            NodeKind::Call { func, args } => self.reduce_call(key, func, &args, fuel - 1),
            NodeKind::If { cond, then_branch, else_branch } => Ok(self.reduce_if(key, cond, then_branch, else_branch)),
            NodeKind::Match { scrutinee, arms, .. } => {
                proof {
                    if self.graph.has(scrutinee) {
                        lemma_first_arm_same(
                            self.graph.node(key).kind->Match_arms@,
                            arms@,
                            self.graph.node(scrutinee).kind,
                        );
                    }
                }
                Ok(self.reduce_match(key, scrutinee, &arms))
            },
            NodeKind::Range { .. } => Ok(self.mark_known(key)),
            NodeKind::List { .. } => Ok(self.mark_known(key)),
            NodeKind::Struct { .. } => Ok(self.mark_known(key)),
            NodeKind::Binding { def, .. } => Ok(self.reduce_binding(key, def)),
            NodeKind::Discard { .. } => Ok(self.mark_known(key)),
            NodeKind::ComptimePrint(_) => Ok(self.reduce_comptime_print(key)),
            NodeKind::Cast { type_, operand } => Ok(self.reduce_cast(key, type_, operand)),
            NodeKind::FieldAccess { target, field } => Ok(self.reduce_field_access(key, target, &field)),
            NodeKind::Index { target, index } => Ok(self.reduce_index(key, target, index)),
            NodeKind::Known(inner) => {
                let r = self.reduce_within(inner, fuel - 1);
                proof {
                    assert(self.graph.has(key));
                }
                r
            },
            NodeKind::Assert { cond, .. } => Ok(self.reduce_assert(key, cond)),
            NodeKind::Destructure { source, .. } => {
                let r = self.reduce_within(source, fuel - 1);
                proof {
                    assert(self.graph.has(key));
                }
                r
            },
            NodeKind::With { body, .. } => {
                let r = self.reduce_within(body, fuel - 1);
                proof {
                    assert(self.graph.has(key));
                }
                r
            },
            NodeKind::FString { parts } => {
                proof {
                    lemma_fstring_same(self.graph, self.graph.node(key).kind->FString_parts@, parts@, parts@.len() as int);
                    assert(self.graph.node(key).kind->FString_parts@.take(parts@.len() as int) =~= self.graph.node(key).kind->FString_parts@);
                    assert(parts@.take(parts@.len() as int) =~= parts@);
                }
                Ok(self.reduce_fstring(key, &parts))
            },
            NodeKind::MapOf { .. } => Ok(self.mark_known(key)),
            NodeKind::SetOf { .. } => Ok(self.mark_known(key)),
            NodeKind::Using { value, .. } => {
                let r = self.reduce_within(value, fuel - 1);
                proof {
                    assert(self.graph.has(key));
                }
                r
            },
            NodeKind::RegionError(inner) => {
                let r = self.reduce_within(inner, fuel - 1);
                proof {
                    assert(self.graph.has(key));
                }
                r
            },
            _ => Ok(ReductionResult::Irreducible),
        };
        proof {
            if frame(g0, self.graph, key) {
                lemma_frame_refs_fold(g0, self.graph, key);
            }
        }
        res
    }

    /// One pass over `order`: every node not yet found irreducible is
    /// reduced; a reduction clears the irreducible marks, an invalid result
    /// marks the node invalid. Says whether anything was reduced.
    fn reduce_once(&mut self, order: &Vec<GraphKey>, fuel: u64) -> (r: Result<bool, Vec<ReductionError>>)
        requires
            old(self).graph.wf(),
        ensures
            rewrites(old(self).graph, final(self).graph),
            r is Ok,
            (fuel > 0 && exists|i: int|
                first_unmarked(old(self).irreducible@, order@, i) && step_reduces(old(self).graph, order@[i]))
                ==> r == Ok::<bool, Vec<ReductionError>>(true),
            refs_fold(old(self).graph, final(self).graph),
            fuel > 0 ==> folds_all(old(self).graph, final(self).graph, order@, order@.len() as int, old(self).irreducible@),
    {
        let mut any = false;
        let mut i: usize = 0;
        while i < order.len()
            invariant
                rewrites(old(self).graph, self.graph),
                refs_fold(old(self).graph, self.graph),
                i <= order@.len(),
                forall|u: u64|
                    #[trigger] self.irreducible@.contains(u) ==> old(self).irreducible@.contains(u) || exists|j: int|
                        0 <= j < i && order@[j].0 == u,
                fuel > 0 ==> folds_all(old(self).graph, self.graph, order@, i as int, old(self).irreducible@),
                (forall|j: int| 0 <= j < i ==> old(self).irreducible@.contains(#[trigger] order@[j].0)) ==> (self.graph
                    == old(self).graph && self.irreducible@ == old(self).irreducible@),
                (fuel > 0 && exists|j: int|
                    0 <= j < i && first_unmarked(old(self).irreducible@, order@, j) && step_reduces(
                        old(self).graph,
                        order@[j],
                    )) ==> any,
            decreases order@.len() - i,
        {
            let key = order[i];
            let ghost all_marked = forall|j: int| 0 <= j < i ==> old(self).irreducible@.contains(#[trigger] order@[j].0);
            proof {
                if fuel > 0 && exists|j: int|
                    0 <= j < i + 1 && first_unmarked(old(self).irreducible@, order@, j) && step_reduces(
                        old(self).graph,
                        order@[j],
                    ) {
                    let j = choose|j: int|
                        0 <= j < i + 1 && first_unmarked(old(self).irreducible@, order@, j) && step_reduces(
                            old(self).graph,
                            order@[j],
                        );
                    if j == i {
                        assert(all_marked);
                    }
                }
            }
            if self.irreducible.contains(&key.0) {
                proof {
                    if all_marked {
                        assert forall|j: int| 0 <= j < i + 1 implies old(self).irreducible@.contains(
                            #[trigger] order@[j].0,
                        ) by {
                            if j == i {
                                assert(self.irreducible@.contains(key.0));
                            }
                        }
                    }
                }
            }
            let ghost gs = self.graph;
            let ghost c = crate::graph::canon(key.0);
            if !self.irreducible.contains(&key.0) {
                let step = self.reduce_within(key, fuel)?;
                let ghost g1 = self.graph;
                proof {
                    lemma_refs_fold_trans(old(self).graph, gs, g1);
                    if fuel > 0 {
                        lemma_step_folds(old(self).graph, gs, g1, key, step);
                        lemma_folds_all_step(old(self).graph, gs, g1, order@, i as int, old(self).irreducible@);
                    }
                }
                match step {
                    ReductionResult::Reduced(_) => {
                        any = true;
                        self.irreducible.clear();
                    },
                    ReductionResult::Irreducible => {
                        let ghost m0 = self.irreducible@;
                        self.irreducible.insert(key.0);
                        proof {
                            assert forall|u: u64| #[trigger] self.irreducible@.contains(u) implies old(
                                self,
                            ).irreducible@.contains(u) || exists|j: int| 0 <= j < i + 1 && order@[j].0 == u by {
                                if u == key.0 {
                                    assert(order@[i as int].0 == u);
                                } else {
                                    assert(m0.contains(u));
                                    if !old(self).irreducible@.contains(u) {
                                        let j = choose|j: int| 0 <= j < i && order@[j].0 == u;
                                        assert(order@[j].0 == u);
                                    }
                                }
                            }
                        }
                    },
                    ReductionResult::Invalid => {
                        self.graph.set_knowledge(key, KnowledgeState::Invalid);
                        proof {
                            assert(g1.nodes().dom().subset_of(self.graph.nodes().dom()));
                            lemma_invalid_keeps(old(self).graph, gs, g1, self.graph, key, order@, i + 1, old(self).irreducible@, fuel);
                        }
                    },
                }
            } else {
                proof {
                    if fuel > 0 && !old(self).irreducible@.contains(key.0) {
                        let j = choose|j: int| 0 <= j < i && order@[j].0 == key.0;
                        assert(order@[j] == key);
                    }
                    if fuel > 0 {
                        assert forall|j: int|
                            0 <= j < i + 1 && !old(self).irreducible@.contains(order@[j].0) && #[trigger] ref_to_known_lit(
                                old(self).graph,
                                crate::graph::canon(order@[j].0),
                            ) implies folded(old(self).graph, self.graph, crate::graph::canon(order@[j].0)) by {
                            if j < i {
                                assert(folds_all(old(self).graph, self.graph, order@, i as int, old(self).irreducible@));
                            } else {
                                let j2 = choose|j2: int| 0 <= j2 < i && order@[j2].0 == key.0;
                                assert(order@[j2] == key);
                            }
                        }
                    }
                }
            }
            i += 1;
        }
        Ok(any)
    }

    /// Reduces one node, with room for one nested step per node of the
    /// graph.
    pub fn reduce_node(&mut self, key: GraphKey) -> (r: Result<ReductionResult, Vec<ReductionError>>)
        requires
            old(self).graph_of().wf(),
        ensures
            rewrites(old(self).graph_of(), final(self).graph_of()),
            r is Ok,
            r matches Ok(ReductionResult::Invalid) ==> final(self).graph_of().has(key),
            r matches Ok(x) && within_step(old(self).graph_of(), final(self).graph_of(), key, x),
    {
        let n = self.graph.num_nodes() as u64;
        let fuel: u64 = if n == u64::MAX {
            n
        } else {
            n + 1
        };
        self.reduce_within(key, fuel)
    }

    /// Reduces every node of the graph to a fixed point: passes over all
    /// keys until one reduces nothing (at most four passes per node).
    pub fn reduce_all_nodes(&mut self) -> (r: Result<(), Vec<ReductionError>>)
        requires
            old(self).graph_of().wf(),
        ensures
            rewrites(old(self).graph_of(), final(self).graph_of()),
            r is Ok,
            refs_fold(old(self).graph_of(), final(self).graph_of()),
            forall|c: u64|
                #![trigger old(self).graph_of().nodes().contains_key(c)]
                old(self).graph_of().nodes().contains_key(c) && !old(self).marked().contains(c) && ref_to_known_lit(
                    old(self).graph_of(),
                    crate::graph::canon(c),
                ) ==> folded(old(self).graph_of(), final(self).graph_of(), crate::graph::canon(c)),
    {
        let n = self.graph.num_nodes() as u64;
        let limit: u64 = if n > 0x3FFF_FFFF_FFFF_FFFE {
            u64::MAX
        } else {
            n * 4 + 4
        };
        let fuel: u64 = if n == u64::MAX {
            n
        } else {
            n + 1
        };
        let mut rounds: u64 = 0;
        let ghost mut done_one = false;
        while rounds < limit
            invariant
                rewrites(old(self).graph, self.graph),
                refs_fold(old(self).graph, self.graph),
                fuel > 0,
                rounds > 0 ==> done_one,
                !done_one ==> self.graph == old(self).graph && self.irreducible@ == old(self).irreducible@,
                done_one ==> forall|c: u64|
                    #![trigger old(self).graph.nodes().contains_key(c)]
                    old(self).graph.nodes().contains_key(c) && !old(self).irreducible@.contains(c) && ref_to_known_lit(
                        old(self).graph,
                        crate::graph::canon(c),
                    ) ==> folded(old(self).graph, self.graph, crate::graph::canon(c)),
                limit > 0,
            ensures
                done_one,
            decreases limit - rounds,
        {
            let ghost cur = self.graph;
            let order = self.graph.all_keys();
            let reduced = self.reduce_once(&order, fuel)?;
            proof {
                lemma_refs_fold_trans(old(self).graph, cur, self.graph);
                assert forall|c: u64|
                    #![trigger old(self).graph.nodes().contains_key(c)]
                    old(self).graph.nodes().contains_key(c) && !old(self).irreducible@.contains(c) && ref_to_known_lit(
                        old(self).graph,
                        crate::graph::canon(c),
                    ) implies folded(old(self).graph, self.graph, crate::graph::canon(c)) by {
                    if done_one {
                        lemma_folded_kept(old(self).graph, cur, self.graph, crate::graph::canon(c));
                    } else {
                        assert(order@.contains(GraphKey(c)));
                        let j = choose|j: int| 0 <= j < order@.len() && order@[j] == GraphKey(c);
                        assert(ref_to_known_lit(old(self).graph, crate::graph::canon(order@[j].0)));
                    }
                }
                done_one = true;
            }
            if !reduced {
                break;
            }
            rounds += 1;
        }
        Ok(())
    }

    /// Reduces the graph from `entry` to a fixed point: passes over the
    /// nodes reachable from it, dependencies first, until one reduces
    /// nothing (at most four passes per node).
    pub fn reduce_all(&mut self, entry: GraphKey) -> (r: Result<(), Vec<ReductionError>>)
        requires
            old(self).graph_of().wf(),
        ensures
            rewrites(old(self).graph_of(), final(self).graph_of()),
            r is Ok,
            refs_fold(old(self).graph_of(), final(self).graph_of()),
            !old(self).graph_of().cycle_from(entry) ==> forall|k: GraphKey|
                #![trigger old(self).graph_of().reaches(entry, k)]
                old(self).graph_of().reaches(entry, k) && !old(self).marked().contains(k.0) && ref_to_known_lit(
                    old(self).graph_of(),
                    crate::graph::canon(k.0),
                ) ==> folded(old(self).graph_of(), final(self).graph_of(), crate::graph::canon(k.0)),
    {
        let n = self.graph.num_nodes() as u64;
        let limit: u64 = if n > 0x3FFF_FFFF_FFFF_FFFE {
            u64::MAX
        } else {
            n * 4 + 4
        };
        let fuel: u64 = if n == u64::MAX {
            n
        } else {
            n + 1
        };
        let mut rounds: u64 = 0;
        let ghost mut done_one = false;
        while rounds < limit
            invariant
                rewrites(old(self).graph, self.graph),
                refs_fold(old(self).graph, self.graph),
                fuel > 0,
                rounds > 0 ==> done_one,
                !done_one ==> self.graph == old(self).graph && self.irreducible@ == old(self).irreducible@,
                done_one && !old(self).graph.cycle_from(entry) ==> forall|k: GraphKey|
                    #![trigger old(self).graph.reaches(entry, k)]
                    old(self).graph.reaches(entry, k) && !old(self).irreducible@.contains(k.0) && ref_to_known_lit(
                        old(self).graph,
                        crate::graph::canon(k.0),
                    ) ==> folded(old(self).graph, self.graph, crate::graph::canon(k.0)),
                limit > 0,
            ensures
                done_one,
            decreases limit - rounds,
        {
            let ghost cur = self.graph;
            let topo = self.graph.topological_order(entry);
            let order = reversed(&topo);
            let reduced = self.reduce_once(&order, fuel)?;
            proof {
                lemma_refs_fold_trans(old(self).graph, cur, self.graph);
                if !old(self).graph.cycle_from(entry) {
                    assert forall|k: GraphKey|
                        #![trigger old(self).graph.reaches(entry, k)]
                        old(self).graph.reaches(entry, k) && !old(self).irreducible@.contains(k.0) && ref_to_known_lit(
                            old(self).graph,
                            crate::graph::canon(k.0),
                        ) implies folded(old(self).graph, self.graph, crate::graph::canon(k.0)) by {
                        if done_one {
                            lemma_folded_kept(old(self).graph, cur, self.graph, crate::graph::canon(k.0));
                        } else {
                            assert(topo@.contains(k));
                            let j = choose|j: int| 0 <= j < topo@.len() && topo@[j] == k;
                            let m = topo@.len() - 1 - j;
                            assert(order@[m] == k);
                            assert(ref_to_known_lit(old(self).graph, crate::graph::canon(order@[m].0)));
                        }
                    }
                }
                done_one = true;
            }
            if !reduced {
                break;
            }
            rounds += 1;
        }
        Ok(())
    }
}

/// The keys in reverse order.
fn reversed(v: &Vec<GraphKey>) -> (r: Vec<GraphKey>)
    ensures
        r@ == v@.reverse(),
{
    let mut r: Vec<GraphKey> = Vec::new();
    let mut i: usize = v.len();
    while i > 0
        invariant
            i <= v@.len(),
            r@ == v@.subrange(i as int, v@.len() as int).reverse(),
        decreases i,
    {
        i -= 1;
        r.push(v[i]);
        assert(r@ =~= v@.subrange(i as int, v@.len() as int).reverse());
    }
    assert(v@.subrange(0, v@.len() as int) =~= v@);
    r
}

/// A cast of `lit` to `target` that `cast_int` can fold without the mask
/// overflowing: any cast that is no integer-to-integer cast, or one to a
/// width under 128 bits.
fn cast_width_ok(lit: &LiteralValue, target: &Type) -> (r: bool)
    ensures
        r == (cast_target(*lit, *target) matches Some((dw, _)) ==> dw.spec_bits() < 128),
{
    let w = match (lit, target) {
        (LiteralValue::Int { .. }, Type::Numeric(NumericType::Int(dw))) => Some(*dw),
        (LiteralValue::Int { .. }, Type::Numeric(NumericType::UInt(dw))) => Some(*dw),
        (LiteralValue::UInt(..), Type::Numeric(NumericType::Int(dw))) => Some(*dw),
        (LiteralValue::UInt(..), Type::Numeric(NumericType::UInt(dw))) => Some(*dw),
        _ => None,
    };
    match w {
        Some(dw) => dw.bits() < 128,
        None => true,
    }
}

proof fn lemma_same_lit_cast(a: LiteralValue, b: LiteralValue, t: Type)
    requires
        same_lit(a, b),
    ensures
        cast_target(a, t) == cast_target(b, t),
        cast_spec(a, t) == cast_spec(b, t),
        cast_fold(a, t) == cast_fold(b, t),
{
}

proof fn lemma_same_lit_int(a: LiteralValue, b: LiteralValue)
    requires
        same_lit(a, b),
    ensures
        lit_int(a) == lit_int(b),
{
}

} // verus!
