//! AST → knowledge graph conversion.
//!
//! Two passes: the first registers every function with a placeholder body
//! so that calls resolve to real function keys and get their return types;
//! the second fills in parameter cells and the real bodies. Identifiers
//! resolve through a lexical scope stack and then the function table, and
//! become `Reference` nodes that point at their definition cells. Block
//! layout is recorded in the graph's block table so that reduction and
//! retrofit can rebuild statements.

use vstd::prelude::*;

use std::collections::HashSet;

use crate::graph::{
    copy_keys, graph_full, grows, invalid_key, used, BlockInfo, FStringPartNode, GraphKey, KnowledgeGraph, KnowledgeState, Node, NodeKind,
    WithBindingNode,
};
use crate::text::{
    chars_of, first_index, parse_u16_spec, string_of_chars, trim, trim_end, trim_start, trim_chars,
    find_first, slice_to_vec, parse_u16, chars_eq, is_ws,
};
use crate::types::{
    numeric_from_name_spec, numeric_result_type, same_capability, AstBlock, AstExpr, AstFStringPart, AstFuncDef,
    AstPattern, AstPatternKind, AstRange, AstStmt, AstStmtKind, AstTranslationUnit, BehaviorRef,
    BinOp, Capability, Effect, FloatWidth, Identifier, IntWidth, LiteralValue, NumericType,
    Pattern, PatternKind, Provenance, Provider, ResultType, Span, Type, UnaryOp,
};

verus! {

broadcast use {crate::graph::lemma_grows_has, crate::graph::lemma_grows_node, crate::graph::lemma_grows_trans, crate::graph::lemma_grows_full};

// ─── Type names ────────────────────────────────────────────────────

pub proof fn lemma_trim_start_len(s: Seq<char>)
    ensures
        trim_start(s).len() <= s.len(),
    decreases s.len(),
{
    if s.len() > 0 && is_ws(s[0]) {
        lemma_trim_start_len(s.drop_first());
    }
}

pub proof fn lemma_trim_end_len(s: Seq<char>)
    ensures
        trim_end(s).len() <= s.len(),
    decreases s.len(),
{
    if s.len() > 0 && is_ws(s.last()) {
        lemma_trim_end_len(s.drop_last());
    }
}

pub proof fn lemma_trim_len(s: Seq<char>)
    ensures
        trim(s).len() <= s.len(),
{
    lemma_trim_start_len(s);
    lemma_trim_end_len(trim_start(s));
}

pub proof fn lemma_first_index_bound(s: Seq<char>, c: char)
    ensures
        first_index(s, c) matches Some(i) ==> 0 <= i < s.len() && s[i] == c,
    decreases s.len(),
{
    if s.len() > 0 {
        lemma_first_index_bound(s.drop_last(), c);
    }
}

/// The text between `name(` and a final `)` of the trimmed `s`.
pub open spec fn param_inner(s: Seq<char>, name: Seq<char>) -> Option<Seq<char>> {
    let t = trim(s);
    if t.len() >= name.len() + 2 && t.take(name.len() as int) == name && t[name.len() as int] == '('
        && t.last() == ')' {
        Some(t.subrange(name.len() as int + 1, t.len() - 1))
    } else {
        None
    }
}

/// The two trimmed halves of `s` around its first comma.
pub open spec fn comma_halves(s: Seq<char>) -> Option<(Seq<char>, Seq<char>)> {
    match first_index(s, ',') {
        Some(i) => Some((trim(s.take(i)), trim(s.skip(i + 1)))),
        None => None,
    }
}

/// The width inside `prefix` … `)` (the prefix ends in `(`), read as
/// `u16::from_str` reads it.
pub open spec fn wrapped_width(s: Seq<char>, prefix: Seq<char>) -> Option<u16> {
    if s.len() >= prefix.len() + 1 && s.take(prefix.len() as int) == prefix && s.last() == ')' {
        parse_u16_spec(s.subrange(prefix.len() as int, s.len() - 1))
    } else {
        None
    }
}

/// A numeric type name: a name `NumericType::from_name` knows, or
/// `Int(w)`, `UInt(w)`, `Float(w)` with a supported width, or `Dec(d)`
/// (at least one digit).
pub open spec fn numeric_from_text(s: Seq<char>) -> Option<NumericType> {
    if numeric_from_name_spec(s) is Some {
        numeric_from_name_spec(s)
    } else if wrapped_width(s, seq!['I', 'n', 't', '(']) is Some {
        match IntWidth::spec_from_bits(wrapped_width(s, seq!['I', 'n', 't', '(']).unwrap()) {
            Some(w) => Some(NumericType::Int(w)),
            None => None,
        }
    } else if wrapped_width(s, seq!['U', 'I', 'n', 't', '(']) is Some {
        match IntWidth::spec_from_bits(wrapped_width(s, seq!['U', 'I', 'n', 't', '(']).unwrap()) {
            Some(w) => Some(NumericType::UInt(w)),
            None => None,
        }
    } else if wrapped_width(s, seq!['F', 'l', 'o', 'a', 't', '(']) is Some {
        match FloatWidth::spec_from_bits(wrapped_width(s, seq!['F', 'l', 'o', 'a', 't', '(']).unwrap()) {
            Some(w) => Some(NumericType::Float(w)),
            None => None,
        }
    } else if wrapped_width(s, seq!['D', 'e', 'c', '(']) is Some {
        let d = wrapped_width(s, seq!['D', 'e', 'c', '(']).unwrap();
        Some(NumericType::Dec(if d >= 1 { d } else { 1 }))
    } else {
        None
    }
}

pub open spec fn list_name() -> Seq<char> { seq!['L', 'i', 's', 't'] }
pub open spec fn map_name() -> Seq<char> { seq!['M', 'a', 'p'] }
pub open spec fn set_name() -> Seq<char> { seq!['S', 'e', 't'] }
pub open spec fn option_name() -> Seq<char> { seq!['O', 'p', 't', 'i', 'o', 'n'] }
pub open spec fn result_name() -> Seq<char> { seq!['R', 'e', 's', 'u', 'l', 't'] }
pub open spec fn slice_name() -> Seq<char> { seq!['S', 'l', 'i', 'c', 'e'] }
pub open spec fn range_name() -> Seq<char> { seq!['R', 'a', 'n', 'g', 'e'] }

/// `t` is the type that the type name `s` denotes: a numeric type; one of
/// `List(..)`, `Map(k, v)`, `Set(..)`, `Option(..)`, `Result(a, b)`,
/// `Slice(..)`, `Range(..)` (open, both ends of the element type) around
/// further type names; `Bool`, `Str`, `Bytes`, `Null`, `Void` (also the
/// empty name); any other name is a user-defined type of that name.
pub open spec fn type_from_text(s: Seq<char>, t: Type) -> bool
    decreases s.len(),
{
    if numeric_from_text(s) is Some {
        t == Type::Numeric(numeric_from_text(s).unwrap())
    } else if param_inner(s, list_name()) is Some {
        let inner = param_inner(s, list_name()).unwrap();
        proof { lemma_trim_len(s); }
        t matches Type::List(a) && type_from_text(inner, *a)
    } else if param_inner(s, map_name()) is Some && comma_halves(param_inner(s, map_name()).unwrap()) is Some {
        let inner = param_inner(s, map_name()).unwrap();
        let (k, v) = comma_halves(inner).unwrap();
        proof {
            lemma_trim_len(s);
            lemma_first_index_bound(inner, ',');
            let i = first_index(inner, ',').unwrap();
            lemma_trim_len(inner.take(i));
            lemma_trim_len(inner.skip(i + 1));
        }
        t matches Type::MapOf(a, b) && type_from_text(k, *a) && type_from_text(v, *b)
    } else if param_inner(s, set_name()) is Some {
        let inner = param_inner(s, set_name()).unwrap();
        proof { lemma_trim_len(s); }
        t matches Type::SetOf(a) && type_from_text(inner, *a)
    } else if param_inner(s, option_name()) is Some {
        let inner = param_inner(s, option_name()).unwrap();
        proof { lemma_trim_len(s); }
        t matches Type::Option(a) && type_from_text(inner, *a)
    } else if param_inner(s, result_name()) is Some && comma_halves(param_inner(s, result_name()).unwrap()) is Some {
        let inner = param_inner(s, result_name()).unwrap();
        let (k, v) = comma_halves(inner).unwrap();
        proof {
            lemma_trim_len(s);
            lemma_first_index_bound(inner, ',');
            let i = first_index(inner, ',').unwrap();
            lemma_trim_len(inner.take(i));
            lemma_trim_len(inner.skip(i + 1));
        }
        t matches Type::Result(a, b) && type_from_text(k, *a) && type_from_text(v, *b)
    } else if param_inner(s, slice_name()) is Some {
        let inner = param_inner(s, slice_name()).unwrap();
        proof { lemma_trim_len(s); }
        t matches Type::Slice { element_type } && type_from_text(inner, *element_type)
    } else if param_inner(s, range_name()) is Some {
        let inner = param_inner(s, range_name()).unwrap();
        proof { lemma_trim_len(s); }
        t matches Type::Range { start_type, end_type, closed } && !closed && type_from_text(inner, *start_type)
            && type_from_text(inner, *end_type)
    } else if s == seq!['B', 'o', 'o', 'l'] {
        t == Type::Bool
    } else if s == seq!['S', 't', 'r'] {
        t == Type::Str
    } else if s == seq!['B', 'y', 't', 'e', 's'] {
        t == Type::Bytes
    } else if s == seq!['N', 'u', 'l', 'l'] {
        t == Type::Null
    } else if s == seq!['V', 'o', 'i', 'd'] || s.len() == 0 {
        t == Type::Void
    } else {
        t matches Type::UserDefined(n) && n@ == s
    }
}

/// `s` starts with `p`.
fn starts_with(s: &[char], p: &[char]) -> (r: bool)
    ensures
        r == (s@.len() >= p@.len() && s@.take(p@.len() as int) == p@),
{
    if s.len() < p.len() {
        return false;
    }
    let mut i: usize = 0;
    while i < p.len()
        invariant
            i <= p@.len() <= s@.len(),
            forall|j: int| 0 <= j < i ==> s@[j] == p@[j],
        decreases p@.len() - i,
    {
        if s[i] != p[i] {
            assert(s@.take(p@.len() as int)[i as int] != p@[i as int]);
            return false;
        }
        i += 1;
    }
    assert(s@.take(p@.len() as int) =~= p@);
    true
}

fn param_inner_chars(s: &[char], name: &[char]) -> (r: Option<Vec<char>>)
    ensures
        match param_inner(s@, name@) {
            Some(x) => r matches Some(v) && v@ == x,
            None => r is None,
        },
{
    let t = trim_chars(s);
    let n = name.len();
    if t.len() >= 2 && t.len() - 2 >= n && starts_with(t.as_slice(), name) && t[n] == '(' && t[t.len() - 1] == ')' {
        Some(slice_to_vec(t.as_slice(), n + 1, t.len() - 1))
    } else {
        None
    }
}

/// `name(` … `)` around the trimmed `s`: the text inside, if `s` has that
/// form.
pub fn strip_param_type(s: &str, name: &str) -> (r: Option<String>)
    ensures
        match param_inner(s@, name@) {
            Some(x) => r matches Some(v) && v@ == x,
            None => r is None,
        },
{
    let cs = chars_of(s);
    let ns = chars_of(name);
    match param_inner_chars(cs.as_slice(), ns.as_slice()) {
        Some(v) => Some(string_of_chars(v.as_slice())),
        None => None,
    }
}

fn wrapped_width_chars(s: &[char], prefix: &[char]) -> (r: Option<u16>)
    ensures
        r == wrapped_width(s@, prefix@),
{
    if s.len() > prefix.len() && starts_with(s, prefix) && s[s.len() - 1] == ')' {
        let inner = slice_to_vec(s, prefix.len(), s.len() - 1);
        parse_u16(inner.as_slice())
    } else {
        None
    }
}

fn numeric_from_chars(s: &[char]) -> (r: Option<NumericType>)
    ensures
        r == numeric_from_text(s@),
{
    let by_name = NumericType::from_name_chars(s);
    if by_name.is_some() {
        return by_name;
    }
    let p_int = vec!['I', 'n', 't', '('];
    let p_uint = vec!['U', 'I', 'n', 't', '('];
    let p_float = vec!['F', 'l', 'o', 'a', 't', '('];
    let p_dec = vec!['D', 'e', 'c', '('];
    assert(p_int@ == seq!['I', 'n', 't', '(']);
    assert(p_uint@ == seq!['U', 'I', 'n', 't', '(']);
    assert(p_float@ == seq!['F', 'l', 'o', 'a', 't', '(']);
    assert(p_dec@ == seq!['D', 'e', 'c', '(']);
    if let Some(w) = wrapped_width_chars(s, p_int.as_slice()) {
        return match IntWidth::from_bits(w) {
            Some(x) => Some(NumericType::Int(x)),
            None => None,
        };
    }
    if let Some(w) = wrapped_width_chars(s, p_uint.as_slice()) {
        return match IntWidth::from_bits(w) {
            Some(x) => Some(NumericType::UInt(x)),
            None => None,
        };
    }
    if let Some(w) = wrapped_width_chars(s, p_float.as_slice()) {
        return match FloatWidth::from_bits(w) {
            Some(x) => Some(NumericType::Float(x)),
            None => None,
        };
    }
    if let Some(w) = wrapped_width_chars(s, p_dec.as_slice()) {
        return Some(NumericType::Dec(if w >= 1 { w } else { 1 }));
    }
    None
}

/// The numeric type a type name denotes, if it is numeric.
pub fn numeric_type_from_str(s: &str) -> (r: Option<NumericType>)
    ensures
        r == numeric_from_text(s@),
{
    let cs = chars_of(s);
    numeric_from_chars(cs.as_slice())
}

fn comma_halves_chars(s: &[char]) -> (r: Option<(Vec<char>, Vec<char>)>)
    ensures
        match comma_halves(s@) {
            Some((a, b)) => r matches Some((x, y)) && x@ == a && y@ == b,
            None => r is None,
        },
{
    let n = s.len();
    match find_first(s, ',') {
        Some(i) => {
            assert(i < n);
            let a = slice_to_vec(s, 0, i);
            let b = slice_to_vec(s, i + 1, n);
            assert(a@ =~= s@.take(i as int));
            assert(b@ =~= s@.skip(i + 1));
            Some((trim_chars(a.as_slice()), trim_chars(b.as_slice())))
        },
        None => None,
    }
}

fn type_from_chars(s: &[char]) -> (r: Type)
    ensures
        type_from_text(s@, r),
    decreases s@.len(),
{
    proof {
        lemma_trim_len(s@);
    }
    if let Some(nt) = numeric_from_chars(s) {
        return Type::Numeric(nt);
    }
    let n_list = vec!['L', 'i', 's', 't'];
    let n_map = vec!['M', 'a', 'p'];
    let n_set = vec!['S', 'e', 't'];
    let n_option = vec!['O', 'p', 't', 'i', 'o', 'n'];
    let n_result = vec!['R', 'e', 's', 'u', 'l', 't'];
    let n_slice = vec!['S', 'l', 'i', 'c', 'e'];
    let n_range = vec!['R', 'a', 'n', 'g', 'e'];
    assert(n_list@ == list_name());
    assert(n_map@ == map_name());
    assert(n_set@ == set_name());
    assert(n_option@ == option_name());
    assert(n_result@ == result_name());
    assert(n_slice@ == slice_name());
    assert(n_range@ == range_name());
    if let Some(inner) = param_inner_chars(s, n_list.as_slice()) {
        return Type::List(Box::new(type_from_chars(inner.as_slice())));
    }
    if let Some(inner) = param_inner_chars(s, n_map.as_slice()) {
        if let Some((k, v)) = comma_halves_chars(inner.as_slice()) {
            proof {
                lemma_first_index_bound(inner@, ',');
                let i = first_index(inner@, ',').unwrap();
                lemma_trim_len(inner@.take(i));
                lemma_trim_len(inner@.skip(i + 1));
            }
            return Type::MapOf(Box::new(type_from_chars(k.as_slice())), Box::new(type_from_chars(v.as_slice())));
        }
    }
    if let Some(inner) = param_inner_chars(s, n_set.as_slice()) {
        return Type::SetOf(Box::new(type_from_chars(inner.as_slice())));
    }
    if let Some(inner) = param_inner_chars(s, n_option.as_slice()) {
        return Type::Option(Box::new(type_from_chars(inner.as_slice())));
    }
    if let Some(inner) = param_inner_chars(s, n_result.as_slice()) {
        if let Some((k, v)) = comma_halves_chars(inner.as_slice()) {
            proof {
                lemma_first_index_bound(inner@, ',');
                let i = first_index(inner@, ',').unwrap();
                lemma_trim_len(inner@.take(i));
                lemma_trim_len(inner@.skip(i + 1));
            }
            return Type::Result(Box::new(type_from_chars(k.as_slice())), Box::new(type_from_chars(v.as_slice())));
        }
    }
    if let Some(inner) = param_inner_chars(s, n_slice.as_slice()) {
        return Type::Slice { element_type: Box::new(type_from_chars(inner.as_slice())) };
    }
    if let Some(inner) = param_inner_chars(s, n_range.as_slice()) {
        let a = type_from_chars(inner.as_slice());
        let b = type_from_chars(inner.as_slice());
        return Type::Range { start_type: Box::new(a), end_type: Box::new(b), closed: false };
    }
    let w_bool = vec!['B', 'o', 'o', 'l'];
    let w_str = vec!['S', 't', 'r'];
    let w_bytes = vec!['B', 'y', 't', 'e', 's'];
    let w_null = vec!['N', 'u', 'l', 'l'];
    let w_void = vec!['V', 'o', 'i', 'd'];
    if chars_eq(s, w_bool.as_slice()) {
        Type::Bool
    } else if chars_eq(s, w_str.as_slice()) {
        Type::Str
    } else if chars_eq(s, w_bytes.as_slice()) {
        Type::Bytes
    } else if chars_eq(s, w_null.as_slice()) {
        Type::Null
    } else if chars_eq(s, w_void.as_slice()) || s.len() == 0 {
        Type::Void
    } else {
        Type::UserDefined(string_of_chars(s))
    }
}

/// The type a type name denotes (see [`type_from_text`]).
pub fn type_from_str(s: &str) -> (r: Type)
    ensures
        type_from_text(s@, r),
{
    let cs = chars_of(s);
    type_from_chars(cs.as_slice())
}


// ─── Patterns ──────────────────────────────────────────────────────

/// The graph pattern an AST pattern becomes: names become identifiers with
/// id 0, integer literals 64-bit signed literals.
pub open spec fn pattern_of(p: AstPattern, q: Pattern) -> bool
    decreases p,
{
    pattern_kind_of(p.kind, q.kind)
}

/// See [`pattern_of`].
pub open spec fn pattern_kind_of(k: AstPatternKind, q: PatternKind) -> bool
    decreases k,
{
    match k {
        AstPatternKind::Wildcard => q == PatternKind::Wildcard,
        AstPatternKind::Bind(n) => q matches PatternKind::Bind(i) && i.name@ == n@ && i.id == 0,
        AstPatternKind::Variant { name, param } => q matches PatternKind::Variant { name: n2, param: p2 }
            && n2.name@ == name@ && n2.id == 0 && match param {
            Some(x) => p2 matches Some(y) && y.name@ == x@ && y.id == 0,
            None => p2 is None,
        },
        AstPatternKind::Literal(v) => q == PatternKind::Literal(
            LiteralValue::Int { value: v, width: IntWidth::B64, signed: true },
        ),
        AstPatternKind::Struct { name, fields } => q matches PatternKind::Struct { name: n2, fields: f2 }
            && n2.name@ == name@ && n2.id == 0 && f2@.len() == fields@.len() && forall|i: int|
            #![trigger f2@[i]]
            0 <= i < fields@.len() ==> f2@[i].0.name@ == fields@[i].0@ && f2@[i].0.id == 0 && pattern_of(
                fields@[i].1,
                f2@[i].1,
            ),
    }
}

/// The graph pattern of an AST pattern.
pub fn convert_ast_pattern(pattern: &AstPattern) -> (r: Pattern)
    ensures
        pattern_of(*pattern, r),
    decreases pattern,
{
    Pattern { kind: convert_ast_pattern_kind(&pattern.kind) }
}

/// The graph pattern kind of an AST pattern kind.
pub fn convert_ast_pattern_kind(kind: &AstPatternKind) -> (r: PatternKind)
    ensures
        pattern_kind_of(*kind, r),
    decreases kind,
{
    match kind {
        AstPatternKind::Wildcard => PatternKind::Wildcard,
        AstPatternKind::Bind(n) => PatternKind::Bind(Identifier::new(n.as_str(), 0)),
        AstPatternKind::Variant { name, param } => PatternKind::Variant {
            name: Identifier::new(name.as_str(), 0),
            param: match param {
                Some(p) => Some(Identifier::new(p.as_str(), 0)),
                None => None,
            },
        },
        AstPatternKind::Literal(v) => PatternKind::Literal(
            LiteralValue::Int { value: *v, width: IntWidth::B64, signed: true },
        ),
        AstPatternKind::Struct { name, fields } => {
            let mut r: Vec<(Identifier, Pattern)> = Vec::new();
            let mut i: usize = 0;
            while i < fields.len()
                invariant
                    *kind == (AstPatternKind::Struct { name: *name, fields: *fields }),
                    i <= fields@.len(),
                    r@.len() == i,
                    forall|j: int|
                        #![trigger r@[j]]
                        0 <= j < i ==> r@[j].0.name@ == fields@[j].0@ && r@[j].0.id == 0 && pattern_of(
                            fields@[j].1,
                            r@[j].1,
                        ),
                decreases fields@.len() - i,
            {
                proof {
                    vstd::std_specs::vec::axiom_vec_index_decreases(*fields, i as int);
                    assert(decreases_to!(*kind => kind->fields));
                    assert(decreases_to!(*kind => fields@[i as int].1));
                }
                let p = convert_ast_pattern(&fields[i].1);
                r.push((Identifier::new(fields[i].0.as_str(), 0), p));
                i += 1;
            }
            PatternKind::Struct { name: Identifier::new(name.as_str(), 0), fields: r }
        },
    }
}

/// The type of `op` applied to an operand of type `t`: negation and
/// bitwise not keep it, `!` gives `Bool`, a cast gives its target.
pub open spec fn unary_result(op: UnaryOp, t: Type, r: Type) -> bool {
    match op {
        UnaryOp::Neg => crate::types::same_type(t, r),
        UnaryOp::Not => r == Type::Bool,
        UnaryOp::BitNot => crate::types::same_type(t, r),
        UnaryOp::Cast(ty) => crate::types::same_type(*ty, r),
    }
}

/// The result type of a unary operator on an operand of type `t`.
pub fn unary_type(op: &UnaryOp, t: &Type) -> (r: Type)
    ensures
        unary_result(*op, *t, r),
{
    match op {
        UnaryOp::Neg => t.copy(),
        UnaryOp::Not => Type::Bool,
        UnaryOp::BitNot => t.copy(),
        UnaryOp::Cast(ty) => (**ty).copy(),
    }
}


// ─── The converter ─────────────────────────────────────────────────

/// Errors during AST → graph conversion.
#[derive(Debug, PartialEq, Eq)]
pub enum ConversionError {
    /// A name that no enclosing scope binds and no function carries.
    UndefinedIdentifier(String, Span),
    /// The graph holds as many nodes (or has handed out as many ids) as it
    /// can.
    GraphFull,
}

impl ConversionError {
    /// The display form of the error.
    pub fn message(&self) -> (s: String)
        ensures
            s@ == error_text(*self),
    {
        match self {
            ConversionError::UndefinedIdentifier(n, _) => {
                let mut s = string_of_chars(&vec!['u', 'n', 'd', 'e', 'f', 'i', 'n', 'e', 'd', ' ', '\'']);
                crate::text::push_str(&mut s, n.as_str());
                crate::text::push_char(&mut s, '\'');
                s
            },
            ConversionError::GraphFull => string_of_chars(&vec!['g', 'r', 'a', 'p', 'h', ' ', 'f', 'u', 'l', 'l']),
        }
    }
}

/// The message of a full graph: `graph full`.
pub open spec fn graph_full_message() -> Seq<char> {
    seq!['g', 'r', 'a', 'p', 'h', ' ', 'f', 'u', 'l', 'l']
}

/// The message of a conversion error: `undefined 'name'`, or
/// `graph full`.
pub open spec fn error_text(e: ConversionError) -> Seq<char> {
    match e {
        ConversionError::UndefinedIdentifier(n, _) => seq!['u', 'n', 'd', 'e', 'f', 'i', 'n', 'e', 'd', ' ', '\'']
            + n@ + seq!['\''],
        ConversionError::GraphFull => graph_full_message(),
    }
}

/// What the node an expression converts to holds: a node of the matching
/// kind carrying the expression's operator, names, literal value and
/// number of operands. Literals are known (integers as signed 64-bit
/// values); `rt`, `@residual`, `rt_known` and `rt_assert` nodes are
/// residual; references are residual; provider calls and spawns are
/// effects; `todo` and `unimplemented` are invalid.
/// Node `n` is the node statement `s` converted to: a binding of the
/// statement's name to the value's node, a discard, destructuring or
/// `return` of the node of its expression (`return` alone returns a `null`
/// node), `break`, `continue`, or the node of an expression statement.
pub open spec fn stmt_node(g: KnowledgeGraph, s: AstStmt, n: Node) -> bool {
    match s.kind {
        AstStmtKind::Bind { name, value, .. } => n.kind matches NodeKind::Binding { name: i, def: d } && i.name@ == name@
            && child_node(g, *value, d) && n.knowledge == KnowledgeState::Known,
        AstStmtKind::Discard(inner) => n.kind matches NodeKind::Discard { source: x } && child_node(g, *inner, x),
        AstStmtKind::Destructure { source, .. } => n.kind matches NodeKind::Destructure { source: x, .. } && child_node(
            g,
            *source,
            x,
        ),
        AstStmtKind::Expr(e) => expr_node(*e, n),
        AstStmtKind::Return(v) => n.kind matches NodeKind::EarlyReturn { value: x } && match v {
            Some(e) => child_node(g, *e, x),
            None => g.has(x) && g.node(x).kind == NodeKind::Literal(LiteralValue::Null),
        },
        AstStmtKind::Break => n.kind is Break,
        AstStmtKind::Continue => n.kind is Continue,
    }
}

/// The child `c` of a node holds the conversion of sub-expression `sub`.
pub open spec fn child_node(g: KnowledgeGraph, sub: AstExpr, c: GraphKey) -> bool {
    g.has(c) && expr_node(sub, g.node(c))
}

/// Key `k` is what block `b` converted to: a node of `g`, which is the
/// node of the block's tail expression when it has one.
pub open spec fn block_child(g: KnowledgeGraph, b: AstBlock, k: GraphKey) -> bool {
    g.has(k) && (b.ret matches Some(e) ==> expr_node(*e, g.node(k)))
}

/// The operands of node `n` are the nodes the sub-expressions of `e`
/// converted to, in place (for operators, projections, assertions and the
/// one-operand wrappers); for an `if` or a `while`, the condition's node
/// and the blocks' roots.
pub open spec fn expr_children(g: KnowledgeGraph, e: AstExpr, n: Node) -> bool {
    match e {
        AstExpr::If { cond, then_block, else_block, .. } => n.kind matches NodeKind::If {
            cond: c,
            then_branch: t,
            else_branch: eb,
        } && child_node(g, *cond, c) && block_child(g, *then_block, t) && match else_block {
            Some(b) => eb matches Some(x) && block_child(g, *b, x),
            None => eb is None,
        },
        AstExpr::While { cond, body, .. } => n.kind matches NodeKind::While { cond: c, body: b } && child_node(g, *cond, c)
            && block_child(g, *body, b),
        AstExpr::BinaryOp { lhs, rhs, .. } => n.kind matches NodeKind::BinaryOp { lhs: l, rhs: r, .. } && child_node(g, *lhs, l)
            && child_node(g, *rhs, r),
        AstExpr::Index { target, index, .. } => n.kind matches NodeKind::Index { target: t, index: i } && child_node(
            g,
            *target,
            t,
        ) && child_node(g, *index, i),
        AstExpr::Assert { cond, message, .. } => n.kind matches NodeKind::Assert { cond: c, message: m } && child_node(
            g,
            *cond,
            c,
        ) && child_node(g, *message, m),
        AstExpr::UnaryOp { operand, .. } => n.kind matches NodeKind::UnaryOp { operand: o, .. } && child_node(g, *operand, o),
        AstExpr::FieldAccess { target, .. } => n.kind matches NodeKind::FieldAccess { target: t, .. } && child_node(
            g,
            *target,
            t,
        ),
        AstExpr::Known(inner, _) => n.kind matches NodeKind::Known(i) && child_node(g, *inner, i),
        AstExpr::ComptimePrint(inner, _) => n.kind matches NodeKind::ComptimePrint(i) && child_node(g, *inner, i),
        AstExpr::Discard(inner, _) => n.kind matches NodeKind::Discard { source: i } && child_node(g, *inner, i),
        AstExpr::EarlyReturn(inner, _) => n.kind matches NodeKind::EarlyReturn { value: i } && child_node(g, *inner, i),
        _ => true,
    }
}

pub open spec fn expr_node(e: AstExpr, n: Node) -> bool {
    match e {
        AstExpr::Id(name) => (n.kind matches NodeKind::Reference { name: i, .. } && i.name@ == name@)
            && n.knowledge == KnowledgeState::Residual,
        AstExpr::Literal { value, .. } => n.kind == NodeKind::Literal(
            LiteralValue::Int { value, width: IntWidth::B64, signed: true },
        ) && n.knowledge == KnowledgeState::Known && n.type_ == Type::Numeric(NumericType::Int(IntWidth::B64)),
        AstExpr::FloatLit { value, .. } => n.kind == NodeKind::Literal(
            LiteralValue::Float { value, width: FloatWidth::F64 },
        ) && n.knowledge == KnowledgeState::Known,
        AstExpr::StrLit { value, .. } => n.kind == NodeKind::Literal(LiteralValue::Str(value)) && n.knowledge
            == KnowledgeState::Known,
        AstExpr::BoolLit(b, _) => n.kind == NodeKind::Literal(LiteralValue::Bool(b)) && n.knowledge
            == KnowledgeState::Known,
        AstExpr::NullLit(_) => n.kind == NodeKind::Literal(LiteralValue::Null) && n.knowledge
            == KnowledgeState::Known,
        AstExpr::CharLit(c, _) => n.kind == NodeKind::Literal(LiteralValue::Char(c)) && n.knowledge
            == KnowledgeState::Known,
        AstExpr::Location(_) => n.kind == NodeKind::Location,
        AstExpr::RawString(v, _) => n.kind == NodeKind::RawString(v),
        AstExpr::ByteString(v, _) => n.kind matches NodeKind::ByteString(w) && w@ == v@,
        AstExpr::Todo(_) => n.kind == NodeKind::Todo && n.knowledge == KnowledgeState::Invalid,
        AstExpr::Unimplemented(_) => n.kind == NodeKind::Unimplemented && n.knowledge == KnowledgeState::Invalid,
        AstExpr::Span(_) => n.kind == NodeKind::Literal(LiteralValue::Null),
        AstExpr::UnaryOp { .. } => n.kind is UnaryOp,
        AstExpr::Rt(..) => n.kind is Rt && n.knowledge == KnowledgeState::Residual,
        AstExpr::AtResidual { .. } => n.kind is AtResidual && n.knowledge == KnowledgeState::Residual,
        AstExpr::EarlyReturn(..) => n.kind is EarlyReturn,
        AstExpr::Known(..) => n.kind is Known && n.knowledge == KnowledgeState::Known,
        AstExpr::RtKnown(..) => n.kind is RtKnown && n.knowledge == KnowledgeState::Residual,
        AstExpr::ComptimePrint(..) => n.kind is ComptimePrint,
        AstExpr::Discard(..) => n.kind is Discard,
        AstExpr::Using { behavior, .. } => n.kind matches NodeKind::Using { behavior: b, .. } && b.name.name@
            == behavior@,
        AstExpr::FieldAccess { field, .. } => n.kind matches NodeKind::FieldAccess { field: f, .. } && f.name@
            == field@,
        AstExpr::BinaryOp { op, .. } => n.kind matches NodeKind::BinaryOp { op: o, .. } && o == op,
        AstExpr::While { .. } => n.kind is While,
        AstExpr::WhileLet { .. } => n.kind is While,
        AstExpr::Index { .. } => n.kind is Index,
        AstExpr::Slice { .. } => n.kind is Slice,
        AstExpr::Assert { .. } => n.kind is Assert,
        AstExpr::RtAssert { .. } => n.kind is RtAssert && n.knowledge == KnowledgeState::Residual,
        AstExpr::ElseFallback { .. } => n.kind is ElseFallback,
        AstExpr::Range { closed, .. } => n.kind matches NodeKind::Range { closed: c, .. } && c == closed,
        AstExpr::ForIn { name, .. } => n.kind matches NodeKind::ForIn { name: i, .. } && i.name@ == name@,
        AstExpr::Destructure { .. } => n.kind is Destructure,
        AstExpr::IfLet { else_block, .. } => n.kind matches NodeKind::If { else_branch, .. } && (else_branch is Some
            <==> else_block is Some),
        AstExpr::ListLit(elts, _) => n.kind matches NodeKind::List { elements } && elements@.len() == elts@.len(),
        AstExpr::SetLit(elts, _) => n.kind matches NodeKind::SetOf { elements } && elements@.len() == elts@.len(),
        AstExpr::MethodCall { method, args, .. } => n.kind matches NodeKind::MethodCall { method: m, args: a, .. }
            && m.name@ == method@ && a@.len() == args@.len(),
        AstExpr::ProviderCall { verb, args, .. } => (n.kind matches NodeKind::ProviderCall { verb: v, args: a, .. }
            && v.name@ == verb@ && a@.len() == args@.len()) && n.knowledge == KnowledgeState::Effect,
        AstExpr::Spawn { .. } => n.kind is Spawn && n.knowledge == KnowledgeState::Effect,
        AstExpr::Call { args, .. } => n.kind matches NodeKind::Call { args: a, .. } && a@.len() == args@.len(),
        AstExpr::If { else_block, .. } => n.kind matches NodeKind::If { else_branch, .. } && (else_branch is Some
            <==> else_block is Some),
        AstExpr::Match { arms, .. } => n.kind matches NodeKind::Match { arms: a, default_arm, .. } && a@.len()
            == arms@.len() && default_arm is None,
        AstExpr::For { .. } => n.kind is For,
        AstExpr::StructLit { name, fields, .. } => n.kind matches NodeKind::Struct { name: i, fields: f } && i.name@
            == name@ && f@.len() == fields@.len(),
        AstExpr::MapLit(entries, _) => n.kind matches NodeKind::MapOf { entries: es } && es@.len() == entries@.len(),
        AstExpr::FString(..) => n.kind is FString,
        AstExpr::With { .. } => n.kind is With,
    }
}

/// Every registered function names a function node of that name.
pub open spec fn functions_named(g: KnowledgeGraph) -> bool {
    forall|n: Seq<char>|
        #[trigger] g.functions().contains_key(n) ==> g.has(g.functions()[n]) && g.node(g.functions()[n]).kind is Function
            && g.node(g.functions()[n]).kind->Function_name.name@ == n
}

/// No node of `g` depends on a key that names no node.
pub open spec fn closed_graph(g: KnowledgeGraph) -> bool {
    forall|k: u64, d: GraphKey|
        g.nodes().contains_key(k) && #[trigger] g.nodes()[k].deps@.contains(d) ==> g.has(d)
}

/// The binding of `name` in one scope (the latest one wins).
pub open spec fn scope_find(s: Seq<(String, GraphKey)>, name: Seq<char>) -> Option<GraphKey>
    decreases s.len(),
{
    if s.len() == 0 {
        None
    } else if s.last().0@ == name {
        Some(s.last().1)
    } else {
        scope_find(s.drop_last(), name)
    }
}

/// The binding of `name` in the innermost scope that binds it.
pub open spec fn stack_find(st: Seq<Vec<(String, GraphKey)>>, name: Seq<char>) -> Option<GraphKey>
    decreases st.len(),
{
    if st.len() == 0 {
        None
    } else {
        match scope_find(st.last()@, name) {
            Some(k) => Some(k),
            None => stack_find(st.drop_last(), name),
        }
    }
}

proof fn lemma_scope_find_in(s: Seq<(String, GraphKey)>, name: Seq<char>)
    ensures
        scope_find(s, name) matches Some(k) ==> exists|j: int| 0 <= j < s.len() && #[trigger] s[j].1 == k,
    decreases s.len(),
{
    if s.len() > 0 && s.last().0@ != name {
        lemma_scope_find_in(s.drop_last(), name);
        if let Some(k) = scope_find(s, name) {
            let j = choose|j: int| 0 <= j < s.drop_last().len() && #[trigger] s.drop_last()[j].1 == k;
            assert(s[j].1 == k);
        }
    } else if s.len() > 0 {
        assert(s[s.len() - 1].1 == s.last().1);
    }
}

proof fn lemma_stack_find_in(st: Seq<Vec<(String, GraphKey)>>, name: Seq<char>)
    ensures
        stack_find(st, name) matches Some(k) ==> exists|i: int, j: int|
            0 <= i < st.len() && 0 <= j < st[i]@.len() && #[trigger] st[i]@[j].1 == k,
    decreases st.len(),
{
    if st.len() > 0 {
        lemma_scope_find_in(st.last()@, name);
        lemma_stack_find_in(st.drop_last(), name);
        if let Some(k) = stack_find(st, name) {
            if let Some(k2) = scope_find(st.last()@, name) {
                let j = choose|j: int| 0 <= j < st.last()@.len() && #[trigger] st.last()@[j].1 == k2;
                assert(st[st.len() - 1]@[j].1 == k);
            } else {
                let (i, j) = choose|i: int, j: int|
                    0 <= i < st.drop_last().len() && 0 <= j < st.drop_last()[i]@.len() && #[trigger] st.drop_last()[i]@[j].1 == k;
                assert(st[i] == st.drop_last()[i]);
                assert(st[i]@[j].1 == k);
            }
        }
    }
}

/// The type recorded for `k` in `g` (`Void` when `k` names no node).
pub open spec fn type_at(g: KnowledgeGraph, k: GraphKey) -> Type {
    if g.has(k) {
        g.node(k).type_
    } else {
        Type::Void
    }
}

/// A type with one `Residual` wrapper taken off.
pub open spec fn strip_residual(t: Type) -> Type {
    match t {
        Type::Residual(inner) => *inner,
        _ => t,
    }
}

/// The type and knowledge state of a binary operation on operands of
/// types `l` and `r` (residual wrappers ignored): numeric operands follow
/// the numeric typing rules (a typing error makes the node invalid), two
/// `Bool`s give `Bool`, anything else `Void`.
pub open spec fn binop_typing(l: Type, op: BinOp, r: Type) -> (Type, KnowledgeState) {
    match (strip_residual(l), strip_residual(r)) {
        (Type::Numeric(a), Type::Numeric(b)) => match crate::types::spec_numeric_result_type(a, op, b) {
            ResultType::Numeric(t) => (Type::Numeric(t), KnowledgeState::Known),
            ResultType::Bool => (Type::Bool, KnowledgeState::Known),
            ResultType::Error(_) => (Type::Void, KnowledgeState::Invalid),
        },
        (Type::Bool, Type::Bool) => (Type::Bool, KnowledgeState::Known),
        _ => (Type::Void, KnowledgeState::Known),
    }
}

// ─── Names an expression looks up ──────────────────────────────────

/// The names converting `e` looks up: every identifier used as a value,
/// at any depth, and the variant parameters of the patterns it
/// destructures. A callee that is a bare identifier is not among them:
/// an unknown callee is taken for an external function.
pub open spec fn expr_names(e: AstExpr) -> Set<Seq<char>>
    decreases e,
{
    match e {
        AstExpr::Id(n) => set![n@],
        AstExpr::BinaryOp { lhs, rhs, .. } => expr_names(*lhs) + expr_names(*rhs),
        AstExpr::UnaryOp { operand, .. } => expr_names(*operand),
        AstExpr::Call { func, args, .. } => (match *func {
            AstExpr::Id(_) => Set::empty(),
            f => expr_names(f),
        }) + arg_names(args@),
        AstExpr::Rt(inner, _) => expr_names(*inner),
        AstExpr::AtResidual { inner, .. } => expr_names(*inner),
        AstExpr::If { cond, then_block, else_block, .. } => expr_names(*cond) + block_names(*then_block) + match else_block {
            Some(b) => block_names(*b),
            None => Set::empty(),
        },
        AstExpr::While { cond, body, .. } => expr_names(*cond) + block_names(*body),
        AstExpr::ForIn { collection, body, .. } => expr_names(*collection) + block_names(*body),
        AstExpr::Match { scrutinee, arms, .. } => expr_names(*scrutinee) + arm_names(arms@),
        AstExpr::For { init, cond, step, body, .. } => (match init {
            Some(x) => stmt_names(*x),
            None => Set::empty(),
        }) + expr_names(*cond) + (match step {
            Some(x) => stmt_names(*x),
            None => Set::empty(),
        }) + block_names(*body),
        AstExpr::Spawn { body, .. } => block_names(body),
        AstExpr::Assert { cond, message, .. } => expr_names(*cond) + expr_names(*message),
        AstExpr::RtAssert { cond, message, .. } => expr_names(*cond) + expr_names(*message),
        AstExpr::Known(inner, _) => expr_names(*inner),
        AstExpr::RtKnown(inner, _) => expr_names(*inner),
        AstExpr::ComptimePrint(inner, _) => expr_names(*inner),
        AstExpr::StructLit { fields, .. } => field_names(fields@),
        AstExpr::ListLit(elts, _) => exprs_names(elts@),
        AstExpr::MapLit(entries, _) => entry_names(entries@),
        AstExpr::SetLit(elts, _) => exprs_names(elts@),
        AstExpr::Range { start, end, .. } => expr_names(*start) + expr_names(*end),
        AstExpr::FString(parts, _) => part_names(parts@),
        AstExpr::FieldAccess { target, .. } => expr_names(*target),
        AstExpr::Index { target, index, .. } => expr_names(*target) + expr_names(*index),
        AstExpr::Slice { target, range, .. } => expr_names(*target) + range_names(*range),
        AstExpr::MethodCall { target, args, .. } => expr_names(*target) + exprs_names(args@),
        AstExpr::EarlyReturn(inner, _) => expr_names(*inner),
        AstExpr::ElseFallback { value, fallback, .. } => expr_names(*value) + block_names(fallback),
        AstExpr::Destructure { pattern, source, .. } => expr_names(*source) + pattern_names(pattern),
        AstExpr::IfLet { source, then_block, else_block, .. } => expr_names(*source) + block_names(*then_block) + match else_block {
            Some(b) => block_names(*b),
            None => Set::empty(),
        },
        AstExpr::WhileLet { source, body, .. } => expr_names(*source) + block_names(*body),
        AstExpr::With { bindings, body, .. } => block_names(body) + with_names(bindings@),
        AstExpr::Using { value, .. } => expr_names(*value),
        AstExpr::Discard(inner, _) => expr_names(*inner),
        AstExpr::ProviderCall { args, .. } => exprs_names(args@),
        _ => Set::empty(),
    }
}

/// The names the expressions of a list look up.
pub open spec fn exprs_names(s: Seq<AstExpr>) -> Set<Seq<char>>
    decreases s,
{
    if s.len() == 0 {
        Set::empty()
    } else {
        exprs_names(s.subrange(0, s.len() - 1)) + expr_names(s[s.len() - 1])
    }
}

/// The names the arguments of a call look up.
pub open spec fn arg_names(s: Seq<(Option<String>, AstExpr)>) -> Set<Seq<char>>
    decreases s,
{
    if s.len() == 0 {
        Set::empty()
    } else {
        arg_names(s.subrange(0, s.len() - 1)) + expr_names(s[s.len() - 1].1)
    }
}

/// The names the arm bodies of a `match` look up.
pub open spec fn arm_names(s: Seq<(AstPattern, AstExpr)>) -> Set<Seq<char>>
    decreases s,
{
    if s.len() == 0 {
        Set::empty()
    } else {
        arm_names(s.subrange(0, s.len() - 1)) + expr_names(s[s.len() - 1].1)
    }
}

/// The names the field values of a struct literal look up.
pub open spec fn field_names(s: Seq<(String, AstExpr)>) -> Set<Seq<char>>
    decreases s,
{
    if s.len() == 0 {
        Set::empty()
    } else {
        field_names(s.subrange(0, s.len() - 1)) + expr_names(s[s.len() - 1].1)
    }
}

/// The names the keys and values of a map literal look up.
pub open spec fn entry_names(s: Seq<(AstExpr, AstExpr)>) -> Set<Seq<char>>
    decreases s,
{
    if s.len() == 0 {
        Set::empty()
    } else {
        entry_names(s.subrange(0, s.len() - 1)) + expr_names(s[s.len() - 1].0) + expr_names(s[s.len() - 1].1)
    }
}

/// The names the interpolated parts of an f-string look up.
pub open spec fn part_names(s: Seq<AstFStringPart>) -> Set<Seq<char>>
    decreases s,
{
    if s.len() == 0 {
        Set::empty()
    } else {
        part_names(s.subrange(0, s.len() - 1)) + match s[s.len() - 1] {
            AstFStringPart::Expr(e) => expr_names(*e),
            AstFStringPart::Text(_) => Set::empty(),
        }
    }
}

/// The names the initialisers of a `with` look up.
pub open spec fn with_names(s: Seq<crate::types::AstWithBinding>) -> Set<Seq<char>>
    decreases s,
{
    if s.len() == 0 {
        Set::empty()
    } else {
        with_names(s.subrange(0, s.len() - 1)) + expr_names(*s[s.len() - 1].init)
    }
}

/// The names the bounds of a range look up.
pub open spec fn range_names(r: AstRange) -> Set<Seq<char>>
    decreases r,
{
    (match r.start {
        Some(e) => expr_names(e),
        None => Set::empty(),
    }) + match r.end {
        Some(e) => expr_names(e),
        None => Set::empty(),
    }
}

/// The names the variant parameters of a destructuring pattern look up.
pub open spec fn pattern_names(p: AstPattern) -> Set<Seq<char>>
    decreases p,
{
    match p.kind {
        AstPatternKind::Variant { param, .. } => match param {
            Some(x) => set![x@],
            None => Set::empty(),
        },
        AstPatternKind::Struct { fields, .. } => pfield_names(fields@),
        _ => Set::empty(),
    }
}

/// The names the field patterns of a struct pattern look up.
pub open spec fn pfield_names(s: Seq<(String, AstPattern)>) -> Set<Seq<char>>
    decreases s,
{
    if s.len() == 0 {
        Set::empty()
    } else {
        pfield_names(s.subrange(0, s.len() - 1)) + pattern_names(s[s.len() - 1].1)
    }
}

/// The names a statement looks up.
pub open spec fn stmt_names(s: AstStmt) -> Set<Seq<char>>
    decreases s,
{
    match s.kind {
        AstStmtKind::Bind { value, .. } => expr_names(*value),
        AstStmtKind::Discard(e) => expr_names(*e),
        AstStmtKind::Destructure { pattern, source } => expr_names(*source) + pattern_names(pattern),
        AstStmtKind::Expr(e) => expr_names(*e),
        AstStmtKind::Return(v) => match v {
            Some(e) => expr_names(*e),
            None => Set::empty(),
        },
        _ => Set::empty(),
    }
}

/// The names the statements of a list look up.
pub open spec fn stmts_names(s: Seq<AstStmt>) -> Set<Seq<char>>
    decreases s,
{
    if s.len() == 0 {
        Set::empty()
    } else {
        stmts_names(s.subrange(0, s.len() - 1)) + stmt_names(s[s.len() - 1])
    }
}

/// The name a statement binds in its block: that of a `let`.
pub open spec fn stmt_binds(s: AstStmt) -> Set<Seq<char>> {
    match s.kind {
        AstStmtKind::Bind { name, .. } => set![name@],
        _ => Set::empty(),
    }
}

/// The names that statements `s`, followed by code that looks up `tail`,
/// look up from outside: each statement's own, and those of what follows
/// it that it does not bind itself.
pub open spec fn stmts_free(s: Seq<AstStmt>, tail: Set<Seq<char>>) -> Set<Seq<char>>
    decreases s,
{
    if s.len() == 0 {
        tail
    } else {
        stmt_names(s[0]) + stmts_free(s.subrange(1, s.len() as int), tail).difference(stmt_binds(s[0]))
    }
}

/// The names a block looks up from outside: those of its statements and
/// tail that no earlier `let` of the block binds.
pub open spec fn block_names(b: AstBlock) -> Set<Seq<char>>
    decreases b,
{
    stmts_free(
        b.statements@,
        match b.ret {
            Some(e) => expr_names(*e),
            None => Set::empty(),
        },
    )
}

// ─── What converting costs ─────────────────────────────────────────

/// An upper bound on how much capacity (nodes and ids) converting `e`
/// takes: sixteen for each node of the expression, its nested blocks,
/// statements and list elements.
pub open spec fn expr_cost(e: AstExpr) -> nat
    decreases e,
{
    16 + match e {
        AstExpr::BinaryOp { lhs, rhs, .. } => expr_cost(*lhs) + expr_cost(*rhs),
        AstExpr::UnaryOp { operand, .. } => expr_cost(*operand),
        AstExpr::Call { func, args, .. } => expr_cost(*func) + arg_cost(args@),
        AstExpr::Rt(inner, _) => expr_cost(*inner),
        AstExpr::AtResidual { inner, .. } => expr_cost(*inner),
        AstExpr::If { cond, then_block, else_block, .. } => expr_cost(*cond) + block_cost(*then_block) + match else_block {
            Some(b) => block_cost(*b),
            None => 0,
        },
        AstExpr::While { cond, body, .. } => expr_cost(*cond) + block_cost(*body),
        AstExpr::ForIn { collection, body, .. } => expr_cost(*collection) + block_cost(*body),
        AstExpr::Match { scrutinee, arms, .. } => expr_cost(*scrutinee) + arm_cost(arms@),
        AstExpr::For { init, cond, step, body, .. } => (match init {
            Some(x) => stmt_cost(*x),
            None => 0,
        }) + expr_cost(*cond) + (match step {
            Some(x) => stmt_cost(*x),
            None => 0,
        }) + block_cost(*body),
        AstExpr::Spawn { body, .. } => block_cost(body),
        AstExpr::Assert { cond, message, .. } => expr_cost(*cond) + expr_cost(*message),
        AstExpr::RtAssert { cond, message, .. } => expr_cost(*cond) + expr_cost(*message),
        AstExpr::Known(inner, _) => expr_cost(*inner),
        AstExpr::RtKnown(inner, _) => expr_cost(*inner),
        AstExpr::ComptimePrint(inner, _) => expr_cost(*inner),
        AstExpr::StructLit { fields, .. } => field_cost(fields@),
        AstExpr::ListLit(elts, _) => exprs_cost(elts@),
        AstExpr::MapLit(entries, _) => entry_cost(entries@),
        AstExpr::SetLit(elts, _) => exprs_cost(elts@),
        AstExpr::Range { start, end, .. } => expr_cost(*start) + expr_cost(*end),
        AstExpr::FString(parts, _) => part_cost(parts@),
        AstExpr::FieldAccess { target, .. } => expr_cost(*target),
        AstExpr::Index { target, index, .. } => expr_cost(*target) + expr_cost(*index),
        AstExpr::Slice { target, range, .. } => expr_cost(*target) + range_cost(*range),
        AstExpr::MethodCall { target, args, .. } => expr_cost(*target) + exprs_cost(args@),
        AstExpr::EarlyReturn(inner, _) => expr_cost(*inner),
        AstExpr::ElseFallback { value, fallback, .. } => expr_cost(*value) + block_cost(fallback),
        AstExpr::Destructure { pattern, source, .. } => expr_cost(*source) + pattern_cost(pattern),
        AstExpr::IfLet { source, then_block, else_block, .. } => expr_cost(*source) + block_cost(*then_block) + match else_block {
            Some(b) => block_cost(*b),
            None => 0,
        },
        AstExpr::WhileLet { source, body, .. } => expr_cost(*source) + block_cost(*body),
        AstExpr::With { bindings, body, .. } => block_cost(body) + with_cost(bindings@),
        AstExpr::Using { value, .. } => expr_cost(*value),
        AstExpr::Discard(inner, _) => expr_cost(*inner),
        AstExpr::ProviderCall { args, .. } => exprs_cost(args@),
        _ => 0,
    }
}

/// The cost bound of a list of expressions.
pub open spec fn exprs_cost(s: Seq<AstExpr>) -> nat
    decreases s,
{
    if s.len() == 0 {
        0
    } else {
        exprs_cost(s.subrange(0, s.len() - 1)) + 16 + expr_cost(s[s.len() - 1])
    }
}

/// The cost bound of the arguments of a call.
pub open spec fn arg_cost(s: Seq<(Option<String>, AstExpr)>) -> nat
    decreases s,
{
    if s.len() == 0 {
        0
    } else {
        arg_cost(s.subrange(0, s.len() - 1)) + 16 + expr_cost(s[s.len() - 1].1)
    }
}

/// The cost bound of the arms of a `match`.
pub open spec fn arm_cost(s: Seq<(AstPattern, AstExpr)>) -> nat
    decreases s,
{
    if s.len() == 0 {
        0
    } else {
        arm_cost(s.subrange(0, s.len() - 1)) + 16 + expr_cost(s[s.len() - 1].1)
    }
}

/// The cost bound of the fields of a struct literal.
pub open spec fn field_cost(s: Seq<(String, AstExpr)>) -> nat
    decreases s,
{
    if s.len() == 0 {
        0
    } else {
        field_cost(s.subrange(0, s.len() - 1)) + 16 + expr_cost(s[s.len() - 1].1)
    }
}

/// The cost bound of the entries of a map literal.
pub open spec fn entry_cost(s: Seq<(AstExpr, AstExpr)>) -> nat
    decreases s,
{
    if s.len() == 0 {
        0
    } else {
        entry_cost(s.subrange(0, s.len() - 1)) + 16 + expr_cost(s[s.len() - 1].0) + expr_cost(s[s.len() - 1].1)
    }
}

/// The cost bound of the parts of an f-string.
pub open spec fn part_cost(s: Seq<AstFStringPart>) -> nat
    decreases s,
{
    if s.len() == 0 {
        0
    } else {
        part_cost(s.subrange(0, s.len() - 1)) + 16 + match s[s.len() - 1] {
            AstFStringPart::Expr(e) => expr_cost(*e),
            AstFStringPart::Text(_) => 0,
        }
    }
}

/// The cost bound of the bindings of a `with`.
pub open spec fn with_cost(s: Seq<crate::types::AstWithBinding>) -> nat
    decreases s,
{
    if s.len() == 0 {
        0
    } else {
        with_cost(s.subrange(0, s.len() - 1)) + 16 + expr_cost(*s[s.len() - 1].init)
    }
}

/// The cost bound of a range.
pub open spec fn range_cost(r: AstRange) -> nat
    decreases r,
{
    16 + (match r.start {
        Some(e) => expr_cost(e),
        None => 0,
    }) + match r.end {
        Some(e) => expr_cost(e),
        None => 0,
    }
}

/// The cost bound of resolving a destructuring pattern.
pub open spec fn pattern_cost(p: AstPattern) -> nat
    decreases p,
{
    16 + match p.kind {
        AstPatternKind::Struct { fields, .. } => pfield_cost(fields@),
        _ => 0,
    }
}

/// The cost bound of the field patterns of a struct pattern.
pub open spec fn pfield_cost(s: Seq<(String, AstPattern)>) -> nat
    decreases s,
{
    if s.len() == 0 {
        0
    } else {
        pfield_cost(s.subrange(0, s.len() - 1)) + pattern_cost(s[s.len() - 1].1)
    }
}

/// The cost bound of a statement.
pub open spec fn stmt_cost(s: AstStmt) -> nat
    decreases s,
{
    16 + match s.kind {
        AstStmtKind::Bind { value, .. } => expr_cost(*value),
        AstStmtKind::Discard(e) => expr_cost(*e),
        AstStmtKind::Destructure { pattern, source } => expr_cost(*source) + pattern_cost(pattern),
        AstStmtKind::Expr(e) => expr_cost(*e),
        AstStmtKind::Return(v) => match v {
            Some(e) => expr_cost(*e),
            None => 0,
        },
        _ => 0,
    }
}

/// The cost bound of a list of statements.
pub open spec fn stmts_cost(s: Seq<AstStmt>) -> nat
    decreases s,
{
    if s.len() == 0 {
        0
    } else {
        stmts_cost(s.subrange(0, s.len() - 1)) + stmt_cost(s[s.len() - 1])
    }
}

/// The cost bound of a block: its statements, its tail, and its anchor.
pub open spec fn block_cost(b: AstBlock) -> nat
    decreases b,
{
    16 + stmts_cost(b.statements@) + match b.ret {
        Some(e) => expr_cost(*e),
        None => 0,
    }
}

/// The cost bound of converting a function: registering it, a cell per
/// parameter, and its body.
pub open spec fn fn_cost(fd: AstFuncDef) -> nat {
    16 + 8 * fd.params@.len() + block_cost(fd.body)
}

/// The cost bound of converting the first `n` functions of a list.
pub open spec fn fns_cost(fs: Seq<AstFuncDef>, n: int) -> nat
    decreases n,
{
    if n <= 0 || n > fs.len() {
        0
    } else {
        fns_cost(fs, n - 1) + fn_cost(fs[n - 1])
    }
}

/// The cost bound of converting a whole unit.
pub open spec fn unit_cost(unit: AstTranslationUnit) -> nat {
    fns_cost(unit.functions@, unit.functions@.len() as int)
}

proof fn lemma_arm_cost_prefix(s: Seq<(AstPattern, AstExpr)>, i: int)
    requires
        0 <= i <= s.len(),
    ensures
        arm_cost(s.subrange(0, i)) <= arm_cost(s),
    decreases s.len(),
{
    if i < s.len() {
        let t = s.subrange(0, s.len() - 1);
        lemma_arm_cost_prefix(t, i);
        assert(t.subrange(0, i) =~= s.subrange(0, i));
    } else {
        assert(s.subrange(0, i) =~= s);
    }
}

proof fn lemma_field_cost_prefix(s: Seq<(String, AstExpr)>, i: int)
    requires
        0 <= i <= s.len(),
    ensures
        field_cost(s.subrange(0, i)) <= field_cost(s),
    decreases s.len(),
{
    if i < s.len() {
        let t = s.subrange(0, s.len() - 1);
        lemma_field_cost_prefix(t, i);
        assert(t.subrange(0, i) =~= s.subrange(0, i));
    } else {
        assert(s.subrange(0, i) =~= s);
    }
}

proof fn lemma_with_cost_prefix(s: Seq<crate::types::AstWithBinding>, i: int)
    requires
        0 <= i <= s.len(),
    ensures
        with_cost(s.subrange(0, i)) <= with_cost(s),
    decreases s.len(),
{
    if i < s.len() {
        let t = s.subrange(0, s.len() - 1);
        lemma_with_cost_prefix(t, i);
        assert(t.subrange(0, i) =~= s.subrange(0, i));
    } else {
        assert(s.subrange(0, i) =~= s);
    }
}

proof fn lemma_stmts_cost_prefix(s: Seq<AstStmt>, i: int)
    requires
        0 <= i <= s.len(),
    ensures
        stmts_cost(s.subrange(0, i)) <= stmts_cost(s),
    decreases s.len(),
{
    if i < s.len() {
        let t = s.subrange(0, s.len() - 1);
        lemma_stmts_cost_prefix(t, i);
        assert(t.subrange(0, i) =~= s.subrange(0, i));
    } else {
        assert(s.subrange(0, i) =~= s);
    }
}

proof fn lemma_pfield_cost_prefix(s: Seq<(String, AstPattern)>, i: int)
    requires
        0 <= i <= s.len(),
    ensures
        pfield_cost(s.subrange(0, i)) <= pfield_cost(s),
    decreases s.len(),
{
    if i < s.len() {
        let t = s.subrange(0, s.len() - 1);
        lemma_pfield_cost_prefix(t, i);
        assert(t.subrange(0, i) =~= s.subrange(0, i));
    } else {
        assert(s.subrange(0, i) =~= s);
    }
}

// ─── What a failed conversion reports ──────────────────────────────

/// The scopes of stack `b` extend those of `a`: all of `a`'s scopes are
/// still there, the innermost of them possibly with more bindings, and
/// more scopes may follow.
pub open spec fn scopes_extend(a: Seq<Vec<(String, GraphKey)>>, b: Seq<Vec<(String, GraphKey)>>) -> bool {
    &&& a.len() >= 1
    &&& b.len() >= a.len()
    &&& forall|i: int| 0 <= i < a.len() - 1 ==> #[trigger] b[i] == a[i]
    &&& a[a.len() - 1]@.is_prefix_of(b[a.len() - 1]@)
}

/// Each error is one that `a` and `b` account for: `graph full` only
/// when `b`'s graph is, and an undefined name only for a name that `a`
/// does not resolve.
pub open spec fn errors_sound(a: AstConverter, b: AstConverter, es: Seq<ConversionError>) -> bool {
    forall|i: int|
        0 <= i < es.len() ==> match #[trigger] es[i] {
            ConversionError::GraphFull => graph_full(b.graph_of()),
            ConversionError::UndefinedIdentifier(n, _) => !a.knows(n@),
        }
}

proof fn lemma_scope_find_some(s: Seq<(String, GraphKey)>, name: Seq<char>)
    ensures
        scope_find(s, name) is Some <==> exists|j: int| 0 <= j < s.len() && (#[trigger] s[j]).0@ == name,
    decreases s.len(),
{
    if s.len() > 0 {
        lemma_scope_find_some(s.drop_last(), name);
        if scope_find(s, name) is None {
            assert forall|j: int| 0 <= j < s.len() implies (#[trigger] s[j]).0@ != name by {
                if j < s.len() - 1 {
                    assert(s.drop_last()[j] == s[j]);
                }
            }
        } else if s.last().0@ != name {
            let j = choose|j: int| 0 <= j < s.drop_last().len() && (#[trigger] s.drop_last()[j]).0@ == name;
            assert(s[j] == s.drop_last()[j]);
        } else {
            assert(s[s.len() - 1] == s.last());
        }
    }
}

proof fn lemma_stack_find_some(st: Seq<Vec<(String, GraphKey)>>, name: Seq<char>)
    ensures
        stack_find(st, name) is Some <==> exists|i: int, j: int|
            0 <= i < st.len() && 0 <= j < st[i]@.len() && (#[trigger] st[i]@[j]).0@ == name,
    decreases st.len(),
{
    if st.len() > 0 {
        lemma_scope_find_some(st.last()@, name);
        lemma_stack_find_some(st.drop_last(), name);
        if stack_find(st, name) is None {
            assert forall|i: int, j: int| 0 <= i < st.len() && 0 <= j < st[i]@.len() implies (
            #[trigger] st[i]@[j]).0@ != name by {
                if i < st.len() - 1 {
                    assert(st.drop_last()[i] == st[i]);
                } else {
                    assert(st[i] == st.last());
                }
            }
        } else if scope_find(st.last()@, name) is Some {
            let j = choose|j: int| 0 <= j < st.last()@.len() && (#[trigger] st.last()@[j]).0@ == name;
            assert(st[st.len() - 1]@[j] == st.last()@[j]);
        } else {
            let (i, j) = choose|i: int, j: int|
                0 <= i < st.drop_last().len() && 0 <= j < st.drop_last()[i]@.len() && (
                #[trigger] st.drop_last()[i]@[j]).0@ == name;
            assert(st[i] == st.drop_last()[i]);
        }
    }
}

proof fn lemma_extend_find(a: Seq<Vec<(String, GraphKey)>>, b: Seq<Vec<(String, GraphKey)>>, name: Seq<char>)
    requires
        scopes_extend(a, b),
        stack_find(a, name) is Some,
    ensures
        stack_find(b, name) is Some,
{
    lemma_stack_find_some(a, name);
    lemma_stack_find_some(b, name);
    let (i, j) = choose|i: int, j: int| 0 <= i < a.len() && 0 <= j < a[i]@.len() && (#[trigger] a[i]@[j]).0@ == name;
    if i < a.len() - 1 {
        assert(b[i] == a[i]);
        assert(b[i]@[j] == a[i]@[j]);
    } else {
        assert(b[i]@[j] == a[i]@[j]);
    }
}

/// Every error is `graph full`.
pub open spec fn only_full(es: Seq<ConversionError>) -> bool {
    forall|i: int| 0 <= i < es.len() ==> (#[trigger] es[i]) is GraphFull
}

proof fn lemma_only_full_concat(a: Seq<ConversionError>, b: Seq<ConversionError>)
    requires
        only_full(a),
        only_full(b),
    ensures
        only_full(a + b),
{
    assert forall|i: int| 0 <= i < (a + b).len() implies (#[trigger] (a + b)[i]) is GraphFull by {
        if i < a.len() {
            assert((a + b)[i] == a[i]);
        } else {
            assert((a + b)[i] == b[i - a.len()]);
        }
    }
}

/// Each undefined name reported is one of `names`.
pub open spec fn errors_named(es: Seq<ConversionError>, names: Set<Seq<char>>) -> bool {
    forall|i: int|
        0 <= i < es.len() ==> ((#[trigger] es[i]) matches ConversionError::UndefinedIdentifier(n, _) ==> names.contains(
            n@,
        ))
}

proof fn lemma_named_concat(a: Seq<ConversionError>, b: Seq<ConversionError>, names: Set<Seq<char>>)
    requires
        errors_named(a, names),
        errors_named(b, names),
    ensures
        errors_named(a + b, names),
{
    assert forall|i: int| 0 <= i < (a + b).len() implies ((#[trigger] (a + b)[i]) matches ConversionError::UndefinedIdentifier(
        n,
        _,
    ) ==> names.contains(n@)) by {
        if i < a.len() {
            assert((a + b)[i] == a[i]);
        } else {
            assert((a + b)[i] == b[i - a.len()]);
        }
    }
}

proof fn lemma_named_more(es: Seq<ConversionError>, small: Set<Seq<char>>, big: Set<Seq<char>>)
    requires
        errors_named(es, small),
        small.subset_of(big),
    ensures
        errors_named(es, big),
{
    assert forall|i: int| 0 <= i < es.len() implies ((#[trigger] es[i]) matches ConversionError::UndefinedIdentifier(n, _)
        ==> big.contains(n@)) by {
        if let ConversionError::UndefinedIdentifier(n, _) = es[i] {
            assert(small.contains(n@));
        }
    }
}

/// Errors accounted for stay accounted for as the graph grows.
proof fn lemma_sound_grow(a: AstConverter, b: AstConverter, c: AstConverter, es: Seq<ConversionError>)
    requires
        errors_sound(a, b, es),
        grows(b.graph_of(), c.graph_of()),
        c.inv(),
    ensures
        errors_sound(a, c, es),
{
    assert(c.graph_of().wf());
    assert forall|i: int| 0 <= i < es.len() implies match #[trigger] es[i] {
        ConversionError::GraphFull => graph_full(c.graph_of()),
        ConversionError::UndefinedIdentifier(n, _) => !a.knows(n@),
    } by {
        crate::graph::lemma_grows_full(b.graph_of(), c.graph_of());
    }
}

/// Errors that `b` accounts for, `a` accounts for when `b` extends it.
proof fn lemma_sound_back(a: AstConverter, b: AstConverter, c: AstConverter, es: Seq<ConversionError>)
    requires
        a.extended_by(b),
        errors_sound(b, c, es),
    ensures
        errors_sound(a, c, es),
{
    assert forall|i: int| 0 <= i < es.len() implies match #[trigger] es[i] {
        ConversionError::GraphFull => graph_full(c.graph_of()),
        ConversionError::UndefinedIdentifier(n, _) => !a.knows(n@),
    } by {
        if let ConversionError::UndefinedIdentifier(n, _) = es[i] {
            AstConverter::lemma_extended_knows(a, b, n@);
        }
    }
}

/// Collecting the errors of one more failed step.
proof fn lemma_sound_extend(
    a: AstConverter,
    p: AstConverter,
    q: AstConverter,
    c: AstConverter,
    es: Seq<ConversionError>,
    more: Seq<ConversionError>,
)
    requires
        errors_sound(a, p, es),
        grows(p.graph_of(), c.graph_of()),
        c.inv(),
        a.extended_by(q),
        errors_sound(q, c, more),
    ensures
        errors_sound(a, c, es + more),
{
    lemma_sound_grow(a, p, c, es);
    lemma_sound_back(a, q, c, more);
    assert forall|i: int| 0 <= i < (es + more).len() implies match #[trigger] (es + more)[i] {
        ConversionError::GraphFull => graph_full(c.graph_of()),
        ConversionError::UndefinedIdentifier(n, _) => !a.knows(n@),
    } by {
        if i < es.len() {
            assert((es + more)[i] == es[i]);
        } else {
            assert((es + more)[i] == more[i - es.len()]);
        }
    }
}

/// The names of each expression of a list are among the list's names.
proof fn lemma_exprs_names_has(s: Seq<AstExpr>, i: int)
    requires
        0 <= i < s.len(),
    ensures
        expr_names(s[i]).subset_of(exprs_names(s)),
    decreases s.len(),
{
    if i < s.len() - 1 {
        lemma_exprs_names_has(s.subrange(0, s.len() - 1), i);
        assert(s.subrange(0, s.len() - 1)[i] == s[i]);
    }
}

/// The names of each argument are among the arguments' names.
proof fn lemma_arg_names_has(s: Seq<(Option<String>, AstExpr)>, i: int)
    requires
        0 <= i < s.len(),
    ensures
        expr_names(s[i].1).subset_of(arg_names(s)),
    decreases s.len(),
{
    if i < s.len() - 1 {
        lemma_arg_names_has(s.subrange(0, s.len() - 1), i);
        assert(s.subrange(0, s.len() - 1)[i] == s[i]);
    }
}

/// The names of each arm body are among the arms' names.
proof fn lemma_arm_names_has(s: Seq<(AstPattern, AstExpr)>, i: int)
    requires
        0 <= i < s.len(),
    ensures
        expr_names(s[i].1).subset_of(arm_names(s)),
    decreases s.len(),
{
    if i < s.len() - 1 {
        lemma_arm_names_has(s.subrange(0, s.len() - 1), i);
        assert(s.subrange(0, s.len() - 1)[i] == s[i]);
    }
}

/// The names of each field value are among the fields' names.
proof fn lemma_field_names_has(s: Seq<(String, AstExpr)>, i: int)
    requires
        0 <= i < s.len(),
    ensures
        expr_names(s[i].1).subset_of(field_names(s)),
    decreases s.len(),
{
    if i < s.len() - 1 {
        lemma_field_names_has(s.subrange(0, s.len() - 1), i);
        assert(s.subrange(0, s.len() - 1)[i] == s[i]);
    }
}

/// The names of each key and value are among the entries' names.
proof fn lemma_entry_names_has(s: Seq<(AstExpr, AstExpr)>, i: int)
    requires
        0 <= i < s.len(),
    ensures
        expr_names(s[i].0).subset_of(entry_names(s)),
        expr_names(s[i].1).subset_of(entry_names(s)),
    decreases s.len(),
{
    if i < s.len() - 1 {
        lemma_entry_names_has(s.subrange(0, s.len() - 1), i);
        assert(s.subrange(0, s.len() - 1)[i] == s[i]);
    }
}

/// The names of each interpolated part are among the parts' names.
proof fn lemma_part_names_has(s: Seq<AstFStringPart>, i: int)
    requires
        0 <= i < s.len(),
    ensures
        s[i] matches AstFStringPart::Expr(e) ==> expr_names(*e).subset_of(part_names(s)),
    decreases s.len(),
{
    if i < s.len() - 1 {
        lemma_part_names_has(s.subrange(0, s.len() - 1), i);
        assert(s.subrange(0, s.len() - 1)[i] == s[i]);
    }
}

/// The names of each initialiser are among the bindings' names.
proof fn lemma_with_names_has(s: Seq<crate::types::AstWithBinding>, i: int)
    requires
        0 <= i < s.len(),
    ensures
        expr_names(*s[i].init).subset_of(with_names(s)),
    decreases s.len(),
{
    if i < s.len() - 1 {
        lemma_with_names_has(s.subrange(0, s.len() - 1), i);
        assert(s.subrange(0, s.len() - 1)[i] == s[i]);
    }
}

/// The names of each statement are among the statements' names.
proof fn lemma_stmts_names_has(s: Seq<AstStmt>, i: int)
    requires
        0 <= i < s.len(),
    ensures
        stmt_names(s[i]).subset_of(stmts_names(s)),
    decreases s.len(),
{
    if i < s.len() - 1 {
        lemma_stmts_names_has(s.subrange(0, s.len() - 1), i);
        assert(s.subrange(0, s.len() - 1)[i] == s[i]);
    }
}

/// The names of each field pattern are among the struct pattern's names.
proof fn lemma_pfield_names_has(s: Seq<(String, AstPattern)>, i: int)
    requires
        0 <= i < s.len(),
    ensures
        pattern_names(s[i].1).subset_of(pfield_names(s)),
    decreases s.len(),
{
    if i < s.len() - 1 {
        lemma_pfield_names_has(s.subrange(0, s.len() - 1), i);
        assert(s.subrange(0, s.len() - 1)[i] == s[i]);
    }
}

/// What `a` resolves of a larger set, `b` resolves of a smaller one.
proof fn lemma_knows_sub(a: AstConverter, b: AstConverter, big: Set<Seq<char>>, small: Set<Seq<char>>)
    requires
        a.knows_all(big),
        small.subset_of(big),
        a.extended_by(b),
    ensures
        b.knows_all(small),
{
    assert forall|n: Seq<char>| #[trigger] small.contains(n) implies b.knows(n) by {
        AstConverter::lemma_extended_knows(a, b, n);
    }
}

/// How scopes extend: names keep resolving, and extension composes.
broadcast group group_scopes {
    AstConverter::lemma_extended_knows,
    AstConverter::lemma_extended_trans,
    AstConverter::lemma_extended_refl,
}

/// One conversion step from `a` to `b` with result `r`: the invariant holds
/// again, the graph only grew, the scopes of `a` are still open (a key
/// returned names a node, and then as many scopes are open as before; a
/// failure may leave inner scopes open), and a failure carries at least one
/// error, each of which `a` and `b` account for.
pub open spec fn converted(a: AstConverter, b: AstConverter, r: Result<GraphKey, Vec<ConversionError>>) -> bool {
    &&& b.inv()
    &&& b.depth() >= a.depth()
    &&& r is Ok ==> b.depth() == a.depth()
    &&& grows(a.graph_of(), b.graph_of())
    &&& r matches Ok(k) ==> b.graph_of().has(k)
    &&& r matches Err(e) ==> e@.len() > 0
    &&& a.extended_by(b)
    &&& r matches Err(e) ==> errors_sound(a, b, e@)
}

/// Converts the AST of a translation unit into a knowledge graph.
pub struct AstConverter {
    graph: KnowledgeGraph,
    scope_stack: Vec<Vec<(String, GraphKey)>>,
    anon_counter: u64,
}

impl AstConverter {
    /// The graph built so far.
    pub closed spec fn graph_of(&self) -> KnowledgeGraph {
        self.graph
    }

    /// The number of open scopes.
    pub closed spec fn depth(&self) -> nat {
        self.scope_stack@.len()
    }

    /// What `name` resolves to: its binding in the innermost scope that
    /// binds it, else the function registered under it.
    pub closed spec fn resolves(&self, name: Seq<char>) -> Option<GraphKey> {
        match stack_find(self.scope_stack@, name) {
            Some(k) => Some(k),
            None => self.graph.functions().get(name),
        }
    }

    /// Whether `name` resolves.
    pub closed spec fn knows(&self, name: Seq<char>) -> bool {
        self.resolves(name) is Some
    }

    /// Whether every name of `s` resolves.
    pub open spec fn knows_all(&self, s: Set<Seq<char>>) -> bool {
        forall|n: Seq<char>| s.contains(n) ==> #[trigger] self.knows(n)
    }

    /// `b` has the scopes of `self` (see [`scopes_extend`]) and the same
    /// function table.
    pub closed spec fn extended_by(&self, b: AstConverter) -> bool {
        &&& scopes_extend(self.scope_stack@, b.scope_stack@)
        &&& b.graph.functions() == self.graph.functions()
    }

    /// A name that resolves keeps resolving as the scopes are extended.
    pub broadcast proof fn lemma_extended_knows(a: AstConverter, b: AstConverter, name: Seq<char>)
        requires
            #[trigger] a.extended_by(b),
        ensures
            a.knows(name) ==> #[trigger] b.knows(name),
    {
        if stack_find(a.scope_stack@, name) is Some {
            lemma_extend_find(a.scope_stack@, b.scope_stack@, name);
        }
    }

    /// Extending scopes twice extends them.
    pub broadcast proof fn lemma_extended_trans(a: AstConverter, b: AstConverter, c: AstConverter)
        requires
            #[trigger] a.extended_by(b),
            #[trigger] b.extended_by(c),
        ensures
            a.extended_by(c),
    {
        let (x, y, z) = (a.scope_stack@, b.scope_stack@, c.scope_stack@);
        assert forall|i: int| 0 <= i < x.len() - 1 implies #[trigger] z[i] == x[i] by {
            assert(y[i] == x[i]);
            assert(z[i] == y[i]);
        }
        if x.len() < y.len() {
            assert(y[x.len() - 1] == x[x.len() - 1] || x[x.len() - 1]@.is_prefix_of(y[x.len() - 1]@));
            if x.len() - 1 < y.len() - 1 {
                assert(z[x.len() - 1] == y[x.len() - 1]);
            }
        }
        assert(x[x.len() - 1]@.is_prefix_of(z[x.len() - 1]@)) by {
            if x.len() - 1 < y.len() - 1 {
                assert(z[x.len() - 1] == y[x.len() - 1]);
            } else {
                assert(x.len() == y.len());
                assert forall|k: int| 0 <= k < x[x.len() - 1]@.len() implies #[trigger] z[x.len() - 1]@[k] == x[x.len()
                    - 1]@[k] by {
                    assert(y[x.len() - 1]@[k] == x[x.len() - 1]@[k]);
                }
            }
        }
    }

    /// A converter extends itself.
    broadcast proof fn lemma_extended_refl(a: AstConverter, b: AstConverter)
        requires
            a.inv(),
            b.scope_stack@ == a.scope_stack@,
            b.graph.functions() == a.graph.functions(),
        ensures
            #[trigger] a.extended_by(b),
    {
        assert(a.scope_stack@[a.scope_stack@.len() - 1]@.is_prefix_of(b.scope_stack@[a.scope_stack@.len() - 1]@));
    }

    /// The converter's invariant: a consistent graph without dangling
    /// dependencies, at least one scope, and every scope binding and
    /// registered function naming a node.
    pub closed spec fn inv(&self) -> bool {
        &&& self.graph.wf()
        &&& closed_graph(self.graph)
        &&& self.scope_stack@.len() >= 1
        &&& forall|i: int, j: int|
            0 <= i < self.scope_stack@.len() && 0 <= j < self.scope_stack@[i]@.len() ==> self.graph.has(
                #[trigger] self.scope_stack@[i]@[j].1,
            )
        &&& functions_named(self.graph)
    }

    /// A converter with an empty graph and one empty scope.
    pub fn new() -> (c: AstConverter)
        ensures
            c.inv(),
            c.graph_of().nodes().is_empty(),
            c.graph_of().functions().is_empty(),
            c.graph_of().entry() is None,
            c.depth() == 1,
            forall|n: Seq<char>| !#[trigger] c.knows(n),
            used(c.graph_of()) == 0,
    {
        let mut st: Vec<Vec<(String, GraphKey)>> = Vec::new();
        st.push(Vec::new());
        let c = AstConverter { graph: KnowledgeGraph::new(), scope_stack: st, anon_counter: 0 };
        assert(forall|i: int, j: int|
            0 <= i < c.scope_stack@.len() && 0 <= j < c.scope_stack@[i]@.len() ==> c.graph.has(
                #[trigger] c.scope_stack@[i]@[j].1,
            ));
        assert(c.scope_stack@.last()@.len() == 0);
        assert(c.graph.nodes().dom() =~= Set::<u64>::empty());
        assert forall|n: Seq<char>| !#[trigger] c.knows(n) by {
            assert(c.scope_stack@.drop_last().len() == 0);
            assert(scope_find(c.scope_stack@.last()@, n) is None);
            assert(stack_find(c.scope_stack@.drop_last(), n) is None);
            assert(stack_find(c.scope_stack@, n) is None);
        }
        c
    }

    /// The graph, handed over.
    pub fn into_graph(self) -> (g: KnowledgeGraph)
        ensures
            g == self.graph_of(),
    {
        self.graph
    }

    /// The graph, to work on in place.
    pub fn graph_mut(&mut self) -> (g: &mut KnowledgeGraph)
        ensures
            *g == old(self).graph_of(),
            final(self).graph_of() == *final(g),
    {
        &mut self.graph
    }

    proof fn lemma_inv_after_grow(old_c: AstConverter, new_c: AstConverter)
        requires
            old_c.inv(),
            new_c.graph.wf(),
            closed_graph(new_c.graph),
            grows(old_c.graph, new_c.graph),
            new_c.scope_stack@ == old_c.scope_stack@,
        ensures
            new_c.inv(),
    {
        assert forall|i: int, j: int|
            0 <= i < new_c.scope_stack@.len() && 0 <= j < new_c.scope_stack@[i]@.len() implies new_c.graph.has(
                #[trigger] new_c.scope_stack@[i]@[j].1,
            ) by {
            assert(old_c.graph.has(old_c.scope_stack@[i]@[j].1));
        }
        assert forall|n: Seq<char>| #[trigger] new_c.graph.functions().contains_key(n) implies new_c.graph.has(
            new_c.graph.functions()[n],
        ) by {
            assert(old_c.graph.functions().contains_key(n));
        }
    }

    fn enter_scope(&mut self)
        requires
            old(self).inv(),
        ensures
            final(self).inv(),
            final(self).graph == old(self).graph,
            final(self).scope_stack@.len() == old(self).scope_stack@.len() + 1,
            final(self).scope_stack@.drop_last() == old(self).scope_stack@,
            final(self).scope_stack@.last()@.len() == 0,
            old(self).extended_by(*final(self)),
    {
        self.scope_stack.push(Vec::new());
        proof {
            assert forall|i: int, j: int|
                0 <= i < self.scope_stack@.len() && 0 <= j < self.scope_stack@[i]@.len() implies self.graph.has(
                    #[trigger] self.scope_stack@[i]@[j].1,
                ) by {
                assert(i < old(self).scope_stack@.len());
                assert(self.scope_stack@[i] == old(self).scope_stack@[i]);
            }
            let n = old(self).scope_stack@.len();
            assert(self.scope_stack@[n - 1] == old(self).scope_stack@[n - 1]);
            assert(scopes_extend(old(self).scope_stack@, self.scope_stack@));
        }
    }

    fn exit_scope(&mut self)
        requires
            old(self).inv(),
            old(self).scope_stack@.len() >= 2,
        ensures
            final(self).inv(),
            final(self).graph == old(self).graph,
            final(self).scope_stack@ == old(self).scope_stack@.drop_last(),
    {
        let _ = self.scope_stack.pop();
        proof {
            assert forall|i: int, j: int|
                0 <= i < self.scope_stack@.len() && 0 <= j < self.scope_stack@[i]@.len() implies self.graph.has(
                    #[trigger] self.scope_stack@[i]@[j].1,
                ) by {
                assert(self.scope_stack@[i] == old(self).scope_stack@[i]);
            }
        }
    }

    /// Binds `name` to `key` in the innermost scope (shadowing an earlier
    /// binding there).
    fn bind(&mut self, name: String, key: GraphKey)
        requires
            old(self).inv(),
            old(self).graph.has(key),
        ensures
            final(self).inv(),
            final(self).graph == old(self).graph,
            final(self).scope_stack@.len() == old(self).scope_stack@.len(),
            forall|i: int| 0 <= i < old(self).scope_stack@.len() - 1 ==> #[trigger] final(self).scope_stack@[i]
                == old(self).scope_stack@[i],
            final(self).scope_stack@.last()@ == old(self).scope_stack@.last()@.push((name, key)),
            old(self).extended_by(*final(self)),
    {
        let last = self.scope_stack.len() - 1;
        let mut top = self.scope_stack.remove(last);
        let ghost prev = top@;
        top.push((name, key));
        self.scope_stack.push(top);
        proof {
            assert forall|i: int, j: int|
                0 <= i < self.scope_stack@.len() && 0 <= j < self.scope_stack@[i]@.len() implies self.graph.has(
                    #[trigger] self.scope_stack@[i]@[j].1,
                ) by {
                if i < last {
                    assert(self.scope_stack@[i] == old(self).scope_stack@[i]);
                } else if j < prev.len() {
                    assert(self.scope_stack@[i]@[j] == prev[j]);
                    assert(prev == old(self).scope_stack@[i]@);
                }
            }
            assert(prev == old(self).scope_stack@[last as int]@);
            assert(prev.is_prefix_of(self.scope_stack@[last as int]@));
            assert(scopes_extend(old(self).scope_stack@, self.scope_stack@));
        }
    }

    /// Leaving the scope entered after `a` (in `e`) from `c`, which extends
    /// `e` with as many scopes open, gives a converter `f` that extends `a`.
    proof fn lemma_exit_extended(a: AstConverter, e: AstConverter, c: AstConverter, f: AstConverter)
        requires
            a.inv(),
            e.scope_stack@.drop_last() == a.scope_stack@,
            e.scope_stack@.len() == a.scope_stack@.len() + 1,
            e.extended_by(c),
            c.scope_stack@.len() == e.scope_stack@.len(),
            f.scope_stack@ == c.scope_stack@.drop_last(),
            f.graph.functions() == c.graph.functions(),
            e.graph.functions() == a.graph.functions(),
        ensures
            a.extended_by(f),
    {
        let n = a.scope_stack@.len();
        assert forall|i: int| 0 <= i < n - 1 implies #[trigger] f.scope_stack@[i] == a.scope_stack@[i] by {
            assert(c.scope_stack@[i] == e.scope_stack@[i]);
            assert(e.scope_stack@[i] == a.scope_stack@[i]);
        }
        assert(c.scope_stack@[n - 1] == e.scope_stack@[n - 1]);
        assert(e.scope_stack@[n - 1] == a.scope_stack@[n - 1]);
        assert(f.scope_stack@[n - 1] == a.scope_stack@[n - 1]);
    }

    fn find_in_scope(scope: &Vec<(String, GraphKey)>, name: &str) -> (r: Option<GraphKey>)
        ensures
            r == scope_find(scope@, name@),
    {
        let mut i: usize = scope.len();
        assert(scope@.take(i as int) =~= scope@);
        while i > 0
            invariant
                i <= scope@.len(),
                scope_find(scope@, name@) == scope_find(scope@.take(i as int), name@),
            decreases i,
        {
            i -= 1;
            assert(scope@.take(i + 1).drop_last() =~= scope@.take(i as int));
            assert(scope@.take(i + 1).last() == scope@[i as int]);
            if crate::text::str_eq(scope[i].0.as_str(), name) {
                return Some(scope[i].1);
            }
        }
        None
    }

    /// What `name` resolves to (see [`Self::resolves`]).
    fn lookup(&self, name: &str) -> (r: Option<GraphKey>)
        requires
            self.inv(),
        ensures
            r == self.resolves(name@),
            r matches Some(k) ==> self.graph.has(k),
    {
        let mut i: usize = self.scope_stack.len();
        assert(self.scope_stack@.take(i as int) =~= self.scope_stack@);
        while i > 0
            invariant
                self.inv(),
                i <= self.scope_stack@.len(),
                stack_find(self.scope_stack@, name@) == stack_find(self.scope_stack@.take(i as int), name@),
            decreases i,
        {
            i -= 1;
            assert(self.scope_stack@.take(i + 1).drop_last() =~= self.scope_stack@.take(i as int));
            assert(self.scope_stack@.take(i + 1).last() == self.scope_stack@[i as int]);
            match Self::find_in_scope(&self.scope_stack[i], name) {
                Some(k) => {
                    proof {
                        lemma_stack_find_in(self.scope_stack@, name@);
                        let (a, b) = choose|a: int, b: int|
                            0 <= a < self.scope_stack@.len() && 0 <= b < self.scope_stack@[a]@.len()
                                && #[trigger] self.scope_stack@[a]@[b].1 == k;
                        assert(self.graph.has(self.scope_stack@[a]@[b].1));
                    }
                    return Some(k);
                },
                None => {},
            }
        }
        assert(self.scope_stack@.take(0) =~= Seq::<Vec<(String, GraphKey)>>::empty());
        self.graph.lookup_function_key(name)
    }

    /// A fresh identifier for `name`.
    fn unique_id(&mut self, name: &str) -> (r: Result<Identifier, Vec<ConversionError>>)
        requires
            old(self).inv(),
        ensures
            used(final(self).graph_of()) <= used(old(self).graph_of()) + 1,
            final(self).inv(),
            grows(old(self).graph, final(self).graph),
            final(self).scope_stack@ == old(self).scope_stack@,
            r matches Ok(i) ==> i.name@ == name@,
            r matches Err(e) ==> e@.len() > 0,
            old(self).extended_by(*final(self)),
            r matches Err(e) ==> errors_sound(*old(self), *final(self), e@),
            r is Err ==> graph_full(final(self).graph_of()),
            r matches Err(e) ==> only_full(e@),
    {
        if self.graph.peek_id() == u64::MAX {
            return Err(vec![ConversionError::GraphFull]);
        }
        let id = self.graph.fresh_id();
        proof {
            Self::lemma_inv_after_grow(*old(self), *self);
        }
        Ok(Identifier::new(name, id))
    }

    /// Adds a node whose dependencies all name nodes.
    fn add(
        &mut self,
        kind: NodeKind,
        type_: Type,
        knowledge: KnowledgeState,
        deps: Vec<GraphKey>,
        effects: HashSet<Effect>,
        capabilities: HashSet<Capability>,
        provenance: Provenance,
        span: Span,
    ) -> (r: Result<GraphKey, Vec<ConversionError>>)
        requires
            old(self).inv(),
            forall|i: int| 0 <= i < deps@.len() ==> old(self).graph.has(#[trigger] deps@[i]),
        ensures
            used(final(self).graph_of()) <= used(old(self).graph_of()) + 2,
            final(self).inv(),
            final(self).scope_stack@ == old(self).scope_stack@,
            grows(old(self).graph, final(self).graph),
            r matches Ok(k) ==> final(self).graph.has(k) && !old(self).graph.has(k)
                && final(self).graph.node(k) == crate::graph::new_node(
                kind,
                type_,
                knowledge,
                deps,
                effects,
                capabilities,
                provenance,
                span,
            ),
            r matches Err(e) ==> e@.len() > 0,
            old(self).extended_by(*final(self)),
            r matches Err(e) ==> errors_sound(*old(self), *final(self), e@),
            r is Err ==> graph_full(final(self).graph_of()),
            r matches Err(e) ==> only_full(e@),
    {
        if self.graph.num_nodes() >= 0xFFFF_FFFE || self.graph.peek_id() == u64::MAX {
            return Err(vec![ConversionError::GraphFull]);
        }
        let ghost g0 = self.graph;
        let ghost dv = deps@;
        let k = self.graph.add_node(kind, type_, knowledge, deps, effects, capabilities, provenance, span);
        proof {
            assert(g0.nodes().submap_of(self.graph.nodes()));
            assert forall|k2: u64, d: GraphKey|
                self.graph.nodes().contains_key(k2) && #[trigger] self.graph.nodes()[k2].deps@.contains(d)
                    implies self.graph.has(d) by {
                if k2 == k.0 {
                    let i = choose|i: int| 0 <= i < dv.len() && dv[i] == d;
                    assert(g0.has(dv[i]));
                } else {
                    assert(g0.nodes().contains_key(k2));
                    assert(g0.nodes()[k2].deps@.contains(d));
                }
            }
            Self::lemma_inv_after_grow(*old(self), *self);
            assert(self.graph.nodes().dom() =~= g0.nodes().dom().insert(k.0));
            assert(!g0.nodes().dom().contains(k.0));
            crate::graph::lemma_wf_finite(g0);
            vstd::set::axiom_set_insert_len(g0.nodes().dom(), k.0);
            assert(self.graph.node_count() == g0.node_count() + 1);
        }
        Ok(k)
    }

    /// Adds a node located at `span`, with no effects or capabilities.
    fn mk_node(&mut self, kind: NodeKind, type_: Type, knowledge: KnowledgeState, deps: Vec<GraphKey>, span: &Span) -> (r:
        Result<GraphKey, Vec<ConversionError>>)
        requires
            old(self).inv(),
            forall|i: int| 0 <= i < deps@.len() ==> old(self).graph.has(#[trigger] deps@[i]),
        ensures
            used(final(self).graph_of()) <= used(old(self).graph_of()) + 2,
            final(self).inv(),
            final(self).scope_stack@ == old(self).scope_stack@,
            grows(old(self).graph, final(self).graph),
            r matches Ok(k) ==> final(self).graph.has(k) && !old(self).graph.has(k)
                && final(self).graph.node(k).kind == kind && final(self).graph.node(k).type_ == type_
                && final(self).graph.node(k).knowledge == knowledge && final(self).graph.node(k).deps == deps,
            r matches Err(e) ==> e@.len() > 0,
            old(self).extended_by(*final(self)),
            r matches Err(e) ==> errors_sound(*old(self), *final(self), e@),
            r is Err ==> graph_full(final(self).graph_of()),
            r matches Err(e) ==> only_full(e@),
    {
        let prov = Provenance::Source { file: span.file.clone(), line: span.line, col_start: span.col_start };
        self.add(kind, type_, knowledge, deps, HashSet::new(), HashSet::new(), prov, span.copy())
    }

    /// A known literal node of type `ty`.
    fn lit(&mut self, lit: LiteralValue, ty: &Type) -> (r: Result<GraphKey, Vec<ConversionError>>)
        requires
            old(self).inv(),
        ensures
            used(final(self).graph_of()) <= used(old(self).graph_of()) + 2,
            final(self).inv(),
            final(self).scope_stack@ == old(self).scope_stack@,
            grows(old(self).graph, final(self).graph),
            r matches Ok(k) ==> final(self).graph.has(k) && final(self).graph.node(k).kind == NodeKind::Literal(lit),
            r matches Err(e) ==> e@.len() > 0,
            old(self).extended_by(*final(self)),
            r matches Err(e) ==> errors_sound(*old(self), *final(self), e@),
            r is Err ==> graph_full(final(self).graph_of()),
            r matches Err(e) ==> only_full(e@),
    {
        self.add(
            NodeKind::Literal(lit),
            ty.copy(),
            KnowledgeState::Known,
            Vec::new(),
            HashSet::new(),
            HashSet::new(),
            Provenance::Inferred,
            Span::unknown(),
        )
    }

    /// The placeholder node for "no definition".
    fn placeholder(&mut self) -> (r: Result<GraphKey, Vec<ConversionError>>)
        requires
            old(self).inv(),
        ensures
            used(final(self).graph_of()) <= used(old(self).graph_of()) + 2,
            final(self).inv(),
            final(self).scope_stack@ == old(self).scope_stack@,
            grows(old(self).graph, final(self).graph),
            r matches Ok(k) ==> final(self).graph.has(k),
            r matches Err(e) ==> e@.len() > 0,
            old(self).extended_by(*final(self)),
            r matches Err(e) ==> errors_sound(*old(self), *final(self), e@),
            r is Err ==> graph_full(final(self).graph_of()),
            r matches Err(e) ==> only_full(e@),
    {
        if self.graph.num_nodes() >= 0xFFFF_FFFE || self.graph.peek_id() == u64::MAX {
            return Err(vec![ConversionError::GraphFull]);
        }
        let ghost g0 = self.graph;
        let k = invalid_key(&mut self.graph);
        proof {
            assert(g0.nodes().submap_of(self.graph.nodes()));
            assert forall|k2: u64, d: GraphKey|
                self.graph.nodes().contains_key(k2) && #[trigger] self.graph.nodes()[k2].deps@.contains(d)
                    implies self.graph.has(d) by {
                if k2 != k.0 {
                    assert(g0.nodes().contains_key(k2));
                    assert(g0.nodes()[k2].deps@.contains(d));
                }
            }
            Self::lemma_inv_after_grow(*old(self), *self);
            assert(self.graph.nodes().dom() =~= g0.nodes().dom().insert(k.0));
            assert(!g0.nodes().dom().contains(k.0));
            crate::graph::lemma_wf_finite(g0);
            vstd::set::axiom_set_insert_len(g0.nodes().dom(), k.0);
            assert(self.graph.node_count() == g0.node_count() + 1);
        }
        Ok(k)
    }

    /// The type of the node under `key` (`Void` for a key that names none).
    fn get_type(&self, key: &GraphKey) -> (t: Type)
        ensures
            self.graph.has(*key) ==> crate::types::same_type(self.graph.node(*key).type_, t),
            !self.graph.has(*key) ==> t == Type::Void,
    {
        match self.graph.get_node_checked(*key) {
            Some(node) => node.type_.copy(),
            None => Type::Void,
        }
    }
}


impl AstConverter {
    /// An external or builtin callee: a function node with a placeholder
    /// body that is not registered, so it never inlines and retrofit
    /// rebuilds the call from its name.
    fn ad_hoc_function(&mut self, name: &str, span: &Span) -> (r: Result<GraphKey, Vec<ConversionError>>)
        requires
            old(self).inv(),
        ensures
            used(final(self).graph_of()) <= used(old(self).graph_of()) + 6,
            r is Err ==> graph_full(final(self).graph_of()),
            r matches Err(e) ==> only_full(e@),
            converted(*old(self), *final(self), r),
            final(self).scope_stack@ == old(self).scope_stack@,
    {
        broadcast use group_scopes;
        let body = self.placeholder()?;
        let dep = self.placeholder()?;
        let fname = Identifier::new(name, self.graph.peek_id());
        let mut deps: Vec<GraphKey> = Vec::new();
        deps.push(dep);
        self.add(
            NodeKind::Function {
                name: fname,
                public: false,
                params: Vec::new(),
                ret: Type::Void,
                body,
                capabilities: HashSet::new(),
            },
            Type::Function { params: Vec::new(), ret: Box::new(Type::Void) },
            KnowledgeState::Known,
            deps,
            HashSet::new(),
            HashSet::new(),
            Provenance::Inferred,
            span.copy(),
        )
    }

    /// A reference to what `name` resolves to, or the error that it is
    /// undefined.
    fn convert_id(&mut self, name: &str, span: &Span) -> (r: Result<GraphKey, Vec<ConversionError>>)
        requires
            old(self).inv(),
        ensures
            used(final(self).graph_of()) <= used(old(self).graph_of()) + 2,
            old(self).knows(name@) && !graph_full(final(self).graph_of()) ==> r is Ok,
            old(self).knows(name@) ==> (r matches Err(es) ==> only_full(es@)),
            r matches Err(es) ==> errors_named(es@, set![name@]),
            converted(*old(self), *final(self), r),
            final(self).scope_stack@ == old(self).scope_stack@,
            old(self).resolves(name@) is None ==> (r matches Err(e) && e@.len() == 1
                && (e@[0] matches ConversionError::UndefinedIdentifier(n, _) && n@ == name@)),
            old(self).resolves(name@) matches Some(def) ==> (r matches Ok(k) ==> (final(self).graph_of().node(k).kind
                matches NodeKind::Reference { def: d, .. } && d == def)),
            r matches Ok(k) ==> (final(self).graph_of().node(k).kind matches NodeKind::Reference { name: i, .. }
                && i.name@ == name@) && final(self).graph_of().node(k).knowledge == KnowledgeState::Residual,
    {
        broadcast use group_scopes;
        match self.lookup(name) {
            Some(def) => {
                let def_type = self.get_type(&def);
                let mut deps: Vec<GraphKey> = Vec::new();
                deps.push(def);
                let rname = Identifier::new(name, self.graph.peek_id());
                self.mk_node(
                    NodeKind::Reference { name: rname, def },
                    def_type,
                    KnowledgeState::Residual,
                    deps,
                    span,
                )
            },
            None => {
                let mut e: Vec<ConversionError> = Vec::new();
                e.push(ConversionError::UndefinedIdentifier(crate::text::string_of(name), span.copy()));
                Err(e)
            },
        }
    }

    /// The type and knowledge state of a binary operation on the nodes
    /// `lk` and `rk`.
    fn binop_type(&self, lk: &GraphKey, op: &BinOp, rk: &GraphKey) -> (r: (Type, KnowledgeState))
        ensures
            r == binop_typing(type_at(self.graph, *lk), *op, type_at(self.graph, *rk)),
    {
        let void = Type::Void;
        let lt: &Type = match self.graph.get_node_checked(*lk) {
            Some(n) => &n.type_,
            None => &void,
        };
        let rt: &Type = match self.graph.get_node_checked(*rk) {
            Some(n) => &n.type_,
            None => &void,
        };
        let l2: &Type = match lt {
            Type::Residual(inner) => &**inner,
            other => other,
        };
        let r2: &Type = match rt {
            Type::Residual(inner) => &**inner,
            other => other,
        };
        match (l2, r2) {
            (Type::Numeric(a), Type::Numeric(b)) => match numeric_result_type(a, *op, b) {
                ResultType::Numeric(t) => (Type::Numeric(t), KnowledgeState::Known),
                ResultType::Bool => (Type::Bool, KnowledgeState::Known),
                ResultType::Error(_) => (Type::Void, KnowledgeState::Invalid),
            },
            (Type::Bool, Type::Bool) => (Type::Bool, KnowledgeState::Known),
            _ => (Type::Void, KnowledgeState::Known),
        }
    }

    /// The return type of the function node `fk` (`Void` for anything
    /// else).
    fn call_ret_type(&self, fk: &GraphKey) -> (t: Type)
        ensures
            (self.graph.has(*fk) && self.graph.node(*fk).kind is Function) ==> crate::types::same_type(
                self.graph.node(*fk).kind->Function_ret,
                t,
            ),
            !(self.graph.has(*fk) && self.graph.node(*fk).kind is Function) ==> t == Type::Void,
    {
        match self.graph.get_node_checked(*fk) {
            Some(n) => match &n.kind {
                NodeKind::Function { ret, .. } => ret.copy(),
                _ => Type::Void,
            },
            None => Type::Void,
        }
    }

    /// Calls of a function with capabilities are effects; other calls are
    /// known.
    fn call_knowledge(&self, fk: &GraphKey) -> (k: KnowledgeState)
        ensures
            k == if self.graph.has(*fk) && self.graph.node(*fk).kind is Function
                && !self.graph.node(*fk).kind->Function_capabilities@.is_empty() {
                KnowledgeState::Effect
            } else {
                KnowledgeState::Known
            },
    {
        match self.graph.get_node_checked(*fk) {
            Some(n) => match &n.kind {
                NodeKind::Function { capabilities, .. } => if capabilities.is_empty() {
                    KnowledgeState::Known
                } else {
                    KnowledgeState::Effect
                },
                _ => KnowledgeState::Known,
            },
            None => KnowledgeState::Known,
        }
    }
}

/// `c` occurs in `s`, up to [`same_capability`].
pub open spec fn cap_in(s: Seq<Capability>, c: Capability) -> bool {
    exists|i: int| 0 <= i < s.len() && same_capability(#[trigger] s[i], c)
}

/// No capability occurs twice in `s`.
pub open spec fn caps_distinct(s: Seq<Capability>) -> bool {
    forall|i: int, j: int| 0 <= i < j < s.len() ==> !same_capability(#[trigger] s[i], #[trigger] s[j])
}

/// The capabilities, each once (the first occurrence kept, in order).
fn capability_list(caps: &Vec<Capability>) -> (r: Vec<Capability>)
    ensures
        caps_distinct(r@),
        forall|i: int| 0 <= i < caps@.len() ==> cap_in(r@, #[trigger] caps@[i]),
        forall|j: int| 0 <= j < r@.len() ==> cap_in(caps@, #[trigger] r@[j]),
{
    let mut r: Vec<Capability> = Vec::new();
    let mut i: usize = 0;
    while i < caps.len()
        invariant
            i <= caps@.len(),
            caps_distinct(r@),
            forall|k: int| 0 <= k < i ==> cap_in(r@, #[trigger] caps@[k]),
            forall|j: int| 0 <= j < r@.len() ==> cap_in(caps@, #[trigger] r@[j]),
        decreases caps@.len() - i,
    {
        let mut found = false;
        let mut j: usize = 0;
        while j < r.len()
            invariant
                i < caps@.len(),
                j <= r@.len(),
                found ==> cap_in(r@, caps@[i as int]),
                !found ==> forall|q: int| 0 <= q < j ==> !same_capability(#[trigger] r@[q], caps@[i as int]),
            decreases r@.len() - j,
        {
            if r[j].same_as(&caps[i]) {
                found = true;
            }
            j += 1;
        }
        if !found {
            let c = caps[i].copy();
            let ghost r0 = r@;
            r.push(c);
            proof {
                assert forall|a: int, b: int| 0 <= a < b < r@.len() implies !same_capability(#[trigger] r@[a], #[trigger] r@[b]) by {
                    if b == r0.len() {
                        assert(!same_capability(r0[a], caps@[i as int]));
                    } else {
                        assert(r@[a] == r0[a] && r@[b] == r0[b]);
                    }
                }
                assert forall|k: int| 0 <= k < i + 1 implies cap_in(r@, #[trigger] caps@[k]) by {
                    if k < i {
                        let q = choose|q: int| 0 <= q < r0.len() && same_capability(#[trigger] r0[q], caps@[k]);
                        assert(r@[q] == r0[q]);
                    } else {
                        assert(same_capability(r@[r0.len() as int], caps@[k]));
                    }
                }
                assert forall|q: int| 0 <= q < r@.len() implies cap_in(caps@, #[trigger] r@[q]) by {
                    if q < r0.len() {
                        assert(r@[q] == r0[q]);
                    } else {
                        assert(same_capability(caps@[i as int], r@[q]));
                    }
                }
            }
        } else {
            proof {
                assert forall|k: int| 0 <= k < i + 1 implies cap_in(r@, #[trigger] caps@[k]) by {
                    if k < i {
                    }
                }
            }
        }
        i += 1;
    }
    r
}

/// The capabilities as a set.
fn capability_set(caps: &Vec<Capability>) -> (s: HashSet<Capability>) {
    let mut s: HashSet<Capability> = HashSet::new();
    let mut i: usize = 0;
    while i < caps.len()
        invariant
            i <= caps@.len(),
        decreases caps@.len() - i,
    {
        s.insert(caps[i].clone());
        i += 1;
    }
    s
}


/// The keys all name nodes of `g`.
pub open spec fn all_present(g: KnowledgeGraph, ks: Seq<GraphKey>) -> bool {
    forall|i: int| 0 <= i < ks.len() ==> g.has(#[trigger] ks[i])
}

/// The keys of the bindings all name nodes of `g`.
pub open spec fn bindings_present(g: KnowledgeGraph, bs: Seq<(Identifier, GraphKey)>) -> bool {
    forall|i: int| 0 <= i < bs.len() ==> g.has(#[trigger] bs[i].1)
}

/// How many fields a struct pattern has (0 for other patterns).
pub open spec fn field_count(p: AstPattern) -> nat {
    match p.kind {
        AstPatternKind::Struct { fields, .. } => fields@.len(),
        _ => 0,
    }
}

/// The names a pattern binds, in order: a bound name, a variant's
/// parameter, the names the fields of a struct pattern bind.
pub open spec fn binders(p: AstPattern) -> Seq<Seq<char>>
    decreases p, field_count(p) + 1,
{
    match p.kind {
        AstPatternKind::Bind(n) => seq![n@],
        AstPatternKind::Variant { param, .. } => match param {
            Some(x) => seq![x@],
            None => Seq::empty(),
        },
        AstPatternKind::Struct { fields, .. } => fields_binders(p, fields@.len() as int),
        _ => Seq::empty(),
    }
}

/// The names the first `n` fields of struct pattern `p` bind.
pub open spec fn fields_binders(p: AstPattern, n: int) -> Seq<Seq<char>>
    decreases p, n,
{
    if p.kind is Struct && 0 < n <= p.kind->Struct_fields@.len() {
        proof {
            vstd::std_specs::vec::axiom_vec_index_decreases(p.kind->Struct_fields, n - 1);
        }
        fields_binders(p, n - 1) + binders(p.kind->Struct_fields@[n - 1].1)
    } else {
        Seq::empty()
    }
}

/// The names of the bindings.
pub open spec fn binding_names(bs: Seq<(Identifier, GraphKey)>) -> Seq<Seq<char>> {
    Seq::new(bs.len(), |i: int| bs[i].0.name@)
}

/// `g` is what converting `unit` into the graph `g0` gives: a well-formed,
/// closed graph whose function table holds exactly the unit's functions
/// (beside those of `g0`), each named by its node, with the entry point
/// set, and the body of each function whose name is unique converted from
/// its source.
pub open spec fn unit_converted(unit: AstTranslationUnit, g0: KnowledgeGraph, g: KnowledgeGraph) -> bool {
        &&& g.wf()
        &&& closed_graph(g)
        &&& functions_named(g)
        &&& forall|i: int|
            0 <= i < unit.functions@.len() ==> g.functions().contains_key(
                (#[trigger] unit.functions@[i]).name@,
            )
        &&& forall|n: Seq<char>| #[trigger] g.functions().contains_key(n) ==> g.has(g.functions()[n])
        &&& unit.functions@.len() > 0 ==> g.entry() == Some(g.functions()[entry_name(unit.functions@)])
        &&& forall|i: int|
            0 <= i < unit.functions@.len() && sole_name(unit.functions@, i) ==> body_converted(
                g,
                #[trigger] unit.functions@[i],
            )
        &&& unit.functions@.len() == 0 ==> g.entry() == g0.entry()
        &&& forall|n: Seq<char>|
            #[trigger] g.functions().contains_key(n) ==> g0.functions().contains_key(n) || exists|
                i: int,
            | 0 <= i < unit.functions@.len() && (#[trigger] unit.functions@[i]).name@ == n
}

impl AstConverter {
    /// The cells a destructuring pattern binds: a fresh identifier for each
    /// bound name, paired with the node it stands for.
    fn resolve_pattern(&mut self, pattern: &AstPattern) -> (r: Result<Vec<(Identifier, GraphKey)>, Vec<ConversionError>>)
        requires
            old(self).inv(),
        ensures
            used(final(self).graph_of()) <= used(old(self).graph_of()) + pattern_cost(*pattern),
            old(self).knows_all(pattern_names(*pattern)) && !graph_full(final(self).graph_of()) ==> r is Ok,
            old(self).knows_all(pattern_names(*pattern)) ==> (r matches Err(es) ==> only_full(es@)),
            r matches Err(es) ==> errors_named(es@, pattern_names(*pattern)),
            final(self).inv(),
            final(self).scope_stack@ == old(self).scope_stack@,
            grows(old(self).graph, final(self).graph),
            old(self).extended_by(*final(self)),
            r matches Err(e) ==> errors_sound(*old(self), *final(self), e@),
            r matches Ok(bs) ==> bindings_present(final(self).graph, bs@) && binding_names(bs@) == binders(*pattern),
            r matches Err(e) ==> e@.len() > 0,
        decreases pattern,
    {
        broadcast use group_scopes;
        let mut bindings: Vec<(Identifier, GraphKey)> = Vec::new();
        match &pattern.kind {
            AstPatternKind::Bind(name) => {
                let id = self.unique_id(name.as_str())?;
                let def = self.placeholder()?;
                bindings.push((id, def));
            },
            AstPatternKind::Variant { name: _, param } => {
                if let Some(p) = param {
                    let id = self.unique_id(p.as_str())?;
                    let def = self.convert_id(p.as_str(), &pattern.span)?;
                    bindings.push((id, def));
                }
            },
            AstPatternKind::Struct { name: _, fields } => {
                let ghost g0 = self.graph;
                let mut i: usize = 0;
                let ghost u1 = used(self.graph_of());
                while i < fields.len()
                    invariant
                        used(self.graph_of()) <= u1 + pfield_cost(fields@.subrange(0, i as int)),
                        u1 <= used(old(self).graph_of()),
                        pfield_cost(fields@.subrange(0, i as int)) <= pfield_cost(fields@),
                        pattern.kind == (AstPatternKind::Struct { name: pattern.kind->Struct_name, fields: *fields }),
                        self.inv(),
                        self.scope_stack@ == old(self).scope_stack@,
                        grows(old(self).graph, self.graph),
                        bindings_present(self.graph, bindings@),
                        i <= fields@.len(),
                        binding_names(bindings@) == fields_binders(*pattern, i as int),
                    decreases fields@.len() - i,
                {
                    proof {
                        assert(fields@.subrange(0, i + 1).subrange(0, i as int) =~= fields@.subrange(0, i as int));
                        assert(fields@.subrange(0, i + 1)[i as int] == fields@[i as int]);
                        lemma_pfield_cost_prefix(fields@, i + 1);
                    }
                    proof {
                        vstd::std_specs::vec::axiom_vec_index_decreases(*fields, i as int);
                        assert(decreases_to!(*pattern => pattern.kind));
                        assert(decreases_to!(pattern.kind => pattern.kind->Struct_fields));
                        assert(decreases_to!(*pattern => fields@[i as int].1));
                    }
                    let ghost before = self.graph;
                    let ghost prev = bindings@;
                    let ghost q = *self;
                    let mut sub = match self.resolve_pattern(&fields[i].1) {
                        Ok(x) => x,
                        Err(e) => {
                            proof {
                            lemma_pfield_names_has(fields@, i as int);
                            lemma_named_more(e@, pattern_names(fields@[i as int].1), pfield_names(fields@));
                            lemma_named_more(e@, pfield_names(fields@), pattern_names(*pattern));
                                if old(self).knows_all(pattern_names(*pattern)) {
                                    lemma_knows_sub(*old(self), *old(self), pattern_names(*pattern), pfield_names(fields@));
                                    lemma_pfield_names_has(fields@, i as int);
                                    lemma_knows_sub(*old(self), q, pfield_names(fields@), pattern_names(fields@[i as int].1));
                                }
                            }
                            return Err(e);
                        },
                    };
                    let ghost subv = sub@;
                    bindings.append(&mut sub);
                    proof {
                        assert(binding_names(bindings@) =~= binding_names(prev) + binding_names(subv));
                        assert(fields_binders(*pattern, i + 1) == fields_binders(*pattern, i as int) + binders(fields@[i as int].1));
                        assert forall|j: int| 0 <= j < bindings@.len() implies self.graph.has(#[trigger] bindings@[j].1) by {
                            if j < prev.len() {
                                assert(bindings@[j] == prev[j]);
                                assert(before.has(prev[j].1));
                            }
                        }
                    }
                    i += 1;
                }
                proof {
                    assert(fields@.subrange(0, fields@.len() as int) =~= fields@);
                }
            },
            AstPatternKind::Wildcard | AstPatternKind::Literal(_) => {},
        }
        Ok(bindings)
    }
}


/// The provider a provider name selects: `filesystem`, `git`, and the
/// environment for any other name.
pub open spec fn provider_named(n: Seq<char>) -> Provider {
    if n == seq!['f', 'i', 'l', 'e', 's', 'y', 's', 't', 'e', 'm'] {
        Provider::Filesystem
    } else if n == seq!['g', 'i', 't'] {
        Provider::Git
    } else {
        Provider::Environment
    }
}

/// The provider a provider name selects (see [`provider_named`]).
fn provider_of(name: &str) -> (p: Provider)
    ensures
        p == provider_named(name@),
{
    let cs = chars_of(name);
    let fs = vec!['f', 'i', 'l', 'e', 's', 'y', 's', 't', 'e', 'm'];
    let gt = vec!['g', 'i', 't'];
    assert(fs@ =~= seq!['f', 'i', 'l', 'e', 's', 'y', 's', 't', 'e', 'm']);
    assert(gt@ =~= seq!['g', 'i', 't']);
    if chars_eq(cs.as_slice(), fs.as_slice()) {
        Provider::Filesystem
    } else if chars_eq(cs.as_slice(), gt.as_slice()) {
        Provider::Git
    } else {
        Provider::Environment
    }
}

impl AstConverter {
    /// Converts each expression, collecting the errors of all that fail.
    fn convert_all(&mut self, es: &Vec<AstExpr>) -> (r: Result<Vec<GraphKey>, Vec<ConversionError>>)
        requires
            old(self).inv(),
        ensures
            used(final(self).graph_of()) <= used(old(self).graph_of()) + exprs_cost(es@),
            old(self).knows_all(exprs_names(es@)) && !graph_full(final(self).graph_of()) ==> r is Ok,
            old(self).knows_all(exprs_names(es@)) ==> (r matches Err(errs) ==> only_full(errs@)),
            r matches Err(errs) ==> errors_named(errs@, exprs_names(es@)),
            final(self).inv(),
            final(self).depth() >= old(self).depth(),
            r is Ok ==> final(self).depth() == old(self).depth(),
            grows(old(self).graph, final(self).graph),
            r matches Ok(ks) ==> all_present(final(self).graph, ks@) && ks@.len() == es@.len(),
            r matches Err(e) ==> e@.len() > 0,
            old(self).extended_by(*final(self)),
            r matches Err(e) ==> errors_sound(*old(self), *final(self), e@),
        decreases es, 0nat,
    {
        broadcast use group_scopes;
        let mut ks: Vec<GraphKey> = Vec::new();
        let mut errs: Vec<ConversionError> = Vec::new();
        let mut i: usize = 0;
        let ghost u1 = used(self.graph_of());
        while i < es.len()
            invariant
                used(self.graph_of()) <= u1 + exprs_cost(es@.subrange(0, i as int)),
                self.inv(),
                self.depth() >= old(self).depth(),
                errs@.len() == 0 ==> self.depth() == old(self).depth(),
                old(self).extended_by(*self),
                errors_sound(*old(self), *self, errs@),
                errors_named(errs@, exprs_names(es@)),
                old(self).knows_all(exprs_names(es@)) && errs@.len() > 0 ==> graph_full(self.graph_of()),
                old(self).knows_all(exprs_names(es@)) ==> only_full(errs@),
                errs@.len() == 0 ==> ks@.len() == i,
                grows(old(self).graph, self.graph),
                all_present(self.graph, ks@),
                i <= es@.len(),
            decreases es@.len() - i,
        {
            proof {
                assert(es@.subrange(0, i + 1).subrange(0, i as int) =~= es@.subrange(0, i as int));
                assert(es@.subrange(0, i + 1)[i as int] == es@[i as int]);
            }
            proof {
                vstd::std_specs::vec::axiom_vec_index_decreases(*es, i as int);
            }
            let ghost before = self.graph;
            let ghost pre = *self;
            let ghost ev = errs@;
            match self.convert_expr(&es[i]) {
                Ok(k) => {
                    proof {
                        lemma_sound_grow(*old(self), pre, *self, errs@);
                    }
                    ks.push(k);
                },
                Err(mut e) => {
                    let ghost mv = e@;
                    errs.append(&mut e);
                    proof {
                        lemma_sound_extend(*old(self), pre, pre, *self, ev, mv);
                        lemma_exprs_names_has(es@, i as int);
                        lemma_named_more(mv, expr_names(es@[i as int]), exprs_names(es@));
                        lemma_named_more(mv, exprs_names(es@), exprs_names(es@));
                        lemma_named_concat(ev, mv, exprs_names(es@));
                        if old(self).knows_all(exprs_names(es@)) {
                            lemma_knows_sub(*old(self), *old(self), exprs_names(es@), exprs_names(es@));
                            lemma_exprs_names_has(es@, i as int);
                            lemma_knows_sub(*old(self), pre, exprs_names(es@), expr_names(es@[i as int]));
                            lemma_only_full_concat(ev, mv);
                        }
                    }
                },
            }
            i += 1;
        }
        proof {
            assert(es@.subrange(0, es@.len() as int) =~= es@);
        }
        if errs.len() > 0 {
            return Err(errs);
        }
        Ok(ks)
    }

    /// Converts a statement.
    fn convert_stmt(&mut self, stmt: &AstStmt) -> (r: Result<GraphKey, Vec<ConversionError>>)
        requires
            old(self).inv(),
        ensures
            used(final(self).graph_of()) <= used(old(self).graph_of()) + stmt_cost(*stmt),
            old(self).knows_all(stmt_names(*stmt)) && !graph_full(final(self).graph_of()) ==> r is Ok,
            old(self).knows_all(stmt_names(*stmt)) ==> (r matches Err(es) ==> only_full(es@)),
            r matches Err(es) ==> errors_named(es@, stmt_names(*stmt)),
            converted(*old(self), *final(self), r),
            r matches Ok(k) ==> stmt_node(final(self).graph_of(), *stmt, final(self).graph_of().node(k)),
            stmt.kind matches AstStmtKind::Bind { name, .. } ==> (r matches Ok(k) ==> final(self).scope_stack@.last()@.last().0@
                == name@ && final(self).scope_stack@.last()@.last().1 == k),
            stmt.kind matches AstStmtKind::Bind { name, .. } ==> (r is Ok ==> final(self).knows(name@)),
        decreases stmt, 0nat,
    {
        broadcast use group_scopes;
        match &stmt.kind {
            AstStmtKind::Bind { type_: ty, name, value } => {
                let vk = self.convert_expr(value)?;
                let vtype = self.get_type(&vk);
                let btype = match ty {
                    Some(s) => type_from_str(s.as_str()),
                    None => vtype,
                };
                let bname = self.unique_id(name.as_str())?;
                let mut deps: Vec<GraphKey> = Vec::new();
                deps.push(vk);
                let key = self.mk_node(NodeKind::Binding { name: bname, def: vk }, btype, KnowledgeState::Known, deps, &stmt.span)?;
                self.bind(name.clone(), key);
                Ok(key)
            },
            AstStmtKind::Discard(inner) => {
                let ik = self.convert_expr(inner)?;
                let t = self.get_type(&ik);
                let mut deps: Vec<GraphKey> = Vec::new();
                deps.push(ik);
                self.mk_node(NodeKind::Discard { source: ik }, t, KnowledgeState::Known, deps, &stmt.span)
            },
            AstStmtKind::Destructure { pattern, source } => {
                let sk = self.convert_expr(source)?;
                let bindings = self.resolve_pattern(pattern)?;
                let mut deps: Vec<GraphKey> = Vec::new();
                deps.push(sk);
                self.mk_node(
                    NodeKind::Destructure { pattern: convert_ast_pattern(pattern), source: sk, bindings },
                    Type::Void,
                    KnowledgeState::Known,
                    deps,
                    &stmt.span,
                )
            },
            AstStmtKind::Expr(e) => self.convert_expr(e),
            AstStmtKind::Return(v) => match v {
                Some(inner) => {
                    let ik = self.convert_expr(inner)?;
                    let mut deps: Vec<GraphKey> = Vec::new();
                    deps.push(ik);
                    self.mk_node(NodeKind::EarlyReturn { value: ik }, Type::Void, KnowledgeState::Known, deps, &stmt.span)
                },
                None => {
                    let null = self.lit(LiteralValue::Null, &Type::Null)?;
                    let mut deps: Vec<GraphKey> = Vec::new();
                    deps.push(null);
                    self.mk_node(NodeKind::EarlyReturn { value: null }, Type::Void, KnowledgeState::Known, deps, &stmt.span)
                },
            },
            AstStmtKind::Break => self.mk_node(NodeKind::Break, Type::Void, KnowledgeState::Known, Vec::new(), &stmt.span),
            AstStmtKind::Continue => self.mk_node(NodeKind::Continue, Type::Void, KnowledgeState::Known, Vec::new(), &stmt.span),
        }
    }

    /// Converts a block in a scope of its own and records its statement
    /// layout under its root: the last statement (the tail expression when
    /// there is one), or a placeholder for an empty block.
    fn convert_block(&mut self, block: &AstBlock) -> (r: Result<GraphKey, Vec<ConversionError>>)
        requires
            old(self).inv(),
        ensures
            used(final(self).graph_of()) <= used(old(self).graph_of()) + block_cost(*block),
            old(self).knows_all(block_names(*block)) && !graph_full(final(self).graph_of()) ==> r is Ok,
            old(self).knows_all(block_names(*block)) ==> (r matches Err(es) ==> only_full(es@)),
            r matches Err(es) ==> errors_named(es@, block_names(*block)),
            converted(*old(self), *final(self), r),
            block.ret matches Some(e) ==> (r matches Ok(k) ==> expr_node(*e, final(self).graph_of().node(k))),
        decreases block, 0nat,
    {
        broadcast use group_scopes;
        self.enter_scope();
        let ghost e0 = *self;
        let ghost d1 = self.depth();
        let ghost ss = block.statements@;
        let ghost tail_names = if block.ret is Some {
            expr_names(*block.ret->Some_0)
        } else {
            Set::empty()
        };
        proof {
            assert(ss.subrange(0, ss.len() as int) =~= ss);
            if old(self).knows_all(block_names(*block)) {
                lemma_knows_sub(*old(self), e0, block_names(*block), block_names(*block));
            }
        }
        let mut anchors: Vec<GraphKey> = Vec::new();
        let mut tail: Option<GraphKey> = None;
        let mut i: usize = 0;
        let ghost u1 = used(self.graph_of());
        while i < block.statements.len()
            invariant
                used(self.graph_of()) <= u1 + stmts_cost(block.statements@.subrange(0, i as int)),
                u1 <= used(old(self).graph_of()),
                stmts_cost(block.statements@.subrange(0, i as int)) <= stmts_cost(block.statements@),
                self.inv(),
                self.depth() == d1,
                d1 == old(self).depth() + 1,
                grows(old(self).graph, self.graph),
                old(self).extended_by(e0),
                e0.extended_by(*self),
                all_present(self.graph, anchors@),
                i <= block.statements@.len(),
                ss == block.statements@,
                tail_names == (if block.ret is Some {
                    expr_names(*block.ret->Some_0)
                } else {
                    Set::empty()
                }),
                old(self).knows_all(block_names(*block)) ==> self.knows_all(
                    stmts_free(ss.subrange(i as int, ss.len() as int), tail_names),
                ),
                forall|n: Seq<char>|
                    #[trigger] stmts_free(ss.subrange(i as int, ss.len() as int), tail_names).contains(n) ==> block_names(
                        *block,
                    ).contains(n) || self.knows(n),
            decreases block.statements@.len() - i,
        {
            proof {
                assert(block.statements@.subrange(0, i + 1).subrange(0, i as int) =~= block.statements@.subrange(0, i as int));
                assert(block.statements@.subrange(0, i + 1)[i as int] == block.statements@[i as int]);
                lemma_stmts_cost_prefix(block.statements@, i + 1);
            }
            proof {
                vstd::std_specs::vec::axiom_vec_index_decreases(block.statements, i as int);
                assert(decreases_to!(*block => block.statements));
            }
            let ghost q = *self;
            let ghost rest = ss.subrange(i as int, ss.len() as int);
            let ghost next = ss.subrange(i + 1, ss.len() as int);
            proof {
                assert(rest[0] == ss[i as int]);
                assert(rest.subrange(1, rest.len() as int) =~= next);
            }
            let k = match self.convert_stmt(&block.statements[i]) {
                Ok(x) => x,
                Err(e) => {
                    proof {
                        lemma_sound_back(*old(self), q, *self, e@);
                        if old(self).knows_all(block_names(*block)) {
                            lemma_knows_sub(q, q, stmts_free(rest, tail_names), stmt_names(ss[i as int]));
                        }
                        assert forall|k: int| 0 <= k < e@.len() implies ((#[trigger] e@[k]) matches ConversionError::UndefinedIdentifier(
                            n,
                            _,
                        ) ==> block_names(*block).contains(n@)) by {
                            if let ConversionError::UndefinedIdentifier(n, _) = e@[k] {
                                assert(stmt_names(ss[i as int]).contains(n@));
                                assert(stmts_free(rest, tail_names).contains(n@));
                            }
                        }
                    }
                    return Err(e);
                },
            };
            proof {
                if old(self).knows_all(block_names(*block)) {
                    assert forall|n: Seq<char>| #[trigger] stmts_free(next, tail_names).contains(n) implies self.knows(n) by {
                        if !stmt_binds(ss[i as int]).contains(n) {
                            assert(stmts_free(rest, tail_names).contains(n));
                            AstConverter::lemma_extended_knows(q, *self, n);
                        }
                    }
                }
                assert forall|n: Seq<char>| #[trigger] stmts_free(next, tail_names).contains(n) implies block_names(
                    *block,
                ).contains(n) || self.knows(n) by {
                    if !stmt_binds(ss[i as int]).contains(n) {
                        assert(stmts_free(rest, tail_names).contains(n));
                        AstConverter::lemma_extended_knows(q, *self, n);
                    }
                }
            }
            anchors.push(k);
            i += 1;
        }
        proof {
            assert(block.statements@.subrange(0, block.statements@.len() as int) =~= block.statements@);
        }
        let ghost mut g_tail = self.graph;
        proof {
            assert(ss.subrange(i as int, ss.len() as int).len() == 0);
        }
        if let Some(ret) = &block.ret {
            let ghost q = *self;
            let k = match self.convert_expr(ret) {
                Ok(x) => x,
                Err(e) => {
                    proof {
                        lemma_sound_back(*old(self), q, *self, e@);
                        assert forall|k: int| 0 <= k < e@.len() implies ((#[trigger] e@[k]) matches ConversionError::UndefinedIdentifier(
                            n,
                            _,
                        ) ==> block_names(*block).contains(n@)) by {
                            if let ConversionError::UndefinedIdentifier(n, _) = e@[k] {
                                assert(tail_names.contains(n@));
                                assert(stmts_free(ss.subrange(i as int, ss.len() as int), tail_names).contains(n@));
                            }
                        }
                    }
                    return Err(e);
                },
            };
            anchors.push(k);
            tail = Some(k);
            proof {
                g_tail = self.graph;
            }
        }
        proof {
            assert(block.ret matches Some(e) ==> (tail matches Some(k) && g_tail.has(k) && expr_node(*e, g_tail.node(k))));
        }
        let fallback = self.placeholder()?;
        let root_key = if anchors.len() > 0 {
            anchors[anchors.len() - 1]
        } else {
            fallback
        };
        let ghost c0 = *self;
        self.graph.set_block_info(root_key, BlockInfo { anchors, tail });
        proof {
            assert(grows(old(self).graph, self.graph));
            Self::lemma_extended_refl(c0, *self);
        }
        let ghost c1 = *self;
        self.exit_scope();
        proof {
            Self::lemma_exit_extended(*old(self), e0, c1, *self);
            if let Some(k) = tail {
                crate::graph::lemma_grows_has(g_tail, self.graph, k);
                assert(root_key == k);
            }
        }
        Ok(root_key)
    }

    /// Converts a range; a missing end becomes the literal 0.
    fn convert_range(&mut self, range: &AstRange) -> (r: Result<GraphKey, Vec<ConversionError>>)
        requires
            old(self).inv(),
        ensures
            used(final(self).graph_of()) <= used(old(self).graph_of()) + range_cost(*range),
            old(self).knows_all(range_names(*range)) && !graph_full(final(self).graph_of()) ==> r is Ok,
            old(self).knows_all(range_names(*range)) ==> (r matches Err(es) ==> only_full(es@)),
            r matches Err(es) ==> errors_named(es@, range_names(*range)),
            converted(*old(self), *final(self), r),
        decreases range, 0nat,
    {
        broadcast use group_scopes;
        let start_k = match &range.start {
            Some(st) => Some(self.convert_expr(st)?),
            None => None,
        };
        let end_k = match &range.end {
            Some(en) => Some(self.convert_expr(en)?),
            None => None,
        };
        let mut deps: Vec<GraphKey> = Vec::new();
        if let Some(k) = start_k {
            deps.push(k);
        }
        if let Some(k) = end_k {
            deps.push(k);
        }
        let s_key = match start_k {
            Some(k) => k,
            None => self.zero_literal()?,
        };
        let e_key = match end_k {
            Some(k) => k,
            None => self.zero_literal()?,
        };
        let s_type = self.get_type(&s_key);
        let e_type = self.get_type(&e_key);
        let type_ = match (&s_type, &e_type) {
            (Type::Numeric(st), Type::Numeric(et)) => match numeric_result_type(st, BinOp::Add, et) {
                ResultType::Numeric(nt) => Type::Numeric(nt),
                ResultType::Bool => Type::Bool,
                ResultType::Error(_) => Type::Void,
            },
            _ => s_type,
        };
        self.add(
            NodeKind::Range { start: s_key, end: e_key, closed: range.closed },
            type_,
            KnowledgeState::Known,
            deps,
            HashSet::new(),
            HashSet::new(),
            Provenance::Inferred,
            Span::unknown(),
        )
    }

    /// The literal 0 as a 64-bit signed integer.
    fn zero_literal(&mut self) -> (r: Result<GraphKey, Vec<ConversionError>>)
        requires
            old(self).inv(),
        ensures
            used(final(self).graph_of()) <= used(old(self).graph_of()) + 2,
            r is Err ==> graph_full(final(self).graph_of()),
            r matches Err(e) ==> only_full(e@),
            converted(*old(self), *final(self), r),
            final(self).scope_stack@ == old(self).scope_stack@,
    {
        broadcast use group_scopes;
        self.add(
            NodeKind::Literal(LiteralValue::Int { value: 0, width: IntWidth::B64, signed: true }),
            Type::Numeric(NumericType::Int(IntWidth::B64)),
            KnowledgeState::Known,
            Vec::new(),
            HashSet::new(),
            HashSet::new(),
            Provenance::Inferred,
            Span::unknown(),
        )
    }

    /// A `Null` literal node.
    fn null_literal(&mut self) -> (r: Result<GraphKey, Vec<ConversionError>>)
        requires
            old(self).inv(),
        ensures
            used(final(self).graph_of()) <= used(old(self).graph_of()) + 2,
            r is Err ==> graph_full(final(self).graph_of()),
            r matches Err(e) ==> only_full(e@),
            converted(*old(self), *final(self), r),
            final(self).scope_stack@ == old(self).scope_stack@,
    {
        broadcast use group_scopes;
        self.add(
            NodeKind::Literal(LiteralValue::Null),
            Type::Null,
            KnowledgeState::Known,
            Vec::new(),
            HashSet::new(),
            HashSet::new(),
            Provenance::Inferred,
            Span::unknown(),
        )
    }
}


fn keys1(a: GraphKey) -> (r: Vec<GraphKey>)
    ensures
        r@ == seq![a],
{
    let mut r: Vec<GraphKey> = Vec::new();
    r.push(a);
    r
}

fn keys2(a: GraphKey, b: GraphKey) -> (r: Vec<GraphKey>)
    ensures
        r@ == seq![a, b],
{
    let mut r: Vec<GraphKey> = Vec::new();
    r.push(a);
    r.push(b);
    r
}

fn keys_with(a: GraphKey, rest: &Vec<GraphKey>) -> (r: Vec<GraphKey>)
    ensures
        r@ == seq![a] + rest@,
{
    let mut r: Vec<GraphKey> = Vec::new();
    r.push(a);
    let mut i: usize = 0;
    while i < rest.len()
        invariant
            i <= rest@.len(),
            r@ == seq![a] + rest@.take(i as int),
        decreases rest@.len() - i,
    {
        r.push(rest[i]);
        assert(seq![a] + rest@.take(i + 1) =~= (seq![a] + rest@.take(i as int)).push(rest@[i as int]));
        i += 1;
    }
    assert(rest@.take(i as int) =~= rest@);
    r
}

proof fn lemma_all_present_concat(g: KnowledgeGraph, a: GraphKey, rest: Seq<GraphKey>)
    requires
        g.has(a),
        all_present(g, rest),
    ensures
        all_present(g, seq![a] + rest),
{
    assert forall|i: int| 0 <= i < (seq![a] + rest).len() implies g.has(#[trigger] (seq![a] + rest)[i]) by {
        if i > 0 {
            assert((seq![a] + rest)[i] == rest[i - 1]);
        }
    }
}

proof fn lemma_all_present_grows(a: KnowledgeGraph, b: KnowledgeGraph, ks: Seq<GraphKey>)
    requires
        grows(a, b),
        all_present(a, ks),
    ensures
        all_present(b, ks),
{
    assert forall|i: int| 0 <= i < ks.len() implies b.has(#[trigger] ks[i]) by {
        assert(a.has(ks[i]));
    }
}

impl AstConverter {
    /// Converts an expression into graph nodes and returns the key of the
    /// node that stands for it.
    fn convert_expr(&mut self, expr: &AstExpr) -> (r: Result<GraphKey, Vec<ConversionError>>)
        requires
            old(self).inv(),
        ensures
            used(final(self).graph_of()) <= used(old(self).graph_of()) + expr_cost(*expr),
            old(self).knows_all(expr_names(*expr)) && !graph_full(final(self).graph_of()) ==> r is Ok,
            old(self).knows_all(expr_names(*expr)) ==> (r matches Err(es) ==> only_full(es@)),
            r matches Err(es) ==> errors_named(es@, expr_names(*expr)),
            converted(*old(self), *final(self), r),
            r matches Ok(k) ==> expr_node(*expr, final(self).graph_of().node(k)),
            r matches Ok(k) ==> expr_children(final(self).graph_of(), *expr, final(self).graph_of().node(k)),
        decreases expr, 1nat,
    {
        broadcast use group_scopes;
        match expr {
            AstExpr::Call { .. } => self.convert_call(expr),
            AstExpr::If { .. } => self.convert_if(expr),
            AstExpr::Match { .. } => self.convert_match(expr),
            AstExpr::For { .. } => self.convert_for(expr),
            AstExpr::StructLit { .. } => self.convert_struct_lit(expr),
            AstExpr::MapLit(..) => self.convert_map_lit(expr),
            AstExpr::FString(..) => self.convert_f_string(expr),
            AstExpr::With { .. } => self.convert_with(expr),
            AstExpr::Id(..) => self.convert_leaf(expr),
            AstExpr::Literal { .. } => self.convert_leaf(expr),
            AstExpr::FloatLit { .. } => self.convert_leaf(expr),
            AstExpr::StrLit { .. } => self.convert_leaf(expr),
            AstExpr::BoolLit(..) => self.convert_leaf(expr),
            AstExpr::NullLit(..) => self.convert_leaf(expr),
            AstExpr::CharLit(..) => self.convert_leaf(expr),
            AstExpr::Location(..) => self.convert_leaf(expr),
            AstExpr::RawString(..) => self.convert_leaf(expr),
            AstExpr::ByteString(..) => self.convert_leaf(expr),
            AstExpr::Todo(..) => self.convert_leaf(expr),
            AstExpr::Unimplemented(..) => self.convert_leaf(expr),
            AstExpr::Span(..) => self.convert_leaf(expr),
            AstExpr::UnaryOp { .. } => self.convert_unary(expr),
            AstExpr::Rt(..) => self.convert_unary(expr),
            AstExpr::AtResidual { .. } => self.convert_unary(expr),
            AstExpr::EarlyReturn(..) => self.convert_unary(expr),
            AstExpr::Known(..) => self.convert_unary(expr),
            AstExpr::RtKnown(..) => self.convert_unary(expr),
            AstExpr::ComptimePrint(..) => self.convert_unary(expr),
            AstExpr::Discard(..) => self.convert_unary(expr),
            AstExpr::Using { .. } => self.convert_unary(expr),
            AstExpr::FieldAccess { .. } => self.convert_unary(expr),
            AstExpr::BinaryOp { .. } => self.convert_binary(expr),
            AstExpr::While { .. } => self.convert_binary(expr),
            AstExpr::Index { .. } => self.convert_binary(expr),
            AstExpr::Slice { .. } => self.convert_binary(expr),
            AstExpr::Assert { .. } => self.convert_binary(expr),
            AstExpr::RtAssert { .. } => self.convert_binary(expr),
            AstExpr::ElseFallback { .. } => self.convert_binary(expr),
            AstExpr::WhileLet { .. } => self.convert_binary(expr),
            AstExpr::Range { .. } => self.convert_binary(expr),
            AstExpr::ForIn { .. } => self.convert_other(expr),
            AstExpr::Destructure { .. } => self.convert_other(expr),
            AstExpr::IfLet { .. } => self.convert_other(expr),
            AstExpr::ListLit(..) => self.convert_other(expr),
            AstExpr::SetLit(..) => self.convert_other(expr),
            AstExpr::MethodCall { .. } => self.convert_other(expr),
            AstExpr::ProviderCall { .. } => self.convert_other(expr),
            AstExpr::Spawn { .. } => self.convert_other(expr),
        }
    }

    fn convert_leaf(&mut self, expr: &AstExpr) -> (r: Result<GraphKey, Vec<ConversionError>>)
        requires
            old(self).inv(),
            expr is Id || expr is Literal || expr is FloatLit || expr is StrLit || expr is BoolLit || expr is NullLit || expr is CharLit || expr is Location || expr is RawString || expr is ByteString || expr is Todo || expr is Unimplemented || expr is Span,
        ensures
            used(final(self).graph_of()) <= used(old(self).graph_of()) + expr_cost(*expr),
            old(self).knows_all(expr_names(*expr)) && !graph_full(final(self).graph_of()) ==> r is Ok,
            old(self).knows_all(expr_names(*expr)) ==> (r matches Err(es) ==> only_full(es@)),
            r matches Err(es) ==> errors_named(es@, expr_names(*expr)),
            converted(*old(self), *final(self), r),
            r matches Ok(k) ==> expr_node(*expr, final(self).graph_of().node(k)),
        decreases expr, 0nat,
    {
        broadcast use group_scopes;
        match expr {
            AstExpr::Id(name) => self.convert_id(name.as_str(), &Span::unknown()),
            AstExpr::Literal { value, kind: _, span } => self.mk_node(
                NodeKind::Literal(LiteralValue::Int { value: *value, width: IntWidth::B64, signed: true }),
                Type::Numeric(NumericType::Int(IntWidth::B64)),
                KnowledgeState::Known,
                Vec::new(),
                span,
            ),
            AstExpr::FloatLit { value, span } => self.mk_node(
                NodeKind::Literal(LiteralValue::Float { value: value.clone(), width: FloatWidth::F64 }),
                Type::Numeric(NumericType::Float(FloatWidth::F64)),
                KnowledgeState::Known,
                Vec::new(),
                span,
            ),
            AstExpr::StrLit { value, span } => self.mk_node(
                NodeKind::Literal(LiteralValue::Str(value.clone())),
                Type::Str,
                KnowledgeState::Known,
                Vec::new(),
                span,
            ),
            AstExpr::BoolLit(v, span) => self.mk_node(
                NodeKind::Literal(LiteralValue::Bool(*v)),
                Type::Bool,
                KnowledgeState::Known,
                Vec::new(),
                span,
            ),
            AstExpr::NullLit(span) => self.mk_node(
                NodeKind::Literal(LiteralValue::Null),
                Type::Null,
                KnowledgeState::Known,
                Vec::new(),
                span,
            ),
            AstExpr::CharLit(c, span) => self.mk_node(
                NodeKind::Literal(LiteralValue::Char(*c)),
                Type::Numeric(NumericType::Int(IntWidth::B16)),
                KnowledgeState::Known,
                Vec::new(),
                span,
            ),
            AstExpr::Location(span) => self.mk_node(
                NodeKind::Location,
                Type::SourceLoc,
                KnowledgeState::Known,
                Vec::new(),
                span,
            ),
            AstExpr::RawString(v, span) => self.mk_node(
                NodeKind::RawString(v.clone()),
                Type::Str,
                KnowledgeState::Known,
                Vec::new(),
                span,
            ),
            AstExpr::ByteString(v, span) => self.mk_node(
                NodeKind::ByteString(v.clone()),
                Type::Bytes,
                KnowledgeState::Known,
                Vec::new(),
                span,
            ),
            AstExpr::Todo(span) => self.mk_node(NodeKind::Todo, Type::Void, KnowledgeState::Invalid, Vec::new(), span),
            AstExpr::Unimplemented(span) => self.mk_node(
                NodeKind::Unimplemented,
                Type::Void,
                KnowledgeState::Invalid,
                Vec::new(),
                span,
            ),
            AstExpr::Span(span) => self.mk_node(
                NodeKind::Literal(LiteralValue::Null),
                Type::Void,
                KnowledgeState::Known,
                Vec::new(),
                span,
            ),
            _ => {
                proof {
                    assert(false);
                }
                Err(Vec::new())
            },
        }
    }

    fn convert_unary(&mut self, expr: &AstExpr) -> (r: Result<GraphKey, Vec<ConversionError>>)
        requires
            old(self).inv(),
            expr is UnaryOp || expr is Rt || expr is AtResidual || expr is EarlyReturn || expr is Known || expr is RtKnown || expr is ComptimePrint || expr is Discard || expr is Using || expr is FieldAccess,
        ensures
            used(final(self).graph_of()) <= used(old(self).graph_of()) + expr_cost(*expr),
            old(self).knows_all(expr_names(*expr)) && !graph_full(final(self).graph_of()) ==> r is Ok,
            old(self).knows_all(expr_names(*expr)) ==> (r matches Err(es) ==> only_full(es@)),
            r matches Err(es) ==> errors_named(es@, expr_names(*expr)),
            converted(*old(self), *final(self), r),
            r matches Ok(k) ==> expr_node(*expr, final(self).graph_of().node(k)),
            r matches Ok(k) ==> expr_children(final(self).graph_of(), *expr, final(self).graph_of().node(k)),
        decreases expr, 0nat,
    {
        broadcast use group_scopes;
        match expr {
            AstExpr::UnaryOp { op, operand, span } => {
                let ok = self.convert_expr(operand)?;
                let ot = self.get_type(&ok);
                let rt = unary_type(op, &ot);
                self.mk_node(
                    NodeKind::UnaryOp { op: op.copy(), operand: ok },
                    rt,
                    KnowledgeState::Known,
                    keys1(ok),
                    span,
                )
            },
            AstExpr::Rt(inner, span) => {
                let ik = self.convert_expr(inner)?;
                let it = self.get_type(&ik);
                self.add(
                    NodeKind::Rt(ik),
                    Type::Residual(Box::new(it)),
                    KnowledgeState::Residual,
                    keys1(ik),
                    HashSet::new(),
                    HashSet::new(),
                    Provenance::Residual,
                    span.copy(),
                )
            },
            AstExpr::AtResidual { type_, inner, span } => {
                let ik = self.convert_expr(inner)?;
                self.mk_node(
                    NodeKind::AtResidual { type_: type_.copy(), inner: ik },
                    type_.copy(),
                    KnowledgeState::Residual,
                    keys1(ik),
                    span,
                )
            },
            AstExpr::EarlyReturn(inner, span) => {
                let ik = self.convert_expr(inner)?;
                self.mk_node(NodeKind::EarlyReturn { value: ik }, Type::Void, KnowledgeState::Known, keys1(ik), span)
            },
            AstExpr::Known(inner, span) => {
                let ik = self.convert_expr(inner)?;
                let t = self.get_type(&ik);
                self.mk_node(NodeKind::Known(ik), t, KnowledgeState::Known, keys1(ik), span)
            },
            AstExpr::RtKnown(inner, span) => {
                let ik = self.convert_expr(inner)?;
                let t = self.get_type(&ik);
                self.mk_node(NodeKind::RtKnown(ik), t, KnowledgeState::Residual, keys1(ik), span)
            },
            AstExpr::ComptimePrint(inner, span) => {
                let ik = self.convert_expr(inner)?;
                self.mk_node(NodeKind::ComptimePrint(ik), Type::Void, KnowledgeState::Known, keys1(ik), span)
            },
            AstExpr::Discard(inner, span) => {
                let ik = self.convert_expr(inner)?;
                let t = self.get_type(&ik);
                self.mk_node(NodeKind::Discard { source: ik }, t, KnowledgeState::Known, keys1(ik), span)
            },
            AstExpr::Using { value, behavior, span } => {
                let vk = self.convert_expr(value)?;
                let t = self.get_type(&vk);
                let bname = Identifier::new(behavior.as_str(), self.graph.peek_id());
                self.mk_node(
                    NodeKind::Using { value: vk, behavior: BehaviorRef { name: bname, type_params: Vec::new() } },
                    t,
                    KnowledgeState::Known,
                    keys1(vk),
                    span,
                )
            },
            AstExpr::FieldAccess { target, field, span } => {
                let tk = self.convert_expr(target)?;
                let fid = Identifier::new(field.as_str(), self.graph.peek_id());
                self.mk_node(NodeKind::FieldAccess { target: tk, field: fid }, Type::Void, KnowledgeState::Known, keys1(tk), span)
            },
            _ => {
                proof {
                    assert(false);
                }
                Err(Vec::new())
            },
        }
    }

    #[verifier::rlimit(40)]
    fn convert_binary(&mut self, expr: &AstExpr) -> (r: Result<GraphKey, Vec<ConversionError>>)
        requires
            old(self).inv(),
            expr is BinaryOp || expr is While || expr is Index || expr is Slice || expr is Assert || expr is RtAssert || expr is ElseFallback || expr is WhileLet || expr is Range,
        ensures
            used(final(self).graph_of()) <= used(old(self).graph_of()) + expr_cost(*expr),
            old(self).knows_all(expr_names(*expr)) && !graph_full(final(self).graph_of()) ==> r is Ok,
            old(self).knows_all(expr_names(*expr)) ==> (r matches Err(es) ==> only_full(es@)),
            r matches Err(es) ==> errors_named(es@, expr_names(*expr)),
            converted(*old(self), *final(self), r),
            r matches Ok(k) ==> expr_node(*expr, final(self).graph_of().node(k)),
            r matches Ok(k) ==> expr_children(final(self).graph_of(), *expr, final(self).graph_of().node(k)),
        decreases expr, 0nat,
    {
        broadcast use group_scopes;
        match expr {
            AstExpr::BinaryOp { op, lhs, rhs, span } => {
                let lk = self.convert_expr(lhs)?;
                let ghost g1 = self.graph;
                let rk = self.convert_expr(rhs)?;
                let ghost g2 = self.graph;
                let (rt, ks) = self.binop_type(&lk, op, &rk);
                let r = self.mk_node(NodeKind::BinaryOp { op: *op, lhs: lk, rhs: rk }, rt, ks, keys2(lk, rk), span);
                proof {
                    assert(grows(g1, g2));
                }
                r
            },
            AstExpr::While { cond, body, span } => {
                let ck = self.convert_expr(cond)?;
                let bk = self.convert_block(body)?;
                self.mk_node(NodeKind::While { cond: ck, body: bk }, Type::Void, KnowledgeState::Known, keys2(ck, bk), span)
            },
            AstExpr::Index { target, index, span } => {
                let tk = self.convert_expr(target)?;
                let ik = self.convert_expr(index)?;
                self.mk_node(NodeKind::Index { target: tk, index: ik }, Type::Void, KnowledgeState::Known, keys2(tk, ik), span)
            },
            AstExpr::Slice { target, range, span } => {
                let tk = self.convert_expr(target)?;
                let rk = self.convert_range(range)?;
                self.mk_node(NodeKind::Slice { target: tk, range: rk }, Type::Void, KnowledgeState::Known, keys2(tk, rk), span)
            },
            AstExpr::Assert { cond, message, span } => {
                let ck = self.convert_expr(cond)?;
                let mk = self.convert_expr(message)?;
                self.mk_node(NodeKind::Assert { cond: ck, message: mk }, Type::Void, KnowledgeState::Known, keys2(ck, mk), span)
            },
            AstExpr::RtAssert { cond, message, span } => {
                let ck = self.convert_expr(cond)?;
                let mk = self.convert_expr(message)?;
                self.mk_node(
                    NodeKind::RtAssert { cond: ck, message: mk },
                    Type::Void,
                    KnowledgeState::Residual,
                    keys2(ck, mk),
                    span,
                )
            },
            AstExpr::ElseFallback { value, fallback, span } => {
                let vk = self.convert_expr(value)?;
                let fk = self.convert_block(fallback)?;
                self.mk_node(
                    NodeKind::ElseFallback { value: vk, fallback: fk },
                    Type::Void,
                    KnowledgeState::Known,
                    keys2(vk, fk),
                    span,
                )
            },
            AstExpr::WhileLet { pattern: _, source, body, span } => {
                let sk = self.convert_expr(source)?;
                let bk = self.convert_block(body)?;
                self.mk_node(NodeKind::While { cond: sk, body: bk }, Type::Void, KnowledgeState::Known, keys2(sk, bk), span)
            },
            AstExpr::Range { start, end, closed, span } => {
                let sk = self.convert_expr(start)?;
                let ek = self.convert_expr(end)?;
                let st = self.get_type(&sk);
                let et = self.get_type(&ek);
                self.mk_node(
                    NodeKind::Range { start: sk, end: ek, closed: *closed },
                    Type::Range { start_type: Box::new(st), end_type: Box::new(et), closed: *closed },
                    KnowledgeState::Known,
                    keys2(sk, ek),
                    span,
                )
            },
            _ => {
                proof {
                    assert(false);
                }
                Err(Vec::new())
            },
        }
    }

    fn convert_other(&mut self, expr: &AstExpr) -> (r: Result<GraphKey, Vec<ConversionError>>)
        requires
            old(self).inv(),
            expr is ForIn || expr is Destructure || expr is IfLet || expr is ListLit || expr is SetLit || expr is MethodCall || expr is ProviderCall || expr is Spawn,
        ensures
            used(final(self).graph_of()) <= used(old(self).graph_of()) + expr_cost(*expr),
            old(self).knows_all(expr_names(*expr)) && !graph_full(final(self).graph_of()) ==> r is Ok,
            old(self).knows_all(expr_names(*expr)) ==> (r matches Err(es) ==> only_full(es@)),
            r matches Err(es) ==> errors_named(es@, expr_names(*expr)),
            converted(*old(self), *final(self), r),
            r matches Ok(k) ==> expr_node(*expr, final(self).graph_of().node(k)),
        decreases expr, 0nat,
    {
        broadcast use group_scopes;
        match expr {
            AstExpr::ForIn { type_: _, name, collection, body, span } => {
                let ik = self.convert_expr(collection)?;
                let bk = self.convert_block(body)?;
                let ghost a0 = *self;
                self.enter_scope();
                let ghost e0 = *self;
                let _lv = self.unique_id(name.as_str())?;
                let ghost c1 = *self;
                self.exit_scope();
                proof {
                    Self::lemma_exit_extended(a0, e0, c1, *self);
                }
                let lname = Identifier::new(name.as_str(), self.graph.peek_id());
                self.mk_node(
                    NodeKind::ForIn { iter: ik, name: lname, body: bk },
                    Type::Void,
                    KnowledgeState::Known,
                    keys2(ik, bk),
                    span,
                )
            },
            AstExpr::Destructure { pattern, source, span } => {
                let sk = self.convert_expr(source)?;
                let bindings = self.resolve_pattern(pattern)?;
                self.mk_node(
                    NodeKind::Destructure { pattern: convert_ast_pattern(pattern), source: sk, bindings },
                    Type::Void,
                    KnowledgeState::Known,
                    keys1(sk),
                    span,
                )
            },
            AstExpr::IfLet { pattern: _, source, then_block, else_block, span } => {
                let sk = self.convert_expr(source)?;
                let tk = self.convert_block(then_block)?;
                let ek = match else_block {
                    Some(bl) => Some(self.convert_block(bl)?),
                    None => None,
                };
                self.mk_node(
                    NodeKind::If { cond: sk, then_branch: tk, else_branch: ek },
                    Type::Void,
                    KnowledgeState::Known,
                    keys2(sk, tk),
                    span,
                )
            },
            AstExpr::ListLit(elts, span) => {
                proof {
                    assert(decreases_to!(*expr => *elts));
                }
                let ek = self.convert_all(elts)?;
                let et = if ek.len() > 0 {
                    self.get_type(&ek[0])
                } else {
                    Type::Void
                };
                let deps = copy_keys(&ek);
                self.mk_node(NodeKind::List { elements: ek }, Type::List(Box::new(et)), KnowledgeState::Known, deps, span)
            },
            AstExpr::SetLit(elts, span) => {
                proof {
                    assert(decreases_to!(*expr => *elts));
                }
                let ek = self.convert_all(elts)?;
                let et = if ek.len() > 0 {
                    self.get_type(&ek[0])
                } else {
                    Type::Void
                };
                let deps = copy_keys(&ek);
                self.mk_node(NodeKind::SetOf { elements: ek }, Type::SetOf(Box::new(et)), KnowledgeState::Known, deps, span)
            },
            AstExpr::MethodCall { target, method, args, span } => {
                let tk = self.convert_expr(target)?;
                proof {
                    assert(decreases_to!(*expr => *args));
                }
                let aks = self.convert_all(args)?;
                let deps = keys_with(tk, &aks);
                proof {
                    lemma_all_present_concat(self.graph, tk, aks@);
                }
                let mid = Identifier::new(method.as_str(), self.graph.peek_id());
                self.mk_node(NodeKind::MethodCall { target: tk, method: mid, args: aks }, Type::Void, KnowledgeState::Known, deps, span)
            },
            AstExpr::ProviderCall { provider, verb, args, span } => {
                let prov = provider_of(provider.as_str());
                proof {
                    assert(decreases_to!(*expr => *args));
                }
                let aks = self.convert_all(args)?;
                let deps = copy_keys(&aks);
                let mut effects: HashSet<Effect> = HashSet::new();
                effects.insert(Effect::Provider(prov));
                let vname = Identifier::new(verb.as_str(), self.graph.peek_id());
                self.add(
                    NodeKind::ProviderCall { provider: prov, verb: vname, args: aks },
                    Type::Str,
                    KnowledgeState::Effect,
                    deps,
                    effects,
                    HashSet::new(),
                    Provenance::Provider(prov),
                    span.copy(),
                )
            },
            AstExpr::Spawn { capabilities, body, span } => {
                let bk = self.convert_block(body)?;
                let mut effects: HashSet<Effect> = HashSet::new();
                effects.insert(Effect::ConcurrencySpawn);
                let prov = Provenance::Source { file: span.file.clone(), line: span.line, col_start: span.col_start };
                self.add(
                    NodeKind::Spawn { capabilities: capability_list(capabilities), body: bk, ret: Type::Void },
                    Type::Void,
                    KnowledgeState::Effect,
                    keys1(bk),
                    effects,
                    capability_set(capabilities),
                    prov,
                    span.copy(),
                )
            },
            _ => {
                proof {
                    assert(false);
                }
                Err(Vec::new())
            },
        }
    }

    fn convert_call(&mut self, expr: &AstExpr) -> (r: Result<GraphKey, Vec<ConversionError>>)
        requires
            old(self).inv(),
            expr is Call,
        ensures
            used(final(self).graph_of()) <= used(old(self).graph_of()) + expr_cost(*expr),
            old(self).knows_all(expr_names(*expr)) && !graph_full(final(self).graph_of()) ==> r is Ok,
            old(self).knows_all(expr_names(*expr)) ==> (r matches Err(es) ==> only_full(es@)),
            r matches Err(es) ==> errors_named(es@, expr_names(*expr)),
            converted(*old(self), *final(self), r),
            r matches Ok(k) ==> expr_node(*expr, final(self).graph_of().node(k)),
        decreases expr, 0nat,
    {
        broadcast use group_scopes;
        match expr {
            AstExpr::Call { func, args, span } => {
                let fk = match &**func {
                    AstExpr::Id(name) => match self.lookup(name.as_str()) {
                        Some(k) => k,
                        None => self.ad_hoc_function(name.as_str(), span)?,
                    },
                    _ => self.convert_expr(func)?,
                };
                let ghost g1 = self.graph;
                let mut aks: Vec<GraphKey> = Vec::new();
                let mut errs: Vec<ConversionError> = Vec::new();
                let mut i: usize = 0;
                let ghost u1 = used(self.graph_of());
                while i < args.len()
                    invariant
                        used(self.graph_of()) <= u1 + arg_cost(args@.subrange(0, i as int)),
                        *expr == (AstExpr::Call { func: *func, args: *args, span: *span }),
                        self.inv(),
                        self.depth() >= old(self).depth(),
                        errs@.len() == 0 ==> self.depth() == old(self).depth(),
                        old(self).extended_by(*self),
                        errors_sound(*old(self), *self, errs@),
                        errors_named(errs@, expr_names(*expr)),
                        old(self).knows_all(expr_names(*expr)) && errs@.len() > 0 ==> graph_full(self.graph_of()),
                        old(self).knows_all(expr_names(*expr)) ==> only_full(errs@),
                        grows(old(self).graph, self.graph),
                        self.graph.has(fk),
                        all_present(self.graph, aks@),
                        errs@.len() == 0 ==> aks@.len() == i,
                        i <= args@.len(),
                    decreases args@.len() - i,
                {
                    proof {
                        assert(args@.subrange(0, i + 1).subrange(0, i as int) =~= args@.subrange(0, i as int));
                        assert(args@.subrange(0, i + 1)[i as int] == args@[i as int]);
                    }
                    proof {
                        vstd::std_specs::vec::axiom_vec_index_decreases(*args, i as int);
                        assert(decreases_to!(*expr => expr->Call_args));
                        assert(decreases_to!(*expr => args@[i as int].1));
                    }
                    let ghost before = self.graph;
                    let ghost pre = *self;
                    let ghost ev = errs@;
                    match self.convert_expr(&args[i].1) {
                        Ok(k) => {
                            proof {
                                lemma_sound_grow(*old(self), pre, *self, errs@);
                            }
                            proof {
                                lemma_all_present_grows(before, self.graph, aks@);
                            }
                            aks.push(k);
                        },
                        Err(mut e) => {
                            proof {
                                lemma_all_present_grows(before, self.graph, aks@);
                            }
                            let ghost mv = e@;
                            errs.append(&mut e);
                            proof {
                                lemma_sound_extend(*old(self), pre, pre, *self, ev, mv);
                                lemma_arg_names_has(args@, i as int);
                                lemma_named_more(mv, expr_names(args@[i as int].1), arg_names(args@));
                                lemma_named_more(mv, arg_names(args@), expr_names(*expr));
                                lemma_named_concat(ev, mv, expr_names(*expr));
                                if old(self).knows_all(expr_names(*expr)) {
                                    lemma_knows_sub(*old(self), *old(self), expr_names(*expr), arg_names(args@));
                                    lemma_arg_names_has(args@, i as int);
                                    lemma_knows_sub(*old(self), pre, arg_names(args@), expr_names(args@[i as int].1));
                                    lemma_only_full_concat(ev, mv);
                                }
                            }
                        },
                    }
                    i += 1;
                }
                proof {
                    assert(args@.subrange(0, args@.len() as int) =~= args@);
                }
                if errs.len() > 0 {
                    return Err(errs);
                }
                let rt = self.call_ret_type(&fk);
                let kn = self.call_knowledge(&fk);
                let deps = keys_with(fk, &aks);
                proof {
                    lemma_all_present_concat(self.graph, fk, aks@);
                }
                self.mk_node(NodeKind::Call { func: fk, args: aks }, rt, kn, deps, span)
            },
            _ => {
                proof {
                    assert(false);
                }
                Err(Vec::new())
            },
        }
    }

    fn convert_if(&mut self, expr: &AstExpr) -> (r: Result<GraphKey, Vec<ConversionError>>)
        requires
            old(self).inv(),
            expr is If,
        ensures
            used(final(self).graph_of()) <= used(old(self).graph_of()) + expr_cost(*expr),
            old(self).knows_all(expr_names(*expr)) && !graph_full(final(self).graph_of()) ==> r is Ok,
            old(self).knows_all(expr_names(*expr)) ==> (r matches Err(es) ==> only_full(es@)),
            r matches Err(es) ==> errors_named(es@, expr_names(*expr)),
            converted(*old(self), *final(self), r),
            r matches Ok(k) ==> expr_node(*expr, final(self).graph_of().node(k)),
            r matches Ok(k) ==> expr_children(final(self).graph_of(), *expr, final(self).graph_of().node(k)),
        decreases expr, 0nat,
    {
        broadcast use group_scopes;
        match expr {
            AstExpr::If { cond, then_block, else_block, span } => {
                let ck = self.convert_expr(cond)?;
                let tk = self.convert_block(then_block)?;
                let ek = match else_block {
                    Some(bl) => Some(self.convert_block(bl)?),
                    None => None,
                };
                let tt = self.get_type(&tk);
                let et = match ek {
                    Some(k) => self.get_type(&k),
                    None => Type::Void,
                };
                let result_type = if tt.same_as(&et) {
                    tt
                } else {
                    Type::Option(Box::new(tt))
                };
                let mut deps = keys2(ck, tk);
                if let Some(k) = ek {
                    deps.push(k);
                }
                self.mk_node(
                    NodeKind::If { cond: ck, then_branch: tk, else_branch: ek },
                    result_type,
                    KnowledgeState::Known,
                    deps,
                    span,
                )
            },
            _ => {
                proof {
                    assert(false);
                }
                Err(Vec::new())
            },
        }
    }

    fn convert_match(&mut self, expr: &AstExpr) -> (r: Result<GraphKey, Vec<ConversionError>>)
        requires
            old(self).inv(),
            expr is Match,
        ensures
            used(final(self).graph_of()) <= used(old(self).graph_of()) + expr_cost(*expr),
            old(self).knows_all(expr_names(*expr)) && !graph_full(final(self).graph_of()) ==> r is Ok,
            old(self).knows_all(expr_names(*expr)) ==> (r matches Err(es) ==> only_full(es@)),
            r matches Err(es) ==> errors_named(es@, expr_names(*expr)),
            converted(*old(self), *final(self), r),
            r matches Ok(k) ==> expr_node(*expr, final(self).graph_of().node(k)),
        decreases expr, 0nat,
    {
        broadcast use group_scopes;
        match expr {
            AstExpr::Match { scrutinee, arms, span } => {
                let sk = self.convert_expr(scrutinee)?;
                let mut ak: Vec<(Pattern, GraphKey)> = Vec::new();
                let mut keys: Vec<GraphKey> = Vec::new();
                let mut i: usize = 0;
                let ghost u1 = used(self.graph_of());
                while i < arms.len()
                    invariant
                        used(self.graph_of()) <= u1 + arm_cost(arms@.subrange(0, i as int)),
                        u1 <= used(old(self).graph_of()) + expr_cost(**scrutinee),
                        arm_cost(arms@.subrange(0, i as int)) <= arm_cost(arms@),
                        *expr == (AstExpr::Match { scrutinee: *scrutinee, arms: *arms, span: *span }),
                        self.inv(),
                        self.depth() == old(self).depth(),
                        grows(old(self).graph, self.graph),
                        old(self).extended_by(*self),
                        self.graph.has(sk),
                        all_present(self.graph, keys@),
                        ak@.len() == keys@.len(),
                        ak@.len() == i,
                        forall|j: int| 0 <= j < keys@.len() ==> #[trigger] ak@[j].1 == keys@[j],
                        i <= arms@.len(),
                    decreases arms@.len() - i,
                {
                    proof {
                        assert(arms@.subrange(0, i + 1).subrange(0, i as int) =~= arms@.subrange(0, i as int));
                        assert(arms@.subrange(0, i + 1)[i as int] == arms@[i as int]);
                        lemma_arm_cost_prefix(arms@, i + 1);
                    }
                    proof {
                        vstd::std_specs::vec::axiom_vec_index_decreases(*arms, i as int);
                        assert(decreases_to!(*expr => expr->Match_arms));
                        assert(decreases_to!(*expr => arms@[i as int].1));
                    }
                    let ghost before = self.graph;
                    let ghost q = *self;
                    let k = match self.convert_expr(&arms[i].1) {
                        Ok(x) => x,
                        Err(e) => {
                            proof {
                                lemma_sound_back(*old(self), q, *self, e@);
                                lemma_arm_names_has(arms@, i as int);
                                lemma_named_more(e@, expr_names(arms@[i as int].1), arm_names(arms@));
                                lemma_named_more(e@, arm_names(arms@), expr_names(*expr));
                                if old(self).knows_all(expr_names(*expr)) {
                                    lemma_knows_sub(*old(self), *old(self), expr_names(*expr), arm_names(arms@));
                                    lemma_arm_names_has(arms@, i as int);
                                    lemma_knows_sub(*old(self), q, arm_names(arms@), expr_names(arms@[i as int].1));
                                }
                            }
                            return Err(e);
                        },
                    };
                    proof {
                        lemma_all_present_grows(before, self.graph, keys@);
                    }
                    ak.push((convert_ast_pattern(&arms[i].0), k));
                    keys.push(k);
                    i += 1;
                }
                proof {
                    assert(arms@.subrange(0, arms@.len() as int) =~= arms@);
                }
                let deps = keys_with(sk, &keys);
                proof {
                    lemma_all_present_concat(self.graph, sk, keys@);
                }
                self.mk_node(
                    NodeKind::Match { scrutinee: sk, arms: ak, default_arm: None },
                    Type::Void,
                    KnowledgeState::Known,
                    deps,
                    span,
                )
            },
            _ => {
                proof {
                    assert(false);
                }
                Err(Vec::new())
            },
        }
    }

    fn convert_for(&mut self, expr: &AstExpr) -> (r: Result<GraphKey, Vec<ConversionError>>)
        requires
            old(self).inv(),
            expr is For,
        ensures
            used(final(self).graph_of()) <= used(old(self).graph_of()) + expr_cost(*expr),
            old(self).knows_all(expr_names(*expr)) && !graph_full(final(self).graph_of()) ==> r is Ok,
            old(self).knows_all(expr_names(*expr)) ==> (r matches Err(es) ==> only_full(es@)),
            r matches Err(es) ==> errors_named(es@, expr_names(*expr)),
            converted(*old(self), *final(self), r),
            r matches Ok(k) ==> expr_node(*expr, final(self).graph_of().node(k)),
        decreases expr, 0nat,
    {
        broadcast use group_scopes;
        match expr {
            AstExpr::For { init, cond, step, body, span } => {
                let init_k = match init {
                    Some(st) => self.convert_stmt(st)?,
                    None => self.null_literal()?,
                };
                let ck = self.convert_expr(cond)?;
                let step_k = match step {
                    Some(st) => self.convert_stmt(st)?,
                    None => self.null_literal()?,
                };
                let bk = self.convert_block(body)?;
                let mut deps = keys2(init_k, ck);
                deps.push(step_k);
                deps.push(bk);
                self.mk_node(
                    NodeKind::For { init: init_k, cond: ck, step: step_k, body: bk },
                    Type::Void,
                    KnowledgeState::Known,
                    deps,
                    span,
                )
            },
            _ => {
                proof {
                    assert(false);
                }
                Err(Vec::new())
            },
        }
    }

    fn convert_struct_lit(&mut self, expr: &AstExpr) -> (r: Result<GraphKey, Vec<ConversionError>>)
        requires
            old(self).inv(),
            expr is StructLit,
        ensures
            used(final(self).graph_of()) <= used(old(self).graph_of()) + expr_cost(*expr),
            old(self).knows_all(expr_names(*expr)) && !graph_full(final(self).graph_of()) ==> r is Ok,
            old(self).knows_all(expr_names(*expr)) ==> (r matches Err(es) ==> only_full(es@)),
            r matches Err(es) ==> errors_named(es@, expr_names(*expr)),
            converted(*old(self), *final(self), r),
            r matches Ok(k) ==> expr_node(*expr, final(self).graph_of().node(k)),
        decreases expr, 0nat,
    {
        broadcast use group_scopes;
        match expr {
            AstExpr::StructLit { name, fields, span } => {
                let sid = Identifier::new(name.as_str(), self.graph.peek_id());
                let mut fps: Vec<(Identifier, GraphKey)> = Vec::new();
                let mut errs: Vec<ConversionError> = Vec::new();
                let mut i: usize = 0;
                let ghost u1 = used(self.graph_of());
                while i < fields.len()
                    invariant
                        used(self.graph_of()) <= u1 + field_cost(fields@.subrange(0, i as int)),
                        u1 <= used(old(self).graph_of()),
                        field_cost(fields@.subrange(0, i as int)) <= field_cost(fields@),
                        *expr == (AstExpr::StructLit { name: *name, fields: *fields, span: *span }),
                        self.inv(),
                        self.depth() >= old(self).depth(),
                        errs@.len() == 0 ==> self.depth() == old(self).depth(),
                        old(self).extended_by(*self),
                        errors_sound(*old(self), *self, errs@),
                        errors_named(errs@, expr_names(*expr)),
                        old(self).knows_all(expr_names(*expr)) && errs@.len() > 0 ==> graph_full(self.graph_of()),
                        old(self).knows_all(expr_names(*expr)) ==> only_full(errs@),
                        grows(old(self).graph, self.graph),
                        bindings_present(self.graph, fps@),
                        errs@.len() == 0 ==> fps@.len() == i,
                        i <= fields@.len(),
                    decreases fields@.len() - i,
                {
                    proof {
                        assert(fields@.subrange(0, i + 1).subrange(0, i as int) =~= fields@.subrange(0, i as int));
                        assert(fields@.subrange(0, i + 1)[i as int] == fields@[i as int]);
                        lemma_field_cost_prefix(fields@, i + 1);
                    }
                    proof {
                        vstd::std_specs::vec::axiom_vec_index_decreases(*fields, i as int);
                        assert(decreases_to!(*expr => expr->StructLit_fields));
                        assert(decreases_to!(*expr => fields@[i as int].1));
                    }
                    let ghost before = self.graph;
                    let ghost prev = fps@;
                    let ghost pre = *self;
                    let ghost ev = errs@;
                    match self.convert_expr(&fields[i].1) {
                        Ok(k) => {
                            let ghost q = *self;
                            let fid = match self.unique_id(fields[i].0.as_str()) {
                                Ok(x) => x,
                                Err(e) => {
                                    proof {
                                        lemma_sound_back(*old(self), q, *self, e@);
                                    }
                                    return Err(e);
                                },
                            };
                            proof {
                                lemma_sound_grow(*old(self), pre, *self, errs@);
                            }
                            fps.push((fid, k));
                            proof {
                                assert forall|j: int| 0 <= j < fps@.len() implies self.graph.has(#[trigger] fps@[j].1) by {
                                    if j < prev.len() {
                                        assert(fps@[j] == prev[j]);
                                        assert(before.has(prev[j].1));
                                    }
                                }
                            }
                        },
                        Err(mut e) => {
                            let ghost mv = e@;
                            errs.append(&mut e);
                            proof {
                                lemma_sound_extend(*old(self), pre, pre, *self, ev, mv);
                                lemma_field_names_has(fields@, i as int);
                                lemma_named_more(mv, expr_names(fields@[i as int].1), field_names(fields@));
                                lemma_named_more(mv, field_names(fields@), expr_names(*expr));
                                lemma_named_concat(ev, mv, expr_names(*expr));
                                if old(self).knows_all(expr_names(*expr)) {
                                    lemma_knows_sub(*old(self), *old(self), expr_names(*expr), field_names(fields@));
                                    lemma_field_names_has(fields@, i as int);
                                    lemma_knows_sub(*old(self), pre, field_names(fields@), expr_names(fields@[i as int].1));
                                    lemma_only_full_concat(ev, mv);
                                }
                                assert forall|j: int| 0 <= j < fps@.len() implies self.graph.has(#[trigger] fps@[j].1) by {
                                    assert(before.has(fps@[j].1));
                                }
                            }
                        },
                    }
                    i += 1;
                }
                proof {
                    assert(fields@.subrange(0, fields@.len() as int) =~= fields@);
                }
                if errs.len() > 0 {
                    return Err(errs);
                }
                let mut ftypes: Vec<(Identifier, Type)> = Vec::new();
                let mut fps2: Vec<(Identifier, GraphKey)> = Vec::new();
                let mut deps: Vec<GraphKey> = Vec::new();
                let mut j: usize = 0;
                while j < fps.len()
                    invariant
                        j <= fps@.len(),
                        deps@.len() == j,
                        fps2@.len() == j,
                        forall|t: int| 0 <= t < j ==> #[trigger] deps@[t] == fps@[t].1,
                    decreases fps@.len() - j,
                {
                    ftypes.push((fps[j].0.copy(), self.get_type(&fps[j].1)));
                    fps2.push((fps[j].0.copy(), fps[j].1));
                    deps.push(fps[j].1);
                    j += 1;
                }
                proof {
                    assert forall|t: int| 0 <= t < deps@.len() implies self.graph.has(#[trigger] deps@[t]) by {
                        assert(deps@[t] == fps@[t].1);
                    }
                }
                let ft = Type::Struct(sid.copy(), ftypes);
                self.mk_node(NodeKind::Struct { name: sid, fields: fps2 }, ft, KnowledgeState::Known, deps, span)
            },
            _ => {
                proof {
                    assert(false);
                }
                Err(Vec::new())
            },
        }
    }

    fn convert_map_lit(&mut self, expr: &AstExpr) -> (r: Result<GraphKey, Vec<ConversionError>>)
        requires
            old(self).inv(),
            expr is MapLit,
        ensures
            used(final(self).graph_of()) <= used(old(self).graph_of()) + expr_cost(*expr),
            old(self).knows_all(expr_names(*expr)) && !graph_full(final(self).graph_of()) ==> r is Ok,
            old(self).knows_all(expr_names(*expr)) ==> (r matches Err(es) ==> only_full(es@)),
            r matches Err(es) ==> errors_named(es@, expr_names(*expr)),
            converted(*old(self), *final(self), r),
            r matches Ok(k) ==> expr_node(*expr, final(self).graph_of().node(k)),
        decreases expr, 0nat,
    {
        broadcast use group_scopes;
        match expr {
            AstExpr::MapLit(entries, span) => {
                let mut eps: Vec<(GraphKey, GraphKey)> = Vec::new();
                let mut deps: Vec<GraphKey> = Vec::new();
                let mut errs: Vec<ConversionError> = Vec::new();
                let mut i: usize = 0;
                let ghost u1 = used(self.graph_of());
                while i < entries.len()
                    invariant
                        used(self.graph_of()) <= u1 + entry_cost(entries@.subrange(0, i as int)),
                        *expr == AstExpr::MapLit(*entries, *span),
                        self.inv(),
                        self.depth() >= old(self).depth(),
                        errs@.len() == 0 ==> self.depth() == old(self).depth(),
                        old(self).extended_by(*self),
                        errors_sound(*old(self), *self, errs@),
                        errors_named(errs@, expr_names(*expr)),
                        old(self).knows_all(expr_names(*expr)) && errs@.len() > 0 ==> graph_full(self.graph_of()),
                        old(self).knows_all(expr_names(*expr)) ==> only_full(errs@),
                        grows(old(self).graph, self.graph),
                        all_present(self.graph, deps@),
                        errs@.len() == 0 ==> eps@.len() == i,
                        i <= entries@.len(),
                    decreases entries@.len() - i,
                {
                    proof {
                        assert(entries@.subrange(0, i + 1).subrange(0, i as int) =~= entries@.subrange(0, i as int));
                        assert(entries@.subrange(0, i + 1)[i as int] == entries@[i as int]);
                    }
                    proof {
                        vstd::std_specs::vec::axiom_vec_index_decreases(*entries, i as int);
                        assert(decreases_to!(*expr => expr->MapLit_0));
                        assert(decreases_to!(*expr => entries@[i as int].0));
                        assert(decreases_to!(*expr => entries@[i as int].1));
                    }
                    let ghost before = self.graph;
                    let ghost pre = *self;
                    let ghost ev = errs@;
                    match self.convert_expr(&entries[i].0) {
                        Ok(kk) => {
                            proof {
                                lemma_sound_grow(*old(self), pre, *self, errs@);
                            }
                            let ghost mid = self.graph;
                            let ghost q = *self;
                            match self.convert_expr(&entries[i].1) {
                                Ok(vk) => {
                                    proof {
                                        lemma_all_present_grows(before, self.graph, deps@);
                                        lemma_sound_grow(*old(self), pre, *self, errs@);
                                    }
                                    eps.push((kk, vk));
                                    deps.push(kk);
                                    deps.push(vk);
                                    proof {
                                        assert(self.graph.has(kk));
                                    }
                                },
                                Err(mut e) => {
                                    proof {
                                        lemma_all_present_grows(before, self.graph, deps@);
                                    }
                                    let ghost mv = e@;
                                    errs.append(&mut e);
                                    proof {
                                        lemma_sound_extend(*old(self), pre, q, *self, ev, mv);
                                        lemma_entry_names_has(entries@, i as int);
                                        lemma_named_more(mv, expr_names(entries@[i as int].1), entry_names(entries@));
                                        lemma_named_more(mv, entry_names(entries@), expr_names(*expr));
                                        lemma_named_concat(ev, mv, expr_names(*expr));
                                        if old(self).knows_all(expr_names(*expr)) {
                                            lemma_knows_sub(*old(self), *old(self), expr_names(*expr), entry_names(entries@));
                                            lemma_entry_names_has(entries@, i as int);
                                            lemma_knows_sub(*old(self), q, entry_names(entries@), expr_names(entries@[i as int].1));
                                            lemma_only_full_concat(ev, mv);
                                        }
                                    }
                                },
                            }
                        },
                        Err(mut e) => {
                            proof {
                                lemma_all_present_grows(before, self.graph, deps@);
                            }
                            let ghost mv = e@;
                            errs.append(&mut e);
                            proof {
                                lemma_sound_extend(*old(self), pre, pre, *self, ev, mv);
                                lemma_entry_names_has(entries@, i as int);
                                lemma_named_more(mv, expr_names(entries@[i as int].0), entry_names(entries@));
                                lemma_named_more(mv, entry_names(entries@), expr_names(*expr));
                                lemma_named_concat(ev, mv, expr_names(*expr));
                                if old(self).knows_all(expr_names(*expr)) {
                                    lemma_knows_sub(*old(self), *old(self), expr_names(*expr), entry_names(entries@));
                                    lemma_entry_names_has(entries@, i as int);
                                    lemma_knows_sub(*old(self), pre, entry_names(entries@), expr_names(entries@[i as int].0));
                                    lemma_only_full_concat(ev, mv);
                                }
                            }
                        },
                    }
                    i += 1;
                }
                proof {
                    assert(entries@.subrange(0, entries@.len() as int) =~= entries@);
                }
                if errs.len() > 0 {
                    return Err(errs);
                }
                self.mk_node(NodeKind::MapOf { entries: eps }, Type::Void, KnowledgeState::Known, deps, span)
            },
            _ => {
                proof {
                    assert(false);
                }
                Err(Vec::new())
            },
        }
    }

    fn convert_f_string(&mut self, expr: &AstExpr) -> (r: Result<GraphKey, Vec<ConversionError>>)
        requires
            old(self).inv(),
            expr is FString,
        ensures
            used(final(self).graph_of()) <= used(old(self).graph_of()) + expr_cost(*expr),
            old(self).knows_all(expr_names(*expr)) && !graph_full(final(self).graph_of()) ==> r is Ok,
            old(self).knows_all(expr_names(*expr)) ==> (r matches Err(es) ==> only_full(es@)),
            r matches Err(es) ==> errors_named(es@, expr_names(*expr)),
            converted(*old(self), *final(self), r),
            r matches Ok(k) ==> expr_node(*expr, final(self).graph_of().node(k)),
        decreases expr, 0nat,
    {
        broadcast use group_scopes;
        match expr {
            AstExpr::FString(parts, span) => {
                let mut pns: Vec<FStringPartNode> = Vec::new();
                let mut deps: Vec<GraphKey> = Vec::new();
                let mut errs: Vec<ConversionError> = Vec::new();
                let mut i: usize = 0;
                let ghost u1 = used(self.graph_of());
                while i < parts.len()
                    invariant
                        used(self.graph_of()) <= u1 + part_cost(parts@.subrange(0, i as int)),
                        *expr == AstExpr::FString(*parts, *span),
                        self.inv(),
                        self.depth() >= old(self).depth(),
                        errs@.len() == 0 ==> self.depth() == old(self).depth(),
                        old(self).extended_by(*self),
                        errors_sound(*old(self), *self, errs@),
                        errors_named(errs@, expr_names(*expr)),
                        old(self).knows_all(expr_names(*expr)) && errs@.len() > 0 ==> graph_full(self.graph_of()),
                        old(self).knows_all(expr_names(*expr)) ==> only_full(errs@),
                        grows(old(self).graph, self.graph),
                        all_present(self.graph, deps@),
                        i <= parts@.len(),
                    decreases parts@.len() - i,
                {
                    proof {
                        assert(parts@.subrange(0, i + 1).subrange(0, i as int) =~= parts@.subrange(0, i as int));
                        assert(parts@.subrange(0, i + 1)[i as int] == parts@[i as int]);
                    }
                    proof {
                        vstd::std_specs::vec::axiom_vec_index_decreases(*parts, i as int);
                        assert(decreases_to!(*expr => expr->FString_0));
                        assert(decreases_to!(*expr => parts@[i as int]));
                    }
                    match &parts[i] {
                        AstFStringPart::Text(t) => {
                            pns.push(FStringPartNode { text: t.clone(), expr: None });
                        },
                        AstFStringPart::Expr(e) => {
                            let ghost before = self.graph;
                            let ghost pre = *self;
                            let ghost ev = errs@;
                            match self.convert_expr(e) {
                                Ok(k) => {
                                    proof {
                                        lemma_sound_grow(*old(self), pre, *self, errs@);
                                    }
                                    proof {
                                        lemma_all_present_grows(before, self.graph, deps@);
                                    }
                                    pns.push(FStringPartNode { text: String::new(), expr: Some(k) });
                                    deps.push(k);
                                },
                                Err(mut e2) => {
                                    proof {
                                        lemma_all_present_grows(before, self.graph, deps@);
                                    }
                                    let ghost mv = e2@;
                                    errs.append(&mut e2);
                                    proof {
                                        lemma_sound_extend(*old(self), pre, pre, *self, ev, mv);
                                        lemma_part_names_has(parts@, i as int);
                                        lemma_named_more(mv, expr_names(**e), part_names(parts@));
                                        lemma_named_more(mv, part_names(parts@), expr_names(*expr));
                                        lemma_named_concat(ev, mv, expr_names(*expr));
                                        if old(self).knows_all(expr_names(*expr)) {
                                            lemma_knows_sub(*old(self), *old(self), expr_names(*expr), part_names(parts@));
                                            lemma_part_names_has(parts@, i as int);
                                            lemma_knows_sub(*old(self), pre, part_names(parts@), expr_names(**e));
                                            lemma_only_full_concat(ev, mv);
                                        }
                                    }
                                },
                            }
                        },
                    }
                    i += 1;
                }
                proof {
                    assert(parts@.subrange(0, parts@.len() as int) =~= parts@);
                }
                if errs.len() > 0 {
                    return Err(errs);
                }
                self.mk_node(NodeKind::FString { parts: pns }, Type::Str, KnowledgeState::Known, deps, span)
            },
            _ => {
                proof {
                    assert(false);
                }
                Err(Vec::new())
            },
        }
    }

    fn convert_with(&mut self, expr: &AstExpr) -> (r: Result<GraphKey, Vec<ConversionError>>)
        requires
            old(self).inv(),
            expr is With,
        ensures
            used(final(self).graph_of()) <= used(old(self).graph_of()) + expr_cost(*expr),
            old(self).knows_all(expr_names(*expr)) && !graph_full(final(self).graph_of()) ==> r is Ok,
            old(self).knows_all(expr_names(*expr)) ==> (r matches Err(es) ==> only_full(es@)),
            r matches Err(es) ==> errors_named(es@, expr_names(*expr)),
            converted(*old(self), *final(self), r),
            r matches Ok(k) ==> expr_node(*expr, final(self).graph_of().node(k)),
        decreases expr, 0nat,
    {
        broadcast use group_scopes;
        match expr {
            AstExpr::With { bindings, body, span } => {
                let bk = self.convert_block(body)?;
                let mut bns: Vec<WithBindingNode> = Vec::new();
                let mut inits: Vec<GraphKey> = Vec::new();
                let mut errs: Vec<ConversionError> = Vec::new();
                let mut i: usize = 0;
                let ghost u1 = used(self.graph_of());
                while i < bindings.len()
                    invariant
                        used(self.graph_of()) <= u1 + with_cost(bindings@.subrange(0, i as int)),
                        u1 <= used(old(self).graph_of()) + block_cost(*body),
                        with_cost(bindings@.subrange(0, i as int)) <= with_cost(bindings@),
                        *expr == (AstExpr::With { bindings: *bindings, body: *body, span: *span }),
                        self.inv(),
                        self.depth() >= old(self).depth(),
                        errs@.len() == 0 ==> self.depth() == old(self).depth(),
                        old(self).extended_by(*self),
                        errors_sound(*old(self), *self, errs@),
                        errors_named(errs@, expr_names(*expr)),
                        old(self).knows_all(expr_names(*expr)) && errs@.len() > 0 ==> graph_full(self.graph_of()),
                        old(self).knows_all(expr_names(*expr)) ==> only_full(errs@),
                        grows(old(self).graph, self.graph),
                        self.graph.has(bk),
                        all_present(self.graph, inits@),
                        i <= bindings@.len(),
                    decreases bindings@.len() - i,
                {
                    proof {
                        assert(bindings@.subrange(0, i + 1).subrange(0, i as int) =~= bindings@.subrange(0, i as int));
                        assert(bindings@.subrange(0, i + 1)[i as int] == bindings@[i as int]);
                        lemma_with_cost_prefix(bindings@, i + 1);
                    }
                    proof {
                        vstd::std_specs::vec::axiom_vec_index_decreases(*bindings, i as int);
                        assert(decreases_to!(*expr => expr->With_bindings));
                        assert(decreases_to!(*expr => bindings@[i as int].init));
                    }
                    let ghost before = self.graph;
                    let ghost pre = *self;
                    let ghost ev = errs@;
                    match self.convert_expr(&bindings[i].init) {
                        Ok(ik) => {
                            proof {
                                lemma_sound_grow(*old(self), pre, *self, errs@);
                            }
                            let t = match &bindings[i].type_ {
                                Some(ts) => type_from_str(ts.as_str()),
                                None => Type::Void,
                            };
                            let ghost mid = self.graph;
                            let ghost q = *self;
                            let nm = match self.unique_id(bindings[i].name.as_str()) {
                                Ok(x) => x,
                                Err(e) => {
                                    proof {
                                        lemma_sound_back(*old(self), q, *self, e@);
                                    }
                                    return Err(e);
                                },
                            };
                            proof {
                                lemma_sound_grow(*old(self), pre, *self, errs@);
                            }
                            proof {
                                lemma_all_present_grows(before, self.graph, inits@);
                            }
                            bns.push(WithBindingNode { type_: t, name: nm, init: ik });
                            inits.push(ik);
                        },
                        Err(mut e) => {
                            proof {
                                lemma_all_present_grows(before, self.graph, inits@);
                            }
                            let ghost mv = e@;
                            errs.append(&mut e);
                            proof {
                                lemma_sound_extend(*old(self), pre, pre, *self, ev, mv);
                                lemma_with_names_has(bindings@, i as int);
                                lemma_named_more(mv, expr_names(*bindings@[i as int].init), with_names(bindings@));
                                lemma_named_more(mv, with_names(bindings@), expr_names(*expr));
                                lemma_named_concat(ev, mv, expr_names(*expr));
                                if old(self).knows_all(expr_names(*expr)) {
                                    lemma_knows_sub(*old(self), *old(self), expr_names(*expr), with_names(bindings@));
                                    lemma_with_names_has(bindings@, i as int);
                                    lemma_knows_sub(*old(self), pre, with_names(bindings@), expr_names(*bindings@[i as int].init));
                                    lemma_only_full_concat(ev, mv);
                                }
                            }
                        },
                    }
                    i += 1;
                }
                proof {
                    assert(bindings@.subrange(0, bindings@.len() as int) =~= bindings@);
                }
                if errs.len() > 0 {
                    return Err(errs);
                }
                let deps = keys_with(bk, &inits);
                proof {
                    lemma_all_present_concat(self.graph, bk, inits@);
                }
                self.mk_node(NodeKind::With { bindings: bns, body: bk }, Type::Void, KnowledgeState::Known, deps, span)
            },
            _ => {
                proof {
                    assert(false);
                }
                Err(Vec::new())
            },
        }
    }
}


proof fn lemma_function_deps_no_defaults(body: GraphKey, params: Seq<(Identifier, Type, Option<GraphKey>)>)
    requires
        forall|i: int| 0 <= i < params.len() ==> (#[trigger] params[i]).2 is None,
    ensures
        crate::graph::function_deps(body, params) == seq![body],
    decreases params.len(),
{
    if params.len() > 0 {
        assert(params[params.len() - 1].2 is None);
        assert forall|i: int| 0 <= i < params.drop_last().len() implies (#[trigger] params.drop_last()[i]).2 is None by {
            assert(params.drop_last()[i] == params[i]);
        }
        lemma_function_deps_no_defaults(body, params.drop_last());
    }
}

/// Different registered names name different nodes.
pub open spec fn keys_distinct(g: KnowledgeGraph) -> bool {
    forall|n1: Seq<char>, n2: Seq<char>|
        #[trigger] g.functions().contains_key(n1) && #[trigger] g.functions().contains_key(n2) && n1 != n2
            ==> crate::graph::canon(g.functions()[n1].0) != crate::graph::canon(g.functions()[n2].0)
}

/// No expression converts to a function node.
proof fn lemma_expr_node_not_function(e: AstExpr, n: Node)
    requires
        expr_node(e, n),
    ensures
        !(n.kind is Function),
{
}

/// No other function of `fs` has the name of `fs[i]`.
pub open spec fn sole_name(fs: Seq<AstFuncDef>, i: int) -> bool {
    forall|j: int| 0 <= j < fs.len() && j != i ==> (#[trigger] fs[j]).name@ != fs[i].name@
}

/// The function registered under `fd`'s name has, when `fd` ends in a
/// return expression, a body whose root is what that expression converts
/// to.
pub open spec fn body_converted(g: KnowledgeGraph, fd: AstFuncDef) -> bool {
    fd.body.ret matches Some(e) ==> (g.node(g.functions()[fd.name@]).kind matches NodeKind::Function { body, .. }
        && g.has(body) && expr_node(*e, g.node(body)))
}

/// The name of the entry function: `main` if some function has that name,
/// else the first function's.
pub open spec fn entry_name(fs: Seq<AstFuncDef>) -> Seq<char> {
    if exists|i: int| 0 <= i < fs.len() && (#[trigger] fs[i]).name@ == seq!['m', 'a', 'i', 'n'] {
        seq!['m', 'a', 'i', 'n']
    } else {
        fs[0].name@
    }
}

/// The names of a function's parameters.
pub open spec fn param_names(ps: Seq<crate::types::AstParam>) -> Set<Seq<char>> {
    Set::new(|n: Seq<char>| exists|i: int| 0 <= i < ps.len() && (#[trigger] ps[i]).name@ == n)
}

/// Whether some function of `fs` is named `n`.
pub open spec fn names_function(fs: Seq<AstFuncDef>, n: Seq<char>) -> bool {
    exists|j: int| 0 <= j < fs.len() && (#[trigger] fs[j]).name@ == n
}

/// Every name that `fd`'s body looks up from outside is one of its
/// parameters or resolves in `c`.
pub open spec fn body_resolves(c: AstConverter, fd: AstFuncDef) -> bool {
    forall|n: Seq<char>| #[trigger] block_names(fd.body).contains(n) ==> c.knows(n) || param_names(fd.params@).contains(n)
}

/// Every name the body of a function of `unit` looks up from outside is one
/// of its parameters, a function of the unit, or resolves in `c`.
pub open spec fn unit_resolves(c: AstConverter, unit: AstTranslationUnit) -> bool {
    forall|j: int, n: Seq<char>|
        0 <= j < unit.functions@.len() && #[trigger] block_names(unit.functions@[j].body).contains(n) ==> c.knows(n)
            || names_function(unit.functions@, n) || param_names(unit.functions@[j].params@).contains(n)
}

/// Each undefined name reported is one that the body of a function of
/// `unit` looks up from outside, and neither resolved by `c` nor the name of
/// a function of `unit`.
pub open spec fn undefined_outside(c: AstConverter, unit: AstTranslationUnit, es: Seq<ConversionError>) -> bool {
    forall|i: int|
        0 <= i < es.len() ==> ((#[trigger] es[i]) matches ConversionError::UndefinedIdentifier(n, _) ==> !c.knows(n@)
            && !names_function(unit.functions@, n@) && looked_up(unit, n@))
}

/// Whether the body of some function of `unit` looks `n` up from outside.
pub open spec fn looked_up(unit: AstTranslationUnit, n: Seq<char>) -> bool {
    exists|j: int| 0 <= j < unit.functions@.len() && #[trigger] block_names(unit.functions@[j].body).contains(n)
}

/// Every name the body of a function of `unit` looks up from outside is one
/// of its parameters or a function of the unit.
pub open spec fn self_contained(unit: AstTranslationUnit) -> bool {
    forall|j: int, n: Seq<char>|
        0 <= j < unit.functions@.len() && #[trigger] block_names(unit.functions@[j].body).contains(n)
            ==> names_function(unit.functions@, n) || param_names(unit.functions@[j].params@).contains(n)
}

/// No error is `graph full`: every one is an undefined name.
pub open spec fn no_full(es: Seq<ConversionError>) -> bool {
    forall|i: int| 0 <= i < es.len() ==> (#[trigger] es[i]) is UndefinedIdentifier
}

/// Each function adds at least six to the cost bound of a list of them.
proof fn lemma_fns_cost_grow(fs: Seq<AstFuncDef>, i: int, j: int)
    requires
        0 <= i <= j <= fs.len(),
    ensures
        fns_cost(fs, i) + 6 * (j - i) <= fns_cost(fs, j),
    decreases j - i,
{
    if i < j {
        lemma_fns_cost_grow(fs, i, j - 1);
    }
}

impl AstConverter {
    /// Converts a function body: one parameter cell per parameter (a
    /// residual binding with a placeholder definition, so that references
    /// to it never fold and substitution can override it), then the body
    /// block, in a scope of its own.
    fn convert_function_body(&mut self, func_def: &AstFuncDef) -> (r: Result<(GraphKey, Vec<(Identifier, Type, Option<GraphKey>)>, Vec<GraphKey>), Vec<ConversionError>>)
        requires
            old(self).inv(),
        ensures
            used(final(self).graph_of()) <= used(old(self).graph_of()) + 8 * func_def.params@.len() + block_cost(func_def.body),
            final(self).inv(),
            final(self).depth() >= old(self).depth(),
            r is Ok ==> final(self).depth() == old(self).depth(),
            grows(old(self).graph, final(self).graph),
            r matches Ok((body, params, cells)) ==> final(self).graph.has(body) && all_present(final(self).graph, cells@)
                && forall|i: int| 0 <= i < params@.len() ==> (#[trigger] params@[i]).2 is None,
            r matches Ok((body, _, _)) ==> (func_def.body.ret matches Some(e) ==> expr_node(*e, final(self).graph.node(body))),
            r matches Err(e) ==> e@.len() > 0,
            old(self).extended_by(*final(self)),
            r matches Err(e) ==> errors_sound(*old(self), *final(self), e@),
            body_resolves(*old(self), *func_def) && !graph_full(final(self).graph_of()) ==> r is Ok,
            body_resolves(*old(self), *func_def) ==> (r matches Err(es) ==> only_full(es@)),
            r matches Err(es) ==> errors_named(es@, block_names(func_def.body)),
    {
        broadcast use group_scopes;
        self.enter_scope();
        let ghost e0 = *self;
        let ghost d1 = self.depth();
        let mut params: Vec<(Identifier, Type, Option<GraphKey>)> = Vec::new();
        let mut cells: Vec<GraphKey> = Vec::new();
        let mut i: usize = 0;
        let ghost u1 = used(self.graph_of());
        while i < func_def.params.len()
            invariant
                used(self.graph_of()) <= u1 + 8 * i,
                u1 <= used(old(self).graph_of()),
                self.inv(),
                self.depth() == d1,
                d1 == old(self).depth() + 1,
                grows(old(self).graph, self.graph),
                all_present(self.graph, cells@),
                forall|j: int| 0 <= j < params@.len() ==> (#[trigger] params@[j]).2 is None,
                i <= func_def.params@.len(),
                old(self).extended_by(e0),
                e0.scope_stack@.drop_last() == old(self).scope_stack@,
                e0.scope_stack@.len() == old(self).scope_stack@.len() + 1,
                e0.graph.functions() == old(self).graph.functions(),
                e0.extended_by(*self),
                forall|j: int| 0 <= j < i ==> self.knows(#[trigger] func_def.params@[j].name@),
            decreases func_def.params@.len() - i,
        {
            let param = &func_def.params[i];
            let pid = self.unique_id(param.name.as_str())?;
            let ptype = match &param.type_ {
                Some(ts) => type_from_str(ts.as_str()),
                None => Type::Void,
            };
            let fake_def = self.placeholder()?;
            let ghost before = self.graph;
            let cell = self.add(
                NodeKind::Binding { name: pid.copy(), def: fake_def },
                Type::Residual(Box::new(ptype.copy())),
                KnowledgeState::Residual,
                Vec::new(),
                HashSet::new(),
                HashSet::new(),
                Provenance::Inferred,
                Span::unknown(),
            )?;
            proof {
                lemma_all_present_grows(before, self.graph, cells@);
            }
            let ghost pb = *self;
            self.bind(param.name.clone(), cell);
            proof {
                assert(scope_find(self.scope_stack@.last()@, param.name@) is Some);
                assert(stack_find(self.scope_stack@, param.name@) is Some);
                assert(self.knows(func_def.params@[i as int].name@));
                assert forall|j: int| 0 <= j < i + 1 implies self.knows(#[trigger] func_def.params@[j].name@) by {
                    if j < i {
                        AstConverter::lemma_extended_knows(pb, *self, func_def.params@[j].name@);
                    }
                }
            }
            cells.push(cell);
            params.push((pid, ptype, None));
            i += 1;
        }
        let ghost before = self.graph;
        proof {
            if body_resolves(*old(self), *func_def) {
                assert forall|n: Seq<char>| #[trigger] block_names(func_def.body).contains(n) implies self.knows(n) by {
                    if old(self).knows(n) {
                        AstConverter::lemma_extended_knows(*old(self), *self, n);
                    } else {
                        let j = choose|j: int| 0 <= j < func_def.params@.len() && (#[trigger] func_def.params@[j]).name@ == n;
                        assert(self.knows(func_def.params@[j].name@));
                    }
                }
            }
        }
        let body_key = self.convert_block(&func_def.body)?;
        proof {
            lemma_all_present_grows(before, self.graph, cells@);
        }
        let ghost c1 = *self;
        self.exit_scope();
        proof {
            Self::lemma_exit_extended(*old(self), e0, c1, *self);
        }
        Ok((body_key, params, cells))
    }

    /// Converts a whole translation unit into its knowledge graph. The first
    /// pass registers every function with a placeholder body; the second
    /// converts parameters and bodies. The entry point is `main` if there is
    /// one, else the first function.
    pub fn convert(self, unit: AstTranslationUnit) -> (r: Result<KnowledgeGraph, Vec<ConversionError>>)
        requires
            self.inv(),
        ensures
            r matches Ok(g) ==> unit_converted(unit, self.graph_of(), g),
            r matches Err(e) ==> e@.len() > 0,
            r matches Err(es) ==> undefined_outside(self, unit, es@),
            unit_resolves(self, unit) ==> (r matches Err(es) ==> only_full(es@)),
            unit_resolves(self, unit) && used(self.graph_of()) + unit_cost(unit) < 0xFFFF_FFFE ==> r is Ok,
            used(self.graph_of()) + unit_cost(unit) < 0xFFFF_FFFE ==> (r matches Err(es) ==> no_full(es@)),
    {
        let mut conv = self;
        let fs = &unit.functions;
        proof {
            lemma_fns_cost_grow(fs@, 0, fs@.len() as int);
        }
        let mut i: usize = 0;
        while i < fs.len()
            invariant
                conv.inv(),
                used(conv.graph) <= used(self.graph) + 6 * i,
                6 * fs@.len() <= unit_cost(unit),
                fs@ == unit.functions@,
                conv.graph.entry() == self.graph.entry(),
                i <= fs@.len(),
                forall|j: int| 0 <= j < i ==> conv.graph.functions().contains_key((#[trigger] fs@[j]).name@),
                keys_distinct(conv.graph),
                forall|n: Seq<char>|
                    #[trigger] conv.graph.functions().contains_key(n) ==> self.graph.functions().contains_key(n) || exists|
                        j: int,
                    | 0 <= j < i && (#[trigger] fs@[j]).name@ == n,
                conv.scope_stack@ == self.scope_stack@,
                forall|n: Seq<char>| #[trigger] self.graph.functions().contains_key(n) ==> conv.graph.functions().contains_key(n),
            decreases fs@.len() - i,
        {
            let func_def = &fs[i];
            let ret_type = match &func_def.ret {
                Some(ts) => type_from_str(ts.as_str()),
                None => Type::Void,
            };
            let caps = capability_set(&func_def.capabilities);
            let caps2 = capability_set(&func_def.capabilities);
            let knowledge = if caps.is_empty() {
                KnowledgeState::Known
            } else {
                KnowledgeState::Effect
            };
            let fake_body = match conv.placeholder() {
                Ok(k) => k,
                Err(e) => return Err(e),
            };
            let fake_dep = match conv.placeholder() {
                Ok(k) => k,
                Err(e) => return Err(e),
            };
            let fname = Identifier::new(func_def.name.as_str(), conv.graph.peek_id());
            let ghost g0 = conv.graph;
            let fkey = match conv.add(
                NodeKind::Function {
                    name: fname,
                    public: func_def.public,
                    params: Vec::new(),
                    ret: ret_type.copy(),
                    body: fake_body,
                    capabilities: caps,
                },
                Type::Function { params: Vec::new(), ret: Box::new(ret_type) },
                knowledge,
                keys1(fake_dep),
                HashSet::new(),
                caps2,
                Provenance::Inferred,
                func_def.span.copy(),
            ) {
                Ok(k) => k,
                Err(e) => return Err(e),
            };
            let ghost g1 = conv.graph;
            conv.graph.register_function(func_def.name.clone(), fkey);
            proof {
                assert forall|j: int| 0 <= j < i + 1 implies conv.graph.functions().contains_key((#[trigger] fs@[j]).name@) by {
                    if j < i {
                        assert(g0.functions().contains_key(fs@[j].name@));
                    }
                }
                assert forall|n: Seq<char>| #[trigger] conv.graph.functions().contains_key(n) implies conv.graph.has(
                    conv.graph.functions()[n],
                ) by {
                    if n != func_def.name@ {
                        assert(g1.functions().contains_key(n));
                    }
                }
                assert forall|n: Seq<char>| #[trigger] conv.graph.functions().contains_key(n) implies self.graph.functions().contains_key(n)
                    || exists|j: int| 0 <= j < i + 1 && (#[trigger] fs@[j]).name@ == n by {
                    if n != func_def.name@ {
                        assert(g1.functions().contains_key(n));
                        assert(g0.functions().contains_key(n));
                        if !self.graph.functions().contains_key(n) {
                            let j = choose|j: int| 0 <= j < i && (#[trigger] fs@[j]).name@ == n;
                            assert(0 <= j < i + 1 && fs@[j].name@ == n);
                        }
                    } else {
                        assert(fs@[i as int].name@ == n);
                    }
                }
                assert forall|a: int, b: int|
                    0 <= a < conv.scope_stack@.len() && 0 <= b < conv.scope_stack@[a]@.len() implies conv.graph.has(
                        #[trigger] conv.scope_stack@[a]@[b].1,
                    ) by {
                    assert(g1.has(conv.scope_stack@[a]@[b].1));
                }
            }
            i += 1;
        }
        let mut i: usize = 0;
        while i < fs.len()
            invariant
                conv.inv(),
                conv.graph.entry() == self.graph.entry(),
                i <= fs@.len(),
                forall|j: int| 0 <= j < fs@.len() ==> conv.graph.functions().contains_key((#[trigger] fs@[j]).name@),
                keys_distinct(conv.graph),
                forall|j: int| 0 <= j < i && sole_name(fs@, j) ==> body_converted(conv.graph, #[trigger] fs@[j]),
                forall|n: Seq<char>| self.knows(n) ==> #[trigger] conv.knows(n),
                fs@ == unit.functions@,
                used(conv.graph) + 6 * i <= used(self.graph) + 6 * fs@.len() + fns_cost(fs@, i as int),
                forall|n: Seq<char>|
                    #[trigger] conv.graph.functions().contains_key(n) ==> self.graph.functions().contains_key(n) || exists|
                        j: int,
                    | 0 <= j < fs@.len() && (#[trigger] fs@[j]).name@ == n,
            decreases fs@.len() - i,
        {
            let func_def = &fs[i];
            let fkey = match conv.graph.lookup_function_key(func_def.name.as_str()) {
                Some(k) => k,
                None => {
                    assert(conv.graph.functions().contains_key(fs@[i as int].name@));
                    return Err(Vec::new());
                },
            };
            let ghost g0 = conv.graph;
            let ghost c0 = conv;
            proof {
                lemma_fns_cost_grow(fs@, i + 1, fs@.len() as int);
                assert(fns_cost(fs@, i + 1) == fns_cost(fs@, i as int) + fn_cost(fs@[i as int]));
                assert(*func_def == fs@[i as int]);
                assert forall|j: int| 0 <= j < fs@.len() implies #[trigger] c0.knows(fs@[j].name@) by {
                    assert(c0.graph.functions().contains_key(fs@[j].name@));
                }
                if unit_resolves(self, unit) {
                    assert forall|n: Seq<char>| #[trigger] block_names(func_def.body).contains(n) implies c0.knows(n)
                        || param_names(func_def.params@).contains(n) by {
                        assert(fs@[i as int] == *func_def);
                        assert(unit.functions@[i as int] == fs@[i as int]);
                        assert(block_names(unit.functions@[i as int].body) == block_names(func_def.body));
                        if self.knows(n) {
                            assert(conv.knows(n));
                        }
                        if names_function(fs@, n) {
                            let j = choose|j: int| 0 <= j < fs@.len() && (#[trigger] fs@[j]).name@ == n;
                            assert(c0.knows(fs@[j].name@));
                        }
                    }
                }
            }
            let (body, params, cells) = match conv.convert_function_body(func_def) {
                Ok(t) => t,
                Err(e) => {
                    proof {
                        assert forall|k: int| 0 <= k < e@.len() implies ((#[trigger] e@[k]) matches ConversionError::UndefinedIdentifier(n, _) ==> !self.knows(n@)
                            && !names_function(unit.functions@, n@) && looked_up(unit, n@)) by {
                            if let ConversionError::UndefinedIdentifier(n, _) = e@[k] {
                                if names_function(fs@, n@) {
                                    let j = choose|j: int| 0 <= j < fs@.len() && (#[trigger] fs@[j]).name@ == n@;
                                    assert(c0.knows(fs@[j].name@));
                                }
                                assert(fs@[i as int] == *func_def);
                                assert(block_names(unit.functions@[i as int].body).contains(n@));
                            }
                        }
                    }
                    proof {
                        if used(self.graph_of()) + unit_cost(unit) < 0xFFFF_FFFE {
                            assert(!graph_full(conv.graph_of()));
                            assert forall|k: int| 0 <= k < e@.len() implies (#[trigger] e@[k]) is UndefinedIdentifier by {
                                assert(e@[k] matches ConversionError::GraphFull ==> graph_full(conv.graph_of()));
                            }
                        }
                    }
                    return Err(e);
                },
            };
            let ghost cb = conv;
            proof {
                lemma_function_deps_no_defaults(body, params@);
            }
            let ghost g1 = conv.graph;
            conv.graph.set_function_parts(fkey, body, params);
            let ghost g2 = conv.graph;
            conv.graph.set_param_cells(fkey, cells);
            proof {
                assert forall|j: int| 0 <= j < i + 1 && sole_name(fs@, j) implies body_converted(
                    conv.graph,
                    #[trigger] fs@[j],
                ) by {
                    let fd = fs@[j];
                    if fd.body.ret is Some {
                        let e = *fd.body.ret.unwrap();
                        if j < i {
                            let fk = g0.functions()[fd.name@];
                            assert(body_converted(g0, fs@[j]));
                            let b = g0.node(fk).kind->Function_body;
                            assert(g0.has(fk));
                            assert(g0.has(b));
                            crate::graph::lemma_grows_has(g0, g1, fk);
                            crate::graph::lemma_grows_has(g0, g1, b);
                            assert(fd.name@ != fs@[i as int].name@);
                            assert(g1.functions().contains_key(fd.name@));
                            assert(g1.functions().contains_key(fs@[i as int].name@));
                            assert(crate::graph::canon(fk.0) != crate::graph::canon(fkey.0));
                            lemma_expr_node_not_function(e, g1.node(b));
                            assert(crate::graph::canon(b.0) != crate::graph::canon(fkey.0));
                        } else {
                            assert(g1.functions().contains_key(fs@[i as int].name@));
                            lemma_expr_node_not_function(e, g1.node(body));
                            assert(crate::graph::canon(body.0) != crate::graph::canon(fkey.0));
                        }
                    }
                }
                assert forall|k2: u64, d: GraphKey|
                    conv.graph.nodes().contains_key(k2) && #[trigger] conv.graph.nodes()[k2].deps@.contains(d)
                        implies conv.graph.has(d) by {
                    if k2 != crate::graph::canon(fkey.0) {
                        assert(g1.nodes().contains_key(k2));
                        assert(g1.nodes()[k2].deps@.contains(d));
                    } else {
                        assert(conv.graph.nodes()[k2].deps@ == seq![body]);
                        assert(d == body);
                    }
                }
                assert forall|a: int, b: int|
                    0 <= a < conv.scope_stack@.len() && 0 <= b < conv.scope_stack@[a]@.len() implies conv.graph.has(
                        #[trigger] conv.scope_stack@[a]@[b].1,
                    ) by {
                    assert(g1.has(conv.scope_stack@[a]@[b].1));
                }
                assert forall|n: Seq<char>| #[trigger] conv.graph.functions().contains_key(n) implies conv.graph.has(
                    conv.graph.functions()[n],
                ) by {
                    assert(g1.functions().contains_key(n));
                    assert(g1.has(g1.functions()[n]));
                }
                assert(conv.graph.nodes().dom() =~= g1.nodes().dom());
                assert(used(conv.graph) == used(g1));
                assert forall|n: Seq<char>| self.knows(n) implies #[trigger] conv.knows(n) by {
                    assert(c0.knows(n));
                    AstConverter::lemma_extended_knows(c0, cb, n);
                    assert(cb.scope_stack@ == conv.scope_stack@);
                }
            }
            i += 1;
        }
        if fs.len() > 0 {
            let mut pick: usize = 0;
            let mut found = false;
            let main_name = vec!['m', 'a', 'i', 'n'];
            assert(main_name@ == seq!['m', 'a', 'i', 'n']);
            let mut j: usize = 0;
            while j < fs.len()
                invariant
                    main_name@ == seq!['m', 'a', 'i', 'n'],
                    j <= fs@.len(),
                    fs@.len() > 0,
                    pick < fs@.len(),
                    found ==> fs@[pick as int].name@ == seq!['m', 'a', 'i', 'n'],
                    !found ==> pick == 0 && forall|t: int| 0 <= t < j ==> (#[trigger] fs@[t]).name@ != seq!['m', 'a', 'i', 'n'],
                decreases fs@.len() - j,
            {
                if !found {
                    let cs = chars_of(fs[j].name.as_str());
                    if chars_eq(cs.as_slice(), main_name.as_slice()) {
                        pick = j;
                        found = true;
                    }
                }
                j += 1;
            }
            proof {
                if !found {
                    assert(!exists|t: int| 0 <= t < fs@.len() && (#[trigger] fs@[t]).name@ == seq!['m', 'a', 'i', 'n']);
                }
            }
            match conv.graph.lookup_function_key(fs[pick].name.as_str()) {
                Some(k) => {
                    conv.graph.set_entry(k);
                },
                None => {
                    assert(conv.graph.functions().contains_key(fs@[pick as int].name@));
                },
            }
        }
        Ok(conv.graph)
    }
}

} // verus!
