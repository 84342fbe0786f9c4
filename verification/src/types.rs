//! Shared type definitions: numeric widths and types, the full type system,
//! operators, literals, and the AST that the reducer consumes and emits.

use vstd::prelude::*;

use crate::graph::GraphKey;
use crate::text::{chars_eq, chars_of, decimal, parse_u16, parse_u16_spec, push_char, push_decimal, string_of, string_of_chars};

verus! {

// ─── Integer / Float Widths ────────────────────────────────────────

#[derive(Copy, Clone, Debug, PartialEq, Eq, Hash, Structural)]
pub enum IntWidth {
    B8,
    B16,
    B32,
    B64,
    B128,
    B256,
    B512,
}

impl IntWidth {
    pub open spec fn spec_bits(self) -> u16 {
        match self {
            IntWidth::B8 => 8,
            IntWidth::B16 => 16,
            IntWidth::B32 => 32,
            IntWidth::B64 => 64,
            IntWidth::B128 => 128,
            IntWidth::B256 => 256,
            IntWidth::B512 => 512,
        }
    }

    /// The width in bits.
    #[verifier::when_used_as_spec(spec_bits)]
    pub fn bits(self) -> (b: u16)
        ensures
            b == self.spec_bits(),
    {
        match self {
            IntWidth::B8 => 8,
            IntWidth::B16 => 16,
            IntWidth::B32 => 32,
            IntWidth::B64 => 64,
            IntWidth::B128 => 128,
            IntWidth::B256 => 256,
            IntWidth::B512 => 512,
        }
    }

    /// The width with exactly `bits` bits, if it is a supported width.
    pub open spec fn spec_from_bits(bits: u16) -> Option<IntWidth> {
        if bits == 8 {
            Some(IntWidth::B8)
        } else if bits == 16 {
            Some(IntWidth::B16)
        } else if bits == 32 {
            Some(IntWidth::B32)
        } else if bits == 64 {
            Some(IntWidth::B64)
        } else if bits == 128 {
            Some(IntWidth::B128)
        } else if bits == 256 {
            Some(IntWidth::B256)
        } else if bits == 512 {
            Some(IntWidth::B512)
        } else {
            None
        }
    }

    #[verifier::when_used_as_spec(spec_from_bits)]
    pub fn from_bits(bits: u16) -> (r: Option<IntWidth>)
        ensures
            r == IntWidth::spec_from_bits(bits),
            r matches Some(w) ==> w.spec_bits() == bits,
    {
        match bits {
            8 => Some(IntWidth::B8),
            16 => Some(IntWidth::B16),
            32 => Some(IntWidth::B32),
            64 => Some(IntWidth::B64),
            128 => Some(IntWidth::B128),
            256 => Some(IntWidth::B256),
            512 => Some(IntWidth::B512),
            _ => None,
        }
    }
}

/// Every integer width is recovered from its bit count.
pub proof fn lemma_int_width_bits_roundtrip(w: IntWidth)
    ensures
        IntWidth::spec_from_bits(w.spec_bits()) == Some(w),
{
}

#[derive(Copy, Clone, Debug, PartialEq, Eq, Hash, Structural)]
pub enum FloatWidth {
    F16,
    F32,
    F64,
    F128,
}

impl FloatWidth {
    pub open spec fn spec_bits(self) -> u16 {
        match self {
            FloatWidth::F16 => 16,
            FloatWidth::F32 => 32,
            FloatWidth::F64 => 64,
            FloatWidth::F128 => 128,
        }
    }

    #[verifier::when_used_as_spec(spec_bits)]
    pub fn bits(self) -> (b: u16)
        ensures
            b == self.spec_bits(),
    {
        match self {
            FloatWidth::F16 => 16,
            FloatWidth::F32 => 32,
            FloatWidth::F64 => 64,
            FloatWidth::F128 => 128,
        }
    }

    pub open spec fn spec_from_bits(bits: u16) -> Option<FloatWidth> {
        if bits == 16 {
            Some(FloatWidth::F16)
        } else if bits == 32 {
            Some(FloatWidth::F32)
        } else if bits == 64 {
            Some(FloatWidth::F64)
        } else if bits == 128 {
            Some(FloatWidth::F128)
        } else {
            None
        }
    }

    #[verifier::when_used_as_spec(spec_from_bits)]
    pub fn from_bits(bits: u16) -> (r: Option<FloatWidth>)
        ensures
            r == FloatWidth::spec_from_bits(bits),
            r matches Some(w) ==> w.spec_bits() == bits,
    {
        match bits {
            16 => Some(FloatWidth::F16),
            32 => Some(FloatWidth::F32),
            64 => Some(FloatWidth::F64),
            128 => Some(FloatWidth::F128),
            _ => None,
        }
    }
}

/// Every float width is recovered from its bit count.
pub proof fn lemma_float_width_bits_roundtrip(w: FloatWidth)
    ensures
        FloatWidth::spec_from_bits(w.spec_bits()) == Some(w),
{
}

// ─── Numeric Type ──────────────────────────────────────────────────

#[derive(Copy, Clone, Debug, PartialEq, Eq, Hash, Structural)]
pub enum NumericType {
    Int(IntWidth),
    UInt(IntWidth),
    Float(FloatWidth),
    ISize,
    USize,
    /// Exact decimal with the given number of significant digits.
    Dec(u16),
}

/// `Int`/`UInt`/`Float`/`Dec` with their default widths, `ISize`,
/// `USize`, or a one-letter family (`i`, `u`, `f`, `d`) followed by a
/// width (digits as `u16::from_str` reads them; `d` needs at least 1).
pub open spec fn numeric_from_name_spec(n: Seq<char>) -> Option<NumericType> {
    if n == seq!['I', 'n', 't'] {
        Some(NumericType::Int(IntWidth::B64))
    } else if n == seq!['U', 'I', 'n', 't'] {
        Some(NumericType::UInt(IntWidth::B64))
    } else if n == seq!['F', 'l', 'o', 'a', 't'] {
        Some(NumericType::Float(FloatWidth::F64))
    } else if n == seq!['D', 'e', 'c'] {
        Some(NumericType::Dec(34))
    } else if n == seq!['I', 'S', 'i', 'z', 'e'] {
        Some(NumericType::ISize)
    } else if n == seq!['U', 'S', 'i', 'z', 'e'] {
        Some(NumericType::USize)
    } else if n.len() > 0 && (n[0] == 'u' || n[0] == 'i' || n[0] == 'f' || n[0] == 'd') {
        match parse_u16_spec(n.drop_first()) {
            Some(w) => {
                if n[0] == 'i' {
                    match IntWidth::spec_from_bits(w) {
                        Some(iw) => Some(NumericType::Int(iw)),
                        None => None,
                    }
                } else if n[0] == 'u' {
                    match IntWidth::spec_from_bits(w) {
                        Some(iw) => Some(NumericType::UInt(iw)),
                        None => None,
                    }
                } else if n[0] == 'f' {
                    match FloatWidth::spec_from_bits(w) {
                        Some(fw) => Some(NumericType::Float(fw)),
                        None => None,
                    }
                } else if w >= 1 {
                    Some(NumericType::Dec(w))
                } else {
                    None
                }
            },
            None => None,
        }
    } else {
        None
    }
}

impl NumericType {
    pub open spec fn spec_is_signed(&self) -> bool {
        self is Int || self is ISize
    }

    pub open spec fn spec_is_unsigned(&self) -> bool {
        self is UInt || self is USize
    }

    pub open spec fn spec_is_integer(&self) -> bool {
        self.spec_is_signed() || self.spec_is_unsigned()
    }

    #[verifier::when_used_as_spec(spec_is_signed)]
    pub fn is_signed(&self) -> (r: bool)
        ensures
            r == self.spec_is_signed(),
    {
        matches!(self, NumericType::Int(_) | NumericType::ISize)
    }

    #[verifier::when_used_as_spec(spec_is_unsigned)]
    pub fn is_unsigned(&self) -> (r: bool)
        ensures
            r == self.spec_is_unsigned(),
    {
        matches!(self, NumericType::UInt(_) | NumericType::USize)
    }

    #[verifier::when_used_as_spec(spec_is_integer)]
    pub fn is_integer(&self) -> (r: bool)
        ensures
            r == self.spec_is_integer(),
    {
        self.is_signed() || self.is_unsigned()
    }

    pub fn is_float(&self) -> (r: bool)
        ensures
            r == (self is Float),
    {
        matches!(self, NumericType::Float(_))
    }

    pub fn is_dec(&self) -> (r: bool)
        ensures
            r == (self is Dec),
    {
        matches!(self, NumericType::Dec(_))
    }

    /// Machine width in bits; pointer-sized types count as 64, `Dec` has none.
    pub open spec fn spec_target_width(&self) -> Option<u16> {
        match self {
            NumericType::Int(w) => Some(w.spec_bits()),
            NumericType::UInt(w) => Some(w.spec_bits()),
            NumericType::Float(w) => Some(w.spec_bits()),
            NumericType::ISize => Some(64),
            NumericType::USize => Some(64),
            NumericType::Dec(_) => None,
        }
    }

    pub fn target_width(&self) -> (r: Option<u16>)
        ensures
            r == self.spec_target_width(),
    {
        match self {
            NumericType::Int(w) | NumericType::UInt(w) => Some(w.bits()),
            NumericType::Float(w) => Some(w.bits()),
            NumericType::ISize | NumericType::USize => Some(64),
            NumericType::Dec(_) => None,
        }
    }

    /// Reads a numeric type name (see [`numeric_from_name_spec`]).
    pub fn from_name(name: &str) -> (r: Option<NumericType>)
        ensures
            r == numeric_from_name_spec(name@),
    {
        let cs = chars_of(name);
        Self::from_name_chars(&cs)
    }

    pub fn from_name_chars(n: &[char]) -> (r: Option<NumericType>)
        ensures
            r == numeric_from_name_spec(n@),
    {
        let w_int = vec!['I', 'n', 't'];
        let w_uint = vec!['U', 'I', 'n', 't'];
        let w_float = vec!['F', 'l', 'o', 'a', 't'];
        let w_dec = vec!['D', 'e', 'c'];
        let w_isize = vec!['I', 'S', 'i', 'z', 'e'];
        let w_usize = vec!['U', 'S', 'i', 'z', 'e'];
        if chars_eq(n, &w_int) {
            return Some(NumericType::Int(IntWidth::B64));
        }
        if chars_eq(n, &w_uint) {
            return Some(NumericType::UInt(IntWidth::B64));
        }
        if chars_eq(n, &w_float) {
            return Some(NumericType::Float(FloatWidth::F64));
        }
        if chars_eq(n, &w_dec) {
            return Some(NumericType::Dec(34));
        }
        if chars_eq(n, &w_isize) {
            return Some(NumericType::ISize);
        }
        if chars_eq(n, &w_usize) {
            return Some(NumericType::USize);
        }
        if n.len() == 0 {
            return None;
        }
        let k = n[0];
        if !(k == 'u' || k == 'i' || k == 'f' || k == 'd') {
            return None;
        }
        let rest = slice_tail(n);
        match parse_u16(&rest) {
            Some(w) => {
                if k == 'i' {
                    match IntWidth::from_bits(w) {
                        Some(iw) => Some(NumericType::Int(iw)),
                        None => None,
                    }
                } else if k == 'u' {
                    match IntWidth::from_bits(w) {
                        Some(iw) => Some(NumericType::UInt(iw)),
                        None => None,
                    }
                } else if k == 'f' {
                    match FloatWidth::from_bits(w) {
                        Some(fw) => Some(NumericType::Float(fw)),
                        None => None,
                    }
                } else if w >= 1 {
                    Some(NumericType::Dec(w))
                } else {
                    None
                }
            },
            None => None,
        }
    }
}

/// All but the first element of a non-empty character slice.
pub fn slice_tail(n: &[char]) -> (r: Vec<char>)
    requires
        n@.len() > 0,
    ensures
        r@ == n@.drop_first(),
{
    let mut r: Vec<char> = Vec::new();
    let mut i: usize = 1;
    while i < n.len()
        invariant
            1 <= i <= n.len(),
            r@ == n@.subrange(1, i as int),
        decreases n.len() - i,
    {
        r.push(n[i]);
        assert(n@.subrange(1, i + 1) =~= n@.subrange(1, i as int).push(n@[i as int]));
        i += 1;
    }
    assert(n@.subrange(1, i as int) =~= n@.drop_first());
    r
}

/// Characters `from..to` of a character slice.
pub fn slice_range(n: &[char], from: usize, to: usize) -> (r: Vec<char>)
    requires
        from <= to <= n@.len(),
    ensures
        r@ == n@.subrange(from as int, to as int),
{
    let mut r: Vec<char> = Vec::new();
    let mut i: usize = from;
    while i < to
        invariant
            from <= i <= to,
            to <= n@.len(),
            r@ == n@.subrange(from as int, i as int),
        decreases to - i,
    {
        r.push(n[i]);
        assert(n@.subrange(from as int, i + 1) =~= n@.subrange(from as int, i as int).push(
            n@[i as int],
        ));
        i += 1;
    }
    r
}

pub open spec fn numeric_type_text(t: NumericType) -> Seq<char> {
    match t {
        NumericType::Int(w) => seq!['I', 'n', 't', '('] + decimal(w.spec_bits() as nat) + seq![')'],
        NumericType::UInt(w) => seq!['U', 'I', 'n', 't', '('] + decimal(w.spec_bits() as nat) + seq![
            ')',
        ],
        NumericType::Float(w) => seq!['F', 'l', 'o', 'a', 't', '('] + decimal(w.spec_bits() as nat)
            + seq![')'],
        NumericType::ISize => seq!['I', 'S', 'i', 'z', 'e'],
        NumericType::USize => seq!['U', 'S', 'i', 'z', 'e'],
        NumericType::Dec(n) => seq!['D', 'e', 'c', '('] + decimal(n as nat) + seq![')'],
    }
}

/// Appends a character sequence given as a vector.
pub fn push_chars(out: &mut String, cs: &Vec<char>)
    ensures
        final(out)@ == old(out)@ + cs@,
{
    let mut i: usize = 0;
    let ghost start = out@;
    while i < cs.len()
        invariant
            i <= cs.len(),
            out@ == start + cs@.take(i as int),
        decreases cs.len() - i,
    {
        push_char(out, cs[i]);
        assert(cs@.take(i + 1) =~= cs@.take(i as int).push(cs@[i as int]));
        i += 1;
    }
    assert(cs@.take(i as int) =~= cs@);
}

impl NumericType {
    /// Appends the display form, e.g. `Int(64)` or `Dec(34)`.
    pub fn write_text(&self, out: &mut String)
        ensures
            final(out)@ == old(out)@ + numeric_type_text(*self),
    {
        let ghost start = out@;
        match self {
            NumericType::Int(w) => {
                push_chars(out, &vec!['I', 'n', 't', '(']);
                push_decimal(out, w.bits() as u128);
                push_char(out, ')');
            },
            NumericType::UInt(w) => {
                push_chars(out, &vec!['U', 'I', 'n', 't', '(']);
                push_decimal(out, w.bits() as u128);
                push_char(out, ')');
            },
            NumericType::Float(w) => {
                push_chars(out, &vec!['F', 'l', 'o', 'a', 't', '(']);
                push_decimal(out, w.bits() as u128);
                push_char(out, ')');
            },
            NumericType::ISize => {
                push_chars(out, &vec!['I', 'S', 'i', 'z', 'e']);
            },
            NumericType::USize => {
                push_chars(out, &vec!['U', 'S', 'i', 'z', 'e']);
            },
            NumericType::Dec(n) => {
                push_chars(out, &vec!['D', 'e', 'c', '(']);
                push_decimal(out, *n as u128);
                push_char(out, ')');
            },
        }
        assert(out@ =~= start + numeric_type_text(*self));
    }

    /// The display form, e.g. `Int(64)`.
    pub fn to_display(&self) -> (s: String)
        ensures
            s@ == numeric_type_text(*self),
    {
        let mut s = String::new();
        self.write_text(&mut s);
        assert(s@ =~= numeric_type_text(*self));
        s
    }
}

// ─── Identifier / Span ─────────────────────────────────────────────

#[derive(Clone, Debug, PartialEq, Eq, Hash)]
pub struct Span {
    pub file: String,
    pub line: usize,
    pub col_start: usize,
    pub col_end: usize,
}

impl Span {
    /// The placeholder span `<unknown>:0:0`.
    pub fn unknown() -> (s: Span)
        ensures
            s.file@ == seq!['<', 'u', 'n', 'k', 'n', 'o', 'w', 'n', '>'],
            s.line == 0,
            s.col_start == 0,
            s.col_end == 0,
    {
        Span {
            file: string_of_chars(&vec!['<', 'u', 'n', 'k', 'n', 'o', 'w', 'n', '>']),
            line: 0,
            col_start: 0,
            col_end: 0,
        }
    }

    /// A copy of this span.
    pub fn copy(&self) -> (s: Span)
        ensures
            s == *self,
    {
        Span {
            file: self.file.clone(),
            line: self.line,
            col_start: self.col_start,
            col_end: self.col_end,
        }
    }

    /// The display form `file:line:col`.
    pub fn to_display(&self) -> (s: String)
        ensures
            s@ == self.file@ + seq![':'] + decimal(self.line as nat) + seq![':'] + decimal(
                self.col_start as nat,
            ),
    {
        let mut s = self.file.clone();
        push_char(&mut s, ':');
        push_decimal(&mut s, self.line as u128);
        push_char(&mut s, ':');
        push_decimal(&mut s, self.col_start as u128);
        s
    }
}

#[derive(Clone, Debug, PartialEq, Eq, Hash)]
pub struct Identifier {
    pub name: String,
    pub id: u64,
}

impl Identifier {
    pub fn new(name: &str, id: u64) -> (r: Identifier)
        ensures
            r.name@ == name@,
            r.id == id,
    {
        Identifier { name: string_of(name), id }
    }

    /// A copy of this identifier.
    pub fn copy(&self) -> (r: Identifier)
        ensures
            r == *self,
    {
        Identifier { name: self.name.clone(), id: self.id }
    }

    /// The display form: the name alone.
    pub fn to_display(&self) -> (s: String)
        ensures
            s@ == self.name@,
    {
        self.name.clone()
    }
}

// ─── Full Type System ──────────────────────────────────────────────

/// An expression node standing in a type (a constraint).
#[derive(Clone, Copy, Debug, PartialEq, Eq, Hash, Structural)]
pub struct ExprNode(pub GraphKey);

#[derive(Debug, PartialEq, Eq)]
pub enum Type {
    Bool,
    Numeric(NumericType),
    Str,
    Bytes,
    Null,
    Void,
    Option(Box<Type>),
    Result(Box<Type>, Box<Type>),
    List(Box<Type>),
    MapOf(Box<Type>, Box<Type>),
    SetOf(Box<Type>),
    Struct(Identifier, Vec<(Identifier, Type)>),
    Enum(Identifier, Vec<SumVariant>),
    Constrained(Box<Type>, Box<ExprNode>),
    Residual(Box<Type>),
    Behavior(BehaviorRef),
    Handle(Identifier, Lifetime),
    Function { params: Vec<Type>, ret: Box<Type> },
    SourceLoc,
    Range { start_type: Box<Type>, end_type: Box<Type>, closed: bool },
    Slice { element_type: Box<Type> },
    RegionError,
    UserDefined(String),
}

#[derive(Debug, PartialEq, Eq)]
pub struct SumVariant {
    pub name: Identifier,
    pub type_param: Option<Type>,
}

#[derive(Debug, PartialEq, Eq)]
pub struct BehaviorRef {
    pub name: Identifier,
    pub type_params: Vec<Type>,
}

#[derive(Clone, Debug, PartialEq, Eq)]
pub struct Lifetime {
    pub name: String,
}

/// The display form of a type.
pub open spec fn type_text(t: Type) -> Seq<char>
    decreases t,
{
    match t {
        Type::Bool => "bool"@,
        Type::Numeric(nt) => numeric_type_text(nt),
        Type::Str => "str"@,
        Type::Bytes => "bytes"@,
        Type::Null => "null"@,
        Type::Void => "void"@,
        Type::Option(a) => "Option<"@ + type_text(*a) + ">"@,
        Type::Result(a, b) => "Result<"@ + type_text(*a) + ", "@ + type_text(*b) + ">"@,
        Type::List(a) => "["@ + type_text(*a) + "]"@,
        Type::MapOf(a, b) => "Map<"@ + type_text(*a) + ", "@ + type_text(*b) + ">"@,
        Type::SetOf(a) => "Set<"@ + type_text(*a) + ">"@,
        Type::Struct(name, _) => name.name@,
        Type::Enum(name, _) => name.name@,
        Type::Constrained(a, _) => type_text(*a),
        Type::Residual(a) => "residual<"@ + type_text(*a) + ">"@,
        Type::Behavior(b) => b.name.name@,
        Type::Handle(name, _) => "Handle<"@ + name.name@ + ">"@,
        Type::Function { params, ret } => "fn("@ + types_text(params@, params@.len() as int)
            + ") -> "@ + type_text(*ret),
        Type::SourceLoc => "sourceloc"@,
        Type::Range { start_type, end_type, closed } => type_text(*start_type) + (if closed {
            "..="@
        } else {
            ".."@
        }) + type_text(*end_type),
        Type::Slice { element_type } => "["@ + type_text(*element_type) + "]"@,
        Type::RegionError => "region_error"@,
        Type::UserDefined(s) => s@,
    }
}

/// The display forms of the first `n` types of `ps`, joined by `, `.
pub open spec fn types_text(ps: Seq<Type>, n: int) -> Seq<char>
    decreases ps, n,
{
    if n <= 0 || n > ps.len() {
        Seq::empty()
    } else if n == 1 {
        type_text(ps[0])
    } else {
        types_text(ps, n - 1) + ", "@ + type_text(ps[n - 1])
    }
}

/// The number of type constructors that display recursion goes through.
pub open spec fn type_size(t: Type) -> nat
    decreases t,
{
    match t {
        Type::Option(a) => 1 + type_size(*a),
        Type::Result(a, b) => 1 + type_size(*a) + type_size(*b),
        Type::List(a) => 1 + type_size(*a),
        Type::MapOf(a, b) => 1 + type_size(*a) + type_size(*b),
        Type::SetOf(a) => 1 + type_size(*a),
        Type::Constrained(a, _) => 1 + type_size(*a),
        Type::Residual(a) => 1 + type_size(*a),
        Type::Function { params, ret } => 1 + types_size(params@, params@.len() as int) + type_size(
            *ret,
        ),
        Type::Range { start_type, end_type, .. } => 1 + type_size(*start_type) + type_size(
            *end_type,
        ),
        Type::Slice { element_type } => 1 + type_size(*element_type),
        _ => 1,
    }
}

/// The sizes of the first `n` types of `ps`, summed.
pub open spec fn types_size(ps: Seq<Type>, n: int) -> nat
    decreases ps, n,
{
    if n <= 0 || n > ps.len() {
        0
    } else {
        types_size(ps, n - 1) + type_size(ps[n - 1])
    }
}

proof fn lemma_types_size_elem(ps: Seq<Type>, n: int, i: int)
    requires
        0 <= i < n <= ps.len(),
    ensures
        type_size(ps[i]) <= types_size(ps, n),
    decreases n,
{
    if i < n - 1 {
        lemma_types_size_elem(ps, n - 1, i);
    }
}

impl Type {
    /// Appends the display form.
    pub fn write_text(&self, out: &mut String)
        ensures
            final(out)@ == old(out)@ + type_text(*self),
        decreases type_size(*self),
    {
        let ghost start = out@;
        match self {
            Type::Bool => crate::text::push_str(out, "bool"),
            Type::Numeric(nt) => nt.write_text(out),
            Type::Str => crate::text::push_str(out, "str"),
            Type::Bytes => crate::text::push_str(out, "bytes"),
            Type::Null => crate::text::push_str(out, "null"),
            Type::Void => crate::text::push_str(out, "void"),
            Type::Option(a) => {
                crate::text::push_str(out, "Option<");
                a.write_text(out);
                crate::text::push_str(out, ">");
            },
            Type::Result(a, b) => {
                crate::text::push_str(out, "Result<");
                a.write_text(out);
                crate::text::push_str(out, ", ");
                b.write_text(out);
                crate::text::push_str(out, ">");
            },
            Type::List(a) => {
                crate::text::push_str(out, "[");
                a.write_text(out);
                crate::text::push_str(out, "]");
            },
            Type::MapOf(a, b) => {
                crate::text::push_str(out, "Map<");
                a.write_text(out);
                crate::text::push_str(out, ", ");
                b.write_text(out);
                crate::text::push_str(out, ">");
            },
            Type::SetOf(a) => {
                crate::text::push_str(out, "Set<");
                a.write_text(out);
                crate::text::push_str(out, ">");
            },
            Type::Struct(name, _) => crate::text::push_str(out, name.name.as_str()),
            Type::Enum(name, _) => crate::text::push_str(out, name.name.as_str()),
            Type::Constrained(a, _) => a.write_text(out),
            Type::Residual(a) => {
                crate::text::push_str(out, "residual<");
                a.write_text(out);
                crate::text::push_str(out, ">");
            },
            Type::Behavior(b) => crate::text::push_str(out, b.name.name.as_str()),
            Type::Handle(name, _) => {
                crate::text::push_str(out, "Handle<");
                crate::text::push_str(out, name.name.as_str());
                crate::text::push_str(out, ">");
            },
            Type::Function { params, ret } => {
                crate::text::push_str(out, "fn(");
                let mut i: usize = 0;
                let ghost mid = out@;
                while i < params.len()
                    invariant
                        i <= params@.len(),
                        out@ == mid + types_text(params@, i as int),
                        types_size(params@, params@.len() as int) < type_size(*self),
                    decreases params@.len() - i,
                {
                    if i > 0 {
                        crate::text::push_str(out, ", ");
                    }
                    proof {
                        lemma_types_size_elem(params@, params@.len() as int, i as int);
                    }
                    params[i].write_text(out);
                    i += 1;
                }
                crate::text::push_str(out, ") -> ");
                ret.write_text(out);
            },
            Type::SourceLoc => crate::text::push_str(out, "sourceloc"),
            Type::Range { start_type, end_type, closed } => {
                start_type.write_text(out);
                if *closed {
                    crate::text::push_str(out, "..=");
                } else {
                    crate::text::push_str(out, "..");
                }
                end_type.write_text(out);
            },
            Type::Slice { element_type } => {
                crate::text::push_str(out, "[");
                element_type.write_text(out);
                crate::text::push_str(out, "]");
            },
            Type::RegionError => crate::text::push_str(out, "region_error"),
            Type::UserDefined(s) => crate::text::push_str(out, s.as_str()),
        }
        assert(out@ =~= start + type_text(*self));
    }

    /// The display form, e.g. `Int(64)` or `Option<str>`.
    pub fn to_display(&self) -> (s: String)
        ensures
            s@ == type_text(*self),
    {
        let mut s = String::new();
        self.write_text(&mut s);
        assert(s@ =~= type_text(*self));
        s
    }
}

// ─── Operators ─────────────────────────────────────────────────────

#[derive(Copy, Clone, Debug, PartialEq, Eq, Hash, Structural)]
pub enum BinOp {
    Add,
    Sub,
    Mul,
    Div,
    Rem,
    ShiftLeft,
    ShiftRight,
    And,
    Or,
    Xor,
    Eq,
    Ne,
    Lt,
    Le,
    Gt,
    Ge,
}

/// The name of an operator (its variant name).
pub open spec fn binop_name(op: BinOp) -> Seq<char> {
    match op {
        BinOp::Add => "Add"@,
        BinOp::Sub => "Sub"@,
        BinOp::Mul => "Mul"@,
        BinOp::Div => "Div"@,
        BinOp::Rem => "Rem"@,
        BinOp::ShiftLeft => "ShiftLeft"@,
        BinOp::ShiftRight => "ShiftRight"@,
        BinOp::And => "And"@,
        BinOp::Or => "Or"@,
        BinOp::Xor => "Xor"@,
        BinOp::Eq => "Eq"@,
        BinOp::Ne => "Ne"@,
        BinOp::Lt => "Lt"@,
        BinOp::Le => "Le"@,
        BinOp::Gt => "Gt"@,
        BinOp::Ge => "Ge"@,
    }
}

impl BinOp {
    /// The operator's name, e.g. `Add`.
    pub fn name(&self) -> (s: &'static str)
        ensures
            s@ == binop_name(*self),
    {
        match self {
            BinOp::Add => "Add",
            BinOp::Sub => "Sub",
            BinOp::Mul => "Mul",
            BinOp::Div => "Div",
            BinOp::Rem => "Rem",
            BinOp::ShiftLeft => "ShiftLeft",
            BinOp::ShiftRight => "ShiftRight",
            BinOp::And => "And",
            BinOp::Or => "Or",
            BinOp::Xor => "Xor",
            BinOp::Eq => "Eq",
            BinOp::Ne => "Ne",
            BinOp::Lt => "Lt",
            BinOp::Le => "Le",
            BinOp::Gt => "Gt",
            BinOp::Ge => "Ge",
        }
    }
}

impl BinOp {
    pub open spec fn spec_is_comparison(self) -> bool {
        self is Eq || self is Ne || self is Lt || self is Le || self is Gt || self is Ge
    }

    #[verifier::when_used_as_spec(spec_is_comparison)]
    pub fn is_comparison(self) -> (r: bool)
        ensures
            r == self.spec_is_comparison(),
    {
        matches!(self, BinOp::Eq | BinOp::Ne | BinOp::Lt | BinOp::Le | BinOp::Gt | BinOp::Ge)
    }
}

#[derive(Debug, PartialEq, Eq)]
pub enum UnaryOp {
    Neg,
    Not,
    BitNot,
    Cast(Box<Type>),
}

// ─── Effects, Capabilities, Provider ───────────────────────────────

#[derive(Clone, Copy, Debug, PartialEq, Eq, Hash, Structural)]
pub enum Provider {
    Filesystem,
    Environment,
    Git,
}

#[derive(Clone, Copy, Debug, PartialEq, Eq, Hash, Structural)]
pub enum Effect {
    Io,
    Provider(Provider),
    ResourceMutation,
    RuntimeForce,
    ConcurrencySpawn,
}

#[derive(Clone, Debug, PartialEq, Eq, Hash)]
pub struct Capability {
    pub kind: CapabilityKind,
    pub params: Vec<ExprNode>,
}

/// Two capabilities are the same: the same kind and the same parameters.
pub open spec fn same_capability(a: Capability, b: Capability) -> bool {
    a.kind == b.kind && a.params@ == b.params@
}

impl Capability {
    /// A copy of this capability.
    pub fn copy(&self) -> (r: Capability)
        ensures
            same_capability(*self, r),
    {
        let mut ps: Vec<ExprNode> = Vec::new();
        let mut i: usize = 0;
        while i < self.params.len()
            invariant
                i <= self.params@.len(),
                ps@ == self.params@.take(i as int),
            decreases self.params@.len() - i,
        {
            ps.push(self.params[i]);
            assert(ps@ =~= self.params@.take(i + 1));
            i += 1;
        }
        assert(ps@ =~= self.params@);
        Capability { kind: self.kind, params: ps }
    }

    /// Whether two capabilities are the same (see [`same_capability`]).
    pub fn same_as(&self, other: &Capability) -> (r: bool)
        ensures
            r == same_capability(*self, *other),
    {
        if self.kind != other.kind || self.params.len() != other.params.len() {
            return false;
        }
        let mut i: usize = 0;
        while i < self.params.len()
            invariant
                i <= self.params@.len(),
                self.params@.len() == other.params@.len(),
                self.kind == other.kind,
                forall|j: int| 0 <= j < i ==> self.params@[j] == other.params@[j],
            decreases self.params@.len() - i,
        {
            if self.params[i].0.0 != other.params[i].0.0 {
                return false;
            }
            i += 1;
        }
        assert(self.params@ =~= other.params@);
        true
    }
}

#[derive(Clone, Copy, Debug, PartialEq, Eq, Hash, Structural)]
pub enum CapabilityKind {
    Filesystem,
    Git,
    Environment,
    Compute,
}

#[derive(Clone, Debug, PartialEq, Eq)]
pub enum Provenance {
    Source { file: String, line: usize, col_start: usize },
    Provider(Provider),
    Residual,
    Inferred,
}

// ─── Pattern ───────────────────────────────────────────────────────

#[derive(Debug, PartialEq, Eq)]
pub enum PatternKind {
    Wildcard,
    Bind(Identifier),
    Variant { name: Identifier, param: Option<Identifier> },
    Literal(LiteralValue),
    Struct { name: Identifier, fields: Vec<(Identifier, Pattern)> },
    RangePattern { start: LiteralValue, end: LiteralValue, closed: bool },
}

#[derive(Debug, PartialEq, Eq)]
pub struct Pattern {
    pub kind: PatternKind,
}

// ─── Literal Value (known) ─────────────────────────────────────────

#[derive(Debug, PartialEq, Eq)]
pub enum LiteralValue {
    Int { value: u128, width: IntWidth, signed: bool },
    UInt(u128, IntWidth),
    Float { value: String, width: FloatWidth },
    Str(String),
    Bool(bool),
    Null,
    Bytes(Vec<u8>),
    Char(char),
    Struct { name: Identifier, fields: Vec<(Identifier, LiteralValue)> },
    List(Vec<LiteralValue>),
}

/// The display form of a literal value.
pub open spec fn literal_text(v: LiteralValue) -> Seq<char>
    decreases v,
{
    match v {
        LiteralValue::Int { value, width, .. } => decimal(value as nat) + "_"@ + decimal(
            width.spec_bits() as nat,
        ),
        LiteralValue::UInt(value, width) => decimal(value as nat) + "_"@ + decimal(
            width.spec_bits() as nat,
        ),
        LiteralValue::Float { value, .. } => value@,
        LiteralValue::Str(s) => "\""@ + s@ + "\""@,
        LiteralValue::Bool(b) => if b {
            "true"@
        } else {
            "false"@
        },
        LiteralValue::Null => "null"@,
        LiteralValue::Bytes(b) => "b\""@ + crate::archive::utf8_lossy(b@) + "\""@,
        LiteralValue::Char(c) => seq!['\'', c, '\''],
        LiteralValue::Struct { name, fields } => name.name@ + " {"@ + fields_text(
            fields@,
            fields@.len() as int,
        ) + "}"@,
        LiteralValue::List(elts) => "["@ + literals_text(elts@, elts@.len() as int) + "]"@,
    }
}

/// The first `n` fields of a struct literal, `name: value`, joined by `, `.
pub open spec fn fields_text(fs: Seq<(Identifier, LiteralValue)>, n: int) -> Seq<char>
    decreases fs, n,
{
    if n <= 0 || n > fs.len() {
        Seq::empty()
    } else if n == 1 {
        fs[0].0.name@ + ": "@ + literal_text(fs[0].1)
    } else {
        fields_text(fs, n - 1) + ", "@ + fs[n - 1].0.name@ + ": "@ + literal_text(fs[n - 1].1)
    }
}

/// The first `n` literals of `vs`, joined by `, `.
pub open spec fn literals_text(vs: Seq<LiteralValue>, n: int) -> Seq<char>
    decreases vs, n,
{
    if n <= 0 || n > vs.len() {
        Seq::empty()
    } else if n == 1 {
        literal_text(vs[0])
    } else {
        literals_text(vs, n - 1) + ", "@ + literal_text(vs[n - 1])
    }
}

/// The number of literal constructors that display recursion goes through.
pub open spec fn literal_size(v: LiteralValue) -> nat
    decreases v,
{
    match v {
        LiteralValue::Struct { fields, .. } => 1 + fields_size(fields@, fields@.len() as int),
        LiteralValue::List(elts) => 1 + literals_size(elts@, elts@.len() as int),
        _ => 1,
    }
}

/// The sizes of the first `n` field values, summed.
pub open spec fn fields_size(fs: Seq<(Identifier, LiteralValue)>, n: int) -> nat
    decreases fs, n,
{
    if n <= 0 || n > fs.len() {
        0
    } else {
        fields_size(fs, n - 1) + literal_size(fs[n - 1].1)
    }
}

/// The sizes of the first `n` literals, summed.
pub open spec fn literals_size(vs: Seq<LiteralValue>, n: int) -> nat
    decreases vs, n,
{
    if n <= 0 || n > vs.len() {
        0
    } else {
        literals_size(vs, n - 1) + literal_size(vs[n - 1])
    }
}

pub proof fn lemma_fields_size_elem(fs: Seq<(Identifier, LiteralValue)>, n: int, i: int)
    requires
        0 <= i < n <= fs.len(),
    ensures
        literal_size(fs[i].1) <= fields_size(fs, n),
    decreases n,
{
    if i < n - 1 {
        lemma_fields_size_elem(fs, n - 1, i);
    }
}

pub proof fn lemma_literals_size_elem(vs: Seq<LiteralValue>, n: int, i: int)
    requires
        0 <= i < n <= vs.len(),
    ensures
        literal_size(vs[i]) <= literals_size(vs, n),
    decreases n,
{
    if i < n - 1 {
        lemma_literals_size_elem(vs, n - 1, i);
    }
}

impl LiteralValue {
    /// Appends the display form.
    pub fn write_text(&self, out: &mut String)
        ensures
            final(out)@ == old(out)@ + literal_text(*self),
        decreases literal_size(*self),
    {
        let ghost start = out@;
        proof {
            reveal_strlit("_");
        }
        match self {
            LiteralValue::Int { value, width, .. } => {
                push_decimal(out, *value);
                push_char(out, '_');
                push_decimal(out, width.bits() as u128);
            },
            LiteralValue::UInt(value, width) => {
                push_decimal(out, *value);
                push_char(out, '_');
                push_decimal(out, width.bits() as u128);
            },
            LiteralValue::Float { value, .. } => crate::text::push_str(out, value.as_str()),
            LiteralValue::Str(s) => {
                push_char(out, '"');
                crate::text::push_str(out, s.as_str());
                push_char(out, '"');
                proof {
                    reveal_strlit("\"");
                    assert(out@ =~= start + literal_text(*self));
                }
            },
            LiteralValue::Bool(b) => {
                if *b {
                    crate::text::push_str(out, "true");
                } else {
                    crate::text::push_str(out, "false");
                }
            },
            LiteralValue::Null => crate::text::push_str(out, "null"),
            LiteralValue::Bytes(b) => {
                crate::text::push_str(out, "b\"");
                let text = crate::archive::from_utf8_lossy(b.as_slice());
                crate::text::push_str(out, text.as_str());
                push_char(out, '"');
                proof {
                    reveal_strlit("\"");
                    assert(out@ =~= start + literal_text(*self));
                }
            },
            LiteralValue::Char(c) => {
                push_char(out, '\'');
                push_char(out, *c);
                push_char(out, '\'');
            },
            LiteralValue::Struct { name, fields } => {
                crate::text::push_str(out, name.name.as_str());
                crate::text::push_str(out, " {");
                let ghost mid = out@;
                let mut i: usize = 0;
                while i < fields.len()
                    invariant
                        i <= fields@.len(),
                        out@ == mid + fields_text(fields@, i as int),
                        fields_size(fields@, fields@.len() as int) < literal_size(*self),
                    decreases fields@.len() - i,
                {
                    if i > 0 {
                        crate::text::push_str(out, ", ");
                    }
                    crate::text::push_str(out, fields[i].0.name.as_str());
                    crate::text::push_str(out, ": ");
                    proof {
                        lemma_fields_size_elem(fields@, fields@.len() as int, i as int);
                    }
                    fields[i].1.write_text(out);
                    i += 1;
                }
                crate::text::push_str(out, "}");
                assert(out@ =~= start + literal_text(*self));
            },
            LiteralValue::List(elts) => {
                crate::text::push_str(out, "[");
                let ghost mid = out@;
                let mut i: usize = 0;
                while i < elts.len()
                    invariant
                        i <= elts@.len(),
                        out@ == mid + literals_text(elts@, i as int),
                        literals_size(elts@, elts@.len() as int) < literal_size(*self),
                    decreases elts@.len() - i,
                {
                    if i > 0 {
                        crate::text::push_str(out, ", ");
                    }
                    proof {
                        lemma_literals_size_elem(elts@, elts@.len() as int, i as int);
                    }
                    elts[i].write_text(out);
                    i += 1;
                }
                crate::text::push_str(out, "]");
                assert(out@ =~= start + literal_text(*self));
            },
        }
        assert(out@ =~= start + literal_text(*self));
    }

    /// The display form, e.g. `42_64` or `"hello"`.
    pub fn to_display(&self) -> (s: String)
        ensures
            s@ == literal_text(*self),
    {
        let mut s = String::new();
        self.write_text(&mut s);
        assert(s@ =~= literal_text(*self));
        s
    }
}

// ─── AST ───────────────────────────────────────────────────────────

#[derive(Debug, PartialEq, Eq)]
pub enum AstExpr {
    Id(String),
    Literal { value: u128, kind: AstIntKind, span: Span },
    FloatLit { value: String, span: Span },
    StrLit { value: String, span: Span },
    BoolLit(bool, Span),
    NullLit(Span),
    CharLit(char, Span),
    Location(Span),
    BinaryOp { op: BinOp, lhs: Box<AstExpr>, rhs: Box<AstExpr>, span: Span },
    UnaryOp { op: UnaryOp, operand: Box<AstExpr>, span: Span },
    Call { func: Box<AstExpr>, args: Vec<(Option<String>, AstExpr)>, span: Span },
    Rt(Box<AstExpr>, Span),
    AtResidual { type_: Type, inner: Box<AstExpr>, span: Span },
    If {
        cond: Box<AstExpr>,
        then_block: Box<AstBlock>,
        else_block: Option<Box<AstBlock>>,
        span: Span,
    },
    While { cond: Box<AstExpr>, body: Box<AstBlock>, span: Span },
    ForIn {
        type_: String,
        name: String,
        collection: Box<AstExpr>,
        body: Box<AstBlock>,
        span: Span,
    },
    Match { scrutinee: Box<AstExpr>, arms: Vec<(AstPattern, AstExpr)>, span: Span },
    For {
        init: Option<Box<AstStmt>>,
        cond: Box<AstExpr>,
        step: Option<Box<AstStmt>>,
        body: Box<AstBlock>,
        span: Span,
    },
    Spawn { capabilities: Vec<Capability>, body: AstBlock, span: Span },
    Assert { cond: Box<AstExpr>, message: Box<AstExpr>, span: Span },
    RtAssert { cond: Box<AstExpr>, message: Box<AstExpr>, span: Span },
    Known(Box<AstExpr>, Span),
    RtKnown(Box<AstExpr>, Span),
    ComptimePrint(Box<AstExpr>, Span),
    Todo(Span),
    Unimplemented(Span),
    StructLit { name: String, fields: Vec<(String, AstExpr)>, span: Span },
    ListLit(Vec<AstExpr>, Span),
    MapLit(Vec<(AstExpr, AstExpr)>, Span),
    SetLit(Vec<AstExpr>, Span),
    Range { start: Box<AstExpr>, end: Box<AstExpr>, closed: bool, span: Span },
    FString(Vec<AstFStringPart>, Span),
    RawString(String, Span),
    ByteString(Vec<u8>, Span),
    FieldAccess { target: Box<AstExpr>, field: String, span: Span },
    Index { target: Box<AstExpr>, index: Box<AstExpr>, span: Span },
    Slice { target: Box<AstExpr>, range: Box<AstRange>, span: Span },
    MethodCall { target: Box<AstExpr>, method: String, args: Vec<AstExpr>, span: Span },
    EarlyReturn(Box<AstExpr>, Span),
    ElseFallback { value: Box<AstExpr>, fallback: AstBlock, span: Span },
    Destructure { pattern: AstPattern, source: Box<AstExpr>, span: Span },
    IfLet {
        pattern: AstPattern,
        source: Box<AstExpr>,
        then_block: Box<AstBlock>,
        else_block: Option<Box<AstBlock>>,
        span: Span,
    },
    WhileLet { pattern: AstPattern, source: Box<AstExpr>, body: Box<AstBlock>, span: Span },
    With { bindings: Vec<AstWithBinding>, body: AstBlock, span: Span },
    Using { value: Box<AstExpr>, behavior: String, span: Span },
    Discard(Box<AstExpr>, Span),
    ProviderCall { provider: String, verb: String, args: Vec<AstExpr>, span: Span },
    Span(Span),
}

#[derive(Clone, Copy, Debug, PartialEq, Eq, Structural)]
pub enum AstIntKind {
    Decimal,
    Hex,
    Binary,
    Octal,
}

#[derive(Debug, PartialEq, Eq)]
pub enum AstFStringPart {
    Text(String),
    Expr(Box<AstExpr>),
}

#[derive(Debug, PartialEq, Eq)]
pub struct AstRange {
    pub start: Option<AstExpr>,
    pub end: Option<AstExpr>,
    pub closed: bool,
}

#[derive(Debug, PartialEq, Eq)]
pub enum AstPatternKind {
    Wildcard,
    Bind(String),
    Variant { name: String, param: Option<String> },
    Literal(u128),
    Struct { name: String, fields: Vec<(String, AstPattern)> },
}

#[derive(Debug, PartialEq, Eq)]
pub struct AstPattern {
    pub kind: AstPatternKind,
    pub span: Span,
}

#[derive(Debug, PartialEq, Eq)]
pub struct AstBlock {
    pub statements: Vec<AstStmt>,
    pub ret: Option<Box<AstExpr>>,
}

#[derive(Debug, PartialEq, Eq)]
pub enum AstStmtKind {
    Bind { type_: Option<String>, name: String, value: Box<AstExpr> },
    Discard(Box<AstExpr>),
    Destructure { pattern: AstPattern, source: Box<AstExpr> },
    Expr(Box<AstExpr>),
    Return(Option<Box<AstExpr>>),
    Break,
    Continue,
}

#[derive(Debug, PartialEq, Eq)]
pub struct AstStmt {
    pub kind: AstStmtKind,
    pub span: Span,
}

#[derive(Debug, PartialEq, Eq)]
pub struct AstWithBinding {
    pub type_: Option<String>,
    pub name: String,
    pub init: Box<AstExpr>,
}

#[derive(Debug, PartialEq, Eq)]
pub struct AstFuncDef {
    pub public: bool,
    pub name: String,
    pub params: Vec<AstParam>,
    pub ret: Option<String>,
    pub body: AstBlock,
    pub doc_comments: Vec<String>,
    pub capabilities: Vec<Capability>,
    pub span: Span,
}

#[derive(Debug, PartialEq, Eq)]
pub struct AstParam {
    pub type_: Option<String>,
    pub name: String,
    pub default: Option<AstExpr>,
}

#[derive(Debug, PartialEq, Eq)]
pub struct AstTranslationUnit {
    pub imports: Vec<AstImport>,
    pub functions: Vec<AstFuncDef>,
}

#[derive(Clone, Debug, PartialEq, Eq)]
pub struct AstImport {
    pub path: String,
}

// ─── Numeric Result Type ───────────────────────────────────────────

#[derive(Clone, Copy, Debug, PartialEq, Eq, Structural)]
pub enum NumericError {
    SignednessMix,
    /// `Dec` mixed with another numeric family in one operation.
    DecMix,
    /// An operator not defined on `Dec` (bitwise or shift).
    DecOp,
}

#[derive(Clone, Copy, Debug, PartialEq, Eq, Structural)]
pub enum ResultType {
    Numeric(NumericType),
    Bool,
    Error(NumericError),
}

/// Bit width of an integer or float operand (pointer-sized: 64).
pub open spec fn spec_concrete_width(t: NumericType) -> u16 {
    match t {
        NumericType::Int(w) => w.spec_bits(),
        NumericType::UInt(w) => w.spec_bits(),
        NumericType::Float(w) => w.spec_bits(),
        NumericType::ISize => 64,
        NumericType::USize => 64,
        NumericType::Dec(_) => 0,
    }
}

/// Bits an integer result needs: the sum of the operand widths for `*`,
/// the wider operand otherwise.
pub open spec fn spec_needed_bits(op: BinOp, a: u16, b: u16) -> int {
    if op is Mul {
        a + b
    } else if a >= b {
        a as int
    } else {
        b as int
    }
}

/// The narrowest supported integer width holding `n` bits (512 at most).
pub open spec fn spec_fit_width(n: int) -> IntWidth {
    if n <= 8 {
        IntWidth::B8
    } else if n <= 16 {
        IntWidth::B16
    } else if n <= 32 {
        IntWidth::B32
    } else if n <= 64 {
        IntWidth::B64
    } else if n <= 128 {
        IntWidth::B128
    } else if n <= 256 {
        IntWidth::B256
    } else {
        IntWidth::B512
    }
}

pub open spec fn spec_signedness_mix(l: NumericType, r: NumericType) -> bool {
    (l.spec_is_signed() && r.spec_is_unsigned()) || (l.spec_is_unsigned() && r.spec_is_signed())
}

pub open spec fn spec_float_result(l: NumericType, op: BinOp, r: NumericType) -> ResultType {
    if op.spec_is_comparison() {
        ResultType::Bool
    } else {
        match (l, r) {
            (NumericType::Float(a), NumericType::Float(b)) => ResultType::Numeric(
                NumericType::Float(if a.spec_bits() >= b.spec_bits() { a } else { b }),
            ),
            (_, NumericType::Float(b)) => if l.spec_is_integer() {
                ResultType::Numeric(NumericType::Float(b))
            } else {
                ResultType::Error(NumericError::SignednessMix)
            },
            (NumericType::Float(a), _) => if r.spec_is_integer() {
                ResultType::Numeric(NumericType::Float(a))
            } else {
                ResultType::Error(NumericError::SignednessMix)
            },
            _ => ResultType::Error(NumericError::SignednessMix),
        }
    }
}

/// The typing rule of binary numeric operations.
///
/// `Dec` only combines with `Dec` (keeping the larger digit count),
/// compares to `bool`, and refuses bitwise/shift operators. Floats absorb
/// integers and take the wider float. Integers of mixed signedness are an
/// error; otherwise comparisons give `bool` and arithmetic gives the
/// left operand's signedness at the narrowest width holding the result
/// (the wider operand; both widths summed for `*`).
pub open spec fn spec_numeric_result_type(l: NumericType, op: BinOp, r: NumericType) -> ResultType {
    if l is Dec || r is Dec {
        if op.spec_is_comparison() {
            ResultType::Bool
        } else if op is ShiftLeft || op is ShiftRight || op is And || op is Or || op is Xor {
            ResultType::Error(NumericError::DecOp)
        } else {
            match (l, r) {
                (NumericType::Dec(a), NumericType::Dec(b)) => ResultType::Numeric(
                    NumericType::Dec(if a >= b { a } else { b }),
                ),
                _ => ResultType::Error(NumericError::DecMix),
            }
        }
    } else if l is Float || r is Float {
        spec_float_result(l, op, r)
    } else if spec_signedness_mix(l, r) {
        ResultType::Error(NumericError::SignednessMix)
    } else if op.spec_is_comparison() {
        ResultType::Bool
    } else {
        let w = spec_fit_width(
            spec_needed_bits(op, spec_concrete_width(l), spec_concrete_width(r)),
        );
        if l.spec_is_signed() {
            ResultType::Numeric(NumericType::Int(w))
        } else {
            ResultType::Numeric(NumericType::UInt(w))
        }
    }
}

pub fn numeric_result_type(lhs: &NumericType, op: BinOp, rhs: &NumericType) -> (r: ResultType)
    ensures
        r == spec_numeric_result_type(*lhs, op, *rhs),
{
    if lhs.is_dec() || rhs.is_dec() {
        if op.is_comparison() {
            return ResultType::Bool;
        }
        if matches!(op, BinOp::ShiftLeft | BinOp::ShiftRight | BinOp::And | BinOp::Or | BinOp::Xor) {
            return ResultType::Error(NumericError::DecOp);
        }
        match (lhs, rhs) {
            (NumericType::Dec(a), NumericType::Dec(b)) => {
                return ResultType::Numeric(NumericType::Dec(if *a >= *b { *a } else { *b }));
            },
            _ => return ResultType::Error(NumericError::DecMix),
        }
    }
    if lhs.is_float() || rhs.is_float() {
        return float_result(lhs, op, rhs);
    }
    if op.is_comparison() {
        if lhs.is_signed() && rhs.is_unsigned() || lhs.is_unsigned() && rhs.is_signed() {
            return ResultType::Error(NumericError::SignednessMix);
        }
        return ResultType::Bool;
    }
    if lhs.is_signed() && rhs.is_unsigned() || lhs.is_unsigned() && rhs.is_signed() {
        return ResultType::Error(NumericError::SignednessMix);
    }
    let a = concrete_width(lhs);
    let b = concrete_width(rhs);
    let needed = needed_bits(op, a, b);
    let width = fit_width(needed);
    let ty = if lhs.is_signed() {
        NumericType::Int(width)
    } else {
        NumericType::UInt(width)
    };
    ResultType::Numeric(ty)
}

fn concrete_width(ty: &NumericType) -> (w: u16)
    ensures
        w == spec_concrete_width(*ty),
        w <= 512,
{
    match ty {
        NumericType::Int(w) | NumericType::UInt(w) => w.bits(),
        NumericType::Float(w) => w.bits(),
        NumericType::ISize | NumericType::USize => 64,
        NumericType::Dec(_) => 0,
    }
}

fn needed_bits(op: BinOp, a: u16, b: u16) -> (n: u16)
    requires
        a <= 512,
        b <= 512,
    ensures
        n == spec_needed_bits(op, a, b),
{
    match op {
        BinOp::Mul => a + b,
        _ => if a >= b {
            a
        } else {
            b
        },
    }
}

/// The narrowest supported width of at least `needed` bits, else 512.
fn fit_width(needed: u16) -> (w: IntWidth)
    ensures
        w == spec_fit_width(needed as int),
{
    match IntWidth::from_bits(needed) {
        Some(w) => w,
        None => {
            let supported: [u16; 7] = [8, 16, 32, 64, 128, 256, 512];
            let mut i: usize = 0;
            while i < 7
                invariant
                    0 <= i <= 7,
                    supported@ == seq![8u16, 16, 32, 64, 128, 256, 512],
                    IntWidth::spec_from_bits(needed) is None,
                    forall|j: int| 0 <= j < i ==> supported@[j] <= needed,
                decreases 7 - i,
            {
                if supported[i] > needed {
                    let w = IntWidth::from_bits(supported[i]);
                    match w {
                        Some(w) => return w,
                        None => {
                            assert(false);
                            return IntWidth::B512;
                        },
                    }
                }
                i += 1;
            }
            IntWidth::B512
        },
    }
}

fn float_result(lhs: &NumericType, op: BinOp, rhs: &NumericType) -> (r: ResultType)
    ensures
        r == spec_float_result(*lhs, op, *rhs),
{
    if op.is_comparison() {
        return ResultType::Bool;
    }
    match (lhs, rhs) {
        (NumericType::Float(a), NumericType::Float(b)) => {
            let w = if a.bits() >= b.bits() {
                *a
            } else {
                *b
            };
            ResultType::Numeric(NumericType::Float(w))
        },
        (l, NumericType::Float(b)) => if l.is_integer() {
            ResultType::Numeric(NumericType::Float(*b))
        } else {
            ResultType::Error(NumericError::SignednessMix)
        },
        (NumericType::Float(w), r) => if r.is_integer() {
            ResultType::Numeric(NumericType::Float(*w))
        } else {
            ResultType::Error(NumericError::SignednessMix)
        },
        _ => ResultType::Error(NumericError::SignednessMix),
    }
}

/// Comparison operators always type to `bool`, except where the operand
/// families may not meet (mixed signedness between integers).
pub proof fn lemma_comparison_is_bool_or_mix(l: NumericType, op: BinOp, r: NumericType)
    requires
        op.spec_is_comparison(),
    ensures
        spec_numeric_result_type(l, op, r) == ResultType::Bool || spec_numeric_result_type(
            l,
            op,
            r,
        ) == ResultType::Error(NumericError::SignednessMix),
{
}

/// Integer arithmetic keeps the operands' signedness: two unsigned
/// operands give an unsigned result, two signed operands a signed one.
pub proof fn lemma_integer_result_keeps_signedness(l: NumericType, op: BinOp, r: NumericType)
    requires
        l.spec_is_integer(),
        r.spec_is_integer(),
        l.spec_is_signed() == r.spec_is_signed(),
        !op.spec_is_comparison(),
    ensures
        spec_numeric_result_type(l, op, r) matches ResultType::Numeric(t) && t.spec_is_integer() && t.spec_is_signed()
            == l.spec_is_signed() && t.spec_is_unsigned() == l.spec_is_unsigned(),
{
}

/// Adding, subtracting, dividing or combining two integers of one fixed
/// width and signedness gives that same type.
pub proof fn lemma_same_integer_type_kept(l: NumericType, op: BinOp)
    requires
        l is Int || l is UInt,
        !op.spec_is_comparison(),
        !(op is Mul),
    ensures
        spec_numeric_result_type(l, op, l) == ResultType::Numeric(l),
{
}

/// The typing rule is symmetric in its operands.
pub proof fn lemma_numeric_result_symmetric(l: NumericType, op: BinOp, r: NumericType)
    ensures
        spec_numeric_result_type(l, op, r) == spec_numeric_result_type(r, op, l),
{
}

/// Integer arithmetic never narrows: the result is at least as wide as
/// each operand.
pub proof fn lemma_integer_result_not_narrower(l: NumericType, op: BinOp, r: NumericType)
    requires
        l.spec_is_integer(),
        r.spec_is_integer(),
    ensures
        spec_numeric_result_type(l, op, r) matches ResultType::Numeric(t) ==> {
            &&& t.spec_is_integer()
            &&& spec_concrete_width(t) >= spec_concrete_width(l)
            &&& spec_concrete_width(t) >= spec_concrete_width(r)
        },
{
}


// ─── Copies ────────────────────────────────────────────────────────

impl Lifetime {
    /// A copy of this lifetime.
    pub fn copy(&self) -> (r: Lifetime)
        ensures
            r == *self,
    {
        Lifetime { name: self.name.clone() }
    }
}

/// Two identifiers have the same name text and id.
pub open spec fn same_ident(a: Identifier, b: Identifier) -> bool {
    a.name@ == b.name@ && a.id == b.id
}

/// `a` and `b` are the same type: equal in every part, lists compared
/// element by element and names by their text.
pub open spec fn same_type(a: Type, b: Type) -> bool
    decreases a,
{
    match a {
        Type::Option(x) => b matches Type::Option(y) && same_type(*x, *y),
        Type::Result(x1, x2) => b matches Type::Result(y1, y2) && same_type(*x1, *y1) && same_type(*x2, *y2),
        Type::List(x) => b matches Type::List(y) && same_type(*x, *y),
        Type::MapOf(x1, x2) => b matches Type::MapOf(y1, y2) && same_type(*x1, *y1) && same_type(*x2, *y2),
        Type::SetOf(x) => b matches Type::SetOf(y) && same_type(*x, *y),
        Type::Struct(n, fs) => b matches Type::Struct(n2, gs) && same_ident(n2, n) && gs@.len() == fs@.len()
            && forall|i: int| #![trigger gs@[i]] 0 <= i < fs@.len() ==> same_ident(gs@[i].0, fs@[i].0) && same_type(fs@[i].1, gs@[i].1),
        Type::Enum(n, vs) => b matches Type::Enum(n2, ws) && same_ident(n2, n) && ws@.len() == vs@.len()
            && forall|i: int| #![trigger ws@[i]] 0 <= i < vs@.len() ==> same_ident(ws@[i].name, vs@[i].name) && match vs@[i].type_param {
                Some(x) => ws@[i].type_param matches Some(y) && same_type(x, y),
                None => ws@[i].type_param is None,
            },
        Type::Constrained(x, e) => b matches Type::Constrained(y, f) && same_type(*x, *y) && *f == *e,
        Type::Residual(x) => b matches Type::Residual(y) && same_type(*x, *y),
        Type::Behavior(r) => b matches Type::Behavior(q) && same_ident(q.name, r.name) && q.type_params@.len()
            == r.type_params@.len() && forall|i: int| 0 <= i < r.type_params@.len() ==> same_type(
            r.type_params@[i],
            #[trigger] q.type_params@[i],
        ),
        Type::Function { params, ret } => b matches Type::Function { params: p2, ret: r2 } && p2@.len()
            == params@.len() && (forall|i: int| 0 <= i < params@.len() ==> same_type(params@[i], #[trigger] p2@[i]))
            && same_type(*ret, *r2),
        Type::Range { start_type, end_type, closed } => b matches Type::Range {
            start_type: s2,
            end_type: e2,
            closed: c2,
        } && c2 == closed && same_type(*start_type, *s2) && same_type(*end_type, *e2),
        Type::Slice { element_type } => b matches Type::Slice { element_type: e2 } && same_type(*element_type, *e2),
        Type::Handle(n, l) => b matches Type::Handle(n2, l2) && same_ident(n, n2) && l.name@ == l2.name@,
        Type::UserDefined(x) => b matches Type::UserDefined(y) && x@ == y@,
        _ => b == a,
    }
}

impl Type {
    /// A deep copy of this type.
    pub fn copy(&self) -> (r: Type)
        ensures
            same_type(*self, r),
        decreases self,
    {
        match self {
            Type::Bool => Type::Bool,
            Type::Numeric(n) => Type::Numeric(*n),
            Type::Str => Type::Str,
            Type::Bytes => Type::Bytes,
            Type::Null => Type::Null,
            Type::Void => Type::Void,
            Type::Option(a) => Type::Option(Box::new((**a).copy())),
            Type::Result(a, b) => Type::Result(Box::new((**a).copy()), Box::new((**b).copy())),
            Type::List(a) => Type::List(Box::new((**a).copy())),
            Type::MapOf(a, b) => Type::MapOf(Box::new((**a).copy()), Box::new((**b).copy())),
            Type::SetOf(a) => Type::SetOf(Box::new((**a).copy())),
            Type::Struct(name, fields) => {
                let mut r: Vec<(Identifier, Type)> = Vec::new();
                let mut i: usize = 0;
                while i < fields.len()
                    invariant
                        *self == Type::Struct(*name, *fields),
                        i <= fields@.len(),
                        r@.len() == i,
                        forall|j: int| #![trigger r@[j]] 0 <= j < i ==> same_ident(r@[j].0, fields@[j].0) && same_type(fields@[j].1, r@[j].1),
                    decreases fields@.len() - i,
                {
                    proof {
                        vstd::std_specs::vec::axiom_vec_index_decreases(*fields, i as int);
                        assert(decreases_to!(*self => self->Struct_1));
                        assert(decreases_to!(*self => fields@[i as int].1));
                    }
                    let c = fields[i].1.copy();
                    r.push((fields[i].0.copy(), c));
                    i += 1;
                }
                let res = Type::Struct(name.copy(), r);
                assert(same_type(*self, res));
                res
            },
            Type::Enum(name, variants) => {
                let mut r: Vec<SumVariant> = Vec::new();
                let mut i: usize = 0;
                while i < variants.len()
                    invariant
                        *self == Type::Enum(*name, *variants),
                        i <= variants@.len(),
                        r@.len() == i,
                        forall|j: int| #![trigger r@[j]] 0 <= j < i ==> same_ident(r@[j].name, variants@[j].name) && match variants@[j].type_param {
                            Some(x) => r@[j].type_param matches Some(y) && same_type(x, y),
                            None => r@[j].type_param is None,
                        },
                    decreases variants@.len() - i,
                {
                    let v = &variants[i];
                    proof {
                        vstd::std_specs::vec::axiom_vec_index_decreases(*variants, i as int);
                        assert(decreases_to!(*self => self->Enum_1));
                        assert(decreases_to!(*self => variants@[i as int].type_param));
                    }
                    let tp = match &v.type_param {
                        Some(t) => {
                            proof {
                                assert(decreases_to!(*self => *t));
                            }
                            Some(t.copy())
                        },
                        None => None,
                    };
                    r.push(SumVariant { name: v.name.copy(), type_param: tp });
                    i += 1;
                }
                let res = Type::Enum(name.copy(), r);
                assert(same_type(*self, res));
                res
            },
            Type::Constrained(a, e) => Type::Constrained(Box::new((**a).copy()), Box::new(**e)),
            Type::Residual(a) => Type::Residual(Box::new((**a).copy())),
            Type::Behavior(b) => {
                let mut r: Vec<Type> = Vec::new();
                let mut i: usize = 0;
                while i < b.type_params.len()
                    invariant
                        *self == Type::Behavior(*b),
                        i <= b.type_params@.len(),
                        r@.len() == i,
                        forall|j: int| 0 <= j < i ==> same_type(b.type_params@[j], #[trigger] r@[j]),
                    decreases b.type_params@.len() - i,
                {
                    proof {
                        vstd::std_specs::vec::axiom_vec_index_decreases(b.type_params, i as int);
                        assert(decreases_to!(*self => self->Behavior_0));
                        assert(decreases_to!(*self => b.type_params));
                        assert(decreases_to!(*self => b.type_params@[i as int]));
                    }
                    r.push(b.type_params[i].copy());
                    i += 1;
                }
                let nm = b.name.copy();
                assert(i == b.type_params@.len());
                let res = Type::Behavior(BehaviorRef { name: nm, type_params: r });
                assert(same_type(*self, res));
                res
            },
            Type::Handle(name, l) => Type::Handle(name.copy(), l.copy()),
            Type::Function { params, ret } => {
                let mut r: Vec<Type> = Vec::new();
                let mut i: usize = 0;
                while i < params.len()
                    invariant
                        *self == (Type::Function { params: *params, ret: *ret }),
                        i <= params@.len(),
                        r@.len() == i,
                        forall|j: int| 0 <= j < i ==> same_type(params@[j], #[trigger] r@[j]),
                    decreases params@.len() - i,
                {
                    proof {
                        vstd::std_specs::vec::axiom_vec_index_decreases(*params, i as int);
                        assert(decreases_to!(*self => self->params));
                        assert(decreases_to!(*self => params@[i as int]));
                    }
                    r.push(params[i].copy());
                    i += 1;
                }
                let rr = (**ret).copy();
                let res = Type::Function { params: r, ret: Box::new(rr) };
                assert(same_type(*self, res));
                res
            },
            Type::SourceLoc => Type::SourceLoc,
            Type::Range { start_type, end_type, closed } => Type::Range {
                start_type: Box::new((**start_type).copy()),
                end_type: Box::new((**end_type).copy()),
                closed: *closed,
            },
            Type::Slice { element_type } => Type::Slice { element_type: Box::new((**element_type).copy()) },
            Type::RegionError => Type::RegionError,
            Type::UserDefined(s) => Type::UserDefined(s.clone()),
        }
    }
}


/// Two identifiers are equal.
fn identifiers_equal(a: &Identifier, b: &Identifier) -> (r: bool)
    ensures
        r == same_ident(*a, *b),
{
    crate::text::str_eq(a.name.as_str(), b.name.as_str()) && a.id == b.id
}

impl Type {
    /// This type and `other` are the same type (see [`same_type`]).
    pub fn same_as(&self, other: &Type) -> (r: bool)
        ensures
            r == same_type(*self, *other),
        decreases self,
    {
        match (self, other) {
            (Type::Option(x), Type::Option(y)) => x.same_as(y),
            (Type::Result(x1, x2), Type::Result(y1, y2)) => x1.same_as(y1) && x2.same_as(y2),
            (Type::List(x), Type::List(y)) => x.same_as(y),
            (Type::MapOf(x1, x2), Type::MapOf(y1, y2)) => x1.same_as(y1) && x2.same_as(y2),
            (Type::SetOf(x), Type::SetOf(y)) => x.same_as(y),
            (Type::Residual(x), Type::Residual(y)) => x.same_as(y),
            (Type::Constrained(x, e), Type::Constrained(y, f)) => x.same_as(y) && **e == **f,
            (Type::Range { start_type: s1, end_type: e1, closed: c1 }, Type::Range {
                start_type: s2,
                end_type: e2,
                closed: c2,
            }) => *c1 == *c2 && s1.same_as(s2) && e1.same_as(e2),
            (Type::Slice { element_type: x }, Type::Slice { element_type: y }) => x.same_as(y),
            (Type::Struct(n1, fs), Type::Struct(n2, gs)) => {
                if !identifiers_equal(n2, n1) || fs.len() != gs.len() {
                    return false;
                }
                let mut i: usize = 0;
                while i < fs.len()
                    invariant
                        *self == Type::Struct(*n1, *fs),
                        *other == Type::Struct(*n2, *gs),
                        same_ident(*n2, *n1),
                        fs@.len() == gs@.len(),
                        i <= fs@.len(),
                        forall|j: int| #![trigger gs@[j]] 0 <= j < i ==> same_ident(gs@[j].0, fs@[j].0) && same_type(fs@[j].1, gs@[j].1),
                    decreases fs@.len() - i,
                {
                    proof {
                        vstd::std_specs::vec::axiom_vec_index_decreases(*fs, i as int);
                        assert(decreases_to!(*self => self->Struct_1));
                        assert(decreases_to!(*self => fs@[i as int].1));
                    }
                    let ok_name = identifiers_equal(&gs[i].0, &fs[i].0);
                    if !ok_name {
                        return false;
                    }
                    let ok_type = fs[i].1.same_as(&gs[i].1);
                    if !ok_type {
                        return false;
                    }
                    assert(same_ident(gs@[i as int].0, fs@[i as int].0));
                    assert(same_type(fs@[i as int].1, gs@[i as int].1));
                    i += 1;
                }
                assert(same_type(*self, *other));
                true
            },
            (Type::Enum(n1, vs), Type::Enum(n2, ws)) => {
                if !identifiers_equal(n2, n1) || vs.len() != ws.len() {
                    return false;
                }
                let mut i: usize = 0;
                while i < vs.len()
                    invariant
                        *self == Type::Enum(*n1, *vs),
                        *other == Type::Enum(*n2, *ws),
                        same_ident(*n2, *n1),
                        vs@.len() == ws@.len(),
                        i <= vs@.len(),
                        forall|j: int| #![trigger ws@[j]] 0 <= j < i ==> same_ident(ws@[j].name, vs@[j].name) && match vs@[j].type_param {
                            Some(x) => ws@[j].type_param matches Some(y) && same_type(x, y),
                            None => ws@[j].type_param is None,
                        },
                    decreases vs@.len() - i,
                {
                    proof {
                        vstd::std_specs::vec::axiom_vec_index_decreases(*vs, i as int);
                        assert(decreases_to!(*self => self->Enum_1));
                        assert(decreases_to!(*self => vs@[i as int].type_param));
                    }
                    let ok = identifiers_equal(&ws[i].name, &vs[i].name) && match (&vs[i].type_param, &ws[i].type_param) {
                        (Some(x), Some(y)) => {
                            proof {
                                assert(decreases_to!(*self => *x));
                            }
                            x.same_as(y)
                        },
                        (None, None) => true,
                        _ => false,
                    };
                    if !ok {
                        return false;
                    }
                    i += 1;
                }
                true
            },
            (Type::Behavior(p), Type::Behavior(q)) => {
                if !identifiers_equal(&q.name, &p.name) || p.type_params.len() != q.type_params.len() {
                    return false;
                }
                let mut i: usize = 0;
                while i < p.type_params.len()
                    invariant
                        *self == Type::Behavior(*p),
                        *other == Type::Behavior(*q),
                        same_ident(q.name, p.name),
                        p.type_params@.len() == q.type_params@.len(),
                        i <= p.type_params@.len(),
                        forall|j: int| 0 <= j < i ==> same_type(p.type_params@[j], #[trigger] q.type_params@[j]),
                    decreases p.type_params@.len() - i,
                {
                    proof {
                        vstd::std_specs::vec::axiom_vec_index_decreases(p.type_params, i as int);
                        assert(decreases_to!(*self => self->Behavior_0));
                        assert(decreases_to!(*self => p.type_params));
                        assert(decreases_to!(*self => p.type_params@[i as int]));
                    }
                    if !p.type_params[i].same_as(&q.type_params[i]) {
                        return false;
                    }
                    i += 1;
                }
                true
            },
            (Type::Function { params: ps, ret: r1 }, Type::Function { params: qs, ret: r2 }) => {
                if ps.len() != qs.len() {
                    return false;
                }
                let mut i: usize = 0;
                while i < ps.len()
                    invariant
                        *self == (Type::Function { params: *ps, ret: *r1 }),
                        *other == (Type::Function { params: *qs, ret: *r2 }),
                        ps@.len() == qs@.len(),
                        i <= ps@.len(),
                        forall|j: int| 0 <= j < i ==> same_type(ps@[j], #[trigger] qs@[j]),
                    decreases ps@.len() - i,
                {
                    proof {
                        vstd::std_specs::vec::axiom_vec_index_decreases(*ps, i as int);
                        assert(decreases_to!(*self => self->params));
                        assert(decreases_to!(*self => ps@[i as int]));
                    }
                    if !ps[i].same_as(&qs[i]) {
                        return false;
                    }
                    i += 1;
                }
                r1.same_as(r2)
            },
            (Type::Bool, Type::Bool) => true,
            (Type::Numeric(a), Type::Numeric(b)) => *a == *b,
            (Type::Str, Type::Str) => true,
            (Type::Bytes, Type::Bytes) => true,
            (Type::Null, Type::Null) => true,
            (Type::Void, Type::Void) => true,
            (Type::SourceLoc, Type::SourceLoc) => true,
            (Type::RegionError, Type::RegionError) => true,
            (Type::Handle(n1, l1), Type::Handle(n2, l2)) => identifiers_equal(n1, n2) && crate::text::str_eq(
                l1.name.as_str(),
                l2.name.as_str(),
            ),
            (Type::UserDefined(a), Type::UserDefined(b)) => crate::text::str_eq(a.as_str(), b.as_str()),
            _ => false,
        }
    }
}


/// `a` and `b` are the same literal value: equal in every part, lists and
/// byte strings compared element by element and names by their text.
pub open spec fn same_lit(a: LiteralValue, b: LiteralValue) -> bool
    decreases a,
{
    match a {
        LiteralValue::Str(x) => b matches LiteralValue::Str(y) && x@ == y@,
        LiteralValue::Float { value, width } => b matches LiteralValue::Float { value: v2, width: w2 } && v2@
            == value@ && w2 == width,
        LiteralValue::Bytes(x) => b matches LiteralValue::Bytes(y) && x@ == y@,
        LiteralValue::Struct { name, fields } => b matches LiteralValue::Struct { name: n2, fields: f2 }
            && same_ident(n2, name) && f2@.len() == fields@.len() && forall|i: int|
            #![trigger f2@[i]]
            0 <= i < fields@.len() ==> same_ident(f2@[i].0, fields@[i].0) && same_lit(fields@[i].1, f2@[i].1),
        LiteralValue::List(xs) => b matches LiteralValue::List(ys) && ys@.len() == xs@.len() && forall|i: int|
            #![trigger ys@[i]]
            0 <= i < xs@.len() ==> same_lit(xs@[i], ys@[i]),
        _ => b == a,
    }
}

impl LiteralValue {
    /// A deep copy of this literal value.
    pub fn copy(&self) -> (r: LiteralValue)
        ensures
            same_lit(*self, r),
        decreases self,
    {
        match self {
            LiteralValue::Int { value, width, signed } => LiteralValue::Int { value: *value, width: *width, signed: *signed },
            LiteralValue::UInt(v, w) => LiteralValue::UInt(*v, *w),
            LiteralValue::Float { value, width } => LiteralValue::Float { value: value.clone(), width: *width },
            LiteralValue::Str(x) => LiteralValue::Str(x.clone()),
            LiteralValue::Bool(x) => LiteralValue::Bool(*x),
            LiteralValue::Null => LiteralValue::Null,
            LiteralValue::Bytes(x) => {
                let mut r: Vec<u8> = Vec::new();
                let mut i: usize = 0;
                while i < x.len()
                    invariant
                        i <= x@.len(),
                        r@ == x@.take(i as int),
                    decreases x@.len() - i,
                {
                    r.push(x[i]);
                    assert(r@ =~= x@.take(i + 1));
                    i += 1;
                }
                assert(r@ =~= x@);
                LiteralValue::Bytes(r)
            },
            LiteralValue::Char(c) => LiteralValue::Char(*c),
            LiteralValue::Struct { name, fields } => {
                let mut r: Vec<(Identifier, LiteralValue)> = Vec::new();
                let mut i: usize = 0;
                while i < fields.len()
                    invariant
                        *self == (LiteralValue::Struct { name: *name, fields: *fields }),
                        i <= fields@.len(),
                        r@.len() == i,
                        forall|j: int| #![trigger r@[j]] 0 <= j < i ==> same_ident(r@[j].0, fields@[j].0) && same_lit(fields@[j].1, r@[j].1),
                    decreases fields@.len() - i,
                {
                    proof {
                        vstd::std_specs::vec::axiom_vec_index_decreases(*fields, i as int);
                        assert(decreases_to!(*self => self->Struct_fields));
                        assert(decreases_to!(*self => fields@[i as int].1));
                    }
                    let c = fields[i].1.copy();
                    r.push((fields[i].0.copy(), c));
                    i += 1;
                }
                LiteralValue::Struct { name: name.copy(), fields: r }
            },
            LiteralValue::List(xs) => {
                let mut r: Vec<LiteralValue> = Vec::new();
                let mut i: usize = 0;
                while i < xs.len()
                    invariant
                        *self == LiteralValue::List(*xs),
                        i <= xs@.len(),
                        r@.len() == i,
                        forall|j: int| #![trigger r@[j]] 0 <= j < i ==> same_lit(xs@[j], r@[j]),
                    decreases xs@.len() - i,
                {
                    proof {
                        vstd::std_specs::vec::axiom_vec_index_decreases(*xs, i as int);
                        assert(decreases_to!(*self => self->List_0));
                        assert(decreases_to!(*self => xs@[i as int]));
                    }
                    r.push(xs[i].copy());
                    i += 1;
                }
                LiteralValue::List(r)
            },
        }
    }
}

impl UnaryOp {
    /// A copy of this operator.
    pub fn copy(&self) -> (r: UnaryOp)
        ensures
            self is Neg ==> r is Neg,
            self is Not ==> r is Not,
            self is BitNot ==> r is BitNot,
            *self matches UnaryOp::Cast(t) ==> (r matches UnaryOp::Cast(u) && same_type(*t, *u)),
    {
        match self {
            UnaryOp::Neg => UnaryOp::Neg,
            UnaryOp::Not => UnaryOp::Not,
            UnaryOp::BitNot => UnaryOp::BitNot,
            UnaryOp::Cast(t) => UnaryOp::Cast(Box::new((**t).copy())),
        }
    }
}


fn bytes_equal(a: &Vec<u8>, b: &Vec<u8>) -> (r: bool)
    ensures
        r == (a@ == b@),
{
    if a.len() != b.len() {
        return false;
    }
    let mut i: usize = 0;
    while i < a.len()
        invariant
            a@.len() == b@.len(),
            i <= a@.len(),
            forall|j: int| 0 <= j < i ==> a@[j] == b@[j],
        decreases a@.len() - i,
    {
        if a[i] != b[i] {
            return false;
        }
        i += 1;
    }
    assert(a@ =~= b@);
    true
}

impl LiteralValue {
    /// This literal and `other` are the same value (see [`same_lit`]).
    pub fn same_as(&self, other: &LiteralValue) -> (r: bool)
        ensures
            r == same_lit(*self, *other),
        decreases self,
    {
        match (self, other) {
            (LiteralValue::Int { value: v1, width: w1, signed: s1 }, LiteralValue::Int { value: v2, width: w2, signed: s2 }) => {
                *v1 == *v2 && *w1 == *w2 && *s1 == *s2
            },
            (LiteralValue::UInt(v1, w1), LiteralValue::UInt(v2, w2)) => *v1 == *v2 && *w1 == *w2,
            (LiteralValue::Float { value: v1, width: w1 }, LiteralValue::Float { value: v2, width: w2 }) => {
                crate::text::str_eq(v1.as_str(), v2.as_str()) && *w1 == *w2
            },
            (LiteralValue::Str(x), LiteralValue::Str(y)) => crate::text::str_eq(x.as_str(), y.as_str()),
            (LiteralValue::Bool(x), LiteralValue::Bool(y)) => *x == *y,
            (LiteralValue::Null, LiteralValue::Null) => true,
            (LiteralValue::Bytes(x), LiteralValue::Bytes(y)) => bytes_equal(x, y),
            (LiteralValue::Char(x), LiteralValue::Char(y)) => *x == *y,
            (LiteralValue::Struct { name: n1, fields: f1 }, LiteralValue::Struct { name: n2, fields: f2 }) => {
                if !identifiers_equal(n2, n1) || f1.len() != f2.len() {
                    return false;
                }
                let mut i: usize = 0;
                while i < f1.len()
                    invariant
                        *self == (LiteralValue::Struct { name: *n1, fields: *f1 }),
                        *other == (LiteralValue::Struct { name: *n2, fields: *f2 }),
                        same_ident(*n2, *n1),
                        f1@.len() == f2@.len(),
                        i <= f1@.len(),
                        forall|j: int| #![trigger f2@[j]] 0 <= j < i ==> same_ident(f2@[j].0, f1@[j].0) && same_lit(f1@[j].1, f2@[j].1),
                    decreases f1@.len() - i,
                {
                    proof {
                        vstd::std_specs::vec::axiom_vec_index_decreases(*f1, i as int);
                        assert(decreases_to!(*self => self->Struct_fields));
                        assert(decreases_to!(*self => f1@[i as int].1));
                    }
                    let ok_name = identifiers_equal(&f2[i].0, &f1[i].0);
                    if !ok_name {
                        return false;
                    }
                    let ok_val = f1[i].1.same_as(&f2[i].1);
                    if !ok_val {
                        return false;
                    }
                    i += 1;
                }
                true
            },
            (LiteralValue::List(xs), LiteralValue::List(ys)) => {
                if xs.len() != ys.len() {
                    return false;
                }
                let mut i: usize = 0;
                while i < xs.len()
                    invariant
                        *self == LiteralValue::List(*xs),
                        *other == LiteralValue::List(*ys),
                        xs@.len() == ys@.len(),
                        i <= xs@.len(),
                        forall|j: int| #![trigger ys@[j]] 0 <= j < i ==> same_lit(xs@[j], ys@[j]),
                    decreases xs@.len() - i,
                {
                    proof {
                        vstd::std_specs::vec::axiom_vec_index_decreases(*xs, i as int);
                        assert(decreases_to!(*self => self->List_0));
                        assert(decreases_to!(*self => xs@[i as int]));
                    }
                    if !xs[i].same_as(&ys[i]) {
                        return false;
                    }
                    i += 1;
                }
                true
            },
            _ => false,
        }
    }
}

} // verus!
