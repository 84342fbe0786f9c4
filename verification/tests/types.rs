use resid::types::{
    numeric_result_type, BinOp, FloatWidth, Identifier, IntWidth, LiteralValue, NumericError,
    NumericType, Provenance, ResultType, Span, Type,
};

#[test]
fn test_int_width_bits() {
    assert_eq!(IntWidth::B8.bits(), 8);
    assert_eq!(IntWidth::B64.bits(), 64);
    assert_eq!(IntWidth::B512.bits(), 512);
}

#[test]
fn test_int_width_from_bits() {
    assert_eq!(IntWidth::from_bits(8), Some(IntWidth::B8));
    assert_eq!(IntWidth::from_bits(64), Some(IntWidth::B64));
    assert_eq!(IntWidth::from_bits(100), None);
}

#[test]
fn test_float_width_bits() {
    assert_eq!(FloatWidth::F16.bits(), 16);
    assert_eq!(FloatWidth::F64.bits(), 64);
    assert_eq!(FloatWidth::F128.bits(), 128);
    assert_eq!(FloatWidth::from_bits(256), None);
    assert_eq!(FloatWidth::from_bits(512), None);
}

#[test]
fn test_numeric_type_from_name() {
    assert_eq!(
        NumericType::from_name("Int"),
        Some(NumericType::Int(IntWidth::B64))
    );
    assert_eq!(
        NumericType::from_name("UInt"),
        Some(NumericType::UInt(IntWidth::B64))
    );
    assert_eq!(
        NumericType::from_name("Float"),
        Some(NumericType::Float(FloatWidth::F64))
    );
    assert_eq!(NumericType::from_name("ISize"), Some(NumericType::ISize));
    assert_eq!(NumericType::from_name("USize"), Some(NumericType::USize));
    assert_eq!(
        NumericType::from_name("i32"),
        Some(NumericType::Int(IntWidth::B32))
    );
    assert_eq!(
        NumericType::from_name("u16"),
        Some(NumericType::UInt(IntWidth::B16))
    );
    assert_eq!(
        NumericType::from_name("f32"),
        Some(NumericType::Float(FloatWidth::F32))
    );
    assert_eq!(
        NumericType::from_name("f128"),
        Some(NumericType::Float(FloatWidth::F128))
    );
    assert_eq!(NumericType::from_name("invalid"), None);
}

#[test]
fn test_numeric_type_is_signed() {
    assert!(NumericType::Int(IntWidth::B64).is_signed());
    assert!(NumericType::ISize.is_signed());
    assert!(!NumericType::UInt(IntWidth::B64).is_signed());
    assert!(!NumericType::Float(FloatWidth::F64).is_signed());
}

#[test]
fn test_numeric_type_is_unsigned() {
    assert!(NumericType::UInt(IntWidth::B64).is_unsigned());
    assert!(NumericType::USize.is_unsigned());
    assert!(!NumericType::Int(IntWidth::B64).is_unsigned());
}

#[test]
fn test_numeric_type_is_integer() {
    assert!(NumericType::Int(IntWidth::B64).is_integer());
    assert!(NumericType::UInt(IntWidth::B64).is_integer());
    assert!(!NumericType::Float(FloatWidth::F64).is_integer());
}

#[test]
fn test_numeric_type_is_float() {
    assert!(NumericType::Float(FloatWidth::F64).is_float());
    assert!(!NumericType::Int(IntWidth::B64).is_float());
}

#[test]
fn test_numeric_type_target_width() {
    assert_eq!(NumericType::Int(IntWidth::B32).target_width(), Some(32));
    assert_eq!(NumericType::UInt(IntWidth::B64).target_width(), Some(64));
    assert_eq!(
        NumericType::Float(FloatWidth::F128).target_width(),
        Some(128)
    );
    assert_eq!(NumericType::ISize.target_width(), Some(64));
}

#[test]
fn test_binop_is_comparison() {
    assert!(BinOp::Eq.is_comparison());
    assert!(BinOp::Lt.is_comparison());
    assert!(!BinOp::Add.is_comparison());
    assert!(!BinOp::Mul.is_comparison());
}

#[test]
fn test_numeric_result_type_add_widening() {
    // Spec v3.2 §6.1: add/sub yield the widest operand width;
    // overflow is handled by checked semantics, not promotion.
    let i8_t = NumericType::Int(IntWidth::B8);
    let i8_t2 = NumericType::Int(IntWidth::B8);
    let result = numeric_result_type(&i8_t, BinOp::Add, &i8_t2);
    match result {
        ResultType::Numeric(NumericType::Int(w)) => assert_eq!(w, IntWidth::B8),
        _ => panic!("expected Int(8)"),
    }
    // Multiplication keeps the range rule.
    let mul = numeric_result_type(&i8_t, BinOp::Mul, &i8_t2);
    match mul {
        ResultType::Numeric(NumericType::Int(w)) => assert_eq!(w, IntWidth::B16),
        _ => panic!("expected Int(16) for mul"),
    }
}

#[test]
fn test_numeric_result_type_signedness_mix_error() {
    let signed = NumericType::Int(IntWidth::B64);
    let unsigned = NumericType::UInt(IntWidth::B64);
    assert!(matches!(
        numeric_result_type(&signed, BinOp::Add, &unsigned),
        ResultType::Error(_)
    ));
    assert!(matches!(
        numeric_result_type(&unsigned, BinOp::Add, &signed),
        ResultType::Error(_)
    ));
}

#[test]
fn test_numeric_result_type_comparison_produces_bool() {
    let i64 = NumericType::Int(IntWidth::B64);
    assert!(matches!(
        numeric_result_type(&i64, BinOp::Lt, &i64),
        ResultType::Bool
    ));
    assert!(matches!(
        numeric_result_type(&i64, BinOp::Eq, &i64),
        ResultType::Bool
    ));
}

#[test]
fn test_numeric_result_type_float_widening() {
    let f32 = NumericType::Float(FloatWidth::F32);
    let f64 = NumericType::Float(FloatWidth::F64);
    let result = numeric_result_type(&f32, BinOp::Add, &f64);
    assert!(matches!(
        result,
        ResultType::Numeric(NumericType::Float(FloatWidth::F64))
    ));
}

#[test]
fn test_dec_arithmetic_max_digits() {
    let d2 = NumericType::Dec(2);
    let d5 = NumericType::Dec(5);
    assert!(matches!(
        numeric_result_type(&d2, BinOp::Add, &d5),
        ResultType::Numeric(NumericType::Dec(5))
    ));
    assert!(matches!(
        numeric_result_type(&d2, BinOp::Mul, &d2),
        ResultType::Numeric(NumericType::Dec(2))
    ));
}

#[test]
fn test_dec_mix_is_hard_error() {
    let d = NumericType::Dec(4);
    let i = NumericType::Int(IntWidth::B64);
    let f = NumericType::Float(FloatWidth::F64);
    let u = NumericType::UInt(IntWidth::B64);
    assert!(matches!(
        numeric_result_type(&d, BinOp::Add, &i),
        ResultType::Error(NumericError::DecMix)
    ));
    assert!(matches!(
        numeric_result_type(&i, BinOp::Add, &d),
        ResultType::Error(NumericError::DecMix)
    ));
    assert!(matches!(
        numeric_result_type(&d, BinOp::Add, &f),
        ResultType::Error(NumericError::DecMix)
    ));
    assert!(matches!(
        numeric_result_type(&u, BinOp::Add, &d),
        ResultType::Error(NumericError::DecMix)
    ));
}

#[test]
fn test_dec_comparison_and_bitwise() {
    let d = NumericType::Dec(4);
    assert!(matches!(
        numeric_result_type(&d, BinOp::Lt, &d),
        ResultType::Bool
    ));
    assert!(matches!(
        numeric_result_type(&d, BinOp::Eq, &d),
        ResultType::Bool
    ));
    assert!(matches!(
        numeric_result_type(&d, BinOp::And, &d),
        ResultType::Error(NumericError::DecOp)
    ));
    assert!(matches!(
        numeric_result_type(&d, BinOp::ShiftLeft, &d),
        ResultType::Error(NumericError::DecOp)
    ));
}

#[test]
fn test_dec_from_name() {
    assert_eq!(
        NumericType::from_name("Dec"),
        Some(NumericType::Dec(34))
    );
    assert_eq!(NumericType::from_name("d12"), Some(NumericType::Dec(12)));
    assert_eq!(NumericType::from_name("d1"), Some(NumericType::Dec(1)));
    assert_eq!(NumericType::from_name("d0"), None);
    assert_eq!(NumericType::from_name("dabc"), None);
    assert_eq!(NumericType::from_name("Dec(8)"), None);
}

#[test]
fn test_dec_target_width_none() {
    assert_eq!(NumericType::Dec(4).target_width(), None);
    assert!(!NumericType::Dec(4).is_signed());
    assert!(!NumericType::Dec(4).is_unsigned());
    assert!(!NumericType::Dec(4).is_integer());
    assert!(!NumericType::Dec(4).is_float());
    assert!(NumericType::Dec(4).is_dec());
}

#[test]
fn test_numeric_result_type_int_float_mixed() {
    let i32 = NumericType::Int(IntWidth::B32);
    let f64 = NumericType::Float(FloatWidth::F64);
    let result = numeric_result_type(&i32, BinOp::Add, &f64);
    assert!(matches!(
        result,
        ResultType::Numeric(NumericType::Float(FloatWidth::F64))
    ));
}

#[test]
fn test_literal_value_display() {
    let int_lit = LiteralValue::Int {
        value: 42,
        width: IntWidth::B64,
        signed: true,
    };
    assert_eq!(int_lit.to_display(), "42_64");

    let bool_lit = LiteralValue::Bool(true);
    assert_eq!(bool_lit.to_display(), "true");

    let str_lit = LiteralValue::Str("hello".into());
    assert_eq!(str_lit.to_display(), "\"hello\"");
}

#[test]
fn test_type_display() {
    assert_eq!(Type::Bool.to_display(), "bool");
    assert_eq!(
        Type::Numeric(NumericType::Int(IntWidth::B64)).to_display(),
        "Int(64)"
    );
    assert_eq!(Type::Str.to_display(), "str");
    assert_eq!(Type::Void.to_display(), "void");
}

#[test]
fn test_span_unknown() {
    let s = Span::unknown();
    assert_eq!(s.file, "<unknown>");
    assert_eq!(s.line, 0);
}

#[test]
fn test_identifier_new() {
    let id = Identifier::new("foo", 42);
    assert_eq!(id.name, "foo");
    assert_eq!(id.id, 42);
    assert_eq!(id.to_display(), "foo");
}

#[test]
fn test_provenance_display() {
    let p = Provenance::Inferred;
    let _ = format!("{:?}", p);
}
