use resid::retro::{literal_expr, provider_name, type_ann, type_of_lit, type_to_str, type_to_str_el};
use resid::types::{AstExpr, IntWidth, LiteralValue, NumericType, Provider, Span, Type, UnaryOp};

#[test]
fn type_ann_skips_residual() {
    assert_eq!(type_ann(&Type::Residual(Box::new(Type::Bool))), None);
    assert_eq!(type_ann(&Type::Bool), Some("Bool".to_string()));
}

#[test]
fn provider_name_maps() {
    assert_eq!(provider_name(&Provider::Filesystem), "filesystem");
    assert_eq!(provider_name(&Provider::Git), "git");
}

#[test]
fn type_spellings() {
    assert_eq!(type_to_str(&Type::Numeric(NumericType::UInt(IntWidth::B8))), "UInt(8)");
    assert_eq!(
        type_to_str(&Type::MapOf(Box::new(Type::Str), Box::new(Type::List(Box::new(Type::Bool))))),
        "Map(Str, List(Bool))"
    );
    assert_eq!(type_to_str_el(&Type::Str), "Char");
    assert_eq!(type_to_str_el(&Type::Bytes), "UInt(8)");
    assert_eq!(type_ann(&Type::Void), None);
}

#[test]
fn literal_back_translation() {
    let sp = Span::unknown();
    let lit = LiteralValue::Int { value: 7, width: IntWidth::B64, signed: true };
    let t = type_of_lit(&lit);
    assert_eq!(literal_expr(lit, &t, &sp), AstExpr::Literal { value: 7, kind: resid::types::AstIntKind::Decimal, span: Span::unknown() });
    let lit8 = LiteralValue::Int { value: 7, width: IntWidth::B8, signed: true };
    let t8 = type_of_lit(&lit8);
    match literal_expr(lit8, &t8, &sp) {
        AstExpr::UnaryOp { op: UnaryOp::Cast(ty), .. } => {
            assert_eq!(*ty, Type::Numeric(NumericType::Int(IntWidth::B8)))
        }
        other => panic!("expected cast, got {:?}", other),
    }
}
