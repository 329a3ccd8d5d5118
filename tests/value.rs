use sysctl_conf::error::ConfError;
use sysctl_conf::value::{Type, Value};

#[test]
fn classification_precedence() {
    assert_eq!(Value::from("true"), Value::Bool(true));
    assert_eq!(Value::from("false"), Value::Bool(false));
    assert_eq!(Value::from("0"), Value::U8(0));
    assert_eq!(Value::from("-1"), Value::I8(-1));
    assert_eq!(Value::from("256"), Value::U16(256));
    assert_eq!(Value::from("-129"), Value::I16(-129));
    assert_eq!(Value::from("/sbin/mod probe"), Value::Str("/sbin/mod probe"));
}

#[test]
fn classification_edges() {
    assert_eq!(Value::from("255"), Value::U8(255));
    assert_eq!(Value::from("65536"), Value::U32(65536));
    assert_eq!(Value::from("4294967296"), Value::U64(4294967296));
    assert_eq!(Value::from("18446744073709551616"), Value::U128(18446744073709551616));
    assert_eq!(
        Value::from("340282366920938463463374607431768211455"),
        Value::U128(u128::MAX)
    );
    assert_eq!(
        Value::from("340282366920938463463374607431768211456"),
        Value::Str("340282366920938463463374607431768211456")
    );
    assert_eq!(Value::from("-128"), Value::I8(-128));
    assert_eq!(Value::from("-32769"), Value::I32(-32769));
    assert_eq!(Value::from("-2147483649"), Value::I64(-2147483649));
    assert_eq!(Value::from("-9223372036854775809"), Value::I128(-9223372036854775809));
    assert_eq!(
        Value::from("-170141183460469231731687303715884105728"),
        Value::I128(i128::MIN)
    );
    assert_eq!(
        Value::from("-170141183460469231731687303715884105729"),
        Value::Str("-170141183460469231731687303715884105729")
    );
    assert_eq!(Value::from("+5"), Value::U8(5));
    assert_eq!(Value::from("007"), Value::U8(7));
    assert_eq!(Value::from("-0"), Value::I8(0));
    assert_eq!(Value::from(""), Value::Str(""));
    assert_eq!(Value::from("+"), Value::Str("+"));
    assert_eq!(Value::from("-"), Value::Str("-"));
    assert_eq!(Value::from("True"), Value::Str("True"));
    assert_eq!(Value::from("1 2"), Value::Str("1 2"));
    assert_eq!(Value::from("0x10"), Value::Str("0x10"));
}

#[test]
fn rendering() {
    assert_eq!(Value::Bool(true).to_string(), "true");
    assert_eq!(Value::Bool(false).to_string(), "false");
    assert_eq!(Value::U8(0).to_string(), "0");
    assert_eq!(Value::U16(1024).to_string(), "1024");
    assert_eq!(Value::U128(u128::MAX).to_string(), "340282366920938463463374607431768211455");
    assert_eq!(Value::I8(-1).to_string(), "-1");
    assert_eq!(Value::I16(-1024).to_string(), "-1024");
    assert_eq!(Value::I128(i128::MIN).to_string(), "-170141183460469231731687303715884105728");
    assert_eq!(Value::Str("a b").to_string(), "a b");
}

#[test]
fn render_then_classify_round_trips() {
    for text in [
        "true", "false", "0", "7", "255", "256", "65535", "65536", "4294967296",
        "18446744073709551616", "340282366920938463463374607431768211455", "-1", "-128",
        "-129", "-32769", "-2147483649", "-9223372036854775809",
        "-170141183460469231731687303715884105728", "+42", "0012",
    ] {
        let v = Value::from(text);
        let rendered = v.to_string();
        assert_eq!(Value::from(&rendered), v, "{text}");
    }
    let rendered = Value::from("-0").to_string();
    assert_eq!(Value::from(&rendered), Value::U8(0));
}

#[test]
fn type_names() {
    assert_eq!(Type::from_str("bool"), Ok(Type::Bool));
    assert_eq!(Type::from_str("u8"), Ok(Type::U8));
    assert_eq!(Type::from_str("u16"), Ok(Type::U16));
    assert_eq!(Type::from_str("u32"), Ok(Type::U32));
    assert_eq!(Type::from_str("u64"), Ok(Type::U64));
    assert_eq!(Type::from_str("u128"), Ok(Type::U128));
    assert_eq!(Type::from_str("i8"), Ok(Type::I8));
    assert_eq!(Type::from_str("i16"), Ok(Type::I16));
    assert_eq!(Type::from_str("i32"), Ok(Type::I32));
    assert_eq!(Type::from_str("i64"), Ok(Type::I64));
    assert_eq!(Type::from_str("i128"), Ok(Type::I128));
    assert_eq!(Type::from_str("string"), Ok(Type::Str));
    assert_eq!(Type::from_str("U8"), Err(ConfError::UnknownType { name: "U8".to_string() }));
    assert_eq!(Type::from_str("str"), Err(ConfError::UnknownType { name: "str".to_string() }));
}

#[test]
fn type_validation() {
    assert_eq!(Type::Bool.validate("k", "true"), Ok(()));
    assert_eq!(
        Type::Bool.validate("k", "3"),
        Err(ConfError::TypeMismatch { key: "k".to_string(), expected: Type::Bool, text: "3".to_string() })
    );
    assert_eq!(Type::U8.validate("k", "255"), Ok(()));
    assert!(Type::U8.validate("k", "256").is_err());
    assert!(Type::U8.validate("k", "-1").is_err());
    assert!(Type::U8.validate("k", "-0").is_err());
    assert_eq!(Type::U16.validate("k", "+256"), Ok(()));
    assert_eq!(Type::I8.validate("k", "-128"), Ok(()));
    assert!(Type::I8.validate("k", "128").is_err());
    assert_eq!(Type::I128.validate("k", "-170141183460469231731687303715884105728"), Ok(()));
    assert!(Type::I128.validate("k", "170141183460469231731687303715884105728").is_err());
    assert_eq!(Type::U128.validate("k", "340282366920938463463374607431768211455"), Ok(()));
    assert!(Type::U64.validate("k", "true").is_err());
    assert_eq!(Type::Str.validate("k", "anything at all"), Ok(()));
    assert_eq!(Type::U32.validate_helper(true, "k", "x"), Ok(()));
    assert_eq!(
        Type::U32.validate_helper(false, "k", "x"),
        Err(ConfError::TypeMismatch { key: "k".to_string(), expected: Type::U32, text: "x".to_string() })
    );
}
