use sysctl_conf::conf::SysctlConf;
use sysctl_conf::error::ConfError;
use sysctl_conf::schema::{Schema, SchemaEntry};
use sysctl_conf::value::Type;

#[test]
fn schema_type_mismatch_example() {
    let schema = Schema::parse("u8 : u8\nbad : bool\n").unwrap();
    let conf = SysctlConf::parse("u8 = 0\nbad = 3\n").unwrap();
    assert_eq!(
        schema.validate(conf),
        Err(ConfError::TypeMismatch { key: "bad".to_string(), expected: Type::Bool, text: "3".to_string() })
    );
}

#[test]
fn validation_passes() {
    let schema = Schema::parse("# types\nendpoint : string\ndebug : bool\n; wide\nsize : u64\nlevel : i8\n").unwrap();
    let conf = SysctlConf::parse("endpoint = localhost:3000\ndebug = true\nsize = 7\nlevel = -3\n").unwrap();
    assert_eq!(schema.validate(conf), Ok(()));
}

#[test]
fn validation_is_fail_fast() {
    let schema = Schema::parse("a : u8\nb : u8\nc : u8\n").unwrap();
    let conf = SysctlConf::parse("a = 1\nb = bad\nc = worse\nd = 1\n").unwrap();
    assert_eq!(
        schema.validate(conf),
        Err(ConfError::TypeMismatch { key: "b".to_string(), expected: Type::U8, text: "bad".to_string() })
    );
    let conf = SysctlConf::parse("a = 1\nz = 1\nb = bad\n").unwrap();
    assert_eq!(schema.validate(conf), Err(ConfError::UndeclaredKey { key: "z".to_string() }));
}

#[test]
fn undeclared_key_fails() {
    let schema = Schema::parse("a : u8\n").unwrap();
    let conf = SysctlConf::parse("b = 1\n").unwrap();
    assert_eq!(schema.validate(conf), Err(ConfError::UndeclaredKey { key: "b".to_string() }));
}

#[test]
fn ignored_entries_bypass_checks() {
    let schema = Schema::parse("a : u8\n").unwrap();
    let conf = SysctlConf::parse("-a = 300\n- undeclared = x\na = 5\n").unwrap();
    assert_eq!(schema.validate(conf), Ok(()));
}

#[test]
fn rendered_value_is_checked() {
    let schema = Schema::parse("a : u8\nb : i16\nc : string\nd : u16\n").unwrap();
    let conf = SysctlConf::parse("a = +7\nb = 0010\nc = 300\nd = 300\n").unwrap();
    assert_eq!(schema.validate(conf), Ok(()));
    let conf = SysctlConf::parse("a = 300\n").unwrap();
    assert_eq!(
        schema.validate(conf),
        Err(ConfError::TypeMismatch { key: "a".to_string(), expected: Type::U8, text: "300".to_string() })
    );
    let conf = SysctlConf::parse("a = -0\n").unwrap();
    assert_eq!(schema.validate(conf), Ok(()));
}

#[test]
fn duplicate_schema_key_last_wins() {
    let schema = Schema::parse("a : u8\na : bool\n").unwrap();
    assert_eq!(schema.get("a"), Some(Type::Bool));
    assert_eq!(schema.get("b"), None);
    let conf = SysctlConf::parse("a = true\n").unwrap();
    assert_eq!(schema.validate(conf), Ok(()));
}

#[test]
fn schema_errors() {
    assert_eq!(
        Schema::parse("a : u8\nb : float\n").map(|_| ()),
        Err(ConfError::UnknownType { name: "float".to_string() })
    );
    assert_eq!(
        Schema::parse("a u8\n").map(|_| ()),
        Err(ConfError::MissingDelimiter { line: "a u8".to_string() })
    );
    assert_eq!(
        Schema::parse(" : u8\n").map(|_| ()),
        Err(ConfError::MissingKey { line: ": u8".to_string() })
    );
}

#[test]
fn schema_entry_parse() {
    assert_eq!(
        SchemaEntry::parse("kernel.pid_max : u32"),
        Ok(SchemaEntry { variable: "kernel.pid_max", ty: Type::U32 })
    );
    assert_eq!(
        SchemaEntry::parse("k : Bool"),
        Err(ConfError::UnknownType { name: "Bool".to_string() })
    );
}
