use sysctl_conf::conf::{Sysctl, SysctlConf, is_comment_or_whitespace, is_definition_line, parse_line_pair};
use sysctl_conf::error::ConfError;
use sysctl_conf::value::Value;
use sysctl_conf::value::Value::{Bool, I16, I8, Str, U16, U8};

fn parse(text: &str) -> Result<SysctlConf<'_>, String> {
    SysctlConf::parse(text).map_err(|e| format!("{e:?}"))
}

#[test]
fn test_example() -> Result<(), String> {
    let example = "endpoint = localhost:3000\ndebug = true\nlog.file = /var/log/console.log\n";
    assert_eq!(parse(example)?, SysctlConf { sysctls: Vec::from([
        Sysctl { variable: "endpoint", value: Str("localhost:3000"), ignore_failure: false },
        Sysctl { variable: "debug", value: Bool(true), ignore_failure: false },
        Sysctl { variable: "log.file", value: Str("/var/log/console.log"), ignore_failure: false },
    ])});
    Ok(())
}

#[test]
fn test_ignore_failure() -> Result<(), String> {
    let example = "endpoint = localhost:3000\n-debug = true\n- log.file = /var/log/console.log\n";
    assert_eq!(parse(example)?, SysctlConf { sysctls: Vec::from([
        Sysctl { variable: "endpoint", value: Str("localhost:3000"), ignore_failure: false },
        Sysctl { variable: "debug", value: Bool(true), ignore_failure: true },
        Sysctl { variable: "log.file", value: Str("/var/log/console.log"), ignore_failure: true },
    ])});
    Ok(())
}

#[test]
fn test_sysctl_conf_sample() -> Result<(), String> {
    let example = "# sysctl.conf sample\n#\nkernel.domainname = example.com\n; this one has a space which will be written to the sysctl!\nkernel.modprobe = /sbin/mod probe\n";
    assert_eq!(parse(example)?, SysctlConf { sysctls: Vec::from([
        Sysctl { variable: "kernel.domainname", value: Str("example.com"), ignore_failure: false },
        Sysctl { variable: "kernel.modprobe", value: Str("/sbin/mod probe"), ignore_failure: false },
    ])});
    Ok(())
}

#[test]
fn test_ints() -> Result<(), String> {
    let example = "u8 = 0\nu16 = 1024\ni8 = -1\ni16 = -1024\n";
    assert_eq!(parse(example)?, SysctlConf { sysctls: Vec::from([
        Sysctl { variable: "u8", value: U8(0), ignore_failure: false },
        Sysctl { variable: "u16", value: U16(1024), ignore_failure: false },
        Sysctl { variable: "i8", value: I8(-1), ignore_failure: false },
        Sysctl { variable: "i16", value: I16(-1024), ignore_failure: false },
    ])});
    Ok(())
}

#[test]
fn keys_come_out_trimmed_once_each_in_order() {
    let conf = SysctlConf::parse("  a.b   =  1\nc=x\n\ta.b = 2  \n").unwrap();
    let keys: Vec<&str> = conf.sysctls.iter().map(|s| s.variable).collect();
    assert_eq!(keys, vec!["a.b", "c", "a.b"]);
    assert_eq!(conf.sysctls[0].value, Value::U8(1));
    assert_eq!(conf.sysctls[2].value, Value::U8(2));
}

#[test]
fn comment_and_blank_lines_give_nothing() {
    let conf = SysctlConf::parse("\n   \n; a = 1\n  # b = 2\n#\n;\n\r\n").unwrap();
    assert_eq!(conf.sysctls, vec![]);
    let conf = SysctlConf::parse("").unwrap();
    assert_eq!(conf.sysctls, vec![]);
    let conf = SysctlConf::parse("; no delimiter here\nk = v\n\n# neither here\n").unwrap();
    assert_eq!(conf.sysctls, vec![Sysctl { variable: "k", value: Value::Str("v"), ignore_failure: false }]);
}

#[test]
fn carriage_returns_are_trimmed() {
    let conf = SysctlConf::parse("a = 1\r\nb = x\r\n").unwrap();
    assert_eq!(conf.sysctls, vec![
        Sysctl { variable: "a", value: Value::U8(1), ignore_failure: false },
        Sysctl { variable: "b", value: Value::Str("x"), ignore_failure: false },
    ]);
}

#[test]
fn missing_delimiter_fails() {
    assert_eq!(
        SysctlConf::parse("a = 1\n  kernel.modprobe  \nb = 2\n"),
        Err(ConfError::MissingDelimiter { line: "kernel.modprobe".to_string() })
    );
    assert_eq!(
        SysctlConf::parse("-\n"),
        Err(ConfError::MissingDelimiter { line: "-".to_string() })
    );
}

#[test]
fn missing_key_fails() {
    assert_eq!(
        SysctlConf::parse("a = 1\n = 5\n"),
        Err(ConfError::MissingKey { line: "= 5".to_string() })
    );
    assert_eq!(
        SysctlConf::parse("- = 5\n"),
        Err(ConfError::MissingKey { line: "- = 5".to_string() })
    );
    assert_eq!(
        SysctlConf::parse("-=\n"),
        Err(ConfError::MissingKey { line: "-=".to_string() })
    );
}

#[test]
fn first_malformed_line_wins() {
    assert_eq!(
        SysctlConf::parse("x\n=y\n"),
        Err(ConfError::MissingDelimiter { line: "x".to_string() })
    );
    assert_eq!(
        SysctlConf::parse("=y\nx\n"),
        Err(ConfError::MissingKey { line: "=y".to_string() })
    );
}

#[test]
fn negation_marker_sets_ignore_failure() {
    let conf = SysctlConf::parse("-a = 1\n-   b = 2\n--c = 3\nd-e = 4\n").unwrap();
    assert_eq!(conf.sysctls, vec![
        Sysctl { variable: "a", value: Value::U8(1), ignore_failure: true },
        Sysctl { variable: "b", value: Value::U8(2), ignore_failure: true },
        Sysctl { variable: "-c", value: Value::U8(3), ignore_failure: true },
        Sysctl { variable: "d-e", value: Value::U8(4), ignore_failure: false },
    ]);
}

#[test]
fn value_may_be_empty_and_hold_delimiters() {
    let conf = SysctlConf::parse("a =\nb = x = y\n").unwrap();
    assert_eq!(conf.sysctls, vec![
        Sysctl { variable: "a", value: Value::Str(""), ignore_failure: false },
        Sysctl { variable: "b", value: Value::Str("x = y"), ignore_failure: false },
    ]);
}

#[test]
fn sysctl_parse_single_line() {
    assert_eq!(
        Sysctl::parse("- net.ipv4.ip_forward = 1"),
        Ok(Sysctl { variable: "net.ipv4.ip_forward", value: Value::U8(1), ignore_failure: true })
    );
    assert_eq!(
        Sysctl::parse("novalue"),
        Err(ConfError::MissingDelimiter { line: "novalue".to_string() })
    );
}

#[test]
fn line_pair_splits_at_first_delimiter() {
    assert_eq!(parse_line_pair(" a : b : c ", ':'), Ok(("a", "b : c")));
    assert_eq!(parse_line_pair("a = b", ':'), Err(ConfError::MissingDelimiter { line: "a = b".to_string() }));
    assert_eq!(parse_line_pair("  : b", ':'), Err(ConfError::MissingKey { line: "  : b".to_string() }));
}

#[test]
fn definition_and_comment_lines() {
    assert!(is_comment_or_whitespace(""));
    assert!(is_comment_or_whitespace("; x"));
    assert!(is_comment_or_whitespace("# x"));
    assert!(!is_comment_or_whitespace("a = 1"));
    assert!(is_definition_line("a = 1"));
    assert!(!is_definition_line("#a = 1"));
    assert!(!is_definition_line(""));
}
