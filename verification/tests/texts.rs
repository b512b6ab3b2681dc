//! Texts, JSON, format strings and the table of operators.

use openjd::binary64::Binary64;
use openjd::context::MeteredContext;
use openjd::format_string::{FormatString, FormatStringError};
use openjd::json::{JsonObject, JsonValue};
use openjd::json_text::{from_serde, parse_json, to_serde};
use openjd::op_table::{CmpOpSpec, OpSpec, OperatorTable, SyntaxFeature};
use openjd::symbol_table::SymbolTable;
use openjd::text::{hex32, parse_i64, parse_u64, push_int};
use openjd::types::{ExprType, PathFormat};
use openjd::value::ExprValue;
use ruff_python_ast::{CmpOp, Operator, UnaryOp};

#[test]
fn integers_are_written_and_read() {
    for i in [0, 7, -7, 10, 99, 100, -1000, i64::MAX, i64::MIN] {
        let mut s = String::new();
        push_int(&mut s, i);
        assert_eq!(s, i.to_string());
        assert_eq!(parse_i64(&s), Some(i));
    }
    assert_eq!(parse_i64("+5"), Some(5));
    assert_eq!(parse_i64("9223372036854775808"), None);
    assert_eq!(parse_i64("-9223372036854775809"), None);
    assert_eq!(parse_i64(""), None);
    assert_eq!(parse_i64("-"), None);
    assert_eq!(parse_i64("1x"), None);
    assert_eq!(parse_u64("18446744073709551615"), Some(u64::MAX));
    assert_eq!(parse_u64("18446744073709551616"), None);
    assert_eq!(parse_u64("-0"), None);
    assert_eq!(hex32(0xabc), "00000000000000000000000000000abc");
}

#[test]
fn json_is_written_in_the_order_of_keys() {
    let mut o = JsonObject::new();
    o.insert("b".into(), JsonValue::Array(vec![JsonValue::Null, JsonValue::Bool(false)]));
    o.insert("a".into(), JsonValue::Text("q\"\\\n\u{1}é".into()));
    o.insert("aa".into(), JsonValue::Float(Binary64::from_bits(1.5f64.to_bits()).unwrap()));
    o.insert("b".into(), JsonValue::Int(-1));
    let v = JsonValue::Object(o);
    assert_eq!(v.to_string(), "{\"a\":\"q\\\"\\\\\\n\\u0001é\",\"aa\":1.5,\"b\":-1}");
    let read: serde_json::Value = serde_json::from_str(&v.to_string()).unwrap();
    assert_eq!(read.to_string(), v.to_string());
    assert_eq!(v.get("b").and_then(|x| x.as_i64()), Some(-1));
    assert!(v.get("c").is_none());
    assert!(v.same(&v.clone()));
    assert!(!v.same(&JsonValue::Null));
}

#[test]
fn json_is_read_and_written_as_by_its_library() {
    for text in [
        "null",
        "true",
        "[]",
        "{}",
        "0",
        "-9223372036854775808",
        "9223372036854775807",
        "9223372036854775808",
        "18446744073709551615",
        "18446744073709551616",
        "-9223372036854775809",
        "0.0",
        "-0.0",
        "1.5",
        "1e300",
        "5e-324",
        "1.7976931348623157e308",
        "123456789012345680000.0",
        "0.1",
        "-2.5e-7",
        "\"a\\u0001\\\"\\\\\\n\\u00e9\\ud83d\\ude00\"",
        "[1,[2,{\"b\":[null],\"a\":\"x\"}],3.25]",
        "{\"z\":1,\"a\":{\"k\":[true,false]},\"é\":2,\"aa\":3,\"z\":4}",
        "  { \"a\" : [ 1 , 2 ] }\n",
    ] {
        let read: serde_json::Value = serde_json::from_str(text).unwrap();
        let ours = parse_json(text).unwrap();
        assert_eq!(ours.to_string(), read.to_string(), "{text}");
        assert_eq!(to_serde(&ours), read, "{text}");
        assert!(from_serde(read).same(&ours), "{text}");
    }
    assert_eq!(parse_json("-0.0").unwrap().to_string(), "-0.0");
    assert_eq!(parse_json("{\"z\":1,\"a\":2,\"z\":3}").unwrap().to_string(), "{\"a\":2,\"z\":3}");
    assert!(matches!(parse_json("7"), Ok(JsonValue::Int(7))));
    assert!(matches!(parse_json("9223372036854775808"), Ok(JsonValue::Unsigned(_))));
    assert!(matches!(parse_json("7.0"), Ok(JsonValue::Float(_))));
    for text in ["", "{", "[1,]", "nul", "1 2", "\"", "01", "{\"a\"}", "1e999"] {
        let reason = serde_json::from_str::<serde_json::Value>(text).unwrap_err();
        assert_eq!(parse_json(text), Err(reason.to_string()), "{text}");
    }
}

#[test]
fn json_numbers_are_integers_where_they_fit() {
    assert_eq!(JsonValue::Unsigned(5).as_i64(), Some(5));
    assert_eq!(JsonValue::Unsigned(9223372036854775808).as_i64(), None);
    assert_eq!(JsonValue::Unsigned(u64::MAX).to_string(), "18446744073709551615");
    assert_eq!(parse_json("7.0").unwrap().as_i64(), None);
    let document = parse_json("{\"n\":3,\"t\":\"x\"}").unwrap();
    assert_eq!(document.get_i64("n"), Some(3));
    assert_eq!(document.get_i64("t"), None);
    assert_eq!(document.get_str("t"), Some("x"));
    assert_eq!(document.get_str("n"), None);
    assert_eq!(JsonValue::Null.get_str("t"), None);
}

#[test]
fn format_strings_resolve() {
    let mut st = SymbolTable::new();
    st.set_string("Param.Name", "x").unwrap();
    st.set("Param.N", ExprValue::Int(4)).unwrap();
    let resolve = |s: &str| FormatString::new(s).unwrap().resolve_string_with(&st).unwrap();
    assert_eq!(resolve("plain"), "plain");
    assert_eq!(resolve("a-{{Param.Name}}-{{ Param.N }}"), "a-x-4");
    // A field alone keeps its type.
    assert!(matches!(
        FormatString::new("{{Param.N}}").unwrap().resolve_with(&st),
        Ok(ExprValue::Int(4))
    ));
    assert!(matches!(FormatString::new("{{Param"), Err(FormatStringError::Unclosed)));
    assert!(matches!(
        FormatString::new("{{1+}}"),
        Err(FormatStringError::Unsupported(_))
    ));
    let missing = FormatString::new("{{Nope}}").unwrap();
    assert!(missing.resolve_string_with(&st).is_err());
    // Constants keep their type as well.
    assert_eq!(resolve("{{null}} {{true}} {{false}} {{42}}"), "null true false 42");
    assert!(matches!(
        FormatString::new("{{null}}").unwrap().resolve_with(&st),
        Ok(ExprValue::Null)
    ));
    assert!(matches!(FormatString::new("{{7}}").unwrap().resolve_with(&st), Ok(ExprValue::Int(7))));
    assert!(matches!(FormatString::new("{{07}}"), Err(FormatStringError::Unsupported(_))));
    assert!(matches!(
        FormatString::new("{{9223372036854775808}}"),
        Err(FormatStringError::Unsupported(_))
    ));
}

#[test]
fn format_string_rejects_deep_interpolation() {
    let mut inner = String::from("1");
    for _ in 0..200 {
        inner.push_str("+1");
    }
    let fs_src = format!("{{{{{inner}}}}}");
    let err = FormatString::new(&fs_src).expect_err("deeply-nested interpolation must be rejected");
    let msg = err.message();
    assert!(
        msg.contains("nesting depth")
            || msg.contains("too deep")
            || msg.to_lowercase().contains("expression"),
        "expected depth-related error, got: {msg}"
    );
}

#[test]
fn format_string_rejects_many_segments() {
    // 2,000 trivial `{{1}}` segments
    let fs_src = "{{1}}".repeat(2_000);
    let err = FormatString::new(&fs_src).expect_err("too many segments must be rejected");
    let msg = err.message();
    assert!(
        msg.contains("segment") || msg.contains("interpolation"),
        "expected segment-cap error, got: {msg}"
    );
}

#[test]
fn format_string_rejects_oversized_input() {
    // 2 MB input
    let fs_src = "a".repeat(2 * 1024 * 1024);
    let err = FormatString::new(&fs_src).expect_err("oversized input must be rejected");
    let msg = err.message();
    assert!(
        msg.contains("length") || msg.contains("too long") || msg.contains("size"),
        "expected size-cap error, got: {msg}"
    );
}

#[test]
fn allow_moderate_format_string() {
    // 100 segments, short: well below caps
    let fs_src = "{{1}}".repeat(100);
    let fs = FormatString::new(&fs_src).expect("100 segments must parse");
    let st = SymbolTable::new();
    let out = fs.resolve_string_with(&st).unwrap();
    assert_eq!(out, "1".repeat(100));
}

#[test]
fn allow_reasonable_format_string_size() {
    // 64 KB of literal text
    let fs_src = "a".repeat(64 * 1024);
    let _ = FormatString::new(&fs_src).expect("64 KB literal must parse");
}

#[test]
fn operators_dispatch_or_are_gated() {
    let table = OperatorTable::current();
    assert!(matches!(table.binop_spec(Operator::Add), OpSpec::Dunder("__add__")));
    assert!(matches!(
        table.binop_spec(Operator::BitXor),
        OpSpec::Gated { feature: SyntaxFeature::BitwiseXor, .. }
    ));
    assert!(matches!(table.binop(Operator::Pow), Ok("__pow__")));
    let err = table.binop(Operator::MatMult).unwrap_err();
    assert!(err.to_string().contains("Matrix multiply (@) is not supported"));
    assert!(matches!(table.unaryop(UnaryOp::Not), Ok("__not__")));
    assert!(table.unaryop(UnaryOp::Invert).is_err());
    match table.cmpop(CmpOp::NotIn) {
        Ok(d) => {
            assert_eq!(d.dunder, "__not_contains__");
            assert!(d.container_first);
        }
        Err(_) => panic!("not in is supported"),
    }
    assert!(table.cmpop(CmpOp::IsNot).is_err());
    match table.cmpop_spec(CmpOp::LtE) {
        CmpOpSpec::Dispatch(d) => {
            assert_eq!(d.dunder, "__le__");
            assert!(!d.container_first);
        }
        CmpOpSpec::Gated { .. } => panic!("<= is supported"),
    }
}

#[test]
fn lists_are_checked_for_memory() {
    let mut ctx = MeteredContext::new(PathFormat::Posix, 10, 10_000);
    let v = ExprValue::make_list_checked(
        &mut ctx,
        vec![ExprValue::Int(1), ExprValue::String("a".into())],
        ExprType::String,
    )
    .unwrap();
    assert_eq!(v.to_display_string(), "[1, a]");
    assert_eq!(v.expr_type().name(), "list[string]");
    let mut small = MeteredContext::new(PathFormat::Posix, 10, 10);
    assert!(
        ExprValue::make_list_checked(&mut small, vec![ExprValue::Int(1)], ExprType::Int).is_err()
    );
}
