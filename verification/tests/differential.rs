//! Comparison with the reference.

use openjd::binary64::Binary64;
use openjd::differential::adapters::{build_symbol_table, parse_path_format, ExprCase};
use openjd::differential::allowlist::{AllowedDivergence, Allowlist};
use openjd::differential::equivalence::{
    compare, compare_quoted, Divergence, DivergenceKind, Outcome,
};
use openjd::differential::generator::{replayed_case, Generator, ReplayedChoices};
use openjd::differential::oracle::{
    request_line, OracleAnswer, RawResponse, TaggedResult, TransportTag,
};
use openjd::display::render;
use openjd::error::{ExpressionError, ExpressionErrorKind};
use openjd::json::{JsonObject, JsonValue};
use openjd::types::{ExprType, PathFormat};
use openjd::value::ExprValue;

fn text(s: &str) -> JsonValue {
    JsonValue::Text(s.to_string())
}

fn ok(t: &str, v: JsonValue) -> TaggedResult {
    TaggedResult::Value(TransportTag {
        type_str: t.to_string(),
        value: v,
    })
}

fn err(c: &str) -> TaggedResult {
    TaggedResult::Error {
        category: c.to_string(),
    }
}

fn float(x: f64) -> JsonValue {
    JsonValue::Float(Binary64::from_bits(x.to_bits()).unwrap())
}

#[test]
fn numbers_agree_by_their_value() {
    let same = |a: JsonValue, b: JsonValue| {
        let forward = compare(&ok("float", a.clone()), &ok("float", b.clone()));
        let backward = compare(&ok("float", b), &ok("float", a));
        assert_eq!(forward == Outcome::Agree, backward == Outcome::Agree);
        forward == Outcome::Agree
    };
    assert!(same(float(0.0), float(-0.0)));
    assert!(same(
        JsonValue::Array(vec![float(0.0), JsonValue::Int(1)]),
        JsonValue::Array(vec![float(-0.0), JsonValue::Int(1)]),
    ));
    assert!(same(JsonValue::Int(7), JsonValue::Unsigned(7)));
    assert!(!same(JsonValue::Int(-1), JsonValue::Unsigned(u64::MAX)));
    // An integer is not the same number with a fraction.
    assert!(!same(JsonValue::Int(1), float(1.0)));
    assert!(!same(float(1.5), float(1.25)));
    assert_eq!(
        compare(&ok("float", float(1.5)), &ok("float", float(-0.0))),
        Outcome::Diverge(Divergence {
            kind: DivergenceKind::ValueMismatch { detail: "value: rust=1.5 python=-0.0".into() },
            rust: ok("float", float(1.5)),
            python: ok("float", float(-0.0)),
        })
    );
}

#[test]
fn equal_typed_values_agree() {
    assert_eq!(
        compare(&ok("int", text("3")), &ok("int", text("3"))),
        Outcome::Agree
    );
}

#[test]
fn int_vs_float_same_display_is_a_divergence() {
    // The 2**63 vs 2.0**63 shape: same-ish number, different type.
    let out = compare(&ok("int", text("9")), &ok("float", text("9")));
    assert!(matches!(
        out,
        Outcome::Diverge(Divergence {
            kind: DivergenceKind::ValueMismatch { .. },
            ..
        })
    ));
}

#[test]
fn both_err_agree_even_with_different_categories() {
    assert_eq!(compare(&err("overflow"), &err("type")), Outcome::Agree);
}

#[test]
fn rust_ok_python_err_is_the_silent_wrong_value_class() {
    let out = compare(&ok("int", text("42")), &err("overflow"));
    assert!(matches!(
        out,
        Outcome::Diverge(Divergence {
            kind: DivergenceKind::RustOkPythonErr,
            ..
        })
    ));
}

#[test]
fn python_ok_rust_err_flags_over_strict_rust() {
    let out = compare(&err("overflow"), &ok("int", text("42")));
    assert!(matches!(
        out,
        Outcome::Diverge(Divergence {
            kind: DivergenceKind::PythonOkRustErr,
            ..
        })
    ));
}

#[test]
fn divergences_say_what_differs() {
    let (a, b) = (ok("int", text("9")), ok("float", text("9")));
    match compare(&a, &b) {
        Outcome::Diverge(d) => {
            assert_eq!(
                d.kind,
                DivergenceKind::ValueMismatch {
                    detail: "type: rust=\"int\" python=\"float\"".into()
                }
            );
            assert_eq!(d.rust, a);
            assert_eq!(d.python, b);
        }
        other => panic!("unexpected: {other:?}"),
    }
    let list = JsonValue::Array(vec![text("1"), JsonValue::Null]);
    match compare_quoted(&ok("int", text("a\"")), &ok("int", list), "", "") {
        Outcome::Diverge(d) => assert_eq!(
            d.kind,
            DivergenceKind::ValueMismatch {
                detail: "value: rust=\"a\\\"\" python=[\"1\",null]".into()
            }
        ),
        other => panic!("unexpected: {other:?}"),
    }
    // A type that is quoted with escapes.
    match compare(&ok("a\tb", text("")), &ok("c", text(""))) {
        Outcome::Diverge(d) => assert_eq!(
            d.kind,
            DivergenceKind::ValueMismatch { detail: "type: rust=\"a\\tb\" python=\"c\"".into() }
        ),
        other => panic!("unexpected: {other:?}"),
    }
}

#[test]
fn panics_always_diverge() {
    for other in [ok("int", text("1")), err("x"), TaggedResult::Panicked] {
        assert!(matches!(
            compare(&TaggedResult::Panicked, &other),
            Outcome::Diverge(Divergence { kind: DivergenceKind::RustPanicked, .. })
        ));
        assert_eq!(
            compare(&TaggedResult::Panicked, &other) == Outcome::Agree,
            compare(&other, &TaggedResult::Panicked) == Outcome::Agree
        );
    }
}

#[test]
fn results_are_tagged_with_their_types() {
    let tag = |v| TaggedResult::from_expr_result(Ok(v));
    assert_eq!(tag(ExprValue::Int(-3)), ok("int", text("-3")));
    assert_eq!(tag(ExprValue::Bool(true)), ok("bool", text("true")));
    let list = ExprValue::List {
        elements: vec![ExprValue::Int(1), ExprValue::Int(2)],
        elem_type: ExprType::Int,
    };
    assert_eq!(
        tag(list),
        ok("list[int]", JsonValue::Array(vec![text("1"), text("2")]))
    );
    let fault = |kind| TaggedResult::from_expr_result(Err(ExpressionError { kind }));
    assert_eq!(fault(ExpressionErrorKind::IntegerOverflow), err("overflow"));
    assert_eq!(
        fault(ExpressionErrorKind::DivisionByZero { operation: "/".into() }),
        err("division_by_zero")
    );
    assert_eq!(
        fault(ExpressionErrorKind::UndefinedVariable { name: "x".into() }),
        err("undefined_symbol")
    );
    assert_eq!(fault(ExpressionErrorKind::ParseError("x".into())), err("parse"));
    assert_eq!(
        fault(ExpressionErrorKind::UnsupportedSyntax { message: "x".into() }),
        err("parse")
    );
    assert_eq!(
        fault(ExpressionErrorKind::IndexOutOfBounds { message: "x".into() }),
        err("index")
    );
    assert_eq!(fault(ExpressionErrorKind::TypeError { message: "x".into() }), err("type"));
    assert_eq!(fault(ExpressionErrorKind::UnknownFunction { name: "x".into() }), err("type"));
    assert_eq!(fault(ExpressionErrorKind::MemoryLimitExceeded), err("other"));
}

#[test]
fn values_are_rendered_with_their_kind() {
    assert_eq!(render(&ExprValue::Null), ("null".to_string(), "null"));
    assert_eq!(render(&ExprValue::Int(3)), ("3".to_string(), "int"));
    assert_eq!(render(&ExprValue::String("3".into())), ("3".to_string(), "string"));
    let path = ExprValue::new_path("/a".into(), PathFormat::Posix);
    assert_eq!(render(&path), ("/a".to_string(), "path"));
    let list = ExprValue::List { elements: vec![], elem_type: ExprType::Int };
    assert_eq!(render(&list), ("[]".to_string(), "list"));
}

#[test]
fn requests_leave_out_what_is_absent() {
    assert_eq!(request_line("1 + 1", None, None), "{\"expr\":\"1 + 1\"}");
    let mut o = JsonObject::new();
    o.insert("S".into(), text("x\n"));
    o.insert("N".into(), JsonValue::Int(3));
    assert_eq!(
        request_line("N", Some(&JsonValue::Object(o)), Some("WINDOWS")),
        "{\"expr\":\"N\",\"symbols\":{\"N\":3,\"S\":\"x\\n\"},\"path_format\":\"WINDOWS\"}"
    );
}

#[test]
fn responses_are_ranked() {
    let raw = |ok: Option<&str>, err: Option<&str>, internal: Option<&str>| {
        OracleAnswer::from_response(RawResponse {
            ok: ok.map(|t| TransportTag { type_str: t.into(), value: JsonValue::Null }),
            err: err.map(|s| s.into()),
            internal_error: internal.map(|s| s.into()),
        })
    };
    match raw(Some("int"), Some("type"), Some("broken")) {
        OracleAnswer::Internal(message) => assert_eq!(message, "broken"),
        other => panic!("unexpected: {other:?}"),
    }
    match raw(Some("int"), Some("type"), None) {
        OracleAnswer::Result(r) => assert_eq!(r, ok("int", JsonValue::Null)),
        other => panic!("unexpected: {other:?}"),
    }
    match raw(None, Some("type"), None) {
        OracleAnswer::Result(r) => assert_eq!(r, err("type")),
        other => panic!("unexpected: {other:?}"),
    }
    match raw(None, None, None) {
        OracleAnswer::Internal(message) => assert_eq!(
            message,
            "empty worker response: RawResponse { ok: None, err: None, internal_error: None }"
        ),
        other => panic!("unexpected: {other:?}"),
    }
}

#[test]
fn only_listed_inputs_are_allowed() {
    let entry = |input: &str, reason: &str| AllowedDivergence {
        input: input.into(),
        reason: reason.into(),
        reference: None,
    };
    let list =
        Allowlist::from_entries(vec![entry("2**63", "old"), entry("1/0", "b"), entry("2**63", "new")]);
    assert_eq!(list.len(), 2);
    assert!(!list.is_empty());
    assert_eq!(list.is_allowed("2**63").unwrap().reason, "new");
    assert_eq!(list.is_allowed("1/0").unwrap().reason, "b");
    assert!(list.is_allowed("2**64").is_none());
    assert!(Allowlist::default().is_empty());
}

#[test]
fn cases_give_their_environment() {
    let mut o = JsonObject::new();
    o.insert("A".into(), JsonValue::Int(1));
    o.insert("A.B".into(), JsonValue::Int(2));
    o.insert("F".into(), float(1.5));
    o.insert("L".into(), JsonValue::Array(vec![]));
    o.insert("S".into(), text("s"));
    o.insert("T".into(), JsonValue::Bool(true));
    o.insert("U".into(), JsonValue::Unsigned(7));
    o.insert("V".into(), JsonValue::Unsigned(u64::MAX));
    let symbols = JsonValue::Object(o);
    let table = build_symbol_table(Some(&symbols));
    // A later member that collides is left out, as are values that are no
    // scalars.
    assert_eq!(table.all_paths(), vec!["A", "S", "T", "U"]);
    assert_eq!(build_symbol_table(None).all_paths().len(), 0);
    assert_eq!(build_symbol_table(Some(&JsonValue::Null)).all_paths().len(), 0);

    let case = ExprCase::new("A".into());
    // A case that names no format has that of the host.
    for (host, name) in [(PathFormat::Posix, "POSIX"), (PathFormat::Windows, "WINDOWS")] {
        assert_eq!(case.environment(host).1, host);
        let named = case.clone().with_path_format(name.into());
        assert_eq!(named.environment(PathFormat::Uri).1, host);
    }
    // A name that is no format stands for that of POSIX on every host.
    for name in ["posix", "", "URI"] {
        let unknown = case.clone().with_path_format(name.into());
        assert_eq!(unknown.environment(PathFormat::Windows).1, PathFormat::Posix);
    }
    let case = case.with_symbols(symbols).with_path_format("WINDOWS".into());
    let (table, format) = case.environment(PathFormat::Posix);
    assert_eq!(format, PathFormat::Windows);
    assert_eq!(table.get("S").unwrap().to_display_string(), "s");
    assert_eq!(parse_path_format(Some("POSIX")), Some(PathFormat::Posix));
    assert_eq!(parse_path_format(Some("posix")), None);
    assert_eq!(parse_path_format(None), None);
}

fn replay(numbers: &[i64]) -> ExprCase {
    replayed_case(&mut ReplayedChoices::new(numbers.to_vec()))
}

#[test]
fn replays_repeat() {
    let numbers = [0, 0, 9, 2, 4, 6, 1, 9, 1, 1, -8, 1, 1, 0, 0, 17, 0, 1, 1, 2, 1, 2, 0, 1];
    assert_eq!(replay(&numbers), replay(&numbers));
    // The numbers decide: another one gives another case.
    assert_ne!(replay(&numbers).expr, replay(&numbers[1..]).expr);
    // A number that is not possible counts as the least one, and so does one
    // that is missing.
    assert_eq!(replay(&[9, 99, 1, 4]), replay(&[9, 0, 1, 4, 0, 0]));
    // The next case goes on where the last one ended.
    let mut choices = ReplayedChoices::new(vec![9, 5, 0, 0, 2, 9, 5, 2, 0, 1]);
    assert_eq!(replayed_case(&mut choices).expr, "N");
    let second = replayed_case(&mut choices);
    assert_eq!(second.expr, "S");
    assert_eq!(second.path_format.as_deref(), Some("WINDOWS"));
}

#[test]
fn replayed_choices_give_their_case() {
    // An atom: the least integer, no symbols, POSIX paths.
    let case = replay(&[9, 0, 1, 4, 0, 0]);
    assert_eq!(case.expr, "-9223372036854775808");
    assert_eq!(case.symbols, None);
    assert_eq!(case.path_format.as_deref(), Some("POSIX"));
    // A sum of a string and a rounded float, with symbols and Windows paths.
    let case = replay(&[
        0, 0, 9, 2, 4, 6, 1, 9, 1, 1, -8, // ('日本語' + round(1.5, -8))
        1, 1, 0, 0, 17, 0, 1, 1, 2, 1, 2, 0, // N = 17, S = "ab", P = false
        1,
    ]);
    assert_eq!(case.expr, "('日本語' + round(1.5, -8))");
    assert_eq!(case.path_format.as_deref(), Some("WINDOWS"));
    assert_eq!(
        case.symbols.unwrap().to_string(),
        "{\"N\":17,\"P\":false,\"S\":\"ab\"}"
    );
    // A call on a path, a comparison and no path format.
    let case = replay(&[4, 5, 7, 11, 1, 5, 9, 5, 3, 0, 2]);
    assert_eq!(case.expr, "(path('C:\\\\a\\\\b').name >= (-P))");
    assert_eq!(case.path_format, None);
    let case = replay(&[8, 2, 9, 3, 3, 9, 4, 2, 0, 2]);
    assert_eq!(case.expr, "min(path('a'), null)");
}

#[test]
fn seeds_reproduce_their_cases() {
    let mut a = Generator::new(0x0123_4567_89AB_CDEF);
    let mut b = Generator::new(0x0123_4567_89AB_CDEF);
    let mut other = Generator::new(1);
    let mut differs = false;
    let mut attached = 0;
    for _ in 0..200 {
        let case = a.next_case();
        assert_eq!(case, b.next_case());
        differs = differs || case != other.next_case();
        if case.symbols.is_some() {
            attached += 1;
        }
    }
    assert!(differs);
    assert!(20 < attached && attached < 120, "{attached}");
}
