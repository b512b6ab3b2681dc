//! Operators of the expression language.

use openjd::binary64::Binary64;
use openjd::context::MeteredContext;
use openjd::error::{ExpressionError, ExpressionErrorKind};
use openjd::functions::arithmetic::{
    add_float, add_int, add_list_list, add_list_range, add_path_string, add_range_list,
    add_range_range, add_range_string, add_string, add_string_range, finish_pow_float,
    finish_pow_int, floordiv_float, floordiv_int, mod_float, mod_int, mul_float, mul_int, mul_list,
    mul_string, neg_float, neg_int, not_bool, path_div, pos_float, pos_int, pow_float, pow_int,
    sub_float, sub_int, truediv_float, truediv_int, PowerStep,
};
use openjd::functions::path::join;
use openjd::range_expr::{IntRange, RangeExpr};
use openjd::types::{ExprType, PathFormat};
use openjd::value::{ExprValue, Float64};

type Operation = fn(&mut MeteredContext, &[ExprValue]) -> Result<ExprValue, ExpressionError>;

fn ctx() -> MeteredContext {
    MeteredContext::new(PathFormat::Posix, 1_000_000, 1_000_000)
}

fn whole(i: i64) -> ExprValue {
    ExprValue::Int(i)
}

fn float(x: f64) -> ExprValue {
    ExprValue::Float(Float64::new(Binary64::from_bits(x.to_bits())).unwrap())
}

fn text(s: &str) -> ExprValue {
    ExprValue::String(s.to_string())
}

fn list(elements: Vec<ExprValue>) -> ExprValue {
    ExprValue::List { elements, elem_type: ExprType::Int }
}

fn range(start: i64, end: i64, step: i64) -> ExprValue {
    ExprValue::RangeExpr(RangeExpr::from_ranges(vec![IntRange { start, end, step }]).unwrap())
}

/// The type and the text of a result, or the text of its error.
fn show(r: Result<ExprValue, ExpressionError>) -> String {
    match r {
        Ok(v) => format!("{} {}", v.expr_type().name(), v.to_display_string()),
        Err(e) => format!("error {}", e.to_string()),
    }
}

fn on(op: Operation, a: Vec<ExprValue>) -> String {
    show(op(&mut ctx(), &a))
}

fn overflows(op: Operation, a: Vec<ExprValue>) -> bool {
    matches!(
        op(&mut ctx(), &a),
        Err(ExpressionError { kind: ExpressionErrorKind::IntegerOverflow })
    )
}

fn divides_by_zero(op: Operation, a: Vec<ExprValue>) -> bool {
    matches!(
        op(&mut ctx(), &a),
        Err(ExpressionError { kind: ExpressionErrorKind::DivisionByZero { .. } })
    )
}

#[test]
fn integers_overflow_with_an_error() {
    assert_eq!(on(add_int, vec![whole(2), whole(3)]), "int 5");
    assert_eq!(on(sub_int, vec![whole(2), whole(3)]), "int -1");
    assert_eq!(on(mul_int, vec![whole(-4), whole(3)]), "int -12");
    assert!(overflows(add_int, vec![whole(i64::MAX), whole(1)]));
    assert!(overflows(sub_int, vec![whole(i64::MIN), whole(1)]));
    assert!(overflows(mul_int, vec![whole(i64::MAX), whole(2)]));
    assert!(overflows(neg_int, vec![whole(i64::MIN)]));
    assert_eq!(on(neg_int, vec![whole(5)]), "int -5");
    assert_eq!(on(pos_int, vec![whole(-5)]), "int -5");
}

#[test]
fn division_of_integers_is_floored() {
    for (a, b) in [(7, 2), (-7, 2), (7, -2), (-7, -2), (6, 3), (-6, 3), (i64::MIN, 1), (0, 5)] {
        let q = (a as f64 / b as f64).floor() as i64;
        assert_eq!(on(floordiv_int, vec![whole(a), whole(b)]), format!("int {q}"));
        assert_eq!(on(mod_int, vec![whole(a), whole(b)]), format!("int {}", a - q * b));
    }
    assert!(overflows(floordiv_int, vec![whole(i64::MIN), whole(-1)]));
    assert_eq!(on(mod_int, vec![whole(i64::MIN), whole(-1)]), "int 0");
    assert!(divides_by_zero(floordiv_int, vec![whole(1), whole(0)]));
    assert!(divides_by_zero(mod_int, vec![whole(1), whole(0)]));
    assert!(divides_by_zero(truediv_int, vec![whole(1), whole(0)]));
    assert_eq!(on(truediv_int, vec![whole(7), whole(2)]), "float 3.5");
    assert_eq!(on(truediv_int, vec![whole(6), whole(3)]), "float 2.0");
}

#[test]
fn powers_of_integers() {
    let power = |a, b| pow_int(&mut ctx(), &[whole(a), whole(b)]);
    let value = |a, b| match power(a, b) {
        Ok(PowerStep::Value(v)) => show(Ok(v)),
        Ok(PowerStep::FloatPower { .. }) => "float power".to_string(),
        Err(e) => show(Err(e)),
    };
    assert_eq!(value(2, 10), "int 1024");
    assert_eq!(value(-2, 63), "int -9223372036854775808");
    assert_eq!(value(0, 0), "int 1");
    assert_eq!(value(-1, 1_000_000_001), "int -1");
    assert_eq!(value(2, -1), "float power");
    assert!(matches!(
        power(2, 63),
        Err(ExpressionError { kind: ExpressionErrorKind::IntegerOverflow })
    ));
    assert!(matches!(
        power(0, -1),
        Err(ExpressionError { kind: ExpressionErrorKind::FloatError { .. } })
    ));
    assert_eq!(show(finish_pow_int(0.5f64.to_bits())), "float 0.5");
    assert!(finish_pow_int(f64::INFINITY.to_bits()).is_err());
}

#[test]
fn floats_add_and_divide() {
    assert_eq!(on(add_float, vec![float(0.1), float(0.2)]), "float 0.30000000000000004");
    assert_eq!(on(add_float, vec![whole(1), float(0.5)]), "float 1.5");
    assert_eq!(on(sub_float, vec![float(1.0), float(0.9)]), "float 0.09999999999999998");
    assert_eq!(on(mul_float, vec![float(1.5), whole(3)]), "float 4.5");
    assert_eq!(on(truediv_float, vec![float(1.0), float(3.0)]), "float 0.3333333333333333");
    assert!(divides_by_zero(truediv_float, vec![float(1.0), float(0.0)]));
    assert!(mul_float(&mut ctx(), &[float(1e308), float(10.0)]).is_err());
    assert_eq!(on(neg_float, vec![float(0.0)]), "float -0.0");
    assert_eq!(on(pos_float, vec![float(-2.5)]), "float -2.5");
}

#[test]
fn floats_divide_downwards() {
    assert_eq!(on(floordiv_float, vec![float(7.5), float(2.0)]), "int 3");
    assert_eq!(on(floordiv_float, vec![float(-7.5), float(2.0)]), "int -4");
    assert!(divides_by_zero(floordiv_float, vec![float(1.0), float(0.0)]));
    assert!(overflows(floordiv_float, vec![float(1e300), float(1.0)]));
    assert_eq!(on(mod_float, vec![float(-7.5), float(2.0)]), "float 0.5");
    assert_eq!(on(mod_float, vec![float(7.5), float(-2.0)]), "float -0.5");
    assert!(divides_by_zero(mod_float, vec![float(1.0), float(0.0)]));
}

#[test]
fn powers_of_floats() {
    match pow_float(&mut ctx(), &[float(2.0), float(0.5)]) {
        Ok(PowerStep::FloatPower { base, exponent }) => {
            assert_eq!(base.to_bits(), 2.0f64.to_bits());
            assert_eq!(exponent.to_bits(), 0.5f64.to_bits());
            let bits = 2.0f64.powf(0.5).to_bits();
            assert_eq!(
                show(finish_pow_float(base, exponent, bits)),
                "float 1.4142135623730951"
            );
            assert_eq!(
                show(finish_pow_float(base, exponent, f64::INFINITY.to_bits())),
                "error Overflow computing 2 ** 0.5 (result too large for float)"
            );
        }
        other => panic!("unexpected: {other:?}"),
    }
    assert!(matches!(
        pow_float(&mut ctx(), &[float(0.0), float(-1.0)]),
        Err(ExpressionError { kind: ExpressionErrorKind::FloatError { .. } })
    ));
    match pow_float(&mut ctx(), &[float(-8.0), float(0.5)]) {
        Err(e) => assert_eq!(
            e.to_string(),
            "Cannot compute -8 ** 0.5 (would produce complex number)"
        ),
        other => panic!("unexpected: {other:?}"),
    }
}

#[test]
fn texts_join_and_repeat() {
    assert_eq!(on(add_string, vec![text("ab"), text("cd")]), "string abcd");
    assert_eq!(on(mul_string, vec![text("ab"), whole(3)]), "string ababab");
    assert_eq!(on(mul_string, vec![text("日"), whole(2)]), "string 日日");
    assert_eq!(on(mul_string, vec![whole(2), text("日")]), "error type error");
    assert_eq!(on(mul_string, vec![text("ab"), whole(-1)]), "string ");
    assert_eq!(on(add_string_range, vec![text("f"), range(1, 3, 1)]), "string f1-3");
    assert_eq!(on(add_range_string, vec![range(1, 9, 2), text("x")]), "string 1-9:2x");
    let mut small = MeteredContext::new(PathFormat::Posix, 1_000_000, 10);
    assert!(mul_string(&mut small, &[text("abc"), whole(100)]).is_err());
}

#[test]
fn lists_join_and_repeat() {
    assert_eq!(
        on(add_list_list, vec![list(vec![whole(1)]), list(vec![whole(2), whole(3)])]),
        "list[int] [1, 2, 3]"
    );
    assert_eq!(on(mul_list, vec![list(vec![whole(1), whole(2)]), whole(2)]), "list[int] [1, 2, 1, 2]");
    assert_eq!(on(add_range_range, vec![range(1, 2, 1), range(7, 8, 1)]), "list[int] [1, 2, 7, 8]");
    assert_eq!(
        on(add_list_range, vec![list(vec![whole(9)]), range(1, 2, 1)]),
        "list[int] [9, 1, 2]"
    );
    assert_eq!(
        on(add_range_list, vec![range(1, 2, 1), list(vec![whole(9)])]),
        "list[int] [1, 2, 9]"
    );
}

#[test]
fn operations_are_charged() {
    let mut c = MeteredContext::new(PathFormat::Posix, 3, 1_000_000);
    let r = add_list_list(&mut c, &[list(vec![whole(1), whole(2)]), list(vec![whole(3), whole(4)])]);
    assert!(matches!(
        r,
        Err(ExpressionError { kind: ExpressionErrorKind::OperationLimitExceeded })
    ));
}

#[test]
fn paths_join() {
    let path = |s: &str| ExprValue::new_path(s.to_string(), PathFormat::Posix);
    assert_eq!(on(path_div, vec![path("/a/b"), text("c")]), "path /a/b/c");
    assert_eq!(on(path_div, vec![path("/a/b"), text("/c")]), "path /c");
    assert_eq!(on(add_path_string, vec![path("/a/b"), text(".txt")]), "path /a/b.txt");
    assert_eq!(join("a/", "b", PathFormat::Posix), "a/b");
    assert_eq!(join("C:\\a", "b", PathFormat::Windows), "C:\\a\\b");
    assert_eq!(join("C:\\a", "D:\\b", PathFormat::Windows), "D:\\b");
    assert_eq!(join("C:\\a", "\\b", PathFormat::Windows), "C:\\b");
}

#[test]
fn truth_is_negated() {
    assert_eq!(on(not_bool, vec![ExprValue::Bool(true)]), "bool false");
    assert!(not_bool(&mut ctx(), &[whole(1)]).is_err());
}
