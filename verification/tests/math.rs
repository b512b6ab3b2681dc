//! Functions on numbers.

use openjd::binary64::Binary64;
use openjd::comparison::Relation;
use openjd::context::MeteredContext;
use openjd::error::{ExpressionError, ExpressionErrorKind};
use openjd::functions::math::{
    ceil_float, ceil_int, floor_float, floor_int, max_fn, min_fn, round_fn, sum_list,
};
use openjd::range_expr::{IntRange, RangeExpr};
use openjd::types::{ExprType, PathFormat};
use openjd::value::{ExprValue, Float64};

type Operation = fn(&mut MeteredContext, &[ExprValue]) -> Result<ExprValue, ExpressionError>;

fn ctx() -> MeteredContext {
    MeteredContext::new(PathFormat::Posix, 1_000_000, 1_000_000)
}

fn whole(i: i64) -> ExprValue {
    ExprValue::Int(i)
}

fn float(x: f64) -> ExprValue {
    ExprValue::Float(Float64::new(Binary64::from_bits(x.to_bits())).unwrap())
}

fn list(elements: Vec<ExprValue>) -> ExprValue {
    ExprValue::List { elements, elem_type: ExprType::Float }
}

fn range(start: i64, end: i64, step: i64) -> ExprValue {
    ExprValue::RangeExpr(RangeExpr::from_ranges(vec![IntRange { start, end, step }]).unwrap())
}

fn on(op: Operation, a: Vec<ExprValue>) -> String {
    match op(&mut ctx(), &a) {
        Ok(v) => format!("{} {}", v.expr_type().name(), v.to_display_string()),
        Err(e) => format!("error {}", e.to_string()),
    }
}

fn overflows(op: Operation, a: Vec<ExprValue>) -> bool {
    matches!(
        op(&mut ctx(), &a),
        Err(ExpressionError { kind: ExpressionErrorKind::IntegerOverflow })
    )
}

#[test]
fn extremes() {
    assert_eq!(on(min_fn, vec![whole(3), whole(1), whole(2)]), "int 1");
    assert_eq!(on(max_fn, vec![whole(3), whole(1), whole(2)]), "int 3");
    assert_eq!(on(min_fn, vec![whole(3), float(3.5)]), "float 3.0");
    assert_eq!(on(max_fn, vec![list(vec![float(0.5), whole(2)])]), "float 2.0");
    assert_eq!(on(min_fn, vec![range(4, 10, 3)]), "int 4");
    assert_eq!(on(max_fn, vec![range(4, 10, 3)]), "int 10");
    assert!(on(min_fn, vec![]).starts_with("error"));
    assert!(on(max_fn, vec![list(vec![])]).contains("non-empty list"));
    assert!(on(min_fn, vec![whole(1), ExprValue::String("a".into())]).starts_with("error"));
}

#[test]
fn extremes_compare_integers_and_floats_exactly() {
    // 2^53 + 1 is no float: compared as floats the two would be equal.
    assert_eq!(
        on(max_fn, vec![float(9007199254740992.0), whole(9007199254740993)]),
        "float 9007199254740992.0"
    );
    assert!(matches!(
        whole(9007199254740993).compare(&float(9007199254740992.0)),
        Ok(Relation::Greater)
    ));
    assert!(matches!(
        float(9007199254740992.0).compare(&whole(9007199254740993)),
        Ok(Relation::Less)
    ));
    assert!(matches!(whole(i64::MAX).compare(&float(9.3e18)), Ok(Relation::Less)));
    assert!(matches!(whole(1).compare(&float(1.0)), Ok(Relation::Equal)));
    assert!(whole(1).compare(&ExprValue::Null).is_err());
}

#[test]
fn floors_and_ceilings() {
    assert_eq!(on(floor_float, vec![float(-1.5)]), "int -2");
    assert_eq!(on(ceil_float, vec![float(-1.5)]), "int -1");
    assert_eq!(on(floor_int, vec![whole(-3)]), "int -3");
    assert_eq!(on(ceil_int, vec![whole(4)]), "int 4");
    assert!(overflows(floor_float, vec![float(1e19)]));
    assert!(overflows(ceil_float, vec![float(-1e19)]));
}

#[test]
fn rounding_without_places() {
    assert_eq!(on(round_fn, vec![float(2.5)]), "int 2");
    assert_eq!(on(round_fn, vec![float(3.5)]), "int 4");
    assert_eq!(on(round_fn, vec![float(-0.5)]), "int 0");
    assert_eq!(on(round_fn, vec![whole(7)]), "int 7");
    assert!(overflows(round_fn, vec![float(1e19)]));
}

#[test]
fn rounding_to_decimal_places() {
    assert_eq!(on(round_fn, vec![float(2.675), whole(2)]), "float 2.68");
    assert_eq!(on(round_fn, vec![float(0.125), whole(2)]), "float 0.12");
    assert_eq!(on(round_fn, vec![float(1.5), whole(3)]), "float 1.500");
    assert_eq!(on(round_fn, vec![float(1.5), whole(0)]), "int 2");
    assert_eq!(on(round_fn, vec![whole(5), whole(2)]), "int 5");
    assert_eq!(on(round_fn, vec![float(-0.03), whole(1)]), "float -0.0");
    // A tie that rounds to zero has a positive zero.
    assert_eq!(on(round_fn, vec![float(-0.05), whole(1)]), "float 0.0");
    assert_eq!(on(round_fn, vec![float(1e300), whole(2)]).len(), 310);
    assert!(on(round_fn, vec![float(0.5), whole(1 << 40)]).contains("precision too big"));
    assert!(on(round_fn, vec![float(0.5), float(1.0)]).contains("ndigits must be int"));
    assert!(on(round_fn, vec![ExprValue::Null]).contains("requires numeric argument"));
}

#[test]
fn rounding_large_floats_to_tens() {
    // A power up to the magnitude leaves a number without a fraction as it is.
    assert_eq!(on(round_fn, vec![float(4611686018427387904.0), whole(-5)]), "int 4611686018427387904");
    assert_eq!(on(round_fn, vec![float(1e18), whole(-18)]), "int 1000000000000000000");
    assert!(overflows(round_fn, vec![float(1e25), whole(-3)]));
    // A larger power gives the nearest multiple.
    assert_eq!(on(round_fn, vec![float(1e18), whole(-20)]), "int 0");
    assert_eq!(on(round_fn, vec![float(1e18), whole(i64::MIN)]), "int 0");
    assert_eq!(on(round_fn, vec![float(6e15), whole(-16)]), "int 10000000000000000");
    assert_eq!(on(round_fn, vec![float(-6e17), whole(-18)]), "int -1000000000000000000");
    assert_eq!(on(round_fn, vec![float(5e18), whole(-19)]), "int 0");
    assert!(overflows(round_fn, vec![float(9e18), whole(-19)]));
    // A tie beyond 64 bits goes to zero, as an even multiple.
    assert_eq!(on(round_fn, vec![float(5e21), whole(-22)]), "int 0");
    assert!(overflows(round_fn, vec![float(-6e21), whole(-22)]));
    assert_eq!(on(round_fn, vec![float(1e300), whole(-301)]), "int 0");
    assert!(overflows(round_fn, vec![float(1e300), whole(-300)]));
    assert_eq!(on(round_fn, vec![float(f64::MAX), whole(-309)]), "int 0");
    assert_eq!(on(round_fn, vec![float(f64::MIN), whole(-2000)]), "int 0");
}

#[test]
fn rounding_to_tens() {
    assert_eq!(on(round_fn, vec![whole(125), whole(-1)]), "int 120");
    assert_eq!(on(round_fn, vec![whole(135), whole(-1)]), "int 140");
    assert_eq!(on(round_fn, vec![whole(-125), whole(-1)]), "int -120");
    assert_eq!(on(round_fn, vec![whole(149), whole(-2)]), "int 100");
    assert_eq!(on(round_fn, vec![whole(49), whole(-25)]), "int 0");
    assert_eq!(on(round_fn, vec![float(1250.0), whole(-2)]), "int 1200");
    assert_eq!(on(round_fn, vec![whole(i64::MIN), whole(-18)]), "int -9000000000000000000");
    assert!(overflows(round_fn, vec![whole(i64::MAX), whole(-1)]));
    // The nearest multiple of 10^19 is 10^19 itself, which 64 bits do not hold.
    assert!(overflows(round_fn, vec![whole(i64::MAX), whole(-19)]));
    assert_eq!(on(round_fn, vec![whole(4_000_000_000_000_000_000), whole(-19)]), "int 0");
    assert_eq!(on(round_fn, vec![float(3.0), whole(0)]), "int 3");
}

#[test]
fn sums() {
    assert_eq!(on(sum_list, vec![list(vec![whole(1), whole(2), whole(3)])]), "int 6");
    assert_eq!(on(sum_list, vec![list(vec![whole(1), float(0.5)])]), "float 1.5");
    assert_eq!(on(sum_list, vec![list(vec![])]), "int 0");
    assert_eq!(on(sum_list, vec![range(1, 10, 1)]), "int 55");
    assert!(overflows(sum_list, vec![list(vec![whole(i64::MAX), whole(1)])]));
    assert!(on(sum_list, vec![list(vec![ExprValue::Null])]).contains("must be numeric"));
}
