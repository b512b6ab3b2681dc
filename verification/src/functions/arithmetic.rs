//! Operators on numbers, texts, paths and lists.

use vstd::arithmetic::power::pow;
use vstd::prelude::*;

use crate::binary64::{
    decoded, difference, floor_of, narrowed, negation, of_int, one, product, quotient, remainder, sum, view_of, whole,
    Binary64, FloatValue,
};
use crate::context::{each_op, EvalContext};
use crate::error::{error_of, ErrorView, ExpressionError};
use crate::functions::path::{join, joined};
use crate::range_expr::{
    all_valid, range_text, range_values, saturated, IntRange, RangeExpr,
};
use crate::repr::{plain_float_text, push_plain_float};
use crate::text::{lemma_repeated_len, repeated};
use crate::types::{type_text, ExprType, PathFormat};
use crate::value::{
    byte_len, checked_list, lemma_models_index, lemma_models_push, list_bytes, models, not_finite,
    outcome, slot_bytes, str_len, ExprValue, Float64, ValueView,
};

verus! {

/// The error of operands that an operator does not take.
pub open spec fn type_fault() -> ErrorView {
    ErrorView::TypeError("type error"@)
}

pub(crate) fn type_fault_error() -> (e: ExpressionError)
    ensures
        e@ == type_fault(),
{
    ExpressionError::type_error("type error")
}

/// An integer result, which must fit 64 bits.
pub open spec fn int_result(i: int) -> Result<ValueView, ErrorView> {
    if i64::MIN <= i <= i64::MAX {
        Ok(ValueView::Int(i))
    } else {
        Err(ErrorView::IntegerOverflow)
    }
}

/// A floating-point result; `None` is one beyond the finite range.
pub open spec fn float_result(f: Option<FloatValue>) -> Result<ValueView, ErrorView> {
    match f {
        Some(number) => Ok(ValueView::Float { number, text: None }),
        None => Err(not_finite()),
    }
}

pub(crate) fn checked_int(i: Option<i64>, Ghost(exact): Ghost<int>) -> (r: Result<ExprValue, ExpressionError>)
    requires
        i == narrowed(exact),
    ensures
        outcome(r) == int_result(exact),
{
    match i {
        Some(i) => Ok(ExprValue::Int(i)),
        None => Err(ExpressionError::integer_overflow()),
    }
}

pub(crate) fn checked_float(f: Option<Binary64>) -> (r: Result<ExprValue, ExpressionError>)
    ensures
        outcome(r) == float_result(view_of(f)),
{
    match Float64::new(f) {
        Ok(f) => Ok(ExprValue::Float(f)),
        Err(e) => Err(e),
    }
}

/// Adds two integers.
pub fn add_int<C: EvalContext>(ctx: &mut C, a: &[ExprValue]) -> (r: Result<ExprValue, ExpressionError>)
    requires
        a@.len() >= 2,
    ensures
        *final(ctx) == *old(ctx),
        outcome(r) == (match (a@[0]@, a@[1]@) {
            (ValueView::Int(x), ValueView::Int(y)) => int_result(x + y),
            _ => Err(type_fault()),
        }),
{
    match (&a[0], &a[1]) {
        (ExprValue::Int(x), ExprValue::Int(y)) => checked_int(x.checked_add(*y), Ghost(*x + *y)),
        _ => Err(type_fault_error()),
    }
}

/// Subtracts an integer from another.
pub fn sub_int<C: EvalContext>(ctx: &mut C, a: &[ExprValue]) -> (r: Result<ExprValue, ExpressionError>)
    requires
        a@.len() >= 2,
    ensures
        *final(ctx) == *old(ctx),
        outcome(r) == (match (a@[0]@, a@[1]@) {
            (ValueView::Int(x), ValueView::Int(y)) => int_result(x - y),
            _ => Err(type_fault()),
        }),
{
    match (&a[0], &a[1]) {
        (ExprValue::Int(x), ExprValue::Int(y)) => checked_int(x.checked_sub(*y), Ghost(*x - *y)),
        _ => Err(type_fault_error()),
    }
}

/// Multiplies two integers.
pub fn mul_int<C: EvalContext>(ctx: &mut C, a: &[ExprValue]) -> (r: Result<ExprValue, ExpressionError>)
    requires
        a@.len() >= 2,
    ensures
        *final(ctx) == *old(ctx),
        outcome(r) == (match (a@[0]@, a@[1]@) {
            (ValueView::Int(x), ValueView::Int(y)) => int_result(x * y),
            _ => Err(type_fault()),
        }),
{
    match (&a[0], &a[1]) {
        (ExprValue::Int(x), ExprValue::Int(y)) => checked_int(x.checked_mul(*y), Ghost(*x * *y)),
        _ => Err(type_fault_error()),
    }
}

/// Divides two integers as floating-point numbers.
pub fn truediv_int<C: EvalContext>(ctx: &mut C, a: &[ExprValue]) -> (r: Result<
    ExprValue,
    ExpressionError,
>)
    requires
        a@.len() >= 2,
    ensures
        *final(ctx) == *old(ctx),
        outcome(r) == (match (a@[0]@, a@[1]@) {
            (ValueView::Int(x), ValueView::Int(y)) => if y == 0 {
                Err(ErrorView::DivisionByZero("Division"@))
            } else {
                float_result(quotient(of_int(x)->0, of_int(y)->0))
            },
            _ => Err(type_fault()),
        }),
{
    match (&a[0], &a[1]) {
        (ExprValue::Int(x), ExprValue::Int(y)) => {
            if *y == 0 {
                return Err(ExpressionError::division_by_zero("Division"));
            }
            let dividend = Binary64::from_i64(*x);
            let divisor = Binary64::from_i64(*y);
            proof {
                crate::binary64::lemma_of_int_nonzero(*y as int);
            }
            checked_float(dividend.div(&divisor))
        },
        _ => Err(type_fault_error()),
    }
}

/// Division rounded towards negative infinity, by a divisor other than zero.
pub open spec fn floor_div(x: int, y: int) -> int {
    if y > 0 {
        x / y
    } else {
        (-x) / (-y)
    }
}

/// What is left of `x` by floored division: it takes the sign of `y`.
pub open spec fn floor_mod(x: int, y: int) -> int {
    if y > 0 {
        x % y
    } else {
        -((-x) % (-y))
    }
}

/// Floored division in terms of Euclidean division.
proof fn lemma_floor_div(x: int, y: int)
    requires
        y < 0,
    ensures
        x % y == 0 ==> floor_div(x, y) == x / y && floor_mod(x, y) == 0,
        x % y != 0 ==> floor_div(x, y) == x / y - 1 && floor_mod(x, y) == x % y + y,
{
    let q = x / y;
    let r = x % y;
    vstd::arithmetic::div_mod::lemma_fundamental_div_mod(x, y);
    assert(0 <= r < -y) by (nonlinear_arith)
        requires
            y < 0,
            r == x % y,
    ;
    if r == 0 {
        assert(-x == q * (-y)) by (nonlinear_arith)
            requires
                x == y * q,
        ;
        vstd::arithmetic::div_mod::lemma_fundamental_div_mod_converse(-x, -y, q, 0);
    } else {
        assert(-x == (q - 1) * (-y) + (-y - r)) by (nonlinear_arith)
            requires
                x == y * q + r,
        ;
        vstd::arithmetic::div_mod::lemma_fundamental_div_mod_converse(-x, -y, q - 1, -y - r);
    }
}

/// Floored quotient and remainder make up the dividend, and the remainder is
/// smaller than the divisor and has its sign.
pub proof fn floored_division_is_exact(x: int, y: int)
    requires
        y != 0,
    ensures
        floor_div(x, y) * y + floor_mod(x, y) == x,
        y > 0 ==> 0 <= floor_mod(x, y) < y,
        y < 0 ==> y < floor_mod(x, y) <= 0,
{
    if y > 0 {
        vstd::arithmetic::div_mod::lemma_fundamental_div_mod(x, y);
        assert(y * (x / y) == (x / y) * y) by (nonlinear_arith);
    } else {
        vstd::arithmetic::div_mod::lemma_fundamental_div_mod(-x, -y);
        let q = (-x) / (-y);
        assert(q * y == -((-y) * q)) by (nonlinear_arith);
    }
}

/// Divides two integers, rounding towards negative infinity.
pub fn floordiv_int<C: EvalContext>(ctx: &mut C, a: &[ExprValue]) -> (r: Result<
    ExprValue,
    ExpressionError,
>)
    requires
        a@.len() >= 2,
    ensures
        *final(ctx) == *old(ctx),
        outcome(r) == (match (a@[0]@, a@[1]@) {
            (ValueView::Int(x), ValueView::Int(y)) => if y == 0 {
                Err(ErrorView::DivisionByZero("Division"@))
            } else {
                int_result(floor_div(x, y))
            },
            _ => Err(type_fault()),
        }),
{
    match (&a[0], &a[1]) {
        (ExprValue::Int(x), ExprValue::Int(y)) => {
            if *y == 0 {
                return Err(ExpressionError::division_by_zero("Division"));
            }
            proof {
                if *y < 0 {
                    lemma_floor_div(*x as int, *y as int);
                }
                if *x == i64::MIN && *y == -1 {
                    assert((-x) / 1 == -x);
                }
            }
            let exact = Ghost(floor_div(*x as int, *y as int));
            match (x.checked_div_euclid(*y), x.checked_rem_euclid(*y)) {
                (Some(q), Some(rem)) => if *y < 0 && rem != 0 {
                    checked_int(q.checked_sub(1), exact)
                } else {
                    checked_int(Some(q), exact)
                },
                _ => {
                    proof {
                        if !(*x == i64::MIN && *y == -1) {
                            lemma_euclid_range(*x, *y);
                        }
                    }
                    Err(ExpressionError::integer_overflow())
                },
            }
        },
        _ => Err(type_fault_error()),
    }
}

/// The Euclidean quotient and remainder fit 64 bits but for one pair.
proof fn lemma_euclid_range(x: i64, y: i64)
    requires
        y != 0,
        !(x == i64::MIN && y == -1),
    ensures
        i64::MIN <= x / y <= i64::MAX,
        i64::MIN <= (x as int) % (y as int) <= i64::MAX,
{
    let (n, d) = (x as int, y as int);
    vstd::arithmetic::div_mod::lemma_fundamental_div_mod(n, d);
    let q = n / d;
    let r = n % d;
    if d > 0 {
        assert(0 <= r < d);
        assert(q <= i64::MAX && q >= i64::MIN) by (nonlinear_arith)
            requires
                n == d * q + r,
                0 <= r < d,
                i64::MIN <= n <= i64::MAX,
        ;
    } else {
        assert(0 <= r < -d) by (nonlinear_arith)
            requires
                d < 0,
                r == n % d,
        ;
        assert(q <= i64::MAX && q >= i64::MIN) by (nonlinear_arith)
            requires
                n == d * q + r,
                0 <= r < -d,
                d < 0,
                i64::MIN <= n <= i64::MAX,
                !(n == i64::MIN && d == -1),
        ;
    }
}

/// The remainder of floored division.
pub fn mod_int<C: EvalContext>(ctx: &mut C, a: &[ExprValue]) -> (r: Result<ExprValue, ExpressionError>)
    requires
        a@.len() >= 2,
    ensures
        *final(ctx) == *old(ctx),
        outcome(r) == (match (a@[0]@, a@[1]@) {
            (ValueView::Int(x), ValueView::Int(y)) => if y == 0 {
                Err(ErrorView::DivisionByZero("Modulo"@))
            } else {
                Ok(ValueView::Int(floor_mod(x, y)))
            },
            _ => Err(type_fault()),
        }),
{
    match (&a[0], &a[1]) {
        (ExprValue::Int(x), ExprValue::Int(y)) => {
            if *y == 0 {
                return Err(ExpressionError::division_by_zero("Modulo"));
            }
            if *y == 1 || *y == -1 {
                proof {
                    assert(*x as int % 1 == 0);
                    assert((-x) % 1 == 0);
                }
                return Ok(ExprValue::Int(0));
            }
            proof {
                lemma_euclid_range(*x, *y);
                floored_division_is_exact(*x as int, *y as int);
                if *y < 0 {
                    lemma_floor_div(*x as int, *y as int);
                }
            }
            match x.checked_rem_euclid(*y) {
                Some(rem) => if *y < 0 && rem != 0 {
                    Ok(ExprValue::Int(rem + *y))
                } else {
                    Ok(ExprValue::Int(rem))
                },
                None => Err(ExpressionError::integer_overflow()),
            }
        },
        _ => Err(type_fault_error()),
    }
}

/// Negates an integer.
pub fn neg_int<C: EvalContext>(ctx: &mut C, a: &[ExprValue]) -> (r: Result<ExprValue, ExpressionError>)
    requires
        a@.len() >= 1,
    ensures
        *final(ctx) == *old(ctx),
        outcome(r) == (match a@[0]@ {
            ValueView::Int(x) => int_result(-x),
            _ => Err(type_fault()),
        }),
{
    match &a[0] {
        ExprValue::Int(x) => {
            let zero: i64 = 0;
            checked_int(zero.checked_sub(*x), Ghost(-*x))
        },
        _ => Err(type_fault_error()),
    }
}

/// Returns an integer unchanged.
pub fn pos_int<C: EvalContext>(ctx: &mut C, a: &[ExprValue]) -> (r: Result<ExprValue, ExpressionError>)
    requires
        a@.len() >= 1,
    ensures
        *final(ctx) == *old(ctx),
        outcome(r) == (match a@[0]@ {
            ValueView::Int(x) => Ok(ValueView::Int(x)),
            _ => Err(type_fault()),
        }),
{
    match &a[0] {
        ExprValue::Int(x) => Ok(ExprValue::Int(*x)),
        _ => Err(type_fault_error()),
    }
}

/// What is known of a power before floating point is consulted.
#[derive(Debug)]
pub enum PowerStep {
    /// The power is this value.
    Value(ExprValue),
    /// The power is the floating-point power of these numbers.
    FloatPower { base: Binary64, exponent: Binary64 },
}

/// The model of a power step.
#[verifier::ext_equal]
pub enum PowerView {
    Value(ValueView),
    FloatPower { base: FloatValue, exponent: FloatValue },
}

impl View for PowerStep {
    type V = PowerView;

    open spec fn view(&self) -> PowerView {
        match self {
            PowerStep::Value(v) => PowerView::Value(v@),
            PowerStep::FloatPower { base, exponent } => PowerView::FloatPower {
                base: base@,
                exponent: exponent@,
            },
        }
    }
}

/// The result of a power step in the model.
pub open spec fn power_outcome(r: Result<PowerStep, ExpressionError>) -> Result<PowerView, ErrorView> {
    match r {
        Ok(step) => Ok(step@),
        Err(e) => Err(e@),
    }
}

/// The power of an integer; a negative exponent asks for floating point.
pub open spec fn int_power(base: int, exponent: int) -> Result<PowerView, ErrorView> {
    if exponent < 0 {
        if base == 0 {
            Err(ErrorView::FloatError("Cannot raise zero to a negative power"@))
        } else {
            Ok(PowerView::FloatPower { base: of_int(base)->0, exponent: of_int(exponent)->0 })
        }
    } else {
        match int_result(pow(base, exponent as nat)) {
            Ok(v) => Ok(PowerView::Value(v)),
            Err(e) => Err(e),
        }
    }
}

/// Powers of a base of magnitude one or zero.
proof fn lemma_small_power(n: nat)
    ensures
        pow(1, n) == 1,
        n > 0 ==> pow(0, n) == 0,
        pow(-1, n) == (if n % 2 == 0 { 1int } else { -1 }),
    decreases n,
{
    reveal(pow);
    if n > 0 {
        lemma_small_power((n - 1) as nat);
    }
}

/// The sign of a power of a negative base.
proof fn lemma_negative_power(b: int, n: nat)
    ensures
        pow(-b, n) == (if n % 2 == 0 { pow(b, n) } else { -pow(b, n) }),
    decreases n,
{
    reveal(pow);
    if n > 0 {
        lemma_negative_power(b, (n - 1) as nat);
        let p = pow(b, (n - 1) as nat);
        assert((-b) * p == -(b * p)) by (nonlinear_arith);
        assert((-b) * (-p) == b * p) by (nonlinear_arith);
    }
}

/// A power grows with its exponent.
proof fn lemma_power_grows(b: int, i: nat, n: nat)
    requires
        b >= 2,
        i <= n,
    ensures
        pow(b, i) <= pow(b, n),
        pow(b, i) >= 1,
    decreases n - i,
{
    reveal(pow);
    vstd::arithmetic::power::lemma_pow_positive(b, i);
    if i < n {
        lemma_power_grows(b, i + 1, n);
        let p = pow(b, i);
        assert(b * p >= p) by (nonlinear_arith)
            requires
                b >= 2,
                p >= 1,
        ;
        assert(pow(b, i + 1) == b * p);
    }
}

/// A power of at least two beyond the exponent 63 exceeds 64 bits.
proof fn lemma_power_overflows(b: int, n: nat)
    requires
        b >= 2,
        n >= 64,
    ensures
        pow(b, n) >= 0x1_0000_0000_0000_0000,
{
    vstd::arithmetic::power::lemma_pow_increases(b as nat, 64, n);
    vstd::arithmetic::power2::lemma2_to64();
    vstd::arithmetic::power2::lemma_pow2(64);
    lemma_power_base(2, b, 64);
}

proof fn lemma_power_base(a: int, b: int, n: nat)
    requires
        0 < a <= b,
    ensures
        0 < pow(a, n) <= pow(b, n),
    decreases n,
{
    reveal(pow);
    if n > 0 {
        lemma_power_base(a, b, (n - 1) as nat);
        let (p, q) = (pow(a, (n - 1) as nat), pow(b, (n - 1) as nat));
        assert(0 < a * p <= b * q) by (nonlinear_arith)
            requires
                0 < a <= b,
                0 < p <= q,
        ;
    }
}

/// The magnitude of a power; `None` where it exceeds 2^63.
fn magnitude_power(base: u64, exponent: u32) -> (r: Option<u64>)
    requires
        2 <= base <= 0x8000_0000_0000_0000,
    ensures
        match r {
            Some(m) => m <= 0x8000_0000_0000_0000 && m == pow(base as int, exponent as nat),
            None => pow(base as int, exponent as nat) > 0x8000_0000_0000_0000,
        },
{
    let mut m: u128 = 1;
    let mut i: u32 = 0;
    proof {
        vstd::arithmetic::power::lemma_pow0(base as int);
    }
    while i < exponent
        invariant
            i <= exponent,
            2 <= base <= 0x8000_0000_0000_0000,
            m <= 0x8000_0000_0000_0000,
            m == pow(base as int, i as nat),
        decreases exponent - i,
    {
        assert(m * base <= 0x8000_0000_0000_0000 * 0x8000_0000_0000_0000) by (nonlinear_arith)
            requires
                m <= 0x8000_0000_0000_0000,
                base <= 0x8000_0000_0000_0000,
        ;
        proof {
            reveal(pow);
            assert(pow(base as int, (i + 1) as nat) == base * pow(base as int, i as nat));
            assert(base * m == m * base) by (nonlinear_arith);
            lemma_power_grows(base as int, (i + 1) as nat, exponent as nat);
        }
        m = m * base as u128;
        if m > 0x8000_0000_0000_0000 {
            return None;
        }
        i = i + 1;
    }
    Some(m as u64)
}

/// Raises an integer to a non-negative power.
fn whole_power(base: i64, exponent: i64) -> (r: Result<ExprValue, ExpressionError>)
    requires
        exponent >= 0,
    ensures
        outcome(r) == int_result(pow(base as int, exponent as nat)),
{
    proof {
        lemma_small_power(exponent as nat);
        vstd::arithmetic::power::lemma_pow0(0);
    }
    if base == 0 {
        return Ok(ExprValue::Int(if exponent == 0 { 1 } else { 0 }));
    }
    if base == 1 {
        return Ok(ExprValue::Int(1));
    }
    let odd = exponent % 2 == 1;
    if base == -1 {
        return Ok(ExprValue::Int(if odd { -1 } else { 1 }));
    }
    let size: u64 = if base < 0 { (-(base as i128)) as u64 } else { base as u64 };
    proof {
        if base < 0 {
            lemma_negative_power(size as int, exponent as nat);
        }
        if exponent > 63 {
            lemma_power_overflows(size as int, exponent as nat);
        }
    }
    if exponent > 63 {
        return Err(ExpressionError::integer_overflow());
    }
    match magnitude_power(size, exponent as u32) {
        Some(m) => {
            let negative = base < 0 && odd;
            if negative {
                if m == 0x8000_0000_0000_0000 {
                    Ok(ExprValue::Int(i64::MIN))
                } else {
                    Ok(ExprValue::Int(-(m as i64)))
                }
            } else if m == 0x8000_0000_0000_0000 {
                Err(ExpressionError::integer_overflow())
            } else {
                Ok(ExprValue::Int(m as i64))
            }
        },
        None => Err(ExpressionError::integer_overflow()),
    }
}

/// Raises an integer to an integer power.
pub fn pow_int<C: EvalContext>(ctx: &mut C, a: &[ExprValue]) -> (r: Result<PowerStep, ExpressionError>)
    requires
        a@.len() >= 2,
    ensures
        *final(ctx) == *old(ctx),
        power_outcome(r) == (match (a@[0]@, a@[1]@) {
            (ValueView::Int(base), ValueView::Int(exponent)) => int_power(base, exponent),
            _ => Err(type_fault()),
        }),
{
    match (&a[0], &a[1]) {
        (ExprValue::Int(base), ExprValue::Int(exponent)) => {
            if *exponent < 0 {
                if *base == 0 {
                    return Err(ExpressionError::float_error("Cannot raise zero to a negative power"));
                }
                return Ok(
                    PowerStep::FloatPower {
                        base: Binary64::from_i64(*base),
                        exponent: Binary64::from_i64(*exponent),
                    },
                );
            }
            match whole_power(*base, *exponent) {
                Ok(v) => Ok(PowerStep::Value(v)),
                Err(e) => Err(e),
            }
        },
        _ => Err(type_fault_error()),
    }
}

/// The value of an integer power that floating point computed, from the bits
/// of the result.
pub fn finish_pow_int(bits: u64) -> (r: Result<ExprValue, ExpressionError>)
    ensures
        outcome(r) == float_result(decoded(bits)),
{
    checked_float(Binary64::from_bits(bits))
}

/// A number as floating point.
pub open spec fn as_float(v: ValueView) -> Option<FloatValue> {
    match v {
        ValueView::Float { number, text } => Some(number),
        ValueView::Int(i) => of_int(i),
        _ => None,
    }
}

/// An operator on two numbers as floating point.
pub open spec fn on_floats(
    args: Seq<ExprValue>,
    op: spec_fn(FloatValue, FloatValue) -> Result<ValueView, ErrorView>,
) -> Result<ValueView, ErrorView> {
    match (as_float(args[0]@), as_float(args[1]@)) {
        (Some(l), Some(r)) => op(l, r),
        _ => Err(type_fault()),
    }
}

fn to_float(v: &ExprValue) -> (r: Option<Binary64>)
    ensures
        view_of(r) == as_float(v@),
{
    match v {
        ExprValue::Float(f) => Some(f.number),
        ExprValue::Int(i) => Some(Binary64::from_i64(*i)),
        _ => None,
    }
}

/// Both operands as floating point.
fn get_two_floats(a: &[ExprValue]) -> (r: Result<(Binary64, Binary64), ExpressionError>)
    requires
        a@.len() >= 2,
    ensures
        match r {
            Ok(pair) => as_float(a@[0]@) == Some(pair.0@) && as_float(a@[1]@) == Some(pair.1@),
            Err(e) => (as_float(a@[0]@) is None || as_float(a@[1]@) is None) && e@ == type_fault(),
        },
{
    match (to_float(&a[0]), to_float(&a[1])) {
        (Some(l), Some(r)) => Ok((l, r)),
        _ => Err(type_fault_error()),
    }
}

/// Adds two numbers in floating point.
pub fn add_float<C: EvalContext>(ctx: &mut C, a: &[ExprValue]) -> (r: Result<
    ExprValue,
    ExpressionError,
>)
    requires
        a@.len() >= 2,
    ensures
        *final(ctx) == *old(ctx),
        outcome(r) == on_floats(a@, |l: FloatValue, r: FloatValue| float_result(sum(l, r))),
{
    match get_two_floats(a) {
        Ok((l, r)) => checked_float(l.plus(&r)),
        Err(e) => Err(e),
    }
}

/// Subtracts two numbers in floating point.
pub fn sub_float<C: EvalContext>(ctx: &mut C, a: &[ExprValue]) -> (r: Result<
    ExprValue,
    ExpressionError,
>)
    requires
        a@.len() >= 2,
    ensures
        *final(ctx) == *old(ctx),
        outcome(r) == on_floats(a@, |l: FloatValue, r: FloatValue| float_result(difference(l, r))),
{
    match get_two_floats(a) {
        Ok((l, r)) => checked_float(l.minus(&r)),
        Err(e) => Err(e),
    }
}

/// Multiplies two numbers in floating point.
pub fn mul_float<C: EvalContext>(ctx: &mut C, a: &[ExprValue]) -> (r: Result<
    ExprValue,
    ExpressionError,
>)
    requires
        a@.len() >= 2,
    ensures
        *final(ctx) == *old(ctx),
        outcome(r) == on_floats(a@, |l: FloatValue, r: FloatValue| float_result(product(l, r))),
{
    match get_two_floats(a) {
        Ok((l, r)) => checked_float(l.mul(&r)),
        Err(e) => Err(e),
    }
}

/// Divides two numbers in floating point.
pub fn truediv_float<C: EvalContext>(ctx: &mut C, a: &[ExprValue]) -> (r: Result<
    ExprValue,
    ExpressionError,
>)
    requires
        a@.len() >= 2,
    ensures
        *final(ctx) == *old(ctx),
        outcome(r) == on_floats(
            a@,
            |l: FloatValue, r: FloatValue|
                if r.magnitude == 0 {
                    Err(ErrorView::DivisionByZero("Division"@))
                } else {
                    float_result(quotient(l, r))
                },
        ),
{
    match get_two_floats(a) {
        Ok((l, r)) => {
            if r.is_zero() {
                return Err(ExpressionError::division_by_zero("Division"));
            }
            checked_float(l.div(&r))
        },
        Err(e) => Err(e),
    }
}

/// One, as a binary64 number.
pub open spec fn float_one() -> FloatValue {
    FloatValue { negative: false, magnitude: one() }
}

/// Whether a number lies more than one half above another.
pub open spec fn more_than_half_above(a: FloatValue, b: FloatValue) -> bool {
    match difference(a, b) {
        Some(d) => 2 * d.units() > one(),
        None => false,
    }
}

/// The quotient from which a floored quotient is rounded: that of the dividend
/// without its remainder, less one where the remainder and the divisor differ
/// in sign. `None` is a quotient beyond the finite range.
pub open spec fn unrounded_quotient(l: FloatValue, r: FloatValue) -> Option<FloatValue> {
    let rest = remainder(l, r);
    match difference(l, rest) {
        Some(whole_part) => match quotient(whole_part, r) {
            Some(div) => if rest.magnitude != 0 && r.negative != rest.negative {
                difference(div, float_one())
            } else {
                Some(div)
            },
            None => None,
        },
        None => None,
    }
}

/// The floored quotient of two floating-point numbers as an integer.
pub open spec fn float_floor_div(l: FloatValue, r: FloatValue) -> Result<ValueView, ErrorView> {
    match unrounded_quotient(l, r) {
        Some(div) => {
            let floor = whole(div.negative, floor_of(div));
            let rounded = if more_than_half_above(div, floor) {
                sum(floor, float_one())
            } else {
                Some(floor)
            };
            match rounded {
                Some(v) => int_result(floor_of(v)),
                None => Err(ErrorView::IntegerOverflow),
            }
        },
        None => Err(ErrorView::IntegerOverflow),
    }
}

fn quotient_before_rounding(l: &Binary64, r: &Binary64) -> (d: Option<Binary64>)
    requires
        r@.magnitude > 0,
    ensures
        view_of(d) == unrounded_quotient(l@, r@),
{
    let rest = l.rem(r);
    match l.minus(&rest) {
        Some(whole_part) => match whole_part.div(r) {
            Some(div) => if !rest.is_zero() && r.negative() != rest.negative() {
                div.minus(&Binary64::unit())
            } else {
                Some(div)
            },
            None => None,
        },
        None => None,
    }
}

/// Divides two numbers in floating point, rounding towards negative infinity.
pub fn floordiv_float<C: EvalContext>(ctx: &mut C, a: &[ExprValue]) -> (r: Result<
    ExprValue,
    ExpressionError,
>)
    requires
        a@.len() >= 2,
    ensures
        *final(ctx) == *old(ctx),
        outcome(r) == on_floats(
            a@,
            |l: FloatValue, r: FloatValue|
                if r.magnitude == 0 {
                    Err(ErrorView::DivisionByZero("Division"@))
                } else {
                    float_floor_div(l, r)
                },
        ),
{
    match get_two_floats(a) {
        Ok((l, r)) => {
            if r.is_zero() {
                return Err(ExpressionError::division_by_zero("Division"));
            }
            let rounded = match quotient_before_rounding(&l, &r) {
                Some(div) => {
                    let floor = div.floor();
                    let up = match div.minus(&floor) {
                        Some(excess) => Binary64::half().less(&excess),
                        None => false,
                    };
                    if up {
                        floor.plus(&Binary64::unit())
                    } else {
                        Some(floor)
                    }
                },
                None => None,
            };
            match rounded {
                Some(v) => checked_int(v.floor_to_i64(), Ghost(floor_of(v@))),
                None => Err(ExpressionError::integer_overflow()),
            }
        },
        Err(e) => Err(e),
    }
}

/// The remainder of floored division: the truncated remainder, moved by one
/// divisor where it differs from the divisor in sign.
pub open spec fn float_floor_mod(l: FloatValue, r: FloatValue) -> Option<FloatValue> {
    let rest = remainder(l, r);
    if rest.magnitude != 0 && rest.negative != r.negative {
        sum(rest, r)
    } else {
        Some(rest)
    }
}

/// The remainder of floored division in floating point.
pub fn mod_float<C: EvalContext>(ctx: &mut C, a: &[ExprValue]) -> (r: Result<
    ExprValue,
    ExpressionError,
>)
    requires
        a@.len() >= 2,
    ensures
        *final(ctx) == *old(ctx),
        outcome(r) == on_floats(
            a@,
            |l: FloatValue, r: FloatValue|
                if r.magnitude == 0 {
                    Err(ErrorView::DivisionByZero("Modulo"@))
                } else {
                    float_result(float_floor_mod(l, r))
                },
        ),
{
    match get_two_floats(a) {
        Ok((l, r)) => {
            if r.is_zero() {
                return Err(ExpressionError::division_by_zero("Modulo"));
            }
            let rest = l.rem(&r);
            if !rest.is_zero() && rest.negative() != r.negative() {
                checked_float(rest.plus(&r))
            } else {
                checked_float(Some(rest))
            }
        },
        Err(e) => Err(e),
    }
}

/// The words on a power of floating-point numbers.
pub open spec fn power_words(
    before: Seq<char>,
    base: FloatValue,
    exponent: FloatValue,
    after: Seq<char>,
) -> Seq<char> {
    before + plain_float_text(base) + " ** "@ + plain_float_text(exponent) + after
}

fn power_error(before: &str, base: &Binary64, exponent: &Binary64, after: &str) -> (e: ExpressionError)
    ensures
        e@ == ErrorView::FloatError(power_words(before@, base@, exponent@, after@)),
{
    let mut words = before.to_owned();
    push_plain_float(&mut words, base);
    words.append(" ** ");
    push_plain_float(&mut words, exponent);
    words.append(after);
    ExpressionError::float_error(words.as_str())
}

/// The error of a negative base with a fractional exponent.
pub open spec fn complex_power(l: FloatValue, r: FloatValue) -> ErrorView {
    ErrorView::FloatError(
        power_words("Cannot compute "@, l, r, " (would produce complex number)"@),
    )
}

/// The error of a power beyond the finite range.
pub open spec fn overflown_power(l: FloatValue, r: FloatValue) -> ErrorView {
    ErrorView::FloatError(
        power_words("Overflow computing "@, l, r, " (result too large for float)"@),
    )
}

/// What a power of floating-point numbers is before it is computed.
pub open spec fn float_power(l: FloatValue, r: FloatValue) -> Result<PowerView, ErrorView> {
    if l.magnitude == 0 && r.negative && r.magnitude != 0 {
        Err(ErrorView::FloatError("Cannot raise zero to a negative power"@))
    } else if l.negative && l.magnitude != 0 && r.magnitude % one() != 0 {
        Err(complex_power(l, r))
    } else {
        Ok(PowerView::FloatPower { base: l, exponent: r })
    }
}

/// Raises a number to a power in floating point.
pub fn pow_float<C: EvalContext>(ctx: &mut C, a: &[ExprValue]) -> (r: Result<
    PowerStep,
    ExpressionError,
>)
    requires
        a@.len() >= 2,
    ensures
        *final(ctx) == *old(ctx),
        power_outcome(r) == (match (as_float(a@[0]@), as_float(a@[1]@)) {
            (Some(l), Some(r)) => float_power(l, r),
            _ => Err(type_fault()),
        }),
{
    match get_two_floats(a) {
        Ok((l, r)) => {
            if l.is_zero() && r.negative() && !r.is_zero() {
                return Err(ExpressionError::float_error("Cannot raise zero to a negative power"));
            }
            if l.negative() && !l.is_zero() && !r.is_whole() {
                return Err(
                    power_error("Cannot compute ", &l, &r, " (would produce complex number)"),
                );
            }
            Ok(PowerStep::FloatPower { base: l, exponent: r })
        },
        Err(e) => Err(e),
    }
}

/// Whether the bits of a binary64 number hold an infinity.
pub open spec fn is_infinite(bits: u64) -> bool {
    bits == 0x7FF0_0000_0000_0000 || bits == 0xFFF0_0000_0000_0000
}

/// The value of a power that floating point computed, from the bits of the
/// result.
pub fn finish_pow_float(base: Binary64, exponent: Binary64, bits: u64) -> (r: Result<
    ExprValue,
    ExpressionError,
>)
    ensures
        outcome(r) == (if is_infinite(bits) {
            Err(overflown_power(base@, exponent@))
        } else {
            float_result(decoded(bits))
        }),
{
    if bits == 0x7FF0_0000_0000_0000 || bits == 0xFFF0_0000_0000_0000 {
        return Err(
            power_error("Overflow computing ", &base, &exponent, " (result too large for float)"),
        );
    }
    checked_float(Binary64::from_bits(bits))
}

/// Negates a floating-point number.
pub fn neg_float<C: EvalContext>(ctx: &mut C, a: &[ExprValue]) -> (r: Result<
    ExprValue,
    ExpressionError,
>)
    requires
        a@.len() >= 1,
    ensures
        *final(ctx) == *old(ctx),
        outcome(r) == (match a@[0]@ {
            ValueView::Float { number, text } => float_result(Some(negation(number))),
            _ => Err(type_fault()),
        }),
{
    match &a[0] {
        ExprValue::Float(f) => checked_float(Some(f.number.neg())),
        _ => Err(type_fault_error()),
    }
}

/// A floating-point number without the text it was written as.
pub fn pos_float<C: EvalContext>(ctx: &mut C, a: &[ExprValue]) -> (r: Result<
    ExprValue,
    ExpressionError,
>)
    requires
        a@.len() >= 1,
    ensures
        *final(ctx) == *old(ctx),
        outcome(r) == (match a@[0]@ {
            ValueView::Float { number, text } => float_result(Some(number)),
            _ => Err(type_fault()),
        }),
{
    match &a[0] {
        ExprValue::Float(f) => checked_float(Some(f.number)),
        _ => Err(type_fault_error()),
    }
}

/// Negates a truth value.
pub fn not_bool<C: EvalContext>(ctx: &mut C, a: &[ExprValue]) -> (r: Result<ExprValue, ExpressionError>)
    requires
        a@.len() >= 1,
    ensures
        *final(ctx) == *old(ctx),
        outcome(r) == (match a@[0]@ {
            ValueView::Bool(b) => Ok(ValueView::Bool(!b)),
            _ => Err(type_fault()),
        }),
{
    match &a[0] {
        ExprValue::Bool(b) => Ok(ExprValue::Bool(!*b)),
        _ => Err(type_fault_error()),
    }
}

/// A result that is due only where the context does not refuse the work.
pub open spec fn unless(error: Option<ErrorView>, v: Result<ValueView, ErrorView>) -> Result<
    ValueView,
    ErrorView,
> {
    match error {
        Some(e) => Err(e),
        None => v,
    }
}

/// The work of joining two texts.
pub open spec fn joint_len(l: Seq<char>, r: Seq<char>) -> nat {
    saturated(byte_len(l) + byte_len(r))
}

fn joint_size(l: &str, r: &str) -> (n: usize)
    ensures
        n == joint_len(l@, r@),
{
    str_len(l).saturating_add(str_len(r))
}

/// Joins two strings.
pub fn add_string<C: EvalContext>(ctx: &mut C, a: &[ExprValue]) -> (r: Result<
    ExprValue,
    ExpressionError,
>)
    requires
        a@.len() >= 2,
    ensures
        match (a@[0]@, a@[1]@) {
            (ValueView::Text(x), ValueView::Text(y)) => {
                &&& *final(ctx) == old(ctx).after_string(joint_len(x, y))
                &&& outcome(r) == unless(
                    old(ctx).string_error(joint_len(x, y)),
                    Ok(ValueView::Text(x + y)),
                )
            },
            _ => *final(ctx) == *old(ctx) && outcome(r) == Err::<ValueView, ErrorView>(type_fault()),
        },
{
    match (&a[0], &a[1]) {
        (ExprValue::String(x), ExprValue::String(y)) => {
            match ctx.count_string_ops(joint_size(x.as_str(), y.as_str())) {
                Ok(()) => Ok(ExprValue::String(x.clone().concat(y.as_str()))),
                Err(e) => Err(e),
            }
        },
        _ => Err(type_fault_error()),
    }
}

/// Joins a string and the text of a range.
pub fn add_string_range<C: EvalContext>(ctx: &mut C, a: &[ExprValue]) -> (r: Result<
    ExprValue,
    ExpressionError,
>)
    requires
        a@.len() >= 2,
    ensures
        *final(ctx) == *old(ctx),
        outcome(r) == (match (a@[0]@, a@[1]@) {
            (ValueView::Text(x), ValueView::Range(y)) => Ok(ValueView::Text(x + range_text(y))),
            _ => Err(type_fault()),
        }),
{
    match (&a[0], &a[1]) {
        (ExprValue::String(x), ExprValue::RangeExpr(y)) => {
            let mut out = x.clone();
            y.push_text(&mut out);
            Ok(ExprValue::String(out))
        },
        _ => Err(type_fault_error()),
    }
}

/// Joins the text of a range and a string.
pub fn add_range_string<C: EvalContext>(ctx: &mut C, a: &[ExprValue]) -> (r: Result<
    ExprValue,
    ExpressionError,
>)
    requires
        a@.len() >= 2,
    ensures
        *final(ctx) == *old(ctx),
        outcome(r) == (match (a@[0]@, a@[1]@) {
            (ValueView::Range(x), ValueView::Text(y)) => Ok(ValueView::Text(range_text(x) + y)),
            _ => Err(type_fault()),
        }),
{
    match (&a[0], &a[1]) {
        (ExprValue::RangeExpr(x), ExprValue::String(y)) => {
            let mut out = String::new();
            x.push_text(&mut out);
            proof {
                assert(Seq::<char>::empty() + range_text(x@) =~= range_text(x@));
            }
            Ok(ExprValue::String(out.concat(y.as_str())))
        },
        _ => Err(type_fault_error()),
    }
}

/// Repeats a text.
fn repeat_text(text: &str, times: usize) -> (r: String)
    ensures
        r@ == repeated(text@, times as nat),
{
    let mut out = String::new();
    if text.is_empty() {
        proof {
            lemma_repeated_len(text@, times as nat);
            assert(repeated(text@, times as nat) =~= seq![]);
        }
        return out;
    }
    let mut i: usize = 0;
    while i < times
        invariant
            i <= times,
            out@ == repeated(text@, i as nat),
        decreases times - i,
    {
        out.append(text);
        i = i + 1;
    }
    out
}

/// Repeats a string. A size that memory could not address is refused by the
/// memory check alone.
pub fn mul_string<C: EvalContext>(ctx: &mut C, a: &[ExprValue]) -> (r: Result<
    ExprValue,
    ExpressionError,
>)
    requires
        a@.len() >= 2,
        match (a@[0]@, a@[1]@) {
            (ValueView::Text(s), ValueView::Int(n)) => n >= 0 && byte_len(s) * n > usize::MAX
                ==> old(ctx).memory_error(usize::MAX as nat) is Some,
            _ => true,
        },
    ensures
        match (a@[0]@, a@[1]@) {
            (ValueView::Text(s), ValueView::Int(n)) => if n < 0 {
                *final(ctx) == *old(ctx) && outcome(r) == Ok::<ValueView, ErrorView>(
                    ValueView::Text(seq![]),
                )
            } else if byte_len(s) * n > usize::MAX {
                *final(ctx) == *old(ctx) && outcome(r) == Err::<ValueView, ErrorView>(
                    old(ctx).memory_error(usize::MAX as nat)->0,
                )
            } else {
                let size = (byte_len(s) * n) as nat;
                &&& *final(ctx) == old(ctx).after_string(size)
                &&& outcome(r) == unless(
                    old(ctx).string_error(size),
                    unless(
                        old(ctx).after_string(size).memory_error(size),
                        Ok(ValueView::Text(repeated(s, n as nat))),
                    ),
                )
            },
            _ => *final(ctx) == *old(ctx) && outcome(r) == Err::<ValueView, ErrorView>(type_fault()),
        },
{
    match (&a[0], &a[1]) {
        (ExprValue::String(s), ExprValue::Int(n)) => {
            if *n < 0 {
                return Ok(ExprValue::String(String::new()));
            }
            let len: usize = str_len(s.as_str());
            let exact: u128 = {
                assert(len * (*n as int) <= 0xFFFF_FFFF_FFFF_FFFF * 0x7FFF_FFFF_FFFF_FFFF) by (nonlinear_arith)
                    requires
                        0 <= len <= 0xFFFF_FFFF_FFFF_FFFF,
                        0 <= *n <= 0x7FFF_FFFF_FFFF_FFFF,
                ;
                len as u128 * *n as u128
            };
            if exact > usize::MAX as u128 {
                match ctx.check_memory(usize::MAX) {
                    Err(e) => return Err(e),
                    Ok(()) => return vstd::pervasive::unreached(),
                }
            }
            let size: usize = exact as usize;
            match ctx.count_string_ops(size) {
                Ok(()) => {},
                Err(e) => return Err(e),
            }
            match ctx.check_memory(size) {
                Ok(()) => {},
                Err(e) => return Err(e),
            }
            if len == 0 {
                proof {
                    lemma_empty_text(s@);
                    lemma_repeated_len(s@, *n as nat);
                    assert(0 * *n == 0);
                    assert(repeated(s@, *n as nat) =~= seq![]);
                }
                return Ok(ExprValue::String(String::new()));
            }
            assert(*n <= usize::MAX) by (nonlinear_arith)
                requires
                    len >= 1,
                    len * (*n as int) <= usize::MAX,
                    *n >= 0,
            ;
            Ok(ExprValue::String(repeat_text(s.as_str(), *n as usize)))
        },
        _ => Err(type_fault_error()),
    }
}

/// A text without bytes is empty.
proof fn lemma_empty_text(s: Seq<char>)
    requires
        byte_len(s) == 0,
    ensures
        s.len() == 0,
{
    if s.len() > 0 {
        vstd::utf8::encode_utf8_first_scalar(s);
    }
}

/// The text of a path operand and the format in which it is joined.
pub open spec fn path_operand(v: ValueView, host: PathFormat) -> Option<(Seq<char>, PathFormat)> {
    match v {
        ValueView::Path { value, format } => Some((value, format)),
        ValueView::Text(text) => Some((text, host)),
        _ => None,
    }
}

/// Joins two paths; the first operand states the format.
pub fn path_div<C: EvalContext>(ctx: &mut C, a: &[ExprValue]) -> (r: Result<ExprValue, ExpressionError>)
    requires
        a@.len() >= 2,
    ensures
        match (path_operand(a@[0]@, old(ctx).format()), path_operand(a@[1]@, old(ctx).format())) {
            (Some((x, format)), Some((y, _))) => {
                &&& *final(ctx) == old(ctx).after_string(joint_len(x, y))
                &&& outcome(r) == unless(
                    old(ctx).string_error(joint_len(x, y)),
                    Ok(ValueView::Path { value: joined(x, y, format), format }),
                )
            },
            _ => *final(ctx) == *old(ctx) && outcome(r) == Err::<ValueView, ErrorView>(type_fault()),
        },
{
    let (l, format) = match &a[0] {
        ExprValue::Path { value, format } => (value.as_str(), *format),
        ExprValue::String(text) => (text.as_str(), ctx.path_format()),
        _ => return Err(type_fault_error()),
    };
    let r = match &a[1] {
        ExprValue::Path { value, .. } => value.as_str(),
        ExprValue::String(text) => text.as_str(),
        _ => return Err(type_fault_error()),
    };
    match ctx.count_string_ops(joint_size(l, r)) {
        Ok(()) => Ok(ExprValue::new_path(join(l, r, format), format)),
        Err(e) => Err(e),
    }
}

/// Appends a text to a path.
pub fn add_path_string<C: EvalContext>(ctx: &mut C, a: &[ExprValue]) -> (r: Result<
    ExprValue,
    ExpressionError,
>)
    requires
        a@.len() >= 2,
    ensures
        match (a@[0]@, a@[1]@) {
            (ValueView::Path { value, format }, ValueView::Text(y)) => {
                &&& *final(ctx) == old(ctx).after_string(joint_len(value, y))
                &&& outcome(r) == unless(
                    old(ctx).string_error(joint_len(value, y)),
                    Ok(ValueView::Path { value: value + y, format }),
                )
            },
            _ => *final(ctx) == *old(ctx) && outcome(r) == Err::<ValueView, ErrorView>(type_fault()),
        },
{
    match (&a[0], &a[1]) {
        (ExprValue::Path { value, format }, ExprValue::String(y)) => {
            match ctx.count_string_ops(joint_size(value.as_str(), y.as_str())) {
                Ok(()) => Ok(ExprValue::new_path(value.clone().concat(y.as_str()), *format)),
                Err(e) => Err(e),
            }
        },
        _ => Err(type_fault_error()),
    }
}

/// The integers of a range as values.
pub open spec fn int_views(values: Seq<int>) -> Seq<ValueView> {
    Seq::new(values.len(), |i: int| ValueView::Int(values[i]))
}

/// The list that a context admits after it was charged.
pub open spec fn list_result<C: EvalContext>(
    ctx: C,
    elements: Seq<ValueView>,
    elem_type: ExprType,
) -> Result<ValueView, ErrorView> {
    checked_list(
        ctx.memory_error(saturated(slot_bytes() + list_bytes(elements))),
        elements,
        elem_type,
    )
}

/// Appends the integers of a range.
fn push_range(out: &mut Vec<ExprValue>, range: &RangeExpr)
    ensures
        models(final(out)@) == models(old(out)@) + int_views(range_values(range@)),
{
    let ranges = range.ranges();
    let ghost start = models(out@);
    let mut i: usize = 0;
    proof {
        assert(range@.take(0) =~= seq![]);
        assert(int_views(range_values(range@.take(0))) =~= seq![]);
        assert(start + seq![] =~= start);
    }
    while i < ranges.len()
        invariant
            i <= ranges@.len(),
            ranges@ == range@,
            all_valid(ranges@),
            models(out@) == start + int_views(range_values(range@.take(i as int))),
        decreases ranges@.len() - i,
    {
        let one_range = ranges[i];
        let ghost before = models(out@);
        proof {
            assert(ranges@[i as int].valid());
            assert(range@.take(i + 1).drop_last() =~= range@.take(i as int));
            lemma_range_end(one_range);
        }
        let mut next: i64 = one_range.start;
        let ghost mut k: int = 0;
        proof {
            assert(int_views(one_range.values().take(0)) =~= seq![]);
            assert(before + seq![] =~= before);
            assert(0 * one_range.step == 0);
        }
        loop
            invariant_except_break
                one_range.valid(),
                0 <= k < one_range.count(),
                next == one_range.start + k * one_range.step,
                models(out@) == before + int_views(one_range.values().take(k)),
            ensures
                models(out@) == before + int_views(one_range.values()),
            decreases one_range.count() - k,
        {
            let value = ExprValue::Int(next);
            proof {
                lemma_models_push(out@, value);
                assert(one_range.values()[k] == next);
                assert(int_views(one_range.values().take(k + 1)) =~= int_views(
                    one_range.values().take(k),
                ).push(value@));
                lemma_range_end(one_range);
            }
            out.push(value);
            if next == one_range.end {
                proof {
                    lemma_range_position(one_range, k);
                    assert(one_range.values().take(k + 1) =~= one_range.values());
                }
                break;
            }
            proof {
                lemma_range_position(one_range, k);
                assert((k + 1) * one_range.step == k * one_range.step + one_range.step) by (nonlinear_arith);
            }
            next = next + one_range.step;
            proof {
                k = k + 1;
            }
        }
        proof {
            let done = range_values(range@.take(i as int));
            assert(int_views(done + one_range.values()) =~= int_views(done) + int_views(
                one_range.values(),
            ));
            assert(start + int_views(done) + int_views(one_range.values()) =~= start + (int_views(done)
                + int_views(one_range.values())));
        }
        i = i + 1;
    }
    proof {
        assert(range@.take(i as int) =~= range@);
    }
}

/// A range has at least one integer.
pub(crate) proof fn lemma_range_end(range: IntRange)
    requires
        range.valid(),
    ensures
        range.count() >= 1,
        (range.count() - 1) * range.step == range.end - range.start,
{
    let span = range.end - range.start;
    let step = range.step as int;
    vstd::arithmetic::div_mod::lemma_fundamental_div_mod(span, step);
    vstd::arithmetic::div_mod::lemma_div_pos_is_pos(span, step);
    assert((span / step) * step == step * (span / step)) by (nonlinear_arith);
}

/// The end of a range is its last integer and no other.
pub(crate) proof fn lemma_range_position(range: IntRange, k: int)
    requires
        range.valid(),
        0 <= k < range.count(),
    ensures
        (range.start + k * range.step == range.end) == (k == range.count() - 1),
        k < range.count() - 1 ==> range.start + k * range.step + range.step <= range.end,
{
    lemma_range_end(range);
    let last = range.count() - 1;
    let step = range.step as int;
    assert(k < last ==> k * step + step <= last * step) by (nonlinear_arith)
        requires
            step > 0,
    ;
}

/// The number of integers of two ranges, as it is charged.
pub open spec fn joint_count(l: Seq<IntRange>, r: Seq<IntRange>) -> nat {
    saturated(range_values(l).len()) + saturated(range_values(r).len())
}

/// The list of the integers of two ranges.
pub fn add_range_range<C: EvalContext>(ctx: &mut C, a: &[ExprValue]) -> (r: Result<
    ExprValue,
    ExpressionError,
>)
    requires
        a@.len() >= 2,
        match (a@[0]@, a@[1]@) {
            (ValueView::Range(x), ValueView::Range(y)) => joint_count(x, y) <= usize::MAX,
            _ => true,
        },
    ensures
        match (a@[0]@, a@[1]@) {
            (ValueView::Range(x), ValueView::Range(y)) => {
                let charged = old(ctx).after_ops(joint_count(x, y));
                &&& *final(ctx) == charged
                &&& outcome(r) == unless(
                    old(ctx).ops_error(joint_count(x, y)),
                    list_result(
                        charged,
                        int_views(range_values(x)) + int_views(range_values(y)),
                        ExprType::Int,
                    ),
                )
            },
            _ => *final(ctx) == *old(ctx) && outcome(r) == Err::<ValueView, ErrorView>(type_fault()),
        },
{
    match (&a[0], &a[1]) {
        (ExprValue::RangeExpr(x), ExprValue::RangeExpr(y)) => {
            match ctx.count_ops(x.len() + y.len()) {
                Ok(()) => {},
                Err(e) => return Err(e),
            }
            let mut elements: Vec<ExprValue> = Vec::new();
            push_range(&mut elements, x);
            push_range(&mut elements, y);
            proof {
                let (l, r) = (int_views(range_values(x@)), int_views(range_values(y@)));
                assert(models(Seq::<ExprValue>::empty()) =~= seq![]);
                assert(seq![] + l + r =~= l + r);
            }
            ExprValue::make_list_checked(ctx, elements, ExprType::Int)
        },
        _ => Err(type_fault_error()),
    }
}

/// Appends copies of values.
fn push_copies(out: &mut Vec<ExprValue>, values: &Vec<ExprValue>)
    ensures
        models(final(out)@) == models(old(out)@) + models(values@),
{
    let ghost start = models(out@);
    let mut i: usize = 0;
    proof {
        assert(start + models(values@).take(0) =~= start);
    }
    while i < values.len()
        invariant
            i <= values@.len(),
            models(out@) == start + models(values@).take(i as int),
        decreases values@.len() - i,
    {
        let value = values[i].clone();
        proof {
            lemma_models_push(out@, value);
            lemma_models_index(values@, i as int);
            assert(models(values@).take(i + 1) =~= models(values@).take(i as int).push(value@));
        }
        out.push(value);
        i = i + 1;
    }
    proof {
        assert(models(values@).take(i as int) =~= models(values@));
    }
}

/// Counts operations one by one until one is refused.
pub(crate) fn count_each<C: EvalContext>(ctx: &mut C, total: u128) -> (r: Result<(), ExpressionError>)
    ensures
        each_op(*old(ctx), total as nat) == (*final(ctx), error_of(r)),
{
    let mut i: u128 = 0;
    while i < total
        invariant
            i <= total,
            each_op(*old(ctx), i as nat) == (*ctx, None::<ErrorView>),
        decreases total - i,
    {
        match ctx.count_op() {
            Ok(()) => {},
            Err(e) => {
                proof {
                    lemma_refused_stays(*old(ctx), (i + 1) as nat, total as nat);
                }
                return Err(e);
            },
        }
        i = i + 1;
    }
    Ok(())
}

/// Repeats a list.
pub fn mul_list<C: EvalContext>(ctx: &mut C, a: &[ExprValue]) -> (r: Result<ExprValue, ExpressionError>)
    requires
        a@.len() >= 2,
        match (a@[0]@, a@[1]@) {
            (ValueView::List { elements, elem_type }, ValueView::Int(n)) => n > 0 ==> elements.len()
                * n <= usize::MAX,
            _ => true,
        },
    ensures
        match (a@[0]@, a@[1]@) {
            (ValueView::List { elements, elem_type }, ValueView::Int(n)) => if n <= 0 {
                *final(ctx) == *old(ctx) && outcome(r) == list_result(*old(ctx), seq![], elem_type)
            } else {
                let counted = each_op(*old(ctx), (elements.len() * n) as nat);
                &&& *final(ctx) == counted.0
                &&& outcome(r) == unless(
                    counted.1,
                    list_result(counted.0, repeated(elements, n as nat), elem_type),
                )
            },
            _ => *final(ctx) == *old(ctx) && outcome(r) == Err::<ValueView, ErrorView>(type_fault()),
        },
{
    let (elements, elem_type) = match a[0].clone().into_list() {
        Some(list) => list,
        None => return Err(type_fault_error()),
    };
    let n: i64 = match &a[1] {
        ExprValue::Int(n) => *n,
        _ => return Err(type_fault_error()),
    };
    let ghost views = models(elements@);
    if n <= 0 {
        proof {
            assert(models(Seq::<ExprValue>::empty()) =~= seq![]);
        }
        return ExprValue::make_list_checked(ctx, Vec::new(), elem_type);
    }
    let total: usize = {
        let len: usize = elements.len();
        if len == 0 {
            assert(0 * n == 0);
            0
        } else {
            assert(n <= usize::MAX && len * n <= usize::MAX) by (nonlinear_arith)
                requires
                    len >= 1,
                    len * n <= usize::MAX,
                    n > 0,
            ;
            len * n as usize
        }
    };
    match count_each(ctx, total as u128) {
        Ok(()) => {},
        Err(e) => return Err(e),
    }
    let mut result: Vec<ExprValue> = Vec::new();
    proof {
        assert(models(Seq::<ExprValue>::empty()) =~= seq![]);
    }
    if total > 0 {
        let mut k: i64 = 0;
        while k < n
            invariant
                0 <= k <= n,
                models(elements@) == views,
                models(result@) == repeated(views, k as nat),
            decreases n - k,
        {
            push_copies(&mut result, &elements);
            k = k + 1;
        }
    } else {
        proof {
            lemma_repeated_len(views, n as nat);
            assert(views.len() == 0) by (nonlinear_arith)
                requires
                    views.len() * n == 0,
                    n > 0,
            ;
            assert(0 * n as nat == 0);
            assert(repeated(views, n as nat) =~= seq![]);
        }
    }
    ExprValue::make_list_checked(ctx, result, elem_type)
}

/// Once an operation is refused, no more are counted.
pub(crate) proof fn lemma_refused_stays<C: EvalContext>(ctx: C, i: nat, n: nat)
    requires
        i <= n,
        each_op(ctx, i).1 is Some,
    ensures
        each_op(ctx, n) == each_op(ctx, i),
    decreases n - i,
{
    if i < n {
        lemma_refused_stays(ctx, i, (n - 1) as nat);
    }
}

/// Whether lists of these element types can be joined.
pub open spec fn joinable(l: ExprType, r: ExprType) -> bool {
    ||| l == r
    ||| l is NullType
    ||| r is NullType
    ||| (l is Int && r is Float)
    ||| (l is Float && r is Int)
    ||| (l is Path && r is String)
    ||| (l is String && r is Path)
}

/// The error of lists that cannot be joined.
pub open spec fn unjoinable(l: ExprType, r: ExprType) -> ErrorView {
    ErrorView::TypeError(
        "Cannot concatenate list["@ + type_text(l) + "] and list["@ + type_text(r) + "]"@,
    )
}

fn can_join(l: &ExprType, r: &ExprType) -> (b: bool)
    ensures
        b == joinable(*l, *r),
{
    l.same(r) || match (l, r) {
        (ExprType::NullType, _) => true,
        (_, ExprType::NullType) => true,
        (ExprType::Int, ExprType::Float) => true,
        (ExprType::Float, ExprType::Int) => true,
        (ExprType::Path, ExprType::String) => true,
        (ExprType::String, ExprType::Path) => true,
        _ => false,
    }
}

/// Joins two lists. The list takes the element type of the first one, or of
/// the second where the first has none.
pub fn add_list_list<C: EvalContext>(ctx: &mut C, a: &[ExprValue]) -> (r: Result<
    ExprValue,
    ExpressionError,
>)
    requires
        a@.len() >= 2,
    ensures
        match (a@[0]@, a@[1]@) {
            (
                ValueView::List { elements: l, elem_type: lt },
                ValueView::List { elements: r_elements, elem_type: rt },
            ) => {
                let charged = old(ctx).after_ops(saturated(l.len() + r_elements.len()));
                &&& *final(ctx) == charged
                &&& outcome(r) == unless(
                    old(ctx).ops_error(saturated(l.len() + r_elements.len())),
                    if joinable(lt, rt) {
                        list_result(charged, l + r_elements, if lt is NullType {
                            rt
                        } else {
                            lt
                        })
                    } else {
                        Err(unjoinable(lt, rt))
                    },
                )
            },
            _ => *final(ctx) == *old(ctx) && outcome(r) == Err::<ValueView, ErrorView>(type_fault()),
        },
{
    let (mut l, lt) = match a[0].clone().into_list() {
        Some(list) => list,
        None => return Err(type_fault_error()),
    };
    let (r, rt) = match a[1].clone().into_list() {
        Some(list) => list,
        None => return Err(type_fault_error()),
    };
    match ctx.count_ops(l.len().saturating_add(r.len())) {
        Ok(()) => {},
        Err(e) => return Err(e),
    }
    if !can_join(&lt, &rt) {
        let message = "Cannot concatenate list[".to_owned().concat(lt.name().as_str()).concat(
            "] and list[",
        ).concat(rt.name().as_str()).concat("]");
        return Err(ExpressionError::type_error(message.as_str()));
    }
    push_copies(&mut l, &r);
    let untyped = match &lt {
        ExprType::NullType => true,
        _ => false,
    };
    ExprValue::make_list_checked(
        ctx,
        l,
        if untyped {
            rt
        } else {
            lt
        },
    )
}

/// Joins a list and the integers of a range.
pub fn add_list_range<C: EvalContext>(ctx: &mut C, a: &[ExprValue]) -> (r: Result<
    ExprValue,
    ExpressionError,
>)
    requires
        a@.len() >= 2,
        match (a@[0]@, a@[1]@) {
            (ValueView::List { elements, elem_type }, ValueView::Range(y)) => elements.len() + saturated(
                range_values(y).len(),
            ) <= usize::MAX,
            _ => true,
        },
    ensures
        match (a@[0]@, a@[1]@) {
            (ValueView::List { elements, elem_type }, ValueView::Range(y)) => {
                let count = elements.len() + saturated(range_values(y).len());
                let charged = old(ctx).after_ops(count);
                &&& *final(ctx) == charged
                &&& outcome(r) == unless(
                    old(ctx).ops_error(count),
                    list_result(charged, elements + int_views(range_values(y)), elem_type),
                )
            },
            _ => *final(ctx) == *old(ctx) && outcome(r) == Err::<ValueView, ErrorView>(type_fault()),
        },
{
    let (mut l, elem_type) = match a[0].clone().into_list() {
        Some(list) => list,
        None => return Err(type_fault_error()),
    };
    let range = match &a[1] {
        ExprValue::RangeExpr(r) => r,
        _ => return Err(type_fault_error()),
    };
    match ctx.count_ops(l.len() + range.len()) {
        Ok(()) => {},
        Err(e) => return Err(e),
    }
    push_range(&mut l, range);
    ExprValue::make_list_checked(ctx, l, elem_type)
}

/// Joins the integers of a range and a list.
pub fn add_range_list<C: EvalContext>(ctx: &mut C, a: &[ExprValue]) -> (r: Result<
    ExprValue,
    ExpressionError,
>)
    requires
        a@.len() >= 2,
        match (a@[0]@, a@[1]@) {
            (ValueView::Range(x), ValueView::List { elements, elem_type }) => saturated(
                range_values(x).len(),
            ) + elements.len() <= usize::MAX,
            _ => true,
        },
    ensures
        match (a@[0]@, a@[1]@) {
            (ValueView::Range(x), ValueView::List { elements, elem_type }) => {
                let count = saturated(range_values(x).len()) + elements.len();
                let charged = old(ctx).after_ops(count);
                &&& *final(ctx) == charged
                &&& outcome(r) == unless(
                    old(ctx).ops_error(count),
                    list_result(charged, int_views(range_values(x)) + elements, elem_type),
                )
            },
            _ => *final(ctx) == *old(ctx) && outcome(r) == Err::<ValueView, ErrorView>(type_fault()),
        },
{
    let range = match &a[0] {
        ExprValue::RangeExpr(r) => r,
        _ => return Err(type_fault_error()),
    };
    let (l, elem_type) = match a[1].clone().into_list() {
        Some(list) => list,
        None => return Err(type_fault_error()),
    };
    match ctx.count_ops(range.len() + l.len()) {
        Ok(()) => {},
        Err(e) => return Err(e),
    }
    let mut combined: Vec<ExprValue> = Vec::new();
    push_range(&mut combined, range);
    proof {
        assert(models(Seq::<ExprValue>::empty()) =~= seq![]);
        assert(seq![] + int_views(range_values(range@)) =~= int_views(range_values(range@)));
    }
    push_copies(&mut combined, &l);
    ExprValue::make_list_checked(ctx, combined, elem_type)
}

} // verus!
