//! Floored division.

use vstd::arithmetic::power2::{
    lemma2_to64, lemma2_to64_rest, lemma_pow2_adds, lemma_pow2_pos, lemma_pow2_unfold, pow2,
};
use vstd::math::abs;
use vstd::prelude::*;

use crate::binary64::{
    decoded, difference, floor_of, lemma_exact, quotient, remainder, round53, sum, whole, FloatValue,
    MIN_NORMAL, SIGNIFICAND_BOUND,
};
use crate::error::ErrorView;
use crate::functions::arithmetic::{
    float_floor_div, float_floor_mod, float_one, more_than_half_above, unrounded_quotient,
};
use crate::laws::floats::{
    differences_are_nearest, is_nearest, lemma_encoded_bound, lemma_overflow, lemma_relative,
    lemma_round_zero, remainders_are_exact, sums_are_nearest,
};
use crate::value::ValueView;

verus! {

/// Whether `rest` is what the dividend is above a multiple of the divisor
/// towards negative infinity: between zero and the divisor.
pub open spec fn is_floored_rest(rest: int, dividend: int, divisor: int, k: int) -> bool {
    &&& rest == dividend - k * divisor
    &&& divisor > 0 ==> 0 <= rest < divisor
    &&& divisor < 0 ==> divisor < rest <= 0
}

/// The remainder of floored division is zero or has the sign of the divisor,
/// and is not larger than it. It is the number nearest to what the dividend is
/// above a whole multiple of the divisor; where dividend and divisor have the
/// same sign it is exactly that, and smaller than the divisor.
pub proof fn floored_remainders_are_nearest(l: FloatValue, divisor: u64, bits: u64)
    requires
        decoded(divisor) is Some,
        decoded(divisor)->0.magnitude > 0,
        decoded(bits) is Some,
    ensures
        ({
            let r = decoded(divisor)->0;
            &&& float_floor_mod(l, r) is Some
            &&& float_floor_mod(l, r)->0.magnitude <= r.magnitude
            &&& float_floor_mod(l, r)->0.magnitude == 0 || float_floor_mod(l, r)->0.negative == r.negative
            &&& exists|rest: int, k: int| #[trigger]
                is_floored_rest(rest, l.units(), r.units(), k) && is_nearest(
                    float_floor_mod(l, r)->0,
                    rest,
                    decoded(bits)->0,
                ) && (l.negative == r.negative ==> float_floor_mod(l, r)->0.units() == rest)
        }),
{
    let r = decoded(divisor)->0;
    let cut = remainder(l, r);
    remainders_are_exact(l, r);
    let k = choose|k: int| l.units() - cut.units() == #[trigger] (k * r.units());
    if cut.magnitude != 0 && cut.negative != r.negative {
        let rest = cut.units() + r.units();
        assert((k - 1) * r.units() == k * r.units() - r.units()) by (nonlinear_arith);
        lemma_encoded_bound(divisor);
        lemma2_to64();
        lemma_pow2_unfold(2045);
        sums_are_nearest(cut, r, bits);
        sums_are_nearest(cut, r, divisor);
        sums_are_nearest(cut, r, 0);
        assert(decoded(0) == Some(FloatValue { negative: false, magnitude: 0 }));
        assert(is_floored_rest(rest, l.units(), r.units(), k - 1));
    } else {
        assert(is_floored_rest(cut.units(), l.units(), r.units(), k));
    }
}

/// The quotients of less than 2^49 in magnitude, which floating point tells
/// apart.
pub const DISTINCT_QUOTIENTS: u64 = 0x2_0000_0000_0000;

/// A quotient of floating-point numbers that is near an integer.
proof fn lemma_quotient_near(k: nat, r: FloatValue, negative: bool)
    requires
        k <= 0x2_0000_0000_0001,
        r.magnitude > 0,
    ensures
        ({
            let part = FloatValue { negative, magnitude: round53(k * r.magnitude, 1) };
            &&& quotient(part, r) is Some
            &&& quotient(part, r)->0.negative == (negative != r.negative)
            &&& 4 * abs(quotient(part, r)->0.magnitude - k * pow2(1074)) < pow2(1074)
        }),
{
    let unit = pow2(1074);
    let m = r.magnitude;
    let a = k * m;
    let w = round53(a, 1);
    let part = FloatValue { negative, magnitude: w };
    lemma2_to64();
    lemma2_to64_rest();
    lemma_pow2_pos(1074);
    lemma_pow2_adds(64, 1010);
    lemma_pow2_pos(1010);
    assert(unit >= 0x1_0000_0000_0000_0000) by (nonlinear_arith)
        requires
            unit == pow2(64) * pow2(1010),
            pow2(64) == 0x1_0000_0000_0000_0000,
            pow2(1010) >= 1,
    ;
    lemma_relative(a, 1);
    assert(w * 1 == w && a % 1 == 0);
    let e1 = abs(w - a);
    assert(SIGNIFICAND_BOUND * e1 <= a);
    let n = w * unit;
    lemma_relative(n, m);
    lemma_overflow(n, m);
    assert(w <= 2 * a);
    let am = a * unit;
    let d = round53(n, m);
    let e2 = abs(d * m - n);
    assert(SIGNIFICAND_BOUND * e2 <= n + MIN_NORMAL * m);
    assert(n <= 2 * am) by (nonlinear_arith)
        requires
            n == w * unit,
            am == a * unit,
            w <= 2 * a,
    ;
    let e1u = e1 * unit;
    assert(SIGNIFICAND_BOUND * e1u <= am) by (nonlinear_arith)
        requires
            SIGNIFICAND_BOUND * e1 <= a,
            e1u == e1 * unit,
            am == a * unit,
    ;
    assert(abs(n - am) == e1u) by (nonlinear_arith)
        requires
            n == w * unit,
            am == a * unit,
            e1 == abs(w - a),
            e1u == e1 * unit,
    ;
    assert(SIGNIFICAND_BOUND * abs(d * m - am) <= 3 * am + MIN_NORMAL * m);
    let top = m * unit;
    assert(am == k * top) by (nonlinear_arith)
        requires
            am == a * unit,
            a == k * m,
            top == m * unit,
    ;
    assert(am <= 0x2_0000_0000_0001 * top) by (nonlinear_arith)
        requires
            am == k * top,
            k <= 0x2_0000_0000_0001,
    ;
    assert(MIN_NORMAL * m <= top) by (nonlinear_arith)
        requires
            top == m * unit,
            unit >= 0x1_0000_0000_0000_0000,
            MIN_NORMAL == 0x10_0000_0000_0000,
    ;
    assert(top > 0) by (nonlinear_arith)
        requires
            top == m * unit,
            m > 0,
            unit > 0,
    ;
    assert(4 * abs(d * m - am) < top);
    let off = d - k * unit;
    assert(d * m - am == off * m) by (nonlinear_arith)
        requires
            off == d - k * unit,
            am == k * top,
            top == m * unit,
    ;
    assert(4 * abs(off) < unit) by (nonlinear_arith)
        requires
            4 * abs(off * m) < m * unit,
            m > 0,
    ;
    lemma_pow2_adds(1074, 970);
    lemma_pow2_adds(2044, 54);
    lemma_pow2_pos(2044);
    lemma_pow2_adds(64, 906);
    lemma_pow2_pos(906);
    let big = m * pow2(2044);
    assert(n < big) by (nonlinear_arith)
        requires
            n <= 2 * am,
            am <= 0x2_0000_0000_0001 * top,
            top == m * unit,
            top > 0,
            big == m * pow2(2044),
            pow2(2044) == unit * pow2(970),
            pow2(970) == 0x1_0000_0000_0000_0000 * pow2(906),
            pow2(906) >= 1,
    ;
    assert(m * pow2(2098) >= 2 * big) by (nonlinear_arith)
        requires
            big == m * pow2(2044),
            pow2(2098) == pow2(2044) * pow2(54),
            pow2(54) == 0x40_0000_0000_0000,
    ;
}

/// A number within three eighths of an integer is rounded to it by its floor,
/// or the next integer where it lies more than one half above the floor.
proof fn lemma_settles(div: FloatValue, q: int)
    requires
        8 * abs(div.units() - q * pow2(1074)) <= 3 * pow2(1074),
        -DISTINCT_QUOTIENTS <= q <= DISTINCT_QUOTIENTS,
    ensures
        ({
            let floor = whole(div.negative, floor_of(div));
            let settled = if more_than_half_above(div, floor) {
                sum(floor, float_one())
            } else {
                Some(floor)
            };
            settled matches Some(v) && floor_of(v) == q
        }),
{
    let unit = pow2(1074) as int;
    lemma_pow2_pos(1074);
    lemma2_to64();
    lemma2_to64_rest();
    let u = div.units();
    let at = q * unit;
    assert((q - 1) * unit == at - unit) by (nonlinear_arith)
        requires
            at == q * unit,
    ;
    let i = if u >= at {
        q
    } else {
        q - 1
    };
    vstd::arithmetic::div_mod::lemma_fundamental_div_mod_converse(u, unit, i, u - i * unit);
    assert(floor_of(div) == i);
    let floor = whole(div.negative, i);
    assert(i >= 1 ==> i * unit > 0) by (nonlinear_arith)
        requires
            unit > 0,
    ;
    assert(i <= -1 ==> (i + 1) * unit <= 0) by (nonlinear_arith)
        requires
            unit > 0,
    ;
    assert((i + 1) * unit == i * unit + unit) by (nonlinear_arith);
    assert(i == 0 ==> i * unit == 0) by (nonlinear_arith);
    assert((-i) * unit == -(i * unit)) by (nonlinear_arith);
    assert(floor.units() == i * unit);
    // One half, and nine sixteenths.
    let half: u64 = 0x3FE0_0000_0000_0000;
    let above: u64 = 0x3FE2_0000_0000_0000;
    lemma_pow2_adds(52, 1021);
    lemma_pow2_unfold(1074);
    lemma_pow2_adds(49, 1021);
    lemma_pow2_adds(1070, 4);
    assert(decoded(half) == Some(FloatValue { negative: false, magnitude: pow2(1073) }));
    assert(decoded(above) is Some && 16 * decoded(above)->0.magnitude == 9 * unit) by {
        assert(decoded(above)->0.magnitude == 0x12_0000_0000_0000 * pow2(1021));
        assert(0x12_0000_0000_0000 * pow2(1021) == 9 * (0x2_0000_0000_0000 * pow2(1021)))
            by (nonlinear_arith);
    }
    assert(!decoded(above)->0.negative);
    differences_are_nearest(div, floor, half);
    differences_are_nearest(div, floor, above);
    lemma_pow2_adds(1074, 970);
    lemma_pow2_pos(970);
    lemma_pow2_adds(2044, 54);
    assert(pow2(2044) >= unit) by (nonlinear_arith)
        requires
            pow2(2044) == unit * pow2(970),
            pow2(970) >= 1,
            unit > 0,
    ;
    assert(pow2(2098) >= 4 * pow2(2044)) by (nonlinear_arith)
        requires
            pow2(2098) == pow2(2044) * pow2(54),
            pow2(54) == 0x40_0000_0000_0000,
    ;
    let x = u - i * unit;
    assert(difference(div, floor) is Some);
    if i == q {
        assert(!more_than_half_above(div, floor));
        vstd::arithmetic::div_mod::lemma_div_multiples_vanish(q, unit);
        assert(unit * q == q * unit) by (nonlinear_arith);
    } else {
        assert(more_than_half_above(div, floor));
        let next = sum(floor, float_one());
        let m = abs(q);
        assert(floor.units() + float_one().units() == at);
        lemma_exact(m, 1074);
        assert(abs(at) == m * pow2(1074)) by (nonlinear_arith)
            requires
                at == q * unit,
                m == abs(q),
                unit == pow2(1074),
                unit > 0,
        ;
        sums_are_nearest(floor, float_one(), half);
        lemma_pow2_adds(64, 906);
        lemma_pow2_pos(906);
        assert(m * pow2(1074) < pow2(2044)) by (nonlinear_arith)
            requires
                m <= 0x2_0000_0000_0000,
                pow2(2044) == pow2(1074) * pow2(970),
                pow2(970) == 0x1_0000_0000_0000_0000 * pow2(906),
                pow2(906) >= 1,
                unit == pow2(1074),
                unit > 0,
        ;
        assert(next is Some);
        assert(next->0.units() == at);
        vstd::arithmetic::div_mod::lemma_div_multiples_vanish(q, unit);
        assert(unit * q == q * unit) by (nonlinear_arith);
    }
}

/// The floored quotient of two numbers is the exact one: the number of whole
/// divisors that the dividend is above what is left of it. The quotients up to
/// 2^49 in magnitude are told apart.
pub proof fn floored_quotients_are_exact(dividend: u64, divisor: u64, rest: int, q: int)
    requires
        decoded(dividend) is Some,
        decoded(divisor) is Some,
        decoded(divisor)->0.magnitude > 0,
        is_floored_rest(rest, decoded(dividend)->0.units(), decoded(divisor)->0.units(), q),
        -DISTINCT_QUOTIENTS <= q <= DISTINCT_QUOTIENTS,
    ensures
        float_floor_div(decoded(dividend)->0, decoded(divisor)->0) == Ok::<ValueView, ErrorView>(
            ValueView::Int(q),
        ),
{
    let l = decoded(dividend)->0;
    let r = decoded(divisor)->0;
    let cut = remainder(l, r);
    let unit = pow2(1074);
    let m = r.magnitude;
    let k = l.magnitude / m;
    lemma_pow2_pos(1074);
    vstd::arithmetic::div_mod::lemma_fundamental_div_mod(l.magnitude as int, m as int);
    assert(m * k == k * m) by (nonlinear_arith);
    assert((-k) * m == -(k * m) && k * (-m) == -(k * m) && (-k) * (-m) == k * m) by (nonlinear_arith);
    assert((-k - 1) * m == -(k * m) - m && (-k - 1) * (-m) == k * m + m) by (nonlinear_arith);
    let same = l.negative == r.negative;
    let towards = if same {
        k as int
    } else {
        -(k as int)
    };
    // The exact floor is the quotient towards zero, or one below it.
    let lower = cut.magnitude != 0 && !same;
    let floor = if lower {
        towards - 1
    } else {
        towards
    };
    lemma_floor_is_unique(rest, l.units() - floor * r.units(), l.units(), r.units(), q, floor);
    assert(q == floor);
    let part = difference(l, cut);
    lemma_encoded_bound(dividend);
    lemma_pow2_unfold(2045);
    lemma_pow2_pos(2044);
    differences_are_nearest(l, cut, 0);
    assert(l.units() - cut.units() == (if l.negative { -(k * m) } else { (k * m) as int }));
    assert(part is Some);
    lemma_round_zero(1);
    assert(part->0.magnitude == round53(k * m, 1));
    if k > 0 {
        assert(k * m > 0) by (nonlinear_arith)
            requires
                k > 0,
                m > 0,
        ;
    } else {
        assert(0 * m == 0);
    }
    lemma_quotient_near(k, r, part->0.negative);
    let div = quotient(part->0, r)->0;
    assert(towards * unit == (if same { (k * unit) as int } else { -(k * unit) })) by (nonlinear_arith)
        requires
            towards == (if same { k as int } else { -(k as int) }),
    ;
    if k == 0 {
        assert(0 * unit == 0);
        assert(part->0.magnitude == 0);
        assert(0 * unit == 0);
        lemma_round_zero(m);
        assert(div.magnitude == 0);
    }
    assert(4 * abs(div.units() - towards * unit) < unit);
    if lower {
        lemma_one_less(div, towards);
        lemma_settles(unrounded_quotient(l, r)->0, q);
    } else {
        lemma_settles(div, q);
    }
}

/// Floored division has one quotient.
proof fn lemma_floor_is_unique(a: int, b: int, dividend: int, divisor: int, p: int, q: int)
    requires
        divisor != 0,
        is_floored_rest(a, dividend, divisor, p),
        is_floored_rest(b, dividend, divisor, q),
    ensures
        p == q,
{
    assert((p - q) * divisor == b - a) by (nonlinear_arith)
        requires
            a == dividend - p * divisor,
            b == dividend - q * divisor,
    ;
    assert(p == q) by (nonlinear_arith)
        requires
            (p - q) * divisor == b - a,
            divisor > 0 ==> -divisor < b - a < divisor,
            divisor < 0 ==> divisor < b - a < -divisor,
            divisor != 0,
    ;
}

/// One less than a number near an integer is near the integer before it.
proof fn lemma_one_less(div: FloatValue, k: int)
    requires
        4 * abs(div.units() - k * pow2(1074)) < pow2(1074),
        -0x2_0000_0000_0001 <= k <= 0x2_0000_0000_0001,
    ensures
        difference(div, float_one()) matches Some(d) && 8 * abs(d.units() - (k - 1) * pow2(1074)) <= 3
            * pow2(1074),
{
    let unit = pow2(1074);
    lemma_pow2_pos(1074);
    lemma2_to64();
    lemma2_to64_rest();
    let e = div.units() - unit;
    assert((k - 1) * unit == k * unit - unit) by (nonlinear_arith);
    assert(-0x2_0000_0000_0001 * unit <= k * unit <= 0x2_0000_0000_0001 * unit) by (nonlinear_arith)
        requires
            -0x2_0000_0000_0001 <= k <= 0x2_0000_0000_0001,
            unit > 0,
    ;
    lemma_relative(abs(e), 1);
    let f = round53(abs(e), 1);
    assert(f * 1 == f && abs(e) % 1 == 0);
    assert(SIGNIFICAND_BOUND * abs(f - abs(e)) <= abs(e));
    assert(16 * abs(f - abs(e)) <= 2 * unit);
    differences_are_nearest(div, float_one(), 0);
    lemma_round_zero(1);
    lemma_pow2_adds(1074, 970);
    lemma_pow2_adds(64, 906);
    lemma_pow2_pos(906);
    lemma_pow2_adds(2044, 54);
    assert(abs(e) < pow2(2044)) by (nonlinear_arith)
        requires
            abs(e) <= 0x4_0000_0000_0000 * unit,
            pow2(2044) == unit * pow2(970),
            pow2(970) == 0x1_0000_0000_0000_0000 * pow2(906),
            pow2(906) >= 1,
            unit > 0,
    ;
    assert(pow2(2098) >= 4 * pow2(2044)) by (nonlinear_arith)
        requires
            pow2(2098) == pow2(2044) * pow2(54),
            pow2(54) == 0x40_0000_0000_0000,
    ;
}

} // verus!
