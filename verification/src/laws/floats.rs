//! Floating-point arithmetic gives the nearest number.
//!
//! A number is compared with the exact result of an operation in multiples of
//! 2^-1074; every finite number is one that some 64 bits encode.

use vstd::arithmetic::power2::{
    lemma2_to64, lemma2_to64_rest, lemma_pow2_adds, lemma_pow2_pos, lemma_pow2_unfold, pow2,
};
use vstd::math::abs;
use vstd::prelude::*;

use crate::binary64::{
    ceil_of, decoded, difference, floor_of, half_even, lemma_round53, nearest_even, of_int, product,
    quotient, remainder, round53, round_of, sum, FloatValue, MIN_NORMAL, SIGNIFICAND_BOUND,
};

verus! {

/// The scale at which `n / d` has 53 significant bits.
proof fn lemma_scale(n: nat, d: nat) -> (k: nat)
    requires
        d > 0,
    ensures
        n < d * pow2(k) * SIGNIFICAND_BOUND,
        k == 0 || n >= d * pow2(k) * MIN_NORMAL,
    decreases n - d,
{
    lemma2_to64();
    if n < d * SIGNIFICAND_BOUND {
        assert(d * 1 == d);
        0
    } else {
        assert(d * SIGNIFICAND_BOUND >= 2 * d) by (nonlinear_arith);
        let less = lemma_scale(n, 2 * d);
        let k = less + 1;
        lemma_pow2_unfold(k);
        lemma_pow2_pos(less);
        assert(d * pow2(k) == (2 * d) * pow2(less)) by (nonlinear_arith)
            requires
                pow2(k) == 2 * pow2(less),
        ;
        if less == 0 {
            assert((2 * d) * pow2(less) == 2 * d) by (nonlinear_arith)
                requires
                    pow2(less) == 1,
            ;
            assert(n >= (2 * d) * MIN_NORMAL) by (nonlinear_arith)
                requires
                    n >= d * SIGNIFICAND_BOUND,
                    SIGNIFICAND_BOUND == 2 * MIN_NORMAL,
            ;
        }
        k
    }
}

/// No multiple of `w` is nearer to `n` than the nearest.
pub(crate) proof fn lemma_nearest_even(n: nat, w: nat, other: int)
    requires
        w > 0,
    ensures
        abs(nearest_even(n, w) * w - n) <= abs(other * w - n),
        2 * abs(nearest_even(n, w) * w - n) <= w,
        2 * abs(nearest_even(n, w) * w - n) == w ==> nearest_even(n, w) % 2 == 0,
{
    let q = (n / w) as int;
    let r = n % w;
    vstd::arithmetic::div_mod::lemma_fundamental_div_mod(n as int, w as int);
    assert(w * q == q * w) by (nonlinear_arith);
    assert((q + 1) * w == q * w + w) by (nonlinear_arith);
    if other >= q + 1 {
        assert(other * w >= (q + 1) * w) by (nonlinear_arith)
            requires
                other >= q + 1,
        ;
    } else {
        assert(other * w <= q * w) by (nonlinear_arith)
            requires
                other <= q,
        ;
    }
}

/// No number of 53 significant bits is nearer to `n / d` than the rounded one.
pub(crate) proof fn lemma_round_nearest(n: nat, d: nat, s: nat, j: nat)
    requires
        d > 0,
        s < SIGNIFICAND_BOUND,
    ensures
        ({
            let f = round53(n, d);
            let x = s * pow2(j);
            &&& abs(f * d - n) <= abs(x * d - n)
            &&& abs(f * d - n) == abs(x * d - n) && f != x ==> f as int % (2 * abs(x - f) as int) == 0
        }),
{
    let k = lemma_scale(n, d);
    let p = pow2(k);
    let w = d * p;
    lemma_pow2_pos(k);
    lemma_pow2_pos(j);
    lemma_round53(n, d, k);
    assert(w > 0) by (nonlinear_arith)
        requires
            w == d * p,
            d > 0,
            p > 0,
    ;
    let q = nearest_even(n, w);
    let f = round53(n, d);
    let x = s * pow2(j);
    assert(f * d == q * w) by (nonlinear_arith)
        requires
            f == q * p,
            w == d * p,
    ;
    if j >= k {
        let other = s * pow2((j - k) as nat);
        lemma_pow2_adds(k, (j - k) as nat);
        assert(x == other * p) by (nonlinear_arith)
            requires
                x == s * pow2(j),
                other == s * pow2((j - k) as nat),
                pow2(j) == p * pow2((j - k) as nat),
        ;
        assert(x * d == other * w) by (nonlinear_arith)
            requires
                x == other * p,
                w == d * p,
        ;
        lemma_nearest_even(n, w, other as int);
        if abs(f * d - n) == abs(x * d - n) && f != x {
            assert(q != other);
            if q < other {
                assert(other * w >= q * w + w) by (nonlinear_arith)
                    requires
                        other >= q + 1,
                ;
                if other > q + 1 {
                    assert(other * w >= q * w + 2 * w) by (nonlinear_arith)
                        requires
                            other >= q + 2,
                    ;
                }
            } else {
                assert(q * w >= other * w + w) by (nonlinear_arith)
                    requires
                        q >= other + 1,
                ;
                if q > other + 1 {
                    assert(q * w >= other * w + 2 * w) by (nonlinear_arith)
                        requires
                            q >= other + 2,
                    ;
                }
            }
            assert(abs(x - f) == p) by (nonlinear_arith)
                requires
                    f == q * p,
                    x == other * p,
                    other == q + 1 || q == other + 1,
            ;
            let half = q / 2;
            assert(f == half * (2 * p)) by (nonlinear_arith)
                requires
                    f == q * p,
                    q == 2 * half,
            ;
            vstd::arithmetic::div_mod::lemma_mod_multiples_basic(half as int, (2 * p) as int);
        }
    } else {
        lemma_pow2_adds(j, (k - j) as nat);
        lemma_pow2_unfold((k - j) as nat);
        lemma_pow2_pos((k - j - 1) as nat);
        assert(x < MIN_NORMAL * p) by (nonlinear_arith)
            requires
                x == s * pow2(j),
                s < SIGNIFICAND_BOUND,
                SIGNIFICAND_BOUND == 2 * MIN_NORMAL,
                p == pow2(j) * pow2((k - j) as nat),
                pow2((k - j) as nat) == 2 * pow2((k - j - 1) as nat),
                pow2((k - j - 1) as nat) >= 1,
                pow2(j) > 0,
        ;
        assert(x * d < MIN_NORMAL * w) by (nonlinear_arith)
            requires
                x < MIN_NORMAL * p,
                w == d * p,
                d > 0,
        ;
        assert(MIN_NORMAL * w == w * MIN_NORMAL) by (nonlinear_arith);
        lemma_nearest_even(n, w, MIN_NORMAL as int);
    }
}

/// The rounded quotient is off by at most a part in 2^53 and half a unit; a
/// whole number is off by at most a part in 2^53.
pub(crate) proof fn lemma_relative(n: nat, d: nat)
    requires
        d > 0,
    ensures
        SIGNIFICAND_BOUND * abs(round53(n, d) * d - n) <= n + MIN_NORMAL * d,
        n % d == 0 ==> SIGNIFICAND_BOUND * abs(round53(n, d) * d - n) <= n,
{
    let k = lemma_scale(n, d);
    let p = pow2(k);
    let w = d * p;
    lemma_pow2_pos(k);
    lemma2_to64();
    lemma_round53(n, d, k);
    assert(w > 0) by (nonlinear_arith)
        requires
            w == d * p,
            d > 0,
            p > 0,
    ;
    let q = nearest_even(n, w);
    let f = round53(n, d);
    assert(f * d == q * w) by (nonlinear_arith)
        requires
            f == q * p,
            w == d * p,
    ;
    lemma_nearest_even(n, w, 0);
    let off = abs(f * d - n);
    if k == 0 {
        assert(w == d) by (nonlinear_arith)
            requires
                w == d * p,
                p == 1,
        ;
        assert(SIGNIFICAND_BOUND * off <= MIN_NORMAL * d) by (nonlinear_arith)
            requires
                2 * off <= d,
                SIGNIFICAND_BOUND == 2 * MIN_NORMAL,
        ;
        if n % d == 0 {
            vstd::arithmetic::div_mod::lemma_fundamental_div_mod(n as int, d as int);
            let whole = (n / d) as int;
            assert(d * whole == whole * d) by (nonlinear_arith);
            lemma_nearest_even(n, w, whole);
        }
    } else {
        assert(SIGNIFICAND_BOUND * off <= n) by (nonlinear_arith)
            requires
                2 * off <= w,
                n >= w * MIN_NORMAL,
                SIGNIFICAND_BOUND == 2 * MIN_NORMAL,
        ;
        assert(MIN_NORMAL * d >= 0) by (nonlinear_arith)
            requires
                d > 0,
        ;
    }
}

/// What 64 bits encode has 53 significant bits.
pub(crate) proof fn lemma_encoded(bits: u64) -> (parts: (nat, nat))
    requires
        decoded(bits) is Some,
    ensures
        parts.0 < SIGNIFICAND_BOUND,
        decoded(bits)->0.magnitude == parts.0 * pow2(parts.1),
{
    let exponent = (bits as nat / 0x10_0000_0000_0000) % 2048;
    let fraction = bits as nat % 0x10_0000_0000_0000;
    lemma2_to64();
    if exponent == 0 {
        assert(fraction * pow2(0) == fraction);
        (fraction, 0)
    } else {
        ((MIN_NORMAL + fraction) as nat, (exponent - 1) as nat)
    }
}

/// What 64 bits encode lies at least a gap below 2^2098 units.
pub(crate) proof fn lemma_encoded_bound(bits: u64)
    requires
        decoded(bits) is Some,
    ensures
        decoded(bits)->0.magnitude + pow2(2045) <= pow2(2098),
{
    let exponent = (bits as nat / 0x10_0000_0000_0000) % 2048;
    let fraction = bits as nat % 0x10_0000_0000_0000;
    lemma2_to64();
    lemma2_to64_rest();
    lemma_pow2_adds(53, 2045);
    let gap = pow2(2045);
    lemma_pow2_pos(2045);
    let (s, j): (nat, nat) = if exponent == 0 {
        (fraction, 0)
    } else {
        ((MIN_NORMAL + fraction) as nat, (exponent - 1) as nat)
    };
    assert(fraction * pow2(0) == fraction);
    lemma_pow2_adds(j, (2045 - j) as nat);
    lemma_pow2_pos(j);
    lemma_pow2_pos((2045 - j) as nat);
    assert(s * pow2(j) <= (SIGNIFICAND_BOUND - 1) * gap) by (nonlinear_arith)
        requires
            s <= SIGNIFICAND_BOUND - 1,
            gap == pow2(j) * pow2((2045 - j) as nat),
            pow2(j) > 0,
            pow2((2045 - j) as nat) >= 1,
    ;
    assert((SIGNIFICAND_BOUND - 1) * gap == pow2(2098) - gap) by (nonlinear_arith)
        requires
            pow2(2098) == 0x20_0000_0000_0000 * gap,
            SIGNIFICAND_BOUND == 0x20_0000_0000_0000,
    ;
}

/// The nearest magnitude with the sign of the exact value is the nearest
/// number.
proof fn lemma_nearest_signed(e: int, f: FloatValue, bits: u64)
    requires
        decoded(bits) is Some,
        f.magnitude == round53(abs(e), 1),
        e < 0 ==> f.negative,
        e > 0 ==> !f.negative,
        e == 0 ==> f.magnitude == 0,
    ensures
        is_nearest(f, e, decoded(bits)->0),
{
    let x = decoded(bits)->0;
    let (s, j) = lemma_encoded(bits);
    lemma_round_nearest(abs(e), 1, s, j);
    lemma_round_nearest(abs(e), 1, 0, 0);
    lemma2_to64();
    assert(0 * pow2(0) == 0);
    assert(f.magnitude * 1 == f.magnitude && x.magnitude * 1 == x.magnitude);
}

/// Whether `x` is not nearer than `f` to an exact value, and where both are
/// equally near, `f` is the even one: a multiple of twice the gap.
pub open spec fn is_nearest(f: FloatValue, exact: int, x: FloatValue) -> bool {
    &&& abs(f.units() - exact) <= abs(x.units() - exact)
    &&& abs(f.units() - exact) == abs(x.units() - exact) && f.units() != x.units()
        ==> f.magnitude as int % (2 * abs(x.units() - f.units()) as int) == 0
}

/// Where rounding leaves the finite numbers: half of the last gap above the
/// largest.
pub(crate) proof fn lemma_overflow(n: nat, d: nat)
    requires
        d > 0,
    ensures
        (round53(n, d) >= pow2(2098)) <==> n + d * pow2(2044) >= d * pow2(2098),
{
    let f = round53(n, d);
    let top = pow2(2098);
    let gap = pow2(2045);
    let half = pow2(2044);
    lemma2_to64();
    lemma2_to64_rest();
    lemma_pow2_pos(2044);
    lemma_pow2_unfold(2045);
    lemma_pow2_adds(53, 2045);
    let s = (SIGNIFICAND_BOUND - 1) as nat;
    let last = s * gap;
    assert(top == SIGNIFICAND_BOUND * gap && last == top - gap) by (nonlinear_arith)
        requires
            top == 0x20_0000_0000_0000 * gap,
            SIGNIFICAND_BOUND == 0x20_0000_0000_0000,
            last == (SIGNIFICAND_BOUND - 1) * gap,
    ;
    assert(last * d == d * top - d * gap) by (nonlinear_arith)
        requires
            last == top - gap,
    ;
    assert(d * gap == 2 * (d * half)) by (nonlinear_arith)
        requires
            gap == 2 * half,
    ;
    assert(d * half > 0) by (nonlinear_arith)
        requires
            d > 0,
            half > 0,
    ;
    if n + d * half < d * top {
        lemma_round_nearest(n, d, s, 2045);
        assert(f * d < d * top);
        assert(f < top) by (nonlinear_arith)
            requires
                f * d < d * top,
        ;
    } else if n >= d * top {
        lemma_pow2_adds(52, 2046);
        lemma_round_nearest(n, d, MIN_NORMAL as nat, 2046);
        assert(MIN_NORMAL * pow2(2046) == top);
        assert(top * d == d * top) by (nonlinear_arith);
        assert(f * d >= d * top);
        assert(f >= top) by (nonlinear_arith)
            requires
                f * d >= d * top,
                d > 0,
        ;
    } else {
        let w = d * gap;
        assert(w * SIGNIFICAND_BOUND == d * top) by (nonlinear_arith)
            requires
                w == d * gap,
                top == SIGNIFICAND_BOUND * gap,
        ;
        assert(w * MIN_NORMAL <= w * SIGNIFICAND_BOUND - w) by (nonlinear_arith)
            requires
                SIGNIFICAND_BOUND == 2 * MIN_NORMAL,
                MIN_NORMAL >= 1,
                w >= 0,
        ;
        lemma_round53(n, d, 2045);
        let r = (n - s * w) as nat;
        assert(s * w == w * SIGNIFICAND_BOUND - w) by (nonlinear_arith)
            requires
                s == SIGNIFICAND_BOUND - 1,
        ;
        vstd::arithmetic::div_mod::lemma_fundamental_div_mod_converse(
            n as int,
            w as int,
            s as int,
            r as int,
        );
        assert(s % 2 == 1);
        assert(nearest_even(n, w) == SIGNIFICAND_BOUND);
    }
}

/// The sum of two numbers is the number nearest to their exact sum; an exact
/// zero is negative only where both are. There is none where the exact sum lies
/// half of the last gap or more beyond the largest number.
pub proof fn sums_are_nearest(a: FloatValue, b: FloatValue, bits: u64)
    requires
        decoded(bits) is Some,
    ensures
        sum(a, b) matches Some(f) ==> is_nearest(f, a.units() + b.units(), decoded(bits)->0),
        sum(a, b) matches Some(f) ==> f.magnitude == 0 ==> f.negative == (a.negative && b.negative),
        (sum(a, b) is None) <==> abs(a.units() + b.units()) + pow2(2044) >= pow2(2098),
{
    let e = a.units() + b.units();
    lemma_overflow(abs(e), 1);
    lemma2_to64_rest();
    lemma_pow2_pos(2044);
    lemma_pow2_adds(2044, 54);
    assert(pow2(2098) > pow2(2044)) by (nonlinear_arith)
        requires
            pow2(2098) == pow2(2044) * pow2(54),
            pow2(54) == 0x40_0000_0000_0000,
            pow2(2044) > 0,
    ;
    assert(1 * pow2(2044) == pow2(2044) && 1 * pow2(2098) == pow2(2098));
    lemma_round_positive(abs(e), 1);
    if let Some(f) = sum(a, b) {
        if e == 0 {
            lemma_round_zero(1);
        }
        lemma_nearest_signed(e, f, bits);
    }
}

/// What is at least one unit does not round to zero.
proof fn lemma_round_positive(n: nat, d: nat)
    requires
        d > 0,
    ensures
        n >= d ==> round53(n, d) > 0,
{
    lemma2_to64();
    if n >= d && round53(n, d) == 0 {
        lemma_round_nearest(n, d, 1, 0);
        assert(1 * pow2(0) == 1 && 1 * d == d && 0 * d == 0);
    }
}

pub(crate) proof fn lemma_round_zero(d: nat)
    requires
        d > 0,
    ensures
        round53(0, d) == 0,
{
    lemma2_to64();
    lemma_round_nearest(0, d, 0, 0);
    assert(0 * pow2(0) == 0 && 0 * d == 0);
    let f = round53(0, d);
    assert(f == 0) by (nonlinear_arith)
        requires
            abs(f * d - 0) <= 0,
            d > 0,
            f >= 0,
    ;
}

/// The difference of two numbers is the number nearest to their exact
/// difference.
pub proof fn differences_are_nearest(a: FloatValue, b: FloatValue, bits: u64)
    requires
        decoded(bits) is Some,
    ensures
        difference(a, b) matches Some(f) ==> is_nearest(f, a.units() - b.units(), decoded(bits)->0),
        difference(a, b) matches Some(f) ==> f.magnitude == 0 ==> f.negative == (a.negative
            && !b.negative),
        (difference(a, b) is None) <==> abs(a.units() - b.units()) + pow2(2044) >= pow2(2098),
{
    sums_are_nearest(a, crate::binary64::negation(b), bits);
}

/// The product of two numbers has the sign of their exact product, and no
/// number is nearer to it. Both sides are scaled by 2^1074, in which one unit
/// times another is measured.
pub proof fn products_are_nearest(a: FloatValue, b: FloatValue, bits: u64)
    requires
        decoded(bits) is Some,
    ensures
        product(a, b) matches Some(f) ==> {
            let exact = a.magnitude * b.magnitude;
            let x = decoded(bits)->0.magnitude;
            let off = abs(f.magnitude * pow2(1074) - exact);
            &&& f.negative == (a.negative != b.negative)
            &&& off <= abs(x * pow2(1074) - exact)
            &&& off == abs(x * pow2(1074) - exact) && f.magnitude != x ==> f.magnitude as int % (2 * abs(
                x - f.magnitude,
            ) as int) == 0
        },
        (product(a, b) is None) <==> a.magnitude * b.magnitude + pow2(1074) * pow2(2044) >= pow2(1074)
            * pow2(2098),
{
    let (s, j) = lemma_encoded(bits);
    lemma_pow2_pos(1074);
    lemma_overflow(a.magnitude * b.magnitude, pow2(1074));
    lemma_round_nearest(a.magnitude * b.magnitude, pow2(1074), s, j);
}

/// The quotient of two numbers has the sign of their exact quotient, and no
/// number is nearer to it. Both sides are scaled by the divisor.
pub proof fn quotients_are_nearest(a: FloatValue, b: FloatValue, bits: u64)
    requires
        decoded(bits) is Some,
        b.magnitude > 0,
    ensures
        quotient(a, b) matches Some(f) ==> {
            let exact = a.magnitude * pow2(1074);
            let x = decoded(bits)->0.magnitude;
            let off = abs(f.magnitude * b.magnitude - exact);
            &&& f.negative == (a.negative != b.negative)
            &&& off <= abs(x * b.magnitude - exact)
            &&& off == abs(x * b.magnitude - exact) && f.magnitude != x ==> f.magnitude as int % (2
                * abs(x - f.magnitude) as int) == 0
        },
        (quotient(a, b) is None) <==> a.magnitude * pow2(1074) + b.magnitude * pow2(2044)
            >= b.magnitude * pow2(2098),
{
    let (s, j) = lemma_encoded(bits);
    lemma_overflow(a.magnitude * pow2(1074), b.magnitude);
    lemma_round_nearest(a.magnitude * pow2(1074), b.magnitude, s, j);
}

/// An integer converts to the number nearest to it.
pub proof fn conversions_are_nearest(i: int, bits: u64)
    requires
        i64::MIN <= i <= u64::MAX,
        decoded(bits) is Some,
    ensures
        of_int(i) is Some,
        is_nearest(of_int(i)->0, i * pow2(1074), decoded(bits)->0),
{
    let m = abs(i);
    let unit = pow2(1074);
    lemma_pow2_pos(1074);
    lemma2_to64();
    lemma2_to64_rest();
    lemma_pow2_adds(64, 1074);
    lemma_pow2_adds(1138, 906);
    lemma_pow2_pos(906);
    lemma_pow2_adds(2044, 54);
    lemma_pow2_pos(2044);
    assert(m * unit < pow2(2044)) by (nonlinear_arith)
        requires
            m <= 0xffff_ffff_ffff_ffff,
            pow2(1138) == 0x1_0000_0000_0000_0000 * unit,
            pow2(2044) == pow2(1138) * pow2(906),
            pow2(906) >= 1,
            unit > 0,
    ;
    lemma_overflow(m * unit, 1);
    assert(1 * pow2(2044) == pow2(2044) && 1 * pow2(2098) == pow2(2098));
    assert(pow2(2098) >= 2 * pow2(2044)) by (nonlinear_arith)
        requires
            pow2(2098) == pow2(2044) * pow2(54),
            pow2(54) == 0x40_0000_0000_0000,
    ;
    assert(abs(i * unit) == m * unit) by (nonlinear_arith)
        requires
            m == abs(i),
            unit > 0,
    ;
    assert(i < 0 ==> i * unit < 0) by (nonlinear_arith)
        requires
            unit > 0,
    ;
    assert(i > 0 ==> i * unit > 0) by (nonlinear_arith)
        requires
            unit > 0,
    ;
    if i == 0 {
        assert(0 * unit == 0);
        lemma_round_zero(1);
    }
    lemma_nearest_signed(i * unit, of_int(i)->0, bits);
}

/// The remainder of a division that cuts off is what the dividend is above a
/// whole multiple of the divisor towards zero. It is exact.
pub proof fn remainders_are_exact(a: FloatValue, b: FloatValue)
    requires
        b.magnitude > 0,
    ensures
        remainder(a, b).magnitude < b.magnitude,
        remainder(a, b).negative == a.negative,
        exists|k: int| a.units() - remainder(a, b).units() == #[trigger] (k * b.units()),
{
    let m = b.magnitude as int;
    let q = a.magnitude as int / m;
    vstd::arithmetic::div_mod::lemma_fundamental_div_mod(a.magnitude as int, m);
    let k = if a.negative == b.negative {
        q
    } else {
        -q
    };
    assert(m * q == q * m && (-q) * m == -(q * m) && q * (-m) == -(q * m) && (-q) * (-m) == q * m)
        by (nonlinear_arith);
    assert(a.units() - remainder(a, b).units() == k * b.units());
}

/// The floor of a number is the integer that is at most it and less than one
/// below it; the ceiling is at least it and less than one above it.
pub proof fn floors_and_ceilings_enclose(a: FloatValue)
    ensures
        floor_of(a) * pow2(1074) <= a.units() < (floor_of(a) + 1) * pow2(1074),
        (ceil_of(a) - 1) * pow2(1074) < a.units() <= ceil_of(a) * pow2(1074),
{
    let unit = pow2(1074) as int;
    lemma_pow2_pos(1074);
    let (f, c) = (floor_of(a), ceil_of(a));
    vstd::arithmetic::div_mod::lemma_fundamental_div_mod(a.units(), unit);
    vstd::arithmetic::div_mod::lemma_fundamental_div_mod(-a.units(), unit);
    assert(unit * f == f * unit && (f + 1) * unit == f * unit + unit) by (nonlinear_arith);
    assert(unit * (-c) == -(c * unit) && (c - 1) * unit == c * unit - unit) by (nonlinear_arith);
}

/// Rounding gives an integer within one half of the number, of two such the
/// even one; as a number it is the same.
pub proof fn rounding_is_to_the_nearest_integer(a: FloatValue)
    ensures
        2 * abs(round_of(a) * pow2(1074) - a.units()) <= pow2(1074),
        2 * abs(round_of(a) * pow2(1074) - a.units()) == pow2(1074) ==> round_of(a) % 2 == 0,
        half_even(a).units() == round_of(a) * pow2(1074),
        half_even(a).magnitude > 0 ==> half_even(a).negative == a.negative,
{
    let unit = pow2(1074);
    lemma_pow2_pos(1074);
    let q = nearest_even(a.magnitude, unit);
    lemma_nearest_even(a.magnitude, unit, 0);
    assert((-q) * unit == -(q * unit)) by (nonlinear_arith);
}

} // verus!
