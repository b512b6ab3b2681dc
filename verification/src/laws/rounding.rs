//! Rounding to decimal places and to powers of ten.

use vstd::arithmetic::power::{lemma_pow0, lemma_pow1, lemma_pow_adds, lemma_pow_positive, pow};
use vstd::arithmetic::power2::{
    lemma2_to64, lemma2_to64_rest, lemma_pow2_adds, lemma_pow2_pos, lemma_pow2_unfold, pow2,
};
use vstd::math::abs;
use vstd::prelude::*;

use crate::binary64::{
    decoded, half_even, lemma_exact, nearest_even, product, quotient, round53, FloatValue,
    MIN_NORMAL, SIGNIFICAND_BOUND,
};
use crate::context::EvalContext;
use crate::decimal::fixed_point;
use crate::error::ErrorView;
use crate::functions::math::{
    lemma_ten_powers, nearest_multiples_are_nearest, round_result, rounded_to_places,
    rounded_to_tens, ten_power, MAX_ROUND_NDIGITS,
};
use crate::laws::floats::{
    lemma_encoded, lemma_nearest_even, lemma_relative, lemma_round_nearest, lemma_round_zero,
    rounding_is_to_the_nearest_integer,
};
use crate::text::{decimal, digit, digits_value, fixed, high_part, low_digits};
use crate::value::ValueView;

verus! {

/// Ten to a power is five to it times two to it.
proof fn lemma_ten_is_five_times_two(k: nat)
    ensures
        pow(10, k) == pow(5, k) * pow2(k),
        pow(5, k) > 0,
    decreases k,
{
    lemma_pow_positive(5, k);
    lemma2_to64();
    if k == 0 {
        lemma_pow0(10);
        lemma_pow0(5);
    } else {
        let less = (k - 1) as nat;
        lemma_ten_is_five_times_two(less);
        lemma_pow_adds(10, less, 1);
        lemma_pow_adds(5, less, 1);
        lemma_pow1(10);
        lemma_pow1(5);
        lemma_pow2_unfold(k);
        let (f, t) = (pow(5, less), pow2(less));
        assert((f * t) * 10 == (f * 5) * (2 * t)) by (nonlinear_arith);
    }
}

/// The powers of ten below 10^17 are exact.
proof fn lemma_ten_power(k: nat)
    requires
        k <= 16,
    ensures
        ten_power(k) == (FloatValue {
            negative: false,
            magnitude: pow(10, k) as nat * pow2(1074),
        }),
        0 < pow(10, k) <= 10_000_000_000_000_000,
{
    lemma_ten_is_five_times_two(k);
    lemma_ten_powers();
    lemma_pow_positive(10, k);
    vstd::arithmetic::power::lemma_pow_increases(10, k, 16);
    lemma2_to64();
    lemma2_to64_rest();
    lemma_pow2_pos(k);
    lemma_pow2_pos(1074);
    lemma_pow2_adds(k, 1074);
    let five = pow(5, k) as nat;
    let ten = pow(10, k) as nat;
    let unit = pow2(1074);
    assert(five <= SIGNIFICAND_BOUND) by {
        vstd::arithmetic::power::lemma_pow_increases(5, k, 16);
        assert(pow(5, 16) <= SIGNIFICAND_BOUND) by {
            lemma_pow_adds(5, 8, 8);
            lemma_pow_adds(5, 4, 4);
            assert(pow(5, 4) == 625) by {
                reveal(pow);
                reveal_with_fuel(pow, 5);
            }
            assert(pow(5, 8) == 390_625) by (nonlinear_arith)
                requires
                    pow(5, 8) == pow(5, 4) * pow(5, 4),
                    pow(5, 4) == 625,
            ;
            assert(pow(5, 16) == 152_587_890_625) by (nonlinear_arith)
                requires
                    pow(5, 16) == pow(5, 8) * pow(5, 8),
                    pow(5, 8) == 390_625,
            ;
        }
    }
    lemma_exact(five, k + 1074);
    assert(ten * unit == five * pow2(k + 1074)) by (nonlinear_arith)
        requires
            ten == five * pow2(k),
            pow2(k + 1074) == pow2(k) * unit,
    ;
    lemma_pow2_adds(54, 1074);
    lemma_pow2_adds(1128, 970);
    lemma_pow2_pos(970);
    assert(ten * unit < pow2(2098)) by (nonlinear_arith)
        requires
            ten <= 10_000_000_000_000_000,
            pow2(54) == 0x40_0000_0000_0000,
            pow2(1128) == pow2(54) * unit,
            pow2(2098) == pow2(1128) * pow2(970),
            pow2(970) >= 1,
            unit > 0,
    ;
}

/// Whether no number is nearer than that of magnitude `m` to the decimal
/// `k / t`.
pub open spec fn is_nearest_decimal(m: nat, k: nat, t: nat) -> bool {
    forall|bits: u64| (#[trigger] decoded(bits)) is Some ==> abs(m * t - k * pow2(1074)) <= abs(
        decoded(bits)->0.magnitude * t - k * pow2(1074),
    )
}

/// The steps of rounding to `n` decimal places: the scaled number, the whole
/// number, and the result.
proof fn lemma_places(v: FloatValue, n: nat) -> (k: nat)
    requires
        0 < n < 17,
        v.magnitude < MIN_NORMAL * pow2(1074),
    ensures
        ({
            let t = pow(10, n) as nat;
            let scaled = round53(v.magnitude * t, 1);
            &&& k == nearest_even(scaled, pow2(1074))
            &&& rounded_to_places(v, n) is Some
            &&& rounded_to_places(v, n)->0.magnitude == round53(k * pow2(1074), t)
            &&& rounded_to_places(v, n)->0.magnitude > 0 ==> rounded_to_places(v, n)->0.negative
                == v.negative
        }),
{
    let unit = pow2(1074);
    let t = pow(10, n) as nat;
    let vm = v.magnitude;
    let factor = ten_power(n);
    lemma_ten_power(n);
    lemma_pow2_pos(1074);
    let tu = t * unit;
    // The product.
    let n1 = vm * tu;
    let a = vm * t;
    assert(n1 == a * unit) by (nonlinear_arith)
        requires
            n1 == vm * (t * unit),
            a == vm * t,
    ;
    lemma_round_common(a, 1, unit);
    assert(1 * unit == unit);
    let scaled = round53(a, 1);
    assert(a <= 0x1_0000_0000_0000_0000_0000_0000_0000 * unit) by (nonlinear_arith)
        requires
            a == vm * t,
            vm < MIN_NORMAL * unit,
            MIN_NORMAL == 0x10_0000_0000_0000,
            0 < t <= 10_000_000_000_000_000,
            unit > 0,
    ;
    lemma_wide(unit);
    lemma_relative(a, 1);
    assert(scaled * 1 == scaled && a % 1 == 0);
    assert(scaled <= 2 * a);
    assert(round53(n1, unit) == scaled);
    assert(scaled < pow2(2098));
    assert(product(v, factor) == Some(FloatValue { negative: v.negative, magnitude: scaled }));
    let s = FloatValue { negative: v.negative, magnitude: scaled };
    let k = nearest_even(scaled, unit);
    lemma_nearest_even(scaled, unit, 0);
    let h = k * unit;
    assert(half_even(s).magnitude == h);
    // The quotient.
    lemma_round_common(h, t, unit);
    lemma_relative(h, t);
    let r = round53(h, t);
    assert(r * t <= 2 * h + t) by {
        assert(SIGNIFICAND_BOUND * abs(r * t - h) <= h + MIN_NORMAL * t);
        assert(MIN_NORMAL * t <= SIGNIFICAND_BOUND * t) by (nonlinear_arith)
            requires
                SIGNIFICAND_BOUND == 2 * MIN_NORMAL,
        ;
        assert(abs(r * t - h) <= h + t) by (nonlinear_arith)
            requires
                SIGNIFICAND_BOUND * abs(r * t - h) <= h + SIGNIFICAND_BOUND * t,
                SIGNIFICAND_BOUND >= 1,
                h >= 0,
        ;
    }
    assert(r <= 2 * h + t) by (nonlinear_arith)
        requires
            r * t <= 2 * h + t,
            t >= 1,
    ;
    assert(round53(h * unit, tu) == r);
    assert(r < pow2(2098));
    assert(quotient(half_even(s), factor) == Some(
        FloatValue { negative: half_even(s).negative, magnitude: r },
    ));
    if r > 0 && k == 0 {
        assert(0 * unit == 0);
        lemma_round_zero(t);
    }
    assert(!(2 * (scaled % unit) == unit && k == 0) || r == 0) by {
        if k == 0 {
            assert(0 * unit == 0);
            lemma_round_zero(t);
        }
    }
    k
}

/// Room above the numbers that are rounded to decimal places.
proof fn lemma_wide(unit: nat)
    requires
        unit == pow2(1074),
    ensures
        0x1_0000_0000_0000_0000_0000_0000_0000_0000 * unit <= pow2(2098),
{
    lemma2_to64();
    lemma_pow2_adds(64, 64);
    lemma_pow2_adds(128, 1074);
    lemma_pow2_adds(1202, 896);
    lemma_pow2_pos(896);
    lemma_pow2_pos(1202);
    assert(0x1_0000_0000_0000_0000_0000_0000_0000_0000 * unit <= pow2(2098)) by (nonlinear_arith)
        requires
            pow2(128) == 0x1_0000_0000_0000_0000_0000_0000_0000_0000,
            pow2(1202) == pow2(128) * unit,
            pow2(2098) == pow2(1202) * pow2(896),
            pow2(896) >= 1,
            pow2(1202) > 0,
    ;
}

/// A common factor does not change a rounded quotient.
proof fn lemma_round_common(n: nat, d: nat, c: nat)
    requires
        d > 0,
        c > 0,
    ensures
        round53(n * c, d * c) == round53(n, d),
    decreases n - d,
{
    assert(d * c > 0) by (nonlinear_arith)
        requires
            d > 0,
            c > 0,
    ;
    let s = SIGNIFICAND_BOUND as nat;
    assert((n * c < (d * c) * s) <==> n < d * s) by (nonlinear_arith)
        requires
            c > 0,
    ;
    if n < d * s {
        let q = n / d;
        let r = n % d;
        vstd::arithmetic::div_mod::lemma_fundamental_div_mod(n as int, d as int);
        assert(n * c == q * (d * c) + r * c) by (nonlinear_arith)
            requires
                n == d * q + r,
        ;
        assert(r * c < d * c) by (nonlinear_arith)
            requires
                r < d,
                c > 0,
        ;
        vstd::arithmetic::div_mod::lemma_fundamental_div_mod_converse(
            (n * c) as int,
            (d * c) as int,
            q as int,
            (r * c) as int,
        );
        assert((2 * (r * c) < d * c) <==> 2 * r < d) by (nonlinear_arith)
            requires
                c > 0,
        ;
        assert((2 * (r * c) == d * c) <==> 2 * r == d) by (nonlinear_arith)
            requires
                c > 0,
        ;
    } else {
        assert(d * s >= 2 * d) by (nonlinear_arith)
            requires
                s >= 2,
        ;
        lemma_round_common(n, 2 * d, c);
        assert((2 * d) * c == 2 * (d * c)) by (nonlinear_arith);
    }
}

/// Rounding to decimal places gives the number nearest to a decimal with that
/// many places.
proof fn lemma_places_on_grid(v: FloatValue, n: nat, k: nat)
    requires
        0 < n < 17,
        v.magnitude < MIN_NORMAL * pow2(1074),
        k == nearest_even(round53(v.magnitude * pow(10, n) as nat, 1), pow2(1074)),
        rounded_to_places(v, n) is Some,
        rounded_to_places(v, n)->0.magnitude == round53(k * pow2(1074), pow(10, n) as nat),
    ensures
        is_nearest_decimal(rounded_to_places(v, n)->0.magnitude, k, pow(10, n) as nat),
{
    let t = pow(10, n) as nat;
    lemma_pow_positive(10, n);
    assert forall|bits: u64| (#[trigger] decoded(bits)) is Some implies abs(
        rounded_to_places(v, n)->0.magnitude * t - k * pow2(1074),
    ) <= abs(decoded(bits)->0.magnitude * t - k * pow2(1074)) by {
        let (s, j) = lemma_encoded(bits);
        lemma_round_nearest(k * pow2(1074), t, s, j);
    }
}

/// Rounding to decimal places moves a number by half of the last place at most,
/// and a part in 2^50 of the number for the steps of the computation.
proof fn lemma_places_near(v: FloatValue, n: nat, k: nat)
    requires
        0 < n < 17,
        v.magnitude < MIN_NORMAL * pow2(1074),
        k == nearest_even(round53(v.magnitude * pow(10, n) as nat, 1), pow2(1074)),
    ensures
        ({
            let t = pow(10, n);
            let r = round53(k * pow2(1074), t as nat);
            0x4_0000_0000_0000 * (2 * t * abs(r - v.magnitude)) <= 0x4_0000_0000_0000 * pow2(1074) + 2
                * t * v.magnitude
        }),
{
    let unit = pow2(1074);
    let t = pow(10, n) as nat;
    let vm = v.magnitude;
    lemma_ten_power(n);
    lemma_pow2_pos(1074);
    lemma2_to64();
    lemma2_to64_rest();
    let a = vm * t;
    let s = round53(a, 1);
    lemma_relative(a, 1);
    assert(s * 1 == s && a % 1 == 0);
    lemma_nearest_even(s, unit, 0);
    let h = k * unit;
    let r = round53(h, t);
    lemma_relative(h, t);
    let rt = r * t;
    let p: nat = SIGNIFICAND_BOUND as nat;
    assert(p * abs(s - a) <= a);
    assert(2 * abs(h - s) <= unit);
    assert(p * abs(rt - h) <= h + MIN_NORMAL * t);
    if k == 0 {
        assert(0 * unit == 0);
        lemma_round_zero(t);
        assert(0 * t == 0);
        assert(p * (2 * abs(rt - a)) <= p * unit + 2 * a);
    } else {
        assert(h >= unit) by (nonlinear_arith)
            requires
                h == k * unit,
                k >= 1,
        ;
        // The number is at least about half of the last place.
        assert(unit <= 3 * a);
        lemma_pow2_adds(128, 946);
        lemma_pow2_adds(64, 64);
        lemma_pow2_pos(946);
        assert(MIN_NORMAL * t <= a) by (nonlinear_arith)
            requires
                unit <= 3 * a,
                unit == pow2(128) * pow2(946),
                pow2(128) == 0x1_0000_0000_0000_0000 * 0x1_0000_0000_0000_0000,
                pow2(946) >= 1,
                t <= 10_000_000_000_000_000,
                MIN_NORMAL == 0x10_0000_0000_0000,
        ;
        assert(h <= 5 * a);
        assert(p * (2 * abs(rt - a)) <= p * unit + 16 * a);
    }
    assert(abs(rt - a) == t * abs(r - vm)) by (nonlinear_arith)
        requires
            rt == r * t,
            a == vm * t,
            t > 0,
    ;
    let off = t * abs(r - vm);
    assert(2 * t * abs(r - vm) == 2 * off) by (nonlinear_arith)
        requires
            off == t * abs(r - vm),
    ;
    assert(2 * t * vm == 2 * a) by (nonlinear_arith)
        requires
            a == vm * t,
    ;
    assert(0x4_0000_0000_0000 * (2 * off) <= 0x4_0000_0000_0000 * unit + 2 * a) by (nonlinear_arith)
        requires
            p * (2 * off) <= p * unit + 16 * a,
            p == 0x20_0000_0000_0000,
    ;
}

/// The result of `round(v, n)`.
pub open spec fn round_of_float<C: EvalContext>(
    ctx: C,
    v: FloatValue,
    text: Option<Seq<char>>,
    n: int,
) -> Result<ValueView, ErrorView> {
    round_result(ctx, seq![ValueView::Float { number: v, text }, ValueView::Int(n)]).1
}

/// `round(v, n)` with 0 < n < 17 of a number below 2^52, where the context
/// admits the text, is a number within half of 10^-n of `v`, up to a part in
/// 2^50 of `v` for the steps of the computation. It has the sign of `v`, and is
/// the number nearest to a decimal with `n` places.
pub proof fn decimal_rounding_is_near<C: EvalContext>(
    ctx: C,
    v: FloatValue,
    text: Option<Seq<char>>,
    n: int,
)
    requires
        0 < n < 17,
        v.magnitude < MIN_NORMAL * pow2(1074),
        ctx.string_error(n as nat) is None,
    ensures
        round_of_float(ctx, v, text, n) matches Ok(ValueView::Float { number: r, text: _ }) && {
            let t = pow(10, n as nat);
            &&& 0x4_0000_0000_0000 * (2 * t * abs(r.units() - v.units())) <= 0x4_0000_0000_0000 * pow2(
                1074,
            ) + 2 * t * v.magnitude
            &&& r.magnitude > 0 ==> r.negative == v.negative
            &&& exists|k: nat| #[trigger] is_nearest_decimal(r.magnitude, k, t as nat)
        },
{
    let k = lemma_places(v, n as nat);
    lemma_places_on_grid(v, n as nat, k);
    lemma_places_near(v, n as nat, k);
    let args = seq![ValueView::Float { number: v, text }, ValueView::Int(n)];
    assert(args.len() == 2 && args[1] == ValueView::Int(n));
    lemma_ten_power(n as nat);
    let r = rounded_to_places(v, n as nat)->0;
    assert(abs(r.units() - v.units()) == abs(r.magnitude - v.magnitude));
    assert(round_of_float(ctx, v, text, n) matches Ok(ValueView::Float { number, text: _ }) && number == r);
    assert(is_nearest_decimal(r.magnitude, k, pow(10, n as nat) as nat));
}

/// A number that lies exactly between two decimals with `n` places rounds to
/// the number nearest to the even one.
pub proof fn decimal_ties_go_to_even<C: EvalContext>(
    ctx: C,
    v: FloatValue,
    text: Option<Seq<char>>,
    n: int,
    j: nat,
)
    requires
        0 < n < 17,
        v.magnitude < MIN_NORMAL * pow2(1074),
        ctx.string_error(n as nat) is None,
        2 * v.magnitude * pow(10, n as nat) == (2 * j + 1) * pow2(1074),
        2 * j + 1 < SIGNIFICAND_BOUND,
    ensures
        round_of_float(ctx, v, text, n) matches Ok(ValueView::Float { number: r, text: _ })
            && is_nearest_decimal(
            r.magnitude,
            if j % 2 == 0 {
                j
            } else {
                j + 1
            },
            pow(10, n as nat) as nat,
        ),
{
    decimal_rounding_is_near(ctx, v, text, n);
    let k = lemma_places(v, n as nat);
    lemma_places_on_grid(v, n as nat, k);
    lemma_ten_power(n as nat);
    lemma_pow2_pos(1074);
    lemma_pow2_unfold(1074);
    let args = seq![ValueView::Float { number: v, text }, ValueView::Int(n)];
    assert(args.len() == 2 && args[1] == ValueView::Int(n));
    let t = pow(10, n as nat) as nat;
    let half = pow2(1073);
    let unit = pow2(1074);
    let odd = (2 * j + 1) as nat;
    let a = v.magnitude * t;
    assert(a == odd * half) by (nonlinear_arith)
        requires
            2 * v.magnitude * t == odd * unit,
            unit == 2 * half,
            a == v.magnitude * t,
    ;
    lemma_exact(odd, 1073);
    assert(a == j * unit + half) by (nonlinear_arith)
        requires
            a == odd * half,
            odd == 2 * j + 1,
            unit == 2 * half,
    ;
    vstd::arithmetic::div_mod::lemma_fundamental_div_mod_converse(
        a as int,
        unit as int,
        j as int,
        half as int,
    );
}

/// `round(v)` is the integer nearest to `v`, of two the even one, where 64 bits
/// hold it.
pub proof fn rounding_without_places_is_near<C: EvalContext>(
    ctx: C,
    v: FloatValue,
    text: Option<Seq<char>>,
)
    ensures
        match round_result(ctx, seq![ValueView::Float { number: v, text }]).1 {
            Ok(ValueView::Int(i)) => {
                &&& 2 * abs(i * pow2(1074) - v.units()) <= pow2(1074)
                &&& 2 * abs(i * pow2(1074) - v.units()) == pow2(1074) ==> i % 2 == 0
            },
            Ok(_) => false,
            Err(e) => e is IntegerOverflow && exists|i: int|
                (i < i64::MIN || i > i64::MAX) && 2 * abs(#[trigger] (i * pow2(1074)) - v.units())
                    <= pow2(1074),
        },
{
    rounding_is_to_the_nearest_integer(v);
    let args = seq![ValueView::Float { number: v, text }];
    assert(args.len() == 1 && args[0] == ValueView::Float { number: v, text });
    assert(2 * abs(crate::binary64::round_of(v) * pow2(1074) - v.units()) <= pow2(1074));
}

/// `round(i, n)` of an integer leaves it where `n` is not negative. Otherwise it
/// is the multiple of `10^-n` nearest to it, of two the even one, where 64 bits
/// hold it.
pub proof fn integers_round_to_near_multiples<C: EvalContext>(ctx: C, i: int, n: int)
    ensures
        ({
            let r = round_result(ctx, seq![ValueView::Int(i), ValueView::Int(n)]).1;
            let p = pow(10, abs(n));
            &&& n >= 0 ==> r == Ok::<ValueView, ErrorView>(ValueView::Int(i))
            &&& n < 0 ==> match r {
                Ok(ValueView::Int(m)) => m % p == 0 && 2 * abs(m - i) <= p && (2 * abs(m - i) == p ==> (
                m / p) % 2 == 0),
                Ok(_) => false,
                Err(e) => e is IntegerOverflow && exists|m: int|
                    (m < i64::MIN || m > i64::MAX) && #[trigger] (m % p) == 0 && 2 * abs(m - i) <= p,
            }
        }),
{
    let args = seq![ValueView::Int(i), ValueView::Int(n)];
    assert(args.len() == 2 && args[0] == ValueView::Int(i) && args[1] == ValueView::Int(n));
    if n < 0 {
        let p = pow(10, abs(n));
        lemma_pow_positive(10, abs(n));
        nearest_multiples_are_nearest(i, p, 0);
        let m = crate::functions::math::nearest_multiple(i, p);
        assert(m % p == 0);
    }
}

/// The steps of rounding to a multiple of `10^k`.
proof fn lemma_tens(v: FloatValue, k: nat) -> (h: nat)
    requires
        k < 17,
        v.magnitude < MIN_NORMAL * pow2(1074),
    ensures
        ({
            let t = pow(10, k) as nat;
            &&& rounded_to_tens(v, k) is Some
            &&& rounded_to_tens(v, k)->0.magnitude == h * t * pow2(1074)
            &&& h > 0 ==> rounded_to_tens(v, k)->0.negative == v.negative
            &&& SIGNIFICAND_BOUND * (2 * abs(h * t * pow2(1074) - v.magnitude)) <= SIGNIFICAND_BOUND * (t
                * pow2(1074)) + 4 * v.magnitude
            &&& h * t <= 0x40_0000_0000_0000
        }),
{
    let unit = pow2(1074);
    let t = pow(10, k) as nat;
    let vm = v.magnitude;
    let tu = t * unit;
    lemma_ten_power(k);
    lemma_pow2_pos(1074);
    lemma2_to64();
    lemma2_to64_rest();
    lemma_round_common(vm, t, unit);
    lemma_relative(vm, t);
    let q = round53(vm, t);
    let p: nat = SIGNIFICAND_BOUND as nat;
    let qt = q * t;
    assert(p * abs(qt - vm) <= vm + MIN_NORMAL * t);
    assert(MIN_NORMAL * t <= p * t) by (nonlinear_arith)
        requires
            p == 2 * MIN_NORMAL,
    ;
    assert(abs(qt - vm) <= vm + t) by (nonlinear_arith)
        requires
            p * abs(qt - vm) <= vm + p * t,
            p >= 1,
            vm >= 0,
    ;
    assert(q <= 2 * vm + t) by (nonlinear_arith)
        requires
            qt <= 2 * vm + t,
            qt == q * t,
            t >= 1,
    ;
    lemma_wide(unit);
    assert(quotient(v, ten_power(k)) == Some(FloatValue { negative: v.negative, magnitude: q })) by {
        assert(round53(vm * unit, tu) == q);
        assert(q < pow2(2098));
    }
    let h = nearest_even(q, unit);
    lemma_nearest_even(q, unit, 0);
    let whole = FloatValue { negative: v.negative, magnitude: q };
    assert(half_even(whole).magnitude == h * unit);
    let hu = h * unit;
    let goal = h * t * unit;
    assert(goal == hu * t) by (nonlinear_arith)
        requires
            goal == h * t * unit,
            hu == h * unit,
    ;
    assert(2 * abs(goal - qt) <= tu) by (nonlinear_arith)
        requires
            2 * abs(hu - q) <= unit,
            goal == hu * t,
            qt == q * t,
            tu == t * unit,
            t > 0,
    ;
    lemma_pow2_adds(128, 946);
    lemma_pow2_adds(64, 64);
    lemma_pow2_pos(946);
    if h == 0 {
        assert(0 * t == 0 && 0 * unit == 0);
    } else {
        assert(hu >= unit) by (nonlinear_arith)
            requires
                hu == h * unit,
                h >= 1,
        ;
        assert(qt >= q) by (nonlinear_arith)
            requires
                qt == q * t,
                t >= 1,
        ;
        assert(2 * qt >= unit);
    }
    // Half a unit of the quotient is nothing beside the number.
    assert(0x8_0000_0000_0000 * t <= unit && MIN_NORMAL * t <= unit) by (nonlinear_arith)
        requires
            unit == pow2(128) * pow2(946),
            pow2(128) == 0x1_0000_0000_0000_0000_0000_0000_0000_0000,
            pow2(946) >= 1,
            t <= 10_000_000_000_000_000,
            MIN_NORMAL == 0x10_0000_0000_0000,
    ;
    assert(MIN_NORMAL * (8 * t) <= unit) by (nonlinear_arith)
        requires
            unit == pow2(128) * pow2(946),
            pow2(128) == 0x1_0000_0000_0000_0000_0000_0000_0000_0000,
            pow2(946) >= 1,
            t <= 10_000_000_000_000_000,
            MIN_NORMAL == 0x10_0000_0000_0000,
    ;
    assert(tu >= unit) by (nonlinear_arith)
        requires
            tu == t * unit,
            t >= 1,
    ;
    if h == 0 {
        assert(2 * qt <= tu);
        if 4 * vm >= unit {
            assert(MIN_NORMAL * t <= vm) by (nonlinear_arith)
                requires
                    MIN_NORMAL * (8 * t) <= unit,
                    4 * vm >= unit,
            ;
            assert(p * (2 * abs(goal - vm)) <= p * tu + 4 * vm) by (nonlinear_arith)
                requires
                    p * abs(qt - vm) <= vm + MIN_NORMAL * t,
                    MIN_NORMAL * t <= vm,
                    2 * qt <= tu,
                    goal == 0,
                    qt >= 0,
                    vm >= 0,
                    p >= 0,
            ;
        } else {
            assert(2 * abs(goal - vm) <= tu);
            assert(p * (2 * abs(goal - vm)) <= p * tu) by (nonlinear_arith)
                requires
                    2 * abs(goal - vm) <= tu,
                    p >= 0,
            ;
        }
    } else {
        assert(MIN_NORMAL * t <= vm) by (nonlinear_arith)
            requires
                MIN_NORMAL * (8 * t) <= unit,
                2 * qt >= unit,
                abs(qt - vm) <= vm + t,
                t >= 1,
                MIN_NORMAL == 0x10_0000_0000_0000,
        ;
        assert(p * (2 * abs(goal - vm)) <= p * tu + 4 * vm) by (nonlinear_arith)
            requires
                p * abs(qt - vm) <= vm + MIN_NORMAL * t,
                MIN_NORMAL * t <= vm,
                2 * abs(goal - qt) <= tu,
                vm >= 0,
                p >= 0,
        ;
    }
    // The product is exact.
    let ht = h * t;
    assert(ht <= 0x40_0000_0000_0000 && (k == 0 ==> ht <= SIGNIFICAND_BOUND)) by {
        assert(2 * (ht * unit) <= tu + 2 * vm + vm) by {
            assert(p * (2 * abs(goal - vm)) <= p * tu + 4 * vm);
            assert(2 * abs(goal - vm) <= tu + vm) by (nonlinear_arith)
                requires
                    p * (2 * abs(goal - vm)) <= p * tu + 4 * vm,
                    p == 0x20_0000_0000_0000,
                    vm >= 0,
            ;
        }
        assert(2 * ht < t + 3 * MIN_NORMAL) by (nonlinear_arith)
            requires
                2 * (ht * unit) <= tu + 3 * vm,
                tu == t * unit,
                vm < MIN_NORMAL * unit,
                unit > 0,
        ;
        if k == 0 {
            lemma_pow0(10);
        }
    }
    lemma_ten_is_five_times_two(k);
    let five = pow(5, k) as nat;
    let hf = h * five;
    assert(ht == hf * pow2(k)) by (nonlinear_arith)
        requires
            ht == h * t,
            hf == h * five,
            t == five * pow2(k),
    ;
    lemma_pow2_pos(k);
    if k > 0 {
        lemma_pow2_unfold(k);
        lemma_pow2_pos((k - 1) as nat);
        assert(hf <= SIGNIFICAND_BOUND) by (nonlinear_arith)
            requires
                ht == hf * pow2(k),
                ht <= 0x40_0000_0000_0000,
                pow2(k) == 2 * pow2((k - 1) as nat),
                pow2((k - 1) as nat) >= 1,
                SIGNIFICAND_BOUND == 0x20_0000_0000_0000,
        ;
    } else {
        assert(hf == ht) by (nonlinear_arith)
            requires
                ht == hf * pow2(k),
                pow2(k) == 1,
        ;
    }
    lemma_pow2_adds(k, 1074);
    lemma_exact(hf, k + 1074);
    assert(goal == hf * pow2(k + 1074)) by (nonlinear_arith)
        requires
            goal == h * t * unit,
            h * t == hf * pow2(k),
            pow2(k + 1074) == pow2(k) * unit,
    ;
    lemma_round_common(goal, 1, unit);
    assert(1 * unit == unit);
    assert(hu * tu == goal * unit) by (nonlinear_arith)
        requires
            goal == hu * t,
            tu == t * unit,
    ;
    if h > 0 {
        assert(hu > 0);
        assert(round53(hu * tu, unit) == goal);
        assert(goal == ht * unit);
        assert(goal < pow2(2098)) by (nonlinear_arith)
            requires
                goal == ht * unit,
                ht <= 0x40_0000_0000_0000,
                0x1_0000_0000_0000_0000_0000_0000_0000_0000 * unit <= pow2(2098),
                unit > 0,
        ;
        assert(product(half_even(whole), ten_power(k)) == Some(
            FloatValue { negative: v.negative, magnitude: goal },
        ));
    }
    h
}

/// `round(v, -k)` of a number below 2^52 is a multiple of `10^k` within half of
/// it of `v`, up to a part in 2^52 of `v` for the steps of the computation.
pub proof fn rounding_to_tens_is_near<C: EvalContext>(
    ctx: C,
    v: FloatValue,
    text: Option<Seq<char>>,
    k: nat,
)
    requires
        v.magnitude < MIN_NORMAL * pow2(1074),
    ensures
        round_of_float(ctx, v, text, -(k as int)) matches Ok(ValueView::Int(i)) && {
            let t = pow(10, k);
            &&& i % t == 0
            &&& SIGNIFICAND_BOUND * (2 * abs(i * pow2(1074) - v.units())) <= SIGNIFICAND_BOUND * (t
                * pow2(1074)) + 4 * v.magnitude
        },
{
    let unit = pow2(1074);
    lemma_pow2_pos(1074);
    let args = seq![ValueView::Float { number: v, text }, ValueView::Int(-(k as int))];
    assert(args.len() == 2 && args[1] == ValueView::Int(-(k as int)));
    assert((-(-(k as int))) as nat == k);
    let t = pow(10, k);
    lemma_pow_positive(10, k);
    assert(!crate::functions::math::is_large(v));
    if k < 17 {
        let h = lemma_tens(v, k);
        let r = rounded_to_tens(v, k)->0;
        let ht = h * t;
        let i = if r.negative {
            -ht
        } else {
            ht
        };
        if h == 0 {
            assert(0 * t == 0 && 0 * unit == 0);
        }
        assert((-ht) * unit == -(ht * unit)) by (nonlinear_arith);
        assert(h * (t as nat) * unit == ht * unit);
        assert(r.units() == i * unit);
        vstd::arithmetic::div_mod::lemma_div_multiples_vanish(i, unit as int);
        assert(unit * i == i * unit) by (nonlinear_arith);
        assert(crate::binary64::floor_of(r) == i);
        vstd::arithmetic::div_mod::lemma_mod_multiples_basic(h as int, t);
        vstd::arithmetic::div_mod::lemma_mod_multiples_basic(-(h as int), t);
        assert((-(h as int)) * t == -ht) by (nonlinear_arith)
            requires
                ht == h * t,
        ;
        assert(abs(i * unit - v.units()) == abs(h * (t as nat) * unit - v.magnitude));
    } else {
        lemma_ten_powers();
        vstd::arithmetic::power::lemma_pow_increases(10, 17, k);
        lemma_pow_adds(10, 16, 1);
        lemma_pow1(10);
        assert(crate::binary64::floor_of(FloatValue { negative: false, magnitude: 0 }) == 0) by {
            vstd::arithmetic::div_mod::lemma_div_multiples_vanish(0, unit as int);
            assert(unit * 0 == 0);
        }
        assert(0int % t == 0) by {
            vstd::arithmetic::div_mod::lemma_mod_multiples_basic(0, t);
        }
        assert(0 * unit == 0);
        let tu = t * unit;
        assert(2 * v.magnitude <= tu) by (nonlinear_arith)
            requires
                v.magnitude < MIN_NORMAL * unit,
                MIN_NORMAL == 0x10_0000_0000_0000,
                t >= 100_000_000_000_000_000,
                tu == t * unit,
                unit > 0,
        ;
        assert(SIGNIFICAND_BOUND * (2 * v.magnitude) <= SIGNIFICAND_BOUND * tu) by (nonlinear_arith)
            requires
                2 * v.magnitude <= tu,
        ;
        assert(abs(0 * unit - v.units()) == v.magnitude);
    }
}

/// Numbers without a fraction, and places beyond the precision, are left as
/// they are.
pub proof fn precise_numbers_keep_their_value<C: EvalContext>(
    ctx: C,
    v: FloatValue,
    text: Option<Seq<char>>,
    n: int,
)
    requires
        0 < n <= MAX_ROUND_NDIGITS,
        n >= 17 || v.magnitude >= MIN_NORMAL * pow2(1074),
    ensures
        round_of_float(ctx, v, text, n) matches Ok(r) ==> r matches ValueView::Float {
            number,
            text: _,
        } && number == v,
        round_of_float(ctx, v, text, n) is Err ==> ctx.string_error(n as nat) is Some || exists|bytes: nat|
            (#[trigger] ctx.after_string(n as nat).memory_error(bytes)) is Some,
{
    let args = seq![ValueView::Float { number: v, text }, ValueView::Int(n)];
    assert(args.len() == 2 && args[1] == ValueView::Int(n));
}

/// The digits of a number, high and low, spell it.
proof fn lemma_fixed_digits(n: nat, places: nat)
    ensures
        digits_value(decimal(high_part(n, places)) + low_digits(n, places)) == Some(n),
        low_digits(n, places).len() == places,
        decimal(high_part(n, places)).len() > 0,
    decreases places,
{
    let text = decimal(high_part(n, places)) + low_digits(n, places);
    if places == 0 {
        crate::text::lemma_decimal_reads_back(n);
        assert(text =~= decimal(n));
    } else {
        lemma_fixed_digits(n / 10, (places - 1) as nat);
        let shorter = decimal(high_part(n / 10, (places - 1) as nat)) + low_digits(
            n / 10,
            (places - 1) as nat,
        );
        assert(text.drop_last() =~= shorter);
        assert(text.last() == digit(n % 10));
    }
}

/// Whether a text has its point before the last `places` characters and spells
/// `k` without it.
pub open spec fn spells_decimal(text: Seq<char>, places: nat, k: nat) -> bool {
    let point = text.len() - 1 - places;
    &&& 0 < point < text.len()
    &&& text[point] == '.'
    &&& digits_value(text.take(point) + text.skip(point + 1)) == Some(k)
}

/// A text without its first character where that is a sign.
pub open spec fn without_sign(text: Seq<char>, signed: bool) -> Seq<char> {
    if signed {
        text.skip(1)
    } else {
        text
    }
}

/// Whether a text has a sign where a number is negative, and spells the decimal
/// of so many places that is nearest to the number, of two the even one.
pub open spec fn shows_places(text: Seq<char>, a: FloatValue, places: nat) -> bool {
    let exact = a.magnitude * pow(10, places);
    &&& a.negative ==> text.len() > 0 && text[0] == '-'
    &&& exists|k: nat| #[trigger]
        spells_decimal(without_sign(text, a.negative), places, k) && 2 * abs(k * pow2(1074) - exact)
            <= pow2(1074) && (2 * abs(k * pow2(1074) - exact) == pow2(1074) ==> k % 2 == 0)
}

/// The text of a number with a fixed number of decimal places has a sign where
/// the number is negative, and spells the decimal of so many places that is
/// nearest to the number, of two the even one.
pub proof fn fixed_texts_spell_the_nearest_decimal(a: FloatValue, places: nat)
    requires
        places > 0,
    ensures
        shows_places(fixed_point(a, places), a, places),
{
    let unit = pow2(1074);
    lemma_pow2_pos(1074);
    lemma_pow_positive(10, places);
    let n = a.magnitude * (pow(10, places) as nat);
    let k = nearest_even(n, unit);
    lemma_nearest_even(n, unit, 0);
    lemma_fixed_digits(k, places);
    let body = fixed(k, places);
    let high = decimal(high_part(k, places));
    let low = low_digits(k, places);
    let point = body.len() - 1 - places;
    assert(point == high.len());
    assert(body.take(point) =~= high);
    assert(body.skip(point + 1) =~= low);
    assert(spells_decimal(body, places, k));
    assert(without_sign(fixed_point(a, places), a.negative) =~= body);
}

/// `round(v, n)` is displayed as the decimal with `n` places that is nearest to
/// it.
pub proof fn rounded_numbers_show_their_places<C: EvalContext>(
    ctx: C,
    v: FloatValue,
    text: Option<Seq<char>>,
    n: int,
)
    requires
        0 < n <= 1074,
    ensures
        match round_of_float(ctx, v, text, n) {
            Ok(ValueView::Float { number, text: Some(shown) }) => shows_places(shown, number, n as nat),
            Ok(_) => false,
            Err(_) => true,
        },
{
    let args = seq![ValueView::Float { number: v, text }, ValueView::Int(n)];
    assert(args.len() == 2 && args[1] == ValueView::Int(n));
    if let Some(number) = rounded_to_places(v, n as nat) {
        fixed_texts_spell_the_nearest_decimal(number, n as nat);
        let shown = fixed_point(number, n as nat);
        assert(crate::functions::math::places_text(number, n as nat) =~= shown);
        assert(round_of_float(ctx, v, text, n) matches Ok(r) ==> r == (ValueView::Float {
            number,
            text: Some(shown),
        }));
        assert(shows_places(shown, number, n as nat));
    }
}

} // verus!
