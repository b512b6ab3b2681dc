//! The shortest decimal text of a binary64 number.
//!
//! A number is written with as few significant digits as will read back as
//! the same number, and with the nearest such digits.

use vstd::arithmetic::power::{
    lemma_pow0, lemma_pow1, lemma_pow_adds, lemma_pow_positive, pow,
};
use vstd::arithmetic::power2::{lemma_pow2_adds, lemma_pow2_pos, lemma_pow2_unfold, pow2};
use vstd::prelude::*;

use crate::binary64::{
    decoded, lemma_round53, nearest_even, round53, Binary64, FloatValue, MAX_SCALE, MIN_NORMAL,
    SIGNIFICAND_BOUND,
};
use crate::decimal::{digit_count, lemma_seventeen, nearest, Digits, Ties};
use crate::text::{decimal, push_decimal, push_wide_decimal};

verus! {

/// 5^1074: with it, a multiple of 2^-1074 is a whole number of 10^-1074.
pub open spec fn five_power() -> nat {
    pow(5, 1074) as nat
}

/// Whether `x` units of 10^-1074 read back as a number of this magnitude.
pub open spec fn reads_as(x: nat, magnitude: nat) -> bool {
    round53(x, five_power()) == magnitude
}

/// Rounding to 53 bits does not cross a power of two.
proof fn lemma_round53_power(x: nat, d: nat, j: nat)
    requires
        d > 0,
    ensures
        x < d * pow2(j) ==> round53(x, d) <= pow2(j),
        x >= d * pow2(j) ==> round53(x, d) >= pow2(j),
    decreases x - d,
{
    lemma_pow2_pos(j);
    if x < d * SIGNIFICAND_BOUND {
        let q = x / d;
        vstd::arithmetic::div_mod::lemma_fundamental_div_mod(x as int, d as int);
        if x < d * pow2(j) {
            assert(q < pow2(j)) by (nonlinear_arith)
                requires
                    x < d * pow2(j),
                    x == d * q + x % d,
                    x % d >= 0,
                    d > 0,
            ;
        } else {
            assert(q >= pow2(j)) by (nonlinear_arith)
                requires
                    x >= d * pow2(j),
                    x == d * q + x % d,
                    x % d < d,
                    d > 0,
            ;
        }
    } else {
        vstd::arithmetic::power2::lemma2_to64();
        vstd::arithmetic::power2::lemma2_to64_rest();
        if j == 0 {
            assert(d * 1 == d);
            assert(d * SIGNIFICAND_BOUND >= d) by (nonlinear_arith);
            assert(d * SIGNIFICAND_BOUND >= 2 * d) by (nonlinear_arith);
            lemma_round53_power(x, 2 * d, 0);
            assert(2 * d * 1 == 2 * d);
        } else {
            lemma_pow2_unfold(j);
            lemma_round53_power(x, 2 * d, (j - 1) as nat);
            assert(2 * d * pow2((j - 1) as nat) == d * pow2(j)) by (nonlinear_arith)
                requires
                    pow2(j) == 2 * pow2((j - 1) as nat),
            ;
        }
    }
}

/// A quotient rounds to `sig` between the halves around it.
proof fn lemma_nearest_interval(x: nat, p: nat, sig: nat)
    requires
        p > 0,
        sig > 0,
    ensures
        (nearest_even(x, p) == sig) == (if sig % 2 == 0 {
            (2 * sig - 1) * p <= 2 * x <= (2 * sig + 1) * p
        } else {
            (2 * sig - 1) * p < 2 * x < (2 * sig + 1) * p
        }),
{
    let q = x / p;
    let r = x % p;
    vstd::arithmetic::div_mod::lemma_fundamental_div_mod(x as int, p as int);
    assert((2 * sig - 1) * p == 2 * (sig * p) - p) by (nonlinear_arith);
    assert((2 * sig + 1) * p == 2 * (sig * p) + p) by (nonlinear_arith);
    assert(p * q == q * p) by (nonlinear_arith);
    if q >= sig + 1 {
        assert(q * p >= sig * p + p) by (nonlinear_arith)
            requires
                q >= sig + 1,
                p > 0,
        ;
    } else if q == sig {
    } else if q == sig - 1 {
        assert(q * p == sig * p - p) by (nonlinear_arith)
            requires
                q == sig - 1,
        ;
    } else {
        assert(q * p <= sig * p - 2 * p) by (nonlinear_arith)
            requires
                q <= sig - 2,
                p > 0,
        ;
    }
}

/// What reads back as a number, but for the lower side of a power of two.
proof fn lemma_reads_inside(x: nat, sig: nat, s: nat)
    requires
        0 < sig < SIGNIFICAND_BOUND,
        s == 0 || sig > MIN_NORMAL,
    ensures
        reads_as(x, sig * pow2(s)) == (nearest_even(x, five_power() * pow2(s)) == sig),
{
    let d = five_power();
    let p = d * pow2(s);
    lemma_pow_positive(5, 1074);
    lemma_pow2_pos(s);
    assert(p > 0) by (nonlinear_arith)
        requires
            p == d * pow2(s),
            d > 0,
            pow2(s) > 0,
    ;
    vstd::arithmetic::power2::lemma2_to64();
    vstd::arithmetic::power2::lemma2_to64_rest();
    lemma_pow2_adds(53, s);
    lemma_pow2_adds(52, s);
    let m = sig * pow2(s);
    assert(d * pow2(s + 53) == p * SIGNIFICAND_BOUND) by (nonlinear_arith)
        requires
            p == d * pow2(s),
            pow2(s + 53) == SIGNIFICAND_BOUND * pow2(s),
    ;
    assert(d * pow2(s + 52) == p * MIN_NORMAL) by (nonlinear_arith)
        requires
            p == d * pow2(s),
            pow2(s + 52) == MIN_NORMAL * pow2(s),
    ;
    let q = x / p;
    vstd::arithmetic::div_mod::lemma_fundamental_div_mod(x as int, p as int);
    if x >= p * SIGNIFICAND_BOUND {
        lemma_round53_power(x, d, s + 53);
        assert(m < pow2(s + 53)) by (nonlinear_arith)
            requires
                m == sig * pow2(s),
                sig < SIGNIFICAND_BOUND,
                pow2(s) > 0,
                pow2(s + 53) == SIGNIFICAND_BOUND * pow2(s),
        ;
        assert(q >= SIGNIFICAND_BOUND) by (nonlinear_arith)
            requires
                x >= p * SIGNIFICAND_BOUND,
                x == p * q + x % p,
                x % p < p,
                p > 0,
        ;
    } else if s > 0 && x < p * MIN_NORMAL {
        lemma_round53_power(x, d, s + 52);
        assert(m > pow2(s + 52)) by (nonlinear_arith)
            requires
                m == sig * pow2(s),
                sig > MIN_NORMAL,
                pow2(s) > 0,
                pow2(s + 52) == MIN_NORMAL * pow2(s),
        ;
        assert(q < MIN_NORMAL) by (nonlinear_arith)
            requires
                x < p * MIN_NORMAL,
                x == p * q + x % p,
                x % p >= 0,
                p > 0,
        ;
    } else {
        assert(d * pow2(s) * SIGNIFICAND_BOUND == p * SIGNIFICAND_BOUND);
        lemma_round53(x, d, s);
        let near = nearest_even(x, p);
        assert((near * pow2(s) == sig * pow2(s)) == (near == sig)) by (nonlinear_arith)
            requires
                pow2(s) > 0,
        ;
    }
}

/// What reads back as a power of two: its lower neighbour is half as far away
/// as its upper one.
proof fn lemma_reads_at_power(x: nat, s: nat)
    requires
        s > 0,
    ensures
        reads_as(x, MIN_NORMAL as nat * pow2(s)) == (2 * x <= (2 * MIN_NORMAL + 1) * (five_power() * pow2(s))
            && 4 * x >= (4 * MIN_NORMAL - 1) * (five_power() * pow2(s))),
{
    let d = five_power();
    let p = d * pow2(s);
    let half = d * pow2((s - 1) as nat);
    let m = MIN_NORMAL as nat * pow2(s);
    lemma_pow_positive(5, 1074);
    lemma_pow2_pos(s);
    lemma_pow2_pos((s - 1) as nat);
    lemma_pow2_unfold(s);
    vstd::arithmetic::power2::lemma2_to64();
    vstd::arithmetic::power2::lemma2_to64_rest();
    assert(p == 2 * half && half > 0) by (nonlinear_arith)
        requires
            p == d * pow2(s),
            half == d * pow2((s - 1) as nat),
            pow2(s) == 2 * pow2((s - 1) as nat),
            d > 0,
            pow2((s - 1) as nat) > 0,
    ;
    lemma_pow2_adds(53, s);
    lemma_pow2_adds(52, s);
    lemma_pow2_adds(52, (s - 1) as nat);
    assert(d * pow2(s + 53) == p * SIGNIFICAND_BOUND) by (nonlinear_arith)
        requires
            p == d * pow2(s),
            pow2(s + 53) == SIGNIFICAND_BOUND * pow2(s),
    ;
    assert(d * pow2(s + 52) == p * MIN_NORMAL) by (nonlinear_arith)
        requires
            p == d * pow2(s),
            pow2(s + 52) == MIN_NORMAL * pow2(s),
    ;
    assert(d * pow2((s + 51) as nat) == half * MIN_NORMAL) by (nonlinear_arith)
        requires
            half == d * pow2((s - 1) as nat),
            pow2((s + 51) as nat) == MIN_NORMAL * pow2((s - 1) as nat),
    ;
    assert((2 * MIN_NORMAL + 1) * p == 2 * (p * MIN_NORMAL) + p) by (nonlinear_arith);
    assert((4 * MIN_NORMAL - 1) * p == 4 * (p * MIN_NORMAL) - p) by (nonlinear_arith);
    if x >= p * SIGNIFICAND_BOUND {
        lemma_round53_power(x, d, s + 53);
        assert(m < pow2(s + 53));
        assert(p * SIGNIFICAND_BOUND == 2 * (p * MIN_NORMAL)) by (nonlinear_arith);
        assert(p * MIN_NORMAL > p) by (nonlinear_arith)
            requires
                p > 0,
        ;
    } else if x >= p * MIN_NORMAL {
        assert(d * pow2(s) * SIGNIFICAND_BOUND == p * SIGNIFICAND_BOUND);
        assert(d * pow2(s) * MIN_NORMAL == p * MIN_NORMAL);
        lemma_round53(x, d, s);
        lemma_nearest_interval(x, p, MIN_NORMAL as nat);
        assert((2 * MIN_NORMAL - 1) * p <= 2 * (p * MIN_NORMAL)) by (nonlinear_arith)
            requires
                p > 0,
        ;
        let near = nearest_even(x, p);
        assert((near * pow2(s) == MIN_NORMAL * pow2(s)) == (near == MIN_NORMAL)) by (nonlinear_arith)
            requires
                pow2(s) > 0,
        ;
    } else if x >= half * MIN_NORMAL || s == 1 {
        assert(d * pow2((s - 1) as nat) * SIGNIFICAND_BOUND == half * SIGNIFICAND_BOUND);
        assert(half * SIGNIFICAND_BOUND == p * MIN_NORMAL) by (nonlinear_arith)
            requires
                p == 2 * half,
        ;
        lemma_round53(x, d, (s - 1) as nat);
        let near = nearest_even(x, half);
        lemma_nearest_interval(x, half, SIGNIFICAND_BOUND as nat);
        let w = pow2((s - 1) as nat);
        assert((near * w == m) == (near == SIGNIFICAND_BOUND)) by (nonlinear_arith)
            requires
                m == MIN_NORMAL * pow2(s),
                pow2(s) == 2 * w,
                w > 0,
        ;
        assert((2 * SIGNIFICAND_BOUND - 1) * half == 2 * (p * MIN_NORMAL) - half) by (nonlinear_arith)
            requires
                p == 2 * half,
        ;
        assert((2 * SIGNIFICAND_BOUND + 1) * half == 2 * (p * MIN_NORMAL) + half) by (nonlinear_arith)
            requires
                p == 2 * half,
        ;
    } else {
        lemma_round53_power(x, d, (s + 51) as nat);
        assert(m > pow2((s + 51) as nat)) by (nonlinear_arith)
            requires
                m == MIN_NORMAL * pow2(s),
                pow2(s) == 2 * pow2((s - 1) as nat),
                pow2((s + 51) as nat) == MIN_NORMAL * pow2((s - 1) as nat),
                pow2((s - 1) as nat) > 0,
        ;
        assert(4 * (half * MIN_NORMAL) == 2 * (p * MIN_NORMAL)) by (nonlinear_arith)
            requires
                p == 2 * half,
        ;
        assert(p * MIN_NORMAL > p) by (nonlinear_arith)
            requires
                p > 0,
        ;
    }
}

/// A magnitude as a whole number of 10^-1074.
pub open spec fn expansion(magnitude: nat) -> nat {
    magnitude * five_power()
}

/// The digits with which a magnitude is written, and how many digits are cut
/// off: of the decimals with `n` digits the nearest one, or else its neighbour
/// on the other side, if it reads back; otherwise with one digit more.
/// Seventeen digits are not exceeded.
pub open spec fn shortest(magnitude: nat, n: nat, ties: Ties) -> (nat, nat)
    decreases 17 - n,
{
    let exact = expansion(magnitude);
    let cut = (digit_count(exact) - n) as nat;
    let unit = pow(10, cut) as nat;
    let near = nearest(exact, unit, ties);
    let other = if near == exact / unit {
        near + 1
    } else {
        exact / unit
    };
    if n >= 17 || reads_as(near * unit, magnitude) {
        (near, cut)
    } else if reads_as(other * unit, magnitude) {
        (other, cut)
    } else {
        shortest(magnitude, n + 1, ties)
    }
}

/// Digits without their trailing zeros, which are cut off as well.
pub open spec fn trimmed(digits: nat, cut: nat) -> (nat, nat)
    decreases digits,
{
    if digits > 0 && digits % 10 == 0 {
        trimmed(digits / 10, cut + 1)
    } else {
        (digits, cut)
    }
}

/// The digits with which a magnitude is written, and the zeros that follow them
/// in units of 10^-1074.
pub open spec fn written_digits(magnitude: nat, ties: Ties) -> (nat, nat) {
    let parts = shortest(magnitude, 1, ties);
    trimmed(parts.0, parts.1)
}

/// The significant digits of a magnitude and the position of the decimal point
/// after them.
pub open spec fn significant(magnitude: nat, ties: Ties) -> (Seq<char>, int) {
    let short = written_digits(magnitude, ties);
    let digits = decimal(short.0);
    (digits, digits.len() + short.1 - 1074)
}

pub open spec fn zeros(n: nat) -> Seq<char> {
    Seq::new(n, |i: int| '0')
}

/// Digits with a decimal point after the first `point` of them.
pub open spec fn positional(digits: Seq<char>, point: int, whole_tail: Seq<char>) -> Seq<char> {
    if point <= 0 {
        seq!['0', '.'] + zeros((-point) as nat) + digits
    } else if point >= digits.len() {
        digits + zeros((point - digits.len()) as nat) + whole_tail
    } else {
        digits.take(point).push('.') + digits.skip(point)
    }
}

/// An exponent with its sign and at least two digits.
pub open spec fn exponent_text(e: int) -> Seq<char> {
    let size = (if e < 0 {
        -e
    } else {
        e
    }) as nat;
    seq!['e', if e < 0 { '-' } else { '+' }] + if size < 10 {
        seq!['0'] + decimal(size)
    } else {
        decimal(size)
    }
}

/// Digits in scientific notation.
pub open spec fn scientific(digits: Seq<char>, point: int) -> Seq<char> {
    let mantissa = if digits.len() == 1 {
        digits
    } else {
        digits.take(1).push('.') + digits.skip(1)
    };
    mantissa + exponent_text(point - 1)
}

pub open spec fn signed_text(negative: bool, text: Seq<char>) -> Seq<char> {
    if negative {
        seq!['-'] + text
    } else {
        text
    }
}

/// The text of a number: positional from 0.0001 up to below 10^16, and
/// scientific outside. A whole number ends in `.0`. Of two decimals that are
/// equally near the even one is written.
pub open spec fn float_text(f: FloatValue) -> Seq<char> {
    signed_text(
        f.negative,
        if f.magnitude == 0 {
            seq!['0', '.', '0']
        } else {
            let (digits, point) = significant(f.magnitude, Ties::ToEven);
            if -4 < point <= 16 {
                positional(digits, point, seq!['.', '0'])
            } else {
                scientific(digits, point)
            }
        },
    )
}

/// The text of a number without an exponent; a whole number has no point. Of
/// two decimals that are equally near the larger one is written.
pub open spec fn plain_float_text(f: FloatValue) -> Seq<char> {
    signed_text(
        f.negative,
        if f.magnitude == 0 {
            seq!['0']
        } else {
            let (digits, point) = significant(f.magnitude, Ties::Away);
            positional(digits, point, seq![])
        },
    )
}

/// A number of at least 10^k has more than k digits.
proof fn lemma_digit_count_lower(n: nat, k: nat)
    requires
        n >= pow(10, k),
    ensures
        digit_count(n) > k,
    decreases k,
{
    lemma_pow0(10);
    if k > 0 {
        lemma_pow_adds(10, 1, (k - 1) as nat);
        lemma_pow1(10);
        lemma_pow_positive(10, (k - 1) as nat);
        lemma_digit_count_lower(n / 10, (k - 1) as nat);
    }
}

/// The expansion of a magnitude has more than seventeen digits.
proof fn lemma_expansion_long(magnitude: nat)
    requires
        magnitude > 0,
    ensures
        digit_count(expansion(magnitude)) > 17,
{
    assert(pow(5, 25) == 298_023_223_876_953_125) by {
        assert(pow(5, 5) == 3125) by {
            reveal(pow);
            reveal_with_fuel(pow, 6);
        }
        lemma_pow_adds(5, 5, 5);
        assert(pow(5, 10) == 9_765_625) by (nonlinear_arith)
            requires
                pow(5, 10) == pow(5, 5) * pow(5, 5),
                pow(5, 5) == 3125,
        ;
        lemma_pow_adds(5, 10, 10);
        assert(pow(5, 20) == 95_367_431_640_625) by (nonlinear_arith)
            requires
                pow(5, 20) == pow(5, 10) * pow(5, 10),
                pow(5, 10) == 9_765_625,
        ;
        lemma_pow_adds(5, 20, 5);
        assert(pow(5, 25) == 298_023_223_876_953_125) by (nonlinear_arith)
            requires
                pow(5, 25) == pow(5, 20) * pow(5, 5),
                pow(5, 20) == 95_367_431_640_625,
                pow(5, 5) == 3125,
        ;
    }
    vstd::arithmetic::power::lemma_pow_increases(5, 25, 1074);
    assert(magnitude * five_power() >= five_power()) by (nonlinear_arith)
        requires
            magnitude >= 1,
    ;
    lemma_seventeen(17);
    lemma_digit_count_lower(expansion(magnitude), 17);
}

/// A small number times 5^1074 and a power of two.
fn scaled_units(n: u64, scale: u16) -> (r: Digits)
    requires
        scale <= MAX_SCALE,
    ensures
        r.valid(),
        r.value() == n as nat * (five_power() * pow2(scale as nat)),
{
    let mut digits = Digits::from_u64(n);
    digits.scale_by_power(25, 537);
    let fours: u32 = (scale / 4) as u32;
    let ones: u32 = (scale % 4) as u32;
    digits.scale_by_power(16, fours);
    digits.scale_by_power(2, ones);
    proof {
        vstd::arithmetic::power::lemma_pow_multiplies(5, 2, 537);
        vstd::arithmetic::power::lemma_pow_multiplies(2, 4, fours as nat);
        assert(pow(5, 2) == 25 && pow(2, 4) == 16) by {
            reveal(pow);
            reveal_with_fuel(pow, 5);
        }
        lemma_pow_adds(2, (4 * fours) as nat, ones as nat);
        vstd::arithmetic::power2::lemma_pow2(scale as nat);
        let five = five_power();
        let (a, b) = (pow(16, fours as nat), pow(2, ones as nat));
        lemma_pow_positive(5, 1074);
        assert(n * five * a * b == n * (five * (a * b))) by (nonlinear_arith);
    }
    digits
}

/// The decimals that read back as a number: those between four times whose
/// bounds they lie, in units of 10^-1074.
struct Window {
    low: Digits,
    high: Digits,
    closed: bool,
}

impl Window {
    spec fn admits(self, x: nat) -> bool {
        if self.closed {
            self.low.value() <= 4 * x <= self.high.value()
        } else {
            self.low.value() < 4 * x < self.high.value()
        }
    }

    spec fn of(self, magnitude: nat) -> bool {
        &&& self.low.valid()
        &&& self.high.valid()
        &&& forall|x: nat| #[trigger] self.admits(x) == reads_as(x, magnitude)
    }

    fn new(significand: u64, scale: u16) -> (r: Window)
        requires
            0 < significand < SIGNIFICAND_BOUND,
            scale <= MAX_SCALE,
            scale > 0 ==> significand >= MIN_NORMAL,
        ensures
            r.of(significand as nat * pow2(scale as nat)),
    {
        let at_power = scale > 0 && significand == MIN_NORMAL;
        let low = scaled_units(
            if at_power {
                4 * significand - 1
            } else {
                4 * significand - 2
            },
            scale,
        );
        let high = scaled_units(4 * significand + 2, scale);
        let closed = significand % 2 == 0;
        let r = Window { low, high, closed };
        proof {
            let sig = significand as nat;
            let p = five_power() * pow2(scale as nat);
            lemma_pow_positive(5, 1074);
            lemma_pow2_pos(scale as nat);
            assert(p > 0) by (nonlinear_arith)
                requires
                    p == five_power() * pow2(scale as nat),
                    five_power() > 0,
                    pow2(scale as nat) > 0,
            ;
            assert forall|x: nat| #[trigger] r.admits(x) == reads_as(x, sig * pow2(scale as nat)) by {
                if at_power {
                    lemma_reads_at_power(x, scale as nat);
                    assert((4 * sig + 2) * p == 2 * ((2 * sig + 1) * p)) by (nonlinear_arith);
                } else {
                    lemma_reads_inside(x, sig, scale as nat);
                    lemma_nearest_interval(x, p, sig);
                    assert((4 * sig - 2) * p == 2 * ((2 * sig - 1) * p)) by (nonlinear_arith);
                    assert((4 * sig + 2) * p == 2 * ((2 * sig + 1) * p)) by (nonlinear_arith);
                }
            }
        }
        r
    }

    /// Whether `digits * 10^cut` reads back.
    fn holds(&self, digits: u64, cut: usize, Ghost(magnitude): Ghost<nat>) -> (r: bool)
        requires
            self.of(magnitude),
        ensures
            r == reads_as((digits * pow(10, cut as nat)) as nat, magnitude),
    {
        let mut small = Digits::from_u64(digits);
        small.scale_by_power(4, 1);
        let x = small.shift_up(cut);
        proof {
            lemma_pow1(4);
            lemma_pow_positive(10, cut as nat);
            let ten = pow(10, cut as nat);
            let exact = (digits * ten) as nat;
            assert(digits * 4 * ten == 4 * (digits * ten)) by (nonlinear_arith);
            assert(digits * ten >= 0) by (nonlinear_arith)
                requires
                    ten > 0,
            ;
            assert(self.admits(exact) == reads_as(exact, magnitude));
        }
        if self.closed {
            self.low.at_most(&x) && x.at_most(&self.high)
        } else {
            !x.at_most(&self.low) && !self.high.at_most(&x)
        }
    }
}

/// The fewest digits that read back as a number other than zero.
fn find_shortest(f: &Binary64, ties: Ties) -> (r: (u64, usize))
    requires
        f@.magnitude > 0,
    ensures
        (r.0 as nat, r.1 as nat) == shortest(f@.magnitude, 1, ties),
        r.0 <= 100_000_000_000_000_000,
{
    let (significand, scale) = f.parts();
    let ghost m = f@.magnitude;
    proof {
        lemma_pow2_pos(scale as nat);
        if significand == 0 {
            assert(0 * pow2(scale as nat) == 0);
        }
    }
    let window = Window::new(significand, scale);
    let mut exact = scaled_units(significand, scale);
    let len: usize = exact.normalize();
    proof {
        lemma_expansion_long(m);
        let (a, b, c) = (significand as nat, five_power(), pow2(scale as nat));
        assert(a * (b * c) == a * c * b) by (nonlinear_arith);
    }
    let mut n: usize = 1;
    loop
        invariant
            1 <= n <= 17,
            len > 17,
            m == f@.magnitude,
            exact.valid(),
            exact.len() == len,
            exact.value() == expansion(m),
            len == digit_count(expansion(m)),
            window.of(m),
            shortest(m, n as nat, ties) == shortest(m, 1, ties),
        decreases 17 - n,
    {
        let cut: usize = len - n;
        let (floor, near) = exact.leading(cut, ties);
        proof {
            lemma_pow_positive(10, cut as nat);
        }
        if n == 17 || window.holds(near, cut, Ghost(m)) {
            return (near, cut);
        }
        let other: u64 = if near == floor {
            near + 1
        } else {
            floor
        };
        if window.holds(other, cut, Ghost(m)) {
            return (other, cut);
        }
        n = n + 1;
    }
}

/// Digits and a cut without trailing zeros.
fn trim(digits: u64, cut: u128) -> (r: (u64, u128))
    requires
        cut <= u64::MAX,
    ensures
        (r.0 as nat, r.1 as nat) == trimmed(digits as nat, cut as nat),
        r.1 <= cut + 20,
{
    let mut d: u64 = digits;
    let mut e: u128 = cut;
    let ghost mut k: nat = 0;
    proof {
        lemma_pow0(10);
    }
    while d > 0 && d % 10 == 0
        invariant
            trimmed(d as nat, e as nat) == trimmed(digits as nat, cut as nat),
            e == cut + k,
            k <= 20,
            d > 0 ==> d * pow(10, k) <= digits,
            cut <= u64::MAX,
        decreases d,
    {
        proof {
            lemma_pow_adds(10, k, 1);
            lemma_pow1(10);
            lemma_pow_positive(10, k);
            let (p, h) = (pow(10, k), d / 10);
            assert(h * (p * 10) <= digits) by (nonlinear_arith)
                requires
                    d * p <= digits,
                    d == 10 * h,
            ;
            if k == 20 {
                assert(pow(10, 20) > u64::MAX) by {
                    crate::functions::math::lemma_ten_powers();
                }
                assert(d * p >= p) by (nonlinear_arith)
                    requires
                        d >= 1,
                        p > 0,
                ;
            }
            k = k + 1;
        }
        d = d / 10;
        e = e + 1;
    }
    (d, e)
}

/// The significant digits of a number other than zero and the position of its
/// decimal point.
fn find_significant(f: &Binary64, ties: Ties) -> (r: (String, i128))
    requires
        f@.magnitude > 0,
    ensures
        (r.0@, r.1 as int) == significant(f@.magnitude, ties),
        r.0@.len() > 0,
        -0x1_0000_0000_0000_0000 < r.1 < 0x4_0000_0000_0000_0000,
{
    let (digits, cut) = find_shortest(f, ties);
    let (d, e) = trim(digits, cut as u128);
    let mut text = String::new();
    push_decimal(&mut text, d);
    proof {
        assert(text@ =~= decimal(d as nat));
        lemma_decimal_len(d as nat);
    }
    let point: i128 = text.as_str().unicode_len() as i128 + e as i128 - 1074;
    (text, point)
}

/// A number in decimal is not empty.
proof fn lemma_decimal_len(n: nat)
    ensures
        decimal(n).len() > 0,
    decreases n,
{
    if n >= 10 {
        lemma_decimal_len(n / 10);
    }
}

fn push_zeros(out: &mut String, count: i128)
    requires
        0 <= count,
    ensures
        final(out)@ == old(out)@ + zeros(count as nat),
{
    let ghost start = out@;
    let mut i: i128 = 0;
    while i < count
        invariant
            0 <= i <= count,
            out@ == start + zeros(i as nat),
        decreases count - i,
    {
        out.push('0');
        i = i + 1;
    }
}

fn push_positional(out: &mut String, digits: &str, point: i128, tail: &str)
    requires
        -0x1_0000_0000_0000_0000 < point < 0x4_0000_0000_0000_0000,
    ensures
        final(out)@ == old(out)@ + positional(digits@, point as int, tail@),
{
    let ghost start = out@;
    let len: usize = digits.unicode_len();
    if point <= 0 {
        out.push('0');
        out.push('.');
        push_zeros(out, -point);
        out.append(digits);
    } else if point >= len as i128 {
        out.append(digits);
        push_zeros(out, point - len as i128);
        out.append(tail);
    } else {
        out.append(digits.substring_char(0, point as usize));
        out.push('.');
        out.append(digits.substring_char(point as usize, len));
        proof {
            assert(digits@.subrange(0, point as int) =~= digits@.take(point as int));
            assert(digits@.subrange(point as int, len as int) =~= digits@.skip(point as int));
        }
    }
    assert(out@ =~= start + positional(digits@, point as int, tail@));
}

fn push_scientific(out: &mut String, digits: &str, point: i128)
    requires
        -0x1_0000_0000_0000_0000 < point < 0x4_0000_0000_0000_0000,
        digits@.len() > 0,
    ensures
        final(out)@ == old(out)@ + scientific(digits@, point as int),
{
    let ghost start = out@;
    let len: usize = digits.unicode_len();
    if len == 1 {
        out.append(digits);
    } else {
        out.append(digits.substring_char(0, 1));
        out.push('.');
        out.append(digits.substring_char(1, len));
        proof {
            assert(digits@.subrange(0, 1) =~= digits@.take(1));
            assert(digits@.subrange(1, len as int) =~= digits@.skip(1));
        }
    }
    let e: i128 = point - 1;
    out.push('e');
    out.push(
        if e < 0 {
            '-'
        } else {
            '+'
        },
    );
    let size: u128 = (if e < 0 {
        -e
    } else {
        e
    }) as u128;
    if size < 10 {
        out.push('0');
    }
    push_wide_decimal(out, size);
    assert(out@ =~= start + scientific(digits@, point as int));
}

/// Appends the shortest text of a number.
pub fn push_float(out: &mut String, f: &Binary64)
    ensures
        final(out)@ == old(out)@ + float_text(f@),
{
    let ghost start = out@;
    if f.negative() {
        out.push('-');
    }
    if f.is_zero() {
        out.push('0');
        out.push('.');
        out.push('0');
    } else {
        let (digits, point) = find_significant(f, Ties::ToEven);
        if -4 < point && point <= 16 {
            proof {
                reveal_strlit(".0");
                assert(".0"@ =~= seq!['.', '0']);
            }
            push_positional(out, digits.as_str(), point, ".0");
        } else {
            push_scientific(out, digits.as_str(), point);
        }
    }
    assert(out@ =~= start + float_text(f@));
}

/// Appends the shortest text of a number without an exponent.
pub fn push_plain_float(out: &mut String, f: &Binary64)
    ensures
        final(out)@ == old(out)@ + plain_float_text(f@),
{
    let ghost start = out@;
    if f.negative() {
        out.push('-');
    }
    if f.is_zero() {
        out.push('0');
    } else {
        let (digits, point) = find_significant(f, Ties::Away);
        proof {
            reveal_strlit("");
            assert(""@ =~= seq![]);
        }
        push_positional(out, digits.as_str(), point, "");
    }
    assert(out@ =~= start + plain_float_text(f@));
}

/// A number with k digits is below 10^k and, if it is not zero, at least
/// 10^(k - 1).
proof fn lemma_digit_count_bounds(n: nat)
    ensures
        n < pow(10, digit_count(n)),
        n > 0 ==> pow(10, (digit_count(n) - 1) as nat) <= n,
        digit_count(n) >= 1,
    decreases n,
{
    lemma_pow0(10);
    lemma_pow1(10);
    if n >= 10 {
        lemma_digit_count_bounds(n / 10);
        let k = digit_count(n / 10);
        lemma_pow_adds(10, 1, k);
        lemma_pow_adds(10, 1, (k - 1) as nat);
    }
}

/// Fewer than 10^k means at most k digits.
proof fn lemma_digit_count_upper(n: nat, k: nat)
    requires
        n < pow(10, k),
        k >= 1,
    ensures
        digit_count(n) <= k,
    decreases k,
{
    lemma_pow1(10);
    if k > 1 && n >= 10 {
        lemma_pow_adds(10, 1, (k - 1) as nat);
        lemma_digit_count_upper(n / 10, (k - 1) as nat);
    }
}

/// Rounding to a multiple is off by half of it at most.
proof fn lemma_nearest_error(n: nat, d: nat, ties: Ties)
    requires
        d > 0,
    ensures
        2 * n - d <= 2 * (nearest(n, d, ties) * d) <= 2 * n + d,
{
    let q = n / d;
    vstd::arithmetic::div_mod::lemma_fundamental_div_mod(n as int, d as int);
    assert(d * q == q * d && (q + 1) * d == q * d + d) by (nonlinear_arith);
}

/// The significand and the scale of a magnitude.
spec fn made_of(sig: nat, s: nat) -> bool {
    0 < sig < SIGNIFICAND_BOUND && (s == 0 || sig >= MIN_NORMAL)
}

/// What reads back as a number lies between two bounds.
proof fn lemma_reads_between(sig: nat, s: nat, a: nat, x: nat, b: nat)
    requires
        made_of(sig, s),
        a <= x <= b,
        reads_as(a, sig * pow2(s)),
        reads_as(b, sig * pow2(s)),
    ensures
        reads_as(x, sig * pow2(s)),
{
    let p = five_power() * pow2(s);
    lemma_pow_positive(5, 1074);
    lemma_pow2_pos(s);
    assert(p > 0) by (nonlinear_arith)
        requires
            p == five_power() * pow2(s),
            five_power() > 0,
            pow2(s) > 0,
    ;
    if s > 0 && sig == MIN_NORMAL {
        lemma_reads_at_power(a, s);
        lemma_reads_at_power(x, s);
        lemma_reads_at_power(b, s);
    } else {
        lemma_reads_inside(a, sig, s);
        lemma_reads_inside(x, sig, s);
        lemma_reads_inside(b, sig, s);
        lemma_nearest_interval(a, p, sig);
        lemma_nearest_interval(x, p, sig);
        lemma_nearest_interval(b, p, sig);
    }
}

/// What is close to a number reads back as it.
proof fn lemma_close_reads(sig: nat, s: nat, x: nat, unit: nat)
    requires
        made_of(sig, s),
        2 * expansion(sig * pow2(s)) - unit <= 2 * x <= 2 * expansion(sig * pow2(s)) + unit,
        10_000_000_000_000_000 * unit <= expansion(sig * pow2(s)),
    ensures
        reads_as(x, sig * pow2(s)),
{
    let five = five_power();
    let p = five * pow2(s);
    lemma_pow_positive(5, 1074);
    lemma_pow2_pos(s);
    assert(p > 0) by (nonlinear_arith)
        requires
            p == five * pow2(s),
            five > 0,
            pow2(s) > 0,
    ;
    assert(expansion(sig * pow2(s)) == sig * p) by (nonlinear_arith)
        requires
            expansion(sig * pow2(s)) == sig * pow2(s) * five,
            p == five * pow2(s),
    ;
    if s > 0 && sig == MIN_NORMAL {
        lemma_reads_at_power(x, s);
        assert((2 * MIN_NORMAL + 1) * p == 2 * (sig * p) + p) by (nonlinear_arith)
            requires
                sig == MIN_NORMAL,
        ;
        assert((4 * MIN_NORMAL - 1) * p == 4 * (sig * p) - p) by (nonlinear_arith)
            requires
                sig == MIN_NORMAL,
        ;
        assert(2 * unit <= p) by (nonlinear_arith)
            requires
                10_000_000_000_000_000 * unit <= sig * p,
                sig == MIN_NORMAL,
                p > 0,
        ;
    } else {
        lemma_reads_inside(x, sig, s);
        lemma_nearest_interval(x, p, sig);
        assert((2 * sig - 1) * p == 2 * (sig * p) - p) by (nonlinear_arith);
        assert((2 * sig + 1) * p == 2 * (sig * p) + p) by (nonlinear_arith);
        assert(unit < p) by (nonlinear_arith)
            requires
                10_000_000_000_000_000 * unit <= sig * p,
                sig < SIGNIFICAND_BOUND,
                p > 0,
        ;
    }
}

/// The unit of the last of `n` digits of an expansion.
proof fn lemma_digit_unit(m: nat, n: nat)
    requires
        m > 0,
        1 <= n <= 17,
    ensures
        digit_count(expansion(m)) > 17,
        pow(10, (digit_count(expansion(m)) - n) as nat) > 0,
        pow(10, (n - 1) as nat) * pow(10, (digit_count(expansion(m)) - n) as nat) <= expansion(m),
        expansion(m) < pow(10, n) * pow(10, (digit_count(expansion(m)) - n) as nat),
{
    let exact = expansion(m);
    lemma_expansion_long(m);
    let count = digit_count(exact);
    lemma_digit_count_bounds(exact);
    lemma_pow_positive(5, 1074);
    assert(exact > 0) by (nonlinear_arith)
        requires
            exact == m * five_power(),
            m > 0,
            five_power() > 0,
    ;
    lemma_pow_positive(10, (count - n) as nat);
    lemma_pow_adds(10, n, (count - n) as nat);
    lemma_pow_adds(10, (n - 1) as nat, (count - n) as nat);
}

/// Of the decimals with few digits the one that is chosen reads back.
proof fn lemma_shortest_reads(sig: nat, s: nat, n: nat, ties: Ties)
    requires
        made_of(sig, s),
        1 <= n <= 17,
    ensures
        reads_as(
            (shortest(sig * pow2(s), n, ties).0 * pow(10, shortest(sig * pow2(s), n, ties).1)) as nat,
            sig * pow2(s),
        ),
    decreases 17 - n,
{
    let m = sig * pow2(s);
    let exact = expansion(m);
    lemma_pow2_pos(s);
    assert(m > 0) by (nonlinear_arith)
        requires
            m == sig * pow2(s),
            sig > 0,
            pow2(s) > 0,
    ;
    lemma_digit_unit(m, n);
    let cut = (digit_count(exact) - n) as nat;
    let unit = pow(10, cut) as nat;
    let near = nearest(exact, unit, ties);
    if n == 17 {
        lemma_nearest_error(exact, unit, ties);
        assert(pow(10, 16) == 10_000_000_000_000_000) by {
            reveal(pow);
            reveal_with_fuel(pow, 17);
        }
        lemma_close_reads(sig, s, near * unit, unit);
    } else if reads_as(near * unit, m) {
    } else {
        lemma_shortest_reads(sig, s, n + 1, ties);
    }
}

/// Trailing zeros that are cut off do not change a number.
proof fn lemma_trimmed_value(digits: nat, cut: nat)
    ensures
        trimmed(digits, cut).0 * pow(10, trimmed(digits, cut).1) == digits * pow(10, cut),
    decreases digits,
{
    if digits > 0 && digits % 10 == 0 {
        lemma_trimmed_value(digits / 10, cut + 1);
        lemma_pow_adds(10, 1, cut);
        lemma_pow1(10);
        let t = pow(10, cut);
        assert((digits / 10) * (10 * t) == digits * t) by (nonlinear_arith)
            requires
                digits % 10 == 0,
        ;
    }
}

/// At most 10^n has at most n digits without trailing zeros.
proof fn lemma_trimmed_count(digits: nat, cut: nat, n: nat)
    requires
        0 < digits <= pow(10, n),
        n >= 1,
    ensures
        digit_count(trimmed(digits, cut).0) <= n,
    decreases digits,
{
    lemma_pow0(10);
    lemma_pow_adds(10, 1, (n - 1) as nat);
    lemma_pow1(10);
    if digits % 10 == 0 {
        if n > 1 {
            lemma_trimmed_count(digits / 10, cut + 1, (n - 1) as nat);
        } else {
            assert(trimmed(1, cut + 1) == (1nat, cut + 1));
        }
    } else {
        let t = pow(10, (n - 1) as nat);
        assert((10 * t) % 10 == 0);
        lemma_digit_count_upper(digits, n);
    }
}

/// Where a decimal with `n` digits reads back, the first one tried does or its
/// neighbour on the other side.
proof fn lemma_neighbour_reads(sig: nat, s: nat, n: nat, x: nat, k: nat)
    requires
        made_of(sig, s),
        digit_count(x) == n,
        1 <= n <= 17,
        reads_as((x * pow(10, k)) as nat, sig * pow2(s)),
    ensures
        ({
            let m = sig * pow2(s);
            let exact = expansion(m);
            let unit = pow(10, (digit_count(exact) - n) as nat) as nat;
            reads_as(exact / unit * unit, m) || reads_as((exact / unit + 1) * unit, m)
        }),
{
    let m = sig * pow2(s);
    let exact = expansion(m);
    lemma_pow2_pos(s);
    assert(m > 0) by (nonlinear_arith)
        requires
            m == sig * pow2(s),
            sig > 0,
            pow2(s) > 0,
    ;
    lemma_digit_unit(m, n);
    let count = digit_count(exact);
    let unit = pow(10, (count - n) as nat) as nat;
    let q = exact / unit;
    vstd::arithmetic::div_mod::lemma_fundamental_div_mod(exact as int, unit as int);
    assert(unit * q == q * unit && (q + 1) * unit == q * unit + unit) by (nonlinear_arith);
    lemma_pow_positive(10, k);
    let y = (x * pow(10, k)) as nat;
    assert(x * pow(10, k) >= 0) by (nonlinear_arith)
        requires
            pow(10, k) > 0,
    ;
    lemma_close_reads(sig, s, exact, 0);
    if y <= exact {
        if y <= q * unit {
            lemma_reads_between(sig, s, y, q * unit, exact);
        } else {
            // Such a number would have digits below the last one of x.
            lemma_digit_count_bounds(x);
            let low = pow(10, (n - 1) as nat);
            if n + k >= count {
                let up = (n + k - count) as nat;
                lemma_pow_adds(10, up, (count - n) as nat);
                lemma_pow_positive(10, up);
                let w = x * pow(10, up);
                assert(y == w * unit) by (nonlinear_arith)
                    requires
                        y == x * pow(10, k),
                        pow(10, k) == pow(10, up) * unit,
                        w == x * pow(10, up),
                ;
                assert(w <= q) by (nonlinear_arith)
                    requires
                        w * unit <= exact,
                        exact < q * unit + unit,
                        unit > 0,
                ;
                assert(w * unit <= q * unit) by (nonlinear_arith)
                    requires
                        w <= q,
                        unit > 0,
                ;
            } else {
                lemma_pow_adds(10, n, k);
                vstd::arithmetic::power::lemma_pow_increases(10, (n + k) as nat, (count - 1) as nat);
                lemma_pow_adds(10, (n - 1) as nat, (count - n) as nat);
                assert(y < pow(10, n) * pow(10, k)) by (nonlinear_arith)
                    requires
                        y == x * pow(10, k),
                        x < pow(10, n),
                        pow(10, k) > 0,
                ;
                assert(low <= q) by (nonlinear_arith)
                    requires
                        low * unit <= exact,
                        exact < q * unit + unit,
                        unit > 0,
                ;
                assert(low * unit <= q * unit) by (nonlinear_arith)
                    requires
                        low <= q,
                        unit > 0,
                ;
            }
        }
    } else {
        if y >= (q + 1) * unit {
            lemma_reads_between(sig, s, exact, (q + 1) * unit, y);
        } else {
            lemma_digit_count_bounds(x);
            if n + k >= count {
                let up = (n + k - count) as nat;
                lemma_pow_adds(10, up, (count - n) as nat);
                lemma_pow_positive(10, up);
                let w = x * pow(10, up);
                assert(y == w * unit) by (nonlinear_arith)
                    requires
                        y == x * pow(10, k),
                        pow(10, k) == pow(10, up) * unit,
                        w == x * pow(10, up),
                ;
                assert(w >= q + 1) by (nonlinear_arith)
                    requires
                        w * unit > exact,
                        exact >= q * unit,
                        unit > 0,
                ;
                assert(w * unit >= (q + 1) * unit) by (nonlinear_arith)
                    requires
                        w >= q + 1,
                        unit > 0,
                ;
            } else {
                lemma_pow_adds(10, n, k);
                vstd::arithmetic::power::lemma_pow_increases(10, (n + k) as nat, (count - 1) as nat);
                lemma_digit_count_bounds(exact);
                assert(y < pow(10, n) * pow(10, k)) by (nonlinear_arith)
                    requires
                        y == x * pow(10, k),
                        x < pow(10, n),
                        pow(10, k) > 0,
                ;
            }
        }
    }
}

proof fn lemma_shortest_is_shortest(sig: nat, s: nat, n: nat, x: nat, k: nat, ties: Ties)
    requires
        made_of(sig, s),
        1 <= n <= 17,
        n <= digit_count(x),
        reads_as((x * pow(10, k)) as nat, sig * pow2(s)),
    ensures
        ({
            let parts = shortest(sig * pow2(s), n, ties);
            digit_count(trimmed(parts.0, parts.1).0) <= digit_count(x)
        }),
    decreases 17 - n,
{
    let m = sig * pow2(s);
    let exact = expansion(m);
    lemma_pow2_pos(s);
    assert(m > 0) by (nonlinear_arith)
        requires
            m == sig * pow2(s),
            sig > 0,
            pow2(s) > 0,
    ;
    lemma_digit_unit(m, n);
    let cut = (digit_count(exact) - n) as nat;
    let unit = pow(10, cut) as nat;
    let near = nearest(exact, unit, ties);
    let q = exact / unit;
    vstd::arithmetic::div_mod::lemma_fundamental_div_mod(exact as int, unit as int);
    let low = pow(10, (n - 1) as nat);
    let top = pow(10, n);
    lemma_pow_positive(10, (n - 1) as nat);
    assert(1 <= q < top) by (nonlinear_arith)
        requires
            low * unit <= exact,
            exact < top * unit,
            exact == unit * q + exact % unit,
            0 <= exact % unit < unit,
            low >= 1,
    ;
    let other = if near == q {
        near + 1
    } else {
        q
    };
    lemma_trimmed_count(near, cut, n);
    lemma_trimmed_count(other, cut, n);
    if n == digit_count(x) {
        lemma_neighbour_reads(sig, s, n, x, k);
    } else if n < 17 && !reads_as(near * unit, m) && !reads_as(other * unit, m) {
        lemma_shortest_is_shortest(sig, s, n + 1, x, k, ties);
    }
}

proof fn lemma_decoded_parts(bits: u64) -> (parts: (nat, nat))
    requires
        decoded(bits) matches Some(f) && f.magnitude > 0,
    ensures
        made_of(parts.0, parts.1),
        decoded(bits)->0.magnitude == parts.0 * pow2(parts.1),
{
    let exponent = (bits as nat / 0x10_0000_0000_0000) % 2048;
    let fraction = bits as nat % 0x10_0000_0000_0000;
    if exponent == 0 {
        vstd::arithmetic::power2::lemma2_to64();
        assert(fraction * 1 == fraction);
        (fraction, 0nat)
    } else {
        ((MIN_NORMAL + fraction) as nat, (exponent - 1) as nat)
    }
}

/// The digits with which a number is written read back as that number.
pub proof fn written_digits_read_back(bits: u64, ties: Ties)
    requires
        decoded(bits) matches Some(f) && f.magnitude > 0,
    ensures
        ({
            let m = decoded(bits)->0.magnitude;
            let (digits, cut) = written_digits(m, ties);
            reads_as((digits * pow(10, cut)) as nat, m)
        }),
{
    let (sig, s) = lemma_decoded_parts(bits);
    lemma_shortest_reads(sig, s, 1, ties);
    let parts = shortest(sig * pow2(s), 1, ties);
    lemma_trimmed_value(parts.0, parts.1);
}

/// No decimal with fewer digits reads back as the number: whatever digits `x`
/// and zeros after them do, they are at least as many as those written.
pub proof fn written_digits_are_fewest(bits: u64, x: nat, zeros: nat, ties: Ties)
    requires
        decoded(bits) matches Some(f) && f.magnitude > 0,
        reads_as((x * pow(10, zeros)) as nat, decoded(bits)->0.magnitude),
    ensures
        digit_count(written_digits(decoded(bits)->0.magnitude, ties).0) <= digit_count(x),
{
    let (sig, s) = lemma_decoded_parts(bits);
    lemma_digit_count_bounds(x);
    lemma_shortest_is_shortest(sig, s, 1, x, zeros, ties);
}

} // verus!
