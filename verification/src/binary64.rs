//! Finite IEEE 754 binary64 numbers held as integers.
//!
//! Every finite binary64 number is a whole multiple of 2^-1074, the smallest
//! subnormal. The model of a number is its sign and that multiple, so the
//! arithmetic below is stated over integers: an operation is the exact result
//! rounded to 53 significant bits, ties to even.

use vstd::arithmetic::power2::{lemma2_to64, lemma2_to64_rest, lemma_pow2_adds, lemma_pow2_pos, lemma_pow2_unfold, pow2};
use vstd::prelude::*;

verus! {

/// 2^52, the least significand of a normal number.
pub const MIN_NORMAL: u64 = 0x10_0000_0000_0000;

/// 2^53, the bound of every significand.
pub const SIGNIFICAND_BOUND: u64 = 0x20_0000_0000_0000;

/// The largest scale of a finite number.
pub const MAX_SCALE: u16 = 2045;

/// The binary64 number `±magnitude * 2^-1074`.
#[verifier::ext_equal]
pub struct FloatValue {
    pub negative: bool,
    pub magnitude: nat,
}

impl FloatValue {
    /// The number as a signed multiple of 2^-1074.
    pub open spec fn units(self) -> int {
        if self.negative {
            -(self.magnitude as int)
        } else {
            self.magnitude as int
        }
    }
}

/// The multiple of 2^-1074 that stands for one.
pub open spec fn one() -> nat {
    pow2(1074)
}

/// The integer nearest to `n / d`, ties to even.
pub open spec fn nearest_even(n: nat, d: nat) -> nat {
    let q = n / d;
    let r = n % d;
    if 2 * r < d || (2 * r == d && q % 2 == 0) {
        q
    } else {
        q + 1
    }
}

/// `n / d` rounded to 53 significant bits, and to a whole number below that.
pub open spec fn round53(n: nat, d: nat) -> nat
    decreases n - d,
{
    if d == 0 || n < d * SIGNIFICAND_BOUND {
        nearest_even(n, d)
    } else {
        2 * round53(n, 2 * d)
    }
}

/// The finite number nearest to `±(n / d) * 2^-1074`; `None` on overflow.
pub open spec fn rounded(negative: bool, n: nat, d: nat) -> Option<FloatValue> {
    let magnitude = round53(n, d);
    if magnitude < pow2(2098) {
        Some(FloatValue { negative, magnitude })
    } else {
        None
    }
}

/// The binary64 number nearest to an integer.
pub open spec fn of_int(i: int) -> Option<FloatValue> {
    rounded(i < 0, (if i < 0 { -i } else { i }) as nat * one(), 1)
}

pub open spec fn negation(a: FloatValue) -> FloatValue {
    FloatValue { negative: !a.negative, magnitude: a.magnitude }
}

/// The sum: an exact zero is positive unless both operands are negative zeros.
pub open spec fn sum(a: FloatValue, b: FloatValue) -> Option<FloatValue> {
    let exact = a.units() + b.units();
    if exact == 0 {
        Some(FloatValue { negative: a.negative && b.negative, magnitude: 0 })
    } else {
        rounded(exact < 0, (if exact < 0 { -exact } else { exact }) as nat, 1)
    }
}

pub open spec fn difference(a: FloatValue, b: FloatValue) -> Option<FloatValue> {
    sum(a, negation(b))
}

pub open spec fn product(a: FloatValue, b: FloatValue) -> Option<FloatValue> {
    rounded(a.negative != b.negative, a.magnitude * b.magnitude, one())
}

/// The quotient by a divisor other than zero.
pub open spec fn quotient(a: FloatValue, b: FloatValue) -> Option<FloatValue> {
    rounded(a.negative != b.negative, a.magnitude * one(), b.magnitude)
}

/// The truncated remainder by a divisor other than zero: it is exact and
/// takes the sign of the dividend.
pub open spec fn remainder(a: FloatValue, b: FloatValue) -> FloatValue {
    FloatValue { negative: a.negative, magnitude: a.magnitude % b.magnitude }
}

/// The largest integer that is not above the number.
pub open spec fn floor_of(a: FloatValue) -> int {
    a.units() / (one() as int)
}

/// The smallest integer that is not below the number.
pub open spec fn ceil_of(a: FloatValue) -> int {
    -((-a.units()) / (one() as int))
}

/// The integer nearest to the number, ties to even.
pub open spec fn round_of(a: FloatValue) -> int {
    let nearest = nearest_even(a.magnitude, one());
    if a.negative {
        -(nearest as int)
    } else {
        nearest as int
    }
}

/// The whole number that an integer stands for, keeping the sign of a zero.
pub open spec fn whole(negative: bool, i: int) -> FloatValue {
    FloatValue { negative, magnitude: (if i < 0 { -i } else { i }) as nat * one() }
}

/// The number that a 64-bit interchange encoding holds; `None` for an infinity
/// or a NaN.
pub open spec fn decoded(bits: u64) -> Option<FloatValue> {
    let exponent = (bits as nat / 0x10_0000_0000_0000) % 2048;
    let fraction = bits as nat % 0x10_0000_0000_0000;
    let negative = bits >= 0x8000_0000_0000_0000;
    if exponent == 2047 {
        None
    } else if exponent == 0 {
        Some(FloatValue { negative, magnitude: fraction })
    } else {
        Some(
            FloatValue {
                negative,
                magnitude: (MIN_NORMAL + fraction) as nat * pow2((exponent - 1) as nat),
            },
        )
    }
}

/// A finite binary64 number.
#[derive(Clone, Copy, Debug)]
pub struct Binary64 {
    negative: bool,
    significand: u64,
    scale: u16,
}

impl View for Binary64 {
    type V = FloatValue;

    closed spec fn view(&self) -> FloatValue {
        FloatValue { negative: self.negative, magnitude: self.significand as nat * pow2(self.scale as nat) }
    }
}

/// `n / d` scaled by `2^-exp`, as a quotient of whole numbers.
spec fn scaled_num(n: nat, exp: int) -> nat {
    if exp < 0 {
        n * pow2((-exp) as nat)
    } else {
        n
    }
}

spec fn scaled_den(d: nat, exp: int) -> nat {
    if exp < 0 {
        d
    } else {
        d * pow2(exp as nat)
    }
}

/// `sig` is the whole part of `(n / d) * 2^-exp`, and `sticky` tells whether
/// anything was cut off.
spec fn truncates(n: nat, d: nat, sig: nat, exp: int, sticky: bool) -> bool {
    let num = scaled_num(n, exp);
    let den = scaled_den(d, exp);
    &&& d > 0
    &&& sig * den <= num < (sig + 1) * den
    &&& sticky == (num != sig * den)
}

proof fn lemma_shift_right(n: nat, d: nat, sig: nat, exp: int, sticky: bool)
    requires
        truncates(n, d, sig, exp, sticky),
    ensures
        truncates(n, d, sig / 2, exp + 1, sticky || sig % 2 == 1),
{
    let num = scaled_num(n, exp);
    let den = scaled_den(d, exp);
    let num2 = scaled_num(n, exp + 1);
    let den2 = scaled_den(d, exp + 1);
    let q = sig / 2;
    let b = sig % 2;
    assert(sig == 2 * q + b);
    lemma2_to64();
    if exp >= 0 {
        lemma_pow2_unfold((exp + 1) as nat);
        lemma_pow2_pos(exp as nat);
        assert(den2 == 2 * den) by (nonlinear_arith)
            requires
                den == d * pow2(exp as nat),
                den2 == d * pow2((exp + 1) as nat),
                pow2((exp + 1) as nat) == 2 * pow2(exp as nat),
        ;
        assert(num2 == num);
        assert(den > 0) by (nonlinear_arith)
            requires
                den == d * pow2(exp as nat),
                d > 0,
                pow2(exp as nat) > 0,
        ;
        assert(sig * den == q * den2 + b * den) by (nonlinear_arith)
            requires
                sig == 2 * q + b,
                den2 == 2 * den,
        ;
        assert((sig + 1) * den == sig * den + den) by (nonlinear_arith);
        assert((q + 1) * den2 == q * den2 + 2 * den) by (nonlinear_arith)
            requires
                den2 == 2 * den,
        ;
        assert(b == 0 ==> b * den == 0) by (nonlinear_arith);
        assert(b == 1 ==> b * den == den) by (nonlinear_arith);
    } else {
        lemma_pow2_unfold((-exp) as nat);
        assert(num == 2 * num2) by {
            if exp == -1 {
                assert(num2 == n);
                assert(num == n * 2);
            } else {
                assert(pow2((-exp) as nat) == 2 * pow2((-exp - 1) as nat));
                assert(n * pow2((-exp) as nat) == 2 * (n * pow2((-exp - 1) as nat))) by (nonlinear_arith)
                    requires
                        pow2((-exp) as nat) == 2 * pow2((-exp - 1) as nat),
                ;
            }
        }
        assert(den2 == den) by {
            if exp == -1 {
                assert(d * 1 == d);
            }
        }
        assert(sig * den == 2 * (q * den) + b * den) by (nonlinear_arith)
            requires
                sig == 2 * q + b,
        ;
        assert((sig + 1) * den == sig * den + den) by (nonlinear_arith);
        assert((q + 1) * den == q * den + den) by (nonlinear_arith);
        assert(b == 0 ==> b * den == 0) by (nonlinear_arith);
        assert(b == 1 ==> b * den == den) by (nonlinear_arith);
    }
}

proof fn lemma_shift_left(n: nat, d: nat, sig: nat, exp: int)
    requires
        truncates(n, d, sig, exp, false),
        exp >= 0,
    ensures
        truncates(n, d, 2 * sig, exp - 1, false),
{
    let den = scaled_den(d, exp);
    let den2 = scaled_den(d, exp - 1);
    lemma2_to64();
    if exp == 0 {
        assert(den == d * 1);
        assert(pow2(1) == 2);
        assert(scaled_num(n, exp - 1) == n * 2);
        assert((2 * sig) * d == 2 * (sig * d)) by (nonlinear_arith);
        assert((2 * sig + 1) * d == 2 * (sig * d) + d) by (nonlinear_arith);
    } else {
        lemma_pow2_unfold(exp as nat);
        lemma_pow2_pos((exp - 1) as nat);
        assert(den == 2 * den2) by (nonlinear_arith)
            requires
                den == d * pow2(exp as nat),
                den2 == d * pow2((exp - 1) as nat),
                pow2(exp as nat) == 2 * pow2((exp - 1) as nat),
        ;
        assert(den2 > 0) by (nonlinear_arith)
            requires
                den2 == d * pow2((exp - 1) as nat),
                d > 0,
                pow2((exp - 1) as nat) > 0,
        ;
        assert((2 * sig) * den2 == sig * den) by (nonlinear_arith)
            requires
                den == 2 * den2,
        ;
        assert((2 * sig + 1) * den2 == sig * den + den2) by (nonlinear_arith)
            requires
                den == 2 * den2,
        ;
    }
}

/// Rounding to 53 bits is rounding to the multiple of `2^k` that fits.
pub(crate) proof fn lemma_round53(n: nat, d: nat, k: nat)
    requires
        d > 0,
        n < d * pow2(k) * SIGNIFICAND_BOUND,
        k == 0 || n >= d * pow2(k) * MIN_NORMAL,
    ensures
        round53(n, d) == nearest_even(n, d * pow2(k)) * pow2(k),
    decreases k,
{
    lemma2_to64();
    if k == 0 {
        assert(pow2(0) == 1);
        assert(d * 1 == d);
    } else {
        lemma_pow2_unfold(k);
        lemma_pow2_pos((k - 1) as nat);
        let p = pow2((k - 1) as nat);
        assert(d * pow2(k) == (2 * d) * p) by (nonlinear_arith)
            requires
                pow2(k) == 2 * p,
        ;
        assert(n >= d * SIGNIFICAND_BOUND) by (nonlinear_arith)
            requires
                n >= d * pow2(k) * MIN_NORMAL,
                pow2(k) == 2 * p,
                p >= 1,
                d > 0,
        ;
        if k > 1 {
            assert(n >= (2 * d) * p * MIN_NORMAL);
        }
        lemma_round53(n, 2 * d, (k - 1) as nat);
        let r = nearest_even(n, (2 * d) * p);
        assert(2 * (r * p) == r * pow2(k)) by (nonlinear_arith)
            requires
                pow2(k) == 2 * p,
        ;
    }
}

/// What remains to be rounded once one bit below the unit is left.
proof fn lemma_guard_bit(n: nat, d: nat, sig: nat, exp: int, sticky: bool)
    requires
        truncates(n, d, sig, exp, sticky),
        exp >= -1,
        sig < 2 * SIGNIFICAND_BOUND,
        exp == -1 || sig >= SIGNIFICAND_BOUND,
    ensures
        ({
            let q = sig / 2;
            let up = sig % 2 == 1 && (sticky || q % 2 == 1);
            round53(n, d) == (if up { q + 1 } else { q }) * pow2((exp + 1) as nat)
        }),
{
    let k = (exp + 1) as nat;
    let den = d * pow2(k);
    lemma_pow2_pos(k);
    lemma2_to64();
    assert(den > 0) by (nonlinear_arith)
        requires
            den == d * pow2(k),
            d > 0,
            pow2(k) > 0,
    ;
    assert(sig * den <= 2 * n < (sig + 1) * den && sticky == (2 * n != sig * den)) by {
        if exp == -1 {
            assert(pow2(1) == 2);
            assert(den == d * 1);
            assert(scaled_num(n, exp) == n * 2);
        } else {
            lemma_pow2_unfold(k);
            let half = d * pow2(exp as nat);
            assert(den == 2 * half) by (nonlinear_arith)
                requires
                    den == d * pow2(k),
                    half == d * pow2(exp as nat),
                    pow2(k) == 2 * pow2(exp as nat),
            ;
            assert(sig * den == 2 * (sig * half)) by (nonlinear_arith)
                requires
                    den == 2 * half,
            ;
            assert((sig + 1) * den == 2 * ((sig + 1) * half)) by (nonlinear_arith)
                requires
                    den == 2 * half,
            ;
        }
    }
    let q = sig / 2;
    let b = sig % 2;
    assert(sig * den == 2 * (q * den) + b * den) by (nonlinear_arith)
        requires
            sig == 2 * q + b,
    ;
    assert((sig + 1) * den == sig * den + den) by (nonlinear_arith);
    assert(b == 0 ==> b * den == 0) by (nonlinear_arith);
    assert(b == 1 ==> b * den == den) by (nonlinear_arith);
    assert((q + 1) * den == q * den + den) by (nonlinear_arith);
    let r = (n - q * den) as nat;
    assert(n == q * den + r && r < den);
    vstd::arithmetic::div_mod::lemma_fundamental_div_mod_converse(n as int, den as int, q as int, r as int);
    assert(n / den == q && n % den == r);
    assert(n < den * SIGNIFICAND_BOUND) by (nonlinear_arith)
        requires
            2 * n < (sig + 1) * den,
            sig + 1 <= 2 * SIGNIFICAND_BOUND,
    ;
    if k > 0 {
        assert(n >= den * MIN_NORMAL) by (nonlinear_arith)
            requires
                2 * n >= sig * den,
                sig >= 2 * MIN_NORMAL,
        ;
    }
    lemma_round53(n, d, k);
}

/// The number that an optional result stands for.
pub open spec fn view_of(r: Option<Binary64>) -> Option<FloatValue> {
    match r {
        Some(f) => Some(f@),
        None => None,
    }
}

proof fn lemma_normal_magnitude(m: nat, k: nat)
    requires
        m < SIGNIFICAND_BOUND,
        m >= MIN_NORMAL || k == 0,
    ensures
        k <= MAX_SCALE <==> m * pow2(k) < pow2(2098),
{
    lemma2_to64();
    lemma2_to64_rest();
    lemma_pow2_pos(k);
    if k <= MAX_SCALE {
        let gap = (MAX_SCALE - k) as nat;
        lemma_pow2_adds(53, k);
        lemma_pow2_adds((53 + k) as nat, gap);
        lemma_pow2_pos(gap);
        assert(m * pow2(k) < pow2(2098)) by (nonlinear_arith)
            requires
                m < SIGNIFICAND_BOUND,
                pow2(k) > 0,
                pow2(gap) >= 1,
                pow2((53 + k) as nat) == SIGNIFICAND_BOUND * pow2(k),
                pow2(2098) == pow2((53 + k) as nat) * pow2(gap),
        ;
    } else {
        let gap = (k - MAX_SCALE - 1) as nat;
        lemma_pow2_adds(52, 2046);
        lemma_pow2_adds(2046, gap);
        lemma_pow2_pos(2046);
        lemma_pow2_pos(gap);
        assert(m * pow2(k) >= pow2(2098)) by (nonlinear_arith)
            requires
                m >= MIN_NORMAL,
                pow2(k) == pow2(2046) * pow2(gap),
                pow2(gap) >= 1,
                pow2(2098) == MIN_NORMAL * pow2(2046),
        ;
    }
}

impl Binary64 {
    #[verifier::type_invariant]
    spec fn canonical(self) -> bool {
        &&& self.significand < SIGNIFICAND_BOUND
        &&& self.scale <= MAX_SCALE
        &&& self.scale > 0 ==> self.significand >= MIN_NORMAL
    }

    /// A finite number stays below the overflow threshold.
    proof fn lemma_finite(self)
        requires
            self.canonical(),
        ensures
            self@.magnitude < pow2(2098),
    {
        lemma_normal_magnitude(self.significand as nat, self.scale as nat);
    }

    /// The number `±(n / d) * 2^-1074` rounded, from the leading bits of `n / d`.
    fn pack(
        negative: bool,
        leading: u128,
        exponent: i32,
        inexact: bool,
        Ghost(n): Ghost<nat>,
        Ghost(d): Ghost<nat>,
    ) -> (r: Option<Binary64>)
        requires
            truncates(n, d, leading as nat, exponent as int, inexact),
            inexact ==> leading >= 2 * SIGNIFICAND_BOUND,
            -8000 <= exponent <= 8000,
        ensures
            view_of(r) == rounded(negative, n, d),
    {
        let mut sig: u128 = leading;
        let mut exp: i32 = exponent;
        let mut sticky: bool = inexact;
        let ghost mut dropped: nat = 0;
        proof {
            lemma2_to64();
            lemma_pow2_adds(10, 64);
        }
        while sig >= 0x40_0000_0000_0000
            invariant
                truncates(n, d, sig as nat, exp as int, sticky),
                sticky ==> sig >= SIGNIFICAND_BOUND,
                leading >= 0x40_0000_0000_0000 ==> sig >= SIGNIFICAND_BOUND,
                leading < 0x40_0000_0000_0000 ==> sig == leading && !sticky,
                exp == exponent + dropped,
                dropped <= 75,
                -8000 <= exponent <= 8000,
                pow2(dropped) * sig <= leading,
                pow2(74) == 0x400 * 0x1_0000_0000_0000_0000,
            decreases sig,
        {
            proof {
                lemma_shift_right(n, d, sig as nat, exp as int, sticky);
                lemma_pow2_unfold((dropped + 1) as nat);
                if dropped >= 74 {
                    lemma_pow2_adds(74, (dropped - 74) as nat);
                    lemma_pow2_pos((dropped - 74) as nat);
                    assert(pow2(dropped) * sig > leading) by (nonlinear_arith)
                        requires
                            pow2(dropped) == pow2(74) * pow2((dropped - 74) as nat),
                            pow2((dropped - 74) as nat) >= 1,
                            pow2(74) == 0x400 * 0x1_0000_0000_0000_0000,
                            sig >= 0x40_0000_0000_0000,
                            leading <= u128::MAX,
                    ;
                }
                assert(pow2((dropped + 1) as nat) * (sig / 2) <= leading) by (nonlinear_arith)
                    requires
                        pow2((dropped + 1) as nat) == 2 * pow2(dropped),
                        pow2(dropped) * sig <= leading,
                        2 * (sig / 2) <= sig,
                ;
                dropped = dropped + 1;
            }
            sticky = sticky || sig % 2 == 1;
            sig = sig / 2;
            exp = exp + 1;
        }
        while exp < -1
            invariant
                truncates(n, d, sig as nat, exp as int, sticky),
                sig < 0x40_0000_0000_0000,
                exp <= 8075,
                exp >= 0 ==> (sticky ==> sig >= SIGNIFICAND_BOUND),
            decreases -exp,
        {
            proof {
                lemma_shift_right(n, d, sig as nat, exp as int, sticky);
            }
            sticky = sticky || sig % 2 == 1;
            sig = sig / 2;
            exp = exp + 1;
        }
        while exp >= 0 && sig < 0x20_0000_0000_0000
            invariant
                truncates(n, d, sig as nat, exp as int, sticky),
                sig < 0x40_0000_0000_0000,
                -1 <= exp <= 8075,
                exp >= 0 ==> (sticky ==> sig >= SIGNIFICAND_BOUND),
            decreases exp + 1,
        {
            proof {
                lemma_shift_left(n, d, sig as nat, exp as int);
            }
            sig = sig * 2;
            exp = exp - 1;
        }
        proof {
            lemma_guard_bit(n, d, sig as nat, exp as int, sticky);
        }
        let mut significand: u64 = (sig / 2) as u64;
        let mut scale: i32 = exp + 1;
        if sig % 2 == 1 && (sticky || significand % 2 == 1) {
            significand = significand + 1;
        }
        assert(round53(n, d) == significand as nat * pow2(scale as nat));
        if significand == SIGNIFICAND_BOUND {
            proof {
                lemma_pow2_unfold((scale + 1) as nat);
                assert(SIGNIFICAND_BOUND as nat * pow2(scale as nat) == MIN_NORMAL as nat * pow2(
                    (scale + 1) as nat,
                )) by (nonlinear_arith)
                    requires
                        pow2((scale + 1) as nat) == 2 * pow2(scale as nat),
                ;
            }
            significand = MIN_NORMAL;
            scale = scale + 1;
        }
        proof {
            lemma_normal_magnitude(significand as nat, scale as nat);
        }
        if scale > MAX_SCALE as i32 {
            None
        } else {
            Some(Binary64 { negative, significand, scale: scale as u16 })
        }
    }

    /// The number that an interchange encoding holds.
    pub fn from_bits(bits: u64) -> (r: Option<Binary64>)
        ensures
            view_of(r) == decoded(bits),
    {
        let exponent: u64 = (bits / 0x10_0000_0000_0000) % 2048;
        let fraction: u64 = bits % 0x10_0000_0000_0000;
        let negative = bits >= 0x8000_0000_0000_0000;
        if exponent == 2047 {
            None
        } else if exponent == 0 {
            proof {
                lemma2_to64();
                assert(fraction as nat * 1 == fraction as nat);
            }
            Some(Binary64 { negative, significand: fraction, scale: 0 })
        } else {
            Some(Binary64 { negative, significand: MIN_NORMAL + fraction, scale: (exponent - 1) as u16 })
        }
    }

    /// The significand and the scale: the magnitude is the significand times a
    /// power of two.
    pub(crate) fn parts(&self) -> (r: (u64, u16))
        ensures
            self@.magnitude == r.0 as nat * pow2(r.1 as nat),
            r.0 < SIGNIFICAND_BOUND,
            r.1 <= MAX_SCALE,
            r.1 > 0 ==> r.0 >= MIN_NORMAL,
    {
        proof {
            use_type_invariant(self);
        }
        (self.significand, self.scale)
    }

    /// The interchange encoding.
    pub fn to_bits(&self) -> (bits: u64)
        ensures
            decoded(bits) == Some(self@),
    {
        proof {
            use_type_invariant(self);
            lemma2_to64();
        }
        let sign: u64 = if self.negative { 0x8000_0000_0000_0000 } else { 0 };
        if self.significand < MIN_NORMAL {
            assert(self.significand as nat * 1 == self.significand as nat);
            sign + self.significand
        } else {
            let exponent: u64 = self.scale as u64 + 1;
            let bits: u64 = sign + exponent * 0x10_0000_0000_0000 + (self.significand - MIN_NORMAL);
            assert(bits / 0x10_0000_0000_0000 == sign / 0x10_0000_0000_0000 + exponent);
            bits
        }
    }

    pub fn negative(&self) -> (r: bool)
        ensures
            r == self@.negative,
    {
        self.negative
    }

    pub fn is_zero(&self) -> (r: bool)
        ensures
            r == (self@.magnitude == 0),
    {
        proof {
            lemma_pow2_pos(self.scale as nat);
            let s = self.significand as nat;
            let p = pow2(self.scale as nat);
            assert(s == 0 <==> s * p == 0) by (nonlinear_arith)
                requires
                    p > 0,
            ;
        }
        self.significand == 0
    }

    pub fn neg(&self) -> (r: Binary64)
        ensures
            r@ == negation(self@),
    {
        proof {
            use_type_invariant(self);
        }
        Binary64 { negative: !self.negative, significand: self.significand, scale: self.scale }
    }

    /// The number nearest to an integer of at most 64 bits and a sign.
    fn from_magnitude(negative: bool, magnitude: u64) -> (r: Binary64)
        ensures
            Some(r@) == rounded(negative, magnitude as nat * one(), 1),
    {
        let ghost n = magnitude as nat * one();
        proof {
            lemma_pow2_pos(1074);
            assert((magnitude as nat + 1) * (1 * one()) == n + one()) by (nonlinear_arith)
                requires
                    n == magnitude as nat * one(),
            ;
            assert(magnitude as nat * (1 * one()) == n);
        }
        let r = Self::pack(negative, magnitude as u128, 1074, false, Ghost(n), Ghost(1));
        proof {
            lemma_round53_bound(n, 1);
            lemma2_to64();
            lemma_pow2_adds(64, 1074);
            lemma_pow2_adds(1138, 960);
            lemma_pow2_pos(1138);
            lemma_pow2_unfold(960);
            lemma_pow2_pos(959);
            assert(round53(n, 1) < pow2(2098)) by (nonlinear_arith)
                requires
                    round53(n, 1) <= 2 * n,
                    n == magnitude as nat * one(),
                    magnitude < 0x1_0000_0000_0000_0000,
                    pow2(1138) == 0x1_0000_0000_0000_0000 * one(),
                    pow2(2098) == pow2(1138) * pow2(960),
                    pow2(960) >= 2,
                    one() > 0,
            ;
        }
        match r {
            Some(f) => f,
            None => Binary64 { negative: false, significand: 0, scale: 0 },
        }
    }

    /// The number nearest to an integer.
    pub fn from_i64(i: i64) -> (r: Binary64)
        ensures
            Some(r@) == of_int(i as int),
    {
        if i < 0 {
            Self::from_magnitude(true, (-(i as i128)) as u64)
        } else {
            Self::from_magnitude(false, i as u64)
        }
    }

    /// The number nearest to an unsigned integer.
    pub fn from_u64(u: u64) -> (r: Binary64)
        ensures
            Some(r@) == of_int(u as int),
    {
        Self::from_magnitude(false, u)
    }

    pub fn mul(&self, other: &Binary64) -> (r: Option<Binary64>)
        ensures
            view_of(r) == product(self@, other@),
    {
        proof {
            use_type_invariant(self);
            use_type_invariant(other);
        }
        let a: u128 = self.significand as u128;
        let b: u128 = other.significand as u128;
        assert(a * b < 0x1_0000_0000_0000_0000_0000_0000_0000) by (nonlinear_arith)
            requires
                a < SIGNIFICAND_BOUND,
                b < SIGNIFICAND_BOUND,
        ;
        let leading: u128 = a * b;
        let exponent: i32 = self.scale as i32 + other.scale as i32 - 1074;
        let ghost n = self@.magnitude * other@.magnitude;
        proof {
            let ka = self.scale as nat;
            let kb = other.scale as nat;
            lemma_pow2_adds(ka, kb);
            lemma_pow2_pos(1074);
            let p = pow2((ka + kb) as nat);
            assert(n == (a * b) * p) by (nonlinear_arith)
                requires
                    n == (a as nat * pow2(ka)) * (b as nat * pow2(kb)),
                    p == pow2(ka) * pow2(kb),
            ;
            lemma_exact_quotient(n, one(), leading as nat, exponent as int, (ka + kb) as nat, 1074);
        }
        Self::pack(self.negative != other.negative, leading, exponent, false, Ghost(n), Ghost(one()))
    }
}

impl Binary64 {
    /// The quotient by a number other than zero.
    pub fn div(&self, other: &Binary64) -> (r: Option<Binary64>)
        requires
            other@.magnitude > 0,
        ensures
            view_of(r) == quotient(self@, other@),
    {
        proof {
            use_type_invariant(self);
            use_type_invariant(other);
            lemma2_to64();
            lemma2_to64_rest();
            lemma_pow2_pos(1074);
            lemma_pow2_pos(self.scale as nat);
            lemma_pow2_pos(other.scale as nat);
        }
        let negative = self.negative != other.negative;
        let ghost n = self@.magnitude * one();
        let ghost d = other@.magnitude;
        if self.significand == 0 {
            proof {
                assert(n == 0) by (nonlinear_arith)
                    requires
                        n == (0 * pow2(self.scale as nat)) * one(),
                ;
                assert(scaled_num(n, 0) == 0);
                assert(scaled_den(d, 0) == d) by (nonlinear_arith)
                    requires
                        scaled_den(d, 0) == d * pow2(0),
                        pow2(0) == 1,
                ;
                assert(0 * d == 0 && (0 + 1) * d == d) by (nonlinear_arith);
                assert(truncates(n, d, 0, 0, false));
            }
            return Self::pack(negative, 0, 0, false, Ghost(n), Ghost(d));
        }
        let b: u128 = other.significand as u128;
        assert(b > 0) by (nonlinear_arith)
            requires
                b as nat * pow2(other.scale as nat) > 0,
        ;
        let mut a: u128 = self.significand as u128;
        let mut shift: i32 = 0;
        assert(a as nat == self.significand as nat * 1);
        while a < 0x10_0000_0000_0000
            invariant
                0 < a < SIGNIFICAND_BOUND,
                0 <= shift <= 52,
                a as nat == self.significand as nat * pow2(shift as nat),
                self.significand > 0,
                pow2(52) == MIN_NORMAL,
            decreases 0x20_0000_0000_0000 - a,
        {
            proof {
                lemma_pow2_unfold((shift + 1) as nat);
                assert(self.significand as nat * pow2((shift + 1) as nat) == 2 * a as nat)
                    by (nonlinear_arith)
                    requires
                        pow2((shift + 1) as nat) == 2 * pow2(shift as nat),
                        a as nat == self.significand as nat * pow2(shift as nat),
                ;
                if shift == 52 {
                    assert(a >= MIN_NORMAL) by (nonlinear_arith)
                        requires
                            a as nat == self.significand as nat * pow2(shift as nat),
                            pow2(shift as nat) == MIN_NORMAL,
                            self.significand > 0,
                    ;
                }
            }
            a = a * 2;
            shift = shift + 1;
        }
        let widened: u128 = a * 0x800_0000_0000_0000_0000;
        let leading: u128 = widened / b;
        let inexact = widened % b != 0;
        let exponent: i32 = self.scale as i32 - shift - 75 - other.scale as i32 + 1074;
        proof {
            lemma_pow2_adds(11, 64);
            let ka = self.scale as nat;
            let kb = other.scale as nat;
            let sh = (shift + 75) as nat;
            lemma_pow2_adds(shift as nat, 75);
            assert(widened as nat == self.significand as nat * pow2(sh)) by (nonlinear_arith)
                requires
                    widened as nat == a as nat * pow2(75),
                    a as nat == self.significand as nat * pow2(shift as nat),
                    pow2(sh) == pow2(shift as nat) * pow2(75),
            ;
            assert(leading >= 2 * SIGNIFICAND_BOUND) by (nonlinear_arith)
                requires
                    leading == widened / b,
                    widened >= 0x10_0000_0000_0000 * 0x800_0000_0000_0000_0000,
                    0 < b < SIGNIFICAND_BOUND,
            ;
            lemma_truncated_quotient(
                self.significand as nat,
                b as nat,
                ka,
                kb,
                sh,
                leading as nat,
                exponent as int,
                inexact,
            );
        }
        Self::pack(negative, leading, exponent, inexact, Ghost(n), Ghost(d))
    }
}

proof fn lemma_truncated_quotient(
    a: nat,
    b: nat,
    ka: nat,
    kb: nat,
    sh: nat,
    leading: nat,
    exp: int,
    inexact: bool,
)
    requires
        b > 0,
        leading == (a * pow2(sh)) / b,
        inexact == ((a * pow2(sh)) % b != 0),
        exp == ka + 1074 - sh - kb,
    ensures
        truncates((a * pow2(ka)) * one(), b * pow2(kb), leading, exp, inexact),
{
    let w = a * pow2(sh);
    let r = w % b;
    let up = (ka + 1074) as nat;
    let n = (a * pow2(ka)) * one();
    let d = b * pow2(kb);
    lemma_pow2_adds(ka, 1074);
    lemma_pow2_pos(kb);
    lemma_pow2_pos(up);
    vstd::arithmetic::div_mod::lemma_fundamental_div_mod(w as int, b as int);
    assert(n == a * pow2(up)) by (nonlinear_arith)
        requires
            n == (a * pow2(ka)) * one(),
            pow2(up) == pow2(ka) * one(),
    ;
    assert(d > 0) by (nonlinear_arith)
        requires
            d == b * pow2(kb),
            b > 0,
            pow2(kb) > 0,
    ;
    let num = scaled_num(n, exp);
    let den = scaled_den(d, exp);
    // Both sides carry the same power of two over the shifted division.
    let common: nat = if exp < 0 {
        kb
    } else {
        (up - sh) as nat
    };
    assert(num == w * pow2(common) && den == b * pow2(common)) by {
        if exp < 0 {
            lemma_pow2_adds(up, (-exp) as nat);
            lemma_pow2_adds(sh, kb);
            assert(up + (-exp) == sh + kb);
            assert(num == w * pow2(kb)) by (nonlinear_arith)
                requires
                    num == n * pow2((-exp) as nat),
                    n == a * pow2(up),
                    w == a * pow2(sh),
                    pow2((sh + kb) as nat) == pow2(up) * pow2((-exp) as nat),
                    pow2((sh + kb) as nat) == pow2(sh) * pow2(kb),
            ;
        } else {
            lemma_pow2_adds(kb, exp as nat);
            lemma_pow2_adds(sh, common);
            assert(kb + exp == common);
            assert(den == b * pow2(common)) by (nonlinear_arith)
                requires
                    den == d * pow2(exp as nat),
                    d == b * pow2(kb),
                    pow2(common) == pow2(kb) * pow2(exp as nat),
            ;
            assert(num == w * pow2(common)) by (nonlinear_arith)
                requires
                    num == a * pow2(up),
                    w == a * pow2(sh),
                    pow2(up) == pow2(sh) * pow2(common),
            ;
        }
    }
    let p = pow2(common);
    lemma_pow2_pos(common);
    assert(w == b * leading + r && r < b);
    assert(leading * den + r * p == num) by (nonlinear_arith)
        requires
            num == w * p,
            den == b * p,
            w == b * leading + r,
    ;
    assert(r * p < den) by (nonlinear_arith)
        requires
            den == b * p,
            r < b,
            p > 0,
    ;
    assert((leading + 1) * den == leading * den + den) by (nonlinear_arith);
    assert(r == 0 <==> r * p == 0) by (nonlinear_arith)
        requires
            p > 0,
    ;
}

impl Binary64 {
    /// The sum of numbers of which the first has the larger scale.
    fn add_aligned(&self, other: &Binary64) -> (r: Option<Binary64>)
        requires
            self.scale >= other.scale,
        ensures
            view_of(r) == sum(self@, other@),
    {
        proof {
            use_type_invariant(self);
            use_type_invariant(other);
            lemma2_to64();
            lemma2_to64_rest();
        }
        let gap: u32 = (self.scale - other.scale) as u32;
        if gap > 74 {
            proof {
                lemma_absorbed(*self, *other);
            }
            return Some(*self);
        }
        let factor: u128 = power_of_two(gap);
        proof {
            if gap < 74 {
                lemma_pow2_adds(gap as nat, (74 - gap) as nat);
                lemma_pow2_pos((74 - gap) as nat);
            }
            lemma_pow2_adds(10, 64);
            assert(factor <= 0x400 * 0x1_0000_0000_0000_0000) by (nonlinear_arith)
                requires
                    gap < 74 ==> pow2(74) == factor * pow2((74 - gap) as nat),
                    gap < 74 ==> pow2((74 - gap) as nat) >= 1,
                    gap == 74 ==> factor == pow2(74),
                    gap <= 74,
                    pow2(74) == 0x400 * 0x1_0000_0000_0000_0000,
            ;
        }
        let wide: u128 = self.significand as u128;
        assert(wide * factor < 0x8000_0000_0000_0000_0000_0000_0000_0000) by (nonlinear_arith)
            requires
                wide < SIGNIFICAND_BOUND,
                factor <= 0x400 * 0x1_0000_0000_0000_0000,
        ;
        let a: u128 = wide * factor;
        let b: u128 = other.significand as u128;
        let exponent: i32 = other.scale as i32;
        let ghost kb = other.scale as nat;
        let ghost p = pow2(kb);
        proof {
            lemma_pow2_pos(kb);
            lemma_pow2_adds(gap as nat, kb);
            assert(self@.magnitude == a as nat * p) by (nonlinear_arith)
                requires
                    self@.magnitude == wide as nat * pow2(self.scale as nat),
                    a == wide * factor,
                    factor == pow2(gap as nat),
                    pow2(self.scale as nat) == pow2(gap as nat) * p,
            ;
        }
        if self.negative == other.negative {
            let ghost n = (a as nat + b as nat) * p;
            proof {
                assert(n == self@.magnitude + other@.magnitude) by (nonlinear_arith)
                    requires
                        n == (a as nat + b as nat) * p,
                        self@.magnitude == a as nat * p,
                        other@.magnitude == b as nat * p,
                ;
                lemma_exact_quotient(n, 1, (a + b) as nat, exponent as int, kb, 0);
                if a + b == 0 {
                    assert(n == 0) by (nonlinear_arith)
                        requires
                            n == 0 * p,
                    ;
                    assert(round53(0, 1) == 0);
                    lemma_pow2_pos(2098);
                } else {
                    assert(n > 0) by (nonlinear_arith)
                        requires
                            n == (a as nat + b as nat) * p,
                            a + b > 0,
                            p > 0,
                    ;
                }
            }
            Self::pack(self.negative, a + b, exponent, false, Ghost(n), Ghost(1))
        } else if a == b {
            proof {
                assert(1 * 1 == 1);
                assert(0 * 1 == 0);
            }
            Some(Binary64 { negative: false, significand: 0, scale: 0 })
        } else {
            let (negative, rest): (bool, u128) = if a > b {
                (self.negative, a - b)
            } else {
                (other.negative, b - a)
            };
            let ghost n = rest as nat * p;
            proof {
                assert(a as nat * p - b as nat * p == (a - b) * p) by (nonlinear_arith);
                assert(n > 0) by (nonlinear_arith)
                    requires
                        n == rest as nat * p,
                        rest > 0,
                        p > 0,
                ;
                if a > b {
                    assert(n == self@.magnitude - other@.magnitude);
                } else {
                    assert((b - a) * p == -((a - b) * p)) by (nonlinear_arith);
                    assert(n == other@.magnitude - self@.magnitude);
                }
                lemma_exact_quotient(n, 1, rest as nat, exponent as int, kb, 0);
            }
            Self::pack(negative, rest, exponent, false, Ghost(n), Ghost(1))
        }
    }

    pub fn plus(&self, other: &Binary64) -> (r: Option<Binary64>)
        ensures
            view_of(r) == sum(self@, other@),
    {
        if self.scale >= other.scale {
            self.add_aligned(other)
        } else {
            other.add_aligned(self)
        }
    }

    pub fn minus(&self, other: &Binary64) -> (r: Option<Binary64>)
        ensures
            view_of(r) == difference(self@, other@),
    {
        self.plus(&other.neg())
    }
}

/// 2^e, for an exponent below the width of the result.
fn power_of_two(e: u32) -> (r: u128)
    requires
        e < 128,
    ensures
        r == pow2(e as nat),
{
    let mut r: u128 = 1;
    let mut i: u32 = 0;
    proof {
        lemma2_to64();
    }
    while i < e
        invariant
            i <= e < 128,
            r == pow2(i as nat),
        decreases e - i,
    {
        proof {
            lemma_pow2_unfold((i + 1) as nat);
            lemma2_to64();
            lemma2_to64_rest();
            lemma_pow2_adds(63, 64);
            lemma_pow2_adds((i + 1) as nat, (127 - i - 1) as nat);
            lemma_pow2_pos((127 - i - 1) as nat);
            assert(pow2((i + 1) as nat) <= pow2(127)) by (nonlinear_arith)
                requires
                    pow2(127) == pow2((i + 1) as nat) * pow2((127 - i - 1) as nat),
                    pow2((127 - i - 1) as nat) >= 1,
            ;
        }
        r = r * 2;
        i = i + 1;
    }
    r
}

/// A number far below the unit of another leaves it unchanged.
proof fn lemma_absorbed(a: Binary64, b: Binary64)
    requires
        a.canonical(),
        b.canonical(),
        a.scale > b.scale + 74,
    ensures
        sum(a@, b@) == Some(a@),
{
    let ka = a.scale as nat;
    let kb = b.scale as nat;
    let m = a.significand as nat;
    let p = pow2(ka);
    let big = a@.magnitude;
    let small = b@.magnitude;
    lemma2_to64();
    lemma2_to64_rest();
    lemma_pow2_pos(kb);
    lemma_pow2_adds(53, kb);
    let gap = (ka - 53 - kb) as nat;
    lemma_pow2_adds((53 + kb) as nat, gap);
    lemma_pow2_adds(2, (gap - 2) as nat);
    lemma_pow2_pos((gap - 2) as nat);
    lemma_pow2_pos((53 + kb) as nat);
    assert(small < pow2((53 + kb) as nat)) by (nonlinear_arith)
        requires
            small == b.significand as nat * pow2(kb),
            b.significand < SIGNIFICAND_BOUND,
            pow2(kb) > 0,
            pow2((53 + kb) as nat) == SIGNIFICAND_BOUND * pow2(kb),
    ;
    assert(4 * pow2((53 + kb) as nat) <= p) by (nonlinear_arith)
        requires
            p == pow2((53 + kb) as nat) * pow2(gap),
            pow2(gap) == 4 * pow2((gap - 2) as nat),
            pow2((gap - 2) as nat) >= 1,
    ;
    assert(4 * small < p);
    a.lemma_finite();
    assert(big >= p) by (nonlinear_arith)
        requires
            big == m * p,
            m >= 1,
    ;
    let same = a.negative == b.negative;
    let n: nat = if same {
        big + small
    } else {
        (big - small) as nat
    };
    if small == 0 {
        lemma_exact(m, ka);
    } else if same {
        assert(big + small < p * SIGNIFICAND_BOUND) by (nonlinear_arith)
            requires
                big == m * p,
                m + 1 <= SIGNIFICAND_BOUND,
                small < p,
        ;
        assert(n >= p * MIN_NORMAL) by (nonlinear_arith)
            requires
                big == m * p,
                m >= MIN_NORMAL,
                n >= big,
        ;
        vstd::arithmetic::div_mod::lemma_fundamental_div_mod_converse(
            n as int,
            p as int,
            m as int,
            small as int,
        );
        assert(1 * p == p);
        lemma_round53(n, 1, ka);
    } else if m > MIN_NORMAL {
        let r = (p - small) as nat;
        assert(n == (m - 1) * p + r) by (nonlinear_arith)
            requires
                n == big - small,
                big == m * p,
                r == p - small,
        ;
        assert(n < p * SIGNIFICAND_BOUND) by (nonlinear_arith)
            requires
                big == m * p,
                m < SIGNIFICAND_BOUND,
                n <= big,
                p > 0,
        ;
        assert(n >= p * MIN_NORMAL) by (nonlinear_arith)
            requires
                n == (m - 1) * p + r,
                m - 1 >= MIN_NORMAL,
        ;
        vstd::arithmetic::div_mod::lemma_fundamental_div_mod_converse(
            n as int,
            p as int,
            m - 1,
            r as int,
        );
        assert(1 * p == p);
        lemma_round53(n, 1, ka);
    } else {
        let h = pow2((ka - 1) as nat);
        lemma_pow2_unfold(ka);
        let r = (h - small) as nat;
        let q = (SIGNIFICAND_BOUND - 1) as nat;
        assert(n == q * h + r) by (nonlinear_arith)
            requires
                n == big - small,
                big == MIN_NORMAL * p,
                p == 2 * h,
                r == h - small,
                q == SIGNIFICAND_BOUND - 1,
        ;
        assert(n < h * SIGNIFICAND_BOUND) by (nonlinear_arith)
            requires
                n == q * h + r,
                r < h,
                q == SIGNIFICAND_BOUND - 1,
        ;
        assert(n >= h * MIN_NORMAL) by (nonlinear_arith)
            requires
                n == q * h + r,
                q >= MIN_NORMAL,
        ;
        vstd::arithmetic::div_mod::lemma_fundamental_div_mod_converse(
            n as int,
            h as int,
            q as int,
            r as int,
        );
        assert(1 * h == h);
        lemma_round53(n, 1, (ka - 1) as nat);
        assert(SIGNIFICAND_BOUND as nat * h == big) by (nonlinear_arith)
            requires
                big == MIN_NORMAL * p,
                p == 2 * h,
        ;
    }
}

/// A number of at most 53 significant bits is its own rounding.
pub(crate) proof fn lemma_exact(m: nat, k: nat)
    requires
        m <= SIGNIFICAND_BOUND,
    ensures
        round53(m * pow2(k), 1) == m * pow2(k),
{
    lemma2_to64();
    assert(m * pow2(k) * 1 == m * pow2(k));
    lemma_exact_over(m, k, 0);
}

proof fn lemma_exact_over(m: nat, k: nat, j: nat)
    requires
        m <= SIGNIFICAND_BOUND,
        j <= k + 1,
        m == SIGNIFICAND_BOUND || j <= k,
    ensures
        j <= k ==> round53(m * pow2(k), pow2(j)) == m * pow2((k - j) as nat),
        j == k + 1 ==> 2 * round53(m * pow2(k), pow2(j)) == m,
    decreases k + 1 - j,
{
    let n = m * pow2(k);
    let d = pow2(j);
    lemma_pow2_pos(j);
    lemma2_to64();
    if j == k + 1 {
        lemma_pow2_unfold(j);
        lemma_pow2_pos(k);
        assert(n == MIN_NORMAL * d) by (nonlinear_arith)
            requires
                n == SIGNIFICAND_BOUND * pow2(k),
                d == 2 * pow2(k),
        ;
        assert(n < d * SIGNIFICAND_BOUND) by (nonlinear_arith)
            requires
                n == MIN_NORMAL * d,
                d > 0,
        ;
        vstd::arithmetic::div_mod::lemma_fundamental_div_mod_converse(n as int, d as int, MIN_NORMAL as int, 0);
    } else {
        let rest = (k - j) as nat;
        let q = m * pow2(rest);
        lemma_pow2_adds(j, rest);
        assert(n == q * d) by (nonlinear_arith)
            requires
                n == m * pow2(k),
                q == m * pow2(rest),
                pow2(k) == d * pow2(rest),
        ;
        if n < d * SIGNIFICAND_BOUND {
            vstd::arithmetic::div_mod::lemma_fundamental_div_mod_converse(n as int, d as int, q as int, 0);
        } else {
            lemma_pow2_unfold((j + 1) as nat);
            if j == k {
                assert(pow2(0) == 1);
                assert(q == m) by (nonlinear_arith)
                    requires
                        q == m * pow2(rest),
                        pow2(rest) == 1,
                ;
                assert(m >= SIGNIFICAND_BOUND) by (nonlinear_arith)
                    requires
                        n == m * d,
                        n >= d * SIGNIFICAND_BOUND,
                        d > 0,
                ;
                lemma_exact_over(m, k, (j + 1) as nat);
            } else {
                lemma_exact_over(m, k, (j + 1) as nat);
                lemma_pow2_unfold(rest);
                assert(2 * (m * pow2((rest - 1) as nat)) == q) by (nonlinear_arith)
                    requires
                        q == m * pow2(rest),
                        pow2(rest) == 2 * pow2((rest - 1) as nat),
                ;
            }
        }
    }
}

/// The whole part of a number's magnitude and how what is cut off compares
/// with one half.
struct Split {
    whole: u64,
    is_whole: bool,
    below_half: bool,
    above_half: bool,
}

impl Binary64 {
    /// The truncated remainder by a number other than zero.
    pub fn rem(&self, other: &Binary64) -> (r: Binary64)
        requires
            other@.magnitude > 0,
        ensures
            r@ == remainder(self@, other@),
    {
        proof {
            use_type_invariant(self);
            use_type_invariant(other);
            lemma_pow2_pos(self.scale as nat);
            lemma_pow2_pos(other.scale as nat);
            lemma2_to64();
        }
        let b: u64 = other.significand;
        assert(b > 0) by (nonlinear_arith)
            requires
                b as nat * pow2(other.scale as nat) > 0,
        ;
        if self.scale < other.scale {
            proof {
                let kb = other.scale as nat;
                let ka = self.scale as nat;
                lemma_scale_orders(self.significand as nat, ka, b as nat, kb);
                vstd::arithmetic::div_mod::lemma_small_mod(self@.magnitude, other@.magnitude);
            }
            return *self;
        }
        let gap: u32 = (self.scale - other.scale) as u32;
        let mut r: u64 = self.significand % b;
        let mut i: u32 = 0;
        assert(self.significand as nat * pow2(0) == self.significand as nat) by (nonlinear_arith)
            requires
                pow2(0) == 1,
        ;
        while i < gap
            invariant
                i <= gap,
                0 < b < SIGNIFICAND_BOUND,
                r as nat == (self.significand as nat * pow2(i as nat)) % (b as nat),
            decreases gap - i,
        {
            proof {
                lemma_pow2_unfold((i + 1) as nat);
                let x = self.significand as nat * pow2(i as nat);
                assert(self.significand as nat * pow2((i + 1) as nat) == 2 * x) by (nonlinear_arith)
                    requires
                        x == self.significand as nat * pow2(i as nat),
                        pow2((i + 1) as nat) == 2 * pow2(i as nat),
                ;
                vstd::arithmetic::div_mod::lemma_mul_mod_noop_right(2, x as int, b as int);
            }
            r = (2 * r) % b;
            i = i + 1;
        }
        let ghost kb = other.scale as nat;
        let ghost p = pow2(kb);
        proof {
            let x = self.significand as nat * pow2(gap as nat);
            lemma_pow2_adds(gap as nat, kb);
            assert(self@.magnitude == p * x) by (nonlinear_arith)
                requires
                    self@.magnitude == self.significand as nat * pow2(self.scale as nat),
                    pow2(self.scale as nat) == pow2(gap as nat) * p,
                    x == self.significand as nat * pow2(gap as nat),
            ;
            assert(other@.magnitude == p * (b as nat)) by (nonlinear_arith)
                requires
                    other@.magnitude == b as nat * p,
            ;
            vstd::arithmetic::div_mod::lemma_truncate_middle(x as int, p as int, b as int);
            assert(p * (r as nat) == r as nat * p) by (nonlinear_arith);
            assert(remainder(self@, other@).magnitude == r as nat * p);
            lemma_exact_quotient(r as nat * p, 1, r as nat, kb as int, kb, 0);
            lemma_exact(r as nat, kb);
            assert(r as nat * p < pow2(2098)) by {
                other.lemma_finite();
                assert(r as nat * p < other@.magnitude) by (nonlinear_arith)
                    requires
                        other@.magnitude == b as nat * p,
                        r < b,
                        p > 0,
                ;
            }
        }
        let packed = Self::pack(
            self.negative,
            r as u128,
            other.scale as i32,
            false,
            Ghost(r as nat * p),
            Ghost(1),
        );
        match packed {
            Some(f) => f,
            None => *self,
        }
    }

    /// Whether the number is below another.
    pub fn less(&self, other: &Binary64) -> (r: bool)
        ensures
            r == (self@.units() < other@.units()),
    {
        if self.is_zero() && other.is_zero() {
            return false;
        }
        if self.negative != other.negative {
            return self.negative;
        }
        if self.negative {
            other.magnitude_less(self)
        } else {
            self.magnitude_less(other)
        }
    }

    /// Whether two numbers are equal; zeros of either sign are.
    pub fn equals(&self, other: &Binary64) -> (r: bool)
        ensures
            r == (self@.units() == other@.units()),
    {
        !self.less(other) && !other.less(self)
    }

    fn magnitude_less(&self, other: &Binary64) -> (r: bool)
        ensures
            r == (self@.magnitude < other@.magnitude),
    {
        proof {
            use_type_invariant(self);
            use_type_invariant(other);
            let (a, ka) = (self.significand as nat, self.scale as nat);
            let (b, kb) = (other.significand as nat, other.scale as nat);
            if ka < kb {
                lemma_scale_orders(a, ka, b, kb);
            } else if kb < ka {
                lemma_scale_orders(b, kb, a, ka);
            } else {
                lemma_pow2_pos(ka);
                assert(a < b <==> a * pow2(ka) < b * pow2(ka)) by (nonlinear_arith)
                    requires
                        pow2(ka) > 0,
                ;
            }
        }
        self.scale < other.scale || (self.scale == other.scale && self.significand
            < other.significand)
    }

    /// The whole part of the magnitude; `None` where it exceeds 64 bits.
    fn split(&self) -> (r: Option<Split>)
        ensures
            match r {
                Some(s) => {
                    let rest = self@.magnitude % one();
                    &&& s.whole == self@.magnitude / one()
                    &&& s.is_whole == (rest == 0)
                    &&& s.below_half == (2 * rest < one())
                    &&& s.above_half == (2 * rest > one())
                    &&& !s.is_whole ==> s.whole < SIGNIFICAND_BOUND
                },
                None => self@.magnitude / one() >= 0x1_0000_0000_0000_0000
                    && self@.magnitude % one() == 0,
            },
    {
        proof {
            use_type_invariant(self);
            lemma2_to64();
            lemma2_to64_rest();
            lemma_pow2_pos(1074);
        }
        let ghost mag = self@.magnitude;
        let ghost unit = one();
        if self.scale >= 1074 {
            let up: u32 = (self.scale - 1074) as u32;
            proof {
                lemma_pow2_adds(up as nat, 1074);
                let w = self.significand as nat * pow2(up as nat);
                assert(mag == w * unit) by (nonlinear_arith)
                    requires
                        mag == self.significand as nat * pow2(self.scale as nat),
                        pow2(self.scale as nat) == pow2(up as nat) * unit,
                        w == self.significand as nat * pow2(up as nat),
                ;
                vstd::arithmetic::div_mod::lemma_fundamental_div_mod_converse(mag as int, unit as int, w as int, 0);
                if up > 11 {
                    lemma_pow2_adds(12, (up - 12) as nat);
                    lemma_pow2_pos((up - 12) as nat);
                    assert(w >= 0x1_0000_0000_0000_0000) by (nonlinear_arith)
                        requires
                            w == self.significand as nat * pow2(up as nat),
                            self.significand >= MIN_NORMAL,
                            pow2(up as nat) == 0x1000 * pow2((up - 12) as nat),
                            pow2((up - 12) as nat) >= 1,
                    ;
                }
            }
            if up > 11 {
                return None;
            }
            let factor: u128 = power_of_two(up);
            proof {
                lemma_pow2_adds(up as nat, (11 - up) as nat);
                lemma_pow2_pos((11 - up) as nat);
                assert(factor <= 0x800) by (nonlinear_arith)
                    requires
                        pow2(11) == factor * pow2((11 - up) as nat),
                        pow2((11 - up) as nat) >= 1,
                        pow2(11) == 0x800,
                ;
            }
            let significand: u128 = self.significand as u128;
            assert(significand * factor < 0x1_0000_0000_0000_0000) by (nonlinear_arith)
                requires
                    significand < SIGNIFICAND_BOUND,
                    factor <= 0x800,
            ;
            return Some(
                Split {
                    whole: (significand * factor) as u64,
                    is_whole: true,
                    below_half: true,
                    above_half: false,
                },
            );
        }
        let down: u32 = (1074 - self.scale) as u32;
        let ghost p = pow2(self.scale as nat);
        proof {
            lemma_pow2_adds(down as nat, self.scale as nat);
            lemma_pow2_pos(self.scale as nat);
        }
        if down >= 64 {
            proof {
                lemma_pow2_adds(64, (down - 64) as nat);
                lemma_pow2_pos((down - 64) as nat);
                assert(4 * mag < unit) by (nonlinear_arith)
                    requires
                        mag == self.significand as nat * p,
                        unit == pow2(down as nat) * p,
                        pow2(down as nat) == 0x1_0000_0000_0000_0000 * pow2((down - 64) as nat),
                        pow2((down - 64) as nat) >= 1,
                        self.significand < SIGNIFICAND_BOUND,
                        p > 0,
                ;
                assert(mag == 0 <==> self.significand == 0) by (nonlinear_arith)
                    requires
                        mag == self.significand as nat * p,
                        p > 0,
                ;
                vstd::arithmetic::div_mod::lemma_fundamental_div_mod_converse(mag as int, unit as int, 0, mag as int);
            }
            return Some(
                Split {
                    whole: 0,
                    is_whole: self.significand == 0,
                    below_half: true,
                    above_half: false,
                },
            );
        }
        let factor: u128 = power_of_two(down);
        let significand: u128 = self.significand as u128;
        proof {
            lemma_pow2_pos(down as nat);
        }
        let whole: u128 = significand / factor;
        let rest: u128 = significand % factor;
        proof {
            vstd::arithmetic::div_mod::lemma_fundamental_div_mod(significand as int, factor as int);
            let r = rest as nat * p;
            assert(mag == whole as nat * unit + r) by (nonlinear_arith)
                requires
                    mag == significand as nat * p,
                    unit == factor as nat * p,
                    significand == factor * whole + rest,
                    r == rest as nat * p,
            ;
            assert(r < unit && (2 * r < unit <==> 2 * rest < factor) && (2 * r > unit <==> 2 * rest
                > factor) && (r == 0 <==> rest == 0)) by (nonlinear_arith)
                requires
                    r == rest as nat * p,
                    unit == factor as nat * p,
                    rest < factor,
                    p > 0,
            ;
            vstd::arithmetic::div_mod::lemma_fundamental_div_mod_converse(mag as int, unit as int, whole as int, r as int);
            assert(whole <= significand) by (nonlinear_arith)
                requires
                    whole == significand / factor,
                    factor >= 1,
            ;
            assert(2 * rest < 2 * factor);
            lemma_pow2_unfold(64);
            lemma_pow2_adds(down as nat, (63 - down) as nat);
            lemma_pow2_pos((63 - down) as nat);
            assert(factor <= 0x8000_0000_0000_0000) by (nonlinear_arith)
                requires
                    pow2(63) == factor * pow2((63 - down) as nat),
                    pow2((63 - down) as nat) >= 1,
                    pow2(63) == 0x8000_0000_0000_0000,
            ;
        }
        Some(
            Split {
                whole: whole as u64,
                is_whole: rest == 0,
                below_half: 2 * rest < factor,
                above_half: 2 * rest > factor,
            },
        )
    }
}

impl Binary64 {
    /// The whole number `±m`.
    fn from_whole(negative: bool, m: u64) -> (r: Binary64)
        requires
            m <= SIGNIFICAND_BOUND,
        ensures
            r@ == (FloatValue { negative, magnitude: m as nat * one() }),
    {
        let ghost n = m as nat * one();
        proof {
            lemma2_to64();
            lemma2_to64_rest();
            lemma_exact_quotient(n, 1, m as nat, 1074, 1074, 0);
            lemma_exact(m as nat, 1074);
            lemma_pow2_pos(1074);
            lemma_pow2_adds(54, 1074);
            lemma_pow2_adds(1128, 970);
            lemma_pow2_pos(970);
            assert(n < pow2(2098)) by (nonlinear_arith)
                requires
                    n == m as nat * one(),
                    m <= SIGNIFICAND_BOUND,
                    pow2(1128) == 2 * SIGNIFICAND_BOUND * one(),
                    pow2(2098) == pow2(1128) * pow2(970),
                    pow2(970) >= 1,
                    one() > 0,
            ;
        }
        let packed = Self::pack(negative, m as u128, 1074, false, Ghost(n), Ghost(1));
        match packed {
            Some(f) => f,
            None => Binary64 { negative: false, significand: 0, scale: 0 },
        }
    }

    /// The largest integer not above the number, where 64 bits hold it.
    pub fn floor_to_i64(&self) -> (r: Option<i64>)
        ensures
            r == narrowed(floor_of(self@)),
    {
        match self.split() {
            Some(s) => {
                proof {
                    lemma_signed_parts(self@, s.whole as nat);
                }
                if self.negative && !s.is_whole {
                    signed(true, s.whole + 1)
                } else {
                    signed(self.negative, s.whole)
                }
            },
            None => {
                proof {
                    lemma_signed_parts(self@, self@.magnitude / one());
                }
                None
            },
        }
    }

    /// The smallest integer not below the number, where 64 bits hold it.
    pub fn ceil_to_i64(&self) -> (r: Option<i64>)
        ensures
            r == narrowed(ceil_of(self@)),
    {
        match self.split() {
            Some(s) => {
                proof {
                    lemma_signed_parts(self@, s.whole as nat);
                }
                if !self.negative && !s.is_whole {
                    signed(false, s.whole + 1)
                } else {
                    signed(self.negative, s.whole)
                }
            },
            None => {
                proof {
                    lemma_signed_parts(self@, self@.magnitude / one());
                }
                None
            },
        }
    }

    /// The nearest integer, ties to even, where 64 bits hold it.
    pub fn round_to_i64(&self) -> (r: Option<i64>)
        ensures
            r == narrowed(round_of(self@)),
    {
        proof {
            lemma_pow2_pos(1074);
        }
        match self.split() {
            Some(s) => {
                if s.above_half || (!s.below_half && s.whole % 2 == 1) {
                    signed(self.negative, s.whole + 1)
                } else {
                    signed(self.negative, s.whole)
                }
            },
            None => None,
        }
    }

    /// Zero.
    pub fn zero() -> (r: Binary64)
        ensures
            r@ == (FloatValue { negative: false, magnitude: 0 }),
    {
        assert(0 * pow2(0) == 0);
        Binary64 { negative: false, significand: 0, scale: 0 }
    }

    /// One.
    pub fn unit() -> (r: Binary64)
        ensures
            r@ == (FloatValue { negative: false, magnitude: one() }),
    {
        assert(1 * one() == one());
        Self::from_whole(false, 1)
    }

    /// One half.
    pub fn half() -> (r: Binary64)
        ensures
            !r@.negative,
            2 * r@.magnitude == one(),
    {
        proof {
            lemma2_to64();
            lemma2_to64_rest();
            lemma_pow2_adds(52, 1021);
            lemma_pow2_unfold(1074);
        }
        Binary64 { negative: false, significand: MIN_NORMAL, scale: 1021 }
    }

    /// Whether the magnitude is at least 2^52, beyond which a number has no
    /// fraction.
    pub fn is_large(&self) -> (r: bool)
        ensures
            r == (self@.magnitude >= MIN_NORMAL as nat * one()),
    {
        let bound = Self::from_whole(false, MIN_NORMAL);
        let magnitude = if self.negative {
            self.neg()
        } else {
            *self
        };
        !magnitude.less(&bound)
    }

    /// Whether the number has no fraction.
    pub fn is_whole(&self) -> (r: bool)
        ensures
            r == (self@.magnitude % one() == 0),
    {
        match self.split() {
            Some(s) => s.is_whole,
            None => true,
        }
    }

    /// The largest whole number not above this one.
    pub fn floor(&self) -> (r: Binary64)
        ensures
            r@ == whole(self@.negative, floor_of(self@)),
    {
        match self.split() {
            Some(s) => {
                proof {
                    lemma_signed_parts(self@, s.whole as nat);
                }
                if s.is_whole {
                    *self
                } else if self.negative {
                    Self::from_whole(true, s.whole + 1)
                } else {
                    Self::from_whole(false, s.whole)
                }
            },
            None => {
                proof {
                    lemma_signed_parts(self@, self@.magnitude / one());
                }
                *self
            },
        }
    }

    /// The nearest whole number, ties to even. A tie that rounds to zero gives
    /// a positive zero.
    pub fn round_half_even(&self) -> (r: Binary64)
        ensures
            r@ == half_even(self@),
    {
        proof {
            lemma_pow2_pos(1074);
            lemma_signed_parts(self@, self@.magnitude / one());
        }
        match self.split() {
            Some(s) => {
                if s.is_whole {
                    return *self;
                }
                let tie = !s.below_half && !s.above_half;
                let up = s.above_half || (tie && s.whole % 2 == 1);
                let m: u64 = if up { s.whole + 1 } else { s.whole };
                Self::from_whole(self.negative && !(tie && m == 0), m)
            },
            None => *self,
        }
    }

    /// The whole number nearest to the magnitude, ties away from zero, where 64
    /// bits hold the whole part.
    pub fn round_magnitude(&self) -> (r: Option<u64>)
        ensures
            match r {
                Some(m) => m == half_away(self@.magnitude),
                None => half_away(self@.magnitude) >= 0x1_0000_0000_0000_0000,
            },
    {
        proof {
            lemma_pow2_pos(1074);
        }
        match self.split() {
            Some(s) => {
                if s.is_whole || s.below_half {
                    Some(s.whole)
                } else {
                    Some(s.whole + 1)
                }
            },
            None => None,
        }
    }
}

/// The integer in 64 bits; `None` where it does not fit.
pub open spec fn narrowed(i: int) -> Option<i64> {
    if i64::MIN <= i <= i64::MAX {
        Some(i as i64)
    } else {
        None
    }
}

/// The nearest whole number, ties to even, with a positive zero for a tie
/// that rounds to zero.
pub open spec fn half_even(a: FloatValue) -> FloatValue {
    let nearest = nearest_even(a.magnitude, one());
    let tie = 2 * (a.magnitude % one()) == one();
    FloatValue { negative: a.negative && !(tie && nearest == 0), magnitude: nearest * one() }
}

/// The whole number nearest to `magnitude * 2^-1074`, ties away from zero.
pub open spec fn half_away(magnitude: nat) -> nat {
    let q = magnitude / one();
    if 2 * (magnitude % one()) < one() {
        q
    } else {
        q + 1
    }
}

fn signed(negative: bool, m: u64) -> (r: Option<i64>)
    ensures
        r == narrowed(if negative { -(m as int) } else { m as int }),
{
    if negative {
        if m == 0x8000_0000_0000_0000 {
            Some(i64::MIN)
        } else if m < 0x8000_0000_0000_0000 {
            Some(-(m as i64))
        } else {
            None
        }
    } else if m < 0x8000_0000_0000_0000 {
        Some(m as i64)
    } else {
        None
    }
}

/// Floor and ceiling by the whole part of the magnitude.
proof fn lemma_signed_parts(a: FloatValue, q: nat)
    requires
        q == a.magnitude / one(),
    ensures
        ({
            let cut: int = if a.magnitude % one() == 0 {
                0
            } else {
                1
            };
            &&& floor_of(a) == (if a.negative { -(q + cut) } else { q as int })
            &&& ceil_of(a) == (if a.negative { -(q as int) } else { q + cut })
            &&& a.magnitude % one() == 0 ==> a.magnitude == q * one()
        }),
{
    lemma_pow2_pos(1074);
    let unit = one() as int;
    let m = a.magnitude as int;
    let r = m % unit;
    vstd::arithmetic::div_mod::lemma_fundamental_div_mod(m, unit);
    assert(unit * q == q * unit) by (nonlinear_arith);
    if r == 0 {
        assert(-m == (-q) * unit) by (nonlinear_arith)
            requires
                m == q * unit,
        ;
        vstd::arithmetic::div_mod::lemma_fundamental_div_mod_converse(-m, unit, -q, 0);
    } else {
        assert(-m == (-(q + 1)) * unit + (unit - r)) by (nonlinear_arith)
            requires
                m == q * unit + r,
        ;
        vstd::arithmetic::div_mod::lemma_fundamental_div_mod_converse(-m, unit, -(q + 1), unit - r);
    }
}

/// A number of the larger scale has the larger magnitude.
proof fn lemma_scale_orders(a: nat, ka: nat, b: nat, kb: nat)
    requires
        ka < kb,
        a < SIGNIFICAND_BOUND,
        b >= MIN_NORMAL,
    ensures
        a * pow2(ka) < b * pow2(kb),
{
    let gap = (kb - ka - 1) as nat;
    lemma_pow2_adds((ka + 1) as nat, gap);
    lemma_pow2_unfold((ka + 1) as nat);
    lemma_pow2_pos(gap);
    lemma_pow2_pos(ka);
    assert(a * pow2(ka) < b * pow2(kb)) by (nonlinear_arith)
        requires
            a < SIGNIFICAND_BOUND,
            b >= MIN_NORMAL,
            pow2(kb) == pow2((ka + 1) as nat) * pow2(gap),
            pow2((ka + 1) as nat) == 2 * pow2(ka),
            pow2(gap) >= 1,
            pow2(ka) > 0,
    ;
}

/// `(sig * 2^up) / 2^down` is `sig * 2^(up - down)`, exactly.
proof fn lemma_exact_quotient(n: nat, d: nat, sig: nat, exp: int, up: nat, down: nat)
    requires
        n == sig * pow2(up),
        d == pow2(down),
        exp == up - down,
    ensures
        truncates(n, d, sig, exp, false),
{
    lemma_pow2_pos(down);
    if exp >= 0 {
        lemma_pow2_adds(down, exp as nat);
        lemma_pow2_pos(up);
        assert((sig + 1) * pow2(up) > sig * pow2(up)) by (nonlinear_arith)
            requires
                pow2(up) > 0,
        ;
    } else {
        lemma_pow2_adds(up, (-exp) as nat);
        assert(n * pow2((-exp) as nat) == sig * d) by (nonlinear_arith)
            requires
                n == sig * pow2(up),
                d == pow2(up) * pow2((-exp) as nat),
        ;
        assert((sig + 1) * d > sig * d) by (nonlinear_arith)
            requires
                d > 0,
        ;
    }
}

/// Integers of at most 53 bits convert exactly.
pub proof fn small_integers_convert_exactly(i: int)
    requires
        -SIGNIFICAND_BOUND <= i <= SIGNIFICAND_BOUND,
    ensures
        of_int(i) == Some(whole(i < 0, i)),
{
    let m = (if i < 0 { -i } else { i }) as nat;
    lemma_exact(m, 1074);
    lemma2_to64();
    lemma2_to64_rest();
    lemma_pow2_pos(1074);
    lemma_pow2_adds(54, 1074);
    lemma_pow2_adds(1128, 970);
    lemma_pow2_pos(970);
    assert(m * one() < pow2(2098)) by (nonlinear_arith)
        requires
            m <= SIGNIFICAND_BOUND,
            pow2(1128) == 2 * SIGNIFICAND_BOUND * one(),
            pow2(2098) == pow2(1128) * pow2(970),
            pow2(970) >= 1,
            one() > 0,
    ;
}

/// A quotient of at least one does not round to zero.
proof fn lemma_round53_positive(n: nat, d: nat)
    requires
        0 < d <= n,
    ensures
        round53(n, d) > 0,
    decreases n - d,
{
    if n < d * SIGNIFICAND_BOUND {
        assert(n / d >= 1) by (nonlinear_arith)
            requires
                0 < d <= n,
        ;
    } else {
        assert(d * SIGNIFICAND_BOUND >= 2 * d) by (nonlinear_arith);
        lemma_round53_positive(n, 2 * d);
    }
}

/// An integer other than zero does not convert to zero.
pub proof fn lemma_of_int_nonzero(i: int)
    requires
        i64::MIN <= i <= u64::MAX,
        i != 0,
    ensures
        of_int(i) matches Some(f) ==> f.magnitude > 0,
{
    lemma_pow2_pos(1074);
    let m = (if i < 0 { -i } else { i }) as nat;
    assert(m * one() >= 1) by (nonlinear_arith)
        requires
            m >= 1,
            one() >= 1,
    ;
    lemma_round53_positive(m * one(), 1);
}

pub(crate) proof fn lemma_round53_bound(n: nat, d: nat)
    requires
        d > 0,
    ensures
        round53(n, d) * d <= 2 * n,
    decreases n - d,
{
    if n < d * SIGNIFICAND_BOUND {
        let q = n / d;
        let r = n % d;
        vstd::arithmetic::div_mod::lemma_fundamental_div_mod(n as int, d as int);
        assert(d * q == q * d) by (nonlinear_arith);
        assert((q + 1) * d == q * d + d) by (nonlinear_arith);
        if q == 0 {
            assert(q * d == 0) by (nonlinear_arith)
                requires
                    q == 0,
            ;
        } else {
            assert(q * d >= d) by (nonlinear_arith)
                requires
                    q >= 1,
            ;
        }
    } else {
        lemma_round53_bound(n, 2 * d);
        let r = round53(n, 2 * d);
        assert((2 * r) * d == r * (2 * d)) by (nonlinear_arith);
    }
}

/// A number has one encoding: what is decoded encodes as the same bits.
pub proof fn encodings_are_unique(a: u64, b: u64)
    requires
        decoded(a) is Some,
        decoded(a) == decoded(b),
    ensures
        a == b,
{
    let (ea, fa) = ((a as nat / 0x10_0000_0000_0000) % 2048, a as nat % 0x10_0000_0000_0000);
    let (eb, fb) = ((b as nat / 0x10_0000_0000_0000) % 2048, b as nat % 0x10_0000_0000_0000);
    if ea == 0 && eb > 0 {
        lemma_normal_above(fb, eb);
    } else if eb == 0 && ea > 0 {
        lemma_normal_above(fa, ea);
    } else if ea > 0 && eb > 0 {
        if ea < eb {
            lemma_exponents_order(fa, ea, fb, eb);
        } else if eb < ea {
            lemma_exponents_order(fb, eb, fa, ea);
        } else {
            let w = pow2((ea - 1) as nat);
            lemma_pow2_pos((ea - 1) as nat);
            assert(fa == fb) by (nonlinear_arith)
                requires
                    (MIN_NORMAL + fa) * w == (MIN_NORMAL + fb) * w,
                    w > 0,
            ;
        }
    }
    lemma_bits_of_parts(a);
    lemma_bits_of_parts(b);
}

proof fn lemma_bits_of_parts(a: u64)
    ensures
        a == (if a >= 0x8000_0000_0000_0000 {
            0x8000_0000_0000_0000nat
        } else {
            0
        }) + ((a as nat / 0x10_0000_0000_0000) % 2048) * 0x10_0000_0000_0000 + a as nat
            % 0x10_0000_0000_0000,
{
}

proof fn lemma_normal_above(fraction: nat, exponent: nat)
    requires
        exponent > 0,
    ensures
        (MIN_NORMAL + fraction) as nat * pow2((exponent - 1) as nat) >= MIN_NORMAL,
{
    let w = pow2((exponent - 1) as nat);
    lemma_pow2_pos((exponent - 1) as nat);
    assert((MIN_NORMAL + fraction) * w >= MIN_NORMAL) by (nonlinear_arith)
        requires
            w >= 1,
            fraction >= 0,
    ;
}

proof fn lemma_exponents_order(fa: nat, ea: nat, fb: nat, eb: nat)
    requires
        0 < ea < eb,
        fa < 0x10_0000_0000_0000,
    ensures
        (MIN_NORMAL + fa) as nat * pow2((ea - 1) as nat) < (MIN_NORMAL + fb) as nat * pow2(
            (eb - 1) as nat,
        ),
{
    let u = pow2((ea - 1) as nat);
    let w = pow2((eb - 1) as nat);
    let gap = (eb - ea) as nat;
    lemma_pow2_pos((ea - 1) as nat);
    lemma_pow2_adds((ea - 1) as nat, gap);
    lemma_pow2_unfold(gap);
    lemma_pow2_pos((gap - 1) as nat);
    assert(w >= 2 * u) by (nonlinear_arith)
        requires
            w == u * pow2(gap),
            pow2(gap) >= 2,
            u > 0,
    ;
    assert((MIN_NORMAL + fa) * u < (MIN_NORMAL + fb) * w) by (nonlinear_arith)
        requires
            w >= 2 * u,
            u > 0,
            fa < MIN_NORMAL,
            fb >= 0,
    ;
}

} // verus!
