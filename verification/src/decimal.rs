//! Exact decimal expansions of binary64 numbers.

use vstd::arithmetic::power::{lemma_pow0, lemma_pow_adds, lemma_pow_distributes, lemma_pow_positive, pow};
use vstd::arithmetic::power2::{lemma_pow2, lemma_pow2_adds, lemma_pow2_pos, pow2};
use vstd::prelude::*;

use crate::binary64::{nearest_even, one, Binary64, FloatValue};
use crate::text::{decimal, digit, fixed, high_part, low_digits};

verus! {

/// The number that decimal digits spell, the lowest digit first.
spec fn number(digits: Seq<u8>) -> nat
    decreases digits.len(),
{
    if digits.len() == 0 {
        0
    } else {
        digits[0] as nat + 10 * number(digits.skip(1))
    }
}

spec fn all_digits(digits: Seq<u8>) -> bool {
    forall|i: int| 0 <= i < digits.len() ==> #[trigger] digits[i] < 10
}

proof fn lemma_number_push(digits: Seq<u8>, d: u8)
    ensures
        number(digits.push(d)) == number(digits) + d * pow(10, digits.len()),
    decreases digits.len(),
{
    lemma_pow0(10);
    if digits.len() == 0 {
        assert(digits.push(d).skip(1) =~= Seq::<u8>::empty());
        assert(number(digits.push(d).skip(1)) == 0);
    } else {
        let rest = digits.skip(1);
        assert(digits.push(d).skip(1) =~= rest.push(d));
        lemma_number_push(rest, d);
        lemma_pow_adds(10, 1, rest.len());
        vstd::arithmetic::power::lemma_pow1(10);
        assert(10 * (d * pow(10, rest.len())) == d * pow(10, digits.len())) by (nonlinear_arith)
            requires
                pow(10, digits.len()) == 10 * pow(10, rest.len()),
        ;
    }
}

/// The number split at a digit position.
proof fn lemma_number_split(digits: Seq<u8>, i: int)
    requires
        0 <= i <= digits.len(),
    ensures
        number(digits) == number(digits.take(i)) + number(digits.skip(i)) * pow(10, i as nat),
    decreases digits.len(),
{
    lemma_pow0(10);
    if i == 0 {
        assert(digits.skip(0) =~= digits);
        assert(digits.take(0) =~= Seq::<u8>::empty());
    } else {
        let rest = digits.skip(1);
        lemma_number_split(rest, i - 1);
        assert(rest.skip(i - 1) =~= digits.skip(i));
        assert(digits.take(i).skip(1) =~= rest.take(i - 1));
        vstd::arithmetic::power::lemma_pow1(10);
        lemma_pow_adds(10, 1, (i - 1) as nat);
        let h = number(digits.skip(i));
        assert(10 * (h * pow(10, (i - 1) as nat)) == h * pow(10, i as nat)) by (nonlinear_arith)
            requires
                pow(10, i as nat) == 10 * pow(10, (i - 1) as nat),
        ;
    }
}

proof fn lemma_number_bound(digits: Seq<u8>)
    requires
        all_digits(digits),
    ensures
        number(digits) < pow(10, digits.len()),
    decreases digits.len(),
{
    lemma_pow0(10);
    if digits.len() > 0 {
        let rest = digits.skip(1);
        assert(all_digits(rest));
        lemma_number_bound(rest);
        vstd::arithmetic::power::lemma_pow1(10);
        lemma_pow_adds(10, 1, rest.len());
    }
}

/// A nonnegative whole number in decimal digits, the lowest first.
pub(crate) struct Digits {
    digits: Vec<u8>,
}

impl Digits {
    pub(crate) closed spec fn value(self) -> nat {
        number(self.digits@)
    }

    pub(crate) closed spec fn valid(self) -> bool {
        all_digits(self.digits@)
    }

    pub(crate) fn from_u64(n: u64) -> (r: Digits)
        ensures
            r.valid(),
            r.value() == n,
    {
        let mut digits: Vec<u8> = Vec::new();
        let mut rest: u64 = n;
        proof {
            lemma_pow0(10);
            assert(rest as nat * 1 == rest as nat);
        }
        while rest > 0
            invariant
                all_digits(digits@),
                number(digits@) + rest as nat * pow(10, digits@.len()) == n,
            decreases rest,
        {
            proof {
                lemma_number_push(digits@, (rest % 10) as u8);
                vstd::arithmetic::power::lemma_pow1(10);
                lemma_pow_adds(10, 1, digits@.len());
                let p = pow(10, digits@.len());
                assert((rest % 10) * p + (rest / 10) * (10 * p) == rest * p) by (nonlinear_arith)
                    requires
                        rest == 10 * (rest / 10) + rest % 10,
                ;
            }
            digits.push((rest % 10) as u8);
            rest = rest / 10;
        }
        proof {
            assert(0 * pow(10, digits@.len()) == 0) by (nonlinear_arith);
        }
        Digits { digits }
    }

    /// Multiplies by a factor below 26.
    fn scale(&mut self, factor: u8)
        requires
            old(self).valid(),
            factor < 26,
        ensures
            final(self).valid(),
            final(self).value() == old(self).value() * factor,
    {
        let mut carry: u8 = 0;
        let mut out: Vec<u8> = Vec::new();
        let mut i: usize = 0;
        let ghost original = self.digits@;
        proof {
            lemma_pow0(10);
            assert(original.take(0) =~= Seq::<u8>::empty());
            assert(0 * factor == 0);
        }
        while i < self.digits.len()
            invariant
                i <= self.digits@.len(),
                self.digits@ == original,
                all_digits(original),
                all_digits(out@),
                out@.len() == i,
                carry < 26,
                factor < 26,
                number(out@) + carry * pow(10, i as nat) == number(original.take(i as int)) * factor,
            decreases self.digits@.len() - i,
        {
            let d: u8 = self.digits[i];
            assert(d as int * factor as int <= 9 * 25) by (nonlinear_arith)
                requires
                    d < 10,
                    factor < 26,
            ;
            let t: u16 = d as u16 * factor as u16 + carry as u16;
            proof {
                lemma_number_push(original.take(i as int), d);
                assert(original.take(i as int).push(d) =~= original.take(i + 1));
                lemma_number_push(out@, (t % 10) as u8);
                vstd::arithmetic::power::lemma_pow1(10);
                lemma_pow_adds(10, 1, i as nat);
                let p = pow(10, i as nat);
                let a = number(original.take(i as int));
                assert((t % 10) * p + (t / 10) * (10 * p) == (d * p) * factor + carry * p)
                    by (nonlinear_arith)
                    requires
                        t == d * factor + carry,
                        t == 10 * (t / 10) + t % 10,
                ;
                assert((a + d * p) * factor == a * factor + (d * p) * factor) by (nonlinear_arith);
            }
            out.push((t % 10) as u8);
            carry = (t / 10) as u8;
            i = i + 1;
        }
        proof {
            assert(original.take(i as int) =~= original);
        }
        while carry > 0
            invariant
                all_digits(out@),
                number(out@) + carry * pow(10, out@.len()) == number(original) * factor,
            decreases carry,
        {
            proof {
                lemma_number_push(out@, (carry % 10) as u8);
                vstd::arithmetic::power::lemma_pow1(10);
                lemma_pow_adds(10, 1, out@.len());
                let p = pow(10, out@.len());
                assert((carry % 10) * p + (carry / 10) * (10 * p) == carry * p) by (nonlinear_arith)
                    requires
                        carry == 10 * (carry / 10) + carry % 10,
                ;
            }
            out.push(carry % 10);
            carry = carry / 10;
        }
        proof {
            assert(0 * pow(10, out@.len()) == 0) by (nonlinear_arith);
        }
        self.digits = out;
    }

    /// Adds one.
    fn increment(&mut self)
        requires
            old(self).valid(),
        ensures
            final(self).valid(),
            final(self).value() == old(self).value() + 1,
    {
        let mut out: Vec<u8> = Vec::new();
        let mut carry: u8 = 1;
        let mut i: usize = 0;
        let ghost original = self.digits@;
        proof {
            lemma_pow0(10);
            assert(original.take(0) =~= Seq::<u8>::empty());
        }
        while i < self.digits.len()
            invariant
                i <= self.digits@.len(),
                self.digits@ == original,
                all_digits(original),
                all_digits(out@),
                out@.len() == i,
                carry <= 1,
                number(out@) + carry * pow(10, i as nat) == number(original.take(i as int)) + 1,
            decreases self.digits@.len() - i,
        {
            let d: u8 = self.digits[i];
            let t: u8 = d + carry;
            proof {
                lemma_number_push(original.take(i as int), d);
                assert(original.take(i as int).push(d) =~= original.take(i + 1));
                lemma_number_push(out@, t % 10);
                vstd::arithmetic::power::lemma_pow1(10);
                lemma_pow_adds(10, 1, i as nat);
                let p = pow(10, i as nat);
                assert((t % 10) * p + (t / 10) * (10 * p) == d * p + carry * p) by (nonlinear_arith)
                    requires
                        t == d + carry,
                        t == 10 * (t / 10) + t % 10,
                ;
            }
            out.push(t % 10);
            carry = t / 10;
            i = i + 1;
        }
        proof {
            assert(original.take(i as int) =~= original);
            assert(0 * pow(10, out@.len()) == 0) by (nonlinear_arith);
        }
        if carry > 0 {
            proof {
                lemma_number_push(out@, carry);
            }
            out.push(carry);
        }
        self.digits = out;
    }
}

/// The characters of decimal digits, the highest first.
spec fn spelled(digits: Seq<u8>) -> Seq<char>
    decreases digits.len(),
{
    if digits.len() == 0 {
        seq![]
    } else {
        spelled(digits.skip(1)).push(digit(digits[0] as nat))
    }
}

proof fn lemma_number_step(digits: Seq<u8>)
    requires
        all_digits(digits),
        digits.len() > 0,
    ensures
        number(digits) % 10 == digits[0],
        number(digits) / 10 == number(digits.skip(1)),
        all_digits(digits.skip(1)),
{
}

/// The lower digits of a number in decimal.
proof fn lemma_low_digits(digits: Seq<u8>, places: nat)
    requires
        all_digits(digits),
        places <= digits.len(),
    ensures
        low_digits(number(digits), places) == spelled(digits.take(places as int)),
        high_part(number(digits), places) == number(digits.skip(places as int)),
    decreases places,
{
    if places == 0 {
        assert(digits.skip(0) =~= digits);
    } else {
        lemma_number_step(digits);
        let rest = digits.skip(1);
        lemma_low_digits(rest, (places - 1) as nat);
        assert(digits.take(places as int).skip(1) =~= rest.take(places - 1));
        assert(rest.skip(places - 1) =~= digits.skip(places as int));
    }
}

/// Digits without a leading zero spell their number.
proof fn lemma_decimal(digits: Seq<u8>)
    requires
        all_digits(digits),
        digits.len() > 0,
        digits.len() == 1 || digits.last() != 0,
    ensures
        decimal(number(digits)) == spelled(digits),
    decreases digits.len(),
{
    lemma_number_step(digits);
    let rest = digits.skip(1);
    if digits.len() == 1 {
        assert(number(rest) == 0);
        assert(spelled(rest) =~= seq![]);
        assert(spelled(digits) =~= seq![digit(digits[0] as nat)]);
    } else {
        lemma_decimal(rest);
        lemma_number_positive(rest);
    }
}

proof fn lemma_number_positive(digits: Seq<u8>)
    requires
        digits.len() > 0,
        digits.last() != 0,
    ensures
        number(digits) > 0,
    decreases digits.len(),
{
    if digits.len() > 1 {
        assert(digits.skip(1).last() == digits.last());
        lemma_number_positive(digits.skip(1));
    }
}

/// Leading zeros do not count.
proof fn lemma_number_pad(digits: Seq<u8>)
    ensures
        number(digits.push(0)) == number(digits),
{
    lemma_number_push(digits, 0);
    assert(0 * pow(10, digits.len()) == 0) by (nonlinear_arith);
}

/// Equal ratios round alike.
proof fn lemma_same_ratio(a: nat, b: nat, c: nat, d: nat)
    requires
        b > 0,
        d > 0,
        a * d == c * b,
    ensures
        nearest_even(a, b) == nearest_even(c, d),
{
    let q = a / b;
    let r = a % b;
    vstd::arithmetic::div_mod::lemma_fundamental_div_mod(a as int, b as int);
    let r2 = c - q * d;
    assert(b * r2 == r * d) by (nonlinear_arith)
        requires
            a * d == c * b,
            a == b * q + r,
            r2 == c - q * d,
    ;
    assert(0 <= r2 < d) by (nonlinear_arith)
        requires
            b * r2 == r * d,
            0 <= r < b,
            b > 0,
            d > 0,
    ;
    vstd::arithmetic::div_mod::lemma_fundamental_div_mod_converse(c as int, d as int, q as int, r2);
    assert((2 * r < b) == (2 * r2 < d) && (2 * r == b) == (2 * r2 == d)) by (nonlinear_arith)
        requires
            b * r2 == r * d,
            0 <= r < b,
            0 <= r2 < d,
            b > 0,
            d > 0,
    ;
}

/// A number without its low digits, rounded by the digits cut off.
proof fn lemma_cut(digits: Seq<u8>, count: int)
    requires
        all_digits(digits),
        0 < count <= digits.len(),
    ensures
        ({
            let q = number(digits.skip(count));
            let top = digits[count - 1];
            let rest = number(digits.take(count - 1));
            let up = top > 5 || (top == 5 && (rest > 0 || q % 2 == 1));
            nearest_even(number(digits), pow(10, count as nat) as nat) == q + (if up { 1int } else { 0 })
        }),
        nearest(number(digits), pow(10, count as nat) as nat, Ties::Away) == number(digits.skip(count))
            + (if digits[count - 1] >= 5 {
            1int
        } else {
            0
        }),
{
    let q = number(digits.skip(count));
    let top = digits[count - 1];
    let low = digits.take(count);
    let rest = number(digits.take(count - 1));
    let p = pow(10, (count - 1) as nat);
    lemma_number_split(digits, count);
    lemma_number_push(digits.take(count - 1), top);
    assert(digits.take(count - 1).push(top) =~= low);
    assert(all_digits(digits.take(count - 1)));
    lemma_number_bound(digits.take(count - 1));
    lemma_number_bound(low);
    lemma_pow_positive(10, (count - 1) as nat);
    lemma_pow_positive(10, count as nat);
    vstd::arithmetic::power::lemma_pow1(10);
    lemma_pow_adds(10, 1, (count - 1) as nat);
    let d = pow(10, count as nat);
    assert(d == 10 * p);
    let r = number(low);
    assert(r == rest + top * p);
    vstd::arithmetic::div_mod::lemma_fundamental_div_mod_converse(
        number(digits) as int,
        d,
        q as int,
        r as int,
    );
    if top < 5 {
        assert(top * p <= 4 * p) by (nonlinear_arith)
            requires
                top < 5,
                p > 0,
        ;
    } else if top == 5 {
        assert(top * p == 5 * p);
    } else {
        assert(top * p >= 6 * p) by (nonlinear_arith)
            requires
                top > 5,
                p > 0,
        ;
    }
}

/// A number and its multiple by a power of ten.
proof fn lemma_shifted(digits: Seq<u8>, zeros: nat)
    ensures
        number(Seq::new(zeros, |i: int| 0u8) + digits) == number(digits) * pow(10, zeros),
    decreases zeros,
{
    lemma_pow0(10);
    let shifted = Seq::new(zeros, |i: int| 0u8) + digits;
    if zeros == 0 {
        assert(shifted =~= digits);
    } else {
        lemma_shifted(digits, (zeros - 1) as nat);
        assert(shifted.skip(1) =~= Seq::new((zeros - 1) as nat, |i: int| 0u8) + digits);
        vstd::arithmetic::power::lemma_pow1(10);
        lemma_pow_adds(10, 1, (zeros - 1) as nat);
        let n = number(digits);
        assert(10 * (n * pow(10, (zeros - 1) as nat)) == n * pow(10, zeros)) by (nonlinear_arith)
            requires
                pow(10, zeros) == 10 * pow(10, (zeros - 1) as nat),
        ;
    }
}

impl Digits {
    /// Multiplies by a power of a factor.
    pub(crate) fn scale_by_power(&mut self, factor: u8, count: u32)
        requires
            old(self).valid(),
            factor < 26,
        ensures
            final(self).valid(),
            final(self).value() == old(self).value() * pow(factor as int, count as nat),
    {
        let ghost start = self.value();
        let mut i: u32 = 0;
        proof {
            lemma_pow0(factor as int);
        }
        while i < count
            invariant
                i <= count,
                factor < 26,
                self.valid(),
                self.value() == start * pow(factor as int, i as nat),
            decreases count - i,
        {
            proof {
                vstd::arithmetic::power::lemma_pow1(factor as int);
                lemma_pow_adds(factor as int, i as nat, 1);
                assert((start * pow(factor as int, i as nat)) * factor == start * pow(
                    factor as int,
                    (i + 1) as nat,
                )) by (nonlinear_arith)
                    requires
                        pow(factor as int, (i + 1) as nat) == pow(factor as int, i as nat) * factor,
                ;
            }
            self.scale(factor);
            i = i + 1;
        }
    }

    /// Multiplies by a power of ten.
    pub(crate) fn shift_up(self, zeros: usize) -> (r: Digits)
        requires
            self.valid(),
        ensures
            r.valid(),
            r.value() == self.value() * pow(10, zeros as nat),
    {
        let mut out: Vec<u8> = Vec::new();
        let mut i: usize = 0;
        while i < zeros
            invariant
                i <= zeros,
                out@ == Seq::new(i as nat, |i: int| 0u8),
            decreases zeros - i,
        {
            out.push(0);
            i = i + 1;
        }
        let mut digits = self.digits;
        proof {
            lemma_shifted(digits@, zeros as nat);
        }
        out.append(&mut digits);
        Digits { digits: out }
    }

    /// Appends leading zeros up to a length.
    fn pad(&mut self, length: usize)
        requires
            old(self).valid(),
        ensures
            final(self).valid(),
            final(self).value() == old(self).value(),
            final(self).digits@.len() >= length,
    {
        let ghost start = self.value();
        while self.digits.len() < length
            invariant
                self.valid(),
                self.value() == start,
            decreases length - self.digits@.len(),
        {
            proof {
                lemma_number_pad(self.digits@);
            }
            self.digits.push(0);
        }
    }

    /// The digits above the lowest `count`, rounded to nearest, ties to even.
    fn round_off(&mut self, count: usize)
        requires
            old(self).valid(),
        ensures
            final(self).valid(),
            final(self).value() == nearest_even(old(self).value(), pow(10, count as nat) as nat),
    {
        if count == 0 {
            proof {
                lemma_pow0(10);
                let n = self.value();
                assert(n / 1 == n && n % 1 == 0);
            }
            return;
        }
        self.pad(count);
        proof {
            lemma_cut(self.digits@, count as int);
        }
        let ghost padded = self.digits@;
        let top: u8 = self.digits[count - 1];
        let rest = self.any_below(count - 1);
        let high = self.digits.split_off(count);
        proof {
            assert(high@ =~= padded.skip(count as int));
        }
        let odd = high.len() > 0 && high[0] % 2 == 1;
        proof {
            assert(number(high@) % 2 == if odd { 1nat } else { 0 });
        }
        self.digits = high;
        if top > 5 || (top == 5 && (rest || odd)) {
            self.increment();
        }
    }

    /// Removes leading zeros down to a length.
    fn trim(&mut self, length: usize)
        requires
            old(self).valid(),
            0 < length <= old(self).digits@.len(),
        ensures
            final(self).valid(),
            final(self).value() == old(self).value(),
            final(self).digits@.len() >= length,
            final(self).digits@.len() == length || final(self).digits@.last() != 0,
    {
        let ghost start = self.value();
        while self.digits.len() > length && self.digits[self.digits.len() - 1] == 0
            invariant
                self.valid(),
                self.value() == start,
                0 < length <= self.digits@.len(),
            decreases self.digits@.len(),
        {
            proof {
                lemma_number_pad(self.digits@.drop_last());
                assert(self.digits@.drop_last().push(0) =~= self.digits@);
            }
            self.digits.pop();
        }
    }

    /// Appends the digits from `high` down to `low`.
    fn spell(&self, out: &mut String, low: usize, high: usize)
        requires
            self.valid(),
            low <= high <= self.digits@.len(),
        ensures
            final(out)@ == old(out)@ + spelled(self.digits@.subrange(low as int, high as int)),
    {
        let mut i: usize = high;
        let ghost start = out@;
        proof {
            assert(self.digits@.subrange(high as int, high as int) =~= Seq::<u8>::empty());
        }
        while i > low
            invariant
                low <= i <= high <= self.digits@.len(),
                self.valid(),
                out@ == start + spelled(self.digits@.subrange(i as int, high as int)),
            decreases i,
        {
            proof {
                let longer = self.digits@.subrange(i - 1, high as int);
                assert(longer.skip(1) =~= self.digits@.subrange(i as int, high as int));
                assert(longer[0] == self.digits@[i - 1]);
            }
            i = i - 1;
            let d: u8 = self.digits[i];
            out.push((48 + d) as char);
        }
    }
}

/// Which of two whole numbers counts as nearest to what lies half-way between
/// them.
#[derive(Clone, Copy, Debug, PartialEq, Eq, Structural)]
pub enum Ties {
    ToEven,
    Away,
}

/// `n / d` rounded to the nearest whole number.
pub open spec fn nearest(n: nat, d: nat, ties: Ties) -> nat {
    match ties {
        Ties::ToEven => nearest_even(n, d),
        Ties::Away => if 2 * (n % d) < d {
            n / d
        } else {
            n / d + 1
        },
    }
}

/// The number of decimal digits of a number.
pub open spec fn digit_count(n: nat) -> nat
    decreases n,
{
    if n < 10 {
        1
    } else {
        1 + digit_count(n / 10)
    }
}

proof fn lemma_digit_count(digits: Seq<u8>)
    requires
        all_digits(digits),
        digits.len() > 0,
        digits.len() == 1 || digits.last() != 0,
    ensures
        digit_count(number(digits)) == digits.len(),
    decreases digits.len(),
{
    lemma_number_step(digits);
    let rest = digits.skip(1);
    if digits.len() == 1 {
        assert(number(rest) == 0);
    } else {
        lemma_digit_count(rest);
        lemma_number_positive(rest);
    }
}

/// The digit at a position, zero beyond the highest.
spec fn digit_at(digits: Seq<u8>, i: int) -> nat {
    if i < digits.len() {
        digits[i] as nat
    } else {
        0
    }
}

/// The number of the digits from a position on.
spec fn high_number(digits: Seq<u8>, i: int) -> nat {
    if i < digits.len() {
        number(digits.skip(i))
    } else {
        0
    }
}

proof fn lemma_high_step(digits: Seq<u8>, i: int)
    requires
        all_digits(digits),
        i >= 0,
    ensures
        high_number(digits, i) == digit_at(digits, i) + 10 * high_number(digits, i + 1),
{
    if i < digits.len() {
        assert(digits.skip(i).skip(1) =~= digits.skip(i + 1));
        assert(digits.skip(i)[0] == digits[i]);
        if i + 1 == digits.len() {
            assert(number(digits.skip(i + 1)) == 0);
        }
    }
}

/// A smaller number of the higher digits makes a smaller number.
proof fn lemma_high_decides(a: Seq<u8>, b: Seq<u8>, i: int)
    requires
        all_digits(a),
        all_digits(b),
        i >= 0,
        high_number(a, i) < high_number(b, i),
    ensures
        number(a) < number(b),
{
    let p = pow(10, i as nat);
    lemma_pow_positive(10, i as nat);
    if i < b.len() {
        lemma_number_split(b, i);
    }
    if i < a.len() {
        lemma_number_split(a, i);
        assert(all_digits(a.take(i)));
        lemma_number_bound(a.take(i));
    } else {
        lemma_number_bound(a);
        vstd::arithmetic::power::lemma_pow_increases(10, a.len(), i as nat);
    }
    let (x, y) = (high_number(a, i), high_number(b, i));
    assert(x * p + p <= y * p) by (nonlinear_arith)
        requires
            x + 1 <= y,
            p > 0,
    ;
    assert(x >= 0 ==> x * p >= 0) by (nonlinear_arith)
        requires
            p > 0,
    ;
}

impl Digits {
    pub(crate) fn copy(&self) -> (r: Digits)
        requires
            self.valid(),
        ensures
            r.valid(),
            r.value() == self.value(),
    {
        let mut digits: Vec<u8> = Vec::new();
        let mut i: usize = 0;
        while i < self.digits.len()
            invariant
                i <= self.digits@.len(),
                digits@ == self.digits@.take(i as int),
            decreases self.digits@.len() - i,
        {
            digits.push(self.digits[i]);
            i = i + 1;
        }
        assert(digits@ =~= self.digits@);
        Digits { digits }
    }

    /// Whether the number is at most another.
    pub(crate) fn at_most(&self, other: &Digits) -> (r: bool)
        requires
            self.valid(),
            other.valid(),
        ensures
            r == (self.value() <= other.value()),
    {
        let mut i: usize = if self.digits.len() < other.digits.len() {
            other.digits.len()
        } else {
            self.digits.len()
        };
        while i > 0
            invariant
                self.valid(),
                other.valid(),
                high_number(self.digits@, i as int) == high_number(other.digits@, i as int),
            decreases i,
        {
            i = i - 1;
            let a: u8 = if i < self.digits.len() {
                self.digits[i]
            } else {
                0
            };
            let b: u8 = if i < other.digits.len() {
                other.digits[i]
            } else {
                0
            };
            proof {
                lemma_high_step(self.digits@, i as int);
                lemma_high_step(other.digits@, i as int);
            }
            if a < b {
                proof {
                    lemma_high_decides(self.digits@, other.digits@, i as int);
                }
                return true;
            }
            if a > b {
                proof {
                    lemma_high_decides(other.digits@, self.digits@, i as int);
                }
                return false;
            }
        }
        proof {
            assert(self.digits@.skip(0) =~= self.digits@);
            assert(other.digits@.skip(0) =~= other.digits@);
        }
        true
    }

    /// Removes leading zeros; the number of digits is then that of the number.
    pub(crate) fn normalize(&mut self) -> (r: usize)
        requires
            old(self).valid(),
        ensures
            final(self).valid(),
            final(self).value() == old(self).value(),
            r == digit_count(old(self).value()),
            final(self).len() == r,
    {
        self.pad(1);
        self.trim(1);
        proof {
            lemma_digit_count(self.digits@);
        }
        self.digits.len()
    }

    pub(crate) closed spec fn len(self) -> nat {
        self.digits@.len()
    }

    /// The number without its lowest `cut` digits, rounded down and to nearest.
    pub(crate) fn leading(&self, cut: usize, ties: Ties) -> (r: (u64, u64))
        requires
            self.valid(),
            0 < cut < self.len(),
            self.len() - cut <= 17,
        ensures
            r.0 == self.value() / (pow(10, cut as nat) as nat),
            r.1 == nearest(self.value(), pow(10, cut as nat) as nat, ties),
            r.0 <= r.1 <= r.0 + 1,
            r.0 < 100_000_000_000_000_000,
    {
        let len: usize = self.digits.len();
        let ghost all = self.digits@;
        let mut head: u64 = 0;
        let mut i: usize = len;
        proof {
            lemma_pow0(10);
        }
        while i > cut
            invariant
                cut <= i <= len,
                0 < cut,
                len - cut <= 17,
                len == all.len(),
                all == self.digits@,
                all_digits(all),
                head == high_number(all, i as int),
                head < pow(10, (len - i) as nat),
            decreases i,
        {
            i = i - 1;
            let d: u8 = self.digits[i];
            proof {
                lemma_high_step(all, i as int);
                lemma_pow_adds(10, 1, (len - i - 1) as nat);
                vstd::arithmetic::power::lemma_pow1(10);
                lemma_seventeen((len - i) as nat);
            }
            head = 10 * head + d as u64;
        }
        proof {
            lemma_seventeen((len - cut) as nat);
            lemma_number_split(all, cut as int);
            assert(all_digits(all.take(cut as int)));
            lemma_number_bound(all.take(cut as int));
            vstd::arithmetic::div_mod::lemma_fundamental_div_mod_converse(
                number(all) as int,
                pow(10, cut as nat),
                head as int,
                number(all.take(cut as int)) as int,
            );
            lemma_cut(all, cut as int);
        }
        let top: u8 = self.digits[cut - 1];
        let rest = self.any_below(cut - 1);
        let up = match ties {
            Ties::ToEven => head % 2 == 1,
            Ties::Away => true,
        };
        if top > 5 || (top == 5 && (rest || up)) {
            (head, head + 1)
        } else {
            (head, head)
        }
    }

    /// Whether any of the lowest digits is not zero.
    fn any_below(&self, count: usize) -> (r: bool)
        requires
            self.valid(),
            count <= self.digits@.len(),
        ensures
            r == (number(self.digits@.take(count as int)) > 0),
    {
        let ghost all = self.digits@;
        let mut any = false;
        let mut i: usize = 0;
        proof {
            assert(all.take(0) =~= Seq::<u8>::empty());
        }
        while i < count
            invariant
                i <= count <= all.len(),
                all == self.digits@,
                any == (number(all.take(i as int)) > 0),
            decreases count - i,
        {
            proof {
                lemma_number_push(all.take(i as int), all[i as int]);
                assert(all.take(i as int).push(all[i as int]) =~= all.take(i + 1));
                let d = all[i as int];
                let p = pow(10, i as nat);
                lemma_pow_positive(10, i as nat);
                assert(d > 0 ==> d * p > 0) by (nonlinear_arith)
                    requires
                        p > 0,
                ;
                assert(d == 0 ==> d * p == 0) by (nonlinear_arith);
            }
            if self.digits[i] > 0 {
                any = true;
            }
            i = i + 1;
        }
        any
    }
}

/// Seventeen digits fit 64 bits.
pub(crate) proof fn lemma_seventeen(k: nat)
    requires
        k <= 17,
    ensures
        pow(10, k) <= 100_000_000_000_000_000,
{
    vstd::arithmetic::power::lemma_pow_increases(10, k, 17);
    assert(pow(10, 17) == 100_000_000_000_000_000) by {
        reveal(pow);
        reveal_with_fuel(pow, 18);
    }
}

/// A binary64 number in decimal with exactly `places` digits after the point:
/// the exact value rounded to nearest, ties to even. A negative zero keeps its
/// sign.
pub open spec fn fixed_point(a: FloatValue, places: nat) -> Seq<char> {
    let text = fixed(nearest_even(a.magnitude * (pow(10, places) as nat), one()), places);
    if a.negative {
        seq!['-'] + text
    } else {
        text
    }
}

/// Renders a binary64 number with a fixed number of decimal places.
pub fn fixed_point_text(f: &Binary64, places: usize) -> (text: String)
    requires
        places < usize::MAX,
    ensures
        text@ == fixed_point(f@, places as nat),
{
    let (significand, scale) = f.parts();
    let mut digits = Digits::from_u64(significand);
    let ghost sig = significand as nat;
    let ghost mag = f@.magnitude;
    let ghost ten_p = pow(10, places as nat) as nat;
    proof {
        lemma_pow_positive(10, places as nat);
        lemma_pow2_pos(1074);
    }
    let mut digits = if scale >= 1074 {
        let up: u32 = (scale - 1074) as u32;
        digits.scale_by_power(2, up);
        proof {
            lemma_pow2(up as nat);
            lemma_pow2_adds(up as nat, 1074);
            let n = sig * pow2(up as nat) * ten_p;
            assert((mag * ten_p) * 1 == n * one()) by (nonlinear_arith)
                requires
                    mag == sig * pow2(scale as nat),
                    pow2(scale as nat) == pow2(up as nat) * one(),
                    n == sig * pow2(up as nat) * ten_p,
            ;
            lemma_same_ratio(mag * ten_p, one(), n, 1);
            assert(n / 1 == n && n % 1 == 0);
        }
        digits.shift_up(places)
    } else {
        let down: u32 = (1074 - scale) as u32;
        digits.scale_by_power(5, down);
        proof {
            lemma_pow2(down as nat);
            lemma_pow2_adds(scale as nat, down as nat);
            lemma_pow_distributes(2, 5, down as nat);
            assert(pow(10, down as nat) == pow2(down as nat) * pow(5, down as nat));
            lemma_pow_positive(5, down as nat);
        }
        let ghost five = pow(5, down as nat) as nat;
        let ghost ten_d = pow(10, down as nat) as nat;
        if places as u64 >= down as u64 {
            proof {
                let extra = (places - down) as nat;
                lemma_pow_adds(10, extra, down as nat);
                lemma_pow_positive(10, extra);
                let ten_e = pow(10, extra) as nat;
                let n = sig * five * ten_e;
                assert((mag * ten_p) * 1 == n * one()) by (nonlinear_arith)
                    requires
                        mag == sig * pow2(scale as nat),
                        one() == pow2(scale as nat) * pow2(down as nat),
                        ten_p == ten_e * ten_d,
                        ten_d == pow2(down as nat) * five,
                        n == sig * five * ten_e,
                ;
                lemma_same_ratio(mag * ten_p, one(), n, 1);
                assert(n / 1 == n && n % 1 == 0);
            }
            digits.shift_up(places - down as usize)
        } else {
            let cut: usize = down as usize - places;
            proof {
                lemma_pow_adds(10, cut as nat, places as nat);
                lemma_pow_positive(10, cut as nat);
                let ten_c = pow(10, cut as nat) as nat;
                assert((mag * ten_p) * ten_c == (sig * five) * one()) by (nonlinear_arith)
                    requires
                        mag == sig * pow2(scale as nat),
                        one() == pow2(scale as nat) * pow2(down as nat),
                        ten_d == ten_c * ten_p,
                        ten_d == pow2(down as nat) * five,
                ;
                lemma_same_ratio(mag * ten_p, one(), sig * five, ten_c);
            }
            digits.round_off(cut);
            digits
        }
    };
    let ghost n = nearest_even(mag * ten_p, one());
    assert(digits.value() == n);
    digits.pad(places + 1);
    digits.trim(places + 1);
    let ghost all = digits.digits@;
    let mut out = String::new();
    if f.negative() {
        out.push('-');
    }
    let len: usize = digits.digits.len();
    digits.spell(&mut out, places, len);
    proof {
        lemma_low_digits(all, places as nat);
        assert(all.subrange(places as int, len as int) =~= all.skip(places as int));
        assert(all_digits(all.skip(places as int)));
        lemma_decimal(all.skip(places as int));
    }
    if places > 0 {
        out.push('.');
        digits.spell(&mut out, 0, places);
        proof {
            assert(all.subrange(0, places as int) =~= all.take(places as int));
        }
    } else {
        proof {
            assert(all.skip(0) =~= all);
        }
    }
    out
}

} // verus!
