//! How floating-point numbers are shown.

use vstd::arithmetic::power::{lemma_pow0, lemma_pow1, lemma_pow_adds, lemma_pow_positive, pow};
use vstd::math::abs;
use vstd::prelude::*;

use crate::binary64::decoded;
use crate::decimal::Ties;
use crate::laws::floats::{lemma_encoded, lemma_round_nearest};
use crate::laws::rounding::{spells_decimal, without_sign};
use crate::repr::{
    exponent_text, five_power, float_text, plain_float_text, positional, scientific, significant, written_digits, zeros,
};
use crate::text::{decimal, digits_value, lemma_decimal_reads_back};

verus! {

/// Whether a text is a number with one digit before the point and an exponent
/// of at least two digits with its sign: `k` with so many places, times ten to
/// the power of `e`.
pub open spec fn spells_scientific(text: Seq<char>, places: nat, k: nat, e: int) -> bool {
    let end: int = if places == 0 {
        1
    } else {
        places as int + 2
    };
    &&& end + 4 <= text.len()
    &&& if places == 0 {
        digits_value(text.take(end)) == Some(k)
    } else {
        spells_decimal(text.take(end), places, k)
    }
    &&& text[end] == 'e'
    &&& text[end + 1] == if e < 0 {
        '-'
    } else {
        '+'
    }
    &&& digits_value(text.skip(end + 2)) == Some(abs(e))
}

/// Whether a text spells `x` times ten to the power of -1074 with a point and no
/// exponent.
pub open spec fn spells_with_point(text: Seq<char>, x: nat) -> bool {
    exists|places: nat, k: nat| #[trigger]
        spells_decimal(text, places, k) && 0 < places <= 1074 && x == k * pow(10, (1074 - places) as nat)
}

/// Whether a text spells `x` times ten to the power of -1074 with an exponent.
pub open spec fn spells_with_exponent(text: Seq<char>, x: nat) -> bool {
    exists|places: nat, k: nat, e: int| #[trigger]
        spells_scientific(text, places, k, e) && 1074 + e - places >= 0 && x == k * pow(
            10,
            (1074 + e - places) as nat,
        )
}

/// Whether a text spells `x` times ten to the power of -1074: without an
/// exponent where that is zero, or at least a ten-thousandth and below ten to
/// the power of sixteen, and with one otherwise.
pub open spec fn shows_decimal(text: Seq<char>, x: nat) -> bool {
    if x == 0 || pow(10, 1070) <= x < pow(10, 1090) {
        spells_with_point(text, x)
    } else {
        spells_with_exponent(text, x)
    }
}

proof fn lemma_zeros_value(z: nat)
    requires
        z > 0,
    ensures
        digits_value(zeros(z)) == Some(0nat),
    decreases z,
{
    let text = zeros(z);
    if z > 1 {
        lemma_zeros_value((z - 1) as nat);
        assert(text.drop_last() =~= zeros((z - 1) as nat));
    }
    assert(text.last() == '0');
}

/// Zeros before digits add nothing.
proof fn lemma_leading_zeros(z: nat, digits: Seq<char>)
    requires
        digits_value(digits) is Some,
    ensures
        digits_value(zeros(z) + digits) == digits_value(digits),
    decreases digits.len(),
{
    let text = zeros(z) + digits;
    if z == 0 {
        assert(text =~= digits);
    } else {
        assert(digits.len() > 0);
        assert(text.last() == digits.last());
        assert(text.drop_last() =~= zeros(z) + digits.drop_last());
        if digits.len() > 1 {
            lemma_leading_zeros(z, digits.drop_last());
        } else {
            lemma_zeros_value(z);
            assert(text.drop_last() =~= zeros(z));
        }
    }
}

/// Each zero after digits makes ten times the number.
proof fn lemma_trailing_zeros(digits: Seq<char>, z: nat)
    requires
        digits_value(digits) is Some,
    ensures
        digits_value(digits + zeros(z)) == Some((digits_value(digits)->0 * pow(10, z)) as nat),
    decreases z,
{
    let text = digits + zeros(z);
    let v = digits_value(digits)->0;
    if z == 0 {
        assert(text =~= digits);
        lemma_pow0(10);
        assert(v * 1 == v);
    } else {
        let less = (z - 1) as nat;
        lemma_trailing_zeros(digits, less);
        assert(text.drop_last() =~= digits + zeros(less));
        assert(text.last() == '0');
        lemma_pow_adds(10, less, 1);
        lemma_pow1(10);
        lemma_pow_positive(10, less);
        let p = pow(10, less);
        assert(v * (p * 10) == 10 * (v * p)) by (nonlinear_arith);
        assert(v * p >= 0) by (nonlinear_arith)
            requires
                v >= 0,
                p > 0,
        ;
    }
}

/// The digits of a number are as many as its size asks for.
proof fn lemma_decimal_len(n: nat)
    requires
        n > 0,
    ensures
        decimal(n).len() > 0,
        pow(10, (decimal(n).len() - 1) as nat) <= n < pow(10, decimal(n).len()),
    decreases n,
{
    if n < 10 {
        lemma_pow0(10);
        lemma_pow1(10);
        assert(decimal(n).len() == 1);
    } else {
        let h = n / 10;
        lemma_decimal_len(h);
        let len = decimal(h).len();
        assert(decimal(n).len() == len + 1);
        lemma_pow_adds(10, (len - 1) as nat, 1);
        lemma_pow_adds(10, len, 1);
        lemma_pow1(10);
    }
}

/// The form of a positional text.
proof fn lemma_positional(d: nat, point: int, cut: nat)
    requires
        d > 0,
        point == decimal(d).len() + cut - 1074,
        -1074 < point,
    ensures
        spells_with_point(positional(decimal(d), point, seq!['.', '0']), (d * pow(10, cut)) as nat),
{
    let digits = decimal(d);
    let len = digits.len() as int;
    let text = positional(digits, point, seq!['.', '0']);
    lemma_decimal_reads_back(d);
    lemma_pow_positive(10, cut);
    let x = (d * pow(10, cut)) as nat;
    assert(d * pow(10, cut) >= 0) by (nonlinear_arith)
        requires
            d >= 0,
            pow(10, cut) > 0,
    ;
    if point <= 0 {
        let places = (len - point) as nat;
        let z = (-point) as nat;
        let end = text.len() - 1 - places;
        assert(text =~= seq!['0', '.'] + zeros(z) + digits);
        assert(end == 1);
        assert(text.take(end) + text.skip(end + 1) =~= zeros(z + 1) + digits);
        lemma_leading_zeros(z + 1, digits);
        assert(spells_decimal(text, places, d));
    } else if point >= len {
        let z = (point - len) as nat;
        let k = (d * pow(10, z + 1)) as nat;
        lemma_trailing_zeros(digits, z + 1);
        assert(text =~= digits + zeros(z) + seq!['.', '0']);
        let end = text.len() - 1 - 1;
        assert(text.take(end) + text.skip(end + 1) =~= digits + zeros(z + 1));
        assert(spells_decimal(text, 1, k));
        lemma_pow_adds(10, z + 1, 1073);
        lemma_pow_positive(10, z + 1);
        lemma_pow_positive(10, 1073);
        assert(z + 1 + 1073 == cut);
        assert(k * pow(10, 1073) == d * pow(10, cut)) by (nonlinear_arith)
            requires
                k == d * pow(10, z + 1),
                pow(10, cut) == pow(10, z + 1) * pow(10, 1073),
        ;
        assert((1074 - 1) as nat == 1073);
    } else {
        let places = (len - point) as nat;
        let end = text.len() - 1 - places;
        assert(end == point);
        assert(text.take(end) + text.skip(end + 1) =~= digits);
        assert(spells_decimal(text, places, d));
    }
}

/// The form of a text with an exponent.
proof fn lemma_scientific(d: nat, point: int, cut: nat)
    requires
        d > 0,
        point == decimal(d).len() + cut - 1074,
    ensures
        spells_with_exponent(scientific(decimal(d), point), (d * pow(10, cut)) as nat),
{
    let digits = decimal(d);
    let len = digits.len() as int;
    let e = point - 1;
    let text = scientific(digits, point);
    lemma_decimal_reads_back(d);
    lemma_decimal_reads_back(abs(e));
    let places = (len - 1) as nat;
    let size = decimal(abs(e));
    let tail = if abs(e) < 10 {
        seq!['0'] + size
    } else {
        size
    };
    assert(seq!['0'] =~= zeros(1));
    lemma_leading_zeros(1, size);
    if abs(e) >= 10 {
        assert(size.len() >= 2) by {
            lemma_decimal_reads_back(abs(e) / 10);
        }
    }
    assert(exponent_text(e) =~= seq!['e', if e < 0 { '-' } else { '+' }] + tail);
    let end: int = if places == 0 {
        1
    } else {
        places as int + 2
    };
    let mantissa = text.take(end);
    if places == 0 {
        assert(mantissa =~= digits);
    } else {
        assert(mantissa =~= digits.take(1).push('.') + digits.skip(1));
        assert(mantissa.take(1) + mantissa.skip(2) =~= digits);
        assert(spells_decimal(mantissa, places, d));
    }
    assert(text.skip(end + 2) =~= tail);
    assert(spells_scientific(text, places, d, e));
    assert(1074 + e - places == cut);
    lemma_pow_positive(10, cut);
    assert(d * pow(10, cut) >= 0) by (nonlinear_arith)
        requires
            d >= 0,
            pow(10, cut) > 0,
    ;
}

/// A finite number is shown with its sign and with a decimal to which no other
/// number is nearer. It is shown without an exponent exactly if that decimal is
/// zero, or at least a ten-thousandth and below ten to the power of sixteen.
pub proof fn shown_numbers_read_back(bits: u64, other: u64)
    requires
        decoded(bits) is Some,
        decoded(other) is Some,
    ensures
        ({
            let f = decoded(bits)->0;
            let text = float_text(f);
            &&& f.negative ==> text.len() > 0 && text[0] == '-'
            &&& exists|x: nat| #[trigger]
                shows_decimal(without_sign(text, f.negative), x) && abs(f.magnitude * pow(5, 1074) - x)
                    <= abs(decoded(other)->0.magnitude * pow(5, 1074) - x)
        }),
{
    let f = decoded(bits)->0;
    let m = f.magnitude;
    let text = float_text(f);
    lemma_pow_positive(5, 1074);
    if m == 0 {
        let body = seq!['0', '.', '0'];
        assert(without_sign(text, f.negative) =~= body);
        assert(body.take(1) + body.skip(2) =~= zeros(2));
        lemma_zeros_value(2);
        assert(spells_decimal(body, 1, 0));
        assert(0 * pow(10, 1073) == 0);
        assert((1074 - 1) as nat == 1073);
        assert(spells_with_point(body, 0));
        assert(shows_decimal(body, 0));
        assert(0 * pow(5, 1074) == 0);
        assert(decoded(other)->0.magnitude * pow(5, 1074) >= 0) by (nonlinear_arith)
            requires
                pow(5, 1074) > 0,
                decoded(other)->0.magnitude >= 0,
        ;
    } else {
        let (d, cut) = written_digits(m, Ties::ToEven);
        let (digits, point) = significant(m, Ties::ToEven);
        crate::repr::written_digits_read_back(bits, Ties::ToEven);
        let x = (d * pow(10, cut)) as nat;
        lemma_pow_positive(10, cut);
        let (s, j) = lemma_encoded(other);
        lemma_round_nearest(x, five_power(), s, j);
        lemma_written_positive(x, m);
        assert(d > 0) by (nonlinear_arith)
            requires
                d * pow(10, cut) > 0,
                pow(10, cut) > 0,
        ;
        lemma_size(d, cut);
        if -4 < point <= 16 {
            lemma_positional(d, point, cut);
            let body = positional(digits, point, seq!['.', '0']);
            assert(without_sign(text, f.negative) =~= body);
        } else {
            lemma_scientific(d, point, cut);
            assert(without_sign(text, f.negative) =~= scientific(digits, point));
        }
        assert(shows_decimal(without_sign(text, f.negative), x));
    }
}

/// Whether a text spells `x` times ten to the power of -1074 without an exponent
/// and without a point where the number is whole.
pub open spec fn spells_plainly(text: Seq<char>, x: nat) -> bool {
    ||| digits_value(text) matches Some(k) && x == k * pow(10, 1074)
    ||| spells_with_point(text, x)
}

/// A number in a message is written with its sign and without an exponent, with
/// a decimal to which no other number is nearer.
pub proof fn plain_numbers_read_back(bits: u64, other: u64)
    requires
        decoded(bits) is Some,
        decoded(other) is Some,
    ensures
        ({
            let f = decoded(bits)->0;
            let text = plain_float_text(f);
            &&& f.negative ==> text.len() > 0 && text[0] == '-'
            &&& exists|x: nat| #[trigger]
                spells_plainly(without_sign(text, f.negative), x) && abs(f.magnitude * pow(5, 1074) - x)
                    <= abs(decoded(other)->0.magnitude * pow(5, 1074) - x)
        }),
{
    let f = decoded(bits)->0;
    let m = f.magnitude;
    let text = plain_float_text(f);
    lemma_pow_positive(5, 1074);
    let body = without_sign(text, f.negative);
    if m == 0 {
        assert(body =~= zeros(1));
        lemma_zeros_value(1);
        assert(0 * pow(10, 1074) == 0);
        assert(spells_plainly(body, 0));
        assert(0 * pow(5, 1074) == 0);
        assert(decoded(other)->0.magnitude * pow(5, 1074) >= 0) by (nonlinear_arith)
            requires
                pow(5, 1074) > 0,
                decoded(other)->0.magnitude >= 0,
        ;
    } else {
        let (d, cut) = written_digits(m, Ties::Away);
        let (digits, point) = significant(m, Ties::Away);
        crate::repr::written_digits_read_back(bits, Ties::Away);
        let x = (d * pow(10, cut)) as nat;
        lemma_pow_positive(10, cut);
        let (s, j) = lemma_encoded(other);
        lemma_round_nearest(x, five_power(), s, j);
        lemma_written_positive(x, m);
        assert(d > 0) by (nonlinear_arith)
            requires
                d * pow(10, cut) > 0,
                pow(10, cut) > 0,
        ;
        assert(body =~= positional(digits, point, seq![]));
        lemma_decimal_reads_back(d);
        if point >= digits.len() && point > 0 {
            let z = (point - digits.len()) as nat;
            lemma_trailing_zeros(digits, z);
            assert(body =~= digits + zeros(z));
            lemma_pow_adds(10, z, 1074);
            lemma_pow_positive(10, z);
            let k = (d * pow(10, z)) as nat;
            assert(d * pow(10, z) >= 0) by (nonlinear_arith)
                requires
                    d >= 0,
                    pow(10, z) > 0,
            ;
            assert(k * pow(10, 1074) == d * pow(10, cut)) by (nonlinear_arith)
                requires
                    k == d * pow(10, z),
                    pow(10, cut) == pow(10, z) * pow(10, 1074),
            ;
        } else {
            assert(positional(digits, point, seq![]) == positional(digits, point, seq!['.', '0']));
            lemma_positional(d, point, cut);
        }
        assert(spells_plainly(body, x));
    }
}

/// What reads as a positive magnitude is positive.
proof fn lemma_written_positive(x: nat, m: nat)
    requires
        m > 0,
        crate::repr::reads_as(x, m),
    ensures
        x > 0,
{
    lemma_pow_positive(5, 1074);
    if x == 0 {
        crate::laws::floats::lemma_round_zero(five_power());
    }
}

/// The place of the point tells the size of the decimal.
proof fn lemma_size(d: nat, cut: nat)
    requires
        d > 0,
    ensures
        ({
            let point = decimal(d).len() + cut - 1074;
            let x = d * pow(10, cut);
            -4 < point <= 16 <==> pow(10, 1070) <= x < pow(10, 1090)
        }),
{
    lemma_decimal_len(d);
    let len = decimal(d).len();
    let x = d * pow(10, cut);
    lemma_pow_adds(10, (len - 1) as nat, cut);
    lemma_pow_adds(10, len, cut);
    lemma_pow_positive(10, cut);
    assert(pow(10, (len - 1 + cut) as nat) <= x < pow(10, (len + cut) as nat)) by (nonlinear_arith)
        requires
            pow(10, (len - 1) as nat) <= d < pow(10, len),
            x == d * pow(10, cut),
            pow(10, cut) > 0,
            pow(10, (len - 1 + cut) as nat) == pow(10, (len - 1) as nat) * pow(10, cut),
            pow(10, (len + cut) as nat) == pow(10, len) * pow(10, cut),
    ;
    let total = (len + cut) as nat;
    if total <= 1070 {
        vstd::arithmetic::power::lemma_pow_increases(10, total, 1070);
    } else {
        vstd::arithmetic::power::lemma_pow_increases(10, 1070, (total - 1) as nat);
    }
    if total <= 1090 {
        vstd::arithmetic::power::lemma_pow_increases(10, total, 1090);
    } else {
        vstd::arithmetic::power::lemma_pow_increases(10, 1090, (total - 1) as nat);
    }
}

} // verus!
