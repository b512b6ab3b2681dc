//! How sizes are shown to people.

use vstd::arithmetic::power::{
    lemma_pow0, lemma_pow1, lemma_pow_adds, lemma_pow_increases, lemma_pow_positive, pow,
};
use vstd::arithmetic::power2::{lemma2_to64, lemma2_to64_rest, lemma_pow2_adds, lemma_pow2_pos, pow2};
use vstd::math::abs;
use vstd::prelude::*;

use crate::binary64::{
    half_away, lemma_round53_bound, of_int, one, round53, small_integers_convert_exactly, FloatValue,
};
use crate::hash::{hundredths_text, in_hundredths, in_next_unit, size_text};
use crate::laws::floats::lemma_relative;
use crate::laws::rounding::spells_decimal;
use crate::text::{decimal, digits_value, lemma_decimal_reads_back};

verus! {

/// Whether a text spells so many hundredths, without zeros at the end of its
/// places.
pub open spec fn spells_hundredths(text: Seq<char>, k: nat) -> bool {
    if k % 100 == 0 {
        digits_value(text) == Some(k / 100)
    } else if k % 10 == 0 {
        spells_decimal(text, 1, k / 10)
    } else {
        spells_decimal(text, 2, k)
    }
}

/// The names of the units of a thousand.
pub open spec fn unit_names() -> Seq<Seq<char>> {
    seq!["B"@, "KB"@, "MB"@, "GB"@, "TB"@, "PB"@, "EB"@]
}

/// Whether so many hundredths of a unit are a number of bytes, up to half a
/// hundredth and a part in 2^41.
pub open spec fn is_near(bytes: nat, unit: nat, k: nat) -> bool {
    0x40_0000_0000_0000 * abs(k * pow(1000, unit) - 100 * bytes) <= 0x20_0000_0000_0000 * pow(1000, unit)
        + 4200 * bytes
}

/// Whether a text shows a number of bytes in a unit, with at most two decimal
/// places and less than a thousand in front of them unless the unit is the
/// largest.
pub open spec fn shows_size(text: Seq<char>, bytes: nat, unit: nat, k: nat) -> bool {
    &&& unit <= 6
    &&& exists|number: Seq<char>|
        text == #[trigger] (number + seq![' ']) + unit_names()[unit as int] && (if unit == 0 {
            digits_value(number) == Some(k / 100)
        } else {
            spells_hundredths(number, k)
        })
    &&& is_near(bytes, unit, k)
    &&& unit < 6 ==> k < 100_000
}

proof fn lemma_hundredths(k: nat)
    ensures
        spells_hundredths(hundredths_text(k), k),
{
    let high = decimal(k / 100);
    let tenth = (k / 10) % 10;
    let last = k % 10;
    lemma_decimal_reads_back(k / 100);
    let t = crate::text::digit(tenth);
    let l = crate::text::digit(last);
    assert(48 <= t as int <= 57 && t as int - 48 == tenth);
    assert(48 <= l as int <= 57 && l as int - 48 == last);
    crate::laws::texts::digits_spell_numbers(high, t);
    crate::laws::texts::digits_spell_numbers(high.push(t), l);
    assert(10 * (k / 100) + tenth == k / 10);
    assert(10 * (k / 10) + last == k);
    let text = hundredths_text(k);
    if k % 100 != 0 {
        if k % 10 == 0 {
            let point = text.len() - 2;
            assert(point == high.len());
            assert(text.take(point) + text.skip(point + 1) =~= high.push(t));
        } else {
            let point = text.len() - 3;
            assert(point == high.len());
            assert(text.take(point) + text.skip(point + 1) =~= high.push(t).push(l));
        }
    }
}

/// How far a size in a unit is from the bytes.
spec fn is_tracked(size: FloatValue, bytes: nat, unit: nat) -> bool {
    0x20_0000_0000_0000 * abs(size.magnitude * pow(1000, unit) - bytes * one()) <= (3 * unit + 1) * (bytes
        * one())
}

/// The powers of a thousand, and how much wider numbers are.
proof fn lemma_units(unit: nat)
    requires
        unit <= 6,
    ensures
        1 <= pow(1000, unit) <= 1_000_000_000_000_000_000,
        pow(1000, unit + 1) == pow(1000, unit) * 1000,
        500 * 0x20_0000_0000_0000 * pow(1000, unit) <= one(),
        one() > 0,
{
    lemma_pow_positive(1000, unit);
    lemma_pow_increases(1000, unit, 6);
    assert(pow(1000, 6) == 1_000_000_000_000_000_000) by {
        reveal(pow);
        reveal_with_fuel(pow, 7);
    }
    lemma_pow_adds(1000, unit, 1);
    lemma_pow1(1000);
    lemma2_to64();
    lemma2_to64_rest();
    lemma_pow2_adds(64, 64);
    lemma_pow2_adds(128, 946);
    lemma_pow2_pos(946);
    let big = pow2(128) as int;
    assert(big == 0x1_0000_0000_0000_0000 * 0x1_0000_0000_0000_0000);
    assert(one() >= big) by (nonlinear_arith)
        requires
            one() == big * pow2(946),
            pow2(946) >= 1,
            big > 0,
    ;
    let p = pow(1000, unit);
    assert(500 * 0x20_0000_0000_0000 * p <= 4_503_599_627_370_496_000_000_000_000_000_000_000int) by (
    nonlinear_arith)
        requires
            p <= 1_000_000_000_000_000_000,
    ;
    assert(big >= 340_282_366_920_938_463_463_374_607_431_768_211_456int);
}

/// A size in the next unit is tracked as well.
proof fn lemma_next(size: FloatValue, bytes: nat, unit: nat)
    requires
        unit < 6,
        0 < bytes < 0x1_0000_0000_0000_0000,
        is_tracked(size, bytes, unit),
    ensures
        is_tracked(in_next_unit(size), bytes, unit + 1),
{
    lemma_units(unit);
    small_integers_convert_exactly(1000);
    let u = one() as int;
    let p = pow(1000, unit);
    let b = 0x20_0000_0000_0000int;
    let s = size.magnitude as int;
    let thousand = (of_int(1000)->0).magnitude;
    assert(thousand == 1000 * u);
    lemma_relative(size.magnitude * one(), thousand);
    let n = round53(size.magnitude * one(), thousand);
    lemma_finite(size, bytes, unit);
    assert(in_next_unit(size).magnitude == n);
    let off = abs(n * 1000 - s) as int;
    assert(abs(n * thousand - size.magnitude * one()) == off * u) by (nonlinear_arith)
        requires
            thousand == 1000 * u,
            u > 0,
            off == n * 1000 - s || off == s - n * 1000,
            off >= 0,
            u == one(),
            s == size.magnitude,
    ;
    assert(b * off <= s + 500 * b) by (nonlinear_arith)
        requires
            b * (off * u) <= s * u + 0x10_0000_0000_0000 * (1000 * u),
            b == 0x20_0000_0000_0000,
            u > 0,
    ;
    let err = abs(s * p - bytes * u) as int;
    let bu = bytes * u;
    assert(bu > 0) by (nonlinear_arith)
        requires
            bytes > 0,
            u > 0,
            bu == bytes * u,
    ;
    assert(s * p <= 2 * bu) by {
        assert(b * err <= 19 * bu) by (nonlinear_arith)
            requires
                b * err <= (3 * unit + 1) * bu,
                unit <= 6,
                bu > 0,
        ;
    }
    let more = abs(n * (p * 1000) - bu) as int;
    assert(n * (p * 1000) - bu == (n * 1000 - s) * p + (s * p - bu)) by (nonlinear_arith);
    assert(more <= off * p + err) by (nonlinear_arith)
        requires
            more == (n * 1000 - s) * p + (s * p - bu) || more == -((n * 1000 - s) * p + (s * p - bu)),
            off >= n * 1000 - s,
            off >= s - n * 1000,
            err >= s * p - bu,
            err >= bu - s * p,
            p >= 1,
    ;
    assert(b * (off * p) <= s * p + 500 * b * p) by (nonlinear_arith)
        requires
            b * off <= s + 500 * b,
            p >= 1,
    ;
    assert(500 * b * p <= bu) by (nonlinear_arith)
        requires
            500 * b * p <= u,
            bu == bytes * u,
            bytes >= 1,
            u > 0,
    ;
    assert(b * more <= (3 * (unit + 1) + 1) * bu) by (nonlinear_arith)
        requires
            more <= off * p + err,
            b * (off * p) <= s * p + 500 * b * p,
            s * p <= 2 * bu,
            500 * b * p <= bu,
            b * err <= (3 * unit + 1) * bu,
            b == 0x20_0000_0000_0000,
    ;
}

/// Sizes and their hundredths stay finite.
proof fn lemma_finite(size: FloatValue, bytes: nat, unit: nat)
    requires
        unit <= 6,
        bytes < 0x1_0000_0000_0000_0000,
        is_tracked(size, bytes, unit),
    ensures
        size.magnitude * pow(1000, unit) <= 2 * (bytes * one()),
        in_next_unit(size).magnitude == round53(size.magnitude * one(), (of_int(1000)->0).magnitude),
        in_hundredths(size) == half_away(round53(size.magnitude * (of_int(100)->0).magnitude, one())),
{
    lemma_units(unit);
    small_integers_convert_exactly(100);
    small_integers_convert_exactly(1000);
    let u = one() as int;
    let p = pow(1000, unit);
    let s = size.magnitude as int;
    let bu = bytes * u;
    let err = abs(s * p - bu) as int;
    assert(bu >= 0) by (nonlinear_arith)
        requires
            bytes >= 0,
            u > 0,
            bu == bytes * u,
    ;
    assert(0x20_0000_0000_0000 * err <= 19 * bu) by (nonlinear_arith)
        requires
            0x20_0000_0000_0000 * err <= (3 * unit + 1) * bu,
            unit <= 6,
            bu >= 0,
    ;
    assert(s * p <= 2 * bu);
    assert(s <= 0x2_0000_0000_0000_0000 * u) by (nonlinear_arith)
        requires
            s * p <= 2 * bu,
            bu == bytes * u,
            bytes <= 0x1_0000_0000_0000_0000,
            p >= 1,
            s >= 0,
            u > 0,
    ;
    let hundred = (of_int(100)->0).magnitude;
    let thousand = (of_int(1000)->0).magnitude;
    assert(hundred == 100 * u && thousand == 1000 * u);
    let m = round53(size.magnitude * hundred, one());
    let n = round53(size.magnitude * one(), thousand);
    lemma_round53_bound(size.magnitude * hundred, one());
    lemma_round53_bound(size.magnitude * one(), thousand);
    assert(m <= 200 * s) by (nonlinear_arith)
        requires
            m * u <= 2 * (s * hundred),
            hundred == 100 * u,
            u > 0,
    ;
    assert(n <= s) by (nonlinear_arith)
        requires
            n * thousand <= 2 * (s * u),
            thousand == 1000 * u,
            s >= 0,
            n >= 0,
            u > 0,
    ;
    lemma2_to64();
    lemma2_to64_rest();
    lemma_pow2_adds(64, 64);
    lemma_pow2_adds(128, 1074);
    lemma_pow2_adds(1202, 896);
    lemma_pow2_pos(896);
    assert(m < pow2(2098) && n < pow2(2098)) by (nonlinear_arith)
        requires
            m <= 200 * s,
            n <= s,
            s <= 0x2_0000_0000_0000_0000 * u,
            pow2(1202) == 0x1_0000_0000_0000_0000 * 0x1_0000_0000_0000_0000 * u,
            pow2(2098) == pow2(1202) * pow2(896),
            pow2(896) >= 1,
            u > 0,
    ;
}

/// The hundredths of a size are near those of the bytes.
proof fn lemma_near(size: FloatValue, bytes: nat, unit: nat)
    requires
        unit <= 6,
        bytes < 0x1_0000_0000_0000_0000,
        is_tracked(size, bytes, unit),
    ensures
        is_near(bytes, unit, in_hundredths(size)),
{
    lemma_units(unit);
    lemma_finite(size, bytes, unit);
    small_integers_convert_exactly(100);
    let u = one() as int;
    let p = pow(1000, unit);
    let b = 0x20_0000_0000_0000int;
    let s = size.magnitude as int;
    let bu = bytes * u;
    let hundred = (of_int(100)->0).magnitude;
    assert(hundred == 100 * u);
    let m = round53(size.magnitude * hundred, one()) as int;
    assert((s * hundred) % u == 0) by {
        assert(s * hundred == (100 * s) * u) by (nonlinear_arith)
            requires
                hundred == 100 * u,
        ;
        vstd::arithmetic::div_mod::lemma_mod_multiples_basic(100 * s, u);
    }
    lemma_relative(size.magnitude * hundred, one());
    let off = abs(m - 100 * s) as int;
    assert(b * off <= 100 * s) by (nonlinear_arith)
        requires
            b * abs(m * u - s * hundred) <= s * hundred,
            abs(m * u - s * hundred) == m * u - s * hundred || abs(m * u - s * hundred) == s * hundred - m * u,
            hundred == 100 * u,
            off == m - 100 * s || off == 100 * s - m,
            off >= 0,
            abs(m * u - s * hundred) >= 0,
            b == 0x20_0000_0000_0000,
            u > 0,
    ;
    let k = in_hundredths(size) as int;
    let gap = abs(k * u - m) as int;
    lemma_half_away(m as nat, one());
    assert(2 * gap <= u);
    let err = abs(s * p - bu) as int;
    let total = abs(k * p - 100 * bytes) as int;
    assert((k * p - 100 * bytes) * u == (k * u - m) * p + (m - 100 * s) * p + 100 * (s * p - bu)) by (
    nonlinear_arith)
        requires
            bu == bytes * u,
    ;
    assert(total * u <= gap * p + off * p + 100 * err) by (nonlinear_arith)
        requires
            (k * p - 100 * bytes) * u == (k * u - m) * p + (m - 100 * s) * p + 100 * (s * p - bu),
            total == k * p - 100 * bytes || total == 100 * bytes - k * p,
            gap >= k * u - m,
            gap >= m - k * u,
            off >= m - 100 * s,
            off >= 100 * s - m,
            err >= s * p - bu,
            err >= bu - s * p,
            p >= 1,
    ;
    assert(bu >= 0) by (nonlinear_arith)
        requires
            bytes >= 0,
            u > 0,
            bu == bytes * u,
    ;
    assert(b * err <= 19 * bu) by (nonlinear_arith)
        requires
            b * err <= (3 * unit + 1) * bu,
            unit <= 6,
            bu >= 0,
    ;
    assert(b * (off * p) <= 200 * bu) by (nonlinear_arith)
        requires
            b * off <= 100 * s,
            s * p <= 2 * bu,
            p >= 1,
    ;
    assert(2 * b * (gap * p) <= b * (u * p)) by (nonlinear_arith)
        requires
            2 * gap <= u,
            p >= 1,
            b == 0x20_0000_0000_0000,
    ;
    assert(2 * b * (total * u) <= b * (u * p) + 4200 * bu) by (nonlinear_arith)
        requires
            total * u <= gap * p + off * p + 100 * err,
            2 * b * (gap * p) <= b * (u * p),
            b * (off * p) <= 200 * bu,
            b * err <= 19 * bu,
            b == 0x20_0000_0000_0000,
    ;
    assert(2 * b * total <= b * p + 4200 * bytes) by (nonlinear_arith)
        requires
            2 * b * (total * u) <= b * (u * p) + 4200 * bu,
            bu == bytes * u,
            u > 0,
    ;
}

proof fn lemma_half_away(m: nat, unit: nat)
    requires
        unit == one(),
        unit > 0,
    ensures
        2 * abs(half_away(m) * unit - m) <= unit,
{
    vstd::arithmetic::div_mod::lemma_fundamental_div_mod(m as int, unit as int);
    let q = (m / unit) as int;
    assert(unit * q == q * unit && (q + 1) * unit == q * unit + unit) by (nonlinear_arith);
}

proof fn lemma_shown(size: FloatValue, bytes: nat, unit: nat) -> (shown: (nat, nat))
    requires
        unit <= 6,
        bytes < 0x1_0000_0000_0000_0000,
        is_tracked(size, bytes, unit),
        unit > 0 ==> exceeds(bytes, (unit - 1) as nat),
        bytes > 0 || unit == 0,
    ensures
        shows_size(size_text(size, unit), bytes, shown.0, shown.1),
        shown.0 > 0 ==> exceeds(bytes, (shown.0 - 1) as nat),
    decreases 6 - unit,
{
    lemma_near(size, bytes, unit);
    let k = in_hundredths(size);
    if unit >= 6 || k < 100_000 {
        lemma_hundredths(k);
        lemma_decimal_reads_back(k / 100);
        let number = if unit == 0 {
            decimal(k / 100)
        } else {
            hundredths_text(k)
        };
        assert(number.push(' ') =~= number + seq![' ']);
        assert(crate::hash::unit_name(unit) == unit_names()[unit as int]);
        assert(size_text(size, unit) == (number + seq![' ']) + unit_names()[unit as int]);
        (unit, k)
    } else {
        lemma_exceeds(bytes, unit, k);
        if bytes == 0 {
            lemma_pow0(1000);
            assert(pow(1000, 0) == 1);
            assert(false) by (nonlinear_arith)
                requires
                    is_near(bytes, unit, k),
                    0x40_0000_0000_0000 * abs(k * pow(1000, unit) - 100 * bytes) <= 0x20_0000_0000_0000 * pow(
                        1000,
                        unit,
                    ) + 4200 * bytes,
                    abs(k * pow(1000, unit) - 100 * bytes) >= k * pow(1000, unit) - 100 * bytes,
                    bytes == 0,
                    pow(1000, unit) == 1,
                    k >= 100_000,
            ;
        }
        lemma_finite(size, bytes, unit);
        lemma_next(size, bytes, unit);
        lemma_shown(in_next_unit(size), bytes, unit + 1)
    }
}

/// Whether bytes come to a thousand or more of a unit, up to half a hundredth
/// and a part in 2^41.
pub open spec fn exceeds(bytes: nat, unit: nat) -> bool {
    0x40_0000_0000_0000 * (100_000 * pow(1000, unit) - 100 * bytes) <= 0x20_0000_0000_0000 * pow(1000, unit)
        + 4200 * bytes
}

proof fn lemma_exceeds(bytes: nat, unit: nat, k: nat)
    requires
        unit <= 6,
        is_near(bytes, unit, k),
        k >= 100_000,
    ensures
        exceeds(bytes, unit),
{
    lemma_units(unit);
    let p = pow(1000, unit);
    assert(100_000 * p <= k * p) by (nonlinear_arith)
        requires
            k >= 100_000,
            p >= 1,
    ;
}

/// Less than a thousand bytes are shown as they are. More are shown in the first
/// unit in which they round to less than a thousand, or in the largest, rounded
/// to hundredths.
pub proof fn sizes_are_shown_to_the_hundredth(bytes: u64)
    ensures
        ({
            let text = size_text(of_int(bytes as int)->0, 0);
            &&& bytes < 1000 ==> text == decimal(bytes as nat) + seq![' ', 'B']
            &&& exists|unit: nat, k: nat| #[trigger]
                shows_size(text, bytes as nat, unit, k) && (unit > 0 ==> exceeds(
                    bytes as nat,
                    (unit - 1) as nat,
                ))
        }),
{
    let size = of_int(bytes as int)->0;
    let n = bytes as nat;
    lemma_pow0(1000);
    lemma_units(0);
    let u = one() as int;
    lemma_relative(n * one(), 1);
    lemma_round53_bound(n * one(), 1);
    lemma_pow2_adds(64, 1074);
    lemma_pow2_adds(1138, 960);
    lemma2_to64_rest();
    lemma_pow2_adds(1, 959);
    lemma_pow2_pos(959);
    lemma2_to64();
    let m = round53(n * one(), 1);
    assert(m < pow2(2098)) by (nonlinear_arith)
        requires
            m <= 2 * (n * u),
            n < 0x1_0000_0000_0000_0000,
            pow2(1138) == 0x1_0000_0000_0000_0000 * u,
            pow2(2098) == pow2(1138) * pow2(960),
            pow2(960) >= 2,
            u > 0,
    ;
    assert(size.magnitude == m);
    assert(m * 1 == m);
    let whole = n * one();
    assert(whole % 1 == 0);
    let zero: nat = 0;
    assert((3 * zero + 1) * whole == whole) by (nonlinear_arith)
        requires
            zero == 0,
    ;
    assert(size.magnitude * pow(1000, 0) == m);
    assert(is_tracked(size, n, 0));
    let (unit, k) = lemma_shown(size, n, 0);
    if bytes < 1000 {
        lemma_near(size, n, 0);
        let h = in_hundredths(size);
        assert(h == 100 * n);
        reveal_strlit("B");
        assert(size_text(size, 0) =~= decimal(n) + seq![' ', 'B']);
    }
}

} // verus!
