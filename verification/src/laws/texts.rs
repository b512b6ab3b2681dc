//! How numbers are spelled.

use vstd::arithmetic::power::{lemma_pow0, lemma_pow1, lemma_pow_adds, lemma_pow_positive, pow};
use vstd::prelude::*;

use crate::text::{decimal, digits_value, hex, int_text, integer_value, lemma_decimal_reads_back};

verus! {

/// A text spells a number if and only if it is made of one or more of the
/// digits from 0 to 9. One more digit makes it ten times the number and that
/// digit.
pub proof fn digits_spell_numbers(text: Seq<char>, c: char)
    ensures
        digits_value(text) is Some <==> text.len() > 0 && forall|i: int|
            0 <= i < text.len() ==> 48 <= (#[trigger] text[i]) as int <= 57,
        48 <= c as int <= 57 ==> digits_value(seq![c]) == Some((c as int - 48) as nat),
        48 <= c as int <= 57 ==> (digits_value(text) matches Some(n) ==> digits_value(text.push(c))
            == Some((10 * n + (c as int - 48)) as nat)),
    decreases text.len(),
{
    if text.len() > 0 {
        let rest = text.drop_last();
        digits_spell_numbers(rest, c);
        assert(text[text.len() - 1] == text.last());
        if digits_value(text) is Some {
            assert forall|i: int| 0 <= i < text.len() implies 48 <= (#[trigger] text[i]) as int <= 57 by {
                if i < text.len() - 1 {
                    assert(text[i] == rest[i]);
                }
            }
        }
        if forall|i: int| 0 <= i < text.len() ==> 48 <= (#[trigger] text[i]) as int <= 57 {
            assert forall|i: int| 0 <= i < rest.len() implies 48 <= (#[trigger] rest[i]) as int <= 57 by {
                assert(text[i] == rest[i]);
            }
        }
    }
    assert(text.push(c).drop_last() =~= text);
    assert(seq![c].last() == c);
}

/// A signed text spells the number or its negative, and a text without a sign
/// spells what its digits do.
pub proof fn signs_are_read(text: Seq<char>)
    ensures
        digits_value(text) is None && (text.len() == 0 || text[0] != '-' && text[0] != '+')
            ==> integer_value(text) is None,
        digits_value(text) matches Some(n) ==> {
            &&& integer_value(text) == Some(n as int)
            &&& integer_value(seq!['+'] + text) == Some(n as int)
            &&& integer_value(seq!['-'] + text) == Some(-(n as int))
        },
        digits_value(text) is None ==> {
            &&& integer_value(seq!['+'] + text) is None
            &&& integer_value(seq!['-'] + text) is None
        },
{
    digits_spell_numbers(text, '0');
    assert((seq!['+'] + text).skip(1) =~= text);
    assert((seq!['-'] + text).skip(1) =~= text);
    if digits_value(text) is Some {
        assert(48 <= text[0] as int <= 57);
    }
}

/// A number is spelled by digits that spell it, without a leading zero but for
/// zero itself; a negative one by a hyphen and those of its magnitude.
pub proof fn spelled_numbers_read_back(n: nat)
    ensures
        digits_value(decimal(n)) == Some(n),
        n > 0 ==> decimal(n)[0] != '0',
        n == 0 ==> decimal(n).len() == 1,
        int_text(n as int) == decimal(n),
        n > 0 ==> int_text(-(n as int)) == seq!['-'] + decimal(n),
    decreases n,
{
    lemma_decimal_reads_back(n);
    if n >= 10 {
        spelled_numbers_read_back(n / 10);
        lemma_decimal_reads_back(n / 10);
    }
}

/// Each hexadecimal digit of a number is that of its place, written as a digit
/// from 0 to 9 or as a letter from a to f.
pub proof fn hexadecimal_digits_have_their_places(n: nat, width: nat, i: int)
    requires
        0 <= i < width,
    ensures
        hex(n, width).len() == width,
        ({
            let d = (n as int / pow(16, (width - 1 - i) as nat)) % 16;
            hex(n, width)[i] as int == if d < 10 {
                48 + d
            } else {
                87 + d
            }
        }),
    decreases width,
{
    lemma_hex_len(n, width);
    lemma_hex_len(n / 16, (width - 1) as nat);
    if i == width - 1 {
        lemma_pow0(16);
    } else {
        hexadecimal_digits_have_their_places(n / 16, (width - 1) as nat, i);
        let e = (width - 2 - i) as nat;
        lemma_pow_adds(16, e, 1);
        lemma_pow1(16);
        lemma_pow_positive(16, e);
        vstd::arithmetic::div_mod::lemma_div_denominator(n as int, 16, pow(16, e));
        assert(16 * pow(16, e) == pow(16, e) * 16) by (nonlinear_arith);
    }
}

proof fn lemma_hex_len(n: nat, width: nat)
    ensures
        hex(n, width).len() == width,
    decreases width,
{
    if width > 0 {
        lemma_hex_len(n / 16, (width - 1) as nat);
    }
}

} // verus!
