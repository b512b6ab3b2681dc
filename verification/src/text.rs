//! Rendering of numbers as text.

use vstd::prelude::*;

verus! {

/// `String::push` of the standard library appends one character.
pub assume_specification[ std::string::String::push ](s: &mut std::string::String, c: char)
    ensures
        final(s)@ == old(s)@.push(c),
;

/// The character of a decimal digit.
pub open spec fn digit(d: nat) -> char {
    (48 + d) as char
}

/// A whole number in decimal, without leading zeros.
pub open spec fn decimal(n: nat) -> Seq<char>
    decreases n,
{
    if n < 10 {
        seq![digit(n)]
    } else {
        decimal(n / 10).push(digit(n % 10))
    }
}

/// An integer in decimal.
pub open spec fn int_text(i: int) -> Seq<char> {
    if i < 0 {
        seq!['-'] + decimal((-i) as nat)
    } else {
        decimal(i as nat)
    }
}

/// The last `places` decimal digits of a number.
pub open spec fn low_digits(n: nat, places: nat) -> Seq<char>
    decreases places,
{
    if places == 0 {
        seq![]
    } else {
        low_digits(n / 10, (places - 1) as nat).push(digit(n % 10))
    }
}

/// What is left of a number without its last `places` decimal digits.
pub open spec fn high_part(n: nat, places: nat) -> nat
    decreases places,
{
    if places == 0 {
        n
    } else {
        high_part(n / 10, (places - 1) as nat)
    }
}

/// `n / 10^places` in decimal, with exactly `places` digits after the point.
pub open spec fn fixed(n: nat, places: nat) -> Seq<char> {
    if places == 0 {
        decimal(n)
    } else {
        decimal(high_part(n, places)).push('.') + low_digits(n, places)
    }
}

/// The character of a hexadecimal digit in lower case.
pub open spec fn hex_digit(d: nat) -> char {
    if d < 10 {
        (48 + d) as char
    } else {
        (87 + d) as char
    }
}

/// The last `width` hexadecimal digits of a number.
pub open spec fn hex(n: nat, width: nat) -> Seq<char>
    decreases width,
{
    if width == 0 {
        seq![]
    } else {
        hex(n / 16, (width - 1) as nat).push(hex_digit(n % 16))
    }
}

/// Appends a wide number in decimal.
pub fn push_wide_decimal(s: &mut String, n: u128)
    ensures
        final(s)@ == old(s)@ + decimal(n as nat),
    decreases n,
{
    if n >= 10 {
        push_wide_decimal(s, n / 10);
    }
    s.push((48 + (n % 10) as u8) as char);
}

/// Appends a number in decimal.
pub fn push_decimal(s: &mut String, n: u64)
    ensures
        final(s)@ == old(s)@ + decimal(n as nat),
{
    push_wide_decimal(s, n as u128);
}

/// Appends an integer in decimal.
pub fn push_int(s: &mut String, i: i64)
    ensures
        final(s)@ == old(s)@ + int_text(i as int),
{
    if i < 0 {
        s.push('-');
        if i == i64::MIN {
            push_decimal(s, 0x8000_0000_0000_0000);
        } else {
            push_decimal(s, (-i) as u64);
        }
    } else {
        push_decimal(s, i as u64);
    }
}

fn push_hex(s: &mut String, n: u128, width: u32)
    ensures
        final(s)@ == old(s)@ + hex(n as nat, width as nat),
    decreases width,
{
    if width > 0 {
        push_hex(s, n / 16, width - 1);
        let d: u8 = (n % 16) as u8;
        if d < 10 {
            s.push((48 + d) as char);
        } else {
            s.push((87 + d) as char);
        }
    }
}

/// A 128-bit number as 32 hexadecimal digits.
pub fn hex32(n: u128) -> (s: String)
    ensures
        s@ == hex(n as nat, 32),
{
    let mut s = String::new();
    push_hex(&mut s, n, 32);
    s
}

/// Appends a character a number of times.
pub fn push_repeated(s: &mut String, c: char, count: usize)
    ensures
        final(s)@ == old(s)@ + Seq::new(count as nat, |i: int| c),
{
    let mut i: usize = 0;
    while i < count
        invariant
            i <= count,
            s@ == old(s)@ + Seq::new(i as nat, |i: int| c),
        decreases count - i,
    {
        s.push(c);
        i = i + 1;
    }
}

/// The number that decimal digits spell; `None` where a character is no digit
/// or there is none.
pub open spec fn digits_value(text: Seq<char>) -> Option<nat>
    decreases text.len(),
{
    if text.len() == 0 || !('0' <= text.last() <= '9') {
        None
    } else {
        let d = (text.last() as nat - 48) as nat;
        if text.len() == 1 {
            Some(d)
        } else {
            match digits_value(text.drop_last()) {
                Some(n) => Some(10 * n + d),
                None => None,
            }
        }
    }
}

/// The integer that a text spells, with an optional sign.
pub open spec fn integer_value(text: Seq<char>) -> Option<int> {
    if text.len() > 0 && (text[0] == '-' || text[0] == '+') {
        match digits_value(text.skip(1)) {
            Some(n) => Some(
                if text[0] == '-' {
                    -(n as int)
                } else {
                    n as int
                },
            ),
            None => None,
        }
    } else {
        match digits_value(text) {
            Some(n) => Some(n as int),
            None => None,
        }
    }
}

/// Leading digits spell no more than all of them.
proof fn lemma_digits_grow(text: Seq<char>, i: int)
    requires
        0 < i <= text.len(),
    ensures
        digits_value(text.take(i)) is None ==> digits_value(text) is None,
        match (digits_value(text.take(i)), digits_value(text)) {
            (Some(a), Some(b)) => a <= b,
            _ => true,
        },
    decreases text.len() - i,
{
    if i == text.len() {
        assert(text.take(i) =~= text);
    } else {
        lemma_digits_grow(text, i + 1);
        assert(text.take(i + 1).drop_last() =~= text.take(i));
    }
}

/// The number that digits spell, where 64 bits hold it.
fn parse_digits(text: &Vec<char>, from: usize) -> (r: Option<u64>)
    requires
        from <= text@.len(),
    ensures
        match r {
            Some(n) => digits_value(text@.skip(from as int)) == Some(n as nat),
            None => match digits_value(text@.skip(from as int)) {
                Some(n) => n > u64::MAX,
                None => true,
            },
        },
{
    let ghost digits = text@.skip(from as int);
    if from == text.len() {
        return None;
    }
    let mut n: u128 = 0;
    let mut i: usize = from;
    while i < text.len()
        invariant
            from <= i <= text@.len(),
            digits == text@.skip(from as int),
            n <= u64::MAX,
            i == from ==> n == 0,
            i > from ==> digits_value(digits.take(i - from)) == Some(n as nat),
        decreases text@.len() - i,
    {
        let c = text[i];
        proof {
            let longer = digits.take(i - from + 1);
            assert(longer.drop_last() =~= digits.take(i - from));
            assert(longer.last() == c);
            lemma_digits_grow(digits, i - from + 1);
        }
        if !('0' <= c && c <= '9') {
            return None;
        }
        let d: u128 = (c as u32 - 48) as u128;
        n = 10 * n + d;
        if n > u64::MAX as u128 {
            return None;
        }
        i = i + 1;
    }
    assert(digits.take(i - from) =~= digits);
    Some(n as u64)
}

/// Parses an unsigned integer; a plus sign may stand before it.
pub fn parse_u64(text: &str) -> (r: Option<u64>)
    ensures
        match r {
            Some(n) => text@[0] != '-' && integer_value(text@) == Some(n as int),
            None => text@.len() == 0 || text@[0] == '-' || match integer_value(text@) {
                Some(n) => n > u64::MAX,
                None => true,
            },
        },
{
    let chars = chars_of(text);
    if chars.len() == 0 || chars[0] == '-' {
        return None;
    }
    assert(chars@.skip(0) =~= chars@);
    if chars[0] == '+' {
        parse_digits(&chars, 1)
    } else {
        parse_digits(&chars, 0)
    }
}

/// Parses an integer; a sign may stand before it.
pub fn parse_i64(text: &str) -> (r: Option<i64>)
    ensures
        match r {
            Some(n) => integer_value(text@) == Some(n as int),
            None => match integer_value(text@) {
                Some(n) => n < i64::MIN || n > i64::MAX,
                None => true,
            },
        },
{
    let chars = chars_of(text);
    if chars.len() == 0 {
        return None;
    }
    assert(chars@.skip(0) =~= chars@);
    let negative = chars[0] == '-';
    let signed = negative || chars[0] == '+';
    let size: u64 = match parse_digits(
        &chars,
        if signed {
            1
        } else {
            0
        },
    ) {
        Some(size) => size,
        None => return None,
    };
    if negative {
        if size > 0x8000_0000_0000_0000 {
            None
        } else if size == 0x8000_0000_0000_0000 {
            Some(i64::MIN)
        } else {
            Some(-(size as i64))
        }
    } else if size > 0x7FFF_FFFF_FFFF_FFFF {
        None
    } else {
        Some(size as i64)
    }
}

/// The views of texts.
pub open spec fn text_views(texts: Seq<String>) -> Seq<Seq<char>> {
    Seq::new(texts.len(), |i: int| texts[i]@)
}

/// The characters of a text.
pub fn chars_of(text: &str) -> (r: Vec<char>)
    ensures
        r@ == text@,
{
    let mut out: Vec<char> = Vec::new();
    for c in it: text.chars()
        invariant
            out@ == text@.take(it.index()),
            it.seq() == text@,
    {
        out.push(c);
    }
    out
}

/// The text of the characters from `from` up to `to`.
pub fn text_of(chars: &Vec<char>, from: usize, to: usize) -> (r: String)
    requires
        from <= to <= chars@.len(),
    ensures
        r@ == chars@.subrange(from as int, to as int),
{
    let mut out = String::new();
    let mut i: usize = from;
    while i < to
        invariant
            from <= i <= to <= chars@.len(),
            out@ == chars@.subrange(from as int, i as int),
        decreases to - i,
    {
        out.push(chars[i]);
        i = i + 1;
    }
    out
}

/// A sequence repeated a number of times.
pub open spec fn repeated<A>(s: Seq<A>, times: nat) -> Seq<A>
    decreases times,
{
    if times == 0 {
        seq![]
    } else {
        repeated(s, (times - 1) as nat) + s
    }
}

pub proof fn lemma_repeated_len<A>(s: Seq<A>, times: nat)
    ensures
        repeated(s, times).len() == s.len() * times,
    decreases times,
{
    if times > 0 {
        lemma_repeated_len(s, (times - 1) as nat);
        assert(s.len() * (times - 1) + s.len() == s.len() * times) by (nonlinear_arith);
    } else {
        assert(s.len() * 0 == 0);
    }
}

pub(crate) proof fn lemma_decimal_reads_back(n: nat)
    ensures
        digits_value(decimal(n)) == Some(n),
        decimal(n).len() > 0,
        '0' <= decimal(n)[0] <= '9',
    decreases n,
{
    if n < 10 {
        assert(decimal(n).last() == digit(n));
    } else {
        lemma_decimal_reads_back(n / 10);
        assert(decimal(n).drop_last() =~= decimal(n / 10));
        assert(decimal(n).last() == digit(n % 10));
    }
}

/// An integer that is written reads back as the same integer.
pub proof fn integers_read_back(i: int)
    ensures
        integer_value(int_text(i)) == Some(i),
{
    if i < 0 {
        lemma_decimal_reads_back((-i) as nat);
        assert(int_text(i).skip(1) =~= decimal((-i) as nat));
    } else {
        lemma_decimal_reads_back(i as nat);
    }
}

} // verus!
