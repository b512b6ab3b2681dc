//! How values compare, what the operators make of them and how they are shown.

use vstd::arithmetic::power::{lemma_pow0, lemma_pow1, lemma_pow_adds, pow};
use vstd::arithmetic::power2::{lemma_pow2_pos, pow2};
use vstd::prelude::*;
use vstd::utf8::encode_utf8;

use crate::binary64::of_int;
use crate::comparison::{bytes_relation, value_relation, Relation};
use crate::display::{display_text, joined_text};
use crate::error::ErrorView;
use crate::functions::arithmetic::{int_power, PowerView};
use crate::functions::math::{
    extreme_of, extremes_bound_all_items, has_float, int_sum, promoted_extreme, Extreme,
};
use crate::range_expr::{range_values, IntRange};
use crate::text::{integer_value, repeated};
use crate::types::ExprType;
use crate::value::ValueView;

verus! {

/// Numbers compare by their exact values, whichever type they have, and false
/// comes before true.
pub proof fn numbers_compare_by_value(a: ValueView, b: ValueView)
    ensures
        match (a, b) {
            (ValueView::Int(x), ValueView::Int(y)) => {
                &&& x < y <==> value_relation(a, b) == Some(Relation::Less)
                &&& x == y <==> value_relation(a, b) == Some(Relation::Equal)
                &&& x > y <==> value_relation(a, b) == Some(Relation::Greater)
            },
            (
                ValueView::Float { number: x, text: _ },
                ValueView::Float { number: y, text: _ },
            ) => {
                &&& x.units() < y.units() <==> value_relation(a, b) == Some(Relation::Less)
                &&& x.units() == y.units() <==> value_relation(a, b) == Some(Relation::Equal)
                &&& x.units() > y.units() <==> value_relation(a, b) == Some(Relation::Greater)
            },
            (ValueView::Int(x), ValueView::Float { number: y, text: _ }) => {
                &&& x * pow2(1074) < y.units() <==> value_relation(a, b) == Some(Relation::Less)
                &&& x * pow2(1074) == y.units() <==> value_relation(a, b) == Some(Relation::Equal)
                &&& x * pow2(1074) > y.units() <==> value_relation(a, b) == Some(Relation::Greater)
            },
            (ValueView::Float { number: x, text: _ }, ValueView::Int(y)) => {
                &&& x.units() < y * pow2(1074) <==> value_relation(a, b) == Some(Relation::Less)
                &&& x.units() == y * pow2(1074) <==> value_relation(a, b) == Some(Relation::Equal)
                &&& x.units() > y * pow2(1074) <==> value_relation(a, b) == Some(Relation::Greater)
            },
            (ValueView::Bool(x), ValueView::Bool(y)) => {
                &&& !x && y <==> value_relation(a, b) == Some(Relation::Less)
                &&& x == y <==> value_relation(a, b) == Some(Relation::Equal)
                &&& x && !y <==> value_relation(a, b) == Some(Relation::Greater)
            },
            _ => true,
        },
{
    lemma_pow2_pos(1074);
    if let (ValueView::Int(x), ValueView::Int(y)) = (a, b) {
        let unit = pow2(1074);
        assert(x < y ==> x * unit < y * unit) by (nonlinear_arith)
            requires
                unit > 0,
        ;
        assert(x > y ==> x * unit > y * unit) by (nonlinear_arith)
            requires
                unit > 0,
        ;
    }
}

/// Values of unlike kinds have no order: numbers, texts and truth values
/// compare with their own kind alone, and other values with none.
pub proof fn unlike_values_have_no_order(a: ValueView, b: ValueView)
    ensures
        value_relation(a, b) is Some <==> {
            ||| (a is Int || a is Float) && (b is Int || b is Float)
            ||| (a is Text || a is Path) && (b is Text || b is Path)
            ||| a is Bool && b is Bool
        },
{
}

proof fn lemma_first_difference(a: Seq<u8>, b: Seq<u8>, i: int)
    requires
        0 <= i < a.len(),
        i < b.len(),
        forall|j: int| 0 <= j < i ==> #[trigger] a[j] == b[j],
        a[i] < b[i],
    ensures
        bytes_relation(a, b) == Relation::Less,
    decreases i,
{
    if i > 0 {
        let (p, q) = (a.skip(1), b.skip(1));
        assert(a[0] == b[0]);
        assert forall|j: int| 0 <= j < i - 1 implies #[trigger] p[j] == q[j] by {
            assert(a[j + 1] == b[j + 1]);
        }
        lemma_first_difference(p, q, i - 1);
    }
}

proof fn lemma_prefix_first(a: Seq<u8>, b: Seq<u8>)
    requires
        a.len() < b.len(),
        forall|j: int| 0 <= j < a.len() ==> #[trigger] a[j] == b[j],
    ensures
        bytes_relation(a, b) == Relation::Less,
    decreases a.len(),
{
    if a.len() > 0 {
        let (p, q) = (a.skip(1), b.skip(1));
        assert(a[0] == b[0]);
        assert forall|j: int| 0 <= j < p.len() implies #[trigger] p[j] == q[j] by {
            assert(a[j + 1] == b[j + 1]);
        }
        lemma_prefix_first(p, q);
    }
}

/// Of two texts the one with the smaller byte where their UTF-8 forms first
/// differ comes first, as does one that the other starts with. Two texts compare
/// as equal if and only if they are the same.
pub proof fn texts_compare_by_their_bytes(a: Seq<char>, b: Seq<char>, i: int)
    ensures
        ({
            let (p, q) = (encode_utf8(a), encode_utf8(b));
            let r = value_relation(ValueView::Text(a), ValueView::Text(b));
            &&& 0 <= i < p.len() && i < q.len() && p.take(i) == q.take(i) && p[i] < q[i] ==> r == Some(
                Relation::Less,
            )
            &&& p.len() < q.len() && q.take(p.len() as int) == p ==> r == Some(Relation::Less)
            &&& r == Some(Relation::Equal) <==> a == b
        }),
{
    let (p, q) = (encode_utf8(a), encode_utf8(b));
    crate::comparison::lemma_bytes_equal(p, q);
    vstd::utf8::encode_utf8_decode_utf8(a);
    vstd::utf8::encode_utf8_decode_utf8(b);
    if 0 <= i < p.len() && i < q.len() && p.take(i) == q.take(i) && p[i] < q[i] {
        assert forall|j: int| 0 <= j < i implies #[trigger] p[j] == q[j] by {
            assert(p.take(i)[j] == q.take(i)[j]);
        }
        lemma_first_difference(p, q, i);
    }
    if p.len() < q.len() && q.take(p.len() as int) == p {
        assert forall|j: int| 0 <= j < p.len() implies #[trigger] p[j] == q[j] by {
            assert(q.take(p.len() as int)[j] == p[j]);
        }
        lemma_prefix_first(p, q);
    }
}

/// The least of items is one of them and not greater than any; the greatest is
/// one of them and not less than any.
pub proof fn extremes_are_extreme(items: Seq<ValueView>, i: int)
    requires
        0 <= i < items.len(),
        items.len() >= 2,
    ensures
        extreme_of(items, Extreme::Min) matches Ok(least) ==> items.contains(least) && (value_relation(
            least,
            items[i],
        ) == Some(Relation::Less) || value_relation(least, items[i]) == Some(Relation::Equal)),
        extreme_of(items, Extreme::Max) matches Ok(greatest) ==> items.contains(greatest) && (
        value_relation(greatest, items[i]) == Some(Relation::Greater) || value_relation(
            greatest,
            items[i],
        ) == Some(Relation::Equal)),
{
    if extreme_of(items, Extreme::Min) is Ok {
        extremes_bound_all_items(items, Extreme::Min, i);
    }
    if extreme_of(items, Extreme::Max) is Ok {
        extremes_bound_all_items(items, Extreme::Max, i);
    }
}

/// An extreme that is an integer stays one where no item is floating point, and
/// is the floating-point number nearest to it otherwise; any other extreme stays as it is.
pub proof fn extremes_take_the_wider_type(items: Seq<ValueView>, extreme: Extreme)
    ensures
        !has_float(items) || !(extreme_of(items, extreme) matches Ok(ValueView::Int(_)))
            ==> promoted_extreme(items, extreme) == extreme_of(items, extreme),
        has_float(items) ==> (extreme_of(items, extreme) matches Ok(ValueView::Int(i)) ==> (of_int(i)
            matches Some(number) ==> promoted_extreme(items, extreme) == Ok::<ValueView, ErrorView>(
            ValueView::Float { number, text: None },
        ))),
        has_float(items) <==> exists|i: int| 0 <= i < items.len() && #[trigger] items[i] is Float,
{
}

/// A power with the exponent one larger is the power times the base, and every
/// base to the power of zero is one.
pub proof fn powers_multiply(base: int, exponent: int)
    requires
        exponent >= 0,
    ensures
        int_power(base, 0) == Ok::<PowerView, ErrorView>(PowerView::Value(ValueView::Int(1))),
        int_power(base, exponent + 1) matches Ok(PowerView::Value(ValueView::Int(more))) ==> (int_power(
            base,
            exponent,
        ) matches Ok(PowerView::Value(ValueView::Int(less))) ==> more == base * less),
        int_power(base, exponent) is Err <==> pow(base, exponent as nat) < i64::MIN || pow(
            base,
            exponent as nat,
        ) > i64::MAX,
{
    lemma_pow0(base);
    lemma_pow1(base);
    lemma_pow_adds(base, 1, exponent as nat);
    assert((1 + exponent as nat) as nat == (exponent + 1) as nat);
}

/// A sequence repeated holds its elements over and over.
pub proof fn repetition_repeats<A>(s: Seq<A>, times: nat, i: int)
    requires
        0 <= i < repeated(s, times).len(),
    ensures
        repeated(s, times).len() == s.len() * times,
        s.len() > 0,
        repeated(s, times)[i] == s[i % s.len() as int],
    decreases times,
{
    crate::text::lemma_repeated_len(s, times);
    assert(s.len() > 0) by (nonlinear_arith)
        requires
            0 <= i < s.len() * times,
            times >= 0,
    ;
    assert(times > 0) by (nonlinear_arith)
        requires
            0 <= i < s.len() * times,
            s.len() >= 0,
    ;
    let less = (times - 1) as nat;
    crate::text::lemma_repeated_len(s, less);
    let n = s.len() as int;
    let before = n * less;
    assert(n * times == before + n) by (nonlinear_arith)
        requires
            before == n * less,
            less == times - 1,
    ;
    if i < before {
        repetition_repeats(s, less, i);
    } else {
        assert(i == less * n + (i - before)) by (nonlinear_arith)
            requires
                before == n * less,
        ;
        vstd::arithmetic::div_mod::lemma_fundamental_div_mod_converse(i, n, less as int, i - before);
    }
}

/// A range holds the integers from its start up to its end that are whole steps
/// from the start, in rising order.
pub proof fn ranges_hold_their_steps(range: IntRange, v: int, i: int)
    requires
        range.valid(),
    ensures
        range.values().contains(v) <==> range.start <= v <= range.end && (v - range.start)
            % (range.step as int) == 0,
        0 <= i < range.values().len() - 1 ==> range.values()[i + 1] == range.values()[i] + range.step,
{
    let step = range.step as int;
    let span = range.end - range.start;
    crate::functions::arithmetic::lemma_range_end(range);
    vstd::arithmetic::div_mod::lemma_fundamental_div_mod(span, step);
    if range.values().contains(v) {
        let k = choose|k: int| 0 <= k < range.values().len() && range.values()[k] == v;
        vstd::arithmetic::div_mod::lemma_mod_multiples_basic(k, step);
        assert(0 <= k * step <= (range.count() - 1) * step) by (nonlinear_arith)
            requires
                0 <= k <= range.count() - 1,
                step > 0,
        ;
    }
    if range.start <= v <= range.end && (v - range.start) % step == 0 {
        let k = (v - range.start) / step;
        vstd::arithmetic::div_mod::lemma_fundamental_div_mod(v - range.start, step);
        assert(step * k == k * step) by (nonlinear_arith);
        assert(0 <= k < range.count()) by (nonlinear_arith)
            requires
                0 <= k * step <= (range.count() - 1) * step,
                step > 0,
        ;
        assert(range.values()[k] == v);
    }
    assert((i + 1) * step == i * step + step) by (nonlinear_arith);
}

/// Consecutive ranges hold the integers of each, one range after the other.
pub proof fn ranges_follow_one_another(a: Seq<IntRange>, b: Seq<IntRange>)
    ensures
        range_values(a + b) == range_values(a) + range_values(b),
        a.len() == 1 ==> range_values(a) == a[0].values(),
    decreases b.len(),
{
    if b.len() == 0 {
        assert(a + b =~= a);
        assert(range_values(a) + range_values(b) =~= range_values(a));
    } else {
        ranges_follow_one_another(a, b.drop_last());
        assert((a + b).drop_last() =~= a + b.drop_last());
        assert(range_values(a) + (range_values(b.drop_last()) + b.last().values()) =~= range_values(a)
            + range_values(b.drop_last()) + b.last().values());
    }
    if a.len() == 1 {
        reveal_with_fuel(range_values, 2);
        assert(a.drop_last() =~= seq![]);
        assert(Seq::<int>::empty() + a[0].values() =~= a[0].values());
    }
}

/// The sum of integers in sequence is the sum of its parts, and that of a single
/// integer is the integer.
pub proof fn sums_add_up(a: Seq<int>, b: Seq<int>)
    ensures
        int_sum(a + b) == int_sum(a) + int_sum(b),
        a.len() == 0 ==> int_sum(a) == 0,
        a.len() == 1 ==> int_sum(a) == a[0],
    decreases b.len(),
{
    reveal_with_fuel(int_sum, 2);
    if b.len() == 0 {
        assert(a + b =~= a);
    } else {
        sums_add_up(a, b.drop_last());
        assert((a + b).drop_last() =~= a + b.drop_last());
    }
}

/// A list is shown in brackets, its elements in order and between commas, each
/// as it is shown alone.
pub proof fn lists_show_their_elements(elements: Seq<ValueView>, elem_type: ExprType, v: ValueView)
    ensures
        display_text(ValueView::List { elements: Seq::empty(), elem_type }) == seq!['[', ']'],
        ({
            let shown = display_text(ValueView::List { elements, elem_type });
            let longer = display_text(ValueView::List { elements: elements.push(v), elem_type });
            longer == if elements.len() == 0 {
                seq!['['] + display_text(v) + seq![']']
            } else {
                shown.drop_last() + seq![',', ' '] + display_text(v) + seq![']']
            }
        }),
{
    reveal_strlit("[");
    reveal_strlit("]");
    reveal_strlit(", ");
    reveal_with_fuel(display_text, 2);
    reveal_with_fuel(joined_text, 2);
    assert(elements.push(v).drop_last() =~= elements);
    assert(elements.push(v).last() == v);
    let empty = Seq::<ValueView>::empty();
    assert(joined_text(empty) =~= seq![]);
    assert(display_text(ValueView::List { elements: empty, elem_type }) =~= seq!['[', ']']);
    let shown = display_text(ValueView::List { elements, elem_type });
    let longer = display_text(ValueView::List { elements: elements.push(v), elem_type });
    assert(longer == "["@ + joined_text(elements.push(v)) + "]"@);
    if elements.len() == 0 {
        assert(joined_text(elements.push(v)) == display_text(v));
        assert(longer =~= seq!['['] + display_text(v) + seq![']']);
    } else {
        assert(shown == "["@ + joined_text(elements) + "]"@);
        assert(shown.drop_last() =~= seq!['['] + joined_text(elements));
        assert(joined_text(elements.push(v)) == joined_text(elements) + ", "@ + display_text(v));
        assert(longer =~= shown.drop_last() + seq![',', ' '] + display_text(v) + seq![']']);
    }
}

/// An integer is shown as a text that spells it; a text, a path and a number
/// that was written somehow as they are.
pub proof fn shown_scalars_read_back(v: ValueView)
    ensures
        match v {
            ValueView::Int(i) => integer_value(display_text(v)) == Some(i),
            ValueView::Text(text) => display_text(v) == text,
            ValueView::Path { value, format: _ } => display_text(v) == value,
            ValueView::Float { number: _, text: Some(text) } => display_text(v) == text,
            ValueView::Bool(b) => display_text(v) == (if b { "true"@ } else { "false"@ }),
            ValueView::Null => display_text(v) == "null"@,
            _ => true,
        },
{
    if let ValueView::Int(i) = v {
        crate::text::integers_read_back(i);
    }
}

} // verus!
