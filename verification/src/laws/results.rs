//! What the operators and functions return and when they fail.

use vstd::arithmetic::power2::{lemma_pow2_pos, pow2};
use vstd::prelude::*;

use crate::binary64::{negation, of_int, sum, FloatValue};
use crate::context::EvalContext;
use crate::error::ErrorView;
use crate::functions::arithmetic::{
    as_float, float_power, float_result, floor_div, floor_mod, int_result, int_views, joinable, list_result,
    path_operand, PowerView,
};
use crate::functions::math::{added, extreme_items, total_of, total_value, Extreme, Total};
use crate::range_expr::{range_text, range_values, IntRange};
use crate::text::int_text;
use crate::types::{ExprType, PathFormat};
use crate::value::{list_bytes, slot_bytes, ValueView};

verus! {

/// An integer result is the integer itself where 64 bits hold it with its sign,
/// and an overflow otherwise.
pub proof fn integers_overflow_beyond_their_range(i: int)
    ensures
        -0x8000_0000_0000_0000 <= i <= 0x7FFF_FFFF_FFFF_FFFF ==> int_result(i) == Ok::<
            ValueView,
            ErrorView,
        >(ValueView::Int(i)),
        i < -0x8000_0000_0000_0000 || i > 0x7FFF_FFFF_FFFF_FFFF ==> int_result(i) == Err::<
            ValueView,
            ErrorView,
        >(ErrorView::IntegerOverflow),
{
}

/// A finite floating-point result is shown by its own text; one that is not
/// finite is an error.
pub proof fn finite_results_are_values(f: FloatValue)
    ensures
        float_result(Some(f)) == Ok::<ValueView, ErrorView>(ValueView::Float { number: f, text: None }),
        float_result(None) matches Err(e) && e is FloatError,
{
}

/// Integers and floating-point numbers are operands of floating-point
/// operators, a float as it is, and nothing else is.
pub proof fn numbers_are_float_operands(v: ValueView)
    ensures
        match v {
            ValueView::Float { number, text: _ } => as_float(v) == Some(number),
            ValueView::Int(i) => as_float(v) == of_int(i),
            _ => as_float(v) is None,
        },
{
}

/// The negative of a number has its magnitude and the other sign.
pub proof fn negation_changes_the_sign(a: FloatValue)
    ensures
        negation(a).units() == -a.units(),
        negation(a).magnitude == a.magnitude,
        negation(a).negative == !a.negative,
        negation(negation(a)) == a,
{
}

/// The floored quotient of integers is the largest integer that is not above
/// the exact quotient, and the remainder has the sign of the divisor.
pub proof fn integer_quotients_are_floored(x: int, y: int, q: int, rest: int)
    requires
        y != 0,
        x == q * y + rest,
        y > 0 ==> 0 <= rest < y,
        y < 0 ==> y < rest <= 0,
    ensures
        floor_div(x, y) == q,
        floor_mod(x, y) == rest,
{
    if y > 0 {
        vstd::arithmetic::div_mod::lemma_fundamental_div_mod_converse(x, y, q, rest);
    } else {
        assert(-x == q * (-y) + (-rest)) by (nonlinear_arith)
            requires
                x == q * y + rest,
        ;
        vstd::arithmetic::div_mod::lemma_fundamental_div_mod_converse(-x, -y, q, -rest);
    }
}

/// A floating-point power is refused exactly if zero is raised to a negative
/// power, or a negative number to one that is not whole. Its operands are handed
/// on unchanged otherwise.
pub proof fn impossible_powers_are_refused(l: FloatValue, r: FloatValue)
    ensures
        ({
            let zero_base = l.units() == 0 && r.units() < 0;
            let complex = l.units() < 0 && !(exists|k: int| r.magnitude == #[trigger] (k * pow2(1074)));
            &&& float_power(l, r) is Err <==> zero_base || complex
            &&& !zero_base && !complex ==> float_power(l, r) == Ok::<PowerView, ErrorView>(
                PowerView::FloatPower { base: l, exponent: r },
            )
        }),
{
    lemma_pow2_pos(1074);
    let unit = pow2(1074) as int;
    vstd::arithmetic::div_mod::lemma_fundamental_div_mod(r.magnitude as int, unit);
    if r.magnitude as int % unit == 0 {
        let k = r.magnitude as int / unit;
        assert(r.magnitude == k * unit) by (nonlinear_arith)
            requires
                r.magnitude == unit * k + 0,
        ;
    }
    if exists|k: int| r.magnitude == #[trigger] (k * pow2(1074)) {
        let k = choose|k: int| r.magnitude == #[trigger] (k * pow2(1074));
        vstd::arithmetic::div_mod::lemma_mod_multiples_basic(k, unit);
    }
}

/// The extreme of one list is that of its elements, that of one range is its
/// first or last integer, and that of several arguments is that of the
/// arguments. Without anything to choose from there is an error.
pub proof fn extremes_are_taken_of_their_items(args: Seq<ValueView>, extreme: Extreme)
    ensures
        args.len() == 0 ==> extreme_items(args, extreme) is Err,
        args.len() >= 2 ==> extreme_items(args, extreme) == Ok::<Seq<ValueView>, ErrorView>(args),
        args.len() == 1 ==> match args[0] {
            ValueView::List { elements, elem_type: _ } => if elements.len() == 0 {
                extreme_items(args, extreme) is Err
            } else {
                extreme_items(args, extreme) == Ok::<Seq<ValueView>, ErrorView>(elements)
            },
            ValueView::Range(ranges) => {
                let values = range_values(ranges);
                &&& values.len() == 0 ==> extreme_items(args, extreme) is Err
                &&& values.len() > 0 && extreme == Extreme::Min ==> extreme_items(args, extreme) == Ok::<
                    Seq<ValueView>,
                    ErrorView,
                >(seq![ValueView::Int(values[0])])
                &&& values.len() > 0 && extreme == Extreme::Max ==> extreme_items(args, extreme) == Ok::<
                    Seq<ValueView>,
                    ErrorView,
                >(seq![ValueView::Int(values[values.len() - 1])])
            },
            _ => extreme_items(args, extreme) == Ok::<Seq<ValueView>, ErrorView>(args),
        },
{
}

/// A number is added to both totals, an integer only where the integers still
/// fit into 64 bits, and makes the total a floating-point one if it is such a
/// number. Nothing else can be added.
pub proof fn elements_are_added_by_value(total: Total, element: ValueView)
    ensures
        match element {
            ValueView::Int(i) => if -0x8000_0000_0000_0000 <= total.ints + i <= 0x7FFF_FFFF_FFFF_FFFF {
                added(total, element) matches Ok(after) && after.ints == total.ints + i && after.is_float
                    == total.is_float && (total.floats matches Some(t) ==> after.floats == sum(
                    t,
                    of_int(i)->0,
                ))
            } else {
                added(total, element) == Err::<Total, ErrorView>(ErrorView::IntegerOverflow)
            },
            ValueView::Float { number, text: _ } => added(total, element) matches Ok(after) && after.ints
                == total.ints && after.is_float && (total.floats matches Some(t) ==> after.floats == sum(
                t,
                number,
            )),
            _ => added(total, element) is Err,
        },
{
}

/// A total is that of all elements but the last, to which the last is added
/// where it can be and the context grants an operation for it; without elements it is the integer zero. It is an integer unless one of the
/// elements is a floating-point number.
pub proof fn totals_grow_element_by_element<C: EvalContext>(
    ctx: C,
    elements: Seq<ValueView>,
    next: ValueView,
)
    ensures
        total_value(total_of(ctx, Seq::<ValueView>::empty()).1) == Ok::<ValueView, ErrorView>(
            ValueView::Int(0),
        ),
        total_of(ctx, elements.push(next)).1 matches Ok(after) ==> (total_of(ctx, elements).1 matches Ok(
            before,
        ) && added(before, next) == Ok::<Total, ErrorView>(after)),
        total_of(ctx, elements).1 matches Ok(before) ==> (added(before, next) is Ok && total_of(
            ctx,
            elements,
        ).0.ops_error(1) is None ==> total_of(ctx, elements.push(next)).1 is Ok),
        total_of(ctx, elements).1 matches Ok(total) ==> (total.is_float <==> exists|i: int|
            0 <= i < elements.len() && #[trigger] elements[i] is Float),
        total_of(ctx, elements).1 matches Ok(total) ==> (!total.is_float ==> total_value(
            total_of(ctx, elements).1,
        ) == Ok::<ValueView, ErrorView>(ValueView::Int(total.ints))),
    decreases elements.len(),
{
    assert(elements.push(next).drop_last() =~= elements);
    assert(elements.push(next).last() == next);
    if elements.len() > 0 {
        let rest = elements.drop_last();
        let last = elements.last();
        totals_grow_element_by_element(ctx, rest, last);
        if let Ok(total) = total_of(ctx, elements).1 {
            assert(elements[elements.len() - 1] == last);
            if exists|i: int| 0 <= i < rest.len() && #[trigger] rest[i] is Float {
                let i = choose|i: int| 0 <= i < rest.len() && #[trigger] rest[i] is Float;
                assert(elements[i] is Float);
            }
            if exists|i: int| 0 <= i < elements.len() && #[trigger] elements[i] is Float {
                let i = choose|i: int| 0 <= i < elements.len() && #[trigger] elements[i] is Float;
                if i < rest.len() {
                    assert(rest[i] is Float);
                }
            }
        }
    }
}

/// Lists join where their elements have one type, or are both numbers, or texts
/// and paths, or where one of the lists has no type of elements yet.
pub proof fn lists_of_like_elements_join(l: ExprType, r: ExprType)
    ensures
        joinable(l, r) == joinable(r, l),
        l == r ==> joinable(l, r),
        l is NullType ==> joinable(l, r),
        l is Int && r is Float ==> joinable(l, r),
        l is String && r is Path ==> joinable(l, r),
        joinable(l, r) && l != r ==> l is NullType || r is NullType || ((l is Int || l is Float) && (r is Int
            || r is Float)) || ((l is String || l is Path) && (r is String || r is Path)),
{
}

/// A list is made of its elements and of their type, unless the context refuses
/// the bytes that it takes.
pub proof fn lists_are_checked<C: EvalContext>(ctx: C, elements: Seq<ValueView>, elem_type: ExprType)
    requires
        slot_bytes() + list_bytes(elements) <= usize::MAX,
    ensures
        match ctx.memory_error((slot_bytes() + list_bytes(elements)) as nat) {
            Some(e) => list_result(ctx, elements, elem_type) == Err::<ValueView, ErrorView>(e),
            None => list_result(ctx, elements, elem_type) == Ok::<ValueView, ErrorView>(
                ValueView::List { elements, elem_type },
            ),
        },
{
}

/// The integers of a range as values, in their order.
pub proof fn ranges_give_their_integers(values: Seq<int>, i: int)
    requires
        0 <= i < values.len(),
    ensures
        int_views(values).len() == values.len(),
        int_views(values)[i] == ValueView::Int(values[i]),
{
}

/// A path keeps its own format as an operand, a text takes that of the host,
/// and nothing else is a path.
pub proof fn texts_are_paths_of_the_host(v: ValueView, host: PathFormat)
    ensures
        match v {
            ValueView::Path { value, format } => path_operand(v, host) == Some((value, format)),
            ValueView::Text(text) => path_operand(v, host) == Some((text, host)),
            _ => path_operand(v, host) is None,
        },
{
}

/// A range of one integer is written as that integer, any other with a hyphen
/// between its ends and, where its step is not one, a colon and the step. Ranges
/// are written between commas.
pub proof fn ranges_are_written_by_their_ends(ranges: Seq<IntRange>, next: IntRange)
    ensures
        ({
            let (start, end, step) = (next.start as int, next.end as int, next.step as int);
            let ends = int_text(start) + seq!['-'] + int_text(end);
            next.text() == if start == end {
                int_text(start)
            } else if step == 1 {
                ends
            } else {
                ends + seq![':'] + int_text(step)
            }
        }),
        range_text(Seq::<IntRange>::empty()) == Seq::<char>::empty(),
        range_text(ranges.push(next)) == if ranges.len() == 0 {
            next.text()
        } else {
            range_text(ranges) + seq![','] + next.text()
        },
{
    let (start, end, step) = (next.start as int, next.end as int, next.step as int);
    assert(int_text(start).push('-') =~= int_text(start) + seq!['-']);
    let ends = int_text(start) + seq!['-'] + int_text(end);
    assert(ends.push(':') =~= ends + seq![':']);
    assert(ranges.push(next).drop_last() =~= ranges);
    assert(range_text(ranges).push(',') =~= range_text(ranges) + seq![',']);
}

} // verus!
