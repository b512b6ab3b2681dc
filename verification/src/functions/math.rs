//! Minimum, maximum, rounding and sums.

use vstd::arithmetic::power::pow;
use vstd::arithmetic::power2::{
    lemma2_to64, lemma2_to64_rest, lemma_pow2_adds, lemma_pow2_pos, lemma_pow2_strictly_increases,
    pow2,
};
use vstd::prelude::*;

use crate::binary64::{
    ceil_of, floor_of, half_even, lemma_of_int_nonzero, of_int, one, product, quotient, round_of,
    sum, view_of, Binary64, FloatValue, MIN_NORMAL, SIGNIFICAND_BOUND,
};
use crate::comparison::{
    comparison_is_antisymmetric, comparison_is_transitive, unordered, value_relation, Relation,
};
use crate::context::{each_op, EvalContext};
use crate::decimal::{fixed_point, fixed_point_text, Digits};
use crate::error::{error_of, ErrorView, ExpressionError};
use crate::functions::arithmetic::{
    checked_float, checked_int, count_each, float_result, int_result, int_views, lemma_range_end,
    lemma_range_position, lemma_refused_stays, type_fault, type_fault_error, unless,
};
use crate::range_expr::{all_valid, range_values, saturated, IntRange, RangeExpr};
use crate::text::push_repeated;
use crate::value::{
    byte_len, lemma_models_index, lemma_models_push, models, not_finite, outcome, str_len, ExprValue,
    Float64, ValueView,
};

verus! {

/// Which end of an order is sought.
#[derive(Clone, Copy, Debug, PartialEq, Eq, Structural)]
pub enum Extreme {
    Min,
    Max,
}

impl Extreme {
    pub open spec fn name(self) -> Seq<char> {
        match self {
            Extreme::Min => "min"@,
            Extreme::Max => "max"@,
        }
    }

    /// The relation to a candidate in which a value gives way to it.
    pub open spec fn yields_when(self) -> Relation {
        match self {
            Extreme::Min => Relation::Greater,
            Extreme::Max => Relation::Less,
        }
    }

    fn text(self) -> (r: &'static str)
        ensures
            r@ == self.name(),
    {
        match self {
            Extreme::Min => "min",
            Extreme::Max => "max",
        }
    }
}

/// The values among which an extreme is sought: the elements of a single list,
/// the one end of a single range that can be the extreme, or the arguments.
pub open spec fn extreme_items(args: Seq<ValueView>, extreme: Extreme) -> Result<
    Seq<ValueView>,
    ErrorView,
> {
    let empty = ErrorView::Other(extreme.name() + "() requires a non-empty list"@);
    if args.len() == 0 {
        Err(ErrorView::Other(extreme.name() + "() requires at least 1 argument"@))
    } else if args.len() == 1 {
        match args[0] {
            ValueView::List { elements, elem_type } => if elements.len() == 0 {
                Err(empty)
            } else {
                Ok(elements)
            },
            ValueView::Range(ranges) => if range_values(ranges).len() == 0 {
                Err(empty)
            } else {
                Ok(
                    seq![
                        ValueView::Int(
                            match extreme {
                                Extreme::Min => range_values(ranges)[0],
                                Extreme::Max => range_values(ranges).last(),
                            },
                        ),
                    ],
                )
            },
            _ => Ok(args),
        }
    } else {
        Ok(args)
    }
}

/// The first item that no later item displaces.
pub open spec fn extreme_of(items: Seq<ValueView>, extreme: Extreme) -> Result<ValueView, ErrorView>
    decreases items.len(),
{
    if items.len() <= 1 {
        Ok(items[0])
    } else {
        match extreme_of(items.drop_last(), extreme) {
            Ok(best) => match value_relation(best, items.last()) {
                Some(relation) => Ok(
                    if relation == extreme.yields_when() {
                        items.last()
                    } else {
                        best
                    },
                ),
                None => Err(unordered(best, items.last())),
            },
            Err(e) => Err(e),
        }
    }
}

pub open spec fn has_float(items: Seq<ValueView>) -> bool {
    exists|i: int| 0 <= i < items.len() && #[trigger] items[i] is Float
}

/// The extreme of items; an integer becomes floating point where any item is.
pub open spec fn promoted_extreme(items: Seq<ValueView>, extreme: Extreme) -> Result<
    ValueView,
    ErrorView,
> {
    match extreme_of(items, extreme) {
        Ok(ValueView::Int(i)) => if has_float(items) {
            float_result(of_int(i))
        } else {
            Ok(ValueView::Int(i))
        },
        other => other,
    }
}

fn empty_error(extreme: Extreme) -> (e: ExpressionError)
    ensures
        e@ == ErrorView::Other(extreme.name() + "() requires a non-empty list"@),
{
    ExpressionError::new(extreme.text().to_owned().concat("() requires a non-empty list").as_str())
}

fn copy_values(values: &[ExprValue]) -> (r: Vec<ExprValue>)
    ensures
        models(r@) == models(values@),
        r@.len() == values@.len(),
{
    let mut out: Vec<ExprValue> = Vec::new();
    let mut i: usize = 0;
    proof {
        assert(models(out@) =~= models(values@).take(0));
    }
    while i < values.len()
        invariant
            i <= values@.len(),
            out@.len() == i,
            models(out@) == models(values@).take(i as int),
        decreases values@.len() - i,
    {
        let value = values[i].clone();
        proof {
            lemma_models_push(out@, value);
            lemma_models_index(values@, i as int);
            assert(models(values@).take(i + 1) =~= models(values@).take(i as int).push(value@));
        }
        out.push(value);
        i = i + 1;
    }
    proof {
        assert(models(values@).take(i as int) =~= models(values@));
    }
    out
}

fn single_int(i: i64) -> (r: Vec<ExprValue>)
    ensures
        models(r@) == seq![ValueView::Int(i as int)],
        r@.len() == 1,
{
    let mut out: Vec<ExprValue> = Vec::new();
    proof {
        lemma_models_push(out@, ExprValue::Int(i));
        assert(models(Seq::<ExprValue>::empty()) =~= seq![]);
        assert(seq![].push(ValueView::Int(i as int)) =~= seq![ValueView::Int(i as int)]);
    }
    out.push(ExprValue::Int(i));
    out
}

fn min_max_items(a: &[ExprValue], extreme: Extreme) -> (r: Result<Vec<ExprValue>, ExpressionError>)
    ensures
        match r {
            Ok(items) => extreme_items(models(a@), extreme) == Ok::<_, ErrorView>(models(items@))
                && items@.len() > 0,
            Err(e) => extreme_items(models(a@), extreme) == Err::<Seq<ValueView>, _>(e@),
        },
{
    if a.len() == 0 {
        return Err(
            ExpressionError::new(
                extreme.text().to_owned().concat("() requires at least 1 argument").as_str(),
            ),
        );
    }
    if a.len() == 1 {
        proof {
            lemma_models_index(a@, 0);
        }
        match &a[0] {
            ExprValue::List { elements, elem_type } => {
                if elements.len() == 0 {
                    return Err(empty_error(extreme));
                }
                return Ok(copy_values(elements.as_slice()));
            },
            ExprValue::RangeExpr(range) => {
                let end = match extreme {
                    Extreme::Min => range.first(),
                    Extreme::Max => range.last(),
                };
                match end {
                    Some(i) => return Ok(single_int(i)),
                    None => return Err(empty_error(extreme)),
                }
            },
            _ => {},
        }
    }
    Ok(copy_values(a))
}

/// The extreme of the arguments, as it is counted and promoted.
fn extreme_fn<C: EvalContext>(ctx: &mut C, a: &[ExprValue], extreme: Extreme) -> (r: Result<
    ExprValue,
    ExpressionError,
>)
    ensures
        match extreme_items(models(a@), extreme) {
            Ok(items) => {
                &&& *final(ctx) == old(ctx).after_ops(items.len())
                &&& outcome(r) == unless(
                    old(ctx).ops_error(items.len()),
                    promoted_extreme(items, extreme),
                )
            },
            Err(e) => *final(ctx) == *old(ctx) && outcome(r) == Err::<ValueView, ErrorView>(e),
        },
{
    let items = match min_max_items(a, extreme) {
        Ok(items) => items,
        Err(e) => return Err(e),
    };
    match ctx.count_ops(items.len()) {
        Ok(()) => {},
        Err(e) => return Err(e),
    }
    select(&items, extreme)
}

fn select(items: &Vec<ExprValue>, extreme: Extreme) -> (r: Result<ExprValue, ExpressionError>)
    requires
        items@.len() > 0,
    ensures
        outcome(r) == promoted_extreme(models(items@), extreme),
{
    let ghost views = models(items@);
    let mut best: usize = 0;
    let mut float = false;
    let mut i: usize = 1;
    proof {
        lemma_models_index(items@, 0);
    }
    match &items[0] {
        ExprValue::Float(_) => {
            assert(views.take(1)[0] is Float);
            float = true;
        },
        _ => {},
    }
    while i < items.len()
        invariant
            1 <= i <= items@.len(),
            views == models(items@),
            best < i,
            extreme_of(views.take(i as int), extreme) == Ok::<_, ErrorView>(views[best as int]),
            float == has_float(views.take(i as int)),
        decreases items@.len() - i,
    {
        proof {
            lemma_models_index(items@, best as int);
            lemma_models_index(items@, i as int);
            assert(views.take(i + 1).drop_last() =~= views.take(i as int));
            lemma_has_float_step(views, i as int);
        }
        match items[best].compare(&items[i]) {
            Ok(relation) => {
                let displaced = match extreme {
                    Extreme::Min => relation == Relation::Greater,
                    Extreme::Max => relation == Relation::Less,
                };
                if displaced {
                    best = i;
                }
            },
            Err(e) => {
                proof {
                    lemma_extreme_error(views, (i + 1) as int, extreme);
                }
                return Err(e);
            },
        }
        match &items[i] {
            ExprValue::Float(_) => {
                float = true;
            },
            _ => {},
        }
        i = i + 1;
    }
    proof {
        assert(views.take(i as int) =~= views);
        lemma_models_index(items@, best as int);
    }
    match &items[best] {
        ExprValue::Int(n) => if float {
            checked_float(Some(Binary64::from_i64(*n)))
        } else {
            Ok(ExprValue::Int(*n))
        },
        _ => Ok(items[best].clone()),
    }
}

proof fn lemma_has_float_step(views: Seq<ValueView>, i: int)
    requires
        0 <= i < views.len(),
    ensures
        has_float(views.take(i + 1)) == (has_float(views.take(i)) || views[i] is Float),
{
    let longer = views.take(i + 1);
    let shorter = views.take(i);
    if has_float(longer) {
        let j = choose|j: int| 0 <= j < longer.len() && #[trigger] longer[j] is Float;
        if j < i {
            assert(shorter[j] is Float);
        }
    }
    if has_float(shorter) {
        let j = choose|j: int| 0 <= j < shorter.len() && #[trigger] shorter[j] is Float;
        assert(longer[j] is Float);
    }
    if views[i] is Float {
        assert(longer[i] is Float);
    }
}

/// Once a comparison fails, the search fails.
proof fn lemma_extreme_error(views: Seq<ValueView>, i: int, extreme: Extreme)
    requires
        0 < i <= views.len(),
        extreme_of(views.take(i), extreme) is Err,
    ensures
        extreme_of(views, extreme) == extreme_of(views.take(i), extreme),
    decreases views.len() - i,
{
    if i == views.len() {
        assert(views.take(i) =~= views);
    } else {
        assert(views.take(i + 1).drop_last() =~= views.take(i));
        lemma_extreme_error(views, i + 1, extreme);
    }
}

/// The smallest of the arguments.
pub fn min_fn<C: EvalContext>(ctx: &mut C, a: &[ExprValue]) -> (r: Result<ExprValue, ExpressionError>)
    ensures
        match extreme_items(models(a@), Extreme::Min) {
            Ok(items) => {
                &&& *final(ctx) == old(ctx).after_ops(items.len())
                &&& outcome(r) == unless(
                    old(ctx).ops_error(items.len()),
                    promoted_extreme(items, Extreme::Min),
                )
            },
            Err(e) => *final(ctx) == *old(ctx) && outcome(r) == Err::<ValueView, ErrorView>(e),
        },
{
    extreme_fn(ctx, a, Extreme::Min)
}

/// The largest of the arguments.
pub fn max_fn<C: EvalContext>(ctx: &mut C, a: &[ExprValue]) -> (r: Result<ExprValue, ExpressionError>)
    ensures
        match extreme_items(models(a@), Extreme::Max) {
            Ok(items) => {
                &&& *final(ctx) == old(ctx).after_ops(items.len())
                &&& outcome(r) == unless(
                    old(ctx).ops_error(items.len()),
                    promoted_extreme(items, Extreme::Max),
                )
            },
            Err(e) => *final(ctx) == *old(ctx) && outcome(r) == Err::<ValueView, ErrorView>(e),
        },
{
    extreme_fn(ctx, a, Extreme::Max)
}

/// The largest integer not above a number.
pub fn floor_float<C: EvalContext>(ctx: &mut C, a: &[ExprValue]) -> (r: Result<
    ExprValue,
    ExpressionError,
>)
    requires
        a@.len() >= 1,
    ensures
        *final(ctx) == *old(ctx),
        outcome(r) == (match a@[0]@ {
            ValueView::Float { number, text } => int_result(floor_of(number)),
            _ => Err(type_fault()),
        }),
{
    match &a[0] {
        ExprValue::Float(f) => checked_int(f.number.floor_to_i64(), Ghost(floor_of(f.number@))),
        _ => Err(type_fault_error()),
    }
}

/// An integer is its own floor.
pub fn floor_int<C: EvalContext>(ctx: &mut C, a: &[ExprValue]) -> (r: Result<
    ExprValue,
    ExpressionError,
>)
    requires
        a@.len() >= 1,
    ensures
        *final(ctx) == *old(ctx),
        outcome(r) == (match a@[0]@ {
            ValueView::Int(i) => Ok(ValueView::Int(i)),
            _ => Err(type_fault()),
        }),
{
    match &a[0] {
        ExprValue::Int(i) => Ok(ExprValue::Int(*i)),
        _ => Err(type_fault_error()),
    }
}

/// The smallest integer not below a number.
pub fn ceil_float<C: EvalContext>(ctx: &mut C, a: &[ExprValue]) -> (r: Result<
    ExprValue,
    ExpressionError,
>)
    requires
        a@.len() >= 1,
    ensures
        *final(ctx) == *old(ctx),
        outcome(r) == (match a@[0]@ {
            ValueView::Float { number, text } => int_result(ceil_of(number)),
            _ => Err(type_fault()),
        }),
{
    match &a[0] {
        ExprValue::Float(f) => checked_int(f.number.ceil_to_i64(), Ghost(ceil_of(f.number@))),
        _ => Err(type_fault_error()),
    }
}

/// An integer is its own ceiling.
pub fn ceil_int<C: EvalContext>(ctx: &mut C, a: &[ExprValue]) -> (r: Result<ExprValue, ExpressionError>)
    requires
        a@.len() >= 1,
    ensures
        *final(ctx) == *old(ctx),
        outcome(r) == (match a@[0]@ {
            ValueView::Int(i) => Ok(ValueView::Int(i)),
            _ => Err(type_fault()),
        }),
{
    match &a[0] {
        ExprValue::Int(i) => Ok(ExprValue::Int(*i)),
        _ => Err(type_fault_error()),
    }
}

/// The multiple of `p` nearest to `i`, ties to the even multiple.
pub open spec fn nearest_multiple(i: int, p: int) -> int {
    let q = i / p;
    let r = i % p;
    if 2 * r > p || (2 * r == p && q % 2 != 0) {
        (q + 1) * p
    } else {
        q * p
    }
}

/// A whole number of at least 2^52 in magnitude rounded to a multiple of `p`. A
/// step up to the magnitude leaves the number as it is; for a larger step it is
/// the nearest multiple, which is zero up to half of the step.
pub open spec fn rounded_whole(i: int, p: int) -> int {
    if p <= i || p <= -i {
        i
    } else {
        nearest_multiple(i, p)
    }
}

/// Below the step the nearest multiple is zero or one step away from it.
proof fn lemma_nearest_below_step(i: int, p: int)
    requires
        -p < i < p,
    ensures
        nearest_multiple(i, p) == (if 2 * i > p {
            p
        } else if -2 * i > p {
            -p
        } else {
            0
        }),
{
    assert(0 * p == 0 && 1 * p == p && (-1) * p == -p);
    if i >= 0 {
        vstd::arithmetic::div_mod::lemma_fundamental_div_mod_converse(i, p, 0, i);
    } else {
        vstd::arithmetic::div_mod::lemma_fundamental_div_mod_converse(i, p, -1, i + p);
    }
}

/// A number that is at most half of the step rounds to zero.
pub proof fn small_numbers_round_to_zero(i: int, p: int)
    requires
        p > 0,
        2 * i <= p,
        -2 * i <= p,
    ensures
        nearest_multiple(i, p) == 0,
        rounded_whole(i, p) == 0,
{
    lemma_nearest_below_step(i, p);
}

/// Ten to a power below 20.
fn power_of_ten(k: u32) -> (r: i128)
    requires
        k <= 19,
    ensures
        r == pow(10, k as nat),
{
    let mut r: i128 = 1;
    let mut i: u32 = 0;
    proof {
        vstd::arithmetic::power::lemma_pow0(10);
    }
    while i < k
        invariant
            i <= k <= 19,
            r == pow(10, i as nat),
            0 < r,
        decreases k - i,
    {
        proof {
            vstd::arithmetic::power::lemma_pow_adds(10, i as nat, 1);
            vstd::arithmetic::power::lemma_pow1(10);
            lemma_ten_powers();
            vstd::arithmetic::power::lemma_pow_increases(10, (i + 1) as nat, 19);
        }
        r = r * 10;
        i = i + 1;
    }
    r
}

/// Powers of ten that bound others.
pub(crate) proof fn lemma_ten_powers()
    ensures
        pow(10, 16) == 10_000_000_000_000_000,
        pow(10, 19) == 10_000_000_000_000_000_000,
        pow(10, 20) == 100_000_000_000_000_000_000,
{
    assert(pow(10, 4) == 10_000 && pow(10, 3) == 1_000) by {
        reveal(pow);
        reveal_with_fuel(pow, 5);
    }
    vstd::arithmetic::power::lemma_pow_adds(10, 4, 4);
    assert(pow(10, 8) == 100_000_000) by (nonlinear_arith)
        requires
            pow(10, 8) == pow(10, 4) * pow(10, 4),
            pow(10, 4) == 10_000,
    ;
    vstd::arithmetic::power::lemma_pow_adds(10, 8, 8);
    assert(pow(10, 16) == 10_000_000_000_000_000) by (nonlinear_arith)
        requires
            pow(10, 16) == pow(10, 8) * pow(10, 8),
            pow(10, 8) == 100_000_000,
    ;
    vstd::arithmetic::power::lemma_pow_adds(10, 16, 3);
    assert(pow(10, 19) == 10_000_000_000_000_000_000) by (nonlinear_arith)
        requires
            pow(10, 19) == pow(10, 16) * pow(10, 3),
            pow(10, 16) == 10_000_000_000_000_000,
            pow(10, 3) == 1_000,
    ;
    vstd::arithmetic::power::lemma_pow_adds(10, 16, 4);
    assert(pow(10, 20) == 100_000_000_000_000_000_000) by (nonlinear_arith)
        requires
            pow(10, 20) == pow(10, 16) * pow(10, 4),
            pow(10, 16) == 10_000_000_000_000_000,
            pow(10, 4) == 10_000,
    ;
}

/// Rounds an integer to the nearest multiple of `10^k`, ties to even.
fn round_int_neg(i: i64, k: u64) -> (r: Result<ExprValue, ExpressionError>)
    ensures
        outcome(r) == int_result(nearest_multiple(i as int, pow(10, k as nat))),
{
    if k >= 20 {
        proof {
            vstd::arithmetic::power::lemma_pow_increases(10, 20, k as nat);
            lemma_ten_powers();
            lemma_nearest_below_step(i as int, pow(10, k as nat));
        }
        return Ok(ExprValue::Int(0));
    }
    let p: i128 = power_of_ten(k as u32);
    let n: i128 = i as i128;
    let ghost (iq, ir) = (i as int / p as int, i as int % p as int);
    proof {
        vstd::arithmetic::power::lemma_pow_positive(10, k as nat);
        vstd::arithmetic::power::lemma_pow_increases(10, k as nat, 19);
        lemma_ten_powers();
        vstd::arithmetic::div_mod::lemma_fundamental_div_mod(i as int, p as int);
        assert(-0x8000_0000_0000_0000 <= iq <= 0x8000_0000_0000_0000) by (nonlinear_arith)
            requires
                i as int == p as int * iq + ir,
                0 <= ir < p,
                p >= 1,
                i64::MIN <= i <= i64::MAX,
        ;
        assert(p * iq == iq * p) by (nonlinear_arith);
        assert((iq + 1) * p == iq * p + p) by (nonlinear_arith);
    }
    match (n.checked_div_euclid(p), n.checked_rem_euclid(p)) {
        (Some(q), Some(rem)) => {
            let down: i128 = n - rem;
            let odd = q.checked_rem_euclid(2) == Some(1i128);
            let multiple: i128 = if 2 * rem > p || (2 * rem == p && odd) {
                down + p
            } else {
                down
            };
            if multiple < i64::MIN as i128 || multiple > i64::MAX as i128 {
                Err(ExpressionError::integer_overflow())
            } else {
                Ok(ExprValue::Int(multiple as i64))
            }
        },
        _ => Err(ExpressionError::integer_overflow()),
    }
}

/// The largest number of decimal places that rounding accepts.
pub const MAX_ROUND_NDIGITS: i64 = 0x7FFF_FFFF;

/// The decimal places of the exact expansion of any binary64 number.
pub const MAX_FRACTION_DIGITS: usize = 1074;

/// Decimal places beyond the precision of a binary64 number.
pub const EXCESS_DIGITS: i64 = 17;

/// A power of ten below 10^17 in floating point, where it is exact.
pub open spec fn ten_power(k: nat) -> FloatValue {
    of_int(pow(10, k))->0
}

/// Whether a number is at least 2^52 in magnitude, and so has no fraction.
pub open spec fn is_large(v: FloatValue) -> bool {
    v.magnitude >= MIN_NORMAL as nat * one()
}

/// A number below 2^52 rounded to a multiple of `10^k`: its quotient by the
/// power rounded to a whole number, times the power. A power of 10^17 or more
/// leaves nothing of such a number.
pub open spec fn rounded_to_tens(v: FloatValue, k: nat) -> Option<FloatValue> {
    let zero = FloatValue { negative: false, magnitude: 0 };
    if k >= EXCESS_DIGITS {
        Some(zero)
    } else {
        match quotient(v, ten_power(k)) {
            Some(q) => if half_even(q).magnitude == 0 {
                Some(zero)
            } else {
                product(half_even(q), ten_power(k))
            },
            None => None,
        }
    }
}

/// A number rounded to `n` decimal places: its product with the power of ten
/// rounded to a whole number, over the power. Places beyond the precision, and
/// numbers without a fraction, are left as they are.
pub open spec fn rounded_to_places(v: FloatValue, n: nat) -> Option<FloatValue> {
    if n >= EXCESS_DIGITS || is_large(v) {
        Some(v)
    } else {
        match product(v, ten_power(n)) {
            Some(scaled) => quotient(half_even(scaled), ten_power(n)),
            None => Some(v),
        }
    }
}

/// The decimal places that are written out; zeros follow them.
pub open spec fn written_places(n: nat) -> nat {
    if n > MAX_FRACTION_DIGITS {
        MAX_FRACTION_DIGITS as nat
    } else {
        n
    }
}

/// The zeros that follow the places written out.
pub open spec fn padding(n: nat) -> nat {
    (n - written_places(n)) as nat
}

/// A rounded number with `n` decimal places.
pub open spec fn places_text(v: FloatValue, n: nat) -> Seq<char> {
    fixed_point(v, written_places(n)) + Seq::new(padding(n), |i: int| '0')
}

/// Rounding of a floating-point number to `n > 0` decimal places, under a
/// context that was charged for the text.
pub open spec fn round_places<C: EvalContext>(ctx: C, v: FloatValue, n: nat) -> Result<
    ValueView,
    ErrorView,
> {
    match rounded_to_places(v, n) {
        Some(rounded) => {
            let written = byte_len(fixed_point(rounded, written_places(n)));
            unless(
                if padding(n) > 0 {
                    ctx.memory_error(saturated(written + padding(n)))
                } else {
                    None
                },
                Ok(ValueView::Float { number: rounded, text: Some(places_text(rounded, n)) }),
            )
        },
        None => Err(not_finite()),
    }
}

/// The integer of a whole number; `None` is one beyond the finite range.
pub open spec fn whole_int(v: Option<FloatValue>) -> Result<ValueView, ErrorView> {
    match v {
        Some(f) => int_result(floor_of(f)),
        None => Err(ErrorView::IntegerOverflow),
    }
}

/// The number of decimal places asked for.
pub open spec fn asked_places(args: Seq<ValueView>) -> Result<Option<int>, ErrorView> {
    if args.len() < 2 {
        Ok(None)
    } else {
        match args[1] {
            ValueView::Int(n) => Ok(Some(n)),
            _ => Err(ErrorView::Other("round() ndigits must be int"@)),
        }
    }
}

/// The context after a number was rounded, and the result: an integer where no
/// decimal place is asked for, a number with its text otherwise.
pub open spec fn round_result<C: EvalContext>(ctx: C, args: Seq<ValueView>) -> (
    C,
    Result<ValueView, ErrorView>,
) {
    match asked_places(args) {
        Err(e) => (ctx, Err(e)),
        Ok(places) => match (args[0], places) {
            (ValueView::Float { number, text }, None) => (ctx, int_result(round_of(number))),
            (ValueView::Float { number, text }, Some(n)) => if n <= 0 {
                (
                    ctx,
                    if is_large(number) {
                        int_result(rounded_whole(floor_of(number), pow(10, (-n) as nat)))
                    } else {
                        whole_int(rounded_to_tens(number, (-n) as nat))
                    },
                )
            } else if n > MAX_ROUND_NDIGITS {
                (ctx, Err(ErrorView::Other("round() precision too big"@)))
            } else {
                let charged = ctx.after_string(n as nat);
                (charged, unless(ctx.string_error(n as nat), round_places(charged, number, n as nat)))
            },
            (ValueView::Int(i), None) => (ctx, Ok(ValueView::Int(i))),
            (ValueView::Int(i), Some(n)) => (
                ctx,
                if n >= 0 {
                    Ok(ValueView::Int(i))
                } else {
                    int_result(nearest_multiple(i, pow(10, (-n) as nat)))
                },
            ),
            _ => (ctx, Err(ErrorView::Other("round() requires numeric argument"@))),
        },
    }
}

/// A power of ten below 10^17 in floating point.
fn float_ten_power(k: u32) -> (r: Binary64)
    requires
        k < EXCESS_DIGITS,
    ensures
        r@ == ten_power(k as nat),
        r@.magnitude > 0,
{
    let p: i128 = power_of_ten(k);
    proof {
        vstd::arithmetic::power::lemma_pow_increases(10, k as nat, 16);
        vstd::arithmetic::power::lemma_pow_positive(10, k as nat);
        lemma_ten_powers();
        lemma_of_int_nonzero(p as int);
    }
    Binary64::from_i64(p as i64)
}

/// Rounds a number below 2^52 to a multiple of `10^k`.
fn round_to_neg_power(v: &Binary64, k: u64) -> (r: Option<Binary64>)
    ensures
        view_of(r) == rounded_to_tens(v@, k as nat),
{
    if k >= EXCESS_DIGITS as u64 {
        return Some(Binary64::zero());
    }
    let factor = float_ten_power(k as u32);
    match v.div(&factor) {
        Some(q) => {
            let scaled = q.round_half_even();
            if scaled.is_zero() {
                Some(Binary64::zero())
            } else {
                scaled.mul(&factor)
            }
        },
        None => None,
    }
}

/// A number of at least 2^52 in magnitude is whole.
proof fn lemma_large_is_whole(v: FloatValue, significand: nat, scale: nat)
    requires
        is_large(v),
        v.magnitude == significand * pow2(scale),
        significand < SIGNIFICAND_BOUND,
    ensures
        scale >= 1074,
        floor_of(v) == (if v.negative {
            -(significand * pow2((scale - 1074) as nat))
        } else {
            (significand * pow2((scale - 1074) as nat)) as int
        }),
{
    lemma_pow2_pos(scale);
    lemma_pow2_pos(1074);
    if scale < 1074 {
        lemma_pow2_adds(1073, 1);
        lemma2_to64();
        if scale < 1073 {
            lemma_pow2_strictly_increases(scale, 1073);
        }
        assert(significand * pow2(scale) < MIN_NORMAL * pow2(1074)) by (nonlinear_arith)
            requires
                significand < SIGNIFICAND_BOUND,
                pow2(scale) <= pow2(1073),
                pow2(scale) > 0,
                pow2(1074) == pow2(1073) * 2,
                SIGNIFICAND_BOUND == 2 * MIN_NORMAL,
        ;
    }
    let above = (scale - 1074) as nat;
    lemma_pow2_adds(1074, above);
    let whole = significand * pow2(above);
    assert(v.magnitude == whole * one()) by (nonlinear_arith)
        requires
            v.magnitude == significand * pow2(scale),
            pow2(scale) == one() * pow2(above),
            whole == significand * pow2(above),
    ;
    assert(-(whole * one()) == (-whole) * one()) by (nonlinear_arith);
    if v.negative {
        vstd::arithmetic::div_mod::lemma_div_multiples_vanish(-whole, one() as int);
    } else {
        vstd::arithmetic::div_mod::lemma_div_multiples_vanish(whole as int, one() as int);
    }
    assert((-whole) * one() == one() * (-whole)) by (nonlinear_arith);
    assert(whole * one() == one() * whole) by (nonlinear_arith);
}

/// A power of ten is at least the same power of two.
proof fn lemma_ten_above_two(k: nat)
    ensures
        pow2(k) <= pow(10, k),
    decreases k,
{
    if k == 0 {
        vstd::arithmetic::power::lemma_pow0(10);
        lemma2_to64();
    } else {
        let less = (k - 1) as nat;
        lemma_ten_above_two(less);
        lemma_pow2_adds(less, 1);
        lemma2_to64();
        vstd::arithmetic::power::lemma_pow_adds(10, less, 1);
        vstd::arithmetic::power::lemma_pow1(10);
    }
}

/// Whether twice a number of at least 2^52 in magnitude is at most `10^k`.
fn half_step_holds(v: &Binary64, k: u64) -> (r: bool)
    requires
        is_large(v@),
    ensures
        r == (2 * floor_of(v@) <= pow(10, k as nat) && -2 * floor_of(v@) <= pow(10, k as nat)),
{
    let (significand, scale) = v.parts();
    proof {
        lemma_large_is_whole(v@, significand as nat, scale as nat);
        vstd::arithmetic::power::lemma_pow_positive(10, k as nat);
    }
    let ghost above = (scale - 1074) as nat;
    let ghost whole = significand as nat * pow2(above);
    if k >= 1025 {
        proof {
            lemma_pow2_adds(above, 53);
            lemma2_to64();
            lemma2_to64_rest();
            lemma_pow2_pos(above);
            assert(2 * whole <= 2 * pow2((above + 53) as nat)) by (nonlinear_arith)
                requires
                    whole == significand as nat * pow2(above),
                    significand < SIGNIFICAND_BOUND,
                    pow2((above + 53) as nat) == pow2(above) * SIGNIFICAND_BOUND,
                    pow2(above) > 0,
            ;
            lemma_pow2_adds((above + 53) as nat, 1);
            if above + 54 < 1025 {
                lemma_pow2_strictly_increases((above + 54) as nat, 1025);
            }
            lemma_ten_above_two(1025);
            vstd::arithmetic::power::lemma_pow_increases(10, 1025, k as nat);
        }
        return true;
    }
    let mut twice = Digits::from_u64(significand);
    twice.scale_by_power(2, (scale - 1074) as u32 + 1);
    let step = Digits::from_u64(1).shift_up(k as usize);
    proof {
        vstd::arithmetic::power2::lemma_pow2((above + 1) as nat);
        lemma_pow2_adds(above, 1);
        lemma2_to64();
        assert(twice.value() == 2 * whole) by (nonlinear_arith)
            requires
                twice.value() == significand as nat * pow2((above + 1) as nat),
                pow2((above + 1) as nat) == pow2(above) * 2,
                whole == significand as nat * pow2(above),
        ;
    }
    twice.at_most(&step)
}

/// Rounds a number of at least 2^52 in magnitude to a multiple of `10^k`.
fn round_large(v: &Binary64, k: u64) -> (r: Result<ExprValue, ExpressionError>)
    requires
        is_large(v@),
    ensures
        outcome(r) == int_result(rounded_whole(floor_of(v@), pow(10, k as nat))),
{
    let ghost i = floor_of(v@);
    let ghost p = pow(10, k as nat);
    proof {
        vstd::arithmetic::power::lemma_pow_positive(10, k as nat);
        if -p < i < p {
            lemma_nearest_below_step(i, p);
        }
    }
    match v.floor_to_i64() {
        Some(n) => {
            let unchanged = if k <= 18 {
                proof {
                    vstd::arithmetic::power::lemma_pow_increases(10, k as nat, 19);
                    lemma_ten_powers();
                }
                let step: i128 = power_of_ten(k as u32);
                step <= n as i128 || step <= -(n as i128)
            } else {
                proof {
                    vstd::arithmetic::power::lemma_pow_increases(10, 19, k as nat);
                    lemma_ten_powers();
                }
                false
            };
            if unchanged {
                Ok(ExprValue::Int(n))
            } else {
                round_int_neg(n, k)
            }
        },
        None => {
            if half_step_holds(v, k) {
                Ok(ExprValue::Int(0))
            } else {
                Err(ExpressionError::integer_overflow())
            }
        },
    }
}

/// Rounds a number to `n` decimal places.
fn round_to_places(v: &Binary64, n: i64) -> (r: Option<Binary64>)
    requires
        n > 0,
    ensures
        view_of(r) == rounded_to_places(v@, n as nat),
{
    if n >= EXCESS_DIGITS || v.is_large() {
        return Some(*v);
    }
    let factor = float_ten_power(n as u32);
    match v.mul(&factor) {
        Some(scaled) => scaled.round_half_even().div(&factor),
        None => Some(*v),
    }
}

/// Rounds a number to `n` decimal places and writes it out.
fn round_float_places<C: EvalContext>(ctx: &mut C, v: &Binary64, n: i64) -> (r: Result<
    ExprValue,
    ExpressionError,
>)
    requires
        0 < n <= MAX_ROUND_NDIGITS,
    ensures
        *final(ctx) == *old(ctx),
        outcome(r) == round_places(*old(ctx), v@, n as nat),
{
    let rounded = match round_to_places(v, n) {
        Some(rounded) => rounded,
        None => return Err(ExpressionError::float_error("result is not a finite number")),
    };
    let requested: usize = n as usize;
    let written: usize = if requested > MAX_FRACTION_DIGITS {
        MAX_FRACTION_DIGITS
    } else {
        requested
    };
    let mut text = fixed_point_text(&rounded, written);
    let pad: usize = requested - written;
    if pad > 0 {
        match ctx.check_memory(str_len(text.as_str()).saturating_add(pad)) {
            Ok(()) => {},
            Err(e) => return Err(e),
        }
    }
    push_repeated(&mut text, '0', pad);
    Ok(ExprValue::Float(Float64::with_str(rounded, text)))
}

/// Rounds a number: without decimal places to an integer, otherwise to a
/// number that is displayed with that many places. Ties go to the even digit.
pub fn round_fn<C: EvalContext>(ctx: &mut C, a: &[ExprValue]) -> (r: Result<ExprValue, ExpressionError>)
    requires
        a@.len() >= 1,
    ensures
        (*final(ctx), outcome(r)) == round_result(*old(ctx), models(a@)),
{
    proof {
        lemma_models_index(a@, 0);
        if a@.len() > 1 {
            lemma_models_index(a@, 1);
        }
    }
    let places: Option<i64> = if a.len() > 1 {
        match &a[1] {
            ExprValue::Int(n) => Some(*n),
            _ => return Err(ExpressionError::new("round() ndigits must be int")),
        }
    } else {
        None
    };
    match (&a[0], places) {
        (ExprValue::Float(f), None) => checked_int(
            f.number.round_to_i64(),
            Ghost(round_of(f.number@)),
        ),
        (ExprValue::Float(f), Some(n)) => {
            if n <= 0 {
                let k: u64 = (-(n as i128)) as u64;
                if f.number.is_large() {
                    return round_large(&f.number, k);
                }
                return match round_to_neg_power(&f.number, k) {
                    Some(v) => checked_int(v.floor_to_i64(), Ghost(floor_of(v@))),
                    None => Err(ExpressionError::integer_overflow()),
                };
            }
            if n > MAX_ROUND_NDIGITS {
                return Err(ExpressionError::new("round() precision too big"));
            }
            match ctx.count_string_ops(n as usize) {
                Ok(()) => {},
                Err(e) => return Err(e),
            }
            round_float_places(ctx, &f.number, n)
        },
        (ExprValue::Int(i), None) => Ok(ExprValue::Int(*i)),
        (ExprValue::Int(i), Some(n)) => {
            if n >= 0 {
                return Ok(ExprValue::Int(*i));
            }
            round_int_neg(*i, (-(n as i128)) as u64)
        },
        _ => Err(ExpressionError::new("round() requires numeric argument")),
    }
}

/// A sum in progress: the integers alone, and all numbers in floating point.
#[verifier::ext_equal]
pub struct Total {
    pub ints: int,
    pub floats: Option<FloatValue>,
    pub is_float: bool,
}

/// A floating-point sum that may have left the finite range, and one number
/// more.
pub open spec fn plus(total: Option<FloatValue>, f: FloatValue) -> Option<FloatValue> {
    match total {
        Some(t) => sum(t, f),
        None => None,
    }
}

/// A sum with one element more.
pub open spec fn added(total: Total, element: ValueView) -> Result<Total, ErrorView> {
    match element {
        ValueView::Int(i) => if i64::MIN <= total.ints + i <= i64::MAX {
            Ok(Total { ints: total.ints + i, floats: plus(total.floats, of_int(i)->0), ..total })
        } else {
            Err(ErrorView::IntegerOverflow)
        },
        ValueView::Float { number, text } => Ok(
            Total { floats: plus(total.floats, number), is_float: true, ..total },
        ),
        _ => Err(ErrorView::Other("sum() elements must be numeric"@)),
    }
}

/// The sum of elements, each counted before it is added.
pub open spec fn total_of<C: EvalContext>(ctx: C, elements: Seq<ValueView>) -> (
    C,
    Result<Total, ErrorView>,
)
    decreases elements.len(),
{
    if elements.len() == 0 {
        (
            ctx,
            Ok(
                Total {
                    ints: 0,
                    floats: Some(FloatValue { negative: false, magnitude: 0 }),
                    is_float: false,
                },
            ),
        )
    } else {
        let before = total_of(ctx, elements.drop_last());
        match before.1 {
            Ok(total) => (
                before.0.after_ops(1),
                match before.0.ops_error(1) {
                    Some(e) => Err(e),
                    None => added(total, elements.last()),
                },
            ),
            Err(e) => before,
        }
    }
}

/// The value of a sum: floating point where any element is.
pub open spec fn total_value(total: Result<Total, ErrorView>) -> Result<ValueView, ErrorView> {
    match total {
        Ok(t) => if t.is_float {
            float_result(t.floats)
        } else {
            Ok(ValueView::Int(t.ints))
        },
        Err(e) => Err(e),
    }
}

/// The sum of integers.
pub open spec fn int_sum(values: Seq<int>) -> int
    decreases values.len(),
{
    if values.len() == 0 {
        0
    } else {
        int_sum(values.drop_last()) + values.last()
    }
}

/// Whether no sum of leading integers leaves 64 bits.
pub open spec fn sums_fit(values: Seq<int>) -> bool {
    forall|k: int| 0 <= k <= values.len() ==> i64::MIN <= #[trigger] int_sum(values.take(k)) <= i64::MAX
}

/// A sum that failed stays failed.
proof fn lemma_total_error<C: EvalContext>(ctx: C, elements: Seq<ValueView>, i: int)
    requires
        0 <= i <= elements.len(),
        total_of(ctx, elements.take(i)).1 is Err,
    ensures
        total_of(ctx, elements) == total_of(ctx, elements.take(i)),
    decreases elements.len() - i,
{
    if i == elements.len() {
        assert(elements.take(i) =~= elements);
    } else {
        assert(elements.take(i + 1).drop_last() =~= elements.take(i));
        lemma_total_error(ctx, elements, i + 1);
    }
}

fn sum_elements<C: EvalContext>(ctx: &mut C, elements: &Vec<ExprValue>) -> (r: Result<
    ExprValue,
    ExpressionError,
>)
    ensures
        *final(ctx) == total_of(*old(ctx), models(elements@)).0,
        outcome(r) == total_value(total_of(*old(ctx), models(elements@)).1),
{
    let ghost views = models(elements@);
    let mut ints: i64 = 0;
    let mut floats: Option<Binary64> = Some(Binary64::zero());
    let mut is_float = false;
    let mut i: usize = 0;
    proof {
        assert(views.take(0) =~= seq![]);
    }
    while i < elements.len()
        invariant
            i <= elements@.len(),
            views == models(elements@),
            total_of(*old(ctx), views.take(i as int)) == (
                *ctx,
                Ok::<_, ErrorView>(Total { ints: ints as int, floats: view_of(floats), is_float }),
            ),
        decreases elements@.len() - i,
    {
        proof {
            assert(views.take(i + 1).drop_last() =~= views.take(i as int));
            lemma_models_index(elements@, i as int);
            if total_of(*old(ctx), views.take(i + 1)).1 is Err {
                lemma_total_error(*old(ctx), views, i + 1);
            }
        }
        match ctx.count_op() {
            Ok(()) => {},
            Err(e) => return Err(e),
        }
        match &elements[i] {
            ExprValue::Int(n) => {
                ints = match ints.checked_add(*n) {
                    Some(s) => s,
                    None => return Err(ExpressionError::integer_overflow()),
                };
                floats = add_to(&floats, &Binary64::from_i64(*n));
            },
            ExprValue::Float(f) => {
                is_float = true;
                floats = add_to(&floats, &f.number);
            },
            _ => return Err(ExpressionError::new("sum() elements must be numeric")),
        }
        i = i + 1;
    }
    proof {
        assert(views.take(i as int) =~= views);
    }
    if is_float {
        checked_float(floats)
    } else {
        Ok(ExprValue::Int(ints))
    }
}

fn add_to(total: &Option<Binary64>, f: &Binary64) -> (r: Option<Binary64>)
    ensures
        view_of(r) == plus(view_of(*total), f@),
{
    match total {
        Some(t) => t.plus(f),
        None => None,
    }
}

/// Counting in two parts is counting in one.
proof fn lemma_each_op_splits<C: EvalContext>(ctx: C, m: nat, n: nat)
    requires
        each_op(ctx, m).1 is None,
    ensures
        each_op(ctx, m + n) == each_op(each_op(ctx, m).0, n),
    decreases n,
{
    if n > 0 {
        lemma_each_op_splits(ctx, m, (n - 1) as nat);
        assert((m + n - 1) as nat == m + (n - 1) as nat);
    }
}

/// Counts one operation for each integer of a range.
fn count_range<C: EvalContext>(ctx: &mut C, range: &RangeExpr) -> (r: Result<(), ExpressionError>)
    ensures
        each_op(*old(ctx), range_values(range@).len()) == (*final(ctx), error_of(r)),
{
    let ranges = range.ranges();
    let mut i: usize = 0;
    proof {
        assert(range@.take(0) =~= seq![]);
    }
    while i < ranges.len()
        invariant
            i <= ranges@.len(),
            ranges@ == range@,
            all_valid(ranges@),
            each_op(*old(ctx), range_values(range@.take(i as int)).len()) == (*ctx, None::<ErrorView>),
        decreases ranges@.len() - i,
    {
        let one_range = ranges[i];
        let ghost done = range_values(range@.take(i as int)).len();
        proof {
            assert(ranges@[i as int].valid());
            assert(range@.take(i + 1).drop_last() =~= range@.take(i as int));
            lemma_each_op_splits(*old(ctx), done, one_range.count());
            let span = one_range.end - one_range.start;
            let step = one_range.step as int;
            vstd::arithmetic::div_mod::lemma_div_is_ordered_by_denominator(span, 1, step);
            vstd::arithmetic::div_mod::lemma_div_pos_is_pos(span, step);
            assert(span / 1 == span);
        }
        let span: i128 = one_range.end as i128 - one_range.start as i128;
        let count: u128 = (span / (one_range.step as i128) + 1) as u128;
        match count_each(ctx, count) {
            Ok(()) => {},
            Err(e) => {
                proof {
                    lemma_values_grow(range@, i + 1);
                    lemma_refused_stays(
                        *old(ctx),
                        done + one_range.count(),
                        range_values(range@).len(),
                    );
                }
                return Err(e);
            },
        }
        i = i + 1;
    }
    proof {
        assert(range@.take(i as int) =~= range@);
    }
    Ok(())
}

/// Leading ranges hold no more integers than all of them.
proof fn lemma_values_grow(ranges: Seq<IntRange>, i: int)
    requires
        0 <= i <= ranges.len(),
    ensures
        range_values(ranges.take(i)).len() <= range_values(ranges).len(),
        range_values(ranges.take(i)) == range_values(ranges).take(range_values(ranges.take(i)).len() as int),
    decreases ranges.len(),
{
    if i == ranges.len() {
        assert(ranges.take(i) =~= ranges);
        assert(range_values(ranges).take(range_values(ranges).len() as int) =~= range_values(ranges));
    } else {
        lemma_values_grow(ranges.drop_last(), i);
        assert(ranges.drop_last().take(i) =~= ranges.take(i));
        let n = range_values(ranges.take(i)).len() as int;
        assert(range_values(ranges).take(n) =~= range_values(ranges.drop_last()).take(n));
    }
}

/// The sum of the integers of a range.
fn sum_range(range: &RangeExpr) -> (r: i64)
    requires
        sums_fit(range_values(range@)),
    ensures
        r == int_sum(range_values(range@)),
{
    let ranges = range.ranges();
    let ghost all = range_values(range@);
    let mut total: i64 = 0;
    let mut i: usize = 0;
    proof {
        assert(range@.take(0) =~= seq![]);
    }
    while i < ranges.len()
        invariant
            i <= ranges@.len(),
            ranges@ == range@,
            all_valid(ranges@),
            all == range_values(range@),
            sums_fit(all),
            total == int_sum(range_values(range@.take(i as int))),
        decreases ranges@.len() - i,
    {
        let one_range = ranges[i];
        let ghost done = range_values(range@.take(i as int));
        proof {
            assert(ranges@[i as int].valid());
            assert(range@.take(i + 1).drop_last() =~= range@.take(i as int));
            lemma_values_grow(range@, i as int);
            lemma_values_grow(range@, i + 1);
            lemma_range_end(one_range);
            assert(done + one_range.values().take(0) =~= done);
            assert(0 * one_range.step == 0);
        }
        let mut next: i64 = one_range.start;
        let ghost mut k: int = 0;
        loop
            invariant_except_break
                one_range.valid(),
                0 <= k < one_range.count(),
                next == one_range.start + k * one_range.step,
                sums_fit(all),
                done.len() + one_range.count() <= all.len(),
                done + one_range.values() == all.take((done.len() + one_range.count()) as int),
                total == int_sum(done + one_range.values().take(k)),
            ensures
                total == int_sum(done + one_range.values()),
            decreases one_range.count() - k,
        {
            proof {
                let longer = done + one_range.values().take(k + 1);
                assert(longer.drop_last() =~= done + one_range.values().take(k));
                assert(longer.last() == next);
                assert(longer =~= all.take(done.len() + k + 1)) by {
                    assert(longer =~= (done + one_range.values()).take(done.len() + k + 1));
                }
                assert(i64::MIN <= int_sum(all.take(done.len() + k + 1)) <= i64::MAX);
            }
            total = total + next;
            if next == one_range.end {
                proof {
                    lemma_range_position(one_range, k);
                    assert(one_range.values().take(k + 1) =~= one_range.values());
                }
                break;
            }
            proof {
                lemma_range_position(one_range, k);
                assert((k + 1) * one_range.step == k * one_range.step + one_range.step) by (nonlinear_arith);
            }
            next = next + one_range.step;
            proof {
                k = k + 1;
            }
        }
        i = i + 1;
    }
    proof {
        assert(range@.take(i as int) =~= range@);
    }
    total
}

/// The sum of a list or of a range. The integers of a range must add up within
/// 64 bits.
pub fn sum_list<C: EvalContext>(ctx: &mut C, a: &[ExprValue]) -> (r: Result<ExprValue, ExpressionError>)
    requires
        a@.len() >= 1,
        match a@[0]@ {
            ValueView::Range(ranges) => each_op(*old(ctx), range_values(ranges).len()).1 is None
                ==> sums_fit(range_values(ranges)),
            _ => true,
        },
    ensures
        match a@[0]@ {
            ValueView::List { elements, elem_type } => {
                &&& *final(ctx) == total_of(*old(ctx), elements).0
                &&& outcome(r) == total_value(total_of(*old(ctx), elements).1)
            },
            ValueView::Range(ranges) => {
                let counted = each_op(*old(ctx), range_values(ranges).len());
                &&& *final(ctx) == counted.0
                &&& outcome(r) == unless(counted.1, Ok(ValueView::Int(int_sum(range_values(ranges)))))
            },
            _ => *final(ctx) == *old(ctx) && outcome(r) == Err::<ValueView, ErrorView>(
                ErrorView::Other("sum() requires list or range_expr"@),
            ),
        },
{
    match &a[0] {
        ExprValue::List { elements, elem_type } => sum_elements(ctx, elements),
        ExprValue::RangeExpr(range) => {
            match count_range(ctx, range) {
                Ok(()) => {},
                Err(e) => return Err(e),
            }
            Ok(ExprValue::Int(sum_range(range)))
        },
        _ => Err(ExpressionError::new("sum() requires list or range_expr")),
    }
}

/// The extreme of items is one of them, and no item is beyond it: none is less
/// than the least, none greater than the greatest.
pub proof fn extremes_bound_all_items(items: Seq<ValueView>, extreme: Extreme, i: int)
    requires
        0 <= i < items.len(),
        items.len() >= 2,
        extreme_of(items, extreme) is Ok,
    ensures
        items.contains(extreme_of(items, extreme)->Ok_0),
        value_relation(extreme_of(items, extreme)->Ok_0, items[i]) is Some,
        value_relation(extreme_of(items, extreme)->Ok_0, items[i]) != Some(extreme.yields_when()),
    decreases items.len(),
{
    let before = items.drop_last();
    let last = items.last();
    let previous = extreme_of(before, extreme)->Ok_0;
    comparison_is_antisymmetric(previous, last);
    comparison_is_transitive(previous, last, previous);
    comparison_is_transitive(last, previous, last);
    comparison_is_antisymmetric(previous, previous);
    comparison_is_antisymmetric(last, last);
    if before.len() >= 2 {
        extremes_bound_all_items(before, extreme, 0);
        let at = choose|j: int| 0 <= j < before.len() && before[j] == previous;
        assert(items[at] == previous);
    } else {
        assert(previous == items[0]);
    }
    assert(items[items.len() - 1] == last);
    if i < before.len() {
        assert(before[i] == items[i]);
        if before.len() >= 2 {
            extremes_bound_all_items(before, extreme, i);
        }
        comparison_is_transitive(last, previous, items[i]);
    }
}

/// Rounding to a multiple of `p` gives a multiple of it that no other multiple
/// is nearer than; of two that are equally near, the even one.
pub proof fn nearest_multiples_are_nearest(i: int, p: int, other: int)
    requires
        p > 0,
    ensures
        nearest_multiple(i, p) % p == 0,
        -p <= 2 * (nearest_multiple(i, p) - i) <= p,
        ({
            let off = nearest_multiple(i, p) - i;
            2 * off == p || 2 * off == -p ==> (nearest_multiple(i, p) / p) % 2 == 0
        }),
        ({
            let off = nearest_multiple(i, p) - i;
            let gap = other * p - i;
            (if off < 0 { -off } else { off }) <= (if gap < 0 { -gap } else { gap })
        }),
{
    let q = i / p;
    let r = i % p;
    vstd::arithmetic::div_mod::lemma_fundamental_div_mod(i, p);
    assert((q + 1) * p == q * p + p && p * q == q * p) by (nonlinear_arith);
    vstd::arithmetic::div_mod::lemma_mod_multiples_basic(q, p);
    vstd::arithmetic::div_mod::lemma_mod_multiples_basic(q + 1, p);
    vstd::arithmetic::div_mod::lemma_div_multiples_vanish(q, p);
    vstd::arithmetic::div_mod::lemma_div_multiples_vanish(q + 1, p);
    assert(p * q == q * p && p * (q + 1) == (q + 1) * p) by (nonlinear_arith);
    if other >= q + 1 {
        assert(other * p >= (q + 1) * p) by (nonlinear_arith)
            requires
                other >= q + 1,
                p > 0,
        ;
    } else {
        assert(other * p <= q * p) by (nonlinear_arith)
            requires
                other <= q,
                p > 0,
        ;
    }
}

/// The sum of integers is their exact sum, and an integer.
pub proof fn integer_sums_are_exact<C: EvalContext>(ctx: C, values: Seq<int>)
    ensures
        total_of(ctx, int_views(values)).1 matches Ok(total) ==> total.ints == int_sum(values)
            && !total.is_float && i64::MIN <= total.ints <= i64::MAX,
    decreases values.len(),
{
    if values.len() > 0 {
        integer_sums_are_exact(ctx, values.drop_last());
        assert(int_views(values).drop_last() =~= int_views(values.drop_last()));
    }
}

} // verus!
