//! The order of expression values.

use vstd::arithmetic::power2::lemma_pow2_pos;
use vstd::prelude::*;
use vstd::utf8::encode_utf8;

use crate::binary64::{floor_of, one, Binary64, FloatValue};
use crate::error::{ErrorView, ExpressionError};
use crate::types::{type_text, ExprType};
use crate::value::{ExprValue, ValueView};

verus! {

/// How a value stands to another.
#[derive(Clone, Copy, Debug, PartialEq, Eq, Structural)]
pub enum Relation {
    Less,
    Equal,
    Greater,
}

pub open spec fn int_relation(a: int, b: int) -> Relation {
    if a < b {
        Relation::Less
    } else if a == b {
        Relation::Equal
    } else {
        Relation::Greater
    }
}

/// The relation of the same values in exchanged roles.
pub open spec fn reversed(r: Relation) -> Relation {
    match r {
        Relation::Less => Relation::Greater,
        Relation::Equal => Relation::Equal,
        Relation::Greater => Relation::Less,
    }
}

/// Bytes compared one by one; a prefix comes first.
pub open spec fn bytes_relation(a: Seq<u8>, b: Seq<u8>) -> Relation
    decreases a.len(),
{
    if a.len() == 0 || b.len() == 0 {
        int_relation(a.len() as int, b.len() as int)
    } else if a[0] != b[0] {
        int_relation(a[0] as int, b[0] as int)
    } else {
        bytes_relation(a.skip(1), b.skip(1))
    }
}

/// A number as a multiple of the unit of floating point.
pub open spec fn number_units(v: ValueView) -> Option<int> {
    match v {
        ValueView::Int(i) => Some(i * one()),
        ValueView::Float { number, text } => Some(number.units()),
        _ => None,
    }
}

/// The text by which a string or a path is ordered.
pub open spec fn ordered_text(v: ValueView) -> Option<Seq<char>> {
    match v {
        ValueView::Text(text) => Some(text),
        ValueView::Path { value, format } => Some(value),
        _ => None,
    }
}

/// The relation of two values: numbers by their exact values, texts by their
/// bytes in UTF-8, false before true; `None` where the values have no order.
pub open spec fn value_relation(a: ValueView, b: ValueView) -> Option<Relation> {
    match (number_units(a), number_units(b)) {
        (Some(x), Some(y)) => Some(int_relation(x, y)),
        _ => match (ordered_text(a), ordered_text(b)) {
            (Some(x), Some(y)) => Some(bytes_relation(encode_utf8(x), encode_utf8(y))),
            _ => match (a, b) {
                (ValueView::Bool(x), ValueView::Bool(y)) => Some(
                    int_relation(
                        if x {
                            1
                        } else {
                            0
                        },
                        if y {
                            1
                        } else {
                            0
                        },
                    ),
                ),
                _ => None,
            },
        },
    }
}

/// The type of a value.
pub open spec fn value_type(v: ValueView) -> ExprType {
    match v {
        ValueView::Null => ExprType::NullType,
        ValueView::Bool(_) => ExprType::Bool,
        ValueView::Int(_) => ExprType::Int,
        ValueView::Float { .. } => ExprType::Float,
        ValueView::Text(_) => ExprType::String,
        ValueView::Path { .. } => ExprType::Path,
        ValueView::Range(_) => ExprType::RangeExpr,
        ValueView::List { elements, elem_type } => ExprType::List(Box::new(elem_type)),
    }
}

/// The error of a comparison of values without an order.
pub open spec fn unordered(a: ValueView, b: ValueView) -> ErrorView {
    ErrorView::TypeError(
        "Cannot compare "@ + type_text(value_type(a)) + " and "@ + type_text(value_type(b)),
    )
}

fn compare_ints(a: i64, b: i64) -> (r: Relation)
    ensures
        r == int_relation(a as int, b as int),
{
    if a < b {
        Relation::Less
    } else if a == b {
        Relation::Equal
    } else {
        Relation::Greater
    }
}

pub(crate) fn compare_bytes(a: &[u8], b: &[u8]) -> (r: Relation)
    ensures
        r == bytes_relation(a@, b@),
{
    let mut i: usize = 0;
    proof {
        assert(a@.skip(0) =~= a@);
        assert(b@.skip(0) =~= b@);
    }
    while i < a.len() && i < b.len()
        invariant
            i <= a@.len(),
            i <= b@.len(),
            bytes_relation(a@, b@) == bytes_relation(a@.skip(i as int), b@.skip(i as int)),
        decreases a@.len() - i,
    {
        if a[i] < b[i] {
            return Relation::Less;
        }
        if a[i] > b[i] {
            return Relation::Greater;
        }
        proof {
            assert(a@.skip(i as int).skip(1) =~= a@.skip(i + 1));
            assert(b@.skip(i as int).skip(1) =~= b@.skip(i + 1));
        }
        i = i + 1;
    }
    if a.len() < b.len() {
        Relation::Less
    } else if a.len() == b.len() {
        Relation::Equal
    } else {
        Relation::Greater
    }
}

fn compare_floats(a: &Binary64, b: &Binary64) -> (r: Relation)
    ensures
        r == int_relation(a@.units(), b@.units()),
{
    if a.less(b) {
        Relation::Less
    } else if a.equals(b) {
        Relation::Equal
    } else {
        Relation::Greater
    }
}

/// An integer against the whole part of a number.
proof fn lemma_int_against_floor(i: int, a: FloatValue)
    ensures
        i < floor_of(a) ==> i * one() < a.units(),
        i > floor_of(a) ==> i * one() > a.units(),
        i == floor_of(a) ==> i * one() <= a.units(),
        i == floor_of(a) ==> ((i * one() == a.units()) == (crate::binary64::ceil_of(a) == i)),
{
    lemma_pow2_pos(1074);
    let unit = one() as int;
    let u = a.units();
    let f = floor_of(a);
    vstd::arithmetic::div_mod::lemma_fundamental_div_mod(u, unit);
    assert(i < f ==> i * unit < f * unit) by (nonlinear_arith)
        requires
            unit > 0,
    ;
    assert(i >= f + 1 ==> i * unit >= f * unit + unit) by (nonlinear_arith)
        requires
            unit > 0,
    ;
    assert(unit * f == f * unit) by (nonlinear_arith);
    if u == f * unit {
        assert(-u == (-f) * unit) by (nonlinear_arith)
            requires
                u == f * unit,
        ;
        vstd::arithmetic::div_mod::lemma_fundamental_div_mod_converse(-u, unit, -f, 0);
    } else {
        assert(-u == (-f - 1) * unit + (unit - u % unit)) by (nonlinear_arith)
            requires
                u == f * unit + u % unit,
        ;
        vstd::arithmetic::div_mod::lemma_fundamental_div_mod_converse(
            -u,
            unit,
            -f - 1,
            unit - u % unit,
        );
    }
}

fn compare_int_float(i: i64, f: &Binary64) -> (r: Relation)
    ensures
        r == int_relation(i * one(), f@.units()),
{
    proof {
        lemma_int_against_floor(i as int, f@);
        lemma_pow2_pos(1074);
        assert(!f@.negative ==> floor_of(f@) >= 0) by {
            if !f@.negative {
                vstd::arithmetic::div_mod::lemma_div_pos_is_pos(f@.units(), one() as int);
            }
        }
        assert(f@.negative ==> floor_of(f@) <= 0) by {
            vstd::arithmetic::div_mod::lemma_fundamental_div_mod(f@.units(), one() as int);
            if f@.negative && floor_of(f@) > 0 {
                assert(one() * floor_of(f@) > 0) by (nonlinear_arith)
                    requires
                        one() > 0,
                        floor_of(f@) > 0,
                ;
            }
        }
    }
    match f.floor_to_i64() {
        Some(floor) => {
            if i < floor {
                Relation::Less
            } else if i > floor {
                Relation::Greater
            } else {
                match f.ceil_to_i64() {
                    Some(ceil) => if ceil == i {
                        Relation::Equal
                    } else {
                        Relation::Less
                    },
                    None => Relation::Less,
                }
            }
        },
        None => if f.negative() {
            Relation::Greater
        } else {
            Relation::Less
        },
    }
}

fn reverse(r: Relation) -> (s: Relation)
    ensures
        s == reversed(r),
{
    match r {
        Relation::Less => Relation::Greater,
        Relation::Equal => Relation::Equal,
        Relation::Greater => Relation::Less,
    }
}

impl ExprValue {
    /// The type of the value.
    pub fn expr_type(&self) -> (r: ExprType)
        ensures
            r == value_type(self@),
    {
        match self {
            ExprValue::Null => ExprType::NullType,
            ExprValue::Bool(_) => ExprType::Bool,
            ExprValue::Int(_) => ExprType::Int,
            ExprValue::Float(_) => ExprType::Float,
            ExprValue::String(_) => ExprType::String,
            ExprValue::Path { .. } => ExprType::Path,
            ExprValue::RangeExpr(_) => ExprType::RangeExpr,
            ExprValue::List { elements, elem_type } => ExprType::List(Box::new(elem_type.clone())),
        }
    }

    /// Compares two values.
    pub fn compare(&self, other: &ExprValue) -> (r: Result<Relation, ExpressionError>)
        ensures
            match r {
                Ok(relation) => value_relation(self@, other@) == Some(relation),
                Err(e) => value_relation(self@, other@) is None && e@ == unordered(self@, other@),
            },
    {
        match (self, other) {
            (ExprValue::Int(a), ExprValue::Int(b)) => {
                proof {
                    lemma_pow2_pos(1074);
                    let unit = one() as int;
                    let (x, y) = (*a as int, *b as int);
                    assert((x * unit < y * unit) == (x < y) && (x * unit == y * unit) == (x == y))
                        by (nonlinear_arith)
                        requires
                            unit > 0,
                    ;
                }
                Ok(compare_ints(*a, *b))
            },
            (ExprValue::Int(a), ExprValue::Float(b)) => Ok(compare_int_float(*a, &b.number)),
            (ExprValue::Float(a), ExprValue::Int(b)) => Ok(reverse(compare_int_float(*b, &a.number))),
            (ExprValue::Float(a), ExprValue::Float(b)) => Ok(compare_floats(&a.number, &b.number)),
            (ExprValue::String(a), ExprValue::String(b)) => Ok(
                compare_bytes(a.as_str().as_bytes(), b.as_str().as_bytes()),
            ),
            (ExprValue::String(a), ExprValue::Path { value: b, .. }) => Ok(
                compare_bytes(a.as_str().as_bytes(), b.as_str().as_bytes()),
            ),
            (ExprValue::Path { value: a, .. }, ExprValue::String(b)) => Ok(
                compare_bytes(a.as_str().as_bytes(), b.as_str().as_bytes()),
            ),
            (ExprValue::Path { value: a, .. }, ExprValue::Path { value: b, .. }) => Ok(
                compare_bytes(a.as_str().as_bytes(), b.as_str().as_bytes()),
            ),
            (ExprValue::Bool(a), ExprValue::Bool(b)) => Ok(
                if *a == *b {
                    Relation::Equal
                } else if *a {
                    Relation::Greater
                } else {
                    Relation::Less
                },
            ),
            _ => {
                let message = "Cannot compare ".to_owned().concat(
                    self.expr_type().name().as_str(),
                ).concat(" and ").concat(other.expr_type().name().as_str());
                Err(ExpressionError::type_error(message.as_str()))
            },
        }
    }
}

/// Bytes in exchanged roles stand in the reversed relation.
pub(crate) proof fn lemma_bytes_reversed(a: Seq<u8>, b: Seq<u8>)
    ensures
        bytes_relation(b, a) == reversed(bytes_relation(a, b)),
    decreases a.len(),
{
    if a.len() > 0 && b.len() > 0 && a[0] == b[0] {
        lemma_bytes_reversed(a.skip(1), b.skip(1));
    }
}

/// The order of bytes is transitive.
pub(crate) proof fn lemma_bytes_transitive(a: Seq<u8>, b: Seq<u8>, c: Seq<u8>)
    requires
        bytes_relation(a, b) == Relation::Less,
        bytes_relation(b, c) == Relation::Less,
    ensures
        bytes_relation(a, c) == Relation::Less,
    decreases a.len(),
{
    if a.len() > 0 && b.len() > 0 && c.len() > 0 && a[0] == b[0] && b[0] == c[0] {
        lemma_bytes_transitive(a.skip(1), b.skip(1), c.skip(1));
    }
}

/// Bytes that stand in no order are the same.
pub(crate) proof fn lemma_bytes_equal(a: Seq<u8>, b: Seq<u8>)
    ensures
        (bytes_relation(a, b) == Relation::Equal) == (a == b),
    decreases a.len(),
{
    if a.len() > 0 && b.len() > 0 {
        lemma_bytes_equal(a.skip(1), b.skip(1));
        if a[0] == b[0] && a.skip(1) == b.skip(1) {
            assert(a =~= seq![a[0]] + a.skip(1));
            assert(b =~= seq![b[0]] + b.skip(1));
        }
    } else if a.len() == b.len() {
        assert(a =~= b);
    }
}

/// Comparison is antisymmetric: exchanging the values reverses the relation.
pub proof fn comparison_is_antisymmetric(a: ValueView, b: ValueView)
    ensures
        match (value_relation(a, b), value_relation(b, a)) {
            (Some(x), Some(y)) => y == reversed(x),
            (None, None) => true,
            _ => false,
        },
{
    match (ordered_text(a), ordered_text(b)) {
        (Some(x), Some(y)) => {
            lemma_bytes_reversed(encode_utf8(x), encode_utf8(y));
        },
        _ => {},
    }
}

/// The order is transitive, and what is comparable with the same value is
/// comparable.
pub proof fn comparison_is_transitive(a: ValueView, b: ValueView, c: ValueView)
    requires
        value_relation(a, b) is Some,
        value_relation(b, c) is Some,
    ensures
        value_relation(a, c) is Some,
        value_relation(a, b) != Some(Relation::Greater) && value_relation(b, c) != Some(
            Relation::Greater,
        ) ==> value_relation(a, c) != Some(Relation::Greater),
        value_relation(a, b) != Some(Relation::Less) && value_relation(b, c) != Some(Relation::Less)
            ==> value_relation(a, c) != Some(Relation::Less),
{
    match (ordered_text(a), ordered_text(b), ordered_text(c)) {
        (Some(x), Some(y), Some(z)) => {
            let (p, q, r) = (encode_utf8(x), encode_utf8(y), encode_utf8(z));
            lemma_bytes_equal(p, q);
            lemma_bytes_equal(q, r);
            lemma_bytes_reversed(p, q);
            lemma_bytes_reversed(q, r);
            lemma_bytes_reversed(p, r);
            if bytes_relation(p, q) == Relation::Less && bytes_relation(q, r) == Relation::Less {
                lemma_bytes_transitive(p, q, r);
            }
            if bytes_relation(q, p) == Relation::Less && bytes_relation(r, q) == Relation::Less {
                lemma_bytes_transitive(r, q, p);
            }
        },
        _ => {},
    }
}

} // verus!
