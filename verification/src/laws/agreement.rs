//! When two results agree.

use vstd::prelude::*;

use crate::differential::equivalence::{verdict, KindView, OutcomeView};
use crate::differential::oracle::{ResultView, TagView};
use crate::json::{json_same, json_text, JsonView};

verus! {

/// Equal values are identical but for the sign of floating-point zeros: other
/// scalars are equal if and only if they are the same, numbers if and only if
/// they are the same or both zero, arrays if and only if they have as many
/// elements and each equals its counterpart, objects if and only if they have
/// the same keys with equal values.
pub proof fn equal_values_are_identical_but_for_zeros(a: JsonView, b: JsonView)
    ensures
        match a {
            JsonView::Array(x) => json_same(a, b) <==> {
                &&& b matches JsonView::Array(y)
                &&& x.len() == y.len()
                &&& forall|i: int| 0 <= i < x.len() ==> json_same(#[trigger] x[i], y[i])
            },
            JsonView::Object(x) => json_same(a, b) <==> {
                &&& b matches JsonView::Object(y)
                &&& x.len() == y.len()
                &&& forall|i: int|
                    0 <= i < x.len() ==> (#[trigger] x[i]).0 == y[i].0 && json_same(x[i].1, y[i].1)
            },
            JsonView::Float(x) => json_same(a, b) <==> (b matches JsonView::Float(y) && (x == y || (
            x.magnitude == 0 && y.magnitude == 0))),
            _ => json_same(a, b) <==> a == b,
        },
{
}

/// Texts are equal if and only if they are the same characters.
pub proof fn equal_texts_are_the_same(a: Seq<char>, b: Seq<char>)
    ensures
        json_same(JsonView::Text(a), JsonView::Text(b)) <==> a == b,
{
}

/// Two lists of texts are equal if and only if they are the same texts in the
/// same order.
pub proof fn equal_lists_of_texts_are_the_same(a: Seq<Seq<char>>, b: Seq<Seq<char>>)
    ensures
        json_same(
            JsonView::Array(a.map_values(|t: Seq<char>| JsonView::Text(t))),
            JsonView::Array(b.map_values(|t: Seq<char>| JsonView::Text(t))),
        ) <==> a == b,
{
    let x = a.map_values(|t: Seq<char>| JsonView::Text(t));
    let y = b.map_values(|t: Seq<char>| JsonView::Text(t));
    if json_same(JsonView::Array(x), JsonView::Array(y)) {
        assert forall|i: int| 0 <= i < a.len() implies a[i] == b[i] by {
            assert(json_same(x[i], y[i]));
        }
        assert(a =~= b);
    }
    if a == b {
        assert forall|i: int| 0 <= i < x.len() implies json_same(#[trigger] x[i], y[i]) by {
            assert(x[i] == JsonView::Text(a[i]));
        }
    }
}

/// Two values of different types diverge, as do two texts of one type that
/// differ. The divergence holds both results and says what differs.
pub proof fn differing_results_diverge(
    r: TagView,
    p: TagView,
    quote: spec_fn(Seq<char>) -> Seq<char>,
)
    ensures
        r.type_str != p.type_str ==> verdict(ResultView::Value(r), ResultView::Value(p), quote) == (
        OutcomeView::Diverge {
            kind: KindView::ValueMismatch(
                "type: rust="@ + quote(r.type_str) + " python="@ + quote(p.type_str),
            ),
            rust: ResultView::Value(r),
            python: ResultView::Value(p),
        }),
        r.type_str == p.type_str ==> ((r.value, p.value) matches (JsonView::Text(x), JsonView::Text(y))
            ==> x != y ==> verdict(ResultView::Value(r), ResultView::Value(p), quote) == (
        OutcomeView::Diverge {
            kind: KindView::ValueMismatch(
                "value: rust="@ + json_text(r.value) + " python="@ + json_text(p.value),
            ),
            rust: ResultView::Value(r),
            python: ResultView::Value(p),
        })),
        r.type_str == p.type_str ==> !json_same(r.value, p.value) ==> verdict(
            ResultView::Value(r),
            ResultView::Value(p),
            quote,
        ) is Diverge,
        r == p ==> verdict(ResultView::Value(r), ResultView::Value(p), quote) is Agree,
{
    crate::json::json_equality_is_reflexive(r.value);
}

/// A value on one side and an error on the other diverge, each way in its own
/// kind.
pub proof fn values_and_errors_diverge(
    tag: TagView,
    category: Seq<char>,
    quote: spec_fn(Seq<char>) -> Seq<char>,
)
    ensures
        verdict(ResultView::Value(tag), ResultView::Error(category), quote) == (OutcomeView::Diverge {
            kind: KindView::RustOkPythonErr,
            rust: ResultView::Value(tag),
            python: ResultView::Error(category),
        }),
        verdict(ResultView::Error(category), ResultView::Value(tag), quote) == (OutcomeView::Diverge {
            kind: KindView::PythonOkRustErr,
            rust: ResultView::Error(category),
            python: ResultView::Value(tag),
        }),
{
}

} // verus!
