//! Whether two results agree.

use vstd::prelude::*;

use crate::differential::oracle::{same_tag, ResultView, TaggedResult};
use crate::json::{json_equality_is_reflexive, json_equality_is_symmetric, json_text};

verus! {

/// What the comparison of two results says.
#[derive(Debug, PartialEq, Eq)]
pub enum Outcome {
    /// The same typed value, or an error on both sides.
    Agree,
    Diverge(Divergence),
}

/// A disagreement.
#[derive(Debug, PartialEq, Eq)]
pub struct Divergence {
    pub kind: DivergenceKind,
    pub rust: TaggedResult,
    pub python: TaggedResult,
}

/// How two results disagree.
#[derive(Debug, PartialEq, Eq)]
pub enum DivergenceKind {
    /// Two values of different types, or different values of one type.
    ValueMismatch { detail: String },
    /// A value where the reference has an error.
    RustOkPythonErr,
    /// An error where the reference has a value.
    PythonOkRustErr,
    /// The evaluator panicked.
    RustPanicked,
}

/// The model of how two results disagree.
#[verifier::ext_equal]
pub enum KindView {
    ValueMismatch(Seq<char>),
    RustOkPythonErr,
    PythonOkRustErr,
    RustPanicked,
}

/// The model of what a comparison says.
#[verifier::ext_equal]
pub enum OutcomeView {
    Agree,
    Diverge { kind: KindView, rust: ResultView, python: ResultView },
}

impl View for DivergenceKind {
    type V = KindView;

    open spec fn view(&self) -> KindView {
        match self {
            DivergenceKind::ValueMismatch { detail } => KindView::ValueMismatch(detail@),
            DivergenceKind::RustOkPythonErr => KindView::RustOkPythonErr,
            DivergenceKind::PythonOkRustErr => KindView::PythonOkRustErr,
            DivergenceKind::RustPanicked => KindView::RustPanicked,
        }
    }
}

impl View for Outcome {
    type V = OutcomeView;

    open spec fn view(&self) -> OutcomeView {
        match self {
            Outcome::Agree => OutcomeView::Agree,
            Outcome::Diverge(d) => OutcomeView::Diverge {
                kind: d.kind@,
                rust: d.rust@,
                python: d.python@,
            },
        }
    }
}

impl Clone for DivergenceKind {
    fn clone(&self) -> (r: DivergenceKind)
        ensures
            r@ == self@,
    {
        match self {
            DivergenceKind::ValueMismatch { detail } => DivergenceKind::ValueMismatch {
                detail: detail.clone(),
            },
            DivergenceKind::RustOkPythonErr => DivergenceKind::RustOkPythonErr,
            DivergenceKind::PythonOkRustErr => DivergenceKind::PythonOkRustErr,
            DivergenceKind::RustPanicked => DivergenceKind::RustPanicked,
        }
    }
}

impl Clone for Divergence {
    fn clone(&self) -> (r: Divergence)
        ensures
            r.kind@ == self.kind@,
            r.rust@ == self.rust@,
            r.python@ == self.python@,
    {
        Divergence {
            kind: self.kind.clone(),
            rust: self.rust.clone(),
            python: self.python.clone(),
        }
    }
}

impl Clone for Outcome {
    fn clone(&self) -> (r: Outcome)
        ensures
            r@ == self@,
    {
        match self {
            Outcome::Agree => Outcome::Agree,
            Outcome::Diverge(d) => Outcome::Diverge(d.clone()),
        }
    }
}

/// A text as the standard library writes it for debugging: between quotation
/// marks, with what is not printable escaped.
pub uninterp spec fn debug_text(text: Seq<char>) -> Seq<char>;

/// The `Debug` form of a `str`.
#[verifier::external_body]
fn debug_quote(text: &str) -> (r: String)
    ensures
        r@ == debug_text(text@),
{
    format!("{text:?}")
}

/// The words on two types.
pub open spec fn type_detail(rust: Seq<char>, python: Seq<char>) -> Seq<char> {
    "type: rust="@ + rust + " python="@ + python
}

/// The words on two values.
pub open spec fn value_detail(rust: Seq<char>, python: Seq<char>) -> Seq<char> {
    "value: rust="@ + rust + " python="@ + python
}

/// How two results disagree, if they do. Errors agree whatever their
/// categories are. A type is quoted by the given function.
pub open spec fn disagreement(
    rust: ResultView,
    python: ResultView,
    quote: spec_fn(Seq<char>) -> Seq<char>,
) -> Option<KindView> {
    match (rust, python) {
        (ResultView::Value(r), ResultView::Value(p)) => if same_tag(r, p) {
            None
        } else if r.type_str != p.type_str {
            Some(
                KindView::ValueMismatch(type_detail(quote(r.type_str), quote(p.type_str))),
            )
        } else {
            Some(
                KindView::ValueMismatch(value_detail(json_text(r.value), json_text(p.value))),
            )
        },
        (ResultView::Error(_), ResultView::Error(_)) => None,
        (ResultView::Value(_), ResultView::Error(_)) => Some(KindView::RustOkPythonErr),
        (ResultView::Error(_), ResultView::Value(_)) => Some(KindView::PythonOkRustErr),
        _ => Some(KindView::RustPanicked),
    }
}

/// What the comparison of two results says.
pub open spec fn verdict(
    rust: ResultView,
    python: ResultView,
    quote: spec_fn(Seq<char>) -> Seq<char>,
) -> OutcomeView {
    match disagreement(rust, python, quote) {
        None => OutcomeView::Agree,
        Some(kind) => OutcomeView::Diverge { kind, rust, python },
    }
}

/// Compares two results. The forms of their types in which they are quoted are
/// given.
pub fn compare_quoted(
    rust: &TaggedResult,
    python: &TaggedResult,
    rust_type: &str,
    python_type: &str,
) -> (r: Outcome)
    ensures
        forall|quote: spec_fn(Seq<char>) -> Seq<char>|
            (rust@ matches ResultView::Value(tag) ==> quote(tag.type_str) == rust_type@) && (
            python@ matches ResultView::Value(tag) ==> quote(tag.type_str) == python_type@) ==> r@
                == #[trigger] verdict(rust@, python@, quote),
{
    let kind = match (rust, python) {
        (TaggedResult::Value(r), TaggedResult::Value(p)) => {
            if r.same(p) {
                return Outcome::Agree;
            }
            let detail = if !r.type_str.eq(&p.type_str) {
                let mut words = "type: rust=".to_owned();
                words.append(rust_type);
                words.append(" python=");
                words.append(python_type);
                assert(words@ == type_detail(rust_type@, python_type@));
                words
            } else {
                let mut words = "value: rust=".to_owned();
                r.value.push_text(&mut words);
                words.append(" python=");
                p.value.push_text(&mut words);
                assert(words@ == value_detail(json_text(r.value@), json_text(p.value@)));
                words
            };
            DivergenceKind::ValueMismatch { detail }
        },
        (TaggedResult::Error { .. }, TaggedResult::Error { .. }) => {
            return Outcome::Agree;
        },
        (TaggedResult::Value(_), TaggedResult::Error { .. }) => DivergenceKind::RustOkPythonErr,
        (TaggedResult::Error { .. }, TaggedResult::Value(_)) => DivergenceKind::PythonOkRustErr,
        _ => DivergenceKind::RustPanicked,
    };
    Outcome::Diverge(Divergence { kind, rust: rust.clone(), python: python.clone() })
}

fn quoted_type(r: &TaggedResult) -> (text: String)
    ensures
        r@ matches ResultView::Value(tag) ==> text@ == debug_text(tag.type_str),
{
    match r {
        TaggedResult::Value(tag) => debug_quote(tag.type_str.as_str()),
        _ => String::new(),
    }
}

/// Compares the result of the evaluator with that of the reference.
pub fn compare(rust: &TaggedResult, python: &TaggedResult) -> (r: Outcome)
    ensures
        r@ == verdict(rust@, python@, |text: Seq<char>| debug_text(text)),
{
    let rust_type = quoted_type(rust);
    let python_type = quoted_type(python);
    let ghost quote = |text: Seq<char>| debug_text(text);
    let r = compare_quoted(rust, python, rust_type.as_str(), python_type.as_str());
    assert(r@ == verdict(rust@, python@, quote));
    r
}

/// Two results agree if and only if both are errors or both are values of one
/// type that are equal.
pub proof fn agreement_is_equal_values_or_two_errors(
    rust: ResultView,
    python: ResultView,
    quote: spec_fn(Seq<char>) -> Seq<char>,
)
    ensures
        (verdict(rust, python, quote) is Agree) <==> ((rust is Error && python is Error) || (rust is Value
            && python is Value && same_tag(rust->Value_0, python->Value_0))),
{
}

/// Which of two results is the reference does not matter to whether they agree.
pub proof fn agreement_is_symmetric(
    rust: ResultView,
    python: ResultView,
    quote: spec_fn(Seq<char>) -> Seq<char>,
)
    ensures
        (verdict(rust, python, quote) is Agree) == (verdict(python, rust, quote) is Agree),
{
    if let (ResultView::Value(r), ResultView::Value(p)) = (rust, python) {
        json_equality_is_symmetric(r.value, p.value);
    }
}

/// A result that is no panic agrees with itself.
pub proof fn identical_results_agree(
    result: ResultView,
    quote: spec_fn(Seq<char>) -> Seq<char>,
)
    requires
        !(result is Panicked),
    ensures
        verdict(result, result, quote) is Agree,
{
    if let ResultView::Value(tag) = result {
        json_equality_is_reflexive(tag.value);
    }
}

/// A panic never agrees with anything, and the categories of errors never
/// decide.
pub proof fn panics_diverge_and_categories_do_not(
    other: ResultView,
    a: Seq<char>,
    b: Seq<char>,
    quote: spec_fn(Seq<char>) -> Seq<char>,
)
    ensures
        verdict(ResultView::Panicked, other, quote) == (OutcomeView::Diverge {
            kind: KindView::RustPanicked,
            rust: ResultView::Panicked,
            python: other,
        }),
        verdict(ResultView::Error(a), ResultView::Error(b), quote) is Agree,
{
}

} // verus!
