//! Expression values.

use vstd::prelude::*;
use vstd::utf8::encode_utf8;

use crate::binary64::{view_of, Binary64, FloatValue};
use crate::context::EvalContext;
use crate::error::{ErrorView, ExpressionError};
use crate::range_expr::{saturated, IntRange, RangeExpr};
use crate::types::{ExprType, PathFormat};

verus! {

/// The number of bytes of a text in UTF-8.
pub open spec fn byte_len(text: Seq<char>) -> nat {
    encode_utf8(text).len()
}

/// The number of bytes of a text in UTF-8.
pub fn str_len(text: &str) -> (r: usize)
    ensures
        r == byte_len(text@),
{
    text.as_bytes().len()
}

/// A finite floating-point number, with the text it is displayed as where it
/// was given one.
#[derive(Debug)]
pub struct Float64 {
    pub number: Binary64,
    pub text: Option<String>,
}

/// The view of an optional text.
pub open spec fn text_view(text: Option<String>) -> Option<Seq<char>> {
    match text {
        Some(t) => Some(t@),
        None => None,
    }
}

/// The error of a computation that leaves the finite range.
pub open spec fn not_finite() -> ErrorView {
    ErrorView::FloatError("result is not a finite number"@)
}

impl Float64 {
    /// A number without a text of its own. `None` stands for a result beyond
    /// the finite range.
    pub fn new(number: Option<Binary64>) -> (r: Result<Float64, ExpressionError>)
        ensures
            match r {
                Ok(f) => view_of(number) == Some(f.number@) && f.text is None,
                Err(e) => number is None && e@ == not_finite(),
            },
    {
        match number {
            Some(number) => Ok(Float64 { number, text: None }),
            None => Err(ExpressionError::float_error("result is not a finite number")),
        }
    }

    /// A number displayed as `text`.
    pub fn with_str(number: Binary64, text: String) -> (r: Float64)
        ensures
            r.number@ == number@,
            text_view(r.text) == Some(text@),
    {
        Float64 { number, text: Some(text) }
    }

    pub fn value(&self) -> (r: Binary64)
        ensures
            r@ == self.number@,
    {
        self.number
    }
}

/// A value of the expression language.
#[derive(Debug)]
pub enum ExprValue {
    Null,
    Bool(bool),
    Int(i64),
    Float(Float64),
    String(String),
    Path { value: String, format: PathFormat },
    RangeExpr(RangeExpr),
    List { elements: Vec<ExprValue>, elem_type: ExprType },
}

/// The model of an expression value.
#[verifier::ext_equal]
pub enum ValueView {
    Null,
    Bool(bool),
    Int(int),
    Float { number: FloatValue, text: Option<Seq<char>> },
    Text(Seq<char>),
    Path { value: Seq<char>, format: PathFormat },
    Range(Seq<IntRange>),
    List { elements: Seq<ValueView>, elem_type: ExprType },
}

impl ExprValue {
    pub open spec fn model(self) -> ValueView
        decreases self,
    {
        match self {
            ExprValue::Null => ValueView::Null,
            ExprValue::Bool(b) => ValueView::Bool(b),
            ExprValue::Int(i) => ValueView::Int(i as int),
            ExprValue::Float(f) => ValueView::Float { number: f.number@, text: text_view(f.text) },
            ExprValue::String(s) => ValueView::Text(s@),
            ExprValue::Path { value, format } => ValueView::Path { value: value@, format },
            ExprValue::RangeExpr(r) => ValueView::Range(r@),
            ExprValue::List { elements, elem_type } => ValueView::List {
                elements: models(elements@),
                elem_type,
            },
        }
    }
}

/// The models of values in sequence.
pub open spec fn models(values: Seq<ExprValue>) -> Seq<ValueView>
    decreases values,
{
    Seq::new(
        values.len(),
        |i: int|
            if 0 <= i < values.len() {
                values[i].model()
            } else {
                ValueView::Null
            },
    )
}

pub proof fn lemma_models_index(values: Seq<ExprValue>, i: int)
    requires
        0 <= i < values.len(),
    ensures
        models(values)[i] == values[i]@,
{
}

pub proof fn lemma_models_push(values: Seq<ExprValue>, value: ExprValue)
    ensures
        models(values.push(value)) == models(values).push(value@),
{
    let longer = values.push(value);
    assert forall|i: int| 0 <= i < longer.len() implies models(longer)[i] == models(values).push(
        value@,
    )[i] by {
        lemma_models_index(longer, i);
        if i < values.len() {
            lemma_models_index(values, i);
        }
    }
    assert(models(longer) =~= models(values).push(value@));
}

impl View for ExprValue {
    type V = ValueView;

    open spec fn view(&self) -> ValueView {
        self.model()
    }
}

impl Clone for ExprValue {
    fn clone(&self) -> (r: ExprValue)
        ensures
            r@ == self@,
        decreases self,
    {
        match self {
            ExprValue::Null => ExprValue::Null,
            ExprValue::Bool(b) => ExprValue::Bool(*b),
            ExprValue::Int(i) => ExprValue::Int(*i),
            ExprValue::Float(f) => ExprValue::Float(
                Float64 { number: f.number, text: clone_text(&f.text) },
            ),
            ExprValue::String(s) => ExprValue::String(s.clone()),
            ExprValue::Path { value, format } => ExprValue::Path {
                value: value.clone(),
                format: *format,
            },
            ExprValue::RangeExpr(r) => ExprValue::RangeExpr(r.clone()),
            ExprValue::List { elements, elem_type } => {
                let mut copy: Vec<ExprValue> = Vec::new();
                let mut i: usize = 0;
                while i < elements.len()
                    invariant
                        i <= elements@.len(),
                        models(copy@) == models(elements@).take(i as int),
                        self is List,
                        self->elements == *elements,
                    decreases elements@.len() - i,
                {
                    let element = elements[i].clone();
                    proof {
                        lemma_models_push(copy@, element);
                        assert(models(elements@)[i as int] == elements@[i as int]@);
                    }
                    copy.push(element);
                    i = i + 1;
                }
                proof {
                    assert(models(copy@) =~= models(elements@));
                }
                ExprValue::List { elements: copy, elem_type: elem_type.clone() }
            },
        }
    }
}

/// The bytes that one value takes, without what it points to.
pub open spec fn slot_bytes() -> nat {
    vstd::layout::size_of::<ExprValue>()
}

/// The bytes that a value points to.
pub open spec fn heap_bytes(value: ValueView) -> nat
    decreases value,
{
    match value {
        ValueView::Float { number, text } => match text {
            Some(t) => byte_len(t),
            None => 0,
        },
        ValueView::Text(text) => byte_len(text),
        ValueView::Path { value, format } => byte_len(value),
        ValueView::Range(ranges) => ranges.len() * vstd::layout::size_of::<IntRange>(),
        ValueView::List { elements, elem_type } => list_bytes(elements),
        _ => 0,
    }
}

/// The bytes of the values of a list.
pub open spec fn list_bytes(elements: Seq<ValueView>) -> nat
    decreases elements,
{
    if elements.len() == 0 {
        0
    } else {
        list_bytes(elements.drop_last()) + slot_bytes() + heap_bytes(elements.last())
    }
}

/// The result of an evaluation step in the model.
pub open spec fn outcome(r: Result<ExprValue, ExpressionError>) -> Result<ValueView, ErrorView> {
    match r {
        Ok(v) => Ok(v@),
        Err(e) => Err(e@),
    }
}

/// The list that a memory check of `memory_error` admits.
pub open spec fn checked_list(
    memory_error: Option<ErrorView>,
    elements: Seq<ValueView>,
    elem_type: ExprType,
) -> Result<ValueView, ErrorView> {
    match memory_error {
        Some(e) => Err(e),
        None => Ok(ValueView::List { elements, elem_type }),
    }
}

impl ExprValue {
    /// The bytes that the value takes in memory, at most `usize::MAX`.
    pub fn memory_size(&self) -> (r: usize)
        ensures
            r == saturated(slot_bytes() + heap_bytes(self@)),
        decreases self,
    {
        let slot: usize = core::mem::size_of::<ExprValue>();
        match self {
            ExprValue::Float(f) => match &f.text {
                Some(text) => slot.saturating_add(str_len(text.as_str())),
                None => slot,
            },
            ExprValue::String(text) => slot.saturating_add(str_len(text.as_str())),
            ExprValue::Path { value, format } => slot.saturating_add(str_len(value.as_str())),
            ExprValue::RangeExpr(r) => {
                let width: usize = core::mem::size_of::<IntRange>();
                match r.ranges().len().checked_mul(width) {
                    Some(bytes) => slot.saturating_add(bytes),
                    None => usize::MAX,
                }
            },
            ExprValue::List { elements, elem_type } => {
                let mut total: usize = slot;
                let mut i: usize = 0;
                proof {
                    assert(models(elements@).take(0) =~= seq![]);
                }
                while i < elements.len()
                    invariant
                        i <= elements@.len(),
                        self is List,
                        self->elements == *elements,
                        total == saturated(slot_bytes() + list_bytes(models(elements@).take(i as int))),
                    decreases elements@.len() - i,
                {
                    proof {
                        let longer = models(elements@).take(i + 1);
                        assert(longer.drop_last() =~= models(elements@).take(i as int));
                        assert(longer.last() == elements@[i as int]@);
                    }
                    total = total.saturating_add(elements[i].memory_size());
                    i = i + 1;
                }
                proof {
                    assert(models(elements@).take(i as int) =~= models(elements@));
                }
                total
            },
            _ => slot,
        }
    }

    /// The elements of a list and their type.
    pub fn into_list(self) -> (r: Option<(Vec<ExprValue>, ExprType)>)
        ensures
            match r {
                Some(list) => self@ == (ValueView::List {
                    elements: models(list.0@),
                    elem_type: list.1,
                }),
                None => !(self@ is List),
            },
    {
        match self {
            ExprValue::List { elements, elem_type } => Some((elements, elem_type)),
            _ => None,
        }
    }

    pub fn new_path(value: String, format: PathFormat) -> (r: ExprValue)
        ensures
            r@ == (ValueView::Path { value: value@, format }),
    {
        ExprValue::Path { value, format }
    }

    /// Builds a list after a check of the memory that it takes.
    pub fn make_list_checked<C: EvalContext>(
        ctx: &mut C,
        elements: Vec<ExprValue>,
        elem_type: ExprType,
    ) -> (r: Result<ExprValue, ExpressionError>)
        ensures
            *final(ctx) == *old(ctx),
            outcome(r) == checked_list(
                old(ctx).memory_error(saturated(slot_bytes() + list_bytes(models(elements@)))),
                models(elements@),
                elem_type,
            ),
    {
        let list = ExprValue::List { elements, elem_type };
        match ctx.check_memory(list.memory_size()) {
            Ok(()) => Ok(list),
            Err(e) => Err(e),
        }
    }
}

fn clone_text(text: &Option<String>) -> (r: Option<String>)
    ensures
        r == *text,
{
    match text {
        Some(t) => Some(t.clone()),
        None => None,
    }
}

} // verus!
