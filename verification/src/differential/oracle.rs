//! Tagged results, and the lines exchanged with the worker of the reference.

use vstd::prelude::*;

use crate::comparison::value_type;
use crate::display::display_text;
use crate::error::{ErrorView, ExpressionError, ExpressionErrorKind};
use crate::json::{json_models, json_same, json_text, quoted, JsonValue, JsonView};
use crate::types::type_text;
use crate::value::{models, outcome, ExprValue, ValueView};

verus! {

/// A value with its type. The type stands beside the value, so that an integer
/// and a float that look alike differ.
#[derive(Debug, PartialEq, Eq)]
pub struct TransportTag {
    pub type_str: String,
    pub value: JsonValue,
}

/// What came out of an evaluation.
#[derive(Debug, PartialEq, Eq)]
pub enum TaggedResult {
    /// A value.
    Value(TransportTag),
    /// An error of the expression. The category is for the log alone.
    Error { category: String },
    /// The evaluator panicked.
    Panicked,
}

/// The model of a tagged value.
#[verifier::ext_equal]
pub struct TagView {
    pub type_str: Seq<char>,
    pub value: JsonView,
}

/// The model of a tagged result.
#[verifier::ext_equal]
pub enum ResultView {
    Value(TagView),
    Error(Seq<char>),
    Panicked,
}

impl View for TransportTag {
    type V = TagView;

    open spec fn view(&self) -> TagView {
        TagView { type_str: self.type_str@, value: self.value@ }
    }
}

impl View for TaggedResult {
    type V = ResultView;

    open spec fn view(&self) -> ResultView {
        match self {
            TaggedResult::Value(tag) => ResultView::Value(tag@),
            TaggedResult::Error { category } => ResultView::Error(category@),
            TaggedResult::Panicked => ResultView::Panicked,
        }
    }
}

impl Clone for TransportTag {
    fn clone(&self) -> (r: TransportTag)
        ensures
            r@ == self@,
    {
        TransportTag { type_str: self.type_str.clone(), value: self.value.clone() }
    }
}

impl Clone for TaggedResult {
    fn clone(&self) -> (r: TaggedResult)
        ensures
            r@ == self@,
    {
        match self {
            TaggedResult::Value(tag) => TaggedResult::Value(tag.clone()),
            TaggedResult::Error { category } => TaggedResult::Error { category: category.clone() },
            TaggedResult::Panicked => TaggedResult::Panicked,
        }
    }
}

/// Whether two tags have the same type and equal values.
pub open spec fn same_tag(a: TagView, b: TagView) -> bool {
    a.type_str == b.type_str && json_same(a.value, b.value)
}

impl TransportTag {
    /// Whether two tags have the same type and equal values.
    pub fn same(&self, other: &TransportTag) -> (r: bool)
        ensures
            r == same_tag(self@, other@),
    {
        self.type_str.eq(&other.type_str) && self.value.same(&other.value)
    }
}

/// A value as it is transported: the text that it is displayed as, and for a
/// list the elements.
pub open spec fn transported(v: ValueView) -> JsonView
    decreases v,
{
    match v {
        ValueView::List { elements, .. } => JsonView::Array(all_transported(elements)),
        _ => JsonView::Text(display_text(v)),
    }
}

/// Values as they are transported.
pub open spec fn all_transported(values: Seq<ValueView>) -> Seq<JsonView>
    decreases values,
{
    if values.len() == 0 {
        seq![]
    } else {
        all_transported(values.drop_last()).push(transported(values.last()))
    }
}

/// The tag of a value.
pub open spec fn tag_of(v: ValueView) -> TagView {
    TagView { type_str: type_text(value_type(v)), value: transported(v) }
}

proof fn lemma_transported_len(values: Seq<ValueView>)
    ensures
        all_transported(values).len() == values.len(),
    decreases values.len(),
{
    if values.len() > 0 {
        lemma_transported_len(values.drop_last());
    }
}

impl ExprValue {
    fn transport_value(&self) -> (r: JsonValue)
        ensures
            r@ == transported(self@),
        decreases self,
    {
        match self {
            ExprValue::List { elements, elem_type } => {
                let mut values: Vec<JsonValue> = Vec::new();
                let mut i: usize = 0;
                proof {
                    assert(models(elements@).take(0) =~= seq![]);
                    assert(json_models(values@) =~= seq![]);
                }
                while i < elements.len()
                    invariant
                        i <= elements@.len(),
                        self is List,
                        self->elements == *elements,
                        json_models(values@) == all_transported(models(elements@).take(i as int)),
                    decreases elements@.len() - i,
                {
                    let ghost before = values@;
                    let value = elements[i].transport_value();
                    values.push(value);
                    proof {
                        let longer = models(elements@).take(i + 1);
                        assert(longer.drop_last() =~= models(elements@).take(i as int));
                        assert(longer.last() == elements@[i as int]@);
                        assert(json_models(values@) =~= json_models(before).push(value@));
                    }
                    i = i + 1;
                }
                assert(models(elements@).take(i as int) =~= models(elements@));
                JsonValue::Array(values)
            },
            _ => JsonValue::Text(self.to_display_string()),
        }
    }

    /// The value with its type.
    pub fn to_json_transport(&self) -> (r: TransportTag)
        ensures
            r@ == tag_of(self@),
    {
        TransportTag { type_str: self.expr_type().name(), value: self.transport_value() }
    }
}

/// A list keeps its length and its elements on the way.
pub proof fn transported_lists_keep_their_elements(values: Seq<ValueView>, i: int)
    requires
        0 <= i < values.len(),
    ensures
        all_transported(values).len() == values.len(),
        all_transported(values)[i] == transported(values[i]),
    decreases values.len(),
{
    lemma_transported_len(values);
    lemma_transported_len(values.drop_last());
    if i < values.len() - 1 {
        transported_lists_keep_their_elements(values.drop_last(), i);
    }
}

/// The category of an error.
pub open spec fn category_of(e: ErrorView) -> Seq<char> {
    match e {
        ErrorView::IntegerOverflow => "overflow"@,
        ErrorView::DivisionByZero(_) => "division_by_zero"@,
        ErrorView::UndefinedVariable(_) => "undefined_symbol"@,
        ErrorView::ParseError(_) => "parse"@,
        ErrorView::UnsupportedSyntax(_) => "parse"@,
        ErrorView::IndexOutOfBounds(_) => "index"@,
        ErrorView::TypeError(_) => "type"@,
        ErrorView::UnknownFunction(_) => "type"@,
        _ => "other"@,
    }
}

/// The category of an error, for the log.
pub fn rust_error_category(e: &ExpressionError) -> (r: String)
    ensures
        r@ == category_of(e@),
{
    let category = match e.kind() {
        ExpressionErrorKind::IntegerOverflow => "overflow",
        ExpressionErrorKind::DivisionByZero { .. } => "division_by_zero",
        ExpressionErrorKind::UndefinedVariable { .. } => "undefined_symbol",
        ExpressionErrorKind::ParseError(_) => "parse",
        ExpressionErrorKind::UnsupportedSyntax { .. } => "parse",
        ExpressionErrorKind::IndexOutOfBounds { .. } => "index",
        ExpressionErrorKind::TypeError { .. } => "type",
        ExpressionErrorKind::UnknownFunction { .. } => "type",
        _ => "other",
    };
    category.to_owned()
}

/// The tagged result of an evaluation.
pub open spec fn tagged(result: Result<ValueView, ErrorView>) -> ResultView {
    match result {
        Ok(v) => ResultView::Value(tag_of(v)),
        Err(e) => ResultView::Error(category_of(e)),
    }
}

impl TaggedResult {
    /// Tags the result of an evaluation.
    pub fn from_expr_result(result: Result<ExprValue, ExpressionError>) -> (r: TaggedResult)
        ensures
            r@ == tagged(outcome(result)),
    {
        match result {
            Ok(value) => TaggedResult::Value(value.to_json_transport()),
            Err(e) => TaggedResult::Error { category: rust_error_category(&e) },
        }
    }
}

/// The text of an optional member of a request.
pub open spec fn optional_member(key: Seq<char>, value: Option<Seq<char>>) -> Seq<char> {
    match value {
        Some(text) => ",\""@ + key + "\":"@ + text,
        None => seq![],
    }
}

/// The line that asks the worker for a value.
pub open spec fn request_text(
    expr: Seq<char>,
    symbols: Option<JsonView>,
    path_format: Option<Seq<char>>,
) -> Seq<char> {
    "{\"expr\":"@ + quoted(expr) + optional_member(
        "symbols"@,
        match symbols {
            Some(v) => Some(json_text(v)),
            None => None,
        },
    ) + optional_member(
        "path_format"@,
        match path_format {
            Some(text) => Some(quoted(text)),
            None => None,
        },
    ) + "}"@
}

/// An optional JSON value over its model.
pub open spec fn json_option(v: Option<&JsonValue>) -> Option<JsonView> {
    match v {
        Some(v) => Some(v@),
        None => None,
    }
}

/// An optional text over its characters.
pub open spec fn str_option(v: Option<&str>) -> Option<Seq<char>> {
    match v {
        Some(v) => Some(v@),
        None => None,
    }
}

fn push_member(line: &mut String, key: &str, value: &JsonValue)
    ensures
        final(line)@ == old(line)@ + optional_member(key@, Some(json_text(value@))),
{
    line.append(",\"");
    line.append(key);
    line.append("\":");
    value.push_text(line);
    assert(line@ =~= old(line)@ + optional_member(key@, Some(json_text(value@))));
}

/// Writes the line that asks the worker for the value of an expression,
/// without the end of the line.
pub fn request_line(expr: &str, symbols: Option<&JsonValue>, path_format: Option<&str>) -> (r: String)
    ensures
        r@ == request_text(expr@, json_option(symbols), str_option(path_format)),
{
    let mut line = "{\"expr\":".to_owned();
    JsonValue::Text(expr.to_owned()).push_text(&mut line);
    let ghost first = line@;
    if let Some(symbols) = symbols {
        push_member(&mut line, "symbols", symbols);
    }
    let ghost second = line@;
    if let Some(path_format) = path_format {
        push_member(&mut line, "path_format", &JsonValue::Text(path_format.to_owned()));
    }
    line.append("}");
    proof {
        assert(second =~= first + optional_member(
            "symbols"@,
            match json_option(symbols) {
                Some(v) => Some(json_text(v)),
                None => None,
            },
        ));
        assert(line@ =~= request_text(expr@, json_option(symbols), str_option(path_format)));
    }
    line
}

/// A response of the worker as it was read: any of the members may be absent.
pub struct RawResponse {
    pub ok: Option<TransportTag>,
    pub err: Option<String>,
    pub internal_error: Option<String>,
}

/// An answer of the reference.
#[derive(Debug)]
pub enum OracleAnswer {
    Result(TaggedResult),
    /// The reference itself failed: nothing is known of the expression.
    Internal(String),
}

/// The model of an answer.
#[verifier::ext_equal]
pub enum AnswerView {
    Result(ResultView),
    Internal(Seq<char>),
}

impl View for OracleAnswer {
    type V = AnswerView;

    open spec fn view(&self) -> AnswerView {
        match self {
            OracleAnswer::Result(r) => AnswerView::Result(r@),
            OracleAnswer::Internal(message) => AnswerView::Internal(message@),
        }
    }
}

impl Clone for OracleAnswer {
    fn clone(&self) -> (r: OracleAnswer)
        ensures
            r@ == self@,
    {
        match self {
            OracleAnswer::Result(r) => OracleAnswer::Result(r.clone()),
            OracleAnswer::Internal(message) => OracleAnswer::Internal(message.clone()),
        }
    }
}

/// The message on a response without any member.
pub open spec fn empty_response() -> Seq<char> {
    "empty worker response: RawResponse { ok: None, err: None, internal_error: None }"@
}

/// The answer that a response gives. A failure of the reference goes before a
/// value, and a value before an error.
pub open spec fn answer_of(raw: RawResponse) -> AnswerView {
    match raw.internal_error {
        Some(message) => AnswerView::Internal(message@),
        None => match raw.ok {
            Some(tag) => AnswerView::Result(ResultView::Value(tag@)),
            None => match raw.err {
                Some(category) => AnswerView::Result(ResultView::Error(category@)),
                None => AnswerView::Internal(empty_response()),
            },
        },
    }
}

impl OracleAnswer {
    /// Reads a response as an answer.
    pub fn from_response(raw: RawResponse) -> (r: OracleAnswer)
        ensures
            r@ == answer_of(raw),
    {
        match raw.internal_error {
            Some(message) => OracleAnswer::Internal(message),
            None => match raw.ok {
                Some(tag) => OracleAnswer::Result(TaggedResult::Value(tag)),
                None => match raw.err {
                    Some(category) => OracleAnswer::Result(TaggedResult::Error { category }),
                    None => OracleAnswer::Internal(
                        "empty worker response: RawResponse { ok: None, err: None, internal_error: None }".to_owned(),
                    ),
                },
            },
        }
    }
}

/// An answer never says that the reference panicked.
pub proof fn answers_never_panic(raw: RawResponse)
    ensures
        answer_of(raw) != AnswerView::Result(ResultView::Panicked),
{
}

} // verus!
