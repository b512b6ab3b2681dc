//! The texts of values and errors.

use vstd::prelude::*;

use crate::error::{ErrorView, ExpressionError, ExpressionErrorKind};
use crate::range_expr::range_text;
use crate::repr::{float_text, push_float};
use crate::text::{int_text, push_int};
use crate::value::{models, ExprValue, ValueView};

verus! {

/// The text that a value is displayed as.
pub open spec fn display_text(v: ValueView) -> Seq<char>
    decreases v,
{
    match v {
        ValueView::Null => "null"@,
        ValueView::Bool(b) => if b {
            "true"@
        } else {
            "false"@
        },
        ValueView::Int(i) => int_text(i),
        ValueView::Float { number, text } => match text {
            Some(t) => t,
            None => float_text(number),
        },
        ValueView::Text(text) => text,
        ValueView::Path { value, format } => value,
        ValueView::Range(ranges) => range_text(ranges),
        ValueView::List { elements, elem_type } => "["@ + joined_text(elements) + "]"@,
    }
}

/// The texts of values, joined by a comma and a space.
pub open spec fn joined_text(values: Seq<ValueView>) -> Seq<char>
    decreases values,
{
    if values.len() == 0 {
        seq![]
    } else {
        let last = display_text(values.last());
        if values.len() == 1 {
            last
        } else {
            joined_text(values.drop_last()) + ", "@ + last
        }
    }
}

impl ExprValue {
    /// Appends the text that the value is displayed as.
    pub fn push_display(&self, out: &mut String)
        ensures
            final(out)@ == old(out)@ + display_text(self@),
        decreases self,
    {
        let ghost start = out@;
        match self {
            ExprValue::Null => out.append("null"),
            ExprValue::Bool(b) => out.append(
                if *b {
                    "true"
                } else {
                    "false"
                },
            ),
            ExprValue::Int(i) => push_int(out, *i),
            ExprValue::Float(f) => match &f.text {
                Some(text) => out.append(text.as_str()),
                None => push_float(out, &f.number),
            },
            ExprValue::String(text) => out.append(text.as_str()),
            ExprValue::Path { value, format } => out.append(value.as_str()),
            ExprValue::RangeExpr(range) => range.push_text(out),
            ExprValue::List { elements, elem_type } => {
                out.append("[");
                let ghost opened = out@;
                let mut i: usize = 0;
                proof {
                    assert(models(elements@).take(0) =~= seq![]);
                }
                while i < elements.len()
                    invariant
                        i <= elements@.len(),
                        self is List,
                        self->elements == *elements,
                        out@ == opened + joined_text(models(elements@).take(i as int)),
                    decreases elements@.len() - i,
                {
                    proof {
                        let longer = models(elements@).take(i + 1);
                        assert(longer.drop_last() =~= models(elements@).take(i as int));
                        assert(longer.last() == elements@[i as int]@);
                    }
                    let ghost before = out@;
                    if i > 0 {
                        out.append(", ");
                    }
                    elements[i].push_display(out);
                    proof {
                        let shorter = joined_text(models(elements@).take(i as int));
                        let last = display_text(elements@[i as int]@);
                        if i > 0 {
                            assert(before + ", "@ + last =~= opened + (shorter + ", "@ + last));
                        }
                    }
                    i = i + 1;
                }
                out.append("]");
                proof {
                    assert(models(elements@).take(i as int) =~= models(elements@));
                    assert(out@ =~= start + ("["@ + joined_text(models(elements@)) + "]"@));
                }
            },
        }
    }

    /// The text that the value is displayed as.
    pub fn to_display_string(&self) -> (r: String)
        ensures
            r@ == display_text(self@),
    {
        let mut out = String::new();
        self.push_display(&mut out);
        assert(Seq::<char>::empty() + display_text(self@) =~= display_text(self@));
        out
    }
}

/// The text of an expression error.
pub open spec fn error_text(e: ErrorView) -> Seq<char> {
    match e {
        ErrorView::IntegerOverflow => "Integer overflow"@,
        ErrorView::DivisionByZero(operation) => operation + " by zero"@,
        ErrorView::UndefinedVariable(name) => "Undefined variable: '"@ + name + "'"@,
        ErrorView::ParseError(message) => message,
        ErrorView::UnsupportedSyntax(message) => message,
        ErrorView::IndexOutOfBounds(message) => message,
        ErrorView::TypeError(message) => message,
        ErrorView::UnknownFunction(name) => "Unknown function: '"@ + name + "'"@,
        ErrorView::FloatError(message) => message,
        ErrorView::OperationLimitExceeded => "Operation limit exceeded"@,
        ErrorView::MemoryLimitExceeded => "Memory limit exceeded"@,
        ErrorView::Other(message) => message,
    }
}

impl ExpressionError {
    /// The text of the error.
    pub fn to_string(&self) -> (r: String)
        ensures
            r@ == error_text(self@),
    {
        match &self.kind {
            ExpressionErrorKind::IntegerOverflow => "Integer overflow".to_owned(),
            ExpressionErrorKind::DivisionByZero { operation } => operation.clone().concat(" by zero"),
            ExpressionErrorKind::UndefinedVariable { name } => "Undefined variable: '".to_owned().concat(
                name.as_str(),
            ).concat("'"),
            ExpressionErrorKind::ParseError(message) => message.clone(),
            ExpressionErrorKind::UnsupportedSyntax { message } => message.clone(),
            ExpressionErrorKind::IndexOutOfBounds { message } => message.clone(),
            ExpressionErrorKind::TypeError { message } => message.clone(),
            ExpressionErrorKind::UnknownFunction { name } => "Unknown function: '".to_owned().concat(
                name.as_str(),
            ).concat("'"),
            ExpressionErrorKind::FloatError { message } => message.clone(),
            ExpressionErrorKind::OperationLimitExceeded => "Operation limit exceeded".to_owned(),
            ExpressionErrorKind::MemoryLimitExceeded => "Memory limit exceeded".to_owned(),
            ExpressionErrorKind::Other { message } => message.clone(),
        }
    }
}

/// The name under which the kind of a value is reported beside its text.
pub open spec fn kind_name(v: ValueView) -> Seq<char> {
    match v {
        ValueView::Null => "null"@,
        ValueView::Bool(_) => "bool"@,
        ValueView::Int(_) => "int"@,
        ValueView::Float { .. } => "float"@,
        ValueView::Text(_) => "string"@,
        ValueView::Path { .. } => "path"@,
        _ => "list"@,
    }
}

/// Renders a value with the name of its kind, so that values that look alike
/// can be told apart.
pub fn render(v: &ExprValue) -> (r: (String, &'static str))
    ensures
        r.0@ == display_text(v@),
        r.1@ == kind_name(v@),
{
    let kind = match v {
        ExprValue::Null => "null",
        ExprValue::Bool(_) => "bool",
        ExprValue::Int(_) => "int",
        ExprValue::Float(_) => "float",
        ExprValue::String(_) => "string",
        ExprValue::Path { .. } => "path",
        _ => "list",
    };
    (v.to_display_string(), kind)
}

} // verus!
