//! Errors of expression evaluation.

use vstd::prelude::*;

verus! {

/// What went wrong while an expression was parsed or evaluated.
#[derive(Debug)]
pub enum ExpressionErrorKind {
    IntegerOverflow,
    DivisionByZero { operation: String },
    UndefinedVariable { name: String },
    ParseError(String),
    UnsupportedSyntax { message: String },
    IndexOutOfBounds { message: String },
    TypeError { message: String },
    UnknownFunction { name: String },
    FloatError { message: String },
    OperationLimitExceeded,
    MemoryLimitExceeded,
    Other { message: String },
}

/// The model of an expression error.
#[verifier::ext_equal]
pub enum ErrorView {
    IntegerOverflow,
    DivisionByZero(Seq<char>),
    UndefinedVariable(Seq<char>),
    ParseError(Seq<char>),
    UnsupportedSyntax(Seq<char>),
    IndexOutOfBounds(Seq<char>),
    TypeError(Seq<char>),
    UnknownFunction(Seq<char>),
    FloatError(Seq<char>),
    OperationLimitExceeded,
    MemoryLimitExceeded,
    Other(Seq<char>),
}

impl View for ExpressionErrorKind {
    type V = ErrorView;

    open spec fn view(&self) -> ErrorView {
        match self {
            ExpressionErrorKind::IntegerOverflow => ErrorView::IntegerOverflow,
            ExpressionErrorKind::DivisionByZero { operation } => ErrorView::DivisionByZero(operation@),
            ExpressionErrorKind::UndefinedVariable { name } => ErrorView::UndefinedVariable(name@),
            ExpressionErrorKind::ParseError(message) => ErrorView::ParseError(message@),
            ExpressionErrorKind::UnsupportedSyntax { message } => ErrorView::UnsupportedSyntax(message@),
            ExpressionErrorKind::IndexOutOfBounds { message } => ErrorView::IndexOutOfBounds(message@),
            ExpressionErrorKind::TypeError { message } => ErrorView::TypeError(message@),
            ExpressionErrorKind::UnknownFunction { name } => ErrorView::UnknownFunction(name@),
            ExpressionErrorKind::FloatError { message } => ErrorView::FloatError(message@),
            ExpressionErrorKind::OperationLimitExceeded => ErrorView::OperationLimitExceeded,
            ExpressionErrorKind::MemoryLimitExceeded => ErrorView::MemoryLimitExceeded,
            ExpressionErrorKind::Other { message } => ErrorView::Other(message@),
        }
    }
}

/// An error of expression parsing or evaluation.
#[derive(Debug)]
pub struct ExpressionError {
    pub kind: ExpressionErrorKind,
}

impl View for ExpressionError {
    type V = ErrorView;

    open spec fn view(&self) -> ErrorView {
        self.kind@
    }
}

/// The error of a result, if it is one.
pub open spec fn error_of<T>(r: Result<T, ExpressionError>) -> Option<ErrorView> {
    match r {
        Ok(_) => None,
        Err(e) => Some(e@),
    }
}

impl ExpressionError {
    pub fn new(message: &str) -> (e: ExpressionError)
        ensures
            e@ == ErrorView::Other(message@),
    {
        ExpressionError { kind: ExpressionErrorKind::Other { message: message.to_owned() } }
    }

    pub fn integer_overflow() -> (e: ExpressionError)
        ensures
            e@ == ErrorView::IntegerOverflow,
    {
        ExpressionError { kind: ExpressionErrorKind::IntegerOverflow }
    }

    pub fn division_by_zero(operation: &str) -> (e: ExpressionError)
        ensures
            e@ == ErrorView::DivisionByZero(operation@),
    {
        ExpressionError {
            kind: ExpressionErrorKind::DivisionByZero { operation: operation.to_owned() },
        }
    }

    pub fn type_error(message: &str) -> (e: ExpressionError)
        ensures
            e@ == ErrorView::TypeError(message@),
    {
        ExpressionError { kind: ExpressionErrorKind::TypeError { message: message.to_owned() } }
    }

    pub fn float_error(message: &str) -> (e: ExpressionError)
        ensures
            e@ == ErrorView::FloatError(message@),
    {
        ExpressionError { kind: ExpressionErrorKind::FloatError { message: message.to_owned() } }
    }

    pub fn unsupported(message: &str) -> (e: ExpressionError)
        ensures
            e@ == ErrorView::UnsupportedSyntax(message@),
    {
        ExpressionError {
            kind: ExpressionErrorKind::UnsupportedSyntax { message: message.to_owned() },
        }
    }

    pub fn kind(&self) -> (k: &ExpressionErrorKind)
        ensures
            k@ == self@,
    {
        &self.kind
    }
}

} // verus!
