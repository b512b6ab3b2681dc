//! The operators of the expression language and what they dispatch to.
//!
//! The parser and the evaluator read one table: an operator has the name of
//! the function that implements it, or the syntax feature that would have to
//! be granted for it and the message with which it is rejected until then.

use ruff_python_ast::{CmpOp, Operator, UnaryOp};
use vstd::prelude::*;

use crate::error::{ErrorView, ExpressionError};

verus! {

/// `ruff_python_ast::Operator`, the binary operators of the Python syntax tree.
#[verifier::external_type_specification]
pub struct ExOperator(ruff_python_ast::Operator);

/// `ruff_python_ast::UnaryOp`, the unary operators of the Python syntax tree.
#[verifier::external_type_specification]
pub struct ExUnaryOp(ruff_python_ast::UnaryOp);

/// `ruff_python_ast::CmpOp`, the comparison operators of the Python syntax tree.
#[verifier::external_type_specification]
pub struct ExCmpOp(ruff_python_ast::CmpOp);

/// Operators outside the baseline syntax.
#[derive(Clone, Copy, Debug, PartialEq, Eq, Structural)]
pub enum SyntaxFeature {
    BitwiseAnd,
    BitwiseOr,
    BitwiseXor,
    BitwiseNot,
    LeftShift,
    RightShift,
    MatMult,
    IsOperator,
    IsNotOperator,
}

/// How a binary or unary operator is handled.
#[derive(Clone, Copy, Debug)]
pub enum OpSpec {
    /// The operator calls the function of this name.
    Dunder(&'static str),
    /// The operator is rejected with `message` unless `feature` is granted.
    Gated { feature: SyntaxFeature, message: &'static str },
}

/// How a comparison operator is dispatched.
#[derive(Clone, Copy, Debug)]
pub struct CmpDispatch {
    /// The name of the function.
    pub dunder: &'static str,
    /// Whether the right operand is passed first: it is the container.
    pub container_first: bool,
}

/// How a comparison operator is handled.
#[derive(Clone, Copy, Debug)]
pub enum CmpOpSpec {
    Dispatch(CmpDispatch),
    Gated { feature: SyntaxFeature, message: &'static str },
}

/// The handling of a binary operator.
pub open spec fn binary_handling(op: Operator) -> OpSpec {
    match op {
        Operator::Add => OpSpec::Dunder("__add__"),
        Operator::Sub => OpSpec::Dunder("__sub__"),
        Operator::Mult => OpSpec::Dunder("__mul__"),
        Operator::Div => OpSpec::Dunder("__truediv__"),
        Operator::FloorDiv => OpSpec::Dunder("__floordiv__"),
        Operator::Mod => OpSpec::Dunder("__mod__"),
        Operator::Pow => OpSpec::Dunder("__pow__"),
        Operator::BitAnd => OpSpec::Gated {
            feature: SyntaxFeature::BitwiseAnd,
            message: "Bitwise AND (&) is not supported",
        },
        Operator::BitOr => OpSpec::Gated {
            feature: SyntaxFeature::BitwiseOr,
            message: "Bitwise OR (|) is not supported",
        },
        Operator::BitXor => OpSpec::Gated {
            feature: SyntaxFeature::BitwiseXor,
            message: "Bitwise XOR (^) is not supported",
        },
        Operator::LShift => OpSpec::Gated {
            feature: SyntaxFeature::LeftShift,
            message: "Left shift (<<) is not supported",
        },
        Operator::RShift => OpSpec::Gated {
            feature: SyntaxFeature::RightShift,
            message: "Right shift (>>) is not supported",
        },
        Operator::MatMult => OpSpec::Gated {
            feature: SyntaxFeature::MatMult,
            message: "Matrix multiply (@) is not supported",
        },
    }
}

/// The handling of a unary operator.
pub open spec fn unary_handling(op: UnaryOp) -> OpSpec {
    match op {
        UnaryOp::USub => OpSpec::Dunder("__neg__"),
        UnaryOp::UAdd => OpSpec::Dunder("__pos__"),
        UnaryOp::Not => OpSpec::Dunder("__not__"),
        UnaryOp::Invert => OpSpec::Gated {
            feature: SyntaxFeature::BitwiseNot,
            message: "Bitwise NOT (~) is not supported",
        },
    }
}

/// The handling of a comparison operator.
pub open spec fn comparison_handling(op: CmpOp) -> CmpOpSpec {
    match op {
        CmpOp::Eq => operands_in_order("__eq__"),
        CmpOp::NotEq => operands_in_order("__ne__"),
        CmpOp::Lt => operands_in_order("__lt__"),
        CmpOp::LtE => operands_in_order("__le__"),
        CmpOp::Gt => operands_in_order("__gt__"),
        CmpOp::GtE => operands_in_order("__ge__"),
        CmpOp::In => container_first("__contains__"),
        CmpOp::NotIn => container_first("__not_contains__"),
        CmpOp::Is => CmpOpSpec::Gated {
            feature: SyntaxFeature::IsOperator,
            message: "'is' operator is not supported; use '=='",
        },
        CmpOp::IsNot => CmpOpSpec::Gated {
            feature: SyntaxFeature::IsNotOperator,
            message: "'is not' operator is not supported; use '!='",
        },
    }
}

pub open spec fn operands_in_order(dunder: &'static str) -> CmpOpSpec {
    CmpOpSpec::Dispatch(CmpDispatch { dunder, container_first: false })
}

pub open spec fn container_first(dunder: &'static str) -> CmpOpSpec {
    CmpOpSpec::Dispatch(CmpDispatch { dunder, container_first: true })
}

fn dispatch(dunder: &'static str, container_first: bool) -> (r: CmpOpSpec)
    ensures
        r == CmpOpSpec::Dispatch(CmpDispatch { dunder, container_first }),
{
    CmpOpSpec::Dispatch(CmpDispatch { dunder, container_first })
}

/// The table of operators for the current revision of the language.
#[derive(Clone, Copy, Debug)]
pub struct OperatorTable;

impl OperatorTable {
    /// The table of the only revision.
    pub fn current() -> (r: OperatorTable)
        ensures
            r == OperatorTable,
    {
        OperatorTable
    }

    /// The handling of a binary operator.
    pub fn binop_spec(&self, op: Operator) -> (r: OpSpec)
        ensures
            r == binary_handling(op),
    {
        match op {
            Operator::Add => OpSpec::Dunder("__add__"),
            Operator::Sub => OpSpec::Dunder("__sub__"),
            Operator::Mult => OpSpec::Dunder("__mul__"),
            Operator::Div => OpSpec::Dunder("__truediv__"),
            Operator::FloorDiv => OpSpec::Dunder("__floordiv__"),
            Operator::Mod => OpSpec::Dunder("__mod__"),
            Operator::Pow => OpSpec::Dunder("__pow__"),
            Operator::BitAnd => OpSpec::Gated {
                feature: SyntaxFeature::BitwiseAnd,
                message: "Bitwise AND (&) is not supported",
            },
            Operator::BitOr => OpSpec::Gated {
                feature: SyntaxFeature::BitwiseOr,
                message: "Bitwise OR (|) is not supported",
            },
            Operator::BitXor => OpSpec::Gated {
                feature: SyntaxFeature::BitwiseXor,
                message: "Bitwise XOR (^) is not supported",
            },
            Operator::LShift => OpSpec::Gated {
                feature: SyntaxFeature::LeftShift,
                message: "Left shift (<<) is not supported",
            },
            Operator::RShift => OpSpec::Gated {
                feature: SyntaxFeature::RightShift,
                message: "Right shift (>>) is not supported",
            },
            Operator::MatMult => OpSpec::Gated {
                feature: SyntaxFeature::MatMult,
                message: "Matrix multiply (@) is not supported",
            },
        }
    }

    /// The handling of a unary operator.
    pub fn unaryop_spec(&self, op: UnaryOp) -> (r: OpSpec)
        ensures
            r == unary_handling(op),
    {
        match op {
            UnaryOp::USub => OpSpec::Dunder("__neg__"),
            UnaryOp::UAdd => OpSpec::Dunder("__pos__"),
            UnaryOp::Not => OpSpec::Dunder("__not__"),
            UnaryOp::Invert => OpSpec::Gated {
                feature: SyntaxFeature::BitwiseNot,
                message: "Bitwise NOT (~) is not supported",
            },
        }
    }

    /// The handling of a comparison operator.
    pub fn cmpop_spec(&self, op: CmpOp) -> (r: CmpOpSpec)
        ensures
            r == comparison_handling(op),
    {
        match op {
            CmpOp::Eq => dispatch("__eq__", false),
            CmpOp::NotEq => dispatch("__ne__", false),
            CmpOp::Lt => dispatch("__lt__", false),
            CmpOp::LtE => dispatch("__le__", false),
            CmpOp::Gt => dispatch("__gt__", false),
            CmpOp::GtE => dispatch("__ge__", false),
            CmpOp::In => dispatch("__contains__", true),
            CmpOp::NotIn => dispatch("__not_contains__", true),
            CmpOp::Is => CmpOpSpec::Gated {
                feature: SyntaxFeature::IsOperator,
                message: "'is' operator is not supported; use '=='",
            },
            CmpOp::IsNot => CmpOpSpec::Gated {
                feature: SyntaxFeature::IsNotOperator,
                message: "'is not' operator is not supported; use '!='",
            },
        }
    }

    /// The function of a binary operator; a gated operator is an error.
    pub fn binop(&self, op: Operator) -> (r: Result<&'static str, ExpressionError>)
        ensures
            match binary_handling(op) {
                OpSpec::Dunder(dunder) => r matches Ok(name) && name@ == dunder@,
                OpSpec::Gated { feature, message } => r matches Err(e) && e@
                    == ErrorView::UnsupportedSyntax(message@),
            },
    {
        match self.binop_spec(op) {
            OpSpec::Dunder(dunder) => Ok(dunder),
            OpSpec::Gated { message, .. } => Err(ExpressionError::unsupported(message)),
        }
    }

    /// The function of a unary operator; a gated operator is an error.
    pub fn unaryop(&self, op: UnaryOp) -> (r: Result<&'static str, ExpressionError>)
        ensures
            match unary_handling(op) {
                OpSpec::Dunder(dunder) => r matches Ok(name) && name@ == dunder@,
                OpSpec::Gated { feature, message } => r matches Err(e) && e@
                    == ErrorView::UnsupportedSyntax(message@),
            },
    {
        match self.unaryop_spec(op) {
            OpSpec::Dunder(dunder) => Ok(dunder),
            OpSpec::Gated { message, .. } => Err(ExpressionError::unsupported(message)),
        }
    }

    /// The dispatch of a comparison operator; a gated operator is an error.
    pub fn cmpop(&self, op: CmpOp) -> (r: Result<CmpDispatch, ExpressionError>)
        ensures
            match comparison_handling(op) {
                CmpOpSpec::Dispatch(dispatch) => r matches Ok(d) && d == dispatch,
                CmpOpSpec::Gated { feature, message } => r matches Err(e) && e@
                    == ErrorView::UnsupportedSyntax(message@),
            },
    {
        match self.cmpop_spec(op) {
            CmpOpSpec::Dispatch(dispatch) => Ok(dispatch),
            CmpOpSpec::Gated { message, .. } => Err(ExpressionError::unsupported(message)),
        }
    }
}

} // verus!
