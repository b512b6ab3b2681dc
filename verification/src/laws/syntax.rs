//! What operators dispatch to and which are refused.

use ruff_python_ast::{CmpOp, Operator, UnaryOp};
use vstd::prelude::*;

use crate::budgeted_vec::projected_capacity;
use crate::decimal::digit_count;
use crate::op_table::{
    binary_handling, comparison_handling, unary_handling, CmpOpSpec, OpSpec, SyntaxFeature,
};
use crate::text::decimal;

verus! {

/// Whether an operator calls the function of a name.
pub open spec fn calls(handling: OpSpec, name: Seq<char>) -> bool {
    handling matches OpSpec::Dunder(dunder) && dunder@ == name
}

/// Whether an operator is refused until a feature is granted.
pub open spec fn needs(handling: OpSpec, feature: SyntaxFeature) -> bool {
    handling matches OpSpec::Gated { feature: needed, message: _ } && needed == feature
}

/// Arithmetic operators call the functions of their names. Those on bits and
/// the product of matrices are refused until their own feature is granted.
pub proof fn binary_operators_have_their_functions(op: Operator)
    ensures
        match op {
            Operator::Add => calls(binary_handling(op), "__add__"@),
            Operator::Sub => calls(binary_handling(op), "__sub__"@),
            Operator::Mult => calls(binary_handling(op), "__mul__"@),
            Operator::Div => calls(binary_handling(op), "__truediv__"@),
            Operator::FloorDiv => calls(binary_handling(op), "__floordiv__"@),
            Operator::Mod => calls(binary_handling(op), "__mod__"@),
            Operator::Pow => calls(binary_handling(op), "__pow__"@),
            Operator::BitAnd => needs(binary_handling(op), SyntaxFeature::BitwiseAnd),
            Operator::BitOr => needs(binary_handling(op), SyntaxFeature::BitwiseOr),
            Operator::BitXor => needs(binary_handling(op), SyntaxFeature::BitwiseXor),
            Operator::LShift => needs(binary_handling(op), SyntaxFeature::LeftShift),
            Operator::RShift => needs(binary_handling(op), SyntaxFeature::RightShift),
            Operator::MatMult => needs(binary_handling(op), SyntaxFeature::MatMult),
        },
{
}

/// The signs and the negation call the functions of their names. The complement
/// of bits is refused until its feature is granted.
pub proof fn unary_operators_have_their_functions(op: UnaryOp)
    ensures
        match op {
            UnaryOp::USub => calls(unary_handling(op), "__neg__"@),
            UnaryOp::UAdd => calls(unary_handling(op), "__pos__"@),
            UnaryOp::Not => calls(unary_handling(op), "__not__"@),
            UnaryOp::Invert => needs(unary_handling(op), SyntaxFeature::BitwiseNot),
        },
{
}

/// Comparisons call the functions of their names, with the container first where
/// an element is looked for. Comparisons of identity are refused until their
/// feature is granted.
pub proof fn comparisons_have_their_functions(op: CmpOp)
    ensures
        match comparison_handling(op) {
            CmpOpSpec::Dispatch(dispatch) => {
                &&& dispatch.container_first <==> op is In || op is NotIn
                &&& dispatch.dunder@ == match op {
                    CmpOp::Eq => "__eq__"@,
                    CmpOp::NotEq => "__ne__"@,
                    CmpOp::Lt => "__lt__"@,
                    CmpOp::LtE => "__le__"@,
                    CmpOp::Gt => "__gt__"@,
                    CmpOp::GtE => "__ge__"@,
                    CmpOp::In => "__contains__"@,
                    _ => "__not_contains__"@,
                }
                &&& !(op is Is) && !(op is IsNot)
            },
            CmpOpSpec::Gated { feature, message: _ } => op is Is && feature == SyntaxFeature::IsOperator
                || op is IsNot && feature == SyntaxFeature::IsNotOperator,
        },
{
}

/// A vector that is full is given twice its room and at least four places, and
/// one that is not keeps its room.
pub proof fn full_vectors_double(len: nat, capacity: nat)
    requires
        len <= capacity,
        2 * capacity <= usize::MAX,
    ensures
        len < capacity ==> projected_capacity(len, capacity) == capacity,
        len == capacity && capacity >= 2 ==> projected_capacity(len, capacity) == 2 * capacity,
        len == capacity && capacity < 2 ==> projected_capacity(len, capacity) == 4,
        projected_capacity(len, capacity) >= len + 1,
{
}

/// A number has as many digits as are written.
pub proof fn digits_are_counted(n: nat)
    ensures
        digit_count(n) == decimal(n).len(),
    decreases n,
{
    if n >= 10 {
        digits_are_counted(n / 10);
    }
}

} // verus!
