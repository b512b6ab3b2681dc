//! Types of expression values.

use vstd::prelude::*;

verus! {

/// How a path's text is interpreted.
#[derive(Clone, Copy, Debug, PartialEq, Eq, Structural)]
pub enum PathFormat {
    Posix,
    Windows,
    Uri,
}

/// The type of an expression value.
#[derive(Debug)]
pub enum ExprType {
    NullType,
    Bool,
    Int,
    Float,
    String,
    Path,
    RangeExpr,
    List(Box<ExprType>),
}

/// The name of a type.
pub open spec fn type_text(t: ExprType) -> Seq<char>
    decreases t,
{
    match t {
        ExprType::NullType => "nulltype"@,
        ExprType::Bool => "bool"@,
        ExprType::Int => "int"@,
        ExprType::Float => "float"@,
        ExprType::String => "string"@,
        ExprType::Path => "path"@,
        ExprType::RangeExpr => "range_expr"@,
        ExprType::List(element) => "list["@ + type_text(*element) + "]"@,
    }
}

impl ExprType {
    /// Whether two types are the same.
    pub fn same(&self, other: &ExprType) -> (r: bool)
        ensures
            r == (*self == *other),
        decreases self,
    {
        match (self, other) {
            (ExprType::NullType, ExprType::NullType) => true,
            (ExprType::Bool, ExprType::Bool) => true,
            (ExprType::Int, ExprType::Int) => true,
            (ExprType::Float, ExprType::Float) => true,
            (ExprType::String, ExprType::String) => true,
            (ExprType::Path, ExprType::Path) => true,
            (ExprType::RangeExpr, ExprType::RangeExpr) => true,
            (ExprType::List(a), ExprType::List(b)) => a.same(b),
            _ => false,
        }
    }

    /// The name of the type.
    pub fn name(&self) -> (r: String)
        ensures
            r@ == type_text(*self),
        decreases self,
    {
        match self {
            ExprType::NullType => "nulltype".to_owned(),
            ExprType::Bool => "bool".to_owned(),
            ExprType::Int => "int".to_owned(),
            ExprType::Float => "float".to_owned(),
            ExprType::String => "string".to_owned(),
            ExprType::Path => "path".to_owned(),
            ExprType::RangeExpr => "range_expr".to_owned(),
            ExprType::List(element) => "list[".to_owned().concat(element.name().as_str()).concat("]"),
        }
    }
}

impl Clone for ExprType {
    fn clone(&self) -> (r: ExprType)
        ensures
            r == *self,
        decreases self,
    {
        match self {
            ExprType::NullType => ExprType::NullType,
            ExprType::Bool => ExprType::Bool,
            ExprType::Int => ExprType::Int,
            ExprType::Float => ExprType::Float,
            ExprType::String => ExprType::String,
            ExprType::Path => ExprType::Path,
            ExprType::RangeExpr => ExprType::RangeExpr,
            ExprType::List(element) => ExprType::List(Box::new((**element).clone())),
        }
    }
}

} // verus!
