//! Data expressions, as far as formulas and generated values carry them.
use vstd::prelude::*;

verus! {

/// A data expression.
#[derive(Debug, PartialEq, Eq)]
pub enum DataExpr {
    /// A variable or constant name.
    Id(String),
    /// A numeric literal, as written.
    Number(String),
    /// A function applied to arguments.
    Application { function: Box<DataExpr>, arguments: Vec<DataExpr> },
    /// A binary operator applied to two expressions.
    Binary { op: DataExprBinaryOp, lhs: Box<DataExpr>, rhs: Box<DataExpr> },
}

/// The binary operators on data expressions that generated specifications use.
#[derive(Clone, Copy, Debug, PartialEq, Eq, Structural)]
pub enum DataExprBinaryOp {
    /// `a == b`.
    Equal,
}

} // verus!
