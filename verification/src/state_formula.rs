//! Modal state formulas (the mu-calculus with data and quantitative extensions) and the
//! substitution traversal over them.
use vstd::prelude::*;
use crate::data_expr::DataExpr;
use crate::sorts::IdDecl;
use crate::sorts::SortExpression;

verus! {

/// An initialised parameter of a fixed-point variable.
#[derive(Debug, PartialEq, Eq)]
pub struct StateVarAssignment {
    pub identifier: String,
    pub sort: SortExpression,
    pub expr: DataExpr,
}

/// The variable bound by a fixed point, with its parameters.
#[derive(Debug, PartialEq, Eq)]
pub struct StateVarDecl {
    pub identifier: String,
    pub arguments: Vec<StateVarAssignment>,
}

/// A regular formula over actions, as it occurs inside a modality.
#[derive(Debug, PartialEq, Eq)]
pub enum RegFrm {
    /// A single action (formula), as written.
    Action(String),
    Sequence { lhs: Box<RegFrm>, rhs: Box<RegFrm> },
    Choice { lhs: Box<RegFrm>, rhs: Box<RegFrm> },
    Iteration(Box<RegFrm>),
    Plus(Box<RegFrm>),
}

#[derive(Clone, Copy, Debug, PartialEq, Eq)]
pub enum StateFrmOp {
    Addition,
    Implies,
    Disjunction,
    Conjunction,
}

#[derive(Clone, Copy, Debug, PartialEq, Eq)]
pub enum StateFrmUnaryOp {
    Negation,
    Minus,
}

#[derive(Clone, Copy, Debug, PartialEq, Eq)]
pub enum FixedPointOperator {
    Least,
    Greatest,
}

#[derive(Clone, Copy, Debug, PartialEq, Eq)]
pub enum ModalityOperator {
    Box,
    Diamond,
}

#[derive(Clone, Copy, Debug, PartialEq, Eq)]
pub enum Quantifier {
    Forall,
    Exists,
}

#[derive(Clone, Copy, Debug, PartialEq, Eq)]
pub enum Bound {
    Inf,
    Sup,
    Sum,
}

/// A state formula.
#[allow(inconsistent_fields)]
#[derive(Debug, PartialEq, Eq)]
pub enum StateFrm {
    True,
    False,
    Delay(Option<DataExpr>),
    Yaled(Option<DataExpr>),
    /// A fixed-point variable instantiated with arguments.
    Id(String, Vec<DataExpr>),
    /// `val(...)`.
    DataValExpr(DataExpr),
    /// `formula * data`.
    DataValExprRightMult(Box<StateFrm>, DataExpr),
    /// `data * formula`.
    DataValExprLeftMult(DataExpr, Box<StateFrm>),
    Unary { op: StateFrmUnaryOp, expr: Box<StateFrm> },
    Binary { op: StateFrmOp, lhs: Box<StateFrm>, rhs: Box<StateFrm> },
    FixedPoint { operator: FixedPointOperator, variable: StateVarDecl, body: Box<StateFrm> },
    Bound { bound: Bound, variables: Vec<IdDecl>, body: Box<StateFrm> },
    Modality { operator: ModalityOperator, formula: RegFrm, expr: Box<StateFrm> },
    Quantifier { quantifier: Quantifier, variables: Vec<IdDecl>, body: Box<StateFrm> },
}

/// `result` is a possible outcome of substituting with `f` in `formula`: either `f` replaced
/// `formula` itself by `result`, or `f` left it alone and `result` is `formula` with the same
/// node on top, the same non-formula fields, and every direct subformula substituted in turn.
pub open spec fn substituted<F: Fn(&StateFrm) -> Option<StateFrm>>(
    f: F,
    formula: StateFrm,
    result: StateFrm,
) -> bool
    decreases formula,
{
    ||| call_ensures(f, (&formula,), Some(result))
    ||| call_ensures(f, (&formula,), None) && match formula {
        StateFrm::Binary { op, lhs, rhs } => match result {
            StateFrm::Binary { op: op2, lhs: lhs2, rhs: rhs2 } => op2 == op && substituted(
                f,
                *lhs,
                *lhs2,
            ) && substituted(f, *rhs, *rhs2),
            _ => false,
        },
        StateFrm::FixedPoint { operator, variable, body } => match result {
            StateFrm::FixedPoint { operator: operator2, variable: variable2, body: body2 } => operator2
                == operator && variable2 == variable && substituted(f, *body, *body2),
            _ => false,
        },
        StateFrm::Bound { bound, variables, body } => match result {
            StateFrm::Bound { bound: bound2, variables: variables2, body: body2 } => bound2 == bound
                && variables2 == variables && substituted(f, *body, *body2),
            _ => false,
        },
        StateFrm::Modality { operator, formula: regular, expr } => match result {
            StateFrm::Modality { operator: operator2, formula: regular2, expr: expr2 } => operator2
                == operator && regular2 == regular && substituted(f, *expr, *expr2),
            _ => false,
        },
        StateFrm::Quantifier { quantifier, variables, body } => match result {
            StateFrm::Quantifier { quantifier: quantifier2, variables: variables2, body: body2 } =>
                quantifier2 == quantifier && variables2 == variables && substituted(f, *body, *body2),
            _ => false,
        },
        StateFrm::DataValExprRightMult(expr, data) => match result {
            StateFrm::DataValExprRightMult(expr2, data2) => data2 == data && substituted(
                f,
                *expr,
                *expr2,
            ),
            _ => false,
        },
        StateFrm::DataValExprLeftMult(data, expr) => match result {
            StateFrm::DataValExprLeftMult(data2, expr2) => data2 == data && substituted(
                f,
                *expr,
                *expr2,
            ),
            _ => false,
        },
        StateFrm::Unary { op, expr } => match result {
            StateFrm::Unary { op: op2, expr: expr2 } => op2 == op && substituted(f, *expr, *expr2),
            _ => false,
        },
        _ => result == formula,
    }
}

/// Applies the given substitution function recursively to the state formula.
///
/// The substitution function takes a state formula and returns an optional new
/// formula. If it returns `Some(new_formula)`, the substitution is applied and
/// the new formula is returned. If it returns `None`, the substitution is not
/// applied and the function continues to traverse the formula tree.
pub fn substitute<F: Fn(&StateFrm) -> Option<StateFrm>>(formula: StateFrm, substitution: &F) -> (result:
    StateFrm)
    requires
        forall|x: &StateFrm| call_requires(*substitution, (x,)),
    ensures
        substituted(*substitution, formula, result),
    decreases formula,
{
    if let Some(replaced) = substitution(&formula) {
        // A substitution was made, return the new formula.
        return replaced;
    }
    match formula {
        StateFrm::Binary { op, lhs, rhs } => {
            let new_lhs = substitute(*lhs, substitution);
            let new_rhs = substitute(*rhs, substitution);
            StateFrm::Binary { op, lhs: Box::new(new_lhs), rhs: Box::new(new_rhs) }
        },
        StateFrm::FixedPoint { operator, variable, body } => {
            let new_body = substitute(*body, substitution);
            StateFrm::FixedPoint { operator, variable, body: Box::new(new_body) }
        },
        StateFrm::Bound { bound, variables, body } => {
            let new_body = substitute(*body, substitution);
            StateFrm::Bound { bound, variables, body: Box::new(new_body) }
        },
        StateFrm::Modality { operator, formula, expr } => {
            let new_expr = substitute(*expr, substitution);
            StateFrm::Modality { operator, formula, expr: Box::new(new_expr) }
        },
        StateFrm::Quantifier { quantifier, variables, body } => {
            let new_body = substitute(*body, substitution);
            StateFrm::Quantifier { quantifier, variables, body: Box::new(new_body) }
        },
        StateFrm::DataValExprRightMult(expr, data_val) => {
            let new_expr = substitute(*expr, substitution);
            StateFrm::DataValExprRightMult(Box::new(new_expr), data_val)
        },
        StateFrm::DataValExprLeftMult(data_val, expr) => {
            let new_expr = substitute(*expr, substitution);
            StateFrm::DataValExprLeftMult(data_val, Box::new(new_expr))
        },
        StateFrm::Unary { op, expr } => {
            let new_expr = substitute(*expr, substitution);
            StateFrm::Unary { op, expr: Box::new(new_expr) }
        },
        StateFrm::Id(name, arguments) => StateFrm::Id(name, arguments),
        StateFrm::True => StateFrm::True,
        StateFrm::False => StateFrm::False,
        StateFrm::Delay(time) => StateFrm::Delay(time),
        StateFrm::Yaled(time) => StateFrm::Yaled(time),
        StateFrm::DataValExpr(expr) => StateFrm::DataValExpr(expr),
    }
}

/// A substitution that never replaces anything leaves every formula unchanged.
pub proof fn law_substitute_without_replacement_is_identity<F: Fn(&StateFrm) -> Option<StateFrm>>(
    f: F,
    formula: StateFrm,
    result: StateFrm,
)
    requires
        forall|x: &StateFrm, r: Option<StateFrm>| call_ensures(f, (x,), r) ==> r is None,
        substituted(f, formula, result),
    ensures
        result == formula,
    decreases formula,
{
    assert(!call_ensures(f, (&formula,), Some(result)));
    match (formula, result) {
        (StateFrm::Binary { lhs, rhs, .. }, StateFrm::Binary { lhs: lhs2, rhs: rhs2, .. }) => {
            law_substitute_without_replacement_is_identity(f, *lhs, *lhs2);
            law_substitute_without_replacement_is_identity(f, *rhs, *rhs2);
        },
        (StateFrm::FixedPoint { body, .. }, StateFrm::FixedPoint { body: body2, .. }) => {
            law_substitute_without_replacement_is_identity(f, *body, *body2);
        },
        (StateFrm::Bound { body, .. }, StateFrm::Bound { body: body2, .. }) => {
            law_substitute_without_replacement_is_identity(f, *body, *body2);
        },
        (StateFrm::Modality { expr, .. }, StateFrm::Modality { expr: expr2, .. }) => {
            law_substitute_without_replacement_is_identity(f, *expr, *expr2);
        },
        (StateFrm::Quantifier { body, .. }, StateFrm::Quantifier { body: body2, .. }) => {
            law_substitute_without_replacement_is_identity(f, *body, *body2);
        },
        (StateFrm::DataValExprRightMult(expr, _), StateFrm::DataValExprRightMult(expr2, _)) => {
            law_substitute_without_replacement_is_identity(f, *expr, *expr2);
        },
        (StateFrm::DataValExprLeftMult(_, expr), StateFrm::DataValExprLeftMult(_, expr2)) => {
            law_substitute_without_replacement_is_identity(f, *expr, *expr2);
        },
        (StateFrm::Unary { expr, .. }, StateFrm::Unary { expr: expr2, .. }) => {
            law_substitute_without_replacement_is_identity(f, *expr, *expr2);
        },
        _ => {},
    }
}

/// When the substitution replaces the whole formula, that replacement is the result: the
/// traversal stops at the first node replaced.
pub proof fn law_replaced_root_is_the_result<F: Fn(&StateFrm) -> Option<StateFrm>>(
    f: F,
    formula: StateFrm,
    replacement: StateFrm,
    result: StateFrm,
)
    requires
        forall|r: Option<StateFrm>| call_ensures(f, (&formula,), r) ==> r == Some(replacement),
        substituted(f, formula, result),
    ensures
        result == replacement,
{
}

} // verus!
