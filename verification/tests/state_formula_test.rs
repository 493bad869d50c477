use mcrl2_syntax::modal::ValSort;
use mcrl2_syntax::state_formula::substitute;
use mcrl2_syntax::data_expr::DataExpr;
use mcrl2_syntax::state_formula::FixedPointOperator;
use mcrl2_syntax::sorts::IdDecl;
use mcrl2_syntax::sorts::Sort;
use mcrl2_syntax::sorts::SortExpression;
use mcrl2_syntax::state_formula::ModalityOperator;
use mcrl2_syntax::state_formula::Quantifier;
use mcrl2_syntax::state_formula::RegFrm;
use mcrl2_syntax::state_formula::StateFrm;
use mcrl2_syntax::state_formula::StateFrmOp;
use mcrl2_syntax::state_formula::StateFrmUnaryOp;
use mcrl2_syntax::state_formula::StateVarDecl;

fn var(name: &str) -> StateFrm {
    StateFrm::Id(name.to_string(), Vec::new())
}

fn and(lhs: StateFrm, rhs: StateFrm) -> StateFrm {
    StateFrm::Binary { op: StateFrmOp::Conjunction, lhs: Box::new(lhs), rhs: Box::new(rhs) }
}

fn mu(name: &str, body: StateFrm) -> StateFrm {
    StateFrm::FixedPoint {
        operator: FixedPointOperator::Least,
        variable: StateVarDecl { identifier: name.to_string(), arguments: Vec::new() },
        body: Box::new(body),
    }
}

/// `true && (mu X. (X && Y))`.
fn sample() -> StateFrm {
    and(StateFrm::True, mu("X", and(var("X"), var("Y"))))
}

#[test]
fn substitute_replaces_every_matching_subformula() {
    let result = substitute(sample(), &|f: &StateFrm| match f {
        StateFrm::Id(name, _) if name == "Y" => Some(StateFrm::False),
        _ => None,
    });
    assert_eq!(result, and(StateFrm::True, mu("X", and(var("X"), StateFrm::False))));
}

#[test]
fn substitute_without_replacement_is_identity() {
    let result = substitute(sample(), &|_: &StateFrm| None);
    assert_eq!(result, sample());
}

#[test]
fn substitute_at_the_root_returns_the_replacement() {
    let result = substitute(sample(), &|f: &StateFrm| match f {
        StateFrm::Binary { .. } => Some(var("Z")),
        _ => None,
    });
    assert_eq!(result, var("Z"));
}

#[test]
fn substitute_does_not_descend_into_a_replacement() {
    let result = substitute(and(var("X"), StateFrm::True), &|f: &StateFrm| match f {
        StateFrm::Id(name, _) if name == "X" => {
            Some(StateFrm::Unary { op: StateFrmUnaryOp::Negation, expr: Box::new(var("X")) })
        },
        _ => None,
    });
    assert_eq!(
        result,
        and(StateFrm::Unary { op: StateFrmUnaryOp::Negation, expr: Box::new(var("X")) }, StateFrm::True)
    );
}

#[test]
fn substitute_keeps_modalities_quantifiers_and_multiplications() {
    let formula = StateFrm::Modality {
        operator: ModalityOperator::Diamond,
        formula: RegFrm::Action("a".to_string()),
        expr: Box::new(StateFrm::Quantifier {
            quantifier: Quantifier::Forall,
            variables: vec![IdDecl { identifier: "n".to_string(), sort: SortExpression::Simple(Sort::Nat) }],
            body: Box::new(StateFrm::DataValExprLeftMult(DataExpr::Number("2".to_string()), Box::new(var("X")))),
        }),
    };
    let result = substitute(formula, &|f: &StateFrm| match f {
        StateFrm::Id(..) => Some(StateFrm::DataValExpr(DataExpr::Id("v".to_string()))),
        _ => None,
    });
    assert_eq!(
        result,
        StateFrm::Modality {
            operator: ModalityOperator::Diamond,
            formula: RegFrm::Action("a".to_string()),
            expr: Box::new(StateFrm::Quantifier {
                quantifier: Quantifier::Forall,
                variables: vec![IdDecl { identifier: "n".to_string(), sort: SortExpression::Simple(Sort::Nat) }],
                body: Box::new(StateFrm::DataValExprLeftMult(
                    DataExpr::Number("2".to_string()),
                    Box::new(StateFrm::DataValExpr(DataExpr::Id("v".to_string())))
                )),
            }),
        }
    );
}

#[test]
fn val_sort_variants_are_distinct() {
    assert_ne!(ValSort::Real, ValSort::Bool);
    assert_ne!(ValSort::Bool, ValSort::Unknown);
    let copy = ValSort::Real;
    assert_eq!(copy, ValSort::Real);
}
