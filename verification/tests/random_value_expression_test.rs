use mcrl2_syntax::data_expr::DataExpr;
use mcrl2_syntax::random_value_expression::fresh_name;
use mcrl2_syntax::random_value_expression::id;
use mcrl2_syntax::random_value_expression::resolve;
use mcrl2_syntax::sorts::ComplexSort;
use mcrl2_syntax::sorts::IdDecl;
use mcrl2_syntax::sorts::Sort;
use mcrl2_syntax::sorts::SortDecl;
use mcrl2_syntax::sorts::SortExpression;

fn var(name: &str) -> IdDecl {
    IdDecl { identifier: name.to_string(), sort: SortExpression::Simple(Sort::Nat) }
}

#[test]
fn fresh_name_takes_the_first_free_number() {
    assert_eq!(fresh_name(&[], "x"), "x0");
    assert_eq!(fresh_name(&[var("x0"), var("x1")], "x"), "x2");
    assert_eq!(fresh_name(&[var("x1")], "x"), "x0");
    assert_eq!(fresh_name(&[var("y0"), var("x0")], "y"), "y1");
}

#[test]
fn fresh_name_skips_every_taken_number_in_any_order() {
    let vars: Vec<IdDecl> = [3, 0, 2, 1, 10].iter().map(|i| var(&format!("v{i}"))).collect();
    assert_eq!(fresh_name(&vars, "v"), "v4");
    let many: Vec<IdDecl> = (0..12).map(|i| var(&format!("n{i}"))).collect();
    assert_eq!(fresh_name(&many, "n"), "n12");
}

#[test]
fn resolve_finds_the_first_declaration() {
    let decls = vec![
        SortDecl { identifier: "A".to_string(), expr: None },
        SortDecl {
            identifier: "B".to_string(),
            expr: Some(SortExpression::Complex(ComplexSort::List, Box::new(SortExpression::Simple(Sort::Nat)))),
        },
        SortDecl { identifier: "B".to_string(), expr: Some(SortExpression::Simple(Sort::Bool)) },
    ];
    assert_eq!(
        resolve(&decls, "B"),
        Some(&SortExpression::Complex(ComplexSort::List, Box::new(SortExpression::Simple(Sort::Nat))))
    );
    assert_eq!(resolve(&decls, "A"), None);
    assert_eq!(resolve(&decls, "C"), None);
}

#[test]
fn id_names_the_identifier() {
    assert_eq!(id("x".to_string()), DataExpr::Id("x".to_string()));
}
