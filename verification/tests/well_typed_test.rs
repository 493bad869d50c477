use mcrl2_syntax::sorts::ComplexSort;
use mcrl2_syntax::sorts::ConstructorDecl;
use mcrl2_syntax::sorts::Sort;
use mcrl2_syntax::sorts::SortExpression;
use mcrl2_syntax::well_typed::check_products_within_domains;
use mcrl2_syntax::well_typed::is_supported_binder_sort;
use mcrl2_syntax::well_typed::WellTypedError;

fn simple(sort: Sort) -> SortExpression {
    SortExpression::Simple(sort)
}

fn product(lhs: SortExpression, rhs: SortExpression) -> SortExpression {
    SortExpression::Product { lhs: Box::new(lhs), rhs: Box::new(rhs) }
}

fn function(domain: SortExpression, range: SortExpression) -> SortExpression {
    SortExpression::Function { domain: Box::new(domain), range: Box::new(range) }
}

fn reported(sort: &SortExpression) -> Option<&SortExpression> {
    match check_products_within_domains(sort) {
        Ok(()) => None,
        Err(WellTypedError::ProductSortOutsideFunctionDomain { sort }) => Some(sort),
    }
}

#[test]
fn product_sort_outside_function_domain_is_rejected() {
    // Pos -> (Pos # Pos)
    let range_product = function(simple(Sort::Pos), product(simple(Sort::Pos), simple(Sort::Pos)));
    assert_eq!(reported(&range_product), Some(&product(simple(Sort::Pos), simple(Sort::Pos))));
    // List(Pos # Pos)
    let list = SortExpression::Complex(
        ComplexSort::List,
        Box::new(product(simple(Sort::Pos), simple(Sort::Pos))),
    );
    assert_eq!(reported(&list), Some(&product(simple(Sort::Pos), simple(Sort::Pos))));
    // Bool # Bool
    let bare = product(simple(Sort::Bool), simple(Sort::Bool));
    assert_eq!(reported(&bare), Some(&bare));
    // ((Pos # Pos) -> Bool) -> (Nat # Nat): the inner domain is fine, the outer range is not.
    let nested = function(
        function(product(simple(Sort::Pos), simple(Sort::Pos)), simple(Sort::Bool)),
        product(simple(Sort::Nat), simple(Sort::Nat)),
    );
    assert_eq!(reported(&nested), Some(&product(simple(Sort::Nat), simple(Sort::Nat))));
}

#[test]
fn product_sort_in_function_domain_is_allowed() {
    // (Pos # Pos) # Pos -> Bool
    let spine = function(
        product(product(simple(Sort::Pos), simple(Sort::Pos)), simple(Sort::Pos)),
        simple(Sort::Bool),
    );
    assert_eq!(reported(&spine), None);
    // ((Pos # Pos) -> Bool) -> Bool
    let higher_order = function(
        function(product(simple(Sort::Pos), simple(Sort::Pos)), simple(Sort::Bool)),
        simple(Sort::Bool),
    );
    assert_eq!(reported(&higher_order), None);
}

#[test]
fn product_inside_a_domain_argument_is_rejected() {
    // List(Nat # Nat) # Pos -> Bool: the first argument sort holds a product of its own.
    let argument = SortExpression::Complex(
        ComplexSort::List,
        Box::new(product(simple(Sort::Nat), simple(Sort::Nat))),
    );
    let sort = function(product(argument, simple(Sort::Pos)), simple(Sort::Bool));
    assert_eq!(reported(&sort), Some(&product(simple(Sort::Nat), simple(Sort::Nat))));
}

#[test]
fn product_in_a_struct_field_is_rejected_first_one_reported() {
    let first = product(simple(Sort::Bool), simple(Sort::Pos));
    let second = product(simple(Sort::Nat), simple(Sort::Int));
    let sort = SortExpression::Struct {
        inner: vec![
            ConstructorDecl { name: "c0".to_string(), args: vec![(None, simple(Sort::Nat))], recogniser: None },
            ConstructorDecl {
                name: "c1".to_string(),
                args: vec![(Some("pr".to_string()), first), (None, second)],
                recogniser: Some("is_c1".to_string()),
            },
        ],
    };
    assert_eq!(reported(&sort), Some(&product(simple(Sort::Bool), simple(Sort::Pos))));
    assert!(!is_supported_binder_sort(&sort));
}

#[test]
fn binder_sorts() {
    assert!(is_supported_binder_sort(&simple(Sort::Nat)));
    assert!(is_supported_binder_sort(&SortExpression::Reference("D".to_string())));
    assert!(is_supported_binder_sort(&function(
        product(simple(Sort::Nat), simple(Sort::Nat)),
        simple(Sort::Bool)
    )));
    assert!(!is_supported_binder_sort(&product(simple(Sort::Nat), simple(Sort::Nat))));
}
