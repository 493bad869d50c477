use rand::SeedableRng;
use rand::rngs::StdRng;

use mcrl2_syntax::random_data_specification::random_data_specification;
use mcrl2_syntax::sorts::SortExpression;

/// Checks that `expr` only names sorts `Sort0` .. `Sort{bound - 1}` and nests at most `depth`
/// levels of structs, containers and function sorts, with 1-3 constructors of at most two named
/// fields per struct.
fn check(expr: &SortExpression, bound: usize, depth: usize) {
    match expr {
        SortExpression::Simple(_) => {}
        SortExpression::Reference(name) => {
            let index: usize = name.strip_prefix("Sort").expect("a generated sort name").parse().unwrap();
            assert!(index < bound, "{name} is not declared before sort {bound}");
        }
        SortExpression::Struct { inner } => {
            assert!(depth >= 1);
            assert!((1..=3).contains(&inner.len()));
            for constructor in inner {
                assert!(constructor.name.starts_with('c'));
                assert!(constructor.args.len() <= 2);
                assert!(constructor.recogniser.is_none());
                for (projection, sort) in &constructor.args {
                    assert!(projection.as_ref().unwrap().starts_with(&format!("{}_f", constructor.name)));
                    check(sort, bound, depth - 1);
                }
            }
        }
        SortExpression::Complex(_, element) => {
            assert!(depth >= 1);
            check(element, bound, depth - 1);
        }
        SortExpression::Function { domain, range } => {
            assert!(depth >= 1);
            check(domain, bound, 0);
            check(range, bound, depth - 1);
        }
        SortExpression::Product { .. } => panic!("products are never generated"),
    }
}

#[test]
fn random_data_specification_is_acyclic_and_bounded() {
    for seed in 0..200 {
        let mut rng = StdRng::seed_from_u64(seed);
        let spec = random_data_specification(&mut rng, 5, 3);
        assert_eq!(spec.sort_declarations.len(), 5);
        for (i, declaration) in spec.sort_declarations.iter().enumerate() {
            assert_eq!(declaration.identifier, format!("Sort{i}"));
            check(declaration.expr.as_ref().expect("every sort is an alias"), i, 3);
        }
    }
}

/// Collects the constructor names of `expr`, outermost first.
fn collect(expr: &SortExpression, names: &mut Vec<String>) {
    match expr {
        SortExpression::Struct { inner } => {
            for constructor in inner {
                names.push(constructor.name.clone());
                for (_, sort) in &constructor.args {
                    collect(sort, names);
                }
            }
        }
        SortExpression::Complex(_, element) => collect(element, names),
        SortExpression::Function { domain, range } => {
            collect(domain, names);
            collect(range, names);
        }
        _ => {}
    }
}

#[test]
fn random_data_specification_constructor_names_are_distinct() {
    for seed in 0..100 {
        let mut rng = StdRng::seed_from_u64(seed);
        let spec = random_data_specification(&mut rng, 6, 3);
        let mut names = Vec::new();
        for declaration in &spec.sort_declarations {
            collect(declaration.expr.as_ref().unwrap(), &mut names);
        }
        let mut sorted = names.clone();
        sorted.sort();
        sorted.dedup();
        assert_eq!(sorted.len(), names.len());
    }
}

#[test]
fn random_data_specification_without_depth_has_only_leaves() {
    let mut rng = StdRng::seed_from_u64(7);
    let spec = random_data_specification(&mut rng, 4, 0);
    for (i, declaration) in spec.sort_declarations.iter().enumerate() {
        let expr = declaration.expr.as_ref().unwrap();
        assert!(matches!(expr, SortExpression::Simple(_) | SortExpression::Reference(_)));
        check(expr, i, 0);
    }
}

#[test]
fn random_data_specification_of_no_sorts_is_empty() {
    let mut rng = StdRng::seed_from_u64(1);
    assert!(random_data_specification(&mut rng, 0, 4).sort_declarations.is_empty());
}

#[test]
fn random_data_specification_accepts_a_deep_nesting() {
    for seed in 0..5u64 {
        let mut rng = StdRng::seed_from_u64(seed);
        let spec = random_data_specification(&mut rng, 1, 30);
        assert_eq!(spec.sort_declarations.len(), 1);
        assert!(spec.sort_declarations[0].expr.is_some());
    }
}

#[test]
fn random_data_specification_numbers_its_constructors_in_order() {
    for seed in 0..20u64 {
        let mut rng = StdRng::seed_from_u64(seed);
        let spec = random_data_specification(&mut rng, 5, 3);
        let mut names = Vec::new();
        for declaration in &spec.sort_declarations {
            collect(declaration.expr.as_ref().unwrap(), &mut names);
        }
        for (k, name) in names.iter().enumerate() {
            assert_eq!(name, &format!("c{k}"));
        }
        assert!(spec.constructor_declarations.is_empty());
        assert!(spec.map_declarations.is_empty());
        assert!(spec.equation_declarations.is_empty());
        assert!(spec.type_var_declarations.is_empty());
    }
}
