use rand::SeedableRng;
use rand::rngs::StdRng;

use mcrl2_syntax::random_lps::id_decl;
use mcrl2_syntax::random_lps::random_proc_var;
use mcrl2_syntax::random_pbes;
use mcrl2_syntax::random_pres;
use mcrl2_syntax::sorts::ComplexSort;
use mcrl2_syntax::sorts::IdDecl;
use mcrl2_syntax::sorts::Sort;
use mcrl2_syntax::sorts::SortDecl;
use mcrl2_syntax::sorts::SortExpression;

fn declared_sorts() -> Vec<SortDecl> {
    vec![
        SortDecl { identifier: "Sort0".to_string(), expr: None },
        SortDecl {
            identifier: "Sort1".to_string(),
            expr: Some(SortExpression::Complex(ComplexSort::List, Box::new(SortExpression::Simple(Sort::Nat)))),
        },
    ]
}

fn basic_sort_of(name: &str) -> SortExpression {
    if name == "b" || name == "c" {
        SortExpression::Simple(Sort::Bool)
    } else {
        SortExpression::Simple(Sort::Nat)
    }
}

#[test]
fn is_bool_var_recognises_the_boolean_names() {
    assert!(random_pbes::is_bool_var("b"));
    assert!(random_pbes::is_bool_var("c"));
    assert!(!random_pbes::is_bool_var("m"));
    assert!(!random_pbes::is_bool_var("bb"));
    assert!(!random_pbes::is_bool_var(""));
}

#[test]
fn pbes_pred_vars_have_distinct_typed_parameters() {
    let mut rng = StdRng::seed_from_u64(7);
    let decls = declared_sorts();
    for index in 0..50 {
        let use_integers = index % 2 == 0;
        let with_sorts = index % 3 != 0;
        let sorts: &[SortDecl] = if with_sorts { &decls } else { &[] };
        let pred_var = random_pbes::make_pred_var(&mut rng, index, use_integers, sorts);
        assert_eq!(pred_var.name, format!("X{index}"));
        let basic = pred_var.params.len() - usize::from(with_sorts);
        assert!(basic <= 2);
        for (i, (name, sort)) in pred_var.params[..basic].iter().enumerate() {
            let pool: &[&str] = if use_integers { &["m", "n", "b", "c"] } else { &["b", "c"] };
            assert!(pool.contains(&name.as_str()));
            assert_eq!(sort, &basic_sort_of(name));
            assert!(pred_var.params[..i].iter().all(|(other, _)| other != name));
        }
        if with_sorts {
            let (name, sort) = &pred_var.params[basic];
            assert_eq!(name, &format!("rich{index}"));
            match sort {
                SortExpression::Reference(target) => assert!(target == "Sort0" || target == "Sort1"),
                other => panic!("unexpected sort {other:?}"),
            }
        }

        let decl = pred_var.to_decl();
        let freevars = pred_var.expr_freevars();
        assert_eq!(decl.identifier, pred_var.name);
        assert_eq!(decl.params, freevars);
        for ((name, sort), freevar) in pred_var.params.iter().zip(&freevars) {
            assert_eq!(&freevar.identifier, name);
            assert_eq!(&freevar.sort, sort);
        }
    }
}

#[test]
fn pbes_as_expr_decl_copies_the_sort() {
    let sort = SortExpression::Function {
        domain: Box::new(SortExpression::Reference("D".to_string())),
        range: Box::new(SortExpression::Simple(Sort::Bool)),
    };
    let decl = random_pbes::as_expr_decl("f", &sort);
    assert_eq!(decl, IdDecl { identifier: "f".to_string(), sort });
}

#[test]
fn pres_pred_vars_have_distinct_integer_parameters() {
    let mut rng = StdRng::seed_from_u64(11);
    for index in 0..40 {
        let pred_var = random_pres::make_pred_var(&mut rng, index);
        assert_eq!(pred_var.name, format!("X{index}"));
        assert!(pred_var.params.len() <= 2);
        for (i, name) in pred_var.params.iter().enumerate() {
            assert!(name == "m" || name == "n");
            assert!(!pred_var.params[..i].contains(name));
        }
        let decl = pred_var.to_decl();
        assert_eq!(decl.params, pred_var.expr_freevars());
        for (name, param) in pred_var.params.iter().zip(&decl.params) {
            assert_eq!(param, &IdDecl { identifier: name.clone(), sort: SortExpression::Simple(Sort::Int) });
        }
    }
    assert_eq!(
        random_pres::as_expr_decl("m"),
        IdDecl { identifier: "m".to_string(), sort: SortExpression::Simple(Sort::Int) }
    );
}

#[test]
fn proc_vars_are_named_after_their_index() {
    let mut rng = StdRng::seed_from_u64(3);
    let decls = declared_sorts();
    for round in 0..30 {
        let index = round % 3;
        let use_integers = round % 2 == 1;
        let with_sorts = round % 4 < 2;
        let sorts: &[SortDecl] = if with_sorts { &decls } else { &[] };
        let proc_var = random_proc_var(&mut rng, index, use_integers, sorts);
        assert_eq!(proc_var.name, ["P", "Q", "R"][index]);
        let basic = proc_var.params.len() - usize::from(with_sorts);
        assert!(basic <= 2);
        for (i, param) in proc_var.params[..basic].iter().enumerate() {
            let pool: &[&str] = if use_integers { &["b", "c", "m", "n"] } else { &["b", "c"] };
            assert!(pool.contains(&param.identifier.as_str()));
            assert_eq!(param.sort, basic_sort_of(&param.identifier));
            assert!(proc_var.params[..i].iter().all(|other| other.identifier != param.identifier));
        }
        if with_sorts {
            let rich = &proc_var.params[basic];
            assert_eq!(rich.identifier, format!("rich{index}"));
            assert!(matches!(&rich.sort, SortExpression::Reference(target) if target == "Sort0" || target == "Sort1"));
        }
    }
    assert_eq!(
        id_decl("n", Sort::Nat),
        IdDecl { identifier: "n".to_string(), sort: SortExpression::Simple(Sort::Nat) }
    );
}
