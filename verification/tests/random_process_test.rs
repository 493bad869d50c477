use rand::SeedableRng;
use rand::rngs::StdRng;

use mcrl2_syntax::data_expr::DataExpr;
use mcrl2_syntax::data_expr::DataExprBinaryOp;
use mcrl2_syntax::process::Assignment;
use mcrl2_syntax::process::MultiActionLabel;
use mcrl2_syntax::process::ProcExprBinaryOp;
use mcrl2_syntax::process::ProcessExpr;
use mcrl2_syntax::process::insert_label;
use mcrl2_syntax::process::insert_name;
use mcrl2_syntax::process::label_precedes;
use mcrl2_syntax::process::name_precedes;
use mcrl2_syntax::random_lps::apply_wrapper;
use mcrl2_syntax::random_lps::random_parallel_init;

const ACTIONS: &[&str] = &["a", "b", "c", "d"];

fn action(name: &str) -> ProcessExpr {
    ProcessExpr::Action(name.to_string(), Vec::<DataExpr>::new())
}

fn label(names: &[&str]) -> MultiActionLabel {
    MultiActionLabel { actions: names.iter().map(|n| n.to_string()).collect() }
}

fn is_ascending(names: &[String]) -> bool {
    names.windows(2).all(|pair| pair[0] < pair[1])
}

/// Collects the operands of a parallel composition, left to right.
fn parallel_parts(expr: &ProcessExpr, parts: &mut Vec<String>) {
    match expr {
        ProcessExpr::Binary { op: ProcExprBinaryOp::Parallel, lhs, rhs } => {
            parallel_parts(lhs, parts);
            parallel_parts(rhs, parts);
        }
        ProcessExpr::Action(name, _) => parts.push(name.clone()),
        other => panic!("unexpected part {other:?}"),
    }
}

#[test]
fn names_are_ordered_by_their_bytes() {
    assert!(name_precedes("a", "b"));
    assert!(!name_precedes("b", "a"));
    assert!(!name_precedes("a", "a"));
    assert!(name_precedes("a", "ab"));
    assert!(name_precedes("B", "a"));
    assert!(name_precedes("z", "é"));
}

#[test]
fn labels_are_ordered_by_their_names() {
    assert!(label_precedes(&label(&["a"]), &label(&["a", "b"])));
    assert!(label_precedes(&label(&["a", "b"]), &label(&["b"])));
    assert!(!label_precedes(&label(&["b"]), &label(&["a", "c"])));
    assert!(!label_precedes(&label(&["a", "b"]), &label(&["a", "b"])));
}

#[test]
fn inserting_keeps_names_sorted_without_repetition() {
    let mut names = Vec::new();
    for name in ["c", "a", "c", "b", "a"] {
        insert_name(&mut names, name.to_string());
    }
    assert_eq!(names, vec!["a".to_string(), "b".to_string(), "c".to_string()]);
}

#[test]
fn inserting_keeps_labels_sorted_without_repetition() {
    let mut labels = Vec::new();
    for names in [&["b"][..], &["a", "b"][..], &["b"][..], &["a"][..]] {
        insert_label(&mut labels, label(names));
    }
    assert_eq!(labels, vec![label(&["a"]), label(&["a", "b"]), label(&["b"])]);
}

#[test]
fn wrappers_draw_their_actions_from_the_given_ones() {
    let mut seen = [false; 6];
    for seed in 0..200u64 {
        let mut rng = StdRng::seed_from_u64(seed);
        let wrapped = apply_wrapper(&mut rng, ACTIONS, action("x"));
        let known = |name: &String| ACTIONS.contains(&name.as_str());
        match wrapped {
            ProcessExpr::Hide { actions, operand } => {
                seen[0] = true;
                assert_eq!(*operand, action("x"));
                assert_eq!(actions.len(), 1);
                assert!(known(&actions[0]));
            }
            ProcessExpr::Block { actions, operand } => {
                seen[1] = true;
                assert_eq!(*operand, action("x"));
                assert_eq!(actions.len(), 1);
                assert!(known(&actions[0]));
            }
            ProcessExpr::Rename { renames, operand } => {
                seen[2] = true;
                assert_eq!(*operand, action("x"));
                assert_eq!(renames.len(), 1);
                assert!(known(&renames[0].from) && known(&renames[0].to));
                assert_ne!(renames[0].from, renames[0].to);
            }
            ProcessExpr::Comm { comm, operand } => {
                seen[3] = true;
                assert_eq!(*operand, action("x"));
                assert_eq!(comm.len(), 1);
                let names = &comm[0].lhs.actions;
                assert_eq!(names.len(), 2);
                assert!(known(&names[0]) && known(&names[1]) && known(&comm[0].rhs));
                assert_ne!(names[0], names[1]);
                assert_ne!(names[0], comm[0].rhs);
                assert_ne!(names[1], comm[0].rhs);
            }
            ProcessExpr::Allow { actions, operand } => {
                seen[4] = true;
                assert_eq!(*operand, action("x"));
                assert!(!actions.is_empty() && actions.len() <= 5);
                for pair in actions.windows(2) {
                    assert!(label_precedes(&pair[0], &pair[1]));
                }
                for allowed in &actions {
                    assert!(!allowed.actions.is_empty() && allowed.actions.len() <= 2);
                    assert!(is_ascending(&allowed.actions));
                    assert!(allowed.actions.iter().all(known));
                }
            }
            other => {
                seen[5] = true;
                assert_eq!(other, action("x"));
            }
        }
    }
    assert!(seen[..5].iter().all(|&s| s), "every wrapper is drawn for some seed: {seen:?}");
}

#[test]
fn a_single_action_admits_no_renaming_or_communication() {
    for seed in 0..100u64 {
        let mut rng = StdRng::seed_from_u64(seed);
        let wrapped = apply_wrapper(&mut rng, &["a"], action("x"));
        assert!(!matches!(wrapped, ProcessExpr::Rename { .. } | ProcessExpr::Comm { .. }));
    }
}

#[test]
fn parallel_init_composes_every_process_once() {
    for seed in 0..50u64 {
        let mut rng = StdRng::seed_from_u64(seed);
        let procs = vec![action("p"), action("q"), action("r"), action("s")];
        let init = random_parallel_init(&mut rng, ACTIONS, procs, 0);
        let mut parts = Vec::new();
        parallel_parts(&init, &mut parts);
        parts.sort();
        assert_eq!(parts, vec!["p", "q", "r", "s"]);
    }
}

#[test]
fn parallel_init_of_one_process_is_that_process() {
    let mut rng = StdRng::seed_from_u64(7);
    let init = random_parallel_init(&mut rng, ACTIONS, vec![ProcessExpr::Delta], 0);
    assert_eq!(init, ProcessExpr::Delta);
}

#[test]
fn parallel_init_puts_the_wrappers_around_the_composition() {
    let mut rng = StdRng::seed_from_u64(3);
    let init = random_parallel_init(&mut rng, ACTIONS, vec![ProcessExpr::Tau], 1);
    match init {
        ProcessExpr::Hide { operand, .. }
        | ProcessExpr::Block { operand, .. }
        | ProcessExpr::Rename { operand, .. }
        | ProcessExpr::Comm { operand, .. }
        | ProcessExpr::Allow { operand, .. } => assert_eq!(*operand, ProcessExpr::Tau),
        other => assert_eq!(other, ProcessExpr::Tau),
    }
}

#[test]
fn lps_of_no_transitions_is_delta() {
    let spec = mcrl2_syntax::random_lps::lps_from_transitions(2, &[], 0);
    let names: Vec<&str> = spec.action_declarations.iter().map(|d| d.identifier.as_str()).collect();
    assert_eq!(names, vec!["a0", "a1"]);
    assert_eq!(spec.process_declarations.len(), 1);
    assert_eq!(spec.process_declarations[0].identifier, "P");
    assert_eq!(spec.process_declarations[0].body, ProcessExpr::Delta);
}

#[test]
fn lps_chooses_among_its_transitions_in_order() {
    let spec = mcrl2_syntax::random_lps::lps_from_transitions(2, &[(0, 1, 3), (2, 0, 0)], 3);
    let summand = |from: &str, act: &str, to: &str| ProcessExpr::Condition {
        condition: DataExpr::Binary {
            op: DataExprBinaryOp::Equal,
            lhs: Box::new(DataExpr::Id("s".to_string())),
            rhs: Box::new(DataExpr::Number(from.to_string())),
        },
        then: Box::new(ProcessExpr::Binary {
            op: ProcExprBinaryOp::Sequence,
            lhs: Box::new(action(act)),
            rhs: Box::new(ProcessExpr::Id(
                "P".to_string(),
                vec![Assignment { identifier: "s".to_string(), expr: DataExpr::Number(to.to_string()) }],
            )),
        }),
        else_: None,
    };
    let expected = ProcessExpr::Binary {
        op: ProcExprBinaryOp::Choice,
        lhs: Box::new(summand("0", "a1", "3")),
        rhs: Box::new(summand("2", "a0", "0")),
    };
    assert_eq!(spec.process_declarations[0].body, expected);
    assert_eq!(
        spec.init,
        Some(ProcessExpr::Id(
            "P".to_string(),
            vec![Assignment { identifier: "s".to_string(), expr: DataExpr::Number("3".to_string()) }]
        ))
    );
}
