use mcrl2_syntax::inference::merge_shared_subs;
use mcrl2_syntax::inference::solve_constraints;
use mcrl2_syntax::inference::Comprehension;
use mcrl2_syntax::inference::Constraint;
use mcrl2_syntax::inference::Disjunction;
use mcrl2_syntax::inference::ExprId;
use mcrl2_syntax::inference::LitConstraint;
use mcrl2_syntax::inference::LitKind;
use mcrl2_syntax::inference::NameTarget;
use mcrl2_syntax::inference::SolveError;
use mcrl2_syntax::inference::SubConstraint;
use mcrl2_syntax::interner::SortInterner;
use mcrl2_syntax::sorts::ComplexSort;
use mcrl2_syntax::unification::Unifier;

fn sub(lhs: mcrl2_syntax::unification::InferSortId, rhs: mcrl2_syntax::unification::InferSortId) -> Constraint {
    Constraint::Sub(SubConstraint { lhs, rhs })
}

#[test]
fn test_positive_literal_takes_pos() {
    let mut interner = SortInterner::new();
    let mut unifier = Unifier::new();
    let literal = unifier.fresh_var();
    let constraints = vec![Constraint::Lit(LitConstraint { sort: literal, kind: LitKind::Positive })];
    let default = interner.bool_sort();
    let typing = solve_constraints(constraints, vec![literal], vec![None], default, &mut interner, &mut unifier)
        .expect("a literal has a sort");
    assert_eq!(typing.sorts, vec![interner.pos_sort()]);
}

#[test]
fn test_zero_literal_takes_nat() {
    let mut interner = SortInterner::new();
    let mut unifier = Unifier::new();
    let literal = unifier.fresh_var();
    let constraints = vec![Constraint::Lit(LitConstraint { sort: literal, kind: LitKind::Natural })];
    let default = interner.bool_sort();
    let typing = solve_constraints(constraints, vec![literal], vec![None], default, &mut interner, &mut unifier)
        .expect("a literal has a sort");
    assert_eq!(typing.sorts, vec![interner.nat_sort()]);
}

#[test]
fn test_zero_literal_is_not_positive() {
    let mut interner = SortInterner::new();
    let mut unifier = Unifier::new();
    let pos = unifier.resolved_node(interner.pos_sort());
    let constraints = vec![Constraint::Lit(LitConstraint { sort: pos, kind: LitKind::Natural })];
    let default = interner.bool_sort();
    let result = solve_constraints(constraints, vec![pos], vec![None], default, &mut interner, &mut unifier);
    assert!(matches!(result, Err(SolveError::NoTyping)));
}

#[test]
fn test_literal_keeps_its_minimal_sort_under_upcast() {
    // `n == 1` with `n: Nat`: both sides widen into a shared sort, which becomes `Nat`, while the
    // literal itself stays `Pos`.
    let mut interner = SortInterner::new();
    let mut unifier = Unifier::new();
    let variable = unifier.resolved_node(interner.nat_sort());
    let literal = unifier.fresh_var();
    let joined = unifier.fresh_var();
    let constraints = vec![
        Constraint::Lit(LitConstraint { sort: literal, kind: LitKind::Positive }),
        sub(variable, joined),
        sub(literal, joined),
    ];
    let default = interner.bool_sort();
    let typing = solve_constraints(
        constraints,
        vec![variable, literal, joined],
        vec![None, None, None],
        default,
        &mut interner,
        &mut unifier,
    )
    .expect("the equation is well typed");
    assert_eq!(typing.sorts, vec![interner.nat_sort(), interner.pos_sort(), interner.nat_sort()]);
}

#[test]
fn a_bool_and_a_number_widened_into_one_sort_have_no_typing() {
    // The constraints of `eqn f = 1` with `map f: Bool`: the literal is a number, and both sides
    // widen into a shared sort, which no number shares with `Bool`.
    let mut interner = SortInterner::new();
    let mut unifier = Unifier::new();
    let lhs = unifier.resolved_node(interner.bool_sort());
    let literal = unifier.fresh_var();
    let joined = unifier.fresh_var();
    let constraints = vec![
        Constraint::Lit(LitConstraint { sort: literal, kind: LitKind::Positive }),
        sub(lhs, joined),
        sub(literal, joined),
    ];
    let default = interner.bool_sort();
    let result = solve_constraints(
        constraints,
        vec![lhs, literal],
        vec![Some(NameTarget::Op { sort: default }), None],
        default,
        &mut interner,
        &mut unifier,
    );
    assert!(matches!(result, Err(SolveError::NoTyping)));
}

#[test]
fn test_widening_prefers_the_nearest_supersort() {
    // A `Pos` argument passed where a fresh parameter is expected, the parameter then required
    // to be an `Int` or a `Nat` overload: the `Nat` one is nearer and wins.
    let mut interner = SortInterner::new();
    let mut unifier = Unifier::new();
    let argument = unifier.resolved_node(interner.pos_sort());
    let parameter = unifier.fresh_var();
    let callee = unifier.fresh_var();
    let nat_overload = unifier.resolved_node(interner.nat_sort());
    let int_overload = unifier.resolved_node(interner.int_sort());
    let nat = interner.nat_sort();
    let int = interner.int_sort();
    let constraints = vec![
        sub(argument, parameter),
        Constraint::Disjunction(Disjunction {
            expr: ExprId { index: 1 },
            sort: callee,
            disjuncts: vec![
                (NameTarget::Op { sort: int }, int_overload),
                (NameTarget::Op { sort: nat }, nat_overload),
            ],
        }),
        sub(callee, parameter),
    ];
    let default = interner.bool_sort();
    let typing = solve_constraints(
        constraints,
        vec![argument, callee, parameter],
        vec![None, None, None],
        default,
        &mut interner,
        &mut unifier,
    )
    .expect("the call is well typed");
    assert_eq!(typing.sorts, vec![interner.pos_sort(), interner.nat_sort(), interner.nat_sort()]);
    assert_eq!(typing.names, vec![None, Some(NameTarget::Op { sort: nat }), None]);
}

#[test]
fn test_equally_good_overloads_are_ambiguous() {
    let mut interner = SortInterner::new();
    let mut unifier = Unifier::new();
    let name = unifier.fresh_var();
    let first = unifier.resolved_node(interner.nat_sort());
    let second = unifier.resolved_node(interner.bool_sort());
    let nat = interner.nat_sort();
    let boolean = interner.bool_sort();
    let constraints = vec![Constraint::Disjunction(Disjunction {
        expr: ExprId { index: 0 },
        sort: name,
        disjuncts: vec![(NameTarget::Op { sort: nat }, first), (NameTarget::Op { sort: boolean }, second)],
    })];
    let default = interner.bool_sort();
    let result = solve_constraints(constraints, vec![name], vec![None], default, &mut interner, &mut unifier);
    assert!(matches!(result, Err(SolveError::Ambiguous)));
}

#[test]
fn test_free_sort_takes_the_default() {
    let mut interner = SortInterner::new();
    let mut unifier = Unifier::new();
    let element = unifier.fresh_var();
    let list = unifier.generic(ComplexSort::List, element);
    let default = interner.bool_sort();
    let typing = solve_constraints(Vec::new(), vec![element, list], vec![None, None], default, &mut interner, &mut unifier)
        .expect("nothing to solve");
    let bool_list = interner.generic(ComplexSort::List, default);
    assert_eq!(typing.sorts, vec![default, bool_list]);
}

#[test]
fn test_boolean_comprehension_is_a_set() {
    let mut interner = SortInterner::new();
    let mut unifier = Unifier::new();
    let body = unifier.resolved_node(interner.bool_sort());
    let node = unifier.fresh_var();
    let element = interner.nat_sort();
    let constraints = vec![Constraint::Comprehension(Comprehension { body, node, element })];
    let default = interner.bool_sort();
    let typing = solve_constraints(constraints, vec![body, node], vec![None, None], default, &mut interner, &mut unifier)
        .expect("a boolean body makes a set");
    let nat_set = interner.generic(ComplexSort::SetSort, element);
    assert_eq!(typing.sorts[1], nat_set);
}

#[test]
fn test_natural_comprehension_is_a_bag() {
    let mut interner = SortInterner::new();
    let mut unifier = Unifier::new();
    let body = unifier.resolved_node(interner.nat_sort());
    let node = unifier.fresh_var();
    let element = interner.bool_sort();
    let constraints = vec![Constraint::Comprehension(Comprehension { body, node, element })];
    let default = interner.bool_sort();
    let typing = solve_constraints(constraints, vec![body, node], vec![None, None], default, &mut interner, &mut unifier)
        .expect("a natural body makes a bag");
    let bool_bag = interner.generic(ComplexSort::Bag, element);
    assert_eq!(typing.sorts[1], bool_bag);
}

#[test]
fn test_finite_set_widens_to_set() {
    // An `FSet(Nat)` literal where a `Set(Nat)` is expected.
    let mut interner = SortInterner::new();
    let mut unifier = Unifier::new();
    let nat = interner.nat_sort();
    let finite = interner.generic(ComplexSort::FSet, nat);
    let set = interner.generic(ComplexSort::SetSort, nat);
    let literal = unifier.resolved_node(finite);
    let expected = unifier.resolved_node(set);
    let constraints = vec![sub(literal, expected)];
    let default = interner.bool_sort();
    let typing = solve_constraints(constraints, vec![literal], vec![None], default, &mut interner, &mut unifier)
        .expect("a finite set widens to a set");
    assert_eq!(typing.sorts, vec![finite]);
}

#[test]
fn test_merge_groups_widenings_into_one_variable() {
    let interner = SortInterner::new();
    let mut unifier = Unifier::new();
    let a = unifier.resolved_node(interner.nat_sort());
    let b = unifier.resolved_node(interner.pos_sort());
    let shared = unifier.fresh_var();
    let other = unifier.fresh_var();
    let c = unifier.resolved_node(interner.int_sort());
    let constraints = vec![
        sub(a, shared),
        sub(c, other),
        Constraint::Lit(LitConstraint { sort: b, kind: LitKind::Positive }),
        sub(b, shared),
        sub(a, c),
    ];
    let merged = merge_shared_subs(constraints, &unifier, &interner);
    assert_eq!(merged.len(), 4);
    assert!(matches!(&merged[0], Constraint::Sub(s) if s.lhs == c && s.rhs == other));
    assert!(matches!(&merged[1], Constraint::Lit(_)));
    match &merged[2] {
        Constraint::Join(join) => {
            assert_eq!(join.sources, vec![a, b]);
            assert_eq!(join.target, shared);
        }
        other => panic!("expected a join, got {other:?}"),
    }
    assert!(matches!(&merged[3], Constraint::Sub(s) if s.lhs == a && s.rhs == c));
}

#[test]
fn test_join_of_sorts() {
    let mut interner = SortInterner::new();
    let pos = interner.pos_sort();
    let nat = interner.nat_sort();
    let real = interner.real_sort();
    let boolean = interner.bool_sort();
    assert_eq!(interner.join(pos, nat), Some(nat));
    assert_eq!(interner.join(real, pos), Some(real));
    assert_eq!(interner.join(boolean, nat), None);
    let finite = interner.generic(ComplexSort::FSet, nat);
    let set = interner.generic(ComplexSort::SetSort, nat);
    let bag = interner.generic(ComplexSort::Bag, nat);
    assert_eq!(interner.join(finite, set), Some(set));
    assert_eq!(interner.join(finite, bag), None);
    assert_eq!(interner.widening_distance(pos, real), 3);
    assert_eq!(interner.widening_distance(nat, nat), 0);
    assert_eq!(interner.widening_distance(finite, set), 1);
}

#[test]
fn test_comprehension_with_a_body_of_either_reading_is_ambiguous() {
    // `{ n: Nat | r }` where `r` is declared both `Bool` and `Nat`: a set and a bag type alike.
    let mut interner = SortInterner::new();
    let mut unifier = Unifier::new();
    let body = unifier.fresh_var();
    let node = unifier.fresh_var();
    let as_bool = unifier.resolved_node(interner.bool_sort());
    let as_nat = unifier.resolved_node(interner.nat_sort());
    let (boolean, nat) = (interner.bool_sort(), interner.nat_sort());
    let constraints = vec![
        Constraint::Disjunction(Disjunction {
            expr: ExprId { index: 0 },
            sort: body,
            disjuncts: vec![(NameTarget::Op { sort: boolean }, as_bool), (NameTarget::Op { sort: nat }, as_nat)],
        }),
        Constraint::Comprehension(Comprehension { body, node, element: nat }),
    ];
    let result = solve_constraints(constraints, vec![body, node], vec![None, None], boolean, &mut interner, &mut unifier);
    assert!(matches!(result, Err(SolveError::Ambiguous)));
}

#[test]
fn test_search_enumerates_no_widening_between_two_free_sorts() {
    // `x <= y` with both free is tried only as `x = y`; the later choices `x: Pos` and `y: Nat`
    // then fail, and no widening is enumerated, so the search reports no typing although
    // `Pos <= Nat` would satisfy every constraint.
    let mut interner = SortInterner::new();
    let mut unifier = Unifier::new();
    let x = unifier.fresh_var();
    let y = unifier.fresh_var();
    let pos = interner.pos_sort();
    let nat = interner.nat_sort();
    let pos_node = unifier.resolved_node(pos);
    let nat_node = unifier.resolved_node(nat);
    let constraints = vec![
        sub(x, y),
        Constraint::Disjunction(Disjunction {
            expr: ExprId { index: 0 },
            sort: x,
            disjuncts: vec![(NameTarget::Op { sort: pos }, pos_node)],
        }),
        Constraint::Disjunction(Disjunction {
            expr: ExprId { index: 1 },
            sort: y,
            disjuncts: vec![(NameTarget::Op { sort: nat }, nat_node)],
        }),
    ];
    let default = interner.bool_sort();
    let result = solve_constraints(constraints, vec![x, y], vec![None, None], default, &mut interner, &mut unifier);
    assert!(matches!(result, Err(SolveError::NoTyping)));
}

#[test]
fn a_solvable_problem_without_widenings_is_typed() {
    // `x` is a literal and one of `Bool` or `Nat`: `Nat` satisfies both, so some typing is found.
    let mut interner = SortInterner::new();
    let mut unifier = Unifier::new();
    let x = unifier.fresh_var();
    let bool_sort = interner.bool_sort();
    let nat = interner.nat_sort();
    let bool_node = unifier.resolved_node(bool_sort);
    let nat_node = unifier.resolved_node(nat);
    let constraints = vec![
        Constraint::Lit(LitConstraint { sort: x, kind: LitKind::Positive }),
        Constraint::Disjunction(Disjunction {
            expr: ExprId { index: 0 },
            sort: x,
            disjuncts: vec![(NameTarget::Op { sort: bool_sort }, bool_node), (NameTarget::Op { sort: nat }, nat_node)],
        }),
    ];
    let result = solve_constraints(constraints, vec![x], vec![None], bool_sort, &mut interner, &mut unifier);
    let typing = result.expect("`Nat` satisfies every constraint");
    assert_eq!(typing.sorts, vec![nat]);
    assert_eq!(typing.names, vec![Some(NameTarget::Op { sort: nat })]);
}

#[test]
fn an_unsolvable_problem_without_widenings_has_no_typing() {
    // `0` cannot be `Pos`, and `Bool` is no number sort.
    let mut interner = SortInterner::new();
    let mut unifier = Unifier::new();
    let x = unifier.fresh_var();
    let bool_sort = interner.bool_sort();
    let pos = interner.pos_sort();
    let bool_node = unifier.resolved_node(bool_sort);
    let pos_node = unifier.resolved_node(pos);
    let constraints = vec![
        Constraint::Lit(LitConstraint { sort: x, kind: LitKind::Natural }),
        Constraint::Disjunction(Disjunction {
            expr: ExprId { index: 0 },
            sort: x,
            disjuncts: vec![(NameTarget::Op { sort: bool_sort }, bool_node), (NameTarget::Op { sort: pos }, pos_node)],
        }),
    ];
    let result = solve_constraints(constraints, vec![x], vec![None], bool_sort, &mut interner, &mut unifier);
    assert!(matches!(result, Err(SolveError::NoTyping)));
}

#[test]
fn a_comprehension_is_read_by_its_body() {
    // A body that must be `Pos` makes the comprehension a bag of its element sort.
    let mut interner = SortInterner::new();
    let mut unifier = Unifier::new();
    let body = unifier.fresh_var();
    let node = unifier.fresh_var();
    let pos = interner.pos_sort();
    let nat = interner.nat_sort();
    let pos_node = unifier.resolved_node(pos);
    let constraints = vec![
        Constraint::Comprehension(Comprehension { body, node, element: nat }),
        Constraint::Disjunction(Disjunction {
            expr: ExprId { index: 0 },
            sort: body,
            disjuncts: vec![(NameTarget::Op { sort: pos }, pos_node)],
        }),
    ];
    let result = solve_constraints(constraints, vec![body, node], vec![None, None], pos, &mut interner, &mut unifier);
    let typing = result.expect("a `Pos` body reads as a bag");
    let bag = interner.generic(ComplexSort::Bag, nat);
    assert_eq!(typing.sorts, vec![pos, bag]);
}

#[test]
fn two_overloads_of_the_same_sort_tie_and_are_ambiguous() {
    // Both overloads make `x` a `Nat`, the only sort a literal with them can take: two choices
    // reach the least measure.
    let mut interner = SortInterner::new();
    let mut unifier = Unifier::new();
    let x = unifier.fresh_var();
    let nat = interner.nat_sort();
    let first = unifier.resolved_node(nat);
    let second = unifier.resolved_node(nat);
    let constraints = vec![
        Constraint::Lit(LitConstraint { sort: x, kind: LitKind::Natural }),
        Constraint::Disjunction(Disjunction {
            expr: ExprId { index: 0 },
            sort: x,
            disjuncts: vec![(NameTarget::Op { sort: nat }, first), (NameTarget::Builtin, second)],
        }),
    ];
    let result = solve_constraints(constraints, vec![x], vec![None], nat, &mut interner, &mut unifier);
    assert!(matches!(result, Err(SolveError::Ambiguous)));
}

#[test]
fn the_most_specific_literal_sort_wins_without_a_tie() {
    // `x` is a literal and one of `Int` or `Nat`: `Nat` is more specific, so it is the only choice
    // of least measure.
    let mut interner = SortInterner::new();
    let mut unifier = Unifier::new();
    let x = unifier.fresh_var();
    let int = interner.int_sort();
    let nat = interner.nat_sort();
    let int_node = unifier.resolved_node(int);
    let nat_node = unifier.resolved_node(nat);
    let constraints = vec![
        Constraint::Lit(LitConstraint { sort: x, kind: LitKind::Positive }),
        Constraint::Disjunction(Disjunction {
            expr: ExprId { index: 0 },
            sort: x,
            disjuncts: vec![(NameTarget::Op { sort: int }, int_node), (NameTarget::Op { sort: nat }, nat_node)],
        }),
    ];
    let result = solve_constraints(constraints, vec![x], vec![None], nat, &mut interner, &mut unifier);
    let typing = result.expect("`Nat` is the least solution");
    assert_eq!(typing.sorts, vec![nat]);
    assert_eq!(typing.names, vec![Some(NameTarget::Op { sort: nat })]);
}
