use mcrl2_syntax::interner::SortInterner;
use mcrl2_syntax::sorts::ComplexSort;
use mcrl2_syntax::unification::Unifier;

#[test]
fn test_unify_variable_with_resolved() {
    let mut interner = SortInterner::new();
    let mut unifier = Unifier::new();

    let var = unifier.fresh_var();
    let nat = unifier.resolved_node(interner.nat_sort());
    assert!(unifier.unify(&interner, var, nat));
    assert_eq!(unifier.resolve(&mut interner, var), Some(interner.nat_sort()));
}

#[test]
fn test_unify_variables_transitively() {
    let mut interner = SortInterner::new();
    let mut unifier = Unifier::new();

    // Merging two free variables and later binding one binds both.
    let first = unifier.fresh_var();
    let second = unifier.fresh_var();
    assert!(unifier.unify(&interner, first, second));
    assert_eq!(unifier.resolve(&mut interner, first), None);

    let bool_sort = unifier.resolved_node(interner.bool_sort());
    assert!(unifier.unify(&interner, second, bool_sort));
    assert_eq!(unifier.resolve(&mut interner, first), Some(interner.bool_sort()));
}

#[test]
fn test_unify_resolved_against_structure() {
    let mut interner = SortInterner::new();
    let mut unifier = Unifier::new();

    // `List(Nat)` as a resolved leaf against `List(?t)` binds `?t := Nat`.
    let nat = interner.nat_sort();
    let nat_list = interner.generic(ComplexSort::List, nat);
    let resolved = unifier.resolved_node(nat_list);
    let element = unifier.fresh_var();
    let structural = unifier.generic(ComplexSort::List, element);

    assert!(unifier.unify(&interner, resolved, structural));
    assert_eq!(unifier.resolve(&mut interner, element), Some(interner.nat_sort()));
    assert_eq!(unifier.resolve(&mut interner, structural), Some(nat_list));
}

#[test]
fn test_unify_resolved_against_function_structure() {
    let mut interner = SortInterner::new();
    let mut unifier = Unifier::new();

    let domain = vec![interner.nat_sort(), interner.bool_sort()];
    let real = interner.real_sort();
    let function = interner.function(domain, real);
    let resolved = unifier.resolved_node(function);

    let first = unifier.fresh_var();
    let second = unifier.fresh_var();
    let range = unifier.fresh_var();
    let structural = unifier.function(vec![first, second], range);

    assert!(unifier.unify(&interner, resolved, structural));
    assert_eq!(unifier.resolve(&mut interner, first), Some(interner.nat_sort()));
    assert_eq!(unifier.resolve(&mut interner, second), Some(interner.bool_sort()));
    assert_eq!(unifier.resolve(&mut interner, range), Some(interner.real_sort()));
}

#[test]
fn test_unify_rejects_mismatches() {
    let interner = SortInterner::new();
    let mut unifier = Unifier::new();

    let nat = unifier.resolved_node(interner.nat_sort());
    let bool_sort = unifier.resolved_node(interner.bool_sort());
    assert!(!unifier.unify(&interner, nat, bool_sort));

    // Distinct container constructors do not unify, even with FSet <= Set.
    let element = unifier.fresh_var();
    let fset = unifier.generic(ComplexSort::FSet, element);
    let set = unifier.generic(ComplexSort::SetSort, element);
    assert!(!unifier.unify(&interner, fset, set));

    // Function arity is part of the sort.
    let unary = unifier.function(vec![nat], bool_sort);
    let binary = unifier.function(vec![nat, nat], bool_sort);
    assert!(!unifier.unify(&interner, unary, binary));

    let list = unifier.generic(ComplexSort::List, nat);
    assert!(!unifier.unify(&interner, list, unary));
}

#[test]
fn test_occurs_check_rejects_cyclic_sort() {
    let interner = SortInterner::new();
    let mut unifier = Unifier::new();

    let var = unifier.fresh_var();
    let list = unifier.generic(ComplexSort::List, var);
    assert!(!unifier.unify(&interner, var, list));

    // Also through a merged variable: ?a = ?b, then ?a with List(?b).
    let alias = unifier.fresh_var();
    assert!(unifier.unify(&interner, var, alias));
    let alias_list = unifier.generic(ComplexSort::List, alias);
    assert!(!unifier.unify(&interner, var, alias_list));
}

#[test]
fn test_rollback_frees_bindings() {
    let mut interner = SortInterner::new();
    let mut unifier = Unifier::new();

    let var = unifier.fresh_var();
    let nat = unifier.resolved_node(interner.nat_sort());

    let snapshot = unifier.snapshot();
    assert!(unifier.unify(&interner, var, nat));
    unifier.rollback_to(snapshot);
    assert_eq!(unifier.resolve(&mut interner, var), None);

    // The variable is free again, so a different binding must succeed.
    let bool_sort = unifier.resolved_node(interner.bool_sort());
    assert!(unifier.unify(&interner, var, bool_sort));
    assert_eq!(unifier.resolve(&mut interner, var), Some(interner.bool_sort()));
}

#[test]
fn test_resolve_extracts_nested_structure() {
    let mut interner = SortInterner::new();
    let mut unifier = Unifier::new();

    // ?f := ?t -> List(?t) with ?t := Pos resolves to Pos -> List(Pos).
    let element = unifier.fresh_var();
    let list = unifier.generic(ComplexSort::List, element);
    let function = unifier.function(vec![element], list);
    assert_eq!(unifier.resolve(&mut interner, function), None);

    let pos = unifier.resolved_node(interner.pos_sort());
    assert!(unifier.unify(&interner, element, pos));

    let pos_sort = interner.pos_sort();
    let pos_list = interner.generic(ComplexSort::List, pos_sort);
    let expected = interner.function(vec![pos_sort], pos_list);
    assert_eq!(unifier.resolve(&mut interner, function), Some(expected));
}

#[test]
fn test_strict_super_sorts() {
    let mut interner = SortInterner::new();
    let mut unifier = Unifier::new();

    let pos = unifier.resolved_node(interner.pos_sort());
    let supers = unifier.strict_super_sorts(&mut interner, pos).unwrap();
    let resolved: Vec<_> = supers
        .into_iter()
        .map(|id| unifier.resolve(&mut interner, id).unwrap())
        .collect();
    assert_eq!(resolved, vec![interner.nat_sort(), interner.int_sort(), interner.real_sort()]);

    let bool_sort = unifier.resolved_node(interner.bool_sort());
    assert_eq!(unifier.strict_super_sorts(&mut interner, bool_sort), Some(Vec::new()));

    let var = unifier.fresh_var();
    assert_eq!(unifier.strict_super_sorts(&mut interner, var), None);

    // The head constructor of a container is widened, its element is not.
    let fset = unifier.generic(ComplexSort::FSet, var);
    let supers = unifier.strict_super_sorts(&mut interner, fset).unwrap();
    assert_eq!(supers.len(), 1);
    let nat = unifier.resolved_node(interner.nat_sort());
    assert!(unifier.unify(&interner, var, nat));
    let nat_sort = interner.nat_sort();
    let nat_set = interner.generic(ComplexSort::SetSort, nat_sort);
    assert_eq!(unifier.resolve(&mut interner, supers[0]), Some(nat_set));
}

#[test]
fn test_strict_sub_sorts() {
    let mut interner = SortInterner::new();
    let mut unifier = Unifier::new();

    let real = unifier.resolved_node(interner.real_sort());
    let subs = unifier.strict_sub_sorts(&mut interner, real).unwrap();
    let resolved: Vec<_> = subs
        .into_iter()
        .map(|id| unifier.resolve(&mut interner, id).unwrap())
        .collect();
    assert_eq!(resolved, vec![interner.int_sort(), interner.nat_sort(), interner.pos_sort()]);

    let nat_sort = interner.nat_sort();
    let nat_bag = interner.generic(ComplexSort::Bag, nat_sort);
    let bag = unifier.resolved_node(nat_bag);
    let subs = unifier.strict_sub_sorts(&mut interner, bag).unwrap();
    assert_eq!(subs.len(), 1);
    let nat_fbag = interner.generic(ComplexSort::FBag, nat_sort);
    assert_eq!(unifier.resolve(&mut interner, subs[0]), Some(nat_fbag));

    let pos = unifier.resolved_node(interner.pos_sort());
    assert_eq!(unifier.strict_sub_sorts(&mut interner, pos), Some(Vec::new()));
}

#[test]
fn test_unify_bound_variables_structurally() {
    let mut interner = SortInterner::new();
    let mut unifier = Unifier::new();

    // Two variables bound to compatible structures unify by unifying the
    // structures underneath, binding the nested variables.
    let first_element = unifier.fresh_var();
    let first = unifier.fresh_var();
    let first_list = unifier.generic(ComplexSort::List, first_element);
    assert!(unifier.unify(&interner, first, first_list));

    let second = unifier.fresh_var();
    let nat_sort = interner.nat_sort();
    let nat_list = interner.generic(ComplexSort::List, nat_sort);
    let resolved_list = unifier.resolved_node(nat_list);
    assert!(unifier.unify(&interner, second, resolved_list));

    assert!(unifier.unify(&interner, first, second));
    assert_eq!(unifier.resolve(&mut interner, first_element), Some(interner.nat_sort()));
}

#[test]
fn resolve_or_default_fills_free_variables() {
    let mut interner = SortInterner::new();
    let mut unifier = Unifier::new();

    let element = unifier.fresh_var();
    let list = unifier.generic(ComplexSort::List, element);
    let int_sort = interner.int_sort();
    let defaulted = unifier.resolve_or_default(&mut interner, list, int_sort);
    let int_list = interner.generic(ComplexSort::List, int_sort);
    assert_eq!(defaulted, int_list);
    // Nothing was bound on the way.
    assert_eq!(unifier.resolve(&mut interner, element), None);
}

#[test]
fn free_roots_are_shared_by_merged_variables() {
    let interner = SortInterner::new();
    let mut unifier = Unifier::new();

    let first = unifier.fresh_var();
    let second = unifier.fresh_var();
    assert_ne!(unifier.free_root(first), unifier.free_root(second));
    assert!(unifier.unify(&interner, first, second));
    assert_eq!(unifier.free_root(first), unifier.free_root(second));
    assert!(unifier.free_root(first).is_some());

    let nat = unifier.resolved_node(interner.nat_sort());
    assert_eq!(unifier.free_root(nat), None);
    assert!(unifier.unify(&interner, second, nat));
    assert_eq!(unifier.free_root(first), None);
}

#[test]
fn nested_rollbacks_restore_each_checkpoint() {
    let mut interner = SortInterner::new();
    let mut unifier = Unifier::new();

    let a = unifier.fresh_var();
    let b = unifier.fresh_var();
    let nat = unifier.resolved_node(interner.nat_sort());
    let pos = unifier.resolved_node(interner.pos_sort());

    let outer = unifier.snapshot();
    assert!(unifier.unify(&interner, a, nat));
    let inner = unifier.snapshot();
    assert!(unifier.unify(&interner, b, pos));
    unifier.rollback_to(inner);
    assert_eq!(unifier.resolve(&mut interner, a), Some(interner.nat_sort()));
    assert_eq!(unifier.resolve(&mut interner, b), None);
    unifier.rollback_to(outer);
    assert_eq!(unifier.resolve(&mut interner, a), None);
}

#[test]
fn interning_is_canonical() {
    let mut interner = SortInterner::new();
    let nat = interner.nat_sort();
    let first = interner.generic(ComplexSort::List, nat);
    let second = interner.generic(ComplexSort::List, nat);
    assert_eq!(first, second);
    let set = interner.generic(ComplexSort::SetSort, nat);
    assert_ne!(first, set);
    let function = interner.function(vec![nat, first], nat);
    let again = interner.function(vec![nat, second], nat);
    assert_eq!(function, again);
    assert_ne!(function, interner.function(vec![first, nat], nat));
    assert_eq!(interner.primitive(mcrl2_syntax::sorts::Sort::Nat), nat);
}

#[test]
fn unify_succeeds_exactly_when_some_assignment_makes_the_sides_equal() {
    let mut interner = SortInterner::new();
    let mut unifier = Unifier::new();

    // `List(?a)` and `List(List(?b))` are made equal by `?a := List(?b)`.
    let a = unifier.fresh_var();
    let b = unifier.fresh_var();
    let list_a = unifier.generic(ComplexSort::List, a);
    let list_b = unifier.generic(ComplexSort::List, b);
    let list_list_b = unifier.generic(ComplexSort::List, list_b);
    assert!(unifier.unify(&interner, list_a, list_list_b));

    // `?c` and `Set(?c)` are equal under no assignment, nor are `Set(?d)` and `Bag(?d)`.
    let c = unifier.fresh_var();
    let set_c = unifier.generic(ComplexSort::SetSort, c);
    assert!(!unifier.unify(&interner, c, set_c));
    let d = unifier.fresh_var();
    let set_d = unifier.generic(ComplexSort::SetSort, d);
    let bag_d = unifier.generic(ComplexSort::Bag, d);
    let snapshot = unifier.snapshot();
    assert!(!unifier.unify(&interner, set_d, bag_d));
    unifier.rollback_to(snapshot);
}

#[test]
fn unification_binds_no_more_than_it_must() {
    let mut interner = SortInterner::new();
    let mut unifier = Unifier::new();

    // Unifying `List(?a)` with `?b` leaves `?a` free: any sort of `?a` is still a solution.
    let a = unifier.fresh_var();
    let b = unifier.fresh_var();
    let list_a = unifier.generic(ComplexSort::List, a);
    assert!(unifier.unify(&interner, list_a, b));
    assert_eq!(unifier.resolve(&mut interner, a), None);

    // A later constraint then fixes both.
    let nat = interner.nat_sort();
    let nat_list = interner.generic(ComplexSort::List, nat);
    let resolved = unifier.resolved_node(nat_list);
    assert!(unifier.unify(&interner, b, resolved));
    assert_eq!(unifier.resolve(&mut interner, a), Some(nat));
    assert_eq!(unifier.resolve(&mut interner, b), Some(nat_list));
}

#[test]
fn unified_nodes_unify_again_and_resolve_alike() {
    let mut interner = SortInterner::new();
    let mut unifier = Unifier::new();

    let first = unifier.fresh_var();
    let second = unifier.fresh_var();
    assert!(unifier.unify(&interner, first, second));
    let nat = unifier.resolved_node(interner.nat_sort());
    assert!(unifier.unify(&interner, second, nat));
    assert!(unifier.unify(&interner, first, second));
    let a = unifier.resolve(&mut interner, first);
    let b = unifier.resolve(&mut interner, second);
    assert_eq!(a, b);
    assert_eq!(a, Some(interner.nat_sort()));
}
