use mcrl2_syntax::action_sorts::check_comm_sorts;
use mcrl2_syntax::action_sorts::check_rename_sorts;
use mcrl2_syntax::action_sorts::combined_sort_matches;
use mcrl2_syntax::action_sorts::ActionTable;
use mcrl2_syntax::action_sorts::ProcessError;
use mcrl2_syntax::action_sorts::SortMismatch;
use mcrl2_syntax::interner::SortInterner;
use mcrl2_syntax::signature::OverloadTable;
use mcrl2_syntax::signature::ResolvedSortId;

/// A table of actions, each a name with the parameter sorts of one declaration.
fn table(declarations: &[(&str, Vec<ResolvedSortId>)]) -> ActionTable {
    let mut action_domains = Vec::new();
    let mut actions_by_name: OverloadTable<usize> = OverloadTable::new();
    for (index, (name, domain)) in declarations.iter().enumerate() {
        action_domains.push(domain.clone());
        let mut indices = actions_by_name.get(&name.to_string()).cloned().unwrap_or_default();
        indices.push(index);
        actions_by_name.insert(name.to_string(), indices);
    }
    ActionTable { action_domains, actions_by_name }
}

fn names(list: &[&str]) -> Vec<String> {
    list.iter().map(|name| name.to_string()).collect()
}

#[test]
fn test_communication_joins_the_parameter_sorts() {
    let interner = SortInterner::new();
    let (pos, nat, int) = (interner.pos_sort(), interner.nat_sort(), interner.int_sort());
    let actions = table(&[("a", vec![nat]), ("b", vec![pos]), ("c", vec![int])]);
    let result = check_comm_sorts(&interner, &actions, &names(&["a", "b"]), &"c".to_string());
    assert!(result.is_ok());
}

#[test]
fn test_communication_of_unrelated_sorts_is_refused() {
    let interner = SortInterner::new();
    let (boolean, nat) = (interner.bool_sort(), interner.nat_sort());
    let actions = table(&[("a", vec![boolean]), ("b", vec![nat]), ("c", vec![nat])]);
    match check_comm_sorts(&interner, &actions, &names(&["a", "b"]), &"c".to_string()) {
        Err(ProcessError::IncompatibleCommunication { lhs, result, reason }) => {
            assert_eq!(lhs, "a|b");
            assert_eq!(result, "c");
            assert_eq!(reason, Some(SortMismatch::Incompatible { position: 0, lhs: boolean, rhs: nat }));
        }
        other => panic!("expected an incompatible communication, got {other:?}"),
    }
}

#[test]
fn test_communication_with_another_arity_is_refused() {
    let interner = SortInterner::new();
    let nat = interner.nat_sort();
    let actions = table(&[("a", vec![nat]), ("b", vec![nat]), ("c", vec![nat, nat])]);
    match check_comm_sorts(&interner, &actions, &names(&["a", "b"]), &"c".to_string()) {
        Err(ProcessError::IncompatibleCommunication { reason, .. }) => {
            assert_eq!(reason, Some(SortMismatch::Arity { found: 1, expected: 2 }));
        }
        other => panic!("expected an incompatible communication, got {other:?}"),
    }
}

#[test]
fn test_communication_tries_every_overload() {
    let interner = SortInterner::new();
    let (boolean, nat) = (interner.bool_sort(), interner.nat_sort());
    let actions = table(&[("a", vec![boolean]), ("a", vec![nat]), ("b", vec![nat]), ("c", vec![nat])]);
    let result = check_comm_sorts(&interner, &actions, &names(&["a", "b"]), &"c".to_string());
    assert!(result.is_ok());
}

#[test]
fn test_communication_of_an_undeclared_action_has_no_reason() {
    let interner = SortInterner::new();
    let nat = interner.nat_sort();
    let actions = table(&[("a", vec![nat]), ("c", vec![nat])]);
    match check_comm_sorts(&interner, &actions, &names(&["a", "x", "a"]), &"c".to_string()) {
        Err(ProcessError::IncompatibleCommunication { lhs, reason, .. }) => {
            assert_eq!(lhs, "a|x|a");
            assert_eq!(reason, None);
        }
        other => panic!("expected an incompatible communication, got {other:?}"),
    }
}

#[test]
fn test_rename_widens_the_parameters() {
    let interner = SortInterner::new();
    let (pos, nat) = (interner.pos_sort(), interner.nat_sort());
    let actions = table(&[("a", vec![pos]), ("b", vec![nat])]);
    assert!(check_rename_sorts(&interner, &actions, &"a".to_string(), &"b".to_string()).is_ok());
    match check_rename_sorts(&interner, &actions, &"b".to_string(), &"a".to_string()) {
        Err(ProcessError::IncompatibleRename { from, to, reason }) => {
            assert_eq!(from, "b");
            assert_eq!(to, "a");
            assert_eq!(reason, Some(SortMismatch::Incompatible { position: 0, lhs: nat, rhs: pos }));
        }
        other => panic!("expected an incompatible renaming, got {other:?}"),
    }
}

#[test]
fn test_combined_sort_matches_reports_the_first_pair_without_a_join() {
    let interner = SortInterner::new();
    let (boolean, nat, real) = (interner.bool_sort(), interner.nat_sort(), interner.real_sort());
    let actions = table(&[("a", vec![nat, nat]), ("b", vec![nat, boolean]), ("c", vec![real, real])]);
    assert_eq!(
        combined_sort_matches(&interner, &actions, &[0, 1], 2),
        Err(SortMismatch::Incompatible { position: 1, lhs: nat, rhs: boolean })
    );
    assert_eq!(combined_sort_matches(&interner, &actions, &[0, 0], 2), Ok(()));
}
