use mcrl2_syntax::signature::filter_signature;
use mcrl2_syntax::signature::merge_signatures;
use mcrl2_syntax::signature::push_overload;
use mcrl2_syntax::signature::OverloadTable;
use mcrl2_syntax::signature::PolySortScheme;
use mcrl2_syntax::signature::ResolvedSortId;
use mcrl2_syntax::signature::Signature;
use mcrl2_syntax::signature::TypeVarId;

fn ids(indices: &[usize]) -> Vec<ResolvedSortId> {
    indices.iter().map(|&i| ResolvedSortId::new(i)).collect()
}

fn table(entries: &[(&str, &[usize])]) -> OverloadTable<ResolvedSortId> {
    let mut table = OverloadTable::new();
    for (name, indices) in entries {
        table.insert(name.to_string(), ids(indices));
    }
    table
}

fn scheme(vars: &[usize], sort: usize) -> PolySortScheme {
    PolySortScheme {
        vars: vars.iter().map(|&index| TypeVarId { index }).collect(),
        sort: ResolvedSortId::new(sort),
    }
}

#[test]
fn test_merge_signatures_unions_overloads_by_name() {
    let a = Signature {
        constructors: table(&[("c", &[0])]),
        ..Signature::default()
    };
    let b = Signature {
        constructors: table(&[("@cPair", &[1])]),
        ..Signature::default()
    };
    let merged = merge_signatures(&a, &b);
    assert!(merged.constructors.contains_key("c"));
    assert!(merged.constructors.contains_key("@cPair"));
}

#[test]
fn merge_deduplicates_ground_overloads_and_keeps_order() {
    let a = Signature {
        mappings: table(&[("max", &[3, 4])]),
        ..Signature::default()
    };
    let b = Signature {
        mappings: table(&[("max", &[4, 5, 3, 6]), ("min", &[7])]),
        ..Signature::default()
    };
    let merged = merge_signatures(&a, &b);
    assert_eq!(merged.mappings.get(&"max".to_string()).unwrap(), &ids(&[3, 4, 5, 6]));
    assert_eq!(merged.mappings.get(&"min".to_string()).unwrap(), &ids(&[7]));
    assert_eq!(merged.mappings.len(), 2);
    assert_eq!(merged.constructors.len(), 0);
}

#[test]
fn merge_concatenates_schemes() {
    let mut first = OverloadTable::new();
    first.insert("in".to_string(), vec![scheme(&[0], 1)]);
    let mut second = OverloadTable::new();
    second.insert("in".to_string(), vec![scheme(&[0], 1), scheme(&[2], 3)]);
    let a = Signature { schemes: first, ..Signature::default() };
    let b = Signature { schemes: second, ..Signature::default() };
    let merged = merge_signatures(&a, &b);
    let schemes = merged.schemes.get(&"in".to_string()).unwrap();
    assert_eq!(schemes.len(), 3);
    assert_eq!(schemes[2].sort, ResolvedSortId::new(3));
    assert_eq!(schemes[2].vars, vec![TypeVarId { index: 2 }]);
}

#[test]
fn merge_with_itself_changes_nothing() {
    let a = Signature {
        constructors: table(&[("c", &[0, 1]), ("d", &[2])]),
        mappings: table(&[("f", &[3])]),
        ..Signature::default()
    };
    let merged = merge_signatures(&a, &a);
    assert_eq!(merged.constructors.get(&"c".to_string()).unwrap(), &ids(&[0, 1]));
    assert_eq!(merged.constructors.get(&"d".to_string()).unwrap(), &ids(&[2]));
    assert_eq!(merged.mappings.get(&"f".to_string()).unwrap(), &ids(&[3]));
    assert_eq!(merged.constructors.len(), 2);
}

#[test]
fn filter_keeps_constructors_and_mappings_apart() {
    let signature = Signature {
        constructors: table(&[("a", &[0]), ("b", &[1])]),
        mappings: table(&[("a", &[2]), ("f", &[3])]),
        ..Signature::default()
    };
    let filtered = filter_signature(
        &signature,
        &["a".to_string(), "missing".to_string()],
        &["f".to_string()],
    );
    assert!(filtered.constructors.contains_key("a"));
    assert!(!filtered.constructors.contains_key("b"));
    assert!(!filtered.constructors.contains_key("missing"));
    assert_eq!(filtered.constructors.get(&"a".to_string()).unwrap(), &ids(&[0]));
    assert!(filtered.mappings.contains_key("f"));
    assert!(!filtered.mappings.contains_key("a"));
    assert_eq!(filtered.schemes.len(), 0);
}

#[test]
fn push_overload_skips_a_redeclared_sort() {
    let mut overloads = ids(&[1, 2]);
    push_overload(&mut overloads, ResolvedSortId::new(2));
    assert_eq!(overloads, ids(&[1, 2]));
    push_overload(&mut overloads, ResolvedSortId::new(0));
    assert_eq!(overloads, ids(&[1, 2, 0]));
}

#[test]
fn insert_replaces_the_overloads_of_a_name() {
    let mut t = table(&[("c", &[0])]);
    t.insert("c".to_string(), ids(&[5, 6]));
    assert_eq!(t.len(), 1);
    assert_eq!(t.get(&"c".to_string()).unwrap(), &ids(&[5, 6]));
    assert!(t.get(&"d".to_string()).is_none());
}
