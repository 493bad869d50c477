//! The well-typedness rule on product sorts: a product sort `A # B` only has meaning as (part of
//! the spine of) the domain of a function sort.
use vstd::prelude::*;
use crate::sorts::ConstructorDecl;
use crate::sorts::SortExpression;

verus! {

/// A violation of the well-typedness rules of a data specification.
#[derive(Debug, PartialEq, Eq)]
pub enum WellTypedError<'a> {
    /// A product sort outside the domain of a function sort: the offending sort.
    ProductSortOutsideFunctionDomain { sort: &'a SortExpression },
}

/// The first product sort of `expr`, in a left-to-right walk that visits a sort before its
/// parts, that does not stand in the domain of a function sort; `None` if there is none.
pub open spec fn misplaced_product(expr: SortExpression) -> Option<SortExpression>
    decreases expr, 0nat,
{
    match expr {
        SortExpression::Product { .. } => Some(expr),
        SortExpression::Function { domain, range } => match misplaced_in_spine(*domain) {
            Some(found) => Some(found),
            None => misplaced_product(*range),
        },
        SortExpression::Complex(_, element) => misplaced_product(*element),
        SortExpression::Struct { inner } => {
            proof {
                assert(decreases_to!(expr => inner));
            }
            misplaced_in_constructors(inner@)
        },
        _ => None,
    }
}

/// The first misplaced product sort in a function domain, whose spine of products separates the
/// argument sorts.
pub open spec fn misplaced_in_spine(expr: SortExpression) -> Option<SortExpression>
    decreases expr, 1nat,
{
    match expr {
        SortExpression::Product { lhs, rhs } => match misplaced_in_spine(*lhs) {
            Some(found) => Some(found),
            None => misplaced_in_spine(*rhs),
        },
        _ => misplaced_product(expr),
    }
}

/// The first misplaced product sort among the field sorts of `constructors`, in order.
pub open spec fn misplaced_in_constructors(constructors: Seq<ConstructorDecl>) -> Option<
    SortExpression,
>
    decreases constructors, 0nat,
{
    if constructors.len() == 0 {
        None
    } else {
        proof {
            assert(decreases_to!(constructors => constructors[0]));
        }
        match misplaced_in_fields(constructors[0].args@) {
            Some(found) => Some(found),
            None => misplaced_in_constructors(constructors.drop_first()),
        }
    }
}

/// The first misplaced product sort among the sorts of `fields`, in order.
pub open spec fn misplaced_in_fields(fields: Seq<(Option<String>, SortExpression)>) -> Option<
    SortExpression,
>
    decreases fields, 0nat,
{
    if fields.len() == 0 {
        None
    } else {
        match misplaced_product(fields[0].1) {
            Some(found) => Some(found),
            None => misplaced_in_fields(fields.drop_first()),
        }
    }
}

/// What a check reports: nothing on success, else the misplaced product it found.
pub open spec fn reports<'a>(r: Result<(), WellTypedError<'a>>, found: Option<SortExpression>) -> bool {
    match r {
        Ok(()) => found is None,
        Err(WellTypedError::ProductSortOutsideFunctionDomain { sort }) => found == Some(*sort),
    }
}

/// Past entries in which nothing is misplaced, the first misplaced product of a list of
/// constructors is that of the rest; the entry at `i` decides it when something in it is.
proof fn lemma_constructors_skip(constructors: Seq<ConstructorDecl>, i: int)
    requires
        0 <= i < constructors.len(),
    ensures
        misplaced_in_constructors(constructors.skip(i)) == match misplaced_in_fields(
            constructors[i].args@,
        ) {
            Some(found) => Some(found),
            None => misplaced_in_constructors(constructors.skip(i + 1)),
        },
{
    assert(constructors.skip(i).drop_first() =~= constructors.skip(i + 1));
    assert(constructors.skip(i)[0] == constructors[i]);
}

/// The same for the fields of one constructor.
proof fn lemma_fields_skip(fields: Seq<(Option<String>, SortExpression)>, j: int)
    requires
        0 <= j < fields.len(),
    ensures
        misplaced_in_fields(fields.skip(j)) == match misplaced_product(fields[j].1) {
            Some(found) => Some(found),
            None => misplaced_in_fields(fields.skip(j + 1)),
        },
{
    assert(fields.skip(j).drop_first() =~= fields.skip(j + 1));
    assert(fields.skip(j)[0] == fields[j]);
}

/// Checks that every product sort in `sort` stands in (the spine of) the domain of a function
/// sort, the only position where `A # B` has meaning; reports the first one that does not.
pub fn check_products_within_domains<'a>(sort: &'a SortExpression) -> (r: Result<(), WellTypedError<'a>>)
    ensures
        reports(r, misplaced_product(*sort)),
    decreases sort, 0nat,
{
    match sort {
        SortExpression::Product { .. } => Err(WellTypedError::ProductSortOutsideFunctionDomain { sort }),
        SortExpression::Function { domain, range } => match check_product_spine(domain) {
            Err(e) => Err(e),
            Ok(()) => check_products_within_domains(range),
        },
        SortExpression::Complex(_, element) => check_products_within_domains(element),
        SortExpression::Struct { inner } => {
            proof {
                assert(inner@.skip(0) =~= inner@);
            }
            let mut i: usize = 0;
            while i < inner.len()
                invariant
                    i <= inner@.len(),
                    *sort == (SortExpression::Struct { inner: *inner }),
                    misplaced_product(*sort) == misplaced_in_constructors(inner@.skip(i as int)),
                decreases inner.len() - i,
            {
                let args = &inner[i].args;
                proof {
                    lemma_constructors_skip(inner@, i as int);
                    assert(args@.skip(0) =~= args@);
                }
                let mut j: usize = 0;
                while j < args.len()
                    invariant
                        i < inner@.len(),
                        j <= args@.len(),
                        *args == inner@[i as int].args,
                        *sort == (SortExpression::Struct { inner: *inner }),
                        misplaced_product(*sort) == match misplaced_in_fields(args@.skip(j as int)) {
                            Some(found) => Some(found),
                            None => misplaced_in_constructors(inner@.skip(i + 1)),
                        },
                    decreases args.len() - j,
                {
                    proof {
                        lemma_fields_skip(args@, j as int);
                        assert(decreases_to!(*sort => *inner));
                        assert(decreases_to!(*inner => inner@));
                        assert(decreases_to!(inner@ => inner@[i as int]));
                        assert(decreases_to!(inner@[i as int] => inner@[i as int].args));
                        assert(decreases_to!(inner@[i as int].args => args@));
                        assert(decreases_to!(args@ => args@[j as int]));
                        assert(decreases_to!(args@[j as int] => args@[j as int].1));
                    }
                    match check_products_within_domains(&args[j].1) {
                        Err(e) => {
                            return Err(e);
                        },
                        Ok(()) => {},
                    }
                    j = j + 1;
                }
                proof {
                    assert(args@.skip(j as int) =~= Seq::<(Option<String>, SortExpression)>::empty());
                }
                i = i + 1;
            }
            proof {
                assert(inner@.skip(i as int) =~= Seq::<ConstructorDecl>::empty());
            }
            Ok(())
        },
        _ => Ok(()),
    }
}

/// Walks the product spine of a function domain, where products separate the argument sorts,
/// and checks the argument sorts.
fn check_product_spine<'a>(sort: &'a SortExpression) -> (r: Result<(), WellTypedError<'a>>)
    ensures
        reports(r, misplaced_in_spine(*sort)),
    decreases sort, 1nat,
{
    match sort {
        SortExpression::Product { lhs, rhs } => match check_product_spine(lhs) {
            Err(e) => Err(e),
            Ok(()) => check_product_spine(rhs),
        },
        _ => check_products_within_domains(sort),
    }
}

/// Whether `sort` can be the sort of a bound variable: it is no product sort, nor holds one
/// outside a function domain.
pub fn is_supported_binder_sort(sort: &SortExpression) -> (r: bool)
    ensures
        r == (misplaced_product(*sort) is None),
{
    check_products_within_domains(sort).is_ok()
}

/// Whatever sort the check reports is a product sort.
pub proof fn law_reported_sort_is_a_product(sort: SortExpression)
    ensures
        misplaced_product(sort) matches Some(found) ==> found is Product,
        misplaced_in_spine(sort) matches Some(found) ==> found is Product,
    decreases sort, 1nat,
{
    match sort {
        SortExpression::Product { lhs, rhs } => {
            law_reported_sort_is_a_product(*lhs);
            law_reported_sort_is_a_product(*rhs);
        },
        SortExpression::Function { domain, range } => {
            law_reported_sort_is_a_product(*domain);
            law_reported_sort_is_a_product(*range);
        },
        SortExpression::Complex(_, element) => {
            law_reported_sort_is_a_product(*element);
        },
        SortExpression::Struct { inner } => {
            assert(decreases_to!(sort => inner));
            lemma_constructors_report_products(inner@);
        },
        _ => {},
    }
}

/// The argument sorts of a function domain: the sorts that its spine of products separates, left
/// to right.
pub open spec fn domain_arguments(domain: SortExpression) -> Seq<SortExpression>
    decreases domain,
{
    match domain {
        SortExpression::Product { lhs, rhs } => domain_arguments(*lhs) + domain_arguments(*rhs),
        _ => seq![domain],
    }
}

/// Nothing is misplaced along a domain's spine exactly when nothing is misplaced in any of its
/// argument sorts.
proof fn lemma_spine_arguments(domain: SortExpression)
    ensures
        misplaced_in_spine(domain) is None <==> forall|i: int|
            0 <= i < domain_arguments(domain).len() ==> misplaced_product(
                #[trigger] domain_arguments(domain)[i],
            ) is None,
    decreases domain,
{
    match domain {
        SortExpression::Product { lhs, rhs } => {
            lemma_spine_arguments(*lhs);
            lemma_spine_arguments(*rhs);
            let left = domain_arguments(*lhs);
            let right = domain_arguments(*rhs);
            if misplaced_in_spine(domain) is None {
                assert forall|i: int| 0 <= i < (left + right).len() implies misplaced_product(
                    #[trigger] (left + right)[i],
                ) is None by {
                    if i < left.len() {
                        assert((left + right)[i] == left[i]);
                    } else {
                        assert((left + right)[i] == right[i - left.len()]);
                    }
                }
            } else {
                if misplaced_in_spine(*lhs) is Some {
                    let i = choose|i: int| 0 <= i < left.len() && misplaced_product(#[trigger] left[i]) is Some;
                    assert((left + right)[i] == left[i]);
                } else {
                    let i = choose|i: int| 0 <= i < right.len() && misplaced_product(#[trigger] right[i]) is Some;
                    assert((left + right)[i + left.len()] == right[i]);
                }
            }
        },
        _ => {
            assert(domain_arguments(domain)[0] == domain);
        },
    }
}

/// A function sort holds no misplaced product exactly when none of the argument sorts of its
/// domain, at whatever position of the spine, and not its range, holds one: every argument sort
/// is checked.
pub proof fn law_function_sorts_check_every_argument(domain: SortExpression, range: SortExpression)
    ensures
        misplaced_product(SortExpression::Function { domain: Box::new(domain), range: Box::new(range) }) is None
            <==> (forall|i: int|
            0 <= i < domain_arguments(domain).len() ==> misplaced_product(
                #[trigger] domain_arguments(domain)[i],
            ) is None) && misplaced_product(range) is None,
{
    lemma_spine_arguments(domain);
}

/// What the walk over constructor fields reports is a product sort.
proof fn lemma_constructors_report_products(constructors: Seq<ConstructorDecl>)
    ensures
        misplaced_in_constructors(constructors) matches Some(found) ==> found is Product,
    decreases constructors, 0nat,
{
    if constructors.len() > 0 {
        assert(decreases_to!(constructors => constructors[0]));
        lemma_fields_report_products(constructors[0].args@);
        lemma_constructors_report_products(constructors.drop_first());
    }
}

/// What the walk over the fields of one constructor reports is a product sort.
proof fn lemma_fields_report_products(fields: Seq<(Option<String>, SortExpression)>)
    ensures
        misplaced_in_fields(fields) matches Some(found) ==> found is Product,
    decreases fields, 0nat,
{
    if fields.len() > 0 {
        law_reported_sort_is_a_product(fields[0].1);
        lemma_fields_report_products(fields.drop_first());
    }
}

} // verus!
