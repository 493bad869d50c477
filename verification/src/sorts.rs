//! Sort expressions and declarations of mCRL2 data specifications, and the subsort order on the
//! number sorts (`Pos <= Nat <= Int <= Real`) and on the finite containers (`FSet <= Set`,
//! `FBag <= Bag`).
use vstd::prelude::*;

verus! {

/// The built-in basic sorts.
#[derive(Clone, Copy, Debug, PartialEq, Eq, Structural)]
pub enum Sort {
    Bool,
    Pos,
    Nat,
    Int,
    Real,
}

/// The built-in container sort constructors.
#[derive(Clone, Copy, Debug, PartialEq, Eq, Structural)]
pub enum ComplexSort {
    List,
    SetSort,
    FSet,
    Bag,
    FBag,
}

/// A sort expression.
#[derive(Debug, PartialEq, Eq)]
pub enum SortExpression {
    /// A basic sort.
    Simple(Sort),
    /// A reference to a declared sort, by name.
    Reference(String),
    /// A structured sort with its constructors.
    Struct { inner: Vec<ConstructorDecl> },
    /// A container of elements of a sort.
    Complex(ComplexSort, Box<SortExpression>),
    /// A function sort.
    Function { domain: Box<SortExpression>, range: Box<SortExpression> },
    /// A product sort, the domain of a function of several arguments.
    Product { lhs: Box<SortExpression>, rhs: Box<SortExpression> },
}

/// A constructor of a structured sort: its name, its fields (each with an optional projection
/// name) and an optional recogniser.
#[derive(Debug, PartialEq, Eq)]
pub struct ConstructorDecl {
    pub name: String,
    pub args: Vec<(Option<String>, SortExpression)>,
    pub recogniser: Option<String>,
}

/// A sort declaration `sort identifier;` or `sort identifier = expr;`.
#[derive(Debug, PartialEq, Eq)]
pub struct SortDecl {
    pub identifier: String,
    pub expr: Option<SortExpression>,
}

/// A declared variable and its sort.
#[derive(Debug, PartialEq, Eq)]
pub struct IdDecl {
    pub identifier: String,
    pub sort: SortExpression,
}

/// `a` and `b` are the same sort expression: the same node on top, and the same parts, where the
/// constructors of a structured sort and their fields are compared one by one.
pub open spec fn same_sort(a: SortExpression, b: SortExpression) -> bool
    decreases a,
{
    match a {
        SortExpression::Simple(sort) => b == SortExpression::Simple(sort),
        SortExpression::Reference(name) => b == SortExpression::Reference(name),
        SortExpression::Struct { inner } => match b {
            SortExpression::Struct { inner: other } => {
                &&& other@.len() == inner@.len()
                &&& forall|i: int|
                    #![trigger inner@[i], other@[i]]
                    0 <= i < inner@.len() ==> {
                        &&& other@[i].name == inner@[i].name
                        &&& other@[i].recogniser == inner@[i].recogniser
                        &&& other@[i].args@.len() == inner@[i].args@.len()
                        &&& forall|j: int|
                            #![trigger inner@[i].args@[j], other@[i].args@[j]]
                            0 <= j < inner@[i].args@.len() ==> other@[i].args@[j].0
                                == inner@[i].args@[j].0 && same_sort(
                                inner@[i].args@[j].1,
                                other@[i].args@[j].1,
                            )
                    }
            },
            _ => false,
        },
        SortExpression::Complex(op, element) => match b {
            SortExpression::Complex(op2, element2) => op2 == op && same_sort(*element, *element2),
            _ => false,
        },
        SortExpression::Function { domain, range } => match b {
            SortExpression::Function { domain: domain2, range: range2 } => same_sort(*domain, *domain2)
                && same_sort(*range, *range2),
            _ => false,
        },
        SortExpression::Product { lhs, rhs } => match b {
            SortExpression::Product { lhs: lhs2, rhs: rhs2 } => same_sort(*lhs, *lhs2) && same_sort(
                *rhs,
                *rhs2,
            ),
            _ => false,
        },
    }
}

/// `b` is the same constructor declaration as `a`, in the sense of [`same_sort`].
pub open spec fn same_constructor(a: ConstructorDecl, b: ConstructorDecl) -> bool {
    &&& b.name == a.name
    &&& b.recogniser == a.recogniser
    &&& b.args@.len() == a.args@.len()
    &&& forall|j: int|
        #![trigger a.args@[j], b.args@[j]]
        0 <= j < a.args@.len() ==> b.args@[j].0 == a.args@[j].0 && same_sort(a.args@[j].1, b.args@[j].1)
}

/// A copy of a sort expression.
pub fn copy_sort_expression(expr: &SortExpression) -> (r: SortExpression)
    ensures
        same_sort(*expr, r),
    decreases expr,
{
    match expr {
        SortExpression::Simple(sort) => SortExpression::Simple(*sort),
        SortExpression::Reference(name) => SortExpression::Reference(name.clone()),
        SortExpression::Struct { inner } => {
            let mut constructors: Vec<ConstructorDecl> = Vec::new();
            let mut i: usize = 0;
            while i < inner.len()
                invariant
                    i <= inner@.len(),
                    *expr == (SortExpression::Struct { inner: *inner }),
                    constructors@.len() == i,
                    forall|k: int|
                        0 <= k < i ==> #[trigger] same_constructor(inner@[k], constructors@[k]),
                decreases inner.len() - i,
            {
                proof {
                    assert(decreases_to!(*expr => expr->inner));
                    assert(decreases_to!(expr->inner => expr->inner@));
                    assert(decreases_to!(expr->inner@ => expr->inner@[i as int]));
                }
                let constructor = copy_constructor(&inner[i]);
                constructors.push(constructor);
                i = i + 1;
            }
            let r = SortExpression::Struct { inner: constructors };
            proof {
                assert forall|k: int| 0 <= k < inner@.len() implies same_constructor(
                    inner@[k],
                    constructors@[k],
                ) by {}
            }
            r
        },
        SortExpression::Complex(op, element) => SortExpression::Complex(
            *op,
            Box::new(copy_sort_expression(element)),
        ),
        SortExpression::Function { domain, range } => SortExpression::Function {
            domain: Box::new(copy_sort_expression(domain)),
            range: Box::new(copy_sort_expression(range)),
        },
        SortExpression::Product { lhs, rhs } => SortExpression::Product {
            lhs: Box::new(copy_sort_expression(lhs)),
            rhs: Box::new(copy_sort_expression(rhs)),
        },
    }
}

/// A copy of a constructor declaration.
pub fn copy_constructor(constructor: &ConstructorDecl) -> (r: ConstructorDecl)
    ensures
        same_constructor(*constructor, r),
    decreases constructor,
{
    let mut args: Vec<(Option<String>, SortExpression)> = Vec::new();
    let mut i: usize = 0;
    while i < constructor.args.len()
        invariant
            i <= constructor.args@.len(),
            args@.len() == i,
            forall|k: int|
                #![trigger args@[k]]
                0 <= k < i ==> args@[k].0 == constructor.args@[k].0 && same_sort(
                    constructor.args@[k].1,
                    args@[k].1,
                ),
        decreases constructor.args.len() - i,
    {
        let projection = match &constructor.args[i].0 {
            Some(name) => Some(name.clone()),
            None => None,
        };
        proof {
            assert(decreases_to!(*constructor => constructor.args));
            assert(decreases_to!(constructor.args => constructor.args@));
            assert(decreases_to!(constructor.args@ => constructor.args@[i as int]));
            assert(decreases_to!(constructor.args@[i as int] => constructor.args@[i as int].1));
        }
        let sort = copy_sort_expression(&constructor.args[i].1);
        args.push((projection, sort));
        i = i + 1;
    }
    let recogniser = match &constructor.recogniser {
        Some(name) => Some(name.clone()),
        None => None,
    };
    ConstructorDecl { name: constructor.name.clone(), args, recogniser }
}

/// Which way along the subsort order to look.
#[derive(Clone, Copy, Debug, PartialEq, Eq, Structural)]
pub enum Direction {
    Super,
    Sub,
}

/// The position of a number sort in `Pos <= Nat <= Int <= Real`.
pub open spec fn spec_number_generality(sort: Sort) -> Option<int> {
    match sort {
        Sort::Pos => Some(0),
        Sort::Nat => Some(1),
        Sort::Int => Some(2),
        Sort::Real => Some(3),
        Sort::Bool => None,
    }
}

/// The number sort at a position of `Pos <= Nat <= Int <= Real`.
pub open spec fn spec_number_sort(generality: int) -> Sort {
    if generality == 0 {
        Sort::Pos
    } else if generality == 1 {
        Sort::Nat
    } else if generality == 2 {
        Sort::Int
    } else {
        Sort::Real
    }
}

/// The position of a number sort in `Pos <= Nat <= Int <= Real`, or `None` for `Bool`.
pub fn number_generality(sort: Sort) -> (r: Option<usize>)
    ensures
        match spec_number_generality(sort) {
            Some(g) => r == Some(g as usize),
            None => r is None,
        },
{
    match sort {
        Sort::Pos => Some(0),
        Sort::Nat => Some(1),
        Sort::Int => Some(2),
        Sort::Real => Some(3),
        Sort::Bool => None,
    }
}

/// The number sort at position `generality` of `Pos <= Nat <= Int <= Real`.
pub fn number_sort_from_generality(generality: usize) -> (r: Sort)
    requires
        generality <= 3,
    ensures
        r == spec_number_sort(generality as int),
{
    if generality == 0 {
        Sort::Pos
    } else if generality == 1 {
        Sort::Nat
    } else if generality == 2 {
        Sort::Int
    } else {
        Sort::Real
    }
}

/// The number sorts strictly above or below `sort`, in ascending distance.
pub open spec fn spec_related_numbers(sort: Sort, direction: Direction) -> Seq<Sort> {
    match spec_number_generality(sort) {
        None => seq![],
        Some(g) => match direction {
            Direction::Super => Seq::new((3 - g) as nat, |i: int| spec_number_sort(g + 1 + i)),
            Direction::Sub => Seq::new(g as nat, |i: int| spec_number_sort(g - 1 - i)),
        },
    }
}

/// The number sorts strictly above or below `sort`, in ascending distance (`Pos` has
/// `[Nat, Int, Real]` above it, `Real` has `[Int, Nat, Pos]` below it).
pub fn related_numbers(sort: Sort, direction: Direction) -> (r: Vec<Sort>)
    ensures
        r@ == spec_related_numbers(sort, direction),
{
    let generality = match number_generality(sort) {
        Some(g) => g,
        None => {
            let empty: Vec<Sort> = Vec::new();
            assert(empty@ =~= spec_related_numbers(sort, direction));
            return empty;
        },
    };
    let mut related: Vec<Sort> = Vec::new();
    match direction {
        Direction::Super => {
            let mut g = generality + 1;
            while g <= 3
                invariant
                    generality + 1 <= g <= 4,
                    generality <= 3,
                    related@ =~= Seq::new((g - generality - 1) as nat, |i: int| spec_number_sort(generality + 1 + i)),
                decreases 4 - g,
            {
                related.push(number_sort_from_generality(g));
                g = g + 1;
            }
        },
        Direction::Sub => {
            let mut g = generality;
            while g > 0
                invariant
                    g <= generality <= 3,
                    related@ =~= Seq::new((generality - g) as nat, |i: int| spec_number_sort(generality - 1 - i)),
                decreases g,
            {
                g = g - 1;
                related.push(number_sort_from_generality(g));
            }
        },
    }
    related
}

/// The container constructor strictly above or below `op` in the finiteness ordering.
pub open spec fn spec_related_container(op: ComplexSort, direction: Direction) -> Option<ComplexSort> {
    match direction {
        Direction::Super => match op {
            ComplexSort::FSet => Some(ComplexSort::SetSort),
            ComplexSort::FBag => Some(ComplexSort::Bag),
            _ => None,
        },
        Direction::Sub => match op {
            ComplexSort::SetSort => Some(ComplexSort::FSet),
            ComplexSort::Bag => Some(ComplexSort::FBag),
            _ => None,
        },
    }
}

/// The container constructor strictly above or below `op` in the finiteness ordering
/// `FSet <= Set`, `FBag <= Bag`.
pub fn related_container(op: ComplexSort, direction: Direction) -> (r: Option<ComplexSort>)
    ensures
        r == spec_related_container(op, direction),
{
    match direction {
        Direction::Super => match op {
            ComplexSort::FSet => Some(ComplexSort::SetSort),
            ComplexSort::FBag => Some(ComplexSort::Bag),
            _ => None,
        },
        Direction::Sub => match op {
            ComplexSort::SetSort => Some(ComplexSort::FSet),
            ComplexSort::Bag => Some(ComplexSort::FBag),
            _ => None,
        },
    }
}

/// The subsort order is the same read either way: `b` is strictly above `a` exactly when `a` is
/// strictly below `b`, for the number sorts and for the containers alike.
pub proof fn law_related_sorts_are_converse(a: Sort, b: Sort, c: ComplexSort, d: ComplexSort)
    ensures
        spec_related_numbers(a, Direction::Super).contains(b) <==> spec_related_numbers(
            b,
            Direction::Sub,
        ).contains(a),
        spec_related_container(c, Direction::Super) == Some(d) <==> spec_related_container(
            d,
            Direction::Sub,
        ) == Some(c),
{
    let up = spec_related_numbers(a, Direction::Super);
    let down = spec_related_numbers(b, Direction::Sub);
    if up.contains(b) {
        let i = choose|i: int| 0 <= i < up.len() && up[i] == b;
        let ga = spec_number_generality(a)->0;
        let gb = spec_number_generality(b)->0;
        assert(down[gb - 1 - ga] == spec_number_sort(ga));
    }
    if down.contains(a) {
        let i = choose|i: int| 0 <= i < down.len() && down[i] == a;
        let ga = spec_number_generality(a)->0;
        let gb = spec_number_generality(b)->0;
        assert(up[gb - ga - 1] == spec_number_sort(gb));
    }
}

} // verus!
