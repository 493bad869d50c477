//! The predicate variables of random parameterised Boolean equation systems: their names and
//! parameters, as declarations and as the free variables of their right-hand sides.
use vstd::prelude::*;
use rand::rngs::StdRng;
use crate::random::choose_one;
use crate::random::numbered;
use crate::random::numbered_name;
use crate::random::random_inclusive;
use crate::random::take_random;
use crate::sorts::copy_sort_expression;
use crate::sorts::same_sort;
use crate::sorts::IdDecl;
use crate::sorts::Sort;
use crate::sorts::SortDecl;
use crate::sorts::SortExpression;

verus! {

/// The declaration of a predicate variable: its name and its parameters.
#[derive(Debug, PartialEq, Eq)]
pub struct PropVarDecl {
    pub identifier: String,
    pub params: Vec<IdDecl>,
}

/// A predicate variable of a generated equation system: its name and its parameters with their
/// sorts.
#[derive(Debug, PartialEq, Eq)]
pub struct PredVar {
    pub name: String,
    pub params: Vec<(String, SortExpression)>,
}

/// The names that Boolean parameters get.
pub open spec fn is_bool_name(name: Seq<char>) -> bool {
    name == seq!['b'] || name == seq!['c']
}

/// The names that the basic parameters are drawn from: the Boolean ones, after the natural-number
/// ones when those are asked for.
pub open spec fn parameter_pool(use_integers: bool) -> Seq<Seq<char>> {
    if use_integers {
        seq![seq!['m'], seq!['n'], seq!['b'], seq!['c']]
    } else {
        seq![seq!['b'], seq!['c']]
    }
}

/// The sort of a basic parameter follows from its name: `Bool` for a Boolean name, else `Nat`.
pub open spec fn basic_sort(name: Seq<char>) -> SortExpression {
    SortExpression::Simple(if is_bool_name(name) { Sort::Bool } else { Sort::Nat })
}

/// No name occurs twice in the pool.
proof fn lemma_parameter_pool_distinct(use_integers: bool)
    ensures
        parameter_pool(use_integers).no_duplicates(),
{
    let pool = parameter_pool(use_integers);
    assert forall|a: int, b: int| 0 <= a < pool.len() && 0 <= b < pool.len() && a != b implies pool[a] != pool[b] by {
        assert(pool[a][0] != pool[b][0]);
    }
}

/// Whether `name` is one of the Boolean parameter names.
pub fn is_bool_var(name: &str) -> (r: bool)
    ensures
        r == is_bool_name(name@),
{
    let owned = name.to_owned();
    let b = "b".to_owned();
    let c = "c".to_owned();
    proof {
        reveal_strlit("b");
        reveal_strlit("c");
        assert("b"@ =~= seq!['b']);
        assert("c"@ =~= seq!['c']);
    }
    owned == b || owned == c
}

/// The declaration of a variable `name` of sort `sort`.
pub fn as_expr_decl(name: &str, sort: &SortExpression) -> (r: IdDecl)
    ensures
        r.identifier@ == name@,
        same_sort(*sort, r.sort),
{
    IdDecl { identifier: name.to_owned(), sort: copy_sort_expression(sort) }
}

impl PredVar {
    /// The declaration of the predicate variable, with its parameters.
    pub fn to_decl(&self) -> (r: PropVarDecl)
        ensures
            r.identifier == self.name,
            r.params@.len() == self.params@.len(),
            forall|i: int|
                #![trigger r.params@[i]]
                0 <= i < self.params@.len() ==> r.params@[i].identifier == self.params@[i].0
                    && same_sort(self.params@[i].1, r.params@[i].sort),
    {
        let mut params: Vec<IdDecl> = Vec::new();
        let mut i: usize = 0;
        while i < self.params.len()
            invariant
                i <= self.params@.len(),
                params@.len() == i,
                forall|k: int|
                    #![trigger params@[k]]
                    0 <= k < i ==> params@[k].identifier == self.params@[k].0 && same_sort(
                        self.params@[k].1,
                        params@[k].sort,
                    ),
            decreases self.params.len() - i,
        {
            let sort = copy_sort_expression(&self.params[i].1);
            params.push(IdDecl { identifier: self.params[i].0.clone(), sort });
            i = i + 1;
        }
        PropVarDecl { identifier: self.name.clone(), params }
    }

    /// The parameters, as the free variables of the right-hand side of the variable's equation.
    pub fn expr_freevars(&self) -> (r: Vec<IdDecl>)
        ensures
            r@.len() == self.params@.len(),
            forall|i: int|
                #![trigger r@[i]]
                0 <= i < self.params@.len() ==> r@[i].identifier@ == self.params@[i].0@ && same_sort(
                    self.params@[i].1,
                    r@[i].sort,
                ),
    {
        let mut freevars: Vec<IdDecl> = Vec::new();
        let mut i: usize = 0;
        while i < self.params.len()
            invariant
                i <= self.params@.len(),
                freevars@.len() == i,
                forall|k: int|
                    #![trigger freevars@[k]]
                    0 <= k < i ==> freevars@[k].identifier@ == self.params@[k].0@ && same_sort(
                        self.params@[k].1,
                        freevars@[k].sort,
                    ),
            decreases self.params.len() - i,
        {
            freevars.push(as_expr_decl(self.params[i].0.as_str(), &self.params[i].1));
            i = i + 1;
        }
        freevars
    }
}

/// `pred_var` is a predicate variable as [`make_pred_var`] makes them for `index`: named `X`
/// and the index; with up to two basic parameters of distinct names from the pool, each of the
/// sort that its name gives it; and, when there are declared sorts, last a parameter named `rich`
/// and the index, of one of the declared sorts.
pub open spec fn is_generated_pred_var(
    pred_var: PredVar,
    index: nat,
    use_integers: bool,
    sort_decls: Seq<SortDecl>,
) -> bool {
    let params = pred_var.params@;
    let basic = if sort_decls.len() > 0 {
        params.len() - 1
    } else {
        params.len() as int
    };
    &&& pred_var.name@ == numbered_name(seq!['X'], index)
    &&& 0 <= basic <= 2
    &&& forall|i: int|
        #![trigger params[i]]
        0 <= i < basic ==> parameter_pool(use_integers).contains(params[i].0@) && params[i].1
            == basic_sort(params[i].0@)
    &&& forall|i: int, j: int|
        #![trigger params[i], params[j]]
        0 <= i < j < basic ==> params[i].0@ != params[j].0@
    &&& sort_decls.len() > 0 ==> {
        &&& params[basic].0@ == numbered_name(seq!['r', 'i', 'c', 'h'], index)
        &&& exists|d: int|
            0 <= d < sort_decls.len() && params[basic].1 == SortExpression::Reference(
                #[trigger] sort_decls[d].identifier,
            )
    }
}

/// Generates a predicate variable's parameter list: zero to two Boolean or natural-number
/// parameters, plus, when `sort_decls` is non-empty, one parameter of a randomly chosen declared
/// sort.
pub fn make_pred_var(rng: &mut StdRng, index: usize, use_integers: bool, sort_decls: &[SortDecl]) -> (r:
    PredVar)
    ensures
        is_generated_pred_var(r, index as nat, use_integers, sort_decls@),
        exists|size: int| 0 <= size <= 2 && basic_count(r, sort_decls@) == #[trigger] min_count(size, parameter_pool(use_integers).len() as int),
{
    let size = random_inclusive(rng, 0, 2);
    pred_var_of_size(rng, index, use_integers, sort_decls, size)
}

/// The number of basic parameters of `pred_var`: all of them, but for the last one when there
/// are declared sorts.
pub open spec fn basic_count(pred_var: PredVar, sort_decls: Seq<SortDecl>) -> int {
    if sort_decls.len() > 0 {
        pred_var.params@.len() - 1
    } else {
        pred_var.params@.len() as int
    }
}

/// The smaller of `a` and `b`.
pub open spec fn min_count(a: int, b: int) -> int {
    if a <= b {
        a
    } else {
        b
    }
}

/// Makes a predicate variable as [`make_pred_var`] does, with `size` basic parameters drawn from
/// the pool, or all of the pool when it holds fewer.
pub fn pred_var_of_size(
    rng: &mut StdRng,
    index: usize,
    use_integers: bool,
    sort_decls: &[SortDecl],
    size: usize,
) -> (r: PredVar)
    requires
        size <= 2,
    ensures
        is_generated_pred_var(r, index as nat, use_integers, sort_decls@),
        basic_count(r, sort_decls@) == min_count(size as int, parameter_pool(use_integers).len() as int),
{
    let mut pool: Vec<&str> = if use_integers {
        vec!["m", "n", "b", "c"]
    } else {
        vec!["b", "c"]
    };
    proof {
        reveal_strlit("m");
        reveal_strlit("n");
        reveal_strlit("b");
        reveal_strlit("c");
        assert("m"@ =~= seq!['m']);
        assert("n"@ =~= seq!['n']);
        assert("b"@ =~= seq!['b']);
        assert("c"@ =~= seq!['c']);
        assert(pool@.map_values(|name: &str| name@) =~= parameter_pool(use_integers));
        lemma_parameter_pool_distinct(use_integers);
        assert forall|a: int, b: int| 0 <= a < pool@.len() && 0 <= b < pool@.len() && a != b implies pool@[a]@ != pool@[b]@ && pool@[a] != pool@[b] by {
            assert(pool@.map_values(|name: &str| name@)[a] == parameter_pool(use_integers)[a]);
            assert(pool@.map_values(|name: &str| name@)[b] == parameter_pool(use_integers)[b]);
        }
    }
    let ghost start = pool@;
    let names = take_random(rng, &mut pool, size);
    let mut params: Vec<(String, SortExpression)> = Vec::new();
    let mut i: usize = 0;
    while i < names.len()
        invariant
            i <= names@.len(),
            names@.len() <= 2,
            names@.no_duplicates(),
            forall|k: int| 0 <= k < names@.len() ==> start.contains(#[trigger] names@[k]),
            forall|x: &str| #[trigger] start.contains(x) ==> parameter_pool(use_integers).contains(x@),
            forall|a: int, b: int|
                0 <= a < start.len() && 0 <= b < start.len() && a != b ==> start[a]@ != start[b]@,
            params@.len() == i,
            forall|k: int|
                #![trigger params@[k]]
                0 <= k < i ==> params@[k].0@ == names@[k]@ && params@[k].1 == basic_sort(
                    names@[k]@,
                ),
        decreases names.len() - i,
    {
        let name = names[i].to_owned();
        let sort = if is_bool_var(names[i]) {
            Sort::Bool
        } else {
            Sort::Nat
        };
        params.push((name, SortExpression::Simple(sort)));
        i = i + 1;
    }
    proof {
        assert forall|x: &str| #[trigger] start.contains(x) implies parameter_pool(use_integers).contains(x@) by {
            let k = choose|k: int| 0 <= k < start.len() && start[k] == x;
            assert(start.map_values(|name: &str| name@)[k] == x@);
        }
        assert forall|a: int, b: int| 0 <= a < params@.len() && 0 <= b < params@.len() && a != b implies params@[a].0@ != params@[b].0@ by {
            let ka = choose|k: int| 0 <= k < start.len() && start[k] == names@[a];
            let kb = choose|k: int| 0 <= k < start.len() && start[k] == names@[b];
            assert(ka != kb);
        }
    }
    let basic = params.len();
    match choose_one(rng, sort_decls) {
        Some(decl) => {
            let rich = numbered("rich", index);
            proof {
                reveal_strlit("rich");
                let d = choose|d: int| 0 <= d < sort_decls@.len() && sort_decls@[d] == *decl;
                assert(sort_decls@[d].identifier == decl.identifier);
            }
            params.push((rich, SortExpression::Reference(decl.identifier.clone())));
        },
        None => {},
    }
    let name = numbered("X", index);
    proof {
        reveal_strlit("X");
        assert(params@.len() == basic + if sort_decls@.len() > 0 { 1int } else { 0 });
    }
    let r = PredVar { name, params };
    proof {
        assert(start.len() == parameter_pool(use_integers).len());
        let ps = r.params@;
        let b = if sort_decls@.len() > 0 { ps.len() - 1 } else { ps.len() as int };
        assert(r.name@ == numbered_name(seq!['X'], index as nat));
        assert(0 <= b <= 2);
        assert(forall|i: int| 0 <= i < b ==> parameter_pool(use_integers).contains(#[trigger] ps[i].0@));
        assert(forall|i: int| 0 <= i < b ==> #[trigger] ps[i].1 == basic_sort(ps[i].0@));
        assert(forall|i: int, j: int| 0 <= i < j < b ==> #[trigger] ps[i].0@ != #[trigger] ps[j].0@);
        assert(sort_decls@.len() > 0 ==> ps[b].0@ == numbered_name(seq!['r', 'i', 'c', 'h'], index as nat));
    }
    r
}

} // verus!
