//! The predicate variables of random parameterised real equation systems, whose parameters are
//! all integers.
use vstd::prelude::*;
use rand::rngs::StdRng;
use crate::random::numbered;
use crate::random::numbered_name;
use crate::random::random_inclusive;
use crate::random::take_random;
use crate::random_pbes::PropVarDecl;
use crate::sorts::IdDecl;
use crate::sorts::Sort;
use crate::sorts::SortExpression;

verus! {

/// A predicate variable of a generated real equation system: its name and the names of its
/// integer parameters.
#[derive(Debug, PartialEq, Eq)]
pub struct PredVar {
    pub name: String,
    pub params: Vec<String>,
}

/// The names that parameters are drawn from.
pub open spec fn parameter_pool() -> Seq<Seq<char>> {
    seq![seq!['m'], seq!['n']]
}

/// The declaration of an integer variable `name`.
pub fn as_expr_decl(name: &str) -> (r: IdDecl)
    ensures
        r.identifier@ == name@,
        r.sort == SortExpression::Simple(Sort::Int),
{
    IdDecl { identifier: name.to_owned(), sort: SortExpression::Simple(Sort::Int) }
}

impl PredVar {
    /// The declaration of the predicate variable, with its integer parameters.
    pub fn to_decl(&self) -> (r: PropVarDecl)
        ensures
            r.identifier == self.name,
            r.params@.len() == self.params@.len(),
            forall|i: int|
                #![trigger r.params@[i]]
                0 <= i < self.params@.len() ==> r.params@[i].identifier == self.params@[i]
                    && r.params@[i].sort == SortExpression::Simple(Sort::Int),
    {
        let mut params: Vec<IdDecl> = Vec::new();
        let mut i: usize = 0;
        while i < self.params.len()
            invariant
                i <= self.params@.len(),
                params@.len() == i,
                forall|k: int|
                    #![trigger params@[k]]
                    0 <= k < i ==> params@[k].identifier == self.params@[k] && params@[k].sort
                        == SortExpression::Simple(Sort::Int),
            decreases self.params.len() - i,
        {
            params.push(IdDecl { identifier: self.params[i].clone(), sort: SortExpression::Simple(Sort::Int) });
            i = i + 1;
        }
        PropVarDecl { identifier: self.name.clone(), params }
    }

    /// The parameters, as the free variables of the right-hand side of the variable's equation.
    pub fn expr_freevars(&self) -> (r: Vec<IdDecl>)
        ensures
            r@.len() == self.params@.len(),
            forall|i: int|
                #![trigger r@[i]]
                0 <= i < self.params@.len() ==> r@[i].identifier@ == self.params@[i]@ && r@[i].sort
                    == SortExpression::Simple(Sort::Int),
    {
        let mut freevars: Vec<IdDecl> = Vec::new();
        let mut i: usize = 0;
        while i < self.params.len()
            invariant
                i <= self.params@.len(),
                freevars@.len() == i,
                forall|k: int|
                    #![trigger freevars@[k]]
                    0 <= k < i ==> freevars@[k].identifier@ == self.params@[k]@ && freevars@[k].sort
                        == SortExpression::Simple(Sort::Int),
            decreases self.params.len() - i,
        {
            freevars.push(as_expr_decl(self.params[i].as_str()));
            i = i + 1;
        }
        freevars
    }
}

/// `pred_var` is a predicate variable as [`make_pred_var`] makes them for `index`: named `X` and
/// the index, with up to two parameters of distinct names from the pool.
pub open spec fn is_generated_pred_var(pred_var: PredVar, index: nat) -> bool {
    let params = pred_var.params@;
    &&& pred_var.name@ == numbered_name(seq!['X'], index)
    &&& params.len() <= 2
    &&& forall|i: int| #![trigger params[i]] 0 <= i < params.len() ==> parameter_pool().contains(params[i]@)
    &&& forall|i: int, j: int|
        #![trigger params[i], params[j]]
        0 <= i < j < params.len() ==> params[i]@ != params[j]@
}

/// Generates a predicate variable with zero to two integer parameters.
pub fn make_pred_var(rng: &mut StdRng, index: usize) -> (r: PredVar)
    ensures
        is_generated_pred_var(r, index as nat),
{
    let size = random_inclusive(rng, 0, 2);
    pred_var_of_size(rng, index, size)
}

/// Makes a predicate variable as [`make_pred_var`] does, with exactly `size` parameters.
pub fn pred_var_of_size(rng: &mut StdRng, index: usize, size: usize) -> (r: PredVar)
    requires
        size <= 2,
    ensures
        is_generated_pred_var(r, index as nat),
        r.params@.len() == size,
{
    let mut pool: Vec<&str> = vec!["m", "n"];
    proof {
        reveal_strlit("m");
        reveal_strlit("n");
        assert("m"@ =~= seq!['m']);
        assert("n"@ =~= seq!['n']);
        assert(pool@[0]@[0] != pool@[1]@[0]);
    }
    let ghost start = pool@;
    let names = take_random(rng, &mut pool, size);
    let mut params: Vec<String> = Vec::new();
    let mut i: usize = 0;
    while i < names.len()
        invariant
            i <= names@.len(),
            params@.len() == i,
            forall|k: int| #![trigger params@[k]] 0 <= k < i ==> params@[k]@ == names@[k]@,
        decreases names.len() - i,
    {
        params.push(names[i].to_owned());
        i = i + 1;
    }
    proof {
        assert forall|k: int| 0 <= k < params@.len() implies parameter_pool().contains(#[trigger] params@[k]@) by {
            assert(start.contains(names@[k]));
            let j = choose|j: int| 0 <= j < start.len() && start[j] == names@[k];
            assert(parameter_pool()[j] == start[j]@);
        }
        assert forall|a: int, b: int| 0 <= a < b < params@.len() implies #[trigger] params@[a]@ != #[trigger] params@[b]@ by {
            assert(start.contains(names@[a]));
            assert(start.contains(names@[b]));
            let ja = choose|j: int| 0 <= j < start.len() && start[j] == names@[a];
            let jb = choose|j: int| 0 <= j < start.len() && start[j] == names@[b];
            assert(names@[a] != names@[b]);
            assert(ja != jb);
            assert(start[ja]@[0] != start[jb]@[0]);
        }
    }
    let name = numbered("X", index);
    proof {
        reveal_strlit("X");
    }
    let r = PredVar { name, params };
    proof {
        assert(r.name@ == numbered_name(seq!['X'], index as nat));
        assert(r.params@.len() <= 2);
        assert(forall|i: int| 0 <= i < r.params@.len() ==> parameter_pool().contains(#[trigger] r.params@[i]@));
        assert(forall|i: int, j: int| 0 <= i < j < r.params@.len() ==> #[trigger] r.params@[i]@ != #[trigger] r.params@[j]@);
    }
    r
}

} // verus!
