//! Solving sort equality constraints by structural unification over an arena of sorts under
//! inference, with checkpoints to backtrack to.
//!
//! Sorts under inference live in an append-only arena; a unification variable is bound at most
//! once, to another node, and only the bindings take part in checkpoints and rollbacks. Every
//! node stands for a [`SortTerm`]: its structure, with each bound variable replaced by what it is
//! bound to, and each free variable left as a `Variable`.
use vstd::prelude::*;
use crate::interner::law_interned_sorts_are_equal_exactly_when_their_names_are;
use crate::interner::parts_precede;
use crate::interner::same_resolved;
use crate::interner::resolved_term;
use crate::interner::ResolvedSort;
use crate::interner::SortInterner;
use crate::interner::SortTerm;
use crate::signature::ResolvedSortId;
use crate::sorts::ComplexSort;
use crate::sorts::related_container;
use crate::sorts::related_numbers;
use crate::sorts::spec_related_container;
use crate::sorts::spec_related_numbers;
use crate::sorts::Direction;
use crate::sorts::Sort;

verus! {

/// A unification variable.
#[derive(Clone, Copy, Debug, PartialEq, Eq, Structural)]
pub struct SortVar {
    pub index: usize,
}

/// The position of a node in the arena of a [`Unifier`], identifying a sort under inference.
/// Unlike resolved sorts these are not interned: two nodes may stand for the same sort.
#[derive(Clone, Copy, Debug, PartialEq, Eq, Hash, Structural)]
pub struct InferSortId {
    pub index: usize,
}

impl InferSortId {
    /// The node at `index`.
    pub fn new(index: usize) -> (r: Self)
        ensures
            r.index == index,
    {
        InferSortId { index }
    }
}

/// A sort that may still contain unification variables. Fully known sorts appear as a single
/// `Resolved` leaf; structure is only spelled out around the variables still to be solved.
#[derive(Debug)]
pub enum InferSort {
    /// A fully resolved sort, interned in the [`SortInterner`].
    Resolved(ResolvedSortId),
    /// A container sort whose element sort may contain variables.
    Generic { op: ComplexSort, subsort: InferSortId },
    /// A function sort whose argument or result sorts may contain variables.
    Function { domain: Vec<InferSortId>, range: InferSortId },
    /// A unification variable.
    Var(SortVar),
}

/// Node `n`'s parts, and for a bound variable the node it is bound to, are stored and lie below
/// it in `rank`.
pub open spec fn node_ranked(
    arena: Seq<InferSort>,
    bindings: Seq<Option<InferSortId>>,
    rank: Seq<nat>,
    n: int,
) -> bool {
    match arena[n] {
        InferSort::Resolved(_) => true,
        InferSort::Generic { subsort, .. } => subsort.index < arena.len() && rank[subsort.index as int]
            < rank[n],
        InferSort::Function { domain, range } => {
            &&& range.index < arena.len()
            &&& rank[range.index as int] < rank[n]
            &&& forall|i: int|
                0 <= i < domain@.len() ==> (#[trigger] domain@[i]).index < arena.len()
                    && rank[domain@[i].index as int] < rank[n]
        },
        InferSort::Var(var) => var.index < bindings.len() && match bindings[var.index as int] {
            Some(target) => target.index < arena.len() && rank[target.index as int] < rank[n],
            None => true,
        },
    }
}

/// Every node is ranked above its parts and above what it is bound to: the nodes and bindings
/// form no cycle.
pub open spec fn ranked(arena: Seq<InferSort>, bindings: Seq<Option<InferSortId>>, rank: Seq<nat>) -> bool {
    &&& rank.len() == arena.len()
    &&& forall|n: int| #![trigger arena[n]] 0 <= n < arena.len() ==> node_ranked(arena, bindings, rank, n)
}

/// The sort that node `n` stands for, with resolved sorts read from `sorts`.
pub open spec fn denotation(
    arena: Seq<InferSort>,
    bindings: Seq<Option<InferSortId>>,
    rank: Seq<nat>,
    sorts: Seq<ResolvedSort>,
    n: int,
) -> SortTerm
    decreases rank[n],
    when ranked(arena, bindings, rank) && 0 <= n < arena.len()
{
    match arena[n] {
        InferSort::Resolved(resolved) => resolved_term(sorts, resolved.index as int),
        InferSort::Generic { op, subsort } => SortTerm::Container(
            op,
            Box::new(denotation(arena, bindings, rank, sorts, subsort.index as int)),
        ),
        InferSort::Function { domain, range } => SortTerm::Function(
            Seq::new(
                domain@.len(),
                |i: int|
                    if 0 <= i < domain@.len() {
                        denotation(arena, bindings, rank, sorts, domain@[i].index as int)
                    } else {
                        SortTerm::Basic(Sort::Bool)
                    },
            ),
            Box::new(denotation(arena, bindings, rank, sorts, range.index as int)),
        ),
        InferSort::Var(var) => match bindings[var.index as int] {
            Some(target) => denotation(arena, bindings, rank, sorts, target.index as int),
            None => SortTerm::Variable(var.index),
        },
    }
}

/// `term` with every variable that is bound in `bindings` replaced by the sort it stands for.
pub open spec fn instantiate(
    term: SortTerm,
    arena: Seq<InferSort>,
    bindings: Seq<Option<InferSortId>>,
    rank: Seq<nat>,
    sorts: Seq<ResolvedSort>,
) -> SortTerm
    decreases term,
{
    match term {
        SortTerm::Basic(_) => term,
        SortTerm::Container(op, element) => SortTerm::Container(
            op,
            Box::new(instantiate(*element, arena, bindings, rank, sorts)),
        ),
        SortTerm::Function(domain, range) => SortTerm::Function(
            Seq::new(
                domain.len(),
                |i: int|
                    if 0 <= i < domain.len() {
                        instantiate(domain[i], arena, bindings, rank, sorts)
                    } else {
                        SortTerm::Basic(Sort::Bool)
                    },
            ),
            Box::new(instantiate(*range, arena, bindings, rank, sorts)),
        ),
        SortTerm::Variable(var) => if var < bindings.len() && bindings[var as int] is Some {
            denotation(arena, bindings, rank, sorts, bindings[var as int]->0.index as int)
        } else {
            term
        },
    }
}

/// Whether `term` contains the variable `var`.
pub open spec fn mentions(term: SortTerm, var: usize) -> bool
    decreases term,
{
    match term {
        SortTerm::Basic(_) => false,
        SortTerm::Container(_, element) => mentions(*element, var),
        SortTerm::Function(domain, range) => (exists|i: int|
            0 <= i < domain.len() && mentions(#[trigger] domain[i], var)) || mentions(*range, var),
        SortTerm::Variable(other) => other == var,
    }
}

/// Whether the free variable `var` can be reached from node `n` through parts and bindings.
pub open spec fn reaches_var(
    arena: Seq<InferSort>,
    bindings: Seq<Option<InferSortId>>,
    rank: Seq<nat>,
    n: int,
    var: usize,
) -> bool
    decreases rank[n],
    when ranked(arena, bindings, rank) && 0 <= n < arena.len()
{
    match arena[n] {
        InferSort::Resolved(_) => false,
        InferSort::Generic { subsort, .. } => reaches_var(arena, bindings, rank, subsort.index as int, var),
        InferSort::Function { domain, range } => (exists|i: int|
            0 <= i < domain@.len() && reaches_var(arena, bindings, rank, (#[trigger] domain@[i]).index as int, var))
            || reaches_var(arena, bindings, rank, range.index as int, var),
        InferSort::Var(other) => match bindings[other.index as int] {
            Some(target) => reaches_var(arena, bindings, rank, target.index as int, var),
            None => other.index == var,
        },
    }
}

/// `term` has no variable left in it.
pub open spec fn is_ground(term: SortTerm) -> bool
    decreases term,
{
    match term {
        SortTerm::Basic(_) => true,
        SortTerm::Container(_, element) => is_ground(*element),
        SortTerm::Function(domain, range) => (forall|i: int| 0 <= i < domain.len() ==> is_ground(#[trigger] domain[i]))
            && is_ground(*range),
        SortTerm::Variable(_) => false,
    }
}

/// `term` with every variable in it replaced by `default`.
pub open spec fn defaulted(term: SortTerm, default: SortTerm) -> SortTerm
    decreases term,
{
    match term {
        SortTerm::Basic(_) => term,
        SortTerm::Container(op, element) => SortTerm::Container(op, Box::new(defaulted(*element, default))),
        SortTerm::Function(domain, range) => SortTerm::Function(
            Seq::new(
                domain.len(),
                |i: int|
                    if 0 <= i < domain.len() {
                        defaulted(domain[i], default)
                    } else {
                        SortTerm::Basic(Sort::Bool)
                    },
            ),
            Box::new(defaulted(*range, default)),
        ),
        SortTerm::Variable(_) => default,
    }
}

/// A resolved sort has no variable in it, so defaulting leaves it alone.
proof fn lemma_resolved_term_ground(sorts: Seq<ResolvedSort>, n: int, default: SortTerm)
    requires
        parts_precede(sorts),
        0 <= n < sorts.len(),
    ensures
        is_ground(resolved_term(sorts, n)),
        defaulted(resolved_term(sorts, n), default) == resolved_term(sorts, n),
    decreases n,
{
    match sorts[n] {
        ResolvedSort::Primitive(_) => {},
        ResolvedSort::Container { subsort, .. } => {
            lemma_resolved_term_ground(sorts, subsort.index as int, default);
        },
        ResolvedSort::Function { domain, range } => {
            lemma_resolved_term_ground(sorts, range.index as int, default);
            let term = resolved_term(sorts, n);
            assert forall|i: int| 0 <= i < term->Function_0.len() implies is_ground(#[trigger] term->Function_0[i])
                && defaulted(term->Function_0[i], default) == term->Function_0[i] by {
                lemma_resolved_term_ground(sorts, domain@[i].index as int, default);
            }
            assert(defaulted(term, default)->Function_0 =~= term->Function_0);
        },
    }
}

/// The number of free variables.
pub open spec fn free_count(bindings: Seq<Option<InferSortId>>) -> nat
    decreases bindings.len(),
{
    if bindings.len() == 0 {
        0
    } else {
        free_count(bindings.drop_last()) + if bindings.last() is None {
            1nat
        } else {
            0nat
        }
    }
}

/// Binding a free variable takes one off the number of free variables.
proof fn lemma_free_count_bind(bindings: Seq<Option<InferSortId>>, v: int, value: InferSortId)
    requires
        0 <= v < bindings.len(),
        bindings[v] is None,
    ensures
        free_count(bindings.update(v, Some(value))) + 1 == free_count(bindings),
    decreases bindings.len(),
{
    let updated = bindings.update(v, Some(value));
    if v == bindings.len() - 1 {
        assert(updated.drop_last() =~= bindings.drop_last());
    } else {
        assert(updated.drop_last() =~= bindings.drop_last().update(v, Some(value)));
        lemma_free_count_bind(bindings.drop_last(), v, value);
    }
}

/// `later` keeps every binding of `earlier` and may bind more variables or add new ones.
pub open spec fn bindings_extend(earlier: Seq<Option<InferSortId>>, later: Seq<Option<InferSortId>>) -> bool {
    &&& earlier.len() <= later.len()
    &&& forall|v: int| #![trigger earlier[v]] 0 <= v < earlier.len() && earlier[v] is Some ==> later[v] == earlier[v]
}

/// A resolved sort has no variables to instantiate.
proof fn lemma_resolved_term_instantiated(
    sorts: Seq<ResolvedSort>,
    n: int,
    arena: Seq<InferSort>,
    bindings: Seq<Option<InferSortId>>,
    rank: Seq<nat>,
)
    requires
        parts_precede(sorts),
        0 <= n < sorts.len(),
    ensures
        instantiate(resolved_term(sorts, n), arena, bindings, rank, sorts) == resolved_term(sorts, n),
    decreases n,
{
    match sorts[n] {
        ResolvedSort::Primitive(_) => {},
        ResolvedSort::Container { subsort, .. } => {
            lemma_resolved_term_instantiated(sorts, subsort.index as int, arena, bindings, rank);
        },
        ResolvedSort::Function { domain, range } => {
            lemma_resolved_term_instantiated(sorts, range.index as int, arena, bindings, rank);
            let term = resolved_term(sorts, n);
            assert forall|i: int| 0 <= i < domain@.len() implies instantiate(
                #[trigger] term->Function_0[i],
                arena,
                bindings,
                rank,
                sorts,
            ) == term->Function_0[i] by {
                lemma_resolved_term_instantiated(sorts, domain@[i].index as int, arena, bindings, rank);
            }
            assert(instantiate(term, arena, bindings, rank, sorts)->Function_0 =~= term->Function_0);
        },
    }
}

/// A resolved sort mentions no variable.
proof fn lemma_resolved_term_mentions_nothing(sorts: Seq<ResolvedSort>, n: int, var: usize)
    requires
        parts_precede(sorts),
        0 <= n < sorts.len(),
    ensures
        !mentions(resolved_term(sorts, n), var),
    decreases n,
{
    match sorts[n] {
        ResolvedSort::Primitive(_) => {},
        ResolvedSort::Container { subsort, .. } => {
            lemma_resolved_term_mentions_nothing(sorts, subsort.index as int, var);
        },
        ResolvedSort::Function { domain, range } => {
            lemma_resolved_term_mentions_nothing(sorts, range.index as int, var);
            let term = resolved_term(sorts, n);
            assert forall|i: int| 0 <= i < term->Function_0.len() implies !mentions(
                #[trigger] term->Function_0[i],
                var,
            ) by {
                lemma_resolved_term_mentions_nothing(sorts, domain@[i].index as int, var);
            }
        },
    }
}

/// Extending the arena and the bindings instantiates what every earlier node stands for with the
/// new bindings.
proof fn lemma_denotation_extends(
    arena: Seq<InferSort>,
    bindings: Seq<Option<InferSortId>>,
    rank: Seq<nat>,
    arena2: Seq<InferSort>,
    bindings2: Seq<Option<InferSortId>>,
    rank2: Seq<nat>,
    sorts: Seq<ResolvedSort>,
    n: int,
)
    requires
        ranked(arena, bindings, rank),
        ranked(arena2, bindings2, rank2),
        parts_precede(sorts),
        arena.len() <= arena2.len(),
        arena2.take(arena.len() as int) == arena,
        bindings_extend(bindings, bindings2),
        0 <= n < arena.len(),
        forall|m: int|
            0 <= m < arena.len() ==> (#[trigger] arena[m] matches InferSort::Resolved(resolved) ==> resolved.index
                < sorts.len()),
    ensures
        denotation(arena2, bindings2, rank2, sorts, n) == instantiate(
            denotation(arena, bindings, rank, sorts, n),
            arena2,
            bindings2,
            rank2,
            sorts,
        ),
    decreases rank[n],
{
    assert(arena2[n] == arena[n]) by {
        assert(arena2.take(arena.len() as int)[n] == arena2[n]);
    }
    assert(node_ranked(arena, bindings, rank, n));
    assert(node_ranked(arena2, bindings2, rank2, n));
    match arena[n] {
        InferSort::Resolved(resolved) => {
            lemma_resolved_term_instantiated(sorts, resolved.index as int, arena2, bindings2, rank2);
        },
        InferSort::Generic { subsort, .. } => {
            lemma_denotation_extends(arena, bindings, rank, arena2, bindings2, rank2, sorts, subsort.index as int);
        },
        InferSort::Function { domain, range } => {
            lemma_denotation_extends(arena, bindings, rank, arena2, bindings2, rank2, sorts, range.index as int);
            let before = denotation(arena, bindings, rank, sorts, n);
            let after = denotation(arena2, bindings2, rank2, sorts, n);
            assert forall|i: int| 0 <= i < domain@.len() implies #[trigger] after->Function_0[i] == instantiate(
                before->Function_0[i],
                arena2,
                bindings2,
                rank2,
                sorts,
            ) by {
                lemma_denotation_extends(arena, bindings, rank, arena2, bindings2, rank2, sorts, domain@[i].index as int);
            }
            assert(after->Function_0 =~= instantiate(before, arena2, bindings2, rank2, sorts)->Function_0);
        },
        InferSort::Var(var) => {
            match bindings[var.index as int] {
                Some(target) => {
                    assert(bindings2[var.index as int] == bindings[var.index as int]);
                    lemma_denotation_extends(arena, bindings, rank, arena2, bindings2, rank2, sorts, target.index as int);
                },
                None => {},
            }
        },
    }
}

/// With the same bindings, a longer arena leaves what every earlier node stands for unchanged.
proof fn lemma_denotation_grows(
    arena: Seq<InferSort>,
    bindings: Seq<Option<InferSortId>>,
    rank: Seq<nat>,
    arena2: Seq<InferSort>,
    bindings2: Seq<Option<InferSortId>>,
    rank2: Seq<nat>,
    sorts: Seq<ResolvedSort>,
    n: int,
)
    requires
        ranked(arena, bindings, rank),
        ranked(arena2, bindings2, rank2),
        arena.len() <= arena2.len(),
        arena2.take(arena.len() as int) == arena,
        bindings.len() <= bindings2.len(),
        bindings2.take(bindings.len() as int) == bindings,
        0 <= n < arena.len(),
    ensures
        denotation(arena2, bindings2, rank2, sorts, n) == denotation(arena, bindings, rank, sorts, n),
    decreases rank[n],
{
    assert(arena2[n] == arena[n]) by {
        assert(arena2.take(arena.len() as int)[n] == arena2[n]);
    }
    assert(node_ranked(arena, bindings, rank, n));
    assert(node_ranked(arena2, bindings2, rank2, n));
    match arena[n] {
        InferSort::Resolved(_) => {},
        InferSort::Generic { subsort, .. } => {
            lemma_denotation_grows(arena, bindings, rank, arena2, bindings2, rank2, sorts, subsort.index as int);
        },
        InferSort::Function { domain, range } => {
            lemma_denotation_grows(arena, bindings, rank, arena2, bindings2, rank2, sorts, range.index as int);
            let before = denotation(arena, bindings, rank, sorts, n);
            let after = denotation(arena2, bindings2, rank2, sorts, n);
            assert forall|i: int| 0 <= i < domain@.len() implies #[trigger] after->Function_0[i]
                == before->Function_0[i] by {
                lemma_denotation_grows(arena, bindings, rank, arena2, bindings2, rank2, sorts, domain@[i].index as int);
            }
            assert(after->Function_0 =~= before->Function_0);
        },
        InferSort::Var(var) => {
            assert(bindings2[var.index as int] == bindings[var.index as int]) by {
                assert(bindings2.take(bindings.len() as int)[var.index as int] == bindings2[var.index as int]);
            }
            match bindings[var.index as int] {
                Some(target) => {
                    lemma_denotation_grows(arena, bindings, rank, arena2, bindings2, rank2, sorts, target.index as int);
                },
                None => {},
            }
        },
    }
}

/// `term` with every variable `v` in it replaced by the sort `sigma(v)`.
pub open spec fn substitute(term: SortTerm, sigma: spec_fn(usize) -> SortTerm) -> SortTerm
    decreases term,
{
    match term {
        SortTerm::Basic(_) => term,
        SortTerm::Container(op, element) => SortTerm::Container(op, Box::new(substitute(*element, sigma))),
        SortTerm::Function(domain, range) => SortTerm::Function(
            Seq::new(
                domain.len(),
                |i: int|
                    if 0 <= i < domain.len() {
                        substitute(domain[i], sigma)
                    } else {
                        SortTerm::Basic(Sort::Bool)
                    },
            ),
            Box::new(substitute(*range, sigma)),
        ),
        SortTerm::Variable(var) => sigma(var),
    }
}

/// Replacing the variables by the sorts that `sigma` gives them makes `a` and `b` the same sort.
pub open spec fn solves(sigma: spec_fn(usize) -> SortTerm, a: SortTerm, b: SortTerm) -> bool {
    substitute(a, sigma) == substitute(b, sigma)
}

/// Some replacement of the variables by sorts makes `a` and `b` the same sort.
pub open spec fn unifiable(a: SortTerm, b: SortTerm) -> bool {
    exists|sigma: spec_fn(usize) -> SortTerm| #[trigger] solves(sigma, a, b)
}

/// How deeply containers and functions nest in `term`.
pub open spec fn height(term: SortTerm) -> nat
    decreases term, 0nat,
{
    match term {
        SortTerm::Container(_, element) => height(*element) + 1,
        SortTerm::Function(domain, range) => {
            proof {
                assert(decreases_to!(term => domain));
            }
            let below = domain_height(domain, domain.len());
            (if height(*range) < below {
                below
            } else {
                height(*range)
            }) + 1
        },
        _ => 0,
    }
}

/// The greatest height among the first `k` sorts of `domain`.
pub open spec fn domain_height(domain: Seq<SortTerm>, k: nat) -> nat
    decreases domain, k,
{
    if k == 0 || k > domain.len() {
        0
    } else {
        proof {
            assert(decreases_to!(domain => domain[k - 1]));
        }
        let last = height(domain[k - 1]);
        let rest = domain_height(domain, (k - 1) as nat);
        if last < rest {
            rest
        } else {
            last
        }
    }
}

/// Each of the first `k` sorts of `domain` is at most as high as `domain_height(domain, k)`.
proof fn lemma_domain_height_bound(domain: Seq<SortTerm>, k: nat, i: int)
    requires
        0 <= i < k <= domain.len(),
    ensures
        height(domain[i]) <= domain_height(domain, k),
    decreases k,
{
    if i < k - 1 {
        lemma_domain_height_bound(domain, (k - 1) as nat, i);
    }
}

/// Where `term` mentions `var`, replacing the variables puts `sigma(var)` inside the result, and
/// strictly inside it unless `term` is that variable.
proof fn lemma_mentions_height(term: SortTerm, var: usize, sigma: spec_fn(usize) -> SortTerm)
    requires
        mentions(term, var),
    ensures
        height(sigma(var)) <= height(substitute(term, sigma)),
        !(term is Variable) ==> height(sigma(var)) < height(substitute(term, sigma)),
    decreases term,
{
    match term {
        SortTerm::Container(_, element) => {
            lemma_mentions_height(*element, var, sigma);
        },
        SortTerm::Function(domain, range) => {
            let image = substitute(term, sigma);
            if mentions(*range, var) {
                lemma_mentions_height(*range, var, sigma);
            } else {
                let i = choose|i: int| 0 <= i < domain.len() && mentions(#[trigger] domain[i], var);
                assert(decreases_to!(term => domain));
                assert(decreases_to!(domain => domain[i]));
                lemma_mentions_height(domain[i], var, sigma);
                assert(image->Function_0[i] == substitute(domain[i], sigma));
                lemma_domain_height_bound(image->Function_0, image->Function_0.len(), i);
            }
        },
        _ => {},
    }
}

/// A resolved sort has no variables for `sigma` to replace.
proof fn lemma_substitute_resolved(sorts: Seq<ResolvedSort>, n: int, sigma: spec_fn(usize) -> SortTerm)
    requires
        parts_precede(sorts),
        0 <= n < sorts.len(),
    ensures
        substitute(resolved_term(sorts, n), sigma) == resolved_term(sorts, n),
        !(resolved_term(sorts, n) is Variable),
    decreases n,
{
    match sorts[n] {
        ResolvedSort::Primitive(_) => {},
        ResolvedSort::Container { subsort, .. } => {
            lemma_substitute_resolved(sorts, subsort.index as int, sigma);
        },
        ResolvedSort::Function { domain, range } => {
            lemma_substitute_resolved(sorts, range.index as int, sigma);
            let term = resolved_term(sorts, n);
            assert forall|i: int| 0 <= i < domain@.len() implies substitute(#[trigger] term->Function_0[i], sigma)
                == term->Function_0[i] by {
                lemma_substitute_resolved(sorts, domain@[i].index as int, sigma);
            }
            assert(substitute(term, sigma)->Function_0 =~= term->Function_0);
        },
    }
}

/// A stored sort has no variables for `sigma` to replace.
pub proof fn lemma_substitute_stored(interner: SortInterner, id: ResolvedSortId, sigma: spec_fn(usize) -> SortTerm)
    requires
        interner.well_formed(),
        interner.contains(id),
    ensures
        substitute(interner.term(id), sigma) == interner.term(id),
{
    interner.lemma_parts_precede();
    lemma_substitute_resolved(interner.nodes(), id.index as int, sigma);
}

/// Instantiating the bound variables is replacing each variable by what it instantiates to.
proof fn lemma_instantiate_substitutes(
    term: SortTerm,
    arena: Seq<InferSort>,
    bindings: Seq<Option<InferSortId>>,
    rank: Seq<nat>,
    sorts: Seq<ResolvedSort>,
)
    ensures
        instantiate(term, arena, bindings, rank, sorts) == substitute(
            term,
            |v: usize| instantiate(SortTerm::Variable(v), arena, bindings, rank, sorts),
        ),
    decreases term,
{
    let sigma = |v: usize| instantiate(SortTerm::Variable(v), arena, bindings, rank, sorts);
    match term {
        SortTerm::Container(_, element) => {
            lemma_instantiate_substitutes(*element, arena, bindings, rank, sorts);
        },
        SortTerm::Function(domain, range) => {
            lemma_instantiate_substitutes(*range, arena, bindings, rank, sorts);
            assert forall|i: int| 0 <= i < domain.len() implies instantiate(#[trigger] domain[i], arena, bindings, rank, sorts)
                == substitute(domain[i], sigma) by {
                assert(decreases_to!(term => domain));
                assert(decreases_to!(domain => domain[i]));
                lemma_instantiate_substitutes(domain[i], arena, bindings, rank, sorts);
            }
            assert(instantiate(term, arena, bindings, rank, sorts)->Function_0 =~= substitute(term, sigma)->Function_0);
        },
        _ => {},
    }
}

/// The free variable `var` can be reached from node `n` exactly when the sort `n` stands for
/// mentions it.
proof fn lemma_reaches_mentions(
    arena: Seq<InferSort>,
    bindings: Seq<Option<InferSortId>>,
    rank: Seq<nat>,
    sorts: Seq<ResolvedSort>,
    n: int,
    var: usize,
)
    requires
        ranked(arena, bindings, rank),
        parts_precede(sorts),
        forall|m: int|
            0 <= m < arena.len() ==> (#[trigger] arena[m] matches InferSort::Resolved(resolved) ==> resolved.index
                < sorts.len()),
        0 <= n < arena.len(),
    ensures
        reaches_var(arena, bindings, rank, n, var) == mentions(denotation(arena, bindings, rank, sorts, n), var),
    decreases rank[n],
{
    assert(node_ranked(arena, bindings, rank, n));
    match arena[n] {
        InferSort::Resolved(resolved) => {
            lemma_resolved_term_mentions_nothing(sorts, resolved.index as int, var);
        },
        InferSort::Generic { subsort, .. } => {
            lemma_reaches_mentions(arena, bindings, rank, sorts, subsort.index as int, var);
        },
        InferSort::Function { domain, range } => {
            lemma_reaches_mentions(arena, bindings, rank, sorts, range.index as int, var);
            let term = denotation(arena, bindings, rank, sorts, n);
            assert forall|i: int| 0 <= i < domain@.len() implies reaches_var(arena, bindings, rank, (#[trigger] domain@[i]).index as int, var)
                == mentions(term->Function_0[i], var) by {
                lemma_reaches_mentions(arena, bindings, rank, sorts, domain@[i].index as int, var);
            }
            if reaches_var(arena, bindings, rank, n, var) && !reaches_var(arena, bindings, rank, range.index as int, var) {
                let i = choose|i: int| 0 <= i < domain@.len() && reaches_var(arena, bindings, rank, (#[trigger] domain@[i]).index as int, var);
                assert(mentions(term->Function_0[i], var));
            }
            if mentions(term, var) && !mentions(*term->Function_1, var) {
                let i = choose|i: int| 0 <= i < term->Function_0.len() && mentions(#[trigger] term->Function_0[i], var);
                assert(reaches_var(arena, bindings, rank, domain@[i].index as int, var));
            }
        },
        InferSort::Var(other) => {
            match bindings[other.index as int] {
                Some(target) => {
                    lemma_reaches_mentions(arena, bindings, rank, sorts, target.index as int, var);
                },
                None => {},
            }
        },
    }
}

/// Binding the free variable `var` to the node `value` changes what no node stands for once
/// `sigma` replaces the variables, when `sigma` already gives `var` the sort `value` stands for.
proof fn lemma_bind_keeps_solution(
    arena: Seq<InferSort>,
    bindings: Seq<Option<InferSortId>>,
    rank: Seq<nat>,
    bindings2: Seq<Option<InferSortId>>,
    rank2: Seq<nat>,
    sorts: Seq<ResolvedSort>,
    var: usize,
    value: InferSortId,
    sigma: spec_fn(usize) -> SortTerm,
    n: int,
)
    requires
        ranked(arena, bindings, rank),
        ranked(arena, bindings2, rank2),
        parts_precede(sorts),
        forall|m: int|
            0 <= m < arena.len() ==> (#[trigger] arena[m] matches InferSort::Resolved(resolved) ==> resolved.index
                < sorts.len()),
        var < bindings.len(),
        bindings[var as int] is None,
        bindings2 == bindings.update(var as int, Some(value)),
        value.index < arena.len(),
        sigma(var) == substitute(denotation(arena, bindings, rank, sorts, value.index as int), sigma),
        0 <= n < arena.len(),
    ensures
        substitute(denotation(arena, bindings2, rank2, sorts, n), sigma) == substitute(
            denotation(arena, bindings, rank, sorts, n),
            sigma,
        ),
    decreases rank2[n],
{
    assert(node_ranked(arena, bindings, rank, n));
    assert(node_ranked(arena, bindings2, rank2, n));
    match arena[n] {
        InferSort::Resolved(_) => {},
        InferSort::Generic { subsort, .. } => {
            lemma_bind_keeps_solution(arena, bindings, rank, bindings2, rank2, sorts, var, value, sigma, subsort.index as int);
        },
        InferSort::Function { domain, range } => {
            lemma_bind_keeps_solution(arena, bindings, rank, bindings2, rank2, sorts, var, value, sigma, range.index as int);
            let before = substitute(denotation(arena, bindings, rank, sorts, n), sigma);
            let after = substitute(denotation(arena, bindings2, rank2, sorts, n), sigma);
            assert forall|i: int| 0 <= i < domain@.len() implies #[trigger] after->Function_0[i] == before->Function_0[i] by {
                lemma_bind_keeps_solution(arena, bindings, rank, bindings2, rank2, sorts, var, value, sigma, domain@[i].index as int);
            }
            assert(after->Function_0 =~= before->Function_0);
        },
        InferSort::Var(other) => {
            if other.index == var {
                lemma_bind_keeps_solution(arena, bindings, rank, bindings2, rank2, sorts, var, value, sigma, value.index as int);
            } else {
                match bindings[other.index as int] {
                    Some(target) => {
                        lemma_bind_keeps_solution(arena, bindings, rank, bindings2, rank2, sorts, var, value, sigma, target.index as int);
                    },
                    None => {},
                }
            }
        },
    }
}

/// Replacing the variables keeps the outermost shape of a sort that is no variable.
proof fn lemma_substitute_head(term: SortTerm, sigma: spec_fn(usize) -> SortTerm)
    ensures
        term is Basic ==> substitute(term, sigma) == term,
        term is Container ==> substitute(term, sigma) is Container && substitute(term, sigma)->Container_0
            == term->Container_0 && *substitute(term, sigma)->Container_1 == substitute(*term->Container_1, sigma),
        term is Function ==> substitute(term, sigma) is Function && substitute(term, sigma)->Function_0.len()
            == term->Function_0.len() && *substitute(term, sigma)->Function_1 == substitute(*term->Function_1, sigma)
            && forall|i: int|
            0 <= i < term->Function_0.len() ==> #[trigger] substitute(term, sigma)->Function_0[i] == substitute(
                term->Function_0[i],
                sigma,
            ),
{
}

/// `copy` is a copy of the node `node`.
pub open spec fn copied_node(node: InferSort, copy: InferSort) -> bool {
    match node {
        InferSort::Function { domain, range } => copy matches InferSort::Function { domain: domain2, range: range2 }
            && domain2@ == domain@ && range2 == range,
        _ => copy == node,
    }
}

/// The element sort of the stored sort `id` when that is a container of kind `op`.
fn container_element(interner: &SortInterner, id: ResolvedSortId, op: ComplexSort) -> (r: Option<ResolvedSortId>)
    requires
        interner.well_formed(),
        interner.contains(id),
    ensures
        match r {
            Some(element) => interner.nodes()[id.index as int] == (ResolvedSort::Container { op, subsort: element }),
            None => !(interner.nodes()[id.index as int] matches ResolvedSort::Container { op: other, .. } && other == op),
        },
{
    match interner.get(id) {
        ResolvedSort::Container { op: other, subsort } => {
            if *other == op {
                Some(*subsort)
            } else {
                None
            }
        },
        _ => None,
    }
}

/// The argument and result sorts of the stored sort `id` when that is a function sort of `arity`
/// arguments.
fn function_parts(interner: &SortInterner, id: ResolvedSortId, arity: usize) -> (r: Option<(Vec<ResolvedSortId>, ResolvedSortId)>)
    requires
        interner.well_formed(),
        interner.contains(id),
    ensures
        match r {
            Some((domain, range)) => interner.nodes()[id.index as int] matches ResolvedSort::Function { domain: stored, range: stored_range }
                && stored@ == domain@ && stored_range == range && domain@.len() == arity,
            None => !(interner.nodes()[id.index as int] matches ResolvedSort::Function { domain: stored, .. } && stored@.len() == arity),
        },
{
    match interner.get(id) {
        ResolvedSort::Function { domain, range } => {
            if domain.len() != arity {
                return None;
            }
            let mut copy: Vec<ResolvedSortId> = Vec::new();
            let mut i: usize = 0;
            while i < domain.len()
                invariant
                    i <= domain@.len(),
                    copy@ == domain@.take(i as int),
                decreases domain.len() - i,
            {
                copy.push(domain[i]);
                i = i + 1;
            }
            assert(copy@ =~= domain@);
            Some((copy, *range))
        },
        _ => None,
    }
}

/// A copy of the stored sort `id`.
fn copy_resolved(interner: &SortInterner, id: ResolvedSortId) -> (r: ResolvedSort)
    requires
        interner.contains(id),
    ensures
        same_resolved(interner.nodes()[id.index as int], r),
{
    match interner.get(id) {
        ResolvedSort::Primitive(sort) => ResolvedSort::Primitive(*sort),
        ResolvedSort::Container { op, subsort } => ResolvedSort::Container { op: *op, subsort: *subsort },
        ResolvedSort::Function { domain, range } => {
            let mut copy: Vec<ResolvedSortId> = Vec::new();
            let mut i: usize = 0;
            while i < domain.len()
                invariant
                    i <= domain@.len(),
                    copy@ == domain@.take(i as int),
                decreases domain.len() - i,
            {
                copy.push(domain[i]);
                i = i + 1;
            }
            assert(copy@ =~= domain@);
            ResolvedSort::Function { domain: copy, range: *range }
        },
    }
}

/// The sorts strictly above or below `term` in the subsort order, nearest first: only its head is
/// widened or narrowed, a number sort along `Pos <= Nat <= Int <= Real` and a container along
/// `FSet <= Set`, `FBag <= Bag`.
pub open spec fn related_terms(term: SortTerm, direction: Direction) -> Seq<SortTerm> {
    match term {
        SortTerm::Basic(sort) => spec_related_numbers(sort, direction).map_values(|other: Sort| SortTerm::Basic(other)),
        SortTerm::Container(op, element) => match spec_related_container(op, direction) {
            Some(other) => seq![SortTerm::Container(other, element)],
            None => Seq::empty(),
        },
        _ => Seq::empty(),
    }
}

/// Replacing variables leaves a term without variables alone.
pub proof fn lemma_substitute_ground(term: SortTerm, sigma: spec_fn(usize) -> SortTerm)
    requires
        is_ground(term),
    ensures
        substitute(term, sigma) == term,
    decreases term,
{
    match term {
        SortTerm::Basic(_) => {},
        SortTerm::Container(_, element) => {
            lemma_substitute_ground(*element, sigma);
        },
        SortTerm::Function(domain, range) => {
            lemma_substitute_ground(*range, sigma);
            assert forall|i: int| 0 <= i < domain.len() implies substitute(#[trigger] domain[i], sigma) == domain[i] by {
                lemma_substitute_ground(domain[i], sigma);
            }
            assert(substitute(term, sigma)->Function_0 =~= domain);
        },
        SortTerm::Variable(_) => {},
    }
}

/// A stored sort has no variable in it.
pub proof fn lemma_stored_ground(interner: SortInterner, id: ResolvedSortId)
    requires
        interner.well_formed(),
        interner.contains(id),
    ensures
        is_ground(interner.term(id)),
{
    interner.lemma_parts_precede();
    lemma_resolved_term_ground(interner.nodes(), id.index as int, SortTerm::Basic(Sort::Bool));
}

/// The sorts next to a sort without variables have none either.
pub proof fn lemma_related_ground(term: SortTerm, direction: Direction)
    requires
        is_ground(term),
    ensures
        forall|d: int| 0 <= d < related_terms(term, direction).len() ==> is_ground(#[trigger] related_terms(term, direction)[d]),
{
}

/// The sum of the ranks, above that of every node.
pub open spec fn rank_sum(rank: Seq<nat>) -> nat
    decreases rank.len(),
{
    if rank.len() == 0 {
        0
    } else {
        rank_sum(rank.drop_last()) + rank.last()
    }
}

proof fn lemma_rank_sum_bounds(rank: Seq<nat>, i: int)
    requires
        0 <= i < rank.len(),
    ensures
        rank[i] <= rank_sum(rank),
    decreases rank.len(),
{
    if i < rank.len() - 1 {
        lemma_rank_sum_bounds(rank.drop_last(), i);
    }
}

/// The log of bindings holds each bound variable once, with what it is bound to, and nothing
/// else.
pub open spec fn log_matches(log: Seq<(SortVar, InferSortId)>, bindings: Seq<Option<InferSortId>>) -> bool {
    &&& forall|k: int|
        #![trigger log[k]]
        0 <= k < log.len() ==> log[k].0.index < bindings.len() && bindings[log[k].0.index as int]
            == Some(log[k].1)
    &&& forall|k: int, l: int| #![trigger log[k], log[l]] 0 <= k < l < log.len() ==> log[k].0 != log[l].0
    &&& forall|v: int|
        #![trigger bindings[v]]
        0 <= v < bindings.len() && bindings[v] is Some ==> exists|k: int|
            0 <= k < log.len() && (#[trigger] log[k]).0.index == v
}

/// A checkpoint of the bindings of a [`Unifier`], for backtracking.
pub struct UnifierSnapshot {
    bound: usize,
    variables: usize,
    log: Ghost<Seq<(SortVar, InferSortId)>>,
    bindings: Ghost<Seq<Option<InferSortId>>>,
}

impl UnifierSnapshot {
    /// The bindings at the checkpoint.
    pub closed spec fn bindings(&self) -> Seq<Option<InferSortId>> {
        self.bindings@
    }

    /// The bindings made up to the checkpoint, oldest first.
    pub closed spec fn history(&self) -> Seq<(SortVar, InferSortId)> {
        self.log@
    }

    /// The log recorded at the checkpoint records exactly the bindings recorded there.
    pub closed spec fn consistent(&self) -> bool {
        &&& log_matches(self.log@, self.bindings@)
        &&& self.bindings@.len() == self.variables
        &&& self.log@.len() == self.bound
    }
}

/// Two lists of bindings that one log records exactly, for as many variables, are the same.
proof fn lemma_log_determines_bindings(
    log: Seq<(SortVar, InferSortId)>,
    first: Seq<Option<InferSortId>>,
    second: Seq<Option<InferSortId>>,
)
    requires
        log_matches(log, first),
        log_matches(log, second),
        first.len() == second.len(),
    ensures
        first == second,
{
    assert forall|v: int| 0 <= v < first.len() implies first[v] == second[v] by {
        if first[v] is Some {
            let k = choose|k: int| 0 <= k < log.len() && (#[trigger] log[k]).0.index == v;
            assert(second[log[k].0.index as int] == Some(log[k].1));
        } else if second[v] is Some {
            let k = choose|k: int| 0 <= k < log.len() && (#[trigger] log[k]).0.index == v;
            assert(first[log[k].0.index as int] == Some(log[k].1));
        }
    }
    assert(first =~= second);
}

/// Solves sort equality constraints by structural unification.
pub struct Unifier {
    arena: Vec<InferSort>,
    bindings: Vec<Option<InferSortId>>,
    log: Vec<(SortVar, InferSortId)>,
    resolved_nodes: Vec<(ResolvedSortId, InferSortId)>,
    rank: Ghost<Seq<nat>>,
}

impl Unifier {
    /// The nodes and bindings form no cycle, each variable has at most one node, the log records
    /// exactly the bindings, and the memo of resolved nodes is right.
    pub closed spec fn well_formed(&self) -> bool {
        let arena = self.arena@;
        &&& ranked(arena, self.bindings@, self.rank@)
        &&& forall|n: int, m: int|
            #![trigger arena[n], arena[m]]
            0 <= n < arena.len() && 0 <= m < arena.len() && arena[n] is Var && arena[m] == arena[n] ==> n
                == m
        &&& log_matches(self.log@, self.bindings@)
        &&& forall|n: int| #![trigger arena[n]] 0 <= n < arena.len() && arena[n] is Resolved ==> self.rank@[n] == 0
        &&& forall|k: int|
            #![trigger self.resolved_nodes@[k]]
            0 <= k < self.resolved_nodes@.len() ==> self.resolved_nodes@[k].1.index < arena.len()
                && arena[self.resolved_nodes@[k].1.index as int] == InferSort::Resolved(
                self.resolved_nodes@[k].0,
            )
    }

    /// The rank of the node `id`: above those of its parts and of what it is bound to.
    pub closed spec fn rank_of(&self, id: InferSortId) -> nat {
        self.rank@[id.index as int]
    }

    /// `id` names a node.
    pub closed spec fn contains(&self, id: InferSortId) -> bool {
        id.index < self.arena@.len()
    }

    /// What each variable is bound to, if anything.
    pub closed spec fn bindings(&self) -> Seq<Option<InferSortId>> {
        self.bindings@
    }

    /// The checkpoint `snapshot` was taken of this unifier, or of one it went on from without
    /// rolling back past the checkpoint.
    pub closed spec fn continues(&self, snapshot: UnifierSnapshot) -> bool {
        &&& snapshot.bound <= self.log@.len()
        &&& self.log@.take(snapshot.bound as int) == snapshot.log@
    }

    /// The unifier can be rolled back to `snapshot`: it has as many variables as then, and has
    /// not been rolled back past it.
    pub closed spec fn can_roll_back_to(&self, snapshot: UnifierSnapshot) -> bool {
        &&& snapshot.bound <= self.log@.len()
        &&& snapshot.variables == self.bindings@.len()
    }

    /// The number of variables made so far.
    pub closed spec fn variable_count(&self) -> nat {
        self.bindings@.len()
    }

    /// The number of variables not bound yet.
    pub closed spec fn free_variables(&self) -> nat {
        free_count(self.bindings@)
    }

    /// Whether the variable `var` is bound.
    pub closed spec fn is_bound(&self, var: SortVar) -> bool {
        var.index < self.bindings@.len() && self.bindings@[var.index as int] is Some
    }

    /// Every resolved sort in the arena is stored in `interner`.
    pub closed spec fn resolved_within(&self, interner: SortInterner) -> bool {
        forall|m: int|
            0 <= m < self.arena@.len() ==> (#[trigger] self.arena@[m] matches InferSort::Resolved(
                resolved,
            ) ==> resolved.index < interner.nodes().len())
    }

    /// The sort that the node `id` stands for, resolved sorts read from `interner`.
    pub closed spec fn denote(&self, interner: SortInterner, id: InferSortId) -> SortTerm {
        denotation(self.arena@, self.bindings@, self.rank@, interner.nodes(), id.index as int)
    }

    /// `term` with every variable that is bound here replaced by the sort it stands for.
    pub closed spec fn instantiate(&self, interner: SortInterner, term: SortTerm) -> SortTerm {
        instantiate(term, self.arena@, self.bindings@, self.rank@, interner.nodes())
    }

    /// The unifier has every node of `earlier` and keeps every binding of it.
    pub closed spec fn extends(&self, earlier: Unifier) -> bool {
        &&& earlier.arena@.len() <= self.arena@.len()
        &&& self.arena@.take(earlier.arena@.len() as int) == earlier.arena@
        &&& bindings_extend(earlier.bindings@, self.bindings@)
    }

    /// The unifier has every node and every variable of `earlier`, bound alike.
    pub closed spec fn grows(&self, earlier: Unifier) -> bool {
        &&& earlier.arena@.len() <= self.arena@.len()
        &&& self.arena@.take(earlier.arena@.len() as int) == earlier.arena@
        &&& earlier.bindings@.len() <= self.bindings@.len()
        &&& self.bindings@.take(earlier.bindings@.len() as int) == earlier.bindings@
        &&& forall|v: int| earlier.bindings@.len() <= v < self.bindings@.len() ==> #[trigger] self.bindings@[v] is None
        &&& self.log@ == earlier.log@
    }

    /// The unifier went on from `earlier` by binding variables and adding nodes only, none of them
    /// a variable, over the resolved sorts of `interner`; where it bound nothing, its ranks are
    /// those of `earlier`.
    pub closed spec fn progressed_from(&self, earlier: Unifier, interner: SortInterner) -> bool {
        &&& self.well_formed()
        &&& self.extends(earlier)
        &&& self.resolved_within(interner)
        &&& self.bindings@.len() == earlier.bindings@.len()
        &&& earlier.log@.len() <= self.log@.len()
        &&& self.log@.take(earlier.log@.len() as int) == earlier.log@
        &&& free_count(self.bindings@) <= free_count(earlier.bindings@)
        &&& free_count(self.bindings@) == free_count(earlier.bindings@) ==> {
            &&& self.bindings@ == earlier.bindings@
            &&& earlier.rank@.len() <= self.rank@.len()
            &&& self.rank@.take(earlier.rank@.len() as int) == earlier.rank@
        }
    }

    /// Growing from a state that grew from `earlier` grows from `earlier`; every state grows from
    /// itself.
    proof fn lemma_grows_transitive(&self, middle: Unifier, earlier: Unifier)
        requires
            self.grows(middle),
            middle.grows(earlier),
        ensures
            self.grows(earlier),
    {
        assert(self.arena@.take(earlier.arena@.len() as int) =~= self.arena@.take(middle.arena@.len() as int).take(
            earlier.arena@.len() as int,
        ));
        assert(self.bindings@.take(earlier.bindings@.len() as int) =~= self.bindings@.take(middle.bindings@.len() as int).take(
            earlier.bindings@.len() as int,
        ));
        assert forall|v: int| earlier.bindings@.len() <= v < self.bindings@.len() implies #[trigger] self.bindings@[v] is None by {
            if v < middle.bindings@.len() {
                assert(self.bindings@.take(middle.bindings@.len() as int)[v] == self.bindings@[v]);
            }
        }
    }

    proof fn lemma_grows_reflexive(&self)
        ensures
            self.grows(*self),
    {
        assert(self.arena@.take(self.arena@.len() as int) =~= self.arena@);
        assert(self.bindings@.take(self.bindings@.len() as int) =~= self.bindings@);
    }

    /// A well-formed unifier went on from itself.
    proof fn lemma_progress_reflexive(&self, interner: SortInterner)
        requires
            self.well_formed(),
            self.resolved_within(interner),
        ensures
            self.progressed_from(*self, interner),
    {
        assert(self.arena@.take(self.arena@.len() as int) =~= self.arena@);
        assert(self.rank@.take(self.rank@.len() as int) =~= self.rank@);
        assert(self.log@.take(self.log@.len() as int) =~= self.log@);
    }

    /// A node that stood for a resolved sort still does after going on.
    proof fn lemma_progress_keeps_resolved(
        &self,
        earlier: Unifier,
        interner: SortInterner,
        a: InferSortId,
        resolved: ResolvedSortId,
    )
        requires
            self.progressed_from(earlier, interner),
            earlier.well_formed(),
            earlier.resolved_within(interner),
            interner.well_formed(),
            interner.contains(resolved),
            earlier.contains(a),
            earlier.denote(interner, a) == resolved_term(interner.nodes(), resolved.index as int),
        ensures
            self.contains(a),
            self.denote(interner, a) == resolved_term(interner.nodes(), resolved.index as int),
    {
        self.lemma_extends(earlier, interner, a);
        interner.lemma_parts_precede();
        lemma_resolved_term_instantiated(interner.nodes(), resolved.index as int, self.arena@, self.bindings@, self.rank@);
    }

    /// Going on from a state that went on from `earlier` went on from `earlier`.
    proof fn lemma_progress_transitive(&self, middle: Unifier, earlier: Unifier, interner: SortInterner)
        requires
            self.progressed_from(middle, interner),
            middle.progressed_from(earlier, interner),
        ensures
            self.progressed_from(earlier, interner),
    {
        assert(self.arena@.take(earlier.arena@.len() as int) =~= earlier.arena@) by {
            assert(self.arena@.take(middle.arena@.len() as int).take(earlier.arena@.len() as int) =~= self.arena@.take(earlier.arena@.len() as int));
        }
        assert(self.log@.take(earlier.log@.len() as int) =~= earlier.log@) by {
            assert(self.log@.take(middle.log@.len() as int).take(earlier.log@.len() as int) =~= self.log@.take(earlier.log@.len() as int));
        }
        assert forall|v: int| #![trigger earlier.bindings@[v]] 0 <= v < earlier.bindings@.len() && earlier.bindings@[v] is Some implies self.bindings@[v] == earlier.bindings@[v] by {
            assert(middle.bindings@[v] == earlier.bindings@[v]);
        }
        if free_count(self.bindings@) == free_count(earlier.bindings@) {
            assert(self.rank@.take(earlier.rank@.len() as int) =~= earlier.rank@) by {
                assert(self.rank@.take(middle.rank@.len() as int).take(earlier.rank@.len() as int) =~= self.rank@.take(earlier.rank@.len() as int));
            }
        }
    }

    /// A state that went on from `earlier` instantiates what each node of `earlier` stood for, so
    /// nodes that stood for the same sort there still do.
    proof fn lemma_progress_keeps_equal(&self, earlier: Unifier, interner: SortInterner, a: InferSortId, b: InferSortId)
        requires
            self.progressed_from(earlier, interner),
            earlier.well_formed(),
            earlier.resolved_within(interner),
            interner.well_formed(),
            earlier.contains(a),
            earlier.contains(b),
            earlier.denote(interner, a) == earlier.denote(interner, b),
        ensures
            self.contains(a),
            self.contains(b),
            self.denote(interner, a) == self.denote(interner, b),
    {
        self.lemma_extends(earlier, interner, a);
        self.lemma_extends(earlier, interner, b);
    }

    /// What a node of `earlier` stands for here is what it stood for there, instantiated with the
    /// bindings made since.
    pub proof fn lemma_extends(&self, earlier: Unifier, interner: SortInterner, id: InferSortId)
        requires
            self.well_formed(),
            earlier.well_formed(),
            interner.well_formed(),
            self.extends(earlier),
            earlier.resolved_within(interner),
            earlier.contains(id),
        ensures
            self.contains(id),
            self.denote(interner, id) == self.instantiate(interner, earlier.denote(interner, id)),
    {
        interner.lemma_parts_precede();
        lemma_denotation_extends(
            earlier.arena@,
            earlier.bindings@,
            earlier.rank@,
            self.arena@,
            self.bindings@,
            self.rank@,
            interner.nodes(),
            id.index as int,
        );
    }

    /// A unifier that only grew still stands for the same sorts, and extends what it grew from.
    pub proof fn lemma_grows(&self, earlier: Unifier, interner: SortInterner, id: InferSortId)
        requires
            self.well_formed(),
            earlier.well_formed(),
            self.grows(earlier),
            earlier.contains(id),
        ensures
            self.contains(id),
            self.extends(earlier),
            self.denote(interner, id) == earlier.denote(interner, id),
    {
        lemma_denotation_grows(
            earlier.arena@,
            earlier.bindings@,
            earlier.rank@,
            self.arena@,
            self.bindings@,
            self.rank@,
            interner.nodes(),
            id.index as int,
        );
        assert forall|v: int| 0 <= v < earlier.bindings@.len() && earlier.bindings@[v] is Some implies self.bindings@[v] == earlier.bindings@[v] by {
            assert(self.bindings@.take(earlier.bindings@.len() as int)[v] == self.bindings@[v]);
        }
    }

    /// The bindings made so far, oldest first.
    pub closed spec fn history(&self) -> Seq<(SortVar, InferSortId)> {
        self.log@
    }

    /// The unifier has the same nodes as `other`.
    pub closed spec fn same_nodes(&self, other: Unifier) -> bool {
        self.arena@ == other.arena@
    }

    /// The unifier went on from `earlier` by adding nodes and binding variables, and was rolled
    /// back since, if at all, never past `earlier`: it has every node and every variable of
    /// `earlier`, keeps each of its bindings, and its history begins with that of `earlier`.
    pub closed spec fn advanced_from(&self, earlier: Unifier) -> bool {
        &&& earlier.arena@.len() <= self.arena@.len()
        &&& self.arena@.take(earlier.arena@.len() as int) == earlier.arena@
        &&& self.bindings@.len() == earlier.bindings@.len()
        &&& bindings_extend(earlier.bindings@, self.bindings@)
        &&& earlier.log@.len() <= self.log@.len()
        &&& self.log@.take(earlier.log@.len() as int) == earlier.log@
    }

    /// Every unifier advanced from itself.
    pub proof fn lemma_advanced_reflexive(&self)
        ensures
            self.advanced_from(*self),
    {
        assert(self.log@.take(self.log@.len() as int) =~= self.log@);
        assert(self.arena@.take(self.arena@.len() as int) =~= self.arena@);
    }

    /// Advancing from a state that advanced from `earlier` advances from `earlier`.
    pub proof fn lemma_advanced_transitive(&self, middle: Unifier, earlier: Unifier)
        requires
            self.advanced_from(middle),
            middle.advanced_from(earlier),
        ensures
            self.advanced_from(earlier),
    {
        assert(self.log@.take(earlier.log@.len() as int) =~= self.log@.take(middle.log@.len() as int).take(
            earlier.log@.len() as int,
        ));
        assert(self.arena@.take(earlier.arena@.len() as int) =~= self.arena@.take(middle.arena@.len() as int).take(
            earlier.arena@.len() as int,
        ));
        assert forall|v: int| #![trigger earlier.bindings@[v]] 0 <= v < earlier.bindings@.len() && earlier.bindings@[v] is Some implies self.bindings@[v] == earlier.bindings@[v] by {
            assert(middle.bindings@[v] == earlier.bindings@[v]);
        }
    }

    /// What a node of `earlier` stands for in a unifier that advanced from it is what it stood for
    /// there, instantiated with the bindings made since.
    pub proof fn lemma_advanced_denote(&self, earlier: Unifier, interner: SortInterner, id: InferSortId)
        requires
            self.advanced_from(earlier),
            self.well_formed(),
            earlier.well_formed(),
            interner.well_formed(),
            earlier.resolved_within(interner),
            earlier.contains(id),
        ensures
            self.contains(id),
            self.denote(interner, id) == self.instantiate(interner, earlier.denote(interner, id)),
    {
        self.lemma_extends(earlier, interner, id);
    }

    /// Instantiating leaves a basic sort alone, and instantiates the element of a container.
    pub proof fn lemma_instantiate_shapes(&self, interner: SortInterner, term: SortTerm)
        ensures
            term is Basic ==> self.instantiate(interner, term) == term,
            term matches SortTerm::Container(op, element) ==> self.instantiate(interner, term)
                == SortTerm::Container(op, Box::new(self.instantiate(interner, *element))),
    {
    }

    /// Instantiating a term replaces each of its variables by what the variable instantiates to.
    pub proof fn lemma_instantiate_is_substitute(&self, interner: SortInterner, term: SortTerm)
        ensures
            self.instantiate(interner, term) == substitute(
                term,
                |v: usize| self.instantiate(interner, SortTerm::Variable(v)),
            ),
    {
        lemma_instantiate_substitutes(term, self.arena@, self.bindings@, self.rank@, interner.nodes());
        let sigma = |v: usize| self.instantiate(interner, SortTerm::Variable(v));
        let tau = |v: usize| instantiate(SortTerm::Variable(v), self.arena@, self.bindings@, self.rank@, interner.nodes());
        assert(sigma =~= tau);
    }

    /// A stored sort has no variable to instantiate.
    pub proof fn lemma_instantiate_resolved(&self, interner: SortInterner, id: ResolvedSortId)
        requires
            interner.well_formed(),
            interner.contains(id),
        ensures
            self.instantiate(interner, interner.term(id)) == interner.term(id),
    {
        interner.lemma_parts_precede();
        lemma_resolved_term_instantiated(interner.nodes(), id.index as int, self.arena@, self.bindings@, self.rank@);
    }

    /// A unifier that advanced from `earlier` has its nodes and as many variables, and can still
    /// be rolled back to every checkpoint that `earlier` could.
    pub proof fn lemma_advanced_keeps(&self, earlier: Unifier)
        requires
            self.advanced_from(earlier),
        ensures
            forall|id: InferSortId| earlier.contains(id) ==> #[trigger] self.contains(id),
            self.variable_count() == earlier.variable_count(),
            forall|s: UnifierSnapshot| earlier.continues(s) ==> #[trigger] self.continues(s),
            forall|s: UnifierSnapshot| earlier.can_roll_back_to(s) ==> #[trigger] self.can_roll_back_to(s),
    {
        assert forall|s: UnifierSnapshot| earlier.continues(s) implies #[trigger] self.continues(s) by {
            assert(self.log@.take(s.bound as int) =~= self.log@.take(earlier.log@.len() as int).take(s.bound as int));
        }
    }

    /// Going on from `earlier` over the sorts of `interner` advances from it.
    pub proof fn lemma_progress_advances(&self, earlier: Unifier, interner: SortInterner)
        requires
            self.progressed_from(earlier, interner),
        ensures
            self.advanced_from(earlier),
            self.well_formed(),
            self.resolved_within(interner),
    {
    }

    /// A unifier that grew and advanced from `earlier` binds what `earlier` bound, and nothing more.
    pub proof fn lemma_grown_same_bindings(&self, earlier: Unifier)
        requires
            self.grows(earlier),
            self.advanced_from(earlier),
        ensures
            self.bindings() == earlier.bindings(),
    {
        assert(self.bindings@ =~= self.bindings@.take(earlier.bindings@.len() as int));
    }

    /// A unifier that only grew, by no variable, advanced from `earlier` without binding anything.
    proof fn lemma_grows_advances(&self, earlier: Unifier)
        requires
            self.grows(earlier),
            self.bindings@.len() == earlier.bindings@.len(),
        ensures
            self.advanced_from(earlier),
            self.bindings() == earlier.bindings(),
            self.history() == earlier.history(),
    {
        assert(self.bindings@ =~= self.bindings@.take(earlier.bindings@.len() as int));
        assert(self.log@.take(earlier.log@.len() as int) =~= self.log@);
    }

    /// Rolled back, from a state that advanced from `start`, to a checkpoint taken of `start`:
    /// the unifier advanced from `start`.
    pub proof fn lemma_rolled_back(&self, before: Unifier, start: Unifier, snapshot: UnifierSnapshot)
        requires
            before.advanced_from(start),
            snapshot.history() == start.history(),
            snapshot.bindings() == start.bindings(),
            self.same_nodes(before),
            self.history() == snapshot.history(),
            self.bindings() == snapshot.bindings(),
        ensures
            self.advanced_from(start),
    {
        assert(self.log@.take(start.log@.len() as int) =~= self.log@);
    }

    /// A unifier that went on from `earlier` without binding anything more has every node of
    /// `earlier` stand for the same sort.
    pub proof fn lemma_same_bindings_denote(&self, earlier: Unifier, interner: SortInterner, id: InferSortId)
        requires
            self.well_formed(),
            earlier.well_formed(),
            self.advanced_from(earlier),
            self.bindings() == earlier.bindings(),
            earlier.contains(id),
        ensures
            self.contains(id),
            self.denote(interner, id) == earlier.denote(interner, id),
    {
        assert(self.bindings@.take(earlier.bindings@.len() as int) =~= earlier.bindings@);
        lemma_denotation_grows(
            earlier.arena@,
            earlier.bindings@,
            earlier.rank@,
            self.arena@,
            self.bindings@,
            self.rank@,
            interner.nodes(),
            id.index as int,
        );
    }

    /// What [`Unifier::keeps_solution`] says of one node.
    pub proof fn lemma_keeps_solution_at(
        &self,
        earlier: Unifier,
        interner: SortInterner,
        sigma: spec_fn(usize) -> SortTerm,
        id: InferSortId,
    )
        requires
            self.keeps_solution(earlier, interner, sigma),
            earlier.contains(id),
        ensures
            substitute(self.denote(interner, id), sigma) == substitute(earlier.denote(interner, id), sigma),
    {
    }

    /// The resolved sorts of the nodes are still stored in an interner that extends the one they
    /// were stored in.
    pub proof fn lemma_resolved_within_extends(&self, earlier: SortInterner, later: SortInterner)
        requires
            self.resolved_within(earlier),
            later.extends(earlier),
        ensures
            self.resolved_within(later),
    {
    }

    /// Once `sigma` replaces the variables, every node of `earlier` stands here for the sort it
    /// stood for in `earlier`: the bindings made since are consistent with `sigma`.
    pub closed spec fn keeps_solution(
        &self,
        earlier: Unifier,
        interner: SortInterner,
        sigma: spec_fn(usize) -> SortTerm,
    ) -> bool {
        forall|id: InferSortId|
            earlier.contains(id) ==> #[trigger] substitute(self.denote(interner, id), sigma) == substitute(
                earlier.denote(interner, id),
                sigma,
            )
    }

    /// Keeping a solution of a state that kept it from `earlier` keeps it from `earlier`.
    proof fn lemma_keeps_transitive(
        &self,
        middle: Unifier,
        earlier: Unifier,
        interner: SortInterner,
        sigma: spec_fn(usize) -> SortTerm,
    )
        requires
            self.keeps_solution(middle, interner, sigma),
            middle.keeps_solution(earlier, interner, sigma),
            earlier.arena@.len() <= middle.arena@.len(),
        ensures
            self.keeps_solution(earlier, interner, sigma),
    {
        assert forall|id: InferSortId| earlier.contains(id) implies #[trigger] substitute(self.denote(interner, id), sigma)
            == substitute(earlier.denote(interner, id), sigma) by {
            assert(middle.contains(id));
            assert(substitute(middle.denote(interner, id), sigma) == substitute(earlier.denote(interner, id), sigma));
        }
    }

    /// A state that only grew keeps every solution.
    proof fn lemma_grows_keeps(&self, earlier: Unifier, interner: SortInterner, sigma: spec_fn(usize) -> SortTerm)
        requires
            self.well_formed(),
            earlier.well_formed(),
            self.grows(earlier),
        ensures
            self.keeps_solution(earlier, interner, sigma),
    {
        assert forall|id: InferSortId| earlier.contains(id) implies #[trigger] substitute(self.denote(interner, id), sigma)
            == substitute(earlier.denote(interner, id), sigma) by {
            self.lemma_grows(earlier, interner, id);
        }
    }

    /// Binding the free variable `var` to `value` keeps every solution that gives `var` the sort
    /// `value` stands for.
    proof fn lemma_binding_keeps(
        &self,
        earlier: Unifier,
        interner: SortInterner,
        var: SortVar,
        value: InferSortId,
        sigma: spec_fn(usize) -> SortTerm,
    )
        requires
            self.well_formed(),
            earlier.well_formed(),
            interner.well_formed(),
            earlier.resolved_within(interner),
            self.arena@ == earlier.arena@,
            var.index < earlier.bindings@.len(),
            earlier.bindings@[var.index as int] is None,
            self.bindings@ == earlier.bindings@.update(var.index as int, Some(value)),
            earlier.contains(value),
            sigma(var.index) == substitute(earlier.denote(interner, value), sigma),
        ensures
            self.keeps_solution(earlier, interner, sigma),
    {
        interner.lemma_parts_precede();
        assert forall|id: InferSortId| earlier.contains(id) implies #[trigger] substitute(self.denote(interner, id), sigma)
            == substitute(earlier.denote(interner, id), sigma) by {
            lemma_bind_keeps_solution(
                earlier.arena@,
                earlier.bindings@,
                earlier.rank@,
                self.bindings@,
                self.rank@,
                interner.nodes(),
                var.index,
                value,
                sigma,
                id.index as int,
            );
        }
    }

    /// `sigma` solves each pair of nodes `lefts[j]`, `rights[j]` here.
    pub closed spec fn solves_all(
        &self,
        interner: SortInterner,
        sigma: spec_fn(usize) -> SortTerm,
        lefts: Seq<InferSortId>,
        rights: Seq<InferSortId>,
    ) -> bool {
        forall|j: int|
            0 <= j < lefts.len() ==> #[trigger] solves(sigma, self.denote(interner, lefts[j]), self.denote(interner, rights[j]))
    }

    /// `sigma` solves each pair of the stored sort `resolved[j]` and the node `rights[j]` here.
    pub closed spec fn solves_resolved(
        &self,
        interner: SortInterner,
        sigma: spec_fn(usize) -> SortTerm,
        resolved: Seq<ResolvedSortId>,
        rights: Seq<InferSortId>,
    ) -> bool {
        forall|j: int|
            0 <= j < resolved.len() ==> #[trigger] solves(
                sigma,
                resolved_term(interner.nodes(), resolved[j].index as int),
                self.denote(interner, rights[j]),
            )
    }

    /// Binding the free variable `var` of the node `var_node` to `value` succeeds, and keeps the
    /// solution, whenever some solution gives both nodes the same sort.
    proof fn lemma_bind_completes(
        &self,
        earlier: Unifier,
        interner: SortInterner,
        var: SortVar,
        var_node: InferSortId,
        value: InferSortId,
        ok: bool,
    )
        requires
            earlier.well_formed(),
            interner.well_formed(),
            earlier.resolved_within(interner),
            earlier.contains(var_node),
            earlier.contains(value),
            var_node != value,
            earlier.arena@[var_node.index as int] == InferSort::Var(var),
            !earlier.is_bound(var),
            earlier.arena@[value.index as int] matches InferSort::Var(other) ==> !earlier.is_bound(other),
            ok == !reaches_var(earlier.arena@, earlier.bindings@, earlier.rank@, value.index as int, var.index),
            ok ==> self.well_formed() && self.arena@ == earlier.arena@ && self.bindings@ == earlier.bindings@.update(
                var.index as int,
                Some(value),
            ),
        ensures
            forall|sigma: spec_fn(usize) -> SortTerm|
                #[trigger] solves(sigma, earlier.denote(interner, var_node), earlier.denote(interner, value)) ==> ok
                    && self.keeps_solution(earlier, interner, sigma),
            forall|sigma: spec_fn(usize) -> SortTerm|
                #[trigger] solves(sigma, earlier.denote(interner, value), earlier.denote(interner, var_node)) ==> ok
                    && self.keeps_solution(earlier, interner, sigma),
    {
        assert(node_ranked(earlier.arena@, earlier.bindings@, earlier.rank@, var_node.index as int));
        assert(earlier.denote(interner, var_node) == SortTerm::Variable(var.index));
        assert forall|sigma: spec_fn(usize) -> SortTerm|
            #[trigger] solves(sigma, earlier.denote(interner, var_node), earlier.denote(interner, value)) implies ok
                && self.keeps_solution(earlier, interner, sigma) by {
            if ok {
                self.lemma_binding_keeps(earlier, interner, var, value, sigma);
            } else {
                match earlier.arena@[value.index as int] {
                    InferSort::Var(other) => {
                        assert(node_ranked(earlier.arena@, earlier.bindings@, earlier.rank@, value.index as int));
                        assert(other.index == var.index);
                        assert(earlier.arena@[value.index as int] == earlier.arena@[var_node.index as int]);
                    },
                    _ => {
                        earlier.lemma_occurrence_blocks(interner, var, value, sigma);
                    },
                }
            }
        }
        assert forall|sigma: spec_fn(usize) -> SortTerm|
            #[trigger] solves(sigma, earlier.denote(interner, value), earlier.denote(interner, var_node)) implies ok
                && self.keeps_solution(earlier, interner, sigma) by {
            assert(solves(sigma, earlier.denote(interner, var_node), earlier.denote(interner, value)));
        }
    }

    /// Nodes of `earlier` that stand for the same sort in a state that went on from it stood for
    /// unifiable sorts there: the bindings made since are a solution.
    proof fn lemma_unified_unifiable(&self, earlier: Unifier, interner: SortInterner, lhs: InferSortId, rhs: InferSortId)
        requires
            self.progressed_from(earlier, interner),
            earlier.well_formed(),
            interner.well_formed(),
            earlier.resolved_within(interner),
            earlier.contains(lhs),
            earlier.contains(rhs),
            self.denote(interner, lhs) == self.denote(interner, rhs),
        ensures
            unifiable(earlier.denote(interner, lhs), earlier.denote(interner, rhs)),
    {
        self.lemma_extends(earlier, interner, lhs);
        self.lemma_extends(earlier, interner, rhs);
        let sigma = |v: usize| instantiate(SortTerm::Variable(v), self.arena@, self.bindings@, self.rank@, interner.nodes());
        lemma_instantiate_substitutes(earlier.denote(interner, lhs), self.arena@, self.bindings@, self.rank@, interner.nodes());
        lemma_instantiate_substitutes(earlier.denote(interner, rhs), self.arena@, self.bindings@, self.rank@, interner.nodes());
        assert(solves(sigma, earlier.denote(interner, lhs), earlier.denote(interner, rhs)));
    }

    /// What a node that is no variable stands for is no variable either.
    proof fn lemma_head_not_variable(&self, interner: SortInterner, id: InferSortId)
        requires
            self.well_formed(),
            interner.well_formed(),
            self.resolved_within(interner),
            self.contains(id),
            !(self.arena@[id.index as int] is Var),
        ensures
            !(self.denote(interner, id) is Variable),
            self.arena@[id.index as int] is Generic ==> self.denote(interner, id) is Container,
            self.arena@[id.index as int] is Function ==> self.denote(interner, id) is Function,
    {
        interner.lemma_parts_precede();
        match self.arena@[id.index as int] {
            InferSort::Resolved(resolved) => {
                lemma_substitute_resolved(interner.nodes(), resolved.index as int, |v: usize| SortTerm::Variable(v));
            },
            _ => {},
        }
    }

    /// No solution gives a variable the sort of a node that is no variable and in which the
    /// variable occurs: that sort would have to contain itself.
    proof fn lemma_occurrence_blocks(
        &self,
        interner: SortInterner,
        var: SortVar,
        value: InferSortId,
        sigma: spec_fn(usize) -> SortTerm,
    )
        requires
            self.well_formed(),
            interner.well_formed(),
            self.resolved_within(interner),
            self.contains(value),
            !(self.arena@[value.index as int] is Var),
            reaches_var(self.arena@, self.bindings@, self.rank@, value.index as int, var.index),
        ensures
            sigma(var.index) != substitute(self.denote(interner, value), sigma),
    {
        interner.lemma_parts_precede();
        lemma_reaches_mentions(self.arena@, self.bindings@, self.rank@, interner.nodes(), value.index as int, var.index);
        self.lemma_head_not_variable(interner, value);
        lemma_mentions_height(self.denote(interner, value), var.index, sigma);
    }

    /// The unifier with no nodes and no variables.
    pub fn new() -> (r: Self)
        ensures
            r.well_formed(),
            r.variable_count() == 0,
            r.free_variables() == 0,
            forall|interner: SortInterner| r.resolved_within(interner),
    {
        Unifier {
            arena: Vec::new(),
            bindings: Vec::new(),
            log: Vec::new(),
            resolved_nodes: Vec::new(),
            rank: Ghost(Seq::empty()),
        }
    }

    /// Adds the node `sort`, which is no variable and whose parts are nodes already.
    fn push(&mut self, sort: InferSort) -> (r: InferSortId)
        requires
            old(self).well_formed(),
            !(sort is Var),
            match sort {
                InferSort::Generic { subsort, .. } => subsort.index < old(self).arena@.len(),
                InferSort::Function { domain, range } => range.index < old(self).arena@.len()
                    && forall|i: int| 0 <= i < domain@.len() ==> (#[trigger] domain@[i]).index < old(self).arena@.len(),
                _ => true,
            },
        ensures
            final(self).well_formed(),
            final(self).grows(*old(self)),
            final(self).bindings@ == old(self).bindings@,
            final(self).log@ == old(self).log@,
            final(self).resolved_nodes@ == old(self).resolved_nodes@,
            r.index == old(self).arena@.len(),
            final(self).arena@ == old(self).arena@.push(sort),
            final(self).rank@.take(old(self).rank@.len() as int) == old(self).rank@,
    {
        let index = self.arena.len();
        let ghost rank = self.rank@;
        let ghost new_rank: nat = if sort is Resolved {
            0
        } else {
            rank_sum(rank) + 1
        };
        self.arena.push(sort);
        self.rank = Ghost(rank.push(new_rank));
        proof {
            let arena = self.arena@;
            let old_arena = old(self).arena@;
            assert forall|n: int| 0 <= n < arena.len() implies #[trigger] node_ranked(arena, self.bindings@, self.rank@, n) by {
                if n < old_arena.len() {
                    assert(arena[n] == old_arena[n]);
                    assert(node_ranked(old_arena, old(self).bindings@, rank, n));
                } else {
                    match sort {
                        InferSort::Generic { subsort, .. } => {
                            lemma_rank_sum_bounds(rank, subsort.index as int);
                        },
                        InferSort::Function { domain, range } => {
                            lemma_rank_sum_bounds(rank, range.index as int);
                            assert forall|i: int| 0 <= i < domain@.len() implies (#[trigger] domain@[i]).index < arena.len()
                                && self.rank@[domain@[i].index as int] < self.rank@[n] by {
                                lemma_rank_sum_bounds(rank, domain@[i].index as int);
                            }
                        },
                        _ => {},
                    }
                }
            }
            assert(arena.take(old_arena.len() as int) =~= old_arena);
            assert(self.bindings@.take(self.bindings@.len() as int) =~= self.bindings@);
            assert(self.rank@.take(rank.len() as int) =~= rank);
            assert forall|n: int, m: int|
                0 <= n < arena.len() && 0 <= m < arena.len() && #[trigger] arena[n] is Var && #[trigger] arena[m] == arena[n] implies n == m by {
                if n < old_arena.len() && m < old_arena.len() {
                    assert(arena[n] == old_arena[n]);
                    assert(arena[m] == old_arena[m]);
                }
            }
            assert forall|n: int| 0 <= n < arena.len() && #[trigger] arena[n] is Resolved implies self.rank@[n] == 0 by {
                if n < old_arena.len() {
                    assert(arena[n] == old_arena[n]);
                }
            }
            assert forall|k: int| 0 <= k < self.resolved_nodes@.len() implies #[trigger] self.resolved_nodes@[k].1.index < arena.len()
                && arena[self.resolved_nodes@[k].1.index as int] == InferSort::Resolved(self.resolved_nodes@[k].0) by {
                assert(arena[self.resolved_nodes@[k].1.index as int] == old_arena[self.resolved_nodes@[k].1.index as int]);
            }
        }
        InferSortId::new(index)
    }

    /// Creates a fresh, unbound unification variable and its node.
    pub fn fresh_var(&mut self) -> (r: InferSortId)
        requires
            old(self).well_formed(),
        ensures
            final(self).well_formed(),
            final(self).grows(*old(self)),
            final(self).contains(r),
            final(self).variable_count() == old(self).variable_count() + 1,
            final(self).free_variables() == old(self).free_variables() + 1,
            forall|interner: SortInterner|
                #[trigger] final(self).denote(interner, r) == SortTerm::Variable(
                    old(self).variable_count() as usize,
                ),
            forall|interner: SortInterner|
                #[trigger] final(self).resolved_within(interner) == old(self).resolved_within(interner),
    {
        let var = SortVar { index: self.bindings.len() };
        let ghost old_bindings = self.bindings@;
        let ghost old_arena = self.arena@;
        let ghost rank = self.rank@;
        self.bindings.push(None);
        let index = self.arena.len();
        self.arena.push(InferSort::Var(var));
        self.rank = Ghost(rank.push(0));
        proof {
            let arena = self.arena@;
            let bindings = self.bindings@;
            assert(bindings.drop_last() =~= old_bindings);
            assert forall|n: int| 0 <= n < arena.len() implies #[trigger] node_ranked(arena, bindings, self.rank@, n) by {
                if n < old_arena.len() {
                    assert(arena[n] == old_arena[n]);
                    assert(node_ranked(old_arena, old_bindings, rank, n));
                    match arena[n] {
                        InferSort::Var(other) => {
                            assert(bindings[other.index as int] == old_bindings[other.index as int]);
                        },
                        _ => {},
                    }
                }
            }
            assert forall|n: int, m: int|
                0 <= n < arena.len() && 0 <= m < arena.len() && #[trigger] arena[n] is Var && #[trigger] arena[m] == arena[n] implies n == m by {
                if n < old_arena.len() {
                    assert(arena[n] == old_arena[n]);
                    assert(node_ranked(old_arena, old_bindings, rank, n));
                }
                if m < old_arena.len() {
                    assert(arena[m] == old_arena[m]);
                    assert(node_ranked(old_arena, old_bindings, rank, m));
                }
            }
            assert forall|v: int| 0 <= v < bindings.len() && #[trigger] bindings[v] is Some implies exists|k: int|
                0 <= k < self.log@.len() && (#[trigger] self.log@[k]).0.index == v by {
                assert(bindings[v] == old_bindings[v]);
                assert(old_bindings[v] is Some);
                let k = choose|k: int| 0 <= k < old(self).log@.len() && (#[trigger] old(self).log@[k]).0.index == v;
                assert(self.log@[k].0.index == v);
            }
            assert forall|k: int| 0 <= k < self.log@.len() implies #[trigger] self.log@[k].0.index < bindings.len()
                && bindings[self.log@[k].0.index as int] == Some(self.log@[k].1) by {
                assert(bindings[self.log@[k].0.index as int] == old_bindings[self.log@[k].0.index as int]);
            }
            assert forall|n: int| 0 <= n < arena.len() && #[trigger] arena[n] is Resolved implies self.rank@[n] == 0 by {
                if n < old_arena.len() {
                    assert(arena[n] == old_arena[n]);
                }
            }
            assert forall|k: int| 0 <= k < self.resolved_nodes@.len() implies #[trigger] self.resolved_nodes@[k].1.index < arena.len()
                && arena[self.resolved_nodes@[k].1.index as int] == InferSort::Resolved(self.resolved_nodes@[k].0) by {
                assert(arena[self.resolved_nodes@[k].1.index as int] == old_arena[self.resolved_nodes@[k].1.index as int]);
            }
            assert(arena.take(old_arena.len() as int) =~= old_arena);
            assert(bindings.take(old_bindings.len() as int) =~= old_bindings);
            assert forall|interner: SortInterner| #[trigger] self.resolved_within(interner) == old(self).resolved_within(interner) by {
                assert forall|m: int| 0 <= m < old_arena.len() implies #[trigger] arena[m] == old_arena[m] by {}
            }
        }
        InferSortId::new(index)
    }

    /// The node that stands for the resolved sort `id`, one node per resolved sort.
    pub fn resolved_node(&mut self, id: ResolvedSortId) -> (r: InferSortId)
        requires
            old(self).well_formed(),
        ensures
            final(self).well_formed(),
            final(self).grows(*old(self)),
            final(self).contains(r),
            final(self).rank_of(r) == 0,
            final(self).advanced_from(*old(self)),
            final(self).bindings() == old(self).bindings(),
            final(self).history() == old(self).history(),
            final(self).variable_count() == old(self).variable_count(),
            final(self).free_variables() == old(self).free_variables(),
            forall|interner: SortInterner|
                #[trigger] final(self).denote(interner, r) == resolved_term(interner.nodes(), id.index as int),
            forall|interner: SortInterner|
                old(self).resolved_within(interner) && interner.contains(id) ==> #[trigger] final(self).resolved_within(interner),
            forall|interner: SortInterner|
                old(self).resolved_within(interner) && interner.contains(id) ==> #[trigger] final(self).progressed_from(*old(self), interner),
    {
        let mut k: usize = 0;
        while k < self.resolved_nodes.len()
            invariant
                k <= self.resolved_nodes@.len(),
                self.well_formed(),
            decreases self.resolved_nodes.len() - k,
        {
            if self.resolved_nodes[k].0 == id {
                let node = self.resolved_nodes[k].1;
                proof {
                    assert(self.arena@.take(self.arena@.len() as int) =~= self.arena@);
                    assert(self.bindings@.take(self.bindings@.len() as int) =~= self.bindings@);
                    assert(self.rank@.take(self.rank@.len() as int) =~= self.rank@);
                    assert(self.log@.take(self.log@.len() as int) =~= self.log@);
                    assert(self.arena@[node.index as int] == InferSort::Resolved(id));
                    self.lemma_grows_advances(*old(self));
                }
                return node;
            }
            k = k + 1;
        }
        let ghost before = *self;
        let node = self.push(InferSort::Resolved(id));
        self.resolved_nodes.push((id, node));
        proof {
            self.lemma_grows_advances(before);
            assert(self.arena@[node.index as int] == InferSort::Resolved(id));
            assert forall|k: int| 0 <= k < self.resolved_nodes@.len() implies #[trigger] self.resolved_nodes@[k].1.index < self.arena@.len()
                && self.arena@[self.resolved_nodes@[k].1.index as int] == InferSort::Resolved(self.resolved_nodes@[k].0) by {
                if k < self.resolved_nodes@.len() - 1 {
                    assert(self.resolved_nodes@[k] == before.resolved_nodes@[k]);
                }
            }
            assert(self.log@.take(before.log@.len() as int) =~= before.log@);
            assert forall|interner: SortInterner|
                before.resolved_within(interner) && interner.contains(id) implies #[trigger] self.progressed_from(before, interner) by {
                assert forall|m: int| 0 <= m < self.arena@.len() implies (#[trigger] self.arena@[m] matches InferSort::Resolved(
                    resolved,
                ) ==> resolved.index < interner.nodes().len()) by {
                    if m < before.arena@.len() {
                        assert(self.arena@[m] == before.arena@[m]);
                    }
                }
            }
            assert forall|interner: SortInterner|
                before.resolved_within(interner) && interner.contains(id) implies #[trigger] self.resolved_within(interner) by {
                assert forall|m: int| 0 <= m < self.arena@.len() implies (#[trigger] self.arena@[m] matches InferSort::Resolved(
                    resolved,
                ) ==> resolved.index < interner.nodes().len()) by {
                    if m < before.arena@.len() {
                        assert(self.arena@[m] == before.arena@[m]);
                    }
                }
            }
        }
        node
    }

    /// Builds the container sort `op(subsort)`.
    pub fn generic(&mut self, op: ComplexSort, subsort: InferSortId) -> (r: InferSortId)
        requires
            old(self).well_formed(),
            old(self).contains(subsort),
        ensures
            final(self).well_formed(),
            final(self).grows(*old(self)),
            final(self).advanced_from(*old(self)),
            final(self).bindings() == old(self).bindings(),
            final(self).history() == old(self).history(),
            final(self).contains(r),
            final(self).variable_count() == old(self).variable_count(),
            final(self).free_variables() == old(self).free_variables(),
            forall|interner: SortInterner|
                #[trigger] final(self).denote(interner, r) == SortTerm::Container(
                    op,
                    Box::new(old(self).denote(interner, subsort)),
                ),
            forall|interner: SortInterner|
                #[trigger] final(self).resolved_within(interner) == old(self).resolved_within(interner),
    {
        let ghost before = *self;
        let r = self.push(InferSort::Generic { op, subsort });
        proof {
            self.lemma_grows_advances(before);
            assert forall|interner: SortInterner| #[trigger] self.denote(interner, r) == SortTerm::Container(
                op,
                Box::new(before.denote(interner, subsort)),
            ) by {
                self.lemma_grows(before, interner, subsort);
            }
            assert forall|interner: SortInterner| #[trigger] self.resolved_within(interner) == before.resolved_within(interner) by {
                assert forall|m: int| 0 <= m < before.arena@.len() implies #[trigger] self.arena@[m] == before.arena@[m] by {}
            }
        }
        r
    }

    /// Builds the function sort `domain -> range`.
    pub fn function(&mut self, domain: Vec<InferSortId>, range: InferSortId) -> (r: InferSortId)
        requires
            old(self).well_formed(),
            old(self).contains(range),
            forall|i: int| 0 <= i < domain@.len() ==> old(self).contains(#[trigger] domain@[i]),
        ensures
            final(self).well_formed(),
            final(self).grows(*old(self)),
            final(self).contains(r),
            final(self).variable_count() == old(self).variable_count(),
            final(self).free_variables() == old(self).free_variables(),
            forall|interner: SortInterner|
                #[trigger] final(self).denote(interner, r) == SortTerm::Function(
                    Seq::new(domain@.len(), |i: int| old(self).denote(interner, domain@[i])),
                    Box::new(old(self).denote(interner, range)),
                ),
            forall|interner: SortInterner|
                #[trigger] final(self).resolved_within(interner) == old(self).resolved_within(interner),
    {
        let ghost before = *self;
        let ghost arguments = domain@;
        let r = self.push(InferSort::Function { domain, range });
        proof {
            assert forall|interner: SortInterner| #[trigger] self.denote(interner, r) == SortTerm::Function(
                Seq::new(arguments.len(), |i: int| before.denote(interner, arguments[i])),
                Box::new(before.denote(interner, range)),
            ) by {
                self.lemma_grows(before, interner, range);
                assert forall|i: int| 0 <= i < arguments.len() implies self.denote(interner, #[trigger] arguments[i])
                    == before.denote(interner, arguments[i]) by {
                    self.lemma_grows(before, interner, arguments[i]);
                }
                assert(self.denote(interner, r)->Function_0 =~= Seq::new(
                    arguments.len(),
                    |i: int| before.denote(interner, arguments[i]),
                ));
            }
            assert forall|interner: SortInterner| #[trigger] self.resolved_within(interner) == before.resolved_within(interner) by {
                assert forall|m: int| 0 <= m < before.arena@.len() implies #[trigger] self.arena@[m] == before.arena@[m] by {}
            }
        }
        r
    }

    /// Follows variable bindings from `id` until a node that is no bound variable.
    fn shallow_normalize(&self, id: InferSortId) -> (r: InferSortId)
        requires
            self.well_formed(),
            self.contains(id),
        ensures
            self.contains(r),
            self.rank@[r.index as int] <= self.rank@[id.index as int],
            forall|interner: SortInterner| #[trigger] self.denote(interner, r) == self.denote(interner, id),
            forall|var: usize| #[trigger] reaches_var(self.arena@, self.bindings@, self.rank@, r.index as int, var)
                == reaches_var(self.arena@, self.bindings@, self.rank@, id.index as int, var),
            self.arena@[r.index as int] matches InferSort::Var(var) ==> !self.is_bound(var),
    {
        let mut current = id;
        loop
            invariant
                self.well_formed(),
                self.contains(current),
                self.rank@[current.index as int] <= self.rank@[id.index as int],
                forall|interner: SortInterner| #[trigger] self.denote(interner, current) == self.denote(interner, id),
                forall|var: usize| #[trigger] reaches_var(self.arena@, self.bindings@, self.rank@, current.index as int, var)
                    == reaches_var(self.arena@, self.bindings@, self.rank@, id.index as int, var),
            decreases self.rank@[current.index as int],
        {
            proof {
                assert(node_ranked(self.arena@, self.bindings@, self.rank@, current.index as int));
            }
            match &self.arena[current.index] {
                InferSort::Var(var) => match self.bindings[var.index] {
                    Some(next) => {
                        proof {
                            assert forall|interner: SortInterner| #[trigger] self.denote(interner, next) == self.denote(interner, id) by {
                                assert(self.denote(interner, current) == self.denote(interner, id));
                            }
                            assert forall|v: usize| #[trigger] reaches_var(self.arena@, self.bindings@, self.rank@, next.index as int, v)
                                == reaches_var(self.arena@, self.bindings@, self.rank@, id.index as int, v) by {
                                assert(reaches_var(self.arena@, self.bindings@, self.rank@, current.index as int, v)
                                    == reaches_var(self.arena@, self.bindings@, self.rank@, id.index as int, v));
                            }
                        }
                        current = next;
                    },
                    None => {
                        return current;
                    },
                },
                _ => {
                    return current;
                },
            }
        }
    }

    /// The head of the sort that `id` stands for: a free variable, or a node that is no variable,
    /// whose parts may in turn be bound variables.
    pub fn head(&self, id: InferSortId) -> (r: InferSort)
        requires
            self.well_formed(),
            self.contains(id),
        ensures
            forall|interner: SortInterner| #[trigger] self.denote(interner, id) == match r {
                InferSort::Resolved(resolved) => resolved_term(interner.nodes(), resolved.index as int),
                InferSort::Generic { op, subsort } => SortTerm::Container(op, Box::new(self.denote(interner, subsort))),
                InferSort::Function { domain, range } => SortTerm::Function(
                    Seq::new(domain@.len(), |i: int| self.denote(interner, domain@[i])),
                    Box::new(self.denote(interner, range)),
                ),
                InferSort::Var(var) => SortTerm::Variable(var.index),
            },
            r matches InferSort::Var(var) ==> !self.is_bound(var),
            forall|interner: SortInterner|
                #[trigger] self.resolved_within(interner) ==> (r matches InferSort::Resolved(resolved)
                    ==> interner.contains(resolved)),
            match r {
                InferSort::Generic { subsort, .. } => self.contains(subsort),
                InferSort::Function { domain, range } => self.contains(range) && forall|i: int|
                    0 <= i < domain@.len() ==> self.contains(#[trigger] domain@[i]),
                _ => true,
            },
    {
        let normal = self.shallow_normalize(id);
        proof {
            assert(node_ranked(self.arena@, self.bindings@, self.rank@, normal.index as int));
        }
        let r = match &self.arena[normal.index] {
            InferSort::Resolved(resolved) => InferSort::Resolved(*resolved),
            InferSort::Generic { op, subsort } => InferSort::Generic { op: *op, subsort: *subsort },
            InferSort::Function { domain, range } => {
                let mut copy: Vec<InferSortId> = Vec::new();
                let mut i: usize = 0;
                while i < domain.len()
                    invariant
                        i <= domain@.len(),
                        copy@ == domain@.take(i as int),
                    decreases domain.len() - i,
                {
                    copy.push(domain[i]);
                    i = i + 1;
                }
                assert(copy@ =~= domain@);
                InferSort::Function { domain: copy, range: *range }
            },
            InferSort::Var(var) => InferSort::Var(*var),
        };
        proof {
            assert forall|interner: SortInterner| #[trigger] self.denote(interner, id) == match r {
                InferSort::Resolved(resolved) => resolved_term(interner.nodes(), resolved.index as int),
                InferSort::Generic { op, subsort } => SortTerm::Container(op, Box::new(self.denote(interner, subsort))),
                InferSort::Function { domain, range } => SortTerm::Function(
                    Seq::new(domain@.len(), |i: int| self.denote(interner, domain@[i])),
                    Box::new(self.denote(interner, range)),
                ),
                InferSort::Var(var) => SortTerm::Variable(var.index),
            } by {
                assert(self.denote(interner, normal) == self.denote(interner, id));
                match r {
                    InferSort::Function { domain, range } => {
                        assert(self.denote(interner, normal)->Function_0 =~= Seq::new(
                            domain@.len(),
                            |i: int| self.denote(interner, domain@[i]),
                        ));
                    },
                    _ => {},
                }
            }
            assert forall|interner: SortInterner| #[trigger] self.resolved_within(interner) implies (r matches InferSort::Resolved(
                resolved,
            ) ==> interner.contains(resolved)) by {
                assert(self.arena@[normal.index as int] matches InferSort::Resolved(resolved) ==> resolved.index
                    < interner.nodes().len());
            }
        }
        r
    }

    /// The free variable that `id` stands for, if it stands for one: nodes unified with each other
    /// while still free give the same variable.
    pub fn free_root(&self, id: InferSortId) -> (r: Option<usize>)
        requires
            self.well_formed(),
            self.contains(id),
        ensures
            forall|interner: SortInterner|
                interner.well_formed() && self.resolved_within(interner) ==> match r {
                    Some(var) => #[trigger] self.denote(interner, id) == SortTerm::Variable(var),
                    None => !(self.denote(interner, id) is Variable),
                },
    {
        let normal = self.shallow_normalize(id);
        match &self.arena[normal.index] {
            InferSort::Var(var) => {
                proof {
                    assert forall|interner: SortInterner|
                        interner.well_formed() && self.resolved_within(interner) implies #[trigger] self.denote(interner, id) == SortTerm::Variable(var.index) by {
                        assert(self.denote(interner, normal) == self.denote(interner, id));
                    }
                }
                Some(var.index)
            },
            _ => {
                proof {
                    assert forall|interner: SortInterner|
                        interner.well_formed() && self.resolved_within(interner) implies !(#[trigger] self.denote(interner, id) is Variable) by {
                        interner.lemma_parts_precede();
                        assert(self.denote(interner, normal) == self.denote(interner, id));
                        assert(self.arena@[normal.index as int] matches InferSort::Resolved(resolved) ==> resolved.index < interner.nodes().len());
                    }
                }
                None
            },
        }
    }

    /// Whether the variable `var` occurs in the sort that `id` stands for.
    fn occurs(&self, var: SortVar, id: InferSortId) -> (r: bool)
        requires
            self.well_formed(),
            self.contains(id),
        ensures
            r == reaches_var(self.arena@, self.bindings@, self.rank@, id.index as int, var.index),
        decreases self.rank@[id.index as int],
    {
        let normal = self.shallow_normalize(id);
        proof {
            assert(node_ranked(self.arena@, self.bindings@, self.rank@, normal.index as int));
            assert(reaches_var(self.arena@, self.bindings@, self.rank@, normal.index as int, var.index)
                == reaches_var(self.arena@, self.bindings@, self.rank@, id.index as int, var.index));
        }
        match &self.arena[normal.index] {
            InferSort::Var(other) => other.index == var.index,
            InferSort::Resolved(_) => false,
            InferSort::Generic { subsort, .. } => self.occurs(var, *subsort),
            InferSort::Function { domain, range } => {
                let mut i: usize = 0;
                while i < domain.len()
                    invariant
                        self.well_formed(),
                        i <= domain@.len(),
                        self.arena@[normal.index as int] == (InferSort::Function { domain: *domain, range: *range }),
                        self.contains(normal),
                        self.rank@[normal.index as int] <= self.rank@[id.index as int],
                        reaches_var(self.arena@, self.bindings@, self.rank@, normal.index as int, var.index)
                            == reaches_var(self.arena@, self.bindings@, self.rank@, id.index as int, var.index),
                        forall|j: int|
                            0 <= j < i ==> !reaches_var(self.arena@, self.bindings@, self.rank@, (#[trigger] domain@[j]).index as int, var.index),
                    decreases domain.len() - i,
                {
                    proof {
                        assert(node_ranked(self.arena@, self.bindings@, self.rank@, normal.index as int));
                        assert(domain@[i as int].index < self.arena@.len());
                    }
                    if self.occurs(var, domain[i]) {
                        return true;
                    }
                    i = i + 1;
                }
                proof {
                    assert(node_ranked(self.arena@, self.bindings@, self.rank@, normal.index as int));
                }
                self.occurs(var, *range)
            },
        }
    }

    /// Binds the free variable `var` to `value`, unless `var` occurs in it: the cyclic (infinite)
    /// sort that a binding like `?t := List(?t)` would create is rejected.
    fn bind(&mut self, var: SortVar, value: InferSortId) -> (r: bool)
        requires
            old(self).well_formed(),
            old(self).contains(value),
            var.index < old(self).bindings@.len(),
            old(self).bindings@[var.index as int] is None,
        ensures
            r == !reaches_var(old(self).arena@, old(self).bindings@, old(self).rank@, value.index as int, var.index),
            r ==> {
                &&& final(self).well_formed()
                &&& final(self).arena@ == old(self).arena@
                &&& final(self).bindings@ == old(self).bindings@.update(var.index as int, Some(value))
                &&& final(self).resolved_nodes@ == old(self).resolved_nodes@
                &&& final(self).free_variables() + 1 == old(self).free_variables()
                &&& final(self).extends(*old(self))
                &&& forall|interner: SortInterner|
                    old(self).resolved_within(interner) ==> #[trigger] final(self).progressed_from(*old(self), interner)
            },
            !r ==> *final(self) == *old(self),
    {
        if self.occurs(var, value) {
            return false;
        }
        let ghost arena = self.arena@;
        let ghost old_bindings = self.bindings@;
        let ghost old_rank = self.rank@;
        let ghost old_log = self.log@;
        let ghost bump: nat = old_rank[value.index as int] + 1;
        self.bindings.set(var.index, Some(value));
        self.log.push((var, value));
        self.rank = Ghost(
            Seq::new(
                old_rank.len(),
                |x: int|
                    old_rank[x] + if reaches_var(arena, old_bindings, old_rank, x, var.index) {
                        bump
                    } else {
                        0
                    },
            ),
        );
        proof {
            let bindings = self.bindings@;
            let rank = self.rank@;
            assert(bindings == old_bindings.update(var.index as int, Some(value)));
            assert forall|n: int| 0 <= n < arena.len() implies #[trigger] node_ranked(arena, bindings, rank, n) by {
                assert(node_ranked(arena, old_bindings, old_rank, n));
                match arena[n] {
                    InferSort::Resolved(_) => {},
                    InferSort::Generic { subsort, .. } => {},
                    InferSort::Function { domain, range } => {
                        assert forall|i: int| 0 <= i < domain@.len() implies (#[trigger] domain@[i]).index < arena.len()
                            && rank[domain@[i].index as int] < rank[n] by {
                            if reaches_var(arena, old_bindings, old_rank, domain@[i].index as int, var.index) {
                                assert(reaches_var(arena, old_bindings, old_rank, n, var.index));
                            }
                        }
                    },
                    InferSort::Var(other) => {
                        if other.index == var.index {
                            assert(reaches_var(arena, old_bindings, old_rank, n, var.index));
                        }
                    },
                }
            }
            assert forall|k: int| 0 <= k < self.log@.len() implies #[trigger] self.log@[k].0.index < bindings.len()
                && bindings[self.log@[k].0.index as int] == Some(self.log@[k].1) by {
                if k < old_log.len() {
                    assert(self.log@[k] == old_log[k]);
                    assert(old_bindings[old_log[k].0.index as int] == Some(old_log[k].1));
                }
            }
            assert forall|k: int, l: int| 0 <= k < l < self.log@.len() implies #[trigger] self.log@[k].0 != #[trigger] self.log@[l].0 by {
                if l < old_log.len() {
                    assert(self.log@[k] == old_log[k]);
                    assert(self.log@[l] == old_log[l]);
                } else {
                    assert(self.log@[k] == old_log[k]);
                    assert(old_bindings[old_log[k].0.index as int] == Some(old_log[k].1));
                }
            }
            assert forall|v: int| 0 <= v < bindings.len() && #[trigger] bindings[v] is Some implies exists|k: int|
                0 <= k < self.log@.len() && (#[trigger] self.log@[k]).0.index == v by {
                if v == var.index {
                    assert(self.log@[old_log.len() as int].0.index == v);
                } else {
                    assert(old_bindings[v] is Some);
                    let k = choose|k: int| 0 <= k < old_log.len() && (#[trigger] old_log[k]).0.index == v;
                    assert(self.log@[k] == old_log[k]);
                }
            }
            assert forall|n: int| 0 <= n < arena.len() && #[trigger] arena[n] is Resolved implies rank[n] == 0 by {}
            lemma_free_count_bind(old_bindings, var.index as int, value);
            assert(arena.take(arena.len() as int) =~= arena);
            assert(self.log@.take(old_log.len() as int) =~= old_log);
            assert forall|interner: SortInterner|
                old(self).resolved_within(interner) implies #[trigger] self.progressed_from(*old(self), interner) by {
                assert forall|m: int| 0 <= m < self.arena@.len() implies (#[trigger] self.arena@[m] matches InferSort::Resolved(
                    resolved,
                ) ==> resolved.index < interner.nodes().len()) by {
                    assert(self.arena@[m] == old(self).arena@[m]);
                }
            }
        }
        true
    }

    /// The resolved sort of the node `id`, which stands for one.
    fn resolved_of(&self, id: InferSortId) -> (r: ResolvedSortId)
        requires
            self.contains(id),
            self.arena@[id.index as int] is Resolved,
        ensures
            self.arena@[id.index as int] == InferSort::Resolved(r),
    {
        match &self.arena[id.index] {
            InferSort::Resolved(resolved) => *resolved,
            _ => ResolvedSortId::new(0),
        }
    }

    /// The kind of container of the node `id`, which stands for a container sort.
    fn generic_op(&self, id: InferSortId) -> (r: ComplexSort)
        requires
            self.contains(id),
            self.arena@[id.index as int] is Generic,
        ensures
            self.arena@[id.index as int]->Generic_op == r,
    {
        match &self.arena[id.index] {
            InferSort::Generic { op, .. } => *op,
            _ => ComplexSort::List,
        }
    }

    /// The element sort of the node `id`, which stands for a container sort.
    fn generic_subsort(&self, id: InferSortId) -> (r: InferSortId)
        requires
            self.contains(id),
            self.arena@[id.index as int] is Generic,
        ensures
            self.arena@[id.index as int]->Generic_subsort == r,
    {
        match &self.arena[id.index] {
            InferSort::Generic { subsort, .. } => *subsort,
            _ => InferSortId::new(0),
        }
    }

    /// A copy of the node `id`.
    fn copy_node(&self, id: InferSortId) -> (r: InferSort)
        requires
            self.contains(id),
        ensures
            copied_node(self.arena@[id.index as int], r),
    {
        match &self.arena[id.index] {
            InferSort::Resolved(resolved) => InferSort::Resolved(*resolved),
            InferSort::Generic { op, subsort } => InferSort::Generic { op: *op, subsort: *subsort },
            InferSort::Function { domain, range } => {
                let mut copy: Vec<InferSortId> = Vec::new();
                let mut i: usize = 0;
                while i < domain.len()
                    invariant
                        i <= domain@.len(),
                        copy@ == domain@.take(i as int),
                    decreases domain.len() - i,
                {
                    copy.push(domain[i]);
                    i = i + 1;
                }
                assert(copy@ =~= domain@);
                InferSort::Function { domain: copy, range: *range }
            },
            InferSort::Var(var) => InferSort::Var(*var),
        }
    }

    /// Makes `lhs` and `rhs` stand for the same sort, binding variables as needed, and returns
    /// whether they can, that is, whether some assignment of sorts to the variables makes them the
    /// same sort. Every such assignment agrees with the bindings made: they are most general. On
    /// failure the unifier may keep bindings made before the mismatch was
    /// found; callers backtrack over failed attempts with [`Unifier::snapshot`] and
    /// [`Unifier::rollback_to`].
    pub fn unify(&mut self, interner: &SortInterner, lhs: InferSortId, rhs: InferSortId) -> (r: bool)
        requires
            old(self).well_formed(),
            interner.well_formed(),
            old(self).resolved_within(*interner),
            old(self).contains(lhs),
            old(self).contains(rhs),
        ensures
            final(self).progressed_from(*old(self), *interner),
            r ==> final(self).denote(*interner, lhs) == final(self).denote(*interner, rhs),
            r == unifiable(old(self).denote(*interner, lhs), old(self).denote(*interner, rhs)),
            forall|sigma: spec_fn(usize) -> SortTerm|
                #[trigger] solves(sigma, old(self).denote(*interner, lhs), old(self).denote(*interner, rhs)) ==> r
                    && final(self).keeps_solution(*old(self), *interner, sigma),
        decreases old(self).free_variables(), 4 * (old(self).rank_of(lhs) + old(self).rank_of(rhs)) + 3,
    {
        let ghost start = *self;
        proof {
            self.lemma_progress_reflexive(*interner);
            interner.lemma_parts_precede();
        }
        let l = self.shallow_normalize(lhs);
        let r = self.shallow_normalize(rhs);
        proof {
            assert(self.denote(*interner, l) == self.denote(*interner, lhs));
            assert(self.denote(*interner, r) == self.denote(*interner, rhs));
        }
        if l == r {
            proof {
                assert(solves(|v: usize| SortTerm::Variable(v), start.denote(*interner, lhs), start.denote(*interner, rhs)));
            }
            return true;
        }
        let left = self.copy_node(l);
        let right = self.copy_node(r);
        proof {
            assert(node_ranked(self.arena@, self.bindings@, self.rank@, l.index as int));
            assert(node_ranked(self.arena@, self.bindings@, self.rank@, r.index as int));
        }
        let ghost bound: nat = 4 * (self.rank_of(l) + self.rank_of(r)) + 2;
        let unified = match (left, right) {
            (InferSort::Var(var), InferSort::Var(other)) => {
                proof {
                    assert(var != other);
                }
                let ok = self.bind(var, r);
                proof {
                    self.lemma_bind_completes(start, *interner, var, l, r, ok);
                }
                ok
            },
            (InferSort::Var(var), _) => {
                let ok = self.bind(var, r);
                proof {
                    self.lemma_bind_completes(start, *interner, var, l, r, ok);
                }
                ok
            },
            (_, InferSort::Var(var)) => {
                let ok = self.bind(var, l);
                proof {
                    self.lemma_bind_completes(start, *interner, var, r, l, ok);
                }
                ok
            },
            (InferSort::Resolved(a), InferSort::Resolved(b)) => {
                proof {
                    assert forall|sigma: spec_fn(usize) -> SortTerm|
                        #[trigger] solves(sigma, start.denote(*interner, l), start.denote(*interner, r)) implies a == b
                            && self.keeps_solution(start, *interner, sigma) by {
                        if a != b {
                            law_interned_sorts_are_equal_exactly_when_their_names_are(*interner, a, b);
                            lemma_substitute_resolved(interner.nodes(), a.index as int, sigma);
                            lemma_substitute_resolved(interner.nodes(), b.index as int, sigma);
                        }
                    }
                }
                a == b
            },
            (InferSort::Resolved(_), InferSort::Generic { .. }) => self.unify_resolved_with_generic(
                interner,
                l,
                r,
                Ghost(bound),
            ),
            (InferSort::Generic { .. }, InferSort::Resolved(_)) => self.unify_resolved_with_generic(
                interner,
                r,
                l,
                Ghost(bound),
            ),
            (InferSort::Resolved(_), InferSort::Function { .. }) => self.unify_resolved_with_function(
                interner,
                l,
                r,
                Ghost(bound),
            ),
            (InferSort::Function { .. }, InferSort::Resolved(_)) => self.unify_resolved_with_function(
                interner,
                r,
                l,
                Ghost(bound),
            ),
            (InferSort::Generic { op: lhs_op, subsort: lhs_subsort }, InferSort::Generic { op: rhs_op, subsort: rhs_subsort }) => {
                if lhs_op == rhs_op {
                    let ok = self.unify(interner, lhs_subsort, rhs_subsort);
                    proof {
                        assert forall|sigma: spec_fn(usize) -> SortTerm|
                            #[trigger] solves(sigma, start.denote(*interner, l), start.denote(*interner, r)) implies ok
                                && self.keeps_solution(start, *interner, sigma) by {
                            lemma_substitute_head(start.denote(*interner, l), sigma);
                            lemma_substitute_head(start.denote(*interner, r), sigma);
                            assert(solves(sigma, start.denote(*interner, lhs_subsort), start.denote(*interner, rhs_subsort)));
                        }
                    }
                    ok
                } else {
                    proof {
                        assert forall|sigma: spec_fn(usize) -> SortTerm|
                            #[trigger] solves(sigma, start.denote(*interner, l), start.denote(*interner, r)) implies false by {
                            lemma_substitute_head(start.denote(*interner, l), sigma);
                            lemma_substitute_head(start.denote(*interner, r), sigma);
                        }
                    }
                    false
                }
            },
            (InferSort::Function { .. }, InferSort::Function { .. }) => self.unify_functions(
                interner,
                l,
                r,
                Ghost(bound),
            ),
            _ => {
                proof {
                    start.lemma_head_not_variable(*interner, l);
                    start.lemma_head_not_variable(*interner, r);
                    assert forall|sigma: spec_fn(usize) -> SortTerm|
                        #[trigger] solves(sigma, start.denote(*interner, l), start.denote(*interner, r)) implies false by {
                        lemma_substitute_head(start.denote(*interner, l), sigma);
                        lemma_substitute_head(start.denote(*interner, r), sigma);
                    }
                }
                false
            },
        };
        proof {
            let end = *self;
            if unified {
                assert(end.arena@ == start.arena@ ==> end.arena@[l.index as int] == start.arena@[l.index as int]);
                end.lemma_extends(start, *interner, lhs);
                end.lemma_extends(start, *interner, l);
                end.lemma_extends(start, *interner, rhs);
                end.lemma_extends(start, *interner, r);
                end.lemma_unified_unifiable(start, *interner, lhs, rhs);
            }
            assert forall|sigma: spec_fn(usize) -> SortTerm|
                #[trigger] solves(sigma, start.denote(*interner, lhs), start.denote(*interner, rhs)) implies unified
                    && end.keeps_solution(start, *interner, sigma) by {
                assert(solves(sigma, start.denote(*interner, l), start.denote(*interner, r)));
                assert(solves(sigma, start.denote(*interner, r), start.denote(*interner, l)));
            }
        }
        unified
    }

    /// Unifies the node `resolved`, a resolved sort, with the node `generic`, a container sort:
    /// they unify when the resolved sort is a container of the same kind whose element sort
    /// unifies with that of `generic`.
    fn unify_resolved_with_generic(
        &mut self,
        interner: &SortInterner,
        resolved: InferSortId,
        generic: InferSortId,
        bound: Ghost<nat>,
    ) -> (r: bool)
        requires
            old(self).well_formed(),
            interner.well_formed(),
            old(self).resolved_within(*interner),
            old(self).contains(resolved),
            old(self).contains(generic),
            old(self).arena@[resolved.index as int] is Resolved,
            old(self).arena@[generic.index as int] is Generic,
            4 * (old(self).rank_of(resolved) + old(self).rank_of(generic)) + 2 <= bound@,
        ensures
            final(self).progressed_from(*old(self), *interner),
            r ==> final(self).denote(*interner, resolved) == final(self).denote(*interner, generic),
            forall|sigma: spec_fn(usize) -> SortTerm|
                #[trigger] solves(sigma, old(self).denote(*interner, resolved), old(self).denote(*interner, generic))
                    ==> r && final(self).keeps_solution(*old(self), *interner, sigma),
        decreases old(self).free_variables(), bound@,
    {
        let ghost start = *self;
        proof {
            self.lemma_progress_reflexive(*interner);
            interner.lemma_parts_precede();
            assert(node_ranked(self.arena@, self.bindings@, self.rank@, generic.index as int));
            assert(self.arena@[resolved.index as int] matches InferSort::Resolved(id) ==> id.index < interner.nodes().len());
        }
        let resolved_id = self.resolved_of(resolved);
        let op = self.generic_op(generic);
        let subsort = self.generic_subsort(generic);
        let element = container_element(interner, resolved_id, op);
        proof {
            assert(start.denote(*interner, resolved) == resolved_term(interner.nodes(), resolved_id.index as int));
            assert(start.denote(*interner, generic) == SortTerm::Container(op, Box::new(start.denote(*interner, subsort))));
        }
        let result = match element {
            Some(resolved_subsort) => {
                let node = self.resolved_node(resolved_subsort);
                let ghost mid = *self;
                proof {
                    assert(mid.progressed_from(start, *interner));
                    mid.lemma_grows(start, *interner, subsort);
                    assert(mid.rank_of(subsort) == start.rank_of(subsort)) by {
                        assert(mid.rank@.take(start.rank@.len() as int)[subsort.index as int] == mid.rank@[subsort.index as int]);
                    }
                }
                let ok = self.unify(interner, node, subsort);
                proof {
                    let end = *self;
                    end.lemma_progress_transitive(mid, start, *interner);
                    if ok {
                        end.lemma_extends(start, *interner, resolved);
                        end.lemma_extends(start, *interner, generic);
                        lemma_resolved_term_instantiated(interner.nodes(), resolved_id.index as int, end.arena@, end.bindings@, end.rank@);
                        assert(end.arena@[generic.index as int] == start.arena@[generic.index as int]) by {
                            assert(end.arena@.take(start.arena@.len() as int)[generic.index as int] == end.arena@[generic.index as int]);
                        }
                        assert(mid.denote(*interner, node) == resolved_term(interner.nodes(), resolved_subsort.index as int));
                        end.lemma_extends(mid, *interner, node);
                        lemma_resolved_term_instantiated(interner.nodes(), resolved_subsort.index as int, end.arena@, end.bindings@, end.rank@);
                        assert(end.denote(*interner, generic) == SortTerm::Container(op, Box::new(end.denote(*interner, subsort))));
                        assert(end.denote(*interner, node) == resolved_term(interner.nodes(), resolved_subsort.index as int));
                    }
                    assert(end.progressed_from(start, *interner));
                    assert forall|sigma: spec_fn(usize) -> SortTerm|
                        #[trigger] solves(sigma, start.denote(*interner, resolved), start.denote(*interner, generic)) implies ok
                            && end.keeps_solution(start, *interner, sigma) by {
                        lemma_substitute_resolved(interner.nodes(), resolved_id.index as int, sigma);
                        lemma_substitute_resolved(interner.nodes(), resolved_subsort.index as int, sigma);
                        lemma_substitute_head(start.denote(*interner, generic), sigma);
                        assert(mid.denote(*interner, node) == resolved_term(interner.nodes(), resolved_subsort.index as int));
                        assert(solves(sigma, mid.denote(*interner, node), mid.denote(*interner, subsort)));
                        mid.lemma_grows_keeps(start, *interner, sigma);
                        end.lemma_keeps_transitive(mid, start, *interner, sigma);
                    }
                }
                assert(self.progressed_from(start, *interner));
                ok
            },
            _ => {
                proof {
                    assert(self.progressed_from(start, *interner));
                    assert forall|sigma: spec_fn(usize) -> SortTerm|
                        #[trigger] solves(sigma, start.denote(*interner, resolved), start.denote(*interner, generic)) implies false by {
                        lemma_substitute_resolved(interner.nodes(), resolved_id.index as int, sigma);
                        lemma_substitute_head(start.denote(*interner, generic), sigma);
                    }
                }
                false
            },
        };
        proof {
            assert(self.progressed_from(start, *interner));
        }
        result
    }

    /// Unifies `lefts[i]` with `rights[i]`, one pair after another, as long as they unify.
    #[verifier::spinoff_prover]
    fn unify_pairs(
        &mut self,
        interner: &SortInterner,
        lefts: &Vec<InferSortId>,
        rights: &Vec<InferSortId>,
        bound: Ghost<nat>,
    ) -> (r: bool)
        requires
            old(self).well_formed(),
            interner.well_formed(),
            old(self).resolved_within(*interner),
            lefts@.len() == rights@.len(),
            forall|i: int|
                0 <= i < lefts@.len() ==> old(self).contains(#[trigger] lefts@[i]) && old(self).contains(rights@[i])
                    && 4 * (old(self).rank_of(lefts@[i]) + old(self).rank_of(rights@[i])) + 3 < bound@,
        ensures
            final(self).progressed_from(*old(self), *interner),
            r ==> forall|i: int|
                0 <= i < lefts@.len() ==> final(self).denote(*interner, #[trigger] lefts@[i]) == final(self).denote(
                    *interner,
                    rights@[i],
                ),
            forall|sigma: spec_fn(usize) -> SortTerm|
                #[trigger] old(self).solves_all(*interner, sigma, lefts@, rights@) ==> r && final(self).keeps_solution(
                    *old(self),
                    *interner,
                    sigma,
                ),
        decreases old(self).free_variables(), bound@,
    {
        let ghost start = *self;
        proof {
            self.lemma_progress_reflexive(*interner);
            assert(start == *old(self));
            assert forall|j: int|
                0 <= j < lefts@.len() implies start.contains(#[trigger] lefts@[j]) && start.contains(rights@[j])
                    && 4 * (start.rank_of(lefts@[j]) + start.rank_of(rights@[j])) + 3 < bound@ by {
                assert(old(self).contains(lefts@[j]));
            }
        }
        let mut i: usize = 0;
        while i < lefts.len()
            invariant
                i <= lefts@.len(),
                lefts@.len() == rights@.len(),
                start == *old(self),
                start.well_formed(),
                start.resolved_within(*interner),
                interner.well_formed(),
                self.progressed_from(start, *interner),
                forall|j: int|
                    0 <= j < lefts@.len() ==> start.contains(#[trigger] lefts@[j]) && start.contains(rights@[j])
                        && 4 * (start.rank_of(lefts@[j]) + start.rank_of(rights@[j])) + 3 < bound@,
                forall|j: int|
                    0 <= j < i ==> self.denote(*interner, #[trigger] lefts@[j]) == self.denote(*interner, rights@[j]),
                forall|sigma: spec_fn(usize) -> SortTerm|
                    #[trigger] start.solves_all(*interner, sigma, lefts@, rights@) ==> self.keeps_solution(
                        start,
                        *interner,
                        sigma,
                    ),
            decreases lefts.len() - i,
        {
            proof {
                self.lemma_grows_or_binds(start, lefts@[i as int]);
                self.lemma_grows_or_binds(start, rights@[i as int]);
            }
            let ghost before = *self;
            let ok = self.unify(interner, lefts[i], rights[i]);
            proof {
                self.lemma_progress_transitive(before, start, *interner);
                assert forall|j: int| 0 <= j < i implies self.denote(*interner, #[trigger] lefts@[j]) == self.denote(*interner, rights@[j]) by {
                    self.lemma_progress_keeps_equal(before, *interner, lefts@[j], rights@[j]);
                }
                assert forall|sigma: spec_fn(usize) -> SortTerm|
                    #[trigger] start.solves_all(*interner, sigma, lefts@, rights@) implies ok && self.keeps_solution(
                        start,
                        *interner,
                        sigma,
                    ) by {
                    assert(before.keeps_solution(start, *interner, sigma));
                    assert(solves(sigma, start.denote(*interner, lefts@[i as int]), start.denote(*interner, rights@[i as int])));
                    assert(substitute(before.denote(*interner, lefts@[i as int]), sigma) == substitute(
                        start.denote(*interner, lefts@[i as int]),
                        sigma,
                    ));
                    assert(substitute(before.denote(*interner, rights@[i as int]), sigma) == substitute(
                        start.denote(*interner, rights@[i as int]),
                        sigma,
                    ));
                    assert(solves(sigma, before.denote(*interner, lefts@[i as int]), before.denote(*interner, rights@[i as int])));
                    self.lemma_keeps_transitive(before, start, *interner, sigma);
                }
            }
            if !ok {
                return false;
            }
            i = i + 1;
        }
        true
    }

    /// Where a state that went on from `earlier` bound no variable, its nodes of `earlier` have
    /// their ranks there.
    proof fn lemma_grows_or_binds(&self, earlier: Unifier, id: InferSortId)
        requires
            self.extends(earlier),
            self.bindings@.len() == earlier.bindings@.len(),
            free_count(self.bindings@) <= free_count(earlier.bindings@),
            free_count(self.bindings@) == free_count(earlier.bindings@) ==> {
                &&& self.bindings@ == earlier.bindings@
                &&& earlier.rank@.len() <= self.rank@.len()
                &&& self.rank@.take(earlier.rank@.len() as int) == earlier.rank@
            },
            earlier.well_formed(),
            earlier.contains(id),
        ensures
            self.free_variables() < earlier.free_variables() || (self.free_variables() == earlier.free_variables()
                && self.rank_of(id) == earlier.rank_of(id)),
    {
        if self.free_variables() == earlier.free_variables() {
            assert(self.rank@.take(earlier.rank@.len() as int)[id.index as int] == self.rank@[id.index as int]);
        }
    }

    /// Unifies the stored sort `resolved[i]` with `rights[i]`, one pair after another, as long as
    /// they unify.
    fn unify_resolved_pairs(
        &mut self,
        interner: &SortInterner,
        resolved: &Vec<ResolvedSortId>,
        rights: &Vec<InferSortId>,
        bound: Ghost<nat>,
    ) -> (r: bool)
        requires
            old(self).well_formed(),
            interner.well_formed(),
            old(self).resolved_within(*interner),
            resolved@.len() == rights@.len(),
            forall|i: int|
                0 <= i < resolved@.len() ==> interner.contains(#[trigger] resolved@[i]) && old(self).contains(rights@[i])
                    && 4 * old(self).rank_of(rights@[i]) + 3 < bound@,
        ensures
            final(self).progressed_from(*old(self), *interner),
            r ==> forall|i: int|
                0 <= i < resolved@.len() ==> final(self).denote(*interner, #[trigger] rights@[i]) == resolved_term(
                    interner.nodes(),
                    resolved@[i].index as int,
                ),
            forall|sigma: spec_fn(usize) -> SortTerm|
                #[trigger] old(self).solves_resolved(*interner, sigma, resolved@, rights@) ==> r
                    && final(self).keeps_solution(*old(self), *interner, sigma),
        decreases old(self).free_variables(), bound@,
    {
        let ghost start = *self;
        proof {
            self.lemma_progress_reflexive(*interner);
            interner.lemma_parts_precede();
            assert(start == *old(self));
            assert forall|j: int|
                0 <= j < resolved@.len() implies interner.contains(#[trigger] resolved@[j]) && start.contains(rights@[j])
                    && 4 * start.rank_of(rights@[j]) + 3 < bound@ by {
                assert(interner.contains(resolved@[j]));
            }
        }
        let mut i: usize = 0;
        while i < resolved.len()
            invariant
                i <= resolved@.len(),
                resolved@.len() == rights@.len(),
                start == *old(self),
                start.well_formed(),
                start.resolved_within(*interner),
                interner.well_formed(),
                parts_precede(interner.nodes()),
                self.progressed_from(start, *interner),
                forall|j: int|
                    0 <= j < resolved@.len() ==> interner.contains(#[trigger] resolved@[j]) && start.contains(rights@[j])
                        && 4 * start.rank_of(rights@[j]) + 3 < bound@,
                forall|j: int|
                    0 <= j < i ==> self.denote(*interner, #[trigger] rights@[j]) == resolved_term(
                        interner.nodes(),
                        resolved@[j].index as int,
                    ),
                forall|sigma: spec_fn(usize) -> SortTerm|
                    #[trigger] start.solves_resolved(*interner, sigma, resolved@, rights@) ==> self.keeps_solution(
                        start,
                        *interner,
                        sigma,
                    ),
            decreases resolved.len() - i,
        {
            let ghost before = *self;
            let node = self.resolved_node(resolved[i]);
            let ghost mid = *self;
            proof {
                mid.lemma_progress_transitive(before, start, *interner);
                mid.lemma_grows_or_binds(start, rights@[i as int]);
            }
            let ok = self.unify(interner, node, rights[i]);
            proof {
                self.lemma_progress_transitive(mid, start, *interner);
                assert forall|j: int| 0 <= j < i implies self.denote(*interner, #[trigger] rights@[j]) == resolved_term(
                    interner.nodes(),
                    resolved@[j].index as int,
                ) by {
                    self.lemma_progress_transitive(mid, before, *interner);
                    self.lemma_progress_keeps_resolved(before, *interner, rights@[j], resolved@[j]);
                }
                if ok {
                    assert(mid.denote(*interner, node) == resolved_term(interner.nodes(), resolved@[i as int].index as int));
                    self.lemma_progress_keeps_resolved(mid, *interner, node, resolved@[i as int]);
                }
                assert forall|sigma: spec_fn(usize) -> SortTerm|
                    #[trigger] start.solves_resolved(*interner, sigma, resolved@, rights@) implies ok
                        && self.keeps_solution(start, *interner, sigma) by {
                    let stored = resolved@[i as int];
                    assert(before.keeps_solution(start, *interner, sigma));
                    mid.lemma_grows_keeps(before, *interner, sigma);
                    mid.lemma_keeps_transitive(before, start, *interner, sigma);
                    assert(solves(
                        sigma,
                        resolved_term(interner.nodes(), stored.index as int),
                        start.denote(*interner, rights@[i as int]),
                    ));
                    assert(substitute(mid.denote(*interner, rights@[i as int]), sigma) == substitute(
                        start.denote(*interner, rights@[i as int]),
                        sigma,
                    ));
                    assert(mid.denote(*interner, node) == resolved_term(interner.nodes(), stored.index as int));
                    assert(solves(sigma, mid.denote(*interner, node), mid.denote(*interner, rights@[i as int])));
                    self.lemma_keeps_transitive(mid, start, *interner, sigma);
                }
            }
            if !ok {
                return false;
            }
            i = i + 1;
        }
        true
    }

    /// Unifies two function sorts: they unify when they take as many arguments, their argument
    /// sorts unify pairwise, and their result sorts unify.
    fn unify_functions(&mut self, interner: &SortInterner, lhs: InferSortId, rhs: InferSortId, bound: Ghost<nat>) -> (r: bool)
        requires
            old(self).well_formed(),
            interner.well_formed(),
            old(self).resolved_within(*interner),
            old(self).contains(lhs),
            old(self).contains(rhs),
            old(self).arena@[lhs.index as int] is Function,
            old(self).arena@[rhs.index as int] is Function,
            4 * (old(self).rank_of(lhs) + old(self).rank_of(rhs)) + 2 <= bound@,
        ensures
            final(self).progressed_from(*old(self), *interner),
            r ==> final(self).denote(*interner, lhs) == final(self).denote(*interner, rhs),
            forall|sigma: spec_fn(usize) -> SortTerm|
                #[trigger] solves(sigma, old(self).denote(*interner, lhs), old(self).denote(*interner, rhs)) ==> r
                    && final(self).keeps_solution(*old(self), *interner, sigma),
        decreases old(self).free_variables(), bound@,
    {
        let ghost start = *self;
        proof {
            self.lemma_progress_reflexive(*interner);
            assert(node_ranked(self.arena@, self.bindings@, self.rank@, lhs.index as int));
            assert(node_ranked(self.arena@, self.bindings@, self.rank@, rhs.index as int));
        }
        let left = self.copy_node(lhs);
        let right = self.copy_node(rhs);
        let (lhs_domain, lhs_range) = match left {
            InferSort::Function { domain, range } => (domain, range),
            _ => (Vec::new(), lhs),
        };
        let (rhs_domain, rhs_range) = match right {
            InferSort::Function { domain, range } => (domain, range),
            _ => (Vec::new(), rhs),
        };
        proof {
            let left_term = start.denote(*interner, lhs);
            let right_term = start.denote(*interner, rhs);
            assert(left_term->Function_0.len() == lhs_domain@.len());
            assert(right_term->Function_0.len() == rhs_domain@.len());
            assert forall|j: int| 0 <= j < lhs_domain@.len() implies #[trigger] left_term->Function_0[j] == start.denote(
                *interner,
                lhs_domain@[j],
            ) by {}
            assert forall|j: int| 0 <= j < rhs_domain@.len() implies #[trigger] right_term->Function_0[j] == start.denote(
                *interner,
                rhs_domain@[j],
            ) by {}
            assert forall|sigma: spec_fn(usize) -> SortTerm|
                #[trigger] solves(sigma, left_term, right_term) implies lhs_domain@.len() == rhs_domain@.len()
                    && start.solves_all(*interner, sigma, lhs_domain@, rhs_domain@) && solves(
                    sigma,
                    start.denote(*interner, lhs_range),
                    start.denote(*interner, rhs_range),
                ) by {
                lemma_substitute_head(left_term, sigma);
                lemma_substitute_head(right_term, sigma);
                assert forall|j: int| 0 <= j < lhs_domain@.len() implies #[trigger] solves(
                    sigma,
                    start.denote(*interner, lhs_domain@[j]),
                    start.denote(*interner, rhs_domain@[j]),
                ) by {
                    assert(substitute(left_term, sigma)->Function_0[j] == substitute(right_term, sigma)->Function_0[j]);
                }
            }
        }
        if lhs_domain.len() != rhs_domain.len() {
            return false;
        }
        if !self.unify_pairs(interner, &lhs_domain, &rhs_domain, Ghost((bound@ - 1) as nat)) {
            return false;
        }
        let ghost mid = *self;
        proof {
            mid.lemma_grows_or_binds(start, lhs_range);
            mid.lemma_grows_or_binds(start, rhs_range);
        }
        let ok = self.unify(interner, lhs_range, rhs_range);
        proof {
            let end = *self;
            end.lemma_progress_transitive(mid, start, *interner);
            if ok {
                end.lemma_extends(start, *interner, lhs);
                end.lemma_extends(start, *interner, rhs);
                assert(end.arena@[lhs.index as int] == start.arena@[lhs.index as int]) by {
                    assert(end.arena@.take(start.arena@.len() as int)[lhs.index as int] == end.arena@[lhs.index as int]);
                }
                assert(end.arena@[rhs.index as int] == start.arena@[rhs.index as int]) by {
                    assert(end.arena@.take(start.arena@.len() as int)[rhs.index as int] == end.arena@[rhs.index as int]);
                }
                assert forall|i: int| 0 <= i < lhs_domain@.len() implies end.denote(*interner, #[trigger] lhs_domain@[i])
                    == end.denote(*interner, rhs_domain@[i]) by {
                    end.lemma_progress_keeps_equal(mid, *interner, lhs_domain@[i], rhs_domain@[i]);
                }
                let left_term = end.denote(*interner, lhs);
                let right_term = end.denote(*interner, rhs);
                assert(left_term->Function_0 =~= right_term->Function_0) by {
                    assert forall|i: int| 0 <= i < left_term->Function_0.len() implies left_term->Function_0[i] == right_term->Function_0[i] by {
                        assert(left_term->Function_0[i] == end.denote(*interner, lhs_domain@[i]));
                        assert(right_term->Function_0[i] == end.denote(*interner, rhs_domain@[i]));
                    }
                }
            }
            assert forall|sigma: spec_fn(usize) -> SortTerm|
                #[trigger] solves(sigma, start.denote(*interner, lhs), start.denote(*interner, rhs)) implies ok
                    && end.keeps_solution(start, *interner, sigma) by {
                assert(start.solves_all(*interner, sigma, lhs_domain@, rhs_domain@));
                assert(mid.keeps_solution(start, *interner, sigma));
                assert(substitute(mid.denote(*interner, lhs_range), sigma) == substitute(
                    start.denote(*interner, lhs_range),
                    sigma,
                ));
                assert(substitute(mid.denote(*interner, rhs_range), sigma) == substitute(
                    start.denote(*interner, rhs_range),
                    sigma,
                ));
                assert(solves(sigma, mid.denote(*interner, lhs_range), mid.denote(*interner, rhs_range)));
                end.lemma_keeps_transitive(mid, start, *interner, sigma);
            }
        }
        ok
    }

    /// Unifies the node `resolved`, a resolved sort, with the node `function`, a function sort:
    /// they unify when the resolved sort is a function sort of as many arguments whose argument
    /// and result sorts unify with those of `function`.
    fn unify_resolved_with_function(
        &mut self,
        interner: &SortInterner,
        resolved: InferSortId,
        function: InferSortId,
        bound: Ghost<nat>,
    ) -> (r: bool)
        requires
            old(self).well_formed(),
            interner.well_formed(),
            old(self).resolved_within(*interner),
            old(self).contains(resolved),
            old(self).contains(function),
            old(self).arena@[resolved.index as int] is Resolved,
            old(self).arena@[function.index as int] is Function,
            4 * (old(self).rank_of(resolved) + old(self).rank_of(function)) + 2 <= bound@,
        ensures
            final(self).progressed_from(*old(self), *interner),
            r ==> final(self).denote(*interner, resolved) == final(self).denote(*interner, function),
            forall|sigma: spec_fn(usize) -> SortTerm|
                #[trigger] solves(sigma, old(self).denote(*interner, resolved), old(self).denote(*interner, function))
                    ==> r && final(self).keeps_solution(*old(self), *interner, sigma),
        decreases old(self).free_variables(), bound@,
    {
        let ghost start = *self;
        proof {
            self.lemma_progress_reflexive(*interner);
            interner.lemma_parts_precede();
            assert(node_ranked(self.arena@, self.bindings@, self.rank@, function.index as int));
            assert(self.arena@[resolved.index as int] matches InferSort::Resolved(id) ==> id.index < interner.nodes().len());
        }
        let resolved_id = self.resolved_of(resolved);
        let (domain, range) = match self.copy_node(function) {
            InferSort::Function { domain, range } => (domain, range),
            _ => (Vec::new(), function),
        };
        let parts = function_parts(interner, resolved_id, domain.len());
        proof {
            let left_term = start.denote(*interner, resolved);
            let right_term = start.denote(*interner, function);
            assert(left_term == resolved_term(interner.nodes(), resolved_id.index as int));
            assert(right_term->Function_0.len() == domain@.len());
            assert forall|sigma: spec_fn(usize) -> SortTerm|
                #[trigger] solves(sigma, left_term, right_term) implies parts is Some by {
                lemma_substitute_resolved(interner.nodes(), resolved_id.index as int, sigma);
                lemma_substitute_head(right_term, sigma);
            }
        }
        let (resolved_domain, resolved_range) = match parts {
            Some(parts) => parts,
            None => {
                return false;
            },
        };
        proof {
            assert forall|i: int| 0 <= i < domain@.len() implies self.contains(#[trigger] domain@[i])
                && 4 * self.rank_of(domain@[i]) + 3 < bound@ - 1 by {
                assert(self.arena@[function.index as int]->Function_domain@[i] == domain@[i]);
            }
            assert forall|i: int| 0 <= i < resolved_domain@.len() implies interner.contains(#[trigger] resolved_domain@[i]) by {
                assert(interner.nodes()[resolved_id.index as int] matches ResolvedSort::Function { domain: stored, .. } && stored@[i] == resolved_domain@[i]);
            }
            let left_term = start.denote(*interner, resolved);
            let right_term = start.denote(*interner, function);
            assert forall|sigma: spec_fn(usize) -> SortTerm|
                #[trigger] solves(sigma, left_term, right_term) implies start.solves_resolved(
                    *interner,
                    sigma,
                    resolved_domain@,
                    domain@,
                ) && solves(
                    sigma,
                    resolved_term(interner.nodes(), resolved_range.index as int),
                    start.denote(*interner, range),
                ) by {
                lemma_substitute_resolved(interner.nodes(), resolved_id.index as int, sigma);
                lemma_substitute_resolved(interner.nodes(), resolved_range.index as int, sigma);
                lemma_substitute_head(right_term, sigma);
                assert forall|j: int| 0 <= j < resolved_domain@.len() implies #[trigger] solves(
                    sigma,
                    resolved_term(interner.nodes(), resolved_domain@[j].index as int),
                    start.denote(*interner, domain@[j]),
                ) by {
                    lemma_substitute_resolved(interner.nodes(), resolved_domain@[j].index as int, sigma);
                    assert(left_term->Function_0[j] == resolved_term(interner.nodes(), resolved_domain@[j].index as int));
                    assert(right_term->Function_0[j] == start.denote(*interner, domain@[j]));
                    assert(substitute(right_term, sigma)->Function_0[j] == substitute(left_term, sigma)->Function_0[j]);
                }
            }
        }
        if !self.unify_resolved_pairs(interner, &resolved_domain, &domain, Ghost((bound@ - 1) as nat)) {
            return false;
        }
        let ghost after_pairs = *self;
        let node = self.resolved_node(resolved_range);
        let ghost mid = *self;
        proof {
            mid.lemma_progress_transitive(after_pairs, start, *interner);
            mid.lemma_grows_or_binds(start, range);
        }
        let ok = self.unify(interner, node, range);
        proof {
            let end = *self;
            end.lemma_progress_transitive(mid, start, *interner);
            if ok {
                end.lemma_extends(start, *interner, resolved);
                end.lemma_extends(start, *interner, function);
                lemma_resolved_term_instantiated(interner.nodes(), resolved_id.index as int, end.arena@, end.bindings@, end.rank@);
                assert(end.arena@[function.index as int] == start.arena@[function.index as int]) by {
                    assert(end.arena@.take(start.arena@.len() as int)[function.index as int] == end.arena@[function.index as int]);
                }
                assert(mid.denote(*interner, node) == resolved_term(interner.nodes(), resolved_range.index as int));
                end.lemma_progress_keeps_resolved(mid, *interner, node, resolved_range);
                end.lemma_progress_transitive(mid, after_pairs, *interner);
                assert forall|i: int| 0 <= i < domain@.len() implies end.denote(*interner, #[trigger] domain@[i])
                    == resolved_term(interner.nodes(), resolved_domain@[i].index as int) by {
                    end.lemma_progress_keeps_resolved(after_pairs, *interner, domain@[i], resolved_domain@[i]);
                }
                let left_term = end.denote(*interner, resolved);
                let right_term = end.denote(*interner, function);
                assert(left_term->Function_0 =~= right_term->Function_0) by {
                    assert forall|i: int| 0 <= i < left_term->Function_0.len() implies left_term->Function_0[i] == right_term->Function_0[i] by {
                        assert(right_term->Function_0[i] == end.denote(*interner, domain@[i]));
                    }
                }
            }
            assert forall|sigma: spec_fn(usize) -> SortTerm|
                #[trigger] solves(sigma, start.denote(*interner, resolved), start.denote(*interner, function)) implies ok
                    && end.keeps_solution(start, *interner, sigma) by {
                assert(start.solves_resolved(*interner, sigma, resolved_domain@, domain@));
                assert(after_pairs.keeps_solution(start, *interner, sigma));
                mid.lemma_grows_keeps(after_pairs, *interner, sigma);
                mid.lemma_keeps_transitive(after_pairs, start, *interner, sigma);
                assert(substitute(mid.denote(*interner, range), sigma) == substitute(start.denote(*interner, range), sigma));
                assert(mid.denote(*interner, node) == resolved_term(interner.nodes(), resolved_range.index as int));
                assert(solves(sigma, mid.denote(*interner, node), mid.denote(*interner, range)));
                end.lemma_keeps_transitive(mid, start, *interner, sigma);
            }
        }
        ok
    }

    /// What a node stands for does not change when the interner it reads resolved sorts from
    /// stores more sorts.
    pub proof fn lemma_denote_interner_grows(&self, earlier: SortInterner, later: SortInterner, id: InferSortId)
        requires
            self.well_formed(),
            earlier.well_formed(),
            later.well_formed(),
            later.extends(earlier),
            self.resolved_within(earlier),
            self.contains(id),
        ensures
            self.denote(later, id) == self.denote(earlier, id),
            self.resolved_within(later),
        decreases self.rank_of(id),
    {
        assert(node_ranked(self.arena@, self.bindings@, self.rank@, id.index as int));
        match self.arena@[id.index as int] {
            InferSort::Resolved(resolved) => {
                later.lemma_extends(earlier, resolved);
            },
            InferSort::Generic { subsort, .. } => {
                self.lemma_denote_interner_grows(earlier, later, subsort);
            },
            InferSort::Function { domain, range } => {
                self.lemma_denote_interner_grows(earlier, later, range);
                assert forall|i: int| 0 <= i < domain@.len() implies self.denote(later, #[trigger] domain@[i])
                    == self.denote(earlier, domain@[i]) by {
                    self.lemma_denote_interner_grows(earlier, later, domain@[i]);
                }
                assert(self.denote(later, id)->Function_0 =~= self.denote(earlier, id)->Function_0);
            },
            InferSort::Var(var) => {
                match self.bindings@[var.index as int] {
                    Some(target) => {
                        self.lemma_denote_interner_grows(earlier, later, target);
                    },
                    None => {},
                }
            },
        }
        assert forall|m: int| 0 <= m < self.arena@.len() implies (#[trigger] self.arena@[m] matches InferSort::Resolved(
            resolved,
        ) ==> resolved.index < later.nodes().len()) by {}
    }

    /// Nodes that stand for the same sort, as a successful [`Unifier::unify`] leaves them, stand
    /// for unifiable sorts: unifying them again succeeds.
    pub proof fn law_unified_nodes_unify_again(&self, interner: SortInterner, a: InferSortId, b: InferSortId)
        requires
            self.denote(interner, a) == self.denote(interner, b),
        ensures
            unifiable(self.denote(interner, a), self.denote(interner, b)),
    {
        assert(solves(|v: usize| SortTerm::Variable(v), self.denote(interner, a), self.denote(interner, b)));
    }

    /// Nodes that stand for the same sort resolve to the same name: `first` is what
    /// [`Unifier::resolve`] gives for `a` while the interner goes from `start` to `middle`, and
    /// `second` what it gives for `b` while the interner goes on from `middle` to `end`.
    pub proof fn law_unified_nodes_resolve_alike(
        &self,
        start: SortInterner,
        middle: SortInterner,
        end: SortInterner,
        a: InferSortId,
        b: InferSortId,
        first: ResolvedSortId,
        second: ResolvedSortId,
    )
        requires
            self.well_formed(),
            start.well_formed(),
            middle.well_formed(),
            end.well_formed(),
            middle.extends(start),
            end.extends(middle),
            self.resolved_within(start),
            self.contains(a),
            self.contains(b),
            self.denote(start, a) == self.denote(start, b),
            middle.contains(first),
            middle.term(first) == self.denote(start, a),
            end.contains(second),
            end.term(second) == self.denote(middle, b),
        ensures
            first == second,
    {
        end.lemma_extends(middle, first);
        self.lemma_denote_interner_grows(start, middle, b);
        law_interned_sorts_are_equal_exactly_when_their_names_are(end, first, second);
    }

    /// The resolved sort that `id` stands for, interned, or `None` when a free variable remains
    /// in it, that is, when the sort is underdetermined.
    pub fn resolve(&self, interner: &mut SortInterner, id: InferSortId) -> (r: Option<ResolvedSortId>)
        requires
            self.well_formed(),
            old(interner).well_formed(),
            self.resolved_within(*old(interner)),
            self.contains(id),
        ensures
            final(interner).well_formed(),
            final(interner).extends(*old(interner)),
            self.resolved_within(*final(interner)),
            match r {
                Some(resolved) => final(interner).contains(resolved) && final(interner).term(resolved)
                    == self.denote(*old(interner), id),
                None => !is_ground(self.denote(*old(interner), id)),
            },
        decreases self.rank_of(id),
    {
        let ghost start = *interner;
        proof {
            interner.lemma_extends_reflexive();
            interner.lemma_parts_precede();
        }
        let normal = self.shallow_normalize(id);
        proof {
            assert(node_ranked(self.arena@, self.bindings@, self.rank@, normal.index as int));
            assert(self.denote(start, normal) == self.denote(start, id));
            assert(self.arena@[normal.index as int] matches InferSort::Resolved(resolved) ==> resolved.index < start.nodes().len());
        }
        match self.copy_node(normal) {
            InferSort::Var(_) => None,
            InferSort::Resolved(resolved) => Some(resolved),
            InferSort::Generic { op, subsort } => match self.resolve(interner, subsort) {
                None => None,
                Some(element) => {
                    let ghost middle = *interner;
                    let r = interner.generic(op, element);
                    proof {
                        interner.lemma_extends_transitive(middle, start);
                        self.lemma_denote_interner_grows(start, *interner, id);
                    }
                    Some(r)
                },
            },
            InferSort::Function { domain, range } => {
                let mut resolved_domain: Vec<ResolvedSortId> = Vec::new();
                let mut i: usize = 0;
                while i < domain.len()
                    invariant
                        self.well_formed(),
                        start.well_formed(),
                        self.resolved_within(start),
                        interner.well_formed(),
                        interner.extends(start),
                        self.resolved_within(*interner),
                        i <= domain@.len(),
                        self.arena@[normal.index as int] matches InferSort::Function { domain: stored, range: stored_range }
                            && stored@ == domain@ && stored_range == range,
                        self.contains(normal),
                        self.rank@[normal.index as int] <= self.rank@[id.index as int],
                        start == *old(interner),
                        self.denote(start, normal) == self.denote(start, id),
                        resolved_domain@.len() == i,
                        forall|j: int|
                            0 <= j < i ==> interner.contains(#[trigger] resolved_domain@[j]) && interner.term(resolved_domain@[j])
                                == self.denote(start, domain@[j]),
                    decreases domain.len() - i,
                {
                    proof {
                        assert(node_ranked(self.arena@, self.bindings@, self.rank@, normal.index as int));
                        assert(self.arena@[normal.index as int]->Function_domain@[i as int] == domain@[i as int]);
                    }
                    let ghost before = *interner;
                    match self.resolve(interner, domain[i]) {
                        None => {
                            proof {
                                interner.lemma_extends_transitive(before, start);
                                self.lemma_denote_interner_grows(start, before, domain@[i as int]);
                                let term = self.denote(start, normal);
                                assert(term->Function_0[i as int] == self.denote(start, domain@[i as int]));
                                assert(self.denote(start, normal) == self.denote(start, id));
                            }
                            return None;
                        },
                        Some(argument) => {
                            proof {
                                interner.lemma_extends_transitive(before, start);
                                self.lemma_denote_interner_grows(start, before, domain@[i as int]);
                                assert forall|j: int| 0 <= j < i implies interner.contains(#[trigger] resolved_domain@[j])
                                    && interner.term(resolved_domain@[j]) == self.denote(start, domain@[j]) by {
                                    interner.lemma_extends(before, resolved_domain@[j]);
                                }
                            }
                            resolved_domain.push(argument);
                        },
                    }
                    i = i + 1;
                }
                proof {
                    assert(node_ranked(self.arena@, self.bindings@, self.rank@, normal.index as int));
                }
                let ghost before = *interner;
                match self.resolve(interner, range) {
                    None => {
                        proof {
                            interner.lemma_extends_transitive(before, start);
                            self.lemma_denote_interner_grows(start, before, range);
                        }
                        None
                    },
                    Some(result) => {
                        let ghost middle = *interner;
                        proof {
                            interner.lemma_extends_transitive(before, start);
                            self.lemma_denote_interner_grows(start, before, range);
                            assert forall|j: int| 0 <= j < resolved_domain@.len() implies interner.contains(#[trigger] resolved_domain@[j])
                                && interner.term(resolved_domain@[j]) == self.denote(start, domain@[j]) by {
                                interner.lemma_extends(before, resolved_domain@[j]);
                            }
                        }
                        let ghost arguments = resolved_domain@;
                        let r = interner.function(resolved_domain, result);
                        proof {
                            interner.lemma_extends_transitive(middle, start);
                            self.lemma_denote_interner_grows(start, *interner, id);
                            let term = self.denote(start, normal);
                            assert(term->Function_0 =~= Seq::new(arguments.len(), |j: int| middle.term(arguments[j])));
                            assert(self.denote(start, normal) == self.denote(start, id));
                        }
                        Some(r)
                    },
                }
            },
        }
    }

    /// Like [`Unifier::resolve`], but every free variable left is taken to be the sort
    /// `default`, so the result is always resolved.
    pub fn resolve_or_default(&self, interner: &mut SortInterner, id: InferSortId, default: ResolvedSortId) -> (r:
        ResolvedSortId)
        requires
            self.well_formed(),
            old(interner).well_formed(),
            self.resolved_within(*old(interner)),
            self.contains(id),
            old(interner).contains(default),
        ensures
            final(interner).well_formed(),
            final(interner).extends(*old(interner)),
            self.resolved_within(*final(interner)),
            final(interner).contains(r),
            final(interner).term(r) == defaulted(self.denote(*old(interner), id), old(interner).term(default)),
        decreases self.rank_of(id),
    {
        let ghost start = *interner;
        let ghost fallback = start.term(default);
        proof {
            interner.lemma_extends_reflexive();
            interner.lemma_parts_precede();
        }
        let normal = self.shallow_normalize(id);
        proof {
            assert(node_ranked(self.arena@, self.bindings@, self.rank@, normal.index as int));
            assert(self.denote(start, normal) == self.denote(start, id));
            assert(self.arena@[normal.index as int] matches InferSort::Resolved(resolved) ==> resolved.index < start.nodes().len());
        }
        match self.copy_node(normal) {
            InferSort::Var(_) => default,
            InferSort::Resolved(resolved) => {
                proof {
                    lemma_resolved_term_ground(start.nodes(), resolved.index as int, fallback);
                }
                resolved
            },
            InferSort::Generic { op, subsort } => {
                let element = self.resolve_or_default(interner, subsort, default);
                let ghost middle = *interner;
                let r = interner.generic(op, element);
                proof {
                    interner.lemma_extends_transitive(middle, start);
                    self.lemma_denote_interner_grows(start, *interner, id);
                }
                r
            },
            InferSort::Function { domain, range } => {
                let mut resolved_domain: Vec<ResolvedSortId> = Vec::new();
                let mut i: usize = 0;
                while i < domain.len()
                    invariant
                        self.well_formed(),
                        start.well_formed(),
                        self.resolved_within(start),
                        start.contains(default),
                        fallback == start.term(default),
                        interner.well_formed(),
                        interner.extends(start),
                        self.resolved_within(*interner),
                        i <= domain@.len(),
                        self.arena@[normal.index as int] matches InferSort::Function { domain: stored, range: stored_range }
                            && stored@ == domain@ && stored_range == range,
                        self.contains(normal),
                        self.rank@[normal.index as int] <= self.rank@[id.index as int],
                        start == *old(interner),
                        resolved_domain@.len() == i,
                        forall|j: int|
                            0 <= j < i ==> interner.contains(#[trigger] resolved_domain@[j]) && interner.term(resolved_domain@[j])
                                == defaulted(self.denote(start, domain@[j]), fallback),
                    decreases domain.len() - i,
                {
                    proof {
                        assert(node_ranked(self.arena@, self.bindings@, self.rank@, normal.index as int));
                        assert(self.arena@[normal.index as int]->Function_domain@[i as int] == domain@[i as int]);
                        interner.lemma_extends(start, default);
                    }
                    let ghost before = *interner;
                    let argument = self.resolve_or_default(interner, domain[i], default);
                    proof {
                        interner.lemma_extends_transitive(before, start);
                        self.lemma_denote_interner_grows(start, before, domain@[i as int]);
                        assert forall|j: int| 0 <= j < i implies interner.contains(#[trigger] resolved_domain@[j])
                            && interner.term(resolved_domain@[j]) == defaulted(self.denote(start, domain@[j]), fallback) by {
                            interner.lemma_extends(before, resolved_domain@[j]);
                        }
                    }
                    resolved_domain.push(argument);
                    i = i + 1;
                }
                proof {
                    assert(node_ranked(self.arena@, self.bindings@, self.rank@, normal.index as int));
                    interner.lemma_extends(start, default);
                }
                let ghost before = *interner;
                let result = self.resolve_or_default(interner, range, default);
                let ghost middle = *interner;
                proof {
                    interner.lemma_extends_transitive(before, start);
                    self.lemma_denote_interner_grows(start, before, range);
                    assert forall|j: int| 0 <= j < resolved_domain@.len() implies interner.contains(#[trigger] resolved_domain@[j])
                        && interner.term(resolved_domain@[j]) == defaulted(self.denote(start, domain@[j]), fallback) by {
                        interner.lemma_extends(before, resolved_domain@[j]);
                    }
                }
                let ghost arguments = resolved_domain@;
                let r = interner.function(resolved_domain, result);
                proof {
                    interner.lemma_extends_transitive(middle, start);
                    self.lemma_denote_interner_grows(start, *interner, id);
                    let term = self.denote(start, normal);
                    assert(defaulted(term, fallback)->Function_0 =~= Seq::new(arguments.len(), |j: int| middle.term(arguments[j])));
                }
                r
            },
        }
    }

    /// The sorts strictly above (`Super`) or below (`Sub`) the sort that `id` stands for, nearest
    /// first, as nodes; or `None` when it stands for a free variable, whose related sorts cannot be
    /// listed. Only the head is widened or narrowed: `Nat` has sorts above it, `List(Nat)` none;
    /// and a function sort has none either.
    pub fn strict_related_sorts(
        &mut self,
        interner: &mut SortInterner,
        id: InferSortId,
        direction: Direction,
    ) -> (r: Option<Vec<InferSortId>>)
        requires
            old(self).well_formed(),
            old(interner).well_formed(),
            old(self).resolved_within(*old(interner)),
            old(self).contains(id),
        ensures
            final(interner).well_formed(),
            final(interner).extends(*old(interner)),
            final(self).well_formed(),
            final(self).grows(*old(self)),
            final(self).variable_count() == old(self).variable_count(),
            final(self).resolved_within(*final(interner)),
            match r {
                None => old(self).denote(*old(interner), id) is Variable,
                Some(nodes) => {
                    &&& forall|i: int| 0 <= i < nodes@.len() ==> final(self).contains(#[trigger] nodes@[i])
                    &&& Seq::new(nodes@.len(), |i: int| final(self).denote(*final(interner), nodes@[i]))
                        == related_terms(old(self).denote(*old(interner), id), direction)
                },
            },
            r is None <==> old(self).denote(*old(interner), id) is Variable,
    {
        let ghost start = *self;
        let ghost start_interner = *interner;
        proof {
            self.lemma_grows_reflexive();
            interner.lemma_extends_reflexive();
            interner.lemma_parts_precede();
        }
        let normal = self.shallow_normalize(id);
        proof {
            assert(node_ranked(self.arena@, self.bindings@, self.rank@, normal.index as int));
            assert(self.denote(start_interner, normal) == self.denote(start_interner, id));
            assert(self.arena@[normal.index as int] matches InferSort::Resolved(resolved) ==> resolved.index < start_interner.nodes().len());
            if !(self.arena@[normal.index as int] is Var) {
                start.lemma_head_not_variable(start_interner, normal);
            }
        }
        match self.copy_node(normal) {
            InferSort::Var(_) => None,
            InferSort::Resolved(resolved) => {
                match copy_resolved(interner, resolved) {
                    ResolvedSort::Primitive(sort) => {
                        let related = related_numbers(sort, direction);
                        let mut nodes: Vec<InferSortId> = Vec::new();
                        let mut i: usize = 0;
                        while i < related.len()
                            invariant
                                i <= related@.len(),
                                *interner == start_interner,
                                interner.well_formed(),
                                start.well_formed(),
                                self.well_formed(),
                                self.grows(start),
                                self.variable_count() == start.variable_count(),
                                self.resolved_within(*interner),
                                nodes@.len() == i,
                                forall|j: int|
                                    0 <= j < i ==> self.contains(#[trigger] nodes@[j]) && self.denote(*interner, nodes@[j])
                                        == SortTerm::Basic(related@[j]),
                            decreases related.len() - i,
                        {
                            let primitive = interner.primitive(related[i]);
                            let ghost before = *self;
                            let node = self.resolved_node(primitive);
                            proof {
                                self.lemma_grows_transitive(before, start);
                                assert forall|j: int| 0 <= j < i implies self.contains(#[trigger] nodes@[j])
                                    && self.denote(*interner, nodes@[j]) == SortTerm::Basic(related@[j]) by {
                                    self.lemma_grows(before, *interner, nodes@[j]);
                                }
                            }
                            nodes.push(node);
                            i = i + 1;
                        }
                        proof {
                            let term = start.denote(start_interner, id);
                            assert(Seq::new(nodes@.len(), |j: int| self.denote(*interner, nodes@[j])) =~= related_terms(term, direction));
                        }
                        Some(nodes)
                    },
                    ResolvedSort::Container { op, subsort } => match related_container(op, direction) {
                        Some(other) => {
                            let wider = interner.generic(other, subsort);
                            let ghost before = *self;
                            let node = self.resolved_node(wider);
                            proof {
                                self.lemma_grows_transitive(before, start);
                                interner.lemma_extends(start_interner, subsort);
                                start.lemma_denote_interner_grows(start_interner, *interner, id);
                                let nodes = seq![node];
                                assert(Seq::new(nodes.len(), |j: int| self.denote(*interner, nodes[j])) =~= related_terms(
                                    start.denote(start_interner, id),
                                    direction,
                                ));
                            }
                            Some(vec![node])
                        },
                        None => {
                            proof {
                                assert(related_terms(start.denote(start_interner, id), direction) =~= Seq::<SortTerm>::empty());
                            }
                            Some(Vec::new())
                        },
                    },
                    ResolvedSort::Function { .. } => {
                        proof {
                            assert(related_terms(start.denote(start_interner, id), direction) =~= Seq::<SortTerm>::empty());
                        }
                        Some(Vec::new())
                    },
                }
            },
            InferSort::Generic { op, subsort } => match related_container(op, direction) {
                Some(other) => {
                    let node = self.generic(other, subsort);
                    proof {
                        self.lemma_grows_transitive(start, start);
                        let nodes = seq![node];
                        assert(Seq::new(nodes.len(), |j: int| self.denote(*interner, nodes[j])) =~= related_terms(
                            start.denote(start_interner, id),
                            direction,
                        ));
                    }
                    Some(vec![node])
                },
                None => {
                    proof {
                        assert(related_terms(start.denote(start_interner, id), direction) =~= Seq::<SortTerm>::empty());
                    }
                    Some(Vec::new())
                },
            },
            InferSort::Function { .. } => {
                proof {
                    assert(related_terms(start.denote(start_interner, id), direction) =~= Seq::<SortTerm>::empty());
                }
                Some(Vec::new())
            },
        }
    }

    /// The strict supersorts of the sort that `id` stands for, nearest first (`Pos` has
    /// `[Nat, Int, Real]`), or `None` for a free variable.
    pub fn strict_super_sorts(&mut self, interner: &mut SortInterner, id: InferSortId) -> (r: Option<Vec<InferSortId>>)
        requires
            old(self).well_formed(),
            old(interner).well_formed(),
            old(self).resolved_within(*old(interner)),
            old(self).contains(id),
        ensures
            final(interner).well_formed(),
            final(interner).extends(*old(interner)),
            final(self).well_formed(),
            final(self).grows(*old(self)),
            final(self).advanced_from(*old(self)),
            final(self).resolved_within(*final(interner)),
            match r {
                None => old(self).denote(*old(interner), id) is Variable,
                Some(nodes) => {
                    &&& forall|i: int| 0 <= i < nodes@.len() ==> final(self).contains(#[trigger] nodes@[i])
                    &&& Seq::new(nodes@.len(), |i: int| final(self).denote(*final(interner), nodes@[i]))
                        == related_terms(old(self).denote(*old(interner), id), Direction::Super)
                },
            },
            r is None <==> old(self).denote(*old(interner), id) is Variable,
    {
        let r = self.strict_related_sorts(interner, id, Direction::Super);
        proof {
            self.lemma_grows_advances(*old(self));
        }
        r
    }

    /// The strict subsorts of the sort that `id` stands for, nearest first (`Real` has
    /// `[Int, Nat, Pos]`), or `None` for a free variable.
    pub fn strict_sub_sorts(&mut self, interner: &mut SortInterner, id: InferSortId) -> (r: Option<Vec<InferSortId>>)
        requires
            old(self).well_formed(),
            old(interner).well_formed(),
            old(self).resolved_within(*old(interner)),
            old(self).contains(id),
        ensures
            final(interner).well_formed(),
            final(interner).extends(*old(interner)),
            final(self).well_formed(),
            final(self).grows(*old(self)),
            final(self).advanced_from(*old(self)),
            final(self).resolved_within(*final(interner)),
            match r {
                None => old(self).denote(*old(interner), id) is Variable,
                Some(nodes) => {
                    &&& forall|i: int| 0 <= i < nodes@.len() ==> final(self).contains(#[trigger] nodes@[i])
                    &&& Seq::new(nodes@.len(), |i: int| final(self).denote(*final(interner), nodes@[i]))
                        == related_terms(old(self).denote(*old(interner), id), Direction::Sub)
                },
            },
            r is None <==> old(self).denote(*old(interner), id) is Variable,
    {
        let r = self.strict_related_sorts(interner, id, Direction::Sub);
        proof {
            self.lemma_grows_advances(*old(self));
        }
        r
    }

    /// A checkpoint of the bindings; finish every checkpoint with [`Unifier::rollback_to`],
    /// innermost first.
    pub fn snapshot(&self) -> (r: UnifierSnapshot)
        requires
            self.well_formed(),
        ensures
            r.bindings() == self.bindings(),
            r.history() == self.history(),
            r.consistent(),
            self.continues(r),
            self.can_roll_back_to(r),
    {
        proof {
            assert(self.log@.take(self.log@.len() as int) =~= self.log@);
        }
        UnifierSnapshot {
            bound: self.log.len(),
            variables: self.bindings.len(),
            log: Ghost(self.log@),
            bindings: Ghost(self.bindings@),
        }
    }

    /// Undoes every binding made since the checkpoint was taken. No variable may be made between
    /// a checkpoint and its rollback.
    pub fn rollback_to(&mut self, snapshot: UnifierSnapshot)
        requires
            old(self).well_formed(),
            old(self).can_roll_back_to(snapshot),
        ensures
            final(self).well_formed(),
            final(self).bindings().len() == old(self).bindings().len(),
            forall|v: int|
                0 <= v < final(self).bindings().len() ==> #[trigger] final(self).bindings()[v] is None
                    || final(self).bindings()[v] == old(self).bindings()[v],
            forall|interner: SortInterner|
                #[trigger] final(self).resolved_within(interner) == old(self).resolved_within(interner),
            forall|id: InferSortId| #[trigger] final(self).contains(id) == old(self).contains(id),
            old(self).continues(snapshot) && snapshot.consistent() ==> final(self).bindings() == snapshot.bindings(),
            old(self).continues(snapshot) && snapshot.consistent() ==> final(self).history() == snapshot.history(),
            final(self).same_nodes(*old(self)),
    {
        let ghost start = *self;
        while self.log.len() > snapshot.bound
            invariant
                self.well_formed(),
                snapshot.bound <= self.log@.len() <= start.log@.len(),
                self.log@ == start.log@.take(self.log@.len() as int),
                self.arena@ == start.arena@,
                self.bindings@.len() == start.bindings@.len(),
                forall|v: int|
                    0 <= v < self.bindings@.len() ==> #[trigger] self.bindings@[v] is None || self.bindings@[v]
                        == start.bindings@[v],
            decreases self.log.len(),
        {
            let ghost before = *self;
            let entry = self.log.pop().unwrap();
            let var = entry.0;
            proof {
                assert(before.log@[before.log@.len() - 1] == entry);
                assert(self.log@ =~= before.log@.drop_last());
                assert(var.index < before.bindings@.len());
            }
            self.bindings.set(var.index, None);
            proof {
                let log = self.log@;
                let bindings = self.bindings@;
                let arena = self.arena@;
                assert(log =~= start.log@.take(log.len() as int));
                assert forall|n: int| 0 <= n < arena.len() implies #[trigger] node_ranked(arena, bindings, self.rank@, n) by {
                    assert(node_ranked(arena, before.bindings@, self.rank@, n));
                }
                assert forall|k: int| 0 <= k < log.len() implies #[trigger] log[k].0.index < bindings.len()
                    && bindings[log[k].0.index as int] == Some(log[k].1) by {
                    assert(log[k] == before.log@[k]);
                    assert(before.log@[k].0 != before.log@[before.log@.len() - 1].0);
                }
                assert forall|k: int, l: int| 0 <= k < l < log.len() implies #[trigger] log[k].0 != #[trigger] log[l].0 by {
                    assert(log[k] == before.log@[k]);
                    assert(log[l] == before.log@[l]);
                }
                assert forall|v: int| 0 <= v < bindings.len() && #[trigger] bindings[v] is Some implies exists|k: int|
                    0 <= k < log.len() && (#[trigger] log[k]).0.index == v by {
                    assert(before.bindings@[v] is Some);
                    let k = choose|k: int| 0 <= k < before.log@.len() && (#[trigger] before.log@[k]).0.index == v;
                    assert(k != before.log@.len() - 1);
                    assert(log[k] == before.log@[k]);
                }
            }
        }
        proof {
            assert forall|interner: SortInterner| #[trigger] self.resolved_within(interner) == start.resolved_within(interner) by {}
            if start.continues(snapshot) && snapshot.consistent() {
                assert(self.log@ =~= snapshot.log@);
                lemma_log_determines_bindings(snapshot.log@, self.bindings@, snapshot.bindings@);
            }
        }
    }
}

} // verus!
