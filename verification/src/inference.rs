//! Solving the sort constraints of one equation: the constraints that sort inference generates,
//! the grouping of the widenings into one shared sort, and the ranked backtracking search for the
//! most specific typing.
use vstd::prelude::*;
use crate::interner::lemma_basic_widening;
use crate::interner::lemma_container_widening;
use crate::interner::lemma_few_related_sorts;
use crate::interner::lemma_related_converse;
use crate::interner::lemma_head_join_widens;
use crate::interner::lemma_widens_transitive;
use crate::interner::widens_to;
use crate::interner::resolved_term;
use crate::interner::ResolvedSort;
use crate::interner::SortInterner;
use crate::interner::SortTerm;
use crate::signature::ResolvedSortId;
use crate::sorts::number_generality;
use crate::sorts::spec_number_generality;
use crate::sorts::ComplexSort;
use crate::sorts::Sort;
use crate::unification::defaulted;
use crate::unification::substitute;
use crate::unification::lemma_substitute_stored;
use crate::unification::lemma_substitute_ground;
use crate::unification::lemma_stored_ground;
use crate::unification::lemma_related_ground;
use crate::unification::is_ground;
use crate::unification::InferSort;
use crate::unification::InferSortId;
use crate::unification::related_terms;
use crate::unification::Unifier;
use crate::unification::UnifierSnapshot;

verus! {

/// The position of an expression node in the numbering of one inference run.
#[derive(Clone, Copy, Debug, PartialEq, Eq, Structural)]
pub struct ExprId {
    pub index: usize,
}

/// What a name (`Id` node) in an equation resolved to.
#[derive(Clone, Copy, Debug, PartialEq, Eq, Structural)]
pub enum NameTarget {
    /// A variable in scope.
    Variable,
    /// A declared constructor or mapping with the given overload sort.
    Op { sort: ResolvedSortId },
    /// A polymorphic built-in whose concrete sort follows from the inferred argument sorts.
    Builtin,
}

/// The kind of a number literal: `0` is natural, every other literal positive.
#[derive(Clone, Copy, Debug, PartialEq, Eq, Structural)]
pub enum LitKind {
    Positive,
    Natural,
}

/// Requires the sort of `lhs` to be a subsort of `rhs`: the implicit upcast of a `Nat` argument
/// where an `Int` is expected.
#[derive(Debug)]
pub struct SubConstraint {
    pub lhs: InferSortId,
    pub rhs: InferSortId,
}

/// Requires `sort` to be a number sort admitting the literal kind.
#[derive(Debug)]
pub struct LitConstraint {
    pub sort: InferSortId,
    pub kind: LitKind,
}

/// The overload set of a name with several candidates; a solution commits to exactly one.
#[derive(Debug)]
pub struct Disjunction {
    /// The `Id` node whose chosen target each solution records.
    pub expr: ExprId,
    /// The sort node of that `Id` node.
    pub sort: InferSortId,
    pub disjuncts: Vec<(NameTarget, InferSortId)>,
}

/// The two readings of a set or bag comprehension `{ x: S | e }`: a `Bool` body makes a
/// `Set(S)`, a `Nat` or `Pos` body the multiplicities of a `Bag(S)`.
#[derive(Debug)]
pub struct Comprehension {
    /// The sort node of the body.
    pub body: InferSortId,
    /// The sort node of the comprehension itself.
    pub node: InferSortId,
    /// The resolved sort of the bound variable.
    pub element: ResolvedSortId,
}

/// The `target` sort is the least common supersort of the `sources`: a group of widenings into
/// one shared variable, solved in one step.
#[derive(Debug)]
pub struct Join {
    /// The sort nodes widened into `target`, in generation order.
    pub sources: Vec<InferSortId>,
    /// The shared variable the sources widen into.
    pub target: InferSortId,
}

/// One constraint of an equation, solved in generation order.
#[derive(Debug)]
pub enum Constraint {
    Sub(SubConstraint),
    Lit(LitConstraint),
    Disjunction(Disjunction),
    Comprehension(Comprehension),
    Join(Join),
}

/// What a constraint says, with its lists as sequences.
pub enum ConstraintView {
    Sub { lhs: InferSortId, rhs: InferSortId },
    Lit { sort: InferSortId, kind: LitKind },
    Disjunction { expr: ExprId, sort: InferSortId, disjuncts: Seq<(NameTarget, InferSortId)> },
    Comprehension { body: InferSortId, node: InferSortId, element: ResolvedSortId },
    Join { sources: Seq<InferSortId>, target: InferSortId },
}

impl View for Constraint {
    type V = ConstraintView;

    open spec fn view(&self) -> ConstraintView {
        match self {
            Constraint::Sub(sub) => ConstraintView::Sub { lhs: sub.lhs, rhs: sub.rhs },
            Constraint::Lit(lit) => ConstraintView::Lit { sort: lit.sort, kind: lit.kind },
            Constraint::Disjunction(d) => ConstraintView::Disjunction {
                expr: d.expr,
                sort: d.sort,
                disjuncts: d.disjuncts@,
            },
            Constraint::Comprehension(c) => ConstraintView::Comprehension {
                body: c.body,
                node: c.node,
                element: c.element,
            },
            Constraint::Join(join) => ConstraintView::Join { sources: join.sources@, target: join.target },
        }
    }
}

/// The views of a list of constraints.
pub open spec fn views(constraints: Seq<Constraint>) -> Seq<ConstraintView> {
    constraints.map_values(|c: Constraint| c@)
}

/// Every sort node that the constraint mentions is a node of `unifier`.
pub open spec fn constraint_within(c: ConstraintView, unifier: Unifier) -> bool {
    match c {
        ConstraintView::Sub { lhs, rhs } => unifier.contains(lhs) && unifier.contains(rhs),
        ConstraintView::Lit { sort, .. } => unifier.contains(sort),
        ConstraintView::Disjunction { sort, disjuncts, .. } => unifier.contains(sort) && forall|k: int|
            0 <= k < disjuncts.len() ==> unifier.contains(#[trigger] disjuncts[k].1),
        ConstraintView::Comprehension { body, node, .. } => unifier.contains(body) && unifier.contains(node),
        ConstraintView::Join { sources, target } => unifier.contains(target) && forall|k: int|
            0 <= k < sources.len() ==> unifier.contains(#[trigger] sources[k]),
    }
}

/// The free variable that a widening constraint widens into, if it widens into one.
pub open spec fn widened_variable(c: ConstraintView, unifier: Unifier, interner: SortInterner) -> Option<usize> {
    match c {
        ConstraintView::Sub { rhs, .. } => match unifier.denote(interner, rhs) {
            SortTerm::Variable(var) => Some(var),
            _ => None,
        },
        _ => None,
    }
}

/// The positions below `n` of the constraints that widen into the variable `var`, in order.
pub open spec fn members(variables: Seq<Option<usize>>, var: usize, n: int) -> Seq<int>
    decreases n,
{
    if n <= 0 {
        Seq::empty()
    } else if variables[n - 1] == Some(var) {
        members(variables, var, n - 1).push(n - 1)
    } else {
        members(variables, var, n - 1)
    }
}

/// No later constraint widens into the variable that the constraint at `i` widens into.
pub open spec fn last_member(variables: Seq<Option<usize>>, i: int) -> bool {
    forall|j: int| i < j < variables.len() ==> variables[j] != variables[i]
}

/// The left-hand side of a widening constraint.
pub open spec fn widened_sort(c: ConstraintView) -> InferSortId {
    match c {
        ConstraintView::Sub { lhs, .. } => lhs,
        _ => InferSortId { index: 0 },
    }
}

/// The right-hand side of a widening constraint.
pub open spec fn widening_target(c: ConstraintView) -> InferSortId {
    match c {
        ConstraintView::Sub { rhs, .. } => rhs,
        _ => InferSortId { index: 0 },
    }
}

/// The first `n` constraints with every group of two or more widenings into one shared variable
/// merged into a single join at the position of the group's last member, whose sources are the
/// members' left-hand sides in order; the earlier members are dropped, and every other
/// constraint stays as it is.
pub open spec fn merged(cs: Seq<ConstraintView>, variables: Seq<Option<usize>>, n: int) -> Seq<ConstraintView>
    decreases n,
{
    if n <= 0 {
        Seq::empty()
    } else {
        let i = n - 1;
        let before = merged(cs, variables, i);
        match variables[i] {
            Some(var) => if members(variables, var, variables.len() as int).len() >= 2 {
                if last_member(variables, i) {
                    before.push(
                        ConstraintView::Join {
                            sources: members(variables, var, n).map_values(|j: int| widened_sort(cs[j])),
                            target: widening_target(cs[i]),
                        },
                    )
                } else {
                    before
                }
            } else {
                before.push(cs[i])
            },
            None => before.push(cs[i]),
        }
    }
}

/// Where none of the first `n` constraints widens into a variable, merging leaves them as they
/// are.
proof fn lemma_merged_unchanged(cs: Seq<ConstraintView>, variables: Seq<Option<usize>>, n: int)
    requires
        0 <= n <= cs.len(),
        forall|j: int| 0 <= j < n ==> #[trigger] variables[j] is None,
    ensures
        merged(cs, variables, n) == cs.take(n),
    decreases n,
{
    if n > 0 {
        lemma_merged_unchanged(cs, variables, n - 1);
        assert(variables[n - 1] is None);
        assert(cs.take(n - 1).push(cs[n - 1]) =~= cs.take(n));
    }
}

/// The number of constraints at positions below `n` that widen into `var`.
fn count_members(variables: &Vec<Option<usize>>, var: usize, n: usize) -> (r: usize)
    requires
        n <= variables@.len(),
    ensures
        r == members(variables@, var, n as int).len(),
{
    let mut count: usize = 0;
    let mut j: usize = 0;
    while j < n
        invariant
            j <= n <= variables@.len(),
            count == members(variables@, var, j as int).len(),
            count <= j,
        decreases n - j,
    {
        if variables[j] == Some(var) {
            count = count + 1;
        }
        j = j + 1;
    }
    count
}

/// Merges every group of widening constraints into the same free variable into one [`Join`] at
/// the position of the group's last member, so that the common supersort of the group is found
/// in one step instead of widening member by member. The variables are told apart by
/// [`Unifier::free_root`]; a widening into a sort that is not a free variable is never grouped.
pub fn merge_shared_subs(constraints: Vec<Constraint>, unifier: &Unifier, interner: &SortInterner) -> (r: Vec<
    Constraint,
>)
    requires
        unifier.well_formed(),
        interner.well_formed(),
        unifier.resolved_within(*interner),
        forall|i: int| 0 <= i < constraints@.len() ==> constraint_within(#[trigger] constraints@[i]@, *unifier),
    ensures
        views(r@) == merged(
            views(constraints@),
            views(constraints@).map_values(|c: ConstraintView| widened_variable(c, *unifier, *interner)),
            constraints@.len() as int,
        ),
{
    let n = constraints.len();
    let ghost cs = views(constraints@);
    let ghost spec_variables = cs.map_values(|c: ConstraintView| widened_variable(c, *unifier, *interner));
    let mut variables: Vec<Option<usize>> = Vec::new();
    let mut i: usize = 0;
    while i < n
        invariant
            i <= n == constraints@.len(),
            cs == views(constraints@),
            spec_variables == cs.map_values(|c: ConstraintView| widened_variable(c, *unifier, *interner)),
            unifier.well_formed(),
            interner.well_formed(),
            unifier.resolved_within(*interner),
            forall|k: int| 0 <= k < constraints@.len() ==> constraint_within(#[trigger] constraints@[k]@, *unifier),
            variables@ == spec_variables.take(i as int),
        decreases n - i,
    {
        let variable = match &constraints[i] {
            Constraint::Sub(sub) => {
                proof {
                    assert(constraint_within(constraints@[i as int]@, *unifier));
                }
                unifier.free_root(sub.rhs)
            },
            _ => None,
        };
        proof {
            assert(cs[i as int] == constraints@[i as int]@);
        }
        variables.push(variable);
        proof {
            assert(variables@ =~= spec_variables.take(i as int + 1));
        }
        i = i + 1;
    }
    proof {
        assert(variables@ =~= spec_variables);
    }
    // What becomes of each constraint: a join of these sources at its position, kept as it is
    // (`None`, `true`), or dropped (`None`, `false`).
    let mut joins: Vec<Option<Vec<InferSortId>>> = Vec::new();
    let mut keep: Vec<bool> = Vec::new();
    let mut i: usize = 0;
    while i < n
        invariant
            i <= n == constraints@.len() == variables@.len(),
            cs == views(constraints@),
            variables@ == spec_variables,
            spec_variables.len() == n,
            joins@.len() == i,
            keep@.len() == i,
            forall|k: int|
                0 <= k < i ==> match #[trigger] spec_variables[k] {
                    Some(var) => if members(spec_variables, var, n as int).len() >= 2 {
                        if last_member(spec_variables, k) {
                            joins@[k] matches Some(sources) && sources@ == members(spec_variables, var, k + 1).map_values(
                                |j: int| widened_sort(cs[j]),
                            )
                        } else {
                            joins@[k] is None && !keep@[k]
                        }
                    } else {
                        joins@[k] is None && keep@[k]
                    },
                    None => joins@[k] is None && keep@[k],
                },
        decreases n - i,
    {
        match variables[i] {
            Some(var) => {
                if count_members(&variables, var, n) >= 2 {
                    let mut later = i + 1;
                    let mut last = true;
                    while later < n
                        invariant
                            i < later <= n == variables@.len(),
                            variables@[i as int] == Some(var),
                            last == forall|j: int| i < j < later ==> variables@[j] != variables@[i as int],
                        decreases n - later,
                    {
                        if variables[later] == Some(var) {
                            last = false;
                        }
                        later = later + 1;
                    }
                    if last {
                        let mut sources: Vec<InferSortId> = Vec::new();
                        let mut j: usize = 0;
                        while j <= i
                            invariant
                                j <= i + 1,
                                i < n == constraints@.len() == variables@.len(),
                                cs == views(constraints@),
                                variables@ == spec_variables,
                                sources@ == members(spec_variables, var, j as int).map_values(|m: int| widened_sort(cs[m])),
                            decreases i + 1 - j,
                        {
                            if variables[j] == Some(var) {
                                let lhs = match &constraints[j] {
                                    Constraint::Sub(sub) => sub.lhs,
                                    _ => InferSortId::new(0),
                                };
                                proof {
                                    assert(cs[j as int] == constraints@[j as int]@);
                                }
                                sources.push(lhs);
                                proof {
                                    assert(sources@ =~= members(spec_variables, var, j as int + 1).map_values(
                                        |m: int| widened_sort(cs[m]),
                                    ));
                                }
                            } else {
                                proof {
                                    assert(members(spec_variables, var, j as int + 1) == members(spec_variables, var, j as int));
                                }
                            }
                            j = j + 1;
                        }
                        joins.push(Some(sources));
                        keep.push(false);
                    } else {
                        joins.push(None);
                        keep.push(false);
                    }
                } else {
                    joins.push(None);
                    keep.push(true);
                }
            },
            None => {
                joins.push(None);
                keep.push(true);
            },
        }
        i = i + 1;
    }
    // Rebuild in the original order, moving every constraint that stays.
    let ghost original = constraints@;
    let mut rest = constraints;
    let mut result: Vec<Constraint> = Vec::new();
    let mut i: usize = 0;
    while i < n
        invariant
            i <= n == original.len() == variables@.len(),
            cs == views(original),
            joins@.len() == n,
            keep@.len() == n,
            rest@ == original.skip(i as int),
            spec_variables == cs.map_values(|c: ConstraintView| widened_variable(c, *unifier, *interner)),
            spec_variables.len() == n,
            views(result@) == merged(cs, spec_variables, i as int),
            forall|k: int|
                i <= k < n ==> match #[trigger] spec_variables[k] {
                    Some(var) => if members(spec_variables, var, n as int).len() >= 2 {
                        if last_member(spec_variables, k) {
                            joins@[k] matches Some(sources) && sources@ == members(spec_variables, var, k + 1).map_values(
                                |j: int| widened_sort(cs[j]),
                            )
                        } else {
                            joins@[k] is None && !keep@[k]
                        }
                    } else {
                        joins@[k] is None && keep@[k]
                    },
                    None => joins@[k] is None && keep@[k],
                },
        decreases n - i,
    {
        let constraint = rest.remove(0);
        proof {
            assert(constraint == original[i as int]);
            assert(rest@ =~= original.skip(i as int + 1));
            assert(cs[i as int] == constraint@);
        }
        let ghost before = result@;
        let join_here = joins[i].is_some();
        if join_here {
            let target = match &constraint {
                Constraint::Sub(sub) => sub.rhs,
                _ => InferSortId::new(0),
            };
            let sources = match joins.remove(i) {
                Some(sources) => sources,
                None => Vec::new(),
            };
            joins.insert(i, None);
            result.push(Constraint::Join(Join { sources, target }));
        } else if keep[i] {
            result.push(constraint);
        }
        proof {
            assert(views(result@) =~= merged(cs, spec_variables, i as int + 1)) by {
                let variable = spec_variables[i as int];
                assert(variable == widened_variable(cs[i as int], *unifier, *interner));
                if result@.len() > before.len() {
                    assert(result@ == before.push(result@.last()));
                    assert(views(result@) =~= views(before).push(result@.last()@));
                } else {
                    assert(result@ == before);
                }
                match variable {
                    Some(var) => {
                        assert(cs[i as int] is Sub);
                    },
                    None => {},
                }
            }
        }
        i = i + 1;
    }
    result
}

/// The number of components that a constraint adds to the measure of a solution: one for a
/// widening and for a literal, one per source for a join, none for a disjunction or a
/// comprehension.
pub open spec fn width(c: ConstraintView) -> nat {
    match c {
        ConstraintView::Sub { .. } => 1,
        ConstraintView::Lit { .. } => 1,
        ConstraintView::Join { sources, .. } => sources.len(),
        _ => 0,
    }
}

/// The number of measure components of the first `n` constraints.
pub open spec fn components(cs: Seq<ConstraintView>, n: int) -> nat
    decreases n,
{
    if n <= 0 {
        0
    } else {
        components(cs, n - 1) + width(cs[n - 1])
    }
}

proof fn lemma_components_monotone(cs: Seq<ConstraintView>, m: int, n: int)
    requires
        0 <= m <= n,
    ensures
        components(cs, m) <= components(cs, n),
    decreases n - m,
{
    if m < n {
        lemma_components_monotone(cs, m, n - 1);
    }
}

/// `a` and `b` first differ at position `k`.
pub open spec fn differs_first_at(a: Seq<u8>, b: Seq<u8>, k: int) -> bool {
    &&& 0 <= k < a.len()
    &&& k < b.len()
    &&& a[k] != b[k]
    &&& forall|j: int| 0 <= j < k ==> a[j] == b[j]
}

/// The measure `a` ranks strictly before `b`: lexicographically, smaller components first.
pub open spec fn measure_less(a: Seq<u8>, b: Seq<u8>) -> bool {
    exists|k: int| #[trigger] differs_first_at(a, b, k) && a[k] < b[k]
}

/// Pruning is exact: once the measure of a branch ranks after the same prefix of the best
/// measure, every measure that extends it ranks after the best one, so no solution below the
/// branch could win or tie.
pub proof fn law_pruned_branches_rank_after_the_best(best: Seq<u8>, prefix: Seq<u8>, full: Seq<u8>)
    requires
        prefix.len() <= best.len(),
        prefix.len() <= full.len(),
        full.take(prefix.len() as int) == prefix,
        measure_less(best.take(prefix.len() as int), prefix),
    ensures
        measure_less(best, full),
{
    let head = best.take(prefix.len() as int);
    let k = choose|k: int| #[trigger] differs_first_at(head, prefix, k) && head[k] < prefix[k];
    assert forall|j: int| 0 <= j < k implies best[j] == full[j] by {
        assert(head[j] == best[j]);
        assert(full.take(prefix.len() as int)[j] == full[j]);
    }
    assert(head[k] == best[k]);
    assert(full.take(prefix.len() as int)[k] == full[k]);
    assert(differs_first_at(best, full, k));
}

/// Ranking before is transitive.
pub proof fn lemma_measure_less_transitive(a: Seq<u8>, b: Seq<u8>, c: Seq<u8>)
    requires
        measure_less(a, b),
        measure_less(b, c),
    ensures
        measure_less(a, c),
{
    let k1 = choose|k: int| #[trigger] differs_first_at(a, b, k) && a[k] < b[k];
    let k2 = choose|k: int| #[trigger] differs_first_at(b, c, k) && b[k] < c[k];
    let k = if k1 < k2 {
        k1
    } else {
        k2
    };
    assert(differs_first_at(a, c, k) && a[k] < c[k]);
}

/// The sorts of the expression nodes and the target of each name, in one solution.
pub struct Typing {
    /// The sort of every expression node, by [`ExprId`].
    pub sorts: Vec<ResolvedSortId>,
    /// The target of every name node, by [`ExprId`]; `None` for the other nodes.
    pub names: Vec<Option<NameTarget>>,
}

/// A solution reached by the search: its measure ranks it against the others, and its typing is
/// read out at once, as backtracking undoes the bindings it is read from.
pub struct Candidate {
    pub measure: Vec<u8>,
    /// Whether another solution reached the same measure; unless a better one turns up, the
    /// equation is then ambiguous.
    pub duplicate: bool,
    pub typing: Typing,
    /// The bindings under which the solution was reached: every constraint holds of the sorts
    /// that the nodes stand for there.
    pub witness: Ghost<Unifier>,
    /// The disjuncts chosen on the way to the solution.
    pub chosen: Ghost<Seq<(ExprId, NameTarget)>>,
    /// The choice made at each constraint on the way to the solution.
    pub path: Ghost<Seq<int>>,
    /// Where the measure was reached a second time: the choices made on that way, and the
    /// bindings it was reached under.
    pub rival_path: Ghost<Seq<int>>,
    pub rival_witness: Ghost<Unifier>,
}

/// What the search solves: the constraints, the sort node of every expression node, the names
/// resolved before solving, and the sort that a sort left free stands for.
pub struct Problem {
    pub constraints: Vec<Constraint>,
    pub expr_sorts: Vec<InferSortId>,
    pub base_names: Vec<Option<NameTarget>>,
    pub default_sort: ResolvedSortId,
    /// The bindings that the search starts from.
    pub origin: Ghost<Unifier>,
}

/// The state of the search: the disjunct chosen per disjunction and the measure components on
/// the current branch, and the best solution so far.
pub struct Search {
    pub choices: Vec<(ExprId, NameTarget)>,
    pub measure: Vec<u8>,
    pub best: Option<Candidate>,
    /// The choice made at each constraint on the current branch.
    pub path: Ghost<Seq<int>>,
}

/// The names of a solution: those resolved before solving, then the disjunct chosen for each
/// disjunction on the branch, in order.
pub open spec fn chosen_names(base: Seq<Option<NameTarget>>, choices: Seq<(ExprId, NameTarget)>) -> Seq<
    Option<NameTarget>,
>
    decreases choices.len(),
{
    if choices.len() == 0 {
        base
    } else {
        chosen_names(base, choices.drop_last()).update(choices.last().0.index as int, Some(choices.last().1))
    }
}

/// What the search needs of each constraint besides its nodes: a disjunction names an
/// expression node, a join has a source, and a comprehension's element sort is stored.
pub open spec fn constraint_fits(c: ConstraintView, expr_count: nat, interner: SortInterner) -> bool {
    match c {
        ConstraintView::Disjunction { expr, .. } => expr.index < expr_count,
        ConstraintView::Join { sources, .. } => 1 <= sources.len() <= usize::MAX,
        ConstraintView::Comprehension { element, .. } => interner.contains(element),
        _ => true,
    }
}

/// The problem speaks of nodes of `unifier` and sorts of `interner` only.
pub open spec fn problem_within(problem: Problem, unifier: Unifier, interner: SortInterner) -> bool {
    &&& forall|i: int|
        0 <= i < problem.constraints@.len() ==> constraint_within(#[trigger] problem.constraints@[i]@, unifier)
    &&& forall|i: int|
        0 <= i < problem.constraints@.len() ==> constraint_fits(
            #[trigger] problem.constraints@[i]@,
            problem.expr_sorts@.len(),
            interner,
        )
    &&& forall|k: int| 0 <= k < problem.expr_sorts@.len() ==> unifier.contains(#[trigger] problem.expr_sorts@[k])
    &&& problem.base_names@.len() == problem.expr_sorts@.len()
    &&& interner.contains(problem.default_sort)
}

/// A solution of `problem`: one measure component per widening, literal and joined source, one
/// stored sort per expression node and one name entry per expression node.
pub open spec fn candidate_fits(candidate: Candidate, problem: Problem, interner: SortInterner) -> bool {
    &&& candidate.measure@.len() == components(views(problem.constraints@), problem.constraints@.len() as int)
    &&& candidate.typing.sorts@.len() == problem.expr_sorts@.len()
    &&& candidate.typing.names@.len() == problem.expr_sorts@.len()
    &&& forall|k: int| 0 <= k < candidate.typing.sorts@.len() ==> interner.contains(#[trigger] candidate.typing.sorts@[k])
    &&& candidate.witness@.well_formed()
    &&& candidate.witness@.advanced_from(problem.origin@)
    &&& candidate.witness@.resolved_within(interner)
    &&& problem_within(problem, candidate.witness@, interner)
    &&& branch_holds(
        views(problem.constraints@),
        problem.constraints@.len() as int,
        candidate.witness@,
        interner,
        candidate.chosen@,
    )
    &&& candidate.typing.names@ == chosen_names(problem.base_names@, candidate.chosen@)
    &&& (widening_free(views(problem.constraints@), 0) ==> candidate.measure@ == lit_measure(
        views(problem.constraints@),
        problem.constraints@.len() as int,
        candidate.witness@,
        interner,
    ))
    &&& (widening_free(views(problem.constraints@), 0) ==> {
        &&& candidate.path@.len() == problem.constraints@.len()
        &&& realized_now(views(problem.constraints@), candidate.path@, candidate.witness@, interner)
    })
    &&& (widening_free(views(problem.constraints@), 0) && candidate.duplicate ==> rival_fits(candidate, problem, interner))
    &&& forall|k: int|
        0 <= k < problem.expr_sorts@.len() ==> interner.term(#[trigger] candidate.typing.sorts@[k]) == defaulted(
            candidate.witness@.denote(interner, problem.expr_sorts@[k]),
            interner.term(problem.default_sort),
        )
}

/// The second way to the measure of `candidate` is another choice of the constraints, met in
/// bindings that reach the same measure.
pub open spec fn rival_fits(candidate: Candidate, problem: Problem, interner: SortInterner) -> bool {
    &&& candidate.rival_path@ != candidate.path@
    &&& candidate.rival_path@.len() == problem.constraints@.len()
    &&& candidate.rival_witness@.well_formed()
    &&& candidate.rival_witness@.advanced_from(problem.origin@)
    &&& candidate.rival_witness@.resolved_within(interner)
    &&& problem_within(problem, candidate.rival_witness@, interner)
    &&& realized_now(views(problem.constraints@), candidate.rival_path@, candidate.rival_witness@, interner)
    &&& lit_measure(
        views(problem.constraints@),
        problem.constraints@.len() as int,
        candidate.rival_witness@,
        interner,
    ) == candidate.measure@
}

/// The state from which the search can go on.
pub open spec fn ready(search: Search, unifier: Unifier, interner: SortInterner, problem: Problem) -> bool {
    &&& interner.well_formed()
    &&& unifier.well_formed()
    &&& unifier.resolved_within(interner)
    &&& unifier.advanced_from(problem.origin@)
    &&& problem_within(problem, unifier, interner)
    &&& forall|k: int| 0 <= k < search.choices@.len() ==> (#[trigger] search.choices@[k]).0.index < problem.expr_sorts@.len()
    &&& match search.best {
        Some(best) => candidate_fits(best, problem, interner),
        None => true,
    }
}

/// The best solution `later` is no worse than `earlier`: it ranks before it, or it is the same
/// solution, found again perhaps.
pub open spec fn no_worse(later: Option<Candidate>, earlier: Option<Candidate>) -> bool {
    match earlier {
        None => true,
        Some(e) => match later {
            None => false,
            Some(l) => measure_less(l.measure@, e.measure@) || (l.measure@ == e.measure@ && l.path@ == e.path@ && (
            e.duplicate ==> l.duplicate)),
        },
    }
}

/// A step of the search from one state to the next: it can still go on, its branch is as
/// before, the unifier advanced, the interner grew, and the best solution got no worse.
pub open spec fn search_step(
    s0: Search,
    s1: Search,
    u0: Unifier,
    u1: Unifier,
    i0: SortInterner,
    i1: SortInterner,
    problem: Problem,
) -> bool {
    &&& ready(s1, u1, i1, problem)
    &&& s1.measure@ == s0.measure@
    &&& s1.choices@ == s0.choices@
    &&& s1.path@ == s0.path@
    &&& u1.advanced_from(u0)
    &&& i1.extends(i0)
    &&& no_worse(s1.best, s0.best)
}

proof fn lemma_no_worse_transitive(a: Option<Candidate>, b: Option<Candidate>, c: Option<Candidate>)
    requires
        no_worse(a, b),
        no_worse(b, c),
    ensures
        no_worse(a, c),
{
    if c is Some && b is Some && a is Some {
        let (am, bm, cm) = (a->0.measure@, b->0.measure@, c->0.measure@);
        if measure_less(am, bm) && measure_less(bm, cm) {
            lemma_measure_less_transitive(am, bm, cm);
        }
    }
}

/// The problem still fits a unifier that advanced and an interner that grew.
proof fn lemma_problem_within_kept(
    problem: Problem,
    u0: Unifier,
    u1: Unifier,
    i0: SortInterner,
    i1: SortInterner,
)
    requires
        problem_within(problem, u0, i0),
        u1.advanced_from(u0),
        i1.extends(i0),
    ensures
        problem_within(problem, u1, i1),
{
    u1.lemma_advanced_keeps(u0);
    assert forall|i: int| 0 <= i < problem.constraints@.len() implies constraint_within(
        #[trigger] problem.constraints@[i]@,
        u1,
    ) by {
        assert(constraint_within(problem.constraints@[i]@, u0));
    }
    assert forall|i: int| 0 <= i < problem.constraints@.len() implies constraint_fits(
        #[trigger] problem.constraints@[i]@,
        problem.expr_sorts@.len(),
        i1,
    ) by {
        assert(constraint_fits(problem.constraints@[i]@, problem.expr_sorts@.len(), i0));
    }
}

/// A search state can still go on after the unifier advanced and the interner grew, keeping
/// every node stored.
proof fn lemma_ready_kept(
    search: Search,
    problem: Problem,
    u0: Unifier,
    u1: Unifier,
    i0: SortInterner,
    i1: SortInterner,
)
    requires
        ready(search, u0, i0, problem),
        u1.well_formed(),
        i1.well_formed(),
        u1.resolved_within(i1),
        u1.advanced_from(u0),
        i1.extends(i0),
    ensures
        ready(search, u1, i1, problem),
{
    u1.lemma_advanced_transitive(u0, problem.origin@);
    lemma_problem_within_kept(problem, u0, u1, i0, i1);
    match search.best {
        Some(best) => lemma_candidate_kept(best, problem, i0, i1),
        None => {},
    }
}

proof fn lemma_step_transitive(
    s0: Search,
    s1: Search,
    s2: Search,
    u0: Unifier,
    u1: Unifier,
    u2: Unifier,
    i0: SortInterner,
    i1: SortInterner,
    i2: SortInterner,
    problem: Problem,
)
    requires
        search_step(s0, s1, u0, u1, i0, i1, problem),
        search_step(s1, s2, u1, u2, i1, i2, problem),
    ensures
        search_step(s0, s2, u0, u2, i0, i2, problem),
{
    u2.lemma_advanced_transitive(u1, u0);
    i2.lemma_extends_transitive(i1, i0);
    lemma_no_worse_transitive(s2.best, s1.best, s0.best);
}

proof fn lemma_step_reflexive(search: Search, unifier: Unifier, interner: SortInterner, problem: Problem)
    requires
        ready(search, unifier, interner, problem),
    ensures
        search_step(search, search, unifier, unifier, interner, interner, problem),
{
    unifier.lemma_advanced_reflexive();
    interner.lemma_extends_reflexive();
}

/// Adding nodes and growing the interner is a step of the search that changes nothing else.
proof fn lemma_grow_step(
    search: Search,
    u0: Unifier,
    u1: Unifier,
    i0: SortInterner,
    i1: SortInterner,
    problem: Problem,
)
    requires
        ready(search, u0, i0, problem),
        u1.well_formed(),
        i1.well_formed(),
        u1.resolved_within(i1),
        u1.advanced_from(u0),
        i1.extends(i0),
    ensures
        search_step(search, search, u0, u1, i0, i1, problem),
{
    lemma_ready_kept(search, problem, u0, u1, i0, i1);
}

/// One attempt of the search, from the state `(s0, u0, i0)`: a checkpoint of `u0`, an attempted
/// unification that went on to `u1`, perhaps a deeper search that went on to `u2`, and the
/// rollback to the checkpoint, giving `u3`, is a step of the search.
proof fn lemma_attempt(
    s0: Search,
    s3: Search,
    u0: Unifier,
    u2: Unifier,
    u3: Unifier,
    i0: SortInterner,
    i2: SortInterner,
    problem: Problem,
    snapshot: UnifierSnapshot,
)
    requires
        ready(s0, u0, i0, problem),
        snapshot.history() == u0.history(),
        snapshot.bindings() == u0.bindings(),
        u2.advanced_from(u0),
        i2.extends(i0),
        ready(s3, u2, i2, problem),
        s3.measure@ == s0.measure@,
        s3.choices@ == s0.choices@,
        s3.path@ == s0.path@,
        no_worse(s3.best, s0.best),
        u3.well_formed(),
        u3.resolved_within(i2),
        u3.same_nodes(u2),
        u3.history() == snapshot.history(),
        u3.bindings() == snapshot.bindings(),
    ensures
        search_step(s0, s3, u0, u3, i0, i2, problem),
{
    u3.lemma_rolled_back(u2, u0, snapshot);
    u3.lemma_advanced_transitive(u0, problem.origin@);
    lemma_problem_within_kept(problem, u0, u3, i0, i2);
}

/// How the search goes on after a widening has put its component on the measure: with the
/// constraint after `index`, or with the source after the `i`-th of the join at `index`.
#[derive(Clone, Copy)]
enum Continuation {
    Next(usize),
    JoinSource(usize, usize),
}

spec fn join_sources(c: ConstraintView) -> Seq<InferSortId> {
    match c {
        ConstraintView::Join { sources, .. } => sources,
        _ => Seq::empty(),
    }
}

spec fn cont_index(cont: Continuation) -> int {
    match cont {
        Continuation::Next(index) => index as int,
        Continuation::JoinSource(index, _) => index as int,
    }
}

/// `cont` goes on from a widening constraint, or from a source of a join.
spec fn cont_valid(cont: Continuation, cs: Seq<ConstraintView>) -> bool {
    match cont {
        Continuation::Next(index) => index < cs.len() && cs[index as int] is Sub,
        Continuation::JoinSource(index, i) => index < cs.len() && cs[index as int] is Join && i < join_sources(
            cs[index as int],
        ).len(),
    }
}

/// The search can go on along `cont` with a measure of `measure_len` components.
spec fn resumable(cont: Continuation, cs: Seq<ConstraintView>, measure_len: int) -> bool {
    &&& cont_valid(cont, cs)
    &&& match cont {
        Continuation::Next(index) => measure_len == components(cs, index + 1),
        Continuation::JoinSource(index, i) => measure_len == components(cs, index as int) + i + 1,
    }
}

spec fn widening_stage(cont: Continuation) -> int {
    match cont {
        Continuation::Next(_) => 7,
        Continuation::JoinSource(..) => 4,
    }
}

spec fn widening_rank(cont: Continuation, cs: Seq<ConstraintView>) -> int {
    match cont {
        Continuation::Next(_) => 1,
        Continuation::JoinSource(index, i) => 3 * (join_sources(cs[index as int]).len() - i) + 1,
    }
}

spec fn resume_stage(cont: Continuation) -> int {
    match cont {
        Continuation::Next(_) => 6,
        Continuation::JoinSource(..) => 4,
    }
}

spec fn resume_rank(cont: Continuation, cs: Seq<ConstraintView>) -> int {
    match cont {
        Continuation::Next(_) => 0,
        Continuation::JoinSource(index, i) => 3 * (join_sources(cs[index as int]).len() - i),
    }
}

spec fn join_target(c: ConstraintView) -> InferSortId {
    match c {
        ConstraintView::Join { target, .. } => target,
        _ => InferSortId { index: 0 },
    }
}

/// The constraints before the widening of `lhs` into `rhs` hold, and it is the widening
/// constraint at `index`, or the widening of the `i`-th source of the join at `index`, whose
/// earlier sources widen to its target.
spec fn widening_ready(
    cont: Continuation,
    cs: Seq<ConstraintView>,
    lhs: InferSortId,
    rhs: InferSortId,
    unifier: Unifier,
    interner: SortInterner,
    choices: Seq<(ExprId, NameTarget)>,
) -> bool {
    match cont {
        Continuation::Next(index) => branch_holds(cs, index as int, unifier, interner, choices) && cs[index as int]
            == (ConstraintView::Sub { lhs, rhs }),
        Continuation::JoinSource(index, i) => {
            &&& branch_holds(cs, index as int, unifier, interner, choices)
            &&& lhs == join_sources(cs[index as int])[i as int]
            &&& rhs == join_target(cs[index as int])
            &&& joined_up_to(join_sources(cs[index as int]), join_target(cs[index as int]), unifier, interner, i as int)
        },
    }
}

/// The constraints up to and including the widening that `cont` goes on from hold.
spec fn resume_ready(
    cont: Continuation,
    cs: Seq<ConstraintView>,
    unifier: Unifier,
    interner: SortInterner,
    choices: Seq<(ExprId, NameTarget)>,
) -> bool {
    match cont {
        Continuation::Next(index) => branch_holds(cs, index + 1, unifier, interner, choices),
        Continuation::JoinSource(index, i) => {
            &&& branch_holds(cs, index as int, unifier, interner, choices)
            &&& joined_up_to(
                join_sources(cs[index as int]),
                join_target(cs[index as int]),
                unifier,
                interner,
                i + 1,
            )
        },
    }
}

/// Choosing one more disjunct keeps the disjuncts chosen before.
proof fn lemma_push_contains(choices: Seq<(ExprId, NameTarget)>, choice: (ExprId, NameTarget))
    ensures
        forall|x: (ExprId, NameTarget)| choices.contains(x) ==> #[trigger] choices.push(choice).contains(x),
        choices.push(choice).contains(choice),
{
    assert forall|x: (ExprId, NameTarget)| choices.contains(x) implies #[trigger] choices.push(choice).contains(x) by {
        let i = choose|i: int| 0 <= i < choices.len() && choices[i] == x;
        assert(choices.push(choice)[i] == x);
    }
    assert(choices.push(choice)[choices.len() as int] == choice);
}

/// Once `lhs` widens to `rhs` in a unifier that advanced, the search can go on along `cont`.
proof fn lemma_widening_done(
    cont: Continuation,
    problem: Problem,
    lhs: InferSortId,
    rhs: InferSortId,
    u0: Unifier,
    u1: Unifier,
    i0: SortInterner,
    i1: SortInterner,
    choices: Seq<(ExprId, NameTarget)>,
)
    requires
        widening_ready(cont, views(problem.constraints@), lhs, rhs, u0, i0, choices),
        cont_valid(cont, views(problem.constraints@)),
        problem_within(problem, u0, i0),
        u0.well_formed(),
        u1.well_formed(),
        i0.well_formed(),
        i1.well_formed(),
        u0.resolved_within(i0),
        u1.advanced_from(u0),
        i1.extends(i0),
        widens_to(u1.denote(i1, lhs), u1.denote(i1, rhs)),
    ensures
        resume_ready(cont, views(problem.constraints@), u1, i1, choices),
{
    let cs = views(problem.constraints@);
    let index = cont_index(cont);
    lemma_branch_kept(problem, index, u0, u1, i0, i1, choices, choices);
    assert(cs[index] == problem.constraints@[index]@);
    assert(constraint_within(problem.constraints@[index]@, u0));
    match cont {
        Continuation::Next(_) => {
            assert forall|j: int| 0 <= j < index + 1 implies holds(#[trigger] cs[j], u1, i1, choices) by {
                if j < index {
                    assert(holds(cs[j], u1, i1, choices));
                }
            }
        },
        Continuation::JoinSource(_, i) => {
            let sources = join_sources(cs[index]);
            let target = join_target(cs[index]);
            lemma_joined_kept(sources, target, i as int, u0, u1, i0, i1);
        },
    }
}

/// The outcome of comparing two measures.
enum Comparison {
    Less,
    Equal,
    Greater,
}

/// At the first difference of two measures, the smaller component decides.
/// No measure ranks before itself in both directions.
proof fn lemma_measure_less_asymmetric(a: Seq<u8>, b: Seq<u8>)
    requires
        measure_less(a, b),
    ensures
        !measure_less(b, a),
{
    if measure_less(b, a) {
        lemma_measure_less_transitive(a, b, a);
    }
}

/// Either the first `n` positions agree, or there is a first position below `n` where they differ.
proof fn lemma_first_difference(a: Seq<u8>, b: Seq<u8>, n: int)
    requires
        0 <= n <= a.len(),
        n <= b.len(),
    ensures
        (forall|j: int| 0 <= j < n ==> a[j] == b[j]) || exists|k: int| 0 <= k < n && #[trigger] differs_first_at(a, b, k),
    decreases n,
{
    if n > 0 {
        lemma_first_difference(a, b, n - 1);
        if forall|j: int| 0 <= j < n - 1 ==> a[j] == b[j] {
            if a[n - 1] != b[n - 1] {
                assert(differs_first_at(a, b, n - 1));
            }
        }
    }
}

/// Two measures of the same length are equal or one ranks before the other.
proof fn lemma_measure_total(a: Seq<u8>, b: Seq<u8>)
    requires
        a.len() == b.len(),
    ensures
        a == b || measure_less(a, b) || measure_less(b, a),
{
    lemma_first_difference(a, b, a.len() as int);
    if forall|j: int| 0 <= j < a.len() ==> a[j] == b[j] {
        lemma_measure_agree(a, b);
    } else {
        let k = choose|k: int| 0 <= k < a.len() && #[trigger] differs_first_at(a, b, k);
        lemma_measure_less_at(a, b, k);
    }
}

/// Cutting two measures to their first `n` components keeps their order, or makes them equal.
proof fn lemma_take_less(a: Seq<u8>, b: Seq<u8>, n: int)
    requires
        measure_less(a, b),
        0 <= n <= a.len(),
        n <= b.len(),
    ensures
        measure_less(a.take(n), b.take(n)) || a.take(n) == b.take(n),
{
    let k = choose|k: int| #[trigger] differs_first_at(a, b, k) && a[k] < b[k];
    if k < n {
        assert(differs_first_at(a.take(n), b.take(n), k));
    } else {
        assert(a.take(n) =~= b.take(n));
    }
}

/// The measure component of a literal of sort `term`: the generality of its number sort.
pub open spec fn lit_component(term: SortTerm) -> u8 {
    match term {
        SortTerm::Basic(sort) => match spec_number_generality(sort) {
            Some(generality) => generality as u8,
            None => 0,
        },
        _ => 0,
    }
}

/// The measure components of the constraints of `cs` from `index` on, where none is a widening,
/// once `sigma` replaces the variables of the sorts the nodes stand for in `unifier`: the
/// generality of the sort of each literal, in order.
pub open spec fn measure_under(
    cs: Seq<ConstraintView>,
    index: int,
    unifier: Unifier,
    interner: SortInterner,
    sigma: spec_fn(usize) -> SortTerm,
) -> Seq<u8>
    decreases cs.len() - index,
{
    if index < 0 || index >= cs.len() {
        Seq::empty()
    } else {
        let rest = measure_under(cs, index + 1, unifier, interner, sigma);
        match cs[index] {
            ConstraintView::Lit { sort, .. } => seq![lit_component(substitute(unifier.denote(interner, sort), sigma))]
                + rest,
            _ => rest,
        }
    }
}

/// There is a best solution, and it ranks no later than `x`.
pub open spec fn ranks_by(best: Option<Candidate>, x: Seq<u8>) -> bool {
    best matches Some(b) && !measure_less(x, b.measure@)
}

/// There is a best solution, and its first components rank no later than `prefix`.
pub open spec fn leads_by(best: Option<Candidate>, prefix: Seq<u8>) -> bool {
    best matches Some(b) && prefix.len() <= b.measure@.len() && !measure_less(
        prefix,
        b.measure@.take(prefix.len() as int),
    )
}

/// A best solution that got no worse still ranks no later than `x`.
proof fn lemma_ranks_kept(later: Option<Candidate>, earlier: Option<Candidate>, x: Seq<u8>)
    requires
        no_worse(later, earlier),
        ranks_by(earlier, x),
    ensures
        ranks_by(later, x),
{
    let e = earlier->0;
    let l = later->0;
    if measure_less(x, l.measure@) && measure_less(l.measure@, e.measure@) {
        lemma_measure_less_transitive(x, l.measure@, e.measure@);
    }
}

/// A best solution that got no worse, with a measure as long, still leads by `prefix`.
proof fn lemma_leads_kept(later: Option<Candidate>, earlier: Option<Candidate>, prefix: Seq<u8>)
    requires
        no_worse(later, earlier),
        leads_by(earlier, prefix),
        later is Some ==> later->0.measure@.len() == earlier->0.measure@.len(),
    ensures
        leads_by(later, prefix),
{
    let e = earlier->0;
    let l = later->0;
    let n = prefix.len() as int;
    if measure_less(l.measure@, e.measure@) {
        lemma_take_less(l.measure@, e.measure@, n);
        if measure_less(prefix, l.measure@.take(n)) && measure_less(l.measure@.take(n), e.measure@.take(n)) {
            lemma_measure_less_transitive(prefix, l.measure@.take(n), e.measure@.take(n));
        }
    }
}

/// Leading by a prefix one component longer is leading by the prefix.
proof fn lemma_leads_shorter(best: Option<Candidate>, prefix: Seq<u8>, component: u8)
    requires
        leads_by(best, prefix.push(component)),
    ensures
        leads_by(best, prefix),
{
    let b = best->0.measure@;
    let n = prefix.len() as int;
    if measure_less(prefix, b.take(n)) {
        let k = choose|k: int| #[trigger] differs_first_at(prefix, b.take(n), k) && prefix[k] < b.take(n)[k];
        assert(differs_first_at(prefix.push(component), b.take(n + 1), k));
    }
}

/// A best solution that leads by a prefix ending in a smaller component ranks before every
/// measure that extends the prefix with a larger one.
proof fn lemma_leads_to_ranks(best: Option<Candidate>, prefix: Seq<u8>, smaller: u8, larger: u8, rest: Seq<u8>)
    requires
        leads_by(best, prefix.push(smaller)),
        smaller < larger,
    ensures
        ranks_by(best, prefix.push(larger) + rest),
        measure_less(best->0.measure@, prefix.push(larger) + rest),
{
    let b = best->0.measure@;
    let n = prefix.len() as int;
    let low = prefix.push(smaller);
    let high = prefix.push(larger);
    let head = b.take(n + 1);
    assert(differs_first_at(low, high, n));
    lemma_measure_less_at(low, high, n);
    lemma_measure_total(head, low);
    if measure_less(head, low) {
        lemma_measure_less_transitive(head, low, high);
    }
    assert((high + rest).take(n + 1) =~= high);
    law_pruned_branches_rank_after_the_best(b, high, high + rest);
    lemma_measure_less_asymmetric(b, high + rest);
}

/// The measure components of the first `n` constraints, where none is a widening: the
/// generality of the sort each literal stands for in `unifier`.
pub open spec fn lit_measure(cs: Seq<ConstraintView>, n: int, unifier: Unifier, interner: SortInterner) -> Seq<u8>
    decreases n,
{
    if n <= 0 {
        Seq::empty()
    } else {
        let before = lit_measure(cs, n - 1, unifier, interner);
        match cs[n - 1] {
            ConstraintView::Lit { sort, .. } => before.push(lit_component(unifier.denote(interner, sort))),
            _ => before,
        }
    }
}

/// The literals among the first `n` constraints, whose sorts are settled once they hold, keep
/// their measure as the unifier advances and the interner grows.
proof fn lemma_lit_measure_kept(
    problem: Problem,
    n: int,
    ua: Unifier,
    ia: SortInterner,
    ub: Unifier,
    ib: SortInterner,
    choices: Seq<(ExprId, NameTarget)>,
)
    requires
        0 <= n <= problem.constraints@.len(),
        ua.well_formed(),
        ub.well_formed(),
        ia.well_formed(),
        ib.well_formed(),
        ua.resolved_within(ia),
        ub.advanced_from(ua),
        ib.extends(ia),
        problem_within(problem, ua, ia),
        branch_holds(views(problem.constraints@), n, ua, ia, choices),
    ensures
        lit_measure(views(problem.constraints@), n, ua, ia) == lit_measure(views(problem.constraints@), n, ub, ib),
    decreases n,
{
    let cs = views(problem.constraints@);
    if n > 0 {
        lemma_lit_measure_kept(problem, n - 1, ua, ia, ub, ib, choices);
        assert(cs[n - 1] == problem.constraints@[n - 1]@);
        assert(constraint_within(problem.constraints@[n - 1]@, ua));
        assert(holds(cs[n - 1], ua, ia, choices));
        match cs[n - 1] {
            ConstraintView::Lit { sort, .. } => {
                lemma_denote_advanced(ua, ub, ia, ib, sort);
                ub.lemma_instantiate_shapes(ib, ua.denote(ia, sort));
            },
            _ => {},
        }
    }
}

/// The literals met by the choices of `path` keep their measure as the unifier advances and the
/// interner grows.
proof fn lemma_lit_measure_kept_realized(
    problem: Problem,
    path: Seq<int>,
    ua: Unifier,
    ia: SortInterner,
    ub: Unifier,
    ib: SortInterner,
)
    requires
        ua.well_formed(),
        ub.well_formed(),
        ia.well_formed(),
        ib.well_formed(),
        ua.resolved_within(ia),
        ub.advanced_from(ua),
        ib.extends(ia),
        problem_within(problem, ua, ia),
        realized_now(views(problem.constraints@), path, ua, ia),
    ensures
        lit_measure(views(problem.constraints@), path.len() as int, ua, ia) == lit_measure(
            views(problem.constraints@),
            path.len() as int,
            ub,
            ib,
        ),
    decreases path.len(),
{
    let cs = views(problem.constraints@);
    let n = path.len() as int;
    if n > 0 {
        let shorter = path.drop_last();
        assert forall|j: int| 0 <= j < shorter.len() implies meets_now(#[trigger] cs[j], shorter[j], ua, ia) by {
            assert(meets_now(cs[j], path[j], ua, ia));
        }
        lemma_lit_measure_kept_realized(problem, shorter, ua, ia, ub, ib);
        assert(cs[n - 1] == problem.constraints@[n - 1]@);
        assert(constraint_within(problem.constraints@[n - 1]@, ua));
        assert(meets_now(cs[n - 1], path[n - 1], ua, ia));
        match cs[n - 1] {
            ConstraintView::Lit { sort, .. } => {
                lemma_denote_advanced(ua, ub, ia, ib, sort);
                ub.lemma_instantiate_shapes(ib, ua.denote(ia, sort));
            },
            _ => {},
        }
    }
}

/// The measure of the literals up to `n` under a witness, followed by the measure of the rest
/// under its assignment, is the measure of all of them under the assignment.
proof fn lemma_lit_measure_under(
    problem: Problem,
    n: int,
    start: Unifier,
    i0: SortInterner,
    witness: Unifier,
    interner: SortInterner,
)
    requires
        0 <= n <= problem.constraints@.len(),
        start.well_formed(),
        witness.well_formed(),
        i0.well_formed(),
        interner.well_formed(),
        interner.extends(i0),
        start.resolved_within(i0),
        witness.advanced_from(start),
        problem_within(problem, start, i0),
    ensures
        lit_measure(views(problem.constraints@), n, witness, interner) + measure_under(
            views(problem.constraints@),
            n,
            start,
            i0,
            witness_assignment(witness, interner),
        ) == measure_under(views(problem.constraints@), 0, start, i0, witness_assignment(witness, interner)),
    decreases n,
{
    let cs = views(problem.constraints@);
    let sigma = witness_assignment(witness, interner);
    if n == 0 {
        assert(lit_measure(cs, 0, witness, interner) + measure_under(cs, 0, start, i0, sigma) =~= measure_under(
            cs,
            0,
            start,
            i0,
            sigma,
        ));
    } else {
        lemma_lit_measure_under(problem, n - 1, start, i0, witness, interner);
        assert(cs[n - 1] == problem.constraints@[n - 1]@);
        assert(constraint_within(problem.constraints@[n - 1]@, start));
        let before = lit_measure(cs, n - 1, witness, interner);
        match cs[n - 1] {
            ConstraintView::Lit { sort, .. } => {
                lemma_witness_node(start, i0, witness, interner, sort);
                assert(before + measure_under(cs, n - 1, start, i0, sigma) =~= lit_measure(cs, n, witness, interner)
                    + measure_under(cs, n, start, i0, sigma));
            },
            _ => {
                assert(measure_under(cs, n - 1, start, i0, sigma) == measure_under(cs, n, start, i0, sigma));
            },
        }
    }
}

/// `sigma` satisfies the constraints with the choices `combo`, one per constraint, and no
/// assignment that satisfies them gives a measure that ranks before the one `sigma` gives.
pub open spec fn least_choice(
    cs: Seq<ConstraintView>,
    unifier: Unifier,
    interner: SortInterner,
    sigma: spec_fn(usize) -> SortTerm,
    combo: Seq<int>,
) -> bool {
    &&& solved_from(cs, 0, unifier, interner, sigma)
    &&& realizes(cs, 0, combo, unifier, interner, sigma)
    &&& ranks_first(cs, unifier, interner, sigma)
}

/// The measure of the literals has the same length whatever replaces the variables.
proof fn lemma_measure_under_len(
    cs: Seq<ConstraintView>,
    index: int,
    unifier: Unifier,
    interner: SortInterner,
    first: spec_fn(usize) -> SortTerm,
    second: spec_fn(usize) -> SortTerm,
)
    ensures
        measure_under(cs, index, unifier, interner, first).len() == measure_under(cs, index, unifier, interner, second).len(),
    decreases cs.len() - index,
{
    if 0 <= index < cs.len() {
        lemma_measure_under_len(cs, index + 1, unifier, interner, first, second);
    }
}

/// No assignment that satisfies the constraints gives a measure that ranks before the one `sigma`
/// gives.
pub open spec fn ranks_first(
    cs: Seq<ConstraintView>,
    unifier: Unifier,
    interner: SortInterner,
    sigma: spec_fn(usize) -> SortTerm,
) -> bool {
    forall|other: spec_fn(usize) -> SortTerm|
        #[trigger] solved_from(cs, 0, unifier, interner, other) ==> !measure_less(
            measure_under(cs, 0, unifier, interner, other),
            measure_under(cs, 0, unifier, interner, sigma),
        )
}

/// The constraint `c` is met by the choice `choice` once `sigma` replaces the variables of the
/// sorts the nodes stand for in `unifier`: the disjunct of that index, the reading of that index
/// of a comprehension, or, for a literal, a number sort of that generality.
pub open spec fn meets(
    c: ConstraintView,
    choice: int,
    unifier: Unifier,
    interner: SortInterner,
    sigma: spec_fn(usize) -> SortTerm,
) -> bool {
    match c {
        ConstraintView::Disjunction { sort, disjuncts, .. } => 0 <= choice < disjuncts.len() && substitute(
            unifier.denote(interner, sort),
            sigma,
        ) == substitute(unifier.denote(interner, disjuncts[choice].1), sigma),
        ConstraintView::Comprehension { body, node, element } => {
            &&& 0 <= choice < 3
            &&& substitute(unifier.denote(interner, body), sigma) == SortTerm::Basic(reading_body(choice))
            &&& substitute(unifier.denote(interner, node), sigma) == SortTerm::Container(
                reading_op(choice),
                Box::new(interner.term(element)),
            )
        },
        ConstraintView::Lit { sort, kind } => admits(kind, substitute(unifier.denote(interner, sort), sigma))
            && choice == lit_component(substitute(unifier.denote(interner, sort), sigma)),
        _ => false,
    }
}

/// The choices `combo` meet the constraints of `cs` from `from` on, one each, under `sigma`.
pub open spec fn realizes(
    cs: Seq<ConstraintView>,
    from: int,
    combo: Seq<int>,
    unifier: Unifier,
    interner: SortInterner,
    sigma: spec_fn(usize) -> SortTerm,
) -> bool {
    &&& combo.len() == cs.len() - from
    &&& forall|j: int| from <= j < cs.len() ==> meets(#[trigger] cs[j], combo[j - from], unifier, interner, sigma)
}

/// The constraint `c` is met by the choice `choice` in the sorts the nodes stand for in `unifier`.
pub open spec fn meets_now(c: ConstraintView, choice: int, unifier: Unifier, interner: SortInterner) -> bool {
    match c {
        ConstraintView::Disjunction { sort, disjuncts, .. } => 0 <= choice < disjuncts.len() && unifier.denote(
            interner,
            sort,
        ) == unifier.denote(interner, disjuncts[choice].1),
        ConstraintView::Comprehension { body, node, element } => {
            &&& 0 <= choice < 3
            &&& unifier.denote(interner, body) == SortTerm::Basic(reading_body(choice))
            &&& unifier.denote(interner, node) == SortTerm::Container(
                reading_op(choice),
                Box::new(interner.term(element)),
            )
        },
        ConstraintView::Lit { sort, kind } => admits(kind, unifier.denote(interner, sort)) && choice == lit_component(
            unifier.denote(interner, sort),
        ),
        _ => false,
    }
}

/// The choices `path` meet the first constraints of `cs`, one each, in `unifier`.
pub open spec fn realized_now(cs: Seq<ConstraintView>, path: Seq<int>, unifier: Unifier, interner: SortInterner) -> bool {
    &&& path.len() <= cs.len()
    &&& forall|j: int| 0 <= j < path.len() ==> meets_now(#[trigger] cs[j], path[j], unifier, interner)
}

/// `path` starts with `prefix`.
pub open spec fn extends_path(path: Seq<int>, prefix: Seq<int>) -> bool {
    prefix.len() <= path.len() && path.take(prefix.len() as int) == prefix
}

/// A best solution whose measure is `x` was reached by the choices `path`, or its measure was
/// reached a second time.
pub open spec fn settles(best: Option<Candidate>, x: Seq<u8>, path: Seq<int>) -> bool {
    best is Some && best->0.measure@ == x ==> best->0.path@ == path || best->0.duplicate
}

/// A best solution that got no worse, and ranked no later than `x`, still settles `x`.
proof fn lemma_settles_kept(later: Option<Candidate>, earlier: Option<Candidate>, x: Seq<u8>, path: Seq<int>)
    requires
        no_worse(later, earlier),
        ranks_by(earlier, x),
        settles(earlier, x, path),
    ensures
        settles(later, x, path),
{
}

/// Choices met from `from` on are still met where the state agrees under `sigma`, and the choices
/// after the first are met from the next constraint on.
proof fn lemma_realizes_agree(
    problem: Problem,
    from: int,
    combo: Seq<int>,
    ua: Unifier,
    ia: SortInterner,
    ub: Unifier,
    ib: SortInterner,
    sigma: spec_fn(usize) -> SortTerm,
)
    requires
        0 <= from < problem.constraints@.len(),
        problem_within(problem, ua, ia),
        agree_under(ua, ia, ub, ib, sigma),
        ia.well_formed(),
        ib.well_formed(),
        ib.extends(ia),
        realizes(views(problem.constraints@), from, combo, ua, ia, sigma),
    ensures
        realizes(views(problem.constraints@), from + 1, combo.drop_first(), ub, ib, sigma),
{
    let cs = views(problem.constraints@);
    assert forall|j: int| from + 1 <= j < cs.len() implies meets(
        #[trigger] cs[j],
        combo.drop_first()[j - (from + 1)],
        ub,
        ib,
        sigma,
    ) by {
        assert(combo.drop_first()[j - (from + 1)] == combo[j - from]);
        assert(meets(cs[j], combo[j - from], ua, ia, sigma));
        assert(cs[j] == problem.constraints@[j]@);
        assert(constraint_within(problem.constraints@[j]@, ua));
        assert(constraint_fits(problem.constraints@[j]@, problem.expr_sorts@.len(), ia));
        match cs[j] {
            ConstraintView::Disjunction { sort, disjuncts, .. } => {
                let k = combo[j - from];
                assert(ua.contains(disjuncts[k].1));
                assert(substitute(ub.denote(ib, sort), sigma) == substitute(ua.denote(ia, sort), sigma));
                assert(substitute(ub.denote(ib, disjuncts[k].1), sigma) == substitute(ua.denote(ia, disjuncts[k].1), sigma));
            },
            ConstraintView::Comprehension { body, node, element } => {
                assert(substitute(ub.denote(ib, body), sigma) == substitute(ua.denote(ia, body), sigma));
                assert(substitute(ub.denote(ib, node), sigma) == substitute(ua.denote(ia, node), sigma));
                ib.lemma_extends(ia, element);
            },
            ConstraintView::Lit { sort, .. } => {
                assert(substitute(ub.denote(ib, sort), sigma) == substitute(ua.denote(ia, sort), sigma));
            },
            _ => {},
        }
    }
}

/// A path that starts with `prefix` followed by `x` starts with `prefix`, and has `x` next.
proof fn lemma_extends_push(path: Seq<int>, prefix: Seq<int>, x: int)
    ensures
        extends_path(path, prefix.push(x)) ==> extends_path(path, prefix) && path.len() > prefix.len() && path[prefix.len() as int] == x,
{
    if extends_path(path, prefix.push(x)) {
        let n = prefix.len() as int;
        assert(path.take(n + 1) == prefix.push(x));
        assert(path.take(n) =~= path.take(n + 1).take(n));
        assert(prefix.push(x).take(n) =~= prefix);
        assert(path.take(n + 1)[n] == path[n]);
        assert(prefix.push(x)[n] == x);
    }
}

/// The choices met in a unifier are still met after it advanced and the interner grew.
proof fn lemma_realized_kept(
    problem: Problem,
    path: Seq<int>,
    ua: Unifier,
    ia: SortInterner,
    ub: Unifier,
    ib: SortInterner,
)
    requires
        ua.well_formed(),
        ub.well_formed(),
        ia.well_formed(),
        ib.well_formed(),
        ua.resolved_within(ia),
        ub.advanced_from(ua),
        ib.extends(ia),
        problem_within(problem, ua, ia),
        realized_now(views(problem.constraints@), path, ua, ia),
    ensures
        realized_now(views(problem.constraints@), path, ub, ib),
{
    let cs = views(problem.constraints@);
    assert forall|j: int| 0 <= j < path.len() implies meets_now(#[trigger] cs[j], path[j], ub, ib) by {
        assert(cs[j] == problem.constraints@[j]@);
        assert(constraint_within(problem.constraints@[j]@, ua));
        assert(constraint_fits(problem.constraints@[j]@, problem.expr_sorts@.len(), ia));
        assert(meets_now(cs[j], path[j], ua, ia));
        match cs[j] {
            ConstraintView::Disjunction { sort, disjuncts, .. } => {
                assert(ua.contains(disjuncts[path[j]].1));
                lemma_denote_advanced(ua, ub, ia, ib, sort);
                lemma_denote_advanced(ua, ub, ia, ib, disjuncts[path[j]].1);
            },
            ConstraintView::Comprehension { body, node, element } => {
                lemma_denote_advanced(ua, ub, ia, ib, body);
                lemma_denote_advanced(ua, ub, ia, ib, node);
                ub.lemma_instantiate_shapes(ib, ua.denote(ia, body));
                ub.lemma_instantiate_shapes(ib, ua.denote(ia, node));
                ib.lemma_extends(ia, element);
                ub.lemma_instantiate_resolved(ib, element);
            },
            ConstraintView::Lit { sort, .. } => {
                lemma_denote_advanced(ua, ub, ia, ib, sort);
                ub.lemma_instantiate_shapes(ib, ua.denote(ia, sort));
            },
            _ => {},
        }
    }
}

/// Choices met in a witness that advanced from `start` are met in `start` under the witness's
/// assignment, and then every constraint holds.
proof fn lemma_realized_realizes(
    problem: Problem,
    path: Seq<int>,
    start: Unifier,
    i0: SortInterner,
    witness: Unifier,
    interner: SortInterner,
)
    requires
        start.well_formed(),
        witness.well_formed(),
        i0.well_formed(),
        interner.well_formed(),
        interner.extends(i0),
        start.resolved_within(i0),
        witness.advanced_from(start),
        problem_within(problem, start, i0),
        path.len() == problem.constraints@.len(),
        realized_now(views(problem.constraints@), path, witness, interner),
    ensures
        realizes(views(problem.constraints@), 0, path, start, i0, witness_assignment(witness, interner)),
        solved_from(views(problem.constraints@), 0, start, i0, witness_assignment(witness, interner)),
{
    let cs = views(problem.constraints@);
    let sigma = witness_assignment(witness, interner);
    assert forall|j: int| 0 <= j < cs.len() implies meets(#[trigger] cs[j], path[j - 0], start, i0, sigma) && holds_under(
        cs[j],
        start,
        i0,
        sigma,
    ) by {
        assert(cs[j] == problem.constraints@[j]@);
        assert(constraint_within(problem.constraints@[j]@, start));
        assert(constraint_fits(problem.constraints@[j]@, problem.expr_sorts@.len(), i0));
        assert(meets_now(cs[j], path[j], witness, interner));
        match cs[j] {
            ConstraintView::Disjunction { sort, disjuncts, .. } => {
                assert(start.contains(disjuncts[path[j]].1));
                lemma_witness_node(start, i0, witness, interner, sort);
                lemma_witness_node(start, i0, witness, interner, disjuncts[path[j]].1);
            },
            ConstraintView::Comprehension { body, node, element } => {
                lemma_witness_node(start, i0, witness, interner, body);
                lemma_witness_node(start, i0, witness, interner, node);
                interner.lemma_extends(i0, element);
            },
            ConstraintView::Lit { sort, .. } => {
                lemma_witness_node(start, i0, witness, interner, sort);
            },
            _ => {},
        }
    }
}

/// The node `x` stands in `unifier` for a sort stored in `interner`.
pub open spec fn stands_stored(unifier: Unifier, interner: SortInterner, x: InferSortId) -> bool {
    exists|id: ResolvedSortId| interner.contains(id) && unifier.denote(interner, x) == #[trigger] interner.term(id)
}

/// From `index` on, the sort that a widening widens, and every source of a join, stands for a
/// stored sort.
pub open spec fn sources_known(cs: Seq<ConstraintView>, index: int, unifier: Unifier, interner: SortInterner) -> bool {
    forall|j: int|
        index <= j < cs.len() ==> (#[trigger] cs[j] is Sub ==> stands_stored(unifier, interner, cs[j]->lhs)) && (
        cs[j] is Join ==> forall|k: int|
            0 <= k < cs[j]->sources.len() ==> stands_stored(unifier, interner, #[trigger] cs[j]->sources[k]))
}

/// A node that stands for a stored sort stands for it still after the unifier advanced and the
/// interner grew.
proof fn lemma_stands_stored_kept(ua: Unifier, ia: SortInterner, ub: Unifier, ib: SortInterner, x: InferSortId)
    requires
        ua.well_formed(),
        ub.well_formed(),
        ia.well_formed(),
        ib.well_formed(),
        ua.resolved_within(ia),
        ub.advanced_from(ua),
        ib.extends(ia),
        ua.contains(x),
        stands_stored(ua, ia, x),
    ensures
        stands_stored(ub, ib, x),
        ub.denote(ib, x) == ua.denote(ia, x),
{
    let id = choose|id: ResolvedSortId| ia.contains(id) && ua.denote(ia, x) == #[trigger] ia.term(id);
    lemma_denote_advanced(ua, ub, ia, ib, x);
    ib.lemma_extends(ia, id);
    ub.lemma_instantiate_resolved(ib, id);
    assert(ib.contains(id) && ub.denote(ib, x) == ib.term(id));
}

/// Sources that stand for stored sorts stand for them still as the unifier advances and the
/// interner grows.
proof fn lemma_sources_known_kept(
    problem: Problem,
    index: int,
    ua: Unifier,
    ia: SortInterner,
    ub: Unifier,
    ib: SortInterner,
)
    requires
        0 <= index,
        ua.well_formed(),
        ub.well_formed(),
        ia.well_formed(),
        ib.well_formed(),
        ua.resolved_within(ia),
        ub.advanced_from(ua),
        ib.extends(ia),
        problem_within(problem, ua, ia),
        sources_known(views(problem.constraints@), index, ua, ia),
    ensures
        sources_known(views(problem.constraints@), index, ub, ib),
{
    let cs = views(problem.constraints@);
    assert forall|j: int| index <= j < cs.len() implies (#[trigger] cs[j] is Sub ==> stands_stored(ub, ib, cs[j]->lhs)) && (
        cs[j] is Join ==> forall|k: int|
            0 <= k < cs[j]->sources.len() ==> stands_stored(ub, ib, #[trigger] cs[j]->sources[k])) by {
        assert(cs[j] == problem.constraints@[j]@);
        assert(constraint_within(problem.constraints@[j]@, ua));
        if cs[j] is Sub {
            lemma_stands_stored_kept(ua, ia, ub, ib, cs[j]->lhs);
        }
        if cs[j] is Join {
            assert forall|k: int| 0 <= k < cs[j]->sources.len() implies stands_stored(ub, ib, #[trigger] cs[j]->sources[k]) by {
                lemma_stands_stored_kept(ua, ia, ub, ib, cs[j]->sources[k]);
            }
        }
    }
}

/// Where the state agrees under `sigma`, the literals from `index` on contribute alike.
proof fn lemma_measure_under_agree(
    problem: Problem,
    index: int,
    ua: Unifier,
    ia: SortInterner,
    ub: Unifier,
    ib: SortInterner,
    sigma: spec_fn(usize) -> SortTerm,
)
    requires
        0 <= index,
        problem_within(problem, ua, ia),
        agree_under(ua, ia, ub, ib, sigma),
    ensures
        measure_under(views(problem.constraints@), index, ua, ia, sigma) == measure_under(
            views(problem.constraints@),
            index,
            ub,
            ib,
            sigma,
        ),
    decreases problem.constraints@.len() - index,
{
    let cs = views(problem.constraints@);
    if index < cs.len() {
        lemma_measure_under_agree(problem, index + 1, ua, ia, ub, ib, sigma);
        assert(cs[index] == problem.constraints@[index]@);
        assert(constraint_within(problem.constraints@[index]@, ua));
        match cs[index] {
            ConstraintView::Lit { sort, .. } => {
                assert(substitute(ub.denote(ib, sort), sigma) == substitute(ua.denote(ia, sort), sigma));
            },
            _ => {},
        }
    }
}

proof fn lemma_measure_less_at(a: Seq<u8>, b: Seq<u8>, i: int)
    requires
        differs_first_at(a, b, i),
    ensures
        measure_less(a, b) == (a[i] < b[i]),
        measure_less(b, a) == (b[i] < a[i]),
{
    assert forall|k: int| #[trigger] differs_first_at(a, b, k) implies k == i by {
        if k < i {
            assert(a[k] == b[k]);
        } else if k > i {
            assert(a[i] == b[i]);
        }
    }
    assert forall|k: int| #[trigger] differs_first_at(b, a, k) implies k == i by {
        if k < i {
            assert(a[k] == b[k]);
        } else if k > i {
            assert(a[i] == b[i]);
        }
    }
    if a[i] < b[i] {
        assert(differs_first_at(a, b, i));
    }
    if b[i] < a[i] {
        assert(differs_first_at(b, a, i));
    }
}

/// Measures that agree everywhere rank neither before the other.
proof fn lemma_measure_agree(a: Seq<u8>, b: Seq<u8>)
    requires
        a.len() == b.len(),
        forall|j: int| 0 <= j < a.len() ==> a[j] == b[j],
    ensures
        !measure_less(a, b),
        !measure_less(b, a),
        a == b,
{
    assert(a =~= b);
}

/// Compares two measures of the same length.
fn compare_measures(a: &Vec<u8>, b: &Vec<u8>) -> (r: Comparison)
    requires
        a@.len() == b@.len(),
    ensures
        r is Less <==> measure_less(a@, b@),
        r is Greater <==> measure_less(b@, a@),
        r is Equal <==> a@ == b@,
{
    let mut i: usize = 0;
    while i < a.len()
        invariant
            i <= a@.len() == b@.len(),
            forall|j: int| 0 <= j < i ==> a@[j] == b@[j],
        decreases a.len() - i,
    {
        if a[i] != b[i] {
            proof {
                lemma_measure_less_at(a@, b@, i as int);
            }
            if a[i] < b[i] {
                return Comparison::Less;
            } else {
                return Comparison::Greater;
            }
        }
        i = i + 1;
    }
    proof {
        lemma_measure_agree(a@, b@);
    }
    Comparison::Equal
}

/// Whether the branch is already beaten: its measure so far ranks after the same prefix of the
/// best solution's, so that no solution below it can rank before the best one or tie with it.
fn dominated(search: &Search) -> (r: bool)
    requires
        search.best matches Some(best) ==> search.measure@.len() <= best.measure@.len(),
    ensures
        r == (search.best matches Some(best) && measure_less(
            best.measure@.take(search.measure@.len() as int),
            search.measure@,
        )),
{
    match &search.best {
        None => false,
        Some(best) => {
            let m = search.measure.len();
            let ghost prefix = best.measure@.take(m as int);
            let mut i: usize = 0;
            while i < m
                invariant
                    search.best == Some(*best),
                    i <= m <= best.measure@.len(),
                    m == search.measure@.len(),
                    prefix == best.measure@.take(m as int),
                    forall|j: int| 0 <= j < i ==> prefix[j] == search.measure@[j],
                decreases m - i,
            {
                if search.measure[i] != best.measure[i] {
                    let later = search.measure[i] > best.measure[i];
                    proof {
                        assert(prefix[i as int] == best.measure@[i as int]);
                        lemma_measure_less_at(prefix, search.measure@, i as int);
                    }
                    return later;
                }
                i = i + 1;
            }
            proof {
                lemma_measure_agree(prefix, search.measure@);
            }
            false
        },
    }
}

/// Reads the solution out of the current bindings: the sort of every expression node, a sort
/// left free taken to be the default sort, and the names resolved before solving with the
/// disjuncts chosen on the branch.
fn extract(search: &Search, interner: &mut SortInterner, unifier: &Unifier, problem: &Problem) -> (c: Candidate)
    requires
        ready(*search, *unifier, *old(interner), *problem),
        widening_free(views(problem.constraints@), 0) ==> search.measure@ == lit_measure(
            views(problem.constraints@),
            problem.constraints@.len() as int,
            *unifier,
            *old(interner),
        ),
        search.measure@.len() == components(views(problem.constraints@), problem.constraints@.len() as int),
        widening_free(views(problem.constraints@), 0) ==> search.path@.len() == problem.constraints@.len()
            && realized_now(views(problem.constraints@), search.path@, *unifier, *old(interner)),
        branch_holds(
            views(problem.constraints@),
            problem.constraints@.len() as int,
            *unifier,
            *old(interner),
            search.choices@,
        ),
    ensures
        c.witness@ == *unifier,
        c.chosen@ == search.choices@,
        c.path@ == search.path@,
        final(interner).well_formed(),
        final(interner).extends(*old(interner)),
        unifier.resolved_within(*final(interner)),
        candidate_fits(c, *problem, *final(interner)),
        c.measure@ == search.measure@,
        !c.duplicate,
        c.typing.names@ == chosen_names(problem.base_names@, search.choices@),
        forall|k: int|
            0 <= k < problem.expr_sorts@.len() ==> final(interner).term(#[trigger] c.typing.sorts@[k]) == defaulted(
                unifier.denote(*final(interner), problem.expr_sorts@[k]),
                final(interner).term(problem.default_sort),
            ),
{
    let ghost start = *interner;
    proof {
        interner.lemma_extends_reflexive();
    }
    let mut sorts: Vec<ResolvedSortId> = Vec::new();
    let mut k: usize = 0;
    while k < problem.expr_sorts.len()
        invariant
            k <= problem.expr_sorts@.len(),
            interner.well_formed(),
            start.well_formed(),
            interner.extends(start),
            unifier.well_formed(),
            unifier.resolved_within(*interner),
            unifier.resolved_within(start),
            problem_within(*problem, *unifier, start),
            sorts@.len() == k,
            forall|j: int|
                0 <= j < k ==> interner.contains(#[trigger] sorts@[j]) && interner.term(sorts@[j]) == defaulted(
                    unifier.denote(*interner, problem.expr_sorts@[j]),
                    interner.term(problem.default_sort),
                ),
        decreases problem.expr_sorts.len() - k,
    {
        let ghost before = *interner;
        proof {
            interner.lemma_extends(start, problem.default_sort);
        }
        let sort = unifier.resolve_or_default(interner, problem.expr_sorts[k], problem.default_sort);
        proof {
            interner.lemma_extends_transitive(before, start);
            interner.lemma_extends(start, problem.default_sort);
            before.lemma_extends(start, problem.default_sort);
            unifier.lemma_denote_interner_grows(before, *interner, problem.expr_sorts@[k as int]);
            assert forall|j: int|
                0 <= j < k implies interner.contains(#[trigger] sorts@[j]) && interner.term(sorts@[j]) == defaulted(
                unifier.denote(*interner, problem.expr_sorts@[j]),
                interner.term(problem.default_sort),
            ) by {
                interner.lemma_extends(before, sorts@[j]);
                unifier.lemma_denote_interner_grows(before, *interner, problem.expr_sorts@[j]);
            }
        }
        sorts.push(sort);
        k = k + 1;
    }
    let mut names: Vec<Option<NameTarget>> = Vec::new();
    let mut k: usize = 0;
    while k < problem.base_names.len()
        invariant
            k <= problem.base_names@.len(),
            names@ == problem.base_names@.take(k as int),
        decreases problem.base_names.len() - k,
    {
        names.push(problem.base_names[k]);
        proof {
            assert(names@ =~= problem.base_names@.take(k as int + 1));
        }
        k = k + 1;
    }
    proof {
        assert(names@ =~= problem.base_names@);
        assert(search.choices@.take(0) =~= Seq::<(ExprId, NameTarget)>::empty());
    }
    let mut k: usize = 0;
    while k < search.choices.len()
        invariant
            k <= search.choices@.len(),
            names@.len() == problem.expr_sorts@.len(),
            problem.base_names@.len() == problem.expr_sorts@.len(),
            forall|j: int| 0 <= j < search.choices@.len() ==> (#[trigger] search.choices@[j]).0.index < problem.expr_sorts@.len(),
            names@ == chosen_names(problem.base_names@, search.choices@.take(k as int)),
        decreases search.choices.len() - k,
    {
        let (expr, target) = search.choices[k];
        proof {
            assert(search.choices@.take(k as int + 1).drop_last() =~= search.choices@.take(k as int));
            assert(search.choices@[k as int].0.index < problem.expr_sorts@.len());
        }
        names.set(expr.index, Some(target));
        k = k + 1;
    }
    proof {
        assert(search.choices@.take(search.choices@.len() as int) =~= search.choices@);
    }
    let mut measure: Vec<u8> = Vec::new();
    let mut k: usize = 0;
    while k < search.measure.len()
        invariant
            k <= search.measure@.len(),
            measure@ == search.measure@.take(k as int),
        decreases search.measure.len() - k,
    {
        measure.push(search.measure[k]);
        proof {
            assert(measure@ =~= search.measure@.take(k as int + 1));
        }
        k = k + 1;
    }
    proof {
        assert(measure@ =~= search.measure@);
    }
    proof {
        unifier.lemma_advanced_reflexive();
        lemma_problem_within_kept(*problem, *unifier, *unifier, start, *interner);
        lemma_branch_kept(
            *problem,
            problem.constraints@.len() as int,
            *unifier,
            *unifier,
            start,
            *interner,
            search.choices@,
            search.choices@,
        );
        if widening_free(views(problem.constraints@), 0) {
            lemma_lit_measure_kept(
                *problem,
                problem.constraints@.len() as int,
                *unifier,
                start,
                *unifier,
                *interner,
                search.choices@,
            );
            lemma_realized_kept(*problem, search.path@, *unifier, start, *unifier, *interner);
        }
    }
    Candidate {
        measure,
        duplicate: false,
        typing: Typing { sorts, names },
        witness: Ghost(*unifier),
        chosen: Ghost(search.choices@),
        path: Ghost(search.path@),
        rival_path: Ghost(search.path@),
        rival_witness: Ghost(*unifier),
    }
}

/// A complete assignment: it becomes the best solution when it ranks before the best so far,
/// and marks the best one as found twice when it ties with it.
fn leaf(search: &mut Search, interner: &mut SortInterner, unifier: &Unifier, problem: &Problem)
    requires
        ready(*old(search), *unifier, *old(interner), *problem),
        widening_free(views(problem.constraints@), 0) ==> old(search).path@.len() == problem.constraints@.len()
            && realized_now(views(problem.constraints@), old(search).path@, *unifier, *old(interner)),
        widening_free(views(problem.constraints@), 0) && old(search).best is Some ==> !extends_path(
            old(search).best->0.path@,
            old(search).path@,
        ),
        widening_free(views(problem.constraints@), 0) ==> old(search).measure@ == lit_measure(
            views(problem.constraints@),
            problem.constraints@.len() as int,
            *unifier,
            *old(interner),
        ),
        old(search).measure@.len() == components(views(problem.constraints@), problem.constraints@.len() as int),
        branch_holds(
            views(problem.constraints@),
            problem.constraints@.len() as int,
            *unifier,
            *old(interner),
            old(search).choices@,
        ),
    ensures
        search_step(*old(search), *final(search), *unifier, *unifier, *old(interner), *final(interner), *problem),
        final(search).best is Some,
        ranks_by(final(search).best, old(search).measure@),
        (old(search).best is Some && final(search).best->0.path@ == old(search).best->0.path@)
            || final(search).best->0.path@ == old(search).path@,
        settles(final(search).best, old(search).measure@, old(search).path@),
{
    let ghost s0 = *search;
    let ghost i0 = *interner;
    proof {
        unifier.lemma_advanced_reflexive();
        interner.lemma_extends_reflexive();
    }
    let current = search.best.take();
    match current {
        None => {
            let candidate = extract(search, interner, unifier, problem);
            search.best = Some(candidate);
            proof {
                lemma_problem_within_kept(*problem, *unifier, *unifier, i0, *interner);
            }
        },
        Some(best) => {
            match compare_measures(&search.measure, &best.measure) {
                Comparison::Less => {
                    let candidate = extract(search, interner, unifier, problem);
                    search.best = Some(candidate);
                    proof {
                        lemma_problem_within_kept(*problem, *unifier, *unifier, i0, *interner);
                    }
                },
                Comparison::Equal => {
                    proof {
                        if widening_free(views(problem.constraints@), 0) {
                            assert(best.path@.take(search.path@.len() as int) =~= best.path@);
                        }
                    }
                    search.best = Some(
                        Candidate {
                            measure: best.measure,
                            duplicate: true,
                            typing: best.typing,
                            witness: best.witness,
                            chosen: best.chosen,
                            path: best.path,
                            rival_path: Ghost(search.path@),
                            rival_witness: Ghost(*unifier),
                        },
                    );
                },
                Comparison::Greater => {
                    proof {
                        lemma_measure_less_asymmetric(best.measure@, search.measure@);
                    }
                    search.best = Some(best);
                },
            }
        },
    }
}

/// Solves the constraints from `index` on, and returns whether a complete assignment was reached
/// below this point.
fn solve(
    search: &mut Search,
    interner: &mut SortInterner,
    unifier: &mut Unifier,
    problem: &Problem,
    index: usize,
) -> (found: bool)
    requires
        ready(*old(search), *old(unifier), *old(interner), *problem),
        index <= problem.constraints.len(),
        old(search).measure@.len() == components(views(problem.constraints@), index as int),
        branch_holds(views(problem.constraints@), index as int, *old(unifier), *old(interner), old(search).choices@),
        widening_free(views(problem.constraints@), 0) ==> old(search).measure@ == lit_measure(
            views(problem.constraints@),
            index as int,
            *old(unifier),
            *old(interner),
        ),
        widening_free(views(problem.constraints@), 0) ==> old(search).path@.len() == index && realized_now(
            views(problem.constraints@),
            old(search).path@,
            *old(unifier),
            *old(interner),
        ),
        widening_free(views(problem.constraints@), 0) && old(search).best is Some ==> !extends_path(
            old(search).best->0.path@,
            old(search).path@,
        ),
    ensures
        search_step(*old(search), *final(search), *old(unifier), *final(unifier), *old(interner), *final(interner), *problem),
        found ==> final(search).best is Some,
        widening_free(views(problem.constraints@), index as int) && found ==> leads_by(
            final(search).best,
            old(search).measure@,
        ),
        widening_free(views(problem.constraints@), 0) && final(search).best is Some ==> (old(search).best is Some
            && final(search).best->0.path@ == old(search).best->0.path@) || extends_path(
            final(search).best->0.path@,
            old(search).path@,
        ),
        forall|sigma: spec_fn(usize) -> SortTerm|
            sources_known(views(problem.constraints@), index as int, *old(unifier), *old(interner)) && #[trigger] solved_from(
                views(problem.constraints@),
                index as int,
                *old(unifier),
                *old(interner),
                sigma,
            ) ==> final(search).best is Some,
        forall|sigma: spec_fn(usize) -> SortTerm, combo: Seq<int>|
            widening_free(views(problem.constraints@), 0) && solved_from(
                views(problem.constraints@),
                index as int,
                *old(unifier),
                *old(interner),
                sigma,
            ) && #[trigger] realizes(views(problem.constraints@), index as int, combo, *old(unifier), *old(interner), sigma)
                ==> settles(
                final(search).best,
                old(search).measure@ + measure_under(
                    views(problem.constraints@),
                    index as int,
                    *old(unifier),
                    *old(interner),
                    sigma,
                ),
                old(search).path@ + combo,
            ),
        forall|sigma: spec_fn(usize) -> SortTerm|
            widening_free(views(problem.constraints@), index as int) && #[trigger] solved_from(
                views(problem.constraints@),
                index as int,
                *old(unifier),
                *old(interner),
                sigma,
            ) ==> ranks_by(
                final(search).best,
                old(search).measure@ + measure_under(
                    views(problem.constraints@),
                    index as int,
                    *old(unifier),
                    *old(interner),
                    sigma,
                ),
            ),
    decreases problem.constraints@.len() - index, 10int, 0int,
{
    let ghost cs = views(problem.constraints@);
    proof {
        lemma_step_reflexive(*search, *unifier, *interner, *problem);
        lemma_components_monotone(cs, index as int, problem.constraints@.len() as int);
    }
    if dominated(search) {
        proof {
            assert forall|sigma: spec_fn(usize) -> SortTerm|
                widening_free(cs, index as int) && #[trigger] solved_from(cs, index as int, *unifier, *interner, sigma)
                    implies ranks_by(search.best, search.measure@ + measure_under(cs, index as int, *unifier, *interner, sigma)) by {
                let b = search.best->0.measure@;
                let full = search.measure@ + measure_under(cs, index as int, *unifier, *interner, sigma);
                assert(full.take(search.measure@.len() as int) =~= search.measure@);
                law_pruned_branches_rank_after_the_best(b, search.measure@, full);
                lemma_measure_less_asymmetric(b, full);
            }
        }
        return false;
    }
    if index == problem.constraints.len() {
        let ghost before = search.measure@;
        let ghost before_path = search.path@;
        leaf(search, interner, unifier, problem);
        proof {
            assert(before_path.take(before_path.len() as int) =~= before_path);
            let b = search.best->0.measure@;
            assert(b.take(before.len() as int) =~= b);
            assert forall|sigma: spec_fn(usize) -> SortTerm|
                widening_free(cs, index as int) && #[trigger] solved_from(cs, index as int, *old(unifier), *old(interner), sigma)
                    implies ranks_by(search.best, before + measure_under(cs, index as int, *old(unifier), *old(interner), sigma)) by {
                assert(before + measure_under(cs, index as int, *old(unifier), *old(interner), sigma) =~= before);
            }
        }
        return true;
    }
    proof {
        assert(cs[index as int] == problem.constraints@[index as int]@);
        assert(constraint_within(problem.constraints@[index as int]@, *unifier));
        assert(constraint_fits(problem.constraints@[index as int]@, problem.expr_sorts@.len(), *interner));
    }
    proof {
        if cs[index as int] is Sub || cs[index as int] is Join {
            assert(!widening_free(cs, 0));
        }
    }
    match &problem.constraints[index] {
        Constraint::Disjunction(disjunction) => solve_disjunction(search, interner, unifier, problem, index, disjunction),
        Constraint::Sub(sub) => solve_widening(
            search,
            interner,
            unifier,
            problem,
            sub.lhs,
            sub.rhs,
            Continuation::Next(index),
        ),
        Constraint::Lit(lit) => solve_lit(search, interner, unifier, problem, index, lit.sort, lit.kind),
        Constraint::Comprehension(comprehension) => solve_comprehension(
            search,
            interner,
            unifier,
            problem,
            index,
            comprehension.body,
            comprehension.node,
            comprehension.element,
        ),
        Constraint::Join(join) => solve_join(search, interner, unifier, problem, index, join),
    }
}

/// Commits to each disjunct in turn and solves the remaining constraints; every disjunct is
/// explored, so that solutions of equal measure through different overloads show as ambiguity.
fn solve_disjunction(
    search: &mut Search,
    interner: &mut SortInterner,
    unifier: &mut Unifier,
    problem: &Problem,
    index: usize,
    disjunction: &Disjunction,
) -> (found: bool)
    requires
        ready(*old(search), *old(unifier), *old(interner), *problem),
        index < problem.constraints.len(),
        problem.constraints@[index as int]@ == (ConstraintView::Disjunction {
            expr: disjunction.expr,
            sort: disjunction.sort,
            disjuncts: disjunction.disjuncts@,
        }),
        old(search).measure@.len() == components(views(problem.constraints@), index as int),
        branch_holds(views(problem.constraints@), index as int, *old(unifier), *old(interner), old(search).choices@),
        widening_free(views(problem.constraints@), 0) ==> old(search).measure@ == lit_measure(
            views(problem.constraints@),
            index as int,
            *old(unifier),
            *old(interner),
        ),
        widening_free(views(problem.constraints@), 0) ==> old(search).path@.len() == index && realized_now(
            views(problem.constraints@),
            old(search).path@,
            *old(unifier),
            *old(interner),
        ),
        widening_free(views(problem.constraints@), 0) && old(search).best is Some ==> !extends_path(
            old(search).best->0.path@,
            old(search).path@,
        ),
    ensures
        search_step(*old(search), *final(search), *old(unifier), *final(unifier), *old(interner), *final(interner), *problem),
        found ==> final(search).best is Some,
        widening_free(views(problem.constraints@), index as int) && found ==> leads_by(
            final(search).best,
            old(search).measure@,
        ),
        widening_free(views(problem.constraints@), 0) && final(search).best is Some ==> (old(search).best is Some
            && final(search).best->0.path@ == old(search).best->0.path@) || extends_path(
            final(search).best->0.path@,
            old(search).path@,
        ),
        forall|sigma: spec_fn(usize) -> SortTerm|
            sources_known(views(problem.constraints@), index as int, *old(unifier), *old(interner)) && #[trigger] solved_from(
                views(problem.constraints@),
                index as int,
                *old(unifier),
                *old(interner),
                sigma,
            ) ==> final(search).best is Some,
        forall|sigma: spec_fn(usize) -> SortTerm, combo: Seq<int>|
            widening_free(views(problem.constraints@), 0) && solved_from(
                views(problem.constraints@),
                index as int,
                *old(unifier),
                *old(interner),
                sigma,
            ) && #[trigger] realizes(views(problem.constraints@), index as int, combo, *old(unifier), *old(interner), sigma)
                ==> settles(
                final(search).best,
                old(search).measure@ + measure_under(
                    views(problem.constraints@),
                    index as int,
                    *old(unifier),
                    *old(interner),
                    sigma,
                ),
                old(search).path@ + combo,
            ),
        forall|sigma: spec_fn(usize) -> SortTerm|
            widening_free(views(problem.constraints@), index as int) && #[trigger] solved_from(
                views(problem.constraints@),
                index as int,
                *old(unifier),
                *old(interner),
                sigma,
            ) ==> ranks_by(
                final(search).best,
                old(search).measure@ + measure_under(
                    views(problem.constraints@),
                    index as int,
                    *old(unifier),
                    *old(interner),
                    sigma,
                ),
            ),
    decreases problem.constraints@.len() - index, 9int, 0int,
{
    let ghost s0 = *search;
    let ghost u0 = *unifier;
    let ghost i0 = *interner;
    let ghost cs = views(problem.constraints@);
    proof {
        lemma_step_reflexive(*search, *unifier, *interner, *problem);
        assert(cs[index as int] == problem.constraints@[index as int]@);
        assert(constraint_within(problem.constraints@[index as int]@, *unifier));
        assert(constraint_fits(problem.constraints@[index as int]@, problem.expr_sorts@.len(), *interner));
    }
    let mut found = false;
    let mut k: usize = 0;
    while k < disjunction.disjuncts.len()
        invariant
            k <= disjunction.disjuncts@.len(),
            index < problem.constraints.len(),
            cs == views(problem.constraints@),
            cs[index as int] == (ConstraintView::Disjunction {
                expr: disjunction.expr,
                sort: disjunction.sort,
                disjuncts: disjunction.disjuncts@,
            }),
            search.measure@.len() == components(cs, index as int),
            search_step(s0, *search, u0, *unifier, i0, *interner, *problem),
            s0 == *old(search),
            u0 == *old(unifier),
            i0 == *old(interner),
            ready(s0, u0, i0, *problem),
            branch_holds(cs, index as int, u0, i0, s0.choices@),
            widening_free(cs, 0) ==> s0.measure@ == lit_measure(cs, index as int, u0, i0),
            forall|sigma: spec_fn(usize) -> SortTerm|
                sources_known(cs, index as int, u0, i0) && #[trigger] solved_from(cs, index as int, u0, i0, sigma)
                    && met_before(u0, i0, sigma, disjunction.sort, disjunction.disjuncts@, k as int) ==> search.best is Some,
            widening_free(cs, 0) ==> s0.path@.len() == index && realized_now(cs, s0.path@, u0, i0),
            widening_free(cs, 0) && s0.best is Some ==> !extends_path(s0.best->0.path@, s0.path@),
            widening_free(cs, 0) && search.best is Some ==> (s0.best is Some && search.best->0.path@
                == s0.best->0.path@) || (extends_path(search.best->0.path@, s0.path@) && search.best->0.path@.len()
                > s0.path@.len() && search.best->0.path@[s0.path@.len() as int] < k),
            forall|sigma: spec_fn(usize) -> SortTerm, combo: Seq<int>|
                widening_free(cs, 0) && solved_from(cs, index as int, u0, i0, sigma) && #[trigger] realizes(
                    cs,
                    index as int,
                    combo,
                    u0,
                    i0,
                    sigma,
                ) && combo[0] < k ==> settles(search.best, s0.measure@ + measure_under(cs, index as int, u0, i0, sigma), s0.path@ + combo),
            found ==> search.best is Some,
            widening_free(cs, index as int) && found ==> leads_by(search.best, s0.measure@),
            unifier.bindings() == u0.bindings(),
            forall|sigma: spec_fn(usize) -> SortTerm|
                widening_free(cs, index as int) && #[trigger] solved_from(cs, index as int, u0, i0, sigma) && met_before(
                    u0,
                    i0,
                    sigma,
                    disjunction.sort,
                    disjunction.disjuncts@,
                    k as int,
                ) ==> ranks_by(search.best, s0.measure@ + measure_under(cs, index as int, u0, i0, sigma)),
        decreases disjunction.disjuncts.len() - k,
    {
        let (target, sort) = disjunction.disjuncts[k];
        let ghost found_before = found;
        let ghost s1 = *search;
        let ghost u1 = *unifier;
        let ghost i1 = *interner;
        proof {
            assert(cs[index as int] == problem.constraints@[index as int]@);
            assert(constraint_within(cs[index as int], *unifier));
            assert(cs[index as int]->disjuncts == disjunction.disjuncts@);
            assert(unifier.contains(cs[index as int]->disjuncts[k as int].1));
            assert(constraint_fits(problem.constraints@[index as int]@, problem.expr_sorts@.len(), *interner));
        }
        let snapshot = unifier.snapshot();
        let unified = unifier.unify(interner, disjunction.sort, sort);
        proof {
            unifier.lemma_progress_advances(u1, *interner);
            interner.lemma_extends_reflexive();
            lemma_grow_step(s1, u1, *unifier, i1, i1, *problem);
        }
        let ghost u2 = *unifier;
        proof {
            assert forall|sigma: spec_fn(usize) -> SortTerm|
                solved_from(cs, index as int, u0, i0, sigma) && substitute(u0.denote(i0, disjunction.sort), sigma)
                    == substitute(u0.denote(i0, sort), sigma) implies unified && agree_under(u0, i0, u2, i1, sigma) by {
                lemma_agree_same_bindings(u0, i0, u1, i1, sigma);
                u1.lemma_advanced_keeps(u0);
                assert(u0.contains(disjunction.sort));
                assert(u0.contains(sort));
                assert(crate::unification::solves(sigma, u1.denote(i1, disjunction.sort), u1.denote(i1, sort)));
                lemma_agree_kept(u1, u2, i1, sigma);
                lemma_agree_transitive(u0, i0, u1, i1, u2, i1, sigma);
            }
        }
        if unified {
            search.choices.push((disjunction.expr, target));
            search.path = Ghost(s1.path@.push(k as int));
            proof {
                let choices = search.choices@;
                lemma_push_contains(s1.choices@, (disjunction.expr, target));
                u2.lemma_advanced_transitive(u1, u0);
                lemma_branch_kept(*problem, index as int, u0, u2, i0, i1, s0.choices@, choices);
                assert(disjunction.disjuncts@[k as int] == (target, sort));
                assert(holds(cs[index as int], u2, i1, choices));
                assert forall|j: int| 0 <= j < index + 1 implies holds(#[trigger] cs[j], u2, i1, choices) by {}
            }
            proof {
                assert forall|sigma: spec_fn(usize) -> SortTerm|
                    widening_free(cs, index as int) && solved_from(cs, index as int, u0, i0, sigma) && substitute(
                        u0.denote(i0, disjunction.sort),
                        sigma,
                    ) == substitute(u0.denote(i0, sort), sigma) implies #[trigger] solved_from(
                    cs,
                    index + 1,
                    u2,
                    i1,
                    sigma,
                ) by {
                    assert(solved_from(cs, index + 1, u0, i0, sigma));
                    i1.lemma_extends_reflexive();
                    lemma_solved_transfer(*problem, index + 1, u0, i0, u2, i1, sigma);
                }
                if widening_free(cs, 0) {
                    lemma_lit_measure_kept(*problem, index as int, u0, i0, u2, i1, s0.choices@);
                    assert(lit_measure(cs, index + 1, u2, i1) == lit_measure(cs, index as int, u2, i1));
                    lemma_realized_kept(*problem, s0.path@, u0, i0, u2, i1);
                    assert(meets_now(cs[index as int], k as int, u2, i1));
                    assert(realized_now(cs, s0.path@.push(k as int), u2, i1));
                    if search.best is Some {
                        lemma_extends_push(search.best->0.path@, s0.path@, k as int);
                        if s0.best is Some && search.best->0.path@ == s0.best->0.path@ {
                            lemma_extends_push(s0.best->0.path@, s0.path@, k as int);
                        }
                    }
                }
            }
            let ghost s2 = *search;
            let here = solve(search, interner, unifier, problem, index + 1);
            proof {
                if widening_free(cs, 0) && search.best is Some {
                    lemma_extends_push(search.best->0.path@, s0.path@, k as int);
                }
            }
            found = found || here;
            search.choices.pop();
            search.path = Ghost(s1.path@);
            proof {
                assert(search.choices@ =~= s1.choices@);
            }
        } else {
            proof {
                lemma_step_reflexive(*search, *unifier, *interner, *problem);
            }
        }
        let ghost s3 = *search;
        proof {
            unifier.lemma_advanced_transitive(u2, u1);
            unifier.lemma_advanced_keeps(u1);
        }
        let ghost u3 = *unifier;
        unifier.rollback_to(snapshot);
        proof {
            lemma_attempt(s1, *search, u1, u3, *unifier, i1, *interner, *problem, snapshot);
            lemma_step_transitive(s0, s1, *search, u0, u1, *unifier, i0, i1, *interner, *problem);
            assert forall|sigma: spec_fn(usize) -> SortTerm|
                widening_free(cs, index as int) && #[trigger] solved_from(cs, index as int, u0, i0, sigma) && met_before(
                    u0,
                    i0,
                    sigma,
                    disjunction.sort,
                    disjunction.disjuncts@,
                    k + 1,
                ) implies ranks_by(search.best, s0.measure@ + measure_under(cs, index as int, u0, i0, sigma)) by {
                if met_before(u0, i0, sigma, disjunction.sort, disjunction.disjuncts@, k as int) {
                    lemma_ranks_kept(search.best, s1.best, s0.measure@ + measure_under(cs, index as int, u0, i0, sigma));
                } else {
                    let j = choose|j: int|
                        0 <= j < k + 1 && substitute(u0.denote(i0, disjunction.sort), sigma) == substitute(
                            u0.denote(i0, #[trigger] disjunction.disjuncts@[j].1),
                            sigma,
                        );
                    assert(j == k);
                    assert(disjunction.disjuncts@[k as int] == (target, sort));
                    assert(unified);
                    assert(solved_from(cs, index + 1, u2, i1, sigma));
                    lemma_measure_under_agree(*problem, index + 1, u0, i0, u2, i1, sigma);
                    assert(measure_under(cs, index as int, u0, i0, sigma) == measure_under(cs, index + 1, u0, i0, sigma));
                    assert(ranks_by(s3.best, s0.measure@ + measure_under(cs, index as int, u0, i0, sigma)));
                }
            }
            if widening_free(cs, index as int) && found && found_before {
                lemma_leads_kept(search.best, s1.best, s0.measure@);
            }
            assert forall|sigma: spec_fn(usize) -> SortTerm|
                sources_known(cs, index as int, u0, i0) && #[trigger] solved_from(cs, index as int, u0, i0, sigma)
                    && met_before(u0, i0, sigma, disjunction.sort, disjunction.disjuncts@, k + 1) implies search.best is Some by {
                if !met_before(u0, i0, sigma, disjunction.sort, disjunction.disjuncts@, k as int) {
                    let j = choose|j: int|
                        0 <= j < k + 1 && substitute(u0.denote(i0, disjunction.sort), sigma) == substitute(
                            u0.denote(i0, #[trigger] disjunction.disjuncts@[j].1),
                            sigma,
                        );
                    assert(j == k);
                    assert(disjunction.disjuncts@[k as int] == (target, sort));
                    assert(unified);
                    assert(solved_from(cs, index + 1, u0, i0, sigma));
                    lemma_solved_transfer(*problem, index + 1, u0, i0, u2, i1, sigma);
                    lemma_sources_known_kept(*problem, index + 1, u0, i0, u2, i1);
                    assert(s3.best is Some);
                }
            }
            assert forall|sigma: spec_fn(usize) -> SortTerm, combo: Seq<int>|
                widening_free(cs, 0) && solved_from(cs, index as int, u0, i0, sigma) && #[trigger] realizes(
                    cs,
                    index as int,
                    combo,
                    u0,
                    i0,
                    sigma,
                ) && combo[0] < k + 1 implies settles(search.best, s0.measure@ + measure_under(cs, index as int, u0, i0, sigma), s0.path@ + combo) by {
                assert(meets(cs[index as int], combo[0], u0, i0, sigma));
                let chosen = combo[0];
                assert(substitute(u0.denote(i0, disjunction.sort), sigma) == substitute(
                    u0.denote(i0, disjunction.disjuncts@[chosen].1),
                    sigma,
                ));
                if chosen < k {
                    assert(met_before(u0, i0, sigma, disjunction.sort, disjunction.disjuncts@, k as int));
                    lemma_settles_kept(search.best, s1.best, s0.measure@ + measure_under(cs, index as int, u0, i0, sigma), s0.path@ + combo);
                } else {
                    assert(met_before(u0, i0, sigma, disjunction.sort, disjunction.disjuncts@, k + 1));
                    assert(disjunction.disjuncts@[k as int] == (target, sort));
                    assert(unified);
                    assert(solved_from(cs, index + 1, u2, i1, sigma));
                    lemma_realizes_agree(*problem, index as int, combo, u0, i0, u2, i1, sigma);
                    lemma_measure_under_agree(*problem, index + 1, u0, i0, u2, i1, sigma);
                    assert(measure_under(cs, index as int, u0, i0, sigma) == measure_under(cs, index + 1, u0, i0, sigma));
                    assert(s0.path@.push(k as int) + combo.drop_first() =~= s0.path@ + combo);
                    assert(settles(
                        s3.best,
                        s0.measure@ + measure_under(cs, index + 1, u2, i1, sigma),
                        s0.path@.push(k as int) + combo.drop_first(),
                    ));
                }
            }
        }
        k = k + 1;
    }
    proof {
        assert forall|sigma: spec_fn(usize) -> SortTerm|
            widening_free(cs, index as int) && #[trigger] solved_from(cs, index as int, u0, i0, sigma) implies ranks_by(search.best, s0.measure@ + measure_under(cs, index as int, u0, i0, sigma)) by {
            assert(holds_under(cs[index as int], u0, i0, sigma));
            assert(met_before(u0, i0, sigma, disjunction.sort, disjunction.disjuncts@, k as int));
        }
        assert forall|sigma: spec_fn(usize) -> SortTerm|
            sources_known(cs, index as int, u0, i0) && #[trigger] solved_from(cs, index as int, u0, i0, sigma) implies search.best is Some by {
            assert(holds_under(cs[index as int], u0, i0, sigma));
            assert(met_before(u0, i0, sigma, disjunction.sort, disjunction.disjuncts@, k as int));
        }
        assert forall|sigma: spec_fn(usize) -> SortTerm, combo: Seq<int>|
            widening_free(cs, 0) && solved_from(cs, index as int, u0, i0, sigma) && #[trigger] realizes(
                cs,
                index as int,
                combo,
                u0,
                i0,
                sigma,
            ) implies settles(search.best, s0.measure@ + measure_under(cs, index as int, u0, i0, sigma), s0.path@ + combo) by {
            assert(meets(cs[index as int], combo[0], u0, i0, sigma));
        }
    }
    found
}

/// Commits to each reading of a set or bag comprehension in turn and solves the remaining
/// constraints: a `Bool` body makes a `Set`, a `Nat` or a `Pos` body a `Bag`. Every reading is
/// explored, so that an equation typed by two of them shows as ambiguous.
#[verifier::rlimit(100)]
#[verifier::spinoff_prover]
fn solve_comprehension(
    search: &mut Search,
    interner: &mut SortInterner,
    unifier: &mut Unifier,
    problem: &Problem,
    index: usize,
    body: InferSortId,
    node: InferSortId,
    element: ResolvedSortId,
) -> (found: bool)
    requires
        ready(*old(search), *old(unifier), *old(interner), *problem),
        index < problem.constraints.len(),
        problem.constraints@[index as int]@ == (ConstraintView::Comprehension { body, node, element }),
        old(search).measure@.len() == components(views(problem.constraints@), index as int),
        branch_holds(views(problem.constraints@), index as int, *old(unifier), *old(interner), old(search).choices@),
        widening_free(views(problem.constraints@), 0) ==> old(search).measure@ == lit_measure(
            views(problem.constraints@),
            index as int,
            *old(unifier),
            *old(interner),
        ),
        widening_free(views(problem.constraints@), 0) ==> old(search).path@.len() == index && realized_now(
            views(problem.constraints@),
            old(search).path@,
            *old(unifier),
            *old(interner),
        ),
        widening_free(views(problem.constraints@), 0) && old(search).best is Some ==> !extends_path(
            old(search).best->0.path@,
            old(search).path@,
        ),
    ensures
        search_step(*old(search), *final(search), *old(unifier), *final(unifier), *old(interner), *final(interner), *problem),
        found ==> final(search).best is Some,
        widening_free(views(problem.constraints@), index as int) && found ==> leads_by(
            final(search).best,
            old(search).measure@,
        ),
        widening_free(views(problem.constraints@), 0) && final(search).best is Some ==> (old(search).best is Some
            && final(search).best->0.path@ == old(search).best->0.path@) || extends_path(
            final(search).best->0.path@,
            old(search).path@,
        ),
        forall|sigma: spec_fn(usize) -> SortTerm|
            sources_known(views(problem.constraints@), index as int, *old(unifier), *old(interner)) && #[trigger] solved_from(
                views(problem.constraints@),
                index as int,
                *old(unifier),
                *old(interner),
                sigma,
            ) ==> final(search).best is Some,
        forall|sigma: spec_fn(usize) -> SortTerm, combo: Seq<int>|
            widening_free(views(problem.constraints@), 0) && solved_from(
                views(problem.constraints@),
                index as int,
                *old(unifier),
                *old(interner),
                sigma,
            ) && #[trigger] realizes(views(problem.constraints@), index as int, combo, *old(unifier), *old(interner), sigma)
                ==> settles(
                final(search).best,
                old(search).measure@ + measure_under(
                    views(problem.constraints@),
                    index as int,
                    *old(unifier),
                    *old(interner),
                    sigma,
                ),
                old(search).path@ + combo,
            ),
        forall|sigma: spec_fn(usize) -> SortTerm|
            widening_free(views(problem.constraints@), index as int) && #[trigger] solved_from(
                views(problem.constraints@),
                index as int,
                *old(unifier),
                *old(interner),
                sigma,
            ) ==> ranks_by(
                final(search).best,
                old(search).measure@ + measure_under(
                    views(problem.constraints@),
                    index as int,
                    *old(unifier),
                    *old(interner),
                    sigma,
                ),
            ),
    decreases problem.constraints@.len() - index, 9int, 0int,
{
    let ghost s0 = *search;
    let ghost u0 = *unifier;
    let ghost i0 = *interner;
    let ghost cs = views(problem.constraints@);
    proof {
        lemma_step_reflexive(*search, *unifier, *interner, *problem);
        assert(cs[index as int] == problem.constraints@[index as int]@);
    }
    let mut found = false;
    let mut reading: usize = 0;
    while reading < 3
        invariant
            reading <= 3,
            index < problem.constraints.len(),
            cs == views(problem.constraints@),
            cs[index as int] == (ConstraintView::Comprehension { body, node, element }),
            search.measure@.len() == components(cs, index as int),
            search_step(s0, *search, u0, *unifier, i0, *interner, *problem),
            s0 == *old(search),
            u0 == *old(unifier),
            i0 == *old(interner),
            ready(s0, u0, i0, *problem),
            branch_holds(cs, index as int, u0, i0, s0.choices@),
            widening_free(cs, 0) ==> s0.measure@ == lit_measure(cs, index as int, u0, i0),
            forall|sigma: spec_fn(usize) -> SortTerm|
                sources_known(cs, index as int, u0, i0) && #[trigger] solved_from(cs, index as int, u0, i0, sigma)
                    ==> search.best is Some || forall|r: int|
                    0 <= r < reading ==> substitute(u0.denote(i0, body), sigma) != SortTerm::Basic(
                        #[trigger] reading_body(r),
                    ),
            widening_free(cs, 0) ==> s0.path@.len() == index && realized_now(cs, s0.path@, u0, i0),
            widening_free(cs, 0) && s0.best is Some ==> !extends_path(s0.best->0.path@, s0.path@),
            widening_free(cs, 0) && search.best is Some ==> (s0.best is Some && search.best->0.path@
                == s0.best->0.path@) || (extends_path(search.best->0.path@, s0.path@) && search.best->0.path@.len()
                > s0.path@.len() && search.best->0.path@[s0.path@.len() as int] < reading),
            forall|sigma: spec_fn(usize) -> SortTerm, combo: Seq<int>|
                widening_free(cs, 0) && solved_from(cs, index as int, u0, i0, sigma) && #[trigger] realizes(
                    cs,
                    index as int,
                    combo,
                    u0,
                    i0,
                    sigma,
                ) && combo[0] < reading ==> settles(search.best, s0.measure@ + measure_under(cs, index as int, u0, i0, sigma), s0.path@ + combo),
            found ==> search.best is Some,
            widening_free(cs, index as int) && found ==> leads_by(search.best, s0.measure@),
            unifier.bindings() == u0.bindings(),
            forall|sigma: spec_fn(usize) -> SortTerm|
                widening_free(cs, index as int) && #[trigger] solved_from(cs, index as int, u0, i0, sigma)
                    ==> ranks_by(search.best, s0.measure@ + measure_under(cs, index as int, u0, i0, sigma)) || forall|r: int|
                    0 <= r < reading ==> substitute(u0.denote(i0, body), sigma) != SortTerm::Basic(
                        #[trigger] reading_body(r),
                    ),
        decreases 3 - reading,
    {
        let ghost found_before = found;
        let ghost s1 = *search;
        let ghost u1 = *unifier;
        let ghost i1 = *interner;
        proof {
            assert(constraint_within(problem.constraints@[index as int]@, *unifier));
            assert(constraint_fits(problem.constraints@[index as int]@, problem.expr_sorts@.len(), *interner));
        }
        let (body_sort, op) = if reading == 0 {
            (interner.bool_sort(), ComplexSort::SetSort)
        } else if reading == 1 {
            (interner.nat_sort(), ComplexSort::Bag)
        } else {
            (interner.pos_sort(), ComplexSort::Bag)
        };
        let ghost ibs = *interner;
        proof {
            assert(ibs.term(body_sort) == SortTerm::Basic(reading_body(reading as int)));
            assert(op == reading_op(reading as int));
        }
        let container = interner.generic(op, element);
        proof {
            interner.lemma_extends(i1, body_sort);
            unifier.lemma_resolved_within_extends(i1, *interner);
        }
        let body_node = unifier.resolved_node(body_sort);
        let ghost ub = *unifier;
        let container_node = unifier.resolved_node(container);
        let ghost u2 = *unifier;
        let ghost i2 = *interner;
        proof {
            u2.lemma_advanced_transitive(ub, u1);
            u2.lemma_advanced_keeps(ub);
            lemma_grow_step(s1, u1, u2, i1, i2, *problem);
            lemma_step_transitive(s0, s1, s1, u0, u1, u2, i0, i1, i2, *problem);
            u2.lemma_advanced_keeps(u1);
        }
        let snapshot = unifier.snapshot();
        let first = unifier.unify(interner, body, body_node);
        let ghost ua = *unifier;
        proof {
            unifier.lemma_progress_advances(u2, *interner);
            unifier.lemma_advanced_keeps(u2);
        }
        let unified = if first {
            let second = unifier.unify(interner, node, container_node);
            proof {
                unifier.lemma_progress_advances(ua, *interner);
                unifier.lemma_advanced_transitive(ua, u2);
            }
            second
        } else {
            proof {
                unifier.lemma_advanced_reflexive();
            }
            false
        };
        let ghost u3 = *unifier;
        proof {
            i2.lemma_extends_reflexive();
            lemma_grow_step(s1, u2, u3, i2, i2, *problem);
            u2.lemma_advanced_transitive(u1, u0);
            u2.lemma_advanced_keeps(u0);
            i2.lemma_extends(ibs, body_sort);
            i2.lemma_extends(i0, element);
            u2.lemma_grows(ub, i2, body_node);
            assert forall|sigma: spec_fn(usize) -> SortTerm|
                #[trigger] solved_from(cs, index as int, u0, i0, sigma) && substitute(u0.denote(i0, body), sigma)
                    == SortTerm::Basic(reading_body(reading as int)) implies unified && agree_under(u0, i0, u3, i2, sigma) by {
                lemma_agree_same_bindings(u0, i0, u2, i2, sigma);
                assert(u0.contains(body));
                assert(u0.contains(node));
                assert(u2.denote(i2, body_node) == SortTerm::Basic(reading_body(reading as int)));
                assert(crate::unification::solves(sigma, u2.denote(i2, body), u2.denote(i2, body_node)));
                assert(first);
                lemma_agree_kept(u2, ua, i2, sigma);
                assert(holds_under(cs[index as int], u0, i0, sigma));
                assert(u2.denote(i2, container_node) == i2.term(container));
                lemma_substitute_stored(i2, container, sigma);
                ibs.lemma_extends(i0, element);
                assert(i2.term(container) == SortTerm::Container(reading_op(reading as int), Box::new(i0.term(element))));
                assert(substitute(u0.denote(i0, node), sigma) == i2.term(container));
                assert(substitute(ua.denote(i2, container_node), sigma) == substitute(u2.denote(i2, container_node), sigma));
                assert(substitute(ua.denote(i2, node), sigma) == substitute(u2.denote(i2, node), sigma));
                assert(crate::unification::solves(sigma, ua.denote(i2, node), ua.denote(i2, container_node)));
                assert(unified);
                lemma_agree_kept(ua, u3, i2, sigma);
                lemma_agree_transitive(u0, i0, u2, i2, ua, i2, sigma);
                lemma_agree_transitive(u0, i0, ua, i2, u3, i2, sigma);
            }
        }
        if unified {
            proof {
                let choices = search.choices@;
                i2.lemma_extends(i1, body_sort);
                i2.lemma_extends(i1, element);
                i2.lemma_extends(i0, element);
                u2.lemma_grows(ub, i2, body_node);
                lemma_denote_advanced(u2, ua, i2, i2, body_node);
                ua.lemma_instantiate_shapes(i2, u2.denote(i2, body_node));
                lemma_denote_advanced(ua, u3, i2, i2, body);
                u3.lemma_instantiate_shapes(i2, ua.denote(i2, body));
                lemma_denote_advanced(u2, u3, i2, i2, container_node);
                u3.lemma_instantiate_shapes(i2, u2.denote(i2, container_node));
                u3.lemma_instantiate_resolved(i2, element);
                assert(holds(cs[index as int], u3, i2, choices));
                u3.lemma_advanced_transitive(u2, u0);
                lemma_branch_kept(*problem, index as int, u0, u3, i0, i2, s0.choices@, choices);
                assert forall|j: int| 0 <= j < index + 1 implies holds(#[trigger] cs[j], u3, i2, choices) by {}
                assert forall|sigma: spec_fn(usize) -> SortTerm|
                    widening_free(cs, index as int) && solved_from(cs, index as int, u0, i0, sigma) && substitute(
                        u0.denote(i0, body),
                        sigma,
                    ) == SortTerm::Basic(reading_body(reading as int)) implies #[trigger] solved_from(
                    cs,
                    index + 1,
                    u3,
                    i2,
                    sigma,
                ) by {
                    assert(solved_from(cs, index + 1, u0, i0, sigma));
                    lemma_solved_transfer(*problem, index + 1, u0, i0, u3, i2, sigma);
                }
                if widening_free(cs, 0) {
                    lemma_lit_measure_kept(*problem, index as int, u0, i0, u3, i2, s0.choices@);
                    assert(lit_measure(cs, index + 1, u3, i2) == lit_measure(cs, index as int, u3, i2));
                    lemma_realized_kept(*problem, s0.path@, u0, i0, u3, i2);
                    assert(u3.denote(i2, body) == SortTerm::Basic(reading_body(reading as int)));
                    assert(meets_now(cs[index as int], reading as int, u3, i2));
                    assert(realized_now(cs, s0.path@.push(reading as int), u3, i2));
                    if search.best is Some {
                        lemma_extends_push(search.best->0.path@, s0.path@, reading as int);
                        if s0.best is Some && search.best->0.path@ == s0.best->0.path@ {
                            lemma_extends_push(s0.best->0.path@, s0.path@, reading as int);
                        }
                    }
                }
            }
            search.path = Ghost(s1.path@.push(reading as int));
            let here = solve(search, interner, unifier, problem, index + 1);
            proof {
                if widening_free(cs, 0) && search.best is Some {
                    lemma_extends_push(search.best->0.path@, s0.path@, reading as int);
                }
            }
            search.path = Ghost(s1.path@);
            found = found || here;
        } else {
            proof {
                lemma_step_reflexive(*search, *unifier, *interner, *problem);
            }
        }
        proof {
            unifier.lemma_advanced_transitive(u3, u2);
            unifier.lemma_advanced_keeps(u2);
        }
        let ghost u4 = *unifier;
        let ghost s4 = *search;
        unifier.rollback_to(snapshot);
        proof {
            lemma_attempt(s1, *search, u2, u4, *unifier, i2, *interner, *problem, snapshot);
            lemma_step_transitive(s0, s1, *search, u0, u2, *unifier, i0, i2, *interner, *problem);
            assert forall|sigma: spec_fn(usize) -> SortTerm|
                widening_free(cs, index as int) && #[trigger] solved_from(cs, index as int, u0, i0, sigma)
                    implies ranks_by(search.best, s0.measure@ + measure_under(cs, index as int, u0, i0, sigma)) || forall|r: int|
                    0 <= r < reading + 1 ==> substitute(u0.denote(i0, body), sigma) != SortTerm::Basic(
                        #[trigger] reading_body(r),
                    ) by {
                if ranks_by(s1.best, s0.measure@ + measure_under(cs, index as int, u0, i0, sigma)) {
                    lemma_ranks_kept(search.best, s1.best, s0.measure@ + measure_under(cs, index as int, u0, i0, sigma));
                }
                if substitute(u0.denote(i0, body), sigma) == SortTerm::Basic(reading_body(reading as int)) {
                    assert(unified);
                    assert(solved_from(cs, index + 1, u3, i2, sigma));
                    lemma_measure_under_agree(*problem, index + 1, u0, i0, u3, i2, sigma);
                    assert(measure_under(cs, index as int, u0, i0, sigma) == measure_under(cs, index + 1, u0, i0, sigma));
                    assert(ranks_by(s4.best, s0.measure@ + measure_under(cs, index as int, u0, i0, sigma)));
                }
            }
            if widening_free(cs, index as int) && found && found_before {
                lemma_leads_kept(search.best, s1.best, s0.measure@);
            }
            assert forall|sigma: spec_fn(usize) -> SortTerm|
                sources_known(cs, index as int, u0, i0) && #[trigger] solved_from(cs, index as int, u0, i0, sigma)
                    implies search.best is Some || forall|r: int|
                    0 <= r < reading + 1 ==> substitute(u0.denote(i0, body), sigma) != SortTerm::Basic(
                        #[trigger] reading_body(r),
                    ) by {
                if substitute(u0.denote(i0, body), sigma) == SortTerm::Basic(reading_body(reading as int)) {
                    assert(unified);
                    assert(solved_from(cs, index + 1, u0, i0, sigma));
                    lemma_solved_transfer(*problem, index + 1, u0, i0, u3, i2, sigma);
                    lemma_sources_known_kept(*problem, index + 1, u0, i0, u3, i2);
                    assert(s4.best is Some);
                }
            }
            assert forall|sigma: spec_fn(usize) -> SortTerm, combo: Seq<int>|
                widening_free(cs, 0) && solved_from(cs, index as int, u0, i0, sigma) && #[trigger] realizes(
                    cs,
                    index as int,
                    combo,
                    u0,
                    i0,
                    sigma,
                ) && combo[0] < reading + 1 implies settles(search.best, s0.measure@ + measure_under(cs, index as int, u0, i0, sigma), s0.path@ + combo) by {
                assert(meets(cs[index as int], combo[0], u0, i0, sigma));
                let chosen = combo[0];
                assert(substitute(u0.denote(i0, body), sigma) == SortTerm::Basic(reading_body(chosen)));
                if chosen < reading {
                    assert(reading_body(chosen) == reading_body(chosen));
                    lemma_settles_kept(search.best, s1.best, s0.measure@ + measure_under(cs, index as int, u0, i0, sigma), s0.path@ + combo);
                } else {
                    assert(unified);
                    assert(solved_from(cs, index + 1, u3, i2, sigma));
                    lemma_realizes_agree(*problem, index as int, combo, u0, i0, u3, i2, sigma);
                    lemma_measure_under_agree(*problem, index + 1, u0, i0, u3, i2, sigma);
                    assert(measure_under(cs, index as int, u0, i0, sigma) == measure_under(cs, index + 1, u0, i0, sigma));
                    assert(s0.path@.push(reading as int) + combo.drop_first() =~= s0.path@ + combo);
                    assert(settles(
                        s4.best,
                        s0.measure@ + measure_under(cs, index + 1, u3, i2, sigma),
                        s0.path@.push(reading as int) + combo.drop_first(),
                    ));
                }
            }
        }
        reading = reading + 1;
    }
    proof {
        assert forall|sigma: spec_fn(usize) -> SortTerm|
            widening_free(cs, index as int) && #[trigger] solved_from(cs, index as int, u0, i0, sigma) implies ranks_by(search.best, s0.measure@ + measure_under(cs, index as int, u0, i0, sigma)) by {
            assert(holds_under(cs[index as int], u0, i0, sigma));
            assert(reading_body(0) == Sort::Bool);
            assert(reading_body(1) == Sort::Nat);
            assert(reading_body(2) == Sort::Pos);
        }
        assert forall|sigma: spec_fn(usize) -> SortTerm|
            sources_known(cs, index as int, u0, i0) && #[trigger] solved_from(cs, index as int, u0, i0, sigma) implies search.best is Some by {
            assert(holds_under(cs[index as int], u0, i0, sigma));
            assert(reading_body(0) == Sort::Bool);
            assert(reading_body(1) == Sort::Nat);
            assert(reading_body(2) == Sort::Pos);
        }
        assert forall|sigma: spec_fn(usize) -> SortTerm, combo: Seq<int>|
            widening_free(cs, 0) && solved_from(cs, index as int, u0, i0, sigma) && #[trigger] realizes(
                cs,
                index as int,
                combo,
                u0,
                i0,
                sigma,
            ) implies settles(search.best, s0.measure@ + measure_under(cs, index as int, u0, i0, sigma), s0.path@ + combo) by {
            assert(meets(cs[index as int], combo[0], u0, i0, sigma));
        }
    }
    found
}

/// The body sort of the `reading`-th reading of a comprehension: `Bool`, `Nat`, then `Pos`.
pub open spec fn reading_body(reading: int) -> Sort {
    if reading == 0 {
        Sort::Bool
    } else if reading == 1 {
        Sort::Nat
    } else {
        Sort::Pos
    }
}

/// The container of the `reading`-th reading of a comprehension: a set, then a bag twice.
pub open spec fn reading_op(reading: int) -> ComplexSort {
    if reading == 0 {
        ComplexSort::SetSort
    } else {
        ComplexSort::Bag
    }
}

/// Requires the sort of a number literal to be a number sort that admits it, the most specific
/// first: a sort already known is taken as it is, unless it is no number sort or is `Pos` for
/// the literal `0`; a free sort is tried as `Pos` (not for `0`), `Nat`, `Int` and `Real` in turn.
/// The measure component is the generality of the sort, so that a literal fixed on one branch
/// and free on another still compares alike.
#[verifier::rlimit(100)]
#[verifier::spinoff_prover]
fn solve_lit(
    search: &mut Search,
    interner: &mut SortInterner,
    unifier: &mut Unifier,
    problem: &Problem,
    index: usize,
    sort: InferSortId,
    kind: LitKind,
) -> (found: bool)
    requires
        ready(*old(search), *old(unifier), *old(interner), *problem),
        index < problem.constraints.len(),
        problem.constraints@[index as int]@ == (ConstraintView::Lit { sort, kind }),
        old(search).measure@.len() == components(views(problem.constraints@), index as int),
        branch_holds(views(problem.constraints@), index as int, *old(unifier), *old(interner), old(search).choices@),
        widening_free(views(problem.constraints@), 0) ==> old(search).measure@ == lit_measure(
            views(problem.constraints@),
            index as int,
            *old(unifier),
            *old(interner),
        ),
        widening_free(views(problem.constraints@), 0) ==> old(search).path@.len() == index && realized_now(
            views(problem.constraints@),
            old(search).path@,
            *old(unifier),
            *old(interner),
        ),
        widening_free(views(problem.constraints@), 0) && old(search).best is Some ==> !extends_path(
            old(search).best->0.path@,
            old(search).path@,
        ),
    ensures
        search_step(*old(search), *final(search), *old(unifier), *final(unifier), *old(interner), *final(interner), *problem),
        found ==> final(search).best is Some,
        widening_free(views(problem.constraints@), index as int) && found ==> leads_by(
            final(search).best,
            old(search).measure@,
        ),
        widening_free(views(problem.constraints@), 0) && final(search).best is Some ==> (old(search).best is Some
            && final(search).best->0.path@ == old(search).best->0.path@) || extends_path(
            final(search).best->0.path@,
            old(search).path@,
        ),
        forall|sigma: spec_fn(usize) -> SortTerm|
            sources_known(views(problem.constraints@), index as int, *old(unifier), *old(interner)) && #[trigger] solved_from(
                views(problem.constraints@),
                index as int,
                *old(unifier),
                *old(interner),
                sigma,
            ) ==> final(search).best is Some,
        forall|sigma: spec_fn(usize) -> SortTerm, combo: Seq<int>|
            widening_free(views(problem.constraints@), 0) && solved_from(
                views(problem.constraints@),
                index as int,
                *old(unifier),
                *old(interner),
                sigma,
            ) && #[trigger] realizes(views(problem.constraints@), index as int, combo, *old(unifier), *old(interner), sigma)
                ==> settles(
                final(search).best,
                old(search).measure@ + measure_under(
                    views(problem.constraints@),
                    index as int,
                    *old(unifier),
                    *old(interner),
                    sigma,
                ),
                old(search).path@ + combo,
            ),
        forall|sigma: spec_fn(usize) -> SortTerm|
            widening_free(views(problem.constraints@), index as int) && #[trigger] solved_from(
                views(problem.constraints@),
                index as int,
                *old(unifier),
                *old(interner),
                sigma,
            ) ==> ranks_by(
                final(search).best,
                old(search).measure@ + measure_under(
                    views(problem.constraints@),
                    index as int,
                    *old(unifier),
                    *old(interner),
                    sigma,
                ),
            ),
    decreases problem.constraints@.len() - index, 9int, 0int,
{
    let ghost s0 = *search;
    let ghost u0 = *unifier;
    let ghost i0 = *interner;
    let ghost cs = views(problem.constraints@);
    proof {
        lemma_step_reflexive(*search, *unifier, *interner, *problem);
        assert(cs[index as int] == problem.constraints@[index as int]@);
        assert(constraint_within(problem.constraints@[index as int]@, *unifier));
    }
    let head = unifier.head(sort);
    proof {
        assert(u0.denote(i0, sort) == match head {
            InferSort::Resolved(resolved) => resolved_term(i0.nodes(), resolved.index as int),
            InferSort::Generic { op, subsort } => SortTerm::Container(op, Box::new(u0.denote(i0, subsort))),
            InferSort::Function { domain, range } => SortTerm::Function(
                Seq::new(domain@.len(), |i: int| u0.denote(i0, domain@[i])),
                Box::new(u0.denote(i0, range)),
            ),
            InferSort::Var(var) => SortTerm::Variable(var.index),
        });
        assert(u0.resolved_within(i0));
        assert forall|sigma: spec_fn(usize) -> SortTerm| #[trigger] solved_from(cs, index as int, u0, i0, sigma) implies admits(
            kind,
            substitute(u0.denote(i0, sort), sigma),
        ) by {
            assert(holds_under(cs[index as int], u0, i0, sigma));
        }
    }
    match head {
        InferSort::Resolved(resolved) => {
            proof {
                interner.lemma_parts_precede();
                assert(u0.denote(i0, sort) == interner.term(resolved));
                assert forall|sigma: spec_fn(usize) -> SortTerm| #[trigger] solved_from(cs, index as int, u0, i0, sigma) implies admits(
                    kind,
                    interner.term(resolved),
                ) by {
                    lemma_substitute_stored(*interner, resolved, sigma);
                }
            }
            let number = match interner.get(resolved) {
                ResolvedSort::Primitive(number) => *number,
                _ => {
                    proof {
                        assert(!admits(kind, interner.term(resolved)));
                    }
                    return false;
                },
            };
            proof {
                assert(interner.term(resolved) == SortTerm::Basic(number));
            }
            let generality = match number_generality(number) {
                Some(generality) => generality,
                None => {
                    return false;
                },
            };
            if kind == LitKind::Natural && number == Sort::Pos {
                return false;
            }
            search.measure.push(generality as u8);
            search.path = Ghost(s0.path@.push(generality as int));
            proof {
                if widening_free(cs, 0) {
                    assert(meets_now(cs[index as int], generality as int, u0, i0));
                    assert(realized_now(cs, s0.path@.push(generality as int), u0, i0));
                    if s0.best is Some {
                        lemma_extends_push(s0.best->0.path@, s0.path@, generality as int);
                    }
                }
                interner.lemma_parts_precede();
                assert(unifier.denote(*interner, sort) == interner.term(resolved));
                assert(holds(cs[index as int], *unifier, *interner, search.choices@));
                assert forall|j: int| 0 <= j < index + 1 implies holds(
                    #[trigger] cs[j],
                    *unifier,
                    *interner,
                    search.choices@,
                ) by {}
            }
            let ghost s2 = *search;
            let found = solve(search, interner, unifier, problem, index + 1);
            proof {
                if widening_free(cs, 0) && search.best is Some {
                    lemma_extends_push(search.best->0.path@, s0.path@, generality as int);
                }
            }
            search.path = Ghost(s0.path@);
            search.measure.pop();
            proof {
                assert(search.measure@ =~= s0.measure@);
                assert(s2.measure@ == s0.measure@.push(generality as u8));
                assert forall|sigma: spec_fn(usize) -> SortTerm|
                    widening_free(cs, index as int) && #[trigger] solved_from(cs, index as int, u0, i0, sigma) implies ranks_by(search.best, s0.measure@ + measure_under(cs, index as int, u0, i0, sigma)) by {
                    assert(solved_from(cs, index + 1, u0, i0, sigma));
                    lemma_substitute_stored(i0, resolved, sigma);
                    assert(lit_component(substitute(u0.denote(i0, sort), sigma)) == generality as u8);
                    assert(s0.measure@ + measure_under(cs, index as int, u0, i0, sigma) =~= s2.measure@ + measure_under(cs, index + 1, u0, i0, sigma));
                }
                if widening_free(cs, index as int) && found {
                    lemma_leads_shorter(search.best, s0.measure@, generality as u8);
                }
                assert forall|sigma: spec_fn(usize) -> SortTerm|
                    sources_known(cs, index as int, u0, i0) && #[trigger] solved_from(cs, index as int, u0, i0, sigma) implies search.best is Some by {
                    assert(solved_from(cs, index + 1, u0, i0, sigma));
                }
                assert forall|sigma: spec_fn(usize) -> SortTerm, combo: Seq<int>|
                    widening_free(cs, 0) && solved_from(cs, index as int, u0, i0, sigma) && #[trigger] realizes(
                        cs,
                        index as int,
                        combo,
                        u0,
                        i0,
                        sigma,
                    ) implies settles(search.best, s0.measure@ + measure_under(cs, index as int, u0, i0, sigma), s0.path@ + combo) by {
                    assert(meets(cs[index as int], combo[0], u0, i0, sigma));
                    lemma_substitute_stored(i0, resolved, sigma);
                    assert(combo[0] == generality as int);
                    assert(solved_from(cs, index + 1, u0, i0, sigma));
                    lemma_realizes_agree(*problem, index as int, combo, u0, i0, u0, i0, sigma);
                    assert(s0.measure@ + measure_under(cs, index as int, u0, i0, sigma) =~= s2.measure@ + measure_under(cs, index + 1, u0, i0, sigma));
                    assert(s0.path@.push(generality as int) + combo.drop_first() =~= s0.path@ + combo);
                }
            }
            found
        },
        InferSort::Var(var) => {
            let candidates: Vec<Sort> = match kind {
                LitKind::Positive => vec![Sort::Pos, Sort::Nat, Sort::Int, Sort::Real],
                LitKind::Natural => vec![Sort::Nat, Sort::Int, Sort::Real],
            };
            proof {
                assert forall|t: SortTerm| admits(kind, t) implies exists|j: int|
                    0 <= j < candidates@.len() && t == SortTerm::Basic(#[trigger] candidates@[j]) by {
                    match t {
                        SortTerm::Basic(x) => {
                            if kind == LitKind::Positive {
                                if x == Sort::Pos { assert(t == SortTerm::Basic(candidates@[0])); }
                                else if x == Sort::Nat { assert(t == SortTerm::Basic(candidates@[1])); }
                                else if x == Sort::Int { assert(t == SortTerm::Basic(candidates@[2])); }
                                else { assert(t == SortTerm::Basic(candidates@[3])); }
                            } else {
                                if x == Sort::Nat { assert(t == SortTerm::Basic(candidates@[0])); }
                                else if x == Sort::Int { assert(t == SortTerm::Basic(candidates@[1])); }
                                else { assert(t == SortTerm::Basic(candidates@[2])); }
                            }
                        },
                        _ => {},
                    }
                }
            }
            proof {
                if kind == LitKind::Positive {
                    assert(candidates@ =~= seq![Sort::Pos, Sort::Nat, Sort::Int, Sort::Real]);
                } else {
                    assert(candidates@ =~= seq![Sort::Nat, Sort::Int, Sort::Real]);
                }
            }
            let mut c: usize = 0;
            while c < candidates.len()
                invariant
                    c <= candidates@.len(),
                    forall|i: int, j: int|
                        #![trigger candidates@[i], candidates@[j]]
                        0 <= i < j < candidates@.len() ==> spec_number_generality(candidates@[i])->0
                            < spec_number_generality(candidates@[j])->0,
                    forall|j: int| 0 <= j < candidates@.len() ==> spec_number_generality(#[trigger] candidates@[j]) is Some,
                    index < problem.constraints.len(),
                    cs == views(problem.constraints@),
                    cs[index as int] == (ConstraintView::Lit { sort, kind }),
                    search.measure@.len() == components(cs, index as int),
                    search_step(s0, *search, u0, *unifier, i0, *interner, *problem),
                    s0 == *old(search),
                    u0 == *old(unifier),
                    i0 == *old(interner),
                    ready(s0, u0, i0, *problem),
                    branch_holds(cs, index as int, u0, i0, s0.choices@),
                    widening_free(cs, 0) ==> s0.measure@ == lit_measure(cs, index as int, u0, i0),
                    forall|sigma: spec_fn(usize) -> SortTerm|
                        sources_known(cs, index as int, u0, i0) && #[trigger] solved_from(cs, index as int, u0, i0, sigma)
                            ==> search.best is Some || forall|j: int| 0 <= j < c ==> sigma(var.index) != SortTerm::Basic(#[trigger] candidates@[j]),
                    widening_free(cs, 0) ==> s0.path@.len() == index && realized_now(cs, s0.path@, u0, i0),
                    widening_free(cs, 0) && s0.best is Some ==> !extends_path(s0.best->0.path@, s0.path@),
                    widening_free(cs, 0) && search.best is Some ==> (s0.best is Some && search.best->0.path@
                        == s0.best->0.path@) || (extends_path(search.best->0.path@, s0.path@)
                        && search.best->0.path@.len() > s0.path@.len() && forall|j: int|
                        c <= j < candidates@.len() ==> search.best->0.path@[s0.path@.len() as int]
                            < spec_number_generality(#[trigger] candidates@[j])->0),
                    forall|sigma: spec_fn(usize) -> SortTerm, combo: Seq<int>|
                        widening_free(cs, 0) && solved_from(cs, index as int, u0, i0, sigma) && #[trigger] realizes(
                            cs,
                            index as int,
                            combo,
                            u0,
                            i0,
                            sigma,
                        ) ==> settles(search.best, s0.measure@ + measure_under(cs, index as int, u0, i0, sigma), s0.path@ + combo) || forall|j: int|
                            0 <= j < c ==> sigma(var.index) != SortTerm::Basic(#[trigger] candidates@[j]),
                    forall|j: int|
                        0 <= j < candidates@.len() ==> admits(kind, SortTerm::Basic(#[trigger] candidates@[j])),
                    forall|t: SortTerm| admits(kind, t) ==> exists|j: int| 0 <= j < candidates@.len() && t == SortTerm::Basic(#[trigger] candidates@[j]),
                    head == InferSort::Var(var),
                    u0.denote(i0, sort) == SortTerm::Variable(var.index),
                    unifier.bindings() == u0.bindings(),
                    forall|sigma: spec_fn(usize) -> SortTerm|
                        widening_free(cs, index as int) && #[trigger] solved_from(cs, index as int, u0, i0, sigma)
                            ==> ranks_by(search.best, s0.measure@ + measure_under(cs, index as int, u0, i0, sigma)) || forall|j: int| 0 <= j < c ==> sigma(var.index) != SortTerm::Basic(#[trigger] candidates@[j]),
                decreases candidates.len() - c,
            {
                let ghost s1 = *search;
                let ghost u1 = *unifier;
                let ghost i1 = *interner;
                proof {
                    assert(constraint_within(problem.constraints@[index as int]@, *unifier));
                }
                let candidate = candidates[c];
                let resolved = interner.primitive(candidate);
                let node = unifier.resolved_node(resolved);
                let ghost u2 = *unifier;
                proof {
                    interner.lemma_extends_reflexive();
                    lemma_grow_step(s1, u1, u2, i1, i1, *problem);
                    lemma_step_transitive(s0, s1, s1, u0, u1, u2, i0, i1, i1, *problem);
                    u2.lemma_advanced_keeps(u1);
                }
                let snapshot = unifier.snapshot();
                let unified = unifier.unify(interner, sort, node);
                proof {
                    unifier.lemma_progress_advances(u2, *interner);
                    lemma_grow_step(s1, u2, *unifier, i1, i1, *problem);
                }
                let ghost u3 = *unifier;
                proof {
                    assert forall|sigma: spec_fn(usize) -> SortTerm|
                        #[trigger] solved_from(cs, index as int, u0, i0, sigma) && sigma(var.index) == SortTerm::Basic(candidate)
                            implies unified && agree_under(u0, i0, u3, i1, sigma) by {
                        lemma_agree_same_bindings(u0, i0, u2, i1, sigma);
                        u2.lemma_advanced_keeps(u0);
                        assert(u0.contains(sort));
                        assert(u2.denote(i1, node) == SortTerm::Basic(candidate));
                        assert(crate::unification::solves(sigma, u2.denote(i1, sort), u2.denote(i1, node)));
                        lemma_agree_kept(u2, u3, i1, sigma);
                        lemma_agree_transitive(u0, i0, u2, i1, u3, i1, sigma);
                    }
                }
                let mut found = false;
                let ghost component = spec_number_generality(candidate)->0 as u8;
                if unified {
                    let generality = match number_generality(candidate) {
                        Some(generality) => generality,
                        None => 0,
                    };
                    search.measure.push(generality as u8);
                    proof {
                        assert(search.measure@ == s0.measure@.push(component));
                    }
                    proof {
                        let choices = search.choices@;
                        lemma_denote_advanced(u2, u3, i1, i1, node);
                        u3.lemma_instantiate_shapes(i1, u2.denote(i1, node));
                        assert(admits(kind, SortTerm::Basic(candidates@[c as int])));
                        assert(holds(cs[index as int], u3, i1, choices));
                        u3.lemma_advanced_transitive(u2, u0);
                        lemma_branch_kept(*problem, index as int, u0, u3, i0, i1, s0.choices@, choices);
                        assert forall|j: int| 0 <= j < index + 1 implies holds(#[trigger] cs[j], u3, i1, choices) by {}
                        assert forall|sigma: spec_fn(usize) -> SortTerm|
                            widening_free(cs, index as int) && solved_from(cs, index as int, u0, i0, sigma) && sigma(var.index)
                                == SortTerm::Basic(candidate) implies #[trigger] solved_from(cs, index + 1, u3, i1, sigma) by {
                            assert(solved_from(cs, index + 1, u0, i0, sigma));
                            i1.lemma_extends_reflexive();
                            lemma_solved_transfer(*problem, index + 1, u0, i0, u3, i1, sigma);
                        }
                        if widening_free(cs, 0) {
                            lemma_realized_kept(*problem, s0.path@, u0, i0, u3, i1);
                            assert(meets_now(cs[index as int], component as int, u3, i1));
                            assert(realized_now(cs, s0.path@.push(component as int), u3, i1));
                            if search.best is Some {
                                lemma_extends_push(search.best->0.path@, s0.path@, component as int);
                                if s0.best is Some && search.best->0.path@ == s0.best->0.path@ {
                                    lemma_extends_push(s0.best->0.path@, s0.path@, component as int);
                                }
                            }
                            lemma_lit_measure_kept(*problem, index as int, u0, i0, u3, i1, s0.choices@);
                            assert(u3.denote(i1, sort) == SortTerm::Basic(candidate));
                            assert(lit_measure(cs, index + 1, u3, i1) == lit_measure(cs, index as int, u3, i1).push(
                                component,
                            ));
                        }
                    }
                    search.path = Ghost(s1.path@.push(component as int));
                    found = solve(search, interner, unifier, problem, index + 1);
                    proof {
                        if widening_free(cs, 0) && search.best is Some {
                            lemma_extends_push(search.best->0.path@, s0.path@, component as int);
                        }
                    }
                    search.path = Ghost(s1.path@);
                    search.measure.pop();
                    proof {
                        assert(search.measure@ =~= s1.measure@);
                    }
                } else {
                    proof {
                        lemma_step_reflexive(*search, *unifier, *interner, *problem);
                    }
                }
                proof {
                    unifier.lemma_advanced_transitive(u3, u2);
                    unifier.lemma_advanced_keeps(u2);
                }
                let ghost u4 = *unifier;
                let ghost s4 = *search;
                unifier.rollback_to(snapshot);
                proof {
                    lemma_attempt(s1, *search, u2, u4, *unifier, i1, *interner, *problem, snapshot);
                    lemma_step_transitive(s0, s1, *search, u0, u2, *unifier, i0, i1, *interner, *problem);
                    assert forall|sigma: spec_fn(usize) -> SortTerm|
                        widening_free(cs, index as int) && #[trigger] solved_from(cs, index as int, u0, i0, sigma)
                            implies ranks_by(search.best, s0.measure@ + measure_under(cs, index as int, u0, i0, sigma)) || forall|j: int| 0 <= j < c + 1 ==> sigma(var.index) != SortTerm::Basic(#[trigger] candidates@[j]) by {
                        if ranks_by(s1.best, s0.measure@ + measure_under(cs, index as int, u0, i0, sigma)) {
                            lemma_ranks_kept(search.best, s1.best, s0.measure@ + measure_under(cs, index as int, u0, i0, sigma));
                        }
                        if sigma(var.index) == SortTerm::Basic(candidates@[c as int]) {
                            assert(unified);
                            assert(solved_from(cs, index + 1, u3, i1, sigma));
                            lemma_measure_under_agree(*problem, index + 1, u0, i0, u3, i1, sigma);
                            assert(substitute(SortTerm::Variable(var.index), sigma) == sigma(var.index));
                            assert(lit_component(substitute(u0.denote(i0, sort), sigma)) == component);
                            assert(s0.measure@ + measure_under(cs, index as int, u0, i0, sigma) =~= s0.measure@.push(component) + measure_under(cs, index + 1, u3, i1, sigma));
                            assert(ranks_by(s4.best, s0.measure@.push(component) + measure_under(cs, index + 1, u3, i1, sigma)));
                        }
                    }
                    assert forall|sigma: spec_fn(usize) -> SortTerm|
                        sources_known(cs, index as int, u0, i0) && #[trigger] solved_from(cs, index as int, u0, i0, sigma)
                            implies search.best is Some || forall|j: int| 0 <= j < c + 1 ==> sigma(var.index) != SortTerm::Basic(#[trigger] candidates@[j]) by {
                        if sigma(var.index) == SortTerm::Basic(candidates@[c as int]) {
                            assert(unified);
                            assert(solved_from(cs, index + 1, u0, i0, sigma));
                            i1.lemma_extends_reflexive();
                            lemma_solved_transfer(*problem, index + 1, u0, i0, u3, i1, sigma);
                            lemma_sources_known_kept(*problem, index + 1, u0, i0, u3, i1);
                            assert(s4.best is Some);
                        }
                    }
                    assert forall|sigma: spec_fn(usize) -> SortTerm, combo: Seq<int>|
                        widening_free(cs, 0) && solved_from(cs, index as int, u0, i0, sigma) && #[trigger] realizes(
                            cs,
                            index as int,
                            combo,
                            u0,
                            i0,
                            sigma,
                        ) implies settles(search.best, s0.measure@ + measure_under(cs, index as int, u0, i0, sigma), s0.path@ + combo) || forall|j: int|
                            0 <= j < c + 1 ==> sigma(var.index) != SortTerm::Basic(#[trigger] candidates@[j]) by {
                        if sigma(var.index) == SortTerm::Basic(candidates@[c as int]) {
                            assert(unified);
                            assert(solved_from(cs, index + 1, u3, i1, sigma));
                            assert(meets(cs[index as int], combo[0], u0, i0, sigma));
                            assert(substitute(SortTerm::Variable(var.index), sigma) == sigma(var.index));
                            assert(combo[0] == component as int);
                            lemma_realizes_agree(*problem, index as int, combo, u0, i0, u3, i1, sigma);
                            lemma_measure_under_agree(*problem, index + 1, u0, i0, u3, i1, sigma);
                            assert(s0.measure@ + measure_under(cs, index as int, u0, i0, sigma) =~= s0.measure@.push(component) + measure_under(cs, index + 1, u3, i1, sigma));
                            assert(s0.path@.push(component as int) + combo.drop_first() =~= s0.path@ + combo);
                            assert(settles(
                                s4.best,
                                s0.measure@.push(component) + measure_under(cs, index + 1, u3, i1, sigma),
                                s0.path@.push(component as int) + combo.drop_first(),
                            ));
                        } else if !(forall|j: int| 0 <= j < c + 1 ==> sigma(var.index) != SortTerm::Basic(#[trigger] candidates@[j])) {
                            assert(!(forall|j: int| 0 <= j < c ==> sigma(var.index) != SortTerm::Basic(#[trigger] candidates@[j])));
                            lemma_settles_kept(search.best, s1.best, s0.measure@ + measure_under(cs, index as int, u0, i0, sigma), s0.path@ + combo);
                        }
                    }
                }
                if found {
                    proof {
                        if widening_free(cs, index as int) {
                            assert(widening_free(cs, index + 1));
                            assert(leads_by(s4.best, s0.measure@.push(component)));
                            lemma_leads_shorter(search.best, s0.measure@, component);
                        }
                        assert forall|sigma: spec_fn(usize) -> SortTerm|
                            widening_free(cs, index as int) && #[trigger] solved_from(cs, index as int, u0, i0, sigma)
                                implies ranks_by(search.best, s0.measure@ + measure_under(cs, index as int, u0, i0, sigma)) by {
                            if !ranks_by(search.best, s0.measure@ + measure_under(cs, index as int, u0, i0, sigma)) {
                                assert(admits(kind, substitute(u0.denote(i0, sort), sigma)));
                                assert(substitute(SortTerm::Variable(var.index), sigma) == sigma(var.index));
                                let j = choose|j: int| 0 <= j < candidates@.len() && sigma(var.index) == SortTerm::Basic(#[trigger] candidates@[j]);
                                assert(j > c);
                                let larger = spec_number_generality(candidates@[j])->0 as u8;
                                assert(spec_number_generality(candidates@[c as int])->0 < spec_number_generality(candidates@[j])->0);
                                assert(lit_component(substitute(u0.denote(i0, sort), sigma)) == larger);
                                let rest = measure_under(cs, index + 1, u0, i0, sigma);
                                assert(s0.measure@ + measure_under(cs, index as int, u0, i0, sigma) =~= s0.measure@.push(larger) + rest);
                                lemma_leads_to_ranks(search.best, s0.measure@, component, larger, rest);
                            }
                        }
                        assert forall|sigma: spec_fn(usize) -> SortTerm, combo: Seq<int>|
                            widening_free(cs, 0) && solved_from(cs, index as int, u0, i0, sigma) && #[trigger] realizes(
                                cs,
                                index as int,
                                combo,
                                u0,
                                i0,
                                sigma,
                            ) implies settles(search.best, s0.measure@ + measure_under(cs, index as int, u0, i0, sigma), s0.path@ + combo) by {
                            if !settles(search.best, s0.measure@ + measure_under(cs, index as int, u0, i0, sigma), s0.path@ + combo) {
                                assert(admits(kind, substitute(u0.denote(i0, sort), sigma)));
                                assert(substitute(SortTerm::Variable(var.index), sigma) == sigma(var.index));
                                let j = choose|j: int| 0 <= j < candidates@.len() && sigma(var.index) == SortTerm::Basic(#[trigger] candidates@[j]);
                                assert(j > c);
                                let larger = spec_number_generality(candidates@[j])->0 as u8;
                                assert(spec_number_generality(candidates@[c as int])->0 < spec_number_generality(candidates@[j])->0);
                                assert(lit_component(substitute(u0.denote(i0, sort), sigma)) == larger);
                                let rest = measure_under(cs, index + 1, u0, i0, sigma);
                                assert(s0.measure@ + measure_under(cs, index as int, u0, i0, sigma) =~= s0.measure@.push(larger) + rest);
                                lemma_leads_to_ranks(search.best, s0.measure@, component, larger, rest);
                            }
                        }
                    }
                    return true;
                }
                c = c + 1;
            }
            proof {
                assert forall|sigma: spec_fn(usize) -> SortTerm|
                    widening_free(cs, index as int) && #[trigger] solved_from(cs, index as int, u0, i0, sigma) implies ranks_by(search.best, s0.measure@ + measure_under(cs, index as int, u0, i0, sigma)) by {
                    assert(admits(kind, substitute(u0.denote(i0, sort), sigma)));
                    assert(substitute(SortTerm::Variable(var.index), sigma) == sigma(var.index));
                    let j = choose|j: int| 0 <= j < candidates@.len() && sigma(var.index) == SortTerm::Basic(#[trigger] candidates@[j]);
                }
                assert forall|sigma: spec_fn(usize) -> SortTerm|
                    sources_known(cs, index as int, u0, i0) && #[trigger] solved_from(cs, index as int, u0, i0, sigma) implies search.best is Some by {
                    assert(admits(kind, substitute(u0.denote(i0, sort), sigma)));
                    assert(substitute(SortTerm::Variable(var.index), sigma) == sigma(var.index));
                    let j = choose|j: int| 0 <= j < candidates@.len() && sigma(var.index) == SortTerm::Basic(#[trigger] candidates@[j]);
                }
                assert forall|sigma: spec_fn(usize) -> SortTerm, combo: Seq<int>|
                    widening_free(cs, 0) && solved_from(cs, index as int, u0, i0, sigma) && #[trigger] realizes(
                        cs,
                        index as int,
                        combo,
                        u0,
                        i0,
                        sigma,
                    ) implies settles(search.best, s0.measure@ + measure_under(cs, index as int, u0, i0, sigma), s0.path@ + combo) by {
                    assert(admits(kind, substitute(u0.denote(i0, sort), sigma)));
                    assert(substitute(SortTerm::Variable(var.index), sigma) == sigma(var.index));
                    let j = choose|j: int| 0 <= j < candidates@.len() && sigma(var.index) == SortTerm::Basic(#[trigger] candidates@[j]);
                }
            }
            false
        },
        _ => false,
    }
}

/// A solution of the constraints from `index` on, whose widened sorts stand for stored ones, stays
/// one of a state that agrees with the first under it.
proof fn lemma_owed_kept(
    problem: Problem,
    index: int,
    ua: Unifier,
    ia: SortInterner,
    ub: Unifier,
    ib: SortInterner,
    sigma: spec_fn(usize) -> SortTerm,
)
    requires
        0 <= index,
        ua.well_formed(),
        ub.well_formed(),
        ia.well_formed(),
        ib.well_formed(),
        ua.resolved_within(ia),
        ub.advanced_from(ua),
        ib.extends(ia),
        problem_within(problem, ua, ia),
        agree_under(ua, ia, ub, ib, sigma),
        sources_known(views(problem.constraints@), index, ua, ia),
        solved_from(views(problem.constraints@), index, ua, ia, sigma),
    ensures
        sources_known(views(problem.constraints@), index, ub, ib),
        solved_from(views(problem.constraints@), index, ub, ib, sigma),
{
    lemma_sources_known_kept(problem, index, ua, ia, ub, ib);
    lemma_solved_transfer(problem, index, ua, ia, ub, ib, sigma);
}

/// Where the constraints from the one that `cont` goes on from are solved and their widened
/// sorts stand for stored ones, the sort that `cont` widens is stored, and widens to what its
/// target stands for under the solution.
proof fn lemma_widening_owed(
    problem: Problem,
    cont: Continuation,
    lhs: InferSortId,
    rhs: InferSortId,
    u0: Unifier,
    i0: SortInterner,
    choices: Seq<(ExprId, NameTarget)>,
    sigma: spec_fn(usize) -> SortTerm,
)
    requires
        cont_valid(cont, views(problem.constraints@)),
        widening_ready(cont, views(problem.constraints@), lhs, rhs, u0, i0, choices),
        i0.well_formed(),
        sources_known(views(problem.constraints@), cont_index(cont), u0, i0),
        solved_from(views(problem.constraints@), cont_index(cont), u0, i0, sigma),
    ensures
        stands_stored(u0, i0, lhs),
        is_ground(u0.denote(i0, lhs)),
        widens_to(u0.denote(i0, lhs), substitute(u0.denote(i0, rhs), sigma)),
{
    let cs = views(problem.constraints@);
    match cont {
        Continuation::Next(index) => {
            let c = cs[index as int];
            assert(c->lhs == lhs);
            assert(stands_stored(u0, i0, c->lhs));
            assert(holds_under(c, u0, i0, sigma));
            let id = choose|id: ResolvedSortId| i0.contains(id) && u0.denote(i0, lhs) == #[trigger] i0.term(id);
            lemma_stored_ground(i0, id);
            lemma_substitute_ground(u0.denote(i0, lhs), sigma);
        },
        Continuation::JoinSource(index, i) => {
            let c = cs[index as int];
            assert(c->sources[i as int] == lhs);
            assert(stands_stored(u0, i0, c->sources[i as int]));
            assert(holds_under(c, u0, i0, sigma));
            let id = choose|id: ResolvedSortId| i0.contains(id) && u0.denote(i0, lhs) == #[trigger] i0.term(id);
            lemma_stored_ground(i0, id);
            lemma_substitute_ground(u0.denote(i0, lhs), sigma);
            assert(widens_to(
                substitute(u0.denote(i0, c->sources[i as int]), sigma),
                substitute(u0.denote(i0, c->Join_target), sigma),
            ));
        },
    }
}

/// A supersort `a` of the source that stands for `wide` in `u4`, tried against the target in a
/// state that binds what `u0` bound: the two meet under the solution.
proof fn lemma_supersort_meets(
    a: InferSortId,
    rhs: InferSortId,
    u0: Unifier,
    i0: SortInterner,
    u4: Unifier,
    i4: SortInterner,
    u5: Unifier,
    i2: SortInterner,
    sigma: spec_fn(usize) -> SortTerm,
    wide: SortTerm,
)
    requires
        u0.well_formed(),
        u4.well_formed(),
        u5.well_formed(),
        i0.well_formed(),
        i4.well_formed(),
        i2.well_formed(),
        u0.resolved_within(i0),
        u4.resolved_within(i4),
        u4.advanced_from(u0),
        u5.advanced_from(u4),
        i4.extends(i0),
        i2.extends(i4),
        u4.bindings() == u0.bindings(),
        u5.bindings() == u4.bindings(),
        u4.contains(a),
        u0.contains(rhs),
        u4.denote(i4, a) == wide,
        is_ground(wide),
        wide == substitute(u0.denote(i0, rhs), sigma),
    ensures
        crate::unification::solves(sigma, u5.denote(i2, a), u5.denote(i2, rhs)),
        agree_under(u0, i0, u5, i2, sigma),
{
    u5.lemma_same_bindings_denote(u4, i2, a);
    u4.lemma_denote_interner_grows(i4, i2, a);
    lemma_substitute_ground(wide, sigma);
    u5.lemma_advanced_transitive(u4, u0);
    i2.lemma_extends_transitive(i4, i0);
    lemma_agree_same_bindings(u0, i0, u5, i2, sigma);
    assert(substitute(u5.denote(i2, rhs), sigma) == substitute(u0.denote(i0, rhs), sigma));
}

/// Makes `lhs` a subsort of `rhs`, then goes on along `cont`: equality first, then each strict
/// widening nearest first, so that the smallest upcast wins. A known `lhs` is widened, or else a
/// known `rhs` is narrowed; between two free sorts nothing can be listed, and the attempt fails.
/// The first attempt that leads to a solution is the best that this widening can contribute, so
/// the later ones are not tried. The measure component is `0` for equality and `k + 1` for the
/// `k`-th widening.
fn solve_widening(
    search: &mut Search,
    interner: &mut SortInterner,
    unifier: &mut Unifier,
    problem: &Problem,
    lhs: InferSortId,
    rhs: InferSortId,
    cont: Continuation,
) -> (found: bool)
    requires
        !widening_free(views(problem.constraints@), 0),
        ready(*old(search), *old(unifier), *old(interner), *problem),
        old(unifier).contains(lhs),
        old(unifier).contains(rhs),
        resumable(cont, views(problem.constraints@), old(search).measure@.len() + 1int),
        cont_index(cont) < problem.constraints.len(),
        widening_ready(cont, views(problem.constraints@), lhs, rhs, *old(unifier), *old(interner), old(search).choices@),
    ensures
        search_step(*old(search), *final(search), *old(unifier), *final(unifier), *old(interner), *final(interner), *problem),
        found ==> final(search).best is Some,
        forall|sigma: spec_fn(usize) -> SortTerm|
            sources_known(views(problem.constraints@), cont_index(cont), *old(unifier), *old(interner)) && #[trigger] solved_from(
                views(problem.constraints@),
                cont_index(cont),
                *old(unifier),
                *old(interner),
                sigma,
            ) ==> final(search).best is Some,
    decreases problem.constraints@.len() - cont_index(cont), widening_stage(cont), widening_rank(
        cont,
        views(problem.constraints@),
    ),
{
    let ghost s0 = *search;
    let ghost u0 = *unifier;
    let ghost i0 = *interner;
    let ghost cs0 = views(problem.constraints@);
    let ghost owed = exists|sigma: spec_fn(usize) -> SortTerm|
        sources_known(cs0, cont_index(cont), u0, i0) && #[trigger] solved_from(cs0, cont_index(cont), u0, i0, sigma);
    let ghost sigma = choose|sigma: spec_fn(usize) -> SortTerm|
        sources_known(cs0, cont_index(cont), u0, i0) && #[trigger] solved_from(cs0, cont_index(cont), u0, i0, sigma);
    let ghost low = u0.denote(i0, lhs);
    let ghost wide = substitute(u0.denote(i0, rhs), sigma);
    proof {
        lemma_step_reflexive(*search, *unifier, *interner, *problem);
        if owed {
            assert(sources_known(cs0, cont_index(cont), u0, i0) && solved_from(cs0, cont_index(cont), u0, i0, sigma));
            lemma_widening_owed(*problem, cont, lhs, rhs, u0, i0, s0.choices@, sigma);
            lemma_substitute_ground(low, sigma);
        }
    }
    let snapshot = unifier.snapshot();
    let unified = unifier.unify(interner, lhs, rhs);
    proof {
        unifier.lemma_progress_advances(u0, *interner);
        interner.lemma_extends_reflexive();
        lemma_grow_step(s0, u0, *unifier, i0, i0, *problem);
    }
    let ghost u1 = *unifier;
    let mut found = false;
    proof {
        if owed && low == wide {
            assert(crate::unification::solves(sigma, u0.denote(i0, lhs), u0.denote(i0, rhs)));
        }
    }
    if unified {
        search.measure.push(0);
        proof {
            lemma_widening_done(cont, *problem, lhs, rhs, u0, u1, i0, i0, s0.choices@);
            if owed && low == wide {
                lemma_agree_kept(u0, u1, i0, sigma);
                lemma_owed_kept(*problem, cont_index(cont), u0, i0, u1, i0, sigma);
            }
        }
        found = resume(search, interner, unifier, problem, cont);
        proof {
            if owed && low == wide {
                assert(solved_from(cs0, cont_index(cont), u1, i0, sigma));
            }
        }
        search.measure.pop();
        proof {
            assert(search.measure@ =~= s0.measure@);
        }
    } else {
        proof {
            lemma_step_reflexive(*search, *unifier, *interner, *problem);
        }
    }
    proof {
        unifier.lemma_advanced_transitive(u1, u0);
        unifier.lemma_advanced_keeps(u0);
    }
    let ghost u2 = *unifier;
    unifier.rollback_to(snapshot);
    proof {
        lemma_attempt(s0, *search, u0, u2, *unifier, i0, *interner, *problem, snapshot);
    }
    if found {
        return true;
    }
    let ghost s1 = *search;
    let ghost u3 = *unifier;
    let ghost i1 = *interner;
    let ghost cs = views(problem.constraints@);
    proof {
        unifier.lemma_advanced_keeps(u0);
    }
    let mut widen = true;
    let related = match unifier.strict_super_sorts(interner, lhs) {
        Some(wider) => {
            proof {
                let a = u3.denote(i1, lhs);
                lemma_few_related_sorts(a, crate::sorts::Direction::Super);
                unifier.lemma_grown_same_bindings(u3);
                if owed {
                    lemma_stands_stored_kept(u0, i0, u3, i1, lhs);
                }
                let terms = Seq::new(wider@.len(), |j: int| unifier.denote(*interner, wider@[j]));
                assert(wider@.len() == terms.len());
                unifier.lemma_grows(u3, *interner, lhs);
                u3.lemma_denote_interner_grows(i1, *interner, lhs);
                assert forall|d: int| 0 <= d < wider@.len() implies widens_to(
                    unifier.denote(*interner, lhs),
                    unifier.denote(*interner, #[trigger] wider@[d]),
                ) by {
                    assert(terms[d] == unifier.denote(*interner, wider@[d]));
                    assert(related_terms(a, crate::sorts::Direction::Super)[d] == terms[d]);
                }
            }
            wider
        },
        None => {
            let ghost ua = *unifier;
            let ghost ia = *interner;
            proof {
                ua.lemma_advanced_keeps(u3);
                if owed {
                    lemma_stands_stored_kept(u0, i0, u3, i1, lhs);
                }
            }
            widen = false;
            match unifier.strict_sub_sorts(interner, rhs) {
                Some(narrower) => {
                    proof {
                        unifier.lemma_advanced_transitive(ua, u3);
                        interner.lemma_extends_transitive(ia, i1);
                        let b = ua.denote(ia, rhs);
                        lemma_few_related_sorts(b, crate::sorts::Direction::Sub);
                        let terms = Seq::new(narrower@.len(), |j: int| unifier.denote(*interner, narrower@[j]));
                        assert(narrower@.len() == terms.len());
                        unifier.lemma_grows(ua, *interner, rhs);
                        ua.lemma_denote_interner_grows(ia, *interner, rhs);
                        assert forall|d: int| 0 <= d < narrower@.len() implies widens_to(
                            unifier.denote(*interner, #[trigger] narrower@[d]),
                            unifier.denote(*interner, rhs),
                        ) by {
                            assert(terms[d] == unifier.denote(*interner, narrower@[d]));
                            assert(related_terms(b, crate::sorts::Direction::Sub)[d] == terms[d]);
                            lemma_related_converse(b, terms[d]);
                        }
                    }
                    narrower
                },
                None => {
                    proof {
                        unifier.lemma_advanced_transitive(ua, u3);
                        interner.lemma_extends_transitive(ia, i1);
                        lemma_grow_step(s1, u3, *unifier, i1, *interner, *problem);
                        lemma_step_transitive(s0, s1, s1, u0, u3, *unifier, i0, i1, *interner, *problem);
                        if owed {
                            lemma_stands_stored_kept(u0, i0, u3, i1, lhs);
                        }
                        assert forall|sig: spec_fn(usize) -> SortTerm|
                            sources_known(cs0, cont_index(cont), u0, i0) && #[trigger] solved_from(cs0, cont_index(cont), u0, i0, sig)
                                implies search.best is Some by {
                            assert(owed);
                        }
                    }
                    return false;
                },
            }
        },
    };
    proof {
        lemma_grow_step(s1, u3, *unifier, i1, *interner, *problem);
        lemma_step_transitive(s0, s1, s1, u0, u3, *unifier, i0, i1, *interner, *problem);
        unifier.lemma_advanced_keeps(u3);
    }
    let ghost u4 = *unifier;
    let ghost i4 = *interner;
    let ghost dstar = choose|d: int|
        0 <= d < related_terms(low, crate::sorts::Direction::Super).len() && related_terms(
            low,
            crate::sorts::Direction::Super,
        )[d] == wide;
    proof {
        if owed && low != wide {
            assert(widen);
            assert(related_terms(low, crate::sorts::Direction::Super).contains(wide));
            lemma_related_ground(low, crate::sorts::Direction::Super);
            let terms = Seq::new(related@.len(), |j: int| u4.denote(i4, related@[j]));
            assert(terms[dstar] == wide);
        }
        u4.lemma_advanced_reflexive();
        i4.lemma_extends_reflexive();
        u4.lemma_advanced_transitive(u3, u0);
        assert forall|d: int| 0 <= d < related@.len() implies widens_to(
            u4.denote(i4, lhs),
            u4.denote(
                i4,
                if widen {
                    related@[d]
                } else {
                    lhs
                },
            ),
        ) && widens_to(
            u4.denote(
                i4,
                if widen {
                    rhs
                } else {
                    related@[d]
                },
            ),
            u4.denote(i4, rhs),
        ) by {}
    }
    let mut distance: usize = 0;
    while distance < related.len()
        invariant
            related@.len() <= 3,
            distance <= related@.len(),
            cs == views(problem.constraints@),
            cs0 == cs,
            unifier.bindings() == u4.bindings(),
            owed ==> sources_known(cs, cont_index(cont), u0, i0) && solved_from(cs, cont_index(cont), u0, i0, sigma),
            owed && low == wide ==> search.best is Some,
            owed && low != wide ==> widen && 0 <= dstar < related@.len() && u4.denote(i4, related@[dstar]) == wide
                && u4.bindings() == u0.bindings() && is_ground(wide) && wide == substitute(u0.denote(i0, rhs), sigma),
            owed && low != wide && distance > dstar ==> search.best is Some,
            u0.resolved_within(i0),
            resumable(cont, cs, search.measure@.len() + 1int),
            cont_index(cont) < problem.constraints.len(),
            search.measure@ == s0.measure@,
            search_step(s0, *search, u0, *unifier, i0, *interner, *problem),
            s0 == *old(search),
            u0 == *old(unifier),
            i0 == *old(interner),
            unifier.advanced_from(u4),
            u4.contains(lhs),
            u4.contains(rhs),
            forall|j: int| 0 <= j < related@.len() ==> u4.contains(#[trigger] related@[j]),
            ready(s0, u0, i0, *problem),
            widening_ready(cont, cs, lhs, rhs, u0, i0, s0.choices@),
            u4.well_formed(),
            i4.well_formed(),
            u4.resolved_within(i4),
            u4.advanced_from(u0),
            i4.extends(i0),
            interner.extends(i4),
            forall|d: int|
                0 <= d < related@.len() ==> widens_to(
                    u4.denote(i4, lhs),
                    u4.denote(
                        i4,
                        if widen {
                            related@[d]
                        } else {
                            lhs
                        },
                    ),
                ) && widens_to(
                    u4.denote(
                        i4,
                        if widen {
                            rhs
                        } else {
                            related@[d]
                        },
                    ),
                    u4.denote(i4, rhs),
                ),
        decreases related.len() - distance,
    {
        let ghost s2 = *search;
        let ghost u5 = *unifier;
        let ghost i2 = *interner;
        proof {
            unifier.lemma_advanced_keeps(u4);
            assert(u4.contains(related@[distance as int]));
        }
        let (a, b) = if widen {
            (related[distance], rhs)
        } else {
            (lhs, related[distance])
        };
        let ghost hit = owed && low != wide && distance == dstar;
        proof {
            if hit {
                lemma_supersort_meets(a, rhs, u0, i0, u4, i4, u5, i2, sigma, wide);
            }
        }
        let snapshot = unifier.snapshot();
        let unified = unifier.unify(interner, a, b);
        proof {
            unifier.lemma_progress_advances(u5, *interner);
            interner.lemma_extends_reflexive();
            lemma_grow_step(s2, u5, *unifier, i2, i2, *problem);
        }
        let ghost u6 = *unifier;
        let mut found = false;
        if unified {
            search.measure.push((distance + 1) as u8);
            proof {
                let d = distance as int;
                u6.lemma_advanced_transitive(u5, u4);
                lemma_denote_advanced(u4, u6, i4, i2, lhs);
                lemma_denote_advanced(u4, u6, i4, i2, rhs);
                lemma_denote_advanced(u4, u6, i4, i2, a);
                lemma_denote_advanced(u4, u6, i4, i2, b);
                lemma_widens_instantiated(u4.denote(i4, lhs), u4.denote(i4, a), u6, i2);
                lemma_widens_instantiated(u4.denote(i4, b), u4.denote(i4, rhs), u6, i2);
                lemma_widens_transitive(u6.denote(i2, lhs), u6.denote(i2, a), u6.denote(i2, rhs));
                u6.lemma_advanced_transitive(u4, u0);
                i2.lemma_extends_transitive(i4, i0);
                lemma_widening_done(cont, *problem, lhs, rhs, u0, u6, i0, i2, s0.choices@);
                if hit {
                    lemma_agree_kept(u5, u6, i2, sigma);
                    u5.lemma_advanced_transitive(u4, u0);
                    u5.lemma_advanced_keeps(u0);
                    lemma_agree_transitive(u0, i0, u5, i2, u6, i2, sigma);
                    lemma_owed_kept(*problem, cont_index(cont), u0, i0, u6, i2, sigma);
                }
            }
            found = resume(search, interner, unifier, problem, cont);
            proof {
                if hit {
                    assert(solved_from(cs, cont_index(cont), u6, i2, sigma));
                }
            }
            search.measure.pop();
            proof {
                assert(search.measure@ =~= s2.measure@);
            }
        } else {
            proof {
                lemma_step_reflexive(*search, *unifier, *interner, *problem);
            }
        }
        proof {
            unifier.lemma_advanced_transitive(u6, u5);
            unifier.lemma_advanced_keeps(u5);
        }
        let ghost u7 = *unifier;
        unifier.rollback_to(snapshot);
        proof {
            lemma_attempt(s2, *search, u5, u7, *unifier, i2, *interner, *problem, snapshot);
            lemma_step_transitive(s0, s2, *search, u0, u5, *unifier, i0, i2, *interner, *problem);
            unifier.lemma_advanced_transitive(u5, u4);
            interner.lemma_extends_transitive(i2, i4);
        }
        if found {
            return true;
        }
        distance = distance + 1;
    }
    proof {
        assert forall|sig: spec_fn(usize) -> SortTerm|
            sources_known(cs0, cont_index(cont), u0, i0) && #[trigger] solved_from(cs0, cont_index(cont), u0, i0, sig)
                implies search.best is Some by {
            assert(owed);
        }
    }
    false
}

/// Goes on along `cont`, a widening's component being on the measure.
fn resume(
    search: &mut Search,
    interner: &mut SortInterner,
    unifier: &mut Unifier,
    problem: &Problem,
    cont: Continuation,
) -> (found: bool)
    requires
        !widening_free(views(problem.constraints@), 0),
        ready(*old(search), *old(unifier), *old(interner), *problem),
        resumable(cont, views(problem.constraints@), old(search).measure@.len() as int),
        cont_index(cont) < problem.constraints.len(),
        resume_ready(cont, views(problem.constraints@), *old(unifier), *old(interner), old(search).choices@),
    ensures
        search_step(*old(search), *final(search), *old(unifier), *final(unifier), *old(interner), *final(interner), *problem),
        found ==> final(search).best is Some,
        forall|sigma: spec_fn(usize) -> SortTerm|
            sources_known(views(problem.constraints@), cont_index(cont), *old(unifier), *old(interner)) && #[trigger] solved_from(
                views(problem.constraints@),
                cont_index(cont),
                *old(unifier),
                *old(interner),
                sigma,
            ) ==> final(search).best is Some,
    decreases problem.constraints@.len() - cont_index(cont), resume_stage(cont), resume_rank(
        cont,
        views(problem.constraints@),
    ),
{
    proof {
        let index = cont_index(cont);
        assert(views(problem.constraints@)[index] == problem.constraints@[index]@);
        assert(constraint_fits(problem.constraints@[index]@, problem.expr_sorts@.len(), *interner));
    }
    let ghost cs = views(problem.constraints@);
    match cont {
        Continuation::Next(index) => {
            let ghost u0 = *unifier;
            let ghost i0 = *interner;
            let found = solve(search, interner, unifier, problem, index + 1);
            proof {
                assert forall|sigma: spec_fn(usize) -> SortTerm|
                    sources_known(cs, index as int, u0, i0) && #[trigger] solved_from(cs, index as int, u0, i0, sigma)
                        implies search.best is Some by {
                    assert(solved_from(cs, index + 1, u0, i0, sigma));
                    assert(sources_known(cs, index + 1, u0, i0));
                }
            }
            found
        },
        Continuation::JoinSource(index, i) => solve_join_seq(search, interner, unifier, problem, index, i + 1),
    }
}

/// Widens each source of the join at `index`, from the `i`-th on, into its target in turn, the
/// way a widening constraint per source would; then goes on with the next constraint.
fn solve_join_seq(
    search: &mut Search,
    interner: &mut SortInterner,
    unifier: &mut Unifier,
    problem: &Problem,
    index: usize,
    i: usize,
) -> (found: bool)
    requires
        !widening_free(views(problem.constraints@), 0),
        ready(*old(search), *old(unifier), *old(interner), *problem),
        index < problem.constraints.len(),
        views(problem.constraints@)[index as int] is Join,
        i <= join_sources(views(problem.constraints@)[index as int]).len(),
        old(search).measure@.len() == components(views(problem.constraints@), index as int) + i,
        branch_holds(views(problem.constraints@), index as int, *old(unifier), *old(interner), old(search).choices@),
        joined_up_to(
            join_sources(views(problem.constraints@)[index as int]),
            join_target(views(problem.constraints@)[index as int]),
            *old(unifier),
            *old(interner),
            i as int,
        ),
    ensures
        search_step(*old(search), *final(search), *old(unifier), *final(unifier), *old(interner), *final(interner), *problem),
        found ==> final(search).best is Some,
        forall|sigma: spec_fn(usize) -> SortTerm|
            sources_known(views(problem.constraints@), index as int, *old(unifier), *old(interner)) && #[trigger] solved_from(
                views(problem.constraints@),
                index as int,
                *old(unifier),
                *old(interner),
                sigma,
            ) ==> final(search).best is Some,
    decreases problem.constraints@.len() - index, 4int, 3 * (join_sources(views(problem.constraints@)[index as int]).len()
        - i) + 2,
{
    let ghost cs = views(problem.constraints@);
    proof {
        assert(cs[index as int] == problem.constraints@[index as int]@);
        assert(constraint_within(problem.constraints@[index as int]@, *unifier));
    }
    match &problem.constraints[index] {
        Constraint::Join(join) => {
            if i == join.sources.len() {
                let ghost u0 = *unifier;
                let ghost i0 = *interner;
                let found = solve(search, interner, unifier, problem, index + 1);
                proof {
                    assert forall|sigma: spec_fn(usize) -> SortTerm|
                        sources_known(cs, index as int, u0, i0) && #[trigger] solved_from(cs, index as int, u0, i0, sigma)
                            implies search.best is Some by {
                        assert(solved_from(cs, index + 1, u0, i0, sigma));
                        assert(sources_known(cs, index + 1, u0, i0));
                    }
                }
                found
            } else {
                solve_widening(
                    search,
                    interner,
                    unifier,
                    problem,
                    join.sources[i],
                    join.target,
                    Continuation::JoinSource(index, i),
                )
            }
        },
        _ => {
            proof {
                assert(false);
            }
            false
        },
    }
}

/// Binds the target of the join at `index` to the least upper bound of its sources and goes on
/// with the next constraint: the sources' least upper bound is tried first; where a source is
/// not known yet, where two sources have no common supersort by widening their heads, or where
/// nothing below leads to a solution, the sources are widened one by one instead
/// ([`solve_join_seq`]). The least upper bound contributes, per source, the number of steps that
/// widen it, as a widening constraint per source would.
fn solve_join(
    search: &mut Search,
    interner: &mut SortInterner,
    unifier: &mut Unifier,
    problem: &Problem,
    index: usize,
    join: &Join,
) -> (found: bool)
    requires
        !widening_free(views(problem.constraints@), 0),
        ready(*old(search), *old(unifier), *old(interner), *problem),
        index < problem.constraints.len(),
        problem.constraints@[index as int]@ == (ConstraintView::Join { sources: join.sources@, target: join.target }),
        old(search).measure@.len() == components(views(problem.constraints@), index as int),
        branch_holds(views(problem.constraints@), index as int, *old(unifier), *old(interner), old(search).choices@),
        widening_free(views(problem.constraints@), 0) ==> old(search).measure@ == lit_measure(
            views(problem.constraints@),
            index as int,
            *old(unifier),
            *old(interner),
        ),
        widening_free(views(problem.constraints@), 0) ==> old(search).path@.len() == index && realized_now(
            views(problem.constraints@),
            old(search).path@,
            *old(unifier),
            *old(interner),
        ),
        widening_free(views(problem.constraints@), 0) && old(search).best is Some ==> !extends_path(
            old(search).best->0.path@,
            old(search).path@,
        ),
    ensures
        search_step(*old(search), *final(search), *old(unifier), *final(unifier), *old(interner), *final(interner), *problem),
        found ==> final(search).best is Some,
        forall|sigma: spec_fn(usize) -> SortTerm|
            sources_known(views(problem.constraints@), index as int, *old(unifier), *old(interner)) && #[trigger] solved_from(
                views(problem.constraints@),
                index as int,
                *old(unifier),
                *old(interner),
                sigma,
            ) ==> final(search).best is Some,
    decreases problem.constraints@.len() - index, 9int, 0int,
{
    let ghost s0 = *search;
    let ghost u0 = *unifier;
    let ghost i0 = *interner;
    let ghost cs = views(problem.constraints@);
    proof {
        lemma_step_reflexive(*search, *unifier, *interner, *problem);
        assert(cs[index as int] == problem.constraints@[index as int]@);
        assert(constraint_within(problem.constraints@[index as int]@, *unifier));
        assert(constraint_fits(problem.constraints@[index as int]@, problem.expr_sorts@.len(), *interner));
    }
    let mut resolved: Vec<ResolvedSortId> = Vec::new();
    let mut k: usize = 0;
    while k < join.sources.len()
        invariant
            k <= join.sources@.len(),
            cs == views(problem.constraints@),
            index < cs.len(),
            cs[index as int] == (ConstraintView::Join { sources: join.sources@, target: join.target }),
            *search == s0,
            *unifier == u0,
            search_step(s0, s0, u0, u0, i0, *interner, *problem),
            s0 == *old(search),
            u0 == *old(unifier),
            i0 == *old(interner),
            s0.measure@.len() == components(cs, index as int),
            ready(s0, u0, i0, *problem),
            branch_holds(cs, index as int, u0, i0, s0.choices@),
            widening_free(cs, 0) ==> s0.measure@ == lit_measure(cs, index as int, u0, i0),
            resolved@.len() == k,
            forall|m: int| 0 <= m < k ==> interner.contains(#[trigger] resolved@[m]),
            forall|m: int|
                0 <= m < k ==> interner.term(#[trigger] resolved@[m]) == u0.denote(*interner, join.sources@[m]),
        decreases join.sources.len() - k,
    {
        let ghost i1 = *interner;
        proof {
            assert(constraint_within(cs[index as int], *unifier));
            assert(unifier.contains(join.sources@[k as int]));
        }
        match unifier.resolve(interner, join.sources[k]) {
            Some(sort) => {
                resolved.push(sort);
            },
            None => {
                proof {
                    lemma_grow_step(s0, u0, u0, i1, *interner, *problem);
                    lemma_step_transitive(s0, s0, s0, u0, u0, u0, i0, i1, *interner, *problem);
                    u0.lemma_advanced_reflexive();
                    lemma_branch_kept(*problem, index as int, u0, u0, i0, *interner, s0.choices@, s0.choices@);
                }
                let ghost i2 = *interner;
                let found = solve_join_seq(search, interner, unifier, problem, index, 0);
                proof {
                    lemma_step_transitive(s0, s0, *search, u0, u0, *unifier, i0, i2, *interner, *problem);
                    assert forall|sig: spec_fn(usize) -> SortTerm|
                        sources_known(cs, index as int, u0, i0) && #[trigger] solved_from(cs, index as int, u0, i0, sig)
                            implies search.best is Some by {
                        u0.lemma_advanced_reflexive();
                        lemma_agree_same_bindings(u0, i0, u0, i2, sig);
                        lemma_owed_kept(*problem, index as int, u0, i0, u0, i2, sig);
                    }
                }
                return found;
            },
        }
        proof {
            lemma_grow_step(s0, u0, u0, i1, *interner, *problem);
            lemma_step_transitive(s0, s0, s0, u0, u0, u0, i0, i1, *interner, *problem);
            assert forall|m: int| 0 <= m < k + 1 implies interner.contains(#[trigger] resolved@[m]) by {
                if m < k {
                    assert(i1.contains(resolved@[m]));
                }
            }
            assert forall|m: int| 0 <= m < k + 1 implies interner.term(#[trigger] resolved@[m]) == u0.denote(
                *interner,
                join.sources@[m],
            ) by {
                u0.lemma_denote_interner_grows(i1, *interner, join.sources@[m]);
                if m < k {
                    interner.lemma_extends(i1, resolved@[m]);
                }
            }
        }
        k = k + 1;
    }
    let mut lub = resolved[0];
    let mut k: usize = 1;
    while k < resolved.len()
        invariant
            1 <= k <= resolved@.len(),
            resolved@.len() == join.sources@.len(),
            interner.well_formed(),
            interner.contains(lub),
            forall|m: int| 0 <= m < resolved@.len() ==> interner.contains(#[trigger] resolved@[m]),
            forall|m: int| 0 <= m < k ==> widens_to(interner.term(#[trigger] resolved@[m]), interner.term(lub)),
            *search == s0,
            *unifier == u0,
            search_step(s0, s0, u0, u0, i0, *interner, *problem),
            s0 == *old(search),
            u0 == *old(unifier),
            i0 == *old(interner),
            s0.measure@.len() == components(cs, index as int),
            index < problem.constraints.len(),
            cs == views(problem.constraints@),
            cs[index as int] == (ConstraintView::Join { sources: join.sources@, target: join.target }),
            ready(s0, u0, i0, *problem),
            branch_holds(cs, index as int, u0, i0, s0.choices@),
            widening_free(cs, 0) ==> s0.measure@ == lit_measure(cs, index as int, u0, i0),
            forall|m: int|
                0 <= m < resolved@.len() ==> interner.term(#[trigger] resolved@[m]) == u0.denote(
                    *interner,
                    join.sources@[m],
                ),
        decreases resolved.len() - k,
    {
        match interner.join(lub, resolved[k]) {
            Some(joined) => {
                proof {
                    lemma_head_join_widens(interner.term(lub), interner.term(resolved@[k as int]));
                    assert forall|m: int| 0 <= m < k + 1 implies widens_to(
                        interner.term(#[trigger] resolved@[m]),
                        interner.term(joined),
                    ) by {
                        if m < k {
                            lemma_widens_transitive(
                                interner.term(resolved@[m]),
                                interner.term(lub),
                                interner.term(joined),
                            );
                        }
                    }
                }
                lub = joined;
            },
            None => {
                proof {
                    u0.lemma_advanced_reflexive();
                    lemma_branch_kept(*problem, index as int, u0, u0, i0, *interner, s0.choices@, s0.choices@);
                }
                let ghost i2 = *interner;
                let found = solve_join_seq(search, interner, unifier, problem, index, 0);
                proof {
                    lemma_step_transitive(s0, s0, *search, u0, u0, *unifier, i0, i2, *interner, *problem);
                    assert forall|sig: spec_fn(usize) -> SortTerm|
                        sources_known(cs, index as int, u0, i0) && #[trigger] solved_from(cs, index as int, u0, i0, sig)
                            implies search.best is Some by {
                        u0.lemma_advanced_reflexive();
                        lemma_agree_same_bindings(u0, i0, u0, i2, sig);
                        lemma_owed_kept(*problem, index as int, u0, i0, u0, i2, sig);
                    }
                }
                return found;
            },
        }
        k = k + 1;
    }
    let ghost i1 = *interner;
    let lub_node = unifier.resolved_node(lub);
    let ghost u1 = *unifier;
    proof {
        interner.lemma_extends_reflexive();
        lemma_grow_step(s0, u0, u1, i1, i1, *problem);
        lemma_step_transitive(s0, s0, s0, u0, u0, u1, i0, i1, i1, *problem);
        u1.lemma_advanced_keeps(u0);
        assert(constraint_within(cs[index as int], u0));
    }
    let snapshot = unifier.snapshot();
    let unified = unifier.unify(interner, join.target, lub_node);
    proof {
        unifier.lemma_progress_advances(u1, *interner);
        lemma_grow_step(s0, u1, *unifier, i1, i1, *problem);
        lemma_step_transitive(s0, s0, s0, u0, u1, *unifier, i0, i1, i1, *problem);
    }
    let ghost u2 = *unifier;
    if unified {
        let mut k: usize = 0;
        while k < resolved.len()
            invariant
                k <= resolved@.len(),
                resolved@.len() == join.sources@.len(),
                interner.well_formed(),
                *interner == i1,
                interner.contains(lub),
                forall|m: int| 0 <= m < resolved@.len() ==> interner.contains(#[trigger] resolved@[m]),
                forall|m: int| 0 <= m < resolved@.len() ==> widens_to(interner.term(#[trigger] resolved@[m]), interner.term(lub)),
                search.measure@.len() == s0.measure@.len() + k,
                search.measure@.take(s0.measure@.len() as int) == s0.measure@,
                search.choices@ == s0.choices@,
                search.path == s0.path,
                search.best == s0.best,
            decreases resolved.len() - k,
        {
            let steps = interner.widening_distance(resolved[k], lub);
            search.measure.push(steps);
            proof {
                assert(search.measure@.take(s0.measure@.len() as int) =~= s0.measure@);
            }
            k = k + 1;
        }
        let ghost pushed = *search;
        proof {
            assert(search.measure@.len() == components(cs, index as int + 1));
            let sources = join.sources@;
            let target = join.target;
            let choices = search.choices@;
            lemma_denote_advanced(u1, u2, i1, i1, lub_node);
            u2.lemma_instantiate_resolved(i1, lub);
            u2.lemma_advanced_transitive(u1, u0);
            assert forall|m: int| 0 <= m < sources.len() implies widens_to(
                u2.denote(i1, #[trigger] sources[m]),
                u2.denote(i1, target),
            ) by {
                lemma_denote_advanced(u0, u2, i1, i1, sources[m]);
                u2.lemma_instantiate_resolved(i1, resolved@[m]);
            }
            assert(holds(cs[index as int], u2, i1, choices));
            lemma_branch_kept(*problem, index as int, u0, u2, i0, i1, s0.choices@, choices);
            assert forall|j: int| 0 <= j < index + 1 implies holds(#[trigger] cs[j], u2, i1, choices) by {}
        }
        let found = solve(search, interner, unifier, problem, index + 1);
        let ghost solved = *search;
        let mut k: usize = 0;
        while k < resolved.len()
            invariant
                k <= resolved@.len(),
                search.measure@ == pushed.measure@.take(pushed.measure@.len() - k),
                pushed.measure@.len() == s0.measure@.len() + resolved@.len(),
                solved.measure@ == pushed.measure@,
                search.best == solved.best,
                search.choices@ == solved.choices@,
                search.path == solved.path,
            decreases resolved.len() - k,
        {
            search.measure.pop();
            proof {
                assert(search.measure@ =~= pushed.measure@.take(pushed.measure@.len() - (k + 1)));
            }
            k = k + 1;
        }
        proof {
            assert(search.measure@ =~= s0.measure@);
            assert(search_step(s0, *search, u2, *unifier, i1, *interner, *problem));
        }
        if found {
            proof {
                lemma_step_transitive(s0, s0, *search, u0, u2, *unifier, i0, i1, *interner, *problem);
            }
            return true;
        }
    } else {
        proof {
            lemma_step_reflexive(*search, *unifier, *interner, *problem);
        }
    }
    proof {
        unifier.lemma_advanced_transitive(u2, u1);
        unifier.lemma_advanced_keeps(u1);
    }
    let ghost u3 = *unifier;
    unifier.rollback_to(snapshot);
    proof {
        lemma_attempt(s0, *search, u1, u3, *unifier, i1, *interner, *problem, snapshot);
        lemma_step_transitive(s0, s0, *search, u0, u1, *unifier, i0, i1, *interner, *problem);
        lemma_branch_kept(*problem, index as int, u0, *unifier, i0, *interner, s0.choices@, search.choices@);
    }
    let ghost s4 = *search;
    let ghost u4 = *unifier;
    let ghost i4 = *interner;
    let found = solve_join_seq(search, interner, unifier, problem, index, 0);
    proof {
        lemma_step_transitive(s0, s4, *search, u0, u4, *unifier, i0, i4, *interner, *problem);
        assert forall|sig: spec_fn(usize) -> SortTerm|
            sources_known(cs, index as int, u0, i0) && #[trigger] solved_from(cs, index as int, u0, i0, sig)
                implies search.best is Some by {
            lemma_agree_same_bindings(u0, i0, u4, i4, sig);
            lemma_owed_kept(*problem, index as int, u0, i0, u4, i4, sig);
        }
    }
    found
}

/// The constraints at positions below `n` that widen into `var` are at most `n`, and the
/// last of them, when it is below `n`, is among them.
proof fn lemma_members_bounds(variables: Seq<Option<usize>>, var: usize, n: int)
    requires
        0 <= n <= variables.len(),
    ensures
        members(variables, var, n).len() <= n,
        forall|k: int|
            0 <= k < members(variables, var, n).len() ==> 0 <= #[trigger] members(variables, var, n)[k] < n
                && variables[members(variables, var, n)[k]] == Some(var),
        n > 0 && variables[n - 1] == Some(var) ==> members(variables, var, n).len() >= 1,
    decreases n,
{
    if n > 0 {
        lemma_members_bounds(variables, var, n - 1);
        let before = members(variables, var, n - 1);
        if variables[n - 1] == Some(var) {
            assert forall|k: int| 0 <= k < members(variables, var, n).len() implies 0 <= #[trigger] members(
                variables,
                var,
                n,
            )[k] < n && variables[members(variables, var, n)[k]] == Some(var) by {
                if k < before.len() {
                    assert(members(variables, var, n)[k] == before[k]);
                }
            }
        }
    }
}

/// The constraints below `n` that widen into `var` are listed in increasing order, each of them.
proof fn lemma_members_complete(variables: Seq<Option<usize>>, var: usize, n: int)
    requires
        0 <= n <= variables.len(),
    ensures
        forall|i: int| 0 <= i < n && variables[i] == Some(var) ==> #[trigger] members(variables, var, n).contains(i),
        forall|k1: int, k2: int|
            0 <= k1 < k2 < members(variables, var, n).len() ==> #[trigger] members(variables, var, n)[k1]
                < #[trigger] members(variables, var, n)[k2],
    decreases n,
{
    lemma_members_bounds(variables, var, n);
    if n > 0 {
        lemma_members_complete(variables, var, n - 1);
        lemma_members_bounds(variables, var, n - 1);
        let before = members(variables, var, n - 1);
        let after = members(variables, var, n);
        if variables[n - 1] == Some(var) {
            assert(after == before.push(n - 1));
            assert forall|i: int| 0 <= i < n && variables[i] == Some(var) implies #[trigger] after.contains(i) by {
                if i < n - 1 {
                    assert(before.contains(i));
                    let k = choose|k: int| 0 <= k < before.len() && before[k] == i;
                    assert(after[k] == i);
                } else {
                    assert(after[before.len() as int] == i);
                }
            }
        } else {
            assert(after == before);
        }
    }
}

/// Past the last constraint that widens into `var`, none does, and the members up to it are all
/// the members.
proof fn lemma_members_last(variables: Seq<Option<usize>>, var: usize, n: int, m: int)
    requires
        0 <= n <= variables.len(),
        members(variables, var, n).len() > 0,
        m == members(variables, var, n).last(),
    ensures
        forall|i: int| m < i < n ==> variables[i] != Some(var),
        members(variables, var, m + 1) == members(variables, var, n),
        0 <= m < n,
    decreases n,
{
    lemma_members_bounds(variables, var, n);
    lemma_members_complete(variables, var, n);
    let group = members(variables, var, n);
    assert forall|i: int| m < i < n implies variables[i] != Some(var) by {
        if variables[i] == Some(var) {
            assert(group.contains(i));
            let k = choose|k: int| 0 <= k < group.len() && group[k] == i;
            if k < group.len() - 1 {
                assert(group[k] < group[group.len() - 1]);
            }
        }
    }
    if m + 1 < n {
        assert(members(variables, var, n) == members(variables, var, n - 1));
        lemma_members_bounds(variables, var, n - 1);
        lemma_members_last(variables, var, n - 1, m);
    }
}

/// Merging only adds constraints at the end: the first `m` constraints merged are a prefix of
/// the first `n` merged.
proof fn lemma_merged_prefix(cs: Seq<ConstraintView>, variables: Seq<Option<usize>>, m: int, n: int)
    requires
        0 <= m <= n,
    ensures
        merged(cs, variables, m).len() <= merged(cs, variables, n).len(),
        forall|k: int|
            0 <= k < merged(cs, variables, m).len() ==> #[trigger] merged(cs, variables, n)[k] == merged(
                cs,
                variables,
                m,
            )[k],
    decreases n - m,
{
    if m < n {
        lemma_merged_prefix(cs, variables, m, n - 1);
    }
}

/// The constraints before merging hold wherever the merged ones do: a join that holds makes each
/// widening of its group hold, all of them widening into the same variable.
proof fn lemma_merged_holds(
    cs: Seq<ConstraintView>,
    unifier: Unifier,
    interner: SortInterner,
    witness: Unifier,
    later: SortInterner,
    choices: Seq<(ExprId, NameTarget)>,
)
    requires
        ({
            let variables = cs.map_values(|c: ConstraintView| widened_variable(c, unifier, interner));
            let result = merged(cs, variables, cs.len() as int);
            forall|k: int| 0 <= k < result.len() ==> holds(#[trigger] result[k], witness, later, choices)
        }),
        forall|i: int| 0 <= i < cs.len() ==> constraint_within(#[trigger] cs[i], unifier),
        unifier.well_formed(),
        witness.well_formed(),
        interner.well_formed(),
        later.well_formed(),
        unifier.resolved_within(interner),
        witness.advanced_from(unifier),
        later.extends(interner),
    ensures
        forall|j: int| 0 <= j < cs.len() ==> holds(#[trigger] cs[j], witness, later, choices),
{
    let variables = cs.map_values(|c: ConstraintView| widened_variable(c, unifier, interner));
    let n = cs.len() as int;
    let result = merged(cs, variables, n);
    assert forall|j: int| 0 <= j < n implies holds(#[trigger] cs[j], witness, later, choices) by {
        assert(variables[j] == widened_variable(cs[j], unifier, interner));
        let kept = match variables[j] {
            Some(var) => members(variables, var, n).len() < 2,
            None => true,
        };
        if kept {
            lemma_merged_prefix(cs, variables, j + 1, n);
            assert(merged(cs, variables, j + 1) == merged(cs, variables, j).push(cs[j]));
            assert(result[merged(cs, variables, j).len() as int] == cs[j]);
        } else {
            let var = variables[j]->0;
            let group = members(variables, var, n);
            lemma_members_bounds(variables, var, n);
            lemma_members_complete(variables, var, n);
            let last = group.last();
            lemma_members_last(variables, var, n, last);
            assert(variables[last] == Some(var));
            assert(last_member(variables, last));
            let sources = members(variables, var, last + 1).map_values(|m: int| widened_sort(cs[m]));
            let target = widening_target(cs[last]);
            lemma_merged_prefix(cs, variables, last + 1, n);
            assert(merged(cs, variables, last + 1) == merged(cs, variables, last).push(
                ConstraintView::Join { sources, target },
            ));
            let position = merged(cs, variables, last).len() as int;
            assert(result[position] == ConstraintView::Join { sources, target });
            assert(holds(result[position], witness, later, choices));
            assert(group.contains(j));
            let p = choose|p: int| 0 <= p < group.len() && group[p] == j;
            assert(sources[p] == widened_sort(cs[j]));
            assert(widens_to(witness.denote(later, sources[p]), witness.denote(later, target)));
            assert(variables[last] == widened_variable(cs[last], unifier, interner));
            assert(constraint_within(cs[j], unifier));
            assert(constraint_within(cs[last], unifier));
            let rhs_j = widening_target(cs[j]);
            lemma_denote_advanced(unifier, witness, interner, later, rhs_j);
            lemma_denote_advanced(unifier, witness, interner, later, target);
        }
    }
}

/// The merged constraints hold wherever the constraints before merging do: each member of a
/// group widens into the variable of the group, which the join's target stands for too.
proof fn lemma_merged_hold_again(
    cs: Seq<ConstraintView>,
    unifier: Unifier,
    interner: SortInterner,
    witness: Unifier,
    later: SortInterner,
    choices: Seq<(ExprId, NameTarget)>,
    n: int,
)
    requires
        0 <= n <= cs.len(),
        forall|j: int| 0 <= j < cs.len() ==> holds(#[trigger] cs[j], witness, later, choices),
        forall|i: int| 0 <= i < cs.len() ==> constraint_within(#[trigger] cs[i], unifier),
        unifier.well_formed(),
        witness.well_formed(),
        interner.well_formed(),
        later.well_formed(),
        unifier.resolved_within(interner),
        witness.advanced_from(unifier),
        later.extends(interner),
    ensures
        ({
            let variables = cs.map_values(|c: ConstraintView| widened_variable(c, unifier, interner));
            let result = merged(cs, variables, n);
            forall|k: int| 0 <= k < result.len() ==> holds(#[trigger] result[k], witness, later, choices)
        }),
    decreases n,
{
    let variables = cs.map_values(|c: ConstraintView| widened_variable(c, unifier, interner));
    if n > 0 {
        lemma_merged_hold_again(cs, unifier, interner, witness, later, choices, n - 1);
        let i = n - 1;
        let before = merged(cs, variables, i);
        let result = merged(cs, variables, n);
        assert(variables[i] == widened_variable(cs[i], unifier, interner));
        match variables[i] {
            Some(var) => {
                if members(variables, var, variables.len() as int).len() >= 2 && last_member(variables, i) {
                    lemma_members_bounds(variables, var, n);
                    let group = members(variables, var, n);
                    let sources = group.map_values(|j: int| widened_sort(cs[j]));
                    let target = widening_target(cs[i]);
                    assert(constraint_within(cs[i], unifier));
                    lemma_denote_advanced(unifier, witness, interner, later, target);
                    assert forall|k: int| 0 <= k < sources.len() implies widens_to(
                        witness.denote(later, #[trigger] sources[k]),
                        witness.denote(later, target),
                    ) by {
                        let j = group[k];
                        assert(variables[j] == widened_variable(cs[j], unifier, interner));
                        assert(constraint_within(cs[j], unifier));
                        assert(holds(cs[j], witness, later, choices));
                        lemma_denote_advanced(unifier, witness, interner, later, widening_target(cs[j]));
                    }
                    assert(result.last() == ConstraintView::Join { sources, target });
                    assert forall|k: int| 0 <= k < result.len() implies holds(#[trigger] result[k], witness, later, choices) by {
                        if k < before.len() {
                            assert(result[k] == before[k]);
                        }
                    }
                } else {
                    assert forall|k: int| 0 <= k < result.len() implies holds(#[trigger] result[k], witness, later, choices) by {
                        if k < before.len() {
                            assert(result[k] == before[k]);
                        }
                    }
                }
            },
            None => {
                assert forall|k: int| 0 <= k < result.len() implies holds(#[trigger] result[k], witness, later, choices) by {
                    if k < before.len() {
                        assert(result[k] == before[k]);
                    }
                }
            },
        }
    }
}

/// The constraints after merging, as [`merge_shared_subs`] gives them for the bindings of
/// `unifier`.
pub open spec fn merged_constraints(cs: Seq<ConstraintView>, unifier: Unifier, interner: SortInterner) -> Seq<
    ConstraintView,
> {
    merged(cs, cs.map_values(|c: ConstraintView| widened_variable(c, unifier, interner)), cs.len() as int)
}

/// What replaces the variables so that the given constraints hold makes the merged ones hold
/// too: the members of a group widen into one variable, which the join's target is.
proof fn lemma_merged_solved(
    cs: Seq<ConstraintView>,
    unifier: Unifier,
    interner: SortInterner,
    sigma: spec_fn(usize) -> SortTerm,
    n: int,
)
    requires
        0 <= n <= cs.len(),
        solved_from(cs, 0, unifier, interner, sigma),
    ensures
        ({
            let variables = cs.map_values(|c: ConstraintView| widened_variable(c, unifier, interner));
            let result = merged(cs, variables, n);
            forall|k: int| 0 <= k < result.len() ==> holds_under(#[trigger] result[k], unifier, interner, sigma)
        }),
    decreases n,
{
    let variables = cs.map_values(|c: ConstraintView| widened_variable(c, unifier, interner));
    if n > 0 {
        lemma_merged_solved(cs, unifier, interner, sigma, n - 1);
        let i = n - 1;
        let before = merged(cs, variables, i);
        let result = merged(cs, variables, n);
        assert(variables[i] == widened_variable(cs[i], unifier, interner));
        match variables[i] {
            Some(var) => {
                if members(variables, var, variables.len() as int).len() >= 2 && last_member(variables, i) {
                    lemma_members_bounds(variables, var, n);
                    let group = members(variables, var, n);
                    let sources = group.map_values(|j: int| widened_sort(cs[j]));
                    let target = widening_target(cs[i]);
                    assert forall|k: int| 0 <= k < sources.len() implies widens_to(
                        substitute(unifier.denote(interner, #[trigger] sources[k]), sigma),
                        substitute(unifier.denote(interner, target), sigma),
                    ) by {
                        let j = group[k];
                        assert(variables[j] == widened_variable(cs[j], unifier, interner));
                        assert(holds_under(cs[j], unifier, interner, sigma));
                    }
                    assert(result.last() == ConstraintView::Join { sources, target });
                    assert forall|k: int| 0 <= k < result.len() implies holds_under(#[trigger] result[k], unifier, interner, sigma) by {
                        if k < before.len() {
                            assert(result[k] == before[k]);
                        }
                    }
                } else {
                    assert forall|k: int| 0 <= k < result.len() implies holds_under(#[trigger] result[k], unifier, interner, sigma) by {
                        if k < before.len() {
                            assert(result[k] == before[k]);
                        } else {
                            assert(holds_under(cs[i], unifier, interner, sigma));
                        }
                    }
                }
            },
            None => {
                assert forall|k: int| 0 <= k < result.len() implies holds_under(#[trigger] result[k], unifier, interner, sigma) by {
                    if k < before.len() {
                        assert(result[k] == before[k]);
                    } else {
                        assert(holds_under(cs[i], unifier, interner, sigma));
                    }
                }
            },
        }
    }
}

/// Merging keeps the solutions: under bindings that went on from those the constraints were
/// merged under, the merged constraints ([`merge_shared_subs`]) hold exactly when the given ones
/// do.
pub proof fn law_merging_keeps_the_solutions(
    cs: Seq<ConstraintView>,
    unifier: Unifier,
    interner: SortInterner,
    witness: Unifier,
    later: SortInterner,
    choices: Seq<(ExprId, NameTarget)>,
)
    requires
        forall|i: int| 0 <= i < cs.len() ==> constraint_within(#[trigger] cs[i], unifier),
        unifier.well_formed(),
        witness.well_formed(),
        interner.well_formed(),
        later.well_formed(),
        unifier.resolved_within(interner),
        witness.advanced_from(unifier),
        later.extends(interner),
    ensures
        ({
            let variables = cs.map_values(|c: ConstraintView| widened_variable(c, unifier, interner));
            let result = merged(cs, variables, cs.len() as int);
            (forall|j: int| 0 <= j < cs.len() ==> holds(#[trigger] cs[j], witness, later, choices)) <==> (forall|
                k: int,
            |
                0 <= k < result.len() ==> holds(#[trigger] result[k], witness, later, choices))
        }),
{
    let variables = cs.map_values(|c: ConstraintView| widened_variable(c, unifier, interner));
    let result = merged(cs, variables, cs.len() as int);
    if forall|j: int| 0 <= j < cs.len() ==> holds(#[trigger] cs[j], witness, later, choices) {
        lemma_merged_hold_again(cs, unifier, interner, witness, later, choices, cs.len() as int);
    }
    if forall|k: int| 0 <= k < result.len() ==> holds(#[trigger] result[k], witness, later, choices) {
        lemma_merged_holds(cs, unifier, interner, witness, later, choices);
    }
}

/// Merging keeps every constraint within the unifier and fitting the problem: a join collects
/// the left-hand sides of widenings, at least one, into the right-hand side of one of them.
proof fn lemma_merged_fits(
    cs: Seq<ConstraintView>,
    unifier: Unifier,
    interner: SortInterner,
    expr_count: nat,
    n: int,
)
    requires
        0 <= n <= cs.len() <= usize::MAX,
        forall|i: int| 0 <= i < cs.len() ==> constraint_within(#[trigger] cs[i], unifier),
        forall|i: int| 0 <= i < cs.len() ==> constraint_fits(#[trigger] cs[i], expr_count, interner),
    ensures
        ({
            let variables = cs.map_values(|c: ConstraintView| widened_variable(c, unifier, interner));
            let result = merged(cs, variables, n);
            &&& forall|i: int| 0 <= i < result.len() ==> constraint_within(#[trigger] result[i], unifier)
            &&& forall|i: int| 0 <= i < result.len() ==> constraint_fits(#[trigger] result[i], expr_count, interner)
        }),
    decreases n,
{
    let variables = cs.map_values(|c: ConstraintView| widened_variable(c, unifier, interner));
    if n > 0 {
        lemma_merged_fits(cs, unifier, interner, expr_count, n - 1);
        let i = n - 1;
        let before = merged(cs, variables, i);
        let result = merged(cs, variables, n);
        assert(variables[i] == widened_variable(cs[i], unifier, interner));
        match variables[i] {
            Some(var) => {
                if members(variables, var, variables.len() as int).len() >= 2 && last_member(variables, i) {
                    lemma_members_bounds(variables, var, n);
                    let group = members(variables, var, n);
                    let sources = group.map_values(|j: int| widened_sort(cs[j]));
                    assert forall|k: int| 0 <= k < sources.len() implies unifier.contains(#[trigger] sources[k]) by {
                        let j = group[k];
                        assert(variables[j] == widened_variable(cs[j], unifier, interner));
                        assert(constraint_within(cs[j], unifier));
                    }
                    assert(constraint_within(cs[i], unifier));
                    assert(result.last() == ConstraintView::Join { sources, target: widening_target(cs[i]) });
                    assert forall|k: int| 0 <= k < result.len() implies constraint_within(#[trigger] result[k], unifier)
                        && constraint_fits(result[k], expr_count, interner) by {
                        if k < before.len() {
                            assert(result[k] == before[k]);
                        }
                    }
                } else if members(variables, var, variables.len() as int).len() >= 2 {
                } else {
                    assert forall|k: int| 0 <= k < result.len() implies constraint_within(#[trigger] result[k], unifier)
                        && constraint_fits(result[k], expr_count, interner) by {
                        if k < before.len() {
                            assert(result[k] == before[k]);
                        }
                    }
                }
            },
            None => {
                assert forall|k: int| 0 <= k < result.len() implies constraint_within(#[trigger] result[k], unifier)
                    && constraint_fits(result[k], expr_count, interner) by {
                    if k < before.len() {
                        assert(result[k] == before[k]);
                    }
                }
            },
        }
    }
}

/// `typing` is read out of a solution of the constraints `cs`: in the bindings `witness`, which
/// went on from `start`, every constraint holds, with the disjuncts `choices` chosen; the sort of
/// each expression node is what its node stands for there, a sort still free taken to be
/// `default_sort`; and the names are `base_names` with the chosen disjuncts.
pub open spec fn solves(
    typing: Typing,
    cs: Seq<ConstraintView>,
    expr_sorts: Seq<InferSortId>,
    base_names: Seq<Option<NameTarget>>,
    default_sort: ResolvedSortId,
    witness: Unifier,
    choices: Seq<(ExprId, NameTarget)>,
    interner: SortInterner,
    start: Unifier,
) -> bool {
    &&& witness.well_formed()
    &&& witness.advanced_from(start)
    &&& forall|j: int| 0 <= j < cs.len() ==> holds(#[trigger] cs[j], witness, interner, choices)
    &&& typing.names@ == chosen_names(base_names, choices)
    &&& typing.sorts@.len() == expr_sorts.len()
    &&& forall|k: int|
        0 <= k < expr_sorts.len() ==> interner.contains(#[trigger] typing.sorts@[k]) && interner.term(typing.sorts@[k])
            == defaulted(witness.denote(interner, expr_sorts[k]), interner.term(default_sort))
}

/// Why the constraints of an equation have no single best typing.
#[derive(Clone, Copy, Debug, PartialEq, Eq, Structural)]
pub enum SolveError {
    /// No assignment of sorts satisfies the constraints.
    NoTyping,
    /// Two assignments tie for the most specific typing.
    Ambiguous,
}

/// Solves the constraints generated for one equation: merges the widenings into a shared
/// variable into joins ([`merge_shared_subs`]), searches the assignments by ranked backtracking,
/// preferring equality to widening and nearer widenings to farther ones, and returns the typing
/// of the most specific solution. A sort left free in it is taken to be `default_sort`. It fails
/// with [`SolveError::NoTyping`] when the search reaches no complete assignment, and with
/// [`SolveError::Ambiguous`] when two assignments tie for the best.
///
/// Every typing returned is that of an assignment under which each constraint holds. Where no
/// constraint is a widening, the search is exhaustive: the typing returned is that of an
/// assignment of least measure, reached by the only choice of disjuncts, readings and literal
/// sorts of least measure; an ambiguity is two such choices; and no typing is reported exactly
/// when no assignment satisfies the constraints. With widenings it is not: between two free
/// sorts only equality is tried. Where the sort that each widening widens, and each source of a
/// join left after merging, stands for a known sort, no typing is reported exactly when no
/// assignment satisfies the constraints: a join whose least upper bound leads nowhere is tried
/// again source by source, each source widened to its target by equality first and then by its
/// supersorts, nearest first.
pub fn solve_constraints(
    constraints: Vec<Constraint>,
    expr_sorts: Vec<InferSortId>,
    base_names: Vec<Option<NameTarget>>,
    default_sort: ResolvedSortId,
    interner: &mut SortInterner,
    unifier: &mut Unifier,
) -> (r: Result<Typing, SolveError>)
    requires
        old(interner).well_formed(),
        old(unifier).well_formed(),
        old(unifier).resolved_within(*old(interner)),
        forall|i: int| 0 <= i < constraints@.len() ==> constraint_within(#[trigger] constraints@[i]@, *old(unifier)),
        forall|i: int|
            0 <= i < constraints@.len() ==> constraint_fits(#[trigger] constraints@[i]@, expr_sorts@.len(), *old(interner)),
        forall|k: int| 0 <= k < expr_sorts@.len() ==> old(unifier).contains(#[trigger] expr_sorts@[k]),
        base_names@.len() == expr_sorts@.len(),
        old(interner).contains(default_sort),
    ensures
        final(interner).well_formed(),
        final(interner).extends(*old(interner)),
        final(unifier).well_formed(),
        final(unifier).advanced_from(*old(unifier)),
        match r {
            Ok(typing) => {
                &&& typing.names@.len() == expr_sorts@.len()
                &&& exists|witness: Unifier, choices: Seq<(ExprId, NameTarget)>|
                    #[trigger] solves(
                        typing,
                        views(constraints@),
                        expr_sorts@,
                        base_names@,
                        default_sort,
                        witness,
                        choices,
                        *final(interner),
                        *old(unifier),
                    )
            },
            Err(SolveError::Ambiguous) => exists|typing: Typing, witness: Unifier, choices: Seq<(ExprId, NameTarget)>|
                #[trigger] solves(
                    typing,
                    views(constraints@),
                    expr_sorts@,
                    base_names@,
                    default_sort,
                    witness,
                    choices,
                    *final(interner),
                    *old(unifier),
                ),
            Err(SolveError::NoTyping) => true,
        },
        !(r matches Err(SolveError::NoTyping)) ==> exists|sigma: spec_fn(usize) -> SortTerm|
            #[trigger] solved_from(views(constraints@), 0, *old(unifier), *old(interner), sigma),
        r is Ok && widening_free(views(constraints@), 0) ==> exists|
            sigma: spec_fn(usize) -> SortTerm,
            combo: Seq<int>,
        |
            #[trigger] least_choice(views(constraints@), *old(unifier), *old(interner), sigma, combo) && (forall|k: int|
                0 <= k < expr_sorts@.len() ==> final(interner).term(#[trigger] r->Ok_0.sorts@[k]) == defaulted(
                    substitute(old(unifier).denote(*old(interner), expr_sorts@[k]), sigma),
                    final(interner).term(default_sort),
                )) && forall|other: spec_fn(usize) -> SortTerm, other_combo: Seq<int>|
                #[trigger] least_choice(views(constraints@), *old(unifier), *old(interner), other, other_combo)
                    ==> other_combo == combo,
        r matches Err(SolveError::Ambiguous) && widening_free(views(constraints@), 0) ==> exists|
            first: spec_fn(usize) -> SortTerm,
            first_combo: Seq<int>,
            second: spec_fn(usize) -> SortTerm,
            second_combo: Seq<int>,
        |
            #[trigger] least_choice(views(constraints@), *old(unifier), *old(interner), first, first_combo)
                && #[trigger] least_choice(views(constraints@), *old(unifier), *old(interner), second, second_combo)
                && first_combo != second_combo,
        widening_free(views(constraints@), 0) ==> (r matches Err(SolveError::NoTyping) <==> !exists|
            sigma: spec_fn(usize) -> SortTerm,
        | #[trigger] solved_from(views(constraints@), 0, *old(unifier), *old(interner), sigma)),
        sources_known(merged_constraints(views(constraints@), *old(unifier), *old(interner)), 0, *old(unifier), *old(interner))
            ==> (r matches Err(SolveError::NoTyping) <==> !exists|sigma: spec_fn(usize) -> SortTerm|
            #[trigger] solved_from(views(constraints@), 0, *old(unifier), *old(interner), sigma)),
{
    let ghost cs = views(constraints@);
    proof {
        assert forall|i: int| 0 <= i < cs.len() implies constraint_within(#[trigger] cs[i], *unifier)
            && constraint_fits(cs[i], expr_sorts@.len(), *interner) by {
            assert(cs[i] == constraints@[i]@);
        }
        assert(cs.len() == constraints.len());
        lemma_merged_fits(cs, *unifier, *interner, expr_sorts@.len(), cs.len() as int);
    }
    let ghost start = *unifier;
    let ghost start_interner = *interner;
    let merged = merge_shared_subs(constraints, unifier, interner);
    let problem = Problem { constraints: merged, expr_sorts, base_names, default_sort, origin: Ghost(*unifier) };
    let mut search = Search { choices: Vec::new(), measure: Vec::new(), best: None, path: Ghost(Seq::empty()) };
    proof {
        let result = views(problem.constraints@);
        assert forall|i: int| 0 <= i < problem.constraints@.len() implies constraint_within(
            #[trigger] problem.constraints@[i]@,
            *unifier,
        ) && constraint_fits(problem.constraints@[i]@, problem.expr_sorts@.len(), *interner) by {
            assert(result[i] == problem.constraints@[i]@);
        }
    }
    proof {
        unifier.lemma_advanced_reflexive();
    }
    let ghost before = search;
    solve(&mut search, interner, unifier, &problem, 0);
    match search.best {
        None => {
            proof {
                if sources_known(merged_constraints(cs, start, start_interner), 0, start, start_interner) {
                    assert(views(problem.constraints@) == merged_constraints(cs, start, start_interner));
                    assert forall|sigma: spec_fn(usize) -> SortTerm| !#[trigger] solved_from(cs, 0, start, start_interner, sigma) by {
                        if solved_from(cs, 0, start, start_interner, sigma) {
                            lemma_merged_solved(cs, start, start_interner, sigma, cs.len() as int);
                            assert(solved_from(views(problem.constraints@), 0, start, start_interner, sigma));
                        }
                    }
                }
                if widening_free(cs, 0) {
                    let variables = cs.map_values(|c: ConstraintView| widened_variable(c, start, start_interner));
                    lemma_merged_unchanged(cs, variables, cs.len() as int);
                    assert(views(problem.constraints@) == cs);
                    assert forall|sigma: spec_fn(usize) -> SortTerm| !#[trigger] solved_from(cs, 0, start, start_interner, sigma) by {
                        if solved_from(cs, 0, start, start_interner, sigma) {
                            assert(solved_from(views(problem.constraints@), 0, start, start_interner, sigma));
                            assert(ranks_by(
                                search.best,
                                before.measure@ + measure_under(views(problem.constraints@), 0, start, start_interner, sigma),
                            ));
                        }
                    }
                }
            }
            Err(SolveError::NoTyping)
        },
        Some(best) => {
            proof {
                let witness = best.witness@;
                let choices = best.chosen@;
                let result = views(problem.constraints@);
                assert forall|k: int| 0 <= k < result.len() implies holds(
                    #[trigger] result[k],
                    witness,
                    *interner,
                    choices,
                ) by {}
                lemma_merged_holds(cs, start, start_interner, witness, *interner, choices);
                lemma_witness_solves(cs, expr_sorts@.len(), start, start_interner, witness, *interner, choices);
                let sigma_w = witness_assignment(witness, *interner);
                assert(solved_from(cs, 0, start, start_interner, sigma_w));
                if widening_free(cs, 0) {
                    let variables = cs.map_values(|c: ConstraintView| widened_variable(c, start, start_interner));
                    lemma_merged_unchanged(cs, variables, cs.len() as int);
                    assert(views(problem.constraints@) == cs);
                    assert(problem_within(problem, start, start_interner));
                    lemma_lit_measure_under(problem, cs.len() as int, start, start_interner, witness, *interner);
                    assert(measure_under(cs, cs.len() as int, start, start_interner, sigma_w) =~= Seq::<u8>::empty());
                    assert(best.measure@ =~= measure_under(cs, 0, start, start_interner, sigma_w));
                    assert forall|other: spec_fn(usize) -> SortTerm| #[trigger] solved_from(cs, 0, start, start_interner, other)
                        implies !measure_less(
                        measure_under(cs, 0, start, start_interner, other),
                        measure_under(cs, 0, start, start_interner, sigma_w),
                    ) by {
                        assert(solved_from(views(problem.constraints@), 0, start, start_interner, other));
                        assert(before.measure@ + measure_under(cs, 0, start, start_interner, other) =~= measure_under(
                            cs,
                            0,
                            start,
                            start_interner,
                            other,
                        ));
                    }
                    assert(ranks_first(cs, start, start_interner, sigma_w));
                    lemma_realized_realizes(problem, best.path@, start, start_interner, witness, *interner);
                    assert(least_choice(cs, start, start_interner, sigma_w, best.path@));
                    assert forall|other: spec_fn(usize) -> SortTerm, other_combo: Seq<int>|
                        #[trigger] least_choice(cs, start, start_interner, other, other_combo) && !best.duplicate
                            implies other_combo == best.path@ by {
                        let mo = measure_under(cs, 0, start, start_interner, other);
                        let mw = measure_under(cs, 0, start, start_interner, sigma_w);
                        lemma_measure_under_len(cs, 0, start, start_interner, other, sigma_w);
                        lemma_measure_total(mo, mw);
                        assert(solved_from(views(problem.constraints@), 0, start, start_interner, other));
                        assert(realizes(views(problem.constraints@), 0, other_combo, start, start_interner, other));
                        assert(before.measure@ + mo =~= mo);
                        assert(before.path@ + other_combo =~= other_combo);
                    }
                    if best.duplicate {
                        let rival = best.rival_witness@;
                        let sigma_r = witness_assignment(rival, *interner);
                        lemma_realized_realizes(problem, best.rival_path@, start, start_interner, rival, *interner);
                        lemma_lit_measure_under(problem, cs.len() as int, start, start_interner, rival, *interner);
                        assert(measure_under(cs, cs.len() as int, start, start_interner, sigma_r) =~= Seq::<u8>::empty());
                        assert(best.measure@ =~= measure_under(cs, 0, start, start_interner, sigma_r));
                        assert(ranks_first(cs, start, start_interner, sigma_r));
                        assert(least_choice(cs, start, start_interner, sigma_r, best.rival_path@));
                    }
                    assert forall|k: int| 0 <= k < expr_sorts@.len() implies interner.term(#[trigger] best.typing.sorts@[k])
                        == defaulted(
                        substitute(start.denote(start_interner, expr_sorts@[k]), sigma_w),
                        interner.term(default_sort),
                    ) by {
                        lemma_witness_node(start, start_interner, witness, *interner, expr_sorts@[k]);
                    }
                }
                assert(solves(
                    best.typing,
                    cs,
                    problem.expr_sorts@,
                    problem.base_names@,
                    default_sort,
                    witness,
                    choices,
                    *interner,
                    start,
                ));
                assert(best.typing.names@.len() == problem.expr_sorts@.len());
                assert(exists|w: Unifier, c: Seq<(ExprId, NameTarget)>|
                    #[trigger] solves(
                        best.typing,
                        cs,
                        problem.expr_sorts@,
                        problem.base_names@,
                        default_sort,
                        w,
                        c,
                        *interner,
                        start,
                    ));
            }
            if best.duplicate {
                Err(SolveError::Ambiguous)
            } else {
                Ok(best.typing)
            }
        },
    }
}

/// The sorts `body` and `node` are a reading of a comprehension over `element`: a `Bool` body
/// and a `Set`, or a `Nat` or `Pos` body and a `Bag`.
pub open spec fn comprehension_reading(body: SortTerm, node: SortTerm, element: SortTerm) -> bool {
    ||| body == SortTerm::Basic(Sort::Bool) && node == SortTerm::Container(ComplexSort::SetSort, Box::new(element))
    ||| body == SortTerm::Basic(Sort::Nat) && node == SortTerm::Container(ComplexSort::Bag, Box::new(element))
    ||| body == SortTerm::Basic(Sort::Pos) && node == SortTerm::Container(ComplexSort::Bag, Box::new(element))
}

/// A literal of `kind` can have the sort `term`: a number sort, not `Pos` for `0`.
pub open spec fn admits(kind: LitKind, term: SortTerm) -> bool {
    match term {
        SortTerm::Basic(sort) => spec_number_generality(sort) is Some && !(kind == LitKind::Natural && sort
            == Sort::Pos),
        _ => false,
    }
}

/// The first `n` sources widen to the target.
pub open spec fn joined_up_to(
    sources: Seq<InferSortId>,
    target: InferSortId,
    unifier: Unifier,
    interner: SortInterner,
    n: int,
) -> bool {
    forall|k: int|
        0 <= k < n ==> widens_to(unifier.denote(interner, #[trigger] sources[k]), unifier.denote(interner, target))
}

/// The constraint holds of the sorts that the nodes stand for in `unifier`, one of the disjuncts
/// of a disjunction being among the `choices`.
pub open spec fn holds(
    c: ConstraintView,
    unifier: Unifier,
    interner: SortInterner,
    choices: Seq<(ExprId, NameTarget)>,
) -> bool {
    match c {
        ConstraintView::Sub { lhs, rhs } => widens_to(unifier.denote(interner, lhs), unifier.denote(interner, rhs)),
        ConstraintView::Lit { sort, kind } => admits(kind, unifier.denote(interner, sort)),
        ConstraintView::Disjunction { expr, sort, disjuncts } => exists|k: int|
            0 <= k < disjuncts.len() && choices.contains((expr, (#[trigger] disjuncts[k]).0)) && unifier.denote(
                interner,
                sort,
            ) == unifier.denote(interner, disjuncts[k].1),
        ConstraintView::Comprehension { body, node, element } => comprehension_reading(
            unifier.denote(interner, body),
            unifier.denote(interner, node),
            interner.term(element),
        ),
        ConstraintView::Join { sources, target } => joined_up_to(sources, target, unifier, interner, sources.len() as int),
    }
}

/// The constraint holds of the sorts that the nodes stand for in `unifier` once `sigma` replaces
/// the variables left in them, one of the disjuncts of a disjunction being met.
pub open spec fn holds_under(
    c: ConstraintView,
    unifier: Unifier,
    interner: SortInterner,
    sigma: spec_fn(usize) -> SortTerm,
) -> bool {
    match c {
        ConstraintView::Sub { lhs, rhs } => widens_to(
            substitute(unifier.denote(interner, lhs), sigma),
            substitute(unifier.denote(interner, rhs), sigma),
        ),
        ConstraintView::Lit { sort, kind } => admits(kind, substitute(unifier.denote(interner, sort), sigma)),
        ConstraintView::Disjunction { sort, disjuncts, .. } => exists|k: int|
            0 <= k < disjuncts.len() && substitute(unifier.denote(interner, sort), sigma) == substitute(
                unifier.denote(interner, #[trigger] disjuncts[k].1),
                sigma,
            ),
        ConstraintView::Comprehension { body, node, element } => comprehension_reading(
            substitute(unifier.denote(interner, body), sigma),
            substitute(unifier.denote(interner, node), sigma),
            interner.term(element),
        ),
        ConstraintView::Join { sources, target } => forall|k: int|
            0 <= k < sources.len() ==> widens_to(
                substitute(unifier.denote(interner, #[trigger] sources[k]), sigma),
                substitute(unifier.denote(interner, target), sigma),
            ),
    }
}

/// Every constraint of `cs` from position `index` on holds once `sigma` replaces the variables.
pub open spec fn solved_from(
    cs: Seq<ConstraintView>,
    index: int,
    unifier: Unifier,
    interner: SortInterner,
    sigma: spec_fn(usize) -> SortTerm,
) -> bool {
    forall|j: int| index <= j < cs.len() ==> holds_under(#[trigger] cs[j], unifier, interner, sigma)
}

/// No constraint of `cs` from position `index` on is a widening.
pub open spec fn widening_free(cs: Seq<ConstraintView>, index: int) -> bool {
    forall|j: int| index <= j < cs.len() ==> !(#[trigger] cs[j] is Sub) && !(cs[j] is Join)
}

/// Once `sigma` replaces the variables, every node of `ua` stands in `ub` for the sort it stands
/// for in `ua`.
pub open spec fn agree_under(
    ua: Unifier,
    ia: SortInterner,
    ub: Unifier,
    ib: SortInterner,
    sigma: spec_fn(usize) -> SortTerm,
) -> bool {
    forall|x: InferSortId|
        ua.contains(x) ==> #[trigger] substitute(ub.denote(ib, x), sigma) == substitute(ua.denote(ia, x), sigma)
}

/// Agreement is transitive.
proof fn lemma_agree_transitive(
    ua: Unifier,
    ia: SortInterner,
    ub: Unifier,
    ib: SortInterner,
    uc: Unifier,
    ic: SortInterner,
    sigma: spec_fn(usize) -> SortTerm,
)
    requires
        agree_under(ua, ia, ub, ib, sigma),
        agree_under(ub, ib, uc, ic, sigma),
        forall|x: InferSortId| ua.contains(x) ==> #[trigger] ub.contains(x),
    ensures
        agree_under(ua, ia, uc, ic, sigma),
{
    assert forall|x: InferSortId| ua.contains(x) implies #[trigger] substitute(uc.denote(ic, x), sigma) == substitute(
        ua.denote(ia, x),
        sigma,
    ) by {
        assert(ub.contains(x));
        assert(substitute(ub.denote(ib, x), sigma) == substitute(ua.denote(ia, x), sigma));
    }
}

/// A unifier that went on without binding anything, over an interner that stores more sorts,
/// agrees with where it started, whatever replaces the variables.
proof fn lemma_agree_same_bindings(
    ua: Unifier,
    ia: SortInterner,
    ub: Unifier,
    ib: SortInterner,
    sigma: spec_fn(usize) -> SortTerm,
)
    requires
        ua.well_formed(),
        ub.well_formed(),
        ia.well_formed(),
        ib.well_formed(),
        ib.extends(ia),
        ua.resolved_within(ia),
        ub.advanced_from(ua),
        ub.bindings() == ua.bindings(),
    ensures
        agree_under(ua, ia, ub, ib, sigma),
{
    assert forall|x: InferSortId| ua.contains(x) implies #[trigger] substitute(ub.denote(ib, x), sigma) == substitute(
        ua.denote(ia, x),
        sigma,
    ) by {
        ub.lemma_same_bindings_denote(ua, ib, x);
        ua.lemma_denote_interner_grows(ia, ib, x);
    }
}

/// A unifier that kept a solution agrees with where it started under it.
proof fn lemma_agree_kept(ua: Unifier, ub: Unifier, interner: SortInterner, sigma: spec_fn(usize) -> SortTerm)
    requires
        ub.keeps_solution(ua, interner, sigma),
    ensures
        agree_under(ua, interner, ub, interner, sigma),
{
    assert forall|x: InferSortId| ua.contains(x) implies #[trigger] substitute(ub.denote(interner, x), sigma)
        == substitute(ua.denote(interner, x), sigma) by {
        ub.lemma_keeps_solution_at(ua, interner, sigma, x);
    }
}

/// Where two states agree under `sigma`, the constraints of the problem that held of the first
/// from position `index` on hold of the second.
proof fn lemma_solved_transfer(
    problem: Problem,
    index: int,
    ua: Unifier,
    ia: SortInterner,
    ub: Unifier,
    ib: SortInterner,
    sigma: spec_fn(usize) -> SortTerm,
)
    requires
        0 <= index,
        problem_within(problem, ua, ia),
        agree_under(ua, ia, ub, ib, sigma),
        ia.well_formed(),
        ib.well_formed(),
        ib.extends(ia),
        solved_from(views(problem.constraints@), index, ua, ia, sigma),
    ensures
        solved_from(views(problem.constraints@), index, ub, ib, sigma),
{
    let cs = views(problem.constraints@);
    assert forall|j: int| index <= j < cs.len() implies holds_under(#[trigger] cs[j], ub, ib, sigma) by {
        assert(cs[j] == problem.constraints@[j]@);
        assert(constraint_within(problem.constraints@[j]@, ua));
        assert(constraint_fits(problem.constraints@[j]@, problem.expr_sorts@.len(), ia));
        assert(holds_under(cs[j], ua, ia, sigma));
        match cs[j] {
            ConstraintView::Disjunction { sort, disjuncts, .. } => {
                let k = choose|k: int|
                    0 <= k < disjuncts.len() && substitute(ua.denote(ia, sort), sigma) == substitute(
                        ua.denote(ia, #[trigger] disjuncts[k].1),
                        sigma,
                    );
                assert(ua.contains(disjuncts[k].1));
                assert(substitute(ub.denote(ib, disjuncts[k].1), sigma) == substitute(ua.denote(ia, disjuncts[k].1), sigma));
                assert(substitute(ub.denote(ib, sort), sigma) == substitute(ua.denote(ia, sort), sigma));
            },
            ConstraintView::Comprehension { body, node, element } => {
                ib.lemma_extends(ia, element);
                assert(substitute(ub.denote(ib, body), sigma) == substitute(ua.denote(ia, body), sigma));
                assert(substitute(ub.denote(ib, node), sigma) == substitute(ua.denote(ia, node), sigma));
            },
            ConstraintView::Join { sources, target } => {
                assert(substitute(ub.denote(ib, target), sigma) == substitute(ua.denote(ia, target), sigma));
                assert forall|k: int| 0 <= k < sources.len() implies widens_to(
                    substitute(ub.denote(ib, #[trigger] sources[k]), sigma),
                    substitute(ub.denote(ib, target), sigma),
                ) by {
                    assert(ua.contains(sources[k]));
                    assert(substitute(ub.denote(ib, sources[k]), sigma) == substitute(ua.denote(ia, sources[k]), sigma));
                }
            },
            ConstraintView::Sub { lhs, rhs } => {
                assert(substitute(ub.denote(ib, lhs), sigma) == substitute(ua.denote(ia, lhs), sigma));
                assert(substitute(ub.denote(ib, rhs), sigma) == substitute(ua.denote(ia, rhs), sigma));
            },
            ConstraintView::Lit { sort, .. } => {
                assert(substitute(ub.denote(ib, sort), sigma) == substitute(ua.denote(ia, sort), sigma));
            },
        }
    }
}

/// What a witness that advanced from `start` makes of the variables of `start`.
pub open spec fn witness_assignment(witness: Unifier, interner: SortInterner) -> spec_fn(usize) -> SortTerm {
    |v: usize| witness.instantiate(interner, SortTerm::Variable(v))
}

/// Every node of `start` stands in a witness that advanced from it for what the node stands for
/// in `start` under the witness's assignment.
proof fn lemma_witness_node(start: Unifier, i0: SortInterner, witness: Unifier, interner: SortInterner, x: InferSortId)
    requires
        start.well_formed(),
        witness.well_formed(),
        i0.well_formed(),
        interner.well_formed(),
        interner.extends(i0),
        start.resolved_within(i0),
        witness.advanced_from(start),
        start.contains(x),
    ensures
        witness.denote(interner, x) == substitute(start.denote(i0, x), witness_assignment(witness, interner)),
{
    start.lemma_denote_interner_grows(i0, interner, x);
    witness.lemma_advanced_denote(start, interner, x);
    witness.lemma_instantiate_is_substitute(interner, start.denote(interner, x));
}

/// The constraints that hold of a witness that advanced from `start` hold of `start` under the
/// witness's assignment.
proof fn lemma_witness_solves(
    cs: Seq<ConstraintView>,
    expr_count: nat,
    start: Unifier,
    i0: SortInterner,
    witness: Unifier,
    interner: SortInterner,
    choices: Seq<(ExprId, NameTarget)>,
)
    requires
        start.well_formed(),
        witness.well_formed(),
        i0.well_formed(),
        interner.well_formed(),
        interner.extends(i0),
        start.resolved_within(i0),
        witness.advanced_from(start),
        forall|j: int| 0 <= j < cs.len() ==> constraint_within(#[trigger] cs[j], start),
        forall|j: int| 0 <= j < cs.len() ==> constraint_fits(#[trigger] cs[j], expr_count, i0),
        forall|j: int| 0 <= j < cs.len() ==> holds(#[trigger] cs[j], witness, interner, choices),
    ensures
        solved_from(cs, 0, start, i0, witness_assignment(witness, interner)),
{
    let sigma = witness_assignment(witness, interner);
    assert forall|j: int| 0 <= j < cs.len() implies holds_under(#[trigger] cs[j], start, i0, sigma) by {
        assert(constraint_within(cs[j], start));
        assert(constraint_fits(cs[j], expr_count, i0));
        assert(holds(cs[j], witness, interner, choices));
        match cs[j] {
            ConstraintView::Sub { lhs, rhs } => {
                lemma_witness_node(start, i0, witness, interner, lhs);
                lemma_witness_node(start, i0, witness, interner, rhs);
            },
            ConstraintView::Lit { sort, .. } => {
                lemma_witness_node(start, i0, witness, interner, sort);
            },
            ConstraintView::Disjunction { expr, sort, disjuncts } => {
                let k = choose|k: int|
                    0 <= k < disjuncts.len() && choices.contains((expr, (#[trigger] disjuncts[k]).0))
                        && witness.denote(interner, sort) == witness.denote(interner, disjuncts[k].1);
                lemma_witness_node(start, i0, witness, interner, sort);
                assert(start.contains(disjuncts[k].1));
                lemma_witness_node(start, i0, witness, interner, disjuncts[k].1);
            },
            ConstraintView::Comprehension { body, node, element } => {
                lemma_witness_node(start, i0, witness, interner, body);
                lemma_witness_node(start, i0, witness, interner, node);
                interner.lemma_extends(i0, element);
            },
            ConstraintView::Join { sources, target } => {
                lemma_witness_node(start, i0, witness, interner, target);
                assert forall|k: int| 0 <= k < sources.len() implies widens_to(
                    substitute(start.denote(i0, #[trigger] sources[k]), sigma),
                    substitute(start.denote(i0, target), sigma),
                ) by {
                    assert(start.contains(sources[k]));
                    lemma_witness_node(start, i0, witness, interner, sources[k]);
                    assert(widens_to(witness.denote(interner, sources[k]), witness.denote(interner, target)));
                }
            },
        }
    }
}

/// One of the first `k` of `disjuncts` stands for the sort `sort` stands for, once `sigma`
/// replaces the variables.
pub open spec fn met_before(
    unifier: Unifier,
    interner: SortInterner,
    sigma: spec_fn(usize) -> SortTerm,
    sort: InferSortId,
    disjuncts: Seq<(NameTarget, InferSortId)>,
    k: int,
) -> bool {
    exists|j: int|
        0 <= j < k && substitute(unifier.denote(interner, sort), sigma) == substitute(
            unifier.denote(interner, #[trigger] disjuncts[j].1),
            sigma,
        )
}

/// The first `n` constraints hold.
pub open spec fn branch_holds(
    cs: Seq<ConstraintView>,
    n: int,
    unifier: Unifier,
    interner: SortInterner,
    choices: Seq<(ExprId, NameTarget)>,
) -> bool {
    forall|j: int| 0 <= j < n ==> holds(#[trigger] cs[j], unifier, interner, choices)
}

/// Widening survives instantiation.
proof fn lemma_widens_instantiated(a: SortTerm, b: SortTerm, unifier: Unifier, interner: SortInterner)
    requires
        widens_to(a, b),
    ensures
        widens_to(unifier.instantiate(interner, a), unifier.instantiate(interner, b)),
{
    if a != b {
        unifier.lemma_instantiate_shapes(interner, a);
        unifier.lemma_instantiate_shapes(interner, b);
        match a {
            SortTerm::Basic(x) => {
                lemma_basic_widening(x, x);
            },
            SortTerm::Container(op, element) => {
                lemma_container_widening(op, *element, b);
                lemma_container_widening(
                    op,
                    unifier.instantiate(interner, *element),
                    unifier.instantiate(interner, b),
                );
            },
            _ => {},
        }
    }
}

/// What a node stands for after the unifier advanced and the interner grew is what it stood for
/// before, instantiated.
proof fn lemma_denote_advanced(
    u0: Unifier,
    u1: Unifier,
    i0: SortInterner,
    i1: SortInterner,
    id: InferSortId,
)
    requires
        u0.well_formed(),
        u1.well_formed(),
        i0.well_formed(),
        i1.well_formed(),
        u0.resolved_within(i0),
        u1.advanced_from(u0),
        i1.extends(i0),
        u0.contains(id),
    ensures
        u1.denote(i1, id) == u1.instantiate(i1, u0.denote(i0, id)),
{
    u0.lemma_denote_interner_grows(i0, i1, id);
    u0.lemma_resolved_within_extends(i0, i1);
    u1.lemma_advanced_denote(u0, i1, id);
}

/// A constraint that holds still holds after the unifier advanced, the interner grew and more
/// disjuncts were chosen.
proof fn lemma_holds_kept(
    c: ConstraintView,
    u0: Unifier,
    u1: Unifier,
    i0: SortInterner,
    i1: SortInterner,
    ch0: Seq<(ExprId, NameTarget)>,
    ch1: Seq<(ExprId, NameTarget)>,
    expr_count: nat,
)
    requires
        holds(c, u0, i0, ch0),
        u0.well_formed(),
        u1.well_formed(),
        i0.well_formed(),
        i1.well_formed(),
        u0.resolved_within(i0),
        u1.advanced_from(u0),
        i1.extends(i0),
        constraint_within(c, u0),
        constraint_fits(c, expr_count, i0),
        forall|x: (ExprId, NameTarget)| ch0.contains(x) ==> #[trigger] ch1.contains(x),
    ensures
        holds(c, u1, i1, ch1),
{
    match c {
        ConstraintView::Sub { lhs, rhs } => {
            lemma_denote_advanced(u0, u1, i0, i1, lhs);
            lemma_denote_advanced(u0, u1, i0, i1, rhs);
            lemma_widens_instantiated(u0.denote(i0, lhs), u0.denote(i0, rhs), u1, i1);
        },
        ConstraintView::Lit { sort, kind } => {
            lemma_denote_advanced(u0, u1, i0, i1, sort);
            u1.lemma_instantiate_shapes(i1, u0.denote(i0, sort));
        },
        ConstraintView::Disjunction { expr, sort, disjuncts } => {
            let k = choose|k: int|
                0 <= k < disjuncts.len() && ch0.contains((expr, (#[trigger] disjuncts[k]).0)) && u0.denote(i0, sort)
                    == u0.denote(i0, disjuncts[k].1);
            lemma_denote_advanced(u0, u1, i0, i1, sort);
            lemma_denote_advanced(u0, u1, i0, i1, disjuncts[k].1);
            assert(ch1.contains((expr, disjuncts[k].0)));
        },
        ConstraintView::Comprehension { body, node, element } => {
            lemma_denote_advanced(u0, u1, i0, i1, body);
            lemma_denote_advanced(u0, u1, i0, i1, node);
            i1.lemma_extends(i0, element);
            u1.lemma_instantiate_resolved(i1, element);
            u1.lemma_instantiate_shapes(i1, u0.denote(i0, body));
            u1.lemma_instantiate_shapes(i1, u0.denote(i0, node));
        },
        ConstraintView::Join { sources, target } => {
            lemma_denote_advanced(u0, u1, i0, i1, target);
            assert forall|k: int| 0 <= k < sources.len() implies widens_to(
                u1.denote(i1, #[trigger] sources[k]),
                u1.denote(i1, target),
            ) by {
                lemma_denote_advanced(u0, u1, i0, i1, sources[k]);
                lemma_widens_instantiated(u0.denote(i0, sources[k]), u0.denote(i0, target), u1, i1);
            }
        },
    }
}

/// A constraint holds alike over an interner that grew.
proof fn lemma_holds_interner_grows(
    c: ConstraintView,
    unifier: Unifier,
    i0: SortInterner,
    i1: SortInterner,
    choices: Seq<(ExprId, NameTarget)>,
    expr_count: nat,
)
    requires
        unifier.well_formed(),
        i0.well_formed(),
        i1.well_formed(),
        unifier.resolved_within(i0),
        i1.extends(i0),
        constraint_within(c, unifier),
        constraint_fits(c, expr_count, i0),
    ensures
        holds(c, unifier, i1, choices) == holds(c, unifier, i0, choices),
{
    match c {
        ConstraintView::Sub { lhs, rhs } => {
            unifier.lemma_denote_interner_grows(i0, i1, lhs);
            unifier.lemma_denote_interner_grows(i0, i1, rhs);
        },
        ConstraintView::Lit { sort, .. } => {
            unifier.lemma_denote_interner_grows(i0, i1, sort);
        },
        ConstraintView::Disjunction { expr, sort, disjuncts } => {
            unifier.lemma_denote_interner_grows(i0, i1, sort);
            assert forall|k: int| 0 <= k < disjuncts.len() implies unifier.denote(i1, #[trigger] disjuncts[k].1)
                == unifier.denote(i0, disjuncts[k].1) by {
                unifier.lemma_denote_interner_grows(i0, i1, disjuncts[k].1);
            }
            if holds(c, unifier, i0, choices) {
                let k = choose|k: int|
                    0 <= k < disjuncts.len() && choices.contains((expr, (#[trigger] disjuncts[k]).0)) && unifier.denote(
                        i0,
                        sort,
                    ) == unifier.denote(i0, disjuncts[k].1);
                assert(unifier.denote(i1, disjuncts[k].1) == unifier.denote(i0, disjuncts[k].1));
            }
            if holds(c, unifier, i1, choices) {
                let k = choose|k: int|
                    0 <= k < disjuncts.len() && choices.contains((expr, (#[trigger] disjuncts[k]).0)) && unifier.denote(
                        i1,
                        sort,
                    ) == unifier.denote(i1, disjuncts[k].1);
                assert(unifier.denote(i1, disjuncts[k].1) == unifier.denote(i0, disjuncts[k].1));
            }
        },
        ConstraintView::Comprehension { body, node, element } => {
            unifier.lemma_denote_interner_grows(i0, i1, body);
            unifier.lemma_denote_interner_grows(i0, i1, node);
            i1.lemma_extends(i0, element);
        },
        ConstraintView::Join { sources, target } => {
            unifier.lemma_denote_interner_grows(i0, i1, target);
            assert forall|k: int| 0 <= k < sources.len() implies unifier.denote(i1, #[trigger] sources[k])
                == unifier.denote(i0, sources[k]) by {
                unifier.lemma_denote_interner_grows(i0, i1, sources[k]);
            }
        },
    }
}

/// A solution of the problem is still one over an interner that grew.
proof fn lemma_candidate_kept(candidate: Candidate, problem: Problem, i0: SortInterner, i1: SortInterner)
    requires
        candidate_fits(candidate, problem, i0),
        i0.well_formed(),
        i1.well_formed(),
        i1.extends(i0),
    ensures
        candidate_fits(candidate, problem, i1),
{
    let w = candidate.witness@;
    let cs = views(problem.constraints@);
    w.lemma_resolved_within_extends(i0, i1);
    w.lemma_advanced_reflexive();
    lemma_problem_within_kept(problem, w, w, i0, i1);
    if widening_free(cs, 0) {
        lemma_lit_measure_kept(problem, problem.constraints@.len() as int, w, i0, w, i1, candidate.chosen@);
        lemma_realized_kept(problem, candidate.path@, w, i0, w, i1);
        if candidate.duplicate {
            let r = candidate.rival_witness@;
            r.lemma_resolved_within_extends(i0, i1);
            r.lemma_advanced_reflexive();
            lemma_problem_within_kept(problem, r, r, i0, i1);
            lemma_realized_kept(problem, candidate.rival_path@, r, i0, r, i1);
            lemma_lit_measure_kept_realized(problem, candidate.rival_path@, r, i0, r, i1);
        }
    }
    assert forall|j: int| 0 <= j < problem.constraints@.len() implies holds(
        #[trigger] cs[j],
        w,
        i1,
        candidate.chosen@,
    ) by {
        assert(cs[j] == problem.constraints@[j]@);
        assert(holds(cs[j], w, i0, candidate.chosen@));
        lemma_holds_interner_grows(cs[j], w, i0, i1, candidate.chosen@, problem.expr_sorts@.len());
    }
    i1.lemma_extends(i0, problem.default_sort);
    assert forall|k: int| 0 <= k < problem.expr_sorts@.len() implies i1.term(#[trigger] candidate.typing.sorts@[k])
        == defaulted(w.denote(i1, problem.expr_sorts@[k]), i1.term(problem.default_sort)) by {
        i1.lemma_extends(i0, candidate.typing.sorts@[k]);
        w.lemma_denote_interner_grows(i0, i1, problem.expr_sorts@[k]);
    }
    assert forall|k: int| 0 <= k < candidate.typing.sorts@.len() implies i1.contains(#[trigger] candidate.typing.sorts@[k]) by {
        i1.lemma_extends(i0, candidate.typing.sorts@[k]);
    }
}

/// The first `n` constraints still hold after the unifier advanced, the interner grew and more
/// disjuncts were chosen.
proof fn lemma_branch_kept(
    problem: Problem,
    n: int,
    u0: Unifier,
    u1: Unifier,
    i0: SortInterner,
    i1: SortInterner,
    ch0: Seq<(ExprId, NameTarget)>,
    ch1: Seq<(ExprId, NameTarget)>,
)
    requires
        0 <= n <= problem.constraints@.len(),
        branch_holds(views(problem.constraints@), n, u0, i0, ch0),
        problem_within(problem, u0, i0),
        u0.well_formed(),
        u1.well_formed(),
        i0.well_formed(),
        i1.well_formed(),
        u0.resolved_within(i0),
        u1.advanced_from(u0),
        i1.extends(i0),
        forall|x: (ExprId, NameTarget)| ch0.contains(x) ==> #[trigger] ch1.contains(x),
    ensures
        branch_holds(views(problem.constraints@), n, u1, i1, ch1),
{
    let cs = views(problem.constraints@);
    assert forall|j: int| 0 <= j < n implies holds(#[trigger] cs[j], u1, i1, ch1) by {
        assert(cs[j] == problem.constraints@[j]@);
        assert(holds(cs[j], u0, i0, ch0));
        assert(constraint_within(problem.constraints@[j]@, u0));
        assert(constraint_fits(problem.constraints@[j]@, problem.expr_sorts@.len(), i0));
        lemma_holds_kept(cs[j], u0, u1, i0, i1, ch0, ch1, problem.expr_sorts@.len());
    }
}

/// The first `n` sources of a join still widen to its target after the unifier advanced and the
/// interner grew.
proof fn lemma_joined_kept(
    sources: Seq<InferSortId>,
    target: InferSortId,
    n: int,
    u0: Unifier,
    u1: Unifier,
    i0: SortInterner,
    i1: SortInterner,
)
    requires
        0 <= n <= sources.len(),
        joined_up_to(sources, target, u0, i0, n),
        forall|k: int| 0 <= k < sources.len() ==> u0.contains(#[trigger] sources[k]),
        u0.contains(target),
        u0.well_formed(),
        u1.well_formed(),
        i0.well_formed(),
        i1.well_formed(),
        u0.resolved_within(i0),
        u1.advanced_from(u0),
        i1.extends(i0),
    ensures
        joined_up_to(sources, target, u1, i1, n),
{
    lemma_denote_advanced(u0, u1, i0, i1, target);
    assert forall|k: int| 0 <= k < n implies widens_to(u1.denote(i1, #[trigger] sources[k]), u1.denote(i1, target)) by {
        lemma_denote_advanced(u0, u1, i0, i1, sources[k]);
        lemma_widens_instantiated(u0.denote(i0, sources[k]), u0.denote(i0, target), u1, i1);
    }
}

} // verus!
