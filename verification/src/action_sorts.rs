//! The sort checks of the communications and renamings of a process specification: the actions
//! that a communication combines, or that a renaming renames, must have parameter sorts that
//! together fit those of the action they become.
use vstd::prelude::*;
use crate::interner::law_interned_sorts_are_equal_exactly_when_their_names_are;
use crate::interner::widens_to;
use crate::interner::lemma_widens_transitive;
use crate::interner::lemma_widens_comparable;
use crate::interner::SortInterner;
use crate::interner::SortTerm;
use crate::signature::overloads_in;
use crate::signature::Overload;
use crate::signature::OverloadTable;
use crate::signature::ResolvedSortId;
use vstd::string::StringExecFns;

verus! {

impl Overload for usize {
    fn duplicate(&self) -> (r: Self) {
        *self
    }
}

/// The declared actions: the parameter sorts of each declaration, and the declarations under
/// each action name, as positions in `action_domains`.
pub struct ActionTable {
    pub action_domains: Vec<Vec<ResolvedSortId>>,
    pub actions_by_name: OverloadTable<usize>,
}

/// The sorts of the declarations of `table`, each a list of parameter sorts.
pub open spec fn domains_of(table: &ActionTable) -> Seq<Seq<ResolvedSortId>> {
    table.action_domains@.map_values(|domain: Vec<ResolvedSortId>| domain@)
}

impl ActionTable {
    /// No name occurs twice, every declaration a name lists exists, and every parameter sort is
    /// stored in `interner`.
    pub open spec fn well_formed(&self, interner: SortInterner) -> bool {
        &&& self.actions_by_name.well_formed()
        &&& forall|name: Seq<char>, k: int|
            self.actions_by_name@.contains_key(name) && 0 <= k < self.actions_by_name@[name].len() ==> #[trigger] self.actions_by_name@[name][k]
                < self.action_domains@.len()
        &&& forall|d: int, p: int|
            0 <= d < self.action_domains@.len() && 0 <= p < self.action_domains@[d]@.len() ==> interner.contains(
                #[trigger] self.action_domains@[d]@[p],
            )
    }
}

/// Why one choice of declarations does not fit.
#[derive(Clone, Copy, Debug, PartialEq, Eq, Structural)]
pub enum SortMismatch {
    /// One of the combined actions takes `found` parameters, the resulting action `expected`.
    Arity { found: usize, expected: usize },
    /// The parameter at `position` (counted from zero) has the sort `lhs`, which does not fit
    /// the sort `rhs`.
    Incompatible { position: usize, lhs: ResolvedSortId, rhs: ResolvedSortId },
}

/// The least sort that both `a` and `b` widen to, when one of them widens to the other.
pub open spec fn joined_sort(interner: SortInterner, a: ResolvedSortId, b: ResolvedSortId) -> Option<ResolvedSortId> {
    if widens_to(interner.term(a), interner.term(b)) {
        Some(b)
    } else if widens_to(interner.term(b), interner.term(a)) {
        Some(a)
    } else {
        None
    }
}

/// The length of the first of the domains of `from`, from the `k`-th on, that does not have
/// `arity` parameters.
pub open spec fn arity_mismatch(domains: Seq<Seq<ResolvedSortId>>, from: Seq<usize>, arity: int, k: int) -> Option<
    usize,
>
    decreases from.len() - k,
{
    if k < 0 || k >= from.len() {
        None
    } else if domains[from[k] as int].len() != arity {
        Some(domains[from[k] as int].len() as usize)
    } else {
        arity_mismatch(domains, from, arity, k + 1)
    }
}

/// The join of the parameter sorts at `position` of the first `n` domains of `from`, or the first
/// pair of sorts, the join so far and the next sort, that has none.
pub open spec fn joined_at(
    interner: SortInterner,
    domains: Seq<Seq<ResolvedSortId>>,
    from: Seq<usize>,
    position: int,
    n: int,
) -> Result<ResolvedSortId, (ResolvedSortId, ResolvedSortId)>
    decreases n,
{
    if n <= 1 {
        Ok(domains[from[0] as int][position])
    } else {
        match joined_at(interner, domains, from, position, n - 1) {
            Ok(joined) => {
                let next = domains[from[n - 1] as int][position];
                match joined_sort(interner, joined, next) {
                    Some(sort) => Ok(sort),
                    None => Err((joined, next)),
                }
            },
            Err(pair) => Err(pair),
        }
    }
}

/// Whether the parameters from `position` on fit: at each, the sorts of the combined actions
/// have a join that widens to the sort of the resulting action; else the first that does not.
pub open spec fn positions_fit(
    interner: SortInterner,
    domains: Seq<Seq<ResolvedSortId>>,
    from: Seq<usize>,
    to_domain: Seq<ResolvedSortId>,
    position: int,
) -> Result<(), SortMismatch>
    decreases to_domain.len() - position,
{
    if position < 0 || position >= to_domain.len() {
        Ok(())
    } else {
        match joined_at(interner, domains, from, position, from.len() as int) {
            Err((lhs, rhs)) => Err(SortMismatch::Incompatible { position: position as usize, lhs, rhs }),
            Ok(joined) => if widens_to(interner.term(joined), interner.term(to_domain[position])) {
                positions_fit(interner, domains, from, to_domain, position + 1)
            } else {
                Err(SortMismatch::Incompatible { position: position as usize, lhs: joined, rhs: to_domain[position] })
            },
        }
    }
}

/// Whether the declarations `from` combine into the declaration `to`: they all take as many
/// parameters as `to` (else the first that does not), and the parameters fit position by
/// position.
pub open spec fn combination_fits(
    interner: SortInterner,
    domains: Seq<Seq<ResolvedSortId>>,
    from: Seq<usize>,
    to: usize,
) -> Result<(), SortMismatch> {
    let arity = domains[to as int].len();
    match arity_mismatch(domains, from, arity as int, 0) {
        Some(found) => Err(SortMismatch::Arity { found, expected: arity as usize }),
        None => positions_fit(interner, domains, from, domains[to as int], 0),
    }
}

/// The join of two stored sorts, named.
fn join_sorts(interner: &SortInterner, a: ResolvedSortId, b: ResolvedSortId) -> (r: Option<ResolvedSortId>)
    requires
        interner.well_formed(),
        interner.contains(a),
        interner.contains(b),
    ensures
        r == joined_sort(*interner, a, b),
        r matches Some(j) ==> interner.contains(j),
{
    let r = interner.join(a, b);
    proof {
        match r {
            Some(j) => {
                law_interned_sorts_are_equal_exactly_when_their_names_are(*interner, j, a);
                law_interned_sorts_are_equal_exactly_when_their_names_are(*interner, j, b);
            },
            None => {},
        }
    }
    r
}

/// Checks one choice of declarations: the combined actions `from_indices` against the resulting
/// action `to_index`.
pub fn combined_sort_matches(
    interner: &SortInterner,
    table: &ActionTable,
    from_indices: &[usize],
    to_index: usize,
) -> (r: Result<(), SortMismatch>)
    requires
        interner.well_formed(),
        table.well_formed(*interner),
        from_indices@.len() >= 1,
        to_index < table.action_domains@.len(),
        forall|k: int| 0 <= k < from_indices@.len() ==> #[trigger] from_indices@[k] < table.action_domains@.len(),
    ensures
        r == combination_fits(*interner, domains_of(table), from_indices@, to_index),
{
    let ghost domains = domains_of(table);
    let ghost from = from_indices@;
    let to_domain = &table.action_domains[to_index];
    let arity = to_domain.len();
    proof {
        assert(domains[to_index as int] == to_domain@);
    }
    let mut k: usize = 0;
    while k < from_indices.len()
        invariant
            k <= from.len(),
            from == from_indices@,
            domains == domains_of(table),
            to_index < domains.len(),
            arity == domains[to_index as int].len(),
            forall|j: int| 0 <= j < from.len() ==> #[trigger] from[j] < table.action_domains@.len(),
            arity_mismatch(domains, from, arity as int, 0) == arity_mismatch(domains, from, arity as int, k as int),
            forall|j: int| 0 <= j < k ==> #[trigger] domains[from[j] as int].len() == arity,
        decreases from_indices.len() - k,
    {
        let index = from_indices[k];
        proof {
            assert(domains[index as int] == table.action_domains@[index as int]@);
        }
        if table.action_domains[index].len() != arity {
            return Err(SortMismatch::Arity { found: table.action_domains[index].len(), expected: arity });
        }
        k = k + 1;
    }
    let mut position: usize = 0;
    while position < arity
        invariant
            position <= arity,
            from == from_indices@,
            from.len() >= 1,
            domains == domains_of(table),
            to_index < domains.len(),
            arity == domains[to_index as int].len(),
            to_domain@ == domains[to_index as int],
            interner.well_formed(),
            table.well_formed(*interner),
            to_index < table.action_domains@.len(),
            forall|j: int| 0 <= j < from.len() ==> #[trigger] from[j] < table.action_domains@.len(),
            forall|j: int| 0 <= j < from.len() ==> #[trigger] domains[from[j] as int].len() == arity,
            combination_fits(*interner, domains, from, to_index) == positions_fit(
                *interner,
                domains,
                from,
                to_domain@,
                position as int,
            ),
        decreases arity - position,
    {
        let first = from_indices[0];
        proof {
            assert(domains[first as int] == table.action_domains@[first as int]@);
            assert(domains[first as int].len() == arity);
        }
        let mut joined = table.action_domains[first][position];
        let mut j: usize = 1;
        while j < from_indices.len()
            invariant
                1 <= j <= from.len(),
                from == from_indices@,
                domains == domains_of(table),
                position < arity,
                interner.well_formed(),
                table.well_formed(*interner),
                interner.contains(joined),
                forall|m: int| 0 <= m < from.len() ==> #[trigger] from[m] < table.action_domains@.len(),
                forall|m: int| 0 <= m < from.len() ==> #[trigger] domains[from[m] as int].len() == arity,
                joined_at(*interner, domains, from, position as int, j as int) matches Ok(sort) && sort == joined,
                to_domain@ == domains[to_index as int],
                to_index < domains.len(),
                combination_fits(*interner, domains, from, to_index) == positions_fit(
                    *interner,
                    domains,
                    from,
                    to_domain@,
                    position as int,
                ),
            decreases from_indices.len() - j,
        {
            let index = from_indices[j];
            proof {
                assert(domains[index as int] == table.action_domains@[index as int]@);
                assert(domains[from[j as int] as int].len() == arity);
            }
            let candidate = table.action_domains[index][position];
            match join_sorts(interner, joined, candidate) {
                Some(sort) => {
                    joined = sort;
                },
                None => {
                    proof {
                        assert(joined_at(*interner, domains, from, position as int, j as int + 1) matches Err(pair)
                            && pair == (joined, candidate));
                        lemma_joined_at_fails(*interner, domains, from, position as int, j as int + 1);
                    }
                    return Err(SortMismatch::Incompatible { position, lhs: joined, rhs: candidate });
                },
            }
            j = j + 1;
        }
        let expected = to_domain[position];
        proof {
            assert(table.action_domains@[to_index as int]@[position as int] == expected);
        }
        if !interner_widens(interner, joined, expected) {
            return Err(SortMismatch::Incompatible { position, lhs: joined, rhs: expected });
        }
        position = position + 1;
    }
    Ok(())
}

/// Every sort that enters a join widens to it.
proof fn lemma_joined_at_bounds(
    interner: SortInterner,
    domains: Seq<Seq<ResolvedSortId>>,
    from: Seq<usize>,
    position: int,
    n: int,
    k: int,
)
    requires
        1 <= n <= from.len(),
        0 <= k < n,
        joined_at(interner, domains, from, position, n) is Ok,
    ensures
        widens_to(
            interner.term(domains[from[k] as int][position]),
            interner.term(joined_at(interner, domains, from, position, n)->Ok_0),
        ),
    decreases n,
{
    let sort = interner.term(domains[from[k] as int][position]);
    if n > 1 {
        let before = joined_at(interner, domains, from, position, n - 1);
        let next = domains[from[n - 1] as int][position];
        let joined = before->Ok_0;
        let result = joined_at(interner, domains, from, position, n)->Ok_0;
        if k < n - 1 {
            lemma_joined_at_bounds(interner, domains, from, position, n - 1, k);
            if result != joined {
                lemma_widens_transitive(sort, interner.term(joined), interner.term(result));
            }
        }
    }
}

/// The parameters that fit from `position` on fit at every later position: all the combined
/// sorts there join, and the join widens to the resulting action's sort.
proof fn lemma_positions_fit_at(
    interner: SortInterner,
    domains: Seq<Seq<ResolvedSortId>>,
    from: Seq<usize>,
    to_domain: Seq<ResolvedSortId>,
    position: int,
    p: int,
)
    requires
        0 <= position <= p < to_domain.len(),
        positions_fit(interner, domains, from, to_domain, position) is Ok,
    ensures
        joined_at(interner, domains, from, p, from.len() as int) is Ok,
        widens_to(
            interner.term(joined_at(interner, domains, from, p, from.len() as int)->Ok_0),
            interner.term(to_domain[p]),
        ),
    decreases p - position,
{
    if position < p {
        lemma_positions_fit_at(interner, domains, from, to_domain, position + 1, p);
    }
}

/// Combined actions fit a resulting action only if, at every parameter position, the sort of
/// each combined action widens to the resulting action's sort there.
pub proof fn law_fitting_actions_widen_to_the_result(
    interner: SortInterner,
    domains: Seq<Seq<ResolvedSortId>>,
    from: Seq<usize>,
    to: usize,
    k: int,
    p: int,
)
    requires
        1 <= from.len(),
        0 <= k < from.len(),
        0 <= to < domains.len(),
        0 <= p < domains[to as int].len(),
        combination_fits(interner, domains, from, to) is Ok,
    ensures
        widens_to(interner.term(domains[from[k] as int][p]), interner.term(domains[to as int][p])),
{
    let to_domain = domains[to as int];
    lemma_positions_fit_at(interner, domains, from, to_domain, 0, p);
    lemma_joined_at_bounds(interner, domains, from, p, from.len() as int, k);
    lemma_widens_transitive(
        interner.term(domains[from[k] as int][p]),
        interner.term(joined_at(interner, domains, from, p, from.len() as int)->Ok_0),
        interner.term(to_domain[p]),
    );
}

/// Where each of the sorts at `position` of the first `n` domains widens to `t`, they have a join,
/// and it widens to `t`.
proof fn lemma_joined_at_below(
    interner: SortInterner,
    domains: Seq<Seq<ResolvedSortId>>,
    from: Seq<usize>,
    position: int,
    n: int,
    t: SortTerm,
)
    requires
        1 <= n <= from.len(),
        forall|k: int| 0 <= k < n ==> widens_to(interner.term(#[trigger] domains[from[k] as int][position]), t),
    ensures
        joined_at(interner, domains, from, position, n) is Ok,
        widens_to(interner.term(joined_at(interner, domains, from, position, n)->Ok_0), t),
    decreases n,
{
    if n > 1 {
        lemma_joined_at_below(interner, domains, from, position, n - 1, t);
        let joined = joined_at(interner, domains, from, position, n - 1)->Ok_0;
        let next = domains[from[n - 1] as int][position];
        lemma_widens_comparable(interner.term(joined), interner.term(next), t);
    } else {
        assert(widens_to(interner.term(domains[from[0] as int][position]), t));
    }
}

/// Where every domain of `from`, from the `k`-th on, has `arity` parameters, none mismatches.
proof fn lemma_arity_matches(domains: Seq<Seq<ResolvedSortId>>, from: Seq<usize>, arity: int, k: int)
    requires
        0 <= k,
        forall|j: int| k <= j < from.len() ==> #[trigger] domains[from[j] as int].len() == arity,
    ensures
        arity_mismatch(domains, from, arity, k) is None,
    decreases from.len() - k,
{
    if k < from.len() {
        lemma_arity_matches(domains, from, arity, k + 1);
    }
}

/// Where, from `position` on, every sort of the combined actions widens to the resulting action's
/// sort, the parameters fit.
proof fn lemma_positions_fit_below(
    interner: SortInterner,
    domains: Seq<Seq<ResolvedSortId>>,
    from: Seq<usize>,
    to_domain: Seq<ResolvedSortId>,
    position: int,
)
    requires
        1 <= from.len(),
        0 <= position,
        forall|k: int, p: int|
            0 <= k < from.len() && position <= p < to_domain.len() ==> widens_to(
                interner.term(#[trigger] domains[from[k] as int][p]),
                interner.term(to_domain[p]),
            ),
    ensures
        positions_fit(interner, domains, from, to_domain, position) is Ok,
    decreases to_domain.len() - position,
{
    if position < to_domain.len() {
        lemma_joined_at_below(interner, domains, from, position, from.len() as int, interner.term(to_domain[position]));
        lemma_positions_fit_below(interner, domains, from, to_domain, position + 1);
    }
}

/// Combined actions that take as many parameters as the resulting action, and whose sorts each
/// widen, at every parameter position, to the resulting action's sort there, fit it.
pub proof fn law_widening_actions_fit(
    interner: SortInterner,
    domains: Seq<Seq<ResolvedSortId>>,
    from: Seq<usize>,
    to: usize,
)
    requires
        1 <= from.len(),
        0 <= to < domains.len(),
        forall|k: int| 0 <= k < from.len() ==> #[trigger] domains[from[k] as int].len() == domains[to as int].len(),
        forall|k: int, p: int|
            0 <= k < from.len() && 0 <= p < domains[to as int].len() ==> widens_to(
                interner.term(#[trigger] domains[from[k] as int][p]),
                interner.term(domains[to as int][p]),
            ),
    ensures
        combination_fits(interner, domains, from, to) is Ok,
{
    lemma_arity_matches(domains, from, domains[to as int].len() as int, 0);
    lemma_positions_fit_below(interner, domains, from, domains[to as int], 0);
}

/// Once the join fails for the first `n` domains, it fails for all of them, at the same pair.
proof fn lemma_joined_at_fails(
    interner: SortInterner,
    domains: Seq<Seq<ResolvedSortId>>,
    from: Seq<usize>,
    position: int,
    n: int,
)
    requires
        1 <= n <= from.len(),
        joined_at(interner, domains, from, position, n) is Err,
    ensures
        joined_at(interner, domains, from, position, from.len() as int) == joined_at(
            interner,
            domains,
            from,
            position,
            n,
        ),
    decreases from.len() - n,
{
    if n < from.len() {
        lemma_joined_at_fails(interner, domains, from, position, n + 1);
    }
}

/// Whether the sort `a` widens to the sort `b`.
fn interner_widens(interner: &SortInterner, a: ResolvedSortId, b: ResolvedSortId) -> (r: bool)
    requires
        interner.well_formed(),
        interner.contains(a),
        interner.contains(b),
    ensures
        r == widens_to(interner.term(a), interner.term(b)),
{
    match join_sorts(interner, a, b) {
        Some(j) => {
            proof {
                law_interned_sorts_are_equal_exactly_when_their_names_are(*interner, a, b);
            }
            j == b
        },
        None => false,
    }
}

/// `choice` picks one declaration from each of the lists `options`.
pub open spec fn picks(options: Seq<Seq<usize>>, choice: Seq<usize>) -> bool {
    &&& choice.len() == options.len()
    &&& forall|k: int| 0 <= k < options.len() ==> #[trigger] options[k].contains(choice[k])
}

/// Some pick from the lists `options` from the `depth`-th on, after the declarations `chosen`,
/// combines into one of the declarations `to_options`.
pub open spec fn some_combination_fits(
    interner: SortInterner,
    domains: Seq<Seq<ResolvedSortId>>,
    options: Seq<Seq<usize>>,
    depth: int,
    chosen: Seq<usize>,
    to_options: Seq<usize>,
) -> bool {
    exists|rest: Seq<usize>, to: usize|
        #![trigger picks(options.skip(depth), rest), to_options.contains(to)]
        picks(options.skip(depth), rest) && to_options.contains(to) && combination_fits(
            interner,
            domains,
            chosen + rest,
            to,
        ) is Ok
}

/// The first declaration of each list.
pub open spec fn first_pick(options: Seq<Seq<usize>>) -> Seq<usize> {
    options.map_values(|o: Seq<usize>| o[0])
}

/// The mismatch of the first combination tried: the first declaration of each list after
/// `chosen`, into the first of `to_options`; none when a list is empty.
pub open spec fn first_mismatch(
    interner: SortInterner,
    domains: Seq<Seq<ResolvedSortId>>,
    options: Seq<Seq<usize>>,
    depth: int,
    chosen: Seq<usize>,
    to_options: Seq<usize>,
) -> Option<SortMismatch> {
    if (forall|k: int| depth <= k < options.len() ==> #[trigger] options[k].len() > 0) && to_options.len() > 0 {
        match combination_fits(interner, domains, chosen + first_pick(options.skip(depth)), to_options[0]) {
            Err(mismatch) => Some(mismatch),
            Ok(_) => None,
        }
    } else {
        None
    }
}

/// Every declaration in `lists` exists in the table.
pub open spec fn indices_within(lists: Seq<Seq<usize>>, count: nat) -> bool {
    forall|k: int, m: int| 0 <= k < lists.len() && 0 <= m < lists[k].len() ==> #[trigger] lists[k][m] < count
}

/// Tries every combination of one declaration per list of `options`, from the `depth`-th on and
/// after the declarations `chosen`, in order, against each declaration of `to_options`, and
/// returns whether one fits. The mismatch of the first combination tried is kept in `reason`,
/// unless it already holds one.
pub fn try_from_overloads(
    interner: &SortInterner,
    table: &ActionTable,
    options: &Vec<Vec<usize>>,
    depth: usize,
    chosen: &mut Vec<usize>,
    to_options: &Vec<usize>,
    reason: &mut Option<SortMismatch>,
) -> (r: bool)
    requires
        interner.well_formed(),
        table.well_formed(*interner),
        depth <= options.len(),
        old(chosen)@.len() == depth,
        options@.len() >= 1,
        indices_within(options@.map_values(|o: Vec<usize>| o@), table.action_domains@.len()),
        forall|k: int| 0 <= k < old(chosen)@.len() ==> #[trigger] old(chosen)@[k] < table.action_domains@.len(),
        forall|m: int| 0 <= m < to_options@.len() ==> #[trigger] to_options@[m] < table.action_domains@.len(),
    ensures
        final(chosen)@ == old(chosen)@,
        r == some_combination_fits(
            *interner,
            domains_of(table),
            options@.map_values(|o: Vec<usize>| o@),
            depth as int,
            old(chosen)@,
            to_options@,
        ),
        *old(reason) is Some ==> *final(reason) == *old(reason),
        *old(reason) is None && !r ==> *final(reason) == first_mismatch(
            *interner,
            domains_of(table),
            options@.map_values(|o: Vec<usize>| o@),
            depth as int,
            old(chosen)@,
            to_options@,
        ),
    decreases options@.len() - depth,
{
    let ghost lists = options@.map_values(|o: Vec<usize>| o@);
    let ghost domains = domains_of(table);
    let ghost start = chosen@;
    if depth == options.len() {
        proof {
            assert(lists.skip(depth as int) =~= Seq::<Seq<usize>>::empty());
            assert(first_pick(lists.skip(depth as int)) =~= Seq::<usize>::empty());
            assert(start + Seq::<usize>::empty() =~= start);
        }
        let mut t: usize = 0;
        while t < to_options.len()
            invariant
                t <= to_options@.len(),
                chosen@ == start,
                start.len() == depth,
                depth == options@.len(),
                options@.len() >= 1,
                lists == options@.map_values(|o: Vec<usize>| o@),
                domains == domains_of(table),
                interner.well_formed(),
                table.well_formed(*interner),
                forall|k: int| 0 <= k < start.len() ==> #[trigger] start[k] < table.action_domains@.len(),
                forall|m: int| 0 <= m < to_options@.len() ==> #[trigger] to_options@[m] < table.action_domains@.len(),
                forall|m: int| 0 <= m < t ==> combination_fits(*interner, domains, start, #[trigger] to_options@[m]) is Err,
                *old(reason) is Some ==> *reason == *old(reason),
                *old(reason) is None ==> *reason == (if t > 0 {
                    first_mismatch(*interner, domains, lists, depth as int, start, to_options@)
                } else {
                    None
                }),
            decreases to_options.len() - t,
        {
            match combined_sort_matches(interner, table, chosen.as_slice(), to_options[t]) {
                Ok(()) => {
                    proof {
                        let rest = Seq::<usize>::empty();
                        assert(picks(lists.skip(depth as int), rest));
                        assert(to_options@.contains(to_options@[t as int]));
                        assert(start + rest =~= start);
                    }
                    return true;
                },
                Err(mismatch) => {
                    if reason.is_none() {
                        *reason = Some(mismatch);
                    }
                },
            }
            t = t + 1;
        }
        proof {
            assert forall|rest: Seq<usize>, to: usize|
                #![trigger picks(lists.skip(depth as int), rest), to_options@.contains(to)]
                picks(lists.skip(depth as int), rest) && to_options@.contains(to) implies combination_fits(
                *interner,
                domains,
                start + rest,
                to,
            ) is Err by {
                assert(rest =~= Seq::<usize>::empty());
                assert(start + rest =~= start);
                let m = choose|m: int| 0 <= m < to_options@.len() && to_options@[m] == to;
                assert(combination_fits(*interner, domains, start, to_options@[m]) is Err);
            }
        }
        return false;
    }
    proof {
        assert(lists[depth as int] == options@[depth as int]@);
    }
    let mut i: usize = 0;
    while i < options[depth].len()
        invariant
            i <= lists[depth as int].len(),
            depth < options.len(),
            options@.len() >= 1,
            chosen@ == start,
            start == old(chosen)@,
            start.len() == depth,
            lists == options@.map_values(|o: Vec<usize>| o@),
            lists[depth as int] == options@[depth as int]@,
            domains == domains_of(table),
            interner.well_formed(),
            table.well_formed(*interner),
            indices_within(lists, table.action_domains@.len()),
            forall|k: int| 0 <= k < start.len() ==> #[trigger] start[k] < table.action_domains@.len(),
            forall|m: int| 0 <= m < to_options@.len() ==> #[trigger] to_options@[m] < table.action_domains@.len(),
            forall|m: int|
                0 <= m < i ==> !some_combination_fits(
                    *interner,
                    domains,
                    lists,
                    depth + 1,
                    start.push(#[trigger] lists[depth as int][m]),
                    to_options@,
                ),
            *old(reason) is Some ==> *reason == *old(reason),
            *old(reason) is None ==> *reason == (if i > 0 {
                first_mismatch(*interner, domains, lists, depth as int, start, to_options@)
            } else {
                None
            }),
        decreases options@[depth as int]@.len() - i,
    {
        let index = options[depth][i];
        proof {
            assert(lists[depth as int][i as int] == index);
            assert(index < table.action_domains@.len());
        }
        chosen.push(index);
        let ghost before = *reason;
        let matched = try_from_overloads(interner, table, options, depth + 1, chosen, to_options, reason);
        chosen.pop();
        proof {
            assert(chosen@ =~= start);
            lemma_first_mismatch_step(*interner, domains, lists, depth as int, start, to_options@);
            if i > 0 && before is None && !matched {
                let first = lists[depth as int][0];
                let cond = (forall|k: int| depth + 1 <= k < lists.len() ==> #[trigger] lists[k].len() > 0)
                    && to_options@.len() > 0;
                if cond {
                    lemma_first_pick_fits(*interner, domains, lists, depth as int + 1, start.push(first), to_options@);
                    assert(!some_combination_fits(*interner, domains, lists, depth + 1, start.push(first), to_options@));
                }
            }
        }
        if matched {
            proof {
                let pushed = start.push(index);
                let (rest, to) = choose|rest: Seq<usize>, to: usize|
                    picks(lists.skip(depth + 1), rest) && to_options@.contains(to) && combination_fits(
                        *interner,
                        domains,
                        pushed + rest,
                        to,
                    ) is Ok;
                let whole = seq![index] + rest;
                assert(lists.skip(depth as int)[0] == lists[depth as int]);
                assert forall|k: int| 0 <= k < lists.skip(depth as int).len() implies #[trigger] lists.skip(
                    depth as int,
                )[k].contains(whole[k]) by {
                    if k == 0 {
                        assert(lists[depth as int][i as int] == index);
                    } else {
                        assert(lists.skip(depth as int)[k] == lists.skip(depth + 1)[k - 1]);
                        assert(whole[k] == rest[k - 1]);
                        assert(lists.skip(depth + 1)[k - 1].contains(rest[k - 1]));
                    }
                }
                assert(picks(lists.skip(depth as int), whole));
                assert(start + whole =~= pushed + rest);
            }
            return true;
        }
        i = i + 1;
    }
    proof {
        assert forall|rest: Seq<usize>, to: usize|
            #![trigger picks(lists.skip(depth as int), rest), to_options@.contains(to)]
            picks(lists.skip(depth as int), rest) && to_options@.contains(to) implies combination_fits(
            *interner,
            domains,
            start + rest,
            to,
        ) is Err by {
            assert(lists.skip(depth as int)[0] == lists[depth as int]);
            assert(lists.skip(depth as int)[0].contains(rest[0]));
            let m = choose|m: int| 0 <= m < lists[depth as int].len() && lists[depth as int][m] == rest[0];
            let tail = rest.skip(1);
            assert forall|k: int| 0 <= k < lists.skip(depth + 1).len() implies #[trigger] lists.skip(depth + 1)[k].contains(
                tail[k],
            ) by {
                assert(lists.skip(depth + 1)[k] == lists.skip(depth as int)[k + 1]);
                assert(lists.skip(depth as int)[k + 1].contains(rest[k + 1]));
            }
            assert(picks(lists.skip(depth + 1), tail));
            assert(start.push(rest[0]) + tail =~= start + rest);
            assert(!some_combination_fits(*interner, domains, lists, depth + 1, start.push(lists[depth as int][m]), to_options@));
        }
    }
    false
}

/// When the first combination tried fits, some combination does.
proof fn lemma_first_pick_fits(
    interner: SortInterner,
    domains: Seq<Seq<ResolvedSortId>>,
    lists: Seq<Seq<usize>>,
    depth: int,
    chosen: Seq<usize>,
    to_options: Seq<usize>,
)
    requires
        0 <= depth <= lists.len(),
        forall|k: int| depth <= k < lists.len() ==> #[trigger] lists[k].len() > 0,
        to_options.len() > 0,
    ensures
        combination_fits(interner, domains, chosen + first_pick(lists.skip(depth)), to_options[0]) is Ok
            ==> some_combination_fits(interner, domains, lists, depth, chosen, to_options),
{
    let rest = first_pick(lists.skip(depth));
    assert forall|k: int| 0 <= k < lists.skip(depth).len() implies #[trigger] lists.skip(depth)[k].contains(rest[k]) by {
        assert(lists.skip(depth)[k] == lists[depth + k]);
        assert(lists[depth + k].len() > 0);
        assert(lists.skip(depth)[k][0] == rest[k]);
    }
    assert(picks(lists.skip(depth), rest));
    assert(to_options.contains(to_options[0]));
}

/// The first combination tried from one list on is that of the first declaration of the list,
/// followed by the first combination tried from the next list on.
proof fn lemma_first_mismatch_step(
    interner: SortInterner,
    domains: Seq<Seq<ResolvedSortId>>,
    lists: Seq<Seq<usize>>,
    depth: int,
    start: Seq<usize>,
    to_options: Seq<usize>,
)
    requires
        0 <= depth < lists.len(),
        lists[depth].len() > 0,
    ensures
        first_mismatch(interner, domains, lists, depth, start, to_options) == first_mismatch(
            interner,
            domains,
            lists,
            depth + 1,
            start.push(lists[depth][0]),
            to_options,
        ),
        forall|x: usize|
            first_mismatch(interner, domains, lists, depth + 1, start.push(x), to_options) is None && (forall|
                k: int,
            |
                depth + 1 <= k < lists.len() ==> #[trigger] lists[k].len() > 0) && to_options.len() > 0
                ==> #[trigger] combination_fits(
                interner,
                domains,
                start.push(x) + first_pick(lists.skip(depth + 1)),
                to_options[0],
            ) is Ok,
{
    assert(first_pick(lists.skip(depth)) =~= seq![lists[depth][0]] + first_pick(lists.skip(depth + 1)));
    assert(start + first_pick(lists.skip(depth)) =~= start.push(lists[depth][0]) + first_pick(lists.skip(depth + 1)));
    assert((forall|k: int| depth <= k < lists.len() ==> #[trigger] lists[k].len() > 0) == (forall|k: int|
        depth + 1 <= k < lists.len() ==> #[trigger] lists[k].len() > 0));
}

/// Why a communication or a renaming does not fit the declared actions.
#[derive(Debug)]
pub enum ProcessError {
    /// No choice of declarations of the combined actions `lhs`, written `a|b|...`, fits a
    /// declaration of the resulting action `result`; `reason` is the mismatch of the first choice
    /// tried, when one was tried.
    IncompatibleCommunication { lhs: String, result: String, reason: Option<SortMismatch> },
    /// No declaration of the action `from` fits a declaration of the action `to`; `reason` is the
    /// mismatch of the first pair tried, when one was tried.
    IncompatibleRename { from: String, to: String, reason: Option<SortMismatch> },
}

/// The names, separated by `|`.
pub open spec fn bar_separated(names: Seq<Seq<char>>) -> Seq<char>
    decreases names.len(),
{
    if names.len() == 0 {
        Seq::empty()
    } else if names.len() == 1 {
        names[0]
    } else {
        bar_separated(names.drop_last()) + seq!['|'] + names.last()
    }
}

/// The declarations of the action `name`, none when it is not declared.
pub open spec fn declarations_of(table: &ActionTable, name: Seq<char>) -> Seq<usize> {
    overloads_in(table.actions_by_name@, name)
}

/// The declarations of the action `name`, as a list of their own.
fn declarations(table: &ActionTable, name: &String) -> (r: Vec<usize>)
    requires
        table.actions_by_name.well_formed(),
    ensures
        r@ == declarations_of(table, name@),
{
    let mut copy: Vec<usize> = Vec::new();
    match table.actions_by_name.get(name) {
        Some(indices) => {
            let mut k: usize = 0;
            while k < indices.len()
                invariant
                    k <= indices@.len(),
                    copy@ == indices@.take(k as int),
                decreases indices.len() - k,
            {
                copy.push(indices[k]);
                proof {
                    assert(copy@ =~= indices@.take(k as int + 1));
                }
                k = k + 1;
            }
            proof {
                assert(copy@ =~= indices@);
                assert(crate::signature::overload_views(indices@) =~= indices@);
            }
        },
        None => {
            proof {
                assert(copy@ =~= Seq::<usize>::empty());
            }
        },
    }
    copy
}

/// Checks that the actions `from_names` that a communication combines have declarations whose
/// parameter sorts together fit a declaration of the resulting action `to_name`: some choice of
/// one declaration per combined action, taken in order, has the arity of a declaration of the
/// result and, at each parameter, sorts whose join widens to the result's sort.
pub fn check_comm_sorts(
    interner: &SortInterner,
    table: &ActionTable,
    from_names: &Vec<String>,
    to_name: &String,
) -> (r: Result<(), ProcessError>)
    requires
        interner.well_formed(),
        table.well_formed(*interner),
        from_names@.len() >= 1,
    ensures
        ({
            let options = from_names@.map_values(|name: String| declarations_of(table, name@));
            let to_options = declarations_of(table, to_name@);
            let fits = some_combination_fits(
                *interner,
                domains_of(table),
                options,
                0,
                Seq::empty(),
                to_options,
            );
            match r {
                Ok(()) => fits,
                Err(ProcessError::IncompatibleCommunication { lhs, result, reason }) => {
                    &&& !fits
                    &&& lhs@ == bar_separated(from_names@.map_values(|name: String| name@))
                    &&& result@ == to_name@
                    &&& reason == first_mismatch(
                        *interner,
                        domains_of(table),
                        options,
                        0,
                        Seq::empty(),
                        to_options,
                    )
                },
                Err(_) => false,
            }
        }),
{
    let ghost options = from_names@.map_values(|name: String| declarations_of(table, name@));
    let mut from_options: Vec<Vec<usize>> = Vec::new();
    let mut k: usize = 0;
    while k < from_names.len()
        invariant
            k <= from_names@.len(),
            table.actions_by_name.well_formed(),
            options == from_names@.map_values(|name: String| declarations_of(table, name@)),
            from_options@.len() == k,
            from_options@.map_values(|o: Vec<usize>| o@) == options.take(k as int),
        decreases from_names.len() - k,
    {
        let found = declarations(table, &from_names[k]);
        let ghost before = from_options@;
        proof {
            assert(options[k as int] == declarations_of(table, from_names@[k as int]@));
        }
        from_options.push(found);
        proof {
            let views = from_options@.map_values(|o: Vec<usize>| o@);
            assert forall|j: int| 0 <= j < k + 1 implies views[j] == options.take(k as int + 1)[j] by {
                if j < k {
                    assert(from_options@[j] == before[j]);
                    assert(before.map_values(|o: Vec<usize>| o@)[j] == options.take(k as int)[j]);
                }
            }
            assert(views =~= options.take(k as int + 1));
        }
        k = k + 1;
    }
    proof {
        assert(options.take(from_names@.len() as int) =~= options);
        let lists = from_options@.map_values(|o: Vec<usize>| o@);
        assert forall|a: int, m: int| 0 <= a < lists.len() && 0 <= m < lists[a].len() implies #[trigger] lists[a][m]
            < table.action_domains@.len() by {
            assert(lists[a] == declarations_of(table, from_names@[a]@));
            if table.actions_by_name@.contains_key(from_names@[a]@) {
                assert(table.actions_by_name@[from_names@[a]@][m] == lists[a][m]);
            }
        }
    }
    let to_options = declarations(table, to_name);
    proof {
        assert forall|m: int| 0 <= m < to_options@.len() implies #[trigger] to_options@[m] < table.action_domains@.len() by {
            if table.actions_by_name@.contains_key(to_name@) {
                assert(table.actions_by_name@[to_name@][m] == to_options@[m]);
            }
        }
    }
    let mut chosen: Vec<usize> = Vec::new();
    let mut reason: Option<SortMismatch> = None;
    if try_from_overloads(interner, table, &from_options, 0, &mut chosen, &to_options, &mut reason) {
        return Ok(());
    }
    let mut lhs = String::new();
    let ghost names = from_names@.map_values(|name: String| name@);
    let mut k: usize = 0;
    while k < from_names.len()
        invariant
            k <= from_names@.len(),
            names == from_names@.map_values(|name: String| name@),
            lhs@ == bar_separated(names.take(k as int)),
        decreases from_names.len() - k,
    {
        proof {
            assert(names.take(k as int + 1).drop_last() =~= names.take(k as int));
            assert(names.take(k as int + 1).last() == from_names@[k as int]@);
        }
        if k > 0 {
            proof {
                reveal_strlit("|");
            }
            lhs.append("|");
        }
        lhs.append(from_names[k].as_str());
        proof {
            if k == 0 {
                assert(lhs@ =~= bar_separated(names.take(1)));
            } else {
                assert(lhs@ =~= bar_separated(names.take(k as int + 1)));
            }
        }
        k = k + 1;
    }
    proof {
        assert(names.take(from_names@.len() as int) =~= names);
    }
    Err(ProcessError::IncompatibleCommunication { lhs, result: to_name.clone(), reason })
}

/// Checks that the action `from_name` that a renaming renames has a declaration whose parameter
/// sorts fit those of a declaration of the action `to_name`: as many parameters, each widening to
/// the corresponding one.
pub fn check_rename_sorts(
    interner: &SortInterner,
    table: &ActionTable,
    from_name: &String,
    to_name: &String,
) -> (r: Result<(), ProcessError>)
    requires
        interner.well_formed(),
        table.well_formed(*interner),
    ensures
        ({
            let from_options = declarations_of(table, from_name@);
            let to_options = declarations_of(table, to_name@);
            let fits = exists|f: usize, t: usize|
                from_options.contains(f) && to_options.contains(t) && #[trigger] combination_fits(
                    *interner,
                    domains_of(table),
                    seq![f],
                    t,
                ) is Ok;
            match r {
                Ok(()) => fits,
                Err(ProcessError::IncompatibleRename { from, to, reason }) => {
                    &&& !fits
                    &&& from@ == from_name@
                    &&& to@ == to_name@
                    &&& reason == if from_options.len() > 0 && to_options.len() > 0 {
                        match combination_fits(*interner, domains_of(table), seq![from_options[0]], to_options[0]) {
                            Err(mismatch) => Some(mismatch),
                            Ok(_) => None,
                        }
                    } else {
                        None
                    }
                },
                Err(_) => false,
            }
        }),
{
    let from_options = declarations(table, from_name);
    let to_options = declarations(table, to_name);
    let ghost domains = domains_of(table);
    proof {
        assert forall|m: int| 0 <= m < from_options@.len() implies #[trigger] from_options@[m] < table.action_domains@.len() by {
            if table.actions_by_name@.contains_key(from_name@) {
                assert(table.actions_by_name@[from_name@][m] == from_options@[m]);
            }
        }
        assert forall|m: int| 0 <= m < to_options@.len() implies #[trigger] to_options@[m] < table.action_domains@.len() by {
            if table.actions_by_name@.contains_key(to_name@) {
                assert(table.actions_by_name@[to_name@][m] == to_options@[m]);
            }
        }
    }
    let mut reason: Option<SortMismatch> = None;
    let mut f: usize = 0;
    while f < from_options.len()
        invariant
            f <= from_options@.len(),
            domains == domains_of(table),
            from_options@ == declarations_of(table, from_name@),
            to_options@ == declarations_of(table, to_name@),
            interner.well_formed(),
            table.well_formed(*interner),
            forall|m: int| 0 <= m < from_options@.len() ==> #[trigger] from_options@[m] < table.action_domains@.len(),
            forall|m: int| 0 <= m < to_options@.len() ==> #[trigger] to_options@[m] < table.action_domains@.len(),
            forall|a: int, b: int|
                0 <= a < f && 0 <= b < to_options@.len() ==> combination_fits(
                    *interner,
                    domains,
                    seq![#[trigger] from_options@[a]],
                    #[trigger] to_options@[b],
                ) is Err,
            reason == if f > 0 && to_options@.len() > 0 {
                match combination_fits(*interner, domains, seq![from_options@[0]], to_options@[0]) {
                    Err(mismatch) => Some(mismatch),
                    Ok(_) => None,
                }
            } else {
                None
            },
        decreases from_options.len() - f,
    {
        let mut t: usize = 0;
        while t < to_options.len()
            invariant
                t <= to_options@.len(),
                f < from_options@.len(),
                domains == domains_of(table),
                from_options@ == declarations_of(table, from_name@),
                to_options@ == declarations_of(table, to_name@),
                interner.well_formed(),
                table.well_formed(*interner),
                forall|m: int| 0 <= m < from_options@.len() ==> #[trigger] from_options@[m] < table.action_domains@.len(),
                forall|m: int| 0 <= m < to_options@.len() ==> #[trigger] to_options@[m] < table.action_domains@.len(),
                forall|a: int, b: int|
                    0 <= a < f && 0 <= b < to_options@.len() ==> combination_fits(
                        *interner,
                        domains,
                        seq![#[trigger] from_options@[a]],
                        #[trigger] to_options@[b],
                    ) is Err,
                forall|b: int|
                    0 <= b < t ==> combination_fits(
                        *interner,
                        domains,
                        seq![from_options@[f as int]],
                        #[trigger] to_options@[b],
                    ) is Err,
                reason == if (f > 0 || t > 0) && to_options@.len() > 0 {
                    match combination_fits(*interner, domains, seq![from_options@[0]], to_options@[0]) {
                        Err(mismatch) => Some(mismatch),
                        Ok(_) => None,
                    }
                } else {
                    None
                },
            decreases to_options.len() - t,
        {
            let single = [from_options[f]];
            proof {
                assert(single@ =~= seq![from_options@[f as int]]);
            }
            match combined_sort_matches(interner, table, &single, to_options[t]) {
                Ok(()) => {
                    proof {
                        assert(from_options@.contains(from_options@[f as int]));
                        assert(to_options@.contains(to_options@[t as int]));
                        assert(combination_fits(
                            *interner,
                            domains_of(table),
                            seq![from_options@[f as int]],
                            to_options@[t as int],
                        ) is Ok);
                    }
                    return Ok(());
                },
                Err(mismatch) => {
                    if reason.is_none() {
                        reason = Some(mismatch);
                    }
                },
            }
            t = t + 1;
        }
        f = f + 1;
    }
    proof {
        assert forall|a: usize, b: usize|
            from_options@.contains(a) && to_options@.contains(b) implies #[trigger] combination_fits(
            *interner,
            domains,
            seq![a],
            b,
        ) is Err by {
            let x = choose|x: int| 0 <= x < from_options@.len() && from_options@[x] == a;
            let y = choose|y: int| 0 <= y < to_options@.len() && to_options@[y] == b;
            assert(combination_fits(*interner, domains, seq![from_options@[x]], to_options@[y]) is Err);
        }
    }
    Err(ProcessError::IncompatibleRename { from: from_name.clone(), to: to_name.clone(), reason })
}

} // verus!
