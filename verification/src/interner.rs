//! The interned lattice of resolved sorts: every sort is stored once, after its parts, and is
//! named by its position, so two resolved sorts are equal exactly when their names are.
use vstd::prelude::*;
use crate::signature::ResolvedSortId;
use crate::sorts::ComplexSort;
use crate::sorts::Direction;
use crate::sorts::Sort;
use crate::sorts::number_generality;
use crate::sorts::related_container;
use crate::sorts::spec_number_generality;
use crate::sorts::spec_number_sort;
use crate::sorts::spec_related_container;
use crate::sorts::spec_related_numbers;
use crate::unification::related_terms;

verus! {

/// A resolved sort, with its parts named by their positions in the interner.
#[derive(Debug)]
pub enum ResolvedSort {
    /// A basic sort.
    Primitive(Sort),
    /// A container of elements of `subsort`.
    Container { op: ComplexSort, subsort: ResolvedSortId },
    /// A function sort.
    Function { domain: Vec<ResolvedSortId>, range: ResolvedSortId },
}

/// What a sort stands for, written out in full; a `Variable` is a sort still to be inferred.
pub enum SortTerm {
    Basic(Sort),
    Container(ComplexSort, Box<SortTerm>),
    Function(Seq<SortTerm>, Box<SortTerm>),
    Variable(usize),
}

/// The parts of every sort are stored before it.
pub open spec fn parts_precede(sorts: Seq<ResolvedSort>) -> bool {
    forall|n: int|
        #![trigger sorts[n]]
        0 <= n < sorts.len() ==> match sorts[n] {
            ResolvedSort::Primitive(_) => true,
            ResolvedSort::Container { subsort, .. } => subsort.index < n,
            ResolvedSort::Function { domain, range } => range.index < n && forall|i: int|
                0 <= i < domain@.len() ==> #[trigger] domain@[i].index < n,
        }
}

/// The term of the sort stored at `n`.
pub open spec fn resolved_term(sorts: Seq<ResolvedSort>, n: int) -> SortTerm
    decreases n,
    when parts_precede(sorts) && 0 <= n < sorts.len()
{
    match sorts[n] {
        ResolvedSort::Primitive(sort) => SortTerm::Basic(sort),
        ResolvedSort::Container { op, subsort } => SortTerm::Container(
            op,
            Box::new(resolved_term(sorts, subsort.index as int)),
        ),
        ResolvedSort::Function { domain, range } => SortTerm::Function(
            Seq::new(
                domain@.len(),
                |i: int|
                    if 0 <= i < domain@.len() {
                        resolved_term(sorts, domain@[i].index as int)
                    } else {
                        SortTerm::Basic(Sort::Bool)
                    },
            ),
            Box::new(resolved_term(sorts, range.index as int)),
        ),
    }
}

/// The term of a sort whose parts are stored in `sorts`.
pub open spec fn node_term(sorts: Seq<ResolvedSort>, node: ResolvedSort) -> SortTerm {
    match node {
        ResolvedSort::Primitive(sort) => SortTerm::Basic(sort),
        ResolvedSort::Container { op, subsort } => SortTerm::Container(
            op,
            Box::new(resolved_term(sorts, subsort.index as int)),
        ),
        ResolvedSort::Function { domain, range } => SortTerm::Function(
            Seq::new(domain@.len(), |i: int| resolved_term(sorts, domain@[i].index as int)),
            Box::new(resolved_term(sorts, range.index as int)),
        ),
    }
}

/// All parts of `node` are stored in the first `len` entries.
pub open spec fn parts_within(node: ResolvedSort, len: int) -> bool {
    match node {
        ResolvedSort::Primitive(_) => true,
        ResolvedSort::Container { subsort, .. } => subsort.index < len,
        ResolvedSort::Function { domain, range } => range.index < len && forall|i: int|
            0 <= i < domain@.len() ==> #[trigger] domain@[i].index < len,
    }
}

/// `a` and `b` are the same sort node: the same constructor with the same parts.
pub open spec fn same_resolved(a: ResolvedSort, b: ResolvedSort) -> bool {
    match a {
        ResolvedSort::Primitive(sort) => b == ResolvedSort::Primitive(sort),
        ResolvedSort::Container { op, subsort } => b == (ResolvedSort::Container { op, subsort }),
        ResolvedSort::Function { domain, range } => match b {
            ResolvedSort::Function { domain: domain2, range: range2 } => range2 == range && domain2@
                == domain@,
            _ => false,
        },
    }
}

/// The term of a stored sort is that of its node.
proof fn lemma_resolved_term_unfold(sorts: Seq<ResolvedSort>, n: int)
    requires
        parts_precede(sorts),
        0 <= n < sorts.len(),
    ensures
        resolved_term(sorts, n) == node_term(sorts, sorts[n]),
{
    match sorts[n] {
        ResolvedSort::Function { domain, range } => {
            assert(resolved_term(sorts, n)->Function_0 =~= node_term(sorts, sorts[n])->Function_0);
        },
        _ => {},
    }
}

/// Storing more sorts after those of `shorter` changes the term of none of them.
proof fn lemma_resolved_term_prefix(shorter: Seq<ResolvedSort>, longer: Seq<ResolvedSort>, n: int)
    requires
        parts_precede(shorter),
        parts_precede(longer),
        shorter.len() <= longer.len(),
        longer.take(shorter.len() as int) == shorter,
        0 <= n < shorter.len(),
    ensures
        resolved_term(longer, n) == resolved_term(shorter, n),
    decreases n,
{
    assert(longer[n] == shorter[n]) by {
        assert(longer.take(shorter.len() as int)[n] == longer[n]);
    }
    match shorter[n] {
        ResolvedSort::Primitive(_) => {},
        ResolvedSort::Container { subsort, .. } => {
            lemma_resolved_term_prefix(shorter, longer, subsort.index as int);
        },
        ResolvedSort::Function { domain, range } => {
            lemma_resolved_term_prefix(shorter, longer, range.index as int);
            assert forall|i: int| 0 <= i < domain@.len() implies resolved_term(
                longer,
                #[trigger] domain@[i].index as int,
            ) == resolved_term(shorter, domain@[i].index as int) by {
                lemma_resolved_term_prefix(shorter, longer, domain@[i].index as int);
            }
            assert(resolved_term(longer, n)->Function_0 =~= resolved_term(shorter, n)->Function_0);
        },
    }
}

/// The same node gives the same term.
proof fn lemma_same_node_term(sorts: Seq<ResolvedSort>, a: ResolvedSort, b: ResolvedSort)
    requires
        same_resolved(a, b),
    ensures
        node_term(sorts, a) == node_term(sorts, b),
{
    match a {
        ResolvedSort::Function { domain, range } => {
            assert(node_term(sorts, a)->Function_0 =~= node_term(sorts, b)->Function_0);
        },
        _ => {},
    }
}

/// Storing more sorts after the parts of `node` does not change its term.
proof fn lemma_node_term_prefix(shorter: Seq<ResolvedSort>, longer: Seq<ResolvedSort>, node: ResolvedSort)
    requires
        parts_precede(shorter),
        parts_precede(longer),
        shorter.len() <= longer.len(),
        longer.take(shorter.len() as int) == shorter,
        parts_within(node, shorter.len() as int),
    ensures
        node_term(longer, node) == node_term(shorter, node),
{
    match node {
        ResolvedSort::Primitive(_) => {},
        ResolvedSort::Container { subsort, .. } => {
            lemma_resolved_term_prefix(shorter, longer, subsort.index as int);
        },
        ResolvedSort::Function { domain, range } => {
            lemma_resolved_term_prefix(shorter, longer, range.index as int);
            assert forall|i: int| 0 <= i < domain@.len() implies resolved_term(
                longer,
                #[trigger] domain@[i].index as int,
            ) == resolved_term(shorter, domain@[i].index as int) by {
                lemma_resolved_term_prefix(shorter, longer, domain@[i].index as int);
            }
            assert(node_term(longer, node)->Function_0 =~= node_term(shorter, node)->Function_0);
        },
    }
}

/// Whether two sort nodes are the same.
fn same_node(a: &ResolvedSort, b: &ResolvedSort) -> (r: bool)
    ensures
        r == same_resolved(*a, *b),
{
    match (a, b) {
        (ResolvedSort::Primitive(x), ResolvedSort::Primitive(y)) => *x == *y,
        (
            ResolvedSort::Container { op, subsort },
            ResolvedSort::Container { op: op2, subsort: subsort2 },
        ) => *op == *op2 && *subsort == *subsort2,
        (
            ResolvedSort::Function { domain, range },
            ResolvedSort::Function { domain: domain2, range: range2 },
        ) => {
            if *range != *range2 || domain.len() != domain2.len() {
                return false;
            }
            let mut i: usize = 0;
            while i < domain.len()
                invariant
                    i <= domain@.len(),
                    domain@.len() == domain2@.len(),
                    *a == (ResolvedSort::Function { domain: *domain, range: *range }),
                    *b == (ResolvedSort::Function { domain: *domain2, range: *range2 }),
                    forall|j: int| 0 <= j < i ==> domain@[j] == domain2@[j],
                decreases domain.len() - i,
            {
                if domain[i] != domain2[i] {
                    return false;
                }
                i = i + 1;
            }
            assert(domain@ =~= domain2@);
            true
        },
        _ => false,
    }
}

/// The sorts of a specification, each stored once.
pub struct SortInterner {
    sorts: Vec<ResolvedSort>,
}

impl SortInterner {
    /// The stored sorts, in order.
    pub closed spec fn nodes(&self) -> Seq<ResolvedSort> {
        self.sorts@
    }

    /// The parts of each sort come before it, no sort is stored twice, and the basic sorts come
    /// first: `Bool`, `Pos`, `Nat`, `Int`, `Real`.
    pub closed spec fn well_formed(&self) -> bool {
        let sorts = self.sorts@;
        &&& parts_precede(sorts)
        &&& forall|a: int, b: int|
            #![trigger sorts[a], sorts[b]]
            0 <= a < b < sorts.len() ==> !same_resolved(sorts[a], sorts[b])
        &&& sorts.len() >= 5
        &&& sorts[0] == ResolvedSort::Primitive(Sort::Bool)
        &&& sorts[1] == ResolvedSort::Primitive(Sort::Pos)
        &&& sorts[2] == ResolvedSort::Primitive(Sort::Nat)
        &&& sorts[3] == ResolvedSort::Primitive(Sort::Int)
        &&& sorts[4] == ResolvedSort::Primitive(Sort::Real)
    }

    /// Extending an interner that extends `earlier` extends `earlier`.
    pub proof fn lemma_extends_transitive(&self, middle: SortInterner, earlier: SortInterner)
        requires
            self.extends(middle),
            middle.extends(earlier),
        ensures
            self.extends(earlier),
    {
        assert(self.nodes().take(earlier.nodes().len() as int) =~= self.nodes().take(middle.nodes().len() as int).take(
            earlier.nodes().len() as int,
        ));
    }

    /// An interner extends itself.
    pub proof fn lemma_extends_reflexive(&self)
        ensures
            self.extends(*self),
    {
        assert(self.nodes().take(self.nodes().len() as int) =~= self.nodes());
    }

    /// The parts of every stored sort are stored before it.
    pub proof fn lemma_parts_precede(&self)
        requires
            self.well_formed(),
        ensures
            parts_precede(self.nodes()),
    {
    }

    /// `id` names a stored sort.
    pub open spec fn contains(&self, id: ResolvedSortId) -> bool {
        id.index < self.nodes().len()
    }

    /// The term of the sort named `id`.
    pub open spec fn term(&self, id: ResolvedSortId) -> SortTerm {
        resolved_term(self.nodes(), id.index as int)
    }

    /// The interner still stores every sort of `earlier`, under the same name.
    pub open spec fn extends(&self, earlier: SortInterner) -> bool {
        &&& earlier.nodes().len() <= self.nodes().len()
        &&& self.nodes().take(earlier.nodes().len() as int) == earlier.nodes()
    }

    /// Every sort stored in `earlier` has the same term in `self`.
    pub proof fn lemma_extends(&self, earlier: SortInterner, id: ResolvedSortId)
        requires
            self.well_formed(),
            earlier.well_formed(),
            self.extends(earlier),
            earlier.contains(id),
        ensures
            self.contains(id),
            self.term(id) == earlier.term(id),
    {
        lemma_resolved_term_prefix(earlier.sorts@, self.sorts@, id.index as int);
    }

    /// The interner of the basic sorts.
    pub fn new() -> (r: Self)
        ensures
            r.well_formed(),
            r.nodes().len() == 5,
    {
        let sorts = vec![
            ResolvedSort::Primitive(Sort::Bool),
            ResolvedSort::Primitive(Sort::Pos),
            ResolvedSort::Primitive(Sort::Nat),
            ResolvedSort::Primitive(Sort::Int),
            ResolvedSort::Primitive(Sort::Real),
        ];
        SortInterner { sorts }
    }

    /// The name of a basic sort.
    pub fn primitive(&self, sort: Sort) -> (r: ResolvedSortId)
        requires
            self.well_formed(),
        ensures
            self.contains(r),
            self.term(r) == SortTerm::Basic(sort),
    {
        let index: usize = match sort {
            Sort::Bool => 0,
            Sort::Pos => 1,
            Sort::Nat => 2,
            Sort::Int => 3,
            Sort::Real => 4,
        };
        ResolvedSortId::new(index)
    }

    /// The name of `Bool`.
    pub fn bool_sort(&self) -> (r: ResolvedSortId)
        requires
            self.well_formed(),
        ensures
            self.contains(r),
            self.term(r) == SortTerm::Basic(Sort::Bool),
    {
        self.primitive(Sort::Bool)
    }

    /// The name of `Pos`.
    pub fn pos_sort(&self) -> (r: ResolvedSortId)
        requires
            self.well_formed(),
        ensures
            self.contains(r),
            self.term(r) == SortTerm::Basic(Sort::Pos),
    {
        self.primitive(Sort::Pos)
    }

    /// The name of `Nat`.
    pub fn nat_sort(&self) -> (r: ResolvedSortId)
        requires
            self.well_formed(),
        ensures
            self.contains(r),
            self.term(r) == SortTerm::Basic(Sort::Nat),
    {
        self.primitive(Sort::Nat)
    }

    /// The name of `Int`.
    pub fn int_sort(&self) -> (r: ResolvedSortId)
        requires
            self.well_formed(),
        ensures
            self.contains(r),
            self.term(r) == SortTerm::Basic(Sort::Int),
    {
        self.primitive(Sort::Int)
    }

    /// The name of `Real`.
    pub fn real_sort(&self) -> (r: ResolvedSortId)
        requires
            self.well_formed(),
        ensures
            self.contains(r),
            self.term(r) == SortTerm::Basic(Sort::Real),
    {
        self.primitive(Sort::Real)
    }

    /// The stored sort named `id`.
    pub fn get(&self, id: ResolvedSortId) -> (r: &ResolvedSort)
        requires
            self.contains(id),
        ensures
            *r == self.nodes()[id.index as int],
    {
        &self.sorts[id.index]
    }

    /// The name of the sort `node`, stored unless it is already.
    fn intern(&mut self, node: ResolvedSort) -> (r: ResolvedSortId)
        requires
            old(self).well_formed(),
            parts_within(node, old(self).nodes().len() as int),
        ensures
            final(self).well_formed(),
            final(self).extends(*old(self)),
            final(self).contains(r),
            final(self).term(r) == node_term(old(self).nodes(), node),
    {
        let mut i: usize = 0;
        while i < self.sorts.len()
            invariant
                i <= self.sorts@.len(),
                self.sorts@ == old(self).sorts@,
                self.well_formed(),
                forall|j: int| 0 <= j < i ==> !same_resolved(#[trigger] self.sorts@[j], node),
            decreases self.sorts.len() - i,
        {
            if same_node(&self.sorts[i], &node) {
                proof {
                    lemma_resolved_term_unfold(self.sorts@, i as int);
                    lemma_same_node_term(self.sorts@, self.sorts@[i as int], node);
                    assert(self.sorts@.take(self.sorts@.len() as int) =~= self.sorts@);
                }
                return ResolvedSortId::new(i);
            }
            i = i + 1;
        }
        let index = self.sorts.len();
        let ghost before = self.sorts@;
        self.sorts.push(node);
        proof {
            let after = self.sorts@;
            assert(after.take(before.len() as int) =~= before);
            assert forall|n: int| 0 <= n < after.len() implies match #[trigger] after[n] {
                ResolvedSort::Primitive(_) => true,
                ResolvedSort::Container { subsort, .. } => subsort.index < n,
                ResolvedSort::Function { domain, range } => range.index < n && forall|k: int|
                    0 <= k < domain@.len() ==> #[trigger] domain@[k].index < n,
            } by {
                if n < before.len() {
                    assert(after[n] == before[n]);
                }
            }
            assert(parts_precede(after));
            lemma_resolved_term_unfold(after, index as int);
            lemma_node_term_prefix(before, after, node);
        }
        ResolvedSortId::new(index)
    }

    /// The name of the container sort `op(subsort)`.
    pub fn generic(&mut self, op: ComplexSort, subsort: ResolvedSortId) -> (r: ResolvedSortId)
        requires
            old(self).well_formed(),
            old(self).contains(subsort),
        ensures
            final(self).well_formed(),
            final(self).extends(*old(self)),
            final(self).contains(r),
            final(self).term(r) == SortTerm::Container(op, Box::new(old(self).term(subsort))),
    {
        self.intern(ResolvedSort::Container { op, subsort })
    }

    /// The name of the function sort `domain -> range`.
    pub fn function(&mut self, domain: Vec<ResolvedSortId>, range: ResolvedSortId) -> (r: ResolvedSortId)
        requires
            old(self).well_formed(),
            old(self).contains(range),
            forall|i: int| 0 <= i < domain@.len() ==> old(self).contains(#[trigger] domain@[i]),
        ensures
            final(self).well_formed(),
            final(self).extends(*old(self)),
            final(self).contains(r),
            final(self).term(r) == SortTerm::Function(
                Seq::new(domain@.len(), |i: int| old(self).term(domain@[i])),
                Box::new(old(self).term(range)),
            ),
    {
        let ghost terms = Seq::new(domain@.len(), |i: int| old(self).term(domain@[i]));
        let r = self.intern(ResolvedSort::Function { domain, range });
        proof {
            assert(node_term(old(self).nodes(), ResolvedSort::Function { domain, range })->Function_0 =~= terms);
        }
        r
    }
}

/// `a` widens to `b`: they are the same sort, or `b` lies strictly above `a`.
pub open spec fn widens_to(a: SortTerm, b: SortTerm) -> bool {
    a == b || related_terms(a, Direction::Super).contains(b)
}

/// The least sort that both `a` and `b` widen to, when one of them widens to the other.
pub open spec fn head_join(a: SortTerm, b: SortTerm) -> Option<SortTerm> {
    if widens_to(a, b) {
        Some(b)
    } else if widens_to(b, a) {
        Some(a)
    } else {
        None
    }
}

/// The number of steps that widen `a` to `b`: how far apart two number sorts lie on
/// `Pos <= Nat <= Int <= Real`, one step from `FSet(S)` to `Set(S)` or from `FBag(S)` to
/// `Bag(S)`, none from a sort to itself.
pub open spec fn widening_steps(a: SortTerm, b: SortTerm) -> int {
    match (a, b) {
        (SortTerm::Basic(x), SortTerm::Basic(y)) => match (spec_number_generality(x), spec_number_generality(y)) {
            (Some(gx), Some(gy)) => gy - gx,
            _ => 0,
        },
        _ => if a == b {
            0
        } else {
            1
        },
    }
}

/// A number sort is the sort at its own position on `Pos <= Nat <= Int <= Real`.
proof fn lemma_number_sort_of_generality(sort: Sort)
    requires
        spec_number_generality(sort) is Some,
    ensures
        spec_number_sort(spec_number_generality(sort)->0) == sort,
        0 <= spec_number_generality(sort)->0 <= 3,
{
}

/// The basic sorts above `x` are the number sorts of greater generality.
pub proof fn lemma_basic_widening(x: Sort, y: Sort)
    ensures
        related_terms(SortTerm::Basic(x), Direction::Super).contains(SortTerm::Basic(y)) <==> (spec_number_generality(x) is Some
            && spec_number_generality(y) is Some && spec_number_generality(x)->0 < spec_number_generality(y)->0),
        forall|t: SortTerm| #[trigger] related_terms(SortTerm::Basic(x), Direction::Super).contains(t) ==> t is Basic,
        related_terms(SortTerm::Basic(x), Direction::Super).len() <= 3,
{
    let up = related_terms(SortTerm::Basic(x), Direction::Super);
    let numbers = spec_related_numbers(x, Direction::Super);
    assert(up.len() == numbers.len());
    if up.contains(SortTerm::Basic(y)) {
        let i = choose|i: int| 0 <= i < up.len() && up[i] == SortTerm::Basic(y);
        assert(up[i] == SortTerm::Basic(numbers[i]));
    }
    if spec_number_generality(x) is Some && spec_number_generality(y) is Some && spec_number_generality(x)->0
        < spec_number_generality(y)->0 {
        let gx = spec_number_generality(x)->0;
        let gy = spec_number_generality(y)->0;
        lemma_number_sort_of_generality(y);
        assert(up[gy - gx - 1] == SortTerm::Basic(y));
    }
    assert forall|t: SortTerm| #[trigger] up.contains(t) implies t is Basic by {
        let i = choose|i: int| 0 <= i < up.len() && up[i] == t;
        assert(up[i] == SortTerm::Basic(numbers[i]));
    }
}

/// The sort above a container is the same container made infinite, and only for a finite one.
pub proof fn lemma_container_widening(op: ComplexSort, element: SortTerm, t: SortTerm)
    ensures
        related_terms(SortTerm::Container(op, Box::new(element)), Direction::Super).contains(t) <==> (
        spec_related_container(op, Direction::Super) is Some && t == SortTerm::Container(
            spec_related_container(op, Direction::Super)->0,
            Box::new(element),
        )),
        related_terms(SortTerm::Container(op, Box::new(element)), Direction::Super).len() <= 1,
{
    let up = related_terms(SortTerm::Container(op, Box::new(element)), Direction::Super);
    if spec_related_container(op, Direction::Super) is Some {
        assert(up[0] == SortTerm::Container(spec_related_container(op, Direction::Super)->0, Box::new(element)));
    }
}

/// There are at most three sorts above, and at most three below, any sort.
pub proof fn lemma_few_related_sorts(term: SortTerm, direction: Direction)
    ensures
        related_terms(term, direction).len() <= 3,
{
    match term {
        SortTerm::Basic(x) => {
            assert(related_terms(term, direction).len() == spec_related_numbers(x, direction).len());
        },
        _ => {},
    }
}

/// `b` lies strictly below `a` exactly when `a` lies strictly above `b`.
pub proof fn lemma_related_converse(a: SortTerm, b: SortTerm)
    ensures
        related_terms(a, Direction::Sub).contains(b) <==> related_terms(b, Direction::Super).contains(a),
{
    match (a, b) {
        (SortTerm::Basic(x), SortTerm::Basic(y)) => {
            crate::sorts::law_related_sorts_are_converse(y, x, ComplexSort::List, ComplexSort::List);
            let down = related_terms(a, Direction::Sub);
            let numbers = spec_related_numbers(x, Direction::Sub);
            assert(down.len() == numbers.len());
            if down.contains(b) {
                let i = choose|i: int| 0 <= i < down.len() && down[i] == b;
                assert(down[i] == SortTerm::Basic(numbers[i]));
            }
            if numbers.contains(y) {
                let i = choose|i: int| 0 <= i < numbers.len() && numbers[i] == y;
                assert(down[i] == b);
            }
            lemma_basic_widening(y, x);
            if related_terms(b, Direction::Super).contains(a) {
                let gy = spec_number_generality(y)->0;
                let gx = spec_number_generality(x)->0;
                lemma_number_sort_of_generality(y);
                assert(numbers[gx - gy - 1] == y);
            }
        },
        (SortTerm::Container(op, element), SortTerm::Container(op2, element2)) => {
            lemma_container_widening(op2, *element2, a);
            let down = related_terms(a, Direction::Sub);
            if spec_related_container(op, Direction::Sub) is Some {
                assert(down[0] == SortTerm::Container(spec_related_container(op, Direction::Sub)->0, element));
            }
            crate::sorts::law_related_sorts_are_converse(Sort::Bool, Sort::Bool, op2, op);
        },
        (SortTerm::Basic(x), _) => {
            lemma_basic_widening(x, x);
            match b {
                SortTerm::Container(op2, element2) => lemma_container_widening(op2, *element2, a),
                _ => {},
            }
        },
        (SortTerm::Container(op, element), _) => {
            match b {
                SortTerm::Basic(y) => lemma_basic_widening(y, y),
                _ => {},
            }
            let down = related_terms(a, Direction::Sub);
            if spec_related_container(op, Direction::Sub) is Some {
                assert(down[0] == SortTerm::Container(spec_related_container(op, Direction::Sub)->0, element));
            }
        },
        _ => {
            match b {
                SortTerm::Basic(y) => lemma_basic_widening(y, y),
                SortTerm::Container(op2, element2) => lemma_container_widening(op2, *element2, a),
                _ => {},
            }
        },
    }
}

/// Widening is transitive.
pub proof fn lemma_widens_transitive(a: SortTerm, b: SortTerm, c: SortTerm)
    requires
        widens_to(a, b),
        widens_to(b, c),
    ensures
        widens_to(a, c),
{
    if a != b && b != c {
        match a {
            SortTerm::Basic(x) => {
                lemma_basic_widening(x, x);
                let y = b->Basic_0;
                lemma_basic_widening(x, y);
                lemma_basic_widening(y, y);
                let z = c->Basic_0;
                lemma_basic_widening(y, z);
                lemma_basic_widening(x, z);
            },
            SortTerm::Container(op, element) => {
                lemma_container_widening(op, *element, b);
                let wider = spec_related_container(op, Direction::Super)->0;
                lemma_container_widening(wider, *element, c);
            },
            _ => {},
        }
    }
}

/// The join of two sorts is their least upper bound: whenever both widen to a sort, they have
/// a join, and it widens to that sort.
pub proof fn law_join_is_least_upper_bound(a: SortTerm, b: SortTerm, c: SortTerm)
    requires
        widens_to(a, c),
        widens_to(b, c),
    ensures
        head_join(a, b) is Some,
        widens_to(head_join(a, b)->0, c),
{
    if a == c || b == c {
        return;
    }
    match (a, b) {
        (SortTerm::Basic(x), SortTerm::Basic(y)) => {
            let z = c->Basic_0;
            lemma_basic_widening(x, z);
            lemma_basic_widening(y, z);
            lemma_basic_widening(x, y);
            lemma_basic_widening(y, x);
            if spec_number_generality(x)->0 == spec_number_generality(y)->0 {
                lemma_number_sort_of_generality(x);
                lemma_number_sort_of_generality(y);
            }
        },
        (SortTerm::Container(op, element), _) => {
            lemma_container_widening(op, *element, c);
            match b {
                SortTerm::Container(op2, element2) => {
                    lemma_container_widening(op2, *element2, c);
                },
                SortTerm::Basic(y) => {
                    lemma_basic_widening(y, y);
                },
                _ => {},
            }
        },
        (SortTerm::Basic(x), _) => {
            lemma_basic_widening(x, x);
            match b {
                SortTerm::Container(op2, element2) => {
                    lemma_container_widening(op2, *element2, c);
                },
                _ => {},
            }
        },
        _ => {},
    }
}

/// Two sorts that widen to one sort widen one to the other: the sorts below a sort lie on one
/// chain.
pub proof fn lemma_widens_comparable(a: SortTerm, b: SortTerm, t: SortTerm)
    requires
        widens_to(a, t),
        widens_to(b, t),
    ensures
        widens_to(a, b) || widens_to(b, a),
{
    if a != t && b != t {
        match a {
            SortTerm::Basic(x) => {
                lemma_basic_widening(x, x);
                let z = t->Basic_0;
                lemma_basic_widening(x, z);
                match b {
                    SortTerm::Basic(y) => {
                        lemma_basic_widening(y, z);
                        lemma_basic_widening(x, y);
                        lemma_basic_widening(y, x);
                    },
                    SortTerm::Container(op, element) => {
                        lemma_container_widening(op, *element, t);
                    },
                    _ => {},
                }
            },
            SortTerm::Container(op, element) => {
                lemma_container_widening(op, *element, t);
                match b {
                    SortTerm::Basic(y) => {
                        lemma_basic_widening(y, y);
                    },
                    SortTerm::Container(op2, element2) => {
                        lemma_container_widening(op2, *element2, t);
                    },
                    _ => {},
                }
            },
            _ => {},
        }
    }
}

/// The join of two sorts is a sort that both widen to.
pub proof fn lemma_head_join_widens(a: SortTerm, b: SortTerm)
    requires
        head_join(a, b) is Some,
    ensures
        widens_to(a, head_join(a, b)->0),
        widens_to(b, head_join(a, b)->0),
{
}

impl SortInterner {
    /// The least upper bound of the sorts `a` and `b` when one of them widens to the other by
    /// widening its head (`Pos` to `Nat`, `FSet(S)` to `Set(S)`), or `None` when neither does.
    pub fn join(&self, a: ResolvedSortId, b: ResolvedSortId) -> (r: Option<ResolvedSortId>)
        requires
            self.well_formed(),
            self.contains(a),
            self.contains(b),
        ensures
            match r {
                Some(j) => self.contains(j) && head_join(self.term(a), self.term(b)) == Some(self.term(j)),
                None => head_join(self.term(a), self.term(b)) is None,
            },
    {
        if a.index == b.index {
            return Some(b);
        }
        let ghost sorts = self.nodes();
        proof {
            law_interned_sorts_are_equal_exactly_when_their_names_are(*self, a, b);
            lemma_resolved_term_unfold(sorts, a.index as int);
            lemma_resolved_term_unfold(sorts, b.index as int);
        }
        match (self.get(a), self.get(b)) {
            (ResolvedSort::Primitive(x), ResolvedSort::Primitive(y)) => {
                proof {
                    lemma_basic_widening(*x, *y);
                    lemma_basic_widening(*y, *x);
                }
                match (number_generality(*x), number_generality(*y)) {
                    (Some(gx), Some(gy)) => {
                        if gx < gy {
                            Some(b)
                        } else {
                            proof {
                                if gx == gy {
                                    lemma_number_sort_of_generality(*x);
                                    lemma_number_sort_of_generality(*y);
                                }
                            }
                            Some(a)
                        }
                    },
                    _ => None,
                }
            },
            (
                ResolvedSort::Container { op: op_a, subsort: element_a },
                ResolvedSort::Container { op: op_b, subsort: element_b },
            ) => {
                let ghost ta = resolved_term(sorts, element_a.index as int);
                let ghost tb = resolved_term(sorts, element_b.index as int);
                proof {
                    assert(sorts[a.index as int] == self.sorts@[a.index as int]);
                    lemma_container_widening(*op_a, ta, self.term(b));
                    lemma_container_widening(*op_b, tb, self.term(a));
                    law_interned_sorts_are_equal_exactly_when_their_names_are(*self, *element_a, *element_b);
                }
                if element_a.index != element_b.index {
                    return None;
                }
                match related_container(*op_a, Direction::Super) {
                    Some(wider) => {
                        if wider == *op_b {
                            return Some(b);
                        }
                    },
                    None => {},
                }
                match related_container(*op_b, Direction::Super) {
                    Some(wider) => {
                        if wider == *op_a {
                            return Some(a);
                        }
                    },
                    None => {},
                }
                None
            },
            (ResolvedSort::Primitive(x), _) => {
                proof {
                    lemma_basic_widening(*x, *x);
                    match sorts[b.index as int] {
                        ResolvedSort::Container { op, subsort } => {
                            lemma_container_widening(op, resolved_term(sorts, subsort.index as int), self.term(a));
                        },
                        _ => {},
                    }
                }
                None
            },
            (_, ResolvedSort::Primitive(y)) => {
                proof {
                    lemma_basic_widening(*y, *y);
                    match sorts[a.index as int] {
                        ResolvedSort::Container { op, subsort } => {
                            lemma_container_widening(op, resolved_term(sorts, subsort.index as int), self.term(b));
                        },
                        _ => {},
                    }
                }
                None
            },
            _ => {
                proof {
                    match sorts[a.index as int] {
                        ResolvedSort::Container { op, subsort } => {
                            lemma_container_widening(op, resolved_term(sorts, subsort.index as int), self.term(b));
                        },
                        _ => {},
                    }
                    match sorts[b.index as int] {
                        ResolvedSort::Container { op, subsort } => {
                            lemma_container_widening(op, resolved_term(sorts, subsort.index as int), self.term(a));
                        },
                        _ => {},
                    }
                }
                None
            },
        }
    }

    /// The number of steps that widen the sort `source` to the sort `target`, one of the sorts
    /// it widens to: the position of `target` among the sorts above `source`, nearest first and
    /// counted from one, or `0` when they are the same sort.
    pub fn widening_distance(&self, source: ResolvedSortId, target: ResolvedSortId) -> (r: u8)
        requires
            self.well_formed(),
            self.contains(source),
            self.contains(target),
            widens_to(self.term(source), self.term(target)),
        ensures
            r == widening_steps(self.term(source), self.term(target)),
            r <= 3,
            r == 0 <==> source == target,
            r > 0 ==> related_terms(self.term(source), Direction::Super)[r - 1] == self.term(target),
    {
        let ghost sorts = self.nodes();
        proof {
            law_interned_sorts_are_equal_exactly_when_their_names_are(*self, source, target);
            lemma_resolved_term_unfold(sorts, source.index as int);
            lemma_resolved_term_unfold(sorts, target.index as int);
        }
        if source.index == target.index {
            return 0;
        }
        match (self.get(source), self.get(target)) {
            (ResolvedSort::Primitive(x), ResolvedSort::Primitive(y)) => {
                proof {
                    lemma_basic_widening(*x, *y);
                    lemma_number_sort_of_generality(*y);
                }
                match (number_generality(*x), number_generality(*y)) {
                    (Some(gx), Some(gy)) => (gy - gx) as u8,
                    _ => 0,
                }
            },
            _ => {
                proof {
                    match sorts[source.index as int] {
                        ResolvedSort::Primitive(x) => lemma_basic_widening(x, x),
                        ResolvedSort::Container { op, subsort } => {
                            lemma_container_widening(op, resolved_term(sorts, subsort.index as int), self.term(target));
                        },
                        _ => {},
                    }
                }
                1
            },
        }
    }
}

/// Interning is canonical: two stored sorts are the same sort exactly when their names are equal.
pub proof fn law_interned_sorts_are_equal_exactly_when_their_names_are(
    interner: SortInterner,
    a: ResolvedSortId,
    b: ResolvedSortId,
)
    requires
        interner.well_formed(),
        interner.contains(a),
        interner.contains(b),
    ensures
        (interner.term(a) == interner.term(b)) == (a == b),
    decreases a.index + b.index,
{
    let sorts = interner.nodes();
    if a != b && interner.term(a) == interner.term(b) {
        lemma_resolved_term_unfold(sorts, a.index as int);
        lemma_resolved_term_unfold(sorts, b.index as int);
        assert(sorts[a.index as int] == interner.sorts@[a.index as int]);
        match (sorts[a.index as int], sorts[b.index as int]) {
            (ResolvedSort::Container { subsort, .. }, ResolvedSort::Container { subsort: subsort2, .. }) => {
                law_interned_sorts_are_equal_exactly_when_their_names_are(interner, subsort, subsort2);
            },
            (
                ResolvedSort::Function { domain, range },
                ResolvedSort::Function { domain: domain2, range: range2 },
            ) => {
                law_interned_sorts_are_equal_exactly_when_their_names_are(interner, range, range2);
                let terms = node_term(sorts, sorts[a.index as int])->Function_0;
                let terms2 = node_term(sorts, sorts[b.index as int])->Function_0;
                assert(terms.len() == domain@.len());
                assert(terms2.len() == domain2@.len());
                assert forall|i: int| 0 <= i < domain@.len() implies domain@[i] == domain2@[i] by {
                    assert(terms[i] == terms2[i]);
                    law_interned_sorts_are_equal_exactly_when_their_names_are(
                        interner,
                        domain@[i],
                        domain2@[i],
                    );
                }
                assert(domain@ =~= domain2@);
            },
            _ => {},
        }
        if a.index < b.index {
            assert(!same_resolved(sorts[a.index as int], sorts[b.index as int]));
        } else {
            assert(!same_resolved(sorts[b.index as int], sorts[a.index as int]));
        }
    }
}

} // verus!
