//! The signature of a data specification: per name, the resolved sorts of the constructors and
//! mappings declared under it, and the polymorphic schemes of the built-in operators; with the
//! union and the restriction of signatures.
use vstd::prelude::*;

verus! {

/// An interned, resolved sort: its index in the sort lattice.
#[derive(Clone, Copy, Debug, PartialEq, Eq, Hash, Structural)]
pub struct ResolvedSortId {
    pub index: usize,
}

impl ResolvedSortId {
    /// The resolved sort at `index`.
    pub fn new(index: usize) -> (r: Self)
        ensures
            r.index == index,
    {
        ResolvedSortId { index }
    }
}

/// A sort variable bound by a polymorphic scheme.
#[derive(Clone, Copy, Debug, PartialEq, Eq, Hash, Structural)]
pub struct TypeVarId {
    pub index: usize,
}

/// A polymorphic sort: `sort`, quantified over the sort variables `vars`.
#[derive(Debug)]
pub struct PolySortScheme {
    pub vars: Vec<TypeVarId>,
    pub sort: ResolvedSortId,
}

/// An overload as a signature stores it: its view says what it denotes, and it can be copied.
pub trait Overload: Sized + View {
    /// A copy with the same view.
    fn duplicate(&self) -> (r: Self)
        ensures
            r@ == self@,
    ;
}

impl View for ResolvedSortId {
    type V = ResolvedSortId;

    open spec fn view(&self) -> ResolvedSortId {
        *self
    }
}

impl Overload for ResolvedSortId {
    fn duplicate(&self) -> (r: Self) {
        *self
    }
}

impl View for PolySortScheme {
    type V = (Seq<TypeVarId>, ResolvedSortId);

    open spec fn view(&self) -> (Seq<TypeVarId>, ResolvedSortId) {
        (self.vars@, self.sort)
    }
}

impl Overload for PolySortScheme {
    fn duplicate(&self) -> (r: Self) {
        let mut vars: Vec<TypeVarId> = Vec::new();
        let mut i: usize = 0;
        while i < self.vars.len()
            invariant
                i <= self.vars@.len(),
                vars@ == self.vars@.take(i as int),
            decreases self.vars.len() - i,
        {
            vars.push(self.vars[i]);
            i = i + 1;
        }
        assert(vars@ =~= self.vars@);
        PolySortScheme { vars, sort: self.sort }
    }
}

/// The names of a table's entries, in order.
pub open spec fn entry_names<T>(entries: Seq<(String, Vec<T>)>) -> Seq<Seq<char>> {
    entries.map_values(|entry: (String, Vec<T>)| entry.0@)
}

/// The views of a list of overloads.
pub open spec fn overload_views<T: View>(overloads: Seq<T>) -> Seq<T::V> {
    overloads.map_values(|overload: T| overload@)
}

/// The map that a list of entries with distinct names denotes: each name to its overloads.
pub open spec fn table_view<T: View>(entries: Seq<(String, Vec<T>)>) -> Map<Seq<char>, Seq<T::V>> {
    Map::new(
        |name: Seq<char>| entry_names(entries).contains(name),
        |name: Seq<char>| overload_views(entries[entry_names(entries).index_of(name)].1@),
    )
}

/// The overloads that `table` holds under `name`, none if it does not hold the name.
pub open spec fn overloads_in<V>(table: Map<Seq<char>, Seq<V>>, name: Seq<char>) -> Seq<V> {
    if table.contains_key(name) {
        table[name]
    } else {
        Seq::empty()
    }
}

/// Per name, the overloads declared under it. Each name occurs in one entry.
pub struct OverloadTable<T> {
    entries: Vec<(String, Vec<T>)>,
}

impl<T> OverloadTable<T> {
    /// No two entries carry the same name.
    pub closed spec fn well_formed(&self) -> bool {
        entry_names(self.entries@).no_duplicates()
    }
}

impl<T: View> View for OverloadTable<T> {
    type V = Map<Seq<char>, Seq<T::V>>;

    closed spec fn view(&self) -> Map<Seq<char>, Seq<T::V>> {
        table_view(self.entries@)
    }
}

/// In a list of entries with distinct names, the entry at `i` is what the list maps its name to.
proof fn lemma_table_view_entry<T: View>(entries: Seq<(String, Vec<T>)>, i: int)
    requires
        entry_names(entries).no_duplicates(),
        0 <= i < entries.len(),
    ensures
        table_view(entries).contains_key(entries[i].0@),
        table_view(entries)[entries[i].0@] == overload_views(entries[i].1@),
{
    let names = entry_names(entries);
    assert(names[i] == entries[i].0@);
    assert(names.contains(entries[i].0@));
    let j = names.index_of(entries[i].0@);
    assert(names[j] == entries[i].0@);
    assert(j == i);
}

/// A name that no entry carries is not in the map of the entries.
proof fn lemma_table_view_absent<T: View>(entries: Seq<(String, Vec<T>)>, name: Seq<char>)
    requires
        forall|i: int| 0 <= i < entries.len() ==> entries[i].0@ != name,
    ensures
        !table_view(entries).contains_key(name),
{
    let names = entry_names(entries);
    assert forall|i: int| 0 <= i < names.len() implies names[i] != name by {
        assert(names[i] == entries[i].0@);
    }
}

impl<T: View> OverloadTable<T> {
    /// The table with no names.
    pub fn new() -> (r: Self)
        ensures
            r.well_formed(),
            r@ == Map::<Seq<char>, Seq<T::V>>::empty(),
    {
        let r = OverloadTable { entries: Vec::new() };
        assert(r@ =~= Map::<Seq<char>, Seq<T::V>>::empty());
        r
    }

    /// The number of names in the table.
    pub fn len(&self) -> (r: usize)
        requires
            self.well_formed(),
        ensures
            r == self@.dom().len(),
    {
        proof {
            let names = entry_names(self.entries@);
            names.unique_seq_to_set();
            assert(self@.dom() =~= names.to_set());
        }
        self.entries.len()
    }

    /// The index of the entry named `name`, if there is one.
    fn position(&self, name: &String) -> (r: Option<usize>)
        ensures
            match r {
                Some(i) => i < self.entries@.len() && self.entries@[i as int].0@ == name@,
                None => forall|i: int| 0 <= i < self.entries@.len() ==> self.entries@[i].0@ != name@,
            },
    {
        let mut i: usize = 0;
        while i < self.entries.len()
            invariant
                i <= self.entries@.len(),
                forall|j: int| 0 <= j < i ==> self.entries@[j].0@ != name@,
            decreases self.entries.len() - i,
        {
            if self.entries[i].0 == *name {
                return Some(i);
            }
            i = i + 1;
        }
        None
    }

    /// The overloads declared under `name`, if the table holds it.
    pub fn get(&self, name: &String) -> (r: Option<&Vec<T>>)
        requires
            self.well_formed(),
        ensures
            r is Some == self@.contains_key(name@),
            r is Some ==> overload_views(r->0@) == self@[name@],
    {
        match self.position(name) {
            Some(i) => {
                proof {
                    lemma_table_view_entry(self.entries@, i as int);
                }
                Some(&self.entries[i].1)
            },
            None => {
                proof {
                    lemma_table_view_absent(self.entries@, name@);
                }
                None
            },
        }
    }

    /// Whether the table holds `name`.
    pub fn contains_key(&self, name: &str) -> (r: bool)
        requires
            self.well_formed(),
        ensures
            r == self@.contains_key(name@),
    {
        let owned = name.to_owned();
        self.get(&owned).is_some()
    }

    /// Declares `overloads` under `name`, in place of what the table held under it.
    pub fn insert(&mut self, name: String, overloads: Vec<T>)
        requires
            old(self).well_formed(),
        ensures
            final(self).well_formed(),
            final(self)@ == old(self)@.insert(name@, overload_views(overloads@)),
    {
        let ghost before = self.entries@;
        let ghost key = name@;
        let ghost value = overload_views(overloads@);
        match self.position(&name) {
            Some(i) => {
                self.entries.set(i, (name, overloads));
                proof {
                    assert(entry_names(self.entries@) =~= entry_names(before));
                    lemma_table_view_replace(before, self.entries@, i as int);
                }
            },
            None => {
                self.entries.push((name, overloads));
                proof {
                    assert(entry_names(self.entries@) =~= entry_names(before).push(key));
                    lemma_table_view_replace(before, self.entries@, before.len() as int);
                }
            },
        }
    }
}

/// Replacing or appending the entry at `i` of a list of entries with distinct names, where no
/// other entry carries its name, maps that name to the new overloads and keeps the rest.
proof fn lemma_table_view_replace<T: View>(
    before: Seq<(String, Vec<T>)>,
    after: Seq<(String, Vec<T>)>,
    i: int,
)
    requires
        entry_names(after).no_duplicates(),
        0 <= i < after.len(),
        before.len() == after.len() || before.len() + 1 == after.len(),
        i < before.len() ==> before[i].0@ == after[i].0@,
        before.len() < after.len() ==> i == before.len(),
        forall|j: int| 0 <= j < before.len() && j != i ==> before[j] == after[j],
    ensures
        table_view(after) == table_view(before).insert(after[i].0@, overload_views(after[i].1@)),
{
    let key = after[i].0@;
    let expected = table_view(before).insert(key, overload_views(after[i].1@));
    lemma_table_view_entry(after, i);
    assert forall|k: Seq<char>| #[trigger] table_view(after).contains_key(k) implies expected.contains_key(k) && table_view(after)[k] == expected[k] by {
        if k != key {
            let j = entry_names(after).index_of(k);
            assert(entry_names(after)[j] == k);
            assert(after[j].0@ == k);
            assert(j != i);
            assert(before[j] == after[j]);
            lemma_table_view_entry(after, j);
            assert(entry_names(before)[j] == k);
            assert(entry_names(before).contains(k));
            assert forall|a: int, b: int| 0 <= a < before.len() && 0 <= b < before.len() && a != b implies entry_names(before)[a] != entry_names(before)[b] by {
                if a != i && b != i {
                    assert(entry_names(after)[a] == entry_names(before)[a]);
                    assert(entry_names(after)[b] == entry_names(before)[b]);
                } else if a == i {
                    assert(entry_names(after)[b] == entry_names(before)[b]);
                    assert(entry_names(after)[a] == entry_names(before)[a]);
                } else {
                    assert(entry_names(after)[a] == entry_names(before)[a]);
                    assert(entry_names(after)[b] == entry_names(before)[b]);
                }
            }
            lemma_table_view_entry(before, j);
        }
    }
    assert forall|k: Seq<char>| #[trigger] expected.contains_key(k) implies table_view(after).contains_key(k) by {
        if k != key {
            let j = entry_names(before).index_of(k);
            assert(entry_names(before)[j] == k);
            assert(j != i);
            assert(entry_names(after)[j] == k);
        }
    }
    assert(table_view(after) =~= expected);
}

/// The overloads of a name with `id` added, unless it is one of them already.
pub open spec fn pushed_overload(overloads: Seq<ResolvedSortId>, id: ResolvedSortId) -> Seq<
    ResolvedSortId,
> {
    if overloads.contains(id) {
        overloads
    } else {
        overloads.push(id)
    }
}

/// `existing`, followed by each of `added` that is not among the overloads before it.
pub open spec fn union_overloads(existing: Seq<ResolvedSortId>, added: Seq<ResolvedSortId>) -> Seq<
    ResolvedSortId,
>
    decreases added.len(),
{
    if added.len() == 0 {
        existing
    } else {
        pushed_overload(union_overloads(existing, added.drop_last()), added.last())
    }
}

/// Per name of either table: the overloads of `a`, followed by those of `b` that are not among
/// them, each once.
pub open spec fn union_tables(
    a: Map<Seq<char>, Seq<ResolvedSortId>>,
    b: Map<Seq<char>, Seq<ResolvedSortId>>,
) -> Map<Seq<char>, Seq<ResolvedSortId>> {
    Map::new(
        |name: Seq<char>| a.contains_key(name) || b.contains_key(name),
        |name: Seq<char>| union_overloads(overloads_in(a, name), overloads_in(b, name)),
    )
}

/// Per name of either table: the overloads of `a` followed by those of `b`.
pub open spec fn concatenated_tables<V>(a: Map<Seq<char>, Seq<V>>, b: Map<Seq<char>, Seq<V>>) -> Map<
    Seq<char>,
    Seq<V>,
> {
    Map::new(
        |name: Seq<char>| a.contains_key(name) || b.contains_key(name),
        |name: Seq<char>| overloads_in(a, name) + overloads_in(b, name),
    )
}

/// The names among `names`, by their views.
pub open spec fn name_set(names: Seq<String>) -> Set<Seq<char>> {
    Set::new(|name: Seq<char>| exists|i: int| 0 <= i < names.len() && names[i]@ == name)
}

/// A resolved sort is its own view.
proof fn lemma_ground_views(overloads: Seq<ResolvedSortId>)
    ensures
        overload_views(overloads) == overloads,
{
    assert(overload_views(overloads) =~= overloads);
}

/// Adds `id` to the overloads of a name unless it is one of them already: declaring the same
/// sort under a name twice declares one overload.
pub fn push_overload(overloads: &mut Vec<ResolvedSortId>, id: ResolvedSortId)
    ensures
        final(overloads)@ == pushed_overload(old(overloads)@, id),
{
    let mut i: usize = 0;
    while i < overloads.len()
        invariant
            overloads@ == old(overloads)@,
            i <= overloads@.len(),
            forall|j: int| 0 <= j < i ==> overloads@[j] != id,
        decreases overloads.len() - i,
    {
        if overloads[i] == id {
            return;
        }
        i = i + 1;
    }
    overloads.push(id);
}

/// A copy of a list of overloads.
fn duplicate_overloads<T: Overload>(overloads: &Vec<T>) -> (r: Vec<T>)
    ensures
        overload_views(r@) == overload_views(overloads@),
{
    let mut r: Vec<T> = Vec::new();
    let mut i: usize = 0;
    while i < overloads.len()
        invariant
            i <= overloads@.len(),
            r@.len() == i,
            forall|j: int| 0 <= j < i ==> r@[j]@ == overloads@[j]@,
        decreases overloads.len() - i,
    {
        r.push(overloads[i].duplicate());
        i = i + 1;
    }
    assert(overload_views(r@) =~= overload_views(overloads@));
    r
}

/// The first `n` entries of a list with distinct names have distinct names, and they map their
/// names as the list does, the one at `n` added to the first `n`.
proof fn lemma_table_view_prefix<T: View>(entries: Seq<(String, Vec<T>)>, n: int)
    requires
        entry_names(entries).no_duplicates(),
        0 <= n < entries.len(),
    ensures
        entry_names(entries.take(n)).no_duplicates(),
        !table_view(entries.take(n)).contains_key(entries[n].0@),
        table_view(entries.take(n + 1)) == table_view(entries.take(n)).insert(
            entries[n].0@,
            overload_views(entries[n].1@),
        ),
{
    let names = entry_names(entries);
    assert forall|m: int| 0 <= m <= entries.len() implies #[trigger] entry_names(entries.take(m)).no_duplicates() by {
        assert forall|a: int, b: int|
            0 <= a < m && 0 <= b < m && a != b implies entry_names(entries.take(m))[a]
            != entry_names(entries.take(m))[b] by {
            assert(entry_names(entries.take(m))[a] == names[a]);
            assert(entry_names(entries.take(m))[b] == names[b]);
        }
    }
    assert forall|j: int| 0 <= j < entries.take(n).len() implies entries.take(n)[j].0@
        != entries[n].0@ by {
        assert(names[j] == entries[j].0@);
        assert(names[n] == entries[n].0@);
    }
    lemma_table_view_absent(entries.take(n), entries[n].0@);
    assert(entry_names(entries.take(n + 1)).no_duplicates());
    lemma_table_view_replace(entries.take(n), entries.take(n + 1), n);
}

/// The whole of a list is its longest prefix.
proof fn lemma_table_view_whole<T: View>(entries: Seq<(String, Vec<T>)>)
    ensures
        table_view(entries.take(entries.len() as int)) == table_view(entries),
        table_view(entries.take(0)) == Map::<Seq<char>, Seq<T::V>>::empty(),
{
    assert(entries.take(entries.len() as int) =~= entries);
    assert(table_view(entries.take(0)) =~= Map::<Seq<char>, Seq<T::V>>::empty());
}

/// Adding overloads under a name that the added table does not hold yet adds them to what the
/// union holds under it.
proof fn lemma_union_tables_insert(
    a: Map<Seq<char>, Seq<ResolvedSortId>>,
    b: Map<Seq<char>, Seq<ResolvedSortId>>,
    name: Seq<char>,
    added: Seq<ResolvedSortId>,
)
    requires
        !b.contains_key(name),
    ensures
        union_tables(a, b.insert(name, added)) == union_tables(a, b).insert(
            name,
            union_overloads(overloads_in(union_tables(a, b), name), added),
        ),
{
    assert(union_overloads(overloads_in(a, name), Seq::empty()) == overloads_in(a, name));
    assert(overloads_in(union_tables(a, b), name) == overloads_in(a, name));
    assert(union_tables(a, b.insert(name, added)) =~= union_tables(a, b).insert(
        name,
        union_overloads(overloads_in(union_tables(a, b), name), added),
    ));
}

/// Adding overloads under a name that the added table does not hold yet appends them to what
/// the concatenation holds under it.
proof fn lemma_concatenated_tables_insert<V>(
    a: Map<Seq<char>, Seq<V>>,
    b: Map<Seq<char>, Seq<V>>,
    name: Seq<char>,
    added: Seq<V>,
)
    requires
        !b.contains_key(name),
    ensures
        concatenated_tables(a, b.insert(name, added)) == concatenated_tables(a, b).insert(
            name,
            overloads_in(concatenated_tables(a, b), name) + added,
        ),
{
    assert(overloads_in(a, name) + Seq::<V>::empty() =~= overloads_in(a, name));
    assert(overloads_in(concatenated_tables(a, b), name) == overloads_in(a, name));
    assert(concatenated_tables(a, b.insert(name, added)) =~= concatenated_tables(a, b).insert(
        name,
        overloads_in(concatenated_tables(a, b), name) + added,
    ));
}

impl<T: Overload> OverloadTable<T> {
    /// A copy of the table.
    pub fn duplicate(&self) -> (r: Self)
        requires
            self.well_formed(),
        ensures
            r.well_formed(),
            r@ == self@,
    {
        let mut entries: Vec<(String, Vec<T>)> = Vec::new();
        let mut i: usize = 0;
        while i < self.entries.len()
            invariant
                i <= self.entries@.len(),
                entries@.len() == i,
                forall|j: int|
                    0 <= j < i ==> #[trigger] entries@[j].0@ == self.entries@[j].0@ && overload_views(
                        entries@[j].1@,
                    ) == overload_views(self.entries@[j].1@),
            decreases self.entries.len() - i,
        {
            let name = self.entries[i].0.clone();
            let overloads = duplicate_overloads(&self.entries[i].1);
            entries.push((name, overloads));
            i = i + 1;
        }
        let r = OverloadTable { entries };
        proof {
            assert(entry_names(r.entries@) =~= entry_names(self.entries@));
            assert forall|k: Seq<char>| #[trigger] table_view(r.entries@).contains_key(k) implies table_view(r.entries@)[k] == table_view(self.entries@)[k] by {
                let j = entry_names(r.entries@).index_of(k);
                assert(entry_names(r.entries@)[j] == k);
                assert(r.entries@[j].0@ == k);
                lemma_table_view_entry(r.entries@, j);
                lemma_table_view_entry(self.entries@, j);
            }
            assert(table_view(r.entries@) =~= table_view(self.entries@));
        }
        r
    }

    /// Appends `overloads` to what the table holds under `name`.
    pub fn append_overloads(&mut self, name: &String, overloads: &Vec<T>)
        requires
            old(self).well_formed(),
        ensures
            final(self).well_formed(),
            final(self)@ == old(self)@.insert(
                name@,
                overloads_in(old(self)@, name@) + overload_views(overloads@),
            ),
    {
        let mut combined: Vec<T> = match self.get(name) {
            Some(existing) => duplicate_overloads(existing),
            None => Vec::new(),
        };
        assert(overload_views(combined@) == overloads_in(self@, name@));
        let ghost start = overload_views(combined@);
        let mut i: usize = 0;
        while i < overloads.len()
            invariant
                i <= overloads@.len(),
                overload_views(combined@) == start + overload_views(overloads@).take(i as int),
            decreases overloads.len() - i,
        {
            let ghost prev = combined@;
            let copy = overloads[i].duplicate();
            combined.push(copy);
            proof {
                assert(overload_views(combined@) =~= overload_views(prev).push(copy@));
                assert(overload_views(overloads@).take(i + 1) =~= overload_views(overloads@).take(
                    i as int,
                ).push(overloads@[i as int]@));
                assert(overload_views(combined@) =~= start + overload_views(overloads@).take(
                    i + 1,
                ));
            }
            i = i + 1;
        }
        assert(overload_views(overloads@).take(i as int) =~= overload_views(overloads@));
        self.insert(name.clone(), combined);
    }

    /// Appends, per name, the overloads of `other` to those of the table.
    pub fn append_table(&mut self, other: &Self)
        requires
            old(self).well_formed(),
            other.well_formed(),
        ensures
            final(self).well_formed(),
            final(self)@ == concatenated_tables(old(self)@, other@),
    {
        let ghost start = self@;
        proof {
            lemma_table_view_whole(other.entries@);
            assert(concatenated_tables(start, Map::empty()) =~= start);
        }
        let mut i: usize = 0;
        while i < other.entries.len()
            invariant
                i <= other.entries@.len(),
                self.well_formed(),
                other.well_formed(),
                self@ == concatenated_tables(start, table_view(other.entries@.take(i as int))),
            decreases other.entries.len() - i,
        {
            proof {
                lemma_table_view_prefix(other.entries@, i as int);
                lemma_concatenated_tables_insert(
                    start,
                    table_view(other.entries@.take(i as int)),
                    other.entries@[i as int].0@,
                    overload_views(other.entries@[i as int].1@),
                );
            }
            self.append_overloads(&other.entries[i].0, &other.entries[i].1);
            i = i + 1;
        }
        proof {
            lemma_table_view_whole(other.entries@);
        }
    }

    /// The table restricted to `names`: what it holds under each of them, and nothing else.
    pub fn restricted(&self, names: &[String]) -> (r: Self)
        requires
            self.well_formed(),
        ensures
            r.well_formed(),
            r@ == self@.restrict(name_set(names@)),
    {
        let mut r = OverloadTable::new();
        proof {
            assert(self@.restrict(name_set(names@.take(0))) =~= Map::<Seq<char>, Seq<T::V>>::empty());
        }
        let mut i: usize = 0;
        while i < names.len()
            invariant
                i <= names@.len(),
                self.well_formed(),
                r.well_formed(),
                r@ == self@.restrict(name_set(names@.take(i as int))),
            decreases names.len() - i,
        {
            proof {
                assert(name_set(names@.take(i + 1)) =~= name_set(names@.take(i as int)).insert(
                    names@[i as int]@,
                )) by {
                    assert forall|k: Seq<char>| name_set(names@.take(i + 1)).contains(k) implies name_set(names@.take(i as int)).insert(names@[i as int]@).contains(k) by {
                        let j = choose|j: int| 0 <= j < i + 1 && (#[trigger] names@.take(i + 1)[j])@ == k;
                        if j < i {
                            assert(names@.take(i as int)[j]@ == k);
                        }
                    }
                    assert forall|k: Seq<char>| name_set(names@.take(i as int)).insert(names@[i as int]@).contains(k) implies name_set(names@.take(i + 1)).contains(k) by {
                        if k == names@[i as int]@ {
                            assert(names@.take(i + 1)[i as int]@ == k);
                        } else {
                            let j = choose|j: int| 0 <= j < i && (#[trigger] names@.take(i as int)[j])@ == k;
                            assert(names@.take(i + 1)[j]@ == k);
                        }
                    }
                }
            }
            match self.get(&names[i]) {
                Some(overloads) => {
                    let copy = duplicate_overloads(overloads);
                    r.insert(names[i].clone(), copy);
                    proof {
                        assert(r@ =~= self@.restrict(name_set(names@.take(i + 1))));
                    }
                },
                None => {
                    proof {
                        assert(r@ =~= self@.restrict(name_set(names@.take(i + 1))));
                    }
                },
            }
            i = i + 1;
        }
        proof {
            assert(names@.take(names@.len() as int) =~= names@);
        }
        r
    }
}

impl OverloadTable<ResolvedSortId> {
    /// Adds each of `ids` under `name`, except those it holds already.
    pub fn add_overloads(&mut self, name: &String, ids: &Vec<ResolvedSortId>)
        requires
            old(self).well_formed(),
        ensures
            final(self).well_formed(),
            final(self)@ == old(self)@.insert(
                name@,
                union_overloads(overloads_in(old(self)@, name@), ids@),
            ),
    {
        let mut combined: Vec<ResolvedSortId> = match self.get(name) {
            Some(existing) => duplicate_overloads(existing),
            None => Vec::new(),
        };
        proof {
            lemma_ground_views(combined@);
        }
        let ghost start = combined@;
        assert(start == overloads_in(self@, name@));
        let mut i: usize = 0;
        while i < ids.len()
            invariant
                i <= ids@.len(),
                combined@ == union_overloads(start, ids@.take(i as int)),
            decreases ids.len() - i,
        {
            proof {
                assert(ids@.take(i + 1).drop_last() =~= ids@.take(i as int));
            }
            push_overload(&mut combined, ids[i]);
            i = i + 1;
        }
        assert(ids@.take(i as int) =~= ids@);
        proof {
            lemma_ground_views(combined@);
        }
        self.insert(name.clone(), combined);
    }

    /// Adds, per name, the overloads of `other` that the table does not hold yet.
    pub fn add_table(&mut self, other: &Self)
        requires
            old(self).well_formed(),
            other.well_formed(),
        ensures
            final(self).well_formed(),
            final(self)@ == union_tables(old(self)@, other@),
    {
        let ghost start = self@;
        proof {
            lemma_table_view_whole(other.entries@);
            assert forall|k: Seq<char>| #[trigger] start.contains_key(k) implies union_tables(start, Map::empty())[k] == start[k] by {
                assert(overloads_in(Map::<Seq<char>, Seq<ResolvedSortId>>::empty(), k) =~= Seq::empty());
            }
            assert(union_tables(start, Map::empty()) =~= start);
        }
        let mut i: usize = 0;
        while i < other.entries.len()
            invariant
                i <= other.entries@.len(),
                self.well_formed(),
                other.well_formed(),
                self@ == union_tables(start, table_view(other.entries@.take(i as int))),
            decreases other.entries.len() - i,
        {
            proof {
                lemma_table_view_prefix(other.entries@, i as int);
                lemma_ground_views(other.entries@[i as int].1@);
                lemma_union_tables_insert(
                    start,
                    table_view(other.entries@.take(i as int)),
                    other.entries@[i as int].0@,
                    other.entries@[i as int].1@,
                );
            }
            self.add_overloads(&other.entries[i].0, &other.entries[i].1);
            i = i + 1;
        }
        proof {
            lemma_table_view_whole(other.entries@);
        }
    }
}

/// The overloads of the names of a data specification: of its constructors and its mappings by
/// their resolved sorts, and of the polymorphic built-in operators by their schemes.
pub struct Signature {
    pub constructors: OverloadTable<ResolvedSortId>,
    pub mappings: OverloadTable<ResolvedSortId>,
    pub schemes: OverloadTable<PolySortScheme>,
}

impl Signature {
    /// Each of the three tables is well formed.
    pub open spec fn well_formed(&self) -> bool {
        &&& self.constructors.well_formed()
        &&& self.mappings.well_formed()
        &&& self.schemes.well_formed()
    }
}

impl Default for Signature {
    /// The signature that declares nothing.
    fn default() -> (r: Self)
        ensures
            r.well_formed(),
            r.constructors@ == Map::<Seq<char>, Seq<ResolvedSortId>>::empty(),
            r.mappings@ == Map::<Seq<char>, Seq<ResolvedSortId>>::empty(),
            r.schemes@ == Map::<Seq<char>, Seq<(Seq<TypeVarId>, ResolvedSortId)>>::empty(),
    {
        Signature {
            constructors: OverloadTable::new(),
            mappings: OverloadTable::new(),
            schemes: OverloadTable::new(),
        }
    }
}

/// The union of `a` and `b`, per name: the constructor and mapping overloads of `a` followed by
/// those of `b` that are not among them (a redeclared sort is one overload), and the schemes of
/// `a` followed by those of `b` (no two schemes denote the same overload).
pub fn merge_signatures(a: &Signature, b: &Signature) -> (merged: Signature)
    requires
        a.well_formed(),
        b.well_formed(),
    ensures
        merged.well_formed(),
        merged.constructors@ == union_tables(a.constructors@, b.constructors@),
        merged.mappings@ == union_tables(a.mappings@, b.mappings@),
        merged.schemes@ == concatenated_tables(a.schemes@, b.schemes@),
{
    let mut constructors = a.constructors.duplicate();
    constructors.add_table(&b.constructors);
    let mut mappings = a.mappings.duplicate();
    mappings.add_table(&b.mappings);
    let mut schemes = a.schemes.duplicate();
    schemes.append_table(&b.schemes);
    Signature { constructors, mappings, schemes }
}

/// The part of `signature` that declares exactly the constructors named in `constructor_names`
/// and the mappings named in `mapping_names`, with no schemes. The two lists are kept apart: a
/// name can be a constructor of one sort and a mapping of another.
pub fn filter_signature(
    signature: &Signature,
    constructor_names: &[String],
    mapping_names: &[String],
) -> (filtered: Signature)
    requires
        signature.well_formed(),
    ensures
        filtered.well_formed(),
        filtered.constructors@ == signature.constructors@.restrict(name_set(constructor_names@)),
        filtered.mappings@ == signature.mappings@.restrict(name_set(mapping_names@)),
        filtered.schemes@ == Map::<Seq<char>, Seq<(Seq<TypeVarId>, ResolvedSortId)>>::empty(),
{
    Signature {
        constructors: signature.constructors.restricted(constructor_names),
        mappings: signature.mappings.restricted(mapping_names),
        schemes: OverloadTable::new(),
    }
}

/// An overload is in the union of two lists of overloads exactly when it is in one of them; the
/// first list stays in front; and the union has no repeated overload when the first has none.
proof fn lemma_union_overloads(existing: Seq<ResolvedSortId>, added: Seq<ResolvedSortId>)
    ensures
        forall|id: ResolvedSortId|
            #[trigger] union_overloads(existing, added).contains(id) == (existing.contains(id)
                || added.contains(id)),
        union_overloads(existing, added).len() >= existing.len(),
        forall|j: int|
            0 <= j < existing.len() ==> #[trigger] union_overloads(existing, added)[j]
                == existing[j],
        existing.no_duplicates() ==> union_overloads(existing, added).no_duplicates(),
    decreases added.len(),
{
    if added.len() > 0 {
        let rest = added.drop_last();
        lemma_union_overloads(existing, rest);
        let before = union_overloads(existing, rest);
        let last = added.last();
        assert forall|id: ResolvedSortId| #[trigger] added.contains(id) == (rest.contains(id) || id == last) by {
            if added.contains(id) {
                let j = choose|j: int| 0 <= j < added.len() && added[j] == id;
                if j < added.len() - 1 {
                    assert(rest[j] == id);
                }
            }
            if rest.contains(id) {
                let j = choose|j: int| 0 <= j < rest.len() && rest[j] == id;
                assert(added[j] == id);
            }
            if id == last {
                assert(added[added.len() - 1] == id);
            }
        }
        if !before.contains(last) {
            assert forall|id: ResolvedSortId| #[trigger] before.push(last).contains(id) == (before.contains(id) || id == last) by {
                if before.push(last).contains(id) {
                    let j = choose|j: int| 0 <= j < before.push(last).len() && before.push(last)[j] == id;
                    if j < before.len() {
                        assert(before[j] == id);
                    }
                }
                if before.contains(id) {
                    let j = choose|j: int| 0 <= j < before.len() && before[j] == id;
                    assert(before.push(last)[j] == id);
                }
                if id == last {
                    assert(before.push(last)[before.len() as int] == id);
                }
            }
        }
    }
}

/// Adding overloads that a list holds already leaves it as it is.
proof fn lemma_union_overloads_held(existing: Seq<ResolvedSortId>, added: Seq<ResolvedSortId>)
    requires
        forall|j: int| 0 <= j < added.len() ==> existing.contains(#[trigger] added[j]),
    ensures
        union_overloads(existing, added) == existing,
    decreases added.len(),
{
    if added.len() > 0 {
        let rest = added.drop_last();
        assert forall|j: int| 0 <= j < rest.len() implies existing.contains(#[trigger] rest[j]) by {
            assert(rest[j] == added[j]);
        }
        lemma_union_overloads_held(existing, rest);
        assert(existing.contains(added[added.len() - 1]));
    }
}

/// The merge of two signatures declares a constructor or mapping name exactly when one of them
/// does, and under it exactly the overloads that either declares there, those of `a` first and
/// in their order.
pub proof fn law_merge_unions_overloads(
    a: Map<Seq<char>, Seq<ResolvedSortId>>,
    b: Map<Seq<char>, Seq<ResolvedSortId>>,
    name: Seq<char>,
    id: ResolvedSortId,
)
    ensures
        union_tables(a, b).contains_key(name) == (a.contains_key(name) || b.contains_key(name)),
        overloads_in(union_tables(a, b), name).contains(id) == (overloads_in(a, name).contains(id)
            || overloads_in(b, name).contains(id)),
        overloads_in(a, name).is_prefix_of(overloads_in(union_tables(a, b), name)),
{
    lemma_union_overloads(overloads_in(a, name), overloads_in(b, name));
    if !(a.contains_key(name) || b.contains_key(name)) {
        assert(union_overloads(Seq::empty(), Seq::empty()) == Seq::<ResolvedSortId>::empty());
    }
    let merged = overloads_in(union_tables(a, b), name);
    let first = overloads_in(a, name);
    assert(merged.take(first.len() as int) =~= first);
}

/// Merging never declares an overload twice under a name where the first signature does not.
pub proof fn law_merge_declares_each_overload_once(
    a: Map<Seq<char>, Seq<ResolvedSortId>>,
    b: Map<Seq<char>, Seq<ResolvedSortId>>,
    name: Seq<char>,
)
    requires
        overloads_in(a, name).no_duplicates(),
    ensures
        overloads_in(union_tables(a, b), name).no_duplicates(),
{
    lemma_union_overloads(overloads_in(a, name), overloads_in(b, name));
    if !(a.contains_key(name) || b.contains_key(name)) {
        assert(union_overloads(Seq::empty(), Seq::empty()) == Seq::<ResolvedSortId>::empty());
    }
}

/// Merging a signature's constructors or mappings with themselves, or with nothing, changes
/// nothing.
pub proof fn law_merge_with_itself_or_nothing_is_identity(a: Map<Seq<char>, Seq<ResolvedSortId>>)
    ensures
        union_tables(a, a) == a,
        union_tables(a, Map::empty()) == a,
{
    assert forall|name: Seq<char>| #[trigger] a.contains_key(name) implies union_tables(a, a)[name]
        == a[name] && union_tables(a, Map::empty())[name] == a[name] by {
        assert forall|j: int| 0 <= j < a[name].len() implies a[name].contains(
            #[trigger] a[name][j],
        ) by {}
        lemma_union_overloads_held(a[name], a[name]);
        assert(overloads_in(Map::<Seq<char>, Seq<ResolvedSortId>>::empty(), name) =~= Seq::empty());
    }
    assert(union_tables(a, a) =~= a);
    assert(union_tables(a, Map::empty()) =~= a);
}

/// Restricting a signature keeps, of each constructor or mapping name it is restricted to, all of
/// its overloads, and nothing of any other name.
pub proof fn law_filter_keeps_named_overloads(
    table: Map<Seq<char>, Seq<ResolvedSortId>>,
    names: Seq<String>,
    name: Seq<char>,
)
    ensures
        table.restrict(name_set(names)).contains_key(name) == (table.contains_key(name) && exists|
            i: int,
        | 0 <= i < names.len() && names[i]@ == name),
        table.restrict(name_set(names)).contains_key(name) ==> table.restrict(name_set(names))[name]
            == table[name],
{
}

} // verus!
