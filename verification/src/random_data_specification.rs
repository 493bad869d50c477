//! Generation of random data specifications whose sort declarations are acyclic by construction.
use vstd::prelude::*;
use rand::rngs::StdRng;
use crate::random::choose_one;
use crate::random::concatenated;
use crate::random::numbered;
use crate::random::numbered_name;
use crate::random::random_inclusive;
use crate::random::random_ratio;
use crate::sorts::ComplexSort;
use crate::sorts::ConstructorDecl;
use crate::sorts::Sort;
use crate::sorts::SortDecl;
use crate::sorts::SortExpression;
use crate::sorts::IdDecl;
use crate::data_expr::DataExpr;
use crate::random_value_expression::lemma_numbered_name_injective;

verus! {

/// A data specification before type checking: its sort, constructor, map and equation
/// declarations and its type variables.
#[derive(Debug, PartialEq, Eq)]
pub struct UntypedDataSpecification {
    pub sort_declarations: Vec<SortDecl>,
    pub constructor_declarations: Vec<IdDecl>,
    pub map_declarations: Vec<IdDecl>,
    pub equation_declarations: Vec<EquationDecl>,
    pub type_var_declarations: Vec<String>,
}

/// An equation `condition -> lhs = rhs` over the declared `variables`.
#[derive(Debug, PartialEq, Eq)]
pub struct EquationDecl {
    pub variables: Vec<IdDecl>,
    pub condition: Option<DataExpr>,
    pub lhs: DataExpr,
    pub rhs: DataExpr,
}

/// The constructors declared in the sort expressions of `decls`, declaration by declaration.
pub open spec fn declared_constructors(decls: Seq<SortDecl>) -> Seq<Seq<char>>
    decreases decls.len(),
{
    if decls.len() == 0 {
        Seq::empty()
    } else {
        declared_constructors(decls.drop_last()) + match decls.last().expr {
            Some(expr) => constructors_in(expr),
            None => Seq::empty(),
        }
    }
}

/// Every sort that `expr` names is one of `names`.
pub open spec fn refers_only_to(expr: SortExpression, names: Seq<Seq<char>>) -> bool
    decreases expr,
{
    match expr {
        SortExpression::Simple(_) => true,
        SortExpression::Reference(name) => names.contains(name@),
        SortExpression::Struct { inner } => forall|i: int, j: int|
            0 <= i < inner@.len() && 0 <= j < inner@[i].args@.len() ==> refers_only_to(
                #[trigger] inner@[i].args@[j].1,
                names,
            ),
        SortExpression::Complex(_, element) => refers_only_to(*element, names),
        SortExpression::Function { domain, range } => refers_only_to(*domain, names) && refers_only_to(
            *range,
            names,
        ),
        SortExpression::Product { lhs, rhs } => refers_only_to(*lhs, names) && refers_only_to(
            *rhs,
            names,
        ),
    }
}

/// `expr` nests struct fields, container elements and function sorts at most `depth` deep, and
/// every struct in it has one to three constructors of at most two named fields each.
pub open spec fn shaped_within(expr: SortExpression, depth: int) -> bool
    decreases expr,
{
    match expr {
        SortExpression::Simple(_) => true,
        SortExpression::Reference(_) => true,
        SortExpression::Struct { inner } => {
            &&& depth >= 1
            &&& 1 <= inner@.len() <= 3
            &&& forall|i: int| 0 <= i < inner@.len() ==> (#[trigger] inner@[i]).args@.len() <= 2
            &&& forall|i: int| 0 <= i < inner@.len() ==> (#[trigger] inner@[i]).recogniser is None
            &&& forall|i: int, j: int|
                0 <= i < inner@.len() && 0 <= j < inner@[i].args@.len() ==> (#[trigger] inner@[i].args@[j]).0 is Some
                    && shaped_within(inner@[i].args@[j].1, depth - 1)
        },
        SortExpression::Complex(_, element) => depth >= 1 && shaped_within(*element, depth - 1),
        SortExpression::Function { domain, range } => depth >= 1 && shaped_within(*domain, 0)
            && shaped_within(*range, depth - 1),
        SortExpression::Product { .. } => false,
    }
}

/// Where a counter of `usize` that wraps around at its end stands after counting `count` on from
/// `start`.
pub open spec fn counted(start: int, count: int) -> int {
    (start + count) % (usize::MAX as int + 1)
}

/// The constructor names `c` followed by the counter from `start` on, `count` of them.
pub open spec fn constructor_run(start: nat, count: nat) -> Seq<Seq<char>> {
    Seq::new(count, |k: int| numbered_name(seq!['c'], counted(start as int, k) as nat))
}

/// The names of the constructors declared in `expr`, in the order of a walk that meets each
/// constructor before the sorts of its fields.
pub open spec fn constructors_in(expr: SortExpression) -> Seq<Seq<char>>
    decreases expr, 0nat,
{
    match expr {
        SortExpression::Struct { inner } => {
            proof {
                assert(decreases_to!(expr => inner));
            }
            constructors_in_decls(inner@)
        },
        SortExpression::Complex(_, element) => constructors_in(*element),
        SortExpression::Function { domain, range } => constructors_in(*domain) + constructors_in(*range),
        SortExpression::Product { lhs, rhs } => constructors_in(*lhs) + constructors_in(*rhs),
        _ => Seq::empty(),
    }
}

/// The names of the constructors `decls` and of those declared in their field sorts, in order.
pub open spec fn constructors_in_decls(decls: Seq<ConstructorDecl>) -> Seq<Seq<char>>
    decreases decls, 0nat,
{
    if decls.len() == 0 {
        Seq::empty()
    } else {
        proof {
            assert(decreases_to!(decls => decls[decls.len() - 1]));
        }
        let last = decls[decls.len() - 1];
        constructors_in_decls(decls.drop_last()) + seq![last.name@] + constructors_in_fields(last.args@)
    }
}

/// The names of the constructors declared in the sorts of `fields`, in order.
pub open spec fn constructors_in_fields(fields: Seq<(Option<String>, SortExpression)>) -> Seq<Seq<char>>
    decreases fields, 0nat,
{
    if fields.len() == 0 {
        Seq::empty()
    } else {
        proof {
            assert(decreases_to!(fields => fields[fields.len() - 1]));
        }
        constructors_in_fields(fields.drop_last()) + constructors_in(fields[fields.len() - 1].1)
    }
}

/// Two runs of constructor names, the second starting where the first ends, make one run, and
/// counting on in two steps counts on by their sum.
proof fn lemma_runs_join(start: nat, first: nat, second: nat)
    requires
        start <= usize::MAX,
    ensures
        constructor_run(start, first) + constructor_run(counted(start as int, first as int) as nat, second)
            =~= constructor_run(start, first + second),
        counted(counted(start as int, first as int), second as int) == counted(start as int, (first + second) as int),
{
    let m = usize::MAX as int + 1;
    let middle = counted(start as int, first as int);
    assert(0 <= middle < m) by {
        vstd::arithmetic::div_mod::lemma_mod_bound((start + first) as int, m);
    }
    vstd::arithmetic::div_mod::lemma_add_mod_noop_right(second as int, (start + first) as int, m);
    let joined = constructor_run(start, first) + constructor_run(middle as nat, second);
    assert forall|k: int| 0 <= k < first + second implies joined[k] == constructor_run(start, first + second)[k] by {
        if k >= first {
            vstd::arithmetic::div_mod::lemma_add_mod_noop_right(k - first, (start + first) as int, m);
            assert(counted(middle, k - first) == counted(start as int, k));
        }
    }
}

/// A run from `c0` that does not wrap around names each constructor differently.
proof fn lemma_short_run_distinct(count: nat)
    ensures
        count <= usize::MAX + 1 ==> constructor_run(0, count).no_duplicates(),
{
    if count <= usize::MAX + 1 {
        let m = usize::MAX as int + 1;
        assert forall|i: int, j: int| 0 <= i < count && 0 <= j < count && i != j implies constructor_run(0, count)[i]
            != constructor_run(0, count)[j] by {
            vstd::arithmetic::div_mod::lemma_small_mod(i as nat, m as nat);
            vstd::arithmetic::div_mod::lemma_small_mod(j as nat, m as nat);
            if constructor_run(0, count)[i] == constructor_run(0, count)[j] {
                lemma_numbered_name_injective(seq!['c'], i as nat, j as nat);
            }
        }
    }
}

/// The views of a list of names.
pub open spec fn names_of(names: Seq<String>) -> Seq<Seq<char>> {
    names.map_values(|name: String| name@)
}

/// Picks a leaf sort: a basic sort, or (once at least one exists) an earlier declared sort.
fn random_leaf_sort(rng: &mut StdRng, earlier: &[String]) -> (r: SortExpression)
    ensures
        refers_only_to(r, names_of(earlier@)),
        shaped_within(r, 0),
        r is Simple || r is Reference,
        earlier@.len() == 0 ==> r is Simple,
{
    let use_earlier = earlier.len() != 0 && random_ratio(rng, 1, 2);
    if use_earlier {
        let name = choose_one(rng, earlier).unwrap();
        proof {
            let k = choose|k: int| 0 <= k < earlier@.len() && earlier@[k] == *name;
            assert(names_of(earlier@)[k] == name@);
        }
        SortExpression::Reference(name.clone())
    } else {
        let basic: [Sort; 5] = [Sort::Bool, Sort::Pos, Sort::Nat, Sort::Int, Sort::Real];
        let sort = choose_one(rng, &basic).unwrap();
        SortExpression::Simple(*sort)
    }
}

/// Generates one sort's defining expression. `depth` bounds how many further constructor
/// levels (struct field / container element / function domain-range) may nest before falling
/// back to a leaf sort. The constructors it declares are numbered from `constructor_id` on, which
/// counts on past them, wrapping around at the end of `usize` as an addition in a release build
/// does.
fn random_sort_expr(
    rng: &mut StdRng,
    earlier: &[String],
    depth: usize,
    constructor_id: &mut usize,
) -> (r: SortExpression)
    ensures
        refers_only_to(r, names_of(earlier@)),
        shaped_within(r, depth as int),
        constructors_in(r) == constructor_run(*old(constructor_id) as nat, constructors_in(r).len()),
        *final(constructor_id) == counted(*old(constructor_id) as int, constructors_in(r).len() as int),
    decreases depth, 1nat,
{
    let ghost start = *constructor_id;
    proof {
        assert(constructor_run(start as nat, 0) =~= Seq::<Seq<char>>::empty());
        vstd::arithmetic::div_mod::lemma_small_mod(start as nat, usize::MAX as nat + 1);
    }
    if depth == 0 {
        return random_leaf_sort(rng, earlier);
    }
    let choice = random_inclusive(rng, 0, 3);
    if choice == 0 {
        random_leaf_sort(rng, earlier)
    } else if choice == 1 {
        let constructor_count = random_inclusive(rng, 1, 3);
        let mut inner: Vec<ConstructorDecl> = Vec::new();
        let mut k: usize = 0;
        while k < constructor_count
            invariant
                k <= constructor_count <= 3,
                inner@.len() == k,
                depth >= 1,
                start <= usize::MAX,
                forall|i: int| 0 <= i < k ==> constructor_shaped(#[trigger] inner@[i], names_of(earlier@), depth - 1),
                constructors_in_decls(inner@) == constructor_run(start as nat, constructors_in_decls(inner@).len()),
                *constructor_id == counted(start as int, constructors_in_decls(inner@).len() as int),
            decreases constructor_count - k,
        {
            let ghost before = inner@;
            let ghost middle = *constructor_id;
            let constructor = random_constructor(rng, earlier, depth - 1, constructor_id);
            inner.push(constructor);
            proof {
                assert(inner@.drop_last() =~= before);
                let done = constructors_in_decls(before).len();
                let added = (seq![constructor.name@] + constructors_in_fields(constructor.args@)).len();
                assert(constructors_in_decls(inner@) == constructors_in_decls(before) + (seq![constructor.name@]
                    + constructors_in_fields(constructor.args@)));
                lemma_runs_join(start as nat, done, added);
            }
            k = k + 1;
        }
        proof {
            assert forall|i: int, j: int|
                0 <= i < inner@.len() && 0 <= j < inner@[i].args@.len() implies refers_only_to(
                #[trigger] inner@[i].args@[j].1,
                names_of(earlier@),
            ) by {
                assert(constructor_shaped(inner@[i], names_of(earlier@), depth - 1));
            }
        }
        let r = SortExpression::Struct { inner };
        proof {
            assert(constructors_in(r) == constructors_in_decls(inner@));
        }
        r
    } else if choice == 2 {
        let containers: [ComplexSort; 5] = [
            ComplexSort::List,
            ComplexSort::SetSort,
            ComplexSort::FSet,
            ComplexSort::FBag,
            ComplexSort::Bag,
        ];
        let container = *choose_one(rng, &containers).unwrap();
        let element = random_sort_expr(rng, earlier, depth - 1, constructor_id);
        SortExpression::Complex(container, Box::new(element))
    } else {
        let domain = random_leaf_sort(rng, earlier);
        let range = random_sort_expr(rng, earlier, depth - 1, constructor_id);
        proof {
            assert(constructors_in(domain) =~= Seq::<Seq<char>>::empty());
            assert(constructors_in(domain) + constructors_in(range) =~= constructors_in(range));
        }
        SortExpression::Function { domain: Box::new(domain), range: Box::new(range) }
    }
}

/// A generated constructor: at most two named fields, no recogniser, every field sort naming
/// only `names` and nested at most `depth` deep.
pub open spec fn constructor_shaped(constructor: ConstructorDecl, names: Seq<Seq<char>>, depth: int) -> bool {
    &&& constructor.args@.len() <= 2
    &&& constructor.recogniser is None
    &&& forall|j: int|
        0 <= j < constructor.args@.len() ==> (#[trigger] constructor.args@[j]).0 is Some && shaped_within(
            constructor.args@[j].1,
            depth,
        ) && refers_only_to(constructor.args@[j].1, names)
}

/// Generates the constructor `c<id>` with up to two fields, advancing `constructor_id` past it
/// and past the constructors of its field sorts.
fn random_constructor(
    rng: &mut StdRng,
    earlier: &[String],
    depth: usize,
    constructor_id: &mut usize,
) -> (r: ConstructorDecl)
    ensures
        constructor_shaped(r, names_of(earlier@), depth as int),
        r.name@ == numbered_name(seq!['c'], *old(constructor_id) as nat),
        ({
            let names = seq![r.name@] + constructors_in_fields(r.args@);
            &&& names == constructor_run(*old(constructor_id) as nat, names.len())
            &&& *final(constructor_id) == counted(*old(constructor_id) as int, names.len() as int)
        }),
    decreases depth, 2nat,
{
    let name = numbered("c", *constructor_id);
    proof {
        reveal_strlit("c");
    }
    let ghost first = *constructor_id;
    *constructor_id = constructor_id.wrapping_add(1);
    proof {
        assert("c"@ =~= seq!['c']);
        vstd::arithmetic::div_mod::lemma_small_mod(first as nat, usize::MAX as nat + 1);
        assert(constructor_run(first as nat, 1)[0] == name@);
        assert(constructor_run(first as nat, 1) =~= seq![name@]);
        assert(seq![name@] + Seq::<Seq<char>>::empty() =~= seq![name@]);
        if first < usize::MAX {
            vstd::arithmetic::div_mod::lemma_small_mod((first + 1) as nat, usize::MAX as nat + 1);
        } else {
            vstd::arithmetic::div_mod::lemma_mod_self_0(usize::MAX as int + 1);
        }
        assert(*constructor_id == counted(first as int, 1));
    }
    let field_count = random_inclusive(rng, 0, 2);
    let mut args: Vec<(Option<String>, SortExpression)> = Vec::new();
    let prefix = concatenated(name.as_str(), "_f");
    let mut field_index: usize = 0;
    while field_index < field_count
        invariant
            field_index <= field_count <= 2,
            args@.len() == field_index,
            first <= usize::MAX,
            forall|j: int|
                0 <= j < field_index ==> (#[trigger] args@[j]).0 is Some && shaped_within(
                    args@[j].1,
                    depth as int,
                ) && refers_only_to(args@[j].1, names_of(earlier@)),
            seq![name@] + constructors_in_fields(args@) == constructor_run(
                first as nat,
                (seq![name@] + constructors_in_fields(args@)).len(),
            ),
            *constructor_id == counted(first as int, (seq![name@] + constructors_in_fields(args@)).len() as int),
        decreases field_count - field_index,
    {
        let field_name = numbered(prefix.as_str(), field_index);
        let ghost before = args@;
        let sort = random_sort_expr(rng, earlier, depth, constructor_id);
        args.push((Some(field_name), sort));
        proof {
            assert(args@.drop_last() =~= before);
            assert(constructors_in_fields(args@) == constructors_in_fields(before) + constructors_in(sort));
            assert(seq![name@] + constructors_in_fields(args@) =~= (seq![name@] + constructors_in_fields(before))
                + constructors_in(sort));
            lemma_runs_join(
                first as nat,
                (seq![name@] + constructors_in_fields(before)).len(),
                constructors_in(sort).len(),
            );
        }
        field_index = field_index + 1;
    }
    ConstructorDecl { name, args, recogniser: None }
}

/// Generates `sort_count` random sort declarations `Sort0`, `Sort1`, ..., each referencing only
/// sorts declared earlier in the same list (plus the built-in basic sorts) -- so the dependency
/// graph is acyclic by construction and every generated sort is finite/constructible. Every
/// declaration is a `sort Name = <expr>;` alias (never a bare, unconstructible `sort Name;`),
/// one of: an alias to a basic sort, a struct with 1-3 constructors, a container
/// (`List`/`Set`/`FSet`/`FBag`/`Bag`) of an earlier sort, or a function sort over earlier sorts.
pub fn random_data_specification(rng: &mut StdRng, sort_count: usize, max_depth: usize) -> (r:
    UntypedDataSpecification)
    ensures
        r.sort_declarations@.len() == sort_count,
        forall|i: int|
            0 <= i < sort_count ==> {
                let declaration = #[trigger] r.sort_declarations@[i];
                &&& declaration.identifier@ == numbered_name(seq!['S', 'o', 'r', 't'], i as nat)
                &&& declaration.expr is Some
                &&& shaped_within(declaration.expr->0, max_depth as int)
                &&& refers_only_to(
                    declaration.expr->0,
                    Seq::new(i as nat, |j: int| numbered_name(seq!['S', 'o', 'r', 't'], j as nat)),
                )
            },
        declared_constructors(r.sort_declarations@) == constructor_run(0, declared_constructors(r.sort_declarations@).len()),
        declared_constructors(r.sort_declarations@).len() <= usize::MAX + 1 ==> declared_constructors(
            r.sort_declarations@,
        ).no_duplicates(),
        r.constructor_declarations@.len() == 0,
        r.map_declarations@.len() == 0,
        r.equation_declarations@.len() == 0,
        r.type_var_declarations@.len() == 0,
{
    let mut sort_names: Vec<String> = Vec::new();
    let mut sort_declarations: Vec<SortDecl> = Vec::new();
    let mut constructor_id: usize = 0;
    let mut i: usize = 0;
    proof {
        assert(constructor_run(0, 0) =~= Seq::<Seq<char>>::empty());
        assert(declared_constructors(sort_declarations@) =~= Seq::<Seq<char>>::empty());
        vstd::arithmetic::div_mod::lemma_small_mod(0, usize::MAX as nat + 1);
    }
    while i < sort_count
        invariant
            i <= sort_count,
            sort_names@.len() == i,
            sort_declarations@.len() == i,
            names_of(sort_names@) =~= Seq::new(i as nat, |j: int| numbered_name(seq!['S', 'o', 'r', 't'], j as nat)),
            forall|k: int|
                0 <= k < i ==> {
                    let declaration = #[trigger] sort_declarations@[k];
                    &&& declaration.identifier@ == numbered_name(seq!['S', 'o', 'r', 't'], k as nat)
                    &&& declaration.expr is Some
                    &&& shaped_within(declaration.expr->0, max_depth as int)
                    &&& refers_only_to(
                        declaration.expr->0,
                        Seq::new(k as nat, |j: int| numbered_name(seq!['S', 'o', 'r', 't'], j as nat)),
                    )
                },
            declared_constructors(sort_declarations@) == constructor_run(0, declared_constructors(sort_declarations@).len()),
            constructor_id == counted(0, declared_constructors(sort_declarations@).len() as int),
        decreases sort_count - i,
    {
        let name = numbered("Sort", i);
        proof {
            reveal_strlit("Sort");
            assert("Sort"@ =~= seq!['S', 'o', 'r', 't']);
        }
        let ghost before = declared_constructors(sort_declarations@);
        let expr = random_sort_expr(rng, sort_names.as_slice(), max_depth, &mut constructor_id);
        proof {
            lemma_runs_join(0, before.len(), constructors_in(expr).len());
        }
        let declaration_name = name.clone();
        let ghost expr_view = expr;
        let ghost declarations_before = sort_declarations@;
        sort_declarations.push(SortDecl { identifier: declaration_name, expr: Some(expr) });
        proof {
            assert(sort_declarations@.drop_last() =~= declarations_before);
            assert(declared_constructors(sort_declarations@) == before + constructors_in(expr_view));
        }
        let ghost old_names = sort_names@;
        let ghost name_view = name@;
        sort_names.push(name);
        proof {
            let expected = Seq::new((i + 1) as nat, |j: int| numbered_name(seq!['S', 'o', 'r', 't'], j as nat));
            assert forall|j: int| 0 <= j <= i implies names_of(sort_names@)[j] == expected[j] by {
                if j < i {
                    assert(sort_names@[j] == old_names[j]);
                    assert(names_of(old_names)[j] == expected[j]);
                } else {
                    assert(sort_names@[j]@ == name_view);
                }
            }
            assert(names_of(sort_names@) =~= expected);
        }
        i = i + 1;
    }
    proof {
        lemma_short_run_distinct(declared_constructors(sort_declarations@).len());
    }
    UntypedDataSpecification {
        sort_declarations,
        constructor_declarations: Vec::new(),
        map_declarations: Vec::new(),
        equation_declarations: Vec::new(),
        type_var_declarations: Vec::new(),
    }
}

} // verus!
