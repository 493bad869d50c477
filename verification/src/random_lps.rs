//! Parts of random process specifications: the process variables with their names and
//! parameters, and the initial process that composes their instances in parallel under random
//! wrappers.
use vstd::prelude::*;
use vstd::multiset::Multiset;
use rand::rngs::StdRng;
use crate::random::choose_one;
use crate::random::numbered;
use crate::random::numbered_name;
use crate::random::random_inclusive;
use crate::random_pbes::min_count;
use crate::random::take_random;
use crate::random_pbes::basic_sort;
use crate::random_pbes::is_bool_name;
use crate::sorts::IdDecl;
use crate::sorts::Sort;
use crate::sorts::SortDecl;
use crate::sorts::SortExpression;
use crate::process::CommExpr;
use crate::process::ActDecl;
use crate::process::Assignment;
use crate::process::ProcDecl;
use crate::process::UntypedProcessSpecification;
use crate::data_expr::DataExpr;
use crate::data_expr::DataExprBinaryOp;
use crate::random::decimal;
use crate::process::ProcExprBinaryOp;
use crate::process::MultiActionLabel;
use crate::process::ProcessExpr;
use crate::process::Rename;
use crate::process::insert_label;
use crate::process::insert_name;
use crate::process::labels_ascending;
use crate::process::labels_of;
use crate::process::names_ascending;
use crate::process::names_of;

verus! {

/// A process variable of a generated specification: its name and its parameters.
#[derive(Debug, PartialEq, Eq)]
pub struct ProcVar {
    pub name: String,
    pub params: Vec<IdDecl>,
}

/// The name of the process variable at `index`: `P`, `Q` or `R`.
pub open spec fn process_name(index: int) -> Seq<char> {
    if index == 0 {
        seq!['P']
    } else if index == 1 {
        seq!['Q']
    } else {
        seq!['R']
    }
}

/// The names that the basic parameters are drawn from: the Boolean ones, followed by the
/// natural-number ones when those are asked for.
pub open spec fn parameter_pool(use_integers: bool) -> Seq<Seq<char>> {
    if use_integers {
        seq![seq!['b'], seq!['c'], seq!['m'], seq!['n']]
    } else {
        seq![seq!['b'], seq!['c']]
    }
}

/// The declaration of a variable `name` of the basic sort `sort`.
pub fn id_decl(name: &str, sort: Sort) -> (r: IdDecl)
    ensures
        r.identifier@ == name@,
        r.sort == SortExpression::Simple(sort),
{
    IdDecl { identifier: name.to_owned(), sort: SortExpression::Simple(sort) }
}

/// `proc_var` is a process variable as [`random_proc_var`] makes them for `index`: named after
/// its index; with up to two basic parameters of distinct names from the pool, each of the sort
/// that its name gives it; and, when there are declared sorts, last a parameter named `rich` and
/// the index, of one of the declared sorts.
pub open spec fn is_generated_proc_var(
    proc_var: ProcVar,
    index: nat,
    use_integers: bool,
    sort_decls: Seq<SortDecl>,
) -> bool {
    let params = proc_var.params@;
    let basic = if sort_decls.len() > 0 {
        params.len() - 1
    } else {
        params.len() as int
    };
    &&& proc_var.name@ == process_name(index as int)
    &&& 0 <= basic <= 2
    &&& forall|i: int|
        #![trigger params[i]]
        0 <= i < basic ==> parameter_pool(use_integers).contains(params[i].identifier@)
            && params[i].sort == basic_sort(params[i].identifier@)
    &&& forall|i: int, j: int|
        #![trigger params[i], params[j]]
        0 <= i < j < basic ==> params[i].identifier@ != params[j].identifier@
    &&& sort_decls.len() > 0 ==> {
        &&& params[basic].identifier@ == numbered_name(seq!['r', 'i', 'c', 'h'], index)
        &&& exists|d: int|
            0 <= d < sort_decls.len() && params[basic].sort == SortExpression::Reference(
                #[trigger] sort_decls[d].identifier,
            )
    }
}

/// Generates a process variable's parameter list: zero to two Boolean or natural-number
/// parameters, plus, when `sort_decls` is non-empty, one parameter of a randomly chosen declared
/// sort.
pub fn random_proc_var(rng: &mut StdRng, index: usize, use_integers: bool, sort_decls: &[SortDecl]) -> (r:
    ProcVar)
    requires
        index < 3,
    ensures
        is_generated_proc_var(r, index as nat, use_integers, sort_decls@),
        exists|size: int| 0 <= size <= 2 && basic_param_count(r, sort_decls@) == #[trigger] min_count(size, parameter_pool(use_integers).len() as int),
{
    let size = random_inclusive(rng, 0, 2);
    proc_var_of_size(rng, index, use_integers, sort_decls, size)
}

/// The number of basic parameters of `proc_var`: all of them, but for the last one when there
/// are declared sorts.
pub open spec fn basic_param_count(proc_var: ProcVar, sort_decls: Seq<SortDecl>) -> int {
    if sort_decls.len() > 0 {
        proc_var.params@.len() - 1
    } else {
        proc_var.params@.len() as int
    }
}

/// Makes a process variable as [`random_proc_var`] does, with `size` basic parameters drawn
/// from the pool, or all of the pool when it holds fewer.
pub fn proc_var_of_size(
    rng: &mut StdRng,
    index: usize,
    use_integers: bool,
    sort_decls: &[SortDecl],
    size: usize,
) -> (r: ProcVar)
    requires
        index < 3,
        size <= 2,
    ensures
        is_generated_proc_var(r, index as nat, use_integers, sort_decls@),
        basic_param_count(r, sort_decls@) == min_count(size as int, parameter_pool(use_integers).len() as int),
{
    let mut pool: Vec<IdDecl> = vec![id_decl("b", Sort::Bool), id_decl("c", Sort::Bool)];
    if use_integers {
        pool.push(id_decl("m", Sort::Nat));
        pool.push(id_decl("n", Sort::Nat));
    }
    proof {
        reveal_strlit("b");
        reveal_strlit("c");
        reveal_strlit("m");
        reveal_strlit("n");
        assert("b"@ =~= seq!['b']);
        assert("c"@ =~= seq!['c']);
        assert("m"@ =~= seq!['m']);
        assert("n"@ =~= seq!['n']);
        assert(is_bool_name(seq!['b']) && is_bool_name(seq!['c']));
        assert(!is_bool_name(seq!['m'])) by {
            assert(seq!['m'][0] != seq!['b'][0] && seq!['m'][0] != seq!['c'][0]);
        }
        assert(!is_bool_name(seq!['n'])) by {
            assert(seq!['n'][0] != seq!['b'][0] && seq!['n'][0] != seq!['c'][0]);
        }
        assert forall|k: int| 0 <= k < pool@.len() implies #[trigger] pool@[k].identifier@ == parameter_pool(use_integers)[k]
            && pool@[k].sort == basic_sort(pool@[k].identifier@) by {
            if k == 0 {
                assert(pool@[0].identifier@ == seq!['b']);
            } else if k == 1 {
                assert(pool@[1].identifier@ == seq!['c']);
            } else if k == 2 {
                assert(pool@[2].identifier@ == seq!['m']);
            } else {
                assert(pool@[3].identifier@ == seq!['n']);
            }
        }
        assert forall|a: int, b: int| 0 <= a < pool@.len() && 0 <= b < pool@.len() && a != b implies pool@[a] != pool@[b] by {
            assert(pool@[a].identifier@[0] != pool@[b].identifier@[0]);
        }
    }
    let ghost start = pool@;
    proof {
        assert(start.len() == parameter_pool(use_integers).len());
    }
    let mut params = take_random(rng, &mut pool, size);
    proof {
        assert forall|i: int| 0 <= i < params@.len() implies parameter_pool(use_integers).contains(#[trigger] params@[i].identifier@)
            && params@[i].sort == basic_sort(params@[i].identifier@) by {
            assert(start.contains(params@[i]));
            let k = choose|k: int| 0 <= k < start.len() && start[k] == params@[i];
            assert(start[k].identifier@ == parameter_pool(use_integers)[k]);
        }
        assert forall|a: int, b: int| 0 <= a < b < params@.len() implies #[trigger] params@[a].identifier@ != #[trigger] params@[b].identifier@ by {
            assert(start.contains(params@[a]));
            assert(start.contains(params@[b]));
            let ka = choose|k: int| 0 <= k < start.len() && start[k] == params@[a];
            let kb = choose|k: int| 0 <= k < start.len() && start[k] == params@[b];
            assert(ka != kb);
            assert(start[ka].identifier@[0] != start[kb].identifier@[0]);
        }
    }
    let basic = params.len();
    match choose_one(rng, sort_decls) {
        Some(decl) => {
            let rich = numbered("rich", index);
            proof {
                reveal_strlit("rich");
                let d = choose|d: int| 0 <= d < sort_decls@.len() && sort_decls@[d] == *decl;
                assert(sort_decls@[d].identifier == decl.identifier);
            }
            params.push(IdDecl { identifier: rich, sort: SortExpression::Reference(decl.identifier.clone()) });
        },
        None => {},
    }
    let name = if index == 0 {
        "P".to_owned()
    } else if index == 1 {
        "Q".to_owned()
    } else {
        "R".to_owned()
    };
    proof {
        reveal_strlit("P");
        reveal_strlit("Q");
        reveal_strlit("R");
        assert("P"@ =~= seq!['P']);
        assert("Q"@ =~= seq!['Q']);
        assert("R"@ =~= seq!['R']);
    }
    let r = ProcVar { name, params };
    proof {
        let ps = r.params@;
        let b = if sort_decls@.len() > 0 { ps.len() - 1 } else { ps.len() as int };
        assert(b == basic);
        assert(r.name@ == process_name(index as int));
        assert(0 <= b <= 2);
        assert(forall|i: int| 0 <= i < b ==> parameter_pool(use_integers).contains(#[trigger] ps[i].identifier@));
        assert(forall|i: int| 0 <= i < b ==> #[trigger] ps[i].sort == basic_sort(ps[i].identifier@));
        assert(forall|i: int, j: int| 0 <= i < j < b ==> #[trigger] ps[i].identifier@ != #[trigger] ps[j].identifier@);
        assert(sort_decls@.len() > 0 ==> ps[b].identifier@ == numbered_name(seq!['r', 'i', 'c', 'h'], index as nat));
    }
    r
}


/// The names of the actions `actions`.
pub open spec fn action_names(actions: Seq<&str>) -> Seq<Seq<char>> {
    actions.map_values(|action: &str| action@)
}

/// `labels` are as an allow wrapper draws them from the action names `names`: one to five labels
/// in ascending order, each of one or two names of `names` in ascending order.
pub open spec fn drawn_labels(labels: Seq<Seq<Seq<char>>>, names: Seq<Seq<char>>) -> bool {
    &&& 1 <= labels.len() <= 5
    &&& labels_ascending(labels)
    &&& forall|l: int|
        0 <= l < labels.len() ==> {
            &&& 1 <= (#[trigger] labels[l]).len() <= 2
            &&& names_ascending(labels[l])
            &&& forall|k: int| 0 <= k < labels[l].len() ==> names.contains(#[trigger] labels[l][k])
        }
}

/// `result` is `operand` under one wrapper of those [`apply_wrapper`] draws over the action names
/// `names`: hiding or blocking one of the names; renaming one of them into one at another
/// position; communicating the names at two positions into the name at a third; or allowing the
/// labels of [`drawn_labels`]. With fewer than three names, where a drawn renaming or
/// communication has too few names to take, it may also be `operand` itself.
pub open spec fn is_wrapped(result: ProcessExpr, names: Seq<Seq<char>>, operand: ProcessExpr) -> bool {
    ||| names.len() < 3 && result == operand
    ||| result matches ProcessExpr::Hide { actions: hidden, operand: inner } && *inner == operand
        && hidden@.len() == 1 && names.contains(hidden@[0]@)
    ||| result matches ProcessExpr::Block { actions: blocked, operand: inner } && *inner == operand
        && blocked@.len() == 1 && names.contains(blocked@[0]@)
    ||| result matches ProcessExpr::Rename { renames, operand: inner } && *inner == operand && renames@.len() == 1
        && exists|i: int, j: int|
        0 <= i < names.len() && 0 <= j < names.len() && i != j && renames@[0].from@ == #[trigger] names[i]
            && renames@[0].to@ == #[trigger] names[j]
    ||| result matches ProcessExpr::Comm { comm, operand: inner } && *inner == operand && comm@.len() == 1
        && comm@[0].lhs.actions@.len() == 2 && exists|i: int, j: int, k: int|
        0 <= i < names.len() && 0 <= j < names.len() && 0 <= k < names.len() && i != j && i != k && j != k
            && comm@[0].lhs.actions@[0]@ == #[trigger] names[i] && comm@[0].lhs.actions@[1]@ == #[trigger] names[j]
            && comm@[0].rhs@ == #[trigger] names[k]
    ||| result matches ProcessExpr::Allow { actions: allowed, operand: inner } && *inner == operand && drawn_labels(
        labels_of(allowed@),
        names,
    )
}

/// One of the actions, drawn at random.
fn draw_action(rng: &mut StdRng, actions: &[&str]) -> (r: String)
    requires
        actions@.len() > 0,
    ensures
        action_names(actions@).contains(r@),
{
    match choose_one(rng, actions) {
        Some(action) => {
            let name = (*action).to_owned();
            proof {
                let k = choose|k: int| 0 <= k < actions@.len() && actions@[k] == *action;
                assert(action_names(actions@)[k] == name@);
            }
            name
        },
        None => {
            proof {
                assert(actions@.contains(actions@[0]));
            }
            String::new()
        },
    }
}

/// The labels of an allow wrapper: five times one or two actions drawn at random, each label and
/// the labels kept in ascending order without repetitions.
fn draw_labels(rng: &mut StdRng, actions: &[&str]) -> (r: Vec<MultiActionLabel>)
    requires
        actions@.len() > 0,
    ensures
        drawn_labels(labels_of(r@), action_names(actions@)),
{
    let ghost names = action_names(actions@);
    let mut labels: Vec<MultiActionLabel> = Vec::new();
    let mut n: usize = 0;
    while n < 5
        invariant
            actions@.len() > 0,
            names == action_names(actions@),
            n <= 5,
            labels@.len() <= n,
            n > 0 ==> labels@.len() >= 1,
            labels_ascending(labels_of(labels@)),
            forall|l: int|
                0 <= l < labels@.len() ==> {
                    &&& 1 <= (#[trigger] labels_of(labels@)[l]).len() <= 2
                    &&& names_ascending(labels_of(labels@)[l])
                    &&& forall|k: int| 0 <= k < labels_of(labels@)[l].len() ==> names.contains(#[trigger] labels_of(labels@)[l][k])
                },
        decreases 5 - n,
    {
        let size = random_inclusive(rng, 1, 2);
        let mut acts: Vec<String> = Vec::new();
        let mut m: usize = 0;
        while m < size
            invariant
                actions@.len() > 0,
                names == action_names(actions@),
                m <= size <= 2,
                acts@.len() <= m,
                m > 0 ==> acts@.len() >= 1,
                names_ascending(names_of(acts@)),
                forall|k: int| 0 <= k < acts@.len() ==> names.contains(#[trigger] names_of(acts@)[k]),
            decreases size - m,
        {
            let name = draw_action(rng, actions);
            let ghost before = names_of(acts@);
            let ghost value = name@;
            insert_name(&mut acts, name);
            proof {
                let after = names_of(acts@);
                assert(after.contains(value));
                assert forall|k: int| 0 <= k < acts@.len() implies names.contains(#[trigger] names_of(acts@)[k]) by {
                    assert(after.contains(after[k]));
                    if after[k] != value {
                        let j = choose|j: int| 0 <= j < before.len() && before[j] == after[k];
                    }
                }
            }
            m = m + 1;
        }
        let label = MultiActionLabel { actions: acts };
        let ghost before = labels_of(labels@);
        let ghost value = label@;
        proof {
            assert(value == names_of(label.actions@));
        }
        insert_label(&mut labels, label);
        proof {
            let after = labels_of(labels@);
            assert(after.contains(value));
            assert forall|l: int| 0 <= l < labels@.len() implies {
                &&& 1 <= (#[trigger] labels_of(labels@)[l]).len() <= 2
                &&& names_ascending(labels_of(labels@)[l])
                &&& forall|k: int| 0 <= k < labels_of(labels@)[l].len() ==> names.contains(#[trigger] labels_of(labels@)[l][k])
            } by {
                assert(after.contains(after[l]));
                if after[l] != value {
                    let j = choose|j: int| 0 <= j < before.len() && before[j] == after[l];
                }
            }
        }
        n = n + 1;
    }
    labels
}

/// Puts one random wrapper around `expr`: hiding, blocking, renaming, communication or allowing
/// of actions drawn from `actions`. A renaming needs two actions and a communication three;
/// where there are fewer, `expr` comes back as it is.
pub fn apply_wrapper(rng: &mut StdRng, actions: &[&str], expr: ProcessExpr) -> (r: ProcessExpr)
    requires
        actions@.len() > 0,
    ensures
        is_wrapped(r, action_names(actions@), expr),
{
    let ghost names = action_names(actions@);
    let ghost operand = expr;
    let arm = random_inclusive(rng, 0, 4);
    if arm == 0 {
        let name = draw_action(rng, actions);
        ProcessExpr::Hide { actions: vec![name], operand: Box::new(expr) }
    } else if arm == 1 {
        let name = draw_action(rng, actions);
        ProcessExpr::Block { actions: vec![name], operand: Box::new(expr) }
    } else if arm == 2 && actions.len() >= 2 {
        let mut pool: Vec<&str> = Vec::new();
        let mut i: usize = 0;
        while i < actions.len()
            invariant
                i <= actions@.len(),
                pool@ == actions@.take(i as int),
            decreases actions.len() - i,
        {
            pool.push(actions[i]);
            i = i + 1;
        }
        proof {
            assert(pool@ =~= actions@);
        }
        let from_index = random_inclusive(rng, 0, pool.len() - 1);
        let from = pool.remove(from_index);
        let to = match choose_one(rng, pool.as_slice()) {
            Some(to) => *to,
            None => {
                proof {
                    assert(pool@.contains(pool@[0]));
                }
                from
            },
        };
        let r = ProcessExpr::Rename {
            renames: vec![Rename { from: from.to_owned(), to: to.to_owned() }],
            operand: Box::new(expr),
        };
        proof {
            let k = choose|k: int| 0 <= k < pool@.len() && pool@[k] == to;
            let j = if k < from_index { k } else { k + 1 };
            assert(actions@[j] == to);
            assert(names[from_index as int] == from@);
            assert(names[j] == to@);
        }
        r
    } else if arm == 3 && actions.len() >= 3 {
        let mut pool: Vec<String> = Vec::new();
        let ghost mut origin: Seq<int> = Seq::empty();
        let mut i: usize = 0;
        while i < actions.len()
            invariant
                i <= actions@.len(),
                names == action_names(actions@),
                pool@.len() == i,
                origin.len() == i,
                forall|k: int| 0 <= k < i ==> #[trigger] origin[k] == k,
                forall|k: int| 0 <= k < i ==> (#[trigger] pool@[k])@ == names[k],
            decreases actions.len() - i,
        {
            pool.push(actions[i].to_owned());
            proof {
                origin = origin.push(i as int);
            }
            i = i + 1;
        }
        let ghost first_origin = origin;
        let a_index = random_inclusive(rng, 0, pool.len() - 1);
        let a = pool.remove(a_index);
        let ghost ia = origin[a_index as int];
        proof {
            origin = origin.remove(a_index as int);
        }
        let b_index = random_inclusive(rng, 0, pool.len() - 1);
        let b = pool.remove(b_index);
        let ghost ib = origin[b_index as int];
        let ghost second_origin = origin;
        proof {
            origin = origin.remove(b_index as int);
        }
        let c = match choose_one(rng, pool.as_slice()) {
            Some(c) => c.clone(),
            None => {
                proof {
                    assert(pool@.contains(pool@[0]));
                }
                String::new()
            },
        };
        proof {
            assert(a@ == names[ia]);
            assert(first_origin[a_index as int] == ia);
            let kb = if b_index < a_index { b_index as int } else { b_index + 1 };
            assert(second_origin[b_index as int] == first_origin[kb]);
            assert(ib == kb);
            assert(b@ == names[ib]);
            assert(ia != ib);
            let k = choose|k: int| 0 <= k < pool@.len() && pool@[k] == c;
            let k1 = if k < b_index { k } else { k + 1 };
            let k0 = if k1 < a_index { k1 } else { k1 + 1 };
            assert(origin[k] == second_origin[k1]);
            assert(second_origin[k1] == first_origin[k0]);
            assert(c@ == names[k0]);
            assert(k0 != ia && k0 != ib);
        }
        let label = MultiActionLabel { actions: vec![a, b] };
        ProcessExpr::Comm { comm: vec![CommExpr { lhs: label, rhs: c }], operand: Box::new(expr) }
    } else if arm == 4 {
        let labels = draw_labels(rng, actions);
        ProcessExpr::Allow { actions: labels, operand: Box::new(expr) }
    } else {
        expr
    }
}


/// `expr` is a parallel composition of the processes `parts`, each used once: one of them, or
/// the parallel composition of two such compositions that split them between them.
pub open spec fn composes(expr: ProcessExpr, parts: Multiset<ProcessExpr>) -> bool
    decreases expr,
{
    ||| parts == Multiset::singleton(expr)
    ||| expr matches ProcessExpr::Binary { op: ProcExprBinaryOp::Parallel, lhs, rhs } && exists|
        left: Multiset<ProcessExpr>,
        right: Multiset<ProcessExpr>,
    | #![trigger left.add(right)] parts == left.add(right) && composes(*lhs, left) && composes(*rhs, right)
}

/// `steps` goes from `inner` to `result` by one wrapper at a time, each as [`apply_wrapper`] draws
/// them over `names`, or none where it draws none.
pub open spec fn wrapping_steps(steps: Seq<ProcessExpr>, names: Seq<Seq<char>>, inner: ProcessExpr, result: ProcessExpr) -> bool {
    &&& steps.len() > 0
    &&& steps[0] == inner
    &&& steps.last() == result
    &&& forall|i: int| 0 <= i < steps.len() - 1 ==> is_wrapped(#[trigger] steps[i + 1], names, steps[i])
}

/// All processes of the groups `groups`, together.
pub open spec fn together(groups: Seq<Multiset<ProcessExpr>>) -> Multiset<ProcessExpr>
    decreases groups.len(),
{
    if groups.len() == 0 {
        Multiset::empty()
    } else {
        together(groups.drop_last()).add(groups.last())
    }
}

/// Taking a group out of a list of groups takes its processes out of all of them.
proof fn lemma_together_remove(groups: Seq<Multiset<ProcessExpr>>, i: int)
    requires
        0 <= i < groups.len(),
    ensures
        together(groups) =~= together(groups.remove(i)).add(groups[i]),
    decreases groups.len(),
{
    broadcast use vstd::multiset::group_multiset_axioms;

    if i == groups.len() - 1 {
        assert(groups.remove(i) =~= groups.drop_last());
    } else {
        assert(groups.remove(i).drop_last() =~= groups.drop_last().remove(i));
        assert(groups.remove(i).last() == groups.last());
        lemma_together_remove(groups.drop_last(), i);
    }
}

/// The processes of one-process groups are those processes.
proof fn lemma_together_singletons(procs: Seq<ProcessExpr>)
    ensures
        together(procs.map_values(|p: ProcessExpr| Multiset::singleton(p))) =~= procs.to_multiset(),
    decreases procs.len(),
{
    broadcast use vstd::multiset::group_multiset_axioms;
    broadcast use vstd::seq_lib::to_multiset_build;

    let groups = procs.map_values(|p: ProcessExpr| Multiset::singleton(p));
    if procs.len() > 0 {
        lemma_together_singletons(procs.drop_last());
        assert(groups.drop_last() =~= procs.drop_last().map_values(|p: ProcessExpr| Multiset::singleton(p)));
        assert(procs =~= procs.drop_last().push(procs.last()));
    } else {
        assert(procs.to_multiset() =~= Multiset::empty()) by {
            broadcast use vstd::seq_lib::to_multiset_contains;

        }
    }
}

/// Composes the processes `procs` in parallel, joining the first with one of the others drawn at
/// random until one process is left, and puts `wrapper_count` random wrappers around it.
pub fn random_parallel_init(
    rng: &mut StdRng,
    actions: &[&str],
    procs: Vec<ProcessExpr>,
    wrapper_count: usize,
) -> (r: ProcessExpr)
    requires
        procs@.len() > 0,
        wrapper_count > 0 ==> actions@.len() > 0,
    ensures
        exists|tree: ProcessExpr, steps: Seq<ProcessExpr>|
            composes(tree, procs@.to_multiset()) && #[trigger] wrapping_steps(steps, action_names(actions@), tree, r)
                && steps.len() == wrapper_count + 1,
{
    let ghost all = procs@.to_multiset();
    let ghost mut groups = procs@.map_values(|p: ProcessExpr| Multiset::singleton(p));
    let mut procs = procs;
    proof {
        lemma_together_singletons(procs@);
    }
    while procs.len() > 1
        invariant
            procs@.len() > 0,
            groups.len() == procs@.len(),
            together(groups) == all,
            forall|k: int| 0 <= k < procs@.len() ==> composes(#[trigger] procs@[k], groups[k]),
        decreases procs.len(),
    {
        let n = procs.len();
        let j = random_inclusive(rng, 1, n - 1);
        let ghost before = procs@;
        let p = procs.remove(j);
        let q = procs.remove(0);
        let ghost p_group = groups[j as int];
        let ghost q_group = groups[0];
        proof {
            lemma_together_remove(groups, j as int);
            let rest = groups.remove(j as int);
            lemma_together_remove(rest, 0);
            groups = rest.remove(0);
            assert(composes(p, p_group));
            assert(composes(q, q_group));
        }
        let joined = ProcessExpr::Binary { op: ProcExprBinaryOp::Parallel, lhs: Box::new(q), rhs: Box::new(p) };
        proof {
            broadcast use vstd::multiset::group_multiset_axioms;
            assert(composes(joined, q_group.add(p_group)));
            assert forall|k: int| 0 <= k < procs@.len() implies composes(#[trigger] procs@[k], groups[k]) by {
                let k1 = k + 1;
                let k0 = if k1 < j { k1 } else { k1 + 1 };
                assert(procs@[k] == before[k0]);
            }
            let merged = q_group.add(p_group);
            assert(groups.push(merged).drop_last() =~= groups);
            assert(together(groups.push(merged)) == together(groups).add(merged));
            assert(together(groups.push(merged)) =~= all);
            groups = groups.push(merged);
        }
        procs.push(joined);
    }
    let ghost tree = procs@[0];
    proof {
        broadcast use vstd::multiset::group_multiset_axioms;
        assert(groups.drop_last() =~= Seq::<Multiset<ProcessExpr>>::empty());
        assert(together(groups.drop_last()) == Multiset::<ProcessExpr>::empty());
        assert(together(groups) =~= groups[0]);
    }
    let mut result = procs.remove(0);
    let ghost mut steps: Seq<ProcessExpr> = seq![tree];
    let mut w: usize = 0;
    while w < wrapper_count
        invariant
            w <= wrapper_count,
            wrapper_count > 0 ==> actions@.len() > 0,
            wrapping_steps(steps, action_names(actions@), tree, result),
            steps.len() == w + 1,
        decreases wrapper_count - w,
    {
        let ghost middle = result;
        result = apply_wrapper(rng, actions, result);
        proof {
            let before = steps;
            steps = steps.push(result);
            assert forall|i: int| 0 <= i < steps.len() - 1 implies is_wrapped(#[trigger] steps[i + 1], action_names(actions@), steps[i]) by {
                if i < before.len() - 1 {
                    assert(steps[i + 1] == before[i + 1]);
                    assert(steps[i] == before[i]);
                } else {
                    assert(steps[i] == middle);
                }
            }
        }
        w = w + 1;
    }
    result
}


/// `e` is the instance `P(s = state)` of the process of a generated linear process.
pub open spec fn is_state_instance(e: ProcessExpr, state: nat) -> bool {
    &&& e matches ProcessExpr::Id(process, assignments)
    &&& process@ == seq!['P']
    &&& assignments@.len() == 1
    &&& assignments@[0].identifier@ == seq!['s']
    &&& assignments@[0].expr matches DataExpr::Number(n) && n@ == decimal(state)
}

/// `e` is the summand `s == from -> a<act> . P(s = to)` of the transition from state `from` by
/// the action numbered `act` to state `to`.
pub open spec fn is_transition_summand(e: ProcessExpr, from: nat, act: nat, to: nat) -> bool {
    &&& e matches ProcessExpr::Condition { condition, then, else_ }
    &&& else_ is None
    &&& condition matches DataExpr::Binary { op: DataExprBinaryOp::Equal, lhs, rhs }
    &&& *lhs matches DataExpr::Id(variable) && variable@ == seq!['s']
    &&& *rhs matches DataExpr::Number(n) && n@ == decimal(from)
    &&& *then matches ProcessExpr::Binary { op: ProcExprBinaryOp::Sequence, lhs: action, rhs: instance }
    &&& *action matches ProcessExpr::Action(name, args) && name@ == numbered_name(seq!['a'], act) && args@.len() == 0
    &&& is_state_instance(*instance, to)
}

/// `body` is the choice, folded from the left, of the summands of `transitions`, each a triple
/// of the source state, the action number and the target state; `delta` where there are none.
pub open spec fn is_choice_of(body: ProcessExpr, transitions: Seq<(usize, usize, usize)>) -> bool
    decreases transitions.len(),
{
    if transitions.len() == 0 {
        body is Delta
    } else if transitions.len() == 1 {
        is_transition_summand(body, transitions[0].0 as nat, transitions[0].1 as nat, transitions[0].2 as nat)
    } else {
        let last = transitions.last();
        &&& body matches ProcessExpr::Binary { op: ProcExprBinaryOp::Choice, lhs, rhs }
        &&& is_choice_of(*lhs, transitions.drop_last())
        &&& is_transition_summand(*rhs, last.0 as nat, last.1 as nat, last.2 as nat)
    }
}

/// The number `n` as written in a data expression.
fn number(n: usize) -> (r: DataExpr)
    ensures
        r matches DataExpr::Number(text) && text@ == decimal(n as nat),
{
    let text = numbered("", n);
    proof {
        reveal_strlit("");
        assert(""@ + decimal(n as nat) =~= decimal(n as nat));
    }
    DataExpr::Number(text)
}

/// The instance `P(s = state)`.
fn state_instance(state: usize) -> (r: ProcessExpr)
    ensures
        is_state_instance(r, state as nat),
{
    proof {
        reveal_strlit("P");
        reveal_strlit("s");
        assert("P"@ =~= seq!['P']);
        assert("s"@ =~= seq!['s']);
    }
    ProcessExpr::Id("P".to_owned(), vec![Assignment { identifier: "s".to_owned(), expr: number(state) }])
}

/// Builds the linear process specification of a finite-state machine: the actions `a0`, `a1`,
/// ..., `num_actions` of them, without arguments; one process `P(s: Nat)` whose body chooses,
/// in the order of `transitions`, among a summand `s == from -> a<act> . P(s = to)` per
/// transition `(from, act, to)`, or is `delta` where there is none; and the initial process
/// `P(s = init)`.
pub fn lps_from_transitions(num_actions: usize, transitions: &[(usize, usize, usize)], init: usize) -> (r:
    UntypedProcessSpecification)
    ensures
        r.action_declarations@.len() == num_actions,
        forall|i: int|
            0 <= i < num_actions ==> (#[trigger] r.action_declarations@[i]).identifier@ == numbered_name(
                seq!['a'],
                i as nat,
            ) && r.action_declarations@[i].args@.len() == 0,
        r.process_declarations@.len() == 1,
        r.process_declarations@[0].identifier@ == seq!['P'],
        r.process_declarations@[0].params@.len() == 1,
        r.process_declarations@[0].params@[0].identifier@ == seq!['s'],
        r.process_declarations@[0].params@[0].sort == SortExpression::Simple(Sort::Nat),
        is_choice_of(r.process_declarations@[0].body, transitions@),
        r.init matches Some(e) && is_state_instance(e, init as nat),
{
    let mut action_declarations: Vec<ActDecl> = Vec::new();
    let mut i: usize = 0;
    while i < num_actions
        invariant
            i <= num_actions,
            action_declarations@.len() == i,
            forall|k: int|
                0 <= k < i ==> (#[trigger] action_declarations@[k]).identifier@ == numbered_name(seq!['a'], k as nat)
                    && action_declarations@[k].args@.len() == 0,
        decreases num_actions - i,
    {
        let identifier = numbered("a", i);
        proof {
            reveal_strlit("a");
            assert("a"@ =~= seq!['a']);
        }
        action_declarations.push(ActDecl { identifier, args: Vec::new() });
        i = i + 1;
    }
    let mut body: Option<ProcessExpr> = None;
    let mut k: usize = 0;
    while k < transitions.len()
        invariant
            k <= transitions@.len(),
            match body {
                None => k == 0,
                Some(b) => k > 0 && is_choice_of(b, transitions@.take(k as int)),
            },
        decreases transitions.len() - k,
    {
        let (from, act, to) = transitions[k];
        let action_name = numbered("a", act);
        proof {
            reveal_strlit("a");
            reveal_strlit("s");
            assert("a"@ =~= seq!['a']);
            assert("s"@ =~= seq!['s']);
        }
        let condition = DataExpr::Binary {
            op: DataExprBinaryOp::Equal,
            lhs: Box::new(DataExpr::Id("s".to_owned())),
            rhs: Box::new(number(from)),
        };
        let step = ProcessExpr::Binary {
            op: ProcExprBinaryOp::Sequence,
            lhs: Box::new(ProcessExpr::Action(action_name, Vec::new())),
            rhs: Box::new(state_instance(to)),
        };
        let summand = ProcessExpr::Condition { condition, then: Box::new(step), else_: None };
        proof {
            assert(is_transition_summand(summand, from as nat, act as nat, to as nat));
            assert(transitions@.take(k + 1).drop_last() =~= transitions@.take(k as int));
            assert(transitions@.take(k + 1).last() == transitions@[k as int]);
        }
        body = match body {
            None => {
                proof {
                    assert(transitions@.take(1)[0] == transitions@[0]);
                }
                Some(summand)
            },
            Some(accumulated) => Some(
                ProcessExpr::Binary { op: ProcExprBinaryOp::Choice, lhs: Box::new(accumulated), rhs: Box::new(summand) },
            ),
        };
        k = k + 1;
    }
    proof {
        assert(transitions@.take(transitions@.len() as int) =~= transitions@);
    }
    let body = match body {
        Some(body) => body,
        None => ProcessExpr::Delta,
    };
    proof {
        reveal_strlit("P");
        reveal_strlit("s");
        assert("P"@ =~= seq!['P']);
        assert("s"@ =~= seq!['s']);
    }
    let parameter = IdDecl { identifier: "s".to_owned(), sort: SortExpression::Simple(Sort::Nat) };
    let process = ProcDecl { identifier: "P".to_owned(), params: vec![parameter], body };
    UntypedProcessSpecification {
        action_declarations,
        process_declarations: vec![process],
        init: Some(state_instance(init)),
    }
}

} // verus!
