//! The naming and sort lookup that random value generation is built on: fresh variable names and
//! the resolution of declared sort names.
use vstd::prelude::*;
use vstd::relations::injective_on;
use vstd::set_lib::lemma_int_range;
use vstd::set_lib::lemma_len_subset;
use vstd::set_lib::lemma_map_size;
use vstd::set_lib::set_int_range;
use crate::data_expr::DataExpr;
use crate::random::decimal;
use crate::random::digit;
use crate::random::numbered;
use crate::random::numbered_name;
use crate::sorts::IdDecl;
use crate::sorts::SortDecl;
use crate::sorts::SortExpression;

verus! {

/// The data expression that names `identifier`.
pub fn id(identifier: String) -> (r: DataExpr)
    ensures
        r == DataExpr::Id(identifier),
{
    DataExpr::Id(identifier)
}

/// What the first declaration of `name` among `decls` declares it equal to, if it declares it
/// equal to anything.
pub open spec fn resolved_sort(decls: Seq<SortDecl>, name: Seq<char>) -> Option<SortExpression>
    decreases decls.len(),
{
    if decls.len() == 0 {
        None
    } else if decls[0].identifier@ == name {
        decls[0].expr
    } else {
        resolved_sort(decls.drop_first(), name)
    }
}

/// Resolves a sort name to the expression that its declaration gives it, if any.
pub fn resolve<'a>(sort_decls: &'a [SortDecl], name: &str) -> (r: Option<&'a SortExpression>)
    ensures
        match r {
            Some(expr) => resolved_sort(sort_decls@, name@) == Some(*expr),
            None => resolved_sort(sort_decls@, name@) is None,
        },
{
    let wanted = name.to_owned();
    let mut i: usize = 0;
    proof {
        assert(sort_decls@.skip(0) =~= sort_decls@);
    }
    while i < sort_decls.len()
        invariant
            i <= sort_decls@.len(),
            wanted@ == name@,
            resolved_sort(sort_decls@, name@) == resolved_sort(sort_decls@.skip(i as int), name@),
        decreases sort_decls.len() - i,
    {
        proof {
            assert(sort_decls@.skip(i as int).drop_first() =~= sort_decls@.skip(i + 1));
            assert(sort_decls@.skip(i as int)[0] == sort_decls@[i as int]);
        }
        if sort_decls[i].identifier == wanted {
            return match &sort_decls[i].expr {
                Some(expr) => Some(expr),
                None => None,
            };
        }
        i = i + 1;
    }
    None
}

/// One of `freevars` is named `name`.
pub open spec fn names_a_variable(freevars: Seq<IdDecl>, name: Seq<char>) -> bool {
    exists|k: int| 0 <= k < freevars.len() && #[trigger] freevars[k].identifier@ == name
}

/// `prefix` followed by the digits of `i` is the first such name that none of `freevars` has.
pub open spec fn is_fresh_name(freevars: Seq<IdDecl>, prefix: Seq<char>, i: nat) -> bool {
    &&& !names_a_variable(freevars, numbered_name(prefix, i))
    &&& forall|j: nat| j < i ==> names_a_variable(freevars, #[trigger] numbered_name(prefix, j))
}

/// A number has at least one digit, and at least two from ten on.
proof fn lemma_decimal_len(n: nat)
    ensures
        decimal(n).len() >= 1,
        n >= 10 ==> decimal(n).len() >= 2,
    decreases n,
{
    if n >= 10 {
        lemma_decimal_len(n / 10);
    }
}

/// Different numbers have different decimal digits.
proof fn lemma_decimal_injective(a: nat, b: nat)
    requires
        decimal(a) == decimal(b),
    ensures
        a == b,
    decreases a,
{
    lemma_decimal_len(a);
    lemma_decimal_len(b);
    if a >= 10 && b >= 10 {
        let da = decimal(a / 10);
        let db = decimal(b / 10);
        assert(decimal(a) == da.push(digit(a % 10)));
        assert(decimal(b) == db.push(digit(b % 10)));
        assert(da =~= decimal(a).drop_last());
        assert(db =~= decimal(b).drop_last());
        assert(digit(a % 10) == decimal(a).last());
        assert(digit(b % 10) == decimal(b).last());
        lemma_decimal_injective(a / 10, b / 10);
    } else if a < 10 && b < 10 {
        assert(decimal(a)[0] == digit(a));
        assert(decimal(b)[0] == digit(b));
    }
}

/// Different numbers give different names after the same prefix.
pub proof fn lemma_numbered_name_injective(prefix: Seq<char>, a: nat, b: nat)
    requires
        numbered_name(prefix, a) == numbered_name(prefix, b),
    ensures
        a == b,
{
    assert(numbered_name(prefix, a).skip(prefix.len() as int) =~= decimal(a));
    assert(numbered_name(prefix, b).skip(prefix.len() as int) =~= decimal(b));
    lemma_decimal_injective(a, b);
}

/// If the first `m` numbered names are all taken, there are at least `m` variables: each takes
/// at most one of them.
proof fn lemma_taken_names_are_few(freevars: Seq<IdDecl>, prefix: Seq<char>, m: nat)
    requires
        forall|j: nat| j < m ==> names_a_variable(freevars, #[trigger] numbered_name(prefix, j)),
    ensures
        m <= freevars.len(),
{
    let owner = |j: int|
        choose|k: int|
            0 <= k < freevars.len() && #[trigger] freevars[k].identifier@ == numbered_name(
                prefix,
                j as nat,
            );
    let taken = set_int_range(0, m as int);
    lemma_int_range(0, m as int);
    lemma_int_range(0, freevars.len() as int);
    assert forall|j: int| taken.contains(j) implies 0 <= #[trigger] owner(j) < freevars.len()
        && freevars[owner(j)].identifier@ == numbered_name(prefix, j as nat) by {
        assert(names_a_variable(freevars, numbered_name(prefix, j as nat)));
    }
    assert forall|a: int, b: int|
        taken.contains(a) && taken.contains(b) && #[trigger] owner(a) == #[trigger] owner(
            b,
        ) implies a == b by {
        lemma_numbered_name_injective(prefix, a as nat, b as nat);
    }
    assert(injective_on(owner, taken));
    lemma_map_size(taken, taken.map(owner), owner);
    assert(taken.map(owner).subset_of(set_int_range(0, freevars.len() as int)));
    lemma_len_subset(taken.map(owner), set_int_range(0, freevars.len() as int));
}

/// The first name made of `prefix` and a number that none of `freevars` has.
pub fn fresh_name(freevars: &[IdDecl], prefix: &str) -> (r: String)
    ensures
        exists|i: nat| r@ == numbered_name(prefix@, i) && is_fresh_name(freevars@, prefix@, i),
{
    let mut i: usize = 0;
    loop
        invariant
            i <= freevars@.len(),
            forall|j: nat| j < i ==> names_a_variable(freevars@, #[trigger] numbered_name(prefix@, j)),
        decreases freevars@.len() - i,
    {
        let name = numbered(prefix, i);
        let mut taken = false;
        let mut k: usize = 0;
        while k < freevars.len()
            invariant
                k <= freevars@.len(),
                taken == names_a_variable(freevars@.take(k as int), name@),
            decreases freevars.len() - k,
        {
            proof {
                assert(freevars@.take(k + 1) =~= freevars@.take(k as int).push(freevars@[k as int]));
                if names_a_variable(freevars@.take(k as int), name@) {
                    let w = choose|w: int|
                        0 <= w < k && #[trigger] freevars@.take(k as int)[w].identifier@ == name@;
                    assert(freevars@.take(k + 1)[w].identifier@ == name@);
                }
                if names_a_variable(freevars@.take(k + 1), name@) && !(freevars@[k as int].identifier@
                    == name@) {
                    let w = choose|w: int|
                        0 <= w < k + 1 && #[trigger] freevars@.take(k + 1)[w].identifier@ == name@;
                    assert(freevars@.take(k as int)[w].identifier@ == name@);
                }
                if freevars@[k as int].identifier@ == name@ {
                    assert(freevars@.take(k + 1)[k as int].identifier@ == name@);
                }
            }
            if freevars[k].identifier == name {
                taken = true;
            }
            k = k + 1;
        }
        proof {
            assert(freevars@.take(k as int) =~= freevars@);
        }
        if !taken {
            proof {
                assert(is_fresh_name(freevars@, prefix@, i as nat));
            }
            return name;
        }
        proof {
            assert forall|j: nat| j < i + 1 implies names_a_variable(
                freevars@,
                #[trigger] numbered_name(prefix@, j),
            ) by {
                if j < i {
                }
            }
            lemma_taken_names_are_few(freevars@, prefix@, (i + 1) as nat);
        }
        i = i + 1;
    }
}

} // verus!
