//! Process expressions, as far as the initial processes of generated specifications are built of
//! them, and the order on action names and multi-action labels: names ordered as `str` orders
//! them, by their UTF-8 bytes, and labels lexicographically by their names.
use vstd::prelude::*;
use vstd::utf8::encode_utf8;
use vstd::utf8::encode_utf8_decode_utf8;
use crate::data_expr::DataExpr;
use crate::sorts::IdDecl;
use crate::sorts::SortExpression;

verus! {

/// The binary operators on process expressions.
#[derive(Clone, Copy, Debug, PartialEq, Eq, Structural)]
pub enum ProcExprBinaryOp {
    /// `p + q`.
    Choice,
    /// `p . q`.
    Sequence,
    /// `p || q`.
    Parallel,
}

/// A multi-action label `a | b | ...`: the names of its actions.
#[derive(Debug, PartialEq, Eq)]
pub struct MultiActionLabel {
    pub actions: Vec<String>,
}

impl View for MultiActionLabel {
    type V = Seq<Seq<char>>;

    open spec fn view(&self) -> Seq<Seq<char>> {
        self.actions@.map_values(|name: String| name@)
    }
}

/// The renaming `from -> to` of an action.
#[derive(Debug, PartialEq, Eq)]
pub struct Rename {
    pub from: String,
    pub to: String,
}

/// The communication `lhs -> rhs` of a multi-action into an action.
#[derive(Debug, PartialEq, Eq)]
pub struct CommExpr {
    pub lhs: MultiActionLabel,
    pub rhs: String,
}

/// A process expression.
#[derive(Debug, PartialEq, Eq)]
pub enum ProcessExpr {
    /// Deadlock.
    Delta,
    /// The internal action.
    Tau,
    /// An action with its arguments.
    Action(String, Vec<DataExpr>),
    /// A binary operator applied to two processes.
    Binary { op: ProcExprBinaryOp, lhs: Box<ProcessExpr>, rhs: Box<ProcessExpr> },
    /// Hiding of actions.
    Hide { actions: Vec<String>, operand: Box<ProcessExpr> },
    /// Blocking of actions.
    Block { actions: Vec<String>, operand: Box<ProcessExpr> },
    /// Renaming of actions.
    Rename { renames: Vec<Rename>, operand: Box<ProcessExpr> },
    /// Communication of multi-actions.
    Comm { comm: Vec<CommExpr>, operand: Box<ProcessExpr> },
    /// The multi-actions allowed.
    Allow { actions: Vec<MultiActionLabel>, operand: Box<ProcessExpr> },
    /// `condition -> then <> else_`, the else branch optional.
    Condition { condition: DataExpr, then: Box<ProcessExpr>, else_: Option<Box<ProcessExpr>> },
    /// An instance of a process, with assignments to its parameters.
    Id(String, Vec<Assignment>),
}

/// The assignment `identifier = expr` to a process parameter.
#[derive(Debug, PartialEq, Eq)]
pub struct Assignment {
    pub identifier: String,
    pub expr: DataExpr,
}

/// The declaration of an action and the sorts of its arguments.
#[derive(Debug, PartialEq, Eq)]
pub struct ActDecl {
    pub identifier: String,
    pub args: Vec<SortExpression>,
}

/// The declaration of a process: its name, parameters and body.
#[derive(Debug, PartialEq, Eq)]
pub struct ProcDecl {
    pub identifier: String,
    pub params: Vec<IdDecl>,
    pub body: ProcessExpr,
}

/// A process specification as generation fills it in: its actions, processes and initial
/// process.
#[derive(Debug, PartialEq, Eq)]
pub struct UntypedProcessSpecification {
    pub action_declarations: Vec<ActDecl>,
    pub process_declarations: Vec<ProcDecl>,
    pub init: Option<ProcessExpr>,
}

/// The bytes `a` come before the bytes `b` in lexicographic order, a proper prefix first.
pub open spec fn bytes_before(a: Seq<u8>, b: Seq<u8>) -> bool
    decreases a.len(),
{
    if a.len() == 0 {
        b.len() > 0
    } else if b.len() == 0 {
        false
    } else if a[0] != b[0] {
        a[0] < b[0]
    } else {
        bytes_before(a.drop_first(), b.drop_first())
    }
}

/// The name `a` comes before the name `b` as `str` orders them: lexicographically by their
/// UTF-8 bytes, which orders the characters by their positions in the code charts.
pub open spec fn name_before(a: Seq<char>, b: Seq<char>) -> bool {
    bytes_before(encode_utf8(a), encode_utf8(b))
}

/// The label `a` comes before the label `b`: lexicographically by their names, a proper prefix
/// first.
pub open spec fn label_before(a: Seq<Seq<char>>, b: Seq<Seq<char>>) -> bool
    decreases a.len(),
{
    if a.len() == 0 {
        b.len() > 0
    } else if b.len() == 0 {
        false
    } else if a[0] != b[0] {
        name_before(a[0], b[0])
    } else {
        label_before(a.drop_first(), b.drop_first())
    }
}

/// Each name comes before every later one: the names are sorted and none occurs twice.
pub open spec fn names_ascending(names: Seq<Seq<char>>) -> bool {
    forall|i: int, j: int| 0 <= i < j < names.len() ==> name_before(#[trigger] names[i], #[trigger] names[j])
}

/// Each label comes before every later one: the labels are sorted and none occurs twice.
pub open spec fn labels_ascending(labels: Seq<Seq<Seq<char>>>) -> bool {
    forall|i: int, j: int| 0 <= i < j < labels.len() ==> label_before(#[trigger] labels[i], #[trigger] labels[j])
}

/// The names of `names`.
pub open spec fn names_of(names: Seq<String>) -> Seq<Seq<char>> {
    names.map_values(|name: String| name@)
}

/// The labels of `labels`, each as the sequence of its names.
pub open spec fn labels_of(labels: Seq<MultiActionLabel>) -> Seq<Seq<Seq<char>>> {
    labels.map_values(|label: MultiActionLabel| label@)
}

/// No byte string comes before itself.
proof fn lemma_bytes_irreflexive(a: Seq<u8>)
    ensures
        !bytes_before(a, a),
    decreases a.len(),
{
    if a.len() > 0 {
        lemma_bytes_irreflexive(a.drop_first());
    }
}

/// Coming before is transitive on byte strings.
proof fn lemma_bytes_transitive(a: Seq<u8>, b: Seq<u8>, c: Seq<u8>)
    requires
        bytes_before(a, b),
        bytes_before(b, c),
    ensures
        bytes_before(a, c),
    decreases a.len(),
{
    if a.len() > 0 && b.len() > 0 && c.len() > 0 && a[0] == b[0] && b[0] == c[0] {
        lemma_bytes_transitive(a.drop_first(), b.drop_first(), c.drop_first());
    }
}

/// Of two distinct byte strings, one comes before the other.
proof fn lemma_bytes_total(a: Seq<u8>, b: Seq<u8>)
    requires
        a != b,
    ensures
        bytes_before(a, b) || bytes_before(b, a),
    decreases a.len(),
{
    if a.len() == 0 && b.len() == 0 {
        assert(a =~= b);
    } else if a.len() > 0 && b.len() > 0 && a[0] == b[0] {
        assert(a =~= seq![a[0]] + a.drop_first());
        assert(b =~= seq![b[0]] + b.drop_first());
        lemma_bytes_total(a.drop_first(), b.drop_first());
    }
}

/// No byte strings come before each other both ways, and coming before is transitive and total
/// on distinct byte strings.
proof fn lemma_bytes_order(a: Seq<u8>, b: Seq<u8>, c: Seq<u8>)
    ensures
        !bytes_before(a, a),
        bytes_before(a, b) && bytes_before(b, c) ==> bytes_before(a, c),
        a != b ==> bytes_before(a, b) || bytes_before(b, a),
        !(bytes_before(a, b) && bytes_before(b, a)),
{
    lemma_bytes_irreflexive(a);
    if bytes_before(a, b) && bytes_before(b, c) {
        lemma_bytes_transitive(a, b, c);
    }
    if a != b {
        lemma_bytes_total(a, b);
    }
    if bytes_before(a, b) && bytes_before(b, a) {
        lemma_bytes_transitive(a, b, a);
    }
}

/// Names are ordered strictly and totally.
pub proof fn lemma_name_order(a: Seq<char>, b: Seq<char>, c: Seq<char>)
    ensures
        !name_before(a, a),
        name_before(a, b) && name_before(b, c) ==> name_before(a, c),
        a != b ==> name_before(a, b) || name_before(b, a),
        !(name_before(a, b) && name_before(b, a)),
{
    lemma_bytes_order(encode_utf8(a), encode_utf8(b), encode_utf8(c));
    if a != b {
        encode_utf8_decode_utf8(a);
        encode_utf8_decode_utf8(b);
    }
}

/// No label comes before itself.
proof fn lemma_label_irreflexive(a: Seq<Seq<char>>)
    ensures
        !label_before(a, a),
    decreases a.len(),
{
    if a.len() > 0 {
        lemma_label_irreflexive(a.drop_first());
    }
}

/// Coming before is transitive on labels.
proof fn lemma_label_transitive(a: Seq<Seq<char>>, b: Seq<Seq<char>>, c: Seq<Seq<char>>)
    requires
        label_before(a, b),
        label_before(b, c),
    ensures
        label_before(a, c),
    decreases a.len(),
{
    if a.len() > 0 && b.len() > 0 && c.len() > 0 {
        lemma_name_order(a[0], b[0], c[0]);
        lemma_name_order(c[0], a[0], b[0]);
        if a[0] == b[0] && b[0] == c[0] {
            lemma_label_transitive(a.drop_first(), b.drop_first(), c.drop_first());
        }
    }
}

/// Of two distinct labels, one comes before the other.
proof fn lemma_label_total(a: Seq<Seq<char>>, b: Seq<Seq<char>>)
    requires
        a != b,
    ensures
        label_before(a, b) || label_before(b, a),
    decreases a.len(),
{
    if a.len() == 0 && b.len() == 0 {
        assert(a =~= b);
    } else if a.len() > 0 && b.len() > 0 {
        if a[0] == b[0] {
            assert(a =~= seq![a[0]] + a.drop_first());
            assert(b =~= seq![b[0]] + b.drop_first());
            lemma_label_total(a.drop_first(), b.drop_first());
        } else {
            lemma_name_order(a[0], b[0], a[0]);
        }
    }
}

/// Labels are ordered strictly and totally.
pub proof fn lemma_label_order(a: Seq<Seq<char>>, b: Seq<Seq<char>>, c: Seq<Seq<char>>)
    ensures
        !label_before(a, a),
        label_before(a, b) && label_before(b, c) ==> label_before(a, c),
        a != b ==> label_before(a, b) || label_before(b, a),
        !(label_before(a, b) && label_before(b, a)),
{
    lemma_label_irreflexive(a);
    if label_before(a, b) && label_before(b, c) {
        lemma_label_transitive(a, b, c);
    }
    if a != b {
        lemma_label_total(a, b);
    }
    if label_before(a, b) && label_before(b, a) {
        lemma_label_transitive(a, b, a);
    }
}

/// Whether the name `a` comes before the name `b`.
pub fn name_precedes(a: &str, b: &str) -> (r: bool)
    ensures
        r == name_before(a@, b@),
{
    let x = a.as_bytes();
    let y = b.as_bytes();
    let ghost xs = encode_utf8(a@);
    let ghost ys = encode_utf8(b@);
    proof {
        assert(x@ == xs);
        assert(y@ == ys);
        assert(xs.skip(0) =~= xs);
        assert(ys.skip(0) =~= ys);
    }
    let mut i: usize = 0;
    while i < x.len() && i < y.len()
        invariant
            x@ == xs,
            y@ == ys,
            xs == encode_utf8(a@),
            ys == encode_utf8(b@),
            i <= xs.len(),
            i <= ys.len(),
            bytes_before(xs, ys) == bytes_before(xs.skip(i as int), ys.skip(i as int)),
        decreases x.len() - i,
    {
        proof {
            assert(xs.skip(i as int)[0] == xs[i as int]);
            assert(ys.skip(i as int)[0] == ys[i as int]);
            assert(xs.skip(i as int).len() > 0);
            assert(ys.skip(i as int).len() > 0);
        }
        if x[i] != y[i] {
            let r = x[i] < y[i];
            proof {
                let (u, v) = (xs.skip(i as int), ys.skip(i as int));
                assert(u[0] != v[0]);
                assert(bytes_before(u, v) == (u[0] < v[0]));
            }
            return r;
        }
        proof {
            assert(xs.skip(i as int).drop_first() =~= xs.skip(i + 1));
            assert(ys.skip(i as int).drop_first() =~= ys.skip(i + 1));
        }
        i = i + 1;
    }
    i == x.len() && i < y.len()
}

/// Whether the label `a` comes before the label `b`.
pub fn label_precedes(a: &MultiActionLabel, b: &MultiActionLabel) -> (r: bool)
    ensures
        r == label_before(a@, b@),
{
    let ghost xs = a@;
    let ghost ys = b@;
    proof {
        assert(xs.skip(0) =~= xs);
        assert(ys.skip(0) =~= ys);
    }
    let mut i: usize = 0;
    while i < a.actions.len() && i < b.actions.len()
        invariant
            xs == a@,
            ys == b@,
            i <= xs.len(),
            i <= ys.len(),
            label_before(xs, ys) == label_before(xs.skip(i as int), ys.skip(i as int)),
        decreases a.actions.len() - i,
    {
        proof {
            assert(xs.skip(i as int)[0] == xs[i as int]);
            assert(ys.skip(i as int)[0] == ys[i as int]);
        }
        let first = a.actions[i].as_str();
        let second = b.actions[i].as_str();
        if name_precedes(first, second) {
            proof {
                lemma_name_order(xs[i as int], ys[i as int], xs[i as int]);
            }
            return true;
        }
        if name_precedes(second, first) {
            proof {
                lemma_name_order(xs[i as int], ys[i as int], xs[i as int]);
            }
            return false;
        }
        proof {
            lemma_name_order(xs[i as int], ys[i as int], xs[i as int]);
            assert(xs.skip(i as int).drop_first() =~= xs.skip(i + 1));
            assert(ys.skip(i as int).drop_first() =~= ys.skip(i + 1));
        }
        i = i + 1;
    }
    i == a.actions.len() && i < b.actions.len()
}


/// Inserts `name` into the ascending names `names` at its place, unless it is there already.
pub fn insert_name(names: &mut Vec<String>, name: String)
    requires
        names_ascending(names_of(old(names)@)),
    ensures
        names_ascending(names_of(final(names)@)),
        forall|x: Seq<char>|
            #[trigger] names_of(final(names)@).contains(x) <==> names_of(old(names)@).contains(x) || x == name@,
        final(names)@.len() == old(names)@.len() || final(names)@.len() == old(names)@.len() + 1,
{
    let ghost start = names_of(names@);
    let mut p: usize = 0;
    while p < names.len() && name_precedes(names[p].as_str(), name.as_str())
        invariant
            p <= names@.len(),
            start == names_of(names@),
            names_ascending(start),
            forall|k: int| 0 <= k < p ==> name_before(#[trigger] start[k], name@),
        decreases names.len() - p,
    {
        p = p + 1;
    }
    if p < names.len() && !name_precedes(name.as_str(), names[p].as_str()) {
        proof {
            lemma_name_order(start[p as int], name@, start[p as int]);
            assert(start[p as int] == name@);
        }
        return;
    }
    proof {
        assert forall|k: int| p <= k < start.len() implies name_before(name@, #[trigger] start[k]) by {
            lemma_name_order(start[p as int], name@, start[p as int]);
            lemma_name_order(name@, start[p as int], start[k]);
        }
    }
    let ghost value = name@;
    names.insert(p, name);
    proof {
        let result = names_of(names@);
        assert(result =~= start.insert(p as int, value));
        assert forall|i: int, j: int| 0 <= i < j < result.len() implies name_before(#[trigger] result[i], #[trigger] result[j]) by {
            if j < p {
            } else if j == p {
            } else if i < p {
                lemma_name_order(result[i], value, result[j]);
            } else if i == p {
            } else {
            }
        }
        assert forall|x: Seq<char>| #[trigger] result.contains(x) <==> start.contains(x) || x == value by {
            if result.contains(x) {
                let k = choose|k: int| 0 <= k < result.len() && result[k] == x;
                if k < p {
                    assert(start[k] == x);
                } else if k > p {
                    assert(start[k - 1] == x);
                }
            }
            if start.contains(x) {
                let k = choose|k: int| 0 <= k < start.len() && start[k] == x;
                if k < p {
                    assert(result[k] == x);
                } else {
                    assert(result[k + 1] == x);
                }
            }
            if x == value {
                assert(result[p as int] == x);
            }
        }
    }
}

/// Inserts `label` into the ascending labels `labels` at its place, unless it is there already.
pub fn insert_label(labels: &mut Vec<MultiActionLabel>, label: MultiActionLabel)
    requires
        labels_ascending(labels_of(old(labels)@)),
    ensures
        labels_ascending(labels_of(final(labels)@)),
        forall|x: Seq<Seq<char>>|
            #[trigger] labels_of(final(labels)@).contains(x) <==> labels_of(old(labels)@).contains(x) || x == label@,
        final(labels)@.len() == old(labels)@.len() || final(labels)@.len() == old(labels)@.len() + 1,
{
    let ghost start = labels_of(labels@);
    let mut p: usize = 0;
    while p < labels.len() && label_precedes(&labels[p], &label)
        invariant
            p <= labels@.len(),
            start == labels_of(labels@),
            labels_ascending(start),
            forall|k: int| 0 <= k < p ==> label_before(#[trigger] start[k], label@),
        decreases labels.len() - p,
    {
        p = p + 1;
    }
    if p < labels.len() && !label_precedes(&label, &labels[p]) {
        proof {
            lemma_label_order(start[p as int], label@, start[p as int]);
            assert(start[p as int] == label@);
        }
        return;
    }
    proof {
        assert forall|k: int| p <= k < start.len() implies label_before(label@, #[trigger] start[k]) by {
            lemma_label_order(start[p as int], label@, start[p as int]);
            lemma_label_order(label@, start[p as int], start[k]);
        }
    }
    let ghost value = label@;
    labels.insert(p, label);
    proof {
        let result = labels_of(labels@);
        assert(result =~= start.insert(p as int, value));
        assert forall|i: int, j: int| 0 <= i < j < result.len() implies label_before(#[trigger] result[i], #[trigger] result[j]) by {
            if i < p && j > p {
                lemma_label_order(result[i], value, result[j]);
            }
        }
        assert forall|x: Seq<Seq<char>>| #[trigger] result.contains(x) <==> start.contains(x) || x == value by {
            if result.contains(x) {
                let k = choose|k: int| 0 <= k < result.len() && result[k] == x;
                if k < p {
                    assert(start[k] == x);
                } else if k > p {
                    assert(start[k - 1] == x);
                }
            }
            if start.contains(x) {
                let k = choose|k: int| 0 <= k < start.len() && start[k] == x;
                if k < p {
                    assert(result[k] == x);
                } else {
                    assert(result[k + 1] == x);
                }
            }
            if x == value {
                assert(result[p as int] == x);
            }
        }
    }
}

} // verus!
