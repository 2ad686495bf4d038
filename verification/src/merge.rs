//! The similarity merger: clustering of array elements by shape-only
//! equivalence and field-level combination of clustered objects.
//!
//! Merging two objects keeps the left operand's schema: the result has
//! exactly the left operand's keys, and keys exclusive to the right operand
//! are dropped.
use vstd::prelude::*;
use crate::value::{Value, Node, node_of, nodes_of, entries_of, lemma_nodes_of, lemma_entries_of};
use crate::equiv::{eq_exact, eq_shape, value_eq_exact, value_eq_shape};

verus! {

/// Whether some element of `s` is Exact-equivalent to `v`.
pub open spec fn contains_exact(s: Seq<Node>, v: Node) -> bool {
    exists|i: int| 0 <= i < s.len() && eq_exact(#[trigger] s[i], v)
}

/// The combination of the two values one key holds in the two objects being
/// merged: equal values collapse to the left one; a left-hand array absorbs a
/// non-array right-hand value unless it already contains it; anything else
/// becomes a two-element array of both.
pub open spec fn merge_field(pv: Node, vv: Node) -> Node {
    match (pv, vv) {
        (Node::Arr(x), Node::Arr(y)) => if eq_exact(pv, vv) {
            pv
        } else {
            Node::Arr(seq![pv, vv])
        },
        (Node::Arr(x), _) => if contains_exact(x, vv) {
            pv
        } else {
            Node::Arr(x + seq![vv])
        },
        _ => if eq_exact(pv, vv) {
            pv
        } else {
            Node::Arr(seq![pv, vv])
        },
    }
}

/// The first `i` merged entries: keys from `a`, each value combined with the
/// value at the same position of `b`.
pub open spec fn merge_entries(
    a: Seq<(Seq<char>, Node)>,
    b: Seq<(Seq<char>, Node)>,
    i: int,
) -> Seq<(Seq<char>, Node)>
    decreases i,
{
    if i <= 0 || i > a.len() || i > b.len() {
        Seq::empty()
    } else {
        merge_entries(a, b, i - 1) + seq![(a[i - 1].0, merge_field(a[i - 1].1, b[i - 1].1))]
    }
}

/// Whether two nodes can be merged: both objects, exposing the same key
/// sequence.
pub open spec fn mergeable(p: Node, v: Node) -> bool {
    p is Obj && v is Obj && eq_shape(p, v)
}

/// The merged object, meaningful when `mergeable(p, v)` holds: `p`'s keys in
/// `p`'s order, each value combined field by field.
pub open spec fn merge_objects_node(p: Node, v: Node) -> Node {
    match (p, v) {
        (Node::Obj(a), Node::Obj(b)) => Node::Obj(merge_entries(a, b, a.len() as int)),
        _ => Node::Null,
    }
}

/// Builds the two-element array `[a, b]`.
fn pair_array(a: Value, b: Value) -> (r: Value)
    ensures
        r@ == Node::Arr(seq![a@, b@]),
{
    let ghost an = a@;
    let ghost bn = b@;
    let mut out: Vec<Value> = Vec::new();
    out.push(a);
    out.push(b);
    proof {
        lemma_nodes_of(out, 0);
        assert(nodes_of(out, 0)[0 - 0] == node_of(out@[0]));
        assert(nodes_of(out, 0)[1 - 0] == node_of(out@[1]));
        assert(nodes_of(out, 0) =~= seq![an, bn]);
    }
    Value::Array(out)
}

/// Combines the two values one key holds in the two objects being merged.
#[verifier::loop_isolation(false)]
fn merge_field_value(pv: &Value, vv: &Value) -> (r: Value)
    ensures
        r@ == merge_field(pv@, vv@),
{
    match (pv, vv) {
        (Value::Array(_), Value::Array(_)) => {
            if value_eq_exact(pv, vv) {
                pv.deep_clone()
            } else {
                pair_array(pv.deep_clone(), vv.deep_clone())
            }
        },
        (Value::Array(x), _) => {
            proof {
                lemma_nodes_of(*x, 0);
            }
            let ghost xs = nodes_of(*x, 0);
            let mut found = false;
            let mut j: usize = 0;
            while j < x.len()
                invariant
                    j <= x@.len(),
                    found ==> contains_exact(xs, vv@),
                    !found ==> forall|k: int| 0 <= k < j ==> !eq_exact(#[trigger] xs[k], vv@),
                decreases x@.len() - j,
            {
                if value_eq_exact(&x[j], vv) {
                    proof {
                        assert(eq_exact(xs[j as int], vv@));
                    }
                    found = true;
                    break ;
                }
                j += 1;
            }
            let mut out: Vec<Value> = Vec::new();
            let mut i: usize = 0;
            while i < x.len()
                invariant
                    i <= x@.len(),
                    out@.len() == i,
                    forall|k: int| 0 <= k < i ==> node_of(#[trigger] out@[k]) == xs[k],
                decreases x@.len() - i,
            {
                out.push(x[i].deep_clone());
                i += 1;
            }
            if !found {
                assert(!contains_exact(xs, vv@));
                out.push(vv.deep_clone());
            }
            proof {
                lemma_nodes_of(out, 0);
                assert forall|k: int| 0 <= k < out@.len() implies nodes_of(out, 0)[k] == node_of(
                    out@[k],
                ) by {
                    assert(nodes_of(out, 0)[k - 0] == node_of(out@[k]));
                }
                if contains_exact(xs, vv@) {
                    assert(nodes_of(out, 0) =~= xs);
                } else {
                    assert(nodes_of(out, 0) =~= xs + seq![vv@]);
                }
            }
            Value::Array(out)
        },
        _ => {
            if value_eq_exact(pv, vv) {
                pv.deep_clone()
            } else {
                pair_array(pv.deep_clone(), vv.deep_clone())
            }
        },
    }
}

/// Merges two objects of the same shape into one that keeps the left
/// operand's keys; fails exactly when the operands are not both objects with
/// the same key sequence.
#[verifier::loop_isolation(false)]
pub fn merge_similar_objects(p: &Value, v: &Value) -> (r: Result<Value, ()>)
    ensures
        mergeable(p@, v@) ==> r is Ok && r->Ok_0@ == merge_objects_node(p@, v@),
        !mergeable(p@, v@) ==> r is Err,
{
    match (p, v) {
        (Value::Object(a), Value::Object(b)) => {
            if !value_eq_shape(p, v) {
                return Err(());
            }
            proof {
                lemma_entries_of(*a, 0);
                lemma_entries_of(*b, 0);
            }
            let ghost an = entries_of(*a, 0);
            let ghost bn = entries_of(*b, 0);
            assert(a@.len() == b@.len());
            let mut out: Vec<(String, Value)> = Vec::new();
            let mut i: usize = 0;
            while i < a.len()
                invariant
                    i <= a@.len(),
                    out@.len() == i,
                    merge_entries(an, bn, i as int).len() == i,
                    forall|k: int|
                        0 <= k < i ==> ((#[trigger] out@[k]).0@, node_of(out@[k].1))
                            == merge_entries(an, bn, i as int)[k],
                decreases a@.len() - i,
            {
                let key = a[i].0.clone();
                let val = merge_field_value(&a[i].1, &b[i].1);
                out.push((key, val));
                i += 1;
            }
            proof {
                lemma_entries_of(out, 0);
                assert forall|k: int| 0 <= k < out@.len() implies entries_of(out, 0)[k]
                    == merge_entries(an, bn, an.len() as int)[k] by {
                    assert(entries_of(out, 0)[k - 0] == (out@[k].0@, node_of(out@[k].1)));
                }
                assert(entries_of(out, 0) =~= merge_entries(an, bn, an.len() as int));
            }
            Ok(Value::Object(out))
        },
        _ => {
            assert(!mergeable(p@, v@));
            Err(())
        },
    }
}

/// One clustering step: scanning from index `j`, the first representative
/// whose shape matches `x` either absorbs `x` by a field merge or, when the
/// two cannot merge, stands for it unchanged; with no match, `x` becomes a
/// new representative.
pub open spec fn insert_rep(reps: Seq<Node>, x: Node, j: int) -> Seq<Node>
    decreases reps.len() - j,
{
    if j < 0 || j >= reps.len() {
        reps.push(x)
    } else if eq_shape(reps[j], x) {
        if mergeable(reps[j], x) {
            reps.update(j, merge_objects_node(reps[j], x))
        } else {
            reps
        }
    } else {
        insert_rep(reps, x, j + 1)
    }
}

/// The representatives after clustering the first `i` elements of `s`, in
/// first-appearance order of their shapes.
pub open spec fn cluster_upto(s: Seq<Node>, i: int) -> Seq<Node>
    decreases i,
{
    if i <= 0 || i > s.len() {
        Seq::empty()
    } else {
        insert_rep(cluster_upto(s, i - 1), s[i - 1], 0)
    }
}

/// The merged form of a node: an array's elements are clustered by shape and
/// each cluster folded into one representative; an object's values are merged
/// recursively; scalars are untouched.
pub open spec fn merge_node(n: Node) -> Node
    decreases n, 0nat, 0nat,
{
    match n {
        Node::Arr(s) => Node::Arr(cluster_upto(s, s.len() as int)),
        Node::Obj(es) => Node::Obj(merge_entry_vals(es, es.len() as int)),
        _ => n,
    }
}

/// The first `i` entries of `es`, keys kept, values merged recursively.
pub open spec fn merge_entry_vals(es: Seq<(Seq<char>, Node)>, i: int) -> Seq<(Seq<char>, Node)>
    decreases es, i, 1nat,
{
    if i <= 0 || i > es.len() {
        Seq::empty()
    } else {
        merge_entry_vals(es, i - 1) + seq![(es[i - 1].0, merge_node(es[i - 1].1))]
    }
}

/// Scanning may start at any index: skipping representatives whose shapes do
/// not match `x` does not change the outcome.
proof fn lemma_insert_rep_skip(reps: Seq<Node>, x: Node, j: int)
    requires
        0 <= j <= reps.len(),
        forall|k: int| 0 <= k < j ==> !eq_shape(#[trigger] reps[k], x),
    ensures
        insert_rep(reps, x, 0) == insert_rep(reps, x, j),
    decreases j,
{
    if j > 0 {
        lemma_insert_rep_skip(reps, x, j - 1);
    }
}

/// Clusters a tree's arrays into a fresh tree.
#[verifier::loop_isolation(false)]
pub(crate) fn merge_value(v: &Value) -> (r: Value)
    ensures
        r@ == merge_node(v@),
    decreases *v,
{
    match v {
        Value::Null => Value::Null,
        Value::Bool(b) => Value::Bool(*b),
        Value::Number(n) => Value::Number(*n),
        Value::Text(s) => Value::Text(s.clone()),
        Value::Array(vs) => {
            proof {
                lemma_nodes_of(*vs, 0);
            }
            let ghost xs = nodes_of(*vs, 0);
            let mut reps: Vec<Value> = Vec::new();
            let mut i: usize = 0;
            while i < vs.len()
                invariant
                    i <= vs@.len(),
                    reps@.len() == nodes_of(reps, 0).len(),
                    nodes_of(reps, 0) == cluster_upto(xs, i as int),
                decreases vs@.len() - i,
            {
                let ghost rs = nodes_of(reps, 0);
                proof {
                    lemma_nodes_of(reps, 0);
                }
                let mut j: usize = 0;
                let mut matched = false;
                while j < reps.len()
                    invariant
                        j <= reps@.len(),
                        rs.len() == reps@.len(),
                        forall|k: int| 0 <= k < reps@.len() ==> rs[k] == node_of(
                            #[trigger] reps@[k],
                        ),
                        forall|k: int| 0 <= k < j ==> !eq_shape(#[trigger] rs[k], xs[i as int]),
                        matched ==> j < reps@.len() && eq_shape(rs[j as int], xs[i as int]),
                    decreases reps@.len() - j,
                {
                    if value_eq_shape(&reps[j], &vs[i]) {
                        matched = true;
                        break ;
                    }
                    j += 1;
                }
                if matched {
                    proof {
                        lemma_insert_rep_skip(rs, xs[i as int], j as int);
                    }
                    match merge_similar_objects(&reps[j], &vs[i]) {
                        Ok(m) => {
                            let ghost mn = m@;
                            let ghost before = reps@;
                            let _ = reps.remove(j);
                            reps.insert(j, m);
                            proof {
                                assert(reps@ =~= before.update(j as int, m));
                                lemma_nodes_of(reps, 0);
                                assert forall|k: int| 0 <= k < reps@.len() implies nodes_of(
                                    reps,
                                    0,
                                )[k] == rs.update(j as int, mn)[k] by {
                                    assert(nodes_of(reps, 0)[k - 0] == node_of(reps@[k]));
                                }
                                assert(nodes_of(reps, 0) =~= rs.update(j as int, mn));
                                assert(mergeable(rs[j as int], xs[i as int]));
                                assert(insert_rep(rs, xs[i as int], 0) == rs.update(
                                    j as int,
                                    mn,
                                ));
                            }
                        },
                        Err(_) => {
                            proof {
                                assert(!mergeable(rs[j as int], xs[i as int]));
                                assert(insert_rep(rs, xs[i as int], 0) == rs);
                            }
                        },
                    }
                } else {
                    proof {
                        lemma_insert_rep_skip(rs, xs[i as int], rs.len() as int);
                    }
                    reps.push(vs[i].deep_clone());
                    proof {
                        lemma_nodes_of(reps, 0);
                        assert forall|k: int| 0 <= k < reps@.len() implies nodes_of(reps, 0)[k]
                            == rs.push(xs[i as int])[k] by {
                            assert(nodes_of(reps, 0)[k - 0] == node_of(reps@[k]));
                        }
                        assert(nodes_of(reps, 0) =~= rs.push(xs[i as int]));
                    }
                }
                i += 1;
            }
            Value::Array(reps)
        },
        Value::Object(es) => {
            proof {
                lemma_entries_of(*es, 0);
            }
            let ghost xs = entries_of(*es, 0);
            let mut out: Vec<(String, Value)> = Vec::new();
            let mut i: usize = 0;
            while i < es.len()
                invariant
                    i <= es@.len(),
                    out@.len() == i,
                    merge_entry_vals(xs, i as int).len() == i,
                    forall|k: int|
                        0 <= k < i ==> ((#[trigger] out@[k]).0@, node_of(out@[k].1))
                            == merge_entry_vals(xs, i as int)[k],
                decreases es@.len() - i,
            {
                proof {
                    assert(decreases_to!(*es => es@[i as int]));
                    assert(decreases_to!(es@[i as int] => es@[i as int].1));
                    assert(decreases_to!(*v => es@[i as int].1));
                }
                let key = es[i].0.clone();
                let val = merge_value(&es[i].1);
                out.push((key, val));
                i += 1;
            }
            proof {
                lemma_entries_of(out, 0);
                assert forall|k: int| 0 <= k < out@.len() implies entries_of(out, 0)[k]
                    == merge_entry_vals(xs, xs.len() as int)[k] by {
                    assert(entries_of(out, 0)[k - 0] == (out@[k].0@, node_of(out@[k].1)));
                }
                assert(entries_of(out, 0) =~= merge_entry_vals(xs, xs.len() as int));
            }
            Value::Object(out)
        },
    }
}

} // verus!
