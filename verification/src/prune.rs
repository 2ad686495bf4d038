//! The pruner: bottom-up removal of null values and, optionally, of empty
//! arrays and objects.
//!
//! A node is judged removable only after its own children have been pruned,
//! so a container that holds nothing but removable children is itself
//! removable when empties are being removed.
use vstd::prelude::*;
use crate::value::{Value, Node, node_of, nodes_of, entries_of, lemma_nodes_of, lemma_entries_of};

verus! {

/// Whether a node disappears from its parent when pruned with the given mode.
/// Null always does; scalars never do; a container does exactly when empties
/// are being removed and every child of it would itself disappear.
pub open spec fn removable(n: Node, with_empties: bool) -> bool
    decreases n,
{
    match n {
        Node::Null => true,
        Node::Bool(_) => false,
        Node::Int(_) => false,
        Node::Text(_) => false,
        Node::Arr(s) => with_empties && (forall|i: int|
            0 <= i < s.len() ==> removable(#[trigger] s[i], with_empties)),
        Node::Obj(es) => with_empties && (forall|i: int|
            0 <= i < es.len() ==> removable((#[trigger] es[i]).1, with_empties)),
    }
}

/// The pruned form of a node: containers keep, in order, the pruned forms of
/// their children that are not removable; scalars are untouched.
pub open spec fn prune_node(n: Node, with_empties: bool) -> Node
    decreases n, 0nat, 0nat,
{
    match n {
        Node::Arr(s) => Node::Arr(prune_elems(s, with_empties, s.len() as int)),
        Node::Obj(es) => Node::Obj(prune_entries(es, with_empties, es.len() as int)),
        _ => n,
    }
}

/// The pruned forms of the non-removable elements among the first `i` of `s`.
pub open spec fn prune_elems(s: Seq<Node>, with_empties: bool, i: int) -> Seq<Node>
    decreases s, i, 1nat,
{
    if i <= 0 || i > s.len() {
        Seq::empty()
    } else if removable(s[i - 1], with_empties) {
        prune_elems(s, with_empties, i - 1)
    } else {
        prune_elems(s, with_empties, i - 1) + seq![prune_node(s[i - 1], with_empties)]
    }
}

/// The entries among the first `i` of `es` whose values are not removable,
/// keys kept and values pruned.
pub open spec fn prune_entries(
    es: Seq<(Seq<char>, Node)>,
    with_empties: bool,
    i: int,
) -> Seq<(Seq<char>, Node)>
    decreases es, i, 1nat,
{
    if i <= 0 || i > es.len() {
        Seq::empty()
    } else if removable(es[i - 1].1, with_empties) {
        prune_entries(es, with_empties, i - 1)
    } else {
        prune_entries(es, with_empties, i - 1) + seq![
            (es[i - 1].0, prune_node(es[i - 1].1, with_empties)),
        ]
    }
}

/// Prunes a tree into a fresh one and reports whether the tree as a whole is
/// removable from a parent.
#[verifier::loop_isolation(false)]
fn prune_value(v: &Value, with_empties: bool) -> (res: (Value, bool))
    ensures
        res.0@ == prune_node(v@, with_empties),
        res.1 == removable(v@, with_empties),
    decreases *v,
{
    match v {
        Value::Null => (Value::Null, true),
        Value::Bool(b) => (Value::Bool(*b), false),
        Value::Number(n) => (Value::Number(*n), false),
        Value::Text(s) => (Value::Text(s.clone()), false),
        Value::Array(vs) => {
            proof {
                lemma_nodes_of(*vs, 0);
            }
            let ghost xs = nodes_of(*vs, 0);
            let mut out: Vec<Value> = Vec::new();
            let mut all_rem = true;
            let mut i: usize = 0;
            while i < vs.len()
                invariant
                    i <= vs@.len(),
                    all_rem == (forall|k: int|
                        0 <= k < i ==> removable(#[trigger] xs[k], with_empties)),
                    out@.len() == prune_elems(xs, with_empties, i as int).len(),
                    forall|k: int|
                        0 <= k < out@.len() ==> node_of(#[trigger] out@[k]) == prune_elems(
                            xs,
                            with_empties,
                            i as int,
                        )[k],
                decreases vs@.len() - i,
            {
                proof {
                    assert(decreases_to!(*vs => vs@[i as int]));
                    assert(decreases_to!(*v => vs@[i as int]));
                }
                let (pv, rem) = prune_value(&vs[i], with_empties);
                if !rem {
                    out.push(pv);
                    all_rem = false;
                }
                i += 1;
            }
            proof {
                lemma_nodes_of(out, 0);
                let pruned = prune_elems(xs, with_empties, xs.len() as int);
                assert(xs.len() == vs@.len());
                assert(out@.len() == pruned.len());
                assert(nodes_of(out, 0).len() == out@.len());
                assert forall|k: int| 0 <= k < out@.len() implies nodes_of(out, 0)[k]
                    == pruned[k] by {
                    assert(nodes_of(out, 0)[k - 0] == node_of(out@[k]));
                }
                assert(nodes_of(out, 0) =~= pruned);
            }
            (Value::Array(out), with_empties && all_rem)
        },
        Value::Object(es) => {
            proof {
                lemma_entries_of(*es, 0);
            }
            let ghost xs = entries_of(*es, 0);
            let mut out: Vec<(String, Value)> = Vec::new();
            let mut all_rem = true;
            let mut i: usize = 0;
            while i < es.len()
                invariant
                    i <= es@.len(),
                    all_rem == (forall|k: int|
                        0 <= k < i ==> removable((#[trigger] xs[k]).1, with_empties)),
                    out@.len() == prune_entries(xs, with_empties, i as int).len(),
                    forall|k: int|
                        0 <= k < out@.len() ==> ((#[trigger] out@[k]).0@, node_of(out@[k].1))
                            == prune_entries(xs, with_empties, i as int)[k],
                decreases es@.len() - i,
            {
                proof {
                    assert(decreases_to!(*es => es@[i as int]));
                    assert(decreases_to!(es@[i as int] => es@[i as int].1));
                    assert(decreases_to!(*v => es@[i as int].1));
                }
                let (pv, rem) = prune_value(&es[i].1, with_empties);
                if !rem {
                    out.push((es[i].0.clone(), pv));
                    all_rem = false;
                }
                i += 1;
            }
            proof {
                lemma_entries_of(out, 0);
                let pruned = prune_entries(xs, with_empties, xs.len() as int);
                assert(out@.len() == pruned.len());
                assert forall|k: int| 0 <= k < out@.len() implies entries_of(out, 0)[k]
                    == pruned[k] by {
                    assert(entries_of(out, 0)[k - 0] == (out@[k].0@, node_of(out@[k].1)));
                }
                assert(entries_of(out, 0) =~= pruned);
            }
            (Value::Object(out), with_empties && all_rem)
        },
    }
}

/// Removes null value fields from a tree in place; with `with_empties`, empty
/// arrays and objects anywhere in the tree collapse their containing entry or
/// slot as well. Returns whether the whole tree would itself be removable
/// from a parent.
pub fn remove_nulls(val: &mut Value, with_empties: bool) -> (rem: bool)
    ensures
        final(val)@ == prune_node(old(val)@, with_empties),
        rem == removable(old(val)@, with_empties),
{
    let (res, rem) = prune_value(&*val, with_empties);
    *val = res;
    rem
}

} // verus!
