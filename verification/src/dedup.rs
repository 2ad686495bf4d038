//! The deduplicator: removal of duplicate array elements under case-folded
//! content equivalence, applied recursively.
//!
//! Arrays first deduplicate each element's own substructure, then drop every
//! element that repeats an earlier one; objects only recurse into their
//! values; scalars are untouched. Surviving elements keep their
//! first-occurrence order.
use vstd::prelude::*;
use crate::value::{Value, Node, node_of, nodes_of, entries_of, lemma_nodes_of, lemma_entries_of};
use crate::equiv::{eq_folded, value_eq_folded};

verus! {

/// Whether `s[k]` is the first member of its case-folded equivalence class
/// within `s`.
pub open spec fn first_occurrence(s: Seq<Node>, k: int) -> bool {
    forall|j: int| 0 <= j < k ==> !eq_folded(#[trigger] s[j], s[k])
}

/// The first occurrences among the first `i` elements of `s`, in order.
pub open spec fn dedup_list_upto(s: Seq<Node>, i: int) -> Seq<Node>
    decreases i,
{
    if i <= 0 || i > s.len() {
        Seq::empty()
    } else if first_occurrence(s, i - 1) {
        dedup_list_upto(s, i - 1) + seq![s[i - 1]]
    } else {
        dedup_list_upto(s, i - 1)
    }
}

/// One representative per case-folded equivalence class of `s`: the first
/// occurrences, in order.
pub open spec fn dedup_list(s: Seq<Node>) -> Seq<Node> {
    dedup_list_upto(s, s.len() as int)
}

/// The deduplicated form of a node: array elements are deduplicated in their
/// own substructure first, then the element list keeps one representative per
/// case-folded class; objects recurse into their values; scalars are
/// untouched.
pub open spec fn dedup_node(n: Node) -> Node
    decreases n, 0nat, 0nat,
{
    match n {
        Node::Arr(s) => Node::Arr(dedup_list(dedup_each(s, s.len() as int))),
        Node::Obj(es) => Node::Obj(dedup_entries(es, es.len() as int)),
        _ => n,
    }
}

/// The first `i` elements of `s`, each deduplicated in its own substructure.
pub open spec fn dedup_each(s: Seq<Node>, i: int) -> Seq<Node>
    decreases s, i, 1nat,
{
    if i <= 0 || i > s.len() {
        Seq::empty()
    } else {
        dedup_each(s, i - 1) + seq![dedup_node(s[i - 1])]
    }
}

/// The first `i` entries of `es`, keys kept, values deduplicated.
pub open spec fn dedup_entries(es: Seq<(Seq<char>, Node)>, i: int) -> Seq<(Seq<char>, Node)>
    decreases es, i, 1nat,
{
    if i <= 0 || i > es.len() {
        Seq::empty()
    } else {
        dedup_entries(es, i - 1) + seq![(es[i - 1].0, dedup_node(es[i - 1].1))]
    }
}

/// Deduplicates a tree into a fresh one.
#[verifier::loop_isolation(false)]
pub(crate) fn dedup_value(v: &Value) -> (r: Value)
    ensures
        r@ == dedup_node(v@),
    decreases *v,
{
    match v {
        Value::Null => Value::Null,
        Value::Bool(b) => Value::Bool(*b),
        Value::Number(n) => Value::Number(*n),
        Value::Text(s) => Value::Text(s.clone()),
        Value::Array(vs) => {
            proof {
                lemma_nodes_of(*vs, 0);
            }
            let ghost xs = nodes_of(*vs, 0);
            let mut ded: Vec<Value> = Vec::new();
            let mut i: usize = 0;
            while i < vs.len()
                invariant
                    i <= vs@.len(),
                    ded@.len() == i,
                    dedup_each(xs, i as int).len() == i,
                    forall|k: int| 0 <= k < i ==> node_of(#[trigger] ded@[k]) == dedup_each(
                        xs,
                        i as int,
                    )[k],
                decreases vs@.len() - i,
            {
                proof {
                    assert(decreases_to!(*vs => vs@[i as int]));
                    assert(decreases_to!(*v => vs@[i as int]));
                }
                ded.push(dedup_value(&vs[i]));
                i += 1;
            }
            proof {
                lemma_nodes_of(ded, 0);
                assert forall|k: int| 0 <= k < ded@.len() implies nodes_of(ded, 0)[k]
                    == dedup_each(xs, xs.len() as int)[k] by {
                    assert(nodes_of(ded, 0)[k - 0] == node_of(ded@[k]));
                }
                assert(nodes_of(ded, 0) =~= dedup_each(xs, xs.len() as int));
            }
            let ghost dd = nodes_of(ded, 0);
            let mut out: Vec<Value> = Vec::new();
            let mut k: usize = 0;
            while k < ded.len()
                invariant
                    k <= ded@.len(),
                    dd == nodes_of(ded, 0),
                    out@.len() == dedup_list_upto(dd, k as int).len(),
                    forall|m: int| 0 <= m < out@.len() ==> node_of(#[trigger] out@[m])
                        == dedup_list_upto(dd, k as int)[m],
                decreases ded@.len() - k,
            {
                let mut j: usize = 0;
                let mut dup = false;
                while j < k
                    invariant
                        j <= k,
                        k < ded@.len(),
                        dup ==> !first_occurrence(dd, k as int),
                        !dup ==> forall|jj: int| 0 <= jj < j ==> !eq_folded(
                            #[trigger] dd[jj],
                            dd[k as int],
                        ),
                    decreases k - j,
                {
                    if value_eq_folded(&ded[j], &ded[k]) {
                        proof {
                            assert(eq_folded(dd[j as int], dd[k as int]));
                        }
                        dup = true;
                        break ;
                    }
                    j += 1;
                }
                if !dup {
                    assert(first_occurrence(dd, k as int));
                    out.push(ded[k].deep_clone());
                }
                k += 1;
            }
            proof {
                lemma_nodes_of(out, 0);
                assert forall|m: int| 0 <= m < out@.len() implies nodes_of(out, 0)[m]
                    == dedup_list(dd)[m] by {
                    assert(nodes_of(out, 0)[m - 0] == node_of(out@[m]));
                }
                assert(nodes_of(out, 0) =~= dedup_list(dd));
            }
            Value::Array(out)
        },
        Value::Object(es) => {
            proof {
                lemma_entries_of(*es, 0);
            }
            let ghost xs = entries_of(*es, 0);
            let mut out: Vec<(String, Value)> = Vec::new();
            let mut i: usize = 0;
            while i < es.len()
                invariant
                    i <= es@.len(),
                    out@.len() == i,
                    dedup_entries(xs, i as int).len() == i,
                    forall|k: int|
                        0 <= k < i ==> ((#[trigger] out@[k]).0@, node_of(out@[k].1))
                            == dedup_entries(xs, i as int)[k],
                decreases es@.len() - i,
            {
                proof {
                    assert(decreases_to!(*es => es@[i as int]));
                    assert(decreases_to!(es@[i as int] => es@[i as int].1));
                    assert(decreases_to!(*v => es@[i as int].1));
                }
                let key = es[i].0.clone();
                let val = dedup_value(&es[i].1);
                out.push((key, val));
                i += 1;
            }
            proof {
                lemma_entries_of(out, 0);
                assert forall|k: int| 0 <= k < out@.len() implies entries_of(out, 0)[k]
                    == dedup_entries(xs, xs.len() as int)[k] by {
                    assert(entries_of(out, 0)[k - 0] == (out@[k].0@, node_of(out@[k].1)));
                }
                assert(entries_of(out, 0) =~= dedup_entries(xs, xs.len() as int));
            }
            Value::Object(out)
        },
    }
}

} // verus!
