//! The equivalence engine: three distinct relations over tree values.
//!
//! * Exact: structural equality; object entries may come in any order.
//! * Case-folded content: like Exact, but text compares after case folding;
//!   object entries must come in the same order (a deliberate asymmetry).
//! * Shape only: objects are equivalent when they expose the same key
//!   sequence; every other variant is compared exactly.
use vstd::prelude::*;
use crate::value::{Value, Node, node_of, nodes_of, entries_of, lemma_nodes_of, lemma_entries_of};
use crate::fold::{lower_of, lowercase};

verus! {

/// Exact structural equality. Objects compare by full key-to-value equality,
/// independent of entry order; arrays compare element by element.
pub open spec fn eq_exact(a: Node, b: Node) -> bool
    decreases a, 0nat,
{
    match (a, b) {
        (Node::Null, Node::Null) => true,
        (Node::Bool(x), Node::Bool(y)) => x == y,
        (Node::Int(x), Node::Int(y)) => x == y,
        (Node::Text(x), Node::Text(y)) => x == y,
        (Node::Arr(x), Node::Arr(y)) => x.len() == y.len() && (forall|i: int|
            0 <= i < x.len() ==> eq_exact(#[trigger] x[i], y[i])),
        (Node::Obj(x), Node::Obj(y)) => x.len() == y.len() && (forall|i: int|
            0 <= i < x.len() ==> has_exact_entry(y, #[trigger] x[i])),
        _ => false,
    }
}

/// Whether some entry of `y` holds the key of `e` with a value
/// Exact-equivalent to `e`'s.
pub open spec fn has_exact_entry(y: Seq<(Seq<char>, Node)>, e: (Seq<char>, Node)) -> bool
    decreases e.1, 1nat,
{
    exists|j: int| 0 <= j < y.len() && (#[trigger] y[j]).0 == e.0 && eq_exact(e.1, y[j].1)
}

/// Case-folded content equality. Text compares after case folding; object
/// entries compare key by key in order, keys exactly, values under this
/// relation.
pub open spec fn eq_folded(a: Node, b: Node) -> bool
    decreases a,
{
    match (a, b) {
        (Node::Null, Node::Null) => true,
        (Node::Bool(x), Node::Bool(y)) => x == y,
        (Node::Int(x), Node::Int(y)) => x == y,
        (Node::Text(x), Node::Text(y)) => lower_of(x) == lower_of(y),
        (Node::Arr(x), Node::Arr(y)) => x.len() == y.len() && (forall|i: int|
            0 <= i < x.len() ==> eq_folded(#[trigger] x[i], y[i])),
        (Node::Obj(x), Node::Obj(y)) => x.len() == y.len() && (forall|i: int|
            0 <= i < x.len() ==> (#[trigger] x[i]).0 == y[i].0 && eq_folded(x[i].1, y[i].1)),
        _ => false,
    }
}

/// Shape-only equality. Two objects are equivalent when they expose the same
/// sequence of keys, whatever their values; all other variants are equivalent
/// only when exactly equal.
pub open spec fn eq_shape(a: Node, b: Node) -> bool {
    match (a, b) {
        (Node::Obj(x), Node::Obj(y)) => x.len() == y.len() && (forall|i: int|
            0 <= i < x.len() ==> (#[trigger] x[i]).0 == y[i].0),
        _ => eq_exact(a, b),
    }
}

/// Decides Exact equivalence of two tree values.
#[verifier::loop_isolation(false)]
pub fn value_eq_exact(a: &Value, b: &Value) -> (r: bool)
    ensures
        r == eq_exact(a@, b@),
    decreases *a,
{
    match (a, b) {
        (Value::Null, Value::Null) => true,
        (Value::Bool(x), Value::Bool(y)) => *x == *y,
        (Value::Number(x), Value::Number(y)) => *x == *y,
        (Value::Text(x), Value::Text(y)) => x.eq(y),
        (Value::Array(x), Value::Array(y)) => {
            proof {
                lemma_nodes_of(*x, 0);
                lemma_nodes_of(*y, 0);
            }
            let ghost xs = nodes_of(*x, 0);
            let ghost ys = nodes_of(*y, 0);
            if x.len() != y.len() {
                return false;
            }
            let mut i: usize = 0;
            while i < x.len()
                invariant
                    i <= x.len(),
                    forall|k: int| 0 <= k < i ==> eq_exact(#[trigger] xs[k], ys[k]),
                decreases x@.len() - i,
            {
                proof {
                    assert(decreases_to!(*x => x@[i as int]));
                    assert(decreases_to!(*a => x@[i as int]));
                }
                if !value_eq_exact(&x[i], &y[i]) {
                    assert(!eq_exact(xs[i as int], ys[i as int]));
                    return false;
                }
                i += 1;
            }
            true
        },
        (Value::Object(x), Value::Object(y)) => {
            proof {
                lemma_entries_of(*x, 0);
                lemma_entries_of(*y, 0);
            }
            let ghost xs = entries_of(*x, 0);
            let ghost ys = entries_of(*y, 0);
            if x.len() != y.len() {
                return false;
            }
            let mut i: usize = 0;
            while i < x.len()
                invariant
                    i <= x.len(),
                    forall|k: int| 0 <= k < i ==> has_exact_entry(ys, #[trigger] xs[k]),
                decreases x@.len() - i,
            {
                let mut j: usize = 0;
                let mut found = false;
                while j < y.len()
                    invariant
                        j <= y.len(),
                        i < x.len(),
                        !found ==> forall|jj: int|
                            0 <= jj < j ==> !((#[trigger] ys[jj]).0 == xs[i as int].0 && eq_exact(
                                xs[i as int].1,
                                ys[jj].1,
                            )),
                        found ==> has_exact_entry(ys, xs[i as int]),
                    decreases y@.len() - j,
                {
                    proof {
                        assert(decreases_to!(*x => x@[i as int]));
                        assert(decreases_to!(x@[i as int] => x@[i as int].1));
                        assert(decreases_to!(*a => x@[i as int].1));
                    }
                    if x[i].0.eq(&y[j].0) && value_eq_exact(&x[i].1, &y[j].1) {
                        proof {
                            assert(0 <= j < ys.len() && ys[j as int].0 == xs[i as int].0
                                && eq_exact(xs[i as int].1, ys[j as int].1));
                        }
                        found = true;
                        break ;
                    }
                    j += 1;
                }
                if !found {
                    assert(!has_exact_entry(ys, xs[i as int]));
                    return false;
                }
                i += 1;
            }
            true
        },
        _ => false,
    }
}

/// Decides case-folded content equivalence of two tree values.
#[verifier::loop_isolation(false)]
pub fn value_eq_folded(a: &Value, b: &Value) -> (r: bool)
    ensures
        r == eq_folded(a@, b@),
    decreases *a,
{
    match (a, b) {
        (Value::Null, Value::Null) => true,
        (Value::Bool(x), Value::Bool(y)) => *x == *y,
        (Value::Number(x), Value::Number(y)) => *x == *y,
        (Value::Text(x), Value::Text(y)) => lowercase(x).eq(&lowercase(y)),
        (Value::Array(x), Value::Array(y)) => {
            proof {
                lemma_nodes_of(*x, 0);
                lemma_nodes_of(*y, 0);
            }
            let ghost xs = nodes_of(*x, 0);
            let ghost ys = nodes_of(*y, 0);
            if x.len() != y.len() {
                return false;
            }
            let mut i: usize = 0;
            while i < x.len()
                invariant
                    i <= x.len(),
                    forall|k: int| 0 <= k < i ==> eq_folded(#[trigger] xs[k], ys[k]),
                decreases x@.len() - i,
            {
                proof {
                    assert(decreases_to!(*x => x@[i as int]));
                    assert(decreases_to!(*a => x@[i as int]));
                }
                if !value_eq_folded(&x[i], &y[i]) {
                    assert(!eq_folded(xs[i as int], ys[i as int]));
                    return false;
                }
                i += 1;
            }
            true
        },
        (Value::Object(x), Value::Object(y)) => {
            proof {
                lemma_entries_of(*x, 0);
                lemma_entries_of(*y, 0);
            }
            let ghost xs = entries_of(*x, 0);
            let ghost ys = entries_of(*y, 0);
            if x.len() != y.len() {
                return false;
            }
            let mut i: usize = 0;
            while i < x.len()
                invariant
                    i <= x.len(),
                    forall|k: int| 0 <= k < i ==> (#[trigger] xs[k]).0 == ys[k].0 && eq_folded(
                        xs[k].1,
                        ys[k].1,
                    ),
                decreases x@.len() - i,
            {
                proof {
                    assert(decreases_to!(*x => x@[i as int]));
                    assert(decreases_to!(x@[i as int] => x@[i as int].1));
                    assert(decreases_to!(*a => x@[i as int].1));
                }
                if !x[i].0.eq(&y[i].0) || !value_eq_folded(&x[i].1, &y[i].1) {
                    assert(!(xs[i as int].0 == ys[i as int].0 && eq_folded(
                        xs[i as int].1,
                        ys[i as int].1,
                    )));
                    return false;
                }
                i += 1;
            }
            true
        },
        _ => false,
    }
}

/// Decides shape-only equivalence of two tree values.
#[verifier::loop_isolation(false)]
pub fn value_eq_shape(a: &Value, b: &Value) -> (r: bool)
    ensures
        r == eq_shape(a@, b@),
{
    match (a, b) {
        (Value::Object(x), Value::Object(y)) => {
            proof {
                lemma_entries_of(*x, 0);
                lemma_entries_of(*y, 0);
            }
            let ghost xs = entries_of(*x, 0);
            let ghost ys = entries_of(*y, 0);
            if x.len() != y.len() {
                return false;
            }
            let mut i: usize = 0;
            while i < x.len()
                invariant
                    i <= x.len(),
                    forall|k: int| 0 <= k < i ==> (#[trigger] xs[k]).0 == ys[k].0,
                decreases x@.len() - i,
            {
                if !x[i].0.eq(&y[i].0) {
                    assert(xs[i as int].0 != ys[i as int].0);
                    return false;
                }
                i += 1;
            }
            true
        },
        _ => value_eq_exact(a, b),
    }
}

} // verus!
