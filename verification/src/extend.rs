//! Extension of one tree value with another: an object absorbs another
//! object's entries key by key (an existing key keeps its position, its value
//! replaced), or files an array under the key `items`; an array gains an
//! object as one more element, or another array's elements wholesale.
use vstd::prelude::*;
use crate::value::{Value, Node, node_of, nodes_of, entries_of, lemma_nodes_of, lemma_entries_of};

verus! {

/// The entries of an object after setting `key` to `v`: an entry already
/// holding `key` keeps its position with the new value; otherwise the new
/// entry goes to the end. When several entries hold `key`, the first one is
/// the one replaced.
pub open spec fn obj_insert(
    es: Seq<(Seq<char>, Node)>,
    key: Seq<char>,
    v: Node,
) -> Seq<(Seq<char>, Node)>
    decreases es.len(),
{
    if es.len() == 0 {
        seq![(key, v)]
    } else if es[0].0 == key {
        seq![(key, v)] + es.drop_first()
    } else {
        seq![es[0]] + obj_insert(es.drop_first(), key, v)
    }
}

/// With `key` nowhere in `es`, insertion appends.
pub proof fn lemma_obj_insert_absent(es: Seq<(Seq<char>, Node)>, key: Seq<char>, v: Node)
    requires
        forall|k: int| 0 <= k < es.len() ==> (#[trigger] es[k]).0 != key,
    ensures
        obj_insert(es, key, v) == es + seq![(key, v)],
    decreases es.len(),
{
    if es.len() == 0 {
        assert(obj_insert(es, key, v) =~= es + seq![(key, v)]);
    } else {
        assert(es[0].0 != key);
        assert forall|k: int| 0 <= k < es.drop_first().len() implies (#[trigger] es.drop_first()[
            k]).0 != key by {
            assert(es[k + 1].0 != key);
        }
        lemma_obj_insert_absent(es.drop_first(), key, v);
        assert(obj_insert(es, key, v) =~= es + seq![(key, v)]);
    }
}

/// With the first entry holding `key` at position `i`, insertion replaces
/// that entry's value in place.
pub proof fn lemma_obj_insert_found(es: Seq<(Seq<char>, Node)>, key: Seq<char>, v: Node, i: int)
    requires
        0 <= i < es.len(),
        es[i].0 == key,
        forall|k: int| 0 <= k < i ==> (#[trigger] es[k]).0 != key,
    ensures
        obj_insert(es, key, v) == es.update(i, (key, v)),
    decreases i,
{
    if i == 0 {
        assert(obj_insert(es, key, v) =~= es.update(0, (key, v)));
    } else {
        assert(es[0].0 != key);
        assert forall|k: int| 0 <= k < i - 1 implies (#[trigger] es.drop_first()[k]).0 != key by {
            assert(es[k + 1].0 != key);
        }
        assert(es.drop_first()[i - 1].0 == key);
        lemma_obj_insert_found(es.drop_first(), key, v, i - 1);
        assert(obj_insert(es, key, v) =~= es.update(i, (key, v)));
    }
}

/// The entries of `es` after inserting the first `i` entries of `add` in
/// order.
pub open spec fn extend_entries(
    es: Seq<(Seq<char>, Node)>,
    add: Seq<(Seq<char>, Node)>,
    i: int,
) -> Seq<(Seq<char>, Node)>
    decreases i,
{
    if i <= 0 || i > add.len() {
        es
    } else {
        obj_insert(extend_entries(es, add, i - 1), add[i - 1].0, add[i - 1].1)
    }
}

/// The tree after extending `a` with `b`. An object absorbs an object's
/// entries one by one, or files an array under the key `items`; an array
/// gains an object as one more element, or another array's elements; any
/// other combination leaves `a` unchanged.
pub open spec fn extend_node(a: Node, b: Node) -> Node {
    match (a, b) {
        (Node::Obj(es), Node::Obj(bs)) => Node::Obj(extend_entries(es, bs, bs.len() as int)),
        (Node::Obj(es), Node::Arr(_)) => Node::Obj(obj_insert(es, "items"@, b)),
        (Node::Arr(s), Node::Obj(_)) => Node::Arr(s.push(b)),
        (Node::Arr(s), Node::Arr(bs)) => Node::Arr(s + bs),
        _ => a,
    }
}

/// Sets `key` to `v` in an entry list, replacing the first entry already
/// holding `key` or appending a new one.
#[verifier::loop_isolation(false)]
fn obj_insert_value(es: &mut Vec<(String, Value)>, key: String, v: Value)
    ensures
        entries_of(*final(es), 0) == obj_insert(entries_of(*old(es), 0), key@, v@),
{
    proof {
        lemma_entries_of(*es, 0);
    }
    let ghost es0 = entries_of(*es, 0);
    let mut i: usize = 0;
    let mut found = false;
    while i < es.len()
        invariant
            i <= es@.len(),
            *es == *old(es),
            forall|k: int| 0 <= k < i ==> (#[trigger] es0[k]).0 != key@,
            found ==> i < es@.len() && es0[i as int].0 == key@,
        decreases es@.len() - i,
    {
        if es[i].0.eq(&key) {
            found = true;
            break ;
        }
        i += 1;
    }
    if found {
        proof {
            lemma_obj_insert_found(es0, key@, v@, i as int);
        }
        let ghost before = es@;
        let ghost kn = key@;
        let ghost vn = v@;
        let _ = es.remove(i);
        es.insert(i, (key, v));
        proof {
            assert(es@ =~= before.update(i as int, (key, v)));
            lemma_entries_of(*es, 0);
            assert forall|k: int| 0 <= k < es@.len() implies entries_of(*es, 0)[k] == es0.update(
                i as int,
                (kn, vn),
            )[k] by {
                assert(entries_of(*es, 0)[k - 0] == (es@[k].0@, node_of(es@[k].1)));
                assert(entries_of(*old(es), 0)[k - 0] == (old(es)@[k].0@, node_of(old(es)@[k].1)));
            }
            assert(entries_of(*es, 0) =~= es0.update(i as int, (kn, vn)));
        }
    } else {
        proof {
            lemma_obj_insert_absent(es0, key@, v@);
        }
        let ghost kn = key@;
        let ghost vn = v@;
        es.push((key, v));
        proof {
            lemma_entries_of(*es, 0);
            assert forall|k: int| 0 <= k < es@.len() implies entries_of(*es, 0)[k] == (es0 + seq![
                (kn, vn),
            ])[k] by {
                assert(entries_of(*es, 0)[k - 0] == (es@[k].0@, node_of(es@[k].1)));
                if k < es0.len() {
                    assert(entries_of(*old(es), 0)[k - 0] == (old(es)@[k].0@, node_of(
                        old(es)@[k].1,
                    )));
                }
            }
            assert(entries_of(*es, 0) =~= es0 + seq![(kn, vn)]);
        }
    }
}

/// Clones the elements of `vs` into a fresh vector.
#[verifier::loop_isolation(false)]
fn clone_elems(vs: &Vec<Value>) -> (out: Vec<Value>)
    ensures
        out@.len() == vs@.len(),
        nodes_of(out, 0) == nodes_of(*vs, 0),
{
    proof {
        lemma_nodes_of(*vs, 0);
    }
    let mut out: Vec<Value> = Vec::new();
    let mut i: usize = 0;
    while i < vs.len()
        invariant
            i <= vs@.len(),
            out@.len() == i,
            forall|k: int| 0 <= k < i ==> node_of(#[trigger] out@[k]) == node_of(vs@[k]),
        decreases vs@.len() - i,
    {
        out.push(vs[i].deep_clone());
        i += 1;
    }
    proof {
        lemma_nodes_of(out, 0);
        assert forall|k: int| 0 <= k < out@.len() implies nodes_of(out, 0)[k] == nodes_of(
            *vs,
            0,
        )[k] by {
            assert(nodes_of(out, 0)[k - 0] == node_of(out@[k]));
            assert(nodes_of(*vs, 0)[k - 0] == node_of(vs@[k]));
        }
        assert(nodes_of(out, 0) =~= nodes_of(*vs, 0));
    }
    out
}

/// Clones the entries of `es` into a fresh vector.
#[verifier::loop_isolation(false)]
fn clone_entries(es: &Vec<(String, Value)>) -> (out: Vec<(String, Value)>)
    ensures
        out@.len() == es@.len(),
        entries_of(out, 0) == entries_of(*es, 0),
{
    proof {
        lemma_entries_of(*es, 0);
    }
    let mut out: Vec<(String, Value)> = Vec::new();
    let mut i: usize = 0;
    while i < es.len()
        invariant
            i <= es@.len(),
            out@.len() == i,
            forall|k: int|
                0 <= k < i ==> (#[trigger] out@[k]).0@ == es@[k].0@ && node_of(out@[k].1)
                    == node_of(es@[k].1),
        decreases es@.len() - i,
    {
        let key = es[i].0.clone();
        let val = es[i].1.deep_clone();
        out.push((key, val));
        i += 1;
    }
    proof {
        lemma_entries_of(out, 0);
        assert forall|k: int| 0 <= k < out@.len() implies entries_of(out, 0)[k] == entries_of(
            *es,
            0,
        )[k] by {
            assert(entries_of(out, 0)[k - 0] == (out@[k].0@, node_of(out@[k].1)));
            assert(entries_of(*es, 0)[k - 0] == (es@[k].0@, node_of(es@[k].1)));
        }
        assert(entries_of(out, 0) =~= entries_of(*es, 0));
    }
    out
}

/// Builds the tree that extends `a` with `b`.
#[verifier::loop_isolation(false)]
pub(crate) fn extend_value(a: &Value, b: &Value) -> (r: Value)
    ensures
        r@ == extend_node(a@, b@),
{
    match (a, b) {
        (Value::Object(es), Value::Object(bs)) => {
            proof {
                lemma_entries_of(*es, 0);
                lemma_entries_of(*bs, 0);
            }
            let ghost es0 = entries_of(*es, 0);
            let ghost bsn = entries_of(*bs, 0);
            let mut out = clone_entries(es);
            let mut i: usize = 0;
            while i < bs.len()
                invariant
                    i <= bs@.len(),
                    entries_of(out, 0) == extend_entries(es0, bsn, i as int),
                decreases bs@.len() - i,
            {
                let key = bs[i].0.clone();
                let val = bs[i].1.deep_clone();
                obj_insert_value(&mut out, key, val);
                i += 1;
            }
            Value::Object(out)
        },
        (Value::Object(es), Value::Array(_)) => {
            let mut out = clone_entries(es);
            let key: String = "items".to_owned();
            obj_insert_value(&mut out, key, b.deep_clone());
            Value::Object(out)
        },
        (Value::Array(vs), Value::Object(_)) => {
            let ghost s0 = nodes_of(*vs, 0);
            let mut out = clone_elems(vs);
            let ghost before = out;
            out.push(b.deep_clone());
            proof {
                lemma_nodes_of(before, 0);
                lemma_nodes_of(out, 0);
                assert forall|k: int| 0 <= k < out@.len() implies nodes_of(out, 0)[k] == s0.push(
                    b@,
                )[k] by {
                    assert(nodes_of(out, 0)[k - 0] == node_of(out@[k]));
                    if k < s0.len() {
                        assert(nodes_of(before, 0)[k - 0] == node_of(before@[k]));
                    }
                }
                assert(nodes_of(out, 0) =~= s0.push(b@));
            }
            Value::Array(out)
        },
        (Value::Array(vs), Value::Array(bs)) => {
            let ghost s0 = nodes_of(*vs, 0);
            let ghost t0 = nodes_of(*bs, 0);
            proof {
                lemma_nodes_of(*vs, 0);
                lemma_nodes_of(*bs, 0);
            }
            let mut out = clone_elems(vs);
            proof {
                lemma_nodes_of(out, 0);
                assert forall|k: int| 0 <= k < out@.len() implies node_of(#[trigger] out@[k]) == (
                s0 + t0.take(0))[k] by {
                    assert(nodes_of(out, 0)[k - 0] == node_of(out@[k]));
                }
            }
            let mut i: usize = 0;
            while i < bs.len()
                invariant
                    i <= bs@.len(),
                    out@.len() == s0.len() + i,
                    forall|k: int| 0 <= k < out@.len() ==> node_of(#[trigger] out@[k]) == (s0
                        + t0.take(i as int))[k],
                decreases bs@.len() - i,
            {
                let ghost before = out;
                out.push(bs[i].deep_clone());
                proof {
                    assert(nodes_of(*bs, 0)[i as int - 0] == node_of(bs@[i as int]));
                    assert forall|k: int| 0 <= k < out@.len() implies node_of(
                        #[trigger] out@[k],
                    ) == (s0 + t0.take(i as int + 1))[k] by {
                        if k < before@.len() {
                            assert(node_of(before@[k]) == (s0 + t0.take(i as int))[k]);
                            assert((s0 + t0.take(i as int))[k] == (s0 + t0.take(i as int + 1))[k]);
                        }
                    }
                }
                i += 1;
            }
            proof {
                lemma_nodes_of(out, 0);
                assert forall|k: int| 0 <= k < out@.len() implies nodes_of(out, 0)[k] == (s0
                    + t0)[k] by {
                    assert(nodes_of(out, 0)[k - 0] == node_of(out@[k]));
                    assert((s0 + t0.take(t0.len() as int))[k] == (s0 + t0)[k]);
                }
                assert(nodes_of(out, 0) =~= s0 + t0);
            }
            Value::Array(out)
        },
        _ => {
            assert(extend_node(a@, b@) == a@);
            a.deep_clone()
        },
    }
}

} // verus!
