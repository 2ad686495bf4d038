//! The tree value model: a recursive tagged union mirroring a JSON document,
//! together with its mathematical view.
use vstd::prelude::*;

verus! {

/// A JSON-like tree value.
///
/// `Number` holds a finite integer magnitude; an unsigned or signed integer
/// of the same magnitude is one and the same `Number`, as the model requires.
/// `Object` is an ordered mapping; well-formed objects have unique keys
/// (see [`wf_node`]).
#[derive(Debug, PartialEq, Eq)]
pub enum Value {
    Null,
    Bool(bool),
    Number(i128),
    Text(String),
    Array(Vec<Value>),
    Object(Vec<(String, Value)>),
}

/// The mathematical shape of a [`Value`]: the same tree over `Seq` and `int`.
#[verifier::ext_equal]
pub enum Node {
    Null,
    Bool(bool),
    Int(int),
    Text(Seq<char>),
    Arr(Seq<Node>),
    Obj(Seq<(Seq<char>, Node)>),
}

/// The view of a tree value, one node at a time.
pub open spec fn node_of(v: Value) -> Node
    decreases v, 0nat,
{
    match v {
        Value::Null => Node::Null,
        Value::Bool(b) => Node::Bool(b),
        Value::Number(n) => Node::Int(n as int),
        Value::Text(s) => Node::Text(s@),
        Value::Array(vs) => Node::Arr(nodes_of(vs, 0)),
        Value::Object(es) => Node::Obj(entries_of(es, 0)),
    }
}

/// Views of the elements of `vs` from index `i` on.
pub open spec fn nodes_of(vs: Vec<Value>, i: int) -> Seq<Node>
    decreases vs, vs@.len() - i,
{
    if i < 0 || i >= vs@.len() {
        Seq::empty()
    } else {
        seq![node_of(vs@[i])] + nodes_of(vs, i + 1)
    }
}

/// Views of the entries of `es` from index `i` on.
pub open spec fn entries_of(es: Vec<(String, Value)>, i: int) -> Seq<(Seq<char>, Node)>
    decreases es, es@.len() - i,
{
    if i < 0 || i >= es@.len() {
        Seq::empty()
    } else {
        seq![(es@[i].0@, node_of(es@[i].1))] + entries_of(es, i + 1)
    }
}

/// Well-formedness of a tree: every object's keys are unique, at every
/// depth. Callers supply well-formed trees; every pass preserves this (see
/// the laws module).
pub open spec fn wf_node(n: Node) -> bool
    decreases n,
{
    match n {
        Node::Arr(s) => forall|i: int| 0 <= i < s.len() ==> wf_node(#[trigger] s[i]),
        Node::Obj(es) => (forall|i: int, j: int|
            #![trigger es[i], es[j]]
            0 <= i < j < es.len() ==> es[i].0 != es[j].0) && (forall|i: int|
            0 <= i < es.len() ==> wf_node((#[trigger] es[i]).1)),
        _ => true,
    }
}

impl View for Value {
    type V = Node;

    open spec fn view(&self) -> Node {
        node_of(*self)
    }
}

impl Value {
    /// Builds a structurally identical copy of the tree.
    #[verifier::loop_isolation(false)]
    pub fn deep_clone(&self) -> (r: Value)
        ensures
            r@ == self@,
        decreases *self,
    {
        match self {
            Value::Null => Value::Null,
            Value::Bool(b) => Value::Bool(*b),
            Value::Number(n) => Value::Number(*n),
            Value::Text(s) => Value::Text(s.clone()),
            Value::Array(vs) => {
                proof {
                    lemma_nodes_of(*vs, 0);
                }
                let mut out: Vec<Value> = Vec::new();
                let mut i: usize = 0;
                while i < vs.len()
                    invariant
                        i <= vs@.len(),
                        out@.len() == i,
                        forall|k: int|
                            0 <= k < i ==> node_of(#[trigger] out@[k]) == node_of(vs@[k]),
                    decreases vs@.len() - i,
                {
                    proof {
                        assert(decreases_to!(*vs => vs@[i as int]));
                        assert(decreases_to!(*self => vs@[i as int]));
                    }
                    out.push(vs[i].deep_clone());
                    i += 1;
                }
                proof {
                    lemma_nodes_of(out, 0);
                    assert forall|k: int| 0 <= k < out@.len() implies nodes_of(out, 0)[k]
                        == nodes_of(*vs, 0)[k] by {
                        assert(nodes_of(out, 0)[k - 0] == node_of(out@[k]));
                        assert(nodes_of(*vs, 0)[k - 0] == node_of(vs@[k]));
                    }
                    assert(nodes_of(out, 0) =~= nodes_of(*vs, 0));
                }
                Value::Array(out)
            },
            Value::Object(es) => {
                proof {
                    lemma_entries_of(*es, 0);
                }
                let mut out: Vec<(String, Value)> = Vec::new();
                let mut i: usize = 0;
                while i < es.len()
                    invariant
                        i <= es@.len(),
                        out@.len() == i,
                        forall|k: int|
                            0 <= k < i ==> (#[trigger] out@[k]).0@ == es@[k].0@ && node_of(
                                out@[k].1,
                            ) == node_of(es@[k].1),
                    decreases es@.len() - i,
                {
                    proof {
                        assert(decreases_to!(*es => es@[i as int]));
                        assert(decreases_to!(es@[i as int] => es@[i as int].1));
                        assert(decreases_to!(*self => es@[i as int].1));
                    }
                    let key = es[i].0.clone();
                    let val = es[i].1.deep_clone();
                    out.push((key, val));
                    i += 1;
                }
                proof {
                    lemma_entries_of(out, 0);
                    assert forall|k: int| 0 <= k < out@.len() implies entries_of(out, 0)[k]
                        == entries_of(*es, 0)[k] by {
                        assert(entries_of(out, 0)[k - 0] == (out@[k].0@, node_of(out@[k].1)));
                        assert(entries_of(*es, 0)[k - 0] == (es@[k].0@, node_of(es@[k].1)));
                    }
                    assert(entries_of(out, 0) =~= entries_of(*es, 0));
                }
                Value::Object(out)
            },
        }
    }
}

pub proof fn lemma_nodes_of(vs: Vec<Value>, i: int)
    requires
        0 <= i <= vs@.len(),
    ensures
        nodes_of(vs, i).len() == vs@.len() - i,
        forall|k: int| i <= k < vs@.len() ==> nodes_of(vs, i)[k - i] == node_of(vs@[k]),
    decreases vs@.len() - i,
{
    if i < vs@.len() {
        lemma_nodes_of(vs, i + 1);
    }
}

pub proof fn lemma_entries_of(es: Vec<(String, Value)>, i: int)
    requires
        0 <= i <= es@.len(),
    ensures
        entries_of(es, i).len() == es@.len() - i,
        forall|k: int| i <= k < es@.len() ==> entries_of(es, i)[k - i] == (
        es@[k].0@,
        node_of(es@[k].1),
        ),
    decreases es@.len() - i,
{
    if i < es@.len() {
        lemma_entries_of(es, i + 1);
    }
}

} // verus!
