//! Laws the normalization passes obey, stated over the mathematical tree and
//! proved once and for all: the equivalence relations behave as equivalences,
//! merging an object with itself is the identity, a merge keeps the left
//! operand's schema, deduplication keeps exactly the first occurrences, and
//! the pruning passes are idempotent.
use vstd::prelude::*;
use crate::value::{Node, wf_node};
use crate::equiv::{eq_exact, eq_folded, eq_shape, has_exact_entry};
use crate::merge::{merge_field, merge_entries, mergeable, merge_objects_node, contains_exact, insert_rep, cluster_upto, merge_node, merge_entry_vals};
use crate::dedup::{first_occurrence, dedup_list_upto, dedup_list, dedup_node, dedup_each, dedup_entries};
use crate::prune::{removable, prune_node, prune_elems, prune_entries};
use crate::extend::{obj_insert, extend_entries, extend_node, lemma_obj_insert_found, lemma_obj_insert_absent};

verus! {

/// Exact equivalence is reflexive.
pub proof fn lemma_eq_exact_refl(n: Node)
    ensures
        eq_exact(n, n),
    decreases n,
{
    match n {
        Node::Arr(s) => {
            assert forall|i: int| 0 <= i < s.len() implies eq_exact(#[trigger] s[i], s[i]) by {
                lemma_eq_exact_refl(s[i]);
            }
        },
        Node::Obj(es) => {
            assert forall|i: int| 0 <= i < es.len() implies has_exact_entry(
                es,
                #[trigger] es[i],
            ) by {
                lemma_eq_exact_refl(es[i].1);
                assert(0 <= i < es.len() && es[i].0 == es[i].0 && eq_exact(es[i].1, es[i].1));
            }
        },
        _ => {},
    }
}

/// Case-folded equivalence is reflexive.
pub proof fn lemma_eq_folded_refl(n: Node)
    ensures
        eq_folded(n, n),
    decreases n,
{
    match n {
        Node::Arr(s) => {
            assert forall|i: int| 0 <= i < s.len() implies eq_folded(#[trigger] s[i], s[i]) by {
                lemma_eq_folded_refl(s[i]);
            }
        },
        Node::Obj(es) => {
            assert forall|i: int| 0 <= i < es.len() implies (#[trigger] es[i]).0 == es[i].0
                && eq_folded(es[i].1, es[i].1) by {
                lemma_eq_folded_refl(es[i].1);
            }
        },
        _ => {},
    }
}

/// Case-folded equivalence is symmetric.
pub proof fn lemma_eq_folded_sym(a: Node, b: Node)
    ensures
        eq_folded(a, b) == eq_folded(b, a),
    decreases a,
{
    match (a, b) {
        (Node::Arr(x), Node::Arr(y)) => {
            if x.len() == y.len() {
                assert forall|i: int| 0 <= i < x.len() implies eq_folded(#[trigger] x[i], y[i])
                    == eq_folded(y[i], x[i]) by {
                    lemma_eq_folded_sym(x[i], y[i]);
                }
            }
        },
        (Node::Obj(x), Node::Obj(y)) => {
            if x.len() == y.len() {
                assert forall|i: int| 0 <= i < x.len() implies eq_folded((#[trigger] x[i]).1, y[i].1)
                    == eq_folded(y[i].1, x[i].1) by {
                    lemma_eq_folded_sym(x[i].1, y[i].1);
                }
            }
        },
        _ => {},
    }
}

/// Case-folded equivalence is transitive.
pub proof fn lemma_eq_folded_trans(a: Node, b: Node, c: Node)
    requires
        eq_folded(a, b),
        eq_folded(b, c),
    ensures
        eq_folded(a, c),
    decreases a,
{
    match (a, b, c) {
        (Node::Arr(x), Node::Arr(y), Node::Arr(z)) => {
            assert forall|i: int| 0 <= i < x.len() implies eq_folded(#[trigger] x[i], z[i]) by {
                assert(eq_folded(x[i], y[i]));
                assert(eq_folded(y[i], z[i]));
                lemma_eq_folded_trans(x[i], y[i], z[i]);
            }
        },
        (Node::Obj(x), Node::Obj(y), Node::Obj(z)) => {
            assert forall|i: int| 0 <= i < x.len() implies (#[trigger] x[i]).0 == z[i].0
                && eq_folded(x[i].1, z[i].1) by {
                assert(x[i].0 == y[i].0 && eq_folded(x[i].1, y[i].1));
                assert(y[i].0 == z[i].0 && eq_folded(y[i].1, z[i].1));
                lemma_eq_folded_trans(x[i].1, y[i].1, z[i].1);
            }
        },
        _ => {},
    }
}

/// Merging a value with itself leaves every field as it was.
pub proof fn lemma_merge_field_self(x: Node)
    ensures
        merge_field(x, x) == x,
{
    lemma_eq_exact_refl(x);
}

/// The first `i` entries of an object merged with themselves are unchanged.
proof fn lemma_merge_entries_self(a: Seq<(Seq<char>, Node)>, i: int)
    requires
        0 <= i <= a.len(),
    ensures
        merge_entries(a, a, i) == a.take(i),
    decreases i,
{
    if i > 0 {
        lemma_merge_entries_self(a, i - 1);
        lemma_merge_field_self(a[i - 1].1);
        assert(merge_entries(a, a, i) =~= a.take(i));
    } else {
        assert(merge_entries(a, a, i) =~= a.take(i));
    }
}

/// Merging an object with itself always succeeds and gives back a value
/// Exact-equivalent (indeed equal) to the object.
pub proof fn lemma_merge_objects_self(n: Node)
    requires
        n is Obj,
    ensures
        mergeable(n, n),
        merge_objects_node(n, n) == n,
        eq_exact(merge_objects_node(n, n), n),
{
    let es = n->Obj_0;
    lemma_merge_entries_self(es, es.len() as int);
    assert(es.take(es.len() as int) =~= es);
    lemma_eq_exact_refl(n);
}

/// A merge keeps the left operand's schema: the result is an object holding
/// exactly the left operand's keys, in its order; keys exclusive to the right
/// operand do not appear.
pub proof fn lemma_merge_keeps_left_keys(p: Node, v: Node)
    requires
        mergeable(p, v),
    ensures
        merge_objects_node(p, v) is Obj,
        merge_objects_node(p, v)->Obj_0.len() == p->Obj_0.len(),
        forall|k: int|
            0 <= k < p->Obj_0.len() ==> (#[trigger] merge_objects_node(p, v)->Obj_0[k]).0
                == p->Obj_0[k].0,
{
    lemma_merge_entries_keys(p->Obj_0, v->Obj_0, p->Obj_0.len() as int);
}

/// The merged entry list takes its length and keys from the left operand.
proof fn lemma_merge_entries_keys(a: Seq<(Seq<char>, Node)>, b: Seq<(Seq<char>, Node)>, i: int)
    requires
        0 <= i <= a.len(),
        i <= b.len(),
    ensures
        merge_entries(a, b, i).len() == i,
        forall|k: int|
            0 <= k < i ==> #[trigger] merge_entries(a, b, i)[k] == (
            a[k].0,
            merge_field(a[k].1, b[k].1),
            ),
    decreases i,
{
    if i > 0 {
        lemma_merge_entries_keys(a, b, i - 1);
        assert forall|k: int| 0 <= k < i implies #[trigger] merge_entries(a, b, i)[k] == (
            a[k].0,
            merge_field(a[k].1, b[k].1),
        ) by {
            if k < i - 1 {
                assert(merge_entries(a, b, i)[k] == merge_entries(a, b, i - 1)[k]);
            }
        }
    }
}

/// The positions, in increasing order, of the first occurrences among the
/// first `i` elements of `s`.
pub open spec fn kept_indices(s: Seq<Node>, i: int) -> Seq<int>
    decreases i,
{
    if i <= 0 || i > s.len() {
        Seq::empty()
    } else if first_occurrence(s, i - 1) {
        kept_indices(s, i - 1) + seq![i - 1]
    } else {
        kept_indices(s, i - 1)
    }
}

/// Deduplication keeps exactly the elements at the first-occurrence
/// positions, in their original order.
pub proof fn lemma_dedup_list_upto_props(s: Seq<Node>, i: int)
    requires
        0 <= i <= s.len(),
    ensures
        dedup_list_upto(s, i).len() == kept_indices(s, i).len(),
        forall|m: int|
            0 <= m < kept_indices(s, i).len() ==> 0 <= #[trigger] kept_indices(s, i)[m] < i
                && dedup_list_upto(s, i)[m] == s[kept_indices(s, i)[m]] && first_occurrence(
                s,
                kept_indices(s, i)[m],
            ),
        forall|m1: int, m2: int|
            #![trigger kept_indices(s, i)[m1], kept_indices(s, i)[m2]]
            0 <= m1 < m2 < kept_indices(s, i).len() ==> kept_indices(s, i)[m1] < kept_indices(
                s,
                i,
            )[m2],
        forall|k: int|
            0 <= k < i && first_occurrence(s, k) ==> exists|m: int|
                0 <= m < kept_indices(s, i).len() && #[trigger] kept_indices(s, i)[m] == k,
    decreases i,
{
    if i > 0 {
        lemma_dedup_list_upto_props(s, i - 1);
        let ki0 = kept_indices(s, i - 1);
        let ki = kept_indices(s, i);
        if first_occurrence(s, i - 1) {
            assert forall|k: int| 0 <= k < i && first_occurrence(s, k) implies exists|m: int|
                0 <= m < ki.len() && #[trigger] ki[m] == k by {
                if k < i - 1 {
                    let m = choose|m: int| 0 <= m < ki0.len() && ki0[m] == k;
                    assert(ki[m] == k);
                } else {
                    assert(ki[ki.len() - 1] == k);
                }
            }
        } else {
            assert forall|k: int| 0 <= k < i && first_occurrence(s, k) implies exists|m: int|
                0 <= m < ki.len() && #[trigger] ki[m] == k by {
                let m = choose|m: int| 0 <= m < ki0.len() && ki0[m] == k;
                assert(ki[m] == k);
            }
        }
    }
}

/// After deduplication no two surviving elements are case-folded equivalent,
/// each survivor stands at a first-occurrence position of the original
/// sequence, survivors keep their original relative order, and every original
/// element is case-folded equivalent to some survivor.
pub proof fn lemma_dedup_list_props(s: Seq<Node>)
    ensures
        dedup_list(s).len() == kept_indices(s, s.len() as int).len() <= s.len(),
        forall|m: int|
            0 <= m < dedup_list(s).len() ==> 0 <= #[trigger] kept_indices(s, s.len() as int)[m]
                < s.len() && dedup_list(s)[m] == s[kept_indices(s, s.len() as int)[m]]
                && first_occurrence(s, kept_indices(s, s.len() as int)[m]),
        forall|m1: int, m2: int|
            #![trigger kept_indices(s, s.len() as int)[m1], kept_indices(s, s.len() as int)[m2]]
            0 <= m1 < m2 < dedup_list(s).len() ==> kept_indices(s, s.len() as int)[m1]
                < kept_indices(s, s.len() as int)[m2],
        forall|m1: int, m2: int|
            #![trigger dedup_list(s)[m1], dedup_list(s)[m2]]
            0 <= m1 < m2 < dedup_list(s).len() ==> !eq_folded(dedup_list(s)[m1], dedup_list(s)[m2])
                && !eq_folded(dedup_list(s)[m2], dedup_list(s)[m1]),
        forall|k: int|
            #![trigger s[k]]
            0 <= k < s.len() ==> exists|m: int|
                0 <= m < dedup_list(s).len() && eq_folded(#[trigger] dedup_list(s)[m], s[k]),
{
    let n = s.len() as int;
    let d = dedup_list(s);
    let ki = kept_indices(s, n);
    lemma_dedup_list_upto_props(s, n);
    lemma_kept_indices_len(s, n);
    assert forall|m1: int, m2: int| 0 <= m1 < m2 < d.len() implies !eq_folded(
        #[trigger] d[m1],
        #[trigger] d[m2],
    ) && !eq_folded(d[m2], d[m1]) by {
        assert(ki[m1] < ki[m2]);
        assert(first_occurrence(s, ki[m2]));
        assert(!eq_folded(s[ki[m1]], s[ki[m2]]));
        lemma_eq_folded_sym(d[m1], d[m2]);
    }
    assert forall|k: int| #![trigger s[k]] 0 <= k < s.len() implies exists|m: int|
        0 <= m < d.len() && eq_folded(#[trigger] d[m], s[k]) by {
        lemma_dedup_covers(s, k);
    }
}

/// The kept positions are no more numerous than the positions themselves.
proof fn lemma_kept_indices_len(s: Seq<Node>, i: int)
    requires
        0 <= i <= s.len(),
    ensures
        kept_indices(s, i).len() <= i,
    decreases i,
{
    if i > 0 {
        lemma_kept_indices_len(s, i - 1);
    }
}

/// Every element is case-folded equivalent to some survivor of
/// deduplication.
proof fn lemma_dedup_covers(s: Seq<Node>, k: int)
    requires
        0 <= k < s.len(),
    ensures
        exists|m: int|
            0 <= m < dedup_list(s).len() && eq_folded(#[trigger] dedup_list(s)[m], s[k]),
    decreases k,
{
    let n = s.len() as int;
    let d = dedup_list(s);
    let ki = kept_indices(s, n);
    lemma_dedup_list_upto_props(s, n);
    if first_occurrence(s, k) {
        let m = choose|m: int| 0 <= m < ki.len() && ki[m] == k;
        lemma_eq_folded_refl(s[k]);
        assert(0 <= m < d.len() && eq_folded(d[m], s[k]));
    } else {
        let j = choose|j: int| 0 <= j < k && eq_folded(#[trigger] s[j], s[k]);
        lemma_dedup_covers(s, j);
        let m = choose|m: int| 0 <= m < d.len() && eq_folded(#[trigger] d[m], s[j]);
        lemma_eq_folded_trans(d[m], s[j], s[k]);
        assert(0 <= m < d.len() && eq_folded(d[m], s[k]));
    }
}

/// The per-element deduplication pass keeps length and maps each element to
/// its deduplicated form.
proof fn lemma_dedup_each_props(s: Seq<Node>, i: int)
    requires
        0 <= i <= s.len(),
    ensures
        dedup_each(s, i).len() == i,
        forall|k: int| 0 <= k < i ==> #[trigger] dedup_each(s, i)[k] == dedup_node(s[k]),
    decreases i,
{
    if i > 0 {
        lemma_dedup_each_props(s, i - 1);
    }
}

/// The per-entry deduplication pass keeps keys and deduplicates values.
proof fn lemma_dedup_entries_props(es: Seq<(Seq<char>, Node)>, i: int)
    requires
        0 <= i <= es.len(),
    ensures
        dedup_entries(es, i).len() == i,
        forall|k: int|
            0 <= k < i ==> #[trigger] dedup_entries(es, i)[k] == (es[k].0, dedup_node(es[k].1)),
    decreases i,
{
    if i > 0 {
        lemma_dedup_entries_props(es, i - 1);
    }
}

/// A sequence whose elements are pairwise non-equivalent is a fixed point of
/// list deduplication.
proof fn lemma_dedup_list_of_distinct(s: Seq<Node>, i: int)
    requires
        0 <= i <= s.len(),
        forall|j: int, k: int|
            #![trigger s[j], s[k]]
            0 <= j < k < s.len() ==> !eq_folded(s[j], s[k]),
    ensures
        dedup_list_upto(s, i) == s.take(i),
    decreases i,
{
    if i > 0 {
        lemma_dedup_list_of_distinct(s, i - 1);
        assert(first_occurrence(s, i - 1));
        assert(dedup_list_upto(s, i) =~= s.take(i));
    } else {
        assert(dedup_list_upto(s, i) =~= s.take(i));
    }
}

/// A sequence of elements each already deduplicated is a fixed point of the
/// per-element pass.
proof fn lemma_dedup_each_fixpoint(s: Seq<Node>, i: int)
    requires
        0 <= i <= s.len(),
        forall|k: int| 0 <= k < s.len() ==> dedup_node(#[trigger] s[k]) == s[k],
    ensures
        dedup_each(s, i) == s.take(i),
    decreases i,
{
    if i > 0 {
        lemma_dedup_each_fixpoint(s, i - 1);
        assert(dedup_each(s, i) =~= s.take(i));
    } else {
        assert(dedup_each(s, i) =~= s.take(i));
    }
}

/// Deduplication is idempotent: running it on an already deduplicated tree
/// changes nothing.
pub proof fn lemma_dedup_idempotent(n: Node)
    ensures
        dedup_node(dedup_node(n)) == dedup_node(n),
    decreases n,
{
    match n {
        Node::Arr(s) => {
            let sl = s.len() as int;
            let e = dedup_each(s, sl);
            lemma_dedup_each_props(s, sl);
            let d = dedup_list(e);
            lemma_dedup_list_props(e);
            let ki = kept_indices(e, e.len() as int);
            assert forall|m: int| 0 <= m < d.len() implies dedup_node(#[trigger] d[m])
                == d[m] by {
                let k = ki[m];
                assert(d[m] == e[k]);
                assert(e[k] == dedup_node(s[k]));
                lemma_dedup_idempotent(s[k]);
            }
            lemma_dedup_each_fixpoint(d, d.len() as int);
            assert(d.take(d.len() as int) =~= d);
            lemma_dedup_list_of_distinct(d, d.len() as int);
            assert(d.take(d.len() as int) =~= d);
            assert(dedup_node(dedup_node(n)) == dedup_node(n));
        },
        Node::Obj(es) => {
            let el = es.len() as int;
            let e2 = dedup_entries(es, el);
            lemma_dedup_entries_props(es, el);
            lemma_dedup_entries_props(e2, el);
            assert forall|k: int| 0 <= k < el implies #[trigger] dedup_entries(e2, el)[k]
                == e2[k] by {
                lemma_dedup_idempotent(es[k].1);
            }
            assert(dedup_entries(e2, el) =~= e2);
        },
        _ => {},
    }
}

/// The positions, in increasing order, of the elements among the first `i`
/// of `s` that pruning keeps.
pub open spec fn pruned_indices(s: Seq<Node>, with_empties: bool, i: int) -> Seq<int>
    decreases i,
{
    if i <= 0 || i > s.len() {
        Seq::empty()
    } else if removable(s[i - 1], with_empties) {
        pruned_indices(s, with_empties, i - 1)
    } else {
        pruned_indices(s, with_empties, i - 1) + seq![i - 1]
    }
}

/// Pruning a list keeps, in order, exactly the pruned forms of its
/// non-removable elements; it keeps nothing exactly when every element is
/// removable.
proof fn lemma_prune_elems_props(s: Seq<Node>, we: bool, i: int)
    requires
        0 <= i <= s.len(),
    ensures
        prune_elems(s, we, i).len() == pruned_indices(s, we, i).len(),
        forall|m: int|
            0 <= m < pruned_indices(s, we, i).len() ==> 0 <= #[trigger] pruned_indices(
                s,
                we,
                i,
            )[m] < i && !removable(s[pruned_indices(s, we, i)[m]], we) && prune_elems(s, we, i)[m]
                == prune_node(s[pruned_indices(s, we, i)[m]], we),
        forall|m1: int, m2: int|
            #![trigger pruned_indices(s, we, i)[m1], pruned_indices(s, we, i)[m2]]
            0 <= m1 < m2 < pruned_indices(s, we, i).len() ==> pruned_indices(s, we, i)[m1]
                < pruned_indices(s, we, i)[m2],
        (prune_elems(s, we, i).len() == 0) == (forall|k: int|
            0 <= k < i ==> removable(#[trigger] s[k], we)),
    decreases i,
{
    if i > 0 {
        lemma_prune_elems_props(s, we, i - 1);
    }
}

/// The entry version of the above: pruning keeps exactly the entries with
/// non-removable values, keys unchanged and values pruned.
proof fn lemma_prune_entries_props(es: Seq<(Seq<char>, Node)>, we: bool, i: int)
    requires
        0 <= i <= es.len(),
    ensures
        prune_entries(es, we, i).len() == pruned_entry_indices(es, we, i).len(),
        forall|m: int|
            0 <= m < pruned_entry_indices(es, we, i).len() ==> 0 <= #[trigger] pruned_entry_indices(
                es,
                we,
                i,
            )[m] < i && !removable(es[pruned_entry_indices(es, we, i)[m]].1, we) && prune_entries(
                es,
                we,
                i,
            )[m] == (
                es[pruned_entry_indices(es, we, i)[m]].0,
                prune_node(es[pruned_entry_indices(es, we, i)[m]].1, we),
            ),
        forall|m1: int, m2: int|
            #![trigger pruned_entry_indices(es, we, i)[m1], pruned_entry_indices(es, we, i)[m2]]
            0 <= m1 < m2 < pruned_entry_indices(es, we, i).len() ==> pruned_entry_indices(
                es,
                we,
                i,
            )[m1] < pruned_entry_indices(es, we, i)[m2],
        (prune_entries(es, we, i).len() == 0) == (forall|k: int|
            0 <= k < i ==> removable((#[trigger] es[k]).1, we)),
    decreases i,
{
    if i > 0 {
        lemma_prune_entries_props(es, we, i - 1);
    }
}

/// The positions, in increasing order, of the entries among the first `i` of
/// `es` whose values pruning keeps.
pub open spec fn pruned_entry_indices(
    es: Seq<(Seq<char>, Node)>,
    with_empties: bool,
    i: int,
) -> Seq<int>
    decreases i,
{
    if i <= 0 || i > es.len() {
        Seq::empty()
    } else if removable(es[i - 1].1, with_empties) {
        pruned_entry_indices(es, with_empties, i - 1)
    } else {
        pruned_entry_indices(es, with_empties, i - 1) + seq![i - 1]
    }
}

/// A list of elements none of which is removable, each already pruned, is a
/// fixed point of list pruning.
proof fn lemma_prune_elems_fixpoint(s: Seq<Node>, we: bool, i: int)
    requires
        0 <= i <= s.len(),
        forall|k: int|
            0 <= k < s.len() ==> !removable(#[trigger] s[k], we) && prune_node(s[k], we) == s[k],
    ensures
        prune_elems(s, we, i) == s.take(i),
    decreases i,
{
    if i > 0 {
        lemma_prune_elems_fixpoint(s, we, i - 1);
        assert(prune_elems(s, we, i) =~= s.take(i));
    } else {
        assert(prune_elems(s, we, i) =~= s.take(i));
    }
}

/// The entry version of the above.
proof fn lemma_prune_entries_fixpoint(es: Seq<(Seq<char>, Node)>, we: bool, i: int)
    requires
        0 <= i <= es.len(),
        forall|k: int|
            0 <= k < es.len() ==> !removable((#[trigger] es[k]).1, we) && prune_node(es[k].1, we)
                == es[k].1,
    ensures
        prune_entries(es, we, i) == es.take(i),
    decreases i,
{
    if i > 0 {
        lemma_prune_entries_fixpoint(es, we, i - 1);
        assert(prune_entries(es, we, i) =~= es.take(i));
    } else {
        assert(prune_entries(es, we, i) =~= es.take(i));
    }
}

/// Pruning is idempotent, and pruning does not change whether a node is
/// removable: a pruned tree prunes to itself.
pub proof fn lemma_prune_idempotent(n: Node, we: bool)
    ensures
        prune_node(prune_node(n, we), we) == prune_node(n, we),
        removable(prune_node(n, we), we) == removable(n, we),
    decreases n,
{
    match n {
        Node::Arr(s) => {
            let sl = s.len() as int;
            let p = prune_elems(s, we, sl);
            let pi = pruned_indices(s, we, sl);
            lemma_prune_elems_props(s, we, sl);
            assert forall|m: int| 0 <= m < p.len() implies !removable(#[trigger] p[m], we)
                && prune_node(p[m], we) == p[m] by {
                let k = pi[m];
                lemma_prune_idempotent(s[k], we);
            }
            lemma_prune_elems_fixpoint(p, we, p.len() as int);
            assert(p.take(p.len() as int) =~= p);
            assert(prune_node(prune_node(n, we), we) == prune_node(n, we));
            if p.len() == 0 {
                assert(removable(prune_node(n, we), we) == we);
                assert(removable(n, we) == we);
            } else {
                assert(!removable(p[0], we));
                assert(!removable(prune_node(n, we), we));
                let k0 = pi[0];
                assert(!removable(s[k0], we));
                assert(!removable(n, we));
            }
        },
        Node::Obj(es) => {
            let el = es.len() as int;
            let p = prune_entries(es, we, el);
            let pi = pruned_entry_indices(es, we, el);
            lemma_prune_entries_props(es, we, el);
            assert forall|m: int| 0 <= m < p.len() implies !removable((#[trigger] p[m]).1, we)
                && prune_node(p[m].1, we) == p[m].1 by {
                let k = pi[m];
                lemma_prune_idempotent(es[k].1, we);
            }
            lemma_prune_entries_fixpoint(p, we, p.len() as int);
            assert(p.take(p.len() as int) =~= p);
            assert(prune_node(prune_node(n, we), we) == prune_node(n, we));
            if p.len() == 0 {
                assert(removable(prune_node(n, we), we) == we);
                assert(removable(n, we) == we);
            } else {
                assert(!removable(p[0].1, we));
                assert(!removable(prune_node(n, we), we));
                let k0 = pi[0];
                assert(!removable(es[k0].1, we));
                assert(!removable(n, we));
            }
        },
        _ => {},
    }
}


/// Whether a tree holds a null anywhere.
pub open spec fn has_null(n: Node) -> bool
    decreases n,
{
    match n {
        Node::Null => true,
        Node::Bool(_) => false,
        Node::Int(_) => false,
        Node::Text(_) => false,
        Node::Arr(s) => exists|i: int| 0 <= i < s.len() && has_null(#[trigger] s[i]),
        Node::Obj(es) => exists|i: int| 0 <= i < es.len() && has_null((#[trigger] es[i]).1),
    }
}

/// Under null pruning alone, the removable nodes are exactly the nulls.
pub proof fn lemma_removable_without_empties(n: Node)
    ensures
        removable(n, false) == (n is Null),
{
}

/// Null pruning never touches a tree that bears no null: in particular it
/// never removes a non-null-bearing field.
pub proof fn lemma_prune_nulls_identity(n: Node)
    requires
        !has_null(n),
    ensures
        prune_node(n, false) == n,
        !removable(n, false),
    decreases n,
{
    match n {
        Node::Arr(s) => {
            assert forall|k: int| 0 <= k < s.len() implies !removable(#[trigger] s[k], false)
                && prune_node(s[k], false) == s[k] by {
                assert(!has_null(s[k]));
                lemma_prune_nulls_identity(s[k]);
            }
            lemma_prune_elems_fixpoint(s, false, s.len() as int);
            assert(s.take(s.len() as int) =~= s);
        },
        Node::Obj(es) => {
            assert forall|k: int| 0 <= k < es.len() implies !removable(
                (#[trigger] es[k]).1,
                false,
            ) && prune_node(es[k].1, false) == es[k].1 by {
                assert(!has_null(es[k].1));
                lemma_prune_nulls_identity(es[k].1);
            }
            lemma_prune_entries_fixpoint(es, false, es.len() as int);
            assert(es.take(es.len() as int) =~= es);
        },
        _ => {},
    }
}

/// The number of nodes in a tree.
pub open spec fn size_node(n: Node) -> nat
    decreases n, 0nat,
{
    match n {
        Node::Arr(s) => 1 + size_elems(s, s.len() as int),
        Node::Obj(es) => 1 + size_entries(es, es.len() as int),
        _ => 1,
    }
}

/// The number of nodes in the first `i` elements of `s`.
pub open spec fn size_elems(s: Seq<Node>, i: int) -> nat
    decreases s, i, 1nat,
{
    if i <= 0 || i > s.len() {
        0
    } else {
        size_elems(s, i - 1) + size_node(s[i - 1])
    }
}

/// The number of nodes in the values of the first `i` entries of `es`, one
/// more per entry.
pub open spec fn size_entries(es: Seq<(Seq<char>, Node)>, i: int) -> nat
    decreases es, i, 1nat,
{
    if i <= 0 || i > es.len() {
        0
    } else {
        size_entries(es, i - 1) + 1 + size_node(es[i - 1].1)
    }
}

/// The size of a prefix depends only on the elements in it.
proof fn lemma_size_elems_prefix(a: Seq<Node>, b: Seq<Node>, i: int)
    requires
        0 <= i <= a.len(),
        i <= b.len(),
        forall|k: int| 0 <= k < i ==> a[k] == #[trigger] b[k],
    ensures
        size_elems(a, i) == size_elems(b, i),
    decreases i,
{
    if i > 0 {
        lemma_size_elems_prefix(a, b, i - 1);
    }
}

/// The entry version of the above.
proof fn lemma_size_entries_prefix(a: Seq<(Seq<char>, Node)>, b: Seq<(Seq<char>, Node)>, i: int)
    requires
        0 <= i <= a.len(),
        i <= b.len(),
        forall|k: int| 0 <= k < i ==> a[k] == #[trigger] b[k],
    ensures
        size_entries(a, i) == size_entries(b, i),
    decreases i,
{
    if i > 0 {
        lemma_size_entries_prefix(a, b, i - 1);
    }
}

/// Pruning with empties removed leaves a tree no larger than pruning nulls
/// alone: the empty-removing pass removes at least as much.
pub proof fn lemma_prune_empties_removes_more(n: Node)
    ensures
        size_node(prune_node(n, true)) <= size_node(prune_node(n, false)),
    decreases n, 0nat,
{
    match n {
        Node::Arr(s) => {
            lemma_prune_size_elems(s, s.len() as int);
        },
        Node::Obj(es) => {
            lemma_prune_size_entries(es, es.len() as int);
        },
        _ => {},
    }
}

/// The list form of the size comparison between the two pruning modes.
proof fn lemma_prune_size_elems(s: Seq<Node>, i: int)
    requires
        0 <= i <= s.len(),
    ensures
        size_elems(prune_elems(s, true, i), prune_elems(s, true, i).len() as int) <= size_elems(
            prune_elems(s, false, i),
            prune_elems(s, false, i).len() as int,
        ),
    decreases s, i, 1nat,
{
    if i > 0 {
        lemma_prune_size_elems(s, i - 1);
        let a = prune_elems(s, true, i - 1);
        let b = prune_elems(s, false, i - 1);
        let a2 = prune_elems(s, true, i);
        let b2 = prune_elems(s, false, i);
        if !removable(s[i - 1], false) {
            assert(b2 == b + seq![prune_node(s[i - 1], false)]);
            lemma_size_elems_prefix(b, b2, b.len() as int);
            assert(size_elems(b2, b2.len() as int) == size_elems(b, b.len() as int) + size_node(
                prune_node(s[i - 1], false),
            ));
            if !removable(s[i - 1], true) {
                assert(a2 == a + seq![prune_node(s[i - 1], true)]);
                lemma_size_elems_prefix(a, a2, a.len() as int);
                lemma_prune_empties_removes_more(s[i - 1]);
            }
        }
    }
}

/// The entry form of the size comparison between the two pruning modes.
proof fn lemma_prune_size_entries(es: Seq<(Seq<char>, Node)>, i: int)
    requires
        0 <= i <= es.len(),
    ensures
        size_entries(prune_entries(es, true, i), prune_entries(es, true, i).len() as int)
            <= size_entries(
            prune_entries(es, false, i),
            prune_entries(es, false, i).len() as int,
        ),
    decreases es, i, 1nat,
{
    if i > 0 {
        lemma_prune_size_entries(es, i - 1);
        let a = prune_entries(es, true, i - 1);
        let b = prune_entries(es, false, i - 1);
        let a2 = prune_entries(es, true, i);
        let b2 = prune_entries(es, false, i);
        if !removable(es[i - 1].1, false) {
            assert(b2 == b + seq![(es[i - 1].0, prune_node(es[i - 1].1, false))]);
            lemma_size_entries_prefix(b, b2, b.len() as int);
            assert(size_entries(b2, b2.len() as int) == size_entries(b, b.len() as int) + 1
                + size_node(prune_node(es[i - 1].1, false)));
            if !removable(es[i - 1].1, true) {
                assert(a2 == a + seq![(es[i - 1].0, prune_node(es[i - 1].1, true))]);
                lemma_size_entries_prefix(a, a2, a.len() as int);
                lemma_prune_empties_removes_more(es[i - 1].1);
            }
        }
    }
}

/// Pruning preserves well-formedness: kept entries keep their keys, in their
/// original relative order, so uniqueness survives; kept values are pruned
/// recursively.
pub proof fn lemma_prune_preserves_wf(n: Node, we: bool)
    requires
        wf_node(n),
    ensures
        wf_node(prune_node(n, we)),
    decreases n,
{
    match n {
        Node::Arr(s) => {
            let sl = s.len() as int;
            let p = prune_elems(s, we, sl);
            let pi = pruned_indices(s, we, sl);
            lemma_prune_elems_props(s, we, sl);
            assert forall|m: int| 0 <= m < p.len() implies wf_node(#[trigger] p[m]) by {
                let k = pi[m];
                assert(wf_node(s[k]));
                lemma_prune_preserves_wf(s[k], we);
            }
        },
        Node::Obj(es) => {
            let el = es.len() as int;
            let p = prune_entries(es, we, el);
            let pi = pruned_entry_indices(es, we, el);
            lemma_prune_entries_props(es, we, el);
            assert forall|m1: int, m2: int|
                #![trigger p[m1], p[m2]]
                0 <= m1 < m2 < p.len() implies p[m1].0 != p[m2].0 by {
                assert(pi[m1] < pi[m2]);
                assert(es[pi[m1]].0 != es[pi[m2]].0);
            }
            assert forall|m: int| 0 <= m < p.len() implies wf_node((#[trigger] p[m]).1) by {
                let k = pi[m];
                assert(wf_node(es[k].1));
                lemma_prune_preserves_wf(es[k].1, we);
            }
        },
        _ => {},
    }
}

/// Deduplication preserves well-formedness: object keys are untouched, and
/// surviving array elements are deduplicated forms of original elements.
pub proof fn lemma_dedup_preserves_wf(n: Node)
    requires
        wf_node(n),
    ensures
        wf_node(dedup_node(n)),
    decreases n,
{
    match n {
        Node::Arr(s) => {
            let sl = s.len() as int;
            let e = dedup_each(s, sl);
            lemma_dedup_each_props(s, sl);
            let d = dedup_list(e);
            lemma_dedup_list_props(e);
            let ki = kept_indices(e, e.len() as int);
            assert forall|m: int| 0 <= m < d.len() implies wf_node(#[trigger] d[m]) by {
                let k = ki[m];
                assert(d[m] == e[k]);
                assert(wf_node(s[k]));
                lemma_dedup_preserves_wf(s[k]);
            }
        },
        Node::Obj(es) => {
            let el = es.len() as int;
            let p = dedup_entries(es, el);
            lemma_dedup_entries_props(es, el);
            assert forall|m1: int, m2: int|
                #![trigger p[m1], p[m2]]
                0 <= m1 < m2 < p.len() implies p[m1].0 != p[m2].0 by {
                assert(es[m1].0 != es[m2].0);
            }
            assert forall|m: int| 0 <= m < p.len() implies wf_node((#[trigger] p[m]).1) by {
                assert(wf_node(es[m].1));
                lemma_dedup_preserves_wf(es[m].1);
            }
        },
        _ => {},
    }
}

/// A merged field of two well-formed values is well-formed.
proof fn lemma_merge_field_wf(pv: Node, vv: Node)
    requires
        wf_node(pv),
        wf_node(vv),
    ensures
        wf_node(merge_field(pv, vv)),
{
    match (pv, vv) {
        (Node::Arr(_), Node::Arr(_)) => {
            if !eq_exact(pv, vv) {
                let r = seq![pv, vv];
                assert forall|i: int| 0 <= i < r.len() implies wf_node(#[trigger] r[i]) by {}
            }
        },
        (Node::Arr(x), _) => {
            if !contains_exact(x, vv) {
                let r = x + seq![vv];
                assert forall|i: int| 0 <= i < r.len() implies wf_node(#[trigger] r[i]) by {
                    if i < x.len() {
                        assert(wf_node(x[i]));
                    }
                }
            }
        },
        _ => {
            if !eq_exact(pv, vv) {
                let r = seq![pv, vv];
                assert forall|i: int| 0 <= i < r.len() implies wf_node(#[trigger] r[i]) by {}
            }
        },
    }
}

/// Merging two well-formed objects of the same shape gives a well-formed
/// object.
pub proof fn lemma_merge_objects_wf(p: Node, v: Node)
    requires
        mergeable(p, v),
        wf_node(p),
        wf_node(v),
    ensures
        wf_node(merge_objects_node(p, v)),
{
    let a = p->Obj_0;
    let b = v->Obj_0;
    let r = merge_entries(a, b, a.len() as int);
    lemma_merge_entries_keys(a, b, a.len() as int);
    assert forall|m1: int, m2: int|
        #![trigger r[m1], r[m2]]
        0 <= m1 < m2 < r.len() implies r[m1].0 != r[m2].0 by {
        assert(a[m1].0 != a[m2].0);
    }
    assert forall|m: int| 0 <= m < r.len() implies wf_node((#[trigger] r[m]).1) by {
        assert(wf_node(a[m].1));
        assert(wf_node(b[m].1));
        lemma_merge_field_wf(a[m].1, b[m].1);
    }
}

/// One clustering step preserves well-formedness of every representative.
proof fn lemma_insert_rep_wf(reps: Seq<Node>, x: Node, j: int)
    requires
        forall|k: int| 0 <= k < reps.len() ==> wf_node(#[trigger] reps[k]),
        wf_node(x),
    ensures
        forall|k: int|
            0 <= k < insert_rep(reps, x, j).len() ==> wf_node(#[trigger] insert_rep(reps, x, j)[k]),
    decreases reps.len() - j,
{
    let r = insert_rep(reps, x, j);
    if j < 0 || j >= reps.len() {
        assert(r == reps.push(x));
        assert forall|k: int| 0 <= k < r.len() implies wf_node(#[trigger] r[k]) by {
            if k < reps.len() {
                assert(wf_node(reps[k]));
            } else {
                assert(r[k] == x);
            }
        }
    } else if eq_shape(reps[j], x) {
        if mergeable(reps[j], x) {
            lemma_merge_objects_wf(reps[j], x);
            assert(r == reps.update(j, merge_objects_node(reps[j], x)));
            assert forall|k: int| 0 <= k < r.len() implies wf_node(#[trigger] r[k]) by {
                if k != j {
                    assert(wf_node(reps[k]));
                } else {
                    assert(r[k] == merge_objects_node(reps[j], x));
                }
            }
        } else {
            assert(r == reps);
            assert forall|k: int| 0 <= k < r.len() implies wf_node(#[trigger] r[k]) by {
                assert(wf_node(reps[k]));
            }
        }
    } else {
        lemma_insert_rep_wf(reps, x, j + 1);
        assert(r == insert_rep(reps, x, j + 1));
    }
}

/// Clustering preserves well-formedness of every representative.
proof fn lemma_cluster_wf(s: Seq<Node>, i: int)
    requires
        0 <= i <= s.len(),
        forall|k: int| 0 <= k < s.len() ==> wf_node(#[trigger] s[k]),
    ensures
        forall|k: int|
            0 <= k < cluster_upto(s, i).len() ==> wf_node(#[trigger] cluster_upto(s, i)[k]),
    decreases i,
{
    if i > 0 {
        lemma_cluster_wf(s, i - 1);
        lemma_insert_rep_wf(cluster_upto(s, i - 1), s[i - 1], 0);
    }
}

/// The entries after the recursive merge pass keep their keys and merge their
/// values.
proof fn lemma_merge_entry_vals_props(es: Seq<(Seq<char>, Node)>, i: int)
    requires
        0 <= i <= es.len(),
    ensures
        merge_entry_vals(es, i).len() == i,
        forall|k: int|
            0 <= k < i ==> #[trigger] merge_entry_vals(es, i)[k] == (
            es[k].0,
            merge_node(es[k].1),
            ),
    decreases i,
{
    if i > 0 {
        lemma_merge_entry_vals_props(es, i - 1);
    }
}

/// The similarity merge pass preserves well-formedness.
pub proof fn lemma_merge_preserves_wf(n: Node)
    requires
        wf_node(n),
    ensures
        wf_node(merge_node(n)),
    decreases n,
{
    match n {
        Node::Arr(s) => {
            lemma_cluster_wf(s, s.len() as int);
        },
        Node::Obj(es) => {
            let el = es.len() as int;
            let p = merge_entry_vals(es, el);
            lemma_merge_entry_vals_props(es, el);
            assert forall|m1: int, m2: int|
                #![trigger p[m1], p[m2]]
                0 <= m1 < m2 < p.len() implies p[m1].0 != p[m2].0 by {
                assert(es[m1].0 != es[m2].0);
            }
            assert forall|m: int| 0 <= m < p.len() implies wf_node((#[trigger] p[m]).1) by {
                assert(wf_node(es[m].1));
                lemma_merge_preserves_wf(es[m].1);
            }
        },
        _ => {},
    }
}

/// Setting one key of a well-formed entry list keeps the keys unique and the
/// values well-formed.
proof fn lemma_obj_insert_wf(es: Seq<(Seq<char>, Node)>, key: Seq<char>, v: Node)
    requires
        forall|i: int, j: int| #![trigger es[i], es[j]] 0 <= i < j < es.len() ==> es[i].0 != es[j].0,
        forall|i: int| 0 <= i < es.len() ==> wf_node((#[trigger] es[i]).1),
        wf_node(v),
    ensures
        forall|i: int, j: int|
            #![trigger obj_insert(es, key, v)[i], obj_insert(es, key, v)[j]]
            0 <= i < j < obj_insert(es, key, v).len() ==> obj_insert(es, key, v)[i].0
                != obj_insert(es, key, v)[j].0,
        forall|i: int|
            0 <= i < obj_insert(es, key, v).len() ==> wf_node(
                (#[trigger] obj_insert(es, key, v)[i]).1,
            ),
{
    if exists|i: int| 0 <= i < es.len() && (#[trigger] es[i]).0 == key {
        let i = choose|i: int| 0 <= i < es.len() && (#[trigger] es[i]).0 == key;
        assert forall|k: int| 0 <= k < i implies (#[trigger] es[k]).0 != key by {
            assert(es[k].0 != es[i].0);
        }
        lemma_obj_insert_found(es, key, v, i);
    } else {
        assert forall|k: int| 0 <= k < es.len() implies (#[trigger] es[k]).0 != key by {}
        lemma_obj_insert_absent(es, key, v);
    }
}

/// Extending a well-formed tree with a well-formed one gives a well-formed
/// tree.
pub proof fn lemma_extend_preserves_wf(a: Node, b: Node)
    requires
        wf_node(a),
        wf_node(b),
    ensures
        wf_node(extend_node(a, b)),
{
    match (a, b) {
        (Node::Obj(es), Node::Obj(bs)) => {
            lemma_extend_entries_wf(es, bs, bs.len() as int);
        },
        (Node::Obj(es), Node::Arr(_)) => {
            lemma_obj_insert_wf(es, "items"@, b);
        },
        (Node::Arr(s), Node::Obj(_)) => {
            assert forall|i: int| 0 <= i < s.push(b).len() implies wf_node(
                #[trigger] s.push(b)[i],
            ) by {
                if i < s.len() {
                    assert(wf_node(s[i]));
                }
            }
        },
        (Node::Arr(s), Node::Arr(bs)) => {
            assert forall|i: int| 0 <= i < (s + bs).len() implies wf_node(
                #[trigger] (s + bs)[i],
            ) by {
                if i < s.len() {
                    assert(wf_node(s[i]));
                } else {
                    assert(wf_node(bs[i - s.len()]));
                }
            }
        },
        _ => {},
    }
}

/// Inserting the first `i` entries of a well-formed list into a well-formed
/// one keeps keys unique and values well-formed.
proof fn lemma_extend_entries_wf(es: Seq<(Seq<char>, Node)>, add: Seq<(Seq<char>, Node)>, i: int)
    requires
        0 <= i <= add.len(),
        forall|k: int, j: int| #![trigger es[k], es[j]] 0 <= k < j < es.len() ==> es[k].0 != es[j].0,
        forall|k: int| 0 <= k < es.len() ==> wf_node((#[trigger] es[k]).1),
        forall|k: int| 0 <= k < add.len() ==> wf_node((#[trigger] add[k]).1),
    ensures
        forall|k: int, j: int|
            #![trigger extend_entries(es, add, i)[k], extend_entries(es, add, i)[j]]
            0 <= k < j < extend_entries(es, add, i).len() ==> extend_entries(es, add, i)[k].0
                != extend_entries(es, add, i)[j].0,
        forall|k: int|
            0 <= k < extend_entries(es, add, i).len() ==> wf_node(
                (#[trigger] extend_entries(es, add, i)[k]).1,
            ),
    decreases i,
{
    if i > 0 {
        lemma_extend_entries_wf(es, add, i - 1);
        assert(wf_node(add[i - 1].1));
        lemma_obj_insert_wf(extend_entries(es, add, i - 1), add[i - 1].0, add[i - 1].1);
    }
}

} // verus!
