//! The in-place normalization interface over tree values.
use vstd::prelude::*;
use crate::value::{Value, Node, node_of};
use crate::prune::{prune_node, remove_nulls};
use crate::dedup::{dedup_node, dedup_value};
use crate::merge::{merge_node, merge_value};
use crate::extend::{extend_node, extend_value};

verus! {

/// In-place normalization passes over a tree value. Each pass owns the tree
/// for the duration of the call and may be invoked independently of the
/// others, in any order.
pub trait JsonUtils: Sized {
    /// The mathematical tree this value stands for.
    spec fn model(&self) -> Node;

    /// Removes null values throughout the tree: null object fields and null
    /// array elements disappear; empty containers stay.
    fn skip_null(&mut self)
        ensures
            final(self).model() == prune_node(old(self).model(), false),
    ;

    /// Removes null fields and, bottom-up, empty arrays and objects anywhere
    /// in the tree.
    fn skip_null_and_empty(&mut self)
        ensures
            final(self).model() == prune_node(old(self).model(), true),
    ;

    /// Deduplicates every array's elements under case-folded content
    /// equivalence, keeping first occurrences in order.
    fn dedup(&mut self)
        ensures
            final(self).model() == dedup_node(old(self).model()),
    ;

    /// Clusters every array's elements by shape and folds each cluster into a
    /// single merged representative.
    fn merge_similar(&mut self)
        ensures
            final(self).model() == merge_node(old(self).model()),
    ;

    /// Extends this value with another one: objects absorb an object's
    /// entries or file an array under the key `items`; arrays gain an object
    /// as an element or another array's elements.
    fn extend(&mut self, value: Value)
        ensures
            final(self).model() == extend_node(old(self).model(), value@),
    ;
}

impl JsonUtils for Value {
    open spec fn model(&self) -> Node {
        node_of(*self)
    }

    fn skip_null(&mut self) {
        let _ = remove_nulls(self, false);
    }

    fn skip_null_and_empty(&mut self) {
        let _ = remove_nulls(self, true);
    }

    fn dedup(&mut self) {
        *self = dedup_value(&*self);
    }

    fn merge_similar(&mut self) {
        *self = merge_value(&*self);
    }

    fn extend(&mut self, value: Value) {
        *self = extend_value(&*self, &value);
    }
}

} // verus!
