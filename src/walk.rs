use vstd::prelude::*;

use crate::annotation::MapAnnotation;
use crate::key::{same_key, MapKey};
use crate::leaf::Leaf;
use crate::map::NodeRef;

verus! {

/// What a walker sees of one child of the node it stands on.
pub enum Child<'a, K, V, A> {
    /// The child is a leaf.
    Leaf(&'a Leaf<K, V>),
    /// The child is an annotated subtree.
    Node(&'a NodeRef<K, V, A>),
    /// The slot is empty.
    Empty,
    /// There is no child at this offset.
    EndOfNode,
}

/// One child of a node, for writing.
pub enum ChildMut<'a, K, V, A> {
    /// The child is a leaf.
    Leaf(&'a mut Leaf<K, V>),
    /// The child is an annotated subtree.
    Node(&'a mut NodeRef<K, V, A>),
    /// The slot is empty.
    Empty,
    /// There is no child at this offset.
    EndOfNode,
}

/// A walker's decision at one node.
pub enum Step {
    /// The leaf sought is the child at this offset.
    Found(usize),
    /// Go on into the subtree at this offset.
    Into(usize),
    /// The leaf sought is not in this tree.
    Abort,
}

/// A traversal predicate: from what it sees of the two children of a node,
/// it decides where the walk goes.
pub trait Walker<K, V, A> {
    /// The decision at a node whose children look like `first` and `second`.
    spec fn step_spec(&self, first: Child<K, V, A>, second: Child<K, V, A>) -> Step;

    /// Decides where the walk goes from a node with these two children.
    fn walk(&self, first: Child<K, V, A>, second: Child<K, V, A>) -> (r: Step)
        ensures
            r == self.step_spec(first, second),
    ;
}

/// The walker that looks for one key, by the routing rule: a leaf of the
/// key is found; otherwise the walk enters the first subtree whose maximum
/// key reaches the key.
pub struct BinaryWalker<'a, K>(pub &'a K);

impl<'a, K: MapKey, V, A: MapAnnotation<K, V>> Walker<K, V, A> for BinaryWalker<'a, K> {
    open spec fn step_spec(&self, first: Child<K, V, A>, second: Child<K, V, A>) -> Step {
        let k = *self.0;
        if first matches Child::Leaf(l) && l@.0 == k {
            Step::Found(0)
        } else if second matches Child::Leaf(l) && l@.0 == k {
            Step::Found(1)
        } else if first matches Child::Node(n) && n.cached().max_facet().reaches(k) {
            Step::Into(0)
        } else if second matches Child::Node(n) && n.cached().max_facet().reaches(k) {
            Step::Into(1)
        } else {
            Step::Abort
        }
    }

    fn walk(&self, first: Child<K, V, A>, second: Child<K, V, A>) -> (r: Step) {
        let k = self.0;
        let first_leaf = match &first {
            Child::Leaf(l) => same_key(l._key(), k),
            _ => false,
        };
        if first_leaf {
            return Step::Found(0);
        }
        let second_leaf = match &second {
            Child::Leaf(l) => same_key(l._key(), k),
            _ => false,
        };
        if second_leaf {
            return Step::Found(1);
        }
        let first_reaches = match &first {
            Child::Node(n) => n.annotation().max_key().is_at_least(k),
            _ => false,
        };
        if first_reaches {
            return Step::Into(0);
        }
        match &second {
            Child::Node(n) => if n.annotation().max_key().is_at_least(k) {
                Step::Into(1)
            } else {
                Step::Abort
            },
            _ => Step::Abort,
        }
    }
}

} // verus!
