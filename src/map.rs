use vstd::prelude::*;

use crate::annotation::{MapAnnotation, MaxKey};
use crate::key::{same_key, MapKey};
use crate::leaf::Leaf;
use crate::walk::{BinaryWalker, Child, ChildMut, Step, Walker};

use core::cmp::Ordering;

verus! {

/// What a lookup of `k` in `m` gives.
pub open spec fn lookup<K, V>(m: Map<K, V>, k: K) -> Option<V> {
    if m.dom().contains(k) {
        Some(m[k])
    } else {
        None
    }
}

/// Every key of `left` comes before every key of `right`.
pub open spec fn routed<K: MapKey, V>(left: Map<K, V>, right: Map<K, V>) -> bool {
    forall|a: K, b: K|
        #![trigger left.dom().contains(a), right.dom().contains(b)]
        left.dom().contains(a) && right.dom().contains(b) ==> a.rank() < b.rank()
}

/// Errors of a walk through the tree.
#[derive(Debug, PartialEq, Eq)]
pub enum MapError {
    /// The walk met a combination of children that the routing invariant
    /// rules out, or was asked to enter a child that is not there.
    CorruptedTree,
}

/// Reference to a subtree that owns it and caches its annotation.
pub struct NodeRef<K, V, A> {
    tree: Box<KelvinMap<K, V, A>>,
    annotation: A,
}

/// A map as a binary tree: empty, one leaf, or a node of two annotated
/// subtrees, where every key on the left is below every key on the right.
pub enum KelvinMap<K, V, A> {
    /// No entry.
    Empty,
    /// Exactly one entry.
    Leaf(Leaf<K, V>),
    /// Two non-empty subtrees, split by the maximum key of the left one.
    Node(NodeRef<K, V, A>, NodeRef<K, V, A>),
}

impl<K: MapKey, V, A: MapAnnotation<K, V>> NodeRef<K, V, A> {
    /// The referenced subtree.
    pub closed spec fn subtree(self) -> KelvinMap<K, V, A> {
        *self.tree
    }

    /// The cached annotation.
    pub closed spec fn cached(self) -> A {
        self.annotation
    }

    /// The subtree is well formed and the cached annotation agrees with it.
    pub open spec fn wf(self) -> bool {
        &&& self.subtree().wf()
        &&& self.cached().size_facet() == self.subtree().size()
        &&& self.cached().max_facet() == self.subtree().max_spec()
    }

    /// A reference owning `tree`, with its annotation computed from the
    /// cached annotations of its children.
    pub fn new(tree: KelvinMap<K, V, A>) -> (r: Self)
        requires
            tree.wf(),
        ensures
            r.wf(),
            r.subtree() == tree,
    {
        let annotation = tree.compute_annotation();
        NodeRef { tree: Box::new(tree), annotation }
    }

    /// The referenced subtree, read only.
    pub fn value(&self) -> (r: &KelvinMap<K, V, A>)
        ensures
            *r == self.subtree(),
    {
        &self.tree
    }

    /// The cached annotation.
    pub fn annotation(&self) -> (r: &A)
        ensures
            *r == self.cached(),
    {
        &self.annotation
    }

    /// Gives the subtree up.
    pub fn into_value(self) -> (r: KelvinMap<K, V, A>)
        ensures
            r == self.subtree(),
    {
        *self.tree
    }
}

impl<K: MapKey, V, A: MapAnnotation<K, V>> KelvinMap<K, V, A> {
    /// Number of leaves.
    pub closed spec fn size(self) -> nat
        decreases self,
    {
        match self {
            KelvinMap::Empty => 0,
            KelvinMap::Leaf(_) => 1,
            KelvinMap::Node(l, r) => (*l.tree).size() + (*r.tree).size(),
        }
    }

    /// Largest key, combined bottom-up as the annotations combine it.
    pub closed spec fn max_spec(self) -> MaxKey<K>
        decreases self,
    {
        match self {
            KelvinMap::Empty => MaxKey::NegativeInfinity,
            KelvinMap::Leaf(leaf) => MaxKey::Maximum(leaf@.0),
            KelvinMap::Node(l, r) => (*l.tree).max_spec().join((*r.tree).max_spec()),
        }
    }

    /// The mapping that the tree holds.
    pub closed spec fn as_map(self) -> Map<K, V>
        decreases self,
    {
        match self {
            KelvinMap::Empty => Map::empty(),
            KelvinMap::Leaf(leaf) => map![leaf@.0 => leaf@.1],
            KelvinMap::Node(l, r) => (*l.tree).as_map().union_prefer_right((*r.tree).as_map()),
        }
    }

    /// Routing, cached annotations and sizes hold at every node; the size
    /// fits in a `u64`.
    pub closed spec fn wf(self) -> bool
        decreases self,
    {
        match self {
            KelvinMap::Empty => true,
            KelvinMap::Leaf(_) => true,
            KelvinMap::Node(l, r) => {
                &&& (*l.tree).wf()
                &&& (*r.tree).wf()
                &&& l.annotation.size_facet() == (*l.tree).size()
                &&& l.annotation.max_facet() == (*l.tree).max_spec()
                &&& r.annotation.size_facet() == (*r.tree).size()
                &&& r.annotation.max_facet() == (*r.tree).max_spec()
                &&& (*l.tree).size() > 0
                &&& (*r.tree).size() > 0
                &&& (*l.tree).size() + (*r.tree).size() <= u64::MAX
                &&& routed((*l.tree).as_map(), (*r.tree).as_map())
            },
        }
    }

    /// The left half of the root; empty unless the root is a node.
    pub closed spec fn left_tree(self) -> Self {
        match self {
            KelvinMap::Node(l, _) => *l.tree,
            _ => KelvinMap::Empty,
        }
    }

    /// The right half of the root; empty unless the root is a node.
    pub closed spec fn right_tree(self) -> Self {
        match self {
            KelvinMap::Node(_, r) => *r.tree,
            _ => KelvinMap::Empty,
        }
    }

    /// The two halves of the root differ by at most two leaves.
    pub closed spec fn root_balanced(self) -> bool {
        match self {
            KelvinMap::Node(l, r) => {
                &&& (*l.tree).size() <= (*r.tree).size() + 2
                &&& (*r.tree).size() <= (*l.tree).size() + 2
            },
            _ => true,
        }
    }

    proof fn lemma_wf_facts(self)
        requires
            self.wf(),
        ensures
            self.as_map().dom().finite(),
            self.size() == self.as_map().dom().len(),
            self.size() <= u64::MAX,
            self.size() == 0 <==> self is Empty,
            self is Node ==> self.size() >= 2,
            match self.max_spec() {
                MaxKey::NegativeInfinity => self.as_map().dom() == Set::<K>::empty(),
                MaxKey::Maximum(m) => {
                    &&& self.as_map().dom().contains(m)
                    &&& forall|a: K| #[trigger]
                        self.as_map().dom().contains(a) ==> a.rank() <= m.rank()
                },
            },
        decreases self,
    {
        match self {
            KelvinMap::Empty => {
                assert(self.as_map().dom() =~= Set::<K>::empty());
            },
            KelvinMap::Leaf(leaf) => {
                assert(self.as_map().dom() =~= set![leaf@.0]);
            },
            KelvinMap::Node(l, r) => {
                let lt = *l.tree;
                let rt = *r.tree;
                lt.lemma_wf_facts();
                rt.lemma_wf_facts();
                let ld = lt.as_map().dom();
                let rd = rt.as_map().dom();
                assert(self.as_map().dom() =~= ld + rd);
                assert(ld.disjoint(rd)) by {
                    assert forall|a: K| ld.contains(a) implies !rd.contains(a) by {
                        if rd.contains(a) {
                            assert(a.rank() < a.rank());
                        }
                    }
                }
                vstd::set_lib::lemma_set_disjoint_lens(ld, rd);
            },
        }
    }

    /// Moves the tree out, leaving it empty.
    fn take(&mut self) -> (r: Self)
        ensures
            r == *old(self),
            *final(self) == KelvinMap::<K, V, A>::Empty,
    {
        let mut empty = KelvinMap::Empty;
        core::mem::swap(self, &mut empty);
        empty
    }

    /// The annotation of this tree, from the cached annotations of its
    /// children.
    fn compute_annotation(&self) -> (r: A)
        requires
            self.wf(),
        ensures
            r.size_facet() == self.size(),
            r.max_facet() == self.max_spec(),
    {
        match self {
            KelvinMap::Empty => A::identity(),
            KelvinMap::Leaf(leaf) => A::from_leaf(leaf),
            KelvinMap::Node(l, r) => A::combine(&l.annotation, &r.annotation),
        }
    }

    /// Routes `leaf` to its place: it takes the place of a leaf of the same
    /// key, or splits a leaf of another key into a node of two.
    fn _insert(&mut self, leaf: Leaf<K, V>) -> (r: Option<V>)
        requires
            old(self).wf(),
            old(self).size() < u64::MAX,
        ensures
            final(self).wf(),
            final(self).as_map() == old(self).as_map().insert(leaf@.0, leaf@.1),
            r == lookup(old(self).as_map(), leaf@.0),
            final(self).size() == old(self).size() + (if old(self).as_map().dom().contains(
                leaf@.0,
            ) {
                0int
            } else {
                1int
            }),
            *old(self) is Node ==> {
                &&& *final(self) is Node
                &&& final(self).left_tree().size() >= old(self).left_tree().size()
                &&& final(self).right_tree().size() >= old(self).right_tree().size()
            },
            !(*old(self) is Node) ==> final(self).size() <= 2,
        decreases old(self).size(),
    {
        proof {
            old(self).lemma_wf_facts();
        }
        let t = self.take();
        match t {
            KelvinMap::Empty => {
                *self = KelvinMap::Leaf(leaf);
                assert(self.as_map() =~= t.as_map().insert(leaf@.0, leaf@.1));
                None
            },
            KelvinMap::Leaf(here) => {
                match here._key().compare(leaf._key()) {
                    Ordering::Equal => {
                        proof {
                            K::lemma_rank_injective(here@.0, leaf@.0);
                        }
                        let (_, old_value) = here.into_parts();
                        *self = KelvinMap::Leaf(leaf);
                        assert(self.as_map() =~= t.as_map().insert(leaf@.0, leaf@.1));
                        Some(old_value)
                    },
                    Ordering::Less => {
                        let hl = KelvinMap::Leaf(here);
                        let nl = KelvinMap::Leaf(leaf);
                        proof {
                            assert(hl.as_map().dom() =~= set![here@.0]);
                            assert(nl.as_map().dom() =~= set![leaf@.0]);
                        }
                        *self = KelvinMap::Node(NodeRef::new(hl), NodeRef::new(nl));
                        assert(self.as_map() =~= t.as_map().insert(leaf@.0, leaf@.1));
                        None
                    },
                    Ordering::Greater => {
                        let hl = KelvinMap::Leaf(here);
                        let nl = KelvinMap::Leaf(leaf);
                        proof {
                            assert(hl.as_map().dom() =~= set![here@.0]);
                            assert(nl.as_map().dom() =~= set![leaf@.0]);
                        }
                        *self = KelvinMap::Node(NodeRef::new(nl), NodeRef::new(hl));
                        assert(self.as_map() =~= t.as_map().insert(leaf@.0, leaf@.1));
                        None
                    },
                }
            },
            KelvinMap::Node(mut l, mut r) => {
                let ghost lt = *l.tree;
                let ghost rt = *r.tree;
                let ghost k = leaf@.0;
                proof {
                    lt.lemma_wf_facts();
                    rt.lemma_wf_facts();
                }
                let old_value;
                if l.annotation.max_key().is_at_least(leaf._key()) {
                    proof {
                        let m = lt.max_spec()->Maximum_0;
                        assert(!rt.as_map().dom().contains(k)) by {
                            if rt.as_map().dom().contains(k) {
                                assert(lt.as_map().dom().contains(m));
                            }
                        }
                    }
                    old_value = l.tree._insert(leaf);
                    l.annotation = l.tree.compute_annotation();
                    proof {
                        let lt2 = *l.tree;
                        assert(lt2.as_map().dom() =~= lt.as_map().dom().insert(k));
                        assert(routed(lt2.as_map(), rt.as_map())) by {
                            assert forall|a: K, b: K|
                                lt2.as_map().dom().contains(a) && rt.as_map().dom().contains(
                                    b,
                                ) implies a.rank() < b.rank() by {
                                let m = lt.max_spec()->Maximum_0;
                                assert(lt.as_map().dom().contains(m));
                            }
                        }
                    }
                } else {
                    proof {
                        assert(!lt.as_map().dom().contains(k)) by {
                            if lt.as_map().dom().contains(k) {
                                let m = lt.max_spec()->Maximum_0;
                                assert(k.rank() <= m.rank());
                            }
                        }
                    }
                    old_value = r.tree._insert(leaf);
                    r.annotation = r.tree.compute_annotation();
                    proof {
                        let rt2 = *r.tree;
                        assert(rt2.as_map().dom() =~= rt.as_map().dom().insert(k));
                        assert(routed(lt.as_map(), rt2.as_map())) by {
                            assert forall|a: K, b: K|
                                lt.as_map().dom().contains(a) && rt2.as_map().dom().contains(
                                    b,
                                ) implies a.rank() < b.rank() by {
                                if b == k {
                                    match lt.max_spec() {
                                        MaxKey::Maximum(m) => {
                                        },
                                        MaxKey::NegativeInfinity => {
                                        },
                                    }
                                }
                            }
                        }
                    }
                }
                *self = KelvinMap::Node(l, r);
                assert(self.as_map() =~= t.as_map().insert(k, leaf@.1));
                old_value
            },
        }
    }
}

impl<K: MapKey, V, A: MapAnnotation<K, V>> KelvinMap<K, V, A> {
    /// The leaf of the smallest key, if any.
    fn min_key_leaf(&self) -> (r: Option<&Leaf<K, V>>)
        requires
            self.wf(),
        ensures
            match r {
                None => self is Empty,
                Some(leaf) => {
                    &&& self.as_map().dom().contains(leaf@.0)
                    &&& self.as_map()[leaf@.0] == leaf@.1
                    &&& forall|a: K| #[trigger]
                        self.as_map().dom().contains(a) ==> leaf@.0.rank() <= a.rank()
                },
            },
        decreases self,
    {
        match self {
            KelvinMap::Empty => None,
            KelvinMap::Leaf(leaf) => Some(leaf),
            KelvinMap::Node(l, r) => {
                let found = l.tree.min_key_leaf();
                proof {
                    (*l.tree).lemma_wf_facts();
                    (*r.tree).lemma_wf_facts();
                    let leaf = found->Some_0;
                    assert(!(*r.tree).as_map().dom().contains(leaf@.0));
                }
                found
            },
        }
    }

    /// The leaf of the largest key, if any.
    fn max_key_leaf(&self) -> (r: Option<&Leaf<K, V>>)
        requires
            self.wf(),
        ensures
            match r {
                None => self is Empty,
                Some(leaf) => {
                    &&& self.as_map().dom().contains(leaf@.0)
                    &&& self.as_map()[leaf@.0] == leaf@.1
                    &&& forall|a: K| #[trigger]
                        self.as_map().dom().contains(a) ==> a.rank() <= leaf@.0.rank()
                },
            },
        decreases self,
    {
        match self {
            KelvinMap::Empty => None,
            KelvinMap::Leaf(leaf) => Some(leaf),
            KelvinMap::Node(l, r) => {
                let found = r.tree.max_key_leaf();
                proof {
                    (*l.tree).lemma_wf_facts();
                    (*r.tree).lemma_wf_facts();
                }
                found
            },
        }
    }

    /// The value of the tree if it is a single leaf of key `k`; the tree
    /// itself otherwise.
    fn split_leaf(self, k: &K) -> (r: Result<V, Self>)
        ensures
            match r {
                Ok(v) => self is Leaf && self->Leaf_0@ == (*k, v),
                Err(t) => t == self && !(self is Leaf && self->Leaf_0@.0 == *k),
            },
    {
        match self {
            KelvinMap::Leaf(leaf) => {
                if same_key(leaf._key(), k) {
                    let (_, v) = leaf.into_parts();
                    Ok(v)
                } else {
                    Err(KelvinMap::Leaf(leaf))
                }
            },
            other => Err(other),
        }
    }

    /// Removes `k` below this node without rebalancing it first. Where a
    /// child of the node is the leaf of `k`, the node gives way to the other
    /// child.
    fn _remove(&mut self, k: &K) -> (r: Option<V>)
        requires
            old(self).wf(),
        ensures
            final(self).wf(),
            final(self).as_map() == old(self).as_map().remove(*k),
            r == lookup(old(self).as_map(), *k),
            final(self).size() == old(self).size() - (if old(self).as_map().dom().contains(*k) {
                1int
            } else {
                0int
            }),
            *old(self) is Node ==> {
                ||| {
                    &&& *final(self) is Node
                    &&& final(self).left_tree().size() <= old(self).left_tree().size()
                    &&& final(self).right_tree().size() <= old(self).right_tree().size()
                }
                ||| old(self).left_tree().size() == 1 && *final(self) == old(self).right_tree()
                ||| old(self).right_tree().size() == 1 && *final(self) == old(self).left_tree()
            },
        decreases old(self).size(), 0nat,
    {
        proof {
            old(self).lemma_wf_facts();
        }
        let t = self.take();
        match t {
            KelvinMap::Empty => {
                assert(self.as_map() =~= t.as_map().remove(*k));
                None
            },
            KelvinMap::Leaf(here) => {
                if same_key(here._key(), k) {
                    let (_, v) = here.into_parts();
                    assert(self.as_map() =~= t.as_map().remove(*k));
                    Some(v)
                } else {
                    *self = KelvinMap::Leaf(here);
                    assert(self.as_map() =~= t.as_map().remove(*k));
                    None
                }
            },
            KelvinMap::Node(l, r) => {
                let ghost lt = *l.tree;
                let ghost rt = *r.tree;
                proof {
                    lt.lemma_wf_facts();
                    rt.lemma_wf_facts();
                }
                let NodeRef { tree: ltree, annotation: lann } = l;
                let l = match (*ltree).split_leaf(k) {
                    Ok(v) => {
                        *self = r.into_value();
                        assert(self.as_map() =~= t.as_map().remove(*k));
                        return Some(v);
                    },
                    Err(back) => NodeRef { tree: Box::new(back), annotation: lann },
                };
                let NodeRef { tree: rtree, annotation: rann } = r;
                let r = match (*rtree).split_leaf(k) {
                    Ok(v) => {
                        *self = l.into_value();
                        proof {
                            assert(!lt.as_map().dom().contains(*k));
                        }
                        assert(self.as_map() =~= t.as_map().remove(*k));
                        return Some(v);
                    },
                    Err(back) => NodeRef { tree: Box::new(back), annotation: rann },
                };
                let mut l = l;
                let mut r = r;
                if l.annotation.max_key().is_at_least(k) {
                    proof {
                        assert(!rt.as_map().dom().contains(*k)) by {
                            if rt.as_map().dom().contains(*k) {
                                let m = lt.max_spec()->Maximum_0;
                                assert(lt.as_map().dom().contains(m));
                            }
                        }
                    }
                    let old_value = l.tree.remove_balanced(k);
                    l.annotation = l.tree.compute_annotation();
                    proof {
                        let lt2 = *l.tree;
                        assert(lt2.as_map().dom() =~= lt.as_map().dom().remove(*k));
                        if lt is Leaf {
                            assert(lt.as_map().dom() =~= set![lt->Leaf_0@.0]);
                            assert(!lt.as_map().dom().contains(*k));
                        } else {
                            assert(lt is Node);
                            assert(lt.size() >= 2);
                        }
                        assert(lt2.size() > 0);
                        assert(routed(lt2.as_map(), rt.as_map()));
                    }
                    *self = KelvinMap::Node(l, r);
                    assert(self.as_map() =~= t.as_map().remove(*k));
                    old_value
                } else if r.annotation.max_key().is_at_least(k) {
                    proof {
                        assert(!lt.as_map().dom().contains(*k)) by {
                            if lt.as_map().dom().contains(*k) {
                                let m = lt.max_spec()->Maximum_0;
                                assert(k.rank() <= m.rank());
                            }
                        }
                    }
                    let old_value = r.tree.remove_balanced(k);
                    r.annotation = r.tree.compute_annotation();
                    proof {
                        let rt2 = *r.tree;
                        assert(rt2.as_map().dom() =~= rt.as_map().dom().remove(*k));
                        if rt is Leaf {
                            assert(rt.as_map().dom() =~= set![rt->Leaf_0@.0]);
                            assert(!rt.as_map().dom().contains(*k));
                        } else {
                            assert(rt is Node);
                            assert(rt.size() >= 2);
                        }
                        assert(rt2.size() > 0);
                        assert(routed(lt.as_map(), rt2.as_map()));
                    }
                    *self = KelvinMap::Node(l, r);
                    assert(self.as_map() =~= t.as_map().remove(*k));
                    old_value
                } else {
                    proof {
                        assert(!t.as_map().dom().contains(*k)) by {
                            if lt.as_map().dom().contains(*k) {
                                let m = lt.max_spec()->Maximum_0;
                                assert(k.rank() <= m.rank());
                            }
                            if rt.as_map().dom().contains(*k) {
                                let m = rt.max_spec()->Maximum_0;
                                assert(k.rank() <= m.rank());
                            }
                        }
                    }
                    *self = KelvinMap::Node(l, r);
                    assert(self.as_map() =~= t.as_map().remove(*k));
                    None
                }
            },
        }
    }

    /// Moves one leaf across the root when one half holds more than one
    /// leaf more than the other: the smallest of the right half goes left,
    /// or the largest of the left half goes right.
    fn balance(&mut self)
        requires
            old(self).wf(),
        ensures
            final(self).wf(),
            final(self).as_map() == old(self).as_map(),
            final(self).size() == old(self).size(),
            *old(self) is Node ==> {
                let (cl, cr) = (old(self).left_tree().size(), old(self).right_tree().size());
                let (nl, nr) = (final(self).left_tree().size(), final(self).right_tree().size());
                &&& *final(self) is Node
                &&& cr > cl + 1 ==> nl == cl + 1 && nr == cr - 1
                &&& cl > cr + 1 ==> nl == cl - 1 && nr == cr + 1
                &&& cl <= cr + 1 && cr <= cl + 1 ==> nl == cl && nr == cr
            },
            !(*old(self) is Node) ==> *final(self) == *old(self),
        decreases old(self).size(), 1nat,
    {
        proof {
            old(self).lemma_wf_facts();
        }
        let t = self.take();
        match t {
            KelvinMap::Node(mut l, mut r) => {
                let ghost lt = *l.tree;
                let ghost rt = *r.tree;
                proof {
                    lt.lemma_wf_facts();
                    rt.lemma_wf_facts();
                }
                let c_l = l.annotation.cardinality();
                let c_r = r.annotation.cardinality();
                if c_r > c_l && c_r - c_l > 1 {
                    let key = match r.tree.min_key_leaf() {
                        Some(leaf) => leaf._key().clone_key(),
                        None => {
                            *self = KelvinMap::Node(l, r);
                            return;
                        },
                    };
                    let moved = r.tree._remove(&key);
                    r.annotation = r.tree.compute_annotation();
                    match moved {
                        Some(v) => {
                            proof {
                                assert(!lt.as_map().dom().contains(key));
                            }
                            l.tree._insert(Leaf::new(key, v));
                            l.annotation = l.tree.compute_annotation();
                        },
                        None => {},
                    }
                    proof {
                        let lt2 = *l.tree;
                        let rt2 = *r.tree;
                        assert(lt2.as_map().dom() =~= lt.as_map().dom().insert(key));
                        assert(rt2.as_map().dom() =~= rt.as_map().dom().remove(key));
                        assert(routed(lt2.as_map(), rt2.as_map())) by {
                            assert forall|a: K, b: K|
                                lt2.as_map().dom().contains(a) && rt2.as_map().dom().contains(
                                    b,
                                ) implies a.rank() < b.rank() by {
                                if a == key && a.rank() == b.rank() {
                                    K::lemma_rank_injective(a, b);
                                }
                            }
                        }
                    }
                    *self = KelvinMap::Node(l, r);
                    assert(self.as_map() =~= t.as_map());
                } else if c_l > c_r && c_l - c_r > 1 {
                    let key = match l.tree.max_key_leaf() {
                        Some(leaf) => leaf._key().clone_key(),
                        None => {
                            *self = KelvinMap::Node(l, r);
                            return;
                        },
                    };
                    proof {
                        assert(!rt.as_map().dom().contains(key));
                    }
                    let moved = l.tree._remove(&key);
                    l.annotation = l.tree.compute_annotation();
                    match moved {
                        Some(v) => {
                            r.tree._insert(Leaf::new(key, v));
                            r.annotation = r.tree.compute_annotation();
                        },
                        None => {},
                    }
                    proof {
                        let lt2 = *l.tree;
                        let rt2 = *r.tree;
                        assert(lt2.as_map().dom() =~= lt.as_map().dom().remove(key));
                        assert(rt2.as_map().dom() =~= rt.as_map().dom().insert(key));
                        assert(routed(lt2.as_map(), rt2.as_map())) by {
                            assert forall|a: K, b: K|
                                lt2.as_map().dom().contains(a) && rt2.as_map().dom().contains(
                                    b,
                                ) implies a.rank() < b.rank() by {
                                if b == key && a.rank() == b.rank() {
                                    K::lemma_rank_injective(a, b);
                                }
                            }
                        }
                    }
                    *self = KelvinMap::Node(l, r);
                    assert(self.as_map() =~= t.as_map());
                } else {
                    *self = KelvinMap::Node(l, r);
                }
            },
            other => {
                *self = other;
            },
        }
    }

    /// Rebalances this node, then removes `k` below it.
    fn remove_balanced(&mut self, k: &K) -> (r: Option<V>)
        requires
            old(self).wf(),
        ensures
            final(self).wf(),
            final(self).as_map() == old(self).as_map().remove(*k),
            r == lookup(old(self).as_map(), *k),
            final(self).size() == old(self).size() - (if old(self).as_map().dom().contains(*k) {
                1int
            } else {
                0int
            }),
            old(self).root_balanced() ==> final(self).root_balanced(),
        decreases old(self).size(), 2nat,
    {
        self.balance();
        let r = self._remove(k);
        proof {
            if *self is Node {
                assert(self.left_tree().size() > 0);
            }
        }
        r
    }
}

impl<K: MapKey, V, A: MapAnnotation<K, V>> KelvinMap<K, V, A> {
    /// What a walker sees at offset `ofs`: the two subtrees of a node, the
    /// leaf of a single-leaf tree at offset zero, the end of the node
    /// elsewhere.
    pub open spec fn child_spec(&self, ofs: usize) -> Child<K, V, A> {
        match self {
            KelvinMap::Node(l, r) => if ofs == 0 {
                Child::Node(l)
            } else if ofs == 1 {
                Child::Node(r)
            } else {
                Child::EndOfNode
            },
            KelvinMap::Leaf(leaf) => if ofs == 0 {
                Child::Leaf(leaf)
            } else {
                Child::EndOfNode
            },
            KelvinMap::Empty => Child::EndOfNode,
        }
    }

    /// The child at offset `ofs`.
    pub fn child(&self, ofs: usize) -> (r: Child<K, V, A>)
        ensures
            r == self.child_spec(ofs),
    {
        match self {
            KelvinMap::Node(l, r) => if ofs == 0 {
                Child::Node(l)
            } else if ofs == 1 {
                Child::Node(r)
            } else {
                Child::EndOfNode
            },
            KelvinMap::Leaf(leaf) => if ofs == 0 {
                Child::Leaf(leaf)
            } else {
                Child::EndOfNode
            },
            KelvinMap::Empty => Child::EndOfNode,
        }
    }

    /// The child at offset `ofs`, for writing.
    pub fn child_mut(&mut self, ofs: usize) -> (r: ChildMut<K, V, A>)
        ensures
            match r {
                ChildMut::Leaf(leaf) => {
                    &&& *old(self) matches KelvinMap::Leaf(x) && *leaf == x
                    &&& ofs == 0
                    &&& *final(self) == KelvinMap::<K, V, A>::Leaf(*final(leaf))
                },
                ChildMut::Node(n) => *old(self) matches KelvinMap::Node(a, b) && {
                    ||| ofs == 0 && *n == a && *final(self) == KelvinMap::Node(*final(n), b)
                    ||| ofs == 1 && *n == b && *final(self) == KelvinMap::Node(a, *final(n))
                },
                ChildMut::Empty => false,
                ChildMut::EndOfNode => {
                    &&& old(self).child_spec(ofs) is EndOfNode
                    &&& *final(self) == *old(self)
                },
            },
    {
        match self {
            KelvinMap::Node(l, r) => if ofs == 0 {
                ChildMut::Node(l)
            } else if ofs == 1 {
                ChildMut::Node(r)
            } else {
                ChildMut::EndOfNode
            },
            KelvinMap::Leaf(leaf) => if ofs == 0 {
                ChildMut::Leaf(leaf)
            } else {
                ChildMut::EndOfNode
            },
            KelvinMap::Empty => ChildMut::EndOfNode,
        }
    }

    /// Where a walk driven by `w` ends: at a leaf, nowhere, or at a step
    /// that names a child which is not there.
    pub closed spec fn find_spec<W: Walker<K, V, A>>(self, w: W) -> Result<
        Option<Leaf<K, V>>,
        MapError,
    >
        decreases self,
    {
        match w.step_spec(self.child_spec(0), self.child_spec(1)) {
            Step::Found(i) => match self.child_spec(i) {
                Child::Leaf(leaf) => Ok(Some(*leaf)),
                _ => Err(MapError::CorruptedTree),
            },
            Step::Into(i) => match self {
                KelvinMap::Node(l, r) => if i == 0 {
                    (*l.tree).find_spec(w)
                } else if i == 1 {
                    (*r.tree).find_spec(w)
                } else {
                    Err(MapError::CorruptedTree)
                },
                _ => Err(MapError::CorruptedTree),
            },
            Step::Abort => Ok(None),
        }
    }

    /// Walks from the root as `walker` decides, to the leaf that it finds.
    pub fn walk<W: Walker<K, V, A>>(&self, walker: &W) -> (r: Result<
        Option<&Leaf<K, V>>,
        MapError,
    >)
        ensures
            match r {
                Ok(Some(leaf)) => self.find_spec(*walker) == Ok::<_, MapError>(Some(*leaf)),
                Ok(None) => self.find_spec(*walker) == Ok::<_, MapError>(None::<Leaf<K, V>>),
                Err(e) => self.find_spec(*walker) == Err::<Option<Leaf<K, V>>, _>(e),
            },
        decreases self,
    {
        let step = walker.walk(self.child(0), self.child(1));
        match step {
            Step::Found(i) => match self.child(i) {
                Child::Leaf(leaf) => Ok(Some(leaf)),
                _ => Err(MapError::CorruptedTree),
            },
            Step::Into(i) => match self {
                KelvinMap::Node(l, r) => if i == 0 {
                    l.tree.walk(walker)
                } else if i == 1 {
                    r.tree.walk(walker)
                } else {
                    Err(MapError::CorruptedTree)
                },
                _ => Err(MapError::CorruptedTree),
            },
            Step::Abort => Ok(None),
        }
    }

    /// The tree with the leaf that `w` finds replaced by `new`; the cached
    /// annotations along the path stay as they are.
    pub closed spec fn with_found<W: Walker<K, V, A>>(self, w: W, new: Leaf<K, V>) -> Self
        decreases self,
    {
        match w.step_spec(self.child_spec(0), self.child_spec(1)) {
            Step::Found(i) => match self {
                KelvinMap::Leaf(_) => if i == 0 {
                    KelvinMap::Leaf(new)
                } else {
                    self
                },
                _ => self,
            },
            Step::Into(i) => match self {
                KelvinMap::Node(l, r) => if i == 0 {
                    KelvinMap::Node(
                        NodeRef { tree: Box::new((*l.tree).with_found(w, new)), annotation: l.annotation },
                        r,
                    )
                } else if i == 1 {
                    KelvinMap::Node(
                        l,
                        NodeRef { tree: Box::new((*r.tree).with_found(w, new)), annotation: r.annotation },
                    )
                } else {
                    self
                },
                _ => self,
            },
            Step::Abort => self,
        }
    }

    /// Walks from the root as `walker` decides, to the leaf that it finds,
    /// for writing.
    pub fn walk_mut<W: Walker<K, V, A>>(&mut self, walker: &W) -> (r: Result<
        Option<&mut Leaf<K, V>>,
        MapError,
    >)
        ensures
            match r {
                Ok(Some(leaf)) => {
                    &&& old(self).find_spec(*walker) == Ok::<_, MapError>(Some(*leaf))
                    &&& *final(self) == old(self).with_found(*walker, *final(leaf))
                },
                Ok(None) => {
                    &&& old(self).find_spec(*walker) == Ok::<_, MapError>(None::<Leaf<K, V>>)
                    &&& *final(self) == *old(self)
                },
                Err(e) => {
                    &&& old(self).find_spec(*walker) == Err::<Option<Leaf<K, V>>, _>(e)
                    &&& *final(self) == *old(self)
                },
            },
        decreases *old(self),
    {
        let step = walker.walk(self.child(0), self.child(1));
        match step {
            Step::Found(i) => match self.child_mut(i) {
                ChildMut::Leaf(leaf) => Ok(Some(leaf)),
                _ => Err(MapError::CorruptedTree),
            },
            Step::Into(i) => match self.child_mut(i) {
                ChildMut::Node(n) => n.tree.walk_mut(walker),
                _ => Err(MapError::CorruptedTree),
            },
            Step::Abort => Ok(None),
        }
    }

    /// The walk for one key finds the leaf of that key exactly when the
    /// tree holds it, and never fails.
    proof fn lemma_find_key(self, k: K)
        requires
            self.wf(),
        ensures
            match self.find_spec(BinaryWalker(&k)) {
                Ok(Some(leaf)) => self.as_map().dom().contains(k) && leaf@ == (k, self.as_map()[k]),
                Ok(None) => !self.as_map().dom().contains(k),
                Err(_) => false,
            },
        decreases self,
    {
        self.lemma_wf_facts();
        match self {
            KelvinMap::Empty => {},
            KelvinMap::Leaf(leaf) => {
                assert(self.as_map().dom() =~= set![leaf@.0]);
            },
            KelvinMap::Node(l, r) => {
                let lt = *l.tree;
                let rt = *r.tree;
                lt.lemma_wf_facts();
                rt.lemma_wf_facts();
                lt.lemma_find_key(k);
                rt.lemma_find_key(k);
                if l.annotation.max_facet().reaches(k) {
                    let m = lt.max_spec()->Maximum_0;
                    assert(lt.as_map().dom().contains(m));
                    assert(!rt.as_map().dom().contains(k));
                } else {
                    assert(!lt.as_map().dom().contains(k)) by {
                        if lt.as_map().dom().contains(k) {
                            let m = lt.max_spec()->Maximum_0;
                            assert(k.rank() <= m.rank());
                        }
                    }
                    if !r.annotation.max_facet().reaches(k) {
                        assert(!rt.as_map().dom().contains(k)) by {
                            if rt.as_map().dom().contains(k) {
                                let m = rt.max_spec()->Maximum_0;
                                assert(k.rank() <= m.rank());
                            }
                        }
                    }
                }
            },
        }
    }
}

impl<K: MapKey, V, A: MapAnnotation<K, V>> KelvinMap<K, V, A> {
    /// Writing a new value into the leaf of a key that the tree holds keeps
    /// the tree's shape, annotations and sizes.
    proof fn lemma_write_key(self, k: K, new: Leaf<K, V>)
        requires
            self.wf(),
            self.as_map().dom().contains(k),
            new@.0 == k,
        ensures
            ({
                let t = self.with_found(BinaryWalker(&k), new);
                &&& t.wf()
                &&& t.as_map() == self.as_map().insert(k, new@.1)
                &&& t.size() == self.size()
                &&& t.max_spec() == self.max_spec()
                &&& t.left_tree().size() == self.left_tree().size()
                &&& t.right_tree().size() == self.right_tree().size()
            }),
        decreases self,
    {
        self.lemma_wf_facts();
        let w = BinaryWalker(&k);
        match self {
            KelvinMap::Empty => {},
            KelvinMap::Leaf(leaf) => {
                assert(self.as_map().dom() =~= set![leaf@.0]);
                let t = self.with_found(w, new);
                assert(t.as_map() =~= self.as_map().insert(k, new@.1));
            },
            KelvinMap::Node(l, r) => {
                let lt = *l.tree;
                let rt = *r.tree;
                lt.lemma_wf_facts();
                rt.lemma_wf_facts();
                let t = self.with_found(w, new);
                if l.annotation.max_facet().reaches(k) {
                    let m = lt.max_spec()->Maximum_0;
                    assert(lt.as_map().dom().contains(m));
                    assert(!rt.as_map().dom().contains(k));
                    lt.lemma_write_key(k, new);
                    let lt2 = lt.with_found(w, new);
                    assert(lt2.as_map().dom() =~= lt.as_map().dom());
                    assert(t.as_map() =~= self.as_map().insert(k, new@.1));
                } else {
                    assert(!lt.as_map().dom().contains(k)) by {
                        if lt.as_map().dom().contains(k) {
                            let m = lt.max_spec()->Maximum_0;
                            assert(k.rank() <= m.rank());
                        }
                    }
                    let m = rt.max_spec()->Maximum_0;
                    assert(k.rank() <= m.rank());
                    rt.lemma_write_key(k, new);
                    let rt2 = rt.with_found(w, new);
                    assert(rt2.as_map().dom() =~= rt.as_map().dom());
                    assert(t.as_map() =~= self.as_map().insert(k, new@.1));
                }
            },
        }
    }

    proof fn lemma_write_key_any(self, k: K)
        requires
            self.wf(),
            self.as_map().dom().contains(k),
        ensures
            forall|new: Leaf<K, V>|
                #![trigger self.with_found(BinaryWalker(&k), new)]
                new@.0 == k ==> {
                    let t = self.with_found(BinaryWalker(&k), new);
                    &&& t.wf()
                    &&& t.as_map() == self.as_map().insert(k, new@.1)
                    &&& t.left_tree().size() == self.left_tree().size()
                    &&& t.right_tree().size() == self.right_tree().size()
                },
    {
        assert forall|new: Leaf<K, V>|
            #![trigger self.with_found(BinaryWalker(&k), new)]
            new@.0 == k implies {
                let t = self.with_found(BinaryWalker(&k), new);
                &&& t.wf()
                &&& t.as_map() == self.as_map().insert(k, new@.1)
                &&& t.left_tree().size() == self.left_tree().size()
                &&& t.right_tree().size() == self.right_tree().size()
            } by {
            self.lemma_write_key(k, new);
        }
    }

    /// The value of `k` for writing, if the map holds it. Writing through
    /// it changes the value of `k` and nothing else.
    pub fn get_mut(&mut self, k: &K) -> (r: Result<Option<&mut V>, MapError>)
        requires
            old(self).wf(),
        ensures
            match r {
                Ok(Some(v)) => {
                    &&& old(self)@.dom().contains(*k)
                    &&& *v == old(self)@[*k]
                    &&& final(self).wf()
                    &&& final(self)@ == old(self)@.insert(*k, *final(v))
                    &&& old(self).root_balanced() ==> final(self).root_balanced()
                },
                Ok(None) => !old(self)@.dom().contains(*k) && *final(self) == *old(self),
                Err(_) => false,
            },
    {
        proof {
            old(self).lemma_find_key(*k);
            if old(self).as_map().dom().contains(*k) {
                old(self).lemma_write_key_any(*k);
            }
        }
        match self.walk_mut(&BinaryWalker(k)) {
            Ok(Some(leaf)) => Ok(Some(leaf.value_mut())),
            Ok(None) => Ok(None),
            Err(e) => Err(e),
        }
    }
}

impl<K: MapKey, V, A: MapAnnotation<K, V>> KelvinMap<K, V, A> {
    /// Applies `f` to the value of `k`, if the map holds it, and gives back
    /// what `f` returns. The key stays as it is; the map then holds the value
    /// that `f` left.
    pub fn map_mut<R, F: FnOnce(&mut V) -> R>(&mut self, k: &K, f: F) -> (r: Result<
        Option<R>,
        MapError,
    >)
        requires
            old(self).wf(),
            forall|v: &mut V| *v == old(self)@[*k] ==> f.requires((v,)),
        ensures
            match r {
                Ok(Some(out)) => {
                    &&& old(self)@.dom().contains(*k)
                    &&& final(self).wf()
                    &&& exists|v: &mut V|
                        {
                            &&& *v == old(self)@[*k]
                            &&& f.ensures((v,), out)
                            &&& final(self)@ == old(self)@.insert(*k, *final(v))
                        }
                    &&& old(self).root_balanced() ==> final(self).root_balanced()
                },
                Ok(None) => !old(self)@.dom().contains(*k) && *final(self) == *old(self),
                Err(_) => false,
            },
    {
        match self.get_mut(k) {
            Ok(Some(v)) => {
                let out = f(v);
                Ok(Some(out))
            }
            Ok(None) => Ok(None),
            Err(e) => Err(e),
        }
    }
}

impl<K: MapKey, V, A: MapAnnotation<K, V>> KelvinMap<K, V, A> {
    /// The empty map is balanced at the root, and `insert`, `remove`,
    /// `get_mut` and `map_mut` keep it so: in every map that they reach, the
    /// cardinalities cached for the two halves of the root differ by at most
    /// two.
    pub proof fn lemma_root_balance(self)
        requires
            self.wf(),
            self.root_balanced(),
        ensures
            match self {
                KelvinMap::Node(l, r) => {
                    &&& l.cached().size_facet() <= r.cached().size_facet() + 2
                    &&& r.cached().size_facet() <= l.cached().size_facet() + 2
                },
                _ => true,
            },
    {
    }
}

impl<K: MapKey, V, A: MapAnnotation<K, V>> KelvinMap<K, V, A> {
    /// Whether the tree is well formed: every node has two non-empty
    /// children whose cached annotations agree with them, every key on its
    /// left is below every key on its right, and the size fits in a `u64`.
    /// A tree that was built by other means than this map's operations can
    /// be tested so before they are called on it.
    pub fn is_well_formed(&self) -> (r: bool)
        ensures
            r == self.wf(),
        decreases self,
    {
        match self {
            KelvinMap::Empty => true,
            KelvinMap::Leaf(_) => true,
            KelvinMap::Node(l, r) => {
                if !l.tree.is_well_formed() || !r.tree.is_well_formed() {
                    return false;
                }
                let ghost lt = *l.tree;
                let ghost rt = *r.tree;
                proof {
                    lt.lemma_wf_facts();
                    rt.lemma_wf_facts();
                }
                let l_real = l.tree.compute_annotation();
                let r_real = r.tree.compute_annotation();
                let c_l = l_real.cardinality();
                let c_r = r_real.cardinality();
                if l.annotation.cardinality() != c_l || r.annotation.cardinality() != c_r {
                    return false;
                }
                if !l.annotation.max_key().same_as(l_real.max_key()) || !r.annotation.max_key().same_as(
                    r_real.max_key(),
                ) {
                    return false;
                }
                if c_l == 0 || c_r == 0 || c_l > u64::MAX - c_r {
                    return false;
                }
                let smallest_right = match r.tree.min_key_leaf() {
                    Some(leaf) => leaf._key(),
                    None => {
                        return false;
                    },
                };
                match l.annotation.max_key() {
                    MaxKey::Maximum(m) => {
                        let below = match m.compare(smallest_right) {
                            Ordering::Less => true,
                            _ => false,
                        };
                        proof {
                            assert(lt.as_map().dom().contains(*m));
                            if below {
                                assert(routed(lt.as_map(), rt.as_map()));
                            }
                        }
                        below
                    },
                    MaxKey::NegativeInfinity => false,
                }
            },
        }
    }
}

impl<K: MapKey, V, A: MapAnnotation<K, V>> View for KelvinMap<K, V, A> {
    type V = Map<K, V>;

    closed spec fn view(&self) -> Map<K, V> {
        self.as_map()
    }
}

impl<K: MapKey, V, A: MapAnnotation<K, V>> Default for KelvinMap<K, V, A> {
    fn default() -> (r: Self)
        ensures
            r.wf(),
            r@ == Map::<K, V>::empty(),
            r.root_balanced(),
    {
        KelvinMap::Empty
    }
}

impl<K: MapKey, V, A: MapAnnotation<K, V>> KelvinMap<K, V, A> {
    /// The empty map.
    pub fn new() -> (r: Self)
        ensures
            r.wf(),
            r@ == Map::<K, V>::empty(),
            r.root_balanced(),
    {
        KelvinMap::Empty
    }

    /// Number of entries.
    pub fn len(&self) -> (r: usize)
        requires
            self.wf(),
            self@.len() <= usize::MAX,
        ensures
            r == self@.len(),
    {
        proof {
            self.lemma_wf_facts();
        }
        match self {
            KelvinMap::Empty => 0,
            KelvinMap::Leaf(_) => 1,
            KelvinMap::Node(l, r) => {
                let c_l = l.annotation.cardinality();
                let c_r = r.annotation.cardinality();
                (c_l + c_r) as usize
            },
        }
    }

    /// Whether the map has no entry.
    pub fn is_empty(&self) -> (r: bool)
        requires
            self.wf(),
        ensures
            r == (self@.len() == 0),
    {
        proof {
            self.lemma_wf_facts();
        }
        match self {
            KelvinMap::Empty => true,
            _ => false,
        }
    }

    /// The value of `k`, if the map holds it.
    pub fn get(&self, k: &K) -> (r: Result<Option<&V>, MapError>)
        requires
            self.wf(),
        ensures
            match r {
                Ok(Some(v)) => self@.dom().contains(*k) && *v == self@[*k],
                Ok(None) => !self@.dom().contains(*k),
                Err(_) => false,
            },
    {
        proof {
            self.lemma_find_key(*k);
        }
        match self.walk(&BinaryWalker(k)) {
            Ok(Some(leaf)) => Ok(Some(leaf.value())),
            Ok(None) => Ok(None),
            Err(e) => Err(e),
        }
    }

    /// Maps `k` to `v`, after one step of rebalancing at the root; gives
    /// back the value that `k` had.
    pub fn insert(&mut self, k: K, v: V) -> (r: Result<Option<V>, MapError>)
        requires
            old(self).wf(),
            old(self)@.len() < u64::MAX,
        ensures
            final(self).wf(),
            final(self)@ == old(self)@.insert(k, v),
            r == Ok::<_, MapError>(lookup(old(self)@, k)),
            old(self).root_balanced() ==> final(self).root_balanced(),
    {
        proof {
            old(self).lemma_wf_facts();
        }
        let leaf = Leaf::new(k, v);
        self.balance();
        let old_value = self._insert(leaf);
        proof {
            if *self is Node {
                self.lemma_wf_facts();
                self.left_tree().lemma_wf_facts();
                self.right_tree().lemma_wf_facts();
            }
        }
        Ok(old_value)
    }

    /// Removes `k`, after one step of rebalancing at the root; gives back
    /// the value that `k` had. Removing an absent key changes nothing.
    pub fn remove(&mut self, k: &K) -> (r: Result<Option<V>, MapError>)
        requires
            old(self).wf(),
        ensures
            final(self).wf(),
            final(self)@ == old(self)@.remove(*k),
            r == Ok::<_, MapError>(lookup(old(self)@, *k)),
            old(self).root_balanced() ==> final(self).root_balanced(),
    {
        Ok(self.remove_balanced(k))
    }
}

} // verus!
