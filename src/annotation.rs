use vstd::prelude::*;

use crate::key::MapKey;
use crate::leaf::Leaf;

verus! {

/// The largest key of a subtree, with an explicit bottom for the empty one.
pub enum MaxKey<K> {
    /// The subtree holds no key.
    NegativeInfinity,
    /// The largest key that the subtree holds.
    Maximum(K),
}

impl<K: MapKey> MaxKey<K> {
    /// The larger of two maxima.
    pub open spec fn join(self, other: Self) -> Self {
        match (self, other) {
            (MaxKey::NegativeInfinity, _) => other,
            (_, MaxKey::NegativeInfinity) => self,
            (MaxKey::Maximum(a), MaxKey::Maximum(b)) => if a.rank() >= b.rank() {
                self
            } else {
                other
            },
        }
    }

    /// Whether the maximum is a key at or above `key` in the order.
    pub open spec fn reaches(self, key: K) -> bool {
        match self {
            MaxKey::NegativeInfinity => false,
            MaxKey::Maximum(m) => m.rank() >= key.rank(),
        }
    }

    /// Whether the maximum is a key at or above `key`; negative infinity is
    /// below every key.
    pub fn is_at_least(&self, key: &K) -> (r: bool)
        ensures
            r == self.reaches(*key),
    {
        match self {
            MaxKey::NegativeInfinity => false,
            MaxKey::Maximum(m) => match m.compare(key) {
                core::cmp::Ordering::Less => false,
                _ => true,
            },
        }
    }

    /// The larger of two maxima, as a new value.
    pub fn max_of(a: &Self, b: &Self) -> (r: Self)
        ensures
            r == a.join(*b),
    {
        match (a, b) {
            (MaxKey::NegativeInfinity, _) => b.clone_max(),
            (_, MaxKey::NegativeInfinity) => a.clone_max(),
            (MaxKey::Maximum(x), MaxKey::Maximum(y)) => match x.compare(y) {
                core::cmp::Ordering::Less => MaxKey::Maximum(y.clone_key()),
                _ => MaxKey::Maximum(x.clone_key()),
            },
        }
    }

    /// Whether two maxima are the same.
    pub fn same_as(&self, other: &Self) -> (r: bool)
        ensures
            r == (*self == *other),
    {
        match (self, other) {
            (MaxKey::NegativeInfinity, MaxKey::NegativeInfinity) => true,
            (MaxKey::Maximum(a), MaxKey::Maximum(b)) => crate::key::same_key(a, b),
            _ => false,
        }
    }

    /// An equal copy.
    pub fn clone_max(&self) -> (r: Self)
        ensures
            r == *self,
    {
        match self {
            MaxKey::NegativeInfinity => MaxKey::NegativeInfinity,
            MaxKey::Maximum(m) => MaxKey::Maximum(m.clone_key()),
        }
    }
}

/// What the tree asks of an annotation: a cardinality facet and a maximum-key
/// facet, each computed from a leaf, from nothing, or from the annotations of
/// two children alone.
///
/// An annotation may carry further facets of its own; the tree only relies
/// on these two.
pub trait MapAnnotation<K: MapKey, V>: Sized {
    /// Number of leaves of the annotated subtree.
    spec fn size_facet(&self) -> nat;

    /// Largest key of the annotated subtree.
    spec fn max_facet(&self) -> MaxKey<K>;

    /// Annotation of the empty subtree.
    fn identity() -> (r: Self)
        ensures
            r.size_facet() == 0,
            r.max_facet() == MaxKey::<K>::NegativeInfinity,
    ;

    /// Annotation of a subtree made of one leaf.
    fn from_leaf(leaf: &Leaf<K, V>) -> (r: Self)
        ensures
            r.size_facet() == 1,
            r.max_facet() == MaxKey::Maximum(leaf@.0),
    ;

    /// Annotation of a node, from the annotations of its two children.
    fn combine(left: &Self, right: &Self) -> (r: Self)
        requires
            left.size_facet() + right.size_facet() <= u64::MAX,
        ensures
            r.size_facet() == left.size_facet() + right.size_facet(),
            r.max_facet() == left.max_facet().join(right.max_facet()),
    ;

    /// The cardinality facet, which always fits in a `u64`.
    fn cardinality(&self) -> (r: u64)
        ensures
            r == self.size_facet(),
    ;

    /// The maximum-key facet.
    fn max_key(&self) -> (r: &MaxKey<K>)
        ensures
            *r == self.max_facet(),
    ;
}

/// The annotation made of the two facets that the tree needs and nothing
/// else.
pub struct MapAnnotationDefault<K> {
    cardinality: u64,
    max: MaxKey<K>,
}

impl<K: MapKey, V> MapAnnotation<K, V> for MapAnnotationDefault<K> {
    closed spec fn size_facet(&self) -> nat {
        self.cardinality as nat
    }

    closed spec fn max_facet(&self) -> MaxKey<K> {
        self.max
    }

    fn identity() -> (r: Self) {
        MapAnnotationDefault { cardinality: 0, max: MaxKey::NegativeInfinity }
    }

    fn from_leaf(leaf: &Leaf<K, V>) -> (r: Self) {
        MapAnnotationDefault { cardinality: 1, max: MaxKey::Maximum(leaf._key().clone_key()) }
    }

    fn combine(left: &Self, right: &Self) -> (r: Self) {
        MapAnnotationDefault {
            cardinality: left.cardinality + right.cardinality,
            max: MaxKey::max_of(&left.max, &right.max),
        }
    }

    fn cardinality(&self) -> (r: u64) {
        self.cardinality
    }

    fn max_key(&self) -> (r: &MaxKey<K>) {
        &self.max
    }
}

} // verus!
