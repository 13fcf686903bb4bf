//! An ordered key-value map kept as a binary tree whose internal nodes cache
//! an annotation (subtree size and maximum key) of each child.
//!
//! Descent only ever reads the cached maximum key of the left child, and a
//! naive one-leaf rebalance at the start of every mutation keeps the two
//! halves of the root within two leaves of each other.
use vstd::prelude::*;

mod annotation;
mod key;
mod laws;
mod leaf;
mod map;
mod walk;

pub use annotation::{MapAnnotation, MapAnnotationDefault, MaxKey};
pub use key::MapKey;
pub use laws::{
    apply_op, apply_ops, last_write, law_last_write_wins, law_len_counts_live_keys, law_remove_idempotent,
    law_round_trip, law_write_is_insert, live_keys, touches, MapOp,
};
pub use leaf::Leaf;
pub use map::{lookup, routed, KelvinMap, MapError, NodeRef};
pub use walk::{BinaryWalker, Child, Step, Walker};

verus! {

/// The map with the annotation of the two facets that the tree needs.
pub type DefaultMap<K, V> = KelvinMap<K, V, MapAnnotationDefault<K>>;

} // verus!
