use vstd::prelude::*;

verus! {

/// One key -> value mapping, held as a leaf of the tree.
///
/// The key is fixed once the leaf is made; only the value can be changed.
pub struct Leaf<K, V> {
    key: K,
    value: V,
}

impl<K, V> View for Leaf<K, V> {
    type V = (K, V);

    closed spec fn view(&self) -> (K, V) {
        (self.key, self.value)
    }
}

impl<K, V> Leaf<K, V> {
    /// A leaf mapping `key` to `value`.
    pub fn new(key: K, value: V) -> (r: Self)
        ensures
            r@ == (key, value),
    {
        Self { key, value }
    }

    /// Stored key of the mapping.
    pub fn _key(&self) -> (r: &K)
        ensures
            *r == self@.0,
    {
        &self.key
    }

    /// Stored value of the mapping.
    pub fn value(&self) -> (r: &V)
        ensures
            *r == self@.1,
    {
        &self.value
    }

    /// Mutable reference to the stored value; the key stays as it is.
    pub fn value_mut(&mut self) -> (r: &mut V)
        ensures
            *r == old(self)@.1,
            final(self)@ == (old(self)@.0, *final(r)),
    {
        &mut self.value
    }

    /// The key and the value, taken apart.
    pub fn into_parts(self) -> (r: (K, V))
        ensures
            r == self@,
    {
        (self.key, self.value)
    }
}

} // verus!
