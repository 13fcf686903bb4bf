use vstd::prelude::*;

use core::cmp::Ordering;

verus! {

/// A totally ordered key.
///
/// The order is given by an embedding of the keys into the integers: `rank`
/// is injective, and `compare` orders two keys as their ranks.
pub trait MapKey: Sized {
    /// Position of the key in the total order.
    spec fn rank(&self) -> int;

    /// Two keys of the same rank are the same key.
    proof fn lemma_rank_injective(a: Self, b: Self)
        requires
            a.rank() == b.rank(),
        ensures
            a == b,
    ;

    /// Three-way comparison of two keys.
    fn compare(&self, other: &Self) -> (r: Ordering)
        ensures
            r == Ordering::Less <==> self.rank() < other.rank(),
            r == Ordering::Equal <==> self.rank() == other.rank(),
            r == Ordering::Greater <==> self.rank() > other.rank(),
    ;

    /// An equal copy of the key.
    fn clone_key(&self) -> (r: Self)
        ensures
            r == *self,
    ;
}

/// Whether two keys are the same key.
pub fn same_key<K: MapKey>(a: &K, b: &K) -> (r: bool)
    ensures
        r == (*a == *b),
{
    match a.compare(b) {
        Ordering::Equal => {
            proof {
                K::lemma_rank_injective(*a, *b);
            }
            true
        },
        _ => false,
    }
}

impl MapKey for u8 {
    open spec fn rank(&self) -> int {
        *self as int
    }

    proof fn lemma_rank_injective(a: Self, b: Self) {
    }

    fn compare(&self, other: &Self) -> (r: Ordering) {
        if *self < *other {
            Ordering::Less
        } else if *self == *other {
            Ordering::Equal
        } else {
            Ordering::Greater
        }
    }

    fn clone_key(&self) -> (r: Self) {
        *self
    }
}


impl MapKey for u16 {
    open spec fn rank(&self) -> int {
        *self as int
    }

    proof fn lemma_rank_injective(a: Self, b: Self) {
    }

    fn compare(&self, other: &Self) -> (r: Ordering) {
        if *self < *other {
            Ordering::Less
        } else if *self == *other {
            Ordering::Equal
        } else {
            Ordering::Greater
        }
    }

    fn clone_key(&self) -> (r: Self) {
        *self
    }
}

impl MapKey for u32 {
    open spec fn rank(&self) -> int {
        *self as int
    }

    proof fn lemma_rank_injective(a: Self, b: Self) {
    }

    fn compare(&self, other: &Self) -> (r: Ordering) {
        if *self < *other {
            Ordering::Less
        } else if *self == *other {
            Ordering::Equal
        } else {
            Ordering::Greater
        }
    }

    fn clone_key(&self) -> (r: Self) {
        *self
    }
}

impl MapKey for u64 {
    open spec fn rank(&self) -> int {
        *self as int
    }

    proof fn lemma_rank_injective(a: Self, b: Self) {
    }

    fn compare(&self, other: &Self) -> (r: Ordering) {
        if *self < *other {
            Ordering::Less
        } else if *self == *other {
            Ordering::Equal
        } else {
            Ordering::Greater
        }
    }

    fn clone_key(&self) -> (r: Self) {
        *self
    }
}

impl MapKey for u128 {
    open spec fn rank(&self) -> int {
        *self as int
    }

    proof fn lemma_rank_injective(a: Self, b: Self) {
    }

    fn compare(&self, other: &Self) -> (r: Ordering) {
        if *self < *other {
            Ordering::Less
        } else if *self == *other {
            Ordering::Equal
        } else {
            Ordering::Greater
        }
    }

    fn clone_key(&self) -> (r: Self) {
        *self
    }
}

impl MapKey for usize {
    open spec fn rank(&self) -> int {
        *self as int
    }

    proof fn lemma_rank_injective(a: Self, b: Self) {
    }

    fn compare(&self, other: &Self) -> (r: Ordering) {
        if *self < *other {
            Ordering::Less
        } else if *self == *other {
            Ordering::Equal
        } else {
            Ordering::Greater
        }
    }

    fn clone_key(&self) -> (r: Self) {
        *self
    }
}

impl MapKey for i8 {
    open spec fn rank(&self) -> int {
        *self as int
    }

    proof fn lemma_rank_injective(a: Self, b: Self) {
    }

    fn compare(&self, other: &Self) -> (r: Ordering) {
        if *self < *other {
            Ordering::Less
        } else if *self == *other {
            Ordering::Equal
        } else {
            Ordering::Greater
        }
    }

    fn clone_key(&self) -> (r: Self) {
        *self
    }
}

impl MapKey for i16 {
    open spec fn rank(&self) -> int {
        *self as int
    }

    proof fn lemma_rank_injective(a: Self, b: Self) {
    }

    fn compare(&self, other: &Self) -> (r: Ordering) {
        if *self < *other {
            Ordering::Less
        } else if *self == *other {
            Ordering::Equal
        } else {
            Ordering::Greater
        }
    }

    fn clone_key(&self) -> (r: Self) {
        *self
    }
}

impl MapKey for i32 {
    open spec fn rank(&self) -> int {
        *self as int
    }

    proof fn lemma_rank_injective(a: Self, b: Self) {
    }

    fn compare(&self, other: &Self) -> (r: Ordering) {
        if *self < *other {
            Ordering::Less
        } else if *self == *other {
            Ordering::Equal
        } else {
            Ordering::Greater
        }
    }

    fn clone_key(&self) -> (r: Self) {
        *self
    }
}

impl MapKey for i64 {
    open spec fn rank(&self) -> int {
        *self as int
    }

    proof fn lemma_rank_injective(a: Self, b: Self) {
    }

    fn compare(&self, other: &Self) -> (r: Ordering) {
        if *self < *other {
            Ordering::Less
        } else if *self == *other {
            Ordering::Equal
        } else {
            Ordering::Greater
        }
    }

    fn clone_key(&self) -> (r: Self) {
        *self
    }
}

impl MapKey for i128 {
    open spec fn rank(&self) -> int {
        *self as int
    }

    proof fn lemma_rank_injective(a: Self, b: Self) {
    }

    fn compare(&self, other: &Self) -> (r: Ordering) {
        if *self < *other {
            Ordering::Less
        } else if *self == *other {
            Ordering::Equal
        } else {
            Ordering::Greater
        }
    }

    fn clone_key(&self) -> (r: Self) {
        *self
    }
}

impl MapKey for isize {
    open spec fn rank(&self) -> int {
        *self as int
    }

    proof fn lemma_rank_injective(a: Self, b: Self) {
    }

    fn compare(&self, other: &Self) -> (r: Ordering) {
        if *self < *other {
            Ordering::Less
        } else if *self == *other {
            Ordering::Equal
        } else {
            Ordering::Greater
        }
    }

    fn clone_key(&self) -> (r: Self) {
        *self
    }
}

} // verus!
