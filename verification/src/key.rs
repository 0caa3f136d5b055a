//! Keys that the trees can hold.
//!
//! A key type is totally ordered through an order-preserving, injective
//! embedding into the integers. Every comparison the trees make is a
//! comparison of ranks, so the ordering laws are those of `int`.

use vstd::prelude::*;

verus! {

/// A copyable key with a total order given by its integer rank.
pub trait OrderedKey: Copy + Sized {
    /// The position of the key in its order.
    spec fn rank(self) -> int;

    /// Two keys with the same rank are the same key.
    proof fn rank_is_injective(a: Self, b: Self)
        requires
            a.rank() == b.rank(),
        ensures
            a == b,
    ;

    /// `self < other` in the key order.
    fn less_than(&self, other: &Self) -> (r: bool)
        ensures
            r == (self.rank() < other.rank()),
    ;

    /// `self == other` in the key order.
    fn same_as(&self, other: &Self) -> (r: bool)
        ensures
            r == (self.rank() == other.rank()),
    ;
}

impl OrderedKey for i32 {
    open spec fn rank(self) -> int {
        self as int
    }

    proof fn rank_is_injective(a: Self, b: Self) {
    }

    fn less_than(&self, other: &Self) -> (r: bool) {
        *self < *other
    }

    fn same_as(&self, other: &Self) -> (r: bool) {
        *self == *other
    }
}

impl OrderedKey for i64 {
    open spec fn rank(self) -> int {
        self as int
    }

    proof fn rank_is_injective(a: Self, b: Self) {
    }

    fn less_than(&self, other: &Self) -> (r: bool) {
        *self < *other
    }

    fn same_as(&self, other: &Self) -> (r: bool) {
        *self == *other
    }
}

impl OrderedKey for u32 {
    open spec fn rank(self) -> int {
        self as int
    }

    proof fn rank_is_injective(a: Self, b: Self) {
    }

    fn less_than(&self, other: &Self) -> (r: bool) {
        *self < *other
    }

    fn same_as(&self, other: &Self) -> (r: bool) {
        *self == *other
    }
}

impl OrderedKey for u64 {
    open spec fn rank(self) -> int {
        self as int
    }

    proof fn rank_is_injective(a: Self, b: Self) {
    }

    fn less_than(&self, other: &Self) -> (r: bool) {
        *self < *other
    }

    fn same_as(&self, other: &Self) -> (r: bool) {
        *self == *other
    }
}

impl OrderedKey for usize {
    open spec fn rank(self) -> int {
        self as int
    }

    proof fn rank_is_injective(a: Self, b: Self) {
    }

    fn less_than(&self, other: &Self) -> (r: bool) {
        *self < *other
    }

    fn same_as(&self, other: &Self) -> (r: bool) {
        *self == *other
    }
}

/// A 32-bit pattern ordered as the binary32 number that it encodes: a
/// pattern with the sign bit set is below every pattern without it, and
/// among patterns with the sign bit set the greater magnitude is the lesser
/// key. Negative zero is just below positive zero.
#[derive(Clone, Copy, Debug)]
pub struct FloatKey {
    pub bits: u32,
}

impl FloatKey {
    /// The key with the given bit pattern.
    pub fn from_bits(bits: u32) -> (key: Self)
        ensures
            key.bits == bits,
    {
        FloatKey { bits }
    }

    /// The rank of the key as a machine integer.
    pub fn order_index(&self) -> (index: i64)
        ensures
            index == self.rank(),
    {
        if self.bits >= 0x8000_0000 {
            -((self.bits - 0x8000_0000) as i64) - 1
        } else {
            self.bits as i64
        }
    }
}

impl OrderedKey for FloatKey {
    open spec fn rank(self) -> int {
        if self.bits >= 0x8000_0000 {
            -(self.bits - 0x8000_0000) - 1
        } else {
            self.bits as int
        }
    }

    proof fn rank_is_injective(a: Self, b: Self) {
    }

    fn less_than(&self, other: &Self) -> (r: bool) {
        self.order_index() < other.order_index()
    }

    fn same_as(&self, other: &Self) -> (r: bool) {
        self.order_index() == other.order_index()
    }
}

/// `s` never steps down: each key's rank is at most the rank of every later key.
pub open spec fn non_decreasing<K: OrderedKey>(s: Seq<K>) -> bool {
    forall|i: int, j: int| 0 <= i < j < s.len() ==> s[i].rank() <= s[j].rank()
}

/// `s` steps up at every position: each key's rank is below the rank of every later key.
pub open spec fn increasing<K: OrderedKey>(s: Seq<K>) -> bool {
    forall|i: int, j: int| 0 <= i < j < s.len() ==> s[i].rank() < s[j].rank()
}

} // verus!
