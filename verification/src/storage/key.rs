//! Keys of the ordered index: a strict total order with an executable
//! comparison, for the integer and integer-tuple keys the stores use.

use vstd::prelude::*;

verus! {

/// A key type ordered by a strict total order.
pub trait BKey: Sized {
    /// `self` comes strictly before `other`.
    spec fn precedes(self, other: Self) -> bool;

    /// The order is irreflexive, transitive and total.
    proof fn lemma_strict_total(a: Self, b: Self, c: Self)
        ensures
            !a.precedes(a),
            a.precedes(b) && b.precedes(c) ==> a.precedes(c),
            a.precedes(b) || a == b || b.precedes(a),
    ;

    /// Whether `self` comes strictly before `other`.
    fn key_lt(&self, other: &Self) -> (r: bool)
        ensures
            r == self.precedes(*other),
    ;

    /// Whether the two keys are equal.
    fn key_eq(&self, other: &Self) -> (r: bool)
        ensures
            r == (*self == *other),
    ;

    /// A copy of the key.
    fn key_copy(&self) -> (r: Self)
        ensures
            r == *self,
    ;
}

impl BKey for u16 {
    open spec fn precedes(self, other: Self) -> bool {
        self < other
    }

    proof fn lemma_strict_total(a: Self, b: Self, c: Self) {
    }

    fn key_lt(&self, other: &Self) -> (r: bool) {
        *self < *other
    }

    fn key_eq(&self, other: &Self) -> (r: bool) {
        *self == *other
    }

    fn key_copy(&self) -> (r: Self) {
        *self
    }
}

impl BKey for u32 {
    open spec fn precedes(self, other: Self) -> bool {
        self < other
    }

    proof fn lemma_strict_total(a: Self, b: Self, c: Self) {
    }

    fn key_lt(&self, other: &Self) -> (r: bool) {
        *self < *other
    }

    fn key_eq(&self, other: &Self) -> (r: bool) {
        *self == *other
    }

    fn key_copy(&self) -> (r: Self) {
        *self
    }
}

impl BKey for u64 {
    open spec fn precedes(self, other: Self) -> bool {
        self < other
    }

    proof fn lemma_strict_total(a: Self, b: Self, c: Self) {
    }

    fn key_lt(&self, other: &Self) -> (r: bool) {
        *self < *other
    }

    fn key_eq(&self, other: &Self) -> (r: bool) {
        *self == *other
    }

    fn key_copy(&self) -> (r: Self) {
        *self
    }
}

impl BKey for u128 {
    open spec fn precedes(self, other: Self) -> bool {
        self < other
    }

    proof fn lemma_strict_total(a: Self, b: Self, c: Self) {
    }

    fn key_lt(&self, other: &Self) -> (r: bool) {
        *self < *other
    }

    fn key_eq(&self, other: &Self) -> (r: bool) {
        *self == *other
    }

    fn key_copy(&self) -> (r: Self) {
        *self
    }
}

impl BKey for (u64, u128) {
    open spec fn precedes(self, other: Self) -> bool {
        self.0 < other.0 || (self.0 == other.0 && self.1 < other.1)
    }

    proof fn lemma_strict_total(a: Self, b: Self, c: Self) {
    }

    fn key_lt(&self, other: &Self) -> (r: bool) {
        self.0 < other.0 || (self.0 == other.0 && self.1 < other.1)
    }

    fn key_eq(&self, other: &Self) -> (r: bool) {
        self.0 == other.0 && self.1 == other.1
    }

    fn key_copy(&self) -> (r: Self) {
        (self.0, self.1)
    }
}

impl BKey for (u64, i64) {
    open spec fn precedes(self, other: Self) -> bool {
        self.0 < other.0 || (self.0 == other.0 && self.1 < other.1)
    }

    proof fn lemma_strict_total(a: Self, b: Self, c: Self) {
    }

    fn key_lt(&self, other: &Self) -> (r: bool) {
        self.0 < other.0 || (self.0 == other.0 && self.1 < other.1)
    }

    fn key_eq(&self, other: &Self) -> (r: bool) {
        self.0 == other.0 && self.1 == other.1
    }

    fn key_copy(&self) -> (r: Self) {
        (self.0, self.1)
    }
}

impl BKey for (i64, u128) {
    open spec fn precedes(self, other: Self) -> bool {
        self.0 < other.0 || (self.0 == other.0 && self.1 < other.1)
    }

    proof fn lemma_strict_total(a: Self, b: Self, c: Self) {
    }

    fn key_lt(&self, other: &Self) -> (r: bool) {
        self.0 < other.0 || (self.0 == other.0 && self.1 < other.1)
    }

    fn key_eq(&self, other: &Self) -> (r: bool) {
        self.0 == other.0 && self.1 == other.1
    }

    fn key_copy(&self) -> (r: Self) {
        (self.0, self.1)
    }
}

impl BKey for (u128, u128) {
    open spec fn precedes(self, other: Self) -> bool {
        self.0 < other.0 || (self.0 == other.0 && self.1 < other.1)
    }

    proof fn lemma_strict_total(a: Self, b: Self, c: Self) {
    }

    fn key_lt(&self, other: &Self) -> (r: bool) {
        self.0 < other.0 || (self.0 == other.0 && self.1 < other.1)
    }

    fn key_eq(&self, other: &Self) -> (r: bool) {
        self.0 == other.0 && self.1 == other.1
    }

    fn key_copy(&self) -> (r: Self) {
        (self.0, self.1)
    }
}

impl BKey for (u64, u64, u64) {
    open spec fn precedes(self, other: Self) -> bool {
        self.0 < other.0 || (self.0 == other.0 && (self.1 < other.1 || (self.1 == other.1
            && self.2 < other.2)))
    }

    proof fn lemma_strict_total(a: Self, b: Self, c: Self) {
    }

    fn key_lt(&self, other: &Self) -> (r: bool) {
        self.0 < other.0 || (self.0 == other.0 && (self.1 < other.1 || (self.1 == other.1
            && self.2 < other.2)))
    }

    fn key_eq(&self, other: &Self) -> (r: bool) {
        self.0 == other.0 && self.1 == other.1 && self.2 == other.2
    }

    fn key_copy(&self) -> (r: Self) {
        (self.0, self.1, self.2)
    }
}

} // verus!
