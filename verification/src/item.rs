//! The item values that name columns.
//!
//! Rows may be given by item value, which takes deciding equality of two
//! values, and solutions carry copies of item names. The `Item` trait asks a
//! type for both: a decidable equality with a specification-level meaning,
//! and an exact copy.

use vstd::prelude::*;

verus! {

/// An item value: a column name that can be compared and copied exactly.
pub trait Item: Sized {
    /// What it means for two item values to be the same item.
    spec fn eqv(self, other: Self) -> bool;

    /// Decides [`Item::eqv`].
    fn same(&self, other: &Self) -> (r: bool)
        ensures
            r == self.eqv(*other),
    ;

    /// An exact copy of the value.
    fn duplicate(&self) -> (r: Self)
        ensures
            r == *self,
    ;
}

impl Item for usize {
    open spec fn eqv(self, other: usize) -> bool {
        self == other
    }

    fn same(&self, other: &usize) -> bool {
        *self == *other
    }

    fn duplicate(&self) -> usize {
        *self
    }
}

impl Item for u64 {
    open spec fn eqv(self, other: u64) -> bool {
        self == other
    }

    fn same(&self, other: &u64) -> bool {
        *self == *other
    }

    fn duplicate(&self) -> u64 {
        *self
    }
}

impl Item for u32 {
    open spec fn eqv(self, other: u32) -> bool {
        self == other
    }

    fn same(&self, other: &u32) -> bool {
        *self == *other
    }

    fn duplicate(&self) -> u32 {
        *self
    }
}

impl Item for i32 {
    open spec fn eqv(self, other: i32) -> bool {
        self == other
    }

    fn same(&self, other: &i32) -> bool {
        *self == *other
    }

    fn duplicate(&self) -> i32 {
        *self
    }
}

impl Item for String {
    open spec fn eqv(self, other: String) -> bool {
        self@ == other@
    }

    fn same(&self, other: &String) -> bool {
        self.eq(other)
    }

    fn duplicate(&self) -> String {
        self.clone()
    }
}

} // verus!
