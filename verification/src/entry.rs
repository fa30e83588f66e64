//! A single entry: a payload, the offset it starts at and the number of
//! consecutive offsets it occupies.

use vstd::prelude::*;
use vstd::std_specs::convert::FromSpecImpl;

verus! {

/// A payload of type `T` placed at `index` and occupying `size` offsets.
#[derive(Debug)]
pub struct BumpyEntry<T> {
    pub entry: T,
    pub index: usize,
    pub size: usize,
}

impl<T> BumpyEntry<T> {
    /// The first offset past the entry, as a mathematical integer.
    pub open spec fn end(self) -> int {
        self.index + self.size
    }

    /// Whether `offset` lies within the span `[index, index + size)`.
    pub open spec fn covers(self, offset: int) -> bool {
        self.index <= offset < self.end()
    }

    /// Whether the entry's span and `[lo, hi)` have an offset in common.
    pub open spec fn meets(self, lo: int, hi: int) -> bool {
        self.index < self.end() && lo < hi && self.index < hi && lo < self.end()
    }

    /// The same entry with its payload borrowed: what a point query hands out.
    pub open spec fn shared(&self) -> BumpyEntry<&T> {
        BumpyEntry { entry: &self.entry, index: self.index, size: self.size }
    }

    /// The same entry as an item of a range walk: its payload borrowed and
    /// marked as present.
    pub open spec fn defined(&self) -> BumpyEntry<Option<&T>> {
        BumpyEntry { entry: Some(&self.entry), index: self.index, size: self.size }
    }

    /// Whether the spans of `self` and `other` have no offset in common.
    pub open spec fn disjoint_from<U>(self, other: BumpyEntry<U>) -> bool {
        self.end() <= other.index || other.end() <= self.index
    }
}

impl<T: Default> Default for BumpyEntry<T> {
    /// The default payload at offset zero, occupying nothing. No index admits
    /// it as it stands.
    fn default() -> (e: Self)
        ensures
            e.index == 0,
            e.size == 0,
    {
        BumpyEntry { entry: T::default(), index: 0, size: 0 }
    }
}

impl<T> From<(T, usize, usize)> for BumpyEntry<T> {
    /// Builds an entry from a `(payload, index, size)` triple.
    fn from(o: (T, usize, usize)) -> (e: Self) {
        BumpyEntry { entry: o.0, index: o.1, size: o.2 }
    }
}

impl<T> FromSpecImpl<(T, usize, usize)> for BumpyEntry<T> {
    open spec fn obeys_from_spec() -> bool {
        true
    }

    open spec fn from_spec(o: (T, usize, usize)) -> Self {
        BumpyEntry { entry: o.0, index: o.1, size: o.2 }
    }
}

} // verus!
