//! Walking a window of the address space: range queries and full traversal.

use crate::entry::BumpyEntry;
use crate::vector::BumpyVector;
use vstd::prelude::*;

verus! {

/// The item that a walk emits for an undefined offset: no payload, one slot.
pub open spec fn placeholder<'a, T>(offset: int) -> BumpyEntry<Option<&'a T>> {
    BumpyEntry { entry: None, index: offset as usize, size: 1 }
}

/// Whether the spans of `items` follow one another from `from` on without a
/// gap or an overlap: the first starts at `from`, each next one where the one
/// before it ends, and each occupies at least one offset.
pub open spec fn chained<T>(items: Seq<BumpyEntry<T>>, from: int) -> bool {
    forall|j: int|
        0 <= j < items.len() ==> (#[trigger] items[j]).size >= 1 && items[j].index == (if j == 0 {
            from
        } else {
            items[j - 1].end()
        })
}

/// Whether the spans of `items` tile `[lo, hi)` exactly: they follow one
/// another from `lo` on and the last one ends at `hi`. Nothing tiles an empty
/// interval but the empty sequence.
pub open spec fn tiles<T>(items: Seq<BumpyEntry<T>>, lo: int, hi: int) -> bool {
    &&& chained(items, lo)
    &&& if lo < hi {
        items.len() > 0 && items.last().end() == hi
    } else {
        items.len() == 0
    }
}

impl<T> BumpyVector<T> {
    /// Where a walk asked to begin at `start` really begins: at the start of
    /// the entry that covers `start`, or at `start` itself if none does.
    pub open spec fn walk_start(self, start: usize) -> int {
        match self.resolve(start) {
            Some(k) => k as int,
            None => start as int,
        }
    }

    /// Where a walk over `length` offsets from `start` stops looking for
    /// items: at `start + length` or at the bound, whichever comes first.
    pub open spec fn walk_end(self, start: usize, length: usize) -> int {
        if start + length <= self.bound() {
            start + length
        } else {
            self.bound() as int
        }
    }

    /// The items of a walk that stands at offset `i` and stops at `end`.
    ///
    /// An entry that starts at `i` is emitted whole and the walk jumps past it,
    /// even where it reaches beyond `end`. An offset where no entry starts is
    /// emitted as a placeholder if `include_empty` is set, and the walk moves on
    /// by one. (An entry of size zero, which no well-formed index holds, would
    /// end the walk.)
    pub open spec fn spans<'a>(&'a self, i: int, end: int, include_empty: bool) -> Seq<
        BumpyEntry<Option<&'a T>>,
    >
        decreases
            (if i < end {
                end - i
            } else {
                0
            }),
    {
        if i < 0 || i >= end {
            Seq::empty()
        } else if self@.contains_key(i as usize) {
            let e = self@[i as usize];
            if e.size >= 1 {
                seq![e.defined()] + self.spans(i + e.size, end, include_empty)
            } else {
                Seq::empty()
            }
        } else if include_empty {
            seq![placeholder(i)] + self.spans(i + 1, end, include_empty)
        } else {
            self.spans(i + 1, end, include_empty)
        }
    }

    /// The result of a range query for `length` offsets from `start`.
    pub open spec fn range<'a>(&'a self, start: usize, length: usize, include_empty: bool) -> Seq<
        BumpyEntry<Option<&'a T>>,
    > {
        self.spans(self.walk_start(start), self.walk_end(start, length), include_empty)
    }

    /// The items of a full traversal: a range query over the whole address
    /// space, with placeholders if the index is set to report them.
    pub open spec fn traversal<'a>(&'a self) -> Seq<BumpyEntry<Option<&'a T>>> {
        self.range(0, self.bound(), self.traverses_empty())
    }

    /// Whether some stored entry begins before `offset` and ends beyond it.
    pub open spec fn straddled(self, offset: int) -> bool {
        exists|k: usize| self@.contains_key(k) && k < offset < (#[trigger] self@[k]).end()
    }

    /// Whether `item` is what a walk over `[lo, hi)` reports for the offset
    /// that the item names: the entry that starts there, or, with
    /// placeholders, a placeholder where no entry covers that offset.
    pub open spec fn reports(
        self,
        item: BumpyEntry<Option<&T>>,
        lo: int,
        hi: int,
        include_empty: bool,
    ) -> bool {
        &&& lo <= item.index < hi
        &&& if self@.contains_key(item.index) {
            item == self@[item.index].defined()
        } else {
            include_empty && item == placeholder::<T>(item.index as int) && self.resolve(
                item.index,
            ) is None
        }
    }

    /// Whether `items` is the full account of `[lo, hi)`: in ascending order,
    /// every entry that starts within `[lo, hi)` and, with placeholders, a
    /// placeholder for every offset of `[lo, hi)` that no entry covers, and
    /// nothing else.
    pub open spec fn accounts_for(
        self,
        items: Seq<BumpyEntry<Option<&T>>>,
        lo: int,
        hi: int,
        include_empty: bool,
    ) -> bool {
        &&& forall|j: int|
            0 <= j < items.len() ==> self.reports(#[trigger] items[j], lo, hi, include_empty)
        &&& forall|k: usize|
            lo <= k < hi && #[trigger] self@.contains_key(k) ==> exists|j: int|
                0 <= j < items.len() && (#[trigger] items[j]).index == k
        &&& include_empty ==> forall|o: usize|
            lo <= o < hi && (#[trigger] self.resolve(o)) is None ==> exists|j: int|
                0 <= j < items.len() && (#[trigger] items[j]).index == o
        &&& forall|j: int, l: int|
            0 <= j < l < items.len() ==> (#[trigger] items[j]).index < (#[trigger] items[l]).index
    }

    /// The entries within `length` offsets from `start`, in ascending order,
    /// beginning with the entry that covers `start` even if it starts before
    /// it. With `include_empty`, each undefined offset in between is reported
    /// as a placeholder.
    pub fn get_range(&self, start: usize, length: usize, include_empty: bool) -> (r: Vec<
        BumpyEntry<Option<&T>>,
    >)
        requires
            self.wf(),
        ensures
            r@ == self.range(start, length, include_empty),
            self.accounts_for(
                r@,
                self.walk_start(start),
                self.walk_end(start, length),
                include_empty,
            ),
            include_empty ==> chained(r@, self.walk_start(start)),
    {
        let mut result: Vec<BumpyEntry<Option<&T>>> = Vec::new();
        let max = self.max_size();
        let end: usize = if start >= max || length >= max - start {
            max
        } else {
            start + length
        };
        let mut i: usize = match self.get_entry_start(start) {
            Some(e) => e,
            None => start,
        };
        while i < end
            invariant
                self.wf(),
                end <= self.bound(),
                result@ + self.spans(i as int, end as int, include_empty) == self.spans(
                    self.walk_start(start),
                    end as int,
                    include_empty,
                ),
            decreases self.bound() - i,
        {
            let ghost before = result@;
            let ghost here = i;
            match self.get_exact(i) {
                Some(e) => {
                    result.push(BumpyEntry { entry: Some(e.entry), index: i, size: e.size });
                    i += e.size;
                },
                None => {
                    if include_empty {
                        result.push(BumpyEntry { entry: None, index: i, size: 1 });
                    }
                    i += 1;
                },
            }
            assert(result@ + self.spans(i as int, end as int, include_empty) =~= before
                + self.spans(here as int, end as int, include_empty));
        }
        proof {
            self.lemma_range_accounts(start, length, include_empty);
            self.lemma_range_chained(start, length);
        }
        result
    }
}

} // verus!
