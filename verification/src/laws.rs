//! What holds of every well-formed index, proved from the definitions that
//! the contracts of its operations use.

use crate::range::{chained, placeholder, tiles};
use crate::vector::BumpyVector;
use vstd::prelude::*;

verus! {

impl<T> BumpyVector<T> {
    /// No offset is covered by two stored entries.
    pub proof fn lemma_entries_do_not_overlap(self, j: usize, k: usize, offset: int)
        requires
            self.wf(),
            self@.contains_key(j),
            self@.contains_key(k),
            j != k,
        ensures
            !(self@[j].covers(offset) && self@[k].covers(offset)),
    {
        assert(self@[j].disjoint_from(self@[k]));
    }

    /// Every stored entry occupies at least one offset and lies within
    /// `[0, bound)`.
    pub proof fn lemma_entries_within_bound(self, k: usize)
        requires
            self.wf(),
            self@.contains_key(k),
        ensures
            self@[k].index == k,
            self@[k].size >= 1,
            self@[k].index + self@[k].size <= self.bound(),
    {
    }

    /// An offset at or beyond the bound is covered by no entry.
    pub proof fn lemma_nothing_beyond_bound(self, offset: usize)
        requires
            self.wf(),
            offset >= self.bound(),
        ensures
            self.resolve(offset) is None,
            self.covering(offset) is None,
    {
    }

    /// Whichever offsets within the span of a stored entry are looked up, the
    /// lookup finds that entry.
    pub proof fn lemma_same_entry_within_span(self, k: usize, i: usize, j: usize)
        requires
            self.wf(),
            self@.contains_key(k),
            self@[k].covers(i as int),
            self@[k].covers(j as int),
        ensures
            self.covering(i) == Some(self@[k]),
            self.covering(j) == self.covering(i),
    {
        self.lemma_resolve_is(i, k);
        self.lemma_resolve_is(j, k);
    }

    /// A lookup at an offset finds an entry exactly if some stored entry
    /// covers the offset, and then finds an entry that does.
    pub proof fn lemma_covering_iff_covered(self, offset: usize)
        requires
            self.wf(),
        ensures
            self.covering(offset) is Some <==> exists|k: usize|
                self@.contains_key(k) && self@[k].covers(offset as int),
            self.covering(offset) matches Some(e) ==> e.covers(offset as int) && self@.contains_key(
                e.index,
            ) && self@[e.index] == e,
    {
    }

    /// With placeholders, the items of a walk from `i` follow one another
    /// without a gap or an overlap, and reach `end`: the last one begins
    /// before `end` and ends at or beyond it.
    pub proof fn lemma_spans_chained(self, i: int, end: int)
        requires
            self.wf(),
            0 <= i,
            end <= self.bound(),
        ensures
            chained(self.spans(i, end, true), i),
            i < end ==> self.spans(i, end, true).len() > 0 && self.spans(i, end, true).last().index
                < end <= self.spans(i, end, true).last().end(),
            i >= end ==> self.spans(i, end, true).len() == 0,
        decreases
            (if i < end {
                end - i
            } else {
                0
            }),
    {
        if i < end {
            let items = self.spans(i, end, true);
            let next = if self@.contains_key(i as usize) {
                i + self@[i as usize].size
            } else {
                i + 1
            };
            let rest = self.spans(next, end, true);
            self.lemma_spans_chained(next, end);
            assert(items.len() == rest.len() + 1);
            assert(items[0].index == i && items[0].end() == next);
            assert forall|j: int| 1 <= j < items.len() implies #[trigger] items[j] == rest[j - 1] by {
            }
            assert(chained(items, i)) by {
                assert forall|j: int| 0 <= j < items.len() implies (#[trigger] items[j]).size >= 1
                    && items[j].index == (if j == 0 {
                    i
                } else {
                    items[j - 1].end()
                }) by {
                    if j >= 1 {
                        assert(items[j] == rest[j - 1]);
                        if j >= 2 {
                            assert(items[j - 1] == rest[j - 2]);
                        }
                    }
                }
            }
            if next < end {
                assert(items.last() == rest.last());
            }
        }
    }

    /// With placeholders, the items of a walk from `i` tile `[i, end)` exactly
    /// if no stored entry straddles `end`.
    pub proof fn lemma_spans_tile(self, i: int, end: int)
        requires
            self.wf(),
            0 <= i,
            end <= self.bound(),
            !self.straddled(end),
        ensures
            tiles(self.spans(i, end, true), i, end),
        decreases
            (if i < end {
                end - i
            } else {
                0
            }),
    {
        self.lemma_spans_chained(i, end);
        if i < end {
            let items = self.spans(i, end, true);
            let next = if self@.contains_key(i as usize) {
                i + self@[i as usize].size
            } else {
                i + 1
            };
            let rest = self.spans(next, end, true);
            self.lemma_spans_tile(next, end);
            assert(items.len() == rest.len() + 1);
            if next < end {
                assert(items.last() == rest.last());
            } else {
                assert(items.last().end() == next);
            }
        }
    }

    /// With placeholders, the items of a range query follow one another
    /// without a gap or an overlap from where the walk begins, and reach the
    /// end of the window: the last one begins before it and ends at or beyond
    /// it. Where the walk would begin at or after the end of the window, the
    /// query finds nothing.
    pub proof fn lemma_range_chained(self, start: usize, length: usize)
        requires
            self.wf(),
        ensures
            chained(self.range(start, length, true), self.walk_start(start)),
            self.walk_start(start) < self.walk_end(start, length) ==> self.range(
                start,
                length,
                true,
            ).len() > 0 && self.range(start, length, true).last().index < self.walk_end(
                start,
                length,
            ) <= self.range(start, length, true).last().end(),
            self.walk_start(start) >= self.walk_end(start, length) ==> self.range(
                start,
                length,
                true,
            ).len() == 0,
    {
        self.lemma_spans_chained(self.walk_start(start), self.walk_end(start, length));
    }

    /// With placeholders, the items of a range query tile exactly the offsets
    /// from where the walk begins to the end of the window, provided that no
    /// stored entry straddles that end. (An entry that does is emitted whole,
    /// so the last item then ends beyond the window.)
    pub proof fn lemma_range_tiles(self, start: usize, length: usize)
        requires
            self.wf(),
            !self.straddled(self.walk_end(start, length)),
        ensures
            tiles(
                self.range(start, length, true),
                self.walk_start(start),
                self.walk_end(start, length),
            ),
    {
        self.lemma_spans_tile(self.walk_start(start), self.walk_end(start, length));
    }

    /// The items of a walk from `i`, where `i` is not inside an entry that
    /// starts before it, are the full account of `[i, end)`.
    pub proof fn lemma_spans_account(self, i: int, end: int, include_empty: bool)
        requires
            self.wf(),
            0 <= i,
            end <= self.bound(),
            !self.straddled(i),
        ensures
            self.accounts_for(self.spans(i, end, include_empty), i, end, include_empty),
        decreases
            (if i < end {
                end - i
            } else {
                0
            }),
    {
        if i < end {
            let at = i as usize;
            let items = self.spans(i, end, include_empty);
            let next = if self@.contains_key(at) {
                i + self@[at].size
            } else {
                i + 1
            };
            let rest = self.spans(next, end, include_empty);
            assert(!self.straddled(next)) by {
                if self.straddled(next) {
                    let k = choose|k: usize|
                        self@.contains_key(k) && k < next < (#[trigger] self@[k]).end();
                    if self@.contains_key(at) {
                        if k != at {
                            assert(self@[k].disjoint_from(self@[at]));
                        }
                    } else {
                        assert(k < i < self@[k].end());
                    }
                }
            }
            self.lemma_spans_account(next, end, include_empty);
            let shift: int = if self@.contains_key(at) || include_empty {
                1
            } else {
                0
            };
            assert(items.len() == rest.len() + shift);
            assert forall|j: int| shift <= j < items.len() implies #[trigger] items[j] == rest[j
                - shift] by {
            }
            if self@.contains_key(at) {
                assert(items[0] == self@[at].defined());
            } else {
                assert(self.resolve(at) is None) by {
                    if self.resolve(at) is Some {
                        let k = self.resolve(at)->Some_0;
                        assert(k < i < self@[k].end());
                    }
                }
                if include_empty {
                    assert(items[0] == placeholder::<T>(i));
                }
            }
            assert forall|j: int| 0 <= j < items.len() implies self.reports(
                #[trigger] items[j],
                i,
                end,
                include_empty,
            ) by {
                if j >= shift {
                    assert(items[j] == rest[j - shift]);
                    assert(self.reports(rest[j - shift], next, end, include_empty));
                }
            }
            assert forall|k: usize| i <= k < end && #[trigger] self@.contains_key(k) implies exists|
                j: int,
            |
                0 <= j < items.len() && (#[trigger] items[j]).index == k by {
                if k == at {
                    assert(items[0].index == k);
                } else {
                    if k < next {
                        assert(self@[k].disjoint_from(self@[at]));
                    }
                    let j = choose|j: int| 0 <= j < rest.len() && (#[trigger] rest[j]).index == k;
                    assert(items[j + shift] == rest[j]);
                }
            }
            if include_empty {
                assert forall|o: usize|
                    i <= o < end && (#[trigger] self.resolve(o)) is None implies exists|j: int|
                    0 <= j < items.len() && (#[trigger] items[j]).index == o by {
                    if o == at {
                        assert(items[0].index == o);
                    } else {
                        if o < next {
                            assert(self@[at].covers(o as int));
                            self.lemma_resolve_is(o, at);
                        }
                        let j = choose|j: int|
                            0 <= j < rest.len() && (#[trigger] rest[j]).index == o;
                        assert(items[j + shift] == rest[j]);
                    }
                }
            }
            assert forall|j: int, l: int| 0 <= j < l < items.len() implies (
            #[trigger] items[j]).index < (#[trigger] items[l]).index by {
                assert(items[l] == rest[l - shift]);
                assert(self.reports(rest[l - shift], next, end, include_empty));
                if j >= shift {
                    assert(items[j] == rest[j - shift]);
                }
            }
        }
    }

    /// A range query finds, in ascending order, every entry that starts
    /// between the beginning of the walk and the end of the window and, with
    /// placeholders, every offset in between that no entry covers, and
    /// nothing else.
    pub proof fn lemma_range_accounts(self, start: usize, length: usize, include_empty: bool)
        requires
            self.wf(),
        ensures
            self.accounts_for(
                self.range(start, length, include_empty),
                self.walk_start(start),
                self.walk_end(start, length),
                include_empty,
            ),
    {
        let from = self.walk_start(start);
        assert(!self.straddled(from)) by {
            if self.straddled(from) {
                let k = choose|k: usize|
                    self@.contains_key(k) && k < from < (#[trigger] self@[k]).end();
                match self.resolve(start) {
                    Some(c) => {
                        assert(self@[k].disjoint_from(self@[c]));
                    },
                    None => {
                        assert(self@[k].covers(start as int));
                    },
                }
            }
        }
        self.lemma_spans_account(from, self.walk_end(start, length), include_empty);
    }
}

} // verus!
