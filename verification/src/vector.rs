//! The index itself: the entry table, the resolution of an offset to the
//! entry that covers it, and point queries.

use crate::entry::BumpyEntry;
use std::collections::HashMap;
use vstd::prelude::*;

verus! {

broadcast use vstd::std_specs::hash::group_hash_axioms;

/// A table of non-overlapping entries over the offsets `0..max_size`.
#[derive(Debug)]
pub struct BumpyVector<T> {
    /// The entries, each keyed by the offset it starts at.
    data: HashMap<usize, BumpyEntry<T>>,
    /// The exclusive upper bound of the address space.
    max_size: usize,
    /// Whether a full traversal reports undefined offsets as placeholders.
    pub iterate_over_empty: bool,
}

impl<T> View for BumpyVector<T> {
    type V = Map<usize, BumpyEntry<T>>;

    /// The stored entries, each under the offset it starts at.
    closed spec fn view(&self) -> Map<usize, BumpyEntry<T>> {
        self.data@
    }
}

impl<T> BumpyVector<T> {
    /// The bound of the address space, fixed at construction.
    pub closed spec fn bound(self) -> usize {
        self.max_size
    }

    /// Whether a full traversal reports undefined offsets as placeholders:
    /// the value of the field `iterate_over_empty`.
    pub closed spec fn traverses_empty(self) -> bool {
        self.iterate_over_empty
    }

    /// The invariant of the index: every entry is stored under its own start,
    /// occupies at least one offset, ends within the bound, and shares no
    /// offset with any other entry.
    pub open spec fn wf(self) -> bool {
        &&& self@.dom().finite()
        &&& forall|k: usize| #[trigger]
            self@.contains_key(k) ==> self@[k].index == k && self@[k].size >= 1 && self@[k].end()
                <= self.bound()
        &&& forall|j: usize, k: usize|
            self@.contains_key(j) && self@.contains_key(k) && j != k ==> (#[trigger] self@[j]).disjoint_from(
                #[trigger] self@[k],
            )
    }

    /// The start of the entry whose span covers `offset`, if there is one.
    /// In a well-formed index at most one entry does.
    pub open spec fn resolve(self, offset: usize) -> Option<usize> {
        if exists|k: usize| self@.contains_key(k) && self@[k].covers(offset as int) {
            Some(choose|k: usize| self@.contains_key(k) && self@[k].covers(offset as int))
        } else {
            None
        }
    }

    /// The entry whose span covers `offset`, if there is one.
    pub open spec fn covering(self, offset: usize) -> Option<BumpyEntry<T>> {
        match self.resolve(offset) {
            Some(k) => Some(self@[k]),
            None => None,
        }
    }

    /// An entry that covers `offset` is the one that `resolve` names.
    pub proof fn lemma_resolve_is(self, offset: usize, k: usize)
        requires
            self.wf(),
            self@.contains_key(k),
            self@[k].covers(offset as int),
        ensures
            self.resolve(offset) == Some(k),
    {
        let c = choose|c: usize| self@.contains_key(c) && self@[c].covers(offset as int);
        if c != k {
            assert(self@[c].disjoint_from(self@[k]));
        }
    }

    /// The starts of the stored entries whose spans reach into `[lo, hi)`.
    pub open spec fn starts_meeting(self, lo: int, hi: int) -> Set<usize> {
        Set::new(|k: usize| self@.contains_key(k) && self@[k].meets(lo, hi))
    }

    /// Whether `taken` lists exactly the stored entries that start at one of
    /// `starts`, each once, in ascending order of start.
    pub open spec fn lists_ascending(self, starts: Set<usize>, taken: Seq<BumpyEntry<T>>) -> bool {
        &&& forall|i: int|
            0 <= i < taken.len() ==> starts.contains((#[trigger] taken[i]).index) && taken[i]
                == self@[taken[i].index]
        &&& forall|k: usize| #[trigger]
            starts.contains(k) ==> exists|i: int|
                0 <= i < taken.len() && (#[trigger] taken[i]).index == k
        &&& forall|i: int, j: int|
            0 <= i < j < taken.len() ==> (#[trigger] taken[i]).index < (#[trigger] taken[j]).index
    }

    /// Whether `entry` can be stored: it occupies at least one offset, ends
    /// within the bound, and shares no offset with any stored entry.
    pub open spec fn admits(self, entry: BumpyEntry<T>) -> bool {
        &&& entry.size >= 1
        &&& entry.end() <= self.bound()
        &&& forall|k: usize| #[trigger]
            self@.contains_key(k) ==> self@[k].disjoint_from(entry)
    }

    /// The message with which an entry that cannot be stored is refused. The
    /// first reason that applies decides: a size of zero, then an end beyond
    /// the bound, then an overlap with a stored entry.
    pub open spec fn refusal(self, entry: BumpyEntry<T>) -> &'static str {
        if entry.size == 0 {
            "Zero is an invalid size for an entry"
        } else if entry.end() > self.bound() {
            "Invalid entry: entry exceeds max size"
        } else {
            "Invalid entry: overlaps another object"
        }
    }

    /// How the entries that reach into a window change when the window grows
    /// by the offset `i`. `rest` is the index without the entries that reach
    /// into `[lo, i)`. If an entry of `rest` covers `i`, it is the one entry
    /// that the larger window gains, and it starts at `i` unless the window
    /// was empty; if none does, the larger window gains nothing.
    pub proof fn lemma_window_step(self, rest: Self, lo: int, i: usize)
        requires
            self.wf(),
            lo <= i,
            rest@ == self@.remove_keys(self.starts_meeting(lo, i as int)),
        ensures
            match rest.resolve(i) {
                Some(c) => {
                    &&& self@.contains_key(c)
                    &&& rest@[c] == self@[c]
                    &&& self.starts_meeting(lo, i + 1) == self.starts_meeting(lo, i as int).insert(c)
                    &&& !self.starts_meeting(lo, i as int).contains(c)
                    &&& lo < i ==> c == i
                    &&& rest@.remove(c) == self@.remove_keys(self.starts_meeting(lo, i + 1))
                },
                None => {
                    &&& self.starts_meeting(lo, i + 1) == self.starts_meeting(lo, i as int)
                },
            },
    {
        match rest.resolve(i) {
            Some(c) => {
                assert(rest@.contains_key(c) && rest@[c].covers(i as int));
                assert forall|k: usize|
                    self.starts_meeting(lo, i + 1).contains(k) && !self.starts_meeting(
                        lo,
                        i as int,
                    ).contains(k) implies k == c by {
                    assert(self@[k].covers(i as int));
                    if k != c {
                        assert(self@[k].disjoint_from(self@[c]));
                    }
                }
                assert(self.starts_meeting(lo, i + 1) =~= self.starts_meeting(lo, i as int).insert(c));
                assert(rest@.remove(c) =~= self@.remove_keys(self.starts_meeting(lo, i + 1)));
            },
            None => {
                assert forall|k: usize| self.starts_meeting(lo, i + 1).contains(k) implies self.starts_meeting(
                    lo,
                    i as int,
                ).contains(k) by {
                    if !self.starts_meeting(lo, i as int).contains(k) {
                        assert(rest@.contains_key(k));
                        assert(self@[k].covers(i as int));
                    }
                }
                assert(self.starts_meeting(lo, i + 1) =~= self.starts_meeting(lo, i as int));
            },
        }
    }

    /// Creates an empty index over the offsets `0..max_size`.
    pub fn new(max_size: usize) -> (v: Self)
        ensures
            v.wf(),
            v@ == Map::<usize, BumpyEntry<T>>::empty(),
            v.bound() == max_size,
            !v.traverses_empty(),
    {
        BumpyVector { data: HashMap::new(), max_size, iterate_over_empty: false }
    }

    /// Finds the start of the entry that covers `starting_index` by scanning
    /// the offsets from `starting_index` down to the nearest stored start. An
    /// offset at or beyond the bound is covered by nothing and is not scanned
    /// for.
    pub(crate) fn get_entry_start(&self, starting_index: usize) -> (r: Option<usize>)
        requires
            self.wf(),
        ensures
            r == self.resolve(starting_index),
    {
        if starting_index >= self.max_size {
            return None;
        }
        let mut index: usize = starting_index;
        loop
            invariant
                self.wf(),
                index <= starting_index,
                forall|k: usize| index < k <= starting_index ==> !self@.contains_key(k),
            decreases index,
        {
            match self.data.get(&index) {
                Some(d) => {
                    if d.size <= starting_index - index {
                        proof {
                            assert forall|k: usize| self@.contains_key(k) implies !self@[k].covers(
                                starting_index as int,
                            ) by {
                                if k < index {
                                    assert(self@[k].disjoint_from(self@[index]));
                                }
                            }
                        }
                        return None;
                    }
                    proof {
                        self.lemma_resolve_is(starting_index, index);
                    }
                    return Some(index);
                },
                None => {
                    if index == 0 {
                        return None;
                    }
                    index -= 1;
                },
            }
        }
    }

    /// Stores `entry` under its start if the index admits it, and otherwise
    /// leaves the index as it was and says why.
    pub fn insert(&mut self, entry: BumpyEntry<T>) -> (r: Result<(), &'static str>)
        requires
            old(self).wf(),
        ensures
            final(self).wf(),
            final(self).bound() == old(self).bound(),
            final(self).traverses_empty() == old(self).traverses_empty(),
            old(self).admits(entry) ==> r == Ok::<(), &'static str>(()),
            !old(self).admits(entry) ==> r == Err::<(), &'static str>(old(self).refusal(entry)),
            r is Ok ==> final(self)@ == old(self)@.insert(entry.index, entry),
            r is Ok ==> !old(self)@.contains_key(entry.index),
            r is Ok ==> final(self)@.len() == old(self)@.len() + 1,
            r is Err ==> final(self)@ == old(self)@,
    {
        if entry.size == 0 {
            return Err("Zero is an invalid size for an entry");
        }
        if entry.size > self.max_size || entry.index > self.max_size - entry.size {
            return Err("Invalid entry: entry exceeds max size");
        }
        // A stored entry that starts at or before the new one and reaches into it
        if let Some(c) = self.get_entry_start(entry.index) {
            proof {
                self.lemma_resolve_is(entry.index, c);
                assert(!self@[c].disjoint_from(entry));
            }
            return Err("Invalid entry: overlaps another object");
        }
        // A stored entry that starts within the new one
        let end: usize = entry.index + entry.size;
        let mut x: usize = entry.index;
        while x < end
            invariant
                self.wf(),
                entry.size >= 1,
                entry.index <= x <= end,
                end == entry.end(),
                end <= self.bound(),
                forall|k: usize| entry.index <= k < x ==> !self@.contains_key(k),
            decreases end - x,
        {
            if self.data.contains_key(&x) {
                proof {
                    assert(!self@[x].disjoint_from(entry));
                }
                return Err("Invalid entry: overlaps another object");
            }
            x += 1;
        }
        proof {
            assert forall|k: usize| #[trigger] self@.contains_key(k) implies self@[k].disjoint_from(
                entry,
            ) by {
                if k < entry.index {
                    assert(!self@[k].covers(entry.index as int));
                }
            }
        }
        let ghost before = *self;
        self.data.insert(entry.index, entry);
        proof {
            assert forall|j: usize, k: usize|
                self@.contains_key(j) && self@.contains_key(k) && j != k implies (
            #[trigger] self@[j]).disjoint_from(#[trigger] self@[k]) by {
                if j != entry.index && k != entry.index {
                    assert(before@[j].disjoint_from(before@[k]));
                }
            }
        }
        Ok(())
    }

    /// Takes out the entry that covers `index`, wherever within its span
    /// `index` lies, and hands it back.
    pub fn remove(&mut self, index: usize) -> (r: Option<BumpyEntry<T>>)
        requires
            old(self).wf(),
        ensures
            final(self).wf(),
            final(self).bound() == old(self).bound(),
            final(self).traverses_empty() == old(self).traverses_empty(),
            r == old(self).covering(index),
            final(self)@ == (match old(self).resolve(index) {
                Some(k) => old(self)@.remove(k),
                None => old(self)@,
            }),
    {
        let real_offset = self.get_entry_start(index);
        if let Some(o) = real_offset {
            if let Some(d) = self.data.remove(&o) {
                return Some(d);
            }
        }
        None
    }

    /// Takes out every entry whose span reaches into the `length` offsets from
    /// `index` and hands them back in ascending order.
    pub fn remove_range(&mut self, index: usize, length: usize) -> (r: Vec<BumpyEntry<T>>)
        requires
            old(self).wf(),
        ensures
            final(self).wf(),
            final(self).bound() == old(self).bound(),
            final(self).traverses_empty() == old(self).traverses_empty(),
            final(self)@ == old(self)@.remove_keys(
                old(self).starts_meeting(index as int, index + length),
            ),
            old(self).lists_ascending(
                old(self).starts_meeting(index as int, index + length),
                r@,
            ),
    {
        let mut result: Vec<BumpyEntry<T>> = Vec::new();
        let max = self.max_size;
        // No entry reaches the bound, so the offsets from there on are skipped
        let end: usize = if index >= max || length >= max - index {
            max
        } else {
            index + length
        };
        let mut i: usize = index;
        while i < end
            invariant
                self.wf(),
                old(self).wf(),
                self.bound() == old(self).bound(),
                self.traverses_empty() == old(self).traverses_empty(),
                index <= i,
                i <= end || i == index,
                end == self.bound() || end == index + length,
                end <= self.bound() && end <= index + length,
                self@ == old(self)@.remove_keys(old(self).starts_meeting(index as int, i as int)),
                old(self).lists_ascending(
                    old(self).starts_meeting(index as int, i as int),
                    result@,
                ),
            decreases end - i,
        {
            let ghost before = *self;
            let ghost taken = result@;
            let ghost hit = self.resolve(i);
            let removed = self.remove(i);
            proof {
                old(self).lemma_window_step(before, index as int, i);
            }
            if let Some(e) = removed {
                result.push(e);
                proof {
                    let c = hit->Some_0;
                    assert(result@[taken.len() as int].index == c);
                    let grown = old(self).starts_meeting(index as int, i + 1);
                    assert forall|j: int| 0 <= j < result@.len() implies grown.contains(
                        (#[trigger] result@[j]).index,
                    ) && result@[j] == old(self)@[result@[j].index] by {
                        if j < taken.len() {
                            assert(result@[j] == taken[j]);
                        }
                    }
                    assert forall|k: usize| #[trigger] grown.contains(k) implies exists|j: int|
                        0 <= j < result@.len() && (#[trigger] result@[j]).index == k by {
                        if k != c {
                            let j = choose|j: int|
                                0 <= j < taken.len() && (#[trigger] taken[j]).index == k;
                            assert(result@[j] == taken[j]);
                        }
                    }
                    assert forall|j: int, l: int| 0 <= j < l < result@.len() implies (
                    #[trigger] result@[j]).index < (#[trigger] result@[l]).index by {
                        assert(result@[j] == taken[j]);
                        if l < taken.len() {
                            assert(result@[l] == taken[l]);
                        }
                    }
                }
            }
            i += 1;
        }
        proof {
            assert(old(self).starts_meeting(index as int, i as int) =~= old(self).starts_meeting(
                index as int,
                index + length,
            ));
        }
        result
    }

    /// The entry that starts exactly at `index`, if there is one.
    pub fn get_exact(&self, index: usize) -> (r: Option<BumpyEntry<&T>>)
        ensures
            r == (if self@.contains_key(index) {
                Some(self@[index].shared())
            } else {
                None
            }),
    {
        match self.data.get(&index) {
            Some(e) => Some(BumpyEntry { entry: &e.entry, index: e.index, size: e.size }),
            None => None,
        }
    }

    /// The entry that covers `index`, wherever within its span `index` lies.
    pub fn get(&self, index: usize) -> (r: Option<BumpyEntry<&T>>)
        requires
            self.wf(),
        ensures
            r == (match self.covering(index) {
                Some(e) => Some(e.shared()),
                None => None,
            }),
    {
        let real_offset = self.get_entry_start(index);
        if let Some(o) = real_offset {
            let entry = self.data.get(&o);
            if let Some(e) = entry {
                return Some(BumpyEntry { entry: &e.entry, index: e.index, size: e.size });
            }
        }
        None
    }

    /// Whether a full traversal reports undefined offsets as placeholders.
    pub fn iterates_over_empty(&self) -> (on: bool)
        ensures
            on == self.traverses_empty(),
    {
        self.iterate_over_empty
    }

    /// Sets whether a full traversal reports undefined offsets as
    /// placeholders. The entries and the bound stay as they are.
    pub fn set_iterate_over_empty(&mut self, on: bool)
        ensures
            final(self).traverses_empty() == on,
            final(self)@ == old(self)@,
            final(self).bound() == old(self).bound(),
            final(self).wf() == old(self).wf(),
    {
        self.iterate_over_empty = on;
    }

    /// The bound of the address space.
    pub fn max_size(&self) -> (n: usize)
        ensures
            n == self.bound(),
    {
        self.max_size
    }

    /// The number of stored entries.
    pub fn len(&self) -> (n: usize)
        ensures
            n == self@.len(),
    {
        self.data.len()
    }
}

impl<T> Default for BumpyVector<T> {
    /// The empty index over an empty address space.
    fn default() -> (v: Self)
        ensures
            v.wf(),
            v@ == Map::<usize, BumpyEntry<T>>::empty(),
            v.bound() == 0,
            !v.traverses_empty(),
    {
        BumpyVector { data: HashMap::new(), max_size: 0, iterate_over_empty: false }
    }
}

impl<'a, T> IntoIterator for &'a BumpyVector<T> {
    type Item = BumpyEntry<Option<&'a T>>;

    type IntoIter = std::vec::IntoIter<BumpyEntry<Option<&'a T>>>;

    /// A full traversal: the items of a range query over the whole address
    /// space, computed afresh on each call.
    fn into_iter(self) -> (it: std::vec::IntoIter<BumpyEntry<Option<&'a T>>>)
        requires
            self.wf(),
        ensures
            vstd::std_specs::vec::into_iter_elts(it) == self.traversal(),
    {
        self.get_range(0, self.max_size, self.iterate_over_empty).into_iter()
    }
}

} // verus!
