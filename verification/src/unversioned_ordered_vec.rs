//! The plain store: positions without versions. A position is its own
//! handle, so a handle to a removed value resolves again once the position is
//! reused.

use vstd::prelude::*;
use crate::ordered_vec::select;
use crate::store_lemmas::lemma_bounded_distinct_len;

verus! {

/// What a plain store holds: what each position holds, in position order,
/// and the stack of free positions, whose top is its last entry.
#[verifier::ext_equal]
pub struct UnversionnedView<T> {
    pub slots: Seq<Option<T>>,
    pub missing: Seq<usize>,
}

impl<T> UnversionnedView<T> {
    /// The store with no position at all.
    pub open spec fn empty() -> Self {
        UnversionnedView { slots: Seq::empty(), missing: Seq::empty() }
    }

    /// The store that holds `values` in order with nothing free.
    pub open spec fn of_values(values: Seq<T>) -> Self {
        UnversionnedView {
            slots: Seq::new(values.len(), |j: int| Some(values[j])),
            missing: Seq::empty(),
        }
    }

    /// `missing` lists each free position exactly once and nothing else.
    pub open spec fn wf(self) -> bool {
        &&& self.missing.no_duplicates()
        &&& forall|i: int|
            0 <= i < self.missing.len() ==> (#[trigger] self.missing[i]) < self.slots.len()
                && self.slots[self.missing[i] as int] is None
        &&& forall|j: int|
            0 <= j < self.slots.len() && (#[trigger] self.slots[j]) is None
                ==> self.missing.contains(j as usize)
    }

    /// What position `index` holds; nothing beyond the end.
    pub open spec fn get(self, index: usize) -> Option<T> {
        if index < self.slots.len() {
            self.slots[index as int]
        } else {
            None
        }
    }

    /// Number of occupied positions.
    pub open spec fn count(self) -> nat {
        (self.slots.len() - self.missing.len()) as nat
    }

    /// The position that the next value goes to: the top of the free stack,
    /// or the end if nothing is free.
    pub open spec fn next_index(self) -> usize {
        if self.missing.len() == 0 {
            self.slots.len() as usize
        } else {
            self.missing.last()
        }
    }

    /// The store after `elem` was taken in at `next_index()`.
    pub open spec fn push(self, elem: T) -> Self {
        if self.missing.len() == 0 {
            UnversionnedView { slots: self.slots.push(Some(elem)), missing: self.missing }
        } else {
            UnversionnedView {
                slots: self.slots.update(self.missing.last() as int, Some(elem)),
                missing: self.missing.drop_last(),
            }
        }
    }

    /// The store after `remove(index)`: an occupied position becomes free and
    /// joins the top of the free stack; anything else changes nothing.
    pub open spec fn remove(self, index: usize) -> Self {
        if self.get(index) is Some {
            UnversionnedView {
                slots: self.slots.update(index as int, None),
                missing: self.missing.push(index),
            }
        } else {
            self
        }
    }

    /// The store after `remove` was applied to each of `indices` in turn.
    pub open spec fn remove_each(self, indices: Seq<usize>) -> Self
        decreases indices.len(),
    {
        if indices.len() == 0 {
            self
        } else {
            self.remove_each(indices.drop_last()).remove(indices.last())
        }
    }

    /// The store in which position `index` holds `value`.
    pub open spec fn with_value(self, index: usize, value: T) -> Self {
        UnversionnedView { slots: self.slots.update(index as int, Some(value)), missing: self.missing }
    }

    /// The occupied positions below `n` in ascending order, each with its
    /// value.
    pub open spec fn entries_below(self, n: nat) -> Seq<(usize, T)>
        decreases n,
    {
        if n == 0 {
            Seq::empty()
        } else {
            let rest = self.entries_below((n - 1) as nat);
            match self.slots[n - 1] {
                Some(value) => rest.push(((n - 1) as usize, value)),
                None => rest,
            }
        }
    }

    /// All occupied positions with their values, in position order.
    pub open spec fn entries(self) -> Seq<(usize, T)> {
        self.entries_below(self.slots.len())
    }

    /// The entries below `n` are the first entries below any larger bound.
    pub proof fn lemma_entries_prefix(self, n: nat, m: nat)
        requires
            n <= m <= self.slots.len(),
        ensures
            self.entries_below(n).len() <= self.entries_below(m).len(),
            forall|k: int|
                0 <= k < self.entries_below(n).len() ==> self.entries_below(m)[k]
                    == self.entries_below(n)[k],
        decreases m,
    {
        if n < m {
            self.lemma_entries_prefix(n, (m - 1) as nat);
        }
    }
}

/// The positions of a sequence of position and value pairs.
pub open spec fn positions<T>(pairs: Seq<(usize, T)>) -> Seq<usize> {
    Seq::new(pairs.len(), |k: int| pairs[k].0)
}

/// A store in which removing a value leaves the positions of all other values
/// unchanged, and a free position is reused by a later insertion.
#[derive(Clone, Debug)]
pub struct UnversionnedOrderedVec<T> {
    vec: Vec<Option<T>>,
    missing: Vec<usize>,
}

impl<T> View for UnversionnedOrderedVec<T> {
    type V = UnversionnedView<T>;

    closed spec fn view(&self) -> UnversionnedView<T> {
        UnversionnedView { slots: self.vec@, missing: self.missing@ }
    }
}

impl<T> Default for UnversionnedOrderedVec<T> {
    /// An empty store.
    fn default() -> (store: Self)
        ensures
            store.wf(),
            store@ == UnversionnedView::<T>::empty(),
    {
        UnversionnedOrderedVec { vec: Vec::new(), missing: Vec::new() }
    }
}

impl<T> std::ops::Index<usize> for UnversionnedOrderedVec<T> {
    type Output = T;

    /// The value at position `index`.
    fn index(&self, index: usize) -> (value: &T)
        ensures
            Some(*value) == self@.get(index),
    {
        self.get(index).unwrap()
    }
}

impl<T> vstd::std_specs::core::IndexSpecImpl<usize> for UnversionnedOrderedVec<T> {
    /// Indexing asks for an occupied position.
    open spec fn index_req(&self, index: &usize) -> bool {
        self@.get(*index) is Some
    }
}

impl<T> UnversionnedOrderedVec<T> {
    /// The invariant of the store: see [`UnversionnedView::wf`].
    pub open spec fn wf(&self) -> bool {
        self@.wf()
    }

    /// An empty store.
    pub fn new() -> (store: Self)
        ensures
            store.wf(),
            store@ == UnversionnedView::<T>::empty(),
    {
        UnversionnedOrderedVec { vec: Vec::new(), missing: Vec::new() }
    }

    /// A store that holds `vals` in order with nothing free.
    pub fn from_valids(vals: Vec<T>) -> (store: Self)
        ensures
            store.wf(),
            store@ == UnversionnedView::of_values(vals@),
    {
        let ghost given = vals@;
        let mut vec: Vec<Option<T>> = Vec::new();
        for elem in it: vals
            invariant
                it.seq() == given,
                vec@.len() == it.index(),
                forall|j: int| 0 <= j < vec@.len() ==> vec@[j] == Some(given[j]),
        {
            vec.push(Some(elem));
        }
        let store = UnversionnedOrderedVec { vec, missing: Vec::new() };
        store
    }

    /// Takes `elem` in and returns its position: the top of the free stack,
    /// or a new position at the end if nothing is free.
    pub fn push_shove(&mut self, elem: T) -> (index: usize)
        requires
            old(self).wf(),
        ensures
            final(self).wf(),
            index == old(self)@.next_index(),
            final(self)@ == old(self)@.push(elem),
            final(self)@.get(index) == Some(elem),
    {
        if self.missing.is_empty() {
            let index: usize = self.vec.len();
            self.vec.push(Some(elem));
            index
        } else {
            let index: usize = self.missing.pop().unwrap();
            assert(index < self.vec.len());
            self.vec[index] = Some(elem);
            proof {
                let before = old(self)@;
                let after = self@;
                assert forall|j: int|
                    0 <= j < after.slots.len() && (#[trigger] after.slots[j]) is None implies after.missing.contains(
                    j as usize,
                ) by {
                    let k = choose|k: int|
                        0 <= k < before.missing.len() && before.missing[k] == j as usize;
                    assert(after.missing[k] == j as usize);
                }
            }
            index
        }
    }

    /// The position that the next value will be stored at.
    pub fn get_next_idx(&self) -> (index: usize)
        ensures
            index == self@.next_index(),
    {
        if self.missing.is_empty() {
            self.vec.len()
        } else {
            self.missing[self.missing.len() - 1]
        }
    }

    /// Takes out the value at position `index`. A position that is free or
    /// beyond the end leaves the store as it is.
    pub fn remove(&mut self, index: usize) -> (removed: Option<T>)
        requires
            old(self).wf(),
        ensures
            final(self).wf(),
            removed == old(self)@.get(index),
            final(self)@ == old(self)@.remove(index),
            final(self)@.get(index) is None,
    {
        if index >= self.vec.len() {
            return None;
        }
        if self.vec[index].is_none() {
            return None;
        }
        let slot = &mut self.vec[index];
        let removed = slot.take();
        self.missing.push(index);
        proof {
            let before = old(self)@;
            let after = self@;
            assert(!before.missing.contains(index)) by {
                if before.missing.contains(index) {
                    let k = choose|k: int|
                        0 <= k < before.missing.len() && before.missing[k] == index;
                }
            }
            assert forall|j: int|
                0 <= j < after.slots.len() && (#[trigger] after.slots[j]) is None implies after.missing.contains(
                j as usize,
            ) by {
                if j == index {
                    assert(after.missing[before.missing.len() as int] == index);
                } else {
                    let k = choose|k: int|
                        0 <= k < before.missing.len() && before.missing[k] == j as usize;
                    assert(after.missing[k] == j as usize);
                }
            }
        }
        removed
    }

    /// The value at position `index`.
    pub fn get(&self, index: usize) -> (found: Option<&T>)
        ensures
            found is Some <==> self@.get(index) is Some,
            found is Some ==> *found->0 == self@.get(index)->0,
    {
        if index < self.vec.len() {
            self.vec[index].as_ref()
        } else {
            None
        }
    }

    /// Mutable access to the value at position `index`. Whatever is written
    /// through the reference becomes the value at that position; nothing
    /// else changes.
    pub fn get_mut(&mut self, index: usize) -> (found: Option<&mut T>)
        requires
            old(self).wf(),
        ensures
            found is Some <==> old(self)@.get(index) is Some,
            found is Some ==> *found->0 == old(self)@.get(index)->0,
            found is Some ==> final(self)@ == old(self)@.with_value(index, *final(found->0)),
            found is None ==> final(self)@ == old(self)@,
            final(self).wf(),
    {
        if index < self.vec.len() && self.vec[index].is_some() {
            let slot = &mut self.vec[index];
            slot.as_mut()
        } else {
            None
        }
    }

    /// Number of values in the store.
    pub fn count(&self) -> (n: usize)
        requires
            self.wf(),
        ensures
            n == self@.count(),
            n == self@.slots.len() - self@.missing.len(),
    {
        proof {
            lemma_bounded_distinct_len(self@.missing, self@.slots.len());
        }
        self.vec.len() - self.missing.len()
    }

    /// Number of free positions.
    pub fn count_invalid(&self) -> (n: usize)
        ensures
            n == self@.missing.len(),
    {
        self.missing.len()
    }

    /// Number of positions, the free ones included.
    pub fn len(&self) -> (n: usize)
        ensures
            n == self@.slots.len(),
    {
        self.vec.len()
    }

    /// Empties the store and returns what each position held, in position
    /// order.
    pub fn clear(&mut self) -> (cleared: Vec<Option<T>>)
        ensures
            final(self).wf(),
            cleared@ == old(self)@.slots,
            final(self)@ == UnversionnedView::<T>::empty(),
    {
        let mut cleared: Vec<Option<T>> = Vec::new();
        std::mem::swap(&mut cleared, &mut self.vec);
        self.missing.clear();
        cleared
    }

    /// The values with their positions, in position order; the store is used
    /// up.
    pub fn into_iter(self) -> (pairs: Vec<(usize, T)>)
        ensures
            pairs@ == self@.entries(),
    {
        let ghost slots = self.vec@;
        let ghost view = self@;
        assert(slots.len() == self.vec.len());
        let mut pairs: Vec<(usize, T)> = Vec::new();
        let mut index: usize = 0;
        for slot in it: self.vec
            invariant
                it.seq() == slots,
                view.slots == slots,
                slots.len() <= usize::MAX,
                index == it.index(),
                pairs@ == view.entries_below(index as nat),
        {
            match slot {
                Some(value) => {
                    pairs.push((index, value));
                },
                None => {},
            }
            index = index + 1;
        }
        pairs
    }

    /// References to the values with their positions, in position order.
    pub fn iter(&self) -> (pairs: Vec<(usize, &T)>)
        ensures
            pairs@.len() == self@.entries().len(),
            forall|k: int|
                0 <= k < pairs@.len() ==> (#[trigger] pairs@[k]).0 == self@.entries()[k].0
                    && *pairs@[k].1 == self@.entries()[k].1,
    {
        let mut pairs: Vec<(usize, &T)> = Vec::new();
        let len: usize = self.vec.len();
        let mut index: usize = 0;
        while index < len
            invariant
                index <= len,
                len == self@.slots.len(),
                pairs@.len() == self@.entries_below(index as nat).len(),
                forall|k: int|
                    0 <= k < pairs@.len() ==> (#[trigger] pairs@[k]).0 == self@.entries_below(
                        index as nat,
                    )[k].0 && *pairs@[k].1 == self@.entries_below(index as nat)[k].1,
            decreases len - index,
        {
            match &self.vec[index] {
                Some(value) => {
                    pairs.push((index, value));
                },
                None => {},
            }
            index = index + 1;
        }
        pairs
    }

    /// Mutable references to the values with their positions, in position
    /// order. Whatever is written through the reference of a value becomes
    /// the value at its position; nothing else changes.
    pub fn iter_mut(&mut self) -> (pairs: Vec<(usize, &mut T)>)
        requires
            old(self).wf(),
        ensures
            final(self).wf(),
            pairs@.len() == old(self)@.entries().len(),
            forall|k: int|
                0 <= k < pairs@.len() ==> (#[trigger] pairs@[k]).0 == old(self)@.entries()[k].0
                    && *pairs@[k].1 == old(self)@.entries()[k].1,
            final(self)@.missing == old(self)@.missing,
            final(self)@.slots.len() == old(self)@.slots.len(),
            forall|j: int|
                0 <= j < old(self)@.slots.len() ==> #[trigger] final(self)@.slots[j] == (
                match old(self)@.slots[j] {
                    None => None::<T>,
                    Some(_) => Some(
                        *final(pairs@[old(self)@.entries_below(j as nat).len() as int].1),
                    ),
                }),
    {
        let ghost before = self@;
        assert(before.slots.len() == self.vec.len());
        let mut pairs: Vec<(usize, &mut T)> = Vec::new();
        let mut rest: &mut [Option<T>] = self.vec.as_mut_slice();
        let mut index: usize = 0;
        while rest.len() > 0
            invariant
                before.slots.len() <= usize::MAX,
                index + rest@.len() == before.slots.len(),
                rest@ == before.slots.skip(index as int),
                index <= after_borrow(self.vec)@.len(),
                after_borrow(self.vec)@.skip(index as int) == final(rest)@,
                pairs@.len() == before.entries_below(index as nat).len(),
                forall|k: int|
                    0 <= k < pairs@.len() ==> (#[trigger] pairs@[k]).0 == before.entries_below(
                        index as nat,
                    )[k].0 && *pairs@[k].1 == before.entries_below(index as nat)[k].1,
                forall|j: int|
                    0 <= j < index ==> #[trigger] after_borrow(self.vec)@[j] == (
                    match before.slots[j] {
                        None => None::<T>,
                        Some(_) => Some(
                            *final(pairs@[before.entries_below(j as nat).len() as int].1),
                        ),
                    }),
            decreases rest.len(),
        {
            let ghost pairs_before = pairs@;
            let ghost whole = after_borrow(self.vec)@;
            let taken = rest;
            let (head, tail) = taken.split_at_mut(1);
            rest = tail;
            assert(head@[0] == before.slots[index as int]);
            let slot = &mut head[0];
            match slot.as_mut() {
                Some(value) => {
                    pairs.push((index, value));
                },
                None => {},
            }
            proof {
                assert(whole.skip(index as int).len() == 1 + final(rest)@.len());
                assert(whole[index as int] == whole.skip(index as int)[0]);
                assert(whole.skip(index + 1) =~= final(rest)@) by {
                    assert forall|k: int| 0 <= k < final(rest)@.len() implies whole.skip(
                        index + 1,
                    )[k] == final(rest)@[k] by {
                        assert(whole.skip(index + 1)[k] == whole.skip(index as int)[k + 1]);
                    }
                }
                assert forall|j: int| 0 <= j < index + 1 implies #[trigger] whole[j] == (
                match before.slots[j] {
                    None => None::<T>,
                    Some(_) => Some(
                        *final(pairs@[before.entries_below(j as nat).len() as int].1),
                    ),
                }) by {
                    if j < index && before.slots[j] is Some {
                        before.lemma_entries_prefix((j + 1) as nat, index as nat);
                        assert(pairs@[before.entries_below(j as nat).len() as int]
                            == pairs_before[before.entries_below(j as nat).len() as int]);
                    }
                }
            }
            index = index + 1;
        }
        pairs
    }

    /// Mutable references to the values, in position order. Whatever is
    /// written through the reference of a value becomes the value at its
    /// position; nothing else changes.
    pub fn iter_elements_mut(&mut self) -> (elements: Vec<&mut T>)
        requires
            old(self).wf(),
        ensures
            final(self).wf(),
            elements@.len() == old(self)@.entries().len(),
            forall|k: int|
                0 <= k < elements@.len() ==> *(#[trigger] elements@[k]) == old(self)@.entries()[k].1,
            final(self)@.missing == old(self)@.missing,
            final(self)@.slots.len() == old(self)@.slots.len(),
            forall|j: int|
                0 <= j < old(self)@.slots.len() ==> #[trigger] final(self)@.slots[j] == (
                match old(self)@.slots[j] {
                    None => None::<T>,
                    Some(_) => Some(
                        *final(elements@[old(self)@.entries_below(j as nat).len() as int]),
                    ),
                }),
    {
        let pairs = self.iter_mut();
        let ghost given = pairs@;
        let mut elements: Vec<&mut T> = Vec::new();
        for pair in it: pairs
            invariant
                it.seq() == given,
                elements@.len() == it.index(),
                forall|k: int|
                    0 <= k < elements@.len() ==> *(#[trigger] elements@[k]) == *given[k].1
                        && *final(elements@[k]) == *final(given[k].1),
        {
            elements.push(pair.1);
        }
        proof {
            let before = old(self)@;
            assert forall|j: int| 0 <= j < before.slots.len() && before.slots[j] is Some implies before.entries_below(
                j as nat,
            ).len() < before.entries().len() by {
                before.lemma_entries_prefix((j + 1) as nat, before.slots.len());
            }
        }
        elements
    }

    /// References to the values, in position order.
    pub fn iter_elements(&self) -> (elements: Vec<&T>)
        ensures
            elements@.len() == self@.entries().len(),
            forall|k: int|
                0 <= k < elements@.len() ==> *(#[trigger] elements@[k]) == self@.entries()[k].1,
    {
        let mut elements: Vec<&T> = Vec::new();
        let len: usize = self.vec.len();
        let mut index: usize = 0;
        while index < len
            invariant
                index <= len,
                len == self@.slots.len(),
                elements@.len() == self@.entries_below(index as nat).len(),
                forall|k: int|
                    0 <= k < elements@.len() ==> *(#[trigger] elements@[k]) == self@.entries_below(
                        index as nat,
                    )[k].1,
            decreases len - index,
        {
            match &self.vec[index] {
                Some(value) => {
                    elements.push(value);
                },
                None => {},
            }
            index = index + 1;
        }
        elements
    }

    /// The free positions, bottom of the stack first.
    pub fn iter_invalid(&self) -> (free: &Vec<usize>)
        ensures
            free@ == self@.missing,
    {
        &self.missing
    }

    /// Takes out every value for which `filter` answers `true` and returns
    /// those values with their positions, in position order. `filter` is
    /// asked once for each value, in position order.
    pub fn my_drain<F>(&mut self, mut filter: F) -> (drained: Vec<(usize, T)>) where
        F: FnMut(usize, &T) -> bool,

        requires
            old(self).wf(),
            forall|k: int|
                0 <= k < old(self)@.entries().len() ==> call_requires(
                    filter,
                    ((#[trigger] old(self)@.entries()[k]).0, &old(self)@.entries()[k].1),
                ),
        ensures
            final(self).wf(),
            exists|keep: Seq<bool>|
                #![trigger select(old(self)@.entries(), keep)]
                {
                    &&& keep.len() == old(self)@.entries().len()
                    &&& forall|k: int|
                        0 <= k < keep.len() ==> call_ensures(
                            filter,
                            (old(self)@.entries()[k].0, &old(self)@.entries()[k].1),
                            #[trigger] keep[k],
                        )
                    &&& drained@ == select(old(self)@.entries(), keep)
                },
            final(self)@ == old(self)@.remove_each(positions(drained@)),
    {
        let ghost before = self@;
        let ghost asked = filter;
        let ghost mut keep: Seq<bool> = Seq::empty();
        let mut drained: Vec<(usize, T)> = Vec::new();
        let len: usize = self.vec.len();
        let mut index: usize = 0;
        while index < len
            invariant
                index <= len,
                len == before.slots.len(),
                self@.slots.len() == len,
                before.wf(),
                self.wf(),
                filter == asked,
                forall|j: int| index <= j < len ==> self@.slots[j] == before.slots[j],
                forall|k: int|
                    0 <= k < before.entries().len() ==> call_requires(
                        filter,
                        ((#[trigger] before.entries()[k]).0, &before.entries()[k].1),
                    ),
                keep.len() == before.entries_below(index as nat).len(),
                forall|k: int|
                    0 <= k < keep.len() ==> call_ensures(
                        filter,
                        (
                            before.entries_below(index as nat)[k].0,
                            &before.entries_below(index as nat)[k].1,
                        ),
                        #[trigger] keep[k],
                    ),
                drained@ == select(before.entries_below(index as nat), keep),
                self@ == before.remove_each(positions(drained@)),
            decreases len - index,
        {
            let ghost entries_so_far = before.entries_below(index as nat);
            let ghost keep_so_far = keep;
            let ghost drained_so_far = drained@;
            let chosen: bool = match &self.vec[index] {
                Some(value) => {
                    proof {
                        before.lemma_entries_prefix((index + 1) as nat, len as nat);
                        assert(before.entries()[entries_so_far.len() as int] == (index, *value));
                    }
                    let answer: bool = filter(index, value);
                    proof {
                        keep = keep.push(answer);
                    }
                    answer
                },
                None => false,
            };
            if chosen {
                let removed = self.remove(index);
                drained.push((index, removed.unwrap()));
                proof {
                    assert(positions(drained@).drop_last() =~= positions(drained_so_far));
                }
            }
            proof {
                let entries_now = before.entries_below((index + 1) as nat);
                if before.slots[index as int] is Some {
                    assert(entries_now.drop_last() =~= entries_so_far);
                    assert(keep.drop_last() =~= keep_so_far);
                }
            }
            index = index + 1;
        }
        proof {
            assert(before.entries() == before.entries_below(len as nat));
        }
        drained
    }
}

} // verus!
