//! The reservation coordinator: a slot store together with the promises of
//! the current epoch and the count of those that were handed out.

use vstd::prelude::*;
use crate::ordered_vec::{handles, select, OrderedVec, ProtocolViolation, Slot, StoreView};
use crate::shareable_state::{Promises, ShareableOrderedVecState, PromisesView};
use crate::utils::from_id;

verus! {

/// What a coordinator holds: the store, the promises of the epoch if one is
/// open, and how many of them were handed out.
#[verifier::ext_equal]
pub struct ShareableView<T> {
    pub store: StoreView<T>,
    pub epoch: Option<PromisesView>,
    pub counter: nat,
}

impl<T> ShareableView<T> {
    /// An empty store and no epoch.
    pub open spec fn empty() -> Self {
        ShareableView { store: StoreView::empty(), epoch: None, counter: 0 }
    }

    /// The store is well formed, nothing was handed out while no epoch is
    /// open, and the promises of the open epoch promise no handle twice.
    pub open spec fn wf(self) -> bool {
        &&& self.store.wf()
        &&& self.epoch is None ==> self.counter == 0
        &&& self.epoch matches Some(promises) ==> promises.distinct()
    }

    /// Any two reservations of one epoch, however far apart, get different
    /// handles.
    pub proof fn lemma_reservations_distinct(self, first: nat, second: nat)
        requires
            self.wf(),
            first != second,
            self.reservation(first) is Some,
            self.reservation(second) is Some,
        ensures
            self.reservation(first) != self.reservation(second),
            self.after_reservation().reservation(first) == self.reservation(first),
            self.after_reservation().reservation(second) == self.reservation(second),
    {
        PromisesView::lemma_of_distinct(self.store);
    }

    /// The promises that reservations are taken from: those of the open
    /// epoch, or, if none is open, those of the epoch that would begin now.
    pub open spec fn promises(self) -> PromisesView {
        match self.epoch {
            Some(promises) => promises,
            None => PromisesView::of(self.store),
        }
    }

    /// The handle of the reservation number `ordinal` of the epoch.
    pub open spec fn reservation(self, ordinal: nat) -> Option<u64> {
        self.promises().reservation(ordinal)
    }

    /// Whether one more handle can be handed out: it can be represented, and
    /// the count can grow.
    pub open spec fn reservable(self) -> bool {
        self.reservation(self.counter) is Some && self.counter < usize::MAX
    }

    /// The handle that is handed out next.
    pub open spec fn next_id(self) -> u64 {
        self.reservation(self.counter)->0
    }

    /// The coordinator after one more handle was handed out. The first one
    /// opens the epoch: its promises are fixed from then on.
    pub open spec fn after_reservation(self) -> Self {
        ShareableView {
            store: self.store,
            epoch: Some(self.promises()),
            counter: self.counter + 1,
        }
    }

    /// The coordinator with no epoch open.
    pub open spec fn closed(self) -> Self {
        ShareableView { store: self.store, epoch: None, counter: 0 }
    }

    /// Another store under the same epoch.
    pub open spec fn with_store(self, store: StoreView<T>) -> Self {
        ShareableView { store, epoch: self.epoch, counter: self.counter }
    }
}

/// A slot store whose next handles can be promised before the values arrive.
/// An epoch begins with the first reservation: from then on the handles of
/// the insertions to come are fixed, number by number, and each reservation
/// hands out the next of them. The values are put under their handles in the
/// order of the reservations, and each lands where its handle says.
#[derive(Debug)]
pub struct ShareableOrderedVec<T> {
    store: OrderedVec<T>,
    epoch: Option<Promises>,
    counter: usize,
}

impl<T> View for ShareableOrderedVec<T> {
    type V = ShareableView<T>;

    closed spec fn view(&self) -> ShareableView<T> {
        ShareableView {
            store: self.store@,
            epoch: match self.epoch {
                Some(promises) => Some(promises@),
                None => None,
            },
            counter: self.counter as nat,
        }
    }
}

impl<T> Default for ShareableOrderedVec<T> {
    /// An empty store and no epoch.
    fn default() -> (vec: Self)
        ensures
            vec.wf(),
            vec@ == ShareableView::<T>::empty(),
    {
        ShareableOrderedVec { store: OrderedVec::new(), epoch: None, counter: 0 }
    }
}

impl<T> std::ops::Index<u64> for ShareableOrderedVec<T> {
    type Output = T;

    /// The value that `index` resolves to.
    fn index(&self, index: u64) -> (value: &T)
        ensures
            Some(*value) == self@.store.get(index),
    {
        self.get(index).unwrap()
    }
}

impl<T> vstd::std_specs::core::IndexSpecImpl<u64> for ShareableOrderedVec<T> {
    /// Indexing asks for a handle that resolves.
    open spec fn index_req(&self, index: &u64) -> bool {
        self@.store.get(*index) is Some
    }
}

impl<T> ShareableOrderedVec<T> {
    /// The invariant: see [`ShareableView::wf`].
    pub open spec fn wf(&self) -> bool {
        self@.wf()
    }

    /// Puts `elem` under the handle `id`, as promised by an earlier
    /// reservation. The values need not arrive in the order of their
    /// reservations. A position at or beyond the end of the slots takes the
    /// value: the slots are extended up to it, and the positions in between
    /// are skipped, each for the value that arrives later under its own
    /// handle. A skipped position takes the value. A free position takes it
    /// at the version after its last. A position that holds a value takes
    /// none. Where the handle is refused, nothing changes.
    pub fn insert(&mut self, id: u64, elem: T) -> (outcome: Result<(), ProtocolViolation>)
        requires
            old(self).wf(),
        ensures
            final(self).wf(),
            outcome == match old(self)@.store.refusal(id) {
                Some(violation) => Err::<(), ProtocolViolation>(violation),
                None => Ok(()),
            },
            final(self)@ == old(self)@.with_store(old(self)@.store.insert(id, elem)),
            outcome is Ok ==> final(self)@.store.get(id) == Some(elem),
            outcome is Ok ==> final(self)@.store.slots[from_id(id).index as int] == (Slot {
                value: Some(elem),
                version: from_id(id).version,
            }),
            from_id(id).index >= old(self)@.store.slots.len() ==> {
                &&& outcome is Ok
                &&& final(self)@.store.slots.len() == from_id(id).index + 1
                &&& forall|j: int|
                    old(self)@.store.slots.len() <= j < from_id(id).index
                        ==> #[trigger] final(self)@.store.skipped(j)
            },
            from_id(id).index < old(self)@.store.slots.len() ==> final(self)@.store.slots.len()
                == old(self)@.store.slots.len(),
            forall|other: u64|
                old(self)@.store.get(other) is Some ==> #[trigger] final(self)@.store.get(other)
                    == old(self)@.store.get(other),
    {
        self.store.insert(id, elem)
    }

    /// The promises of an epoch that begins with the store as it is.
    fn promises(&self) -> (promises: Promises)
        requires
            self.wf(),
        ensures
            promises@ == PromisesView::of(self@.store),
    {
        let free: usize = self.store.count_invalid();
        let mut promised: Vec<Option<u64>> = Vec::new();
        let mut ordinal: usize = 0;
        while ordinal < free
            invariant
                ordinal <= free,
                free == self.store@.missing.len(),
                self.store.wf(),
                promised@.len() == ordinal,
                forall|k: int|
                    0 <= k < ordinal ==> promised@[k] == self.store@.reservation(k as nat),
            decreases free - ordinal,
        {
            promised.push(self.store.reservation(ordinal));
            ordinal = ordinal + 1;
        }
        let promises = Promises::new(promised, self.store.len());
        promises
    }

    /// The handle of the reservation number `ordinal` of the epoch, or `None`
    /// if it cannot be represented. While no epoch is open, this is the
    /// handle that the insertion number `ordinal` from now would get.
    pub fn reservation(&self, ordinal: usize) -> (id: Option<u64>)
        requires
            self.wf(),
        ensures
            id == self@.reservation(ordinal as nat),
    {
        match &self.epoch {
            Some(promises) => promises.reservation(ordinal),
            None => {
                proof {
                    PromisesView::lemma_of(self@.store, ordinal as nat);
                }
                self.store.reservation(ordinal)
            },
        }
    }

    /// The handle that the next reservation will hand out.
    pub fn get_next_id(&self) -> (id: u64)
        requires
            self.wf(),
            self@.reservable(),
        ensures
            id == self@.next_id(),
    {
        self.reservation(self.counter).unwrap()
    }

    /// Takes the next reservation: hands out the handle that the insertion
    /// number `counter` of the epoch will get, another handle than any that
    /// was handed out in the epoch before. If no epoch is open, this opens
    /// one.
    pub fn get_next_id_increment(&mut self) -> (id: u64)
        requires
            old(self).wf(),
            old(self)@.reservable(),
        ensures
            final(self).wf(),
            id == old(self)@.next_id(),
            final(self)@ == old(self)@.after_reservation(),
            forall|earlier: nat|
                earlier < old(self)@.counter ==> #[trigger] old(self)@.reservation(earlier)
                    != Some(id),
            forall|number: nat|
                #[trigger] final(self)@.reservation(number) == old(self)@.reservation(number),
    {
        proof {
            let before = old(self)@;
            assert forall|earlier: nat| earlier < before.counter implies #[trigger] before.reservation(
                earlier,
            ) != Some(before.next_id()) by {
                if before.reservation(earlier) is Some {
                    before.lemma_reservations_distinct(earlier, before.counter);
                }
            }
        }
        if self.epoch.is_none() {
            proof {
                PromisesView::lemma_of_distinct(self@.store);
            }
            let promises = self.promises();
            self.epoch = Some(promises);
        }
        let id: u64 = self.reservation(self.counter).unwrap();
        self.counter = self.counter + 1;
        id
    }

    /// Number of handles handed out in the epoch.
    pub fn reserved(&self) -> (n: usize)
        ensures
            n == self@.counter,
    {
        self.counter
    }

    /// Closes the epoch and begins another for any number of threads: the
    /// state that is returned holds the promises of an epoch that begins
    /// with the store as it is. Through this coordinator itself no epoch is
    /// open afterwards; one that is opened here while the state is in use
    /// promises the same handles a second time, and the store then refuses
    /// whichever of the two insertions comes later.
    pub fn begin_epoch(&mut self) -> (state: ShareableOrderedVecState)
        requires
            old(self).wf(),
        ensures
            final(self).wf(),
            final(self)@ == old(self)@.closed(),
            state@ == PromisesView::of(old(self)@.store),
    {
        self.end_epoch();
        ShareableOrderedVecState::new(self.promises(), 0)
    }

    /// Closes the epoch: its promises are dropped and the count starts again
    /// at 0. The store is not touched: each value that was put under its
    /// handle has taken its position off the free stack itself.
    pub fn end_epoch(&mut self)
        ensures
            final(self)@ == old(self)@.closed(),
    {
        self.epoch = None;
        self.counter = 0;
    }

    /// Takes out the value that `id` resolves to. A handle that resolves to
    /// nothing changes nothing.
    pub fn remove(&mut self, id: u64) -> (removed: Option<T>)
        requires
            old(self).wf(),
        ensures
            final(self).wf(),
            removed == old(self)@.store.get(id),
            final(self)@ == old(self)@.with_store(old(self)@.store.remove(id)),
            final(self)@.store.get(id) is None,
    {
        self.store.remove(id)
    }

    /// Takes out the value at position `index`, whatever the version of the
    /// slot. A position that is free or beyond the end changes nothing.
    pub fn remove_index(&mut self, index: usize) -> (removed: Option<T>)
        requires
            old(self).wf(),
        ensures
            final(self).wf(),
            index < old(self)@.store.slots.len() ==> removed == old(self)@.store.slots[index as int].value,
            index >= old(self)@.store.slots.len() ==> removed is None,
            final(self)@ == old(self)@.with_store(
                if removed is Some {
                    old(self)@.store.vacate(index)
                } else {
                    old(self)@.store
                },
            ),
    {
        self.store.remove_index(index)
    }

    /// The value that `id` resolves to.
    pub fn get(&self, id: u64) -> (found: Option<&T>)
        ensures
            found is Some <==> self@.store.get(id) is Some,
            found is Some ==> *found->0 == self@.store.get(id)->0,
    {
        self.store.get(id)
    }

    /// Mutable access to the value that `id` resolves to. Whatever is written
    /// through the reference becomes the value of the slot; nothing else
    /// changes.
    pub fn get_mut(&mut self, id: u64) -> (found: Option<&mut T>)
        requires
            old(self).wf(),
        ensures
            found is Some <==> old(self)@.store.get(id) is Some,
            found is Some ==> *found->0 == old(self)@.store.get(id)->0,
            found is Some ==> final(self)@ == old(self)@.with_store(
                old(self)@.store.with_value(id, *final(found->0)),
            ),
            found is None ==> final(self)@ == old(self)@,
            final(self).wf(),
    {
        self.store.get_mut(id)
    }

    /// Number of positions that are taken: those that hold a value, and
    /// those that were skipped and wait for theirs.
    pub fn count(&self) -> (n: usize)
        requires
            self.wf(),
        ensures
            n == self@.store.count(),
            n == self@.store.slots.len() - self@.store.missing.len(),
    {
        self.store.count()
    }

    /// Number of free positions.
    pub fn count_invalid(&self) -> (n: usize)
        ensures
            n == self@.store.missing.len(),
    {
        self.store.count_invalid()
    }

    /// Takes every value out and returns what each position held, in position
    /// order. The slots stay, free, each with its version; the free stack
    /// holds all positions with position 0 on top. A position that was
    /// skipped is free like the others, under its version 0.
    pub fn clear(&mut self) -> (cleared: Vec<Option<T>>)
        requires
            old(self).wf(),
        ensures
            final(self).wf(),
            cleared@ == old(self)@.store.values(),
            final(self)@ == old(self)@.with_store(old(self)@.store.cleared()),
    {
        self.store.clear()
    }

    /// The values with their handles, in position order; the store is used
    /// up.
    pub fn into_iter(self) -> (pairs: Vec<(u64, T)>)
        requires
            self.wf(),
        ensures
            pairs@ == self@.store.entries(),
    {
        self.store.into_iter()
    }

    /// References to the values, in position order.
    pub fn iter_elements(&self) -> (elements: Vec<&T>)
        ensures
            elements@.len() == self@.store.entries().len(),
            forall|k: int|
                0 <= k < elements@.len() ==> *(#[trigger] elements@[k])
                    == self@.store.entries()[k].1,
    {
        self.store.iter_elements()
    }

    /// References to the values with their handles, in position order.
    pub fn iter(&self) -> (pairs: Vec<(u64, &T)>)
        requires
            self.wf(),
        ensures
            pairs@.len() == self@.store.entries().len(),
            forall|k: int|
                0 <= k < pairs@.len() ==> (#[trigger] pairs@[k]).0 == self@.store.entries()[k].0
                    && *pairs@[k].1 == self@.store.entries()[k].1,
    {
        self.store.iter()
    }

    /// Mutable references to the values with their handles, in position
    /// order. Whatever is written through the reference of a value becomes
    /// the value of its slot; nothing else changes.
    pub fn iter_mut(&mut self) -> (pairs: Vec<(u64, &mut T)>)
        requires
            old(self).wf(),
        ensures
            final(self).wf(),
            pairs@.len() == old(self)@.store.entries().len(),
            forall|k: int|
                0 <= k < pairs@.len() ==> (#[trigger] pairs@[k]).0
                    == old(self)@.store.entries()[k].0 && *pairs@[k].1
                    == old(self)@.store.entries()[k].1,
            final(self)@.epoch == old(self)@.epoch,
            final(self)@.counter == old(self)@.counter,
            final(self)@.store.missing == old(self)@.store.missing,
            final(self)@.store.slots.len() == old(self)@.store.slots.len(),
            forall|j: int|
                0 <= j < old(self)@.store.slots.len() ==> #[trigger] final(self)@.store.slots[j]
                    == (match old(self)@.store.slots[j].value {
                    None => old(self)@.store.slots[j],
                    Some(_) => Slot {
                        value: Some(
                            *final(pairs@[old(self)@.store.entries_below(j as nat).len() as int].1),
                        ),
                        version: old(self)@.store.slots[j].version,
                    },
                }),
    {
        self.store.iter_mut()
    }

    /// Mutable references to the values, in position order. Whatever is
    /// written through the reference of a value becomes the value of its
    /// slot; nothing else changes.
    pub fn iter_elements_mut(&mut self) -> (elements: Vec<&mut T>)
        requires
            old(self).wf(),
        ensures
            final(self).wf(),
            elements@.len() == old(self)@.store.entries().len(),
            forall|k: int|
                0 <= k < elements@.len() ==> *(#[trigger] elements@[k])
                    == old(self)@.store.entries()[k].1,
            final(self)@.epoch == old(self)@.epoch,
            final(self)@.counter == old(self)@.counter,
            final(self)@.store.missing == old(self)@.store.missing,
            final(self)@.store.slots.len() == old(self)@.store.slots.len(),
            forall|j: int|
                0 <= j < old(self)@.store.slots.len() ==> #[trigger] final(self)@.store.slots[j]
                    == (match old(self)@.store.slots[j].value {
                    None => old(self)@.store.slots[j],
                    Some(_) => Slot {
                        value: Some(
                            *final(elements@[old(self)@.store.entries_below(j as nat).len() as int]),
                        ),
                        version: old(self)@.store.slots[j].version,
                    },
                }),
    {
        self.store.iter_elements_mut()
    }

    /// The free positions, bottom of the stack first.
    pub fn iter_invalid(&self) -> (free: &Vec<usize>)
        ensures
            free@ == self@.store.missing,
    {
        self.store.iter_invalid()
    }

    /// Takes out every value for which `filter` answers `true` and returns
    /// those values with their handles, in position order. `filter` is asked
    /// once for each value, in position order.
    pub fn my_drain<F>(&mut self, filter: F) -> (drained: Vec<(u64, T)>) where
        F: FnMut(u64, &T) -> bool,

        requires
            old(self).wf(),
            forall|k: int|
                0 <= k < old(self)@.store.entries().len() ==> call_requires(
                    filter,
                    (
                        (#[trigger] old(self)@.store.entries()[k]).0,
                        &old(self)@.store.entries()[k].1,
                    ),
                ),
        ensures
            final(self).wf(),
            exists|keep: Seq<bool>|
                #![trigger select(old(self)@.store.entries(), keep)]
                {
                    &&& keep.len() == old(self)@.store.entries().len()
                    &&& forall|k: int|
                        0 <= k < keep.len() ==> call_ensures(
                            filter,
                            (old(self)@.store.entries()[k].0, &old(self)@.store.entries()[k].1),
                            #[trigger] keep[k],
                        )
                    &&& drained@ == select(old(self)@.store.entries(), keep)
                },
            final(self)@ == old(self)@.with_store(
                old(self)@.store.remove_each(handles(drained@)),
            ),
    {
        self.store.my_drain(filter)
    }
}

} // verus!
