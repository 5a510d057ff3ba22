//! The promises of an epoch: the handles that the insertions of the epoch
//! will get, fixed when the epoch begins, and the state through which any
//! number of threads draw them.

use vstd::prelude::*;
use std::sync::atomic::{AtomicUsize, Ordering};
use crate::ordered_vec::StoreView;
use crate::utils::{to_id, IndexPair, FIELD_SPAN};

verus! {

/// The promises of an epoch, as mathematics: the handles promised for the
/// positions that were free when the epoch began, in the order of the
/// promises, and the number of slots at that time.
#[verifier::ext_equal]
pub struct PromisesView {
    pub promised: Seq<Option<u64>>,
    pub length: nat,
}

impl PromisesView {
    /// The handle of the reservation number `ordinal`: first the handles of
    /// the free positions, then new positions from the end of the slots on.
    /// `None` where the handle cannot be represented.
    pub open spec fn reservation(self, ordinal: nat) -> Option<u64> {
        if ordinal < self.promised.len() {
            self.promised[ordinal as int]
        } else {
            let index = self.length + (ordinal - self.promised.len());
            if index < FIELD_SPAN {
                Some(to_id(IndexPair { index: index as u32, version: 0 }))
            } else {
                None
            }
        }
    }

    /// Whether no handle is promised twice: reservations with different
    /// numbers get different handles.
    pub open spec fn distinct(self) -> bool {
        forall|first: nat, second: nat|
            first != second && (#[trigger] self.reservation(first)) is Some && (
            #[trigger] self.reservation(second)) is Some ==> self.reservation(first)
                != self.reservation(second)
    }

    /// The promises of an epoch that begins with `store`.
    pub open spec fn of<T>(store: StoreView<T>) -> Self {
        PromisesView {
            promised: Seq::new(store.missing.len(), |i: int| store.reservation(i as nat)),
            length: store.slots.len(),
        }
    }

    /// The promises of an epoch are the reservations of the store with which
    /// it began, number by number.
    pub proof fn lemma_of<T>(store: StoreView<T>, ordinal: nat)
        ensures
            Self::of(store).reservation(ordinal) == store.reservation(ordinal),
    {
    }

    /// However the numbers are dealt out among the threads of an epoch: two
    /// reservations with different numbers get different handles.
    pub proof fn lemma_distinct<T>(store: StoreView<T>, first: nat, second: nat)
        requires
            store.wf(),
            first != second,
            Self::of(store).reservation(first) is Some,
            Self::of(store).reservation(second) is Some,
        ensures
            Self::of(store).reservation(first) != Self::of(store).reservation(second),
    {
        Self::lemma_of(store, first);
        Self::lemma_of(store, second);
        store.lemma_reservations_distinct(first, second);
    }

    /// The promises of an epoch that begins with a well-formed store promise
    /// no handle twice.
    pub proof fn lemma_of_distinct<T>(store: StoreView<T>)
        requires
            store.wf(),
        ensures
            Self::of(store).distinct(),
    {
        assert forall|first: nat, second: nat|
            first != second && (#[trigger] Self::of(store).reservation(first)) is Some && (
            #[trigger] Self::of(store).reservation(second)) is Some implies Self::of(
            store,
        ).reservation(first) != Self::of(store).reservation(second) by {
            Self::lemma_distinct(store, first, second);
        }
    }
}

/// The promises of one epoch.
#[derive(Debug)]
pub struct Promises {
    promised: Vec<Option<u64>>,
    length: usize,
}

impl View for Promises {
    type V = PromisesView;

    closed spec fn view(&self) -> PromisesView {
        PromisesView { promised: self.promised@, length: self.length as nat }
    }
}

impl Promises {
    /// Promises `promised` first and then new positions from `length` on.
    pub fn new(promised: Vec<Option<u64>>, length: usize) -> (promises: Self)
        ensures
            promises@ == (PromisesView { promised: promised@, length: length as nat }),
    {
        Promises { promised, length }
    }

    /// The handle of the reservation number `ordinal`, or `None` if it cannot
    /// be represented.
    pub fn reservation(&self, ordinal: usize) -> (id: Option<u64>)
        ensures
            id == self@.reservation(ordinal as nat),
    {
        let promised: usize = self.promised.len();
        if ordinal < promised {
            self.promised[ordinal]
        } else {
            let fresh: usize = ordinal - promised;
            if self.length <= 0xffff_ffff && fresh <= 0xffff_ffff - self.length {
                Some(to_id(IndexPair::new(self.length + fresh, 0)))
            } else {
                None
            }
        }
    }
}

/// The promises of an epoch together with the counter that numbers the
/// reservations. Any number of threads can share it: each call hands out the
/// handle of the next reservation without a lock and without touching the
/// store; the values follow later as commands.
#[derive(Debug)]
pub struct ShareableOrderedVecState {
    promises: Promises,
    counter: AtomicUsize,
}

impl View for ShareableOrderedVecState {
    type V = PromisesView;

    closed spec fn view(&self) -> PromisesView {
        self.promises@
    }
}

impl ShareableOrderedVecState {
    /// A state that hands out `promises`, numbering its reservations from
    /// `first_ordinal`.
    pub fn new(promises: Promises, first_ordinal: usize) -> (state: Self)
        ensures
            state@ == promises@,
    {
        ShareableOrderedVecState { promises, counter: AtomicUsize::new(first_ordinal) }
    }

    /// The handle of the reservation number `ordinal`, or `None` if it cannot
    /// be represented.
    pub fn reservation(&self, ordinal: usize) -> (id: Option<u64>)
        ensures
            id == self@.reservation(ordinal as nat),
    {
        self.promises.reservation(ordinal)
    }

    /// Takes the next reservation and returns its number with its handle.
    /// The shared counter decides the number: every call gets another one,
    /// whichever thread makes it.
    pub fn reserve(&self) -> (reserved: (usize, Option<u64>))
        ensures
            reserved.1 == self@.reservation(reserved.0 as nat),
    {
        let ordinal: usize = self.next_ordinal();
        (ordinal, self.reservation(ordinal))
    }

    /// Takes the next reservation and returns its handle: the handle that
    /// the number stands for which the shared counter has dealt to this call.
    pub fn get_next_id_increment(&self) -> (id: Option<u64>)
        ensures
            exists|ordinal: nat| id == self@.reservation(ordinal),
    {
        let reserved = self.reserve();
        reserved.1
    }

    /// Draws the number of the next reservation from the shared counter.
    fn next_ordinal(&self) -> usize {
        self.counter.fetch_add(1, Ordering::Relaxed)
    }
}

} // verus!
