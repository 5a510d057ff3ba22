//! The slot store: a dense sequence of versioned slots and a stack of the
//! positions that are free for reuse.

use vstd::prelude::*;
use crate::utils::{from_id, to_id, IndexPair, FIELD_SPAN};

verus! {

/// One position of a store: the value, if the position is occupied, and the
/// version under which the position was last filled.
#[derive(Clone, Debug)]
pub struct Slot<T> {
    pub value: Option<T>,
    pub version: u32,
}

/// Why a store refuses to put a value at the position and version that a
/// handle names. Each of them shows that whoever issued the handle and the
/// store disagree about the state of the store.
#[derive(Clone, Copy, Debug, PartialEq, Eq, Structural)]
pub enum ProtocolViolation {
    /// The position holds a value already.
    SlotOccupied,
    /// The position is free for reuse, and the version is not the one that
    /// it takes next.
    VersionMismatch,
}

/// What a store holds, as mathematics: the slots in position order and the
/// stack of free positions, whose top is its last entry.
#[verifier::ext_equal]
pub struct StoreView<T> {
    pub slots: Seq<Slot<T>>,
    pub missing: Seq<usize>,
}

impl<T> StoreView<T> {
    /// The store with no slot at all.
    pub open spec fn empty() -> Self {
        StoreView { slots: Seq::empty(), missing: Seq::empty() }
    }

    /// The store that holds `values` in order, each at version 0, with
    /// nothing free.
    pub open spec fn of_values(values: Seq<T>) -> Self {
        StoreView {
            slots: Seq::new(values.len(), |j: int| Slot { value: Some(values[j]), version: 0 }),
            missing: Seq::empty(),
        }
    }

    /// `missing` lists positions without a value, none of them twice, and
    /// every position fits the 32-bit index of a handle. A position without
    /// a value that `missing` does not list was skipped: see `skipped`.
    pub open spec fn wf(self) -> bool {
        &&& self.slots.len() <= FIELD_SPAN
        &&& self.missing.no_duplicates()
        &&& forall|i: int|
            0 <= i < self.missing.len() ==> (#[trigger] self.missing[i]) < self.slots.len()
                && self.slots[self.missing[i] as int].value is None
    }

    /// Whether the position `index` was skipped: an insertion beyond the end
    /// of the slots has left it behind without a value, for the value that
    /// was promised this position and has not arrived. Such a position never
    /// held a value. It is not free: it stays off the free stack, so that it
    /// is promised to no other value, and it takes the value that arrives
    /// under a handle of its own.
    pub open spec fn skipped(self, index: int) -> bool {
        &&& 0 <= index < self.slots.len()
        &&& self.slots[index].value is None
        &&& !self.missing.contains(index as usize)
    }

    /// Whether no position is skipped: every position holds a value or is
    /// free.
    pub open spec fn settled(self) -> bool {
        forall|j: int| !self.skipped(j)
    }

    /// A run of `n` slots that hold nothing, as an insertion beyond the end
    /// leaves them behind.
    pub open spec fn gap(n: int) -> Seq<Slot<T>> {
        Seq::new(n as nat, |k: int| Slot { value: None, version: 0 })
    }

    /// What `id` resolves to: the value of the slot it names, provided the
    /// slot exists and still carries the version of the handle.
    pub open spec fn get(self, id: u64) -> Option<T> {
        let pair = from_id(id);
        if pair.index < self.slots.len() && self.slots[pair.index as int].version == pair.version {
            self.slots[pair.index as int].value
        } else {
            None
        }
    }

    /// Number of positions that are taken: the slots that are not free. They
    /// hold a value, but for the skipped ones, which wait for theirs.
    pub open spec fn count(self) -> nat {
        (self.slots.len() - self.missing.len()) as nat
    }

    /// Whether one more value can be taken in: the position it would get fits
    /// a handle, and so does the version it would carry.
    pub open spec fn insertable(self) -> bool {
        if self.missing.len() == 0 {
            self.slots.len() < FIELD_SPAN
        } else {
            self.slots[self.missing.last() as int].version < u32::MAX
        }
    }

    /// The position that the next value goes to: the top of the free stack,
    /// or the end of the slots if nothing is free.
    pub open spec fn next_index(self) -> usize {
        if self.missing.len() == 0 {
            self.slots.len() as usize
        } else {
            self.missing.last()
        }
    }

    /// The handle that the next value gets: a fresh position starts at
    /// version 0, a reused one moves to the version after its last.
    pub open spec fn next_id(self) -> u64 {
        if self.missing.len() == 0 {
            to_id(IndexPair { index: self.slots.len() as u32, version: 0 })
        } else {
            to_id(
                IndexPair {
                    index: self.missing.last() as u32,
                    version: (self.slots[self.missing.last() as int].version + 1) as u32,
                },
            )
        }
    }

    /// The store after `elem` was taken in at `next_index()`.
    pub open spec fn push(self, elem: T) -> Self {
        if self.missing.len() == 0 {
            StoreView {
                slots: self.slots.push(Slot { value: Some(elem), version: 0 }),
                missing: self.missing,
            }
        } else {
            let index = self.missing.last() as int;
            StoreView {
                slots: self.slots.update(
                    index,
                    Slot { value: Some(elem), version: (self.slots[index].version + 1) as u32 },
                ),
                missing: self.missing.drop_last(),
            }
        }
    }

    /// The handle that the insertion number `ordinal` from now will get if
    /// nothing but insertions happens before it: the free positions from the
    /// top of the stack down, then new positions from the end on. `None` where
    /// the position or the version does not fit a handle.
    pub open spec fn reservation(self, ordinal: nat) -> Option<u64> {
        if ordinal < self.missing.len() {
            let index = self.missing[self.missing.len() - 1 - ordinal];
            let version = self.slots[index as int].version;
            if version < u32::MAX {
                Some(to_id(IndexPair { index: index as u32, version: (version + 1) as u32 }))
            } else {
                None
            }
        } else {
            let index = self.slots.len() + (ordinal - self.missing.len());
            if index < FIELD_SPAN {
                Some(to_id(IndexPair { index: index as u32, version: 0 }))
            } else {
                None
            }
        }
    }

    /// Why a value cannot be put under the handle `id`, or `None` if it can.
    /// A position at or beyond the end of the slots takes a value, and so does
    /// a skipped one. A position that holds a value takes none, and a free
    /// position takes one only at the version after its last.
    pub open spec fn refusal(self, id: u64) -> Option<ProtocolViolation> {
        let pair = from_id(id);
        if pair.index >= self.slots.len() {
            None
        } else if self.slots[pair.index as int].value is Some {
            Some(ProtocolViolation::SlotOccupied)
        } else if !self.missing.contains(pair.index as usize) {
            None
        } else if self.slots[pair.index as int].version + 1 == pair.version {
            None
        } else {
            Some(ProtocolViolation::VersionMismatch)
        }
    }

    /// The store after `elem` was put under the handle `id`: unchanged if the
    /// handle is refused. Else the slot at the position of the handle holds
    /// `elem` at the version of the handle. If the position lay beyond the
    /// end, the positions between the old end and it are skipped; if it was
    /// free, it has left the free stack.
    pub open spec fn insert(self, id: u64, elem: T) -> Self {
        let pair = from_id(id);
        let filled = Slot { value: Some(elem), version: pair.version };
        if self.refusal(id) is Some {
            self
        } else if pair.index >= self.slots.len() {
            StoreView {
                slots: (self.slots + Self::gap(pair.index - self.slots.len())).push(filled),
                missing: self.missing,
            }
        } else if self.missing.contains(pair.index as usize) {
            StoreView {
                slots: self.slots.update(pair.index as int, filled),
                missing: self.missing.remove(self.missing.index_of(pair.index as usize)),
            }
        } else {
            StoreView { slots: self.slots.update(pair.index as int, filled), missing: self.missing }
        }
    }

    /// The store after the value at position `index` was taken out: the slot
    /// keeps its version and its position joins the top of the free stack.
    pub open spec fn vacate(self, index: usize) -> Self {
        StoreView {
            slots: self.slots.update(
                index as int,
                Slot { value: None, version: self.slots[index as int].version },
            ),
            missing: self.missing.push(index),
        }
    }

    /// The store after `remove(id)`: unchanged if `id` resolves to nothing.
    pub open spec fn remove(self, id: u64) -> Self {
        if self.get(id) is Some {
            self.vacate(from_id(id).index as usize)
        } else {
            self
        }
    }

    /// The store after `remove` was applied to each of `ids` in turn.
    pub open spec fn remove_each(self, ids: Seq<u64>) -> Self
        decreases ids.len(),
    {
        if ids.len() == 0 {
            self
        } else {
            self.remove_each(ids.drop_last()).remove(ids.last())
        }
    }

    /// The store in which the value that `id` resolves to is `value`.
    pub open spec fn with_value(self, id: u64, value: T) -> Self {
        let index = from_id(id).index as int;
        StoreView {
            slots: self.slots.update(
                index,
                Slot { value: Some(value), version: self.slots[index].version },
            ),
            missing: self.missing,
        }
    }

    /// The store in which the values are `written`, in position order: each
    /// occupied slot holds the value of `written` that belongs to its entry,
    /// under its old version; nothing else is changed.
    pub open spec fn rewritten(self, written: Seq<T>) -> Self {
        StoreView {
            slots: Seq::new(
                self.slots.len(),
                |j: int|
                    match self.slots[j].value {
                        None => self.slots[j],
                        Some(_) => Slot {
                            value: Some(written[self.entries_below(j as nat).len() as int]),
                            version: self.slots[j].version,
                        },
                    },
            ),
            missing: self.missing,
        }
    }

    /// What each position holds, in position order.
    pub open spec fn values(self) -> Seq<Option<T>> {
        Seq::new(self.slots.len(), |j: int| self.slots[j].value)
    }

    /// The store after `clear`: every slot free under its old version, and
    /// all positions on the free stack, position 0 on top. A position that
    /// was skipped is free like the others.
    pub open spec fn cleared(self) -> Self {
        StoreView {
            slots: Seq::new(
                self.slots.len(),
                |j: int| Slot { value: None, version: self.slots[j].version },
            ),
            missing: Seq::new(self.slots.len(), |k: int| (self.slots.len() - 1 - k) as usize),
        }
    }

    /// The occupied positions below `n` in ascending order, each as the
    /// handle that resolves to it and its value.
    pub open spec fn entries_below(self, n: nat) -> Seq<(u64, T)>
        decreases n,
    {
        if n == 0 {
            Seq::empty()
        } else {
            let rest = self.entries_below((n - 1) as nat);
            let slot = self.slots[n - 1];
            match slot.value {
                Some(value) => rest.push(
                    (to_id(IndexPair { index: (n - 1) as u32, version: slot.version }), value),
                ),
                None => rest,
            }
        }
    }

    /// All values with their handles, in position order.
    pub open spec fn entries(self) -> Seq<(u64, T)> {
        self.entries_below(self.slots.len())
    }
}

/// The entries of `entries` at which `keep` says `true`, in order.
pub open spec fn select<A>(entries: Seq<A>, keep: Seq<bool>) -> Seq<A>
    decreases entries.len(),
{
    if entries.len() == 0 {
        Seq::empty()
    } else {
        let rest = select(entries.drop_last(), keep.drop_last());
        if keep.last() {
            rest.push(entries.last())
        } else {
            rest
        }
    }
}

/// The handles of a sequence of handle and value pairs.
pub open spec fn handles<T>(pairs: Seq<(u64, T)>) -> Seq<u64> {
    Seq::new(pairs.len(), |k: int| pairs[k].0)
}

/// A store of versioned slots. Removing a value leaves its position free and
/// the positions of all other values unchanged; a free position is reused by a
/// later insertion under a new version, so that handles to its former value no
/// longer resolve.
#[derive(Clone, Debug)]
pub struct OrderedVec<T> {
    vec: Vec<Slot<T>>,
    missing: Vec<usize>,
}

impl<T> View for OrderedVec<T> {
    type V = StoreView<T>;

    closed spec fn view(&self) -> StoreView<T> {
        StoreView { slots: self.vec@, missing: self.missing@ }
    }
}

impl<T> Default for OrderedVec<T> {
    /// An empty store.
    fn default() -> (store: Self)
        ensures
            store.wf(),
            store@ == StoreView::<T>::empty(),
    {
        OrderedVec { vec: Vec::new(), missing: Vec::new() }
    }
}

impl<T> std::ops::Index<u64> for OrderedVec<T> {
    type Output = T;

    /// The value that `index` resolves to.
    fn index(&self, index: u64) -> (value: &T)
        ensures
            Some(*value) == self@.get(index),
    {
        self.get(index).unwrap()
    }
}

impl<T> vstd::std_specs::core::IndexSpecImpl<u64> for OrderedVec<T> {
    /// Indexing asks for a handle that resolves.
    open spec fn index_req(&self, index: &u64) -> bool {
        self@.get(*index) is Some
    }
}

impl<T> OrderedVec<T> {
    /// The invariant of the store: see [`StoreView::wf`].
    pub open spec fn wf(&self) -> bool {
        self@.wf()
    }

    /// An empty store.
    pub fn new() -> (store: Self)
        ensures
            store.wf(),
            store@ == StoreView::<T>::empty(),
    {
        OrderedVec { vec: Vec::new(), missing: Vec::new() }
    }

    /// A store that holds `vals` in order, each at version 0, with nothing
    /// free.
    pub fn from_valids(vals: Vec<T>) -> (store: Self)
        requires
            vals.len() <= FIELD_SPAN,
        ensures
            store.wf(),
            store@ == StoreView::of_values(vals@),
    {
        let ghost given = vals@;
        let mut vec: Vec<Slot<T>> = Vec::new();
        for elem in it: vals
            invariant
                it.seq() == given,
                vec@.len() == it.index(),
                forall|j: int|
                    0 <= j < vec@.len() ==> vec@[j] == (Slot { value: Some(given[j]), version: 0 }),
        {
            vec.push(Slot { value: Some(elem), version: 0 });
        }
        let store = OrderedVec { vec, missing: Vec::new() };
        store
    }

    /// Takes `elem` in and returns its handle. The top of the free stack is
    /// reused under the next version; with nothing free, a new slot is
    /// appended at version 0.
    pub fn push_shove(&mut self, elem: T) -> (id: u64)
        requires
            old(self).wf(),
            old(self)@.insertable(),
        ensures
            final(self).wf(),
            id == old(self)@.next_id(),
            final(self)@ == old(self)@.push(elem),
            final(self)@.get(id) == Some(elem),
    {
        proof {
            old(self)@.lemma_push_resolves(elem);
        }
        if self.missing.is_empty() {
            let index: usize = self.vec.len();
            self.vec.push(Slot { value: Some(elem), version: 0 });
            to_id(IndexPair::new(index, 0))
        } else {
            let index: usize = self.missing.pop().unwrap();
            let slot = &mut self.vec[index];
            let version: u32 = slot.version + 1;
            slot.value = Some(elem);
            slot.version = version;
            to_id(IndexPair::new(index, version))
        }
    }

    /// The position that the next value will be stored at.
    pub fn get_next_index(&self) -> (index: usize)
        ensures
            index == self@.next_index(),
    {
        if self.missing.is_empty() {
            self.vec.len()
        } else {
            self.missing[self.missing.len() - 1]
        }
    }

    /// The handle that the next value will get.
    pub fn get_next_id(&self) -> (id: u64)
        requires
            self.wf(),
            self@.insertable(),
        ensures
            id == self@.next_id(),
    {
        if self.missing.is_empty() {
            to_id(IndexPair::new(self.vec.len(), 0))
        } else {
            let index: usize = self.missing[self.missing.len() - 1];
            let version: u32 = self.vec[index].version + 1;
            to_id(IndexPair::new(index, version))
        }
    }

    /// The handle that the insertion number `ordinal` from now will get, or
    /// `None` if that handle cannot be represented.
    pub fn reservation(&self, ordinal: usize) -> (id: Option<u64>)
        requires
            self.wf(),
        ensures
            id == self@.reservation(ordinal as nat),
    {
        let free: usize = self.missing.len();
        if ordinal < free {
            let index: usize = self.missing[free - 1 - ordinal];
            let version: u32 = self.vec[index].version;
            if version < u32::MAX {
                Some(to_id(IndexPair::new(index, version + 1)))
            } else {
                None
            }
        } else {
            let fresh: usize = ordinal - free;
            let len: usize = self.vec.len();
            if len <= 0xffff_ffff && fresh <= 0xffff_ffff - len {
                Some(to_id(IndexPair::new(len + fresh, 0)))
            } else {
                None
            }
        }
    }

    /// Puts `elem` under the handle `id`. A position at or beyond the end of
    /// the slots takes the value: the slots are extended up to it, and the
    /// positions in between are skipped, each for the value that arrives
    /// later under its own handle. A skipped position takes the value. A free
    /// position takes it at the version after its last, and leaves the free
    /// stack. A position that holds a value takes none: a value is never
    /// overwritten. Where the handle is refused, the store stays as it is.
    pub fn insert(&mut self, id: u64, elem: T) -> (outcome: Result<(), ProtocolViolation>)
        requires
            old(self).wf(),
        ensures
            final(self).wf(),
            outcome == match old(self)@.refusal(id) {
                Some(violation) => Err::<(), ProtocolViolation>(violation),
                None => Ok(()),
            },
            final(self)@ == old(self)@.insert(id, elem),
            outcome is Ok ==> final(self)@.get(id) == Some(elem),
            outcome is Ok ==> final(self)@.slots[from_id(id).index as int] == (Slot {
                value: Some(elem),
                version: from_id(id).version,
            }),
            from_id(id).index >= old(self)@.slots.len() ==> {
                &&& outcome is Ok
                &&& final(self)@.slots.len() == from_id(id).index + 1
                &&& forall|j: int|
                    old(self)@.slots.len() <= j < from_id(id).index ==> #[trigger] final(self)@.skipped(j)
            },
            from_id(id).index < old(self)@.slots.len() ==> final(self)@.slots.len() == old(self)@.slots.len(),
            forall|other: u64|
                old(self)@.get(other) is Some ==> #[trigger] final(self)@.get(other) == old(self)@.get(other),
    {
        let ghost before = self@;
        proof {
            before.lemma_insert_resolves(id, elem, id);
            assert forall|other: u64| before.get(other) is Some implies #[trigger] before.insert(
                id,
                elem,
            ).get(other) == before.get(other) by {
                before.lemma_insert_resolves(id, elem, other);
            }
        }
        let pair = from_id(id);
        let index: usize = pair.index as usize;
        let len: usize = self.vec.len();
        if index >= len {
            let mut end: usize = len;
            while end < index
                invariant
                    len <= end <= index,
                    len == before.slots.len(),
                    self.missing@ == before.missing,
                    self.vec@ == before.slots + StoreView::<T>::gap(end - len),
                decreases index - end,
            {
                self.vec.push(Slot { value: None, version: 0 });
                end = end + 1;
                assert(self.vec@ =~= before.slots + StoreView::<T>::gap(end - len));
            }
            self.vec.push(Slot { value: Some(elem), version: pair.version });
            return Ok(());
        }
        if self.vec[index].value.is_some() {
            return Err(ProtocolViolation::SlotOccupied);
        }
        // promises are handed out from the top of the stack down: look from the top
        let mut at: usize = self.missing.len();
        while at > 0 && self.missing[at - 1] != index
            invariant
                self@ == before,
                at <= before.missing.len(),
                forall|k: int| at <= k < before.missing.len() ==> before.missing[k] != index,
            decreases at,
        {
            at = at - 1;
        }
        if at > 0 {
            if self.vec[index].version == u32::MAX || self.vec[index].version + 1 != pair.version {
                return Err(ProtocolViolation::VersionMismatch);
            }
            proof {
                let chosen = before.missing.index_of(index);
                assert(before.missing[at - 1] == index);
                assert(before.missing[chosen] == index);
                assert(chosen == at - 1);
            }
            self.missing.remove(at - 1);
        }
        let slot = &mut self.vec[index];
        slot.value = Some(elem);
        slot.version = pair.version;
        Ok(())
    }

    /// Takes out the value that `id` resolves to. A handle that resolves to
    /// nothing leaves the store as it is.
    pub fn remove(&mut self, id: u64) -> (removed: Option<T>)
        requires
            old(self).wf(),
        ensures
            final(self).wf(),
            removed == old(self)@.get(id),
            final(self)@ == old(self)@.remove(id),
            final(self)@.get(id) is None,
    {
        let pair = from_id(id);
        let index: usize = pair.index as usize;
        if index >= self.vec.len() {
            return None;
        }
        if self.vec[index].version != pair.version {
            return None;
        }
        self.remove_index(index)
    }

    /// Takes out the value at position `index`, whatever the version of the
    /// slot. A position that is free or beyond the end leaves the store as it
    /// is.
    pub fn remove_index(&mut self, index: usize) -> (removed: Option<T>)
        requires
            old(self).wf(),
        ensures
            final(self).wf(),
            index < old(self)@.slots.len() ==> removed == old(self)@.slots[index as int].value,
            index >= old(self)@.slots.len() ==> removed is None,
            final(self)@ == if removed is Some {
                old(self)@.vacate(index)
            } else {
                old(self)@
            },
    {
        if index >= self.vec.len() {
            return None;
        }
        if self.vec[index].value.is_none() {
            return None;
        }
        proof {
            old(self)@.lemma_vacate(index);
        }
        let slot = &mut self.vec[index];
        let removed = slot.value.take();
        self.missing.push(index);
        removed
    }

    /// The value that `id` resolves to.
    pub fn get(&self, id: u64) -> (found: Option<&T>)
        ensures
            found is Some <==> self@.get(id) is Some,
            found is Some ==> *found->0 == self@.get(id)->0,
    {
        let pair = from_id(id);
        let index: usize = pair.index as usize;
        if index < self.vec.len() {
            let slot = &self.vec[index];
            if pair.version == slot.version {
                slot.value.as_ref()
            } else {
                None
            }
        } else {
            None
        }
    }

    /// Mutable access to the value that `id` resolves to. Whatever is written
    /// through the reference becomes the value of the slot; nothing else
    /// changes.
    pub fn get_mut(&mut self, id: u64) -> (found: Option<&mut T>)
        requires
            old(self).wf(),
        ensures
            final(self).wf(),
            found is Some <==> old(self)@.get(id) is Some,
            found is Some ==> *found->0 == old(self)@.get(id)->0,
            found is Some ==> final(self)@ == old(self)@.with_value(id, *final(found->0)),
            found is None ==> final(self)@ == old(self)@,
    {
        let pair = from_id(id);
        let index: usize = pair.index as usize;
        if index < self.vec.len() {
            if pair.version == self.vec[index].version && self.vec[index].value.is_some() {
                let slot = &mut self.vec[index];
                slot.value.as_mut()
            } else {
                None
            }
        } else {
            None
        }
    }

    /// Number of positions that are taken: those that hold a value, and
    /// those that were skipped and wait for theirs.
    pub fn count(&self) -> (n: usize)
        requires
            self.wf(),
        ensures
            n == self@.count(),
            n == self@.slots.len() - self@.missing.len(),
    {
        proof {
            self@.lemma_free_within_slots();
        }
        self.vec.len() - self.missing.len()
    }

    /// Number of free positions.
    pub fn count_invalid(&self) -> (n: usize)
        ensures
            n == self@.missing.len(),
    {
        self.missing.len()
    }

    /// Number of slots, the free ones included.
    pub fn len(&self) -> (n: usize)
        ensures
            n == self@.slots.len(),
    {
        self.vec.len()
    }

    /// Takes every value out and returns what each position held, in position
    /// order. The slots stay, free, each with its version, so that handles
    /// from before do not resolve once a position is reused; the free stack
    /// holds all positions with position 0 on top. A position that was
    /// skipped is free like the others, under its version 0.
    pub fn clear(&mut self) -> (cleared: Vec<Option<T>>)
        requires
            old(self).wf(),
        ensures
            final(self).wf(),
            cleared@ == old(self)@.values(),
            final(self)@ == old(self)@.cleared(),
            final(self)@.count() == 0,
    {
        let ghost before = self@;
        proof {
            before.lemma_clear_idempotent();
        }
        let len: usize = self.vec.len();
        let mut cleared: Vec<Option<T>> = Vec::new();
        let mut i: usize = 0;
        while i < len
            invariant
                i <= len,
                len == before.slots.len(),
                self.vec@.len() == len,
                cleared@.len() == i,
                forall|j: int| 0 <= j < i ==> cleared@[j] == before.slots[j].value,
                forall|j: int|
                    0 <= j < i ==> self.vec@[j] == (Slot::<T> {
                        value: None,
                        version: before.slots[j].version,
                    }),
                forall|j: int| i <= j < len ==> self.vec@[j] == before.slots[j],
            decreases len - i,
        {
            let slot = &mut self.vec[i];
            let value = slot.value.take();
            cleared.push(value);
            i = i + 1;
        }
        self.missing.clear();
        let mut k: usize = len;
        while k > 0
            invariant
                k <= len,
                len == before.slots.len(),
                self.vec@.len() == len,
                forall|j: int|
                    0 <= j < len ==> self.vec@[j] == (Slot::<T> {
                        value: None,
                        version: before.slots[j].version,
                    }),
                self.missing@.len() == len - k,
                forall|j: int| 0 <= j < len - k ==> self.missing@[j] == (len - 1 - j) as usize,
            decreases k,
        {
            k = k - 1;
            self.missing.push(k);
        }
        proof {
            assert(self@.slots =~= before.cleared().slots);
            assert(self@.missing =~= before.cleared().missing);
        }
        cleared
    }

    /// The values with their handles, in position order; the store is used
    /// up.
    pub fn into_iter(self) -> (pairs: Vec<(u64, T)>)
        requires
            self.wf(),
        ensures
            pairs@ == self@.entries(),
    {
        let ghost slots = self.vec@;
        let ghost view = self@;
        assert(slots.len() == self.vec.len());
        let mut pairs: Vec<(u64, T)> = Vec::new();
        let mut index: usize = 0;
        for slot in it: self.vec
            invariant
                it.seq() == slots,
                view.slots == slots,
                slots.len() <= FIELD_SPAN,
                slots.len() <= usize::MAX,
                index == it.index(),
                pairs@ == view.entries_below(index as nat),
        {
            let version: u32 = slot.version;
            match slot.value {
                Some(value) => {
                    pairs.push((to_id(IndexPair::new(index, version)), value));
                },
                None => {},
            }
            index = index + 1;
        }
        pairs
    }

    /// References to the values with their handles, in position order.
    pub fn iter(&self) -> (pairs: Vec<(u64, &T)>)
        requires
            self.wf(),
        ensures
            pairs@.len() == self@.entries().len(),
            forall|k: int|
                0 <= k < pairs@.len() ==> (#[trigger] pairs@[k]).0 == self@.entries()[k].0
                    && *pairs@[k].1 == self@.entries()[k].1,
    {
        let mut pairs: Vec<(u64, &T)> = Vec::new();
        let len: usize = self.vec.len();
        let mut index: usize = 0;
        while index < len
            invariant
                index <= len,
                len == self@.slots.len(),
                len <= FIELD_SPAN,
                pairs@.len() == self@.entries_below(index as nat).len(),
                forall|k: int|
                    0 <= k < pairs@.len() ==> (#[trigger] pairs@[k]).0 == self@.entries_below(
                        index as nat,
                    )[k].0 && *pairs@[k].1 == self@.entries_below(index as nat)[k].1,
            decreases len - index,
        {
            let slot = &self.vec[index];
            match &slot.value {
                Some(value) => {
                    pairs.push((to_id(IndexPair::new(index, slot.version)), value));
                },
                None => {},
            }
            index = index + 1;
        }
        pairs
    }

    /// Mutable references to the values with their handles, in position
    /// order. Whatever is written through the reference of a value becomes
    /// the value of its slot; nothing else changes.
    pub fn iter_mut(&mut self) -> (pairs: Vec<(u64, &mut T)>)
        requires
            old(self).wf(),
        ensures
            final(self).wf(),
            pairs@.len() == old(self)@.entries().len(),
            forall|k: int|
                0 <= k < pairs@.len() ==> (#[trigger] pairs@[k]).0 == old(self)@.entries()[k].0
                    && *pairs@[k].1 == old(self)@.entries()[k].1,
            final(self)@.missing == old(self)@.missing,
            final(self)@.slots.len() == old(self)@.slots.len(),
            forall|j: int|
                0 <= j < old(self)@.slots.len() ==> #[trigger] final(self)@.slots[j] == (
                match old(self)@.slots[j].value {
                    None => old(self)@.slots[j],
                    Some(_) => Slot {
                        value: Some(*final(pairs@[old(self)@.entries_below(j as nat).len() as int].1)),
                        version: old(self)@.slots[j].version,
                    },
                }),
    {
        let ghost before = self@;
        assert(before.slots.len() == self.vec.len());
        let mut pairs: Vec<(u64, &mut T)> = Vec::new();
        let mut rest: &mut [Slot<T>] = self.vec.as_mut_slice();
        let mut index: usize = 0;
        while rest.len() > 0
            invariant
                before.slots.len() <= usize::MAX,
                before.slots.len() <= FIELD_SPAN,
                index + rest@.len() == before.slots.len(),
                rest@ == before.slots.skip(index as int),
                index <= after_borrow(self.vec)@.len(),
                after_borrow(self.vec)@.skip(index as int) == final(rest)@,
                pairs@.len() == before.entries_below(index as nat).len(),
                forall|k: int|
                    0 <= k < pairs@.len() ==> (#[trigger] pairs@[k]).0 == before.entries_below(
                        index as nat,
                    )[k].0 && *pairs@[k].1 == before.entries_below(index as nat)[k].1,
                forall|j: int|
                    0 <= j < index ==> #[trigger] after_borrow(self.vec)@[j] == (
                    match before.slots[j].value {
                        None => before.slots[j],
                        Some(_) => Slot {
                            value: Some(*final(pairs@[before.entries_below(j as nat).len() as int].1)),
                            version: before.slots[j].version,
                        },
                    }),
            decreases rest.len(),
        {
            let ghost pairs_before = pairs@;
            let ghost whole = after_borrow(self.vec)@;
            let taken = rest;
            let (head, tail) = taken.split_at_mut(1);
            rest = tail;
            assert(head@[0] == before.slots[index as int]);
            let slot = &mut head[0];
            let version: u32 = slot.version;
            match slot.value.as_mut() {
                Some(value) => {
                    pairs.push((to_id(IndexPair::new(index, version)), value));
                },
                None => {},
            }
            proof {
                assert(whole.skip(index as int).len() == 1 + final(rest)@.len());
                assert(whole[index as int] == whole.skip(index as int)[0]);
                assert(whole.skip(index + 1) =~= final(rest)@) by {
                    assert forall|k: int| 0 <= k < final(rest)@.len() implies whole.skip(
                        index + 1,
                    )[k] == final(rest)@[k] by {
                        assert(whole.skip(index + 1)[k] == whole.skip(index as int)[k + 1]);
                    }
                }
                assert forall|j: int| 0 <= j < index + 1 implies #[trigger] whole[j] == (
                match before.slots[j].value {
                    None => before.slots[j],
                    Some(_) => Slot {
                        value: Some(*final(pairs@[before.entries_below(j as nat).len() as int].1)),
                        version: before.slots[j].version,
                    },
                }) by {
                    if j < index && before.slots[j].value is Some {
                        before.lemma_entries_prefix((j + 1) as nat, index as nat);
                        assert(pairs@[before.entries_below(j as nat).len() as int]
                            == pairs_before[before.entries_below(j as nat).len() as int]);
                    }
                }
            }
            index = index + 1;
        }
        pairs
    }

    /// References to the values with their positions, in position order.
    pub fn iter_indexed(&self) -> (pairs: Vec<(usize, &T)>)
        requires
            self.wf(),
        ensures
            pairs@.len() == self@.entries().len(),
            forall|k: int|
                0 <= k < pairs@.len() ==> (#[trigger] pairs@[k]).0 == from_id(
                    self@.entries()[k].0,
                ).index && *pairs@[k].1 == self@.entries()[k].1,
    {
        let with_handles = self.iter();
        let ghost given = with_handles@;
        let mut pairs: Vec<(usize, &T)> = Vec::new();
        for pair in it: with_handles
            invariant
                it.seq() == given,
                pairs@.len() == it.index(),
                forall|k: int|
                    0 <= k < pairs@.len() ==> (#[trigger] pairs@[k]).0 == from_id(
                        given[k].0,
                    ).index && pairs@[k].1 == given[k].1,
        {
            pairs.push((from_id(pair.0).index as usize, pair.1));
        }
        pairs
    }

    /// Mutable references to the values with their positions, in position
    /// order. Whatever is written through the reference of a value becomes
    /// the value of its slot; nothing else changes.
    pub fn iter_indexed_mut(&mut self) -> (pairs: Vec<(usize, &mut T)>)
        requires
            old(self).wf(),
        ensures
            final(self).wf(),
            pairs@.len() == old(self)@.entries().len(),
            forall|k: int|
                0 <= k < pairs@.len() ==> (#[trigger] pairs@[k]).0 == from_id(
                    old(self)@.entries()[k].0,
                ).index && *pairs@[k].1 == old(self)@.entries()[k].1,
            final(self)@.missing == old(self)@.missing,
            final(self)@.slots.len() == old(self)@.slots.len(),
            forall|j: int|
                0 <= j < old(self)@.slots.len() ==> #[trigger] final(self)@.slots[j] == (
                match old(self)@.slots[j].value {
                    None => old(self)@.slots[j],
                    Some(_) => Slot {
                        value: Some(*final(pairs@[old(self)@.entries_below(j as nat).len() as int].1)),
                        version: old(self)@.slots[j].version,
                    },
                }),
    {
        let with_handles = self.iter_mut();
        let ghost given = with_handles@;
        let mut pairs: Vec<(usize, &mut T)> = Vec::new();
        for pair in it: with_handles
            invariant
                it.seq() == given,
                pairs@.len() == it.index(),
                forall|k: int|
                    0 <= k < pairs@.len() ==> (#[trigger] pairs@[k]).0 == from_id(
                        given[k].0,
                    ).index && *pairs@[k].1 == *given[k].1 && *final(pairs@[k].1) == *final(given[k].1),
        {
            pairs.push((from_id(pair.0).index as usize, pair.1));
        }
        proof {
            let before = old(self)@;
            assert forall|j: int| 0 <= j < before.slots.len() && before.slots[j].value is Some implies before.entries_below(
                j as nat,
            ).len() < before.entries().len() by {
                before.lemma_entries_prefix((j + 1) as nat, before.slots.len());
            }
        }
        pairs
    }

    /// Mutable references to the values, in position order. Whatever is
    /// written through the reference of a value becomes the value of its
    /// slot; nothing else changes.
    pub fn iter_elements_mut(&mut self) -> (elements: Vec<&mut T>)
        requires
            old(self).wf(),
        ensures
            final(self).wf(),
            elements@.len() == old(self)@.entries().len(),
            forall|k: int|
                0 <= k < elements@.len() ==> *(#[trigger] elements@[k]) == old(self)@.entries()[k].1,
            final(self)@.missing == old(self)@.missing,
            final(self)@.slots.len() == old(self)@.slots.len(),
            forall|j: int|
                0 <= j < old(self)@.slots.len() ==> #[trigger] final(self)@.slots[j] == (
                match old(self)@.slots[j].value {
                    None => old(self)@.slots[j],
                    Some(_) => Slot {
                        value: Some(*final(elements@[old(self)@.entries_below(j as nat).len() as int])),
                        version: old(self)@.slots[j].version,
                    },
                }),
    {
        let pairs = self.iter_mut();
        let ghost given = pairs@;
        let mut elements: Vec<&mut T> = Vec::new();
        for pair in it: pairs
            invariant
                it.seq() == given,
                elements@.len() == it.index(),
                forall|k: int|
                    0 <= k < elements@.len() ==> *(#[trigger] elements@[k]) == *given[k].1
                        && *final(elements@[k]) == *final(given[k].1),
        {
            elements.push(pair.1);
        }
        proof {
            let before = old(self)@;
            assert forall|j: int| 0 <= j < before.slots.len() && before.slots[j].value is Some implies before.entries_below(
                j as nat,
            ).len() < before.entries().len() by {
                before.lemma_entries_prefix((j + 1) as nat, before.slots.len());
            }
        }
        elements
    }

    /// References to the values, in position order.
    pub fn iter_elements(&self) -> (elements: Vec<&T>)
        ensures
            elements@.len() == self@.entries().len(),
            forall|k: int|
                0 <= k < elements@.len() ==> *(#[trigger] elements@[k]) == self@.entries()[k].1,
    {
        let mut elements: Vec<&T> = Vec::new();
        let len: usize = self.vec.len();
        let mut index: usize = 0;
        while index < len
            invariant
                index <= len,
                len == self@.slots.len(),
                elements@.len() == self@.entries_below(index as nat).len(),
                forall|k: int|
                    0 <= k < elements@.len() ==> *(#[trigger] elements@[k]) == self@.entries_below(
                        index as nat,
                    )[k].1,
            decreases len - index,
        {
            match &self.vec[index].value {
                Some(value) => {
                    elements.push(value);
                },
                None => {},
            }
            index = index + 1;
        }
        elements
    }

    /// The free positions, bottom of the stack first.
    pub fn iter_invalid(&self) -> (free: &Vec<usize>)
        ensures
            free@ == self@.missing,
    {
        &self.missing
    }

    /// Takes out every value for which `filter` answers `true` and returns
    /// those values with their handles, in position order. `filter` is asked
    /// once for each value, in position order.
    pub fn my_drain<F>(&mut self, mut filter: F) -> (drained: Vec<(u64, T)>) where
        F: FnMut(u64, &T) -> bool,

        requires
            old(self).wf(),
            forall|k: int|
                0 <= k < old(self)@.entries().len() ==> call_requires(
                    filter,
                    ((#[trigger] old(self)@.entries()[k]).0, &old(self)@.entries()[k].1),
                ),
        ensures
            final(self).wf(),
            exists|keep: Seq<bool>|
                #![trigger select(old(self)@.entries(), keep)]
                {
                    &&& keep.len() == old(self)@.entries().len()
                    &&& forall|k: int|
                        0 <= k < keep.len() ==> call_ensures(
                            filter,
                            (old(self)@.entries()[k].0, &old(self)@.entries()[k].1),
                            #[trigger] keep[k],
                        )
                    &&& drained@ == select(old(self)@.entries(), keep)
                },
            final(self)@ == old(self)@.remove_each(handles(drained@)),
    {
        let ghost before = self@;
        let ghost asked = filter;
        let ghost mut keep: Seq<bool> = Seq::empty();
        let mut drained: Vec<(u64, T)> = Vec::new();
        let len: usize = self.vec.len();
        let mut index: usize = 0;
        while index < len
            invariant
                index <= len,
                len == before.slots.len(),
                self@.slots.len() == len,
                before.wf(),
                self.wf(),
                filter == asked,
                forall|j: int| index <= j < len ==> self@.slots[j] == before.slots[j],
                forall|k: int|
                    0 <= k < before.entries().len() ==> call_requires(
                        filter,
                        ((#[trigger] before.entries()[k]).0, &before.entries()[k].1),
                    ),
                keep.len() == before.entries_below(index as nat).len(),
                forall|k: int|
                    0 <= k < keep.len() ==> call_ensures(
                        filter,
                        (
                            before.entries_below(index as nat)[k].0,
                            &before.entries_below(index as nat)[k].1,
                        ),
                        #[trigger] keep[k],
                    ),
                drained@ == select(before.entries_below(index as nat), keep),
                self@ == before.remove_each(handles(drained@)),
            decreases len - index,
        {
            let ghost entries_so_far = before.entries_below(index as nat);
            let ghost keep_so_far = keep;
            let ghost drained_so_far = drained@;
            let version: u32 = self.vec[index].version;
            let id: u64 = to_id(IndexPair::new(index, version));
            let chosen: bool = match &self.vec[index].value {
                Some(value) => {
                    proof {
                        before.lemma_entries_prefix((index + 1) as nat, len as nat);
                        assert(before.entries()[entries_so_far.len() as int] == (id, *value));
                    }
                    let answer: bool = filter(id, value);
                    proof {
                        keep = keep.push(answer);
                    }
                    answer
                },
                None => false,
            };
            if chosen {
                let removed = self.remove_index(index);
                drained.push((id, removed.unwrap()));
                proof {
                    assert(handles(drained@).drop_last() =~= handles(drained_so_far));
                }
            }
            proof {
                let entries_now = before.entries_below((index + 1) as nat);
                if before.slots[index as int].value is Some {
                    assert(entries_now.drop_last() =~= entries_so_far);
                    assert(keep.drop_last() =~= keep_so_far);
                }
            }
            index = index + 1;
        }
        proof {
            assert(before.entries() == before.entries_below(len as nat));
        }
        drained
    }
}

} // verus!
