//! The registry: a coordinator and the log of the commands that wait for it.
//! Values are promised a handle at once and reach the store when the owner
//! replays the log.

use vstd::prelude::*;
use crate::atomic::command::{
    in_order, lemma_in_order_of_ordered, AtomicIndexedCommand, CommandLog, LogView,
};
use crate::atomic::message::AtomicIndexedMessageType;
use crate::atomic::replay::{lemma_promises_kept, replay};
use crate::ordered_vec::ProtocolViolation;
use crate::shareable_ordered_vec::{ShareableOrderedVec, ShareableView};
use crate::shareable_state::{ShareableOrderedVecState, PromisesView};
use crate::utils::from_id;

verus! {

/// What a registry holds: the coordinator and the log.
#[verifier::ext_equal]
pub struct RegistryView<T> {
    pub vec: ShareableView<T>,
    pub log: LogView<T>,
}

impl<T> RegistryView<T> {
    /// An empty store, an empty log, the start of an epoch.
    pub open spec fn empty() -> Self {
        RegistryView { vec: ShareableView::empty(), log: LogView::empty() }
    }

    /// The store is well formed.
    pub open spec fn wf(self) -> bool {
        self.vec.wf()
    }

    /// Whether one more value can be taken in for later: a handle can be
    /// promised and a sequence number is left.
    pub open spec fn accepting(self) -> bool {
        self.vec.reservable() && self.log.next_id < u64::MAX
    }

    /// The registry after `push_shove(elem)`: one more handle is promised,
    /// and the insertion of `elem` under it is the last command of the log.
    pub open spec fn pushed(self, elem: T) -> Self {
        RegistryView {
            vec: self.vec.after_reservation(),
            log: LogView {
                pending: self.log.pending.push(
                    AtomicIndexedCommand {
                        command_id: self.log.next_id as u64,
                        message: AtomicIndexedMessageType::Add(elem, self.vec.next_id()),
                    },
                ),
                next_id: self.log.next_id + 1,
            },
        }
    }

    /// The registry after `push_shove` was called with each of `values` in
    /// turn.
    pub open spec fn pushed_each(self, values: Seq<T>) -> Self
        decreases values.len(),
    {
        if values.len() == 0 {
            self
        } else {
            self.pushed_each(values.drop_last()).pushed(values.last())
        }
    }

    /// What `pushed_each` leaves when it starts with no epoch open and an
    /// empty log: the store untouched, and for each value one reservation and
    /// one command, numbered from where the log stood.
    pub proof fn lemma_pushed_each(self, values: Seq<T>)
        requires
            self.vec.epoch is None,
            self.vec.counter == 0,
            self.log.pending.len() == 0,
            self.log.next_id + values.len() <= u64::MAX,
        ensures
            self.pushed_each(values).vec.store == self.vec.store,
            self.pushed_each(values).vec.counter == values.len(),
            self.pushed_each(values).vec.promises() == PromisesView::of(self.vec.store),
            self.pushed_each(values).log.next_id == self.log.next_id + values.len(),
            self.pushed_each(values).log.pending.len() == values.len(),
            forall|i: int|
                0 <= i < values.len() ==> (#[trigger] self.pushed_each(values).log.pending[i])
                    == (AtomicIndexedCommand {
                    command_id: (self.log.next_id + i) as u64,
                    message: AtomicIndexedMessageType::Add(
                        values[i],
                        self.vec.store.reservation(i as nat)->0,
                    ),
                }),
        decreases values.len(),
    {
        if values.len() > 0 {
            let front = values.drop_last();
            self.lemma_pushed_each(front);
            PromisesView::lemma_of(self.vec.store, front.len());
        }
    }

    /// Values that are pushed during an epoch are in the store after the
    /// update, each under the handle that `push_shove` returned for it: the
    /// update is refused nowhere, and the handle of the value number `i`, the
    /// reservation number `i` of the epoch, resolves to that value.
    pub proof fn lemma_update_keeps_promises(self, values: Seq<T>)
        requires
            self.wf(),
            self.vec.epoch is None,
            self.log.pending.len() == 0,
            self.log.next_id + values.len() <= u64::MAX,
            forall|i: nat| i < values.len() ==> (#[trigger] self.vec.store.reservation(i)) is Some,
        ensures
            replay(self.vec.store, in_order(self.pushed_each(values).log.pending)).1 is None,
            self.pushed_each(values).updated().wf(),
            self.pushed_each(values).updated().vec.epoch is None,
            self.pushed_each(values).updated().log.pending.len() == 0,
            forall|i: int|
                0 <= i < values.len() ==> self.pushed_each(values).updated().vec.store.get(
                    #[trigger] self.vec.store.reservation(i as nat)->0,
                ) == Some(values[i]),
    {
        self.lemma_pushed_each(values);
        let pending = self.pushed_each(values).log.pending;
        lemma_in_order_of_ordered(pending);
        lemma_promises_kept(self.vec.store, values, pending);
    }

    /// The registry after `update`: the commands of the log were replayed on
    /// the store in the order of their sequence numbers, the log is empty and
    /// a new epoch has begun.
    pub open spec fn updated(self) -> Self {
        RegistryView {
            vec: ShareableView {
                store: replay(self.vec.store, in_order(self.log.pending)).0,
                epoch: None,
                counter: 0,
            },
            log: LogView { pending: Seq::empty(), next_id: self.log.next_id },
        }
    }
}

/// A store that takes its mutations as commands. A value gets its handle at
/// once, from a reservation; the value itself, and every removal, waits in
/// the log until `update` replays the log on the store.
#[derive(Debug)]
pub struct AtomicIndexedOrderedVec<T> {
    vec: ShareableOrderedVec<T>,
    log: CommandLog<T>,
}

impl<T> View for AtomicIndexedOrderedVec<T> {
    type V = RegistryView<T>;

    closed spec fn view(&self) -> RegistryView<T> {
        RegistryView { vec: self.vec@, log: self.log@ }
    }
}

impl<T> Default for AtomicIndexedOrderedVec<T> {
    /// An empty registry.
    fn default() -> (registry: Self)
        ensures
            registry.wf(),
            registry@ == RegistryView::<T>::empty(),
    {
        AtomicIndexedOrderedVec { vec: Default::default(), log: CommandLog::new() }
    }
}

impl<T> AtomicIndexedOrderedVec<T> {
    /// The invariant: see [`RegistryView::wf`].
    pub open spec fn wf(&self) -> bool {
        self@.wf()
    }

    /// Whether `push_shove` can be called: a handle can be promised and a
    /// sequence number is left.
    pub fn accepting(&self) -> (yes: bool)
        requires
            self.wf(),
        ensures
            yes == self@.accepting(),
    {
        let reserved: usize = self.vec.reserved();
        reserved < usize::MAX && self.vec.reservation(reserved).is_some() && self.log.next_id()
            < u64::MAX
    }

    /// Promises `elem` a handle and logs the insertion. The handle resolves
    /// to `elem` once `update` has replayed the log.
    pub fn push_shove(&mut self, elem: T) -> (id: u64)
        requires
            old(self).wf(),
            old(self)@.accepting(),
        ensures
            final(self).wf(),
            id == old(self)@.vec.next_id(),
            final(self)@ == old(self)@.pushed(elem),
    {
        let id: u64 = self.vec.get_next_id_increment();
        self.log.submit(AtomicIndexedMessageType::Add(elem, id));
        id
    }

    /// The position of the handle that the next call of `push_shove` will
    /// promise.
    pub fn get_next_idx(&self) -> (index: usize)
        requires
            self.wf(),
            self@.vec.reservable(),
        ensures
            index == from_id(self@.vec.next_id()).index,
    {
        from_id(self.vec.get_next_id()).index as usize
    }

    /// Logs the removal of the value that `id` resolves to when the log is
    /// replayed. A handle that resolves to nothing by then changes nothing.
    pub fn remove(&mut self, id: u64)
        requires
            old(self)@.log.next_id < u64::MAX,
        ensures
            final(self)@.vec == old(self)@.vec,
            final(self)@.log.next_id == old(self)@.log.next_id + 1,
            final(self)@.log.pending == old(self)@.log.pending.push(
                AtomicIndexedCommand {
                    command_id: old(self)@.log.next_id as u64,
                    message: AtomicIndexedMessageType::Remove(id),
                },
            ),
    {
        self.log.submit(AtomicIndexedMessageType::Remove(id));
    }

    /// Logs a command that another thread stamped, as it arrives.
    pub fn receive(&mut self, command: AtomicIndexedCommand<T>)
        ensures
            final(self)@.vec == old(self)@.vec,
            final(self)@.log.next_id == old(self)@.log.next_id,
            final(self)@.log.pending == old(self)@.log.pending.push(command),
    {
        self.log.receive(command);
    }

    /// The value that `id` resolves to in the store. What waits in the log
    /// does not count.
    pub fn get(&self, id: u64) -> (found: Option<&T>)
        ensures
            found is Some <==> self@.vec.store.get(id) is Some,
            found is Some ==> *found->0 == self@.vec.store.get(id)->0,
    {
        self.vec.get(id)
    }

    /// Mutable access to the value that `id` resolves to in the store.
    /// Whatever is written through the reference becomes the value of the
    /// slot; nothing else changes.
    pub fn get_mut(&mut self, id: u64) -> (found: Option<&mut T>)
        requires
            old(self).wf(),
        ensures
            final(self).wf(),
            found is Some <==> old(self)@.vec.store.get(id) is Some,
            found is Some ==> *found->0 == old(self)@.vec.store.get(id)->0,
            found is Some ==> final(self)@.vec == old(self)@.vec.with_store(
                old(self)@.vec.store.with_value(id, *final(found->0)),
            ),
            found is None ==> final(self)@.vec == old(self)@.vec,
            final(self)@.log == old(self)@.log,
    {
        self.vec.get_mut(id)
    }

    /// Takes every value out of the store at once, without waiting for an
    /// update, and returns what each position held, in position order. The
    /// slots stay, free, each with its version. The log is left as it is.
    pub fn clear(&mut self) -> (cleared: Vec<Option<T>>)
        requires
            old(self).wf(),
        ensures
            final(self).wf(),
            cleared@ == old(self)@.vec.store.values(),
            final(self)@.vec == old(self)@.vec.with_store(old(self)@.vec.store.cleared()),
            final(self)@.log == old(self)@.log,
    {
        self.vec.clear()
    }

    /// Number of positions of the store that are taken: those that hold a
    /// value, and those that were skipped and wait for theirs. What waits in
    /// the log does not count.
    pub fn count(&self) -> (n: usize)
        requires
            self.wf(),
        ensures
            n == self@.vec.store.count(),
    {
        self.vec.count()
    }

    /// Number of free positions in the store. What waits in the log does not
    /// count.
    pub fn count_invalid(&self) -> (n: usize)
        ensures
            n == self@.vec.store.missing.len(),
    {
        self.vec.count_invalid()
    }

    /// Hands out the state that other threads share to take reservations
    /// during the epoch that begins.
    pub fn begin_epoch(&mut self) -> (state: ShareableOrderedVecState)
        requires
            old(self).wf(),
        ensures
            final(self).wf(),
            final(self)@.vec == old(self)@.vec.closed(),
            final(self)@.log == old(self)@.log,
            state@ == PromisesView::of(old(self)@.vec.store),
    {
        self.vec.begin_epoch()
    }

    /// Carries out `commands` on the store, one after another. The first
    /// insertion that the store refuses ends the replay: it and the commands
    /// behind it are dropped and the reason is returned.
    pub fn apply_pending(&mut self, commands: Vec<AtomicIndexedCommand<T>>) -> (outcome: Result<
        (),
        ProtocolViolation,
    >)
        requires
            old(self).wf(),
        ensures
            final(self).wf(),
            final(self)@.log == old(self)@.log,
            final(self)@.vec == old(self)@.vec.with_store(
                replay(old(self)@.vec.store, commands@).0,
            ),
            outcome == match replay(old(self)@.vec.store, commands@).1 {
                Some(violation) => Err::<(), ProtocolViolation>(violation),
                None => Ok(()),
            },
    {
        let ghost before = self@;
        let ghost all = commands@;
        proof {
            assert(all.skip(0) =~= all);
        }
        for command in it: commands
            invariant
                it.seq() == all,
                all == commands@,
                before == old(self)@,
                self.wf(),
                self@.log == before.log,
                self@.vec.counter == before.vec.counter,
                self@.vec.epoch == before.vec.epoch,
                replay(before.vec.store, all) == replay(self@.vec.store, all.skip(it.index())),
        {
            let ghost rest = all.skip(it.index());
            proof {
                assert(rest.drop_first() =~= all.skip(it.index() + 1));
            }
            match command.message {
                AtomicIndexedMessageType::Add(elem, id) => {
                    match self.vec.insert(id, elem) {
                        Ok(()) => {},
                        Err(violation) => {
                            return Err(violation);
                        },
                    }
                },
                AtomicIndexedMessageType::Remove(id) => {
                    self.vec.remove(id);
                },
            }
        }
        Ok(())
    }

    /// Runs one cycle. While it runs, the registry is held exclusively, so
    /// no reservation is taken and nothing else touches the store. Closing:
    /// the log is emptied and its commands are put in ascending order of
    /// their sequence numbers, whatever the order of their arrival, and the
    /// epoch ends. Applying: the commands are replayed on the store in that
    /// order; the first insertion that the store refuses ends the replay, and
    /// the commands behind it are dropped with it. Then the registry is open
    /// for the reservations of the next epoch.
    pub fn update(&mut self) -> (outcome: Result<(), ProtocolViolation>)
        requires
            old(self).wf(),
        ensures
            final(self).wf(),
            final(self)@ == old(self)@.updated(),
            outcome == match replay(old(self)@.vec.store, in_order(old(self)@.log.pending)).1 {
                Some(violation) => Err::<(), ProtocolViolation>(violation),
                None => Ok(()),
            },
    {
        let commands = self.log.drain_ordered();
        self.vec.end_epoch();
        self.apply_pending(commands)
    }
}

} // verus!
