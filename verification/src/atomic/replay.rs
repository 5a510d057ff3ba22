//! The replay of commands on a store, and what it guarantees: that a commit
//! keeps the promises of its epoch.

use vstd::prelude::*;
use crate::atomic::command::{
    distinctly_numbered, in_order, insertions, lemma_arrival_is_immaterial, lemma_in_order,
    lemma_insertions_front, lemma_insertions_in_order, ordered, AtomicIndexedCommand,
};
use crate::atomic::message::AtomicIndexedMessageType;
use crate::ordered_vec::{ProtocolViolation, StoreView};
use crate::utils::{from_id, lemma_codec_inverse};

verus! {

/// Why `store` refuses `message`, or `None` if it takes it. Only an
/// insertion can be refused: a removal through a handle that resolves to
/// nothing is in order and changes nothing.
pub open spec fn refusal_of<T>(
    store: StoreView<T>,
    message: AtomicIndexedMessageType<T>,
) -> Option<ProtocolViolation> {
    match message {
        AtomicIndexedMessageType::Add(_, id) => store.refusal(id),
        AtomicIndexedMessageType::Remove(_) => None,
    }
}

/// `store` after `message` was carried out.
pub open spec fn applied<T>(store: StoreView<T>, message: AtomicIndexedMessageType<T>) -> StoreView<
    T,
> {
    match message {
        AtomicIndexedMessageType::Add(elem, id) => store.insert(id, elem),
        AtomicIndexedMessageType::Remove(id) => store.remove(id),
    }
}

/// `store` after `commands` were carried out one after another, up to the
/// first that is refused, and the reason of that refusal if there is one.
pub open spec fn replay<T>(store: StoreView<T>, commands: Seq<AtomicIndexedCommand<T>>) -> (
    StoreView<T>,
    Option<ProtocolViolation>,
)
    decreases commands.len(),
{
    if commands.len() == 0 {
        (store, None)
    } else {
        match refusal_of(store, commands.first().message) {
            Some(violation) => (store, Some(violation)),
            None => replay(applied(store, commands.first().message), commands.drop_first()),
        }
    }
}

/// A replay leads from a well-formed store to a well-formed store, wherever
/// it ends.
pub proof fn lemma_replay_wf<T>(store: StoreView<T>, commands: Seq<AtomicIndexedCommand<T>>)
    requires
        store.wf(),
    ensures
        replay(store, commands).0.wf(),
    decreases commands.len(),
{
    if commands.len() > 0 {
        let message = commands.first().message;
        if refusal_of(store, message) is None {
            match message {
                AtomicIndexedMessageType::Add(elem, id) => {
                    store.lemma_insert_resolves(id, elem, id);
                },
                AtomicIndexedMessageType::Remove(id) => {
                    store.lemma_remove_invalidates(id);
                },
            }
            lemma_replay_wf(applied(store, message), commands.drop_first());
        }
    }
}

/// Whether `commands` are the insertions of `values`, one for each value and
/// in their order, each under the handle that `store` promises for its
/// number.
pub open spec fn insertions_as_promised<T>(
    store: StoreView<T>,
    values: Seq<T>,
    commands: Seq<AtomicIndexedCommand<T>>,
) -> bool {
    &&& commands.len() == values.len()
    &&& forall|i: int|
        0 <= i < values.len() ==> store.reservation(i as nat) is Some && (
        #[trigger] commands[i]).message == AtomicIndexedMessageType::Add(
            values[i],
            store.reservation(i as nat)->0,
        )
}

/// A replay never changes what a handle resolves to, unless it holds the
/// removal of that very handle: an insertion overwrites nothing, and a
/// removal through another handle takes out another value or none.
pub proof fn lemma_replay_keeps<T>(
    store: StoreView<T>,
    commands: Seq<AtomicIndexedCommand<T>>,
    id: u64,
)
    requires
        store.wf(),
        store.get(id) is Some,
        forall|i: int|
            0 <= i < commands.len() ==> (#[trigger] commands[i]).message
                != AtomicIndexedMessageType::<T>::Remove(id),
    ensures
        replay(store, commands).0.get(id) == store.get(id),
    decreases commands.len(),
{
    if commands.len() > 0 {
        let message = commands.first().message;
        if refusal_of(store, message) is None {
            match message {
                AtomicIndexedMessageType::Add(elem, handle) => {
                    store.lemma_insert_resolves(handle, elem, id);
                },
                AtomicIndexedMessageType::Remove(handle) => {
                    store.lemma_remove_invalidates(handle);
                    if from_id(handle).index == from_id(id).index {
                        lemma_codec_inverse(from_id(handle), handle);
                        lemma_codec_inverse(from_id(id), id);
                    }
                },
            }
            let rest = commands.drop_first();
            lemma_replay_keeps(applied(store, message), rest, id);
        }
    }
}

/// The handles promised ahead are the handles that the insertions get: if
/// the values arrive in the order of their reservations, the store takes
/// every one of them, and each promised handle resolves to its value.
pub proof fn lemma_promises_kept<T>(
    store: StoreView<T>,
    values: Seq<T>,
    commands: Seq<AtomicIndexedCommand<T>>,
)
    requires
        store.wf(),
        insertions_as_promised(store, values, commands),
    ensures
        replay(store, commands).1 is None,
        replay(store, commands).0.wf(),
        forall|i: int|
            0 <= i < values.len() ==> replay(store, commands).0.get(
                #[trigger] store.reservation(i as nat)->0,
            ) == Some(values[i]),
    decreases values.len(),
{
    if values.len() > 0 {
        let elem = values[0];
        let id = store.reservation(0)->0;
        store.lemma_first_reservation();
        store.lemma_push_advances(elem, 0);
        store.lemma_push_resolves(elem);
        let next = store.push(elem);
        let rest_values = values.drop_first();
        let rest = commands.drop_first();
        assert forall|i: int| 0 <= i < rest_values.len() implies next.reservation(i as nat) is Some
            && (#[trigger] rest[i]).message == AtomicIndexedMessageType::Add(
            rest_values[i],
            next.reservation(i as nat)->0,
        ) by {
            store.lemma_push_advances(elem, i as nat);
        }
        lemma_promises_kept(next, rest_values, rest);
        lemma_replay_keeps(next, rest, id);
        let last = replay(store, commands).0;
        assert forall|i: int| 0 <= i < values.len() implies last.get(
            #[trigger] store.reservation(i as nat)->0,
        ) == Some(values[i]) by {
            if i > 0 {
                store.lemma_push_advances(elem, (i - 1) as nat);
                assert(rest_values[i - 1] == values[i]);
            }
        }
    }
}

/// Whether `insertions` are the insertions of the values from number `from`
/// on, one for each value and in their order, each under the handle that
/// `store` promises for its number.
pub open spec fn promised_from<T>(
    store: StoreView<T>,
    values: Seq<T>,
    from: nat,
    insertions: Seq<AtomicIndexedCommand<T>>,
) -> bool {
    &&& insertions.len() == values.len() - from
    &&& forall|k: int|
        0 <= k < insertions.len() ==> (#[trigger] insertions[k]).message
            == AtomicIndexedMessageType::Add(
            values[from + k],
            store.reservation((from + k) as nat)->0,
        )
}

/// Whether none of `commands` is the removal of `id`.
pub open spec fn spares<T>(commands: Seq<AtomicIndexedCommand<T>>, id: u64) -> bool {
    forall|k: int|
        0 <= k < commands.len() ==> (#[trigger] commands[k]).message
            != AtomicIndexedMessageType::<T>::Remove(id)
}

/// The step of `lemma_removals_do_not_disturb`: `current` is what the store
/// `start` has become after the first `done` promised insertions and any
/// number of removals. Where `target` names a reservation, none of these
/// removals was of its handle.
proof fn lemma_promised_replay<T>(
    start: StoreView<T>,
    values: Seq<T>,
    done: nat,
    current: StoreView<T>,
    commands: Seq<AtomicIndexedCommand<T>>,
    target: Option<nat>,
)
    requires
        start.wf(),
        current.wf(),
        done <= values.len(),
        forall|i: nat| i < values.len() ==> (#[trigger] start.reservation(i)) is Some,
        promised_from(start, values, done, insertions(commands)),
        current.slots.len() == start.slots.len() + (if done > start.missing.len() {
            done - start.missing.len()
        } else {
            0
        }),
        forall|j: int|
            done <= j < values.len() && j < start.missing.len() ==> current.slots[(
            #[trigger] start.missing[start.missing.len() - 1 - j]) as int]
                == start.slots[start.missing[start.missing.len() - 1 - j] as int],
        target matches Some(number) ==> number < values.len() && (number < done ==> current.get(
            start.reservation(number)->0,
        ) == Some(values[number as int])),
    ensures
        replay(current, commands).1 is None,
        replay(current, commands).0.wf(),
        target matches Some(number) ==> spares(commands, start.reservation(number)->0) ==> replay(
            current,
            commands,
        ).0.get(start.reservation(number)->0) == Some(values[number as int]),
    decreases commands.len(),
{
    let free = start.missing.len();
    if commands.len() > 0 {
        let rest = commands.drop_first();
        lemma_insertions_front(commands);
        match commands.first().message {
            AtomicIndexedMessageType::Remove(id) => {
                let next = current.remove(id);
                current.lemma_remove_invalidates(id);
                assert forall|j: int|
                    done <= j < values.len() && j < free implies next.slots[(
                #[trigger] start.missing[free - 1 - j]) as int]
                    == start.slots[start.missing[free - 1 - j] as int] by {
                    // a removal takes a value out; the promised positions hold none
                    assert(start.slots[start.missing[free - 1 - j] as int].value is None);
                }
                if target is Some && id != start.reservation(target->0)->0 {
                    let kept = start.reservation(target->0)->0;
                    if from_id(id).index == from_id(kept).index {
                        lemma_codec_inverse(from_id(id), id);
                        lemma_codec_inverse(from_id(kept), kept);
                    }
                    lemma_spares_rest(commands, kept);
                    lemma_promised_replay(start, values, done, next, rest, target);
                } else {
                    if target is Some {
                        assert(commands[0].message == AtomicIndexedMessageType::<T>::Remove(
                            start.reservation(target->0)->0,
                        ));
                    }
                    lemma_promised_replay(start, values, done, next, rest, None);
                }
            },
            AtomicIndexedMessageType::Add(elem, id) => {
                let kept = insertions(commands);
                assert(kept[0] == commands.first());
                assert(promised_from(start, values, done + 1, insertions(rest))) by {
                    assert forall|k: int| 0 <= k < insertions(rest).len() implies (
                    #[trigger] insertions(rest)[k]).message == AtomicIndexedMessageType::Add(
                        values[done + 1 + k],
                        start.reservation((done + 1 + k) as nat)->0,
                    ) by {
                        assert(insertions(rest)[k] == kept[k + 1]);
                    }
                }
                start.lemma_reservation_position(done);
                start.lemma_free_within_slots();
                let next = current.insert(id, elem);
                current.lemma_insert_resolves(id, elem, id);
                if target is Some {
                    current.lemma_insert_resolves(id, elem, start.reservation(target->0)->0);
                    lemma_spares_rest(commands, start.reservation(target->0)->0);
                }
                lemma_promised_replay(start, values, done + 1, next, rest, target);
            },
        }
    }
}

/// What spares a handle spares it from the second command on.
proof fn lemma_spares_rest<T>(commands: Seq<AtomicIndexedCommand<T>>, id: u64)
    requires
        commands.len() > 0,
    ensures
        spares(commands, id) ==> spares(commands.drop_first(), id),
{
}

/// What spares a handle spares it in whatever order the commands are put.
proof fn lemma_spares_in_order<T>(commands: Seq<AtomicIndexedCommand<T>>, id: u64)
    requires
        spares(commands, id),
    ensures
        spares(in_order(commands), id),
{
    broadcast use vstd::seq_lib::group_to_multiset_ensures;

    lemma_in_order(commands);
    assert forall|k: int| 0 <= k < in_order(commands).len() implies (
    #[trigger] in_order(commands)[k]).message != AtomicIndexedMessageType::<T>::Remove(id) by {
        let command = in_order(commands)[k];
        assert(commands.to_multiset().count(command) > 0);
        assert(commands.contains(command));
    }
}

/// Removals do not disturb the promises of an epoch. Let the insertions
/// among the commands be the promised ones, in the order of their
/// reservations, with removals of whatever handles anywhere between them.
/// Then the replay is refused nowhere, and afterwards each promised handle
/// resolves to its value, unless one of the removals is of that handle.
pub proof fn lemma_removals_do_not_disturb<T>(
    store: StoreView<T>,
    values: Seq<T>,
    commands: Seq<AtomicIndexedCommand<T>>,
)
    requires
        store.wf(),
        insertions_as_promised(store, values, insertions(commands)),
    ensures
        replay(store, commands).1 is None,
        replay(store, commands).0.wf(),
        forall|i: nat|
            i < values.len() && spares(commands, (#[trigger] store.reservation(i))->0) ==> replay(
                store,
                commands,
            ).0.get(store.reservation(i)->0) == Some(values[i as int]),
{
    assert forall|i: nat| i < values.len() implies (#[trigger] store.reservation(i)) is Some by {
        assert(insertions(commands)[i as int].message is Add);
    }
    lemma_promised_replay(store, values, 0, store, commands, None);
    assert forall|i: nat|
        i < values.len() && spares(commands, (#[trigger] store.reservation(i))->0) implies replay(
        store,
        commands,
    ).0.get(store.reservation(i)->0) == Some(values[i as int]) by {
        lemma_promised_replay(store, values, 0, store, commands, Some(i));
    }
}

/// The commit of an epoch keeps its promises. Let every value be submitted
/// under the handle of its reservation, with sequence numbers that ascend
/// in the order of the reservations, and let removals of whatever handles
/// be submitted besides. Then, in whatever order the commands have arrived,
/// the replay in the order of their numbers is refused nowhere, and
/// afterwards each promised handle resolves to its value, unless one of the
/// removals is of that handle.
pub proof fn lemma_commit_with_removals<T>(
    store: StoreView<T>,
    values: Seq<T>,
    submitted: Seq<AtomicIndexedCommand<T>>,
    arrived: Seq<AtomicIndexedCommand<T>>,
)
    requires
        store.wf(),
        insertions_as_promised(store, values, submitted),
        ordered(submitted),
        distinctly_numbered(submitted),
        insertions(arrived).to_multiset() == submitted.to_multiset(),
    ensures
        replay(store, in_order(arrived)).1 is None,
        replay(store, in_order(arrived)).0.wf(),
        forall|i: nat|
            i < values.len() && spares(arrived, (#[trigger] store.reservation(i))->0) ==> replay(
                store,
                in_order(arrived),
            ).0.get(store.reservation(i)->0) == Some(values[i as int]),
{
    lemma_insertions_in_order(arrived);
    lemma_arrival_is_immaterial(submitted, insertions(arrived));
    lemma_removals_do_not_disturb(store, values, in_order(arrived));
    assert forall|i: nat|
        i < values.len() && spares(arrived, (#[trigger] store.reservation(i))->0) implies replay(
        store,
        in_order(arrived),
    ).0.get(store.reservation(i)->0) == Some(values[i as int]) by {
        lemma_spares_in_order(arrived, store.reservation(i)->0);
    }
}

/// Whether `insertions` are the insertions of the values whose numbers
/// `order` lists from its entry `from` on: one for each, in that order, each
/// under the handle that `store` promises for the number of its value.
pub open spec fn promised_in_order<T>(
    store: StoreView<T>,
    values: Seq<T>,
    order: Seq<nat>,
    from: nat,
    insertions: Seq<AtomicIndexedCommand<T>>,
) -> bool {
    &&& order.len() == values.len()
    &&& order.no_duplicates()
    &&& forall|k: int| 0 <= k < order.len() ==> #[trigger] order[k] < values.len()
    &&& insertions.len() == order.len() - from
    &&& forall|k: int|
        0 <= k < insertions.len() ==> (#[trigger] insertions[k]).message
            == AtomicIndexedMessageType::Add(
            values[order[from + k] as int],
            store.reservation(order[from + k])->0,
        )
}

/// Whether `current`, which has grown out of `start`, is ready for the value
/// of the reservation `number` of `start`. A free position that was promised
/// is as free as it was. A new position that was promised lies beyond the end
/// still, or it has been skipped.
#[verifier::opaque]
spec fn waits<T>(start: StoreView<T>, current: StoreView<T>, number: nat) -> bool {
    let index = from_id(start.reservation(number)->0).index as int;
    if number < start.missing.len() {
        &&& index < current.slots.len()
        &&& current.slots[index] == start.slots[index]
        &&& current.missing.contains(index as usize)
    } else {
        index >= current.slots.len() || current.skipped(index)
    }
}

/// Every position that a store promises is ready for its value in the store
/// itself.
proof fn lemma_waits_at_first<T>(start: StoreView<T>, number: nat)
    requires
        start.wf(),
        start.reservation(number) is Some,
    ensures
        waits(start, start, number),
{
    reveal(waits);
    start.lemma_reservation_position(number);
    if number < start.missing.len() {
        let index = start.missing[start.missing.len() - 1 - number];
        assert(start.missing.contains(index));
    }
}

/// A store takes the value of a promised position that is ready for it.
proof fn lemma_waits_is_taken<T>(start: StoreView<T>, current: StoreView<T>, number: nat)
    requires
        start.wf(),
        current.wf(),
        start.reservation(number) is Some,
        waits(start, current, number),
    ensures
        current.refusal(start.reservation(number)->0) is None,
{
    reveal(waits);
    start.lemma_reservation_position(number);
    if number < start.missing.len() {
        assert(start.slots[from_id(start.reservation(number)->0).index as int].value is None);
    }
}

/// A removal leaves every promised position ready for its value: the
/// position holds no value that could be removed.
proof fn lemma_waits_after_removal<T>(
    start: StoreView<T>,
    current: StoreView<T>,
    number: nat,
    id: u64,
)
    requires
        start.wf(),
        current.wf(),
        start.reservation(number) is Some,
        waits(start, current, number),
    ensures
        waits(start, current.remove(id), number),
{
    reveal(waits);
    let next = current.remove(id);
    let index = from_id(start.reservation(number)->0).index as int;
    start.lemma_reservation_position(number);
    if current.get(id) is Some {
        if number < start.missing.len() {
            assert(start.slots[index].value is None);
            let at = choose|at: int|
                0 <= at < current.missing.len() && current.missing[at] == index as usize;
            assert(next.missing[at] == index as usize);
        } else if index < current.slots.len() {
            if next.missing.contains(index as usize) {
                let at = choose|at: int|
                    0 <= at < next.missing.len() && next.missing[at] == index as usize;
                if at < current.missing.len() {
                    assert(current.missing[at] == index as usize);
                }
            }
        }
    }
}

/// After the value of one promised position has been taken, every other
/// promised position is as ready for its own as it was.
proof fn lemma_waits_after_insertion<T>(
    start: StoreView<T>,
    current: StoreView<T>,
    number: nat,
    other: nat,
    elem: T,
)
    requires
        start.wf(),
        current.wf(),
        start.reservation(number) is Some,
        start.reservation(other) is Some,
        waits(start, current, number),
        waits(start, current, other),
        number != other,
    ensures
        waits(start, current.insert(start.reservation(number)->0, elem), other),
{
    reveal(waits);
    let id = start.reservation(number)->0;
    let index = from_id(id).index as int;
    let place = from_id(start.reservation(other)->0).index as int;
    let next = current.insert(id, elem);
    start.lemma_reservation_position(number);
    start.lemma_reservation_position(other);
    start.lemma_reservations_distinct(number, other);
    current.lemma_insert_resolves(id, elem, id);
    if number < start.missing.len() {
        assert(start.slots[index].value is None);
    }
    let from_stack = index < current.slots.len() && current.missing.contains(index as usize);
    if other < start.missing.len() {
        let at = choose|at: int|
            0 <= at < current.missing.len() && current.missing[at] == place as usize;
        if from_stack {
            let gone = current.missing.index_of(index as usize);
            assert(current.missing[gone] == index as usize);
            let moved = if at < gone {
                at
            } else {
                at - 1
            };
            assert(next.missing[moved] == place as usize);
        } else {
            assert(next.missing[at] == place as usize);
        }
    } else if place < next.slots.len() {
        if place < current.slots.len() {
            if next.missing.contains(place as usize) {
                let at = choose|at: int|
                    0 <= at < next.missing.len() && next.missing[at] == place as usize;
                if from_stack {
                    let gone = current.missing.index_of(index as usize);
                    let before = if at < gone {
                        at
                    } else {
                        at + 1
                    };
                    assert(current.missing[before] == place as usize);
                } else {
                    assert(current.missing[at] == place as usize);
                }
            }
        } else {
            assert(next.skipped(place));
        }
    }
}

/// The step of `lemma_promises_kept_in_any_order`: `current` is what the
/// store `start` has become after the first `done` insertions and any number
/// of removals. Where `target` names an insertion, none of these removals
/// was of its handle.
proof fn lemma_unordered_replay<T>(
    start: StoreView<T>,
    values: Seq<T>,
    order: Seq<nat>,
    done: nat,
    current: StoreView<T>,
    commands: Seq<AtomicIndexedCommand<T>>,
    target: Option<int>,
)
    requires
        start.wf(),
        current.wf(),
        done <= values.len(),
        forall|i: nat| i < values.len() ==> (#[trigger] start.reservation(i)) is Some,
        promised_in_order(start, values, order, done, insertions(commands)),
        forall|k: int| done <= k < order.len() ==> waits(start, current, #[trigger] order[k]),
        target matches Some(at) ==> 0 <= at < order.len() && (at < done ==> current.get(
            start.reservation(order[at])->0,
        ) == Some(values[order[at] as int])),
    ensures
        replay(current, commands).1 is None,
        replay(current, commands).0.wf(),
        target matches Some(at) ==> spares(commands, start.reservation(order[at])->0) ==> replay(
            current,
            commands,
        ).0.get(start.reservation(order[at])->0) == Some(values[order[at] as int]),
    decreases commands.len(),
{
    if commands.len() > 0 {
        let rest = commands.drop_first();
        lemma_insertions_front(commands);
        match commands.first().message {
            AtomicIndexedMessageType::Remove(id) => {
                let next = current.remove(id);
                current.lemma_remove_invalidates(id);
                assert forall|k: int| done <= k < order.len() implies waits(
                    start,
                    next,
                    #[trigger] order[k],
                ) by {
                    lemma_waits_after_removal(start, current, order[k], id);
                }
                if target is Some && id != start.reservation(order[target->0])->0 {
                    let kept = start.reservation(order[target->0])->0;
                    if from_id(id).index == from_id(kept).index {
                        lemma_codec_inverse(from_id(id), id);
                        lemma_codec_inverse(from_id(kept), kept);
                    }
                    lemma_spares_rest(commands, kept);
                    lemma_unordered_replay(start, values, order, done, next, rest, target);
                } else {
                    if target is Some {
                        assert(commands[0].message == AtomicIndexedMessageType::<T>::Remove(
                            start.reservation(order[target->0])->0,
                        ));
                    }
                    lemma_unordered_replay(start, values, order, done, next, rest, None);
                }
            },
            AtomicIndexedMessageType::Add(elem, id) => {
                let kept = insertions(commands);
                assert(kept[0] == commands.first());
                let number = order[done as int];
                assert(id == start.reservation(number)->0);
                assert(promised_in_order(start, values, order, done + 1, insertions(rest))) by {
                    assert forall|k: int| 0 <= k < insertions(rest).len() implies
                        (#[trigger] insertions(rest)[k]).message == AtomicIndexedMessageType::Add(
                        values[order[done + 1 + k] as int],
                        start.reservation(order[done + 1 + k])->0,
                    ) by {
                        assert(insertions(rest)[k] == kept[k + 1]);
                    }
                }
                let next = current.insert(id, elem);
                current.lemma_insert_resolves(id, elem, id);
                lemma_waits_is_taken(start, current, number);
                assert forall|k: int| done + 1 <= k < order.len() implies waits(
                    start,
                    next,
                    #[trigger] order[k],
                ) by {
                    lemma_waits_after_insertion(start, current, number, order[k], elem);
                }
                if target is Some {
                    current.lemma_insert_resolves(
                        id,
                        elem,
                        start.reservation(order[target->0])->0,
                    );
                    lemma_spares_rest(commands, start.reservation(order[target->0])->0);
                }
                lemma_unordered_replay(start, values, order, done + 1, next, rest, target);
            },
        }
    }
}

/// The promises of an epoch are kept in whatever order the values arrive.
/// Let the insertions among the commands be the promised ones, each once, in
/// any order, with removals of whatever handles anywhere between them. Then
/// the replay is refused nowhere: a value that arrives before the values
/// promised lower positions leaves those positions behind for them, and
/// they are taken when they arrive. Afterwards each promised handle resolves
/// to its value, unless one of the removals is of that handle.
pub proof fn lemma_promises_kept_in_any_order<T>(
    store: StoreView<T>,
    values: Seq<T>,
    order: Seq<nat>,
    commands: Seq<AtomicIndexedCommand<T>>,
)
    requires
        store.wf(),
        forall|i: nat| i < values.len() ==> (#[trigger] store.reservation(i)) is Some,
        promised_in_order(store, values, order, 0, insertions(commands)),
    ensures
        replay(store, commands).1 is None,
        replay(store, commands).0.wf(),
        forall|k: int|
            0 <= k < order.len() && spares(commands, store.reservation(#[trigger] order[k])->0)
                ==> replay(store, commands).0.get(store.reservation(order[k])->0) == Some(
                values[order[k] as int],
            ),
{
    assert forall|k: int| 0 <= k < order.len() implies waits(store, store, #[trigger] order[k]) by {
        lemma_waits_at_first(store, order[k]);
    }
    lemma_unordered_replay(store, values, order, 0, store, commands, None);
    assert forall|k: int|
        0 <= k < order.len() && spares(
            commands,
            store.reservation(#[trigger] order[k])->0,
        ) implies replay(store, commands).0.get(store.reservation(order[k])->0) == Some(
        values[order[k] as int],
    ) by {
        lemma_unordered_replay(store, values, order, 0, store, commands, Some(k));
    }
}

} // verus!
