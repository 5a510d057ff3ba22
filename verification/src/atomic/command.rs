//! Commands, the order of their replay, and the log that keeps them until
//! the owner of the store replays them.

use vstd::prelude::*;
use std::sync::atomic::{AtomicU64, Ordering};
use crate::atomic::message::AtomicIndexedMessageType;

verus! {

/// A message stamped with its place in the order of submission.
#[derive(Debug)]
pub struct AtomicIndexedCommand<T> {
    /// Sequence number: commands are replayed in ascending order of it.
    pub command_id: u64,
    /// What is asked for.
    pub message: AtomicIndexedMessageType<T>,
}

impl<T> AtomicIndexedCommand<T> {
    /// Stamps `message` with the sequence number `command_id`.
    pub fn new(command_id: u64, message: AtomicIndexedMessageType<T>) -> (command: Self)
        ensures
            command.command_id == command_id,
            command.message == message,
    {
        Self { command_id, message }
    }
}

/// A source of sequence numbers that any number of threads can share.
#[derive(Debug)]
pub struct CommandCounter {
    next: AtomicU64,
}

impl CommandCounter {
    /// A counter whose first number is `first`.
    pub fn new(first: u64) -> Self {
        CommandCounter { next: AtomicU64::new(first) }
    }

    /// Stamps `message` with the next number of the counter. Every call gets
    /// another number, whichever thread makes it.
    pub fn stamp<T>(&self, message: AtomicIndexedMessageType<T>) -> (command: AtomicIndexedCommand<
        T,
    >)
        ensures
            command.message == message,
    {
        let command_id: u64 = self.next.fetch_add(1, Ordering::Relaxed);
        AtomicIndexedCommand::new(command_id, message)
    }
}

/// Whether the sequence numbers never descend along `commands`.
pub open spec fn ordered<T>(commands: Seq<AtomicIndexedCommand<T>>) -> bool {
    forall|i: int, j: int|
        0 <= i <= j < commands.len() ==> commands[i].command_id <= commands[j].command_id
}

/// Where a command with the number `command_id` goes among `commands`: behind
/// the last command whose number is not greater.
pub open spec fn place<T>(commands: Seq<AtomicIndexedCommand<T>>, command_id: u64) -> nat
    decreases commands.len(),
{
    if commands.len() == 0 || commands.last().command_id <= command_id {
        commands.len()
    } else {
        place(commands.drop_last(), command_id)
    }
}

/// `commands` with `command` put at its place.
pub open spec fn put_in_order<T>(
    commands: Seq<AtomicIndexedCommand<T>>,
    command: AtomicIndexedCommand<T>,
) -> Seq<AtomicIndexedCommand<T>> {
    commands.insert(place(commands, command.command_id) as int, command)
}

/// `commands` in ascending order of their sequence numbers. Commands with
/// the same number stay in the order in which they stand in `commands`.
pub open spec fn in_order<T>(commands: Seq<AtomicIndexedCommand<T>>) -> Seq<
    AtomicIndexedCommand<T>,
>
    decreases commands.len(),
{
    if commands.len() == 0 {
        commands
    } else {
        put_in_order(in_order(commands.drop_last()), commands.last())
    }
}

/// Whether no two of `commands` carry the same sequence number.
pub open spec fn distinctly_numbered<T>(commands: Seq<AtomicIndexedCommand<T>>) -> bool {
    forall|i: int, j: int|
        0 <= i < commands.len() && 0 <= j < commands.len() && i != j ==> commands[i].command_id
            != commands[j].command_id
}

/// The place of a number lies within the sequence, behind it stand only
/// greater numbers, and just before it a number that is not greater.
pub proof fn lemma_place<T>(commands: Seq<AtomicIndexedCommand<T>>, command_id: u64)
    ensures
        place(commands, command_id) <= commands.len(),
        forall|k: int|
            place(commands, command_id) <= k < commands.len() ==> (#[trigger] commands[k]).command_id
                > command_id,
        place(commands, command_id) > 0 ==> commands[place(commands, command_id) - 1].command_id
            <= command_id,
    decreases commands.len(),
{
    if commands.len() > 0 && commands.last().command_id > command_id {
        lemma_place(commands.drop_last(), command_id);
        assert forall|k: int|
            place(commands, command_id) <= k < commands.len() implies (
        #[trigger] commands[k]).command_id > command_id by {
            if k < commands.len() - 1 {
                assert(commands[k] == commands.drop_last()[k]);
            }
        }
    }
}

/// Putting the commands in order yields an ascending sequence that holds
/// the same commands, each as often as before.
pub proof fn lemma_in_order<T>(commands: Seq<AtomicIndexedCommand<T>>)
    ensures
        ordered(in_order(commands)),
        in_order(commands).len() == commands.len(),
        in_order(commands).to_multiset() == commands.to_multiset(),
    decreases commands.len(),
{
    broadcast use {vstd::seq_lib::to_multiset_insert, vstd::seq_lib::to_multiset_build};

    if commands.len() > 0 {
        let front = commands.drop_last();
        let command = commands.last();
        let sorted = in_order(front);
        lemma_in_order(front);
        lemma_place(sorted, command.command_id);
        let at = place(sorted, command.command_id) as int;
        let grown = sorted.insert(at, command);
        assert forall|i: int, j: int| 0 <= i <= j < grown.len() implies grown[i].command_id
            <= grown[j].command_id by {
            // but for the command itself, the grown sequence holds the sorted one
            if i != at {
                assert(grown[i] == sorted[if i < at { i } else { i - 1 }]);
            }
            if j != at {
                assert(grown[j] == sorted[if j < at { j } else { j - 1 }]);
            }
        }
        assert(front.push(command) =~= commands);
    }
}

/// Commands that stand in ascending order already stay as they are.
pub proof fn lemma_in_order_of_ordered<T>(commands: Seq<AtomicIndexedCommand<T>>)
    requires
        ordered(commands),
    ensures
        in_order(commands) == commands,
    decreases commands.len(),
{
    if commands.len() > 0 {
        let front = commands.drop_last();
        lemma_in_order_of_ordered(front);
    }
}

/// An ascending sequence of distinctly numbered commands is the only
/// ascending sequence of these commands.
pub proof fn lemma_order_is_unique<T>(
    first: Seq<AtomicIndexedCommand<T>>,
    second: Seq<AtomicIndexedCommand<T>>,
)
    requires
        ordered(first),
        ordered(second),
        distinctly_numbered(first),
        first.to_multiset() == second.to_multiset(),
    ensures
        first == second,
    decreases first.len(),
{
    broadcast use vstd::multiset::group_multiset_axioms;
    broadcast use vstd::seq_lib::group_to_multiset_ensures;

    assert(first.len() == second.len()) by {
        assert(first.to_multiset().len() == first.len());
    }
    if first.len() > 0 {
        assert(first.to_multiset().count(first[0]) > 0);
        assert(second.to_multiset().count(second[0]) > 0);
        assert(first.drop_first().to_multiset() =~= first.to_multiset().remove(first[0])) by {
            assert(first.remove(0) =~= first.drop_first());
        }
        assert(second.drop_first().to_multiset() =~= second.to_multiset().remove(second[0])) by {
            assert(second.remove(0) =~= second.drop_first());
        }
        let first_rest = first.drop_first();
        let second_rest = second.drop_first();
        lemma_order_is_unique(first_rest, second_rest);
        assert(first =~= second) by {
            assert forall|k: int| 0 <= k < first.len() implies first[k] == second[k] by {
                if k > 0 {
                    assert(first[k] == first_rest[k - 1]);
                }
            }
        }
    }
}

/// The insertions among `commands`, in their order.
pub open spec fn insertions<T>(commands: Seq<AtomicIndexedCommand<T>>) -> Seq<
    AtomicIndexedCommand<T>,
>
    decreases commands.len(),
{
    if commands.len() == 0 {
        commands
    } else if commands.last().message is Add {
        insertions(commands.drop_last()).push(commands.last())
    } else {
        insertions(commands.drop_last())
    }
}

/// The insertions among commands are their first command, if that is an
/// insertion, and the insertions among the others.
pub proof fn lemma_insertions_front<T>(commands: Seq<AtomicIndexedCommand<T>>)
    requires
        commands.len() > 0,
    ensures
        insertions(commands) == if commands.first().message is Add {
            seq![commands.first()] + insertions(commands.drop_first())
        } else {
            insertions(commands.drop_first())
        },
    decreases commands.len(),
{
    let empty = Seq::<AtomicIndexedCommand<T>>::empty();
    let front = commands.drop_last();
    let rest = commands.drop_first();
    if commands.len() == 1 {
        assert(front =~= empty);
        assert(rest =~= empty);
    } else {
        lemma_insertions_front(front);
        assert(front.drop_first() =~= rest.drop_last());
        if commands.first().message is Add {
            assert((seq![commands.first()] + insertions(rest.drop_last())).push(commands.last())
                =~= seq![commands.first()] + insertions(rest.drop_last()).push(commands.last()));
        }
    }
}

/// No insertion among ascending commands has a greater number than the last
/// of the commands.
pub proof fn lemma_insertions_bounded<T>(commands: Seq<AtomicIndexedCommand<T>>)
    requires
        ordered(commands),
        commands.len() > 0,
    ensures
        forall|k: int|
            0 <= k < insertions(commands).len() ==> (#[trigger] insertions(commands)[k]).command_id
                <= commands.last().command_id,
    decreases commands.len(),
{
    let front = commands.drop_last();
    if front.len() > 0 {
        lemma_insertions_bounded(front);
    } else {
        assert(insertions(front) =~= Seq::<AtomicIndexedCommand<T>>::empty());
    }
}

/// Putting a command in order among ascending commands and then keeping the
/// insertions is keeping the insertions and then putting the command in
/// order, if it is an insertion; a removal leaves the insertions as they
/// were.
pub proof fn lemma_insertions_put<T>(
    commands: Seq<AtomicIndexedCommand<T>>,
    command: AtomicIndexedCommand<T>,
)
    requires
        ordered(commands),
    ensures
        insertions(put_in_order(commands, command)) == if command.message is Add {
            put_in_order(insertions(commands), command)
        } else {
            insertions(commands)
        },
    decreases commands.len(),
{
    let empty = Seq::<AtomicIndexedCommand<T>>::empty();
    if commands.len() == 0 {
        let one = empty.push(command);
        assert(put_in_order(commands, command) =~= one);
        assert(one.last() == command && one.drop_last() =~= empty);
        assert(insertions(empty) =~= empty);
    } else {
        let front = commands.drop_last();
        let last = commands.last();
        assert(commands =~= front.push(last));
        lemma_put_behind(front, last, command);
        if last.command_id <= command.command_id {
            let longer = commands.push(command);
            assert(longer.last() == command && longer.drop_last() =~= commands);
            if command.message is Add {
                lemma_insertions_bounded(commands);
            }
        } else {
            lemma_insertions_put(front, command);
            let grown = put_in_order(front, command).push(last);
            assert(grown.last() == last && grown.drop_last() =~= put_in_order(front, command));
            if last.message is Add {
                if command.message is Add {
                    lemma_put_behind(insertions(front), last, command);
                }
            }
        }
    }
}

/// Keeping the insertions commutes with putting the commands in order.
pub proof fn lemma_insertions_in_order<T>(commands: Seq<AtomicIndexedCommand<T>>)
    ensures
        insertions(in_order(commands)) == in_order(insertions(commands)),
    decreases commands.len(),
{
    if commands.len() > 0 {
        lemma_insertions_in_order(commands.drop_last());
        lemma_in_order(commands.drop_last());
        lemma_insertions_put(in_order(commands.drop_last()), commands.last());
        if commands.last().message is Add {
            let kept = insertions(commands.drop_last()).push(commands.last());
            assert(kept.drop_last() =~= insertions(commands.drop_last()));
        }
    }
}

/// The order of arrival is immaterial: distinctly numbered commands leave
/// the log in the order of their numbers, in whatever order they arrived.
pub proof fn lemma_arrival_is_immaterial<T>(
    submitted: Seq<AtomicIndexedCommand<T>>,
    arrived: Seq<AtomicIndexedCommand<T>>,
)
    requires
        ordered(submitted),
        distinctly_numbered(submitted),
        arrived.to_multiset() == submitted.to_multiset(),
    ensures
        in_order(arrived) == submitted,
{
    lemma_in_order(arrived);
    lemma_order_is_unique(submitted, in_order(arrived));
}

/// Two ascending sequences as one: the commands of both in ascending order,
/// those of `left` before those of `right` where the numbers are the same.
pub open spec fn merged<T>(
    left: Seq<AtomicIndexedCommand<T>>,
    right: Seq<AtomicIndexedCommand<T>>,
) -> Seq<AtomicIndexedCommand<T>>
    decreases left.len() + right.len(),
{
    if right.len() == 0 {
        left
    } else if left.len() == 0 {
        right
    } else if left.last().command_id > right.last().command_id {
        merged(left.drop_last(), right).push(left.last())
    } else {
        merged(left, right.drop_last()).push(right.last())
    }
}

/// A command goes behind the last of a sequence if its number is not less,
/// and else to its place among the others.
pub proof fn lemma_put_behind<T>(
    commands: Seq<AtomicIndexedCommand<T>>,
    last: AtomicIndexedCommand<T>,
    command: AtomicIndexedCommand<T>,
)
    ensures
        put_in_order(commands.push(last), command) == if last.command_id <= command.command_id {
            commands.push(last).push(command)
        } else {
            put_in_order(commands, command).push(last)
        },
{
    let longer = commands.push(last);
    assert(longer.drop_last() =~= commands);
    lemma_place(commands, command.command_id);
}

/// Putting a command in order after merging is merging after putting it in
/// order on the right.
pub proof fn lemma_merged_put<T>(
    left: Seq<AtomicIndexedCommand<T>>,
    right: Seq<AtomicIndexedCommand<T>>,
    command: AtomicIndexedCommand<T>,
)
    ensures
        put_in_order(merged(left, right), command) == merged(left, put_in_order(right, command)),
    decreases left.len() + right.len(),
{
    let grown = put_in_order(right, command);
    // what the right side becomes, by its last command
    if right.len() > 0 {
        assert(right =~= right.drop_last().push(right.last()));
        lemma_put_behind(right.drop_last(), right.last(), command);
    }
    let grown_last = if right.len() == 0 || right.last().command_id <= command.command_id {
        command
    } else {
        right.last()
    };
    let grown_front = if right.len() == 0 || right.last().command_id <= command.command_id {
        right
    } else {
        put_in_order(right.drop_last(), command)
    };
    assert(grown.drop_last() =~= grown_front);
    if left.len() > 0 {
        let front = left.drop_last();
        let last = left.last();
        assert(left =~= front.push(last));
        if last.command_id > grown_last.command_id {
            // the last of the left is the last of all, before and after
            if right.len() == 0 {
                lemma_put_behind(front, last, command);
                lemma_merged_put(front, right, command);
            } else {
                lemma_put_behind(merged(front, right), last, command);
                lemma_merged_put(front, right, command);
            }
        } else {
            if right.len() == 0 || right.last().command_id <= command.command_id {
                // the command is the last of all
                if right.len() == 0 {
                    lemma_put_behind(front, last, command);
                } else if last.command_id > right.last().command_id {
                    lemma_put_behind(merged(front, right), last, command);
                } else {
                    assert(merged(left, right) == merged(left, right.drop_last()).push(
                        right.last(),
                    ));
                    lemma_put_behind(merged(left, right.drop_last()), right.last(), command);
                }
            } else {
                // the last of the right is the last of all, before and after
                lemma_put_behind(merged(left, right.drop_last()), right.last(), command);
                lemma_merged_put(left, right.drop_last(), command);
            }
        }
    }
}

/// The order of a sequence is the merge of the orders of its two parts,
/// wherever it is cut.
pub proof fn lemma_in_order_of_parts<T>(
    left: Seq<AtomicIndexedCommand<T>>,
    right: Seq<AtomicIndexedCommand<T>>,
)
    ensures
        in_order(left + right) == merged(in_order(left), in_order(right)),
    decreases right.len(),
{
    if right.len() > 0 {
        let whole = left + right;
        assert(whole.drop_last() =~= left + right.drop_last());
        lemma_in_order_of_parts(left, right.drop_last());
        lemma_merged_put(in_order(left), in_order(right.drop_last()), right.last());
    }
}

/// Merges two ascending vectors into one.
fn merge<T>(left: Vec<AtomicIndexedCommand<T>>, right: Vec<AtomicIndexedCommand<T>>) -> (both: Vec<
    AtomicIndexedCommand<T>,
>)
    ensures
        both@ == merged(left@, right@),
{
    let ghost target = merged(left@, right@);
    let mut left = left;
    let mut right = right;
    // the greatest commands first, taken from the ends of both
    let mut taken: Vec<AtomicIndexedCommand<T>> = Vec::new();
    while left.len() > 0 && right.len() > 0
        invariant
            target == merged(left@, right@) + taken@.reverse(),
        decreases left.len() + right.len(),
    {
        let ghost taken_before = taken@;
        let command = if left[left.len() - 1].command_id > right[right.len() - 1].command_id {
            left.pop().unwrap()
        } else {
            right.pop().unwrap()
        };
        taken.push(command);
        proof {
            assert(merged(left@, right@).push(command) + taken_before.reverse() =~= merged(
                left@,
                right@,
            ) + taken@.reverse());
        }
    }
    let mut both = if left.len() > 0 {
        left
    } else {
        right
    };
    while taken.len() > 0
        invariant
            target == both@ + taken@.reverse(),
        decreases taken.len(),
    {
        let command = taken.pop().unwrap();
        both.push(command);
    }
    both
}

/// The commands in ascending order of their sequence numbers, by merging
/// the orders of the two halves.
fn sorted<T>(commands: Vec<AtomicIndexedCommand<T>>) -> (ascending: Vec<AtomicIndexedCommand<T>>)
    ensures
        ascending@ == in_order(commands@),
    decreases commands@.len(),
{
    let len: usize = commands.len();
    if len <= 1 {
        proof {
            if len == 1 {
                assert(put_in_order(in_order(commands@.drop_last()), commands@.last())
                    =~= commands@);
            }
        }
        return commands;
    }
    let ghost whole = commands@;
    let mut left = commands;
    let right = left.split_off(len / 2);
    proof {
        assert(left@ + right@ =~= whole);
        lemma_in_order_of_parts(left@, right@);
    }
    let left = sorted(left);
    let right = sorted(right);
    merge(left, right)
}

/// Brings `commands` into ascending order of their sequence numbers.
/// Commands with the same number stay in the order in which they stand.
pub fn sort_commands<T>(commands: &mut Vec<AtomicIndexedCommand<T>>)
    ensures
        final(commands)@ == in_order(old(commands)@),
{
    let mut arrived: Vec<AtomicIndexedCommand<T>> = Vec::new();
    std::mem::swap(&mut arrived, commands);
    let mut ascending = sorted(arrived);
    std::mem::swap(&mut ascending, commands);
}

/// What a log holds: the commands in the order of their arrival, and the
/// sequence number that the next submission gets.
#[verifier::ext_equal]
pub struct LogView<T> {
    pub pending: Seq<AtomicIndexedCommand<T>>,
    pub next_id: nat,
}

impl<T> LogView<T> {
    /// The log with no command, numbering from 0.
    pub open spec fn empty() -> Self {
        LogView { pending: Seq::empty(), next_id: 0 }
    }
}

/// The commands that were handed to the owner of a store and are not replayed
/// yet. Commands may arrive in any order; they leave in the order of their
/// sequence numbers.
#[derive(Debug)]
pub struct CommandLog<T> {
    pending: Vec<AtomicIndexedCommand<T>>,
    next_id: u64,
}

impl<T> View for CommandLog<T> {
    type V = LogView<T>;

    closed spec fn view(&self) -> LogView<T> {
        LogView { pending: self.pending@, next_id: self.next_id as nat }
    }
}

impl<T> CommandLog<T> {
    /// A log with no command, numbering from 0.
    pub fn new() -> (log: Self)
        ensures
            log@ == LogView::<T>::empty(),
    {
        CommandLog { pending: Vec::new(), next_id: 0 }
    }

    /// Appends `message` under the next sequence number and returns that
    /// number.
    pub fn submit(&mut self, message: AtomicIndexedMessageType<T>) -> (command_id: u64)
        requires
            old(self)@.next_id < u64::MAX,
        ensures
            command_id == old(self)@.next_id,
            final(self)@.next_id == old(self)@.next_id + 1,
            final(self)@.pending == old(self)@.pending.push(
                AtomicIndexedCommand { command_id, message },
            ),
    {
        let command_id: u64 = self.next_id;
        self.pending.push(AtomicIndexedCommand::new(command_id, message));
        self.next_id = command_id + 1;
        command_id
    }

    /// Appends a command that was stamped elsewhere, as it arrives.
    pub fn receive(&mut self, command: AtomicIndexedCommand<T>)
        ensures
            final(self)@.next_id == old(self)@.next_id,
            final(self)@.pending == old(self)@.pending.push(command),
    {
        self.pending.push(command);
    }

    /// The sequence number that the next submission gets.
    pub fn next_id(&self) -> (command_id: u64)
        ensures
            command_id == self@.next_id,
    {
        self.next_id
    }

    /// Number of commands that wait for replay.
    pub fn len(&self) -> (n: usize)
        ensures
            n == self@.pending.len(),
    {
        self.pending.len()
    }

    /// Empties the log and returns its commands in ascending order of their
    /// sequence numbers.
    pub fn drain_ordered(&mut self) -> (drained: Vec<AtomicIndexedCommand<T>>)
        ensures
            drained@ == in_order(old(self)@.pending),
            final(self)@.pending == Seq::<AtomicIndexedCommand<T>>::empty(),
            final(self)@.next_id == old(self)@.next_id,
    {
        let mut drained: Vec<AtomicIndexedCommand<T>> = Vec::new();
        std::mem::swap(&mut drained, &mut self.pending);
        sort_commands(&mut drained);
        drained
    }
}

} // verus!
