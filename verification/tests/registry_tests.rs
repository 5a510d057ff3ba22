use ordered_vec::atomic::atomic_indexed_ordered_vec::AtomicIndexedOrderedVec;
use ordered_vec::atomic::command::{sort_commands, AtomicIndexedCommand, CommandCounter, CommandLog};
use ordered_vec::atomic::message::AtomicIndexedMessageType;
use ordered_vec::ordered_vec::{OrderedVec, ProtocolViolation};
use ordered_vec::shareable_ordered_vec::ShareableOrderedVec;

fn numbers<T>(commands: &[AtomicIndexedCommand<T>]) -> Vec<u64> {
    commands.iter().map(|command| command.command_id).collect()
}

#[test]
fn commands_are_replayed_in_the_order_of_their_numbers() {
    // arrival order 3, 1, 2
    let mut arrived = AtomicIndexedOrderedVec::<&str>::default();
    arrived.receive(AtomicIndexedCommand::new(
        3,
        AtomicIndexedMessageType::Add("third", 0 | (1_u64 << 32)),
    ));
    arrived.receive(AtomicIndexedCommand::new(
        1,
        AtomicIndexedMessageType::Add("first", 0),
    ));
    arrived.receive(AtomicIndexedCommand::new(
        2,
        AtomicIndexedMessageType::Remove(0),
    ));
    assert_eq!(arrived.update(), Ok(()));

    // the same commands, applied directly in the order 1, 2, 3
    let mut direct = ShareableOrderedVec::<&str>::default();
    direct.insert(0, "first").unwrap();
    direct.remove(0);
    assert_eq!(direct.insert(0 | (1_u64 << 32), "third"), Ok(()));

    assert_eq!(arrived.count(), direct.count());
    assert_eq!(arrived.count_invalid(), direct.count_invalid());
    assert_eq!(arrived.get(0), None);
    assert_eq!(arrived.get(0 | (1_u64 << 32)), Some(&"third"));
    assert_eq!(direct.get(0), None);
    assert_eq!(direct.get(0 | (1_u64 << 32)), Some(&"third"));

    // applied in the order of their arrival, the second would be refused
    let mut unordered = ShareableOrderedVec::<&str>::default();
    assert_eq!(unordered.insert(0 | (1_u64 << 32), "third"), Ok(()));
    assert_eq!(
        unordered.insert(0, "first"),
        Err(ProtocolViolation::SlotOccupied)
    );
}

#[test]
fn sort_moves_late_arrivals_forward_and_keeps_ties() {
    let mut commands = vec![
        AtomicIndexedCommand::new(3, AtomicIndexedMessageType::Remove(30)),
        AtomicIndexedCommand::new(1, AtomicIndexedMessageType::Remove(10)),
        AtomicIndexedCommand::new(2, AtomicIndexedMessageType::Remove(20)),
    ];
    sort_commands::<u8>(&mut commands);
    assert_eq!(numbers(&commands), vec![1, 2, 3]);

    let mut ties = vec![
        AtomicIndexedCommand::new(5, AtomicIndexedMessageType::Add('a', 0)),
        AtomicIndexedCommand::new(2, AtomicIndexedMessageType::Add('b', 0)),
        AtomicIndexedCommand::new(5, AtomicIndexedMessageType::Add('c', 0)),
        AtomicIndexedCommand::new(2, AtomicIndexedMessageType::Add('d', 0)),
        AtomicIndexedCommand::new(0, AtomicIndexedMessageType::Add('e', 0)),
    ];
    sort_commands(&mut ties);
    assert_eq!(numbers(&ties), vec![0, 2, 2, 5, 5]);
    let letters: Vec<char> = ties
        .iter()
        .map(|command| match command.message {
            AtomicIndexedMessageType::Add(letter, _) => letter,
            AtomicIndexedMessageType::Remove(_) => '-',
        })
        .collect();
    assert_eq!(letters, vec!['e', 'b', 'd', 'a', 'c']);

    let mut none: Vec<AtomicIndexedCommand<u8>> = Vec::new();
    sort_commands(&mut none);
    assert!(none.is_empty());
}

#[test]
fn log_numbers_submissions_and_drains_in_order() {
    let mut log = CommandLog::<u8>::new();
    assert_eq!(log.submit(AtomicIndexedMessageType::Remove(7)), 0);
    log.receive(AtomicIndexedCommand::new(9, AtomicIndexedMessageType::Remove(8)));
    assert_eq!(log.submit(AtomicIndexedMessageType::Add(1, 0)), 1);
    assert_eq!(log.len(), 3);
    let drained = log.drain_ordered();
    assert_eq!(numbers(&drained), vec![0, 1, 9]);
    assert_eq!(log.len(), 0);
    assert!(log.drain_ordered().is_empty());
    assert_eq!(log.submit(AtomicIndexedMessageType::Remove(7)), 2);
}

#[test]
fn counter_stamps_with_ascending_numbers() {
    let counter = CommandCounter::new(40);
    let a = counter.stamp(AtomicIndexedMessageType::Add("x", 5));
    let b = counter.stamp::<&str>(AtomicIndexedMessageType::Remove(5));
    assert_eq!(a.command_id, 40);
    assert_eq!(b.command_id, 41);
    assert!(matches!(a.message, AtomicIndexedMessageType::Add("x", 5)));
    assert!(matches!(b.message, AtomicIndexedMessageType::Remove(5)));
}

#[test]
fn pushed_values_resolve_after_update() {
    let mut registry = AtomicIndexedOrderedVec::<String>::default();
    assert_eq!(registry.get_next_idx(), 0);
    let a = registry.push_shove("A".to_string());
    let b = registry.push_shove("B".to_string());
    let c = registry.push_shove("C".to_string());
    assert_eq!((a, b, c), (0, 1, 2));
    assert_eq!(registry.get_next_idx(), 3);
    // nothing is in the store before the update
    assert_eq!(registry.count(), 0);
    assert_eq!(registry.get(a), None);
    assert_eq!(registry.update(), Ok(()));
    assert_eq!(registry.count(), 3);
    assert_eq!(registry.get(a).map(String::as_str), Some("A"));
    assert_eq!(registry.get(b).map(String::as_str), Some("B"));
    assert_eq!(registry.get(c).map(String::as_str), Some("C"));

    // next epoch: a removal and two insertions, one into the freed position
    registry.remove(b);
    assert_eq!(registry.update(), Ok(()));
    assert_eq!(registry.count(), 2);
    assert_eq!(registry.count_invalid(), 1);
    assert_eq!(registry.get_next_idx(), 1);
    let d = registry.push_shove("D".to_string());
    let e = registry.push_shove("E".to_string());
    assert_eq!(d, 1 | (1_u64 << 32));
    assert_eq!(e, 3);
    assert_eq!(registry.update(), Ok(()));
    assert_eq!(registry.get(b), None);
    assert_eq!(registry.get(d).map(String::as_str), Some("D"));
    assert_eq!(registry.get(e).map(String::as_str), Some("E"));
    assert_eq!(registry.count(), 4);
    assert_eq!(registry.count_invalid(), 0);
}

#[test]
fn update_stops_at_the_first_refused_insertion() {
    let mut registry = AtomicIndexedOrderedVec::<u8>::default();
    registry.receive(AtomicIndexedCommand::new(0, AtomicIndexedMessageType::Add(1, 0)));
    registry.receive(AtomicIndexedCommand::new(1, AtomicIndexedMessageType::Add(2, 0)));
    registry.receive(AtomicIndexedCommand::new(2, AtomicIndexedMessageType::Add(3, 1)));
    assert_eq!(registry.update(), Err(ProtocolViolation::SlotOccupied));
    // the first insertion stays, the refused one and what followed are dropped
    assert_eq!(registry.count(), 1);
    assert_eq!(registry.get(0), Some(&1));
    assert_eq!(registry.get(1), None);
    assert_eq!(registry.update(), Ok(()));
    assert_eq!(registry.count(), 1);
}

#[test]
fn stale_removal_in_the_log_changes_nothing() {
    let mut registry = AtomicIndexedOrderedVec::<u8>::default();
    let a = registry.push_shove(7);
    registry.update().unwrap();
    registry.remove(a);
    registry.remove(a);
    registry.remove(a | (1_u64 << 32));
    registry.remove(99);
    assert_eq!(registry.update(), Ok(()));
    assert_eq!(registry.count(), 0);
    assert_eq!(registry.count_invalid(), 1);
}

#[test]
fn apply_pending_replays_what_it_is_given() {
    let mut registry = AtomicIndexedOrderedVec::<u8>::default();
    let outcome = registry.apply_pending(vec![
        AtomicIndexedCommand::new(8, AtomicIndexedMessageType::Add(1, 0)),
        AtomicIndexedCommand::new(3, AtomicIndexedMessageType::Add(2, 1)),
        AtomicIndexedCommand::new(5, AtomicIndexedMessageType::Remove(0)),
        AtomicIndexedCommand::new(4, AtomicIndexedMessageType::Add(3, 3)),
        AtomicIndexedCommand::new(9, AtomicIndexedMessageType::Add(4, 2)),
        AtomicIndexedCommand::new(1, AtomicIndexedMessageType::Add(5, 0)),
        AtomicIndexedCommand::new(2, AtomicIndexedMessageType::Add(6, 4)),
    ]);
    // the removed position takes a value at version 1 only
    assert_eq!(outcome, Err(ProtocolViolation::VersionMismatch));
    assert_eq!(registry.count(), 3);
    assert_eq!(registry.count_invalid(), 1);
    assert_eq!(registry.get(0), None);
    assert_eq!(registry.get(1), Some(&2));
    assert_eq!(registry.get(2), Some(&4));
    assert_eq!(registry.get(3), Some(&3));
    assert_eq!(registry.get(4), None);
}

#[test]
fn a_late_command_does_not_end_the_commit() {
    let mut registry = AtomicIndexedOrderedVec::<u32>::default();
    let state = registry.begin_epoch();
    let counter = CommandCounter::new(0);
    let first = state.get_next_id_increment().unwrap();
    let second = state.get_next_id_increment().unwrap();
    let third = state.get_next_id_increment().unwrap();
    assert_eq!((first, second, third), (0, 1, 2));
    // the producer of the first handle is slow: its command is stamped last
    // and arrives after the commit
    registry.receive(counter.stamp(AtomicIndexedMessageType::Add(22, third)));
    registry.receive(counter.stamp(AtomicIndexedMessageType::Add(21, second)));
    let late = counter.stamp(AtomicIndexedMessageType::Add(20, first));
    assert_eq!(registry.update(), Ok(()));
    assert_eq!(registry.get(second), Some(&21));
    assert_eq!(registry.get(third), Some(&22));
    assert_eq!(registry.get(first), None);
    // the next epoch does not promise the position that waits
    let state = registry.begin_epoch();
    let fourth = state.get_next_id_increment().unwrap();
    assert_eq!(fourth, 3);
    registry.receive(counter.stamp(AtomicIndexedMessageType::Add(23, fourth)));
    registry.receive(late);
    assert_eq!(registry.update(), Ok(()));
    assert_eq!(registry.get(first), Some(&20));
    assert_eq!(registry.get(fourth), Some(&23));
    assert_eq!(registry.count(), 4);
    assert_eq!(registry.count_invalid(), 0);
}

#[test]
fn shared_state_promises_what_the_owner_promises() {
    let mut registry = AtomicIndexedOrderedVec::<u32>::default();
    for value in 0..4 {
        registry.push_shove(value);
    }
    registry.update().unwrap();
    registry.remove(2);
    registry.remove(0);
    registry.update().unwrap();

    let mut owner = OrderedVec::<u32>::from_valids(vec![0, 1, 2, 3]);
    owner.remove(2);
    owner.remove(0);

    let state = registry.begin_epoch();
    for ordinal in 0..6 {
        assert_eq!(state.reservation(ordinal), owner.reservation(ordinal));
    }
    let counter = CommandCounter::new(0);
    let mut handles = Vec::new();
    let mut commands = Vec::new();
    for value in 10..15u32 {
        let id = state.get_next_id_increment().unwrap();
        handles.push(id);
        commands.push(counter.stamp(AtomicIndexedMessageType::Add(value, id)));
    }
    assert_eq!(
        handles,
        vec![1_u64 << 32, 2 | (1_u64 << 32), 4, 5, 6]
    );
    // the commands arrive last first
    while let Some(command) = commands.pop() {
        registry.receive(command);
    }
    assert_eq!(registry.update(), Ok(()));
    for (k, id) in handles.iter().enumerate() {
        assert_eq!(registry.get(*id), Some(&(10 + k as u32)));
    }
    assert_eq!(registry.count(), 7);
    assert_eq!(registry.count_invalid(), 0);
}

#[test]
fn registry_accepts_and_numbers_from_where_the_log_stands() {
    let mut registry = AtomicIndexedOrderedVec::<u8>::default();
    assert!(registry.accepting());
    let a = registry.push_shove(1);
    registry.remove(a);
    let b = registry.push_shove(2);
    assert!(registry.accepting());
    assert_eq!(registry.update(), Ok(()));
    // the value that was pushed first was removed by the command behind it
    assert_eq!(registry.get(a), None);
    assert_eq!(registry.get(b), Some(&2));
    assert_eq!(registry.count(), 1);
    assert_eq!(registry.count_invalid(), 1);
}

#[test]
fn log_keeps_counting_after_a_drain() {
    let mut log = CommandLog::<u8>::new();
    assert_eq!(log.next_id(), 0);
    log.submit(AtomicIndexedMessageType::Remove(0));
    log.submit(AtomicIndexedMessageType::Remove(0));
    assert_eq!(log.next_id(), 2);
    log.drain_ordered();
    assert_eq!(log.next_id(), 2);
}

#[test]
fn sort_orders_a_long_log_that_arrived_backwards() {
    let n: u64 = 50_000;
    let mut commands: Vec<AtomicIndexedCommand<u64>> = (0..n)
        .rev()
        .map(|k| AtomicIndexedCommand::new(k / 2, AtomicIndexedMessageType::Add(k, k)))
        .collect();
    sort_commands(&mut commands);
    assert_eq!(commands.len(), n as usize);
    for (at, command) in commands.iter().enumerate() {
        // two commands share each number; the one that arrived first stays first
        let number = at as u64 / 2;
        assert_eq!(command.command_id, number);
        let arrived_first = 2 * number + 1;
        let expected = if at % 2 == 0 { arrived_first } else { arrived_first - 1 };
        assert!(matches!(command.message, AtomicIndexedMessageType::Add(value, _) if value == expected));
    }
}

#[test]
fn stamped_commands_commit_in_any_arrival_order() {
    let mut registry = AtomicIndexedOrderedVec::<u32>::default();
    for value in 0..4 {
        registry.push_shove(value);
    }
    registry.update().unwrap();
    registry.remove(1);
    registry.update().unwrap();

    let state = registry.begin_epoch();
    let counter = CommandCounter::new(100);
    let mut handles = Vec::new();
    let mut commands = Vec::new();
    for value in 20..24u32 {
        let (ordinal, id) = state.reserve();
        assert_eq!(ordinal, handles.len());
        let id = id.unwrap();
        handles.push(id);
        commands.push(counter.stamp(AtomicIndexedMessageType::Add(value, id)));
    }
    assert_eq!(handles, vec![1 | (1_u64 << 32), 4, 5, 6]);
    // a removal of a value from before the epoch, and one of a value of the epoch
    commands.push(counter.stamp(AtomicIndexedMessageType::Remove(3)));
    commands.push(counter.stamp(AtomicIndexedMessageType::Remove(handles[2])));
    assert_eq!(numbers(&commands), vec![100, 101, 102, 103, 104, 105]);
    // the commands arrive in another order than they were stamped in
    for at in [5usize, 2, 0, 4, 3, 1] {
        let command = std::mem::replace(
            &mut commands[at],
            AtomicIndexedCommand::new(0, AtomicIndexedMessageType::Remove(u64::MAX)),
        );
        registry.receive(command);
    }
    assert_eq!(registry.update(), Ok(()));
    assert_eq!(registry.get(handles[0]), Some(&20));
    assert_eq!(registry.get(handles[1]), Some(&21));
    assert_eq!(registry.get(handles[2]), None);
    assert_eq!(registry.get(handles[3]), Some(&23));
    assert_eq!(registry.get(3), None);
    assert_eq!(registry.get(0), Some(&0));
    assert_eq!(registry.count(), 5);
    assert_eq!(registry.count_invalid(), 2);
}

#[test]
fn registry_gives_direct_access_to_the_store() {
    let mut registry = AtomicIndexedOrderedVec::<u8>::default();
    let a = registry.push_shove(1);
    let b = registry.push_shove(2);
    assert!(registry.get_mut(a).is_none());
    registry.update().unwrap();
    *registry.get_mut(a).unwrap() = 11;
    assert_eq!(registry.get(a), Some(&11));
    let c = registry.push_shove(3);
    assert_eq!(registry.clear(), vec![Some(11), Some(2)]);
    assert_eq!(registry.count(), 0);
    assert_eq!(registry.count_invalid(), 2);
    assert_eq!(registry.get(b), None);
    // the insertion that waited in the log is still replayed
    assert_eq!(registry.update(), Ok(()));
    assert_eq!(registry.get(c), Some(&3));
    assert_eq!(registry.count(), 1);
}
