use ordered_vec::ordered_vec::ProtocolViolation;
use ordered_vec::shareable_ordered_vec::ShareableOrderedVec;
use ordered_vec::shareable_state::{Promises, ShareableOrderedVecState};
use ordered_vec::utils::{from_id, to_id, IndexPair};

// An even better shareable test
#[test]
pub fn shareable_test2() {
    let mut vec = ShareableOrderedVec::<String>::default();
    vec.insert(0, "Bob".to_string()).unwrap();
    vec.insert(1, "John".to_string()).unwrap();
    vec.insert(2, "Lina".to_string()).unwrap();
    assert_eq!(vec.count(), 3);
    vec.remove(1);
    assert_eq!(vec.count(), 2);

    // Tricky part
    let next_id = vec.get_next_id_increment();
    assert_eq!(next_id, 1 | (1_u64 << 32)); // Versionning moment
    let next_id2 = vec.get_next_id_increment();
    assert_eq!(next_id2, 3);
    vec.insert(next_id, "Boi".to_string()).unwrap();
    vec.insert(next_id2, "Moment".to_string()).unwrap();
    assert_eq!(vec.count(), 4);
    assert_eq!(vec.count_invalid(), 0);
}

#[test]
fn reserved_handles_resolve_after_insertion_in_order() {
    let mut vec = ShareableOrderedVec::<u32>::default();
    for value in 0..6u32 {
        let id = vec.get_next_id_increment();
        vec.insert(id, value).unwrap();
    }
    vec.end_epoch();
    vec.remove(to_id(IndexPair::new(1, 0)));
    vec.remove(to_id(IndexPair::new(4, 0)));
    // free stack: 1 below 4; the promises go from the top down, then past the end
    assert_eq!(vec.reserved(), 0);
    let promised: Vec<u64> = (0..5).map(|_| vec.get_next_id_increment()).collect();
    assert_eq!(vec.reserved(), 5);
    assert_eq!(
        promised,
        vec![
            4 | (1_u64 << 32),
            1 | (1_u64 << 32),
            6,
            7,
            8,
        ]
    );
    for a in 0..promised.len() {
        for b in 0..promised.len() {
            if a != b {
                assert_ne!(promised[a], promised[b]);
            }
        }
    }
    for (k, id) in promised.iter().enumerate() {
        assert_eq!(vec.insert(*id, 100 + k as u32), Ok(()));
    }
    for (k, id) in promised.iter().enumerate() {
        assert_eq!(vec.get(*id), Some(&(100 + k as u32)));
    }
    assert_eq!(vec.count(), 9);
    assert_eq!(vec.count_invalid(), 0);
    // the handles of the removed values stay dead
    assert_eq!(vec.get(1), None);
    assert_eq!(vec.get(4), None);
}

#[test]
fn reservation_by_number_matches_the_counter() {
    let mut vec = ShareableOrderedVec::<u8>::default();
    vec.insert(0, 1).unwrap();
    vec.insert(1, 2).unwrap();
    vec.remove(0);
    assert_eq!(vec.reservation(0), Some(1_u64 << 32));
    assert_eq!(vec.reservation(1), Some(2));
    assert_eq!(vec.reservation(2), Some(3));
    assert_eq!(vec.get_next_id(), 1_u64 << 32);
    assert_eq!(vec.get_next_id(), 1_u64 << 32);
    assert_eq!(vec.get_next_id_increment(), 1_u64 << 32);
    assert_eq!(vec.get_next_id(), 2);
    assert_eq!(vec.get_next_id_increment(), 2);
    assert_eq!(vec.get_next_id_increment(), 3);
    // positions past the 32-bit index cannot be promised
    assert_eq!(vec.reservation(0xffff_fffe), Some(0xffff_ffff));
    assert_eq!(vec.reservation(0xffff_ffff), None);
}

#[test]
fn insert_into_an_occupied_slot_is_refused() {
    let mut vec = ShareableOrderedVec::<&str>::default();
    vec.insert(0, "a").unwrap();
    assert_eq!(vec.insert(0, "b"), Err(ProtocolViolation::SlotOccupied));
    assert_eq!(
        vec.insert(1_u64 << 32, "b"),
        Err(ProtocolViolation::SlotOccupied)
    );
    assert_eq!(vec.get(0), Some(&"a"));
    assert_eq!(vec.count(), 1);
}

#[test]
fn insert_past_the_end_fills_the_gap() {
    let mut vec = ShareableOrderedVec::<&str>::default();
    assert_eq!(vec.insert(0, "Bob"), Ok(()));
    assert_eq!(vec.remove(0), Some("Bob"));
    assert_eq!(vec.insert(1_u64 << 32, "Bob"), Ok(()));
    assert_eq!(vec.insert(2, "John"), Ok(()));
    assert_eq!(vec.insert(4, "Lina"), Ok(()));
    assert_eq!(vec.get(4), Some(&"Lina"));
    assert_eq!(vec.get(2), Some(&"John"));
    assert_eq!(vec.get(1_u64 << 32), Some(&"Bob"));
    assert_eq!(vec.get(1), None);
    assert_eq!(vec.get(3), None);
    assert_eq!(vec.get(0), None);
    // five positions, none of them free: two hold no value and wait for theirs
    assert_eq!(vec.iter_invalid().clone(), Vec::<usize>::new());
    assert_eq!(vec.count_invalid(), 0);
    assert_eq!(vec.count(), 5);
    assert_eq!(
        vec.iter(),
        vec![(1_u64 << 32, &"Bob"), (2, &"John"), (4, &"Lina")]
    );
    // a skipped position is promised to no other value
    assert_eq!(vec.reservation(0), Some(5));
    assert_eq!(vec.get_next_id_increment(), 5);
    // the values that were skipped arrive late and are taken
    assert_eq!(vec.insert(3, "Ann"), Ok(()));
    assert_eq!(vec.insert(1, "Tom"), Ok(()));
    assert_eq!(vec.get(3), Some(&"Ann"));
    assert_eq!(vec.get(1), Some(&"Tom"));
    assert_eq!(vec.insert(3, "Eve"), Err(ProtocolViolation::SlotOccupied));
    assert_eq!(vec.get(3), Some(&"Ann"));
    assert_eq!(vec.count(), 5);
    // once removed, the position is free like any other
    assert_eq!(vec.remove(3), Some("Ann"));
    assert_eq!(vec.iter_invalid().clone(), vec![3]);
    assert_eq!(vec.insert(3, "Eve"), Err(ProtocolViolation::VersionMismatch));
    assert_eq!(vec.insert(3 | (1_u64 << 32), "Eve"), Ok(()));
}

#[test]
fn insert_at_the_end_extends_by_one() {
    let mut vec = ShareableOrderedVec::<u8>::default();
    assert_eq!(vec.insert(0, 7), Ok(()));
    assert_eq!(vec.insert(1, 8), Ok(()));
    assert_eq!(vec.count(), 2);
    assert_eq!(vec.into_iter(), vec![(0, 7), (1, 8)]);
}

// Reservations are taken for a store with gaps, and the values arrive in
// another order than their handles were promised in
#[test]
pub fn shareable_test() {
    let mut vec = ShareableOrderedVec::<String>::default();
    vec.insert(0, "Bob".to_string()).unwrap();
    vec.remove(0);
    vec.insert(0_u64 | (1_u64 << 32), "Bob".to_string()).unwrap();
    vec.insert(2, "John".to_string()).unwrap();
    vec.insert(4, "Lina".to_string()).unwrap();
    // +-------+--------+
    // | Index | Value  |
    // +-------+--------+
    // |     0 | "Bob"  |
    // |     1 | None   |
    // |     2 | "John" |
    // |     3 | None   |
    // |     4 | "Lina" |
    // +-------+--------+
    let state = vec.begin_epoch();
    let mut messages: Vec<(u64, String)> = Vec::new();
    for x in 0..10 {
        for i in 0..10 {
            let elem_id = state.get_next_id_increment().unwrap();
            messages.push((elem_id, format!("Number {}", i + x * 10)));
        }
    }
    // the last reservation arrives first
    messages.reverse();
    for (idx, elem) in messages.iter() {
        assert_eq!(vec.insert(*idx, elem.clone()), Ok(()));
    }
    for (idx, elem) in messages.iter() {
        assert_eq!(vec.get(*idx), Some(elem));
    }
    assert_eq!(vec.get(0_u64 | (1_u64 << 32)).map(String::as_str), Some("Bob"));
    assert_eq!(vec.get(1), None);
    assert_eq!(vec.get(3), None);
    assert_eq!(vec.count(), 105);
    assert_eq!(vec.iter().len(), 103);
}

#[test]
fn insert_under_a_wrong_version_is_refused() {
    let mut vec = ShareableOrderedVec::<&str>::default();
    vec.insert(0, "a").unwrap();
    assert_eq!(vec.remove(0), Some("a"));
    // the free position takes version 1 next, neither 0 again nor 2
    assert_eq!(vec.insert(0, "b"), Err(ProtocolViolation::VersionMismatch));
    assert_eq!(
        vec.insert(2_u64 << 32, "b"),
        Err(ProtocolViolation::VersionMismatch)
    );
    assert_eq!(vec.count_invalid(), 1);
    assert_eq!(vec.get(0), None);
    assert_eq!(vec.insert(1_u64 << 32, "b"), Ok(()));
    assert_eq!(vec.get(1_u64 << 32), Some(&"b"));
    assert_eq!(vec.count_invalid(), 0);
    // a position that never held a value takes the version of the handle
    assert_eq!(vec.insert(1 | (7_u64 << 32), "c"), Ok(()));
    assert_eq!(vec.get(1 | (7_u64 << 32)), Some(&"c"));
    assert_eq!(vec.get(1), None);
    assert_eq!(vec.remove(1 | (7_u64 << 32)), Some("c"));
    assert_eq!(vec.get_next_id(), 1 | (8_u64 << 32));
}

#[test]
fn insert_takes_its_position_from_the_middle_of_the_free_stack() {
    let mut vec = ShareableOrderedVec::<u32>::default();
    for k in 0..4u64 {
        vec.insert(k, k as u32).unwrap();
    }
    vec.remove(0);
    vec.remove(2);
    vec.remove(3);
    assert_eq!(vec.iter_invalid().clone(), vec![0, 2, 3]);
    assert_eq!(vec.insert(2 | (1_u64 << 32), 22), Ok(()));
    assert_eq!(vec.iter_invalid().clone(), vec![0, 3]);
    assert_eq!(vec.count(), 2);
    assert_eq!(from_id(vec.get_next_id()).index, 3);
}

#[test]
fn shareable_delegates_agree_with_the_store() {
    let mut vec = ShareableOrderedVec::<i32>::default();
    for k in 0..5u64 {
        vec.insert(k, k as i32 * 10).unwrap();
    }
    assert_eq!(vec[3], 30);
    *vec.get_mut(3).unwrap() += 1;
    assert_eq!(vec[3], 31);
    assert_eq!(vec.remove_index(1), Some(10));
    assert_eq!(vec.remove_index(1), None);
    assert_eq!(vec.remove_index(17), None);
    assert_eq!(vec.iter_elements(), vec![&0, &20, &31, &40]);
    assert_eq!(vec.iter(), vec![(0, &0), (2, &20), (3, &31), (4, &40)]);
    let drained = vec.my_drain(|id, value| id == 4 || *value == 0);
    assert_eq!(drained, vec![(0, 0), (4, 40)]);
    assert_eq!(vec.iter_invalid().clone(), vec![1, 0, 4]);
    let cleared = vec.clear();
    assert_eq!(cleared, vec![None, None, Some(20), Some(31), None]);
    assert_eq!(vec.count(), 0);
    assert_eq!(vec.count_invalid(), 5);
    assert_eq!(vec.into_iter(), vec![]);
}

#[test]
fn promises_are_fixed_when_the_epoch_begins() {
    let mut vec = ShareableOrderedVec::<u8>::default();
    vec.insert(0, 0).unwrap();
    vec.insert(1, 1).unwrap();
    vec.insert(2, 2).unwrap();
    vec.remove(1);
    // the first reservation opens the epoch
    assert_eq!(vec.get_next_id_increment(), 1 | (1_u64 << 32));
    // a position that becomes free during the epoch is not promised in it
    vec.remove(2);
    assert_eq!(vec.get_next_id_increment(), 3);
    assert_eq!(vec.get_next_id_increment(), 4);
    assert_eq!(vec.reservation(0), Some(1 | (1_u64 << 32)));
    assert_eq!(vec.reservation(1), Some(3));
    vec.end_epoch();
    assert_eq!(vec.reserved(), 0);
    // the next epoch promises it, last freed first
    assert_eq!(vec.reservation(0), Some(2 | (1_u64 << 32)));
    assert_eq!(vec.reservation(1), Some(1 | (1_u64 << 32)));
    assert_eq!(vec.reservation(2), Some(3));
    assert_eq!(vec.get_next_id_increment(), 2 | (1_u64 << 32));
}

#[test]
fn shared_state_counts_from_the_given_number() {
    let promises = Promises::new(vec![Some(7 | (2_u64 << 32)), None, Some(9 | (1_u64 << 32))], 12);
    assert_eq!(promises.reservation(0), Some(7 | (2_u64 << 32)));
    assert_eq!(promises.reservation(1), None);
    assert_eq!(promises.reservation(3), Some(12));
    let state = ShareableOrderedVecState::new(promises, 2);
    assert_eq!(state.get_next_id_increment(), Some(9 | (1_u64 << 32)));
    assert_eq!(state.get_next_id_increment(), Some(12));
    assert_eq!(state.get_next_id_increment(), Some(13));
    assert_eq!(state.reservation(1), None);
    // three promised positions, then the positions 12, 13, ... up to the last that fits
    assert_eq!(state.reservation(0xffff_ffff - 12 + 3), Some(0xffff_ffff));
    assert_eq!(state.reservation(0xffff_ffff - 12 + 4), None);
}

#[test]
fn begin_epoch_closes_the_epoch_of_the_owner() {
    let mut vec = ShareableOrderedVec::<u8>::default();
    assert_eq!(vec.get_next_id_increment(), 0);
    assert_eq!(vec.get_next_id_increment(), 1);
    assert_eq!(vec.reserved(), 2);
    let state = vec.begin_epoch();
    assert_eq!(vec.reserved(), 0);
    assert_eq!(state.get_next_id_increment(), Some(0));
    assert_eq!(state.get_next_id_increment(), Some(1));
    assert_eq!(vec.get_next_id(), 0);
}

#[test]
fn shareable_mutable_iteration_writes_through() {
    let mut vec = ShareableOrderedVec::<u8>::default();
    for k in 0..3u64 {
        vec.insert(k, k as u8).unwrap();
    }
    vec.remove(1);
    for (id, value) in vec.iter_mut() {
        *value = 10 + id as u8;
    }
    assert_eq!(vec.iter(), vec![(0, &10), (2, &12)]);
    for value in vec.iter_elements_mut() {
        *value *= 2;
    }
    assert_eq!(vec.iter_elements(), vec![&20, &24]);
    assert_eq!(vec.count_invalid(), 1);
}
