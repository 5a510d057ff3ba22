use ordered_vec::ordered_vec::{OrderedVec, ProtocolViolation};
use ordered_vec::unversioned_ordered_vec::UnversionnedOrderedVec;
use ordered_vec::utils::{from_id, to_id, IndexPair, FIELD_SPAN};

#[test]
fn codec_packs_index_low_and_version_high() {
    assert_eq!(FIELD_SPAN, 1_u64 << 32);
    assert_eq!(to_id(IndexPair::new(0, 0)), 0);
    assert_eq!(to_id(IndexPair::new(7, 0)), 7);
    assert_eq!(to_id(IndexPair::new(0, 1)), 0x1_0000_0000);
    assert_eq!(to_id(IndexPair::new(0x1234_5678, 0x9abc_def0)), 0x9abc_def0_1234_5678);
    assert_eq!(
        to_id(IndexPair { index: u32::MAX, version: u32::MAX }),
        u64::MAX
    );
    let pair = from_id(0x0000_0002_0000_0005);
    assert_eq!(pair.index, 5);
    assert_eq!(pair.version, 2);
    assert_eq!(from_id(u64::MAX), IndexPair { index: u32::MAX, version: u32::MAX });
}

#[test]
fn codec_round_trips() {
    for &(index, version) in &[(0u32, 0u32), (1, 0), (0, 1), (u32::MAX, 0), (0, u32::MAX), (17, 4)] {
        let pair = IndexPair { index, version };
        assert_eq!(from_id(to_id(pair)), pair);
    }
    for &id in &[0u64, 1, 0xffff_ffff, 0x1_0000_0000, 0xdead_beef_0bad_cafe, u64::MAX] {
        assert_eq!(to_id(from_id(id)), id);
    }
}

#[test]
fn index_pair_keeps_the_low_half_of_a_wide_position() {
    assert_eq!(IndexPair::new(5, 9), IndexPair { index: 5, version: 9 });
    assert_eq!(
        IndexPair::new(0xffff_ffff, 1),
        IndexPair { index: 0xffff_ffff, version: 1 }
    );
    if usize::BITS > 32 {
        let wide = (1u64 << 32) as usize + 5;
        assert_eq!(IndexPair::new(wide, 0).index, 5);
    }
}

#[test]
fn insert_then_get_gives_the_value() {
    let mut vec = OrderedVec::<String>::new();
    for word in ["a", "b", "c"] {
        let id = vec.push_shove(word.to_string());
        assert_eq!(vec.get(id).map(String::as_str), Some(word));
        assert_eq!(vec[id], word);
    }
}

#[test]
fn removed_handle_resolves_to_nothing() {
    let mut vec = OrderedVec::<u8>::new();
    let id = vec.push_shove(9);
    assert_eq!(vec.remove(id), Some(9));
    assert_eq!(vec.get(id), None);
    assert_eq!(vec.get_mut(id), None);
    // a second removal changes nothing
    assert_eq!(vec.remove(id), None);
    assert_eq!(vec.count_invalid(), 1);
    assert_eq!(vec.count(), 0);
}

#[test]
fn reuse_keeps_the_index_and_renews_the_handle() {
    let mut vec = OrderedVec::<char>::new();
    let a = vec.push_shove('a');
    let b = vec.push_shove('b');
    let _c = vec.push_shove('c');
    vec.remove(a);
    let d = vec.push_shove('d');
    assert_eq!(from_id(d).index, from_id(a).index);
    assert_eq!(from_id(d).version, from_id(a).version + 1);
    assert_ne!(d, a);
    assert_eq!(vec.get(a), None);
    assert_eq!(vec.get(d), Some(&'d'));
    assert_eq!(vec.get(b), Some(&'b'));
}

#[test]
fn scenario_of_four_values() {
    let mut vec = OrderedVec::<&str>::new();
    let h0 = vec.push_shove("A");
    let h1 = vec.push_shove("B");
    let h2 = vec.push_shove("C");
    assert_eq!((h0, h1, h2), (0, 1, 2));
    assert_eq!(vec.remove(h1), Some("B"));
    assert_eq!(vec.get(h1), None);
    assert_eq!(vec.count(), 2);
    let h3 = vec.push_shove("D");
    assert_eq!(from_id(h3), IndexPair { index: 1, version: 1 });
    assert_eq!(vec.get(h1), None);
    assert_eq!(vec.get(h3), Some(&"D"));
    assert_eq!(vec.get(h0), Some(&"A"));
    assert_eq!(vec.get(h2), Some(&"C"));
}

#[test]
fn clear_of_an_empty_store() {
    let mut vec = OrderedVec::<u8>::new();
    assert_eq!(vec.clear(), Vec::<Option<u8>>::new());
    assert_eq!(vec.count(), 0);
    assert_eq!(vec.count_invalid(), 0);
    assert_eq!(vec.len(), 0);
    assert_eq!(vec.clear(), Vec::<Option<u8>>::new());
    assert_eq!(vec.count(), 0);
}

#[test]
fn clear_keeps_the_versions_and_reuses_position_zero_first() {
    let mut vec = OrderedVec::<u8>::from_valids(vec![10, 11, 12]);
    vec.remove(1);
    assert_eq!(vec.clear(), vec![Some(10), None, Some(12)]);
    assert_eq!(vec.len(), 3);
    assert_eq!(vec.count(), 0);
    assert_eq!(vec.iter_invalid().clone(), vec![2, 1, 0]);
    assert_eq!(vec.get(0), None);
    assert_eq!(vec.get_next_index(), 0);
    let first = vec.push_shove(20);
    assert_eq!(from_id(first), IndexPair { index: 0, version: 1 });
    // a handle from before the clear stays dead
    assert_eq!(vec.get(0), None);
    assert_eq!(vec.get(first), Some(&20));
    // clearing again gives the same free stack
    assert_eq!(vec.clear(), vec![Some(20), None, None]);
    assert_eq!(vec.iter_invalid().clone(), vec![2, 1, 0]);
    assert_eq!(vec.clear(), vec![None, None, None]);
    assert_eq!(vec.iter_invalid().clone(), vec![2, 1, 0]);
}

#[test]
fn from_valids_and_next_handles() {
    let vec = OrderedVec::<i32>::from_valids(vec![5, 6, 7]);
    assert_eq!(vec.count(), 3);
    assert_eq!(vec.count_invalid(), 0);
    assert_eq!(vec.get_next_index(), 3);
    assert_eq!(vec.get_next_id(), 3);
    assert_eq!(vec.iter(), vec![(0, &5), (1, &6), (2, &7)]);
    assert_eq!(vec.iter_elements(), vec![&5, &6, &7]);
    assert_eq!(vec.into_iter(), vec![(0, 5), (1, 6), (2, 7)]);
    let none = OrderedVec::<i32>::from_valids(Vec::new());
    assert_eq!(none.count(), 0);
    assert_eq!(none.get_next_id(), 0);
}

#[test]
fn free_stack_is_last_in_first_out() {
    let mut vec = OrderedVec::<i32>::from_valids(vec![0, 1, 2, 3]);
    vec.remove_index(0);
    vec.remove_index(3);
    vec.remove_index(1);
    assert_eq!(vec.iter_invalid().clone(), vec![0, 3, 1]);
    assert_eq!(vec.get_next_index(), 1);
    assert_eq!(vec.get_next_id(), 1 | (1_u64 << 32));
    assert_eq!(vec.push_shove(11), 1 | (1_u64 << 32));
    assert_eq!(vec.push_shove(13), 3 | (1_u64 << 32));
    assert_eq!(vec.push_shove(10), 1_u64 << 32);
    assert_eq!(vec.push_shove(14), 4);
    assert_eq!(
        vec.iter(),
        vec![
            (1_u64 << 32, &10),
            (1 | (1_u64 << 32), &11),
            (2, &2),
            (3 | (1_u64 << 32), &13),
            (4, &14)
        ]
    );
}

#[test]
fn get_mut_writes_through() {
    let mut vec = OrderedVec::<i32>::from_valids(vec![1, 2]);
    *vec.get_mut(1).unwrap() = 20;
    assert_eq!(vec.get(1), Some(&20));
    assert_eq!(vec.get(0), Some(&1));
    assert!(vec.get_mut(2).is_none());
    assert!(vec.get_mut(1 | (1_u64 << 32)).is_none());
}

#[test]
fn store_insert_under_a_handle() {
    let mut vec = OrderedVec::<u8>::new();
    assert_eq!(vec.insert(0, 1), Ok(()));
    assert_eq!(vec.insert(0, 2), Err(ProtocolViolation::SlotOccupied));
    assert_eq!(vec.get(0), Some(&1));
    assert_eq!(vec.len(), 1);
    // past the end: the positions 1 to 4 are left behind without a value
    assert_eq!(vec.insert(5, 2), Ok(()));
    assert_eq!(vec.len(), 6);
    assert_eq!(vec.get(5), Some(&2));
    assert_eq!(vec.iter(), vec![(0, &1), (5, &2)]);
    assert_eq!(vec.count(), 6);
    assert_eq!(vec.count_invalid(), 0);
    // the next value goes behind the end, not into a skipped position
    assert_eq!(vec.get_next_index(), 6);
    assert_eq!(vec.push_shove(3), 6);
    assert_eq!(vec.remove(2), None);
    assert_eq!(vec.remove_index(2), None);
    assert_eq!(vec.insert(2, 9), Ok(()));
    assert_eq!(vec.iter(), vec![(0, &1), (2, &9), (5, &2), (6, &3)]);
    // clearing frees every position, the skipped ones too
    assert_eq!(
        vec.clear(),
        vec![Some(1), None, Some(9), None, None, Some(2), Some(3)]
    );
    assert_eq!(vec.count(), 0);
    assert_eq!(vec.count_invalid(), 7);
    assert_eq!(vec.insert(1, 4), Err(ProtocolViolation::VersionMismatch));
    assert_eq!(vec.push_shove(4), 1_u64 << 32);
}

#[test]
fn drain_asks_each_value_once_in_position_order() {
    let mut vec = OrderedVec::<i32>::from_valids(vec![4, 5, 6, 7, 8]);
    vec.remove(1);
    let mut asked = Vec::new();
    let drained = vec.my_drain(|id, value| {
        asked.push((id, *value));
        *value >= 7
    });
    assert_eq!(asked, vec![(0, 4), (2, 6), (3, 7), (4, 8)]);
    assert_eq!(drained, vec![(3, 7), (4, 8)]);
    assert_eq!(vec.iter_invalid().clone(), vec![1, 3, 4]);
    assert_eq!(vec.count(), 2);
    assert_eq!(vec.get(3), None);
    assert_eq!(vec.get(2), Some(&6));
}

#[test]
fn unversionned_store_reuses_positions() {
    let mut vec = UnversionnedOrderedVec::<&str>::new();
    assert_eq!(vec.push_shove("a"), 0);
    assert_eq!(vec.push_shove("b"), 1);
    assert_eq!(vec.push_shove("c"), 2);
    assert_eq!(vec.remove(0), Some("a"));
    assert_eq!(vec.remove(0), None);
    assert_eq!(vec.remove(9), None);
    assert_eq!(vec.remove(2), Some("c"));
    assert_eq!(vec.iter_invalid().clone(), vec![0, 2]);
    assert_eq!(vec.count(), 1);
    assert_eq!(vec.count_invalid(), 2);
    assert_eq!(vec.get_next_idx(), 2);
    assert_eq!(vec.push_shove("d"), 2);
    // without versions the old position resolves again
    assert_eq!(vec.get(2), Some(&"d"));
    assert_eq!(vec[1], "b");
    *vec.get_mut(1).unwrap() = "B";
    assert_eq!(vec.iter(), vec![(1, &"B"), (2, &"d")]);
    assert_eq!(vec.iter_elements(), vec![&"B", &"d"]);
    let drained = vec.my_drain(|index, _| index == 1);
    assert_eq!(drained, vec![(1, "B")]);
    assert_eq!(vec.iter_invalid().clone(), vec![0, 1]);
    assert_eq!(vec.clear(), vec![None, None, Some("d")]);
    assert_eq!(vec.count(), 0);
    assert_eq!(vec.count_invalid(), 0);
    assert_eq!(vec.get_next_idx(), 0);
    assert_eq!(vec.len(), 0);
    let filled = UnversionnedOrderedVec::from_valids(vec![1, 2, 3]);
    assert_eq!(filled.count(), 3);
    assert_eq!(filled.len(), 3);
    assert_eq!(filled.into_iter(), vec![(0, 1), (1, 2), (2, 3)]);
}

#[test]
fn mutable_iteration_writes_through() {
    let mut vec = OrderedVec::<i32>::from_valids(vec![1, 2, 3, 4]);
    vec.remove(1);
    vec.remove(3);
    vec.push_shove(40);
    {
        let pairs = vec.iter_mut();
        let handles: Vec<u64> = pairs.iter().map(|pair| pair.0).collect();
        assert_eq!(handles, vec![0, 2, 3 | (1_u64 << 32)]);
        for (id, value) in pairs {
            *value += (id & 0xffff_ffff) as i32 * 100;
        }
    }
    assert_eq!(vec.iter(), vec![(0, &1), (2, &203), (3 | (1_u64 << 32), &340)]);
    assert_eq!(vec.iter_invalid().clone(), vec![1]);
    for value in vec.iter_elements_mut() {
        *value = -*value;
    }
    assert_eq!(vec.iter_elements(), vec![&-1, &-203, &-340]);
    assert_eq!(vec.get(1), None);
    assert_eq!(vec.count(), 3);
    let mut none = OrderedVec::<i32>::new();
    assert!(none.iter_mut().is_empty());
    assert!(none.iter_elements_mut().is_empty());
}

#[test]
fn unversionned_mutable_iteration_writes_through() {
    let mut vec = UnversionnedOrderedVec::<String>::from_valids(vec![
        "a".to_string(),
        "b".to_string(),
        "c".to_string(),
    ]);
    vec.remove(0);
    for (index, value) in vec.iter_mut() {
        value.push_str(&index.to_string());
    }
    assert_eq!(
        vec.iter(),
        vec![(1, &"b1".to_string()), (2, &"c2".to_string())]
    );
    for value in vec.iter_elements_mut() {
        value.insert(0, '<');
    }
    assert_eq!(vec.get(1).map(String::as_str), Some("<b1"));
    assert_eq!(vec.get(2).map(String::as_str), Some("<c2"));
    assert_eq!(vec.get(0), None);
    assert_eq!(vec.count_invalid(), 1);
}

#[test]
fn indexed_iteration_gives_positions() {
    let mut vec = OrderedVec::<char>::from_valids(vec!['a', 'b', 'c']);
    vec.remove(0);
    vec.push_shove('d');
    assert_eq!(vec.iter_indexed(), vec![(0, &'d'), (1, &'b'), (2, &'c')]);
    for (position, value) in vec.iter_indexed_mut() {
        if position != 1 {
            *value = value.to_ascii_uppercase();
        }
    }
    assert_eq!(
        vec.iter(),
        vec![(1_u64 << 32, &'D'), (1, &'b'), (2, &'C')]
    );
}
