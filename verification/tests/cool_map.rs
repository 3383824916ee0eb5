use cool_data::data::cool_map::CoolKey;
use cool_data::data::cool_map::CoolMap;
use cool_data::INVALID_U32;

fn key(base: u32, disambiguator: u32) -> CoolKey {
    CoolKey::from_raw_parts(base, disambiguator)
}

#[test]
fn key_keeps_its_raw_parts() {
    assert_eq!(key(5, 2).into_raw_parts(), (5, 2));
    assert_eq!(key(0, 0).into_raw_parts(), (0, 0));
    assert_eq!(key(5, 2), key(5, 2));
    assert_ne!(key(5, 2), key(5, 3));
    assert_ne!(key(5, 2), key(4, 2));
}

#[test]
fn keys_are_ordered_by_base_then_disambiguator() {
    assert!(key(3, 9) < key(5, 0));
    assert!(key(5, 0) < key(5, 1));
    assert!(key(5, 1) > key(3, 7));
    assert!(key(2, 2) <= key(2, 2));
}

#[test]
fn default_key_is_the_invalid_one() {
    assert_eq!(INVALID_U32, u32::MAX);
    assert_eq!(CoolKey::default().into_raw_parts(), (INVALID_U32, INVALID_U32));
}

#[test]
fn new_map_is_empty() {
    let map: CoolMap<u32> = CoolMap::new();
    assert_eq!(map.len(), 0);
    assert!(map.is_empty());
    assert!(map.iter().is_empty());
    assert!(map.values().is_empty());
    assert!(!map.contains_key(&key(0, 0)));
    let by_default: CoolMap<u32> = CoolMap::default();
    assert!(by_default.is_empty());
}

#[test]
fn insert_numbers_the_keys_of_a_base() {
    let mut map: CoolMap<&str> = CoolMap::new();
    assert_eq!(map.insert(5, "a"), key(5, 0));
    assert_eq!(map.insert(5, "b"), key(5, 1));
    assert_eq!(map.insert(3, "c"), key(3, 0));
    assert_eq!(map.insert(5, "d"), key(5, 2));
    assert_eq!(map.len(), 4);
    assert!(!map.is_empty());
    assert_eq!(map.get(&key(5, 0)), Some(&"a"));
    assert_eq!(map.get(&key(5, 1)), Some(&"b"));
    assert_eq!(map.get(&key(3, 0)), Some(&"c"));
    assert_eq!(map.get(&key(5, 2)), Some(&"d"));
    assert_eq!(map.get(&key(3, 1)), None);
}

#[test]
fn same_base_gives_distinct_keys() {
    let mut map: CoolMap<u32> = CoolMap::new();
    let mut keys = Vec::new();
    for value in 0..20u32 {
        keys.push(map.insert(9, value));
    }
    for (i, one) in keys.iter().enumerate() {
        assert_eq!(*one, key(9, i as u32));
        for other in keys.iter().skip(i + 1) {
            assert_ne!(one, other);
        }
        assert_eq!(map.get(one), Some(&(i as u32)));
    }
    assert_eq!(map.len(), 20);
}

#[test]
fn insert_never_gives_the_invalid_key() {
    let mut map: CoolMap<u32> = CoolMap::new();
    let first = map.insert(INVALID_U32, 1);
    let second = map.insert(INVALID_U32, 2);
    assert_eq!(first, key(INVALID_U32, 0));
    assert_eq!(second, key(INVALID_U32, 1));
    assert_ne!(first, CoolKey::default());
    assert_ne!(second, CoolKey::default());
}

#[test]
fn lower_base_sorts_first() {
    let mut map: CoolMap<&str> = CoolMap::new();
    let five = map.insert(5, "first five");
    let five_again = map.insert(5, "second five");
    let three = map.insert(3, "three");
    assert_eq!(map.index_to_key(0), three);
    assert_eq!(map.index_to_key(0), key(3, 0));
    assert_eq!(map.index_to_key(1), five);
    assert_eq!(map.index_to_key(2), five_again);
    assert_eq!(map.key_to_index(&three), 0);
    assert_eq!(map.key_to_index(&five), 1);
    assert_eq!(map.key_to_index(&five_again), 2);
}

#[test]
fn positions_and_keys_round_trip() {
    let mut map: CoolMap<u32> = CoolMap::new();
    let mut keys = Vec::new();
    for base in [8u32, 1, 8, 4, 1, 0, 8] {
        keys.push(map.insert(base, base));
        for position in 0..map.len() as u32 {
            assert_eq!(map.key_to_index(&map.index_to_key(position)), position);
        }
        for one in keys.iter() {
            assert_eq!(map.index_to_key(map.key_to_index(one)), *one);
        }
    }
    map.remove(&key(4, 0));
    for position in 0..map.len() as u32 {
        assert_eq!(map.key_to_index(&map.index_to_key(position)), position);
    }
    assert_eq!(map.len(), 6);
}

#[test]
fn remove_then_contains_key_is_false() {
    let mut map: CoolMap<u32> = CoolMap::new();
    let one = map.insert(1, 10);
    let two = map.insert(2, 20);
    assert!(map.contains_key(&one));
    assert_eq!(map.remove(&one), Some(10));
    assert!(!map.contains_key(&one));
    assert_eq!(map.get(&one), None);
    assert_eq!(map.remove(&one), None);
    assert!(map.contains_key(&two));
    assert_eq!(map.len(), 1);
}

#[test]
fn remove_shifts_the_later_positions() {
    let mut map: CoolMap<u32> = CoolMap::new();
    let low = map.insert(1, 0);
    let mid = map.insert(2, 0);
    let high = map.insert(3, 0);
    let top = map.insert(4, 0);
    assert_eq!(map.key_to_index(&top), 3);
    map.remove(&mid);
    assert_eq!(map.key_to_index(&low), 0);
    assert_eq!(map.key_to_index(&high), 1);
    assert_eq!(map.key_to_index(&top), 2);
    assert_eq!(map.index_to_key(1), high);
}

#[test]
fn insert_shifts_the_later_positions() {
    let mut map: CoolMap<u32> = CoolMap::new();
    let low = map.insert(1, 0);
    let high = map.insert(9, 0);
    assert_eq!(map.key_to_index(&high), 1);
    let mid = map.insert(5, 0);
    assert_eq!(map.key_to_index(&low), 0);
    assert_eq!(map.key_to_index(&mid), 1);
    assert_eq!(map.key_to_index(&high), 2);
}

#[test]
fn insert_after_remove_gives_a_new_key() {
    let mut map: CoolMap<&str> = CoolMap::new();
    let first = map.insert(5, "a");
    let second = map.insert(5, "b");
    assert_eq!(map.remove(&first), Some("a"));
    let third = map.insert(5, "c");
    assert_eq!(third, key(5, 2));
    assert_ne!(third, first);
    assert_ne!(third, second);
    assert_eq!(map.get(&second), Some(&"b"));
    assert_eq!(map.get(&third), Some(&"c"));
    assert!(!map.contains_key(&first));
    assert_eq!(map.len(), 2);
}

#[test]
fn removed_key_is_not_given_out_again() {
    let mut map: CoolMap<u32> = CoolMap::new();
    let first = map.insert(7, 1);
    assert_eq!(map.remove(&first), Some(1));
    let second = map.insert(7, 2);
    assert_ne!(second, first);
    assert_eq!(second, key(7, 1));
    assert!(!map.contains_key(&first));
    assert_eq!(map.get(&first), None);
    assert_eq!(map.get(&second), Some(&2));
    assert_eq!(map.len(), 1);
}

#[test]
fn insert_keeps_every_old_entry() {
    let mut map: CoolMap<u32> = CoolMap::new();
    let mut keys = Vec::new();
    for (i, base) in [3u32, 3, 1, 3, 1, 8].into_iter().enumerate() {
        let before = map.len();
        let fresh_base_free = map.next_disambiguator(base);
        let one = map.insert(base, i as u32);
        assert_eq!(one.into_raw_parts(), (base, fresh_base_free as u32));
        assert_eq!(map.next_disambiguator(base), fresh_base_free + 1);
        assert!(!keys.contains(&one));
        assert_eq!(map.len(), before + 1);
        keys.push(one);
        for (j, old) in keys.iter().enumerate() {
            assert_eq!(map.get(old), Some(&(j as u32)));
        }
    }
}

#[test]
fn next_disambiguator_never_goes_down() {
    let mut map: CoolMap<u32> = CoolMap::new();
    assert_eq!(map.next_disambiguator(4), 0);
    let first = map.insert(4, 0);
    assert_eq!(map.next_disambiguator(4), 1);
    assert_eq!(map.next_disambiguator(5), 0);
    map.remove(&first);
    assert_eq!(map.next_disambiguator(4), 1);
    map.ensure_exists(&key(4, 9), 0);
    assert_eq!(map.next_disambiguator(4), 10);
    map.ensure_exists(&key(4, 3), 0);
    assert_eq!(map.next_disambiguator(4), 10);
    map.ensure_exists(&key(4, 9), 1);
    assert_eq!(map.next_disambiguator(4), 10);
    map.ensure_exists(&key(6, u32::MAX), 0);
    assert_eq!(map.next_disambiguator(6), u64::from(u32::MAX) + 1);
    map.clear();
    assert_eq!(map.next_disambiguator(4), 10);
    assert_eq!(map.insert(4, 0), key(4, 10));
    let copy = map.clone();
    assert_eq!(copy.next_disambiguator(4), 11);
}

#[test]
fn iter_is_in_ascending_key_order() {
    let mut forward: CoolMap<u32> = CoolMap::new();
    let mut backward: CoolMap<u32> = CoolMap::new();
    for base in [1u32, 2, 3, 4, 5] {
        forward.insert(base, base * 10);
    }
    for base in [5u32, 4, 3, 2, 1] {
        backward.insert(base, base * 10);
    }
    for map in [&forward, &backward] {
        let entries = map.iter();
        assert_eq!(entries.len(), 5);
        for (i, (one, value)) in entries.iter().enumerate() {
            assert_eq!(**one, key(i as u32 + 1, 0));
            assert_eq!(**value, (i as u32 + 1) * 10);
        }
        for pair in entries.windows(2) {
            assert!(pair[0].0 < pair[1].0);
        }
        let values: Vec<u32> = map.values().into_iter().copied().collect();
        assert_eq!(values, vec![10, 20, 30, 40, 50]);
    }
}

#[test]
fn map_get_mut_changes_the_stored_value() {
    let mut map: CoolMap<u32> = CoolMap::new();
    let one = map.insert(7, 1);
    *map.get_mut(&one).unwrap() = 2;
    assert_eq!(map.get(&one), Some(&2));
    assert!(map.get_mut(&key(7, 1)).is_none());
    assert_eq!(map.key_to_index(&one), 0);
    assert_eq!(map.len(), 1);
}

#[test]
fn values_mut_lends_every_value_in_key_order() {
    let mut map: CoolMap<u32> = CoolMap::new();
    let three = map.insert(3, 30);
    let one = map.insert(1, 10);
    let two = map.insert(2, 20);
    {
        let values = map.values_mut();
        assert_eq!(values.len(), 3);
        for (i, value) in values.into_iter().enumerate() {
            assert_eq!(*value, (i as u32 + 1) * 10);
            *value += i as u32 + 1;
        }
    }
    assert_eq!(map.get(&one), Some(&11));
    assert_eq!(map.get(&two), Some(&22));
    assert_eq!(map.get(&three), Some(&33));
    assert_eq!(map.key_to_index(&three), 2);
}

#[test]
fn iter_mut_lends_every_value_with_its_key() {
    let mut map: CoolMap<u32> = CoolMap::new();
    let b = map.insert(4, 1);
    let a = map.insert(2, 1);
    {
        let entries = map.iter_mut();
        assert_eq!(entries.len(), 2);
        assert_eq!(*entries[0].0, a);
        assert_eq!(*entries[1].0, b);
        for (one, value) in entries {
            *value = one.into_raw_parts().0 * 100;
        }
    }
    assert_eq!(map.get(&a), Some(&200));
    assert_eq!(map.get(&b), Some(&400));
    assert_eq!(map.index_to_key(0), a);
}

#[test]
fn ensure_exists_stores_the_default_only_if_absent() {
    let mut map: CoolMap<u32> = CoolMap::new();
    let chosen = key(6, 4);
    {
        let value = map.ensure_exists(&chosen, 1);
        assert_eq!(*value, 1);
        *value = 2;
    }
    assert!(map.contains_key(&chosen));
    assert_eq!(map.get(&chosen), Some(&2));
    assert_eq!(*map.ensure_exists(&chosen, 3), 2);
    assert_eq!(map.get(&chosen), Some(&2));
    assert_eq!(map.len(), 1);
    assert_eq!(map.key_to_index(&chosen), 0);
    assert_eq!(map.index_to_key(0), chosen);
}

#[test]
fn ensure_exists_takes_the_key_as_it_is() {
    let mut map: CoolMap<u32> = CoolMap::new();
    let low = map.insert(6, 0);
    let chosen = key(6, 4);
    map.ensure_exists(&chosen, 1);
    assert_eq!(map.len(), 2);
    assert_eq!(map.key_to_index(&low), 0);
    assert_eq!(map.key_to_index(&chosen), 1);
    let next = map.insert(6, 2);
    assert_eq!(next, key(6, 5));
    assert_eq!(map.get(&chosen), Some(&1));
    assert_eq!(map.key_to_index(&chosen), 1);
    assert_eq!(map.key_to_index(&next), 2);
    assert_eq!(map.len(), 3);
}

#[test]
fn clear_empties_the_map() {
    let mut map: CoolMap<u32> = CoolMap::new();
    let old = map.insert(1, 1);
    map.insert(2, 2);
    map.clear();
    assert_eq!(map.len(), 0);
    assert!(map.is_empty());
    assert!(!map.contains_key(&old));
    assert!(map.iter().is_empty());
    let fresh = map.insert(2, 3);
    assert_eq!(fresh, key(2, 1));
    assert_ne!(fresh, old);
    assert_eq!(map.len(), 1);
    assert_eq!(map.key_to_index(&fresh), 0);
    assert_eq!(map.index_to_key(0), fresh);
}

#[test]
fn clone_keeps_entries_and_positions() {
    let mut map: CoolMap<u32> = CoolMap::new();
    let b = map.insert(2, 20);
    let a = map.insert(1, 10);
    let mut copy = map.clone();
    assert_eq!(copy.len(), 2);
    assert_eq!(copy.get(&a), Some(&10));
    assert_eq!(copy.key_to_index(&a), 0);
    assert_eq!(copy.key_to_index(&b), 1);
    assert_eq!(copy.index_to_key(1), b);
    copy.remove(&a);
    assert_eq!(copy.key_to_index(&b), 0);
    assert_eq!(map.key_to_index(&b), 1);
    assert_eq!(map.len(), 2);
}

#[test]
fn replayed_operations_give_the_same_order() {
    let build = || {
        let mut map: CoolMap<u32> = CoolMap::new();
        let mut keys = Vec::new();
        for base in [4u32, 4, 0, 9, 4, 2] {
            keys.push(map.insert(base, base + 1));
        }
        map.remove(&keys[1]);
        map.insert(9, 7);
        map
    };
    let first = build();
    let second = build();
    assert_eq!(first.len(), second.len());
    for position in 0..first.len() as u32 {
        assert_eq!(first.index_to_key(position), second.index_to_key(position));
    }
    let one: Vec<(CoolKey, u32)> = first.iter().into_iter().map(|(k, v)| (*k, *v)).collect();
    let two: Vec<(CoolKey, u32)> = second.iter().into_iter().map(|(k, v)| (*k, *v)).collect();
    assert_eq!(one, two);
}
