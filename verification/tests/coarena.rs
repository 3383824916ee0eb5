use cool_data::data::arena::Index;
use cool_data::data::coarena::Coarena;

fn at(position: u32) -> Index {
    Index::from_raw_parts(position)
}

#[test]
fn index_keeps_its_raw_position() {
    assert_eq!(at(0).into_raw_parts(), 0);
    assert_eq!(at(17).into_raw_parts(), 17);
    assert_eq!(at(u32::MAX).into_raw_parts(), u32::MAX);
    assert_eq!(at(4), at(4));
    assert_ne!(at(4), at(5));
}

#[test]
fn new_store_is_empty() {
    let store: Coarena<u32> = Coarena::new();
    assert_eq!(store.len(), 0);
    assert!(store.get(at(0)).is_none());
    assert!(store.iter().is_empty());
    let by_default: Coarena<u32> = Coarena::default();
    assert_eq!(by_default.len(), 0);
}

#[test]
fn insert_grows_to_reach_position() {
    let mut store: Coarena<String> = Coarena::new();
    assert_eq!(store.len(), 0);
    store.insert(at(3), String::from("x"));
    assert_eq!(store.len(), 4);
    assert!(store.get(at(0)).is_none());
    assert!(store.get(at(1)).is_none());
    assert!(store.get(at(2)).is_none());
    assert_eq!(store.get(at(3)), Some(&String::from("x")));
    assert!(store.get(at(4)).is_none());
}

#[test]
fn insert_then_get_returns_the_value() {
    let mut store: Coarena<u32> = Coarena::new();
    for position in [0u32, 7, 2, 5] {
        store.insert(at(position), position * 10 + 1);
    }
    assert_eq!(store.len(), 8);
    assert_eq!(store.get(at(0)), Some(&1));
    assert_eq!(store.get(at(7)), Some(&71));
    assert_eq!(store.get(at(2)), Some(&21));
    assert_eq!(store.get(at(5)), Some(&51));
    assert_eq!(store.get(at(1)), None);
    assert_eq!(store.get(at(8)), None);
}

#[test]
fn insert_overwrites_an_occupant() {
    let mut store: Coarena<u32> = Coarena::new();
    store.insert(at(1), 10);
    store.insert(at(1), 20);
    assert_eq!(store.len(), 2);
    assert_eq!(store.get(at(1)), Some(&20));
}

#[test]
fn remove_then_get_is_absent_and_slot_is_reused() {
    let mut store: Coarena<u32> = Coarena::new();
    store.insert(at(2), 5);
    assert_eq!(store.remove(at(2), 99), Some(5));
    assert_eq!(store.get(at(2)), None);
    assert_eq!(store.len(), 3);
    store.insert(at(2), 6);
    assert_eq!(store.get(at(2)), Some(&6));
    assert_eq!(store.len(), 3);
}

#[test]
fn remove_of_nothing_changes_nothing() {
    let mut store: Coarena<u32> = Coarena::new();
    store.insert(at(1), 5);
    assert_eq!(store.remove(at(0), 99), None);
    assert_eq!(store.remove(at(9), 99), None);
    assert_eq!(store.len(), 2);
    assert_eq!(store.get(at(0)), None);
    assert_eq!(store.get(at(1)), Some(&5));
    assert_eq!(store.remove(at(1), 99), Some(5));
    assert_eq!(store.remove(at(1), 98), None);
    assert_eq!(store.get(at(1)), None);
}

#[test]
fn removed_filler_is_never_shown() {
    let mut store: Coarena<u32> = Coarena::new();
    store.insert(at(0), 5);
    store.remove(at(0), 99);
    assert!(store.get(at(0)).is_none());
    assert!(store.get_mut(at(0)).is_none());
    assert!(store.iter().is_empty());
    assert_eq!(*store.ensure_element_exist(at(0), 7), 7);
}

#[test]
fn get_mut_changes_the_stored_value() {
    let mut store: Coarena<u32> = Coarena::new();
    store.insert(at(4), 1);
    *store.get_mut(at(4)).unwrap() = 2;
    assert_eq!(store.get(at(4)), Some(&2));
    assert!(store.get_mut(at(3)).is_none());
    assert!(store.get_mut(at(5)).is_none());
    assert_eq!(store.len(), 5);
}

#[test]
fn reserve_changes_nothing() {
    let mut store: Coarena<u32> = Coarena::new();
    store.insert(at(1), 3);
    store.reserve(100);
    assert_eq!(store.len(), 2);
    assert_eq!(store.get(at(1)), Some(&3));
    assert_eq!(store.get(at(0)), None);
}

#[test]
fn iter_lists_occupied_slots_in_ascending_order() {
    let mut store: Coarena<u32> = Coarena::new();
    store.insert(at(6), 60);
    store.insert(at(1), 10);
    store.insert(at(3), 30);
    store.remove(at(3), 0);
    let entries = store.iter();
    assert_eq!(entries.len(), 2);
    assert_eq!(entries[0].0.into_raw_parts(), 1);
    assert_eq!(*entries[0].1, 10);
    assert_eq!(entries[1].0.into_raw_parts(), 6);
    assert_eq!(*entries[1].1, 60);
    let again = store.iter();
    assert_eq!(again.len(), 2);
}

#[test]
fn ensure_element_exist_creates_a_missing_element() {
    let mut store: Coarena<u32> = Coarena::new();
    {
        let value = store.ensure_element_exist(at(2), 11);
        assert_eq!(*value, 11);
        *value = 12;
    }
    assert_eq!(store.len(), 3);
    assert_eq!(store.get(at(2)), Some(&12));
    assert_eq!(store.get(at(0)), None);
    assert_eq!(store.get(at(1)), None);
    assert_eq!(*store.ensure_element_exist(at(1), 13), 13);
    assert_eq!(store.len(), 3);
    assert_eq!(store.get(at(1)), Some(&13));
}

#[test]
fn ensure_element_exist_twice_keeps_the_first_value() {
    let mut store: Coarena<u32> = Coarena::new();
    assert_eq!(*store.ensure_element_exist(at(5), 1), 1);
    assert_eq!(*store.ensure_element_exist(at(5), 2), 1);
    assert_eq!(store.get(at(5)), Some(&1));
    store.insert(at(0), 40);
    assert_eq!(*store.ensure_element_exist(at(0), 41), 40);
    assert_eq!(store.get(at(0)), Some(&40));
}

#[test]
fn ensure_pair_exists_gives_independent_references() {
    let mut store: Coarena<u32> = Coarena::new();
    {
        let (first, second) = store.ensure_pair_exists(at(4), at(1), 7);
        assert_eq!(*first, 7);
        assert_eq!(*second, 7);
        *first = 40;
        *second = 10;
    }
    assert_eq!(store.len(), 5);
    assert_eq!(store.get(at(4)), Some(&40));
    assert_eq!(store.get(at(1)), Some(&10));
    assert_eq!(store.get(at(0)), None);
    assert_eq!(store.get(at(2)), None);
    assert_eq!(store.get(at(3)), None);
}

#[test]
fn ensure_pair_exists_with_the_larger_position_second() {
    let mut store: Coarena<u32> = Coarena::new();
    store.insert(at(0), 5);
    {
        let (first, second) = store.ensure_pair_exists(at(0), at(2), 9);
        assert_eq!(*first, 5);
        assert_eq!(*second, 9);
        *first += 1;
        *second += 1;
    }
    assert_eq!(store.len(), 3);
    assert_eq!(store.get(at(0)), Some(&6));
    assert_eq!(store.get(at(1)), None);
    assert_eq!(store.get(at(2)), Some(&10));
}

#[test]
fn ensure_pair_exists_keeps_occupants() {
    let mut store: Coarena<String> = Coarena::new();
    store.insert(at(1), String::from("one"));
    store.insert(at(3), String::from("three"));
    {
        let (first, second) = store.ensure_pair_exists(at(3), at(1), String::from("none"));
        assert_eq!(first.as_str(), "three");
        assert_eq!(second.as_str(), "one");
        first.push('!');
    }
    assert_eq!(store.len(), 4);
    assert_eq!(store.get(at(3)), Some(&String::from("three!")));
    assert_eq!(store.get(at(1)), Some(&String::from("one")));
}

#[test]
fn clone_is_independent_of_its_source() {
    let mut store: Coarena<u32> = Coarena::new();
    store.insert(at(1), 3);
    let mut copy = store.clone();
    copy.insert(at(1), 4);
    copy.insert(at(2), 5);
    assert_eq!(store.get(at(1)), Some(&3));
    assert_eq!(store.len(), 2);
    assert_eq!(copy.get(at(1)), Some(&4));
    assert_eq!(copy.len(), 3);
}
