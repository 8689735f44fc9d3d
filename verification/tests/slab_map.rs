use std::rc::Rc;

use sigmut::collections::slab_map::{key_to_slot, slot_to_key, SlabMapChange, StateSlabMap};
use sigmut::runtime::Slot;

#[test]
fn state_slab_map_reader_delta() {
    let mut map = StateSlabMap::new();
    let reader = map.reader();

    {
        let items0 = map.read(&reader);
        assert!(items0.is_empty());
    }

    let key1 = map.insert(10);
    let key2 = map.insert(20);

    {
        let items1 = map.read(&reader);
        let changes: Vec<_> = items1.delta();
        let expected = vec![
            SlabMapChange::Insert {
                key: key1,
                new_value: &10,
            },
            SlabMapChange::Insert {
                key: key2,
                new_value: &20,
            },
        ];
        assert_eq!(changes, expected);
    }

    map.remove(key1);
    {
        let items2 = map.read(&reader);
        let changes: Vec<_> = items2.delta();
        let expected = vec![SlabMapChange::Remove {
            key: key1,
            old_value: &10,
        }];
        assert_eq!(changes, expected);
    }
}

#[test]
fn state_slab_map_reader_peek_and_clone_have_independent_cursors() {
    let mut map = StateSlabMap::new();
    let reader = map.reader();
    drop(map.read(&reader));
    let reader_clone = map.clone_reader(&reader);

    let key = map.insert(10);
    for _ in 0..2 {
        let items = map.peek(&reader);
        assert_eq!(items.delta(), [SlabMapChange::Insert { key, new_value: &10 }]);
    }

    assert_eq!(map.read(&reader).delta(), [SlabMapChange::Insert { key, new_value: &10 }]);
    assert_eq!(map.read(&reader_clone).delta(), [SlabMapChange::Insert { key, new_value: &10 }]);
}

#[test]
fn state_slab_map_releases_removed_values_after_the_last_reader_advances() {
    let mut map = StateSlabMap::new();
    let old = Rc::new(String::from("old"));
    let key = map.insert(old.clone());
    let reader = map.reader();
    drop(map.read(&reader));

    map.remove(key);
    assert_eq!(Rc::strong_count(&old), 2);

    let items = map.read(&reader);
    assert_eq!(items.delta(), [SlabMapChange::Remove { key, old_value: &old }]);
    assert_eq!(Rc::strong_count(&old), 2);
    drop(items);
    map.compact();

    assert_eq!(Rc::strong_count(&old), 1);
}

#[test]
fn state_slab_map_releases_removed_values_without_readers() {
    let mut map = StateSlabMap::new();
    let old = Rc::new(String::from("old"));
    let key = map.insert(old.clone());

    map.remove(key);

    assert_eq!(Rc::strong_count(&old), 1);
}

#[test]
fn state_slab_map_retries_compaction_after_an_item_borrow() {
    let mut map = StateSlabMap::new();
    let retained_key = map.insert(Rc::new(String::from("retained")));
    let old = Rc::new(String::from("old"));
    let removed_key = map.insert(old.clone());
    let reader = map.reader();
    drop(map.read(&reader));
    map.remove(removed_key);

    let items = map.read(&reader);
    assert_eq!(
        items.delta(),
        [SlabMapChange::Remove {
            key: removed_key,
            old_value: &old,
        }]
    );
    drop(items);
    assert_eq!(Rc::strong_count(&old), 2);

    let retained = map.item(retained_key);
    assert_eq!(retained.as_str(), "retained");
    assert_eq!(Rc::strong_count(&old), 2);
    map.compact();

    assert_eq!(Rc::strong_count(&old), 1);
}

#[test]
fn state_slab_map_reuses_keys_and_reports_initial_items() {
    let mut map = StateSlabMap::new();
    let key0 = map.insert(10);
    let key1 = map.insert(20);
    assert_eq!((key0, key1), (0, 1));
    map.remove(key0);
    let key2 = map.insert(30);
    assert_eq!(key2, 0);
    assert_eq!(*map.item(key1), 20);
    assert_eq!(*map.item(key2), 30);

    let reader = map.reader();
    let items = map.read(&reader);
    assert_eq!(items.len(), 2);
    assert_eq!(items.get(key1), Some(&20));
    assert_eq!(items.get(5), None);
    let initial = items.delta();
    assert_eq!(
        initial,
        vec![
            SlabMapChange::Insert { key: 0, new_value: &30 },
            SlabMapChange::Insert { key: 1, new_value: &20 },
        ]
    );
    drop(items);
    assert!(map.items().delta().is_empty());
    assert_eq!(map.items().len(), 2);
}

#[test]
fn slab_map_keys_and_slots_round_trip() {
    assert_eq!(key_to_slot(0), Slot(0));
    assert_eq!(key_to_slot(41), Slot(41));
    assert_eq!(slot_to_key(Slot(usize::MAX)), None);
    assert_eq!(slot_to_key(Slot(1)), Some(1));
    assert_eq!(slot_to_key(key_to_slot(7)), Some(7));
}

