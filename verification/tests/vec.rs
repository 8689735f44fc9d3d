use std::rc::Rc;

use sigmut::collections::vec::{ImmutableVecReader, IndexNewToOld, StateVec, VecChange};

#[test]
fn state_vec_reader_changes() {
    let mut vec = StateVec::new();
    let reader = vec.reader();

    {
        let items = vec.read(&reader);
        assert!(items.is_empty());
    }

    {
        let mut items = vec.borrow_mut();
        items.push(1);
        items.push(2);
    }

    {
        let items = vec.read(&reader);
        let actual: Vec<_> = items.changes();
        let expected = vec![
            VecChange::Insert {
                index: 0,
                new_value: &1,
            },
            VecChange::Insert {
                index: 1,
                new_value: &2,
            },
        ];
        assert_eq!(actual, expected);
    }

    {
        let mut items = vec.borrow_mut();
        items.set(0, 10);
        items.swap(0, 1);
        items.move_item(0, 1);
        items.remove(1);
        items.insert(0, 20);
    }

    {
        let items = vec.read(&reader);
        let actual: Vec<_> = items.changes();
        let expected = vec![
            VecChange::SetValue {
                index: 0,
                old_value: &1,
                new_value: &10,
            },
            VecChange::Swap { index: (0, 1) },
            VecChange::Move {
                old_index: 0,
                new_index: 1,
            },
            VecChange::Remove {
                index: 1,
                old_value: &2,
            },
            VecChange::Insert {
                index: 0,
                new_value: &20,
            },
        ];
        assert_eq!(actual, expected);
    }
}

fn inserts_1_2<'a>() -> Vec<VecChange<'a, i32>> {
    vec![
        VecChange::Insert {
            index: 0,
            new_value: &1,
        },
        VecChange::Insert {
            index: 1,
            new_value: &2,
        },
    ]
}

#[test]
fn state_vec_reader_peek_does_not_advance() {
    let mut vec: StateVec<i32> = StateVec::from_vec(vec![1, 2]);
    let reader = vec.reader();

    for _ in 0..2 {
        let items = vec.peek(&reader);
        assert_eq!(items.changes(), inserts_1_2());
    }

    {
        let items = vec.read(&reader);
        assert_eq!(items.changes(), inserts_1_2());
    }

    vec.borrow_mut().push(3);
    {
        let items = vec.peek(&reader);
        assert_eq!(
            items.changes(),
            vec![VecChange::Insert {
                index: 2,
                new_value: &3,
            }]
        );
    }

    vec.borrow_mut().push(4);
    let pushed_3_4 = vec![
        VecChange::Insert {
            index: 2,
            new_value: &3,
        },
        VecChange::Insert {
            index: 3,
            new_value: &4,
        },
    ];
    for _ in 0..2 {
        let items = vec.peek(&reader);
        assert_eq!(items.changes(), pushed_3_4);
    }

    {
        let items = vec.read(&reader);
        assert_eq!(items.changes(), pushed_3_4);
    }
    assert_eq!(vec.peek(&reader).changes(), []);
}

#[test]
fn state_vec_reader_clones_have_independent_cursors() {
    let mut vec = StateVec::new();
    let reader = vec.reader();
    let unread_clone = vec.clone_reader(&reader);

    assert_eq!(vec.read(&reader).changes(), []);
    vec.borrow_mut().push(1);
    {
        let items = vec.read(&unread_clone);
        assert_eq!(
            items.changes(),
            vec![VecChange::Insert {
                index: 0,
                new_value: &1,
            }]
        );
    }
    vec.release_reader(unread_clone);

    let reader_clone = vec.clone_reader(&reader);
    {
        let items = vec.read(&reader);
        assert_eq!(
            items.changes(),
            vec![VecChange::Insert {
                index: 0,
                new_value: &1,
            }]
        );
    }

    vec.borrow_mut().push(2);
    {
        let items = vec.read(&reader_clone);
        assert_eq!(
            items.changes(),
            vec![
                VecChange::Insert {
                    index: 0,
                    new_value: &1,
                },
                VecChange::Insert {
                    index: 1,
                    new_value: &2,
                },
            ]
        );
    }
    {
        let items = vec.read(&reader);
        assert_eq!(
            items.changes(),
            vec![VecChange::Insert {
                index: 1,
                new_value: &2,
            }]
        );
    }

    vec.release_reader(reader_clone);
    vec.release_reader(reader);
    vec.borrow_mut().push(3);
}

#[test]
fn sort_and_drain_changes() {
    let mut vec = StateVec::new();
    let reader = vec.reader();

    {
        let mut items = vec.borrow_mut();
        items.push(3);
        items.push(1);
        items.push(2);
    }
    let _ = vec.read(&reader);

    {
        let mut items = vec.borrow_mut();
        items.sort_by_key(|v: &i32| *v);
    }
    {
        let items = vec.read(&reader);
        let actual: Vec<_> = items.changes();
        let p = IndexNewToOld::new(&[1, 2, 0]);
        let expected = vec![VecChange::Sort(&p)];
        assert_eq!(actual, expected);
    }

    {
        let mut items = vec.borrow_mut();
        items.sort();
    }
    {
        let items = vec.read(&reader);
        let actual: Vec<_> = items.changes();
        let expected: Vec<VecChange<'_, i32>> = Vec::new();
        assert_eq!(actual, expected);
    }

    {
        let mut items = vec.borrow_mut();
        let len = items.len();
        items.drain(1, len);
    }
    {
        let items = vec.read(&reader);
        let actual: Vec<_> = items.changes();
        let expected = vec![
            VecChange::Remove {
                index: 2,
                old_value: &3,
            },
            VecChange::Remove {
                index: 1,
                old_value: &2,
            },
        ];
        assert_eq!(actual, expected);
    }
}

#[test]
fn signal_vec_from_slice_and_vec_changes() {
    {
        let vec: &[i32] = &[1, 2];
        let mut reader = ImmutableVecReader::new();
        {
            let items = reader.read(vec);
            assert_eq!(items.changes(), inserts_1_2());
        }
        {
            let items = reader.read(vec);
            assert_eq!(items.changes(), vec![]);
        }
    }

    {
        let vec: Vec<i32> = vec![1, 2];
        let mut reader = ImmutableVecReader::new();
        {
            let items = reader.read(&vec);
            assert_eq!(items.changes(), inserts_1_2());
        }
        {
            let items = reader.read(&vec);
            assert!(items.changes().is_empty());
        }
    }
}

#[test]
fn items_basic_apis() {
    let vec: StateVec<i32> = StateVec::from_vec(vec![1, 2, 3]);

    let items = vec.borrow();

    assert_eq!(items.len(), 3);
    assert!(!items.is_empty());
    assert_eq!(items.get(0), Some(&1));
    assert_eq!(items.get(2), Some(&3));
    assert_eq!(items.get(3), None);
    assert_eq!(items.get(1), Some(&2));
    assert!(items.changes().is_empty());
}

#[test]
fn state_vec_releases_old_values_after_the_last_reader_advances() {
    let old = Rc::new(String::from("old"));
    let new = Rc::new(String::from("new"));
    let mut vec: StateVec<Rc<String>> = StateVec::from_vec(vec![old.clone()]);
    let reader = vec.reader();
    drop(vec.read(&reader));

    vec.borrow_mut().set(0, new.clone());
    assert_eq!(Rc::strong_count(&old), 2);

    let items = vec.read(&reader);
    assert_eq!(
        items.changes(),
        vec![VecChange::SetValue {
            index: 0,
            old_value: &old,
            new_value: &new,
        }]
    );
    assert_eq!(Rc::strong_count(&old), 2);
    drop(items);
    vec.compact();

    assert_eq!(Rc::strong_count(&old), 1);
}

#[test]
fn state_vec_releases_unread_history_without_readers() {
    let old = Rc::new(String::from("old"));
    let mut vec: StateVec<Rc<String>> = StateVec::from_vec(vec![old.clone()]);

    let mut items = vec.borrow_mut();
    items.set(0, Rc::new(String::from("new")));
    items.finish();

    assert_eq!(Rc::strong_count(&old), 1);
}

#[test]
fn items_mut_edits_report_dirty_and_values() {
    let mut vec: StateVec<i32> = StateVec::new();
    {
        let mut items = vec.borrow_mut();
        assert!(!items.is_dirty());
        assert!(items.is_empty());
        items.push(1);
        items.push(2);
        items.push(3);
        assert!(items.is_dirty());
        assert_eq!(items.len(), 3);
        assert_eq!(items.get(2), Some(&3));
        assert_eq!(items.get(3), None);
        items.swap_remove(0);
        assert_eq!(items.get(0), Some(&3));
        assert_eq!(items.len(), 2);
    }
    {
        let mut items = vec.borrow_mut();
        assert!(!items.is_dirty());
        items.clear();
        assert!(items.is_empty());
    }
    assert!(vec.borrow().is_empty());
}

#[test]
fn swap_remove_reports_swap_then_remove() {
    let mut vec: StateVec<i32> = StateVec::from_vec(vec![1, 2, 3]);
    let reader = vec.reader();
    drop(vec.read(&reader));
    vec.borrow_mut().swap_remove(0);
    let items = vec.read(&reader);
    let changes = items.changes();
    assert_eq!(changes.last(), Some(&VecChange::Remove { index: 2, old_value: &1 }));
    assert_eq!(items.get(0), Some(&3));
    assert_eq!(items.get(1), Some(&2));
}

#[test]
fn replaying_changes_rebuilds_the_items() {
    let mut vec: StateVec<i32> = StateVec::from_vec(vec![5, 6, 7]);
    let reader = vec.reader();
    drop(vec.read(&reader));
    let mut replica = vec![5, 6, 7];
    {
        let mut items = vec.borrow_mut();
        items.insert(1, 9);
        items.set(3, 8);
        items.move_item(0, 2);
        items.sort();
        items.remove(0);
    }
    let items = vec.read(&reader);
    for change in items.changes() {
        match change {
            VecChange::Insert { index, new_value } => replica.insert(index, *new_value),
            VecChange::Remove { index, .. } => {
                replica.remove(index);
            }
            VecChange::SetValue { index, new_value, .. } => replica[index] = *new_value,
            VecChange::Move {
                old_index,
                new_index,
            } => {
                let v = replica.remove(old_index);
                replica.insert(new_index, v);
            }
            VecChange::Swap { index } => replica.swap(index.0, index.1),
            VecChange::Sort(p) => {
                let old = replica.clone();
                replica = p.as_slice().iter().map(|&i| old[i]).collect();
            }
        }
    }
    let current: Vec<i32> = (0..items.len()).map(|i| *items.get(i).unwrap()).collect();
    assert_eq!(replica, current);
    assert_eq!(current, vec![6, 8, 9]);
}

#[test]
fn extend_records_one_insert_per_value() {
    let mut vec: StateVec<i32> = StateVec::from_vec(vec![1]);
    let reader = vec.reader();
    drop(vec.read(&reader));
    vec.borrow_mut().extend(vec![2, 3]);
    let items = vec.read(&reader);
    assert_eq!(
        items.changes(),
        vec![
            VecChange::Insert {
                index: 1,
                new_value: &2,
            },
            VecChange::Insert {
                index: 2,
                new_value: &3,
            },
        ]
    );
    assert_eq!(items.len(), 3);
}

#[test]
fn unstable_sorts_order_the_items() {
    let mut vec: StateVec<i32> = StateVec::from_vec(vec![3, 1, 2]);
    vec.borrow_mut().sort_unstable();
    let items = vec.borrow();
    assert_eq!((items.get(0), items.get(1), items.get(2)), (Some(&1), Some(&2), Some(&3)));
    drop(items);
    vec.borrow_mut().sort_unstable_by(|a: &i32, b: &i32| b.cmp(a));
    assert_eq!(vec.borrow().get(0), Some(&3));
    vec.borrow_mut().sort_unstable_by_key(|v: &i32| *v % 3);
    let items = vec.borrow();
    assert_eq!((items.get(0), items.get(1), items.get(2)), (Some(&3), Some(&1), Some(&2)));
}

#[test]
fn immutable_signal_vec_reader_peek_does_not_advance() {
    let slice: &[i32] = &[1, 2];
    let owned: Vec<i32> = vec![1, 2];
    let sources: [&[i32]; 2] = [slice, owned.as_slice()];

    for vec in sources {
        let mut reader = ImmutableVecReader::new();
        {
            let items = reader.peek(vec);
            assert_eq!(items.changes(), inserts_1_2());
        }
        {
            let items = reader.read(vec);
            assert_eq!(items.changes(), inserts_1_2());
        }
        assert_eq!(reader.peek(vec).changes(), []);
    }
}

#[test]
fn immutable_signal_vec_reader_clones_have_independent_cursors() {
    let slice: &[i32] = &[1, 2];
    let owned: Vec<i32> = vec![1, 2];
    let sources: [&[i32]; 2] = [slice, owned.as_slice()];

    for vec in sources {
        let mut reader = ImmutableVecReader::new();
        let mut reader_clone = reader;

        let _ = reader.read(vec);
        assert_eq!(reader.peek(vec).changes(), []);
        assert_eq!(reader.clone().peek(vec).changes(), []);
        {
            let items = reader_clone.read(vec);
            assert_eq!(items.changes(), inserts_1_2());
            assert_eq!(items.len(), 2);
            assert_eq!(items.get(1), Some(&2));
            assert!(!items.is_empty());
        }
        assert_eq!(reader_clone.peek(vec).changes(), []);
    }
}

#[test]
fn sort_by_key_keeps_items_with_equal_keys_in_order() {
    let mut vec: StateVec<(i32, char)> = StateVec::from_vec(vec![(2, 'a'), (1, 'b'), (2, 'c'), (1, 'd')]);
    let reader = vec.reader();
    drop(vec.read(&reader));
    vec.borrow_mut().sort_by_key(|v: &(i32, char)| v.0);
    let items = vec.read(&reader);
    let p = IndexNewToOld::new(&[1, 3, 0, 2]);
    assert_eq!(items.changes(), vec![VecChange::Sort(&p)]);
    assert_eq!(
        (items.get(0), items.get(1), items.get(2), items.get(3)),
        (Some(&(1, 'b')), Some(&(1, 'd')), Some(&(2, 'a')), Some(&(2, 'c')))
    );
}

#[test]
fn sort_by_leaves_items_in_order_untouched() {
    let mut vec: StateVec<i32> = StateVec::from_vec(vec![3, 2, 2, 1]);
    let reader = vec.reader();
    drop(vec.read(&reader));
    vec.borrow_mut().sort_by(|a: &i32, b: &i32| b.cmp(a));
    assert!(vec.read(&reader).changes().is_empty());
}

#[test]
fn swap_remove_and_set_report_the_values_they_replace() {
    let mut vec: StateVec<i32> = StateVec::from_vec(vec![10, 20, 30]);
    let reader = vec.reader();
    drop(vec.read(&reader));
    {
        let mut items = vec.borrow_mut();
        items.swap_remove(0);
        items.set(0, 40);
    }
    let items = vec.read(&reader);
    assert_eq!(
        items.changes(),
        vec![
            VecChange::Swap { index: (0, 2) },
            VecChange::Remove { index: 2, old_value: &10 },
            VecChange::SetValue { index: 0, new_value: &40, old_value: &30 },
        ]
    );
}

#[test]
fn state_vec_notifies_only_when_history_is_recorded() {
    let mut vec = StateVec::<i32>::new();
    let mut calls = 1;
    assert_eq!(calls, 1);

    if vec.borrow_mut().finish() {
        calls += 1;
    }
    assert_eq!(calls, 1);

    let mut items = vec.borrow_mut();
    items.push(1);
    if items.finish() {
        calls += 1;
    }
    assert_eq!(calls, 2);

    let mut items = vec.borrow_mut();
    items.push(2);
    if items.finish() {
        calls += 1;
    }
    assert_eq!(calls, 3);
}
