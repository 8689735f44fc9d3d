use std::cell::RefCell;
use std::rc::Rc;

use sigmut::change_feed::{
    ChangeFeedDelta, ChangeFeedModel, ChangeFeedRef, ChangeFeedRefMut, ChangeFeedStorage, CursorState,
};

struct TestModel {
    value: i32,
    released: Rc<RefCell<Vec<i32>>>,
}

impl ChangeFeedModel for TestModel {
    type Change = i32;

    fn release_change(&mut self, change: Self::Change) {
        self.released.borrow_mut().push(change);
    }
}

fn set(edit: &mut ChangeFeedRefMut<'_, TestModel>, value: i32) {
    let old = edit.current().value;
    edit.current_mut().value = value;
    edit.record(old);
}

fn delta(value: &ChangeFeedRef<'_, TestModel>) -> Option<Vec<i32>> {
    match value.delta() {
        ChangeFeedDelta::Initial => None,
        ChangeFeedDelta::Changes(changes) => Some(changes.to_vec()),
    }
}

fn new_state(value: i32, released: &Rc<RefCell<Vec<i32>>>) -> ChangeFeedStorage<TestModel> {
    ChangeFeedStorage::new(TestModel {
        value,
        released: released.clone(),
    })
}

#[test]
fn reader_distinguishes_initial_and_incremental_changes() {
    let released = Rc::new(RefCell::new(Vec::new()));
    let mut state = new_state(0, &released);
    let reader = state.reader();

    assert_eq!(delta(&state.peek(&reader)), None);
    assert_eq!(delta(&state.read(&reader)), None);
    assert_eq!(delta(&state.peek(&reader)), Some(Vec::new()));

    set(&mut state.begin_edit(), 1);

    assert_eq!(delta(&state.read(&reader)), Some(vec![0]));
    assert_eq!(delta(&state.peek(&reader)), Some(Vec::new()));
}

#[test]
fn reader_distinguishes_initial_and_incremental_deltas() {
    let released = Rc::new(RefCell::new(Vec::new()));
    let mut state = new_state(0, &released);
    let reader = state.reader();

    assert_eq!(delta(&state.peek(&reader)), None);
    assert_eq!(delta(&state.read(&reader)), None);
    assert_eq!(delta(&state.peek(&reader)), Some(Vec::new()));

    set(&mut state.begin_edit(), 1);

    assert_eq!(delta(&state.read(&reader)), Some(vec![0]));
    assert_eq!(delta(&state.peek(&reader)), Some(Vec::new()));
}

fn cloned_readers_scenario() {
    let released = Rc::new(RefCell::new(Vec::new()));
    let mut state = new_state(0, &released);
    let reader = state.reader();
    drop(state.read(&reader));
    state.compact();
    let reader_clone = state.clone_reader(&reader);

    set(&mut state.begin_edit(), 1);
    assert_eq!(delta(&state.read(&reader)), Some(vec![0]));
    state.compact();
    assert_eq!(*released.borrow(), Vec::<i32>::new());

    set(&mut state.begin_edit(), 2);
    assert_eq!(delta(&state.read(&reader)), Some(vec![1]));
    state.compact();
    assert_eq!(delta(&state.read(&reader_clone)), Some(vec![0, 1]));
    state.compact();
    assert_eq!(&*released.borrow(), &[0, 1]);
}

#[test]
fn cloned_readers_retain_independent_cursors() {
    cloned_readers_scenario();
}

#[test]
fn tests_cloned_readers_retain_independent_cursors() {
    cloned_readers_scenario();
}

fn ref_drop_scenario() {
    let released = Rc::new(RefCell::new(Vec::new()));
    let mut state = new_state(0, &released);
    let reader = state.reader();
    drop(state.read(&reader));
    set(&mut state.begin_edit(), 1);

    let value = state.read(&reader);
    assert_eq!(delta(&value), Some(vec![0]));
    assert_eq!(*released.borrow(), Vec::<i32>::new());
    drop(value);
    state.compact();

    assert_eq!(&*released.borrow(), &[0]);
}

#[test]
fn ref_drop_applies_deferred_reader_advance() {
    ref_drop_scenario();
}

#[test]
fn tests_ref_drop_applies_deferred_reader_advance() {
    ref_drop_scenario();
}

#[test]
fn edit_changes_are_empty_without_records() {
    let released = Rc::new(RefCell::new(Vec::new()));
    let mut state = new_state(0, &released);
    let edit = state.begin_edit();

    assert_eq!(edit.changes().to_vec(), Vec::<i32>::new());
    assert!(!edit.is_dirty());
}

#[test]
fn edit_changes_are_ordered_and_exclude_changes_before_the_edit() {
    let released = Rc::new(RefCell::new(Vec::new()));
    let mut state = new_state(0, &released);
    let reader = state.reader();
    drop(state.read(&reader));
    set(&mut state.begin_edit(), 1);

    let mut edit = state.begin_edit();
    set(&mut edit, 2);
    set(&mut edit, 3);

    assert_eq!((edit.current().value, edit.changes().to_vec()), (3, vec![1, 2]));
    assert!(edit.is_dirty());
}

#[test]
fn contextless_borrow_returns_materialized_current_without_advancing_reader() {
    let released = Rc::new(RefCell::new(Vec::new()));
    let mut state = new_state(1, &released);
    let reader = state.reader();

    assert_eq!(state.borrow_current().current().value, 1);
    assert_eq!(delta(&state.read(&reader)), None);
}

#[test]
fn change_feed_releases_nothing_a_reader_still_needs() {
    let released = Rc::new(RefCell::new(Vec::new()));
    let mut state = new_state(0, &released);
    let reader = state.reader();
    drop(state.read(&reader));
    set(&mut state.begin_edit(), 1);
    set(&mut state.begin_edit(), 2);
    state.compact();
    assert_eq!(*released.borrow(), Vec::<i32>::new());
    assert_eq!(state.end_cursor(), 2);

    state.release_reader(reader);
    assert_eq!(&*released.borrow(), &[0, 1]);
}

#[test]
fn change_feed_without_readers_releases_on_the_next_edit() {
    let released = Rc::new(RefCell::new(Vec::new()));
    let mut state = new_state(0, &released);
    set(&mut state.begin_edit(), 5);
    assert_eq!(*released.borrow(), Vec::<i32>::new());
    set(&mut state.begin_edit(), 6);
    assert_eq!(&*released.borrow(), &[0]);
    assert_eq!(state.current_ref().value, 6);
}

#[test]
fn change_feed_unread_reader_reads_initial_after_edits() {
    let released = Rc::new(RefCell::new(Vec::new()));
    let mut state = new_state(0, &released);
    let reader = state.reader();
    set(&mut state.begin_edit(), 1);
    let value = state.read(&reader);
    assert_eq!(delta(&value), None);
    assert_eq!(value.current().value, 1);
    drop(value);
    assert_eq!(delta(&state.read(&reader)), Some(Vec::new()));
}

#[test]
fn cursor_state_compares_by_position() {
    assert_eq!(CursorState::At(3), CursorState::At(3));
    assert_ne!(CursorState::At(3), CursorState::At(4));
    assert_ne!(CursorState::Unread, CursorState::Released);
}

#[test]
fn finishing_an_edit_releases_what_no_reader_needs() {
    let released = Rc::new(RefCell::new(Vec::new()));
    let mut state = new_state(0, &released);
    let edit = state.begin_edit();
    assert!(!edit.finish());

    let mut edit = state.begin_edit();
    set(&mut edit, 5);
    assert!(edit.finish());
    assert_eq!(&*released.borrow(), &[0]);

    let reader = state.reader();
    drop(state.read(&reader));
    let mut edit = state.begin_edit();
    set(&mut edit, 6);
    assert!(edit.finish());
    assert_eq!(&*released.borrow(), &[0]);
    assert_eq!(delta(&state.read(&reader)), Some(vec![5]));
}
