use std::rc::Rc;

use sigmut::collections::slots::Slots;
use sigmut::reactive::context::{NotifyEntry, ReactiveContextData, ReactiveState};
use sigmut::reactive::{dedup_load, FilterScanLoad, FilterScanResult, ScanState, Subscription};

#[test]
fn scan_state_loads_and_unloads() {
    let mut state: ScanState<u32, String> = ScanState::default();
    assert!(!state.load(|s: String| s.len() as u32));
    assert!(!state.unload(|n: u32| n.to_string()));
    assert!(matches!(state, ScanState::NoData));

    state = ScanState::Unloaded(String::from("abc"));
    assert!(!state.is_loaded());
    assert!(!state.unload(|n: u32| n.to_string()));
    assert!(state.load(|s: String| s.len() as u32));
    assert!(state.is_loaded());
    assert_eq!(*state.get(), 3);
    assert!(!state.load(|_: String| 0));
    assert_eq!(*state.get(), 3);

    assert!(state.unload(|n: u32| format!("{n}!")));
    assert!(!state.is_loaded());
    assert!(matches!(&state, ScanState::Unloaded(s) if s == "3!"));
}

#[test]
fn filter_scan_results_carry_the_notification_flag() {
    let load = FilterScanLoad {
        state: 5,
        is_notify: true,
    };
    let result = FilterScanResult {
        state: load.state + 1,
        is_notify: !load.is_notify,
    };
    assert_eq!(result.state, 6);
    assert!(!result.is_notify);
}

#[test]
fn subscriptions_keep_values_alive() {
    let empty = Subscription::empty();
    assert!(empty.is_empty());
    let value = Rc::new(5);
    let subscription = Subscription(Some(Rc::new(value.clone())));
    assert!(!subscription.is_empty());
    assert_eq!(Rc::strong_count(&value), 2);
    drop(subscription);
    assert_eq!(Rc::strong_count(&value), 1);
}

#[test]
fn slots_hand_out_keys_not_in_use() {
    let mut slots: Slots<&str> = Slots::new();
    let a = slots.insert("a");
    let b = slots.insert("b");
    let c = slots.insert("c");
    assert_eq!((a, b, c), (0, 1, 2));
    assert_eq!(slots.remove(a), Some("a"));
    assert_eq!(slots.remove(c), Some("c"));
    assert_eq!(slots.remove(c), None);
    assert!(!slots.contains_key(a));
    assert!(slots.contains_key(b));
    assert_eq!(slots.insert("d"), 0);
    assert_eq!(slots.insert("e"), 2);
    assert_eq!(slots.insert("f"), 3);
    assert_eq!(slots.get(0), Some(&"d"));
    assert_eq!(slots.get(2), Some(&"e"));
    assert_eq!(slots.get(9), None);
    *slots.get_mut(b) = "B";
    assert_eq!(slots.get(b), Some(&"B"));
    assert_eq!(slots.key_bound(), 4);
}

#[test]
fn reactive_context_defers_tasks_until_notifications_end() {
    let mut cx: ReactiveContextData<&str, &str> = ReactiveContextData::new();
    assert_eq!(cx.begin_notify(), NotifyEntry::Outermost);
    assert_eq!(cx.current_state(), ReactiveState::Notify(0));
    assert_eq!(cx.begin_notify(), NotifyEntry::Nested(0));
    assert_eq!(cx.current_state(), ReactiveState::Notify(1));
    cx.spawn("t0");
    cx.spawn("t1");
    cx.end_nested_notify(0);
    assert_eq!(cx.current_state(), ReactiveState::Notify(0));

    assert!(cx.notify_end());
    assert_eq!(cx.current_state(), ReactiveState::Bind(0));
    assert_eq!(cx.next_bind_task(), Some("t1"));
    assert_eq!(cx.next_bind_task(), Some("t0"));
    assert_eq!(cx.next_bind_task(), None);
    assert_eq!(cx.bind_end(), None);
    assert_eq!(cx.current_state(), ReactiveState::Idle);
}

#[test]
fn reactive_context_defers_notifications_until_bindings_end() {
    let mut cx: ReactiveContextData<u8, &str> = ReactiveContextData::new();
    assert_eq!(cx.begin_bind(), None);
    assert_eq!(cx.begin_bind(), Some(0));
    assert_eq!(cx.current_state(), ReactiveState::Bind(1));
    assert_eq!(cx.begin_notify(), NotifyEntry::Refused);
    cx.defer_notify("a");
    cx.defer_notify("b");
    cx.end_nested_bind(0);
    assert_eq!(cx.current_state(), ReactiveState::Bind(0));

    assert_eq!(cx.bind_end(), Some(vec!["a", "b"]));
    assert_eq!(cx.current_state(), ReactiveState::Notify(0));
    assert!(!cx.notify_end());
    assert_eq!(cx.current_state(), ReactiveState::Idle);
    assert_eq!(cx.bind_end(), None);
}

#[test]
fn slots_hand_out_the_lowest_free_key_after_optimizing() {
    let mut plain: Slots<u8> = Slots::new();
    let mut optimized: Slots<u8> = Slots::new();
    for slots in [&mut plain, &mut optimized] {
        slots.insert(1);
        slots.insert(2);
        slots.insert(3);
        slots.remove(0);
        slots.remove(1);
    }
    optimized.optimize();
    assert_eq!(optimized.get(2), Some(&3));
    assert_eq!(plain.insert(4), 1);
    assert_eq!(optimized.insert(4), 0);
}

#[test]
fn dedup_load_stores_the_first_value_without_notifying() {
    let eq = |a: &i32, b: &i32| a == b;
    let r = dedup_load(None, 5, &eq);
    assert_eq!((r.state, r.is_notify), (5, false));
}

#[test]
fn dedup_load_keeps_an_equal_value_silently_and_notifies_a_new_one() {
    let eq = |a: &i32, b: &i32| a % 10 == b % 10;
    let same = dedup_load(Some(3), 13, &eq);
    assert_eq!((same.state, same.is_notify), (3, false));
    let changed = dedup_load(Some(3), 4, &eq);
    assert_eq!((changed.state, changed.is_notify), (4, true));
}
