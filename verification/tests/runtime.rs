use sigmut::runtime::bindings::{
    check_sources, check_with, scan_update, update_sources, Sink, SinkBindings, SourceBinder, SourceBinding,
};
use sigmut::runtime::flush::FlushStep;
use sigmut::runtime::context_channel::{ChannelState, ContextChannel};
use sigmut::runtime::scheduler::{Scheduler, WakeReaction};
use sigmut::runtime::{ActionKind, BindKey, Buckets, Dirty, DirtyLevel, ReactionKind, Slot};

#[test]
fn buckets_drain_one_kind_in_fifo_order() {
    let mut buckets: Buckets<u32> = Buckets::new();
    buckets.register_bucket(2);
    buckets.register_bucket(-1);
    assert!(buckets.try_push(2, 10));
    assert!(buckets.try_push(-1, 20));
    assert!(buckets.try_push(2, 11));
    assert!(!buckets.try_push(5, 30));
    assert!(!buckets.is_empty());

    let mut out = Vec::new();
    buckets.drain(Some(2), &mut out);
    assert_eq!(out, vec![10, 11]);
    assert!(!buckets.is_empty());
    assert!(buckets.contains_bucket(2));

    buckets.drain(Some(7), &mut out);
    assert_eq!(out, vec![10, 11]);

    buckets.drain(Some(-1), &mut out);
    assert_eq!(out, vec![10, 11, 20]);
    assert!(buckets.is_empty());
}

#[test]
fn buckets_drain_all_kinds_in_ascending_order() {
    let mut buckets: Buckets<&str> = Buckets::new();
    buckets.register_bucket(3);
    buckets.register_bucket(1);
    buckets.register_bucket(2);
    buckets.register_bucket(1);
    buckets.try_push(3, "c0");
    buckets.try_push(1, "a0");
    buckets.try_push(2, "b0");
    buckets.try_push(1, "a1");

    let mut out = vec!["x"];
    buckets.drain(None, &mut out);
    assert_eq!(out, vec!["x", "a0", "a1", "b0", "c0"]);
    assert!(buckets.is_empty());
    assert!(buckets.contains_bucket(1));
    assert!(buckets.contains_bucket(3));
    assert!(!buckets.contains_bucket(4));
}

type Tables = Scheduler<&'static str, &'static str, &'static str, u32>;

#[test]
fn kinds_are_registered_through_the_scheduler() {
    let mut scheduler: Tables = Scheduler::new();
    let reaction = ReactionKind::new(-3, "layout");
    let action = ActionKind::new(4, "commit");
    assert!(ReactionKind::default().is_registered(&scheduler));
    assert!(ActionKind::default().is_registered(&scheduler));
    assert!(!reaction.is_registered(&scheduler));
    assert!(!action.is_registered(&scheduler));
    assert!(!scheduler.has_runtime());
    assert!(!scheduler.start_runtime());
    assert!(scheduler.has_runtime());
    scheduler.register_reaction_kind(reaction);
    scheduler.register_action_kind(action);
    assert!(reaction.is_registered(&scheduler));
    assert!(action.is_registered(&scheduler));
    assert!(scheduler.is_reaction_kind_registered(reaction));
    assert!(!scheduler.is_action_kind_registered(ActionKind::new(5, "other")));

    scheduler.finish_runtime();
    assert!(!scheduler.has_runtime());
    assert!(!reaction.is_registered(&scheduler));
    assert!(ReactionKind::default().is_registered(&scheduler));
    assert!(!scheduler.start_runtime());
    assert!(scheduler.start_runtime());
}

#[test]
fn scheduler_wakes_a_waiting_runtime_once() {
    let mut scheduler: Tables = Scheduler::new();
    scheduler.start_runtime();
    assert!(!scheduler.wait_for_ready(false));
    assert!(scheduler.schedule_reaction(ReactionKind::default(), "r0"));
    assert!(!scheduler.schedule_reaction(ReactionKind::default(), "r1"));
    assert!(scheduler.wait_for_ready(false));

    let mut out = Vec::new();
    scheduler.get_reactions(None, &mut out);
    assert_eq!(out, vec!["r0", "r1"]);
    assert!(!scheduler.wait_for_ready(false));
    assert!(scheduler.push_notify("n"));
    assert!(scheduler.wait_for_ready(false));

    let mut notifys = Vec::new();
    assert!(scheduler.get_notifys(Vec::new(), Vec::new(), &mut notifys));
    assert_eq!(notifys, vec!["n"]);
    assert!(scheduler.wait_for_ready(true));
    assert!(!scheduler.wait_for_ready(false));
    assert!(scheduler.schedule_action(ActionKind::default(), "a"));
}

#[test]
fn scheduler_dispatches_actions_by_kind() {
    let mut scheduler: Tables = Scheduler::new();
    scheduler.start_runtime();
    let commit = ActionKind::new(2, "commit");
    scheduler.register_action_kind(commit);
    scheduler.schedule_action(commit, "c0");
    scheduler.schedule_action(ActionKind::default(), "d0");
    scheduler.schedule_action(commit, "c1");

    let mut out = Vec::new();
    assert!(scheduler.get_actions(Some(commit), &mut out, Vec::new(), Vec::new()));
    assert_eq!(out, vec!["c0", "c1"]);
    assert!(scheduler.get_actions(None, &mut out, Vec::new(), Vec::new()));
    assert_eq!(out, vec!["c0", "c1", "d0"]);
    assert!(!scheduler.get_actions(None, &mut out, Vec::new(), Vec::new()));
}

#[test]
fn scheduler_applies_wake_requests_in_order() {
    let mut scheduler: Tables = Scheduler::new();
    scheduler.start_runtime();
    let commit = ActionKind::new(2, "commit");
    scheduler.register_action_kind(commit);
    let notify = scheduler.insert_wake(WakeReaction::Notify("sink"));
    let resume = scheduler.insert_wake(WakeReaction::AsyncAction {
        kind: commit,
        action: "resume",
    });
    let unregistered = scheduler.insert_wake(WakeReaction::AsyncAction {
        kind: ActionKind::new(9, "gone"),
        action: "lost",
    });
    let dropped = scheduler.insert_wake(WakeReaction::Notify("dropped"));

    let mut notifys = Vec::new();
    assert!(scheduler.get_notifys(
        vec![dropped],
        vec![notify, dropped, resume, unregistered, notify, 77],
        &mut notifys
    ));
    assert_eq!(notifys, vec!["sink", "sink"]);

    let mut actions = Vec::new();
    assert!(scheduler.get_actions(None, &mut actions, Vec::new(), vec![resume]));
    assert_eq!(actions, vec!["resume", "resume"]);

    let mut notifys = Vec::new();
    assert!(!scheduler.get_notifys(Vec::new(), vec![dropped], &mut notifys));
}

#[test]
fn scheduler_hands_out_unbinds() {
    let mut scheduler: Tables = Scheduler::new();
    scheduler.push_unbinds(3);
    scheduler.push_unbinds(4);
    assert!(scheduler.wait_for_ready(false));
    let mut values = Vec::new();
    assert!(scheduler.swap_unbinds(&mut values));
    assert_eq!(values, vec![3, 4]);
    values.clear();
    assert!(!scheduler.swap_unbinds(&mut values));
}

#[test]
fn kinds_compare_by_id() {
    assert_eq!(ReactionKind::new(1, "a"), ReactionKind::new(1, "b"));
    assert_ne!(ReactionKind::new(1, "a"), ReactionKind::new(2, "a"));
    assert_eq!(ActionKind::new(0, "x"), ActionKind::default());
    assert_eq!(ReactionKind::default().id, 0);
    assert_eq!(ActionKind::new(7, "name").name, "name");
}

#[test]
fn sink_bindings_notify_only_clean_dependants() {
    let mut bindings: SinkBindings<&str> = SinkBindings::new();
    assert!(bindings.is_empty());
    let a = bindings.bind_new("a", Slot(0));
    let b = bindings.bind_new("b", Slot(1));
    let c = bindings.bind_new("c", Slot(2));
    assert!(!bindings.is_empty());
    assert_eq!(bindings.get(b).unwrap().sink, "b");
    assert_eq!(bindings.get(b).unwrap().dirty, Dirty::Clean);

    let first = bindings.notify(DirtyLevel::MaybeDirty);
    assert_eq!(first, vec![a, b, c]);
    let second = bindings.notify(DirtyLevel::Dirty);
    assert_eq!(second, Vec::<BindKey>::new());
    assert_eq!(bindings.get(a).unwrap().dirty, Dirty::Dirty);

    bindings.mark_clean(a);
    bindings.unbind(c);
    assert!(bindings.get(c).is_none());
    let third = bindings.notify(DirtyLevel::MaybeDirty);
    assert_eq!(third, vec![a]);
}

#[test]
fn sink_bindings_update_settles_possibly_dirty_dependants() {
    let mut bindings: SinkBindings<u8> = SinkBindings::new();
    let a = bindings.bind_new(1, Slot(0));
    let b = bindings.bind_new(2, Slot(0));
    bindings.notify(DirtyLevel::MaybeDirty);
    bindings.mark_clean(b);
    bindings.update(false);
    assert!(!bindings.is_dirty(a));
    assert!(!bindings.is_dirty(b));

    bindings.notify(DirtyLevel::MaybeDirty);
    bindings.update(true);
    assert!(bindings.is_dirty(a));
    assert!(bindings.is_dirty(b));

    bindings.set_slot(a, Slot(5));
    assert_eq!(bindings.get(a).unwrap().slot, Slot(5));
}

fn source(source: usize, key: usize) -> SourceBinding {
    SourceBinding {
        source,
        slot: Slot(0),
        key: BindKey(key),
    }
}

#[test]
fn sink_keeps_sources_read_in_the_same_order() {
    let mut sink = Sink::new("c", Slot(9), vec![source(1, 0), source(2, 0), source(3, 0)], true);
    assert_eq!(*sink.sink(), "c");
    assert_eq!(sink.sink_slot(), Slot(9));
    assert_eq!(sink.next_previous(), Some(source(1, 0)));
    sink.keep_previous();
    assert_eq!(sink.next_previous(), Some(source(2, 0)));
    assert_eq!(sink.push(source(7, 0)), Some(source(2, 0)));
    let (kept, stale) = sink.finish();
    assert_eq!(kept, vec![source(1, 0), source(7, 0)]);
    assert_eq!(stale, vec![source(3, 0)]);
}

#[test]
fn sink_appends_sources_past_the_previous_ones() {
    let mut sink = Sink::new((), Slot(0), vec![source(1, 0)], false);
    assert_eq!(sink.next_previous(), None);
    assert_eq!(sink.push(source(4, 0)), None);
    let (kept, stale) = sink.finish();
    assert_eq!(kept, vec![source(1, 0), source(4, 0)]);
    assert!(stale.is_empty());

    let sink = Sink::new((), Slot(0), vec![source(5, 0), source(6, 0)], true);
    let (kept, stale) = sink.finish();
    assert!(kept.is_empty());
    assert_eq!(stale, vec![source(5, 0), source(6, 0)]);
}

#[test]
fn sink_bindings_bind_keeps_a_source_read_again_at_the_same_position() {
    let mut first: SinkBindings<&str> = SinkBindings::new();
    let mut second: SinkBindings<&str> = SinkBindings::new();

    let mut sink = Sink::new("view", Slot(2), Vec::new(), true);
    assert_eq!(first.bind(10, Slot(0), &mut sink), None);
    assert_eq!(second.bind(20, Slot(1), &mut sink), None);
    let (sources, stale) = sink.finish();
    assert!(stale.is_empty());
    assert_eq!(sources.len(), 2);
    let key_first = sources[0].key;
    assert_eq!(first.get(key_first).unwrap().sink, "view");
    assert_eq!(first.get(key_first).unwrap().slot, Slot(2));

    first.notify(DirtyLevel::Dirty);
    let mut sink = Sink::new("view", Slot(2), sources, true);
    assert_eq!(first.bind(10, Slot(0), &mut sink), None);
    assert_eq!(first.get(key_first).unwrap().dirty, Dirty::Clean);
    let (sources, stale) = sink.finish();
    assert_eq!(sources, vec![source(10, key_first.0)]);
    assert_eq!(stale.len(), 1);
    assert_eq!(stale[0].source, 20);
}

#[test]
fn sink_bindings_bind_replaces_a_different_source() {
    let mut a: SinkBindings<&str> = SinkBindings::new();
    let mut b: SinkBindings<&str> = SinkBindings::new();
    let mut sink = Sink::new("x", Slot(0), Vec::new(), true);
    a.bind(1, Slot(0), &mut sink);
    let (sources, _) = sink.finish();

    let mut sink = Sink::new("x", Slot(0), sources.clone(), true);
    let replaced = b.bind(2, Slot(0), &mut sink);
    assert_eq!(replaced, Some(sources[0]));
    let (now, stale) = sink.finish();
    assert_eq!(now.len(), 1);
    assert_eq!(now[0].source, 2);
    assert!(stale.is_empty());
    a.unbind(replaced.unwrap().key);
    assert!(a.is_empty());
}

#[test]
fn sink_bindings_rebind_moves_the_binding_to_the_dependant_slot() {
    let mut bindings: SinkBindings<&str> = SinkBindings::new();
    let key = bindings.bind_new("x", Slot(1));
    let mut sink = Sink::new("x", Slot(4), vec![source(8, 3)], true);
    let replaced = bindings.rebind(5, Slot(6), key, &mut sink);
    assert_eq!(replaced, Some(source(8, 3)));
    assert_eq!(bindings.get(key).unwrap().slot, Slot(4));
    let (now, _) = sink.finish();
    assert_eq!(
        now,
        vec![SourceBinding {
            source: 5,
            slot: Slot(6),
            key
        }]
    );
}

#[test]
fn source_binder_notifies_once_until_recomputed() {
    let mut binder = SourceBinder::new(Slot(3));
    assert!(!binder.is_clean());
    assert!(binder.check(|| panic!("a dirty computation does not ask its sources")));
    binder.begin_update();
    assert!(binder.is_clean());

    assert!(!binder.on_notify(Slot(4), DirtyLevel::Dirty));
    assert!(binder.is_clean());
    assert!(binder.on_notify(Slot(3), DirtyLevel::MaybeDirty));
    assert!(!binder.on_notify(Slot(3), DirtyLevel::Dirty));
    assert!(binder.check(|| panic!("a dirty computation does not ask its sources")));

    binder.begin_update();
    assert!(binder.on_notify(Slot(3), DirtyLevel::MaybeDirty));
    assert!(!binder.check(|| false));
    assert!(binder.is_clean());

    binder.clear();
    assert!(!binder.is_clean());
}

#[test]
fn source_binder_asks_sources_when_possibly_dirty() {
    let mut binder = SourceBinder::new(Slot(0));
    binder.begin_update();
    binder.on_notify(Slot(0), DirtyLevel::MaybeDirty);
    assert!(binder.check(|| true));
    assert!(!binder.is_clean());
}

#[test]
fn inactive_channels_do_not_lend() {
    let mut channel: ContextChannel<u32> = ContextChannel::new();
    assert!(!channel.is_borrowed());
    assert_eq!(channel.try_borrow(), None);
    assert!(!channel.is_borrowed());
}

#[test]
fn channels_support_scopes_and_repeated_borrows() {
    let mut channel: ContextChannel<u32> = ContextChannel::new();
    let outer = channel.scope(1);
    assert_eq!(outer, ChannelState::Inactive);

    let (pointer, restore) = channel.try_borrow().unwrap();
    assert_eq!(pointer, 1);
    assert!(channel.is_borrowed());
    channel.restore(restore);
    assert!(!channel.is_borrowed());

    let (again, restore) = channel.try_borrow().unwrap();
    assert_eq!(again, 1);
    channel.restore(restore);

    let inner = channel.scope(2);
    assert_eq!(inner, ChannelState::Available(1));
    assert_eq!(channel.try_borrow().map(|(p, _)| p), Some(2));
    channel.restore(inner);
    assert_eq!(channel.try_borrow().map(|(p, _)| p), Some(1));
    channel.restore(outer);
    assert_eq!(channel.try_borrow(), None);
}

#[test]
fn default_kinds_stay_registered_through_every_table_operation() {
    let mut tables: Tables = Scheduler::new();
    let default_reactions = ReactionKind::new(0, "default");
    let default_actions = ActionKind::new(0, "default");
    tables.start_runtime();
    tables.register_reaction_kind(ReactionKind::new(2, "late"));
    tables.register_action_kind(ActionKind::new(-1, "early"));
    tables.schedule_reaction(default_reactions, "reaction");
    tables.schedule_action(default_actions, "action");
    let mut reactions = Vec::new();
    tables.get_reactions(None, &mut reactions);
    let mut actions = Vec::new();
    tables.get_actions(None, &mut actions, Vec::new(), Vec::new());
    assert_eq!((reactions, actions), (vec!["reaction"], vec!["action"]));
    assert!(tables.is_reaction_kind_registered(default_reactions));
    assert!(tables.is_action_kind_registered(default_actions));
    tables.finish_runtime();
    assert!(tables.is_reaction_kind_registered(default_reactions));
    assert!(tables.is_action_kind_registered(default_actions));
    assert!(!tables.is_reaction_kind_registered(ReactionKind::new(2, "late")));
}

#[test]
fn inactive_channels_do_not_call_callbacks() {
    let calls = std::cell::Cell::new(0);
    let mut signal: ContextChannel<u8> = ContextChannel::new();
    let mut reaction: ContextChannel<u16> = ContextChannel::new();
    let mut action: ContextChannel<u32> = ContextChannel::new();

    let results = [
        signal.try_with(|_| calls.set(calls.get() + 1)),
        reaction.try_with(|_| calls.set(calls.get() + 1)),
        action.try_with(|_| calls.set(calls.get() + 1)),
    ];

    assert_eq!(results, [None, None, None]);
    assert_eq!(calls.get(), 0);
}

#[test]
fn try_with_lends_the_pointer_and_restores_the_channel() {
    let mut channel: ContextChannel<u32> = ContextChannel::new();
    let previous = channel.scope(7);
    assert_eq!(channel.try_with(|p| p + 1), Some(8));
    assert_eq!(channel.try_with(|p| p * 2), Some(14));
    assert!(!channel.is_borrowed());
    channel.restore(previous);
    assert_eq!(channel.try_with(|p| p), None);
}

fn binding(source: usize) -> SourceBinding {
    SourceBinding { source, slot: Slot(0), key: BindKey(0) }
}

#[test]
fn check_sources_stops_at_the_first_changed_source() {
    let asked = std::cell::RefCell::new(Vec::new());
    let sources = [binding(1), binding(2), binding(3)];
    let check = |b: &SourceBinding| {
        asked.borrow_mut().push(b.source);
        b.source == 2
    };
    assert!(check_sources(&sources, &check));
    assert_eq!(*asked.borrow(), vec![1, 2]);
    assert!(!check_sources(&sources[2..], &check));
    assert!(!check_sources(&[], &check));
}

#[test]
fn check_with_asks_only_a_possibly_dirty_dependant() {
    let sources = [binding(1)];
    let changed = |_: &SourceBinding| true;
    let mut dirty = Dirty::MaybeDirty;
    assert!(check_with(&mut dirty, &sources, &changed));
    assert_eq!(dirty, Dirty::Dirty);
    let unchanged = |_: &SourceBinding| false;
    let mut dirty = Dirty::MaybeDirty;
    assert!(!check_with(&mut dirty, &sources, &unchanged));
    assert_eq!(dirty, Dirty::Clean);
    let mut dirty = Dirty::Clean;
    assert!(!check_with(&mut dirty, &sources, &changed));
    assert_eq!(dirty, Dirty::Clean);
}

#[test]
fn update_sources_returns_read_and_left_over_sources() {
    let previous = vec![binding(1), binding(2), binding(3)];
    let (value, kept, stale) = update_sources(previous, "view", Slot(4), true, |mut sink: Sink<&str>| {
        sink.push(binding(1));
        sink.push(binding(5));
        (10, sink)
    });
    assert_eq!(value, 10);
    assert_eq!(kept, vec![binding(1), binding(5)]);
    assert_eq!(stale, vec![binding(3)]);
}

#[test]
fn scan_update_recomputes_only_when_dirty_and_settles_dependants() {
    let mut sinks: SinkBindings<&str> = SinkBindings::new();
    let key = sinks.bind_new("dependant", Slot(0));
    let mut binder = SourceBinder::new(Slot(0));
    sinks.notify(DirtyLevel::MaybeDirty);
    assert!(scan_update(&mut binder, &mut sinks, || true, || true));
    assert!(binder.is_clean());
    assert!(sinks.is_dirty(key));

    sinks.mark_clean(key);
    assert!(!scan_update(&mut binder, &mut sinks, || true, || true));
    assert!(!sinks.is_dirty(key));

    binder.on_notify(Slot(0), DirtyLevel::MaybeDirty);
    sinks.notify(DirtyLevel::MaybeDirty);
    assert!(!scan_update(&mut binder, &mut sinks, || false, || true));
    assert!(binder.is_clean());
    assert!(!sinks.is_dirty(key));
}

#[test]
fn flush_steps_end_after_a_round_that_runs_nothing() {
    let mut step = FlushStep::start();
    let mut steps = vec![step];
    for handled in [true, false, true, false, false, false] {
        step = step.next(handled);
        steps.push(step);
    }
    assert_eq!(
        steps,
        vec![
            FlushStep::Actions,
            FlushStep::Actions,
            FlushStep::Reactions,
            FlushStep::Actions,
            FlushStep::Reactions,
            FlushStep::Discards,
            FlushStep::Done,
        ]
    );
    assert!(step.is_done());
    assert_eq!(FlushStep::Done.next(true), FlushStep::Done);
}
