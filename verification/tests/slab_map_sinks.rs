use sigmut::collections::slab_map::sinks::{ItemSinkBindings, SinkBindingsSet};
use sigmut::runtime::bindings::{Sink, SourceBinding};
use sigmut::runtime::{BindKey, DirtyLevel, Slot};

fn finish(sink: Sink<&'static str>) -> Vec<SourceBinding> {
    let (sources, stale) = sink.finish();
    assert!(stale.is_empty());
    sources
}

#[test]
fn item_sink_bindings_notify_only_the_item_dependants() {
    let mut items: ItemSinkBindings<&str> = ItemSinkBindings::new();
    let mut sink = Sink::new("view", Slot(0), Vec::new(), true);
    assert_eq!(items.bind(1, 2, &mut sink), None);
    let sources = finish(sink);
    assert_eq!(sources.len(), 1);
    assert_eq!(sources[0].slot, Slot(2));
    let key = sources[0].key;

    assert!(items.notify(0).is_empty());
    assert!(items.notify(7).is_empty());
    assert!(!items.is_dirty(2, key));
    assert_eq!(items.notify(2), vec![key]);
    assert!(items.notify(2).is_empty());
    assert!(items.is_dirty(2, key));
    assert!(items.is_dirty(9, BindKey(0)));

    items.unbind(2, key);
    assert!(items.notify(2).is_empty());
}

#[test]
fn item_sink_bindings_rebind_only_items_with_dependants() {
    let mut items: ItemSinkBindings<&str> = ItemSinkBindings::new();
    let mut sink = Sink::new("view", Slot(5), Vec::new(), true);
    items.bind(1, 0, &mut sink);
    let sources = finish(sink);
    let key = sources[0].key;

    let mut sink = Sink::new("view", Slot(6), Vec::new(), true);
    assert_eq!(items.rebind(1, 0, key, &mut sink), None);
    let sources = finish(sink);
    assert_eq!(
        sources,
        vec![SourceBinding {
            source: 1,
            slot: Slot(0),
            key
        }]
    );

    let mut sink = Sink::new("view", Slot(6), Vec::new(), true);
    assert_eq!(items.rebind(1, 4, key, &mut sink), None);
    assert!(finish(sink).is_empty());
}

#[test]
fn sink_bindings_set_tracks_items_and_the_whole_map() {
    let mut set: SinkBindingsSet<&str> = SinkBindingsSet::new();
    let mut sink = Sink::new("item-view", Slot(0), Vec::new(), true);
    set.bind(3, Slot(1), &mut sink);
    let item_key = finish(sink)[0].key;
    let mut sink = Sink::new("all-view", Slot(0), Vec::new(), true);
    set.bind(3, Slot(usize::MAX), &mut sink);
    let any_key = finish(sink)[0].key;

    let (items, any) = set.notify_all(DirtyLevel::MaybeDirty);
    assert_eq!(items, vec![vec![], vec![item_key]]);
    assert_eq!(any, vec![any_key]);
    set.update_all(false);
    assert!(!set.is_dirty(Slot(1), item_key));
    assert!(!set.is_dirty(Slot(usize::MAX), any_key));

    let (items, any) = set.notify_all(DirtyLevel::MaybeDirty);
    assert_eq!(items, vec![vec![], vec![item_key]]);
    assert_eq!(any, vec![any_key]);
    set.update_changed(&[1, 1]);
    assert!(set.is_dirty(Slot(1), item_key));
    assert!(set.is_dirty(Slot(usize::MAX), any_key));
    assert!(set.is_dirty(Slot(8), BindKey(0)));

    set.unbind(Slot(usize::MAX), any_key);
    let (_, any) = set.notify_all(DirtyLevel::Dirty);
    assert!(any.is_empty());
}

#[test]
fn state_slab_map_tracks_item_and_all_items_separately() {
    let mut map = sigmut::collections::slab_map::StateSlabMap::new();
    let key0 = map.insert(10);
    let key1 = map.insert(20);
    assert_eq!((key0, key1), (0, 1));

    let mut set: SinkBindingsSet<&str> = SinkBindingsSet::new();
    let mut sink = Sink::new("item", Slot(0), Vec::new(), true);
    set.bind(3, Slot(key0), &mut sink);
    let item_key = finish(sink)[0].key;
    let mut sink = Sink::new("items", Slot(0), Vec::new(), true);
    set.bind(3, Slot(usize::MAX), &mut sink);
    let items_key = finish(sink)[0].key;
    let (mut item_calls, mut items_calls) = (1, 1);
    assert_eq!((item_calls, items_calls), (1, 1));

    map.remove(key1);
    set.notify_all(DirtyLevel::MaybeDirty);
    set.update_changed(&[key1]);
    if set.is_dirty(Slot(key0), item_key) {
        item_calls += 1;
    }
    if set.is_dirty(Slot(usize::MAX), items_key) {
        items_calls += 1;
    }

    assert_eq!((item_calls, items_calls), (1, 2));
}
