//! The dependants of a map: those of each item, by key, and those of the whole map.

use vstd::prelude::*;

use crate::collections::slab_map::{key_to_slot, slot_to_key};
use crate::runtime::bindings::{Sink, SinkBinding, SinkBindings, SourceBinding};
use crate::runtime::{BindKey, Dirty, DirtyLevel, Slot};

verus! {

/// The dependants of each item of a map, by the item's key; an item past the end has none.
pub struct ItemSinkBindings<S>(Vec<SinkBindings<S>>);

impl<S> ItemSinkBindings<S> {
    /// How many items have a table of dependants.
    pub closed spec fn len(&self) -> nat {
        self.0@.len()
    }

    /// The dependants of the item with key `item`.
    pub closed spec fn item(&self, item: int) -> Map<usize, SinkBinding<S>> {
        if 0 <= item < self.0@.len() {
            self.0@[item]@
        } else {
            Map::empty()
        }
    }

    pub closed spec fn wf(&self) -> bool {
        forall|i: int| 0 <= i < self.0@.len() ==> (#[trigger] self.0@[i]).wf()
    }

    /// No item has dependants.
    pub fn new() -> (r: Self)
        ensures
            r.wf(),
            r.len() == 0,
            forall|i: int| #[trigger] r.item(i) == Map::<usize, SinkBinding<S>>::empty(),
    {
        ItemSinkBindings(Vec::new())
    }

    /// Removes the dependant with `key` of the item with key `item`.
    pub fn unbind(&mut self, item: usize, key: BindKey)
        requires
            old(self).wf(),
        ensures
            final(self).wf(),
            final(self).len() == old(self).len(),
            final(self).item(item as int) == old(self).item(item as int).remove(key.0),
            forall|i: int| i != item ==> #[trigger] final(self).item(i) == old(self).item(i),
    {
        if item < self.0.len() {
            let table = &mut self.0[item];
            table.unbind(key);
            assert(self.0@[item as int]@ =~= old(self).0@[item as int]@.remove(key.0));
        } else {
            assert(old(self).item(item as int).remove(key.0) =~= Map::<usize, SinkBinding<S>>::empty());
        }
    }

    /// Returns whether the dependant with `key` of the item with key `item` has to recompute;
    /// one of an item without dependants always has to.
    pub fn is_dirty(&self, item: usize, key: BindKey) -> (r: bool)
        requires
            item < self.len() ==> self.item(item as int).contains_key(key.0) && self.item(
                item as int,
            )[key.0].dirty != Dirty::MaybeDirty,
        ensures
            r == (item >= self.len() || self.item(item as int)[key.0].dirty == Dirty::Dirty),
    {
        if item < self.0.len() {
            self.0[item].is_dirty(key)
        } else {
            true
        }
    }

    /// Settles the possibly dirty dependants of the item with key `item`.
    pub fn update(&mut self, item: usize, is_dirty: bool)
        requires
            old(self).wf(),
        ensures
            final(self).wf(),
            final(self).len() == old(self).len(),
            crate::runtime::bindings::settled_table(old(self).item(item as int), is_dirty, final(self).item(item as int)),
            forall|i: int| i != item ==> #[trigger] final(self).item(i) == old(self).item(i),
    {
        if item < self.0.len() {
            let table = &mut self.0[item];
            table.update(is_dirty);
        } else {
            assert(old(self).item(item as int) =~= Map::<usize, SinkBinding<S>>::empty());
        }
    }

    /// Notifies the dependants of the item with key `item` that it changed; returns, in
    /// ascending order, the keys of those that were clean, the only ones to pass it on.
    pub fn notify(&mut self, item: usize) -> (r: Vec<BindKey>)
        requires
            old(self).wf(),
        ensures
            final(self).wf(),
            final(self).len() == old(self).len(),
            crate::runtime::bindings::clean_keys(old(self).item(item as int), r@),
            crate::runtime::bindings::notified_table(
                old(self).item(item as int),
                DirtyLevel::Dirty,
                final(self).item(item as int),
            ),
            forall|i: int| i != item ==> #[trigger] final(self).item(i) == old(self).item(i),
    {
        if item < self.0.len() {
            let table = &mut self.0[item];
            table.notify(DirtyLevel::Dirty)
        } else {
            assert(old(self).item(item as int) =~= Map::<usize, SinkBinding<S>>::empty());
            Vec::new()
        }
    }
}

impl<S: Clone> ItemSinkBindings<S> {
    /// Binds the computation that `sink` records to the item with key `item` of the map `this`
    /// (see [`SinkBindings::bind`]); the item gets a table of dependants if it had none.
    pub fn bind(&mut self, this: usize, item: usize, sink: &mut Sink<S>) -> (r: Option<SourceBinding>)
        requires
            old(self).wf(),
            item != usize::MAX,
            old(sink).wf(),
            crate::runtime::bindings::reads_same(*old(sink), this, Slot(item)) ==> old(self).item(
                item as int,
            ).contains_key(old(sink).sources()[old(sink).len() as int].key.0),
        ensures
            final(self).wf(),
            final(self).len() == (if item < old(self).len() { old(self).len() as int } else { item + 1 }),
            crate::runtime::bindings::bound(
                old(self).item(item as int),
                *old(sink),
                this,
                Slot(item),
                final(self).item(item as int),
                *final(sink),
                r,
            ),
            forall|i: int| i != item ==> #[trigger] final(self).item(i) == old(self).item(i),
    {
        while self.0.len() <= item
            invariant
                self.wf(),
                self.0@.len() == old(self).0@.len() || old(self).0@.len() < self.0@.len() <= item + 1,
                item < usize::MAX,
                forall|i: int| 0 <= i < old(self).0@.len() ==> #[trigger] self.0@[i] == old(self).0@[i],
                forall|i: int|
                    old(self).0@.len() <= i < self.0@.len() ==> (#[trigger] self.0@[i])@ == Map::<
                        usize,
                        SinkBinding<S>,
                    >::empty(),
            decreases item + 1 - self.0@.len(),
        {
            self.0.push(SinkBindings::new());
        }
        let slot = key_to_slot(item);
        let table = &mut self.0[item];
        table.bind(this, slot, sink)
    }

    /// Binds again, through `key`, the computation that `sink` records to the item with key
    /// `item` (see [`SinkBindings::rebind`]); an item without dependants is left alone.
    pub fn rebind(&mut self, this: usize, item: usize, key: BindKey, sink: &mut Sink<S>) -> (r: Option<
        SourceBinding,
    >)
        requires
            old(self).wf(),
            item < old(self).len() ==> old(self).item(item as int).contains_key(key.0),
            old(sink).wf(),
            item != usize::MAX,
        ensures
            final(self).wf(),
            final(self).len() == old(self).len(),
            item < old(self).len() ==> crate::runtime::bindings::rebound(
                old(self).item(item as int),
                *old(sink),
                this,
                Slot(item),
                key,
                final(self).item(item as int),
                *final(sink),
                r,
            ),
            item >= old(self).len() ==> *final(sink) == *old(sink) && r is None && final(self).item(item as int)
                == old(self).item(item as int),
            forall|i: int| i != item ==> #[trigger] final(self).item(i) == old(self).item(i),
    {
        if item < self.0.len() {
            let slot = key_to_slot(item);
            let table = &mut self.0[item];
            table.rebind(this, slot, key, sink)
        } else {
            None
        }
    }
}

/// The dependants of a computed map: those of each item, by key, and those of the whole map.
pub struct SinkBindingsSet<S> {
    items: ItemSinkBindings<S>,
    any: SinkBindings<S>,
}

impl<S> SinkBindingsSet<S> {
    /// The dependants of each item.
    pub closed spec fn items(&self) -> ItemSinkBindings<S> {
        self.items
    }

    /// The dependants of the whole map.
    pub closed spec fn any(&self) -> Map<usize, SinkBinding<S>> {
        self.any@
    }

    pub closed spec fn wf(&self) -> bool {
        self.items.wf() && self.any.wf()
    }

    /// The table of dependants that `slot` stands for: that of the whole map or that of an item,
    /// if the item has one.
    pub open spec fn table(&self, slot: Slot) -> Option<Map<usize, SinkBinding<S>>> {
        if slot == crate::collections::slab_map::slot_items() {
            Some(self.any())
        } else if slot.0 < self.items().len() {
            Some(self.items().item(slot.0 as int))
        } else {
            None
        }
    }

    /// No dependants.
    pub fn new() -> (r: Self)
        ensures
            r.wf(),
            r.items().len() == 0,
            r.any() == Map::<usize, SinkBinding<S>>::empty(),
    {
        SinkBindingsSet { items: ItemSinkBindings::new(), any: SinkBindings::new() }
    }

    /// Settles the dependants of the changed items (`keys`, possibly repeated) and, if any item
    /// changed, those of the whole map as dirty.
    pub fn update_changed(&mut self, keys: &[usize])
        requires
            old(self).wf(),
        ensures
            final(self).wf(),
            final(self).items().len() == old(self).items().len(),
            forall|i: int|
                #![trigger final(self).items().item(i)]
                (keys@.contains(i as usize) && 0 <= i <= usize::MAX) ==> crate::runtime::bindings::settled_table(
                    old(self).items().item(i),
                    true,
                    final(self).items().item(i),
                ),
            forall|i: int|
                !(keys@.contains(i as usize) && 0 <= i <= usize::MAX) ==> #[trigger] final(self).items().item(i) == old(
                    self,
                ).items().item(i),
            keys@.len() > 0 ==> crate::runtime::bindings::settled_table(old(self).any(), true, final(self).any()),
            keys@.len() == 0 ==> final(self).any() == old(self).any(),
    {
        let mut j: usize = 0;
        while j < keys.len()
            invariant
                self.wf(),
                j <= keys@.len(),
                self.items.len() == old(self).items.len(),
                self.any == old(self).any,
                forall|i: int|
                    #![trigger self.items.item(i)]
                    (keys@.take(j as int).contains(i as usize) && 0 <= i <= usize::MAX) ==> crate::runtime::bindings::settled_table(
                        old(self).items.item(i),
                        true,
                        self.items.item(i),
                    ),
                forall|i: int|
                    !(keys@.take(j as int).contains(i as usize) && 0 <= i <= usize::MAX) ==> #[trigger] self.items.item(i)
                        == old(self).items.item(i),
            decreases keys@.len() - j,
        {
            let key = keys[j];
            let ghost before = self.items;
            self.items.update(key, true);
            proof {
                assert forall|i: int| #![trigger self.items.item(i)]
                    (keys@.take(j as int + 1).contains(i as usize) && 0 <= i <= usize::MAX) implies crate::runtime::bindings::settled_table(
                    old(self).items.item(i),
                    true,
                    self.items.item(i),
                ) by {
                    if i == key as int {
                        if keys@.take(j as int).contains(i as usize) {
                            assert(crate::runtime::bindings::settled_table(old(self).items.item(i), true, before.item(i)));
                            lemma_settled_twice(old(self).items.item(i), before.item(i), self.items.item(i), true);
                        } else {
                            assert(before.item(i) == old(self).items.item(i));
                        }
                    } else {
                        let w = choose|w: int| #![trigger keys@.take(j as int + 1)[w]] 0 <= w < j + 1 && keys@.take(j as int + 1)[w] == i as usize;
                        assert(keys@.take(j as int + 1)[w] == keys@[w]);
                        assert(w != j);
                        assert(keys@.take(j as int)[w] == keys@[w]);
                        assert(keys@.take(j as int).contains(i as usize));
                        assert(crate::runtime::bindings::settled_table(old(self).items.item(i), true, before.item(i)));
                        assert(self.items.item(i) == before.item(i));
                    }
                }
                assert forall|i: int|
                    !(keys@.take(j as int + 1).contains(i as usize) && 0 <= i <= usize::MAX) implies #[trigger] self.items.item(i)
                    == old(self).items.item(i) by {
                    if i == key as int {
                        assert(keys@.take(j as int + 1)[j as int] == key);
                    } else {
                        if keys@.take(j as int).contains(i as usize) && 0 <= i <= usize::MAX {
                            let w = choose|w: int| #![trigger keys@.take(j as int)[w]] 0 <= w < j && keys@.take(j as int)[w] == i as usize;
                            assert(keys@.take(j as int + 1)[w] == keys@[w]);
                            assert(keys@.take(j as int)[w] == keys@[w]);
                        }
                        assert(before.item(i) == old(self).items.item(i));
                    }
                }
            }
            j = j + 1;
        }
        assert(keys@.take(keys@.len() as int) =~= keys@);
        if keys.len() > 0 {
            self.any.update(true);
        }
    }

    /// Settles every dependant on whether the map changed.
    pub fn update_all(&mut self, is_dirty: bool)
        requires
            old(self).wf(),
        ensures
            final(self).wf(),
            final(self).items().len() == old(self).items().len(),
            forall|i: int|
                #![trigger final(self).items().item(i)]
                crate::runtime::bindings::settled_table(old(self).items().item(i), is_dirty, final(self).items().item(i)),
            crate::runtime::bindings::settled_table(old(self).any(), is_dirty, final(self).any()),
    {
        let n = self.items.0.len();
        let mut j: usize = 0;
        while j < n
            invariant
                self.wf(),
                n == self.items.len(),
                j <= n,
                self.items.len() == old(self).items.len(),
                self.any == old(self).any,
                forall|i: int|
                    #![trigger self.items.item(i)]
                    0 <= i < j ==> crate::runtime::bindings::settled_table(
                        old(self).items.item(i),
                        is_dirty,
                        self.items.item(i),
                    ),
                forall|i: int| !(0 <= i < j) ==> #[trigger] self.items.item(i) == old(self).items.item(i),
            decreases n - j,
        {
            self.items.update(j, is_dirty);
            j = j + 1;
        }
        assert forall|i: int| #![trigger self.items.item(i)]
            crate::runtime::bindings::settled_table(old(self).items.item(i), is_dirty, self.items.item(i)) by {
            if !(0 <= i < n) {
                assert(old(self).items.item(i) =~= Map::<usize, SinkBinding<S>>::empty());
                assert(self.items.item(i) =~= Map::<usize, SinkBinding<S>>::empty());
            }
        }
        self.any.update(is_dirty);
    }

    /// Notifies every dependant; returns, for each item in key order and then for the whole map,
    /// the keys of the dependants that were clean, the only ones to pass it on.
    pub fn notify_all(&mut self, level: DirtyLevel) -> (r: (Vec<Vec<BindKey>>, Vec<BindKey>))
        requires
            old(self).wf(),
        ensures
            final(self).wf(),
            final(self).items().len() == old(self).items().len(),
            r.0@.len() == old(self).items().len(),
            forall|i: int|
                0 <= i < r.0@.len() ==> crate::runtime::bindings::clean_keys(old(self).items().item(i), #[trigger] r.0@[i]@),
            forall|i: int|
                #![trigger final(self).items().item(i)]
                crate::runtime::bindings::notified_table(old(self).items().item(i), level, final(self).items().item(i)),
            crate::runtime::bindings::clean_keys(old(self).any(), r.1@),
            crate::runtime::bindings::notified_table(old(self).any(), level, final(self).any()),
    {
        let n = self.items.0.len();
        let mut keys: Vec<Vec<BindKey>> = Vec::new();
        let mut j: usize = 0;
        while j < n
            invariant
                self.items.wf(),
                self.any == old(self).any,
                n == self.items.0@.len(),
                n == old(self).items.0@.len(),
                j <= n,
                keys@.len() == j,
                forall|i: int|
                    0 <= i < j ==> crate::runtime::bindings::clean_keys(old(self).items.item(i), #[trigger] keys@[i]@),
                forall|i: int|
                    #![trigger self.items.item(i)]
                    0 <= i < j ==> crate::runtime::bindings::notified_table(
                        old(self).items.item(i),
                        level,
                        self.items.item(i),
                    ),
                forall|i: int| !(0 <= i < j) ==> #[trigger] self.items.item(i) == old(self).items.item(i),
            decreases n - j,
        {
            let ghost before = self.items;
            let table = &mut self.items.0[j];
            let k = table.notify(level);
            keys.push(k);
            proof {
                assert forall|i: int| !(0 <= i < j + 1) implies #[trigger] self.items.item(i) == old(self).items.item(i) by {
                    assert(self.items.item(i) == before.item(i));
                    assert(before.item(i) == old(self).items.item(i));
                }
                assert forall|i: int| #![trigger self.items.item(i)]
                    0 <= i < j + 1 implies crate::runtime::bindings::notified_table(
                    old(self).items.item(i),
                    level,
                    self.items.item(i),
                ) by {
                    if i < j {
                        assert(self.items.item(i) == before.item(i));
                        assert(crate::runtime::bindings::notified_table(old(self).items.item(i), level, before.item(i)));
                    } else {
                        assert(before.item(i) == old(self).items.item(i));
                    }
                }
                assert forall|i: int| 0 <= i < j + 1 implies crate::runtime::bindings::clean_keys(old(self).items.item(i), #[trigger] keys@[i]@) by {
                    if i == j {
                        assert(before.item(i) == old(self).items.item(i));
                    }
                }
            }
            j = j + 1;
        }
        assert forall|i: int| #![trigger self.items.item(i)]
            crate::runtime::bindings::notified_table(old(self).items.item(i), level, self.items.item(i)) by {
            if !(0 <= i < n) {
                assert(old(self).items.item(i) =~= Map::<usize, SinkBinding<S>>::empty());
                assert(self.items.item(i) =~= Map::<usize, SinkBinding<S>>::empty());
            }
        }
        let any = self.any.notify(level);
        (keys, any)
    }

    /// Removes the dependant with `key` from the table that `slot` stands for, if there is one.
    pub fn unbind(&mut self, slot: Slot, key: BindKey)
        requires
            old(self).wf(),
        ensures
            final(self).wf(),
            final(self).items().len() == old(self).items().len(),
            match old(self).table(slot) {
                Some(m) => final(self).table(slot) == Some(m.remove(key.0)),
                None => final(self).table(slot) is None,
            },
            forall|s: Slot| s != slot ==> #[trigger] final(self).table(s) == old(self).table(s),
    {
        match slot_to_key(slot) {
            Some(item) => {
                self.items.unbind(item, key);
            },
            None => {
                self.any.unbind(key);
            },
        }
    }

    /// Returns whether the dependant with `key` in the table that `slot` stands for has to
    /// recompute; one of an item without dependants always has to.
    pub fn is_dirty(&self, slot: Slot, key: BindKey) -> (r: bool)
        requires
            self.table(slot) matches Some(m) ==> m.contains_key(key.0) && m[key.0].dirty != Dirty::MaybeDirty,
        ensures
            r == (match self.table(slot) {
                Some(m) => m[key.0].dirty == Dirty::Dirty,
                None => true,
            }),
    {
        match slot_to_key(slot) {
            Some(item) => self.items.is_dirty(item, key),
            None => self.any.is_dirty(key),
        }
    }
}

impl<S: Clone> SinkBindingsSet<S> {
    /// Binds the computation that `sink` records to part `slot` of the map `this`: to an item
    /// (which gets a table of dependants if it had none) or to the whole map.
    pub fn bind(&mut self, this: usize, slot: Slot, sink: &mut Sink<S>) -> (r: Option<SourceBinding>)
        requires
            old(self).wf(),
            old(sink).wf(),
            crate::runtime::bindings::reads_same(*old(sink), this, slot) ==> (match old(self).table(slot) {
                Some(m) => m.contains_key(old(sink).sources()[old(sink).len() as int].key.0),
                None => false,
            }),
        ensures
            final(self).wf(),
            final(self).table(slot) is Some,
            crate::runtime::bindings::bound(
                match old(self).table(slot) {
                    Some(m) => m,
                    None => Map::<usize, SinkBinding<S>>::empty(),
                },
                *old(sink),
                this,
                slot,
                final(self).table(slot)->Some_0,
                *final(sink),
                r,
            ),
            forall|s: Slot|
                s != slot && #[trigger] old(self).table(s) is Some ==> final(self).table(s) == old(self).table(s),
    {
        match slot_to_key(slot) {
            Some(item) => {
                let r = self.items.bind(this, item, sink);
                r
            },
            None => self.any.bind(this, slot, sink),
        }
    }

    /// Binds again, through `key`, the computation that `sink` records to part `slot` of the map
    /// `this`; a part without a table of dependants is left alone.
    pub fn rebind(&mut self, this: usize, slot: Slot, key: BindKey, sink: &mut Sink<S>) -> (r: Option<SourceBinding>)
        requires
            old(self).wf(),
            old(self).table(slot) matches Some(m) ==> m.contains_key(key.0),
            old(sink).wf(),
        ensures
            final(self).wf(),
            old(self).table(slot) matches Some(m) ==> crate::runtime::bindings::rebound(
                m,
                *old(sink),
                this,
                slot,
                key,
                final(self).table(slot)->Some_0,
                *final(sink),
                r,
            ) && final(self).table(slot) is Some,
            old(self).table(slot) is None ==> *final(sink) == *old(sink) && r is None && final(self).table(slot) is None,
            forall|s: Slot| s != slot ==> #[trigger] final(self).table(s) == old(self).table(s),
    {
        match slot_to_key(slot) {
            Some(item) => self.items.rebind(this, item, key, sink),
            None => self.any.rebind(this, slot, key, sink),
        }
    }
}

/// Settling a table twice on the same answer settles it once.
proof fn lemma_settled_twice<S>(
    m0: Map<usize, SinkBinding<S>>,
    m1: Map<usize, SinkBinding<S>>,
    m2: Map<usize, SinkBinding<S>>,
    is_dirty: bool,
)
    requires
        crate::runtime::bindings::settled_table(m0, is_dirty, m1),
        crate::runtime::bindings::settled_table(m1, is_dirty, m2),
    ensures
        crate::runtime::bindings::settled_table(m0, is_dirty, m2),
{
}

} // verus!
