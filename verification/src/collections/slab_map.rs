//! An observable map with store-chosen keys: insertions and removals are recorded as changes,
//! and every reader receives the changes since its previous read, which rebuild the current
//! map from the map it saw then.

pub mod sinks;

use vstd::prelude::*;

use crate::change_feed::{
    ChangeFeedCursorReader, ChangeFeedDelta, ChangeFeedModel, ChangeFeedRef, ChangeFeedRefMut,
    ChangeFeedStorage, CursorState, release_steps, released_in_order,
};
use crate::collections::slots::Slots;
use crate::runtime::Slot;

verus! {

/// The slot a dependant of the whole map is bound to.
pub open spec fn slot_items() -> Slot {
    Slot(usize::MAX)
}

/// The slot a dependant of the item with key `key` is bound to.
pub fn key_to_slot(key: usize) -> (r: Slot)
    requires
        key != usize::MAX,
    ensures
        r == Slot(key),
{
    Slot(key)
}

/// The key of the item a slot stands for, or `None` for the slot of the whole map.
pub fn slot_to_key(slot: Slot) -> (r: Option<usize>)
    ensures
        r == (if slot == slot_items() { None } else { Some(slot.0) }),
{
    if slot.0 == usize::MAX {
        None
    } else {
        Some(slot.0)
    }
}

/// Turning a key into a slot and back gives the key again.
pub proof fn lemma_slot_round_trip(key: usize)
    requires
        key != usize::MAX,
    ensures
        (if Slot(key) == slot_items() { None } else { Some(Slot(key).0) }) == Some(key),
{
}

/// A stored value and whether it is still in the map; a removed value stays stored until no
/// reader can read its removal any more.
pub struct Item<T> {
    pub value: T,
    pub is_exists: bool,
}

impl<T> Item<T> {
    pub fn new(value: T) -> (r: Self)
        ensures
            r.value == value,
            r.is_exists,
    {
        Item { value, is_exists: true }
    }
}

#[derive(Clone, Copy, PartialEq, Eq, Structural, Debug)]
pub enum ChangeAction {
    Insert,
    Remove,
}

/// A recorded insertion or removal of the item with a key.
#[derive(Clone, Copy, PartialEq, Eq, Structural, Debug)]
pub struct ChangeData {
    pub action: ChangeAction,
    pub key: usize,
}

/// A change of the map as a reader receives it.
#[derive(Clone, Copy, Debug, PartialEq, Eq)]
pub enum SlabMapChange<'a, T> {
    Insert { key: usize, new_value: &'a T },
    Remove { key: usize, old_value: &'a T },
}

/// An edit of a map, as a reader applies it to its copy.
pub enum MapEdit<T> {
    Insert { key: usize, value: T },
    Remove { key: usize, old_value: T },
}

pub open spec fn apply_map_edit<T>(m: Map<usize, T>, e: MapEdit<T>) -> Map<usize, T> {
    match e {
        MapEdit::Insert { key, value } => m.insert(key, value),
        MapEdit::Remove { key, .. } => m.remove(key),
    }
}

/// The edit is valid for map `m`: an insertion adds a new key, a removal removes a present one
/// and reports the value that was stored under it.
pub open spec fn map_edit_ok<T>(m: Map<usize, T>, e: MapEdit<T>) -> bool {
    match e {
        MapEdit::Insert { key, value } => !m.contains_key(key),
        MapEdit::Remove { key, old_value } => m.contains_key(key) && m[key] == old_value,
    }
}

pub open spec fn apply_map_edits<T>(m: Map<usize, T>, es: Seq<MapEdit<T>>) -> Map<usize, T>
    decreases es.len(),
{
    if es.len() == 0 {
        m
    } else {
        apply_map_edits(apply_map_edit(m, es[0]), es.drop_first())
    }
}

pub open spec fn map_edits_ok<T>(m: Map<usize, T>, es: Seq<MapEdit<T>>) -> bool
    decreases es.len(),
{
    es.len() == 0 || (map_edit_ok(m, es[0]) && map_edits_ok(apply_map_edit(m, es[0]), es.drop_first()))
}

/// Applying one more edit at the end applies it to the result of the others.
pub proof fn lemma_apply_map_edits_push<T>(m: Map<usize, T>, es: Seq<MapEdit<T>>, e: MapEdit<T>)
    ensures
        apply_map_edits(m, es.push(e)) == apply_map_edit(apply_map_edits(m, es), e),
        map_edits_ok(m, es.push(e)) == (map_edits_ok(m, es) && map_edit_ok(apply_map_edits(m, es), e)),
    decreases es.len(),
{
    if es.len() > 0 {
        assert(es.push(e)[0] == es[0]);
        assert(es.push(e).drop_first() =~= es.drop_first().push(e));
        lemma_apply_map_edits_push(apply_map_edit(m, es[0]), es.drop_first(), e);
    } else {
        assert(es.push(e)[0] == e);
        assert(es.push(e).drop_first() =~= Seq::<MapEdit<T>>::empty());
        assert(apply_map_edits(apply_map_edit(m, e), Seq::<MapEdit<T>>::empty()) == apply_map_edit(m, e));
        assert(map_edits_ok(apply_map_edit(m, e), Seq::<MapEdit<T>>::empty()));
    }
}

/// The key a change is about.
pub open spec fn change_key<T>(c: SlabMapChange<'_, T>) -> usize {
    match c {
        SlabMapChange::Insert { key, new_value } => key,
        SlabMapChange::Remove { key, old_value } => key,
    }
}

/// The edit a change stands for.
pub open spec fn change_map_edit<T>(c: SlabMapChange<'_, T>) -> MapEdit<T> {
    match c {
        SlabMapChange::Insert { key, new_value } => MapEdit::Insert { key, value: *new_value },
        SlabMapChange::Remove { key, old_value } => MapEdit::Remove { key, old_value: *old_value },
    }
}

/// The edit a recorded change stands for, given the stored items.
pub open spec fn data_map_edit<T>(c: ChangeData, store: Map<usize, Item<T>>) -> MapEdit<T> {
    match c.action {
        ChangeAction::Insert => MapEdit::Insert { key: c.key, value: store[c.key].value },
        ChangeAction::Remove => MapEdit::Remove { key: c.key, old_value: store[c.key].value },
    }
}

pub open spec fn data_map_edits<T>(cs: Seq<ChangeData>, store: Map<usize, Item<T>>) -> Seq<MapEdit<T>> {
    cs.map_values(|c: ChangeData| data_map_edit(c, store))
}

/// Every item stored before is still stored with the same value.
pub open spec fn store_grows<T>(before: Map<usize, Item<T>>, after: Map<usize, Item<T>>) -> bool {
    forall|k: usize| #[trigger] before.contains_key(k) ==> after.contains_key(k) && after[k].value == before[k].value
}

/// The items of a map together with the removed values changes still refer to, and the
/// changes made since they were last recorded.
pub struct ItemsMut<T> {
    items: Slots<Item<T>>,
    len: usize,
    pending_changes: Vec<ChangeData>,
    history: Ghost<Seq<Map<usize, T>>>,
}

impl<T> ItemsMut<T> {
    /// The stored items, by key.
    pub closed spec fn store(&self) -> Map<usize, Item<T>> {
        self.items@
    }

    /// The items in the map, by key.
    pub open spec fn live(&self) -> Map<usize, T> {
        Map::new(
            |k: usize| self.store().contains_key(k) && self.store()[k].is_exists,
            |k: usize| self.store()[k].value,
        )
    }

    /// Changes made since they were last recorded.
    pub closed spec fn pending(&self) -> Seq<ChangeData> {
        self.pending_changes@
    }

    /// The map at each age, oldest first; the last entry is the current map.
    pub closed spec fn history(&self) -> Seq<Map<usize, T>> {
        self.history@
    }

    pub closed spec fn counts(&self) -> bool {
        &&& self.items.wf()
        &&& self.live().dom().finite()
        &&& self.len == self.live().dom().len()
    }

    /// The number of items in the map.
    pub closed spec fn len_spec(&self) -> nat {
        self.len as nat
    }

    /// The model is consistent with `full`: the changes readers may still read followed by the
    /// pending ones.
    pub open spec fn inv_full(&self, full: Seq<ChangeData>) -> bool {
        &&& self.counts()
        &&& self.len_spec() == self.live().dom().len()
        &&& forall|i: int| 0 <= i < full.len() ==> self.store().contains_key(#[trigger] full[i].key)
        &&& forall|i: int|
            0 <= i < full.len() && (#[trigger] full[i]).action == ChangeAction::Remove ==> {
                &&& !self.store()[full[i].key].is_exists
                &&& forall|j: int| i < j < full.len() ==> (#[trigger] full[j]).key != full[i].key
            }
        &&& self.history().len() == full.len() + 1
        &&& self.history().last() == self.live()
        &&& forall|i: int|
            0 <= i < full.len() ==> {
                &&& map_edit_ok(self.history()[i], data_map_edit(#[trigger] full[i], self.store()))
                &&& apply_map_edit(self.history()[i], data_map_edit(full[i], self.store())) == self.history()[i + 1]
            }
    }

    /// The model is consistent with the changes `retained` that readers may still read.
    pub open spec fn inv(&self, retained: Seq<ChangeData>) -> bool {
        self.inv_full(retained + self.pending())
    }

    fn new() -> (r: Self)
        ensures
            r.inv(Seq::empty()),
            r.pending() == Seq::<ChangeData>::empty(),
            r.live() == Map::<usize, T>::empty(),
    {
        let ghost h: Seq<Map<usize, T>> = seq![Map::empty()];
        let r = ItemsMut { items: Slots::new(), len: 0, pending_changes: Vec::new(), history: Ghost(h) };
        proof {
            assert(r.live() =~= Map::<usize, T>::empty());
            assert(Seq::<ChangeData>::empty() + r.pending() =~= Seq::<ChangeData>::empty());
        }
        r
    }

    /// Returns the number of items in the map.
    pub fn len(&self) -> (r: usize)
        ensures
            r == self.len_spec(),
    {
        self.len
    }

    /// Returns the item with `key`, if it is in the map.
    pub fn get(&self, key: usize) -> (r: Option<&T>)
        ensures
            r == (if self.live().contains_key(key) { Some(&self.live()[key]) } else { None }),
    {
        match self.items.get(key) {
            Some(item) => {
                if item.is_exists {
                    Some(&item.value)
                } else {
                    None
                }
            },
            None => None,
        }
    }

    /// Inserts `value` under a new key and returns the key.
    pub fn insert(&mut self, value: T) -> (key: usize)
        requires
            exists|r: Seq<ChangeData>| old(self).inv(r),
        ensures
            forall|r: Seq<ChangeData>| old(self).inv(r) ==> final(self).inv(r),
            !old(self).live().contains_key(key),
            final(self).live() == old(self).live().insert(key, value),
            final(self).pending() == old(self).pending().push(ChangeData { action: ChangeAction::Insert, key }),
            final(self).history() == old(self).history().push(final(self).live()),
            store_grows(old(self).store(), final(self).store()),
    {
        let ghost r0 = choose|r: Seq<ChangeData>| old(self).inv(r);
        proof {
            self.items.lemma_len_bound();
            vstd::set_lib::lemma_len_subset(self.live().dom(), self.items@.dom());
        }
        let key = self.items.insert(Item::new(value));
        proof {
            self.items.lemma_len_bound();
            assert(self.live() =~= old(self).live().insert(key, value));
            assert(self.live().dom() =~= old(self).live().dom().insert(key));
            assert(self.live().dom().len() == old(self).live().dom().len() + 1);
            vstd::set_lib::lemma_len_subset(self.live().dom(), self.items@.dom());
        }
        self.len = self.len + 1;
        let c = ChangeData { action: ChangeAction::Insert, key };
        self.pending_changes.push(c);
        proof {
            let m0 = *old(self);
            assert(self.live() =~= m0.live().insert(key, value));
            self.history = Ghost(m0.history().push(self.live()));
            assert forall|r: Seq<ChangeData>| m0.inv(r) implies self.inv(r) by {
                Self::lemma_push_keeps_inv(m0, *self, r, c);
            }
        }
        key
    }

    /// Removes the item with `key` from the map; its value stays stored until no reader can read
    /// the removal any more.
    pub fn remove(&mut self, key: usize)
        requires
            exists|r: Seq<ChangeData>| old(self).inv(r),
            old(self).live().contains_key(key),
        ensures
            forall|r: Seq<ChangeData>| old(self).inv(r) ==> final(self).inv(r),
            final(self).live() == old(self).live().remove(key),
            final(self).pending() == old(self).pending().push(ChangeData { action: ChangeAction::Remove, key }),
            final(self).history() == old(self).history().push(final(self).live()),
            store_grows(old(self).store(), final(self).store()),
    {
        let ghost r0 = choose|r: Seq<ChangeData>| old(self).inv(r);
        let item = self.items.get_mut(key);
        item.is_exists = false;
        proof {
            let m0 = *old(self);
            assert(self.live() =~= m0.live().remove(key));
            assert(m0.live().dom().contains(key));
        }
        self.len = self.len - 1;
        let c = ChangeData { action: ChangeAction::Remove, key };
        self.pending_changes.push(c);
        proof {
            let m0 = *old(self);
            self.history = Ghost(m0.history().push(self.live()));
            assert forall|r: Seq<ChangeData>| m0.inv(r) implies self.inv(r) by {
                Self::lemma_push_keeps_inv(m0, *self, r, c);
            }
        }
    }

    /// Appending a change keeps the model consistent when it describes the step from the old
    /// map to the new one and respects the life cycle of the keys.
    proof fn lemma_push_keeps_inv(m0: Self, m1: Self, r: Seq<ChangeData>, c: ChangeData)
        requires
            m0.inv(r),
            m1.counts(),
            m1.len_spec() == m1.live().dom().len(),
            m1.pending() == m0.pending().push(c),
            store_grows(m0.store(), m1.store()),
            m1.history() == m0.history().push(m1.live()),
            m1.store().contains_key(c.key),
            map_edit_ok(m0.live(), data_map_edit(c, m1.store())),
            apply_map_edit(m0.live(), data_map_edit(c, m1.store())) == m1.live(),
            c.action == ChangeAction::Remove ==> !m1.store()[c.key].is_exists,
            c.action == ChangeAction::Insert ==> !m0.store().contains_key(c.key),
            forall|k: usize| #[trigger] m0.store().contains_key(k) && !m0.store()[k].is_exists ==> !m1.store()[k].is_exists,
            c.action == ChangeAction::Remove ==> m0.store()[c.key].is_exists,
        ensures
            m1.inv(r),
    {
        let f0 = r + m0.pending();
        let f1 = r + m1.pending();
        assert(f1 =~= f0.push(c));
        assert forall|i: int| 0 <= i < f1.len() implies m1.store().contains_key(#[trigger] f1[i].key) by {
            if i < f0.len() {
                assert(f1[i] == f0[i]);
            }
        }
        assert forall|i: int|
            0 <= i < f1.len() && (#[trigger] f1[i]).action == ChangeAction::Remove implies {
                &&& !m1.store()[f1[i].key].is_exists
                &&& forall|j: int| i < j < f1.len() ==> (#[trigger] f1[j]).key != f1[i].key
            } by {
            if i < f0.len() {
                assert(f1[i] == f0[i]);
                assert(m0.store().contains_key(f0[i].key));
                assert forall|j: int| i < j < f1.len() implies (#[trigger] f1[j]).key != f1[i].key by {
                    if j < f0.len() {
                        assert(f1[j] == f0[j]);
                    } else {
                        assert(f1[j] == c);
                    }
                }
            }
        }
        assert forall|i: int|
            0 <= i < f1.len() implies {
                &&& map_edit_ok(m1.history()[i], data_map_edit(#[trigger] f1[i], m1.store()))
                &&& apply_map_edit(m1.history()[i], data_map_edit(f1[i], m1.store())) == m1.history()[i + 1]
            } by {
            if i < f0.len() {
                assert(f1[i] == f0[i]);
                assert(m0.store().contains_key(f0[i].key));
                assert(data_map_edit(f0[i], m1.store()) == data_map_edit(f0[i], m0.store()));
                assert(m1.history()[i] == m0.history()[i]);
                assert(m1.history()[i + 1] == m0.history()[i + 1]);
            } else {
                assert(f1[i] == c);
            }
        }
    }

    /// Takes the pending changes so that they can be recorded.
    fn take_changes(&mut self) -> (r: Vec<ChangeData>)
        ensures
            r@ == old(self).pending(),
            final(self).pending() == Seq::<ChangeData>::empty(),
            final(self).store() == old(self).store(),
            final(self).live() == old(self).live(),
            final(self).history() == old(self).history(),
            final(self).len_spec() == old(self).len_spec(),
            forall|full: Seq<ChangeData>| old(self).inv_full(full) ==> final(self).inv_full(full),
    {
        let mut r: Vec<ChangeData> = Vec::new();
        std::mem::swap(&mut r, &mut self.pending_changes);
        r
    }
}

/// The model of a map change feed.
pub struct SlabMapModel<T>(pub ItemsMut<T>);

impl<T> ChangeFeedModel for SlabMapModel<T> {
    type Change = ChangeData;

    open spec fn release_ok(before: Self, change: ChangeData, after: Self) -> bool {
        &&& after.0.store() == (if change.action == ChangeAction::Remove {
            before.0.store().remove(change.key)
        } else {
            before.0.store()
        })
        &&& after.0.pending() == before.0.pending()
        &&& after.0.len_spec() == before.0.len_spec()
        &&& after.0.history() == before.0.history().drop_first()
        &&& (before.0.counts() && (change.action == ChangeAction::Remove ==> !before.0.store()[change.key].is_exists)
            ==> after.0.counts())
    }

    fn release_change(&mut self, change: ChangeData) {
        proof {
            self.0.history = Ghost(self.0.history@.drop_first());
        }
        if change.action == ChangeAction::Remove {
            let ghost before = self.0;
            self.0.items.remove(change.key);
            proof {
                if before.counts() && !before.store()[change.key].is_exists {
                    assert(self.0.live() =~= before.live());
                }
            }
        }
    }
}

/// Releasing the oldest retained change keeps the model consistent with the rest and leaves
/// the map unchanged.
pub proof fn lemma_map_release_keeps_inv<T>(m0: SlabMapModel<T>, retained: Seq<ChangeData>, m1: SlabMapModel<T>)
    requires
        m0.0.inv(retained),
        retained.len() > 0,
        SlabMapModel::<T>::release_ok(m0, retained[0], m1),
    ensures
        m1.0.inv(retained.drop_first()),
        m1.0.live() == m0.0.live(),
{
    let f0 = retained + m0.0.pending();
    let f1 = retained.drop_first() + m1.0.pending();
    assert(f1 =~= f0.drop_first());
    assert(f0[0] == retained[0]);
    let c0 = retained[0];
    assert(m1.0.live() =~= m0.0.live());
    assert forall|i: int| 0 <= i < f1.len() implies m1.0.store().contains_key(#[trigger] f1[i].key) by {
        assert(f1[i] == f0[i + 1]);
        assert(m0.0.store().contains_key(f0[i + 1].key));
    }
    assert forall|i: int|
        0 <= i < f1.len() && (#[trigger] f1[i]).action == ChangeAction::Remove implies {
            &&& !m1.0.store()[f1[i].key].is_exists
            &&& forall|j: int| i < j < f1.len() ==> (#[trigger] f1[j]).key != f1[i].key
        } by {
        assert(f1[i] == f0[i + 1]);
        assert forall|j: int| i < j < f1.len() implies (#[trigger] f1[j]).key != f1[i].key by {
            assert(f1[j] == f0[j + 1]);
        }
    }
    assert forall|i: int|
        0 <= i < f1.len() implies {
            &&& map_edit_ok(m1.0.history()[i], data_map_edit(#[trigger] f1[i], m1.0.store()))
            &&& apply_map_edit(m1.0.history()[i], data_map_edit(f1[i], m1.0.store())) == m1.0.history()[i + 1]
        } by {
        assert(f1[i] == f0[i + 1]);
        assert(m1.0.history()[i] == m0.0.history()[i + 1]);
        assert(m1.0.history()[i + 1] == m0.0.history()[i + 2]);
        assert(data_map_edit(f1[i], m1.0.store()) == data_map_edit(f0[i + 1], m0.0.store()));
    }
}

/// Releasing the oldest `n` retained changes in order keeps the model consistent with the
/// rest and leaves the map unchanged.
pub proof fn lemma_map_release_chain<T>(models: Seq<SlabMapModel<T>>, retained: Seq<ChangeData>, n: int)
    requires
        0 <= n <= retained.len(),
        models[0].0.inv(retained),
        release_steps(models, retained.take(n)),
    ensures
        models.last().0.inv(retained.skip(n)),
        models.last().0.live() == models[0].0.live(),
        models.last().0.history() == models[0].0.history().skip(n),
    decreases n,
{
    if n > 0 {
        let prefix = retained.take(n);
        assert(prefix[0] == retained[0]);
        assert(SlabMapModel::<T>::release_ok(models[0], prefix[0], models[1]));
        lemma_map_release_keeps_inv(models[0], retained, models[1]);
        let rest = retained.drop_first();
        assert(rest.take(n - 1) =~= prefix.drop_first());
        assert(rest.skip(n - 1) =~= retained.skip(n));
        let tail = models.drop_first();
        assert forall|i: int| #![trigger rest.take(n - 1)[i]] 0 <= i < n - 1 implies SlabMapModel::<T>::release_ok(
            tail[i],
            rest.take(n - 1)[i],
            tail[i + 1],
        ) by {
            assert(rest.take(n - 1)[i] == prefix[i + 1]);
        }
        lemma_map_release_chain(tail, rest, n - 1);
        assert(models[0].0.history().skip(n) =~= models[1].0.history().skip(n - 1));
    } else {
        assert(retained.skip(0) =~= retained);
        assert(models[0].0.history().skip(0) =~= models[0].0.history());
    }
}

/// Replaying the retained changes from the map at a retained age rebuilds the current map.
pub proof fn lemma_map_replay<T>(m: ItemsMut<T>, full: Seq<ChangeData>, i: int)
    requires
        m.inv_full(full),
        0 <= i <= full.len(),
    ensures
        apply_map_edits(m.history()[i], data_map_edits(full.skip(i), m.store())) == m.live(),
        map_edits_ok(m.history()[i], data_map_edits(full.skip(i), m.store())),
    decreases full.len() - i,
{
    let es = data_map_edits(full.skip(i), m.store());
    if i < full.len() {
        lemma_map_replay(m, full, i + 1);
        assert(es[0] == data_map_edit(full[i], m.store()));
        assert(es.drop_first() =~= data_map_edits(full.skip(i + 1), m.store()));
    } else {
        assert(es.len() == 0);
    }
}

/// The items of a map as a reader sees them, with the changes since the reader's previous read.
pub struct Items<'a, T> {
    value: ChangeFeedRef<'a, SlabMapModel<T>>,
}

impl<'a, T> Items<'a, T> {
    pub closed spec fn source(&self) -> ChangeFeedRef<'a, SlabMapModel<T>> {
        self.value
    }

    pub open spec fn model(&self) -> ItemsMut<T> {
        self.source().model().0
    }

    /// The map as read.
    pub open spec fn live(&self) -> Map<usize, T> {
        self.model().live()
    }

    pub open spec fn is_initial(&self) -> bool {
        self.source().since() is None
    }

    pub open spec fn data(&self) -> Seq<ChangeData> {
        self.source().changes()
    }

    pub open spec fn wf(&self) -> bool {
        &&& self.model().counts()
        &&& self.model().len_spec() == self.live().dom().len()
        &&& forall|i: int| 0 <= i < self.data().len() ==> self.model().store().contains_key(#[trigger] self.data()[i].key)
    }

    pub fn is_empty(&self) -> (r: bool)
        ensures
            r == (self.model().len_spec() == 0),
    {
        self.len() == 0
    }

    /// Returns the number of items in the map.
    pub fn len(&self) -> (r: usize)
        ensures
            r == self.model().len_spec(),
    {
        self.value.current().0.len()
    }

    /// Returns the item with `key`, if it is in the map.
    pub fn get(&self, key: usize) -> (r: Option<&'a T>)
        ensures
            r == (if self.live().contains_key(key) { Some(&self.live()[key]) } else { None }),
    {
        self.value.current().0.get(key)
    }

    /// Returns the changes since the reader's previous read, oldest first; an initial read
    /// reports an insertion of every item, in key order.
    pub fn delta(&self) -> (r: Vec<SlabMapChange<'a, T>>)
        requires
            self.wf(),
        ensures
            !self.is_initial() ==> r@.map_values(|c: SlabMapChange<'a, T>| change_map_edit(c)) == data_map_edits(
                self.data(),
                self.model().store(),
            ),
            self.is_initial() ==> apply_map_edits(
                Map::<usize, T>::empty(),
                r@.map_values(|c: SlabMapChange<'a, T>| change_map_edit(c)),
            ) == self.live() && map_edits_ok(
                Map::<usize, T>::empty(),
                r@.map_values(|c: SlabMapChange<'a, T>| change_map_edit(c)),
            ),
            self.is_initial() ==> forall|i: int| 0 <= i < r@.len() ==> #[trigger] r@[i] is Insert,
            self.is_initial() ==> forall|i: int, j: int|
                0 <= i < j < r@.len() ==> change_key(#[trigger] r@[i]) < change_key(#[trigger] r@[j]),
    {
        let model: &'a ItemsMut<T> = &self.value.current().0;
        let mut r: Vec<SlabMapChange<'a, T>> = Vec::new();
        match self.value.delta() {
            ChangeFeedDelta::Initial => {
                let bound = model.items.key_bound();
                let mut key: usize = 0;
                while key < bound
                    invariant
                        bound == model.items.size(),
                        forall|k: usize| #[trigger] model.store().contains_key(k) ==> k < bound,
                        key <= bound,
                        apply_map_edits(
                            Map::<usize, T>::empty(),
                            r@.map_values(|c: SlabMapChange<'a, T>| change_map_edit(c)),
                        ) == model.live().restrict(Set::new(|k: usize| k < key)),
                        map_edits_ok(
                            Map::<usize, T>::empty(),
                            r@.map_values(|c: SlabMapChange<'a, T>| change_map_edit(c)),
                        ),
                        forall|i: int| 0 <= i < r@.len() ==> #[trigger] r@[i] is Insert && change_key(r@[i]) < key,
                        forall|i: int, j: int|
                            0 <= i < j < r@.len() ==> change_key(#[trigger] r@[i]) < change_key(#[trigger] r@[j]),
                    decreases bound - key,
                {
                    let ghost es = r@.map_values(|c: SlabMapChange<'a, T>| change_map_edit(c));
                    match model.get(key) {
                        Some(value) => {
                            let c = SlabMapChange::Insert { key, new_value: value };
                            r.push(c);
                            proof {
                                let es1 = r@.map_values(|c: SlabMapChange<'a, T>| change_map_edit(c));
                                assert(es1 =~= es.push(change_map_edit(c)));
                                lemma_apply_map_edits_push(Map::<usize, T>::empty(), es, change_map_edit(c));
                                assert(model.live().restrict(Set::new(|k: usize| k < key + 1)) =~= model.live().restrict(
                                    Set::new(|k: usize| k < key),
                                ).insert(key, *value));
                            }
                        },
                        None => {
                            assert(model.live().restrict(Set::new(|k: usize| k < key + 1)) =~= model.live().restrict(
                                Set::new(|k: usize| k < key),
                            ));
                        },
                    }
                    key = key + 1;
                }
                proof {
                    assert(model.live().restrict(Set::new(|k: usize| k < key)) =~= model.live());
                }
            },
            ChangeFeedDelta::Changes(cs) => {
                let mut i: usize = 0;
                while i < cs.len()
                    invariant
                        self.wf(),
                        model.store() == self.model().store(),
                        cs@ == self.data(),
                        i <= cs@.len(),
                        r@.len() == i,
                        forall|j: int| 0 <= j < i ==> change_map_edit(#[trigger] r@[j]) == data_map_edit(cs@[j], model.store()),
                    decreases cs@.len() - i,
                {
                    let change = cs[i];
                    assert(model.store().contains_key(cs@[i as int].key));
                    let item = model.items.get(change.key).unwrap();
                    let c = match change.action {
                        ChangeAction::Insert => SlabMapChange::Insert { key: change.key, new_value: &item.value },
                        ChangeAction::Remove => SlabMapChange::Remove { key: change.key, old_value: &item.value },
                    };
                    r.push(c);
                    i = i + 1;
                }
                assert(r@.map_values(|c: SlabMapChange<'a, T>| change_map_edit(c)) =~= data_map_edits(
                    self.data(),
                    self.model().store(),
                ));
            },
        }
        r
    }
}

/// Moves the pending changes of the model into the change feed, oldest first, and returns
/// their keys.
fn record_pending<'a, T>(edit: &mut ChangeFeedRefMut<'a, SlabMapModel<T>>) -> (keys: Vec<usize>)
    requires
        old(edit).inv(),
        old(edit).storage().current().0.inv(old(edit).storage().retained()),
        old(edit).storage().end() + old(edit).storage().current().0.pending().len() <= usize::MAX,
    ensures
        final(edit).inv(),
        final(edit).storage().current().0.inv(final(edit).storage().retained()),
        final(edit).storage().current().0.pending() == Seq::<ChangeData>::empty(),
        final(edit).storage().current().0.live() == old(edit).storage().current().0.live(),
        final(edit).storage().current().0.store() == old(edit).storage().current().0.store(),
        final(edit).storage().current().0.history() == old(edit).storage().current().0.history(),
        final(edit).storage().log() == old(edit).storage().log() + old(edit).storage().current().0.pending(),
        final(edit).storage().readers() == old(edit).storage().readers(),
        final(edit).storage().start() == old(edit).storage().start(),
        final(edit).begin() == old(edit).begin(),
        keys@ == old(edit).storage().current().0.pending().map_values(|c: ChangeData| c.key),
        *final(final(edit).storage) == *final(old(edit).storage),
{
    let ghost full = edit.storage().retained() + edit.storage().current().0.pending();
    let m = edit.current_mut();
    let changes = m.0.take_changes();
    let mut keys: Vec<usize> = Vec::new();
    let mut i: usize = 0;
    while i < changes.len()
        invariant
            edit.inv(),
            i <= changes@.len(),
            changes@ == old(edit).storage().current().0.pending(),
            full == old(edit).storage().retained() + changes@,
            edit.storage().retained() + changes@.skip(i as int) == full,
            edit.storage().current().0.inv_full(full),
            edit.storage().current().0.pending() == Seq::<ChangeData>::empty(),
            edit.storage().current().0.live() == old(edit).storage().current().0.live(),
            edit.storage().current().0.store() == old(edit).storage().current().0.store(),
            edit.storage().current().0.history() == old(edit).storage().current().0.history(),
            edit.storage().log() == old(edit).storage().log() + changes@.take(i as int),
            edit.storage().readers() == old(edit).storage().readers(),
            edit.storage().start() == old(edit).storage().start(),
            edit.begin() == old(edit).begin(),
            old(edit).storage().end() + changes@.len() <= usize::MAX,
            keys@ == changes@.take(i as int).map_values(|c: ChangeData| c.key),
            *final(edit.storage) == *final(old(edit).storage),
        decreases changes@.len() - i,
    {
        let c = changes[i];
        edit.record(c);
        keys.push(c.key);
        i = i + 1;
        proof {
            assert(changes@.take(i as int) =~= changes@.take(i - 1).push(c));
            assert(edit.storage().log() =~= old(edit).storage().log() + changes@.take(i as int));
            assert(edit.storage().retained() + changes@.skip(i as int) =~= full);
            assert(keys@ =~= changes@.take(i as int).map_values(|c: ChangeData| c.key));
        }
    }
    proof {
        assert(changes@.take(i as int) =~= changes@);
        assert(changes@.skip(i as int) =~= Seq::<ChangeData>::empty());
        assert(edit.storage().retained() + Seq::<ChangeData>::empty() =~= edit.storage().retained());
        assert(edit.storage().retained() + edit.storage().current().0.pending() =~= edit.storage().retained());
    }
    keys
}

/// A reader of a [`StateSlabMap`]: each reader advances through the map's changes on its own.
pub struct SignalSlabMapReader {
    cursor: ChangeFeedCursorReader,
}

impl SignalSlabMapReader {
    pub closed spec fn key(&self) -> int {
        self.cursor.key()
    }
}

/// Mutable map state with store-chosen keys whose insertions and removals are recorded for its
/// readers.
pub struct StateSlabMap<T> {
    storage: ChangeFeedStorage<SlabMapModel<T>>,
}

impl<T> StateSlabMap<T> {
    pub closed spec fn storage(&self) -> ChangeFeedStorage<SlabMapModel<T>> {
        self.storage
    }

    /// The items in the map, by key.
    pub open spec fn live(&self) -> Map<usize, T> {
        self.storage().current().0.live()
    }

    /// The map as it was when the age was the end of the changes; defined for the retained
    /// ages `start..=end`.
    pub open spec fn snapshot(&self, age: int) -> Map<usize, T> {
        self.storage().current().0.history()[age - self.storage().start()]
    }

    pub open spec fn wf(&self) -> bool {
        &&& self.storage().wf()
        &&& self.storage().current().0.inv(self.storage().retained())
        &&& self.storage().current().0.pending() == Seq::<ChangeData>::empty()
    }

    /// Every snapshot that both states have retained is the same in both.
    pub open spec fn keeps_snapshots(&self, before: Self) -> bool {
        forall|age: int|
            #![trigger self.snapshot(age)]
            #![trigger before.snapshot(age)]
            self.storage().start() <= age <= before.storage().end() && before.storage().start() <= age
                ==> self.snapshot(age) == before.snapshot(age)
    }

    /// There is room to record one more change.
    pub open spec fn has_room(&self) -> bool {
        self.storage().end() < usize::MAX
    }

    /// Creates an empty map.
    pub fn new() -> (r: Self)
        ensures
            r.wf(),
            r.live() == Map::<usize, T>::empty(),
            r.storage().readers() == Seq::<CursorState>::empty(),
    {
        let storage = ChangeFeedStorage::new(SlabMapModel(ItemsMut::new()));
        proof {
            assert(storage.retained() =~= Seq::<ChangeData>::empty());
        }
        StateSlabMap { storage }
    }

    /// Keeps the model consistent across a compaction of the change feed.
    proof fn lemma_compaction(before: ChangeFeedStorage<SlabMapModel<T>>, after: ChangeFeedStorage<SlabMapModel<T>>)
        requires
            before.wf(),
            after.wf(),
            before.current().0.inv(before.retained()),
            after.log() == before.log(),
            before.start() <= after.start(),
            released_in_order(
                before.current(),
                before.log().subrange(before.start() as int, after.start() as int),
                after.current(),
            ),
        ensures
            after.current().0.inv(after.retained()),
            after.current().0.live() == before.current().0.live(),
            after.current().0.pending() == before.current().0.pending(),
            forall|age: int|
                after.start() <= age <= after.end() ==> #[trigger] after.current().0.history()[age - after.start()]
                    == before.current().0.history()[age - before.start()],
    {
        before.lemma_wf();
        after.lemma_wf();
        let n = after.start() - before.start();
        let r = before.retained();
        assert(r.take(n as int) =~= before.log().subrange(before.start() as int, after.start() as int));
        assert(r.skip(n as int) =~= after.retained());
        let models = choose|models: Seq<SlabMapModel<T>>|
            #[trigger] release_steps(models, r.take(n as int)) && models[0] == before.current() && models.last()
                == after.current();
        lemma_map_release_chain(models, r, n as int);
        lemma_pending_unchanged(models, r.take(n as int), n as int);
    }

    /// Inserts `value` under a new key, records the insertion and returns the key.
    pub fn insert(&mut self, value: T) -> (key: usize)
        requires
            old(self).wf(),
            old(self).has_room(),
        ensures
            final(self).wf(),
            !old(self).live().contains_key(key),
            final(self).live() == old(self).live().insert(key, value),
            final(self).storage().log() == old(self).storage().log().push(
                ChangeData { action: ChangeAction::Insert, key },
            ),
            final(self).storage().readers() == old(self).storage().readers(),
            final(self).keeps_snapshots(*old(self)),
            final(self).snapshot(final(self).storage().end() as int) == final(self).live(),
            final(self).storage().start() == crate::change_feed::min_cursor(
                final(self).storage().readers(),
                final(self).storage().end(),
            ),
    {
        let ghost before = self.storage;
        let mut edit = self.storage.begin_edit();
        proof {
            Self::lemma_compaction(before, *edit.storage);
            edit.storage.lemma_wf();
        }
        let ghost retained = edit.storage().retained();
        let m = edit.current_mut();
        let key = m.0.insert(value);
        let keys = record_pending(&mut edit);
        proof {
            assert(Seq::<ChangeData>::empty().push(ChangeData { action: ChangeAction::Insert, key }) =~= seq![ChangeData { action: ChangeAction::Insert, key }]);
            edit.storage.lemma_wf();
        }
        self.finish_edit();
        key
    }

    /// Removes the item with `key` and records the removal.
    pub fn remove(&mut self, key: usize)
        requires
            old(self).wf(),
            old(self).has_room(),
            old(self).live().contains_key(key),
        ensures
            final(self).wf(),
            final(self).live() == old(self).live().remove(key),
            final(self).storage().log() == old(self).storage().log().push(
                ChangeData { action: ChangeAction::Remove, key },
            ),
            final(self).storage().readers() == old(self).storage().readers(),
            final(self).keeps_snapshots(*old(self)),
            final(self).snapshot(final(self).storage().end() as int) == final(self).live(),
            final(self).storage().start() == crate::change_feed::min_cursor(
                final(self).storage().readers(),
                final(self).storage().end(),
            ),
    {
        let ghost before = self.storage;
        let mut edit = self.storage.begin_edit();
        proof {
            Self::lemma_compaction(before, *edit.storage);
            edit.storage.lemma_wf();
        }
        let m = edit.current_mut();
        m.0.remove(key);
        let keys = record_pending(&mut edit);
        proof {
            assert(Seq::<ChangeData>::empty().push(ChangeData { action: ChangeAction::Remove, key }) =~= seq![ChangeData { action: ChangeAction::Remove, key }]);
            edit.storage.lemma_wf();
        }
        self.finish_edit();
    }

    /// Ends an edit: releases every change and removed value that no reader still has to read.
    fn finish_edit(&mut self)
        requires
            old(self).wf(),
            old(self).snapshot(old(self).storage().end() as int) == old(self).live(),
        ensures
            final(self).wf(),
            final(self).live() == old(self).live(),
            final(self).storage().readers() == old(self).storage().readers(),
            final(self).storage().log() == old(self).storage().log(),
            final(self).storage().start() == crate::change_feed::min_cursor(
                old(self).storage().readers(),
                old(self).storage().end(),
            ),
            forall|age: int|
                #![trigger final(self).snapshot(age)]
                final(self).storage().start() <= age <= final(self).storage().end() ==> final(self).snapshot(age)
                    == old(self).snapshot(age),
            final(self).storage().start() >= old(self).storage().start(),
    {
        let ghost before = self.storage;
        self.storage.compact();
        proof {
            Self::lemma_compaction(before, self.storage);
        }
    }

    /// Returns the item with `key`.
    pub fn item(&self, key: usize) -> (r: &T)
        requires
            self.wf(),
            self.live().contains_key(key),
        ensures
            *r == self.live()[key],
    {
        self.storage.current_ref().0.get(key).unwrap()
    }

    /// Borrows the current items; the result holds no changes.
    pub fn items(&self) -> (r: Items<'_, T>)
        requires
            self.wf(),
        ensures
            r.wf(),
            r.live() == self.live(),
            !r.is_initial(),
            r.data() == Seq::<ChangeData>::empty(),
    {
        let value = self.storage.borrow_current();
        Items { value }
    }

    /// Creates a reader whose first read reports every item as inserted.
    pub fn reader(&mut self) -> (r: SignalSlabMapReader)
        requires
            old(self).wf(),
        ensures
            final(self).wf(),
            final(self).live() == old(self).live(),
            r.key() == old(self).storage().readers().len(),
            final(self).storage().readers() == old(self).storage().readers().push(CursorState::Unread),
            final(self).storage().log() == old(self).storage().log(),
            final(self).storage().start() == old(self).storage().start(),
            final(self).storage().current() == old(self).storage().current(),
    {
        SignalSlabMapReader { cursor: self.storage.reader() }
    }

    /// Creates a reader at the same position as `reader`; the two then advance independently.
    pub fn clone_reader(&mut self, reader: &SignalSlabMapReader) -> (r: SignalSlabMapReader)
        requires
            old(self).wf(),
            old(self).storage().is_live(reader.key()),
        ensures
            final(self).wf(),
            final(self).live() == old(self).live(),
            r.key() == old(self).storage().readers().len(),
            final(self).storage().readers() == old(self).storage().readers().push(
                old(self).storage().readers()[reader.key()],
            ),
            final(self).storage().log() == old(self).storage().log(),
            final(self).storage().start() == old(self).storage().start(),
            final(self).storage().current() == old(self).storage().current(),
    {
        SignalSlabMapReader { cursor: self.storage.clone_reader(&reader.cursor) }
    }

    /// Releases a reader; removed values only it could still read are released.
    pub fn release_reader(&mut self, reader: SignalSlabMapReader)
        requires
            old(self).wf(),
            old(self).storage().is_live(reader.key()),
        ensures
            final(self).wf(),
            final(self).live() == old(self).live(),
            final(self).storage().readers() == old(self).storage().readers().update(reader.key(), CursorState::Released),
            final(self).storage().log() == old(self).storage().log(),
            final(self).keeps_snapshots(*old(self)),
    {
        let ghost before = self.storage;
        self.storage.release_reader(reader.cursor);
        proof {
            Self::lemma_compaction(before, self.storage);
        }
    }

    /// Releases every retained change that no reader still has to read.
    pub fn compact(&mut self)
        requires
            old(self).wf(),
        ensures
            final(self).wf(),
            final(self).live() == old(self).live(),
            final(self).storage().readers() == old(self).storage().readers(),
            final(self).storage().log() == old(self).storage().log(),
            final(self).storage().start() == crate::change_feed::min_cursor(
                old(self).storage().readers(),
                old(self).storage().end(),
            ),
            final(self).keeps_snapshots(*old(self)),
    {
        let ghost before = self.storage;
        self.storage.compact();
        proof {
            Self::lemma_compaction(before, self.storage);
        }
    }

    /// The snapshot at a live reader's cursor, with the reader's pending changes applied in
    /// order, rebuilds the current map.
    pub proof fn lemma_pending_rebuilds(&self, key: int)
        requires
            self.wf(),
            self.storage().is_live(key),
            self.storage().readers()[key] is At,
        ensures
            ({
                let c = self.storage().readers()[key]->At_0 as int;
                let es = data_map_edits(self.storage().pending(key), self.storage().current().0.store());
                apply_map_edits(self.snapshot(c), es) == self.live() && map_edits_ok(self.snapshot(c), es)
            }),
    {
        let s = self.storage();
        s.lemma_wf();
        let c = s.readers()[key]->At_0 as int;
        assert(s.readers()[key] matches CursorState::At(c));
        let i = c - s.start();
        let full = s.retained() + s.current().0.pending();
        assert(full =~= s.retained());
        assert(s.pending(key) =~= full.skip(i));
        lemma_map_replay(s.current().0, full, i);
    }

    /// Borrows the items and advances `reader` to the current end.
    ///
    /// The first read of a reader reports every item as inserted; every later read reports the
    /// insertions and removals since the reader's previous read, which rebuild the current map
    /// from the map that previous read returned.
    pub fn read(&mut self, reader: &SignalSlabMapReader) -> (r: Items<'_, T>)
        requires
            old(self).wf(),
            old(self).storage().is_live(reader.key()),
        ensures
            final(self).wf(),
            final(self).live() == old(self).live(),
            final(self).storage().readers() == old(self).storage().readers().update(
                reader.key(),
                CursorState::At(old(self).storage().end() as usize),
            ),
            final(self).storage().log() == old(self).storage().log(),
            final(self).storage().start() == crate::change_feed::min_cursor(
                old(self).storage().readers(),
                old(self).storage().end(),
            ),
            final(self).keeps_snapshots(*old(self)),
            final(self).snapshot(old(self).storage().end() as int) == final(self).live(),
            r.wf(),
            r.live() == old(self).live(),
            r.is_initial() == (old(self).storage().readers()[reader.key()] == CursorState::Unread),
            r.data() == old(self).storage().pending(reader.key()),
            old(self).storage().readers()[reader.key()] matches CursorState::At(c) ==> apply_map_edits(
                old(self).snapshot(c as int),
                data_map_edits(r.data(), r.model().store()),
            ) == r.live() && map_edits_ok(old(self).snapshot(c as int), data_map_edits(r.data(), r.model().store())),
    {
        self.compact();
        let ghost mid = *self;
        proof {
            old(self).storage().lemma_wf();
            self.storage.lemma_wf();
            assert(mid.storage().start() == crate::change_feed::min_cursor(mid.storage().readers(), mid.storage().end()));
            if self.storage.readers()[reader.key()] is At {
                self.lemma_pending_rebuilds(reader.key());
                let c = self.storage.readers()[reader.key()]->At_0 as int;
                assert(self.storage.readers()[reader.key()] matches CursorState::At(c));
                assert(self.snapshot(c) == old(self).snapshot(c));
            }
            let s = self.storage;
            let key = reader.key();
            let full = s.retained() + s.current().0.pending();
            assert(full =~= s.retained());
            assert forall|i: int| 0 <= i < s.pending(key).len() implies s.current().0.store().contains_key(
                #[trigger] s.pending(key)[i].key,
            ) by {
                let c = s.readers()[key]->At_0 as int;
                assert(s.readers()[key] matches CursorState::At(c));
                assert(s.pending(key)[i] == full[c - s.start() + i]);
            }
        }
        let value = self.storage.read(&reader.cursor);
        Items { value }
    }

    /// Borrows the items with the changes `reader` would receive, without advancing it.
    pub fn peek(&self, reader: &SignalSlabMapReader) -> (r: Items<'_, T>)
        requires
            self.wf(),
            self.storage().is_live(reader.key()),
        ensures
            r.wf(),
            r.live() == self.live(),
            r.is_initial() == (self.storage().readers()[reader.key()] == CursorState::Unread),
            r.data() == self.storage().pending(reader.key()),
            self.storage().readers()[reader.key()] matches CursorState::At(c) ==> apply_map_edits(
                self.snapshot(c as int),
                data_map_edits(r.data(), r.model().store()),
            ) == r.live(),
    {
        proof {
            self.storage.lemma_wf();
            if self.storage.readers()[reader.key()] is At {
                self.lemma_pending_rebuilds(reader.key());
            }
            let s = self.storage;
            let key = reader.key();
            let full = s.retained() + s.current().0.pending();
            assert(full =~= s.retained());
            assert forall|i: int| 0 <= i < s.pending(key).len() implies s.current().0.store().contains_key(
                #[trigger] s.pending(key)[i].key,
            ) by {
                let c = s.readers()[key]->At_0 as int;
                assert(s.readers()[key] matches CursorState::At(c));
                assert(s.pending(key)[i] == full[c - s.start() + i]);
            }
        }
        let value = self.storage.peek(&reader.cursor);
        Items { value }
    }
}

/// Releasing changes does not touch the pending changes or the allocation size.
proof fn lemma_pending_unchanged<T>(models: Seq<SlabMapModel<T>>, cs: Seq<ChangeData>, n: int)
    requires
        release_steps(models, cs),
        cs.len() == n,
    ensures
        models.last().0.pending() == models[0].0.pending(),
    decreases n,
{
    if n > 0 {
        let init = models.drop_last();
        let cinit = cs.drop_last();
        assert forall|i: int| #![trigger cinit[i]] 0 <= i < cinit.len() implies SlabMapModel::<T>::release_ok(
            init[i],
            cinit[i],
            init[i + 1],
        ) by {
            assert(cinit[i] == cs[i]);
        }
        lemma_pending_unchanged(init, cinit, n - 1);
        assert(cs[n - 1] == cs[n - 1]);
        assert(SlabMapModel::<T>::release_ok(models[n - 1], cs[n - 1], models[n]));
        assert(init.last() == models[n - 1]);
        assert(init[0] == models[0]);
    }
}

} // verus!
