//! An observable vector: edits are recorded as changes, and every reader receives the changes
//! since its previous read, which rebuild the current items from the items it saw then.

use vstd::prelude::*;
use vstd::slice::slice_to_vec;

use crate::change_feed::{
    ChangeFeedCursorReader, ChangeFeedDelta, ChangeFeedModel, ChangeFeedRef, ChangeFeedRefMut,
    ChangeFeedStorage, CursorState, release_steps, released_in_order,
};
use crate::collections::slots::Slots;
use crate::collections::sorting::{
    all_before, compare_agrees, is_total_preorder, item_at, key_agrees, keyed_le, lemma_all_before_extend,
    lemma_insert_in_order, lemma_keyed_total, lemma_ranked_by_agrees, natural_le, not_before, orders_naturally,
    orders_totally, perm_sorted, perm_stable, ranked_by, sorted_by, sorts_stably,
};
use vstd::std_specs::cmp::OrdSpec;

verus! {

/// An edit of a sequence, as a reader applies it to its copy of the items.
pub enum VecEdit<T> {
    Insert { index: int, value: T },
    Remove { index: int, old_value: T },
    SetValue { index: int, value: T, old_value: T },
    Move { old_index: int, new_index: int },
    Swap { index0: int, index1: int },
    Sort { new_to_old: Seq<usize> },
}

/// The items after applying an edit.
pub open spec fn apply_edit<T>(s: Seq<T>, e: VecEdit<T>) -> Seq<T> {
    match e {
        VecEdit::Insert { index, value } => s.insert(index, value),
        VecEdit::Remove { index, .. } => s.remove(index),
        VecEdit::SetValue { index, value, .. } => s.update(index, value),
        VecEdit::Move { old_index, new_index } => s.remove(old_index).insert(new_index, s[old_index]),
        VecEdit::Swap { index0, index1 } => s.update(index0, s[index1]).update(index1, s[index0]),
        VecEdit::Sort { new_to_old } => Seq::new(s.len(), |i: int| s[new_to_old[i] as int]),
    }
}

/// The edit is valid for items `s`: its indices are in range, and the value it reports as
/// removed or replaced is the item that stood at its index.
pub open spec fn edit_ok<T>(s: Seq<T>, e: VecEdit<T>) -> bool {
    match e {
        VecEdit::Insert { index, value } => 0 <= index <= s.len(),
        VecEdit::Remove { index, old_value } => 0 <= index < s.len() && s[index] == old_value,
        VecEdit::SetValue { index, value, old_value } => 0 <= index < s.len() && s[index] == old_value,
        VecEdit::Move { old_index, new_index } => 0 <= old_index < s.len() && 0 <= new_index < s.len(),
        VecEdit::Swap { index0, index1 } => 0 <= index0 < s.len() && 0 <= index1 < s.len(),
        VecEdit::Sort { new_to_old } => is_permutation(new_to_old, s.len()),
    }
}

/// `p` lists every index below `n` exactly once.
pub open spec fn is_permutation(p: Seq<usize>, n: nat) -> bool {
    &&& p.len() == n
    &&& p.no_duplicates()
    &&& forall|i: int| 0 <= i < p.len() ==> #[trigger] p[i] < n
}

/// The items after applying the edits in order.
pub open spec fn apply_edits<T>(s: Seq<T>, es: Seq<VecEdit<T>>) -> Seq<T>
    decreases es.len(),
{
    if es.len() == 0 {
        s
    } else {
        apply_edits(apply_edit(s, es[0]), es.drop_first())
    }
}

/// Every edit is valid for the items it is applied to.
pub open spec fn edits_ok<T>(s: Seq<T>, es: Seq<VecEdit<T>>) -> bool
    decreases es.len(),
{
    es.len() == 0 || (edit_ok(s, es[0]) && edits_ok(apply_edit(s, es[0]), es.drop_first()))
}

/// Inserting every item at its own index into empty items rebuilds the items.
pub open spec fn initial_edits<T>(s: Seq<T>) -> Seq<VecEdit<T>> {
    Seq::new(s.len(), |i: int| VecEdit::Insert { index: i, value: s[i] })
}

/// The permutation recorded by a sort: `new_to_old[i]` is the index, before the sort,
/// of the item that is at index `i` after it.
#[derive(Debug, PartialEq, Eq)]
pub struct IndexNewToOld(Vec<usize>);

impl IndexNewToOld {
    pub closed spec fn view(&self) -> Seq<usize> {
        self.0@
    }

    pub fn new(new_to_old: &[usize]) -> (r: Self)
        ensures
            r@ == new_to_old@,
    {
        IndexNewToOld(slice_to_vec(new_to_old))
    }

    pub fn as_slice(&self) -> (r: &[usize])
        ensures
            r@ == self@,
    {
        self.0.as_slice()
    }
}

/// A change of a vector as a reader receives it.
#[derive(Debug, PartialEq, Eq)]
#[allow(inconsistent_fields)]
pub enum VecChange<'a, T> {
    Insert { index: usize, new_value: &'a T },
    Remove { index: usize, old_value: &'a T },
    SetValue { index: usize, new_value: &'a T, old_value: &'a T },
    Move { old_index: usize, new_index: usize },
    Swap { index: (usize, usize) },
    Sort(&'a IndexNewToOld),
}

/// The edit a change stands for.
pub open spec fn change_edit<T>(c: VecChange<'_, T>) -> VecEdit<T> {
    match c {
        VecChange::Insert { index, new_value } => VecEdit::Insert { index: index as int, value: *new_value },
        VecChange::Remove { index, old_value } => VecEdit::Remove { index: index as int, old_value: *old_value },
        VecChange::SetValue { index, new_value, old_value } => VecEdit::SetValue {
            index: index as int,
            value: *new_value,
            old_value: *old_value,
        },
        VecChange::Move { old_index, new_index } => VecEdit::Move {
            old_index: old_index as int,
            new_index: new_index as int,
        },
        VecChange::Swap { index } => VecEdit::Swap { index0: index.0 as int, index1: index.1 as int },
        VecChange::Sort(p) => VecEdit::Sort { new_to_old: p@ },
    }
}

/// A recorded change of a vector; values are referred to by their keys in the value store.
#[allow(inconsistent_fields)]
pub enum ChangeData {
    Insert { index: usize, new_value: usize },
    Remove { index: usize, old_value: usize },
    SetValue { index: usize, old_value: usize, new_value: usize },
    Move { old_index: usize, new_index: usize },
    Swap { index: (usize, usize) },
    Sort { new_to_old: IndexNewToOld },
}

/// The change refers to the value stored under key `k`.
pub open spec fn refers_to(c: ChangeData, k: usize) -> bool {
    match c {
        ChangeData::Insert { index, new_value } => new_value == k,
        ChangeData::Remove { index, old_value } => old_value == k,
        ChangeData::SetValue { index, old_value, new_value } => old_value == k || new_value == k,
        _ => false,
    }
}

/// The key of the value the change replaced or removed, if any.
pub open spec fn old_key(c: ChangeData) -> Option<usize> {
    match c {
        ChangeData::Remove { index, old_value } => Some(old_value),
        ChangeData::SetValue { index, old_value, new_value } => Some(old_value),
        _ => None,
    }
}

/// The edit a recorded change stands for, given the value store.
pub open spec fn data_edit<T>(c: ChangeData, values: Map<usize, T>) -> VecEdit<T> {
    match c {
        ChangeData::Insert { index, new_value } => VecEdit::Insert {
            index: index as int,
            value: values[new_value],
        },
        ChangeData::Remove { index, old_value } => VecEdit::Remove {
            index: index as int,
            old_value: values[old_value],
        },
        ChangeData::SetValue { index, old_value, new_value } => VecEdit::SetValue {
            index: index as int,
            value: values[new_value],
            old_value: values[old_value],
        },
        ChangeData::Move { old_index, new_index } => VecEdit::Move {
            old_index: old_index as int,
            new_index: new_index as int,
        },
        ChangeData::Swap { index } => VecEdit::Swap { index0: index.0 as int, index1: index.1 as int },
        ChangeData::Sort { new_to_old } => VecEdit::Sort { new_to_old: new_to_old@ },
    }
}

/// The edits recorded changes stand for.
pub open spec fn data_edits<T>(cs: Seq<ChangeData>, values: Map<usize, T>) -> Seq<VecEdit<T>> {
    cs.map_values(|c: ChangeData| data_edit(c, values))
}

/// The items of a vector and the values that changes still refer to.
pub struct VecModel<T> {
    items: Vec<usize>,
    values: Slots<T>,
    history: Ghost<Seq<Seq<T>>>,
}

impl<T> VecModel<T> {
    /// The keys of the items, in order.
    pub closed spec fn keys(&self) -> Seq<usize> {
        self.items@
    }

    /// The value store.
    pub closed spec fn values(&self) -> Map<usize, T> {
        self.values@
    }

    /// The items at each retained age, oldest first; the last entry is the current items.
    pub closed spec fn history(&self) -> Seq<Seq<T>> {
        self.history@
    }

    pub closed spec fn store_wf(&self) -> bool {
        self.values.wf()
    }

    /// The current items.
    pub open spec fn items(&self) -> Seq<T> {
        self.keys().map_values(|k: usize| self.values()[k])
    }

    /// Every item's key refers to a stored value, and no key is used twice.
    pub open spec fn items_wf(&self) -> bool {
        &&& self.store_wf()
        &&& self.keys().no_duplicates()
        &&& forall|i: int| 0 <= i < self.keys().len() ==> self.values().contains_key(#[trigger] self.keys()[i])
    }

    /// The model is consistent with the changes `retained` that readers may still read.
    pub open spec fn inv(&self, retained: Seq<ChangeData>) -> bool {
        &&& self.items_wf()
        &&& forall|i: int, k: usize|
            0 <= i < retained.len() && #[trigger] refers_to(retained[i], k) ==> self.values().contains_key(k)
        &&& forall|i: int|
            0 <= i < retained.len() && (#[trigger] old_key(retained[i])) is Some ==> {
                let k = old_key(retained[i])->Some_0;
                &&& !self.keys().contains(k)
                &&& forall|j: int| i < j < retained.len() ==> !#[trigger] refers_to(retained[j], k)
            }
        &&& self.history().len() == retained.len() + 1
        &&& self.history().last() == self.items()
        &&& forall|i: int|
            0 <= i < retained.len() ==> {
                &&& edit_ok(self.history()[i], data_edit(#[trigger] retained[i], self.values()))
                &&& apply_edit(self.history()[i], data_edit(retained[i], self.values())) == self.history()[i + 1]
            }
    }

    /// Creates an empty model.
    pub fn new() -> (r: Self)
        ensures
            r.inv(Seq::empty()),
            r.items() == Seq::<T>::empty(),
    {
        let ghost h: Seq<Seq<T>> = seq![Seq::empty()];
        let r = VecModel { items: Vec::new(), values: Slots::new(), history: Ghost(h) };
        assert(r.items() =~= Seq::<T>::empty());
        r
    }

    /// Returns the number of items.
    pub fn len(&self) -> (r: usize)
        ensures
            r == self.items().len(),
    {
        self.items.len()
    }

    /// Returns the item at `index`, if any.
    pub fn get(&self, index: usize) -> (r: Option<&T>)
        requires
            self.items_wf(),
        ensures
            r == (if index < self.items().len() { Some(&self.items()[index as int]) } else { None }),
    {
        if index < self.items.len() {
            let key = self.items[index];
            assert(self.values().contains_key(self.keys()[index as int]));
            self.values.get(key)
        } else {
            None
        }
    }
}

/// Releasing the oldest retained change keeps the model consistent with the rest and leaves
/// the items unchanged.
pub proof fn lemma_release_keeps_inv<T>(m0: VecModel<T>, retained: Seq<ChangeData>, m1: VecModel<T>)
    requires
        m0.inv(retained),
        retained.len() > 0,
        VecModel::<T>::release_ok(m0, retained[0], m1),
    ensures
        m1.inv(retained.drop_first()),
        m1.items() == m0.items(),
{
    let rest = retained.drop_first();
    let c0 = retained[0];
    assert forall|i: int| 0 <= i < m1.keys().len() implies m1.values().contains_key(#[trigger] m1.keys()[i]) by {
        assert(m0.values().contains_key(m0.keys()[i]));
        if old_key(c0) is Some {
            assert(old_key(retained[0]) is Some);
            assert(m0.keys().contains(m0.keys()[i]));
        }
    }
    assert(m1.items() =~= m0.items()) by {
        assert forall|i: int| 0 <= i < m1.keys().len() implies m1.values()[m1.keys()[i]] == m0.values()[m0.keys()[i]] by {
            if old_key(c0) is Some {
                assert(old_key(retained[0]) is Some);
                assert(m0.keys().contains(m0.keys()[i]));
            }
        }
    }
    assert forall|i: int, k: usize|
        0 <= i < rest.len() && #[trigger] refers_to(rest[i], k) implies m1.values().contains_key(k) by {
        assert(rest[i] == retained[i + 1]);
        assert(refers_to(retained[i + 1], k));
        if old_key(c0) is Some {
            assert(old_key(retained[0]) is Some);
        }
    }
    assert forall|i: int|
        0 <= i < rest.len() && (#[trigger] old_key(rest[i])) is Some implies {
            let k = old_key(rest[i])->Some_0;
            &&& !m1.keys().contains(k)
            &&& forall|j: int| i < j < rest.len() ==> !#[trigger] refers_to(rest[j], k)
        } by {
        assert(rest[i] == retained[i + 1]);
        assert(old_key(retained[i + 1]) is Some);
        let k = old_key(rest[i])->Some_0;
        assert forall|j: int| i < j < rest.len() implies !#[trigger] refers_to(rest[j], k) by {
            assert(rest[j] == retained[j + 1]);
        }
    }
    assert forall|i: int|
        0 <= i < rest.len() implies {
            &&& edit_ok(m1.history()[i], data_edit(#[trigger] rest[i], m1.values()))
            &&& apply_edit(m1.history()[i], data_edit(rest[i], m1.values())) == m1.history()[i + 1]
        } by {
        assert(rest[i] == retained[i + 1]);
        assert(m1.history()[i] == m0.history()[i + 1]);
        assert(m1.history()[i + 1] == m0.history()[i + 2]);
        assert(data_edit(rest[i], m1.values()) == data_edit(retained[i + 1], m0.values())) by {
            if old_key(c0) is Some {
                assert(old_key(retained[0]) is Some);
                let k = old_key(c0)->Some_0;
                assert(!refers_to(retained[i + 1], k));
            }
        }
    }
}

/// Releasing the oldest `n` retained changes, one after another, keeps the model consistent
/// with the rest and leaves the items unchanged.
pub proof fn lemma_release_chain_keeps_inv<T>(
    models: Seq<VecModel<T>>,
    retained: Seq<ChangeData>,
    n: int,
)
    requires
        0 <= n <= retained.len(),
        models[0].inv(retained),
        release_steps(models, retained.take(n)),
    ensures
        models.last().inv(retained.skip(n)),
        models.last().items() == models[0].items(),
    decreases n,
{
    if n > 0 {
        let prefix = retained.take(n);
        assert(prefix[0] == retained[0]);
        assert(VecModel::<T>::release_ok(models[0], prefix[0], models[1]));
        lemma_release_keeps_inv(models[0], retained, models[1]);
        let rest = retained.drop_first();
        assert(rest.take(n - 1) =~= prefix.drop_first());
        assert(rest.skip(n - 1) =~= retained.skip(n));
        let tail = models.drop_first();
        assert forall|i: int| #![trigger rest.take(n - 1)[i]] 0 <= i < n - 1 implies VecModel::<T>::release_ok(
            tail[i],
            rest.take(n - 1)[i],
            tail[i + 1],
        ) by {
            assert(rest.take(n - 1)[i] == prefix[i + 1]);
        }
        assert(release_steps(tail, rest.take(n - 1)));
        lemma_release_chain_keeps_inv(tail, rest, n - 1);
    } else {
        assert(retained.skip(0) =~= retained);
    }
}

/// A release in order, as the change feed performs it, keeps the model consistent with the
/// changes still retained and leaves the items unchanged.
pub proof fn lemma_released_in_order_keeps_inv<T>(
    m0: VecModel<T>,
    retained: Seq<ChangeData>,
    n: int,
    m1: VecModel<T>,
)
    requires
        0 <= n <= retained.len(),
        m0.inv(retained),
        released_in_order(m0, retained.take(n), m1),
    ensures
        m1.inv(retained.skip(n)),
        m1.items() == m0.items(),
{
    let models = choose|models: Seq<VecModel<T>>|
        #[trigger] release_steps(models, retained.take(n)) && models[0] == m0 && models.last() == m1;
    lemma_release_chain_keeps_inv(models, retained, n);
}

/// Appending a change keeps the model consistent when the change describes the step from the
/// old items to the new ones and respects the life cycle of the value keys.
proof fn lemma_push_keeps_inv<T>(m0: VecModel<T>, retained: Seq<ChangeData>, m1: VecModel<T>, c: ChangeData)
    requires
        m0.inv(retained),
        m1.items_wf(),
        forall|k: usize| #[trigger] m0.values().contains_key(k) ==> m1.values().contains_key(k) && m1.values()[k] == m0.values()[k],
        m1.history() == m0.history().push(m1.items()),
        edit_ok(m0.items(), data_edit(c, m1.values())),
        apply_edit(m0.items(), data_edit(c, m1.values())) == m1.items(),
        forall|k: usize| #[trigger] refers_to(c, k) ==> m1.values().contains_key(k),
        old_key(c) is Some ==> !m1.keys().contains(old_key(c)->Some_0),
        forall|i: int|
            0 <= i < retained.len() && (#[trigger] old_key(retained[i])) is Some ==> {
                let k = old_key(retained[i])->Some_0;
                !m1.keys().contains(k) && !refers_to(c, k)
            },
    ensures
        m1.inv(retained.push(c)),
{
    let r1 = retained.push(c);
    assert forall|i: int, k: usize| 0 <= i < r1.len() && #[trigger] refers_to(r1[i], k) implies m1.values().contains_key(k) by {
        if i < retained.len() {
            assert(r1[i] == retained[i]);
            assert(m0.values().contains_key(k));
        }
    }
    assert forall|i: int|
        0 <= i < r1.len() && (#[trigger] old_key(r1[i])) is Some implies {
            let k = old_key(r1[i])->Some_0;
            &&& !m1.keys().contains(k)
            &&& forall|j: int| i < j < r1.len() ==> !#[trigger] refers_to(r1[j], k)
        } by {
        if i < retained.len() {
            assert(r1[i] == retained[i]);
            let k = old_key(r1[i])->Some_0;
            assert forall|j: int| i < j < r1.len() implies !#[trigger] refers_to(r1[j], k) by {
                if j < retained.len() {
                    assert(r1[j] == retained[j]);
                } else {
                    assert(r1[j] == c);
                }
            }
        }
    }
    assert forall|i: int|
        0 <= i < r1.len() implies {
            &&& edit_ok(m1.history()[i], data_edit(#[trigger] r1[i], m1.values()))
            &&& apply_edit(m1.history()[i], data_edit(r1[i], m1.values())) == m1.history()[i + 1]
        } by {
        if i < retained.len() {
            assert(r1[i] == retained[i]);
            assert(m1.history()[i] == m0.history()[i]);
            assert(m1.history()[i + 1] == m0.history()[i + 1]);
            assert(data_edit(retained[i], m1.values()) == data_edit(retained[i], m0.values())) by {
                match retained[i] {
                    ChangeData::Insert { index, new_value } => {
                        assert(refers_to(retained[i], new_value));
                    },
                    ChangeData::Remove { index, old_value } => {
                        assert(refers_to(retained[i], old_value));
                    },
                    ChangeData::SetValue { index, old_value, new_value } => {
                        assert(refers_to(retained[i], new_value));
                        assert(refers_to(retained[i], old_value));
                    },
                    _ => {},
                }
            }
        } else {
            assert(r1[i] == c);
            assert(m0.history().last() == m0.items());
        }
    }
}

impl<T> VecModel<T> {
    /// Stores `value` and inserts its key at `index` without recording a change; the history
    /// starts afresh at the new items.
    fn insert_raw(&mut self, index: usize, value: T) -> (key: usize)
        requires
            old(self).items_wf(),
            index <= old(self).items().len(),
        ensures
            final(self).items_wf(),
            final(self).items() == old(self).items().insert(index as int, value),
            !old(self).values().contains_key(key),
            final(self).values() == old(self).values().insert(key, value),
            final(self).keys() == old(self).keys().insert(index as int, key),
            final(self).history() == seq![final(self).items()],
    {
        let key = self.values.insert(value);
        self.items.insert(index, key);
        proof {
            let k0 = old(self).keys();
            let k1 = self.keys();
            assert(k1 =~= k0.insert(index as int, key));
            assert forall|i: int| 0 <= i < k1.len() implies self.values().contains_key(#[trigger] k1[i]) by {
                if i < index { assert(k1[i] == k0[i]); } else if i > index { assert(k1[i] == k0[i - 1]); }
            }
            assert forall|a: int, b: int| 0 <= a < k1.len() && 0 <= b < k1.len() && a != b implies k1[a] != k1[b] by {
                if a != index && b != index {
                    let a0 = if a < index { a } else { a - 1 };
                    let b0 = if b < index { b } else { b - 1 };
                    assert(k1[a] == k0[a0]);
                    assert(k1[b] == k0[b0]);
                } else if a == index {
                    let b0 = if b < index { b } else { b - 1 };
                    assert(k1[b] == k0[b0]);
                    assert(old(self).values().contains_key(k0[b0]));
                } else {
                    let a0 = if a < index { a } else { a - 1 };
                    assert(k1[a] == k0[a0]);
                    assert(old(self).values().contains_key(k0[a0]));
                }
            }
            assert(self.items() =~= old(self).items().insert(index as int, value)) by {
                assert forall|i: int| 0 <= i < k1.len() implies #[trigger] self.items()[i] == old(self).items().insert(index as int, value)[i] by {
                    if i < index { assert(k1[i] == k0[i]); assert(old(self).values().contains_key(k0[i])); }
                    else if i > index { assert(k1[i] == k0[i - 1]); assert(old(self).values().contains_key(k0[i - 1])); }
                }
            }
            self.history = Ghost(seq![self.items()]);
        }
        key
    }

    /// Appends `value` without recording a change.
    fn push_raw(&mut self, value: T)
        requires
            old(self).items_wf(),
        ensures
            final(self).items_wf(),
            final(self).items() == old(self).items().push(value),
            final(self).history() == seq![final(self).items()],
    {
        let index = self.items.len();
        self.insert_raw(index, value);
        assert(old(self).items().insert(index as int, value) =~= old(self).items().push(value));
    }
}

impl<T> VecModel<T> {
    /// Inserts `value` at `index` and returns the change that records it.
    fn insert_entry(&mut self, index: usize, value: T, Ghost(retained): Ghost<Seq<ChangeData>>) -> (c: ChangeData)
        requires
            old(self).inv(retained),
            index <= old(self).items().len(),
        ensures
            final(self).inv(retained.push(c)),
            values_grow(old(self).values(), final(self).values()),
            final(self).history() == old(self).history().push(final(self).items()),
            final(self).items() == old(self).items().insert(index as int, value),
            data_edit(c, final(self).values()) == (VecEdit::Insert { index: index as int, value }),
    {
        let ghost h0 = self.history@;
        let key = self.insert_raw(index, value);
        let c = ChangeData::Insert { index, new_value: key };
        proof {
            self.history = Ghost(h0.push(self.items()));
            let m0 = *old(self);
            assert forall|i: int|
                0 <= i < retained.len() && (#[trigger] old_key(retained[i])) is Some implies {
                    let k = old_key(retained[i])->Some_0;
                    !self.keys().contains(k) && !refers_to(c, k)
                } by {
                let k = old_key(retained[i])->Some_0;
                assert(refers_to(retained[i], k));
                assert(m0.values().contains_key(k));
                assert(!m0.keys().contains(k));
                if self.keys().contains(k) {
                    let j = choose|j: int| 0 <= j < self.keys().len() && self.keys()[j] == k;
                    if j < index { assert(self.keys()[j] == m0.keys()[j]); }
                    else if j > index { assert(self.keys()[j] == m0.keys()[j - 1]); }
                }
            }
            lemma_push_keeps_inv(m0, retained, *self, c);
        }
        c
    }

    /// Removes the item at `index` and returns the change that records it; the value stays
    /// stored until the change is released.
    fn remove_entry(&mut self, index: usize, Ghost(retained): Ghost<Seq<ChangeData>>) -> (c: ChangeData)
        requires
            old(self).inv(retained),
            index < old(self).items().len(),
        ensures
            final(self).inv(retained.push(c)),
            values_grow(old(self).values(), final(self).values()),
            final(self).history() == old(self).history().push(final(self).items()),
            final(self).items() == old(self).items().remove(index as int),
            data_edit(c, final(self).values()) == (VecEdit::Remove {
                index: index as int,
                old_value: old(self).items()[index as int],
            }),
            c == (ChangeData::Remove { index, old_value: old(self).keys()[index as int] }),
    {
        let key = self.items.remove(index);
        let c = ChangeData::Remove { index, old_value: key };
        proof {
            let m0 = *old(self);
            let k0 = m0.keys();
            let k1 = self.keys();
            assert(k1 =~= k0.remove(index as int));
            self.history = Ghost(m0.history().push(self.items()));
            assert forall|i: int| 0 <= i < k1.len() implies self.values().contains_key(#[trigger] k1[i]) by {
                if i < index { assert(k1[i] == k0[i]); } else { assert(k1[i] == k0[i + 1]); }
            }
            assert forall|a: int, b: int| 0 <= a < k1.len() && 0 <= b < k1.len() && a != b implies k1[a] != k1[b] by {
                let a0 = if a < index { a } else { a + 1 };
                let b0 = if b < index { b } else { b + 1 };
                assert(k1[a] == k0[a0]);
                assert(k1[b] == k0[b0]);
            }
            assert(self.items() =~= m0.items().remove(index as int));
            assert(!k1.contains(key)) by {
                if k1.contains(key) {
                    let j = choose|j: int| 0 <= j < k1.len() && k1[j] == key;
                    let j0 = if j < index { j } else { j + 1 };
                    assert(k1[j] == k0[j0]);
                }
            }
            assert forall|i: int|
                0 <= i < retained.len() && (#[trigger] old_key(retained[i])) is Some implies {
                    let k = old_key(retained[i])->Some_0;
                    !self.keys().contains(k) && !refers_to(c, k)
                } by {
                let k = old_key(retained[i])->Some_0;
                assert(!k0.contains(k));
                assert(k0.contains(key));
                if k1.contains(k) {
                    let j = choose|j: int| 0 <= j < k1.len() && k1[j] == k;
                    let j0 = if j < index { j } else { j + 1 };
                    assert(k1[j] == k0[j0]);
                }
            }
            assert(self.values().contains_key(key));
            lemma_push_keeps_inv(m0, retained, *self, c);
        }
        c
    }

    /// Replaces the value at `index` and returns the change that records it; the old value
    /// stays stored until the change is released.
    fn set_entry(&mut self, index: usize, value: T, Ghost(retained): Ghost<Seq<ChangeData>>) -> (c: ChangeData)
        requires
            old(self).inv(retained),
            index < old(self).items().len(),
        ensures
            final(self).inv(retained.push(c)),
            values_grow(old(self).values(), final(self).values()),
            final(self).history() == old(self).history().push(final(self).items()),
            final(self).items() == old(self).items().update(index as int, value),
            data_edit(c, final(self).values()) == (VecEdit::SetValue {
                index: index as int,
                value,
                old_value: old(self).items()[index as int],
            }),
            c matches ChangeData::SetValue { index: i, old_value, new_value } && i == index
                && old_value == old(self).keys()[index as int],
    {
        let old_value = self.items[index];
        let new_value = self.values.insert(value);
        self.items.set(index, new_value);
        let c = ChangeData::SetValue { index, old_value, new_value };
        proof {
            let m0 = *old(self);
            let k0 = m0.keys();
            let k1 = self.keys();
            assert(k1 =~= k0.update(index as int, new_value));
            self.history = Ghost(m0.history().push(self.items()));
            assert(m0.values().contains_key(old_value));
            assert forall|i: int| 0 <= i < k1.len() implies self.values().contains_key(#[trigger] k1[i]) by {
                if i != index { assert(k1[i] == k0[i]); }
            }
            assert forall|a: int, b: int| 0 <= a < k1.len() && 0 <= b < k1.len() && a != b implies k1[a] != k1[b] by {
                if a != index && b != index {
                } else if a == index {
                    assert(m0.values().contains_key(k0[b]));
                } else {
                    assert(m0.values().contains_key(k0[a]));
                }
            }
            assert(self.items() =~= m0.items().update(index as int, value)) by {
                assert forall|i: int| 0 <= i < k1.len() implies #[trigger] self.items()[i] == m0.items().update(index as int, value)[i] by {
                    if i != index { assert(m0.values().contains_key(k0[i])); }
                }
            }
            assert(!k1.contains(old_value)) by {
                if k1.contains(old_value) {
                    let j = choose|j: int| 0 <= j < k1.len() && k1[j] == old_value;
                    assert(j != index);
                    assert(k0[j] == k0[index as int]);
                }
            }
            assert forall|i: int|
                0 <= i < retained.len() && (#[trigger] old_key(retained[i])) is Some implies {
                    let k = old_key(retained[i])->Some_0;
                    !self.keys().contains(k) && !refers_to(c, k)
                } by {
                let k = old_key(retained[i])->Some_0;
                assert(refers_to(retained[i], k));
                assert(m0.values().contains_key(k));
                assert(!k0.contains(k));
                assert(k0.contains(old_value));
                if k1.contains(k) {
                    let j = choose|j: int| 0 <= j < k1.len() && k1[j] == k;
                    if j != index { assert(k1[j] == k0[j]); }
                }
            }
            lemma_push_keeps_inv(m0, retained, *self, c);
        }
        c
    }

    /// Swaps the items at two different indices and returns the change that records it.
    fn swap_entries(&mut self, index0: usize, index1: usize, Ghost(retained): Ghost<Seq<ChangeData>>) -> (c: ChangeData)
        requires
            old(self).inv(retained),
            index0 < old(self).items().len(),
            index1 < old(self).items().len(),
            index0 != index1,
        ensures
            final(self).inv(retained.push(c)),
            values_grow(old(self).values(), final(self).values()),
            final(self).history() == old(self).history().push(final(self).items()),
            final(self).items() == apply_edit(
                old(self).items(),
                VecEdit::Swap { index0: index0 as int, index1: index1 as int },
            ),
            data_edit(c, final(self).values()) == (VecEdit::<T>::Swap { index0: index0 as int, index1: index1 as int }),
    {
        let key0 = self.items[index0];
        let key1 = self.items[index1];
        self.items.set(index0, key1);
        self.items.set(index1, key0);
        let c = ChangeData::Swap { index: (index0, index1) };
        proof {
            let m0 = *old(self);
            let k0 = m0.keys();
            let k1 = self.keys();
            self.history = Ghost(m0.history().push(self.items()));
            assert forall|i: int| 0 <= i < k1.len() implies self.values().contains_key(#[trigger] k1[i]) by {
                if i != index0 && i != index1 { assert(k1[i] == k0[i]); }
            }
            assert forall|a: int, b: int| 0 <= a < k1.len() && 0 <= b < k1.len() && a != b implies k1[a] != k1[b] by {
                let a0 = if a == index0 { index1 as int } else if a == index1 { index0 as int } else { a };
                let b0 = if b == index0 { index1 as int } else if b == index1 { index0 as int } else { b };
                assert(k1[a] == k0[a0]);
                assert(k1[b] == k0[b0]);
            }
            assert(self.items() =~= apply_edit(m0.items(), VecEdit::Swap { index0: index0 as int, index1: index1 as int }));
            assert forall|i: int|
                0 <= i < retained.len() && (#[trigger] old_key(retained[i])) is Some implies {
                    let k = old_key(retained[i])->Some_0;
                    !self.keys().contains(k) && !refers_to(c, k)
                } by {
                let k = old_key(retained[i])->Some_0;
                assert(!k0.contains(k));
                if k1.contains(k) {
                    let j = choose|j: int| 0 <= j < k1.len() && k1[j] == k;
                    let j0 = if j == index0 { index1 as int } else if j == index1 { index0 as int } else { j };
                    assert(k1[j] == k0[j0]);
                }
            }
            lemma_push_keeps_inv(m0, retained, *self, c);
        }
        c
    }

    /// Moves the item at `old_index` to `new_index` and returns the change that records it.
    fn move_entry(&mut self, old_index: usize, new_index: usize, Ghost(retained): Ghost<Seq<ChangeData>>) -> (c: ChangeData)
        requires
            old(self).inv(retained),
            old_index < old(self).items().len(),
            new_index < old(self).items().len(),
            old_index != new_index,
        ensures
            final(self).inv(retained.push(c)),
            values_grow(old(self).values(), final(self).values()),
            final(self).history() == old(self).history().push(final(self).items()),
            final(self).items() == apply_edit(
                old(self).items(),
                VecEdit::Move { old_index: old_index as int, new_index: new_index as int },
            ),
            data_edit(c, final(self).values()) == (VecEdit::<T>::Move { old_index: old_index as int, new_index: new_index as int }),
    {
        let key = self.items.remove(old_index);
        self.items.insert(new_index, key);
        let c = ChangeData::Move { old_index, new_index };
        proof {
            let m0 = *old(self);
            let k0 = m0.keys();
            let k1 = self.keys();
            let mid = k0.remove(old_index as int);
            assert(k1 =~= mid.insert(new_index as int, key));
            self.history = Ghost(m0.history().push(self.items()));
            // position in the old keys of the key now at index i
            assert forall|i: int| 0 <= i < k1.len() implies #[trigger] k1[i] == k0[move_source(i, old_index as int, new_index as int)] by {
                if i < new_index { assert(k1[i] == mid[i]); }
                else if i > new_index { assert(k1[i] == mid[i - 1]); }
            }
            assert forall|i: int| 0 <= i < k1.len() implies self.values().contains_key(#[trigger] k1[i]) by {
                assert(k1[i] == k0[move_source(i, old_index as int, new_index as int)]);
            }
            assert forall|a: int, b: int| 0 <= a < k1.len() && 0 <= b < k1.len() && a != b implies k1[a] != k1[b] by {
                assert(k1[a] == k0[move_source(a, old_index as int, new_index as int)]);
                assert(k1[b] == k0[move_source(b, old_index as int, new_index as int)]);
            }
            let e = VecEdit::<T>::Move { old_index: old_index as int, new_index: new_index as int };
            assert(self.items() =~= apply_edit(m0.items(), e)) by {
                let s0 = m0.items();
                let smid = s0.remove(old_index as int);
                assert forall|i: int| 0 <= i < k1.len() implies #[trigger] self.items()[i] == apply_edit(m0.items(), e)[i] by {
                    if i < new_index { assert(apply_edit(m0.items(), e)[i] == smid[i]); }
                    else if i > new_index { assert(apply_edit(m0.items(), e)[i] == smid[i - 1]); }
                    assert(k1[i] == k0[move_source(i, old_index as int, new_index as int)]);
                }
            }
            assert forall|i: int|
                0 <= i < retained.len() && (#[trigger] old_key(retained[i])) is Some implies {
                    let k = old_key(retained[i])->Some_0;
                    !self.keys().contains(k) && !refers_to(c, k)
                } by {
                let k = old_key(retained[i])->Some_0;
                assert(!k0.contains(k));
                if k1.contains(k) {
                    let j = choose|j: int| 0 <= j < k1.len() && k1[j] == k;
                    assert(k1[j] == k0[move_source(j, old_index as int, new_index as int)]);
                }
            }
            lemma_push_keeps_inv(m0, retained, *self, c);
        }
        c
    }
}

impl<T> VecModel<T> {
    /// Reorders the items by a permutation that is not the identity and returns the change
    /// that records it.
    fn sort_entries(&mut self, new_to_old: Vec<usize>, Ghost(retained): Ghost<Seq<ChangeData>>) -> (c: ChangeData)
        requires
            old(self).inv(retained),
            is_permutation(new_to_old@, old(self).items().len()),
        ensures
            final(self).inv(retained.push(c)),
            values_grow(old(self).values(), final(self).values()),
            final(self).history() == old(self).history().push(final(self).items()),
            final(self).items() == apply_edit(old(self).items(), VecEdit::Sort { new_to_old: new_to_old@ }),
            data_edit(c, final(self).values()) == (VecEdit::<T>::Sort { new_to_old: new_to_old@ }),
    {
        let n = self.items.len();
        let mut keys: Vec<usize> = Vec::new();
        let mut i: usize = 0;
        while i < n
            invariant
                n == self.items@.len(),
                is_permutation(new_to_old@, n as nat),
                i <= n,
                keys@.len() == i,
                forall|j: int| 0 <= j < i ==> #[trigger] keys@[j] == self.items@[new_to_old@[j] as int],
            decreases n - i,
        {
            let from = new_to_old[i];
            keys.push(self.items[from]);
            i = i + 1;
        }
        let ghost p = new_to_old@;
        self.items = keys;
        let c = ChangeData::Sort { new_to_old: IndexNewToOld(new_to_old) };
        proof {
            let m0 = *old(self);
            let k0 = m0.keys();
            let k1 = self.keys();
            self.history = Ghost(m0.history().push(self.items()));
            assert forall|i: int| 0 <= i < k1.len() implies self.values().contains_key(#[trigger] k1[i]) by {
                assert(k1[i] == k0[p[i] as int]);
            }
            assert forall|a: int, b: int| 0 <= a < k1.len() && 0 <= b < k1.len() && a != b implies k1[a] != k1[b] by {
                assert(k1[a] == k0[p[a] as int]);
                assert(k1[b] == k0[p[b] as int]);
            }
            assert(self.items() =~= apply_edit(m0.items(), VecEdit::Sort { new_to_old: p }));
            assert forall|i: int|
                0 <= i < retained.len() && (#[trigger] old_key(retained[i])) is Some implies {
                    let k = old_key(retained[i])->Some_0;
                    !self.keys().contains(k) && !refers_to(c, k)
                } by {
                let k = old_key(retained[i])->Some_0;
                assert(!k0.contains(k));
                if k1.contains(k) {
                    let j = choose|j: int| 0 <= j < k1.len() && k1[j] == k;
                    assert(k1[j] == k0[p[j] as int]);
                }
            }
            lemma_push_keeps_inv(m0, retained, *self, c);
        }
        c
    }

    /// Computes the order the items would have after a stable sort by `compare`: entry `i`
    /// of the result is the current index of the item that would be at index `i`.
    fn sort_permutation<F>(&self, compare: &F) -> (r: Vec<usize>)
        where
            F: Fn(&T, &T) -> std::cmp::Ordering,
        requires
            self.items_wf(),
            forall|a: &T, b: &T| compare.requires((a, b)),
        ensures
            is_permutation(r@, self.items().len()),
            forall|le: spec_fn(T, T) -> bool|
                #[trigger] compare_agrees(*compare, le) && is_total_preorder(le) ==> sorts_stably(le, self.items(), r@),
    {
        let n = self.items.len();
        let mut p: Vec<usize> = Vec::new();
        let mut i: usize = 0;
        while i < n
            invariant
                self.items_wf(),
                forall|a: &T, b: &T| compare.requires((a, b)),
                n == self.items().len(),
                i <= n,
                p@.len() == i,
                p@.no_duplicates(),
                forall|j: int| 0 <= j < p@.len() ==> #[trigger] p@[j] < i,
                forall|le: spec_fn(T, T) -> bool|
                    #[trigger] compare_agrees(*compare, le) && is_total_preorder(le) ==> sorts_stably(le, self.items(), p@),
            decreases n - i,
        {
            let item = self.get(i).unwrap();
            let mut pos: usize = 0;
            let mut stop = false;
            while !stop && pos < p.len()
                invariant
                    pos <= p@.len(),
                    p@.len() == i,
                    i < n,
                    self.items_wf(),
                    n == self.items().len(),
                    *item == item_at(self.items(), i),
                    forall|j: int| 0 <= j < p@.len() ==> #[trigger] p@[j] < i,
                    forall|a: &T, b: &T| compare.requires((a, b)),
                    forall|le: spec_fn(T, T) -> bool|
                        #[trigger] compare_agrees(*compare, le) && is_total_preorder(le) ==> all_before(le, self.items(), p@, pos, *item),
                    stop ==> forall|le: spec_fn(T, T) -> bool|
                        #[trigger] compare_agrees(*compare, le) && is_total_preorder(le) ==> not_before(le, self.items(), p@, pos, *item),
                decreases p@.len() - pos + (if stop { 0int } else { 1int }),
            {
                let other = self.get(p[pos]).unwrap();
                let o = compare(other, item);
                match o {
                    std::cmp::Ordering::Greater => {
                        assert forall|le: spec_fn(T, T) -> bool|
                            #[trigger] compare_agrees(*compare, le) && is_total_preorder(le) implies not_before(le, self.items(), p@, pos, *item) by {
                            assert(compare.ensures((other, item), o));
                        }
                        stop = true;
                    },
                    _ => {
                        let ghost at = pos;
                        pos = pos + 1;
                        assert forall|le: spec_fn(T, T) -> bool|
                            #[trigger] compare_agrees(*compare, le) && is_total_preorder(le) implies all_before(le, self.items(), p@, pos, *item) by {
                            assert(compare.ensures((other, item), o));
                            lemma_all_before_extend(le, self.items(), p@, at, *item);
                        }
                    },
                }
            }
            let ghost p0 = p@;
            p.insert(pos, i);
            proof {
                lemma_insert_fresh_index(p0, pos, i);
                assert forall|le: spec_fn(T, T) -> bool|
                    #[trigger] compare_agrees(*compare, le) && is_total_preorder(le) implies sorts_stably(le, self.items(), p@) by {
                    lemma_insert_in_order(le, self.items(), p0, pos, i);
                }
            }
            i = i + 1;
        }
        p
    }
}

/// Inserting `i` into a duplicate-free sequence of indices below `i` gives a duplicate-free
/// sequence of indices below `i + 1`.
proof fn lemma_insert_fresh_index(p0: Seq<usize>, pos: usize, i: usize)
    requires
        pos <= p0.len(),
        p0.no_duplicates(),
        forall|j: int| 0 <= j < p0.len() ==> #[trigger] p0[j] < i,
    ensures
        p0.insert(pos as int, i).no_duplicates(),
        forall|j: int| 0 <= j < p0.len() + 1 ==> #[trigger] p0.insert(pos as int, i)[j] < i + 1,
{
    let p = p0.insert(pos as int, i);
    assert forall|j: int| 0 <= j < p.len() implies #[trigger] p[j] < i + 1 by {
        if j < pos { assert(p[j] == p0[j]); } else if j > pos { assert(p[j] == p0[j - 1]); }
    }
    assert forall|a: int, b: int| 0 <= a < p.len() && 0 <= b < p.len() && a != b implies p[a] != p[b] by {
        let a0 = if a < pos { a } else { a - 1 };
        let b0 = if b < pos { b } else { b - 1 };
        if a != pos && b != pos {
            assert(p[a] == p0[a0]);
            assert(p[b] == p0[b0]);
        } else if a == pos {
            assert(p[b] == p0[b0]);
        } else {
            assert(p[a] == p0[a0]);
        }
    }
}

/// The permutation leaves every index where it is.
pub open spec fn is_identity(p: Seq<usize>) -> bool {
    forall|i: int| 0 <= i < p.len() ==> #[trigger] p[i] == i
}

/// Returns whether the permutation leaves every index where it is.
fn is_identity_exec(p: &Vec<usize>) -> (r: bool)
    ensures
        r == is_identity(p@),
{
    let mut i: usize = 0;
    while i < p.len()
        invariant
            i <= p@.len(),
            forall|j: int| 0 <= j < i ==> #[trigger] p@[j] == j,
        decreases p@.len() - i,
    {
        if p[i] != i {
            return false;
        }
        i = i + 1;
    }
    true
}

/// Sorting by the identity permutation leaves the items unchanged.
pub proof fn lemma_identity_sort<T>(s: Seq<T>, p: Seq<usize>)
    requires
        is_identity(p),
        p.len() == s.len(),
    ensures
        apply_edit(s, VecEdit::Sort { new_to_old: p }) == s,
{
    assert(apply_edit(s, VecEdit::Sort { new_to_old: p }) =~= s);
}

/// A mutable borrow of a vector's items that records every edit as a change.
pub struct ItemsMut<'a, T> {
    pub data: ChangeFeedRefMut<'a, VecModel<T>>,
}

impl<'a, T> ItemsMut<'a, T> {
    /// The vector's model as this borrow currently sees it.
    pub open spec fn model(&self) -> VecModel<T> {
        self.data.storage().current()
    }

    /// The current items.
    pub open spec fn items(&self) -> Seq<T> {
        self.model().items()
    }

    /// Every change ever recorded for the vector.
    pub open spec fn log(&self) -> Seq<ChangeData> {
        self.data.storage().log()
    }

    pub open spec fn inv(&self) -> bool {
        &&& self.data.inv()
        &&& self.model().inv(self.data.storage().retained())
    }

    /// There is room to record `n` more changes.
    pub open spec fn has_room(&self, n: nat) -> bool {
        self.data.storage().end() + n <= usize::MAX
    }

    /// This borrow differs from `before` by exactly one recorded change, which stands for `e`;
    /// readers and the borrow's start are untouched.
    pub open spec fn recorded(&self, before: Self, e: VecEdit<T>) -> bool {
        &&& self.log().len() == before.log().len() + 1
        &&& self.log().drop_last() == before.log()
        &&& data_edit(self.log().last(), self.model().values()) == e
        &&& self.data.storage().readers() == before.data.storage().readers()
        &&& self.data.storage().start() == before.data.storage().start()
        &&& self.data.begin() == before.data.begin()
        &&& values_grow(before.model().values(), self.model().values())
        &&& self.model().history() == before.model().history().push(self.items())
    }

    /// This borrow holds the items of `before` taken in the order `p` lists their indices:
    /// unchanged when `p` is the identity, otherwise with `p` recorded as one change.
    pub open spec fn reordered_from(&self, before: Self, p: Seq<usize>) -> bool {
        &&& is_permutation(p, before.items().len())
        &&& apply_edit(before.items(), VecEdit::Sort { new_to_old: p }) == self.items()
        &&& is_identity(p) ==> *self == before
        &&& !is_identity(p) ==> self.recorded(before, VecEdit::Sort { new_to_old: p })
    }

    /// Returns the number of items.
    pub fn len(&self) -> (r: usize)
        ensures
            r == self.items().len(),
    {
        self.data.current().len()
    }

    pub fn is_empty(&self) -> (r: bool)
        ensures
            r == (self.items().len() == 0),
    {
        self.len() == 0
    }

    /// Returns the item at `index`, if any.
    pub fn get(&self, index: usize) -> (r: Option<&T>)
        requires
            self.inv(),
        ensures
            r == (if index < self.items().len() { Some(&self.items()[index as int]) } else { None }),
    {
        self.data.current().get(index)
    }

    /// Ends the edit: releases every change, and every value it removed or replaced, that no
    /// reader still has to read; returns whether the edit recorded any change, in which case the
    /// vector's dependants have to be notified.
    pub fn finish(self) -> (dirty: bool)
        requires
            self.inv(),
        ensures
            dirty == (self.data.edit_changes().len() > 0),
            final(self.data.storage).wf(),
            final(self.data.storage).current().inv(final(self.data.storage).retained()),
            final(self.data.storage).current().items() == self.items(),
            final(self.data.storage).log() == self.log(),
            final(self.data.storage).readers() == self.data.storage().readers(),
            final(self.data.storage).start() == crate::change_feed::min_cursor(
                self.data.storage().readers(),
                self.data.storage().end(),
            ),
    {
        let dirty = self.data.is_dirty();
        let storage = self.data.storage;
        let ghost before = *storage;
        storage.compact();
        proof {
            StateVec::<T>::lemma_compaction(before, *storage);
        }
        dirty
    }

    /// Returns whether this borrow recorded any change.
    pub fn is_dirty(&self) -> (r: bool)
        requires
            self.inv(),
        ensures
            r == (self.data.edit_changes().len() > 0),
    {
        self.data.is_dirty()
    }

    /// Inserts `value` at `index`, shifting later items right.
    pub fn insert(&mut self, index: usize, value: T)
        requires
            old(self).inv(),
            old(self).has_room(1),
            index <= old(self).items().len(),
        ensures
            final(self).inv(),
            final(self).items() == old(self).items().insert(index as int, value),
            final(self).recorded(*old(self), VecEdit::Insert { index: index as int, value }),
            *final(final(self).data.storage) == *final(old(self).data.storage),
    {
        let ghost retained = self.data.storage().retained();
        let m = self.data.current_mut();
        let c = m.insert_entry(index, value, Ghost(retained));
        self.data.record(c);
        assert(self.data.storage().retained() =~= retained.push(c));
        assert(self.log().drop_last() =~= old(self).log());
    }

    /// Appends `value`.
    pub fn push(&mut self, value: T)
        requires
            old(self).inv(),
            old(self).has_room(1),
        ensures
            final(self).inv(),
            final(self).items() == old(self).items().push(value),
            final(self).recorded(
                *old(self),
                VecEdit::Insert { index: old(self).items().len() as int, value },
            ),
            *final(final(self).data.storage) == *final(old(self).data.storage),
    {
        let len = self.len();
        self.insert(len, value);
        assert(old(self).items().insert(len as int, value) =~= old(self).items().push(value));
    }

    /// Removes the item at `index`, shifting later items left.
    pub fn remove(&mut self, index: usize)
        requires
            old(self).inv(),
            old(self).has_room(1),
            index < old(self).items().len(),
        ensures
            final(self).inv(),
            final(self).items() == old(self).items().remove(index as int),
            final(self).recorded(
                *old(self),
                VecEdit::Remove { index: index as int, old_value: old(self).items()[index as int] },
            ),
            *final(final(self).data.storage) == *final(old(self).data.storage),
    {
        let ghost retained = self.data.storage().retained();
        let m = self.data.current_mut();
        let c = m.remove_entry(index, Ghost(retained));
        self.data.record(c);
        assert(self.data.storage().retained() =~= retained.push(c));
        assert(self.log().drop_last() =~= old(self).log());
    }

    /// Replaces the item at `index` with `value`.
    pub fn set(&mut self, index: usize, value: T)
        requires
            old(self).inv(),
            old(self).has_room(1),
            index < old(self).items().len(),
        ensures
            final(self).inv(),
            final(self).items() == old(self).items().update(index as int, value),
            final(self).recorded(
                *old(self),
                VecEdit::SetValue { index: index as int, value, old_value: old(self).items()[index as int] },
            ),
            *final(final(self).data.storage) == *final(old(self).data.storage),
    {
        let ghost retained = self.data.storage().retained();
        let m = self.data.current_mut();
        let c = m.set_entry(index, value, Ghost(retained));
        self.data.record(c);
        assert(self.data.storage().retained() =~= retained.push(c));
        assert(self.log().drop_last() =~= old(self).log());
    }

    /// Swaps two items; swapping an item with itself records nothing.
    pub fn swap(&mut self, index0: usize, index1: usize)
        requires
            old(self).inv(),
            old(self).has_room(1),
            index0 < old(self).items().len(),
            index1 < old(self).items().len(),
        ensures
            final(self).inv(),
            final(self).items() == apply_edit(
                old(self).items(),
                VecEdit::Swap { index0: index0 as int, index1: index1 as int },
            ),
            index0 == index1 ==> *final(self) == *old(self),
            index0 != index1 ==> final(self).recorded(
                *old(self),
                VecEdit::Swap { index0: index0 as int, index1: index1 as int },
            ),
            *final(final(self).data.storage) == *final(old(self).data.storage),
    {
        if index0 == index1 {
            assert(apply_edit(old(self).items(), VecEdit::Swap { index0: index0 as int, index1: index1 as int })
                =~= old(self).items());
            return;
        }
        let ghost retained = self.data.storage().retained();
        let m = self.data.current_mut();
        let c = m.swap_entries(index0, index1, Ghost(retained));
        self.data.record(c);
        assert(self.data.storage().retained() =~= retained.push(c));
        assert(self.log().drop_last() =~= old(self).log());
    }

    /// Moves the item at `old_index` to `new_index`; a move to the same index records nothing.
    pub fn move_item(&mut self, old_index: usize, new_index: usize)
        requires
            old(self).inv(),
            old(self).has_room(1),
            old_index < old(self).items().len(),
            new_index < old(self).items().len(),
        ensures
            final(self).inv(),
            final(self).items() == apply_edit(
                old(self).items(),
                VecEdit::Move { old_index: old_index as int, new_index: new_index as int },
            ),
            old_index == new_index ==> *final(self) == *old(self),
            old_index != new_index ==> final(self).recorded(
                *old(self),
                VecEdit::Move { old_index: old_index as int, new_index: new_index as int },
            ),
            *final(final(self).data.storage) == *final(old(self).data.storage),
    {
        if old_index == new_index {
            assert(apply_edit(old(self).items(), VecEdit::Move { old_index: old_index as int, new_index: new_index as int })
                =~= old(self).items());
            return;
        }
        let ghost retained = self.data.storage().retained();
        let m = self.data.current_mut();
        let c = m.move_entry(old_index, new_index, Ghost(retained));
        self.data.record(c);
        assert(self.data.storage().retained() =~= retained.push(c));
        assert(self.log().drop_last() =~= old(self).log());
    }

    /// Removes the item at `index` by moving the last item into its place.
    pub fn swap_remove(&mut self, index: usize)
        requires
            old(self).inv(),
            old(self).has_room(2),
            index < old(self).items().len(),
        ensures
            final(self).inv(),
            final(self).items() == old(self).items().update(
                index as int,
                old(self).items().last(),
            ).drop_last(),
            final(self).log().take(old(self).log().len() as int) == old(self).log(),
            data_edits(final(self).log().skip(old(self).log().len() as int), final(self).model().values()) == (if index
                + 1 == old(self).items().len() {
                seq![VecEdit::<T>::Remove { index: index as int, old_value: old(self).items()[index as int] }]
            } else {
                seq![
                    VecEdit::<T>::Swap { index0: index as int, index1: old(self).items().len() - 1 },
                    VecEdit::<T>::Remove {
                        index: old(self).items().len() - 1,
                        old_value: old(self).items()[index as int],
                    },
                ]
            }),
            final(self).data.storage().readers() == old(self).data.storage().readers(),
            final(self).data.storage().start() == old(self).data.storage().start(),
            final(self).data.begin() == old(self).data.begin(),
            *final(final(self).data.storage) == *final(old(self).data.storage),
    {
        let ghost n0 = old(self).log().len();
        let last = self.len() - 1;
        self.swap(index, last);
        let ghost mid = *self;
        self.remove(last);
        proof {
            if index != last {
                lemma_retained_edit_stable(mid, *self, n0 as int);
                assert(self.log().skip(n0 as int) =~= seq![self.log()[n0 as int], self.log().last()]);
                assert(data_edits(self.log().skip(n0 as int), self.model().values()) =~= seq![
                    VecEdit::<T>::Swap { index0: index as int, index1: last as int },
                    VecEdit::<T>::Remove { index: last as int, old_value: old(self).items()[index as int] },
                ]);
                assert(self.log().take(n0 as int) =~= old(self).log());
            } else {
                assert(self.log().skip(n0 as int) =~= seq![self.log().last()]);
                assert(data_edits(self.log().skip(n0 as int), self.model().values()) =~= seq![
                    VecEdit::<T>::Remove { index: last as int, old_value: old(self).items()[index as int] },
                ]);
                assert(self.log().take(n0 as int) =~= old(self).log());
            }
        }
        assert(self.items() =~= old(self).items().update(index as int, old(self).items().last()).drop_last());
    }

    /// Removes the items in `start..end`; every removal is recorded, the last index first.
    pub fn drain(&mut self, start: usize, end: usize)
        requires
            old(self).inv(),
            start <= end <= old(self).items().len(),
            old(self).has_room((end - start) as nat),
        ensures
            final(self).inv(),
            final(self).items() == old(self).items().subrange(0, start as int) + old(self).items().subrange(
                end as int,
                old(self).items().len() as int,
            ),
            final(self).log() == old(self).log() + final(self).log().skip(old(self).log().len() as int),
            data_edits(final(self).log().skip(old(self).log().len() as int), final(self).model().values())
                == Seq::new((end - start) as nat, |j: int| VecEdit::<T>::Remove { index: end - 1 - j, old_value: old(self).items()[end - 1 - j] }),
            final(self).data.storage().readers() == old(self).data.storage().readers(),
            final(self).data.storage().start() == old(self).data.storage().start(),
            final(self).data.begin() == old(self).data.begin(),
            *final(final(self).data.storage) == *final(old(self).data.storage),
    {
        let ghost n0 = old(self).log().len();
        let mut index = end;
        while index > start
            invariant
                self.inv(),
                start <= index <= end,
                end <= old(self).items().len(),
                old(self).data.storage().start() <= n0,
                self.items() == old(self).items().subrange(0, index as int) + old(self).items().subrange(
                    end as int,
                    old(self).items().len() as int,
                ),
                self.data.storage().end() + (index - start) <= usize::MAX,
                self.log().len() == n0 + (end - index),
                self.log().take(n0 as int) == old(self).log(),
                data_edits(self.log().skip(n0 as int), self.model().values())
                    == Seq::new((end - index) as nat, |j: int| VecEdit::<T>::Remove { index: end - 1 - j, old_value: old(self).items()[end - 1 - j] }),
                self.data.storage().readers() == old(self).data.storage().readers(),
                self.data.storage().start() == old(self).data.storage().start(),
                self.data.begin() == old(self).data.begin(),
                *final(self.data.storage) == *final(old(self).data.storage),
            decreases index,
        {
            let ghost before = *self;
            index = index - 1;
            self.remove(index);
            proof {
                let prefix = old(self).items().subrange(0, index as int + 1);
                let suffix = old(self).items().subrange(end as int, old(self).items().len() as int);
                assert(self.items() =~= old(self).items().subrange(0, index as int) + suffix) by {
                    assert((prefix + suffix).remove(index as int) =~= old(self).items().subrange(0, index as int) + suffix);
                }
                assert(self.log().take(n0 as int) =~= before.log().take(n0 as int));
                let new_tail = self.log().skip(n0 as int);
                let old_tail = before.log().skip(n0 as int);
                assert(new_tail =~= old_tail.push(self.log().last()));
                assert forall|j: int| 0 <= j < old_tail.len() implies data_edit(#[trigger] old_tail[j], self.model().values())
                    == data_edit(old_tail[j], before.model().values()) by {
                    let r = self.data.storage().retained();
                    lemma_retained_edit_stable(before, *self, n0 + j);
                }
                assert forall|j: int| 0 <= j < new_tail.len() implies #[trigger] data_edits(new_tail, self.model().values())[j]
                    == VecEdit::<T>::Remove { index: end - 1 - j, old_value: old(self).items()[end - 1 - j] } by {
                    if j < old_tail.len() {
                        assert(new_tail[j] == old_tail[j]);
                        assert(data_edits(old_tail, before.model().values())[j] == VecEdit::<T>::Remove { index: end - 1 - j, old_value: old(self).items()[end - 1 - j] });
                    }
                }
                assert(data_edits(new_tail, self.model().values()) =~= Seq::new(
                    (end - index) as nat,
                    |j: int| VecEdit::<T>::Remove { index: end - 1 - j, old_value: old(self).items()[end - 1 - j] },
                ));
            }
        }
        assert(self.log() =~= old(self).log() + self.log().skip(n0 as int));
        assert(old(self).items().subrange(0, start as int) + old(self).items().subrange(end as int, old(self).items().len() as int)
            == self.items());
    }

    /// Removes every item.
    pub fn clear(&mut self)
        requires
            old(self).inv(),
            old(self).has_room(old(self).items().len()),
        ensures
            final(self).inv(),
            final(self).items() == Seq::<T>::empty(),
            final(self).log() == old(self).log() + final(self).log().skip(old(self).log().len() as int),
            data_edits(final(self).log().skip(old(self).log().len() as int), final(self).model().values())
                == Seq::new(
                old(self).items().len(),
                |j: int| VecEdit::<T>::Remove {
                    index: old(self).items().len() - 1 - j,
                    old_value: old(self).items()[old(self).items().len() - 1 - j],
                },
            ),
            final(self).data.storage().readers() == old(self).data.storage().readers(),
            final(self).data.storage().start() == old(self).data.storage().start(),
            final(self).data.begin() == old(self).data.begin(),
            *final(final(self).data.storage) == *final(old(self).data.storage),
    {
        let len = self.len();
        self.drain(0, len);
        assert(old(self).items().subrange(0, 0) + old(self).items().subrange(len as int, len as int) =~= Seq::<T>::empty());
    }

    /// Appends `values`, in order; every insertion is recorded.
    pub fn extend(&mut self, values: Vec<T>)
        requires
            old(self).inv(),
            old(self).has_room(values@.len()),
        ensures
            final(self).inv(),
            final(self).items() == old(self).items() + values@,
            final(self).log() == old(self).log() + final(self).log().skip(old(self).log().len() as int),
            data_edits(final(self).log().skip(old(self).log().len() as int), final(self).model().values())
                == Seq::new(
                values@.len(),
                |j: int| VecEdit::Insert { index: old(self).items().len() + j, value: values@[j] },
            ),
            final(self).data.storage().readers() == old(self).data.storage().readers(),
            final(self).data.storage().start() == old(self).data.storage().start(),
            final(self).data.begin() == old(self).data.begin(),
            *final(final(self).data.storage) == *final(old(self).data.storage),
    {
        let ghost n0 = old(self).log().len();
        let ghost len0 = old(self).items().len();
        let ghost all = values@;
        let mut rest = values;
        while rest.len() > 0
            invariant
                self.inv(),
                old(self).data.storage().start() <= n0,
                all.len() >= rest@.len(),
                rest@ == all.skip(all.len() - rest@.len()),
                self.items() == old(self).items() + all.take(all.len() - rest@.len()),
                self.data.storage().end() + rest@.len() <= usize::MAX,
                self.log().len() == n0 + (all.len() - rest@.len()),
                self.log().take(n0 as int) == old(self).log(),
                data_edits(self.log().skip(n0 as int), self.model().values()) == Seq::new(
                    (all.len() - rest@.len()) as nat,
                    |j: int| VecEdit::Insert { index: len0 + j, value: all[j] },
                ),
                len0 == old(self).items().len(),
                self.data.storage().readers() == old(self).data.storage().readers(),
                self.data.storage().start() == old(self).data.storage().start(),
                self.data.begin() == old(self).data.begin(),
                *final(self.data.storage) == *final(old(self).data.storage),
            decreases rest@.len(),
        {
            let ghost before = *self;
            let ghost done = (all.len() - rest@.len()) as int;
            let value = rest.remove(0);
            assert(value == all[done]);
            self.push(value);
            proof {
                assert(rest@ =~= all.skip(all.len() - rest@.len()));
                assert(all.take(done + 1) =~= all.take(done).push(value));
                assert(self.items() =~= old(self).items() + all.take(done + 1));
                assert(self.log().take(n0 as int) =~= before.log().take(n0 as int));
                let new_tail = self.log().skip(n0 as int);
                let old_tail = before.log().skip(n0 as int);
                assert(new_tail =~= old_tail.push(self.log().last()));
                assert forall|j: int| 0 <= j < old_tail.len() implies data_edit(#[trigger] old_tail[j], self.model().values())
                    == data_edit(old_tail[j], before.model().values()) by {
                    lemma_retained_edit_stable(before, *self, n0 + j);
                }
                assert forall|j: int| 0 <= j < new_tail.len() implies #[trigger] data_edits(new_tail, self.model().values())[j]
                    == VecEdit::Insert { index: len0 + j, value: all[j] } by {
                    if j < old_tail.len() {
                        assert(new_tail[j] == old_tail[j]);
                        assert(data_edits(old_tail, before.model().values())[j] == VecEdit::Insert {
                            index: len0 + j,
                            value: all[j],
                        });
                    }
                }
                assert(data_edits(new_tail, self.model().values()) =~= Seq::new(
                    (done + 1) as nat,
                    |j: int| VecEdit::Insert { index: len0 + j, value: all[j] },
                ));
            }
        }
        assert(all.take(all.len() as int) =~= all);
        assert(self.log() =~= old(self).log() + self.log().skip(n0 as int));
    }

    /// Sorts the items stably by `compare` and returns the order applied; for every order that
    /// `compare` agrees with, that order is a stable sort of the items.
    fn sort_agreeing<F>(&mut self, compare: F) -> (p: Ghost<Seq<usize>>)
        where
            F: Fn(&T, &T) -> std::cmp::Ordering,
        requires
            old(self).inv(),
            old(self).has_room(1),
            forall|a: &T, b: &T| compare.requires((a, b)),
        ensures
            final(self).inv(),
            final(self).reordered_from(*old(self), p@),
            forall|le: spec_fn(T, T) -> bool|
                #[trigger] compare_agrees(compare, le) && is_total_preorder(le) ==> sorts_stably(le, old(self).items(), p@),
            *final(final(self).data.storage) == *final(old(self).data.storage),
    {
        let r = self.data.current().sort_permutation(&compare);
        let ghost pv = r@;
        if is_identity_exec(&r) {
            proof {
                lemma_identity_sort(old(self).items(), pv);
            }
            return Ghost(pv);
        }
        let ghost retained = self.data.storage().retained();
        let m = self.data.current_mut();
        let c = m.sort_entries(r, Ghost(retained));
        self.data.record(c);
        assert(self.data.storage().retained() =~= retained.push(c));
        assert(self.log().drop_last() =~= old(self).log());
        assert(apply_edit(old(self).items(), VecEdit::Sort { new_to_old: pv }) == self.items());
        Ghost(pv)
    }

    /// Sorts the items by `compare`, keeping equal items in order; records the permutation
    /// unless the items are already in order.
    ///
    /// Where `compare` ranks values in a total order, the items end in that order, items it
    /// ranks alike keep their order, and items already in order are left as they are.
    pub fn sort_by<F>(&mut self, compare: F)
        where
            F: Fn(&T, &T) -> std::cmp::Ordering,
        requires
            old(self).inv(),
            old(self).has_room(1),
            forall|a: &T, b: &T| compare.requires((a, b)),
        ensures
            final(self).inv(),
            exists|p: Seq<usize>|
                #[trigger] final(self).reordered_from(*old(self), p) && (orders_totally(compare) ==> perm_stable(
                    ranked_by(compare),
                    old(self).items(),
                    p,
                )),
            orders_totally(compare) ==> sorted_by(ranked_by(compare), final(self).items()),
            orders_totally(compare) && sorted_by(ranked_by(compare), old(self).items()) ==> *final(self) == *old(self),
            *final(final(self).data.storage) == *final(old(self).data.storage),
    {
        let ghost g = compare;
        let p = self.sort_agreeing(compare);
        proof {
            if orders_totally(g) {
                lemma_ranked_by_agrees(g);
                lemma_sorted_after_sort(ranked_by(g), old(self).items(), p@);
            }
            assert(self.reordered_from(*old(self), p@));
        }
    }

    /// Sorts the items in their natural order, keeping equal items in order.
    ///
    /// Where `T` is ordered totally, the items end in order, equal items keep their order, and
    /// items already in order are left as they are.
    pub fn sort(&mut self)
        where
            T: Ord,
        requires
            old(self).inv(),
            old(self).has_room(1),
        ensures
            final(self).inv(),
            exists|p: Seq<usize>|
                #[trigger] final(self).reordered_from(*old(self), p) && (orders_naturally::<T>() ==> perm_stable(
                    natural_le::<T>(),
                    old(self).items(),
                    p,
                )),
            orders_naturally::<T>() ==> sorted_by(natural_le::<T>(), final(self).items()),
            orders_naturally::<T>() && sorted_by(natural_le::<T>(), old(self).items()) ==> *final(self) == *old(self),
            *final(final(self).data.storage) == *final(old(self).data.storage),
    {
        let compare = |a: &T, b: &T| -> (o: std::cmp::Ordering)
            ensures
                T::obeys_cmp_spec() ==> o == (*a).cmp_spec(&*b),
            { a.cmp(b) };
        let ghost g = compare;
        let p = self.sort_agreeing(compare);
        proof {
            if orders_naturally::<T>() {
                assert(compare_agrees(g, natural_le::<T>()));
                lemma_sorted_after_sort(natural_le::<T>(), old(self).items(), p@);
            }
            assert(self.reordered_from(*old(self), p@));
        }
    }

    /// Sorts the items by the key `key` extracts, keeping items with equal keys in order.
    ///
    /// Where `key` gives one key for each value and keys are ordered totally, the items end in
    /// the order of their keys, items with equal keys keep their order, and items already in
    /// that order are left as they are.
    pub fn sort_by_key<K: Ord, F>(&mut self, key: F)
        where
            F: Fn(&T) -> K,
        requires
            old(self).inv(),
            old(self).has_room(1),
            forall|a: &T| key.requires((a,)),
        ensures
            final(self).inv(),
            exists|p: Seq<usize>|
                #[trigger] final(self).reordered_from(*old(self), p) && forall|kf: spec_fn(T) -> K|
                    #[trigger] key_agrees(key, kf) && orders_naturally::<K>() ==> perm_stable(
                        keyed_le::<T, K>(kf),
                        old(self).items(),
                        p,
                    ),
            forall|kf: spec_fn(T) -> K|
                #[trigger] key_agrees(key, kf) && orders_naturally::<K>() ==> {
                    &&& sorted_by(keyed_le::<T, K>(kf), final(self).items())
                    &&& sorted_by(keyed_le::<T, K>(kf), old(self).items()) ==> *final(self) == *old(self)
                },
            *final(final(self).data.storage) == *final(old(self).data.storage),
    {
        let ghost kg = key;
        let compare = |a: &T, b: &T| -> (o: std::cmp::Ordering)
            ensures
                forall|kf: spec_fn(T) -> K|
                    #[trigger] key_agrees(*&key, kf) ==> (K::obeys_cmp_spec() ==> o == kf(*a).cmp_spec(&kf(*b))),
            {
                let ka = key(a);
                let kb = key(b);
                ka.cmp(&kb)
            };
        let ghost g = compare;
        let p = self.sort_agreeing(compare);
        proof {
            assert forall|kf: spec_fn(T) -> K|
                #[trigger] key_agrees(kg, kf) && orders_naturally::<K>() implies {
                    &&& sorted_by(keyed_le::<T, K>(kf), self.items())
                    &&& sorted_by(keyed_le::<T, K>(kf), old(self).items()) ==> *self == *old(self)
                    &&& perm_stable(keyed_le::<T, K>(kf), old(self).items(), p@)
                } by {
                lemma_keyed_total::<T, K>(kf);
                assert(compare_agrees(g, keyed_le::<T, K>(kf)));
                lemma_sorted_after_sort(keyed_le::<T, K>(kf), old(self).items(), p@);
            }
            assert(self.reordered_from(*old(self), p@));
        }
    }

    /// Sorts the items in their natural order; this sort keeps equal items in order too.
    pub fn sort_unstable(&mut self)
        where
            T: Ord,
        requires
            old(self).inv(),
            old(self).has_room(1),
        ensures
            final(self).inv(),
            exists|p: Seq<usize>|
                #[trigger] final(self).reordered_from(*old(self), p) && (orders_naturally::<T>() ==> perm_stable(
                    natural_le::<T>(),
                    old(self).items(),
                    p,
                )),
            orders_naturally::<T>() ==> sorted_by(natural_le::<T>(), final(self).items()),
            orders_naturally::<T>() && sorted_by(natural_le::<T>(), old(self).items()) ==> *final(self) == *old(self),
            *final(final(self).data.storage) == *final(old(self).data.storage),
    {
        self.sort();
    }

    /// Sorts the items by `compare`; this sort keeps equal items in order too.
    pub fn sort_unstable_by<F>(&mut self, compare: F)
        where
            F: Fn(&T, &T) -> std::cmp::Ordering,
        requires
            old(self).inv(),
            old(self).has_room(1),
            forall|a: &T, b: &T| compare.requires((a, b)),
        ensures
            final(self).inv(),
            exists|p: Seq<usize>|
                #[trigger] final(self).reordered_from(*old(self), p) && (orders_totally(compare) ==> perm_stable(
                    ranked_by(compare),
                    old(self).items(),
                    p,
                )),
            orders_totally(compare) ==> sorted_by(ranked_by(compare), final(self).items()),
            orders_totally(compare) && sorted_by(ranked_by(compare), old(self).items()) ==> *final(self) == *old(self),
            *final(final(self).data.storage) == *final(old(self).data.storage),
    {
        self.sort_by(compare);
    }

    /// Sorts the items by the key `key` extracts; this sort keeps items with equal keys in order
    /// too.
    pub fn sort_unstable_by_key<K: Ord, F>(&mut self, key: F)
        where
            F: Fn(&T) -> K,
        requires
            old(self).inv(),
            old(self).has_room(1),
            forall|a: &T| key.requires((a,)),
        ensures
            final(self).inv(),
            exists|p: Seq<usize>|
                #[trigger] final(self).reordered_from(*old(self), p) && forall|kf: spec_fn(T) -> K|
                    #[trigger] key_agrees(key, kf) && orders_naturally::<K>() ==> perm_stable(
                        keyed_le::<T, K>(kf),
                        old(self).items(),
                        p,
                    ),
            forall|kf: spec_fn(T) -> K|
                #[trigger] key_agrees(key, kf) && orders_naturally::<K>() ==> {
                    &&& sorted_by(keyed_le::<T, K>(kf), final(self).items())
                    &&& sorted_by(keyed_le::<T, K>(kf), old(self).items()) ==> *final(self) == *old(self)
                },
            *final(final(self).data.storage) == *final(old(self).data.storage),
    {
        self.sort_by_key(key);
    }
}

/// Sorting by an order that sorts the items leaves them in that order.
proof fn lemma_sorted_after_sort<T>(le: spec_fn(T, T) -> bool, s: Seq<T>, p: Seq<usize>)
    requires
        is_permutation(p, s.len()),
        perm_sorted(le, s, p),
    ensures
        sorted_by(le, apply_edit(s, VecEdit::Sort { new_to_old: p })),
{
    let t = apply_edit(s, VecEdit::Sort { new_to_old: p });
    assert forall|i: int, j: int| 0 <= i < j < t.len() implies le(#[trigger] t[i], #[trigger] t[j]) by {
        assert(t[i] == s[p[i] as int]);
        assert(t[j] == s[p[j] as int]);
    }
}

/// A retained change keeps standing for the same edit while later changes are recorded.
proof fn lemma_retained_edit_stable<'a, T>(before: ItemsMut<'a, T>, after: ItemsMut<'a, T>, age: int)
    requires
        before.inv(),
        after.inv(),
        after.recorded(before, data_edit(after.log().last(), after.model().values())),
        before.data.storage().start() <= age < before.log().len(),
    ensures
        data_edit(after.log()[age], after.model().values()) == data_edit(before.log()[age], before.model().values()),
{
    let r = before.data.storage().retained();
    let i = age - before.data.storage().start();
    assert(r[i] == before.log()[age]);
    assert(after.log()[age] == before.log()[age]);
    match r[i] {
        ChangeData::Insert { index, new_value } => {
            assert(refers_to(r[i], new_value));
        },
        ChangeData::Remove { index, old_value } => {
            assert(refers_to(r[i], old_value));
        },
        ChangeData::SetValue { index, old_value, new_value } => {
            assert(refers_to(r[i], new_value));
            assert(refers_to(r[i], old_value));
        },
        _ => {},
    }
}

/// Every value stored before is still stored, unchanged.
pub open spec fn values_grow<T>(before: Map<usize, T>, after: Map<usize, T>) -> bool {
    forall|k: usize| #[trigger] before.contains_key(k) ==> after.contains_key(k) && after[k] == before[k]
}

/// Replaying the retained changes from the items at a retained age rebuilds the current items,
/// and every replayed edit is valid where it is applied.
pub proof fn lemma_replay_from_history<T>(m: VecModel<T>, retained: Seq<ChangeData>, i: int)
    requires
        m.inv(retained),
        0 <= i <= retained.len(),
    ensures
        apply_edits(m.history()[i], data_edits(retained.skip(i), m.values())) == m.items(),
        edits_ok(m.history()[i], data_edits(retained.skip(i), m.values())),
    decreases retained.len() - i,
{
    let es = data_edits(retained.skip(i), m.values());
    if i < retained.len() {
        lemma_replay_from_history(m, retained, i + 1);
        assert(es[0] == data_edit(retained[i], m.values()));
        assert(es.drop_first() =~= data_edits(retained.skip(i + 1), m.values()));
    } else {
        assert(es.len() == 0);
    }
}

/// Inserting every item at its own index, in order, into the first `j` items rebuilds all
/// items, and every insertion is valid.
pub proof fn lemma_insertions_rebuild<T>(s: Seq<T>, j: int)
    requires
        0 <= j <= s.len(),
    ensures
        apply_edits(s.take(j), initial_edits(s).skip(j)) == s,
        edits_ok(s.take(j), initial_edits(s).skip(j)),
    decreases s.len() - j,
{
    let es = initial_edits(s).skip(j);
    if j < s.len() {
        lemma_insertions_rebuild(s, j + 1);
        assert(es[0] == VecEdit::Insert { index: j, value: s[j] });
        assert(s.take(j).insert(j, s[j]) =~= s.take(j + 1));
        assert(es.drop_first() =~= initial_edits(s).skip(j + 1));
    } else {
        assert(s.take(j) =~= s);
        assert(es.len() == 0);
    }
}

/// The items of an initial read are rebuilt by inserting every item at its own index into
/// empty items.
pub proof fn lemma_initial_edits_rebuild<T>(s: Seq<T>)
    ensures
        apply_edits(Seq::<T>::empty(), initial_edits(s)) == s,
        edits_ok(Seq::<T>::empty(), initial_edits(s)),
{
    lemma_insertions_rebuild(s, 0);
    assert(s.take(0) =~= Seq::<T>::empty());
    assert(initial_edits(s).skip(0) =~= initial_edits(s));
}

/// The items of a vector as a reader sees them, with the changes since the reader's previous
/// read.
pub struct Items<'a, T> {
    value: ChangeFeedRef<'a, VecModel<T>>,
}

impl<'a, T> Items<'a, T> {
    pub closed spec fn source(&self) -> ChangeFeedRef<'a, VecModel<T>> {
        self.value
    }

    /// The vector's model as read.
    pub open spec fn model(&self) -> VecModel<T> {
        self.source().model()
    }

    /// The items as read.
    pub open spec fn items(&self) -> Seq<T> {
        self.model().items()
    }

    /// This is the reader's first read.
    pub open spec fn is_initial(&self) -> bool {
        self.source().since() is None
    }

    /// The recorded changes since the reader's previous read.
    pub open spec fn data(&self) -> Seq<ChangeData> {
        self.source().changes()
    }

    /// The edits [`changes`](Self::changes) stands for: insertions of every item for an initial
    /// read, otherwise the recorded changes since the previous read.
    pub open spec fn edits(&self) -> Seq<VecEdit<T>> {
        if self.is_initial() {
            initial_edits(self.items())
        } else {
            data_edits(self.data(), self.model().values())
        }
    }

    pub open spec fn wf(&self) -> bool {
        &&& self.model().items_wf()
        &&& forall|i: int, k: usize|
            0 <= i < self.data().len() && #[trigger] refers_to(self.data()[i], k) ==> self.model().values().contains_key(k)
    }

    /// Returns the number of items.
    pub fn len(&self) -> (r: usize)
        ensures
            r == self.items().len(),
    {
        self.value.current().len()
    }

    pub fn is_empty(&self) -> (r: bool)
        ensures
            r == (self.items().len() == 0),
    {
        self.len() == 0
    }

    /// Returns the item at `index`, if any.
    pub fn get(&self, index: usize) -> (r: Option<&'a T>)
        requires
            self.wf(),
        ensures
            r == (if index < self.items().len() { Some(&self.items()[index as int]) } else { None }),
    {
        self.value.current().get(index)
    }

    /// Returns the changes since the reader's previous read, oldest first; an initial read
    /// reports an insertion of every item.
    pub fn changes(&self) -> (r: Vec<VecChange<'a, T>>)
        requires
            self.wf(),
        ensures
            r@.map_values(|c: VecChange<'a, T>| change_edit(c)) == self.edits(),
    {
        let model: &'a VecModel<T> = self.value.current();
        let mut r: Vec<VecChange<'a, T>> = Vec::new();
        match self.value.delta() {
            ChangeFeedDelta::Initial => {
                let n = model.len();
                let mut i: usize = 0;
                while i < n
                    invariant
                        model.items_wf(),
                        n == model.items().len(),
                        i <= n,
                        r@.len() == i,
                        forall|j: int| 0 <= j < i ==> change_edit(#[trigger] r@[j]) == initial_edits(model.items())[j],
                    decreases n - i,
                {
                    let value = model.get(i).unwrap();
                    r.push(VecChange::Insert { index: i, new_value: value });
                    i = i + 1;
                }
                assert(r@.map_values(|c: VecChange<'a, T>| change_edit(c)) =~= self.edits());
            },
            ChangeFeedDelta::Changes(cs) => {
                let mut i: usize = 0;
                while i < cs.len()
                    invariant
                        self.wf(),
                        *model == self.model(),
                        cs@ == self.data(),
                        i <= cs@.len(),
                        r@.len() == i,
                        forall|j: int| 0 <= j < i ==> change_edit(#[trigger] r@[j]) == data_edit(cs@[j], model.values()),
                    decreases cs@.len() - i,
                {
                    let c = model.to_vec_change(&cs[i]);
                    r.push(c);
                    i = i + 1;
                }
                assert(r@.map_values(|c: VecChange<'a, T>| change_edit(c)) =~= self.edits());
            },
        }
        r
    }
}

impl<T> VecModel<T> {
    /// Returns the value stored under `key`.
    fn value(&self, key: usize) -> (r: &T)
        requires
            self.store_wf(),
            self.values().contains_key(key),
        ensures
            *r == self.values()[key],
    {
        self.values.get(key).unwrap()
    }

    /// The change as a reader receives it, with values looked up in this model.
    fn to_vec_change<'a>(&'a self, c: &'a ChangeData) -> (r: VecChange<'a, T>)
        requires
            self.store_wf(),
            forall|k: usize| #[trigger] refers_to(*c, k) ==> self.values().contains_key(k),
        ensures
            change_edit(r) == data_edit(*c, self.values()),
    {
        match c {
            ChangeData::Insert { index, new_value } => {
                assert(refers_to(*c, *new_value));
                VecChange::Insert { index: *index, new_value: self.value(*new_value) }
            },
            ChangeData::Remove { index, old_value } => {
                assert(refers_to(*c, *old_value));
                VecChange::Remove { index: *index, old_value: self.value(*old_value) }
            },
            ChangeData::SetValue { index, old_value, new_value } => {
                assert(refers_to(*c, *old_value));
                assert(refers_to(*c, *new_value));
                VecChange::SetValue {
                    index: *index,
                    new_value: self.value(*new_value),
                    old_value: self.value(*old_value),
                }
            },
            ChangeData::Move { old_index, new_index } => VecChange::Move {
                old_index: *old_index,
                new_index: *new_index,
            },
            ChangeData::Swap { index } => VecChange::Swap { index: *index },
            ChangeData::Sort { new_to_old } => VecChange::Sort(new_to_old),
        }
    }
}

/// Releasing changes one after another drops the oldest snapshots of the history and keeps the
/// others.
proof fn lemma_history_after_release<T>(models: Seq<VecModel<T>>, cs: Seq<ChangeData>, n: int)
    requires
        release_steps(models, cs),
        cs.len() == n,
        models[0].history().len() >= n + 1,
    ensures
        models.last().history() == models[0].history().skip(n),
    decreases n,
{
    if n == 0 {
        assert(models[0].history().skip(0) =~= models[0].history());
    } else {
        let init = models.drop_last();
        let cinit = cs.drop_last();
        assert forall|i: int| #![trigger cinit[i]] 0 <= i < cinit.len() implies VecModel::<T>::release_ok(
            init[i],
            cinit[i],
            init[i + 1],
        ) by {
            assert(cinit[i] == cs[i]);
        }
        lemma_history_after_release(init, cinit, n - 1);
        assert(cs[n - 1] == cs[n - 1]);
        assert(VecModel::<T>::release_ok(models[n - 1], cs[n - 1], models[n]));
        assert(models.last().history() =~= models[0].history().skip(n));
    }
}

/// A reader of a [`StateVec`]: each reader advances through the vector's changes on its own.
pub struct SignalVecReader {
    cursor: ChangeFeedCursorReader,
}

impl SignalVecReader {
    pub closed spec fn key(&self) -> int {
        self.cursor.key()
    }
}

/// Mutable vector state whose edits are recorded for its readers.
pub struct StateVec<T> {
    storage: ChangeFeedStorage<VecModel<T>>,
}

impl<T> StateVec<T> {
    /// The change feed behind the vector.
    pub closed spec fn storage(&self) -> ChangeFeedStorage<VecModel<T>> {
        self.storage
    }

    /// The current items.
    pub open spec fn items(&self) -> Seq<T> {
        self.storage().current().items()
    }

    /// The items as they were when the age was the end of the changes; defined for the
    /// retained ages `start..=end`.
    pub open spec fn snapshot(&self, age: int) -> Seq<T> {
        self.storage().current().history()[age - self.storage().start()]
    }

    pub open spec fn wf(&self) -> bool {
        &&& self.storage().wf()
        &&& self.storage().current().inv(self.storage().retained())
    }

    /// Every snapshot that both states have retained is the same in both.
    pub open spec fn keeps_snapshots(&self, before: Self) -> bool {
        forall|age: int|
            #![trigger self.snapshot(age)]
            #![trigger before.snapshot(age)]
            self.storage().start() <= age <= before.storage().end() && before.storage().start() <= age
                ==> self.snapshot(age) == before.snapshot(age)
    }

    /// Creates an empty vector.
    pub fn new() -> (r: Self)
        ensures
            r.wf(),
            r.items() == Seq::<T>::empty(),
            r.storage().readers() == Seq::<CursorState>::empty(),
    {
        let model = VecModel::new();
        let storage = ChangeFeedStorage::new(model);
        proof {
            assert(storage.retained() =~= Seq::<ChangeData>::empty());
        }
        StateVec { storage }
    }

    /// Creates a vector holding `values`, in order.
    pub fn from_vec(values: Vec<T>) -> (r: Self)
        ensures
            r.wf(),
            r.items() == values@,
            r.storage().readers() == Seq::<CursorState>::empty(),
    {
        let mut model: VecModel<T> = VecModel::new();
        let mut values = values;
        let ghost all = values@;
        let total = values.len();
        let ghost n = values@.len();
        let mut rest: Vec<T> = Vec::new();
        // Take the values out back to front, then push them in order.
        while values.len() > 0
            invariant
                rest@.len() + values@.len() == n,
                n == total,
                all == values@ + rest@.reverse(),
            decreases values@.len(),
        {
            let x = values.pop().unwrap();
            let ghost rest0 = rest@;
            let ghost values0 = values@;
            rest.push(x);
            proof {
                assert(rest@.reverse() =~= seq![x] + rest0.reverse());
                assert(all =~= values@ + rest@.reverse());
            }
        }
        assert(rest@.reverse() =~= all);
        while rest.len() > 0
            invariant
                model.items_wf(),
                model.items().len() + rest@.len() == n,
                n <= usize::MAX,
                all == model.items() + rest@.reverse(),
                model.history() == seq![model.items()],
            decreases rest@.len(),
        {
            let x = rest.pop().unwrap();
            let ghost rest0 = rest@;
            let ghost items0 = model.items();
            model.push_raw(x);
            proof {
                assert(rest0.push(x).reverse() =~= seq![x] + rest0.reverse());
                assert(all =~= model.items() + rest@.reverse());
            }
        }
        assert(model.items() =~= all);
        let storage = ChangeFeedStorage::new(model);
        proof {
            assert(storage.retained() =~= Seq::<ChangeData>::empty());
        }
        StateVec { storage }
    }

    /// Creates a reader whose first read reports every item as inserted.
    pub fn reader(&mut self) -> (r: SignalVecReader)
        requires
            old(self).wf(),
        ensures
            final(self).wf(),
            final(self).items() == old(self).items(),
            r.key() == old(self).storage().readers().len(),
            final(self).storage().readers() == old(self).storage().readers().push(CursorState::Unread),
            final(self).storage().log() == old(self).storage().log(),
            final(self).storage().start() == old(self).storage().start(),
            final(self).storage().current() == old(self).storage().current(),
    {
        SignalVecReader { cursor: self.storage.reader() }
    }

    /// Creates a reader at the same position as `reader`; the two then advance independently.
    pub fn clone_reader(&mut self, reader: &SignalVecReader) -> (r: SignalVecReader)
        requires
            old(self).wf(),
            old(self).storage().is_live(reader.key()),
        ensures
            final(self).wf(),
            final(self).items() == old(self).items(),
            r.key() == old(self).storage().readers().len(),
            final(self).storage().readers() == old(self).storage().readers().push(
                old(self).storage().readers()[reader.key()],
            ),
            final(self).storage().log() == old(self).storage().log(),
            final(self).storage().start() == old(self).storage().start(),
            final(self).storage().current() == old(self).storage().current(),
    {
        SignalVecReader { cursor: self.storage.clone_reader(&reader.cursor) }
    }

    /// Keeps the model consistent across a compaction of the change feed.
    proof fn lemma_compaction(before: ChangeFeedStorage<VecModel<T>>, after: ChangeFeedStorage<VecModel<T>>)
        requires
            before.wf(),
            after.wf(),
            before.current().inv(before.retained()),
            after.log() == before.log(),
            before.start() <= after.start(),
            released_in_order(
                before.current(),
                before.log().subrange(before.start() as int, after.start() as int),
                after.current(),
            ),
        ensures
            after.current().inv(after.retained()),
            after.current().items() == before.current().items(),
            forall|age: int|
                after.start() <= age <= after.end() ==> #[trigger] after.current().history()[age - after.start()]
                    == before.current().history()[age - before.start()],
    {
        before.lemma_wf();
        after.lemma_wf();
        let n = after.start() - before.start();
        let r = before.retained();
        assert(r.take(n as int) =~= before.log().subrange(before.start() as int, after.start() as int));
        assert(r.skip(n as int) =~= after.retained());
        vstd::seq_lib::lemma_seq_skip_nothing(r, 0);
        lemma_released_in_order_keeps_inv(before.current(), r, n as int, after.current());
        let models = choose|models: Seq<VecModel<T>>|
            #[trigger] release_steps(models, r.take(n as int)) && models[0] == before.current() && models.last()
                == after.current();
        lemma_history_after_release(models, r.take(n as int), n as int);
    }

    /// Releases a reader; changes only it still had to read are released.
    pub fn release_reader(&mut self, reader: SignalVecReader)
        requires
            old(self).wf(),
            old(self).storage().is_live(reader.key()),
        ensures
            final(self).wf(),
            final(self).items() == old(self).items(),
            final(self).storage().readers() == old(self).storage().readers().update(reader.key(), CursorState::Released),
            final(self).storage().log() == old(self).storage().log(),
            final(self).keeps_snapshots(*old(self)),
    {
        let ghost before = self.storage;
        self.storage.release_reader(reader.cursor);
        proof {
            Self::lemma_compaction(before, self.storage);
        }
    }

    /// Releases every retained change that no reader still has to read.
    pub fn compact(&mut self)
        requires
            old(self).wf(),
        ensures
            final(self).wf(),
            final(self).items() == old(self).items(),
            final(self).storage().readers() == old(self).storage().readers(),
            final(self).storage().log() == old(self).storage().log(),
            final(self).storage().start() == crate::change_feed::min_cursor(
                old(self).storage().readers(),
                old(self).storage().end(),
            ),
            final(self).keeps_snapshots(*old(self)),
    {
        let ghost before = self.storage;
        self.storage.compact();
        proof {
            Self::lemma_compaction(before, self.storage);
        }
    }

    /// The snapshot at a live reader's cursor, with the reader's pending changes applied in
    /// order, rebuilds the current items.
    pub proof fn lemma_pending_rebuilds(&self, key: int)
        requires
            self.wf(),
            self.storage().is_live(key),
            self.storage().readers()[key] is At,
        ensures
            ({
                let c = self.storage().readers()[key]->At_0 as int;
                let es = data_edits(self.storage().pending(key), self.storage().current().values());
                apply_edits(self.snapshot(c), es) == self.items() && edits_ok(self.snapshot(c), es)
            }),
    {
        let s = self.storage();
        s.lemma_wf();
        let c = s.readers()[key]->At_0 as int;
        assert(s.readers()[key] matches CursorState::At(c));
        let i = c - s.start();
        assert(s.pending(key) =~= s.retained().skip(i));
        lemma_replay_from_history(s.current(), s.retained(), i);
    }

    /// Borrows the items and advances `reader` to the current end.
    ///
    /// The first read of a reader reports every item as inserted; every later read reports the
    /// changes since the reader's previous read, which rebuild the current items from the items
    /// that previous read returned.
    pub fn read(&mut self, reader: &SignalVecReader) -> (r: Items<'_, T>)
        requires
            old(self).wf(),
            old(self).storage().is_live(reader.key()),
        ensures
            final(self).wf(),
            final(self).items() == old(self).items(),
            final(self).storage().readers() == old(self).storage().readers().update(
                reader.key(),
                CursorState::At(old(self).storage().end() as usize),
            ),
            final(self).storage().log() == old(self).storage().log(),
            final(self).storage().start() == crate::change_feed::min_cursor(
                old(self).storage().readers(),
                old(self).storage().end(),
            ),
            final(self).keeps_snapshots(*old(self)),
            final(self).snapshot(old(self).storage().end() as int) == final(self).items(),
            r.wf(),
            r.items() == old(self).items(),
            r.is_initial() == (old(self).storage().readers()[reader.key()] == CursorState::Unread),
            r.data() == old(self).storage().pending(reader.key()),
            r.is_initial() ==> apply_edits(Seq::<T>::empty(), r.edits()) == r.items() && edits_ok(
                Seq::<T>::empty(),
                r.edits(),
            ),
            old(self).storage().readers()[reader.key()] matches CursorState::At(c) ==> apply_edits(
                old(self).snapshot(c as int),
                r.edits(),
            ) == r.items() && edits_ok(old(self).snapshot(c as int), r.edits()),
    {
        self.compact();
        let ghost mid = *self;
        proof {
            old(self).storage().lemma_wf();
            self.storage.lemma_wf();
            assert(mid.storage().start() == crate::change_feed::min_cursor(mid.storage().readers(), mid.storage().end()));
            lemma_initial_edits_rebuild(self.items());
            if self.storage.readers()[reader.key()] is At {
                self.lemma_pending_rebuilds(reader.key());
                let c = self.storage.readers()[reader.key()]->At_0 as int;
                assert(self.storage.readers()[reader.key()] matches CursorState::At(c));
                assert(self.snapshot(c) == old(self).snapshot(c));
            }
            let s = self.storage;
            let key = reader.key();
            assert forall|i: int, k: usize|
                0 <= i < s.pending(key).len() && #[trigger] refers_to(s.pending(key)[i], k) implies s.current().values().contains_key(k) by {
                let c = s.readers()[key]->At_0 as int;
                assert(s.readers()[key] matches CursorState::At(c));
                assert(s.pending(key)[i] == s.retained()[c - s.start() + i]);
            }
        }
        let value = self.storage.read(&reader.cursor);
        Items { value }
    }

    /// Borrows the items with the changes `reader` would receive, without advancing it.
    pub fn peek(&self, reader: &SignalVecReader) -> (r: Items<'_, T>)
        requires
            self.wf(),
            self.storage().is_live(reader.key()),
        ensures
            r.wf(),
            r.items() == self.items(),
            r.is_initial() == (self.storage().readers()[reader.key()] == CursorState::Unread),
            r.data() == self.storage().pending(reader.key()),
            r.is_initial() ==> apply_edits(Seq::<T>::empty(), r.edits()) == r.items(),
            self.storage().readers()[reader.key()] matches CursorState::At(c) ==> apply_edits(
                self.snapshot(c as int),
                r.edits(),
            ) == r.items(),
    {
        proof {
            self.storage.lemma_wf();
            lemma_initial_edits_rebuild(self.items());
            if self.storage.readers()[reader.key()] is At {
                self.lemma_pending_rebuilds(reader.key());
            }
            let s = self.storage;
            let key = reader.key();
            assert forall|i: int, k: usize|
                0 <= i < s.pending(key).len() && #[trigger] refers_to(s.pending(key)[i], k) implies s.current().values().contains_key(k) by {
                let c = s.readers()[key]->At_0 as int;
                assert(s.readers()[key] matches CursorState::At(c));
                assert(s.pending(key)[i] == s.retained()[c - s.start() + i]);
            }
        }
        let value = self.storage.peek(&reader.cursor);
        Items { value }
    }

    /// Borrows the current items; the result holds no changes.
    pub fn borrow(&self) -> (r: Items<'_, T>)
        requires
            self.wf(),
        ensures
            r.wf(),
            r.items() == self.items(),
            !r.is_initial(),
            r.data() == Seq::<ChangeData>::empty(),
    {
        let value = self.storage.borrow_current();
        Items { value }
    }

    /// Mutably borrows the items; every edit through the borrow is recorded.
    ///
    /// Changes no reader still has to read are released first.
    pub fn borrow_mut(&mut self) -> (r: ItemsMut<'_, T>)
        requires
            old(self).wf(),
        ensures
            r.inv(),
            r.items() == old(self).items(),
            r.log() == old(self).storage().log(),
            r.data.storage().readers() == old(self).storage().readers(),
            r.data.begin() == old(self).storage().end(),
            r.data.storage().start() >= old(self).storage().start(),
            forall|age: int|
                r.data.storage().start() <= age <= old(self).storage().end() ==> #[trigger] r.model().history()[age
                    - r.data.storage().start()] == old(self).snapshot(age),
            final(self).storage() == *final(r.data.storage),
    {
        let ghost before = self.storage;
        let edit = self.storage.begin_edit();
        proof {
            Self::lemma_compaction(before, *edit.storage);
            edit.storage.lemma_wf();
        }
        ItemsMut { data: edit }
    }
}

/// The index, before a move from `old_index` to `new_index`, of the item now at index `i`.
pub open spec fn move_source(i: int, old_index: int, new_index: int) -> int {
    if i == new_index {
        old_index
    } else if old_index < new_index {
        if old_index <= i < new_index { i + 1 } else { i }
    } else {
        if new_index < i <= old_index { i - 1 } else { i }
    }
}

impl<T> ChangeFeedModel for VecModel<T> {
    type Change = ChangeData;

    open spec fn release_ok(before: Self, change: ChangeData, after: Self) -> bool {
        &&& after.keys() == before.keys()
        &&& after.values() == (match old_key(change) {
            Some(k) => before.values().remove(k),
            None => before.values(),
        })
        &&& (before.store_wf() ==> after.store_wf())
        &&& after.history() == before.history().drop_first()
    }

    fn release_change(&mut self, change: ChangeData) {
        self.history = Ghost(self.history@.drop_first());
        match change {
            ChangeData::Remove { index, old_value } => {
                self.values.remove(old_value);
            },
            ChangeData::SetValue { index, old_value, new_value } => {
                self.values.remove(old_value);
            },
            _ => {},
        }
    }
}

/// The items of a vector that never changes, with whether a reader receives them as inserted.
pub struct SliceItems<'a, T> {
    slice: &'a [T],
    initial: bool,
}

impl<'a, T> SliceItems<'a, T> {
    /// The items.
    pub closed spec fn items(&self) -> Seq<T> {
        self.slice@
    }

    /// This is the reader's first read.
    pub closed spec fn is_initial(&self) -> bool {
        self.initial
    }

    /// The edits [`changes`](Self::changes) stands for: insertions of every item for a first
    /// read, nothing afterwards.
    pub open spec fn edits(&self) -> Seq<VecEdit<T>> {
        if self.is_initial() {
            initial_edits(self.items())
        } else {
            Seq::empty()
        }
    }

    /// Returns the number of items.
    pub fn len(&self) -> (r: usize)
        ensures
            r == self.items().len(),
    {
        self.slice.len()
    }

    pub fn is_empty(&self) -> (r: bool)
        ensures
            r == (self.items().len() == 0),
    {
        self.slice.len() == 0
    }

    /// Returns the item at `index`, if any.
    pub fn get(&self, index: usize) -> (r: Option<&'a T>)
        ensures
            r == (if index < self.items().len() { Some(&self.items()[index as int]) } else { None }),
    {
        if index < self.slice.len() {
            Some(&self.slice[index])
        } else {
            None
        }
    }

    /// Returns the changes a reader receives: an insertion of every item on its first read,
    /// none afterwards.
    pub fn changes(&self) -> (r: Vec<VecChange<'a, T>>)
        ensures
            r@.map_values(|c: VecChange<'a, T>| change_edit(c)) == self.edits(),
    {
        let mut r: Vec<VecChange<'a, T>> = Vec::new();
        if self.initial {
            let n = self.slice.len();
            let mut i: usize = 0;
            while i < n
                invariant
                    n == self.slice@.len(),
                    i <= n,
                    r@.len() == i,
                    forall|j: int| 0 <= j < i ==> change_edit(#[trigger] r@[j]) == initial_edits(self.slice@)[j],
                decreases n - i,
            {
                r.push(VecChange::Insert { index: i, new_value: &self.slice[i] });
                i = i + 1;
            }
        }
        assert(r@.map_values(|c: VecChange<'a, T>| change_edit(c)) =~= self.edits());
        r
    }
}

/// A reader of a vector that never changes: its first read receives every item as inserted,
/// later reads receive nothing.
#[derive(Clone, Copy)]
pub struct ImmutableVecReader {
    has_read: bool,
}

impl ImmutableVecReader {
    /// The reader has read before.
    pub closed spec fn has_read(&self) -> bool {
        self.has_read
    }

    /// A reader that has not read yet.
    pub fn new() -> (r: Self)
        ensures
            !r.has_read(),
    {
        ImmutableVecReader { has_read: false }
    }

    /// Reads `items`: as inserted on the first read, unchanged afterwards.
    pub fn read<'a, T>(&mut self, items: &'a [T]) -> (r: SliceItems<'a, T>)
        ensures
            final(self).has_read(),
            r.items() == items@,
            r.is_initial() == !old(self).has_read(),
    {
        let initial = !self.has_read;
        self.has_read = true;
        SliceItems { slice: items, initial }
    }

    /// Returns what [`read`](Self::read) would return, without advancing the reader.
    pub fn peek<'a, T>(&self, items: &'a [T]) -> (r: SliceItems<'a, T>)
        ensures
            r.items() == items@,
            r.is_initial() == !self.has_read(),
    {
        SliceItems { slice: items, initial: !self.has_read }
    }
}

} // verus!
