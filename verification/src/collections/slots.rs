//! A keyed store whose keys are handed out by a slab: every inserted value gets a key that is
//! not in use, and the key of a removed value may be handed out again.

use slabmap::SlabMap;
use vstd::prelude::*;

verus! {

#[verifier::external_type_specification]
#[verifier::external_body]
#[verifier::reject_recursive_types(T)]
pub struct ExSlabMap<T>(slabmap::SlabMap<T>);

/// The keys in use in a slab that holds no values.
pub uninterp spec fn slab_keys(keys: SlabMap<()>) -> Set<usize>;

/// The key that `SlabMap::insert` hands out next.
pub uninterp spec fn slab_next_key(keys: SlabMap<()>) -> usize;

/// `SlabMap::new`: a slab with no key in use, whose first insert hands out key 0 (it has no
/// entries and no vacant entry to reuse).
#[verifier::external_body]
fn new_key_slab() -> (r: SlabMap<()>)
    ensures
        slab_keys(r) == Set::<usize>::empty(),
        slab_next_key(r) == 0,
{
    SlabMap::new()
}

/// `SlabMap::insert`: returns a key that was not in use and is in use afterwards. The key is the
/// index of an entry of the slab's vector, so it is below `usize::MAX`.
#[verifier::external_body]
fn allocate_key(keys: &mut SlabMap<()>) -> (key: usize)
    ensures
        key == slab_next_key(*old(keys)),
        !slab_keys(*old(keys)).contains(key),
        slab_keys(*final(keys)) == slab_keys(*old(keys)).insert(key),
        key < usize::MAX,
{
    keys.insert(())
}

/// `SlabMap::remove`: `key` is no longer in use afterwards; returns `Some` exactly when it was.
/// Removing the last key in use clears the slab, so that the next insert hands out key 0;
/// removing a key below another key in use makes it the next key handed out (it heads the
/// chain of vacant entries).
#[verifier::external_body]
fn free_key(keys: &mut SlabMap<()>, key: usize) -> (r: Option<()>)
    requires
        key < usize::MAX,
    ensures
        (r is Some) == slab_keys(*old(keys)).contains(key),
        slab_keys(*final(keys)) == slab_keys(*old(keys)).remove(key),
        r is Some && slab_keys(*final(keys)) == Set::<usize>::empty() ==> slab_next_key(*final(keys)) == 0,
        r is Some && (exists|k: usize| #[trigger] slab_keys(*old(keys)).contains(k) && key < k) ==> slab_next_key(
            *final(keys),
        ) == key,
{
    keys.remove(key)
}

/// `SlabMap::optimize`: reorganizes the free entries; the keys in use stay the same, and the
/// next key handed out is the least key not in use (the first vacant entry, or the end of the
/// entries, which are truncated after the last one in use).
#[verifier::external_body]
fn optimize_keys(keys: &mut SlabMap<()>)
    ensures
        slab_keys(*final(keys)) == slab_keys(*old(keys)),
        !slab_keys(*final(keys)).contains(slab_next_key(*final(keys))),
        forall|j: usize| j < slab_next_key(*final(keys)) ==> slab_keys(*final(keys)).contains(j),
{
    keys.optimize()
}

/// A map from store-chosen keys to values.
///
/// A slab chooses the key of every inserted value among the keys not in use; the values are
/// held by key.
pub struct Slots<T> {
    keys: SlabMap<()>,
    entries: Vec<Option<T>>,
}

impl<T> Slots<T> {
    /// The values held, by key.
    pub closed spec fn view(&self) -> Map<usize, T> {
        Map::new(
            |k: usize| k < self.entries@.len() && self.entries@[k as int] is Some,
            |k: usize| self.entries@[k as int]->Some_0,
        )
    }

    pub closed spec fn wf(&self) -> bool {
        &&& self.entries@.len() <= usize::MAX
        &&& slab_keys(self.keys) == self@.dom()
    }

    /// The key the next insert hands out.
    pub closed spec fn next_key(&self) -> usize {
        slab_next_key(self.keys)
    }

    /// The number of entries the store has allocated: every key in use is below it.
    pub closed spec fn size(&self) -> nat {
        self.entries@.len()
    }

    /// Creates an empty store.
    pub fn new() -> (r: Self)
        ensures
            r.wf(),
            r@ == Map::<usize, T>::empty(),
            r.size() == 0,
            r.next_key() == 0,
    {
        let r = Slots { keys: new_key_slab(), entries: Vec::new() };
        assert(r@ =~= Map::<usize, T>::empty());
        assert(r@.dom() =~= Set::<usize>::empty());
        r
    }

    /// Stores `value` under a key that was not in use and returns that key.
    pub fn insert(&mut self, value: T) -> (key: usize)
        requires
            old(self).wf(),
        ensures
            final(self).wf(),
            final(self).size() >= old(self).size(),
            key == old(self).next_key(),
            !old(self)@.contains_key(key),
            final(self)@ == old(self)@.insert(key, value),
    {
        let key = allocate_key(&mut self.keys);
        let ghost in_use = slab_keys(self.keys);
        assert(!old(self)@.dom().contains(key));
        if key < self.entries.len() {
            assert(self.entries@[key as int] is None);
            self.entries.set(key, Some(value));
        } else {
            while self.entries.len() < key
                invariant
                    old(self).entries@.len() <= self.entries@.len() <= key,
                    key < usize::MAX,
                    slab_keys(self.keys) == in_use,
                    forall|i: int| 0 <= i < old(self).entries@.len() ==> #[trigger] self.entries@[i] == old(
                        self,
                    ).entries@[i],
                    forall|i: int| old(self).entries@.len() <= i < self.entries@.len() ==> #[trigger] self.entries@[i] is None,
                decreases key - self.entries@.len(),
            {
                self.entries.push(None);
            }
            self.entries.push(Some(value));
        }
        assert(self@ =~= old(self)@.insert(key, value));
        assert(self@.dom() =~= slab_keys(self.keys));
        key
    }

    /// Reorganizes how the keys not in use are handed out, so that the next insert hands out
    /// the least key not in use; the values held stay the same.
    pub fn optimize(&mut self)
        ensures
            final(self)@ == old(self)@,
            final(self).size() == old(self).size(),
            final(self).wf() == old(self).wf(),
            old(self).wf() ==> !final(self)@.contains_key(final(self).next_key()),
            old(self).wf() ==> forall|j: usize| j < final(self).next_key() ==> #[trigger] final(self)@.contains_key(j),
    {
        optimize_keys(&mut self.keys);
    }

    /// Returns the value stored under `key`, if any.
    pub fn get(&self, key: usize) -> (r: Option<&T>)
        ensures
            r == (if self@.contains_key(key) { Some(&self@[key]) } else { None }),
    {
        if key < self.entries.len() {
            match &self.entries[key] {
                Some(v) => Some(v),
                None => None,
            }
        } else {
            None
        }
    }

    /// Every key in use is below the returned bound.
    pub fn key_bound(&self) -> (r: usize)
        ensures
            r == self.size(),
            forall|k: usize| #[trigger] self@.contains_key(k) ==> k < r,
    {
        self.entries.len()
    }

    /// At most `size` keys are in use.
    pub proof fn lemma_len_bound(&self)
        requires
            self.wf(),
        ensures
            self@.dom().finite(),
            self@.dom().len() <= self.size(),
            self.size() <= usize::MAX,
    {
        let range = Set::<usize>::new(|k: usize| k < self.size());
        vstd::set_lib::range_set_properties::<usize>(0, self.size() as usize);
        assert(range =~= <usize as vstd::set_lib::FiniteRange>::range_set(0, self.size() as usize));
        assert(self@.dom().subset_of(range));
        vstd::set_lib::lemma_len_subset(self@.dom(), range);
    }

    /// Returns the value stored under `key` mutably.
    pub fn get_mut(&mut self, key: usize) -> (r: &mut T)
        requires
            old(self)@.contains_key(key),
        ensures
            *r == old(self)@[key],
            final(self)@ == old(self)@.insert(key, *final(r)),
            final(self).size() == old(self).size(),
            old(self).wf() ==> final(self).wf(),
    {
        assert(old(self)@.dom().insert(key) =~= old(self)@.dom());
        let entry = &mut self.entries[key];
        match entry {
            Some(v) => v,
            None => vstd::pervasive::unreached(),
        }
    }

    /// Returns whether a value is stored under `key`.
    pub fn contains_key(&self, key: usize) -> (r: bool)
        ensures
            r == self@.contains_key(key),
    {
        key < self.entries.len() && self.entries[key].is_some()
    }

    /// Removes and returns the value stored under `key`, if any; the key is no longer in use.
    pub fn remove(&mut self, key: usize) -> (r: Option<T>)
        ensures
            old(self).wf() ==> final(self).wf(),
            final(self).size() == old(self).size(),
            final(self)@ == old(self)@.remove(key),
            r == (if old(self)@.contains_key(key) { Some(old(self)@[key]) } else { None }),
            old(self).wf() && r is Some && final(self)@ == Map::<usize, T>::empty() ==> final(self).next_key() == 0,
            old(self).wf() && r is Some && (exists|k: usize| #[trigger] old(self)@.contains_key(k) && key < k)
                ==> final(self).next_key() == key,
    {
        if key < self.entries.len() && self.entries[key].is_some() {
            let mut value: Option<T> = None;
            self.entries.set_and_swap(key, &mut value);
            free_key(&mut self.keys, key);
            assert(self@ =~= old(self)@.remove(key));
            assert(old(self).wf() ==> self@.dom() =~= slab_keys(self.keys));
            value
        } else {
            assert(self@ =~= old(self)@.remove(key));
            None
        }
    }
}

} // verus!
