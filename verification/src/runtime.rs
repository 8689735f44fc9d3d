//! State of the reactive runtime that can be reasoned about without the
//! object graph: dirty levels, binding slots and keys.

pub mod bindings;
pub mod context_channel;
pub mod dirty;
pub mod flush;
pub mod scheduler;

use vstd::prelude::*;
use vstd::std_specs::cmp::PartialEqSpecImpl;

use crate::runtime::scheduler::Scheduler;

pub use dirty::Dirty;

verus! {

/// How strongly a dependant is invalidated by a notification.
#[derive(Copy, Clone, Debug, PartialEq, Eq, Structural, PartialOrd, Ord)]
pub enum DirtyLevel {
    MaybeDirty,
    Dirty,
}

impl DirtyLevel {
    /// Returns `MaybeDirty` when state change checking is enabled, otherwise `self`.
    pub fn maybe_if(self, is_check: bool) -> (r: Self)
        ensures
            r == (if is_check { DirtyLevel::MaybeDirty } else { self }),
    {
        if is_check {
            DirtyLevel::MaybeDirty
        } else {
            self
        }
    }

    pub fn is_dirty(self) -> (r: bool)
        ensures
            r == (self == DirtyLevel::Dirty),
    {
        self == DirtyLevel::Dirty
    }

    pub fn is_maybe_dirty(self) -> (r: bool)
        ensures
            r == (self == DirtyLevel::MaybeDirty),
    {
        self == DirtyLevel::MaybeDirty
    }
}

/// Identifies which part of a source a dependant is bound to.
#[derive(Debug, Clone, Copy, PartialEq, Eq, Structural, Hash, PartialOrd, Ord)]
pub struct Slot(pub usize);

/// Identifies a dependant's binding within a source.
#[derive(Debug, Clone, Copy, PartialEq, Eq, Structural, Hash, PartialOrd, Ord)]
pub struct BindKey(pub usize);


/// Kind of reactions performed by the reactive runtime; kinds are equal when their ids are.
#[derive(Clone, Copy, Debug)]
pub struct ReactionKind {
    pub id: i8,
    pub name: &'static str,
}

impl ReactionKind {
    pub fn new(id: i8, name: &'static str) -> (r: Self)
        ensures
            r.id == id,
            r.name == name,
    {
        ReactionKind { id, name }
    }

    /// Returns whether reactions of this kind can be scheduled in `scheduler`.
    pub fn is_registered<R, A, N, U>(&self, scheduler: &Scheduler<R, A, N, U>) -> (r: bool)
        ensures
            r == scheduler.reactions().has(self.id as isize),
    {
        scheduler.is_reaction_kind_registered(*self)
    }
}

impl PartialEq for ReactionKind {
    fn eq(&self, other: &Self) -> (r: bool) {
        self.id == other.id
    }
}

impl PartialEqSpecImpl for ReactionKind {
    open spec fn obeys_eq_spec() -> bool {
        true
    }

    open spec fn eq_spec(&self, other: &ReactionKind) -> bool {
        self.id == other.id
    }
}

impl Eq for ReactionKind {}

impl Default for ReactionKind {
    fn default() -> (r: Self)
        ensures
            r.id == 0,
            r.name@ == "<default>"@,
    {
        Self::new(0, "<default>")
    }
}

/// Kind of actions performed by the reactive runtime; kinds are equal when their ids are.
#[derive(Clone, Copy, Debug)]
pub struct ActionKind {
    pub id: i8,
    pub name: &'static str,
}

impl ActionKind {
    pub fn new(id: i8, name: &'static str) -> (r: Self)
        ensures
            r.id == id,
            r.name == name,
    {
        ActionKind { id, name }
    }

    /// Returns whether actions of this kind can be scheduled in `scheduler`.
    pub fn is_registered<R, A, N, U>(&self, scheduler: &Scheduler<R, A, N, U>) -> (r: bool)
        ensures
            r == scheduler.actions().has(self.id as isize),
    {
        scheduler.is_action_kind_registered(*self)
    }
}

impl PartialEq for ActionKind {
    fn eq(&self, other: &Self) -> (r: bool) {
        self.id == other.id
    }
}

impl PartialEqSpecImpl for ActionKind {
    open spec fn obeys_eq_spec() -> bool {
        true
    }

    open spec fn eq_spec(&self, other: &ActionKind) -> bool {
        self.id == other.id
    }
}

impl Eq for ActionKind {}

impl Default for ActionKind {
    fn default() -> (r: Self)
        ensures
            r.id == 0,
            r.name@ == "<default>"@,
    {
        Self::new(0, "<default>")
    }
}

/// Scheduled work of one kind.
pub struct Bucket<T> {
    pub id: isize,
    pub items: Vec<T>,
}

/// Queues of scheduled work, one per registered kind, kept in ascending order of the kinds.
pub struct Buckets<T> {
    buckets: Vec<Bucket<T>>,
}

/// Every queued item, kind by kind in ascending order, each queue in order.
pub open spec fn flatten_items<T>(bs: Seq<(isize, Seq<T>)>) -> Seq<T>
    decreases bs.len(),
{
    if bs.len() == 0 {
        Seq::empty()
    } else {
        bs[0].1 + flatten_items(bs.drop_first())
    }
}

impl<T> Buckets<T> {
    /// The queues, in ascending order of their kinds.
    pub closed spec fn view(&self) -> Seq<(isize, Seq<T>)> {
        self.buckets@.map_values(|b: Bucket<T>| (b.id, b.items@))
    }

    pub open spec fn index_of(&self, id: isize) -> int {
        choose|i: int| 0 <= i < self@.len() && self@[i].0 == id
    }

    /// A queue for kind `id` exists.
    pub open spec fn has(&self, id: isize) -> bool {
        exists|i: int| 0 <= i < self@.len() && self@[i].0 == id
    }

    /// The items queued for kind `id`.
    pub open spec fn queue(&self, id: isize) -> Seq<T> {
        self@[self.index_of(id)].1
    }

    pub open spec fn wf(&self) -> bool {
        forall|i: int, j: int| 0 <= i < j < self@.len() ==> self@[i].0 < self@[j].0
    }

    /// Creates a table with no queues.
    pub fn new() -> (r: Self)
        ensures
            r.wf(),
            r@ == Seq::<(isize, Seq<T>)>::empty(),
    {
        let r = Buckets { buckets: Vec::new() };
        assert(r@ =~= Seq::<(isize, Seq<T>)>::empty());
        r
    }

    /// Returns whether a queue for kind `id` exists.
    pub fn contains_bucket(&self, id: isize) -> (r: bool)
        ensures
            r == self.has(id),
    {
        let mut i: usize = 0;
        while i < self.buckets.len()
            invariant
                i <= self.buckets@.len(),
                forall|j: int| 0 <= j < i ==> self@[j].0 != id,
            decreases self.buckets@.len() - i,
        {
            if self.buckets[i].id == id {
                assert(self@[i as int].0 == id);
                return true;
            }
            i = i + 1;
        }
        false
    }

    /// Adds an empty queue for kind `id`; an existing queue is kept as it is.
    pub fn register_bucket(&mut self, id: isize)
        requires
            old(self).wf(),
        ensures
            final(self).wf(),
            final(self).has(id),
            old(self).has(id) ==> final(self)@ == old(self)@,
            !old(self).has(id) ==> exists|p: int|
                0 <= p <= old(self)@.len() && final(self)@ == old(self)@.insert(p, (id, Seq::<T>::empty())),
    {
        let mut p: usize = 0;
        while p < self.buckets.len() && self.buckets[p].id < id
            invariant
                p <= self.buckets@.len(),
                forall|j: int| 0 <= j < p ==> self@[j].0 < id,
            decreases self.buckets@.len() - p,
        {
            p = p + 1;
        }
        if p < self.buckets.len() && self.buckets[p].id == id {
            assert(self@[p as int].0 == id);
            return;
        }
        self.buckets.insert(p, Bucket { id, items: Vec::new() });
        proof {
            assert(self@ =~= old(self)@.insert(p as int, (id, Seq::<T>::empty())));
            assert(self@[p as int].0 == id);
            assert(!old(self).has(id)) by {
                if old(self).has(id) {
                    let j = choose|j: int| 0 <= j < old(self)@.len() && old(self)@[j].0 == id;
                    if j > p {
                        assert(old(self)@[p as int].0 < old(self)@[j].0);
                    }
                }
            }
        }
    }

    /// Appends `item` to the queue of kind `id`; returns `false`, dropping the item, when no
    /// such queue exists.
    pub fn try_push(&mut self, id: isize, item: T) -> (r: bool)
        requires
            old(self).wf(),
        ensures
            final(self).wf(),
            r == old(self).has(id),
            r ==> final(self)@ == old(self)@.update(
                old(self).index_of(id),
                (id, old(self).queue(id).push(item)),
            ),
            !r ==> final(self)@ == old(self)@,
    {
        let mut i: usize = 0;
        while i < self.buckets.len()
            invariant
                *self == *old(self),
                self.wf(),
                i <= self.buckets@.len(),
                forall|j: int| 0 <= j < i ==> self@[j].0 != id,
            decreases self.buckets@.len() - i,
        {
            if self.buckets[i].id == id {
                proof {
                    assert(self@[i as int].0 == id);
                    let k = self.index_of(id);
                    if k != i {
                        if k < i { } else { assert(self@[i as int].0 < self@[k].0); }
                    }
                }
                let bucket = &mut self.buckets[i];
                bucket.items.push(item);
                proof {
                    assert(self@ =~= old(self)@.update(i as int, (id, old(self)@[i as int].1.push(item))));
                    assert forall|a: int, b: int| 0 <= a < b < self@.len() implies self@[a].0 < self@[b].0 by {
                        assert(self@[a].0 == old(self)@[a].0);
                        assert(self@[b].0 == old(self)@[b].0);
                    }
                }
                return true;
            }
            i = i + 1;
        }
        false
    }

    /// Returns whether every queue is empty.
    pub fn is_empty(&self) -> (r: bool)
        ensures
            r == (flatten_items(self@).len() == 0),
            r == (forall|j: int| 0 <= j < self@.len() ==> (#[trigger] self@[j]).1.len() == 0),
    {
        let mut i: usize = 0;
        while i < self.buckets.len()
            invariant
                i <= self.buckets@.len(),
                forall|j: int| 0 <= j < i ==> self@[j].1.len() == 0,
            decreases self.buckets@.len() - i,
        {
            if self.buckets[i].items.len() > 0 {
                proof {
                    lemma_flatten_len_at_least(self@, i as int);
                    assert(self@[i as int].1.len() > 0);
                }
                return false;
            }
            i = i + 1;
        }
        proof {
            lemma_flatten_all_empty(self@);
        }
        true
    }

    /// Moves the queued items of kind `id` (of every kind for `None`, kind by kind in ascending
    /// order) to the end of `out`, in the order they were queued; the moved queues stay
    /// registered and become empty.
    pub fn drain(&mut self, id: Option<isize>, out: &mut Vec<T>)
        requires
            old(self).wf(),
        ensures
            final(self).wf(),
            final(self)@.len() == old(self)@.len(),
            forall|i: int| 0 <= i < old(self)@.len() ==> #[trigger] final(self)@[i].0 == old(self)@[i].0,
            id is None ==> final(out)@ == old(out)@ + flatten_items(old(self)@) && forall|i: int|
                0 <= i < final(self)@.len() ==> (#[trigger] final(self)@[i]).1.len() == 0,
            id matches Some(k) ==> (if old(self).has(k) {
                &&& final(out)@ == old(out)@ + old(self).queue(k)
                &&& final(self)@ == old(self)@.update(old(self).index_of(k), (k, Seq::<T>::empty()))
            } else {
                &&& final(out)@ == old(out)@
                &&& final(self)@ == old(self)@
            }),
    {
        let mut i: usize = 0;
        while i < self.buckets.len()
            invariant
                old(self).wf(),
                self@.len() == old(self)@.len(),
                forall|j: int| 0 <= j < old(self)@.len() ==> #[trigger] self@[j].0 == old(self)@[j].0,
                i <= self.buckets@.len(),
                id is None ==> out@ == old(out)@ + flatten_items(old(self)@.take(i as int)) && forall|j: int|
                    0 <= j < i ==> (#[trigger] self@[j]).1.len() == 0,
                id is None ==> forall|j: int| i <= j < self@.len() ==> #[trigger] self@[j] == old(self)@[j],
                id matches Some(k) ==> forall|j: int| 0 <= j < i ==> old(self)@[j].0 != k,
                id is Some ==> self@ == old(self)@ && out@ == old(out)@,
            decreases self.buckets@.len() - i,
        {
            let take = match id {
                None => true,
                Some(k) => self.buckets[i].id == k,
            };
            if take {
                let ghost out0 = out@;
                let ghost before = self@;
                let bucket = &mut self.buckets[i];
                out.append(&mut bucket.items);
                proof {
                    assert(self@ =~= before.update(i as int, (before[i as int].0, Seq::<T>::empty())));
                    lemma_flatten_take_push(old(self)@, i as int);
                }
                if id.is_some() {
                    proof {
                        let k = id->Some_0;
                        assert(old(self)@[i as int].0 == k);
                        let m = old(self).index_of(k);
                        if m != i {
                            if m < i { } else { assert(old(self)@[i as int].0 < old(self)@[m].0); }
                        }
                    }
                    return;
                }
            }
            i = i + 1;
        }
        proof {
            assert(old(self)@.take(i as int) =~= old(self)@);
            if id is Some {
                let k = id->Some_0;
                assert(!old(self).has(k));
            }
        }
    }
}

/// A kind keeps its queue when the kinds stay the same, index by index.
pub proof fn lemma_has_same_kinds<T>(b0: Buckets<T>, b1: Buckets<T>, id: isize)
    requires
        b0.has(id),
        b1@.len() == b0@.len(),
        forall|i: int| 0 <= i < b0@.len() ==> #[trigger] b1@[i].0 == b0@[i].0,
    ensures
        b1.has(id),
{
    let i = choose|i: int| 0 <= i < b0@.len() && b0@[i].0 == id;
    assert(b1@[i].0 == id);
}

/// A kind keeps its queue when a queue is added.
pub proof fn lemma_has_after_insert<T>(b0: Buckets<T>, b1: Buckets<T>, p: int, e: (isize, Seq<T>), id: isize)
    requires
        b0.has(id),
        0 <= p <= b0@.len(),
        b1@ == b0@.insert(p, e),
    ensures
        b1.has(id),
{
    let i = choose|i: int| 0 <= i < b0@.len() && b0@[i].0 == id;
    if i < p {
        assert(b1@[i] == b0@[i]);
    } else {
        assert(b1@[i + 1] == b0@[i]);
    }
}

/// The flattened items of the first `i + 1` queues are those of the first `i` followed by queue
/// `i`.
pub proof fn lemma_flatten_take_push<T>(bs: Seq<(isize, Seq<T>)>, i: int)
    requires
        0 <= i < bs.len(),
    ensures
        flatten_items(bs.take(i + 1)) == flatten_items(bs.take(i)) + bs[i].1,
    decreases i,
{
    if i == 0 {
        assert(bs.take(1).drop_first() =~= Seq::<(isize, Seq<T>)>::empty());
        assert(bs.take(0) =~= Seq::<(isize, Seq<T>)>::empty());
        assert(bs.take(1)[0] == bs[0]);
        assert(flatten_items(bs.take(1).drop_first()) == Seq::<T>::empty());
        assert(flatten_items(bs.take(0)) == Seq::<T>::empty());
        assert(flatten_items(bs.take(1)) =~= bs[0].1);
    } else {
        let tail = bs.drop_first();
        lemma_flatten_take_push(tail, i - 1);
        assert(bs.take(i + 1).drop_first() =~= tail.take(i));
        assert(bs.take(i).drop_first() =~= tail.take(i - 1));
        assert(bs.take(i + 1)[0] == bs[0]);
        assert(bs.take(i)[0] == bs[0]);
        assert(tail[i - 1] == bs[i]);
        assert(flatten_items(bs.take(i + 1)) =~= bs[0].1 + (flatten_items(tail.take(i - 1)) + bs[i].1));
    }
}

/// A non-empty queue makes the flattened items non-empty.
pub proof fn lemma_flatten_len_at_least<T>(bs: Seq<(isize, Seq<T>)>, i: int)
    requires
        0 <= i < bs.len(),
        bs[i].1.len() > 0,
    ensures
        flatten_items(bs).len() > 0,
    decreases i,
{
    if i > 0 {
        lemma_flatten_len_at_least(bs.drop_first(), i - 1);
    }
}

/// Only empty queues flatten to no items.
pub proof fn lemma_flatten_all_empty<T>(bs: Seq<(isize, Seq<T>)>)
    requires
        forall|j: int| 0 <= j < bs.len() ==> bs[j].1.len() == 0,
    ensures
        flatten_items(bs).len() == 0,
    decreases bs.len(),
{
    if bs.len() > 0 {
        let tail = bs.drop_first();
        assert forall|j: int| 0 <= j < tail.len() implies tail[j].1.len() == 0 by {
            assert(tail[j] == bs[j + 1]);
        }
        lemma_flatten_all_empty(tail);
    }
}

} // verus!
