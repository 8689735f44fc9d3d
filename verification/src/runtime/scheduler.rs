//! The thread's scheduling tables: queued reactions and actions by kind, pending notifications
//! and unbinds, the reactions that outside wakers can trigger, and whether the runtime waits for
//! a wake-up.
//!
//! The tables decide; the runtime runs what they hand out, and wakes its waker when a scheduling
//! call says so.

use vstd::prelude::*;

use crate::collections::slots::Slots;
use crate::runtime::{ActionKind, Buckets, ReactionKind};

verus! {

/// A reaction that an outside waker can trigger.
pub enum WakeReaction<N, A> {
    /// Queues a notification.
    Notify(N),
    /// Queues the next step of an asynchronous action of the given kind.
    AsyncAction { kind: ActionKind, action: A },
}

/// The map without the given keys.
pub open spec fn without_keys<V>(m: Map<usize, V>, keys: Seq<usize>) -> Map<usize, V>
    decreases keys.len(),
{
    if keys.len() == 0 {
        m
    } else {
        without_keys(m, keys.drop_last()).remove(keys.last())
    }
}

/// The reactions that the keys find in the table, in the order of the keys; keys that are not in
/// the table find nothing.
pub open spec fn woken<N, A>(table: Map<usize, WakeReaction<N, A>>, keys: Seq<usize>) -> Seq<WakeReaction<N, A>>
    decreases keys.len(),
{
    if keys.len() == 0 {
        Seq::empty()
    } else {
        let rest = woken(table, keys.drop_last());
        if table.contains_key(keys.last()) {
            rest.push(table[keys.last()])
        } else {
            rest
        }
    }
}

/// The notifications among the reactions, in order.
pub open spec fn notify_payloads<N, A>(es: Seq<WakeReaction<N, A>>) -> Seq<N>
    decreases es.len(),
{
    if es.len() == 0 {
        Seq::empty()
    } else {
        let rest = notify_payloads(es.drop_last());
        match es.last() {
            WakeReaction::Notify(n) => rest.push(n),
            _ => rest,
        }
    }
}

/// The asynchronous actions of kind `id` among the reactions, in order.
pub open spec fn action_payloads<N, A>(es: Seq<WakeReaction<N, A>>, id: isize) -> Seq<A>
    decreases es.len(),
{
    if es.len() == 0 {
        Seq::empty()
    } else {
        let rest = action_payloads(es.drop_last(), id);
        match es.last() {
            WakeReaction::AsyncAction { kind, action } => if kind.id as isize == id {
                rest.push(action)
            } else {
                rest
            },
            _ => rest,
        }
    }
}

/// `dst` holds a clone of each value of `src`, in the same order.
pub open spec fn clones<T: Clone>(src: Seq<T>, dst: Seq<T>) -> bool {
    &&& src.len() == dst.len()
    &&& forall|i: int| 0 <= i < src.len() ==> vstd::pervasive::cloned(src[i], #[trigger] dst[i])
}

/// The queue `after` is the queue `before` followed by clones of `added`.
pub open spec fn appended_clones<T: Clone>(before: Seq<T>, added: Seq<T>, after: Seq<T>) -> bool {
    &&& before.len() <= after.len()
    &&& after.take(before.len() as int) == before
    &&& clones(added, after.skip(before.len() as int))
}

/// A table of queues with only the default kind registered, and nothing queued.
pub open spec fn default_queues<T>() -> Seq<(isize, Seq<T>)> {
    seq![(0isize, Seq::<T>::empty())]
}

/// The scheduling tables of a thread.
pub struct Scheduler<R, A, N, U> {
    is_runtime_exists: bool,
    unbinds: Vec<U>,
    actions: Buckets<A>,
    notifys: Vec<N>,
    need_wake: bool,
    wakes: Slots<WakeReaction<N, A>>,
    reactions: Buckets<R>,
}

impl<R, A, N, U> Scheduler<R, A, N, U> {
    /// A runtime owns the tables.
    pub closed spec fn runtime_exists(&self) -> bool {
        self.is_runtime_exists
    }

    /// Source bindings waiting to be unbound, in the order they were dropped.
    pub closed spec fn unbinds(&self) -> Seq<U> {
        self.unbinds@
    }

    /// Queued actions by kind.
    pub closed spec fn actions(&self) -> Buckets<A> {
        self.actions
    }

    /// Queued notifications, in order.
    pub closed spec fn notifys(&self) -> Seq<N> {
        self.notifys@
    }

    /// The runtime waits for a wake-up: the next scheduling call has to wake it.
    pub closed spec fn need_wake(&self) -> bool {
        self.need_wake
    }

    /// The reactions that outside wakers can trigger, by key.
    pub closed spec fn wakes(&self) -> Map<usize, WakeReaction<N, A>> {
        self.wakes@
    }

    /// Queued reactions by kind.
    pub closed spec fn reactions(&self) -> Buckets<R> {
        self.reactions
    }

    pub closed spec fn wf(&self) -> bool {
        &&& self.actions.wf()
        &&& self.reactions.wf()
        &&& self.wakes.wf()
    }

    /// The default kind, kind 0, of reactions and of actions is registered.
    pub open spec fn default_kinds_registered(&self) -> bool {
        self.reactions().has(0) && self.actions().has(0)
    }

    /// Nothing is waiting to run.
    pub open spec fn is_idle(&self) -> bool {
        &&& self.notifys().len() == 0
        &&& crate::runtime::flatten_items(self.actions()@).len() == 0
        &&& crate::runtime::flatten_items(self.reactions()@).len() == 0
        &&& self.unbinds().len() == 0
    }

    /// The tables are idle exactly when no notification, unbind, action of any kind or reaction
    /// of any kind is queued.
    pub proof fn lemma_idle_exactly_when_nothing_queued(s: Self)
        ensures
            s.is_idle() <==> {
                &&& s.notifys().len() == 0
                &&& s.unbinds().len() == 0
                &&& forall|i: int| 0 <= i < s.actions()@.len() ==> (#[trigger] s.actions()@[i]).1.len() == 0
                &&& forall|i: int| 0 <= i < s.reactions()@.len() ==> (#[trigger] s.reactions()@[i]).1.len() == 0
            },
    {
        if forall|i: int| 0 <= i < s.actions()@.len() ==> (#[trigger] s.actions()@[i]).1.len() == 0 {
            crate::runtime::lemma_flatten_all_empty(s.actions()@);
        } else {
            let i = choose|i: int| 0 <= i < s.actions()@.len() && (#[trigger] s.actions()@[i]).1.len() != 0;
            crate::runtime::lemma_flatten_len_at_least(s.actions()@, i);
        }
        if forall|i: int| 0 <= i < s.reactions()@.len() ==> (#[trigger] s.reactions()@[i]).1.len() == 0 {
            crate::runtime::lemma_flatten_all_empty(s.reactions()@);
        } else {
            let i = choose|i: int| 0 <= i < s.reactions()@.len() && (#[trigger] s.reactions()@[i]).1.len() != 0;
            crate::runtime::lemma_flatten_len_at_least(s.reactions()@, i);
        }
    }

    /// Tables with only the default kinds registered, nothing queued, and no runtime.
    pub fn new() -> (r: Self)
        ensures
            r.wf(),
            !r.runtime_exists(),
            !r.need_wake(),
            r.reactions()@ == default_queues::<R>(),
            r.actions()@ == default_queues::<A>(),
            r.notifys() == Seq::<N>::empty(),
            r.unbinds() == Seq::<U>::empty(),
            r.wakes() == Map::<usize, WakeReaction<N, A>>::empty(),
            r.default_kinds_registered(),
    {
        let mut reactions: Buckets<R> = Buckets::new();
        let mut actions: Buckets<A> = Buckets::new();
        reactions.register_bucket(0);
        actions.register_bucket(0);
        proof {
            let p = choose|p: int| 0 <= p <= 0 && reactions@ == Seq::<(isize, Seq<R>)>::empty().insert(p, (0isize, Seq::<R>::empty()));
            assert(reactions@ =~= default_queues::<R>());
            let q = choose|p: int| 0 <= p <= 0 && actions@ == Seq::<(isize, Seq<A>)>::empty().insert(p, (0isize, Seq::<A>::empty()));
            assert(actions@ =~= default_queues::<A>());
            assert(reactions@[0].0 == 0 && actions@[0].0 == 0);
        }
        Scheduler {
            is_runtime_exists: false,
            unbinds: Vec::new(),
            actions,
            notifys: Vec::new(),
            need_wake: false,
            wakes: Slots::new(),
            reactions,
        }
    }

    /// Returns whether a runtime owns the tables.
    pub fn has_runtime(&self) -> (r: bool)
        ensures
            r == self.runtime_exists(),
    {
        self.is_runtime_exists
    }

    /// Marks the tables as owned by a runtime; returns whether one already owned them.
    pub fn start_runtime(&mut self) -> (was: bool)
        ensures
            was == old(self).runtime_exists(),
            final(self).runtime_exists(),
            final(self).reactions() == old(self).reactions(),
            final(self).actions() == old(self).actions(),
            final(self).notifys() == old(self).notifys(),
            final(self).unbinds() == old(self).unbinds(),
            final(self).wakes() == old(self).wakes(),
            final(self).need_wake() == old(self).need_wake(),
            final(self).wf() == old(self).wf(),
    {
        let was = self.is_runtime_exists;
        self.is_runtime_exists = true;
        was
    }

    /// Ends the runtime: its kinds are forgotten and the queued reactions and actions dropped.
    pub fn finish_runtime(&mut self)
        requires
            old(self).wf(),
        ensures
            final(self).wf(),
            !final(self).runtime_exists(),
            final(self).reactions()@ == default_queues::<R>(),
            final(self).actions()@ == default_queues::<A>(),
            final(self).notifys() == old(self).notifys(),
            final(self).unbinds() == old(self).unbinds(),
            final(self).wakes() == old(self).wakes(),
            final(self).need_wake() == old(self).need_wake(),
            final(self).default_kinds_registered(),
    {
        self.is_runtime_exists = false;
        let mut reactions: Buckets<R> = Buckets::new();
        let mut actions: Buckets<A> = Buckets::new();
        reactions.register_bucket(0);
        actions.register_bucket(0);
        proof {
            let p = choose|p: int| 0 <= p <= 0 && reactions@ == Seq::<(isize, Seq<R>)>::empty().insert(p, (0isize, Seq::<R>::empty()));
            assert(reactions@ =~= default_queues::<R>());
            let q = choose|p: int| 0 <= p <= 0 && actions@ == Seq::<(isize, Seq<A>)>::empty().insert(p, (0isize, Seq::<A>::empty()));
            assert(actions@ =~= default_queues::<A>());
            assert(reactions@[0].0 == 0 && actions@[0].0 == 0);
        }
        self.reactions = reactions;
        self.actions = actions;
    }

    /// Registers a kind of reactions; only a running runtime registers kinds.
    pub fn register_reaction_kind(&mut self, kind: ReactionKind)
        requires
            old(self).wf(),
            old(self).runtime_exists(),
        ensures
            final(self).wf(),
            final(self).runtime_exists(),
            final(self).reactions().has(kind.id as isize),
            old(self).reactions().has(kind.id as isize) ==> final(self).reactions()@ == old(self).reactions()@,
            ({
                let id = kind.id as isize;
                !old(self).reactions().has(id) ==> exists|p: int|
                    0 <= p <= old(self).reactions()@.len() && final(self).reactions()@ == old(self).reactions()@.insert(
                        p,
                        (id, Seq::<R>::empty()),
                    )
            }),
            final(self).actions() == old(self).actions(),
            final(self).notifys() == old(self).notifys(),
            final(self).unbinds() == old(self).unbinds(),
            final(self).wakes() == old(self).wakes(),
            final(self).need_wake() == old(self).need_wake(),
            old(self).default_kinds_registered() ==> final(self).default_kinds_registered(),
    {
        self.reactions.register_bucket(kind.id as isize);
        proof {
            let id = kind.id as isize;
            if old(self).default_kinds_registered() && !old(self).reactions().has(id) {
                let p = choose|p: int|
                    0 <= p <= old(self).reactions()@.len() && self.reactions()@ == old(self).reactions()@.insert(
                        p,
                        (id, Seq::<R>::empty()),
                    );
                crate::runtime::lemma_has_after_insert(old(self).reactions(), self.reactions(), p, (id, Seq::<R>::empty()), 0);
            }
        }
    }

    /// Registers a kind of actions; only a running runtime registers kinds.
    pub fn register_action_kind(&mut self, kind: ActionKind)
        requires
            old(self).wf(),
            old(self).runtime_exists(),
        ensures
            final(self).wf(),
            final(self).runtime_exists(),
            final(self).actions().has(kind.id as isize),
            old(self).actions().has(kind.id as isize) ==> final(self).actions()@ == old(self).actions()@,
            ({
                let id = kind.id as isize;
                !old(self).actions().has(id) ==> exists|p: int|
                    0 <= p <= old(self).actions()@.len() && final(self).actions()@ == old(self).actions()@.insert(
                        p,
                        (id, Seq::<A>::empty()),
                    )
            }),
            final(self).reactions() == old(self).reactions(),
            final(self).notifys() == old(self).notifys(),
            final(self).unbinds() == old(self).unbinds(),
            final(self).wakes() == old(self).wakes(),
            final(self).need_wake() == old(self).need_wake(),
            old(self).default_kinds_registered() ==> final(self).default_kinds_registered(),
    {
        self.actions.register_bucket(kind.id as isize);
        proof {
            let id = kind.id as isize;
            if old(self).default_kinds_registered() && !old(self).actions().has(id) {
                let p = choose|p: int|
                    0 <= p <= old(self).actions()@.len() && self.actions()@ == old(self).actions()@.insert(
                        p,
                        (id, Seq::<A>::empty()),
                    );
                crate::runtime::lemma_has_after_insert(old(self).actions(), self.actions(), p, (id, Seq::<A>::empty()), 0);
            }
        }
    }

    /// Returns whether reactions of `kind` can be scheduled.
    pub fn is_reaction_kind_registered(&self, kind: ReactionKind) -> (r: bool)
        ensures
            r == self.reactions().has(kind.id as isize),
    {
        self.reactions.contains_bucket(kind.id as isize)
    }

    /// Returns whether actions of `kind` can be scheduled.
    pub fn is_action_kind_registered(&self, kind: ActionKind) -> (r: bool)
        ensures
            r == self.actions().has(kind.id as isize),
    {
        self.actions.contains_bucket(kind.id as isize)
    }

    /// Decides whether a scheduling call has to wake the waiting runtime; after a wake-up the
    /// runtime no longer waits.
    fn wake(&mut self) -> (r: bool)
        ensures
            r == old(self).need_wake(),
            !final(self).need_wake(),
            final(self).is_runtime_exists == old(self).is_runtime_exists,
            final(self).unbinds == old(self).unbinds,
            final(self).actions == old(self).actions,
            final(self).notifys == old(self).notifys,
            final(self).wakes == old(self).wakes,
            final(self).reactions == old(self).reactions,
    {
        if !self.need_wake {
            return false;
        }
        self.need_wake = false;
        true
    }

    /// Queues `reaction` under its registered kind; returns whether the waiting runtime has to
    /// be woken.
    pub fn schedule_reaction(&mut self, kind: ReactionKind, reaction: R) -> (r: bool)
        requires
            old(self).wf(),
            old(self).reactions().has(kind.id as isize),
        ensures
            final(self).wf(),
            r == old(self).need_wake(),
            !final(self).need_wake(),
            final(self).reactions()@ == old(self).reactions()@.update(
                old(self).reactions().index_of(kind.id as isize),
                (kind.id as isize, old(self).reactions().queue(kind.id as isize).push(reaction)),
            ),
            final(self).runtime_exists() == old(self).runtime_exists(),
            final(self).actions() == old(self).actions(),
            final(self).notifys() == old(self).notifys(),
            final(self).unbinds() == old(self).unbinds(),
            final(self).wakes() == old(self).wakes(),
            old(self).default_kinds_registered() ==> final(self).default_kinds_registered(),
    {
        self.reactions.try_push(kind.id as isize, reaction);
        proof {
            if old(self).default_kinds_registered() {
                let b0 = old(self).reactions();
                assert forall|i: int| 0 <= i < b0@.len() implies #[trigger] self.reactions()@[i].0 == b0@[i].0 by {}
                crate::runtime::lemma_has_same_kinds(b0, self.reactions(), 0);
            }
        }
        self.wake()
    }

    /// Queues `action` under its registered kind; returns whether the waiting runtime has to be
    /// woken.
    pub fn schedule_action(&mut self, kind: ActionKind, action: A) -> (r: bool)
        requires
            old(self).wf(),
            old(self).actions().has(kind.id as isize),
        ensures
            final(self).wf(),
            r == old(self).need_wake(),
            !final(self).need_wake(),
            final(self).actions()@ == old(self).actions()@.update(
                old(self).actions().index_of(kind.id as isize),
                (kind.id as isize, old(self).actions().queue(kind.id as isize).push(action)),
            ),
            final(self).runtime_exists() == old(self).runtime_exists(),
            final(self).reactions() == old(self).reactions(),
            final(self).notifys() == old(self).notifys(),
            final(self).unbinds() == old(self).unbinds(),
            final(self).wakes() == old(self).wakes(),
            old(self).default_kinds_registered() ==> final(self).default_kinds_registered(),
    {
        self.actions.try_push(kind.id as isize, action);
        proof {
            if old(self).default_kinds_registered() {
                let b0 = old(self).actions();
                assert forall|i: int| 0 <= i < b0@.len() implies #[trigger] self.actions()@[i].0 == b0@[i].0 by {}
                crate::runtime::lemma_has_same_kinds(b0, self.actions(), 0);
            }
        }
        self.wake()
    }

    /// Queues a notification; returns whether the waiting runtime has to be woken.
    pub fn push_notify(&mut self, notify: N) -> (r: bool)
        ensures
            r == old(self).need_wake(),
            !final(self).need_wake(),
            final(self).notifys() == old(self).notifys().push(notify),
            final(self).runtime_exists() == old(self).runtime_exists(),
            final(self).reactions() == old(self).reactions(),
            final(self).actions() == old(self).actions(),
            final(self).unbinds() == old(self).unbinds(),
            final(self).wakes() == old(self).wakes(),
            final(self).wf() == old(self).wf(),
    {
        self.notifys.push(notify);
        self.wake()
    }

    /// Queues source bindings that were dropped outside the runtime, to be unbound later.
    pub fn push_unbinds(&mut self, unbinds: U)
        ensures
            final(self).unbinds() == old(self).unbinds().push(unbinds),
            final(self).need_wake() == old(self).need_wake(),
            final(self).notifys() == old(self).notifys(),
            final(self).runtime_exists() == old(self).runtime_exists(),
            final(self).reactions() == old(self).reactions(),
            final(self).actions() == old(self).actions(),
            final(self).wakes() == old(self).wakes(),
            final(self).wf() == old(self).wf(),
    {
        self.unbinds.push(unbinds);
    }

    /// Exchanges the queued unbinds with `values` (an empty buffer when called by the runtime);
    /// returns whether `values` now holds any.
    pub fn swap_unbinds(&mut self, values: &mut Vec<U>) -> (r: bool)
        ensures
            final(values)@ == old(self).unbinds(),
            final(self).unbinds() == old(values)@,
            r == (old(self).unbinds().len() > 0),
            final(self).need_wake() == old(self).need_wake(),
            final(self).notifys() == old(self).notifys(),
            final(self).runtime_exists() == old(self).runtime_exists(),
            final(self).reactions() == old(self).reactions(),
            final(self).actions() == old(self).actions(),
            final(self).wakes() == old(self).wakes(),
            final(self).wf() == old(self).wf(),
    {
        std::mem::swap(values, &mut self.unbinds);
        values.len() > 0
    }

    /// Moves the queued reactions of `kind` (of every kind for `None`, kind by kind in
    /// ascending order) to the end of `out`, in the order they were queued.
    pub fn get_reactions(&mut self, kind: Option<ReactionKind>, out: &mut Vec<R>)
        requires
            old(self).wf(),
        ensures
            final(self).wf(),
            final(self).reactions()@.len() == old(self).reactions()@.len(),
            forall|i: int|
                0 <= i < old(self).reactions()@.len() ==> #[trigger] final(self).reactions()@[i].0 == old(
                    self,
                ).reactions()@[i].0,
            kind is None ==> final(out)@ == old(out)@ + crate::runtime::flatten_items(old(self).reactions()@) && forall|i: int|
                0 <= i < final(self).reactions()@.len() ==> (#[trigger] final(self).reactions()@[i]).1.len() == 0,
            kind matches Some(k) ==> (if old(self).reactions().has(k.id as isize) {
                &&& final(out)@ == old(out)@ + old(self).reactions().queue(k.id as isize)
                &&& final(self).reactions()@ == old(self).reactions()@.update(
                    old(self).reactions().index_of(k.id as isize),
                    (k.id as isize, Seq::<R>::empty()),
                )
            } else {
                &&& final(out)@ == old(out)@
                &&& final(self).reactions()@ == old(self).reactions()@
            }),
            final(self).runtime_exists() == old(self).runtime_exists(),
            final(self).need_wake() == old(self).need_wake(),
            final(self).actions() == old(self).actions(),
            final(self).notifys() == old(self).notifys(),
            final(self).unbinds() == old(self).unbinds(),
            final(self).wakes() == old(self).wakes(),
            old(self).default_kinds_registered() ==> final(self).default_kinds_registered(),
    {
        let id = match kind {
            Some(k) => Some(k.id as isize),
            None => None,
        };
        self.reactions.drain(id, out);
        proof {
            if old(self).default_kinds_registered() {
                crate::runtime::lemma_has_same_kinds(old(self).reactions(), self.reactions(), 0);
            }
        }
    }

    /// Decides whether the runtime is ready to run: it is when anything is queued or an outside
    /// waker has made a request (`has_requests`); otherwise the runtime is to wait and the next
    /// scheduling call has to wake it.
    pub fn wait_for_ready(&mut self, has_requests: bool) -> (ready: bool)
        ensures
            ready == (!old(self).is_idle() || has_requests),
            final(self).need_wake() == !ready,
            has_requests ==> ready,
            old(self).notifys().len() > 0 ==> ready,
            old(self).unbinds().len() > 0 ==> ready,
            forall|i: int|
                0 <= i < old(self).actions()@.len() && (#[trigger] old(self).actions()@[i]).1.len() > 0 ==> ready,
            forall|i: int|
                0 <= i < old(self).reactions()@.len() && (#[trigger] old(self).reactions()@[i]).1.len() > 0 ==> ready,
            !ready ==> {
                &&& !has_requests
                &&& old(self).notifys().len() == 0
                &&& old(self).unbinds().len() == 0
                &&& forall|i: int| 0 <= i < old(self).actions()@.len() ==> (#[trigger] old(self).actions()@[i]).1.len() == 0
                &&& forall|i: int|
                    0 <= i < old(self).reactions()@.len() ==> (#[trigger] old(self).reactions()@[i]).1.len() == 0
            },
            final(self).runtime_exists() == old(self).runtime_exists(),
            final(self).reactions() == old(self).reactions(),
            final(self).actions() == old(self).actions(),
            final(self).notifys() == old(self).notifys(),
            final(self).unbinds() == old(self).unbinds(),
            final(self).wakes() == old(self).wakes(),
            final(self).wf() == old(self).wf(),
    {
        proof {
            if forall|i: int| 0 <= i < self.actions()@.len() ==> (#[trigger] self.actions()@[i]).1.len() == 0 {
                crate::runtime::lemma_flatten_all_empty(self.actions()@);
            }
            if forall|i: int| 0 <= i < self.reactions()@.len() ==> (#[trigger] self.reactions()@[i]).1.len() == 0 {
                crate::runtime::lemma_flatten_all_empty(self.reactions()@);
            }
        }
        self.need_wake = false;
        if self.notifys.len() > 0 || !self.actions.is_empty() || !self.reactions.is_empty() || self.unbinds.len()
            > 0 {
            return true;
        }
        if has_requests {
            return true;
        }
        self.need_wake = true;
        false
    }

    /// Adds a reaction that an outside waker can trigger and returns its key.
    pub fn insert_wake(&mut self, reaction: WakeReaction<N, A>) -> (key: usize)
        requires
            old(self).wf(),
        ensures
            final(self).wf(),
            !old(self).wakes().contains_key(key),
            final(self).wakes() == old(self).wakes().insert(key, reaction),
            final(self).runtime_exists() == old(self).runtime_exists(),
            final(self).need_wake() == old(self).need_wake(),
            final(self).reactions() == old(self).reactions(),
            final(self).actions() == old(self).actions(),
            final(self).notifys() == old(self).notifys(),
            final(self).unbinds() == old(self).unbinds(),
    {
        self.wakes.insert(reaction)
    }
}

impl<R, A: Clone, N: Clone, U> Scheduler<R, A, N, U> {
    /// The queued notifications and actions are those before followed by clones of what the
    /// reactions `es` queue: every notification, and every action of a registered kind under
    /// its kind.
    pub open spec fn queued_after(before: Self, es: Seq<WakeReaction<N, A>>, after: Self) -> bool {
        &&& appended_clones(before.notifys(), notify_payloads(es), after.notifys())
        &&& after.actions()@.len() == before.actions()@.len()
        &&& forall|i: int|
            0 <= i < before.actions()@.len() ==> {
                &&& (#[trigger] after.actions()@[i]).0 == before.actions()@[i].0
                &&& appended_clones(
                    before.actions()@[i].1,
                    action_payloads(es, before.actions()@[i].0),
                    after.actions()@[i].1,
                )
            }
    }

    /// Applies the requests of outside wakers: first forgets the reactions of the dropped
    /// wakers, then queues, in request order, the reaction of every woken waker that is still
    /// known.
    pub fn apply_wake(&mut self, drops: Vec<usize>, wakes: Vec<usize>)
        requires
            old(self).wf(),
        ensures
            final(self).wf(),
            final(self).wakes() == without_keys(old(self).wakes(), drops@),
            Self::queued_after(*old(self), woken(final(self).wakes(), wakes@), *final(self)),
            final(self).runtime_exists() == old(self).runtime_exists(),
            final(self).need_wake() == old(self).need_wake(),
            final(self).reactions() == old(self).reactions(),
            final(self).unbinds() == old(self).unbinds(),
            old(self).default_kinds_registered() ==> final(self).default_kinds_registered(),
    {
        let mut i: usize = 0;
        while i < drops.len()
            invariant
                self.wf(),
                i <= drops@.len(),
                self.wakes@ == without_keys(old(self).wakes@, drops@.take(i as int)),
                self.is_runtime_exists == old(self).is_runtime_exists,
                self.need_wake == old(self).need_wake,
                self.reactions == old(self).reactions,
                self.actions == old(self).actions,
                self.notifys == old(self).notifys,
                self.unbinds == old(self).unbinds,
            decreases drops@.len() - i,
        {
            assert(drops@.take(i as int + 1).drop_last() =~= drops@.take(i as int));
            self.wakes.remove(drops[i]);
            i = i + 1;
        }
        assert(drops@.take(drops@.len() as int) =~= drops@);
        let ghost table = self.wakes@;
        let ghost n0 = old(self).notifys@.len();
        proof {
            assert(self.notifys@.take(n0 as int) =~= old(self).notifys@);
            assert(self.notifys@.skip(n0 as int) =~= Seq::<N>::empty());
            assert(wakes@.take(0) =~= Seq::<usize>::empty());
            assert forall|b: int| 0 <= b < old(self).actions@.len() implies {
                &&& (#[trigger] self.actions@[b]).0 == old(self).actions@[b].0
                &&& appended_clones(
                    old(self).actions@[b].1,
                    action_payloads(woken(table, wakes@.take(0)), old(self).actions@[b].0),
                    self.actions@[b].1,
                )
            } by {
                assert(self.actions@[b].1.take(old(self).actions@[b].1.len() as int) =~= old(self).actions@[b].1);
                assert(self.actions@[b].1.skip(old(self).actions@[b].1.len() as int) =~= Seq::<A>::empty());
            }
        }
        let mut j: usize = 0;
        while j < wakes.len()
            invariant
                self.wf(),
                j <= wakes@.len(),
                self.wakes@ == table,
                n0 == old(self).notifys@.len(),
                Self::queued_after(*old(self), woken(table, wakes@.take(j as int)), *self),
                self.is_runtime_exists == old(self).is_runtime_exists,
                self.need_wake == old(self).need_wake,
                self.reactions == old(self).reactions,
                self.unbinds == old(self).unbinds,
                old(self).actions.wf(),
            decreases wakes@.len() - j,
        {
            let key = wakes[j];
            let ghost es = woken(table, wakes@.take(j as int));
            let ghost before = *self;
            assert(wakes@.take(j as int + 1).drop_last() =~= wakes@.take(j as int));
            assert(wakes@.take(j as int + 1).last() == key);
            match self.wakes.get(key) {
                Some(WakeReaction::Notify(n)) => {
                    let c = n.clone();
                    self.notifys.push(c);
                    proof {
                        let e = table[key];
                        assert(woken(table, wakes@.take(j as int + 1)) == es.push(e));
                        assert(es.push(e).drop_last() =~= es);
                        let added = notify_payloads(es.push(e));
                        assert(added == notify_payloads(es).push(*n));
                        let s0 = before.notifys@;
                        assert(n0 <= s0.len());
                        assert(self.notifys@ == s0.push(c));
                        assert(self.notifys@.take(n0 as int) =~= s0.take(n0 as int));
                        assert(self.notifys@.skip(n0 as int) =~= s0.skip(n0 as int).push(c));
                        assert forall|b: int| 0 <= b < old(self).actions@.len() implies {
                            &&& (#[trigger] self.actions@[b]).0 == old(self).actions@[b].0
                            &&& appended_clones(
                                old(self).actions@[b].1,
                                action_payloads(es.push(e), old(self).actions@[b].0),
                                self.actions@[b].1,
                            )
                        } by {
                            assert(action_payloads(es.push(e), old(self).actions@[b].0) == action_payloads(
                                es,
                                old(self).actions@[b].0,
                            ));
                        }
                    }
                },
                Some(WakeReaction::AsyncAction { kind, action }) => {
                    let c = action.clone();
                    let id = kind.id as isize;
                    let ghost q0 = before.actions@;
                    self.actions.try_push(id, c);
                    proof {
                        let e = table[key];
                        assert(woken(table, wakes@.take(j as int + 1)) == es.push(e));
                        assert(es.push(e).drop_last() =~= es);
                        assert(notify_payloads(es.push(e)) == notify_payloads(es));
                        assert forall|b: int| 0 <= b < old(self).actions@.len() implies {
                            &&& (#[trigger] self.actions@[b]).0 == old(self).actions@[b].0
                            &&& appended_clones(
                                old(self).actions@[b].1,
                                action_payloads(es.push(e), old(self).actions@[b].0),
                                self.actions@[b].1,
                            )
                        } by {
                            let bid = old(self).actions@[b].0;
                            let len0 = old(self).actions@[b].1.len() as int;
                            assert(q0[b].0 == bid);
                            if before.actions.has(id) && before.actions.index_of(id) == b {
                                assert(action_payloads(es.push(e), bid) == action_payloads(es, bid).push(*action));
                                assert(self.actions@[b].1 == q0[b].1.push(c));
                                assert(self.actions@[b].1.take(len0) =~= q0[b].1.take(len0));
                                assert(self.actions@[b].1.skip(len0) =~= q0[b].1.skip(len0).push(c));
                            } else {
                                if before.actions.has(id) {
                                    let k = before.actions.index_of(id);
                                    if bid == id {
                                        if k < b {
                                            assert(q0[k].0 < q0[b].0);
                                        } else {
                                            assert(q0[b].0 < q0[k].0);
                                        }
                                    }
                                } else {
                                    assert(bid != id);
                                }
                                assert(action_payloads(es.push(e), bid) == action_payloads(es, bid));
                                assert(self.actions@[b] == q0[b]);
                            }
                        }
                    }
                },
                None => {
                    proof {
                        assert(woken(table, wakes@.take(j as int + 1)) == es);
                    }
                },
            }
            j = j + 1;
        }
        assert(wakes@.take(wakes@.len() as int) =~= wakes@);
        proof {
            if old(self).default_kinds_registered() {
                assert(Self::queued_after(*old(self), woken(self.wakes(), wakes@), *self));
                crate::runtime::lemma_has_same_kinds(old(self).actions(), self.actions(), 0);
            }
        }
    }

    /// Applies the requests of outside wakers, then exchanges the queued notifications with
    /// `notifys` (an empty buffer when called by the runtime); returns whether `notifys` now
    /// holds any.
    pub fn get_notifys(&mut self, drops: Vec<usize>, wakes: Vec<usize>, notifys: &mut Vec<N>) -> (r: bool)
        requires
            old(self).wf(),
        ensures
            final(self).wf(),
            final(self).wakes() == without_keys(old(self).wakes(), drops@),
            appended_clones(
                old(self).notifys(),
                notify_payloads(woken(final(self).wakes(), wakes@)),
                final(notifys)@,
            ),
            final(self).notifys() == old(notifys)@,
            r == (final(notifys)@.len() > 0),
            final(self).runtime_exists() == old(self).runtime_exists(),
            final(self).need_wake() == old(self).need_wake(),
            final(self).reactions() == old(self).reactions(),
            final(self).unbinds() == old(self).unbinds(),
            old(self).default_kinds_registered() ==> final(self).default_kinds_registered(),
    {
        self.apply_wake(drops, wakes);
        std::mem::swap(notifys, &mut self.notifys);
        notifys.len() > 0
    }

    /// Applies the requests of outside wakers, then moves the queued actions of `kind` (of every
    /// kind for `None`, kind by kind in ascending order) to the end of `out`; returns whether
    /// any action of any kind was queued.
    pub fn get_actions(&mut self, kind: Option<ActionKind>, out: &mut Vec<A>, drops: Vec<usize>, wakes: Vec<usize>) -> (r:
        bool)
        requires
            old(self).wf(),
        ensures
            final(self).wf(),
            final(self).wakes() == without_keys(old(self).wakes(), drops@),
            exists|mid: Self|
                {
                    &&& #[trigger] Self::queued_after(*old(self), woken(final(self).wakes(), wakes@), mid)
                    &&& mid.notifys() == final(self).notifys()
                    &&& mid.actions().wf()
                    &&& r == (crate::runtime::flatten_items(mid.actions()@).len() > 0)
                    &&& final(self).actions()@.len() == mid.actions()@.len()
                    &&& forall|i: int|
                        0 <= i < mid.actions()@.len() ==> #[trigger] final(self).actions()@[i].0
                            == mid.actions()@[i].0
                    &&& kind is None ==> final(out)@ == old(out)@ + crate::runtime::flatten_items(mid.actions()@)
                        && forall|i: int|
                        0 <= i < final(self).actions()@.len() ==> (#[trigger] final(self).actions()@[i]).1.len() == 0
                    &&& kind matches Some(k) ==> (if mid.actions().has(k.id as isize) {
                        &&& final(out)@ == old(out)@ + mid.actions().queue(k.id as isize)
                        &&& final(self).actions()@ == mid.actions()@.update(
                            mid.actions().index_of(k.id as isize),
                            (k.id as isize, Seq::<A>::empty()),
                        )
                    } else {
                        &&& final(out)@ == old(out)@
                        &&& final(self).actions()@ == mid.actions()@
                    })
                },
            final(self).runtime_exists() == old(self).runtime_exists(),
            final(self).need_wake() == old(self).need_wake(),
            final(self).reactions() == old(self).reactions(),
            final(self).unbinds() == old(self).unbinds(),
            old(self).default_kinds_registered() ==> final(self).default_kinds_registered(),
    {
        self.apply_wake(drops, wakes);
        let ghost mid = *self;
        let was_empty = self.actions.is_empty();
        let id = match kind {
            Some(k) => Some(k.id as isize),
            None => None,
        };
        self.actions.drain(id, out);
        assert(Self::queued_after(*old(self), woken(self.wakes(), wakes@), mid));
        proof {
            if old(self).default_kinds_registered() {
                crate::runtime::lemma_has_same_kinds(mid.actions(), self.actions(), 0);
            }
        }
        !was_empty
    }
}

} // verus!
