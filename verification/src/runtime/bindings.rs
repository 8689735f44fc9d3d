//! The dependency tables of the runtime: which dependants a source notifies, and which
//! sources a computation read, in order.

use vstd::prelude::*;

use crate::collections::slots::Slots;
use crate::runtime::dirty::{Dirty, join, level_to_dirty};
use crate::runtime::{BindKey, DirtyLevel, Slot};

verus! {

/// A dependant bound to a source, with the dirty state the source last told it.
pub struct SinkBinding<S> {
    pub sink: S,
    pub slot: Slot,
    pub dirty: Dirty,
}

/// The dependants of a source, by binding key.
pub struct SinkBindings<S>(Slots<SinkBinding<S>>);

/// The binding after a notification of the given level.
pub open spec fn notified<S>(b: SinkBinding<S>, level: DirtyLevel) -> SinkBinding<S> {
    SinkBinding { dirty: join(b.dirty, level_to_dirty(level)), ..b }
}

/// The binding after its source settled whether it changed.
pub open spec fn settled<S>(b: SinkBinding<S>, is_dirty: bool) -> SinkBinding<S> {
    SinkBinding {
        dirty: if b.dirty == Dirty::MaybeDirty {
            if is_dirty { Dirty::Dirty } else { Dirty::Clean }
        } else {
            b.dirty
        },
        ..b
    }
}

/// The binding with another dirty state.
pub open spec fn with_dirty<S>(b: SinkBinding<S>, dirty: Dirty) -> SinkBinding<S> {
    SinkBinding { dirty, ..b }
}

/// The binding at another slot.
pub open spec fn with_slot<S>(b: SinkBinding<S>, slot: Slot) -> SinkBinding<S> {
    SinkBinding { slot, ..b }
}

/// A new, clean binding.
pub open spec fn clean_binding<S>(sink: S, slot: Slot) -> SinkBinding<S> {
    SinkBinding { sink, slot, dirty: Dirty::Clean }
}

/// Every binding of `m0` is in `m1`, notified with `level`.
pub open spec fn notified_table<S>(m0: Map<usize, SinkBinding<S>>, level: DirtyLevel, m1: Map<usize, SinkBinding<S>>) -> bool {
    &&& m1.dom() == m0.dom()
    &&& forall|k: usize| #[trigger] m1.contains_key(k) ==> m1[k] == notified(m0[k], level)
}

/// Every binding of `m0` is in `m1`, settled on whether its source changed.
pub open spec fn settled_table<S>(m0: Map<usize, SinkBinding<S>>, is_dirty: bool, m1: Map<usize, SinkBinding<S>>) -> bool {
    &&& m1.dom() == m0.dom()
    &&& forall|k: usize| #[trigger] m1.contains_key(k) ==> m1[k] == settled(m0[k], is_dirty)
}

/// The keys, in ascending order, of the bindings that are clean.
pub open spec fn clean_keys<S>(m: Map<usize, SinkBinding<S>>, keys: Seq<BindKey>) -> bool {
    &&& forall|i: int, j: int| 0 <= i < j < keys.len() ==> keys[i].0 < keys[j].0
    &&& forall|i: int| 0 <= i < keys.len() ==> #[trigger] m.contains_key(keys[i].0) && m[keys[i].0].dirty == Dirty::Clean
    &&& forall|k: usize| #[trigger] m.contains_key(k) && m[k].dirty == Dirty::Clean ==> exists|i: int|
        0 <= i < keys.len() && keys[i].0 == k
}

impl<S> SinkBindings<S> {
    /// The bindings, by key.
    pub closed spec fn view(&self) -> Map<usize, SinkBinding<S>> {
        self.0@
    }

    pub closed spec fn wf(&self) -> bool {
        self.0.wf()
    }

    pub fn new() -> (r: Self)
        ensures
            r.wf(),
            r@ == Map::<usize, SinkBinding<S>>::empty(),
    {
        SinkBindings(Slots::new())
    }

    /// Adds a clean binding of `sink` at `slot` and returns its key.
    pub fn bind_new(&mut self, sink: S, slot: Slot) -> (key: BindKey)
        requires
            old(self).wf(),
        ensures
            final(self).wf(),
            !old(self)@.contains_key(key.0),
            final(self)@ == old(self)@.insert(key.0, clean_binding(sink, slot)),
    {
        BindKey(self.0.insert(SinkBinding { sink, slot, dirty: Dirty::Clean }))
    }

    /// Marks a binding that was bound again to the same source as clean.
    pub fn mark_clean(&mut self, key: BindKey)
        requires
            old(self).wf(),
            old(self)@.contains_key(key.0),
        ensures
            final(self).wf(),
            final(self)@ == old(self)@.insert(key.0, with_dirty(old(self)@[key.0], Dirty::Clean)),
    {
        let b = self.0.get_mut(key.0);
        b.dirty = Dirty::Clean;
    }

    /// Moves a binding to the dependant's current slot.
    pub fn set_slot(&mut self, key: BindKey, slot: Slot)
        requires
            old(self).wf(),
            old(self)@.contains_key(key.0),
        ensures
            final(self).wf(),
            final(self)@ == old(self)@.insert(key.0, with_slot(old(self)@[key.0], slot)),
    {
        let b = self.0.get_mut(key.0);
        b.slot = slot;
    }

    /// Returns the binding with `key`, if any.
    pub fn get(&self, key: BindKey) -> (r: Option<&SinkBinding<S>>)
        ensures
            r == (if self@.contains_key(key.0) { Some(&self@[key.0]) } else { None }),
    {
        self.0.get(key.0)
    }

    /// Returns whether the dependant with `key` has to recompute.
    pub fn is_dirty(&self, key: BindKey) -> (r: bool)
        requires
            self@.contains_key(key.0),
            self@[key.0].dirty != Dirty::MaybeDirty,
        ensures
            r == (self@[key.0].dirty == Dirty::Dirty),
    {
        let b = self.0.get(key.0).unwrap();
        b.dirty.is_dirty()
    }

    /// Removes the binding with `key`.
    pub fn unbind(&mut self, key: BindKey)
        requires
            old(self).wf(),
        ensures
            final(self).wf(),
            final(self)@ == old(self)@.remove(key.0),
    {
        self.0.remove(key.0);
    }

    /// Returns whether no dependant is bound.
    pub fn is_empty(&self) -> (r: bool)
        ensures
            r == (self@ == Map::<usize, SinkBinding<S>>::empty()),
    {
        let bound = self.0.key_bound();
        let mut k: usize = 0;
        while k < bound
            invariant
                bound == self.0.size(),
                forall|j: usize| #[trigger] self@.contains_key(j) ==> j < bound,
                k <= bound,
                forall|j: usize| j < k ==> !#[trigger] self@.contains_key(j),
            decreases bound - k,
        {
            if self.0.contains_key(k) {
                return false;
            }
            k = k + 1;
        }
        assert(self@ =~= Map::<usize, SinkBinding<S>>::empty());
        true
    }

    /// Raises every binding to at least `level` and returns, in ascending key order, the
    /// bindings that were clean: only those dependants need the notification, since a dependant
    /// that is already possibly dirty has its update scheduled.
    pub fn notify(&mut self, level: DirtyLevel) -> (r: Vec<BindKey>)
        requires
            old(self).wf(),
        ensures
            final(self).wf(),
            clean_keys(old(self)@, r@),
            notified_table(old(self)@, level, final(self)@),
            forall|k: usize| #[trigger] final(self)@.contains_key(k) ==> final(self)@[k].dirty != Dirty::Clean,
    {
        self.0.optimize();
        let bound = self.0.key_bound();
        let mut r: Vec<BindKey> = Vec::new();
        let mut k: usize = 0;
        while k < bound
            invariant
                self.wf(),
                bound == self.0.size(),
                bound == old(self).0.size(),
                forall|j: usize| #[trigger] old(self)@.contains_key(j) ==> j < bound,
                k <= bound,
                self@.dom() == old(self)@.dom(),
                forall|j: usize| #[trigger] self@.contains_key(j) ==> self@[j] == (if j < k {
                    notified(old(self)@[j], level)
                } else {
                    old(self)@[j]
                }),
                forall|i: int, j: int| 0 <= i < j < r@.len() ==> r@[i].0 < r@[j].0,
                forall|i: int| 0 <= i < r@.len() ==> r@[i].0 < k,
                forall|i: int| 0 <= i < r@.len() ==> #[trigger] old(self)@.contains_key(r@[i].0) && old(self)@[r@[i].0].dirty == Dirty::Clean,
                forall|j: usize| j < k && #[trigger] old(self)@.contains_key(j) && old(self)@[j].dirty == Dirty::Clean ==> exists|i: int|
                    0 <= i < r@.len() && r@[i].0 == j,
            decreases bound - k,
        {
            let ghost r_start = r@;
            if self.0.contains_key(k) {
                let ghost before = self@;
                assert(before[k] == old(self)@[k]);
                let ghost r0 = r@;
                let d = self.0.get(k).unwrap().dirty;
                if d.needs_notify() {
                    r.push(BindKey(k));
                    proof {
                        assert(r@[r@.len() - 1].0 == k);
                        assert forall|i: int| 0 <= i < r@.len() implies #[trigger] old(self)@.contains_key(r@[i].0)
                            && old(self)@[r@[i].0].dirty == Dirty::Clean by {
                            if i < r0.len() {
                                assert(r@[i] == r0[i]);
                                assert(old(self)@.contains_key(r0[i].0));
                            } else {
                                assert(r@[i].0 == k);
                                assert(d == old(self)@[k].dirty);
                            }
                        }
                    }
                }
                let b = self.0.get_mut(k);
                b.dirty.apply_notify(level);
                proof {
                    assert forall|j: usize| #[trigger] self@.contains_key(j) implies self@[j] == (if j < k + 1 {
                        notified(old(self)@[j], level)
                    } else {
                        old(self)@[j]
                    }) by {
                        if j != k {
                            assert(self@[j] == before[j]);
                        }
                    }
                    assert(self@.dom() =~= old(self)@.dom());
                    assert forall|j: usize| j < k + 1 && #[trigger] old(self)@.contains_key(j) && old(self)@[j].dirty == Dirty::Clean implies exists|i: int|
                        0 <= i < r@.len() && r@[i].0 == j by {
                        if j == k {
                            assert(r@[r@.len() - 1].0 == k);
                        } else {
                            let i = choose|i: int| 0 <= i < r0.len() && r0[i].0 == j;
                            assert(r@[i] == r0[i]);
                        }
                    }
                }
            }
            proof {
                assert forall|i: int| 0 <= i < r@.len() implies #[trigger] old(self)@.contains_key(r@[i].0)
                    && old(self)@[r@[i].0].dirty == Dirty::Clean by {
                    if i < r_start.len() {
                        assert(r@[i] == r_start[i]);
                        assert(old(self)@.contains_key(r_start[i].0));
                    }
                }
            }
            k = k + 1;
        }
        proof {
            assert forall|j: usize| #[trigger] old(self)@.contains_key(j) && old(self)@[j].dirty == Dirty::Clean implies exists|i: int|
                0 <= i < r@.len() && r@[i].0 == j by {
                assert(j < k);
            }
            assert(forall|i: int, j: int| 0 <= i < j < r@.len() ==> r@[i].0 < r@[j].0);
            assert(forall|i: int| 0 <= i < r@.len() ==> #[trigger] old(self)@.contains_key(r@[i].0) && old(self)@[r@[i].0].dirty == Dirty::Clean);
            assert(clean_keys(old(self)@, r@));
        }
        r
    }

    /// Settles every possibly dirty binding: dirty if the source changed, clean otherwise.
    pub fn update(&mut self, is_dirty: bool)
        requires
            old(self).wf(),
        ensures
            final(self).wf(),
            settled_table(old(self)@, is_dirty, final(self)@),
            forall|k: usize| #[trigger] final(self)@.contains_key(k) ==> final(self)@[k].dirty != Dirty::MaybeDirty,
            final(self)@.dom() == old(self)@.dom(),
            forall|k: usize|
                #![trigger old(self)@.contains_key(k)]
                old(self)@.contains_key(k) && old(self)@[k].dirty != Dirty::MaybeDirty ==> final(self)@[k].dirty
                    == old(self)@[k].dirty,
            forall|k: usize|
                #![trigger old(self)@.contains_key(k)]
                old(self)@.contains_key(k) && old(self)@[k].dirty == Dirty::MaybeDirty ==> final(self)@[k].dirty
                    == (if is_dirty { Dirty::Dirty } else { Dirty::Clean }),
            forall|k: usize|
                #![trigger old(self)@.contains_key(k)]
                old(self)@.contains_key(k) ==> final(self)@[k].sink == old(self)@[k].sink && final(self)@[k].slot
                    == old(self)@[k].slot,
    {
        self.0.optimize();
        let bound = self.0.key_bound();
        let mut k: usize = 0;
        while k < bound
            invariant
                self.wf(),
                bound == self.0.size(),
                forall|j: usize| #[trigger] old(self)@.contains_key(j) ==> j < bound,
                k <= bound,
                self@.dom() == old(self)@.dom(),
                forall|j: usize| #[trigger] self@.contains_key(j) ==> self@[j] == (if j < k {
                    settled(old(self)@[j], is_dirty)
                } else {
                    old(self)@[j]
                }),
            decreases bound - k,
        {
            if self.0.contains_key(k) {
                let ghost before = self@;
                let b = self.0.get_mut(k);
                if b.dirty == Dirty::MaybeDirty {
                    b.dirty = Dirty::from_is_dirty(is_dirty);
                }
                proof {
                    assert forall|j: usize| #[trigger] self@.contains_key(j) implies self@[j] == (if j < k + 1 {
                        settled(old(self)@[j], is_dirty)
                    } else {
                        old(self)@[j]
                    }) by {
                        if j != k {
                            assert(self@[j] == before[j]);
                        }
                    }
                    assert(self@.dom() =~= old(self)@.dom());
                }
            }
            k = k + 1;
        }
    }
}

/// Settling changes only the dependants that may be dirty: a clean or certainly dirty
/// dependant keeps its state, and a possibly dirty one becomes dirty exactly when a source
/// changed (`is_dirty`) and clean otherwise; the dependants themselves stay the same.
pub proof fn lemma_settle_changes_only_possibly_dirty<S>(
    m0: Map<usize, SinkBinding<S>>,
    is_dirty: bool,
    m1: Map<usize, SinkBinding<S>>,
)
    requires
        settled_table(m0, is_dirty, m1),
    ensures
        m1.dom() == m0.dom(),
        forall|k: usize|
            #![trigger m0.contains_key(k)]
            m0.contains_key(k) && m0[k].dirty != Dirty::MaybeDirty ==> m1[k].dirty == m0[k].dirty,
        forall|k: usize|
            #![trigger m0.contains_key(k)]
            m0.contains_key(k) && m0[k].dirty == Dirty::MaybeDirty ==> m1[k].dirty == (if is_dirty {
                Dirty::Dirty
            } else {
                Dirty::Clean
            }),
        forall|k: usize|
            #![trigger m0.contains_key(k)]
            m0.contains_key(k) ==> m1[k].sink == m0[k].sink && m1[k].slot == m0[k].slot,
{
    assert forall|k: usize| #![trigger m0.contains_key(k)] m0.contains_key(k) implies m1.contains_key(k) && m1[k] == settled(
        m0[k],
        is_dirty,
    ) by {}
}

/// A notification reaches a dependant only once until it is clean again: after `notify`, no
/// binding is clean, so a second notification reports no binding.
pub proof fn lemma_notify_once<S>(m: Map<usize, SinkBinding<S>>, keys: Seq<BindKey>)
    requires
        forall|k: usize| #[trigger] m.contains_key(k) ==> m[k].dirty != Dirty::Clean,
        clean_keys(m, keys),
    ensures
        keys.len() == 0,
{
    if keys.len() > 0 {
        assert(m.contains_key(keys[0].0));
    }
}

/// A source that a computation read: which source, by identity, which part of it, and the key
/// of the computation's binding among that source's dependants.
#[derive(Clone, Copy, Debug, PartialEq, Eq, Structural)]
pub struct SourceBinding {
    pub source: usize,
    pub slot: Slot,
    pub key: BindKey,
}

/// The sources a computation reads, recorded in the order it reads them, together with the
/// computation itself as the dependant to bind and the slot its notifications arrive at.
///
/// A recomputation starts with the sources of the previous computation; a source read at the
/// same position as before is kept, any other replaces the old one at that position, and the
/// old sources past the last position read are handed back to be unbound.
pub struct Sink<S> {
    sink: S,
    slot: Slot,
    sources: Vec<SourceBinding>,
    sources_len: usize,
}

impl<S> Sink<S> {
    /// The computation being recorded.
    pub closed spec fn dependant(&self) -> S {
        self.sink
    }

    /// The slot notifications for the computation arrive at.
    pub closed spec fn slot(&self) -> Slot {
        self.slot
    }

    /// The recorded sources: the first `len` are current, the rest are left over.
    pub closed spec fn sources(&self) -> Seq<SourceBinding> {
        self.sources@
    }

    /// How many sources this computation has read so far.
    pub closed spec fn len(&self) -> nat {
        self.sources_len as nat
    }

    pub closed spec fn wf(&self) -> bool {
        self.sources_len <= self.sources@.len()
    }

    /// A well-formed recording has read at most as many sources as it holds.
    pub proof fn lemma_len_bound(&self)
        requires
            self.wf(),
        ensures
            self.len() <= self.sources().len(),
    {
    }

    /// Starts recording the computation `sink`, notified at `slot`; with `reset` the previous
    /// sources are all left over, otherwise they are all kept and further sources are added
    /// after them.
    pub fn new(sink: S, slot: Slot, previous: Vec<SourceBinding>, reset: bool) -> (r: Self)
        ensures
            r.wf(),
            r.dependant() == sink,
            r.slot() == slot,
            r.sources() == previous@,
            r.len() == (if reset { 0 } else { previous@.len() }),
    {
        let sources_len = if reset { 0 } else { previous.len() };
        Sink { sink, slot, sources: previous, sources_len }
    }

    /// The computation being recorded.
    pub fn sink(&self) -> (r: &S)
        ensures
            *r == self.dependant(),
    {
        &self.sink
    }

    /// The slot notifications for the computation arrive at.
    pub fn sink_slot(&self) -> (r: Slot)
        ensures
            r == self.slot(),
    {
        self.slot
    }

    /// The previous source at the position of the next read, if any.
    pub fn next_previous(&self) -> (r: Option<SourceBinding>)
        requires
            self.wf(),
        ensures
            r == (if self.len() < self.sources().len() { Some(self.sources()[self.len() as int]) } else { None }),
    {
        if self.sources_len < self.sources.len() {
            Some(self.sources[self.sources_len])
        } else {
            None
        }
    }

    /// Keeps the previous source at the position of the next read.
    pub fn keep_previous(&mut self)
        requires
            old(self).wf(),
            old(self).len() < old(self).sources().len(),
        ensures
            final(self).wf(),
            final(self).dependant() == old(self).dependant(),
            final(self).slot() == old(self).slot(),
            final(self).sources() == old(self).sources(),
            final(self).len() == old(self).len() + 1,
    {
        let n = self.sources.len();
        self.sources_len = self.sources_len + 1;
    }

    /// Records `binding` as the next source read; returns the previous source it replaces.
    pub fn push(&mut self, binding: SourceBinding) -> (r: Option<SourceBinding>)
        requires
            old(self).wf(),
        ensures
            pushed(*old(self), binding, *final(self), r),
    {
        let index = self.sources_len;
        if index < self.sources.len() {
            let old_binding = self.sources[index];
            self.sources.set(index, binding);
            self.sources_len = index + 1;
            Some(old_binding)
        } else {
            self.sources.push(binding);
            self.sources_len = self.sources.len();
            None
        }
    }

    /// Ends recording: returns the current sources, in the order read, and the left-over ones
    /// to unbind.
    pub fn finish(self) -> (r: (Vec<SourceBinding>, Vec<SourceBinding>))
        requires
            self.wf(),
        ensures
            r.0@ == self.sources().take(self.len() as int),
            r.1@ == self.sources().skip(self.len() as int),
    {
        let mut kept = self.sources;
        let stale = kept.split_off(self.sources_len);
        (kept, stale)
    }
}

/// `start` is the recording of `dependant`, notified at `slot`, that a recomputation starts
/// with: all previous sources, of which none is current with `reset`, otherwise all are.
pub open spec fn starts_recording<S>(start: Sink<S>, dependant: S, slot: Slot, previous: Seq<SourceBinding>, reset: bool) -> bool {
    &&& start.wf()
    &&& start.dependant() == dependant
    &&& start.slot() == slot
    &&& start.sources() == previous
    &&& start.len() == (if reset { 0 } else { previous.len() })
}

/// Recomputes a dependant: records the sources that `compute` reads, starting from the previous
/// ones, and returns what `compute` returned, the sources it read, in order, and the left-over
/// previous sources to unbind.
pub fn update_sources<S, T, F: FnOnce(Sink<S>) -> (T, Sink<S>)>(
    previous: Vec<SourceBinding>,
    dependant: S,
    slot: Slot,
    reset: bool,
    compute: F,
) -> (r: (T, Vec<SourceBinding>, Vec<SourceBinding>))
    requires
        forall|start: Sink<S>| starts_recording(start, dependant, slot, previous@, reset) ==> compute.requires((start,)),
        forall|start: Sink<S>, out: (T, Sink<S>)| #[trigger] compute.ensures((start,), out) ==> out.1.wf(),
    ensures
        exists|start: Sink<S>, end: Sink<S>|
            {
                &&& starts_recording(start, dependant, slot, previous@, reset)
                &&& #[trigger] compute.ensures((start,), (r.0, end))
                &&& r.1@ == end.sources().take(end.len() as int)
                &&& r.2@ == end.sources().skip(end.len() as int)
            },
{
    let ghost previous_view = previous@;
    let start = Sink::new(dependant, slot, previous, reset);
    let ghost s0 = start;
    assert(starts_recording(s0, dependant, slot, previous_view, reset));
    let (value, end) = compute(start);
    let ghost e = end;
    let (kept, stale) = end.finish();
    let r = (value, kept, stale);
    assert(starts_recording(s0, dependant, slot, previous_view, reset));
    assert(compute.ensures((s0,), (r.0, e)));
    assert(r.1@ == e.sources().take(e.len() as int));
    assert(r.2@ == e.sources().skip(e.len() as int));
    r
}

/// Asks the sources, in order, whether they changed, and stops at the first that did; returns
/// whether one did. `check` asks one source.
pub fn check_sources<F: Fn(&SourceBinding) -> bool>(sources: &[SourceBinding], check: &F) -> (r: bool)
    requires
        forall|b: &SourceBinding| check.requires((b,)),
    ensures
        r ==> exists|i: int|
            0 <= i < sources@.len() && #[trigger] check.ensures((&sources@[i],), true) && forall|j: int|
                0 <= j < i ==> check.ensures((&sources@[j],), false),
        !r ==> forall|i: int| 0 <= i < sources@.len() ==> check.ensures((&sources@[i],), false),
{
    let mut i: usize = 0;
    while i < sources.len()
        invariant
            i <= sources@.len(),
            forall|b: &SourceBinding| check.requires((b,)),
            forall|j: int| 0 <= j < i ==> check.ensures((&sources@[j],), false),
        decreases sources@.len() - i,
    {
        if check(&sources[i]) {
            assert(check.ensures((&sources@[i as int],), true));
            return true;
        }
        i = i + 1;
    }
    false
}

/// Settles a dependant that may be dirty by asking its sources; returns whether it is dirty. A
/// dependant known to be clean or dirty keeps its state and asks nothing.
pub fn check_with<F: Fn(&SourceBinding) -> bool>(dirty: &mut Dirty, sources: &[SourceBinding], check: &F) -> (r: bool)
    requires
        forall|b: &SourceBinding| check.requires((b,)),
    ensures
        r == (*final(dirty) == Dirty::Dirty),
        *old(dirty) != Dirty::MaybeDirty ==> *final(dirty) == *old(dirty),
        *old(dirty) == Dirty::MaybeDirty ==> *final(dirty) != Dirty::MaybeDirty,
        *old(dirty) == Dirty::MaybeDirty && r ==> exists|i: int|
            0 <= i < sources@.len() && #[trigger] check.ensures((&sources@[i],), true) && forall|j: int|
                0 <= j < i ==> check.ensures((&sources@[j],), false),
        *old(dirty) == Dirty::MaybeDirty && !r ==> forall|i: int|
            0 <= i < sources@.len() ==> check.ensures((&sources@[i],), false),
{
    match *dirty {
        Dirty::MaybeDirty => {
            let changed = check_sources(sources, check);
            *dirty = Dirty::from_is_dirty(changed);
        },
        _ => {},
    }
    dirty.is_dirty()
}

/// The source binding at the position of the next read is the binding of part `slot` of the
/// source `source`.
pub open spec fn reads_same<S>(sink: Sink<S>, source: usize, slot: Slot) -> bool {
    sink.len() < sink.sources().len() && sink.sources()[sink.len() as int].source == source
        && sink.sources()[sink.len() as int].slot == slot
}

/// `after` is `before` with `b` recorded as the next source read, and `r` is the source binding
/// that `b` replaced there, if any.
pub open spec fn pushed<S>(before: Sink<S>, b: SourceBinding, after: Sink<S>, r: Option<SourceBinding>) -> bool {
    &&& after.wf()
    &&& after.dependant() == before.dependant()
    &&& after.slot() == before.slot()
    &&& after.len() == before.len() + 1
    &&& if before.len() < before.sources().len() {
        &&& after.sources() == before.sources().update(before.len() as int, b)
        &&& r == Some(before.sources()[before.len() as int])
    } else {
        &&& after.sources() == before.sources().push(b)
        &&& r is None
    }
}

/// How binding the computation that `s0` records to part `this_slot` of the source `this`
/// changes the source's dependants `m0` and the record: a source read again at the same position
/// keeps its binding, marked clean; any other read adds a new clean binding of a clone of the
/// computation and records it.
pub open spec fn bound<S: Clone>(
    m0: Map<usize, SinkBinding<S>>,
    s0: Sink<S>,
    this: usize,
    this_slot: Slot,
    m1: Map<usize, SinkBinding<S>>,
    s1: Sink<S>,
    r: Option<SourceBinding>,
) -> bool {
    if reads_same(s0, this, this_slot) {
        let key = s0.sources()[s0.len() as int].key.0;
        &&& s1.wf()
        &&& s1.dependant() == s0.dependant()
        &&& s1.slot() == s0.slot()
        &&& s1.len() == s0.len() + 1
        &&& s1.sources() == s0.sources()
        &&& m1 == m0.insert(key, with_dirty(m0[key], Dirty::Clean))
        &&& r is None
    } else {
        exists|key: usize|
            #![trigger m1[key]]
            {
                &&& !m0.contains_key(key)
                &&& vstd::pervasive::cloned(s0.dependant(), m1[key].sink)
                &&& m1 == m0.insert(key, clean_binding(m1[key].sink, s0.slot()))
                &&& pushed(s0, SourceBinding { source: this, slot: this_slot, key: BindKey(key) }, s1, r)
            }
    }
}

/// How binding again, through `key`, the computation that `s0` records changes the source's
/// dependants `m0` and the record: the binding moves to the computation's slot and is recorded.
pub open spec fn rebound<S>(
    m0: Map<usize, SinkBinding<S>>,
    s0: Sink<S>,
    this: usize,
    this_slot: Slot,
    key: BindKey,
    m1: Map<usize, SinkBinding<S>>,
    s1: Sink<S>,
    r: Option<SourceBinding>,
) -> bool {
    &&& m1 == m0.insert(key.0, with_slot(m0[key.0], s0.slot()))
    &&& pushed(s0, SourceBinding { source: this, slot: this_slot, key }, s1, r)
}

impl<S: Clone> SinkBindings<S> {
    /// Records that the computation `sink` read part `this_slot` of the source `this`, whose
    /// dependants these bindings are.
    ///
    /// When the computation read the same part of the same source at this position before, the
    /// binding is kept and marked clean. Otherwise a new clean binding of the computation is
    /// added and recorded in `sink`; the source binding it replaces there, if any, is returned
    /// for the caller to unbind.
    pub fn bind(&mut self, this: usize, this_slot: Slot, sink: &mut Sink<S>) -> (r: Option<SourceBinding>)
        requires
            old(self).wf(),
            old(sink).wf(),
            reads_same(*old(sink), this, this_slot) ==> old(self)@.contains_key(
                old(sink).sources()[old(sink).len() as int].key.0,
            ),
        ensures
            final(self).wf(),
            bound(old(self)@, *old(sink), this, this_slot, final(self)@, *final(sink), r),
    {
        match sink.next_previous() {
            Some(previous) => {
                if previous.source == this && previous.slot == this_slot {
                    sink.keep_previous();
                    self.mark_clean(previous.key);
                    return None;
                }
            },
            None => {},
        }
        let dependant = sink.sink().clone();
        let key = self.bind_new(dependant, sink.sink_slot());
        let r = sink.push(SourceBinding { source: this, slot: this_slot, key });
        assert(self@[key.0] == clean_binding(dependant, old(sink).slot()));
        r
    }

    /// Records that the computation `sink` read again, through the binding `key`, part
    /// `this_slot` of the source `this`: the binding moves to the computation's slot and is
    /// recorded in `sink`; the source binding it replaces there, if any, is returned for the
    /// caller to unbind.
    pub fn rebind(&mut self, this: usize, this_slot: Slot, key: BindKey, sink: &mut Sink<S>) -> (r: Option<
        SourceBinding,
    >)
        requires
            old(self).wf(),
            old(self)@.contains_key(key.0),
            old(sink).wf(),
        ensures
            final(self).wf(),
            rebound(old(self)@, *old(sink), this, this_slot, key, final(self)@, *final(sink), r),
    {
        self.set_slot(key, sink.sink_slot());
        sink.push(SourceBinding { source: this, slot: this_slot, key })
    }
}

/// The dirty state of a computation that depends on sources, as the runtime sees it: whether it
/// has to recompute, and which notifications its dependants need.
pub struct SourceBinder {
    dirty: Dirty,
    slot: Slot,
}

impl SourceBinder {
    pub closed spec fn dirty(&self) -> Dirty {
        self.dirty
    }

    /// The slot notifications for this computation arrive at.
    pub closed spec fn slot(&self) -> Slot {
        self.slot
    }

    /// A computation that has never run and therefore has to compute.
    pub fn new(slot: Slot) -> (r: Self)
        ensures
            r.dirty() == Dirty::Dirty,
            r.slot() == slot,
    {
        SourceBinder { dirty: Dirty::Dirty, slot }
    }

    pub fn is_clean(&self) -> (r: bool)
        ensures
            r == (self.dirty() == Dirty::Clean),
    {
        self.dirty.is_clean()
    }

    /// Decides whether the computation has to recompute. A possibly dirty computation asks
    /// `sources_changed` whether any source changed and settles on the answer; otherwise the
    /// sources are not asked.
    pub fn check<F: FnOnce() -> bool>(&mut self, sources_changed: F) -> (r: bool)
        requires
            old(self).dirty() == Dirty::MaybeDirty ==> sources_changed.requires(()),
        ensures
            final(self).slot() == old(self).slot(),
            old(self).dirty() != Dirty::MaybeDirty ==> final(self).dirty() == old(self).dirty(),
            old(self).dirty() == Dirty::MaybeDirty ==> exists|changed: bool|
                sources_changed.ensures((), changed) && final(self).dirty() == (if changed {
                    Dirty::Dirty
                } else {
                    Dirty::Clean
                }),
            r == (final(self).dirty() == Dirty::Dirty),
    {
        if self.dirty == Dirty::MaybeDirty {
            let changed = sources_changed();
            self.dirty = Dirty::from_is_dirty(changed);
        }
        self.dirty == Dirty::Dirty
    }

    /// Marks the computation clean as it starts to recompute.
    pub fn begin_update(&mut self)
        ensures
            final(self).dirty() == Dirty::Clean,
            final(self).slot() == old(self).slot(),
    {
        self.dirty = Dirty::Clean;
    }

    /// Forgets the computation's result: it has to compute again.
    pub fn clear(&mut self)
        ensures
            final(self).dirty() == Dirty::Dirty,
            final(self).slot() == old(self).slot(),
    {
        self.dirty = Dirty::Dirty;
    }

    /// Takes in a notification for `slot`; returns whether the dependants need to be notified,
    /// which is the case exactly when a clean computation becomes (possibly) dirty.
    pub fn on_notify(&mut self, slot: Slot, level: DirtyLevel) -> (r: bool)
        ensures
            final(self).slot() == old(self).slot(),
            slot == old(self).slot() ==> final(self).dirty() == join(old(self).dirty(), level_to_dirty(level)),
            slot != old(self).slot() ==> final(self).dirty() == old(self).dirty(),
            r == (slot == old(self).slot() && old(self).dirty() == Dirty::Clean),
    {
        let mut needs_notify = false;
        if slot == self.slot {
            needs_notify = self.dirty.needs_notify();
            self.dirty.apply_notify(level);
        }
        needs_notify
    }
}

/// One update of a scan that computes from its sources and has dependants of its own: a clean
/// scan does nothing. Otherwise a possibly dirty scan asks `sources_changed` whether any source
/// changed; a dirty scan recomputes with `recompute`, which returns whether it recorded a
/// change. The scan ends clean, and its dependants are settled as dirty exactly when the
/// recomputation recorded a change. Returns whether the scan recomputed.
pub fn scan_update<S, C: FnOnce() -> bool, R: FnOnce() -> bool>(
    binder: &mut SourceBinder,
    sinks: &mut SinkBindings<S>,
    sources_changed: C,
    recompute: R,
) -> (recomputed: bool)
    requires
        old(sinks).wf(),
        old(binder).dirty() == Dirty::MaybeDirty ==> sources_changed.requires(()),
        recompute.requires(()),
    ensures
        final(binder).slot() == old(binder).slot(),
        old(binder).dirty() == Dirty::Clean ==> !recomputed && *final(binder) == *old(binder) && *final(sinks) == *old(
            sinks,
        ),
        old(binder).dirty() == Dirty::Dirty ==> recomputed,
        old(binder).dirty() == Dirty::MaybeDirty ==> exists|changed: bool|
            #[trigger] sources_changed.ensures((), changed) && recomputed == changed,
        old(binder).dirty() != Dirty::Clean ==> final(binder).dirty() == Dirty::Clean && final(sinks).wf(),
        old(binder).dirty() != Dirty::Clean && recomputed ==> exists|recorded: bool|
            #[trigger] recompute.ensures((), recorded) && settled_table(old(sinks)@, recorded, final(sinks)@),
        old(binder).dirty() != Dirty::Clean && !recomputed ==> settled_table(old(sinks)@, false, final(sinks)@),
{
    if binder.is_clean() {
        return false;
    }
    let dirty = binder.check(sources_changed);
    let mut recorded = false;
    if dirty {
        binder.begin_update();
        recorded = recompute();
    }
    sinks.update(recorded);
    dirty
}

/// Between two recomputations a computation notifies its dependants at most once: after a
/// notification it is no longer clean, so further notifications report nothing.
pub proof fn lemma_on_notify_once(d: Dirty, level: DirtyLevel, later: DirtyLevel)
    ensures
        join(d, level_to_dirty(level)) != Dirty::Clean,
        join(join(d, level_to_dirty(level)), level_to_dirty(later)) != Dirty::Clean,
{
}

} // verus!
