//! Change feed building blocks for reactive collection types.
//!
//! A change feed model stores its latest value together with model-specific changes. A reader's
//! first read is [`ChangeFeedDelta::Initial`]; later reads provide the changes recorded since the
//! reader's previous read through [`ChangeFeedDelta::Changes`]. Unread changes remain available
//! until every reader has advanced past them or has been released; [`compact`] then hands them
//! back to the model through [`ChangeFeedModel::release_change`]. Reads, edits, finished edits
//! and released readers compact before they return; a caller that is done with a read compacts
//! to release what that read let go.
//!
//! [`compact`]: ChangeFeedStorage::compact

use vstd::prelude::*;
use vstd::slice::slice_subrange;

verus! {

/// Defines the latest value and change type exposed through a change feed.
pub trait ChangeFeedModel: Sized {
    /// A model-specific recorded change.
    type Change;

    /// How the model may change when a change that is no longer readable is released; unless a
    /// model says otherwise, releasing only drops the change and leaves the model as it is.
    open spec fn release_ok(before: Self, change: Self::Change, after: Self) -> bool {
        after == before
    }

    /// Releases resources retained by a change that is no longer readable.
    fn release_change(&mut self, change: Self::Change)
        ensures
            Self::release_ok(*old(self), change, *final(self)),
    ;
}

/// `models` goes from one model to the next by releasing `changes` in order.
pub open spec fn release_steps<M: ChangeFeedModel>(models: Seq<M>, changes: Seq<M::Change>) -> bool {
    &&& models.len() == changes.len() + 1
    &&& forall|i: int|
        #![trigger changes[i]]
        0 <= i < changes.len() ==> M::release_ok(models[i], changes[i], models[i + 1])
}

/// `last` is what `first` becomes when `changes` are released one after another, oldest first.
pub open spec fn released_in_order<M: ChangeFeedModel>(
    first: M,
    changes: Seq<M::Change>,
    last: M,
) -> bool {
    exists|models: Seq<M>|
        #[trigger] release_steps(models, changes) && models[0] == first && models.last() == last
}

/// Releasing no change leaves the model as it is.
pub proof fn lemma_released_nothing<M: ChangeFeedModel>(first: M, last: M)
    requires
        released_in_order(first, Seq::<M::Change>::empty(), last),
    ensures
        last == first,
{
    let models = choose|models: Seq<M>|
        #[trigger] release_steps(models, Seq::<M::Change>::empty()) && models[0] == first && models.last() == last;
}

/// For a model whose releases leave it as it is (the default), releasing changes in order leaves
/// the model as it is: a read, a compaction or a finished edit keeps the current model, so the
/// current model is the same however a reference to it is obtained.
pub proof fn lemma_release_keeps_model<M: ChangeFeedModel>(first: M, changes: Seq<M::Change>, last: M)
    requires
        forall|before: M, change: M::Change, after: M| #[trigger] M::release_ok(before, change, after) ==> after == before,
        released_in_order(first, changes, last),
    ensures
        last == first,
{
    let models = choose|models: Seq<M>|
        #[trigger] release_steps(models, changes) && models[0] == first && models.last() == last;
    assert forall|i: int| 0 <= i < models.len() implies #[trigger] models[i] == first by {
        lemma_release_steps_constant(models, changes, i);
    }
}

proof fn lemma_release_steps_constant<M: ChangeFeedModel>(models: Seq<M>, changes: Seq<M::Change>, i: int)
    requires
        forall|before: M, change: M::Change, after: M| #[trigger] M::release_ok(before, change, after) ==> after == before,
        release_steps(models, changes),
        0 <= i < models.len(),
    ensures
        models[i] == models[0],
    decreases i,
{
    if i > 0 {
        lemma_release_steps_constant(models, changes, i - 1);
        assert(M::release_ok(models[i - 1], changes[i - 1], models[i]));
    }
}

/// The position of a reader in a change feed.
#[derive(Clone, Copy, PartialEq, Eq, Structural, Debug)]
pub enum CursorState {
    /// The reader was released and can no longer read.
    Released,
    /// The reader has not read yet; its next read is an initial read.
    Unread,
    /// The reader has read every change before this age.
    At(usize),
}

/// The oldest age that some reader still has to read, or `end` when no reader has a cursor.
pub open spec fn min_cursor(readers: Seq<CursorState>, end: nat) -> nat
    decreases readers.len(),
{
    if readers.len() == 0 {
        end
    } else {
        let m = min_cursor(readers.drop_last(), end);
        match readers.last() {
            CursorState::At(c) => if (c as nat) < m { c as nat } else { m },
            _ => m,
        }
    }
}

/// `min_cursor` is a lower bound of every cursor and of `end`, and it is one of them.
pub proof fn lemma_min_cursor(readers: Seq<CursorState>, end: nat)
    ensures
        min_cursor(readers, end) <= end,
        forall|i: int|
            0 <= i < readers.len() ==> (#[trigger] readers[i] matches CursorState::At(c) ==> min_cursor(readers, end) <= c),
        min_cursor(readers, end) == end || exists|i: int|
            0 <= i < readers.len() && #[trigger] readers[i] == CursorState::At(min_cursor(readers, end) as usize),
    decreases readers.len(),
{
    if readers.len() > 0 {
        let init = readers.drop_last();
        lemma_min_cursor(init, end);
        assert forall|i: int|
            0 <= i < readers.len() implies (#[trigger] readers[i] matches CursorState::At(c) ==> min_cursor(readers, end) <= c) by {
            if i < readers.len() - 1 {
                assert(readers[i] == init[i]);
            }
        }
        if min_cursor(readers, end) != end {
            if min_cursor(readers, end) == min_cursor(init, end) {
                let j = choose|j: int| 0 <= j < init.len() && #[trigger] init[j] == CursorState::At(min_cursor(init, end) as usize);
                assert(readers[j] == init[j]);
            } else {
                assert(readers[readers.len() - 1] == CursorState::At(min_cursor(readers, end) as usize));
            }
        }
    }
}

/// After a reader's read, the changes its next read receives are exactly the changes recorded
/// in between, whatever other readers did and whatever was compacted.
pub proof fn lemma_next_read_sees_recorded_changes<M: ChangeFeedModel>(
    before: ChangeFeedStorage<M>,
    after: ChangeFeedStorage<M>,
    key: int,
    recorded: Seq<M::Change>,
)
    requires
        before.wf(),
        0 <= key < before.readers().len(),
        before.readers()[key] == CursorState::At(before.end() as usize),
        after.readers().len() > key,
        after.readers()[key] == before.readers()[key],
        after.log() == before.log() + recorded,
    ensures
        after.pending(key) == recorded,
{
    before.lemma_wf();
    assert(after.pending(key) =~= recorded);
}

/// A live reader's pending changes are always still retained: compaction never releases a
/// change that some reader has not read.
pub proof fn lemma_pending_is_retained<M: ChangeFeedModel>(s: ChangeFeedStorage<M>, key: int)
    requires
        s.wf(),
        s.is_live(key),
        s.readers()[key] is At,
    ensures
        s.start() <= s.readers()[key]->At_0 <= s.end(),
        s.pending(key) == s.retained().subrange(
            s.readers()[key]->At_0 - s.start(),
            s.retained().len() as int,
        ),
{
    s.lemma_wf();
    let c = s.readers()[key]->At_0;
    assert(s.readers()[key] matches CursorState::At(c));
    assert(s.pending(key) =~= s.retained().subrange(c - s.start(), s.retained().len() as int));
}

/// When no reader has a cursor, compaction releases every retained change.
pub proof fn lemma_no_cursor_retains_nothing(readers: Seq<CursorState>, end: nat)
    requires
        forall|i: int| 0 <= i < readers.len() ==> !(#[trigger] readers[i] is At),
    ensures
        min_cursor(readers, end) == end,
{
    lemma_min_cursor(readers, end);
}

/// If every cursor and `end` are at least `lo`, so is the oldest cursor.
pub proof fn lemma_min_cursor_at_least(readers: Seq<CursorState>, end: nat, lo: nat)
    requires
        lo <= end,
        forall|i: int|
            0 <= i < readers.len() ==> (#[trigger] readers[i] matches CursorState::At(c) ==> lo <= c),
    ensures
        lo <= min_cursor(readers, end),
{
    lemma_min_cursor(readers, end);
    if min_cursor(readers, end) != end {
        let j = choose|j: int| 0 <= j < readers.len() && #[trigger] readers[j] == CursorState::At(min_cursor(readers, end) as usize);
        assert(readers[j] matches CursorState::At(c));
    }
}

/// A handle of a reader that independently advances through a change feed.
pub struct ChangeFeedCursorReader {
    id: usize,
}

impl ChangeFeedCursorReader {
    /// The index of this reader's slot in its change feed.
    pub closed spec fn key(&self) -> int {
        self.id as int
    }
}

/// Distinguishes an initial read from changes after a reader cursor.
pub enum ChangeFeedDelta<I> {
    /// No earlier reader cursor exists.
    Initial,
    /// Changes recorded after the earlier reader cursor.
    Changes(I),
}

/// A borrowed latest value and the changes after a reader cursor.
pub struct ChangeFeedRef<'a, M: ChangeFeedModel> {
    current: &'a M,
    changes: &'a [M::Change],
    since: Option<usize>,
}

impl<'a, M: ChangeFeedModel> ChangeFeedRef<'a, M> {
    /// The model value this reference shows.
    pub closed spec fn model(&self) -> M {
        *self.current
    }

    /// The cursor the changes start at, or `None` for an initial read.
    pub closed spec fn since(&self) -> Option<usize> {
        self.since
    }

    /// The changes after the cursor, oldest first (empty for an initial read).
    pub closed spec fn changes(&self) -> Seq<M::Change> {
        self.changes@
    }

    /// Returns the current model value.
    pub fn current(&self) -> (r: &'a M)
        ensures
            *r == self.model(),
    {
        self.current
    }

    /// Returns whether this is an initial read or changes after an earlier read.
    pub fn delta(&self) -> (r: ChangeFeedDelta<&'a [M::Change]>)
        ensures
            self.since() is None ==> r is Initial,
            self.since() is Some ==> (r matches ChangeFeedDelta::Changes(cs) && cs@ == self.changes()),
    {
        match self.since {
            None => ChangeFeedDelta::Initial,
            Some(_) => ChangeFeedDelta::Changes(self.changes),
        }
    }
}

/// The latest value of a model, the changes that some reader has not read yet, and the
/// positions of the readers.
pub struct ChangeFeedStorage<M: ChangeFeedModel> {
    current: M,
    changes: Vec<M::Change>,
    start: usize,
    readers: Vec<CursorState>,
    log: Ghost<Seq<M::Change>>,
}

impl<M: ChangeFeedModel> ChangeFeedStorage<M> {
    /// The latest model value.
    pub closed spec fn current(&self) -> M {
        self.current
    }

    /// Every change ever recorded, indexed by its age.
    pub closed spec fn log(&self) -> Seq<M::Change> {
        self.log@
    }

    /// The age of the oldest change still retained.
    pub closed spec fn start(&self) -> nat {
        self.start as nat
    }

    /// The age the next recorded change will get.
    pub open spec fn end(&self) -> nat {
        self.log().len()
    }

    /// The changes still retained, oldest first.
    pub open spec fn retained(&self) -> Seq<M::Change> {
        self.log().subrange(self.start() as int, self.end() as int)
    }

    /// The state of each reader slot.
    pub closed spec fn readers(&self) -> Seq<CursorState> {
        self.readers@
    }

    /// The reader with this key can read.
    pub open spec fn is_live(&self, key: int) -> bool {
        0 <= key < self.readers().len() && self.readers()[key] != CursorState::Released
    }

    /// The changes a reader with this key receives on its next read.
    pub open spec fn pending(&self, key: int) -> Seq<M::Change> {
        match self.readers()[key] {
            CursorState::At(c) => self.log().subrange(c as int, self.end() as int),
            _ => Seq::empty(),
        }
    }

    pub closed spec fn wf(&self) -> bool {
        &&& self.log@.len() <= usize::MAX
        &&& self.start <= self.log@.len()
        &&& self.changes@ == self.log@.subrange(self.start as int, self.log@.len() as int)
        &&& forall|i: int|
            0 <= i < self.readers@.len() ==> (#[trigger] self.readers@[i] matches CursorState::At(c)
                ==> self.start <= c <= self.log@.len())
    }

    /// Facts that every well-formed storage satisfies.
    pub proof fn lemma_wf(&self)
        requires
            self.wf(),
        ensures
            self.start() <= self.end() <= usize::MAX,
            forall|i: int|
                0 <= i < self.readers().len() ==> (#[trigger] self.readers()[i] matches CursorState::At(c)
                    ==> self.start() <= c <= self.end()),
            min_cursor(self.readers(), self.end()) >= self.start(),
            min_cursor(self.readers(), self.end()) <= self.end(),
    {
        lemma_min_cursor(self.readers@, self.end());
        if min_cursor(self.readers@, self.end()) != self.end() {
            let j = choose|j: int|
                0 <= j < self.readers@.len() && #[trigger] self.readers@[j] == CursorState::At(
                    min_cursor(self.readers@, self.end()) as usize,
                );
            assert(self.readers@[j] matches CursorState::At(c));
        }
    }

    /// Creates a change feed whose latest value is `current` and which has no readers.
    pub fn new(current: M) -> (r: Self)
        ensures
            r.wf(),
            r.current() == current,
            r.log() == Seq::<M::Change>::empty(),
            r.start() == 0,
            r.readers() == Seq::<CursorState>::empty(),
    {
        let r = ChangeFeedStorage {
            current,
            changes: Vec::new(),
            start: 0,
            readers: Vec::new(),
            log: Ghost(Seq::empty()),
        };
        assert(r.changes@ =~= r.log@.subrange(0, 0));
        r
    }

    /// The age the next recorded change will get.
    pub fn end_cursor(&self) -> (r: usize)
        requires
            self.wf(),
        ensures
            r == self.end(),
    {
        self.start + self.changes.len()
    }

    /// Returns the latest model value.
    pub fn current_ref(&self) -> (r: &M)
        ensures
            *r == self.current(),
    {
        &self.current
    }

    /// Returns the latest model value mutably.
    ///
    /// Mutating the value does not record a change; pair every observable mutation with
    /// [`record`](Self::record).
    pub fn current_mut(&mut self) -> (r: &mut M)
        ensures
            *r == old(self).current(),
            final(self).current() == *final(r),
            final(self).log() == old(self).log(),
            final(self).start() == old(self).start(),
            final(self).readers() == old(self).readers(),
            old(self).wf() ==> final(self).wf(),
    {
        &mut self.current
    }

    /// Appends a change to the feed.
    pub fn record(&mut self, change: M::Change)
        requires
            old(self).wf(),
            old(self).end() < usize::MAX,
        ensures
            final(self).wf(),
            final(self).log() == old(self).log().push(change),
            final(self).current() == old(self).current(),
            final(self).start() == old(self).start(),
            final(self).readers() == old(self).readers(),
    {
        self.changes.push(change);
        self.log = Ghost(self.log@.push(change));
        assert(self.changes@ =~= self.log@.subrange(self.start as int, self.log@.len() as int));
    }

    /// Creates a reader whose first read is an initial read.
    pub fn reader(&mut self) -> (r: ChangeFeedCursorReader)
        requires
            old(self).wf(),
        ensures
            final(self).wf(),
            r.key() == old(self).readers().len(),
            final(self).readers() == old(self).readers().push(CursorState::Unread),
            final(self).current() == old(self).current(),
            final(self).log() == old(self).log(),
            final(self).start() == old(self).start(),
    {
        let id = self.readers.len();
        self.readers.push(CursorState::Unread);
        assert forall|i: int|
            0 <= i < self.readers@.len() implies (#[trigger] self.readers@[i] matches CursorState::At(c)
                ==> self.start <= c <= self.log@.len()) by {
            if i < id {
                assert(self.readers@[i] == old(self).readers@[i]);
            }
        }
        ChangeFeedCursorReader { id }
    }

    /// Creates a reader at the same position as `reader`.
    pub fn clone_reader(&mut self, reader: &ChangeFeedCursorReader) -> (r: ChangeFeedCursorReader)
        requires
            old(self).wf(),
            old(self).is_live(reader.key()),
        ensures
            final(self).wf(),
            r.key() == old(self).readers().len(),
            final(self).readers() == old(self).readers().push(old(self).readers()[reader.key()]),
            final(self).current() == old(self).current(),
            final(self).log() == old(self).log(),
            final(self).start() == old(self).start(),
    {
        let state = self.readers[reader.id];
        let id = self.readers.len();
        self.readers.push(state);
        assert forall|i: int|
            0 <= i < self.readers@.len() implies (#[trigger] self.readers@[i] matches CursorState::At(c)
                ==> self.start <= c <= self.log@.len()) by {
            if i < id {
                assert(self.readers@[i] == old(self).readers@[i]);
            } else {
                assert(self.readers@[i] == old(self).readers@[reader.id as int]);
            }
        }
        ChangeFeedCursorReader { id }
    }

    /// Computes the oldest age that some reader still has to read.
    fn min_cursor_exec(&self) -> (r: usize)
        requires
            self.wf(),
        ensures
            r == min_cursor(self.readers(), self.end()),
    {
        let end = self.start + self.changes.len();
        let mut m = end;
        let mut i: usize = 0;
        while i < self.readers.len()
            invariant
                self.wf(),
                end == self.end(),
                i <= self.readers@.len(),
                m == min_cursor(self.readers@.subrange(0, i as int), self.end()),
            decreases self.readers@.len() - i,
        {
            let ghost prefix = self.readers@.subrange(0, i as int);
            let ghost next = self.readers@.subrange(0, i as int + 1);
            assert(next.drop_last() =~= prefix);
            assert(next.last() == self.readers@[i as int]);
            match self.readers[i] {
                CursorState::At(c) => {
                    if c < m {
                        m = c;
                    }
                },
                _ => {},
            }
            i = i + 1;
        }
        assert(self.readers@.subrange(0, i as int) =~= self.readers@);
        m
    }

    /// Releases every retained change that no reader still has to read, oldest first.
    pub fn compact(&mut self)
        requires
            old(self).wf(),
        ensures
            final(self).wf(),
            final(self).log() == old(self).log(),
            final(self).readers() == old(self).readers(),
            final(self).start() == min_cursor(old(self).readers(), old(self).end()),
            final(self).start() >= old(self).start(),
            released_in_order(
                old(self).current(),
                old(self).log().subrange(old(self).start() as int, final(self).start() as int),
                final(self).current(),
            ),
    {
        proof {
            self.lemma_wf();
            lemma_min_cursor(self.readers@, self.end());
        }
        let target = self.min_cursor_exec();
        let ghost start0 = self.start as int;
        let ghost models: Seq<M> = seq![self.current];
        while self.start < target
            invariant
                self.wf(),
                self.log@ == old(self).log@,
                self.readers@ == old(self).readers@,
                target == min_cursor(old(self).readers(), old(self).end()),
                forall|i: int|
                    0 <= i < self.readers@.len() ==> (#[trigger] self.readers@[i] matches CursorState::At(c)
                        ==> target <= c),
                start0 == old(self).start,
                start0 <= self.start <= target <= self.log@.len(),
                models.len() == self.start - start0 + 1,
                models[0] == old(self).current,
                models.last() == self.current,
                release_steps(models, self.log@.subrange(start0, self.start as int)),
            decreases target - self.start,
        {
            let ghost before = self.current;
            let ghost age = self.start as int;
            assert(self.changes@[0] == self.log@[age]);
            let change = self.changes.remove(0);
            self.current.release_change(change);
            self.start = self.start + 1;
            proof {
                let old_models = models;
                models = models.push(self.current);
                let released = self.log@.subrange(start0, self.start as int);
                assert(released.drop_last() =~= self.log@.subrange(start0, age));
                assert forall|i: int|
                    #![trigger released[i]]
                    0 <= i < released.len() implies M::release_ok(models[i], released[i], models[i + 1]) by {
                    if i < released.len() - 1 {
                        assert(released[i] == self.log@.subrange(start0, age)[i]);
                        assert(models[i] == old_models[i]);
                        assert(models[i + 1] == old_models[i + 1]);
                    } else {
                        assert(released[i] == change);
                        assert(models[i] == before);
                    }
                }
                assert(self.changes@ =~= self.log@.subrange(self.start as int, self.log@.len() as int));
            }
        }
        proof {
            assert(release_steps(models, self.log@.subrange(start0, self.start as int)));
        }
    }

    /// Releases a reader; changes only it still had to read are released.
    pub fn release_reader(&mut self, reader: ChangeFeedCursorReader)
        requires
            old(self).wf(),
            old(self).is_live(reader.key()),
        ensures
            final(self).wf(),
            final(self).log() == old(self).log(),
            final(self).readers() == old(self).readers().update(reader.key(), CursorState::Released),
            final(self).start() == min_cursor(final(self).readers(), old(self).end()),
            final(self).start() >= old(self).start(),
            released_in_order(
                old(self).current(),
                old(self).log().subrange(old(self).start() as int, final(self).start() as int),
                final(self).current(),
            ),
    {
        self.readers.set(reader.id, CursorState::Released);
        assert forall|i: int|
            0 <= i < self.readers@.len() implies (#[trigger] self.readers@[i] matches CursorState::At(c)
                ==> self.start <= c <= self.log@.len()) by {
            if i != reader.id {
                assert(self.readers@[i] == old(self).readers@[i]);
            }
        }
        self.compact();
        proof {
            lemma_min_cursor_at_least(self.readers@, old(self).end(), old(self).start());
        }
    }

    /// Borrows the latest value with the changes after `since`, without moving any reader.
    fn borrow_since(&self, since: Option<usize>) -> (r: ChangeFeedRef<'_, M>)
        requires
            self.wf(),
            since matches Some(c) ==> self.start() <= c <= self.end(),
        ensures
            r.model() == self.current(),
            r.since() == since,
            r.changes() == (match since {
                Some(c) => self.log().subrange(c as int, self.end() as int),
                None => Seq::<M::Change>::empty(),
            }),
    {
        let len = self.changes.len();
        let changes = match since {
            Some(c) => {
                let from = c - self.start;
                let s = slice_subrange(self.changes.as_slice(), from, len);
                assert(s@ =~= self.log@.subrange(c as int, self.log@.len() as int));
                s
            },
            None => {
                let s = slice_subrange(self.changes.as_slice(), len, len);
                assert(s@ =~= Seq::<M::Change>::empty());
                s
            },
        };
        ChangeFeedRef { current: &self.current, changes, since }
    }

    /// Borrows the latest value and advances `reader` to the current end.
    ///
    /// The first read of a reader is an initial read; every later read holds exactly the changes
    /// recorded since the reader's previous read.
    pub fn read(&mut self, reader: &ChangeFeedCursorReader) -> (r: ChangeFeedRef<'_, M>)
        requires
            old(self).wf(),
            old(self).is_live(reader.key()),
        ensures
            final(self).wf(),
            final(self).log() == old(self).log(),
            final(self).start() == min_cursor(old(self).readers(), old(self).end()),
            released_in_order(
                old(self).current(),
                old(self).log().subrange(old(self).start() as int, final(self).start() as int),
                final(self).current(),
            ),
            final(self).readers() == old(self).readers().update(
                reader.key(),
                CursorState::At(old(self).end() as usize),
            ),
            final(self).start() == old(self).start() ==> final(self).current() == old(self).current(),
            r.model() == final(self).current(),
            (old(self).readers()[reader.key()] == CursorState::Unread) == (r.since() is None),
            r.changes() == old(self).pending(reader.key()),
    {
        self.compact();
        proof {
            if self.start == old(self).start {
                assert(old(self).log().subrange(old(self).start() as int, self.start as int) =~= Seq::<
                    M::Change,
                >::empty());
                lemma_released_nothing(old(self).current, self.current);
            }
        }
        let since = match self.readers[reader.id] {
            CursorState::At(c) => Some(c),
            _ => None,
        };
        let end = self.start + self.changes.len();
        self.readers.set(reader.id, CursorState::At(end));
        assert forall|i: int|
            0 <= i < self.readers@.len() implies (#[trigger] self.readers@[i] matches CursorState::At(c)
                ==> self.start <= c <= self.log@.len()) by {
            if i != reader.id {
                assert(self.readers@[i] == old(self).readers@[i]);
            }
        }
        assert(old(self).readers@[reader.id as int] matches CursorState::At(c) ==> self.start <= c
            <= self.log@.len());
        self.borrow_since(since)
    }

    /// A reader whose cursor stands at the end of the changes, as a read leaves it, has nothing
    /// pending: until another change is recorded, peeking or reading it again reports no change.
    pub proof fn lemma_nothing_pending_at_end(&self, key: int)
        requires
            self.wf(),
            0 <= key < self.readers().len(),
            self.readers()[key] == CursorState::At(self.end() as usize),
        ensures
            self.pending(key) == Seq::<M::Change>::empty(),
    {
        assert(self.log().subrange(self.end() as int, self.end() as int) =~= Seq::<M::Change>::empty());
    }

    /// Borrows the latest value with the changes `reader` would receive, without advancing it.
    pub fn peek(&self, reader: &ChangeFeedCursorReader) -> (r: ChangeFeedRef<'_, M>)
        requires
            self.wf(),
            self.is_live(reader.key()),
        ensures
            r.model() == self.current(),
            (self.readers()[reader.key()] == CursorState::Unread) == (r.since() is None),
            r.changes() == self.pending(reader.key()),
    {
        let since = match self.readers[reader.id] {
            CursorState::At(c) => Some(c),
            _ => None,
        };
        assert(self.readers@[reader.id as int] matches CursorState::At(c) ==> self.start <= c
            <= self.log@.len());
        self.borrow_since(since)
    }

    /// Borrows the latest value as a reference that holds no pending changes.
    pub fn borrow_current(&self) -> (r: ChangeFeedRef<'_, M>)
        requires
            self.wf(),
        ensures
            r.model() == self.current(),
            r.since() == Some(self.end() as usize),
            r.changes() == Seq::<M::Change>::empty(),
    {
        let end = self.start + self.changes.len();
        let r = self.borrow_since(Some(end));
        assert(self.log().subrange(end as int, end as int) =~= Seq::<M::Change>::empty());
        r
    }

    /// Begins an edit: compacts, then remembers where the edit's changes start.
    pub fn begin_edit(&mut self) -> (r: ChangeFeedRefMut<'_, M>)
        requires
            old(self).wf(),
        ensures
            r.start() == min_cursor(old(self).readers(), old(self).end()),
            r.start() == r.storage().start(),
            r.start() >= old(self).start(),
            r.begin() == old(self).end(),
            r.storage().wf(),
            r.storage().log() == old(self).log(),
            r.storage().readers() == old(self).readers(),
            released_in_order(
                old(self).current(),
                old(self).log().subrange(old(self).start() as int, r.storage().start() as int),
                r.storage().current(),
            ),
            *final(self) == *final(r.storage),
    {
        self.compact();
        let begin = self.start + self.changes.len();
        ChangeFeedRefMut { storage: self, begin }
    }
}

/// A mutable borrow of a change feed that records model-specific changes.
///
/// Every observable mutation through [`current_mut`](Self::current_mut) must be paired with a
/// call to [`record`](Self::record).
pub struct ChangeFeedRefMut<'a, M: ChangeFeedModel> {
    pub storage: &'a mut ChangeFeedStorage<M>,
    pub begin: usize,
}

impl<'a, M: ChangeFeedModel> ChangeFeedRefMut<'a, M> {
    /// The feed as this edit currently sees it.
    pub open spec fn storage(&self) -> ChangeFeedStorage<M> {
        *self.storage
    }

    /// The age of the first change recorded by this edit.
    pub open spec fn begin(&self) -> nat {
        self.begin as nat
    }

    /// The age of the oldest retained change of the edited feed.
    pub open spec fn start(&self) -> nat {
        self.storage().start()
    }

    /// The changes recorded by this edit, oldest first.
    pub open spec fn edit_changes(&self) -> Seq<M::Change> {
        self.storage().log().subrange(self.begin() as int, self.storage().end() as int)
    }

    /// This edit's view of the feed is consistent.
    pub open spec fn inv(&self) -> bool {
        self.storage().wf() && self.storage().start() <= self.begin() <= self.storage().end()
    }

    /// Returns the current model value.
    pub fn current(&self) -> (r: &M)
        ensures
            *r == self.storage().current(),
    {
        self.storage.current_ref()
    }

    /// Returns the current model value mutably.
    ///
    /// Mutating the value does not record a change automatically. Call
    /// [`record`](Self::record) for every observable mutation.
    pub fn current_mut(&mut self) -> (r: &mut M)
        ensures
            *r == old(self).storage().current(),
            final(self).storage().current() == *final(r),
            final(self).storage().log() == old(self).storage().log(),
            final(self).storage().start() == old(self).storage().start(),
            final(self).storage().readers() == old(self).storage().readers(),
            final(self).begin() == old(self).begin(),
            *final(final(self).storage) == *final(old(self).storage),
            old(self).inv() ==> final(self).inv(),
    {
        self.storage.current_mut()
    }

    /// Appends a model-specific change to the feed.
    pub fn record(&mut self, change: M::Change)
        requires
            old(self).inv(),
            old(self).storage().end() < usize::MAX,
        ensures
            final(self).inv(),
            final(self).storage().log() == old(self).storage().log().push(change),
            final(self).storage().current() == old(self).storage().current(),
            final(self).storage().start() == old(self).storage().start(),
            final(self).storage().readers() == old(self).storage().readers(),
            final(self).begin() == old(self).begin(),
            *final(final(self).storage) == *final(old(self).storage),
            final(self).edit_changes() == old(self).edit_changes().push(change),
    {
        self.storage.record(change);
        assert(self.edit_changes() =~= old(self).edit_changes().push(change));
    }

    /// Returns whether this edit recorded any change.
    pub fn is_dirty(&self) -> (r: bool)
        requires
            self.inv(),
        ensures
            r == (self.edit_changes().len() > 0),
    {
        self.storage.end_cursor() != self.begin
    }

    /// Ends the edit: releases every retained change that no reader still has to read, then
    /// returns whether the edit recorded any change, in which case the feed's dependants have to
    /// be notified.
    pub fn finish(self) -> (dirty: bool)
        requires
            self.inv(),
        ensures
            dirty == (self.edit_changes().len() > 0),
            final(self.storage).wf(),
            final(self.storage).log() == self.storage().log(),
            final(self.storage).readers() == self.storage().readers(),
            final(self.storage).start() == min_cursor(self.storage().readers(), self.storage().end()),
            released_in_order(
                self.storage().current(),
                self.storage().log().subrange(self.storage().start() as int, final(self.storage).start() as int),
                final(self.storage).current(),
            ),
    {
        let dirty = self.is_dirty();
        self.storage.compact();
        dirty
    }

    /// Returns the changes recorded by this edit, oldest first.
    pub fn changes(&self) -> (r: &[M::Change])
        requires
            self.inv(),
        ensures
            r@ == self.edit_changes(),
    {
        let s: &ChangeFeedStorage<M> = self.storage;
        let r = s.borrow_since(Some(self.begin));
        r.changes
    }
}

} // verus!
