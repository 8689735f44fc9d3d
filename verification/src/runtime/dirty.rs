use vstd::prelude::*;
use vstd::std_specs::convert::FromSpecImpl;
use vstd::std_specs::ops::BitOrSpecImpl;

use crate::runtime::DirtyLevel;

verus! {

/// Dirty state of a cached value: clean, possibly dirty, or certainly dirty.
///
/// The three states are totally ordered `Clean < MaybeDirty < Dirty`.
#[derive(Debug, Clone, Copy, PartialEq, Eq, Structural, PartialOrd, Ord)]
pub enum Dirty {
    Clean,
    MaybeDirty,
    Dirty,
}

/// The position of a state in the order `Clean < MaybeDirty < Dirty`.
pub open spec fn rank(d: Dirty) -> nat {
    match d {
        Dirty::Clean => 0,
        Dirty::MaybeDirty => 1,
        Dirty::Dirty => 2,
    }
}

/// The larger of two states in the order `Clean < MaybeDirty < Dirty`.
pub open spec fn join(a: Dirty, b: Dirty) -> Dirty {
    if rank(a) >= rank(b) { a } else { b }
}

/// The dirty state that a notification of the given level stands for.
pub open spec fn level_to_dirty(level: DirtyLevel) -> Dirty {
    match level {
        DirtyLevel::Dirty => Dirty::Dirty,
        DirtyLevel::MaybeDirty => Dirty::MaybeDirty,
    }
}

impl Dirty {
    pub fn from_is_dirty(is_dirty: bool) -> (r: Self)
        ensures
            r == (if is_dirty { Dirty::Dirty } else { Dirty::Clean }),
    {
        if is_dirty { Dirty::Dirty } else { Dirty::Clean }
    }

    pub fn is_dirty(self) -> (r: bool)
        ensures
            r == (self == Dirty::Dirty),
    {
        self == Dirty::Dirty
    }

    pub fn is_maybe_dirty(self) -> (r: bool)
        ensures
            r == (self == Dirty::MaybeDirty),
    {
        self == Dirty::MaybeDirty
    }

    pub fn is_clean(self) -> (r: bool)
        ensures
            r == (self == Dirty::Clean),
    {
        self == Dirty::Clean
    }

    /// Returns true if the dependants need to be notified when the dirty state is changed
    /// from the current value to `Dirty` or `MaybeDirty`.
    ///
    /// Equivalent to [`is_clean`](Self::is_clean): when changing from `MaybeDirty` to `Dirty`,
    /// the update is already scheduled by the earlier `MaybeDirty` notification.
    pub fn needs_notify(self) -> (r: bool)
        ensures
            r == (self == Dirty::Clean),
    {
        self.is_clean()
    }

    /// Raises the state to at least the level of the notification.
    pub fn apply_notify(&mut self, level: DirtyLevel)
        ensures
            *final(self) == join(*old(self), level_to_dirty(level)),
    {
        let d = Dirty::from(level);
        *self = max_dirty(*self, d);
    }
}

/// The larger of two states in the order `Clean < MaybeDirty < Dirty`.
pub fn max_dirty(a: Dirty, b: Dirty) -> (r: Dirty)
    ensures
        r == join(a, b),
{
    match (a, b) {
        (Dirty::Dirty, _) => a,
        (_, Dirty::Dirty) => b,
        (Dirty::MaybeDirty, _) => a,
        (_, Dirty::MaybeDirty) => b,
        _ => a,
    }
}

impl From<DirtyLevel> for Dirty {
    fn from(value: DirtyLevel) -> (r: Self) {
        match value {
            DirtyLevel::Dirty => Dirty::Dirty,
            DirtyLevel::MaybeDirty => Dirty::MaybeDirty,
        }
    }
}

impl FromSpecImpl<DirtyLevel> for Dirty {
    open spec fn obeys_from_spec() -> bool {
        true
    }

    open spec fn from_spec(v: DirtyLevel) -> Dirty {
        level_to_dirty(v)
    }
}

impl std::ops::BitOr for Dirty {
    type Output = Self;

    fn bitor(self, rhs: Self) -> (r: Self) {
        max_dirty(self, rhs)
    }
}

impl BitOrSpecImpl for Dirty {
    open spec fn obeys_bitor_spec() -> bool {
        true
    }

    open spec fn bitor_req(self, rhs: Dirty) -> bool {
        true
    }

    open spec fn bitor_spec(self, rhs: Dirty) -> Dirty {
        join(self, rhs)
    }
}

impl std::ops::BitOrAssign for Dirty {
    fn bitor_assign(&mut self, rhs: Self)
        ensures
            *final(self) == join(*old(self), rhs),
    {
        *self = max_dirty(*self, rhs);
    }
}

/// Combining dirty states with `|` is commutative.
pub proof fn lemma_join_commutative(a: Dirty, b: Dirty)
    ensures
        join(a, b) == join(b, a),
{
}

/// Combining dirty states with `|` is associative.
pub proof fn lemma_join_associative(a: Dirty, b: Dirty, c: Dirty)
    ensures
        join(join(a, b), c) == join(a, join(b, c)),
{
}

/// Combining a dirty state with itself leaves it unchanged.
pub proof fn lemma_join_idempotent(a: Dirty)
    ensures
        join(a, a) == a,
{
}

/// `Clean` is the neutral element of `|`, and `Dirty` absorbs every state.
pub proof fn lemma_join_clean_and_dirty(a: Dirty)
    ensures
        join(Dirty::Clean, a) == a,
        join(Dirty::Dirty, a) == Dirty::Dirty,
{
}

/// The result of `|` is at least as dirty as each operand and is one of them.
pub proof fn lemma_join_upper_bound(a: Dirty, b: Dirty)
    ensures
        rank(a) <= rank(join(a, b)),
        rank(b) <= rank(join(a, b)),
        join(a, b) == a || join(a, b) == b,
{
}

/// A notification never makes a state cleaner, and after it the state is at least as dirty
/// as the notification's level; repeating the same notification changes nothing more.
pub proof fn lemma_apply_notify_monotone(d: Dirty, level: DirtyLevel)
    ensures
        rank(d) <= rank(join(d, level_to_dirty(level))),
        rank(level_to_dirty(level)) <= rank(join(d, level_to_dirty(level))),
        join(join(d, level_to_dirty(level)), level_to_dirty(level)) == join(d, level_to_dirty(level)),
        join(d, level_to_dirty(level)) != Dirty::Clean,
{
}

} // verus!
