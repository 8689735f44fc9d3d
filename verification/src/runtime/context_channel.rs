//! Hand-over of a runtime context to synchronous callbacks: a channel is inactive, holds an
//! available context, or has lent it to a callback.

use vstd::prelude::*;

verus! {

/// The state of a context channel.
#[derive(Copy, Clone, PartialEq, Eq, Structural, Debug)]
pub enum ChannelState<P> {
    Inactive,
    Available(P),
    Borrowed,
}

/// Temporarily transfers a context pointer through synchronous callbacks.
///
/// [`scope`](Self::scope) makes a pointer available until the returned state is restored;
/// [`try_borrow`](Self::try_borrow) lends the available pointer until its returned state is
/// restored, and tells an inactive channel apart from a recursive borrow.
pub struct ContextChannel<P> {
    state: ChannelState<P>,
}

impl<P: Copy> ContextChannel<P> {
    pub closed spec fn state(&self) -> ChannelState<P> {
        self.state
    }

    /// Creates an inactive channel.
    pub fn new() -> (r: Self)
        ensures
            r.state() == ChannelState::<P>::Inactive,
    {
        ContextChannel { state: ChannelState::Inactive }
    }

    /// Makes `pointer` available and returns the state to restore when the scope ends.
    pub fn scope(&mut self, pointer: P) -> (previous: ChannelState<P>)
        ensures
            previous == old(self).state(),
            final(self).state() == ChannelState::Available(pointer),
    {
        let previous = self.state;
        self.state = ChannelState::Available(pointer);
        previous
    }

    /// Ends a scope or a borrow by restoring the state it returned.
    pub fn restore(&mut self, previous: ChannelState<P>)
        ensures
            final(self).state() == previous,
    {
        self.state = previous;
    }

    /// Lends the available pointer: returns it with the state to restore when the borrow ends,
    /// or `None` when the channel is inactive.
    pub fn try_borrow(&mut self) -> (r: Option<(P, ChannelState<P>)>)
        requires
            old(self).state() != ChannelState::<P>::Borrowed,
        ensures
            old(self).state() == ChannelState::<P>::Inactive ==> r is None && final(self).state() == old(self).state(),
            old(self).state() matches ChannelState::Available(p) ==> r == Some((p, old(self).state()))
                && final(self).state() == ChannelState::<P>::Borrowed,
    {
        match self.state {
            ChannelState::Inactive => None,
            ChannelState::Available(pointer) => {
                self.state = ChannelState::Borrowed;
                Some((pointer, ChannelState::Available(pointer)))
            },
            ChannelState::Borrowed => vstd::pervasive::unreached(),
        }
    }

    /// Calls `f` with the available pointer and restores the channel afterwards; an inactive
    /// channel calls nothing and returns `None`. While `f` runs the channel is borrowed.
    pub fn try_with<R, F: FnOnce(P) -> R>(&mut self, f: F) -> (r: Option<R>)
        requires
            old(self).state() != ChannelState::<P>::Borrowed,
            old(self).state() matches ChannelState::Available(p) ==> f.requires((p,)),
        ensures
            final(self).state() == old(self).state(),
            old(self).state() == ChannelState::<P>::Inactive ==> r is None,
            old(self).state() matches ChannelState::Available(p) ==> (r matches Some(v) && f.ensures((p,), v)),
    {
        match self.try_borrow() {
            None => None,
            Some((pointer, previous)) => {
                let value = f(pointer);
                self.restore(previous);
                Some(value)
            },
        }
    }

    /// Returns whether a borrow would currently be a recursive one.
    pub fn is_borrowed(&self) -> (r: bool)
        ensures
            r == (self.state() == ChannelState::<P>::Borrowed),
    {
        match self.state {
            ChannelState::Borrowed => true,
            _ => false,
        }
    }
}

} // verus!
