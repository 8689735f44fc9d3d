//! The phases of the thread's reactive context: notifications and bindings never run at the same
//! time. A binding requested while notifications run is refused; a notification requested while
//! bindings run is deferred until the bindings end, and binding tasks spawned by notifications
//! run once the notifications end.
//!
//! The context decides; its caller runs the callbacks, tasks and notifications it hands out.

use vstd::prelude::*;

verus! {

/// What the reactive context is running, with the nesting depth of the innermost call.
#[derive(Clone, Copy, Debug, PartialEq, Eq, Structural)]
pub enum ReactiveState {
    Idle,
    Notify(usize),
    Bind(usize),
}

/// How a request to run notifications is served.
#[derive(Clone, Copy, Debug, PartialEq, Eq, Structural)]
pub enum NotifyEntry {
    /// Runs now as the outermost notification; its end is [`ReactiveContextData::notify_end`].
    Outermost,
    /// Runs now inside the notification at this depth, which is restored afterwards.
    Nested(usize),
    /// Bindings are running: the notification has to be deferred.
    Refused,
}

/// The state after a request to run notifications.
pub open spec fn state_after_notify_request(s: ReactiveState) -> ReactiveState {
    match s {
        ReactiveState::Idle => ReactiveState::Notify(0),
        ReactiveState::Notify(d) => ReactiveState::Notify((d + 1) as usize),
        ReactiveState::Bind(d) => ReactiveState::Bind(d),
    }
}

/// How a request to run notifications in state `s` is served.
pub open spec fn notify_entry(s: ReactiveState) -> NotifyEntry {
    match s {
        ReactiveState::Idle => NotifyEntry::Outermost,
        ReactiveState::Notify(d) => NotifyEntry::Nested(d),
        ReactiveState::Bind(_) => NotifyEntry::Refused,
    }
}

/// The state after a request to run bindings, which notifications never make.
pub open spec fn state_after_bind_request(s: ReactiveState) -> ReactiveState {
    match s {
        ReactiveState::Bind(d) => ReactiveState::Bind((d + 1) as usize),
        _ => ReactiveState::Bind(0),
    }
}

/// The state that ends a nested call entered from depth `d` of the same kind.
pub open spec fn state_after_nested_end(entered: ReactiveState, d: usize) -> ReactiveState {
    match entered {
        ReactiveState::Notify(_) => ReactiveState::Notify(d),
        ReactiveState::Bind(_) => ReactiveState::Bind(d),
        ReactiveState::Idle => ReactiveState::Idle,
    }
}

/// The state of the thread's reactive context, the binding tasks spawned by notifications, and
/// the sources whose notification was deferred while bindings ran.
pub struct ReactiveContextData<T, S> {
    state: ReactiveState,
    lazy_bind_tasks: Vec<T>,
    lazy_notify_sources: Vec<S>,
}

impl<T, S> ReactiveContextData<T, S> {
    pub closed spec fn state(&self) -> ReactiveState {
        self.state
    }

    /// The binding tasks still to run, in the order spawned.
    pub closed spec fn tasks(&self) -> Seq<T> {
        self.lazy_bind_tasks@
    }

    /// The sources whose notification waits for the bindings to end, in the order deferred.
    pub closed spec fn deferred(&self) -> Seq<S> {
        self.lazy_notify_sources@
    }

    /// An idle context with nothing pending.
    pub fn new() -> (r: Self)
        ensures
            r.state() == ReactiveState::Idle,
            r.tasks() == Seq::<T>::empty(),
            r.deferred() == Seq::<S>::empty(),
    {
        ReactiveContextData { state: ReactiveState::Idle, lazy_bind_tasks: Vec::new(), lazy_notify_sources: Vec::new() }
    }

    /// Returns what the context is running.
    pub fn current_state(&self) -> (r: ReactiveState)
        ensures
            r == self.state(),
    {
        self.state
    }

    /// Queues a binding task to run when the notifications end.
    pub fn spawn(&mut self, task: T)
        ensures
            final(self).state() == old(self).state(),
            final(self).tasks() == old(self).tasks().push(task),
            final(self).deferred() == old(self).deferred(),
    {
        self.lazy_bind_tasks.push(task);
    }

    /// Serves a request to run notifications: enters the notification phase (outermost or
    /// nested) unless bindings are running, in which case the request is refused and the
    /// state is unchanged.
    pub fn begin_notify(&mut self) -> (r: NotifyEntry)
        requires
            old(self).state() != ReactiveState::Notify(usize::MAX),
        ensures
            r == notify_entry(old(self).state()),
            final(self).state() == state_after_notify_request(old(self).state()),
            final(self).tasks() == old(self).tasks(),
            final(self).deferred() == old(self).deferred(),
    {
        match self.state {
            ReactiveState::Idle => {
                self.state = ReactiveState::Notify(0);
                NotifyEntry::Outermost
            },
            ReactiveState::Notify(depth) => {
                self.state = ReactiveState::Notify(depth + 1);
                NotifyEntry::Nested(depth)
            },
            ReactiveState::Bind(_) => NotifyEntry::Refused,
        }
    }

    /// Defers the notification of `source` until the running bindings end.
    pub fn defer_notify(&mut self, source: S)
        ensures
            final(self).state() == old(self).state(),
            final(self).tasks() == old(self).tasks(),
            final(self).deferred() == old(self).deferred().push(source),
    {
        self.lazy_notify_sources.push(source);
    }

    /// Ends a nested notification entered from depth `depth`.
    pub fn end_nested_notify(&mut self, depth: usize)
        ensures
            final(self).state() == ReactiveState::Notify(depth),
            final(self).tasks() == old(self).tasks(),
            final(self).deferred() == old(self).deferred(),
    {
        self.state = ReactiveState::Notify(depth);
    }

    /// Ends the outermost notification: with no binding task spawned the context becomes idle
    /// and `false` is returned; otherwise the binding phase starts to run the tasks (see
    /// [`next_bind_task`](Self::next_bind_task)) and `true` is returned.
    pub fn notify_end(&mut self) -> (r: bool)
        ensures
            r == (old(self).tasks().len() > 0),
            final(self).state() == (if r { ReactiveState::Bind(0) } else { ReactiveState::Idle }),
            final(self).tasks() == old(self).tasks(),
            final(self).deferred() == old(self).deferred(),
    {
        if self.lazy_bind_tasks.len() == 0 {
            self.state = ReactiveState::Idle;
            false
        } else {
            self.state = ReactiveState::Bind(0);
            true
        }
    }

    /// Takes the most recently spawned binding task still to run, if any.
    pub fn next_bind_task(&mut self) -> (r: Option<T>)
        ensures
            final(self).state() == old(self).state(),
            final(self).deferred() == old(self).deferred(),
            old(self).tasks().len() == 0 ==> r is None && final(self).tasks() == old(self).tasks(),
            old(self).tasks().len() > 0 ==> r == Some(old(self).tasks().last()) && final(self).tasks()
                == old(self).tasks().drop_last(),
    {
        self.lazy_bind_tasks.pop()
    }

    /// Serves a request to run bindings, which must not come while notifications run:
    /// returns `None` for an outermost binding (its end is [`bind_end`](Self::bind_end)) and
    /// the depth to restore for a nested one.
    pub fn begin_bind(&mut self) -> (r: Option<usize>)
        requires
            !(old(self).state() is Notify),
            old(self).state() != ReactiveState::Bind(usize::MAX),
        ensures
            r == (match old(self).state() {
                ReactiveState::Bind(d) => Some(d),
                _ => None::<usize>,
            }),
            final(self).state() == state_after_bind_request(old(self).state()),
            final(self).tasks() == old(self).tasks(),
            final(self).deferred() == old(self).deferred(),
    {
        match self.state {
            ReactiveState::Bind(depth) => {
                self.state = ReactiveState::Bind(depth + 1);
                Some(depth)
            },
            _ => {
                self.state = ReactiveState::Bind(0);
                None
            },
        }
    }

    /// Ends a nested binding entered from depth `depth`.
    pub fn end_nested_bind(&mut self, depth: usize)
        ensures
            final(self).state() == ReactiveState::Bind(depth),
            final(self).tasks() == old(self).tasks(),
            final(self).deferred() == old(self).deferred(),
    {
        self.state = ReactiveState::Bind(depth);
    }

    /// Ends the outermost binding: with no deferred notification the context becomes idle and
    /// `None` is returned; otherwise the notification phase starts and the deferred sources are
    /// handed out, in the order deferred, to be notified before [`notify_end`](Self::notify_end).
    pub fn bind_end(&mut self) -> (r: Option<Vec<S>>)
        ensures
            final(self).tasks() == old(self).tasks(),
            final(self).deferred() == Seq::<S>::empty(),
            old(self).deferred().len() == 0 ==> r is None && final(self).state() == ReactiveState::Idle,
            old(self).deferred().len() > 0 ==> (r matches Some(sources) && sources@ == old(self).deferred()
                && final(self).state() == ReactiveState::Notify(0)),
    {
        self.state = ReactiveState::Idle;
        if self.lazy_notify_sources.len() == 0 {
            return None;
        }
        self.state = ReactiveState::Notify(0);
        let mut sources: Vec<S> = Vec::new();
        std::mem::swap(&mut sources, &mut self.lazy_notify_sources);
        Some(sources)
    }
}

/// A nested notification or binding, once ended, leaves the context as it found it.
pub proof fn lemma_nested_call_restores_state(s: ReactiveState)
    requires
        s matches ReactiveState::Notify(d) ==> d < usize::MAX,
        s matches ReactiveState::Bind(d) ==> d < usize::MAX,
    ensures
        s matches ReactiveState::Notify(d) ==> (notify_entry(s) == NotifyEntry::Nested(d)
            && state_after_nested_end(state_after_notify_request(s), d) == s),
        s matches ReactiveState::Bind(d) ==> (state_after_nested_end(state_after_bind_request(s), d) == s),
{
}

/// Notifications and bindings exclude each other: a notification requested while bindings run
/// is refused and changes nothing, and every accepted notification request leaves the context
/// in the notification phase.
pub proof fn lemma_notify_excludes_bind(s: ReactiveState)
    ensures
        s is Bind ==> notify_entry(s) == NotifyEntry::Refused && state_after_notify_request(s) == s,
        !(s is Bind) ==> state_after_notify_request(s) is Notify,
        state_after_bind_request(s) is Bind,
{
}

} // verus!
