//! Small state holders of reactive computations.

pub mod context;

use vstd::prelude::*;

verus! {

/// Anything a subscription can keep alive.
pub trait KeepAlive {}

impl<T> KeepAlive for T {}

/// Keeps a reactive computation alive; dropping it stops the computation.
#[derive(Clone)]
pub struct Subscription(pub Option<std::rc::Rc<dyn KeepAlive>>);

impl Subscription {
    /// A subscription that keeps nothing alive.
    pub fn empty() -> (r: Self)
        ensures
            r.0 is None,
    {
        Subscription(None)
    }

    /// Returns whether this subscription keeps nothing alive.
    pub fn is_empty(&self) -> (r: bool)
        ensures
            r == (self.0 is None),
    {
        self.0.is_none()
    }
}

/// The state of a scan: nothing yet, loaded while it has dependants, unloaded otherwise.
pub enum ScanState<LoadSt, UnloadSt> {
    NoData,
    Loaded(LoadSt),
    Unloaded(UnloadSt),
}

impl<LoadSt, UnloadSt> Default for ScanState<LoadSt, UnloadSt> {
    fn default() -> (r: Self)
        ensures
            r is NoData,
    {
        ScanState::NoData
    }
}

impl<LoadSt, UnloadSt> ScanState<LoadSt, UnloadSt> {
    /// Loads an unloaded state with `load`; returns whether it did.
    pub fn load<F: FnOnce(UnloadSt) -> LoadSt>(&mut self, load: F) -> (r: bool)
        requires
            *old(self) matches ScanState::Unloaded(u) ==> load.requires((u,)),
        ensures
            r == (*old(self) is Unloaded),
            *old(self) matches ScanState::Unloaded(u) ==> (*final(self) matches ScanState::Loaded(l) && load.ensures(
                (u,),
                l,
            )),
            !(*old(self) is Unloaded) ==> *final(self) == *old(self),
    {
        if let ScanState::Unloaded(_) = self {
            let mut taken = ScanState::NoData;
            std::mem::swap(&mut taken, self);
            match taken {
                ScanState::Unloaded(state) => {
                    *self = ScanState::Loaded(load(state));
                    true
                },
                _ => vstd::pervasive::unreached(),
            }
        } else {
            false
        }
    }

    /// Unloads a loaded state with `unload`; returns whether it did.
    pub fn unload<F: FnOnce(LoadSt) -> UnloadSt>(&mut self, unload: F) -> (r: bool)
        requires
            *old(self) matches ScanState::Loaded(l) ==> unload.requires((l,)),
        ensures
            r == (*old(self) is Loaded),
            *old(self) matches ScanState::Loaded(l) ==> (*final(self) matches ScanState::Unloaded(u) && unload.ensures(
                (l,),
                u,
            )),
            !(*old(self) is Loaded) ==> *final(self) == *old(self),
    {
        if let ScanState::Loaded(_) = self {
            let mut taken = ScanState::NoData;
            std::mem::swap(&mut taken, self);
            match taken {
                ScanState::Loaded(value) => {
                    *self = ScanState::Unloaded(unload(value));
                    true
                },
                _ => vstd::pervasive::unreached(),
            }
        } else {
            false
        }
    }

    /// Returns whether the state is loaded; a scan always has data when this is asked.
    pub fn is_loaded(&self) -> (r: bool)
        requires
            !(*self is NoData),
        ensures
            r == (*self is Loaded),
    {
        match self {
            ScanState::Loaded(_) => true,
            _ => false,
        }
    }

    /// Returns the loaded state; a scan is always loaded when its value is asked for.
    pub fn get(&self) -> (r: &LoadSt)
        requires
            *self is Loaded,
        ensures
            *self == ScanState::<LoadSt, UnloadSt>::Loaded(*r),
    {
        match self {
            ScanState::Loaded(state) => state,
            _ => vstd::pervasive::unreached(),
        }
    }
}

/// The loaded state of a filtering scan and whether dependants are to be notified.
pub struct FilterScanLoad<LoadSt> {
    pub state: LoadSt,
    pub is_notify: bool,
}

/// The load step of a scan that drops repeated values.
///
/// The first value is stored without notifying dependants. A later value that `eq` finds equal
/// to the stored one leaves the stored one in place and notifies nobody; any other value is
/// stored and notifies the dependants.
pub fn dedup_load<T, F: Fn(&T, &T) -> bool>(state: Option<T>, value: T, eq: &F) -> (r: FilterScanLoad<T>)
    requires
        forall|a: &T, b: &T| eq.requires((a, b)),
    ensures
        state is None ==> r.state == value && !r.is_notify,
        state matches Some(old) ==> (r.is_notify ==> r.state == value && eq.ensures((&value, &old), false)),
        state matches Some(old) ==> (!r.is_notify ==> r.state == old && eq.ensures((&value, &old), true)),
{
    match state {
        Some(old) => {
            if eq(&value, &old) {
                FilterScanLoad { state: old, is_notify: false }
            } else {
                FilterScanLoad { state: value, is_notify: true }
            }
        },
        None => FilterScanLoad { state: value, is_notify: false },
    }
}

/// The state of a filtering scan after an update and whether dependants are to be notified.
pub struct FilterScanResult<Loaded> {
    pub state: Loaded,
    pub is_notify: bool,
}

} // verus!
