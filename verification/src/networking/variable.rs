//! Variables that are networked from the server to its clients.
use std::borrow::Cow;
use vstd::prelude::*;

verus! {

/// The side of a networked field: the server's variable or the client's.
#[derive(Clone, Copy, PartialEq, Eq, Structural, Debug)]
pub enum NetworkedSide {
    Server,
    Client,
}

impl NetworkedSide {
    /// The name of the variable type that holds a networked field on this side.
    pub fn variable_name(&self) -> (r: &'static str)
        ensures
            r@ == (match self {
                NetworkedSide::Server => "NetworkVar"@,
                NetworkedSide::Client => "ServerVar"@,
            }),
    {
        match self {
            NetworkedSide::Server => "NetworkVar",
            NetworkedSide::Client => "ServerVar",
        }
    }
}

/// When a networked value last changed.
pub enum ChangeState {
    /// Changed this tick.
    Dirty,
    /// Changed in the past.
    Clean { last_changed_tick: u32 },
}

/// A variable that is networked to clients.
pub struct NetworkVar<T> {
    value: T,
    /// The value before the last change to `value`.
    /// Used to diff the most recent change.
    last_value: Option<T>,
    change_state: ChangeState,
}

impl<T> NetworkVar<T> {
    /// The current value.
    pub closed spec fn current(&self) -> T {
        self.value
    }

    /// The value before the last change, if any was recorded.
    pub closed spec fn previous(&self) -> Option<T> {
        self.last_value
    }

    /// Changed this tick, and not yet marked clean.
    pub closed spec fn is_dirty(&self) -> bool {
        self.change_state is Dirty
    }

    /// The tick of the last change, once marked clean.
    pub closed spec fn last_changed(&self) -> u32 {
        match self.change_state {
            ChangeState::Dirty => 0,
            ChangeState::Clean { last_changed_tick } => last_changed_tick,
        }
    }

    /// Has the value changed since the given tick?
    pub fn has_changed_since(&self, tick: u32) -> (r: bool)
        ensures
            r == (self.is_dirty() || self.last_changed() > tick),
    {
        match self.change_state {
            ChangeState::Dirty => true,
            ChangeState::Clean { last_changed_tick } => last_changed_tick > tick,
        }
    }

    /// Marks a change made this tick as made at `tick`.
    /// Returns whether there was such a change.
    pub fn update_state(&mut self, tick: u32) -> (r: bool)
        ensures
            r == old(self).is_dirty(),
            !final(self).is_dirty(),
            final(self).last_changed() == (if r { tick } else { old(self).last_changed() }),
            final(self).current() == old(self).current(),
            final(self).previous() == old(self).previous(),
    {
        if matches!(self.change_state, ChangeState::Dirty) {
            self.change_state = ChangeState::Clean { last_changed_tick: tick };
            true
        } else {
            false
        }
    }

    /// Creates a network variable from a default value to avoid the need for an initial sync.
    /// The client [`ServerVar`] must be created with the same value to avoid desync.
    pub fn from_default(default: T) -> (r: Self)
        ensures
            r.current() == default,
            r.previous() is None,
            !r.is_dirty(),
            r.last_changed() == 0,
    {
        NetworkVar { value: default, last_value: None, change_state: ChangeState::Clean { last_changed_tick: 0 } }
    }

    /// A fresh variable holding `value`, to be sent in full.
    pub fn from_value(value: T) -> (r: Self)
        ensures
            r.current() == value,
            r.previous() is None,
            r.is_dirty(),
    {
        NetworkVar { value, last_value: None, change_state: ChangeState::Dirty }
    }

    /// Read access to the value.
    pub fn value(&self) -> (r: &T)
        ensures
            *r == self.current(),
    {
        &self.value
    }

    /// Write access to the value: remembers the value as it was and marks the variable changed.
    pub fn value_mut(&mut self) -> (r: &mut T)
        where T: Clone
        ensures
            *r == old(self).current(),
            final(self).current() == *final(r),
            final(self).is_dirty(),
            final(self).previous() matches Some(p) && cloned(old(self).current(), p),
    {
        self.last_value = Some(self.value.clone());
        self.change_state = ChangeState::Dirty;
        &mut self.value
    }
}

/// A variable that is received from the server by the client. Counterpart to [`NetworkVar`].
pub struct ServerVar<T> {
    // This is an Option because the data is inserted before the value from the server is known.
    value: Option<T>,
}

impl<T> ServerVar<T> {
    /// The value, once known.
    pub closed spec fn known(&self) -> Option<T> {
        self.value
    }

    /// A variable that starts out with `default`, the same value its [`NetworkVar`] starts with.
    pub fn from_default(default: T) -> (r: Self)
        ensures
            r.known() == Some(default),
    {
        ServerVar { value: Some(default) }
    }

    /// A variable whose value has not arrived yet.
    pub fn uninitialized() -> (r: Self)
        ensures
            r.known() is None,
    {
        ServerVar { value: None }
    }

    pub fn set(&mut self, value: T)
        ensures
            final(self).known() == Some(value),
    {
        self.value = Some(value);
    }

    pub fn get(&self) -> (r: Option<&T>)
        ensures
            r matches Some(v) ==> self.known() == Some(*v),
            r is None <==> self.known() is None,
    {
        self.value.as_ref()
    }

    /// The value; it must have arrived.
    pub fn value(&self) -> (r: &T)
        requires
            self.known() is Some,
        ensures
            self.known() == Some(*r),
    {
        self.value.as_ref().unwrap()
    }
}

/// A value sent over the network, either owned or borrowed.
#[verifier::reject_recursive_types(T)]
pub struct ValueUpdate<'a, T: Clone>(pub Cow<'a, T>);

impl<'a, T: Clone> ValueUpdate<'a, T> {
    pub fn owned(value: T) -> (r: Self)
        ensures
            r.0 matches Cow::Owned(v) && v == value,
    {
        ValueUpdate(Cow::Owned(value))
    }

    pub fn borrowed(value: &'a T) -> (r: Self)
        ensures
            r.0 matches Cow::Borrowed(v) && *v == *value,
    {
        ValueUpdate(Cow::Borrowed(value))
    }
}

} // verus!
