//! Which connections observe a networked object, and how that changes from frame to frame.
use vstd::prelude::*;
use crate::networking::players::ConnectionId;

verus! {

/// How a connection observes an object.
#[derive(Clone, Copy, PartialEq, Eq, Structural, Debug)]
pub enum ObserverState {
    /// Observation started this frame.
    Added,
    /// Has observed for at least one frame.
    Observing,
    /// Observation stopped this frame.
    Removed,
}

/// The state of each connection, later entries winning.
pub open spec fn states_of(s: Seq<(ConnectionId, ObserverState)>) -> Map<u64, ObserverState>
    decreases s.len(),
{
    if s.len() == 0 {
        Map::empty()
    } else {
        states_of(s.drop_last()).insert(s.last().0.0, s.last().1)
    }
}

/// No connection is listed twice.
pub open spec fn distinct_connections(s: Seq<(ConnectionId, ObserverState)>) -> bool {
    forall|i: int, j: int| 0 <= i < j < s.len() ==> s[i].0 != s[j].0
}

pub proof fn lemma_states_of(s: Seq<(ConnectionId, ObserverState)>)
    requires
        distinct_connections(s),
    ensures
        forall|i: int| 0 <= i < s.len() ==> states_of(s).contains_key(#[trigger] s[i].0.0) && states_of(s)[s[i].0.0] == s[i].1,
        forall|k: u64| #[trigger] states_of(s).contains_key(k) ==> exists|i: int| 0 <= i < s.len() && s[i].0.0 == k,
    decreases s.len(),
{
    if s.len() > 0 {
        lemma_states_of(s.drop_last());
        assert forall|i: int| 0 <= i < s.len() implies states_of(s).contains_key(#[trigger] s[i].0.0) && states_of(s)[s[i].0.0] == s[i].1 by {
            if i < s.len() - 1 {
                assert(s.drop_last()[i] == s[i]);
                assert(s[i].0 != s[s.len() - 1].0);
            }
        }
        assert forall|k: u64| #[trigger] states_of(s).contains_key(k) implies exists|i: int| 0 <= i < s.len() && s[i].0.0 == k by {
            if k != s.last().0.0 {
                assert(states_of(s.drop_last()).contains_key(k));
                let i = choose|i: int| 0 <= i < s.drop_last().len() && s.drop_last()[i].0.0 == k;
                assert(s[i] == s.drop_last()[i]);
            } else {
                assert(s[s.len() - 1].0.0 == k);
            }
        }
    }
}

/// The states after a frame ends: new observers become observing, removed ones are forgotten.
pub open spec fn after_update(m: Map<u64, ObserverState>) -> Map<u64, ObserverState> {
    Map::new(
        |k: u64| m.contains_key(k) && m[k] != ObserverState::Removed,
        |k: u64| if m[k] == ObserverState::Added { ObserverState::Observing } else { m[k] },
    )
}

/// The states after every observer is removed: observers added this frame are
/// forgotten, the others are marked removed.
pub open spec fn after_remove_all(m: Map<u64, ObserverState>) -> Map<u64, ObserverState> {
    Map::new(|k: u64| m.contains_key(k) && m[k] != ObserverState::Added, |k: u64| ObserverState::Removed)
}

/// Stores which connections are observing something.
pub struct NetworkVisibility {
    observers: Vec<(ConnectionId, ObserverState)>,
}

impl NetworkVisibility {
    /// The state of each observing connection.
    pub closed spec fn states(&self) -> Map<u64, ObserverState> {
        states_of(self.observers@)
    }

    /// Each connection is listed once.
    pub closed spec fn well_formed(&self) -> bool {
        distinct_connections(self.observers@)
    }

    /// Nobody observes.
    pub fn new() -> (r: Self)
        ensures
            r.well_formed(),
            r.states() == Map::<u64, ObserverState>::empty(),
    {
        NetworkVisibility { observers: Vec::new() }
    }

    fn find(&self, connection: ConnectionId) -> (r: Option<usize>)
        requires
            self.well_formed(),
        ensures
            match r {
                Some(i) => i < self.observers@.len() && self.observers@[i as int].0 == connection,
                None => !self.states().contains_key(connection.0),
            },
    {
        proof {
            lemma_states_of(self.observers@);
        }
        let mut i: usize = 0;
        while i < self.observers.len()
            invariant
                i <= self.observers.len(),
                forall|j: int| 0 <= j < i ==> self.observers@[j].0 != connection,
            decreases self.observers.len() - i,
        {
            if self.observers[i].0 == connection {
                return Some(i);
            }
            i = i + 1;
        }
        None
    }

    /// Sets the state of the connection listed at `i`.
    fn set_state(&mut self, i: usize, state: ObserverState)
        requires
            old(self).well_formed(),
            i < old(self).observers@.len(),
        ensures
            final(self).well_formed(),
            final(self).states() == old(self).states().insert(old(self).observers@[i as int].0.0, state),
    {
        let connection = self.observers[i].0;
        let ghost before = self.observers@;
        self.observers.set(i, (connection, state));
        proof {
            lemma_states_of(before);
            lemma_states_of(self.observers@);
            assert(states_of(self.observers@) =~= states_of(before).insert(connection.0, state)) by {
                assert forall|k: u64| states_of(self.observers@).contains_key(k) implies states_of(before).insert(connection.0, state).contains_key(k) by {
                    let j = choose|j: int| 0 <= j < self.observers@.len() && self.observers@[j].0.0 == k;
                    assert(before[j].0.0 == k);
                }
                assert forall|k: u64| states_of(before).insert(connection.0, state).contains_key(k) implies states_of(self.observers@).contains_key(k) by {
                    if k != connection.0 {
                        let j = choose|j: int| 0 <= j < before.len() && before[j].0.0 == k;
                        assert(self.observers@[j].0.0 == k);
                    } else {
                        assert(self.observers@[i as int].0.0 == k);
                    }
                }
                assert forall|k: u64| states_of(self.observers@).contains_key(k) implies states_of(self.observers@)[k] == states_of(before).insert(connection.0, state)[k] by {
                    let j = choose|j: int| 0 <= j < self.observers@.len() && self.observers@[j].0.0 == k;
                    assert(before[j].0.0 == k);
                }
            }
        }
    }

    /// Forgets the connection listed at `i`.
    fn forget(&mut self, i: usize)
        requires
            old(self).well_formed(),
            i < old(self).observers@.len(),
        ensures
            final(self).well_formed(),
            final(self).states() == old(self).states().remove(old(self).observers@[i as int].0.0),
    {
        let ghost before = self.observers@;
        let (connection, _) = self.observers.remove(i);
        proof {
            lemma_states_of(before);
            assert forall|a: int, b: int| 0 <= a < b < self.observers@.len() implies self.observers@[a].0 != self.observers@[b].0 by {
                let a2 = if a < i { a } else { a + 1 };
                let b2 = if b < i { b } else { b + 1 };
                assert(self.observers@[a] == before[a2]);
                assert(self.observers@[b] == before[b2]);
            }
            lemma_states_of(self.observers@);
            assert(states_of(self.observers@) =~= states_of(before).remove(connection.0)) by {
                assert forall|k: u64| states_of(self.observers@).contains_key(k) implies states_of(before).remove(connection.0).contains_key(k) by {
                    let j = choose|j: int| 0 <= j < self.observers@.len() && self.observers@[j].0.0 == k;
                    let j2 = if j < i { j } else { j + 1 };
                    assert(before[j2] == self.observers@[j]);
                    assert(j2 != i);
                }
                assert forall|k: u64| states_of(before).remove(connection.0).contains_key(k) implies states_of(self.observers@).contains_key(k) by {
                    let j = choose|j: int| 0 <= j < before.len() && before[j].0.0 == k;
                    assert(j != i);
                    let j2 = if j < i { j } else { j - 1 };
                    assert(self.observers@[j2] == before[j]);
                }
                assert forall|k: u64| states_of(self.observers@).contains_key(k) implies states_of(self.observers@)[k] == states_of(before).remove(connection.0)[k] by {
                    let j = choose|j: int| 0 <= j < self.observers@.len() && self.observers@[j].0.0 == k;
                    let j2 = if j < i { j } else { j + 1 };
                    assert(before[j2] == self.observers@[j]);
                }
            }
        }
    }

    /// `connection` starts observing: a new observer is added, one removed this frame
    /// goes on observing.
    pub fn add_observer(&mut self, connection: ConnectionId)
        requires
            old(self).well_formed(),
        ensures
            final(self).well_formed(),
            final(self).states() == (if old(self).states().contains_key(connection.0) {
                if old(self).states()[connection.0] == ObserverState::Removed {
                    old(self).states().insert(connection.0, ObserverState::Observing)
                } else {
                    old(self).states()
                }
            } else {
                old(self).states().insert(connection.0, ObserverState::Added)
            }),
    {
        proof {
            lemma_states_of(self.observers@);
        }
        match self.find(connection) {
            Some(i) => {
                if self.observers[i].1 == ObserverState::Removed {
                    self.set_state(i, ObserverState::Observing);
                }
            },
            None => {
                let ghost before = self.observers@;
                self.observers.push((connection, ObserverState::Added));
                assert(self.observers@.drop_last() =~= before);
            },
        }
    }

    /// `connection` stops observing: an observer added this frame is forgotten, one
    /// observing is marked removed.
    pub fn remove_observer(&mut self, connection: ConnectionId)
        requires
            old(self).well_formed(),
        ensures
            final(self).well_formed(),
            final(self).states() == (if old(self).states().contains_key(connection.0) {
                match old(self).states()[connection.0] {
                    ObserverState::Added => old(self).states().remove(connection.0),
                    ObserverState::Observing => old(self).states().insert(connection.0, ObserverState::Removed),
                    ObserverState::Removed => old(self).states(),
                }
            } else {
                old(self).states()
            }),
    {
        proof {
            lemma_states_of(self.observers@);
        }
        match self.find(connection) {
            Some(i) => match self.observers[i].1 {
                ObserverState::Added => self.forget(i),
                ObserverState::Observing => self.set_state(i, ObserverState::Removed),
                ObserverState::Removed => {},
            },
            None => {},
        }
    }

    /// Applies `step` to each listed connection, keeping it (with the new state) or
    /// forgetting it.
    fn remove_observers_or_update(&mut self, ending_frame: bool)
        requires
            old(self).well_formed(),
        ensures
            final(self).well_formed(),
            final(self).states() == (if ending_frame { after_update(old(self).states()) } else { after_remove_all(old(self).states()) }),
    {
        let ghost before = self.observers@;
        proof {
            lemma_states_of(before);
        }
        let mut kept: Vec<(ConnectionId, ObserverState)> = Vec::new();
        let mut i: usize = 0;
        while i < self.observers.len()
            invariant
                before == self.observers@,
                distinct_connections(before),
                i <= before.len(),
                distinct_connections(kept@),
                forall|j: int| 0 <= j < kept@.len() ==> exists|l: int| 0 <= l < i && before[l].0 == #[trigger] kept@[j].0,
                states_of(kept@) == (if ending_frame { after_update(states_of(before.take(i as int))) } else { after_remove_all(states_of(before.take(i as int))) }),
            decreases before.len() - i,
        {
            let (connection, state) = self.observers[i];
            let ghost prefix = before.take(i as int);
            assert(before.take(i as int + 1).drop_last() =~= prefix);
            assert(before.take(i as int + 1).last() == (connection, state));
            proof {
                lemma_states_of(prefix);
                assert(!states_of(prefix).contains_key(connection.0)) by {
                    if states_of(prefix).contains_key(connection.0) {
                        let l = choose|l: int| 0 <= l < prefix.len() && prefix[l].0.0 == connection.0;
                        assert(before[l].0 == before[i as int].0);
                    }
                }
            }
            let next: Option<ObserverState> = if ending_frame {
                match state {
                    ObserverState::Added => Some(ObserverState::Observing),
                    ObserverState::Observing => Some(ObserverState::Observing),
                    ObserverState::Removed => None,
                }
            } else {
                match state {
                    ObserverState::Added => None,
                    _ => Some(ObserverState::Removed),
                }
            };
            let ghost m = states_of(prefix);
            let ghost m2 = m.insert(connection.0, state);
            match next {
                Some(s) => {
                    let ghost kept_before = kept@;
                    proof {
                        assert forall|j: int| 0 <= j < kept_before.len() implies kept_before[j].0 != connection by {
                            let l = choose|l: int| 0 <= l < i && before[l].0 == kept_before[j].0;
                            assert(before[l].0 != before[i as int].0);
                        }
                    }
                    kept.push((connection, s));
                    assert(kept@.drop_last() =~= kept_before);
                    assert forall|j: int| 0 <= j < kept@.len() implies exists|l: int| 0 <= l < i + 1 && before[l].0 == #[trigger] kept@[j].0 by {
                        if j < kept_before.len() {
                            assert(kept@[j] == kept_before[j]);
                            let l = choose|l: int| 0 <= l < i && before[l].0 == kept_before[j].0;
                        } else {
                            assert(before[i as int].0 == kept@[j].0);
                        }
                    }
                    if ending_frame {
                        assert(after_update(m2) =~= after_update(m).insert(connection.0, s));
                    } else {
                        assert(after_remove_all(m2) =~= after_remove_all(m).insert(connection.0, s));
                    }
                },
                None => {
                    if ending_frame {
                        assert(after_update(m2) =~= after_update(m));
                    } else {
                        assert(after_remove_all(m2) =~= after_remove_all(m));
                    }
                },
            }
            i = i + 1;
        }
        assert(before.take(before.len() as int) =~= before);
        self.observers = kept;
    }

    /// Removes every observer: those added this frame are forgotten, the others marked removed.
    pub fn remove_observers(&mut self)
        requires
            old(self).well_formed(),
        ensures
            final(self).well_formed(),
            final(self).states() == after_remove_all(old(self).states()),
    {
        self.remove_observers_or_update(false);
    }

    /// Ends a frame: new observers become observing, removed ones are forgotten.
    pub fn update(&mut self)
        requires
            old(self).well_formed(),
        ensures
            final(self).well_formed(),
            final(self).states() == after_update(old(self).states()),
    {
        self.remove_observers_or_update(true);
    }

    /// Marks every observer removed. No observer may have been added this frame.
    pub fn assume_removed(&mut self)
        requires
            old(self).well_formed(),
            forall|k: u64| #[trigger] old(self).states().contains_key(k) ==> old(self).states()[k] != ObserverState::Added,
        ensures
            final(self).well_formed(),
            final(self).states() == after_remove_all(old(self).states()),
    {
        self.remove_observers_or_update(false);
    }

    /// The connections in the given states.
    fn connections_where(&self, added: bool, observing: bool, removed: bool) -> (r: Vec<ConnectionId>)
        requires
            self.well_formed(),
        ensures
            forall|i: int, j: int| 0 <= i < j < r@.len() ==> r@[i] != r@[j],
            forall|c: ConnectionId| r@.contains(c) <==> self.states().contains_key(c.0) && match self.states()[c.0] {
                ObserverState::Added => added,
                ObserverState::Observing => observing,
                ObserverState::Removed => removed,
            },
    {
        proof {
            lemma_states_of(self.observers@);
        }
        let mut out: Vec<ConnectionId> = Vec::new();
        let mut i: usize = 0;
        while i < self.observers.len()
            invariant
                distinct_connections(self.observers@),
                i <= self.observers.len(),
                forall|a: int, b: int| 0 <= a < b < out@.len() ==> out@[a] != out@[b],
                forall|j: int| 0 <= j < out@.len() ==> exists|l: int| 0 <= l < i && self.observers@[l].0 == #[trigger] out@[j],
                forall|c: ConnectionId| out@.contains(c) <==> exists|l: int| 0 <= l < i && self.observers@[l].0 == c && match self.observers@[l].1 {
                    ObserverState::Added => added,
                    ObserverState::Observing => observing,
                    ObserverState::Removed => removed,
                },
            decreases self.observers.len() - i,
        {
            let (connection, state) = self.observers[i];
            let wanted = match state {
                ObserverState::Added => added,
                ObserverState::Observing => observing,
                ObserverState::Removed => removed,
            };
            if wanted {
                let ghost before = out@;
                assert forall|j: int| 0 <= j < before.len() implies before[j] != connection by {
                    let l = choose|l: int| 0 <= l < i && self.observers@[l].0 == before[j];
                    assert(self.observers@[l].0 != self.observers@[i as int].0);
                }
                out.push(connection);
                assert forall|c: ConnectionId| out@.contains(c) <==> exists|l: int| 0 <= l < i + 1 && self.observers@[l].0 == c && match self.observers@[l].1 {
                    ObserverState::Added => added,
                    ObserverState::Observing => observing,
                    ObserverState::Removed => removed,
                } by {
                    if out@.contains(c) {
                        let j = choose|j: int| 0 <= j < out@.len() && out@[j] == c;
                        if j < before.len() {
                            assert(before.contains(c));
                        }
                    }
                    if c == connection {
                        assert(out@[out@.len() - 1] == c);
                    } else if exists|l: int| 0 <= l < i + 1 && self.observers@[l].0 == c && match self.observers@[l].1 {
                        ObserverState::Added => added,
                        ObserverState::Observing => observing,
                        ObserverState::Removed => removed,
                    } {
                        assert(before.contains(c));
                        let j = choose|j: int| 0 <= j < before.len() && before[j] == c;
                        assert(out@[j] == c);
                    }
                }
                assert forall|j: int| 0 <= j < out@.len() implies exists|l: int| 0 <= l < i + 1 && self.observers@[l].0 == #[trigger] out@[j] by {
                    if j < before.len() {
                        assert(out@[j] == before[j]);
                        let l = choose|l: int| 0 <= l < i && self.observers@[l].0 == before[j];
                    } else {
                        assert(self.observers@[i as int].0 == out@[j]);
                    }
                }
            } else {
                assert forall|c: ConnectionId| out@.contains(c) <==> exists|l: int| 0 <= l < i + 1 && self.observers@[l].0 == c && match self.observers@[l].1 {
                    ObserverState::Added => added,
                    ObserverState::Observing => observing,
                    ObserverState::Removed => removed,
                } by {
                    if exists|l: int| 0 <= l < i + 1 && self.observers@[l].0 == c && match self.observers@[l].1 {
                        ObserverState::Added => added,
                        ObserverState::Observing => observing,
                        ObserverState::Removed => removed,
                    } {
                        let l = choose|l: int| 0 <= l < i + 1 && self.observers@[l].0 == c && match self.observers@[l].1 {
                            ObserverState::Added => added,
                            ObserverState::Observing => observing,
                            ObserverState::Removed => removed,
                        };
                        assert(l != i);
                    }
                }
            }
            i = i + 1;
        }
        proof {
            assert forall|c: ConnectionId| out@.contains(c) <==> self.states().contains_key(c.0) && match self.states()[c.0] {
                ObserverState::Added => added,
                ObserverState::Observing => observing,
                ObserverState::Removed => removed,
            } by {
                if self.states().contains_key(c.0) {
                    let l = choose|l: int| 0 <= l < self.observers@.len() && self.observers@[l].0.0 == c.0;
                    assert(self.observers@[l].0 == c);
                }
            }
        }
        out
    }

    /// The connections observing (added this frame or before).
    pub fn observers(&self) -> (r: Vec<ConnectionId>)
        requires
            self.well_formed(),
        ensures
            forall|i: int, j: int| 0 <= i < j < r@.len() ==> r@[i] != r@[j],
            forall|c: ConnectionId| r@.contains(c) <==> self.states().contains_key(c.0)
                && self.states()[c.0] != ObserverState::Removed,
    {
        self.connections_where(true, true, false)
    }

    /// The connections that started observing this frame.
    pub fn new_observers(&self) -> (r: Vec<ConnectionId>)
        requires
            self.well_formed(),
        ensures
            forall|i: int, j: int| 0 <= i < j < r@.len() ==> r@[i] != r@[j],
            forall|c: ConnectionId| r@.contains(c) <==> self.states().contains_key(c.0)
                && self.states()[c.0] == ObserverState::Added,
    {
        self.connections_where(true, false, false)
    }

    /// The connections that observed before this frame and still do.
    pub fn existing_observers(&self) -> (r: Vec<ConnectionId>)
        requires
            self.well_formed(),
        ensures
            forall|i: int, j: int| 0 <= i < j < r@.len() ==> r@[i] != r@[j],
            forall|c: ConnectionId| r@.contains(c) <==> self.states().contains_key(c.0)
                && self.states()[c.0] == ObserverState::Observing,
    {
        self.connections_where(false, true, false)
    }

    /// The connections that stopped observing this frame.
    pub fn removed_observers(&self) -> (r: Vec<ConnectionId>)
        requires
            self.well_formed(),
        ensures
            forall|i: int, j: int| 0 <= i < j < r@.len() ==> r@[i] != r@[j],
            forall|c: ConnectionId| r@.contains(c) <==> self.states().contains_key(c.0)
                && self.states()[c.0] == ObserverState::Removed,
    {
        self.connections_where(false, false, true)
    }

    /// All listed connections, including those that just stopped observing.
    pub fn all_observers(&self) -> (r: Vec<ConnectionId>)
        requires
            self.well_formed(),
        ensures
            forall|i: int, j: int| 0 <= i < j < r@.len() ==> r@[i] != r@[j],
            forall|c: ConnectionId| r@.contains(c) <==> self.states().contains_key(c.0),
    {
        self.connections_where(true, true, true)
    }

    /// Whether `connection` observes (added this frame or before).
    pub fn has_observer(&self, connection: ConnectionId) -> (r: bool)
        requires
            self.well_formed(),
        ensures
            r == (self.states().contains_key(connection.0) && self.states()[connection.0] != ObserverState::Removed),
    {
        proof {
            lemma_states_of(self.observers@);
        }
        match self.find(connection) {
            Some(i) => self.observers[i].1 != ObserverState::Removed,
            None => false,
        }
    }
}

/// A frame's end leaves only observing connections.
pub proof fn lemma_update_settles(m: Map<u64, ObserverState>)
    ensures
        forall|k: u64| #[trigger] after_update(m).contains_key(k) ==> after_update(m)[k] == ObserverState::Observing,
{
}

/// A connection just added observes; once it is removed (in the same frame) it is
/// forgotten; once a frame ends, it goes on observing.
pub proof fn lemma_observer_lifecycle(m: Map<u64, ObserverState>, c: u64)
    requires
        !m.contains_key(c),
    ensures
        m.insert(c, ObserverState::Added).remove(c) == m,
        after_update(m.insert(c, ObserverState::Added))[c] == ObserverState::Observing,
{
    assert(m.insert(c, ObserverState::Added).remove(c) =~= m);
}

} // verus!
