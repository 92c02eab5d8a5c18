//! The players connected to a server.
use std::collections::HashMap;
use vstd::prelude::*;

verus! {

broadcast use vstd::std_specs::hash::group_hash_axioms;

/// A connection to a peer.
#[derive(Clone, Copy, PartialEq, Eq, Structural, Debug, Hash)]
pub struct ConnectionId(pub u64);

/// A connected player.
pub struct Player {
    pub id: u128,
    pub username: String,
}

/// The players, by connection, and the connection of each player.
pub struct Players {
    players: HashMap<u64, Player>,
    user_ids: HashMap<u128, ConnectionId>,
}

impl Players {
    /// The player on each connection.
    pub closed spec fn players_view(&self) -> Map<u64, Player> {
        self.players@
    }

    /// The connection of each player.
    pub closed spec fn user_ids_view(&self) -> Map<u128, ConnectionId> {
        self.user_ids@
    }

    /// Nobody is connected.
    pub fn new() -> (r: Self)
        ensures
            r.players_view() == Map::<u64, Player>::empty(),
            r.user_ids_view() == Map::<u128, ConnectionId>::empty(),
    {
        Players { players: HashMap::new(), user_ids: HashMap::new() }
    }

    /// Records the player who said hello on `connection`.
    pub fn add(&mut self, connection: ConnectionId, id: u128, username: String)
        ensures
            final(self).players_view() == old(self).players_view().insert(connection.0, Player { id, username }),
            final(self).user_ids_view() == old(self).user_ids_view().insert(id, connection),
    {
        self.players.insert(connection.0, Player { id, username });
        self.user_ids.insert(id, connection);
    }

    /// Forgets the player on `connection`, giving it back.
    pub fn remove(&mut self, connection: ConnectionId) -> (r: Option<Player>)
        ensures
            final(self).players_view() == old(self).players_view().remove(connection.0),
            match r {
                Some(p) => old(self).players_view().contains_key(connection.0) && p == old(self).players_view()[connection.0]
                    && final(self).user_ids_view() == old(self).user_ids_view().remove(p.id),
                None => !old(self).players_view().contains_key(connection.0) && final(self).user_ids_view()
                    == old(self).user_ids_view(),
            },
    {
        match self.players.remove(&connection.0) {
            Some(player) => {
                self.user_ids.remove(&player.id);
                Some(player)
            },
            None => {
                assert(self.players_view() =~= old(self).players_view().remove(connection.0));
                None
            },
        }
    }

    /// The connection of player `id`.
    pub fn get_connection(&self, id: u128) -> (r: Option<ConnectionId>)
        ensures
            r == (if self.user_ids_view().contains_key(id) { Some(self.user_ids_view()[id]) } else { None }),
    {
        match self.user_ids.get(&id) {
            Some(c) => Some(*c),
            None => None,
        }
    }

    /// Every connected player, by connection number.
    pub fn players(&self) -> (r: &HashMap<u64, Player>)
        ensures
            r@ == self.players_view(),
    {
        &self.players
    }

    /// The player on `connection`.
    pub fn get(&self, connection: ConnectionId) -> (r: Option<&Player>)
        ensures
            match r {
                Some(p) => self.players_view().contains_key(connection.0) && *p == self.players_view()[connection.0],
                None => !self.players_view().contains_key(connection.0),
            },
    {
        self.players.get(&connection.0)
    }
}

} // verus!
