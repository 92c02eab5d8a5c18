//! Whether this program runs as the server or as a client, and how far a client got
//! in joining a server.
use vstd::prelude::*;

verus! {

/// The part this program plays in the network.
#[derive(Clone, Copy, PartialEq, Eq, Structural, Debug)]
pub enum NetworkRole {
    Server,
    Client,
}

/// Holds the network role of this program.
pub struct NetworkManager {
    pub role: NetworkRole,
}

impl NetworkManager {
    pub fn is_server(&self) -> (r: bool)
        ensures
            r == (self.role == NetworkRole::Server),
    {
        self.role == NetworkRole::Server
    }

    pub fn is_client(&self) -> (r: bool)
        ensures
            r == (self.role == NetworkRole::Client),
    {
        self.role == NetworkRole::Client
    }
}

/// How far a client got in joining a server.
#[derive(Clone, Copy, PartialEq, Eq, Structural, Debug, Hash)]
pub enum ClientState {
    Initial,
    Joining,
    Connected,
}

impl Default for ClientState {
    /// A client starts out not connected to anything.
    fn default() -> (r: Self)
        ensures
            r == ClientState::Initial,
    {
        ClientState::Initial
    }
}

} // verus!
