//! Server configuration and the registration ping sent to the central server list.
use vstd::prelude::*;

verus! {

/// How a server registers with the central server list.
pub struct ServerRegistration {
    api_url: String,
    pub private_key: [u8; 32],
}

impl ServerRegistration {
    pub fn new(api_url: String, private_key: [u8; 32]) -> (r: Self)
        ensures
            r.api_url_view() == api_url@,
            r.private_key_view() == private_key@,
    {
        ServerRegistration { api_url, private_key }
    }

    pub closed spec fn api_url_view(&self) -> Seq<char> {
        self.api_url@
    }

    pub closed spec fn private_key_view(&self) -> Seq<u8> {
        self.private_key@
    }

    /// Where pings are sent.
    pub fn api_url(&self) -> (r: &str)
        ensures
            r@ == self.api_url_view(),
    {
        self.api_url.as_str()
    }
}

/// The server's configuration.
pub struct ServerConfig {
    pub registration: Option<ServerRegistration>,
}

impl Default for ServerConfig {
    /// No registration: the server is not listed.
    fn default() -> (r: Self)
        ensures
            r.registration is None,
    {
        ServerConfig { registration: None }
    }
}

/// The GraphQL mutation that pings the server list.
pub const SERVER_PING_MUTATION: &'static str = "mutation ping($privateKey: [Int!], $port: Int!) {
  serverPing(input: {privateKey: $privateKey, port: $port}) {
    id
  }
}";

/// The variables of a ping.
pub struct ServerPingMutationVariables {
    pub port: u16,
    pub private_key: [u8; 32],
}

/// A ping of the server list: the mutation and its variables.
pub struct ServerPingMutation {
    pub query: &'static str,
    pub variables: ServerPingMutationVariables,
}

impl ServerPingMutation {
    pub fn new(private_key: [u8; 32], port: u16) -> (r: Self)
        ensures
            r.query@ == SERVER_PING_MUTATION@,
            r.variables.private_key == private_key,
            r.variables.port == port,
    {
        ServerPingMutation { query: SERVER_PING_MUTATION, variables: ServerPingMutationVariables { private_key, port } }
    }
}

} // verus!
