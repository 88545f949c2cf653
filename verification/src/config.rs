//! What the server is told once, when it starts.

use vstd::prelude::*;

verus! {

/// The settings of a running server. They are fixed at startup and only read
/// afterwards, by every request alike.
#[derive(Debug, Clone, PartialEq, Eq)]
pub struct ServerConfig {
    /// The directory whose content is served, as an absolute path with every
    /// link followed.
    pub base_directory: Vec<u8>,
    /// The port on which the server listens.
    pub listen_port: u16,
}

/// What a [`ServerConfig`] holds.
pub struct ServerConfigView {
    pub base_directory: Seq<u8>,
    pub listen_port: u16,
}

impl View for ServerConfig {
    type V = ServerConfigView;

    open spec fn view(&self) -> ServerConfigView {
        ServerConfigView { base_directory: self.base_directory@, listen_port: self.listen_port }
    }
}

impl ServerConfig {
    /// The settings of a server that serves `base_directory` on `listen_port`.
    pub fn new(base_directory: Vec<u8>, listen_port: u16) -> (config: ServerConfig)
        ensures
            config@ == (ServerConfigView { base_directory: base_directory@, listen_port }),
    {
        ServerConfig { base_directory, listen_port }
    }
}

} // verus!
