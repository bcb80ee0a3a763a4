//! The server's settings.

use vstd::prelude::*;

verus! {

/// The settings of the server.
#[derive(Clone, Copy, Debug)]
pub struct Config {
    /// The port to serve on.
    pub port: u16,
}

/// The port that is used where the settings name none.
pub fn default_port() -> (port: u16)
    ensures
        port == 5072,
{
    5072
}

impl Default for Config {
    /// The settings with the default port.
    fn default() -> (config: Self)
        ensures
            config.port == 5072,
    {
        Config { port: default_port() }
    }
}

} // verus!
