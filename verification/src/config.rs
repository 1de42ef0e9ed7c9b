//! The server's configuration: the port to listen on and where its
//! private key lives. Reading and writing the configuration file stays
//! outside; the defaults are fixed here.

use vstd::prelude::*;

verus! {

/// The server configuration.
pub struct Config {
    pub port: u16,
    pub private_key: String,
}

impl Default for Config {
    /// The configuration written on first start: port 3000, the key
    /// beside the data files.
    fn default() -> (c: Config)
        ensures
            c.port == 3000,
            c.private_key@ == "data/server.key"@,
    {
        Config {
            port: 3000,
            private_key: String::from_str("data/server.key"),
        }
    }
}

} // verus!
