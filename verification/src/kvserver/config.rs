//! The server's configuration: database file, listening port, and
//! worker-pool width.

use vstd::prelude::*;

verus! {

/// File name a server uses when none is given.
pub const DEFAULT_FILENAME: &'static str = "data.kv";

/// Port a server listens on when none is given.
pub const DEFAULT_LISTEN_PORT: u16 = 1926;

/// Worker threads a server runs when no count is given.
pub const DEFAULT_THREADS: u16 = 4;

/// Everything a running server needs to know.
#[derive(Clone, Debug)]
pub struct KVServerConfig {
    pub db_file: String,
    pub listen_port: u16,
    pub threads: u16,
}

impl KVServerConfig {
    /// The configuration with every field at its default.
    pub fn from_default() -> (ret: Self)
        ensures
            ret.db_file@ == DEFAULT_FILENAME@,
            ret.listen_port == DEFAULT_LISTEN_PORT,
            ret.threads == DEFAULT_THREADS,
    {
        KVServerConfig {
            db_file: DEFAULT_FILENAME.to_owned(),
            listen_port: DEFAULT_LISTEN_PORT,
            threads: DEFAULT_THREADS,
        }
    }
}

} // verus!
