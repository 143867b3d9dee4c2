//! Session credentials, supplied by the caller at start-up.

use vstd::prelude::*;

verus! {

/// Credentials a session needs to submit transactions: the signing key and
/// the RPC endpoint.  The library never reads the environment itself; the
/// embedding program loads the two values and hands them in.
pub struct Config {
    pub private_key: String,
    pub rpc_url: String,
}

impl Config {
    /// Packs the two credential strings, unchanged, into a `Config`.
    pub fn new(private_key: String, rpc_url: String) -> (c: Config)
        ensures
            c.private_key@ == private_key@,
            c.rpc_url@ == rpc_url@,
    {
        Config { private_key, rpc_url }
    }
}

} // verus!
