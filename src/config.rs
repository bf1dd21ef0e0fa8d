//! Server configuration.
use vstd::prelude::*;

verus! {

/// Where the server listens.
#[derive(Debug, Clone)]
pub struct NfsConfig {
    pub bind_addr: String,
    pub port: u16,
}

impl Default for NfsConfig {
    /// All interfaces, on the NFS port.
    fn default() -> (r: NfsConfig)
        ensures
            r.bind_addr@ == "0.0.0.0"@,
            r.port == 2049,
    {
        NfsConfig { bind_addr: "0.0.0.0".to_owned(), port: 2049 }
    }
}

} // verus!
